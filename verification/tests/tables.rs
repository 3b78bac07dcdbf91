//! Tests for the columnar tables and the crate's small utilities.

use rusty_roads::content_type_based_on_extention;
use rusty_roads::geom::{Point, Polyline};
use rusty_roads::str_eq;
use rusty_roads::table::feature_class::{FeatureClass, FeatureClassKey, FeatureClassRow};
use rusty_roads::table::name::{Name, NameKey, NameRow};
use rusty_roads::table::ref_item::{Ref, RefKey, RefRow};
use rusty_roads::table::ref_many::{RefMany, RefManyKey, RefManyRow};
use rusty_roads::table::road::{Direction, Road, RoadKey, Roads};
use rusty_roads::table::{Deleteable, Insertable, Queryable};

#[test]
fn feature_class_insert_dedups_by_class() {
    let mut t: FeatureClass = rusty_roads::default();
    let k1 = t.insert(FeatureClassRow {
        code: 1,
        fclass: "highway".to_string(),
    });
    let k2 = t.insert(FeatureClassRow {
        code: 2,
        fclass: "path".to_string(),
    });
    // a duplicate class name returns the existing row's code
    let k3 = t.insert(FeatureClassRow {
        code: 3,
        fclass: "highway".to_string(),
    });
    assert_eq!(k1.0, 1);
    assert_eq!(k2.0, 2);
    assert_eq!(k3.0, 1);
    assert_eq!(t.code.len(), 2);
    assert_eq!(t.find_index(&FeatureClassKey(2)), Some(1));
    assert_eq!(t.find_index(&FeatureClassKey(9)), None);
    let removed = t.delete(&FeatureClassKey(1)).expect("row 1 exists");
    assert_eq!(removed.code, 1);
    assert_eq!(removed.fclass, "highway");
    assert_eq!(t.code.len(), 1);
    assert!(t.delete(&FeatureClassKey(1)).is_none());
}

#[test]
fn name_generates_sequential_ids() {
    let mut t: Name = rusty_roads::default();
    let k1 = t.insert(NameRow {
        id: 999,
        name: "main street".to_string(),
    });
    let k2 = t.insert(NameRow {
        id: 999,
        name: "oak avenue".to_string(),
    });
    let dup = t.insert(NameRow {
        id: 999,
        name: "main street".to_string(),
    });
    assert_eq!(k1.0, 0);
    assert_eq!(k2.0, 1);
    assert_eq!(dup.0, 0);
    assert_eq!(t.id.len(), 2);
    let removed = t.delete(&NameKey(0)).expect("row 0 exists");
    assert_eq!(removed.name, "main street");
    // identifiers keep growing from the last row
    let k3 = t.insert(NameRow {
        id: 999,
        name: "elm road".to_string(),
    });
    assert_eq!(k3.0, 2);
    assert_eq!(t.find_index(&NameKey(1)), Some(0));
}

#[test]
fn ref_table_roundtrip() {
    let mut t: Ref = rusty_roads::default();
    let keys = t.insert_many(vec![
        RefRow {
            id: 0,
            reff: "E45".to_string(),
        },
        RefRow {
            id: 0,
            reff: "E20".to_string(),
        },
    ]);
    assert_eq!(keys.len(), 2);
    assert_eq!(keys[0].0, 0);
    assert_eq!(keys[1].0, 1);
    let found = t.find_many_indexes(&vec![RefKey(1), RefKey(7)]);
    assert_eq!(found, vec![Some(1), None]);
    let outs = t.delete_many(&vec![RefKey(0), RefKey(0)]);
    assert!(outs[0].is_some());
    assert!(outs[1].is_none());
}

#[test]
fn ref_many_composite_key() {
    let mut t: RefMany = rusty_roads::default();
    let k = t.insert(RefManyRow {
        road_id: 4,
        ref_id: 9,
    });
    assert_eq!((k.0 .0, k.1 .0), (4, 9));
    // a duplicate link is not inserted twice
    t.insert(RefManyRow {
        road_id: 4,
        ref_id: 9,
    });
    assert_eq!(t.road_id.len(), 1);
    let key = RefManyKey(RoadKey(4), RefKey(9));
    assert_eq!(t.find_index(&key), Some(0));
    let removed = t.delete(&key).expect("the link exists");
    assert_eq!((removed.road_id, removed.ref_id), (4, 9));
    assert_eq!(t.road_id.len(), 0);
}

fn road(osm_id: u64) -> Road {
    Road {
        id: 0,
        geom: Polyline::new(vec![Point::new(0, 0), Point::new(1, 1)]),
        osm_id,
        code: 7,
        direction: Direction::Forward,
        maxspeed: 50,
        layer: 0,
        bridge: false,
        tunnel: true,
    }
}

#[test]
fn roads_dedup_by_osm_id() {
    let mut t: Roads = rusty_roads::default();
    let k1 = t.insert(road(1001));
    let k2 = t.insert(road(1002));
    let dup = t.insert(road(1001));
    assert_eq!(k1.0, 0);
    assert_eq!(k2.0, 1);
    assert_eq!(dup.0, 0);
    assert_eq!(t.id.len(), 2);
    let removed = t.delete(&RoadKey(0)).expect("road 0 exists");
    assert_eq!(removed.osm_id, 1001);
    assert!(removed.tunnel);
    assert_eq!(t.find_index(&RoadKey(1)), Some(0));
    assert_eq!(t.find_index(&RoadKey(0)), None);
}

#[test]
fn direction_wire_roundtrip() {
    assert_eq!(Direction::from(0u8), Direction::Forward);
    assert_eq!(Direction::from(1u8), Direction::Backward);
    assert_eq!(Direction::from(2u8), Direction::Bidirectional);
    // unknown bytes decode to bidirectional
    assert_eq!(Direction::from(200u8), Direction::Bidirectional);
    for d in [
        Direction::Forward,
        Direction::Backward,
        Direction::Bidirectional,
    ] {
        assert_eq!(Direction::from(u8::from(d)), d);
    }
}

#[test]
fn content_types() {
    assert_eq!(content_type_based_on_extention("js"), "text/javascript");
    assert_eq!(content_type_based_on_extention("html"), "text/html");
    assert_eq!(content_type_based_on_extention("css"), "text/css");
    assert_eq!(content_type_based_on_extention("wasm"), "application/wasm");
}

#[test]
fn string_equality() {
    assert!(str_eq("abc", "abc"));
    assert!(!str_eq("abc", "abd"));
    assert!(!str_eq("abc", "ab"));
    assert!(str_eq("", ""));
}
