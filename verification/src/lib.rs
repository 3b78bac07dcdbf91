//! Map matching on an integer coordinate grid: a spatial index of road
//! polylines, exact closest-point projection, candidate scoring, and a
//! fail-fast segment matcher.

#![allow(unused_imports)]

use vstd::prelude::*;
use vstd::string::StringSliceAdditionalSpecFns;

pub mod boxtree;
pub mod geom;
pub mod index;
pub mod map_match;
pub mod table;

verus! {

/// Stable identifier for a road entry.
pub type Id = u64;

/// Convenience constructor for any type with a `Default` implementation:
/// the result is whatever the type's `default` promises.
pub fn default<T: Default>() -> (t: T)
    ensures
        call_ensures(T::default, (), t),
{
    T::default()
}

/// Byte-wise string equality.
pub fn str_eq(a: &str, b: &str) -> (r: bool)
    ensures
        r == (a.spec_bytes() == b.spec_bytes()),
{
    let ab = a.as_bytes();
    let bb = b.as_bytes();
    let n = ab.len();
    if n != bb.len() {
        return false;
    }
    let mut i: usize = 0;
    while i < n
        invariant
            n == ab@.len(),
            n == bb@.len(),
            ab@ == a.spec_bytes(),
            bb@ == b.spec_bytes(),
            0 <= i <= n,
            forall|j: int| 0 <= j < i ==> ab@[j] == bb@[j],
        decreases n - i,
    {
        if ab[i] != bb[i] {
            return false;
        }
        i += 1;
    }
    proof {
        assert(ab@ =~= bb@);
    }
    true
}

/// The content type served for a frontend asset with the given file
/// extension, in bytes; extensions are tried in a fixed order and the
/// compiled-module type is the final arm.
pub open spec fn content_type_spec(e: Seq<u8>) -> Seq<u8> {
    if e == "js".spec_bytes() {
        "text/javascript".spec_bytes()
    } else if e == "html".spec_bytes() {
        "text/html".spec_bytes()
    } else if e == "css".spec_bytes() {
        "text/css".spec_bytes()
    } else {
        "application/wasm".spec_bytes()
    }
}

/// Content type served for a frontend asset, by file extension.
///
/// Defined for the asset kinds the frontend ships: scripts, markup, style
/// sheets and compiled modules.
pub fn content_type_based_on_extention(extention: &str) -> (r: &'static str)
    requires
        extention.spec_bytes() == "js".spec_bytes() || extention.spec_bytes()
            == "html".spec_bytes() || extention.spec_bytes() == "css".spec_bytes()
            || extention.spec_bytes() == "wasm".spec_bytes(),
    ensures
        r.spec_bytes() == content_type_spec(extention.spec_bytes()),
{
    if str_eq(extention, "js") {
        "text/javascript"
    } else if str_eq(extention, "html") {
        "text/html"
    } else if str_eq(extention, "css") {
        "text/css"
    } else {
        "application/wasm"
    }
}

} // verus!
