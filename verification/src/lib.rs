//! A compact, serializable full-text search index over short text
//! items: identifiers are kept in a compressed string store, weighted
//! search terms become a sorted keyword dictionary with a postings
//! table, and queries are answered by fuzzy and prefix matching with
//! weight-accumulated, ranked, size-bounded results.

use vstd::prelude::*;

pub mod builder;
pub mod codec;
pub mod fstmap;
pub mod index;
pub mod laws;
pub mod model;
pub mod query;
pub mod rank;
pub mod store;
pub mod terms;
pub mod text;

verus! {

/// Saturating addition on one-byte scores: the sum, capped at the
/// largest value a score can hold.
pub fn saturating_add_u8(a: u8, b: u8) -> (r: u8)
    ensures
        r == if a + b > 255 { 255u8 } else { (a + b) as u8 },
{
    if 255 - a < b {
        255
    } else {
        a + b
    }
}

} // verus!
