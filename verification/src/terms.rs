//! The search-term model: one item's weighted terms, either raw text to
//! be split on whitespace or a pre-tokenized list, and their
//! normalization into lowercased keywords.

use vstd::prelude::*;
use crate::text::{lower_of, split_ws_of, split_ws, to_lower};

verus! {

/// One search term: raw free text, or an already tokenized list.
#[derive(Debug, Clone)]
pub enum SearchTokens {
    Raw(String),
    Tokens(Vec<String>),
}

/// One input item: an identifier and its weighted search terms, each
/// weight in 0..=255.
#[derive(Debug, Clone)]
pub struct InputItem {
    pub id: String,
    pub search_terms: Vec<(SearchTokens, u8)>,
}

/// The keywords one term normalizes to: raw text is split on
/// whitespace and each piece lowercased; a token list is lowercased
/// element by element.
pub open spec fn term_keywords(t: SearchTokens) -> Seq<Seq<char>> {
    match t {
        SearchTokens::Raw(s) => split_ws_of(s@).map_values(|w: Seq<char>| lower_of(w)),
        SearchTokens::Tokens(v) => v.deep_view().map_values(|w: Seq<char>| lower_of(w)),
    }
}

/// Normalize one term to its list of lowercased keywords.
pub fn normalize_term(t: &SearchTokens) -> (r: Vec<String>)
    ensures
        r.deep_view() == term_keywords(*t),
{
    match t {
        SearchTokens::Raw(s) => {
            let pieces = split_ws(s.as_str());
            lower_all(&pieces)
        },
        SearchTokens::Tokens(v) => lower_all(v),
    }
}

/// Lowercase every string of a list.
fn lower_all(v: &Vec<String>) -> (r: Vec<String>)
    ensures
        r.deep_view() == v.deep_view().map_values(|w: Seq<char>| lower_of(w)),
{
    let mut out: Vec<String> = Vec::new();
    let mut i: usize = 0;
    while i < v.len()
        invariant
            i <= v.len(),
            out@.len() == i,
            forall|j: int| 0 <= j < i ==> out@[j]@ == lower_of(#[trigger] v@[j]@),
        decreases v.len() - i,
    {
        out.push(to_lower(v[i].as_str()));
        i = i + 1;
    }
    proof {
        assert(out.deep_view() =~= v.deep_view().map_values(|w: Seq<char>| lower_of(w)));
    }
    out
}

} // verus!
