//! The index: keyword dictionary bytes, the compressed identifier
//! store, and the postings table, with the build and search entry
//! points.

use vstd::prelude::*;
use vstd::utf8::encode_utf8;
use crate::builder::{build_table, bviews, collect_ids};
use crate::fstmap::{fst_build, fst_entries, fst_map_ok, fst_match_word, lev_ok};
use crate::model::{
    bucket_wf, build_buckets, build_ids, build_keys, lemma_build_table_wf, table_wf,
};
use crate::query::{
    all_matched, collect_candidates, apply_matches, lemma_all_matched_bound,
    lemma_candidates_bound, query_word_list, query_words, search_spec, zero_scores,
};
use crate::rank::{lemma_rank_sort_len, lemma_rank_sort_multiset, rank_items};
use crate::store::{BuildError, FsstStrVec, total_bytes};
use crate::terms::InputItem;

verus! {

/// An error while answering a query.
#[derive(Debug, Clone, PartialEq, Eq)]
pub enum SearchError {
    /// The dictionary bytes could not be read, or a query word could
    /// not form its fuzzy automaton.
    Dictionary,
    /// The index is inconsistent: a matched keyword id has no postings
    /// bucket, a posting names an item the index does not hold, or an
    /// identifier could not be resolved.
    Inconsistent,
}

/// A built search index, immutable once constructed.
#[derive(Debug)]
pub struct Index {
    /// The keyword dictionary, as fst map bytes.
    fst: Vec<u8>,
    /// The item identifiers, compressed, in build order.
    ids: FsstStrVec,
    /// One postings bucket per keyword id: (item position, weight)
    /// pairs, weight descending.
    keyword_to_items: Vec<Vec<(usize, u8)>>,
}

impl Index {
    /// The dictionary entries, keys as UTF-8 bytes.
    pub closed spec fn entries(&self) -> Seq<(Seq<u8>, u64)> {
        fst_entries(self.fst@)
    }

    /// The postings buckets.
    pub closed spec fn buckets(&self) -> Seq<Seq<(usize, u8)>> {
        bviews(self.keyword_to_items@)
    }

    /// The stored identifiers, in build order.
    pub closed spec fn ids_model(&self) -> Seq<Seq<char>> {
        self.ids.model()
    }

    /// A well-formed index: a decodable store, readable dictionary
    /// bytes, one bucket per dictionary entry, entry `j` carrying id
    /// `j`, and buckets sorted by weight with distinct item positions
    /// below the item count.
    pub closed spec fn wf(&self) -> bool {
        &&& self.ids.wf()
        &&& fst_map_ok(self.fst@)
        &&& self.entries().len() == self.buckets().len()
        &&& forall|j: int| 0 <= j < self.entries().len() ==> (#[trigger] self.entries()[j]).1 == j
        &&& forall|j: int|
            0 <= j < self.buckets().len() ==> bucket_wf(
                #[trigger] self.buckets()[j],
                self.ids_model().len(),
            )
    }

    /// The raw parts, for serialization.
    pub closed spec fn parts(&self) -> (Seq<u8>, (Seq<u8>, Seq<u64>, Seq<u8>), Seq<Seq<(usize, u8)>>) {
        (self.fst@, self.ids.parts(), self.buckets())
    }

    /// Assemble an index from its raw parts.
    pub fn from_parts(fst: Vec<u8>, ids: FsstStrVec, keyword_to_items: Vec<Vec<(usize, u8)>>) -> (r:
        Index)
        ensures
            r.parts() == (fst@, ids.parts(), bviews(keyword_to_items@)),
    {
        Index { fst, ids, keyword_to_items }
    }

    /// Two indexes with equal parts answer every query alike.
    pub proof fn lemma_parts_determine(&self, other: &Index)
        requires
            self.parts() == other.parts(),
        ensures
            self.entries() == other.entries(),
            self.buckets() == other.buckets(),
            self.ids_model() == other.ids_model(),
            self.wf() == other.wf(),
    {
        self.ids.lemma_parts_determine(&other.ids);
    }

    /// The identifier store.
    pub fn ids(&self) -> (r: &FsstStrVec)
        ensures
            r.model() == self.ids_model(),
            r.wf() == self.wf_ids(),
            self.wf() ==> r.wf(),
    {
        &self.ids
    }

    /// Whether the identifier store alone is well-formed.
    pub closed spec fn wf_ids(&self) -> bool {
        self.ids.wf()
    }

    /// Hand out the raw parts for serialization.
    pub(crate) fn codec_parts(&self) -> (r: (&Vec<u8>, &FsstStrVec, &Vec<Vec<(usize, u8)>>))
        ensures
            r.0@ == self.parts().0,
            r.1.parts() == self.parts().1,
            bviews(r.2@) == self.parts().2,
    {
        (&self.fst, &self.ids, &self.keyword_to_items)
    }
}

/// Build an index over the items, in input order: deduplicated
/// lowercased keywords enter the sorted dictionary, each keyword's
/// postings sorted by weight descending with earlier items first on
/// ties, and the identifiers compressed in build order.
pub fn build_index(items: Vec<InputItem>) -> (r: Result<Index, BuildError>)
    requires
        total_bytes(build_ids(items@)) * 16 + 64 <= usize::MAX,
    ensures
        r is Ok,
        r matches Ok(idx) ==> {
            &&& idx.wf()
            &&& idx.entries() == Seq::new(
                build_keys(items@).len(),
                |i: int| (encode_utf8(build_keys(items@)[i]), i as u64),
            )
            &&& idx.buckets() == build_buckets(items@)
            &&& idx.ids_model() == build_ids(items@)
        },
{
    let n_items = items.len();
    let (keys, buckets) = build_table(&items);
    let n_keys = keys.len();
    proof {
        assert(items@.len() == n_items);
        lemma_build_table_wf(items@);
        assert(keys@.len() == n_keys);
        assert(keys@.len() <= u64::MAX);
    }
    let fst_bytes = fst_build(&keys);
    let ids_vec = collect_ids(&items);
    let store = match FsstStrVec::from_strings(&ids_vec) {
        Ok(s) => s,
        Err(e) => {
            return Err(e);
        },
    };
    let idx = Index { fst: fst_bytes, ids: store, keyword_to_items: buckets };
    proof {
        assert(idx.ids_model().len() == build_ids(items@).len());
        assert(idx.buckets() == build_buckets(items@));
        assert(table_wf(build_keys(items@), idx.buckets(), idx.ids_model().len()));
        assert(idx.entries().len() == idx.buckets().len());
        assert forall|j: int| 0 <= j < idx.buckets().len() implies bucket_wf(
            #[trigger] idx.buckets()[j],
            idx.ids_model().len(),
        ) by {
            assert(bucket_wf(build_buckets(items@)[j], build_ids(items@).len()));
        }
        assert(idx.wf());
    }
    Ok(idx)
}

/// When a search is owed success: the index is well-formed and every
/// candidate word of the query can form its fuzzy automaton.
pub open spec fn search_can_succeed(index: &Index, q: Seq<char>) -> bool {
    &&& index.wf()
    &&& forall|i: int| 0 <= i < query_words(q).len() ==> lev_ok(#[trigger] query_words(q)[i])
}

/// Answer a query: derive its candidate words, match each against the
/// dictionary by one-edit fuzzy and prefix automata, accumulate each
/// matched keyword's weights per item with saturating addition, rank by
/// score descending (earlier items win ties), cut to `max_results`, and
/// resolve identifiers. On a well-formed index only a query word whose
/// fuzzy automaton cannot be built makes this fail.
pub fn search(index: &Index, query: &str, max_results: usize) -> (r: Result<
    Vec<String>,
    SearchError,
>)
    ensures
        r matches Ok(out) ==> out.deep_view() == search_spec(
            index.entries(),
            index.buckets(),
            index.ids_model(),
            query@,
            max_results as nat,
        ),
        r matches Ok(out) ==> out@.len() <= max_results,
        search_can_succeed(index, query@) ==> r is Ok,
{
    broadcast use vstd::seq_lib::group_to_multiset_ensures;

    let words = query_word_list(query);
    let mut matched: Vec<u64> = Vec::new();
    let mut wi: usize = 0;
    proof {
        assert(words.deep_view().take(0) =~= Seq::<Seq<char>>::empty());
        assert(matched@ =~= all_matched(index.entries(), words.deep_view().take(0)));
    }
    while wi < words.len()
        invariant
            wi <= words@.len(),
            words.deep_view() == crate::query::query_words(query@),
            matched@ == all_matched(index.entries(), words.deep_view().take(wi as int)),
        decreases words.len() - wi,
    {
        let ids = match fst_match_word(&index.fst, &words[wi]) {
            Some(v) => v,
            None => {
                proof {
                    if search_can_succeed(index, query@) {
                        assert(words.deep_view()[wi as int] == query_words(query@)[wi as int]);
                        assert(lev_ok(words.deep_view()[wi as int]));
                        assert(fst_map_ok(index.fst@));
                        assert(false);
                    }
                }
                return Err(SearchError::Dictionary);
            },
        };
        let mut k: usize = 0;
        let ghost before = matched@;
        while k < ids.len()
            invariant
                k <= ids@.len(),
                matched@ == before + ids@.take(k as int),
            decreases ids.len() - k,
        {
            matched.push(ids[k]);
            proof {
                assert(ids@.take(k + 1) =~= ids@.take(k as int).push(ids@[k as int]));
            }
            k = k + 1;
        }
        proof {
            assert(ids@.take(ids@.len() as int) =~= ids@);
            assert(words.deep_view().take(wi + 1).drop_last() =~= words.deep_view().take(
                wi as int,
            ));
            assert(words.deep_view().take(wi + 1).last() == words.deep_view()[wi as int]);
            assert(matched@ =~= all_matched(index.entries(), words.deep_view().take(wi + 1)));
        }
        wi = wi + 1;
    }
    proof {
        assert(words.deep_view().take(words@.len() as int) =~= words.deep_view());
    }
    let n = index.ids.len();
    let mut scores: Vec<u8> = vec![0u8; n];
    proof {
        assert(n == index.ids_model().len());
        assert(scores@ =~= zero_scores(index.ids_model().len()));
    }
    let ghost prescores = scores@;
    if !apply_matches(&mut scores, &index.keyword_to_items, &matched) {
        proof {
            if search_can_succeed(index, query@) {
                lemma_all_matched_bound(index.entries(), query_words(query@));
                assert(index.entries().len() == bviews(index.keyword_to_items@).len());
                assert forall|m: int| 0 <= m < matched@.len() implies (#[trigger] matched@[m])
                    < index.keyword_to_items@.len() by {
                    assert(all_matched(index.entries(), query_words(query@))[m]
                        < index.entries().len());
                }
                assert forall|b: int, m: int|
                    0 <= b < index.keyword_to_items@.len() && 0 <= m < index.keyword_to_items@[b]@.len() implies (
                #[trigger] index.keyword_to_items@[b]@[m]).0 < prescores.len() by {
                    assert(bucket_wf(index.buckets()[b], index.ids_model().len()));
                    assert(index.buckets()[b] == index.keyword_to_items@[b]@);
                }
                assert(false);
            }
        }
        return Err(SearchError::Inconsistent);
    }
    let cands = collect_candidates(&scores);
    let mut ranked = rank_items(&cands);
    let ghost full = crate::rank::rank_sort(cands@);
    proof {
        lemma_rank_sort_len(cands@);
    }
    if max_results < ranked.len() {
        ranked.truncate(max_results);
    }
    let ghost kept = ranked@;
    proof {
        assert(forall|a: int| 0 <= a < kept.len() ==> kept[a] == full[a]);
    }
    let mut out: Vec<String> = Vec::new();
    let mut j: usize = 0;
    while j < ranked.len()
        invariant
            j <= ranked@.len(),
            ranked@ == kept,
            out@.len() == j,
            kept.len() <= full.len(),
            forall|a: int| 0 <= a < kept.len() ==> kept[a] == full[a],
            full == crate::rank::rank_sort(cands@),
            cands@ == crate::query::candidates(scores@),
            scores@.len() == index.ids_model().len(),
            forall|a: int|
                0 <= a < j ==> (#[trigger] out@[a])@ == index.ids_model()[kept[a].0 as int]
                    && kept[a].0 < index.ids_model().len(),
        decreases ranked.len() - j,
    {
        let p = ranked[j].0;
        match index.ids.get(p) {
            Some(s) => {
                proof {
                    assert(index.ids.model()[p as int] == s@);
                }
                out.push(s);
            },
            None => {
                proof {
                    if search_can_succeed(index, query@) {
                        let x = kept[j as int];
                        assert(x == full[j as int]);
                        assert(full.contains(x)) by {
                            assert(full[j as int] == x);
                        }
                        vstd::seq_lib::to_multiset_contains(full, x);
                        assert(full.to_multiset().count(x) > 0);
                        lemma_rank_sort_multiset(cands@);
                        assert(cands@.to_multiset().count(x) > 0);
                        vstd::seq_lib::to_multiset_contains(cands@, x);
                        assert(cands@.contains(x));
                        let m = choose|m: int| 0 <= m < cands@.len() && cands@[m] == x;
                        lemma_candidates_bound(scores@);
                        assert(cands@[m].0 < scores@.len());
                        assert(p < index.ids_model().len());
                        assert(index.ids.wf());
                        assert(false);
                    }
                }
                return Err(SearchError::Inconsistent);
            },
        }
        j = j + 1;
    }
    proof {
        assert(out.deep_view() =~= kept.map_values(
            |pr: (usize, u8)| index.ids_model()[pr.0 as int],
        ));
        assert(out.deep_view() == search_spec(
            index.entries(),
            index.buckets(),
            index.ids_model(),
            query@,
            max_results as nat,
        ));
    }
    Ok(out)
}

} // verus!
