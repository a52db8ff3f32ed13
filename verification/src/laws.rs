//! Laws of the library, stated and proved over the same spec functions
//! the public contracts use.

use vstd::prelude::*;
use crate::codec::{dec_index, enc_index, lemma_dec_enc_index};
use vstd::utf8::encode_utf8;
use crate::fstmap::{key_matches, matched_values};
use crate::index::Index;
use crate::model::{build_buckets, build_ids, build_keys, lemma_build_table_wf, table_wf};
use crate::query::{
    add_ids, all_matched, candidates, lowered_pieces, query_words, search_spec, zero_scores,
};
use crate::rank::{lemma_rank_sort_len, rank_sort};
use crate::terms::InputItem;
use crate::text::{lower_of, split_ws_of};

verus! {

/// Build determinism: two indexes built from the same items answer
/// every query alike, because building pins the dictionary entries,
/// the postings and the stored identifiers as functions of the items
/// alone.
pub proof fn lemma_build_deterministic(a: &Index, b: &Index, items: Seq<InputItem>, q: Seq<char>, k: nat)
    requires
        a.entries() == Seq::new(
            build_keys(items).len(),
            |i: int| (encode_utf8(build_keys(items)[i]), i as u64),
        ),
        a.buckets() == build_buckets(items),
        a.ids_model() == build_ids(items),
        b.entries() == Seq::new(
            build_keys(items).len(),
            |i: int| (encode_utf8(build_keys(items)[i]), i as u64),
        ),
        b.buckets() == build_buckets(items),
        b.ids_model() == build_ids(items),
    ensures
        search_spec(a.entries(), a.buckets(), a.ids_model(), q, k) == search_spec(
            b.entries(),
            b.buckets(),
            b.ids_model(),
            q,
            k,
        ),
{
}

/// Serialization round-trip: an index loaded from the bytes that
/// serializing an index produced answers every query as the original
/// does.
pub proof fn lemma_serialization_round_trip(
    a: &Index,
    b: &Index,
    bytes: Seq<u8>,
    q: Seq<char>,
    k: nat,
)
    requires
        bytes == enc_index(
            a.parts().0,
            a.parts().1.0,
            a.parts().1.1,
            a.parts().1.2,
            a.parts().2,
        ),
        dec_index(bytes) == Some(
            (b.parts().0, b.parts().1.0, b.parts().1.1, b.parts().1.2, b.parts().2),
        ),
        a.parts().0.len() <= usize::MAX,
        a.parts().1.0.len() <= usize::MAX,
        a.parts().1.1.len() <= usize::MAX,
        a.parts().1.2.len() <= usize::MAX,
        a.parts().2.len() <= usize::MAX,
        forall|j: int|
            0 <= j < a.parts().2.len() ==> (#[trigger] a.parts().2[j]).len() <= usize::MAX,
    ensures
        search_spec(b.entries(), b.buckets(), b.ids_model(), q, k) == search_spec(
            a.entries(),
            a.buckets(),
            a.ids_model(),
            q,
            k,
        ),
{
    lemma_dec_enc_index(
        a.parts().0,
        a.parts().1.0,
        a.parts().1.1,
        a.parts().1.2,
        a.parts().2,
    );
    assert(b.parts().0 == a.parts().0);
    assert(b.parts().1.0 == a.parts().1.0);
    assert(b.parts().1.1 == a.parts().1.1);
    assert(b.parts().1.2 == a.parts().1.2);
    assert(b.parts().2 == a.parts().2);
    assert(b.parts().1 == a.parts().1);
    assert(b.parts() == a.parts());
    a.lemma_parts_determine(b);
}

/// Case insensitivity: two queries whose lowercased pieces and
/// lowercased whole agree are answered alike, since search consults
/// only the lowercased forms.
pub proof fn lemma_search_case_insensitive(
    entries: Seq<(Seq<u8>, u64)>,
    buckets: Seq<Seq<(usize, u8)>>,
    idsm: Seq<Seq<char>>,
    q1: Seq<char>,
    q2: Seq<char>,
    k: nat,
)
    requires
        lowered_pieces(split_ws_of(q1)) == lowered_pieces(split_ws_of(q2)),
        lower_of(q1) == lower_of(q2),
    ensures
        search_spec(entries, buckets, idsm, q1, k) == search_spec(entries, buckets, idsm, q2, k),
{
    assert(query_words(q1) == query_words(q2));
}

/// The result bound: a search never returns more than `k` identifiers,
/// for any `k` including zero.
pub proof fn lemma_result_bound(
    entries: Seq<(Seq<u8>, u64)>,
    buckets: Seq<Seq<(usize, u8)>>,
    idsm: Seq<Seq<char>>,
    q: Seq<char>,
    k: nat,
)
    ensures
        search_spec(entries, buckets, idsm, q, k).len() <= k,
{
    let scores = add_ids(zero_scores(idsm.len()), buckets, all_matched(entries, query_words(q)));
    lemma_rank_sort_len(candidates(scores));
}

/// No dictionary key matching any candidate word — by one edit or by
/// prefix — means no results.
pub proof fn lemma_no_match_no_results(
    entries: Seq<(Seq<u8>, u64)>,
    buckets: Seq<Seq<(usize, u8)>>,
    idsm: Seq<Seq<char>>,
    q: Seq<char>,
    k: nat,
)
    requires
        forall|w: int, j: int|
            0 <= w < query_words(q).len() && 0 <= j < entries.len() ==> !(#[trigger] key_matches(
                query_words(q)[w],
                entries[j].0,
            )),
    ensures
        search_spec(entries, buckets, idsm, q, k) == Seq::<Seq<char>>::empty(),
{
    lemma_all_matched_empty(entries, query_words(q), q);
    let scores = add_ids(zero_scores(idsm.len()), buckets, Seq::<u64>::empty());
    assert(scores == zero_scores(idsm.len()));
    lemma_candidates_of_zero(zero_scores(idsm.len()));
    assert(rank_sort(Seq::<(usize, u8)>::empty()) =~= Seq::<(usize, u8)>::empty());
    assert(search_spec(entries, buckets, idsm, q, k) =~= Seq::<Seq<char>>::empty());
}

/// With no word matching any key, no keyword id is collected.
proof fn lemma_all_matched_empty(entries: Seq<(Seq<u8>, u64)>, words: Seq<Seq<char>>, q: Seq<char>)
    requires
        words == query_words(q),
        forall|w: int, j: int|
            0 <= w < words.len() && 0 <= j < entries.len() ==> !(#[trigger] key_matches(
                words[w],
                entries[j].0,
            )),
    ensures
        all_matched(entries, words) == Seq::<u64>::empty(),
{
    lemma_all_matched_prefix_empty(entries, words, words.len() as int);
    assert(words.take(words.len() as int) =~= words);
}

proof fn lemma_all_matched_prefix_empty(
    entries: Seq<(Seq<u8>, u64)>,
    words: Seq<Seq<char>>,
    n: int,
)
    requires
        0 <= n <= words.len(),
        forall|w: int, j: int|
            0 <= w < words.len() && 0 <= j < entries.len() ==> !(#[trigger] key_matches(
                words[w],
                entries[j].0,
            )),
    ensures
        all_matched(entries, words.take(n)) == Seq::<u64>::empty(),
    decreases n,
{
    if n == 0 {
        assert(words.take(0) =~= Seq::<Seq<char>>::empty());
    } else {
        lemma_all_matched_prefix_empty(entries, words, n - 1);
        assert(words.take(n).drop_last() =~= words.take(n - 1));
        assert(words.take(n).last() == words[n - 1]);
        lemma_matched_values_empty(entries, words[n - 1]);
        assert(all_matched(entries, words.take(n)) =~= Seq::<u64>::empty());
    }
}

/// A word matching no key of the entries matches no values.
proof fn lemma_matched_values_empty(entries: Seq<(Seq<u8>, u64)>, word: Seq<char>)
    requires
        forall|j: int| 0 <= j < entries.len() ==> !(#[trigger] key_matches(word, entries[j].0)),
    ensures
        matched_values(entries, word) == Seq::<u64>::empty(),
    decreases entries.len(),
{
    if entries.len() > 0 {
        assert(!key_matches(word, entries[entries.len() - 1].0));
        assert(forall|j: int|
            0 <= j < entries.drop_last().len() ==> entries.drop_last()[j] == entries[j]);
        lemma_matched_values_empty(entries.drop_last(), word);
    }
}

/// Zero scores give no candidates.
proof fn lemma_candidates_of_zero(scores: Seq<u8>)
    requires
        forall|i: int| 0 <= i < scores.len() ==> scores[i] == 0u8,
    ensures
        candidates(scores) == Seq::<(usize, u8)>::empty(),
    decreases scores.len(),
{
    if scores.len() > 0 {
        lemma_candidates_of_zero(scores.drop_last());
    }
}

/// Per-item keyword deduplication: within every postings bucket of a
/// built index, the item positions are pairwise distinct — one item
/// contributes one entry per keyword, whatever repeats its terms held.
pub proof fn lemma_postings_positions_distinct(items: Seq<InputItem>)
    requires
        items.len() <= usize::MAX,
    ensures
        forall|b: int, i: int, j: int|
            0 <= b < build_buckets(items).len() && 0 <= i < j < build_buckets(items)[b].len()
                ==> (#[trigger] build_buckets(items)[b][i]).0 != (#[trigger] build_buckets(
                items,
            )[b][j]).0,
{
    lemma_build_table_wf(items);
    assert(table_wf(build_keys(items), build_buckets(items), items.len()));
    assert forall|b: int, i: int, j: int|
        0 <= b < build_buckets(items).len() && 0 <= i < j < build_buckets(items)[b].len() implies (
    #[trigger] build_buckets(items)[b][i]).0 != (#[trigger] build_buckets(items)[b][j]).0 by {
        assert(crate::model::bucket_wf(build_buckets(items)[b], items.len()));
    }
}

} // verus!
