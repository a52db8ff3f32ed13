//! The query model: candidate words of a query, matched keyword ids,
//! score accumulation with saturating addition, and the ranked,
//! size-bounded result list.

use vstd::prelude::*;
use crate::fstmap::matched_values;
use crate::rank::rank_sort;
use crate::text::{contains_str, lower_of, split_ws, split_ws_of, to_lower};

verus! {

/// Lowercase each piece and drop the empty ones, keeping order.
pub open spec fn lowered_pieces(ws: Seq<Seq<char>>) -> Seq<Seq<char>>
    decreases ws.len(),
{
    if ws.len() == 0 {
        Seq::empty()
    } else {
        let front = lowered_pieces(ws.drop_last());
        let lw = lower_of(ws.last());
        if lw.len() == 0 {
            front
        } else {
            front.push(lw)
        }
    }
}

/// Keep the first occurrence of each word.
pub open spec fn dedup_words(ws: Seq<Seq<char>>) -> Seq<Seq<char>>
    decreases ws.len(),
{
    if ws.len() == 0 {
        Seq::empty()
    } else {
        let front = dedup_words(ws.drop_last());
        if front.contains(ws.last()) {
            front
        } else {
            front.push(ws.last())
        }
    }
}

/// The candidate words of a query: its whitespace-separated pieces,
/// lowercased, plus the whole query lowercased — even when that is
/// empty — deduplicated.
pub open spec fn query_words(q: Seq<char>) -> Seq<Seq<char>> {
    dedup_words(lowered_pieces(split_ws_of(q)).push(lower_of(q)))
}

/// Every matched keyword id of every candidate word, word by word; ids
/// may repeat across words.
pub open spec fn all_matched(entries: Seq<(Seq<u8>, u64)>, words: Seq<Seq<char>>) -> Seq<u64>
    decreases words.len(),
{
    if words.len() == 0 {
        Seq::empty()
    } else {
        all_matched(entries, words.drop_last()) + matched_values(entries, words.last())
    }
}

/// When every entry carries its own position as id, every matched id
/// lies below the entry count.
pub proof fn lemma_all_matched_bound(entries: Seq<(Seq<u8>, u64)>, words: Seq<Seq<char>>)
    requires
        forall|j: int| 0 <= j < entries.len() ==> (#[trigger] entries[j]).1 == j,
    ensures
        forall|m: int|
            0 <= m < all_matched(entries, words).len() ==> (#[trigger] all_matched(
                entries,
                words,
            )[m]) < entries.len(),
    decreases words.len(),
{
    if words.len() > 0 {
        lemma_all_matched_bound(entries, words.drop_last());
        crate::fstmap::lemma_matched_values_member(entries, words.last());
        let front = all_matched(entries, words.drop_last());
        let tail = matched_values(entries, words.last());
        assert forall|m: int| 0 <= m < all_matched(entries, words).len() implies (
        #[trigger] all_matched(entries, words)[m]) < entries.len() by {
            if m >= front.len() {
                assert(all_matched(entries, words)[m] == tail[m - front.len()]);
                let j = choose|j: int| 0 <= j < entries.len() && tail[m - front.len()]
                    == entries[j].1;
            }
        }
    }
}

/// A score sum capped at 255.
pub open spec fn sat_add(a: u8, b: u8) -> u8 {
    if a + b > 255 {
        255u8
    } else {
        (a + b) as u8
    }
}

/// Add one bucket's weights to the per-item scores, entry by entry;
/// an entry whose position lies outside the score table changes
/// nothing.
pub open spec fn add_bucket(scores: Seq<u8>, bucket: Seq<(usize, u8)>) -> Seq<u8>
    decreases bucket.len(),
{
    if bucket.len() == 0 {
        scores
    } else {
        let front = add_bucket(scores, bucket.drop_last());
        let e = bucket.last();
        if e.0 < front.len() {
            front.update(e.0 as int, sat_add(front[e.0 as int], e.1))
        } else {
            front
        }
    }
}

/// Add the buckets of all matched keyword ids, id by id; an id without
/// a bucket changes nothing.
pub open spec fn add_ids(scores: Seq<u8>, buckets: Seq<Seq<(usize, u8)>>, ids: Seq<u64>) -> Seq<u8>
    decreases ids.len(),
{
    if ids.len() == 0 {
        scores
    } else {
        let front = add_ids(scores, buckets, ids.drop_last());
        let id = ids.last();
        if id < buckets.len() {
            add_bucket(front, buckets[id as int])
        } else {
            front
        }
    }
}

/// A zeroed score table.
pub open spec fn zero_scores(n: nat) -> Seq<u8> {
    Seq::new(n, |i: int| 0u8)
}

/// The items with a non-zero score, in position order.
pub open spec fn candidates(scores: Seq<u8>) -> Seq<(usize, u8)>
    decreases scores.len(),
{
    if scores.len() == 0 {
        Seq::empty()
    } else {
        let front = candidates(scores.drop_last());
        if scores.last() > 0 {
            front.push(((scores.len() - 1) as usize, scores.last()))
        } else {
            front
        }
    }
}

/// Every candidate's position lies within the score table.
pub proof fn lemma_candidates_bound(scores: Seq<u8>)
    ensures
        forall|m: int|
            0 <= m < candidates(scores).len() ==> (#[trigger] candidates(scores)[m]).0
                < scores.len(),
    decreases scores.len(),
{
    if scores.len() > 0 {
        lemma_candidates_bound(scores.drop_last());
        let front = candidates(scores.drop_last());
        assert forall|m: int| 0 <= m < candidates(scores).len() implies (#[trigger] candidates(
            scores,
        )[m]).0 < scores.len() by {
            if m < front.len() {
                assert(front[m].0 < scores.drop_last().len());
            }
        }
    }
}

/// What a search returns: every candidate word's matches scored and
/// accumulated, items ranked by score descending with earlier build
/// positions winning ties, cut to `k`, and resolved to identifiers.
pub open spec fn search_spec(
    entries: Seq<(Seq<u8>, u64)>,
    buckets: Seq<Seq<(usize, u8)>>,
    idsm: Seq<Seq<char>>,
    q: Seq<char>,
    k: nat,
) -> Seq<Seq<char>> {
    let words = query_words(q);
    let matched = all_matched(entries, words);
    let scores = add_ids(zero_scores(idsm.len()), buckets, matched);
    let ranked = rank_sort(candidates(scores));
    let kept = if k < ranked.len() {
        ranked.take(k as int)
    } else {
        ranked
    };
    kept.map_values(|pr: (usize, u8)| idsm[pr.0 as int])
}

/// The candidate words of a query, in first-occurrence order: the
/// lowercased nonempty pieces, and the whole query lowercased.
pub fn query_word_list(query: &str) -> (r: Vec<String>)
    ensures
        r.deep_view() == query_words(query@),
{
    let pieces = split_ws(query);
    let mut words: Vec<String> = Vec::new();
    let mut i: usize = 0;
    proof {
        assert(split_ws_of(query@).take(0) =~= Seq::<Seq<char>>::empty());
        assert(lowered_pieces(split_ws_of(query@).take(0)) =~= Seq::<Seq<char>>::empty());
        assert(dedup_words(lowered_pieces(split_ws_of(query@).take(0))) =~= Seq::<
            Seq<char>,
        >::empty());
        assert(words.deep_view() =~= dedup_words(lowered_pieces(split_ws_of(query@).take(0))));
    }
    while i < pieces.len()
        invariant
            i <= pieces@.len(),
            pieces.deep_view() == split_ws_of(query@),
            words.deep_view() == dedup_words(lowered_pieces(split_ws_of(query@).take(i as int))),
        decreases pieces.len() - i,
    {
        let lw = to_lower(pieces[i].as_str());
        let ghost prev = lowered_pieces(split_ws_of(query@).take(i as int));
        proof {
            assert(split_ws_of(query@).take(i + 1).drop_last() =~= split_ws_of(query@).take(
                i as int,
            ));
            assert(split_ws_of(query@).take(i + 1).last() == split_ws_of(query@)[i as int]);
            assert(pieces.deep_view()[i as int] == pieces@[i as int]@);
        }
        if !lw.as_str().is_empty() {
            proof {
                assert(lowered_pieces(split_ws_of(query@).take(i + 1)) == prev.push(lw@));
                assert(lowered_pieces(split_ws_of(query@).take(i + 1)).drop_last() =~= prev);
            }
            if !contains_str(&words, &lw) {
                words.push(lw);
            } else {
                proof {
                    let a = choose|a: int|
                        0 <= a < words@.len() && words.deep_view()[a] == lw@;
                    assert(dedup_words(prev).contains(lw@)) by {
                        assert(dedup_words(prev)[a] == lw@);
                    }
                }
            }
            proof {
                assert(words.deep_view() =~= dedup_words(
                    lowered_pieces(split_ws_of(query@).take(i + 1)),
                ));
            }
        } else {
            proof {
                assert(lowered_pieces(split_ws_of(query@).take(i + 1)) == prev);
            }
        }
        i = i + 1;
    }
    proof {
        assert(split_ws_of(query@).take(pieces@.len() as int) =~= split_ws_of(query@));
    }
    let whole = to_lower(query);
    let ghost base = lowered_pieces(split_ws_of(query@));
    proof {
        assert(base.push(lower_of(query@)).drop_last() =~= base);
        assert(base.push(lower_of(query@)).last() == lower_of(query@));
    }
    if !contains_str(&words, &whole) {
        words.push(whole);
    } else {
        proof {
            let a = choose|a: int| 0 <= a < words@.len() && words.deep_view()[a] == whole@;
            assert(dedup_words(base).contains(whole@)) by {
                assert(dedup_words(base)[a] == whole@);
            }
        }
    }
    proof {
        assert(words.deep_view() =~= query_words(query@));
    }
    words
}

/// Add one bucket to the score table, entry by entry. When an entry's
/// position lies outside the table the index is inconsistent: nothing
/// more is added and the failure is reported.
pub fn apply_bucket(scores: &mut Vec<u8>, bucket: &Vec<(usize, u8)>) -> (ok: bool)
    ensures
        ok ==> final(scores)@ == add_bucket(old(scores)@, bucket@),
        ok ==> final(scores)@.len() == old(scores)@.len(),
        (forall|m: int| 0 <= m < bucket@.len() ==> (#[trigger] bucket@[m]).0 < old(scores)@.len())
            ==> ok,
    // a failed application leaves the table in no promised state;
    // callers surface the inconsistency

{
    let mut j: usize = 0;
    while j < bucket.len()
        invariant
            j <= bucket@.len(),
            scores@.len() == old(scores)@.len(),
            scores@ == add_bucket(old(scores)@, bucket@.take(j as int)),
        decreases bucket.len() - j,
    {
        let (p, w) = bucket[j];
        proof {
            assert(bucket@.take(j + 1).drop_last() =~= bucket@.take(j as int));
            assert(bucket@.take(j + 1).last() == bucket@[j as int]);
        }
        if p >= scores.len() {
            return false;
        }
        let s = scores[p];
        scores[p] = crate::saturating_add_u8(s, w);
        j = j + 1;
    }
    proof {
        assert(bucket@.take(bucket@.len() as int) =~= bucket@);
    }
    true
}

/// Add the buckets of all matched keyword ids to the score table. An id
/// with no bucket, or a bucket entry outside the table, reports an
/// inconsistent index.
pub fn apply_matches(
    scores: &mut Vec<u8>,
    buckets: &Vec<Vec<(usize, u8)>>,
    ids: &Vec<u64>,
) -> (ok: bool)
    ensures
        ok ==> final(scores)@ == add_ids(
            old(scores)@,
            crate::builder::bviews(buckets@),
            ids@,
        ),
        ok ==> final(scores)@.len() == old(scores)@.len(),
        (forall|m: int| 0 <= m < ids@.len() ==> (#[trigger] ids@[m]) < buckets@.len()) && (forall|
            b: int,
            m: int,
        |
            0 <= b < buckets@.len() && 0 <= m < buckets@[b]@.len() ==> (#[trigger] buckets@[b]@[m]).0
                < old(scores)@.len()) ==> ok,
{
    let ghost bv = crate::builder::bviews(buckets@);
    let ghost good = (forall|m: int| 0 <= m < ids@.len() ==> (#[trigger] ids@[m]) < buckets@.len())
        && (forall|b: int, m: int|
        0 <= b < buckets@.len() && 0 <= m < buckets@[b]@.len() ==> (#[trigger] buckets@[b]@[m]).0
            < old(scores)@.len());
    let mut j: usize = 0;
    while j < ids.len()
        invariant
            j <= ids@.len(),
            bv == crate::builder::bviews(buckets@),
            good == ((forall|m: int|
                0 <= m < ids@.len() ==> (#[trigger] ids@[m]) < buckets@.len()) && (forall|
                b: int,
                m: int,
            |
                0 <= b < buckets@.len() && 0 <= m < buckets@[b]@.len() ==> (
                #[trigger] buckets@[b]@[m]).0 < old(scores)@.len())),
            scores@.len() == old(scores)@.len(),
            scores@ == add_ids(old(scores)@, bv, ids@.take(j as int)),
        decreases ids.len() - j,
    {
        let id = ids[j];
        proof {
            assert(ids@.take(j + 1).drop_last() =~= ids@.take(j as int));
            assert(ids@.take(j + 1).last() == ids@[j as int]);
        }
        if id >= buckets.len() as u64 {
            proof {
                if good {
                    assert(ids@[j as int] < buckets@.len());
                    assert(false);
                }
            }
            return false;
        }
        let idu = id as usize;
        proof {
            assert(bv[id as int] == buckets@[id as int]@);
        }
        if !apply_bucket(scores, &buckets[idu]) {
            proof {
                if good {
                    assert(forall|m: int|
                        0 <= m < buckets@[idu as int]@.len() ==> (#[trigger] buckets@[idu
                            as int]@[m]).0 < old(scores)@.len());
                    assert(false);
                }
            }
            return false;
        }
        j = j + 1;
    }
    proof {
        assert(ids@.take(ids@.len() as int) =~= ids@);
    }
    true
}

/// Collect the items with a non-zero score, in position order.
pub fn collect_candidates(scores: &Vec<u8>) -> (r: Vec<(usize, u8)>)
    ensures
        r@ == candidates(scores@),
{
    let mut out: Vec<(usize, u8)> = Vec::new();
    let mut p: usize = 0;
    proof {
        assert(scores@.take(0) =~= Seq::<u8>::empty());
    }
    while p < scores.len()
        invariant
            p <= scores@.len(),
            out@ == candidates(scores@.take(p as int)),
        decreases scores.len() - p,
    {
        proof {
            assert(scores@.take(p + 1).drop_last() =~= scores@.take(p as int));
            assert(scores@.take(p + 1).last() == scores@[p as int]);
        }
        if scores[p] > 0 {
            out.push((p, scores[p]));
        }
        p = p + 1;
    }
    proof {
        assert(scores@.take(scores@.len() as int) =~= scores@);
    }
    out
}

} // verus!
