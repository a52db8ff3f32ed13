//! Ranking of scored items: sort by score descending, ties broken by
//! item position ascending, as an insertion sort whose specification
//! the query engine's contract is stated over.

use vstd::prelude::*;

verus! {

/// The ranking order: `x` comes before `y` when its score is higher,
/// or equal with an earlier item position.
pub open spec fn rank_before(x: (usize, u8), y: (usize, u8)) -> bool {
    x.1 > y.1 || (x.1 == y.1 && x.0 < y.0)
}

/// Insert one scored item into an already ranked sequence, after every
/// element that does not come strictly after it.
pub open spec fn rank_insert(s: Seq<(usize, u8)>, x: (usize, u8)) -> Seq<(usize, u8)>
    decreases s.len(),
{
    if s.len() == 0 {
        seq![x]
    } else if rank_before(x, s[0]) {
        seq![x] + s
    } else {
        seq![s[0]] + rank_insert(s.skip(1), x)
    }
}

/// Rank a sequence of scored items by inserting them left to right.
pub open spec fn rank_sort(s: Seq<(usize, u8)>) -> Seq<(usize, u8)>
    decreases s.len(),
{
    if s.len() == 0 {
        Seq::empty()
    } else {
        rank_insert(rank_sort(s.drop_last()), s.last())
    }
}

/// Whether a sequence is ranked: every earlier element has a higher
/// score, or an equal score and a lower position, than every later one.
pub open spec fn ranked(s: Seq<(usize, u8)>) -> bool {
    forall|i: int, j: int|
        0 <= i < j < s.len() ==> s[i].1 > s[j].1 || (s[i].1 == s[j].1 && s[i].0 <= s[j].0)
}

pub proof fn lemma_rank_insert_len(s: Seq<(usize, u8)>, x: (usize, u8))
    ensures
        rank_insert(s, x).len() == s.len() + 1,
    decreases s.len(),
{
    if s.len() > 0 && !rank_before(x, s[0]) {
        lemma_rank_insert_len(s.skip(1), x);
    }
}

pub proof fn lemma_rank_sort_len(s: Seq<(usize, u8)>)
    ensures
        rank_sort(s).len() == s.len(),
    decreases s.len(),
{
    if s.len() > 0 {
        lemma_rank_sort_len(s.drop_last());
        lemma_rank_insert_len(rank_sort(s.drop_last()), s.last());
    }
}

/// Inserting keeps the multiset of scored items.
pub proof fn lemma_rank_insert_multiset(s: Seq<(usize, u8)>, x: (usize, u8))
    ensures
        rank_insert(s, x).to_multiset() == s.to_multiset().insert(x),
    decreases s.len(),
{
    broadcast use vstd::seq_lib::group_to_multiset_ensures;

    if s.len() == 0 {
        assert(seq![x] =~= Seq::empty().push(x));
        assert(rank_insert(s, x).to_multiset() =~= s.to_multiset().insert(x));
    } else if rank_before(x, s[0]) {
        assert(seq![x] + s =~= s.insert(0, x));
        vstd::seq_lib::lemma_multiset_commutative(seq![x], s);
        assert(rank_insert(s, x).to_multiset() =~= s.to_multiset().insert(x));
    } else {
        lemma_rank_insert_multiset(s.skip(1), x);
        assert(seq![s[0]] + rank_insert(s.skip(1), x) =~= rank_insert(s.skip(1), x).insert(
            0,
            s[0],
        ));
        assert(s =~= s.skip(1).insert(0, s[0]));
        assert(rank_insert(s, x).to_multiset() =~= s.to_multiset().insert(x));
    }
}

/// Ranking keeps the multiset of scored items.
pub proof fn lemma_rank_sort_multiset(s: Seq<(usize, u8)>)
    ensures
        rank_sort(s).to_multiset() == s.to_multiset(),
    decreases s.len(),
{
    broadcast use vstd::seq_lib::group_to_multiset_ensures;

    if s.len() > 0 {
        lemma_rank_sort_multiset(s.drop_last());
        lemma_rank_insert_multiset(rank_sort(s.drop_last()), s.last());
        assert(s =~= s.drop_last().push(s.last()));
        assert(rank_sort(s).to_multiset() =~= s.to_multiset());
    }
}

pub proof fn lemma_rank_insert_ranked(s: Seq<(usize, u8)>, x: (usize, u8))
    requires
        ranked(s),
    ensures
        ranked(rank_insert(s, x)),
    decreases s.len(),
{
    if s.len() == 0 {
    } else if rank_before(x, s[0]) {
        let r = seq![x] + s;
        assert forall|i: int, j: int| 0 <= i < j < r.len() implies r[i].1 > r[j].1 || (r[i].1
            == r[j].1 && r[i].0 <= r[j].0) by {
            if i > 0 {
                assert(r[i] == s[i - 1]);
                assert(r[j] == s[j - 1]);
            } else {
                assert(r[j] == s[j - 1]);
                if j - 1 > 0 {
                    assert(s[0].1 > s[j - 1].1 || (s[0].1 == s[j - 1].1 && s[0].0 <= s[j - 1].0));
                }
            }
        }
    } else {
        assert(ranked(s.skip(1)));
        lemma_rank_insert_ranked(s.skip(1), x);
        lemma_rank_insert_len(s.skip(1), x);
        let t = rank_insert(s.skip(1), x);
        let r = seq![s[0]] + t;
        // every element of t is either x or an element of s past the head,
        // and the head does not come after any of them
        assert forall|j: int| 0 <= j < t.len() implies t[j] == x || exists|m: int|
            1 <= m < s.len() && t[j] == s[m] by {
            lemma_rank_insert_members(s.skip(1), x, j);
        }
        assert forall|i: int, j: int| 0 <= i < j < r.len() implies r[i].1 > r[j].1 || (r[i].1
            == r[j].1 && r[i].0 <= r[j].0) by {
            if i == 0 {
                assert(r[j] == t[j - 1]);
                if t[j - 1] == x {
                    assert(!rank_before(x, s[0]));
                } else {
                    let m = choose|m: int| 1 <= m < s.len() && t[j - 1] == s[m];
                    assert(s[0].1 > s[m].1 || (s[0].1 == s[m].1 && s[0].0 <= s[m].0));
                }
            } else {
                assert(r[i] == t[i - 1]);
                assert(r[j] == t[j - 1]);
            }
        }
    }
}

/// Every element of an insertion's result is the inserted element or
/// one of the original ones.
proof fn lemma_rank_insert_members(s: Seq<(usize, u8)>, x: (usize, u8), j: int)
    requires
        0 <= j < rank_insert(s, x).len(),
    ensures
        rank_insert(s, x)[j] == x || exists|m: int| 0 <= m < s.len() && rank_insert(s, x)[j]
            == s[m],
    decreases s.len(),
{
    lemma_rank_insert_len(s, x);
    if s.len() == 0 {
    } else if rank_before(x, s[0]) {
    } else {
        if j > 0 {
            lemma_rank_insert_members(s.skip(1), x, j - 1);
            if rank_insert(s.skip(1), x)[j - 1] != x {
                let m = choose|m: int|
                    0 <= m < s.skip(1).len() && rank_insert(s.skip(1), x)[j - 1] == s.skip(1)[m];
                assert(s.skip(1)[m] == s[m + 1]);
            }
        }
    }
}

/// The result of ranking is ranked.
pub proof fn lemma_rank_sort_ranked(s: Seq<(usize, u8)>)
    ensures
        ranked(rank_sort(s)),
    decreases s.len(),
{
    if s.len() > 0 {
        lemma_rank_sort_ranked(s.drop_last());
        lemma_rank_insert_ranked(rank_sort(s.drop_last()), s.last());
    }
}

/// Sort scored items by score descending, position ascending on ties.
pub fn rank_items(items: &Vec<(usize, u8)>) -> (r: Vec<(usize, u8)>)
    ensures
        r@ == rank_sort(items@),
{
    let mut out: Vec<(usize, u8)> = Vec::new();
    let mut idx: usize = 0;
    proof {
        assert(items@.take(0) =~= Seq::<(usize, u8)>::empty());
    }
    while idx < items.len()
        invariant
            idx <= items.len(),
            out@ == rank_sort(items@.take(idx as int)),
        decreases items.len() - idx,
    {
        let x = items[idx];
        // find the first position whose element comes after x
        let mut p: usize = 0;
        while p < out.len() && !(x.1 > out[p].1 || (x.1 == out[p].1 && x.0 < out[p].0))
            invariant
                p <= out.len(),
                forall|m: int| 0 <= m < p ==> !rank_before(x, out@[m]),
            decreases out.len() - p,
        {
            p = p + 1;
        }
        proof {
            lemma_rank_insert_at(out@, x, p as int);
        }
        let mut shifted = out;
        shifted.insert(p, x);
        out = shifted;
        proof {
            assert(items@.take(idx + 1).drop_last() =~= items@.take(idx as int));
            assert(items@.take(idx + 1).last() == items@[idx as int]);
        }
        idx = idx + 1;
    }
    proof {
        assert(items@.take(items@.len() as int) =~= items@);
    }
    out
}

/// Inserting at the first position whose element comes after the new
/// one is what `rank_insert` does.
proof fn lemma_rank_insert_at(s: Seq<(usize, u8)>, x: (usize, u8), p: int)
    requires
        0 <= p <= s.len(),
        forall|m: int| 0 <= m < p ==> !rank_before(x, s[m]),
        p < s.len() ==> rank_before(x, s[p]),
    ensures
        rank_insert(s, x) == s.insert(p, x),
    decreases s.len(),
{
    if s.len() == 0 {
        assert(rank_insert(s, x) =~= s.insert(0, x));
    } else if rank_before(x, s[0]) {
        assert(p == 0);
        assert(seq![x] + s =~= s.insert(0, x));
    } else {
        assert(p >= 1);
        assert(forall|m: int| 0 <= m < p - 1 ==> s.skip(1)[m] == s[m + 1]);
        lemma_rank_insert_at(s.skip(1), x, p - 1);
        assert(seq![s[0]] + s.skip(1).insert(p - 1, x) =~= s.insert(p, x));
    }
}

} // verus!
