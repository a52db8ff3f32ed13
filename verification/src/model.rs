//! The mathematical model of index building: per-item keyword
//! deduplication, and the sorted keyword table with its postings
//! buckets, built as a fold over the input items.

use vstd::prelude::*;
use crate::terms::{InputItem, SearchTokens, term_keywords};
use crate::text::{lex_lt, lemma_lex_connected, lemma_lex_trans};

verus! {

/// Whether some pair of the list carries keyword `k`.
pub open spec fn has_key(ps: Seq<(Seq<char>, u8)>, k: Seq<char>) -> bool {
    exists|j: int| 0 <= j < ps.len() && ps[j].0 == k
}

/// One item's (keyword, weight) pairs with empty keywords dropped and
/// only the first occurrence of each keyword kept.
pub open spec fn dedup_pairs(ps: Seq<(Seq<char>, u8)>) -> Seq<(Seq<char>, u8)>
    decreases ps.len(),
{
    if ps.len() == 0 {
        Seq::empty()
    } else {
        let front = dedup_pairs(ps.drop_last());
        if ps.last().0.len() == 0 || has_key(front, ps.last().0) {
            front
        } else {
            front.push(ps.last())
        }
    }
}

/// All (keyword, weight) pairs of an item's term list, in order.
pub open spec fn item_pairs(terms: Seq<(SearchTokens, u8)>) -> Seq<(Seq<char>, u8)>
    decreases terms.len(),
{
    if terms.len() == 0 {
        Seq::empty()
    } else {
        item_pairs(terms.drop_last()) + term_keywords(terms.last().0).map_values(
            |k: Seq<char>| (k, terms.last().1),
        )
    }
}

/// The keywords an item contributes, deduplicated, each with the weight
/// of its first occurrence.
pub open spec fn item_keywords(item: InputItem) -> Seq<(Seq<char>, u8)> {
    dedup_pairs(item_pairs(item.search_terms@))
}

/// Where a keyword belongs in a sorted key list: the number of keys
/// that precede it.
pub open spec fn insert_pos(keys: Seq<Seq<char>>, k: Seq<char>) -> int
    decreases keys.len(),
{
    if keys.len() == 0 {
        0
    } else if lex_lt(keys[0], k) {
        1 + insert_pos(keys.skip(1), k)
    } else {
        0
    }
}

/// Where a weight belongs in a bucket sorted by weight descending: the
/// number of entries whose weight is at least `w`, so that ties keep
/// their original order.
pub open spec fn weight_pos(b: Seq<(usize, u8)>, w: u8) -> int
    decreases b.len(),
{
    if b.len() == 0 {
        0
    } else if b[0].1 >= w {
        1 + weight_pos(b.skip(1), w)
    } else {
        0
    }
}

/// Insert one (position, weight) entry into a bucket, keeping the
/// bucket sorted by weight descending and stable for equal weights.
pub open spec fn winsert(b: Seq<(usize, u8)>, x: (usize, u8)) -> Seq<(usize, u8)> {
    b.insert(weight_pos(b, x.1), x)
}

/// Insert one keyword occurrence into the table: a new keyword opens a
/// bucket at its sorted position; a known one gets the entry added to
/// its bucket in weight order.
pub open spec fn table_insert(
    keys: Seq<Seq<char>>,
    buckets: Seq<Seq<(usize, u8)>>,
    k: Seq<char>,
    p: usize,
    w: u8,
) -> (Seq<Seq<char>>, Seq<Seq<(usize, u8)>>) {
    let i = insert_pos(keys, k);
    if i < keys.len() && keys[i] == k {
        (keys, buckets.update(i, winsert(buckets[i], (p, w))))
    } else {
        (keys.insert(i, k), buckets.insert(i, seq![(p, w)]))
    }
}

/// Fold one item's deduplicated pairs into the table.
pub open spec fn table_add_pairs(
    keys: Seq<Seq<char>>,
    buckets: Seq<Seq<(usize, u8)>>,
    pairs: Seq<(Seq<char>, u8)>,
    p: usize,
) -> (Seq<Seq<char>>, Seq<Seq<(usize, u8)>>)
    decreases pairs.len(),
{
    if pairs.len() == 0 {
        (keys, buckets)
    } else {
        let t = table_add_pairs(keys, buckets, pairs.drop_last(), p);
        table_insert(t.0, t.1, pairs.last().0, p, pairs.last().1)
    }
}

/// The table after the first `n` items.
pub open spec fn table_of_prefix(items: Seq<InputItem>, n: int) -> (
    Seq<Seq<char>>,
    Seq<Seq<(usize, u8)>>,
)
    decreases n,
{
    if n <= 0 {
        (Seq::empty(), Seq::empty())
    } else {
        let t = table_of_prefix(items, n - 1);
        table_add_pairs(t.0, t.1, item_keywords(items[n - 1]), (n - 1) as usize)
    }
}

/// The sorted keyword list of an index built from `items`.
pub open spec fn build_keys(items: Seq<InputItem>) -> Seq<Seq<char>> {
    table_of_prefix(items, items.len() as int).0
}

/// The postings buckets of an index built from `items`, one per
/// keyword, in keyword order.
pub open spec fn build_buckets(items: Seq<InputItem>) -> Seq<Seq<(usize, u8)>> {
    table_of_prefix(items, items.len() as int).1
}

/// The stored identifiers, in item order.
pub open spec fn build_ids(items: Seq<InputItem>) -> Seq<Seq<char>> {
    items.map_values(|it: InputItem| it.id@)
}

/// Keys strictly ascending in lexicographic order.
pub open spec fn sorted_keys(keys: Seq<Seq<char>>) -> bool {
    forall|i: int, j: int| 0 <= i < j < keys.len() ==> lex_lt(keys[i], keys[j])
}

/// A well-formed bucket: item positions below `bound` and pairwise
/// distinct, weights non-increasing.
pub open spec fn bucket_wf(b: Seq<(usize, u8)>, bound: nat) -> bool {
    &&& forall|i: int| 0 <= i < b.len() ==> (#[trigger] b[i]).0 < bound
    &&& forall|i: int, j: int| 0 <= i < j < b.len() ==> b[i].0 != b[j].0
    &&& forall|i: int, j: int| 0 <= i < j < b.len() ==> b[i].1 >= b[j].1
}

/// A well-formed table: one bucket per key, keys sorted, buckets
/// well-formed for `bound` items.
pub open spec fn table_wf(keys: Seq<Seq<char>>, buckets: Seq<Seq<(usize, u8)>>, bound: nat) -> bool {
    &&& buckets.len() == keys.len()
    &&& sorted_keys(keys)
    &&& forall|i: int| 0 <= i < buckets.len() ==> bucket_wf(#[trigger] buckets[i], bound)
}

/// Whether position `p` already stands in the bucket of key `k`.
pub open spec fn table_has_pos(
    keys: Seq<Seq<char>>,
    buckets: Seq<Seq<(usize, u8)>>,
    k: Seq<char>,
    p: usize,
) -> bool {
    exists|i: int, j: int|
        0 <= i < keys.len() && keys[i] == k && 0 <= j < buckets[i].len() && buckets[i][j].0 == p
}

/// `insert_pos` returns a position within the list, with everything
/// before it preceding `k` and nothing from it on preceding `k`.
pub proof fn lemma_insert_pos_props(keys: Seq<Seq<char>>, k: Seq<char>)
    ensures
        0 <= insert_pos(keys, k) <= keys.len(),
        forall|j: int| 0 <= j < insert_pos(keys, k) ==> lex_lt(#[trigger] keys[j], k),
        insert_pos(keys, k) < keys.len() ==> !lex_lt(keys[insert_pos(keys, k)], k),
    decreases keys.len(),
{
    if keys.len() > 0 && lex_lt(keys[0], k) {
        lemma_insert_pos_props(keys.skip(1), k);
        assert(forall|j: int| 0 <= j < keys.skip(1).len() ==> keys.skip(1)[j] == keys[j + 1]);
        assert forall|j: int| 0 <= j < insert_pos(keys, k) implies lex_lt(#[trigger] keys[j], k) by {
            if j > 0 {
                assert(lex_lt(keys.skip(1)[j - 1], k));
            }
        }
    }
}

/// The scan that stops at the first key not preceding `k` computes
/// `insert_pos`.
pub proof fn lemma_insert_pos_is(keys: Seq<Seq<char>>, k: Seq<char>, i: int)
    requires
        0 <= i <= keys.len(),
        forall|j: int| 0 <= j < i ==> lex_lt(#[trigger] keys[j], k),
        i < keys.len() ==> !lex_lt(keys[i], k),
    ensures
        insert_pos(keys, k) == i,
    decreases keys.len(),
{
    if keys.len() > 0 {
        if i == 0 {
        } else {
            assert(lex_lt(keys[0], k));
            assert(forall|j: int| 0 <= j < keys.skip(1).len() ==> keys.skip(1)[j] == keys[j + 1]);
            lemma_insert_pos_is(keys.skip(1), k, i - 1);
        }
    }
}

/// The scan that stops at the first lighter entry computes
/// `weight_pos`.
pub proof fn lemma_weight_pos_is(b: Seq<(usize, u8)>, w: u8, q: int)
    requires
        0 <= q <= b.len(),
        forall|m: int| 0 <= m < q ==> (#[trigger] b[m]).1 >= w,
        q < b.len() ==> b[q].1 < w,
    ensures
        weight_pos(b, w) == q,
    decreases b.len(),
{
    if b.len() > 0 {
        if q == 0 {
        } else {
            assert(forall|m: int| 0 <= m < b.skip(1).len() ==> b.skip(1)[m] == b[m + 1]);
            lemma_weight_pos_is(b.skip(1), w, q - 1);
        }
    }
}

pub proof fn lemma_weight_pos_props(b: Seq<(usize, u8)>, w: u8)
    ensures
        0 <= weight_pos(b, w) <= b.len(),
        forall|m: int| 0 <= m < weight_pos(b, w) ==> (#[trigger] b[m]).1 >= w,
        weight_pos(b, w) < b.len() ==> b[weight_pos(b, w)].1 < w,
    decreases b.len(),
{
    if b.len() > 0 && b[0].1 >= w {
        lemma_weight_pos_props(b.skip(1), w);
        assert(forall|m: int| 0 <= m < b.skip(1).len() ==> b.skip(1)[m] == b[m + 1]);
        assert forall|m: int| 0 <= m < weight_pos(b, w) implies (#[trigger] b[m]).1 >= w by {
            if m > 0 {
                assert(b.skip(1)[m - 1].1 >= w);
            }
        }
    }
}

/// Inserting into a well-formed bucket a fresh position keeps it
/// well-formed.
pub proof fn lemma_winsert_wf(b: Seq<(usize, u8)>, x: (usize, u8), bound: nat)
    requires
        bucket_wf(b, bound),
        (x.0 as nat) < bound,
        forall|j: int| 0 <= j < b.len() ==> (#[trigger] b[j]).0 != x.0,
    ensures
        bucket_wf(winsert(b, x), bound),
        winsert(b, x).len() == b.len() + 1,
{
    lemma_weight_pos_props(b, x.1);
    let q = weight_pos(b, x.1);
    let r = winsert(b, x);
    assert forall|i: int, j: int| 0 <= i < j < r.len() implies r[i].1 >= r[j].1 by {
        if i < q && j > q {
            assert(r[i] == b[i]);
            assert(r[j] == b[j - 1]);
            if j - 1 >= q {
                if j - 1 == q {
                    assert(b[q].1 < x.1);
                    assert(b[i].1 >= x.1);
                } else {
                    assert(b[i].1 >= b[j - 1].1);
                }
            }
        }
    }
}

/// Inserting a keyword occurrence for a position not yet in its bucket
/// keeps the table well-formed; afterwards the position stands exactly
/// in the buckets it stood in before, plus that of `k`.
pub proof fn lemma_table_insert_wf(
    keys: Seq<Seq<char>>,
    buckets: Seq<Seq<(usize, u8)>>,
    k: Seq<char>,
    p: usize,
    w: u8,
    bound: nat,
)
    requires
        table_wf(keys, buckets, bound),
        (p as nat) < bound,
        !table_has_pos(keys, buckets, k, p),
        k.len() > 0,
    ensures
        table_wf(table_insert(keys, buckets, k, p, w).0, table_insert(keys, buckets, k, p, w).1, bound),
        table_has_pos(table_insert(keys, buckets, k, p, w).0, table_insert(keys, buckets, k, p, w).1, k, p),
        forall|k2: Seq<char>|
            k2 != k ==> table_has_pos(
                table_insert(keys, buckets, k, p, w).0,
                table_insert(keys, buckets, k, p, w).1,
                k2,
                p,
            ) == table_has_pos(keys, buckets, k2, p),
{
    lemma_insert_pos_props(keys, k);
    let i = insert_pos(keys, k);
    let rk = table_insert(keys, buckets, k, p, w).0;
    let rb = table_insert(keys, buckets, k, p, w).1;
    if i < keys.len() && keys[i] == k {
        assert forall|j: int| 0 <= j < buckets[i].len() implies (#[trigger] buckets[i][j]).0 != p by {
            if buckets[i][j].0 == p {
                assert(table_has_pos(keys, buckets, k, p));
            }
        }
        lemma_winsert_wf(buckets[i], (p, w), bound);
        lemma_weight_pos_props(buckets[i], w);
        let q = weight_pos(buckets[i], w);
        assert(rb[i][q] == (p, w));
        assert(table_has_pos(rk, rb, k, p));
        assert forall|k2: Seq<char>| k2 != k implies table_has_pos(rk, rb, k2, p) == table_has_pos(
            keys,
            buckets,
            k2,
            p,
        ) by {
            if table_has_pos(keys, buckets, k2, p) {
                let (a, b) = choose|a: int, b: int|
                    0 <= a < keys.len() && keys[a] == k2 && 0 <= b < buckets[a].len()
                        && buckets[a][b].0 == p;
                assert(a != i);
                assert(rb[a] == buckets[a]);
                assert(table_has_pos(rk, rb, k2, p));
            }
            if table_has_pos(rk, rb, k2, p) {
                let (a, b) = choose|a: int, b: int|
                    0 <= a < rk.len() && rk[a] == k2 && 0 <= b < rb[a].len() && rb[a][b].0 == p;
                assert(a != i);
                assert(rb[a] == buckets[a]);
                assert(table_has_pos(keys, buckets, k2, p));
            }
        }
    } else {
        // a new key: it goes in at position i, which keeps the keys sorted
        assert(i == keys.len() || keys[i] != k);
        assert forall|a: int, b: int| 0 <= a < b < rk.len() implies lex_lt(rk[a], rk[b]) by {
            if a < i && b == i {
                assert(rk[a] == keys[a]);
            } else if a == i && b > i {
                assert(rk[b] == keys[b - 1]);
                if b - 1 == i {
                    assert(!lex_lt(keys[i], k));
                    if keys[i] != k {
                        lemma_lex_connected_not(k, keys[i]);
                    }
                } else {
                    assert(!lex_lt(keys[i], k));
                    lemma_lex_connected_not(k, keys[i]);
                    assert(lex_lt(keys[i], keys[b - 1]));
                    lemma_lex_trans(k, keys[i], keys[b - 1]);
                }
            } else if a < i && b > i {
                assert(rk[a] == keys[a]);
                assert(rk[b] == keys[b - 1]);
                if b - 1 == a {
                } else {
                    assert(lex_lt(keys[a], keys[b - 1]));
                }
            } else if a < i && b < i {
                assert(rk[a] == keys[a]);
                assert(rk[b] == keys[b]);
            } else {
                assert(a > i || (a == i && b > i) || b <= i);
                if a > i {
                    assert(rk[a] == keys[a - 1]);
                    assert(rk[b] == keys[b - 1]);
                }
            }
        }
        assert(rb[i] == seq![(p, w)]);
        assert(bucket_wf(rb[i], bound));
        assert forall|a: int| 0 <= a < rb.len() implies bucket_wf(#[trigger] rb[a], bound) by {
            if a < i {
                assert(rb[a] == buckets[a]);
            } else if a > i {
                assert(rb[a] == buckets[a - 1]);
            }
        }
        assert(rk[i] == k && rb[i][0].0 == p);
        assert(table_has_pos(rk, rb, k, p));
        assert forall|k2: Seq<char>| k2 != k implies table_has_pos(rk, rb, k2, p) == table_has_pos(
            keys,
            buckets,
            k2,
            p,
        ) by {
            if table_has_pos(keys, buckets, k2, p) {
                let (a, b) = choose|a: int, b: int|
                    0 <= a < keys.len() && keys[a] == k2 && 0 <= b < buckets[a].len()
                        && buckets[a][b].0 == p;
                if a < i {
                    assert(rk[a] == k2 && rb[a] == buckets[a]);
                    assert(table_has_pos(rk, rb, k2, p));
                } else {
                    assert(rk[a + 1] == k2 && rb[a + 1] == buckets[a]);
                    assert(table_has_pos(rk, rb, k2, p));
                }
            }
            if table_has_pos(rk, rb, k2, p) {
                let (a, b) = choose|a: int, b: int|
                    0 <= a < rk.len() && rk[a] == k2 && 0 <= b < rb[a].len() && rb[a][b].0 == p;
                assert(a != i);
                if a < i {
                    assert(keys[a] == k2 && buckets[a] == rb[a]);
                    assert(table_has_pos(keys, buckets, k2, p));
                } else {
                    assert(keys[a - 1] == k2 && buckets[a - 1] == rb[a]);
                    assert(table_has_pos(keys, buckets, k2, p));
                }
            }
        }
    }
}

/// Of two unequal sequences, one precedes the other.
proof fn lemma_lex_connected_not(a: Seq<char>, b: Seq<char>)
    requires
        a != b,
        !lex_lt(b, a),
    ensures
        lex_lt(a, b),
{
    if !lex_lt(a, b) {
        lemma_lex_connected(a, b);
    }
}

/// The keys of a deduplicated pair list are nonempty and pairwise
/// distinct.
pub proof fn lemma_dedup_distinct(ps: Seq<(Seq<char>, u8)>)
    ensures
        forall|i: int|
            0 <= i < dedup_pairs(ps).len() ==> (#[trigger] dedup_pairs(ps)[i]).0.len() > 0,
        forall|i: int, j: int|
            0 <= i < j < dedup_pairs(ps).len() ==> dedup_pairs(ps)[i].0 != dedup_pairs(ps)[j].0,
    decreases ps.len(),
{
    if ps.len() > 0 {
        lemma_dedup_distinct(ps.drop_last());
        let front = dedup_pairs(ps.drop_last());
        if !(ps.last().0.len() == 0 || has_key(front, ps.last().0)) {
            assert forall|i: int, j: int|
                0 <= i < j < dedup_pairs(ps).len() implies dedup_pairs(ps)[i].0 != dedup_pairs(
                ps,
            )[j].0 by {
                if j == front.len() {
                    if dedup_pairs(ps)[i].0 == ps.last().0 {
                        assert(front[i].0 == ps.last().0);
                        assert(has_key(front, ps.last().0));
                    }
                }
            }
        }
    }
}

/// Folding one item's deduplicated pairs into a table where position
/// `p` does not yet occur keeps the table well-formed; `p` then stands
/// only in buckets of keys from the pair list.
pub proof fn lemma_add_pairs_wf(
    keys: Seq<Seq<char>>,
    buckets: Seq<Seq<(usize, u8)>>,
    pairs: Seq<(Seq<char>, u8)>,
    p: usize,
    bound: nat,
)
    requires
        table_wf(keys, buckets, bound),
        (p as nat) < bound,
        forall|i: int| 0 <= i < pairs.len() ==> (#[trigger] pairs[i]).0.len() > 0,
        forall|i: int, j: int| 0 <= i < j < pairs.len() ==> pairs[i].0 != pairs[j].0,
        forall|k: Seq<char>| !table_has_pos(keys, buckets, k, p),
    ensures
        table_wf(
            table_add_pairs(keys, buckets, pairs, p).0,
            table_add_pairs(keys, buckets, pairs, p).1,
            bound,
        ),
        forall|k: Seq<char>|
            table_has_pos(
                table_add_pairs(keys, buckets, pairs, p).0,
                table_add_pairs(keys, buckets, pairs, p).1,
                k,
                p,
            ) ==> has_key(pairs, k),
    decreases pairs.len(),
{
    if pairs.len() > 0 {
        let front = pairs.drop_last();
        lemma_add_pairs_wf(keys, buckets, front, p, bound);
        let t = table_add_pairs(keys, buckets, front, p);
        let last = pairs.last();
        assert(!has_key(front, last.0));
        assert(!table_has_pos(t.0, t.1, last.0, p));
        lemma_table_insert_wf(t.0, t.1, last.0, p, last.1, bound);
        assert forall|k: Seq<char>|
            table_has_pos(
                table_add_pairs(keys, buckets, pairs, p).0,
                table_add_pairs(keys, buckets, pairs, p).1,
                k,
                p,
            ) implies has_key(pairs, k) by {
            if k == last.0 {
                assert(pairs[pairs.len() - 1].0 == k);
            } else {
                assert(table_has_pos(t.0, t.1, k, p));
                assert(has_key(front, k));
                let j = choose|j: int| 0 <= j < front.len() && front[j].0 == k;
                assert(pairs[j].0 == k);
            }
        }
    }
}

/// Loosening the position bound keeps a table well-formed.
pub proof fn lemma_table_wf_widen(
    keys: Seq<Seq<char>>,
    buckets: Seq<Seq<(usize, u8)>>,
    b1: nat,
    b2: nat,
)
    requires
        table_wf(keys, buckets, b1),
        b1 <= b2,
    ensures
        table_wf(keys, buckets, b2),
{
    assert forall|i: int| 0 <= i < buckets.len() implies bucket_wf(#[trigger] buckets[i], b2) by {
        assert(bucket_wf(buckets[i], b1));
    }
}

/// The table over the first `n` items is well-formed with positions
/// below `n`.
pub proof fn lemma_table_of_prefix_wf(items: Seq<InputItem>, n: int)
    requires
        0 <= n <= items.len(),
        items.len() <= usize::MAX,
    ensures
        table_wf(table_of_prefix(items, n).0, table_of_prefix(items, n).1, n as nat),
    decreases n,
{
    if n > 0 {
        lemma_table_of_prefix_wf(items, n - 1);
        let t = table_of_prefix(items, n - 1);
        lemma_table_wf_widen(t.0, t.1, (n - 1) as nat, n as nat);
        let pairs = item_keywords(items[n - 1]);
        lemma_dedup_distinct(item_pairs(items[n - 1].search_terms@));
        let p = (n - 1) as usize;
        assert forall|k: Seq<char>| !table_has_pos(t.0, t.1, k, p) by {
            if table_has_pos(t.0, t.1, k, p) {
                let (a, b) = choose|a: int, b: int|
                    0 <= a < t.0.len() && t.0[a] == k && 0 <= b < t.1[a].len() && t.1[a][b].0 == p;
                assert(bucket_wf(t.1[a], (n - 1) as nat));
                assert(t.1[a][b].0 < (n - 1) as nat);
            }
        }
        lemma_add_pairs_wf(t.0, t.1, pairs, p, n as nat);
    }
}

/// The keyword table of a built index is well-formed: sorted distinct
/// keys, one bucket per key, weights descending, and item positions
/// below the item count and distinct within each bucket.
pub proof fn lemma_build_table_wf(items: Seq<InputItem>)
    requires
        items.len() <= usize::MAX,
    ensures
        table_wf(build_keys(items), build_buckets(items), items.len()),
{
    lemma_table_of_prefix_wf(items, items.len() as int);
}

} // verus!
