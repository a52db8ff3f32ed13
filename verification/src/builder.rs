//! The executable build pipeline for the keyword table: walk the items
//! in order, normalize and deduplicate each item's keywords, and keep
//! the table sorted by keyword with each bucket sorted by weight.

use vstd::prelude::*;
use crate::model::{
    build_ids, build_keys, build_buckets, dedup_pairs, has_key, item_keywords, item_pairs,
    lemma_insert_pos_is, lemma_insert_pos_props, lemma_weight_pos_is, table_add_pairs,
    table_insert, table_of_prefix, winsert,
};
use crate::terms::{InputItem, normalize_term, term_keywords};
use crate::text::{contains_str, lex_lt, lemma_lex_connected, str_lex_lt};

verus! {

/// The views of a list of buckets.
pub open spec fn bviews(b: Seq<Vec<(usize, u8)>>) -> Seq<Seq<(usize, u8)>> {
    b.map_values(|v: Vec<(usize, u8)>| v@)
}

/// The keywords of a deduplicated pair list, in order.
pub open spec fn dedup_keys(ps: Seq<(Seq<char>, u8)>) -> Seq<Seq<char>> {
    dedup_pairs(ps).map_values(|pr: (Seq<char>, u8)| pr.0)
}

/// Add one keyword occurrence to the table.
fn table_insert_exec(
    keys: &mut Vec<String>,
    buckets: &mut Vec<Vec<(usize, u8)>>,
    k: String,
    p: usize,
    w: u8,
)
    requires
        old(keys)@.len() == old(buckets)@.len(),
    ensures
        final(keys).deep_view() == table_insert(
            old(keys).deep_view(),
            bviews(old(buckets)@),
            k@,
            p,
            w,
        ).0,
        bviews(final(buckets)@) == table_insert(
            old(keys).deep_view(),
            bviews(old(buckets)@),
            k@,
            p,
            w,
        ).1,
        final(keys)@.len() == final(buckets)@.len(),
{
    let ghost okeys = keys.deep_view();
    let ghost obuckets = bviews(buckets@);
    let mut i: usize = 0;
    while i < keys.len() && str_lex_lt(keys[i].as_str(), k.as_str())
        invariant
            i <= keys.len(),
            keys@.len() == buckets@.len(),
            okeys == keys.deep_view(),
            obuckets == bviews(buckets@),
            forall|j: int| 0 <= j < i ==> lex_lt(#[trigger] okeys[j], k@),
        decreases keys.len() - i,
    {
        i = i + 1;
    }
    proof {
        lemma_insert_pos_is(okeys, k@, i as int);
    }
    if i < keys.len() && !str_lex_lt(k.as_str(), keys[i].as_str()) {
        // neither precedes the other, so this key is already present
        proof {
            lemma_lex_connected(okeys[i as int], k@);
        }
        let mut b = buckets.remove(i);
        let ghost ob = b@;
        let mut q: usize = 0;
        while q < b.len() && b[q].1 >= w
            invariant
                q <= b.len(),
                b@ == ob,
                forall|m: int| 0 <= m < q ==> (#[trigger] ob[m]).1 >= w,
            decreases b.len() - q,
        {
            q = q + 1;
        }
        proof {
            lemma_weight_pos_is(ob, w, q as int);
        }
        b.insert(q, (p, w));
        buckets.insert(i, b);
        proof {
            assert(bviews(buckets@) =~= obuckets.update(
                i as int,
                winsert(obuckets[i as int], (p, w)),
            ));
        }
    } else {
        keys.insert(i, k);
        let mut nb: Vec<(usize, u8)> = Vec::new();
        nb.push((p, w));
        buckets.insert(i, nb);
        proof {
            lemma_insert_pos_props(okeys, k@);
            assert(keys.deep_view() =~= okeys.insert(i as int, k@));
            assert(nb@ =~= seq![(p, w)]);
            assert(bviews(buckets@) =~= obuckets.insert(i as int, seq![(p, w)]));
        }
    }
}

/// Normalize, deduplicate and record one item's keywords: the first
/// occurrence of each nonempty keyword within the item wins.
fn add_item(keys: &mut Vec<String>, buckets: &mut Vec<Vec<(usize, u8)>>, item: &InputItem, p: usize)
    requires
        old(keys)@.len() == old(buckets)@.len(),
    ensures
        final(keys).deep_view() == table_add_pairs(
            old(keys).deep_view(),
            bviews(old(buckets)@),
            item_keywords(*item),
            p,
        ).0,
        bviews(final(buckets)@) == table_add_pairs(
            old(keys).deep_view(),
            bviews(old(buckets)@),
            item_keywords(*item),
            p,
        ).1,
        final(keys)@.len() == final(buckets)@.len(),
{
    let ghost okeys = old(keys).deep_view();
    let ghost obuckets = bviews(old(buckets)@);
    // the stream of (keyword, weight) pairs handed over so far; `seen`
    // mirrors the keywords its deduplicated form keeps
    let ghost mut stream: Seq<(Seq<char>, u8)> = Seq::empty();
    let mut seen: Vec<String> = Vec::new();
    let mut t: usize = 0;
    proof {
        assert(item.search_terms@.take(0) =~= Seq::<(crate::terms::SearchTokens, u8)>::empty());
        assert(dedup_pairs(stream) =~= Seq::<(Seq<char>, u8)>::empty());
        assert(seen.deep_view() =~= dedup_keys(stream));
    }
    while t < item.search_terms.len()
        invariant
            t <= item.search_terms.len(),
            keys@.len() == buckets@.len(),
            stream == item_pairs(item.search_terms@.take(t as int)),
            seen.deep_view() == dedup_keys(stream),
            keys.deep_view() == table_add_pairs(okeys, obuckets, dedup_pairs(stream), p).0,
            bviews(buckets@) == table_add_pairs(okeys, obuckets, dedup_pairs(stream), p).1,
        decreases item.search_terms.len() - t,
    {
        let pair = &item.search_terms[t];
        let w = pair.1;
        let kws = normalize_term(&pair.0);
        let ghost termkws = term_keywords(item.search_terms@[t as int].0);
        let ghost wpairs = termkws.map_values(|k: Seq<char>| (k, w));
        let mut j: usize = 0;
        proof {
            assert(stream =~= item_pairs(item.search_terms@.take(t as int)) + wpairs.take(0));
        }
        while j < kws.len()
            invariant
                j <= kws.len(),
                kws.deep_view() == termkws,
                wpairs == termkws.map_values(|k: Seq<char>| (k, w)),
                keys@.len() == buckets@.len(),
                stream == item_pairs(item.search_terms@.take(t as int)) + wpairs.take(j as int),
                seen.deep_view() == dedup_keys(stream),
                keys.deep_view() == table_add_pairs(okeys, obuckets, dedup_pairs(stream), p).0,
                bviews(buckets@) == table_add_pairs(okeys, obuckets, dedup_pairs(stream), p).1,
            decreases kws.len() - j,
        {
            let kw = &kws[j];
            let ghost prev_stream = stream;
            proof {
                stream = stream.push((kw@, w));
                assert(stream.drop_last() =~= prev_stream);
                assert(wpairs[j as int] == (kw@, w));
                assert(item_pairs(item.search_terms@.take(t as int)) + wpairs.take(j + 1)
                    =~= stream);
            }
            let skip = if kw.as_str().is_empty() {
                true
            } else {
                contains_str(&seen, kw)
            };
            let ghost d = dedup_pairs(prev_stream);
            proof {
                if skip && kw@.len() > 0 {
                    // found among the seen keywords
                    let a = choose|a: int| 0 <= a < seen@.len() && seen.deep_view()[a] == kw@;
                    assert(seen.deep_view().len() == seen@.len());
                    assert(dedup_keys(prev_stream).len() == d.len());
                    assert(a < d.len());
                    assert(dedup_keys(prev_stream)[a] == kw@);
                    assert(dedup_keys(prev_stream)[a] == d[a].0);
                    assert(has_key(d, kw@));
                    assert(dedup_pairs(stream) == d);
                } else if !skip {
                    // new: nothing seen equals it, so it is not in the
                    // deduplicated front either
                    if has_key(d, kw@) {
                        let a = choose|a: int| 0 <= a < d.len() && d[a].0 == kw@;
                        assert(dedup_keys(prev_stream)[a] == kw@);
                        assert(seen@.len() == dedup_keys(prev_stream).len());
                        assert(seen.deep_view()[a] == kw@);
                        assert(false);
                    }
                    assert(dedup_pairs(stream) == d.push((kw@, w)));
                } else {
                    assert(kw@.len() == 0);
                    assert(dedup_pairs(stream) == d);
                }
            }
            if !skip {
                let ghost seen_before = seen.deep_view();
                table_insert_exec(keys, buckets, kw.clone(), p, w);
                seen.push(kw.clone());
                proof {
                    assert(dedup_pairs(stream).drop_last() == d);
                    assert(dedup_keys(stream) =~= dedup_keys(prev_stream).push(kw@));
                    assert(seen.deep_view() =~= seen_before.push(kw@));
                }
            }
            j = j + 1;
        }
        proof {
            assert(wpairs.take(termkws.len() as int) =~= wpairs);
            assert(item.search_terms@.take(t + 1).drop_last() =~= item.search_terms@.take(
                t as int,
            ));
            assert(item.search_terms@.take(t + 1).last() == item.search_terms@[t as int]);
            assert(item_pairs(item.search_terms@.take(t + 1)) == stream);
        }
        t = t + 1;
    }
    proof {
        assert(item.search_terms@.take(item.search_terms@.len() as int) =~= item.search_terms@);
    }
}

/// Build the sorted keyword table over all items: for each item in
/// input order, its deduplicated keywords enter the table, so the keys
/// come out sorted and each bucket sorted by weight descending, ties in
/// item order.
pub fn build_table(items: &Vec<InputItem>) -> (r: (Vec<String>, Vec<Vec<(usize, u8)>>))
    ensures
        r.0.deep_view() == build_keys(items@),
        bviews(r.1@) == build_buckets(items@),
        r.0@.len() == r.1@.len(),
{
    let mut keys: Vec<String> = Vec::new();
    let mut buckets: Vec<Vec<(usize, u8)>> = Vec::new();
    let mut p: usize = 0;
    proof {
        assert(keys.deep_view() =~= Seq::<Seq<char>>::empty());
        assert(bviews(buckets@) =~= Seq::<Seq<(usize, u8)>>::empty());
    }
    while p < items.len()
        invariant
            p <= items.len(),
            keys@.len() == buckets@.len(),
            keys.deep_view() == table_of_prefix(items@, p as int).0,
            bviews(buckets@) == table_of_prefix(items@, p as int).1,
        decreases items.len() - p,
    {
        add_item(&mut keys, &mut buckets, &items[p], p);
        p = p + 1;
    }
    (keys, buckets)
}

/// Collect the identifiers of all items, in order.
pub fn collect_ids(items: &Vec<InputItem>) -> (r: Vec<String>)
    ensures
        r.deep_view() == build_ids(items@),
{
    let mut out: Vec<String> = Vec::new();
    let mut i: usize = 0;
    while i < items.len()
        invariant
            i <= items.len(),
            out@.len() == i,
            forall|j: int| 0 <= j < i ==> (#[trigger] out@[j])@ == items@[j].id@,
        decreases items.len() - i,
    {
        out.push(items[i].id.clone());
        i = i + 1;
    }
    proof {
        assert(out.deep_view() =~= build_ids(items@));
    }
    out
}

} // verus!
