//! Byte-exact serialization of the index: a fixed-width little-endian
//! encoding of the dictionary bytes, the string store's parts and the
//! postings table, with a decoder that accepts exactly the encodings.

use vstd::prelude::*;
use crate::index::Index;
use crate::store::FsstStrVec;

verus! {

/// An error while loading an index from bytes.
#[derive(Debug, Clone, PartialEq, Eq)]
pub enum LoadError {
    /// The bytes are not a whole, well-formed index encoding.
    Malformed,
}

/// A 64-bit value as eight little-endian bytes.
pub open spec fn enc_u64(x: u64) -> Seq<u8> {
    seq![
        (x & 0xff) as u8,
        ((x >> 8) & 0xff) as u8,
        ((x >> 16) & 0xff) as u8,
        ((x >> 24) & 0xff) as u8,
        ((x >> 32) & 0xff) as u8,
        ((x >> 40) & 0xff) as u8,
        ((x >> 48) & 0xff) as u8,
        ((x >> 56) & 0xff) as u8,
    ]
}

/// The value of eight little-endian bytes at `pos`.
pub open spec fn dec_u64_at(b: Seq<u8>, pos: int) -> u64 {
    (b[pos] as u64) | ((b[pos + 1] as u64) << 8) | ((b[pos + 2] as u64) << 16) | ((b[pos + 3]
        as u64) << 24) | ((b[pos + 4] as u64) << 32) | ((b[pos + 5] as u64) << 40) | ((b[pos + 6]
        as u64) << 48) | ((b[pos + 7] as u64) << 56)
}

pub open spec fn dec_u64(b: Seq<u8>, pos: int) -> Option<(u64, int)> {
    if 0 <= pos && pos + 8 <= b.len() {
        Some((dec_u64_at(b, pos), pos + 8))
    } else {
        None
    }
}

/// Reading back the eight bytes of a value gives the value.
proof fn lemma_u64_bytes(x: u64)
    ensures
        ((x & 0xff) as u8 as u64) | (((x >> 8) & 0xff) as u8 as u64) << 8 | (((x >> 16) & 0xff)
            as u8 as u64) << 16 | (((x >> 24) & 0xff) as u8 as u64) << 24 | (((x >> 32) & 0xff)
            as u8 as u64) << 32 | (((x >> 40) & 0xff) as u8 as u64) << 40 | (((x >> 48) & 0xff)
            as u8 as u64) << 48 | (((x >> 56) & 0xff) as u8 as u64) << 56 == x,
{
    assert(((x & 0xff) as u8 as u64) | (((x >> 8) & 0xff) as u8 as u64) << 8 | (((x >> 16) & 0xff)
        as u8 as u64) << 16 | (((x >> 24) & 0xff) as u8 as u64) << 24 | (((x >> 32) & 0xff) as u8
        as u64) << 32 | (((x >> 40) & 0xff) as u8 as u64) << 40 | (((x >> 48) & 0xff) as u8 as u64)
        << 48 | (((x >> 56) & 0xff) as u8 as u64) << 56 == x) by (bit_vector);
}

/// Decoding at an encoded value's place gives the value back.
proof fn lemma_dec_enc_u64(x: u64, b: Seq<u8>, pos: int)
    requires
        0 <= pos,
        pos + 8 <= b.len(),
        b.subrange(pos, pos + 8) == enc_u64(x),
    ensures
        dec_u64(b, pos) == Some((x, pos + 8)),
{
    assert forall|k: int| 0 <= k < 8 implies b[pos + k] == enc_u64(x)[k] by {
        assert(b.subrange(pos, pos + 8)[k] == b[pos + k]);
    }
    lemma_u64_bytes(x);
}


/// A subrange equal to a concatenation splits into the two parts.
proof fn lemma_subrange_split(b: Seq<u8>, pos: int, e1: Seq<u8>, e2: Seq<u8>)
    requires
        0 <= pos,
        pos + e1.len() + e2.len() <= b.len(),
        b.subrange(pos, pos + e1.len() + e2.len()) == e1 + e2,
    ensures
        b.subrange(pos, pos + e1.len() as int) == e1,
        b.subrange(pos + e1.len() as int, pos + e1.len() + e2.len()) == e2,
{
    let whole = b.subrange(pos, pos + e1.len() + e2.len());
    assert forall|m: int| 0 <= m < e1.len() implies b.subrange(pos, pos + e1.len() as int)[m]
        == e1[m] by {
        assert(whole[m] == (e1 + e2)[m]);
    }
    assert(b.subrange(pos, pos + e1.len() as int) =~= e1);
    assert forall|m: int| 0 <= m < e2.len() implies b.subrange(
        pos + e1.len() as int,
        pos + e1.len() + e2.len(),
    )[m] == e2[m] by {
        assert(whole[e1.len() + m] == (e1 + e2)[e1.len() + m]);
    }
    assert(b.subrange(pos + e1.len() as int, pos + e1.len() + e2.len()) =~= e2);
}

/// A byte string: its length, then its bytes.
pub open spec fn enc_bytes(v: Seq<u8>) -> Seq<u8> {
    enc_u64(v.len() as u64) + v
}

pub open spec fn dec_bytes(b: Seq<u8>, pos: int) -> Option<(Seq<u8>, int)> {
    match dec_u64(b, pos) {
        None => None,
        Some((n, p)) => if n <= usize::MAX && p + n <= b.len() {
            Some((b.subrange(p, p + n as int), p + n as int))
        } else {
            None
        },
    }
}

proof fn lemma_dec_enc_bytes(v: Seq<u8>, b: Seq<u8>, pos: int)
    requires
        0 <= pos,
        v.len() <= usize::MAX,
        pos + enc_bytes(v).len() <= b.len(),
        b.subrange(pos, pos + enc_bytes(v).len() as int) == enc_bytes(v),
    ensures
        dec_bytes(b, pos) == Some((v, pos + enc_bytes(v).len() as int)),
{
    lemma_subrange_split(b, pos, enc_u64(v.len() as u64), v);
    lemma_dec_enc_u64(v.len() as u64, b, pos);
}

/// A list of 64-bit values: its length, then each value.
pub open spec fn enc_u64s_body(v: Seq<u64>) -> Seq<u8>
    decreases v.len(),
{
    if v.len() == 0 {
        Seq::empty()
    } else {
        enc_u64(v[0]) + enc_u64s_body(v.skip(1))
    }
}

pub open spec fn enc_u64s(v: Seq<u64>) -> Seq<u8> {
    enc_u64(v.len() as u64) + enc_u64s_body(v)
}

pub open spec fn dec_u64_items(b: Seq<u8>, pos: int, n: nat) -> Option<(Seq<u64>, int)>
    decreases n,
{
    if n == 0 {
        Some((Seq::empty(), pos))
    } else {
        match dec_u64(b, pos) {
            None => None,
            Some((x, p)) => match dec_u64_items(b, p, (n - 1) as nat) {
                None => None,
                Some((s, p2)) => Some((seq![x] + s, p2)),
            },
        }
    }
}

pub open spec fn dec_u64s(b: Seq<u8>, pos: int) -> Option<(Seq<u64>, int)> {
    match dec_u64(b, pos) {
        None => None,
        Some((n, p)) => if n <= usize::MAX {
            dec_u64_items(b, p, n as nat)
        } else {
            None
        },
    }
}

proof fn lemma_enc_u64s_body_len(v: Seq<u64>)
    ensures
        enc_u64s_body(v).len() == 8 * v.len(),
    decreases v.len(),
{
    if v.len() > 0 {
        lemma_enc_u64s_body_len(v.skip(1));
    }
}

/// Appending one value extends the body encoding at its end.
proof fn lemma_enc_u64s_body_snoc(v: Seq<u64>, x: u64)
    ensures
        enc_u64s_body(v.push(x)) == enc_u64s_body(v) + enc_u64(x),
    decreases v.len(),
{
    let w = v.push(x);
    assert(w.len() == v.len() + 1);
    if v.len() == 0 {
        assert(w[0] == x);
        assert(w.skip(1) =~= Seq::<u64>::empty());
        assert(enc_u64s_body(w) == enc_u64(x) + enc_u64s_body(Seq::<u64>::empty()));
        assert(enc_u64(x) + Seq::<u8>::empty() =~= enc_u64(x));
        assert(enc_u64s_body(v) + enc_u64(x) =~= enc_u64(x));
    } else {
        assert(w[0] == v[0]);
        assert(w.skip(1) =~= v.skip(1).push(x));
        lemma_enc_u64s_body_snoc(v.skip(1), x);
        assert(enc_u64s_body(w) == enc_u64(v[0]) + (enc_u64s_body(v.skip(1)) + enc_u64(x)));
        assert(enc_u64(v[0]) + (enc_u64s_body(v.skip(1)) + enc_u64(x)) =~= (enc_u64(v[0])
            + enc_u64s_body(v.skip(1))) + enc_u64(x));
    }
}

proof fn lemma_dec_enc_u64_items(v: Seq<u64>, b: Seq<u8>, pos: int)
    requires
        0 <= pos,
        pos + enc_u64s_body(v).len() <= b.len(),
        b.subrange(pos, pos + enc_u64s_body(v).len() as int) == enc_u64s_body(v),
    ensures
        dec_u64_items(b, pos, v.len()) == Some((v, pos + enc_u64s_body(v).len() as int)),
    decreases v.len(),
{
    lemma_enc_u64s_body_len(v);
    if v.len() == 0 {
        assert(dec_u64_items(b, pos, 0) == Some((Seq::<u64>::empty(), pos)));
        assert(v =~= Seq::<u64>::empty());
    } else {
        assert(enc_u64s_body(v) == enc_u64(v[0]) + enc_u64s_body(v.skip(1)));
        lemma_enc_u64s_body_len(v.skip(1));
        lemma_subrange_split(b, pos, enc_u64(v[0]), enc_u64s_body(v.skip(1)));
        lemma_dec_enc_u64(v[0], b, pos);
        lemma_dec_enc_u64_items(v.skip(1), b, pos + 8);
        assert(seq![v[0]] + v.skip(1) =~= v);
    }
}

proof fn lemma_dec_enc_u64s(v: Seq<u64>, b: Seq<u8>, pos: int)
    requires
        0 <= pos,
        v.len() <= usize::MAX,
        pos + enc_u64s(v).len() <= b.len(),
        b.subrange(pos, pos + enc_u64s(v).len() as int) == enc_u64s(v),
    ensures
        dec_u64s(b, pos) == Some((v, pos + enc_u64s(v).len() as int)),
{
    lemma_enc_u64s_body_len(v);
    lemma_subrange_split(b, pos, enc_u64(v.len() as u64), enc_u64s_body(v));
    lemma_dec_enc_u64(v.len() as u64, b, pos);
    lemma_dec_enc_u64_items(v, b, pos + 8);
}

/// One posting: the item position, then its weight byte.
pub open spec fn enc_pair(e: (usize, u8)) -> Seq<u8> {
    enc_u64(e.0 as u64) + seq![e.1]
}

pub open spec fn dec_pair(b: Seq<u8>, pos: int) -> Option<((usize, u8), int)> {
    match dec_u64(b, pos) {
        None => None,
        Some((x, p)) => if x <= usize::MAX && p + 1 <= b.len() {
            Some(((x as usize, b[p]), p + 1))
        } else {
            None
        },
    }
}

proof fn lemma_dec_enc_pair(e: (usize, u8), b: Seq<u8>, pos: int)
    requires
        0 <= pos,
        pos + 9 <= b.len(),
        b.subrange(pos, pos + 9) == enc_pair(e),
    ensures
        dec_pair(b, pos) == Some((e, pos + 9)),
{
    lemma_subrange_split(b, pos, enc_u64(e.0 as u64), seq![e.1]);
    lemma_dec_enc_u64(e.0 as u64, b, pos);
    assert(b[pos + 8] == b.subrange(pos + 8, pos + 9)[0]);
}

/// One bucket: its length, then its postings.
pub open spec fn enc_bucket_body(v: Seq<(usize, u8)>) -> Seq<u8>
    decreases v.len(),
{
    if v.len() == 0 {
        Seq::empty()
    } else {
        enc_pair(v[0]) + enc_bucket_body(v.skip(1))
    }
}

pub open spec fn enc_bucket(v: Seq<(usize, u8)>) -> Seq<u8> {
    enc_u64(v.len() as u64) + enc_bucket_body(v)
}

pub open spec fn dec_pair_items(b: Seq<u8>, pos: int, n: nat) -> Option<(Seq<(usize, u8)>, int)>
    decreases n,
{
    if n == 0 {
        Some((Seq::empty(), pos))
    } else {
        match dec_pair(b, pos) {
            None => None,
            Some((e, p)) => match dec_pair_items(b, p, (n - 1) as nat) {
                None => None,
                Some((s, p2)) => Some((seq![e] + s, p2)),
            },
        }
    }
}

pub open spec fn dec_bucket(b: Seq<u8>, pos: int) -> Option<(Seq<(usize, u8)>, int)> {
    match dec_u64(b, pos) {
        None => None,
        Some((n, p)) => if n <= usize::MAX {
            dec_pair_items(b, p, n as nat)
        } else {
            None
        },
    }
}

proof fn lemma_enc_bucket_body_len(v: Seq<(usize, u8)>)
    ensures
        enc_bucket_body(v).len() == 9 * v.len(),
    decreases v.len(),
{
    if v.len() > 0 {
        lemma_enc_bucket_body_len(v.skip(1));
    }
}

proof fn lemma_enc_bucket_body_snoc(v: Seq<(usize, u8)>, e: (usize, u8))
    ensures
        enc_bucket_body(v.push(e)) == enc_bucket_body(v) + enc_pair(e),
    decreases v.len(),
{
    let w = v.push(e);
    assert(w.len() == v.len() + 1);
    if v.len() == 0 {
        assert(w[0] == e);
        assert(w.skip(1) =~= Seq::<(usize, u8)>::empty());
        assert(enc_bucket_body(w) == enc_pair(e) + enc_bucket_body(Seq::<(usize, u8)>::empty()));
        assert(enc_pair(e) + Seq::<u8>::empty() =~= enc_pair(e));
        assert(enc_bucket_body(v) + enc_pair(e) =~= enc_pair(e));
    } else {
        assert(w[0] == v[0]);
        assert(w.skip(1) =~= v.skip(1).push(e));
        lemma_enc_bucket_body_snoc(v.skip(1), e);
        assert(enc_bucket_body(w) == enc_pair(v[0]) + (enc_bucket_body(v.skip(1)) + enc_pair(e)));
        assert(enc_pair(v[0]) + (enc_bucket_body(v.skip(1)) + enc_pair(e)) =~= (enc_pair(v[0])
            + enc_bucket_body(v.skip(1))) + enc_pair(e));
    }
}

proof fn lemma_dec_enc_pair_items(v: Seq<(usize, u8)>, b: Seq<u8>, pos: int)
    requires
        0 <= pos,
        pos + enc_bucket_body(v).len() <= b.len(),
        b.subrange(pos, pos + enc_bucket_body(v).len() as int) == enc_bucket_body(v),
    ensures
        dec_pair_items(b, pos, v.len()) == Some((v, pos + enc_bucket_body(v).len() as int)),
    decreases v.len(),
{
    lemma_enc_bucket_body_len(v);
    if v.len() == 0 {
        assert(v =~= Seq::<(usize, u8)>::empty());
    } else {
        assert(enc_bucket_body(v) == enc_pair(v[0]) + enc_bucket_body(v.skip(1)));
        lemma_enc_bucket_body_len(v.skip(1));
        lemma_subrange_split(b, pos, enc_pair(v[0]), enc_bucket_body(v.skip(1)));
        lemma_dec_enc_pair(v[0], b, pos);
        lemma_dec_enc_pair_items(v.skip(1), b, pos + 9);
        assert(seq![v[0]] + v.skip(1) =~= v);
    }
}

proof fn lemma_dec_enc_bucket(v: Seq<(usize, u8)>, b: Seq<u8>, pos: int)
    requires
        0 <= pos,
        v.len() <= usize::MAX,
        pos + enc_bucket(v).len() <= b.len(),
        b.subrange(pos, pos + enc_bucket(v).len() as int) == enc_bucket(v),
    ensures
        dec_bucket(b, pos) == Some((v, pos + enc_bucket(v).len() as int)),
{
    lemma_enc_bucket_body_len(v);
    lemma_subrange_split(b, pos, enc_u64(v.len() as u64), enc_bucket_body(v));
    lemma_dec_enc_u64(v.len() as u64, b, pos);
    lemma_dec_enc_pair_items(v, b, pos + 8);
}

/// The postings table: its bucket count, then each bucket.
pub open spec fn enc_buckets_body(v: Seq<Seq<(usize, u8)>>) -> Seq<u8>
    decreases v.len(),
{
    if v.len() == 0 {
        Seq::empty()
    } else {
        enc_bucket(v[0]) + enc_buckets_body(v.skip(1))
    }
}

pub open spec fn enc_buckets(v: Seq<Seq<(usize, u8)>>) -> Seq<u8> {
    enc_u64(v.len() as u64) + enc_buckets_body(v)
}

pub open spec fn dec_bucket_items(b: Seq<u8>, pos: int, n: nat) -> Option<(
    Seq<Seq<(usize, u8)>>,
    int,
)>
    decreases n,
{
    if n == 0 {
        Some((Seq::empty(), pos))
    } else {
        match dec_bucket(b, pos) {
            None => None,
            Some((e, p)) => match dec_bucket_items(b, p, (n - 1) as nat) {
                None => None,
                Some((s, p2)) => Some((seq![e] + s, p2)),
            },
        }
    }
}

pub open spec fn dec_buckets(b: Seq<u8>, pos: int) -> Option<(Seq<Seq<(usize, u8)>>, int)> {
    match dec_u64(b, pos) {
        None => None,
        Some((n, p)) => if n <= usize::MAX {
            dec_bucket_items(b, p, n as nat)
        } else {
            None
        },
    }
}

proof fn lemma_enc_buckets_body_snoc(v: Seq<Seq<(usize, u8)>>, e: Seq<(usize, u8)>)
    ensures
        enc_buckets_body(v.push(e)) == enc_buckets_body(v) + enc_bucket(e),
    decreases v.len(),
{
    let w = v.push(e);
    assert(w.len() == v.len() + 1);
    if v.len() == 0 {
        assert(w[0] == e);
        assert(w.skip(1) =~= Seq::<Seq<(usize, u8)>>::empty());
        assert(enc_buckets_body(w) == enc_bucket(e) + enc_buckets_body(
            Seq::<Seq<(usize, u8)>>::empty(),
        ));
        assert(enc_bucket(e) + Seq::<u8>::empty() =~= enc_bucket(e));
        assert(enc_buckets_body(v) + enc_bucket(e) =~= enc_bucket(e));
    } else {
        assert(w[0] == v[0]);
        assert(w.skip(1) =~= v.skip(1).push(e));
        lemma_enc_buckets_body_snoc(v.skip(1), e);
        assert(enc_buckets_body(w) == enc_bucket(v[0]) + (enc_buckets_body(v.skip(1)) + enc_bucket(
            e,
        )));
        assert(enc_bucket(v[0]) + (enc_buckets_body(v.skip(1)) + enc_bucket(e)) =~= (enc_bucket(
            v[0],
        ) + enc_buckets_body(v.skip(1))) + enc_bucket(e));
    }
}

proof fn lemma_dec_enc_bucket_items(v: Seq<Seq<(usize, u8)>>, b: Seq<u8>, pos: int)
    requires
        0 <= pos,
        pos + enc_buckets_body(v).len() <= b.len(),
        b.subrange(pos, pos + enc_buckets_body(v).len() as int) == enc_buckets_body(v),
        forall|j: int| 0 <= j < v.len() ==> (#[trigger] v[j]).len() <= usize::MAX,
    ensures
        dec_bucket_items(b, pos, v.len()) == Some((v, pos + enc_buckets_body(v).len() as int)),
    decreases v.len(),
{
    if v.len() == 0 {
        assert(v =~= Seq::<Seq<(usize, u8)>>::empty());
    } else {
        assert(enc_buckets_body(v) == enc_bucket(v[0]) + enc_buckets_body(v.skip(1)));
        let l0 = enc_bucket(v[0]).len() as int;
        lemma_subrange_split(b, pos, enc_bucket(v[0]), enc_buckets_body(v.skip(1)));
        lemma_dec_enc_bucket(v[0], b, pos);
        assert(forall|j: int|
            0 <= j < v.skip(1).len() ==> (#[trigger] v.skip(1)[j]).len() <= usize::MAX);
        lemma_dec_enc_bucket_items(v.skip(1), b, pos + l0);
        assert(seq![v[0]] + v.skip(1) =~= v);
    }
}

proof fn lemma_dec_enc_buckets(v: Seq<Seq<(usize, u8)>>, b: Seq<u8>, pos: int)
    requires
        0 <= pos,
        v.len() <= usize::MAX,
        forall|j: int| 0 <= j < v.len() ==> (#[trigger] v[j]).len() <= usize::MAX,
        pos + enc_buckets(v).len() <= b.len(),
        b.subrange(pos, pos + enc_buckets(v).len() as int) == enc_buckets(v),
    ensures
        dec_buckets(b, pos) == Some((v, pos + enc_buckets(v).len() as int)),
{
    lemma_subrange_split(b, pos, enc_u64(v.len() as u64), enc_buckets_body(v));
    lemma_dec_enc_u64(v.len() as u64, b, pos);
    lemma_dec_enc_bucket_items(v, b, pos + 8);
}

/// A whole index: dictionary bytes, store table, store offsets, store
/// data, postings table.
pub open spec fn enc_index(
    fst: Seq<u8>,
    table: Seq<u8>,
    offsets: Seq<u64>,
    data: Seq<u8>,
    buckets: Seq<Seq<(usize, u8)>>,
) -> Seq<u8> {
    enc_bytes(fst) + enc_bytes(table) + enc_u64s(offsets) + enc_bytes(data) + enc_buckets(buckets)
}

/// Decode a whole index; every byte must be consumed.
pub open spec fn dec_index(b: Seq<u8>) -> Option<
    (Seq<u8>, Seq<u8>, Seq<u64>, Seq<u8>, Seq<Seq<(usize, u8)>>),
> {
    match dec_bytes(b, 0) {
        None => None,
        Some((fst, p1)) => match dec_bytes(b, p1) {
            None => None,
            Some((table, p2)) => match dec_u64s(b, p2) {
                None => None,
                Some((offsets, p3)) => match dec_bytes(b, p3) {
                    None => None,
                    Some((data, p4)) => match dec_buckets(b, p4) {
                        None => None,
                        Some((buckets, p5)) => if p5 == b.len() {
                            Some((fst, table, offsets, data, buckets))
                        } else {
                            None
                        },
                    },
                },
            },
        },
    }
}

/// Decoding an encoded index gives back exactly its parts.
#[verifier::rlimit(100)]
pub proof fn lemma_dec_enc_index(
    fst: Seq<u8>,
    table: Seq<u8>,
    offsets: Seq<u64>,
    data: Seq<u8>,
    buckets: Seq<Seq<(usize, u8)>>,
)
    requires
        fst.len() <= usize::MAX,
        table.len() <= usize::MAX,
        offsets.len() <= usize::MAX,
        data.len() <= usize::MAX,
        buckets.len() <= usize::MAX,
        forall|j: int| 0 <= j < buckets.len() ==> (#[trigger] buckets[j]).len() <= usize::MAX,
    ensures
        dec_index(enc_index(fst, table, offsets, data, buckets)) == Some(
            (fst, table, offsets, data, buckets),
        ),
{
    let b = enc_index(fst, table, offsets, data, buckets);
    let e1 = enc_bytes(fst);
    let e2 = enc_bytes(table);
    let e3 = enc_u64s(offsets);
    let e4 = enc_bytes(data);
    let e5 = enc_buckets(buckets);
    let l1 = e1.len() as int;
    let l2 = e2.len() as int;
    let l3 = e3.len() as int;
    let l4 = e4.len() as int;
    let l5 = e5.len() as int;
    let t45 = e4 + e5;
    let t345 = e3 + t45;
    let t2345 = e2 + t345;
    lemma_seq_add_assoc(((e1 + e2) + e3), e4, e5);
    lemma_seq_add_assoc((e1 + e2), e3, t45);
    lemma_seq_add_assoc(e1, e2, t345);
    assert(b == e1 + t2345);
    assert(b.len() == l1 + l2 + l3 + l4 + l5);
    assert(b.subrange(0, b.len() as int) =~= b);
    lemma_subrange_split(b, 0, e1, t2345);
    lemma_dec_enc_bytes(fst, b, 0);
    lemma_subrange_split(b, l1, e2, t345);
    lemma_dec_enc_bytes(table, b, l1);
    lemma_subrange_split(b, l1 + l2, e3, t45);
    lemma_dec_enc_u64s(offsets, b, l1 + l2);
    lemma_subrange_split(b, l1 + l2 + l3, e4, e5);
    lemma_dec_enc_bytes(data, b, l1 + l2 + l3);
    lemma_dec_enc_buckets(buckets, b, l1 + l2 + l3 + l4);
}

/// Concatenation of byte strings is associative.
proof fn lemma_seq_add_assoc(a: Seq<u8>, b: Seq<u8>, c: Seq<u8>)
    ensures
        (a + b) + c == a + (b + c),
{
    assert((a + b) + c =~= a + (b + c));
}

/// Append eight little-endian bytes.
fn write_u64(out: &mut Vec<u8>, x: u64)
    ensures
        final(out)@ == old(out)@ + enc_u64(x),
{
    out.push((x & 0xff) as u8);
    out.push(((x >> 8) & 0xff) as u8);
    out.push(((x >> 16) & 0xff) as u8);
    out.push(((x >> 24) & 0xff) as u8);
    out.push(((x >> 32) & 0xff) as u8);
    out.push(((x >> 40) & 0xff) as u8);
    out.push(((x >> 48) & 0xff) as u8);
    out.push(((x >> 56) & 0xff) as u8);
    proof {
        assert(out@ =~= old(out)@ + enc_u64(x));
    }
}

/// Append a length-prefixed byte string.
fn write_bytes(out: &mut Vec<u8>, v: &Vec<u8>)
    ensures
        final(out)@ == old(out)@ + enc_bytes(v@),
{
    write_u64(out, v.len() as u64);
    let ghost mid = out@;
    let mut i: usize = 0;
    while i < v.len()
        invariant
            i <= v@.len(),
            out@ == mid + v@.take(i as int),
        decreases v.len() - i,
    {
        out.push(v[i]);
        proof {
            assert(v@.take(i + 1) =~= v@.take(i as int).push(v@[i as int]));
        }
        i = i + 1;
    }
    proof {
        assert(v@.take(v@.len() as int) =~= v@);
        assert(out@ =~= old(out)@ + enc_bytes(v@));
    }
}

/// Append a length-prefixed list of 64-bit values.
fn write_u64s(out: &mut Vec<u8>, v: &Vec<u64>)
    ensures
        final(out)@ == old(out)@ + enc_u64s(v@),
{
    write_u64(out, v.len() as u64);
    let ghost mid = out@;
    let mut i: usize = 0;
    proof {
        assert(enc_u64s_body(v@.take(0)) =~= Seq::<u8>::empty());
    }
    while i < v.len()
        invariant
            i <= v@.len(),
            out@ == mid + enc_u64s_body(v@.take(i as int)),
        decreases v.len() - i,
    {
        write_u64(out, v[i]);
        proof {
            assert(v@.take(i + 1) =~= v@.take(i as int).push(v@[i as int]));
            lemma_enc_u64s_body_snoc(v@.take(i as int), v@[i as int]);
        }
        i = i + 1;
    }
    proof {
        assert(v@.take(v@.len() as int) =~= v@);
        assert(out@ =~= old(out)@ + enc_u64s(v@));
    }
}

/// Append one length-prefixed bucket.
fn write_bucket(out: &mut Vec<u8>, v: &Vec<(usize, u8)>)
    ensures
        final(out)@ == old(out)@ + enc_bucket(v@),
{
    write_u64(out, v.len() as u64);
    let ghost mid = out@;
    let mut i: usize = 0;
    proof {
        assert(enc_bucket_body(v@.take(0)) =~= Seq::<u8>::empty());
    }
    while i < v.len()
        invariant
            i <= v@.len(),
            out@ == mid + enc_bucket_body(v@.take(i as int)),
        decreases v.len() - i,
    {
        let (p, w) = v[i];
        write_u64(out, p as u64);
        out.push(w);
        proof {
            assert(v@.take(i + 1) =~= v@.take(i as int).push(v@[i as int]));
            lemma_enc_bucket_body_snoc(v@.take(i as int), v@[i as int]);
            assert(out@ =~= mid + enc_bucket_body(v@.take(i + 1)));
        }
        i = i + 1;
    }
    proof {
        assert(v@.take(v@.len() as int) =~= v@);
        assert(out@ =~= old(out)@ + enc_bucket(v@));
    }
}

/// Append the length-prefixed postings table.
fn write_buckets(out: &mut Vec<u8>, v: &Vec<Vec<(usize, u8)>>)
    ensures
        final(out)@ == old(out)@ + enc_buckets(crate::builder::bviews(v@)),
{
    let ghost bv = crate::builder::bviews(v@);
    write_u64(out, v.len() as u64);
    let ghost mid = out@;
    let mut i: usize = 0;
    proof {
        assert(enc_buckets_body(bv.take(0)) =~= Seq::<u8>::empty());
    }
    while i < v.len()
        invariant
            i <= v@.len(),
            bv == crate::builder::bviews(v@),
            bv.len() == v@.len(),
            out@ == mid + enc_buckets_body(bv.take(i as int)),
        decreases v.len() - i,
    {
        write_bucket(out, &v[i]);
        proof {
            assert(bv.take(i + 1) =~= bv.take(i as int).push(bv[i as int]));
            assert(bv[i as int] == v@[i as int]@);
            lemma_enc_buckets_body_snoc(bv.take(i as int), bv[i as int]);
        }
        i = i + 1;
    }
    proof {
        assert(bv.take(bv.len() as int) =~= bv);
        assert(out@ =~= old(out)@ + enc_buckets(bv));
    }
}


/// A decoded bucket ends within the buffer.
proof fn lemma_dec_pair_items_range(b: Seq<u8>, pos: int, n: nat)
    requires
        0 <= pos <= b.len(),
    ensures
        dec_pair_items(b, pos, n) matches Some(t) ==> pos <= t.1 <= b.len(),
    decreases n,
{
    if n > 0 {
        match dec_pair(b, pos) {
            None => {},
            Some((e, p)) => {
                lemma_dec_pair_items_range(b, p, (n - 1) as nat);
            },
        }
    }
}

proof fn lemma_dec_bucket_range(b: Seq<u8>, pos: int)
    ensures
        dec_bucket(b, pos) matches Some(t) ==> pos <= t.1 <= b.len(),
{
    match dec_u64(b, pos) {
        None => {},
        Some((n, p)) => {
            if n <= usize::MAX {
                lemma_dec_pair_items_range(b, p, n as nat);
            }
        },
    }
}

/// Read eight little-endian bytes.
fn read_u64(b: &Vec<u8>, pos: usize) -> (r: Option<(u64, usize)>)
    ensures
        r matches Some(t) ==> dec_u64(b@, pos as int) == Some((t.0, t.1 as int)),
        r is None ==> dec_u64(b@, pos as int) is None,
{
    if pos > b.len() || b.len() - pos < 8 {
        return None;
    }
    let v = (b[pos] as u64) | ((b[pos + 1] as u64) << 8u64) | ((b[pos + 2] as u64) << 16u64) | ((
    b[pos + 3] as u64) << 24u64) | ((b[pos + 4] as u64) << 32u64) | ((b[pos + 5] as u64) << 40u64)
        | ((b[pos + 6] as u64) << 48u64) | ((b[pos + 7] as u64) << 56u64);
    Some((v, pos + 8))
}

/// Read a length-prefixed byte string.
fn read_bytes(b: &Vec<u8>, pos: usize) -> (r: Option<(Vec<u8>, usize)>)
    ensures
        r matches Some(t) ==> dec_bytes(b@, pos as int) == Some((t.0@, t.1 as int)),
        r is None ==> dec_bytes(b@, pos as int) is None,
{
    let (n, p) = match read_u64(b, pos) {
        Some(t) => t,
        None => {
            return None;
        },
    };
    if n > usize::MAX as u64 || (n as usize) > b.len() - p {
        return None;
    }
    let nn = n as usize;
    let blen = b.len();
    let mut out: Vec<u8> = Vec::new();
    let mut i: usize = 0;
    proof {
        assert(out@ =~= b@.subrange(p as int, p as int));
    }
    while i < nn
        invariant
            i <= nn,
            p + nn <= blen,
            blen == b@.len(),
            out@ == b@.subrange(p as int, p + i),
        decreases nn - i,
    {
        out.push(b[p + i]);
        proof {
            assert(b@.subrange(p as int, p + i + 1) =~= b@.subrange(p as int, p + i).push(
                b@[p + i],
            ));
        }
        i = i + 1;
    }
    Some((out, p + nn))
}

/// Read a length-prefixed list of 64-bit values.
fn read_u64s(b: &Vec<u8>, pos: usize) -> (r: Option<(Vec<u64>, usize)>)
    ensures
        r matches Some(t) ==> dec_u64s(b@, pos as int) == Some((t.0@, t.1 as int)),
        r is None ==> dec_u64s(b@, pos as int) is None,
{
    let (n, p) = match read_u64(b, pos) {
        Some(t) => t,
        None => {
            return None;
        },
    };
    if n > usize::MAX as u64 {
        return None;
    }
    let nn = n as usize;
    let mut out: Vec<u64> = Vec::new();
    let mut cur: usize = p;
    let mut i: usize = 0;
    proof {
        let d = dec_u64_items(b@, p as int, nn as nat);
        if d is Some {
            assert(out@ + d.unwrap().0 =~= d.unwrap().0);
        }
    }
    while i < nn
        invariant
            i <= nn,
            cur <= b@.len(),
            out@.len() == i,
            dec_u64(b@, pos as int) == Some((n, p as int)),
            n <= usize::MAX,
            nn == n,
            dec_u64_items(b@, p as int, nn as nat) == (match dec_u64_items(
                b@,
                cur as int,
                (nn - i) as nat,
            ) {
                None => None::<(Seq<u64>, int)>,
                Some((s, q)) => Some((out@ + s, q)),
            }),
        decreases nn - i,
    {
        let (x, q) = match read_u64(b, cur) {
            Some(t) => t,
            None => {
                proof {
                    assert(dec_u64_items(b@, cur as int, (nn - i) as nat) is None);
                }
                return None;
            },
        };
        proof {
            let rest = dec_u64_items(b@, q as int, (nn - i - 1) as nat);
            if rest is Some {
                assert(out@.push(x) + rest.unwrap().0 =~= out@ + (seq![x] + rest.unwrap().0));
            }
        }
        out.push(x);
        cur = q;
        i = i + 1;
    }
    proof {
        assert(dec_u64_items(b@, cur as int, 0) == Some((Seq::<u64>::empty(), cur as int)));
        assert(out@ + Seq::<u64>::empty() =~= out@);
    }
    Some((out, cur))
}

/// Read one length-prefixed bucket.
fn read_bucket(b: &Vec<u8>, pos: usize) -> (r: Option<(Vec<(usize, u8)>, usize)>)
    ensures
        r matches Some(t) ==> dec_bucket(b@, pos as int) == Some((t.0@, t.1 as int)),
        r is None ==> dec_bucket(b@, pos as int) is None,
{
    let (n, p) = match read_u64(b, pos) {
        Some(t) => t,
        None => {
            return None;
        },
    };
    if n > usize::MAX as u64 {
        return None;
    }
    let nn = n as usize;
    let mut out: Vec<(usize, u8)> = Vec::new();
    let mut cur: usize = p;
    let mut i: usize = 0;
    proof {
        let d = dec_pair_items(b@, p as int, nn as nat);
        if d is Some {
            assert(out@ + d.unwrap().0 =~= d.unwrap().0);
        }
    }
    while i < nn
        invariant
            i <= nn,
            cur <= b@.len(),
            out@.len() == i,
            dec_u64(b@, pos as int) == Some((n, p as int)),
            n <= usize::MAX,
            nn == n,
            dec_pair_items(b@, p as int, nn as nat) == (match dec_pair_items(
                b@,
                cur as int,
                (nn - i) as nat,
            ) {
                None => None::<(Seq<(usize, u8)>, int)>,
                Some((s, q)) => Some((out@ + s, q)),
            }),
        decreases nn - i,
    {
        let (x, q) = match read_u64(b, cur) {
            Some(t) => t,
            None => {
                proof {
                    assert(dec_pair(b@, cur as int) is None);
                    assert(dec_pair_items(b@, cur as int, (nn - i) as nat) is None);
                }
                return None;
            },
        };
        if x > usize::MAX as u64 || q >= b.len() {
            proof {
                assert(dec_pair(b@, cur as int) is None);
                assert(dec_pair_items(b@, cur as int, (nn - i) as nat) is None);
            }
            return None;
        }
        let e = (x as usize, b[q]);
        proof {
            let rest = dec_pair_items(b@, q + 1, (nn - i - 1) as nat);
            if rest is Some {
                assert(out@.push(e) + rest.unwrap().0 =~= out@ + (seq![e] + rest.unwrap().0));
            }
        }
        out.push(e);
        cur = q + 1;
        i = i + 1;
    }
    proof {
        assert(dec_pair_items(b@, cur as int, 0) == Some((Seq::<(usize, u8)>::empty(), cur as int)));
        assert(out@ + Seq::<(usize, u8)>::empty() =~= out@);
    }
    Some((out, cur))
}

/// Read the length-prefixed postings table.
fn read_buckets(b: &Vec<u8>, pos: usize) -> (r: Option<(Vec<Vec<(usize, u8)>>, usize)>)
    ensures
        r matches Some(t) ==> dec_buckets(b@, pos as int) == Some((
            crate::builder::bviews(t.0@),
            t.1 as int,
        )),
        r is None ==> dec_buckets(b@, pos as int) is None,
{
    let (n, p) = match read_u64(b, pos) {
        Some(t) => t,
        None => {
            return None;
        },
    };
    if n > usize::MAX as u64 {
        return None;
    }
    let nn = n as usize;
    let mut out: Vec<Vec<(usize, u8)>> = Vec::new();
    let mut cur: usize = p;
    let mut i: usize = 0;
    proof {
        assert(crate::builder::bviews(out@) =~= Seq::<Seq<(usize, u8)>>::empty());
        let d = dec_bucket_items(b@, p as int, nn as nat);
        if d is Some {
            assert(crate::builder::bviews(out@) + d.unwrap().0 =~= d.unwrap().0);
        }
    }
    while i < nn
        invariant
            i <= nn,
            cur <= b@.len(),
            out@.len() == i,
            dec_u64(b@, pos as int) == Some((n, p as int)),
            n <= usize::MAX,
            nn == n,
            dec_bucket_items(b@, p as int, nn as nat) == (match dec_bucket_items(
                b@,
                cur as int,
                (nn - i) as nat,
            ) {
                None => None::<(Seq<Seq<(usize, u8)>>, int)>,
                Some((s, q)) => Some((crate::builder::bviews(out@) + s, q)),
            }),
        decreases nn - i,
    {
        let (v, q) = match read_bucket(b, cur) {
            Some(t) => t,
            None => {
                proof {
                    assert(dec_bucket_items(b@, cur as int, (nn - i) as nat) is None);
                }
                return None;
            },
        };
        proof {
            lemma_dec_bucket_range(b@, cur as int);
            let rest = dec_bucket_items(b@, q as int, (nn - i - 1) as nat);
            if rest is Some {
                assert(crate::builder::bviews(out@.push(v)) =~= crate::builder::bviews(out@).push(
                    v@,
                ));
                assert(crate::builder::bviews(out@).push(v@) + rest.unwrap().0
                    =~= crate::builder::bviews(out@) + (seq![v@] + rest.unwrap().0));
            }
        }
        out.push(v);
        cur = q;
        i = i + 1;
    }
    proof {
        assert(dec_bucket_items(b@, cur as int, 0) == Some((
            Seq::<Seq<(usize, u8)>>::empty(),
            cur as int,
        )));
        assert(crate::builder::bviews(out@) + Seq::<Seq<(usize, u8)>>::empty()
            =~= crate::builder::bviews(out@));
    }
    Some((out, cur))
}

impl Index {
    /// Serialize the index: its dictionary bytes, the string store's
    /// three parts, and the postings table, each length-prefixed.
    pub fn to_bytes(&self) -> (r: Result<Vec<u8>, LoadError>)
        ensures
            r matches Ok(b) ==> b@ == enc_index(
                self.parts().0,
                self.parts().1.0,
                self.parts().1.1,
                self.parts().1.2,
                self.parts().2,
            ),
            r is Ok,
    {
        let mut out: Vec<u8> = Vec::new();
        let (fst, store, buckets) = self.codec_parts();
        let (table, offsets, data) = store.as_parts();
        write_bytes(&mut out, fst);
        write_bytes(&mut out, table);
        write_u64s(&mut out, offsets);
        write_bytes(&mut out, data);
        write_buckets(&mut out, buckets);
        proof {
            assert(out@ =~= enc_index(
                self.parts().0,
                self.parts().1.0,
                self.parts().1.1,
                self.parts().1.2,
                self.parts().2,
            ));
        }
        Ok(out)
    }

    /// Load an index from bytes: exactly the encodings of `to_bytes`
    /// are accepted, and decoding reproduces the encoded parts.
    pub fn from_bytes(bytes: &[u8]) -> (r: Result<Index, LoadError>)
        ensures
            r matches Ok(idx) ==> dec_index(bytes@) == Some(
                (
                    idx.parts().0,
                    idx.parts().1.0,
                    idx.parts().1.1,
                    idx.parts().1.2,
                    idx.parts().2,
                ),
            ),
            r is Err ==> dec_index(bytes@) is None,
    {
        let b: Vec<u8> = vstd::slice::slice_to_vec(bytes);
        let (fst, p1) = match read_bytes(&b, 0) {
            Some(t) => t,
            None => {
                return Err(LoadError::Malformed);
            },
        };
        let (table, p2) = match read_bytes(&b, p1) {
            Some(t) => t,
            None => {
                return Err(LoadError::Malformed);
            },
        };
        let (offsets, p3) = match read_u64s(&b, p2) {
            Some(t) => t,
            None => {
                return Err(LoadError::Malformed);
            },
        };
        let (data, p4) = match read_bytes(&b, p3) {
            Some(t) => t,
            None => {
                return Err(LoadError::Malformed);
            },
        };
        let (buckets, p5) = match read_buckets(&b, p4) {
            Some(t) => t,
            None => {
                return Err(LoadError::Malformed);
            },
        };
        if p5 != b.len() {
            return Err(LoadError::Malformed);
        }
        let store = FsstStrVec::from_parts(table, offsets, data);
        let idx = Index::from_parts(fst, store, buckets);
        Ok(idx)
    }
}

} // verus!
