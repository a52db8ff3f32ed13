//! The keyword dictionary: an ordered map from keyword to dense id,
//! kept as fst map bytes, queried with a union of a one-edit fuzzy
//! automaton and a prefix automaton per query word.

use vstd::prelude::*;
use vstd::utf8::{decode_utf8, encode_scalar, encode_utf8, valid_utf8};
use crate::text::lex_lt;

verus! {

/// The entries a builder holds so far, in insertion order, keys as the
/// character sequences handed to `insert`.
pub uninterp spec fn builder_entries(b: fst::MapBuilder<Vec<u8>>) -> Seq<(Seq<char>, u64)>;

/// The (key, id) entries encoded by fst map bytes, in ascending key
/// order. An fst map's keys are byte strings, so the keys here are
/// byte sequences; unspecified for bytes that are not a valid fst map.
pub uninterp spec fn fst_entries(bytes: Seq<u8>) -> Seq<(Seq<u8>, u64)>;

/// Whether the bytes parse as an fst map, as `fst::Map::new` decides
/// it: a pure function of the bytes.
pub uninterp spec fn fst_map_ok(bytes: Seq<u8>) -> bool;

/// Whether the one-edit fuzzy automaton for a word can be built within
/// the automaton's state limit, as `Levenshtein::new` with distance one
/// decides it: a pure function of the word.
pub uninterp spec fn lev_ok(word: Seq<char>) -> bool;

#[verifier::external_type_specification]
#[verifier::external_body]
#[verifier::reject_recursive_types(W)]
pub struct ExMapBuilder<W>(fst::MapBuilder<W>);

/// Relies on `fst::MapBuilder::memory`: a builder writing to a fresh
/// in-memory buffer, holding no entries yet.
#[verifier::external_body]
pub(crate) fn fst_builder_new() -> (r: fst::MapBuilder<Vec<u8>>)
    ensures
        builder_entries(r) == Seq::<(Seq<char>, u64)>::empty(),
{
    fst::MapBuilder::memory()
}

/// Relies on `fst::MapBuilder::insert`: appends one entry. Insertion
/// fails only for a key not strictly greater, in byte order, than every
/// key already inserted; UTF-8 encoding preserves the order of
/// character sequences, so a key after all present keys in character
/// order is accepted. An in-memory writer itself never fails.
#[verifier::external_body]
pub(crate) fn fst_builder_insert(b: &mut fst::MapBuilder<Vec<u8>>, key: &String, val: u64)
    requires
        forall|i: int|
            0 <= i < builder_entries(*old(b)).len() ==> lex_lt(
                (#[trigger] builder_entries(*old(b))[i]).0,
                key@,
            ),
    ensures
        builder_entries(*final(b)) == builder_entries(*old(b)).push((key@, val)),
{
    b.insert(key.as_str(), val).expect("keys are inserted in strictly ascending order");
}

/// Relies on `fst::MapBuilder::into_inner`: finishes the map and hands
/// back the underlying buffer. Flushing an in-memory buffer cannot
/// fail; the bytes encode exactly the inserted entries, each key as the
/// UTF-8 bytes of the string handed to `insert`; and the builder's
/// output is a well-formed fst map, so reading it back succeeds.
#[verifier::external_body]
pub(crate) fn fst_builder_finish(b: fst::MapBuilder<Vec<u8>>) -> (r: Vec<u8>)
    ensures
        fst_entries(r@) == builder_entries(b).map_values(
            |e: (Seq<char>, u64)| (encode_utf8(e.0), e.1),
        ),
        fst_map_ok(r@),
{
    b.into_inner().expect("an in-memory writer does not fail")
}

/// Whether `p` is a prefix of `s`.
pub open spec fn bytes_prefix(p: Seq<u8>, s: Seq<u8>) -> bool {
    p.len() <= s.len() && s.subrange(0, p.len() as int) == p
}

/// Whether `b` is within Levenshtein edit distance one of `a`: equal,
/// one character substituted, or one inserted or deleted.
pub open spec fn within_one_edit(a: Seq<char>, b: Seq<char>) -> bool {
    ||| a == b
    ||| (a.len() == b.len() && exists|i: int| 0 <= i < a.len() && a.update(i, b[i]) == b)
    ||| (a.len() + 1 == b.len() && exists|i: int| 0 <= i < b.len() && b.remove(i) == a)
    ||| (b.len() + 1 == a.len() && exists|i: int| 0 <= i < a.len() && a.remove(i) == b)
}

/// Whether a dictionary key matches a query word. The fuzzy automaton
/// follows only valid UTF-8 transitions, so it accepts exactly the
/// keys that decode to within one edit of the word; the prefix
/// automaton compares raw bytes against the word's UTF-8 encoding.
pub open spec fn key_matches(word: Seq<char>, key: Seq<u8>) -> bool {
    ||| (valid_utf8(key) && within_one_edit(word, decode_utf8(key)))
    ||| bytes_prefix(encode_utf8(word), key)
}

/// Whether `p` is a prefix of `s`, character by character.
pub open spec fn chars_prefix(p: Seq<char>, s: Seq<char>) -> bool {
    p.len() <= s.len() && s.subrange(0, p.len() as int) == p
}

/// UTF-8 encoding distributes over concatenation.
proof fn lemma_encode_utf8_concat(a: Seq<char>, b: Seq<char>)
    ensures
        encode_utf8(a + b) == encode_utf8(a) + encode_utf8(b),
    decreases a.len(),
{
    if a.len() == 0 {
        assert(a + b =~= b);
        assert(encode_utf8(a) + encode_utf8(b) =~= encode_utf8(b));
    } else {
        assert((a + b).drop_first() =~= a.drop_first() + b);
        assert((a + b)[0] == a[0]);
        lemma_encode_utf8_concat(a.drop_first(), b);
        assert(encode_scalar(a[0] as u32) + (encode_utf8(a.drop_first()) + encode_utf8(b)) =~= (
        encode_scalar(a[0] as u32) + encode_utf8(a.drop_first())) + encode_utf8(b));
    }
}

/// The character-level reading of matching for keys the library itself
/// builds: a word within one edit of a key's characters, or a
/// character prefix of them, matches the key's UTF-8 bytes.
pub proof fn lemma_key_matches_of_chars(word: Seq<char>, key: Seq<char>)
    requires
        within_one_edit(word, key) || chars_prefix(word, key),
    ensures
        key_matches(word, encode_utf8(key)),
{
    broadcast use vstd::utf8::encode_utf8_valid_utf8, vstd::utf8::encode_utf8_decode_utf8;

    if within_one_edit(word, key) {
        assert(valid_utf8(encode_utf8(key)));
        assert(decode_utf8(encode_utf8(key)) == key);
    } else {
        let rest = key.skip(word.len() as int);
        assert(key =~= word + rest);
        lemma_encode_utf8_concat(word, rest);
        assert(encode_utf8(key) == encode_utf8(word) + encode_utf8(rest));
        assert(encode_utf8(key).subrange(0, encode_utf8(word).len() as int) =~= encode_utf8(word));
    }
}

/// The ids of the entries whose keys match a word, in entry order.
pub open spec fn matched_values(entries: Seq<(Seq<u8>, u64)>, word: Seq<char>) -> Seq<u64>
    decreases entries.len(),
{
    if entries.len() == 0 {
        Seq::empty()
    } else {
        let front = matched_values(entries.drop_last(), word);
        if key_matches(word, entries.last().0) {
            front.push(entries.last().1)
        } else {
            front
        }
    }
}

/// Every matched id is the id of some entry.
pub proof fn lemma_matched_values_member(entries: Seq<(Seq<u8>, u64)>, word: Seq<char>)
    ensures
        forall|m: int|
            0 <= m < matched_values(entries, word).len() ==> exists|j: int|
                0 <= j < entries.len() && (#[trigger] matched_values(entries, word)[m])
                    == entries[j].1,
    decreases entries.len(),
{
    if entries.len() > 0 {
        lemma_matched_values_member(entries.drop_last(), word);
        let front = matched_values(entries.drop_last(), word);
        assert forall|m: int| 0 <= m < matched_values(entries, word).len() implies exists|j: int|
            0 <= j < entries.len() && (#[trigger] matched_values(entries, word)[m])
                == entries[j].1 by {
            if m < front.len() {
                let j = choose|j: int|
                    0 <= j < entries.drop_last().len() && front[m] == entries.drop_last()[j].1;
                assert(entries[j].1 == front[m]);
            } else {
                assert(matched_values(entries, word)[m] == entries[entries.len() - 1].1);
            }
        }
    }
}

/// Relies on fst's `Map::new`, the `Levenshtein` (distance one, over
/// Unicode characters, following only valid UTF-8 transitions) and
/// `Str::starts_with` (raw byte prefix) automata, and the union stream
/// over one map: the union visits each key of the map that either
/// automaton accepts exactly once, in ascending key order, with its
/// value. Reading the map succeeds or fails on the bytes alone, and
/// building the fuzzy automaton succeeds or fails on the word alone;
/// nothing is returned exactly when one of them fails.
#[verifier::external_body]
pub(crate) fn fst_match_word(fst_bytes: &Vec<u8>, word: &String) -> (r: Option<Vec<u64>>)
    ensures
        r matches Some(ids) ==> ids@ == matched_values(fst_entries(fst_bytes@), word@),
        (r is Some) == (fst_map_ok(fst_bytes@) && lev_ok(word@)),
{
    let map = match fst::Map::new(fst_bytes.as_slice()) {
        Ok(m) => m,
        Err(_) => return None,
    };
    let lev = match fst::automaton::Levenshtein::new(word.as_str(), 1) {
        Ok(l) => l,
        Err(_) => return None,
    };
    let prefix = fst::automaton::Automaton::starts_with(fst::automaton::Str::new(word.as_str()));
    let mut op = fst::map::OpBuilder::new().add(map.search(lev)).add(map.search(prefix)).union();
    let mut out: Vec<u64> = Vec::new();
    while let Some((_key, vals)) = fst::Streamer::next(&mut op) {
        out.push(vals[0].value);
    }
    Some(out)
}

/// Build the dictionary bytes over keys in strictly ascending order,
/// each mapped to its position.
pub(crate) fn fst_build(keys: &Vec<String>) -> (r: Vec<u8>)
    requires
        forall|i: int, j: int|
            0 <= i < j < keys@.len() ==> lex_lt(
                #[trigger] keys.deep_view()[i],
                #[trigger] keys.deep_view()[j],
            ),
        keys@.len() <= u64::MAX,
    ensures
        fst_entries(r@) == Seq::new(
            keys@.len() as nat,
            |i: int| (encode_utf8(keys.deep_view()[i]), i as u64),
        ),
        fst_map_ok(r@),
{
    let mut b = fst_builder_new();
    let mut i: usize = 0;
    proof {
        assert(builder_entries(b) =~= Seq::new(0, |j: int| (keys.deep_view()[j], j as u64)));
    }
    while i < keys.len()
        invariant
            i <= keys@.len(),
            keys@.len() <= u64::MAX,
            forall|a: int, c: int|
                0 <= a < c < keys@.len() ==> lex_lt(
                    #[trigger] keys.deep_view()[a],
                    #[trigger] keys.deep_view()[c],
                ),
            builder_entries(b) == Seq::new(i as nat, |j: int| (keys.deep_view()[j], j as u64)),
        decreases keys.len() - i,
    {
        proof {
            assert forall|a: int| 0 <= a < builder_entries(b).len() implies lex_lt(
                (#[trigger] builder_entries(b)[a]).0,
                keys@[i as int]@,
            ) by {
                assert(builder_entries(b)[a].0 == keys.deep_view()[a]);
                assert(keys.deep_view()[i as int] == keys@[i as int]@);
            }
        }
        fst_builder_insert(&mut b, &keys[i], i as u64);
        proof {
            assert(builder_entries(b) =~= Seq::new(
                (i + 1) as nat,
                |j: int| (keys.deep_view()[j], j as u64),
            ));
        }
        i = i + 1;
    }
    proof {
        assert(builder_entries(b) =~= Seq::new(
            keys@.len() as nat,
            |j: int| (keys.deep_view()[j], j as u64),
        ));
    }
    let r = fst_builder_finish(b);
    proof {
        assert(fst_entries(r@) =~= Seq::new(
            keys@.len() as nat,
            |i: int| (encode_utf8(keys.deep_view()[i]), i as u64),
        ));
    }
    r
}

} // verus!
