//! The compressed string store: item identifiers kept as one
//! fsst-compressed buffer with per-item offsets, decoded one entry at a
//! time.

use vstd::prelude::*;
use vstd::utf8::{decode_utf8, encode_utf8, valid_utf8};

verus! {

/// What fsst decompression yields for one compressed span under a given
/// symbol table: the decoded bytes, or nothing when the decoder reports
/// the span or table as corrupt. A pure function of the two buffers.
pub uninterp spec fn fsst_entry(table: Seq<u8>, codes: Seq<u8>) -> Option<Seq<u8>>;

/// An error while building an index. The build contracts prove that it
/// is never produced; the type remains as the propagation path the
/// host-facing interface expects.
#[derive(Debug, Clone, PartialEq, Eq)]
pub enum BuildError {
    /// The compressor could not encode the identifier buffer.
    Compress,
}

/// The byte length of an fsst symbol table blob: an 8-byte header, 256
/// symbols of 8 bytes, and 256 length bytes.
pub const FSST_TABLE_BYTES: usize = 2312;

/// Relies on `fsst::compress`: trains a symbol table over the input
/// buffer and compresses each span `[in_off[i], in_off[i+1])` in place;
/// a wrong table-buffer size or undersized output buffers make it
/// return an error. On success the output offsets delimit the
/// compressed spans, and decompressing any output span under the
/// written table (see `fsst_entry`) yields the input span again — the
/// crate's round-trip guarantee for `decompress` of `compress` output.
/// The output offsets start at zero, are non-decreasing and end at the
/// output buffer's length. Compressed output never exceeds twice the
/// input, and the output buffer is sized for that plus one speculative
/// escape word. Under these preconditions no error path of the
/// encoder is reachable — the buffer-size checks pass, offset values
/// fit the offset type, and training always keeps at least one symbol
/// — so the call succeeds.
#[verifier::external_body]
fn fsst_compress_call(
    table: &mut Vec<u8>,
    in_buf: &Vec<u8>,
    in_off: &Vec<i64>,
    out_buf: &mut Vec<u8>,
    out_off: &mut Vec<i64>,
) -> (r: bool)
    requires
        in_off@.len() >= 1,
        in_off@[0] == 0,
        forall|i: int| 0 <= i < in_off@.len() - 1 ==> #[trigger] in_off@[i] <= in_off@[i + 1],
        in_off@.last() == in_buf@.len(),
        in_buf@.len() * 2 + 8 <= old(out_buf)@.len(),
        old(out_off)@.len() >= in_off@.len(),
    ensures
        r,
        r ==> {
            &&& final(out_off)@.len() == in_off@.len()
            &&& final(out_off)@[0] == 0
            &&& forall|i: int|
                0 <= i < final(out_off)@.len() - 1 ==> #[trigger] final(out_off)@[i]
                    <= final(out_off)@[i + 1]
            &&& final(out_off)@.last() == final(out_buf)@.len()
            &&& final(out_buf)@.len() <= old(out_buf)@.len()
            &&& forall|i: int|
                0 <= i < in_off@.len() - 1 ==> #[trigger] fsst_entry(
                    final(table)@,
                    final(out_buf)@.subrange(
                        final(out_off)@[i] as int,
                        final(out_off)@[i + 1] as int,
                    ),
                ) == Some(in_buf@.subrange(in_off@[i] as int, in_off@[i + 1] as int))
        },
{
    fsst::fsst::compress(table.as_mut_slice(), in_buf.as_slice(), in_off.as_slice(), out_buf, out_off)
        .is_ok()
}

/// Relies on `fsst::decompress`: decodes one compressed span under a
/// symbol table. It validates the table, the offsets and the escape
/// structure, reporting corrupt input as an error instead of panicking,
/// and it requires the output buffer to hold eight bytes per code byte.
/// On success the output buffer holds exactly the decoded bytes of the
/// span.
#[verifier::external_body]
fn fsst_decompress_call(
    table: &Vec<u8>,
    codes: &Vec<u8>,
    out_buf: &mut Vec<u8>,
    out_off: &mut Vec<i64>,
) -> (r: bool)
    requires
        codes@.len() * 8 <= old(out_buf)@.len(),
        old(out_off)@.len() >= 2,
    ensures
        r ==> fsst_entry(table@, codes@) == Some(final(out_buf)@),
        !r ==> fsst_entry(table@, codes@) is None,
{
    let in_off: [i64; 2] = [0, codes.len() as i64];
    fsst::fsst::decompress(table.as_slice(), codes.as_slice(), &in_off, out_buf, out_off).is_ok()
}

/// Relies on `String::from_utf8`: succeeds exactly on valid UTF-8 input
/// and returns the string those bytes encode.
#[verifier::external_body]
fn string_from_utf8(b: Vec<u8>) -> (r: Option<String>)
    ensures
        r matches Some(s) ==> encode_utf8(s@) == b@,
        r is None ==> !valid_utf8(b@),
{
    String::from_utf8(b).ok()
}

/// A compressed vector of UTF-8 strings with per-entry random access.
#[derive(Debug, Clone)]
pub struct FsstStrVec {
    /// The trained symbol table blob.
    table: Vec<u8>,
    /// One boundary per entry plus a final one: entry `i`'s compressed
    /// bytes are `data[offsets[i]..offsets[i + 1]]`.
    offsets: Vec<u64>,
    /// All entries' compressed bytes, concatenated in store order.
    data: Vec<u8>,
}

impl FsstStrVec {
    /// The number of stored strings.
    pub closed spec fn spec_len(&self) -> nat {
        if self.offsets@.len() == 0 {
            0
        } else {
            (self.offsets@.len() - 1) as nat
        }
    }

    /// The compressed bytes of entry `i`.
    pub closed spec fn entry_codes(&self, i: int) -> Seq<u8> {
        self.data@.subrange(self.offsets@[i] as int, self.offsets@[i + 1] as int)
    }

    /// The text entry `i` decodes to, when its span decompresses and is
    /// valid UTF-8.
    pub closed spec fn entry_text(&self, i: int) -> Option<Seq<char>> {
        match fsst_entry(self.table@, self.entry_codes(i)) {
            Some(b) => if valid_utf8(b) {
                Some(decode_utf8(b))
            } else {
                None
            },
            None => None,
        }
    }

    /// A well-formed store: ordered in-range offsets, a buffer small
    /// enough that every span can be decoded into addressable memory,
    /// and every entry decodable.
    pub closed spec fn wf(&self) -> bool {
        &&& self.offsets@.len() >= 1
        &&& self.offsets@[0] == 0
        &&& forall|i: int|
            0 <= i < self.offsets@.len() - 1 ==> #[trigger] self.offsets@[i] <= self.offsets@[i
                + 1]
        &&& forall|i: int|
            0 <= i < self.offsets@.len() ==> #[trigger] self.offsets@[i] <= self.data@.len()
        &&& self.offsets@.last() == self.data@.len()
        &&& self.data@.len() * 8 <= usize::MAX
        &&& forall|i: int| 0 <= i < self.spec_len() ==> self.entry_text(i) is Some
    }

    /// The stored strings.
    pub closed spec fn model(&self) -> Seq<Seq<char>> {
        Seq::new(self.spec_len(), |i: int| self.entry_text(i).unwrap())
    }

    /// The parts of the store, for serialization.
    pub closed spec fn parts(&self) -> (Seq<u8>, Seq<u64>, Seq<u8>) {
        (self.table@, self.offsets@, self.data@)
    }

    /// Reassemble a store from its parts.
    pub(crate) fn from_parts(table: Vec<u8>, offsets: Vec<u64>, data: Vec<u8>) -> (r: FsstStrVec)
        ensures
            r.parts() == (table@, offsets@, data@),
    {
        FsstStrVec { table, offsets, data }
    }

    /// Hand out the parts for serialization.
    pub(crate) fn as_parts(&self) -> (r: (&Vec<u8>, &Vec<u64>, &Vec<u8>))
        ensures
            (r.0@, r.1@, r.2@) == self.parts(),
    {
        (&self.table, &self.offsets, &self.data)
    }

    /// Two stores with equal parts have equal contents.
    pub proof fn lemma_parts_determine(&self, other: &FsstStrVec)
        requires
            self.parts() == other.parts(),
        ensures
            self.wf() == other.wf(),
            self.model() == other.model(),
            self.spec_len() == other.spec_len(),
    {
        assert forall|i: int| 0 <= i < self.spec_len() implies self.entry_text(i)
            == other.entry_text(i) by {
            assert(self.entry_codes(i) == other.entry_codes(i));
        }
        assert(self.model() =~= other.model());
        if self.wf() {
            assert(other.wf());
        }
        if other.wf() {
            assert(self.wf());
        }
    }

    /// The number of stored strings.
    pub fn len(&self) -> (r: usize)
        ensures
            r == self.spec_len(),
            r == self.model().len(),
    {
        if self.offsets.len() == 0 {
            0
        } else {
            self.offsets.len() - 1
        }
    }

    /// Build a store over the given strings, in order: concatenate
    /// their UTF-8 bytes, train a symbol table, and compress every
    /// entry with it. The byte total is bounded so that every buffer
    /// the encoder and decoder need stays addressable. The symbol
    /// table is trained over a random sample for large inputs, so the
    /// compressed bytes need not repeat between builds; the stored
    /// contents — and so every answer read back out — are the same
    /// either way.
    #[verifier::rlimit(100)]
    pub fn from_strings(strings: &Vec<String>) -> (r: Result<FsstStrVec, BuildError>)
        requires
            total_bytes(strings.deep_view()) * 16 + 64 <= usize::MAX,
        ensures
            r is Ok,
            r matches Ok(s) ==> s.wf() && s.model() == strings.deep_view(),
    {
        broadcast use vstd::utf8::encode_utf8_valid_utf8, vstd::utf8::encode_utf8_decode_utf8;

        let (in_buf, in_off) = concat_utf8(strings);
        let mut table: Vec<u8> = vec![0u8; FSST_TABLE_BYTES];
        let mut out_buf: Vec<u8> = vec![0u8; in_buf.len() * 2 + 8];
        let mut out_off: Vec<i64> = vec![0i64; in_off.len()];
        let ok = fsst_compress_call(&mut table, &in_buf, &in_off, &mut out_buf, &mut out_off);
        if !ok {
            return Err(BuildError::Compress);
        }
        // carry the offsets over as unsigned values
        let ghost coff = out_off@;
        let ghost cdata = out_buf@;
        let mut offsets: Vec<u64> = Vec::new();
        let mut j: usize = 0;
        while j < out_off.len()
            invariant
                j <= out_off@.len(),
                out_off@ == coff,
                out_buf@ == cdata,
                offsets@.len() == j,
                coff.len() >= 1,
                coff[0] == 0,
                forall|a: int| 0 <= a < coff.len() - 1 ==> #[trigger] coff[a] <= coff[a + 1],
                coff.last() == cdata.len(),
                forall|a: int| 0 <= a < j ==> #[trigger] offsets@[a] == coff[a],
            decreases out_off.len() - j,
        {
            let v = out_off[j];
            proof {
                lemma_offsets_nonneg(coff, j as int);
            }
            offsets.push(v as u64);
            j = j + 1;
        }
        let store = FsstStrVec { table, offsets, data: out_buf };
        proof {
            assert(store.offsets@.len() == in_off@.len());
            assert(store.offsets@.last() == coff.last());
            assert forall|a: int|
                0 <= a < store.offsets@.len() - 1 implies #[trigger] store.offsets@[a]
                <= store.offsets@[a + 1] by {
                assert(coff[a] <= coff[a + 1]);
            }
            assert forall|a: int| 0 <= a < store.offsets@.len() implies #[trigger] store.offsets@[a]
                <= store.data@.len() by {
                lemma_offsets_below_last(coff, a);
            }
            assert forall|a: int| 0 <= a < store.spec_len() implies store.entry_text(a)
                is Some by {
                assert(store.entry_codes(a) =~= cdata.subrange(coff[a] as int, coff[a + 1] as int));
                assert(fsst_entry(store.table@, store.entry_codes(a)) == Some(
                    in_buf@.subrange(in_off@[a] as int, in_off@[a + 1] as int),
                ));
                assert(in_buf@.subrange(in_off@[a] as int, in_off@[a + 1] as int) == encode_utf8(
                    strings.deep_view()[a],
                ));
            }
            assert(store.data@.len() * 8 <= usize::MAX);
            assert(store.wf());
            assert forall|a: int| 0 <= a < store.spec_len() implies store.model()[a]
                == strings.deep_view()[a] by {
                assert(fsst_entry(store.table@, store.entry_codes(a)) == Some(
                    encode_utf8(strings.deep_view()[a]),
                ));
            }
            assert(store.model() =~= strings.deep_view());
        }
        Ok(store)
    }

    /// Decode entry `i`: its exact compressed span under the store's
    /// table, nothing else is touched. An out-of-range index gives
    /// nothing; on a well-formed store every index below `len` decodes
    /// to the stored string.
    pub fn get(&self, i: usize) -> (r: Option<String>)
        ensures
            r matches Some(s) ==> i < self.model().len() && s@ == self.model()[i as int],
            self.wf() && i < self.model().len() ==> r is Some,
    {
        broadcast use vstd::utf8::encode_utf8_valid_utf8, vstd::utf8::encode_utf8_decode_utf8;

        if self.offsets.len() == 0 || i >= self.offsets.len() - 1 {
            return None;
        }
        let lo = self.offsets[i];
        let hi = self.offsets[i + 1];
        if lo > hi || hi > self.data.len() as u64 {
            return None;
        }
        let lou = lo as usize;
        let hiu = hi as usize;
        let mut codes: Vec<u8> = Vec::new();
        let mut j: usize = lou;
        proof {
            assert(codes@ =~= self.data@.subrange(lou as int, lou as int));
        }
        while j < hiu
            invariant
                lou <= j <= hiu <= self.data@.len(),
                codes@ == self.data@.subrange(lou as int, j as int),
            decreases hiu - j,
        {
            codes.push(self.data[j]);
            proof {
                assert(self.data@.subrange(lou as int, j + 1) =~= self.data@.subrange(
                    lou as int,
                    j as int,
                ).push(self.data@[j as int]));
            }
            j = j + 1;
        }
        proof {
            assert(codes@ == self.entry_codes(i as int));
        }
        if codes.len() > usize::MAX / 8 {
            // the decoder would need more output space than memory can
            // address; only a malformed store reaches this
            proof {
                if self.wf() {
                    assert(self.offsets@[i as int] <= self.data@.len());
                    assert(codes@.len() <= self.data@.len());
                    assert(self.data@.len() * 8 <= usize::MAX);
                    vstd::arithmetic::div_mod::lemma_fundamental_div_mod(
                        usize::MAX as int,
                        8,
                    );
                    assert(codes@.len() <= usize::MAX / 8);
                }
            }
            return None;
        }
        let mut out_buf: Vec<u8> = vec![0u8; codes.len() * 8];
        let mut out_off: Vec<i64> = vec![0i64; 2];
        let ok = fsst_decompress_call(&self.table, &codes, &mut out_buf, &mut out_off);
        proof {
            if self.wf() && i < self.spec_len() {
                assert(self.entry_text(i as int) is Some);
            }
        }
        if !ok {
            return None;
        }
        match string_from_utf8(out_buf) {
            Some(s) => {
                proof {
                    if i < self.spec_len() {
                        assert(self.entry_text(i as int) == Some(s@));
                        assert(self.model()[i as int] == s@);
                    }
                }
                Some(s)
            },
            None => None,
        }
    }
}

/// Concatenate the UTF-8 bytes of all strings, recording each one's
/// boundaries.
fn concat_utf8(strings: &Vec<String>) -> (r: (Vec<u8>, Vec<i64>))
    requires
        total_bytes(strings.deep_view()) * 16 + 64 <= usize::MAX,
    ensures
        r.1@.len() == strings@.len() + 1,
        r.1@[0] == 0,
        forall|j: int| 0 <= j < r.1@.len() - 1 ==> #[trigger] r.1@[j] <= r.1@[j + 1],
        forall|j: int| 0 <= j < r.1@.len() ==> #[trigger] r.1@[j] <= r.0@.len(),
        r.1@.last() == r.0@.len(),
        r.0@.len() == total_bytes(strings.deep_view()),
        forall|j: int|
            0 <= j < strings@.len() ==> r.0@.subrange(#[trigger] r.1@[j] as int, r.1@[j + 1] as int)
                == encode_utf8(strings.deep_view()[j]),
{
    let ghost dv = strings.deep_view();
    let mut in_buf: Vec<u8> = Vec::new();
    let mut in_off: Vec<i64> = Vec::new();
    in_off.push(0);
    let mut i: usize = 0;
    proof {
        assert(dv.take(0) =~= Seq::<Seq<char>>::empty());
    }
    while i < strings.len()
        invariant
            i <= strings.len(),
            dv == strings.deep_view(),
            in_off@.len() == i + 1,
            in_buf@ == concat_bytes(dv.take(i as int)),
            in_buf@.len() == total_bytes(dv.take(i as int)),
            total_bytes(dv) * 16 + 64 <= usize::MAX,
            forall|j: int|
                0 <= j <= i ==> #[trigger] in_off@[j] == total_bytes(dv.take(j)),
        decreases strings.len() - i,
    {
        proof {
            lemma_total_bytes_grows(dv, i as int);
            assert(dv.take(i + 1).drop_last() =~= dv.take(i as int));
        }
        let b = strings[i].as_str().as_bytes();
        in_buf.extend_from_slice(b);
        proof {
            assert(dv[i as int] == strings@[i as int]@);
            assert(in_buf@ == concat_bytes(dv.take(i + 1)));
        }
        in_off.push(in_buf.len() as i64);
        i = i + 1;
    }
    proof {
        assert(dv.take(strings@.len() as int) =~= dv);
        assert forall|j: int| 0 <= j < in_off@.len() - 1 implies #[trigger] in_off@[j] <= in_off@[j
            + 1] by {
            lemma_total_bytes_grows(dv, j);
            assert(dv.take(j + 1).drop_last() =~= dv.take(j));
        }
        assert forall|j: int| 0 <= j < in_off@.len() implies #[trigger] in_off@[j]
            <= in_buf@.len() by {
            lemma_total_bytes_prefix(dv, j);
        }
        assert forall|j: int| 0 <= j < strings@.len() implies in_buf@.subrange(
            #[trigger] in_off@[j] as int,
            in_off@[j + 1] as int,
        ) == encode_utf8(dv[j]) by {
            lemma_concat_span(dv, j);
        }
    }
    (in_buf, in_off)
}

/// All strings' UTF-8 bytes, one after another.
pub open spec fn concat_bytes(strings: Seq<Seq<char>>) -> Seq<u8>
    decreases strings.len(),
{
    if strings.len() == 0 {
        Seq::empty()
    } else {
        concat_bytes(strings.drop_last()) + encode_utf8(strings.last())
    }
}

proof fn lemma_concat_len(strings: Seq<Seq<char>>)
    ensures
        concat_bytes(strings).len() == total_bytes(strings),
    decreases strings.len(),
{
    if strings.len() > 0 {
        lemma_concat_len(strings.drop_last());
    }
}

proof fn lemma_total_bytes_prefix(strings: Seq<Seq<char>>, j: int)
    requires
        0 <= j <= strings.len(),
    ensures
        total_bytes(strings.take(j)) <= total_bytes(strings),
    decreases strings.len() - j,
{
    if j == strings.len() {
        assert(strings.take(j) =~= strings);
    } else {
        lemma_total_bytes_grows(strings, j);
    }
}

/// Within the concatenation, string `j`'s bytes sit exactly between the
/// byte totals of the prefixes before and after it.
proof fn lemma_concat_span(strings: Seq<Seq<char>>, j: int)
    requires
        0 <= j < strings.len(),
    ensures
        0 <= total_bytes(strings.take(j)),
        total_bytes(strings.take(j)) + encode_utf8(strings[j]).len() == total_bytes(
            strings.take(j + 1),
        ),
        total_bytes(strings.take(j + 1)) <= concat_bytes(strings).len(),
        concat_bytes(strings).subrange(
            total_bytes(strings.take(j)) as int,
            total_bytes(strings.take(j + 1)) as int,
        ) == encode_utf8(strings[j]),
    decreases strings.len(),
{
    lemma_concat_len(strings);
    lemma_total_bytes_grows(strings, j);
    lemma_total_bytes_prefix(strings, j + 1);
    if j == strings.len() - 1 {
        assert(strings.take(j) =~= strings.drop_last());
        assert(strings.take(j + 1) =~= strings);
        lemma_concat_len(strings.drop_last());
        assert(concat_bytes(strings).subrange(
            total_bytes(strings.take(j)) as int,
            total_bytes(strings.take(j + 1)) as int,
        ) =~= encode_utf8(strings[j]));
    } else {
        let front = strings.drop_last();
        assert(strings.take(j) =~= front.take(j));
        assert(strings.take(j + 1) =~= front.take(j + 1));
        assert(front[j] == strings[j]);
        lemma_concat_span(front, j);
        lemma_concat_len(front);
        assert(concat_bytes(strings).subrange(
            total_bytes(strings.take(j)) as int,
            total_bytes(strings.take(j + 1)) as int,
        ) =~= concat_bytes(front).subrange(
            total_bytes(front.take(j)) as int,
            total_bytes(front.take(j + 1)) as int,
        ));
    }
}

/// The total UTF-8 byte length of a list of strings.
pub open spec fn total_bytes(strings: Seq<Seq<char>>) -> nat
    decreases strings.len(),
{
    if strings.len() == 0 {
        0
    } else {
        total_bytes(strings.drop_last()) + encode_utf8(strings.last()).len()
    }
}

proof fn lemma_total_bytes_grows(strings: Seq<Seq<char>>, i: int)
    requires
        0 <= i < strings.len(),
    ensures
        total_bytes(strings.take(i + 1)) == total_bytes(strings.take(i)) + encode_utf8(
            strings[i],
        ).len(),
        total_bytes(strings.take(i + 1)) <= total_bytes(strings),
    decreases strings.len() - i,
{
    assert(strings.take(i + 1).drop_last() =~= strings.take(i));
    assert(strings.take(i + 1).last() == strings[i]);
    if i + 1 == strings.len() {
        assert(strings.take(i + 1) =~= strings);
    } else {
        lemma_total_bytes_grows(strings, i + 1);
    }
}

proof fn lemma_offsets_nonneg(off: Seq<i64>, j: int)
    requires
        0 <= j < off.len(),
        off.len() >= 1,
        off[0] == 0,
        forall|a: int| 0 <= a < off.len() - 1 ==> #[trigger] off[a] <= off[a + 1],
    ensures
        off[j] >= 0,
    decreases j,
{
    if j > 0 {
        lemma_offsets_nonneg(off, j - 1);
    }
}

proof fn lemma_offsets_below_last(off: Seq<i64>, j: int)
    requires
        0 <= j < off.len(),
        forall|a: int| 0 <= a < off.len() - 1 ==> #[trigger] off[a] <= off[a + 1],
    ensures
        off[j] <= off.last(),
    decreases off.len() - j,
{
    if j < off.len() - 1 {
        lemma_offsets_below_last(off, j + 1);
    }
}

} // verus!
