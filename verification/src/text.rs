//! Text normalization: lowercasing, whitespace splitting, and the
//! lexicographic order on character sequences that the keyword
//! dictionary is sorted by.

use vstd::prelude::*;

verus! {

broadcast use vstd::utf8::char_is_scalar, vstd::utf8::char_u32_cast;

/// The lowercase form of a character sequence, as `str::to_lowercase`
/// computes it. The result depends on the characters alone.
pub uninterp spec fn lower_of(s: Seq<char>) -> Seq<char>;

/// The pieces of a character sequence split on Unicode whitespace, as
/// `str::split_whitespace` yields them. The result depends on the
/// characters alone.
pub uninterp spec fn split_ws_of(s: Seq<char>) -> Seq<Seq<char>>;

/// Relies on `str::to_lowercase`: returns the Unicode lowercase
/// equivalent of the string, a pure function of its characters.
#[verifier::external_body]
pub(crate) fn to_lower(s: &str) -> (r: String)
    ensures
        r@ == lower_of(s@),
{
    s.to_lowercase()
}

/// Relies on `str::split_whitespace`: returns the maximal runs of
/// non-whitespace characters, in order, a pure function of the
/// characters of the string.
#[verifier::external_body]
pub(crate) fn split_ws(s: &str) -> (r: Vec<String>)
    ensures
        r.deep_view() == split_ws_of(s@),
{
    s.split_whitespace().map(String::from).collect()
}

/// Strict lexicographic order on character sequences, comparing
/// characters by their Unicode scalar values. This is the order the
/// keyword dictionary is sorted in; for UTF-8 encoded strings it
/// coincides with byte-wise lexicographic order.
pub open spec fn lex_lt(a: Seq<char>, b: Seq<char>) -> bool
    decreases a.len(),
{
    if b.len() == 0 {
        false
    } else if a.len() == 0 {
        true
    } else if a[0] == b[0] {
        lex_lt(a.skip(1), b.skip(1))
    } else {
        (a[0] as u32) < (b[0] as u32)
    }
}

/// Two sequences that neither precede the other are equal.
pub proof fn lemma_lex_connected(a: Seq<char>, b: Seq<char>)
    requires
        !lex_lt(a, b),
        !lex_lt(b, a),
    ensures
        a == b,
    decreases a.len(),
{
    if b.len() == 0 {
        assert(a =~= b);
    } else if a.len() == 0 {
        assert(lex_lt(a, b));
    } else {
        if a[0] == b[0] {
            lemma_lex_connected(a.skip(1), b.skip(1));
            assert(a =~= seq![a[0]] + a.skip(1));
            assert(b =~= seq![b[0]] + b.skip(1));
        } else {
            vstd::utf8::char_u32_cast(a[0], a[0] as u32);
            vstd::utf8::char_u32_cast(b[0], b[0] as u32);
            assert(lex_lt(a, b) || lex_lt(b, a));
        }
    }
}

/// Lexicographic order is transitive.
pub proof fn lemma_lex_trans(a: Seq<char>, b: Seq<char>, c: Seq<char>)
    requires
        lex_lt(a, b),
        lex_lt(b, c),
    ensures
        lex_lt(a, c),
    decreases a.len(),
{
    if a.len() == 0 {
        assert(b.len() > 0);
        assert(c.len() > 0);
    } else {
        assert(b.len() > 0);
        assert(c.len() > 0);
        if a[0] == b[0] && b[0] == c[0] {
            lemma_lex_trans(a.skip(1), b.skip(1), c.skip(1));
        }
    }
}

/// Whether `s` lexicographically precedes `t`, decided character by
/// character.
pub fn str_lex_lt(s: &str, t: &str) -> (r: bool)
    ensures
        r == lex_lt(s@, t@),
{
    let n = s.unicode_len();
    let m = t.unicode_len();
    let mut i: usize = 0;
    proof {
        assert(s@.skip(0) =~= s@);
        assert(t@.skip(0) =~= t@);
    }
    loop
        invariant
            i <= n,
            i <= m,
            n == s@.len(),
            m == t@.len(),
            lex_lt(s@, t@) == lex_lt(s@.skip(i as int), t@.skip(i as int)),
        decreases n - i,
    {
        if i == n {
            proof {
                if i == m {
                    assert(t@.skip(i as int).len() == 0);
                } else {
                    assert(t@.skip(i as int).len() > 0);
                    assert(s@.skip(i as int).len() == 0);
                }
            }
            return i < m;
        }
        if i == m {
            assert(t@.skip(i as int).len() == 0);
            return false;
        }
        let cs = s.get_char(i);
        let ct = t.get_char(i);
        proof {
            assert(s@.skip(i as int)[0] == s@[i as int]);
            assert(t@.skip(i as int)[0] == t@[i as int]);
            assert(s@.skip(i as int).skip(1) =~= s@.skip(i + 1));
            assert(t@.skip(i as int).skip(1) =~= t@.skip(i + 1));
        }
        if cs as u32 != ct as u32 {
            return (cs as u32) < (ct as u32);
        }
        i = i + 1;
    }
}

/// Whether one of the listed strings equals `kw`.
pub(crate) fn contains_str(seen: &Vec<String>, kw: &String) -> (r: bool)
    ensures
        r == (exists|a: int| 0 <= a < seen@.len() && seen.deep_view()[a] == kw@),
{
    let mut m: usize = 0;
    while m < seen.len()
        invariant
            m <= seen.len(),
            forall|a: int| 0 <= a < m ==> seen.deep_view()[a] != kw@,
        decreases seen.len() - m,
    {
        if seen[m].eq(kw) {
            proof {
                assert(seen.deep_view()[m as int] == kw@);
            }
            return true;
        }
        m = m + 1;
    }
    false
}

} // verus!
