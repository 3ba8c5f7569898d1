//! Character-sequence utilities: lexicographic comparison, substring
//! search, and case folding.

use vstd::prelude::*;

verus! {

/// Lexicographic order on character sequences, by Unicode scalar value.
pub open spec fn lex_le(a: Seq<char>, b: Seq<char>) -> bool
    decreases a.len(),
{
    if a.len() == 0 {
        true
    } else if b.len() == 0 {
        false
    } else if a[0] as u32 != b[0] as u32 {
        (a[0] as u32) < (b[0] as u32)
    } else {
        lex_le(a.drop_first(), b.drop_first())
    }
}

pub proof fn lemma_lex_le_refl(a: Seq<char>)
    ensures
        lex_le(a, a),
    decreases a.len(),
{
    if a.len() > 0 {
        lemma_lex_le_refl(a.drop_first());
    }
}

pub proof fn lemma_lex_le_total(a: Seq<char>, b: Seq<char>)
    ensures
        lex_le(a, b) || lex_le(b, a),
    decreases a.len(),
{
    if a.len() > 0 && b.len() > 0 && a[0] as u32 == b[0] as u32 {
        lemma_lex_le_total(a.drop_first(), b.drop_first());
    }
}

pub proof fn lemma_lex_le_antisym(a: Seq<char>, b: Seq<char>)
    requires
        lex_le(a, b),
        lex_le(b, a),
    ensures
        a == b,
    decreases a.len(),
{
    if a.len() == 0 {
        assert(b.len() == 0);
        assert(a =~= b);
    } else {
        assert(a[0] as u32 == b[0] as u32);
        vstd::utf8::char_u32_cast(a[0], b[0] as u32);
        vstd::utf8::char_u32_cast(b[0], b[0] as u32);
        lemma_lex_le_antisym(a.drop_first(), b.drop_first());
        assert(a =~= seq![a[0]] + a.drop_first());
        assert(b =~= seq![b[0]] + b.drop_first());
    }
}

pub proof fn lemma_lex_le_trans(a: Seq<char>, b: Seq<char>, c: Seq<char>)
    requires
        lex_le(a, b),
        lex_le(b, c),
    ensures
        lex_le(a, c),
    decreases a.len(),
{
    if a.len() > 0 && b.len() > 0 && c.len() > 0 {
        if a[0] as u32 == b[0] as u32 && b[0] as u32 == c[0] as u32 {
            lemma_lex_le_trans(a.drop_first(), b.drop_first(), c.drop_first());
        }
    }
}

/// Compares two strings in the order given by [`lex_le`].
pub fn str_le(a: &str, b: &str) -> (r: bool)
    ensures
        r == lex_le(a@, b@),
{
    let alen = a.unicode_len();
    let blen = b.unicode_len();
    let mut i: usize = 0;
    proof {
        assert(a@.skip(0) =~= a@);
        assert(b@.skip(0) =~= b@);
    }
    loop
        invariant
            alen == a@.len(),
            blen == b@.len(),
            i <= alen,
            i <= blen,
            lex_le(a@, b@) == lex_le(a@.skip(i as int), b@.skip(i as int)),
        decreases alen - i,
    {
        if i == alen {
            return true;
        }
        if i == blen {
            return false;
        }
        let ca = a.get_char(i);
        let cb = b.get_char(i);
        if (ca as u32) != (cb as u32) {
            return (ca as u32) < (cb as u32);
        }
        proof {
            assert(a@.skip(i as int).drop_first() =~= a@.skip(i as int + 1));
            assert(b@.skip(i as int).drop_first() =~= b@.skip(i as int + 1));
        }
        i = i + 1;
    }
}

/// Whether two strings hold the same characters.
pub fn str_eq(a: &str, b: &str) -> (r: bool)
    ensures
        r == (a@ == b@),
{
    let r = str_le(a, b);
    if !r {
        proof {
            if a@ == b@ {
                lemma_lex_le_refl(a@);
            }
        }
        return false;
    }
    let s = str_le(b, a);
    proof {
        if s {
            lemma_lex_le_antisym(a@, b@);
        } else {
            lemma_lex_le_refl(a@);
        }
    }
    s
}

/// True when `needle` occurs in `hay` starting at position `i`.
pub open spec fn matches_at(needle: Seq<char>, hay: Seq<char>, i: int) -> bool {
    &&& 0 <= i
    &&& i + needle.len() <= hay.len()
    &&& hay.subrange(i, i + needle.len() as int) == needle
}

/// True when `needle` occurs somewhere in `hay`.
pub open spec fn is_substring_of(needle: Seq<char>, hay: Seq<char>) -> bool {
    exists|i: int| #[trigger] matches_at(needle, hay, i)
}

/// The empty sequence is a substring of anything.
pub proof fn lemma_empty_substring(needle: Seq<char>, hay: Seq<char>)
    requires
        needle.len() == 0,
    ensures
        is_substring_of(needle, hay),
{
    assert(hay.subrange(0, 0) =~= needle);
    assert(matches_at(needle, hay, 0));
}

fn match_at(hay: &str, needle: &str, i: usize) -> (r: bool)
    requires
        i + needle@.len() <= hay@.len(),
    ensures
        r == matches_at(needle@, hay@, i as int),
{
    let nlen = needle.unicode_len();
    let hlen = hay.unicode_len();
    let mut j: usize = 0;
    while j < nlen
        invariant
            nlen == needle@.len(),
            hlen == hay@.len(),
            i + nlen <= hlen,
            j <= nlen,
            forall|k: int| 0 <= k < j ==> hay@[i + k] == needle@[k],
        decreases nlen - j,
    {
        let ch = hay.get_char(i + j);
        let cn = needle.get_char(j);
        if ch != cn {
            proof {
                assert(hay@.subrange(i as int, i + nlen as int)[j as int] == hay@[i + j]);
            }
            return false;
        }
        j = j + 1;
    }
    proof {
        assert(hay@.subrange(i as int, i + nlen as int) =~= needle@);
    }
    true
}

/// Whether `needle` occurs in `hay`, per [`is_substring_of`].
pub fn str_contains(hay: &str, needle: &str) -> (r: bool)
    ensures
        r == is_substring_of(needle@, hay@),
{
    let nlen = needle.unicode_len();
    let hlen = hay.unicode_len();
    if nlen > hlen {
        proof {
            assert(forall|i: int| !matches_at(needle@, hay@, i));
        }
        return false;
    }
    let bound = hlen - nlen;
    let mut i: usize = 0;
    loop
        invariant
            nlen == needle@.len(),
            hlen == hay@.len(),
            nlen <= hlen,
            bound == hlen - nlen,
            i <= bound,
            forall|k: int| 0 <= k < i ==> !#[trigger] matches_at(needle@, hay@, k),
        decreases bound - i,
    {
        if match_at(hay, needle, i) {
            return true;
        }
        if i == bound {
            proof {
                assert(forall|k: int| k > bound ==> !#[trigger] matches_at(needle@, hay@, k));
            }
            return false;
        }
        i = i + 1;
    }
}

/// The characters that `str::to_lowercase` yields for the given ones;
/// the result depends on the characters alone.
pub uninterp spec fn lower_of(s: Seq<char>) -> Seq<char>;

/// Relies on `str::to_lowercase`: a pure function of the characters,
/// and the empty string stays empty.
#[verifier::external_body]
pub fn to_lower(s: &str) -> (r: String)
    ensures
        r@ == lower_of(s@),
        s@.len() == 0 ==> r@.len() == 0,
{
    s.to_lowercase()
}

} // verus!
