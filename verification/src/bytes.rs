//! Byte strings: equality, order, prefixes, and their relation to UTF-8 text.
//!
//! Every name in the store (record ids, content names, member names) is ordered by its UTF-8
//! bytes, so one lexicographic order serves all of them.

use vstd::prelude::*;
use vstd::slice::slice_subrange;
use vstd::utf8::*;

verus! {

/// Lexicographic order of byte strings: the first differing byte decides, and a proper prefix
/// comes first.
pub open spec fn lex_lt(a: Seq<u8>, b: Seq<u8>) -> bool
    decreases a.len(),
{
    if b.len() == 0 {
        false
    } else if a.len() == 0 {
        true
    } else if a[0] == b[0] {
        lex_lt(a.drop_first(), b.drop_first())
    } else {
        a[0] < b[0]
    }
}

/// Order of two names: that of their UTF-8 bytes.
pub open spec fn name_lt(a: Seq<char>, b: Seq<char>) -> bool {
    lex_lt(encode_utf8(a), encode_utf8(b))
}

/// No byte string precedes itself.
pub proof fn lemma_lex_irreflexive(a: Seq<u8>)
    ensures
        !lex_lt(a, a),
    decreases a.len(),
{
    if a.len() > 0 {
        lemma_lex_irreflexive(a.drop_first());
    }
}

/// The order is transitive.
pub proof fn lemma_lex_transitive(a: Seq<u8>, b: Seq<u8>, c: Seq<u8>)
    requires
        lex_lt(a, b),
        lex_lt(b, c),
    ensures
        lex_lt(a, c),
    decreases a.len(),
{
    if a.len() > 0 && a[0] == b[0] && b[0] == c[0] {
        lemma_lex_transitive(a.drop_first(), b.drop_first(), c.drop_first());
    }
}

/// Two distinct byte strings are ordered one way or the other.
pub proof fn lemma_lex_total(a: Seq<u8>, b: Seq<u8>)
    ensures
        a == b || lex_lt(a, b) || lex_lt(b, a),
    decreases a.len(),
{
    if a.len() > 0 && b.len() > 0 {
        if a[0] == b[0] {
            lemma_lex_total(a.drop_first(), b.drop_first());
            if a.drop_first() == b.drop_first() {
                assert(a =~= seq![a[0]] + a.drop_first());
                assert(b =~= seq![b[0]] + b.drop_first());
            }
        }
    } else {
        if a.len() == 0 && b.len() == 0 {
            assert(a =~= b);
        }
    }
}

/// Text with equal UTF-8 bytes is equal.
pub proof fn lemma_utf8_injective(a: Seq<char>, b: Seq<char>)
    requires
        encode_utf8(a) == encode_utf8(b),
    ensures
        a == b,
{
    encode_utf8_decode_utf8(a);
    encode_utf8_decode_utf8(b);
}

/// Text is empty exactly when its UTF-8 bytes are.
pub proof fn lemma_utf8_empty(a: Seq<char>)
    ensures
        a.len() == 0 <==> encode_utf8(a).len() == 0,
{
    if a.len() == 0 {
        assert(encode_utf8(a) =~= Seq::<u8>::empty());
    } else if encode_utf8(a).len() == 0 {
        assert(encode_utf8(a) =~= Seq::<u8>::empty());
        assert(encode_utf8(Seq::<char>::empty()) =~= Seq::<u8>::empty());
        lemma_utf8_injective(a, Seq::<char>::empty());
    }
}

/// The order of names is irreflexive, transitive and total.
pub proof fn lemma_name_order(a: Seq<char>, b: Seq<char>, c: Seq<char>)
    ensures
        !name_lt(a, a),
        name_lt(a, b) && name_lt(b, c) ==> name_lt(a, c),
        name_lt(a, b) ==> !name_lt(b, a),
        a == b || name_lt(a, b) || name_lt(b, a),
{
    let (x, y, z) = (encode_utf8(a), encode_utf8(b), encode_utf8(c));
    lemma_lex_irreflexive(x);
    if lex_lt(x, y) && lex_lt(y, z) {
        lemma_lex_transitive(x, y, z);
    }
    if lex_lt(x, y) && lex_lt(y, x) {
        lemma_lex_transitive(x, y, x);
    }
    lemma_lex_total(x, y);
    if x == y {
        lemma_utf8_injective(a, b);
    }
}

/// Whether two byte strings are equal.
pub fn bytes_eq(a: &[u8], b: &[u8]) -> (r: bool)
    ensures
        r == (a@ == b@),
{
    if a.len() != b.len() {
        return false;
    }
    let mut i: usize = 0;
    while i < a.len()
        invariant
            i <= a.len(),
            a@.len() == b@.len(),
            forall|j: int| 0 <= j < i ==> a@[j] == b@[j],
        decreases a.len() - i,
    {
        if a[i] != b[i] {
            return false;
        }
        i = i + 1;
    }
    assert(a@ =~= b@);
    true
}

/// Whether `a` precedes `b` lexicographically.
pub fn bytes_lt(a: &[u8], b: &[u8]) -> (r: bool)
    ensures
        r == lex_lt(a@, b@),
{
    let mut i: usize = 0;
    assert(a@.skip(0) =~= a@);
    assert(b@.skip(0) =~= b@);
    while i < a.len() && i < b.len()
        invariant
            i <= a.len(),
            i <= b.len(),
            lex_lt(a@, b@) == lex_lt(a@.skip(i as int), b@.skip(i as int)),
        decreases a.len() - i,
    {
        assert(a@.skip(i as int).drop_first() =~= a@.skip(i + 1));
        assert(b@.skip(i as int).drop_first() =~= b@.skip(i + 1));
        if a[i] != b[i] {
            return a[i] < b[i];
        }
        i = i + 1;
    }
    i < b.len()
}

/// Whether two texts are equal.
pub fn str_eq(a: &str, b: &str) -> (r: bool)
    ensures
        r == (a@ == b@),
{
    let r = bytes_eq(a.as_bytes(), b.as_bytes());
    proof {
        if r {
            lemma_utf8_injective(a@, b@);
        }
    }
    r
}

/// Whether name `a` precedes name `b`.
pub fn str_lt(a: &str, b: &str) -> (r: bool)
    ensures
        r == name_lt(a@, b@),
{
    bytes_lt(a.as_bytes(), b.as_bytes())
}

/// Whether `s` begins with `prefix`.
pub open spec fn starts_with(s: Seq<u8>, prefix: Seq<u8>) -> bool {
    prefix.len() <= s.len() && s.subrange(0, prefix.len() as int) == prefix
}

/// Whether `s` ends with `suffix`.
pub open spec fn ends_with(s: Seq<u8>, suffix: Seq<u8>) -> bool {
    suffix.len() <= s.len() && s.subrange(s.len() - suffix.len(), s.len() as int) == suffix
}

/// The bytes of `s` after `prefix`, if it begins with it.
pub fn strip_prefix<'a>(s: &'a [u8], prefix: &[u8]) -> (r: Option<&'a [u8]>)
    ensures
        match r {
            Some(rest) => starts_with(s@, prefix@) && rest@ == s@.subrange(
                prefix@.len() as int,
                s@.len() as int,
            ),
            None => !starts_with(s@, prefix@),
        },
{
    if prefix.len() > s.len() {
        return None;
    }
    if bytes_eq(slice_subrange(s, 0, prefix.len()), prefix) {
        Some(slice_subrange(s, prefix.len(), s.len()))
    } else {
        None
    }
}

/// The bytes of `s` before `suffix`, if it ends with it.
pub fn strip_suffix<'a>(s: &'a [u8], suffix: &[u8]) -> (r: Option<&'a [u8]>)
    ensures
        match r {
            Some(rest) => ends_with(s@, suffix@) && rest@ == s@.subrange(
                0,
                s@.len() - suffix@.len(),
            ),
            None => !ends_with(s@, suffix@),
        },
{
    if suffix.len() > s.len() {
        return None;
    }
    let at: usize = s.len() - suffix.len();
    if bytes_eq(slice_subrange(s, at, s.len()), suffix) {
        Some(slice_subrange(s, 0, at))
    } else {
        None
    }
}

/// Append `more` to `out`.
pub fn append_bytes(out: &mut Vec<u8>, more: &[u8])
    ensures
        final(out)@ == old(out)@ + more@,
{
    let ghost before = out@;
    out.extend_from_slice(more);
    assert(out@ =~= before + more@);
}

/// `String::from_utf8`: the text a byte string encodes, or `None` where it is not UTF-8.
#[verifier::external_body]
pub(crate) fn utf8_text(bytes: &[u8]) -> (r: Option<String>)
    ensures
        r is Some <==> valid_utf8(bytes@),
        r matches Some(s) ==> encode_utf8(s@) == bytes@,
{
    String::from_utf8(bytes.to_vec()).ok()
}

} // verus!
