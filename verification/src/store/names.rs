//! Member names: the whole namespace of one store.
//!
//! ```text
//! MANIFEST                               the current manifest
//! MANIFEST.NNNNNNNN                      a retained manifest revision
//! part-LLLLLLLL.part                     a part of one sequence
//! part-LLLLLLLL-HHHHHHHH.part            a part of a sequence interval
//! part-rGGGG-LLLLLLLL-HHHHHHHH.part      a part rebuilt by a refold
//! fold/..., fold-GGGG/...                a fold generation
//!   seg-NNNNNNNN.fold                    a segment
//!   seg-NNNNNNNN.dir                     its block directory
//!   zdict-<64 hex>.zd                    a compression dictionary
//! ```
//!
//! Names are stated as the bytes of their UTF-8 encoding.

use crate::bytes;
use crate::text;
use vstd::prelude::*;
use vstd::slice::slice_subrange;
use vstd::utf8::*;

verus! {

/// The highest fold generation: four decimal digits.
pub const MAX_FOLD_GENERATION: u32 = 9_999;

/// The highest fold segment: eight decimal digits.
pub const MAX_SEGMENT_NUMBER: u32 = 99_999_999;

/// Bytes of a fold segment's header.
pub const SEG_HDR_LEN: u64 = 48;

// ---------------------------------------------------------------------------------------------
// Digits.
// ---------------------------------------------------------------------------------------------
/// A decimal digit.
pub open spec fn is_digit(b: u8) -> bool {
    48 <= b <= 57
}

/// Every byte is a decimal digit.
pub open spec fn all_digits(s: Seq<u8>) -> bool {
    forall|i: int| 0 <= i < s.len() ==> is_digit(#[trigger] s[i])
}

/// The value of a digit string.
pub open spec fn digits_value(s: Seq<u8>) -> nat
    decreases s.len(),
{
    if s.len() == 0 {
        0
    } else {
        10 * digits_value(s.drop_last()) + (s.last() - 48) as nat
    }
}

/// The 64-bit number a non-empty digit string writes down.
pub open spec fn digits_u64(s: Seq<u8>) -> Option<u64> {
    if s.len() > 0 && all_digits(s) && digits_value(s) <= u64::MAX {
        Some(digits_value(s) as u64)
    } else {
        None
    }
}

/// Decimal digits write down their number.
pub proof fn lemma_decimal_value(n: nat)
    ensures
        digits_value(text::decimal(n)) == n,
        all_digits(text::decimal(n)),
    decreases n,
{
    text::lemma_decimal_digits(n);
    let d = text::decimal(n);
    if n >= 10 {
        lemma_decimal_value(n / 10);
        assert(d.drop_last() =~= text::decimal(n / 10));
        assert(d.last() == (48 + n % 10) as u8);
        assert(digits_value(d) == 10 * digits_value(d.drop_last()) + (d.last() - 48));
    } else {
        assert(d.drop_last() =~= Seq::<u8>::empty());
        assert(digits_value(d.drop_last()) == 0);
    }
}

/// Leading zeros change nothing.
pub proof fn lemma_zeros_value(k: nat, s: Seq<u8>)
    ensures
        digits_value(Seq::new(k, |i: int| 48u8) + s) == digits_value(s),
    decreases k + s.len(),
{
    let z = Seq::new(k, |i: int| 48u8);
    let t = z + s;
    if s.len() > 0 {
        assert(t.drop_last() =~= z + s.drop_last());
        lemma_zeros_value(k, s.drop_last());
    } else if k > 0 {
        let less = Seq::new((k - 1) as nat, |i: int| 48u8);
        assert(t.drop_last() =~= less + s);
        lemma_zeros_value((k - 1) as nat, s);
    } else {
        assert(t =~= s);
    }
}

/// A zero-padded number reads back as itself.
pub proof fn lemma_padded_value(n: u64, width: nat)
    ensures
        digits_u64(text::zero_padded(text::decimal(n as nat), width)) == Some(n),
        all_digits(text::zero_padded(text::decimal(n as nat), width)),
        text::zero_padded(text::decimal(n as nat), width).len() >= 1,
{
    let d = text::decimal(n as nat);
    lemma_decimal_value(n as nat);
    text::lemma_decimal_digits(n as nat);
    if d.len() < width {
        lemma_zeros_value((width - d.len()) as nat, d);
    }
    let p = text::zero_padded(d, width);
    assert forall|i: int| 0 <= i < p.len() implies is_digit(#[trigger] p[i]) by {
        if d.len() < width && i >= width - d.len() {
            assert(p[i] == d[i - (width - d.len())]);
        }
    }
}

/// The number a digit string writes down.
pub fn parse_u64(s: &[u8]) -> (r: Option<u64>)
    ensures
        r == digits_u64(s@),
{
    if s.len() == 0 {
        return None;
    }
    let mut v: u64 = 0;
    let mut fits = true;
    let mut i: usize = 0;
    assert(s@.take(0) =~= Seq::<u8>::empty());
    while i < s.len()
        invariant
            i <= s@.len(),
            forall|k: int| 0 <= k < i ==> is_digit(#[trigger] s@[k]),
            if fits {
                v == digits_value(s@.take(i as int))
            } else {
                digits_value(s@.take(i as int)) > u64::MAX
            },
        decreases s.len() - i,
    {
        let b: u8 = s[i];
        if b < 48 || b > 57 {
            assert(!is_digit(s@[i as int]));
            return None;
        }
        proof {
            let next = s@.take(i + 1);
            assert(next.drop_last() =~= s@.take(i as int));
            assert(next.last() == b);
        }
        if fits {
            match v.checked_mul(10) {
                Some(m) => match m.checked_add((b - 48) as u64) {
                    Some(a) => {
                        v = a;
                    },
                    None => {
                        fits = false;
                    },
                },
                None => {
                    fits = false;
                },
            }
        }
        i = i + 1;
    }
    assert(s@.take(i as int) =~= s@);
    if fits {
        Some(v)
    } else {
        None
    }
}

/// The number text gives when a leading plus sign is allowed, as the standard parser allows it.
pub open spec fn signed_u64(s: Seq<u8>) -> Option<u64> {
    if s.len() > 0 && s[0] == 43 {
        digits_u64(s.drop_first())
    } else {
        digits_u64(s)
    }
}

/// The number text gives when a leading plus sign is allowed.
pub fn parse_signed(s: &[u8]) -> (r: Option<u64>)
    ensures
        r == signed_u64(s@),
{
    if s.len() > 0 && s[0] == 43 {
        let rest = slice_subrange(s, 1, s.len());
        assert(rest@ =~= s@.drop_first());
        parse_u64(rest)
    } else {
        parse_u64(s)
    }
}

/// The first position of a byte.
pub open spec fn position(s: Seq<u8>, b: u8) -> Option<nat>
    decreases s.len(),
{
    if s.len() == 0 {
        None
    } else if s[0] == b {
        Some(0)
    } else {
        match position(s.drop_first(), b) {
            Some(i) => Some(i + 1),
            None => None,
        }
    }
}

/// A position is inside, holds the byte, and is the first.
pub proof fn lemma_position(s: Seq<u8>, b: u8)
    ensures
        match position(s, b) {
            Some(i) => i < s.len() && s[i as int] == b && forall|k: int|
                0 <= k < i ==> s[k] != b,
            None => forall|k: int| 0 <= k < s.len() ==> s[k] != b,
        },
    decreases s.len(),
{
    if s.len() > 0 && s[0] != b {
        let t = s.drop_first();
        lemma_position(t, b);
        assert(forall|k: int| 1 <= k < s.len() ==> s[k] == t[k - 1]);
    }
}

/// Past bytes that are not it, the first position is that behind them.
pub proof fn lemma_position_append(front: Seq<u8>, rest: Seq<u8>, b: u8)
    requires
        forall|k: int| 0 <= k < front.len() ==> front[k] != b,
    ensures
        position(front + rest, b) == (match position(rest, b) {
            Some(i) => Some(front.len() + i),
            None => None,
        }),
    decreases front.len(),
{
    let s = front + rest;
    if front.len() == 0 {
        assert(s =~= rest);
    } else {
        assert(s[0] == front[0]);
        assert(s.drop_first() =~= front.drop_first() + rest);
        assert forall|k: int| 0 <= k < front.drop_first().len() implies front.drop_first()[k]
            != b by {
            assert(front.drop_first()[k] == front[k + 1]);
        }
        lemma_position_append(front.drop_first(), rest, b);
    }
}

/// The first position of a byte.
pub fn find_byte(s: &[u8], b: u8) -> (r: Option<usize>)
    ensures
        position(s@, b) == (match r {
            Some(i) => Some(i as nat),
            None => None,
        }),
        r matches Some(i) ==> i < s@.len(),
{
    let mut i: usize = 0;
    assert(s@.skip(0) =~= s@);
    while i < s.len()
        invariant
            i <= s@.len(),
            position(s@, b) == (match position(s@.skip(i as int), b) {
                Some(k) => Some(i as nat + k),
                None => None,
            }),
        decreases s.len() - i,
    {
        assert(s@.skip(i as int).drop_first() =~= s@.skip(i + 1));
        if s[i] == b {
            return Some(i);
        }
        i = i + 1;
    }
    None
}

// ---------------------------------------------------------------------------------------------
// Forms.
// ---------------------------------------------------------------------------------------------
/// A number in eight digits, or as many as it needs.
pub open spec fn eight(n: u64) -> Seq<u8> {
    text::zero_padded(text::decimal(n as nat), 8)
}

/// A number in four digits, or as many as it needs.
pub open spec fn four(n: u64) -> Seq<u8> {
    text::zero_padded(text::decimal(n as nat), 4)
}

/// The part of one sequence.
pub open spec fn part_name(seq: u64) -> Seq<u8> {
    encode_utf8("part-"@) + eight(seq) + encode_utf8(".part"@)
}

/// The part of a sequence interval.
pub open spec fn range_name(lo: u64, hi: u64) -> Seq<u8> {
    encode_utf8("part-"@) + eight(lo) + encode_utf8("-"@) + eight(hi) + encode_utf8(".part"@)
}

/// The part a refold rebuilt.
pub open spec fn refold_name(generation: u32, lo: u64, hi: u64) -> Seq<u8> {
    encode_utf8("part-r"@) + four(generation as u64) + encode_utf8("-"@) + eight(lo)
        + encode_utf8("-"@) + eight(hi) + encode_utf8(".part"@)
}

/// A retained manifest revision.
pub open spec fn retained_name(commit: u64) -> Seq<u8> {
    encode_utf8("MANIFEST."@) + eight(commit)
}

/// The prefix of a fold generation's members.
pub open spec fn fold_prefix(generation: u32) -> Seq<u8> {
    if generation == 0 {
        encode_utf8("fold"@)
    } else {
        encode_utf8("fold-"@) + four(generation as u64)
    }
}

/// A fold segment inside its generation.
pub open spec fn seg_file(seg: u32) -> Seq<u8> {
    encode_utf8("seg-"@) + eight(seg as u64) + encode_utf8(".fold"@)
}

/// A segment's block directory inside its generation.
pub open spec fn sidecar_file(seg: u32) -> Seq<u8> {
    encode_utf8("seg-"@) + eight(seg as u64) + encode_utf8(".dir"@)
}

proof fn lemma_literals_ascii()
    ensures
        text::all_ascii(encode_utf8("part-"@)),
        text::all_ascii(encode_utf8("part-r"@)),
        text::all_ascii(encode_utf8(".part"@)),
        text::all_ascii(encode_utf8("-"@)),
        text::all_ascii(encode_utf8("MANIFEST."@)),
        text::all_ascii(encode_utf8("fold"@)),
        text::all_ascii(encode_utf8("fold-"@)),
        text::all_ascii(encode_utf8("seg-"@)),
        text::all_ascii(encode_utf8(".fold"@)),
        text::all_ascii(encode_utf8(".dir"@)),
{
    reveal_strlit("part-");
    reveal_strlit("part-r");
    reveal_strlit(".part");
    reveal_strlit("-");
    reveal_strlit("MANIFEST.");
    reveal_strlit("fold");
    reveal_strlit("fold-");
    reveal_strlit("seg-");
    reveal_strlit(".fold");
    reveal_strlit(".dir");
    is_ascii_chars_encode_utf8("part-"@);
    is_ascii_chars_encode_utf8("part-r"@);
    is_ascii_chars_encode_utf8(".part"@);
    is_ascii_chars_encode_utf8("-"@);
    is_ascii_chars_encode_utf8("MANIFEST."@);
    is_ascii_chars_encode_utf8("fold"@);
    is_ascii_chars_encode_utf8("fold-"@);
    is_ascii_chars_encode_utf8("seg-"@);
    is_ascii_chars_encode_utf8(".fold"@);
    is_ascii_chars_encode_utf8(".dir"@);
}

proof fn lemma_eight_ascii(n: u64, width: nat)
    ensures
        text::all_ascii(text::zero_padded(text::decimal(n as nat), width)),
{
    lemma_padded_value(n, width);
    let p = text::zero_padded(text::decimal(n as nat), width);
    assert forall|i: int| 0 <= i < p.len() implies #[trigger] p[i] < 128 by {
        assert(is_digit(p[i]));
    }
}

fn part_bytes(seq: u64) -> (r: Vec<u8>)
    ensures
        r@ == part_name(seq),
        text::all_ascii(r@),
{
    let mut out: Vec<u8> = Vec::new();
    bytes::append_bytes(&mut out, "part-".as_bytes());
    text::put_padded(&mut out, seq, 8);
    bytes::append_bytes(&mut out, ".part".as_bytes());
    proof {
        assert(out@ =~= part_name(seq));
        lemma_literals_ascii();
        lemma_eight_ascii(seq, 8);
    }
    out
}

fn range_bytes(lo: u64, hi: u64) -> (r: Vec<u8>)
    ensures
        r@ == range_name(lo, hi),
        text::all_ascii(r@),
{
    let mut out: Vec<u8> = Vec::new();
    bytes::append_bytes(&mut out, "part-".as_bytes());
    text::put_padded(&mut out, lo, 8);
    bytes::append_bytes(&mut out, "-".as_bytes());
    text::put_padded(&mut out, hi, 8);
    bytes::append_bytes(&mut out, ".part".as_bytes());
    proof {
        assert(out@ =~= range_name(lo, hi));
        lemma_literals_ascii();
        lemma_eight_ascii(lo, 8);
        lemma_eight_ascii(hi, 8);
    }
    out
}

fn refold_bytes(generation: u32, lo: u64, hi: u64) -> (r: Vec<u8>)
    ensures
        r@ == refold_name(generation, lo, hi),
        text::all_ascii(r@),
{
    let mut out: Vec<u8> = Vec::new();
    bytes::append_bytes(&mut out, "part-r".as_bytes());
    text::put_padded(&mut out, generation as u64, 4);
    bytes::append_bytes(&mut out, "-".as_bytes());
    text::put_padded(&mut out, lo, 8);
    bytes::append_bytes(&mut out, "-".as_bytes());
    text::put_padded(&mut out, hi, 8);
    bytes::append_bytes(&mut out, ".part".as_bytes());
    proof {
        assert(out@ =~= refold_name(generation, lo, hi));
        lemma_literals_ascii();
        lemma_eight_ascii(generation as u64, 4);
        lemma_eight_ascii(lo, 8);
        lemma_eight_ascii(hi, 8);
    }
    out
}

fn retained_bytes(commit: u64) -> (r: Vec<u8>)
    ensures
        r@ == retained_name(commit),
        text::all_ascii(r@),
{
    let mut out: Vec<u8> = Vec::new();
    bytes::append_bytes(&mut out, "MANIFEST.".as_bytes());
    text::put_padded(&mut out, commit, 8);
    proof {
        assert(out@ =~= retained_name(commit));
        lemma_literals_ascii();
        lemma_eight_ascii(commit, 8);
    }
    out
}

/// The member name of a one-sequence part.
pub fn part_member(seq: u64) -> (r: String)
    ensures
        encode_utf8(r@) == part_name(seq),
        r@ == text::chars(part_name(seq)),
{
    let b = part_bytes(seq);
    text::ascii_text(b.as_slice())
}

/// The member name of a merged part.
pub fn range_member(lo: u64, hi: u64) -> (r: String)
    ensures
        encode_utf8(r@) == range_name(lo, hi),
        r@ == text::chars(range_name(lo, hi)),
{
    let b = range_bytes(lo, hi);
    text::ascii_text(b.as_slice())
}

/// The member name of a refolded part.
pub fn refold_member(generation: u32, lo: u64, hi: u64) -> (r: String)
    ensures
        encode_utf8(r@) == refold_name(generation, lo, hi),
        r@ == text::chars(refold_name(generation, lo, hi)),
{
    let b = refold_bytes(generation, lo, hi);
    text::ascii_text(b.as_slice())
}

/// The member name of a retained manifest.
pub fn retained_member(commit: u64) -> (r: String)
    ensures
        encode_utf8(r@) == retained_name(commit),
        r@ == text::chars(retained_name(commit)),
{
    let b = retained_bytes(commit);
    text::ascii_text(b.as_slice())
}

/// What the members of a fold generation begin with.
pub open spec fn fold_root(generation: u32) -> Seq<u8> {
    fold_prefix(generation) + seq![47u8]
}

/// A segment's block directory as a member.
pub open spec fn sidecar_name(generation: u32, seg: u32) -> Seq<u8> {
    fold_root(generation) + sidecar_file(seg)
}

/// A segment as a member.
pub open spec fn segment_name(generation: u32, seg: u32) -> Seq<u8> {
    fold_root(generation) + seg_file(seg)
}

fn put_root(out: &mut Vec<u8>, generation: u32)
    ensures
        final(out)@ == old(out)@ + fold_root(generation),
        text::all_ascii(fold_root(generation)),
{
    let ghost before = out@;
    proof {
        lemma_literals_ascii();
        lemma_eight_ascii(generation as u64, 4);
    }
    if generation == 0 {
        bytes::append_bytes(out, "fold".as_bytes());
    } else {
        bytes::append_bytes(out, "fold-".as_bytes());
        text::put_padded(out, generation as u64, 4);
    }
    out.push(47);
    assert(out@ =~= before + fold_root(generation));
}

/// The name of a segment's block directory is ASCII.
pub proof fn lemma_sidecar_ascii(generation: u32, seg: u32)
    ensures
        text::all_ascii(sidecar_name(generation, seg)),
{
    lemma_literals_ascii();
    lemma_eight_ascii(generation as u64, 4);
    lemma_eight_ascii(seg as u64, 8);
}

/// A name below a generation's root belongs to that generation.
pub proof fn lemma_below_root(generation: u32, file: Seq<u8>)
    requires
        generation <= MAX_FOLD_GENERATION,
    ensures
        fold_generation(fold_root(generation) + file) == Some(generation),
        after_slash(fold_root(generation) + file) == file,
{
    let prefix = fold_prefix(generation);
    let name = fold_root(generation) + file;
    let rest = seq![47u8] + file;
    reveal_strlit("fold");
    reveal_strlit("fold-");
    is_ascii_chars_encode_utf8("fold"@);
    is_ascii_chars_encode_utf8("fold-"@);
    let word = encode_utf8("fold"@);
    let dashed = encode_utf8("fold-"@);
    lemma_padded_value(generation as u64, 4);
    let digits = four(generation as u64);
    assert forall|k: int| 0 <= k < prefix.len() implies prefix[k] != 47 by {
        if generation != 0 && k >= dashed.len() {
            assert(is_digit(digits[k - dashed.len()]));
        }
    }
    assert(name =~= prefix + rest);
    lemma_position_append(prefix, rest, 47);
    assert(position(rest, 47) == Some(0nat));
    assert(name.subrange(0, prefix.len() as int) =~= prefix);
    assert(name.subrange(prefix.len() as int + 1, name.len() as int) =~= file);
    if generation != 0 {
        lemma_four_digits(generation as nat);
        assert(prefix.len() != word.len());
        assert(prefix.subrange(0, dashed.len() as int) =~= dashed);
        assert(prefix.subrange(dashed.len() as int, prefix.len() as int) =~= digits);
    }
}

/// A number below ten thousand takes four digits.
proof fn lemma_four_digits(n: nat)
    requires
        n <= 9999,
    ensures
        text::zero_padded(text::decimal(n), 4).len() == 4,
{
    reveal_with_fuel(text::decimal, 5);
}

/// The name of a retained revision is ASCII.
pub proof fn lemma_retained_ascii(commit: u64)
    ensures
        text::all_ascii(retained_name(commit)),
{
    lemma_literals_ascii();
    lemma_eight_ascii(commit, 8);
}

/// The digits of a retained revision read back as its number.
pub proof fn lemma_retained_signed(commit: u64)
    ensures
        signed_u64(eight(commit)) == Some(commit),
{
    lemma_padded_value(commit, 8);
    let p = eight(commit);
    assert(is_digit(p[0]));
}

/// The bytes that the members of a fold generation begin with.
pub fn fold_root_bytes(generation: u32) -> (r: Vec<u8>)
    ensures
        r@ == fold_root(generation),
{
    let mut out: Vec<u8> = Vec::new();
    put_root(&mut out, generation);
    assert(out@ =~= fold_root(generation));
    out
}

/// The member name of a segment's block directory.
pub fn sidecar_member(generation: u32, seg: u32) -> (r: String)
    ensures
        r@ == text::chars(sidecar_name(generation, seg)),
        encode_utf8(r@) == sidecar_name(generation, seg),
{
    let mut out: Vec<u8> = Vec::new();
    put_root(&mut out, generation);
    bytes::append_bytes(&mut out, "seg-".as_bytes());
    text::put_padded(&mut out, seg as u64, 8);
    bytes::append_bytes(&mut out, ".dir".as_bytes());
    proof {
        assert(out@ =~= sidecar_name(generation, seg));
        lemma_literals_ascii();
        lemma_eight_ascii(seg as u64, 8);
    }
    text::ascii_text(out.as_slice())
}

/// The member name of a segment.
pub fn segment_member(generation: u32, seg: u32) -> (r: String)
    ensures
        r@ == text::chars(segment_name(generation, seg)),
        encode_utf8(r@) == segment_name(generation, seg),
{
    let mut out: Vec<u8> = Vec::new();
    put_root(&mut out, generation);
    bytes::append_bytes(&mut out, "seg-".as_bytes());
    text::put_padded(&mut out, seg as u64, 8);
    bytes::append_bytes(&mut out, ".fold".as_bytes());
    proof {
        assert(out@ =~= segment_name(generation, seg));
        lemma_literals_ascii();
        lemma_eight_ascii(seg as u64, 8);
    }
    text::ascii_text(out.as_slice())
}

// ---------------------------------------------------------------------------------------------
// Recognition.
// ---------------------------------------------------------------------------------------------
/// A name some part could have.
pub open spec fn part_shape(name: Seq<u8>) -> bool {
    ||| exists|seq: u64| name == #[trigger] part_name(seq)
    ||| exists|lo: u64, hi: u64| name == #[trigger] range_name(lo, hi)
    ||| exists|g: u32, lo: u64, hi: u64|
        1 <= g <= MAX_FOLD_GENERATION && name == #[trigger] refold_name(g, lo, hi)
}

/// The digits before `.part` and `-`, as far as they go: the fields a part name is made of.
proof fn lemma_strip(front: Seq<u8>, mid: Seq<u8>, back: Seq<u8>)
    ensures
        bytes::starts_with(front + mid + back, front),
        bytes::ends_with(front + mid + back, back),
        (front + mid + back).subrange(front.len() as int, (front + mid + back).len() as int)
            == mid + back,
        bytes::ends_with(mid + back, back),
        (mid + back).subrange(0, mid.len() as int) == mid,
{
    let s = front + mid + back;
    assert(s.subrange(0, front.len() as int) =~= front);
    assert(s.subrange(s.len() - back.len(), s.len() as int) =~= back);
    assert(s.subrange(front.len() as int, s.len() as int) =~= mid + back);
    let t = mid + back;
    assert(t.subrange(t.len() - back.len(), t.len() as int) =~= back);
    assert(t.subrange(0, mid.len() as int) =~= mid);
}

proof fn lemma_digits_have_no(s: Seq<u8>, b: u8)
    requires
        all_digits(s),
        !is_digit(b),
    ensures
        forall|k: int| 0 <= k < s.len() ==> s[k] != b,
{
    assert forall|k: int| 0 <= k < s.len() implies s[k] != b by {
        assert(is_digit(s[k]));
    }
}

pub proof fn lemma_dash()
    ensures
        encode_utf8("-"@) == seq![45u8],
{
    reveal_strlit("-");
    is_ascii_chars_encode_utf8("-"@);
    assert(encode_utf8("-"@) =~= seq![45u8]);
}

/// The fields of a one-sequence part name.
proof fn lemma_part_fields(seq: u64)
    ensures
        bytes::starts_with(part_name(seq), encode_utf8("part-"@)),
        part_name(seq).subrange(
            encode_utf8("part-"@).len() as int,
            part_name(seq).len() as int,
        ) == eight(seq) + encode_utf8(".part"@),
        bytes::ends_with(eight(seq) + encode_utf8(".part"@), encode_utf8(".part"@)),
        (eight(seq) + encode_utf8(".part"@)).subrange(0, eight(seq).len() as int) == eight(seq),
        position(eight(seq), 45) is None,
        digits_u64(eight(seq)) == Some(seq),
{
    lemma_strip(encode_utf8("part-"@), eight(seq), encode_utf8(".part"@));
    lemma_padded_value(seq, 8);
    lemma_digits_have_no(eight(seq), 45);
    lemma_position(eight(seq), 45);
}

/// The fields of an interval part name.
proof fn lemma_range_fields(lo: u64, hi: u64)
    ensures
        ({
            let body = eight(lo) + seq![45u8] + eight(hi);
            &&& bytes::starts_with(range_name(lo, hi), encode_utf8("part-"@))
            &&& range_name(lo, hi).subrange(
                encode_utf8("part-"@).len() as int,
                range_name(lo, hi).len() as int,
            ) == body + encode_utf8(".part"@)
            &&& bytes::ends_with(body + encode_utf8(".part"@), encode_utf8(".part"@))
            &&& (body + encode_utf8(".part"@)).subrange(0, body.len() as int) == body
            &&& position(body, 45) == Some(eight(lo).len())
            &&& body.subrange(0, eight(lo).len() as int) == eight(lo)
            &&& body.subrange(eight(lo).len() as int + 1, body.len() as int) == eight(hi)
            &&& position(eight(hi), 45) is None
            &&& digits_u64(eight(lo)) == Some(lo)
            &&& digits_u64(eight(hi)) == Some(hi)
        }),
{
    lemma_dash();
    let (pre, suf) = (encode_utf8("part-"@), encode_utf8(".part"@));
    let body = eight(lo) + seq![45u8] + eight(hi);
    lemma_range_regroup(pre, eight(lo), eight(hi), suf);
    lemma_strip(pre, body, suf);
    lemma_padded_value(lo, 8);
    lemma_padded_value(hi, 8);
    lemma_digits_have_no(eight(lo), 45);
    lemma_digits_have_no(eight(hi), 45);
    lemma_position(eight(hi), 45);
    lemma_joined_at_dash(eight(lo), eight(hi));
}

proof fn lemma_range_regroup(pre: Seq<u8>, lo: Seq<u8>, hi: Seq<u8>, suf: Seq<u8>)
    ensures
        pre + lo + seq![45u8] + hi + suf == pre + (lo + seq![45u8] + hi) + suf,
{
    assert(pre + lo + seq![45u8] + hi + suf =~= pre + (lo + seq![45u8] + hi) + suf);
}

proof fn lemma_joined_at_dash(lo: Seq<u8>, hi: Seq<u8>)
    requires
        forall|k: int| 0 <= k < lo.len() ==> lo[k] != 45,
    ensures
        ({
            let body = lo + seq![45u8] + hi;
            &&& position(body, 45) == Some(lo.len())
            &&& body.subrange(0, lo.len() as int) == lo
            &&& body.subrange(lo.len() as int + 1, body.len() as int) == hi
        }),
{
    let body = lo + seq![45u8] + hi;
    let rest = seq![45u8] + hi;
    assert(rest[0] == 45);
    assert(body =~= lo + rest);
    lemma_position_append(lo, rest, 45);
    assert(body.subrange(0, lo.len() as int) =~= lo);
    assert(body.subrange(lo.len() as int + 1, body.len() as int) =~= hi);
}

/// The fields of a refolded part name.
proof fn lemma_refold_fields(g: u32, lo: u64, hi: u64)
    ensures
        ({
            let gen = seq![114u8] + four(g as u64);
            let tail = eight(lo) + seq![45u8] + eight(hi);
            let body = gen + seq![45u8] + tail;
            &&& bytes::starts_with(refold_name(g, lo, hi), encode_utf8("part-"@))
            &&& refold_name(g, lo, hi).subrange(
                encode_utf8("part-"@).len() as int,
                refold_name(g, lo, hi).len() as int,
            ) == body + encode_utf8(".part"@)
            &&& bytes::ends_with(body + encode_utf8(".part"@), encode_utf8(".part"@))
            &&& (body + encode_utf8(".part"@)).subrange(0, body.len() as int) == body
            &&& position(body, 45) == Some(gen.len())
            &&& body.subrange(0, gen.len() as int) == gen
            &&& body.subrange(gen.len() as int + 1, body.len() as int) == tail
            &&& position(tail, 45) == Some(eight(lo).len())
            &&& tail.subrange(0, eight(lo).len() as int) == eight(lo)
            &&& tail.subrange(eight(lo).len() as int + 1, tail.len() as int) == eight(hi)
            &&& gen.subrange(1, gen.len() as int) == four(g as u64)
            &&& digits_u64(four(g as u64)) == Some(g as u64)
            &&& digits_u64(eight(lo)) == Some(lo)
            &&& digits_u64(eight(hi)) == Some(hi)
        }),
{
    lemma_dash();
    reveal_strlit("part-");
    reveal_strlit("part-r");
    is_ascii_chars_encode_utf8("part-"@);
    is_ascii_chars_encode_utf8("part-r"@);
    assert(encode_utf8("part-r"@) =~= encode_utf8("part-"@) + seq![114u8]);
    let gen = seq![114u8] + four(g as u64);
    let tail = eight(lo) + seq![45u8] + eight(hi);
    let body = gen + seq![45u8] + tail;
    let pre = encode_utf8("part-"@);
    let suf = encode_utf8(".part"@);
    assert(refold_name(g, lo, hi) == pre + body + suf) by {
        lemma_refold_regroup(pre, four(g as u64), eight(lo), eight(hi), suf);
    }
    lemma_strip(pre, body, suf);
    lemma_padded_value(g as u64, 4);
    lemma_range_fields(lo, hi);
    assert(position(body, 45) == Some(gen.len()) && body.subrange(0, gen.len() as int) == gen
        && body.subrange(gen.len() as int + 1, body.len() as int) == tail && gen.subrange(
        1,
        gen.len() as int,
    ) == four(g as u64)) by {
        lemma_digits_have_no(four(g as u64), 45);
        lemma_split_at_dash(four(g as u64), tail);
    }
}

proof fn lemma_refold_regroup(pre: Seq<u8>, g: Seq<u8>, lo: Seq<u8>, hi: Seq<u8>, suf: Seq<u8>)
    ensures
        (pre + seq![114u8]) + g + seq![45u8] + lo + seq![45u8] + hi + suf == pre + ((seq![114u8]
            + g) + seq![45u8] + (lo + seq![45u8] + hi)) + suf,
{
    assert((pre + seq![114u8]) + g + seq![45u8] + lo + seq![45u8] + hi + suf =~= pre + ((seq![
        114u8,
    ] + g) + seq![45u8] + (lo + seq![45u8] + hi)) + suf);
}

proof fn lemma_split_at_dash(digits: Seq<u8>, tail: Seq<u8>)
    requires
        forall|k: int| 0 <= k < digits.len() ==> digits[k] != 45,
    ensures
        ({
            let gen = seq![114u8] + digits;
            let body = gen + seq![45u8] + tail;
            &&& position(body, 45) == Some(gen.len())
            &&& body.subrange(0, gen.len() as int) == gen
            &&& body.subrange(gen.len() as int + 1, body.len() as int) == tail
            &&& gen.subrange(1, gen.len() as int) == digits
        }),
{
    let gen = seq![114u8] + digits;
    let body = gen + seq![45u8] + tail;
    assert forall|k: int| 0 <= k < gen.len() implies gen[k] != 45 by {
        if k > 0 {
            assert(gen[k] == digits[k - 1]);
        }
    }
    let rest = seq![45u8] + tail;
    assert(rest[0] == 45);
    assert(body =~= gen + rest);
    lemma_position_append(gen, rest, 45);
    assert(body.subrange(0, gen.len() as int) =~= gen);
    assert(body.subrange(gen.len() as int + 1, body.len() as int) =~= tail);
    assert(gen.subrange(1, gen.len() as int) =~= digits);
}

/// What a name can be when it begins and ends as a part does.
proof fn lemma_part_body(name: Seq<u8>)
    ensures
        part_shape(name) ==> bytes::starts_with(name, encode_utf8("part-"@)) && {
            let rest = name.subrange(encode_utf8("part-"@).len() as int, name.len() as int);
            bytes::ends_with(rest, encode_utf8(".part"@))
        },
{
    if exists|seq: u64| name == #[trigger] part_name(seq) {
        let seq = choose|seq: u64| name == #[trigger] part_name(seq);
        lemma_part_fields(seq);
    }
    if exists|lo: u64, hi: u64| name == #[trigger] range_name(lo, hi) {
        let (lo, hi) = choose|lo: u64, hi: u64| name == #[trigger] range_name(lo, hi);
        lemma_range_fields(lo, hi);
    }
    if exists|g: u32, lo: u64, hi: u64|
        1 <= g <= MAX_FOLD_GENERATION && name == #[trigger] refold_name(g, lo, hi) {
        let (g, lo, hi) = choose|g: u32, lo: u64, hi: u64|
            1 <= g <= MAX_FOLD_GENERATION && name == #[trigger] refold_name(g, lo, hi);
        lemma_refold_fields(g, lo, hi);
    }
}

/// Whether a name has the canonical form of some part.
pub fn canonical_part_member_shape(name: &str) -> (r: bool)
    ensures
        r == part_shape(encode_utf8(name@)),
{
    let b = name.as_bytes();
    proof {
        lemma_part_body(b@);
    }
    let rest = match bytes::strip_prefix(b, "part-".as_bytes()) {
        Some(rest) => rest,
        None => {
            return false;
        },
    };
    let body = match bytes::strip_suffix(rest, ".part".as_bytes()) {
        Some(body) => body,
        None => {
            return false;
        },
    };
    let ghost full = b@;
    let ghost pre = encode_utf8("part-"@).len() as int;
    let ghost suf = encode_utf8(".part"@).len() as int;
    match find_byte(body, 45) {
        None => {
            proof {
                if exists|lo: u64, hi: u64| full == #[trigger] range_name(lo, hi) {
                    let (lo, hi) = choose|lo: u64, hi: u64| full == #[trigger] range_name(lo, hi);
                    lemma_range_fields(lo, hi);
                    assert(body@ == eight(lo) + seq![45u8] + eight(hi));
                }
                if exists|g: u32, lo: u64, hi: u64|
                    1 <= g <= MAX_FOLD_GENERATION && full == #[trigger] refold_name(g, lo, hi) {
                    let (g, lo, hi) = choose|g: u32, lo: u64, hi: u64|
                        1 <= g <= MAX_FOLD_GENERATION && full == #[trigger] refold_name(g, lo, hi);
                    lemma_refold_fields(g, lo, hi);
                    assert(body@ == seq![114u8] + four(g as u64) + seq![45u8] + (eight(lo)
                        + seq![45u8] + eight(hi)));
                }
                if exists|seq: u64| full == #[trigger] part_name(seq) {
                    let seq = choose|seq: u64| full == #[trigger] part_name(seq);
                    lemma_part_fields(seq);
                    assert(body@ == eight(seq));
                }
            }
            match parse_u64(body) {
                Some(seq) => bytes::bytes_eq(b, part_bytes(seq).as_slice()),
                None => false,
            }
        },
        Some(at) => {
            let first = slice_subrange(body, 0, at);
            let end: usize = body.len();
            let second = slice_subrange(body, at + 1, end);
            proof {
                if exists|seq: u64| full == #[trigger] part_name(seq) {
                    let seq = choose|seq: u64| full == #[trigger] part_name(seq);
                    lemma_part_fields(seq);
                    assert(body@ == eight(seq));
                }
            }
            match find_byte(second, 45) {
                None => {
                    proof {
                        if exists|g: u32, lo: u64, hi: u64|
                            1 <= g <= MAX_FOLD_GENERATION && full == #[trigger] refold_name(
                                g,
                                lo,
                                hi,
                            ) {
                            let (g, lo, hi) = choose|g: u32, lo: u64, hi: u64|
                                1 <= g <= MAX_FOLD_GENERATION && full == #[trigger] refold_name(
                                    g,
                                    lo,
                                    hi,
                                );
                            lemma_refold_fields(g, lo, hi);
                            assert(body@ == seq![114u8] + four(g as u64) + seq![45u8] + (eight(lo)
                                + seq![45u8] + eight(hi)));
                        }
                        if exists|lo: u64, hi: u64| full == #[trigger] range_name(lo, hi) {
                            let (lo, hi) = choose|lo: u64, hi: u64|
                                full == #[trigger] range_name(lo, hi);
                            lemma_range_fields(lo, hi);
                            assert(body@ == eight(lo) + seq![45u8] + eight(hi));
                        }
                    }
                    match (parse_u64(first), parse_u64(second)) {
                        (Some(lo), Some(hi)) => bytes::bytes_eq(
                            b,
                            range_bytes(lo, hi).as_slice(),
                        ),
                        _ => false,
                    }
                },
                Some(dash) => {
                    let lo_text = slice_subrange(second, 0, dash);
                    let end: usize = second.len();
                    let hi_text = slice_subrange(second, dash + 1, end);
                    proof {
                        if exists|lo: u64, hi: u64| full == #[trigger] range_name(lo, hi) {
                            let (lo, hi) = choose|lo: u64, hi: u64|
                                full == #[trigger] range_name(lo, hi);
                            lemma_range_fields(lo, hi);
                            assert(body@ == eight(lo) + seq![45u8] + eight(hi));
                        }
                        if exists|g: u32, lo: u64, hi: u64|
                            1 <= g <= MAX_FOLD_GENERATION && full == #[trigger] refold_name(
                                g,
                                lo,
                                hi,
                            ) {
                            let (g, lo, hi) = choose|g: u32, lo: u64, hi: u64|
                                1 <= g <= MAX_FOLD_GENERATION && full == #[trigger] refold_name(
                                    g,
                                    lo,
                                    hi,
                                );
                            lemma_refold_fields(g, lo, hi);
                            assert(body@ == seq![114u8] + four(g as u64) + seq![45u8] + (eight(lo)
                                + seq![45u8] + eight(hi)));
                        }
                    }
                    if first.len() == 0 || first[0] != 114 {
                        return false;
                    }
                    let gen_text = slice_subrange(first, 1, first.len());
                    match (parse_u64(gen_text), parse_u64(lo_text), parse_u64(hi_text)) {
                        (Some(g), Some(lo), Some(hi)) => {
                            if g < 1 || g > MAX_FOLD_GENERATION as u64 {
                                return false;
                            }
                            bytes::bytes_eq(b, refold_bytes(g as u32, lo, hi).as_slice())
                        },
                        _ => false,
                    }
                },
            }
        },
    }
}

/// The names a manifest may give the part of an interval.
pub open spec fn part_member_allowed(
    name: Seq<u8>,
    seq_lo: u64,
    seq_hi: u64,
    fold_gen: u32,
) -> bool {
    ||| seq_lo == seq_hi && name == part_name(seq_lo)
    ||| seq_lo != seq_hi && name == range_name(seq_lo, seq_hi)
    ||| fold_gen != 0 && name == refold_name(fold_gen, seq_lo, seq_hi)
}

/// Whether a manifest may give this name to the part of this interval.
pub fn valid_part_member_name(name: &str, seq_lo: u64, seq_hi: u64, fold_gen: u32) -> (r: bool)
    ensures
        r == part_member_allowed(encode_utf8(name@), seq_lo, seq_hi, fold_gen),
{
    let b = name.as_bytes();
    let ordinary = if seq_lo == seq_hi {
        bytes::bytes_eq(b, part_bytes(seq_lo).as_slice())
    } else {
        bytes::bytes_eq(b, range_bytes(seq_lo, seq_hi).as_slice())
    };
    ordinary || (fold_gen != 0 && bytes::bytes_eq(
        b,
        refold_bytes(fold_gen, seq_lo, seq_hi).as_slice(),
    ))
}

/// A lower-case hexadecimal digit.
pub open spec fn is_hex(b: u8) -> bool {
    is_digit(b) || 97 <= b <= 102
}

/// Sixty-four lower-case hexadecimal digits.
pub open spec fn hex_digest(s: Seq<u8>) -> bool {
    s.len() == 64 && forall|i: int| 0 <= i < s.len() ==> is_hex(#[trigger] s[i])
}

fn all_hex(s: &[u8]) -> (r: bool)
    ensures
        r == forall|i: int| 0 <= i < s@.len() ==> is_hex(#[trigger] s@[i]),
{
    let mut i: usize = 0;
    while i < s.len()
        invariant
            i <= s@.len(),
            forall|k: int| 0 <= k < i ==> is_hex(#[trigger] s@[k]),
        decreases s.len() - i,
    {
        let b: u8 = s[i];
        if !((b >= 48 && b <= 57) || (b >= 97 && b <= 102)) {
            assert(!is_hex(s@[i as int]));
            return false;
        }
        i = i + 1;
    }
    true
}

/// Whether text is a BLAKE3 digest in lower-case hexadecimal.
pub fn valid_blake3_hex(value: &str) -> (r: bool)
    ensures
        r == hex_digest(encode_utf8(value@)),
{
    let b = value.as_bytes();
    b.len() == 64 && all_hex(b)
}

/// A dictionary's file name.
pub open spec fn dictionary_shape(name: Seq<u8>) -> bool {
    exists|h: Seq<u8>|
        #[trigger] hex_digest(h) && name == encode_utf8("zdict-"@) + h + encode_utf8(".zd"@)
}

/// Whether a file name is that of a dictionary.
pub fn valid_fold_dictionary_member(name: &[u8]) -> (r: bool)
    ensures
        r == dictionary_shape(name@),
{
    let ghost pre = encode_utf8("zdict-"@);
    let ghost suf = encode_utf8(".zd"@);
    proof {
        if dictionary_shape(name@) {
            let h = choose|h: Seq<u8>| #[trigger] hex_digest(h) && name@ == pre + h + suf;
            lemma_strip(pre, h, suf);
        }
    }
    let rest = match bytes::strip_prefix(name, "zdict-".as_bytes()) {
        Some(rest) => rest,
        None => {
            return false;
        },
    };
    let h = match bytes::strip_suffix(rest, ".zd".as_bytes()) {
        Some(h) => h,
        None => {
            return false;
        },
    };
    assert(name@ =~= pre + h@ + suf);
    let r = h.len() == 64 && all_hex(h);
    assert(r == hex_digest(h@));
    r
}

/// The segment number in a name made of a prefix, eight digits and a suffix.
pub open spec fn segment_number(name: Seq<u8>, prefix: Seq<u8>, suffix: Seq<u8>) -> Option<u32> {
    if bytes::starts_with(name, prefix) {
        let rest = name.subrange(prefix.len() as int, name.len() as int);
        if bytes::ends_with(rest, suffix) {
            let digits = rest.subrange(0, rest.len() - suffix.len());
            if digits.len() == 8 && all_digits(digits) {
                Some(digits_value(digits) as u32)
            } else {
                None
            }
        } else {
            None
        }
    } else {
        None
    }
}

proof fn lemma_digits_unique(a: Seq<u8>, b: Seq<u8>)
    requires
        a.len() == b.len(),
        all_digits(a),
        all_digits(b),
        digits_value(a) == digits_value(b),
    ensures
        a == b,
    decreases a.len(),
{
    if a.len() == 0 {
        assert(a =~= b);
    } else {
        let (x, y) = (a.drop_last(), b.drop_last());
        assert forall|i: int| 0 <= i < x.len() implies is_digit(#[trigger] x[i]) by {
            assert(x[i] == a[i]);
        }
        assert forall|i: int| 0 <= i < y.len() implies is_digit(#[trigger] y[i]) by {
            assert(y[i] == b[i]);
        }
        assert(is_digit(a[a.len() - 1]));
        assert(is_digit(b[b.len() - 1]));
        assert(digits_value(x) == digits_value(y) && a.last() == b.last());
        lemma_digits_unique(x, y);
        assert(a =~= x.push(a.last()));
        assert(b =~= y.push(b.last()));
    }
}

/// A segment's number and its kind determine its file name.
pub proof fn lemma_segment_number_unique(a: Seq<u8>, b: Seq<u8>, prefix: Seq<u8>, suffix: Seq<u8>)
    requires
        segment_number(a, prefix, suffix) is Some,
        segment_number(a, prefix, suffix) == segment_number(b, prefix, suffix),
    ensures
        a == b,
{
    let x = a.subrange(prefix.len() as int, a.len() as int);
    let y = b.subrange(prefix.len() as int, b.len() as int);
    let (m, n) = (
        x.subrange(0, x.len() - suffix.len()),
        y.subrange(0, y.len() - suffix.len()),
    );
    lemma_digits_bound(m);
    lemma_digits_bound(n);
    lemma_digits_unique(m, n);
    assert(x =~= m + suffix);
    assert(y =~= n + suffix);
    assert(a =~= prefix + x);
    assert(b =~= prefix + y);
}

proof fn lemma_digits_bound(s: Seq<u8>)
    requires
        all_digits(s),
    ensures
        s.len() <= 8 ==> digits_value(s) <= 99_999_999,
        s.len() <= 4 ==> digits_value(s) <= 9_999,
{
    reveal_with_fuel(digits_value, 9);
    assert(forall|i: int| 0 <= i < s.len() ==> is_digit(#[trigger] s[i]));
    if s.len() <= 8 {
        lemma_digits_bound_step(s);
    }
}

proof fn lemma_digits_bound_step(s: Seq<u8>)
    requires
        all_digits(s),
        s.len() <= 8,
    ensures
        s.len() == 0 ==> digits_value(s) == 0,
        s.len() == 1 ==> digits_value(s) <= 9,
        s.len() == 2 ==> digits_value(s) <= 99,
        s.len() == 3 ==> digits_value(s) <= 999,
        s.len() == 4 ==> digits_value(s) <= 9_999,
        s.len() == 5 ==> digits_value(s) <= 99_999,
        s.len() == 6 ==> digits_value(s) <= 999_999,
        s.len() == 7 ==> digits_value(s) <= 9_999_999,
        s.len() == 8 ==> digits_value(s) <= 99_999_999,
    decreases s.len(),
{
    if s.len() > 0 {
        assert forall|i: int| 0 <= i < s.drop_last().len() implies is_digit(
            #[trigger] s.drop_last()[i],
        ) by {
            assert(is_digit(s[i]));
        }
        assert(is_digit(s[s.len() - 1]));
        lemma_digits_bound_step(s.drop_last());
    }
}

fn parse_segment(name: &[u8], prefix: &[u8], suffix: &[u8]) -> (r: Option<u32>)
    ensures
        r == segment_number(name@, prefix@, suffix@),
{
    let rest = match bytes::strip_prefix(name, prefix) {
        Some(rest) => rest,
        None => {
            return None;
        },
    };
    let digits = match bytes::strip_suffix(rest, suffix) {
        Some(d) => d,
        None => {
            return None;
        },
    };
    if digits.len() != 8 {
        return None;
    }
    proof {
        if all_digits(digits@) {
            lemma_digits_bound(digits@);
        }
    }
    match parse_u64(digits) {
        Some(n) => Some(n as u32),
        None => None,
    }
}

/// The segment a fold file name belongs to.
pub fn parse_seg_name(file: &[u8]) -> (r: Option<u32>)
    ensures
        r == segment_number(file@, encode_utf8("seg-"@), encode_utf8(".fold"@)),
{
    parse_segment(file, "seg-".as_bytes(), ".fold".as_bytes())
}

/// The segment a block directory's file name belongs to.
pub fn fold_sidecar_member(file: &[u8]) -> (r: Option<u32>)
    ensures
        r == segment_number(file@, encode_utf8("seg-"@), encode_utf8(".dir"@)),
{
    parse_segment(file, "seg-".as_bytes(), ".dir".as_bytes())
}

/// The fold generation a member name belongs to, if it is a fold member at all.
pub open spec fn fold_generation(name: Seq<u8>) -> Option<u32> {
    match position(name, 47) {
        None => None,
        Some(k) => {
            let prefix = name.subrange(0, k as int);
            if prefix == encode_utf8("fold"@) {
                Some(0)
            } else if bytes::starts_with(prefix, encode_utf8("fold-"@)) {
                let digits = prefix.subrange(
                    encode_utf8("fold-"@).len() as int,
                    prefix.len() as int,
                );
                if digits.len() == 4 && all_digits(digits) && digits_value(digits) >= 1 {
                    Some(digits_value(digits) as u32)
                } else {
                    None
                }
            } else {
                None
            }
        },
    }
}

/// The fold generation a member name belongs to, if it is a fold member at all.
pub fn fold_generation_of_member(name: &[u8]) -> (r: Option<u32>)
    ensures
        r == fold_generation(name@),
{
    proof {
        lemma_position(name@, 47);
    }
    let at: usize = match find_byte(name, 47) {
        Some(at) => at,
        None => {
            return None;
        },
    };
    let prefix = slice_subrange(name, 0, at);
    if bytes::bytes_eq(prefix, "fold".as_bytes()) {
        return Some(0);
    }
    let digits = match bytes::strip_prefix(prefix, "fold-".as_bytes()) {
        Some(d) => d,
        None => {
            return None;
        },
    };
    if digits.len() != 4 {
        return None;
    }
    proof {
        if all_digits(digits@) {
            lemma_digits_bound(digits@);
        }
    }
    match parse_u64(digits) {
        Some(n) => if n >= 1 {
            Some(n as u32)
        } else {
            None
        },
        None => None,
    }
}

/// What follows the first slash of a name.
pub open spec fn after_slash(name: Seq<u8>) -> Seq<u8> {
    match position(name, 47) {
        Some(k) => name.subrange(k as int + 1, name.len() as int),
        None => Seq::empty(),
    }
}

/// A file a fold generation may hold.
pub open spec fn fold_file(file: Seq<u8>) -> bool {
    ||| segment_number(file, encode_utf8("seg-"@), encode_utf8(".fold"@)) is Some
    ||| segment_number(file, encode_utf8("seg-"@), encode_utf8(".dir"@)) is Some
    ||| dictionary_shape(file)
}

/// Whether a file name is one a fold generation may hold.
pub fn is_fold_file(file: &[u8]) -> (r: bool)
    ensures
        r == fold_file(file@),
{
    parse_seg_name(file).is_some() || fold_sidecar_member(file).is_some()
        || valid_fold_dictionary_member(file)
}

/// What follows the first slash of a name that has one.
pub fn member_file<'a>(name: &'a [u8]) -> (r: Option<&'a [u8]>)
    ensures
        match r {
            Some(file) => position(name@, 47) is Some && file@ == after_slash(name@),
            None => position(name@, 47) is None,
        },
{
    let end: usize = name.len();
    match find_byte(name, 47) {
        Some(at) => Some(slice_subrange(name, at + 1, end)),
        None => None,
    }
}

/// An exact fold member: a generation and a file it may hold.
pub open spec fn fold_member(name: Seq<u8>) -> bool {
    fold_generation(name) is Some && fold_file(after_slash(name))
}

/// Whether a name is that of a fold member.
pub fn exact_fold_member_name(name: &str) -> (r: bool)
    ensures
        r == fold_member(encode_utf8(name@)),
{
    let b = name.as_bytes();
    match member_file(b) {
        Some(file) => fold_generation_of_member(b).is_some() && is_fold_file(file),
        None => false,
    }
}

/// The revision a canonical retained-manifest name carries.
pub open spec fn retained_shape(name: Seq<u8>) -> bool {
    exists|commit: u64| name == #[trigger] retained_name(commit)
}

/// The number behind `MANIFEST.`, canonical or not.
pub open spec fn retained_commit(name: Seq<u8>) -> Option<u64> {
    let prefix = encode_utf8("MANIFEST."@);
    if bytes::starts_with(name, prefix) {
        digits_u64(name.subrange(prefix.len() as int, name.len() as int))
    } else {
        None
    }
}

/// A canonical retained name carries its revision.
pub proof fn lemma_retained_commit(commit: u64)
    ensures
        retained_commit(retained_name(commit)) == Some(commit),
{
    let prefix = encode_utf8("MANIFEST."@);
    let name = retained_name(commit);
    assert(name.subrange(0, prefix.len() as int) =~= prefix);
    assert(name.subrange(prefix.len() as int, name.len() as int) =~= eight(commit));
    lemma_padded_value(commit, 8);
}

/// The number behind `MANIFEST.`, canonical or not.
pub fn parse_retained(name: &[u8]) -> (r: Option<u64>)
    ensures
        r == retained_commit(name@),
{
    match bytes::strip_prefix(name, "MANIFEST.".as_bytes()) {
        Some(digits) => parse_u64(digits),
        None => None,
    }
}

/// Whether a name is the canonical name of some retained manifest.
pub fn is_retained_name(name: &[u8]) -> (r: bool)
    ensures
        r == retained_shape(name@),
{
    proof {
        if retained_shape(name@) {
            let commit = choose|commit: u64| name@ == #[trigger] retained_name(commit);
            lemma_retained_commit(commit);
        }
    }
    match parse_retained(name) {
        Some(commit) => bytes::bytes_eq(name, retained_bytes(commit).as_slice()),
        None => false,
    }
}

/// Whether a member name is a part, by its ends.
pub open spec fn part_ends(name: Seq<u8>) -> bool {
    bytes::starts_with(name, encode_utf8("part-"@)) && bytes::ends_with(
        name,
        encode_utf8(".part"@),
    )
}

/// Whether a member name is a part, by its ends.
pub fn is_part(name: &[u8]) -> (r: bool)
    ensures
        r == part_ends(name@),
{
    bytes::strip_prefix(name, "part-".as_bytes()).is_some() && bytes::strip_suffix(
        name,
        ".part".as_bytes(),
    ).is_some()
}

} // verus!
