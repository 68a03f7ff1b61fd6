//! Numbers as text: hexadecimal digests and zero-padded decimal names.
//!
//! All of it is ASCII, so each form is stated as the bytes of its UTF-8 encoding.

use crate::bytes;
use vstd::prelude::*;
use vstd::utf8::*;

verus! {

/// The lower-case hexadecimal digit of `n`.
pub open spec fn hex_digit(n: int) -> u8 {
    if n < 10 {
        (48 + n) as u8
    } else {
        (87 + n) as u8
    }
}

/// Two lower-case hexadecimal digits per byte, high digit first.
pub open spec fn hex(bytes: Seq<u8>) -> Seq<u8> {
    Seq::new(
        2 * bytes.len(),
        |i: int|
            hex_digit(
                if i % 2 == 0 {
                    bytes[i / 2] as int / 16
                } else {
                    bytes[i / 2] as int % 16
                },
            ),
    )
}

/// The four bytes of `v`, most significant first.
pub open spec fn big_endian(v: u32) -> Seq<u8> {
    seq![
        (v / 0x100_0000) as u8,
        (v / 0x1_0000 % 0x100) as u8,
        (v / 0x100 % 0x100) as u8,
        (v % 0x100) as u8,
    ]
}

/// Decimal digits of `n`, without leading zeros.
pub open spec fn decimal(n: nat) -> Seq<u8>
    decreases n,
{
    if n < 10 {
        seq![(48 + n) as u8]
    } else {
        decimal(n / 10).push((48 + n % 10) as u8)
    }
}

/// `digits` with zeros in front up to `width` digits.
pub open spec fn zero_padded(digits: Seq<u8>, width: nat) -> Seq<u8> {
    if digits.len() >= width {
        digits
    } else {
        Seq::new((width - digits.len()) as nat, |i: int| 48u8) + digits
    }
}

/// The text of ASCII bytes.
pub open spec fn chars(bytes: Seq<u8>) -> Seq<char> {
    Seq::new(bytes.len(), |i: int| bytes[i] as char)
}

/// Every byte is ASCII.
pub open spec fn all_ascii(bytes: Seq<u8>) -> bool {
    forall|i: int| 0 <= i < bytes.len() ==> #[trigger] bytes[i] < 128
}

/// ASCII bytes are the encoding of their text.
pub proof fn lemma_chars(bytes: Seq<u8>)
    requires
        all_ascii(bytes),
    ensures
        encode_utf8(chars(bytes)) == bytes,
{
    let t = chars(bytes);
    assert(is_ascii_chars(t));
    is_ascii_chars_encode_utf8(t);
    assert(encode_utf8(t) =~= bytes);
}

/// Hexadecimal digits are ASCII.
pub proof fn lemma_hex_ascii(bytes: Seq<u8>)
    ensures
        all_ascii(hex(bytes)),
{
    assert forall|i: int| 0 <= i < hex(bytes).len() implies #[trigger] hex(bytes)[i] < 128 by {
        let b = bytes[i / 2] as int;
        assert(0 <= b / 16 < 16 && 0 <= b % 16 < 16);
    }
}

/// Decimal digits are digits.
pub proof fn lemma_decimal_digits(n: nat)
    ensures
        decimal(n).len() >= 1,
        forall|i: int| 0 <= i < decimal(n).len() ==> 48 <= #[trigger] decimal(n)[i] <= 57,
    decreases n,
{
    if n >= 10 {
        lemma_decimal_digits(n / 10);
    }
}

/// Text whose UTF-8 bytes are the given ASCII bytes.
pub fn ascii_text(bytes: &[u8]) -> (s: String)
    requires
        all_ascii(bytes@),
    ensures
        encode_utf8(s@) == bytes@,
        s@ == chars(bytes@),
{
    proof {
        lemma_chars(bytes@);
        encode_utf8_valid_utf8(chars(bytes@));
    }
    let s = bytes::utf8_text(bytes).unwrap();
    proof {
        bytes::lemma_utf8_injective(s@, chars(bytes@));
    }
    s
}

fn hex_byte(n: u8) -> (r: u8)
    requires
        n < 16,
    ensures
        r == hex_digit(n as int),
{
    if n < 10 {
        48 + n
    } else {
        87 + n
    }
}

/// The hexadecimal form of `bytes`.
pub fn hex_bytes(bytes: &[u8]) -> (r: Vec<u8>)
    ensures
        r@ == hex(bytes@),
{
    let mut out: Vec<u8> = Vec::new();
    let mut i: usize = 0;
    while i < bytes.len()
        invariant
            i <= bytes@.len(),
            out@.len() == 2 * i,
            forall|j: int| 0 <= j < 2 * i ==> #[trigger] out@[j] == hex(bytes@)[j],
        decreases bytes.len() - i,
    {
        let b: u8 = bytes[i];
        out.push(hex_byte(b / 16));
        out.push(hex_byte(b % 16));
        assert((2 * i) / 2 == i as int && (2 * i + 1) / 2 == i as int && (2 * i) % 2 == 0 && (2 * i
            + 1) % 2 == 1);
        i = i + 1;
    }
    assert(out@ =~= hex(bytes@));
    out
}

/// The hexadecimal form of `bytes` as text.
pub fn hex_text(bytes: &[u8]) -> (s: String)
    ensures
        encode_utf8(s@) == hex(bytes@),
        s@ == chars(hex(bytes@)),
{
    proof {
        lemma_hex_ascii(bytes@);
    }
    let b = hex_bytes(bytes);
    ascii_text(b.as_slice())
}

/// The four bytes of `v`, most significant first.
pub fn big_endian_bytes(v: u32) -> (r: Vec<u8>)
    ensures
        r@ == big_endian(v),
{
    let mut out: Vec<u8> = Vec::new();
    out.push((v / 0x100_0000) as u8);
    out.push((v / 0x1_0000 % 0x100) as u8);
    out.push((v / 0x100 % 0x100) as u8);
    out.push((v % 0x100) as u8);
    assert(out@ =~= big_endian(v));
    out
}

pub(crate) fn decimal_bytes(n: u64) -> (r: Vec<u8>)
    ensures
        r@ == decimal(n as nat),
    decreases n,
{
    if n < 10 {
        let mut out: Vec<u8> = Vec::new();
        out.push(48 + n as u8);
        assert(out@ =~= decimal(n as nat));
        out
    } else {
        let mut out = decimal_bytes(n / 10);
        out.push(48 + (n % 10) as u8);
        out
    }
}

/// Append `n` in decimal, zero-padded to `width` digits.
pub fn put_padded(out: &mut Vec<u8>, n: u64, width: usize)
    ensures
        final(out)@ == old(out)@ + zero_padded(decimal(n as nat), width as nat),
{
    let digits = decimal_bytes(n);
    let ghost before = out@;
    let mut i: usize = digits.len();
    while i < width
        invariant
            digits@ == decimal(n as nat),
            digits@.len() <= i,
            i <= width || i == digits@.len(),
            out@ == before + Seq::new((i - digits@.len()) as nat, |k: int| 48u8),
        decreases width - i,
    {
        out.push(48);
        assert(out@ =~= before + Seq::new((i + 1 - digits@.len()) as nat, |k: int| 48u8));
        i = i + 1;
    }
    bytes::append_bytes(out, digits.as_slice());
    assert(out@ =~= before + zero_padded(decimal(n as nat), width as nat));
}

} // verus!
