//! Unsigned LEB128: seven value bits per byte, low bits first, the high bit set on every byte
//! but the last.

use vstd::prelude::*;

verus! {

/// Why a variable-length integer could not be read.
#[derive(Clone, Copy, Debug, PartialEq, Eq, Structural)]
pub enum VarintError {
    /// The input ended before the last byte.
    Truncated,
    /// The value does not fit in 64 bits.
    Overflow,
}

/// The encoding of `n`.
pub open spec fn varint(n: nat) -> Seq<u8>
    decreases n,
{
    if n < 128 {
        seq![n as u8]
    } else {
        seq![(n % 128 + 128) as u8] + varint(n / 128)
    }
}

/// The first value that no longer fits when `depth` bytes were already read.
pub open spec fn varint_cap(depth: nat) -> nat
    decreases 9 - depth,
{
    if depth >= 9 {
        2
    } else {
        128 * varint_cap(depth + 1)
    }
}

/// The value at the front of `s` and the number of bytes it occupies, where `depth` bytes of
/// the same integer precede `s`.
pub open spec fn read_varint(s: Seq<u8>, depth: nat) -> Result<(nat, nat), VarintError>
    decreases s.len(),
{
    if s.len() == 0 {
        Err(VarintError::Truncated)
    } else if depth >= 9 && s[0] >= 2 {
        Err(VarintError::Overflow)
    } else if s[0] < 128 {
        Ok((s[0] as nat, 1))
    } else {
        match read_varint(s.drop_first(), depth + 1) {
            Ok((high, used)) => Ok(((s[0] - 128 + 128 * high) as nat, used + 1)),
            Err(e) => Err(e),
        }
    }
}

/// A value that was read fits below the cap, and its bytes lie inside the input.
pub proof fn lemma_read_varint_bounds(s: Seq<u8>, depth: nat)
    requires
        depth <= 9,
    ensures
        read_varint(s, depth) matches Ok((v, used)) ==> v < varint_cap(depth) && 1 <= used
            <= s.len() && used <= 10 - depth,
    decreases s.len(),
{
    if s.len() > 0 && s[0] >= 128 && depth < 9 {
        lemma_read_varint_bounds(s.drop_first(), depth + 1);
    }
    if s.len() > 0 && s[0] < 128 {
        lemma_cap_at_least(depth);
    }
}

proof fn lemma_cap_at_least(depth: nat)
    requires
        depth <= 9,
    ensures
        varint_cap(depth) >= 2,
        depth < 9 ==> varint_cap(depth) >= 128,
    decreases 9 - depth,
{
    if depth < 9 {
        lemma_cap_at_least(depth + 1);
    }
}

/// The cap at the front of an integer is two to the sixty-fourth.
pub proof fn lemma_cap_is_u64()
    ensures
        varint_cap(0) == 0x1_0000_0000_0000_0000,
{
    reveal_with_fuel(varint_cap, 11);
}

/// Reading an encoded integer gives it back, whatever follows it.
pub proof fn lemma_varint_round_trip(n: nat, rest: Seq<u8>, depth: nat)
    requires
        depth <= 9,
        n < varint_cap(depth),
    ensures
        read_varint(varint(n) + rest, depth) == Ok::<(nat, nat), VarintError>(
            (n, varint(n).len()),
        ),
        varint(n).len() >= 1,
    decreases n,
{
    let s = varint(n) + rest;
    if n >= 128 {
        assert(s.drop_first() =~= varint(n / 128) + rest);
        assert(depth < 9);
        lemma_varint_round_trip(n / 128, rest, depth + 1);
    }
}

/// Bytes in the encoding of `n`.
pub open spec fn varint_len(n: nat) -> nat
    decreases n,
{
    if n < 128 {
        1
    } else {
        1 + varint_len(n / 128)
    }
}

/// The encoding has the declared length.
pub proof fn lemma_varint_len(n: nat)
    ensures
        varint(n).len() == varint_len(n),
    decreases n,
{
    if n >= 128 {
        lemma_varint_len(n / 128);
    }
}

/// A 64-bit value takes at most ten bytes.
pub proof fn lemma_varint_len_bound(n: nat)
    requires
        n < 0x1_0000_0000_0000_0000,
    ensures
        1 <= varint_len(n) <= 10,
{
    reveal_with_fuel(varint_len, 11);
}

/// Append the encoding of `n`.
pub fn put_varint(out: &mut Vec<u8>, n: u64)
    ensures
        final(out)@ == old(out)@ + varint(n as nat),
{
    let mut rest: u64 = n;
    while rest >= 128
        invariant
            old(out)@ + varint(n as nat) == out@ + varint(rest as nat),
        decreases rest,
    {
        let ghost before = out@;
        let byte: u8 = (rest % 128 + 128) as u8;
        out.push(byte);
        assert(before + varint(rest as nat) =~= out@ + varint((rest / 128) as nat));
        rest = rest / 128;
    }
    out.push(rest as u8);
}

/// Read the integer at `*at`, moving `*at` behind it.
///
/// On failure `*at` is left where it was.
pub fn get_varint(b: &[u8], at: &mut usize) -> (r: Result<u64, VarintError>)
    requires
        *old(at) <= b@.len(),
    ensures
        *final(at) <= b@.len(),
        match r {
            Ok(v) => read_varint(b@.skip(*old(at) as int), 0) == Ok::<(nat, nat), VarintError>(
                (v as nat, (*final(at) - *old(at)) as nat),
            ) && *old(at) < *final(at),
            Err(e) => read_varint(b@.skip(*old(at) as int), 0) == Err::<(nat, nat), VarintError>(
                e,
            ) && *final(at) == *old(at),
        },
{
    let start: usize = *at;
    match get_varint_from(b, start, 0) {
        Ok((v, used)) => {
            proof {
                lemma_read_varint_bounds(b@.skip(start as int), 0);
            }
            assert(start + used <= b.len());
            *at = start + used;
            Ok(v)
        },
        Err(e) => Err(e),
    }
}

fn get_varint_from(b: &[u8], at: usize, depth: u8) -> (r: Result<(u64, usize), VarintError>)
    requires
        at <= b@.len(),
        depth <= 9,
    ensures
        match r {
            Ok((v, used)) => read_varint(b@.skip(at as int), depth as nat) == Ok::<
                (nat, nat),
                VarintError,
            >((v as nat, used as nat)),
            Err(e) => read_varint(b@.skip(at as int), depth as nat) == Err::<
                (nat, nat),
                VarintError,
            >(e),
        },
    decreases 9 - depth,
{
    if at >= b.len() {
        return Err(VarintError::Truncated);
    }
    let byte: u8 = b[at];
    if depth >= 9 && byte >= 2 {
        return Err(VarintError::Overflow);
    }
    if byte < 128 {
        return Ok((byte as u64, 1));
    }
    assert(b@.skip(at as int).drop_first() =~= b@.skip(at + 1));
    match get_varint_from(b, at + 1, depth + 1) {
        Ok((high, used)) => {
            proof {
                lemma_read_varint_bounds(b@.skip(at + 1), (depth + 1) as nat);
                lemma_read_varint_bounds(b@.skip(at as int), depth as nat);
                lemma_cap_is_u64();
                lemma_cap_antitone(0, depth as nat);
            }
            Ok((((byte - 128) as u64) + 128 * high, used + 1))
        },
        Err(e) => Err(e),
    }
}

proof fn lemma_cap_antitone(a: nat, b: nat)
    requires
        a <= b <= 9,
    ensures
        varint_cap(b) <= varint_cap(a),
    decreases b - a,
{
    if a < b {
        lemma_cap_antitone(a + 1, b);
        lemma_cap_at_least(a + 1);
    }
}

} // verus!
