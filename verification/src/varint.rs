//! Variable-length integers.
//!
//! A variable-length integer occupies one to eight bytes. The number of zero
//! bits above the highest set bit of its first byte is the number of bytes
//! that follow the first one; that highest set bit is the marker. An element
//! size is the big-endian value of the bytes with the marker cleared; an
//! element identifier is the big-endian value of the bytes as they stand.

use vstd::prelude::*;
use vstd::slice::slice_subrange;
use vstd::std_specs::bits::{axiom_u8_leading_zeros, u8_leading_zeros};
use crate::error::DecodeError;

verus! {

/// The number a byte string denotes when read as a big-endian base-256
/// numeral. The empty string denotes zero.
pub open spec fn be_value(bytes: Seq<u8>) -> nat
    decreases bytes.len(),
{
    if bytes.len() == 0 {
        0
    } else {
        be_value(bytes.drop_last()) * 256 + bytes.last() as nat
    }
}

/// 256 to the power `n`: the number of byte strings of length `n`.
pub open spec fn pow256(n: nat) -> nat
    decreases n,
{
    if n == 0 {
        1
    } else {
        256 * pow256((n - 1) as nat)
    }
}

/// How many zero bits stand above the highest set bit of `b`; 8 for zero.
/// This is what `u8::leading_zeros` counts.
pub open spec fn leading_zero_bits(b: u8) -> nat {
    if b >= 0x80 {
        0
    } else if b >= 0x40 {
        1
    } else if b >= 0x20 {
        2
    } else if b >= 0x10 {
        3
    } else if b >= 0x08 {
        4
    } else if b >= 0x04 {
        5
    } else if b >= 0x02 {
        6
    } else if b >= 0x01 {
        7
    } else {
        8
    }
}

/// The highest set bit of `b`, as a byte with only that bit set; 0 for zero.
pub open spec fn marker_bit(b: u8) -> u8 {
    if b >= 0x80 {
        0x80
    } else if b >= 0x40 {
        0x40
    } else if b >= 0x20 {
        0x20
    } else if b >= 0x10 {
        0x10
    } else if b >= 0x08 {
        0x08
    } else if b >= 0x04 {
        0x04
    } else if b >= 0x02 {
        0x02
    } else if b >= 0x01 {
        0x01
    } else {
        0
    }
}

/// The width in bytes of the variable-length integer at the start of `s`.
///
/// An empty `s` needs more bytes. A first byte of zero carries no marker and
/// is rejected whatever follows it. Otherwise the first byte fixes the width,
/// and `s` needs more bytes if it is shorter than that.
pub open spec fn spec_varint_width(s: Seq<u8>) -> Result<nat, DecodeError> {
    if s.len() == 0 {
        Err(DecodeError::NeedMoreBytes)
    } else if s[0] == 0 {
        Err(DecodeError::InvalidPrefix)
    } else if s.len() < leading_zero_bits(s[0]) + 1 {
        Err(DecodeError::NeedMoreBytes)
    } else {
        Ok(leading_zero_bits(s[0]) + 1)
    }
}

/// The identifier at the start of `s`: its width and its value, which keeps
/// the marker bit.
pub open spec fn spec_vid(s: Seq<u8>) -> Result<(nat, u64), DecodeError> {
    match spec_varint_width(s) {
        Ok(width) => Ok((width, be_value(s.take(width as int)) as u64)),
        Err(e) => Err(e),
    }
}

/// The size at the start of `s`: its width and its value, which is read with
/// the marker bit of the first byte cleared.
pub open spec fn spec_vint(s: Seq<u8>) -> Result<(nat, u64), DecodeError> {
    match spec_varint_width(s) {
        Ok(width) => Ok(
            (
                width,
                be_value(s.take(width as int).update(0, (s[0] - marker_bit(s[0])) as u8)) as u64,
            ),
        ),
        Err(e) => Err(e),
    }
}

/// A byte string of length `n` denotes a number below `256^n`.
pub proof fn lemma_be_value_bound(bytes: Seq<u8>)
    ensures
        be_value(bytes) < pow256(bytes.len()),
    decreases bytes.len(),
{
    if bytes.len() > 0 {
        lemma_be_value_bound(bytes.drop_last());
    }
}

/// Reading `a` followed by `b` shifts the value of `a` left by the length of
/// `b` and adds the value of `b`.
pub proof fn lemma_be_value_concat(a: Seq<u8>, b: Seq<u8>)
    ensures
        be_value(a + b) == be_value(a) * pow256(b.len()) + be_value(b),
    decreases b.len(),
{
    if b.len() == 0 {
        assert(a + b =~= a);
        assert(be_value(a) * pow256(0) == be_value(a)) by (nonlinear_arith)
            requires
                pow256(0) == 1,
        ;
    } else {
        let n = (b.len() - 1) as nat;
        lemma_be_value_concat(a, b.drop_last());
        assert((a + b).drop_last() =~= a + b.drop_last());
        assert((be_value(a) * pow256(n) + be_value(b.drop_last())) * 256 == be_value(a) * (256
            * pow256(n)) + be_value(b.drop_last()) * 256) by (nonlinear_arith);
    }
}

/// A single byte denotes itself.
pub proof fn lemma_be_value_single(b: u8)
    ensures
        be_value(seq![b]) == b,
{
    assert(seq![b].drop_last() =~= Seq::<u8>::empty());
    reveal_with_fuel(be_value, 2);
}

/// `pow256` grows with its argument.
pub proof fn lemma_pow256_monotonic(m: nat, n: nat)
    requires
        m <= n,
    ensures
        0 < pow256(m) <= pow256(n),
    decreases n,
{
    if n == 0 {
    } else if m == n {
        lemma_pow256_monotonic(0, (n - 1) as nat);
    } else {
        lemma_pow256_monotonic(m, (n - 1) as nat);
    }
}

/// Eight bytes are what a `u64` holds.
pub proof fn lemma_pow256_eight()
    ensures
        pow256(8) == 0x1_0000_0000_0000_0000,
{
    reveal_with_fuel(pow256, 9);
}

proof fn lemma_shift_in_byte(val: u64, b: u8)
    by (bit_vector)
    requires
        val < 0x0100_0000_0000_0000u64,
    ensures
        (val << 8) | (b as u64) == val * 256 + b,
{
}

/// Folds `bytes[from..to]` into `acc`, most significant byte first.
pub(crate) fn accumulate(acc: u64, bytes: &[u8], from: usize, to: usize) -> (val: u64)
    requires
        from <= to <= bytes@.len(),
        (acc + 1) * pow256((to - from) as nat) <= pow256(8),
    ensures
        val == acc * pow256((to - from) as nat) + be_value(
            bytes@.subrange(from as int, to as int),
        ),
{
    let mut val = acc;
    let mut i = from;
    proof {
        assert(acc * pow256(0) == acc) by (nonlinear_arith)
            requires
                pow256(0) == 1,
        ;
    }
    while i < to
        invariant
            from <= i <= to <= bytes@.len(),
            (acc + 1) * pow256((to - from) as nat) <= pow256(8),
            val == acc * pow256((i - from) as nat) + be_value(
                bytes@.subrange(from as int, i as int),
            ),
        decreases to - i,
    {
        let ghost done = (i - from) as nat;
        let ghost seen = bytes@.subrange(from as int, i as int);
        let ghost next = bytes@.subrange(from as int, i + 1);
        proof {
            lemma_be_value_bound(seen);
            lemma_pow256_monotonic(done + 1, (to - from) as nat);
            lemma_pow256_eight();
            assert(next.drop_last() =~= seen);
            assert(val < 0x0100_0000_0000_0000u64) by (nonlinear_arith)
                requires
                    val < acc * pow256(done) + pow256(done),
                    256 * pow256(done) <= pow256((to - from) as nat),
                    (acc + 1) * pow256((to - from) as nat) <= 0x1_0000_0000_0000_0000,
            ;
            lemma_shift_in_byte(val, bytes@[i as int]);
            assert(acc * pow256(done) * 256 == acc * (256 * pow256(done))) by (nonlinear_arith);
        }
        val = (val << 8) | bytes[i] as u64;
        i += 1;
    }
    val
}

/// What `u8::leading_zeros` computes is `leading_zero_bits`, and flipping the
/// bit it points at takes the marker away.
pub proof fn lemma_leading_zeros(b: u8)
    ensures
        u8_leading_zeros(b) == leading_zero_bits(b),
        b != 0 ==> b ^ (1u8 << ((7 - u8_leading_zeros(b)) as u32)) == b - marker_bit(b),
{
    axiom_u8_leading_zeros(b);
    let z = u8_leading_zeros(b) as u8;
    assert(z < 8 && (b >> ((7u8 - z) as u8)) & 1u8 != 0u8 && (b >> ((8u8 - z) as u8)) == 0u8 ==> {
        &&& (z == 0 ==> 0x80 <= b)
        &&& (z == 1 ==> 0x40 <= b < 0x80)
        &&& (z == 2 ==> 0x20 <= b < 0x40)
        &&& (z == 3 ==> 0x10 <= b < 0x20)
        &&& (z == 4 ==> 0x08 <= b < 0x10)
        &&& (z == 5 ==> 0x04 <= b < 0x08)
        &&& (z == 6 ==> 0x02 <= b < 0x04)
        &&& (z == 7 ==> 0x01 <= b < 0x02)
    }) by (bit_vector);
    assert({
        &&& (0x80 <= b ==> b ^ (1u8 << 7u32) == b - 0x80)
        &&& (0x40 <= b < 0x80 ==> b ^ (1u8 << 6u32) == b - 0x40)
        &&& (0x20 <= b < 0x40 ==> b ^ (1u8 << 5u32) == b - 0x20)
        &&& (0x10 <= b < 0x20 ==> b ^ (1u8 << 4u32) == b - 0x10)
        &&& (0x08 <= b < 0x10 ==> b ^ (1u8 << 3u32) == b - 0x08)
        &&& (0x04 <= b < 0x08 ==> b ^ (1u8 << 2u32) == b - 0x04)
        &&& (0x02 <= b < 0x04 ==> b ^ (1u8 << 1u32) == b - 0x02)
        &&& (0x01 <= b < 0x02 ==> b ^ (1u8 << 0u32) == b - 0x01)
    }) by (bit_vector);
}

/// A size whose first byte has its high bit set occupies that one byte, and
/// its value is the byte without the high bit.
pub proof fn lemma_vint_one_byte(s: Seq<u8>)
    requires
        s.len() > 0,
        s[0] >= 0x80,
    ensures
        spec_vint(s) == Ok::<(nat, u64), DecodeError>((1, (s[0] - 0x80) as u64)),
        s[0] - 0x80 == s[0] & 0x7F,
{
    let b = s[0];
    let low = (b - 0x80) as u8;
    assert(s.take(1).update(0, low) =~= seq![low]);
    lemma_be_value_single(low);
    assert(b >= 0x80 ==> b - 0x80 == b & 0x7F) by (bit_vector);
}

/// A first byte of zero is rejected as a size and as an identifier, whatever
/// follows it.
pub proof fn lemma_zero_prefix(s: Seq<u8>)
    requires
        s.len() > 0,
        s[0] == 0,
    ensures
        spec_vint(s) == Err::<(nat, u64), DecodeError>(DecodeError::InvalidPrefix),
        spec_vid(s) == Err::<(nat, u64), DecodeError>(DecodeError::InvalidPrefix),
{
}

/// What is in front of a variable-length integer decides how it is read;
/// what comes after it does not.
pub proof fn lemma_varint_prefix(s: Seq<u8>, t: Seq<u8>)
    requires
        spec_varint_width(s) is Ok,
    ensures
        spec_vid(s + t) == spec_vid(s),
        spec_vint(s + t) == spec_vint(s),
{
    let width = spec_varint_width(s)->Ok_0;
    assert((s + t)[0] == s[0]);
    assert((s + t).take(width as int) =~= s.take(width as int));
}

/// An invalid prefix stays one however many bytes are supplied after it.
pub proof fn lemma_invalid_prefix_is_final(s: Seq<u8>, t: Seq<u8>)
    requires
        spec_varint_width(s) == Err::<nat, DecodeError>(DecodeError::InvalidPrefix),
    ensures
        spec_vid(s + t) == Err::<(nat, u64), DecodeError>(DecodeError::InvalidPrefix),
        spec_vint(s + t) == Err::<(nat, u64), DecodeError>(DecodeError::InvalidPrefix),
{
    assert((s + t)[0] == s[0]);
}

/// Input that needs more bytes is the start of input that can be read: eight
/// more bytes, none of them zero, are always enough.
pub proof fn lemma_more_bytes_are_enough(s: Seq<u8>, t: Seq<u8>)
    requires
        spec_varint_width(s) == Err::<nat, DecodeError>(DecodeError::NeedMoreBytes),
        t.len() >= 8,
        t[0] != 0,
    ensures
        spec_vid(s + t) is Ok,
        spec_vint(s + t) is Ok,
{
    if s.len() > 0 {
        assert((s + t)[0] == s[0]);
    } else {
        assert((s + t)[0] == t[0]);
    }
}

/// An identifier and a size occupy between one and eight bytes, all of them
/// bytes of the input.
pub proof fn lemma_varint_width(s: Seq<u8>)
    ensures
        spec_vid(s) matches Ok((width, _)) ==> 1 <= width <= 8 && width <= s.len(),
        spec_vint(s) matches Ok((width, _)) ==> 1 <= width <= 8 && width <= s.len(),
        spec_vid(s) is Ok <==> spec_vint(s) is Ok,
        spec_vid(s) is Ok ==> spec_vid(s)->Ok_0.0 == spec_vint(s)->Ok_0.0,
{
}

/// The identifier keeps the marker bit that the size drops: read from the
/// same `width` bytes, the two differ by the marker of the first byte shifted
/// to the top of the value.
pub proof fn lemma_marker_kept(s: Seq<u8>)
    requires
        spec_varint_width(s) is Ok,
    ensures
        spec_vid(s)->Ok_0.1 == spec_vint(s)->Ok_0.1 + marker_bit(s[0]) * pow256(
            (spec_varint_width(s)->Ok_0 - 1) as nat,
        ),
{
    let width = spec_varint_width(s)->Ok_0;
    let tail = s.subrange(1, width as int);
    let low = (s[0] - marker_bit(s[0])) as u8;
    let whole = s.take(width as int);
    let cleared = whole.update(0, low);
    assert(seq![s[0]] + tail =~= whole);
    assert(seq![low] + tail =~= cleared);
    lemma_be_value_concat(seq![s[0]], tail);
    lemma_be_value_concat(seq![low], tail);
    lemma_be_value_single(s[0]);
    lemma_be_value_single(low);
    lemma_be_value_bound(whole);
    lemma_be_value_bound(cleared);
    lemma_pow256_monotonic(width, 8);
    lemma_pow256_eight();
    assert(s[0] * pow256(tail.len()) == low * pow256(tail.len()) + marker_bit(s[0]) * pow256(
        tail.len(),
    )) by (nonlinear_arith)
        requires
            s[0] == low + marker_bit(s[0]),
    ;
}

/// Decodes the element identifier at the start of `input`.
///
/// Returns the identifier, marker bit included, and the bytes after it.
pub fn vid<'a>(input: &'a [u8]) -> (r: Result<(&'a [u8], u64), DecodeError>)
    ensures
        match spec_vid(input@) {
            Ok((width, value)) => r matches Ok((rest, v)) && rest@ == input@.skip(width as int)
                && v == value,
            Err(e) => r matches Err(x) && x == e,
        },
{
    if input.len() == 0 {
        return Err(DecodeError::NeedMoreBytes);
    }
    let v = input[0];
    let len = v.leading_zeros();
    proof {
        lemma_leading_zeros(v);
    }
    if len == 8 {
        return Err(DecodeError::InvalidPrefix);
    }
    if input.len() <= len as usize {
        return Err(DecodeError::NeedMoreBytes);
    }
    let width = len as usize + 1;
    proof {
        let tail = input@.subrange(1, width as int);
        lemma_pow256_monotonic(len as nat, 7);
        lemma_pow256_eight();
        assert((v + 1) * pow256(len as nat) <= pow256(8)) by (nonlinear_arith)
            requires
                v + 1 <= 256,
                pow256(len as nat) <= pow256(7),
                pow256(8) == 256 * pow256(7),
        ;
        lemma_be_value_concat(seq![v], tail);
        lemma_be_value_single(v);
        assert(seq![v] + tail =~= input@.take(width as int));
        lemma_be_value_bound(input@.take(width as int));
        lemma_pow256_monotonic(width as nat, 8);
    }
    let val = accumulate(v as u64, input, 1, width);
    Ok((slice_subrange(input, width, input.len()), val))
}

/// Decodes the element size at the start of `input`.
///
/// Returns the size, marker bit cleared, and the bytes after it. The same
/// encoding carries any other unsigned value that announces its own width.
pub fn vint<'a>(input: &'a [u8]) -> (r: Result<(&'a [u8], u64), DecodeError>)
    ensures
        match spec_vint(input@) {
            Ok((width, value)) => r matches Ok((rest, v)) && rest@ == input@.skip(width as int)
                && v == value,
            Err(e) => r matches Err(x) && x == e,
        },
{
    if input.len() == 0 {
        return Err(DecodeError::NeedMoreBytes);
    }
    let v = input[0];
    let len = v.leading_zeros();
    proof {
        lemma_leading_zeros(v);
    }
    if len == 8 {
        return Err(DecodeError::InvalidPrefix);
    }
    if input.len() <= len as usize {
        return Err(DecodeError::NeedMoreBytes);
    }
    let width = len as usize + 1;
    let first = v ^ (1u8 << (7 - len));
    proof {
        let tail = input@.subrange(1, width as int);
        let cleared = input@.take(width as int).update(0, first);
        lemma_pow256_monotonic(len as nat, 7);
        lemma_pow256_eight();
        assert((first + 1) * pow256(len as nat) <= pow256(8)) by (nonlinear_arith)
            requires
                first + 1 <= 256,
                pow256(len as nat) <= pow256(7),
                pow256(8) == 256 * pow256(7),
        ;
        lemma_be_value_concat(seq![first], tail);
        lemma_be_value_single(first);
        assert(seq![first] + tail =~= cleared);
        lemma_be_value_bound(cleared);
        lemma_pow256_monotonic(width as nat, 8);
    }
    let val = accumulate(first as u64, input, 1, width);
    Ok((slice_subrange(input, width, input.len()), val))
}

} // verus!
