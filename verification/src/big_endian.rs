//! Big-endian integers.
use vstd::arithmetic::power::{lemma_pow_increases, pow};
use vstd::prelude::*;

verus! {

/// The number whose digits to the base 256 are `bytes`, the most significant
/// one first.
pub open spec fn be_value(bytes: Seq<u8>) -> nat
    decreases bytes.len(),
{
    if bytes.len() == 0 {
        0
    } else {
        256 * be_value(bytes.drop_last()) + bytes.last() as nat
    }
}

/// The last `width` digits of `value` to the base 256, the most significant one
/// first.
pub open spec fn be_bytes(value: nat, width: nat) -> Seq<u8>
    decreases width,
{
    if width == 0 {
        Seq::empty()
    } else {
        be_bytes(value / 256, (width - 1) as nat).push((value % 256) as u8)
    }
}

/// The signed number that 32 bits stand for, in two's complement.
pub open spec fn signed_value(bits: nat) -> int {
    if bits < 0x8000_0000 {
        bits as int
    } else {
        bits - 0x1_0000_0000
    }
}

/// The 32 bits that stand for a signed number, in two's complement.
pub open spec fn signed_bits(value: i32) -> nat {
    if value >= 0 {
        value as nat
    } else {
        (value + 0x1_0000_0000) as nat
    }
}

/// `width` digits are less than the `width`-th power of the base.
pub proof fn lemma_be_value_bound(bytes: Seq<u8>)
    ensures
        be_value(bytes) < pow(256, bytes.len()),
    decreases bytes.len(),
{
    reveal(pow);
    if bytes.len() > 0 {
        lemma_be_value_bound(bytes.drop_last());
    }
}

/// [`be_bytes`] has the width that was asked for.
pub proof fn lemma_be_bytes_len(value: nat, width: nat)
    ensures
        be_bytes(value, width).len() == width,
    decreases width,
{
    if width > 0 {
        lemma_be_bytes_len(value / 256, (width - 1) as nat);
    }
}

/// Reading back the digits of a number that fits gives the number.
pub proof fn lemma_read_what_was_written(value: nat, width: nat)
    requires
        value < pow(256, width),
    ensures
        be_value(be_bytes(value, width)) == value,
    decreases width,
{
    reveal(pow);
    if width > 0 {
        let rest = (width - 1) as nat;
        assert(pow(256, width) == 256 * pow(256, rest));
        lemma_read_what_was_written(value / 256, rest);
        assert(be_bytes(value, width).drop_last() =~= be_bytes(value / 256, rest));
    }
}

/// Writing the number that some digits stand for gives the digits.
pub proof fn lemma_write_what_was_read(bytes: Seq<u8>)
    ensures
        be_bytes(be_value(bytes), bytes.len()) == bytes,
    decreases bytes.len(),
{
    if bytes.len() > 0 {
        lemma_write_what_was_read(bytes.drop_last());
        let value = be_value(bytes);
        assert(value / 256 == be_value(bytes.drop_last()));
        assert(value % 256 == bytes.last() as nat);
        assert(be_bytes(value, bytes.len()) =~= bytes);
    } else {
        assert(be_bytes(be_value(bytes), bytes.len()) =~= bytes);
    }
}

/// The number that up to eight digits to the base 256 stand for.
pub fn read_be(bytes: &[u8]) -> (value: u64)
    requires
        bytes@.len() <= 8,
    ensures
        value == be_value(bytes@),
{
    let mut value: u64 = 0;
    let mut i: usize = 0;
    while i < bytes.len()
        invariant
            i <= bytes@.len() <= 8,
            value == be_value(bytes@.take(i as int)),
        decreases bytes@.len() - i,
    {
        proof {
            let seen = bytes@.take(i as int);
            lemma_be_value_bound(seen);
            lemma_pow_increases(256, i as nat, 7);
            assert(pow(256, 7) == 0x100_0000_0000_0000) by {
                reveal(pow);
                reveal_with_fuel(pow, 8);
            }
            assert(bytes@.take(i + 1).drop_last() =~= seen);
        }
        value = value * 256 + bytes[i] as u64;
        i = i + 1;
    }
    assert(bytes@.take(i as int) =~= bytes@);
    value
}

/// The signed number that 32 bits stand for.
pub fn signed(bits: u32) -> (value: i32)
    ensures
        value == signed_value(bits as nat),
{
    if bits < 0x8000_0000 {
        bits as i32
    } else {
        -((0xffff_ffff - bits) as i32) - 1
    }
}

/// Appends the four digits of a 32-bit number.
pub fn write_be_u32(out: &mut Vec<u8>, value: u32)
    ensures
        final(out)@ == old(out)@ + be_bytes(value as nat, 4),
{
    proof {
        reveal_with_fuel(be_bytes, 5);
    }
    out.push((value / 0x100_0000) as u8);
    out.push((value / 0x1_0000 % 256) as u8);
    out.push((value / 0x100 % 256) as u8);
    out.push((value % 256) as u8);
    assert(out@ =~= old(out)@ + be_bytes(value as nat, 4));
}

/// A number that is written in two parts, the upper one first, is the upper part
/// moved up by the width of the lower part, and the lower part. One byte is its
/// own number, and no byte is zero.
pub proof fn lemma_be_value_in_parts(upper: Seq<u8>, lower: Seq<u8>, byte: u8)
    ensures
        be_value(upper + lower) == be_value(upper) * pow(256, lower.len()) + be_value(lower),
        be_value(seq![byte]) == byte,
        be_value(Seq::empty()) == 0,
    decreases lower.len(),
{
    reveal(pow);
    assert(seq![byte].drop_last() =~= Seq::empty());
    assert(be_value(seq![byte]) == byte) by {
        reveal_with_fuel(be_value, 2);
    }
    if lower.len() > 0 {
        let rest = lower.drop_last();
        let width = rest.len();
        lemma_be_value_in_parts(upper, rest, byte);
        assert((upper + lower).drop_last() =~= upper + rest);
        let high = be_value(upper) as int;
        let scale = pow(256, width);
        assert(256 * (high * scale) == high * (256 * scale)) by (nonlinear_arith);
    } else {
        assert(upper + lower =~= upper);
    }
}

/// Four bytes weigh 2^24, 2^16, 2^8 and 1.
pub proof fn lemma_four_bytes(bytes: Seq<u8>)
    requires
        bytes.len() == 4,
    ensures
        be_value(bytes) == bytes[0] * 0x100_0000 + bytes[1] * 0x1_0000 + bytes[2] * 0x100 + bytes[3],
{
    reveal_with_fuel(be_value, 5);
    let three = bytes.drop_last();
    let two = three.drop_last();
    let one = two.drop_last();
    assert(one.drop_last() =~= Seq::empty());
    assert(be_value(one) == bytes[0]);
    assert(be_value(two) == bytes[0] * 0x100 + bytes[1]);
    assert(be_value(three) == bytes[0] * 0x1_0000 + bytes[1] * 0x100 + bytes[2]);
}

/// Eight bytes weigh 2^56, 2^48, and so on down to 1.
pub proof fn lemma_eight_bytes(bytes: Seq<u8>)
    requires
        bytes.len() == 8,
    ensures
        be_value(bytes) == bytes[0] * 0x100_0000_0000_0000 + bytes[1] * 0x1_0000_0000_0000 + bytes[2]
            * 0x100_0000_0000 + bytes[3] * 0x1_0000_0000 + bytes[4] * 0x100_0000 + bytes[5]
            * 0x1_0000 + bytes[6] * 0x100 + bytes[7],
{
    let upper = bytes.take(4);
    let lower = bytes.skip(4);
    assert(upper + lower =~= bytes);
    lemma_be_value_in_parts(upper, lower, 0);
    lemma_four_bytes(upper);
    lemma_four_bytes(lower);
    assert(pow(256, 4) == 0x1_0000_0000) by {
        reveal(pow);
        reveal_with_fuel(pow, 5);
    }
}

/// A 32-bit number is written in four bytes that weigh 2^24, 2^16, 2^8 and 1 and
/// add up to it.
pub proof fn lemma_written_in_four_bytes(value: u32)
    ensures
        be_bytes(value as nat, 4).len() == 4,
        ({
            let bytes = be_bytes(value as nat, 4);
            value == bytes[0] * 0x100_0000 + bytes[1] * 0x1_0000 + bytes[2] * 0x100 + bytes[3]
        }),
{
    lemma_be_bytes_len(value as nat, 4);
    assert(pow(256, 4) == 0x1_0000_0000) by {
        reveal(pow);
        reveal_with_fuel(pow, 5);
    }
    lemma_read_what_was_written(value as nat, 4);
    lemma_four_bytes(be_bytes(value as nat, 4));
}

/// In two's complement the signed number and its bits differ by a multiple of
/// 2^32, in both directions, and each stays in its range.
pub proof fn lemma_twos_complement(bits: u32, value: i32)
    ensures
        -0x8000_0000 <= signed_value(bits as nat) < 0x8000_0000,
        (signed_value(bits as nat) - bits) % 0x1_0000_0000 == 0,
        0 <= signed_bits(value) < 0x1_0000_0000,
        (signed_bits(value) - value) % 0x1_0000_0000 == 0,
{
}

} // verus!
