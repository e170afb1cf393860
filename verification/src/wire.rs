//! Numbers as bytes, the most significant byte first.

use vstd::prelude::*;

verus! {

/// How many numbers a number of bytes can hold.
pub open spec fn span_of(width: nat) -> nat
    decreases width,
{
    if width == 0 {
        1
    } else {
        256 * span_of((width - 1) as nat)
    }
}

/// The bytes of a number.
pub open spec fn big_endian(value: nat, width: nat) -> Seq<u8>
    decreases width,
{
    if width == 0 {
        Seq::empty()
    } else {
        big_endian(value / 256, (width - 1) as nat).push((value % 256) as u8)
    }
}

/// The number that bytes stand for.
pub open spec fn number_of(bytes: Seq<u8>) -> nat
    decreases bytes.len(),
{
    if bytes.len() == 0 {
        0
    } else {
        number_of(bytes.drop_last()) * 256 + bytes.last() as nat
    }
}

/// A number has as many bytes as were asked for.
pub proof fn lemma_big_endian_len(value: nat, width: nat)
    ensures
        big_endian(value, width).len() == width,
    decreases width,
{
    if width > 0 {
        lemma_big_endian_len(value / 256, (width - 1) as nat);
    }
}

/// Bytes stand for a number that they can hold.
pub proof fn lemma_number_bound(bytes: Seq<u8>)
    ensures
        number_of(bytes) < span_of(bytes.len()),
    decreases bytes.len(),
{
    if bytes.len() > 0 {
        lemma_number_bound(bytes.drop_last());
    }
}

/// The bytes of a number that they can hold stand for that number.
pub proof fn law_number_round_trip(value: nat, width: nat)
    requires
        value < span_of(width),
    ensures
        number_of(big_endian(value, width)) == value,
    decreases width,
{
    if width > 0 {
        let bytes = big_endian(value, width);
        let high = big_endian(value / 256, (width - 1) as nat);
        law_number_round_trip(value / 256, (width - 1) as nat);
        assert(bytes.drop_last() =~= high);
        assert(bytes.last() == (value % 256) as u8);
    }
}

/// Appends the bytes of a number.
pub fn push_number(bytes: &mut Vec<u8>, value: u64, width: usize)
    ensures
        final(bytes)@ == old(bytes)@ + big_endian(value as nat, width as nat),
    decreases width,
{
    if width == 0 {
        proof {
            assert(bytes@ =~= bytes@ + big_endian(value as nat, 0));
        }
        return ;
    }
    push_number(bytes, value / 256, width - 1);
    bytes.push((value % 256) as u8);
    proof {
        assert(bytes@ =~= old(bytes)@ + big_endian(value as nat, width as nat));
    }
}

/// The number that some of the bytes stand for.
pub fn read_number(bytes: &Vec<u8>, at: usize, width: usize) -> (value: u64)
    requires
        at + width <= bytes@.len(),
        width <= 8,
    ensures
        value == number_of(bytes@.subrange(at as int, at + width)),
        value < span_of(width as nat),
{
    let available: usize = bytes.len();
    let mut value: u64 = 0;
    let mut taken: usize = 0;
    while taken < width
        invariant
            available == bytes@.len(),
            at + width <= available,
            taken <= width <= 8,
            value == number_of(bytes@.subrange(at as int, at + taken)),
        decreases width - taken,
    {
        let ghost before = bytes@.subrange(at as int, at + taken);
        let ghost after = bytes@.subrange(at as int, at + taken + 1);
        proof {
            assert(after.drop_last() =~= before);
            assert(after.last() == bytes@[at + taken]);
            lemma_number_bound(after);
            reveal_with_fuel(span_of, 9);
        }
        value = value * 256 + bytes[at + taken] as u64;
        taken = taken + 1;
    }
    proof {
        lemma_number_bound(bytes@.subrange(at as int, at + width));
    }
    value
}

/// The first byte counts most: it stands for as many numbers as the bytes behind it can hold, and
/// one byte stands for itself.
pub proof fn law_first_byte_counts_most(first: u8, rest: Seq<u8>)
    ensures
        number_of(seq![first] + rest) == first as nat * span_of(rest.len()) + number_of(rest),
        number_of(seq![first]) == first,
        span_of(0) == 1,
        span_of(rest.len() + 1) == 256 * span_of(rest.len()),
    decreases rest.len(),
{
    let all = seq![first] + rest;
    if rest.len() == 0 {
        reveal_with_fuel(number_of, 2);
        assert(all =~= seq![first]);
        assert(all.drop_last() =~= Seq::empty());
        assert(first as nat * 1 == first as nat);
    } else {
        law_first_byte_counts_most(first, rest.drop_last());
        assert(all.drop_last() =~= seq![first] + rest.drop_last());
        assert(all.last() == rest.last());
        let high = first as nat;
        let span = span_of((rest.len() - 1) as nat);
        let middle = number_of(rest.drop_last());
        assert((high * span + middle) * 256 == high * (256 * span) + middle * 256)
            by (nonlinear_arith);
    }
}

/// Different numbers that bytes can hold have different bytes, and every sequence of bytes is that
/// of the number it stands for.
pub proof fn law_bytes_round_trip(bytes: Seq<u8>)
    ensures
        big_endian(number_of(bytes), bytes.len()) == bytes,
        number_of(bytes) < span_of(bytes.len()),
    decreases bytes.len(),
{
    lemma_number_bound(bytes);
    if bytes.len() > 0 {
        let high = bytes.drop_last();
        let low = bytes.last();
        law_bytes_round_trip(high);
        assert((number_of(high) * 256 + low as nat) / 256 == number_of(high));
        assert((number_of(high) * 256 + low as nat) % 256 == low as nat);
        assert(bytes =~= high.push(low));
    }
}

} // verus!
