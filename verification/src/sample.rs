//! The 24-bit two's-complement sample that one conversion yields, and the
//! arithmetic that turns the levels seen on the data line into a number.

use crate::level::Level;
use vstd::arithmetic::power2::{lemma2_to64, lemma_pow2_strictly_increases, lemma_pow2_unfold, pow2};
use vstd::prelude::*;

verus! {

/// Number of data bits in one conversion result.
pub const SAMPLE_BITS: u8 = 24;

/// One past the largest 24-bit field, `2^24`.
pub const FIELD_LIMIT: u32 = 0x100_0000;

/// The smallest field whose sign bit (bit 23) is set, `2^23`.
pub const SIGN_BIT: u32 = 0x80_0000;

/// The signed number that a 24-bit two's-complement field stands for.
pub open spec fn sign_extend(field: int) -> int {
    if field < SIGN_BIT {
        field
    } else {
        field - FIELD_LIMIT
    }
}

/// The number spelled by `levels`, most significant bit first, where a high
/// level is a one.
pub open spec fn field_of(levels: Seq<Level>) -> nat
    decreases levels.len(),
{
    if levels.len() == 0 {
        0
    } else {
        2 * field_of(levels.drop_last()) + levels.last().bit()
    }
}

/// The `count` low bits of `field` as levels, most significant bit first.
pub open spec fn levels_of(field: nat, count: nat) -> Seq<Level>
    decreases count,
{
    if count == 0 {
        Seq::empty()
    } else {
        levels_of(field / 2, (count - 1) as nat).push(Level::from_bit(field % 2 == 1))
    }
}

/// Appending a level doubles the field and adds the new bit.
pub proof fn lemma_field_of_push(levels: Seq<Level>, level: Level)
    ensures
        field_of(levels.push(level)) == 2 * field_of(levels) + level.bit(),
{
    let longer = levels.push(level);
    assert(longer.drop_last() =~= levels);
    assert(longer.last() == level);
}

/// A field spelled by `n` levels is below `2^n`.
pub proof fn lemma_field_of_bound(levels: Seq<Level>)
    ensures
        field_of(levels) < pow2(levels.len()),
    decreases levels.len(),
{
    if levels.len() == 0 {
        lemma2_to64();
    } else {
        lemma_field_of_bound(levels.drop_last());
        lemma_pow2_unfold(levels.len());
    }
}

/// What 24 levels spell fits 24 bits, and stands for a number of 24 signed
/// bits.
pub proof fn lemma_sample_range(levels: Seq<Level>)
    requires
        levels.len() <= SAMPLE_BITS,
    ensures
        field_of(levels) < FIELD_LIMIT,
        -(SIGN_BIT as int) <= sign_extend(field_of(levels) as int) < SIGN_BIT,
{
    lemma_field_of_bound(levels);
    lemma2_to64();
    if levels.len() < SAMPLE_BITS {
        lemma_pow2_strictly_increases(levels.len(), SAMPLE_BITS as nat);
    }
}

/// `levels_of` has the length it was asked for.
pub proof fn lemma_levels_of_len(field: nat, count: nat)
    ensures
        levels_of(field, count).len() == count,
    decreases count,
{
    if count > 0 {
        lemma_levels_of_len(field / 2, (count - 1) as nat);
    }
}

/// Shifting a bit into a field appends its level to the levels of the field.
pub proof fn lemma_levels_of_shift(field: nat, count: nat, level: Level)
    ensures
        levels_of(2 * field + level.bit(), count + 1) == levels_of(field, count).push(level),
{
    let shifted = 2 * field + level.bit();
    assert(shifted / 2 == field);
    assert(Level::from_bit(shifted % 2 == 1) == level);
}

/// Spelling a field out as levels and reading them back gives the field.
pub proof fn lemma_field_of_levels_of(field: nat, count: nat)
    requires
        field < pow2(count),
    ensures
        field_of(levels_of(field, count)) == field,
    decreases count,
{
    if count == 0 {
        lemma2_to64();
    } else {
        let shorter = levels_of(field / 2, (count - 1) as nat);
        lemma_pow2_unfold(count);
        lemma_field_of_levels_of(field / 2, (count - 1) as nat);
        lemma_field_of_push(shorter, Level::from_bit(field % 2 == 1));
    }
}

/// Reading levels as a field and spelling the field out gives the levels.
pub proof fn lemma_levels_of_field_of(levels: Seq<Level>)
    ensures
        levels_of(field_of(levels), levels.len()) == levels,
    decreases levels.len(),
{
    if levels.len() == 0 {
        assert(levels =~= Seq::empty());
    } else {
        let shorter = levels.drop_last();
        lemma_levels_of_field_of(shorter);
        lemma_levels_of_shift(field_of(shorter), shorter.len(), levels.last());
        assert(shorter.push(levels.last()) =~= levels);
    }
}

/// Widens a 24-bit two's-complement field to a signed 32-bit number: a field
/// below `2^23` stands for itself, any other for itself less `2^24`.
pub fn decode(field: u32) -> (value: i32)
    requires
        field < FIELD_LIMIT,
    ensures
        value == sign_extend(field as int),
        field < SIGN_BIT ==> value == field,
        field >= SIGN_BIT ==> value == field - FIELD_LIMIT,
        -(SIGN_BIT as int) <= value < SIGN_BIT,
{
    if field < SIGN_BIT {
        field as i32
    } else {
        (field as i32) - 0x100_0000
    }
}

/// Shifts one sampled level into the low end of a field.
pub(crate) fn shift_in(field: u32, level: Level) -> (shifted: u32)
    requires
        field < SIGN_BIT,
    ensures
        shifted == 2 * field + level.bit(),
        shifted < FIELD_LIMIT,
{
    match level {
        Level::High => field * 2 + 1,
        Level::Low => field * 2,
    }
}

} // verus!
