//! Fields of consecutive bits inside a machine word.
//!
//! A field is described arithmetically: the field of `width` bits that starts
//! at bit `offset` of `word` is `(word / 2^offset) mod 2^width`.

use vstd::prelude::*;
use vstd::arithmetic::div_mod::*;
use vstd::arithmetic::mul::*;
use vstd::arithmetic::power2::*;
use vstd::bits::*;
use vstd::std_specs::bits::*;

verus! {

/// The value of the field of `width` bits that starts at bit `offset`.
pub open spec fn field(word: u64, offset: nat, width: nat) -> nat {
    (word as nat / pow2(offset)) % pow2(width)
}

/// The word that holds `value mod 2^width` in the field and agrees with `word`
/// everywhere else.
pub open spec fn with_field(word: u64, offset: nat, width: nat, value: nat) -> u64 {
    (word - field(word, offset, width) * pow2(offset) + (value % pow2(width)) * pow2(offset)) as u64
}

/// The number of bits that hold every value up to `max`: at least one, and
/// otherwise no more than are needed.
pub open spec fn bits_for(max: nat) -> nat
    decreases max,
{
    if max <= 1 {
        1
    } else {
        1 + bits_for(max / 2)
    }
}

/// Whether bit `index` of a wall bitmap is set.
pub open spec fn wall_bit(walls: u128, index: nat) -> bool {
    (walls as nat / pow2(index)) % 2 == 1
}

proof fn lemma_mask(width: u64)
    requires
        width < 64,
    ensures
        (1u64 << width) == pow2(width as nat),
        (1u64 << width) >= 1,
        ((1u64 << width) - 1) as u64 == low_bits_mask(width as nat),
        pow2(width as nat) <= u64::MAX,
{
    lemma_u64_pow2_no_overflow(width as nat);
    lemma_pow2_pos(width as nat);
    lemma_u64_shl_is_mul(1u64, width);
}

/// A field, read by shifting and masking.
proof fn lemma_field_by_shift(word: u64, offset: u64, width: u64)
    requires
        offset < 64,
        width < 64,
    ensures
        (word >> offset) & (((1u64 << width) - 1) as u64) == field(word, offset as nat, width as nat),
        field(word, offset as nat, width as nat) < pow2(width as nat),
{
    lemma_mask(width);
    lemma_u64_shr_is_div(word, offset);
    lemma_u64_low_bits_mask_is_mod(word >> offset, width as nat);
    lemma_pow2_pos(width as nat);
    lemma_mod_bound((word >> offset) as int, pow2(width as nat) as int);
}

/// A value of at most `width` bits, moved up by `offset`, stays within the word.
proof fn lemma_shifted_value(value: u64, offset: u64, width: u64)
    requires
        offset < 64,
        width < 64,
        offset + width <= 64,
        value < pow2(width as nat),
    ensures
        (value << offset) == value * pow2(offset as nat),
        value * pow2(offset as nat) <= u64::MAX,
{
    lemma_mask(width);
    lemma_mask(offset);
    assert(value <= u64::MAX >> offset) by (bit_vector)
        requires
            offset < 64,
            width < 64,
            offset + width <= 64,
            value < (1u64 << width),
    ;
    lemma_u64_mul_pow2_le_max_iff_max_shr(value, offset, u64::MAX);
    lemma_u64_shl_is_mul(value, offset);
}

/// A field, written by clearing it and inserting the masked value.
proof fn lemma_with_field_by_shift(word: u64, offset: u64, width: u64, value: u64)
    requires
        offset < 64,
        width < 64,
        offset + width <= 64,
    ensures
        ({
            let mask = ((1u64 << width) - 1) as u64;
            (word & !(mask << offset)) | ((value & mask) << offset) == with_field(
                word,
                offset as nat,
                width as nat,
                value as nat,
            )
        }),
{
    let mask = ((1u64 << width) - 1) as u64;
    lemma_mask(width);
    lemma_field_by_shift(word, offset, width);
    lemma_u64_low_bits_mask_is_mod(value, width as nat);
    lemma_pow2_pos(width as nat);
    lemma_mod_bound(value as int, pow2(width as nat) as int);
    let old_field = (word >> offset) & mask;
    let new_field = value & mask;
    lemma_shifted_value(old_field, offset, width);
    lemma_shifted_value(new_field, offset, width);
    let result = (word & !(mask << offset)) | (new_field << offset);
    assert((word & !(mask << offset)) + (old_field << offset) == word) by (bit_vector)
        requires
            offset < 64,
            old_field == (word >> offset) & mask,
    ;
    assert((word & !(mask << offset)) + (new_field << offset) == result) by (bit_vector)
        requires
            offset < 64,
            new_field == value & mask,
            result == (word & !(mask << offset)) | (new_field << offset),
    ;
}

/// Writing a field and reading it back gives what was written, as far as the
/// field holds it.
pub proof fn lemma_read_back(word: u64, offset: nat, width: nat, value: nat)
    requires
        0 < width < 64,
        offset + width <= 64,
    ensures
        field(with_field(word, offset, width, value), offset, width) == value % pow2(width),
{
    let o = offset as u64;
    let k = width as u64;
    lemma_mask(k);
    lemma_pow2_pos(width);
    lemma_mod_bound(value as int, pow2(width) as int);
    lemma_small_mod(value % pow2(width), pow2(width));
    let v = (value % pow2(width)) as u64;
    assert(with_field(word, offset, width, value) == with_field(word, offset, width, v as nat));
    lemma_with_field_by_shift(word, o, k, v);
    let result = with_field(word, offset, width, v as nat);
    lemma_field_by_shift(result, o, k);
    assert((result >> o) & (((1u64 << k) - 1) as u64) == v) by (bit_vector)
        requires
            o < 64,
            k < 64,
            o + k <= 64,
            v < (1u64 << k),
            result == (word & !((((1u64 << k) - 1) as u64) << o)) | ((v & (((1u64 << k)
                - 1) as u64)) << o),
    ;
}

/// Writing a field leaves every field beside it alone.
pub proof fn lemma_other_field(
    word: u64,
    offset: nat,
    width: nat,
    value: nat,
    other: nat,
    other_width: nat,
)
    requires
        0 < width < 64,
        offset + width <= 64,
        0 < other_width < 64,
        other + other_width <= 64,
        offset + width <= other || other + other_width <= offset,
    ensures
        field(with_field(word, offset, width, value), other, other_width) == field(
            word,
            other,
            other_width,
        ),
{
    let o = offset as u64;
    let k = width as u64;
    let o2 = other as u64;
    let k2 = other_width as u64;
    lemma_mask(k);
    lemma_pow2_pos(width);
    lemma_mod_bound(value as int, pow2(width) as int);
    lemma_small_mod(value % pow2(width), pow2(width));
    let v = (value % pow2(width)) as u64;
    assert(with_field(word, offset, width, value) == with_field(word, offset, width, v as nat));
    lemma_with_field_by_shift(word, o, k, v);
    let result = with_field(word, offset, width, v as nat);
    lemma_field_by_shift(result, o2, k2);
    lemma_field_by_shift(word, o2, k2);
    if offset + width <= other {
        assert(result >> o2 == word >> o2) by (bit_vector)
            requires
                o < 64,
                k < 64,
                o + k <= 64,
                o2 < 64,
                o + k <= o2,
                result == (word & !((((1u64 << k) - 1) as u64) << o)) | ((v & (((1u64 << k)
                    - 1) as u64)) << o),
        ;
    } else {
        assert((result >> o2) & (((1u64 << k2) - 1) as u64) == (word >> o2) & (((1u64 << k2)
            - 1) as u64)) by (bit_vector)
            requires
                o < 64,
                k < 64,
                o + k <= 64,
                o2 < 64,
                k2 < 64,
                o2 + k2 <= o,
                result == (word & !((((1u64 << k) - 1) as u64) << o)) | ((v & (((1u64 << k)
                    - 1) as u64)) << o),
        ;
    }
}

/// Writing a field and then writing back what it held restores the word.
pub proof fn lemma_restore(word: u64, offset: nat, width: nat, value: nat)
    requires
        0 < width < 64,
        offset + width <= 64,
    ensures
        with_field(
            with_field(word, offset, width, value),
            offset,
            width,
            field(word, offset, width),
        ) == word,
{
    let o = offset as u64;
    let k = width as u64;
    lemma_read_back(word, offset, width, value);
    lemma_field_by_shift(word, o, k);
    let held = field(word, offset, width);
    lemma_small_mod(held, pow2(width));
    lemma_pow2_pos(width);
    lemma_mod_bound(value as int, pow2(width) as int);
    lemma_mask(k);
    let v = (value % pow2(width)) as u64;
    lemma_small_mod(v as nat, pow2(width));
    lemma_with_field_by_shift(word, o, k, v);
    lemma_shifted_value(v, o, k);
    lemma_shifted_value(held as u64, o, k);
    let changed = with_field(word, offset, width, value);
    assert(changed == with_field(word, offset, width, v as nat));
    lemma_with_field_by_shift(changed, o, k, held as u64);
    let mask = ((1u64 << k) - 1) as u64;
    let h = held as u64;
    assert((changed & !(mask << o)) | ((h & mask) << o) == word) by (bit_vector)
        requires
            o < 64,
            mask == ((1u64 << k) - 1) as u64,
            k < 64,
            changed == (word & !(mask << o)) | ((v & mask) << o),
            h == (word >> o) & mask,
    ;
}

/// `bits_for(max)` is the least positive width that holds `max`.
pub proof fn lemma_bits_for(max: nat)
    ensures
        bits_for(max) >= 1,
        max < pow2(bits_for(max)),
        bits_for(max) > 1 ==> pow2((bits_for(max) - 1) as nat) <= max,
    decreases max,
{
    lemma2_to64();
    if max > 1 {
        lemma_bits_for(max / 2);
        lemma_pow2_unfold(bits_for(max));
        if bits_for(max) > 2 {
            lemma_pow2_unfold((bits_for(max) - 1) as nat);
        }
    }
}

proof fn lemma_bits_for_leading_zeros(max: u64)
    requires
        max > 0,
    ensures
        bits_for(max as nat) == 64 - u64_leading_zeros(max),
    decreases max,
{
    reveal_with_fuel(u64_leading_zeros, 2);
    if max > 1 {
        lemma_bits_for_leading_zeros(max / 2);
    }
}

/// A machine word needs no more bits than it has.
pub proof fn lemma_bits_for_usize(max: usize)
    ensures
        bits_for(max as nat) <= usize::BITS,
        pow2(bits_for(max as nat)) <= usize::MAX + 1,
{
    lemma_bits_for(max as nat);
    lemma2_to64();
    lemma2_to64_rest();
    let b = bits_for(max as nat);
    if b > usize::BITS {
        if b - 1 > usize::BITS {
            lemma_pow2_strictly_increases(usize::BITS as nat, (b - 1) as nat);
        }
    } else if b < usize::BITS {
        lemma_pow2_strictly_increases(b, usize::BITS as nat);
    }
}

/// The number of bits needed to represent a value up to `max` (inclusive).
pub fn bits_needed(max: usize) -> (bits: usize)
    ensures
        bits == bits_for(max as nat),
        1 <= bits <= usize::BITS,
{
    proof {
        lemma_bits_for(max as nat);
        lemma_bits_for_usize(max);
    }
    if max == 0 {
        1
    } else {
        let wide: u64 = max as u64;
        proof {
            lemma_bits_for_leading_zeros(wide);
            axiom_u64_leading_zeros(wide);
        }
        (64 - wide.leading_zeros()) as usize
    }
}

/// Whether bit `index` of the wall bitmap is set.
pub fn read_wall_bit(walls: u128, index: usize) -> (set: bool)
    requires
        index < 128,
    ensures
        set == wall_bit(walls, index as nat),
{
    proof {
        lemma_u128_shr_is_div(walls, index as u128);
        let shifted = walls >> (index as u128);
        assert(shifted & 1 == shifted % 2) by (bit_vector);
    }
    (walls >> (index as u128)) & 1 == 1
}

/// The wall bitmap with bit `index` set or cleared.
pub fn write_wall_bit(walls: u128, index: usize, value: bool) -> (result: u128)
    requires
        index < 128,
    ensures
        forall|j: nat| #![trigger wall_bit(result, j)]
            j < 128 ==> wall_bit(result, j) == if j == index { value } else { wall_bit(walls, j) },
{
    let i: u128 = index as u128;
    let result: u128 = if value {
        walls | (1u128 << i)
    } else {
        walls & !(1u128 << i)
    };
    proof {
        assert forall|j: nat| #![trigger wall_bit(result, j)] j < 128 implies wall_bit(result, j)
            == if j == index { value } else { wall_bit(walls, j) } by {
            let k = j as u128;
            lemma_u128_shr_is_div(walls, k);
            lemma_u128_shr_is_div(result, k);
            assert((result >> k) % 2 == (if k == i {
                if value { 1u128 } else { 0u128 }
            } else {
                (walls >> k) % 2
            })) by (bit_vector)
                requires
                    k < 128,
                    i < 128,
                    value ==> result == walls | (1u128 << i),
                    !value ==> result == walls & !(1u128 << i),
            ;
        }
    }
    result
}

/// Reads the field of `width` bits at `offset`.
pub fn read_field(word: u64, offset: usize, width: usize) -> (value: u64)
    requires
        0 < width < 64,
        offset + width <= 64,
    ensures
        value == field(word, offset as nat, width as nat),
        value < pow2(width as nat),
{
    proof {
        lemma_mask(width as u64);
        lemma_field_by_shift(word, offset as u64, width as u64);
    }
    (word >> (offset as u64)) & ((1u64 << (width as u64)) - 1)
}

/// The word with `value` in the field of `width` bits at `offset`.
pub fn write_field(word: u64, offset: usize, width: usize, value: u64) -> (result: u64)
    requires
        0 < width < 64,
        offset + width <= 64,
    ensures
        result == with_field(word, offset as nat, width as nat, value as nat),
{
    proof {
        lemma_mask(width as u64);
        lemma_with_field_by_shift(word, offset as u64, width as u64, value);
    }
    let mask: u64 = (1u64 << (width as u64)) - 1;
    (word & !(mask << (offset as u64))) | ((value & mask) << (offset as u64))
}

} // verus!
