//! Rounding up to multiples.

use vstd::prelude::*;

verus! {

/// The smallest multiple of `alignment` that is not below `value`.
pub open spec fn aligned(value: int, alignment: int) -> int {
    if value % alignment == 0 {
        value
    } else {
        value + (alignment - value % alignment)
    }
}

/// Rounding up adds less than one step and gives a multiple.
pub proof fn aligned_bounds(value: int, alignment: int)
    requires
        alignment > 0,
    ensures
        value <= aligned(value, alignment) < value + alignment,
        aligned(value, alignment) % alignment == 0,
{
    if value % alignment != 0 {
        let rest = value % alignment;
        let base = value - rest;
        vstd::arithmetic::div_mod::lemma_fundamental_div_mod(value, alignment);
        vstd::arithmetic::div_mod::lemma_mod_bound(value, alignment);
        let quotient = value / alignment;
        assert(base + alignment == alignment * (quotient + 1)) by (nonlinear_arith)
            requires
                base == alignment * quotient,
        ;
        vstd::arithmetic::div_mod::lemma_mod_multiples_basic(quotient + 1, alignment);
        assert((quotient + 1) * alignment == alignment * (quotient + 1)) by (nonlinear_arith);
        vstd::arithmetic::div_mod::lemma_mod_bound(value, alignment);
    }
}

/// A multiple and the sum of two multiples are multiples.
pub proof fn multiples_add(left: int, right: int, alignment: int)
    requires
        alignment > 0,
        left % alignment == 0,
        right % alignment == 0,
    ensures
        (left + right) % alignment == 0,
{
    vstd::arithmetic::div_mod::lemma_add_mod_noop(left, right, alignment);
    vstd::arithmetic::div_mod::lemma_small_mod(0, alignment as nat);
}

/// Adding a multiple does not change how far a value is from the next multiple.
pub proof fn aligned_shift(value: int, shift: int, alignment: int)
    requires
        alignment > 0,
        shift % alignment == 0,
    ensures
        aligned(value + shift, alignment) == aligned(value, alignment) + shift,
{
    vstd::arithmetic::div_mod::lemma_add_mod_noop(value, shift, alignment);
    vstd::arithmetic::div_mod::lemma_mod_bound(value, alignment);
    vstd::arithmetic::div_mod::lemma_small_mod((value % alignment) as nat, alignment as nat);
}

/// Rounds `value` up to a multiple of `alignment`.
pub fn align_up(value: usize, alignment: usize) -> (result: usize)
    requires
        alignment > 0,
        aligned(value as int, alignment as int) <= usize::MAX,
    ensures
        result == aligned(value as int, alignment as int),
{
    let rest: usize = value % alignment;
    if rest == 0 {
        value
    } else {
        value + (alignment - rest)
    }
}

/// Rounds `value` up to a multiple of `alignment`, if that can be represented.
pub fn checked_align_up(value: u64, alignment: u64) -> (result: Option<u64>)
    requires
        alignment > 0,
    ensures
        match result {
            Some(result) => result == aligned(value as int, alignment as int),
            None => aligned(value as int, alignment as int) > u64::MAX,
        },
{
    let rest: u64 = value % alignment;
    if rest == 0 {
        Some(value)
    } else {
        value.checked_add(alignment - rest)
    }
}

/// How far `value` is from the next multiple of `alignment`.
pub fn gap(value: usize, alignment: usize) -> (gap: usize)
    requires
        alignment > 0,
    ensures
        gap < alignment,
        (value + gap) % alignment as int == 0,
        gap == aligned(value as int, alignment as int) - value,
{
    proof {
        aligned_bounds(value as int, alignment as int);
    }
    let over: usize = value % alignment;
    if over == 0 {
        0
    } else {
        alignment - over
    }
}

/// No smaller multiple is at least the value.
pub proof fn aligned_is_the_next_multiple(value: int, alignment: int, other: int)
    requires
        alignment > 0,
        value <= other,
        other % alignment == 0,
    ensures
        aligned(value, alignment) <= other,
{
    aligned_bounds(value, alignment);
    let next = aligned(value, alignment);
    if other < next {
        vstd::arithmetic::div_mod::lemma_fundamental_div_mod(next, alignment);
        vstd::arithmetic::div_mod::lemma_fundamental_div_mod(other, alignment);
        assert(false) by (nonlinear_arith)
            requires
                next == alignment * (next / alignment),
                other == alignment * (other / alignment),
                other < next < other + alignment,
                alignment > 0,
        ;
    }
}

} // verus!
