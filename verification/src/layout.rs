//! How a pool lays out its segments: the stride from slot to slot and the
//! number of slots in a segment.

use vstd::arithmetic::power2::is_pow2;
use vstd::layout::align_of;
use vstd::layout::size_of;
use vstd::layout::valid_layout;
use vstd::prelude::*;

verus! {

/// `n` rounded up to a multiple of `unit`.
pub open spec fn round_up(n: nat, unit: nat) -> nat {
    (((n + unit - 1) / (unit as int)) * unit) as nat
}

/// The distance in bytes from one slot to the next: the size of an element,
/// padded to its own alignment and, where asked for, to whole cache lines.
pub open spec fn slot_stride(size: nat, align: nat, align_to_cache: bool, cache_line_size: nat) -> nat {
    let padded = round_up(size, align);
    if align_to_cache {
        round_up(padded, cache_line_size)
    } else {
        padded
    }
}

/// The number of slots in a segment: as many as fit into all the sets of the
/// cache, and at least one.
pub open spec fn slots_per_segment(stride: nat, cache_line_size: nat, number_of_sets: nat) -> nat {
    let fit = (number_of_sets * cache_line_size) / stride;
    if fit >= 1 {
        fit
    } else {
        1
    }
}

/// `round_up(n, unit)` is a multiple of `unit`, not below `n` and less than
/// one `unit` above it.
pub proof fn lemma_round_up(n: nat, unit: nat)
    requires
        unit > 0,
    ensures
        round_up(n, unit) % unit == 0,
        n <= round_up(n, unit) < n + unit,
{
    let q = (n + unit - 1) / (unit as int);
    vstd::arithmetic::div_mod::lemma_fundamental_div_mod(n + unit - 1, unit as int);
    vstd::arithmetic::div_mod::lemma_mod_bound(n + unit - 1, unit as int);
    vstd::arithmetic::mul::lemma_mul_is_commutative(q, unit as int);
    vstd::arithmetic::div_mod::lemma_mod_multiples_basic(q, unit as int);
    assert(q >= 0) by {
        vstd::arithmetic::div_mod::lemma_div_pos_is_pos(n + unit - 1, unit as int);
    }
    assert(q * unit >= 0) by (nonlinear_arith)
        requires
            q >= 0,
            unit > 0,
    ;
}

/// No multiple of `unit` lies between `n` and `round_up(n, unit)`: the
/// rounding picks the least one that is not below `n`.
pub proof fn lemma_round_up_least(n: nat, unit: nat, m: nat)
    requires
        unit > 0,
        m % unit == 0,
        n <= m,
    ensures
        round_up(n, unit) <= m,
{
    lemma_round_up(n, unit);
    let r = round_up(n, unit);
    if m < r {
        // two multiples of `unit` less than one `unit` apart are equal
        vstd::arithmetic::div_mod::lemma_fundamental_div_mod(m as int, unit as int);
        vstd::arithmetic::div_mod::lemma_fundamental_div_mod(r as int, unit as int);
        let a = m as int / unit as int;
        let b = r as int / unit as int;
        assert(unit * b - unit * a == unit * (b - a)) by (nonlinear_arith);
        assert(unit * (b - a) >= unit) by (nonlinear_arith)
            requires
                unit * (b - a) > 0,
                unit > 0,
        ;
    }
}

/// Whether a pool of `T` can be laid out with these parameters: the sizes
/// fit the address space and a segment has a valid layout.
pub open spec fn layout_fits<T>(
    align_to_cache: bool,
    cache_line_size: nat,
    number_of_sets: nat,
) -> bool {
    let stride = slot_stride(size_of::<T>(), align_of::<T>(), align_to_cache, cache_line_size);
    let batch = slots_per_segment(stride, cache_line_size, number_of_sets);
    let align = if cache_line_size >= align_of::<T>() {
        cache_line_size
    } else {
        align_of::<T>()
    };
    &&& align_to_cache ==> cache_line_size + size_of::<T>() <= usize::MAX
    &&& number_of_sets * cache_line_size <= usize::MAX
    &&& batch * stride <= usize::MAX
    &&& valid_layout((batch * stride) as usize, align as usize)
}

/// Parameters fit wherever the cache line is a power of two and the sizes
/// are far from the end of the address space.
pub proof fn lemma_layout_fits<T>(align_to_cache: bool, cache_line_size: nat, number_of_sets: nat)
    requires
        size_of::<T>() > 0,
        is_pow2(cache_line_size as int),
        number_of_sets * cache_line_size + 2 * (size_of::<T>() + cache_line_size) <= isize::MAX,
    ensures
        layout_fits::<T>(align_to_cache, cache_line_size, number_of_sets),
{
    broadcast use vstd::layout::align_properties;

    let size = size_of::<T>();
    let align = align_of::<T>();
    assert(cache_line_size > 0) by {
        reveal(is_pow2);
    }
    assert(align > 0) by {
        reveal(is_pow2);
    }
    assert(align <= size) by {
        vstd::arithmetic::div_mod::lemma_fundamental_div_mod(size as int, align as int);
        assert(align <= size) by (nonlinear_arith)
            requires
                size == align * (size as int / align as int),
                size > 0,
                align > 0,
        ;
    }
    lemma_round_up(size, align);
    lemma_round_up_least(size, align, size);
    lemma_round_up(size, cache_line_size);
    let stride = slot_stride(size, align, align_to_cache, cache_line_size);
    let batch = slots_per_segment(stride, cache_line_size, number_of_sets);
    let bound = if align >= cache_line_size {
        align
    } else {
        cache_line_size
    };
    assert(size <= stride < size + cache_line_size);
    let sets_bytes = number_of_sets * cache_line_size;
    assert(sets_bytes >= 0) by (nonlinear_arith)
        requires
            sets_bytes == number_of_sets * cache_line_size,
    ;
    assert(batch * stride <= sets_bytes + stride) by {
        let fit = sets_bytes as int / stride as int;
        vstd::arithmetic::div_mod::lemma_fundamental_div_mod(sets_bytes as int, stride as int);
        vstd::arithmetic::div_mod::lemma_mod_bound(sets_bytes as int, stride as int);
        vstd::arithmetic::mul::lemma_mul_is_commutative(fit, stride as int);
        if fit < 1 {
            assert(1 * stride == stride) by (nonlinear_arith);
        }
    }
    vstd::arithmetic::div_mod::lemma_mod_bound(isize::MAX as int, bound as int);
}

/// The parameters of the usual cache fit every type that is not empty and
/// not larger than 256 megabytes.
pub proof fn lemma_default_layout_fits<T>(align_to_cache: bool)
    requires
        0 < size_of::<T>() <= 0x1000_0000,
    ensures
        layout_fits::<T>(align_to_cache, 64, 64),
{
    assert(is_pow2(64)) by {
        reveal_with_fuel(is_pow2, 8);
    }
    lemma_layout_fits::<T>(align_to_cache, 64, 64);
}

} // verus!
