//! Arithmetic over GF(2^w), 1 <= w <= 8, with elements held in one byte.
use vstd::prelude::*;
use vstd::arithmetic::power2::{pow2, lemma2_to64};
use vstd::arithmetic::div_mod::{lemma_small_mod, lemma_mod_add_multiples_vanish};
use crate::error::Error;

verus! {

/// The overflow flag of GF(2^w): the top bit of a w-bit element, `2^(w-1)`.
pub open spec fn top_of(w: u8) -> u8 {
    pow2((w - 1) as nat) as u8
}

/// The number of elements of GF(2^w).
pub open spec fn count_of(w: u8) -> nat {
    pow2(w as nat)
}

pub open spec fn valid_order(w: u8) -> bool {
    1 <= w <= 8
}

/// Multiplication by `x` (the element 2): shift left, and reduce by the polynomial `p`
/// when the bit shifted past the top was set.
pub open spec fn shift_reduce(top: u8, p: u8, v: u8) -> u8 {
    if v & top != 0 {
        (v << 1u8) ^ p
    } else {
        v << 1u8
    }
}

/// The term that bit `j` of `y` contributes to a product: `v` when the bit is set, else 0.
pub open spec fn pick(y: u8, j: u8, v: u8) -> u8 {
    if (y >> j) & 1u8 == 1u8 { v } else { 0u8 }
}

/// `v * 2^i` in GF(2^w) with polynomial `p`, by `i` doublings.
pub open spec fn doubled(w: u8, p: u8, v: u8, i: nat) -> u8
    decreases i,
{
    if i == 0 {
        v
    } else {
        shift_reduce(top_of(w), p, doubled(w, p, v, (i - 1) as nat))
    }
}

/// XOR of `x * 2^j` over the set bits `j < k` of `y`.
pub open spec fn mul_low_bits(w: u8, p: u8, x: u8, y: u8, k: nat) -> u8
    decreases k,
{
    if k == 0 {
        0u8
    } else {
        mul_low_bits(w, p, x, y, (k - 1) as nat) ^ pick(y, (k - 1) as u8, doubled(w, p, x, (k - 1) as nat))
    }
}

/// The product of `x` and `y` in GF(2^w) with polynomial `p`, computed from the bits of `y`.
pub open spec fn gf_mul(w: u8, p: u8, x: u8, y: u8) -> u8 {
    mul_low_bits(w, p, x, y, 8)
}

/// `g^k` in GF(2^w), by repeated multiplication starting from 1.
pub open spec fn gf_pow(w: u8, p: u8, g: u8, k: nat) -> u8
    decreases k,
{
    if k == 0 {
        1u8
    } else {
        gf_mul(w, p, gf_pow(w, p, g, (k - 1) as nat), g)
    }
}

/// Some power `g^k`, `1 <= k < 2^w`, equals `e`.
pub open spec fn in_cycle(w: u8, p: u8, g: u8, e: u8) -> bool {
    exists|k: nat| 1 <= k < count_of(w) && #[trigger] gf_pow(w, p, g, k) == e
}

/// `g` generates the multiplicative group: its powers `g^1 .. g^(2^w - 1)` are nonzero
/// elements, pairwise distinct, and cover every nonzero element.
pub open spec fn is_generator_of(w: u8, p: u8, g: u8) -> bool {
    &&& forall|k: nat| 1 <= k < count_of(w) ==> 1 <= #[trigger] gf_pow(w, p, g, k) < count_of(w)
    &&& forall|i: nat, j: nat|
        1 <= i < j < count_of(w) ==> #[trigger] gf_pow(w, p, g, i) != #[trigger] gf_pow(w, p, g, j)
    &&& forall|e: u8| 1 <= e < count_of(w) ==> #[trigger] in_cycle(w, p, g, e)
}

/// Some candidate `2 <= g < 2^w` is a generator.
pub open spec fn has_generator(w: u8, p: u8) -> bool {
    exists|g: u8| 2 <= g < count_of(w) && #[trigger] is_generator_of(w, p, g)
}

/// `g` is the smallest generator among the candidates `2, 3, ..`.
pub open spec fn is_min_generator(w: u8, p: u8, g: u8) -> bool {
    &&& 2 <= g < count_of(w)
    &&& is_generator_of(w, p, g)
    &&& forall|h: u8| 2 <= h < g ==> !#[trigger] is_generator_of(w, p, h)
}

/// The generators among the candidates `lo .. hi`, ascending.
pub open spec fn generators_in(w: u8, p: u8, lo: nat, hi: nat) -> Seq<u8>
    decreases hi,
{
    if hi <= lo {
        Seq::empty()
    } else {
        let rest = generators_in(w, p, lo, (hi - 1) as nat);
        if is_generator_of(w, p, (hi - 1) as u8) {
            rest.push((hi - 1) as u8)
        } else {
            rest
        }
    }
}

proof fn lemma_bit01(y: u8, j: u8)
    by (bit_vector)
    ensures
        (y >> j) & 1u8 == 0u8 || (y >> j) & 1u8 == 1u8,
{
}

/// The overflow flag and element count of each valid order.
proof fn lemma_order_sizes(w: u8)
    requires
        valid_order(w),
    ensures
        (1u8 << ((w - 1) as u8)) == top_of(w),
        count_of(w) == 2 * (top_of(w) as nat),
        2 <= count_of(w) <= 256,
        top_of(w) == 1 || top_of(w) == 2 || top_of(w) == 4 || top_of(w) == 8 || top_of(w) == 16
            || top_of(w) == 32 || top_of(w) == 64 || top_of(w) == 128,
        top_of(w) == 128 <==> w == 8,
{
    lemma2_to64();
    assert((1u8 << 0u8) == 1u8 && (1u8 << 1u8) == 2u8 && (1u8 << 2u8) == 4u8 && (1u8 << 3u8) == 8u8
        && (1u8 << 4u8) == 16u8 && (1u8 << 5u8) == 32u8 && (1u8 << 6u8) == 64u8 && (1u8 << 7u8)
        == 128u8) by (bit_vector);
}

proof fn lemma_one_times_bits(top: u8, p: u8, y: u8, t1: u8, t2: u8, t3: u8, t4: u8, t5: u8, t6: u8, t7: u8)
    by (bit_vector)
    requires
        top == 1u8 || top == 2u8 || top == 4u8 || top == 8u8 || top == 16u8 || top == 32u8
            || top == 64u8 || top == 128u8,
        (y as u16) < 2 * (top as u16),
        t1 == shift_reduce(top, p, 1u8),
        t2 == shift_reduce(top, p, t1),
        t3 == shift_reduce(top, p, t2),
        t4 == shift_reduce(top, p, t3),
        t5 == shift_reduce(top, p, t4),
        t6 == shift_reduce(top, p, t5),
        t7 == shift_reduce(top, p, t6),
    ensures
        0u8 ^ pick(y, 0u8, 1u8) ^ pick(y, 1u8, t1) ^ pick(y, 2u8, t2) ^ pick(y, 3u8, t3) ^ pick(y, 4u8, t4) ^ pick(y, 5u8, t5) ^ pick(y, 6u8, t6) ^ pick(y, 7u8, t7) == y,
{
}

/// A product written out as the xor of the eight doublings of `x` selected by `y`.
proof fn lemma_mul_expand(w: u8, p: u8, x: u8, y: u8)
    ensures
        doubled(w, p, x, 0) == x,
        doubled(w, p, x, 1) == shift_reduce(top_of(w), p, doubled(w, p, x, 0)),
        doubled(w, p, x, 2) == shift_reduce(top_of(w), p, doubled(w, p, x, 1)),
        doubled(w, p, x, 3) == shift_reduce(top_of(w), p, doubled(w, p, x, 2)),
        doubled(w, p, x, 4) == shift_reduce(top_of(w), p, doubled(w, p, x, 3)),
        doubled(w, p, x, 5) == shift_reduce(top_of(w), p, doubled(w, p, x, 4)),
        doubled(w, p, x, 6) == shift_reduce(top_of(w), p, doubled(w, p, x, 5)),
        doubled(w, p, x, 7) == shift_reduce(top_of(w), p, doubled(w, p, x, 6)),
        gf_mul(w, p, x, y) == 0u8 ^ pick(y, 0u8, doubled(w, p, x, 0)) ^ pick(y, 1u8, doubled(w, p, x, 1)) ^ pick(y, 2u8, doubled(w, p, x, 2)) ^ pick(y, 3u8, doubled(w, p, x, 3)) ^ pick(y, 4u8, doubled(w, p, x, 4)) ^ pick(y, 5u8, doubled(w, p, x, 5)) ^ pick(y, 6u8, doubled(w, p, x, 6)) ^ pick(y, 7u8, doubled(w, p, x, 7)),
{
    reveal_with_fuel(mul_low_bits, 9);
}

/// `1 * y == y` for every element `y`.
pub proof fn lemma_one_times(w: u8, p: u8, y: u8)
    requires
        valid_order(w),
        y < count_of(w),
    ensures
        gf_mul(w, p, 1, y) == y,
{
    lemma_order_sizes(w);
    lemma_mul_expand(w, p, 1, y);
    lemma_one_times_bits(
        top_of(w),
        p,
        y,
        doubled(w, p, 1, 1),
        doubled(w, p, 1, 2),
        doubled(w, p, 1, 3),
        doubled(w, p, 1, 4),
        doubled(w, p, 1, 5),
        doubled(w, p, 1, 6),
        doubled(w, p, 1, 7),
    );
}

/// The powers of a generator come back to 1 exactly at `g^(2^w - 1)`.
pub proof fn lemma_generator_cycle(w: u8, p: u8, g: u8)
    requires
        valid_order(w),
        2 <= g < count_of(w),
        is_generator_of(w, p, g),
    ensures
        gf_pow(w, p, g, (count_of(w) - 1) as nat) == 1,
        forall|k: nat| 1 <= k < count_of(w) - 1 ==> #[trigger] gf_pow(w, p, g, k) != 1,
{
    let n = count_of(w);
    lemma_order_sizes(w);
    assert(in_cycle(w, p, g, 1));
    let k = choose|k: nat| 1 <= k < n && #[trigger] gf_pow(w, p, g, k) == 1;
    assert(gf_pow(w, p, g, 1) == gf_mul(w, p, gf_pow(w, p, g, 0), g));
    lemma_one_times(w, p, g);
    if k < n - 1 {
        assert(gf_pow(w, p, g, k + 1) == gf_mul(w, p, gf_pow(w, p, g, k), g));
        assert(gf_pow(w, p, g, 1) == gf_pow(w, p, g, k + 1));
    }
    assert forall|j: nat| 1 <= j < n - 1 implies #[trigger] gf_pow(w, p, g, j) != 1 by {
        assert(gf_pow(w, p, g, j) != gf_pow(w, p, g, (n - 1) as nat));
    }
}

/// The byte `p` holds a polynomial of degree `w`: for `w < 8` bit `w` is set and no bit above
/// it; for `w = 8` the degree-8 term is implicit.
pub open spec fn proper_poly(w: u8, p: u8) -> bool {
    w == 8 || (count_of(w) <= p < 2 * count_of(w))
}

#[verifier::rlimit(100)]
proof fn lemma_reduce_bits(top: u8, p: u8, d0: u8, d1: u8, d2: u8, d3: u8, d4: u8, d5: u8, d6: u8, d7: u8, d8: u8)
    by (bit_vector)
    requires
        top == 1u8 || top == 2u8 || top == 4u8 || top == 8u8 || top == 16u8 || top == 32u8
            || top == 64u8 || top == 128u8,
        top == 128u8 || (2 * (top as u16) <= (p as u16) && (p as u16) < 4 * (top as u16)),
        (d0 as u16) < 2 * (top as u16),
        d1 == shift_reduce(top, p, d0),
        d2 == shift_reduce(top, p, d1),
        d3 == shift_reduce(top, p, d2),
        d4 == shift_reduce(top, p, d3),
        d5 == shift_reduce(top, p, d4),
        d6 == shift_reduce(top, p, d5),
        d7 == shift_reduce(top, p, d6),
        d8 == shift_reduce(top, p, d7),
    ensures
        0u8 ^ pick(p, 0u8, d0) ^ pick(p, 1u8, d1) ^ pick(p, 2u8, d2) ^ pick(p, 3u8, d3) ^ pick(p, 4u8, d4) ^ pick(p, 5u8, d5) ^ pick(p, 6u8, d6) ^ pick(p, 7u8, d7) == (if top == 128u8 { d8 } else { 0u8 }),
{
}

proof fn lemma_shift_sel_bits(top: u8, p: u8, y: u8, yd: u8, d0: u8, d1: u8, d2: u8, d3: u8, d4: u8, d5: u8, d6: u8, d7: u8, d8: u8)
    by (bit_vector)
    requires
        top == 1u8 || top == 2u8 || top == 4u8 || top == 8u8 || top == 16u8 || top == 32u8
            || top == 64u8 || top == 128u8,
        top == 128u8 || (2 * (top as u16) <= (p as u16) && (p as u16) < 4 * (top as u16)),
        (y as u16) < 2 * (top as u16),
        0u8 ^ pick(p, 0u8, d0) ^ pick(p, 1u8, d1) ^ pick(p, 2u8, d2) ^ pick(p, 3u8, d3) ^ pick(p, 4u8, d4) ^ pick(p, 5u8, d5) ^ pick(p, 6u8, d6) ^ pick(p, 7u8, d7) == (if top == 128u8 { d8 } else { 0u8 }),
        yd == shift_reduce(top, p, y),
    ensures
        0u8 ^ pick(yd, 0u8, d0) ^ pick(yd, 1u8, d1) ^ pick(yd, 2u8, d2) ^ pick(yd, 3u8, d3) ^ pick(yd, 4u8, d4) ^ pick(yd, 5u8, d5) ^ pick(yd, 6u8, d6) ^ pick(yd, 7u8, d7) == 0u8 ^ pick(y, 0u8, d1) ^ pick(y, 1u8, d2) ^ pick(y, 2u8, d3) ^ pick(y, 3u8, d4) ^ pick(y, 4u8, d5) ^ pick(y, 5u8, d6) ^ pick(y, 6u8, d7) ^ pick(y, 7u8, d8),
{
}

proof fn lemma_double_linear_bits(top: u8, p: u8, a: u8, b: u8)
    by (bit_vector)
    requires
        top == 1u8 || top == 2u8 || top == 4u8 || top == 8u8 || top == 16u8 || top == 32u8
            || top == 64u8 || top == 128u8,
    ensures
        shift_reduce(top, p, a ^ b) == shift_reduce(top, p, a) ^ shift_reduce(top, p, b),
        shift_reduce(top, p, 0u8) == 0u8,
{
}

proof fn lemma_sel_bits(top: u8, y: u8, z: u8, d0: u8, d1: u8, d2: u8, d3: u8, d4: u8, d5: u8, d6: u8, d7: u8)
    by (bit_vector)
    requires
        top == 1u8 || top == 2u8 || top == 4u8 || top == 8u8 || top == 16u8 || top == 32u8
            || top == 64u8 || top == 128u8,
    ensures
        0u8 ^ pick(y ^ z, 0u8, d0) ^ pick(y ^ z, 1u8, d1) ^ pick(y ^ z, 2u8, d2) ^ pick(y ^ z, 3u8, d3) ^ pick(y ^ z, 4u8, d4) ^ pick(y ^ z, 5u8, d5) ^ pick(y ^ z, 6u8, d6) ^ pick(y ^ z, 7u8, d7) == (0u8 ^ pick(y, 0u8, d0) ^ pick(y, 1u8, d1) ^ pick(y, 2u8, d2) ^ pick(y, 3u8, d3) ^ pick(y, 4u8, d4) ^ pick(y, 5u8, d5) ^ pick(y, 6u8, d6) ^ pick(y, 7u8, d7)) ^ (0u8 ^ pick(z, 0u8, d0) ^ pick(z, 1u8, d1) ^ pick(z, 2u8, d2) ^ pick(z, 3u8, d3) ^ pick(z, 4u8, d4) ^ pick(z, 5u8, d5) ^ pick(z, 6u8, d6) ^ pick(z, 7u8, d7)),
        0u8 ^ pick(0u8, 0u8, d0) ^ pick(0u8, 1u8, d1) ^ pick(0u8, 2u8, d2) ^ pick(0u8, 3u8, d3) ^ pick(0u8, 4u8, d4) ^ pick(0u8, 5u8, d5) ^ pick(0u8, 6u8, d6) ^ pick(0u8, 7u8, d7) == 0u8,
        0u8 ^ pick(1u8, 0u8, d0) ^ pick(1u8, 1u8, d1) ^ pick(1u8, 2u8, d2) ^ pick(1u8, 3u8, d3) ^ pick(1u8, 4u8, d4) ^ pick(1u8, 5u8, d5) ^ pick(1u8, 6u8, d6) ^ pick(1u8, 7u8, d7) == d0,
        (d0 as u16) < 2 * (top as u16) && (d1 as u16) < 2 * (top as u16) && (d2 as u16) < 2 * (top
            as u16) && (d3 as u16) < 2 * (top as u16) && (d4 as u16) < 2 * (top as u16) && (d5 as u16)
            < 2 * (top as u16) && (d6 as u16) < 2 * (top as u16) && (d7 as u16) < 2 * (top as u16)
            ==> ((0u8 ^ pick(y, 0u8, d0) ^ pick(y, 1u8, d1) ^ pick(y, 2u8, d2) ^ pick(y, 3u8, d3) ^ pick(y, 4u8, d4) ^ pick(y, 5u8, d5) ^ pick(y, 6u8, d6) ^ pick(y, 7u8, d7)) as u16) < 2 * (top as u16),
{
}

proof fn lemma_double_in_field_bits(top: u8, p: u8, v: u8)
    by (bit_vector)
    requires
        top == 1u8 || top == 2u8 || top == 4u8 || top == 8u8 || top == 16u8 || top == 32u8
            || top == 64u8 || top == 128u8,
        top == 128u8 || (2 * (top as u16) <= (p as u16) && (p as u16) < 4 * (top as u16)),
        (v as u16) < 2 * (top as u16),
    ensures
        (shift_reduce(top, p, v) as u16) < 2 * (top as u16),
{
}

proof fn lemma_pick_bits(y: u8, j: u8, v: u8)
    by (bit_vector)
    ensures
        (y >> j) & 1u8 == 1u8 ==> pick(y, j, v) == v,
        (y >> j) & 1u8 != 1u8 ==> pick(y, j, v) == 0u8,
{
}

/// Doubling keeps an element in the field.
proof fn lemma_doubled_in_field(w: u8, p: u8, x: u8, k: nat)
    requires
        valid_order(w),
        proper_poly(w, p),
        x < count_of(w),
    ensures
        doubled(w, p, x, k) < count_of(w),
    decreases k,
{
    lemma_order_sizes(w);
    if k > 0 {
        lemma_doubled_in_field(w, p, x, (k - 1) as nat);
        lemma_double_in_field_bits(top_of(w), p, doubled(w, p, x, (k - 1) as nat));
    }
}

/// Products of field elements are field elements.
pub proof fn lemma_mul_in_field(w: u8, p: u8, x: u8, y: u8)
    requires
        valid_order(w),
        proper_poly(w, p),
        x < count_of(w),
    ensures
        gf_mul(w, p, x, y) < count_of(w),
{
    lemma_order_sizes(w);
    lemma_mul_expand(w, p, x, y);
    lemma_doubled_in_field(w, p, x, 0);
    lemma_doubled_in_field(w, p, x, 1);
    lemma_doubled_in_field(w, p, x, 2);
    lemma_doubled_in_field(w, p, x, 3);
    lemma_doubled_in_field(w, p, x, 4);
    lemma_doubled_in_field(w, p, x, 5);
    lemma_doubled_in_field(w, p, x, 6);
    lemma_doubled_in_field(w, p, x, 7);
    lemma_sel_bits(top_of(w), y, 0, doubled(w, p, x, 0), doubled(w, p, x, 1), doubled(w, p, x, 2), doubled(w, p, x, 3), doubled(w, p, x, 4), doubled(w, p, x, 5), doubled(w, p, x, 6), doubled(w, p, x, 7));
}

/// The product distributes over addition in its second factor, and `x * 0 == 0`,
/// `x * 1 == x`.
proof fn lemma_mul_linear(w: u8, p: u8, x: u8, y: u8, z: u8)
    requires
        valid_order(w),
    ensures
        gf_mul(w, p, x, y ^ z) == gf_mul(w, p, x, y) ^ gf_mul(w, p, x, z),
        gf_mul(w, p, x, 0) == 0,
        gf_mul(w, p, x, 1) == x,
{
    lemma_order_sizes(w);
    lemma_mul_expand(w, p, x, y);
    lemma_mul_expand(w, p, x, z);
    lemma_mul_expand(w, p, x, y ^ z);
    lemma_mul_expand(w, p, x, 0);
    lemma_mul_expand(w, p, x, 1);
    lemma_sel_bits(top_of(w), y, z, doubled(w, p, x, 0), doubled(w, p, x, 1), doubled(w, p, x, 2), doubled(w, p, x, 3), doubled(w, p, x, 4), doubled(w, p, x, 5), doubled(w, p, x, 6), doubled(w, p, x, 7));
}

/// The doublings of `2x` are the doublings of `x` one step further.
proof fn lemma_doubled_shift(w: u8, p: u8, x: u8, j: nat)
    ensures
        doubled(w, p, shift_reduce(top_of(w), p, x), j) == doubled(w, p, x, j + 1),
    decreases j,
{
    assert(doubled(w, p, x, 0) == x);
    assert(doubled(w, p, x, j + 1) == shift_reduce(top_of(w), p, doubled(w, p, x, j)));
    if j > 0 {
        lemma_doubled_shift(w, p, x, (j - 1) as nat);
    }
}

/// Doubling a partial product doubles its left factor.
proof fn lemma_double_low_bits(w: u8, p: u8, x: u8, y: u8, k: nat)
    requires
        valid_order(w),
    ensures
        shift_reduce(top_of(w), p, mul_low_bits(w, p, x, y, k)) == mul_low_bits(
            w,
            p,
            shift_reduce(top_of(w), p, x),
            y,
            k,
        ),
    decreases k,
{
    let top = top_of(w);
    lemma_order_sizes(w);
    lemma_double_linear_bits(top, p, 0, 0);
    if k > 0 {
        let j = (k - 1) as nat;
        lemma_double_low_bits(w, p, x, y, j);
        let v = doubled(w, p, x, j);
        lemma_double_linear_bits(top, p, mul_low_bits(w, p, x, y, j), pick(y, j as u8, v));
        lemma_pick_bits(y, j as u8, v);
        lemma_pick_bits(y, j as u8, shift_reduce(top, p, v));
        lemma_doubled_shift(w, p, x, j);
    }
}

/// Multiplying the second factor by 2 multiplies the product by 2.
proof fn lemma_mul_double(w: u8, p: u8, x: u8, y: u8)
    requires
        valid_order(w),
        proper_poly(w, p),
        x < count_of(w),
        y < count_of(w),
    ensures
        gf_mul(w, p, x, shift_reduce(top_of(w), p, y)) == shift_reduce(
            top_of(w),
            p,
            gf_mul(w, p, x, y),
        ),
{
    let top = top_of(w);
    lemma_order_sizes(w);
    lemma_mul_expand(w, p, x, y);
    lemma_mul_expand(w, p, x, shift_reduce(top, p, y));
    assert(doubled(w, p, x, 8) == shift_reduce(top, p, doubled(w, p, x, 7)));
    lemma_doubled_in_field(w, p, x, 0);
    lemma_reduce_bits(top, p, doubled(w, p, x, 0), doubled(w, p, x, 1), doubled(w, p, x, 2), doubled(w, p, x, 3), doubled(w, p, x, 4), doubled(w, p, x, 5), doubled(w, p, x, 6), doubled(w, p, x, 7), doubled(w, p, x, 8));
    lemma_shift_sel_bits(top, p, y, shift_reduce(top, p, y), doubled(w, p, x, 0), doubled(w, p, x, 1), doubled(w, p, x, 2), doubled(w, p, x, 3), doubled(w, p, x, 4), doubled(w, p, x, 5), doubled(w, p, x, 6), doubled(w, p, x, 7), doubled(w, p, x, 8));
    lemma_double_low_bits(w, p, x, y, 8);
    let dx = shift_reduce(top, p, x);
    lemma_mul_expand(w, p, dx, y);
    lemma_doubled_shift(w, p, x, 0);
    lemma_doubled_shift(w, p, x, 1);
    lemma_doubled_shift(w, p, x, 2);
    lemma_doubled_shift(w, p, x, 3);
    lemma_doubled_shift(w, p, x, 4);
    lemma_doubled_shift(w, p, x, 5);
    lemma_doubled_shift(w, p, x, 6);
    lemma_doubled_shift(w, p, x, 7);
}

/// `x * (y * 2^k) == (x * y) * 2^k`.
proof fn lemma_mul_doubled(w: u8, p: u8, x: u8, y: u8, k: nat)
    requires
        valid_order(w),
        proper_poly(w, p),
        x < count_of(w),
        y < count_of(w),
    ensures
        gf_mul(w, p, x, doubled(w, p, y, k)) == doubled(w, p, gf_mul(w, p, x, y), k),
    decreases k,
{
    if k > 0 {
        let j = (k - 1) as nat;
        lemma_mul_doubled(w, p, x, y, j);
        lemma_doubled_in_field(w, p, y, j);
        lemma_mul_double(w, p, x, doubled(w, p, y, j));
    }
}

/// A left factor `x` passes through the partial products of the bits of `z`.
proof fn lemma_mul_low_bits_assoc(w: u8, p: u8, x: u8, y: u8, z: u8, k: nat)
    requires
        valid_order(w),
        proper_poly(w, p),
        x < count_of(w),
        y < count_of(w),
        k <= 8,
    ensures
        gf_mul(w, p, x, mul_low_bits(w, p, y, z, k)) == mul_low_bits(
            w,
            p,
            gf_mul(w, p, x, y),
            z,
            k,
        ),
    decreases k,
{
    lemma_mul_linear(w, p, x, 0, 0);
    if k > 0 {
        let j = (k - 1) as nat;
        lemma_mul_low_bits_assoc(w, p, x, y, z, j);
        let v = doubled(w, p, y, j);
        lemma_mul_linear(w, p, x, mul_low_bits(w, p, y, z, j), pick(z, j as u8, v));
        lemma_pick_bits(z, j as u8, v);
        lemma_pick_bits(z, j as u8, doubled(w, p, gf_mul(w, p, x, y), j));
        lemma_mul_doubled(w, p, x, y, j);
    }
}

/// `0 * y == 0`.
proof fn lemma_zero_times(w: u8, p: u8, y: u8)
    requires
        valid_order(w),
    ensures
        gf_mul(w, p, 0, y) == 0,
{
    lemma_order_sizes(w);
    lemma_mul_expand(w, p, 0, y);
    lemma_double_linear_bits(top_of(w), p, 0, 0);
    lemma_add_inverse_identity(0);
}

/// Multiplication is associative on the field.
pub proof fn lemma_mul_assoc(w: u8, p: u8, x: u8, y: u8, z: u8)
    requires
        valid_order(w),
        proper_poly(w, p),
        x < count_of(w),
        y < count_of(w),
    ensures
        gf_mul(w, p, gf_mul(w, p, x, y), z) == gf_mul(w, p, x, gf_mul(w, p, y, z)),
{
    lemma_mul_low_bits_assoc(w, p, x, y, z, 8);
}

proof fn lemma_pow_in_field(w: u8, p: u8, g: u8, a: nat)
    requires
        valid_order(w),
        proper_poly(w, p),
        g < count_of(w),
    ensures
        gf_pow(w, p, g, a) < count_of(w),
    decreases a,
{
    lemma_order_sizes(w);
    if a > 0 {
        lemma_pow_in_field(w, p, g, (a - 1) as nat);
        lemma_mul_in_field(w, p, gf_pow(w, p, g, (a - 1) as nat), g);
    }
}

/// `g^a * g^b == g^(a+b)`.
pub proof fn lemma_pow_add(w: u8, p: u8, g: u8, a: nat, b: nat)
    requires
        valid_order(w),
        proper_poly(w, p),
        g < count_of(w),
    ensures
        gf_mul(w, p, gf_pow(w, p, g, a), gf_pow(w, p, g, b)) == gf_pow(w, p, g, a + b),
    decreases b,
{
    lemma_order_sizes(w);
    lemma_pow_in_field(w, p, g, a);
    if b == 0 {
        lemma_mul_linear(w, p, gf_pow(w, p, g, a), 0, 0);
    } else {
        let c = (b - 1) as nat;
        lemma_pow_add(w, p, g, a, c);
        lemma_pow_in_field(w, p, g, c);
        lemma_mul_assoc(w, p, gf_pow(w, p, g, a), gf_pow(w, p, g, c), g);
        assert(gf_pow(w, p, g, a + b) == gf_mul(w, p, gf_pow(w, p, g, a + c), g));
    }
}

/// Galois field arithmetic on GF(2^w), with power and log tables built from a generator.
pub struct Gf2p {
    element_count: usize,
    overflow_flag: u8,
    w: u8,
    irreducible_polynomial: u8,
    generator: u8,
    power: Vec<u8>,
    log: Vec<u8>,
}

impl Gf2p {
    /// The order `w`.
    pub closed spec fn spec_w(&self) -> u8 {
        self.w
    }

    /// The polynomial byte.
    pub closed spec fn spec_poly(&self) -> u8 {
        self.irreducible_polynomial
    }

    /// The generator the tables were built from.
    pub closed spec fn spec_generator(&self) -> u8 {
        self.generator
    }

    /// The power table: exponent to element.
    pub closed spec fn power_seq(&self) -> Seq<u8> {
        self.power@
    }

    /// The log table: element to exponent.
    pub closed spec fn log_seq(&self) -> Seq<u8> {
        self.log@
    }

    /// The number of elements, `2^w`.
    pub open spec fn spec_count(&self) -> nat {
        count_of(self.spec_w())
    }

    /// The order and the derived sizes agree.
    pub closed spec fn params_wf(&self) -> bool {
        &&& valid_order(self.w)
        &&& self.element_count == count_of(self.w)
        &&& self.overflow_flag == top_of(self.w)
    }

    /// The field is fully built: `power[i] = g^i` for every exponent, `log` inverts it on the
    /// nonzero elements, with `log[1] = 0` (and `log[0] = 0`).
    pub closed spec fn wf(&self) -> bool {
        &&& self.params_wf()
        &&& proper_poly(self.w, self.irreducible_polynomial)
        &&& 2 <= self.generator < count_of(self.w)
        &&& is_generator_of(self.w, self.irreducible_polynomial, self.generator)
        &&& self.power@.len() == count_of(self.w)
        &&& self.log@.len() == count_of(self.w)
        &&& forall|i: int|
            0 <= i < count_of(self.w) ==> self.power@[i] == gf_pow(
                self.w,
                self.irreducible_polynomial,
                self.generator,
                i as nat,
            )
        &&& self.log@[0] == 0
        &&& self.log@[1] == 0
        &&& forall|k: int| 1 <= k < count_of(self.w) - 1 ==> self.log@[#[trigger] self.power@[k] as int] == k
        &&& forall|e: int| 0 <= e < count_of(self.w) ==> #[trigger] self.log@[e] < count_of(self.w) - 1
    }

    /// The table product: 0 when a factor is 0, else `power[(log x + log y) mod (2^w - 1)]`.
    pub open spec fn table_mul(&self, x: u8, y: u8) -> u8 {
        if x == 0 || y == 0 {
            0
        } else {
            self.power_seq()[(self.log_seq()[x as int] + self.log_seq()[y as int]) % (self.spec_count()
                - 1)]
        }
    }

    /// The table quotient: 0 when `x` is 0, else `power[(log x - log y) mod (2^w - 1)]`.
    pub open spec fn table_div(&self, x: u8, y: u8) -> u8 {
        if x == 0 {
            0
        } else {
            self.power_seq()[(self.log_seq()[x as int] - self.log_seq()[y as int]) % (self.spec_count()
                - 1)]
        }
    }

    pub proof fn lemma_wf_params(&self)
        requires
            self.wf(),
        ensures
            self.params_wf(),
            valid_order(self.spec_w()),
            2 <= self.spec_count() <= 256,
            self.power_seq().len() == self.spec_count(),
            self.log_seq().len() == self.spec_count(),
    {
        lemma_order_sizes(self.w);
    }

    /// add on GF(2^w): `x + y` is `x xor y`.
    pub fn add(&self, x: u8, y: u8) -> (r: u8)
        ensures
            r == x ^ y,
    {
        x ^ y
    }

    /// sub on GF(2^w): in characteristic 2 subtraction is the same xor as addition.
    pub fn sub(&self, x: u8, y: u8) -> (r: u8)
        ensures
            r == x ^ y,
    {
        x ^ y
    }

    /// `x` multiplied by 2: shift left, xor the polynomial in when the top bit overflows.
    fn mul_2(&self, x: u8) -> (r: u8)
        requires
            self.params_wf(),
        ensures
            r == shift_reduce(top_of(self.spec_w()), self.spec_poly(), x),
    {
        if (x & self.overflow_flag) != 0 {
            (x << 1) ^ self.irreducible_polynomial
        } else {
            x << 1
        }
    }

    /// Multiplication directly on GF(2^w): xor together `x * 2^i` for the set bits `i` of `y`.
    pub fn mul(&self, x: u8, y: u8) -> (r: u8)
        requires
            self.params_wf(),
        ensures
            r == gf_mul(self.spec_w(), self.spec_poly(), x, y),
    {
        let mut res: u8 = 0;
        let mut cur: u8 = x;
        for i in 0u8..8u8
            invariant
                self.params_wf(),
                cur == doubled(self.spec_w(), self.spec_poly(), x, i as nat),
                res == mul_low_bits(self.spec_w(), self.spec_poly(), x, y, i as nat),
        {
            let bit: u8 = (y >> i) & 1;
            proof {
                lemma_bit01(y, i);
                if bit == 0 {
                    assert(bit * cur == 0);
                } else {
                    assert(bit * cur == cur);
                }
            }
            res = res ^ (bit * cur);
            cur = self.mul_2(cur);
        }
        res
    }
    /// Whether `generator` generates the multiplicative group: walk its powers
    /// `g^1 .. g^(2^w - 1)`, reject a zero, an out-of-field or a repeated value, then check
    /// that every nonzero element was met.
    fn is_generator(&self, generator: u8) -> (r: bool)
        requires
            self.params_wf(),
        ensures
            r == is_generator_of(self.spec_w(), self.spec_poly(), generator),
    {
        let ghost w = self.spec_w();
        let ghost p = self.spec_poly();
        proof {
            lemma_order_sizes(w);
        }
        let n: usize = self.element_count;
        let mut seen: Vec<bool> = Vec::new();
        while seen.len() < n
            invariant
                seen.len() <= n,
                forall|e: int| 0 <= e < seen.len() ==> !seen@[e],
            decreases n - seen.len(),
        {
            seen.push(false);
        }
        let mut cur: u8 = 1;
        let mut k: usize = 1;
        while k < n
            invariant
                self.params_wf(),
                w == self.spec_w(),
                p == self.spec_poly(),
                n == count_of(w),
                2 <= n <= 256,
                1 <= k <= n,
                seen@.len() == n,
                cur == gf_pow(w, p, generator, (k - 1) as nat),
                forall|i: nat| 1 <= i < k ==> 1 <= #[trigger] gf_pow(w, p, generator, i) < n,
                forall|i: nat, j: nat|
                    1 <= i < j < k ==> #[trigger] gf_pow(w, p, generator, i) != #[trigger] gf_pow(
                        w,
                        p,
                        generator,
                        j,
                    ),
                forall|e: int|
                    0 <= e < n ==> (seen@[e] <==> exists|i: nat|
                        1 <= i < k && #[trigger] gf_pow(w, p, generator, i) == e),
            decreases n - k,
        {
            cur = self.mul(cur, generator);
            assert(cur == gf_pow(w, p, generator, k as nat));
            if cur == 0 || cur as usize >= n {
                return false;
            }
            if seen[cur as usize] {
                proof {
                    let i = choose|i: nat| 1 <= i < k && #[trigger] gf_pow(w, p, generator, i) == cur;
                    assert(gf_pow(w, p, generator, i) == gf_pow(w, p, generator, k as nat));
                }
                return false;
            }
            seen.set(cur as usize, true);
            k = k + 1;
        }
        let mut e: usize = 1;
        while e < n
            invariant
                self.params_wf(),
                w == self.spec_w(),
                p == self.spec_poly(),
                n == count_of(w),
                n <= 256,
                1 <= e <= n,
                seen@.len() == n,
                forall|i: nat| 1 <= i < n ==> 1 <= #[trigger] gf_pow(w, p, generator, i) < n,
                forall|i: nat, j: nat|
                    1 <= i < j < n ==> #[trigger] gf_pow(w, p, generator, i) != #[trigger] gf_pow(
                        w,
                        p,
                        generator,
                        j,
                    ),
                forall|x: int|
                    0 <= x < n ==> (seen@[x] <==> exists|i: nat|
                        1 <= i < n && #[trigger] gf_pow(w, p, generator, i) == x),
                forall|x: u8| 1 <= x < e ==> #[trigger] in_cycle(w, p, generator, x),
            decreases n - e,
        {
            if !seen[e] {
                assert(!in_cycle(w, p, generator, e as u8));
                return false;
            }
            assert(in_cycle(w, p, generator, e as u8));
            e = e + 1;
        }
        true
    }

    /// The smallest generator among `2, 3, .., 2^w - 1`, if there is one.
    pub fn min_generator(&self) -> (r: Option<u8>)
        requires
            self.params_wf(),
        ensures
            match r {
                Some(g) => is_min_generator(self.spec_w(), self.spec_poly(), g),
                None => !has_generator(self.spec_w(), self.spec_poly()),
            },
    {
        proof {
            lemma_order_sizes(self.spec_w());
        }
        let n: usize = self.element_count;
        let mut g: usize = 2;
        while g < n
            invariant
                self.params_wf(),
                n == count_of(self.spec_w()),
                n <= 256,
                2 <= g <= n,
                forall|h: u8| 2 <= h < g ==> !#[trigger] is_generator_of(self.spec_w(), self.spec_poly(), h),
            decreases n - g,
        {
            if self.is_generator(g as u8) {
                return Some(g as u8);
            }
            g = g + 1;
        }
        None
    }

    /// All generators among `2, 3, .., 2^w - 1`, ascending.
    pub fn all_generators(&self) -> (r: Vec<u8>)
        requires
            self.params_wf(),
        ensures
            r@ == generators_in(self.spec_w(), self.spec_poly(), 2, self.spec_count()),
    {
        proof {
            lemma_order_sizes(self.spec_w());
        }
        let n: usize = self.element_count;
        let mut res: Vec<u8> = Vec::new();
        let mut g: usize = 2;
        while g < n
            invariant
                self.params_wf(),
                n == count_of(self.spec_w()),
                n <= 256,
                2 <= g <= n,
                res@ == generators_in(self.spec_w(), self.spec_poly(), 2, g as nat),
            decreases n - g,
        {
            if self.is_generator(g as u8) {
                res.push(g as u8);
            }
            g = g + 1;
        }
        res
    }
    /// Builds the power table `power[i] = g^i` and the log table that inverts it, from the
    /// generator `g`; `log[1]` is set to 0 last, since both `g^0` and `g^(2^w - 1)` are 1.
    fn generate_power_log_table(&mut self, g: u8)
        requires
            old(self).params_wf(),
            proper_poly(old(self).spec_w(), old(self).spec_poly()),
            2 <= g < count_of(old(self).spec_w()),
            is_generator_of(old(self).spec_w(), old(self).spec_poly(), g),
        ensures
            final(self).wf(),
            final(self).spec_w() == old(self).spec_w(),
            final(self).spec_poly() == old(self).spec_poly(),
            final(self).spec_generator() == g,
    {
        let ghost w = self.spec_w();
        let ghost p = self.spec_poly();
        proof {
            lemma_order_sizes(w);
            lemma_generator_cycle(w, p, g);
        }
        let n: usize = self.element_count;
        let mut log: Vec<u8> = Vec::new();
        while log.len() < n
            invariant
                log.len() <= n,
                forall|e: int| 0 <= e < log.len() ==> log@[e] == 0,
            decreases n - log.len(),
        {
            log.push(0);
        }
        let mut power: Vec<u8> = Vec::new();
        power.push(1);
        let mut cur: u8 = 1;
        let mut i: usize = 1;
        while i < n
            invariant
                self.params_wf(),
                w == self.spec_w(),
                p == self.spec_poly(),
                n == count_of(w),
                2 <= n <= 256,
                is_generator_of(w, p, g),
                1 <= i <= n,
                power@.len() == i,
                log@.len() == n,
                cur == gf_pow(w, p, g, (i - 1) as nat),
                forall|j: int| 0 <= j < i ==> power@[j] == gf_pow(w, p, g, j as nat),
                forall|j: nat| 1 <= j < i ==> log@[#[trigger] gf_pow(w, p, g, j) as int] == j,
                forall|e: int|
                    0 <= e < n ==> #[trigger] log@[e] == 0 || (1 <= log@[e] < i && gf_pow(
                        w,
                        p,
                        g,
                        log@[e] as nat,
                    ) == e),
                log@[0] == 0,
            decreases n - i,
        {
            cur = self.mul(cur, g);
            assert(cur == gf_pow(w, p, g, i as nat));
            assert(1 <= gf_pow(w, p, g, i as nat) < n);
            power.push(cur);
            log.set(cur as usize, i as u8);
            assert forall|j: nat| 1 <= j < i + 1 implies log@[#[trigger] gf_pow(w, p, g, j) as int] == j by {
                if j < i {
                    assert(gf_pow(w, p, g, j) != gf_pow(w, p, g, i as nat));
                }
            }
            i = i + 1;
        }
        log.set(1, 0);
        assert forall|k: int| 1 <= k < n - 1 implies log@[#[trigger] power@[k] as int] == k by {
            assert(power@[k] == gf_pow(w, p, g, k as nat));
            assert(gf_pow(w, p, g, k as nat) != 1);
        }
        assert forall|e: int| 0 <= e < n implies #[trigger] log@[e] < n - 1 by {
            if e != 1 && log@[e] != 0 && log@[e] == n - 1 {
                assert(gf_pow(w, p, g, (n - 1) as nat) == 1);
            }
        }
        self.generator = g;
        self.power = power;
        self.log = log;
    }

    /// Creates GF(2^w) with the given polynomial byte: fails with `InvalidOrder` unless
    /// `1 <= w <= 8`, and with `NoGeneratorFound` when no candidate generates the field;
    /// otherwise the tables are built from the smallest generator. A byte that holds no
    /// polynomial of degree `w` (see `proper_poly`) describes no field and is refused with
    /// `NoGeneratorFound` before the search.
    pub fn new(w: u8, irreducible_polynomial: u8) -> (r: Result<Gf2p, Error>)
        ensures
            !valid_order(w) ==> r == Err::<Gf2p, Error>(Error::InvalidOrder),
            valid_order(w) && !(proper_poly(w, irreducible_polynomial) && has_generator(
                w,
                irreducible_polynomial,
            )) ==> r == Err::<Gf2p, Error>(Error::NoGeneratorFound),
            valid_order(w) && proper_poly(w, irreducible_polynomial) && has_generator(
                w,
                irreducible_polynomial,
            ) ==> r is Ok,
            r is Ok ==> {
                let gf = r->Ok_0;
                &&& gf.wf()
                &&& gf.spec_w() == w
                &&& gf.spec_poly() == irreducible_polynomial
                &&& is_min_generator(w, irreducible_polynomial, gf.spec_generator())
            },
    {
        if w == 0 || w >= 9 {
            return Err(Error::InvalidOrder);
        }
        proof {
            lemma_order_sizes(w);
        }
        let overflow_flag: u8 = 1u8 << (w - 1);
        let element_count: usize = 2 * (overflow_flag as usize);
        if w != 8 && ((irreducible_polynomial as usize) < element_count || (irreducible_polynomial
            as usize) >= 2 * element_count) {
            return Err(Error::NoGeneratorFound);
        }
        let mut gf = Gf2p {
            element_count,
            overflow_flag,
            w,
            irreducible_polynomial,
            generator: 0,
            power: Vec::new(),
            log: Vec::new(),
        };
        match gf.min_generator() {
            None => Err(Error::NoGeneratorFound),
            Some(g) => {
                gf.generate_power_log_table(g);
                Ok(gf)
            },
        }
    }

    /// The smallest element, 0.
    pub fn min_element(&self) -> (r: u8)
        ensures
            r == 0,
    {
        0
    }

    /// The largest element, `2^w - 1`.
    pub fn max_element(&self) -> (r: u8)
        requires
            self.wf(),
        ensures
            r == self.spec_count() - 1,
    {
        proof {
            self.lemma_wf_params();
        }
        (self.element_count - 1) as u8
    }

    /// How many elements the field has, `2^w`.
    pub fn get_element_count(&self) -> (r: usize)
        requires
            self.wf(),
        ensures
            r == self.spec_count(),
    {
        self.element_count
    }

    /// A copy of the power table.
    pub fn power_table(&self) -> (r: Vec<u8>)
        ensures
            r@ == self.power_seq(),
    {
        self.power.clone()
    }

    /// A copy of the log table.
    pub fn log_table(&self) -> (r: Vec<u8>)
        ensures
            r@ == self.log_seq(),
    {
        self.log.clone()
    }

    /// Multiplication through the power and log tables.
    pub fn mul_by_power_log_table(&self, x: u8, y: u8) -> (r: u8)
        requires
            self.wf(),
            x < self.spec_count(),
            y < self.spec_count(),
        ensures
            r == self.table_mul(x, y),
    {
        if x == 0 || y == 0 {
            return 0;
        }
        proof {
            self.lemma_wf_params();
        }
        let sum: usize = ((self.log[x as usize] as usize) + (self.log[y as usize] as usize)) % (
        self.element_count - 1);
        self.power[sum]
    }

    /// Division through the power and log tables; the divisor must be nonzero.
    pub fn div_by_power_log_table(&self, x: u8, y: u8) -> (r: u8)
        requires
            self.wf(),
            x < self.spec_count(),
            1 <= y < self.spec_count(),
        ensures
            r == self.table_div(x, y),
    {
        if x == 0 {
            return 0;
        }
        proof {
            self.lemma_wf_params();
        }
        let m: usize = self.element_count - 1;
        let lx: usize = self.log[x as usize] as usize;
        let ly: usize = self.log[y as usize] as usize;
        assert(lx < m && ly < m);
        let difference: usize = if lx >= ly {
            lx - ly
        } else {
            lx + m - ly
        };
        proof {
            if lx >= ly {
                lemma_small_mod((lx - ly) as nat, m as nat);
            } else {
                lemma_mod_add_multiples_vanish(lx - ly, m as int);
                lemma_small_mod((lx + m - ly) as nat, m as nat);
            }
        }
        self.power[difference]
    }
    /// The overflow flag, `2^(w-1)`.
    pub closed spec fn spec_top(&self) -> u8 {
        self.overflow_flag
    }

    /// The element count is twice the overflow flag, a power of two up to 128.
    pub proof fn lemma_top_count(&self)
        requires
            self.wf(),
        ensures
            self.spec_count() == 2 * (self.spec_top() as nat),
            self.spec_top() == 1 || self.spec_top() == 2 || self.spec_top() == 4 || self.spec_top() == 8
                || self.spec_top() == 16 || self.spec_top() == 32 || self.spec_top() == 64
                || self.spec_top() == 128,
    {
        lemma_order_sizes(self.w);
    }

    /// A table quotient is an element of the field.
    pub proof fn lemma_table_div_in_field(&self, x: u8, y: u8)
        requires
            self.wf(),
            x < self.spec_count(),
            1 <= y < self.spec_count(),
        ensures
            self.table_div(x, y) < self.spec_count(),
    {
        lemma_order_sizes(self.w);
        if x != 0 {
            let m = self.spec_count() - 1;
            let i = (self.log@[x as int] - self.log@[y as int]) % m;
            assert(0 <= i < m);
            assert(self.power@[i] == gf_pow(self.w, self.irreducible_polynomial, self.generator, i as nat));
            if i > 0 {
                assert(1 <= gf_pow(self.w, self.irreducible_polynomial, self.generator, i as nat) < self.spec_count());
            }
        }
    }

    /// Every nonzero element is `power[log[e]]`, with its exponent below `2^w - 1`.
    pub proof fn lemma_power_of_log(&self, e: u8)
        requires
            self.wf(),
            1 <= e < self.spec_count(),
        ensures
            self.log_seq()[e as int] < self.spec_count() - 1,
            self.power_seq()[self.log_seq()[e as int] as int] == e,
    {
        let w = self.w;
        let p = self.irreducible_polynomial;
        let g = self.generator;
        lemma_order_sizes(w);
        lemma_generator_cycle(w, p, g);
        assert(in_cycle(w, p, g, e));
        let k = choose|k: nat| 1 <= k < count_of(w) && #[trigger] gf_pow(w, p, g, k) == e;
        assert(self.power@[k as int] == e);
        if k == count_of(w) - 1 {
            assert(self.power@[0] == gf_pow(w, p, g, 0));
        }
    }

    /// Table multiplication agrees with direct multiplication on all elements.
    pub proof fn lemma_table_mul_is_mul(&self, x: u8, y: u8)
        requires
            self.wf(),
            x < self.spec_count(),
            y < self.spec_count(),
        ensures
            self.table_mul(x, y) == gf_mul(self.spec_w(), self.spec_poly(), x, y),
    {
        if x == 0 {
            lemma_zero_times(self.w, self.irreducible_polynomial, y);
        } else if y == 0 {
            lemma_mul_linear(self.w, self.irreducible_polynomial, x, 0, 0);
        } else {
            self.lemma_table_mul_nonzero(x, y);
        }
    }

    proof fn lemma_table_mul_nonzero(&self, x: u8, y: u8)
        requires
            self.wf(),
            1 <= x < self.spec_count(),
            1 <= y < self.spec_count(),
        ensures
            self.table_mul(x, y) == gf_mul(self.spec_w(), self.spec_poly(), x, y),
    {
        let w = self.w;
        let p = self.irreducible_polynomial;
        let g = self.generator;
        let m = (count_of(w) - 1) as nat;
        lemma_order_sizes(w);
        self.lemma_power_of_log(x);
        self.lemma_power_of_log(y);
        let lx = self.log@[x as int] as nat;
        let ly = self.log@[y as int] as nat;
        assert(self.power@[lx as int] == gf_pow(w, p, g, lx));
        assert(self.power@[ly as int] == gf_pow(w, p, g, ly));
        lemma_pow_add(w, p, g, lx, ly);
        if lx + ly < m {
            lemma_small_mod(lx + ly, m);
            assert(self.power@[(lx + ly) as int] == gf_pow(w, p, g, lx + ly));
        } else {
            let s = (lx + ly - m) as nat;
            lemma_mod_add_multiples_vanish(s as int, m as int);
            lemma_small_mod(s, m);
            assert(self.power@[s as int] == gf_pow(w, p, g, s));
            lemma_generator_cycle(w, p, g);
            lemma_pow_add(w, p, g, m, s);
            lemma_pow_in_field(w, p, g, s);
            lemma_one_times(w, p, gf_pow(w, p, g, s));
            assert(lx + ly == m + s);
        }
    }

    /// The tables start at `power[0] = 1` and `log[1] = 0`, and `log` inverts `power` on
    /// every exponent `1 <= i < 2^w - 1`.
    pub proof fn lemma_tables_inverse(&self)
        requires
            self.wf(),
        ensures
            self.power_seq()[0] == 1,
            self.log_seq()[1] == 0,
            forall|i: int|
                1 <= i < self.spec_count() - 1 ==> self.log_seq()[#[trigger] self.power_seq()[i] as int]
                    == i,
    {
        lemma_order_sizes(self.w);
        assert(self.power@[0] == gf_pow(self.w, self.irreducible_polynomial, self.generator, 0));
    }

    /// Dividing a nonzero element by itself gives 1, and multiplying by that quotient gives the
    /// element back.
    pub proof fn lemma_divide_self(&self, x: u8)
        requires
            self.wf(),
            1 <= x < self.spec_count(),
        ensures
            self.table_div(x, x) == 1,
            self.table_mul(x, self.table_div(x, x)) == x,
    {
        self.lemma_power_of_log(x);
        self.lemma_tables_inverse();
        lemma_order_sizes(self.w);
        lemma_small_mod(0, (self.spec_count() - 1) as nat);
        lemma_small_mod(self.log@[x as int] as nat, (self.spec_count() - 1) as nat);
    }

    /// 1 is the identity of the table product: `1 * y == y` for every element `y`.
    pub proof fn lemma_table_one_times(&self, y: u8)
        requires
            self.wf(),
            y < self.spec_count(),
        ensures
            self.table_mul(1, y) == y,
    {
        if y != 0 {
            self.lemma_power_of_log(y);
            self.lemma_tables_inverse();
            lemma_order_sizes(self.w);
            lemma_small_mod(self.log@[y as int] as nat, (self.spec_count() - 1) as nat);
        }
    }
}

/// Addition is its own inverse and 0 is its identity: `x + x == 0`, `x + 0 == x`.
pub proof fn lemma_add_inverse_identity(x: u8)
    by (bit_vector)
    ensures
        x ^ x == 0u8,
        x ^ 0u8 == x,
        0u8 ^ x == x,
{
}

} // verus!
