//! Arithmetic of naturally aligned power-of-two blocks.
use vstd::arithmetic::div_mod::*;
use vstd::arithmetic::mul::*;
use vstd::arithmetic::power2::*;
use vstd::bits::*;
use vstd::prelude::*;
use vstd::std_specs::bits::*;

verus! {

/// Number of frames in a block of the given order.
pub open spec fn pages(order: int) -> int {
    pow2(order as nat) as int
}

/// The other half of the block of order `order + 1` that holds `frame`.
pub open spec fn buddy_of(frame: int, order: int) -> int {
    if (frame / pages(order)) % 2 == 0 {
        frame + pages(order)
    } else {
        frame - pages(order)
    }
}

/// The first frame of the block of order `order + 1` that holds `frame`.
pub open spec fn parent_of(frame: int, order: int) -> int {
    if (frame / pages(order)) % 2 == 0 {
        frame
    } else {
        frame - pages(order)
    }
}

/// The first frame of the block of order `order` that holds `frame`.
pub open spec fn block_start(frame: int, order: int) -> int {
    frame - frame % pages(order)
}

pub proof fn lemma_pages(order: int)
    requires
        0 <= order,
    ensures
        pages(order) >= 1,
        pages(order + 1) == 2 * pages(order),
{
    lemma_pow2_pos(order as nat);
    lemma_pow2_unfold((order + 1) as nat);
}

/// A block of order zero is one frame.
pub proof fn lemma_single()
    ensures
        pages(0) == 1,
{
    lemma2_to64();
}

/// Sizes of the orders in use.
pub proof fn lemma_pages_bound(order: int)
    requires
        0 <= order <= 11,
    ensures
        1 <= pages(order) <= 2048,
{
    lemma2_to64();
    lemma_pow2_pos(order as nat);
    if order < 11 {
        lemma_pow2_strictly_increases(order as nat, 11);
    }
}

pub proof fn lemma_pages_monotonic(a: int, b: int)
    requires
        0 <= a <= b,
    ensures
        pages(a) <= pages(b),
{
    if a < b {
        lemma_pow2_strictly_increases(a as nat, b as nat);
    }
}

/// Aligned intervals of one size that meet are the same interval.
pub proof fn lemma_aligned_meet(f: int, g: int, p: int)
    requires
        p > 0,
        f % p == 0,
        g % p == 0,
        f < g + p,
        g < f + p,
    ensures
        f == g,
{
    lemma_fundamental_div_mod(f, p);
    lemma_fundamental_div_mod(g, p);
    let a = f / p;
    let b = g / p;
    if a < b {
        lemma_mul_inequality(a + 1, b, p);
        lemma_mul_is_distributive_add_other_way(p, a, 1);
        assert(p * b >= p * a + p) by {
            lemma_mul_is_commutative(p, a);
            lemma_mul_is_commutative(p, b);
        }
    } else if b < a {
        lemma_mul_inequality(b + 1, a, p);
        lemma_mul_is_distributive_add_other_way(p, b, 1);
        assert(p * a >= p * b + p) by {
            lemma_mul_is_commutative(p, a);
            lemma_mul_is_commutative(p, b);
        }
    }
}

/// The block that holds a frame.
pub proof fn lemma_block_start(g: int, order: int)
    requires
        0 <= g,
        0 <= order,
    ensures
        0 <= block_start(g, order) <= g < block_start(g, order) + pages(order),
        block_start(g, order) % pages(order) == 0,
{
    let p = pages(order);
    lemma_pages(order);
    lemma_mod_bound(g, p);
    lemma_fundamental_div_mod(g, p);
    lemma_mod_multiples_basic(g / p, p);
    lemma_mul_is_commutative(g / p, p);
    lemma_div_pos_is_pos(g, p);
    lemma_mul_nonnegative(p, g / p);
}

/// A frame of an aligned block has that block as its own.
pub proof fn lemma_block_start_unique(f: int, g: int, order: int)
    requires
        0 <= f,
        0 <= order,
        f % pages(order) == 0,
        f <= g < f + pages(order),
    ensures
        block_start(g, order) == f,
{
    lemma_block_start(g, order);
    lemma_pages(order);
    lemma_aligned_meet(f, block_start(g, order), pages(order));
}

/// Halving an aligned block.
pub proof fn lemma_halves(f: int, order: int)
    requires
        0 <= order,
        f % pages(order + 1) == 0,
    ensures
        f % pages(order) == 0,
        (f + pages(order)) % pages(order) == 0,
        buddy_of(f, order) == f + pages(order),
        buddy_of(f + pages(order), order) == f,
        parent_of(f, order) == f,
        parent_of(f + pages(order), order) == f,
{
    let p = pages(order);
    lemma_pages(order);
    lemma_fundamental_div_mod(f, 2 * p);
    let k = f / (2 * p);
    assert(f == p * (2 * k)) by (nonlinear_arith)
        requires
            f == (2 * p) * k,
    ;
    assert(f + p == p * (2 * k + 1)) by (nonlinear_arith)
        requires
            f == (2 * p) * k,
    ;
    lemma_fundamental_div_mod_converse(f, p, 2 * k, 0);
    lemma_fundamental_div_mod_converse(f + p, p, 2 * k + 1, 0);
}

/// What holds of a buddy.
pub proof fn lemma_buddy(f: int, order: int)
    requires
        0 <= f,
        0 <= order,
        f % pages(order) == 0,
    ensures
        0 <= buddy_of(f, order),
        buddy_of(f, order) != f,
        buddy_of(f, order) % pages(order) == 0,
        buddy_of(buddy_of(f, order), order) == f,
        0 <= parent_of(f, order),
        parent_of(f, order) % pages(order + 1) == 0,
        parent_of(buddy_of(f, order), order) == parent_of(f, order),
        parent_of(f, order) == if f < buddy_of(f, order) { f } else { buddy_of(f, order) },
        f < buddy_of(f, order) ==> buddy_of(f, order) == f + pages(order),
        f > buddy_of(f, order) ==> f == buddy_of(f, order) + pages(order),
{
    let p = pages(order);
    lemma_pages(order);
    lemma_fundamental_div_mod(f, p);
    let q = f / p;
    lemma_div_pos_is_pos(f, p);
    let k = q / 2;
    if q % 2 == 0 {
        assert(f == (2 * p) * k) by (nonlinear_arith)
            requires
                f == p * q,
                q == 2 * k,
        ;
        lemma_fundamental_div_mod_converse(f, 2 * p, k, 0);
        lemma_halves(f, order);
    } else {
        let e = f - p;
        assert(e == (2 * p) * k) by (nonlinear_arith)
            requires
                e == p * q - p,
                q == 2 * k + 1,
        ;
        assert(e >= 0) by (nonlinear_arith)
            requires
                e == (2 * p) * k,
                p >= 1,
                k >= 0,
        ;
        lemma_fundamental_div_mod_converse(e, 2 * p, k, 0);
        lemma_halves(e, order);
    }
}

/// Alignment to an order holds for every smaller one.
pub proof fn lemma_align_down(f: int, small: int, large: int)
    requires
        0 <= small <= large,
        f % pages(large) == 0,
    ensures
        f % pages(small) == 0,
    decreases large - small,
{
    if small < large {
        lemma_halves(f, large - 1);
        lemma_align_down(f, small, large - 1);
    }
}

/// A block of some order lies within one block of any larger order.
pub proof fn lemma_block_nested(f: int, g: int, small: int, large: int)
    requires
        0 <= f,
        0 <= g,
        0 <= small <= large,
        f % pages(small) == 0,
        g % pages(large) == 0,
        f < g + pages(large),
        g < f + pages(small),
    ensures
        g <= f,
        f + pages(small) <= g + pages(large),
    decreases large - small,
{
    if small == large {
        lemma_aligned_meet(f, g, pages(small));
    } else {
        lemma_pages(small);
        lemma_pages(large - 1);
        lemma_halves(g, large - 1);
        if f < g + pages(large - 1) {
            lemma_block_nested(f, g, small, large - 1);
        } else {
            lemma_block_nested(f, g + pages(large - 1), small, large - 1);
        }
    }
}

/// `1 << order` is the number of frames of a block.
pub proof fn lemma_shift(order: u64)
    requires
        order < 64,
    ensures
        (1u64 << order) == pages(order as int),
{
    lemma2_to64_rest();
    lemma2_to64();
    lemma_pow2_strictly_increases(order as nat, 64);
    lemma_u64_shl_is_mul(1, order);
}

/// The bit operations that find a buddy and a parent.
pub proof fn lemma_buddy_bits(frame: u64, order: u64)
    requires
        order < 64,
        frame as int % pages(order as int) == 0,
    ensures
        (frame ^ (1u64 << order)) == buddy_of(frame as int, order as int),
        (frame & !(1u64 << order)) == parent_of(frame as int, order as int),
{
    lemma_shift(order);
    let m = 1u64 << order;
    lemma_u64_shr_is_div(frame, order);
    let q = frame >> order;
    assert((frame & (1u64 << order)) == 0 <==> (frame >> order) % 2 == 0) by (bit_vector)
        requires
            order < 64,
    ;
    assert((frame & m) == 0 ==> (frame ^ m) == frame + m && (frame & !m) == frame) by (bit_vector)
        requires
            m == 1u64 << order,
            order < 64,
    ;
    assert((frame & m) != 0 ==> (frame ^ m) == frame - m && (frame & !m) == frame - m)
        by (bit_vector)
        requires
            m == 1u64 << order,
            order < 64,
    ;
}

proof fn lemma_low_zeros(start: u64, order: u64)
    requires
        order < 64,
        forall|j: u64| 0 <= j < order ==> #[trigger] (start >> j) & 1u64 == 0u64,
    ensures
        start as int % pages(order as int) == 0,
    decreases order,
{
    if order == 0 {
        lemma2_to64();
    } else {
        let o = (order - 1) as u64;
        lemma_low_zeros(start, o);
        assert((start >> o) & 1u64 == 0u64);
        lemma_u64_shr_is_div(start, o);
        let q = start >> o;
        assert(q & 1u64 == 0u64 ==> q % 2 == 0) by (bit_vector);
        lemma_buddy(start as int, o as int);
    }
}

/// Trailing zeros give the largest order to which a number is aligned.
pub proof fn lemma_trailing_zeros(start: u64, order: int)
    requires
        start > 0,
        0 <= order < 64,
    ensures
        start as int % pages(order) == 0 <==> order <= u64_trailing_zeros(start),
{
    axiom_u64_trailing_zeros(start);
    let tz = u64_trailing_zeros(start) as u64;
    lemma_low_zeros(start, tz);
    if order <= tz {
        lemma_align_down(start as int, order, tz as int);
    } else if start as int % pages(order) == 0 {
        lemma_align_down(start as int, tz + 1, order);
        lemma_pages(tz as int);
        lemma_halves(start as int, tz as int);
        lemma_u64_shr_is_div(start, tz);
        let q = start >> tz;
        assert(q & 1u64 == 1u64 ==> q % 2 == 1) by (bit_vector);
        assert(buddy_of(start as int, tz as int) == start + pages(tz as int));
    }
}

/// Leading zeros give the largest order that fits in a count.
pub proof fn lemma_leading_zeros(count: u64, order: int)
    requires
        count > 0,
        0 <= order < 64,
    ensures
        u64_leading_zeros(count) <= 63,
        pages(order) <= count <==> order <= 63 - u64_leading_zeros(count),
{
    axiom_u64_leading_zeros(count);
    let top = (63 - u64_leading_zeros(count)) as u64;
    let lz = u64_leading_zeros(count) as u64;
    lemma_u64_shr_is_div(count, top);
    let q = count >> top;
    assert((count >> top) & 1u64 != 0u64);
    assert(q & 1u64 != 0u64 ==> q >= 1) by (bit_vector);
    let p = pages(top as int);
    lemma_pages(top as int);
    lemma_fundamental_div_mod(count as int, p);
    lemma_mod_bound(count as int, p);
    lemma_mul_inequality(1, q as int, p);
    lemma_mul_is_commutative(p, q as int);
    assert(p <= count);
    if order <= top {
        lemma_pages_monotonic(order, top as int);
    } else {
        lemma_pages_monotonic(top + 1, order);
        assert(count < 2 * p) by {
            if top == 63 {
                lemma2_to64_rest();
                assert(p == 0x8000_0000_0000_0000);
            } else {
                let up = (top + 1) as u64;
                assert(up == 64 - lz);
                assert(count >> up == 0);
                lemma_u64_shr_is_div(count, up);
                lemma_fundamental_div_mod(count as int, pages(up as int));
                lemma_pages(up as int);
                lemma_mod_bound(count as int, pages(up as int));
                assert(count as int / pages(up as int) == 0);
                assert(pages(up as int) * 0 == 0);
            }
        }
    }
}

} // verus!
