//! Facts about shifts, powers of two and floor division used by the
//! histogram code.
use vstd::prelude::*;
use vstd::arithmetic::power2::{pow2, lemma_pow2_pos, lemma_pow2_unfold, lemma_pow2_strictly_increases, lemma2_to64};
use vstd::arithmetic::div_mod::{lemma_fundamental_div_mod, lemma_fundamental_div_mod_converse, lemma_mod_bound};
use vstd::bits::lemma_u32_shl_is_mul;

verus! {

/// Halving a floor quotient by `2^d` gives the floor quotient by `2^(d+1)`.
pub proof fn lemma_div_pow2_step(x: int, d: nat)
    ensures
        (x / (pow2(d) as int)) / 2 == x / (pow2(d + 1) as int),
{
    let p = pow2(d) as int;
    lemma_pow2_pos(d);
    lemma_pow2_unfold(d + 1);
    assert(pow2(d + 1) as int == 2 * p);
    let q1 = x / p;
    let r1 = x % p;
    lemma_fundamental_div_mod(x, p);
    lemma_mod_bound(x, p);
    let q2 = q1 / 2;
    let r2 = q1 % 2;
    lemma_fundamental_div_mod(q1, 2);
    lemma_mod_bound(q1, 2);
    assert(x == q2 * (2 * p) + (p * r2 + r1)) by (nonlinear_arith)
        requires
            x == p * q1 + r1,
            q1 == 2 * q2 + r2,
    ;
    assert(0 <= p * r2 + r1 < 2 * p) by (nonlinear_arith)
        requires
            0 <= r2 < 2,
            0 <= r1 < p,
            p > 0,
    ;
    lemma_fundamental_div_mod_converse(x, 2 * p, q2, p * r2 + r1);
}

/// An arithmetic shift right by one of a 32-bit integer is the floor of its half.
pub proof fn lemma_i32_shr1(y: i32)
    ensures
        (y >> 1u32) as int == (y as int) / 2,
{
    assert(2 * (y >> 1u32) <= y < 2 * (y >> 1u32) + 2) by (bit_vector);
    lemma_fundamental_div_mod_converse(y as int, 2, (y >> 1u32) as int, y - 2 * (y >> 1u32));
}

/// An arithmetic shift right by one of a 64-bit integer is the floor of its half.
pub proof fn lemma_i64_shr1(y: i64)
    ensures
        (y >> 1u32) as int == (y as int) / 2,
{
    assert(2 * (y >> 1u32) <= y < 2 * (y >> 1u32) + 2) by (bit_vector);
    lemma_fundamental_div_mod_converse(y as int, 2, (y >> 1u32) as int, y - 2 * (y >> 1u32));
}

/// An arithmetic shift right of a 32-bit integer by `d` is the floor of its
/// quotient by `2^d`.
pub proof fn lemma_i32_shr_is_floor_div(x: i32, d: u32)
    requires
        d < 32,
    ensures
        (x >> d) as int == (x as int) / (pow2(d as nat) as int),
    decreases d,
{
    if d == 0 {
        assert(x >> 0u32 == x) by (bit_vector);
        lemma2_to64();
        assert((x as int) / 1 == x as int);
    } else {
        let e = (d - 1) as u32;
        lemma_i32_shr_is_floor_div(x, e);
        let y = x >> e;
        assert(x >> d == y >> 1u32) by (bit_vector)
            requires
                y == x >> e,
                d == e + 1,
                e < 31,
        ;
        lemma_i32_shr1(y);
        lemma_div_pow2_step(x as int, e as nat);
        assert((e as nat) + 1 == d as nat);
        assert((x >> d) as int == (y as int) / 2);
    }
}

/// `2^d` for `d <= 30`, as a `u32` computed by a shift.
pub proof fn lemma_one_shl_u32(d: u32)
    requires
        d <= 30,
    ensures
        (1u32 << d) as int == pow2(d as nat) as int,
        pow2(d as nat) <= 0x4000_0000,
        pow2(d as nat) >= 1,
{
    lemma2_to64();
    if d < 30 {
        lemma_pow2_strictly_increases(d as nat, 30);
    }
    lemma_pow2_pos(d as nat);
    lemma_u32_shl_is_mul(1, d);
}

} // verus!
