//! Arithmetic that stays at its bounds.
use vstd::prelude::*;

verus! {

/// `a * b`, or the largest number where that does not fit.
pub open spec fn capped_product(a: u64, b: u64) -> int {
    if a * b <= u64::MAX {
        a * b
    } else {
        u64::MAX as int
    }
}

pub fn saturating_product(a: u64, b: u64) -> (p: u64)
    ensures
        p == capped_product(a, b),
        a * b <= 0xffff_ffff_ffff_ffff ==> p == a * b,
        a * b > 0xffff_ffff_ffff_ffff ==> p == 0xffff_ffff_ffff_ffff,
{
    assert(a * b <= u64::MAX * u64::MAX) by (nonlinear_arith)
        requires
            a <= u64::MAX,
            b <= u64::MAX,
    ;
    let p: u128 = a as u128 * b as u128;
    if p <= u64::MAX as u128 {
        p as u64
    } else {
        u64::MAX
    }
}

/// `a / b` rounded up.
pub open spec fn ceil_div(a: int, b: int) -> int {
    (a + b - 1) / b
}

pub fn div_up(a: usize, b: usize) -> (q: usize)
    requires
        b > 0,
    ensures
        q == ceil_div(a as int, b as int),
{
    let q: usize = a / b;
    let r: usize = a % b;
    proof {
        vstd::arithmetic::div_mod::lemma_fundamental_div_mod(a as int, b as int);
        assert(b * q == q * b) by (nonlinear_arith);
        assert((q + 1) * b == q * b + b) by (nonlinear_arith);
        if r == 0 {
            vstd::arithmetic::div_mod::lemma_fundamental_div_mod_converse(
                a + b - 1,
                b as int,
                q as int,
                b - 1,
            );
        } else {
            vstd::arithmetic::div_mod::lemma_fundamental_div_mod_converse(
                a + b - 1,
                b as int,
                q + 1,
                r - 1,
            );
            assert(q < usize::MAX) by (nonlinear_arith)
                requires
                    q * b + r == a,
                    r > 0,
                    b > 0,
                    a <= usize::MAX,
            ;
        }
    }
    if r == 0 {
        q
    } else {
        q + 1
    }
}

/// A capped product exceeds neither the product nor the largest number, and is one of
/// the two.
pub proof fn law_product_stays_at_its_bounds(a: u64, b: u64)
    ensures
        capped_product(a, b) <= a * b,
        capped_product(a, b) <= 0xffff_ffff_ffff_ffff,
        capped_product(a, b) == a * b || capped_product(a, b) == 0xffff_ffff_ffff_ffff,
{
}

/// So many parts of `b` hold `a`, and one part fewer does not.
pub proof fn law_rounded_up_parts_are_enough(a: int, b: int)
    requires
        b > 0,
    ensures
        a <= ceil_div(a, b) * b,
        (ceil_div(a, b) - 1) * b < a,
{
    let q = ceil_div(a, b);
    vstd::arithmetic::div_mod::lemma_fundamental_div_mod(a + b - 1, b);
    assert((q - 1) * b == b * q - b && q * b == b * q) by (nonlinear_arith);
}

} // verus!
