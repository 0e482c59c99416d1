//! Double-precision products and quotients of counts, computed on integers.
//!
//! A count that is scaled by a fraction goes through two roundings to 53 significant
//! bits, ties to even, and is then cut to an integer. These functions give exactly
//! that integer.
use vstd::prelude::*;

verus! {

/// Two to the power of 53: where whole numbers stop being exact.
pub const EXACT: u128 = 0x20_0000_0000_0000;

/// Two to the power of `n`.
pub open spec fn two(n: nat) -> nat
    decreases n,
{
    if n == 0 {
        1
    } else {
        2 * two((n - 1) as nat)
    }
}

/// `a / b` to the nearest integer, ties to the even one.
pub open spec fn half_even(a: nat, b: nat) -> nat {
    let q = a / b;
    let r = 2 * (a % b);
    if r < b || (r == b && q % 2 == 0) {
        q
    } else {
        q + 1
    }
}

/// How many low bits of a number are beyond 53 significant ones.
pub open spec fn excess(n: nat) -> nat
    decreases n,
{
    if n < EXACT {
        0
    } else {
        1 + excess(n / 2)
    }
}

/// A whole number at 53 significant bits.
pub open spec fn rounded(n: nat) -> nat {
    let p = two(excess(n));
    half_even(n, p) * p
}

/// `n` scaled by `m / 2^k`, in double precision and cut to an integer.
pub open spec fn scaled(n: nat, m: nat, k: nat) -> nat {
    rounded(rounded(n) * m) / two(k)
}

/// A number that is too large for 64 bits becomes the largest one.
pub open spec fn cut(n: nat) -> nat {
    if n <= u64::MAX {
        n
    } else {
        u64::MAX as nat
    }
}

fn nearest(a: u128, b: u128) -> (q: u128)
    requires
        0 < b <= 0x7fff_ffff_ffff_ffff_ffff_ffff_ffff_ffff,
        a < 0x7fff_ffff_ffff_ffff_ffff_ffff_ffff_ffff,
    ensures
        q == half_even(a as nat, b as nat),
        q <= a / b + 1,
{
    let q: u128 = a / b;
    let r: u128 = 2 * (a % b);
    proof {
        assert(a / b <= a) by (nonlinear_arith)
            requires
                b > 0,
        ;
    }
    if r < b || (r == b && q % 2 == 0) {
        q
    } else {
        q + 1
    }
}

proof fn lemma_two_pos(n: nat)
    ensures
        two(n) > 0,
    decreases n,
{
    if n > 0 {
        lemma_two_pos((n - 1) as nat);
    }
}

/// Rounds a whole number to 53 significant bits.
pub fn round(n: u128) -> (r: u128)
    requires
        n < 0x1000_0000_0000_0000_0000_0000_0000_0000,
    ensures
        r == rounded(n as nat),
{
    let mut p: u128 = 1;
    let mut m: u128 = n;
    let ghost mut k: nat = 0;
    while m >= EXACT
        invariant
            n < 0x1000_0000_0000_0000_0000_0000_0000_0000,
            p == two(k),
            p > 0,
            m == n / p,
            p <= n || p == 1,
            excess(n as nat) == k + excess(m as nat),
        decreases m,
    {
        proof {
            vstd::arithmetic::div_mod::lemma_div_denominator(n as int, p as int, 2);
            assert(p * 2 == 2 * p);
            vstd::arithmetic::div_mod::lemma_fundamental_div_mod(n as int, p as int);
            assert(2 * p <= n) by (nonlinear_arith)
                requires
                    n == p * m + n % p,
                    m >= 2,
                    n % p >= 0,
                    p > 0,
            ;
            k = k + 1;
        }
        p = p * 2;
        m = m / 2;
    }
    proof {
        lemma_two_pos(k);
        vstd::arithmetic::div_mod::lemma_fundamental_div_mod(n as int, p as int);
        assert(n == p * m + n % p);
        assert((m + 1) * p == p * m + p) by (nonlinear_arith);
        assert(p * m == m * p) by (nonlinear_arith);
    }
    let q: u128 = nearest(n, p);
    proof {
        assert(q * p <= (m + 1) * p) by (nonlinear_arith)
            requires
                q <= m + 1,
        ;
    }
    q * p
}

/// Scales a count by `m / 2^k` in double precision and cuts it to an integer, at
/// most the largest one.
pub fn scale(n: u64, m: u64, k: u32) -> (r: u64)
    requires
        m <= EXACT,
    ensures
        r == cut(scaled(n as nat, m as nat, k as nat)),
{
    let a: u128 = round(n as u128);
    proof {
        lemma_rounded_bound(n as nat, 0x1_0000_0000_0000_0000);
        assert(a * m <= 0x1_0000_0000_0000_0000 * 0x20_0000_0000_0000) by (nonlinear_arith)
            requires
                a <= 0x1_0000_0000_0000_0000,
                m <= 0x20_0000_0000_0000,
        ;
    }
    let product: u128 = a * m as u128;
    let b: u128 = round(product);
    let mut q: u128 = b;
    let mut i: u32 = 0;
    proof {
        assert(two(0) == 1);
    }
    while i < k
        invariant
            i <= k,
            q == b as nat / two(i as nat),
        decreases k - i,
    {
        proof {
            lemma_two_pos(i as nat);
            vstd::arithmetic::div_mod::lemma_div_denominator(b as int, two(i as nat) as int, 2);
            assert(two((i + 1) as nat) == 2 * two(i as nat));
        }
        q = q / 2;
        i += 1;
    }
    if q <= u64::MAX as u128 {
        q as u64
    } else {
        u64::MAX
    }
}

/// Rounding does not pass a power of two that a number is below, for the powers
/// that are exact.
proof fn lemma_rounded_bound(n: nat, bound: nat)
    requires
        n < bound,
        bound == 0x1_0000_0000_0000_0000,
    ensures
        rounded(n) <= bound,
{
    let k = excess(n);
    let p = two(k);
    lemma_two_pos(k);
    assert(two(11) == 2048) by {
        reveal_with_fuel(two, 12);
    }
    lemma_excess(n, 11);
    lemma_two_divides(k, 11);
    let q = half_even(n, p);
    let w = two((11 - k) as nat);
    assert(w * p == 2048);
    let top = (bound / 2048) * w;
    assert(top * p == bound) by (nonlinear_arith)
        requires
            top == 0x20_0000_0000_0000 * w,
            w * p == 2048,
            bound == 0x1_0000_0000_0000_0000,
    ;
    vstd::arithmetic::div_mod::lemma_fundamental_div_mod(n as int, p as int);
    assert(n / p < top) by (nonlinear_arith)
        requires
            n == p * (n / p) + n % p,
            n % p >= 0,
            n < bound,
            top * p == bound,
            p > 0,
    ;
    assert(q <= top);
    assert(q * p <= top * p) by (nonlinear_arith)
        requires
            q <= top,
    ;
}

proof fn lemma_excess(n: nat, k: nat)
    requires
        n < EXACT * two(k),
    ensures
        excess(n) <= k,
    decreases k,
{
    if n >= EXACT {
        if k == 0 {
            assert(two(0) == 1);
        } else {
            assert(two(k) == 2 * two((k - 1) as nat));
            assert(n / 2 < EXACT * two((k - 1) as nat)) by (nonlinear_arith)
                requires
                    n < EXACT * (2 * two((k - 1) as nat)),
            ;
            lemma_excess(n / 2, (k - 1) as nat);
        }
    }
}

proof fn lemma_two_divides(a: nat, b: nat)
    requires
        a <= b,
    ensures
        two((b - a) as nat) * two(a) == two(b),
    decreases a,
{
    if a > 0 {
        lemma_two_divides((a - 1) as nat, b);
        let w = two((b - a) as nat);
        let v = two((a - 1) as nat);
        let u = two((b - (a - 1)) as nat);
        assert(u == 2 * w);
        assert(two(a) == 2 * v);
        assert(u * v == two(b));
        assert(w * (2 * v) == u * v) by (nonlinear_arith)
            requires
                u == 2 * w,
        ;
        assert(w * two(a) == two(b));
    } else {
        assert(two(0) == 1);
        assert(two(b) * 1 == two(b));
    }
}

/// How often `a` is doubled until `a / b` has 53 significant bits.
pub open spec fn doublings(a: nat, b: nat) -> nat
    decreases (if a < 0x10_0000_0000_0000 * b { 0x10_0000_0000_0000 * b - a } else { 0 }),
{
    if a == 0 || a >= 0x10_0000_0000_0000 * b {
        0
    } else {
        1 + doublings(2 * a, b)
    }
}

/// A quotient below one in double precision: a whole number of `2^-k`.
pub struct Fraction {
    pub m: u64,
    pub k: u32,
}

/// `a / b` in double precision, below one, in units of `2^-doublings(a, b)`.
pub open spec fn quotient(a: nat, b: nat) -> nat {
    half_even(a * two(doublings(a, b)), b)
}

/// `a / b` in double precision.
pub open spec fn is_fraction(f: Fraction, a: nat, b: nat) -> bool {
    f.k == doublings(a, b) && f.m == quotient(a, b)
}

/// Divides in double precision.
pub fn fraction(a: u64, b: u64) -> (f: Fraction)
    requires
        0 < a < b <= 0xffff_ffff,
    ensures
        is_fraction(f, a as nat, b as nat),
        f.m <= EXACT,
        f.k <= 84,
{
    let goal: u128 = 0x10_0000_0000_0000 * b as u128;
    let mut x: u128 = a as u128;
    let mut k: u32 = 0;
    proof {
        assert(two(0) == 1);
        assert(a * two(0) == a);
    }
    while x < goal
        invariant
            0 < a < b <= 0xffff_ffff,
            goal == 0x10_0000_0000_0000 * b,
            x == a * two(k as nat),
            x > 0,
            k == 0 ==> x == a,
            k > 0 ==> x < 2 * goal,
            two(k as nat) <= x,
            k <= 84,
            doublings(a as nat, b as nat) == k + doublings(x as nat, b as nat),
        decreases 2 * goal - x,
    {
        proof {
            let t = two(k as nat);
            assert(two((k + 1) as nat) == 2 * t);
            assert(a * (2 * t) == 2 * (a * t)) by (nonlinear_arith);
            lemma_two_84();
        }
        x = x * 2;
        k += 1;
    }
    let m: u128 = nearest(x, b as u128);
    proof {
        assert(x < 2 * goal);
        assert(x / b as u128 <= 0x1f_ffff_ffff_ffff) by (nonlinear_arith)
            requires
                x < 2 * (0x10_0000_0000_0000 * b),
                b > 0,
        ;
    }
    Fraction { m: m as u64, k }
}

proof fn lemma_two_84()
    ensures
        two(84) == 0x10_0000_0000_0000_0000_0000,
{
    assert(two(21) == 0x20_0000) by {
        reveal_with_fuel(two, 22);
    }
    lemma_two_divides(21, 42);
    assert(two(42) == 0x400_0000_0000);
    lemma_two_divides(42, 84);
}

/// Rounding does not pass a number of 53 significant bits.
proof fn lemma_rounded_stays_below(x: nat, b: nat, k: nat)
    requires
        b < EXACT,
        x <= b * two(k),
    ensures
        rounded(x) <= b * two(k),
{
    lemma_two_pos(k);
    let y = b * two(k);
    assert(y < EXACT * two(k)) by (nonlinear_arith)
        requires
            y == b * two(k),
            b < EXACT,
            two(k) > 0,
    ;
    lemma_excess(x, k);
    let e = excess(x);
    let p = two(e);
    lemma_two_pos(e);
    lemma_two_divides(e, k);
    let w = two((k - e) as nat);
    let c = b * w;
    assert(c * p == y) by (nonlinear_arith)
        requires
            c == b * w,
            y == b * two(k),
            w * p == two(k),
    ;
    let q = half_even(x, p);
    vstd::arithmetic::div_mod::lemma_fundamental_div_mod(x as int, p as int);
    assert(q <= c) by {
        if x / p >= c {
            assert(p * (x / p) >= c * p) by (nonlinear_arith)
                requires
                    x / p >= c,
                    p > 0,
            ;
            assert(x % p == 0);
            assert(p * (x / p) == c * p);
            assert(x / p == c) by (nonlinear_arith)
                requires
                    p * (x / p) == c * p,
                    p > 0,
            ;
        }
    }
    assert(q * p <= c * p) by (nonlinear_arith)
        requires
            q <= c,
    ;
}

proof fn lemma_half_even_mono(a: nat, b: nat, c: nat)
    requires
        a <= b,
        c > 0,
    ensures
        half_even(a, c) <= half_even(b, c),
{
    vstd::arithmetic::div_mod::lemma_fundamental_div_mod(a as int, c as int);
    vstd::arithmetic::div_mod::lemma_fundamental_div_mod(b as int, c as int);
    vstd::arithmetic::div_mod::lemma_div_is_ordered(a as int, b as int, c as int);
}

proof fn lemma_half_even_bounds(a: nat, c: nat, low: nat, high: nat)
    requires
        c > 0,
        low * c <= a <= high * c,
    ensures
        low <= half_even(a, c) <= high,
{
    vstd::arithmetic::div_mod::lemma_div_multiples_vanish(low as int, c as int);
    vstd::arithmetic::div_mod::lemma_div_multiples_vanish(high as int, c as int);
    assert(low * c == c * low && high * c == c * high) by (nonlinear_arith);
    assert((high * c) % c == 0) by (nonlinear_arith)
        requires
            c > 0,
    ;
    assert(half_even(low * c, c) >= low);
    assert(half_even(high * c, c) == high);
    lemma_half_even_mono(low * c, a, c);
    lemma_half_even_mono(a, high * c, c);
}

proof fn lemma_excess_range(n: nat)
    ensures
        n < EXACT * two(excess(n)),
        excess(n) > 0 ==> (EXACT / 2) * two(excess(n)) <= n,
    decreases n,
{
    assert(two(0) == 1);
    if n >= EXACT {
        lemma_excess_range(n / 2);
        let e = excess(n / 2);
        assert(excess(n) == 1 + e);
        assert(two(1 + e) == 2 * two(e));
        assert(EXACT * two(1 + e) == 2 * (EXACT * two(e))) by (nonlinear_arith)
            requires
                two(1 + e) == 2 * two(e),
        ;
        if e > 0 {
            assert((EXACT / 2) * two(1 + e) == 2 * ((EXACT / 2) * two(e))) by (nonlinear_arith)
                requires
                    two(1 + e) == 2 * two(e),
            ;
        } else {
            assert(excess(n) == 1);
            assert(two(1) == 2) by {
                reveal_with_fuel(two, 2);
            }
            assert((EXACT / 2) * 2 <= n);
        }
    }
}

/// Rounding keeps the order of two numbers.
proof fn lemma_rounded_mono(x: nat, y: nat)
    requires
        x <= y,
    ensures
        rounded(x) <= rounded(y),
{
    let a = excess(x);
    let b = excess(y);
    let p = two(a);
    let q = two(b);
    lemma_two_pos(a);
    lemma_two_pos(b);
    lemma_excess_range(x);
    lemma_excess_range(y);
    if a > b {
        lemma_two_divides((b + 1) as nat, a);
        let w = two((a - b - 1) as nat);
        lemma_two_pos((a - b - 1) as nat);
        assert(two(b + 1) == 2 * q);
        assert((EXACT / 2) * p >= EXACT * q) by (nonlinear_arith)
            requires
                p == w * (2 * q),
                w >= 1,
                q >= 0,
                EXACT == 2 * (EXACT / 2),
        ;
    } else if a == b {
        lemma_half_even_mono(x, y, p);
        assert(half_even(x, p) * p <= half_even(y, p) * p) by (nonlinear_arith)
            requires
                half_even(x, p) <= half_even(y, p),
        ;
    } else {
        lemma_half_even_bounds(x, p, 0, EXACT as nat);
        let h = (EXACT / 2) as nat;
        assert(y <= EXACT * q);
        lemma_half_even_bounds(y, q, h, EXACT as nat);
        lemma_two_divides((a + 1) as nat, b);
        let w = two((b - a - 1) as nat);
        lemma_two_pos((b - a - 1) as nat);
        assert(two(a + 1) == 2 * p);
        assert(half_even(x, p) * p <= EXACT * p) by (nonlinear_arith)
            requires
                half_even(x, p) <= EXACT,
        ;
        assert(h * q <= half_even(y, q) * q) by (nonlinear_arith)
            requires
                h <= half_even(y, q),
        ;
        assert(EXACT * p <= h * q) by (nonlinear_arith)
            requires
                q == w * (2 * p),
                w >= 1,
                EXACT == 2 * h,
        ;
    }
}

/// Doubling and rounding may change places.
proof fn lemma_rounded_doubles(x: nat, d: nat)
    ensures
        rounded(x * two(d)) == rounded(x) * two(d),
    decreases d,
{
    if d == 0 {
        assert(two(0) == 1);
        assert(x * 1 == x);
        assert(rounded(x) * 1 == rounded(x));
    } else {
        let t = two((d - 1) as nat);
        assert(two(d) == 2 * t);
        let y = x * t;
        lemma_rounded_doubles(x, (d - 1) as nat);
        assert(x * (2 * t) == 2 * y && rounded(x) * (2 * t) == 2 * (rounded(x) * t))
            by (nonlinear_arith)
            requires
                y == x * t,
        ;
        lemma_rounded_twice(y);
    }
}

proof fn lemma_rounded_exact(n: nat)
    requires
        n < EXACT,
    ensures
        rounded(n) == n,
{
    assert(two(0) == 1);
    assert(n / 1 == n && n % 1 == 0);
    assert(n * 1 == n);
}

proof fn lemma_rounded_twice(y: nat)
    ensures
        rounded(2 * y) == 2 * rounded(y),
{
    let e = excess(y);
    let p = two(e);
    lemma_two_pos(e);
    if 2 * y < EXACT {
        lemma_rounded_exact(2 * y);
        lemma_rounded_exact(y);
    } else {
        assert((2 * y) / 2 == y);
        assert(excess(2 * y) == 1 + e);
        assert(two(1 + e) == 2 * p);
        vstd::arithmetic::div_mod::lemma_fundamental_div_mod(y as int, p as int);
        let k = y / p;
        let r = y % p;
        assert(2 * y == k * (2 * p) + 2 * r) by (nonlinear_arith)
            requires
                y == p * k + r,
        ;
        vstd::arithmetic::div_mod::lemma_fundamental_div_mod_converse(
            (2 * y) as int,
            (2 * p) as int,
            k as int,
            (2 * r) as int,
        );
        assert(half_even(2 * y, 2 * p) == half_even(y, p));
        let q = half_even(y, p);
        assert(q * (2 * p) == 2 * (q * p)) by (nonlinear_arith);
    }
}

proof fn lemma_doublings_range(a: nat, b: nat)
    requires
        0 < a < b,
    ensures
        doublings(a, b) > 0,
        0x10_0000_0000_0000 * b <= a * two(doublings(a, b)) < 0x20_0000_0000_0000 * b,
{
    lemma_doublings_reach(a, b);
}

proof fn lemma_doublings_reach(a: nat, b: nat)
    requires
        0 < a < 0x10_0000_0000_0000 * b,
    ensures
        doublings(a, b) > 0,
        0x10_0000_0000_0000 * b <= a * two(doublings(a, b)) < 0x20_0000_0000_0000 * b,
    decreases 0x10_0000_0000_0000 * b - a,
{
    let d = doublings(2 * a, b);
    assert(doublings(a, b) == 1 + d);
    assert(two(1 + d) == 2 * two(d));
    assert(a * (2 * two(d)) == (2 * a) * two(d)) by (nonlinear_arith);
    if 2 * a < 0x10_0000_0000_0000 * b {
        lemma_doublings_reach(2 * a, b);
    } else {
        assert(two(0) == 1);
        assert((2 * a) * 1 == 2 * a);
    }
}

/// A quotient's last place is no coarser for a smaller dividend.
proof fn lemma_doublings_order(a: nat, c: nat, b: nat)
    requires
        0 < a <= c < b,
    ensures
        doublings(c, b) <= doublings(a, b),
{
    let i = doublings(a, b);
    let j = doublings(c, b);
    lemma_doublings_range(a, b);
    lemma_doublings_range(c, b);
    if j > i {
        lemma_two_divides((i + 1) as nat, j);
        let w = two((j - i - 1) as nat);
        lemma_two_pos((j - i - 1) as nat);
        assert(two(i + 1) == 2 * two(i));
        assert(c * two(j) >= 2 * (a * two(i))) by (nonlinear_arith)
            requires
                two(j) == w * (2 * two(i)),
                w >= 1,
                c >= a,
                a >= 0,
                two(i) >= 0,
        ;
    }
}

/// Quotients of one divisor keep the order of their dividends.
proof fn lemma_quotient_order(a: nat, c: nat, b: nat)
    requires
        0 < a <= c < b,
    ensures
        doublings(c, b) <= doublings(a, b),
        quotient(a, b) <= quotient(c, b) * two((doublings(a, b) - doublings(c, b)) as nat),
{
    lemma_doublings_order(a, c, b);
    let i = doublings(a, b);
    let j = doublings(c, b);
    if i == j {
        assert(a * two(i) <= c * two(i)) by (nonlinear_arith)
            requires
                a <= c,
        ;
        lemma_half_even_mono(a * two(i), c * two(i), b);
        assert(two(0) == 1);
        assert(quotient(c, b) * 1 == quotient(c, b));
    } else {
        lemma_doublings_range(a, b);
        lemma_doublings_range(c, b);
        lemma_half_even_bounds(a * two(i), b, 0, 0x20_0000_0000_0000);
        lemma_half_even_bounds(c * two(j), b, 0x10_0000_0000_0000, 0x20_0000_0000_0000);
        let d = (i - j) as nat;
        let t = two((d - 1) as nat);
        lemma_two_pos((d - 1) as nat);
        assert(two(d) == 2 * t);
        let q = quotient(c, b);
        assert(q * (2 * t) >= 0x20_0000_0000_0000) by (nonlinear_arith)
            requires
                q >= 0x10_0000_0000_0000,
                t >= 1,
        ;
    }
}

/// A count scaled by a quotient below one, halved, is at most half the count.
pub proof fn lemma_scaled_below_half(n: nat, a: nat, b: nat)
    requires
        n < EXACT,
        0 < a < b,
    ensures
        2 * scaled(n, quotient(a, b), doublings(a, b) + 1) <= n,
{
    let k = doublings(a, b);
    let m = quotient(a, b);
    let t = two(k);
    lemma_two_pos(k);
    assert(a * t <= t * b) by (nonlinear_arith)
        requires
            a < b,
            t >= 0,
    ;
    lemma_half_even_bounds(a * t, b, 0, t);
    lemma_rounded_exact(n);
    assert(n * m <= n * t) by (nonlinear_arith)
        requires
            m <= t,
    ;
    lemma_rounded_stays_below(n * m, n, k);
    assert(two(k + 1) == 2 * t);
    let r = rounded(n * m);
    assert(2 * (r / (2 * t)) <= n) by (nonlinear_arith)
        requires
            r <= n * t,
            t > 0,
    {
        vstd::arithmetic::div_mod::lemma_fundamental_div_mod(r as int, (2 * t) as int);
        let q = r / (2 * t);
        assert(r % (2 * t) >= 0);
        assert(t * (2 * q) <= t * n);
    }
}

/// Scaling keeps the order of two quotients.
pub proof fn lemma_scaled_order(n: nat, a: nat, c: nat, b: nat)
    requires
        n < EXACT,
        0 < a <= c < b,
    ensures
        scaled(n, quotient(a, b), doublings(a, b) + 1) <= scaled(
            n,
            quotient(c, b),
            doublings(c, b) + 1,
        ),
{
    lemma_quotient_order(a, c, b);
    lemma_rounded_exact(n);
    let i = doublings(a, b);
    let j = doublings(c, b);
    let d = (i - j) as nat;
    let x = n * quotient(a, b);
    let y = n * quotient(c, b);
    assert(x <= y * two(d)) by (nonlinear_arith)
        requires
            x == n * quotient(a, b),
            y == n * quotient(c, b),
            quotient(a, b) <= quotient(c, b) * two(d),
            n >= 0,
    ;
    lemma_rounded_mono(x, y * two(d));
    lemma_rounded_doubles(y, d);
    let p = two(j + 1);
    lemma_two_pos(j + 1);
    lemma_two_pos(d);
    lemma_two_divides(j + 1, i + 1);
    assert((i + 1) - (j + 1) == d);
    let s = rounded(y);
    let u = two(d);
    assert(two(i + 1) == u * p);
    assert(u * p > 0) by (nonlinear_arith)
        requires
            u > 0,
            p > 0,
    ;
    vstd::arithmetic::div_mod::lemma_div_is_ordered(
        rounded(x) as int,
        (s * u) as int,
        (u * p) as int,
    );
    vstd::arithmetic::div_mod::lemma_div_denominator((s * u) as int, u as int, p as int);
    vstd::arithmetic::div_mod::lemma_div_multiples_vanish(s as int, u as int);
    assert(s * u == u * s) by (nonlinear_arith);
}

/// Half of a count is exact.
pub proof fn lemma_scaled_half(n: nat)
    requires
        n < EXACT,
    ensures
        scaled(n, 1, 1) == n / 2,
{
    lemma_rounded_exact(n);
    assert(n * 1 == n);
    assert(two(1) == 2) by {
        reveal_with_fuel(two, 2);
    }
}

/// The nearest integer is off by at most one half, and where it is off by exactly one
/// half it is even.
pub proof fn law_nearest_is_within_a_half(a: nat, b: nat)
    requires
        b > 0,
    ensures
        2 * a - b <= 2 * (half_even(a, b) * b) <= 2 * a + b,
        2 * (half_even(a, b) * b) == 2 * a - b ==> half_even(a, b) % 2 == 0,
        2 * (half_even(a, b) * b) == 2 * a + b ==> half_even(a, b) % 2 == 0,
{
    let q = a / b;
    vstd::arithmetic::div_mod::lemma_fundamental_div_mod(a as int, b as int);
    assert(b * q == q * b) by (nonlinear_arith);
    assert((q + 1) * b == q * b + b) by (nonlinear_arith);
}

/// Powers of two.
pub proof fn law_two_is_a_power(n: nat)
    ensures
        two(n) == vstd::arithmetic::power2::pow2(n),
    decreases n,
{
    if n == 0 {
        vstd::arithmetic::power2::lemma2_to64();
    } else {
        law_two_is_a_power((n - 1) as nat);
        vstd::arithmetic::power2::lemma_pow2_unfold(n);
    }
}

/// Below 2^53 a whole number is exact. Above, it becomes the nearest multiple of that
/// power of two by which it has 53 digits.
pub proof fn law_rounding_keeps_53_digits(n: nat)
    ensures
        n < 0x20_0000_0000_0000 ==> rounded(n) == n,
        n >= 0x20_0000_0000_0000 ==> exists|e: nat|
            {
                let p = #[trigger] vstd::arithmetic::power2::pow2(e);
                &&& 0x10_0000_0000_0000 * p <= n < 0x20_0000_0000_0000 * p
                &&& rounded(n) == half_even(n, p) * p
                &&& 2 * n - p <= 2 * rounded(n) <= 2 * n + p
            },
{
    let e = excess(n);
    lemma_excess_range(n);
    law_two_is_a_power(e);
    lemma_two_pos(e);
    law_nearest_is_within_a_half(n, two(e));
    if n < 0x20_0000_0000_0000 {
        assert(two(0) == 1);
        assert(half_even(n, 1) == n);
        assert(n * 1 == n);
    } else {
        assert(vstd::arithmetic::power2::pow2(e) == two(e));
    }
}

/// A fraction below 1 has 53 digits too, and is off by at most half of the last one.
pub proof fn law_fraction_has_53_digits(a: nat, b: nat)
    requires
        0 < a < b,
    ensures
        ({
            let p = vstd::arithmetic::power2::pow2(doublings(a, b));
            &&& 0x10_0000_0000_0000 * b <= a * p < 0x20_0000_0000_0000 * b
            &&& 2 * (a * p) - b <= 2 * (quotient(a, b) * b) <= 2 * (a * p) + b
        }),
{
    lemma_doublings_range(a, b);
    law_two_is_a_power(doublings(a, b));
    law_nearest_is_within_a_half(a * two(doublings(a, b)), b);
}

/// What is scaled is the product, each of its two steps at 53 digits, divided by the
/// power of two and rounded down.
pub proof fn law_scaled_is_rounded_down(n: nat, m: nat, k: nat)
    ensures
        ({
            let p = vstd::arithmetic::power2::pow2(k);
            scaled(n, m, k) * p <= rounded(rounded(n) * m) < (scaled(n, m, k) + 1) * p
        }),
{
    law_two_is_a_power(k);
    lemma_two_pos(k);
    let p = two(k);
    let x = rounded(rounded(n) * m);
    vstd::arithmetic::div_mod::lemma_fundamental_div_mod(x as int, p as int);
    assert((scaled(n, m, k) + 1) * p == p * scaled(n, m, k) + p && scaled(n, m, k) * p == p
        * scaled(n, m, k)) by (nonlinear_arith);
}

/// What is scaled differs from the exact product by no more than one part in 2^53, and by
/// what rounding down leaves out.
pub proof fn law_scaled_is_close(n: nat, m: nat, k: nat)
    requires
        n < 0x20_0000_0000_0000,
    ensures
        ({
            let p = vstd::arithmetic::power2::pow2(k);
            let x = n * m;
            &&& 0x20_0000_0000_0000 * (scaled(n, m, k) * p) <= x * 0x20_0000_0000_0001
            &&& x * 0x1f_ffff_ffff_ffff < 0x20_0000_0000_0000 * ((scaled(n, m, k) + 1) * p)
        }),
{
    let x = n * m;
    law_scaled_is_rounded_down(n, m, k);
    law_rounding_keeps_53_digits(n);
    lemma_rounding_is_close(x);
}

proof fn lemma_rounding_is_close(x: nat)
    ensures
        0x20_0000_0000_0000 * rounded(x) <= x * 0x20_0000_0000_0001,
        x * 0x1f_ffff_ffff_ffff <= 0x20_0000_0000_0000 * rounded(x),
{
    law_rounding_keeps_53_digits(x);
    if x >= 0x20_0000_0000_0000 {
        let e = choose|e: nat|
            {
                let p = #[trigger] vstd::arithmetic::power2::pow2(e);
                &&& 0x10_0000_0000_0000 * p <= x < 0x20_0000_0000_0000 * p
                &&& rounded(x) == half_even(x, p) * p
                &&& 2 * x - p <= 2 * rounded(x) <= 2 * x + p
            };
        let p = vstd::arithmetic::power2::pow2(e);
        assert(0x10_0000_0000_0000 * p <= x);
        assert(2 * rounded(x) <= 2 * x + p);
    }
}

/// A count scaled by a fraction below one half of it: the product of the count and the
/// fraction, halved and rounded down, or one less where that is exact.
pub proof fn law_half_a_fraction_of_a_count(n: nat, a: nat, b: nat)
    requires
        0 < a < b,
        n * a < 0x8_0000_0000_0000,
    ensures
        ({
            let s = scaled(n, quotient(a, b), doublings(a, b) + 1);
            &&& 2 * b * s <= n * a
            &&& n * a <= 2 * b * (s + 1)
        }),
{
    let d = doublings(a, b);
    let q = quotient(a, b);
    let s = scaled(n, q, d + 1);
    let p = vstd::arithmetic::power2::pow2(d);
    law_fraction_has_53_digits(a, b);
    assert(n < 0x20_0000_0000_0000) by (nonlinear_arith)
        requires
            n * a < 0x8_0000_0000_0000,
            a >= 1,
    ;
    law_scaled_is_close(n, q, d + 1);
    vstd::arithmetic::power2::lemma_pow2_unfold(d + 1);
    vstd::arithmetic::power2::lemma_pow2_pos(d);
    let e: int = 0x20_0000_0000_0000;
    let x = n * q;
    let ap = a * p;
    let qb = q * b;
    // The fraction is close to `a * p / b`.
    assert(e * qb <= ap * (e + 1) && ap * (e - 1) <= e * qb);
    assert(e * (s * (2 * p)) <= x * (e + 1) && x * (e - 1) < e * ((s + 1) * (2 * p)));
    lemma_close_product(n as int, q as int, b as int, ap as int, e, s as int, p as int, a as int);
}

proof fn lemma_close_product(n: int, q: int, b: int, ap: int, e: int, s: int, p: int, a: int)
    requires
        e == 0x20_0000_0000_0000,
        p > 0,
        b > 0,
        a > 0,
        n >= 0,
        q >= 0,
        s >= 0,
        ap == a * p,
        e * (q * b) <= ap * (e + 1),
        ap * (e - 1) <= e * (q * b),
        e * (s * (2 * p)) <= (n * q) * (e + 1),
        (n * q) * (e - 1) < e * ((s + 1) * (2 * p)),
        n * a < 0x8_0000_0000_0000,
    ensures
        2 * b * s <= n * a,
        n * a <= 2 * b * (s + 1),
{
    let y = n * a;
    let u = 2 * b * s;
    let v = 2 * b * (s + 1);
    // Both bounds multiplied by `b * e`, then the common factor `p` taken out.
    assert((e * e) * (u * p) <= (y * p) * ((e + 1) * (e + 1))) by {
        let lhs = e * (s * (2 * p));
        assert(lhs * (b * e) <= ((n * q) * (e + 1)) * (b * e)) by (nonlinear_arith)
            requires
                lhs <= (n * q) * (e + 1),
                b > 0,
                e > 0,
        ;
        assert(((n * q) * (e + 1)) * (b * e) == (n * (e + 1)) * (e * (q * b))) by (nonlinear_arith);
        assert((n * (e + 1)) * (e * (q * b)) <= (n * (e + 1)) * (ap * (e + 1))) by (nonlinear_arith)
            requires
                e * (q * b) <= ap * (e + 1),
                n >= 0,
                e > 0,
        ;
        assert((n * (e + 1)) * (ap * (e + 1)) == (y * p) * ((e + 1) * (e + 1))) by (nonlinear_arith)
            requires
                ap == a * p,
                y == n * a,
        ;
        assert(lhs * (b * e) == (e * e) * (u * p)) by (nonlinear_arith)
            requires
                lhs == e * (s * (2 * p)),
                u == 2 * b * s,
        ;
    }
    assert((y * p) * ((e - 1) * (e - 1)) <= (e * e) * (v * p)) by {
        let rhs = e * ((s + 1) * (2 * p));
        assert(((n * q) * (e - 1)) * (b * e) <= rhs * (b * e)) by (nonlinear_arith)
            requires
                (n * q) * (e - 1) < rhs,
                b > 0,
                e > 0,
        ;
        assert(((n * q) * (e - 1)) * (b * e) == (n * (e - 1)) * (e * (q * b))) by (nonlinear_arith);
        assert((n * (e - 1)) * (ap * (e - 1)) <= (n * (e - 1)) * (e * (q * b))) by (nonlinear_arith)
            requires
                ap * (e - 1) <= e * (q * b),
                n >= 0,
                e > 1,
        ;
        assert((n * (e - 1)) * (ap * (e - 1)) == (y * p) * ((e - 1) * (e - 1))) by (nonlinear_arith)
            requires
                ap == a * p,
                y == n * a,
        ;
        assert(rhs * (b * e) == (e * e) * (v * p)) by (nonlinear_arith)
            requires
                rhs == e * ((s + 1) * (2 * p)),
                v == 2 * b * (s + 1),
        ;
    }
    assert((e * e) * u <= y * ((e + 1) * (e + 1))) by (nonlinear_arith)
        requires
            (e * e) * (u * p) <= (y * p) * ((e + 1) * (e + 1)),
            p > 0,
    ;
    assert(y * ((e - 1) * (e - 1)) <= (e * e) * v) by (nonlinear_arith)
        requires
            (y * p) * ((e - 1) * (e - 1)) <= (e * e) * (v * p),
            p > 0,
    ;
    assert(0 <= y) by (nonlinear_arith)
        requires
            y == n * a,
            n >= 0,
            a > 0,
    ;
    assert(u < y + 1) by (nonlinear_arith)
        requires
            (e * e) * u <= y * ((e + 1) * (e + 1)),
            0 <= y < 0x8_0000_0000_0000,
            e == 0x20_0000_0000_0000,
    ;
    assert(y < v + 1) by (nonlinear_arith)
        requires
            y * ((e - 1) * (e - 1)) <= (e * e) * v,
            0 <= y < 0x8_0000_0000_0000,
            e == 0x20_0000_0000_0000,
    ;
}

/// A fraction is its 53 digits and the power of two that they are divided by.
pub proof fn law_a_fraction_is_close(f: Fraction, a: nat, b: nat)
    requires
        is_fraction(f, a, b),
        0 < a < b,
    ensures
        ({
            let p = vstd::arithmetic::power2::pow2(f.k as nat);
            &&& 0x10_0000_0000_0000 * b <= a * p < 0x20_0000_0000_0000 * b
            &&& 2 * (a * p) - b <= 2 * (f.m * b) <= 2 * (a * p) + b
        }),
{
    law_fraction_has_53_digits(a, b);
}

} // verus!
