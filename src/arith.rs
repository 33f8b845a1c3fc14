//! Exact integer arithmetic over `i64`: every operation yields the
//! mathematical result when it fits in `i64`, and `None` otherwise.
use vstd::arithmetic::div_mod::lemma_fundamental_div_mod;
use vstd::prelude::*;

verus! {

/// The value `x` as an `i64`, or `None` when it does not fit.
pub open spec fn checked(x: int) -> Option<i64> {
    if i64::MIN <= x <= i64::MAX {
        Some(x as i64)
    } else {
        None
    }
}

/// The absolute value of `x`.
pub open spec fn magnitude(x: int) -> nat {
    if x < 0 {
        (-x) as nat
    } else {
        x as nat
    }
}

/// Division rounding toward zero, as integer division does in Rust.
pub open spec fn trunc_div(a: int, b: int) -> int {
    let q = magnitude(a) / magnitude(b);
    if (a < 0) == (b < 0) {
        q as int
    } else {
        -q
    }
}

/// Remainder of `trunc_div`: its sign follows the dividend.
pub open spec fn trunc_rem(a: int, b: int) -> int {
    a - b * trunc_div(a, b)
}

/// `b` raised to the natural power `e`.
pub open spec fn ipow(b: int, e: nat) -> int
    decreases e,
{
    if e == 0 {
        1
    } else {
        b * ipow(b, (e - 1) as nat)
    }
}

/// `b` raised to `e`, or `None` when `e` is negative or the result does not fit.
pub open spec fn checked_pow(b: int, e: int) -> Option<i64> {
    if e < 0 {
        None
    } else {
        checked(ipow(b, e as nat))
    }
}

/// Factorial, with every argument below one giving the base case one.
pub open spec fn factorial(n: int) -> int
    decreases n,
{
    if n <= 0 {
        1
    } else {
        n * factorial(n - 1)
    }
}

/// Whether `r` is the integer square root of `x`, rounded down.
pub open spec fn is_floor_sqrt(x: int, r: int) -> bool {
    0 <= r && r * r <= x < (r + 1) * (r + 1)
}

/// The square root of `x >= 0`, rounded down.
pub open spec fn floor_sqrt(x: int) -> int {
    choose|r: int| is_floor_sqrt(x, r)
}

/// The logarithm of `x >= 1` in base `b >= 2`, rounded down.
pub open spec fn floor_log(b: int, x: int) -> int
    decreases x,
    via floor_log_decreases
{
    if b < 2 || x < b {
        0
    } else {
        1 + floor_log(b, x / b)
    }
}

#[via_fn]
proof fn floor_log_decreases(b: int, x: int) {
    if !(b < 2 || x < b) {
        assert(x / b < x) by (nonlinear_arith)
            requires b >= 2, x >= b;
    }
}

/// `x` as an `i64` when it fits.
pub fn narrow(x: i128) -> (r: Option<i64>)
    ensures
        r == checked(x as int),
{
    if x < i64::MIN as i128 || x > i64::MAX as i128 {
        None
    } else {
        Some(x as i64)
    }
}

/// Sum; `None` on overflow.
pub fn add_checked(a: i64, b: i64) -> (r: Option<i64>)
    ensures
        r == checked(a + b),
{
    narrow(a as i128 + b as i128)
}

/// Difference; `None` on overflow.
pub fn sub_checked(a: i64, b: i64) -> (r: Option<i64>)
    ensures
        r == checked(a - b),
{
    narrow(a as i128 - b as i128)
}

/// Product; `None` on overflow.
pub fn mul_checked(a: i64, b: i64) -> (r: Option<i64>)
    ensures
        r == checked(a * b),
{
    let x = a as i128;
    let y = b as i128;
    proof {
        lemma_product_bound(a as int, b as int);
    }
    narrow(x * y)
}

proof fn lemma_product_bound(a: int, b: int)
    requires
        i64::MIN <= a <= i64::MAX,
        i64::MIN <= b <= i64::MAX,
    ensures
        -0x4000_0000_0000_0000_0000_0000_0000_0000 <= a * b <= 0x4000_0000_0000_0000_0000_0000_0000_0000,
{
    assert(magnitude(a) <= 0x8000_0000_0000_0000);
    assert(magnitude(b) <= 0x8000_0000_0000_0000);
    assert(magnitude(a) * magnitude(b) <= 0x8000_0000_0000_0000 * 0x8000_0000_0000_0000) by (nonlinear_arith)
        requires
            magnitude(a) <= 0x8000_0000_0000_0000,
            magnitude(b) <= 0x8000_0000_0000_0000,
    ;
    assert(magnitude(a * b) == magnitude(a) * magnitude(b)) by (nonlinear_arith);
}

fn magnitude_u128(a: i64) -> (r: u128)
    ensures
        r == magnitude(a as int),
        r <= 0x8000_0000_0000_0000,
{
    if a < 0 {
        (-(a as i128)) as u128
    } else {
        a as u128
    }
}

/// Integer division rounding toward zero; `None` on a zero divisor or overflow.
pub fn div_checked(a: i64, b: i64) -> (r: Option<i64>)
    ensures
        r == (if b == 0 { None } else { checked(trunc_div(a as int, b as int)) }),
{
    if b == 0 {
        return None;
    }
    let q = magnitude_u128(a) / magnitude_u128(b);
    assert(q <= magnitude(a as int)) by (nonlinear_arith)
        requires
            q == magnitude(a as int) / magnitude(b as int),
            magnitude(b as int) >= 1,
    ;
    if (a < 0) == (b < 0) {
        narrow(q as i128)
    } else {
        narrow(-(q as i128))
    }
}

/// Remainder of the division rounding toward zero; `None` on a zero divisor.
pub fn rem_checked(a: i64, b: i64) -> (r: Option<i64>)
    ensures
        r == (if b == 0 { None } else { checked(trunc_rem(a as int, b as int)) }),
{
    if b == 0 {
        return None;
    }
    let ua = magnitude_u128(a);
    let ub = magnitude_u128(b);
    let q = ua / ub;
    let m = ua % ub;
    proof {
        lemma_fundamental_div_mod(ua as int, ub as int);
    }
    let mi = m as i128;
    if a < 0 {
        proof {
            lemma_signed_rem(a as int, b as int, q as int, m as int);
        }
        narrow(-mi)
    } else {
        proof {
            lemma_signed_rem(a as int, b as int, q as int, m as int);
        }
        narrow(mi)
    }
}

proof fn lemma_signed_rem(a: int, b: int, q: int, m: int)
    requires
        b != 0,
        q == magnitude(a) / magnitude(b),
        magnitude(a) as int == magnitude(b) * q + m,
    ensures
        trunc_rem(a, b) == (if a < 0 { -m } else { m }),
{
    let t = trunc_div(a, b);
    if a < 0 {
        if b < 0 {
            assert(b * t == -(magnitude(b) * q)) by (nonlinear_arith)
                requires b < 0, t == q, magnitude(b) == -b;
        } else {
            assert(b * t == -(magnitude(b) * q)) by (nonlinear_arith)
                requires b > 0, t == -q, magnitude(b) == b;
        }
    } else {
        if b < 0 {
            assert(b * t == magnitude(b) * q) by (nonlinear_arith)
                requires b < 0, t == -q, magnitude(b) == -b;
        } else {
            assert(b * t == magnitude(b) * q) by (nonlinear_arith)
                requires b > 0, t == q, magnitude(b) == b;
        }
    }
}

proof fn lemma_pow_unit(b: int, e: nat)
    requires
        b == 1 || b == -1,
    ensures
        ipow(b, e) == (if b == 1 || e % 2 == 0 { 1int } else { -1int }),
    decreases e,
{
    if e > 0 {
        lemma_pow_unit(b, (e - 1) as nat);
    }
}

proof fn lemma_pow_grows(b: int, n: nat, m: nat)
    requires
        magnitude(b) >= 2,
        n <= m,
    ensures
        1 <= magnitude(ipow(b, n)) <= magnitude(ipow(b, m)),
        n < m ==> magnitude(ipow(b, n)) < magnitude(ipow(b, m)),
    decreases m,
{
    if m > 0 {
        let p = ipow(b, (m - 1) as nat);
        if n < m {
            lemma_pow_grows(b, n, (m - 1) as nat);
        } else {
            lemma_pow_grows(b, 0, (m - 1) as nat);
        }
        assert(magnitude(b * p) == magnitude(b) * magnitude(p)) by (nonlinear_arith);
        assert(magnitude(b) * magnitude(p) > magnitude(p)) by (nonlinear_arith)
            requires magnitude(b) >= 2, magnitude(p) >= 1;
    }
}

/// `b` raised to `e`; `None` when `e` is negative or the result overflows.
pub fn power(b: i64, e: i64) -> (r: Option<i64>)
    ensures
        r == checked_pow(b as int, e as int),
{
    if e < 0 {
        return None;
    }
    if b == 0 {
        if e == 0 {
            return Some(1);
        }
        assert(ipow(0, e as nat) == 0 * ipow(0, (e - 1) as nat));
        return Some(0);
    }
    if b == 1 || b == -1 {
        proof {
            lemma_pow_unit(b as int, e as nat);
        }
        if b == 1 || e % 2 == 0 {
            return Some(1);
        }
        return Some(-1);
    }
    let mut acc: i64 = 1;
    let mut i: i64 = 0;
    while i < e
        invariant
            0 <= i <= e,
            acc == ipow(b as int, i as nat),
            magnitude(b as int) >= 2,
        decreases e - i,
    {
        assert(ipow(b as int, (i + 1) as nat) == b * ipow(b as int, i as nat));
        match mul_checked(b, acc) {
            None => {
                proof {
                    lemma_pow_grows(b as int, (i + 1) as nat, e as nat);
                }
                return None;
            },
            Some(x) => {
                acc = x;
            },
        }
        i = i + 1;
    }
    Some(acc)
}

proof fn lemma_factorial_grows(n: int, m: int)
    requires
        n <= m,
    ensures
        1 <= factorial(n) <= factorial(m),
    decreases m - n,
{
    if n < m {
        lemma_factorial_grows(n, m - 1);
        if m > 0 {
            let f = factorial(m - 1);
            assert(m * f >= f) by (nonlinear_arith)
                requires m >= 1, f >= 1;
        }
    } else {
        lemma_factorial_positive(n);
    }
}

proof fn lemma_factorial_positive(n: int)
    ensures
        factorial(n) >= 1,
    decreases n,
{
    if n > 0 {
        lemma_factorial_positive(n - 1);
        let f = factorial(n - 1);
        assert(n * f >= 1) by (nonlinear_arith)
            requires n >= 1, f >= 1;
    }
}

/// Factorial of `n`, one for `n <= 0`; `None` when it overflows.
pub fn factorial_checked(n: i64) -> (r: Option<i64>)
    ensures
        r == checked(factorial(n as int)),
{
    let mut acc: i64 = 1;
    let mut k: i64 = 0;
    while k < n
        invariant
            0 <= k,
            k <= n || k == 0,
            acc == factorial(k as int),
        decreases n - k,
    {
        assert(factorial(k + 1) == (k + 1) * factorial(k as int));
        match mul_checked(k + 1, acc) {
            None => {
                proof {
                    lemma_factorial_grows(k + 1, n as int);
                }
                return None;
            },
            Some(x) => {
                acc = x;
            },
        }
        k = k + 1;
    }
    if n <= 0 {
        assert(factorial(n as int) == 1);
    }
    Some(acc)
}

proof fn lemma_floor_sqrt_unique(x: int, r: int)
    requires
        is_floor_sqrt(x, r),
    ensures
        floor_sqrt(x) == r,
{
    let c = floor_sqrt(x);
    assert(is_floor_sqrt(x, c));
    if c < r {
        assert((c + 1) * (c + 1) <= r * r) by (nonlinear_arith)
            requires 0 <= c + 1 <= r;
    } else if r < c {
        assert((r + 1) * (r + 1) <= c * c) by (nonlinear_arith)
            requires 0 <= r + 1 <= c;
    }
}

/// Integer square root, rounded down.
pub fn sqrt_floor(x: u128) -> (r: u64)
    requires
        x <= 0x8000_0000_0000_0000_0000_0000_0000_0000,
    ensures
        r == floor_sqrt(x as int),
{
    let mut lo: u128 = 0;
    let mut hi: u128 = 0x1_0000_0000_0000_0000;
    assert(x < hi * hi);
    while hi - lo > 1
        invariant
            lo < hi <= 0x1_0000_0000_0000_0000,
            lo * lo <= x,
            x < hi * hi,
        decreases hi - lo,
    {
        let mid = lo + (hi - lo) / 2;
        assert(mid * mid < 0x1_0000_0000_0000_0000_0000_0000_0000_0000) by (nonlinear_arith)
            requires mid < 0x1_0000_0000_0000_0000;
        if mid * mid <= x {
            lo = mid;
        } else {
            hi = mid;
        }
    }
    assert(is_floor_sqrt(x as int, lo as int));
    proof {
        lemma_floor_sqrt_unique(x as int, lo as int);
    }
    lo as u64
}

/// Logarithm of `x` in base `b`, rounded down.
pub fn log_floor(b: i64, x: i64) -> (r: i64)
    requires
        b >= 2,
        x >= 1,
    ensures
        r == floor_log(b as int, x as int),
{
    let mut y: i64 = x;
    let mut k: i64 = 0;
    while y >= b
        invariant
            b >= 2,
            1 <= y,
            k + y <= x,
            floor_log(b as int, x as int) == k + floor_log(b as int, y as int),
        decreases y,
    {
        assert(1 <= y / b < y) by (nonlinear_arith)
            requires b >= 2, y >= b;
        y = y / b;
        k = k + 1;
    }
    k
}

} // verus!
