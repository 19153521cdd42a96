use vstd::prelude::*;

verus! {

/// The nearest `i64` to `v`: `v` itself where it fits, else the bound it passed.
pub open spec fn saturate(v: int) -> int {
    if v < i64::MIN {
        i64::MIN as int
    } else if v > i64::MAX {
        i64::MAX as int
    } else {
        v
    }
}

/// The quotient of `a` by `b` rounded toward zero. A division by zero gives
/// the bound on the side of `a`, and zero for zero.
pub open spec fn quotient(a: int, b: int) -> int {
    if b == 0 {
        if a > 0 {
            i64::MAX as int
        } else if a < 0 {
            i64::MIN as int
        } else {
            0
        }
    } else if (a >= 0) == (b > 0) {
        abs(a) / abs(b)
    } else {
        -(abs(a) / abs(b))
    }
}

/// The smaller of two integers.
pub open spec fn lesser(a: int, b: int) -> int {
    if a <= b {
        a
    } else {
        b
    }
}

/// The larger of two integers.
pub open spec fn greater(a: int, b: int) -> int {
    if a >= b {
        a
    } else {
        b
    }
}

/// The magnitude of an integer.
pub open spec fn abs(a: int) -> int {
    if a >= 0 {
        a
    } else {
        -a
    }
}

pub fn clamp(v: i128) -> (r: i64)
    ensures
        r == saturate(v as int),
{
    if v < i64::MIN as i128 {
        i64::MIN
    } else if v > i64::MAX as i128 {
        i64::MAX
    } else {
        v as i64
    }
}

pub fn sum(a: i64, b: i64) -> (r: i64)
    ensures
        r == saturate(a + b),
{
    clamp(a as i128 + b as i128)
}

pub fn difference(a: i64, b: i64) -> (r: i64)
    ensures
        r == saturate(a - b),
{
    clamp(a as i128 - b as i128)
}

pub fn product(a: i64, b: i64) -> (r: i64)
    ensures
        r == saturate(a * b),
{
    assert(-0x8000_0000_0000_0000 * 0x8000_0000_0000_0000 <= a * b <= 0x8000_0000_0000_0000
        * 0x8000_0000_0000_0000) by (nonlinear_arith)
        requires
            -0x8000_0000_0000_0000 <= a < 0x8000_0000_0000_0000,
            -0x8000_0000_0000_0000 <= b < 0x8000_0000_0000_0000,
    ;
    clamp(a as i128 * b as i128)
}

pub fn negation(a: i64) -> (r: i64)
    ensures
        r == saturate(-a),
{
    clamp(-(a as i128))
}

pub fn magnitude(a: i64) -> (r: i64)
    ensures
        r == saturate(abs(a as int)),
{
    if a >= 0 {
        a
    } else {
        negation(a)
    }
}

pub fn ratio(a: i64, b: i64) -> (r: i64)
    ensures
        r == saturate(quotient(a as int, b as int)),
{
    if b == 0 {
        if a > 0 {
            i64::MAX
        } else if a < 0 {
            i64::MIN
        } else {
            0
        }
    } else {
        let p: i128 = if a >= 0 { a as i128 } else { -(a as i128) };
        let q: i128 = if b >= 0 { b as i128 } else { -(b as i128) };
        let m: i128 = p / q;
        if (a >= 0) == (b > 0) {
            clamp(m)
        } else {
            clamp(-m)
        }
    }
}

pub fn minimum(a: i64, b: i64) -> (r: i64)
    ensures
        r == lesser(a as int, b as int),
{
    if a <= b {
        a
    } else {
        b
    }
}

pub fn maximum(a: i64, b: i64) -> (r: i64)
    ensures
        r == greater(a as int, b as int),
{
    if a >= b {
        a
    } else {
        b
    }
}

/// Half of `a`, rounded up.
pub fn half_up(a: i64) -> (r: i64)
    ensures
        r == (a + 1) / 2,
{
    if a >= 0 {
        a / 2 + a % 2
    } else {
        let m: i64 = -(a + 1);
        -(m / 2 + m % 2)
    }
}

/// The midpoint of `a` and `b`, rounded down.
pub fn midpoint(a: i64, b: i64) -> (r: i64)
    ensures
        r == (a + b) / 2,
{
    let s: i128 = a as i128 + b as i128;
    if s >= 0 {
        (s / 2) as i64
    } else {
        let h: i128 = (1 - s) / 2;
        (-h) as i64
    }
}

/// Whether `r` is the square root of `n` rounded up: the least natural number
/// whose square reaches `n`.
pub open spec fn is_root_up(n: int, r: int) -> bool {
    &&& r >= 0
    &&& r * r >= n
    &&& (r == 0 || (r - 1) * (r - 1) < n)
}

/// The square root of `n`, rounded up.
pub open spec fn root_up(n: int) -> int {
    choose|r: int| is_root_up(n, r)
}

/// Squares grow with their base.
pub proof fn lemma_square_grows(a: int, b: int)
    requires
        0 <= a <= b,
    ensures
        a * a <= b * b,
{
    assert(a * a <= b * b) by (nonlinear_arith)
        requires
            0 <= a <= b,
    ;
}

/// Every natural number has a square root rounded up.
pub proof fn lemma_root_exists(n: int)
    ensures
        is_root_up(n, root_up(n)),
    decreases (if n > 0 { n } else { 0 }),
{
    if n <= 0 {
        assert(is_root_up(n, 0));
    } else {
        lemma_root_exists(n - 1);
        let r = root_up(n - 1);
        if r * r >= n {
            assert(is_root_up(n, r));
        } else {
            assert(r * r == n - 1);
            assert((r + 1) * (r + 1) >= n) by (nonlinear_arith)
                requires
                    r * r == n - 1,
                    r >= 0,
            ;
            assert(is_root_up(n, r + 1));
        }
    }
}

/// No number has two rounded-up square roots.
pub proof fn lemma_root_up_unique(n: int, r: int)
    requires
        is_root_up(n, r),
    ensures
        root_up(n) == r,
{
    let c = root_up(n);
    assert(is_root_up(n, c));
    if c < r {
        lemma_square_grows(c, r - 1);
    }
    if r < c {
        lemma_square_grows(r, c - 1);
    }
}

/// The square root of `n`, rounded up, by bisection.
pub fn ceil_sqrt(n: u128) -> (r: u128)
    ensures
        r == root_up(n as int),
        r <= 0x1_0000_0000_0000_0000,
{
    let mut lo: u128 = 0;
    let mut hi: u128 = 0x1_0000_0000_0000_0000;
    assert(0x1_0000_0000_0000_0000int * 0x1_0000_0000_0000_0000int
        == 0x1_0000_0000_0000_0000_0000_0000_0000_0000int) by (nonlinear_arith);
    while lo < hi
        invariant
            lo <= hi <= 0x1_0000_0000_0000_0000,
            hi * hi >= n,
            lo == 0 || (lo - 1) * (lo - 1) < n,
        decreases hi - lo,
    {
        let mid: u128 = lo + (hi - lo) / 2;
        assert(mid * mid <= 0xffff_ffff_ffff_ffff * 0xffff_ffff_ffff_ffff) by (nonlinear_arith)
            requires
                0 <= mid <= 0xffff_ffff_ffff_ffff,
        ;
        if mid * mid >= n {
            hi = mid;
        } else {
            lo = mid + 1;
        }
    }
    proof {
        lemma_root_up_unique(n as int, lo as int);
    }
    lo
}

} // verus!
