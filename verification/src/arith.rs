//! Integer helpers shared by the geometry kernel: magnitudes, rounding
//! divisions and the integer square root.

use vstd::prelude::*;

verus! {

/// Absolute value of an integer.
pub open spec fn abs(x: int) -> int {
    if x < 0 {
        -x
    } else {
        x
    }
}

/// Quotient rounded toward zero, as machine division rounds it.
pub open spec fn trunc_div(a: int, b: int) -> int {
    if (a >= 0) == (b > 0) {
        abs(a) / abs(b)
    } else {
        -(abs(a) / abs(b))
    }
}

/// The magnitude of a product is bounded by the product of bounds on the
/// magnitudes of its factors.
pub proof fn lemma_mul_bound(x: int, y: int, bx: int, by: int)
    by (nonlinear_arith)
    requires
        -bx <= x <= bx,
        -by <= y <= by,
    ensures
        -(bx * by) <= x * y <= bx * by,
{
}

/// Magnitude of `x` as an unsigned number.
pub fn magnitude(x: i64) -> (m: u64)
    ensures
        m == abs(x as int),
{
    if x < 0 {
        let wide: i128 = -(x as i128);
        wide as u64
    } else {
        x as u64
    }
}

/// Quotient of `a` by `b`, rounded toward zero.
pub fn div_toward_zero(a: i64, b: i64) -> (q: i64)
    requires
        b != 0,
        !(a == i64::MIN && b == -1),
    ensures
        q == trunc_div(a as int, b as int),
{
    let ma: u64 = magnitude(a);
    let mb: u64 = magnitude(b);
    let mq: u64 = ma / mb;
    assert(mq <= ma) by (nonlinear_arith)
        requires
            mq == ma / mb,
            mb >= 1,
    ;
    if (a >= 0) == (b > 0) {
        assert(mq <= i64::MAX) by (nonlinear_arith)
            requires
                mq == ma / mb,
                mb >= 1,
                ma <= 0x8000_0000_0000_0000,
                ma == 0x8000_0000_0000_0000 ==> mb >= 2,
        ;
        mq as i64
    } else {
        let wide: i128 = -(mq as i128);
        wide as i64
    }
}

/// Quotient of `n` by a positive `d`, rounded toward negative infinity.
pub fn div_floor(n: i128, d: i128) -> (q: i128)
    requires
        d > 0,
        n > i128::MIN,
    ensures
        q == n / d,
{
    if n >= 0 {
        n / d
    } else {
        let m: i128 = -n;
        let mq: i128 = m / d;
        let mr: i128 = m % d;
        assert(m == d * mq + mr && 0 <= mr < d) by (nonlinear_arith)
            requires
                mq == m / d,
                mr == m % d,
                d > 0,
        ;
        assert(mq <= m) by (nonlinear_arith)
            requires
                mq == m / d,
                d >= 1,
                m >= 0,
        ;
        assert(d * (-mq) == -(d * mq) && d * (-mq - 1) == -(d * mq) - d) by (nonlinear_arith);
        if mr == 0 {
            assert(n / d == -mq) by (nonlinear_arith)
                requires
                    n == d * (-mq),
                    d > 0,
            ;
            -mq
        } else {
            assert(n / d == -mq - 1) by (nonlinear_arith)
                requires
                    n == d * (-mq - 1) + (d - mr),
                    0 < d - mr < d,
            ;
            -mq - 1
        }
    }
}

/// Largest `r` whose square does not exceed `n`.
pub fn isqrt(n: u128) -> (r: u64)
    ensures
        r * r <= n < (r + 1) * (r + 1),
{
    let mut lo: u128 = 0;
    let mut hi: u128 = 0x1_0000_0000_0000_0000;
    assert(hi * hi > n) by (nonlinear_arith)
        requires
            hi == 0x1_0000_0000_0000_0000,
            n <= u128::MAX,
    ;
    while hi - lo > 1
        invariant
            lo < hi <= 0x1_0000_0000_0000_0000,
            lo * lo <= n < hi * hi,
        decreases hi - lo,
    {
        let mid: u128 = lo + (hi - lo) / 2;
        assert(mid * mid <= 0xffff_ffff_ffff_ffff * 0xffff_ffff_ffff_ffff) by (nonlinear_arith)
            requires
                0 <= mid <= 0xffff_ffff_ffff_ffff,
        ;
        if mid * mid <= n {
            lo = mid;
        } else {
            hi = mid;
        }
    }
    lo as u64
}

/// Largest denominator of a [`Ratio`].
pub const RATIO_DEN_LIMIT: i128 = 0x1000_0000_0000;

/// Largest magnitude of the numerator of a [`Ratio`].
pub const RATIO_NUM_LIMIT: i128 = 0x1_0000_0000_0000_0000_0000;

/// An exact fraction with a positive denominator.
#[derive(Debug, Copy, Clone, PartialEq, Eq, Structural)]
pub struct Ratio {
    num: i128,
    den: i128,
}

impl Ratio {
    /// Numerator.
    pub closed spec fn numer(self) -> int {
        self.num as int
    }

    /// Denominator.
    pub closed spec fn denom(self) -> int {
        self.den as int
    }

    /// The fraction `num / den`.
    pub closed spec fn of(num: int, den: int) -> Ratio {
        Ratio { num: num as i128, den: den as i128 }
    }

    /// The numerator and the denominator of `of(num, den)` are `num` and
    /// `den` where they are machine numbers.
    pub proof fn lemma_of_parts(num: int, den: int)
        ensures
            i128::MIN <= num <= i128::MAX ==> Self::of(num, den).numer() == num,
            i128::MIN <= den <= i128::MAX ==> Self::of(num, den).denom() == den,
    {
    }

    /// A fraction is determined by its numerator and its denominator.
    pub proof fn lemma_of(self)
        ensures
            self == Self::of(self.numer(), self.denom()),
    {
    }

    /// The denominator is positive and both numbers are within their limits.
    pub open spec fn wf(self) -> bool {
        &&& 0 < self.denom() <= RATIO_DEN_LIMIT
        &&& -RATIO_NUM_LIMIT <= self.numer() <= RATIO_NUM_LIMIT
    }

    /// Whether the fraction is greater than `other`.
    pub open spec fn spec_exceeds(self, other: Ratio) -> bool {
        self.numer() * other.denom() > other.numer() * self.denom()
    }

    /// Whether the fraction is greater than zero.
    pub open spec fn spec_is_positive(self) -> bool {
        self.numer() > 0
    }

    /// The fraction `num / den`.
    pub fn new(num: i128, den: i128) -> (ratio: Self)
        requires
            0 < den <= RATIO_DEN_LIMIT,
            -RATIO_NUM_LIMIT <= num <= RATIO_NUM_LIMIT,
        ensures
            ratio == Self::of(num as int, den as int),
            ratio.numer() == num,
            ratio.denom() == den,
            ratio.wf(),
    {
        Ratio { num, den }
    }

    /// Numerator.
    pub fn numerator(&self) -> (n: i128)
        ensures
            n == self.numer(),
    {
        self.num
    }

    /// Denominator.
    pub fn denominator(&self) -> (d: i128)
        ensures
            d == self.denom(),
    {
        self.den
    }

    /// Whether the fraction is greater than `other`.
    pub fn exceeds(&self, other: &Ratio) -> (b: bool)
        requires
            self.wf(),
            other.wf(),
        ensures
            b == self.spec_exceeds(*other),
    {
        proof {
            lemma_mul_bound(
                self.num as int,
                other.den as int,
                RATIO_NUM_LIMIT as int,
                RATIO_DEN_LIMIT as int,
            );
            lemma_mul_bound(
                other.num as int,
                self.den as int,
                RATIO_NUM_LIMIT as int,
                RATIO_DEN_LIMIT as int,
            );
        }
        self.num * other.den > other.num * self.den
    }

    /// Whether the fraction is greater than zero.
    pub fn is_positive(&self) -> (b: bool)
        ensures
            b == self.spec_is_positive(),
    {
        self.num > 0
    }
}

} // verus!
