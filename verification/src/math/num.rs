use vstd::prelude::*;

verus! {

/// Floor of the real square root of `n`: the greatest `s` with `s * s <= n`.
pub open spec fn sqrt_floor(n: nat) -> nat
    decreases n,
{
    if n == 0 {
        0
    } else {
        let s = sqrt_floor((n - 1) as nat);
        if (s + 1) * (s + 1) <= n {
            s + 1
        } else {
            s
        }
    }
}

/// `sqrt_floor(n)` squared is at most `n`, and the next square is beyond it.
pub proof fn lemma_sqrt_floor_bounds(n: nat)
    ensures
        sqrt_floor(n) * sqrt_floor(n) <= n,
        n < (sqrt_floor(n) + 1) * (sqrt_floor(n) + 1),
    decreases n,
{
    let r = sqrt_floor(n);
    if n == 0 {
        assert(sqrt_floor(0) == 0);
        assert(r * r <= n && n < (r + 1) * (r + 1)) by (nonlinear_arith)
            requires
                n == 0,
                r == 0,
        ;
    } else {
        let m = (n - 1) as nat;
        lemma_sqrt_floor_bounds(m);
        let s = sqrt_floor(m);
        if (s + 1) * (s + 1) <= n {
            assert(r == s + 1);
            assert(r * r <= n && n < (r + 1) * (r + 1)) by (nonlinear_arith)
                requires
                    r == s + 1,
                    (s + 1) * (s + 1) <= n,
                    n <= (s + 1) * (s + 1),
            ;
        } else {
            assert(r == s);
            assert(r * r <= n && n < (r + 1) * (r + 1)) by (nonlinear_arith)
                requires
                    r == s,
                    s * s <= m,
                    m == n - 1,
                    !((s + 1) * (s + 1) <= n),
            ;
        }
    }
}

/// Any `r` whose square window contains `n` is the floor square root of `n`.
pub proof fn lemma_sqrt_floor_unique(n: nat, r: nat)
    requires
        r * r <= n,
        n < (r + 1) * (r + 1),
    ensures
        r == sqrt_floor(n),
{
    lemma_sqrt_floor_bounds(n);
    let s = sqrt_floor(n);
    assert(r <= s && s <= r) by (nonlinear_arith)
        requires
            r * r <= n,
            n < (r + 1) * (r + 1),
            s * s <= n,
            n < (s + 1) * (s + 1),
    ;
}

/// Integer square root by binary search over the 64-bit candidate range.
pub fn isqrt(n: u128) -> (r: u128)
    ensures
        r == sqrt_floor(n as nat),
{
    let mut lo: u128 = 0;
    let mut hi: u128 = 0xffff_ffff_ffff_ffff;
    proof {
        assert((hi + 1) * (hi + 1) > u128::MAX) by (nonlinear_arith)
            requires
                hi == 0xffff_ffff_ffff_ffff,
        ;
    }
    while lo < hi
        invariant
            lo <= hi < 0x1_0000_0000_0000_0000,
            lo * lo <= n,
            n < (hi + 1) * (hi + 1),
        decreases hi - lo,
    {
        let mid = lo + (hi - lo + 1) / 2;
        assert(mid * mid <= u128::MAX) by (nonlinear_arith)
            requires
                mid < 0x1_0000_0000_0000_0000,
        ;
        if mid * mid <= n {
            lo = mid;
        } else {
            hi = mid - 1;
        }
    }
    proof {
        lemma_sqrt_floor_unique(n as nat, lo as nat);
    }
    lo
}

/// Quotient of `a` by `b`, rounded toward zero as Rust's `/` does.
/// Verus's spec `/` is Euclidean, so negative operands are sign-adjusted.
pub open spec fn div_trunc_spec(a: int, b: int) -> int {
    if b >= 0 {
        if a >= 0 {
            a / b
        } else {
            -((-a) / b)
        }
    } else {
        if a >= 0 {
            -(a / (-b))
        } else {
            (-a) / (-b)
        }
    }
}

/// The truncating quotient keeps the result's sign with its dividend's and
/// never grows past the dividend's size.
pub proof fn lemma_div_trunc_range(a: int, b: int)
    requires
        b != 0,
    ensures
        a >= 0 && b > 0 ==> 0 <= div_trunc_spec(a, b) <= a,
        a >= 0 && b < 0 ==> -a <= div_trunc_spec(a, b) <= 0,
        a < 0 && b > 0 ==> a <= div_trunc_spec(a, b) <= 0,
        a < 0 && b < 0 ==> 0 <= div_trunc_spec(a, b) <= -a,
{
    let x: int = if a >= 0 { a } else { -a };
    let y: int = if b > 0 { b } else { -b };
    vstd::arithmetic::div_mod::lemma_div_pos_is_pos(x, y);
    vstd::arithmetic::div_mod::lemma_div_is_ordered_by_denominator(x, 1, y);
    vstd::arithmetic::div_mod::lemma_div_by_self(1);
    assert(x / 1 == x);
}

/// Division of a wide intermediate, rounding toward zero as Rust's `/` does.
pub fn div_trunc(a: i128, b: i128) -> (q: i128)
    requires
        b != 0,
        a > i128::MIN,
        b > i128::MIN,
    ensures
        q == div_trunc_spec(a as int, b as int),
{
    proof {
        lemma_div_trunc_range(a as int, b as int);
    }
    if b > 0 {
        if a >= 0 {
            a / b
        } else {
            -((-a) / b)
        }
    } else {
        if a >= 0 {
            -(a / (-b))
        } else {
            (-a) / (-b)
        }
    }
}

/// Truncating division on machine words, as Rust's `/` behaves.
pub fn div_i64_trunc(a: i64, b: i64) -> (q: i64)
    requires
        b != 0,
        a > i64::MIN,
    ensures
        q == div_trunc_spec(a as int, b as int),
{
    let wide = div_trunc(a as i128, b as i128);
    proof {
        lemma_div_trunc_range(a as int, b as int);
    }
    wide as i64
}

/// The product of two machine-word values always fits the doubled width.
pub proof fn lemma_i64_mul_fits_i128(a: int, b: int)
    by (nonlinear_arith)
    requires
        -0x8000_0000_0000_0000 <= a <= 0x7fff_ffff_ffff_ffff,
        -0x8000_0000_0000_0000 <= b <= 0x7fff_ffff_ffff_ffff,
    ensures
        -0x8000_0000_0000_0000_0000_0000_0000_0000 <= a * b
            <= 0x7fff_ffff_ffff_ffff_ffff_ffff_ffff_ffff,
{
}

/// The library's fixed decimal scale: time steps are milliseconds, angles
/// milliradians, and the trigonometric helpers return thousandths.
pub const MILLI: i64 = 1000;

/// The difference between `a` and its truncating quotient times `b` is a
/// remainder smaller than `b` in magnitude, on the dividend's side of zero.
pub proof fn lemma_div_trunc_mod(a: int, b: int)
    requires
        b > 0,
    ensures
        ({
            let r = a - div_trunc_spec(a, b) * b;
            &&& -b < r < b
            &&& a >= 0 ==> 0 <= r
            &&& a < 0 ==> r <= 0
        }),
{
    if a >= 0 {
        vstd::arithmetic::div_mod::lemma_fundamental_div_mod(a, b);
        vstd::arithmetic::div_mod::lemma_mod_bound(a, b);
        assert(div_trunc_spec(a, b) * b == b * (a / b)) by (nonlinear_arith)
            requires
                div_trunc_spec(a, b) == a / b,
        ;
    } else {
        vstd::arithmetic::div_mod::lemma_fundamental_div_mod(-a, b);
        vstd::arithmetic::div_mod::lemma_mod_bound(-a, b);
        assert(div_trunc_spec(a, b) * b == -(b * ((-a) / b))) by (nonlinear_arith)
            requires
                div_trunc_spec(a, b) == -((-a) / b),
        ;
    }
}

/// A truncating quotient of a bounded dividend is bounded by the quotient
/// of the bound.
pub proof fn lemma_div_trunc_abs(a: int, b: int, c: int)
    requires
        b > 0,
        -c <= a <= c,
        0 <= c,
    ensures
        -(c / b) <= div_trunc_spec(a, b) <= c / b,
{
    lemma_div_trunc_range(a, b);
    vstd::arithmetic::div_mod::lemma_div_pos_is_pos(c, b);
    if a >= 0 {
        vstd::arithmetic::div_mod::lemma_div_is_ordered(a, c, b);
    } else {
        vstd::arithmetic::div_mod::lemma_div_is_ordered(-a, c, b);
    }
}

/// `v` forced into the closed range from `lo` to `hi`.
pub open spec fn clamp64(v: i64, lo: i64, hi: i64) -> i64 {
    if v < lo {
        lo
    } else if v > hi {
        hi
    } else {
        v
    }
}

/// Forces `v` into the closed range from `lo` to `hi`.
pub fn clamp_i64(v: i64, lo: i64, hi: i64) -> (r: i64)
    requires
        lo <= hi,
    ensures
        r == clamp64(v, lo, hi),
{
    if v < lo {
        lo
    } else if v > hi {
        hi
    } else {
        v
    }
}

/// A product of two values bounded by `c` is bounded by `c * c`.
pub proof fn lemma_mul_bound(a: int, b: int, c: int)
    by (nonlinear_arith)
    requires
        -c <= a <= c,
        -c <= b <= c,
        c >= 0,
    ensures
        -(c * c) <= a * b <= c * c,
{
}

/// A product of values bounded by `ca` and `cb` is bounded by `ca * cb`.
pub proof fn lemma_mul_bounds(a: int, ca: int, b: int, cb: int)
    by (nonlinear_arith)
    requires
        -ca <= a <= ca,
        -cb <= b <= cb,
        ca >= 0,
        cb >= 0,
    ensures
        -(ca * cb) <= a * b <= ca * cb,
{
}

/// An exact rational value with a positive denominator, used for parametric
/// collision offsets that need not be whole numbers.
#[derive(Debug, Clone, Copy, PartialEq, Eq, Structural)]
pub struct Ratio {
    pub num: i64,
    pub den: i64,
}

impl Ratio {
    /// A well-formed ratio keeps its denominator positive.
    pub open spec fn wf(&self) -> bool {
        self.den > 0
    }

    /// The rational `a` and `b` stand for the same value.
    pub open spec fn spec_same(a: Ratio, b: Ratio) -> bool {
        a.num * b.den == b.num * a.den
    }

    /// The rational `a` is at most `b`, for positive denominators.
    pub open spec fn spec_le(a: Ratio, b: Ratio) -> bool {
        a.num * b.den <= b.num * a.den
    }

    pub fn new(num: i64, den: i64) -> (r: Ratio)
        requires
            den > 0,
        ensures
            r.num == num,
            r.den == den,
            r.wf(),
    {
        Ratio { num, den }
    }

    /// The whole number `n` as a ratio.
    pub fn whole(n: i64) -> (r: Ratio)
        ensures
            r.num == n,
            r.den == 1,
            r.wf(),
    {
        Ratio { num: n, den: 1 }
    }

    /// Whether `self` and `other` stand for the same rational value.
    pub fn same_value(&self, other: &Ratio) -> (r: bool)
        requires
            self.wf(),
            other.wf(),
        ensures
            r == Ratio::spec_same(*self, *other),
    {
        proof {
            lemma_i64_mul_fits_i128(self.num as int, other.den as int);
            lemma_i64_mul_fits_i128(other.num as int, self.den as int);
        }
        let a: i128 = (self.num as i128) * (other.den as i128);
        let b: i128 = (other.num as i128) * (self.den as i128);
        a == b
    }

    /// Whether `self` is at most `other` as a rational value.
    pub fn le(&self, other: &Ratio) -> (r: bool)
        requires
            self.wf(),
            other.wf(),
        ensures
            r == Ratio::spec_le(*self, *other),
    {
        proof {
            lemma_i64_mul_fits_i128(self.num as int, other.den as int);
            lemma_i64_mul_fits_i128(other.num as int, self.den as int);
        }
        let a: i128 = (self.num as i128) * (other.den as i128);
        let b: i128 = (other.num as i128) * (self.den as i128);
        a <= b
    }

    /// Whether the value is below zero.
    pub fn is_negative(&self) -> (r: bool)
        requires
            self.wf(),
        ensures
            r == (self.num < 0),
    {
        self.num < 0
    }
}

} // verus!
