//! Exact rational numbers.
//!
//! Every quantity that is drawn (a sample, a quartile, a cumulative fraction, an axis
//! bound) is a fraction of two integers. Contracts speak of [`Frac`], a fraction of
//! unbounded integers; executable code carries [`Ratio`], its machine-sized counterpart.

use vstd::prelude::*;

verus! {

/// A fraction `num / den` of mathematical integers. It denotes a number when `den > 0`.
pub struct Frac {
    pub num: int,
    pub den: int,
}

impl Frac {
    /// The denominator is positive.
    pub open spec fn wf(self) -> bool {
        self.den > 0
    }

    /// The fraction that denotes the integer `v`.
    pub open spec fn whole(v: int) -> Frac {
        Frac { num: v, den: 1 }
    }

    /// `self < other` as numbers.
    pub open spec fn lt(self, other: Frac) -> bool {
        self.num * other.den < other.num * self.den
    }

    /// `self <= other` as numbers.
    pub open spec fn le(self, other: Frac) -> bool {
        self.num * other.den <= other.num * self.den
    }

    /// `self` and `other` denote the same number.
    pub open spec fn same(self, other: Frac) -> bool {
        self.num * other.den == other.num * self.den
    }

    /// The numerator of `self - base` over the denominator `self.den * base.den`.
    pub open spec fn above(self, base: Frac) -> int {
        self.num * base.den - base.num * self.den
    }
}

/// The integer nearest to `p / q`, a tie going to the larger one.
/// For `p >= 0` and `q > 0` this is rounding half away from zero.
pub open spec fn round_div(p: int, q: int) -> int {
    (2 * p + q) / (2 * q)
}

/// A fraction `num / den` in machine integers. It is well formed when `den > 0`.
#[derive(Clone, Copy, Debug, PartialEq, Eq, Structural)]
pub struct Ratio {
    pub num: i64,
    pub den: u32,
}

impl View for Ratio {
    type V = Frac;

    open spec fn view(&self) -> Frac {
        Frac { num: self.num as int, den: self.den as int }
    }
}

impl Ratio {
    /// The denominator is positive.
    pub open spec fn wf(self) -> bool {
        self.den > 0
    }

    /// The ratio `num / den`.
    pub fn new(num: i64, den: u32) -> (r: Ratio)
        requires
            den > 0,
        ensures
            r.num == num,
            r.den == den,
            r.wf(),
    {
        Ratio { num, den }
    }

    /// The ratio that denotes the integer `v`.
    pub fn whole(v: i64) -> (r: Ratio)
        ensures
            r@ == Frac::whole(v as int),
            r.wf(),
    {
        Ratio { num: v, den: 1 }
    }

    /// Whether `self < other` as numbers.
    pub fn lt(self, other: Ratio) -> (b: bool)
        ensures
            b == self@.lt(other@),
    {
        proof {
            lemma_product_fits(self.num as int, other.den as int);
            lemma_product_fits(other.num as int, self.den as int);
        }
        let left: i128 = (self.num as i128) * (other.den as i128);
        let right: i128 = (other.num as i128) * (self.den as i128);
        left < right
    }

    /// Whether `self <= other` as numbers.
    pub fn le(self, other: Ratio) -> (b: bool)
        ensures
            b == self@.le(other@),
    {
        proof {
            lemma_product_fits(self.num as int, other.den as int);
            lemma_product_fits(other.num as int, self.den as int);
        }
        let left: i128 = (self.num as i128) * (other.den as i128);
        let right: i128 = (other.num as i128) * (self.den as i128);
        left <= right
    }

    /// Whether `self` and `other` denote the same number.
    pub fn same(self, other: Ratio) -> (b: bool)
        ensures
            b == self@.same(other@),
    {
        proof {
            lemma_product_fits(self.num as int, other.den as int);
            lemma_product_fits(other.num as int, self.den as int);
        }
        let left: i128 = (self.num as i128) * (other.den as i128);
        let right: i128 = (other.num as i128) * (self.den as i128);
        left == right
    }
}

/// A product of a 64-bit numerator and a 32-bit denominator stays below `2^95` in size.
pub proof fn lemma_product_fits(n: int, d: int)
    requires
        -0x8000_0000_0000_0000 <= n < 0x8000_0000_0000_0000,
        0 <= d < 0x1_0000_0000,
    ensures
        -0x8000_0000_0000_0000_0000_0000 < n * d < 0x8000_0000_0000_0000_0000_0000,
{
    assert(n * d <= 0x7fff_ffff_ffff_ffff * 0xffff_ffff) by (nonlinear_arith)
        requires
            n <= 0x7fff_ffff_ffff_ffff,
            0 <= d <= 0xffff_ffff,
    ;
    assert(n * d >= -0x8000_0000_0000_0000 * 0xffff_ffff) by (nonlinear_arith)
        requires
            n >= -0x8000_0000_0000_0000,
            0 <= d <= 0xffff_ffff,
    ;
}

/// The largest size of the numerator of a [`Wide`] fraction.
pub const MAX_WIDE_NUM: i128 = 0x2_0000_0000_0000_0000_0000_0000;

/// The largest denominator of a [`Wide`] fraction.
pub const MAX_WIDE_DEN: i128 = 0x4000_0000_0000_0000;

/// The largest denominator of a ratio that a [`Wide`] fraction can be compared with.
pub const MAX_NARROW_DEN: u32 = 0x80_0000;

/// A fraction with room for the points that lie between two axis bounds.
#[derive(Clone, Copy, Debug, PartialEq, Eq, Structural)]
pub struct Wide {
    pub num: i128,
    pub den: i128,
}

impl View for Wide {
    type V = Frac;

    open spec fn view(&self) -> Frac {
        Frac { num: self.num as int, den: self.den as int }
    }
}

impl Wide {
    /// The denominator is positive, and both parts are small enough to compare the
    /// fraction with a [`Ratio`] of a denominator up to [`MAX_NARROW_DEN`].
    pub open spec fn wf(self) -> bool {
        &&& 0 < self.den <= MAX_WIDE_DEN
        &&& -MAX_WIDE_NUM <= self.num <= MAX_WIDE_NUM
    }

    /// The same number as `r`, part by part.
    pub fn from_ratio(r: Ratio) -> (w: Wide)
        requires
            r.wf(),
        ensures
            w@ == r@,
            w.wf(),
    {
        Wide { num: r.num as i128, den: r.den as i128 }
    }

    /// Whether `self < r` as numbers.
    pub fn lt_ratio(self, r: Ratio) -> (b: bool)
        requires
            self.wf(),
            r.den <= MAX_NARROW_DEN,
        ensures
            b == self@.lt(r@),
    {
        proof {
            lemma_wide_products_fit(self, r);
        }
        self.num * (r.den as i128) < (r.num as i128) * self.den
    }

    /// Whether `self > r` as numbers.
    pub fn gt_ratio(self, r: Ratio) -> (b: bool)
        requires
            self.wf(),
            r.den <= MAX_NARROW_DEN,
        ensures
            b == r@.lt(self@),
    {
        proof {
            lemma_wide_products_fit(self, r);
        }
        (r.num as i128) * self.den < self.num * (r.den as i128)
    }
}

/// The cross products of a well-formed wide fraction and a ratio of a narrow
/// denominator fit in 128 bits.
pub proof fn lemma_wide_products_fit(w: Wide, r: Ratio)
    requires
        w.wf(),
        r.den <= MAX_NARROW_DEN,
    ensures
        -0x4000_0000_0000_0000_0000_0000_0000_0000 <= w.num * r.den
            <= 0x4000_0000_0000_0000_0000_0000_0000_0000,
        -0x4000_0000_0000_0000_0000_0000_0000_0000 <= r.num * w.den
            <= 0x4000_0000_0000_0000_0000_0000_0000_0000,
{
    let (a, b, c, d) = (w.num as int, r.den as int, r.num as int, w.den as int);
    assert(-0x4000_0000_0000_0000_0000_0000_0000_0000 <= a * b
        <= 0x4000_0000_0000_0000_0000_0000_0000_0000) by (nonlinear_arith)
        requires
            -0x2_0000_0000_0000_0000_0000_0000 <= a <= 0x2_0000_0000_0000_0000_0000_0000,
            0 <= b <= 0x80_0000,
    ;
    assert(-0x4000_0000_0000_0000_0000_0000_0000_0000 <= c * d
        <= 0x4000_0000_0000_0000_0000_0000_0000_0000) by (nonlinear_arith)
        requires
            -0x8000_0000_0000_0000 <= c <= 0x8000_0000_0000_0000,
            0 <= d <= 0x4000_0000_0000_0000,
    ;
}

} // verus!
