//! The scalar values of the language: fixed-point numbers with three decimal places.
//!
//! A result outside the range of `i64` thousandths, a division by zero and the square
//! root of a negative number are `Undefined`. `Undefined` spreads through arithmetic,
//! satisfies no comparison but `!=`, and becomes 0 where a coordinate or a channel is
//! made of it.
use vstd::prelude::*;

verus! {

/// Thousandths in one unit.
pub const SCALE: i64 = 1000;

/// A scalar value: `Fixed(v)` stands for `v / 1000`.
#[derive(Clone, Copy, Debug, PartialEq, Eq, Structural)]
pub enum Num {
    Fixed(i64),
    Undefined,
}

pub open spec fn in_i64(v: int) -> bool {
    i64::MIN <= v <= i64::MAX
}

/// `v` thousandths as a scalar, or `Undefined` where it does not fit.
pub open spec fn num_of(v: int) -> Num {
    if in_i64(v) {
        Num::Fixed(v as i64)
    } else {
        Num::Undefined
    }
}

pub open spec fn abs(v: int) -> int {
    if v < 0 {
        -v
    } else {
        v
    }
}

/// Division that rounds toward zero.
pub open spec fn trunc_div(n: int, d: int) -> int {
    let q = abs(n) / abs(d);
    if (n < 0) != (d < 0) {
        -q
    } else {
        q
    }
}

/// `r` is the integer square root of `n`.
pub open spec fn is_isqrt(n: int, r: int) -> bool {
    0 <= r && r * r <= n && n < (r + 1) * (r + 1)
}

/// Rounds `v` thousandths to the nearest integer, halves away from zero.
pub open spec fn round_thousandths(v: int) -> int {
    if v >= 0 {
        (v + 500) / 1000
    } else {
        -((-v + 500) / 1000)
    }
}

pub open spec fn clamp(v: int, lo: int, hi: int) -> int {
    if v < lo {
        lo
    } else if v > hi {
        hi
    } else {
        v
    }
}

impl Num {
    pub open spec fn plus_spec(self, o: Num) -> Num {
        match (self, o) {
            (Num::Fixed(a), Num::Fixed(b)) => num_of(a + b),
            _ => Num::Undefined,
        }
    }

    pub open spec fn minus_spec(self, o: Num) -> Num {
        match (self, o) {
            (Num::Fixed(a), Num::Fixed(b)) => num_of(a - b),
            _ => Num::Undefined,
        }
    }

    pub open spec fn times_spec(self, o: Num) -> Num {
        match (self, o) {
            (Num::Fixed(a), Num::Fixed(b)) => num_of(trunc_div(a * b, 1000)),
            _ => Num::Undefined,
        }
    }

    pub open spec fn divided_by_spec(self, o: Num) -> Num {
        match (self, o) {
            (Num::Fixed(a), Num::Fixed(b)) => if b == 0 {
                Num::Undefined
            } else {
                num_of(trunc_div(a * 1000, b as int))
            },
            _ => Num::Undefined,
        }
    }

    pub open spec fn sqrt_spec(self) -> Num {
        match self {
            Num::Fixed(a) => if a < 0 {
                Num::Undefined
            } else {
                Num::Fixed(choose|r: i64| #[trigger] is_isqrt(a * 1000, r as int))
            },
            Num::Undefined => Num::Undefined,
        }
    }

    /// The integer `v` as a scalar.
    pub open spec fn of_int_spec(v: int) -> Num {
        num_of(v * 1000)
    }

    /// Rounded to the nearest integer and held within `[lo, hi]`; `Undefined` gives 0.
    pub open spec fn to_bounded(self, lo: int, hi: int) -> int {
        match self {
            Num::Fixed(a) => clamp(round_thousandths(a as int), lo, hi),
            Num::Undefined => 0,
        }
    }

    /// Rounded toward zero and held within `[lo, hi]`; `Undefined` gives 0.
    pub open spec fn to_bounded_toward_zero(self, lo: int, hi: int) -> int {
        match self {
            Num::Fixed(a) => clamp(trunc_div(a as int, 1000), lo, hi),
            Num::Undefined => 0,
        }
    }

    pub open spec fn lt_spec(self, o: Num) -> bool {
        match (self, o) {
            (Num::Fixed(a), Num::Fixed(b)) => a < b,
            _ => false,
        }
    }

    pub open spec fn le_spec(self, o: Num) -> bool {
        match (self, o) {
            (Num::Fixed(a), Num::Fixed(b)) => a <= b,
            _ => false,
        }
    }

    pub open spec fn eq_num_spec(self, o: Num) -> bool {
        match (self, o) {
            (Num::Fixed(a), Num::Fixed(b)) => a == b,
            _ => false,
        }
    }
}

fn fit(v: i128) -> (r: Num)
    ensures
        r == num_of(v as int),
{
    if -9223372036854775808 <= v && v <= 9223372036854775807 {
        Num::Fixed(v as i64)
    } else {
        Num::Undefined
    }
}

fn div_toward_zero(n: i128, d: i128) -> (q: i128)
    requires
        d != 0,
        -0x4000_0000_0000_0000_0000_0000_0000_0000 <= n <= 0x4000_0000_0000_0000_0000_0000_0000_0000,
        -0x4000_0000_0000_0000_0000_0000_0000_0000 <= d <= 0x4000_0000_0000_0000_0000_0000_0000_0000,
    ensures
        q == trunc_div(n as int, d as int),
{
    let an: u128 = if n < 0 { (-n) as u128 } else { n as u128 };
    let ad: u128 = if d < 0 { (-d) as u128 } else { d as u128 };
    let aq = an / ad;
    assert(aq <= an) by (nonlinear_arith) requires aq == an / ad, ad >= 1;
    if (n < 0) != (d < 0) {
        -(aq as i128)
    } else {
        aq as i128
    }
}

/// The integer square root of `n`, by bisection.
fn isqrt(n: u128) -> (r: u64)
    requires
        n < 0x400_0000_0000_0000_0000,
    ensures
        is_isqrt(n as int, r as int),
{
    let mut lo: u128 = 0;
    let mut hi: u128 = 0x20_0000_0000;
    assert(n < hi * hi) by (nonlinear_arith) requires hi == 0x20_0000_0000, n < 0x400_0000_0000_0000_0000;
    while hi - lo > 1
        invariant
            lo < hi <= 0x20_0000_0000,
            lo * lo <= n,
            n < hi * hi,
        decreases hi - lo,
    {
        let mid = lo + (hi - lo) / 2;
        assert(mid * mid <= 0x400_0000_0000_0000_0000) by (nonlinear_arith)
            requires mid <= 0x20_0000_0000;
        if mid * mid <= n {
            lo = mid;
        } else {
            hi = mid;
        }
    }
    assert(hi == lo + 1);
    lo as u64
}

pub proof fn lemma_isqrt_unique(n: int, r1: int, r2: int)
    requires
        is_isqrt(n, r1),
        is_isqrt(n, r2),
    ensures
        r1 == r2,
{
    if r1 < r2 {
        assert((r1 + 1) * (r1 + 1) <= r2 * r2) by (nonlinear_arith)
            requires 0 <= r1, r1 + 1 <= r2;
    } else if r2 < r1 {
        assert((r2 + 1) * (r2 + 1) <= r1 * r1) by (nonlinear_arith)
            requires 0 <= r2, r2 + 1 <= r1;
    }
}

impl Num {
    /// The integer `v` as a scalar; `Undefined` where it does not fit.
    pub fn of_int(v: i64) -> (r: Num)
        ensures
            r == Num::of_int_spec(v as int),
    {
        fit((v as i128) * 1000)
    }

    pub fn plus(self, o: Num) -> (r: Num)
        ensures
            r == self.plus_spec(o),
    {
        match (self, o) {
            (Num::Fixed(a), Num::Fixed(b)) => fit(a as i128 + b as i128),
            _ => Num::Undefined,
        }
    }

    pub fn minus(self, o: Num) -> (r: Num)
        ensures
            r == self.minus_spec(o),
    {
        match (self, o) {
            (Num::Fixed(a), Num::Fixed(b)) => fit(a as i128 - b as i128),
            _ => Num::Undefined,
        }
    }

    pub fn times(self, o: Num) -> (r: Num)
        ensures
            r == self.times_spec(o),
    {
        match (self, o) {
            (Num::Fixed(a), Num::Fixed(b)) => {
                assert(-0x4000_0000_0000_0000_0000_0000_0000_0000 <= (a as int) * (b as int) <= 0x4000_0000_0000_0000_0000_0000_0000_0000)
                    by (nonlinear_arith)
                    requires i64::MIN <= a <= i64::MAX, i64::MIN <= b <= i64::MAX;
                let p = (a as i128) * (b as i128);
                fit(div_toward_zero(p, 1000))
            },
            _ => Num::Undefined,
        }
    }

    pub fn divided_by(self, o: Num) -> (r: Num)
        ensures
            r == self.divided_by_spec(o),
    {
        match (self, o) {
            (Num::Fixed(a), Num::Fixed(b)) => {
                if b == 0 {
                    Num::Undefined
                } else {
                    fit(div_toward_zero((a as i128) * 1000, b as i128))
                }
            },
            _ => Num::Undefined,
        }
    }

    pub fn squared(self) -> (r: Num)
        ensures
            r == self.times_spec(self),
    {
        self.times(self)
    }

    /// The square root, to the thousandth below; `Undefined` for a negative number.
    pub fn sqrt(self) -> (r: Num)
        ensures
            r == self.sqrt_spec(),
    {
        match self {
            Num::Fixed(a) => {
                if a < 0 {
                    Num::Undefined
                } else {
                    let n = (a as u128) * 1000;
                    let s = isqrt(n);
                    assert(s < 0x1_0000_0000_0000) by (nonlinear_arith)
                        requires s * s <= n, n < 0x400_0000_0000_0000_0000, s >= 0;
                    let r = s as i64;
                    proof {
                        let c = choose|r: i64| #[trigger] is_isqrt(a * 1000, r as int);
                        assert(is_isqrt(a * 1000, r as int));
                        lemma_isqrt_unique(a * 1000, c as int, r as int);
                    }
                    Num::Fixed(r)
                }
            },
            Num::Undefined => Num::Undefined,
        }
    }

    /// Rounded to the nearest integer and held within `[lo, hi]`; `Undefined` gives 0.
    pub fn round_within(self, lo: i64, hi: i64) -> (r: i64)
        requires
            lo <= 0 <= hi,
        ensures
            r == self.to_bounded(lo as int, hi as int),
    {
        match self {
            Num::Fixed(a) => {
                let w = a as i128;
                let v: i128 = if w >= 0 { (w + 500) / 1000 } else { -((-w + 500) / 1000) };
                if v < lo as i128 {
                    lo
                } else if v > hi as i128 {
                    hi
                } else {
                    v as i64
                }
            },
            Num::Undefined => 0,
        }
    }

    /// Rounded toward zero and held within `[lo, hi]`; `Undefined` gives 0.
    pub fn truncate_within(self, lo: i64, hi: i64) -> (r: i64)
        requires
            lo <= 0 <= hi,
        ensures
            r == self.to_bounded_toward_zero(lo as int, hi as int),
    {
        match self {
            Num::Fixed(a) => {
                let v = div_toward_zero(a as i128, 1000);
                if v < lo as i128 {
                    lo
                } else if v > hi as i128 {
                    hi
                } else {
                    v as i64
                }
            },
            Num::Undefined => 0,
        }
    }

    pub fn lt(self, o: Num) -> (r: bool)
        ensures
            r == self.lt_spec(o),
    {
        match (self, o) {
            (Num::Fixed(a), Num::Fixed(b)) => a < b,
            _ => false,
        }
    }

    pub fn le(self, o: Num) -> (r: bool)
        ensures
            r == self.le_spec(o),
    {
        match (self, o) {
            (Num::Fixed(a), Num::Fixed(b)) => a <= b,
            _ => false,
        }
    }

    pub fn eq_num(self, o: Num) -> (r: bool)
        ensures
            r == self.eq_num_spec(o),
    {
        match (self, o) {
            (Num::Fixed(a), Num::Fixed(b)) => a == b,
            _ => false,
        }
    }
}

} // verus!
