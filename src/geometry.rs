//! Pixel coordinates and the scale factors that frames and templates are resized by.
use vstd::prelude::*;

verus! {

/// A pixel position in a frame.
#[derive(Clone, Copy, Debug, PartialEq, Eq, Structural)]
pub struct Point {
    pub x: i32,
    pub y: i32,
}

/// A resize factor `num / den`, as in 38 / 100 for a frame shrunk to 38%.
#[derive(Clone, Copy, Debug, PartialEq, Eq, Structural)]
pub struct Scale {
    pub num: u32,
    pub den: u32,
}

/// Squared Euclidean distance between two points.
pub open spec fn dist2(a: Point, b: Point) -> int {
    (a.x - b.x) * (a.x - b.x) + (a.y - b.y) * (a.y - b.y)
}

impl Scale {
    pub open spec fn wf(self) -> bool {
        self.num > 0 && self.den > 0
    }

    /// Coordinate `m` of the resized image mapped back to the full-size one: `m / factor`,
    /// truncated.
    pub open spec fn unscaled(self, m: int) -> int {
        (m * self.den) / (self.num as int)
    }

    /// The factor `num / den`; `None` where either part is zero.
    pub fn new(num: u32, den: u32) -> (r: Option<Scale>)
        ensures
            match r {
                Some(s) => s.wf() && s.num == num && s.den == den,
                None => num == 0 || den == 0,
            },
    {
        if num == 0 || den == 0 {
            None
        } else {
            Some(Scale { num, den })
        }
    }

    /// Maps coordinate `m` of the resized image back to the full-size one.
    pub fn unscale(self, m: usize) -> (r: i32)
        requires
            self.wf(),
            self.unscaled(m as int) <= i32::MAX,
        ensures
            r == self.unscaled(m as int),
    {
        proof {
            assert(0 <= m * self.den <= 0xffff_ffff_ffff_ffff * 0xffff_ffff) by (nonlinear_arith)
                requires
                    m <= 0xffff_ffff_ffff_ffff,
                    self.den <= 0xffff_ffff,
            ;
        }
        let p = (m as u128) * (self.den as u128);
        let q = p / (self.num as u128);
        q as i32
    }

    /// Whether every coordinate below `m` maps back into the range of `i32`.
    pub fn fits(self, m: usize) -> (r: bool)
        requires
            self.wf(),
        ensures
            r == (self.unscaled(m as int) <= i32::MAX),
    {
        proof {
            assert(0 <= m * self.den <= 0xffff_ffff_ffff_ffff * 0xffff_ffff) by (nonlinear_arith)
                requires
                    m <= 0xffff_ffff_ffff_ffff,
                    self.den <= 0xffff_ffff,
            ;
        }
        let p = (m as u128) * (self.den as u128);
        p / (self.num as u128) <= i32::MAX as u128
    }
}

/// Mapping back is monotonic: a coordinate that fits bounds all below it.
pub proof fn lemma_unscaled_monotonic(s: Scale, a: int, b: int)
    requires
        s.wf(),
        0 <= a <= b,
    ensures
        0 <= s.unscaled(a) <= s.unscaled(b),
{
    assert(0 <= a * s.den <= b * s.den) by (nonlinear_arith)
        requires
            0 <= a <= b,
            s.den > 0,
    ;
    vstd::arithmetic::div_mod::lemma_div_is_ordered(a * s.den, b * s.den, s.num as int);
    vstd::arithmetic::div_mod::lemma_div_pos_is_pos(a * s.den, s.num as int);
}

/// A coordinate found at `m` on a surface resized by factor `s` is reported at `m / s`,
/// truncated: the reported `u` is the whole number with `u * s <= m < (u + 1) * s`, and a
/// factor of one reports `m` itself.
pub proof fn lemma_scale_round_trip(s: Scale, m: int)
    requires
        s.wf(),
        0 <= m,
    ensures
        s.unscaled(m) * s.num <= m * s.den < (s.unscaled(m) + 1) * s.num,
        s.num == s.den ==> s.unscaled(m) == m,
{
    let n = m * s.den;
    let d = s.num as int;
    vstd::arithmetic::div_mod::lemma_fundamental_div_mod(n, d);
    assert((n / d) * d <= n < (n / d + 1) * d) by (nonlinear_arith)
        requires
            n == d * (n / d) + n % d,
            0 <= n % d < d,
    ;
    if s.num == s.den {
        vstd::arithmetic::div_mod::lemma_div_multiples_vanish(m, d);
        assert(m * s.den == d * m) by (nonlinear_arith)
            requires
                d == s.den,
        ;
    }
}

} // verus!
