//! Exact non-negative fractions, the scores that the analyzers hand out.

use vstd::prelude::*;

verus! {

/// The fraction `num / den`. Scores are kept as fractions so that they can be
/// compared exactly; a caller that wants a float divides.
#[derive(Clone, Copy, Debug, PartialEq, Eq, Structural)]
pub struct Ratio {
    pub num: u64,
    pub den: u64,
}

impl Ratio {
    /// The denominator is not zero.
    pub open spec fn wf(self) -> bool {
        self.den > 0
    }

    /// `self` is the greater fraction.
    pub open spec fn above(self, other: Ratio) -> bool {
        self.num * other.den > other.num * self.den
    }

    /// The two fractions have the same value.
    pub open spec fn same(self, other: Ratio) -> bool {
        self.num * other.den == other.num * self.den
    }

    /// The fraction zero.
    pub fn zero() -> (r: Ratio)
        ensures
            r == (Ratio { num: 0, den: 1 }),
    {
        Ratio { num: 0, den: 1 }
    }

    /// Whether `self` is greater than `other`, by cross-multiplication.
    pub fn exceeds(&self, other: &Ratio) -> (greater: bool)
        ensures
            greater == self.above(*other),
    {
        let a: u128 = self.num as u128;
        let b: u128 = other.den as u128;
        let c: u128 = other.num as u128;
        let d: u128 = self.den as u128;
        assert(a * b <= 0xffff_ffff_ffff_ffff * 0xffff_ffff_ffff_ffff) by (nonlinear_arith)
            requires
                0 <= a <= 0xffff_ffff_ffff_ffff,
                0 <= b <= 0xffff_ffff_ffff_ffff,
        ;
        assert(c * d <= 0xffff_ffff_ffff_ffff * 0xffff_ffff_ffff_ffff) by (nonlinear_arith)
            requires
                0 <= c <= 0xffff_ffff_ffff_ffff,
                0 <= d <= 0xffff_ffff_ffff_ffff,
        ;
        a * b > c * d
    }
}

/// A fraction above one that is not below a third is above the third.
pub proof fn lemma_above_carries(a: Ratio, b: Ratio, c: Ratio)
    requires
        a.wf(),
        b.wf(),
        c.wf(),
        a.above(b),
        !c.above(b),
    ensures
        a.above(c),
{
    let (an, ad) = (a.num as int, a.den as int);
    let (bn, bd) = (b.num as int, b.den as int);
    let (cn, cd) = (c.num as int, c.den as int);
    assert(an * bd * cd > bn * ad * cd) by (nonlinear_arith)
        requires
            an * bd > bn * ad,
            cd > 0,
    ;
    assert(cn * bd * ad <= bn * cd * ad) by (nonlinear_arith)
        requires
            cn * bd <= bn * cd,
            ad > 0,
    ;
    assert(an * cd > cn * ad) by (nonlinear_arith)
        requires
            an * bd * cd > bn * ad * cd,
            cn * bd * ad <= bn * cd * ad,
            bd > 0,
    ;
}

} // verus!
