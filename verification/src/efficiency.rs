//! Ranking of merge candidates by cost per saved entry, compared exactly by
//! cross-multiplication in 160 bits.
use vstd::prelude::*;
use vstd::arithmetic::power2::pow2;
use crate::prefix::lemma_pow2_128;
use std::cmp::Ordering;

verus! {

/// Efficiency key of a merge candidate: the ratio `cost / savings` (lower is better).
#[derive(Clone, Copy, Debug, PartialEq, Eq)]
pub struct EfficiencyKey {
    /// Number of extra addresses introduced by collapsing this node.
    pub cost: u128,
    /// Number of entries eliminated by the collapse (leaf count less one).
    pub savings: u32,
}

/// `a`'s ratio is below `b`'s: `a.cost * b.savings < b.cost * a.savings`.
pub open spec fn ratio_lt(a: EfficiencyKey, b: EfficiencyKey) -> bool {
    (a.cost as int) * (b.savings as int) < (b.cost as int) * (a.savings as int)
}

/// The order of two keys by ratio.
pub open spec fn ratio_order(a: EfficiencyKey, b: EfficiencyKey) -> Ordering {
    if ratio_lt(a, b) {
        Ordering::Less
    } else if ratio_lt(b, a) {
        Ordering::Greater
    } else {
        Ordering::Equal
    }
}

/// The exact product `a * b` as a high 64-bit word and a low 128-bit word.
pub fn widening_mul_u128_u32(a: u128, b: u32) -> (r: (u64, u128))
    ensures
        (r.0 as int) * pow2(128) + (r.1 as int) == (a as int) * (b as int),
{
    let a_lo: u128 = a as u64 as u128;
    let a_hi: u128 = a >> 64u128;
    let b: u128 = b as u128;
    proof {
        assert(a_lo == a % 0x1_0000_0000_0000_0000) by (bit_vector)
            requires a_lo == a as u64 as u128;
        assert(a_hi == a / 0x1_0000_0000_0000_0000) by (bit_vector)
            requires a_hi == a >> 64u128;
        assert(a == a_hi * 0x1_0000_0000_0000_0000 + a_lo) by (nonlinear_arith)
            requires
                a_lo == a % 0x1_0000_0000_0000_0000,
                a_hi == a / 0x1_0000_0000_0000_0000;
        assert(a_lo * b < 0x1_0000_0000_0000_0000_0000_0000) by (nonlinear_arith)
            requires
                a_lo < 0x1_0000_0000_0000_0000,
                b < 0x1_0000_0000;
        assert(a_hi * b < 0x1_0000_0000_0000_0000_0000_0000) by (nonlinear_arith)
            requires
                a_hi < 0x1_0000_0000_0000_0000,
                b < 0x1_0000_0000;
    }
    let prod_lo: u128 = a_lo * b;
    let prod_hi: u128 = a_hi * b;
    // The low 64 bits of prod_hi overlap the high 64 bits of prod_lo; the
    // carry goes to the high word.
    let shifted: u128 = prod_hi << 64u128;
    let low: u128 = prod_lo.wrapping_add(shifted);
    let carry: bool = low < prod_lo;
    let top: u128 = prod_hi >> 64u128;
    proof {
        assert(shifted == (prod_hi % 0x1_0000_0000_0000_0000) * 0x1_0000_0000_0000_0000) by (bit_vector)
            requires shifted == prod_hi << 64u128;
        assert(top == prod_hi / 0x1_0000_0000_0000_0000) by (bit_vector)
            requires top == prod_hi >> 64u128;
        assert(top < 0x1_0000_0000);
        lemma_pow2_128();
        assert(prod_hi == top * 0x1_0000_0000_0000_0000 + prod_hi % 0x1_0000_0000_0000_0000) by (nonlinear_arith)
            requires top == prod_hi / 0x1_0000_0000_0000_0000;
        assert((a as int) * (b as int) == (prod_hi as int) * 0x1_0000_0000_0000_0000 + prod_lo) by (nonlinear_arith)
            requires
                a == a_hi * 0x1_0000_0000_0000_0000 + a_lo,
                prod_lo == a_lo * b,
                prod_hi == a_hi * b;
        assert((prod_hi as int) * 0x1_0000_0000_0000_0000 == (top as int) * 0x1_0000_0000_0000_0000_0000_0000_0000_0000
            + (shifted as int)) by (nonlinear_arith)
            requires
                prod_hi == top * 0x1_0000_0000_0000_0000 + prod_hi % 0x1_0000_0000_0000_0000,
                shifted == (prod_hi % 0x1_0000_0000_0000_0000) * 0x1_0000_0000_0000_0000;
        if (prod_lo as int) + (shifted as int) > u128::MAX {
            assert(low as int == (prod_lo as int) + (shifted as int) - pow2(128));
        } else {
            assert(low as int == (prod_lo as int) + (shifted as int));
        }
    }
    let high: u64 = top as u64 + if carry { 1u64 } else { 0u64 };
    (high, low)
}

/// Whether `a`'s ratio is below `b`'s, compared exactly.
pub fn ratio_less(a: &EfficiencyKey, b: &EfficiencyKey) -> (r: bool)
    ensures
        r == ratio_lt(*a, *b),
{
    let lhs = widening_mul_u128_u32(a.cost, b.savings);
    let rhs = widening_mul_u128_u32(b.cost, a.savings);
    proof {
        lemma_pow2_128();
        let x = (a.cost as int) * (b.savings as int);
        let y = (b.cost as int) * (a.savings as int);
        if lhs.0 < rhs.0 {
            assert(x < y) by (nonlinear_arith)
                requires
                    (lhs.0 as int) * pow2(128) + (lhs.1 as int) == x,
                    (rhs.0 as int) * pow2(128) + (rhs.1 as int) == y,
                    lhs.0 < rhs.0,
                    lhs.1 < pow2(128),
                    0 <= rhs.1;
        } else if lhs.0 > rhs.0 {
            assert(x > y) by (nonlinear_arith)
                requires
                    (lhs.0 as int) * pow2(128) + (lhs.1 as int) == x,
                    (rhs.0 as int) * pow2(128) + (rhs.1 as int) == y,
                    lhs.0 > rhs.0,
                    rhs.1 < pow2(128),
                    0 <= lhs.1;
        }
    }
    lhs.0 < rhs.0 || (lhs.0 == rhs.0 && lhs.1 < rhs.1)
}

impl EfficiencyKey {
    /// Compares the ratios `cost / savings` by cross-multiplication.
    pub fn cmp(&self, other: &Self) -> (r: Ordering)
        ensures
            r == ratio_order(*self, *other),
    {
        if ratio_less(self, other) {
            Ordering::Less
        } else if ratio_less(other, self) {
            Ordering::Greater
        } else {
            Ordering::Equal
        }
    }
}

impl PartialOrd for EfficiencyKey {
    fn partial_cmp(&self, other: &Self) -> (r: Option<Ordering>) {
        Some(self.cmp(other))
    }
}

impl vstd::std_specs::cmp::PartialOrdSpecImpl for EfficiencyKey {
    open spec fn obeys_partial_cmp_spec() -> bool {
        true
    }

    open spec fn partial_cmp_spec(&self, other: &Self) -> Option<Ordering> {
        Some(ratio_order(*self, *other))
    }
}

/// Build an efficiency key for a collapse candidate: collapsing `leaf_count`
/// leaves into one saves `leaf_count - 1` entries.
pub fn efficiency_key(cost: u128, leaf_count: u32) -> (r: EfficiencyKey)
    requires
        leaf_count >= 2,
    ensures
        r.cost == cost,
        r.savings == leaf_count - 1,
{
    EfficiencyKey { cost, savings: leaf_count - 1 }
}

} // verus!
