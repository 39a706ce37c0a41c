use cidr_optimizer::efficiency::{efficiency_key, ratio_less, widening_mul_u128_u32, EfficiencyKey};
use cidr_optimizer::heap::{entry_less, CandidateHeap};

#[test]
fn efficiency_key_ordering() {
    // cost=6/savings=3 (eff=2) < cost=3/savings=1 (eff=3)
    let a = EfficiencyKey { cost: 6, savings: 3 };
    let b = EfficiencyKey { cost: 3, savings: 1 };
    assert!(a < b);
}

#[test]
fn efficiency_key_equal() {
    let a = EfficiencyKey { cost: 6, savings: 2 };
    let b = EfficiencyKey { cost: 9, savings: 3 };
    assert_eq!(a.cmp(&b), std::cmp::Ordering::Equal);
}

#[test]
fn widening_mul_basic() {
    assert_eq!(widening_mul_u128_u32(1, 1), (0, 1));
    assert_eq!(widening_mul_u128_u32(u128::MAX, 1), (0, u128::MAX));
    let (hi, lo) = widening_mul_u128_u32(u128::MAX, 2);
    assert_eq!(hi, 1);
    assert_eq!(lo, u128::MAX - 1);
}

#[test]
fn widening_mul_large_factors() {
    // (2^127 + 1) * (2^32 - 1) = 2^159 - 2^127 + 2^32 - 1
    let (hi, lo) = widening_mul_u128_u32((1u128 << 127) + 1, u32::MAX);
    assert_eq!(hi, (1u64 << 31) - 1);
    assert_eq!(lo, (1u128 << 127) + (1u128 << 32) - 1);
    assert_eq!(widening_mul_u128_u32(0, u32::MAX), (0, 0));
}

#[test]
fn ratio_comparison_handles_overflowing_products() {
    // Products exceed u128: compared exactly through the wide multiplication.
    let a = EfficiencyKey { cost: u128::MAX, savings: u32::MAX };
    let b = EfficiencyKey { cost: u128::MAX, savings: u32::MAX - 1 };
    assert!(ratio_less(&a, &b));
    assert!(!ratio_less(&b, &a));
    assert_eq!(a.cmp(&b), std::cmp::Ordering::Less);
    assert_eq!(b.cmp(&a), std::cmp::Ordering::Greater);
    assert_eq!(a.cmp(&a), std::cmp::Ordering::Equal);
}

#[test]
fn efficiency_key_from_leaf_count() {
    let k = efficiency_key(512, 3);
    assert_eq!(k, EfficiencyKey { cost: 512, savings: 2 });
}

#[test]
fn heap_pops_cheapest_first() {
    let mut heap = CandidateHeap::new();
    heap.push((EfficiencyKey { cost: 9, savings: 1 }, 0, 1));
    heap.push((EfficiencyKey { cost: 2, savings: 1 }, 0, 2));
    heap.push((EfficiencyKey { cost: 8, savings: 2 }, 0, 3));
    heap.push((EfficiencyKey { cost: 3, savings: 3 }, 0, 4));
    assert_eq!(heap.len(), 4);
    let mut popped = Vec::new();
    while let Some(e) = heap.pop() {
        popped.push(e.2);
    }
    // ratios: 1 (node 4), 2 (node 2), 4 (node 3), 9 (node 1)
    assert_eq!(popped, vec![4, 2, 3, 1]);
    assert!(entry_less(
        &(EfficiencyKey { cost: 1, savings: 1 }, 0, 0),
        &(EfficiencyKey { cost: 2, savings: 1 }, 0, 0)
    ));
}
