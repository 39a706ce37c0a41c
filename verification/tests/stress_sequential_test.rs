use cidr_optimizer::pipeline::{optimize, validate_coverage};
use cidr_optimizer::prefix::{IpPrefix, Prefix};
use cidr_optimizer::types::{AddressFamily, OptimizerConfig};

fn no_budget(_: AddressFamily, _: u128, _: bool) -> Option<u128> {
    None
}

fn contiguous_v4(start: u32, count: u32) -> Vec<IpPrefix> {
    (0..count).map(|i| IpPrefix::V4(Prefix { bits: (start + i) as u128, len: 32 })).collect()
}

fn contiguous_v6(start: u128, count: u64) -> Vec<IpPrefix> {
    (0..count).map(|i| IpPrefix::V6(Prefix { bits: start + i as u128, len: 128 })).collect()
}

fn minimal_prefix_decomposition_count(start: u32, count: u32) -> usize {
    if count == 0 {
        return 0;
    }
    let mut remaining = count;
    let mut pos = start;
    let mut blocks = 0usize;
    while remaining > 0 {
        let alignment = if pos == 0 { 1u64 << 32 } else { (pos as u64) & (-(pos as i64) as u64) };
        let max_block = alignment.min(remaining as u64);
        let block_size = 1u32 << (31 - (max_block as u32).leading_zeros());
        pos += block_size;
        remaining -= block_size;
        blocks += 1;
    }
    blocks
}

/// Binary decomposition for u128 address space (IPv6 /128s).
fn minimal_prefix_decomposition_count_v6(start: u128, count: u64) -> usize {
    if count == 0 {
        return 0;
    }
    let mut remaining = count as u128;
    let mut pos = start;
    let mut blocks = 0usize;
    while remaining > 0 {
        let alignment = if pos == 0 { 1u128 << 127 } else { pos & pos.wrapping_neg() };
        let max_block = alignment.min(remaining);
        let block_size = 1u128 << (127 - (max_block.leading_zeros()));
        pos += block_size;
        remaining -= block_size;
        blocks += 1;
    }
    blocks
}

const V6_BASE: u128 = 0x2001_0db8_0000_0000_0000_0000_0000_0000;

fn run_v4(count: u32) -> usize {
    let input = contiguous_v4(0x0A000000, count);
    let result = optimize(&input, &OptimizerConfig::default(), no_budget).unwrap();
    assert!(validate_coverage(&input, &result.entries));
    result.entries.len()
}

#[test]
fn test_10k_sequential_v4() {
    assert_eq!(run_v4(10_000), minimal_prefix_decomposition_count(0x0A000000, 10_000));
}

#[test]
fn test_65536_sequential_v4() {
    let input = contiguous_v4(0x0A000000, 65_536);
    let result = optimize(&input, &OptimizerConfig::default(), no_budget).unwrap();
    assert!(validate_coverage(&input, &result.entries));
    assert_eq!(result.entries.len(), 1);
    assert_eq!(result.entries[0].prefix, IpPrefix::V4(Prefix { bits: 0x0A000000, len: 16 }));
}

#[test]
fn test_100k_sequential_v4() {
    assert_eq!(run_v4(100_000), minimal_prefix_decomposition_count(0x0A000000, 100_000));
}

#[test]
fn test_1m_sequential_v4() {
    let input = contiguous_v4(0x0A000000, 1_048_576);
    let result = optimize(&input, &OptimizerConfig::default(), no_budget).unwrap();
    assert!(validate_coverage(&input, &result.entries));
    assert_eq!(result.entries.len(), 1);
    assert_eq!(result.entries[0].prefix, IpPrefix::V4(Prefix { bits: 0x0A000000, len: 12 }));
}

#[test]
fn test_10k_sequential_v6() {
    let input = contiguous_v6(V6_BASE, 10_000);
    let result = optimize(&input, &OptimizerConfig::default(), no_budget).unwrap();
    assert!(validate_coverage(&input, &result.entries));
    assert_eq!(result.entries.len(), minimal_prefix_decomposition_count_v6(V6_BASE, 10_000));
}

#[test]
fn test_65536_sequential_v6() {
    let input = contiguous_v6(V6_BASE, 65_536);
    let result = optimize(&input, &OptimizerConfig::default(), no_budget).unwrap();
    assert!(validate_coverage(&input, &result.entries));
    assert_eq!(result.entries.len(), 1);
    assert_eq!(result.entries[0].prefix, IpPrefix::V6(Prefix { bits: V6_BASE, len: 112 }));
}

#[test]
fn test_100k_sequential_v6() {
    let input = contiguous_v6(V6_BASE, 100_000);
    let result = optimize(&input, &OptimizerConfig::default(), no_budget).unwrap();
    assert!(validate_coverage(&input, &result.entries));
    assert_eq!(result.entries.len(), minimal_prefix_decomposition_count_v6(V6_BASE, 100_000));
}

#[test]
fn test_1m_sequential_v6() {
    let input = contiguous_v6(V6_BASE, 1_048_576);
    let result = optimize(&input, &OptimizerConfig::default(), no_budget).unwrap();
    assert!(validate_coverage(&input, &result.entries));
    assert_eq!(result.entries.len(), 1);
    assert_eq!(result.entries[0].prefix, IpPrefix::V6(Prefix { bits: V6_BASE, len: 108 }));
}

/// Generate N contiguous /24 subnets fully populated with 256 /32s each, from 10.0.0.0.
fn full_subnets(num_subnets: u32) -> Vec<IpPrefix> {
    contiguous_v4(0x0A000000, num_subnets * 256)
}

#[test]
fn test_10k_full_subnets_v4() {
    let input = full_subnets(40);
    let result = optimize(&input, &OptimizerConfig::default(), no_budget).unwrap();
    assert!(validate_coverage(&input, &result.entries));
    assert_eq!(result.entries.len(), minimal_prefix_decomposition_count(0x0A000000, 40 * 256));
}

#[test]
fn test_100k_full_subnets_v4() {
    let input = full_subnets(400);
    let result = optimize(&input, &OptimizerConfig::default(), no_budget).unwrap();
    assert!(validate_coverage(&input, &result.entries));
    assert_eq!(result.entries.len(), minimal_prefix_decomposition_count(0x0A000000, 400 * 256));
}

#[test]
fn test_1m_full_subnets_v4() {
    let input = full_subnets(4096);
    let result = optimize(&input, &OptimizerConfig::default(), no_budget).unwrap();
    assert!(validate_coverage(&input, &result.entries));
    assert_eq!(result.entries.len(), 1);
    assert_eq!(result.entries[0].prefix, IpPrefix::V4(Prefix { bits: 0x0A000000, len: 12 }));
}

/// Generate N non-adjacent /32s at even addresses (stride=2) that cannot merge.
fn nomerge_v4(count: u32) -> Vec<IpPrefix> {
    (0..count).map(|i| IpPrefix::V4(Prefix { bits: (0x0A000000 + i * 2) as u128, len: 32 })).collect()
}

fn run_nomerge(count: u32) {
    let input = nomerge_v4(count);
    let result = optimize(&input, &OptimizerConfig::default(), no_budget).unwrap();
    assert!(validate_coverage(&input, &result.entries));
    assert_eq!(result.entries.len(), count as usize);
}

#[test]
fn test_10k_nomerge_v4() {
    run_nomerge(10_000);
}

#[test]
fn test_100k_nomerge_v4() {
    run_nomerge(100_000);
}

#[test]
fn test_1m_nomerge_v4() {
    run_nomerge(1_000_000);
}
