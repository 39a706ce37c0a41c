use std::collections::HashSet;

use cidr_optimizer::error::OptimizeError;
use cidr_optimizer::pipeline::{optimize, optimize_with_progress, validate_coverage};
use cidr_optimizer::prefix::{IpPrefix, Prefix};
use cidr_optimizer::types::{AddressFamily, OptimizationResult, OptimizerConfig, Phase, TargetSpec};

fn no_budget(_: AddressFamily, _: u128, _: bool) -> Option<u128> {
    None
}

fn v4(bits: u32, len: u8) -> IpPrefix {
    IpPrefix::V4(Prefix { bits: bits as u128, len })
}

fn contiguous_v4(start: u32, count: u32) -> Vec<IpPrefix> {
    (0..count).map(|i| v4(start + i, 32)).collect()
}

fn contiguous_v6(start: u128, count: u64) -> Vec<IpPrefix> {
    (0..count).map(|i| IpPrefix::V6(Prefix { bits: start + i as u128, len: 128 })).collect()
}

const V6_BASE: u128 = 0x2001_0db8_0000_0000_0000_0000_0000_0000;

fn minimal_prefix_decomposition_count(start: u32, count: u32) -> usize {
    if count == 0 {
        return 0;
    }
    let mut remaining = count;
    let mut pos = start;
    let mut blocks = 0usize;
    while remaining > 0 {
        let alignment = if pos == 0 { 1u64 << 32 } else { (pos as u64) & (-(pos as i64) as u64) };
        let max_block = alignment.min(remaining as u64);
        let block_size = 1u32 << (31 - (max_block as u32).leading_zeros());
        pos += block_size;
        remaining -= block_size;
        blocks += 1;
    }
    blocks
}

/// Whether `over` addresses of over-coverage exceed `max_ratio` of `covered`.
fn exceeds_ratio(over: u128, covered: u128, max_ratio: f64) -> bool {
    if over <= u64::MAX as u128 && covered <= u64::MAX as u128 {
        return (over as f64) > max_ratio * (covered as f64);
    }
    const SCALE: u128 = 1_000_000;
    let threshold = (max_ratio * SCALE as f64) as u128;
    match over.checked_mul(SCALE) {
        Some(scaled_over) => match threshold.checked_mul(covered) {
            Some(rhs) => scaled_over > rhs,
            None => false,
        },
        None => (over as f64 / covered as f64) > max_ratio,
    }
}

/// The most over-coverage a ratio admits for the covered addresses.
fn ratio_budget(covered: u128, ratio: f64) -> u128 {
    if !exceeds_ratio(u128::MAX, covered, ratio) {
        return u128::MAX;
    }
    if exceeds_ratio(0, covered, ratio) {
        return 0;
    }
    let (mut lo, mut hi) = (0u128, u128::MAX);
    while hi - lo > 1 {
        let mid = lo + (hi - lo) / 2;
        if exceeds_ratio(mid, covered, ratio) {
            hi = mid;
        } else {
            lo = mid;
        }
    }
    lo
}

// --- Adversarial inputs ---

#[test]
fn test_dense_cascade() {
    let input = contiguous_v4(0x0A000000, 65_536);
    let result = optimize(&input, &OptimizerConfig::default(), no_budget).unwrap();
    assert!(validate_coverage(&input, &result.entries));
    assert_eq!(result.entries.len(), 1);
    assert_eq!(result.entries[0].prefix, v4(0x0A000000, 16));
}

#[test]
fn test_alternating_no_merge() {
    let mut input = Vec::with_capacity(256);
    // 128 even addresses in 10.0.0.x
    for i in 0..128u32 {
        input.push(v4(0x0A000000 + i * 2, 32));
    }
    // 128 odd addresses in 10.0.1.x
    for i in 0..128u32 {
        input.push(v4(0x0A000100 + i * 2 + 1, 32));
    }
    let result = optimize(&input, &OptimizerConfig::default(), no_budget).unwrap();
    assert!(validate_coverage(&input, &result.entries));
    assert_eq!(result.entries.len(), 256);
}

#[test]
fn test_maximum_redundancy() {
    let mut input = Vec::with_capacity(65_793);
    input.push(v4(0x0A000000, 8));
    for i in 0..256u32 {
        input.push(v4(0x0A000000 + (i << 16), 16));
    }
    for i in 0..65_536u32 {
        input.push(v4(0x0A000000 + (i << 8), 24));
    }
    let result = optimize(&input, &OptimizerConfig::default(), no_budget).unwrap();
    assert!(validate_coverage(&input, &result.entries));
    assert_eq!(result.entries.len(), 1);
    assert_eq!(result.entries[0].prefix, v4(0x0A000000, 8));
}

#[test]
fn test_sibling_pairs_no_cascade() {
    let mut input = Vec::with_capacity(10_000);
    for i in 0..5000u32 {
        let idx = i * 2; // /24 indices: 0, 2, 4, ... (stride=2)
        input.push(v4(0x0A000000 + (idx << 8), 25));
        input.push(v4(0x0A000000 + (idx << 8) + 128, 25));
    }
    let result = optimize(&input, &OptimizerConfig::default(), no_budget).unwrap();
    assert!(validate_coverage(&input, &result.entries));
    assert_eq!(result.entries.len(), 5000);
}

#[test]
fn test_aggressive_lossy_collapse() {
    let input = contiguous_v4(0x0A000000, 10_000);
    let config = OptimizerConfig { ipv4_target: Some(TargetSpec::EntryCount(1)), ..Default::default() };
    let result = optimize(&input, &config, no_budget).unwrap();
    assert!(validate_coverage(&input, &result.entries));
    assert_eq!(result.entries.len(), 1);
    assert_eq!(result.entries[0].prefix, v4(0x0A000000, 18));
}

#[test]
fn test_single_entry_edge_cases() {
    // (a) Single /32, no target
    let input = vec![v4(0x0A000001, 32)];
    let result = optimize(&input, &OptimizerConfig::default(), no_budget).unwrap();
    assert!(validate_coverage(&input, &result.entries));
    assert_eq!(result.entries.len(), 1);

    // (b) Single /32, target=1
    let config = OptimizerConfig { ipv4_target: Some(TargetSpec::EntryCount(1)), ..Default::default() };
    let result = optimize(&input, &config, no_budget).unwrap();
    assert!(validate_coverage(&input, &result.entries));
    assert_eq!(result.entries.len(), 1);

    // (c) Single IPv6 /128 with the source map
    let input = vec![IpPrefix::V6(Prefix { bits: V6_BASE + 1, len: 128 })];
    let config = OptimizerConfig { source_map: true, ..Default::default() };
    let result = optimize(&input, &config, no_budget).unwrap();
    assert!(validate_coverage(&input, &result.entries));
    assert_eq!(result.entries.len(), 1);
    assert_eq!(result.entries[0].source_indices, Some(vec![0]));
}

// --- Configuration constraints ---

fn spaced_v4_stride(count: u32, stride: u64) -> Vec<IpPrefix> {
    (0..count).map(|i| v4(((i as u64 * stride) % (1u64 << 32)) as u32, 32)).collect()
}

fn run_ratio_cap(count: u32, stride: u64) {
    let input = spaced_v4_stride(count, stride);
    let config = OptimizerConfig { ipv4_target: Some(TargetSpec::EntryCount(10)), ..Default::default() };
    let result = optimize(&input, &config, |_, covered, _| Some(ratio_budget(covered, 0.01))).unwrap();
    assert!(validate_coverage(&input, &result.entries));
    // Ratio cap should prevent reaching target of 10
    assert!(result.entries.len() > 10);
    // The over-coverage ratio is respected (denominator: the covered input addresses)
    let total_over: u128 = result.entries.iter().map(|e| e.over_coverage).sum();
    let input_covered = count as u128;
    assert!(total_over as f64 / input_covered as f64 <= 0.01 + 1e-9);
}

#[test]
fn test_10k_ratio_cap() {
    run_ratio_cap(10_000, 65536);
}

#[test]
fn test_100k_ratio_cap() {
    run_ratio_cap(100_000, 4295);
}

#[test]
fn test_1m_ratio_cap() {
    run_ratio_cap(1_000_000, 4295);
}

fn run_max_prefix_len(count: u32) {
    let input = contiguous_v4(0x0A000000, count);
    let config = OptimizerConfig { max_prefix_len_v4: 24, ..Default::default() };
    let result = optimize(&input, &config, no_budget).unwrap();
    assert!(validate_coverage(&input, &result.entries));
    // Inputs are truncated to /24, then merged: the binary decomposition of the /24s touched.
    let num_24s = (count + 255) / 256;
    assert_eq!(result.entries.len(), minimal_prefix_decomposition_count(0x0A0000, num_24s));
}

#[test]
fn test_10k_max_prefix_len() {
    run_max_prefix_len(10_000);
}

#[test]
fn test_100k_max_prefix_len() {
    run_max_prefix_len(100_000);
}

#[test]
fn test_1m_max_prefix_len() {
    run_max_prefix_len(1_000_000);
}

fn run_cancellation(count: u32) {
    let input: Vec<IpPrefix> = (0..count).map(|i| v4(0x0A000000 + i * 2, 32)).collect();
    let config = OptimizerConfig { ipv4_target: Some(TargetSpec::EntryCount(10)), ..Default::default() };
    let result = optimize_with_progress(&input, &config, |phase| !matches!(phase, Phase::Lossy { .. }), no_budget);
    assert!(matches!(result, Err(OptimizeError::Cancelled)));
}

#[test]
fn test_10k_cancellation() {
    run_cancellation(10_000);
}

#[test]
fn test_100k_cancellation() {
    run_cancellation(100_000);
}

#[test]
fn test_1m_cancellation() {
    run_cancellation(1_000_000);
}

// --- Deterministic lossy targets ---

/// N evenly-spaced /32s across the IPv4 address space.
fn spaced_v4(count: u32) -> Vec<IpPrefix> {
    let stride = (u32::MAX as u64 + 1) / count as u64;
    (0..count).map(|i| v4((i as u64 * stride) as u32, 32)).collect()
}

fn run_lossy_target(count: u32, target: usize) {
    let input = spaced_v4(count);
    let config = OptimizerConfig { ipv4_target: Some(TargetSpec::EntryCount(target)), ..Default::default() };
    let result = optimize(&input, &config, no_budget).unwrap();
    assert!(validate_coverage(&input, &result.entries));
    assert!(result.entries.len() <= target);
}

#[test]
fn test_10k_lossy_target_100() {
    run_lossy_target(10_000, 100);
}

#[test]
fn test_10k_lossy_target_10() {
    run_lossy_target(10_000, 10);
}

#[test]
fn test_100k_lossy_target_100() {
    run_lossy_target(100_000, 100);
}

#[test]
fn test_100k_lossy_target_10() {
    run_lossy_target(100_000, 10);
}

#[test]
fn test_1m_lossy_target_100() {
    run_lossy_target(1_000_000, 100);
}

#[test]
fn test_1m_lossy_target_10() {
    run_lossy_target(1_000_000, 10);
}

// --- Source map ---

fn run_mixed_source_map(n: usize) {
    let half = n / 2;
    let mut input = contiguous_v4(0x0A000000, half as u32);
    input.extend(contiguous_v6(V6_BASE, half as u64));
    let config = OptimizerConfig { source_map: true, ..Default::default() };
    let result = optimize(&input, &config, no_budget).unwrap();
    assert!(validate_coverage(&input, &result.entries));
    for entry in &result.entries {
        let indices = entry.source_indices.as_ref().expect("source map must be set");
        match entry.prefix {
            IpPrefix::V4(_) => assert!(indices.iter().all(|&i| i < half)),
            IpPrefix::V6(_) => assert!(indices.iter().all(|&i| i >= half)),
        }
    }
}

#[test]
fn test_10k_mixed_source_map() {
    run_mixed_source_map(10_000);
}

#[test]
fn test_100k_mixed_source_map() {
    run_mixed_source_map(100_000);
}

#[test]
fn test_1m_mixed_source_map() {
    run_mixed_source_map(1_000_000);
}

fn run_source_map_completeness(n: u32) {
    let input = contiguous_v4(0x0A000000, n);
    let config = OptimizerConfig {
        ipv4_target: Some(TargetSpec::EntryCount(100)),
        source_map: true,
        ..Default::default()
    };
    let result = optimize(&input, &config, no_budget).unwrap();
    assert!(validate_coverage(&input, &result.entries));
    let mut all_indices: HashSet<usize> = HashSet::new();
    for entry in &result.entries {
        for &idx in entry.source_indices.as_ref().expect("source map must be set") {
            all_indices.insert(idx);
        }
    }
    let expected: HashSet<usize> = (0..n as usize).collect();
    assert_eq!(all_indices, expected);
}

#[test]
fn test_10k_source_map_completeness() {
    run_source_map_completeness(10_000);
}

#[test]
fn test_100k_source_map_completeness() {
    run_source_map_completeness(100_000);
}

#[test]
fn test_1m_source_map_completeness() {
    run_source_map_completeness(1_000_000);
}

fn run_duplicates_source_map(n: usize) {
    let half = n / 2;
    let mut input = vec![v4(0x0A000000, 24); half];
    input.extend(vec![v4(0xC0A80000, 24); half]);
    let config = OptimizerConfig { source_map: true, ..Default::default() };
    let result = optimize(&input, &config, no_budget).unwrap();
    assert!(validate_coverage(&input, &result.entries));
    assert_eq!(result.entries.len(), 2);
    for entry in &result.entries {
        assert_eq!(entry.source_indices.as_ref().expect("source map must be set").len(), half);
    }
}

#[test]
fn test_10k_duplicates_source_map() {
    run_duplicates_source_map(10_000);
}

#[test]
fn test_100k_duplicates_source_map() {
    run_duplicates_source_map(100_000);
}

#[test]
fn test_1m_duplicates_source_map() {
    run_duplicates_source_map(1_000_000);
}

// --- Differential against ipnet's aggregation ---

fn to_prefix(n: &ipnet::IpNet) -> IpPrefix {
    match n {
        ipnet::IpNet::V4(a) => v4(u32::from(a.network()), a.prefix_len()),
        ipnet::IpNet::V6(a) => IpPrefix::V6(Prefix { bits: u128::from(a.network()), len: a.prefix_len() }),
    }
}

fn to_ipnet(p: &IpPrefix) -> ipnet::IpNet {
    match p {
        IpPrefix::V4(q) => ipnet::IpNet::V4(ipnet::Ipv4Net::new((q.bits as u32).into(), q.len).unwrap()),
        IpPrefix::V6(q) => ipnet::IpNet::V6(ipnet::Ipv6Net::new(q.bits.into(), q.len).unwrap()),
    }
}

fn sort_key(p: &IpPrefix) -> (u8, u128, u8) {
    match p {
        IpPrefix::V4(q) => (0, q.bits, q.len),
        IpPrefix::V6(q) => (1, q.bits, q.len),
    }
}

fn sorted_output(result: &OptimizationResult) -> Vec<IpPrefix> {
    let mut nets: Vec<IpPrefix> = result.entries.iter().map(|e| e.prefix).collect();
    nets.sort_by_key(sort_key);
    nets
}

fn ipnet_aggregate_sorted(input: &[IpPrefix]) -> Vec<IpPrefix> {
    let nets: Vec<ipnet::IpNet> = input.iter().map(to_ipnet).collect();
    let mut result: Vec<IpPrefix> = ipnet::IpNet::aggregate(&nets).iter().map(to_prefix).collect();
    result.sort_by_key(sort_key);
    result
}

fn run_differential(input: &[IpPrefix]) {
    let v = input.to_vec();
    let ours = optimize(&v, &OptimizerConfig::default(), no_budget).unwrap();
    assert!(validate_coverage(&v, &ours.entries));
    assert_eq!(sorted_output(&ours), ipnet_aggregate_sorted(input));
}

#[test]
fn test_10k_differential_contiguous_v4() {
    run_differential(&contiguous_v4(0x0A000000, 10_000));
}

#[test]
fn test_10k_differential_contiguous_v24() {
    let input: Vec<IpPrefix> = (0u32..10_000).map(|i| v4(0x0A000000 + i * 256, 24)).collect();
    run_differential(&input);
}

#[test]
fn test_10k_differential_mixed() {
    let mut input = Vec::with_capacity(10_000);
    for i in 0u32..3333 {
        input.push(v4(0x0A000000 + (i % 256) * 0x10000, 16));
    }
    for i in 0u32..3333 {
        input.push(v4(0x0A000000 + (i % 256) * 256, 24));
    }
    for i in 0u32..3334 {
        input.push(v4(0x0A000000 + i, 32));
    }
    run_differential(&input);
}

#[test]
fn test_10k_differential_v6() {
    run_differential(&contiguous_v6(V6_BASE, 10_000));
}

#[test]
fn test_100k_differential_v4() {
    run_differential(&contiguous_v4(0x0A000000, 100_000));
}

#[test]
fn test_100k_differential_v6() {
    run_differential(&contiguous_v6(V6_BASE, 100_000));
}

#[test]
fn test_1m_differential_v4() {
    run_differential(&contiguous_v4(0x0A000000, 1_000_000));
}

#[test]
fn test_1m_differential_v6() {
    run_differential(&contiguous_v6(V6_BASE, 1_000_000));
}
