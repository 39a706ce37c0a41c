use cidr_optimizer::error::OptimizeError;
use cidr_optimizer::pipeline::optimize;
use cidr_optimizer::prefix::{IpPrefix, Prefix};
use cidr_optimizer::types::{AddressFamily, ExclusionEntry, OptimizerConfig, TargetSpec};

fn net(s: &str) -> IpPrefix {
    match s.parse::<ipnet::IpNet>().unwrap() {
        ipnet::IpNet::V4(n) => IpPrefix::V4(Prefix { bits: u32::from(n.addr()) as u128, len: n.prefix_len() }),
        ipnet::IpNet::V6(n) => IpPrefix::V6(Prefix { bits: u128::from(n.addr()), len: n.prefix_len() }),
    }
}

/// Whether `over` addresses of over-coverage exceed `max_ratio` of `covered`.
fn exceeds_ratio(over: u128, covered: u128, max_ratio: f64) -> bool {
    if over <= u64::MAX as u128 && covered <= u64::MAX as u128 {
        return (over as f64) > max_ratio * (covered as f64);
    }
    const SCALE: u128 = 1_000_000;
    let threshold = (max_ratio * SCALE as f64) as u128;
    match over.checked_mul(SCALE) {
        Some(scaled_over) => match threshold.checked_mul(covered) {
            Some(rhs) => scaled_over > rhs,
            None => false,
        },
        None => (over as f64 / covered as f64) > max_ratio,
    }
}

/// The most over-coverage a ratio admits for the covered addresses.
fn ratio_budget(covered: u128, ratio: f64) -> u128 {
    if !exceeds_ratio(u128::MAX, covered, ratio) {
        return u128::MAX;
    }
    let (mut lo, mut hi) = (0u128, u128::MAX);
    if exceeds_ratio(0, covered, ratio) {
        return 0;
    }
    while hi - lo > 1 {
        let mid = lo + (hi - lo) / 2;
        if exceeds_ratio(mid, covered, ratio) {
            hi = mid;
        } else {
            lo = mid;
        }
    }
    lo
}

/// The over-coverage ratios of a configuration: the general cap and the
/// over-coverage targets of each family.
struct Ratios {
    max_over_coverage_ratio: Option<f64>,
    v4: Option<f64>,
    v6: Option<f64>,
}

impl Ratios {
    fn problem(&self) -> Option<String> {
        if let Some(r) = self.max_over_coverage_ratio {
            if !(0.0..=10.0).contains(&r) {
                return Some(format!("max_over_coverage_ratio ({}) must be in [0.0, 10.0] (0-1000%)", r));
            }
        }
        for (label, ratio) in [("ipv4_target", self.v4), ("ipv6_target", self.v6)] {
            if let Some(ratio) = ratio {
                if ratio <= 0.0 || ratio > 10.0 {
                    return Some(format!("{} MaxOverCoverage ratio ({}) must be in (0.0, 10.0]", label, ratio));
                }
                if self.max_over_coverage_ratio.is_some() {
                    return Some(format!("{} is MaxOverCoverage — cannot also set max_over_coverage_ratio", label));
                }
            }
        }
        None
    }

    fn budget(&self) -> impl Fn(AddressFamily, u128, bool) -> Option<u128> + '_ {
        move |af, covered, over_target| {
            let ratio = if over_target {
                match af {
                    AddressFamily::IPv4 => self.v4,
                    AddressFamily::IPv6 => self.v6,
                }
            } else {
                self.max_over_coverage_ratio
            };
            ratio.map(|r| ratio_budget(covered, r))
        }
    }
}

const NONE: Ratios = Ratios { max_over_coverage_ratio: None, v4: None, v6: None };

#[test]
fn optimize_lossless_only() {
    let prefixes = vec![net("10.0.0.0/25"), net("10.0.0.128/25")];
    let config = OptimizerConfig::default();
    let result = optimize(&prefixes, &config, NONE.budget()).unwrap();
    // Lossless merges siblings → 10.0.0.0/24
    assert_eq!(result.entries.len(), 1);
    assert_eq!(result.stats.output_ipv4_count, 1);
    assert_eq!(result.stats.total_ipv4_over_coverage, 0);
}

#[test]
fn optimize_with_target() {
    // Use non-sibling prefixes so lossless doesn't merge them all
    let prefixes = vec![net("10.0.0.0/24"), net("10.0.1.0/24"), net("10.0.4.0/24"), net("10.0.5.0/24")];
    let config = OptimizerConfig { ipv4_target: Some(TargetSpec::EntryCount(1)), ..Default::default() };
    let result = optimize(&prefixes, &config, NONE.budget()).unwrap();
    assert!(result.entries.len() <= 1);
    assert!(result.stats.ipv4_target_binding);
}

#[test]
fn optimize_target_not_binding() {
    let prefixes = vec![net("10.0.0.0/25"), net("10.0.0.128/25")];
    let config = OptimizerConfig { ipv4_target: Some(TargetSpec::EntryCount(10)), ..Default::default() };
    let result = optimize(&prefixes, &config, NONE.budget()).unwrap();
    // Lossless produces 1 entry, target=10 is not binding
    assert!(!result.stats.ipv4_target_binding);
}

#[test]
fn optimize_empty_input_error() {
    let prefixes: Vec<IpPrefix> = vec![];
    let config = OptimizerConfig::default();
    let result = optimize(&prefixes, &config, NONE.budget());
    assert!(matches!(result, Err(OptimizeError::EmptyInput)));
}

#[test]
fn optimize_target_zero_error() {
    let prefixes = vec![net("10.0.0.0/24")];
    let config = OptimizerConfig { ipv4_target: Some(TargetSpec::EntryCount(0)), ..Default::default() };
    let result = optimize(&prefixes, &config, NONE.budget());
    assert!(matches!(result, Err(OptimizeError::TargetTooSmall { .. })));
}

#[test]
fn optimize_no_target_means_lossless() {
    // Use non-sibling prefixes that won't merge
    let prefixes = vec![net("10.0.0.0/24"), net("10.0.2.0/24"), net("10.0.4.0/24")];
    let config = OptimizerConfig::default();
    let result = optimize(&prefixes, &config, NONE.budget()).unwrap();
    // No target → lossless → 3 entries (non-siblings)
    assert_eq!(result.entries.len(), 3);
    assert_eq!(result.stats.total_ipv4_over_coverage, 0);
}

#[test]
fn optimize_max_over_coverage_stops_at_ratio() {
    let prefixes = vec![net("10.0.0.0/32"), net("10.0.0.1/32"), net("10.0.0.2/32"), net("10.0.0.3/32")];
    let ratios = Ratios { max_over_coverage_ratio: None, v4: Some(1.0), v6: None };
    let config = OptimizerConfig {
        ipv4_target: Some(TargetSpec::MaxOverCoverage),
        ratio_problem: ratios.problem(),
        ..Default::default()
    };
    let result = optimize(&prefixes, &config, ratios.budget()).unwrap();
    // Key assertion: over-coverage ≤ input_ips (4 IPs * 1.0 = 4)
    assert!(result.stats.total_ipv4_over_coverage <= 4);
    // target_binding is always false for MaxOverCoverage
    assert!(!result.stats.ipv4_target_binding);
}

#[test]
fn optimize_max_over_coverage_conflict_with_ratio() {
    let prefixes = vec![net("10.0.0.0/24")];
    let ratios = Ratios { max_over_coverage_ratio: Some(1.0), v4: Some(0.5), v6: None };
    let config = OptimizerConfig {
        ipv4_target: Some(TargetSpec::MaxOverCoverage),
        ratio_problem: ratios.problem(),
        ..Default::default()
    };
    let result = optimize(&prefixes, &config, ratios.budget());
    assert!(matches!(result, Err(OptimizeError::InvalidConfig { .. })));
}

#[test]
fn optimize_max_over_coverage_zero_rejected() {
    let prefixes = vec![net("10.0.0.0/24")];
    let ratios = Ratios { max_over_coverage_ratio: None, v4: Some(0.0), v6: None };
    let config = OptimizerConfig {
        ipv4_target: Some(TargetSpec::MaxOverCoverage),
        ratio_problem: ratios.problem(),
        ..Default::default()
    };
    let result = optimize(&prefixes, &config, ratios.budget());
    assert!(matches!(result, Err(OptimizeError::InvalidConfig { .. })));
}

#[test]
fn optimize_entry_count_still_works() {
    let prefixes = vec![net("10.0.0.0/24"), net("10.0.2.0/24"), net("10.0.4.0/24"), net("10.0.6.0/24")];
    let ratios = Ratios { max_over_coverage_ratio: Some(10.0), v4: None, v6: None };
    let config = OptimizerConfig {
        ipv4_target: Some(TargetSpec::EntryCount(2)),
        ratio_problem: ratios.problem(),
        ..Default::default()
    };
    let result = optimize(&prefixes, &config, ratios.budget()).unwrap();
    assert!(result.entries.len() <= 2);
    assert!(result.stats.ipv4_target_binding);
}

// --- Further cases ---

#[test]
fn invalid_prefix_lengths_are_rejected_with_their_message() {
    let prefixes = vec![net("10.0.0.0/24")];
    let config = OptimizerConfig { max_prefix_len_v4: 0, ..Default::default() };
    match optimize(&prefixes, &config, NONE.budget()) {
        Err(OptimizeError::InvalidConfig { message }) => assert_eq!(message, "max_prefix_len_v4 (0) must be in [1, 32]"),
        _ => panic!("expected InvalidConfig"),
    }
    let config = OptimizerConfig { max_prefix_len_v6: 129, ..Default::default() };
    match optimize(&prefixes, &config, NONE.budget()) {
        Err(OptimizeError::InvalidConfig { message }) => assert_eq!(message, "max_prefix_len_v6 (129) must be in [1, 128]"),
        _ => panic!("expected InvalidConfig"),
    }
}

#[test]
fn input_too_large_comes_first() {
    let prefixes = vec![net("10.0.0.0/24"), net("10.0.1.0/24")];
    let config = OptimizerConfig { max_input_entries: 1, max_prefix_len_v4: 0, ..Default::default() };
    match optimize(&prefixes, &config, NONE.budget()) {
        Err(OptimizeError::InputTooLarge { count, limit }) => {
            assert_eq!(count, 2);
            assert_eq!(limit, 1);
        }
        _ => panic!("expected InputTooLarge"),
    }
}

#[test]
fn output_lists_ipv4_then_ipv6_with_stats() {
    let prefixes = vec![
        net("2001:db8::/33"),
        net("10.0.0.0/25"),
        net("2001:db8:8000::/33"),
        net("10.0.0.128/25"),
        net("192.168.0.0/24"),
    ];
    let config = OptimizerConfig { source_map: true, ..Default::default() };
    let result = optimize(&prefixes, &config, NONE.budget()).unwrap();
    let got: Vec<IpPrefix> = result.entries.iter().map(|e| e.prefix).collect();
    assert_eq!(got, vec![net("10.0.0.0/24"), net("192.168.0.0/24"), net("2001:db8::/32")]);
    assert_eq!(result.stats.input_ipv4_count, 3);
    assert_eq!(result.stats.input_ipv6_count, 2);
    assert_eq!(result.stats.output_ipv4_count, 2);
    assert_eq!(result.stats.output_ipv6_count, 1);
    assert_eq!(result.entries[0].source_indices, Some(vec![1, 3]));
    assert_eq!(result.entries[1].source_indices, Some(vec![4]));
    assert_eq!(result.entries[2].source_indices, Some(vec![0, 2]));
}

#[test]
fn lossy_over_coverage_is_counted() {
    let prefixes = vec![net("10.0.0.0/24"), net("10.0.2.0/24")];
    let config = OptimizerConfig { ipv4_target: Some(TargetSpec::EntryCount(1)), ..Default::default() };
    let result = optimize(&prefixes, &config, NONE.budget()).unwrap();
    assert_eq!(result.entries.len(), 1);
    assert_eq!(result.entries[0].prefix, net("10.0.0.0/22"));
    assert_eq!(result.entries[0].over_coverage, 512);
    assert_eq!(result.stats.total_ipv4_over_coverage, 512);
}

#[test]
fn budget_caps_total_over_coverage() {
    let prefixes = vec![net("10.0.0.0/24"), net("10.0.2.0/24"), net("10.0.8.0/24")];
    let config = OptimizerConfig { ipv4_target: Some(TargetSpec::EntryCount(1)), ..Default::default() };
    let budget = |_af: AddressFamily, _covered: u128, _over_target: bool| -> Option<u128> { Some(512) };
    let result = optimize(&prefixes, &config, budget).unwrap();
    assert_eq!(result.entries.len(), 2);
    assert_eq!(result.entries[0].prefix, net("10.0.0.0/22"));
    assert_eq!(result.entries[1].prefix, net("10.0.8.0/24"));
    assert_eq!(result.stats.total_ipv4_over_coverage, 512);
    // Without the cap the target of one entry is reached, at a higher cost.
    let open = optimize(&prefixes, &config, NONE.budget()).unwrap();
    assert_eq!(open.entries.len(), 1);
    assert_eq!(open.entries[0].prefix, net("10.0.0.0/20"));
    assert_eq!(open.stats.total_ipv4_over_coverage, 4096 - 768);
}

#[test]
fn exclusion_in_gap_blocks_merge() {
    let prefixes = vec![net("10.0.0.0/24"), net("10.0.2.0/24")];
    let config = OptimizerConfig {
        ipv4_target: Some(TargetSpec::EntryCount(1)),
        exclusions: vec![ExclusionEntry { prefix: net("10.0.1.0/24"), source: "test".to_string(), comment: None }],
        ..Default::default()
    };
    let result = optimize(&prefixes, &config, NONE.budget()).unwrap();
    let got: Vec<IpPrefix> = result.entries.iter().map(|e| e.prefix).collect();
    assert_eq!(got, vec![net("10.0.0.0/24"), net("10.0.2.0/24")]);
    assert!(result.stats.ipv4_exclusion_constrained);
    assert!(result.stats.ipv4_target_binding);
    assert_eq!(result.stats.total_ipv4_over_coverage, 0);
    assert!(result.entries.iter().all(|e| e.exclusion_collisions.is_none()));
}

#[test]
fn exclusion_inside_an_input_keeps_it_whole() {
    // The excluded address lies inside an input: the input stays, adding
    // nothing, and no merge around it may expose the gap.
    let prefixes = vec![net("10.0.0.0/24"), net("10.0.2.0/24")];
    let config = OptimizerConfig {
        ipv4_target: Some(TargetSpec::EntryCount(1)),
        exclusions: vec![ExclusionEntry { prefix: net("10.0.0.5/32"), source: "test".to_string(), comment: None }],
        ..Default::default()
    };
    let result = optimize(&prefixes, &config, NONE.budget()).unwrap();
    let got: Vec<IpPrefix> = result.entries.iter().map(|e| e.prefix).collect();
    assert_eq!(got, vec![net("10.0.0.0/24"), net("10.0.2.0/24")]);
    assert!(result.entries.iter().all(|e| e.over_coverage == 0));
    assert!(result.stats.ipv4_exclusion_constrained);
}

#[test]
fn greedy_prefers_the_cheapest_merge() {
    // Four lossless entries, target three: merging 10.0.8.0/24 with
    // 10.0.9.0/25 adds 128 addresses, merging the two /24s at 10.0.0.0/22
    // would add 512. The cheaper merge is taken.
    let prefixes = vec![net("10.0.0.0/24"), net("10.0.2.0/24"), net("10.0.8.0/24"), net("10.0.9.0/25")];
    let config = OptimizerConfig { ipv4_target: Some(TargetSpec::EntryCount(3)), ..Default::default() };
    let result = optimize(&prefixes, &config, NONE.budget()).unwrap();
    let got: Vec<IpPrefix> = result.entries.iter().map(|e| e.prefix).collect();
    assert_eq!(got, vec![net("10.0.0.0/24"), net("10.0.2.0/24"), net("10.0.8.0/23")]);
    assert_eq!(result.stats.total_ipv4_over_coverage, 128);
    assert!(result.stats.ipv4_target_binding);
}

#[test]
fn binding_follows_the_lossless_count() {
    // Two /25 halves aggregate to one /24: a target of one is not binding
    // even though there are two inputs.
    let prefixes = vec![net("10.0.0.0/25"), net("10.0.0.128/25")];
    let config = OptimizerConfig { ipv4_target: Some(TargetSpec::EntryCount(1)), ..Default::default() };
    let result = optimize(&prefixes, &config, NONE.budget()).unwrap();
    assert_eq!(result.entries.len(), 1);
    assert_eq!(result.entries[0].prefix, net("10.0.0.0/24"));
    assert_eq!(result.stats.total_ipv4_over_coverage, 0);
    assert!(!result.stats.ipv4_target_binding);
}
