use cidr_optimizer::pipeline::{optimize, validate_coverage};
use cidr_optimizer::prefix::{IpPrefix, Prefix};
use cidr_optimizer::types::{AddressFamily, AggregatedEntry, OptimizerConfig, TargetSpec};

fn net(s: &str) -> IpPrefix {
    match s.parse::<ipnet::IpNet>().unwrap() {
        ipnet::IpNet::V4(n) => IpPrefix::V4(Prefix { bits: u32::from(n.addr()) as u128, len: n.prefix_len() }),
        ipnet::IpNet::V6(n) => IpPrefix::V6(Prefix { bits: u128::from(n.addr()), len: n.prefix_len() }),
    }
}

fn no_budget(_: AddressFamily, _: u128, _: bool) -> Option<u128> {
    None
}

#[test]
fn lossless_optimization_covers_all_inputs() {
    let prefixes = vec![net("10.0.0.0/24"), net("10.0.1.0/24"), net("192.168.0.0/16")];
    let config = OptimizerConfig::default();
    let result = optimize(&prefixes, &config, no_budget).unwrap();
    assert!(validate_coverage(&prefixes, &result.entries));
}

#[test]
fn lossy_optimization_covers_all_inputs() {
    // Force lossy by setting target=1 with scattered prefixes
    let prefixes = vec![net("10.0.0.0/24"), net("10.0.1.0/24"), net("10.0.4.0/24"), net("10.0.5.0/24")];
    let config = OptimizerConfig { ipv4_target: Some(TargetSpec::EntryCount(1)), ..Default::default() };
    let result = optimize(&prefixes, &config, no_budget).unwrap();
    // Lossy optimization widens prefixes — should still cover all inputs
    assert!(validate_coverage(&prefixes, &result.entries));
}

#[test]
fn optimize_does_not_return_error_on_coverage_loss() {
    let prefixes = vec![net("10.0.0.1/32"), net("10.0.0.2/32"), net("192.168.0.1/32"), net("192.168.0.2/32")];
    let config = OptimizerConfig { ipv4_target: Some(TargetSpec::EntryCount(1)), ..Default::default() };
    // This succeeds even though aggressive lossy merging happens
    let result = optimize(&prefixes, &config, no_budget).unwrap();
    // The output covers inputs because lossy widens (never drops)
    assert!(validate_coverage(&prefixes, &result.entries));
}

#[test]
fn validate_coverage_detects_missing_input() {
    let inputs = vec![net("10.0.0.0/24"), net("192.168.1.0/24")];
    // Only optimize a subset — simulate output missing 192.168.1.0/24
    let partial = vec![net("10.0.0.0/24")];
    let config = OptimizerConfig::default();
    let result = optimize(&partial, &config, no_budget).unwrap();
    assert!(!validate_coverage(&inputs, &result.entries));
}

fn out(s: &str) -> AggregatedEntry {
    AggregatedEntry { prefix: net(s), source_indices: None, over_coverage: 0, exclusion_collisions: None }
}

#[test]
fn validate_coverage_needs_one_containing_output() {
    // Each input must lie within a single output prefix.
    let inputs = vec![net("10.0.0.0/23")];
    assert!(!validate_coverage(&inputs, &vec![out("10.0.0.0/24"), out("10.0.1.0/24")]));
    assert!(validate_coverage(&inputs, &vec![out("10.0.0.0/22")]));
    assert!(validate_coverage(&vec![net("10.0.1.7/32")], &vec![out("10.0.0.0/24"), out("10.0.1.0/24")]));
    // Families do not cover each other.
    assert!(!validate_coverage(&vec![net("::/96")], &vec![out("0.0.0.0/0")]));
    // No output covers no input.
    assert!(validate_coverage(&vec![], &vec![]));
    assert!(!validate_coverage(&vec![net("10.0.0.0/8")], &vec![]));
}
