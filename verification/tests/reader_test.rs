use cidr_optimizer::pipeline::optimize;
use cidr_optimizer::prefix::{IpPrefix, Prefix};
use cidr_optimizer::reader::optimize_from_reader;
use cidr_optimizer::types::{AddressFamily, OptimizerConfig, TargetSpec};

fn lines(s: &str) -> Vec<String> {
    s.split_inclusive('\n').map(|l| l.to_string()).collect()
}

fn net(s: &str) -> IpPrefix {
    match s.parse::<ipnet::IpNet>().unwrap() {
        ipnet::IpNet::V4(n) => IpPrefix::V4(Prefix { bits: u32::from(n.addr()) as u128, len: n.prefix_len() }),
        ipnet::IpNet::V6(n) => IpPrefix::V6(Prefix { bits: u128::from(n.addr()), len: n.prefix_len() }),
    }
}

fn no_budget(_af: AddressFamily, _covered: u128, _over_target: bool) -> Option<u128> {
    None
}

/// The first and last address of a prefix, in its family's 128-bit frame.
fn span(p: &IpPrefix) -> (u128, u128, bool) {
    match p {
        IpPrefix::V4(q) => {
            let size: u128 = 1u128 << (32 - q.len as u32);
            (q.bits, q.bits + size - 1, true)
        }
        IpPrefix::V6(q) => {
            let size: u128 = if q.len == 0 { u128::MAX } else { (1u128 << (128 - q.len as u32)) - 1 };
            (q.bits, q.bits + size, false)
        }
    }
}

fn contains(outer: &IpPrefix, inner: &IpPrefix) -> bool {
    let (a, b, f) = span(outer);
    let (c, d, g) = span(inner);
    f == g && a <= c && d <= b
}

#[test]
fn reader_optimizes_the_parsed_lines() {
    let text = "10.0.0.0/24 # office\n10.0.1.0/24\n# gateways\n2001:db8::/48\n10.0.3.7/24\n";
    let config = OptimizerConfig { source_map: true, ..Default::default() };
    let out = optimize_from_reader(&lines(text), None, &config, no_budget).unwrap();
    let got: Vec<IpPrefix> = out.result.entries.iter().map(|e| e.prefix).collect();
    assert_eq!(got, vec![net("10.0.0.0/23"), net("10.0.3.0/24"), net("2001:db8::/48")]);
    assert_eq!(out.result.stats.input_ipv4_count, 3);
    assert_eq!(out.result.stats.input_ipv6_count, 1);
    assert_eq!(out.input_metadata.len(), 4);
    assert_eq!(out.input_metadata[0].original, "10.0.0.0/24");
    assert_eq!(out.input_metadata[0].comment.as_deref(), Some("office"));
    assert_eq!(out.input_metadata[1].comment, None);
}

#[test]
fn widening_keeps_every_input_inside_an_output_entry() {
    let inputs = vec![
        net("10.0.0.0/24"),
        net("10.0.2.0/24"),
        net("10.0.9.0/25"),
        net("172.16.4.0/22"),
        net("2001:db8:1::/48"),
        net("2001:db8:5::/48"),
        net("2001:db8:7::/64"),
    ];
    let config = OptimizerConfig {
        ipv4_target: Some(TargetSpec::EntryCount(2)),
        ipv6_target: Some(TargetSpec::EntryCount(1)),
        ..Default::default()
    };
    let out = optimize(&inputs, &config, no_budget).unwrap();
    assert!(out.stats.output_ipv4_count <= 2);
    assert_eq!(out.stats.output_ipv6_count, 1);
    assert_eq!(out.stats.output_ipv4_count + out.stats.output_ipv6_count, out.entries.len());
    for p in &inputs {
        assert!(out.entries.iter().any(|e| contains(&e.prefix, p)), "{:?} is not covered", p);
    }
}

#[test]
fn entry_count_target_is_met_without_cap_or_exclusions() {
    let inputs: Vec<IpPrefix> = (0u32..10000)
        .map(|k| IpPrefix::V4(Prefix { bits: (0x0A00_0000u32 + k) as u128, len: 32 }))
        .collect();
    let config = OptimizerConfig { ipv4_target: Some(TargetSpec::EntryCount(1)), ..Default::default() };
    let out = optimize(&inputs, &config, no_budget).unwrap();
    let got: Vec<IpPrefix> = out.entries.iter().map(|e| e.prefix).collect();
    assert_eq!(got, vec![net("10.0.0.0/18")]);
    assert_eq!(out.stats.output_ipv4_count, 1);
    assert!(out.stats.ipv4_target_binding);
    assert!(!out.stats.ipv4_exclusion_constrained);
}

#[test]
fn untargeted_output_has_no_sibling_pair() {
    let inputs = vec![net("10.0.0.0/25"), net("10.0.0.128/25"), net("10.0.5.0/25"), net("10.0.1.0/24")];
    let out = optimize(&inputs, &OptimizerConfig::default(), no_budget).unwrap();
    let got: Vec<IpPrefix> = out.entries.iter().map(|e| e.prefix).collect();
    assert_eq!(got, vec![net("10.0.0.0/23"), net("10.0.5.0/25")]);
    assert_eq!(out.stats.total_ipv4_over_coverage, 0);
}
