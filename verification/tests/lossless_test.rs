use cidr_optimizer::lossless::{lossless_aggregate_v4, lossless_aggregate_v6};
use cidr_optimizer::prefix::Prefix;

fn v4(s: &str) -> Prefix {
    let n: ipnet::Ipv4Net = s.parse().unwrap();
    Prefix { bits: u32::from(n.addr()) as u128, len: n.prefix_len() }
}

fn v6(s: &str) -> Prefix {
    let n: ipnet::Ipv6Net = s.parse().unwrap();
    Prefix { bits: u128::from(n.addr()), len: n.prefix_len() }
}

#[test]
fn redundancy_removal() {
    // /8 subsumes /16
    let input = vec![(0, v4("10.0.0.0/8")), (1, v4("10.1.0.0/16"))];
    let result = lossless_aggregate_v4(input, 32);
    assert_eq!(result.len(), 1);
    assert_eq!(result[0].prefix, v4("10.0.0.0/8"));
    assert!(result[0].source_indices.contains(&0));
    assert!(result[0].source_indices.contains(&1));
}

#[test]
fn sibling_merge() {
    // 10.0.0.0/25 + 10.0.0.128/25 → 10.0.0.0/24
    let input = vec![(0, v4("10.0.0.0/25")), (1, v4("10.0.0.128/25"))];
    let result = lossless_aggregate_v4(input, 32);
    assert_eq!(result.len(), 1);
    assert_eq!(result[0].prefix, v4("10.0.0.0/24"));
    assert_eq!(result[0].source_indices.len(), 2);
}

#[test]
fn cascading_merge() {
    // Four /26s that merge to /24
    let input = vec![
        (0, v4("10.0.0.0/26")),
        (1, v4("10.0.0.64/26")),
        (2, v4("10.0.0.128/26")),
        (3, v4("10.0.0.192/26")),
    ];
    let result = lossless_aggregate_v4(input, 32);
    assert_eq!(result.len(), 1);
    assert_eq!(result[0].prefix, v4("10.0.0.0/24"));
    assert_eq!(result[0].source_indices.len(), 4);
}

#[test]
fn max_prefix_len_truncation() {
    let input = vec![(0, v4("10.0.0.1/32")), (1, v4("10.0.0.2/32"))];
    let result = lossless_aggregate_v4(input, 24);
    assert_eq!(result.len(), 1);
    assert_eq!(result[0].prefix, v4("10.0.0.0/24"));
}

#[test]
fn source_map_through_merges() {
    let input = vec![
        (0, v4("10.0.0.0/25")),
        (1, v4("10.0.0.128/25")),
        (2, v4("10.0.0.64/26")), // subsumed by 10.0.0.0/25
    ];
    let result = lossless_aggregate_v4(input, 32);
    assert_eq!(result.len(), 1);
    // All three original indices should be tracked
    let mut indices = result[0].source_indices.clone();
    indices.sort();
    assert_eq!(indices, vec![0, 1, 2]);
}

#[test]
fn ipv6_sibling_merge() {
    let input = vec![(0, v6("2001:db8::/33")), (1, v6("2001:db8:8000::/33"))];
    let result = lossless_aggregate_v6(input, 128);
    assert_eq!(result.len(), 1);
    assert_eq!(result[0].prefix, v6("2001:db8::/32"));
}

#[test]
fn empty_input() {
    let result = lossless_aggregate_v4(vec![], 32);
    assert!(result.is_empty());
}

#[test]
fn single_entry() {
    let input = vec![(0, v4("10.0.0.0/8"))];
    let result = lossless_aggregate_v4(input, 32);
    assert_eq!(result.len(), 1);
    assert_eq!(result[0].prefix, v4("10.0.0.0/8"));
}

#[test]
fn no_merge_non_siblings() {
    let input = vec![(0, v4("10.0.0.0/24")), (1, v4("10.0.2.0/24"))];
    let result = lossless_aggregate_v4(input, 32);
    assert_eq!(result.len(), 2);
}

#[test]
fn differential_vs_ipnet_aggregate() {
    let inputs: Vec<ipnet::Ipv4Net> = vec![
        "10.0.0.0/24",
        "10.0.1.0/24",
        "10.0.2.0/24",
        "10.0.3.0/24",
        "192.168.0.0/24",
        "192.168.1.0/24",
    ]
    .into_iter()
    .map(|s| s.parse().unwrap())
    .collect();

    // Our implementation
    let indexed: Vec<(usize, Prefix)> = inputs
        .iter()
        .enumerate()
        .map(|(i, n)| (i, Prefix { bits: u32::from(n.addr()) as u128, len: n.prefix_len() }))
        .collect();
    let our_result = lossless_aggregate_v4(indexed, 32);
    let mut our_prefixes: Vec<(u128, u8)> = our_result.iter().map(|e| (e.prefix.bits, e.prefix.len)).collect();
    our_prefixes.sort();

    // ipnet::Ipv4Net::aggregate
    let mut ipnet_prefixes: Vec<(u128, u8)> = ipnet::Ipv4Net::aggregate(&inputs)
        .iter()
        .map(|p| (u32::from(p.network()) as u128, p.prefix_len()))
        .collect();
    ipnet_prefixes.sort();

    assert_eq!(our_prefixes, ipnet_prefixes);
}

#[test]
fn lossless_result_is_in_address_order() {
    let input = vec![
        (0, v4("192.168.1.0/24")),
        (1, v4("10.0.0.0/24")),
        (2, v4("10.0.1.0/24")),
        (3, v4("10.0.0.128/25")),
        (4, v4("172.16.0.0/12")),
    ];
    let result = lossless_aggregate_v4(input, 32);
    let got: Vec<(u128, u8)> = result.iter().map(|e| (e.prefix.bits, e.prefix.len)).collect();
    // In ascending address order.
    assert_eq!(got, vec![(v4("10.0.0.0/23").bits, 23), (v4("172.16.0.0/12").bits, 12), (v4("192.168.1.0/24").bits, 24)]);
    // Each lossless entry covers all its addresses.
    assert_eq!(result[0].coverage, 512);
    let mut idx = result[0].source_indices.clone();
    idx.sort();
    assert_eq!(idx, vec![1, 2, 3]);
}

#[test]
fn merged_siblings_meet_their_sibling_across_other_entries() {
    // 10.0.0.0/25 and 10.0.0.128/25 merge into 10.0.0.0/24, whose sibling
    // 10.0.1.0/24 is merged with it although 10.0.5.0/25 is a longer prefix.
    let input = vec![
        (0, v4("10.0.0.0/25")),
        (1, v4("10.0.0.128/25")),
        (2, v4("10.0.5.0/25")),
        (3, v4("10.0.1.0/24")),
    ];
    let result = lossless_aggregate_v4(input, 32);
    let got: Vec<(u128, u8)> = result.iter().map(|e| (e.prefix.bits, e.prefix.len)).collect();
    assert_eq!(got, vec![(v4("10.0.0.0/23").bits, 23), (v4("10.0.5.0/25").bits, 25)]);
}
