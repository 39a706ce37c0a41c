use cidr_optimizer::prefix::Prefix;
use cidr_optimizer::provenance::{compute_provenance_v4, compute_provenance_v6};
use cidr_optimizer::source_map::{compute_source_map_v4, compute_source_map_v6};

fn v4(s: &str) -> Prefix {
    let n: ipnet::Ipv4Net = s.parse().unwrap();
    Prefix { bits: u32::from(n.addr()) as u128, len: n.prefix_len() }
}

fn v6(s: &str) -> Prefix {
    let n: ipnet::Ipv6Net = s.parse().unwrap();
    Prefix { bits: u128::from(n.addr()), len: n.prefix_len() }
}

#[test]
fn source_map_v4_basic() {
    let output = vec![v4("10.0.0.0/23")];
    let input = vec![(0, v4("10.0.0.0/24")), (1, v4("10.0.1.0/24"))];
    let result = compute_source_map_v4(&output, &input);
    assert_eq!(result, vec![vec![0, 1]]);
}

#[test]
fn source_map_v4_partial() {
    let output = vec![v4("10.0.0.0/24"), v4("10.0.1.0/24")];
    let input = vec![(0, v4("10.0.0.0/24")), (1, v4("10.0.1.0/24")), (2, v4("192.168.0.0/24"))];
    let result = compute_source_map_v4(&output, &input);
    assert_eq!(result, vec![vec![0], vec![1]]);
}

#[test]
fn source_map_v6_basic() {
    let output = vec![v6("2001:db8::/47")];
    let input = vec![(0, v6("2001:db8::/48")), (1, v6("2001:db8:1::/48"))];
    let result = compute_source_map_v6(&output, &input);
    assert_eq!(result, vec![vec![0, 1]]);
}

#[test]
fn provenance_v4_basic() {
    let output = vec![v4("10.0.0.0/23")];
    let input = vec![(0, v4("10.0.0.0/24")), (1, v4("10.0.1.0/24"))];
    let result = compute_provenance_v4(&output, &input);
    assert_eq!(result, vec![vec![0, 1]]);
}

#[test]
fn provenance_v4_partial() {
    let output = vec![v4("10.0.0.0/24"), v4("10.0.1.0/24")];
    let input = vec![(0, v4("10.0.0.0/24")), (1, v4("10.0.1.0/24")), (2, v4("192.168.0.0/24"))];
    let result = compute_provenance_v4(&output, &input);
    assert_eq!(result, vec![vec![0], vec![1]]);
}

#[test]
fn provenance_v6_basic() {
    let output = vec![v6("2001:db8::/47")];
    let input = vec![(0, v6("2001:db8::/48")), (1, v6("2001:db8:1::/48"))];
    let result = compute_provenance_v6(&output, &input);
    assert_eq!(result, vec![vec![0, 1]]);
}

#[test]
fn source_map_lists_every_contained_input_in_input_order() {
    // Inputs sorted by network; the /16 holds three of them, the /24 one.
    let output = vec![v4("10.0.0.0/16"), v4("192.168.0.0/24")];
    let input = vec![
        (4, v4("10.0.0.0/24")),
        (2, v4("10.0.5.0/24")),
        (7, v4("10.0.255.0/24")),
        (1, v4("10.1.0.0/24")),
        (0, v4("192.168.0.128/25")),
    ];
    let result = compute_source_map_v4(&output, &input);
    assert_eq!(result, vec![vec![4, 2, 7], vec![0]]);
}
