use cidr_optimizer::preferred::PreferredSet;
use cidr_optimizer::prefix::{IpPrefix, Prefix};
use cidr_optimizer::types::PreferredEntry;

fn net(s: &str) -> IpPrefix {
    match s.parse::<ipnet::IpNet>().unwrap() {
        ipnet::IpNet::V4(n) => IpPrefix::V4(Prefix { bits: u32::from(n.addr()) as u128, len: n.prefix_len() }),
        ipnet::IpNet::V6(n) => IpPrefix::V6(Prefix { bits: u128::from(n.addr()), len: n.prefix_len() }),
    }
}

fn addr4(s: &str) -> u128 {
    let n: ipnet::Ipv4Net = format!("{}/32", s).parse().unwrap();
    u32::from(n.addr()) as u128
}

fn addr6(s: &str) -> u128 {
    let n: ipnet::Ipv6Net = format!("{}/128", s).parse().unwrap();
    u128::from(n.addr())
}

fn pref(s: &str, source: &str, comment: Option<&str>) -> PreferredEntry {
    PreferredEntry { prefix: net(s), source: source.into(), comment: comment.map(|c| c.into()) }
}

#[test]
fn empty_set_returns_zero() {
    let set = PreferredSet::build(&[]);
    assert_eq!(set.overlap_count_v4(0, 255), 0);
    assert!(set.is_empty_v4());
    assert!(set.is_empty_v6());
}

#[test]
fn single_range_fully_inside() {
    // Preferred: 10.0.0.0/24 (256 IPs). Candidate covers it entirely.
    let entries = vec![pref("10.0.0.0/24", "test", None)];
    let set = PreferredSet::build(&entries);
    assert_eq!(set.overlap_count_v4(addr4("10.0.0.0"), addr4("10.0.1.255")), 256);
}

#[test]
fn partial_overlap() {
    // Preferred: 10.0.0.0/24. Candidate: 10.0.0.128-10.0.1.255 (partial overlap = 128 IPs)
    let entries = vec![pref("10.0.0.0/24", "test", None)];
    let set = PreferredSet::build(&entries);
    assert_eq!(set.overlap_count_v4(addr4("10.0.0.128"), addr4("10.0.1.255")), 128);
}

#[test]
fn multiple_disjoint_ranges() {
    let entries = vec![pref("10.0.0.0/24", "a", None), pref("10.0.2.0/24", "b", None)];
    let set = PreferredSet::build(&entries);
    // Candidate covers both: 10.0.0.0 - 10.0.2.255
    assert_eq!(set.overlap_count_v4(addr4("10.0.0.0"), addr4("10.0.2.255")), 512);
}

#[test]
fn no_overlap() {
    let entries = vec![pref("10.0.0.0/24", "test", None)];
    let set = PreferredSet::build(&entries);
    assert_eq!(set.overlap_count_v4(addr4("192.168.0.0"), addr4("192.168.0.255")), 0);
}

#[test]
fn find_overlapping_returns_correct_entries() {
    let entries = vec![
        pref("10.0.0.0/24", "file1", Some("pool A")),
        pref("10.0.2.0/24", "file1", Some("pool B")),
    ];
    let set = PreferredSet::build(&entries);
    let found = set.find_overlapping_v4(&entries, addr4("10.0.0.0"), addr4("10.0.0.255"));
    assert_eq!(found.len(), 1);
    assert_eq!(found[0].comment, Some("pool A".into()));
}

#[test]
fn ipv6_overlap_count() {
    let entries = vec![pref("2001:db8::/48", "test", None)];
    let set = PreferredSet::build(&entries);
    assert!(!set.is_empty_v6());
    let start = addr6("2001:db8::");
    let end = start | ((1u128 << 80) - 1);
    // /48 has 2^80 IPs
    assert_eq!(set.overlap_count_v6(start, end), 1u128 << 80);
}

#[test]
fn overlapping_preferred_entries_deduplicated() {
    // 10.0.0.0/24 and 10.0.0.0/25 overlap — lossless aggregation deduplicates to /24.
    let entries = vec![pref("10.0.0.0/24", "a", None), pref("10.0.0.0/25", "b", None)];
    let set = PreferredSet::build(&entries);
    // Must count 256, not 384 (no double-counting from overlap)
    assert_eq!(set.overlap_count_v4(addr4("10.0.0.0"), addr4("10.0.0.255")), 256);
}

#[test]
fn overlap_of_a_single_address() {
    let entries = vec![pref("10.0.0.0/24", "a", None), pref("10.0.2.0/23", "b", None)];
    let set = PreferredSet::build(&entries);
    assert_eq!(set.overlap_count_v4(addr4("10.0.2.7"), addr4("10.0.2.7")), 1);
    assert_eq!(set.overlap_count_v4(addr4("10.0.1.0"), addr4("10.0.1.255")), 0);
    // Partial overlap with both ranges: 56 + 256 addresses.
    assert_eq!(set.overlap_count_v4(addr4("10.0.0.200"), addr4("10.0.2.255")), 56 + 256);
}
