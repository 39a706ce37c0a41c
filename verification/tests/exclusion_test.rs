use cidr_optimizer::exclusion::ExclusionSet;
use cidr_optimizer::prefix::{IpPrefix, Prefix};
use cidr_optimizer::types::ExclusionEntry;

fn net(s: &str) -> IpPrefix {
    match s.parse::<ipnet::IpNet>().unwrap() {
        ipnet::IpNet::V4(n) => IpPrefix::V4(Prefix { bits: u32::from(n.addr()) as u128, len: n.prefix_len() }),
        ipnet::IpNet::V6(n) => IpPrefix::V6(Prefix { bits: u128::from(n.addr()), len: n.prefix_len() }),
    }
}

fn addr4(s: &str) -> u128 {
    let n: ipnet::Ipv4Net = format!("{}/32", s).parse().unwrap();
    u32::from(n.addr()) as u128
}

fn addr6(s: &str) -> u128 {
    let n: ipnet::Ipv6Net = format!("{}/128", s).parse().unwrap();
    u128::from(n.addr())
}

fn excl(s: &str, source: &str, comment: Option<&str>) -> ExclusionEntry {
    ExclusionEntry { prefix: net(s), source: source.to_string(), comment: comment.map(|c| c.to_string()) }
}

#[test]
fn empty_exclusion_set() {
    let set = ExclusionSet::build(&[]);
    assert!(set.is_empty_v4());
    assert!(set.is_empty_v6());
    assert!(!set.intersects_v4(0, 255));
}

#[test]
fn intersects_v4_basic() {
    let entries = vec![excl("10.0.0.0/24", "test", None)];
    let set = ExclusionSet::build(&entries);
    // 10.0.0.0/24 = 167772160..167772415
    let start = addr4("10.0.0.0");
    let end = addr4("10.0.0.255");

    // Exact match
    assert!(set.intersects_v4(start, end));
    // Subset
    assert!(set.intersects_v4(start, start + 10));
    // Superset
    assert!(set.intersects_v4(start - 1, end + 1));
    // Non-overlapping (before)
    assert!(!set.intersects_v4(0, start - 1));
    // Non-overlapping (after)
    assert!(!set.intersects_v4(end + 1, end + 100));
}

#[test]
fn intersects_v4_multiple_ranges() {
    let entries = vec![excl("10.0.0.0/24", "a", None), excl("192.168.1.0/24", "b", None)];
    let set = ExclusionSet::build(&entries);

    let start_192 = addr4("192.168.1.0");
    assert!(set.intersects_v4(start_192, start_192 + 255));

    // Gap between the two ranges
    let gap_start = addr4("10.0.1.0");
    let gap_end = addr4("192.168.0.255");
    assert!(!set.intersects_v4(gap_start, gap_end));
}

#[test]
fn intersects_v6_basic() {
    let entries = vec![excl("2001:db8::/32", "test", None)];
    let set = ExclusionSet::build(&entries);
    assert!(!set.is_empty_v6());

    let start = addr6("2001:db8::");
    let end = start | ((1u128 << 96) - 1);
    assert!(set.intersects_v6(start, end));
    assert!(!set.intersects_v6(0, start - 1));
}

#[test]
fn find_intersecting_returns_matching_entries() {
    let entries = vec![
        excl("10.0.0.0/24", "file1", Some("pool A")),
        excl("10.0.1.0/24", "file1", Some("pool B")),
    ];
    let set = ExclusionSet::build(&entries);

    let start = addr4("10.0.0.0");
    let end = addr4("10.0.0.255");

    let found = set.find_intersecting_v4(&entries, start, end);
    assert_eq!(found.len(), 1);
    assert_eq!(found[0].comment, Some("pool A".to_string()));
}

#[test]
fn adjacent_exclusions_are_aggregated() {
    // Two adjacent /25s should aggregate to a single /24 interval
    let entries = vec![excl("10.0.0.0/25", "test", None), excl("10.0.0.128/25", "test", None)];
    let set = ExclusionSet::build(&entries);
    // The aggregated interval should cover the full /24
    let start = addr4("10.0.0.0");
    let end = addr4("10.0.0.255");
    assert!(set.intersects_v4(start, end));
    // Only one interval after aggregation
    assert_eq!(set.ipv4_ranges().len(), 1);
}

#[test]
fn families_are_kept_apart() {
    let entries = vec![excl("10.0.0.0/8", "a", None), excl("::/8", "b", None)];
    let set = ExclusionSet::build(&entries);
    // The IPv6 range [0, 2^120) does not make IPv4 queries intersect and the reverse.
    assert!(set.intersects_v4(addr4("10.1.2.3"), addr4("10.1.2.3")));
    assert!(!set.intersects_v4(addr4("11.0.0.0"), addr4("11.0.0.0")));
    assert!(set.intersects_v6(addr6("::1"), addr6("::1")));
    assert!(!set.intersects_v6(addr6("100::"), addr6("100::ffff")));
    let found = set.find_intersecting_v6(&entries, 0, 10);
    assert_eq!(found.len(), 1);
    assert_eq!(found[0].source, "b");
}
