use cidr_optimizer::exclusion::ExclusionSet;
use cidr_optimizer::lossless::SourceMapPrefix;
use cidr_optimizer::optimizer::optimize_trie;
use cidr_optimizer::preferred::PreferredSet;
use cidr_optimizer::prefix::{IpPrefix, Prefix};
use cidr_optimizer::trie::BinaryTrie;
use cidr_optimizer::types::{ExclusionEntry, PreferredEntry};

fn v4(s: &str) -> Prefix {
    let n: ipnet::Ipv4Net = s.parse().unwrap();
    Prefix { bits: u32::from(n.addr()) as u128, len: n.prefix_len() }
}

fn entry(s: &str, i: usize, coverage: u128) -> SourceMapPrefix {
    SourceMapPrefix { prefix: v4(s), source_indices: vec![i], coverage, preferred_overlap_in_coverage: 0 }
}

#[test]
fn optimize_small_trie_to_target() {
    let entries = vec![
        entry("10.0.0.0/25", 0, 128),
        entry("10.0.0.128/25", 1, 128),
        entry("10.0.1.0/25", 2, 128),
        entry("10.0.1.128/25", 3, 128),
    ];
    let mut trie = BinaryTrie::build_from_v4(&entries).unwrap();
    assert_eq!(trie.total_leaf_count(), 4);

    let empty_pref = PreferredSet::build(&[]);
    let _leaves = optimize_trie(&mut trie, 2, None, 512, &empty_pref, None);
    assert!(trie.total_leaf_count() <= 2);
}

#[test]
fn optimize_target_already_met() {
    let entries = vec![entry("10.0.0.0/24", 0, 256), entry("10.0.1.0/24", 1, 256)];
    let mut trie = BinaryTrie::build_from_v4(&entries).unwrap();
    let empty_pref = PreferredSet::build(&[]);
    let _leaves = optimize_trie(&mut trie, 5, None, 512, &empty_pref, None);
    assert_eq!(trie.total_leaf_count(), 2);
}

#[test]
fn optimize_with_ratio_cap() {
    let entries = vec![
        entry("10.0.0.1/32", 0, 1),
        entry("10.0.0.2/32", 1, 1),
        entry("192.168.0.1/32", 2, 1),
        entry("192.168.0.2/32", 3, 1),
    ];
    let mut trie = BinaryTrie::build_from_v4(&entries).unwrap();
    let empty_pref = PreferredSet::build(&[]);
    // A ratio of 0 admits no over-coverage at all: a budget of 0 addresses.
    let _leaves = optimize_trie(&mut trie, 1, Some(0), 4, &empty_pref, None);
    assert_eq!(trie.total_leaf_count(), 4);
}

#[test]
fn optimize_respects_exclusion() {
    let entries = vec![entry("10.0.0.0/24", 0, 256), entry("10.0.2.0/24", 1, 256)];

    // Without exclusion: target=1 merges to /22
    let mut trie_no_excl = BinaryTrie::build_from_v4(&entries).unwrap();
    let empty_pref = PreferredSet::build(&[]);
    let _leaves = optimize_trie(&mut trie_no_excl, 1, None, 512, &empty_pref, None);
    assert_eq!(trie_no_excl.total_leaf_count(), 1);

    // With exclusion of 10.0.1.0/24 (in the /22 gap, not covered by input)
    let mut trie = BinaryTrie::build_from_v4(&entries).unwrap();
    let excl = vec![ExclusionEntry {
        prefix: IpPrefix::V4(v4("10.0.1.0/24")),
        source: "test".to_string(),
        comment: None,
    }];
    let set = ExclusionSet::build(&excl);
    trie.mark_exclusions(&set, true);

    let _leaves = optimize_trie(&mut trie, 1, None, 512, &empty_pref, None);
    assert_eq!(trie.total_leaf_count(), 2);
}

#[test]
fn optimize_with_preferred_biases_merge() {
    // Two /24s with a gap: 10.0.0.0/24 and 10.0.2.0/24. Preferred covers 10.0.1.0/24.
    let entries = vec![entry("10.0.0.0/24", 0, 256), entry("10.0.2.0/24", 1, 256)];
    let preferred = vec![PreferredEntry {
        prefix: IpPrefix::V4(v4("10.0.1.0/24")),
        source: "test".into(),
        comment: None,
    }];
    let pref_set = PreferredSet::build(&preferred);

    let mut trie = BinaryTrie::build_from_v4(&entries).unwrap();
    trie.mark_preferred_overlaps(&pref_set, true);
    let _leaves = optimize_trie(&mut trie, 1, None, 512, &pref_set, None);
    // Should merge since preferred covers the gap
    assert_eq!(trie.total_leaf_count(), 1);
}

#[test]
fn optimize_max_non_preferred_ratio_blocks() {
    // Preferred covers 10.0.1.0/24 but not 10.0.3.0/24: the /22 merge would take
    // 256 non-preferred addresses, which a budget of 0 forbids.
    let entries = vec![entry("10.0.0.0/24", 0, 256), entry("10.0.2.0/24", 1, 256)];
    let preferred = vec![PreferredEntry {
        prefix: IpPrefix::V4(v4("10.0.1.0/24")),
        source: "test".into(),
        comment: None,
    }];
    let pref_set = PreferredSet::build(&preferred);

    let mut trie = BinaryTrie::build_from_v4(&entries).unwrap();
    trie.mark_preferred_overlaps(&pref_set, true);
    let _leaves = optimize_trie(&mut trie, 1, None, 512, &pref_set, Some(0));
    assert_eq!(trie.total_leaf_count(), 2);
}

#[test]
fn optimize_reports_admitted_over_coverage() {
    let entries = vec![entry("10.0.0.0/24", 0, 256), entry("10.0.2.0/24", 1, 256)];
    let mut trie = BinaryTrie::build_from_v4(&entries).unwrap();
    let empty_pref = PreferredSet::build(&[]);
    let outcome = optimize_trie(&mut trie, 1, Some(512), 512, &empty_pref, None);
    assert_eq!(outcome.leaves.len(), 1);
    assert_eq!(outcome.over_coverage, 512);
    assert_eq!(outcome.non_preferred_over_coverage, 512);
    let leaves = trie.extract_leaves_v4();
    assert_eq!(leaves[0].prefix, v4("10.0.0.0/22"));

    // A budget one address short of the merge leaves the trie as it was.
    let mut trie = BinaryTrie::build_from_v4(&entries).unwrap();
    let outcome = optimize_trie(&mut trie, 1, Some(511), 512, &empty_pref, None);
    assert_eq!(outcome.leaves.len(), 2);
    assert_eq!(outcome.over_coverage, 0);
}
