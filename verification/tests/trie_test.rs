use cidr_optimizer::exclusion::ExclusionSet;
use cidr_optimizer::lossless::SourceMapPrefix;
use cidr_optimizer::prefix::{IpPrefix, Prefix};
use cidr_optimizer::trie::{BinaryTrie, TrieNode, INVALID};
use cidr_optimizer::types::ExclusionEntry;

fn v4(s: &str) -> Prefix {
    let n: ipnet::Ipv4Net = s.parse().unwrap();
    Prefix { bits: u32::from(n.addr()) as u128, len: n.prefix_len() }
}

fn v6(s: &str) -> Prefix {
    let n: ipnet::Ipv6Net = s.parse().unwrap();
    Prefix { bits: u128::from(n.addr()), len: n.prefix_len() }
}

fn entry(p: Prefix, i: usize, coverage: u128) -> SourceMapPrefix {
    SourceMapPrefix { prefix: p, source_indices: vec![i], coverage, preferred_overlap_in_coverage: 0 }
}

fn exclusion(s: &str) -> ExclusionEntry {
    ExclusionEntry { prefix: IpPrefix::V4(v4(s)), source: "test".to_string(), comment: None }
}

#[test]
fn node_size_is_112_bytes() {
    assert_eq!(std::mem::size_of::<TrieNode>(), 112);
}

#[test]
fn build_simple_trie_v4() {
    let entries = vec![entry(v4("10.0.0.0/24"), 0, 256), entry(v4("10.0.1.0/24"), 1, 256)];
    let trie = BinaryTrie::build_from_v4(&entries).unwrap();
    assert_eq!(trie.total_leaf_count(), 2);
}

#[test]
fn capacity_root_v4() {
    let entries = vec![entry(v4("10.0.0.0/24"), 0, 256)];
    let trie = BinaryTrie::build_from_v4(&entries).unwrap();
    assert_eq!(trie.capacity(trie.root), u128::MAX);
}

#[test]
fn capacity_leaf_v4() {
    let entries = vec![entry(v4("10.0.0.0/24"), 0, 256)];
    let trie = BinaryTrie::build_from_v4(&entries).unwrap();
    let leaves = trie.extract_leaf_indices();
    assert_eq!(leaves.len(), 1);
    // /24 has capacity 2^8 = 256
    assert_eq!(trie.capacity(leaves[0]), 256);
}

#[test]
fn path_compression_reduces_nodes() {
    // Two /32 entries that share a long prefix should use path compression
    let entries = vec![entry(v4("10.0.0.1/32"), 0, 1), entry(v4("10.0.0.2/32"), 1, 1)];
    let trie = BinaryTrie::build_from_v4(&entries).unwrap();
    assert_eq!(trie.total_leaf_count(), 2);
    // With path compression, should have far fewer than 32 nodes per entry
    assert!(trie.arena.len() < 10);
}

#[test]
fn collapse_and_extract() {
    let entries = vec![entry(v4("10.0.0.0/25"), 0, 128), entry(v4("10.0.0.128/25"), 1, 128)];
    let mut trie = BinaryTrie::build_from_v4(&entries).unwrap();
    assert_eq!(trie.total_leaf_count(), 2);

    // Find the parent of both leaves (should be the node representing /24)
    let leaves = trie.extract_leaf_indices();
    let parent = trie.arena[leaves[0] as usize].parent;
    assert_ne!(parent, INVALID);

    trie.collapse(parent);
    trie.update_leaf_count(parent);
    // Update ancestors
    let mut anc = trie.arena[parent as usize].parent;
    while anc != INVALID {
        trie.update_leaf_count(anc);
        anc = trie.arena[anc as usize].parent;
    }
    assert_eq!(trie.total_leaf_count(), 1);

    let result = trie.extract_leaves_v4();
    assert_eq!(result.len(), 1);
    assert_eq!(result[0].prefix, v4("10.0.0.0/24"));
}

#[test]
fn build_v6_trie() {
    let entries = vec![
        entry(v6("2001:db8::/48"), 0, 1u128 << 80),
        entry(v6("2001:db8:1::/48"), 1, 1u128 << 80),
    ];
    let trie = BinaryTrie::build_from_v6(&entries).unwrap();
    assert_eq!(trie.total_leaf_count(), 2);
}

#[test]
fn mark_exclusions_blocks_merge() {
    // Two sibling /25s under 10.0.0.0/24 — their parent at /24 can merge them
    let entries = vec![entry(v4("10.0.0.0/25"), 0, 128), entry(v4("10.0.0.128/25"), 1, 128)];

    // Scenario: non-sibling entries where the parent has gaps
    let entries2 = vec![entry(v4("10.0.0.0/25"), 0, 128), entry(v4("10.0.1.0/25"), 1, 128)];
    let mut trie2 = BinaryTrie::build_from_v4(&entries2).unwrap();

    // Exclude 10.0.0.200/32 — in the 10.0.0.128/25 range, not covered by input
    let excl = vec![exclusion("10.0.0.200/32")];
    let set = ExclusionSet::build(&excl);
    trie2.mark_exclusions(&set, true);
    // The parent node that would merge these two /25s covers 10.0.0.0-10.0.1.255
    // which intersects with 10.0.0.200, and coverage < capacity → excluded
    assert!(trie2.arena.iter().any(|n| n.is_excluded));

    // When both /25s fully cover /24, an exclusion within /24 is not marked there
    let mut trie3 = BinaryTrie::build_from_v4(&entries).unwrap();
    let excl_within = vec![exclusion("10.0.0.50/32")];
    let set_within = ExclusionSet::build(&excl_within);
    trie3.mark_exclusions(&set_within, true);
    let leaves = trie3.extract_leaf_indices();
    let parent = trie3.arena[leaves[0] as usize].parent;
    assert!(!trie3.arena[parent as usize].is_excluded);
}

#[test]
fn collapse_cost_counts_uncovered_addresses() {
    let entries = vec![entry(v4("10.0.0.0/24"), 0, 256), entry(v4("10.0.2.0/24"), 1, 256)];
    let trie = BinaryTrie::build_from_v4(&entries).unwrap();
    let leaves = trie.extract_leaf_indices();
    let parent = trie.arena[leaves[0] as usize].parent;
    // Their common ancestor is 10.0.0.0/22: 1024 addresses, 512 covered.
    assert_eq!(trie.capacity(parent), 1024);
    assert_eq!(trie.collapse_cost(parent), 512);
    assert_eq!(trie.node_interval(parent), (0x0A00_0000, 0x0A00_03FF));
}

#[test]
fn invalidate_subtree_bumps_descendants() {
    let entries = vec![entry(v4("10.0.0.0/25"), 0, 128), entry(v4("10.0.0.128/25"), 1, 128)];
    let mut trie = BinaryTrie::build_from_v4(&entries).unwrap();
    let leaves = trie.extract_leaf_indices();
    let before: Vec<u32> = trie.arena.iter().map(|n| n.generation).collect();
    let root = trie.root;
    trie.invalidate_subtree(root);
    for i in 0..trie.arena.len() {
        // Every node strictly below the root is bumped; the root is not.
        let expected = if i as u32 == root { before[i] } else { before[i] + 1 };
        assert_eq!(trie.arena[i].generation, expected);
    }
    assert_eq!(trie.extract_leaf_indices(), leaves);
}
