//! Path-compressed binary trie for CIDR budget optimization.
//!
//! An arena-allocated binary trie that stores IPv4/IPv6 prefixes with path
//! compression. The budget optimizer collapses its nodes to reduce the entry
//! count while bounding over-coverage.
use vstd::prelude::*;
use vstd::arithmetic::power2::{pow2, lemma_pow2_pos, lemma_pow2_adds, lemma_pow2_unfold};
use vstd::set_lib::{set_int_range, lemma_int_range, lemma_len_subset, lemma_set_disjoint_lens};
use crate::prefix::{Prefix, pow2_u128, lemma_pow2_128, lemma_pow2_le, network, last_address};
use crate::error::OptimizeError;

verus! {

/// Index into the trie arena.
pub type NodeIdx = u32;

/// Sentinel value: no node.
pub const INVALID: NodeIdx = u32::MAX;

/// A single node of the path-compressed binary trie.
#[derive(Clone, Copy)]
pub struct TrieNode {
    /// Compressed path bits of this node's skip segment (in the lowest `skip_len`
    /// bits, first path bit highest).
    pub skip_bits: u128,
    /// Address coverage of original input leaves under this node.
    pub coverage: u128,
    /// Accumulated collapse cost of all descendants already collapsed.
    pub collapsed_cost_sum: u128,
    /// Number of preferred addresses overlapping this subtree's coverage.
    pub preferred_overlap: u128,
    /// Preferred overlap restricted to actually-covered addresses.
    pub preferred_overlap_in_coverage: u128,
    /// Child node indices: `[0]` for bit 0, `[1]` for bit 1.
    pub children: [NodeIdx; 2],
    /// Parent node index (`INVALID` for the root).
    pub parent: NodeIdx,
    /// Number of leaves in this subtree.
    pub leaf_count: u32,
    /// Generation counter, for recognizing stale queue entries.
    pub generation: u32,
    /// Bit depth of this node (excluding `skip_len`).
    pub depth: u8,
    /// Whether this node stands for an actual prefix (a leaf).
    pub is_leaf: bool,
    /// Length of the compressed path segment in `skip_bits`.
    pub skip_len: u8,
    /// Whether collapsing this node would expose excluded addresses.
    pub is_excluded: bool,
}

impl TrieNode {
    /// A fresh node: no children, no parent, nothing counted.
    pub open spec fn is_fresh(self) -> bool {
        &&& self.skip_bits == 0
        &&& self.coverage == 0
        &&& self.collapsed_cost_sum == 0
        &&& self.preferred_overlap == 0
        &&& self.preferred_overlap_in_coverage == 0
        &&& self.children[0] == INVALID
        &&& self.children[1] == INVALID
        &&& self.parent == INVALID
        &&& self.leaf_count == 0
        &&& self.generation == 0
        &&& self.depth == 0
        &&& !self.is_leaf
        &&& self.skip_len == 0
        &&& !self.is_excluded
    }

    /// A fresh node.
    pub fn fresh() -> (r: TrieNode)
        ensures
            r.is_fresh(),
    {
        TrieNode {
            skip_bits: 0,
            coverage: 0,
            collapsed_cost_sum: 0,
            preferred_overlap: 0,
            preferred_overlap_in_coverage: 0,
            children: [INVALID, INVALID],
            parent: INVALID,
            leaf_count: 0,
            generation: 0,
            depth: 0,
            is_leaf: false,
            skip_len: 0,
            is_excluded: false,
        }
    }
}

impl Default for TrieNode {
    fn default() -> (r: TrieNode)
        ensures
            r.is_fresh(),
    {
        TrieNode::fresh()
    }
}

/// Arena-allocated path-compressed binary trie for IPv4/IPv6 prefixes.
pub struct BinaryTrie {
    /// Flat arena holding all trie nodes.
    pub arena: Vec<TrieNode>,
    /// Index of the root node.
    pub root: NodeIdx,
    /// Address family bit width (32 for IPv4, 128 for IPv6).
    pub addr_bits: u8,
}

/// The two arenas have the same tree shape (links, depths, compressed paths).
pub open spec fn same_shape(a: Seq<TrieNode>, b: Seq<TrieNode>) -> bool {
    &&& a.len() == b.len()
    &&& forall|i: int| 0 <= i < a.len() ==> {
        &&& (#[trigger] a[i]).children == b[i].children
        &&& a[i].parent == b[i].parent
        &&& a[i].depth == b[i].depth
        &&& a[i].skip_len == b[i].skip_len
        &&& a[i].skip_bits == b[i].skip_bits
        &&& a[i].is_leaf == b[i].is_leaf
    }
}

impl BinaryTrie {
    pub open spec fn node(self, i: int) -> TrieNode {
        self.arena@[i]
    }

    /// `i` is the index of a node.
    pub open spec fn valid(self, i: int) -> bool {
        0 <= i < self.arena@.len()
    }

    /// Structural well-formedness of the arena: valid links, parent/child
    /// agreement, depths increasing along each link, and prefix lengths within
    /// the family's width.
    pub open spec fn wf(self) -> bool {
        &&& self.addr_bits == 32 || self.addr_bits == 128
        &&& 1 <= self.arena@.len() <= u32::MAX
        &&& self.valid(self.root as int)
        &&& self.node(self.root as int).parent == INVALID
        &&& self.node(self.root as int).depth == 0
        &&& self.node(self.root as int).skip_len == 0
        &&& forall|i: int| #![trigger self.arena@[i]] self.valid(i) ==> {
            &&& self.node(i).depth + self.node(i).skip_len <= self.addr_bits
            &&& self.node(i).skip_bits < pow2(self.node(i).skip_len as nat)
            &&& i != self.root ==> {
                &&& self.valid(self.node(i).parent as int)
                &&& self.node(i).depth == self.node(self.node(i).parent as int).depth
                    + self.node(self.node(i).parent as int).skip_len + 1
            }
            &&& forall|b: int| 0 <= b < 2 ==> {
                let c = #[trigger] self.node(i).children[b];
                c == INVALID || (self.valid(c as int) && self.node(c as int).parent == i && c != self.root)
            }
            &&& self.node(i).children[0] == INVALID || self.node(i).children[0] != self.node(i).children[1]
        }
    }

    /// `a` is `j` or an ancestor of `j` along parent links.
    pub open spec fn anc(self, j: int, a: int) -> bool
        decreases self.node(j).depth,
    {
        if j == a {
            true
        } else if j != self.root && self.valid(j) && self.valid(self.node(j).parent as int)
            && self.node(self.node(j).parent as int).depth < self.node(j).depth {
            self.anc(self.node(j).parent as int, a)
        } else {
            false
        }
    }

    /// The nodes at or below `a` (by parent links).
    pub open spec fn desc(self, a: int) -> Set<int> {
        Set::new(|j: int| self.valid(j) && self.anc(j, a))
    }

    /// Every node's leaf count is at most the number of nodes at or below it.
    pub open spec fn counts_bounded(self) -> bool {
        forall|i: int| self.valid(i) ==> (#[trigger] self.node(i)).leaf_count <= self.desc(i).len()
    }

    /// The leaf count of child `b` of node `i` (0 for no child).
    pub open spec fn child_count(self, i: int, b: int) -> int {
        let c = self.node(i).children[b];
        if c == INVALID { 0 } else { self.node(c as int).leaf_count as int }
    }

    pub(crate) proof fn lemma_anc_depth(self, j: int, a: int)
        requires
            self.wf(),
            self.anc(j, a),
        ensures
            j == a || self.node(a).depth < self.node(j).depth,
        decreases self.node(j).depth,
    {
        if j != a {
            let p = self.node(j).parent as int;
            self.lemma_anc_depth(p, a);
        }
    }

    pub(crate) proof fn lemma_anc_child(self, j: int, c: int, i: int)
        requires
            self.wf(),
            self.valid(i),
            self.valid(c),
            c != self.root,
            self.node(c).parent == i,
            self.anc(j, c),
        ensures
            self.anc(j, i),
        decreases self.node(j).depth,
    {
        assert(self.node(c) == self.arena@[c]);
        if j == c {
            assert(self.node(c).depth == self.node(i).depth + self.node(i).skip_len + 1);
            assert(self.anc(i, i));
        } else {
            let p = self.node(j).parent as int;
            self.lemma_anc_child(p, c, i);
        }
    }

    pub(crate) proof fn lemma_anc_unique(self, j: int, a: int, b: int)
        requires
            self.wf(),
            self.anc(j, a),
            self.anc(j, b),
            self.node(a).depth == self.node(b).depth,
        ensures
            a == b,
        decreases self.node(j).depth,
    {
        if j == a {
            if j != b {
                let p = self.node(j).parent as int;
                self.lemma_anc_depth(p, b);
            }
        } else if j == b {
            let p = self.node(j).parent as int;
            self.lemma_anc_depth(p, a);
        } else {
            let p = self.node(j).parent as int;
            self.lemma_anc_unique(p, a, b);
        }
    }

    pub(crate) proof fn lemma_desc_finite(self, a: int)
        requires
            self.wf(),
        ensures
            self.desc(a).finite(),
            self.desc(a).len() <= self.arena@.len(),
    {
        lemma_int_range(0, self.arena@.len() as int);
        assert(self.desc(a).subset_of(set_int_range(0, self.arena@.len() as int)));
        lemma_len_subset(self.desc(a), set_int_range(0, self.arena@.len() as int));
    }

    /// The children's descendant sets are disjoint and below the node, which
    /// itself is in neither: their sizes add up to less than the node's.
    pub(crate) proof fn lemma_desc_children(self, i: int)
        requires
            self.wf(),
            self.valid(i),
        ensures
            ({
                let c0 = self.node(i).children[0];
                let c1 = self.node(i).children[1];
                let s0 = if c0 == INVALID { 0 } else { self.desc(c0 as int).len() as int };
                let s1 = if c1 == INVALID { 0 } else { self.desc(c1 as int).len() as int };
                s0 + s1 + 1 <= self.desc(i).len()
            }),
            self.desc(i).contains(i),
            self.desc(i).len() >= 1,
    {
        assert(self.arena@[i] == self.node(i));
        let c0 = self.node(i).children[0];
        let c1 = self.node(i).children[1];
        self.lemma_desc_finite(i);
        let e: Set<int> = Set::empty();
        let d0 = if c0 == INVALID { e } else { self.desc(c0 as int) };
        let d1 = if c1 == INVALID { e } else { self.desc(c1 as int) };
        assert forall|j: int| d0.contains(j) implies self.desc(i).contains(j) by {
            self.lemma_anc_child(j, c0 as int, i);
        }
        assert forall|j: int| d1.contains(j) implies self.desc(i).contains(j) by {
            self.lemma_anc_child(j, c1 as int, i);
        }
        assert(!d0.contains(i)) by {
            if d0.contains(i) {
                self.lemma_anc_depth(i, c0 as int);
            }
        }
        assert(!d1.contains(i)) by {
            if d1.contains(i) {
                self.lemma_anc_depth(i, c1 as int);
            }
        }
        assert(d0.disjoint(d1)) by {
            assert forall|j: int| d0.contains(j) implies !d1.contains(j) by {
                if d1.contains(j) {
                    self.lemma_anc_unique(j, c0 as int, c1 as int);
                }
            }
        }
        let u = d0 + d1;
        assert(u.insert(i).subset_of(self.desc(i)));
        if c0 != INVALID {
            self.lemma_desc_finite(c0 as int);
        }
        if c1 != INVALID {
            self.lemma_desc_finite(c1 as int);
        }
        lemma_set_disjoint_lens(d0, d1);
        lemma_len_subset(u.insert(i), self.desc(i));
        assert(self.anc(i, i));
    }

    // -----------------------------------------------------------------------

    /// The total number of addresses in this node's prefix range; the whole
    /// address space at the root position (depth 0, no compressed path) is
    /// reported as `u128::MAX`.
    pub open spec fn capacity_spec(self, i: int) -> int {
        let n = self.node(i);
        if n.depth == 0 && n.skip_len == 0 {
            u128::MAX as int
        } else if n.depth + n.skip_len == self.addr_bits {
            1
        } else if self.addr_bits - (n.depth + n.skip_len) >= 128 {
            u128::MAX as int
        } else {
            pow2((self.addr_bits - (n.depth + n.skip_len)) as nat) as int
        }
    }

    /// The number of addresses in this node's prefix range.
    pub fn capacity(&self, node_idx: NodeIdx) -> (r: u128)
        requires
            self.wf(),
            self.valid(node_idx as int),
        ensures
            r as int == self.capacity_spec(node_idx as int),
            r >= 1,
    {
        proof {
            assert(self.arena@[node_idx as int] == self.node(node_idx as int));
        }
        let node = &self.arena[node_idx as usize];
        if node.depth == 0 && node.skip_len == 0 {
            return u128::MAX;
        }
        let prefix_len = node.depth as u16 + node.skip_len as u16;
        if prefix_len == self.addr_bits as u16 {
            return 1;
        }
        let shift = self.addr_bits as u16 - prefix_len;
        if shift >= 128 {
            return u128::MAX;
        }
        proof {
            lemma_pow2_pos(shift as nat);
        }
        pow2_u128(shift as u8)
    }

    /// The over-coverage cost of collapsing this node into one leaf: the
    /// addresses of its range that its original leaves do not cover.
    pub fn collapse_cost(&self, node_idx: NodeIdx) -> (r: u128)
        requires
            self.wf(),
            self.valid(node_idx as int),
        ensures
            r as int == if self.capacity_spec(node_idx as int) >= self.node(node_idx as int).coverage {
                self.capacity_spec(node_idx as int) - self.node(node_idx as int).coverage
            } else {
                0
            },
    {
        self.capacity(node_idx).saturating_sub(self.arena[node_idx as usize].coverage)
    }

    /// Collapse this node into a leaf, dropping its children.
    pub fn collapse(&mut self, node_idx: NodeIdx)
        requires
            old(self).valid(node_idx as int),
        ensures
            final(self).arena@ == old(self).arena@.update(node_idx as int, TrieNode {
                is_leaf: true,
                leaf_count: 1,
                children: [INVALID, INVALID],
                ..old(self).arena@[node_idx as int]
            }),
            final(self).root == old(self).root,
            final(self).addr_bits == old(self).addr_bits,
    {
        let mut node = self.arena[node_idx as usize];
        node.is_leaf = true;
        node.leaf_count = 1;
        node.children = [INVALID, INVALID];
        self.arena.set(node_idx as usize, node);
    }

    /// Recompute a non-leaf node's leaf count from its children (leaves keep theirs).
    pub fn update_leaf_count(&mut self, node_idx: NodeIdx)
        requires
            old(self).wf(),
            old(self).counts_bounded(),
            old(self).valid(node_idx as int),
        ensures
            final(self).arena@ == old(self).arena@.update(node_idx as int, TrieNode {
                leaf_count: if old(self).node(node_idx as int).is_leaf {
                    old(self).node(node_idx as int).leaf_count
                } else {
                    (old(self).child_count(node_idx as int, 0) + old(self).child_count(node_idx as int, 1)) as u32
                },
                ..old(self).arena@[node_idx as int]
            }),
            final(self).root == old(self).root,
            final(self).addr_bits == old(self).addr_bits,
            old(self).child_count(node_idx as int, 0) + old(self).child_count(node_idx as int, 1) <= u32::MAX,
    {
        let ghost i = node_idx as int;
        proof {
            assert(self.arena@[i] == self.node(i));
            self.lemma_desc_children(i);
            self.lemma_desc_finite(i);
            let c0 = self.node(i).children[0];
            let c1 = self.node(i).children[1];
            if c0 != INVALID {
                assert(self.arena@[c0 as int] == self.node(c0 as int));
            }
            if c1 != INVALID {
                assert(self.arena@[c1 as int] == self.node(c1 as int));
            }
        }
        let node = self.arena[node_idx as usize];
        if node.is_leaf {
            return;
        }
        let children = node.children;
        let mut count: u32 = 0;
        if children[0] != INVALID {
            count = count + self.arena[children[0] as usize].leaf_count;
        }
        if children[1] != INVALID {
            count = count + self.arena[children[1] as usize].leaf_count;
        }
        let mut n = node;
        n.leaf_count = count;
        self.arena.set(node_idx as usize, n);
    }

    /// The number of leaf prefixes of the trie (the root's leaf count).
    pub fn total_leaf_count(&self) -> (r: usize)
        requires
            self.valid(self.root as int),
        ensures
            r == self.node(self.root as int).leaf_count,
    {
        self.arena[self.root as usize].leaf_count as usize
    }

    /// The leaves below node `i`, left to right (bit 0 before bit 1).
    pub open spec fn leaves_of(self, i: int) -> Seq<NodeIdx>
        decreases 256 - self.node(i).depth,
    {
        let n = self.node(i);
        if n.is_leaf {
            seq![i as NodeIdx]
        } else {
            let l = if n.children[0] != INVALID && self.valid(n.children[0] as int)
                && self.node(n.children[0] as int).depth > n.depth {
                self.leaves_of(n.children[0] as int)
            } else {
                Seq::empty()
            };
            let r = if n.children[1] != INVALID && self.valid(n.children[1] as int)
                && self.node(n.children[1] as int).depth > n.depth {
                self.leaves_of(n.children[1] as int)
            } else {
                Seq::empty()
            };
            l + r
        }
    }

    pub(crate) proof fn lemma_leaves_valid(self, i: int)
        requires
            self.wf(),
            self.valid(i),
        ensures
            forall|k: int| 0 <= k < self.leaves_of(i).len() ==> self.valid(#[trigger] self.leaves_of(i)[k] as int)
                && self.node(self.leaves_of(i)[k] as int).is_leaf,
        decreases 256 - self.node(i).depth,
    {
        assert(self.arena@[i] == self.node(i));
        let n = self.node(i);
        if !n.is_leaf {
            let c0 = n.children[0] as int;
            let c1 = n.children[1] as int;
            let l = if n.children[0] != INVALID { self.leaves_of(c0) } else { Seq::empty() };
            let r = if n.children[1] != INVALID { self.leaves_of(c1) } else { Seq::empty() };
            if n.children[0] != INVALID {
                assert(self.node(c0).depth > n.depth);
                self.lemma_leaves_valid(c0);
            }
            if n.children[1] != INVALID {
                assert(self.node(c1).depth > n.depth);
                self.lemma_leaves_valid(c1);
            }
            assert(self.leaves_of(i) == l + r);
            assert forall|k: int| 0 <= k < self.leaves_of(i).len() implies self.valid(#[trigger] self.leaves_of(i)[k] as int)
                && self.node(self.leaves_of(i)[k] as int).is_leaf by {
                if k < l.len() {
                    assert(self.leaves_of(i)[k] == l[k]);
                } else {
                    assert(self.leaves_of(i)[k] == r[k - l.len()]);
                }
            }
        }
    }

    /// Collect all leaf node indices in depth-first order.
    pub fn extract_leaf_indices(&self) -> (r: Vec<NodeIdx>)
        requires
            self.wf(),
        ensures
            r@ == self.leaves_of(self.root as int),
            forall|k: int| 0 <= k < r@.len() ==> self.valid(#[trigger] r@[k] as int) && self.node(r@[k] as int).is_leaf,
    {
        let mut leaves: Vec<NodeIdx> = Vec::new();
        self.collect_leaves(self.root, &mut leaves);
        proof {
            assert(leaves@ =~= self.leaves_of(self.root as int));
            self.lemma_leaves_valid(self.root as int);
        }
        leaves
    }

    fn collect_leaves(&self, node_idx: NodeIdx, out: &mut Vec<NodeIdx>)
        requires
            self.wf(),
            self.valid(node_idx as int),
        ensures
            final(out)@ == old(out)@ + self.leaves_of(node_idx as int),
        decreases 256 - self.node(node_idx as int).depth,
    {
        proof {
            assert(self.arena@[node_idx as int] == self.node(node_idx as int));
        }
        let node = &self.arena[node_idx as usize];
        if node.is_leaf {
            out.push(node_idx);
            return;
        }
        let ghost start = out@;
        let c0 = node.children[0];
        let c1 = node.children[1];
        if c0 != INVALID {
            proof {
                assert(self.node(c0 as int).depth > self.node(node_idx as int).depth);
            }
            self.collect_leaves(c0, out);
        }
        let ghost mid = out@;
        if c1 != INVALID {
            proof {
                assert(self.node(c1 as int).depth > self.node(node_idx as int).depth);
            }
            self.collect_leaves(c1, out);
        }
        proof {
            assert(out@ =~= start + self.leaves_of(node_idx as int));
        }
    }

    /// Prefix length of node `i`: its depth plus its compressed path.
    pub open spec fn plen(self, i: int) -> int {
        self.node(i).depth + self.node(i).skip_len
    }

    /// The path bits from the root to the end of node `i`'s compressed path,
    /// as a number of `plen(i)` bits.
    pub open spec fn path_value(self, i: int) -> int
        decreases self.node(i).depth,
    {
        let n = self.node(i);
        if i != self.root && self.valid(n.parent as int) && self.node(n.parent as int).depth < n.depth {
            let p = n.parent as int;
            let b: int = if self.node(p).children[1] == i as NodeIdx { 1 } else { 0 };
            (self.path_value(p) * 2 + b) * pow2(n.skip_len as nat) + n.skip_bits
        } else {
            n.skip_bits as int
        }
    }

    pub(crate) proof fn lemma_path_value_bound(self, i: int)
        requires
            self.wf(),
            self.valid(i),
        ensures
            0 <= self.path_value(i) < pow2(self.plen(i) as nat),
        decreases self.node(i).depth,
    {
        assert(self.arena@[i] == self.node(i));
        let n = self.node(i);
        if i != self.root {
            let p = n.parent as int;
            assert(self.arena@[p] == self.node(p));
            self.lemma_path_value_bound(p);
            let b: int = if self.node(p).children[1] == i as NodeIdx { 1 } else { 0 };
            let v = self.path_value(p);
            lemma_pow2_unfold(self.plen(p) as nat + 1);
            lemma_pow2_pos(n.skip_len as nat);
            assert(v * 2 + b < pow2(self.plen(p) as nat + 1));
            lemma_mul_pow2_bound(v * 2 + b, (self.plen(p) + 1) as nat, n.skip_len as nat, n.skip_bits as int);
            assert(self.plen(i) == self.plen(p) + 1 + n.skip_len);
        } else {
            lemma_pow2_pos(n.skip_len as nat);
        }
    }

    /// Reconstruct the prefix of a node: its path bits, placed from the top bit
    /// of a u128 down, and its prefix length.
    pub(crate) fn node_prefix_bits(&self, node_idx: NodeIdx) -> (r: (u128, u8))
        requires
            self.wf(),
            self.valid(node_idx as int),
        ensures
            r.1 as int == self.plen(node_idx as int),
            r.0 as int == self.path_value(node_idx as int) * pow2((128 - r.1) as nat),
    {
        let ghost target = node_idx as int;
        // Walk from the node up to the root.
        let mut chain: Vec<NodeIdx> = Vec::new();
        let mut cur = node_idx;
        while cur != self.root
            invariant
                self.wf(),
                self.valid(cur as int),
                forall|m: int| 0 <= m < chain@.len() ==> self.valid(#[trigger] chain@[m] as int) && chain@[m] != self.root,
                chain@.len() > 0 ==> chain@[0] == node_idx,
                forall|m: int| 0 <= m < chain@.len() - 1 ==> #[trigger] chain@[m + 1] == self.node(chain@[m] as int).parent,
                chain@.len() > 0 ==> cur == self.node(chain@[chain@.len() - 1] as int).parent,
                chain@.len() == 0 ==> cur == node_idx,
            decreases self.node(cur as int).depth,
        {
            proof {
                assert(self.arena@[cur as int] == self.node(cur as int));
            }
            chain.push(cur);
            cur = self.arena[cur as usize].parent;
        }
        proof {
            assert(self.arena@[self.root as int] == self.node(self.root as int));
            vstd::arithmetic::power2::lemma2_to64();
        }
        let mut val: u128 = 0;
        let mut pos: u16 = 0;
        let mut k: usize = chain.len();
        while k > 0
            invariant
                self.wf(),
                k <= chain@.len(),
                forall|m: int| 0 <= m < chain@.len() ==> self.valid(#[trigger] chain@[m] as int) && chain@[m] != self.root,
                chain@.len() > 0 ==> chain@[0] == node_idx,
                forall|m: int| 0 <= m < chain@.len() - 1 ==> #[trigger] chain@[m + 1] == self.node(chain@[m] as int).parent,
                chain@.len() > 0 ==> self.root == self.node(chain@[chain@.len() - 1] as int).parent,
                chain@.len() == 0 ==> node_idx == self.root,
                ({
                    let lv: int = if k == chain@.len() { self.root as int } else { chain@[k as int] as int };
                    &&& val as int == self.path_value(lv)
                    &&& pos as int == self.plen(lv)
                }),
            decreases k,
        {
            k = k - 1;
            let idx = chain[k];
            let ghost prev: int = if k + 1 == chain@.len() { self.root as int } else { chain@[k + 1] as int };
            proof {
                assert(self.arena@[idx as int] == self.node(idx as int));
                assert(self.node(idx as int).parent as int == prev);
                assert(self.arena@[prev] == self.node(prev));
                self.lemma_path_value_bound(prev);
                self.lemma_path_value_bound(idx as int);
            }
            let node = self.arena[idx as usize];
            let p = self.arena[node.parent as usize];
            let b: u128 = if p.children[1] == idx { 1 } else { 0 };
            proof {
                lemma_pow2_le(self.plen(prev) as nat + 1, 128);
                lemma_pow2_128();
                lemma_pow2_unfold(self.plen(prev) as nat + 1);
                lemma_pow2_pos(node.skip_len as nat);
                lemma_mul_pow2_bound(val * 2 + b, (self.plen(prev) + 1) as nat, node.skip_len as nat, node.skip_bits as int);
                lemma_pow2_le(self.plen(idx as int) as nat, 128);
                assert(node.skip_len < 128);
            }
            let d = pow2_u128(node.skip_len);
            val = (val * 2 + b) * d + node.skip_bits;
            pos = pos + 1 + node.skip_len as u16;
        }
        proof {
            assert(self.arena@[target] == self.node(target));
            self.lemma_path_value_bound(target);
        }
        let len = pos as u8;
        if len == 0 {
            proof {
                lemma_pow2_pos(0);
                assert(val == 0);
            }
            return (0, 0);
        }
        proof {
            lemma_pow2_128();
            lemma_pow2_pos((128 - len) as nat);
            lemma_mul_pow2_bound(val as int, len as nat, (128 - len) as nat, 0);
        }
        let d = pow2_u128(128 - len);
        (val * d, len)
    }
}

/// `a < 2^p` and `r < 2^s` give `a * 2^s + r < 2^(p + s)`.
pub proof fn lemma_mul_pow2_bound(a: int, p: nat, s: nat, r: int)
    requires
        0 <= a < pow2(p),
        0 <= r < pow2(s),
    ensures
        0 <= a * pow2(s) + r < pow2(p + s),
{
    lemma_pow2_pos(s);
    lemma_pow2_adds(p, s);
    vstd::arithmetic::mul::lemma_mul_inequality(a + 1, pow2(p) as int, pow2(s) as int);
    vstd::arithmetic::mul::lemma_mul_is_distributive_add_other_way(pow2(s) as int, a, 1);
    vstd::arithmetic::mul::lemma_mul_nonnegative(a, pow2(s) as int);
}

} // verus!
