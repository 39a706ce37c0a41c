//! Walking a built trie: invalidating subtrees, the address interval of a
//! node, extracting the leaves as prefixes, and marking nodes whose collapse
//! would expose excluded addresses.
use vstd::prelude::*;
use vstd::arithmetic::power2::{pow2, lemma_pow2_pos, lemma_pow2_adds};
use vstd::arithmetic::mul::{lemma_mul_is_associative, lemma_mul_is_commutative};
use vstd::arithmetic::div_mod::{lemma_div_by_multiple, lemma_fundamental_div_mod};
use crate::prefix::{Prefix, pow2_u128, lemma_pow2_128, lemma_pow2_le};
use crate::trie::{BinaryTrie, TrieNode, NodeIdx, INVALID, lemma_mul_pow2_bound};
use crate::lossless::SourceMapPrefix;
use crate::exclusion::ExclusionSet;
use crate::preferred::PreferredSet;
use crate::trie::same_shape;

verus! {

/// `(v * 2^(a + b)) / 2^b == v * 2^a`.
proof fn lemma_shift_down(v: int, a: nat, b: nat)
    requires
        0 <= v,
    ensures
        (v * pow2(a + b)) / (pow2(b) as int) == v * pow2(a),
{
    lemma_pow2_pos(b);
    lemma_pow2_adds(a, b);
    lemma_mul_is_associative(v, pow2(a) as int, pow2(b) as int);
    lemma_div_by_multiple(v * pow2(a), pow2(b) as int);
}

impl BinaryTrie {
    /// `j` is `i` or lies below it along child links (leaves' children included).
    pub open spec fn descends(self, i: int, j: int) -> bool
        decreases 256 - self.node(i).depth,
    {
        if i == j {
            true
        } else if !self.valid(i) {
            false
        } else {
            let c0 = self.node(i).children[0];
            let c1 = self.node(i).children[1];
            ||| (c0 != INVALID && self.valid(c0 as int) && self.node(c0 as int).depth > self.node(i).depth
                && self.descends(c0 as int, j))
            ||| (c1 != INVALID && self.valid(c1 as int) && self.node(c1 as int).depth > self.node(i).depth
                && self.descends(c1 as int, j))
        }
    }

    pub(crate) proof fn lemma_descends_anc(self, i: int, j: int)
        requires
            self.wf(),
            self.valid(i),
            self.descends(i, j),
        ensures
            self.valid(j),
            self.anc(j, i),
        decreases 256 - self.node(i).depth,
    {
        assert(self.arena@[i] == self.node(i));
        if i == j {
            assert(self.anc(j, i));
        } else {
            let c0 = self.node(i).children[0];
            let c1 = self.node(i).children[1];
            if c0 != INVALID && self.valid(c0 as int) && self.node(c0 as int).depth > self.node(i).depth
                && self.descends(c0 as int, j) {
                self.lemma_descends_anc(c0 as int, j);
                self.lemma_anc_child(j, c0 as int, i);
            } else {
                self.lemma_descends_anc(c1 as int, j);
                self.lemma_anc_child(j, c1 as int, i);
            }
        }
    }

    /// What lies below the two children of a node is disjoint and does not hold the node.
    proof fn lemma_descends_disjoint(self, i: int, j: int)
        requires
            self.wf(),
            self.valid(i),
        ensures
            ({
                let c0 = self.node(i).children[0];
                let c1 = self.node(i).children[1];
                &&& c0 != INVALID && c1 != INVALID ==> !(self.descends(c0 as int, j) && self.descends(c1 as int, j))
                &&& c0 != INVALID ==> !self.descends(c0 as int, i)
                &&& c1 != INVALID ==> !self.descends(c1 as int, i)
            }),
    {
        assert(self.arena@[i] == self.node(i));
        let c0 = self.node(i).children[0];
        let c1 = self.node(i).children[1];
        if c0 != INVALID {
            assert(self.arena@[c0 as int] == self.node(c0 as int));
            if self.descends(c0 as int, i) {
                self.lemma_descends_anc(c0 as int, i);
                self.lemma_anc_depth(i, c0 as int);
            }
        }
        if c1 != INVALID {
            assert(self.arena@[c1 as int] == self.node(c1 as int));
            if self.descends(c1 as int, i) {
                self.lemma_descends_anc(c1 as int, i);
                self.lemma_anc_depth(i, c1 as int);
            }
        }
        if c0 != INVALID && c1 != INVALID && self.descends(c0 as int, j) && self.descends(c1 as int, j) {
            self.lemma_descends_anc(c0 as int, j);
            self.lemma_descends_anc(c1 as int, j);
            self.lemma_anc_unique(j, c0 as int, c1 as int);
        }
    }

    /// Generation counters differ only below `i` (not at `i`), by one (wrapping).
    pub open spec fn bumped_below(a: Seq<TrieNode>, b: Seq<TrieNode>, t: BinaryTrie, i: int) -> bool {
        &&& b.len() == a.len()
        &&& forall|j: int| 0 <= j < a.len() ==> #[trigger] b[j] == if t.descends(i, j) && j != i {
            TrieNode { generation: a[j].generation.wrapping_add(1), ..a[j] }
        } else {
            a[j]
        }
    }

    /// Generation counters differ exactly at the nodes at or below `c`, by one (wrapping).
    pub open spec fn bumped_from(a: Seq<TrieNode>, b: Seq<TrieNode>, t: BinaryTrie, c: int) -> bool {
        &&& b.len() == a.len()
        &&& forall|j: int| 0 <= j < a.len() ==> #[trigger] b[j] == if t.descends(c, j) {
            TrieNode { generation: a[j].generation.wrapping_add(1), ..a[j] }
        } else {
            a[j]
        }
    }

    /// Bumping one child's generation and then everything below it.
    fn bump_child(&mut self, c: NodeIdx)
        requires
            old(self).wf(),
            old(self).valid(c as int),
        ensures
            final(self).root == old(self).root,
            final(self).addr_bits == old(self).addr_bits,
            Self::bumped_from(old(self).arena@, final(self).arena@, *old(self), c as int),
        decreases 256 - old(self).node(c as int).depth, 1int,
    {
        let ghost a = *self;
        let mut n = self.arena[c as usize];
        n.generation = n.generation.wrapping_add(1);
        self.arena.set(c as usize, n);
        let ghost s1 = *self;
        proof {
            assert(same_links_gen(a.arena@, s1.arena@));
            lemma_gen_wf(a, s1);
            lemma_gen_descends(a, s1);
        }
        self.invalidate_subtree(c);
        proof {
            assert forall|j: int| 0 <= j < a.arena@.len() implies #[trigger] self.arena@[j] == if a.descends(c as int, j) {
                TrieNode { generation: a.arena@[j].generation.wrapping_add(1), ..a.arena@[j] }
            } else {
                a.arena@[j]
            } by {
                assert(s1.descends(c as int, j) == a.descends(c as int, j));
            }
        }
    }

    /// Invalidates all descendants by incrementing their generation counters
    /// (wrapping), so that queue entries recorded for them are recognized as stale.
    pub fn invalidate_subtree(&mut self, node_idx: NodeIdx)
        requires
            old(self).wf(),
            old(self).valid(node_idx as int),
        ensures
            final(self).root == old(self).root,
            final(self).addr_bits == old(self).addr_bits,
            Self::bumped_below(old(self).arena@, final(self).arena@, *old(self), node_idx as int),
        decreases 256 - old(self).node(node_idx as int).depth, 0int,
    {
        let ghost a = *self;
        let ghost i = node_idx as int;
        proof {
            assert(a.arena@[i] == a.node(i));
            a.lemma_descends_disjoint(i, i);
        }
        let children = self.arena[node_idx as usize].children;
        let c0 = children[0];
        let c1 = children[1];
        if c0 != INVALID {
            proof {
                assert(a.arena@[c0 as int] == a.node(c0 as int));
            }
            self.bump_child(c0);
        }
        let ghost m = *self;
        proof {
            if c0 != INVALID {
                assert(same_links_gen(a.arena@, m.arena@)) by {
                    assert forall|j: int| 0 <= j < a.arena@.len() implies #[trigger] m.arena@[j]
                        == TrieNode { generation: m.arena@[j].generation, ..a.arena@[j] } by {}
                }
            } else {
                assert(m == a);
                assert(same_links_gen(a.arena@, m.arena@)) by {
                    assert forall|j: int| 0 <= j < a.arena@.len() implies #[trigger] m.arena@[j]
                        == TrieNode { generation: m.arena@[j].generation, ..a.arena@[j] } by {}
                }
            }
            lemma_gen_wf(a, m);
            lemma_gen_descends(a, m);
        }
        if c1 != INVALID {
            proof {
                assert(a.arena@[c1 as int] == a.node(c1 as int));
                assert(m.arena@[c1 as int].depth == a.arena@[c1 as int].depth);
            }
            self.bump_child(c1);
        }
        proof {
            assert forall|j: int| 0 <= j < a.arena@.len() implies #[trigger] self.arena@[j] == if a.descends(i, j) && j != i {
                TrieNode { generation: a.arena@[j].generation.wrapping_add(1), ..a.arena@[j] }
            } else {
                a.arena@[j]
            } by {
                a.lemma_descends_disjoint(i, j);
                if c0 != INVALID && a.descends(c0 as int, j) {
                    assert(a.descends(i, j));
                }
                if c1 != INVALID {
                    assert(m.descends(c1 as int, j) == a.descends(c1 as int, j));
                    if a.descends(c1 as int, j) {
                        assert(a.descends(i, j));
                    }
                }
            }
        }
    }
}

/// The arenas agree on everything but generation counters.
pub open spec fn same_links_gen(a: Seq<TrieNode>, b: Seq<TrieNode>) -> bool {
    &&& a.len() == b.len()
    &&& forall|j: int| 0 <= j < a.len() ==> #[trigger] b[j] == TrieNode { generation: b[j].generation, ..a[j] }
}

pub(crate) proof fn lemma_gen_wf(a: BinaryTrie, b: BinaryTrie)
    requires
        a.wf(),
        same_links_gen(a.arena@, b.arena@),
        a.root == b.root,
        a.addr_bits == b.addr_bits,
    ensures
        b.wf(),
{
    assert(crate::trie::same_shape(a.arena@, b.arena@)) by {
        assert forall|i: int| 0 <= i < a.arena@.len() implies {
            &&& (#[trigger] a.arena@[i]).children == b.arena@[i].children
            &&& a.arena@[i].parent == b.arena@[i].parent
            &&& a.arena@[i].depth == b.arena@[i].depth
            &&& a.arena@[i].skip_len == b.arena@[i].skip_len
            &&& a.arena@[i].skip_bits == b.arena@[i].skip_bits
            &&& a.arena@[i].is_leaf == b.arena@[i].is_leaf
        } by {
            assert(b.arena@[i] == TrieNode { generation: b.arena@[i].generation, ..a.arena@[i] });
        }
    }
    BinaryTrie::lemma_shape_wf(a, b);
}

proof fn lemma_gen_descends(a: BinaryTrie, b: BinaryTrie)
    requires
        same_links_gen(a.arena@, b.arena@),
    ensures
        forall|i: int, j: int| #[trigger] b.descends(i, j) == a.descends(i, j),
{
    assert forall|i: int, j: int| #[trigger] b.descends(i, j) == a.descends(i, j) by {
        lemma_gen_descends_at(a, b, i, j);
    }
}

proof fn lemma_gen_descends_at(a: BinaryTrie, b: BinaryTrie, i: int, j: int)
    requires
        same_links_gen(a.arena@, b.arena@),
    ensures
        b.descends(i, j) == a.descends(i, j),
    decreases 256 - a.node(i).depth,
{
    if a.valid(i) {
        assert(b.arena@[i] == TrieNode { generation: b.arena@[i].generation, ..a.arena@[i] });
        let c0 = a.node(i).children[0];
        let c1 = a.node(i).children[1];
        if c0 != INVALID && a.valid(c0 as int) {
            assert(b.arena@[c0 as int] == TrieNode { generation: b.arena@[c0 as int].generation, ..a.arena@[c0 as int] });
            if a.node(c0 as int).depth > a.node(i).depth {
                lemma_gen_descends_at(a, b, c0 as int, j);
            }
        }
        if c1 != INVALID && a.valid(c1 as int) {
            assert(b.arena@[c1 as int] == TrieNode { generation: b.arena@[c1 as int].generation, ..a.arena@[c1 as int] });
            if a.node(c1 as int).depth > a.node(i).depth {
                lemma_gen_descends_at(a, b, c1 as int, j);
            }
        }
    }
}

impl BinaryTrie {
    /// First address of node `i`'s prefix range, in the family's own bits.
    pub open spec fn node_start(self, i: int) -> int {
        self.path_value(i) * pow2((self.addr_bits - self.plen(i)) as nat)
    }

    /// Last address of node `i`'s prefix range.
    pub open spec fn node_end(self, i: int) -> int {
        self.node_start(i) + pow2((self.addr_bits - self.plen(i)) as nat) - 1
    }

    /// Compute the interval (start, end inclusive) of a prefix given its bits
    /// (placed from the top bit of a u128 down) and its length.
    fn interval_from_prefix(&self, bits: u128, prefix_len: u8) -> (r: (u128, u128))
        requires
            self.addr_bits == 32 || self.addr_bits == 128,
            prefix_len <= self.addr_bits,
            bits as int % pow2((128 - prefix_len) as nat) as int == 0,
        ensures
            ({
                let v = bits as int / pow2((128 - prefix_len) as nat) as int;
                let h = (self.addr_bits - prefix_len) as nat;
                &&& r.0 as int == v * pow2(h)
                &&& r.1 as int == v * pow2(h) + pow2(h) - 1
            }),
    {
        let ghost v = bits as int / pow2((128 - prefix_len) as nat) as int;
        proof {
            lemma_pow2_pos((128 - prefix_len) as nat);
            lemma_fundamental_div_mod(bits as int, pow2((128 - prefix_len) as nat) as int);
            lemma_mul_is_commutative(v, pow2((128 - prefix_len) as nat) as int);
            lemma_pow2_128();
            lemma_pow2_adds(prefix_len as nat, (128 - prefix_len) as nat);
            lemma_mul_is_commutative(pow2(prefix_len as nat) as int, pow2((128 - prefix_len) as nat) as int);
            vstd::arithmetic::div_mod::lemma_multiply_divide_lt(bits as int, pow2((128 - prefix_len) as nat) as int, pow2(prefix_len as nat) as int);
            vstd::arithmetic::div_mod::lemma_div_pos_is_pos(bits as int, pow2((128 - prefix_len) as nat) as int);
        }
        if self.addr_bits == 32 {
            let h: u8 = 32 - prefix_len;
            proof {
                lemma_shift_down(v, h as nat, 96);
                vstd::bits::lemma_u128_shr_is_div(bits, 96u128);
                lemma_pow2_pos(h as nat);
                lemma_mul_pow2_bound(v, prefix_len as nat, h as nat, pow2(h as nat) - 1);
                vstd::arithmetic::power2::lemma2_to64();
            }
            let addr: u32 = (bits >> 96u128) as u32;
            let start: u128 = addr as u128;
            let end: u128 = if prefix_len == 32 {
                start
            } else {
                start + (pow2_u128(h) - 1)
            };
            (start, end)
        } else {
            let start: u128 = bits;
            proof {
                vstd::arithmetic::power2::lemma2_to64();
            }
            let end: u128 = if prefix_len == 128 {
                start
            } else if prefix_len == 0 {
                proof {
                    assert(v == 0);
                }
                u128::MAX
            } else {
                let h: u8 = 128 - prefix_len;
                proof {
                    lemma_pow2_pos(h as nat);
                    lemma_mul_pow2_bound(v, prefix_len as nat, h as nat, pow2(h as nat) - 1);
                }
                start + (pow2_u128(h) - 1)
            };
            (start, end)
        }
    }

    /// The interval (start, end inclusive) of addresses of a node's prefix.
    pub fn node_interval(&self, node_idx: NodeIdx) -> (r: (u128, u128))
        requires
            self.wf(),
            self.valid(node_idx as int),
        ensures
            r.0 as int == self.node_start(node_idx as int),
            r.1 as int == self.node_end(node_idx as int),
    {
        let (bits, prefix_len): (u128, u8) = self.node_prefix_bits(node_idx);
        proof {
            let i = node_idx as int;
            assert(self.arena@[i] == self.node(i));
            self.lemma_path_value_bound(i);
            lemma_pow2_pos((128 - prefix_len) as nat);
            vstd::arithmetic::div_mod::lemma_mod_multiples_basic(self.path_value(i), pow2((128 - prefix_len) as nat) as int);
            lemma_div_by_multiple(self.path_value(i), pow2((128 - prefix_len) as nat) as int);
        }
        self.interval_from_prefix(bits, prefix_len)
    }

    /// The prefix of each leaf, in the order of `extract_leaf_indices`.
    pub open spec fn leaf_entry_ok(self, e: SourceMapPrefix, idx: NodeIdx) -> bool {
        &&& e.prefix.bits as int == self.node_start(idx as int)
        &&& e.prefix.len as int == self.plen(idx as int)
        &&& e.source_indices@.len() == 0
        &&& e.coverage == self.node(idx as int).coverage
        &&& e.preferred_overlap_in_coverage == self.node(idx as int).preferred_overlap_in_coverage
    }

    /// Extracts all leaf prefixes as IPv4 networks with their coverage metadata.
    pub fn extract_leaves_v4(&self) -> (r: Vec<SourceMapPrefix>)
        requires
            self.wf(),
            self.addr_bits == 32,
        ensures
            r@.len() == self.leaves_of(self.root as int).len(),
            forall|k: int| 0 <= k < r@.len() ==> self.leaf_entry_ok(#[trigger] r@[k], self.leaves_of(self.root as int)[k]),
            forall|k: int| 0 <= k < r@.len() ==> (#[trigger] r@[k]).prefix.wf(32),
    {
        let leaf_indices = self.extract_leaf_indices();
        let mut out: Vec<SourceMapPrefix> = Vec::new();
        let mut k: usize = 0;
        while k < leaf_indices.len()
            invariant
                self.wf(),
                self.addr_bits == 32,
                k <= leaf_indices@.len(),
                leaf_indices@ == self.leaves_of(self.root as int),
                forall|m: int| 0 <= m < leaf_indices@.len() ==> self.valid(#[trigger] leaf_indices@[m] as int),
                out@.len() == k,
                forall|m: int| 0 <= m < k ==> self.leaf_entry_ok(#[trigger] out@[m], leaf_indices@[m]),
                forall|m: int| 0 <= m < k ==> (#[trigger] out@[m]).prefix.wf(32),
            decreases leaf_indices@.len() - k,
        {
            let idx = leaf_indices[k];
            let (start, _end): (u128, u128) = self.node_interval(idx);
            let (_bits, prefix_len): (u128, u8) = self.node_prefix_bits(idx);
            proof {
                let i = idx as int;
                assert(self.arena@[i] == self.node(i));
                self.lemma_path_value_bound(i);
                lemma_mul_pow2_bound(self.path_value(i), self.plen(i) as nat, (32 - self.plen(i)) as nat, 0);
                lemma_pow2_pos((32 - self.plen(i)) as nat);
                vstd::arithmetic::mul::lemma_mul_nonnegative(self.path_value(i), pow2((32 - self.plen(i)) as nat) as int);
            }
            let node = &self.arena[idx as usize];
            out.push(SourceMapPrefix {
                prefix: Prefix { bits: start, len: prefix_len },
                source_indices: Vec::new(),
                coverage: node.coverage,
                preferred_overlap_in_coverage: node.preferred_overlap_in_coverage,
            });
            k = k + 1;
        }
        out
    }

    /// Extracts all leaf prefixes as IPv6 networks with their coverage metadata.
    pub fn extract_leaves_v6(&self) -> (r: Vec<SourceMapPrefix>)
        requires
            self.wf(),
            self.addr_bits == 128,
        ensures
            r@.len() == self.leaves_of(self.root as int).len(),
            forall|k: int| 0 <= k < r@.len() ==> self.leaf_entry_ok(#[trigger] r@[k], self.leaves_of(self.root as int)[k]),
            forall|k: int| 0 <= k < r@.len() ==> (#[trigger] r@[k]).prefix.wf(128),
    {
        let leaf_indices = self.extract_leaf_indices();
        let mut out: Vec<SourceMapPrefix> = Vec::new();
        let mut k: usize = 0;
        while k < leaf_indices.len()
            invariant
                self.wf(),
                self.addr_bits == 128,
                k <= leaf_indices@.len(),
                leaf_indices@ == self.leaves_of(self.root as int),
                forall|m: int| 0 <= m < leaf_indices@.len() ==> self.valid(#[trigger] leaf_indices@[m] as int),
                out@.len() == k,
                forall|m: int| 0 <= m < k ==> self.leaf_entry_ok(#[trigger] out@[m], leaf_indices@[m]),
                forall|m: int| 0 <= m < k ==> (#[trigger] out@[m]).prefix.wf(128),
            decreases leaf_indices@.len() - k,
        {
            let idx = leaf_indices[k];
            let (bits, prefix_len): (u128, u8) = self.node_prefix_bits(idx);
            proof {
                let i = idx as int;
                assert(self.arena@[i] == self.node(i));
                lemma_pow2_128();
            }
            let node = &self.arena[idx as usize];
            out.push(SourceMapPrefix {
                prefix: Prefix { bits, len: prefix_len },
                source_indices: Vec::new(),
                coverage: node.coverage,
                preferred_overlap_in_coverage: node.preferred_overlap_in_coverage,
            });
            k = k + 1;
        }
        out
    }
}

impl BinaryTrie {
    /// Node `j` is an inner node with at least two leaves, its range meets an
    /// exclusion interval of its family, and its leaves do not cover all of it:
    /// collapsing it would expose excluded addresses.
    pub open spec fn blocks(self, set: ExclusionSet, is_v4: bool, j: int) -> bool {
        &&& self.valid(j)
        &&& !self.node(j).is_leaf
        &&& self.node(j).leaf_count >= 2
        &&& if is_v4 {
            set.reaches_v4(self.node_start(j) as u128, self.node_end(j) as u128)
        } else {
            set.reaches_v6(self.node_start(j) as u128, self.node_end(j) as u128)
        }
        &&& self.node(j).coverage < self.capacity_spec(j)
    }

    /// `m` is `b` with exclusion marks added (and none removed), every
    /// blocking node of `b` among the marked.
    pub open spec fn marked_from(b: BinaryTrie, m: BinaryTrie, set: ExclusionSet, is_v4: bool) -> bool {
        &&& m.root == b.root
        &&& m.addr_bits == b.addr_bits
        &&& m.arena@.len() == b.arena@.len()
        &&& forall|j: int| 0 <= j < b.arena@.len() ==> #[trigger] m.arena@[j]
            == (TrieNode { is_excluded: m.arena@[j].is_excluded, ..b.arena@[j] })
        &&& forall|j: int| 0 <= j < b.arena@.len() && #[trigger] b.excluded_first(set, is_v4, j) ==> m.node(j).is_excluded
    }

    /// Marked excluded before, or blocking.
    pub open spec fn excluded_first(self, set: ExclusionSet, is_v4: bool, j: int) -> bool {
        self.node(j).is_excluded || self.blocks(set, is_v4, j)
    }

    proof fn lemma_anc_parent(self, k: int, z: int)
        requires
            self.wf(),
            self.valid(k),
            self.anc(k, z),
            z != self.root,
        ensures
            self.anc(k, self.node(z).parent as int),
        decreases self.node(k).depth,
    {
        self.lemma_anc_depth(k, z);
        assert(self.arena@[k] == self.node(k));
        if k != self.root {
            let p = self.node(k).parent as int;
            assert(self.arena@[p] == self.node(p));
        }
        if k != z {
            let p = self.node(k).parent as int;
            self.lemma_anc_parent(p, z);
        } else {
            let p = self.node(k).parent as int;
            assert(self.anc(p, p));
        }
    }

    /// Every mark of `first` is kept in `e`.
    pub open spec fn keeps(first: Seq<bool>, e: Seq<bool>) -> bool {
        forall|m: int| 0 <= m < first.len() && #[trigger] first[m] ==> e[m]
    }

    /// Every marked node has a node at or below it marked in `first`.
    #[verifier::opaque]
    pub open spec fn traced(o: BinaryTrie, e: Seq<bool>, first: Seq<bool>) -> bool {
        forall|z: int| 0 <= z < e.len() && #[trigger] e[z] ==>
            exists|k: int| 0 <= k < first.len() && first[k] && #[trigger] o.anc(k, z)
    }

    /// Every marked node whose parent is unmarked lies at index `idx` or beyond.
    #[verifier::opaque]
    pub open spec fn closed_from(o: BinaryTrie, e: Seq<bool>, idx: int) -> bool {
        forall|z: int| 0 <= z < e.len() && #[trigger] e[z] && z != o.root && !e[o.node(z).parent as int] ==> z >= idx
    }

    /// Marks the ancestors of marked node `idx`, up to the first marked one.
    fn mark_ancestors(&self, excl: &mut Vec<bool>, idx: usize, Ghost(first): Ghost<Seq<bool>>)
        requires
            self.wf(),
            old(excl)@.len() == self.arena@.len(),
            first.len() == self.arena@.len(),
            idx < self.arena@.len(),
            old(excl)@[idx as int],
            Self::keeps(first, old(excl)@),
            Self::traced(*self, old(excl)@, first),
            Self::closed_from(*self, old(excl)@, idx as int),
        ensures
            final(excl)@.len() == self.arena@.len(),
            Self::keeps(first, final(excl)@),
            Self::traced(*self, final(excl)@, first),
            Self::closed_from(*self, final(excl)@, idx + 1),
    {
        let ghost o = *self;
        let ghost n = self.arena@.len() as int;
        proof {
            reveal(BinaryTrie::traced);
            reveal(BinaryTrie::closed_from);
            assert(self.arena@[idx as int] == o.node(idx as int));
            assert(self.arena@[o.root as int] == o.node(o.root as int));
            let ex = excl@;
            assert(exists|k: int| 0 <= k < n && first[k] && #[trigger] o.anc(k, idx as int));
            assert(forall|z: int| 0 <= z < n && #[trigger] ex[z] && z != o.root && !ex[o.node(z).parent as int]
                    ==> z > idx || z == idx);
            assert(forall|z: int| 0 <= z < n && #[trigger] ex[z] ==>
                    exists|k: int| 0 <= k < n && first[k] && #[trigger] o.anc(k, z));
        }
        let ghost mut last: int = idx as int;
        let mut ancestor = self.arena[idx].parent;
        while ancestor != INVALID
            invariant
                o == *self,
                o.wf(),
                n == o.arena@.len(),
                first.len() == n,
                idx < n,
                excl@.len() == n,
                0 <= last < n,
                excl@[last],
                last != o.root ==> ancestor == o.node(last).parent,
                last == o.root ==> ancestor == INVALID,
                ancestor != INVALID ==> o.valid(ancestor as int),
                Self::keeps(first, excl@),
                forall|z: int| 0 <= z < n && #[trigger] excl@[z] && z != o.root && !excl@[o.node(z).parent as int]
                    ==> z > idx || z == last,
                exists|k: int| 0 <= k < n && first[k] && #[trigger] o.anc(k, last),
                forall|z: int| 0 <= z < n && #[trigger] excl@[z] ==>
                    exists|k: int| 0 <= k < n && first[k] && #[trigger] o.anc(k, z),
            ensures
                ancestor == INVALID || excl@[ancestor as int],
            decreases if ancestor == INVALID { 0int } else { o.node(ancestor as int).depth + 1 },
        {
            proof {
                assert(o.arena@[last] == o.node(last));
                assert(o.arena@[ancestor as int] == o.node(ancestor as int));
            }
            if excl[ancestor as usize] {
                break;
            }
            excl.set(ancestor as usize, true);
            proof {
                let k = choose|k: int| 0 <= k < n && first[k] && #[trigger] o.anc(k, last);
                o.lemma_anc_parent(k, last);
                assert(o.anc(k, ancestor as int));
                last = ancestor as int;
                let a = o.node(last);
                if last != o.root {
                    assert(o.arena@[a.parent as int] == o.node(a.parent as int));
                }
            }
            ancestor = self.arena[ancestor as usize].parent;
        }
        proof {
            reveal(BinaryTrie::traced);
            reveal(BinaryTrie::closed_from);
        }
    }

    /// Mark inner nodes whose collapse would cover excluded addresses not
    /// already covered by input leaves, then mark all ancestors of marked nodes.
    /// Only exclusion flags change, and only from unmarked to marked. Afterwards
    /// every blocking node is marked, the parent of every marked node is marked,
    /// and every node marked has a node below it (or itself) that was marked
    /// before or blocks.
    pub fn mark_exclusions(&mut self, exclusion_set: &ExclusionSet, is_v4: bool)
        requires
            old(self).wf(),
        ensures
            Self::marked_from(*old(self), *final(self), *exclusion_set, is_v4),
            forall|j: int| 0 <= j < old(self).arena@.len() && j != old(self).root && #[trigger] final(self).node(j).is_excluded
                ==> final(self).node(final(self).node(j).parent as int).is_excluded,
            forall|j: int| 0 <= j < old(self).arena@.len() && #[trigger] final(self).node(j).is_excluded ==>
                exists|k: int| 0 <= k < old(self).arena@.len() && old(self).excluded_first(*exclusion_set, is_v4, k)
                    && #[trigger] old(self).anc(k, j),
    {
        let ghost o = *self;
        let n: usize = self.arena.len();
        // Pass 1: inner nodes with at least two leaves whose range meets an
        // exclusion and is not fully covered.
        let mut excl: Vec<bool> = Vec::new();
        let mut idx: usize = 0;
        while idx < n
            invariant
                *self == o,
                o.wf(),
                n == o.arena@.len(),
                idx <= n,
                excl@.len() == idx,
                forall|m: int| 0 <= m < idx ==> #[trigger] excl@[m] == o.excluded_first(*exclusion_set, is_v4, m),
            decreases n - idx,
        {
            let node = &self.arena[idx];
            let mut mark = node.is_excluded;
            if !node.is_leaf && node.leaf_count >= 2 {
                let (start, end): (u128, u128) = self.node_interval(idx as u32);
                let hit = if is_v4 {
                    exclusion_set.intersects_v4(start, end)
                } else {
                    exclusion_set.intersects_v6(start, end)
                };
                if hit {
                    // Fully covered ranges expose nothing new.
                    let capacity = self.capacity(idx as u32);
                    if node.coverage < capacity {
                        mark = true;
                    }
                }
            }
            excl.push(mark);
            idx = idx + 1;
        }
        // Pass 2: propagate marks to all ancestors.
        let ghost first = excl@;
        proof {
            assert(Self::keeps(first, excl@));
            assert(Self::traced(o, excl@, first)) by {
                reveal(BinaryTrie::traced);
                assert forall|z: int| 0 <= z < excl@.len() && #[trigger] excl@[z] implies
                    exists|k: int| 0 <= k < first.len() && first[k] && #[trigger] o.anc(k, z) by {
                    assert(o.anc(z, z));
                }
            }
            assert(Self::closed_from(o, excl@, 0)) by {
                reveal(BinaryTrie::closed_from);
            }
        }
        let mut idx: usize = 0;
        while idx < n
            invariant
                *self == o,
                o.wf(),
                n == o.arena@.len(),
                idx <= n,
                excl@.len() == n,
                first.len() == n,
                forall|m: int| 0 <= m < n ==> #[trigger] first[m] == o.excluded_first(*exclusion_set, is_v4, m),
                Self::keeps(first, excl@),
                Self::traced(o, excl@, first),
                Self::closed_from(o, excl@, idx as int),
            decreases n - idx,
        {
            if excl[idx] {
                self.mark_ancestors(&mut excl, idx, Ghost(first));
            } else {
                proof {
                    reveal(BinaryTrie::closed_from);
                }
            }
            idx = idx + 1;
        }
        // Write the marks.
        let mut idx: usize = 0;
        while idx < n
            invariant
                n == o.arena@.len(),
                excl@.len() == n,
                idx <= n,
                self.root == o.root,
                self.addr_bits == o.addr_bits,
                self.arena@.len() == n,
                forall|j: int| 0 <= j < n ==> #[trigger] self.arena@[j] == if j < idx {
                    TrieNode { is_excluded: excl@[j], ..o.arena@[j] }
                } else {
                    o.arena@[j]
                },
            decreases n - idx,
        {
            let mut node = self.arena[idx];
            node.is_excluded = excl[idx];
            self.arena.set(idx, node);
            idx = idx + 1;
        }
        proof {
            reveal(BinaryTrie::traced);
            reveal(BinaryTrie::closed_from);
            assert forall|j: int| 0 <= j < n && j != o.root && #[trigger] self.node(j).is_excluded
                implies self.node(self.node(j).parent as int).is_excluded by {
                assert(self.arena@[j] == TrieNode { is_excluded: excl@[j], ..o.arena@[j] });
                assert(o.arena@[j] == o.node(j));
                let p = o.node(j).parent as int;
                assert(self.arena@[p] == TrieNode { is_excluded: excl@[p], ..o.arena@[p] });
            }
            assert forall|j: int| 0 <= j < n && #[trigger] o.excluded_first(*exclusion_set, is_v4, j)
                implies self.node(j).is_excluded by {
                assert(self.arena@[j] == TrieNode { is_excluded: excl@[j], ..o.arena@[j] });
                assert(first[j]);
            }
            assert forall|j: int| 0 <= j < n && #[trigger] self.node(j).is_excluded implies
                exists|k: int| 0 <= k < n && o.excluded_first(*exclusion_set, is_v4, k) && #[trigger] o.anc(k, j) by {
                assert(self.arena@[j] == TrieNode { is_excluded: excl@[j], ..o.arena@[j] });
                assert(excl@[j]);
                let k = choose|k: int| 0 <= k < n && first[k] && #[trigger] o.anc(k, j);
                assert(o.excluded_first(*exclusion_set, is_v4, k));
            }
        }
    }
}

impl BinaryTrie {
    /// The number of preferred addresses in node `i`'s range (saturating).
    pub open spec fn preferred_in(self, set: PreferredSet, is_v4: bool, i: int) -> int {
        let o = if is_v4 {
            set.overlap_v4(self.node_start(i) as u128, self.node_end(i) as u128)
        } else {
            set.overlap_v6(self.node_start(i) as u128, self.node_end(i) as u128)
        };
        if o > u128::MAX { u128::MAX as int } else { o }
    }

    /// The whole IPv6 space is only asked about when not every address is preferred.
    pub open spec fn preferred_query_ok(self, set: PreferredSet, is_v4: bool) -> bool {
        !is_v4 && set.all_v6() ==> !(self.node(self.root as int).is_leaf && self.node(self.root as int).skip_len == 0)
    }

    pub(crate) proof fn lemma_node_range(self, i: int)
        requires
            self.wf(),
            self.valid(i),
        ensures
            0 <= self.node_start(i) <= self.node_end(i) <= u128::MAX,
            self.addr_bits == 32 ==> self.node_end(i) < pow2(32),
            self.node_start(i) == 0 && self.node_end(i) == u128::MAX ==> i == self.root && self.plen(i) == 0,
    {
        assert(self.arena@[i] == self.node(i));
        self.lemma_path_value_bound(i);
        let h = (self.addr_bits - self.plen(i)) as nat;
        lemma_pow2_pos(h);
        lemma_mul_pow2_bound(self.path_value(i), self.plen(i) as nat, h, pow2(h) - 1);
        vstd::arithmetic::mul::lemma_mul_nonnegative(self.path_value(i), pow2(h) as int);
        lemma_pow2_128();
        lemma_pow2_le(self.addr_bits as nat, 128);
        if self.node_start(i) == 0 && self.node_end(i) == u128::MAX {
            if self.plen(i) > 0 {
                lemma_pow2_le(h, 127);
                vstd::arithmetic::power2::lemma_pow2_adds(h, 1);
                vstd::arithmetic::power2::lemma2_to64();
                lemma_pow2_le(127, 127);
                assert(pow2(127) * 2 == pow2(128)) by {
                    vstd::arithmetic::power2::lemma_pow2_adds(127, 1);
                }
            }
            if i != self.root {
                let p = self.node(i).parent as int;
                assert(self.arena@[p] == self.node(p));
            }
        }
    }

    /// The preferred overlap that the bottom-up pass gives node `i`: for a
    /// leaf, the preferred addresses of its range capped at its coverage; for
    /// an inner node, the saturating sum of its children's.
    pub open spec fn pref_value(self, set: PreferredSet, is_v4: bool, i: int) -> int
        decreases 256 - self.node(i).depth,
    {
        let n = self.node(i);
        if n.is_leaf {
            let p = self.preferred_in(set, is_v4, i);
            if p < n.coverage { p } else { n.coverage as int }
        } else {
            let l = if n.children[0] != INVALID && self.valid(n.children[0] as int)
                && self.node(n.children[0] as int).depth > n.depth {
                self.pref_value(set, is_v4, n.children[0] as int)
            } else {
                0
            };
            let r = if n.children[1] != INVALID && self.valid(n.children[1] as int)
                && self.node(n.children[1] as int).depth > n.depth {
                self.pref_value(set, is_v4, n.children[1] as int)
            } else {
                0
            };
            if l + r > u128::MAX { u128::MAX as int } else { l + r }
        }
    }

    /// `b` differs from `a` at most in the preferred-overlap fields.
    pub open spec fn same_but_preferred(a: BinaryTrie, b: BinaryTrie) -> bool {
        &&& b.root == a.root
        &&& b.addr_bits == a.addr_bits
        &&& b.arena@.len() == a.arena@.len()
        &&& forall|j: int| 0 <= j < a.arena@.len() ==> #[trigger] b.arena@[j] == (TrieNode {
            preferred_overlap: b.arena@[j].preferred_overlap,
            preferred_overlap_in_coverage: b.arena@[j].preferred_overlap_in_coverage,
            ..a.arena@[j]
        })
    }

    proof fn lemma_path_value_frame(a: BinaryTrie, b: BinaryTrie, i: int)
        requires
            Self::same_but_preferred(a, b),
            a.valid(i),
        ensures
            b.path_value(i) == a.path_value(i),
            b.plen(i) == a.plen(i),
        decreases a.node(i).depth,
    {
        if 0 <= i < a.arena@.len() {
            assert(b.arena@[i].depth == a.arena@[i].depth);
            let p = a.node(i).parent as int;
            if i != a.root && a.valid(p) && a.node(p).depth < a.node(i).depth {
                assert(b.arena@[p].depth == a.arena@[p].depth);
                assert(b.arena@[p].children == a.arena@[p].children);
                Self::lemma_path_value_frame(a, b, p);
            }
        }
    }

    proof fn lemma_pref_value_frame(a: BinaryTrie, b: BinaryTrie, set: PreferredSet, is_v4: bool, i: int)
        requires
            Self::same_but_preferred(a, b),
            a.valid(i),
        ensures
            b.pref_value(set, is_v4, i) == a.pref_value(set, is_v4, i),
        decreases 256 - a.node(i).depth,
    {
        Self::lemma_path_value_frame(a, b, i);
        if 0 <= i < a.arena@.len() {
            assert(b.arena@[i].depth == a.arena@[i].depth);
            let n = a.node(i);
            if !n.is_leaf {
                let c0 = n.children[0] as int;
                let c1 = n.children[1] as int;
                if n.children[0] != INVALID && a.valid(c0) {
                    assert(b.arena@[c0].depth == a.arena@[c0].depth);
                    if a.node(c0).depth > n.depth {
                        Self::lemma_pref_value_frame(a, b, set, is_v4, c0);
                    }
                }
                if n.children[1] != INVALID && a.valid(c1) {
                    assert(b.arena@[c1].depth == a.arena@[c1].depth);
                    if a.node(c1).depth > n.depth {
                        Self::lemma_pref_value_frame(a, b, set, is_v4, c1);
                    }
                }
            }
        }
    }

    /// Sets the preferred overlap of each node reached from `node_idx` to its
    /// `pref_value`. Returns the node's value.
    #[verifier::rlimit(60)]
    fn compute_preferred_overlap(&mut self, node_idx: NodeIdx, preferred_set: &PreferredSet, is_v4: bool) -> (r: u128)
        requires
            old(self).wf(),
            old(self).valid(node_idx as int),
            old(self).preferred_query_ok(*preferred_set, is_v4),
        ensures
            final(self).root == old(self).root,
            final(self).addr_bits == old(self).addr_bits,
            same_shape(old(self).arena@, final(self).arena@),
            Self::same_but_preferred(*old(self), *final(self)),
            forall|j: int| 0 <= j < old(self).arena@.len() && !old(self).reach(node_idx as int, j) ==>
                #[trigger] final(self).arena@[j] == old(self).arena@[j],
            forall|j: int| #[trigger] old(self).reach(node_idx as int, j) ==>
                final(self).node(j).preferred_overlap as int == old(self).pref_value(*preferred_set, is_v4, j)
                && final(self).node(j).preferred_overlap_in_coverage as int == old(self).pref_value(*preferred_set, is_v4, j),
            r == final(self).node(node_idx as int).preferred_overlap,
            r as int == old(self).pref_value(*preferred_set, is_v4, node_idx as int),
        decreases 256 - old(self).node(node_idx as int).depth,
    {
        let ghost a = *self;
        let ghost i = node_idx as int;
        proof {
            assert(a.arena@[i] == a.node(i));
            a.lemma_reach_disjoint(i, i);
            assert(a.arena@[a.root as int] == a.node(a.root as int));
        }
        let node = self.arena[node_idx as usize];
        if node.is_leaf {
            let (start, end): (u128, u128) = self.node_interval(node_idx);
            proof {
                self.lemma_node_range(i);
                if !is_v4 && preferred_set.all_v6() && start == 0 && end == u128::MAX {
                    assert(false);
                }
            }
            let overlap = if is_v4 {
                preferred_set.overlap_count_v4(start, end)
            } else {
                preferred_set.overlap_count_v6(start, end)
            };
            let capped = if overlap < node.coverage { overlap } else { node.coverage };
            let mut n = node;
            n.preferred_overlap = capped;
            n.preferred_overlap_in_coverage = capped;
            self.arena.set(node_idx as usize, n);
            return capped;
        }
        let children = node.children;
        let mut total: u128 = 0;
        let c0 = children[0];
        let c1 = children[1];
        proof {
            if c0 != INVALID {
                assert(a.arena@[c0 as int] == a.node(c0 as int));
            }
            if c1 != INVALID {
                assert(a.arena@[c1 as int] == a.node(c1 as int));
            }
        }
        if c0 != INVALID {
            let v = self.compute_preferred_overlap(c0, preferred_set, is_v4);
            total = total.saturating_add(v);
        }
        let ghost m = *self;
        let ghost t0 = total;
        proof {
            if c0 != INVALID {
                Self::lemma_shape_wf(a, m);
            } else {
                assert(m == a);
            }
            assert(m.arena@[i] == a.arena@[i]);
            assert(m.arena@[m.root as int].is_leaf == a.arena@[a.root as int].is_leaf);
            assert(m.arena@[m.root as int].skip_len == a.arena@[a.root as int].skip_len);
            assert(forall|x: int, y: int| #[trigger] m.reach(x, y) == a.reach(x, y));
            if c1 != INVALID {
                assert(m.arena@[c1 as int].depth == a.arena@[c1 as int].depth);
            }
        }
        if c1 != INVALID {
            let v = self.compute_preferred_overlap(c1, preferred_set, is_v4);
            total = total.saturating_add(v);
            proof {
                Self::lemma_pref_value_frame(a, m, *preferred_set, is_v4, c1 as int);
            }
        }
        let ghost f = *self;
        let mut n = self.arena[node_idx as usize];
        n.preferred_overlap = total;
        n.preferred_overlap_in_coverage = total;
        self.arena.set(node_idx as usize, n);
        proof {
            assert(f.arena@.len() == a.arena@.len());
            assert(f.arena@[i] == a.arena@[i]) by {
                if c1 != INVALID {
                    assert(!m.reach(c1 as int, i));
                }
            }
            assert(total as int == a.pref_value(*preferred_set, is_v4, i));
            assert forall|j: int| 0 <= j < a.arena@.len() && !a.reach(i, j) implies
                #[trigger] self.arena@[j] == a.arena@[j] by {
                if c0 != INVALID && a.reach(c0 as int, j) {
                    assert(a.reach(i, j));
                }
                if c1 != INVALID && a.reach(c1 as int, j) {
                    assert(a.reach(i, j));
                }
                assert(f.arena@[j] == m.arena@[j]);
            }
            assert forall|j: int| 0 <= j < a.arena@.len() implies #[trigger] self.arena@[j] == (TrieNode {
                preferred_overlap: self.arena@[j].preferred_overlap,
                preferred_overlap_in_coverage: self.arena@[j].preferred_overlap_in_coverage,
                ..a.arena@[j]
            }) by {
                assert(f.arena@[j] == (TrieNode {
                    preferred_overlap: f.arena@[j].preferred_overlap,
                    preferred_overlap_in_coverage: f.arena@[j].preferred_overlap_in_coverage,
                    ..m.arena@[j]
                }));
                assert(m.arena@[j] == (TrieNode {
                    preferred_overlap: m.arena@[j].preferred_overlap,
                    preferred_overlap_in_coverage: m.arena@[j].preferred_overlap_in_coverage,
                    ..a.arena@[j]
                }));
            }
            assert forall|j: int| #[trigger] a.reach(i, j) implies
                self.node(j).preferred_overlap as int == a.pref_value(*preferred_set, is_v4, j)
                && self.node(j).preferred_overlap_in_coverage as int == a.pref_value(*preferred_set, is_v4, j) by {
                if j != i {
                    let k0 = c0 != INVALID && a.reach(c0 as int, j);
                    let k1 = c1 != INVALID && a.reach(c1 as int, j);
                    assert(k0 || k1);
                    if k0 {
                        a.lemma_reach_disjoint(i, j);
                        a.lemma_reach_anc(c0 as int, j);
                        assert(!m.reach(c1 as int, j) || c1 == INVALID);
                        assert(f.arena@[j] == m.arena@[j]);
                    } else {
                        a.lemma_reach_anc(c1 as int, j);
                        Self::lemma_pref_value_frame(a, m, *preferred_set, is_v4, j);
                    }
                }
            }
        }
        total
    }

    /// Bottom-up pass setting the preferred overlap of every node reached from
    /// the root to its `pref_value`.
    pub fn mark_preferred_overlaps(&mut self, preferred_set: &PreferredSet, is_v4: bool)
        requires
            old(self).wf(),
            old(self).preferred_query_ok(*preferred_set, is_v4),
        ensures
            final(self).root == old(self).root,
            final(self).addr_bits == old(self).addr_bits,
            same_shape(old(self).arena@, final(self).arena@),
            forall|j: int| 0 <= j < old(self).arena@.len() ==> #[trigger] final(self).arena@[j] == (TrieNode {
                preferred_overlap: final(self).arena@[j].preferred_overlap,
                preferred_overlap_in_coverage: final(self).arena@[j].preferred_overlap_in_coverage,
                ..old(self).arena@[j]
            }),
            forall|j: int| 0 <= j < old(self).arena@.len() && !old(self).reach(old(self).root as int, j) ==>
                #[trigger] final(self).arena@[j] == old(self).arena@[j],
            forall|j: int| #[trigger] old(self).reach(old(self).root as int, j) ==>
                final(self).node(j).preferred_overlap as int == old(self).pref_value(*preferred_set, is_v4, j)
                && final(self).node(j).preferred_overlap_in_coverage as int == old(self).pref_value(*preferred_set, is_v4, j),
    {
        proof {
            assert(self.arena@[self.root as int] == self.node(self.root as int));
        }
        let root = self.root;
        self.compute_preferred_overlap(root, preferred_set, is_v4);
    }
}

} // verus!
