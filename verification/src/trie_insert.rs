//! Inserting prefixes into the path-compressed trie: node allocation,
//! splitting a compressed path, and the insertion walk itself.
use vstd::prelude::*;
use vstd::arithmetic::power2::{pow2, lemma_pow2_pos, lemma_pow2_adds};
use crate::prefix::{lemma_u128_one_shl, lemma_pow2_128, lemma_pow2_le};
use crate::trie::{BinaryTrie, TrieNode, NodeIdx, INVALID};
use crate::prefix::{Prefix, network};
use crate::lossless::SourceMapPrefix;
use crate::error::OptimizeError;
use crate::trie_paths::{split_at, lemma_mask_mod, key_of, lemma_shape_holds, key_top, walk_ok, lemma_walk_match, lemma_walk_split, lemma_walk_down, lemma_walk_mark, lemma_walk_hang, lemma_hung_from_update};

verus! {

/// Bit `t` of a key, counting from the top bit of the u128 (bit 0 is the highest).
pub open spec fn key_bit(key: u128, t: int) -> u128 {
    (key >> ((127 - t) as u128)) & 1
}

/// Bit `o` of a compressed path of length `len` (bit 0 is the first on the path).
pub open spec fn path_bit(bits: u128, len: int, o: int) -> u128 {
    (bits >> ((len - 1 - o) as u128)) & 1
}

/// The two arenas agree on every link, depth and compressed path.
pub open spec fn same_links(a: Seq<TrieNode>, b: Seq<TrieNode>) -> bool {
    &&& a.len() == b.len()
    &&& forall|i: int| 0 <= i < a.len() ==> {
        &&& (#[trigger] a[i]).children == b[i].children
        &&& a[i].parent == b[i].parent
        &&& a[i].depth == b[i].depth
        &&& a[i].skip_len == b[i].skip_len
        &&& a[i].skip_bits == b[i].skip_bits
    }
}

proof fn lemma_bit_lt_2(x: u128, s: u128)
    ensures
        (x >> s) & 1 < 2,
{
    assert((x >> s) & 1 < 2) by (bit_vector);
}

/// `x & (2^r - 1) < 2^r` on u128.
proof fn lemma_mask_bound(x: u128, r: u128)
    requires
        r < 128,
    ensures
        (x & (((1u128 << r) - 1) as u128)) < pow2(r as nat),
        (1u128 << r) >= 1,
{
    assert((1u128 << r) >= 1) by (bit_vector) requires r < 128;
    assert((x & (((1u128 << r) - 1) as u128)) < (1u128 << r)) by (bit_vector) requires r < 128;
    lemma_u128_one_shl(r);
}

/// `x / 2^d < 2^o` when `x < 2^(o + d)`.
proof fn lemma_shr_bound(x: u128, o: nat, d: nat)
    requires
        x < pow2(o + d),
        d < 128,
    ensures
        (x >> (d as u128)) < pow2(o),
{
    vstd::bits::lemma_u128_shr_is_div(x, d as u128);
    lemma_pow2_pos(d);
    lemma_pow2_adds(d, o);
    vstd::arithmetic::div_mod::lemma_multiply_divide_lt(x as int, pow2(d) as int, pow2(o) as int);
}

impl BinaryTrie {
    /// Every node other than the root is listed as a child of its parent.
    pub open spec fn no_orphans(self) -> bool {
        forall|k: int| #![trigger self.arena@[k]] self.valid(k) && k != self.root ==>
            self.node(self.node(k).parent as int).children[0] == k as NodeIdx
            || self.node(self.node(k).parent as int).children[1] == k as NodeIdx
    }

    /// The invariant while the trie is being built: well-formed, without
    /// orphans, no leaf count above one, and no node excluded.
    #[verifier::opaque]
    pub open spec fn building(self) -> bool {
        &&& self.wf()
        &&& self.no_orphans()
        &&& forall|k: int| #![trigger self.arena@[k]] self.valid(k) ==> self.node(k).leaf_count <= 1
            && !self.node(k).is_excluded
    }

    /// No collapse cost is recorded, the root is not a leaf, and every leaf's
    /// coverage reaches the number of addresses in its range.
    pub open spec fn settled(self) -> bool {
        &&& !self.node(self.root as int).is_leaf
        &&& forall|k: int| #![trigger self.arena@[k]] self.valid(k) ==> self.node(k).collapsed_cost_sum == 0
            && (self.node(k).is_leaf ==> self.node(k).coverage >= self.capacity_spec(k))
    }

    /// The coverage a leaf of prefix length `plen` gets when it is inserted.
    pub open spec fn leaf_coverage(w: u8, plen: int) -> int {
        if plen == w { 1 } else { pow2((w - plen) as nat) as int }
    }

    /// Splitting a compressed path keeps the trie settled.
    proof fn lemma_split_settled(a: BinaryTrie, z: BinaryTrie, x: int, xn: TrieNode, rn: TrieNode)
        requires
            a.building(),
            a.settled(),
            a.valid(x),
            0 < a.node(x).skip_len,
            z.root == a.root,
            z.addr_bits == a.addr_bits,
            z.arena@.len() == a.arena@.len() + 1,
            z.arena@[a.arena@.len() as int] == rn,
            rn.depth + rn.skip_len == a.node(x).depth + a.node(x).skip_len,
            rn.depth >= 1,
            rn.is_leaf == a.node(x).is_leaf,
            rn.coverage == a.node(x).coverage,
            rn.collapsed_cost_sum == a.node(x).collapsed_cost_sum,
            z.arena@[x] == xn,
            !xn.is_leaf,
            xn.collapsed_cost_sum == a.node(x).collapsed_cost_sum,
            forall|k: int| 0 <= k < a.arena@.len() && k != x && k != a.node(x).children[0] as int
                && k != a.node(x).children[1] as int ==> #[trigger] z.arena@[k] == a.arena@[k],
            forall|b: int| 0 <= b < 2 && #[trigger] a.node(x).children[b] != INVALID ==>
                z.arena@[a.node(x).children[b] as int] == (TrieNode {
                    parent: a.arena@.len() as NodeIdx,
                    ..a.arena@[a.node(x).children[b] as int]
                }),
        ensures
            z.settled(),
    {
        reveal(BinaryTrie::building);
        let rem = a.arena@.len() as int;
        assert(a.arena@[x] == a.node(x));
        assert(a.arena@[a.root as int] == a.node(a.root as int));
        assert(x != a.root);
        assert forall|k: int| #![trigger z.arena@[k]] z.valid(k) implies z.node(k).collapsed_cost_sum == 0
            && (z.node(k).is_leaf ==> z.node(k).coverage >= z.capacity_spec(k)) by {
            if k == rem {
                assert(a.capacity_spec(x) == z.capacity_spec(k));
            } else if k == x {
            } else {
                assert(a.arena@[k] == a.node(k));
                let c0 = a.node(x).children[0];
                let c1 = a.node(x).children[1];
                if c0 != INVALID && k == c0 as int {
                    assert(z.arena@[k] == (TrieNode { parent: rem as NodeIdx, ..a.arena@[k] }));
                } else if c1 != INVALID && k == c1 as int {
                    assert(z.arena@[k] == (TrieNode { parent: rem as NodeIdx, ..a.arena@[k] }));
                } else {
                    assert(z.arena@[k] == a.arena@[k]);
                }
                assert(a.capacity_spec(k) == z.capacity_spec(k));
            }
        }
        assert(z.arena@[z.root as int] == a.arena@[a.root as int]) by {
            let c0 = a.node(x).children[0];
            let c1 = a.node(x).children[1];
            if c0 != INVALID {
                assert(c0 as int != a.root);
            }
            if c1 != INVALID {
                assert(c1 as int != a.root);
            }
        }
    }

    /// Marking a node other than the root a leaf, with coverage reaching its
    /// capacity, keeps the trie settled.
    proof fn lemma_mark_settled(a: BinaryTrie, z: BinaryTrie, cur: int, n: TrieNode)
        requires
            a.building(),
            a.settled(),
            a.valid(cur),
            1 <= a.node(cur).depth + a.node(cur).skip_len,
            z.root == a.root,
            z.addr_bits == a.addr_bits,
            n == (TrieNode { is_leaf: true, coverage: n.coverage, ..a.arena@[cur] }),
            n.coverage >= Self::leaf_coverage(a.addr_bits, a.node(cur).depth + a.node(cur).skip_len),
            z.arena@ == a.arena@.update(cur, n),
        ensures
            z.settled(),
    {
        reveal(BinaryTrie::building);
        assert(a.arena@[cur] == a.node(cur));
        assert(a.arena@[a.root as int] == a.node(a.root as int));
        assert(cur != a.root);
        assert forall|k: int| #![trigger z.arena@[k]] z.valid(k) implies z.node(k).collapsed_cost_sum == 0
            && (z.node(k).is_leaf ==> z.node(k).coverage >= z.capacity_spec(k)) by {
            assert(a.arena@[k] == a.node(k));
            assert(a.capacity_spec(k) == z.capacity_spec(k));
        }
        assert(z.arena@[z.root as int] == a.arena@[a.root as int]);
    }

    /// Hanging a new leaf whose coverage reaches its capacity below a node
    /// keeps the trie settled.
    proof fn lemma_hang_settled(a: BinaryTrie, z: BinaryTrie, cur: int, n: TrieNode, ch: [NodeIdx; 2])
        requires
            a.settled(),
            a.valid(cur),
            a.valid(a.root as int),
            z.root == a.root,
            z.addr_bits == a.addr_bits,
            a.addr_bits <= 128,
            n.is_leaf,
            n.collapsed_cost_sum == 0,
            n.depth >= 1,
            1 <= n.depth + n.skip_len <= a.addr_bits,
            n.coverage as int == Self::leaf_coverage(a.addr_bits, n.depth + n.skip_len),
            z.arena@ == a.arena@.update(cur, TrieNode { children: ch, ..a.node(cur) }).push(n),
        ensures
            z.settled(),
    {
        let ni = a.arena@.len() as int;
        assert(a.arena@[cur] == a.node(cur));
        assert(z.arena@[ni] == n);
        assert forall|k: int| #![trigger z.arena@[k]] z.valid(k) implies z.node(k).collapsed_cost_sum == 0
            && (z.node(k).is_leaf ==> z.node(k).coverage >= z.capacity_spec(k)) by {
            if k != ni {
                assert(a.arena@[k] == a.node(k));
                assert(a.capacity_spec(k) == z.capacity_spec(k));
            }
        }
        assert(z.arena@[z.root as int].is_leaf == a.arena@[a.root as int].is_leaf);
    }

    /// What the building invariant says of one node.
    pub proof fn lemma_building_node(self, i: int)
        requires
            self.building(),
            self.valid(i),
        ensures
            self.node(i).depth + self.node(i).skip_len <= self.addr_bits,
            self.node(i).skip_bits < pow2(self.node(i).skip_len as nat),
            self.node(i).leaf_count <= 1,
            forall|b: int| 0 <= b < 2 && #[trigger] self.node(i).children[b] != INVALID ==> {
                &&& self.valid(self.node(i).children[b] as int)
                &&& self.node(self.node(i).children[b] as int).depth == self.node(i).depth + self.node(i).skip_len + 1
            },
            self.valid(self.root as int),
            self.node(self.root as int).depth == 0,
            self.addr_bits <= 128,
            self.arena@.len() <= u32::MAX,
    {
        reveal(BinaryTrie::building);
        assert(self.arena@[i] == self.node(i));
        assert(self.arena@[self.root as int] == self.node(self.root as int));
        assert forall|b: int| 0 <= b < 2 && #[trigger] self.node(i).children[b] != INVALID implies {
            &&& self.valid(self.node(i).children[b] as int)
            &&& self.node(self.node(i).children[b] as int).depth == self.node(i).depth + self.node(i).skip_len + 1
        } by {
            let c = self.node(i).children[b] as int;
            assert(self.arena@[c] == self.node(c));
        }
    }

    /// What the building invariant says of the root.
    pub proof fn lemma_building_root(self)
        requires
            self.building(),
        ensures
            self.valid(self.root as int),
            self.node(self.root as int).depth == 0,
            self.addr_bits <= 128,
            self.arena@.len() <= u32::MAX,
    {
        reveal(BinaryTrie::building);
    }

    /// Changing anything but the links keeps the building invariant, as long as
    /// leaf counts stay at most one.
    proof fn lemma_links_building(a: BinaryTrie, b: BinaryTrie)
        requires
            a.building(),
            same_links(a.arena@, b.arena@),
            a.root == b.root,
            a.addr_bits == b.addr_bits,
            forall|k: int| 0 <= k < b.arena@.len() ==> (#[trigger] b.arena@[k]).leaf_count == a.arena@[k].leaf_count
                && b.arena@[k].is_excluded == a.arena@[k].is_excluded,
        ensures
            b.building(),
    {
        reveal(BinaryTrie::building);
        assert forall|i: int| #![trigger b.arena@[i]] b.valid(i) implies {
            &&& b.node(i).depth + b.node(i).skip_len <= b.addr_bits
            &&& b.node(i).skip_bits < pow2(b.node(i).skip_len as nat)
            &&& i != b.root ==> {
                &&& b.valid(b.node(i).parent as int)
                &&& b.node(i).depth == b.node(b.node(i).parent as int).depth
                    + b.node(b.node(i).parent as int).skip_len + 1
            }
            &&& forall|bb: int| 0 <= bb < 2 ==> {
                let c = #[trigger] b.node(i).children[bb];
                c == INVALID || (b.valid(c as int) && b.node(c as int).parent == i && c != b.root)
            }
            &&& b.node(i).children[0] == INVALID || b.node(i).children[0] != b.node(i).children[1]
        } by {
            assert(a.arena@[i] == a.node(i));
            if i != b.root {
                let p = a.node(i).parent as int;
                assert(a.arena@[p] == a.node(p));
                assert(b.arena@[p] == b.node(p));
            }
            assert forall|bb: int| 0 <= bb < 2 implies {
                let c = #[trigger] b.node(i).children[bb];
                c == INVALID || (b.valid(c as int) && b.node(c as int).parent == i && c != b.root)
            } by {
                let c = a.node(i).children[bb];
                if c != INVALID {
                    assert(a.arena@[c as int] == a.node(c as int));
                    assert(b.arena@[c as int] == b.node(c as int));
                }
            }
        }
        assert(b.arena@[b.root as int] == b.node(b.root as int));
        assert(a.arena@[a.root as int] == a.node(a.root as int));
        assert forall|k: int| #![trigger b.arena@[k]] b.valid(k) && k != b.root implies
            b.node(b.node(k).parent as int).children[0] == k as NodeIdx
            || b.node(b.node(k).parent as int).children[1] == k as NodeIdx by {
            assert(a.arena@[k] == a.node(k));
            let p = a.node(k).parent as int;
            assert(a.arena@[p] == a.node(p));
            assert(b.arena@[p] == b.node(p));
        }
        assert forall|k: int| #![trigger b.arena@[k]] b.valid(k) implies b.node(k).leaf_count <= 1 && !b.node(k).is_excluded by {
            assert(a.arena@[k] == a.node(k));
        }
    }

    /// Appending a new leaf below `cur`, in its empty child slot `b`.
    proof fn lemma_add_leaf(a: BinaryTrie, z: BinaryTrie, cur: int, b: int, n: TrieNode, ch: [NodeIdx; 2])
        requires
            a.building(),
            a.valid(cur),
            0 <= b < 2,
            a.node(cur).children[b] == INVALID,
            a.arena@.len() < u32::MAX,
            n.depth == a.node(cur).depth + a.node(cur).skip_len + 1,
            n.depth + n.skip_len <= a.addr_bits,
            n.skip_bits < pow2(n.skip_len as nat),
            n.parent == cur,
            n.children[0] == INVALID,
            n.children[1] == INVALID,
            n.leaf_count == 1,
            z.root == a.root,
            z.addr_bits == a.addr_bits,
            ch[b] == a.arena@.len() as NodeIdx,
            ch[1 - b] == a.node(cur).children[1 - b],
            z.arena@ == a.arena@.update(cur, TrieNode { children: ch, ..a.node(cur) }).push(n),
            !n.is_excluded,
        ensures
            z.building(),
    {
        reveal(BinaryTrie::building);
        let ni = a.arena@.len() as int;
        assert(a.arena@[cur] == a.node(cur));
        assert(a.arena@[a.root as int] == a.node(a.root as int));
        assert(z.arena@[ni] == n);
        assert forall|i: int| #![trigger z.arena@[i]] z.valid(i) implies {
            &&& z.node(i).depth + z.node(i).skip_len <= z.addr_bits
            &&& z.node(i).skip_bits < pow2(z.node(i).skip_len as nat)
            &&& i != z.root ==> {
                &&& z.valid(z.node(i).parent as int)
                &&& z.node(i).depth == z.node(z.node(i).parent as int).depth
                    + z.node(z.node(i).parent as int).skip_len + 1
            }
            &&& forall|bb: int| 0 <= bb < 2 ==> {
                let c = #[trigger] z.node(i).children[bb];
                c == INVALID || (z.valid(c as int) && z.node(c as int).parent == i && c != z.root)
            }
            &&& z.node(i).children[0] == INVALID || z.node(i).children[0] != z.node(i).children[1]
        } by {
            if i == ni {
            } else {
                assert(a.arena@[i] == a.node(i));
                if i != z.root {
                    let p = a.node(i).parent as int;
                    assert(a.arena@[p] == a.node(p));
                }
                assert forall|bb: int| 0 <= bb < 2 implies {
                    let c = #[trigger] z.node(i).children[bb];
                    c == INVALID || (z.valid(c as int) && z.node(c as int).parent == i && c != z.root)
                } by {
                    if !(i == cur && bb == b) {
                        let c = a.node(i).children[bb];
                        if c != INVALID {
                            assert(a.arena@[c as int] == a.node(c as int));
                        }
                    }
                }
                if i == cur {
                    let o = a.node(cur).children[1 - b];
                    if o != INVALID {
                        assert(a.arena@[o as int] == a.node(o as int));
                    }
                }
            }
        }
        assert forall|k: int| #![trigger z.arena@[k]] z.valid(k) && k != z.root implies
            z.node(z.node(k).parent as int).children[0] == k as NodeIdx
            || z.node(z.node(k).parent as int).children[1] == k as NodeIdx by {
            if k != ni {
                assert(a.arena@[k] == a.node(k));
                let p = a.node(k).parent as int;
                assert(a.arena@[p] == a.node(p));
            }
        }
        assert forall|k: int| #![trigger z.arena@[k]] z.valid(k) implies z.node(k).leaf_count <= 1 && !z.node(k).is_excluded by {
            if k != ni {
                assert(a.arena@[k] == a.node(k));
            }
        }
    }

    /// The facts of a split, gathered.
    proof fn lemma_split_at_holds(a: BinaryTrie, z: BinaryTrie, x: int, offset: int, xn: TrieNode, rn: TrieNode)
        requires
            a.building(),
            a.valid(x),
            0 <= offset < a.node(x).skip_len,
            z.root == a.root,
            z.addr_bits == a.addr_bits,
            z.arena@.len() == a.arena@.len() + 1,
            z.arena@[a.arena@.len() as int] == rn,
            rn.depth == a.node(x).depth + offset + 1,
            rn.skip_len == a.node(x).skip_len - offset - 1,
            rn.skip_bits as int == a.node(x).skip_bits as int % pow2((a.node(x).skip_len - offset - 1) as nat) as int,
            rn.parent == x,
            rn.children == a.node(x).children,
            rn.is_leaf == a.node(x).is_leaf,
            z.arena@[x] == xn,
            xn.depth == a.node(x).depth,
            xn.parent == a.node(x).parent,
            xn.skip_len == offset,
            xn.skip_bits as int == a.node(x).skip_bits as int / pow2((a.node(x).skip_len - offset) as nat) as int,
            xn.children[path_bit(a.node(x).skip_bits, a.node(x).skip_len as int, offset) as int] == a.arena@.len() as NodeIdx,
            xn.children[1 - path_bit(a.node(x).skip_bits, a.node(x).skip_len as int, offset) as int] == INVALID,
            !xn.is_leaf,
            forall|k: int| 0 <= k < a.arena@.len() && k != x && k != a.node(x).children[0] as int
                && k != a.node(x).children[1] as int ==> #[trigger] z.arena@[k] == a.arena@[k],
            forall|b: int| 0 <= b < 2 && #[trigger] a.node(x).children[b] != INVALID ==>
                z.arena@[a.node(x).children[b] as int] == (TrieNode {
                    parent: a.arena@.len() as NodeIdx,
                    ..a.arena@[a.node(x).children[b] as int]
                }),
        ensures
            split_at(a, z, x, offset),
    {
        reveal(BinaryTrie::building);
        let rem = a.arena@.len() as int;
        let o = a.node(x);
        assert(a.arena@[x] == a.node(x));
        assert forall|j: int| 0 <= j < rem && j != x implies {
            &&& (#[trigger] z.arena@[j]).children == a.arena@[j].children
            &&& z.arena@[j].depth == a.arena@[j].depth
            &&& z.arena@[j].skip_len == a.arena@[j].skip_len
            &&& z.arena@[j].skip_bits == a.arena@[j].skip_bits
            &&& z.arena@[j].is_leaf == a.arena@[j].is_leaf
            &&& z.arena@[j].parent == if o.children[0] == j as NodeIdx || o.children[1] == j as NodeIdx {
                rem as NodeIdx
            } else {
                a.arena@[j].parent
            }
        } by {
            if o.children[0] == j as NodeIdx {
                assert(o.children[0] != INVALID);
            } else if o.children[1] == j as NodeIdx {
                assert(o.children[1] != INVALID);
            } else {
                assert(z.arena@[j] == a.arena@[j]);
            }
        }
    }

    /// Splitting the compressed path of `x` after `offset` bits: the
    /// remainder `rem` takes over the rest of the path and the children.
    #[verifier::rlimit(30)]
    proof fn lemma_split(a: BinaryTrie, z: BinaryTrie, x: int, offset: int, bb: int, xn: TrieNode, rn: TrieNode)
        requires
            a.building(),
            a.valid(x),
            0 <= offset < a.node(x).skip_len,
            a.arena@.len() < u32::MAX,
            0 <= bb < 2,
            z.root == a.root,
            z.addr_bits == a.addr_bits,
            z.arena@.len() == a.arena@.len() + 1,
            z.arena@[a.arena@.len() as int] == rn,
            rn.depth == a.node(x).depth + offset + 1,
            rn.skip_len == a.node(x).skip_len - offset - 1,
            rn.skip_bits < pow2(rn.skip_len as nat),
            rn.parent == x,
            rn.children == a.node(x).children,
            rn.leaf_count == a.node(x).leaf_count,
            !rn.is_excluded,
            z.arena@[x] == xn,
            xn.depth == a.node(x).depth,
            xn.parent == a.node(x).parent,
            xn.skip_len == offset,
            xn.skip_bits < pow2(offset as nat),
            xn.children[bb] == a.arena@.len() as NodeIdx,
            xn.children[1 - bb] == INVALID,
            xn.leaf_count == a.node(x).leaf_count,
            xn.is_excluded == a.node(x).is_excluded,
            forall|k: int| 0 <= k < a.arena@.len() && k != x && k != a.node(x).children[0] as int
                && k != a.node(x).children[1] as int ==> #[trigger] z.arena@[k] == a.arena@[k],
            forall|b: int| 0 <= b < 2 && #[trigger] a.node(x).children[b] != INVALID ==>
                z.arena@[a.node(x).children[b] as int] == (TrieNode {
                    parent: a.arena@.len() as NodeIdx,
                    ..a.arena@[a.node(x).children[b] as int]
                }),
        ensures
            z.building(),
    {
        reveal(BinaryTrie::building);
        let rem = a.arena@.len() as int;
        let c0 = a.node(x).children[0];
        let c1 = a.node(x).children[1];
        assert(a.arena@[x] == a.node(x));
        assert(a.arena@[a.root as int] == a.node(a.root as int));
        assert(z.arena@[rem] == rn);
        if c0 != INVALID {
            assert(a.arena@[c0 as int] == a.node(c0 as int));
            assert(z.arena@[c0 as int].parent == rem);
        }
        if c1 != INVALID {
            assert(a.arena@[c1 as int] == a.node(c1 as int));
            assert(z.arena@[c1 as int].parent == rem);
        }
        assert(z.arena@[z.root as int] == z.node(z.root as int));
        assert(x != a.root ==> z.arena@[a.node(x).parent as int] == a.arena@[a.node(x).parent as int]) by {
            if x != a.root {
                let p = a.node(x).parent as int;
                assert(a.arena@[p] == a.node(p));
            }
        }
        assert forall|i: int| #![trigger z.arena@[i]] z.valid(i) implies {
            &&& z.node(i).depth + z.node(i).skip_len <= z.addr_bits
            &&& z.node(i).skip_bits < pow2(z.node(i).skip_len as nat)
            &&& i != z.root ==> {
                &&& z.valid(z.node(i).parent as int)
                &&& z.node(i).depth == z.node(z.node(i).parent as int).depth
                    + z.node(z.node(i).parent as int).skip_len + 1
            }
            &&& forall|bq: int| 0 <= bq < 2 ==> {
                let c = #[trigger] z.node(i).children[bq];
                c == INVALID || (z.valid(c as int) && z.node(c as int).parent == i && c != z.root)
            }
            &&& z.node(i).children[0] == INVALID || z.node(i).children[0] != z.node(i).children[1]
        } by {
            if i == rem {
            } else if i == x {
            } else {
                assert(a.arena@[i] == a.node(i));
                if i != z.root {
                    let p = a.node(i).parent as int;
                    assert(a.arena@[p] == a.node(p));
                    if p == x {
                        assert(i == c0 || i == c1);
                    }
                }
                assert forall|bq: int| 0 <= bq < 2 implies {
                    let c = #[trigger] z.node(i).children[bq];
                    c == INVALID || (z.valid(c as int) && z.node(c as int).parent == i && c != z.root)
                } by {
                    let c = a.node(i).children[bq];
                    if c != INVALID {
                        assert(a.arena@[c as int] == a.node(c as int));
                    }
                }
            }
        }
        assert forall|k: int| #![trigger z.arena@[k]] z.valid(k) && k != z.root implies
            z.node(z.node(k).parent as int).children[0] == k as NodeIdx
            || z.node(z.node(k).parent as int).children[1] == k as NodeIdx by {
            if k != rem && k != x {
                assert(a.arena@[k] == a.node(k));
                let p = a.node(k).parent as int;
                assert(a.arena@[p] == a.node(p));
            }
        }
        assert forall|k: int| #![trigger z.arena@[k]] z.valid(k) implies z.node(k).leaf_count <= 1 && !z.node(k).is_excluded by {
            if k != rem {
                assert(a.arena@[k] == a.node(k));
            }
        }
    }

    /// Splits the compressed path of a node after `offset` bits. A new
    /// remainder node takes over the rest of the path (less the bit at the split
    /// point, which becomes the branch to it) together with the node's children,
    /// leaf flag, coverage and counts; the node keeps the first `offset` bits and
    /// the remainder as its only child.
    #[verifier::rlimit(80)]
    fn split_node(&mut self, node_idx: NodeIdx, offset: u8) -> (r: Result<(), OptimizeError>)
        requires
            old(self).building(),
            old(self).valid(node_idx as int),
            offset < old(self).node(node_idx as int).skip_len,
        ensures
            final(self).root == old(self).root,
            final(self).addr_bits == old(self).addr_bits,
            match r {
                Ok(_) => {
                    let x = old(self).node(node_idx as int);
                    let rem = old(self).arena@.len() as int;
                    let bb = path_bit(x.skip_bits, x.skip_len as int, offset as int) as int;
                    &&& final(self).building()
                    &&& final(self).arena@.len() == rem + 1
                    &&& final(self).node(node_idx as int).depth == x.depth
                    &&& final(self).node(node_idx as int).skip_len == offset
                    &&& final(self).node(node_idx as int).is_leaf == false
                    &&& final(self).node(node_idx as int).children[bb] == rem as NodeIdx
                    &&& final(self).node(node_idx as int).children[1 - bb] == INVALID
                    &&& final(self).node(rem).depth == x.depth + offset + 1
                    &&& final(self).node(rem).skip_len == x.skip_len - offset - 1
                    &&& final(self).node(rem).children == x.children
                    &&& final(self).node(rem).is_leaf == x.is_leaf
                    &&& final(self).node(rem).coverage == x.coverage
                    &&& final(self).node(rem).leaf_count == x.leaf_count
                    &&& final(self).node(rem).collapsed_cost_sum == x.collapsed_cost_sum
                    &&& final(self).node(node_idx as int).leaf_count == x.leaf_count
                    &&& forall|k: int| 0 <= k < rem && k != node_idx && k != x.children[0] as int
                        && k != x.children[1] as int ==> #[trigger] final(self).arena@[k] == old(self).arena@[k]
                    &&& forall|b: int| 0 <= b < 2 && #[trigger] x.children[b] != INVALID ==>
                        final(self).arena@[x.children[b] as int] == (TrieNode { parent: rem as NodeIdx, ..old(self).arena@[x.children[b] as int] })
                    &&& old(self).settled() ==> final(self).settled()
                    &&& split_at(*old(self), *final(self), node_idx as int, offset as int)
                },
                Err(e) => {
                    &&& e is ArenaOverflow
                    &&& old(self).arena@.len() >= u32::MAX
                    &&& *final(self) == *old(self)
                },
            },
    {
        let ghost a = *self;
        let ghost x = node_idx as int;
        let node = self.arena[node_idx as usize];
        let old_skip_len = node.skip_len;
        let old_skip_bits = node.skip_bits;
        let old_depth = node.depth;
        proof {
            a.lemma_building_node(x);
        }
        // The remainder node holds the suffix of the compressed path.
        let remainder_node = match self.alloc_node() {
            Ok(idx) => idx,
            Err(e) => {
                return Err(e);
            },
        };
        let ghost b = *self;
        let remainder_skip_len: u8 = old_skip_len - offset - 1;
        // The bit at the split point decides which child slot takes the remainder.
        let sb: u128 = (old_skip_bits >> ((old_skip_len - 1 - offset) as u128)) & 1;
        proof {
            lemma_bit_lt_2(old_skip_bits, (old_skip_len - 1 - offset) as u128);
        }
        let branch_bit_in_skip: usize = sb as usize;
        let remainder_bits: u128 = if remainder_skip_len > 0 {
            proof {
                lemma_mask_bound(old_skip_bits, remainder_skip_len as u128);
            }
            old_skip_bits & ((1u128 << (remainder_skip_len as u128)) - 1)
        } else {
            0
        };
        proof {
            lemma_pow2_pos(0);
            vstd::arithmetic::power2::lemma2_to64();
        }
        let orig = self.arena[node_idx as usize];
        let mut rn = self.arena[remainder_node as usize];
        rn.depth = (old_depth as u16 + offset as u16 + 1) as u8;
        rn.skip_len = remainder_skip_len;
        rn.skip_bits = remainder_bits;
        rn.parent = node_idx;
        rn.children = orig.children;
        rn.is_leaf = orig.is_leaf;
        rn.coverage = orig.coverage;
        rn.leaf_count = orig.leaf_count;
        rn.collapsed_cost_sum = orig.collapsed_cost_sum;
        self.arena.set(remainder_node as usize, rn);
        let c0 = orig.children[0];
        let c1 = orig.children[1];
        if c0 != INVALID {
            let mut cn = self.arena[c0 as usize];
            cn.parent = remainder_node;
            self.arena.set(c0 as usize, cn);
        }
        if c1 != INVALID {
            let mut cn = self.arena[c1 as usize];
            cn.parent = remainder_node;
            self.arena.set(c1 as usize, cn);
        }
        let new_skip_len: u8 = offset;
        let new_skip_bits: u128 = if new_skip_len > 0 {
            proof {
                lemma_pow2_adds(offset as nat, (old_skip_len - offset) as nat);
                lemma_shr_bound(old_skip_bits, offset as nat, (old_skip_len - offset) as nat);
            }
            old_skip_bits >> ((old_skip_len - offset) as u128)
        } else {
            0
        };
        let mut xn = self.arena[node_idx as usize];
        xn.skip_len = new_skip_len;
        xn.skip_bits = new_skip_bits;
        xn.children = if branch_bit_in_skip == 1 {
            [INVALID, remainder_node]
        } else {
            [remainder_node, INVALID]
        };
        xn.is_leaf = false;
        xn.coverage = orig.coverage;
        xn.leaf_count = orig.leaf_count;
        self.arena.set(node_idx as usize, xn);
        proof {
            Self::lemma_split(a, *self, x, offset as int, branch_bit_in_skip as int, xn, rn);
            if a.settled() {
                Self::lemma_split_settled(a, *self, x, xn, rn);
            }
            let sl = old_skip_len as int;
            lemma_pow2_pos((sl - offset) as nat);
            if offset > 0 {
                vstd::bits::lemma_u128_shr_is_div(old_skip_bits, (old_skip_len - offset) as u128);
            } else {
                vstd::arithmetic::div_mod::lemma_basic_div(old_skip_bits as int, pow2(sl as nat) as int);
            }
            if remainder_skip_len > 0 {
                lemma_mask_mod(old_skip_bits, remainder_skip_len as nat);
            } else {
                assert(pow2(0) == 1) by {
                    vstd::arithmetic::power2::lemma2_to64();
                }
            }
            assert(branch_bit_in_skip as int == path_bit(old_skip_bits, sl, offset as int) as int);
            Self::lemma_split_at_holds(a, *self, x, offset as int, xn, rn);
        }
        Ok(())
    }

    /// Inserts a prefix (its bits at the top of `key`, `prefix_len` of them)
    /// with the given address coverage. Walks from the root along the key bits,
    /// splitting a compressed path where the key leaves it or ends inside it;
    /// the node where the key ends becomes a leaf and adds `coverage`
    /// (saturating), or a new leaf holding the rest of the key as its compressed
    /// path is hung below the last node. Fails only when the arena is full.
    #[verifier::rlimit(40)]
    #[verifier::spinoff_prover]
    pub(crate) fn insert(&mut self, key: u128, prefix_len: u8, coverage: u128) -> (r: Result<(), OptimizeError>)
        requires
            old(self).building(),
            prefix_len <= old(self).addr_bits,
        ensures
            final(self).building(),
            r is Ok ==> final(self).holds_key(key, prefix_len as int),
            r is Ok ==> forall|k2: u128, l2: int| #[trigger] old(self).holds_key(k2, l2) ==> final(self).holds_key(k2, l2),
            r is Ok && old(self).settled() && 1 <= prefix_len
                && coverage as int == Self::leaf_coverage(old(self).addr_bits, prefix_len as int) ==> final(self).settled(),
            final(self).root == old(self).root,
            final(self).addr_bits == old(self).addr_bits,
            old(self).arena@.len() <= final(self).arena@.len() <= old(self).arena@.len() + 2,
            match r {
                Ok(_) => true,
                Err(e) => e is ArenaOverflow && final(self).arena@.len() >= u32::MAX,
            },
    {
        let ghost a = *self;
        let mut cur = self.root;
        let mut bit_pos: u16 = 0;
        proof {
            a.lemma_building_root();
            lemma_pow2_128();
            vstd::arithmetic::div_mod::lemma_basic_div(key as int, pow2(128) as int);
            assert(key_top(key, 0) == 0);
        }
        loop
            invariant
                a == *old(self),
                *self == a,
                a.building(),
                prefix_len <= a.addr_bits,
                a.valid(cur as int),
                bit_pos as int == a.node(cur as int).depth,
                bit_pos <= prefix_len,
                a.path_above(cur as int) == key_top(key, bit_pos as int),
                a.reach(a.root as int, cur as int) || a.holds_key(key, prefix_len as int),
            decreases prefix_len - bit_pos,
        {
            let node = self.arena[cur as usize];
            proof {
                a.lemma_building_node(cur as int);
            }
            let node_skip_len: u16 = node.skip_len as u16;
            if node_skip_len > 0 {
                // Compare the key against this node's compressed path.
                let mut mismatch_offset: u16 = 0;
                let mut matched_all = true;
                while mismatch_offset < node_skip_len
                    invariant_except_break
                        matched_all,
                        mismatch_offset <= node_skip_len,
                        bit_pos + mismatch_offset <= prefix_len,
                    invariant
                        bit_pos <= prefix_len,
                        prefix_len <= 128,
                        node_skip_len == node.skip_len,
                        node_skip_len <= 128,
                        forall|o: int| 0 <= o < mismatch_offset ==> #[trigger] key_bit(key, bit_pos + o)
                            == path_bit(node.skip_bits, node_skip_len as int, o),
                    ensures
                        matched_all ==> mismatch_offset == node_skip_len && bit_pos + node_skip_len <= prefix_len,
                        !matched_all ==> mismatch_offset < node_skip_len && (bit_pos + mismatch_offset == prefix_len
                            || (bit_pos + mismatch_offset < prefix_len
                                && key_bit(key, bit_pos + mismatch_offset) != path_bit(node.skip_bits, node_skip_len as int, mismatch_offset as int))),
                    decreases node_skip_len - mismatch_offset,
                {
                    let target_bit_pos: u16 = bit_pos + mismatch_offset;
                    // The key ends inside this node's path.
                    if target_bit_pos >= prefix_len as u16 {
                        matched_all = false;
                        break;
                    }
                    let key_bit_v: u128 = (key >> ((127 - target_bit_pos) as u128)) & 1;
                    let skip_bit_v: u128 = (node.skip_bits >> ((node_skip_len - 1 - mismatch_offset) as u128)) & 1;
                    if key_bit_v != skip_bit_v {
                        matched_all = false;
                        break;
                    }
                    mismatch_offset += 1;
                }
                if !matched_all {
                    match self.split_node(cur, mismatch_offset as u8) {
                        Ok(_) => {},
                        Err(e) => {
                            return Err(e);
                        },
                    }
                    proof {
                        a.lemma_building_parts();
                        self.lemma_building_parts();
                        lemma_walk_split(a, *self, cur as int, mismatch_offset as int, key, bit_pos as int, prefix_len as int);
                        let t = bit_pos + mismatch_offset;
                        let bb = path_bit(node.skip_bits, node_skip_len as int, mismatch_offset as int);
                        lemma_bit_lt_2(node.skip_bits, (node_skip_len - 1 - mismatch_offset) as u128);
                        lemma_bit_lt_2(key, (127 - t) as u128);
                        if t < prefix_len {
                            assert(key_bit(key, t) == 1 - bb);
                            assert(self.node(cur as int).children[key_bit(key, t) as int] == INVALID);
                        }
                    }
                    bit_pos += mismatch_offset;
                } else {
                    proof {
                        a.lemma_building_parts();
                        lemma_walk_match(a, cur as int, key, bit_pos as int, prefix_len as int);
                    }
                    bit_pos += node_skip_len;
                }
            } else {
                proof {
                    a.lemma_building_parts();
                    lemma_walk_match(a, cur as int, key, bit_pos as int, prefix_len as int);
                }
            }
            let ghost pre = *self;
            proof {
                pre.lemma_building_node(cur as int);
                pre.lemma_building_parts();
                assert(walk_ok(a, pre, cur as int, key, bit_pos as int, prefix_len as int));
            }
            if bit_pos == prefix_len as u16 {
                self.mark_leaf(cur, coverage, Ghost(a), Ghost(key), Ghost(prefix_len as int));
                return Ok(());
            }
            let kb: u128 = (key >> ((127 - bit_pos) as u128)) & 1;
            proof {
                lemma_bit_lt_2(key, (127 - bit_pos) as u128);
            }
            assert(kb == key_bit(key, bit_pos as int));
            let branch_bit: usize = kb as usize;
            bit_pos += 1;
            let child = self.arena[cur as usize].children[branch_bit];
            if child == INVALID {
                return self.hang_leaf(cur, branch_bit, bit_pos, key, prefix_len, coverage, Ghost(a));
            }
            proof {
                lemma_walk_down(a, cur as int, branch_bit as int, key, prefix_len as int);
            }
            cur = child;
        }
    }

    /// Marks `cur`, the node where the walk for `key` ended, as a leaf and adds
    /// `coverage` to its address count (saturating).
    fn mark_leaf(&mut self, cur: NodeIdx, coverage: u128, Ghost(a): Ghost<BinaryTrie>, Ghost(key): Ghost<u128>, Ghost(len): Ghost<int>)
        requires
            old(self).building(),
            walk_ok(a, *old(self), cur as int, key, len, len),
        ensures
            final(self).building(),
            final(self).root == old(self).root,
            final(self).addr_bits == old(self).addr_bits,
            final(self).arena@.len() == old(self).arena@.len(),
            final(self).holds_key(key, len),
            forall|k2: u128, l2: int| #[trigger] a.holds_key(k2, l2) ==> final(self).holds_key(k2, l2),
            old(self).settled() && 1 <= len && coverage as int == Self::leaf_coverage(old(self).addr_bits, len)
                ==> final(self).settled(),
    {
        let ghost pre = *self;
        proof {
            pre.lemma_building_node(cur as int);
            pre.lemma_building_parts();
        }
        let mut n = self.arena[cur as usize];
        n.is_leaf = true;
        n.coverage = n.coverage.saturating_add(coverage);
        self.arena.set(cur as usize, n);
        proof {
            Self::lemma_links_building(pre, *self);
            if pre.settled() && 1 <= len && coverage as int == Self::leaf_coverage(pre.addr_bits, len) {
                assert(pre.node(cur as int).depth + pre.node(cur as int).skip_len == len);
                Self::lemma_mark_settled(pre, *self, cur as int, n);
            }
            lemma_walk_mark(a, pre, *self, cur as int, key, len);
        }
    }

    /// Hangs a new leaf below `cur`, in its empty child slot `branch_bit`; the
    /// leaf starts at depth `bit_pos` and keeps the rest of the key's first
    /// `prefix_len` bits as its compressed path. Fails only when the arena is
    /// full.
    #[verifier::rlimit(40)]
    fn hang_leaf(&mut self, cur: NodeIdx, branch_bit: usize, bit_pos: u16, key: u128, prefix_len: u8, coverage: u128, Ghost(a): Ghost<BinaryTrie>) -> (r: Result<(), OptimizeError>)
        requires
            old(self).building(),
            prefix_len <= old(self).addr_bits,
            1 <= bit_pos <= prefix_len,
            walk_ok(a, *old(self), cur as int, key, bit_pos - 1, prefix_len as int),
            branch_bit < 2,
            branch_bit as int == key_bit(key, bit_pos - 1) as int,
            old(self).node(cur as int).children[branch_bit as int] == INVALID,
        ensures
            final(self).building(),
            final(self).root == old(self).root,
            final(self).addr_bits == old(self).addr_bits,
            old(self).arena@.len() <= final(self).arena@.len() <= old(self).arena@.len() + 1,
            r is Ok ==> final(self).holds_key(key, prefix_len as int),
            r is Ok ==> forall|k2: u128, l2: int| #[trigger] a.holds_key(k2, l2) ==> final(self).holds_key(k2, l2),
            r is Ok && old(self).settled() && coverage as int == Self::leaf_coverage(old(self).addr_bits, prefix_len as int)
                ==> final(self).settled(),
            match r {
                Ok(_) => true,
                Err(e) => e is ArenaOverflow && final(self).arena@.len() >= u32::MAX,
            },
    {
        let ghost pre = *self;
        proof {
            pre.lemma_building_node(cur as int);
            pre.lemma_building_parts();
        }
        let new_node = match self.alloc_node() {
            Ok(idx) => idx,
            Err(e) => {
                return Err(e);
            },
        };
        let remaining: u16 = prefix_len as u16 - bit_pos;
        let skip_bits: u128 = if remaining > 0 && remaining < 128 {
            proof {
                lemma_mask_bound(key >> ((128 - bit_pos - remaining) as u128), remaining as u128);
            }
            (key >> ((128 - bit_pos - remaining) as u128)) & ((1u128 << (remaining as u128)) - 1)
        } else {
            0
        };
        proof {
            vstd::arithmetic::power2::lemma2_to64();
            lemma_pow2_pos(remaining as nat);
        }
        let mut nn = self.arena[new_node as usize];
        nn.depth = bit_pos as u8;
        nn.skip_len = remaining as u8;
        nn.skip_bits = skip_bits;
        nn.parent = cur;
        nn.is_leaf = true;
        nn.coverage = coverage;
        nn.leaf_count = 1;
        self.arena.set(new_node as usize, nn);
        let mut cn = self.arena[cur as usize];
        cn.children = if branch_bit == 1 {
            [cn.children[0], new_node]
        } else {
            [new_node, cn.children[1]]
        };
        self.arena.set(cur as usize, cn);
        proof {
            assert(self.arena@ =~= pre.arena@.update(cur as int, TrieNode { children: cn.children, ..pre.node(cur as int) }).push(nn));
            Self::lemma_add_leaf(pre, *self, cur as int, branch_bit as int, nn, cn.children);
            if pre.settled() && coverage as int == Self::leaf_coverage(pre.addr_bits, prefix_len as int) {
                Self::lemma_hang_settled(pre, *self, cur as int, nn, cn.children);
            }
            lemma_hung_from_update(pre, *self, cur as int, branch_bit as int, nn, cn.children);
            self.lemma_building_parts();
            lemma_walk_hang(a, pre, *self, cur as int, branch_bit as int, nn, key, prefix_len as int);
        }
        Ok(())
    }

    /// Allocates a fresh node at the end of the arena, or fails when the arena
    /// has reached `u32::MAX` nodes (that index is the sentinel `INVALID`).
    fn alloc_node(&mut self) -> (r: Result<NodeIdx, OptimizeError>)
        ensures
            final(self).root == old(self).root,
            final(self).addr_bits == old(self).addr_bits,
            match r {
                Ok(idx) => {
                    &&& old(self).arena@.len() < u32::MAX
                    &&& idx as int == old(self).arena@.len()
                    &&& final(self).arena@ == old(self).arena@.push(final(self).arena@[idx as int])
                    &&& final(self).arena@[idx as int].is_fresh()
                },
                Err(e) => {
                    &&& e is ArenaOverflow
                    &&& old(self).arena@.len() >= u32::MAX
                    &&& *final(self) == *old(self)
                },
            },
    {
        let len: usize = self.arena.len();
        if len >= 4294967295usize {
            return Err(OptimizeError::ArenaOverflow);
        }
        let idx: NodeIdx = len as NodeIdx;
        self.arena.push(TrieNode::default());
        Ok(idx)
    }
}

impl BinaryTrie {
    /// The building invariant gives well-formedness and no orphans.
    proof fn lemma_building_parts(self)
        requires
            self.building(),
        ensures
            self.wf(),
            self.no_orphans(),
    {
        reveal(BinaryTrie::building);
    }

    /// The building invariant gives well-formedness and leaf counts of at most one.
    proof fn lemma_building_wf(self)
        requires
            self.building(),
        ensures
            self.wf(),
            forall|k: int| 0 <= k < self.arena@.len() ==> (#[trigger] self.arena@[k]).leaf_count <= 1,
    {
        reveal(BinaryTrie::building);
        assert forall|k: int| 0 <= k < self.arena@.len() implies (#[trigger] self.arena@[k]).leaf_count <= 1 by {
            assert(self.arena@[k] == self.node(k));
        }
    }

    /// A trie holding only a fresh root node.
    fn with_root(addr_bits: u8) -> (r: Result<BinaryTrie, OptimizeError>)
        requires
            addr_bits == 32 || addr_bits == 128,
        ensures
            r matches Ok(t) && t.building() && t.settled() && t.addr_bits == addr_bits && t.arena@.len() == 1,
    {
        let mut trie = BinaryTrie { arena: Vec::new(), root: 0, addr_bits };
        let root = match trie.alloc_node() {
            Ok(idx) => idx,
            Err(e) => {
                return Err(e);
            },
        };
        trie.root = root;
        proof {
            reveal(BinaryTrie::building);
            assert(trie.arena@[0] == trie.node(0));
            vstd::arithmetic::power2::lemma2_to64();
        }
        Ok(trie)
    }

    /// Builds a trie from pre-aggregated IPv4 prefixes: inserts each prefix
    /// (address in the top 32 bits of the key, coverage `2^(32 - len)`), then
    /// computes coverage and leaf counts bottom-up. Fails only when the arena
    /// would outgrow `u32::MAX` nodes, which needs more than about `2^31` prefixes.
    pub fn build_from_v4(lossless: &[SourceMapPrefix]) -> (r: Result<BinaryTrie, OptimizeError>)
        requires
            forall|i: int| 0 <= i < lossless@.len() ==> (#[trigger] lossless@[i]).prefix.wf(32),
        ensures
            match r {
                Ok(t) => {
                    &&& t.ready()
                    &&& t.addr_bits == 32
                    &&& crate::progress::unreached_small(t)
                    &&& crate::progress::none_excluded(t)
                    &&& (forall|i: int| 0 <= i < lossless@.len() ==> (#[trigger] lossless@[i]).prefix.len >= 1)
                        ==> t.settled()
                    &&& forall|i: int| 0 <= i < lossless@.len() ==>
                        t.holds_key(key_of(lossless@[i].prefix, 32), #[trigger] lossless@[i].prefix.len as int)
                },
                Err(e) => e is ArenaOverflow && 2 * lossless@.len() + 1 >= u32::MAX,
            },
    {
        let ghost positive = forall|i: int| 0 <= i < lossless@.len() ==> (#[trigger] lossless@[i]).prefix.len >= 1;
        let mut trie = match Self::with_root(32) {
            Ok(t) => t,
            Err(e) => {
                return Err(e);
            },
        };
        let mut i: usize = 0;
        while i < lossless.len()
            invariant
                forall|k: int| 0 <= k < lossless@.len() ==> (#[trigger] lossless@[k]).prefix.wf(32),
                i <= lossless@.len(),
                trie.building(),
                trie.addr_bits == 32,
                trie.arena@.len() <= 1 + 2 * i,
                positive == (forall|k: int| 0 <= k < lossless@.len() ==> (#[trigger] lossless@[k]).prefix.len >= 1),
                positive ==> trie.settled(),
                forall|m: int| 0 <= m < i ==>
                    trie.holds_key(key_of(lossless@[m].prefix, 32), #[trigger] lossless@[m].prefix.len as int),
            decreases lossless@.len() - i,
        {
            let entry = &lossless[i];
            let addr: u128 = network(entry.prefix, 32);
            // The 32-bit address goes into the top bits of the key.
            let key: u128 = addr << 96u128;
            proof {
                entry.prefix.lemma_has_bits(32);
                lemma_pow2_128();
                assert(addr < 0x1_0000_0000u128);
                assert(addr << 96u128 == addr * 0x1_0000_0000_0000_0000_0000_0000u128) by (bit_vector)
                    requires addr < 0x1_0000_0000u128;
                vstd::arithmetic::power2::lemma2_to64();
                lemma_pow2_adds(64, 32);
                assert(key == key_of(lossless@[i as int].prefix, 32));
            }
            let prefix_len: u8 = entry.prefix.len;
            let coverage: u128 = if prefix_len == 32 {
                1u128
            } else {
                1u128 << ((32 - prefix_len) as u128)
            };
            proof {
                if prefix_len < 32 {
                    lemma_u128_one_shl((32 - prefix_len) as u128);
                }
                if positive {
                    assert(lossless@[i as int].prefix.len >= 1);
                }
            }
            match trie.insert(key, prefix_len, coverage) {
                Ok(_) => {},
                Err(e) => {
                    return Err(e);
                },
            }
            i = i + 1;
        }
        let ghost pre = trie;
        proof {
            trie.lemma_building_wf();
            trie.lemma_building_root();
        }
        let root = trie.root;
        trie.compute_metadata(root);
        proof {
            Self::lemma_meta_ready(pre, trie);
            if pre.settled() {
                Self::lemma_meta_settled(pre, trie);
            }
            Self::lemma_meta_shape(pre, trie, pre.root as int);
            reveal(BinaryTrie::building);
            Self::lemma_meta_unreached(pre, trie);
            assert forall|m: int| 0 <= m < lossless@.len() implies
                trie.holds_key(key_of(lossless@[m].prefix, 32), #[trigger] lossless@[m].prefix.len as int) by {
                lemma_shape_holds(pre, trie, key_of(lossless@[m].prefix, 32), lossless@[m].prefix.len as int);
            }
        }
        Ok(trie)
    }

    /// Builds a trie from pre-aggregated IPv6 prefixes: inserts each prefix
    /// (coverage `2^(128 - len)`), then computes coverage and leaf counts
    /// bottom-up. The whole space `::/0` cannot be counted in a `u128` and is
    /// left out. Fails only when the arena would outgrow `u32::MAX` nodes.
    pub fn build_from_v6(lossless: &[SourceMapPrefix]) -> (r: Result<BinaryTrie, OptimizeError>)
        requires
            forall|i: int| 0 <= i < lossless@.len() ==> (#[trigger] lossless@[i]).prefix.wf(128)
                && lossless@[i].prefix.len >= 1,
        ensures
            match r {
                Ok(t) => {
                    &&& t.ready()
                    &&& t.addr_bits == 128
                    &&& crate::progress::unreached_small(t)
                    &&& crate::progress::none_excluded(t)
                    &&& t.settled()
                    &&& forall|i: int| 0 <= i < lossless@.len() ==>
                        t.holds_key(key_of(lossless@[i].prefix, 128), #[trigger] lossless@[i].prefix.len as int)
                },
                Err(e) => e is ArenaOverflow && 2 * lossless@.len() + 1 >= u32::MAX,
            },
    {
        let mut trie = match Self::with_root(128) {
            Ok(t) => t,
            Err(e) => {
                return Err(e);
            },
        };
        let mut i: usize = 0;
        while i < lossless.len()
            invariant
                forall|k: int| 0 <= k < lossless@.len() ==> (#[trigger] lossless@[k]).prefix.wf(128)
                    && lossless@[k].prefix.len >= 1,
                i <= lossless@.len(),
                trie.building(),
                trie.addr_bits == 128,
                trie.arena@.len() <= 1 + 2 * i,
                trie.settled(),
                forall|m: int| 0 <= m < i ==>
                    trie.holds_key(key_of(lossless@[m].prefix, 128), #[trigger] lossless@[m].prefix.len as int),
            decreases lossless@.len() - i,
        {
            let entry = &lossless[i];
            let key: u128 = network(entry.prefix, 128);
            proof {
                entry.prefix.lemma_has_bits(128);
                assert(pow2(0) == 1) by {
                    vstd::arithmetic::power2::lemma2_to64();
                }
                vstd::arithmetic::mul::lemma_mul_basics(entry.prefix.net(128));
                assert((128 - 128u8) as nat == 0);
                assert(key == key_of(lossless@[i as int].prefix, 128));
            }
            let prefix_len: u8 = entry.prefix.len;
            let coverage: u128 = if prefix_len == 128 {
                1u128
            } else {
                1u128 << ((128 - prefix_len) as u128)
            };
            proof {
                if prefix_len < 128 {
                    lemma_u128_one_shl((128 - prefix_len) as u128);
                }
            }
            match trie.insert(key, prefix_len, coverage) {
                Ok(_) => {},
                Err(e) => {
                    return Err(e);
                },
            }
            i = i + 1;
        }
        let ghost pre = trie;
        proof {
            trie.lemma_building_wf();
            trie.lemma_building_root();
        }
        let root = trie.root;
        trie.compute_metadata(root);
        proof {
            Self::lemma_meta_ready(pre, trie);
            if pre.settled() {
                Self::lemma_meta_settled(pre, trie);
            }
            Self::lemma_meta_shape(pre, trie, pre.root as int);
            reveal(BinaryTrie::building);
            Self::lemma_meta_unreached(pre, trie);
            assert forall|m: int| 0 <= m < lossless@.len() implies
                trie.holds_key(key_of(lossless@[m].prefix, 128), #[trigger] lossless@[m].prefix.len as int) by {
                lemma_shape_holds(pre, trie, key_of(lossless@[m].prefix, 128), lossless@[m].prefix.len as int);
            }
        }
        Ok(trie)
    }
}

} // verus!
