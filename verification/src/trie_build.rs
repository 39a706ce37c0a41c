//! Building the trie: computing coverage and leaf counts bottom-up, and
//! inserting prefixes with path compression.
use vstd::prelude::*;
use vstd::arithmetic::power2::pow2;
use crate::trie::{BinaryTrie, TrieNode, NodeIdx, INVALID, same_shape};

verus! {

impl BinaryTrie {
    /// The coverage of an inner node is the (saturating) sum of its children's.
    pub open spec fn coverage_exact_at(self, i: int) -> bool {
        !self.node(i).is_leaf ==> self.node(i).coverage as int == {
            let s = self.child_cov(i, 0) + self.child_cov(i, 1);
            if s > u128::MAX { u128::MAX as int } else { s }
        }
    }

    /// The coverage of child `b` of node `i` (0 for no child).
    pub open spec fn child_cov(self, i: int, b: int) -> int {
        let c = self.node(i).children[b];
        if c == INVALID { 0 } else { self.node(c as int).coverage as int }
    }

    /// The leaf count of node `i` is exact: one for a leaf, else the children's sum.
    pub open spec fn count_exact_at(self, i: int) -> bool {
        self.node(i).leaf_count as int == if self.node(i).is_leaf {
            1
        } else {
            self.child_count(i, 0) + self.child_count(i, 1)
        }
    }

    /// `j` is reached from `i` by following the children of inner nodes
    /// (a leaf's subtree is not entered).
    pub open spec fn reach(self, i: int, j: int) -> bool
        decreases 256 - self.node(i).depth,
    {
        if i == j {
            true
        } else if !self.valid(i) || self.node(i).is_leaf {
            false
        } else {
            let c0 = self.node(i).children[0];
            let c1 = self.node(i).children[1];
            ||| (c0 != INVALID && self.valid(c0 as int) && self.node(c0 as int).depth > self.node(i).depth
                && self.reach(c0 as int, j))
            ||| (c1 != INVALID && self.valid(c1 as int) && self.node(c1 as int).depth > self.node(i).depth
                && self.reach(c1 as int, j))
        }
    }

    pub(crate) proof fn lemma_reach_anc(self, i: int, j: int)
        requires
            self.wf(),
            self.valid(i),
            self.reach(i, j),
        ensures
            self.valid(j),
            self.anc(j, i),
        decreases 256 - self.node(i).depth,
    {
        assert(self.arena@[i] == self.node(i));
        if i == j {
            assert(self.anc(j, i));
        } else {
            let c0 = self.node(i).children[0];
            let c1 = self.node(i).children[1];
            if c0 != INVALID && self.valid(c0 as int) && self.node(c0 as int).depth > self.node(i).depth
                && self.reach(c0 as int, j) {
                self.lemma_reach_anc(c0 as int, j);
                self.lemma_anc_child(j, c0 as int, i);
            } else {
                self.lemma_reach_anc(c1 as int, j);
                self.lemma_anc_child(j, c1 as int, i);
            }
        }
    }

    /// What is reached from the two children of a node is disjoint, and does
    /// not contain the node itself.
    pub(crate) proof fn lemma_reach_disjoint(self, i: int, j: int)
        requires
            self.wf(),
            self.valid(i),
        ensures
            ({
                let c0 = self.node(i).children[0];
                let c1 = self.node(i).children[1];
                &&& c0 != INVALID && c1 != INVALID ==> !(self.reach(c0 as int, j) && self.reach(c1 as int, j))
                &&& c0 != INVALID ==> !self.reach(c0 as int, i)
                &&& c1 != INVALID ==> !self.reach(c1 as int, i)
            }),
    {
        assert(self.arena@[i] == self.node(i));
        let c0 = self.node(i).children[0];
        let c1 = self.node(i).children[1];
        if c0 != INVALID {
            assert(self.arena@[c0 as int] == self.node(c0 as int));
            if self.reach(c0 as int, i) {
                self.lemma_reach_anc(c0 as int, i);
                self.lemma_anc_depth(i, c0 as int);
            }
        }
        if c1 != INVALID {
            assert(self.arena@[c1 as int] == self.node(c1 as int));
            if self.reach(c1 as int, i) {
                self.lemma_reach_anc(c1 as int, i);
                self.lemma_anc_depth(i, c1 as int);
            }
        }
        if c0 != INVALID && c1 != INVALID && self.reach(c0 as int, j) && self.reach(c1 as int, j) {
            self.lemma_reach_anc(c0 as int, j);
            self.lemma_reach_anc(c1 as int, j);
            self.lemma_anc_unique(j, c0 as int, c1 as int);
        }
    }

    /// The children of a reached inner node are reached.
    pub(crate) proof fn lemma_reach_child(self, a: int, j: int, b: int)
        requires
            self.wf(),
            self.valid(a),
            self.reach(a, j),
            !self.node(j).is_leaf,
            0 <= b < 2,
            self.node(j).children[b] != INVALID,
        ensures
            self.reach(a, self.node(j).children[b] as int),
        decreases 256 - self.node(a).depth,
    {
        self.lemma_reach_anc(a, j);
        assert(self.arena@[j] == self.node(j));
        let cc = self.node(j).children[b] as int;
        assert(self.arena@[cc] == self.node(cc));
        assert(self.reach(cc, cc));
        if a != j {
            assert(self.arena@[a] == self.node(a));
            let c0 = self.node(a).children[0];
            let c1 = self.node(a).children[1];
            if c0 != INVALID && self.valid(c0 as int) && self.node(c0 as int).depth > self.node(a).depth
                && self.reach(c0 as int, j) {
                self.lemma_reach_child(c0 as int, j, b);
            } else {
                self.lemma_reach_child(c1 as int, j, b);
            }
        }
    }

    pub(crate) proof fn lemma_shape_reach(a: BinaryTrie, b: BinaryTrie, i: int, j: int)
        requires
            same_shape(a.arena@, b.arena@),
        ensures
            a.reach(i, j) == b.reach(i, j),
        decreases 256 - a.node(i).depth,
    {
        if a.valid(i) {
            assert(a.arena@[i].children == b.arena@[i].children);
            assert(a.arena@[i].depth == b.arena@[i].depth);
            assert(a.arena@[i].is_leaf == b.arena@[i].is_leaf);
            let c0 = a.node(i).children[0];
            let c1 = a.node(i).children[1];
            if c0 != INVALID && a.valid(c0 as int) {
                assert(a.arena@[c0 as int].depth == b.arena@[c0 as int].depth);
                if a.node(c0 as int).depth > a.node(i).depth {
                    Self::lemma_shape_reach(a, b, c0 as int, j);
                }
            }
            if c1 != INVALID && a.valid(c1 as int) {
                assert(a.arena@[c1 as int].depth == b.arena@[c1 as int].depth);
                if a.node(c1 as int).depth > a.node(i).depth {
                    Self::lemma_shape_reach(a, b, c1 as int, j);
                }
            }
        }
    }

    proof fn lemma_shape_anc(a: BinaryTrie, b: BinaryTrie, j: int, x: int)
        requires
            same_shape(a.arena@, b.arena@),
            a.root == b.root,
        ensures
            a.anc(j, x) == b.anc(j, x),
        decreases a.node(j).depth,
    {
        if j != x && j != a.root && a.valid(j) {
            assert(a.arena@[j].parent == b.arena@[j].parent);
            let p = a.node(j).parent as int;
            if a.valid(p) {
                assert(a.arena@[p].depth == b.arena@[p].depth);
                assert(a.arena@[j].depth == b.arena@[j].depth);
                if a.node(p).depth < a.node(j).depth {
                    Self::lemma_shape_anc(a, b, p, x);
                }
            }
        }
    }

    pub(crate) proof fn lemma_shape_wf(a: BinaryTrie, b: BinaryTrie)
        requires
            a.wf(),
            same_shape(a.arena@, b.arena@),
            a.root == b.root,
            a.addr_bits == b.addr_bits,
        ensures
            b.wf(),
            forall|x: int| #[trigger] b.desc(x) == a.desc(x),
            forall|x: int, y: int| #[trigger] b.reach(x, y) == a.reach(x, y),
    {
        assert forall|i: int| #![trigger b.arena@[i]] b.valid(i) implies {
            &&& b.node(i).depth + b.node(i).skip_len <= b.addr_bits
            &&& b.node(i).skip_bits < pow2(b.node(i).skip_len as nat)
            &&& i != b.root ==> {
                &&& b.valid(b.node(i).parent as int)
                &&& b.node(i).depth == b.node(b.node(i).parent as int).depth
                    + b.node(b.node(i).parent as int).skip_len + 1
            }
            &&& forall|bb: int| 0 <= bb < 2 ==> {
                let c = #[trigger] b.node(i).children[bb];
                c == INVALID || (b.valid(c as int) && b.node(c as int).parent == i && c != b.root)
            }
            &&& b.node(i).children[0] == INVALID || b.node(i).children[0] != b.node(i).children[1]
        } by {
            assert(a.arena@[i] == a.node(i));
            if i != b.root {
                let p = a.node(i).parent as int;
                assert(a.arena@[p] == a.node(p));
                assert(b.arena@[p] == b.node(p));
            }
            assert forall|bb: int| 0 <= bb < 2 implies {
                let c = #[trigger] b.node(i).children[bb];
                c == INVALID || (b.valid(c as int) && b.node(c as int).parent == i && c != b.root)
            } by {
                let c = a.node(i).children[bb];
                if c != INVALID {
                    assert(a.arena@[c as int] == a.node(c as int));
                    assert(b.arena@[c as int] == b.node(c as int));
                }
            }
        }
        assert(b.arena@[b.root as int] == b.node(b.root as int));
        assert(a.arena@[a.root as int] == a.node(a.root as int));
        assert forall|x: int| #[trigger] b.desc(x) == a.desc(x) by {
            assert forall|j: int| b.desc(x).contains(j) <==> a.desc(x).contains(j) by {
                Self::lemma_shape_anc(a, b, j, x);
            }
            assert(b.desc(x) =~= a.desc(x));
        }
        assert forall|x: int, y: int| #[trigger] b.reach(x, y) == a.reach(x, y) by {
            Self::lemma_shape_reach(a, b, x, y);
        }
    }

    /// `b` is `a` after the metadata pass from `i`: every node reached from
    /// `i` has its exact coverage and leaf count, nothing else changed.
    #[verifier::opaque]
    pub(crate) closed spec fn meta_done(a: BinaryTrie, b: BinaryTrie, i: int) -> bool {
        &&& same_shape(a.arena@, b.arena@)
        &&& b.root == a.root
        &&& b.addr_bits == a.addr_bits
        &&& forall|j: int| 0 <= j < a.arena@.len() && !a.reach(i, j) ==>
            #[trigger] b.arena@[j] == a.arena@[j]
        &&& forall|j: int| #[trigger] a.reach(i, j) ==> {
            &&& b.arena@[j] == (TrieNode {
                coverage: b.arena@[j].coverage,
                leaf_count: b.arena@[j].leaf_count,
                ..a.arena@[j]
            })
            &&& b.count_exact_at(j)
            &&& b.coverage_exact_at(j)
            &&& b.node(j).leaf_count <= a.desc(j).len()
        }
        &&& forall|j: int| #[trigger] a.reach(i, j) && a.arena@[j].is_leaf ==>
            b.arena@[j].coverage == a.arena@[j].coverage
    }

    proof fn lemma_meta_leaf(a: BinaryTrie, b: BinaryTrie, i: int)
        requires
            a.wf(),
            a.valid(i),
            a.node(i).is_leaf,
            b.root == a.root,
            b.addr_bits == a.addr_bits,
            b.arena@ == a.arena@.update(i, TrieNode { leaf_count: 1, ..a.arena@[i] }),
        ensures
            Self::meta_done(a, b, i),
    {
        reveal(BinaryTrie::meta_done);
        a.lemma_desc_children(i);
        assert forall|j: int| #[trigger] a.reach(i, j) implies j == i by {}
        assert(same_shape(a.arena@, b.arena@));
    }

    proof fn lemma_meta_frame(a: BinaryTrie, b: BinaryTrie, i: int, j: int)
        requires
            a.wf(),
            a.valid(i),
            Self::meta_done(a, b, i),
            0 <= j < a.arena@.len(),
            !a.reach(i, j),
        ensures
            b.arena@[j] == a.arena@[j],
    {
        reveal(BinaryTrie::meta_done);
    }

    proof fn lemma_meta_at(a: BinaryTrie, b: BinaryTrie, i: int, j: int)
        requires
            a.wf(),
            a.valid(i),
            Self::meta_done(a, b, i),
            a.reach(i, j),
        ensures
            b.arena@[j] == (TrieNode {
                coverage: b.arena@[j].coverage,
                leaf_count: b.arena@[j].leaf_count,
                ..a.arena@[j]
            }),
            b.count_exact_at(j),
            b.coverage_exact_at(j),
            b.node(j).leaf_count <= a.desc(j).len(),
            a.arena@[j].is_leaf ==> b.arena@[j].coverage == a.arena@[j].coverage,
            same_shape(a.arena@, b.arena@),
            b.root == a.root,
            b.addr_bits == a.addr_bits,
    {
        reveal(BinaryTrie::meta_done);
    }

    pub(crate) proof fn lemma_meta_shape(a: BinaryTrie, b: BinaryTrie, i: int)
        requires
            Self::meta_done(a, b, i),
        ensures
            same_shape(a.arena@, b.arena@),
            b.root == a.root,
            b.addr_bits == a.addr_bits,
    {
        reveal(BinaryTrie::meta_done);
    }

    /// The metadata pass from the root leaves the nodes it does not reach as
    /// they were, and changes no exclusion mark.
    pub(crate) proof fn lemma_meta_unreached(a: BinaryTrie, b: BinaryTrie)
        requires
            Self::meta_done(a, b, a.root as int),
            forall|k: int| #![trigger a.arena@[k]] a.valid(k) ==> a.node(k).leaf_count <= 1 && !a.node(k).is_excluded,
        ensures
            crate::progress::unreached_small(b),
            crate::progress::none_excluded(b),
    {
        reveal(BinaryTrie::meta_done);
        assert forall|j: int| b.valid(j) && !crate::progress::live(b, j) implies #[trigger] b.node(j).leaf_count <= 1 by {
            Self::lemma_shape_reach(a, b, a.root as int, j);
            assert(b.arena@[j] == a.arena@[j]);
            assert(a.arena@[j] == a.node(j));
        }
        assert forall|j: int| b.valid(j) implies !(#[trigger] b.arena@[j]).is_excluded by {
            assert(a.arena@[j] == a.node(j));
            if a.reach(a.root as int, j) {
                assert(b.arena@[j].is_excluded == a.arena@[j].is_excluded);
            }
        }
    }

    /// A node reached from a child of `i` is not `i`, nor reached from the other child.
    pub(crate) proof fn lemma_reach_split(self, i: int, j: int)
        requires
            self.wf(),
            self.valid(i),
            !self.node(i).is_leaf,
            self.reach(i, j),
            j != i,
        ensures
            ({
                let c0 = self.node(i).children[0];
                let c1 = self.node(i).children[1];
                ||| (c0 != INVALID && self.reach(c0 as int, j) && (c1 != INVALID ==> !self.reach(c1 as int, j)))
                ||| (c1 != INVALID && self.reach(c1 as int, j) && (c0 != INVALID ==> !self.reach(c0 as int, j)))
            }),
    {
        self.lemma_reach_disjoint(i, j);
    }

    /// The state after the passes over the children of `i` (in `mid` and `fin`)
    /// and the update of `i` itself (in `last`).
    spec fn inner_setup(orig: BinaryTrie, mid: BinaryTrie, fin: BinaryTrie, last: BinaryTrie, i: int) -> bool {
        let c0 = orig.node(i).children[0];
        let c1 = orig.node(i).children[1];
        &&& orig.wf()
        &&& orig.valid(i)
        &&& !orig.node(i).is_leaf
        &&& c0 != INVALID ==> Self::meta_done(orig, mid, c0 as int)
        &&& c0 == INVALID ==> mid == orig
        &&& c1 != INVALID ==> Self::meta_done(mid, fin, c1 as int)
        &&& c1 == INVALID ==> fin == mid
        &&& last.root == fin.root
        &&& last.addr_bits == fin.addr_bits
        &&& last.arena@ == fin.arena@.update(i, TrieNode {
            coverage: last.arena@[i].coverage,
            leaf_count: last.arena@[i].leaf_count,
            ..fin.arena@[i]
        })
        &&& last.arena@[i].leaf_count == fin.child_count(i, 0) + fin.child_count(i, 1)
        &&& last.arena@[i].coverage as int == {
            let s = fin.child_cov(i, 0) + fin.child_cov(i, 1);
            if s > u128::MAX { u128::MAX as int } else { s }
        }
    }

    proof fn lemma_inner_shape(orig: BinaryTrie, mid: BinaryTrie, fin: BinaryTrie, last: BinaryTrie, i: int)
        requires
            Self::inner_setup(orig, mid, fin, last, i),
        ensures
            same_shape(orig.arena@, mid.arena@),
            same_shape(orig.arena@, fin.arena@),
            same_shape(orig.arena@, last.arena@),
            mid.wf(),
            fin.wf(),
            mid.root == orig.root,
            fin.root == orig.root,
            forall|x: int| #[trigger] mid.desc(x) == orig.desc(x),
            forall|x: int, y: int| #[trigger] mid.reach(x, y) == orig.reach(x, y),
            fin.arena@[i] == orig.arena@[i],
            orig.node(i).children[0] != INVALID ==> !orig.reach(orig.node(i).children[0] as int, i),
            orig.node(i).children[1] != INVALID ==> !orig.reach(orig.node(i).children[1] as int, i),
    {
        let c0 = orig.node(i).children[0];
        let c1 = orig.node(i).children[1];
        orig.lemma_reach_disjoint(i, i);
        if c0 != INVALID {
            Self::lemma_meta_shape(orig, mid, c0 as int);
        }
        Self::lemma_shape_wf(orig, mid);
        if c1 != INVALID {
            Self::lemma_meta_shape(mid, fin, c1 as int);
        }
        Self::lemma_shape_wf(mid, fin);
        if c0 != INVALID {
            Self::lemma_meta_frame(orig, mid, c0 as int, i);
        }
        if c1 != INVALID {
            Self::lemma_meta_frame(mid, fin, c1 as int, i);
        }
        assert(same_shape(orig.arena@, fin.arena@));
        assert(same_shape(orig.arena@, last.arena@));
    }

    proof fn lemma_inner_frame(orig: BinaryTrie, mid: BinaryTrie, fin: BinaryTrie, last: BinaryTrie, i: int, j: int)
        requires
            Self::inner_setup(orig, mid, fin, last, i),
            0 <= j < orig.arena@.len(),
            !orig.reach(i, j),
        ensures
            last.arena@[j] == orig.arena@[j],
    {
        Self::lemma_inner_shape(orig, mid, fin, last, i);
        let c0 = orig.node(i).children[0];
        let c1 = orig.node(i).children[1];
        assert(orig.arena@[i] == orig.node(i));
        if c0 != INVALID {
            assert(orig.arena@[c0 as int] == orig.node(c0 as int));
            if orig.reach(c0 as int, j) {
                assert(orig.reach(i, j));
            }
            Self::lemma_meta_frame(orig, mid, c0 as int, j);
        }
        if c1 != INVALID {
            assert(orig.arena@[c1 as int] == orig.node(c1 as int));
            if orig.reach(c1 as int, j) {
                assert(orig.reach(i, j));
            }
            Self::lemma_meta_frame(mid, fin, c1 as int, j);
        }
    }

    proof fn lemma_inner_first(orig: BinaryTrie, mid: BinaryTrie, fin: BinaryTrie, last: BinaryTrie, i: int, j: int)
        requires
            Self::inner_setup(orig, mid, fin, last, i),
            orig.node(i).children[0] != INVALID,
            orig.reach(orig.node(i).children[0] as int, j),
        ensures
            last.arena@[j] == (TrieNode {
                coverage: last.arena@[j].coverage,
                leaf_count: last.arena@[j].leaf_count,
                ..orig.arena@[j]
            }),
            last.count_exact_at(j),
            last.coverage_exact_at(j),
            last.node(j).leaf_count <= orig.desc(j).len(),
            orig.arena@[j].is_leaf ==> last.arena@[j].coverage == orig.arena@[j].coverage,
    {
        Self::lemma_inner_shape(orig, mid, fin, last, i);
        let c0 = orig.node(i).children[0];
        let c1 = orig.node(i).children[1];
        assert(orig.arena@[i] == orig.node(i));
        assert(orig.arena@[c0 as int] == orig.node(c0 as int));
        orig.lemma_reach_anc(c0 as int, j);
        Self::lemma_meta_at(orig, mid, c0 as int, j);
        // untouched by the second pass, and not `i`
        assert(j != i);
        if c1 != INVALID {
            orig.lemma_reach_disjoint(i, j);
            Self::lemma_meta_frame(mid, fin, c1 as int, j);
        }
        assert(last.arena@[j] == mid.arena@[j]);
        if !orig.node(j).is_leaf {
            assert(orig.arena@[j] == orig.node(j));
            let k0 = orig.node(j).children[0];
            let k1 = orig.node(j).children[1];
            if k0 != INVALID {
                orig.lemma_reach_child(c0 as int, j, 0);
                orig.lemma_reach_anc(c0 as int, k0 as int);
                if c1 != INVALID {
                    orig.lemma_reach_disjoint(i, k0 as int);
                    Self::lemma_meta_frame(mid, fin, c1 as int, k0 as int);
                }
                assert(k0 as int != i);
                assert(last.arena@[k0 as int] == mid.arena@[k0 as int]);
            }
            if k1 != INVALID {
                orig.lemma_reach_child(c0 as int, j, 1);
                orig.lemma_reach_anc(c0 as int, k1 as int);
                if c1 != INVALID {
                    orig.lemma_reach_disjoint(i, k1 as int);
                    Self::lemma_meta_frame(mid, fin, c1 as int, k1 as int);
                }
                assert(k1 as int != i);
                assert(last.arena@[k1 as int] == mid.arena@[k1 as int]);
            }
            assert(last.child_count(j, 0) == mid.child_count(j, 0));
            assert(last.child_count(j, 1) == mid.child_count(j, 1));
            assert(last.child_cov(j, 0) == mid.child_cov(j, 0));
            assert(last.child_cov(j, 1) == mid.child_cov(j, 1));
        }
    }

    proof fn lemma_inner_second(orig: BinaryTrie, mid: BinaryTrie, fin: BinaryTrie, last: BinaryTrie, i: int, j: int)
        requires
            Self::inner_setup(orig, mid, fin, last, i),
            orig.node(i).children[1] != INVALID,
            orig.reach(orig.node(i).children[1] as int, j),
        ensures
            last.arena@[j] == (TrieNode {
                coverage: last.arena@[j].coverage,
                leaf_count: last.arena@[j].leaf_count,
                ..orig.arena@[j]
            }),
            last.count_exact_at(j),
            last.coverage_exact_at(j),
            last.node(j).leaf_count <= orig.desc(j).len(),
            orig.arena@[j].is_leaf ==> last.arena@[j].coverage == orig.arena@[j].coverage,
    {
        Self::lemma_inner_shape(orig, mid, fin, last, i);
        let c0 = orig.node(i).children[0];
        let c1 = orig.node(i).children[1];
        assert(orig.arena@[i] == orig.node(i));
        assert(orig.arena@[c1 as int] == orig.node(c1 as int));
        orig.lemma_reach_anc(c1 as int, j);
        assert(mid.reach(c1 as int, j));
        Self::lemma_meta_at(mid, fin, c1 as int, j);
        assert(j != i);
        if c0 != INVALID {
            orig.lemma_reach_disjoint(i, j);
            Self::lemma_meta_frame(orig, mid, c0 as int, j);
        }
        assert(mid.arena@[j] == orig.arena@[j]);
        assert(last.arena@[j] == fin.arena@[j]);
        if !orig.node(j).is_leaf {
            assert(orig.arena@[j] == orig.node(j));
            let k0 = orig.node(j).children[0];
            let k1 = orig.node(j).children[1];
            if k0 != INVALID {
                orig.lemma_reach_child(c1 as int, j, 0);
                assert(k0 as int != i);
            }
            if k1 != INVALID {
                orig.lemma_reach_child(c1 as int, j, 1);
                assert(k1 as int != i);
            }
            assert(last.child_count(j, 0) == fin.child_count(j, 0));
            assert(last.child_count(j, 1) == fin.child_count(j, 1));
            assert(last.child_cov(j, 0) == fin.child_cov(j, 0));
            assert(last.child_cov(j, 1) == fin.child_cov(j, 1));
        }
    }

    proof fn lemma_inner_self(orig: BinaryTrie, mid: BinaryTrie, fin: BinaryTrie, last: BinaryTrie, i: int)
        requires
            Self::inner_setup(orig, mid, fin, last, i),
        ensures
            last.count_exact_at(i),
            last.coverage_exact_at(i),
            last.node(i).leaf_count <= orig.desc(i).len(),
    {
        Self::lemma_inner_shape(orig, mid, fin, last, i);
        let c0 = orig.node(i).children[0];
        let c1 = orig.node(i).children[1];
        assert(orig.arena@[i] == orig.node(i));
        orig.lemma_desc_children(i);
        if c0 != INVALID {
            assert(orig.reach(c0 as int, c0 as int));
            Self::lemma_inner_first(orig, mid, fin, last, i, c0 as int);
            Self::lemma_meta_at(orig, mid, c0 as int, c0 as int);
            assert(c0 as int != i);
            if c1 != INVALID {
                orig.lemma_reach_disjoint(i, c0 as int);
                Self::lemma_meta_frame(mid, fin, c1 as int, c0 as int);
            }
        }
        if c1 != INVALID {
            assert(mid.reach(c1 as int, c1 as int));
            Self::lemma_meta_at(mid, fin, c1 as int, c1 as int);
            assert(c1 as int != i);
        }
        assert(last.child_count(i, 0) == fin.child_count(i, 0));
        assert(last.child_count(i, 1) == fin.child_count(i, 1));
        assert(last.child_cov(i, 0) == fin.child_cov(i, 0));
        assert(last.child_cov(i, 1) == fin.child_cov(i, 1));
    }

    /// Combining the passes over the two children and the update of `i`.
    proof fn lemma_meta_inner(orig: BinaryTrie, mid: BinaryTrie, fin: BinaryTrie, last: BinaryTrie, i: int)
        requires
            Self::inner_setup(orig, mid, fin, last, i),
        ensures
            Self::meta_done(orig, last, i),
    {
        Self::lemma_inner_shape(orig, mid, fin, last, i);
        Self::lemma_inner_self(orig, mid, fin, last, i);
        let c0 = orig.node(i).children[0];
        let c1 = orig.node(i).children[1];
        assert(orig.arena@[i] == orig.node(i));
        reveal(BinaryTrie::meta_done);
        assert forall|j: int| 0 <= j < orig.arena@.len() && !orig.reach(i, j) implies
            #[trigger] last.arena@[j] == orig.arena@[j] by {
            Self::lemma_inner_frame(orig, mid, fin, last, i, j);
        }
        assert forall|j: int| #[trigger] orig.reach(i, j) implies {
            &&& last.arena@[j] == (TrieNode {
                coverage: last.arena@[j].coverage,
                leaf_count: last.arena@[j].leaf_count,
                ..orig.arena@[j]
            })
            &&& last.count_exact_at(j)
            &&& last.coverage_exact_at(j)
            &&& last.node(j).leaf_count <= orig.desc(j).len()
            &&& orig.arena@[j].is_leaf ==> last.arena@[j].coverage == orig.arena@[j].coverage
        } by {
            if j != i {
                orig.lemma_reach_split(i, j);
                if c0 != INVALID && orig.reach(c0 as int, j) {
                    Self::lemma_inner_first(orig, mid, fin, last, i, j);
                } else {
                    Self::lemma_inner_second(orig, mid, fin, last, i, j);
                }
            }
        }
    }

    /// Bottom-up computation of coverage and leaf counts: every node reached
    /// from `node_idx` (without entering a leaf's subtree) gets the saturating
    /// sum of its children's coverage and the sum of their leaf counts (one for
    /// a leaf); nothing else changes.
    pub(crate) fn compute_metadata(&mut self, node_idx: NodeIdx) -> (r: (u128, u32))
        requires
            old(self).wf(),
            old(self).valid(node_idx as int),
        ensures
            Self::meta_done(*old(self), *final(self), node_idx as int),
            r.0 == final(self).node(node_idx as int).coverage,
            r.1 == final(self).node(node_idx as int).leaf_count,
        decreases 256 - old(self).node(node_idx as int).depth,
    {
        let ghost i = node_idx as int;
        let ghost orig = *self;
        proof {
            assert(self.arena@[i] == self.node(i));
        }
        let node = self.arena[node_idx as usize];
        if node.is_leaf {
            let mut n = node;
            n.leaf_count = 1;
            self.arena.set(node_idx as usize, n);
            proof {
                Self::lemma_meta_leaf(orig, *self, i);
            }
            return (n.coverage, 1);
        }
        let children = node.children;
        let mut total_coverage: u128 = 0;
        let mut total_leaves: u32 = 0;
        let c0 = children[0];
        let c1 = children[1];
        proof {
            orig.lemma_reach_disjoint(i, i);
            orig.lemma_desc_children(i);
            orig.lemma_desc_finite(i);
            if c0 != INVALID {
                assert(orig.arena@[c0 as int] == orig.node(c0 as int));
            }
            if c1 != INVALID {
                assert(orig.arena@[c1 as int] == orig.node(c1 as int));
            }
        }
        if c0 != INVALID {
            let (cov, leaves): (u128, u32) = self.compute_metadata(c0);
            total_coverage = total_coverage.saturating_add(cov);
            total_leaves = leaves;
            proof {
                assert(orig.reach(c0 as int, c0 as int));
                Self::lemma_meta_at(orig, *self, c0 as int, c0 as int);
            }
        }
        let ghost mid = *self;
        proof {
            if c0 != INVALID {
                Self::lemma_meta_shape(orig, mid, c0 as int);
                Self::lemma_meta_frame(orig, mid, c0 as int, i);
                if c1 != INVALID {
                    orig.lemma_reach_disjoint(i, c1 as int);
                    assert(orig.reach(c1 as int, c1 as int));
                    Self::lemma_meta_frame(orig, mid, c0 as int, c1 as int);
                }
            }
            Self::lemma_shape_wf(orig, mid);
        }
        if c1 != INVALID {
            let (cov, leaves): (u128, u32) = self.compute_metadata(c1);
            total_coverage = total_coverage.saturating_add(cov);
            proof {
                assert(mid.reach(c1 as int, c1 as int));
                Self::lemma_meta_at(mid, *self, c1 as int, c1 as int);
                if c0 != INVALID {
                    orig.lemma_reach_disjoint(i, c0 as int);
                    assert(orig.reach(c0 as int, c0 as int));
                    Self::lemma_meta_frame(mid, *self, c1 as int, c0 as int);
                }
            }
            total_leaves = total_leaves + leaves;
        }
        let ghost fin = *self;
        proof {
            if c1 != INVALID {
                Self::lemma_meta_shape(mid, fin, c1 as int);
                Self::lemma_meta_frame(mid, fin, c1 as int, i);
            }
        }
        let mut n = self.arena[node_idx as usize];
        n.coverage = total_coverage;
        n.leaf_count = total_leaves;
        self.arena.set(node_idx as usize, n);
        proof {
            Self::lemma_meta_inner(orig, mid, fin, *self, i);
        }
        (total_coverage, total_leaves)
    }
}

impl BinaryTrie {
    /// The trie is ready for optimization: well-formed, every leaf count
    /// bounded by the number of nodes below, and coverage and leaf counts exact
    /// on every node reached from the root.
    pub open spec fn ready(self) -> bool {
        &&& self.wf()
        &&& self.counts_bounded()
        &&& forall|j: int| #[trigger] self.reach(self.root as int, j) ==> self.count_exact_at(j) && self.coverage_exact_at(j)
    }

    /// The metadata pass keeps a trie settled: it changes only the coverage of
    /// inner nodes and leaf counts.
    pub(crate) proof fn lemma_meta_settled(pre: BinaryTrie, post: BinaryTrie)
        requires
            pre.wf(),
            pre.settled(),
            Self::meta_done(pre, post, pre.root as int),
        ensures
            post.settled(),
    {
        reveal(BinaryTrie::meta_done);
        assert forall|k: int| #![trigger post.arena@[k]] post.valid(k) implies post.node(k).collapsed_cost_sum == 0
            && (post.node(k).is_leaf ==> post.node(k).coverage >= post.capacity_spec(k)) by {
            assert(pre.arena@[k] == pre.node(k));
            if pre.reach(pre.root as int, k) {
                assert(post.arena@[k] == (TrieNode {
                    coverage: post.arena@[k].coverage,
                    leaf_count: post.arena@[k].leaf_count,
                    ..pre.arena@[k]
                }));
            } else {
                assert(post.arena@[k] == pre.arena@[k]);
            }
            assert(pre.capacity_spec(k) == post.capacity_spec(k));
        }
        let r = pre.root as int;
        assert(pre.reach(r, r));
        assert(pre.arena@[r] == pre.node(r));
        assert(post.arena@[r] == (TrieNode {
            coverage: post.arena@[r].coverage,
            leaf_count: post.arena@[r].leaf_count,
            ..pre.arena@[r]
        }));
    }

    /// After the metadata pass from the root over a trie whose leaf counts are
    /// at most one, the trie is ready.
    pub(crate) proof fn lemma_meta_ready(pre: BinaryTrie, post: BinaryTrie)
        requires
            pre.wf(),
            forall|k: int| 0 <= k < pre.arena@.len() ==> (#[trigger] pre.arena@[k]).leaf_count <= 1,
            Self::meta_done(pre, post, pre.root as int),
        ensures
            post.ready(),
            post.addr_bits == pre.addr_bits,
            post.root == pre.root,
            post.arena@.len() == pre.arena@.len(),
    {
        reveal(BinaryTrie::meta_done);
        Self::lemma_shape_wf(pre, post);
        assert forall|i: int| post.valid(i) implies (#[trigger] post.node(i)).leaf_count <= post.desc(i).len() by {
            pre.lemma_desc_children(i);
            if !pre.reach(pre.root as int, i) {
                assert(post.arena@[i] == pre.arena@[i]);
            }
        }
    }
}

} // verus!
