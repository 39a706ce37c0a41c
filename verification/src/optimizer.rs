//! Budget-constrained greedy optimizer: collapses trie nodes to reduce the
//! entry count while bounding over-coverage.
use vstd::prelude::*;
use crate::trie::{BinaryTrie, TrieNode, NodeIdx, INVALID};
use crate::preferred::PreferredSet;
use crate::efficiency::{efficiency_key, EfficiencyKey, ratio_lt};
use crate::heap::{CandidateHeap, HeapEntry, valid_entry, entry_le};
use crate::trie::same_shape;
use crate::progress::{live, counts_off, live_counts_exact, passed, lemma_passed_step, count_of_children, age, collapsible,
    queue_sound, queue_complete, collapse_shape, lemma_collapse_reach, lemma_anc_same, lemma_live_up, lemma_age_bump,
    lemma_reach_through, lemma_reach_descends, unreached_small, stuck, none_excluded};
use vstd::multiset::Multiset;
use crate::exclusion::ExclusionSet;

verus! {

/// What the greedy optimizer did: the leaves left in the trie, and the
/// over-coverage it admitted (in total, and outside the preferred set).
pub struct TrieOutcome {
    /// Leaf node indices of the optimized trie, in depth-first order.
    pub leaves: Vec<NodeIdx>,
    /// The (saturating) sum of the new over-coverage of every collapse.
    pub over_coverage: u128,
    /// The part of it that falls outside the preferred set (saturating sum).
    pub non_preferred_over_coverage: u128,
    /// The collapses made, in order: the trie before each, and the node collapsed.
    pub steps: Ghost<Seq<(BinaryTrie, int)>>,
}

/// `t` differs from `o` only by collapses of inner, non-excluded nodes and by
/// changes to counters: links, depths, compressed paths and exclusion marks
/// are kept, and every node keeps its children and leaf flag unless it became
/// a leaf without children.
pub open spec fn collapsed_from(o: BinaryTrie, t: BinaryTrie) -> bool {
    &&& t.root == o.root
    &&& t.addr_bits == o.addr_bits
    &&& t.arena@.len() == o.arena@.len()
    &&& forall|j: int| 0 <= j < o.arena@.len() ==> {
        &&& (#[trigger] t.arena@[j]).parent == o.arena@[j].parent
        &&& t.arena@[j].depth == o.arena@[j].depth
        &&& t.arena@[j].skip_len == o.arena@[j].skip_len
        &&& t.arena@[j].skip_bits == o.arena@[j].skip_bits
        &&& t.arena@[j].is_excluded == o.arena@[j].is_excluded
        &&& ((t.arena@[j].children == o.arena@[j].children && t.arena@[j].is_leaf == o.arena@[j].is_leaf)
            || (t.arena@[j].is_leaf && t.arena@[j].children[0] == INVALID && t.arena@[j].children[1] == INVALID
                && !o.arena@[j].is_excluded && !o.arena@[j].is_leaf))
    }
}

/// Exclusion zones hold: after the exclusions are marked on a trie `b` and
/// nodes are collapsed (as the greedy optimizer does), no node that became a
/// leaf was blocking in `b`. That is, each such node had fewer than two
/// leaves, or its range meets no exclusion interval of its family, or the
/// leaves below it covered all of its range.
pub proof fn law_collapses_avoid_exclusions(b: BinaryTrie, m: BinaryTrie, t: BinaryTrie, set: ExclusionSet, is_v4: bool)
    requires
        BinaryTrie::marked_from(b, m, set, is_v4),
        collapsed_from(m, t),
    ensures
        forall|j: int| 0 <= j < b.arena@.len() && (#[trigger] t.arena@[j]).is_leaf && !b.arena@[j].is_leaf
            ==> !b.blocks(set, is_v4, j),
{
    assert forall|j: int| 0 <= j < b.arena@.len() && (#[trigger] t.arena@[j]).is_leaf && !b.arena@[j].is_leaf
        implies !b.blocks(set, is_v4, j) by {
        assert(m.arena@[j].is_leaf == b.arena@[j].is_leaf);
        if b.blocks(set, is_v4, j) {
            assert(b.excluded_first(set, is_v4, j));
            assert(m.node(j).is_excluded);
        }
    }
}

// ---------------------------------------------------------------------------
// Over-coverage accounting

/// The over-coverage of node `j` as a leaf: the addresses of its range that
/// its coverage does not account for (the cost of collapsing it).
pub open spec fn gap(t: BinaryTrie, j: int) -> int {
    let c = t.capacity_spec(j);
    let v = t.node(j).coverage as int;
    if c >= v { c - v } else { 0 }
}

/// The over-coverage of the leaves below node `j` (reached through inner nodes).
pub open spec fn gap_sum(t: BinaryTrie, j: int) -> int
    decreases 256 - t.node(j).depth,
{
    let n = t.node(j);
    if n.is_leaf {
        gap(t, j)
    } else {
        let l = if n.children[0] != INVALID && t.valid(n.children[0] as int)
            && t.node(n.children[0] as int).depth > n.depth {
            gap_sum(t, n.children[0] as int)
        } else {
            0
        };
        let r = if n.children[1] != INVALID && t.valid(n.children[1] as int)
            && t.node(n.children[1] as int).depth > n.depth {
            gap_sum(t, n.children[1] as int)
        } else {
            0
        };
        l + r
    }
}

/// What node `j` accounts for: its gap as a leaf, its collapsed-cost sum as
/// an inner node.
pub open spec fn acct(t: BinaryTrie, j: int) -> int {
    if t.node(j).is_leaf { gap(t, j) } else { t.node(j).collapsed_cost_sum as int }
}

/// What the children of node `j` account for.
pub open spec fn child_acct(t: BinaryTrie, j: int) -> int {
    let n = t.node(j);
    (if n.children[0] != INVALID { acct(t, n.children[0] as int) } else { 0 })
        + (if n.children[1] != INVALID { acct(t, n.children[1] as int) } else { 0 })
}

/// The accounting invariant: every node accounts for at most `cur`; and
/// (unless `cur` saturated) every inner node's collapsed-cost sum covers
/// what its children account for, up to `d` at node `at`.
pub open spec fn acct_inv(t: BinaryTrie, cur: int, at: int, d: int) -> bool {
    &&& forall|j: int| t.valid(j) ==> #[trigger] acct(t, j) <= cur
    &&& cur < u128::MAX ==> forall|j: int| t.valid(j) && !t.node(j).is_leaf ==>
            #[trigger] child_acct(t, j) <= t.node(j).collapsed_cost_sum + (if j == at { d } else { 0 })
}

/// No collapse cost recorded yet, and every leaf fully covered.
pub open spec fn clean(t: BinaryTrie) -> bool {
    forall|j: int| t.valid(j) ==> (#[trigger] t.node(j)).collapsed_cost_sum == 0
        && (t.node(j).is_leaf ==> gap(t, j) == 0)
}

/// `b` agrees with `a` on everything the accounting reads.
pub open spec fn same_acct_fields(a: BinaryTrie, b: BinaryTrie) -> bool {
    &&& b.root == a.root
    &&& b.addr_bits == a.addr_bits
    &&& b.arena@.len() == a.arena@.len()
    &&& forall|j: int| 0 <= j < a.arena@.len() ==> {
        &&& (#[trigger] b.arena@[j]).is_leaf == a.arena@[j].is_leaf
        &&& b.arena@[j].children == a.arena@[j].children
        &&& b.arena@[j].coverage == a.arena@[j].coverage
        &&& b.arena@[j].collapsed_cost_sum == a.arena@[j].collapsed_cost_sum
        &&& b.arena@[j].depth == a.arena@[j].depth
        &&& b.arena@[j].skip_len == a.arena@[j].skip_len
        &&& b.arena@[j].parent == a.arena@[j].parent
    }
}

/// A node's gap fits a `u128`.
proof fn lemma_gap_bound(t: BinaryTrie, j: int)
    requires
        t.wf(),
        t.valid(j),
    ensures
        0 <= gap(t, j) <= u128::MAX,
{
    assert(t.arena@[j] == t.node(j));
    let n = t.node(j);
    if !(n.depth == 0 && n.skip_len == 0) && n.depth + n.skip_len != t.addr_bits
        && t.addr_bits - (n.depth + n.skip_len) < 128 {
        let h = (t.addr_bits - (n.depth + n.skip_len)) as nat;
        crate::prefix::lemma_pow2_le(h, 127);
        crate::prefix::lemma_pow2_128();
        vstd::arithmetic::power2::lemma_pow2_strictly_increases(127, 128);
    }
}

proof fn lemma_acct_frame(a: BinaryTrie, b: BinaryTrie, cur: int, at: int, d: int)
    requires
        a.wf(),
        same_acct_fields(a, b),
        acct_inv(a, cur, at, d),
    ensures
        acct_inv(b, cur, at, d),
{
    assert forall|j: int| b.valid(j) implies #[trigger] acct(b, j) <= cur by {
        assert(b.arena@[j].is_leaf == a.arena@[j].is_leaf);
        assert(acct(a, j) <= cur);
    }
    if cur < u128::MAX {
        assert forall|j: int| b.valid(j) && !b.node(j).is_leaf implies
            #[trigger] child_acct(b, j) <= b.node(j).collapsed_cost_sum + (if j == at { d } else { 0 }) by {
            assert(b.arena@[j].children == a.arena@[j].children);
            assert(child_acct(a, j) <= a.node(j).collapsed_cost_sum + (if j == at { d } else { 0 }));
            assert(a.arena@[j] == a.node(j));
            let c0 = a.node(j).children[0];
            let c1 = a.node(j).children[1];
            if c0 != INVALID {
                assert(b.arena@[c0 as int].is_leaf == a.arena@[c0 as int].is_leaf);
                assert(gap(b, c0 as int) == gap(a, c0 as int));
                assert(acct(b, c0 as int) == acct(a, c0 as int));
            }
            if c1 != INVALID {
                assert(b.arena@[c1 as int].is_leaf == a.arena@[c1 as int].is_leaf);
                assert(gap(b, c1 as int) == gap(a, c1 as int));
                assert(acct(b, c1 as int) == acct(a, c1 as int));
            }
            assert(child_acct(b, j) == child_acct(a, j));
        }
    }
}

proof fn lemma_clean_acct(o: BinaryTrie)
    requires
        o.wf(),
        clean(o),
    ensures
        acct_inv(o, 0, -1, 0),
{
    assert forall|j: int| o.valid(j) implies #[trigger] acct(o, j) <= 0 by {
        assert(o.node(j).collapsed_cost_sum == 0);
    }
    assert forall|j: int| o.valid(j) && !o.node(j).is_leaf implies
        #[trigger] child_acct(o, j) <= o.node(j).collapsed_cost_sum + (if j == -1 { 0int } else { 0 }) by {
        assert(o.arena@[j] == o.node(j));
        let c0 = o.node(j).children[0];
        let c1 = o.node(j).children[1];
        if c0 != INVALID {
            assert(o.node(c0 as int).collapsed_cost_sum == 0);
        }
        if c1 != INVALID {
            assert(o.node(c1 as int).collapsed_cost_sum == 0);
        }
        assert(o.node(j).collapsed_cost_sum == 0);
    }
}

/// A settled trie is clean.
pub proof fn lemma_settled_clean(t: BinaryTrie)
    requires
        t.wf(),
        t.settled(),
    ensures
        clean(t),
{
    assert forall|j: int| t.valid(j) implies (#[trigger] t.node(j)).collapsed_cost_sum == 0
        && (t.node(j).is_leaf ==> gap(t, j) == 0) by {
        assert(t.arena@[j] == t.node(j));
    }
}

/// The over-coverage of the first `n` leaves listed in `s`.
pub open spec fn leaves_gap(t: BinaryTrie, s: Seq<NodeIdx>, n: int) -> int
    decreases n,
{
    if n <= 0 {
        0
    } else {
        leaves_gap(t, s, n - 1) + gap(t, s[n - 1] as int)
    }
}

proof fn lemma_leaves_gap_concat(t: BinaryTrie, a: Seq<NodeIdx>, b: Seq<NodeIdx>, n: int)
    requires
        0 <= n <= b.len(),
    ensures
        leaves_gap(t, a + b, a.len() + n) == leaves_gap(t, a, a.len() as int) + leaves_gap(t, b, n),
    decreases n,
{
    if n == 0 {
        assert forall|m: int| 0 <= m <= a.len() implies leaves_gap(t, a + b, m) == leaves_gap(t, a, m) by {
            lemma_leaves_gap_prefix(t, a + b, a, m);
        }
    } else {
        lemma_leaves_gap_concat(t, a, b, n - 1);
        assert((a + b)[a.len() + n - 1] == b[n - 1]);
    }
}

proof fn lemma_leaves_gap_prefix(t: BinaryTrie, s: Seq<NodeIdx>, p: Seq<NodeIdx>, m: int)
    requires
        0 <= m <= p.len(),
        m <= s.len(),
        forall|k: int| 0 <= k < m ==> s[k] == p[k],
    ensures
        leaves_gap(t, s, m) == leaves_gap(t, p, m),
    decreases m,
{
    if m > 0 {
        lemma_leaves_gap_prefix(t, s, p, m - 1);
    }
}

/// The over-coverage of the leaves below node `i` adds up along the leaves.
pub proof fn lemma_gap_sum_leaves(t: BinaryTrie, i: int)
    requires
        t.wf(),
        t.valid(i),
    ensures
        leaves_gap(t, t.leaves_of(i), t.leaves_of(i).len() as int) == gap_sum(t, i),
    decreases 256 - t.node(i).depth,
{
    assert(t.arena@[i] == t.node(i));
    let n = t.node(i);
    if n.is_leaf {
        assert(t.leaves_of(i) == seq![i as NodeIdx]);
        assert(leaves_gap(t, t.leaves_of(i), 0) == 0);
    } else {
        let c0 = n.children[0];
        let c1 = n.children[1];
        let l = if c0 != INVALID && t.valid(c0 as int) && t.node(c0 as int).depth > n.depth {
            t.leaves_of(c0 as int)
        } else {
            Seq::empty()
        };
        let r = if c1 != INVALID && t.valid(c1 as int) && t.node(c1 as int).depth > n.depth {
            t.leaves_of(c1 as int)
        } else {
            Seq::empty()
        };
        if c0 != INVALID {
            assert(t.arena@[c0 as int] == t.node(c0 as int));
            lemma_gap_sum_leaves(t, c0 as int);
        }
        if c1 != INVALID {
            assert(t.arena@[c1 as int] == t.node(c1 as int));
            lemma_gap_sum_leaves(t, c1 as int);
        }
        assert(t.leaves_of(i) == l + r);
        lemma_leaves_gap_concat(t, l, r, r.len() as int);
    }
}

/// With the accounting invariant and no saturation, what a node accounts for
/// bounds the over-coverage of the leaves below it.
proof fn lemma_gap_sum_bounded(t: BinaryTrie, cur: int, j: int)
    requires
        t.wf(),
        acct_inv(t, cur, -1, 0),
        cur < u128::MAX,
        t.valid(j),
    ensures
        0 <= gap_sum(t, j) <= acct(t, j),
    decreases 256 - t.node(j).depth,
{
    assert(t.arena@[j] == t.node(j));
    let n = t.node(j);
    if !n.is_leaf {
        let c0 = n.children[0];
        let c1 = n.children[1];
        if c0 != INVALID {
            assert(t.arena@[c0 as int] == t.node(c0 as int));
            lemma_gap_sum_bounded(t, cur, c0 as int);
        }
        if c1 != INVALID {
            assert(t.arena@[c1 as int] == t.node(c1 as int));
            lemma_gap_sum_bounded(t, cur, c1 as int);
        }
        assert(child_acct(t, j) <= n.collapsed_cost_sum);
    }
}

/// `b` is `a` with node `i` turned into a leaf without children, as far as
/// the accounting reads.
pub open spec fn collapsed_at(a: BinaryTrie, b: BinaryTrie, i: int) -> bool {
    &&& b.root == a.root
    &&& b.addr_bits == a.addr_bits
    &&& b.arena@.len() == a.arena@.len()
    &&& forall|j: int| 0 <= j < a.arena@.len() && j != i ==> {
        &&& (#[trigger] b.arena@[j]).is_leaf == a.arena@[j].is_leaf
        &&& b.arena@[j].children == a.arena@[j].children
        &&& b.arena@[j].coverage == a.arena@[j].coverage
        &&& b.arena@[j].collapsed_cost_sum == a.arena@[j].collapsed_cost_sum
        &&& b.arena@[j].depth == a.arena@[j].depth
        &&& b.arena@[j].skip_len == a.arena@[j].skip_len
        &&& b.arena@[j].parent == a.arena@[j].parent
    }
    &&& b.arena@[i].is_leaf
    &&& b.arena@[i].coverage == a.arena@[i].coverage
    &&& b.arena@[i].collapsed_cost_sum == a.arena@[i].collapsed_cost_sum
    &&& b.arena@[i].depth == a.arena@[i].depth
    &&& b.arena@[i].skip_len == a.arena@[i].skip_len
    &&& b.arena@[i].parent == a.arena@[i].parent
    &&& b.arena@[i].children == [INVALID, INVALID]
}

/// Collapsing node `i` into a leaf after admitting `net` more over-coverage:
/// the deficit moves to its parent.
proof fn lemma_collapse_acct(a: BinaryTrie, b: BinaryTrie, i: int, net: int, cur_old: int, cur_new: int)
    requires
        a.wf(),
        a.valid(i),
        !a.node(i).is_leaf,
        acct_inv(a, cur_old, -1, 0),
        0 <= net,
        0 <= cur_old <= u128::MAX,
        gap(a, i) <= a.node(i).collapsed_cost_sum + net,
        cur_new == if cur_old + net > u128::MAX { u128::MAX as int } else { cur_old + net },
        collapsed_at(a, b, i),
    ensures
        acct_inv(b, cur_new, a.node(i).parent as int, net),
        forall|j: int| b.valid(j) && !b.node(j).is_leaf ==> (#[trigger] b.node(j)).collapsed_cost_sum <= cur_old,
{
    assert(a.arena@[i] == a.node(i));
    assert(gap(b, i) == gap(a, i));
    assert(acct(a, i) <= cur_old);
    lemma_gap_bound(a, i);
    assert forall|j: int| b.valid(j) implies #[trigger] acct(b, j) <= cur_new by {
        if j != i {
            assert(acct(a, j) <= cur_old);
            assert(gap(b, j) == gap(a, j));
        }
    }
    assert forall|j: int| b.valid(j) && !b.node(j).is_leaf implies (#[trigger] b.node(j)).collapsed_cost_sum <= cur_old by {
        assert(j != i);
        assert(acct(a, j) <= cur_old);
    }
    if cur_new < u128::MAX {
        let p = a.node(i).parent as int;
        assert forall|j: int| b.valid(j) && !b.node(j).is_leaf implies
            #[trigger] child_acct(b, j) <= b.node(j).collapsed_cost_sum + (if j == p { net } else { 0 }) by {
            assert(j != i);
            assert(a.arena@[j] == a.node(j));
            assert(child_acct(a, j) <= a.node(j).collapsed_cost_sum);
            let c0 = a.node(j).children[0];
            let c1 = a.node(j).children[1];
            if c0 != INVALID {
                assert(a.arena@[c0 as int] == a.node(c0 as int));
                if c0 as int == i {
                    assert(j == p);
                } else {
                    assert(acct(b, c0 as int) == acct(a, c0 as int));
                }
            }
            if c1 != INVALID {
                assert(a.arena@[c1 as int] == a.node(c1 as int));
                if c1 as int == i {
                    assert(j == p);
                    assert(c0 as int != i);
                } else {
                    assert(acct(b, c1 as int) == acct(a, c1 as int));
                }
            }
        }
    }
}

/// Adding `net` to the collapsed-cost sum of node `at`, which holds the
/// deficit: the deficit moves to its parent.
proof fn lemma_raise_acct(t1: BinaryTrie, t2: BinaryTrie, at: int, net: int, cur_old: int, cur_new: int)
    requires
        t1.wf(),
        t1.valid(at),
        acct_inv(t1, cur_new, at, net),
        0 <= net,
        0 <= cur_old <= u128::MAX,
        cur_new == if cur_old + net > u128::MAX { u128::MAX as int } else { cur_old + net },
        !t1.node(at).is_leaf ==> t1.node(at).collapsed_cost_sum <= cur_old,
        t2.root == t1.root,
        t2.addr_bits == t1.addr_bits,
        t2.arena@.len() == t1.arena@.len(),
        forall|j: int| 0 <= j < t1.arena@.len() && j != at ==> {
            &&& (#[trigger] t2.arena@[j]).is_leaf == t1.arena@[j].is_leaf
            &&& t2.arena@[j].children == t1.arena@[j].children
            &&& t2.arena@[j].coverage == t1.arena@[j].coverage
            &&& t2.arena@[j].collapsed_cost_sum == t1.arena@[j].collapsed_cost_sum
            &&& t2.arena@[j].depth == t1.arena@[j].depth
            &&& t2.arena@[j].skip_len == t1.arena@[j].skip_len
            &&& t2.arena@[j].parent == t1.arena@[j].parent
        },
        t2.arena@[at].is_leaf == t1.arena@[at].is_leaf,
        t2.arena@[at].children == t1.arena@[at].children,
        t2.arena@[at].coverage == t1.arena@[at].coverage,
        t2.arena@[at].depth == t1.arena@[at].depth,
        t2.arena@[at].skip_len == t1.arena@[at].skip_len,
        t2.arena@[at].parent == t1.arena@[at].parent,
        t2.arena@[at].collapsed_cost_sum as int == if t1.arena@[at].collapsed_cost_sum + net > u128::MAX {
            u128::MAX as int
        } else {
            t1.arena@[at].collapsed_cost_sum + net
        },
    ensures
        acct_inv(t2, cur_new, t1.node(at).parent as int, net),
{
    assert(t1.arena@[at] == t1.node(at));
    assert forall|j: int| t2.valid(j) implies #[trigger] acct(t2, j) <= cur_new by {
        assert(acct(t1, j) <= cur_new);
    }
    if cur_new < u128::MAX {
        let p = t1.node(at).parent as int;
        assert forall|j: int| t2.valid(j) && !t2.node(j).is_leaf implies
            #[trigger] child_acct(t2, j) <= t2.node(j).collapsed_cost_sum + (if j == p { net } else { 0 }) by {
            assert(t1.arena@[j] == t1.node(j));
            assert(child_acct(t1, j) <= t1.node(j).collapsed_cost_sum + (if j == at { net } else { 0 }));
            let c0 = t1.node(j).children[0];
            let c1 = t1.node(j).children[1];
            if c0 != INVALID {
                assert(t1.arena@[c0 as int] == t1.node(c0 as int));
                if c0 as int == at {
                    assert(j == p);
                } else {
                    assert(acct(t2, c0 as int) == acct(t1, c0 as int));
                }
            }
            if c1 != INVALID {
                assert(t1.arena@[c1 as int] == t1.node(c1 as int));
                if c1 as int == at {
                    assert(j == p);
                    assert(c0 as int != at);
                } else {
                    assert(acct(t2, c1 as int) == acct(t1, c1 as int));
                }
            }
            if j == at {
                assert(j != p) by {
                    assert(t1.node(j).depth < t1.node(at).depth || j == t1.root || p != j);
                }
            }
        }
    }
}

proof fn lemma_parent_anc(a: BinaryTrie, b: BinaryTrie, j: int, x: int)
    requires
        collapsed_from(a, b),
    ensures
        a.anc(j, x) == b.anc(j, x),
    decreases a.node(j).depth,
{
    if j != x && j != a.root && a.valid(j) {
        let p = a.node(j).parent as int;
        if a.valid(p) {
            assert(a.arena@[p].depth == b.arena@[p].depth);
            assert(a.arena@[j].depth == b.arena@[j].depth);
            if a.node(p).depth < a.node(j).depth {
                lemma_parent_anc(a, b, p, x);
            }
        }
    }
}

/// Collapses keep the trie well-formed and every node's set of nodes below.
proof fn lemma_collapsed_wf(a: BinaryTrie, b: BinaryTrie)
    requires
        a.wf(),
        collapsed_from(a, b),
    ensures
        b.wf(),
        forall|x: int| #[trigger] b.desc(x) == a.desc(x),
{
    assert forall|i: int| #![trigger b.arena@[i]] b.valid(i) implies {
        &&& b.node(i).depth + b.node(i).skip_len <= b.addr_bits
        &&& b.node(i).skip_bits < vstd::arithmetic::power2::pow2(b.node(i).skip_len as nat)
        &&& i != b.root ==> {
            &&& b.valid(b.node(i).parent as int)
            &&& b.node(i).depth == b.node(b.node(i).parent as int).depth
                + b.node(b.node(i).parent as int).skip_len + 1
        }
        &&& forall|bb: int| 0 <= bb < 2 ==> {
            let c = #[trigger] b.node(i).children[bb];
            c == INVALID || (b.valid(c as int) && b.node(c as int).parent == i && c != b.root)
        }
        &&& b.node(i).children[0] == INVALID || b.node(i).children[0] != b.node(i).children[1]
    } by {
        assert(a.arena@[i] == a.node(i));
        if i != b.root {
            let p = a.node(i).parent as int;
            assert(a.arena@[p] == a.node(p));
            assert(b.arena@[p] == b.node(p));
        }
        assert forall|bb: int| 0 <= bb < 2 implies {
            let c = #[trigger] b.node(i).children[bb];
            c == INVALID || (b.valid(c as int) && b.node(c as int).parent == i && c != b.root)
        } by {
            let c = b.node(i).children[bb];
            if c != INVALID {
                assert(b.node(i).children == a.node(i).children);
                assert(a.arena@[c as int] == a.node(c as int));
                assert(b.arena@[c as int] == b.node(c as int));
            }
        }
    }
    assert(b.arena@[b.root as int] == b.node(b.root as int));
    assert(a.arena@[a.root as int] == a.node(a.root as int));
    assert forall|x: int| #[trigger] b.desc(x) == a.desc(x) by {
        assert forall|j: int| b.desc(x).contains(j) <==> a.desc(x).contains(j) by {
            lemma_parent_anc(a, b, j, x);
        }
        assert(b.desc(x) =~= a.desc(x));
    }
}

/// Keeping every leaf count within its bound, from one collapsed state to the next.
proof fn lemma_collapsed_step(o: BinaryTrie, a: BinaryTrie, b: BinaryTrie)
    requires
        o.wf(),
        collapsed_from(o, a),
        collapsed_from(o, b),
        a.counts_bounded(),
        forall|j: int| 0 <= j < o.arena@.len() ==> (#[trigger] b.arena@[j]).leaf_count == a.arena@[j].leaf_count,
    ensures
        b.wf(),
        b.counts_bounded(),
{
    lemma_collapsed_wf(o, a);
    lemma_collapsed_wf(o, b);
    assert forall|i: int| b.valid(i) implies (#[trigger] b.node(i)).leaf_count <= b.desc(i).len() by {
        assert(a.node(i).leaf_count <= a.desc(i).len());
    }
}

/// The over-coverage that collapsing node `i` would add, less the preferred
/// addresses in its gap: `net_new_over - min(gap, net_new_over)`, where the
/// gap holds the preferred addresses of the node's range not yet counted below it.
pub open spec fn effective_cost_spec(trie: BinaryTrie, set: PreferredSet, i: int, net_new_over: int) -> int {
    let pin = trie.preferred_in(set, trie.addr_bits == 32, i);
    let po = trie.node(i).preferred_overlap as int;
    let gap = if pin >= po { pin - po } else { 0 };
    net_new_over - if gap < net_new_over { gap } else { net_new_over }
}

/// Compute the effective cost of a collapse, discounting preferred addresses in the gap.
pub fn compute_effective_cost(trie: &BinaryTrie, node_idx: NodeIdx, net_new_over: u128, preferred_set: &PreferredSet) -> (r: u128)
    requires
        trie.wf(),
        trie.valid(node_idx as int),
        trie.addr_bits == 128 ==> !preferred_set.all_v6(),
    ensures
        r as int == effective_cost_spec(*trie, *preferred_set, node_idx as int, net_new_over as int),
        net_new_over as int == net_new(*trie, node_idx as int) ==> r as int == ranked_cost(*trie, *preferred_set, node_idx as int),
{
    let (start, end): (u128, u128) = trie.node_interval(node_idx);
    proof {
        trie.lemma_node_range(node_idx as int);
    }
    let total_preferred_in_node: u128 = if trie.addr_bits == 32 {
        preferred_set.overlap_count_v4(start, end)
    } else {
        preferred_set.overlap_count_v6(start, end)
    };
    let preferred_in_gap: u128 = total_preferred_in_node.saturating_sub(trie.arena[node_idx as usize].preferred_overlap);
    let m: u128 = if preferred_in_gap < net_new_over { preferred_in_gap } else { net_new_over };
    net_new_over.saturating_sub(m)
}

/// The candidate names a node of the arena that is an inner node of the
/// generation the candidate recorded.
pub open spec fn still_current(arena: Seq<TrieNode>, e: HeapEntry) -> bool {
    &&& (e.1 as int) < arena.len()
    &&& !arena[e.1 as int].is_leaf
    &&& arena[e.1 as int].generation == e.2
}

/// Keeps only the candidates whose node is still an inner node of the
/// recorded generation.
fn compact(heap: CandidateHeap, arena: &Vec<TrieNode>) -> (r: CandidateHeap)
    requires
        heap.wf(),
    ensures
        r.items().len() <= heap.items().len(),
        r.wf(),
        forall|e: HeapEntry| #[trigger] r.items().count(e)
            == if still_current(arena@, e) { heap.items().count(e) } else { 0 },
{
    let entries: Vec<HeapEntry> = heap.into_vec();
    let mut out = CandidateHeap::new();
    let mut k: usize = 0;
    proof {
        vstd::seq_lib::to_multiset_len(entries@);
        let none = entries@.subrange(0, 0);
        assert(none =~= Seq::<HeapEntry>::empty());
        assert forall|x: HeapEntry| #[trigger] none.to_multiset().count(x) == 0 by {
            vstd::seq_lib::to_multiset_contains(none, x);
            if none.to_multiset().count(x) > 0 {
                assert(none.contains(x));
            }
        }
    }
    while k < entries.len()
        invariant
            k <= entries@.len(),
            out.items().len() <= k,
            out.wf(),
            forall|i: int| 0 <= i < entries@.len() ==> valid_entry(#[trigger] entries@[i]),
            forall|x: HeapEntry| #[trigger] out.items().count(x)
                == if still_current(arena@, x) { entries@.subrange(0, k as int).to_multiset().count(x) } else { 0 },
        decreases entries@.len() - k,
    {
        let e = entries[k];
        proof {
            assert(entries@.subrange(0, k + 1) =~= entries@.subrange(0, k as int).push(e));
            vstd::seq_lib::to_multiset_build(entries@.subrange(0, k as int), e);
        }
        let i: usize = e.1 as usize;
        if i < arena.len() {
            let n = &arena[i];
            if !n.is_leaf && n.generation == e.2 {
                out.push(e);
            }
        }
        k = k + 1;
    }
    proof {
        assert(entries@.subrange(0, entries@.len() as int) =~= entries@);
    }
    out
}

/// The invariant of the greedy loop: `t` came from the well-formed `o` by
/// collapses, with every leaf count within its bound.
pub open spec fn opt_inv(o: BinaryTrie, t: BinaryTrie) -> bool {
    &&& o.wf()
    &&& collapsed_from(o, t)
    &&& t.wf()
    &&& t.counts_bounded()
}

/// The preferred addresses in node `j`'s gap: those of its range that its
/// preferred overlap (the preferred addresses its leaves cover) does not count.
pub open spec fn preferred_gap(t: BinaryTrie, set: PreferredSet, j: int) -> int {
    let pin = t.preferred_in(set, t.addr_bits == 32, j);
    let po = t.node(j).preferred_overlap as int;
    if pin >= po { pin - po } else { 0 }
}

/// The cost by which node `j` is ranked: the over-coverage its collapse adds,
/// less the preferred addresses in its gap (at most all of it).
pub open spec fn ranked_cost(t: BinaryTrie, set: PreferredSet, j: int) -> int {
    let n = net_new(t, j);
    let g = preferred_gap(t, set, j);
    n - if g < n { g } else { n }
}

/// The efficiency key of node `j`: its ranked cost, and the entries its
/// collapse saves.
pub open spec fn key_of(t: BinaryTrie, set: PreferredSet, j: int) -> EfficiencyKey {
    EfficiencyKey { cost: ranked_cost(t, set, j) as u128, savings: (t.node(j).leaf_count - 1) as u32 }
}

/// Node `i` is a greedy choice in `t`: it can be collapsed, and no node that
/// can be collapsed has a lower ratio of ranked cost to saved entries.
pub open spec fn greedy_choice(t: BinaryTrie, set: PreferredSet, i: int) -> bool {
    &&& collapsible(t, i)
    &&& forall|j: int| #[trigger] collapsible(t, j) ==> !ratio_lt(key_of(t, set, j), key_of(t, set, i))
}

/// Each queued candidate of its node's current generation, for an inner
/// node, holds that node's key.
pub open spec fn queue_keys(t: BinaryTrie, set: PreferredSet, q: Multiset<HeapEntry>) -> bool {
    forall|x: HeapEntry| #[trigger] q.count(x) > 0 && (x.1 as int) < t.arena@.len() && age(t, x) == 0
        && !t.node(x.1 as int).is_leaf ==> x.0 == key_of(t, set, x.1 as int)
}

/// The preferred set holds no address of the trie's family.
pub open spec fn no_preferred(set: PreferredSet, t: BinaryTrie) -> bool {
    &&& t.addr_bits == 32 ==> forall|x: int| !#[trigger] set.prefers_v4(x)
    &&& t.addr_bits != 32 ==> forall|x: int| !#[trigger] set.prefers_v6(x)
}

/// No interval holds a preferred address of the trie's family.
pub open spec fn no_overlap(set: PreferredSet, t: BinaryTrie) -> bool {
    &&& t.addr_bits == 32 ==> forall|a: u128, b: u128| #[trigger] set.overlap_v4(a, b) == 0
    &&& t.addr_bits != 32 ==> forall|a: u128, b: u128| #[trigger] set.overlap_v6(a, b) == 0
}

/// The candidate entry for an inner node: its efficiency key (net new
/// over-coverage, discounted by preferred addresses when there are any, per
/// saved entry), index and generation.
fn candidate_entry(trie: &BinaryTrie, idx: NodeIdx, has_preferred: bool, preferred_set: &PreferredSet) -> (r: HeapEntry)
    requires
        trie.wf(),
        trie.valid(idx as int),
        trie.node(idx as int).leaf_count >= 2,
        trie.addr_bits == 128 ==> !preferred_set.all_v6(),
        !has_preferred ==> no_overlap(*preferred_set, *trie),
    ensures
        r.1 == idx,
        r.2 == trie.node(idx as int).generation,
        r.0.savings == trie.node(idx as int).leaf_count - 1,
        valid_entry(r),
        r.0 == key_of(*trie, *preferred_set, idx as int),
{
    let cost: u128 = trie.collapse_cost(idx);
    let descendant_collapsed: u128 = trie.arena[idx as usize].collapsed_cost_sum;
    let net_new: u128 = cost.saturating_sub(descendant_collapsed);
    // Discount preferred overlap from the cost when a preferred set is active.
    let effective_cost: u128 = if has_preferred {
        compute_effective_cost(trie, idx, net_new, preferred_set)
    } else {
        net_new
    };
    proof {
        assert(trie.arena@[idx as int] == trie.node(idx as int));
        assert(net_new as int == crate::optimizer::net_new(*trie, idx as int));
        if !has_preferred {
            assert(trie.preferred_in(*preferred_set, trie.addr_bits == 32, idx as int) == 0);
            assert(preferred_gap(*trie, *preferred_set, idx as int) == 0);
        }
    }
    let eff = efficiency_key(effective_cost, trie.arena[idx as usize].leaf_count);
    (eff, idx, trie.arena[idx as usize].generation)
}

/// What the walk up from the collapsed node `i` did: links and leaf flags are
/// kept; every strict ancestor of `i` has its generation bumped and, where it
/// can still be collapsed, a candidate of that generation queued; no other
/// node changed; the queue only grew, and only by candidates of strict
/// ancestors of `i` of their new generation.
pub open spec fn walk_result(a: BinaryTrie, b: BinaryTrie, ha: Multiset<HeapEntry>, hb: Multiset<HeapEntry>, i: int) -> bool {
    &&& same_shape(a.arena@, b.arena@)
    &&& b.root == a.root
    &&& forall|j: int| 0 <= j < a.arena@.len() && !(a.anc(i, j) && j != i) ==> #[trigger] b.arena@[j] == a.arena@[j]
    &&& forall|j: int| 0 <= j < a.arena@.len() && a.anc(i, j) && j != i ==> {
        &&& (#[trigger] b.arena@[j]).generation == a.arena@[j].generation.wrapping_add(1)
        &&& b.arena@[j].is_excluded == a.arena@[j].is_excluded
        &&& (!b.arena@[j].is_excluded && !b.arena@[j].is_leaf && b.arena@[j].leaf_count >= 2)
            ==> exists|x: HeapEntry| #[trigger] hb.count(x) > 0 && x.1 as int == j && x.2 == b.arena@[j].generation
    }
    &&& forall|x: HeapEntry| #[trigger] hb.count(x) >= ha.count(x)
    &&& forall|x: HeapEntry| #[trigger] hb.count(x) > ha.count(x) ==>
        (x.1 as int) < a.arena@.len() && a.anc(i, x.1 as int) && x.1 as int != i && x.2 == b.arena@[x.1 as int].generation
}

/// What collapsing node `i` did: `i` became a leaf counting one, without
/// children; every node below it had its generation bumped; nothing else changed
/// but the preferred counts of `i`.
pub open spec fn collapse_result(a: BinaryTrie, b: BinaryTrie, i: int) -> bool {
    &&& b.root == a.root
    &&& b.addr_bits == a.addr_bits
    &&& b.arena@.len() == a.arena@.len()
    &&& 0 <= i < a.arena@.len()
    &&& b.arena@[i] == (TrieNode {
        is_leaf: true,
        leaf_count: 1,
        children: [INVALID, INVALID],
        preferred_overlap: b.arena@[i].preferred_overlap,
        preferred_overlap_in_coverage: b.arena@[i].preferred_overlap_in_coverage,
        ..a.arena@[i]
    })
    &&& forall|j: int| 0 <= j < a.arena@.len() && j != i ==> #[trigger] b.arena@[j]
        == if a.descends(i, j) { TrieNode { generation: a.arena@[j].generation.wrapping_add(1), ..a.arena@[j] } } else { a.arena@[j] }
}

/// The queue filled with every inner, non-excluded node counting two leaves
/// or more is sound and complete, when only live nodes count that many.
proof fn lemma_queue_start(o: BinaryTrie, h: Multiset<HeapEntry>)
    requires
        o.wf(),
        unreached_small(o),
        forall|x: HeapEntry| #[trigger] h.count(x) > 0 ==> (x.1 as int) < o.arena@.len()
            && !o.arena@[x.1 as int].is_excluded && !o.arena@[x.1 as int].is_leaf
            && o.arena@[x.1 as int].leaf_count >= 2 && x.2 == o.arena@[x.1 as int].generation,
        forall|j: int| 0 <= j < o.arena@.len() && !o.arena@[j].is_excluded && !o.arena@[j].is_leaf && o.arena@[j].leaf_count >= 2
            ==> exists|x: HeapEntry| #[trigger] h.count(x) > 0 && x.1 as int == j && x.2 == o.arena@[j].generation,
    ensures
        queue_sound(o, h, 0),
        queue_complete(o, h),
{
    assert forall|x: HeapEntry| #[trigger] h.count(x) > 0 && (x.1 as int) < o.arena@.len() implies {
        &&& age(o, x) <= 0
        &&& age(o, x) == 0 ==> live(o, x.1 as int)
    } by {
        assert(o.arena@[x.1 as int].leaf_count >= 2);
    }
    assert forall|j: int| #[trigger] collapsible(o, j) implies exists|x: HeapEntry|
        #[trigger] h.count(x) > 0 && x.1 as int == j && x.2 == o.node(j).generation by {
        o.lemma_reach_anc(o.root as int, j);
    }
}

/// The leaves left: as many as the root counts, and with no excluded node
/// and nothing more to collapse, at most one.
proof fn lemma_outcome(o: BinaryTrie, t: BinaryTrie)
    requires
        t.wf(),
        collapsed_from(o, t),
        live_counts_exact(t),
    ensures
        t.leaves_of(t.root as int).len() == t.node(t.root as int).leaf_count,
        none_excluded(o) && stuck(t) ==> t.leaves_of(t.root as int).len() <= 1,
{
    assert(live(t, t.root as int));
    crate::progress::lemma_leaves_count(t, t.root as int);
    if none_excluded(o) && stuck(t) {
        assert forall|j: int| t.valid(j) implies !(#[trigger] t.arena@[j]).is_excluded by {
            assert(t.arena@[j].is_excluded == o.arena@[j].is_excluded);
        }
        crate::progress::lemma_stuck_small(t);
    }
}

/// The over-coverage that collapsing node `j` adds: its gap, less what the
/// collapses below it already admitted.
pub open spec fn net_new(t: BinaryTrie, j: int) -> int {
    let g = gap(t, j);
    let c = t.node(j).collapsed_cost_sum as int;
    if g >= c { g - c } else { 0 }
}

/// A budget stopped the greedy loop: some node could still be collapsed (with
/// `greedy`, a greedy choice), and collapsing it would take the admitted
/// over-coverage `over` past the over-coverage budget, or could take the
/// admitted part outside the preferred set `np` past its budget (its new
/// over-coverage is an upper bound on its new part outside the preferred set).
pub open spec fn budget_stop(t: BinaryTrie, over: u128, max_over: Option<u128>, input: u128, np: u128,
    max_np: Option<u128>, set: PreferredSet, greedy: bool) -> bool {
    exists|j: int| #[trigger] collapsible(t, j) && (greedy ==> greedy_choice(t, set, j)) && (
        (max_over is Some && input > 0 && over + net_new(t, j) > max_over->0)
        || (max_np is Some && input > 0 && np + net_new(t, j) > max_np->0))
}

/// A stop at a greedy choice is a stop at a node that could be collapsed.
proof fn lemma_budget_stop_weaken(t: BinaryTrie, over: u128, max_over: Option<u128>, input: u128, np: u128,
    max_np: Option<u128>, set: PreferredSet, g1: bool, g2: bool)
    requires
        budget_stop(t, over, max_over, input, np, max_np, set, g1),
        g2 ==> g1,
    ensures
        budget_stop(t, over, max_over, input, np, max_np, set, g2),
{
    let j = choose|j: int| #[trigger] collapsible(t, j) && (g1 ==> greedy_choice(t, set, j)) && (
        (max_over is Some && input > 0 && over + net_new(t, j) > max_over->0)
        || (max_np is Some && input > 0 && np + net_new(t, j) > max_np->0));
    assert(collapsible(t, j) && (g2 ==> greedy_choice(t, set, j)));
}

/// Dropping a candidate keeps the queue sound.
proof fn lemma_pop_sound(t: BinaryTrie, h0: Multiset<HeapEntry>, e: HeapEntry, k: int)
    requires
        queue_sound(t, h0, k),
        h0.count(e) > 0,
    ensures
        queue_sound(t, h0.remove(e), k),
{
    assert forall|x: HeapEntry| #[trigger] h0.remove(e).count(x) > 0 && (x.1 as int) < t.arena@.len() implies {
        &&& age(t, x) <= k
        &&& age(t, x) == 0 ==> live(t, x.1 as int)
    } by {
        assert(h0.count(x) > 0);
    }
}

/// Dropping a candidate that cannot be collapsed keeps the queue sound and complete.
proof fn lemma_pop_skip(t: BinaryTrie, h0: Multiset<HeapEntry>, e: HeapEntry, k: int)
    requires
        t.wf(),
        queue_sound(t, h0, k),
        queue_complete(t, h0),
        h0.count(e) > 0,
        !((e.1 as int) < t.arena@.len() && !t.arena@[e.1 as int].is_excluded && !t.arena@[e.1 as int].is_leaf
            && t.arena@[e.1 as int].generation == e.2 && t.arena@[e.1 as int].leaf_count >= 2),
    ensures
        queue_sound(t, h0.remove(e), k),
        queue_complete(t, h0.remove(e)),
{
    let h1 = h0.remove(e);
    assert forall|x: HeapEntry| #[trigger] h1.count(x) > 0 && (x.1 as int) < t.arena@.len() implies {
        &&& age(t, x) <= k
        &&& age(t, x) == 0 ==> live(t, x.1 as int)
    } by {
        assert(h0.count(x) > 0);
    }
    assert forall|j: int| #[trigger] collapsible(t, j) implies exists|x: HeapEntry|
        #[trigger] h1.count(x) > 0 && x.1 as int == j && x.2 == t.node(j).generation by {
        t.lemma_reach_anc(t.root as int, j);
        let x = choose|x: HeapEntry| #[trigger] h0.count(x) > 0 && x.1 as int == j && x.2 == t.node(j).generation;
        assert(x != e);
        assert(h1.count(x) == h0.count(x));
    }
}

/// Compaction keeps the queue sound and complete.
proof fn lemma_compact_keeps(t: BinaryTrie, h0: Multiset<HeapEntry>, h1: Multiset<HeapEntry>, k: int)
    requires
        t.wf(),
        queue_sound(t, h0, k),
        queue_complete(t, h0),
        forall|x: HeapEntry| #[trigger] h1.count(x) == if still_current(t.arena@, x) { h0.count(x) } else { 0 },
    ensures
        queue_sound(t, h1, k),
        queue_complete(t, h1),
{
    assert forall|x: HeapEntry| #[trigger] h1.count(x) > 0 && (x.1 as int) < t.arena@.len() implies {
        &&& age(t, x) <= k
        &&& age(t, x) == 0 ==> live(t, x.1 as int)
    } by {
        assert(h0.count(x) > 0);
    }
    assert forall|j: int| #[trigger] collapsible(t, j) implies exists|x: HeapEntry|
        #[trigger] h1.count(x) > 0 && x.1 as int == j && x.2 == t.node(j).generation by {
        t.lemma_reach_anc(t.root as int, j);
        let x = choose|x: HeapEntry| #[trigger] h0.count(x) > 0 && x.1 as int == j && x.2 == t.node(j).generation;
        assert(still_current(t.arena@, x));
        assert(h1.count(x) == h0.count(x));
    }
}

/// With an empty queue that is complete, nothing more can be collapsed but
/// excluded nodes.
proof fn lemma_empty_stuck(t: BinaryTrie, h: Multiset<HeapEntry>)
    requires
        queue_complete(t, h),
        h.len() == 0,
    ensures
        stuck(t),
{
    vstd::multiset::lemma_multiset_empty_len(h);
    assert forall|j: int| live(t, j) && !t.node(j).is_leaf && t.node(j).leaf_count >= 2 implies #[trigger] t.node(j).is_excluded by {
        if !t.node(j).is_excluded {
            assert(collapsible(t, j));
            let x = choose|x: HeapEntry| #[trigger] h.count(x) > 0 && x.1 as int == j && x.2 == t.node(j).generation;
            assert(h.count(x) == 0);
        }
    }
}

/// One collapse of a live candidate keeps the queue sound (one bump older at
/// most) and complete.
#[verifier::rlimit(40)]
proof fn lemma_greedy_step(t0: BinaryTrie, t1: BinaryTrie, t2: BinaryTrie, h0: Multiset<HeapEntry>, h2: Multiset<HeapEntry>,
    e: HeapEntry, k: int)
    requires
        t0.wf(),
        t1.wf(),
        t2.wf(),
        live_counts_exact(t0),
        queue_sound(t0, h0, k),
        queue_complete(t0, h0),
        0 <= k < u32::MAX,
        h0.count(e) > 0,
        (e.1 as int) < t0.arena@.len(),
        !t0.arena@[e.1 as int].is_excluded,
        !t0.arena@[e.1 as int].is_leaf,
        t0.arena@[e.1 as int].generation == e.2,
        t0.arena@[e.1 as int].leaf_count >= 2,
        collapse_result(t0, t1, e.1 as int),
        walk_result(t1, t2, h0.remove(e), h2, e.1 as int),
    ensures
        queue_sound(t2, h2, k + 1),
        queue_complete(t2, h2),
{
    let i = e.1 as int;
    let h1 = h0.remove(e);
    assert(age(t0, e) == 0);
    assert(live(t0, i));
    t0.lemma_reach_anc(t0.root as int, i);
    assert(collapse_shape(t0, t1, i)) by {
        assert forall|j: int| 0 <= j < t0.arena@.len() implies {
            &&& (#[trigger] t1.arena@[j]).parent == t0.arena@[j].parent
            &&& t1.arena@[j].depth == t0.arena@[j].depth
            &&& j != i ==> t1.arena@[j].children == t0.arena@[j].children && t1.arena@[j].is_leaf == t0.arena@[j].is_leaf
        } by {
            if j != i {
                assert(t1.arena@[j] == if t0.descends(i, j) {
                    TrieNode { generation: t0.arena@[j].generation.wrapping_add(1), ..t0.arena@[j] }
                } else { t0.arena@[j] });
            }
        }
    }
    assert(!(t0.anc(t0.root as int, i) && t0.root != i));
    assert forall|j: int| live(t1, j) <==> live(t0, j) && !(t0.anc(j, i) && j != i) by {
        lemma_collapse_reach(t0, t1, i, t0.root as int, j);
    }
    assert forall|j: int| live(t2, j) <==> live(t1, j) by {
        BinaryTrie::lemma_shape_reach(t1, t2, t1.root as int, j);
    }
    assert forall|j: int, a: int| #[trigger] t1.anc(j, a) == t0.anc(j, a) by {
        lemma_anc_same(t0, t1, j, a);
    }
    assert forall|x: HeapEntry| #[trigger] h2.count(x) > 0 && (x.1 as int) < t2.arena@.len() implies {
        &&& age(t2, x) <= k + 1
        &&& age(t2, x) == 0 ==> live(t2, x.1 as int)
    } by {
        let j = x.1 as int;
        if h2.count(x) > h1.count(x) {
            assert(t1.anc(i, j) && j != i && x.2 == t2.arena@[j].generation);
            assert(t0.anc(i, j));
            lemma_live_up(t0, i, j);
            t0.lemma_anc_depth(i, j);
            if t0.anc(j, i) {
                t0.lemma_anc_depth(j, i);
            }
            assert(live(t1, j));
        } else {
            assert(h1.count(x) <= h0.count(x));
            assert(h0.count(x) > 0);
            let a0 = age(t0, x);
            assert(a0 <= k);
            let bc = j != i && t0.descends(i, j);
            let bp = t1.anc(i, j) && j != i;
            if bc {
                t0.lemma_descends_anc(i, j);
                t0.lemma_anc_depth(j, i);
                if bp {
                    t0.lemma_anc_depth(i, j);
                }
                assert(!bp);
                assert(t1.arena@[j].generation == t0.arena@[j].generation.wrapping_add(1));
                assert(t2.arena@[j] == t1.arena@[j]);
                lemma_age_bump(t0.arena@[j].generation, t2.arena@[j].generation, x.2, a0);
            } else if bp {
                if j != i {
                    assert(t1.arena@[j] == t0.arena@[j]);
                } else {
                    assert(false);
                }
                lemma_age_bump(t1.arena@[j].generation, t2.arena@[j].generation, x.2, a0);
            } else {
                if j != i {
                    assert(t1.arena@[j] == t0.arena@[j]);
                }
                assert(t1.arena@[j].generation == t0.arena@[j].generation);
                assert(t2.arena@[j] == t1.arena@[j]);
                if a0 == 0 {
                    assert(live(t0, j));
                    if t0.anc(j, i) && j != i {
                        lemma_reach_through(t0, t0.root as int, i, j);
                        lemma_reach_descends(t0, i, j);
                        assert(false);
                    }
                    assert(live(t1, j));
                }
            }
        }
    }
    assert forall|j: int| #[trigger] collapsible(t2, j) implies exists|x: HeapEntry|
        #[trigger] h2.count(x) > 0 && x.1 as int == j && x.2 == t2.node(j).generation by {
        assert(live(t1, j));
        assert(live(t0, j) && !(t0.anc(j, i) && j != i));
        t2.lemma_reach_anc(t2.root as int, j);
        if j == i {
            assert(t2.arena@[i] == t1.arena@[i]);
            assert(false);
        } else if t1.anc(i, j) {
            assert(t2.arena@[j] == t2.node(j));
        } else {
            assert(t2.arena@[j] == t1.arena@[j]);
            if t0.descends(i, j) {
                t0.lemma_descends_anc(i, j);
                assert(false);
            }
            assert(t1.arena@[j] == t0.arena@[j]);
            assert(collapsible(t0, j));
            let x = choose|x: HeapEntry| #[trigger] h0.count(x) > 0 && x.1 as int == j && x.2 == t0.node(j).generation;
            assert(x != e);
            assert(h1.count(x) == h0.count(x));
            assert(h2.count(x) >= h1.count(x));
        }
    }
}

/// The state of the walk up from the collapsed node `i`, standing at `at`:
/// the nodes passed have their generation bumped and, where they can still be
/// collapsed, a candidate of that generation queued; no other node changed,
/// the queue only grew, and only by candidates of passed nodes. With
/// `live_on`, leaf counts are exact but at `at`, which counts `d` too many,
/// and the root counts `r0`, less `d` once passed.
pub open spec fn walk_inv(start: BinaryTrie, t: BinaryTrie, h: Multiset<HeapEntry>, hs: Multiset<HeapEntry>,
    i: int, at: u32, live_on: bool, d: int, r0: int) -> bool {
    &&& start.wf()
    &&& t.wf()
    &&& same_shape(start.arena@, t.arena@)
    &&& t.root == start.root
    &&& t.addr_bits == start.addr_bits
    &&& start.valid(i)
    &&& at != INVALID ==> start.anc(i, at as int) && at as int != i && start.valid(at as int)
    &&& forall|j: int| 0 <= j < start.arena@.len() && !passed(start, i, at, j) ==> #[trigger] t.arena@[j] == start.arena@[j]
    &&& forall|j: int| 0 <= j < start.arena@.len() && passed(start, i, at, j) ==> {
        &&& (#[trigger] t.arena@[j]).generation == start.arena@[j].generation.wrapping_add(1)
        &&& t.arena@[j].is_excluded == start.arena@[j].is_excluded
        &&& (!t.arena@[j].is_excluded && !t.arena@[j].is_leaf && t.arena@[j].leaf_count >= 2)
            ==> exists|x: HeapEntry| #[trigger] h.count(x) > 0 && x.1 as int == j && x.2 == t.arena@[j].generation
    }
    &&& forall|x: HeapEntry| #[trigger] h.count(x) >= hs.count(x)
    &&& forall|x: HeapEntry| #[trigger] h.count(x) > hs.count(x) ==>
        (x.1 as int) < start.arena@.len() && passed(start, i, at, x.1 as int) && x.2 == t.arena@[x.1 as int].generation
    &&& live_on ==> {
        &&& live(start, i)
        &&& counts_off(t, at as int, d)
        &&& at != INVALID ==> live(start, at as int) && !start.node(at as int).is_leaf
        &&& t.node(t.root as int).leaf_count as int == if at == INVALID { r0 - d } else { r0 }
    }
}

/// One step of the walk up: the node `a` it stood at is recounted, bumped and
/// queued if it can be collapsed; the walk moves to its parent.
proof fn lemma_walk_step(start: BinaryTrie, t0: BinaryTrie, tn: BinaryTrie, h0: Multiset<HeapEntry>, hn: Multiset<HeapEntry>,
    hs: Multiset<HeapEntry>, i: int, a: u32, na: u32, live_on: bool, d: int, r0: int)
    requires
        walk_inv(start, t0, h0, hs, i, a, live_on, d, r0),
        a != INVALID,
        tn.wf(),
        same_shape(t0.arena@, tn.arena@),
        tn.root == t0.root,
        tn.addr_bits == t0.addr_bits,
        forall|j: int| 0 <= j < t0.arena@.len() && j != a as int ==> #[trigger] tn.arena@[j] == t0.arena@[j],
        tn.arena@[a as int].generation == t0.arena@[a as int].generation.wrapping_add(1),
        tn.arena@[a as int].is_excluded == t0.arena@[a as int].is_excluded,
        !t0.node(a as int).is_leaf ==> tn.arena@[a as int].leaf_count as int == count_of_children(t0, a as int),
        na == t0.node(a as int).parent,
        forall|x: HeapEntry| #[trigger] hn.count(x) >= h0.count(x),
        forall|x: HeapEntry| #[trigger] hn.count(x) > h0.count(x) ==> x.1 as int == a as int && x.2 == tn.arena@[a as int].generation,
        (!tn.arena@[a as int].is_excluded && !tn.arena@[a as int].is_leaf && tn.arena@[a as int].leaf_count >= 2)
            ==> exists|x: HeapEntry| #[trigger] hn.count(x) > 0 && x.1 == a && x.2 == tn.arena@[a as int].generation,
    ensures
        walk_inv(start, tn, hn, hs, i, na, live_on, d, r0),
{
    let ai = a as int;
    assert(start.anc(ai, ai));
    assert(!passed(start, i, a, ai));
    assert(t0.arena@[ai] == start.arena@[ai]);
    assert(start.arena@[ai] == start.node(ai));
    assert(na == start.node(ai).parent);
    assert forall|j: int| 0 <= j < start.arena@.len() implies
        passed(start, i, na, j) == (passed(start, i, a, j) || j == ai) by {
        lemma_passed_step(start, i, a, j);
    }
    if na != INVALID {
        crate::progress::lemma_anc_up(start, i, ai);
        assert(start.arena@[na as int] == start.node(na as int));
        start.lemma_anc_depth(i, na as int);
        start.lemma_anc_depth(i, ai);
    }
    assert forall|j: int| 0 <= j < start.arena@.len() && !passed(start, i, na, j) implies #[trigger] tn.arena@[j] == start.arena@[j] by {
        assert(tn.arena@[j] == t0.arena@[j]);
    }
    assert forall|j: int| 0 <= j < start.arena@.len() && passed(start, i, na, j) implies {
        &&& (#[trigger] tn.arena@[j]).generation == start.arena@[j].generation.wrapping_add(1)
        &&& tn.arena@[j].is_excluded == start.arena@[j].is_excluded
        &&& (!tn.arena@[j].is_excluded && !tn.arena@[j].is_leaf && tn.arena@[j].leaf_count >= 2)
            ==> exists|x: HeapEntry| #[trigger] hn.count(x) > 0 && x.1 as int == j && x.2 == tn.arena@[j].generation
    } by {
        if j != ai {
            assert(tn.arena@[j] == t0.arena@[j]);
            if !tn.arena@[j].is_excluded && !tn.arena@[j].is_leaf && tn.arena@[j].leaf_count >= 2 {
                let x = choose|x: HeapEntry| #[trigger] h0.count(x) > 0 && x.1 as int == j && x.2 == t0.arena@[j].generation;
                assert(hn.count(x) >= h0.count(x));
            }
        } else {
            assert(tn.arena@[j].is_leaf == t0.arena@[j].is_leaf);
        }
    }
    assert forall|x: HeapEntry| #[trigger] hn.count(x) > hs.count(x) implies
        (x.1 as int) < start.arena@.len() && passed(start, i, na, x.1 as int) && x.2 == tn.arena@[x.1 as int].generation by {
        assert(hn.count(x) >= h0.count(x));
        if hn.count(x) > h0.count(x) {
        } else {
            assert(h0.count(x) > hs.count(x));
            assert(x.1 as int != ai);
            assert(tn.arena@[x.1 as int] == t0.arena@[x.1 as int]);
        }
    }
    assert forall|x: HeapEntry| #[trigger] hn.count(x) >= hs.count(x) by {
        assert(hn.count(x) >= h0.count(x));
        assert(h0.count(x) >= hs.count(x));
    }
    if live_on {
        BinaryTrie::lemma_shape_reach(start, t0, start.root as int, ai);
        assert(same_shape(t0.arena@, start.arena@) ==> true);
        assert(t0.arena@[ai].is_leaf == start.arena@[ai].is_leaf);
        crate::progress::lemma_recount_step(t0, tn, ai, d);
        if ai != start.root {
            start.lemma_reach_parent(start.root as int, ai);
            assert(start.arena@[ai] == start.node(ai));
        } else {
            assert(na == INVALID);
        }
    }
}

/// At the end of the walk, every strict ancestor of `i` has been passed.
proof fn lemma_walk_done(start: BinaryTrie, t: BinaryTrie, h: Multiset<HeapEntry>, hs: Multiset<HeapEntry>,
    i: int, live_on: bool, d: int, r0: int)
    requires
        walk_inv(start, t, h, hs, i, INVALID, live_on, d, r0),
    ensures
        walk_result(start, t, hs, h, i),
        live_on ==> live_counts_exact(t),
{
    assert forall|j: int| 0 <= j < start.arena@.len() && !(start.anc(i, j) && j != i)
        implies #[trigger] t.arena@[j] == start.arena@[j] by {
        assert(!passed(start, i, INVALID, j));
    }
    if live_on {
        assert forall|j: int| #[trigger] live(t, j) implies t.node(j).leaf_count as int == crate::progress::count_of_children(t, j) by {
            t.lemma_reach_anc(t.root as int, j);
            assert(j != INVALID as int);
        }
    }
}

/// After a collapse below `ancestor`'s chain: recompute leaf counts, add the
/// new over-coverage to the collapsed-cost sums, recompute preferred overlaps,
/// invalidate and re-enqueue each ancestor.
#[verifier::rlimit(60)]
fn propagate_up(
    trie: &mut BinaryTrie,
    node_idx: NodeIdx,
    net_new_over: u128,
    has_preferred: bool,
    preferred_set: &PreferredSet,
    heap: &mut CandidateHeap,
    Ghost(o): Ghost<BinaryTrie>,
    Ghost(tracking): Ghost<bool>,
    Ghost(cur_old): Ghost<int>,
    Ghost(cur_new): Ghost<int>,
    Ghost(live_on): Ghost<bool>,
    Ghost(d): Ghost<int>,
    Ghost(r0): Ghost<int>,
)
    requires
        opt_inv(o, *old(trie)),
        old(trie).valid(node_idx as int),
        live_on ==> {
            &&& live(*old(trie), node_idx as int)
            &&& counts_off(*old(trie), old(trie).node(node_idx as int).parent as int, d)
            &&& old(trie).node(old(trie).root as int).leaf_count as int
                == if node_idx as int == old(trie).root { r0 - d } else { r0 }
            &&& d >= 0
        },
        o.addr_bits == 128 ==> !preferred_set.all_v6(),
        !has_preferred ==> no_overlap(*preferred_set, o),
        old(heap).wf(),
        tracking ==> {
            &&& acct_inv(*old(trie), cur_new, old(trie).node(node_idx as int).parent as int, net_new_over as int)
            &&& forall|j: int| old(trie).valid(j) && !old(trie).node(j).is_leaf
                ==> (#[trigger] old(trie).node(j)).collapsed_cost_sum <= cur_old
            &&& 0 <= cur_old <= u128::MAX
            &&& cur_new == if cur_old + net_new_over > u128::MAX { u128::MAX as int } else { cur_old + net_new_over }
        },
    ensures
        opt_inv(o, *final(trie)),
        final(heap).wf(),
        tracking ==> acct_inv(*final(trie), cur_new, -1, 0),
        walk_result(*old(trie), *final(trie), old(heap).items(), final(heap).items(), node_idx as int),
        live_on ==> live_counts_exact(*final(trie)) && final(trie).node(final(trie).root as int).leaf_count as int == r0 - d,
        forall|j: int| 0 <= j < old(trie).arena@.len() ==> (#[trigger] final(trie).arena@[j]).coverage == old(trie).arena@[j].coverage,
        live_on ==> forall|j: int| 0 <= j < old(trie).arena@.len() ==>
            (#[trigger] final(trie).arena@[j]).leaf_count <= old(trie).arena@[j].leaf_count,
        forall|x: HeapEntry| #[trigger] final(heap).items().count(x) > old(heap).items().count(x)
            ==> x.0 == key_of(*final(trie), *preferred_set, x.1 as int),
{
    let ghost start = *trie;
    let ghost hs = heap.items();
    proof {
        lemma_collapsed_wf(o, start);
        if live_on && node_idx as int != start.root {
            start.lemma_reach_parent(start.root as int, node_idx as int);
        }
        assert(start.anc(node_idx as int, node_idx as int));
        assert(start.arena@[node_idx as int] == start.node(node_idx as int));
        if node_idx as int != start.root {
            let p = start.node(node_idx as int).parent as int;
            assert(start.arena@[p] == start.node(p));
            assert(start.anc(p, p));
            assert(start.anc(node_idx as int, p));
        }
        assert(same_shape(start.arena@, start.arena@));
        assert forall|j: int| 0 <= j < start.arena@.len() implies !passed(start, node_idx as int, start.node(node_idx as int).parent, j) by {
            if start.anc(node_idx as int, j) && j != node_idx as int {
                if node_idx as int == start.root {
                    assert(false);
                } else {
                    assert(start.anc(start.node(node_idx as int).parent as int, j));
                }
            }
        }
    }
    proof {
        assert(trie.arena@[node_idx as int] == trie.node(node_idx as int));
    }
    let mut ancestor = trie.arena[node_idx as usize].parent;
    proof {
        if node_idx as int != trie.root {
            let p = trie.node(node_idx as int).parent as int;
            assert(trie.arena@[p] == trie.node(p));
        } else {
            assert(trie.arena@[trie.root as int] == trie.node(trie.root as int));
        }
    }
    while ancestor != INVALID
        invariant
            opt_inv(o, *trie),
            o.addr_bits == 128 ==> !preferred_set.all_v6(),
            !has_preferred ==> no_overlap(*preferred_set, o),
            ancestor != INVALID ==> trie.valid(ancestor as int),
            heap.wf(),
            trie.arena@.len() == start.arena@.len(),
            collapsed_from(o, start),
            tracking ==> {
                &&& acct_inv(*trie, cur_new, ancestor as int, net_new_over as int)
                &&& 0 <= cur_old <= u128::MAX
                &&& cur_new == if cur_old + net_new_over > u128::MAX { u128::MAX as int } else { cur_old + net_new_over }
                &&& forall|j: int| start.valid(j) && !start.node(j).is_leaf
                    ==> (#[trigger] start.node(j)).collapsed_cost_sum <= cur_old
                &&& ancestor != INVALID ==> forall|j: int| 0 <= j < start.arena@.len()
                    && start.arena@[j].depth <= trie.node(ancestor as int).depth ==>
                    (#[trigger] trie.arena@[j]).collapsed_cost_sum == start.arena@[j].collapsed_cost_sum
                    && trie.arena@[j].is_leaf == start.arena@[j].is_leaf
                    && trie.arena@[j].depth == start.arena@[j].depth
            },
            walk_inv(start, *trie, heap.items(), hs, node_idx as int, ancestor, live_on, d, r0),
            forall|j: int| 0 <= j < start.arena@.len() ==> (#[trigger] trie.arena@[j]).coverage == start.arena@[j].coverage,
            live_on ==> d >= 0 && forall|j: int| 0 <= j < start.arena@.len() ==>
                (#[trigger] trie.arena@[j]).leaf_count <= start.arena@[j].leaf_count,
            forall|x: HeapEntry| #[trigger] heap.items().count(x) > hs.count(x)
                ==> x.0 == key_of(*trie, *preferred_set, x.1 as int),
        decreases if ancestor == INVALID { 0int } else { trie.node(ancestor as int).depth + 1 },
    {
        let ghost t0 = *trie;
        let ghost h0 = heap.items();
        let ghost a_u = ancestor;
        let ghost a_i = ancestor as int;
        trie.update_leaf_count(ancestor);
        let ghost t1 = *trie;
        proof {
            if live_on {
                BinaryTrie::lemma_shape_reach(start, t0, start.root as int, a_i);
                assert(live(t0, a_i));
                assert(t0.arena@[a_i] == t0.node(a_i));
                assert(t1.arena@[a_i].leaf_count <= t0.arena@[a_i].leaf_count);
            }
            t0.lemma_desc_children(a_i);
            assert(t0.arena@[a_i] == t0.node(a_i));
            assert(collapsed_from(o, t1));
            lemma_collapsed_wf(o, t0);
            lemma_collapsed_wf(o, t1);
            assert forall|i: int| t1.valid(i) implies (#[trigger] t1.node(i)).leaf_count <= t1.desc(i).len() by {
                assert(t0.node(i).leaf_count <= t0.desc(i).len());
            }
            if tracking {
                assert(same_acct_fields(t0, t1));
                lemma_acct_frame(t0, t1, cur_new, a_i, net_new_over as int);
            }
        }
        let mut a = trie.arena[ancestor as usize];
        a.collapsed_cost_sum = a.collapsed_cost_sum.saturating_add(net_new_over);
        // Recompute the ancestor's preferred metrics from its children.
        if has_preferred {
            let children = a.children;
            let mut total_po: u128 = 0;
            let mut total_poc: u128 = 0;
            if children[0] != INVALID {
                proof {
                    assert(t1.arena@[a_i] == t1.node(a_i));
                }
                total_po = total_po.saturating_add(trie.arena[children[0] as usize].preferred_overlap);
                total_poc = total_poc.saturating_add(trie.arena[children[0] as usize].preferred_overlap_in_coverage);
            }
            if children[1] != INVALID {
                proof {
                    assert(t1.arena@[a_i] == t1.node(a_i));
                }
                total_po = total_po.saturating_add(trie.arena[children[1] as usize].preferred_overlap);
                total_poc = total_poc.saturating_add(trie.arena[children[1] as usize].preferred_overlap_in_coverage);
            }
            a.preferred_overlap = total_po;
            a.preferred_overlap_in_coverage = total_poc;
        }
        a.generation = a.generation.wrapping_add(1);
        trie.arena.set(ancestor as usize, a);
        proof {
            assert(collapsed_from(o, *trie));
            lemma_collapsed_step(o, t1, *trie);
            assert(trie.arena@[a_i] == trie.node(a_i));
            if tracking {
                assert(t1.arena@[a_i] == t1.node(a_i));
                assert(t0.arena@[a_i] == t0.node(a_i));
                assert(start.arena@[a_i].depth == o.arena@[a_i].depth);
                assert(t0.arena@[a_i].depth == o.arena@[a_i].depth);
                assert(t0.arena@[a_i].collapsed_cost_sum == start.arena@[a_i].collapsed_cost_sum);
                assert(t1.arena@[a_i].collapsed_cost_sum == start.arena@[a_i].collapsed_cost_sum);
                assert(start.arena@[a_i] == start.node(a_i));
                lemma_raise_acct(t1, *trie, a_i, net_new_over as int, cur_old, cur_new);
                let t2 = *trie;
                if a.parent != INVALID {
                    let p = a.parent as int;
                    lemma_collapsed_wf(o, t1);
                    assert(t1.arena@[p] == t1.node(p));
                    assert(t1.node(a_i).depth == t1.node(p).depth + t1.node(p).skip_len + 1);
                    assert forall|j: int| 0 <= j < start.arena@.len()
                        && start.arena@[j].depth <= t2.node(p).depth implies
                        (#[trigger] t2.arena@[j]).collapsed_cost_sum == start.arena@[j].collapsed_cost_sum
                        && t2.arena@[j].is_leaf == start.arena@[j].is_leaf
                        && t2.arena@[j].depth == start.arena@[j].depth by {
                        assert(t0.arena@[j].collapsed_cost_sum == start.arena@[j].collapsed_cost_sum
                            && t0.arena@[j].is_leaf == start.arena@[j].is_leaf
                            && t0.arena@[j].depth == start.arena@[j].depth);
                        if j == a_i {
                            assert(false);
                        }
                    }
                }
            }
        }
        // Re-enqueue the ancestor as a merge candidate with its new efficiency.
        if !a.is_excluded && !a.is_leaf && a.leaf_count >= 2 {
            let entry = candidate_entry(trie, ancestor, has_preferred, preferred_set);
            heap.push(entry);
            proof {
                assert(heap.items().count(entry) > 0 && entry.1 as int == a_i && entry.2 == trie.arena@[a_i].generation);
                assert forall|x: HeapEntry| #[trigger] heap.items().count(x) > h0.count(x) implies x == entry by {}
                assert forall|x: HeapEntry| #[trigger] heap.items().count(x) >= h0.count(x) by {}
            }
        }
        proof {
            assert(crate::trie_insert::same_links(t0.arena@, trie.arena@)) by {
                assert forall|j: int| 0 <= j < t0.arena@.len() implies {
                    &&& (#[trigger] t0.arena@[j]).children == trie.arena@[j].children
                    &&& t0.arena@[j].parent == trie.arena@[j].parent
                    &&& t0.arena@[j].depth == trie.arena@[j].depth
                    &&& t0.arena@[j].skip_len == trie.arena@[j].skip_len
                    &&& t0.arena@[j].skip_bits == trie.arena@[j].skip_bits
                } by {
                    if j == a_i {
                        assert(t1.arena@[a_i].children == t0.arena@[a_i].children);
                    }
                }
            }
            assert forall|x: HeapEntry| #[trigger] heap.items().count(x) > hs.count(x)
                implies x.0 == key_of(*trie, *preferred_set, x.1 as int) by {
                if heap.items().count(x) <= h0.count(x) {
                    assert(h0.count(x) > hs.count(x));
                    assert(passed(start, node_idx as int, a_u, x.1 as int));
                    assert(start.anc(a_i, a_i));
                    assert(x.1 as int != a_i);
                    assert(trie.arena@[x.1 as int] == t0.arena@[x.1 as int]);
                    crate::trie_paths::lemma_links_path(t0, *trie, x.1 as int);
                    lemma_key_same(t0, *trie, *preferred_set, x.1 as int);
                }
            }
        }
        proof {
            if a_i != trie.root {
                let p = trie.node(a_i).parent as int;
                assert(trie.arena@[p] == trie.node(p));
            } else {
                assert(trie.arena@[trie.root as int] == trie.node(trie.root as int));
            }
        }
        ancestor = a.parent;
        proof {
            lemma_walk_step(start, t0, *trie, h0, heap.items(), hs, node_idx as int, a_u, ancestor, live_on, d, r0);
        }
    }
    proof {
        lemma_walk_done(start, *trie, heap.items(), hs, node_idx as int, live_on, d, r0);
    }
    proof {
        if tracking && cur_new < u128::MAX {
            let t = *trie;
            assert forall|j: int| t.valid(j) && !t.node(j).is_leaf implies
                #[trigger] child_acct(t, j) <= t.node(j).collapsed_cost_sum + (if j == -1 { 0int } else { 0 }) by {
                assert(j != INVALID as int);
                assert(child_acct(t, j) <= t.node(j).collapsed_cost_sum + (if j == INVALID as int { net_new_over as int } else { 0 }));
            }
        }
    }
}

/// Collapse `node_idx`: invalidate its subtree, make it a leaf, keep the
/// preferred overlap its children had within the coverage, and (with a
/// preferred set) count the preferred addresses of its whole range.
fn collapse_node(trie: &mut BinaryTrie, node_idx: NodeIdx, has_preferred: bool, preferred_set: &PreferredSet, Ghost(o): Ghost<BinaryTrie>)
    requires
        opt_inv(o, *old(trie)),
        old(trie).valid(node_idx as int),
        !old(trie).node(node_idx as int).is_excluded,
        !old(trie).node(node_idx as int).is_leaf,
        o.addr_bits == 128 ==> !preferred_set.all_v6(),
    ensures
        opt_inv(o, *final(trie)),
        final(trie).node(node_idx as int).is_leaf,
        collapsed_at(*old(trie), *final(trie), node_idx as int),
        final(trie).arena@[node_idx as int] == (TrieNode {
            is_leaf: true,
            leaf_count: 1,
            children: [INVALID, INVALID],
            preferred_overlap: final(trie).arena@[node_idx as int].preferred_overlap,
            preferred_overlap_in_coverage: final(trie).arena@[node_idx as int].preferred_overlap_in_coverage,
            ..old(trie).arena@[node_idx as int]
        }),
        forall|j: int| 0 <= j < old(trie).arena@.len() && j != node_idx ==> #[trigger] final(trie).arena@[j]
            == if old(trie).descends(node_idx as int, j) {
                TrieNode { generation: old(trie).arena@[j].generation.wrapping_add(1), ..old(trie).arena@[j] }
            } else {
                old(trie).arena@[j]
            },
{
    let ghost i = node_idx as int;
    let ghost t0 = *trie;
    proof {
        assert(t0.arena@[i] == t0.node(i));
    }
    // Capture the children's preferred overlap within coverage before the
    // subtree is invalidated.
    let children = trie.arena[node_idx as usize].children;
    let mut children_poc_sum: u128 = 0;
    if children[0] != INVALID {
        children_poc_sum = children_poc_sum.saturating_add(trie.arena[children[0] as usize].preferred_overlap_in_coverage);
    }
    if children[1] != INVALID {
        children_poc_sum = children_poc_sum.saturating_add(trie.arena[children[1] as usize].preferred_overlap_in_coverage);
    }
    trie.invalidate_subtree(node_idx);
    let ghost t1 = *trie;
    proof {
        assert(crate::trie_marks::same_links_gen(t0.arena@, t1.arena@)) by {
            assert forall|j: int| 0 <= j < t0.arena@.len() implies #[trigger] t1.arena@[j]
                == (TrieNode { generation: t1.arena@[j].generation, ..t0.arena@[j] }) by {}
        }
        assert(collapsed_from(o, t1));
        lemma_collapsed_step(o, t0, t1);
    }
    trie.collapse(node_idx);
    let ghost t2 = *trie;
    proof {
        assert(t1.arena@[i] == t1.node(i));
        assert(o.arena@[i].is_leaf == t0.arena@[i].is_leaf);
        assert(collapsed_from(o, t2));
        lemma_collapsed_wf(o, t1);
        lemma_collapsed_wf(o, t2);
        t1.lemma_desc_children(i);
        assert forall|j: int| t2.valid(j) implies (#[trigger] t2.node(j)).leaf_count <= t2.desc(j).len() by {
            assert(t1.node(j).leaf_count <= t1.desc(j).len());
        }
    }
    let mut n = trie.arena[node_idx as usize];
    n.preferred_overlap_in_coverage = children_poc_sum;
    // The collapsed node now covers its full interval.
    if has_preferred {
        let (start, end): (u128, u128) = trie.node_interval(node_idx);
        proof {
            t2.lemma_node_range(i);
        }
        let full_preferred: u128 = if trie.addr_bits == 32 {
            preferred_set.overlap_count_v4(start, end)
        } else {
            preferred_set.overlap_count_v6(start, end)
        };
        n.preferred_overlap = full_preferred;
    }
    trie.arena.set(node_idx as usize, n);
    proof {
        assert(collapsed_from(o, *trie));
        lemma_collapsed_step(o, t2, *trie);
        assert forall|j: int| 0 <= j < t0.arena@.len() && j != i implies {
            &&& (#[trigger] trie.arena@[j]).is_leaf == t0.arena@[j].is_leaf
            &&& trie.arena@[j].children == t0.arena@[j].children
            &&& trie.arena@[j].coverage == t0.arena@[j].coverage
            &&& trie.arena@[j].collapsed_cost_sum == t0.arena@[j].collapsed_cost_sum
            &&& trie.arena@[j].depth == t0.arena@[j].depth
            &&& trie.arena@[j].skip_len == t0.arena@[j].skip_len
            &&& trie.arena@[j].parent == t0.arena@[j].parent
        } by {
            assert(t1.arena@[j] == (TrieNode { generation: t1.arena@[j].generation, ..t0.arena@[j] }));
            assert(t2.arena@[j] == t1.arena@[j]);
        }
        assert(t1.arena@[i] == (TrieNode { generation: t1.arena@[i].generation, ..t0.arena@[i] }));
    }
}

/// `b` is `a` after collapsing node `i` and updating its ancestors.
pub open spec fn step_to(a: BinaryTrie, i: int, b: BinaryTrie) -> bool {
    exists|m: BinaryTrie, ha: Multiset<HeapEntry>, hb: Multiset<HeapEntry>|
        collapse_result(a, m, i) && #[trigger] walk_result(m, b, ha, hb, i)
}

/// The collapses made so far lead from `o` to `t`: the first starts from
/// `o`, each leads to the state the next starts from, and the last to `t`
/// (no collapse leaves `t` as `o`). With `greedy`, each collapsed node was a
/// greedy choice in the state it was collapsed in.
#[verifier::opaque]
pub open spec fn trace_ok(o: BinaryTrie, t: BinaryTrie, steps: Seq<(BinaryTrie, int)>, set: PreferredSet, greedy: bool) -> bool {
    &&& steps.len() == 0 ==> t == o
    &&& steps.len() > 0 ==> steps[0].0 == o && step_to(steps.last().0, steps.last().1, t)
    &&& forall|m: int| 0 <= m < steps.len() - 1 ==> #[trigger] step_to(steps[m].0, steps[m].1, steps[m + 1].0)
    &&& greedy ==> forall|m: int| 0 <= m < steps.len() ==> #[trigger] greedy_choice(steps[m].0, set, steps[m].1)
}

/// The over-coverage admitted by the collapses of `steps`: the saturating
/// sum of the new over-coverage of each collapse, in the state it was made in.
pub open spec fn admitted(steps: Seq<(BinaryTrie, int)>) -> int
    decreases steps.len(),
{
    if steps.len() == 0 {
        0
    } else {
        let a = admitted(steps.drop_last()) + net_new(steps.last().0, steps.last().1);
        if a > u128::MAX { u128::MAX as int } else { a }
    }
}

/// The ranked cost admitted by the collapses of `steps` (their over-coverage
/// outside the preferred addresses): the saturating sum of the ranked cost
/// of each collapse, in the state it was made in.
pub open spec fn admitted_ranked(steps: Seq<(BinaryTrie, int)>, set: PreferredSet) -> int
    decreases steps.len(),
{
    if steps.len() == 0 {
        0
    } else {
        let a = admitted_ranked(steps.drop_last(), set) + ranked_cost(steps.last().0, set, steps.last().1);
        if a > u128::MAX { u128::MAX as int } else { a }
    }
}

/// Every collapse of `steps` was made while the trie counted more than
/// `target` leaves.
pub open spec fn steps_above(steps: Seq<(BinaryTrie, int)>, target: int) -> bool {
    forall|m: int| 0 <= m < steps.len() ==> (#[trigger] steps[m]).0.node(steps[m].0.root as int).leaf_count > target
}

/// The ranked cost of a collapse is its new over-coverage less the preferred
/// addresses in the node's gap, never below zero: with no preferred address
/// in the gap it is the whole new over-coverage, and with at least as many
/// preferred addresses in the gap as new addresses it is zero.
pub proof fn law_ranked_cost(t: BinaryTrie, set: PreferredSet, j: int)
    requires
        t.preferred_in(set, t.addr_bits == 32, j) >= 0,
    ensures
        0 <= ranked_cost(t, set, j) <= net_new(t, j),
        ranked_cost(t, set, j) + preferred_gap(t, set, j) == net_new(t, j)
            || (preferred_gap(t, set, j) >= net_new(t, j) && ranked_cost(t, set, j) == 0),
        t.preferred_in(set, t.addr_bits == 32, j) == 0 ==> ranked_cost(t, set, j) == net_new(t, j),
{
}

/// A run of the greedy optimizer, as `optimize_trie` records it: each
/// collapse was of a node that could be collapsed, whose ranked cost per
/// saved entry was least among all such nodes, made while the trie counted
/// more than `target` leaves; and the collapses lead from `o` to `t`.
pub proof fn law_greedy_run(o: BinaryTrie, t: BinaryTrie, steps: Seq<(BinaryTrie, int)>, set: PreferredSet, target: int)
    requires
        trace_ok(o, t, steps, set, true),
        steps_above(steps, target),
    ensures
        steps.len() == 0 ==> t == o,
        steps.len() > 0 ==> steps[0].0 == o && step_to(steps.last().0, steps.last().1, t),
        forall|m: int| 0 <= m < steps.len() ==> {
            &&& collapsible(#[trigger] steps[m].0, steps[m].1)
            &&& steps[m].0.node(steps[m].0.root as int).leaf_count > target
            &&& forall|j: int| #[trigger] collapsible(steps[m].0, j) ==>
                !ratio_lt(key_of(steps[m].0, set, j), key_of(steps[m].0, set, steps[m].1))
        },
{
    reveal(trace_ok);
    assert forall|m: int| 0 <= m < steps.len() implies {
        &&& collapsible(#[trigger] steps[m].0, steps[m].1)
        &&& steps[m].0.node(steps[m].0.root as int).leaf_count > target
        &&& forall|j: int| #[trigger] collapsible(steps[m].0, j) ==>
            !ratio_lt(key_of(steps[m].0, set, j), key_of(steps[m].0, set, steps[m].1))
    } by {
        assert(greedy_choice(steps[m].0, set, steps[m].1));
    }
}

/// One more collapse extends the trace.
proof fn lemma_trace_push(o: BinaryTrie, t: BinaryTrie, i: int, u: BinaryTrie, steps: Seq<(BinaryTrie, int)>,
    set: PreferredSet, greedy: bool)
    requires
        trace_ok(o, t, steps, set, greedy),
        step_to(t, i, u),
        greedy ==> greedy_choice(t, set, i),
    ensures
        trace_ok(o, u, steps.push((t, i)), set, greedy),
{
    reveal(trace_ok);
    let s2 = steps.push((t, i));
    assert forall|m: int| 0 <= m < s2.len() - 1 implies #[trigger] step_to(s2[m].0, s2[m].1, s2[m + 1].0) by {
        if m < steps.len() - 1 {
            assert(s2[m] == steps[m] && s2[m + 1] == steps[m + 1]);
        } else {
            assert(s2[m] == steps.last());
            assert(s2[m + 1] == (t, i));
        }
    }
    if greedy {
        assert forall|m: int| 0 <= m < s2.len() implies #[trigger] greedy_choice(s2[m].0, set, s2[m].1) by {
            if m < steps.len() {
                assert(s2[m] == steps[m]);
            }
        }
    }
}

/// Dropping candidates keeps the keys of those left.
proof fn lemma_keys_sub(t: BinaryTrie, set: PreferredSet, h: Multiset<HeapEntry>, h2: Multiset<HeapEntry>)
    requires
        queue_keys(t, set, h),
        forall|x: HeapEntry| #[trigger] h2.count(x) <= h.count(x),
    ensures
        queue_keys(t, set, h2),
{
    assert forall|x: HeapEntry| #[trigger] h2.count(x) > 0 && (x.1 as int) < t.arena@.len() && age(t, x) == 0
        && !t.node(x.1 as int).is_leaf implies x.0 == key_of(t, set, x.1 as int) by {
        assert(h.count(x) >= h2.count(x));
    }
}

/// Two tries that agree on node `j`, its path and the family give it the same key.
proof fn lemma_key_same(a: BinaryTrie, b: BinaryTrie, set: PreferredSet, j: int)
    requires
        a.arena@[j] == b.arena@[j],
        a.addr_bits == b.addr_bits,
        a.path_value(j) == b.path_value(j),
        a.plen(j) == b.plen(j),
    ensures
        key_of(a, set, j) == key_of(b, set, j),
{
    assert(a.node_start(j) == b.node_start(j));
    assert(a.node_end(j) == b.node_end(j));
    assert(a.node(j) == b.node(j));
    assert(a.capacity_spec(j) == b.capacity_spec(j));
}

/// The candidate taken first among complete, correctly keyed candidates is
/// a greedy choice.
proof fn lemma_greedy_pick(t: BinaryTrie, set: PreferredSet, h0: Multiset<HeapEntry>, e: HeapEntry)
    requires
        t.wf(),
        queue_complete(t, h0),
        queue_keys(t, set, h0),
        h0.count(e) > 0,
        forall|x: HeapEntry| #[trigger] h0.count(x) > 0 ==> entry_le(e, x),
        collapsible(t, e.1 as int),
        (e.1 as int) < t.arena@.len(),
        age(t, e) == 0,
    ensures
        greedy_choice(t, set, e.1 as int),
{
    let i = e.1 as int;
    assert(e.0 == key_of(t, set, i));
    assert forall|j: int| #[trigger] collapsible(t, j) implies !ratio_lt(key_of(t, set, j), key_of(t, set, i)) by {
        let x = choose|x: HeapEntry| #[trigger] h0.count(x) > 0 && x.1 as int == j && x.2 == t.node(j).generation;
        t.lemma_reach_anc(t.root as int, j);
        assert(age(t, x) == 0);
        assert(x.0 == key_of(t, set, j));
        assert(entry_le(e, x));
    }
}

/// One collapse and the walk after it keep every current candidate's key.
proof fn lemma_keys_step(o: BinaryTrie, t0: BinaryTrie, t1: BinaryTrie, t2: BinaryTrie, set: PreferredSet,
    h0: Multiset<HeapEntry>, h2: Multiset<HeapEntry>, e: HeapEntry, k: int)
    requires
        o.wf(),
        t0.wf(),
        t2.wf(),
        collapsed_from(o, t0),
        collapsed_from(o, t2),
        queue_sound(t0, h0, k),
        queue_sound(t2, h2, k + 1),
        queue_keys(t0, set, h0),
        0 <= k < u32::MAX,
        h0.count(e) > 0,
        t0.valid(e.1 as int),
        collapse_result(t0, t1, e.1 as int),
        walk_result(t1, t2, h0.remove(e), h2, e.1 as int),
        t2.addr_bits == t0.addr_bits,
        forall|x: HeapEntry| #[trigger] h2.count(x) > h0.remove(e).count(x) ==> x.0 == key_of(t2, set, x.1 as int),
    ensures
        queue_keys(t2, set, h2),
{
    let i = e.1 as int;
    let h1 = h0.remove(e);
    assert forall|j: int| 0 <= j < t0.arena@.len() implies (#[trigger] t1.arena@[j]).parent == t0.arena@[j].parent
        && t1.arena@[j].depth == t0.arena@[j].depth by {
        if j != i {
            assert(t1.arena@[j] == if t0.descends(i, j) {
                TrieNode { generation: t0.arena@[j].generation.wrapping_add(1), ..t0.arena@[j] }
            } else { t0.arena@[j] });
        }
    }
    assert forall|x: HeapEntry| #[trigger] h2.count(x) > 0 && (x.1 as int) < t2.arena@.len() && age(t2, x) == 0
        && !t2.node(x.1 as int).is_leaf implies x.0 == key_of(t2, set, x.1 as int) by {
        let j = x.1 as int;
        if h2.count(x) <= h1.count(x) {
            assert(h0.count(x) > 0);
            let a0 = age(t0, x);
            assert(a0 <= k);
            let bc = j != i && t0.descends(i, j);
            let bp = t1.anc(i, j) && j != i;
            if j == i {
                assert(t1.arena@[i].is_leaf);
                assert(t2.arena@[i] == t1.arena@[i]);
                assert(false);
            } else if bc {
                lemma_anc_same(t0, t1, i, j);
                t0.lemma_descends_anc(i, j);
                t0.lemma_anc_depth(j, i);
                if bp {
                    t0.lemma_anc_depth(i, j);
                }
                assert(!bp);
                assert(t2.arena@[j] == t1.arena@[j]);
                lemma_age_bump(t0.arena@[j].generation, t2.arena@[j].generation, x.2, a0);
                assert(false);
            } else if bp {
                assert(t1.arena@[j] == t0.arena@[j]);
                lemma_age_bump(t1.arena@[j].generation, t2.arena@[j].generation, x.2, a0);
                assert(false);
            } else {
                assert(t1.arena@[j] == t0.arena@[j]);
                assert(t2.arena@[j] == t1.arena@[j]);
                assert(live(t0, j));
                assert(live(t2, j));
                crate::trie_paths::lemma_collapsed_path(o, t0, j);
                crate::trie_paths::lemma_collapsed_path(o, t2, j);
                lemma_key_same(t0, t2, set, j);
            }
        }
    }
}

/// Coverage stays as in `o`, and with exact counts no count grows and every
/// node turned into a leaf counted at least two leaves in `o`.
#[verifier::opaque]
pub open spec fn counts_kept(o: BinaryTrie, t: BinaryTrie, live_on: bool) -> bool {
    &&& forall|j: int| 0 <= j < o.arena@.len() ==> (#[trigger] t.arena@[j]).coverage == o.arena@[j].coverage
    &&& live_on ==> forall|j: int| 0 <= j < o.arena@.len() ==>
        (#[trigger] t.arena@[j]).leaf_count <= o.arena@[j].leaf_count
    &&& live_on ==> forall|j: int| 0 <= j < o.arena@.len() && (#[trigger] t.arena@[j]).is_leaf && !o.arena@[j].is_leaf
        ==> o.arena@[j].leaf_count >= 2
}

/// A collapse of node `i` (counting at least two leaves) and the walk up
/// after it keep `counts_kept`.
proof fn lemma_counts_kept(o: BinaryTrie, before: BinaryTrie, mid: BinaryTrie, t: BinaryTrie, i: int, live_on: bool)
    requires
        counts_kept(o, before, live_on),
        before.arena@.len() == o.arena@.len(),
        0 <= i < before.arena@.len(),
        before.arena@[i].leaf_count >= 2,
        collapse_result(before, mid, i),
        same_shape(mid.arena@, t.arena@),
        forall|j: int| 0 <= j < mid.arena@.len() ==> (#[trigger] t.arena@[j]).coverage == mid.arena@[j].coverage,
        live_on ==> forall|j: int| 0 <= j < mid.arena@.len() ==>
            (#[trigger] t.arena@[j]).leaf_count <= mid.arena@[j].leaf_count,
    ensures
        counts_kept(o, t, live_on),
{
    reveal(counts_kept);
    assert forall|j: int| 0 <= j < o.arena@.len() implies (#[trigger] t.arena@[j]).coverage == o.arena@[j].coverage by {
        assert(mid.arena@[j].coverage == before.arena@[j].coverage);
    }
    if live_on {
        assert forall|j: int| 0 <= j < o.arena@.len() implies
            (#[trigger] t.arena@[j]).leaf_count <= o.arena@[j].leaf_count by {
            assert(mid.arena@[j].leaf_count <= before.arena@[j].leaf_count);
        }
        assert forall|j: int| 0 <= j < o.arena@.len() && (#[trigger] t.arena@[j]).is_leaf && !o.arena@[j].is_leaf
            implies o.arena@[j].leaf_count >= 2 by {
            assert(t.arena@[j].is_leaf == mid.arena@[j].is_leaf);
            if j != i {
                assert(mid.arena@[j].is_leaf == before.arena@[j].is_leaf);
            }
        }
    }
}

/// Run greedy collapse on the trie until the leaf count is at most `target`,
/// the candidates run out, or the next collapse would take the admitted
/// over-coverage beyond `max_over_coverage` (or the part outside the preferred
/// set beyond `max_non_preferred`); the budgets count only when
/// `input_covered_ips > 0`. Candidates are taken cheapest first by
/// over-coverage per saved entry (discounted by preferred addresses in the
/// gap when the preferred set has addresses of this family); stale candidates
/// are skipped. Excluded nodes are never collapsed. Starting from a trie
/// whose leaves are fully covered and with no collapse cost recorded, the
/// over-coverage of the resulting leaves is at most the over-coverage
/// admitted (unless that sum saturated). Without budgets, on a trie whose
/// leaf counts are exact along the root's subtree, the target is met unless
/// every node that could still be collapsed is excluded; with no excluded
/// node, the leaves end at most at the target (or at one). With budgets, on
/// such a trie, the loop ends at the target, with every collapsible node
/// excluded, or at a node whose collapse would break a budget (a greedy
/// choice, when no address of the family is preferred). The collapses
/// made are recorded in `steps`, and (with exact counts and no preferred
/// address of the family) each took a node whose over-coverage per saved
/// entry is least among all nodes that could be collapsed. Coverage is kept,
/// and every node turned into a leaf counted at least two leaves.
#[verifier::rlimit(80)]
pub fn optimize_trie(
    trie: &mut BinaryTrie,
    target: usize,
    max_over_coverage: Option<u128>,
    input_covered_ips: u128,
    preferred_set: &PreferredSet,
    max_non_preferred: Option<u128>,
) -> (r: TrieOutcome)
    requires
        old(trie).wf(),
        old(trie).counts_bounded(),
        old(trie).addr_bits == 128 ==> !preferred_set.all_v6(),
    ensures
        collapsed_from(*old(trie), *final(trie)),
        final(trie).wf(),
        final(trie).counts_bounded(),
        r.leaves@ == final(trie).leaves_of(final(trie).root as int),
        old(trie).node(old(trie).root as int).leaf_count <= target ==> *final(trie) == *old(trie) && r.over_coverage == 0
            && r.non_preferred_over_coverage == 0,
        max_over_coverage is Some && input_covered_ips > 0 ==> r.over_coverage <= max_over_coverage->0,
        max_non_preferred is Some && input_covered_ips > 0 ==> r.non_preferred_over_coverage <= max_non_preferred->0,
        r.non_preferred_over_coverage <= r.over_coverage,
        clean(*old(trie)) && r.over_coverage < u128::MAX ==>
            gap_sum(*final(trie), final(trie).root as int) <= r.over_coverage,
        max_over_coverage is None && max_non_preferred is None && live_counts_exact(*old(trie)) && unreached_small(*old(trie))
            ==> r.leaves@.len() <= target || stuck(*final(trie)),
        forall|j: int| 0 <= j < old(trie).arena@.len() ==> (#[trigger] final(trie).arena@[j]).coverage == old(trie).arena@[j].coverage,
        live_counts_exact(*old(trie)) && unreached_small(*old(trie)) ==> forall|j: int| 0 <= j < old(trie).arena@.len()
            && (#[trigger] final(trie).arena@[j]).is_leaf && !old(trie).arena@[j].is_leaf ==> old(trie).arena@[j].leaf_count >= 2,
        trace_ok(*old(trie), *final(trie), r.steps@, *preferred_set, live_counts_exact(*old(trie)) && unreached_small(*old(trie))),
        r.over_coverage as int == admitted(r.steps@),
        r.non_preferred_over_coverage as int == admitted_ranked(r.steps@, *preferred_set),
        live_counts_exact(*old(trie)) && unreached_small(*old(trie)) ==> steps_above(r.steps@, target as int),
        live_counts_exact(*old(trie)) && unreached_small(*old(trie)) ==> r.leaves@.len() <= target || stuck(*final(trie))
            || budget_stop(*final(trie), r.over_coverage, max_over_coverage, input_covered_ips,
                r.non_preferred_over_coverage, max_non_preferred, *preferred_set, true),
        max_over_coverage is None && max_non_preferred is None && live_counts_exact(*old(trie)) && unreached_small(*old(trie))
            && none_excluded(*old(trie)) ==> r.leaves@.len() <= target || r.leaves@.len() <= 1,
{
    let ghost o = *trie;
    let ghost tracking = clean(o);
    let ghost live_on = live_counts_exact(o) && unreached_small(o);
    proof {
        if tracking {
            lemma_clean_acct(o);
        }
    }
    proof {
        assert(trie.arena@[trie.root as int] == trie.node(trie.root as int));
    }
    let mut remaining: usize = trie.total_leaf_count();
    // Already within budget: nothing to do.
    if remaining <= target {
        let leaves = trie.extract_leaf_indices();
        proof {
            if tracking {
                lemma_gap_sum_bounded(o, 0, o.root as int);
                assert(o.arena@[o.root as int] == o.node(o.root as int));
            }
            if live_counts_exact(o) {
                assert(live(o, o.root as int));
                crate::progress::lemma_leaves_count(o, o.root as int);
            }
        }
        proof {
            reveal(trace_ok);
        }
        return TrieOutcome { leaves, over_coverage: 0, non_preferred_over_coverage: 0, steps: Ghost(Seq::empty()) };
    }
    // Whether the preferred set has entries for this address family.
    let has_preferred: bool = if trie.addr_bits == 32 {
        !preferred_set.is_empty_v4()
    } else {
        !preferred_set.is_empty_v6()
    };
    proof {
        if no_preferred(*preferred_set, o) {
            assert(!has_preferred);
        }
        if !has_preferred {
            assert(no_overlap(*preferred_set, o));
        }
    }
    let mut heap = CandidateHeap::new();
    let mut current_over_coverage: u128 = 0;
    let mut current_non_preferred_over_coverage: u128 = 0;
    // Every inner, non-excluded node with at least two leaves is a candidate.
    let n: usize = trie.arena.len();
    let mut idx: usize = 0;
    while idx < n
        invariant
            *trie == o,
            o.wf(),
            n == o.arena@.len(),
            idx <= n,
            o.addr_bits == 128 ==> !preferred_set.all_v6(),
            !has_preferred ==> no_overlap(*preferred_set, o),
            heap.wf(),
            forall|x: HeapEntry| #[trigger] heap.items().count(x) > 0 ==> (x.1 as int) < idx
                && !o.arena@[x.1 as int].is_excluded && !o.arena@[x.1 as int].is_leaf
                && o.arena@[x.1 as int].leaf_count >= 2 && x.2 == o.arena@[x.1 as int].generation,
            forall|j: int| 0 <= j < idx && !o.arena@[j].is_excluded && !o.arena@[j].is_leaf && o.arena@[j].leaf_count >= 2
                ==> exists|x: HeapEntry| #[trigger] heap.items().count(x) > 0 && x.1 as int == j && x.2 == o.arena@[j].generation,
            forall|x: HeapEntry| #[trigger] heap.items().count(x) > 0 ==> x.0 == key_of(o, *preferred_set, x.1 as int),
        decreases n - idx,
    {
        let node = &trie.arena[idx];
        let ghost hp = heap.items();
        if !node.is_excluded && node.leaf_count >= 2 && !node.is_leaf {
            let entry = candidate_entry(trie, idx as u32, has_preferred, preferred_set);
            heap.push(entry);
            proof {
                assert(heap.items().count(entry) > 0 && entry.1 as int == idx as int
                    && entry.2 == o.arena@[idx as int].generation);
                assert forall|x: HeapEntry| #[trigger] heap.items().count(x) >= hp.count(x) by {}
                assert forall|x: HeapEntry| #[trigger] heap.items().count(x) > 0 && x != entry implies hp.count(x) > 0 by {}
                assert forall|j: int| 0 <= j < idx + 1 && !o.arena@[j].is_excluded && !o.arena@[j].is_leaf && o.arena@[j].leaf_count >= 2
                    implies exists|x: HeapEntry| #[trigger] heap.items().count(x) > 0 && x.1 as int == j && x.2 == o.arena@[j].generation by {
                    if j == idx as int {
                        assert(heap.items().count(entry) > 0 && entry.1 as int == j && entry.2 == o.arena@[j].generation);
                    } else {
                        let x = choose|x: HeapEntry| #[trigger] hp.count(x) > 0 && x.1 as int == j && x.2 == o.arena@[j].generation;
                        assert(heap.items().count(x) >= hp.count(x));
                    }
                }
            }
        } else {
            proof {
                assert(o.arena@[idx as int] == *node);
            }
        }
        idx = idx + 1;
    }
    proof {
        assert(collapsed_from(o, *trie));
    }
    let ghost init: int = remaining as int;
    let ghost mut k: int = 0;
    let ghost mut steps: Seq<(BinaryTrie, int)> = Seq::empty();
    let ghost greedy_on: bool = live_on;
    proof {
        reveal(counts_kept);
        reveal(trace_ok);
    }
    proof {
        if live_on {
            lemma_queue_start(o, heap.items());
        }
    }
    // Greedy loop: take the cheapest candidate until the budget is met.
    while remaining > target
        invariant_except_break
            live_on ==> queue_complete(*trie, heap.items()),
        invariant
            opt_inv(o, *trie),
            o.addr_bits == 128 ==> !preferred_set.all_v6(),
            heap.wf(),
            max_over_coverage is Some && input_covered_ips > 0 ==> current_over_coverage <= max_over_coverage->0,
            max_non_preferred is Some && input_covered_ips > 0 ==> current_non_preferred_over_coverage <= max_non_preferred->0,
            current_non_preferred_over_coverage <= current_over_coverage,
            tracking == clean(o),
            tracking ==> acct_inv(*trie, current_over_coverage as int, -1, 0),
            live_on == (live_counts_exact(o) && unreached_small(o)),
            counts_kept(o, *trie, live_on),
            greedy_on == live_on,
            no_preferred(*preferred_set, o) ==> !has_preferred,
            !has_preferred ==> no_overlap(*preferred_set, o),
            greedy_on ==> queue_keys(*trie, *preferred_set, heap.items()),
            trace_ok(o, *trie, steps, *preferred_set, greedy_on),
            current_over_coverage as int == admitted(steps),
            current_non_preferred_over_coverage as int == admitted_ranked(steps, *preferred_set),
            live_on ==> steps_above(steps, target as int),
            live_on ==> {
                &&& live_counts_exact(*trie)
                &&& remaining as int == trie.node(trie.root as int).leaf_count
                &&& 0 <= k && k + remaining <= init
                &&& init <= u32::MAX
                &&& queue_sound(*trie, heap.items(), k)
            },
        ensures
            live_on ==> remaining <= target || stuck(*trie)
                || budget_stop(*trie, current_over_coverage, max_over_coverage, input_covered_ips,
                    current_non_preferred_over_coverage, max_non_preferred, *preferred_set, greedy_on),
        decreases remaining, heap.items().len(),
    {
        let ghost h0 = heap.items();
        let entry = match heap.pop() {
            Some(e) => e,
            None => {
                proof {
                    if live_on {
                        lemma_empty_stuck(*trie, heap.items());
                    }
                }
                break;
            },
        };
        proof {
            if greedy_on {
                assert forall|x: HeapEntry| #[trigger] heap.items().count(x) <= h0.count(x) by {}
                lemma_keys_sub(*trie, *preferred_set, h0, heap.items());
            }
        }
        let node_idx: NodeIdx = entry.1;
        let gen: u32 = entry.2;
        if node_idx as usize >= trie.arena.len() {
            proof {
                if live_on {
                    lemma_pop_skip(*trie, h0, entry, k);
                }
            }
            continue;
        }
        proof {
            assert(trie.arena@[node_idx as int] == trie.node(node_idx as int));
        }
        let node = trie.arena[node_idx as usize];
        // Skip excluded, already collapsed, or stale entries.
        if node.is_excluded || node.is_leaf || node.generation != gen || node.leaf_count < 2 {
            proof {
                if live_on {
                    lemma_pop_skip(*trie, h0, entry, k);
                }
            }
            // Compact the queue when stale entries outnumber the useful ones fourfold.
            if heap.len() as u128 > 4 * (remaining as u128) {
                let ghost h1 = heap.items();
                heap = compact(heap, &trie.arena);
                proof {
                    if live_on {
                        lemma_compact_keeps(*trie, h1, heap.items(), k);
                    }
                    if greedy_on {
                        lemma_keys_sub(*trie, *preferred_set, h1, heap.items());
                    }
                }
            }
            continue;
        }
        let leaf_count: u32 = node.leaf_count;
        let reduction: usize = leaf_count as usize - 1;
        // Recompute the cost from the trie: descendant collapses may have
        // changed it since the entry was queued.
        let cost: u128 = trie.collapse_cost(node_idx);
        let descendant_collapsed_cost: u128 = node.collapsed_cost_sum;
        let net_new_over: u128 = cost.saturating_sub(descendant_collapsed_cost);
        // Preferred addresses in the gap (not already covered by leaves).
        let preferred_in_gap: u128 = if has_preferred {
            let (start, end): (u128, u128) = trie.node_interval(node_idx);
            proof {
                trie.lemma_node_range(node_idx as int);
            }
            let total_preferred_in_node: u128 = if trie.addr_bits == 32 {
                preferred_set.overlap_count_v4(start, end)
            } else {
                preferred_set.overlap_count_v6(start, end)
            };
            total_preferred_in_node.saturating_sub(node.preferred_overlap)
        } else {
            0
        };
        let m: u128 = if preferred_in_gap < net_new_over { preferred_in_gap } else { net_new_over };
        let non_preferred_in_gap: u128 = net_new_over.saturating_sub(m);
        proof {
            assert(trie.arena@[node_idx as int] == trie.node(node_idx as int));
            assert(net_new(*trie, node_idx as int) == net_new_over as int);
            assert(preferred_in_gap as int == preferred_gap(*trie, *preferred_set, node_idx as int));
            assert(non_preferred_in_gap as int == ranked_cost(*trie, *preferred_set, node_idx as int));
        }
        proof {
            if live_on {
                lemma_pop_sound(*trie, h0, entry, k);
                assert(age(*trie, entry) == 0);
                assert(collapsible(*trie, node_idx as int));
                assert(net_new(*trie, node_idx as int) == net_new_over as int);
            }
            if greedy_on {
                lemma_greedy_pick(*trie, *preferred_set, h0, entry);
            }
        }
        // Stop if this merge would reach the over-coverage limit.
        if let Some(limit) = max_over_coverage {
            if input_covered_ips > 0 {
                let new_total: u128 = current_over_coverage.saturating_add(net_new_over);
                if new_total > limit {
                    proof {
                        if live_on {
                            assert(collapsible(*trie, node_idx as int) && (max_over_coverage is Some && input_covered_ips > 0
                                && current_over_coverage + net_new(*trie, node_idx as int) > max_over_coverage->0));
                        }
                    }
                    break;
                }
            }
        }
        // Stop if the non-preferred over-coverage would reach its limit.
        if let Some(limit) = max_non_preferred {
            if input_covered_ips > 0 {
                let new_np: u128 = current_non_preferred_over_coverage.saturating_add(non_preferred_in_gap);
                if new_np > limit {
                    proof {
                        if live_on {
                            assert(non_preferred_in_gap <= net_new_over);
                            assert(collapsible(*trie, node_idx as int) && (max_non_preferred is Some && input_covered_ips > 0
                                && current_non_preferred_over_coverage + net_new(*trie, node_idx as int) > max_non_preferred->0));
                        }
                    }
                    break;
                }
            }
        }
        let ghost cur_old = current_over_coverage as int;
        current_over_coverage = current_over_coverage.saturating_add(net_new_over);
        current_non_preferred_over_coverage = current_non_preferred_over_coverage.saturating_add(non_preferred_in_gap);
        let ghost before = *trie;
        let ghost r0: int = remaining as int;
        let ghost d: int = reduction as int;
        proof {
            if live_on {
                assert(age(before, entry) == 0);
                assert(live(before, node_idx as int));
                crate::progress::lemma_count_le(before, before.root as int, node_idx as int);
            }
        }
        collapse_node(trie, node_idx, has_preferred, preferred_set, Ghost(o));
        let ghost mid = *trie;
        proof {
            if tracking {
                assert(before.arena@[node_idx as int] == before.node(node_idx as int));
                assert(gap(before, node_idx as int) == cost as int);
                lemma_collapse_acct(before, *trie, node_idx as int, net_new_over as int, cur_old, current_over_coverage as int);
            }
            assert(collapse_result(before, mid, node_idx as int));
            if live_on {
                lemma_collapsed_wf(o, before);
                lemma_collapsed_wf(o, mid);
                let i = node_idx as int;
                assert(collapse_shape(before, mid, i)) by {
                    assert forall|j: int| 0 <= j < before.arena@.len() implies {
                        &&& (#[trigger] mid.arena@[j]).parent == before.arena@[j].parent
                        &&& mid.arena@[j].depth == before.arena@[j].depth
                        &&& j != i ==> mid.arena@[j].children == before.arena@[j].children && mid.arena@[j].is_leaf == before.arena@[j].is_leaf
                    } by {}
                }
                assert forall|j: int| 0 <= j < before.arena@.len() && j != i implies #[trigger] mid.arena@[j].leaf_count
                    == before.arena@[j].leaf_count by {}
                crate::progress::lemma_collapse_counts(before, mid, i, d);
            }
        }
        remaining = remaining.saturating_sub(reduction);
        let ghost h1 = heap.items();
        // Propagate leaf counts and costs up the ancestor chain.
        propagate_up(trie, node_idx, net_new_over, has_preferred, preferred_set, &mut heap, Ghost(o),
            Ghost(tracking), Ghost(cur_old), Ghost(current_over_coverage as int), Ghost(live_on), Ghost(d), Ghost(r0));
        proof {
            if live_on {
                lemma_collapsed_wf(o, *trie);
                lemma_greedy_step(before, mid, *trie, h0, heap.items(), entry, k);
            }
            if greedy_on {
                lemma_keys_step(o, before, mid, *trie, *preferred_set, h0, heap.items(), entry, k);
            }
            k = k + 1;
            lemma_counts_kept(o, before, mid, *trie, node_idx as int, live_on);
            assert(collapse_result(before, mid, node_idx as int) && walk_result(mid, *trie, h1, heap.items(), node_idx as int));
            assert(step_to(before, node_idx as int, *trie));
            lemma_trace_push(o, before, node_idx as int, *trie, steps, *preferred_set, greedy_on);
            let s0 = steps;
            steps = steps.push((before, node_idx as int));
            assert(steps.drop_last() =~= s0);
            assert(before.arena@[node_idx as int] == before.node(node_idx as int));
            assert(net_new(before, node_idx as int) == net_new_over as int);
            assert(current_over_coverage as int == admitted(steps));
            assert(current_non_preferred_over_coverage as int == admitted_ranked(steps, *preferred_set));
            if live_on {
                assert forall|m: int| 0 <= m < steps.len() implies
                    (#[trigger] steps[m]).0.node(steps[m].0.root as int).leaf_count > target by {
                    if m < s0.len() {
                        assert(steps[m] == s0[m]);
                    }
                }
            }
        }
    }
    let leaves = trie.extract_leaf_indices();
    proof {
        reveal(counts_kept);
        if tracking && current_over_coverage < u128::MAX {
            lemma_gap_sum_bounded(*trie, current_over_coverage as int, trie.root as int);
            assert(trie.arena@[trie.root as int] == trie.node(trie.root as int));
        }
        if live_on {
            lemma_outcome(o, *trie);

        }
    }
    proof {
        reveal(trace_ok);
    }
    TrieOutcome {
        leaves,
        over_coverage: current_over_coverage,
        non_preferred_over_coverage: current_non_preferred_over_coverage,
        steps: Ghost(steps),
    }
}

} // verus!
