//! What keeps the greedy optimizer going until its target is met: leaf counts
//! stay exact at every node reached from the root, every node that could
//! still be collapsed has a queued candidate of its current generation, and a
//! candidate of a node's current generation always names a node still reached
//! from the root (generation counters wrap, but never as far as a full turn).
use vstd::prelude::*;
use vstd::multiset::Multiset;
use crate::trie::{BinaryTrie, TrieNode, INVALID, same_shape};
use crate::heap::HeapEntry;
use crate::trie_paths::lemma_reach_trans;

verus! {

/// How many bumps the generation of the node named by `e` is past the one
/// that `e` recorded (counters wrap at `2^32`).
pub open spec fn age(t: BinaryTrie, e: HeapEntry) -> int {
    (t.arena@[e.1 as int].generation as int - e.2 as int) % 0x1_0000_0000
}

/// Node `j` is still part of the trie: it is reached from the root through
/// inner nodes.
pub open spec fn live(t: BinaryTrie, j: int) -> bool {
    t.reach(t.root as int, j)
}

/// Node `j` could be collapsed: it is live, inner, not excluded, and counts at
/// least two leaves.
pub open spec fn collapsible(t: BinaryTrie, j: int) -> bool {
    &&& live(t, j)
    &&& !t.node(j).is_leaf
    &&& !t.node(j).is_excluded
    &&& t.node(j).leaf_count >= 2
}

/// Each queued candidate names a node whose generation has moved at most `k`
/// bumps since, and a candidate of the current generation names a live node.
pub open spec fn queue_sound(t: BinaryTrie, q: Multiset<HeapEntry>, k: int) -> bool {
    forall|e: HeapEntry| #[trigger] q.count(e) > 0 && (e.1 as int) < t.arena@.len() ==> {
        &&& age(t, e) <= k
        &&& age(t, e) == 0 ==> live(t, e.1 as int)
    }
}

/// Every collapsible node has a queued candidate of its current generation.
pub open spec fn queue_complete(t: BinaryTrie, q: Multiset<HeapEntry>) -> bool {
    forall|j: int| #[trigger] collapsible(t, j) ==> exists|e: HeapEntry|
        #[trigger] q.count(e) > 0 && e.1 as int == j && e.2 == t.node(j).generation
}

/// What the children of node `j` count (a leaf counts one).
pub open spec fn count_of_children(t: BinaryTrie, j: int) -> int {
    if t.node(j).is_leaf { 1 } else { t.child_count(j, 0) + t.child_count(j, 1) }
}

/// Leaf counts are exact at every live node but `at`, whose count exceeds
/// what its children count by `d`.
pub open spec fn counts_off(t: BinaryTrie, at: int, d: int) -> bool {
    forall|j: int| #[trigger] live(t, j) ==> t.node(j).leaf_count as int
        == count_of_children(t, j) + (if j == at { d } else { 0 })
}

/// Leaf counts are exact at every live node.
pub open spec fn live_counts_exact(t: BinaryTrie) -> bool {
    forall|j: int| #[trigger] live(t, j) ==> t.node(j).leaf_count as int == count_of_children(t, j)
}

/// Nodes not reached from the root count at most one leaf.
pub open spec fn unreached_small(t: BinaryTrie) -> bool {
    forall|j: int| t.valid(j) && !live(t, j) ==> #[trigger] t.node(j).leaf_count <= 1
}

/// Every live inner node that counts at least two leaves is excluded.
pub open spec fn stuck(t: BinaryTrie) -> bool {
    forall|j: int| live(t, j) && !t.node(j).is_leaf && t.node(j).leaf_count >= 2 ==> #[trigger] t.node(j).is_excluded
}

/// No node is excluded.
pub open spec fn none_excluded(t: BinaryTrie) -> bool {
    forall|j: int| t.valid(j) ==> !(#[trigger] t.arena@[j]).is_excluded
}

/// `b` is `a` with node `i` turned into a leaf without children; links,
/// depths and leaf flags are otherwise kept.
pub open spec fn collapse_shape(a: BinaryTrie, b: BinaryTrie, i: int) -> bool {
    &&& b.root == a.root
    &&& b.addr_bits == a.addr_bits
    &&& b.arena@.len() == a.arena@.len()
    &&& 0 <= i < a.arena@.len()
    &&& forall|j: int| 0 <= j < a.arena@.len() ==> {
        &&& (#[trigger] b.arena@[j]).parent == a.arena@[j].parent
        &&& b.arena@[j].depth == a.arena@[j].depth
        &&& j != i ==> b.arena@[j].children == a.arena@[j].children && b.arena@[j].is_leaf == a.arena@[j].is_leaf
    }
    &&& b.arena@[i].is_leaf
    &&& b.arena@[i].children == [INVALID, INVALID]
}

/// A node reached from `x` (other than `x`) is a child of its parent.
pub proof fn lemma_reach_linked(t: BinaryTrie, x: int, j: int)
    requires
        t.wf(),
        t.valid(x),
        t.reach(x, j),
        j != x,
    ensures
        t.node(t.node(j).parent as int).children[0] == j as u32 || t.node(t.node(j).parent as int).children[1] == j as u32,
        t.node(t.node(j).parent as int).depth < t.node(j).depth,
    decreases 256 - t.node(x).depth,
{
    assert(t.arena@[x] == t.node(x));
    let c0 = t.node(x).children[0];
    let c1 = t.node(x).children[1];
    let c: int = if c0 != INVALID && t.valid(c0 as int) && t.node(c0 as int).depth > t.node(x).depth
        && t.reach(c0 as int, j) { c0 as int } else { c1 as int };
    assert(t.arena@[c] == t.node(c));
    assert(t.node(c).parent as int == x);
    if c != j {
        lemma_reach_linked(t, c, j);
    }
}

/// A node reached from `x` through its ancestor `i` is reached from `i`.
pub proof fn lemma_reach_through(t: BinaryTrie, x: int, i: int, j: int)
    requires
        t.wf(),
        t.valid(x),
        t.reach(x, j),
        t.anc(j, i),
        t.anc(i, x),
    ensures
        t.reach(i, j),
    decreases t.node(j).depth,
{
    if j != i {
        t.lemma_reach_anc(x, j);
        t.lemma_anc_depth(j, i);
        t.lemma_anc_depth(i, x);
        if j == x {
            assert(false);
        }
        t.lemma_reach_parent(x, j);
        lemma_reach_linked(t, x, j);
        let p = t.node(j).parent as int;
        assert(t.arena@[j] == t.node(j));
        assert(t.anc(p, i));
        lemma_reach_through(t, x, i, p);
        assert(t.arena@[p] == t.node(p));
        assert(t.reach(j, j));
        assert(t.reach(p, j));
        lemma_reach_trans(t, i, p, j);
    }
}

/// What is reached from `i` descends from it.
pub proof fn lemma_reach_descends(t: BinaryTrie, i: int, j: int)
    requires
        t.reach(i, j),
    ensures
        t.descends(i, j),
    decreases 256 - t.node(i).depth,
{
    if i != j {
        let c0 = t.node(i).children[0];
        let c1 = t.node(i).children[1];
        if c0 != INVALID && t.valid(c0 as int) && t.node(c0 as int).depth > t.node(i).depth && t.reach(c0 as int, j) {
            lemma_reach_descends(t, c0 as int, j);
        } else {
            lemma_reach_descends(t, c1 as int, j);
        }
    }
}

/// Ancestry only reads parents and depths.
pub proof fn lemma_anc_same(a: BinaryTrie, b: BinaryTrie, j: int, x: int)
    requires
        b.root == a.root,
        b.arena@.len() == a.arena@.len(),
        forall|k: int| 0 <= k < a.arena@.len() ==> (#[trigger] b.arena@[k]).parent == a.arena@[k].parent
            && b.arena@[k].depth == a.arena@[k].depth,
    ensures
        a.anc(j, x) == b.anc(j, x),
    decreases a.node(j).depth,
{
    if j != x && j != a.root && a.valid(j) {
        let p = a.node(j).parent as int;
        assert(b.arena@[j].parent == a.arena@[j].parent);
        if a.valid(p) {
            assert(b.arena@[p].depth == a.arena@[p].depth);
            assert(b.arena@[j].depth == a.arena@[j].depth);
            if a.node(p).depth < a.node(j).depth {
                lemma_anc_same(a, b, p, x);
            }
        }
    }
}

/// After a collapse at `i`, from a node `x` not below `i`, exactly what was
/// reached and is not strictly below `i` is reached.
pub proof fn lemma_collapse_reach(a: BinaryTrie, b: BinaryTrie, i: int, x: int, j: int)
    requires
        a.wf(),
        collapse_shape(a, b, i),
        !(a.anc(x, i) && x != i),
    ensures
        b.reach(x, j) == (a.reach(x, j) && !(a.anc(j, i) && j != i)),
    decreases 256 - a.node(x).depth,
{
    lemma_anc_same(a, b, j, i);
    if x == j {
    } else if !a.valid(x) {
    } else {
        assert(b.arena@[x].depth == a.arena@[x].depth);
        if x == i {
            assert(b.arena@[i].is_leaf);
            if a.reach(i, j) {
                a.lemma_reach_anc(i, j);
            }
        } else {
            assert(b.arena@[x].children == a.arena@[x].children);
            assert(b.arena@[x].is_leaf == a.arena@[x].is_leaf);
            assert(a.arena@[x] == a.node(x));
            if !a.node(x).is_leaf {
                let c0 = a.node(x).children[0];
                let c1 = a.node(x).children[1];
                if c0 != INVALID {
                    assert(a.arena@[c0 as int] == a.node(c0 as int));
                    assert(b.arena@[c0 as int].depth == a.arena@[c0 as int].depth);
                    if a.anc(c0 as int, i) && c0 as int != i {
                        assert(a.anc(x, i));
                    }
                    lemma_collapse_reach(a, b, i, c0 as int, j);
                }
                if c1 != INVALID {
                    assert(a.arena@[c1 as int] == a.node(c1 as int));
                    assert(b.arena@[c1 as int].depth == a.arena@[c1 as int].depth);
                    if a.anc(c1 as int, i) && c1 as int != i {
                        assert(a.anc(x, i));
                    }
                    lemma_collapse_reach(a, b, i, c1 as int, j);
                }
            }
        }
    }
}

/// A live node below `x` counts no more leaves than `x`.
pub proof fn lemma_count_le(t: BinaryTrie, x: int, j: int)
    requires
        t.wf(),
        live_counts_exact(t),
        live(t, x),
        t.reach(x, j),
    ensures
        t.node(j).leaf_count <= t.node(x).leaf_count,
    decreases 256 - t.node(x).depth,
{
    if x != j {
        t.lemma_reach_anc(t.root as int, x);
        assert(t.arena@[x] == t.node(x));
        let c0 = t.node(x).children[0];
        let c1 = t.node(x).children[1];
        let c: int = if c0 != INVALID && t.valid(c0 as int) && t.node(c0 as int).depth > t.node(x).depth
            && t.reach(c0 as int, j) { c0 as int } else { c1 as int };
        assert(t.reach(c, c));
        assert(t.reach(x, c));
        lemma_reach_trans(t, t.root as int, x, c);
        lemma_count_le(t, c, j);
        assert(t.node(x).leaf_count as int == count_of_children(t, x));
    }
}

/// At a live node, the leaf count is the number of leaves below it.
pub proof fn lemma_leaves_count(t: BinaryTrie, x: int)
    requires
        t.wf(),
        live_counts_exact(t),
        live(t, x),
    ensures
        t.leaves_of(x).len() == t.node(x).leaf_count,
    decreases 256 - t.node(x).depth,
{
    t.lemma_reach_anc(t.root as int, x);
    assert(t.arena@[x] == t.node(x));
    assert(t.node(x).leaf_count as int == count_of_children(t, x));
    if !t.node(x).is_leaf {
        let c0 = t.node(x).children[0];
        let c1 = t.node(x).children[1];
        if c0 != INVALID {
            assert(t.arena@[c0 as int] == t.node(c0 as int));
            assert(t.reach(c0 as int, c0 as int));
            assert(t.reach(x, c0 as int));
            lemma_reach_trans(t, t.root as int, x, c0 as int);
            lemma_leaves_count(t, c0 as int);
        }
        if c1 != INVALID {
            assert(t.arena@[c1 as int] == t.node(c1 as int));
            assert(t.reach(c1 as int, c1 as int));
            assert(t.reach(x, c1 as int));
            lemma_reach_trans(t, t.root as int, x, c1 as int);
            lemma_leaves_count(t, c1 as int);
        }
    }
}

/// A trie with no excluded node where nothing more can be collapsed keeps at
/// most one leaf.
pub proof fn lemma_stuck_small(t: BinaryTrie)
    requires
        t.wf(),
        live_counts_exact(t),
        stuck(t),
        none_excluded(t),
    ensures
        t.leaves_of(t.root as int).len() <= 1,
{
    assert(live(t, t.root as int));
    assert(t.arena@[t.root as int] == t.node(t.root as int));
    lemma_leaves_count(t, t.root as int);
}

/// One bump of a generation counter ages every candidate of that node by one,
/// as long as no candidate is a full turn old.
pub proof fn lemma_age_bump(g: u32, h: u32, e2: u32, a: int)
    requires
        h == g.wrapping_add(1),
        a == (g as int - e2 as int) % 0x1_0000_0000,
        a + 1 < 0x1_0000_0000,
    ensures
        (h as int - e2 as int) % 0x1_0000_0000 == a + 1,
{
    assert(h as int == if g == u32::MAX { 0 } else { g + 1 });
}

/// Going one step up from an ancestor of `j` stays among its ancestors.
pub proof fn lemma_anc_up(t: BinaryTrie, j: int, a: int)
    requires
        t.wf(),
        t.anc(j, a),
        a != t.root,
        t.valid(a),
    ensures
        t.anc(j, t.node(a).parent as int),
    decreases t.node(j).depth,
{
    assert(t.arena@[a] == t.node(a));
    let p = t.node(a).parent as int;
    assert(t.arena@[p] == t.node(p));
    if j == a {
        assert(t.anc(p, p));
    } else {
        let q = t.node(j).parent as int;
        assert(t.arena@[j] == t.node(j));
        lemma_anc_up(t, q, a);
    }
}

/// `j` is a strict ancestor of `i` that the walk up from `i` has passed, the
/// walk standing at `at` (`INVALID` once past the root).
pub open spec fn passed(t: BinaryTrie, i: int, at: u32, j: int) -> bool {
    &&& t.anc(i, j)
    &&& j != i
    &&& (at == INVALID || !t.anc(at as int, j))
}

/// One step of the walk up: the node the walk stood at is now passed.
pub proof fn lemma_passed_step(t: BinaryTrie, i: int, a: u32, j: int)
    requires
        t.wf(),
        t.valid(a as int),
        t.anc(i, a as int),
        a as int != i,
    ensures
        passed(t, i, t.node(a as int).parent, j) == (passed(t, i, a, j) || j == a as int),
{
    assert(t.arena@[a as int] == t.node(a as int));
    let p = t.node(a as int).parent;
    if a as int == t.root {
        assert(p == INVALID);
        if t.anc(i, j) && j != i && t.anc(a as int, j) {
            assert(j == a as int);
        }
    } else {
        assert(t.arena@[p as int] == t.node(p as int));
        assert(p != INVALID);
        assert(t.anc(a as int, j) == (a as int == j || t.anc(p as int, j)));
        if j == a as int {
            t.lemma_anc_depth(a as int, j);
            if t.anc(p as int, j) {
                t.lemma_anc_depth(p as int, j);
            }
        }
    }
}

/// Recounting the live inner node `a` from its children, where it counted `d`
/// too many: `a` becomes exact and its parent now counts `d` too many.
pub proof fn lemma_recount_step(t: BinaryTrie, u: BinaryTrie, a: int, d: int)
    requires
        t.wf(),
        counts_off(t, a, d),
        live(t, a),
        !t.node(a).is_leaf,
        same_shape(t.arena@, u.arena@),
        u.root == t.root,
        forall|j: int| 0 <= j < t.arena@.len() && j != a ==> #[trigger] u.arena@[j].leaf_count == t.arena@[j].leaf_count,
        u.arena@[a].leaf_count as int == count_of_children(t, a),
    ensures
        counts_off(u, t.node(a).parent as int, d),
        u.node(a).leaf_count as int == t.node(a).leaf_count - d,
        forall|j: int| 0 <= j < t.arena@.len() && j != a ==> #[trigger] u.node(j).leaf_count == t.node(j).leaf_count,
{
    t.lemma_reach_anc(t.root as int, a);
    assert(t.arena@[a] == t.node(a));
    assert(u.arena@[a].children == t.arena@[a].children);
    assert(u.arena@[a].is_leaf == t.arena@[a].is_leaf);
    let p = t.node(a).parent as int;
    if a != t.root {
        lemma_reach_linked(t, t.root as int, a);
        t.lemma_reach_parent(t.root as int, a);
        assert(t.arena@[p] == t.node(p));
        assert(u.arena@[p].is_leaf == t.arena@[p].is_leaf);
    }
    assert forall|j: int| #[trigger] live(u, j) implies u.node(j).leaf_count as int
        == count_of_children(u, j) + (if j == p { d } else { 0 }) by {
        BinaryTrie::lemma_shape_reach(t, u, u.root as int, j);
        t.lemma_reach_anc(t.root as int, j);
        assert(t.arena@[j] == t.node(j));
        assert(u.arena@[j].children == t.arena@[j].children);
        assert(u.arena@[j].is_leaf == t.arena@[j].is_leaf);
        let c0 = t.node(j).children[0];
        let c1 = t.node(j).children[1];
        assert(live(t, j));
        assert(t.node(j).leaf_count as int == count_of_children(t, j) + (if j == a { d } else { 0 }));
        assert(t.node(a).leaf_count as int == count_of_children(t, a) + d);
        if j != a {
            assert(u.arena@[j].leaf_count == t.arena@[j].leaf_count);
        }
        if c0 != INVALID {
            assert(t.arena@[c0 as int] == t.node(c0 as int));
            if c0 as int != a {
                assert(u.arena@[c0 as int].leaf_count == t.arena@[c0 as int].leaf_count);
            }
        }
        if c1 != INVALID {
            assert(t.arena@[c1 as int] == t.node(c1 as int));
            if c1 as int != a {
                assert(u.arena@[c1 as int].leaf_count == t.arena@[c1 as int].leaf_count);
            }
        }
        if j == a {
            assert(c0 as int != a && c1 as int != a);
        } else if j == p {
            assert(c0 as int == a || c1 as int == a);
        } else {
            assert(c0 as int != a && c1 as int != a);
        }
    }
}

/// The ancestors of a live node are live.
pub proof fn lemma_live_up(t: BinaryTrie, i: int, a: int)
    requires
        t.wf(),
        live(t, i),
        t.anc(i, a),
    ensures
        live(t, a),
    decreases t.node(i).depth,
{
    if i != a {
        t.lemma_reach_anc(t.root as int, i);
        assert(t.arena@[i] == t.node(i));
        if i == t.root {
            assert(false);
        }
        t.lemma_reach_parent(t.root as int, i);
        lemma_live_up(t, t.node(i).parent as int, a);
    }
}

/// After collapsing the live node `i` (counting `d + 1` leaves) into a leaf,
/// counts are exact but at its parent, which counts `d` too many.
pub proof fn lemma_collapse_counts(a: BinaryTrie, b: BinaryTrie, i: int, d: int)
    requires
        a.wf(),
        b.wf(),
        collapse_shape(a, b, i),
        live_counts_exact(a),
        live(a, i),
        !a.node(i).is_leaf,
        d == a.node(i).leaf_count - 1,
        b.arena@[i].leaf_count == 1,
        forall|j: int| 0 <= j < a.arena@.len() && j != i ==> #[trigger] b.arena@[j].leaf_count == a.arena@[j].leaf_count,
    ensures
        live(b, i),
        counts_off(b, a.node(i).parent as int, d),
        b.node(b.root as int).leaf_count as int == if i == a.root { 1 } else { a.node(a.root as int).leaf_count as int },
        forall|j: int| live(b, j) <==> live(a, j) && !(a.anc(j, i) && j != i),
{
    assert(!(a.anc(a.root as int, i) && a.root != i));
    assert forall|j: int| live(b, j) <==> live(a, j) && !(a.anc(j, i) && j != i) by {
        lemma_collapse_reach(a, b, i, a.root as int, j);
    }
    assert(a.anc(i, i));
    let p = a.node(i).parent as int;
    a.lemma_reach_anc(a.root as int, i);
    assert(a.arena@[i] == a.node(i));
    if i != a.root {
        lemma_reach_linked(a, a.root as int, i);
        a.lemma_reach_parent(a.root as int, i);
        assert(a.arena@[p] == a.node(p));
    }
    assert forall|j: int| #[trigger] live(b, j) implies b.node(j).leaf_count as int
        == count_of_children(b, j) + (if j == p { d } else { 0 }) by {
        assert(live(a, j));
        a.lemma_reach_anc(a.root as int, j);
        assert(a.arena@[j] == a.node(j));
        assert(a.node(j).leaf_count as int == count_of_children(a, j));
        let c0 = a.node(j).children[0];
        let c1 = a.node(j).children[1];
        if j == i {
        } else {
            assert(b.arena@[j].children == a.arena@[j].children);
            assert(b.arena@[j].is_leaf == a.arena@[j].is_leaf);
            assert(b.arena@[j].leaf_count == a.arena@[j].leaf_count);
            if c0 != INVALID {
                assert(a.arena@[c0 as int] == a.node(c0 as int));
                if c0 as int != i {
                    assert(b.arena@[c0 as int].leaf_count == a.arena@[c0 as int].leaf_count);
                }
            }
            if c1 != INVALID {
                assert(a.arena@[c1 as int] == a.node(c1 as int));
                if c1 as int != i {
                    assert(b.arena@[c1 as int].leaf_count == a.arena@[c1 as int].leaf_count);
                }
            }
            if j == p {
                assert(c0 as int == i || c1 as int == i);
            } else {
                assert(c0 as int != i && c1 as int != i);
            }
        }
    }
    if i != a.root {
        assert(a.root != i);
        assert(b.arena@[a.root as int].leaf_count == a.arena@[a.root as int].leaf_count);
    }
}

} // verus!
