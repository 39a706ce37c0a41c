//! A binary min-heap of merge candidates, ordered by efficiency key, then
//! node index, then generation.
use vstd::prelude::*;
use vstd::multiset::Multiset;
use crate::efficiency::{EfficiencyKey, ratio_lt, ratio_less};

verus! {

broadcast use {
    vstd::seq_lib::to_multiset_update,
    vstd::seq_lib::to_multiset_build,
    vstd::seq_lib::to_multiset_remove,
    vstd::seq_lib::to_multiset_len,
    vstd::multiset::group_multiset_axioms,
    vstd::multiset::group_multiset_properties,
};

/// A merge candidate: efficiency key, node index, and the node's generation
/// when the candidate was recorded.
pub type HeapEntry = (EfficiencyKey, u32, u32);

/// `x` comes before `y`: lower ratio, then lower node index, then lower generation.
pub open spec fn entry_lt(x: HeapEntry, y: HeapEntry) -> bool {
    ||| ratio_lt(x.0, y.0)
    ||| (!ratio_lt(y.0, x.0) && (x.1 < y.1 || (x.1 == y.1 && x.2 < y.2)))
}

/// Whether `x` comes before `y`.
pub fn entry_less(x: &HeapEntry, y: &HeapEntry) -> (r: bool)
    ensures
        r == entry_lt(*x, *y),
{
    if ratio_less(&x.0, &y.0) {
        true
    } else if ratio_less(&y.0, &x.0) {
        false
    } else {
        x.1 < y.1 || (x.1 == y.1 && x.2 < y.2)
    }
}

/// `x` may come before `y`: `y` does not come before `x`.
pub open spec fn entry_le(x: HeapEntry, y: HeapEntry) -> bool {
    !entry_lt(y, x)
}

/// A candidate saves at least one entry.
pub open spec fn valid_entry(e: HeapEntry) -> bool {
    e.0.savings >= 1
}

proof fn lemma_ratio_le_trans(a: EfficiencyKey, b: EfficiencyKey, c: EfficiencyKey)
    requires
        a.savings >= 1,
        b.savings >= 1,
        c.savings >= 1,
        !ratio_lt(b, a),
        !ratio_lt(c, b),
    ensures
        !ratio_lt(c, a),
{
    let (ac, asv, bc, bsv, cc, csv) = (a.cost as int, a.savings as int, b.cost as int, b.savings as int, c.cost as int, c.savings as int);
    assert(ac * csv <= cc * asv) by (nonlinear_arith)
        requires
            ac * bsv <= bc * asv,
            bc * csv <= cc * bsv,
            asv >= 1,
            bsv >= 1,
            csv >= 1,
            ac >= 0,
            bc >= 0,
            cc >= 0,
    {
        assert(ac * bsv * csv <= bc * asv * csv);
        assert(bc * csv * asv <= cc * bsv * asv);
        assert(ac * csv * bsv <= cc * asv * bsv);
    }
}

proof fn lemma_ratio_lt_le(a: EfficiencyKey, b: EfficiencyKey, c: EfficiencyKey)
    requires
        a.savings >= 1,
        b.savings >= 1,
        c.savings >= 1,
        ratio_lt(a, b) && !ratio_lt(c, b) || !ratio_lt(b, a) && ratio_lt(b, c),
    ensures
        ratio_lt(a, c),
{
    let (ac, asv, bc, bsv, cc, csv) = (a.cost as int, a.savings as int, b.cost as int, b.savings as int, c.cost as int, c.savings as int);
    if ratio_lt(a, b) && !ratio_lt(c, b) {
        assert(ac * csv < cc * asv) by (nonlinear_arith)
            requires
                ac * bsv < bc * asv,
                bc * csv <= cc * bsv,
                asv >= 1,
                bsv >= 1,
                csv >= 1,
                ac >= 0,
                bc >= 0,
                cc >= 0,
        {
            assert(ac * bsv * csv < bc * asv * csv);
            assert(bc * csv * asv <= cc * bsv * asv);
            assert(ac * csv * bsv < cc * asv * bsv);
        }
    } else {
        assert(ac * csv < cc * asv) by (nonlinear_arith)
            requires
                ac * bsv <= bc * asv,
                bc * csv < cc * bsv,
                asv >= 1,
                bsv >= 1,
                csv >= 1,
                ac >= 0,
                bc >= 0,
                cc >= 0,
        {
            assert(ac * bsv * csv <= bc * asv * csv);
            assert(bc * csv * asv < cc * bsv * asv);
            assert(ac * csv * bsv < cc * asv * bsv);
        }
    }
}

/// The order of candidates is transitive.
pub proof fn lemma_entry_le_trans(x: HeapEntry, y: HeapEntry, z: HeapEntry)
    requires
        valid_entry(x),
        valid_entry(y),
        valid_entry(z),
        entry_le(x, y),
        entry_le(y, z),
    ensures
        entry_le(x, z),
{
    lemma_ratio_le_trans(x.0, y.0, z.0);
    if !ratio_lt(x.0, z.0) {
        if ratio_lt(x.0, y.0) {
            lemma_ratio_lt_le(x.0, y.0, z.0);
        }
        if ratio_lt(y.0, z.0) {
            lemma_ratio_lt_le(x.0, y.0, z.0);
        }
    }
}

/// Coming first implies may come first.
pub proof fn lemma_entry_lt_le(x: HeapEntry, y: HeapEntry)
    requires
        entry_lt(x, y),
    ensures
        entry_le(x, y),
{
}

/// The parent position of `k` in the heap array.
pub open spec fn parent(k: int) -> int {
    (k - 1) / 2
}

/// Every entry is valid, and no entry comes before its parent.
pub open spec fn heap_ok(s: Seq<HeapEntry>) -> bool {
    &&& forall|i: int| 0 <= i < s.len() ==> valid_entry(#[trigger] s[i])
    &&& forall|k: int| 0 < k < s.len() ==> entry_le(s[parent(k)], #[trigger] s[k])
}

proof fn lemma_root_first(s: Seq<HeapEntry>, k: int)
    requires
        heap_ok(s),
        0 <= k < s.len(),
    ensures
        entry_le(s[0], s[k]),
    decreases k,
{
    if k > 0 {
        let p = parent(k);
        lemma_root_first(s, p);
        assert(entry_le(s[p], s[k]));
        assert(valid_entry(s[0]) && valid_entry(s[p]) && valid_entry(s[k]));
        lemma_entry_le_trans(s[0], s[p], s[k]);
    } else {
        assert(valid_entry(s[0]));
    }
}

/// While sifting up from `k`: heap order holds everywhere but between `k`
/// and its parent, and `k`'s parent may come before `k`'s children.
spec fn sift_up_inv(s: Seq<HeapEntry>, k: int) -> bool {
    &&& 0 <= k < s.len()
    &&& forall|i: int| 0 <= i < s.len() ==> valid_entry(#[trigger] s[i])
    &&& forall|i: int| 0 < i < s.len() && i != k ==> entry_le(s[parent(i)], #[trigger] s[i])
    &&& k > 0 ==> forall|c: int| 0 < c < s.len() && parent(c) == k ==> entry_le(s[parent(k)], #[trigger] s[c])
}

/// While sifting down from `k`: heap order holds everywhere but between `k`
/// and its children, and `k`'s parent may come before `k`'s children.
spec fn sift_down_inv(s: Seq<HeapEntry>, k: int) -> bool {
    &&& 0 <= k
    &&& (s.len() == 0 || k < s.len())
    &&& forall|i: int| 0 <= i < s.len() ==> valid_entry(#[trigger] s[i])
    &&& forall|i: int| 0 < i < s.len() && parent(i) != k ==> entry_le(s[parent(i)], #[trigger] s[i])
    &&& k > 0 ==> forall|c: int| 0 < c < s.len() && parent(c) == k ==> entry_le(s[parent(k)], #[trigger] s[c])
}

/// The binary min-heap.
pub struct CandidateHeap {
    data: Vec<HeapEntry>,
}

impl CandidateHeap {
    /// The candidates held, as a multiset.
    pub closed spec fn items(self) -> Multiset<HeapEntry> {
        self.data@.to_multiset()
    }

    /// The heap order holds, and every candidate saves at least one entry.
    pub closed spec fn wf(self) -> bool {
        heap_ok(self.data@)
    }

    /// An empty heap.
    pub fn new() -> (r: Self)
        ensures
            r.items().len() == 0,
            r.wf(),
    {
        CandidateHeap { data: Vec::new() }
    }

    /// The number of candidates held.
    pub fn len(&self) -> (r: usize)
        ensures
            r == self.items().len(),
    {
        self.data.len()
    }

    fn swap(v: &mut Vec<HeapEntry>, i: usize, j: usize)
        requires
            i < old(v)@.len(),
            j < old(v)@.len(),
        ensures
            final(v)@ == old(v)@.update(i as int, old(v)@[j as int]).update(j as int, old(v)@[i as int]),
            final(v)@.to_multiset() == old(v)@.to_multiset(),
    {
        let a = v[i];
        let b = v[j];
        let ghost s0 = v@;
        v.set(i, b);
        let ghost s1 = v@;
        v.set(j, a);
        proof {
            assert(s1[j as int] == b);
            assert(s1.to_multiset() == s0.to_multiset().insert(b).remove(a));
            assert(v@.to_multiset() == s1.to_multiset().insert(a).remove(b));
            assert(s0.to_multiset().count(a) > 0) by {
                assert(s0.contains(a)) by {
                    assert(s0[i as int] == a);
                }
                vstd::seq_lib::to_multiset_contains(s0, a);
            }
            assert forall|x: HeapEntry| #[trigger] v@.to_multiset().count(x) == s0.to_multiset().count(x) by {}
            assert(v@.to_multiset() =~= s0.to_multiset());
        }
    }

    /// Adds a candidate.
    pub fn push(&mut self, e: HeapEntry)
        requires
            old(self).wf(),
            valid_entry(e),
        ensures
            final(self).items() == old(self).items().insert(e),
            final(self).wf(),
    {
        let ghost s0 = self.data@;
        self.data.push(e);
        let mut k: usize = self.data.len() - 1;
        proof {
            assert(self.data@[k as int] == e);
            assert forall|i: int| 0 < i < self.data@.len() && i != k implies
                entry_le(self.data@[parent(i)], #[trigger] self.data@[i]) by {
                assert(self.data@[i] == s0[i]);
                assert(self.data@[parent(i)] == s0[parent(i)]);
            }
            assert forall|i: int| 0 <= i < self.data@.len() implies valid_entry(#[trigger] self.data@[i]) by {
                if i < k {
                    assert(self.data@[i] == s0[i]);
                }
            }
        }
        while k > 0
            invariant
                sift_up_inv(self.data@, k as int),
                self.data@.to_multiset() == s0.to_multiset().insert(e),
            ensures
                heap_ok(self.data@),
                self.data@.to_multiset() == s0.to_multiset().insert(e),
            decreases k,
        {
            let p: usize = (k - 1) / 2;
            if !entry_less(&self.data[k], &self.data[p]) {
                proof {
                    assert forall|i: int| 0 < i < self.data@.len() implies entry_le(self.data@[parent(i)], #[trigger] self.data@[i]) by {
                        if i == k {
                            assert(parent(i) == p);
                        }
                    }
                }
                break;
            }
            let ghost s = self.data@;
            Self::swap(&mut self.data, k, p);
            proof {
                let t = self.data@;
                let ki = k as int;
                let pi = p as int;
                assert(t[pi] == s[ki]);
                assert(t[ki] == s[pi]);
                assert(valid_entry(s[ki]) && valid_entry(s[pi]));
                lemma_entry_lt_le(s[ki], s[pi]);
                assert forall|i: int| 0 <= i < t.len() implies valid_entry(#[trigger] t[i]) by {
                    if i != ki && i != pi {
                        assert(t[i] == s[i]);
                    }
                }
                assert forall|i: int| 0 < i < t.len() && i != pi implies entry_le(t[parent(i)], #[trigger] t[i]) by {
                    let q = parent(i);
                    if i == ki {
                    } else if q == ki {
                        assert(t[i] == s[i]);
                    } else if q == pi {
                        assert(t[i] == s[i]);
                        assert(entry_le(s[pi], s[i]));
                        assert(valid_entry(s[i]));
                        lemma_entry_le_trans(s[ki], s[pi], s[i]);
                    } else {
                        assert(t[i] == s[i]);
                        assert(t[q] == s[q]);
                    }
                }
                if pi > 0 {
                    let g = parent(pi);
                    assert(g != ki && g != pi);
                    assert(t[g] == s[g]);
                    assert(entry_le(s[g], s[pi]));
                    assert forall|c: int| 0 < c < t.len() && parent(c) == pi implies entry_le(t[parent(pi)], #[trigger] t[c]) by {
                        if c == ki {
                        } else {
                            assert(t[c] == s[c]);
                            assert(entry_le(s[pi], s[c]));
                            assert(valid_entry(s[g]) && valid_entry(s[c]));
                            lemma_entry_le_trans(s[g], s[pi], s[c]);
                        }
                    }
                }
            }
            k = p;
        }
    }

    /// Removes and returns the first candidate in the order (one that no
    /// other candidate comes before), or `None` when empty.
    pub fn pop(&mut self) -> (r: Option<HeapEntry>)
        requires
            old(self).wf(),
        ensures
            final(self).wf(),
            old(self).items().len() == 0 ==> r is None && final(self).items() == old(self).items(),
            old(self).items().len() > 0 ==> (r matches Some(e) && old(self).items().count(e) > 0
                && final(self).items() == old(self).items().remove(e)
                && forall|x: HeapEntry| #[trigger] old(self).items().count(x) > 0 ==> entry_le(e, x)),
    {
        let n = self.data.len();
        if n == 0 {
            return None;
        }
        let ghost s0 = self.data@;
        proof {
            assert forall|x: HeapEntry| #[trigger] s0.to_multiset().count(x) > 0 implies entry_le(s0[0], x) by {
                vstd::seq_lib::to_multiset_contains(s0, x);
                assert(s0.contains(x));
                let i = choose|i: int| 0 <= i < s0.len() && s0[i] == x;
                lemma_root_first(s0, i);
            }
        }
        Self::swap(&mut self.data, 0, n - 1);
        let ghost s1 = self.data@;
        let top = self.data.pop().unwrap();
        proof {
            assert(s1 == self.data@.push(top));
            assert(s1.to_multiset() == self.data@.to_multiset().insert(top));
            assert(self.data@.to_multiset() =~= s1.to_multiset().remove(top));
            assert(top == s0[0]);
            let t = self.data@;
            assert forall|i: int| 0 <= i < t.len() implies valid_entry(#[trigger] t[i]) by {
                if i == 0 {
                    assert(t[0] == s0[n - 1]);
                } else {
                    assert(t[i] == s0[i]);
                }
            }
            assert forall|i: int| 0 < i < t.len() && parent(i) != 0 implies entry_le(t[parent(i)], #[trigger] t[i]) by {
                assert(t[i] == s0[i]);
                assert(t[parent(i)] == s0[parent(i)]);
            }
        }
        let len = self.data.len();
        let ghost m = self.data@.to_multiset();
        let mut k: usize = 0;
        while k < len
            invariant
                len == self.data@.len(),
                self.data@.to_multiset() == m,
                sift_down_inv(self.data@, k as int),
            ensures
                heap_ok(self.data@),
                self.data@.to_multiset() == m,
            decreases len - k,
        {
            if k >= len / 2 {
                proof {
                    assert forall|i: int| 0 < i < self.data@.len() implies entry_le(self.data@[parent(i)], #[trigger] self.data@[i]) by {
                        if parent(i) == k {
                            assert(false);
                        }
                    }
                }
                break;
            }
            let l: usize = 2 * k + 1;
            let r: usize = l + 1;
            let mut c: usize = l;
            if r < len && entry_less(&self.data[r], &self.data[l]) {
                c = r;
            }
            let ghost s = self.data@;
            proof {
                assert(parent(l as int) == k);
                if r < len {
                    assert(parent(r as int) == k);
                }
                let other: int = if c == l { r as int } else { l as int };
                if other < len {
                    if c == r {
                        lemma_entry_lt_le(s[r as int], s[l as int]);
                    }
                    assert(entry_le(s[c as int], s[other]));
                }
            }
            if !entry_less(&self.data[c], &self.data[k]) {
                proof {
                    let other: int = if c == l { r as int } else { l as int };
                    assert(entry_le(s[k as int], s[c as int]));
                    if other < len {
                        assert(valid_entry(s[k as int]) && valid_entry(s[c as int]) && valid_entry(s[other]));
                        lemma_entry_le_trans(s[k as int], s[c as int], s[other]);
                    }
                    assert forall|i: int| 0 < i < s.len() implies entry_le(s[parent(i)], #[trigger] s[i]) by {
                        if parent(i) == k {
                            assert(i == l || i == r);
                        }
                    }
                }
                break;
            }
            Self::swap(&mut self.data, k, c);
            proof {
                let t = self.data@;
                let ki = k as int;
                let ci = c as int;
                let other: int = if c == l { r as int } else { l as int };
                assert(t[ki] == s[ci]);
                assert(t[ci] == s[ki]);
                assert(valid_entry(s[ki]) && valid_entry(s[ci]));
                lemma_entry_lt_le(s[ci], s[ki]);
                assert forall|i: int| 0 <= i < t.len() implies valid_entry(#[trigger] t[i]) by {
                    if i != ki && i != ci {
                        assert(t[i] == s[i]);
                    }
                }
                assert forall|i: int| 0 < i < t.len() && parent(i) != ci implies entry_le(t[parent(i)], #[trigger] t[i]) by {
                    let q = parent(i);
                    if i == ci {
                    } else if i == other {
                        assert(t[i] == s[i]);
                    } else if i == ki {
                        assert(t[q] == s[q]);
                        assert(entry_le(s[q], s[ci]));
                    } else {
                        assert(q != ki) by {
                            if q == ki {
                                assert(i == l || i == r);
                            }
                        }
                        assert(t[i] == s[i]);
                        assert(t[q] == s[q]);
                    }
                }
                assert forall|d: int| 0 < d < t.len() && parent(d) == ci implies entry_le(t[parent(ci)], #[trigger] t[d]) by {
                    assert(d != ki && d != ci);
                    assert(t[d] == s[d]);
                    assert(parent(ci) == ki);
                    assert(entry_le(s[ci], s[d]));
                }
            }
            k = c;
        }
        proof {
            assert(s0.to_multiset().count(top) > 0) by {
                assert(s0[0] == top);
                assert(s0.contains(top));
                vstd::seq_lib::to_multiset_contains(s0, top);
            }
        }
        Some(top)
    }

    /// Takes out all candidates, in storage order.
    pub fn into_vec(self) -> (r: Vec<HeapEntry>)
        requires
            self.wf(),
        ensures
            r@.to_multiset() == self.items(),
            forall|i: int| 0 <= i < r@.len() ==> valid_entry(#[trigger] r@[i]),
    {
        self.data
    }
}

} // verus!
