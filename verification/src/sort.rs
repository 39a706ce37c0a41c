//! Stable ordering of records by integer keys.
//!
//! Records are ordered through keys `(primary, secondary, position)`: the two
//! integers that the caller orders by and the record's position in the input.
//! Sorting the keys and then moving the records into key order gives a stable
//! sort (records with equal integers keep their input order).
use vstd::prelude::*;
use vstd::multiset::Multiset;

verus! {

broadcast use vstd::seq_lib::group_to_multiset_ensures;

/// Mapping every element keeps two sequences with equal multisets equal.
pub proof fn lemma_map_multiset<A, B>(s1: Seq<A>, s2: Seq<A>, f: spec_fn(A) -> B)
    requires
        s1.to_multiset() == s2.to_multiset(),
    ensures
        s1.map_values(f).to_multiset() == s2.map_values(f).to_multiset(),
    decreases s1.len(),
{
    vstd::seq_lib::to_multiset_len(s1);
    vstd::seq_lib::to_multiset_len(s2);
    if s1.len() == 0 {
        assert(s2.len() == 0);
        assert(s1.map_values(f) =~= s2.map_values(f));
    } else {
        let a = s1.last();
        let t1 = s1.drop_last();
        assert(s1 =~= t1.push(a));
        vstd::seq_lib::to_multiset_build(t1, a);
        assert(s2.to_multiset().count(a) > 0);
        vstd::seq_lib::to_multiset_contains(s2, a);
        assert(s2.contains(a)) by {
            vstd::seq_lib::to_multiset_contains(s2, a);
        }
        let i = choose|i: int| 0 <= i < s2.len() && s2[i] == a;
        let t2 = s2.remove(i);
        vstd::seq_lib::to_multiset_remove(s2, i);
        assert(t1.to_multiset() =~= t2.to_multiset()) by {
            assert(t1.to_multiset() == s1.to_multiset().remove(a));
            assert(t2.to_multiset() == s2.to_multiset().remove(a));
        }
        lemma_map_multiset(t1, t2, f);
        assert(s1.map_values(f) =~= t1.map_values(f).push(f(a)));
        vstd::seq_lib::to_multiset_build(t1.map_values(f), f(a));
        assert(s2 =~= t2.insert(i, a));
        assert(s2.map_values(f) =~= t2.map_values(f).insert(i, f(a)));
        vstd::seq_lib::to_multiset_insert(t2.map_values(f), i, f(a));
    }
}

/// A value at two positions of a sequence counts at least twice in its multiset.
pub proof fn lemma_count_two<A>(s: Seq<A>, i: int, j: int)
    requires
        0 <= i < s.len(),
        0 <= j < s.len(),
        i != j,
        s[i] == s[j],
    ensures
        s.to_multiset().count(s[i]) >= 2,
{
    let a = s[i];
    let t = s.remove(i);
    vstd::seq_lib::to_multiset_remove(s, i);
    let jj = if j < i { j } else { j - 1 };
    assert(t[jj] == a);
    vstd::seq_lib::to_multiset_contains(t, a);
    assert(t.contains(a));
}

/// A value counting at least twice sits at two positions.
pub proof fn lemma_two_positions<A>(s: Seq<A>, a: A)
    requires
        s.to_multiset().count(a) >= 2,
    ensures
        exists|i: int, j: int| 0 <= i < s.len() && 0 <= j < s.len() && i != j && s[i] == a && s[j] == a,
{
    vstd::seq_lib::to_multiset_contains(s, a);
    let i = choose|i: int| 0 <= i < s.len() && s[i] == a;
    let t = s.remove(i);
    vstd::seq_lib::to_multiset_remove(s, i);
    vstd::seq_lib::to_multiset_contains(t, a);
    let jj = choose|jj: int| 0 <= jj < t.len() && t[jj] == a;
    let j = if jj < i { jj } else { jj + 1 };
    assert(s[j] == a);
}

/// A sort key: two integers to order by, and the record's input position.
pub type SortKey = (u128, u128, usize);

/// Lexicographic order of keys.
pub open spec fn key_le(a: SortKey, b: SortKey) -> bool {
    a.0 < b.0 || (a.0 == b.0 && (a.1 < b.1 || (a.1 == b.1 && a.2 <= b.2)))
}

pub open spec fn keys_sorted(s: Seq<SortKey>) -> bool {
    forall|i: int, j: int| 0 <= i < j < s.len() ==> key_le(#[trigger] s[i], #[trigger] s[j])
}

fn key_le_exec(a: SortKey, b: SortKey) -> (r: bool)
    ensures
        r == key_le(a, b),
{
    a.0 < b.0 || (a.0 == b.0 && (a.1 < b.1 || (a.1 == b.1 && a.2 <= b.2)))
}

proof fn lemma_take_push<A>(s: Seq<A>, i: int)
    requires
        0 <= i < s.len(),
    ensures
        s.take(i + 1) == s.take(i).push(s[i]),
{
    assert(s.take(i + 1) =~= s.take(i).push(s[i]));
}

/// Merge two sorted key sequences.
fn merge(a: &Vec<SortKey>, b: &Vec<SortKey>) -> (r: Vec<SortKey>)
    requires
        keys_sorted(a@),
        keys_sorted(b@),
    ensures
        keys_sorted(r@),
        r@.to_multiset() == a@.to_multiset().add(b@.to_multiset()),
        r@.len() == a@.len() + b@.len(),
{
    let mut r: Vec<SortKey> = Vec::new();
    let mut i: usize = 0;
    let mut j: usize = 0;
    proof {
        assert(a@.take(0) =~= Seq::<SortKey>::empty());
        assert(b@.take(0) =~= Seq::<SortKey>::empty());
        assert(r@ =~= Seq::<SortKey>::empty());
    }
    while i < a.len() || j < b.len()
        invariant
            keys_sorted(a@),
            keys_sorted(b@),
            i <= a.len(),
            j <= b.len(),
            r@.len() == i + j,
            keys_sorted(r@),
            r@.to_multiset() == a@.take(i as int).to_multiset().add(b@.take(j as int).to_multiset()),
            r@.len() > 0 && i < a.len() ==> key_le(r@.last(), a@[i as int]),
            r@.len() > 0 && j < b.len() ==> key_le(r@.last(), b@[j as int]),
        decreases a.len() + b.len() - i - j,
    {
        let take_a = if i < a.len() && j < b.len() {
            key_le_exec(a[i], b[j])
        } else {
            i < a.len()
        };
        if take_a {
            let x = a[i];
            proof {
                lemma_take_push(a@, i as int);
            }
            r.push(x);
            i = i + 1;
        } else {
            let x = b[j];
            proof {
                lemma_take_push(b@, j as int);
            }
            r.push(x);
            j = j + 1;
        }
    }
    proof {
        assert(a@.take(a@.len() as int) =~= a@);
        assert(b@.take(b@.len() as int) =~= b@);
    }
    r
}

/// Sort `v[lo..hi]`.
fn sort_range(v: &Vec<SortKey>, lo: usize, hi: usize) -> (r: Vec<SortKey>)
    requires
        lo <= hi <= v.len(),
    ensures
        keys_sorted(r@),
        r@.to_multiset() == v@.subrange(lo as int, hi as int).to_multiset(),
        r@.len() == hi - lo,
    decreases hi - lo,
{
    if hi - lo <= 1 {
        let mut r: Vec<SortKey> = Vec::new();
        if hi - lo == 1 {
            r.push(v[lo]);
            proof {
                assert(r@ =~= v@.subrange(lo as int, hi as int));
            }
        } else {
            proof {
                assert(r@ =~= v@.subrange(lo as int, hi as int));
            }
        }
        return r;
    }
    let mid = lo + (hi - lo) / 2;
    let a = sort_range(v, lo, mid);
    let b = sort_range(v, mid, hi);
    let r = merge(&a, &b);
    proof {
        assert(v@.subrange(lo as int, hi as int) =~= v@.subrange(lo as int, mid as int) + v@.subrange(mid as int, hi as int));
        vstd::seq_lib::lemma_multiset_commutative(v@.subrange(lo as int, mid as int), v@.subrange(mid as int, hi as int));
    }
    r
}

/// Sort keys in lexicographic order.
pub fn sort_keys(v: &Vec<SortKey>) -> (r: Vec<SortKey>)
    ensures
        keys_sorted(r@),
        r@.to_multiset() == v@.to_multiset(),
        r@.len() == v@.len(),
{
    let r = sort_range(v, 0, v.len());
    proof {
        assert(v@.subrange(0, v@.len() as int) =~= v@);
    }
    r
}

/// The keys are numbered by position: key `i` carries position `i`.
pub open spec fn numbered(keys: Seq<SortKey>) -> bool {
    forall|i: int| 0 <= i < keys.len() ==> (#[trigger] keys[i]).2 == i
}

/// `order` lists positions `0..n` exactly once each.
pub open spec fn is_order(order: Seq<SortKey>, n: int) -> bool {
    &&& order.len() == n
    &&& forall|j: int| 0 <= j < n ==> (#[trigger] order[j]).2 < n
    &&& forall|j: int, k: int| 0 <= j < n && 0 <= k < n && j != k ==> (#[trigger] order[j]).2 != (#[trigger] order[k]).2
}

/// Position `i` occurs in `order`.
pub open spec fn listed(order: Seq<SortKey>, i: int) -> bool {
    exists|j: int| 0 <= j < order.len() && order[j].2 == i
}

/// The sorted numbered keys give an order of the positions.
pub proof fn lemma_sorted_numbered_is_order(keys: Seq<SortKey>, sorted: Seq<SortKey>)
    requires
        numbered(keys),
        sorted.to_multiset() == keys.to_multiset(),
        sorted.len() == keys.len(),
    ensures
        is_order(sorted, keys.len() as int),
        forall|i: int| 0 <= i < keys.len() ==> #[trigger] listed(sorted, i),
        forall|j: int| 0 <= j < sorted.len() ==> #[trigger] sorted[j] == keys[sorted[j].2 as int],
{
    assert(keys.no_duplicates()) by {
        assert forall|a: int, b: int| 0 <= a < keys.len() && 0 <= b < keys.len() && a != b implies keys[a] != keys[b] by {
            assert(keys[a].2 == a);
            assert(keys[b].2 == b);
        }
    }
    keys.lemma_multiset_has_no_duplicates();
    sorted.lemma_multiset_has_no_duplicates_conv();
    assert forall|j: int| 0 <= j < sorted.len() implies #[trigger] sorted[j] == keys[sorted[j].2 as int] && sorted[j].2 < keys.len() by {
        assert(sorted.contains(sorted[j]));
        assert(sorted.to_multiset().count(sorted[j]) > 0);
        assert(keys.to_multiset().count(sorted[j]) > 0);
        assert(keys.contains(sorted[j]));
        let i = choose|i: int| 0 <= i < keys.len() && keys[i] == sorted[j];
        assert(keys[i].2 == i);
    }
    assert forall|i: int| 0 <= i < keys.len() implies #[trigger] listed(sorted, i) by {
        assert(keys.contains(keys[i]));
        assert(keys.to_multiset().count(keys[i]) > 0);
        assert(sorted.to_multiset().count(keys[i]) > 0);
        assert(sorted.contains(keys[i]));
        let j = choose|j: int| 0 <= j < sorted.len() && sorted[j] == keys[i];
        assert(sorted[j].2 == i);
    }
}

/// Move the records into the given order: record `order[j].2` goes to place `j`.
pub fn apply_order<T>(items: Vec<T>, order: &Vec<SortKey>) -> (r: Vec<T>)
    requires
        is_order(order@, items@.len() as int),
    ensures
        r@.len() == items@.len(),
        forall|j: int| 0 <= j < r@.len() ==> #[trigger] r@[j] == items@[order@[j].2 as int],
{
    let n = items.len();
    let ghost orig = items@;
    let mut items = items;
    // Move the records into optional slots, last record first.
    let mut rev: Vec<Option<T>> = Vec::new();
    while items.len() > 0
        invariant
            items@.len() + rev@.len() == n,
            orig.len() == n,
            forall|k: int| 0 <= k < items@.len() ==> items@[k] == orig[k],
            forall|k: int| 0 <= k < rev@.len() ==> #[trigger] rev@[k] == Some(orig[n - 1 - k]),
        decreases items.len(),
    {
        let x = items.pop().unwrap();
        rev.push(Some(x));
    }
    let mut r: Vec<T> = Vec::new();
    let mut j: usize = 0;
    while j < n
        invariant
            is_order(order@, n as int),
            orig.len() == n,
            rev@.len() == n,
            j <= n,
            r@.len() == j,
            forall|k: int| 0 <= k < j ==> #[trigger] r@[k] == orig[order@[k].2 as int],
            forall|k: int| 0 <= k < n ==> (#[trigger] rev@[k] == Some(orig[n - 1 - k])
                || (rev@[k] is None && exists|m: int| 0 <= m < j && order@[m].2 == n - 1 - k)),
        decreases n - j,
    {
        let pos = order[j].2;
        let slot = n - 1 - pos;
        proof {
            if rev@[slot as int] is None {
                let m = choose|m: int| 0 <= m < j && order@[m].2 == n - 1 - slot;
                assert(order@[m].2 == order@[j as int].2);
            }
        }
        let x = rev[slot].take();
        proof {
            assert(x == Some(orig[pos as int]));
        }
        r.push(x.unwrap());
        proof {
            assert forall|k: int| 0 <= k < n implies (#[trigger] rev@[k] == Some(orig[n - 1 - k])
                || (rev@[k] is None && exists|m: int| 0 <= m < j + 1 && order@[m].2 == n - 1 - k)) by {
                if k == slot {
                    assert(order@[j as int].2 == n - 1 - k);
                }
            }
        }
        j = j + 1;
    }
    r
}

} // verus!
