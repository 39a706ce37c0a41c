//! Sorted, non-overlapping address intervals with binary-search queries.
use vstd::prelude::*;
use vstd::arithmetic::power2::pow2;
use crate::prefix::{Prefix, valid_width, network, last_address, lemma_pow2_128, lemma_pow2_le};
use crate::lossless::{SourceMapPrefix, all_wf, pairwise_disjoint, covered};
use crate::sort::{SortKey, key_le, sort_keys, numbered, lemma_sorted_numbered_is_order, listed, apply_order};

verus! {

/// Intervals `(start, end)`, inclusive, each non-empty, in increasing order and
/// separated: each ends before the next starts.
pub open spec fn ranges_ok(r: Seq<(u128, u128)>) -> bool {
    &&& forall|i: int| 0 <= i < r.len() ==> (#[trigger] r[i]).0 <= r[i].1
    &&& forall|i: int, j: int| 0 <= i < j < r.len() ==> (#[trigger] r[i]).1 < (#[trigger] r[j]).0
}

/// Address `x` lies in one of the intervals.
pub open spec fn in_ranges(r: Seq<(u128, u128)>, x: int) -> bool {
    exists|i: int| 0 <= i < r.len() && (#[trigger] r[i]).0 <= x <= r[i].1
}

/// Some interval starts at or before `end` and ends at or after `start`.
pub open spec fn ranges_meet(r: Seq<(u128, u128)>, start: u128, end: u128) -> bool {
    exists|i: int| 0 <= i < r.len() && (#[trigger] r[i]).0 <= end && r[i].1 >= start
}

/// The number of addresses of `[start, end]` inside interval `iv`.
pub open spec fn overlap_len(iv: (u128, u128), start: u128, end: u128) -> int {
    if iv.0 <= end && iv.1 >= start {
        let lo = if iv.0 > start { iv.0 } else { start };
        let hi = if iv.1 < end { iv.1 } else { end };
        hi - lo + 1
    } else {
        0
    }
}

/// Total overlap of `[start, end]` with the first `n` intervals.
pub open spec fn overlap_sum(r: Seq<(u128, u128)>, start: u128, end: u128, n: int) -> int
    decreases n,
{
    if n <= 0 {
        0
    } else {
        overlap_sum(r, start, end, n - 1) + overlap_len(r[n - 1], start, end)
    }
}

/// The addresses of `[start, end]` held by one of the first `n` intervals.
pub open spec fn held_in(r: Seq<(u128, u128)>, start: u128, end: u128, n: int) -> Set<int> {
    Set::new(|x: int| start <= x <= end && exists|i: int| 0 <= i < n && (#[trigger] r[i]).0 <= x <= r[i].1)
}

/// The overlap sum counts the addresses of `[start, end]` that the first `n`
/// intervals hold.
pub proof fn lemma_overlap_counts(r: Seq<(u128, u128)>, start: u128, end: u128, n: int)
    requires
        ranges_ok(r),
        0 <= n <= r.len(),
        start <= end,
    ensures
        held_in(r, start, end, n).finite(),
        overlap_sum(r, start, end, n) == held_in(r, start, end, n).len(),
    decreases n,
{
    if n == 0 {
        assert(held_in(r, start, end, 0) =~= Set::<int>::empty());
    } else {
        lemma_overlap_counts(r, start, end, n - 1);
        let iv = r[n - 1];
        let prev = held_in(r, start, end, n - 1);
        let lo: int = if iv.0 > start { iv.0 as int } else { start as int };
        let hi: int = if iv.1 < end { iv.1 as int } else { end as int };
        let t = if iv.0 <= end && iv.1 >= start { vstd::set_lib::set_int_range(lo, hi + 1) } else { Set::<int>::empty() };
        if iv.0 <= end && iv.1 >= start {
            vstd::set_lib::lemma_int_range(lo, hi + 1);
        }
        assert(held_in(r, start, end, n) =~= prev + t) by {
            assert forall|x: int| held_in(r, start, end, n).contains(x) implies (prev + t).contains(x) by {
                let i = choose|i: int| 0 <= i < n && (#[trigger] r[i]).0 <= x <= r[i].1;
                if i < n - 1 {
                    assert(prev.contains(x));
                }
            }
            assert forall|x: int| (prev + t).contains(x) implies held_in(r, start, end, n).contains(x) by {
                if prev.contains(x) {
                    let i = choose|i: int| 0 <= i < n - 1 && (#[trigger] r[i]).0 <= x <= r[i].1;
                    assert(0 <= i < n && r[i].0 <= x <= r[i].1);
                } else {
                    assert(r[n - 1].0 <= x <= r[n - 1].1);
                }
            }
        }
        assert(prev.disjoint(t)) by {
            assert forall|x: int| prev.contains(x) implies !t.contains(x) by {
                let i = choose|i: int| 0 <= i < n - 1 && (#[trigger] r[i]).0 <= x <= r[i].1;
                assert(r[i].1 < r[n - 1].0);
            }
        }
        vstd::set_lib::lemma_set_disjoint_lens(prev, t);
    }
}

proof fn lemma_overlap_sum_nonneg(r: Seq<(u128, u128)>, start: u128, end: u128, n: int)
    requires
        ranges_ok(r),
        start <= end || !ranges_meet(r, start, end),
        n <= r.len(),
    ensures
        overlap_sum(r, start, end, n) >= 0,
    decreases n,
{
    if n > 0 {
        lemma_overlap_sum_nonneg(r, start, end, n - 1);
        if r[n - 1].0 <= end && r[n - 1].1 >= start {
            assert(ranges_meet(r, start, end));
        }
    }
}

proof fn lemma_overlap_sum_tail(r: Seq<(u128, u128)>, start: u128, end: u128, n: int, m: int)
    requires
        ranges_ok(r),
        0 <= n <= m <= r.len(),
        forall|i: int| n <= i < m ==> (#[trigger] r[i]).0 > end,
    ensures
        overlap_sum(r, start, end, m) == overlap_sum(r, start, end, n),
    decreases m - n,
{
    if m > n {
        lemma_overlap_sum_tail(r, start, end, n, m - 1);
    }
}

/// The number of intervals that start at or before `bound` (with intervals in
/// increasing order, these are the first ones).
fn count_starts_at_most(r: &Vec<(u128, u128)>, bound: u128) -> (k: usize)
    requires
        ranges_ok(r@),
    ensures
        k <= r@.len(),
        forall|i: int| 0 <= i < k ==> (#[trigger] r@[i]).0 <= bound,
        forall|i: int| k <= i < r@.len() ==> (#[trigger] r@[i]).0 > bound,
{
    let mut lo: usize = 0;
    let mut hi: usize = r.len();
    while lo < hi
        invariant
            ranges_ok(r@),
            lo <= hi <= r@.len(),
            forall|i: int| 0 <= i < lo ==> (#[trigger] r@[i]).0 <= bound,
            forall|i: int| hi <= i < r@.len() ==> (#[trigger] r@[i]).0 > bound,
        decreases hi - lo,
    {
        let mid = lo + (hi - lo) / 2;
        if r[mid].0 <= bound {
            proof {
                assert forall|i: int| 0 <= i < mid + 1 implies (#[trigger] r@[i]).0 <= bound by {
                    if i < mid {
                        assert(r@[i].1 < r@[mid as int].0);
                    }
                }
            }
            lo = mid + 1;
        } else {
            proof {
                assert forall|i: int| mid <= i < r@.len() implies (#[trigger] r@[i]).0 > bound by {
                    if i > mid {
                        assert(r@[mid as int].1 < r@[i].0);
                    }
                }
            }
            hi = mid;
        }
    }
    lo
}

/// Whether some interval meets `[start, end]`: the last interval that starts
/// at or before `end` must reach `start`.
pub fn intersects_ranges(r: &Vec<(u128, u128)>, start: u128, end: u128) -> (b: bool)
    requires
        ranges_ok(r@),
    ensures
        b == ranges_meet(r@, start, end),
{
    let idx = count_starts_at_most(r, end);
    let b = idx > 0 && r[idx - 1].1 >= start;
    proof {
        if ranges_meet(r@, start, end) {
            let i = choose|i: int| 0 <= i < r@.len() && (#[trigger] r@[i]).0 <= end && r@[i].1 >= start;
            assert(i < idx);
            if i < idx - 1 {
                assert(r@[i].1 < r@[idx - 1].0);
            }
        }
    }
    b
}

/// The number of addresses of `[start, end]` covered by the intervals,
/// saturating at `u128::MAX`.
pub fn overlap_count(r: &Vec<(u128, u128)>, start: u128, end: u128) -> (c: u128)
    requires
        ranges_ok(r@),
        start <= end || !ranges_meet(r@, start, end),
        !(start == 0 && end == u128::MAX && r@.contains((0u128, u128::MAX))),
    ensures
        c as int == if overlap_sum(r@, start, end, r@.len() as int) > u128::MAX { u128::MAX as int } else { overlap_sum(r@, start, end, r@.len() as int) },
{
    if r.len() == 0 {
        return 0;
    }
    let upper = count_starts_at_most(r, end);
    let mut total: u128 = 0;
    let mut i: usize = 0;
    proof {
        lemma_overlap_sum_tail(r@, start, end, upper as int, r@.len() as int);
    }
    while i < upper
        invariant
            ranges_ok(r@),
            start <= end || !ranges_meet(r@, start, end),
            !(start == 0 && end == u128::MAX && r@.contains((0u128, u128::MAX))),
            upper <= r@.len(),
            forall|k: int| 0 <= k < upper ==> (#[trigger] r@[k]).0 <= end,
            i <= upper,
            total as int == if overlap_sum(r@, start, end, i as int) > u128::MAX { u128::MAX as int } else { overlap_sum(r@, start, end, i as int) },
        decreases upper - i,
    {
        let (s, e) = r[i];
        proof {
            lemma_overlap_sum_nonneg(r@, start, end, i as int);
        }
        if e < start {
            i = i + 1;
            continue;
        }
        let lo = if s > start { s } else { start };
        let hi = if e < end { e } else { end };
        proof {
            assert(ranges_meet(r@, start, end));
            if lo == 0 && hi == u128::MAX {
                assert(r@[i as int] == (0u128, u128::MAX));
                assert(r@.contains((0u128, u128::MAX)));
                assert(false);
            }
        }
        total = total.saturating_add(hi - lo + 1);
        i = i + 1;
    }
    total
}

/// The address interval of each entry, in increasing order of start address.
pub fn to_intervals(agg: &Vec<SourceMapPrefix>, w: u8) -> (r: Vec<(u128, u128)>)
    requires
        valid_width(w),
        all_wf(agg@, w),
        pairwise_disjoint(agg@, w),
    ensures
        ranges_ok(r@),
        forall|x: int| in_ranges(r@, x) <==> covered(agg@, w, x),
        forall|i: int| 0 <= i < r@.len() ==> (#[trigger] r@[i]).1 < pow2(w as nat),
        r@.len() == agg@.len(),
{
    let mut iv: Vec<(u128, u128)> = Vec::new();
    let mut keys: Vec<SortKey> = Vec::new();
    let mut i: usize = 0;
    while i < agg.len()
        invariant
            valid_width(w),
            all_wf(agg@, w),
            i <= agg.len(),
            iv@.len() == i,
            keys@.len() == i,
            forall|k: int| 0 <= k < i ==> (#[trigger] iv@[k]).0 == agg@[k].prefix.net(w)
                && iv@[k].1 == agg@[k].prefix.net(w) + agg@[k].prefix.size(w) - 1,
            forall|k: int| 0 <= k < i ==> #[trigger] keys@[k] == (iv@[k].0, iv@[k].1, k as usize),
        decreases agg.len() - i,
    {
        let s = network(agg[i].prefix, w);
        let e = last_address(agg[i].prefix, w);
        iv.push((s, e));
        keys.push((s, e, i));
        i = i + 1;
    }
    let sorted = sort_keys(&keys);
    proof {
        assert(numbered(keys@));
        lemma_sorted_numbered_is_order(keys@, sorted@);
    }
    let ghost ivs = iv@;
    let r = apply_order(iv, &sorted);
    proof {
        assert forall|k: int| 0 <= k < ivs.len() implies #[trigger] ivs[k].0 <= ivs[k].1 by {
            agg@[k].prefix.lemma_has_bits(w);
        }
        assert forall|i: int, j: int| 0 <= i < j < r@.len() implies (#[trigger] r@[i]).1 < (#[trigger] r@[j]).0 by {
            let a = sorted@[i].2 as int;
            let b = sorted@[j].2 as int;
            assert(key_le(sorted@[i], sorted@[j]));
            assert(sorted@[i] == keys@[a]);
            assert(sorted@[j] == keys@[b]);
            assert(a != b);
            agg@[a].prefix.lemma_disjoint_range(w, agg@[b].prefix);
            agg@[a].prefix.lemma_has_bits(w);
            agg@[b].prefix.lemma_has_bits(w);
        }
        assert forall|i: int| 0 <= i < r@.len() implies (#[trigger] r@[i]).1 < pow2(w as nat) by {
            agg@[sorted@[i].2 as int].prefix.lemma_has_bits(w);
        }
        assert forall|x: int| in_ranges(r@, x) <==> covered(agg@, w, x) by {
            if in_ranges(r@, x) {
                let i = choose|i: int| 0 <= i < r@.len() && (#[trigger] r@[i]).0 <= x <= r@[i].1;
                let a = sorted@[i].2 as int;
                agg@[a].prefix.lemma_has_range(w, x);
            }
            if covered(agg@, w, x) {
                let a = choose|a: int| 0 <= a < agg@.len() && (#[trigger] agg@[a]).prefix.has(w, x);
                agg@[a].prefix.lemma_has_range(w, x);
                assert(listed(sorted@, a));
                let j = choose|j: int| 0 <= j < sorted@.len() && sorted@[j].2 == a;
                assert(r@[j] == ivs[a]);
            }
        }
    }
    r
}

} // verus!
