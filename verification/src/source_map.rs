//! Source map: for each output prefix, the original input indices it
//! contains, found by binary search over the inputs sorted by address.
use vstd::prelude::*;
use crate::prefix::{Prefix, valid_width, network, last_address, prefix_contains};

verus! {

/// `outer` contains `inner`: it is no longer and covers all of its addresses.
pub open spec fn contains_spec(outer: Prefix, inner: Prefix, w: u8) -> bool {
    outer.len <= inner.len && outer.covers(w, inner)
}

/// An index is among the contained indices exactly when some entry of
/// `s[lo..hi]` with that index is contained in `out`.
pub proof fn lemma_contained_member(s: Seq<(usize, Prefix)>, out: Prefix, w: u8, lo: int, hi: int, v: usize)
    requires
        0 <= lo,
        hi <= s.len(),
    ensures
        contained_indices(s, out, w, lo, hi).contains(v) <==>
            exists|j: int| lo <= j < hi && (#[trigger] s[j]).0 == v && contains_spec(out, s[j].1, w),
    decreases hi - lo,
{
    if hi > lo {
        lemma_contained_member(s, out, w, lo, hi - 1, v);
        let rest = contained_indices(s, out, w, lo, hi - 1);
        if contains_spec(out, s[hi - 1].1, w) {
            let r = rest.push(s[hi - 1].0);
            if r.contains(v) {
                let k = choose|k: int| 0 <= k < r.len() && r[k] == v;
                if k < rest.len() {
                    assert(rest[k] == v);
                    assert(rest.contains(v));
                } else {
                    assert(s[hi - 1].0 == v);
                }
            }
            if exists|j: int| lo <= j < hi && (#[trigger] s[j]).0 == v && contains_spec(out, s[j].1, w) {
                let j = choose|j: int| lo <= j < hi && (#[trigger] s[j]).0 == v && contains_spec(out, s[j].1, w);
                if j < hi - 1 {
                    assert(rest.contains(v));
                    let k = choose|k: int| 0 <= k < rest.len() && rest[k] == v;
                    assert(r[k] == v);
                } else {
                    assert(r[r.len() - 1] == v);
                }
            }
        } else {
            if exists|j: int| lo <= j < hi && (#[trigger] s[j]).0 == v && contains_spec(out, s[j].1, w) {
                let j = choose|j: int| lo <= j < hi && (#[trigger] s[j]).0 == v && contains_spec(out, s[j].1, w);
                assert(j < hi - 1);
            }
        }
    }
}

/// The source indices, in order, of the entries of `s[lo..hi]` that `out` contains.
pub open spec fn contained_indices(s: Seq<(usize, Prefix)>, out: Prefix, w: u8, lo: int, hi: int) -> Seq<usize>
    decreases hi - lo,
{
    if hi <= lo {
        Seq::empty()
    } else {
        let rest = contained_indices(s, out, w, lo, hi - 1);
        if contains_spec(out, s[hi - 1].1, w) {
            rest.push(s[hi - 1].0)
        } else {
            rest
        }
    }
}

/// The inputs are canonical prefixes of the family, in ascending address order.
pub open spec fn sorted_inputs(s: Seq<(usize, Prefix)>, w: u8) -> bool {
    &&& forall|i: int| 0 <= i < s.len() ==> (#[trigger] s[i]).1.canonical(w)
    &&& forall|a: int, b: int| 0 <= a <= b < s.len() ==> (#[trigger] s[a]).1.bits <= (#[trigger] s[b]).1.bits
}

proof fn lemma_skip_tail(s: Seq<(usize, Prefix)>, out: Prefix, w: u8, lo: int, mid: int, hi: int)
    requires
        lo <= mid <= hi <= s.len(),
        forall|i: int| mid <= i < hi ==> !contains_spec(out, #[trigger] s[i].1, w),
    ensures
        contained_indices(s, out, w, lo, hi) == contained_indices(s, out, w, lo, mid),
    decreases hi - mid,
{
    if hi > mid {
        lemma_skip_tail(s, out, w, lo, mid, hi - 1);
    }
}

proof fn lemma_skip_head(s: Seq<(usize, Prefix)>, out: Prefix, w: u8, lo: int, hi: int)
    requires
        0 <= lo <= hi <= s.len(),
        forall|i: int| 0 <= i < lo ==> !contains_spec(out, #[trigger] s[i].1, w),
    ensures
        contained_indices(s, out, w, 0, hi) == contained_indices(s, out, w, lo, hi),
    decreases hi,
{
    if hi > lo {
        lemma_skip_head(s, out, w, lo, hi - 1);
    } else if hi > 0 {
        lemma_skip_tail(s, out, w, 0, 0, hi);
    }
}

/// A contained prefix starts within the container's range.
proof fn lemma_contained_start(out: Prefix, inner: Prefix, w: u8)
    requires
        out.wf(w),
        inner.canonical(w),
        contains_spec(out, inner, w),
    ensures
        out.net(w) <= inner.bits <= out.net(w) + out.size(w) - 1,
{
    inner.lemma_has_bits(w);
    out.lemma_has_range(w, inner.bits as int);
}

/// The number of leading inputs whose address is below `key` (or, with
/// `or_equal`, at most `key`).
fn count_below(s: &Vec<(usize, Prefix)>, key: u128, or_equal: bool, Ghost(w): Ghost<u8>) -> (r: usize)
    requires
        sorted_inputs(s@, w),
    ensures
        r <= s@.len(),
        forall|i: int| 0 <= i < r ==> if or_equal { (#[trigger] s@[i]).1.bits <= key } else { (#[trigger] s@[i]).1.bits < key },
        forall|i: int| r <= i < s@.len() ==> if or_equal { (#[trigger] s@[i]).1.bits > key } else { (#[trigger] s@[i]).1.bits >= key },
{
    let mut lo: usize = 0;
    let mut hi: usize = s.len();
    while lo < hi
        invariant
            sorted_inputs(s@, w),
            lo <= hi <= s@.len(),
            forall|i: int| 0 <= i < lo ==> if or_equal { (#[trigger] s@[i]).1.bits <= key } else { (#[trigger] s@[i]).1.bits < key },
            forall|i: int| hi <= i < s@.len() ==> if or_equal { (#[trigger] s@[i]).1.bits > key } else { (#[trigger] s@[i]).1.bits >= key },
        decreases hi - lo,
    {
        let mid: usize = lo + (hi - lo) / 2;
        let b = s[mid].1.bits;
        let below: bool = if or_equal { b <= key } else { b < key };
        if below {
            proof {
                assert forall|i: int| 0 <= i < mid + 1 implies if or_equal { (#[trigger] s@[i]).1.bits <= key } else { (#[trigger] s@[i]).1.bits < key } by {
                    assert(s@[i].1.bits <= s@[mid as int].1.bits);
                }
            }
            lo = mid + 1;
        } else {
            proof {
                assert forall|i: int| mid <= i < s@.len() implies if or_equal { (#[trigger] s@[i]).1.bits > key } else { (#[trigger] s@[i]).1.bits >= key } by {
                    assert(s@[mid as int].1.bits <= s@[i].1.bits);
                }
            }
            hi = mid;
        }
    }
    lo
}

/// For each output prefix, the input indices (in input order) of the inputs it contains.
pub(crate) fn map_contained(output: &Vec<Prefix>, sorted_input: &Vec<(usize, Prefix)>, w: u8) -> (r: Vec<Vec<usize>>)
    requires
        valid_width(w),
        forall|k: int| 0 <= k < output@.len() ==> (#[trigger] output@[k]).wf(w),
        sorted_inputs(sorted_input@, w),
    ensures
        r@.len() == output@.len(),
        forall|k: int| 0 <= k < output@.len() ==> (#[trigger] r@[k])@
            == contained_indices(sorted_input@, output@[k], w, 0, sorted_input@.len() as int),
{
    let ghost s = sorted_input@;
    let ghost n = s.len() as int;
    let mut result: Vec<Vec<usize>> = Vec::new();
    let mut k: usize = 0;
    while k < output.len()
        invariant
            valid_width(w),
            forall|k: int| 0 <= k < output@.len() ==> (#[trigger] output@[k]).wf(w),
            sorted_inputs(s, w),
            s == sorted_input@,
            n == s.len(),
            k <= output@.len(),
            result@.len() == k,
            forall|j: int| 0 <= j < k ==> (#[trigger] result@[j])@ == contained_indices(s, output@[j], w, 0, n),
        decreases output@.len() - k,
    {
        let out = output[k];
        let out_start = network(out, w);
        let out_end = last_address(out, w);
        // Only inputs starting within the output's range can be contained.
        let start = count_below(sorted_input, out_start, false, Ghost(w));
        let end = count_below(sorted_input, out_end, true, Ghost(w));
        let mut found: Vec<usize> = Vec::new();
        let mut i: usize = start;
        proof {
            out.lemma_has_bits(w);
            if start > end {
                assert(s[end as int].1.bits > out_end);
                assert(s[end as int].1.bits < out_start);
            }
        }
        while i < end
            invariant
                valid_width(w),
                out.wf(w),
                sorted_inputs(s, w),
                s == sorted_input@,
                n == s.len(),
                start <= i <= end <= n,
                found@ == contained_indices(s, out, w, start as int, i as int),
            decreases end - i,
        {
            let (idx, p) = sorted_input[i];
            if prefix_contains(out, p, w) {
                found.push(idx);
            }
            i = i + 1;
        }
        proof {
            assert forall|i: int| end <= i < n implies !contains_spec(out, #[trigger] s[i].1, w) by {
                if contains_spec(out, s[i].1, w) {
                    lemma_contained_start(out, s[i].1, w);
                }
            }
            assert forall|i: int| 0 <= i < start implies !contains_spec(out, #[trigger] s[i].1, w) by {
                if contains_spec(out, s[i].1, w) {
                    lemma_contained_start(out, s[i].1, w);
                }
            }
            lemma_skip_tail(s, out, w, start as int, end as int, n);
            lemma_skip_head(s, out, w, start as int, n);
        }
        result.push(found);
        k = k + 1;
    }
    result
}

/// For each IPv4 output prefix, the indices of the inputs it contains.
pub fn compute_source_map_v4(output: &Vec<Prefix>, sorted_input: &Vec<(usize, Prefix)>) -> (r: Vec<Vec<usize>>)
    requires
        forall|k: int| 0 <= k < output@.len() ==> (#[trigger] output@[k]).wf(32),
        sorted_inputs(sorted_input@, 32),
    ensures
        r@.len() == output@.len(),
        forall|k: int| 0 <= k < output@.len() ==> (#[trigger] r@[k])@
            == contained_indices(sorted_input@, output@[k], 32, 0, sorted_input@.len() as int),
{
    map_contained(output, sorted_input, 32)
}

/// For each IPv6 output prefix, the indices of the inputs it contains.
pub fn compute_source_map_v6(output: &Vec<Prefix>, sorted_input: &Vec<(usize, Prefix)>) -> (r: Vec<Vec<usize>>)
    requires
        forall|k: int| 0 <= k < output@.len() ==> (#[trigger] output@[k]).wf(128),
        sorted_inputs(sorted_input@, 128),
    ensures
        r@.len() == output@.len(),
        forall|k: int| 0 <= k < output@.len() ==> (#[trigger] r@[k])@
            == contained_indices(sorted_input@, output@[k], 128, 0, sorted_input@.len() as int),
{
    map_contained(output, sorted_input, 128)
}

} // verus!
