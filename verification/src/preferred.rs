//! Preferred zones: address ranges that count as acceptable over-coverage.
use vstd::prelude::*;
use vstd::arithmetic::power2::pow2;
use crate::prefix::{IpPrefix, network, last_address, lemma_pow2_128};
use crate::lossless::{lossless_aggregate_v4, lossless_aggregate_v6, covered, input_covered};
use crate::ranges::{ranges_ok, in_ranges, ranges_meet, overlap_sum, overlap_count, to_intervals};
use crate::exclusion::{partition_with_indices, any_has_v4, any_has_v6};
use crate::types::PreferredEntry;

verus! {

/// Sorted non-overlapping intervals (after aggregation) for binary-search
/// overlap queries.
pub struct PreferredSet {
    ipv4_ranges: Vec<(u128, u128)>,
    ipv6_ranges: Vec<(u128, u128)>,
}

/// The entries are well-formed prefixes.
pub open spec fn preferred_entries_wf(entries: Seq<PreferredEntry>) -> bool {
    forall|i: int| 0 <= i < entries.len() ==> (#[trigger] entries[i]).prefix.wf()
}

/// Some entry's prefix (IPv4) holds address `x`.
pub open spec fn preferred_have_v4(entries: Seq<PreferredEntry>, x: int) -> bool {
    exists|i: int| 0 <= i < entries.len() && (#[trigger] entries[i]).prefix.has_v4(x)
}

/// Some entry's prefix (IPv6) holds address `x`.
pub open spec fn preferred_have_v6(entries: Seq<PreferredEntry>, x: int) -> bool {
    exists|i: int| 0 <= i < entries.len() && (#[trigger] entries[i]).prefix.has_v6(x)
}

/// The entry is of the requested family, and its address range meets `[start, end]`.
pub open spec fn preferred_meets(e: PreferredEntry, start: u128, end: u128, v4: bool) -> bool {
    match e.prefix {
        IpPrefix::V4(p) => v4 && p.net(32) <= end && p.net(32) + p.size(32) - 1 >= start,
        IpPrefix::V6(p) => !v4 && p.net(128) <= end && p.net(128) + p.size(128) - 1 >= start,
    }
}

/// The prefixes of the entries, in order.
fn preferred_prefixes(entries: &[PreferredEntry]) -> (r: Vec<IpPrefix>)
    ensures
        r@.len() == entries@.len(),
        forall|i: int| 0 <= i < r@.len() ==> #[trigger] r@[i] == entries@[i].prefix,
{
    let mut r: Vec<IpPrefix> = Vec::new();
    let mut i: usize = 0;
    while i < entries.len()
        invariant
            i <= entries@.len(),
            r@.len() == i,
            forall|k: int| 0 <= k < i ==> #[trigger] r@[k] == entries@[k].prefix,
        decreases entries@.len() - i,
    {
        r.push(entries[i].prefix);
        i = i + 1;
    }
    r
}

impl PreferredSet {
    #[verifier::type_invariant]
    spec fn inv(self) -> bool {
        &&& ranges_ok(self.ipv4_ranges@)
        &&& ranges_ok(self.ipv6_ranges@)
        &&& forall|i: int| 0 <= i < self.ipv4_ranges@.len() ==> (#[trigger] self.ipv4_ranges@[i]).1 < pow2(32)
    }

    /// Address `x` of the IPv4 space is preferred.
    pub closed spec fn prefers_v4(self, x: int) -> bool {
        in_ranges(self.ipv4_ranges@, x)
    }

    /// Address `x` of the IPv6 space is preferred.
    pub closed spec fn prefers_v6(self, x: int) -> bool {
        in_ranges(self.ipv6_ranges@, x)
    }

    /// Sum, over the preferred IPv4 intervals, of their overlap with `[start, end]`
    /// (the intervals do not overlap each other).
    pub closed spec fn overlap_v4(self, start: u128, end: u128) -> int {
        overlap_sum(self.ipv4_ranges@, start, end, self.ipv4_ranges@.len() as int)
    }

    /// Sum, over the preferred IPv6 intervals, of their overlap with `[start, end]`.
    pub closed spec fn overlap_v6(self, start: u128, end: u128) -> int {
        overlap_sum(self.ipv6_ranges@, start, end, self.ipv6_ranges@.len() as int)
    }

    /// The preferred IPv4 addresses in `[start, end]`.
    pub open spec fn preferred_in_v4(self, start: u128, end: u128) -> Set<int> {
        Set::new(|x: int| start <= x <= end && self.prefers_v4(x))
    }

    /// The preferred IPv6 addresses in `[start, end]`.
    pub open spec fn preferred_in_v6(self, start: u128, end: u128) -> Set<int> {
        Set::new(|x: int| start <= x <= end && self.prefers_v6(x))
    }

    /// Some preferred IPv4 interval reaches into `[start, end]`.
    pub closed spec fn reaches_v4(self, start: u128, end: u128) -> bool {
        ranges_meet(self.ipv4_ranges@, start, end)
    }

    /// Some preferred IPv6 interval reaches into `[start, end]`.
    pub closed spec fn reaches_v6(self, start: u128, end: u128) -> bool {
        ranges_meet(self.ipv6_ranges@, start, end)
    }

    /// The whole IPv6 space is one preferred interval.
    pub closed spec fn all_v6(self) -> bool {
        self.ipv6_ranges@.contains((0u128, u128::MAX))
    }

    /// When the whole IPv6 space is one preferred interval, address 0 is preferred.
    pub proof fn lemma_all_v6_prefers_zero(self)
        requires
            self.all_v6(),
        ensures
            self.prefers_v6(0),
    {
        let i = choose|i: int| 0 <= i < self.ipv6_ranges@.len() && self.ipv6_ranges@[i] == (0u128, u128::MAX);
        assert(self.ipv6_ranges@[i].0 <= 0 <= self.ipv6_ranges@[i].1);
    }

    /// Build from preferred entries, aggregating each family losslessly so that
    /// overlapping entries are not counted twice. The set prefers exactly the
    /// addresses of the entries' prefixes.
    pub fn build(entries: &[PreferredEntry]) -> (r: Self)
        requires
            preferred_entries_wf(entries@),
        ensures
            forall|x: int| #[trigger] r.prefers_v4(x) <==> preferred_have_v4(entries@, x),
            forall|x: int| #[trigger] r.prefers_v6(x) <==> preferred_have_v6(entries@, x),
            (forall|x: int| !#[trigger] r.prefers_v4(x)) ==> forall|a: u128, c: u128| #[trigger] r.overlap_v4(a, c) == 0,
            (forall|x: int| !#[trigger] r.prefers_v6(x)) ==> forall|a: u128, c: u128| #[trigger] r.overlap_v6(a, c) == 0,
    {
        let prefixes = preferred_prefixes(entries);
        let (v4_input, v6_input) = partition_with_indices(&prefixes);
        let ghost in4 = v4_input@;
        let ghost in6 = v6_input@;
        let agg_v4 = lossless_aggregate_v4(v4_input, 32);
        let agg_v6 = lossless_aggregate_v6(v6_input, 128);
        let ipv4_ranges = to_intervals(&agg_v4, 32);
        let ipv6_ranges = to_intervals(&agg_v6, 128);
        let r = PreferredSet { ipv4_ranges, ipv6_ranges };
        proof {
            assert forall|x: int| #[trigger] r.prefers_v4(x) <==> preferred_have_v4(entries@, x) by {
                assert(covered(agg_v4@, 32, x) <==> input_covered(in4, 32, 32, x));
                assert(any_has_v4(prefixes@, x) <==> input_covered(in4, 32, 32, x));
                if any_has_v4(prefixes@, x) {
                    let i = choose|i: int| 0 <= i < prefixes@.len() && (#[trigger] prefixes@[i]).has_v4(x);
                    assert(entries@[i].prefix.has_v4(x));
                }
                if preferred_have_v4(entries@, x) {
                    let i = choose|i: int| 0 <= i < entries@.len() && (#[trigger] entries@[i]).prefix.has_v4(x);
                    assert(prefixes@[i].has_v4(x));
                }
            }
            assert forall|x: int| #[trigger] r.prefers_v6(x) <==> preferred_have_v6(entries@, x) by {
                assert(covered(agg_v6@, 128, x) <==> input_covered(in6, 128, 128, x));
                assert(any_has_v6(prefixes@, x) <==> input_covered(in6, 128, 128, x));
                if any_has_v6(prefixes@, x) {
                    let i = choose|i: int| 0 <= i < prefixes@.len() && (#[trigger] prefixes@[i]).has_v6(x);
                    assert(entries@[i].prefix.has_v6(x));
                }
                if preferred_have_v6(entries@, x) {
                    let i = choose|i: int| 0 <= i < entries@.len() && (#[trigger] entries@[i]).prefix.has_v6(x);
                    assert(prefixes@[i].has_v6(x));
                }
            }
            if r.ipv4_ranges@.len() > 0 {
                assert(r.prefers_v4(r.ipv4_ranges@[0].0 as int));
            }
            if r.ipv6_ranges@.len() > 0 {
                assert(r.prefers_v6(r.ipv6_ranges@[0].0 as int));
            }
        }
        r
    }

    /// The number of preferred IPv4 addresses in `[candidate_start, candidate_end]`
    /// (the sum of overlaps, saturating at `u128::MAX`): the size of
    /// `preferred_in_v4` for a non-empty interval.
    pub fn overlap_count_v4(&self, candidate_start: u128, candidate_end: u128) -> (c: u128)
        requires
            candidate_start <= candidate_end || !self.reaches_v4(candidate_start, candidate_end),
        ensures
            c as int == if self.overlap_v4(candidate_start, candidate_end) > u128::MAX { u128::MAX as int } else { self.overlap_v4(candidate_start, candidate_end) },
            candidate_start <= candidate_end ==> self.preferred_in_v4(candidate_start, candidate_end).finite()
                && self.overlap_v4(candidate_start, candidate_end) == self.preferred_in_v4(candidate_start, candidate_end).len(),
    {
        proof {
            use_type_invariant(self);
            if candidate_start <= candidate_end {
                let r = self.ipv4_ranges@;
                crate::ranges::lemma_overlap_counts(r, candidate_start, candidate_end, r.len() as int);
                assert(crate::ranges::held_in(r, candidate_start, candidate_end, r.len() as int)
                    =~= self.preferred_in_v4(candidate_start, candidate_end));
            }
            lemma_pow2_128();
            if self.ipv4_ranges@.contains((0u128, u128::MAX)) {
                let i = choose|i: int| 0 <= i < self.ipv4_ranges@.len() && self.ipv4_ranges@[i] == (0u128, u128::MAX);
                assert(self.ipv4_ranges@[i].1 < pow2(32));
            }
        }
        overlap_count(&self.ipv4_ranges, candidate_start, candidate_end)
    }

    /// The number of preferred IPv6 addresses in `[candidate_start, candidate_end]`
    /// (the sum of overlaps, saturating at `u128::MAX`).
    pub fn overlap_count_v6(&self, candidate_start: u128, candidate_end: u128) -> (c: u128)
        requires
            candidate_start <= candidate_end || !self.reaches_v6(candidate_start, candidate_end),
            !(candidate_start == 0 && candidate_end == u128::MAX && self.all_v6()),
        ensures
            c as int == if self.overlap_v6(candidate_start, candidate_end) > u128::MAX { u128::MAX as int } else { self.overlap_v6(candidate_start, candidate_end) },
            candidate_start <= candidate_end ==> self.preferred_in_v6(candidate_start, candidate_end).finite()
                && self.overlap_v6(candidate_start, candidate_end) == self.preferred_in_v6(candidate_start, candidate_end).len(),
    {
        proof {
            use_type_invariant(self);
            if candidate_start <= candidate_end {
                let r = self.ipv6_ranges@;
                crate::ranges::lemma_overlap_counts(r, candidate_start, candidate_end, r.len() as int);
                assert(crate::ranges::held_in(r, candidate_start, candidate_end, r.len() as int)
                    =~= self.preferred_in_v6(candidate_start, candidate_end));
            }
        }
        overlap_count(&self.ipv6_ranges, candidate_start, candidate_end)
    }

    /// Whether no IPv4 address is preferred.
    pub fn is_empty_v4(&self) -> (b: bool)
        ensures
            b <==> forall|x: int| !#[trigger] self.prefers_v4(x),
            b ==> forall|a: u128, c: u128| #[trigger] self.overlap_v4(a, c) == 0,
    {
        proof {
            use_type_invariant(self);
            if self.ipv4_ranges@.len() > 0 {
                assert(self.prefers_v4(self.ipv4_ranges@[0].0 as int));
            }
        }
        self.ipv4_ranges.len() == 0
    }

    /// Whether no IPv6 address is preferred.
    pub fn is_empty_v6(&self) -> (b: bool)
        ensures
            b <==> forall|x: int| !#[trigger] self.prefers_v6(x),
            b ==> forall|a: u128, c: u128| #[trigger] self.overlap_v6(a, c) == 0,
    {
        proof {
            use_type_invariant(self);
            if self.ipv6_ranges@.len() > 0 {
                assert(self.prefers_v6(self.ipv6_ranges@[0].0 as int));
            }
        }
        self.ipv6_ranges.len() == 0
    }

    /// All original entries of the IPv4 family whose prefix intersects the
    /// candidate interval, in order.
    pub fn find_overlapping_v4<'a>(&self, entries: &'a [PreferredEntry], candidate_start: u128, candidate_end: u128) -> (r: Vec<&'a PreferredEntry>)
        requires
            preferred_entries_wf(entries@),
        ensures
            r@.map_values(|e: &PreferredEntry| *e) == entries@.filter(|e: PreferredEntry| preferred_meets(e, candidate_start, candidate_end, true)),
    {
        find_overlapping(entries, candidate_start, candidate_end, true)
    }

    /// All original entries of the IPv6 family whose prefix intersects the
    /// candidate interval, in order.
    pub fn find_overlapping_v6<'a>(&self, entries: &'a [PreferredEntry], candidate_start: u128, candidate_end: u128) -> (r: Vec<&'a PreferredEntry>)
        requires
            preferred_entries_wf(entries@),
        ensures
            r@.map_values(|e: &PreferredEntry| *e) == entries@.filter(|e: PreferredEntry| preferred_meets(e, candidate_start, candidate_end, false)),
    {
        find_overlapping(entries, candidate_start, candidate_end, false)
    }
}

/// Whether the entry is of the requested family and meets `[start, end]`.
fn preferred_meets_exec(e: &PreferredEntry, start: u128, end: u128, v4: bool) -> (b: bool)
    requires
        e.prefix.wf(),
    ensures
        b == preferred_meets(*e, start, end, v4),
{
    match e.prefix {
        IpPrefix::V4(p) => {
            if !v4 {
                return false;
            }
            let s = network(p, 32);
            let l = last_address(p, 32);
            s <= end && l >= start
        },
        IpPrefix::V6(p) => {
            if v4 {
                return false;
            }
            let s = network(p, 128);
            let l = last_address(p, 128);
            s <= end && l >= start
        },
    }
}

/// Linear scan over the entries, keeping those that meet the candidate interval.
fn find_overlapping<'a>(entries: &'a [PreferredEntry], start: u128, end: u128, v4: bool) -> (r: Vec<&'a PreferredEntry>)
    requires
        preferred_entries_wf(entries@),
    ensures
        r@.map_values(|e: &PreferredEntry| *e) == entries@.filter(|e: PreferredEntry| preferred_meets(e, start, end, v4)),
{
    let ghost pred = |e: PreferredEntry| preferred_meets(e, start, end, v4);
    let mut r: Vec<&'a PreferredEntry> = Vec::new();
    let mut i: usize = 0;
    while i < entries.len()
        invariant
            preferred_entries_wf(entries@),
            i <= entries@.len(),
            pred == (|e: PreferredEntry| preferred_meets(e, start, end, v4)),
            r@.map_values(|e: &PreferredEntry| *e) == entries@.take(i as int).filter(pred),
        decreases entries@.len() - i,
    {
        let e = &entries[i];
        let keep = preferred_meets_exec(e, start, end, v4);
        proof {
            reveal_with_fuel(Seq::<_>::filter, 1);
            assert(entries@.take(i + 1).drop_last() =~= entries@.take(i as int));
            assert(entries@.take(i + 1).last() == entries@[i as int]);
        }
        if keep {
            let ghost before = r@;
            r.push(e);
            proof {
                assert(r@.map_values(|e: &PreferredEntry| *e) =~= before.map_values(|e: &PreferredEntry| *e).push(*e));
            }
        }
        i = i + 1;
    }
    proof {
        assert(entries@.take(entries@.len() as int) =~= entries@);
    }
    r
}

} // verus!
