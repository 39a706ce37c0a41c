//! Exclusion zones: address ranges that widened supernets must not absorb.
use vstd::prelude::*;
use crate::prefix::{Prefix, IpPrefix, trunc, network, last_address};
use crate::lossless::{lossless_aggregate_v4, lossless_aggregate_v6, covered, inputs_wf, input_covered, clamp};
use crate::ranges::{ranges_ok, in_ranges, ranges_meet, intersects_ranges, to_intervals};
use crate::types::ExclusionEntry;

verus! {

/// Sorted non-overlapping intervals (after aggregation) for binary-search
/// intersection queries.
pub struct ExclusionSet {
    /// IPv4 intervals as (start, end) inclusive, sorted by start.
    ipv4_ranges: Vec<(u128, u128)>,
    /// IPv6 intervals as (start, end) inclusive, sorted by start.
    ipv6_ranges: Vec<(u128, u128)>,
}

/// The entries are well-formed prefixes.
pub open spec fn exclusion_entries_wf(entries: Seq<ExclusionEntry>) -> bool {
    forall|i: int| 0 <= i < entries.len() ==> (#[trigger] entries[i]).prefix.wf()
}

/// Some IPv4 prefix of the list holds address `x`.
pub open spec fn any_has_v4(prefixes: Seq<IpPrefix>, x: int) -> bool {
    exists|i: int| 0 <= i < prefixes.len() && (#[trigger] prefixes[i]).has_v4(x)
}

/// Some IPv6 prefix of the list holds address `x`.
pub open spec fn any_has_v6(prefixes: Seq<IpPrefix>, x: int) -> bool {
    exists|i: int| 0 <= i < prefixes.len() && (#[trigger] prefixes[i]).has_v6(x)
}

/// The entry is of the requested family, and its address range meets `[start, end]`.
pub open spec fn entry_meets(e: ExclusionEntry, start: u128, end: u128, v4: bool) -> bool {
    match e.prefix {
        IpPrefix::V4(p) => v4 && p.net(32) <= end && p.net(32) + p.size(32) - 1 >= start,
        IpPrefix::V6(p) => !v4 && p.net(128) <= end && p.net(128) + p.size(128) - 1 >= start,
    }
}

/// Split entries by family, with each prefix in canonical form, numbered by position.
pub fn partition_with_indices(prefixes: &Vec<IpPrefix>) -> (r: (Vec<(usize, Prefix)>, Vec<(usize, Prefix)>))
    requires
        forall|i: int| 0 <= i < prefixes@.len() ==> (#[trigger] prefixes@[i]).wf(),
    ensures
        inputs_wf(r.0@, 32),
        inputs_wf(r.1@, 128),
        forall|k: int| 0 <= k < r.0@.len() ==> (#[trigger] r.0@[k]).1.canonical(32),
        forall|k: int| 0 <= k < r.1@.len() ==> (#[trigger] r.1@[k]).1.canonical(128),
        forall|x: int| #[trigger] any_has_v4(prefixes@, x) <==> input_covered(r.0@, 32, 32, x),
        forall|x: int| #[trigger] any_has_v6(prefixes@, x) <==> input_covered(r.1@, 128, 128, x),
        forall|k: int| 0 <= k < r.0@.len() ==> (#[trigger] r.0@[k]).0 < prefixes@.len()
            && prefixes@[r.0@[k].0 as int] == IpPrefix::V4(Prefix { bits: prefixes@[r.0@[k].0 as int]->V4_0.bits, len: r.0@[k].1.len })
            && r.0@[k].1.bits as int == prefixes@[r.0@[k].0 as int]->V4_0.net(32),
        forall|k: int| 0 <= k < r.1@.len() ==> (#[trigger] r.1@[k]).0 < prefixes@.len()
            && prefixes@[r.1@[k].0 as int] == IpPrefix::V6(Prefix { bits: prefixes@[r.1@[k].0 as int]->V6_0.bits, len: r.1@[k].1.len })
            && r.1@[k].1.bits as int == prefixes@[r.1@[k].0 as int]->V6_0.net(128),
        forall|i: int| 0 <= i < prefixes@.len() && (#[trigger] prefixes@[i]) is V4 ==>
            exists|k: int| 0 <= k < r.0@.len() && (#[trigger] r.0@[k]).0 == i,
        forall|i: int| 0 <= i < prefixes@.len() && (#[trigger] prefixes@[i]) is V6 ==>
            exists|k: int| 0 <= k < r.1@.len() && (#[trigger] r.1@[k]).0 == i,
        r.0@.len() + r.1@.len() == prefixes@.len(),
        forall|a: int, b: int| 0 <= a < b < r.0@.len() ==> (#[trigger] r.0@[a]).0 < (#[trigger] r.0@[b]).0,
        forall|a: int, b: int| 0 <= a < b < r.1@.len() ==> (#[trigger] r.1@[a]).0 < (#[trigger] r.1@[b]).0,
{
    let mut v4: Vec<(usize, Prefix)> = Vec::new();
    let mut v6: Vec<(usize, Prefix)> = Vec::new();
    let mut i: usize = 0;
    while i < prefixes.len()
        invariant
            forall|i: int| 0 <= i < prefixes@.len() ==> (#[trigger] prefixes@[i]).wf(),
            i <= prefixes@.len(),
            v4@.len() + v6@.len() == i,
            inputs_wf(v4@, 32),
            inputs_wf(v6@, 128),
            forall|k: int| 0 <= k < v4@.len() ==> (#[trigger] v4@[k]).1.canonical(32),
            forall|k: int| 0 <= k < v6@.len() ==> (#[trigger] v6@[k]).1.canonical(128),
            forall|k: int| 0 <= k < v4@.len() ==> (#[trigger] v4@[k]).0 < i
                && prefixes@[v4@[k].0 as int] == IpPrefix::V4(Prefix { bits: prefixes@[v4@[k].0 as int]->V4_0.bits, len: v4@[k].1.len })
                && v4@[k].1.bits as int == prefixes@[v4@[k].0 as int]->V4_0.net(32)
                && forall|x: int| v4@[k].1.has(32, x) <==> prefixes@[v4@[k].0 as int]->V4_0.has(32, x),
            forall|k: int| 0 <= k < v6@.len() ==> (#[trigger] v6@[k]).0 < i
                && prefixes@[v6@[k].0 as int] == IpPrefix::V6(Prefix { bits: prefixes@[v6@[k].0 as int]->V6_0.bits, len: v6@[k].1.len })
                && v6@[k].1.bits as int == prefixes@[v6@[k].0 as int]->V6_0.net(128)
                && forall|x: int| v6@[k].1.has(128, x) <==> prefixes@[v6@[k].0 as int]->V6_0.has(128, x),
            forall|j: int| 0 <= j < i && (#[trigger] prefixes@[j]) is V4 ==>
                exists|k: int| 0 <= k < v4@.len() && (#[trigger] v4@[k]).0 == j,
            forall|j: int| 0 <= j < i && (#[trigger] prefixes@[j]) is V6 ==>
                exists|k: int| 0 <= k < v6@.len() && (#[trigger] v6@[k]).0 == j,
            forall|a: int, b: int| 0 <= a < b < v4@.len() ==> (#[trigger] v4@[a]).0 < (#[trigger] v4@[b]).0,
            forall|a: int, b: int| 0 <= a < b < v6@.len() ==> (#[trigger] v6@[a]).0 < (#[trigger] v6@[b]).0,
        decreases prefixes@.len() - i,
    {
        let ghost old4 = v4@;
        let ghost old6 = v6@;
        match prefixes[i] {
            IpPrefix::V4(p) => {
                let t = trunc(p, 32);
                v4.push((i, t));
                proof {
                    assert(v4@[v4@.len() - 1].0 == i);
                }
            },
            IpPrefix::V6(p) => {
                let t = trunc(p, 128);
                v6.push((i, t));
                proof {
                    assert(v6@[v6@.len() - 1].0 == i);
                }
            },
        }
        proof {
            assert forall|j: int| 0 <= j < i + 1 && (#[trigger] prefixes@[j]) is V4 implies
                exists|k: int| 0 <= k < v4@.len() && (#[trigger] v4@[k]).0 == j by {
                if j < i {
                    let k = choose|k: int| 0 <= k < old4.len() && (#[trigger] old4[k]).0 == j;
                    assert(v4@[k] == old4[k]);
                } else {
                    assert(v4@[v4@.len() - 1].0 == i);
                }
            }
            assert forall|j: int| 0 <= j < i + 1 && (#[trigger] prefixes@[j]) is V6 implies
                exists|k: int| 0 <= k < v6@.len() && (#[trigger] v6@[k]).0 == j by {
                if j < i {
                    let k = choose|k: int| 0 <= k < old6.len() && (#[trigger] old6[k]).0 == j;
                    assert(v6@[k] == old6[k]);
                } else {
                    assert(v6@[v6@.len() - 1].0 == i);
                }
            }
        }
        i = i + 1;
    }
    proof {
        assert forall|x: int| #[trigger] any_has_v4(prefixes@, x) <==> input_covered(v4@, 32, 32, x) by {
            if exists|i: int| 0 <= i < prefixes@.len() && (#[trigger] prefixes@[i]).has_v4(x) {
                let i = choose|i: int| 0 <= i < prefixes@.len() && (#[trigger] prefixes@[i]).has_v4(x);
                let k = choose|k: int| 0 <= k < v4@.len() && (#[trigger] v4@[k]).0 == i;
                assert(v4@[k].1.has(32, x));
            }
            if exists|k: int| 0 <= k < v4@.len() && (#[trigger] v4@[k]).1.has(32, x) {
                let k = choose|k: int| 0 <= k < v4@.len() && (#[trigger] v4@[k]).1.has(32, x);
                assert(prefixes@[v4@[k].0 as int].has_v4(x));
            }
        }
        assert forall|x: int| #[trigger] any_has_v6(prefixes@, x) <==> input_covered(v6@, 128, 128, x) by {
            if exists|i: int| 0 <= i < prefixes@.len() && (#[trigger] prefixes@[i]).has_v6(x) {
                let i = choose|i: int| 0 <= i < prefixes@.len() && (#[trigger] prefixes@[i]).has_v6(x);
                let k = choose|k: int| 0 <= k < v6@.len() && (#[trigger] v6@[k]).0 == i;
                assert(v6@[k].1.has(128, x));
            }
            if exists|k: int| 0 <= k < v6@.len() && (#[trigger] v6@[k]).1.has(128, x) {
                let k = choose|k: int| 0 <= k < v6@.len() && (#[trigger] v6@[k]).1.has(128, x);
                assert(prefixes@[v6@[k].0 as int].has_v6(x));
            }
        }
    }
    (v4, v6)
}

/// Some entry's prefix (IPv4) holds address `x`.
pub open spec fn entries_have_v4(entries: Seq<ExclusionEntry>, x: int) -> bool {
    exists|i: int| 0 <= i < entries.len() && (#[trigger] entries[i]).prefix.has_v4(x)
}

/// Some entry's prefix (IPv6) holds address `x`.
pub open spec fn entries_have_v6(entries: Seq<ExclusionEntry>, x: int) -> bool {
    exists|i: int| 0 <= i < entries.len() && (#[trigger] entries[i]).prefix.has_v6(x)
}

/// Some interval holds an address of `[start, end]`.
pub proof fn lemma_meet_has_address(r: Seq<(u128, u128)>, start: u128, end: u128)
    requires
        ranges_ok(r),
        start <= end,
    ensures
        ranges_meet(r, start, end) <==> exists|x: int| start <= x <= end && #[trigger] in_ranges(r, x),
{
    if ranges_meet(r, start, end) {
        let i = choose|i: int| 0 <= i < r.len() && (#[trigger] r[i]).0 <= end && r[i].1 >= start;
        let x: int = if r[i].0 > start { r[i].0 as int } else { start as int };
        assert(in_ranges(r, x));
    }
    if exists|x: int| start <= x <= end && #[trigger] in_ranges(r, x) {
        let x = choose|x: int| start <= x <= end && #[trigger] in_ranges(r, x);
        let i = choose|i: int| 0 <= i < r.len() && (#[trigger] r[i]).0 <= x <= r[i].1;
        assert(ranges_meet(r, start, end));
    }
}

/// The prefixes of the entries, in order.
fn entry_prefixes(entries: &[ExclusionEntry]) -> (r: Vec<IpPrefix>)
    ensures
        r@.len() == entries@.len(),
        forall|i: int| 0 <= i < r@.len() ==> #[trigger] r@[i] == entries@[i].prefix,
{
    let mut r: Vec<IpPrefix> = Vec::new();
    let mut i: usize = 0;
    while i < entries.len()
        invariant
            i <= entries@.len(),
            r@.len() == i,
            forall|k: int| 0 <= k < i ==> #[trigger] r@[k] == entries@[k].prefix,
        decreases entries@.len() - i,
    {
        r.push(entries[i].prefix);
        i = i + 1;
    }
    r
}

impl ExclusionSet {
    #[verifier::type_invariant]
    spec fn inv(self) -> bool {
        ranges_ok(self.ipv4_ranges@) && ranges_ok(self.ipv6_ranges@)
    }

    /// Address `x` of the IPv4 space is excluded.
    pub closed spec fn excludes_v4(self, x: int) -> bool {
        in_ranges(self.ipv4_ranges@, x)
    }

    /// Address `x` of the IPv6 space is excluded.
    pub closed spec fn excludes_v6(self, x: int) -> bool {
        in_ranges(self.ipv6_ranges@, x)
    }

    /// Some IPv4 exclusion interval starts at or before `end` and ends at or after `start`.
    pub closed spec fn reaches_v4(self, start: u128, end: u128) -> bool {
        ranges_meet(self.ipv4_ranges@, start, end)
    }

    /// Some IPv6 exclusion interval starts at or before `end` and ends at or after `start`.
    pub closed spec fn reaches_v6(self, start: u128, end: u128) -> bool {
        ranges_meet(self.ipv6_ranges@, start, end)
    }

    /// Build from exclusion entries. Each address family is aggregated
    /// losslessly into minimal non-overlapping intervals; the set excludes
    /// exactly the addresses of the entries' prefixes.
    pub fn build(entries: &[ExclusionEntry]) -> (r: Self)
        requires
            exclusion_entries_wf(entries@),
        ensures
            forall|x: int| #[trigger] r.excludes_v4(x) <==> entries_have_v4(entries@, x),
            forall|x: int| #[trigger] r.excludes_v6(x) <==> entries_have_v6(entries@, x),
    {
        let prefixes = entry_prefixes(entries);
        let (v4_input, v6_input) = partition_with_indices(&prefixes);
        let ghost in4 = v4_input@;
        let ghost in6 = v6_input@;
        let agg_v4 = lossless_aggregate_v4(v4_input, 32);
        let agg_v6 = lossless_aggregate_v6(v6_input, 128);
        let ipv4_ranges = to_intervals(&agg_v4, 32);
        let ipv6_ranges = to_intervals(&agg_v6, 128);
        let r = ExclusionSet { ipv4_ranges, ipv6_ranges };
        proof {
            assert forall|x: int| #[trigger] r.excludes_v4(x) <==> entries_have_v4(entries@, x) by {
                assert(covered(agg_v4@, 32, x) <==> input_covered(in4, 32, 32, x));
                assert(any_has_v4(prefixes@, x) <==> input_covered(in4, 32, 32, x));
                if any_has_v4(prefixes@, x) {
                    let i = choose|i: int| 0 <= i < prefixes@.len() && (#[trigger] prefixes@[i]).has_v4(x);
                    assert(entries@[i].prefix.has_v4(x));
                }
                if entries_have_v4(entries@, x) {
                    let i = choose|i: int| 0 <= i < entries@.len() && (#[trigger] entries@[i]).prefix.has_v4(x);
                    assert(prefixes@[i].has_v4(x));
                }
            }
            assert forall|x: int| #[trigger] r.excludes_v6(x) <==> entries_have_v6(entries@, x) by {
                assert(covered(agg_v6@, 128, x) <==> input_covered(in6, 128, 128, x));
                assert(any_has_v6(prefixes@, x) <==> input_covered(in6, 128, 128, x));
                if any_has_v6(prefixes@, x) {
                    let i = choose|i: int| 0 <= i < prefixes@.len() && (#[trigger] prefixes@[i]).has_v6(x);
                    assert(entries@[i].prefix.has_v6(x));
                }
                if entries_have_v6(entries@, x) {
                    let i = choose|i: int| 0 <= i < entries@.len() && (#[trigger] entries@[i]).prefix.has_v6(x);
                    assert(prefixes@[i].has_v6(x));
                }
            }
        }
        r
    }

    /// Whether the candidate interval intersects an IPv4 exclusion interval.
    pub fn intersects_v4(&self, candidate_start: u128, candidate_end: u128) -> (b: bool)
        ensures
            b == self.reaches_v4(candidate_start, candidate_end),
            candidate_start <= candidate_end ==> (b <==> exists|x: int|
                candidate_start <= x <= candidate_end && #[trigger] self.excludes_v4(x)),
    {
        proof {
            use_type_invariant(self);
        }
        let b = intersects_ranges(&self.ipv4_ranges, candidate_start, candidate_end);
        proof {
            if candidate_start <= candidate_end {
                lemma_meet_has_address(self.ipv4_ranges@, candidate_start, candidate_end);
                if b {
                    let x = choose|x: int| candidate_start <= x <= candidate_end && #[trigger] in_ranges(self.ipv4_ranges@, x);
                    assert(self.excludes_v4(x));
                }
                if exists|x: int| candidate_start <= x <= candidate_end && #[trigger] self.excludes_v4(x) {
                    let x = choose|x: int| candidate_start <= x <= candidate_end && #[trigger] self.excludes_v4(x);
                    assert(in_ranges(self.ipv4_ranges@, x));
                }
            }
        }
        b
    }

    /// Whether the candidate interval intersects an IPv6 exclusion interval.
    pub fn intersects_v6(&self, candidate_start: u128, candidate_end: u128) -> (b: bool)
        ensures
            b == self.reaches_v6(candidate_start, candidate_end),
            candidate_start <= candidate_end ==> (b <==> exists|x: int|
                candidate_start <= x <= candidate_end && #[trigger] self.excludes_v6(x)),
    {
        proof {
            use_type_invariant(self);
        }
        let b = intersects_ranges(&self.ipv6_ranges, candidate_start, candidate_end);
        proof {
            if candidate_start <= candidate_end {
                lemma_meet_has_address(self.ipv6_ranges@, candidate_start, candidate_end);
                if b {
                    let x = choose|x: int| candidate_start <= x <= candidate_end && #[trigger] in_ranges(self.ipv6_ranges@, x);
                    assert(self.excludes_v6(x));
                }
                if exists|x: int| candidate_start <= x <= candidate_end && #[trigger] self.excludes_v6(x) {
                    let x = choose|x: int| candidate_start <= x <= candidate_end && #[trigger] self.excludes_v6(x);
                    assert(in_ranges(self.ipv6_ranges@, x));
                }
            }
        }
        b
    }

    /// An excluded address inside `[start, end]` lies in an exclusion
    /// interval that reaches into `[start, end]`.
    pub proof fn lemma_excluded_reaches(self, x: int, start: u128, end: u128, v4: bool)
        requires
            start <= x <= end,
            if v4 { self.excludes_v4(x) } else { self.excludes_v6(x) },
        ensures
            if v4 { self.reaches_v4(start, end) } else { self.reaches_v6(start, end) },
    {
        let r = if v4 { self.ipv4_ranges@ } else { self.ipv6_ranges@ };
        let i = choose|i: int| 0 <= i < r.len() && (#[trigger] r[i]).0 <= x <= r[i].1;
        assert(0 <= i < r.len() && r[i].0 <= end && r[i].1 >= start);
    }

    /// Whether the set excludes no IPv4 address.
    pub fn is_empty_v4(&self) -> (b: bool)
        ensures
            b <==> forall|x: int| !#[trigger] self.excludes_v4(x),
    {
        proof {
            use_type_invariant(self);
            if self.ipv4_ranges@.len() > 0 {
                assert(self.excludes_v4(self.ipv4_ranges@[0].0 as int));
            }
        }
        self.ipv4_ranges.len() == 0
    }

    /// Whether the set excludes no IPv6 address.
    pub fn is_empty_v6(&self) -> (b: bool)
        ensures
            b <==> forall|x: int| !#[trigger] self.excludes_v6(x),
    {
        proof {
            use_type_invariant(self);
            if self.ipv6_ranges@.len() > 0 {
                assert(self.excludes_v6(self.ipv6_ranges@[0].0 as int));
            }
        }
        self.ipv6_ranges.len() == 0
    }

    /// The IPv4 exclusion intervals, as (start, end) inclusive, in increasing order.
    pub fn ipv4_ranges(&self) -> (r: &Vec<(u128, u128)>)
        ensures
            ranges_ok(r@),
            forall|x: int| in_ranges(r@, x) <==> #[trigger] self.excludes_v4(x),
    {
        proof {
            use_type_invariant(self);
        }
        &self.ipv4_ranges
    }

    /// All original entries of the requested family whose prefix intersects
    /// `[candidate_start, candidate_end]`, in order.
    pub fn find_intersecting_v4<'a>(&self, entries: &'a [ExclusionEntry], candidate_start: u128, candidate_end: u128) -> (r: Vec<&'a ExclusionEntry>)
        requires
            exclusion_entries_wf(entries@),
        ensures
            r@.map_values(|e: &ExclusionEntry| *e) == entries@.filter(|e: ExclusionEntry| entry_meets(e, candidate_start, candidate_end, true)),
    {
        find_intersecting(entries, candidate_start, candidate_end, true)
    }

    /// IPv6 counterpart of `find_intersecting_v4`.
    pub fn find_intersecting_v6<'a>(&self, entries: &'a [ExclusionEntry], candidate_start: u128, candidate_end: u128) -> (r: Vec<&'a ExclusionEntry>)
        requires
            exclusion_entries_wf(entries@),
        ensures
            r@.map_values(|e: &ExclusionEntry| *e) == entries@.filter(|e: ExclusionEntry| entry_meets(e, candidate_start, candidate_end, false)),
    {
        find_intersecting(entries, candidate_start, candidate_end, false)
    }
}

/// The entries found for an interval are among the given entries.
pub proof fn lemma_found_among(entries: Seq<ExclusionEntry>, found: Seq<&ExclusionEntry>, start: u128, end: u128, v4: bool)
    requires
        exclusion_entries_wf(entries),
        found.map_values(|e: &ExclusionEntry| *e) == entries.filter(|e: ExclusionEntry| entry_meets(e, start, end, v4)),
    ensures
        forall|i: int| 0 <= i < found.len() ==> (#[trigger] found[i]).prefix.wf(),
{
    let pred = |e: ExclusionEntry| entry_meets(e, start, end, v4);
    let fl = entries.filter(pred);
    assert forall|i: int| 0 <= i < found.len() implies (#[trigger] found[i]).prefix.wf() by {
        assert(found.map_values(|e: &ExclusionEntry| *e)[i] == *found[i]);
        assert(fl[i] == *found[i]);
        assert(fl.contains(fl[i]));
        entries.lemma_filter_contains_rev(pred, fl[i]);
    }
}

/// Whether the entry is of the requested family and meets `[start, end]`.
fn entry_meets_exec(e: &ExclusionEntry, start: u128, end: u128, v4: bool) -> (b: bool)
    requires
        e.prefix.wf(),
    ensures
        b == entry_meets(*e, start, end, v4),
{
    match e.prefix {
        IpPrefix::V4(p) => {
            if !v4 {
                return false;
            }
            let s = network(p, 32);
            let l = last_address(p, 32);
            s <= end && l >= start
        },
        IpPrefix::V6(p) => {
            if v4 {
                return false;
            }
            let s = network(p, 128);
            let l = last_address(p, 128);
            s <= end && l >= start
        },
    }
}

/// Linear scan over the entries, keeping those that meet the candidate interval.
fn find_intersecting<'a>(entries: &'a [ExclusionEntry], start: u128, end: u128, v4: bool) -> (r: Vec<&'a ExclusionEntry>)
    requires
        exclusion_entries_wf(entries@),
    ensures
        r@.map_values(|e: &ExclusionEntry| *e) == entries@.filter(|e: ExclusionEntry| entry_meets(e, start, end, v4)),
{
    let ghost pred = |e: ExclusionEntry| entry_meets(e, start, end, v4);
    let mut r: Vec<&'a ExclusionEntry> = Vec::new();
    let mut i: usize = 0;
    while i < entries.len()
        invariant
            exclusion_entries_wf(entries@),
            i <= entries@.len(),
            pred == (|e: ExclusionEntry| entry_meets(e, start, end, v4)),
            r@.map_values(|e: &ExclusionEntry| *e) == entries@.take(i as int).filter(pred),
        decreases entries@.len() - i,
    {
        let e = &entries[i];
        let keep = entry_meets_exec(e, start, end, v4);
        proof {
            reveal_with_fuel(Seq::<_>::filter, 1);
            assert(entries@.take(i + 1).drop_last() =~= entries@.take(i as int));
            assert(entries@.take(i + 1).last() == entries@[i as int]);
        }
        if keep {
            let ghost before = r@;
            r.push(e);
            proof {
                assert(r@.map_values(|e: &ExclusionEntry| *e) =~= before.map_values(|e: &ExclusionEntry| *e).push(*e));
            }
        }
        i = i + 1;
    }
    proof {
        assert(entries@.take(entries@.len() as int) =~= entries@);
    }
    r
}

} // verus!
