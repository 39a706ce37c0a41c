//! The optimization pipeline: configuration checks, lossless aggregation per
//! family, budget-constrained optimization where a target binds, the output
//! entries with their statistics, exclusion collisions, the source map, and a
//! final check that the output covers every input.
use vstd::prelude::*;
use vstd::arithmetic::power2::{pow2, lemma_pow2_pos};
use crate::prefix::{Prefix, IpPrefix, capacity_spec, host_bits, capacity_of, network, last_address, lemma_pow2_128, lemma_pow2_le};
use crate::lossless::{SourceMapPrefix, all_wf, pairwise_disjoint, sorted_by_net, sort_by_network, full_coverage, clamp, input_covered, within, within_some, lies_within, inputs_within, lemma_clamp_within, inputs_wf, lemma_lies_within_contains, siblings, no_siblings};
use crate::sort::{SortKey, sort_keys, numbered, lemma_sorted_numbered_is_order, apply_order, key_le, listed};
use crate::types::{PreferredEntry, ExclusionEntry, ExclusionCollision, TargetSpec, AddressFamily, Phase, AggregatedEntry, OptimizationResult, OptimizationStats, OptimizerConfig};
use crate::error::OptimizeError;
use crate::text::{decimal, u8_text, push_text};
use crate::exclusion::{ExclusionSet, partition_with_indices, exclusion_entries_wf, any_has_v4, any_has_v6, entry_meets};
use crate::lossless::{lossless_aggregate_v4, lossless_aggregate_v6, covered};
use crate::source_map::{sorted_inputs, contained_indices, compute_source_map_v4, compute_source_map_v6, contains_spec, lemma_contained_member};
use crate::ipnet_calls::{prefix_text, prefix_text_spec};
use crate::preferred::PreferredSet;
use crate::trie::{BinaryTrie, TrieNode, NodeIdx, INVALID};
use crate::trie_paths::{key_of, lemma_shape_holds, lemma_collapsed_holds, lemma_leaf_holds_prefix};
use crate::optimizer::{optimize_trie, leaves_gap, lemma_settled_clean, lemma_gap_sum_leaves, collapsed_from, law_collapses_avoid_exclusions,
    trace_ok, steps_above, admitted, budget_stop, no_overlap};
use crate::progress::{live_counts_exact, unreached_small, stuck, collapsible};
use crate::outcome::{family_outcome, lemma_family_outcome};

verus! {

// ---------------------------------------------------------------------------
// Configuration

/// The message for a maximum prefix length outside its range.
pub open spec fn prefix_len_message(v4: bool, len: u8) -> Seq<char> {
    if v4 {
        "max_prefix_len_v4 ("@ + decimal(len as nat) + ") must be in [1, 32]"@
    } else {
        "max_prefix_len_v6 ("@ + decimal(len as nat) + ") must be in [1, 128]"@
    }
}

/// The configuration error, if any: maximum prefix lengths out of range
/// (IPv4 first), then the problem the caller found with the ratios.
pub open spec fn config_problem(config: OptimizerConfig) -> Option<Seq<char>> {
    if config.max_prefix_len_v4 == 0 || config.max_prefix_len_v4 > 32 {
        Some(prefix_len_message(true, config.max_prefix_len_v4))
    } else if config.max_prefix_len_v6 == 0 || config.max_prefix_len_v6 > 128 {
        Some(prefix_len_message(false, config.max_prefix_len_v6))
    } else {
        match config.ratio_problem {
            Some(m) => Some(m@),
            None => None,
        }
    }
}

fn prefix_len_text(v4: bool, len: u8) -> (r: String)
    ensures
        r@ == prefix_len_message(v4, len),
{
    let mut s = String::new();
    if v4 {
        push_text(&mut s, "max_prefix_len_v4 (");
        push_text(&mut s, u8_text(len).as_str());
        push_text(&mut s, ") must be in [1, 32]");
    } else {
        push_text(&mut s, "max_prefix_len_v6 (");
        push_text(&mut s, u8_text(len).as_str());
        push_text(&mut s, ") must be in [1, 128]");
    }
    proof {
        assert(s@ =~= prefix_len_message(v4, len));
    }
    s
}

/// Checks the configuration: prefix-length limits in range, and no problem
/// reported with the ratios.
pub fn validate_config(config: &OptimizerConfig) -> (r: Result<(), OptimizeError>)
    ensures
        match config_problem(*config) {
            None => r is Ok,
            Some(m) => r matches Err(OptimizeError::InvalidConfig { message }) && message@ == m,
        },
{
    if config.max_prefix_len_v4 == 0 || config.max_prefix_len_v4 > 32 {
        return Err(OptimizeError::InvalidConfig { message: prefix_len_text(true, config.max_prefix_len_v4) });
    }
    if config.max_prefix_len_v6 == 0 || config.max_prefix_len_v6 > 128 {
        return Err(OptimizeError::InvalidConfig { message: prefix_len_text(false, config.max_prefix_len_v6) });
    }
    match &config.ratio_problem {
        Some(m) => Err(OptimizeError::InvalidConfig { message: m.clone() }),
        None => Ok(()),
    }
}

// ---------------------------------------------------------------------------
// Covered addresses and over-coverage totals

/// The sum of the capacities of the first `n` entries.
pub open spec fn capacity_total(s: Seq<SourceMapPrefix>, w: u8, n: int) -> int
    decreases n,
{
    if n <= 0 {
        0
    } else {
        capacity_total(s, w, n - 1) + capacity_spec(w, s[n - 1].prefix.len)
    }
}

/// The number of addresses of an entry's prefix that its coverage leaves out.
pub open spec fn entry_over(e: SourceMapPrefix, w: u8) -> int {
    let cap = capacity_spec(w, e.prefix.len);
    if cap >= e.coverage { cap - e.coverage } else { 0 }
}

/// The sum of the over-coverage of the first `n` entries.
pub open spec fn over_total(s: Seq<SourceMapPrefix>, w: u8, n: int) -> int
    decreases n,
{
    if n <= 0 {
        0
    } else {
        over_total(s, w, n - 1) + entry_over(s[n - 1], w)
    }
}

/// `x`, saturated at `u128::MAX`.
pub open spec fn saturated(x: int) -> int {
    if x > u128::MAX { u128::MAX as int } else { x }
}

proof fn lemma_capacity_v4_bound(len: u8)
    requires
        len <= 32,
    ensures
        1 <= capacity_spec(32, len) <= pow2(32),
{
    lemma_pow2_pos((32 - len) as nat);
    lemma_pow2_le((32 - len) as nat, 32);
}

/// The number of addresses covered by the IPv4 entries.
pub fn compute_covered_ips_v4(lossless: &Vec<SourceMapPrefix>) -> (r: u128)
    requires
        all_wf(lossless@, 32),
    ensures
        r as int == capacity_total(lossless@, 32, lossless@.len() as int),
{
    let mut total: u128 = 0;
    let mut i: usize = 0;
    proof {
        lemma_pow2_128();
        vstd::arithmetic::power2::lemma2_to64();
    }
    while i < lossless.len()
        invariant
            all_wf(lossless@, 32),
            i <= lossless@.len(),
            total as int == capacity_total(lossless@, 32, i as int),
            total <= i * pow2(32),
            pow2(32) == 0x1_0000_0000,
        decreases lossless@.len() - i,
    {
        proof {
            lemma_capacity_v4_bound(lossless@[i as int].prefix.len);
            assert(i * pow2(32) + pow2(32) <= usize::MAX as int * 0x1_0000_0000 + 0x1_0000_0000) by (nonlinear_arith)
                requires i < usize::MAX, pow2(32) == 0x1_0000_0000;
            assert((i + 1) * pow2(32) == i * pow2(32) + pow2(32)) by (nonlinear_arith);
        }
        let c = capacity_of(lossless[i].prefix.len, 32);
        total = total + c;
        i = i + 1;
    }
    total
}

/// The number of addresses covered by the IPv6 entries (saturating).
pub fn compute_covered_ips_v6(lossless: &Vec<SourceMapPrefix>) -> (r: u128)
    requires
        all_wf(lossless@, 128),
    ensures
        r as int == saturated(capacity_total(lossless@, 128, lossless@.len() as int)),
{
    let mut total: u128 = 0;
    let mut i: usize = 0;
    while i < lossless.len()
        invariant
            all_wf(lossless@, 128),
            i <= lossless@.len(),
            total as int == saturated(capacity_total(lossless@, 128, i as int)),
        decreases lossless@.len() - i,
    {
        let c = capacity_of(lossless[i].prefix.len, 128);
        total = total.saturating_add(c);
        i = i + 1;
    }
    total
}

// ---------------------------------------------------------------------------
// Lossy optimization

/// Entries that each report their full capacity as coverage add no over-coverage.
proof fn lemma_full_over_zero(s: Seq<SourceMapPrefix>, w: u8, n: int)
    requires
        full_coverage(s, w),
        n <= s.len(),
    ensures
        over_total(s, w, n) == 0,
    decreases n,
{
    if n > 0 {
        lemma_full_over_zero(s, w, n - 1);
    }
}

proof fn lemma_over_total_nonneg(s: Seq<SourceMapPrefix>, w: u8, n: int)
    ensures
        over_total(s, w, n) >= 0,
    decreases n,
{
    if n > 0 {
        lemma_over_total_nonneg(s, w, n - 1);
    }
}

/// A non-empty list of entries covers at least one address.
proof fn lemma_capacity_total_pos(s: Seq<SourceMapPrefix>, w: u8, n: int)
    requires
        1 <= n <= s.len(),
    ensures
        capacity_total(s, w, n) >= 1,
    decreases n,
{
    lemma_pow2_pos(host_bits(w, s[n - 1].prefix.len));
    if n > 1 {
        lemma_capacity_total_pos(s, w, n - 1);
        assert(capacity_total(s, w, n - 1) >= 1);
    } else {
        assert(capacity_total(s, w, 0) == 0);
    }
}

/// The address width of a family.
pub open spec fn width(v4: bool) -> u8 {
    if v4 { 32 } else { 128 }
}

/// Some IPv4 input prefix, cut to `max_len` bits, holds address `x`.
pub open spec fn any_cut_has_v4(prefixes: Seq<IpPrefix>, max_len: u8, x: int) -> bool {
    exists|i: int| 0 <= i < prefixes.len() && (#[trigger] prefixes[i]) is V4
        && clamp(Prefix { bits: prefixes[i]->V4_0.net(32) as u128, len: prefixes[i]->V4_0.len }, max_len, 32).has(32, x)
}

/// Some IPv6 input prefix, cut to `max_len` bits, holds address `x`.
pub open spec fn any_cut_has_v6(prefixes: Seq<IpPrefix>, max_len: u8, x: int) -> bool {
    exists|i: int| 0 <= i < prefixes.len() && (#[trigger] prefixes[i]) is V6
        && clamp(Prefix { bits: prefixes[i]->V6_0.net(128) as u128, len: prefixes[i]->V6_0.len }, max_len, 128).has(128, x)
}

/// `l` aggregates the inputs of a family cut to `max_len` bits: well-formed,
/// pairwise disjoint prefixes holding exactly the addresses that the cut
/// inputs hold.
pub open spec fn aggregates(l: Seq<SourceMapPrefix>, prefixes: Seq<IpPrefix>, max_len: u8, v4: bool) -> bool {
    &&& all_wf(l, width(v4))
    &&& pairwise_disjoint(l, width(v4))
    &&& forall|x: int| #[trigger] covered(l, width(v4), x) <==> any_cut_has(prefixes, max_len, v4, x)
}

/// `l` is the lossless aggregation of the family's inputs cut to `max_len`
/// bits: pairwise disjoint prefixes that cover exactly the inputs'
/// addresses, no two of them siblings (no two can merge without adding an
/// address).
pub open spec fn minimal_cover(l: Seq<SourceMapPrefix>, prefixes: Seq<IpPrefix>, max_len: u8, v4: bool) -> bool {
    &&& aggregates(l, prefixes, max_len, v4)
    &&& no_siblings(l, width(v4))
}

/// Some input prefix of the family, cut to `max_len` bits, holds address `x`.
pub open spec fn any_cut_has(prefixes: Seq<IpPrefix>, max_len: u8, v4: bool, x: int) -> bool {
    if v4 { any_cut_has_v4(prefixes, max_len, x) } else { any_cut_has_v6(prefixes, max_len, x) }
}

/// A family's over-coverage total is zero, or within the cap that `budget`
/// answers for the number of addresses of an aggregation of the family's
/// inputs (saturated at `u128::MAX`), `over_target` telling whether the

/// The budget closure sets no cap on an entry-count target of the family:
/// whatever it is asked for it, it answers `None`.
pub open spec fn uncapped<B: Fn(AddressFamily, u128, bool) -> Option<u128>>(budget: B, af: AddressFamily) -> bool {
    forall|c: u128, b: Option<u128>| #[trigger] call_ensures(budget, (af, c, false), b) ==> b is None
}

/// An entry-count target of the family is met, but where one entry is left
/// (the target reached as far as it can be).
pub open spec fn target_met(res: OptimizationResult, config: OptimizerConfig, v4: bool) -> bool {
    let t = entry_target(if v4 { config.ipv4_target } else { config.ipv6_target });
    let n = if v4 { res.stats.output_ipv4_count } else { res.stats.output_ipv6_count };
    t is Some ==> n <= t->0 || n <= 1
}

/// family's target is an over-coverage target.
pub open spec fn within_budget<B: Fn(AddressFamily, u128, bool) -> Option<u128>>(
    budget: B,
    prefixes: Seq<IpPrefix>,
    max_len: u8,
    v4: bool,
    over_target: bool,
    total: int,
) -> bool {
    let af = if v4 { AddressFamily::IPv4 } else { AddressFamily::IPv6 };
    ||| total == 0
    ||| exists|l: Seq<SourceMapPrefix>, b: Option<u128>| {
        &&& aggregates(l, prefixes, max_len, v4)
        &&& call_ensures(budget, (af, saturated(capacity_total(l, width(v4), l.len() as int)) as u128, over_target), b)
        &&& (b is Some && b->0 < u128::MAX ==> total <= b->0)
    }
}

proof fn lemma_within_budget_intro<B: Fn(AddressFamily, u128, bool) -> Option<u128>>(
    budget: B,
    prefixes: Seq<IpPrefix>,
    max_len: u8,
    v4: bool,
    over_target: bool,
    total: int,
    l: Seq<SourceMapPrefix>,
    b: Option<u128>,
)
    requires
        aggregates(l, prefixes, max_len, v4),
        call_ensures(budget, (if v4 { AddressFamily::IPv4 } else { AddressFamily::IPv6 },
            saturated(capacity_total(l, width(v4), l.len() as int)) as u128, over_target), b),
        b is Some && b->0 < u128::MAX ==> total <= b->0,
    ensures
        within_budget(budget, prefixes, max_len, v4, over_target, total),
{
}

/// A total within budget stays within budget once saturated.
proof fn lemma_within_budget_saturated<B: Fn(AddressFamily, u128, bool) -> Option<u128>>(
    budget: B,
    prefixes: Seq<IpPrefix>,
    max_len: u8,
    v4: bool,
    over_target: bool,
    total: int,
)
    requires
        total >= 0,
        within_budget(budget, prefixes, max_len, v4, over_target, total),
    ensures
        within_budget(budget, prefixes, max_len, v4, over_target, saturated(total)),
{
    if total != 0 {
        let af = if v4 { AddressFamily::IPv4 } else { AddressFamily::IPv6 };
        let (l, b) = choose|l: Seq<SourceMapPrefix>, b: Option<u128>| {
            &&& aggregates(l, prefixes, max_len, v4)
            &&& call_ensures(budget, (af, saturated(capacity_total(l, width(v4), l.len() as int)) as u128, over_target), b)
            &&& (b is Some && b->0 < u128::MAX ==> total <= b->0)
        };
        lemma_within_budget_intro(budget, prefixes, max_len, v4, over_target, saturated(total), l, b);
    }
}

/// The inputs of a family, as split off by `partition_with_indices`, cover
/// (once cut) the same addresses as the family's prefixes of the list.
proof fn lemma_cut_inputs(prefixes: Seq<IpPrefix>, input: Seq<(usize, Prefix)>, max_len: u8, v4: bool)
    requires
        v4 ==> forall|k: int| 0 <= k < input.len() ==> (#[trigger] input[k]).0 < prefixes.len()
            && prefixes[input[k].0 as int] == IpPrefix::V4(Prefix { bits: prefixes[input[k].0 as int]->V4_0.bits, len: input[k].1.len })
            && input[k].1.bits as int == prefixes[input[k].0 as int]->V4_0.net(32),
        !v4 ==> forall|k: int| 0 <= k < input.len() ==> (#[trigger] input[k]).0 < prefixes.len()
            && prefixes[input[k].0 as int] == IpPrefix::V6(Prefix { bits: prefixes[input[k].0 as int]->V6_0.bits, len: input[k].1.len })
            && input[k].1.bits as int == prefixes[input[k].0 as int]->V6_0.net(128),
        v4 ==> forall|i: int| 0 <= i < prefixes.len() && (#[trigger] prefixes[i]) is V4 ==>
            exists|k: int| 0 <= k < input.len() && (#[trigger] input[k]).0 == i,
        !v4 ==> forall|i: int| 0 <= i < prefixes.len() && (#[trigger] prefixes[i]) is V6 ==>
            exists|k: int| 0 <= k < input.len() && (#[trigger] input[k]).0 == i,
    ensures
        forall|x: int| #[trigger] input_covered(input, max_len, width(v4), x) <==> any_cut_has(prefixes, max_len, v4, x),
{
    let w: u8 = width(v4);
    assert forall|x: int| #[trigger] input_covered(input, max_len, width(v4), x) <==> any_cut_has(prefixes, max_len, v4, x) by {
        if input_covered(input, max_len, w, x) {
            let k = choose|k: int| 0 <= k < input.len() && clamp((#[trigger] input[k]).1, max_len, w).has(w, x);
            let i = input[k].0 as int;
            if v4 {
                assert(input[k].1 == Prefix { bits: prefixes[i]->V4_0.net(32) as u128, len: prefixes[i]->V4_0.len });
                assert(prefixes[i] is V4);
            } else {
                assert(input[k].1 == Prefix { bits: prefixes[i]->V6_0.net(128) as u128, len: prefixes[i]->V6_0.len });
                assert(prefixes[i] is V6);
            }
        }
        if v4 && any_cut_has_v4(prefixes, max_len, x) {
            let i = choose|i: int| 0 <= i < prefixes.len() && (#[trigger] prefixes[i]) is V4
                && clamp(Prefix { bits: prefixes[i]->V4_0.net(32) as u128, len: prefixes[i]->V4_0.len }, max_len, 32).has(32, x);
            let k = choose|k: int| 0 <= k < input.len() && (#[trigger] input[k]).0 == i;
            assert(input[k].1 == Prefix { bits: prefixes[i]->V4_0.net(32) as u128, len: prefixes[i]->V4_0.len });
        }
        if !v4 && any_cut_has_v6(prefixes, max_len, x) {
            let i = choose|i: int| 0 <= i < prefixes.len() && (#[trigger] prefixes[i]) is V6
                && clamp(Prefix { bits: prefixes[i]->V6_0.net(128) as u128, len: prefixes[i]->V6_0.len }, max_len, 128).has(128, x);
            let k = choose|k: int| 0 <= k < input.len() && (#[trigger] input[k]).0 == i;
            assert(input[k].1 == Prefix { bits: prefixes[i]->V6_0.net(128) as u128, len: prefixes[i]->V6_0.len });
        }
    }
}

/// Marking exclusions keeps a trie well-formed with bounded leaf counts.
proof fn lemma_marks_keep_ready(a: BinaryTrie, b: BinaryTrie)
    requires
        a.wf(),
        a.counts_bounded(),
        b.root == a.root,
        b.addr_bits == a.addr_bits,
        b.arena@.len() == a.arena@.len(),
        forall|j: int| 0 <= j < a.arena@.len() ==> #[trigger] b.arena@[j]
            == (TrieNode { is_excluded: b.arena@[j].is_excluded, ..a.arena@[j] }),
    ensures
        b.wf(),
        b.counts_bounded(),
        a.settled() ==> b.settled(),
{
    if a.settled() {
        assert forall|k: int| #![trigger b.arena@[k]] b.valid(k) implies b.node(k).collapsed_cost_sum == 0
            && (b.node(k).is_leaf ==> b.node(k).coverage >= b.capacity_spec(k)) by {
            assert(b.arena@[k] == TrieNode { is_excluded: b.arena@[k].is_excluded, ..a.arena@[k] });
            assert(a.capacity_spec(k) == b.capacity_spec(k));
        }
        assert(b.arena@[b.root as int] == TrieNode { is_excluded: b.arena@[b.root as int].is_excluded, ..a.arena@[a.root as int] });
    }
    assert(crate::trie::same_shape(a.arena@, b.arena@)) by {
        assert forall|i: int| 0 <= i < a.arena@.len() implies {
            &&& (#[trigger] a.arena@[i]).children == b.arena@[i].children
            &&& a.arena@[i].parent == b.arena@[i].parent
            &&& a.arena@[i].depth == b.arena@[i].depth
            &&& a.arena@[i].skip_len == b.arena@[i].skip_len
            &&& a.arena@[i].skip_bits == b.arena@[i].skip_bits
            &&& a.arena@[i].is_leaf == b.arena@[i].is_leaf
        } by {
            assert(b.arena@[i] == TrieNode { is_excluded: b.arena@[i].is_excluded, ..a.arena@[i] });
        }
    }
    BinaryTrie::lemma_shape_wf(a, b);
    assert forall|i: int| b.valid(i) implies (#[trigger] b.node(i)).leaf_count <= b.desc(i).len() by {
        assert(b.arena@[i] == TrieNode { is_excluded: b.arena@[i].is_excluded, ..a.arena@[i] });
        assert(a.node(i).leaf_count <= a.desc(i).len());
    }
}

/// Marking exclusions on a ready trie keeps its leaf counts exact at every
/// node reached from the root, and small elsewhere.
proof fn lemma_marks_keep_live(a: BinaryTrie, b: BinaryTrie)
    requires
        a.ready(),
        crate::progress::unreached_small(a),
        b.root == a.root,
        b.addr_bits == a.addr_bits,
        b.arena@.len() == a.arena@.len(),
        forall|j: int| 0 <= j < a.arena@.len() ==> #[trigger] b.arena@[j]
            == (TrieNode { is_excluded: b.arena@[j].is_excluded, ..a.arena@[j] }),
    ensures
        crate::progress::live_counts_exact(b),
        crate::progress::unreached_small(b),
{
    lemma_marks_keep_ready(a, b);
    assert forall|j: int| #[trigger] crate::progress::live(b, j) implies b.node(j).leaf_count as int
        == crate::progress::count_of_children(b, j) by {
        BinaryTrie::lemma_shape_reach(a, b, a.root as int, j);
        assert(a.count_exact_at(j));
        assert(a.valid(j)) by {
            a.lemma_reach_anc(a.root as int, j);
        }
        assert(b.arena@[j] == TrieNode { is_excluded: b.arena@[j].is_excluded, ..a.arena@[j] });
        let c0 = a.node(j).children[0];
        let c1 = a.node(j).children[1];
        if c0 != INVALID && (c0 as int) < a.arena@.len() {
            assert(b.arena@[c0 as int] == TrieNode { is_excluded: b.arena@[c0 as int].is_excluded, ..a.arena@[c0 as int] });
        }
        if c1 != INVALID && (c1 as int) < a.arena@.len() {
            assert(b.arena@[c1 as int] == TrieNode { is_excluded: b.arena@[c1 as int].is_excluded, ..a.arena@[c1 as int] });
        }
        assert(crate::progress::count_of_children(b, j) == crate::progress::count_of_children(a, j));
    }
    assert forall|j: int| b.valid(j) && !crate::progress::live(b, j) implies #[trigger] b.node(j).leaf_count <= 1 by {
        BinaryTrie::lemma_shape_reach(a, b, a.root as int, j);
        assert(b.arena@[j] == TrieNode { is_excluded: b.arena@[j].is_excluded, ..a.arena@[j] });
    }
}

/// The over-coverage of the entries extracted from the leaves of a trie is at
/// most the over-coverage of the leaves themselves.
proof fn lemma_extracted_over(t: BinaryTrie, v: Seq<SourceMapPrefix>, n: int)
    requires
        t.wf(),
        v.len() == t.leaves_of(t.root as int).len(),
        forall|k: int| 0 <= k < v.len() ==> t.leaf_entry_ok(#[trigger] v[k], t.leaves_of(t.root as int)[k]),
        0 <= n <= v.len(),
    ensures
        over_total(v, t.addr_bits, n) <= leaves_gap(t, t.leaves_of(t.root as int), n),
    decreases n,
{
    if n > 0 {
        lemma_extracted_over(t, v, n - 1);
        let s = t.leaves_of(t.root as int);
        let j = s[n - 1] as int;
        t.lemma_leaves_valid(t.root as int);
        assert(t.valid(j));
        assert(t.leaf_entry_ok(v[n - 1], s[n - 1]));
        assert(t.arena@[j] == t.node(j));
        let e = v[n - 1];
        assert(e.prefix.len as int == t.plen(j));
        let w = t.addr_bits;
        vstd::arithmetic::power2::lemma2_to64();
        if e.prefix.len == 0 {
            assert(t.capacity_spec(j) == u128::MAX);
        } else if e.prefix.len == w {
            assert(host_bits(w, e.prefix.len) == 0);
            assert(t.capacity_spec(j) == 1);
        } else {
            assert(t.capacity_spec(j) == pow2(host_bits(w, e.prefix.len)));
        }
        assert(capacity_spec(w, e.prefix.len) <= t.capacity_spec(j));
    }
}

/// A prefix that a trie holds under a leaf reached from the root lies within
/// one of the entries extracted from the trie's leaves.
proof fn lemma_extracted_within(t: BinaryTrie, v: Seq<SourceMapPrefix>, p: Prefix)
    requires
        t.wf(),
        v.len() == t.leaves_of(t.root as int).len(),
        forall|k: int| 0 <= k < v.len() ==> t.leaf_entry_ok(#[trigger] v[k], t.leaves_of(t.root as int)[k]),
        p.wf(t.addr_bits),
        t.holds_key(key_of(p, t.addr_bits), p.len as int),
    ensures
        within_some(v, p, t.addr_bits),
{
    let a = choose|j: int| #[trigger] t.holds_key_at(j, key_of(p, t.addr_bits), p.len as int);
    assert(t.arena@[t.root as int] == t.node(t.root as int));
    t.lemma_reach_leaf_listed(t.root as int, a);
    let s = t.leaves_of(t.root as int);
    let k = choose|k: int| 0 <= k < s.len() && s[k] == a as NodeIdx;
    assert(t.leaf_entry_ok(v[k], s[k]));
    lemma_leaf_holds_prefix(t, a, p, v[k].prefix);
}

/// Every entry held by a trie stays held when exclusions are marked.
proof fn lemma_marks_keep_holds(a: BinaryTrie, b: BinaryTrie, s: Seq<SourceMapPrefix>, w: u8)
    requires
        b.root == a.root,
        b.addr_bits == a.addr_bits,
        b.arena@.len() == a.arena@.len(),
        forall|j: int| 0 <= j < a.arena@.len() ==> #[trigger] b.arena@[j]
            == (TrieNode { is_excluded: b.arena@[j].is_excluded, ..a.arena@[j] }),
        forall|i: int| 0 <= i < s.len() ==> a.holds_key(key_of(s[i].prefix, w), #[trigger] s[i].prefix.len as int),
    ensures
        forall|i: int| 0 <= i < s.len() ==> b.holds_key(key_of(s[i].prefix, w), #[trigger] s[i].prefix.len as int),
{
    assert(crate::trie::same_shape(a.arena@, b.arena@)) by {
        assert forall|i: int| 0 <= i < a.arena@.len() implies {
            &&& (#[trigger] a.arena@[i]).children == b.arena@[i].children
            &&& a.arena@[i].parent == b.arena@[i].parent
            &&& a.arena@[i].depth == b.arena@[i].depth
            &&& a.arena@[i].skip_len == b.arena@[i].skip_len
            &&& a.arena@[i].skip_bits == b.arena@[i].skip_bits
            &&& a.arena@[i].is_leaf == b.arena@[i].is_leaf
        } by {
            assert(b.arena@[i] == TrieNode { is_excluded: b.arena@[i].is_excluded, ..a.arena@[i] });
        }
    }
    assert forall|i: int| 0 <= i < s.len() implies b.holds_key(key_of(s[i].prefix, w), #[trigger] s[i].prefix.len as int) by {
        lemma_shape_holds(a, b, key_of(s[i].prefix, w), s[i].prefix.len as int);
    }
}

/// Address `x` of the family of width `w` is excluded.
pub open spec fn excluded_in(set: ExclusionSet, w: u8, x: int) -> bool {
    if w == 32 { set.excludes_v4(x) } else { set.excludes_v6(x) }
}

/// Every entry that holds an excluded address of its family adds no
/// over-coverage: the inputs cover all of it.
pub open spec fn exclusions_respected(s: Seq<SourceMapPrefix>, set: ExclusionSet, w: u8) -> bool {
    forall|k: int, x: int| #![trigger s[k].prefix.has(w, x), excluded_in(set, w, x)]
        0 <= k < s.len() && s[k].prefix.has(w, x) && excluded_in(set, w, x) ==> entry_over(s[k], w) == 0
}

/// Every leaf listed below node `i` is reached from `i`.
proof fn lemma_leaves_reach(t: BinaryTrie, i: int)
    requires
        t.wf(),
        t.valid(i),
    ensures
        forall|k: int| 0 <= k < t.leaves_of(i).len() ==> t.reach(i, #[trigger] t.leaves_of(i)[k] as int),
    decreases 256 - t.node(i).depth,
{
    assert(t.arena@[i] == t.node(i));
    let n = t.node(i);
    if !n.is_leaf {
        let c0 = n.children[0] as int;
        let c1 = n.children[1] as int;
        let l = if n.children[0] != INVALID && t.valid(c0) && t.node(c0).depth > n.depth { t.leaves_of(c0) } else { Seq::empty() };
        let r = if n.children[1] != INVALID && t.valid(c1) && t.node(c1).depth > n.depth { t.leaves_of(c1) } else { Seq::empty() };
        if n.children[0] != INVALID && t.valid(c0) && t.node(c0).depth > n.depth {
            lemma_leaves_reach(t, c0);
        }
        if n.children[1] != INVALID && t.valid(c1) && t.node(c1).depth > n.depth {
            lemma_leaves_reach(t, c1);
        }
        assert(t.leaves_of(i) == l + r);
        assert forall|k: int| 0 <= k < t.leaves_of(i).len() implies t.reach(i, #[trigger] t.leaves_of(i)[k] as int) by {
            if k < l.len() {
                assert(t.leaves_of(i)[k] == l[k]);
                assert(t.reach(c0, l[k] as int));
            } else {
                assert(t.leaves_of(i)[k] == r[k - l.len()]);
                assert(t.reach(c1, r[k - l.len()] as int));
            }
        }
    } else {
        assert(t.leaves_of(i) =~= seq![i as NodeIdx]);
    }
}

/// After exclusions are marked on a settled trie `b` (giving `m`) and nodes
/// of `m` were collapsed (giving `t`) with coverage kept and only nodes of at
/// least two leaves turned into leaves, every entry extracted from `t` that
/// holds an excluded address adds no over-coverage.
proof fn lemma_extracted_respects(b: BinaryTrie, m: BinaryTrie, t: BinaryTrie, set: ExclusionSet, is_v4: bool,
    v: Seq<SourceMapPrefix>)
    requires
        b.wf(),
        m.wf(),
        t.wf(),
        b.settled(),
        is_v4 == (b.addr_bits == 32),
        BinaryTrie::marked_from(b, m, set, is_v4),
        collapsed_from(m, t),
        forall|j: int| 0 <= j < m.arena@.len() ==> (#[trigger] t.arena@[j]).coverage == m.arena@[j].coverage,
        forall|j: int| 0 <= j < m.arena@.len() && (#[trigger] t.arena@[j]).is_leaf && !m.arena@[j].is_leaf
            ==> m.arena@[j].leaf_count >= 2,
        v.len() == t.leaves_of(t.root as int).len(),
        forall|k: int| 0 <= k < v.len() ==> t.leaf_entry_ok(#[trigger] v[k], t.leaves_of(t.root as int)[k]),
        forall|k: int| 0 <= k < v.len() ==> (#[trigger] v[k]).prefix.wf(t.addr_bits),
    ensures
        exclusions_respected(v, set, t.addr_bits),
{
    let w = t.addr_bits;
    t.lemma_leaves_valid(t.root as int);
    lemma_leaves_reach(t, t.root as int);
    law_collapses_avoid_exclusions(b, m, t, set, is_v4);
    assert(crate::trie_insert::same_links(m.arena@, b.arena@)) by {
        assert forall|i: int| 0 <= i < m.arena@.len() implies {
            &&& (#[trigger] m.arena@[i]).children == b.arena@[i].children
            &&& m.arena@[i].parent == b.arena@[i].parent
            &&& m.arena@[i].depth == b.arena@[i].depth
            &&& m.arena@[i].skip_len == b.arena@[i].skip_len
            &&& m.arena@[i].skip_bits == b.arena@[i].skip_bits
        } by {
            assert(m.arena@[i] == TrieNode { is_excluded: m.arena@[i].is_excluded, ..b.arena@[i] });
        }
    }
    assert forall|k: int, x: int| #![trigger v[k].prefix.has(w, x), excluded_in(set, w, x)]
        0 <= k < v.len() && v[k].prefix.has(w, x) && excluded_in(set, w, x) implies entry_over(v[k], w) == 0 by {
        let l = t.leaves_of(t.root as int)[k] as int;
        let e = v[k];
        assert(t.leaf_entry_ok(e, t.leaves_of(t.root as int)[k]));
        assert(t.valid(l) && t.node(l).is_leaf);
        assert(t.reach(t.root as int, l));
        assert(t.arena@[l] == t.node(l));
        assert(m.arena@[l] == m.node(l));
        assert(b.arena@[l] == b.node(l));
        let h = (w - t.plen(l)) as nat;
        lemma_pow2_pos(h);
        e.prefix.lemma_has_range(w, x);
        t.lemma_path_value_bound(l);
        vstd::arithmetic::div_mod::lemma_div_by_multiple(t.path_value(l), pow2(h) as int);
        assert(e.prefix.net(w) == t.node_start(l));
        t.lemma_node_range(l);
        assert(t.node_start(l) <= x <= t.node_end(l));
        set.lemma_excluded_reaches(x, t.node_start(l) as u128, t.node_end(l) as u128, is_v4);
        crate::trie_paths::lemma_collapsed_path(m, t, l);
        crate::trie_paths::lemma_links_path(m, b, l);
        assert(b.node_start(l) == t.node_start(l));
        assert(b.node_end(l) == t.node_end(l));
        assert(b.capacity_spec(l) == t.capacity_spec(l));
        assert(t.node(l).coverage == b.node(l).coverage);
        if !b.node(l).is_leaf {
            assert(m.arena@[l].leaf_count >= 2);
            assert(!b.blocks(set, is_v4, l));
        }
        assert(t.node(l).coverage >= t.capacity_spec(l));
        vstd::arithmetic::power2::lemma2_to64();
        if e.prefix.len == 0 {
            assert(t.capacity_spec(l) == u128::MAX);
        } else if e.prefix.len == w {
            assert(host_bits(w, e.prefix.len) == 0);
            assert(t.capacity_spec(l) == 1);
        } else {
            assert(t.capacity_spec(l) == pow2(host_bits(w, e.prefix.len)));
        }
        assert(capacity_spec(w, e.prefix.len) <= t.capacity_spec(l));
    }
}

/// One greedy run on `l`: `b` holds every entry of `l` (its leaf counts exact
/// along the root's subtree, no preferred address of its family), the
/// collapses of `steps` lead from `b` to `t`, each made while more than
/// `target` leaves remained, `v` lists the leaves of `t` in order, and the run
/// ended at the target, with every node that could still be collapsed
/// excluded, or at a node whose collapse would take the admitted
/// over-coverage past the budget.
pub open spec fn greedy_run(l: Seq<SourceMapPrefix>, w: u8, v: Seq<SourceMapPrefix>, target: int, budget: Option<u128>,
    input: u128, b: BinaryTrie, t: BinaryTrie, steps: Seq<(BinaryTrie, int)>, set: PreferredSet) -> bool {
    &&& b.wf()
    &&& b.addr_bits == w
    &&& live_counts_exact(b)
    &&& unreached_small(b)
    &&& no_overlap(set, b)
    &&& forall|i: int| 0 <= i < l.len() ==> b.holds_key(key_of(l[i].prefix, w), #[trigger] l[i].prefix.len as int)
    &&& steps_above(steps, target)
    &&& t.wf()
    &&& v.len() == t.leaves_of(t.root as int).len()
    &&& forall|k: int| 0 <= k < v.len() ==> t.leaf_entry_ok(#[trigger] v[k], t.leaves_of(t.root as int)[k])
    &&& v.len() <= target || stuck(t) || budget_stop(t, admitted(steps) as u128, budget, input, 0, None, set, true)
}

/// `v` is what the greedy optimizer makes of `l`: the leaves after a run of
/// collapses from a trie holding `l`, each collapse a greedy choice (least
/// added over-coverage per saved entry among the nodes that could be
/// collapsed) made while more than `target` leaves remained, ending at the
/// target, with nothing left to collapse but excluded nodes, or where the
/// next greedy collapse would break the over-coverage budget.
pub open spec fn greedy_result(l: Seq<SourceMapPrefix>, w: u8, v: Seq<SourceMapPrefix>, target: int, budget: Option<u128>,
    input: u128) -> bool {
    exists|b: BinaryTrie, t: BinaryTrie, steps: Seq<(BinaryTrie, int)>, set: PreferredSet|
        #[trigger] trace_ok(b, t, steps, set, true) && greedy_run(l, w, v, target, budget, input, b, t, steps, set)
}

/// `v` is what the greedy optimizer makes of the family's lossless entries
/// `l` with the given target, under the budget that `budget` answered for
/// the family (asked whether an over-coverage target set it) and some count
/// of covered addresses.
pub open spec fn family_greedy<F: Fn(AddressFamily, u128, bool) -> Option<u128>>(budget: F, af: AddressFamily,
    over_target: bool, l: Seq<SourceMapPrefix>, v: Seq<SourceMapPrefix>, target: int) -> bool {
    exists|bud: Option<u128>, input: u128| #[trigger] call_ensures(budget, (af, input, over_target), bud)
        && greedy_result(l, if af is IPv4 { 32u8 } else { 128u8 }, v, target, bud, input)
}

/// A budget stop does not depend on the non-preferred count when there is
/// no budget on it.
proof fn lemma_stop_np(t: BinaryTrie, over: u128, budget: Option<u128>, input: u128, np: u128, set: PreferredSet)
    requires
        budget_stop(t, over, budget, input, np, None, set, true),
    ensures
        budget_stop(t, over, budget, input, 0, None, set, true),
{
    let j = choose|j: int| #[trigger] collapsible(t, j) && (true ==> crate::optimizer::greedy_choice(t, set, j)) && (
        (budget is Some && input > 0 && over + crate::optimizer::net_new(t, j) > budget->0)
        || (None::<u128> is Some && input > 0 && np + crate::optimizer::net_new(t, j) > 0));
    assert(collapsible(t, j));
}

/// Builds the trie of the IPv4 entries, marks exclusions, runs the greedy
/// optimizer with the given budget, and returns the resulting leaves. Every
/// entry lies within one of the leaves; with a budget (and no entry of length
/// 0), the leaves' over-coverage stays within it; with no budget and no IPv4
/// exclusion, at most `target` leaves remain (or one). With no entry of
/// length 0, a leaf that holds an excluded address adds no over-coverage.
pub fn lossy_optimize_v4(
    lossless: &Vec<SourceMapPrefix>,
    target: usize,
    budget: Option<u128>,
    input_covered_ips: u128,
    exclusion_set: &ExclusionSet,
) -> (r: Result<Vec<SourceMapPrefix>, OptimizeError>)
    requires
        all_wf(lossless@, 32),
    ensures
        match r {
            Ok(v) => {
                &&& all_wf(v@, 32)
                &&& (forall|i: int| 0 <= i < lossless@.len() ==> (#[trigger] lossless@[i]).prefix.len >= 1)
                && budget is Some && budget->0 < u128::MAX && input_covered_ips > 0
                    ==> over_total(v@, 32, v@.len() as int) <= budget->0
                &&& lies_within(lossless@, v@, 32)
                &&& budget is None && (forall|x: int| !#[trigger] exclusion_set.excludes_v4(x))
                    ==> v@.len() <= target || v@.len() <= 1
                &&& (forall|i: int| 0 <= i < lossless@.len() ==> (#[trigger] lossless@[i]).prefix.len >= 1)
                    ==> exclusions_respected(v@, *exclusion_set, 32)
                &&& greedy_result(lossless@, 32, v@, target as int, budget, input_covered_ips)
            },
            Err(e) => e is ArenaOverflow && 2 * lossless@.len() + 1 >= u32::MAX,
        },
{
    let mut trie = match BinaryTrie::build_from_v4(lossless.as_slice()) {
        Ok(t) => t,
        Err(e) => {
            return Err(e);
        },
    };
    let ghost built = trie;
    let has_exclusions: bool = !exclusion_set.is_empty_v4();
    if has_exclusions {
        let ghost t0 = trie;
        trie.mark_exclusions(exclusion_set, true);
        proof {
            lemma_marks_keep_ready(t0, trie);
            lemma_marks_keep_holds(t0, trie, lossless@, 32);
            lemma_marks_keep_live(t0, trie);
        }
    }
    let no_entries: Vec<PreferredEntry> = Vec::new();
    let no_preferred = PreferredSet::build(no_entries.as_slice());
    proof {
        if no_preferred.all_v6() {
            no_preferred.lemma_all_v6_prefers_zero();
        }
    }
    proof {
        if trie.settled() {
            lemma_settled_clean(trie);
        }
    }
    let ghost before = trie;
    proof {
        if built == before {
            assert forall|j: int| #[trigger] crate::progress::live(before, j) implies before.node(j).leaf_count as int
                == crate::progress::count_of_children(before, j) by {
                assert(before.count_exact_at(j));
            }
        }
        assert(live_counts_exact(before) && unreached_small(before));
        assert(no_overlap(no_preferred, before));
    }
    let outcome = optimize_trie(&mut trie, target, budget, input_covered_ips, &no_preferred, None);
    let v = trie.extract_leaves_v4();
    proof {
        if budget_stop(trie, outcome.over_coverage, budget, input_covered_ips, outcome.non_preferred_over_coverage, None,
            no_preferred, true) {
            lemma_stop_np(trie, outcome.over_coverage, budget, input_covered_ips, outcome.non_preferred_over_coverage, no_preferred);
        }
        assert(greedy_run(lossless@, 32, v@, target as int, budget, input_covered_ips, before, trie, outcome.steps@, no_preferred));
        assert(trace_ok(before, trie, outcome.steps@, no_preferred, true));
    }
    proof {
        if has_exclusions {
            if built.settled() {
                lemma_extracted_respects(built, before, trie, *exclusion_set, true, v@);
            }
        } else {
            assert forall|k: int, x: int| #![trigger v@[k].prefix.has(32, x), excluded_in(*exclusion_set, 32, x)]
                0 <= k < v@.len() && v@[k].prefix.has(32, x) && excluded_in(*exclusion_set, 32, x)
                implies entry_over(v@[k], 32) == 0 by {
                assert(!exclusion_set.excludes_v4(x));
            }
        }
        lemma_extracted_over(trie, v@, v@.len() as int);
        lemma_gap_sum_leaves(trie, trie.root as int);
        assert forall|i: int| 0 <= i < lossless@.len() implies #[trigger] within_some(v@, lossless@[i].prefix, 32) by {
            assert(before.holds_key(key_of(lossless@[i].prefix, 32), lossless@[i].prefix.len as int));
            lemma_collapsed_holds(before, trie, key_of(lossless@[i].prefix, 32), lossless@[i].prefix.len as int);
            lemma_extracted_within(trie, v@, lossless@[i].prefix);
        }
    }
    Ok(v)
}

/// Builds the trie of the IPv6 entries, marks exclusions, runs the greedy
/// optimizer with the given budget, and returns the resulting leaves. The
/// whole space `::/0` is left out (its coverage cannot be counted). Every
/// entry lies within one of the leaves; with a budget, the leaves'
/// over-coverage stays within it; with no budget and no IPv6 exclusion, at
/// most `target` leaves remain (or one). A leaf that holds an excluded
/// address adds no over-coverage.
pub fn lossy_optimize_v6(
    lossless: &Vec<SourceMapPrefix>,
    target: usize,
    budget: Option<u128>,
    input_covered_ips: u128,
    exclusion_set: &ExclusionSet,
) -> (r: Result<Vec<SourceMapPrefix>, OptimizeError>)
    requires
        all_wf(lossless@, 128),
        forall|i: int| 0 <= i < lossless@.len() ==> (#[trigger] lossless@[i]).prefix.len >= 1,
    ensures
        match r {
            Ok(v) => {
                &&& all_wf(v@, 128)
                &&& budget is Some && budget->0 < u128::MAX && input_covered_ips > 0
                    ==> over_total(v@, 128, v@.len() as int) <= budget->0
                &&& lies_within(lossless@, v@, 128)
                &&& budget is None && (forall|x: int| !#[trigger] exclusion_set.excludes_v6(x))
                    ==> v@.len() <= target || v@.len() <= 1
                &&& exclusions_respected(v@, *exclusion_set, 128)
                &&& greedy_result(lossless@, 128, v@, target as int, budget, input_covered_ips)
            },
            Err(e) => e is ArenaOverflow && 2 * lossless@.len() + 1 >= u32::MAX,
        },
{
    let mut trie = match BinaryTrie::build_from_v6(lossless.as_slice()) {
        Ok(t) => t,
        Err(e) => {
            return Err(e);
        },
    };
    let ghost built = trie;
    let has_exclusions: bool = !exclusion_set.is_empty_v6();
    if has_exclusions {
        let ghost t0 = trie;
        trie.mark_exclusions(exclusion_set, false);
        proof {
            lemma_marks_keep_ready(t0, trie);
            lemma_marks_keep_holds(t0, trie, lossless@, 128);
            lemma_marks_keep_live(t0, trie);
        }
    }
    let no_entries: Vec<PreferredEntry> = Vec::new();
    let no_preferred = PreferredSet::build(no_entries.as_slice());
    proof {
        if no_preferred.all_v6() {
            no_preferred.lemma_all_v6_prefers_zero();
        }
    }
    proof {
        if trie.settled() {
            lemma_settled_clean(trie);
        }
    }
    let ghost before = trie;
    proof {
        if built == before {
            assert forall|j: int| #[trigger] crate::progress::live(before, j) implies before.node(j).leaf_count as int
                == crate::progress::count_of_children(before, j) by {
                assert(before.count_exact_at(j));
            }
        }
        assert(live_counts_exact(before) && unreached_small(before));
        assert(no_overlap(no_preferred, before));
    }
    let outcome = optimize_trie(&mut trie, target, budget, input_covered_ips, &no_preferred, None);
    let v = trie.extract_leaves_v6();
    proof {
        if budget_stop(trie, outcome.over_coverage, budget, input_covered_ips, outcome.non_preferred_over_coverage, None,
            no_preferred, true) {
            lemma_stop_np(trie, outcome.over_coverage, budget, input_covered_ips, outcome.non_preferred_over_coverage, no_preferred);
        }
        assert(greedy_run(lossless@, 128, v@, target as int, budget, input_covered_ips, before, trie, outcome.steps@, no_preferred));
        assert(trace_ok(before, trie, outcome.steps@, no_preferred, true));
    }
    proof {
        if has_exclusions {
            if built.settled() {
                lemma_extracted_respects(built, before, trie, *exclusion_set, false, v@);
            }
        } else {
            assert forall|k: int, x: int| #![trigger v@[k].prefix.has(128, x), excluded_in(*exclusion_set, 128, x)]
                0 <= k < v@.len() && v@[k].prefix.has(128, x) && excluded_in(*exclusion_set, 128, x)
                implies entry_over(v@[k], 128) == 0 by {
                assert(!exclusion_set.excludes_v6(x));
            }
        }
        lemma_extracted_over(trie, v@, v@.len() as int);
        lemma_gap_sum_leaves(trie, trie.root as int);
        assert forall|i: int| 0 <= i < lossless@.len() implies #[trigger] within_some(v@, lossless@[i].prefix, 128) by {
            assert(before.holds_key(key_of(lossless@[i].prefix, 128), lossless@[i].prefix.len as int));
            lemma_collapsed_holds(before, trie, key_of(lossless@[i].prefix, 128), lossless@[i].prefix.len as int);
            lemma_extracted_within(trie, v@, lossless@[i].prefix);
        }
    }
    Ok(v)
}

/// Among two or more disjoint prefixes, none is the whole space.
pub proof fn lemma_disjoint_not_whole(s: Seq<SourceMapPrefix>, w: u8)
    requires
        all_wf(s, w),
        pairwise_disjoint(s, w),
        s.len() >= 2,
    ensures
        forall|i: int| 0 <= i < s.len() ==> (#[trigger] s[i]).prefix.len >= 1,
{
    assert forall|i: int| 0 <= i < s.len() implies (#[trigger] s[i]).prefix.len >= 1 by {
        let j: int = if i == 0 { 1 } else { 0 };
        let a = s[i].prefix;
        let b = s[j].prefix;
        if a.len == 0 {
            b.lemma_has_bits(w);
            a.lemma_has_range(w, b.bits as int);
            a.lemma_has_bits(w);
            crate::prefix::lemma_div_pow2_small(a.bits as int, w as nat, w as nat);
            assert(a.net(w) == 0);
            assert(a.has(w, b.bits as int));
            assert(!(a.has(w, b.bits as int) && b.has(w, b.bits as int)));
        }
    }
}

// ---------------------------------------------------------------------------
// Output entries

/// The output entry for an aggregated prefix.
pub open spec fn entry_matches(a: AggregatedEntry, e: SourceMapPrefix, v4: bool) -> bool {
    &&& a.prefix == if v4 { IpPrefix::V4(e.prefix) } else { IpPrefix::V6(e.prefix) }
    &&& a.over_coverage == entry_over(e, if v4 { 32u8 } else { 128u8 })
    &&& a.exclusion_collisions is None
    &&& if e.source_indices@.len() == 0 {
        a.source_indices is None
    } else {
        a.source_indices matches Some(v) && v@ == e.source_indices@
    }
}

fn entry_of(e: SourceMapPrefix, v4: bool) -> (r: AggregatedEntry)
    requires
        e.prefix.wf(if v4 { 32u8 } else { 128u8 }),
    ensures
        entry_matches(r, e, v4),
{
    let w: u8 = if v4 { 32 } else { 128 };
    let cap = capacity_of(e.prefix.len, w);
    let over = cap.saturating_sub(e.coverage);
    let prefix = if v4 { IpPrefix::V4(e.prefix) } else { IpPrefix::V6(e.prefix) };
    let source_indices = if e.source_indices.len() == 0 { None } else { Some(e.source_indices) };
    AggregatedEntry { prefix, source_indices, over_coverage: over, exclusion_collisions: None }
}

/// The sum of the over-coverage of the IPv4 entries.
fn over_total_v4(out: &Vec<SourceMapPrefix>) -> (r: u128)
    requires
        all_wf(out@, 32),
    ensures
        r as int == over_total(out@, 32, out@.len() as int),
{
    let mut total: u128 = 0;
    let mut i: usize = 0;
    proof {
        lemma_pow2_128();
        vstd::arithmetic::power2::lemma2_to64();
    }
    while i < out.len()
        invariant
            all_wf(out@, 32),
            i <= out@.len(),
            total as int == over_total(out@, 32, i as int),
            total <= i * pow2(32),
            pow2(32) == 0x1_0000_0000,
        decreases out@.len() - i,
    {
        proof {
            lemma_capacity_v4_bound(out@[i as int].prefix.len);
            assert(i * pow2(32) + pow2(32) <= usize::MAX as int * 0x1_0000_0000 + 0x1_0000_0000) by (nonlinear_arith)
                requires i < usize::MAX, pow2(32) == 0x1_0000_0000;
            assert((i + 1) * pow2(32) == i * pow2(32) + pow2(32)) by (nonlinear_arith);
        }
        let cap = capacity_of(out[i].prefix.len, 32);
        total = total + cap.saturating_sub(out[i].coverage);
        i = i + 1;
    }
    total
}

/// The sum of the over-coverage of the IPv6 entries (saturating).
fn over_total_v6(out: &Vec<SourceMapPrefix>) -> (r: u128)
    requires
        all_wf(out@, 128),
    ensures
        r as int == saturated(over_total(out@, 128, out@.len() as int)),
{
    let mut total: u128 = 0;
    let mut i: usize = 0;
    while i < out.len()
        invariant
            all_wf(out@, 128),
            i <= out@.len(),
            total as int == saturated(over_total(out@, 128, i as int)),
        decreases out@.len() - i,
    {
        let cap = capacity_of(out[i].prefix.len, 128);
        total = total.saturating_add(cap.saturating_sub(out[i].coverage));
        i = i + 1;
    }
    total
}

/// The entries of `entries` are those of `v4` then those of `v6`, each mapped
/// to its output entry, family by family in order.
pub open spec fn entries_from(entries: Seq<AggregatedEntry>, v4: Seq<SourceMapPrefix>, v6: Seq<SourceMapPrefix>) -> bool {
    &&& entries.len() == v4.len() + v6.len()
    &&& forall|k: int| 0 <= k < v4.len() ==> entry_matches(#[trigger] entries[k], v4[k], true)
    &&& forall|k: int| 0 <= k < v6.len() ==> entry_matches(#[trigger] entries[v4.len() + k], v6[k], false)
}

/// The entries are those of a reordering of `o4` (sorted by address; the
/// same multiset) then of a reordering of `o6`, each mapped to its output entry.
pub open spec fn built_from(entries: Seq<AggregatedEntry>, o4: Seq<SourceMapPrefix>, o6: Seq<SourceMapPrefix>) -> bool {
    exists|s4: Seq<SourceMapPrefix>, s6: Seq<SourceMapPrefix>|
        #![trigger sorted_by_net(s4, 32), sorted_by_net(s6, 128)] {
        &&& s4.len() == o4.len()
        &&& s6.len() == o6.len()
        &&& sorted_by_net(s4, 32)
        &&& sorted_by_net(s6, 128)
        &&& forall|j: int| 0 <= j < s4.len() ==> o4.contains(#[trigger] s4[j])
        &&& forall|k: int| 0 <= k < o4.len() ==> s4.contains(#[trigger] o4[k])
        &&& forall|j: int| 0 <= j < s6.len() ==> o6.contains(#[trigger] s6[j])
        &&& forall|k: int| 0 <= k < o6.len() ==> s6.contains(#[trigger] o6[k])
        &&& s4.to_multiset() == o4.to_multiset()
        &&& s6.to_multiset() == o6.to_multiset()
        &&& entries_from(entries, s4, s6)
    }
}

/// Two prefixes of one family are the two halves of one prefix one bit shorter.
pub open spec fn ip_siblings(a: IpPrefix, b: IpPrefix) -> bool {
    match a {
        IpPrefix::V4(p) => match b {
            IpPrefix::V4(q) => siblings(p, q, 32),
            IpPrefix::V6(_) => false,
        },
        IpPrefix::V6(p) => match b {
            IpPrefix::V4(_) => false,
            IpPrefix::V6(q) => siblings(p, q, 128),
        },
    }
}

/// No two output entries of the family (IPv4 when `v4`) are siblings.
#[verifier::opaque]
pub open spec fn family_no_siblings(e: Seq<AggregatedEntry>, v4: bool) -> bool {
    forall|i: int, j: int| 0 <= i < e.len() && 0 <= j < e.len() && i != j && (e[i].prefix is V4) == v4
        ==> !ip_siblings(#[trigger] e[i].prefix, #[trigger] e[j].prefix)
}

/// Two prefixes of one family share no address (prefixes of different
/// families never do).
pub open spec fn ip_disjoint(a: IpPrefix, b: IpPrefix) -> bool {
    match a {
        IpPrefix::V4(p) => match b {
            IpPrefix::V4(q) => p.disjoint(32, q),
            IpPrefix::V6(_) => true,
        },
        IpPrefix::V6(p) => match b {
            IpPrefix::V4(_) => true,
            IpPrefix::V6(q) => p.disjoint(128, q),
        },
    }
}

/// The family's output entries are pairwise disjoint and add no address
/// beyond what they cover.
#[verifier::opaque]
pub open spec fn family_exact(e: Seq<AggregatedEntry>, v4: bool) -> bool {
    &&& forall|k: int| 0 <= k < e.len() && (e[k].prefix is V4) == v4 ==> #[trigger] e[k].over_coverage == 0
    &&& forall|i: int, j: int| 0 <= i < e.len() && 0 <= j < e.len() && i != j && (e[i].prefix is V4) == v4
        ==> ip_disjoint(#[trigger] e[i].prefix, #[trigger] e[j].prefix)
}

/// Prefix `p` holds address `x`, which an exclusion entry of its family holds too.
pub open spec fn holds_excluded(p: IpPrefix, excl: Seq<ExclusionEntry>, x: int) -> bool {
    match p {
        IpPrefix::V4(q) => q.has(32, x) && crate::exclusion::entries_have_v4(excl, x),
        IpPrefix::V6(q) => q.has(128, x) && crate::exclusion::entries_have_v6(excl, x),
    }
}

/// Every output entry that holds an address of an exclusion entry adds no
/// over-coverage: the inputs cover all of its addresses.
#[verifier::opaque]
pub open spec fn exclusions_kept_out(e: Seq<AggregatedEntry>, excl: Seq<ExclusionEntry>) -> bool {
    forall|k: int, x: int| 0 <= k < e.len() && #[trigger] holds_excluded(e[k].prefix, excl, x) ==> e[k].over_coverage == 0
}

/// Fully covered entries add no over-coverage anywhere.
proof fn lemma_full_respects(s: Seq<SourceMapPrefix>, set: ExclusionSet, w: u8)
    requires
        full_coverage(s, w),
    ensures
        exclusions_respected(s, set, w),
{
    assert forall|k: int, x: int| #![trigger s[k].prefix.has(w, x), excluded_in(set, w, x)]
        0 <= k < s.len() && s[k].prefix.has(w, x) && excluded_in(set, w, x) implies entry_over(s[k], w) == 0 by {
        assert(s[k].coverage as int == capacity_spec(w, s[k].prefix.len));
    }
}

/// Output entries built from outputs that keep out of the exclusions keep
/// out of them too.
proof fn lemma_family_respects(e0: Seq<AggregatedEntry>, e2: Seq<AggregatedEntry>, o4: Seq<SourceMapPrefix>,
    o6: Seq<SourceMapPrefix>, set: ExclusionSet, excl: Seq<ExclusionEntry>)
    requires
        built_from(e0, o4, o6),
        e2.len() == e0.len(),
        forall|k: int| 0 <= k < e2.len() ==> (#[trigger] e2[k]).prefix == e0[k].prefix && e2[k].over_coverage == e0[k].over_coverage,
        exclusions_respected(o4, set, 32),
        exclusions_respected(o6, set, 128),
        forall|x: int| #[trigger] set.excludes_v4(x) <==> crate::exclusion::entries_have_v4(excl, x),
        forall|x: int| #[trigger] set.excludes_v6(x) <==> crate::exclusion::entries_have_v6(excl, x),
    ensures
        exclusions_kept_out(e2, excl),
{
    reveal(exclusions_kept_out);
    let (s4, s6) = choose|s4: Seq<SourceMapPrefix>, s6: Seq<SourceMapPrefix>| {
        &&& s4.len() == o4.len()
        &&& s6.len() == o6.len()
        &&& sorted_by_net(s4, 32)
        &&& sorted_by_net(s6, 128)
        &&& forall|j: int| 0 <= j < s4.len() ==> o4.contains(#[trigger] s4[j])
        &&& forall|k: int| 0 <= k < o4.len() ==> s4.contains(#[trigger] o4[k])
        &&& forall|j: int| 0 <= j < s6.len() ==> o6.contains(#[trigger] s6[j])
        &&& forall|k: int| 0 <= k < o6.len() ==> s6.contains(#[trigger] o6[k])
        &&& s4.to_multiset() == o4.to_multiset()
        &&& s6.to_multiset() == o6.to_multiset()
        &&& entries_from(e0, s4, s6)
    };
    let n4 = s4.len() as int;
    assert forall|k: int, x: int| 0 <= k < e2.len() && #[trigger] holds_excluded(e2[k].prefix, excl, x)
        implies e2[k].over_coverage == 0 by {
        assert(e2[k].prefix == e0[k].prefix);
        if k < n4 {
            assert(entry_matches(e0[k], s4[k], true));
            assert(o4.contains(s4[k]));
            let j = choose|j: int| 0 <= j < o4.len() && o4[j] == s4[k];
            assert(o4[j].prefix.has(32, x) && excluded_in(set, 32, x));
        } else {
            assert(entry_matches(e0[n4 + (k - n4)], s6[k - n4], false));
            assert(o6.contains(s6[k - n4]));
            let j = choose|j: int| 0 <= j < o6.len() && o6[j] == s6[k - n4];
            assert(o6[j].prefix.has(128, x) && excluded_in(set, 128, x));
        }
    }
}

/// Two positions of a reordering of pairwise disjoint entries hold disjoint prefixes.
proof fn lemma_disjoint_from(s: Seq<SourceMapPrefix>, o: Seq<SourceMapPrefix>, i: int, j: int, w: u8)
    requires
        s.to_multiset() == o.to_multiset(),
        pairwise_disjoint(o, w),
        all_wf(o, w),
        forall|k: int| 0 <= k < s.len() ==> o.contains(#[trigger] s[k]),
        0 <= i < s.len(),
        0 <= j < s.len(),
        i != j,
    ensures
        s[i].prefix.disjoint(w, s[j].prefix),
{
    assert(o.contains(s[i]));
    assert(o.contains(s[j]));
    if s[i] == s[j] {
        crate::sort::lemma_count_two(s, i, j);
        crate::sort::lemma_two_positions(o, s[i]);
        let (a, b) = choose|a: int, b: int| 0 <= a < o.len() && 0 <= b < o.len() && a != b && o[a] == s[i] && o[b] == s[i];
        assert(o[a].prefix.disjoint(w, o[b].prefix));
        o[a].prefix.lemma_has_range(w, o[a].prefix.net(w));
        vstd::arithmetic::power2::lemma_pow2_pos(o[a].prefix.host(w));
        assert(o[a].prefix.has(w, o[a].prefix.net(w)));
    } else {
        let a = choose|a: int| 0 <= a < o.len() && o[a] == s[i];
        let b = choose|b: int| 0 <= b < o.len() && o[b] == s[j];
        assert(a != b);
    }
}

/// Entries built from fully covered family entries report no over-coverage.
proof fn lemma_family_exact(e0: Seq<AggregatedEntry>, e2: Seq<AggregatedEntry>, o4: Seq<SourceMapPrefix>,
    o6: Seq<SourceMapPrefix>, v4: bool)
    requires
        built_from(e0, o4, o6),
        e2.len() == e0.len(),
        forall|k: int| 0 <= k < e2.len() ==> (#[trigger] e2[k]).prefix == e0[k].prefix && e2[k].over_coverage == e0[k].over_coverage,
        v4 ==> full_coverage(o4, 32) && pairwise_disjoint(o4, 32) && all_wf(o4, 32),
        !v4 ==> full_coverage(o6, 128) && pairwise_disjoint(o6, 128) && all_wf(o6, 128),
    ensures
        family_exact(e2, v4),
{
    reveal(family_exact);
    let (s4, s6) = choose|s4: Seq<SourceMapPrefix>, s6: Seq<SourceMapPrefix>| {
        &&& s4.len() == o4.len()
        &&& s6.len() == o6.len()
        &&& sorted_by_net(s4, 32)
        &&& sorted_by_net(s6, 128)
        &&& forall|j: int| 0 <= j < s4.len() ==> o4.contains(#[trigger] s4[j])
        &&& forall|k: int| 0 <= k < o4.len() ==> s4.contains(#[trigger] o4[k])
        &&& forall|j: int| 0 <= j < s6.len() ==> o6.contains(#[trigger] s6[j])
        &&& forall|k: int| 0 <= k < o6.len() ==> s6.contains(#[trigger] o6[k])
        &&& s4.to_multiset() == o4.to_multiset()
        &&& s6.to_multiset() == o6.to_multiset()
        &&& entries_from(e0, s4, s6)
    };
    let n4 = s4.len() as int;
    assert forall|i: int, j: int| 0 <= i < e2.len() && 0 <= j < e2.len() && i != j && (e2[i].prefix is V4) == v4
        implies ip_disjoint(#[trigger] e2[i].prefix, #[trigger] e2[j].prefix) by {
        assert(e2[i].prefix == e0[i].prefix);
        assert(e2[j].prefix == e0[j].prefix);
        if i < n4 {
            assert(entry_matches(e0[i], s4[i], true));
        } else {
            assert(entry_matches(e0[n4 + (i - n4)], s6[i - n4], false));
        }
        if j < n4 {
            assert(entry_matches(e0[j], s4[j], true));
        } else {
            assert(entry_matches(e0[n4 + (j - n4)], s6[j - n4], false));
        }
        if v4 && j < n4 {
            lemma_disjoint_from(s4, o4, i, j, 32);
        } else if !v4 && j >= n4 {
            lemma_disjoint_from(s6, o6, i - n4, j - n4, 128);
        }
    }
    assert forall|k: int| 0 <= k < e2.len() && (e2[k].prefix is V4) == v4 implies #[trigger] e2[k].over_coverage == 0 by {
        if k < n4 {
            assert(entry_matches(e0[k], s4[k], true));
            if v4 {
                assert(o4.contains(s4[k]));
                let a = choose|a: int| 0 <= a < o4.len() && o4[a] == s4[k];
                assert(o4[a].coverage as int == capacity_spec(32, o4[a].prefix.len));
            }
        } else {
            assert(entry_matches(e0[n4 + (k - n4)], s6[k - n4], false));
            if !v4 {
                assert(o6.contains(s6[k - n4]));
                let a = choose|a: int| 0 <= a < o6.len() && o6[a] == s6[k - n4];
                assert(o6[a].coverage as int == capacity_spec(128, o6[a].prefix.len));
            }
        }
    }
}

/// Entries built from a family output without siblings have none either.
proof fn lemma_family_no_siblings(e0: Seq<AggregatedEntry>, e2: Seq<AggregatedEntry>, o4: Seq<SourceMapPrefix>,
    o6: Seq<SourceMapPrefix>, v4: bool)
    requires
        built_from(e0, o4, o6),
        e2.len() == e0.len(),
        forall|k: int| 0 <= k < e2.len() ==> (#[trigger] e2[k]).prefix == e0[k].prefix,
        v4 ==> no_siblings(o4, 32),
        !v4 ==> no_siblings(o6, 128),
    ensures
        family_no_siblings(e2, v4),
{
    reveal(family_no_siblings);
    let (s4, s6) = choose|s4: Seq<SourceMapPrefix>, s6: Seq<SourceMapPrefix>| {
        &&& s4.len() == o4.len()
        &&& s6.len() == o6.len()
        &&& sorted_by_net(s4, 32)
        &&& sorted_by_net(s6, 128)
        &&& forall|j: int| 0 <= j < s4.len() ==> o4.contains(#[trigger] s4[j])
        &&& forall|k: int| 0 <= k < o4.len() ==> s4.contains(#[trigger] o4[k])
        &&& forall|j: int| 0 <= j < s6.len() ==> o6.contains(#[trigger] s6[j])
        &&& forall|k: int| 0 <= k < o6.len() ==> s6.contains(#[trigger] o6[k])
        &&& entries_from(e0, s4, s6)
    };
    let n4 = s4.len() as int;
    assert forall|i: int, j: int| 0 <= i < e2.len() && 0 <= j < e2.len() && i != j && (e2[i].prefix is V4) == v4
        implies !ip_siblings(#[trigger] e2[i].prefix, #[trigger] e2[j].prefix) by {
        assert(e2[i].prefix == e0[i].prefix);
        assert(e2[j].prefix == e0[j].prefix);
        if i < n4 {
            assert(entry_matches(e0[i], s4[i], true));
        } else {
            assert(entry_matches(e0[n4 + (i - n4)], s6[i - n4], false));
        }
        if j < n4 {
            assert(entry_matches(e0[j], s4[j], true));
        } else {
            assert(entry_matches(e0[n4 + (j - n4)], s6[j - n4], false));
        }
        if ip_siblings(e2[i].prefix, e2[j].prefix) {
            if v4 {
                assert(i < n4 && j < n4);
                assert(o4.contains(s4[i]));
                assert(o4.contains(s4[j]));
                let a = choose|a: int| 0 <= a < o4.len() && o4[a] == s4[i];
                let b = choose|b: int| 0 <= b < o4.len() && o4[b] == s4[j];
                assert(siblings(o4[a].prefix, o4[b].prefix, 32));
                assert(a != b);
            } else {
                assert(i >= n4 && j >= n4);
                assert(o6.contains(s6[i - n4]));
                assert(o6.contains(s6[j - n4]));
                let a = choose|a: int| 0 <= a < o6.len() && o6[a] == s6[i - n4];
                let b = choose|b: int| 0 <= b < o6.len() && o6[b] == s6[j - n4];
                assert(siblings(o6[a].prefix, o6[b].prefix, 128));
                assert(a != b);
            }
        }
    }
}

/// Builds the output entries, IPv4 first then IPv6, each family in ascending
/// (network address, prefix length) order, with the over-coverage of each
/// entry and the totals and counts of the statistics.
pub fn build_result(
    output_v4: Vec<SourceMapPrefix>,
    output_v6: Vec<SourceMapPrefix>,
    input_ipv4_count: usize,
    input_ipv6_count: usize,
    ipv4_target_binding: bool,
    ipv6_target_binding: bool,
    ipv4_exclusion_constrained: bool,
    ipv6_exclusion_constrained: bool,
) -> (r: Result<OptimizationResult, OptimizeError>)
    requires
        all_wf(output_v4@, 32),
        all_wf(output_v6@, 128),
    ensures
        r is Ok,
        built_from(r->Ok_0.entries@, output_v4@, output_v6@),
        ({
            let st = r->Ok_0.stats;
            &&& st.input_ipv4_count == input_ipv4_count
            &&& st.input_ipv6_count == input_ipv6_count
            &&& st.output_ipv4_count == output_v4@.len()
            &&& st.output_ipv6_count == output_v6@.len()
            &&& st.total_ipv4_over_coverage == over_total(output_v4@, 32, output_v4@.len() as int)
            &&& st.total_ipv6_over_coverage == saturated(over_total(output_v6@, 128, output_v6@.len() as int))
            &&& st.ipv4_target_binding == ipv4_target_binding
            &&& st.ipv6_target_binding == ipv6_target_binding
            &&& st.ipv4_exclusion_constrained == ipv4_exclusion_constrained
            &&& st.ipv6_exclusion_constrained == ipv6_exclusion_constrained
        }),
{
    let output_ipv4_count = output_v4.len();
    let output_ipv6_count = output_v6.len();
    let total_ipv4_over_coverage = over_total_v4(&output_v4);
    let total_ipv6_over_coverage = over_total_v6(&output_v6);
    let ghost o4 = output_v4@;
    let ghost o6 = output_v6@;
    let sorted_v4 = sort_by_network(output_v4, 32);
    let sorted_v6 = sort_by_network(output_v6, 128);
    let ghost s4 = sorted_v4@;
    let ghost s6 = sorted_v6@;
    proof {
        assert forall|j: int| 0 <= j < s4.len() implies (#[trigger] s4[j]).prefix.wf(32) by {
            assert(o4.contains(s4[j]));
        }
        assert forall|j: int| 0 <= j < s6.len() implies (#[trigger] s6[j]).prefix.wf(128) by {
            assert(o6.contains(s6[j]));
        }
    }
    let mut entries: Vec<AggregatedEntry> = Vec::new();
    let mut sorted_v4 = sorted_v4;
    let mut rest4: Vec<SourceMapPrefix> = Vec::new();
    // Move the entries out in order (last first, then reverse the places).
    let mut v4_rev = crate::lossless::reversed(sorted_v4);
    let mut i: usize = 0;
    let n4 = v4_rev.len();
    while v4_rev.len() > 0
        invariant
            v4_rev@.len() + entries@.len() == n4,
            n4 == s4.len(),
            forall|j: int| 0 <= j < s4.len() ==> (#[trigger] s4[j]).prefix.wf(32),
            forall|k: int| 0 <= k < v4_rev@.len() ==> #[trigger] v4_rev@[k] == s4[n4 - 1 - k],
            forall|k: int| 0 <= k < entries@.len() ==> entry_matches(#[trigger] entries@[k], s4[k], true),
        decreases v4_rev@.len(),
    {
        let e = v4_rev.pop().unwrap();
        proof {
            assert(e == s4[entries@.len() as int]);
        }
        entries.push(entry_of(e, true));
    }
    let mut v6_rev = crate::lossless::reversed(sorted_v6);
    let n6 = v6_rev.len();
    while v6_rev.len() > 0
        invariant
            v6_rev@.len() + entries@.len() == n4 + n6,
            n4 == s4.len(),
            n6 == s6.len(),
            entries@.len() >= n4,
            forall|j: int| 0 <= j < s6.len() ==> (#[trigger] s6[j]).prefix.wf(128),
            forall|k: int| 0 <= k < v6_rev@.len() ==> #[trigger] v6_rev@[k] == s6[n6 - 1 - k],
            forall|k: int| 0 <= k < n4 ==> entry_matches(#[trigger] entries@[k], s4[k], true),
            forall|k: int| 0 <= k < entries@.len() - n4 ==> entry_matches(#[trigger] entries@[n4 + k], s6[k], false),
        decreases v6_rev@.len(),
    {
        let e = v6_rev.pop().unwrap();
        proof {
            assert(e == s6[entries@.len() - n4]);
        }
        entries.push(entry_of(e, false));
    }
    let stats = OptimizationStats {
        input_ipv4_count,
        input_ipv6_count,
        output_ipv4_count,
        output_ipv6_count,
        total_ipv4_over_coverage,
        total_ipv6_over_coverage,
        ipv4_target_binding,
        ipv6_target_binding,
        ipv4_exclusion_constrained,
        ipv6_exclusion_constrained,
    };
    let res = OptimizationResult { entries, stats };
    proof {
        assert(entries_from(res.entries@, s4, s6));
        assert(s4.len() == o4.len());
        assert(s6.len() == o6.len());
        assert(sorted_by_net(s4, 32));
        assert(sorted_by_net(s6, 128));
        assert(forall|j: int| 0 <= j < s4.len() ==> o4.contains(#[trigger] s4[j]));
        assert(forall|k: int| 0 <= k < o4.len() ==> s4.contains(#[trigger] o4[k]));
        assert(forall|j: int| 0 <= j < s6.len() ==> o6.contains(#[trigger] s6[j]));
        assert(forall|k: int| 0 <= k < o6.len() ==> s6.contains(#[trigger] o6[k]));
    }
    Ok(res)
}

// ---------------------------------------------------------------------------
// Coverage check

/// The first and last address of a prefix of its family.
pub open spec fn interval_of(p: IpPrefix) -> (int, int) {
    match p {
        IpPrefix::V4(q) => (q.net(32), q.net(32) + q.size(32) - 1),
        IpPrefix::V6(q) => (q.net(128), q.net(128) + q.size(128) - 1),
    }
}

/// `outer` is of the same family as `inner` and its range holds `inner`'s.
pub open spec fn ip_covers(outer: IpPrefix, inner: IpPrefix) -> bool {
    &&& (outer is V4) == (inner is V4)
    &&& interval_of(outer).0 <= interval_of(inner).0
    &&& interval_of(inner).1 <= interval_of(outer).1
}

/// The (start, end) interval of a prefix, inclusive.
pub fn prefix_to_interval(prefix: &IpPrefix) -> (r: (u128, u128))
    requires
        prefix.wf(),
    ensures
        r.0 as int == interval_of(*prefix).0,
        r.1 as int == interval_of(*prefix).1,
{
    match prefix {
        IpPrefix::V4(p) => (network(*p, 32), last_address(*p, 32)),
        IpPrefix::V6(p) => (network(*p, 128), last_address(*p, 128)),
    }
}

/// The prefixes are well-formed and in ascending order of network address.
pub open spec fn sorted_prefixes(s: Seq<Prefix>, w: u8) -> bool {
    &&& forall|i: int| 0 <= i < s.len() ==> (#[trigger] s[i]).wf(w)
    &&& forall|a: int, b: int| 0 <= a <= b < s.len() ==> (#[trigger] s[a]).net(w) <= (#[trigger] s[b]).net(w)
}

/// Whether some prefix of the sorted list holds all of `needle`'s addresses:
/// binary search for the last prefix starting at or before it, then scan
/// backwards over the prefixes starting at or before it.
fn is_covered(needle: Prefix, sorted: &Vec<Prefix>, w: u8) -> (r: bool)
    requires
        crate::prefix::valid_width(w),
        needle.wf(w),
        sorted_prefixes(sorted@, w),
    ensures
        r <==> exists|k: int| 0 <= k < sorted@.len() && (#[trigger] sorted@[k]).net(w) <= needle.net(w)
            && needle.net(w) + needle.size(w) <= sorted@[k].net(w) + sorted@[k].size(w),
{
    let needle_net = network(needle, w);
    let needle_bcast = last_address(needle, w);
    // The number of prefixes whose network is at or before the needle's.
    let mut lo: usize = 0;
    let mut hi: usize = sorted.len();
    while lo < hi
        invariant
            sorted_prefixes(sorted@, w),
            crate::prefix::valid_width(w),
            lo <= hi <= sorted@.len(),
            needle_net as int == needle.net(w),
            forall|j: int| 0 <= j < lo ==> (#[trigger] sorted@[j]).net(w) <= needle.net(w),
            forall|j: int| hi <= j < sorted@.len() ==> (#[trigger] sorted@[j]).net(w) > needle.net(w),
        decreases hi - lo,
    {
        let mid: usize = lo + (hi - lo) / 2;
        if network(sorted[mid], w) <= needle_net {
            lo = mid + 1;
        } else {
            hi = mid;
        }
    }
    let ghost top = lo as int;
    let mut i: usize = lo;
    while i > 0
        invariant
            sorted_prefixes(sorted@, w),
            crate::prefix::valid_width(w),
            i <= top <= sorted@.len(),
            needle_net as int == needle.net(w),
            needle_bcast as int == needle.net(w) + needle.size(w) - 1,
            forall|j: int| top <= j < sorted@.len() ==> (#[trigger] sorted@[j]).net(w) > needle.net(w),
            forall|j: int| i <= j < top ==> !((#[trigger] sorted@[j]).net(w) <= needle.net(w)
                && needle.net(w) + needle.size(w) <= sorted@[j].net(w) + sorted@[j].size(w)),
        decreases i,
    {
        let p = sorted[i - 1];
        let p_net = network(p, w);
        let p_bcast = last_address(p, w);
        if p_net <= needle_net && p_bcast >= needle_bcast {
            proof {
                let k = i - 1;
                assert(sorted@[k as int] == p);
            }
            return true;
        }
        i = i - 1;
    }
    false
}

/// Sorts prefixes by (network address, prefix length).
fn sort_prefixes(v: Vec<Prefix>, w: u8) -> (r: Vec<Prefix>)
    requires
        crate::prefix::valid_width(w),
        forall|i: int| 0 <= i < v@.len() ==> (#[trigger] v@[i]).wf(w),
    ensures
        sorted_prefixes(r@, w),
        r@.len() == v@.len(),
        forall|j: int| 0 <= j < r@.len() ==> v@.contains(#[trigger] r@[j]),
        forall|k: int| 0 <= k < v@.len() ==> r@.contains(#[trigger] v@[k]),
{
    let mut keys: Vec<SortKey> = Vec::new();
    let mut i: usize = 0;
    while i < v.len()
        invariant
            crate::prefix::valid_width(w),
            forall|i: int| 0 <= i < v@.len() ==> (#[trigger] v@[i]).wf(w),
            i <= v@.len(),
            keys@.len() == i,
            forall|k: int| 0 <= k < i ==> #[trigger] keys@[k] == (v@[k].net(w) as u128, v@[k].len as u128, k as usize),
        decreases v@.len() - i,
    {
        let n = network(v[i], w);
        keys.push((n, v[i].len as u128, i));
        i = i + 1;
    }
    let sorted = sort_keys(&keys);
    proof {
        assert(numbered(keys@));
        lemma_sorted_numbered_is_order(keys@, sorted@);
    }
    let ghost orig = v@;
    let r = apply_order(v, &sorted);
    proof {
        assert forall|a: int, b: int| 0 <= a <= b < r@.len() implies (#[trigger] r@[a]).net(w) <= (#[trigger] r@[b]).net(w) by {
            if a < b {
                assert(key_le(sorted@[a], sorted@[b]));
            }
            assert(sorted@[a] == keys@[sorted@[a].2 as int]);
            assert(sorted@[b] == keys@[sorted@[b].2 as int]);
            orig[sorted@[a].2 as int].lemma_has_bits(w);
            orig[sorted@[b].2 as int].lemma_has_bits(w);
            lemma_pow2_le(w as nat, 128);
            lemma_pow2_128();
        }
        assert forall|j: int| 0 <= j < r@.len() implies orig.contains(#[trigger] r@[j]) by {
            assert(r@[j] == orig[sorted@[j].2 as int]);
        }
        assert forall|k: int| 0 <= k < orig.len() implies r@.contains(#[trigger] orig[k]) by {
            assert(crate::sort::listed(sorted@, k));
            let j = choose|j: int| 0 <= j < sorted@.len() && sorted@[j].2 == k;
            assert(r@[j] == orig[k]);
        }
    }
    r
}

/// The first `n` inputs lie within some output prefix of their family.
pub open spec fn covered_upto(input: Seq<IpPrefix>, output: Seq<AggregatedEntry>, n: int) -> bool {
    forall|i: int| #![trigger input[i]] 0 <= i < n ==>
        exists|k: int| 0 <= k < output.len() && ip_covers(#[trigger] output[k].prefix, input[i])
}

proof fn lemma_covered_step(input: Seq<IpPrefix>, output: Seq<AggregatedEntry>, n: int, m: int)
    requires
        covered_upto(input, output, n),
        0 <= m < output.len(),
        ip_covers(output[m].prefix, input[n]),
    ensures
        covered_upto(input, output, n + 1),
{
    assert forall|i: int| #![trigger input[i]] 0 <= i < n + 1 implies
        exists|k: int| 0 <= k < output.len() && ip_covers(#[trigger] output[k].prefix, input[i]) by {
        if i == n {
            assert(ip_covers(output[m].prefix, input[i]));
        }
    }
}

/// Verify that every input prefix is contained by at least one output prefix
/// (binary search over each family's output sorted by address).
pub fn validate_coverage(input: &Vec<IpPrefix>, output: &Vec<AggregatedEntry>) -> (r: bool)
    requires
        forall|i: int| 0 <= i < input@.len() ==> (#[trigger] input@[i]).wf(),
        forall|k: int| 0 <= k < output@.len() ==> (#[trigger] output@[k]).prefix.wf(),
    ensures
        r <==> covered_upto(input@, output@, input@.len() as int),
{
    if output.len() == 0 {
        proof {
            if input@.len() > 0 {
                let x = input@[0];
                assert(!covered_upto(input@, output@, input@.len() as int));
            }
        }
        return input.len() == 0;
    }
    // Each family's output prefixes, sorted by address.
    let mut v4: Vec<Prefix> = Vec::new();
    let mut v6: Vec<Prefix> = Vec::new();
    let ghost mut src4: Seq<int> = Seq::empty();
    let ghost mut src6: Seq<int> = Seq::empty();
    let mut k: usize = 0;
    while k < output.len()
        invariant
            forall|k: int| 0 <= k < output@.len() ==> (#[trigger] output@[k]).prefix.wf(),
            k <= output@.len(),
            src4.len() == v4@.len(),
            src6.len() == v6@.len(),
            forall|j: int| 0 <= j < v4@.len() ==> 0 <= #[trigger] src4[j] < output@.len()
                && output@[src4[j]].prefix == IpPrefix::V4(v4@[j]) && v4@[j].wf(32),
            forall|j: int| 0 <= j < v6@.len() ==> 0 <= #[trigger] src6[j] < output@.len()
                && output@[src6[j]].prefix == IpPrefix::V6(v6@[j]) && v6@[j].wf(128),
            forall|m: int| 0 <= m < k ==> match (#[trigger] output@[m]).prefix {
                IpPrefix::V4(q) => v4@.contains(q),
                IpPrefix::V6(q) => v6@.contains(q),
            },
        decreases output@.len() - k,
    {
        match output[k].prefix {
            IpPrefix::V4(p) => {
                let ghost old4 = v4@;
                v4.push(p);
                proof {
                    src4 = src4.push(k as int);
                    assert(v4@[v4@.len() - 1] == p);
                    assert forall|q: Prefix| old4.contains(q) implies v4@.contains(q) by {
                        let j = choose|j: int| 0 <= j < old4.len() && old4[j] == q;
                        assert(v4@[j] == q);
                    }
                }
            },
            IpPrefix::V6(p) => {
                let ghost old6 = v6@;
                v6.push(p);
                proof {
                    src6 = src6.push(k as int);
                    assert(v6@[v6@.len() - 1] == p);
                    assert forall|q: Prefix| old6.contains(q) implies v6@.contains(q) by {
                        let j = choose|j: int| 0 <= j < old6.len() && old6[j] == q;
                        assert(v6@[j] == q);
                    }
                }
            },
        }
        k = k + 1;
    }
    let ghost u4 = v4@;
    let ghost u6 = v6@;
    proof {
        assert forall|i: int| 0 <= i < v4@.len() implies (#[trigger] v4@[i]).wf(32) by {
            assert(0 <= src4[i] < output@.len());
        }
        assert forall|i: int| 0 <= i < v6@.len() implies (#[trigger] v6@[i]).wf(128) by {
            assert(0 <= src6[i] < output@.len());
        }
    }
    let v4 = sort_prefixes(v4, 32);
    let v6 = sort_prefixes(v6, 128);
    let mut i: usize = 0;
    while i < input.len()
        invariant
            forall|i: int| 0 <= i < input@.len() ==> (#[trigger] input@[i]).wf(),
            forall|k: int| 0 <= k < output@.len() ==> (#[trigger] output@[k]).prefix.wf(),
            sorted_prefixes(v4@, 32),
            sorted_prefixes(v6@, 128),
            forall|j: int| 0 <= j < v4@.len() ==> u4.contains(#[trigger] v4@[j]),
            forall|j: int| 0 <= j < v6@.len() ==> u6.contains(#[trigger] v6@[j]),
            src4.len() == u4.len(),
            src6.len() == u6.len(),
            forall|j: int| 0 <= j < u4.len() ==> 0 <= #[trigger] src4[j] < output@.len()
                && output@[src4[j]].prefix == IpPrefix::V4(u4[j]),
            forall|j: int| 0 <= j < u6.len() ==> 0 <= #[trigger] src6[j] < output@.len()
                && output@[src6[j]].prefix == IpPrefix::V6(u6[j]),
            forall|j: int| 0 <= j < u4.len() ==> v4@.contains(#[trigger] u4[j]),
            forall|j: int| 0 <= j < u6.len() ==> v6@.contains(#[trigger] u6[j]),
            forall|m: int| 0 <= m < output@.len() ==> match (#[trigger] output@[m]).prefix {
                IpPrefix::V4(q) => u4.contains(q),
                IpPrefix::V6(q) => u6.contains(q),
            },
            i <= input@.len(),
            covered_upto(input@, output@, i as int),
        decreases input@.len() - i,
    {
        let ok = match input[i] {
            IpPrefix::V4(p) => is_covered(p, &v4, 32),
            IpPrefix::V6(p) => is_covered(p, &v6, 128),
        };
        if !ok {
            proof {
                if covered_upto(input@, output@, input@.len() as int) {
                    let ii = i as int;
                    assert(0 <= ii < input@.len());
                    let m = choose|m: int| 0 <= m < output@.len() && ip_covers(#[trigger] output@[m].prefix, input@[ii]);
                    match input@[ii] {
                        IpPrefix::V4(p) => {
                            let q = output@[m].prefix->V4_0;
                            assert(u4.contains(q));
                            let j = choose|j: int| 0 <= j < u4.len() && u4[j] == q;
                            assert(v4@.contains(u4[j]));
                            let kk = choose|kk: int| 0 <= kk < v4@.len() && v4@[kk] == q;
                            assert(v4@[kk].net(32) <= p.net(32) && p.net(32) + p.size(32) <= v4@[kk].net(32) + v4@[kk].size(32));
                        },
                        IpPrefix::V6(p) => {
                            let q = output@[m].prefix->V6_0;
                            assert(u6.contains(q));
                            let j = choose|j: int| 0 <= j < u6.len() && u6[j] == q;
                            assert(v6@.contains(u6[j]));
                            let kk = choose|kk: int| 0 <= kk < v6@.len() && v6@[kk] == q;
                            assert(v6@[kk].net(128) <= p.net(128) && p.net(128) + p.size(128) <= v6@[kk].net(128) + v6@[kk].size(128));
                        },
                    }
                }
            }
            return false;
        }
        proof {
            match input@[i as int] {
                IpPrefix::V4(p) => {
                    let kk = choose|kk: int| 0 <= kk < v4@.len() && (#[trigger] v4@[kk]).net(32) <= p.net(32)
                        && p.net(32) + p.size(32) <= v4@[kk].net(32) + v4@[kk].size(32);
                    assert(u4.contains(v4@[kk]));
                    let jj = choose|jj: int| 0 <= jj < u4.len() && u4[jj] == v4@[kk];
                    assert(u4[jj] == v4@[kk]);
                    let m = src4[jj];
                    assert(ip_covers(output@[m].prefix, input@[i as int]));
                    lemma_covered_step(input@, output@, i as int, m);
                },
                IpPrefix::V6(p) => {
                    let kk = choose|kk: int| 0 <= kk < v6@.len() && (#[trigger] v6@[kk]).net(128) <= p.net(128)
                        && p.net(128) + p.size(128) <= v6@[kk].net(128) + v6@[kk].size(128);
                    assert(u6.contains(v6@[kk]));
                    let jj = choose|jj: int| 0 <= jj < u6.len() && u6[jj] == v6@[kk];
                    assert(u6[jj] == v6@[kk]);
                    let m = src6[jj];
                    assert(ip_covers(output@[m].prefix, input@[i as int]));
                    lemma_covered_step(input@, output@, i as int, m);
                },
            }
        }
        i = i + 1;
    }
    true
}

// ---------------------------------------------------------------------------
// Collisions and source map

/// `c` reports the exclusion entry `e`: its prefix as ipnet writes it, its
/// source and its comment.
pub open spec fn reports(c: ExclusionCollision, e: ExclusionEntry) -> bool {
    &&& c.exclusion_prefix@ == prefix_text_spec(e.prefix)
    &&& c.exclusion_source == e.source
    &&& c.exclusion_comment == e.comment
}

/// The exclusion entries whose range meets the range of `p`, of its family, in order.
pub open spec fn meeting(exclusions: Seq<ExclusionEntry>, p: IpPrefix) -> Seq<ExclusionEntry> {
    exclusions.filter(|e: ExclusionEntry| entry_meets(e, interval_of(p).0 as u128, interval_of(p).1 as u128, p is V4))
}

/// The collisions reporting the found exclusion entries, one for each, in order.
fn collisions_of(found: &Vec<&ExclusionEntry>) -> (r: Vec<ExclusionCollision>)
    requires
        forall|i: int| 0 <= i < found@.len() ==> (#[trigger] found@[i]).prefix.wf(),
    ensures
        r@.len() == found@.len(),
        forall|i: int| 0 <= i < r@.len() ==> reports(#[trigger] r@[i], *found@[i]),
{
    let mut out: Vec<ExclusionCollision> = Vec::new();
    let mut i: usize = 0;
    while i < found.len()
        invariant
            forall|i: int| 0 <= i < found@.len() ==> (#[trigger] found@[i]).prefix.wf(),
            i <= found@.len(),
            out@.len() == i,
            forall|k: int| 0 <= k < i ==> reports(#[trigger] out@[k], *found@[k]),
        decreases found@.len() - i,
    {
        let e = found[i];
        let comment = match &e.comment {
            Some(c) => Some(c.clone()),
            None => None,
        };
        out.push(ExclusionCollision {
            exclusion_prefix: prefix_text(&e.prefix),
            exclusion_source: e.source.clone(),
            exclusion_comment: comment,
        });
        i = i + 1;
    }
    out
}

/// `out` is `e` with the exclusion entries that meet its range recorded: one
/// report for each, in order, where there are any; otherwise `e` keeps what
/// it had.
pub open spec fn collisions_recorded(out: AggregatedEntry, e: AggregatedEntry, exclusions: Seq<ExclusionEntry>) -> bool {
    let m = meeting(exclusions, e.prefix);
    &&& m.len() == 0 ==> out.exclusion_collisions == e.exclusion_collisions
    &&& m.len() > 0 ==> (out.exclusion_collisions matches Some(c) && c@.len() == m.len()
        && forall|i: int| 0 <= i < m.len() ==> reports(#[trigger] c@[i], m[i]))
}

/// Records, on each entry, the exclusion entries its range meets (if any).
fn add_collisions(entries: Vec<AggregatedEntry>, exclusions: &Vec<ExclusionEntry>, set: &ExclusionSet) -> (r: Vec<AggregatedEntry>)
    requires
        exclusion_entries_wf(exclusions@),
        forall|k: int| 0 <= k < entries@.len() ==> (#[trigger] entries@[k]).prefix.wf(),
    ensures
        r@.len() == entries@.len(),
        forall|k: int| 0 <= k < r@.len() ==> (#[trigger] r@[k]).prefix == entries@[k].prefix
            && r@[k].over_coverage == entries@[k].over_coverage
            && r@[k].source_indices == entries@[k].source_indices,
        forall|k: int| 0 <= k < r@.len() ==> collisions_recorded(#[trigger] r@[k], entries@[k], exclusions@),
{
    let ghost orig = entries@;
    let mut rev = crate::lossless::reversed(entries);
    let mut out: Vec<AggregatedEntry> = Vec::new();
    let n = rev.len();
    while rev.len() > 0
        invariant
            exclusion_entries_wf(exclusions@),
            n == orig.len(),
            rev@.len() + out@.len() == n,
            forall|k: int| 0 <= k < orig.len() ==> (#[trigger] orig[k]).prefix.wf(),
            forall|k: int| 0 <= k < rev@.len() ==> #[trigger] rev@[k] == orig[n - 1 - k],
            forall|k: int| 0 <= k < out@.len() ==> (#[trigger] out@[k]).prefix == orig[k].prefix
                && out@[k].over_coverage == orig[k].over_coverage
                && out@[k].source_indices == orig[k].source_indices,
            forall|k: int| 0 <= k < out@.len() ==> collisions_recorded(#[trigger] out@[k], orig[k], exclusions@),
        decreases rev@.len(),
    {
        let mut entry = rev.pop().unwrap();
        proof {
            assert(entry == orig[out@.len() as int]);
        }
        let (start, end): (u128, u128) = prefix_to_interval(&entry.prefix);
        let found = match entry.prefix {
            IpPrefix::V4(_) => {
                let f = set.find_intersecting_v4(exclusions.as_slice(), start, end);
                proof {
                    crate::exclusion::lemma_found_among(exclusions@, f@, start, end, true);
                }
                f
            },
            IpPrefix::V6(_) => {
                let f = set.find_intersecting_v6(exclusions.as_slice(), start, end);
                proof {
                    crate::exclusion::lemma_found_among(exclusions@, f@, start, end, false);
                }
                f
            },
        };
        let collisions = collisions_of(&found);
        let ghost e0 = entry;
        proof {
            let m = meeting(exclusions@, entry.prefix);
            assert(found@.map_values(|e: &ExclusionEntry| *e) == m);
            assert forall|i: int| 0 <= i < collisions@.len() implies reports(#[trigger] collisions@[i], m[i]) by {
                assert(found@.map_values(|e: &ExclusionEntry| *e)[i] == *found@[i]);
            }
        }
        if collisions.len() > 0 {
            entry.exclusion_collisions = Some(collisions);
        }
        proof {
            assert(collisions_recorded(entry, e0, exclusions@));
        }
        out.push(entry);
    }
    out
}

/// The prefixes of the entries of one family among the first `n` entries, in order.
pub open spec fn family_prefixes(entries: Seq<AggregatedEntry>, v4: bool, n: int) -> Seq<Prefix>
    decreases n,
{
    if n <= 0 {
        Seq::empty()
    } else {
        let rest = family_prefixes(entries, v4, n - 1);
        match entries[n - 1].prefix {
            IpPrefix::V4(p) => if v4 { rest.push(p) } else { rest },
            IpPrefix::V6(p) => if v4 { rest } else { rest.push(p) },
        }
    }
}

proof fn lemma_family_prefixes_grow(entries: Seq<AggregatedEntry>, v4: bool, k: int, n: int)
    requires
        0 <= k <= n <= entries.len(),
    ensures
        family_prefixes(entries, v4, k).len() <= family_prefixes(entries, v4, n).len(),
        forall|j: int| 0 <= j < family_prefixes(entries, v4, k).len() ==>
            #[trigger] family_prefixes(entries, v4, n)[j] == family_prefixes(entries, v4, k)[j],
    decreases n - k,
{
    if n > k {
        lemma_family_prefixes_grow(entries, v4, k, n - 1);
    }
}

/// The prefixes of the entries of one family, in order.
fn family_of(entries: &Vec<AggregatedEntry>, v4: bool) -> (r: Vec<Prefix>)
    ensures
        r@ == family_prefixes(entries@, v4, entries@.len() as int),
{
    let mut out: Vec<Prefix> = Vec::new();
    let mut k: usize = 0;
    while k < entries.len()
        invariant
            k <= entries@.len(),
            out@ == family_prefixes(entries@, v4, k as int),
        decreases entries@.len() - k,
    {
        match entries[k].prefix {
            IpPrefix::V4(p) => {
                if v4 {
                    out.push(p);
                }
            },
            IpPrefix::V6(p) => {
                if !v4 {
                    out.push(p);
                }
            },
        }
        k = k + 1;
    }
    out
}

/// The input indices that an entry's prefix contains (none for a prefix of the other family).
pub open spec fn entry_sources(e: AggregatedEntry, s4: Seq<(usize, Prefix)>, s6: Seq<(usize, Prefix)>) -> Seq<usize> {
    match e.prefix {
        IpPrefix::V4(p) => contained_indices(s4, p, 32, 0, s4.len() as int),
        IpPrefix::V6(p) => contained_indices(s6, p, 128, 0, s6.len() as int),
    }
}

/// The output prefix `out` holds the input `p`: same family, and it contains
/// the input's canonical form.
pub open spec fn holds_input(out: IpPrefix, p: IpPrefix) -> bool {
    match (out, p) {
        (IpPrefix::V4(o), IpPrefix::V4(q)) => contains_spec(o, Prefix { bits: q.net(32) as u128, len: q.len }, 32),
        (IpPrefix::V6(o), IpPrefix::V6(q)) => contains_spec(o, Prefix { bits: q.net(128) as u128, len: q.len }, 128),
        _ => false,
    }
}

/// The source indices of an entry are exactly the positions of the inputs its
/// prefix holds.
pub open spec fn sources_exact(prefixes: Seq<IpPrefix>, e: AggregatedEntry) -> bool {
    e.source_indices matches Some(v) && forall|i: usize| #[trigger] v@.contains(i) <==>
        (i < prefixes.len() && holds_input(e.prefix, prefixes[i as int]))
}

/// The entries of one family, split by `partition_with_indices` and put in
/// any order, each carry the position and canonical form of an input of that
/// family, and every input of the family is among them.
pub open spec fn family_listed(prefixes: Seq<IpPrefix>, s: Seq<(usize, Prefix)>, v4: bool) -> bool {
    &&& forall|j: int| 0 <= j < s.len() ==> (#[trigger] s[j]).0 < prefixes.len() && if v4 {
        prefixes[s[j].0 as int] is V4 && s[j].1 == (Prefix { bits: prefixes[s[j].0 as int]->V4_0.net(32) as u128, len: prefixes[s[j].0 as int]->V4_0.len })
    } else {
        prefixes[s[j].0 as int] is V6 && s[j].1 == (Prefix { bits: prefixes[s[j].0 as int]->V6_0.net(128) as u128, len: prefixes[s[j].0 as int]->V6_0.len })
    }
    &&& forall|i: int| 0 <= i < prefixes.len() && (if v4 { prefixes[i] is V4 } else { prefixes[i] is V6 }) ==>
        exists|j: int| 0 <= j < s.len() && (#[trigger] s[j]).0 == i
}

proof fn lemma_sources_exact(prefixes: Seq<IpPrefix>, s4: Seq<(usize, Prefix)>, s6: Seq<(usize, Prefix)>, e: AggregatedEntry)
    requires
        family_listed(prefixes, s4, true),
        family_listed(prefixes, s6, false),
        e.source_indices matches Some(v) && v@ == entry_sources(e, s4, s6),
    ensures
        sources_exact(prefixes, e),
{
    let v = e.source_indices->Some_0;
    assert forall|i: usize| #[trigger] v@.contains(i) <==> (i < prefixes.len() && holds_input(e.prefix, prefixes[i as int])) by {
        match e.prefix {
            IpPrefix::V4(p) => {
                lemma_contained_member(s4, p, 32, 0, s4.len() as int, i);
                if v@.contains(i) {
                    let j = choose|j: int| 0 <= j < s4.len() && (#[trigger] s4[j]).0 == i && contains_spec(p, s4[j].1, 32);
                    assert(s4[j].0 < prefixes.len());
                }
                if i < prefixes.len() && holds_input(e.prefix, prefixes[i as int]) {
                    assert(prefixes[i as int] is V4);
                    let j = choose|j: int| 0 <= j < s4.len() && (#[trigger] s4[j]).0 == i;
                    assert(s4[j].0 < prefixes.len());
                }
            },
            IpPrefix::V6(p) => {
                lemma_contained_member(s6, p, 128, 0, s6.len() as int, i);
                if v@.contains(i) {
                    let j = choose|j: int| 0 <= j < s6.len() && (#[trigger] s6[j]).0 == i && contains_spec(p, s6[j].1, 128);
                    assert(s6[j].0 < prefixes.len());
                }
                if i < prefixes.len() && holds_input(e.prefix, prefixes[i as int]) {
                    assert(prefixes[i as int] is V6);
                    let j = choose|j: int| 0 <= j < s6.len() && (#[trigger] s6[j]).0 == i;
                    assert(s6[j].0 < prefixes.len());
                }
            },
        }
    }
}

/// Sets each entry's source indices to the indices (in sorted input order)
/// of the inputs its prefix contains.
fn add_source_map(entries: Vec<AggregatedEntry>, sorted_v4: &Vec<(usize, Prefix)>, sorted_v6: &Vec<(usize, Prefix)>) -> (r: Vec<AggregatedEntry>)
    requires
        forall|k: int| 0 <= k < entries@.len() ==> (#[trigger] entries@[k]).prefix.wf(),
        sorted_inputs(sorted_v4@, 32),
        sorted_inputs(sorted_v6@, 128),
    ensures
        r@.len() == entries@.len(),
        forall|k: int| 0 <= k < r@.len() ==> (#[trigger] r@[k]).prefix == entries@[k].prefix
            && r@[k].over_coverage == entries@[k].over_coverage
            && r@[k].exclusion_collisions == entries@[k].exclusion_collisions
            && (r@[k].source_indices matches Some(v) && v@ == entry_sources(entries@[k], sorted_v4@, sorted_v6@)),
{
    let nets4 = family_of(&entries, true);
    let nets6 = family_of(&entries, false);
    proof {
        assert forall|j: int| 0 <= j < nets4@.len() implies (#[trigger] nets4@[j]).wf(32) by {
            lemma_family_wf(entries@, true, entries@.len() as int, j);
        }
        assert forall|j: int| 0 <= j < nets6@.len() implies (#[trigger] nets6@[j]).wf(128) by {
            lemma_family_wf(entries@, false, entries@.len() as int, j);
        }
    }
    let prov_v4 = compute_source_map_v4(&nets4, sorted_v4);
    let prov_v6 = compute_source_map_v6(&nets6, sorted_v6);
    let ghost orig = entries@;
    let n = entries.len();
    let n4: usize = nets4.len();
    let n6: usize = nets6.len();
    let mut rev = crate::lossless::reversed(entries);
    let mut out: Vec<AggregatedEntry> = Vec::new();
    let mut v4_idx: usize = 0;
    let mut v6_idx: usize = 0;
    while rev.len() > 0
        invariant
            n == orig.len(),
            rev@.len() + out@.len() == n,
            forall|k: int| 0 <= k < rev@.len() ==> #[trigger] rev@[k] == orig[n - 1 - k],
            nets4@ == family_prefixes(orig, true, n as int),
            nets6@ == family_prefixes(orig, false, n as int),
            nets4@.len() == n4,
            nets6@.len() == n6,
            prov_v4@.len() == nets4@.len(),
            prov_v6@.len() == nets6@.len(),
            forall|j: int| 0 <= j < nets4@.len() ==> (#[trigger] prov_v4@[j])@
                == contained_indices(sorted_v4@, nets4@[j], 32, 0, sorted_v4@.len() as int),
            forall|j: int| 0 <= j < nets6@.len() ==> (#[trigger] prov_v6@[j])@
                == contained_indices(sorted_v6@, nets6@[j], 128, 0, sorted_v6@.len() as int),
            v4_idx == family_prefixes(orig, true, out@.len() as int).len(),
            v6_idx == family_prefixes(orig, false, out@.len() as int).len(),
            forall|k: int| 0 <= k < out@.len() ==> (#[trigger] out@[k]).prefix == orig[k].prefix
                && out@[k].over_coverage == orig[k].over_coverage
                && out@[k].exclusion_collisions == orig[k].exclusion_collisions
                && (out@[k].source_indices matches Some(v) && v@ == entry_sources(orig[k], sorted_v4@, sorted_v6@)),
        decreases rev@.len(),
    {
        let mut entry = rev.pop().unwrap();
        let ghost k = out@.len() as int;
        proof {
            assert(entry == orig[k]);
            lemma_family_prefixes_grow(orig, true, k + 1, n as int);
            lemma_family_prefixes_grow(orig, false, k + 1, n as int);
            if k + 1 == n {
            }
        }
        match entry.prefix {
            IpPrefix::V4(_) => {
                proof {
                    assert(family_prefixes(orig, true, k + 1) == family_prefixes(orig, true, k).push(orig[k].prefix->V4_0));
                    assert(nets4@[v4_idx as int] == orig[k].prefix->V4_0);
                    assert(v4_idx < nets4@.len());
                }
                entry.source_indices = Some(prov_v4[v4_idx].clone());
                v4_idx = v4_idx + 1;
            },
            IpPrefix::V6(_) => {
                proof {
                    assert(family_prefixes(orig, false, k + 1) == family_prefixes(orig, false, k).push(orig[k].prefix->V6_0));
                    assert(nets6@[v6_idx as int] == orig[k].prefix->V6_0);
                    assert(v6_idx < nets6@.len());
                }
                entry.source_indices = Some(prov_v6[v6_idx].clone());
                v6_idx = v6_idx + 1;
            },
        }
        out.push(entry);
    }
    out
}

proof fn lemma_family_wf(entries: Seq<AggregatedEntry>, v4: bool, n: int, j: int)
    requires
        0 <= n <= entries.len(),
        forall|k: int| 0 <= k < entries.len() ==> (#[trigger] entries[k]).prefix.wf(),
        0 <= j < family_prefixes(entries, v4, n).len(),
    ensures
        family_prefixes(entries, v4, n)[j].wf(if v4 { 32u8 } else { 128u8 }),
    decreases n,
{
    if n > 0 {
        let rest = family_prefixes(entries, v4, n - 1);
        if j < rest.len() {
            lemma_family_wf(entries, v4, n - 1, j);
        } else {
            assert(entries[n - 1].prefix.wf());
        }
    }
}

/// Sort numbered prefixes by network address, keeping the input order of equal addresses.
fn sort_inputs_by_network(v: Vec<(usize, Prefix)>, Ghost(w): Ghost<u8>) -> (r: Vec<(usize, Prefix)>)
    requires
        crate::prefix::valid_width(w),
        forall|i: int| 0 <= i < v@.len() ==> (#[trigger] v@[i]).1.canonical(w),
    ensures
        sorted_inputs(r@, w),
        r@.len() == v@.len(),
        forall|j: int| 0 <= j < r@.len() ==> v@.contains(#[trigger] r@[j]),
        forall|k: int| 0 <= k < v@.len() ==> r@.contains(#[trigger] v@[k]),
{
    let mut keys: Vec<SortKey> = Vec::new();
    let mut i: usize = 0;
    while i < v.len()
        invariant
            i <= v@.len(),
            keys@.len() == i,
            forall|k: int| 0 <= k < i ==> #[trigger] keys@[k] == (v@[k].1.bits, 0u128, k as usize),
        decreases v@.len() - i,
    {
        keys.push((v[i].1.bits, 0, i));
        i = i + 1;
    }
    let sorted = sort_keys(&keys);
    proof {
        assert(numbered(keys@));
        lemma_sorted_numbered_is_order(keys@, sorted@);
    }
    let ghost orig = v@;
    let r = apply_order(v, &sorted);
    proof {
        assert forall|a: int, b: int| 0 <= a <= b < r@.len() implies (#[trigger] r@[a]).1.bits <= (#[trigger] r@[b]).1.bits by {
            if a < b {
                assert(key_le(sorted@[a], sorted@[b]));
            }
            assert(sorted@[a] == keys@[sorted@[a].2 as int]);
            assert(sorted@[b] == keys@[sorted@[b].2 as int]);
        }
        assert forall|i: int| 0 <= i < r@.len() implies (#[trigger] r@[i]).1.canonical(w) by {
            assert(r@[i] == orig[sorted@[i].2 as int]);
        }
        assert forall|j: int| 0 <= j < r@.len() implies orig.contains(#[trigger] r@[j]) by {
            assert(r@[j] == orig[sorted@[j].2 as int]);
        }
        assert forall|k: int| 0 <= k < orig.len() implies r@.contains(#[trigger] orig[k]) by {
            assert(listed(sorted@, k));
            let j = choose|j: int| 0 <= j < sorted@.len() && sorted@[j].2 == k;
            assert(r@[j] == orig[k]);
        }
    }
    r
}

// ---------------------------------------------------------------------------
// The pipeline

/// Some entry's prefix (IPv4) holds address `x`.
pub open spec fn entries_have_v4(entries: Seq<AggregatedEntry>, x: int) -> bool {
    exists|k: int| 0 <= k < entries.len() && (#[trigger] entries[k]).prefix.has_v4(x)
}

/// Some entry's prefix (IPv6) holds address `x`.
pub open spec fn entries_have_v6(entries: Seq<AggregatedEntry>, x: int) -> bool {
    exists|k: int| 0 <= k < entries.len() && (#[trigger] entries[k]).prefix.has_v6(x)
}

/// Some input is an IPv4 prefix.
pub open spec fn has_v4_input(prefixes: Seq<IpPrefix>) -> bool {
    exists|i: int| 0 <= i < prefixes.len() && (#[trigger] prefixes[i]) is V4
}

/// Some input is an IPv6 prefix.
pub open spec fn has_v6_input(prefixes: Seq<IpPrefix>) -> bool {
    exists|i: int| 0 <= i < prefixes.len() && (#[trigger] prefixes[i]) is V6
}

/// The statistics agree with the entries and the configuration: the output
/// counts are the numbers of entries of each family (the IPv4 entries come
/// first); a family's target binds only when it is an entry count, and does
/// when the output still has more entries than that; and a family is held
/// back by exclusions exactly when its entry-count target is not met while
/// some exclusion of the family is active.
pub open spec fn stats_agree(res: OptimizationResult, config: OptimizerConfig) -> bool {
    let st = res.stats;
    let t4 = entry_target(config.ipv4_target);
    let t6 = entry_target(config.ipv6_target);
    &&& st.output_ipv4_count + st.output_ipv6_count == res.entries@.len()
    &&& forall|k: int| 0 <= k < res.entries@.len() ==>
        ((#[trigger] res.entries@[k]).prefix is V4 <==> k < st.output_ipv4_count)
    &&& st.ipv4_target_binding ==> t4 is Some
    &&& st.ipv6_target_binding ==> t6 is Some
    &&& t4 is Some && st.output_ipv4_count > t4->0 ==> st.ipv4_target_binding
    &&& t6 is Some && st.output_ipv6_count > t6->0 ==> st.ipv6_target_binding
    &&& st.ipv4_exclusion_constrained == (t4 is Some && st.output_ipv4_count > t4->0
        && exists|x: int| crate::exclusion::entries_have_v4(config.exclusions@, x))
    &&& st.ipv6_exclusion_constrained == (t6 is Some && st.output_ipv6_count > t6->0
        && exists|x: int| crate::exclusion::entries_have_v6(config.exclusions@, x))
}

/// The entry count a target asks for, if it is an entry-count target.
pub open spec fn entry_target(t: Option<TargetSpec>) -> Option<usize> {
    match t {
        Some(TargetSpec::EntryCount(n)) => Some(n),
        _ => None,
    }
}

/// The checks before any work pass: size limit, configuration, some input.
pub open spec fn checks_pass(prefixes: Seq<IpPrefix>, config: OptimizerConfig) -> bool {
    &&& prefixes.len() <= config.max_input_entries
    &&& config_problem(config) is None
    &&& prefixes.len() > 0
}

/// A zero entry-count target for a family that has inputs.
pub open spec fn zero_target_with_input(prefixes: Seq<IpPrefix>, config: OptimizerConfig) -> bool {
    ||| (config.ipv4_target == Some(TargetSpec::EntryCount(0)) && has_v4_input(prefixes))
    ||| (config.ipv6_target == Some(TargetSpec::EntryCount(0)) && has_v6_input(prefixes))
}

/// The exclusion entries that meet `e`'s range are reported on it, one for
/// each, in order; an entry that meets none carries no report.
pub open spec fn collisions_listed(e: AggregatedEntry, exclusions: Seq<ExclusionEntry>) -> bool {
    let m = meeting(exclusions, e.prefix);
    &&& m.len() == 0 ==> e.exclusion_collisions is None
    &&& m.len() > 0 ==> (e.exclusion_collisions matches Some(c) && c@.len() == m.len()
        && forall|i: int| 0 <= i < m.len() ==> reports(#[trigger] c@[i], m[i]))
}

/// An output entry that an exclusion entry meets carries a collision report
/// for it.
pub proof fn law_collision_reported(e: AggregatedEntry, exclusions: Seq<ExclusionEntry>, i: int)
    requires
        collisions_listed(e, exclusions),
        0 <= i < exclusions.len(),
        entry_meets(exclusions[i], interval_of(e.prefix).0 as u128, interval_of(e.prefix).1 as u128, e.prefix is V4),
    ensures
        e.exclusion_collisions matches Some(c) && exists|k: int| 0 <= k < c@.len() && #[trigger] reports(c@[k], exclusions[i]),
{
    broadcast use vstd::seq_lib::group_filter_ensures;
    let m = meeting(exclusions, e.prefix);
    assert(exclusions.contains(exclusions[i]));
    assert(m.contains(exclusions[i]));
    let k = choose|k: int| 0 <= k < m.len() && m[k] == exclusions[i];
    let c = e.exclusion_collisions->Some_0;
    assert(reports(c@[k], m[k]));
}

/// Records on the output entries the exclusion entries they meet and, when
/// asked for, the inputs behind each of them.
fn annotate_entries(prefixes: &Vec<IpPrefix>, config: &OptimizerConfig, entries: Vec<AggregatedEntry>,
    exclusion_set: &ExclusionSet) -> (r: Vec<AggregatedEntry>)
    requires
        forall|i: int| 0 <= i < prefixes@.len() ==> (#[trigger] prefixes@[i]).wf(),
        exclusion_entries_wf(config.exclusions@),
        forall|k: int| 0 <= k < entries@.len() ==> (#[trigger] entries@[k]).prefix.wf() && entries@[k].exclusion_collisions is None,
    ensures
        r@.len() == entries@.len(),
        forall|k: int| 0 <= k < r@.len() ==> (#[trigger] r@[k]).prefix == entries@[k].prefix
            && r@[k].over_coverage == entries@[k].over_coverage,
        forall|k: int| 0 <= k < r@.len() ==> collisions_listed(#[trigger] r@[k], config.exclusions@),
        config.source_map ==> forall|k: int| 0 <= k < r@.len() ==> sources_exact(prefixes@, #[trigger] r@[k]),
{
    let ghost e0 = entries@;
    let mut entries = entries;
    // Record collisions of output prefixes with exclusion entries.
    if config.exclusions.len() > 0 {
        entries = add_collisions(entries, &config.exclusions, &exclusion_set);
    }
    let ghost e1 = entries@;
    // Populate the source map.
    if config.source_map {
        let (by_v4, by_v6) = partition_with_indices(prefixes);
        let sorted_v4 = sort_inputs_by_network(by_v4, Ghost(32u8));
        let sorted_v6 = sort_inputs_by_network(by_v6, Ghost(128u8));
        proof {
            assert forall|k: int| 0 <= k < e1.len() implies (#[trigger] e1[k]).prefix.wf() by {
                assert(e1[k].prefix == e0[k].prefix);
            }
        }
        proof {
            assert(family_listed(prefixes@, sorted_v4@, true)) by {
                assert forall|j: int| 0 <= j < sorted_v4@.len() implies (#[trigger] sorted_v4@[j]).0 < prefixes@.len() && prefixes@[sorted_v4@[j].0 as int] is V4
                    && sorted_v4@[j].1 == (Prefix { bits: prefixes@[sorted_v4@[j].0 as int]->V4_0.net(32) as u128, len: prefixes@[sorted_v4@[j].0 as int]->V4_0.len }) by {
                    assert(by_v4@.contains(sorted_v4@[j]));
                    let k = choose|k: int| 0 <= k < by_v4@.len() && by_v4@[k] == sorted_v4@[j];
                    assert(by_v4@[k].0 < prefixes@.len());
                }
                assert forall|i: int| 0 <= i < prefixes@.len() && prefixes@[i] is V4 implies
                    exists|j: int| 0 <= j < sorted_v4@.len() && (#[trigger] sorted_v4@[j]).0 == i by {
                    assert(prefixes@[i] is V4);
                    let k = choose|k: int| 0 <= k < by_v4@.len() && (#[trigger] by_v4@[k]).0 == i;
                    assert(sorted_v4@.contains(by_v4@[k]));
                    let j = choose|j: int| 0 <= j < sorted_v4@.len() && sorted_v4@[j] == by_v4@[k];
                    assert(sorted_v4@[j].0 == i);
                }
            }
            assert(family_listed(prefixes@, sorted_v6@, false)) by {
                assert forall|j: int| 0 <= j < sorted_v6@.len() implies (#[trigger] sorted_v6@[j]).0 < prefixes@.len() && prefixes@[sorted_v6@[j].0 as int] is V6
                    && sorted_v6@[j].1 == (Prefix { bits: prefixes@[sorted_v6@[j].0 as int]->V6_0.net(128) as u128, len: prefixes@[sorted_v6@[j].0 as int]->V6_0.len }) by {
                    assert(by_v6@.contains(sorted_v6@[j]));
                    let k = choose|k: int| 0 <= k < by_v6@.len() && by_v6@[k] == sorted_v6@[j];
                    assert(by_v6@[k].0 < prefixes@.len());
                }
                assert forall|i: int| 0 <= i < prefixes@.len() && prefixes@[i] is V6 implies
                    exists|j: int| 0 <= j < sorted_v6@.len() && (#[trigger] sorted_v6@[j]).0 == i by {
                    assert(prefixes@[i] is V6);
                    let k = choose|k: int| 0 <= k < by_v6@.len() && (#[trigger] by_v6@[k]).0 == i;
                    assert(sorted_v6@.contains(by_v6@[k]));
                    let j = choose|j: int| 0 <= j < sorted_v6@.len() && sorted_v6@[j] == by_v6@[k];
                    assert(sorted_v6@[j].0 == i);
                }
            }
        }
        let ghost s4 = sorted_v4@;
        let ghost s6 = sorted_v6@;
        let ghost e_before = entries@;
        entries = add_source_map(entries, &sorted_v4, &sorted_v6);
        proof {
            assert forall|k: int| 0 <= k < entries@.len() implies sources_exact(prefixes@, #[trigger] entries@[k]) by {
                assert(entries@[k].prefix == e_before[k].prefix);
                assert(entry_sources(e_before[k], s4, s6) == entry_sources(entries@[k], s4, s6));
                lemma_sources_exact(prefixes@, s4, s6, entries@[k]);
            }
        }
    }
    proof {
        assert forall|k: int| 0 <= k < entries@.len() implies (#[trigger] entries@[k]).prefix == e1[k].prefix
            && entries@[k].over_coverage == e1[k].over_coverage
            && entries@[k].exclusion_collisions == e1[k].exclusion_collisions by {
        }
        assert forall|k: int| 0 <= k < entries@.len() implies collisions_listed(#[trigger] entries@[k], config.exclusions@) by {
            assert(entries@[k].prefix == e1[k].prefix);
            assert(e1[k].prefix == e0[k].prefix);
            if config.exclusions@.len() == 0 {
                assert(config.exclusions@ =~= Seq::<ExclusionEntry>::empty());
                assert(meeting(config.exclusions@, e0[k].prefix).len() == 0) by {
                    broadcast use vstd::seq_lib::group_filter_ensures;
                    if meeting(config.exclusions@, e0[k].prefix).len() > 0 {
                        assert(config.exclusions@.contains(meeting(config.exclusions@, e0[k].prefix)[0]));
                    }
                }
            } else {
                assert(collisions_recorded(e1[k], e0[k], config.exclusions@));
            }
        }
    }
    entries
}


/// Optimize the prefixes (numbered by position) under the configuration.
///
/// Checks the input size and the configuration, splits the prefixes by
/// family (in canonical form), aggregates each family losslessly, and where
/// a family's target binds runs the budget-constrained optimizer; the budget
/// for a family is what `budget` answers for its covered addresses (with
/// `true` when the family's target is an over-coverage target). `progress`
/// is told of each phase and stops the run by answering `false`. Then the
/// output entries are built (IPv4 first, each family by address), exclusion
/// collisions and, if asked, the source map are recorded, and the output is
/// checked to cover every input. That check never fails: every input lies
/// within an output entry. Once the input and configuration checks pass, the
/// run succeeds unless `progress` stops it or the trie arena would overflow.
/// A family without a binding target keeps its minimal equivalent set (no
/// two entries siblings); an entry-count target is met (or one entry left)
/// where `budget` sets no cap and no exclusion of the family applies.
#[verifier::rlimit(100)]
#[verifier::spinoff_prover]
pub fn optimize_with_progress(
    prefixes: &Vec<IpPrefix>,
    config: &OptimizerConfig,
    progress: impl Fn(Phase) -> bool,
    budget: impl Fn(AddressFamily, u128, bool) -> Option<u128>,
) -> (r: Result<OptimizationResult, OptimizeError>)
    requires
        forall|i: int| 0 <= i < prefixes@.len() ==> (#[trigger] prefixes@[i]).wf(),
        exclusion_entries_wf(config.exclusions@),
        forall|p: Phase| #[trigger] progress.requires((p,)),
        forall|af: AddressFamily, c: u128, t: bool| #[trigger] budget.requires((af, c, t)),
    ensures
        prefixes@.len() > config.max_input_entries ==> (r matches Err(OptimizeError::InputTooLarge { count, limit })
            && count == prefixes@.len() && limit == config.max_input_entries),
        prefixes@.len() <= config.max_input_entries && config_problem(*config) is Some ==>
            (r matches Err(OptimizeError::InvalidConfig { message }) && message@ == config_problem(*config)->0),
        prefixes@.len() <= config.max_input_entries && config_problem(*config) is None && prefixes@.len() == 0 ==>
            r matches Err(OptimizeError::EmptyInput),
        checks_pass(prefixes@, *config) && zero_target_with_input(prefixes@, *config) ==>
            (r matches Err(OptimizeError::TargetTooSmall { target, minimum }) && target == 0 && minimum == 1),
        r is Ok ==> checks_pass(prefixes@, *config) && !zero_target_with_input(prefixes@, *config),
        r matches Ok(res) ==> covered_upto(prefixes@, res.entries@, prefixes@.len() as int),
        r matches Ok(res) ==> res.stats.input_ipv4_count + res.stats.input_ipv6_count == prefixes@.len(),
        r is Ok && config.ipv4_target is None && config.max_prefix_len_v4 == 32 ==>
            forall|x: int| entries_have_v4(r->Ok_0.entries@, x) <==> any_has_v4(prefixes@, x),
        r is Ok && config.ipv6_target is None && config.max_prefix_len_v6 == 128 ==>
            forall|x: int| entries_have_v6(r->Ok_0.entries@, x) <==> any_has_v6(prefixes@, x),
        r is Ok && config.source_map ==>
            forall|k: int| 0 <= k < r->Ok_0.entries@.len() ==> sources_exact(prefixes@, #[trigger] r->Ok_0.entries@[k]),
        r matches Err(e) ==> !(e is CoverageLost),
        r matches Err(e) && e is ArenaOverflow ==> (config.ipv4_target is Some || config.ipv6_target is Some)
            && 2 * prefixes@.len() + 1 >= u32::MAX
            && exists|p: Phase| p is Lossy && #[trigger] call_ensures(progress, (p,), true),
        r matches Err(e) && e is Cancelled ==> exists|p: Phase| call_ensures(progress, (p,), false),
        checks_pass(prefixes@, *config) && !zero_target_with_input(prefixes@, *config)
            && (forall|p: Phase, b: bool| #[trigger] call_ensures(progress, (p,), b) && p is Lossless ==> !b)
            ==> r matches Err(OptimizeError::Cancelled),
        r matches Ok(res) ==> ((forall|p: Phase, b: bool| #[trigger] call_ensures(progress, (p,), b) && p is Lossy ==> !b)
            ==> !res.stats.ipv4_target_binding && !res.stats.ipv6_target_binding),
        r matches Ok(res) ==> call_ensures(progress, (Phase::Lossless { af: AddressFamily::IPv4, entries_remaining: res.stats.input_ipv4_count },), true)
            && call_ensures(progress, (Phase::Lossless { af: AddressFamily::IPv6, entries_remaining: res.stats.input_ipv6_count },), true),
        r matches Ok(res) ==> stats_agree(res, *config),
        r matches Ok(res) ==> exclusions_kept_out(res.entries@, config.exclusions@),
        r matches Ok(res) ==> forall|k: int| 0 <= k < res.entries@.len() ==> collisions_listed(#[trigger] res.entries@[k], config.exclusions@),
        r matches Ok(res) ==> family_outcome(res, *config, prefixes@, budget, true)
            && family_outcome(res, *config, prefixes@, budget, false),
        r matches Ok(res) ==> ((config.ipv4_target is None
            || (entry_target(config.ipv4_target) is Some && !res.stats.ipv4_target_binding))
            ==> family_no_siblings(res.entries@, true) && family_exact(res.entries@, true)
                && res.stats.total_ipv4_over_coverage == 0),
        r matches Ok(res) ==> (uncapped(budget, AddressFamily::IPv4) && !(exists|x: int| crate::exclusion::entries_have_v4(config.exclusions@, x))
            ==> target_met(res, *config, true)),
        r matches Ok(res) ==> (uncapped(budget, AddressFamily::IPv6) && !(exists|x: int| crate::exclusion::entries_have_v6(config.exclusions@, x))
            ==> target_met(res, *config, false)),
        r matches Ok(res) ==> ((config.ipv6_target is None
            || (entry_target(config.ipv6_target) is Some && !res.stats.ipv6_target_binding))
            ==> family_no_siblings(res.entries@, false) && family_exact(res.entries@, false)
                && res.stats.total_ipv6_over_coverage == 0),
        checks_pass(prefixes@, *config) && !zero_target_with_input(prefixes@, *config)
            && 2 * prefixes@.len() + 1 < u32::MAX
            && (forall|p: Phase| !call_ensures(progress, (p,), false)) ==> r is Ok,
        r matches Ok(res) ==> within_budget(budget, prefixes@, config.max_prefix_len_v4, true,
            config.ipv4_target == Some(TargetSpec::MaxOverCoverage), res.stats.total_ipv4_over_coverage as int),
        r matches Ok(res) ==> within_budget(budget, prefixes@, config.max_prefix_len_v6, false,
            config.ipv6_target == Some(TargetSpec::MaxOverCoverage), res.stats.total_ipv6_over_coverage as int),
{
    if prefixes.len() > config.max_input_entries {
        return Err(OptimizeError::InputTooLarge { count: prefixes.len(), limit: config.max_input_entries });
    }
    match validate_config(config) {
        Ok(()) => {},
        Err(e) => {
            return Err(e);
        },
    }
    let (ipv4, ipv6) = partition_with_indices(prefixes);
    let ghost in4 = ipv4@;
    let ghost in6 = ipv6@;
    proof {
        lemma_families_present(prefixes@, in4, in6);
    }
    if ipv4.len() == 0 && ipv6.len() == 0 {
        return Err(OptimizeError::EmptyInput);
    }
    match config.ipv4_target {
        Some(TargetSpec::EntryCount(0)) => {
            if ipv4.len() > 0 {
                return Err(OptimizeError::TargetTooSmall { target: 0, minimum: 1 });
            }
        },
        _ => {},
    }
    match config.ipv6_target {
        Some(TargetSpec::EntryCount(0)) => {
            if ipv6.len() > 0 {
                return Err(OptimizeError::TargetTooSmall { target: 0, minimum: 1 });
            }
        },
        _ => {},
    }
    let input_ipv4_count = ipv4.len();
    let input_ipv6_count = ipv6.len();
    if !progress(Phase::Lossless { af: AddressFamily::IPv4, entries_remaining: ipv4.len() }) {
        return Err(OptimizeError::Cancelled);
    }
    let lossless_v4 = lossless_aggregate_v4(ipv4, config.max_prefix_len_v4);
    if !progress(Phase::Lossless { af: AddressFamily::IPv6, entries_remaining: ipv6.len() }) {
        return Err(OptimizeError::Cancelled);
    }
    let lossless_v6 = lossless_aggregate_v6(ipv6, config.max_prefix_len_v6);
    proof {
        lemma_cut_inputs(prefixes@, in4, config.max_prefix_len_v4, true);
        lemma_cut_inputs(prefixes@, in6, config.max_prefix_len_v6, false);
        assert(aggregates(lossless_v4@, prefixes@, config.max_prefix_len_v4, true)) by {
            assert forall|x: int| #[trigger] covered(lossless_v4@, width(true), x) <==> any_cut_has(prefixes@, config.max_prefix_len_v4, true, x) by {
                assert(input_covered(in4, config.max_prefix_len_v4, width(true), x) <==> any_cut_has(prefixes@, config.max_prefix_len_v4, true, x));
            }
        }
        assert(aggregates(lossless_v6@, prefixes@, config.max_prefix_len_v6, false)) by {
            assert forall|x: int| #[trigger] covered(lossless_v6@, width(false), x) <==> any_cut_has(prefixes@, config.max_prefix_len_v6, false, x) by {
                assert(input_covered(in6, config.max_prefix_len_v6, width(false), x) <==> any_cut_has(prefixes@, config.max_prefix_len_v6, false, x));
            }
        }
    }
    let ipv4_target_binding = match config.ipv4_target {
        Some(TargetSpec::EntryCount(t)) => lossless_v4.len() > t,
        _ => false,
    };
    let ipv6_target_binding = match config.ipv6_target {
        Some(TargetSpec::EntryCount(t)) => lossless_v6.len() > t,
        _ => false,
    };
    let exclusion_set = ExclusionSet::build(config.exclusions.as_slice());
    let ghost l4 = lossless_v4@;
    let output_v4 = match config.ipv4_target {
        Some(TargetSpec::EntryCount(target)) if lossless_v4.len() > target => {
            let input_ips = compute_covered_ips_v4(&lossless_v4);
            if !progress(Phase::Lossy { af: AddressFamily::IPv4, current_count: lossless_v4.len(), target }) {
                return Err(OptimizeError::Cancelled);
            }
            let b = budget(AddressFamily::IPv4, input_ips, false);
            proof {
                lemma_disjoint_not_whole(l4, 32);
                lemma_capacity_total_pos(l4, 32, l4.len() as int);
            }
            match lossy_optimize_v4(&lossless_v4, target, b, input_ips, &exclusion_set) {
                Ok(v) => {
                    proof {
                        if uncapped(budget, AddressFamily::IPv4) && !(exists|x: int| crate::exclusion::entries_have_v4(config.exclusions@, x)) {
                            assert(call_ensures(budget, (AddressFamily::IPv4, input_ips, false), b));
                            assert(b is None);
                            assert forall|x: int| !#[trigger] exclusion_set.excludes_v4(x) by {}
                            assert(v@.len() <= target || v@.len() <= 1);
                        }
                        lemma_within_budget_intro(budget, prefixes@, config.max_prefix_len_v4, true, false,
                            over_total(v@, 32, v@.len() as int), l4, b);
                        assert(exclusions_respected(v@, exclusion_set, 32));
                        assert(family_greedy(budget, AddressFamily::IPv4, false, l4, v@, target as int));
                    }
                    v
                },
                Err(e) => {
                    return Err(e);
                },
            }
        },
        Some(TargetSpec::MaxOverCoverage) if lossless_v4.len() > 1 => {
            let input_ips = compute_covered_ips_v4(&lossless_v4);
            if !progress(Phase::Lossy { af: AddressFamily::IPv4, current_count: lossless_v4.len(), target: 1 }) {
                return Err(OptimizeError::Cancelled);
            }
            let b = budget(AddressFamily::IPv4, input_ips, true);
            proof {
                lemma_disjoint_not_whole(l4, 32);
                lemma_capacity_total_pos(l4, 32, l4.len() as int);
            }
            match lossy_optimize_v4(&lossless_v4, 1, b, input_ips, &exclusion_set) {
                Ok(v) => {
                    proof {
                        lemma_within_budget_intro(budget, prefixes@, config.max_prefix_len_v4, true, true,
                            over_total(v@, 32, v@.len() as int), l4, b);
                        assert(exclusions_respected(v@, exclusion_set, 32));
                        assert(family_greedy(budget, AddressFamily::IPv4, true, l4, v@, 1));
                    }
                    v
                },
                Err(e) => {
                    return Err(e);
                },
            }
        },
        _ => {
            proof {
                lemma_full_over_zero(l4, 32, l4.len() as int);
                lemma_lies_within_contains(l4, l4, 32);
                lemma_full_respects(l4, exclusion_set, 32);
            }
            lossless_v4
        },
    };
    proof {
        if uncapped(budget, AddressFamily::IPv4) && !(exists|x: int| crate::exclusion::entries_have_v4(config.exclusions@, x))
            && entry_target(config.ipv4_target) is Some {
            assert(output_v4@.len() <= entry_target(config.ipv4_target)->0 || output_v4@.len() <= 1);
        }
        if config.ipv4_target is None || (entry_target(config.ipv4_target) is Some && !ipv4_target_binding) {
            assert(output_v4@ == l4);
        }
        if entry_target(config.ipv4_target) is Some && l4.len() > entry_target(config.ipv4_target)->0 {
            assert(family_greedy(budget, AddressFamily::IPv4, false, l4, output_v4@, entry_target(config.ipv4_target)->0 as int));
        }
        if config.ipv4_target == Some(TargetSpec::MaxOverCoverage) && l4.len() > 1 {
            assert(family_greedy(budget, AddressFamily::IPv4, true, l4, output_v4@, 1));
        }
    }
    let ghost l6 = lossless_v6@;
    let output_v6 = match config.ipv6_target {
        Some(TargetSpec::EntryCount(target)) if lossless_v6.len() > target => {
            let input_ips = compute_covered_ips_v6(&lossless_v6);
            if !progress(Phase::Lossy { af: AddressFamily::IPv6, current_count: lossless_v6.len(), target }) {
                return Err(OptimizeError::Cancelled);
            }
            proof {
                lemma_disjoint_not_whole(l6, 128);
            }
            let b = budget(AddressFamily::IPv6, input_ips, false);
            proof {
                lemma_capacity_total_pos(l6, 128, l6.len() as int);
            }
            match lossy_optimize_v6(&lossless_v6, target, b, input_ips, &exclusion_set) {
                Ok(v) => {
                    proof {
                        if uncapped(budget, AddressFamily::IPv6) && !(exists|x: int| crate::exclusion::entries_have_v6(config.exclusions@, x)) {
                            assert(call_ensures(budget, (AddressFamily::IPv6, input_ips, false), b));
                            assert(b is None);
                            assert forall|x: int| !#[trigger] exclusion_set.excludes_v6(x) by {}
                            assert(v@.len() <= target || v@.len() <= 1);
                        }
                        lemma_within_budget_intro(budget, prefixes@, config.max_prefix_len_v6, false, false,
                            over_total(v@, 128, v@.len() as int), l6, b);
                        assert(exclusions_respected(v@, exclusion_set, 128));
                        assert(family_greedy(budget, AddressFamily::IPv6, false, l6, v@, target as int));
                    }
                    v
                },
                Err(e) => {
                    return Err(e);
                },
            }
        },
        Some(TargetSpec::MaxOverCoverage) if lossless_v6.len() > 1 => {
            let input_ips = compute_covered_ips_v6(&lossless_v6);
            if !progress(Phase::Lossy { af: AddressFamily::IPv6, current_count: lossless_v6.len(), target: 1 }) {
                return Err(OptimizeError::Cancelled);
            }
            proof {
                lemma_disjoint_not_whole(l6, 128);
            }
            let b = budget(AddressFamily::IPv6, input_ips, true);
            proof {
                lemma_capacity_total_pos(l6, 128, l6.len() as int);
            }
            match lossy_optimize_v6(&lossless_v6, 1, b, input_ips, &exclusion_set) {
                Ok(v) => {
                    proof {
                        lemma_within_budget_intro(budget, prefixes@, config.max_prefix_len_v6, false, true,
                            over_total(v@, 128, v@.len() as int), l6, b);
                        assert(exclusions_respected(v@, exclusion_set, 128));
                        assert(family_greedy(budget, AddressFamily::IPv6, true, l6, v@, 1));
                    }
                    v
                },
                Err(e) => {
                    return Err(e);
                },
            }
        },
        _ => {
            proof {
                lemma_full_over_zero(l6, 128, l6.len() as int);
                lemma_lies_within_contains(l6, l6, 128);
                lemma_full_respects(l6, exclusion_set, 128);
            }
            lossless_v6
        },
    };
    proof {
        if uncapped(budget, AddressFamily::IPv6) && !(exists|x: int| crate::exclusion::entries_have_v6(config.exclusions@, x))
            && entry_target(config.ipv6_target) is Some {
            assert(output_v6@.len() <= entry_target(config.ipv6_target)->0 || output_v6@.len() <= 1);
        }
        if entry_target(config.ipv6_target) is Some && l6.len() > entry_target(config.ipv6_target)->0 {
            assert(family_greedy(budget, AddressFamily::IPv6, false, l6, output_v6@, entry_target(config.ipv6_target)->0 as int));
        }
        if config.ipv6_target == Some(TargetSpec::MaxOverCoverage) && l6.len() > 1 {
            assert(family_greedy(budget, AddressFamily::IPv6, true, l6, output_v6@, 1));
        }
        if config.ipv6_target is None || (entry_target(config.ipv6_target) is Some && !ipv6_target_binding) {
            assert(output_v6@ == l6);
        }
    }
    let _ = progress(Phase::Done);
    // A target that was set but not met while exclusions were active.
    let ipv4_exclusion_constrained = match config.ipv4_target {
        Some(TargetSpec::EntryCount(target)) => output_v4.len() > target && !exclusion_set.is_empty_v4(),
        _ => false,
    };
    let ipv6_exclusion_constrained = match config.ipv6_target {
        Some(TargetSpec::EntryCount(target)) => output_v6.len() > target && !exclusion_set.is_empty_v6(),
        _ => false,
    };
    let ghost o4 = output_v4@;
    let ghost o6 = output_v6@;
    proof {
        assert(within_budget(budget, prefixes@, config.max_prefix_len_v4, true,
            config.ipv4_target == Some(TargetSpec::MaxOverCoverage), over_total(o4, 32, o4.len() as int)));
        assert(within_budget(budget, prefixes@, config.max_prefix_len_v6, false,
            config.ipv6_target == Some(TargetSpec::MaxOverCoverage), over_total(o6, 128, o6.len() as int)));
        lemma_over_total_nonneg(o6, 128, o6.len() as int);
        lemma_within_budget_saturated(budget, prefixes@, config.max_prefix_len_v6, false,
            config.ipv6_target == Some(TargetSpec::MaxOverCoverage), over_total(o6, 128, o6.len() as int));
    }
    let result = match build_result(
        output_v4,
        output_v6,
        input_ipv4_count,
        input_ipv6_count,
        ipv4_target_binding,
        ipv6_target_binding,
        ipv4_exclusion_constrained,
        ipv6_exclusion_constrained,
    ) {
        Ok(res) => res,
        Err(e) => {
            return Err(e);
        },
    };
    let ghost e0 = result.entries@;
    proof {
        lemma_entries_wf(e0, o4, o6);
    }
    let entries = annotate_entries(prefixes, config, result.entries, &exclusion_set);
    let ghost e2 = entries@;
    proof {
        assert forall|k: int| 0 <= k < e2.len() implies (#[trigger] e2[k]).prefix.wf() && e2[k].prefix == e0[k].prefix
            && e2[k].over_coverage == e0[k].over_coverage by {
        }
    }
    proof {
        lemma_inputs_covered(prefixes@, in4, in6, l4, l6, config.max_prefix_len_v4, config.max_prefix_len_v6,
            o4, o6, e0, e2, prefixes@.len() as int);
    }
    // The output must cover every input.
    if !validate_coverage(prefixes, &entries) {
        return Err(OptimizeError::CoverageLost);
    }
    let res = OptimizationResult { entries, stats: result.stats };
    proof {
        lemma_stats_agree(res, *config, o4, o6, e0, e2, exclusion_set);
        if config.ipv4_target is None && config.max_prefix_len_v4 == 32 {
            lemma_family_equivalent_v4(prefixes@, in4, l4, o4, e0, e2);
        }
        if config.ipv6_target is None && config.max_prefix_len_v6 == 128 {
            lemma_family_equivalent_v6(prefixes@, in6, l6, o6, e0, e2);
        }
        if config.ipv4_target is None || (entry_target(config.ipv4_target) is Some && !ipv4_target_binding) {
            lemma_family_no_siblings(e0, e2, o4, o6, true);
            lemma_family_exact(e0, e2, o4, o6, true);
        }
        if config.ipv6_target is None || (entry_target(config.ipv6_target) is Some && !ipv6_target_binding) {
            lemma_family_no_siblings(e0, e2, o4, o6, false);
            lemma_family_exact(e0, e2, o4, o6, false);
        }
        lemma_family_respects(e0, e2, o4, o6, exclusion_set, config.exclusions@);
        assert(minimal_cover(l4, prefixes@, config.max_prefix_len_v4, true));
        assert(minimal_cover(l6, prefixes@, config.max_prefix_len_v6, false));
        lemma_family_outcome(res, *config, prefixes@, budget, true, l4, o4);
        lemma_family_outcome(res, *config, prefixes@, budget, false, l6, o6);
    }
    Ok(res)
}

/// Optimize with no progress reporting (see `optimize_with_progress`): once
/// the input and configuration checks pass, the run succeeds unless the trie
/// arena would overflow, and every input lies within an output entry.
pub fn optimize(
    prefixes: &Vec<IpPrefix>,
    config: &OptimizerConfig,
    budget: impl Fn(AddressFamily, u128, bool) -> Option<u128>,
) -> (r: Result<OptimizationResult, OptimizeError>)
    requires
        forall|i: int| 0 <= i < prefixes@.len() ==> (#[trigger] prefixes@[i]).wf(),
        exclusion_entries_wf(config.exclusions@),
        forall|af: AddressFamily, c: u128, t: bool| #[trigger] budget.requires((af, c, t)),
    ensures
        prefixes@.len() > config.max_input_entries ==> (r matches Err(OptimizeError::InputTooLarge { count, limit })
            && count == prefixes@.len() && limit == config.max_input_entries),
        prefixes@.len() <= config.max_input_entries && config_problem(*config) is Some ==>
            (r matches Err(OptimizeError::InvalidConfig { message }) && message@ == config_problem(*config)->0),
        prefixes@.len() <= config.max_input_entries && config_problem(*config) is None && prefixes@.len() == 0 ==>
            r matches Err(OptimizeError::EmptyInput),
        checks_pass(prefixes@, *config) && zero_target_with_input(prefixes@, *config) ==>
            (r matches Err(OptimizeError::TargetTooSmall { target, minimum }) && target == 0 && minimum == 1),
        r is Ok ==> checks_pass(prefixes@, *config) && !zero_target_with_input(prefixes@, *config),
        r matches Ok(res) ==> covered_upto(prefixes@, res.entries@, prefixes@.len() as int),
        r matches Ok(res) ==> res.stats.input_ipv4_count + res.stats.input_ipv6_count == prefixes@.len(),
        r is Ok && config.ipv4_target is None && config.max_prefix_len_v4 == 32 ==>
            forall|x: int| entries_have_v4(r->Ok_0.entries@, x) <==> any_has_v4(prefixes@, x),
        r is Ok && config.ipv6_target is None && config.max_prefix_len_v6 == 128 ==>
            forall|x: int| entries_have_v6(r->Ok_0.entries@, x) <==> any_has_v6(prefixes@, x),
        r is Ok && config.source_map ==>
            forall|k: int| 0 <= k < r->Ok_0.entries@.len() ==> sources_exact(prefixes@, #[trigger] r->Ok_0.entries@[k]),
        r matches Ok(res) ==> within_budget(budget, prefixes@, config.max_prefix_len_v4, true,
            config.ipv4_target == Some(TargetSpec::MaxOverCoverage), res.stats.total_ipv4_over_coverage as int),
        r matches Ok(res) ==> within_budget(budget, prefixes@, config.max_prefix_len_v6, false,
            config.ipv6_target == Some(TargetSpec::MaxOverCoverage), res.stats.total_ipv6_over_coverage as int),
        r matches Err(e) ==> !(e is Cancelled) && !(e is CoverageLost),
        r matches Ok(res) ==> stats_agree(res, *config),
        r matches Ok(res) ==> exclusions_kept_out(res.entries@, config.exclusions@),
        r matches Ok(res) ==> forall|k: int| 0 <= k < res.entries@.len() ==> collisions_listed(#[trigger] res.entries@[k], config.exclusions@),
        r matches Ok(res) ==> family_outcome(res, *config, prefixes@, budget, true)
            && family_outcome(res, *config, prefixes@, budget, false),
        r matches Ok(res) ==> ((config.ipv4_target is None
            || (entry_target(config.ipv4_target) is Some && !res.stats.ipv4_target_binding))
            ==> family_no_siblings(res.entries@, true) && family_exact(res.entries@, true)
                && res.stats.total_ipv4_over_coverage == 0),
        r matches Ok(res) ==> (uncapped(budget, AddressFamily::IPv4) && !(exists|x: int| crate::exclusion::entries_have_v4(config.exclusions@, x))
            ==> target_met(res, *config, true)),
        r matches Ok(res) ==> (uncapped(budget, AddressFamily::IPv6) && !(exists|x: int| crate::exclusion::entries_have_v6(config.exclusions@, x))
            ==> target_met(res, *config, false)),
        r matches Ok(res) ==> ((config.ipv6_target is None
            || (entry_target(config.ipv6_target) is Some && !res.stats.ipv6_target_binding))
            ==> family_no_siblings(res.entries@, false) && family_exact(res.entries@, false)
                && res.stats.total_ipv6_over_coverage == 0),
        r matches Err(e) && e is ArenaOverflow ==> (config.ipv4_target is Some || config.ipv6_target is Some)
            && 2 * prefixes@.len() + 1 >= u32::MAX,
        checks_pass(prefixes@, *config) && !zero_target_with_input(prefixes@, *config)
            && 2 * prefixes@.len() + 1 < u32::MAX ==> r is Ok,
{
    let keep_going = |p: Phase| -> (b: bool)
        ensures
            b,
    { true };
    optimize_with_progress(prefixes, config, keep_going, budget)
}

proof fn lemma_families_present(prefixes: Seq<IpPrefix>, in4: Seq<(usize, Prefix)>, in6: Seq<(usize, Prefix)>)
    requires
        forall|k: int| 0 <= k < in4.len() ==> (#[trigger] in4[k]).0 < prefixes.len()
            && prefixes[in4[k].0 as int] == IpPrefix::V4(Prefix { bits: prefixes[in4[k].0 as int]->V4_0.bits, len: in4[k].1.len }),
        forall|k: int| 0 <= k < in6.len() ==> (#[trigger] in6[k]).0 < prefixes.len()
            && prefixes[in6[k].0 as int] == IpPrefix::V6(Prefix { bits: prefixes[in6[k].0 as int]->V6_0.bits, len: in6[k].1.len }),
        forall|i: int| 0 <= i < prefixes.len() && (#[trigger] prefixes[i]) is V4 ==>
            exists|k: int| 0 <= k < in4.len() && (#[trigger] in4[k]).0 == i,
        forall|i: int| 0 <= i < prefixes.len() && (#[trigger] prefixes[i]) is V6 ==>
            exists|k: int| 0 <= k < in6.len() && (#[trigger] in6[k]).0 == i,
    ensures
        has_v4_input(prefixes) <==> in4.len() > 0,
        has_v6_input(prefixes) <==> in6.len() > 0,
{
    if in4.len() > 0 {
        assert(prefixes[in4[0].0 as int] is V4);
    }
    if in6.len() > 0 {
        assert(prefixes[in6[0].0 as int] is V6);
    }
}

proof fn lemma_entries_wf(e0: Seq<AggregatedEntry>, o4: Seq<SourceMapPrefix>, o6: Seq<SourceMapPrefix>)
    requires
        built_from(e0, o4, o6),
        all_wf(o4, 32),
        all_wf(o6, 128),
    ensures
        forall|k: int| 0 <= k < e0.len() ==> (#[trigger] e0[k]).prefix.wf() && e0[k].exclusion_collisions is None,
        e0.len() == o4.len() + o6.len(),
{
    let (s4, s6) = choose|s4: Seq<SourceMapPrefix>, s6: Seq<SourceMapPrefix>| {
        &&& s4.len() == o4.len()
        &&& s6.len() == o6.len()
        &&& sorted_by_net(s4, 32)
        &&& sorted_by_net(s6, 128)
        &&& forall|j: int| 0 <= j < s4.len() ==> o4.contains(#[trigger] s4[j])
        &&& forall|k: int| 0 <= k < o4.len() ==> s4.contains(#[trigger] o4[k])
        &&& forall|j: int| 0 <= j < s6.len() ==> o6.contains(#[trigger] s6[j])
        &&& forall|k: int| 0 <= k < o6.len() ==> s6.contains(#[trigger] o6[k])
        &&& entries_from(e0, s4, s6)
    };
    assert forall|k: int| 0 <= k < e0.len() implies (#[trigger] e0[k]).prefix.wf() && e0[k].exclusion_collisions is None by {
        if k < s4.len() {
            assert(o4.contains(s4[k]));
            assert(entry_matches(e0[k], s4[k], true));
        } else {
            let j = k - s4.len();
            assert(o6.contains(s6[j]));
            assert(entry_matches(e0[s4.len() + j], s6[j], false));
        }
    }
}

/// An input prefix `q` whose canonical form, once cut, lies within an entry of
/// `l` lies within an entry of `o` when every entry of `l` does.
proof fn lemma_input_within_output(q: Prefix, p: Prefix, l: Seq<SourceMapPrefix>, o: Seq<SourceMapPrefix>, max_len: u8, w: u8)
    requires
        q.wf(w),
        p == (Prefix { bits: q.net(w) as u128, len: q.len }),
        within_some(l, clamp(p, max_len, w), w),
        lies_within(l, o, w),
    ensures
        within_some(o, q, w),
{
    q.lemma_has_bits(w);
    lemma_pow2_pos(q.host(w));
    vstd::arithmetic::div_mod::lemma_div_by_multiple(q.block(w), pow2(q.host(w)) as int);
    assert(p.block(w) == q.block(w));
    assert(p.wf(w));
    lemma_clamp_within(p, max_len, w);
    let j = choose|j: int| 0 <= j < l.len() && within((#[trigger] l[j]).prefix, clamp(p, max_len, w), w);
    assert(within(l[j].prefix, p, w));
    assert(within_some(o, l[j].prefix, w));
    let k = choose|k: int| 0 <= k < o.len() && within((#[trigger] o[k]).prefix, l[j].prefix, w);
    assert(within(o[k].prefix, q, w));
}

/// The requirements under which every input lies within an output entry:
/// every (cut) input of each family lies within an entry of the family's
/// lossless aggregation, and every entry of that within an entry of the
/// family's output, from which the entries were built.
pub open spec fn coverage_chain(
    prefixes: Seq<IpPrefix>,
    in4: Seq<(usize, Prefix)>,
    in6: Seq<(usize, Prefix)>,
    l4: Seq<SourceMapPrefix>,
    l6: Seq<SourceMapPrefix>,
    max4: u8,
    max6: u8,
    o4: Seq<SourceMapPrefix>,
    o6: Seq<SourceMapPrefix>,
    e0: Seq<AggregatedEntry>,
    e2: Seq<AggregatedEntry>,
) -> bool {
    &&& forall|i: int| 0 <= i < prefixes.len() ==> (#[trigger] prefixes[i]).wf()
    &&& forall|k: int| 0 <= k < in4.len() ==> (#[trigger] in4[k]).0 < prefixes.len()
        && prefixes[in4[k].0 as int] == IpPrefix::V4(Prefix { bits: prefixes[in4[k].0 as int]->V4_0.bits, len: in4[k].1.len })
        && in4[k].1.bits as int == prefixes[in4[k].0 as int]->V4_0.net(32)
    &&& forall|k: int| 0 <= k < in6.len() ==> (#[trigger] in6[k]).0 < prefixes.len()
        && prefixes[in6[k].0 as int] == IpPrefix::V6(Prefix { bits: prefixes[in6[k].0 as int]->V6_0.bits, len: in6[k].1.len })
        && in6[k].1.bits as int == prefixes[in6[k].0 as int]->V6_0.net(128)
    &&& forall|i: int| 0 <= i < prefixes.len() && (#[trigger] prefixes[i]) is V4 ==>
        exists|k: int| 0 <= k < in4.len() && (#[trigger] in4[k]).0 == i
    &&& forall|i: int| 0 <= i < prefixes.len() && (#[trigger] prefixes[i]) is V6 ==>
        exists|k: int| 0 <= k < in6.len() && (#[trigger] in6[k]).0 == i
    &&& inputs_within(in4, l4, max4, 32)
    &&& inputs_within(in6, l6, max6, 128)
    &&& lies_within(l4, o4, 32)
    &&& lies_within(l6, o6, 128)
    &&& built_from(e0, o4, o6)
    &&& e2.len() == e0.len()
    &&& forall|k: int| 0 <= k < e2.len() ==> (#[trigger] e2[k]).prefix == e0[k].prefix
}

/// Along the coverage chain, input `i` lies within some output entry.
proof fn lemma_input_covered(
    prefixes: Seq<IpPrefix>,
    in4: Seq<(usize, Prefix)>,
    in6: Seq<(usize, Prefix)>,
    l4: Seq<SourceMapPrefix>,
    l6: Seq<SourceMapPrefix>,
    max4: u8,
    max6: u8,
    o4: Seq<SourceMapPrefix>,
    o6: Seq<SourceMapPrefix>,
    e0: Seq<AggregatedEntry>,
    e2: Seq<AggregatedEntry>,
    i: int,
) -> (m: int)
    requires
        coverage_chain(prefixes, in4, in6, l4, l6, max4, max6, o4, o6, e0, e2),
        0 <= i < prefixes.len(),
    ensures
        0 <= m < e2.len(),
        ip_covers(e2[m].prefix, prefixes[i]),
{
    let (s4, s6) = choose|s4: Seq<SourceMapPrefix>, s6: Seq<SourceMapPrefix>| {
        &&& s4.len() == o4.len()
        &&& s6.len() == o6.len()
        &&& sorted_by_net(s4, 32)
        &&& sorted_by_net(s6, 128)
        &&& forall|j: int| 0 <= j < s4.len() ==> o4.contains(#[trigger] s4[j])
        &&& forall|k: int| 0 <= k < o4.len() ==> s4.contains(#[trigger] o4[k])
        &&& forall|j: int| 0 <= j < s6.len() ==> o6.contains(#[trigger] s6[j])
        &&& forall|k: int| 0 <= k < o6.len() ==> s6.contains(#[trigger] o6[k])
        &&& entries_from(e0, s4, s6)
    };
    assert(prefixes[i].wf());
    if prefixes[i] is V4 {
        let q = prefixes[i]->V4_0;
        let k4 = choose|k: int| 0 <= k < in4.len() && (#[trigger] in4[k]).0 == i;
        assert(in4[k4].1 == Prefix { bits: q.net(32) as u128, len: q.len });
        assert(within_some(l4, clamp(in4[k4].1, max4, 32), 32));
        lemma_input_within_output(q, in4[k4].1, l4, o4, max4, 32);
        let j = choose|j: int| 0 <= j < o4.len() && within((#[trigger] o4[j]).prefix, q, 32);
        assert(s4.contains(o4[j]));
        let m = choose|m: int| 0 <= m < s4.len() && s4[m] == o4[j];
        assert(entry_matches(e0[m], s4[m], true));
        assert(e2[m].prefix == e0[m].prefix);
        m
    } else {
        let q = prefixes[i]->V6_0;
        let k6 = choose|k: int| 0 <= k < in6.len() && (#[trigger] in6[k]).0 == i;
        assert(in6[k6].1 == Prefix { bits: q.net(128) as u128, len: q.len });
        assert(within_some(l6, clamp(in6[k6].1, max6, 128), 128));
        lemma_input_within_output(q, in6[k6].1, l6, o6, max6, 128);
        let j = choose|j: int| 0 <= j < o6.len() && within((#[trigger] o6[j]).prefix, q, 128);
        assert(s6.contains(o6[j]));
        let m = choose|m: int| 0 <= m < s6.len() && s6[m] == o6[j];
        assert(entry_matches(e0[s4.len() + m], s6[m], false));
        assert(e2[s4.len() + m].prefix == e0[s4.len() + m].prefix);
        s4.len() + m
    }
}

/// Along the coverage chain, every input lies within some output entry.
proof fn lemma_inputs_covered(
    prefixes: Seq<IpPrefix>,
    in4: Seq<(usize, Prefix)>,
    in6: Seq<(usize, Prefix)>,
    l4: Seq<SourceMapPrefix>,
    l6: Seq<SourceMapPrefix>,
    max4: u8,
    max6: u8,
    o4: Seq<SourceMapPrefix>,
    o6: Seq<SourceMapPrefix>,
    e0: Seq<AggregatedEntry>,
    e2: Seq<AggregatedEntry>,
    n: int,
)
    requires
        coverage_chain(prefixes, in4, in6, l4, l6, max4, max6, o4, o6, e0, e2),
        0 <= n <= prefixes.len(),
    ensures
        covered_upto(prefixes, e2, n),
    decreases n,
{
    if n > 0 {
        lemma_inputs_covered(prefixes, in4, in6, l4, l6, max4, max6, o4, o6, e0, e2, n - 1);
        let m = lemma_input_covered(prefixes, in4, in6, l4, l6, max4, max6, o4, o6, e0, e2, n - 1);
        lemma_covered_step(prefixes, e2, n - 1, m);
    }
}

proof fn lemma_stats_agree(
    res: OptimizationResult,
    config: OptimizerConfig,
    o4: Seq<SourceMapPrefix>,
    o6: Seq<SourceMapPrefix>,
    e0: Seq<AggregatedEntry>,
    e2: Seq<AggregatedEntry>,
    set: ExclusionSet,
)
    requires
        res.entries@ == e2,
        built_from(e0, o4, o6),
        e2.len() == e0.len(),
        forall|k: int| 0 <= k < e2.len() ==> (#[trigger] e2[k]).prefix == e0[k].prefix,
        res.stats.output_ipv4_count == o4.len(),
        res.stats.output_ipv6_count == o6.len(),
        res.stats.ipv4_target_binding ==> entry_target(config.ipv4_target) is Some,
        res.stats.ipv6_target_binding ==> entry_target(config.ipv6_target) is Some,
        entry_target(config.ipv4_target) is Some && o4.len() > entry_target(config.ipv4_target)->0 ==> res.stats.ipv4_target_binding,
        entry_target(config.ipv6_target) is Some && o6.len() > entry_target(config.ipv6_target)->0 ==> res.stats.ipv6_target_binding,
        forall|x: int| #[trigger] set.excludes_v4(x) <==> crate::exclusion::entries_have_v4(config.exclusions@, x),
        forall|x: int| #[trigger] set.excludes_v6(x) <==> crate::exclusion::entries_have_v6(config.exclusions@, x),
        res.stats.ipv4_exclusion_constrained == (entry_target(config.ipv4_target) is Some
            && o4.len() > entry_target(config.ipv4_target)->0 && !(forall|x: int| !#[trigger] set.excludes_v4(x))),
        res.stats.ipv6_exclusion_constrained == (entry_target(config.ipv6_target) is Some
            && o6.len() > entry_target(config.ipv6_target)->0 && !(forall|x: int| !#[trigger] set.excludes_v6(x))),
    ensures
        stats_agree(res, config),
{
    let (s4, s6) = choose|s4: Seq<SourceMapPrefix>, s6: Seq<SourceMapPrefix>| {
        &&& s4.len() == o4.len()
        &&& s6.len() == o6.len()
        &&& sorted_by_net(s4, 32)
        &&& sorted_by_net(s6, 128)
        &&& forall|j: int| 0 <= j < s4.len() ==> o4.contains(#[trigger] s4[j])
        &&& forall|k: int| 0 <= k < o4.len() ==> s4.contains(#[trigger] o4[k])
        &&& forall|j: int| 0 <= j < s6.len() ==> o6.contains(#[trigger] s6[j])
        &&& forall|k: int| 0 <= k < o6.len() ==> s6.contains(#[trigger] o6[k])
        &&& entries_from(e0, s4, s6)
    };
    assert forall|k: int| 0 <= k < res.entries@.len() implies
        ((#[trigger] res.entries@[k]).prefix is V4 <==> k < res.stats.output_ipv4_count) by {
        assert(e2[k].prefix == e0[k].prefix);
        if k < s4.len() {
            assert(entry_matches(e0[k], s4[k], true));
        } else {
            assert(entry_matches(e0[s4.len() + (k - s4.len())], s6[k - s4.len()], false));
        }
    }
    assert((exists|x: int| crate::exclusion::entries_have_v4(config.exclusions@, x)) == !(forall|x: int| !#[trigger] set.excludes_v4(x))) by {
        if exists|x: int| crate::exclusion::entries_have_v4(config.exclusions@, x) {
            let x = choose|x: int| crate::exclusion::entries_have_v4(config.exclusions@, x);
            assert(set.excludes_v4(x));
        }
        if !(forall|x: int| !#[trigger] set.excludes_v4(x)) {
            let x = choose|x: int| #[trigger] set.excludes_v4(x);
            assert(crate::exclusion::entries_have_v4(config.exclusions@, x));
        }
    }
    assert((exists|x: int| crate::exclusion::entries_have_v6(config.exclusions@, x)) == !(forall|x: int| !#[trigger] set.excludes_v6(x))) by {
        if exists|x: int| crate::exclusion::entries_have_v6(config.exclusions@, x) {
            let x = choose|x: int| crate::exclusion::entries_have_v6(config.exclusions@, x);
            assert(set.excludes_v6(x));
        }
        if !(forall|x: int| !#[trigger] set.excludes_v6(x)) {
            let x = choose|x: int| #[trigger] set.excludes_v6(x);
            assert(crate::exclusion::entries_have_v6(config.exclusions@, x));
        }
    }
}

proof fn lemma_family_equivalent_v4(
    prefixes: Seq<IpPrefix>,
    in4: Seq<(usize, Prefix)>,
    l4: Seq<SourceMapPrefix>,
    o4: Seq<SourceMapPrefix>,
    e0: Seq<AggregatedEntry>,
    e2: Seq<AggregatedEntry>,
)
    requires
        forall|x: int| #[trigger] any_has_v4(prefixes, x) <==> crate::lossless::input_covered(in4, 32, 32, x),
        forall|x: int| covered(l4, 32, x) <==> crate::lossless::input_covered(in4, 32, 32, x),
        o4 == l4,
        exists|o6: Seq<SourceMapPrefix>| built_from(e0, o4, o6),
        e2.len() == e0.len(),
        forall|k: int| 0 <= k < e2.len() ==> (#[trigger] e2[k]).prefix == e0[k].prefix,
    ensures
        forall|x: int| entries_have_v4(e2, x) <==> any_has_v4(prefixes, x),
{
    let o6 = choose|o6: Seq<SourceMapPrefix>| built_from(e0, o4, o6);
    let (s4, s6) = choose|s4: Seq<SourceMapPrefix>, s6: Seq<SourceMapPrefix>| {
        &&& s4.len() == o4.len()
        &&& s6.len() == o6.len()
        &&& sorted_by_net(s4, 32)
        &&& sorted_by_net(s6, 128)
        &&& forall|j: int| 0 <= j < s4.len() ==> o4.contains(#[trigger] s4[j])
        &&& forall|k: int| 0 <= k < o4.len() ==> s4.contains(#[trigger] o4[k])
        &&& forall|j: int| 0 <= j < s6.len() ==> o6.contains(#[trigger] s6[j])
        &&& forall|k: int| 0 <= k < o6.len() ==> s6.contains(#[trigger] o6[k])
        &&& entries_from(e0, s4, s6)
    };
    assert forall|x: int| entries_have_v4(e2, x) <==> any_has_v4(prefixes, x) by {
        if entries_have_v4(e2, x) {
            let k = choose|k: int| 0 <= k < e2.len() && (#[trigger] e2[k]).prefix.has_v4(x);
            assert(e0[k].prefix == e2[k].prefix);
            if k < s4.len() {
                assert(entry_matches(e0[k], s4[k], true));
                assert(o4.contains(s4[k]));
                let j = choose|j: int| 0 <= j < o4.len() && o4[j] == s4[k];
                assert(covered(l4, 32, x));
            } else {
                let j = k - s4.len();
                assert(entry_matches(e0[s4.len() + j], s6[j], false));
            }
        }
        if any_has_v4(prefixes, x) {
            assert(covered(l4, 32, x));
            let j = choose|j: int| 0 <= j < l4.len() && (#[trigger] l4[j]).prefix.has(32, x);
            assert(s4.contains(o4[j]));
            let k = choose|k: int| 0 <= k < s4.len() && s4[k] == o4[j];
            assert(entry_matches(e0[k], s4[k], true));
            assert(e2[k].prefix.has_v4(x));
        }
    }
}

proof fn lemma_family_equivalent_v6(
    prefixes: Seq<IpPrefix>,
    in6: Seq<(usize, Prefix)>,
    l6: Seq<SourceMapPrefix>,
    o6: Seq<SourceMapPrefix>,
    e0: Seq<AggregatedEntry>,
    e2: Seq<AggregatedEntry>,
)
    requires
        forall|x: int| #[trigger] any_has_v6(prefixes, x) <==> crate::lossless::input_covered(in6, 128, 128, x),
        forall|x: int| covered(l6, 128, x) <==> crate::lossless::input_covered(in6, 128, 128, x),
        o6 == l6,
        exists|o4: Seq<SourceMapPrefix>| built_from(e0, o4, o6),
        e2.len() == e0.len(),
        forall|k: int| 0 <= k < e2.len() ==> (#[trigger] e2[k]).prefix == e0[k].prefix,
    ensures
        forall|x: int| entries_have_v6(e2, x) <==> any_has_v6(prefixes, x),
{
    let o4 = choose|o4: Seq<SourceMapPrefix>| built_from(e0, o4, o6);
    let (s4, s6) = choose|s4: Seq<SourceMapPrefix>, s6: Seq<SourceMapPrefix>| {
        &&& s4.len() == o4.len()
        &&& s6.len() == o6.len()
        &&& sorted_by_net(s4, 32)
        &&& sorted_by_net(s6, 128)
        &&& forall|j: int| 0 <= j < s4.len() ==> o4.contains(#[trigger] s4[j])
        &&& forall|k: int| 0 <= k < o4.len() ==> s4.contains(#[trigger] o4[k])
        &&& forall|j: int| 0 <= j < s6.len() ==> o6.contains(#[trigger] s6[j])
        &&& forall|k: int| 0 <= k < o6.len() ==> s6.contains(#[trigger] o6[k])
        &&& entries_from(e0, s4, s6)
    };
    assert forall|x: int| entries_have_v6(e2, x) <==> any_has_v6(prefixes, x) by {
        if entries_have_v6(e2, x) {
            let k = choose|k: int| 0 <= k < e2.len() && (#[trigger] e2[k]).prefix.has_v6(x);
            assert(e0[k].prefix == e2[k].prefix);
            if k < s4.len() {
                assert(entry_matches(e0[k], s4[k], true));
            } else {
                let j = k - s4.len();
                assert(entry_matches(e0[s4.len() + j], s6[j], false));
                assert(o6.contains(s6[j]));
                let m = choose|m: int| 0 <= m < o6.len() && o6[m] == s6[j];
                assert(covered(l6, 128, x));
            }
        }
        if any_has_v6(prefixes, x) {
            assert(covered(l6, 128, x));
            let j = choose|j: int| 0 <= j < l6.len() && (#[trigger] l6[j]).prefix.has(128, x);
            assert(s6.contains(o6[j]));
            let m = choose|m: int| 0 <= m < s6.len() && s6[m] == o6[j];
            assert(entry_matches(e0[s4.len() + m], s6[m], false));
            assert(e2[s4.len() + m].prefix.has_v6(x));
        }
    }
}

} // verus!
