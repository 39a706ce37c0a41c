//! What became of one address family in an optimization run.
use vstd::prelude::*;
use crate::lossless::SourceMapPrefix;
use crate::prefix::IpPrefix;
use crate::types::{AddressFamily, OptimizationResult, OptimizerConfig, TargetSpec};
use crate::pipeline::{minimal_cover, entry_target, family_greedy, over_total, width, saturated, greedy_result, greedy_run};
use crate::trie::BinaryTrie;
use crate::preferred::PreferredSet;
use crate::optimizer::{admitted, budget_stop, trace_ok, steps_above};
use crate::progress::stuck;

verus! {

/// The address family (IPv4 when `v4`).
pub open spec fn fam_af(v4: bool) -> AddressFamily {
    if v4 { AddressFamily::IPv4 } else { AddressFamily::IPv6 }
}

/// The family's target.
pub open spec fn fam_target(config: OptimizerConfig, v4: bool) -> Option<TargetSpec> {
    if v4 { config.ipv4_target } else { config.ipv6_target }
}

/// The family's longest prefix length.
pub open spec fn fam_max_len(config: OptimizerConfig, v4: bool) -> u8 {
    if v4 { config.max_prefix_len_v4 } else { config.max_prefix_len_v6 }
}

/// What became of one family (IPv4 when `v4`): there is a lossless
/// aggregation `l` of its inputs; the target binds exactly when it is an
/// entry count below the size of `l`; without a target, or with one that
/// does not bind, the family keeps `l`'s count; with a binding entry-count
/// target, or an over-coverage target and more than one entry in `l`, the
/// family's output (its count and total over-coverage) is what the greedy
/// optimizer makes of `l` with that target (one, for an over-coverage
/// target) under the budget the `budget` closure answered.
#[verifier::opaque]
pub open spec fn family_outcome<F: Fn(AddressFamily, u128, bool) -> Option<u128>>(res: OptimizationResult,
    config: OptimizerConfig, prefixes: Seq<IpPrefix>, budget: F, v4: bool) -> bool {
    let max_len = fam_max_len(config, v4);
    let target = fam_target(config, v4);
    let binding = if v4 { res.stats.ipv4_target_binding } else { res.stats.ipv6_target_binding };
    let count = if v4 { res.stats.output_ipv4_count } else { res.stats.output_ipv6_count };
    let total = if v4 { res.stats.total_ipv4_over_coverage } else { res.stats.total_ipv6_over_coverage };
    let af = fam_af(v4);
    exists|l: Seq<SourceMapPrefix>| #[trigger] minimal_cover(l, prefixes, max_len, v4)
        && (binding <==> (entry_target(target) is Some && l.len() > entry_target(target)->0))
        && ((target is None || (entry_target(target) is Some && !binding)) ==> count == l.len())
        && (entry_target(target) is Some && l.len() > entry_target(target)->0 ==>
            exists|v: Seq<SourceMapPrefix>| #[trigger] family_greedy(budget, af, false, l, v, entry_target(target)->0 as int)
                && count == v.len() && total == saturated(over_total(v, width(v4), v.len() as int)))
        && (target == Some(TargetSpec::MaxOverCoverage) && l.len() > 1 ==>
            exists|v: Seq<SourceMapPrefix>| #[trigger] family_greedy(budget, af, true, l, v, 1)
                && count == v.len() && total == saturated(over_total(v, width(v4), v.len() as int)))
}

/// The facts of one family's run give its outcome.
pub(crate) proof fn lemma_family_outcome<F: Fn(AddressFamily, u128, bool) -> Option<u128>>(res: OptimizationResult,
    config: OptimizerConfig, prefixes: Seq<IpPrefix>, budget: F, v4: bool, l: Seq<SourceMapPrefix>, o: Seq<SourceMapPrefix>)
    requires
        minimal_cover(l, prefixes, fam_max_len(config, v4), v4),
        ({
            let target = fam_target(config, v4);
            let binding = if v4 { res.stats.ipv4_target_binding } else { res.stats.ipv6_target_binding };
            let count = if v4 { res.stats.output_ipv4_count } else { res.stats.output_ipv6_count };
            let total = if v4 { res.stats.total_ipv4_over_coverage } else { res.stats.total_ipv6_over_coverage };
            let af = fam_af(v4);
            &&& binding == (entry_target(target) is Some && l.len() > entry_target(target)->0)
            &&& count == o.len()
            &&& total == saturated(over_total(o, width(v4), o.len() as int))
            &&& (target is None || (entry_target(target) is Some && !binding)) ==> o == l
            &&& entry_target(target) is Some && l.len() > entry_target(target)->0 ==>
                family_greedy(budget, af, false, l, o, entry_target(target)->0 as int)
            &&& target == Some(TargetSpec::MaxOverCoverage) && l.len() > 1 ==> family_greedy(budget, af, true, l, o, 1)
        }),
    ensures
        family_outcome(res, config, prefixes, budget, v4),
{
    reveal(family_outcome);
    let max_len = fam_max_len(config, v4);
    let target = fam_target(config, v4);
    let af = fam_af(v4);
    assert(minimal_cover(l, prefixes, max_len, v4));
    if entry_target(target) is Some && l.len() > entry_target(target)->0 {
        assert(family_greedy(budget, af, false, l, o, entry_target(target)->0 as int));
    }
    if target == Some(TargetSpec::MaxOverCoverage) && l.len() > 1 {
        assert(family_greedy(budget, af, true, l, o, 1));
    }
}


/// The greedy run on the family ended on trie `t` after the collapses
/// `steps` with nothing but excluded nodes left to collapse, or where the
/// next greedy collapse would take the admitted over-coverage past `bud`,
/// the budget that `budget` answered for `input` covered addresses.
pub open spec fn stopped_by_budget<F: Fn(AddressFamily, u128, bool) -> Option<u128>>(budget: F, af: AddressFamily,
    t: BinaryTrie, steps: Seq<(BinaryTrie, int)>, set: PreferredSet, bud: Option<u128>, input: u128) -> bool {
    &&& call_ensures(budget, (af, input, true), bud)
    &&& stuck(t) || budget_stop(t, admitted(steps) as u128, bud, input, 0, None, set, true)
}

/// With an over-coverage target and more than one lossless entry, the family
/// is merged down to one entry, or the greedy run stopped at the budget: the
/// family keeps the leaves of a trie where nothing but excluded nodes can be
/// collapsed or the next greedy collapse would break the budget.
pub proof fn law_over_coverage_target<F: Fn(AddressFamily, u128, bool) -> Option<u128>>(res: OptimizationResult,
    config: OptimizerConfig, prefixes: Seq<IpPrefix>, budget: F, v4: bool)
    requires
        family_outcome(res, config, prefixes, budget, v4),
        fam_target(config, v4) == Some(TargetSpec::MaxOverCoverage),
    ensures
        exists|l: Seq<SourceMapPrefix>| #[trigger] minimal_cover(l, prefixes, fam_max_len(config, v4), v4) && (l.len() > 1 ==> {
            let count = if v4 { res.stats.output_ipv4_count } else { res.stats.output_ipv6_count };
            count <= 1 || exists|t: BinaryTrie, steps: Seq<(BinaryTrie, int)>, set: PreferredSet, bud: Option<u128>, input: u128|
                #[trigger] stopped_by_budget(budget, fam_af(v4), t, steps, set, bud, input) && count == t.leaves_of(t.root as int).len()
        }),
{
    reveal(family_outcome);
    let count = if v4 { res.stats.output_ipv4_count } else { res.stats.output_ipv6_count };
    let af = fam_af(v4);
    let l = choose|l: Seq<SourceMapPrefix>| #[trigger] minimal_cover(l, prefixes, fam_max_len(config, v4), v4)
        && (fam_target(config, v4) == Some(TargetSpec::MaxOverCoverage) && l.len() > 1 ==>
            exists|v: Seq<SourceMapPrefix>| #[trigger] family_greedy(budget, af, true, l, v, 1)
                && count == v.len());
    if l.len() > 1 {
        let v = choose|v: Seq<SourceMapPrefix>| #[trigger] family_greedy(budget, af, true, l, v, 1) && count == v.len();
        let w: u8 = if af is IPv4 { 32u8 } else { 128u8 };
        let (bud, input) = choose|bud: Option<u128>, input: u128| #[trigger] call_ensures(budget, (af, input, true), bud)
            && greedy_result(l, w, v, 1, bud, input);
        let (b, t, steps, set) = choose|b: BinaryTrie, t: BinaryTrie, steps: Seq<(BinaryTrie, int)>, set: PreferredSet|
            #[trigger] trace_ok(b, t, steps, set, true) && greedy_run(l, w, v, 1, bud, input, b, t, steps, set);
        if count > 1 {
            assert(stopped_by_budget(budget, af, t, steps, set, bud, input));
        }
    }
    assert(minimal_cover(l, prefixes, fam_max_len(config, v4), v4));
}


/// With a binding entry-count target, the family keeps the leaves of a
/// greedy run from a trie holding its lossless entries in which every
/// collapse was a greedy choice made while more than `target` leaves
/// remained (see `law_greedy_run`): no collapse is made once the target is met.
pub proof fn law_entry_target_run<F: Fn(AddressFamily, u128, bool) -> Option<u128>>(res: OptimizationResult,
    config: OptimizerConfig, prefixes: Seq<IpPrefix>, budget: F, v4: bool)
    requires
        family_outcome(res, config, prefixes, budget, v4),
        entry_target(fam_target(config, v4)) is Some,
    ensures
        exists|l: Seq<SourceMapPrefix>| #[trigger] minimal_cover(l, prefixes, fam_max_len(config, v4), v4)
            && (l.len() > entry_target(fam_target(config, v4))->0 ==> {
            let count = if v4 { res.stats.output_ipv4_count } else { res.stats.output_ipv6_count };
            exists|b: BinaryTrie, t: BinaryTrie, steps: Seq<(BinaryTrie, int)>, set: PreferredSet|
                #[trigger] trace_ok(b, t, steps, set, true) && steps_above(steps, entry_target(fam_target(config, v4))->0 as int)
                && count == t.leaves_of(t.root as int).len()
        }),
{
    reveal(family_outcome);
    let count = if v4 { res.stats.output_ipv4_count } else { res.stats.output_ipv6_count };
    let af = fam_af(v4);
    let target = fam_target(config, v4);
    let l = choose|l: Seq<SourceMapPrefix>| #[trigger] minimal_cover(l, prefixes, fam_max_len(config, v4), v4)
        && (entry_target(target) is Some && l.len() > entry_target(target)->0 ==>
            exists|v: Seq<SourceMapPrefix>| #[trigger] family_greedy(budget, af, false, l, v, entry_target(target)->0 as int)
                && count == v.len());
    if l.len() > entry_target(target)->0 {
        let n = entry_target(target)->0 as int;
        let v = choose|v: Seq<SourceMapPrefix>| #[trigger] family_greedy(budget, af, false, l, v, n) && count == v.len();
        let w: u8 = if af is IPv4 { 32u8 } else { 128u8 };
        let (bud, input) = choose|bud: Option<u128>, input: u128| #[trigger] call_ensures(budget, (af, input, false), bud)
            && greedy_result(l, w, v, n, bud, input);
        let (b, t, steps, set) = choose|b: BinaryTrie, t: BinaryTrie, steps: Seq<(BinaryTrie, int)>, set: PreferredSet|
            #[trigger] trace_ok(b, t, steps, set, true) && greedy_run(l, w, v, n, bud, input, b, t, steps, set);
        assert(trace_ok(b, t, steps, set, true) && steps_above(steps, n) && count == t.leaves_of(t.root as int).len());
    }
    assert(minimal_cover(l, prefixes, fam_max_len(config, v4), v4));
}

} // verus!
