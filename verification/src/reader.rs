//! The end-to-end path from input lines to an optimization result.
use vstd::prelude::*;
use crate::prefix::{Prefix, IpPrefix};
use crate::types::{AddressFamily, OptimizationResult, OptimizerConfig, ReaderResult, TargetSpec};
use crate::error::{OptimizeError, OptimizerError};
use crate::exclusion::exclusion_entries_wf;
use crate::pipeline::{optimize, config_problem, checks_pass, zero_target_with_input, covered_upto, sources_exact, within_budget, stats_agree, entry_target, family_no_siblings, family_exact, uncapped, target_met};
use crate::parser::{parse_input, all_quotable, list_fails, list_error, list_entries, EntrySpec, v4_entries, v6_entries, metadata_are, input_is, lemma_split_len};

verus! {

/// The prefixes of the entries: the IPv4 ones, then the IPv6 ones, each
/// group in entry order.
pub open spec fn reader_prefixes(es: Seq<EntrySpec>) -> Seq<IpPrefix> {
    let a = v4_entries(es, es.len() as int);
    let b = v6_entries(es, es.len() as int);
    Seq::new(a.len(), |k: int| IpPrefix::V4(a[k].1)) + Seq::new(b.len(), |k: int| IpPrefix::V6(b[k].1))
}

/// Parses the input lines and optimizes the prefixes they hold: the IPv4
/// prefixes first, then the IPv6 ones. The text of each entry comes back with
/// the result when the source map is asked for.
pub fn optimize_from_reader(
    lines: &Vec<String>,
    read_error: Option<String>,
    config: &OptimizerConfig,
    budget: impl Fn(AddressFamily, u128, bool) -> Option<u128>,
) -> (r: Result<ReaderResult, OptimizerError>)
    requires
        all_quotable(lines@),
        exclusion_entries_wf(config.exclusions@),
        forall|af: AddressFamily, c: u128, t: bool| #[trigger] budget.requires((af, c, t)),
    ensures
        list_fails(lines@, read_error) ==> (r matches Err(e) && list_error(lines@, read_error, e)),
        !list_fails(lines@, read_error) && list_entries(lines@).len() > config.max_input_entries ==> (r matches Err(
            OptimizerError::Optimize(OptimizeError::InputTooLarge { count, limit }))
            && count == list_entries(lines@).len() && limit == config.max_input_entries),
        ({
            let ps = reader_prefixes(list_entries(lines@));
            &&& !list_fails(lines@, read_error) && list_entries(lines@).len() <= config.max_input_entries
                && ps.len() == 0 ==> (r matches Err(OptimizerError::Optimize(OptimizeError::EmptyInput)))
            &&& !list_fails(lines@, read_error) && list_entries(lines@).len() <= config.max_input_entries
                && ps.len() > 0 && config_problem(*config) is Some ==> (r matches Err(OptimizerError::Optimize(
                OptimizeError::InvalidConfig { message })) && message@ == config_problem(*config)->0)
            &&& !list_fails(lines@, read_error) && ps.len() > 0 && checks_pass(ps, *config)
                && zero_target_with_input(ps, *config) ==> (r matches Err(OptimizerError::Optimize(
                OptimizeError::TargetTooSmall { target, minimum })) && target == 0 && minimum == 1)
            &&& !list_fails(lines@, read_error) && checks_pass(ps, *config) && !zero_target_with_input(ps, *config)
                && 2 * ps.len() + 1 < u32::MAX ==> r is Ok
            &&& r matches Ok(rr) ==> {
                &&& !list_fails(lines@, read_error)
                &&& checks_pass(ps, *config) && !zero_target_with_input(ps, *config)
                &&& covered_upto(ps, rr.result.entries@, ps.len() as int)
                &&& rr.result.stats.input_ipv4_count + rr.result.stats.input_ipv6_count == ps.len()
                &&& stats_agree(rr.result, *config)
                &&& (config.ipv4_target is None || (entry_target(config.ipv4_target) is Some
                    && !rr.result.stats.ipv4_target_binding)) ==> family_no_siblings(rr.result.entries@, true) && family_exact(rr.result.entries@, true)
                &&& (config.ipv6_target is None || (entry_target(config.ipv6_target) is Some
                    && !rr.result.stats.ipv6_target_binding)) ==> family_no_siblings(rr.result.entries@, false) && family_exact(rr.result.entries@, false)
                &&& uncapped(budget, AddressFamily::IPv4) && !(exists|x: int| crate::exclusion::entries_have_v4(config.exclusions@, x))
                    ==> target_met(rr.result, *config, true)
                &&& uncapped(budget, AddressFamily::IPv6) && !(exists|x: int| crate::exclusion::entries_have_v6(config.exclusions@, x))
                    ==> target_met(rr.result, *config, false)
                &&& within_budget(budget, ps, config.max_prefix_len_v4, true,
                    config.ipv4_target == Some(TargetSpec::MaxOverCoverage), rr.result.stats.total_ipv4_over_coverage as int)
                &&& within_budget(budget, ps, config.max_prefix_len_v6, false,
                    config.ipv6_target == Some(TargetSpec::MaxOverCoverage), rr.result.stats.total_ipv6_over_coverage as int)
                &&& if config.source_map {
                    &&& metadata_are(rr.input_metadata@, list_entries(lines@), list_entries(lines@).len() as int)
                    &&& forall|k: int| 0 <= k < rr.result.entries@.len() ==> sources_exact(ps, #[trigger] rr.result.entries@[k])
                } else {
                    rr.input_metadata@.len() == 0
                }
            }
        }),
{
    proof {
        lemma_split_len(list_entries(lines@), list_entries(lines@).len() as int);
    }
    let parsed = parse_input(lines, read_error, config.source_map, config.max_input_entries)?;
    let ghost es = list_entries(lines@);
    let ghost ps = reader_prefixes(es);
    let mut prefixes: Vec<IpPrefix> = Vec::new();
    let mut i: usize = 0;
    while i < parsed.ipv4.len()
        invariant
            input_is(parsed, es, config.source_map),
            i <= parsed.ipv4@.len(),
            prefixes@ == Seq::new(i as nat, |k: int| IpPrefix::V4(parsed.ipv4@[k].1)),
        decreases parsed.ipv4@.len() - i,
    {
        prefixes.push(IpPrefix::V4(parsed.ipv4[i].1));
        proof {
            assert(prefixes@ =~= Seq::new((i + 1) as nat, |k: int| IpPrefix::V4(parsed.ipv4@[k].1)));
        }
        i = i + 1;
    }
    let n4 = prefixes.len();
    let mut j: usize = 0;
    while j < parsed.ipv6.len()
        invariant
            input_is(parsed, es, config.source_map),
            j <= parsed.ipv6@.len(),
            n4 == parsed.ipv4@.len(),
            prefixes@ == Seq::new(n4 as nat, |k: int| IpPrefix::V4(parsed.ipv4@[k].1))
                + Seq::new(j as nat, |k: int| IpPrefix::V6(parsed.ipv6@[k].1)),
        decreases parsed.ipv6@.len() - j,
    {
        prefixes.push(IpPrefix::V6(parsed.ipv6[j].1));
        proof {
            assert(prefixes@ =~= Seq::new(n4 as nat, |k: int| IpPrefix::V4(parsed.ipv4@[k].1))
                + Seq::new((j + 1) as nat, |k: int| IpPrefix::V6(parsed.ipv6@[k].1)));
        }
        j = j + 1;
    }
    proof {
        assert(prefixes@ =~= ps);
    }
    if prefixes.len() == 0 {
        return Err(OptimizerError::Optimize(OptimizeError::EmptyInput));
    }
    proof {
        assert forall|k: int| 0 <= k < prefixes@.len() implies (#[trigger] prefixes@[k]).wf() by {
            if k < n4 {
                assert(parsed.ipv4@[k].1.wf(32));
            } else {
                assert(parsed.ipv6@[k - n4].1.wf(128));
            }
        }
    }
    match optimize(&prefixes, config, budget) {
        Ok(result) => Ok(ReaderResult { result, input_metadata: parsed.input_metadata }),
        Err(e) => Err(OptimizerError::Optimize(e)),
    }
}

} // verus!
