//! Plain data types shared across the library.
use vstd::prelude::*;
use crate::prefix::{Prefix, IpPrefix};

verus! {

impl IpPrefix {
    /// A well-formed IPv4 or IPv6 prefix.
    pub open spec fn wf(self) -> bool {
        match self {
            IpPrefix::V4(p) => p.wf(32),
            IpPrefix::V6(p) => p.wf(128),
        }
    }

    /// The address `x` (of the prefix's own family) lies in the prefix.
    pub open spec fn has_v4(self, x: int) -> bool {
        match self {
            IpPrefix::V4(p) => p.has(32, x),
            IpPrefix::V6(_) => false,
        }
    }

    pub open spec fn has_v6(self, x: int) -> bool {
        match self {
            IpPrefix::V4(_) => false,
            IpPrefix::V6(p) => p.has(128, x),
        }
    }
}

/// A single exclusion entry: a prefix that must not appear as over-coverage.
pub struct ExclusionEntry {
    pub prefix: IpPrefix,
    pub source: String,
    pub comment: Option<String>,
}

/// A single preferred entry: a prefix whose addresses are acceptable over-coverage.
pub struct PreferredEntry {
    pub prefix: IpPrefix,
    pub source: String,
    pub comment: Option<String>,
}

/// How the optimization target is given for an address family. The ratio of
/// an over-coverage target is held by the caller, which turns it into an
/// address budget once the covered addresses are known.
#[derive(Clone, Copy, Debug, PartialEq, Eq)]
pub enum TargetSpec {
    /// At most this many entries.
    EntryCount(usize),
    /// As few entries as the over-coverage ratio allows.
    MaxOverCoverage,
}

/// A single parsed CIDR line with metadata.
pub struct ParsedCidr {
    /// The prefix, in canonical form.
    pub prefix: IpPrefix,
    /// The prefix text as written.
    pub raw_text: String,
    /// The inline comment, if any.
    pub comment: Option<String>,
    /// The line number, counted from one.
    pub line_number: usize,
}

/// Records a collision between an output prefix and an exclusion entry.
pub struct ExclusionCollision {
    pub exclusion_prefix: String,
    pub exclusion_source: String,
    pub exclusion_comment: Option<String>,
}

/// Configuration of the optimizer. Ratios are held by the caller (see
/// `TargetSpec`); a problem the caller found with them is passed in
/// `ratio_problem` and reported as an invalid configuration.
pub struct OptimizerConfig {
    pub ipv4_target: Option<TargetSpec>,
    pub ipv6_target: Option<TargetSpec>,
    pub max_prefix_len_v4: u8,
    pub max_prefix_len_v6: u8,
    pub max_input_entries: usize,
    pub source_map: bool,
    pub exclusions: Vec<ExclusionEntry>,
    pub ratio_problem: Option<String>,
}

impl Default for OptimizerConfig {
    fn default() -> (r: OptimizerConfig)
        ensures
            r.ipv4_target is None,
            r.ipv6_target is None,
            r.max_prefix_len_v4 == 32,
            r.max_prefix_len_v6 == 128,
            r.max_input_entries == 10_000_000,
            !r.source_map,
            r.exclusions@.len() == 0,
            r.ratio_problem is None,
    {
        OptimizerConfig {
            ipv4_target: None,
            ipv6_target: None,
            max_prefix_len_v4: 32,
            max_prefix_len_v6: 128,
            max_input_entries: 10_000_000,
            source_map: false,
            exclusions: Vec::new(),
            ratio_problem: None,
        }
    }
}

/// An address family.
#[derive(Clone, Copy, Debug, PartialEq, Eq)]
pub enum AddressFamily {
    IPv4,
    IPv6,
}

/// Progress information passed to the progress callback.
pub enum Phase {
    Parsing { entries_read: usize },
    Lossless { af: AddressFamily, entries_remaining: usize },
    Lossy { af: AddressFamily, current_count: usize, target: usize },
    Done,
}

/// A single output prefix with optional source map.
pub struct AggregatedEntry {
    pub prefix: IpPrefix,
    pub source_indices: Option<Vec<usize>>,
    pub over_coverage: u128,
    pub exclusion_collisions: Option<Vec<ExclusionCollision>>,
}

/// The output entries and statistics.
pub struct OptimizationResult {
    pub entries: Vec<AggregatedEntry>,
    pub stats: OptimizationStats,
}

/// Counts of the optimization. The compression ratios (input over output
/// count) are computed by the caller from these counts.
pub struct OptimizationStats {
    pub input_ipv4_count: usize,
    pub input_ipv6_count: usize,
    pub output_ipv4_count: usize,
    pub output_ipv6_count: usize,
    pub total_ipv4_over_coverage: u128,
    pub total_ipv6_over_coverage: u128,
    pub ipv4_target_binding: bool,
    pub ipv6_target_binding: bool,
    pub ipv4_exclusion_constrained: bool,
    pub ipv6_exclusion_constrained: bool,
}

/// A single input entry with its original text and optional inline comment.
pub struct InputEntry {
    pub original: String,
    pub comment: Option<String>,
}

/// The optimization result together with the input metadata.
pub struct ReaderResult {
    pub result: OptimizationResult,
    pub input_metadata: Vec<InputEntry>,
}

} // verus!
