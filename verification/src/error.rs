//! The two error types: `OptimizeError` for failures of the optimization
//! itself, and `OptimizerError` for the end-to-end path that also parses text.
use vstd::prelude::*;
use crate::text::{decimal, usize_text, push_text, joined};

verus! {

/// Failures that can occur during the core optimization algorithm.
#[derive(Debug)]
pub enum OptimizeError {
    /// The input contained no valid CIDR entries.
    EmptyInput,
    /// A configuration parameter is invalid (e.g. conflicting targets).
    InvalidConfig { message: String },
    /// The requested target is below the minimum achievable entry count.
    TargetTooSmall { target: usize, minimum: usize },
    /// Input exceeds the hard safety limit on entry count.
    InputTooLarge { count: usize, limit: usize },
    /// The prefix trie would exceed `u32::MAX` nodes.
    ArenaOverflow,
    /// The progress callback asked for cancellation.
    Cancelled,
    /// Internal invariant violation: the output does not cover all inputs.
    CoverageLost,
}

/// End-to-end errors covering input parsing, I/O, and optimization.
#[derive(Debug)]
pub enum OptimizerError {
    /// An error from the core optimization algorithm.
    Optimize(OptimizeError),
    /// A CIDR entry could not be parsed at the given input line.
    Parse { line: usize, message: String },
    /// The target specification string is malformed.
    TargetSpecParse { message: String },
    /// An I/O error occurred while reading input (its message).
    Io { message: String },
}

impl OptimizeError {
    /// The text describing the error.
    pub open spec fn message_spec(self) -> Seq<char> {
        match self {
            OptimizeError::EmptyInput => "no valid entries in input"@,
            OptimizeError::InvalidConfig { message } => "invalid config: "@ + message@,
            OptimizeError::TargetTooSmall { target, minimum } => "target "@ + decimal(target as nat)
                + " too small (minimum: "@ + decimal(minimum as nat) + ")"@,
            OptimizeError::InputTooLarge { count, limit } => "input too large: "@ + decimal(count as nat)
                + " entries exceeds limit of "@ + decimal(limit as nat),
            OptimizeError::ArenaOverflow => "trie arena overflow: exceeded u32::MAX nodes"@,
            OptimizeError::Cancelled => "optimization cancelled by progress callback"@,
            OptimizeError::CoverageLost => "coverage invariant violated: output does not cover all input prefixes"@,
        }
    }

    /// The text describing the error.
    pub fn message(&self) -> (r: String)
        ensures
            r@ == self.message_spec(),
    {
        let mut s = String::new();
        match self {
            OptimizeError::EmptyInput => push_text(&mut s, "no valid entries in input"),
            OptimizeError::InvalidConfig { message } => {
                push_text(&mut s, "invalid config: ");
                push_text(&mut s, message.as_str());
            },
            OptimizeError::TargetTooSmall { target, minimum } => {
                push_text(&mut s, "target ");
                push_text(&mut s, usize_text(*target).as_str());
                push_text(&mut s, " too small (minimum: ");
                push_text(&mut s, usize_text(*minimum).as_str());
                push_text(&mut s, ")");
            },
            OptimizeError::InputTooLarge { count, limit } => {
                push_text(&mut s, "input too large: ");
                push_text(&mut s, usize_text(*count).as_str());
                push_text(&mut s, " entries exceeds limit of ");
                push_text(&mut s, usize_text(*limit).as_str());
            },
            OptimizeError::ArenaOverflow => push_text(&mut s, "trie arena overflow: exceeded u32::MAX nodes"),
            OptimizeError::Cancelled => push_text(&mut s, "optimization cancelled by progress callback"),
            OptimizeError::CoverageLost => push_text(&mut s, "coverage invariant violated: output does not cover all input prefixes"),
        }
        proof {
            assert(s@ =~= self.message_spec());
        }
        s
    }
}

impl OptimizerError {
    /// The text describing the error.
    pub open spec fn message_spec(self) -> Seq<char> {
        match self {
            OptimizerError::Optimize(e) => e.message_spec(),
            OptimizerError::Parse { line, message } => "parse error at line "@ + decimal(line as nat) + ": "@ + message@,
            OptimizerError::TargetSpecParse { message } => "invalid target spec: "@ + message@,
            OptimizerError::Io { message } => "I/O error: "@ + message@,
        }
    }

    /// The text describing the error.
    pub fn message(&self) -> (r: String)
        ensures
            r@ == self.message_spec(),
    {
        match self {
            OptimizerError::Optimize(e) => e.message(),
            OptimizerError::Parse { line, message } => {
                let mut s = String::new();
                push_text(&mut s, "parse error at line ");
                push_text(&mut s, usize_text(*line).as_str());
                push_text(&mut s, ": ");
                push_text(&mut s, message.as_str());
                proof {
                    assert(s@ =~= self.message_spec());
                }
                s
            },
            OptimizerError::TargetSpecParse { message } => joined("invalid target spec: ", message.as_str()),
            OptimizerError::Io { message } => joined("I/O error: ", message.as_str()),
        }
    }
}

} // verus!
