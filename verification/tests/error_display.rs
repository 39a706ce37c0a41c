use cidr_optimizer::error::{OptimizeError, OptimizerError};

#[test]
fn optimize_error_display() {
    let e = OptimizeError::EmptyInput;
    assert_eq!(e.message(), "no valid entries in input");

    let e = OptimizeError::InputTooLarge { count: 20, limit: 10 };
    assert_eq!(e.message(), "input too large: 20 entries exceeds limit of 10");

    let e = OptimizeError::TargetTooSmall { target: 0, minimum: 1 };
    assert_eq!(e.message(), "target 0 too small (minimum: 1)");
}

#[test]
fn optimizer_error_display() {
    let e = OptimizerError::Parse { line: 5, message: "invalid IP".into() };
    assert_eq!(e.message(), "parse error at line 5: invalid IP");

    let e = OptimizerError::TargetSpecParse { message: "missing %".into() };
    assert_eq!(e.message(), "invalid target spec: missing %");

    let e = OptimizerError::Io { message: "gone".into() };
    assert_eq!(e.message(), "I/O error: gone");
}

#[test]
fn other_error_messages() {
    assert_eq!(
        OptimizeError::InvalidConfig { message: "bad".into() }.message(),
        "invalid config: bad"
    );
    assert_eq!(
        OptimizeError::ArenaOverflow.message(),
        "trie arena overflow: exceeded u32::MAX nodes"
    );
    assert_eq!(
        OptimizeError::Cancelled.message(),
        "optimization cancelled by progress callback"
    );
    assert_eq!(
        OptimizeError::CoverageLost.message(),
        "coverage invariant violated: output does not cover all input prefixes"
    );
    assert_eq!(
        OptimizerError::Optimize(OptimizeError::EmptyInput).message(),
        "no valid entries in input"
    );
    assert_eq!(
        OptimizeError::InputTooLarge { count: 12345678901, limit: 0 }.message(),
        "input too large: 12345678901 entries exceeds limit of 0"
    );
}
