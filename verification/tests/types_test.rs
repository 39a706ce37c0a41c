use cidr_optimizer::error::OptimizerError;
use cidr_optimizer::target::{parse_target_request, TargetRequest};
use cidr_optimizer::types::{OptimizerConfig, TargetSpec};

#[test]
fn default_config_values() {
    let cfg = OptimizerConfig::default();
    assert_eq!(cfg.ipv4_target, None::<TargetSpec>);
    assert_eq!(cfg.ipv6_target, None::<TargetSpec>);
    assert!(cfg.ratio_problem.is_none());
    assert_eq!(cfg.max_prefix_len_v4, 32);
    assert_eq!(cfg.max_prefix_len_v6, 128);
    assert_eq!(cfg.max_input_entries, 10_000_000);
    assert!(!cfg.source_map);
}

#[test]
fn target_spec_from_str_integer() {
    match parse_target_request("60") {
        Ok(TargetRequest::EntryCount(n)) => assert_eq!(n, 60),
        _ => panic!("expected an entry count"),
    }
}

#[test]
fn target_spec_from_str_zero() {
    match parse_target_request("0") {
        Ok(TargetRequest::EntryCount(n)) => assert_eq!(n, 0),
        _ => panic!("expected an entry count"),
    }
}

#[test]
fn target_spec_from_str_missing_percent() {
    let result = parse_target_request("over-coverage=0.1");
    assert!(result.is_err());
    assert!(result.err().unwrap().message().contains("must end with '%'"));
}

#[test]
fn target_spec_from_str_garbage() {
    let result = parse_target_request("not_a_number");
    assert!(result.is_err());
    assert!(result.err().unwrap().message().contains("invalid target"));
}

#[test]
fn target_spec_from_str_empty() {
    let result = parse_target_request("");
    assert!(result.is_err());
}

#[test]
fn over_coverage_percentage_text_is_handed_back() {
    match parse_target_request("over-coverage=0.1%") {
        Ok(TargetRequest::OverCoveragePercent(t)) => assert_eq!(t, "0.1"),
        _ => panic!("expected a percentage"),
    }
    match parse_target_request("over-coverage=%") {
        Ok(TargetRequest::OverCoveragePercent(t)) => assert_eq!(t, ""),
        _ => panic!("expected a percentage"),
    }
    match parse_target_request("over-coverage=5%%") {
        Ok(TargetRequest::OverCoveragePercent(t)) => assert_eq!(t, "5%"),
        _ => panic!("expected a percentage"),
    }
}

#[test]
fn entry_counts_read_as_usize_does() {
    for (text, expected) in [
        ("+7", Some(7usize)),
        ("007", Some(7)),
        ("18446744073709551615", Some(usize::MAX)),
        ("18446744073709551616", None),
        ("-1", None),
        ("+", None),
        (" 5", None),
        ("5 ", None),
    ] {
        let got = match parse_target_request(text) {
            Ok(TargetRequest::EntryCount(n)) => Some(n),
            Ok(TargetRequest::OverCoveragePercent(_)) => panic!("unexpected percentage"),
            Err(OptimizerError::TargetSpecParse { message }) => {
                assert_eq!(message, format!("invalid target: '{}' (expected integer or over-coverage=X%)", text));
                None
            }
            Err(_) => panic!("unexpected error"),
        };
        assert_eq!(got, expected, "{}", text);
        assert_eq!(got, text.parse::<usize>().ok(), "{}", text);
    }
}
