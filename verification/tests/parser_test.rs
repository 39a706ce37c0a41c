use cidr_optimizer::error::{OptimizeError, OptimizerError};
use cidr_optimizer::parser::{parse_cidrs, parse_exclusions, parse_input, parse_preferred};
use cidr_optimizer::prefix::{IpPrefix, Prefix};

/// The lines of a text, each with its line ending, as a line reader gives them.
fn lines(s: &str) -> Vec<String> {
    s.split_inclusive('\n').map(|l| l.to_string()).collect()
}

fn net(s: &str) -> IpPrefix {
    match s.parse::<ipnet::IpNet>().unwrap() {
        ipnet::IpNet::V4(n) => IpPrefix::V4(Prefix { bits: u32::from(n.addr()) as u128, len: n.prefix_len() }),
        ipnet::IpNet::V6(n) => IpPrefix::V6(Prefix { bits: u128::from(n.addr()), len: n.prefix_len() }),
    }
}

fn v4(s: &str) -> Prefix {
    match net(s) {
        IpPrefix::V4(p) => p,
        IpPrefix::V6(_) => panic!("not IPv4"),
    }
}

#[test]
fn parse_valid_entries() {
    let input = "10.0.0.0/8\n192.168.1.1\n2001:db8::/32\n";
    let result = parse_input(&lines(input), None, false, 100).unwrap();
    assert_eq!(result.ipv4.len(), 2);
    assert_eq!(result.ipv6.len(), 1);
    assert_eq!(result.total_entries, 3);
}

#[test]
fn parse_skips_comments_and_blanks() {
    let input = "# comment\n\n10.0.0.0/8\n  # another\n\n";
    let result = parse_input(&lines(input), None, false, 100).unwrap();
    assert_eq!(result.total_entries, 1);
}

#[test]
fn parse_non_canonical_truncation() {
    let input = "10.0.0.5/24\n";
    let result = parse_input(&lines(input), None, false, 100).unwrap();
    assert_eq!(result.ipv4.len(), 1);
    assert_eq!(result.ipv4[0].1, v4("10.0.0.0/24"));
    assert_eq!(result.parse_warnings.len(), 1);
}

#[test]
fn parse_max_entries_error() {
    let input = "10.0.0.1\n10.0.0.2\n10.0.0.3\n";
    let result = parse_input(&lines(input), None, false, 2);
    assert!(result.is_err());
    let err = result.err().unwrap().message();
    assert!(err.contains("input too large"));
}

#[test]
fn parse_invalid_line_error() {
    let input = "10.0.0.1\nnot_an_ip\n";
    let result = parse_input(&lines(input), None, false, 100);
    assert!(result.is_err());
    let err = result.err().unwrap().message();
    assert!(err.contains("parse error at line 2"));
}

#[test]
fn parse_stores_strings_when_enabled() {
    let input = "10.0.0.0/8\n192.168.1.1\n";
    let result = parse_input(&lines(input), None, true, 100).unwrap();
    assert_eq!(result.input_metadata.len(), 2);
    assert_eq!(result.input_metadata[0].original, "10.0.0.0/8");
    assert_eq!(result.input_metadata[0].comment, None);
    assert_eq!(result.input_metadata[1].original, "192.168.1.1");
    assert_eq!(result.input_metadata[1].comment, None);
}

#[test]
fn parse_inline_comment() {
    let input = "10.0.0.0/8 # Office\n";
    let result = parse_input(&lines(input), None, true, 100).unwrap();
    assert_eq!(result.input_metadata.len(), 1);
    assert_eq!(result.input_metadata[0].original, "10.0.0.0/8");
    assert_eq!(result.input_metadata[0].comment, Some("Office".to_string()));
}

#[test]
fn parse_inline_comment_empty_after_trim() {
    let input = "10.0.0.0/8 #\n";
    let result = parse_input(&lines(input), None, true, 100).unwrap();
    assert_eq!(result.input_metadata[0].comment, None);
}

#[test]
fn parse_inline_comment_multiple_hashes() {
    let input = "10.0.0.0/8 # comment # more\n";
    let result = parse_input(&lines(input), None, true, 100).unwrap();
    assert_eq!(result.input_metadata[0].comment, Some("comment # more".to_string()));
}

#[test]
fn parse_cidrs_empty_input() {
    let result = parse_cidrs(&lines(""), None).unwrap();
    assert!(result.is_empty());
}

#[test]
fn parse_cidrs_only_comments_and_blanks() {
    let result = parse_cidrs(&lines("# comment\n\n  # another\n"), None).unwrap();
    assert!(result.is_empty());
}

#[test]
fn parse_cidrs_valid_entries() {
    let input = "10.0.0.0/24\n192.168.1.1\n2001:db8::/32\n";
    let result = parse_cidrs(&lines(input), None).unwrap();
    assert_eq!(result.len(), 3);
    assert_eq!(result[0].prefix, net("10.0.0.0/24"));
    assert_eq!(result[0].line_number, 1);
    assert_eq!(result[1].prefix, net("192.168.1.1/32"));
    assert_eq!(result[1].line_number, 2);
    assert_eq!(result[2].prefix, net("2001:db8::/32"));
    assert_eq!(result[2].line_number, 3);
}

#[test]
fn parse_cidrs_with_comments() {
    let input = "10.0.0.0/24 # Office network\n192.168.1.0/24\n";
    let result = parse_cidrs(&lines(input), None).unwrap();
    assert_eq!(result[0].comment, Some("Office network".to_string()));
    assert_eq!(result[1].comment, None);
}

#[test]
fn parse_cidrs_non_canonical_truncated() {
    let input = "10.0.0.5/24\n";
    let result = parse_cidrs(&lines(input), None).unwrap();
    assert_eq!(result[0].prefix, net("10.0.0.0/24"));
}

#[test]
fn parse_cidrs_invalid_entry() {
    let result = parse_cidrs(&lines("not_valid\n"), None);
    assert!(result.is_err());
    assert!(result.err().unwrap().message().contains("parse error at line 1"));
}

#[test]
fn parse_cidrs_bare_ipv6() {
    let result = parse_cidrs(&lines("::1\n"), None).unwrap();
    assert_eq!(result[0].prefix, net("::1/128"));
}

#[test]
fn parse_exclusions_maps_source() {
    let input = "10.0.0.0/24 # internal\n192.168.0.0/16\n";
    let result = parse_exclusions(&lines(input), None, "blocklist.txt").unwrap();
    assert_eq!(result.len(), 2);
    assert_eq!(result[0].prefix, net("10.0.0.0/24"));
    assert_eq!(result[0].source, "blocklist.txt");
    assert_eq!(result[0].comment, Some("internal".to_string()));
    assert_eq!(result[1].source, "blocklist.txt");
    assert_eq!(result[1].comment, None);
}

#[test]
fn parse_exclusions_empty_input() {
    let result = parse_exclusions(&lines(""), None, "empty.txt").unwrap();
    assert!(result.is_empty());
}

// --- Further cases ---

#[test]
fn parse_preferred_maps_source() {
    let input = "2001:db8::/48 # lab\n10.1.0.0/16\n";
    let result = parse_preferred(&lines(input), None, "pref.txt").unwrap();
    assert_eq!(result.len(), 2);
    assert_eq!(result[0].prefix, net("2001:db8::/48"));
    assert_eq!(result[0].source, "pref.txt");
    assert_eq!(result[0].comment, Some("lab".to_string()));
    assert_eq!(result[1].prefix, net("10.1.0.0/16"));
    assert_eq!(result[1].comment, None);
}

#[test]
fn parse_error_messages_are_exact() {
    match parse_cidrs(&lines("10.0.0.0/8\n\n10.0.0.300\n10.0.0.1\n"), None) {
        Err(OptimizerError::Parse { line, message }) => {
            assert_eq!(line, 3);
            assert_eq!(message, "invalid IP or CIDR: '10.0.0.300'");
        }
        _ => panic!("expected a parse error"),
    }
    let long = format!("{}\n", "x".repeat(5000));
    match parse_cidrs(&lines(&long), None) {
        Err(OptimizerError::Parse { line, message }) => {
            assert_eq!(line, 1);
            assert_eq!(message, "line exceeds 4096 byte limit");
        }
        _ => panic!("expected a parse error"),
    }
    // The invalid text is quoted to its first 100 bytes.
    let wide = format!("{}\n", "y".repeat(150));
    match parse_cidrs(&lines(&wide), None) {
        Err(OptimizerError::Parse { message, .. }) => {
            assert_eq!(message, format!("invalid IP or CIDR: '{}'", "y".repeat(100)));
        }
        _ => panic!("expected a parse error"),
    }
}

#[test]
fn line_limit_counts_bytes_with_the_line_ending() {
    // 4095 characters and a newline: 4096 bytes, accepted as a line.
    let ok = format!("# {}\n", "c".repeat(4093));
    assert!(parse_cidrs(&lines(&ok), None).unwrap().is_empty());
    let too_long = format!("# {}\n", "c".repeat(4094));
    assert!(parse_cidrs(&lines(&too_long), None).is_err());
}

#[test]
fn read_error_after_good_lines() {
    match parse_cidrs(&lines("10.0.0.0/8\n"), Some("disk gone".to_string())) {
        Err(OptimizerError::Io { message }) => assert_eq!(message, "disk gone"),
        _ => panic!("expected an I/O error"),
    }
    // A bad line read before the failure is reported first.
    match parse_cidrs(&lines("bad\n"), Some("disk gone".to_string())) {
        Err(OptimizerError::Parse { line, .. }) => assert_eq!(line, 1),
        _ => panic!("expected a parse error"),
    }
}

#[test]
fn warnings_name_the_written_and_canonical_prefix() {
    let input = "10.0.0.5/24\n10.0.1.0/24\n2001:db8::1/64 # host bits\n192.168.0.9\n";
    let result = parse_input(&lines(input), None, false, 100).unwrap();
    assert_eq!(result.parse_warnings.len(), 2);
    assert_eq!(result.parse_warnings[0], (1, "non-canonical CIDR '10.0.0.5/24' normalized to '10.0.0.0/24'".to_string()));
    assert_eq!(result.parse_warnings[1], (3, "non-canonical CIDR '2001:db8::1/64' normalized to '2001:db8::/64'".to_string()));
    assert_eq!(result.ipv4, vec![(0, v4("10.0.0.0/24")), (1, v4("10.0.1.0/24")), (3, v4("192.168.0.9/32"))]);
    assert_eq!(result.ipv6.len(), 1);
    assert_eq!(result.ipv6[0].0, 2);
    assert!(result.input_metadata.is_empty());
}

#[test]
fn too_many_entries_is_reported_with_counts() {
    match parse_input(&lines("10.0.0.1\n10.0.0.2\n10.0.0.3\n"), None, false, 2) {
        Err(OptimizerError::Optimize(OptimizeError::InputTooLarge { count, limit })) => {
            assert_eq!(count, 3);
            assert_eq!(limit, 2);
        }
        _ => panic!("expected InputTooLarge"),
    }
}

#[test]
fn whitespace_and_crlf_are_trimmed() {
    let input = "\t 10.0.0.0/24 \r\n  ::/0\t#  all  \r\n";
    let result = parse_cidrs(&lines(input), None).unwrap();
    assert_eq!(result[0].raw_text, "10.0.0.0/24");
    assert_eq!(result[0].comment, None);
    assert_eq!(result[1].prefix, net("::/0"));
    assert_eq!(result[1].raw_text, "::/0");
    assert_eq!(result[1].comment, Some("all".to_string()));
    assert_eq!(result[1].line_number, 2);
}

#[test]
fn overlong_line_is_a_parse_error_whatever_its_characters() {
    let mut line = "a".repeat(5000);
    line.push_str(&"é".repeat(10));
    line.push('\n');
    let lines = vec![line, "bad\n".to_string()];
    assert!(cidr_optimizer::parser::lines_quotable(&lines));
    match parse_cidrs(&lines, None) {
        Err(OptimizerError::Parse { line, message }) => {
            assert_eq!(line, 1);
            assert_eq!(message, "line exceeds 4096 byte limit");
        }
        _ => panic!("expected a parse error"),
    }
}
