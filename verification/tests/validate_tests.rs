use dag_stats::builder::construct_connections;
use dag_stats::validate::{is_valid_input, ParseError};

#[test]
fn test_is_valid_input() {
    let valid_input = b"3\n1 1\n1 2\n2 3".to_vec();
    assert_eq!(is_valid_input(&valid_input), true);

    let invalid_input = b"invalid input".to_vec();
    assert_eq!(is_valid_input(&invalid_input), false);
}

#[test]
fn test_is_valid_input_counts_integer_tokens_only() {
    // Exactly two tokens must parse as integers; other tokens are passed
    // over, and a token outside the i32 range is not an integer token.
    let extra_word = b"1\n1 2 x".to_vec();
    assert_eq!(is_valid_input(&extra_word), true);
    let overflowing = b"1\n1 2147483648".to_vec();
    assert_eq!(is_valid_input(&overflowing), false);
    let plus_sign = b"1\n1 +2".to_vec();
    assert_eq!(is_valid_input(&plus_sign), true);
}

#[test]
fn test_construct_connections_round_trip() {
    // Whatever the validator accepts, the builder must build.
    let text = b"3\n1 1\n1 2\n2 3".to_vec();
    assert!(is_valid_input(&text));
    let (count, connections) = construct_connections(&text).unwrap();
    assert_eq!(count, 4);
    assert_eq!(
        connections,
        vec![vec![1, 1, 2], vec![2, 3], vec![3], vec![]]
    );
}

#[test]
fn test_construct_connections_empty_input() {
    assert_eq!(
        construct_connections(&b"".to_vec()),
        Err(ParseError::InputEmpty)
    );
}

#[test]
fn test_construct_connections_malformed_count() {
    assert_eq!(
        construct_connections(&b"x\n1 1".to_vec()),
        Err(ParseError::MalformedCount)
    );
}

#[test]
fn test_construct_connections_malformed_edge_line() {
    assert_eq!(
        construct_connections(&b"1\n1".to_vec()),
        Err(ParseError::MalformedEdgeLine)
    );
    assert_eq!(
        construct_connections(&b"1\n1 2 3".to_vec()),
        Err(ParseError::MalformedEdgeLine)
    );
}

#[test]
fn test_construct_connections_non_positive_reference() {
    assert_eq!(
        construct_connections(&b"1\n0 1".to_vec()),
        Err(ParseError::NonPositiveReference)
    );
    assert_eq!(
        construct_connections(&b"1\n-1 2".to_vec()),
        Err(ParseError::NonPositiveReference)
    );
}

#[test]
fn test_construct_connections_edge_count_mismatch() {
    assert_eq!(
        construct_connections(&b"2\n1 1".to_vec()),
        Err(ParseError::EdgeCountMismatch)
    );
}

#[test]
fn test_construct_connections_reference_out_of_range() {
    assert_eq!(
        construct_connections(&b"1\n1 3".to_vec()),
        Err(ParseError::ReferenceOutOfRange)
    );
}

#[test]
fn test_validator_integer_boundaries() {
    // The most negative i32 still parses as an integer token (and is then
    // rejected as non-positive); one past it no longer parses, so the line
    // has a single integer token.
    let at_boundary = b"1\n-2147483648 1".to_vec();
    assert_eq!(
        construct_connections(&at_boundary),
        Err(ParseError::NonPositiveReference)
    );
    let past_boundary = b"1\n-2147483649 1".to_vec();
    assert_eq!(
        construct_connections(&past_boundary),
        Err(ParseError::MalformedEdgeLine)
    );
}

#[test]
fn test_line_endings() {
    // A carriage return before the line feed is part of the terminator,
    // and a final line ending adds no empty line.
    let crlf = b"3\r\n1 1\r\n1 2\r\n2 3".to_vec();
    assert_eq!(is_valid_input(&crlf), true);
    let trailing = b"1\n1 1\n".to_vec();
    assert_eq!(is_valid_input(&trailing), true);
}

#[test]
fn test_unicode_whitespace_separators() {
    // Tokens are split on any Unicode white space: a no-break space or an
    // em space separates the two integers just as an ASCII space does.
    let no_break = b"1\n1\xc2\xa02".to_vec();
    assert_eq!(is_valid_input(&no_break), true);
    let em_space = b"1\n1\xe2\x80\x832".to_vec();
    assert_eq!(is_valid_input(&em_space), true);
    // A lone lead byte is part of an ordinary token, not a separator.
    let bare_lead = b"1\n1\xc2\x412".to_vec();
    assert_eq!(is_valid_input(&bare_lead), false);
}
