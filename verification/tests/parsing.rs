use citystats::parse::{parse_line, parse_temperature_value, split_lines, temp_is_valid};

fn digits(bytes: &[u8]) -> Vec<u8> {
    bytes.to_vec()
}

#[test]
fn parses_every_single_digit_shape() {
    for d0 in 0u8..10 {
        for d2 in 0u8..10 {
            let field = vec![b'0' + d0, b'.', b'0' + d2];
            assert!(temp_is_valid(&field));
            let expected = (d0 as i64) * 10 + d2 as i64;
            assert_eq!(parse_temperature_value(&field), expected);

            let mut neg = vec![b'-'];
            neg.extend(field.iter());
            assert!(temp_is_valid(&neg));
            assert_eq!(parse_temperature_value(&neg), -expected);
        }
    }
}

#[test]
fn parses_every_double_digit_shape() {
    for d0 in 0u8..10 {
        for d1 in 0u8..10 {
            for d3 in 0u8..10 {
                let field = vec![b'0' + d0, b'0' + d1, b'.', b'0' + d3];
                assert!(temp_is_valid(&field));
                let expected = (d0 as i64) * 100 + (d1 as i64) * 10 + d3 as i64;
                assert_eq!(parse_temperature_value(&field), expected);

                let mut neg = vec![b'-'];
                neg.extend(field.iter());
                assert!(temp_is_valid(&neg));
                assert_eq!(parse_temperature_value(&neg), -expected);
            }
        }
    }
}

#[test]
fn rejects_malformed_value_fields() {
    assert!(!temp_is_valid(b""));
    assert!(!temp_is_valid(b"-"));
    assert!(!temp_is_valid(b"1"));
    assert!(!temp_is_valid(b"1."));
    assert!(!temp_is_valid(b".5"));
    assert!(!temp_is_valid(b"1.23"));
    assert!(!temp_is_valid(b"123.4"));
    assert!(!temp_is_valid(b"-123.4"));
    assert!(!temp_is_valid(b"1,2"));
    assert!(!temp_is_valid(b"a.b"));
    assert!(!temp_is_valid(b"--1.1"));
}

#[test]
fn splits_a_line_at_the_first_separator() {
    let (key, value) = parse_line(b"Paris;12.3").expect("line should parse");
    assert_eq!(key, digits(b"Paris"));
    assert_eq!(value, 123);

    let (key, value) = parse_line(b"Oslo;-4.5").expect("line should parse");
    assert_eq!(key, digits(b"Oslo"));
    assert_eq!(value, -45);

    // the key is everything before the first separator; it may be empty
    let (key, value) = parse_line(b";1.1").expect("line should parse");
    assert_eq!(key, digits(b""));
    assert_eq!(value, 11);
}

#[test]
fn rejects_malformed_lines() {
    assert!(parse_line(b"").is_none());
    assert!(parse_line(b"Paris").is_none());
    assert!(parse_line(b"Paris;").is_none());
    assert!(parse_line(b"Paris;12").is_none());
    assert!(parse_line(b"Paris;1.23").is_none());
}

#[test]
fn splits_buffers_into_lines() {
    let lines = split_lines(b"a;1.1\nb;2.2");
    assert_eq!(lines.len(), 2);
    assert_eq!(lines[0], digits(b"a;1.1"));
    assert_eq!(lines[1], digits(b"b;2.2"));

    // a buffer with no line break is one line; an empty one is one empty line
    let lines = split_lines(b"a;1.1");
    assert_eq!(lines.len(), 1);
    let lines = split_lines(b"");
    assert_eq!(lines.len(), 1);
    assert_eq!(lines[0], digits(b""));

    // an empty line between two breaks is kept
    let lines = split_lines(b"a;1.1\n\nb;2.2");
    assert_eq!(lines.len(), 3);
    assert_eq!(lines[1], digits(b""));
}
