use citystats::report::{format_entry, format_tenths, key_lt, render_report, round_to_one_digit, summarize};
use citystats::stats::Statistics;
use citystats::table::Table;

#[test]
fn rounds_half_away_from_zero_at_the_tenths_place() {
    // the mean is total / count, both in tenths: 4.5 / 2 = 2.25 -> 2.3
    assert_eq!(round_to_one_digit(45, 2), 23);
    // 4.7 / 2 = 2.35 -> 2.4
    assert_eq!(round_to_one_digit(47, 2), 24);
    // -4.5 / 2 = -2.25 -> -2.3 (away from zero)
    assert_eq!(round_to_one_digit(-45, 2), -23);
    // -0.1 / 25 = -0.004 -> 0.0: no negative zero exists in tenths
    assert_eq!(round_to_one_digit(-1, 25), 0);
    assert_eq!(round_to_one_digit(0, 1), 0);
    // -0.4 rounds toward zero, -0.5 away
    assert_eq!(round_to_one_digit(-4, 10), 0);
    assert_eq!(round_to_one_digit(-5, 10), -1);
}

#[test]
fn formats_tenths_with_one_fractional_digit() {
    let cases: &[(i64, &[u8])] = &[
        (0, b"0.0"),
        (1, b"0.1"),
        (-1, b"-0.1"),
        (99, b"9.9"),
        (100, b"10.0"),
        (123, b"12.3"),
        (-45, b"-4.5"),
        (999, b"99.9"),
        (-999, b"-99.9"),
    ];
    for (tenths, expected) in cases.iter() {
        let mut out: Vec<u8> = Vec::new();
        format_tenths(*tenths, &mut out);
        assert_eq!(out, expected.to_vec());
    }
}

#[test]
fn formats_one_entry_as_key_min_mean_max() {
    let mut s = Statistics::new(123);
    s.add_value(-45);
    let line = format_entry(&b"Paris".to_vec(), &s);
    assert_eq!(line, b"Paris=-4.5/3.9/12.3".to_vec());
}

#[test]
fn orders_keys_byte_lexicographically() {
    assert!(key_lt(&b"Oslo".to_vec(), &b"Paris".to_vec()));
    assert!(!key_lt(&b"Paris".to_vec(), &b"Oslo".to_vec()));
    assert!(key_lt(&b"Oslo".to_vec(), &b"Osloo".to_vec()));
    assert!(!key_lt(&b"Oslo".to_vec(), &b"Oslo".to_vec()));
    assert!(key_lt(&b"".to_vec(), &b"A".to_vec()));
}

#[test]
fn report_lines_are_strictly_increasing_without_duplicates() {
    let lines = vec![
        b"delta;1.0".to_vec(),
        b"alpha;2.0".to_vec(),
        b"echo;3.0".to_vec(),
        b"bravo;4.0".to_vec(),
        b"alpha;5.0".to_vec(),
        b"charlie;6.0".to_vec(),
    ];
    let t = Table::aggregate_lines(&lines).expect("lines should be well formed");
    let report = render_report(t);
    assert_eq!(report.len(), 5);
    for pair in report.windows(2) {
        let key0: &[u8] = pair[0].split(|c| *c == b'=').next().unwrap();
        let key1: &[u8] = pair[1].split(|c| *c == b'=').next().unwrap();
        assert!(key0 < key1);
    }
}

#[test]
fn summarizes_a_whole_buffer_end_to_end() {
    let report = summarize(b"Paris;12.3\nParis;-4.5\nOslo;0.0\n").expect("input should be well formed");
    assert_eq!(report.len(), 2);
    assert_eq!(report[0], b"Oslo=0.0/0.0/0.0".to_vec());
    assert_eq!(report[1], b"Paris=-4.5/3.9/12.3".to_vec());
}

#[test]
fn a_key_observed_once_reports_identical_min_mean_max() {
    let report = summarize(b"Lima;-7.6\n").expect("input should be well formed");
    assert_eq!(report.len(), 1);
    assert_eq!(report[0], b"Lima=-7.6/-7.6/-7.6".to_vec());

    let lines = vec![b"Lima;-7.6".to_vec()];
    let t = Table::aggregate_lines(&lines).expect("line should be well formed");
    let entries = citystats::report::sorted_entries(t);
    assert_eq!(entries.len(), 1);
    let s = &entries[0].1;
    assert_eq!(s.count, 1);
    assert_eq!(s.min, s.max);
    assert_eq!(s.min as i128, s.total);
}

#[test]
fn an_empty_table_renders_an_empty_report() {
    let report = render_report(Table::new());
    assert_eq!(report.len(), 0);
}

#[test]
fn rejects_bad_buffers() {
    // empty input
    assert!(summarize(b"").is_none());
    // missing final line break
    assert!(summarize(b"Paris;12.3").is_none());
    // malformed record
    assert!(summarize(b"Paris12.3\n").is_none());
    assert!(summarize(b"Paris;1.23\n").is_none());
    // a lone line break holds one empty, malformed line
    assert!(summarize(b"\n").is_none());
}
