use citystats::stats::Statistics;
use citystats::table::{merge_tables, Table};

fn table_of(lines: &[&[u8]]) -> Table {
    let owned: Vec<Vec<u8>> = lines.iter().map(|l| l.to_vec()).collect();
    Table::aggregate_lines(&owned).expect("lines should be well formed")
}

fn entries_of(t: Table) -> Vec<(Vec<u8>, Statistics)> {
    citystats::report::sorted_entries(t)
}

#[test]
fn statistics_fold_and_merge() {
    let mut s = Statistics::new(123);
    assert_eq!(s.min, 123);
    assert_eq!(s.max, 123);
    assert_eq!(s.total, 123);
    assert_eq!(s.count, 1);

    s.add_value(-45);
    assert_eq!(s.min, -45);
    assert_eq!(s.max, 123);
    assert_eq!(s.total, 78);
    assert_eq!(s.count, 2);

    let other = Statistics::new(999);
    s.merge_with(&other);
    assert_eq!(s.min, -45);
    assert_eq!(s.max, 999);
    assert_eq!(s.total, 1077);
    assert_eq!(s.count, 3);
}

#[test]
fn statistics_invariants_hold_in_aggregated_tables() {
    let t = table_of(&[
        b"Paris;12.3",
        b"Paris;-4.5",
        b"Oslo;0.0",
        b"Paris;0.1",
        b"Oslo;-0.1",
    ]);
    let entries = entries_of(t);
    assert_eq!(entries.len(), 2);
    for (_, s) in entries.iter() {
        assert!(s.min <= s.max);
        assert!(s.count >= 1);
    }
    // totals are the literal sums of the observed values, in tenths
    assert_eq!(entries[0].0, b"Oslo".to_vec());
    assert_eq!(entries[0].1.total, -1);
    assert_eq!(entries[0].1.count, 2);
    assert_eq!(entries[1].0, b"Paris".to_vec());
    assert_eq!(entries[1].1.total, 79);
    assert_eq!(entries[1].1.count, 3);
}

#[test]
fn aggregation_rejects_any_malformed_line() {
    let lines = vec![b"Paris;12.3".to_vec(), b"broken".to_vec()];
    assert!(Table::aggregate_lines(&lines).is_none());
}

#[test]
fn merging_with_an_empty_table_changes_nothing() {
    let lines: &[&[u8]] = &[b"Paris;12.3", b"Paris;-4.5", b"Oslo;0.0"];
    let merged = merge_tables(table_of(lines), Table::new());
    let merged_flipped = merge_tables(Table::new(), table_of(lines));
    let plain = entries_of(table_of(lines));
    for m in [entries_of(merged), entries_of(merged_flipped)] {
        assert_eq!(m.len(), plain.len());
        for (a, b) in m.iter().zip(plain.iter()) {
            assert_eq!(a.0, b.0);
            assert_eq!(a.1.min, b.1.min);
            assert_eq!(a.1.max, b.1.max);
            assert_eq!(a.1.total, b.1.total);
            assert_eq!(a.1.count, b.1.count);
        }
    }
}

#[test]
fn any_partition_and_merge_order_matches_the_sequential_fold() {
    let all: &[&[u8]] = &[
        b"Paris;12.3",
        b"Oslo;0.0",
        b"Paris;-4.5",
        b"Bergen;-9.9",
        b"Oslo;3.3",
        b"Paris;0.1",
    ];
    let sequential = entries_of(table_of(all));

    // three shards, merged left to right
    let t1 = table_of(&all[0..2]);
    let t2 = table_of(&all[2..4]);
    let t3 = table_of(&all[4..6]);
    let left = entries_of(merge_tables(merge_tables(t1, t2), t3));

    // the same shards, merged in the opposite grouping and order
    let t1 = table_of(&all[0..2]);
    let t2 = table_of(&all[2..4]);
    let t3 = table_of(&all[4..6]);
    let right = entries_of(merge_tables(t2, merge_tables(t3, t1)));

    // one record per shard
    let mut single = Table::new();
    for line in all.iter() {
        let shard = table_of(&[line]);
        single = merge_tables(single, shard);
    }
    let singles = entries_of(single);

    for other in [left, right, singles] {
        assert_eq!(other.len(), sequential.len());
        for (a, b) in other.iter().zip(sequential.iter()) {
            assert_eq!(a.0, b.0);
            assert_eq!(a.1.min, b.1.min);
            assert_eq!(a.1.max, b.1.max);
            assert_eq!(a.1.total, b.1.total);
            assert_eq!(a.1.count, b.1.count);
        }
    }
}

#[test]
fn record_counts_add_up() {
    let t = table_of(&[b"a;1.1", b"b;2.2", b"a;3.3"]);
    assert_eq!(t.num_records(), 3);
    assert_eq!(t.num_keys(), 2);
    let merged = merge_tables(t, table_of(&[b"c;4.4"]));
    assert_eq!(merged.num_records(), 4);
    assert_eq!(merged.num_keys(), 3);
}
