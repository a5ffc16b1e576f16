//! The algebra of folding and merging: merging is commutative and
//! associative with the empty table as identity, and folding a record
//! sequence distributes over any split into shards. Together these say that
//! folding shards independently and merging the partial tables in any
//! order yields the same table as one sequential fold.
use vstd::prelude::*;
use crate::stats::{StatsModel, stats_add, stats_one};
use crate::table::{fold_records, fold_step, merged_maps};

verus! {

/// Merging with an empty table gives the other table back unchanged.
pub proof fn lemma_merge_empty_identity(a: Map<Seq<u8>, StatsModel>)
    ensures
        merged_maps(a, Map::<Seq<u8>, StatsModel>::empty()) == a,
        merged_maps(Map::<Seq<u8>, StatsModel>::empty(), a) == a,
{
    assert(merged_maps(a, Map::<Seq<u8>, StatsModel>::empty()) =~= a);
    assert(merged_maps(Map::<Seq<u8>, StatsModel>::empty(), a) =~= a);
}

/// Merging two tables does not depend on their order.
pub proof fn lemma_merge_comm(a: Map<Seq<u8>, StatsModel>, b: Map<Seq<u8>, StatsModel>)
    ensures
        merged_maps(a, b) == merged_maps(b, a),
{
    assert(merged_maps(a, b) =~= merged_maps(b, a));
}

/// Merging tables is associative: pairwise merges of several tables may be
/// grouped in any way.
pub proof fn lemma_merge_assoc(
    a: Map<Seq<u8>, StatsModel>,
    b: Map<Seq<u8>, StatsModel>,
    c: Map<Seq<u8>, StatsModel>,
)
    ensures
        merged_maps(merged_maps(a, b), c) == merged_maps(a, merged_maps(b, c)),
{
    assert(merged_maps(merged_maps(a, b), c) =~= merged_maps(a, merged_maps(b, c)));
}

/// Folding one record into the right-hand side of a merge is the same as
/// folding it into the merged table.
proof fn lemma_fold_step_merge(
    a: Map<Seq<u8>, StatsModel>,
    b: Map<Seq<u8>, StatsModel>,
    r: (Seq<u8>, int),
)
    ensures
        fold_step(merged_maps(a, b), r) == merged_maps(a, fold_step(b, r)),
{
    assert(fold_step(merged_maps(a, b), r) =~= merged_maps(a, fold_step(b, r)));
}

/// Fold/merge equivalence: folding two shards separately and merging the
/// two tables yields exactly the table of one fold over the concatenation.
/// Applied repeatedly, with commutativity and associativity above, any
/// partition of a record sequence into shards and any order of pairwise
/// merges yields the table of the sequential fold.
pub proof fn lemma_fold_merge_equivalence(rs1: Seq<(Seq<u8>, int)>, rs2: Seq<(Seq<u8>, int)>)
    ensures
        fold_records(rs1 + rs2) == merged_maps(fold_records(rs1), fold_records(rs2)),
    decreases rs2.len(),
{
    if rs2.len() == 0 {
        assert(rs1 + rs2 =~= rs1);
        lemma_merge_empty_identity(fold_records(rs1));
    } else {
        let rs2p = rs2.drop_last();
        lemma_fold_merge_equivalence(rs1, rs2p);
        assert((rs1 + rs2).len() > 0);
        assert((rs1 + rs2).drop_last() =~= rs1 + rs2p);
        assert((rs1 + rs2).last() == rs2.last());
        lemma_fold_step_merge(fold_records(rs1), fold_records(rs2p), rs2.last());
    }
}

/// The records of a partition, shard after shard, in order.
pub open spec fn concat_all(shards: Seq<Seq<(Seq<u8>, int)>>) -> Seq<(Seq<u8>, int)>
    decreases shards.len(),
{
    if shards.len() == 0 {
        Seq::empty()
    } else {
        concat_all(shards.drop_last()) + shards.last()
    }
}

/// The left-to-right merge of a sequence of tables.
pub open spec fn merge_all(tables: Seq<Map<Seq<u8>, StatsModel>>) -> Map<Seq<u8>, StatsModel>
    decreases tables.len(),
{
    if tables.len() == 0 {
        Map::empty()
    } else {
        merged_maps(merge_all(tables.drop_last()), tables.last())
    }
}

/// Partitioning a record sequence into any number of shards, folding each
/// shard on its own and merging the partial tables yields the table of the
/// sequential fold. Any other order or grouping of the pairwise merges
/// gives the same table, by commutativity and associativity above.
pub proof fn lemma_partition_fold(shards: Seq<Seq<(Seq<u8>, int)>>)
    ensures
        fold_records(concat_all(shards)) == merge_all(
            shards.map_values(|rs: Seq<(Seq<u8>, int)>| fold_records(rs)),
        ),
    decreases shards.len(),
{
    let tables = shards.map_values(|rs: Seq<(Seq<u8>, int)>| fold_records(rs));
    if shards.len() == 0 {
        assert(fold_records(concat_all(shards)) =~= Map::<Seq<u8>, StatsModel>::empty());
    } else {
        let sp = shards.drop_last();
        lemma_partition_fold(sp);
        lemma_fold_merge_equivalence(concat_all(sp), shards.last());
        assert(tables.drop_last() =~= sp.map_values(|rs: Seq<(Seq<u8>, int)>| fold_records(rs)));
        assert(tables.last() == fold_records(shards.last()));
    }
}

/// How many records of `rs` carry the key `k`.
pub open spec fn key_occurrences(rs: Seq<(Seq<u8>, int)>, k: Seq<u8>) -> int
    decreases rs.len(),
{
    if rs.len() == 0 {
        0
    } else {
        key_occurrences(rs.drop_last(), k) + if rs.last().0 == k {
            1int
        } else {
            0int
        }
    }
}

/// The literal sum of the values of the records of `rs` that carry `k`.
pub open spec fn key_total(rs: Seq<(Seq<u8>, int)>, k: Seq<u8>) -> int
    decreases rs.len(),
{
    if rs.len() == 0 {
        0
    } else {
        key_total(rs.drop_last(), k) + if rs.last().0 == k {
            rs.last().1
        } else {
            0int
        }
    }
}

/// A folded table holds exactly the observed keys; for each, `count` is the
/// number of records observed for that key (hence at least one) and `total`
/// is the literal sum of their values.
pub proof fn lemma_fold_characterization(rs: Seq<(Seq<u8>, int)>)
    ensures
        forall|k: Seq<u8>| 0 <= #[trigger] key_occurrences(rs, k),
        forall|k: Seq<u8>|
            fold_records(rs).dom().contains(k) <==> #[trigger] key_occurrences(rs, k) >= 1,
        forall|k: Seq<u8>| #[trigger]
            fold_records(rs).dom().contains(k) ==> fold_records(rs)[k].count == key_occurrences(
                rs,
                k,
            ) && fold_records(rs)[k].total == key_total(rs, k),
    decreases rs.len(),
{
    if rs.len() == 0 {
    } else {
        let rsp = rs.drop_last();
        let m = fold_records(rsp);
        let mp = fold_records(rs);
        let last = rs.last();
        lemma_fold_characterization(rsp);
        assert forall|k: Seq<u8>| 0 <= #[trigger] key_occurrences(rs, k) by {
            assert(key_occurrences(rs, k) == key_occurrences(rsp, k) + (if last.0 == k {
                1int
            } else {
                0int
            }));
            assert(0 <= key_occurrences(rsp, k));
        }
        assert forall|k: Seq<u8>|
            mp.dom().contains(k) <==> #[trigger] key_occurrences(rs, k) >= 1 by {
            assert(key_occurrences(rs, k) == key_occurrences(rsp, k) + (if last.0 == k {
                1int
            } else {
                0int
            }));
            assert(0 <= key_occurrences(rsp, k));
            if k == last.0 {
                assert(mp.dom().contains(k));
            } else {
                assert(mp.dom().contains(k) == m.dom().contains(k));
            }
        }
        assert forall|k: Seq<u8>| #[trigger]
            mp.dom().contains(k) implies mp[k].count == key_occurrences(rs, k) && mp[k].total
            == key_total(rs, k) by {
            assert(key_occurrences(rs, k) == key_occurrences(rsp, k) + (if last.0 == k {
                1int
            } else {
                0int
            }));
            assert(key_total(rs, k) == key_total(rsp, k) + (if last.0 == k {
                last.1
            } else {
                0int
            }));
            if k == last.0 {
                if m.dom().contains(k) {
                    assert(mp[k] == stats_add(m[k], last.1));
                } else {
                    assert(key_occurrences(rsp, k) == 0);
                    assert(mp[k] == stats_one(last.1));
                    assert(key_total(rsp, k) == 0) by {
                        lemma_no_occurrence_no_total(rsp, k);
                    }
                }
            } else {
                assert(mp[k] == m[k]);
            }
        }
    }
}

/// A key that no record carries contributes no total.
proof fn lemma_no_occurrence_no_total(rs: Seq<(Seq<u8>, int)>, k: Seq<u8>)
    requires
        key_occurrences(rs, k) == 0,
    ensures
        key_total(rs, k) == 0,
    decreases rs.len(),
{
    if rs.len() == 0 {
    } else {
        lemma_fold_characterization(rs.drop_last());
        assert(key_occurrences(rs.drop_last(), k) == 0);
        lemma_no_occurrence_no_total(rs.drop_last(), k);
    }
}

/// A key observed exactly once summarizes to that single value: minimum,
/// maximum and total all equal it, and the count is one.
pub proof fn lemma_single_observation(rs: Seq<(Seq<u8>, int)>, k: Seq<u8>)
    requires
        key_occurrences(rs, k) == 1,
    ensures
        fold_records(rs).dom().contains(k),
        fold_records(rs)[k] == stats_one(key_total(rs, k)),
    decreases rs.len(),
{
    lemma_fold_characterization(rs);
    if rs.len() == 0 {
    } else {
        let rsp = rs.drop_last();
        let last = rs.last();
        lemma_fold_characterization(rsp);
        if last.0 == k {
            assert(key_occurrences(rsp, k) == 0);
            assert(!fold_records(rsp).dom().contains(k));
            lemma_no_occurrence_no_total(rsp, k);
        } else {
            lemma_single_observation(rsp, k);
        }
    }
}

} // verus!
