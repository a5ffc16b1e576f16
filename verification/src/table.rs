//! The aggregation table: a mapping from keys (opaque byte strings) to
//! per-key statistics, filled by folding records one at a time and combined
//! by merging whole tables. The storage is an ahash map; every operation on
//! it goes through a trusted wrapper whose contract speaks of the abstract
//! `Map` the table holds.
use vstd::prelude::*;
use crate::stats::{
    StatsModel, Statistics, stats_add, stats_merge, stats_one, value_in_range, wf_stats,
};
use crate::parse::{line_key, line_value, valid_line};

verus! {

#[verifier::external_type_specification]
#[verifier::external_body]
#[verifier::reject_recursive_types(K)]
#[verifier::reject_recursive_types(V)]
#[verifier::reject_recursive_types(S)]
pub struct ExAHashMap<K, V, S>(ahash::AHashMap<K, V, S>);

#[verifier::external_type_specification]
#[verifier::external_body]
pub struct ExRandomState(ahash::RandomState);

/// The concrete storage of an aggregation table.
pub type StatsMap = ahash::AHashMap<Vec<u8>, Statistics>;

/// The mapping a statistics map holds: each stored key, as its byte
/// sequence, to the model of the statistics stored under it.
pub uninterp spec fn table_contents(m: StatsMap) -> Map<Seq<u8>, StatsModel>;

/// Relies on ahash::AHashMap::new: a freshly created map holds nothing.
#[verifier::external_body]
fn map_new() -> (r: StatsMap)
    ensures
        table_contents(r) =~= Map::empty(),
{
    ahash::AHashMap::new()
}

/// Relies on ahash::AHashMap::get: returns the value stored under the key,
/// or `None` when the key is absent.
#[verifier::external_body]
fn map_get<'a>(m: &'a StatsMap, k: &Vec<u8>) -> (r: Option<&'a Statistics>)
    ensures
        match r {
            Some(s) => table_contents(*m).dom().contains(k@) && s@ == table_contents(*m)[k@],
            None => !table_contents(*m).dom().contains(k@),
        },
{
    m.get(k)
}

/// Relies on ahash::AHashMap::insert: stores `v` under `k`, replacing any
/// value previously stored under `k` and leaving other keys unchanged.
#[verifier::external_body]
fn map_insert(m: &mut StatsMap, k: Vec<u8>, v: Statistics)
    ensures
        table_contents(*final(m)) == table_contents(*old(m)).insert(k@, v@),
{
    m.insert(k, v);
}

/// Relies on std::collections::HashMap::len (reached through
/// ahash::AHashMap's Deref): the number of keys held.
#[verifier::external_body]
fn map_len(m: &StatsMap) -> (n: usize)
    requires
        table_contents(*m).dom().finite(),
    ensures
        n as nat == table_contents(*m).dom().len(),
{
    m.len()
}

/// Relies on ahash::AHashMap's owning iterator: it yields every stored
/// entry exactly once, in no significant order.
#[verifier::external_body]
fn map_entries(m: StatsMap) -> (r: Vec<(Vec<u8>, Statistics)>)
    ensures
        r@.len() == table_contents(m).dom().len(),
        forall|i: int, j: int| 0 <= i < j < r@.len() ==> r@[i].0@ != r@[j].0@,
        forall|i: int|
            0 <= i < r@.len() ==> table_contents(m).contains_pair(r@[i].0@, r@[i].1@),
        forall|k: Seq<u8>|
            table_contents(m).dom().contains(k) ==> exists|i: int|
                0 <= i < r@.len() && r@[i].0@ == k,
{
    m.into_iter().collect()
}

/// The records of a sequence of lines: each line's key and decoded value.
pub open spec fn records_of(ls: Seq<Seq<u8>>) -> Seq<(Seq<u8>, int)> {
    ls.map_values(|l: Seq<u8>| (line_key(l), line_value(l)))
}

pub open spec fn all_lines_valid(ls: Seq<Seq<u8>>) -> bool {
    forall|i: int| 0 <= i < ls.len() ==> valid_line(ls[i])
}

/// Folding a single record into a table: seed a fresh summary on the first
/// observation of a key, extend the stored one otherwise.
pub open spec fn fold_step(m: Map<Seq<u8>, StatsModel>, r: (Seq<u8>, int)) -> Map<
    Seq<u8>,
    StatsModel,
> {
    if m.dom().contains(r.0) {
        m.insert(r.0, stats_add(m[r.0], r.1))
    } else {
        m.insert(r.0, stats_one(r.1))
    }
}

/// The table obtained by folding a sequence of records, in order, into an
/// empty table.
pub open spec fn fold_records(rs: Seq<(Seq<u8>, int)>) -> Map<Seq<u8>, StatsModel>
    decreases rs.len(),
{
    if rs.len() == 0 {
        Map::empty()
    } else {
        fold_step(fold_records(rs.drop_last()), rs.last())
    }
}

/// The merge of two tables: the union of their keys, with the statistics
/// merged pointwise for keys present in both.
pub open spec fn merged_maps(a: Map<Seq<u8>, StatsModel>, b: Map<Seq<u8>, StatsModel>) -> Map<
    Seq<u8>,
    StatsModel,
> {
    Map::new(
        |k: Seq<u8>| a.dom().contains(k) || b.dom().contains(k),
        |k: Seq<u8>|
            if a.dom().contains(k) && b.dom().contains(k) {
                stats_merge(a[k], b[k])
            } else if a.dom().contains(k) {
                a[k]
            } else {
                b[k]
            },
    )
}

/// Does any entry of `es` at an index at or after `j` carry the key `k`?
pub(crate) open spec fn key_in_entries_from(
    es: Seq<(Vec<u8>, Statistics)>,
    j: int,
    k: Seq<u8>,
) -> bool {
    exists|idx: int| j <= idx < es.len() && es[idx].0@ == k
}

/// One aggregation table. `rec_count` bounds the observation count of every
/// key, which keeps the counts within machine range across merges.
pub struct Table {
    inner: StatsMap,
    nrec: usize,
}

impl Table {
    /// The mapping this table holds.
    pub closed spec fn contents(self) -> Map<Seq<u8>, StatsModel> {
        table_contents(self.inner)
    }

    /// The number of records folded into this table so far.
    pub closed spec fn rec_count(self) -> int {
        self.nrec as int
    }

    /// Every stored summary is well formed and counts no more observations
    /// than the records folded in.
    pub open spec fn wf(self) -> bool {
        &&& self.contents().dom().finite()
        &&& forall|k: Seq<u8>| #[trigger]
            self.contents().dom().contains(k) ==> wf_stats(self.contents()[k])
                && self.contents()[k].count <= self.rec_count()
    }

    /// An empty table.
    pub fn new() -> (t: Table)
        ensures
            t.wf(),
            t.contents() == Map::<Seq<u8>, StatsModel>::empty(),
            t.rec_count() == 0,
    {
        let t = Table { inner: map_new(), nrec: 0 };
        proof {
            assert(t.contents().dom() =~= Set::<Seq<u8>>::empty());
        }
        t
    }

    /// How many records have been folded into this table.
    pub fn num_records(&self) -> (n: usize)
        ensures
            n as int == self.rec_count(),
    {
        self.nrec
    }

    /// How many distinct keys this table holds.
    pub fn num_keys(&self) -> (n: usize)
        requires
            self.wf(),
        ensures
            n as nat == self.contents().dom().len(),
    {
        map_len(&self.inner)
    }

    /// Fold one record into the table.
    pub fn add_record(&mut self, key: Vec<u8>, value: i64)
        requires
            old(self).wf(),
            value_in_range(value as int),
            old(self).rec_count() < usize::MAX,
        ensures
            final(self).wf(),
            final(self).contents() == fold_step(old(self).contents(), (key@, value as int)),
            final(self).rec_count() == old(self).rec_count() + 1,
    {
        let ghost k = key@;
        match map_get(&self.inner, &key) {
            Some(existing) => {
                let mut updated = existing.clone();
                updated.add_value(value);
                map_insert(&mut self.inner, key, updated);
            },
            None => {
                map_insert(&mut self.inner, key, Statistics::new(value));
            },
        }
        self.nrec = self.nrec + 1;
        proof {
            assert(self.contents().dom() =~= old(self).contents().dom().insert(k));
        }
    }

    /// Split one line into a record and fold it in. Returns `false`, and
    /// leaves the table untouched, exactly on a malformed line.
    pub fn add_line(&mut self, line: &[u8]) -> (ok: bool)
        requires
            old(self).wf(),
            old(self).rec_count() < usize::MAX,
        ensures
            ok == valid_line(line@),
            ok ==> {
                &&& final(self).wf()
                &&& final(self).contents() == fold_step(
                    old(self).contents(),
                    (line_key(line@), line_value(line@)),
                )
                &&& final(self).rec_count() == old(self).rec_count() + 1
            },
            !ok ==> *final(self) == *old(self),
    {
        match crate::parse::parse_line(line) {
            Some((key, value)) => {
                self.add_record(key, value);
                true
            },
            None => false,
        }
    }

    /// Fold every line of a shard into a fresh table. Returns `None`, and no
    /// table, exactly when some line is malformed.
    pub fn aggregate_lines(lines: &Vec<Vec<u8>>) -> (r: Option<Table>)
        ensures
            r is Some <==> all_lines_valid(lines@.map_values(|l: Vec<u8>| l@)),
            r matches Some(t) ==> {
                &&& t.wf()
                &&& t.contents() == fold_records(
                    records_of(lines@.map_values(|l: Vec<u8>| l@)),
                )
                &&& t.rec_count() == lines@.len()
            },
    {
        let ghost ls = lines@.map_values(|l: Vec<u8>| l@);
        let mut t = Table::new();
        let mut i: usize = 0;
        proof {
            assert(records_of(ls.take(0)) =~= Seq::<(Seq<u8>, int)>::empty());
        }
        while i < lines.len()
            invariant
                i <= lines@.len(),
                ls == lines@.map_values(|l: Vec<u8>| l@),
                t.wf(),
                t.rec_count() == i,
                t.contents() == fold_records(records_of(ls.take(i as int))),
                forall|j: int| 0 <= j < i ==> valid_line(ls[j]),
            decreases lines@.len() - i,
        {
            let ok = t.add_line(lines[i].as_slice());
            if !ok {
                proof {
                    assert(ls[i as int] == lines@[i as int]@);
                    assert(!valid_line(ls[i as int]));
                }
                return None;
            }
            proof {
                let rs1 = records_of(ls.take(i as int));
                let rs2 = records_of(ls.take(i + 1));
                assert(ls[i as int] == lines@[i as int]@);
                assert(rs2.drop_last() =~= rs1);
                assert(rs2.last() == (line_key(ls[i as int]), line_value(ls[i as int])));
            }
            i = i + 1;
        }
        proof {
            assert(ls.take(ls.len() as int) =~= ls);
        }
        Some(t)
    }
}

impl Table {
    /// Hand out the table's entries, in no significant order.
    pub fn into_entries(self) -> (r: Vec<(Vec<u8>, Statistics)>)
        requires
            self.wf(),
        ensures
            r@.len() == self.contents().dom().len(),
            forall|i: int, j: int| 0 <= i < j < r@.len() ==> r@[i].0@ != r@[j].0@,
            forall|i: int|
                0 <= i < r@.len() ==> #[trigger] self.contents().contains_pair(
                    r@[i].0@,
                    r@[i].1@,
                ) && wf_stats(r@[i].1@),
            forall|k: Seq<u8>|
                self.contents().dom().contains(k) ==> exists|i: int|
                    0 <= i < r@.len() && r@[i].0@ == k,
    {
        let ghost m = self.contents();
        let Table { inner, nrec: _ } = self;
        let r = map_entries(inner);
        proof {
            assert forall|i: int|
                0 <= i < r@.len() implies #[trigger] m.contains_pair(r@[i].0@, r@[i].1@)
                && wf_stats(r@[i].1@) by {
                assert(m.contains_pair(r@[i].0@, r@[i].1@));
                assert(m.dom().contains(r@[i].0@));
            }
        }
        r
    }
}

/// Merge two tables into one: the union of their keys, statistics merged
/// for keys both hold. The table with more keys is kept as the accumulator
/// and the smaller one is drained into it; the result does not depend on
/// which side that is.
pub fn merge_tables(t1: Table, t2: Table) -> (r: Table)
    requires
        t1.wf(),
        t2.wf(),
        t1.rec_count() + t2.rec_count() <= usize::MAX,
    ensures
        r.wf(),
        r.contents() == merged_maps(t1.contents(), t2.contents()),
        r.rec_count() == t1.rec_count() + t2.rec_count(),
{
    let swapped = t1.num_keys() < t2.num_keys();
    let (big, small) = if swapped {
        (t2, t1)
    } else {
        (t1, t2)
    };
    let ghost bm = big.contents();
    let ghost sm = small.contents();
    let Table { inner: mut big_inner, nrec: big_nrec } = big;
    let Table { inner: small_inner, nrec: small_nrec } = small;
    let ghost total = big_nrec + small_nrec;
    let mut entries = map_entries(small_inner);
    let ghost es = entries@;
    proof {
        assert(entries@ =~= es.take(es.len() as int));
    }
    while entries.len() > 0
        invariant
            entries@.len() <= es.len(),
            entries@ == es.take(entries@.len() as int),
            forall|i: int, j: int| 0 <= i < j < es.len() ==> es[i].0@ != es[j].0@,
            forall|i: int| 0 <= i < es.len() ==> #[trigger] sm.contains_pair(es[i].0@, es[i].1@),
            forall|k: Seq<u8>|
                sm.dom().contains(k) ==> exists|i: int| 0 <= i < es.len() && es[i].0@ == k,
            forall|k: Seq<u8>| #[trigger]
                bm.dom().contains(k) ==> wf_stats(bm[k]) && bm[k].count <= big_nrec,
            forall|k: Seq<u8>| #[trigger]
                sm.dom().contains(k) ==> wf_stats(sm[k]) && sm[k].count <= small_nrec,
            total == big_nrec + small_nrec <= usize::MAX,
            table_contents(big_inner).dom().finite(),
            forall|k: Seq<u8>| #[trigger]
                table_contents(big_inner).dom().contains(k) <==> (bm.dom().contains(k)
                    || key_in_entries_from(es, entries@.len() as int, k)),
            forall|k: Seq<u8>| #[trigger]
                table_contents(big_inner).dom().contains(k) ==> table_contents(big_inner)[k]
                    == merge_expected(bm, sm, es, entries@.len() as int, k),
            forall|k: Seq<u8>| #[trigger]
                table_contents(big_inner).dom().contains(k) ==> wf_stats(
                    table_contents(big_inner)[k],
                ) && table_contents(big_inner)[k].count <= total,
        decreases entries@.len(),
    {
        let ghost j_old = entries@.len() as int;
        let popped = entries.pop().unwrap();
        let (key, stat) = popped;
        let ghost j = entries@.len() as int;
        let ghost k = key@;
        proof {
            assert(es.take(j_old).drop_last() =~= es.take(j));
            assert(es[j] == (key, stat));
            assert(sm.contains_pair(k, stat@));
            assert(key_in_entries_from(es, j, k));
            // the key just popped is not among the ones still pending
            assert(!key_in_entries_from(es, j_old, k)) by {
                if key_in_entries_from(es, j_old, k) {
                    let idx = choose|idx: int| j_old <= idx < es.len() && es[idx].0@ == k;
                    assert(es[j].0@ != es[idx].0@);
                }
            }
        }
        let ghost before = table_contents(big_inner);
        match map_get(&big_inner, &key) {
            Some(existing) => {
                let mut updated = existing.clone();
                proof {
                    assert(bm.dom().contains(k));
                    assert(before[k] == merge_expected(bm, sm, es, j_old, k));
                    assert(before[k] == bm[k]);
                }
                updated.merge_with(&stat);
                map_insert(&mut big_inner, key, updated);
            },
            None => {
                proof {
                    assert(!bm.dom().contains(k));
                }
                map_insert(&mut big_inner, key, stat);
            },
        }
        proof {
            let after = table_contents(big_inner);
            assert(after.dom() =~= before.dom().insert(k));
            assert forall|k2: Seq<u8>| #[trigger]
                after.dom().contains(k2) implies (bm.dom().contains(k2) || key_in_entries_from(
                es,
                j,
                k2,
            )) by {
                if k2 != k {
                    assert(before.dom().contains(k2));
                    if key_in_entries_from(es, j_old, k2) {
                        let idx = choose|idx: int|
                            j_old <= idx < es.len() && es[idx].0@ == k2;
                        assert(j <= idx < es.len() && es[idx].0@ == k2);
                    }
                }
            }
            assert forall|k2: Seq<u8>| (bm.dom().contains(k2) || key_in_entries_from(
                es,
                j,
                k2,
            )) implies #[trigger] after.dom().contains(k2) by {
                if k2 != k {
                    if key_in_entries_from(es, j, k2) {
                        let idx = choose|idx: int| j <= idx < es.len() && es[idx].0@ == k2;
                        if idx == j {
                            assert(es[j].0@ == k);
                            assert(false);
                        }
                        assert(key_in_entries_from(es, j_old, k2));
                    }
                    assert(before.dom().contains(k2));
                }
            }
            assert forall|k2: Seq<u8>| #[trigger]
                after.dom().contains(k2) implies after[k2] == merge_expected(bm, sm, es, j, k2)
                && wf_stats(after[k2]) && after[k2].count <= total by {
                if k2 == k {
                    assert(key_in_entries_from(es, j, k));
                } else {
                    assert(before.dom().contains(k2));
                    assert(after[k2] == before[k2]);
                    assert(key_in_entries_from(es, j, k2) == key_in_entries_from(
                        es,
                        j_old,
                        k2,
                    )) by {
                        if key_in_entries_from(es, j, k2) {
                            let idx = choose|idx: int|
                                j <= idx < es.len() && es[idx].0@ == k2;
                            if idx == j {
                                assert(es[j].0@ == k);
                                assert(false);
                            }
                            assert(key_in_entries_from(es, j_old, k2));
                        }
                        if key_in_entries_from(es, j_old, k2) {
                            let idx = choose|idx: int|
                                j_old <= idx < es.len() && es[idx].0@ == k2;
                            assert(j <= idx < es.len() && es[idx].0@ == k2);
                        }
                    }
                }
            }
        }
    }
    proof {
        let bc = table_contents(big_inner);
        assert forall|k: Seq<u8>| #[trigger]
            sm.dom().contains(k) implies key_in_entries_from(es, 0, k) by {
            let i = choose|i: int| 0 <= i < es.len() && es[i].0@ == k;
            assert(0 <= i < es.len() && es[i].0@ == k);
        }
        assert forall|k: Seq<u8>| #[trigger]
            key_in_entries_from(es, 0, k) implies sm.dom().contains(k) by {
            let i = choose|i: int| 0 <= i < es.len() && es[i].0@ == k;
            assert(sm.contains_pair(es[i].0@, es[i].1@));
        }
        assert(bc =~= merged_maps(bm, sm));
        assert(merged_maps(bm, sm) =~= merged_maps(sm, bm));
    }
    Table { inner: big_inner, nrec: big_nrec + small_nrec }
}

/// What the accumulator holds for key `k` while the entries of `es` at
/// indices `j` and beyond are still pending: the statistics of the larger
/// table, merged with those of the smaller table once the key's entry has
/// been drained.
pub(crate) open spec fn merge_expected(
    bm: Map<Seq<u8>, StatsModel>,
    sm: Map<Seq<u8>, StatsModel>,
    es: Seq<(Vec<u8>, Statistics)>,
    j: int,
    k: Seq<u8>,
) -> StatsModel {
    if bm.dom().contains(k) && key_in_entries_from(es, j, k) {
        stats_merge(bm[k], sm[k])
    } else if bm.dom().contains(k) {
        bm[k]
    } else {
        sm[k]
    }
}

} // verus!
