//! Report rendering: the mean to one fractional digit (half away from
//! zero), fixed-precision formatting of tenths, and the final sorted
//! report, one line per key, `<key>=<min>/<mean>/<max>`.
//!
//! A rounded mean of magnitude zero is rendered as `0.0` with no sign: the
//! exact tenths representation has no negative zero, so negative zero is
//! normalized by construction.
use vstd::prelude::*;
use crate::stats::{StatsModel, Statistics, lemma_stats_total_bounds, wf_stats};
use crate::table::{Table, all_lines_valid, fold_records, records_of};
use crate::parse::split_lines_spec;

verus! {

pub open spec fn abs_i(t: int) -> int {
    if t < 0 {
        -t
    } else {
        t
    }
}

/// The exact mean `total / count` (both in tenths), rounded to the nearest
/// integer number of tenths, halves away from zero.
pub open spec fn round_half_away(total: int, count: int) -> int {
    let m = abs_i(total);
    let q = m / count;
    let r = m % count;
    let mag = if 2 * r >= count {
        q + 1
    } else {
        q
    };
    if total < 0 {
        -mag
    } else {
        mag
    }
}

/// Rounding the mean of a single observation gives back the observation.
pub proof fn lemma_round_single(v: int)
    ensures
        round_half_away(v, 1) == v,
{
    let m = abs_i(v);
    assert(m / 1 == m && m % 1 == 0) by (nonlinear_arith);
}

/// Compute the rounded mean of a summary's total over its count.
pub fn round_to_one_digit(total: i128, count: usize) -> (r: i64)
    requires
        1 <= count,
        -999 * (count as int) <= total as int <= 999 * (count as int),
    ensures
        r as int == round_half_away(total as int, count as int),
        -999 <= r <= 999,
{
    let neg = total < 0;
    let m: u128 = if neg {
        (-total) as u128
    } else {
        total as u128
    };
    let c: u128 = count as u128;
    let q: u128 = m / c;
    let rem: u128 = m % c;
    proof {
        assert(m as int == (m as int / c as int) * (c as int) + (m as int % c as int) && q <= 999
            && (q == 999 ==> rem == 0)) by (nonlinear_arith)
            requires
                m as int == abs_i(total as int),
                1 <= c as int,
                m as int <= 999 * (c as int),
                q == m / c,
                rem == m % c,
        ;
    }
    let mag: u128 = if 2 * rem >= c {
        q + 1
    } else {
        q
    };
    let mag64: i64 = mag as i64;
    if neg {
        -mag64
    } else {
        mag64
    }
}

pub open spec fn digit_byte(d: int) -> u8 {
    (48 + d) as u8
}

/// The rendering of `0 <= u <= 999` tenths: one or two integer digits, a
/// point, one fractional digit.
pub open spec fn fmt_nonneg(u: int) -> Seq<u8> {
    let ip = u / 10;
    let f = u % 10;
    (if ip < 10 {
        seq![digit_byte(ip)]
    } else {
        seq![digit_byte(ip / 10), digit_byte(ip % 10)]
    }) + seq![46u8, digit_byte(f)]
}

/// The fixed-precision rendering of `t` tenths, a minus sign first when
/// `t` is negative.
pub open spec fn fmt_tenths(t: int) -> Seq<u8> {
    if t < 0 {
        seq![45u8] + fmt_nonneg(-t)
    } else {
        fmt_nonneg(t)
    }
}

/// Append the fixed-precision rendering of `t` tenths to `out`.
pub fn format_tenths(t: i64, out: &mut Vec<u8>)
    requires
        -999 <= t <= 999,
    ensures
        final(out)@ == old(out)@ + fmt_tenths(t as int),
{
    let ghost prefix = out@;
    let mag: u64 = if t < 0 {
        out.push(45);
        (-t) as u64
    } else {
        t as u64
    };
    let ghost mid = out@;
    let ip: u64 = mag / 10;
    let f: u64 = mag % 10;
    if ip >= 10 {
        out.push((ip / 10) as u8 + 48);
        out.push((ip % 10) as u8 + 48);
    } else {
        out.push(ip as u8 + 48);
    }
    out.push(46);
    out.push(f as u8 + 48);
    proof {
        assert(out@ =~= mid + fmt_nonneg(mag as int));
        if t < 0 {
            assert(mid =~= prefix + seq![45u8]);
            assert(out@ =~= prefix + fmt_tenths(t as int));
        } else {
            assert(out@ =~= prefix + fmt_tenths(t as int));
        }
    }
}

/// One report line: `<key>=<min>/<mean>/<max>`, each number rendered to
/// one fractional digit, the mean rounded half away from zero.
pub open spec fn report_line(k: Seq<u8>, s: StatsModel) -> Seq<u8> {
    k + seq![61u8] + fmt_tenths(s.min) + seq![47u8] + fmt_tenths(
        round_half_away(s.total, s.count),
    ) + seq![47u8] + fmt_tenths(s.max)
}

/// Render the report line of one key.
pub fn format_entry(key: &Vec<u8>, s: &Statistics) -> (line: Vec<u8>)
    requires
        wf_stats(s@),
    ensures
        line@ == report_line(key@, s@),
{
    let mut line: Vec<u8> = Vec::new();
    let mut i: usize = 0;
    while i < key.len()
        invariant
            i <= key@.len(),
            line@ == key@.take(i as int),
        decreases key@.len() - i,
    {
        line.push(key[i]);
        proof {
            assert(line@ =~= key@.take(i + 1));
        }
        i = i + 1;
    }
    proof {
        assert(line@ =~= key@);
    }
    line.push(61);
    format_tenths(s.min, &mut line);
    line.push(47);
    proof {
        lemma_stats_total_bounds(s@);
    }
    let mean = round_to_one_digit(s.total, s.count);
    format_tenths(mean, &mut line);
    line.push(47);
    format_tenths(s.max, &mut line);
    proof {
        assert(line@ =~= report_line(key@, s@));
    }
    line
}

/// Strict byte-lexicographic order on byte strings: a proper prefix comes
/// first, otherwise the first differing byte decides.
pub open spec fn lex_lt(a: Seq<u8>, b: Seq<u8>) -> bool
    decreases a.len(),
{
    if b.len() == 0 {
        false
    } else if a.len() == 0 {
        true
    } else if a[0] < b[0] {
        true
    } else if a[0] > b[0] {
        false
    } else {
        lex_lt(a.skip(1), b.skip(1))
    }
}

/// Byte strings that neither precede the other are equal.
pub proof fn lemma_lex_connex(a: Seq<u8>, b: Seq<u8>)
    requires
        !lex_lt(a, b),
        !lex_lt(b, a),
    ensures
        a == b,
    decreases a.len(),
{
    if b.len() == 0 {
        assert(a.len() == 0);
        assert(a =~= b);
    } else if a.len() == 0 {
        assert(lex_lt(a, b));
    } else {
        assert(a[0] == b[0]);
        lemma_lex_connex(a.skip(1), b.skip(1));
        assert forall|i: int| 0 <= i < a.len() implies a[i] == b[i] by {
            if i > 0 {
                assert(a.skip(1)[i - 1] == a[i]);
                assert(b.skip(1)[i - 1] == b[i]);
            }
        }
        assert(a =~= b);
    }
}

/// No byte string precedes itself.
pub proof fn lemma_lex_irrefl(a: Seq<u8>)
    ensures
        !lex_lt(a, a),
    decreases a.len(),
{
    if a.len() == 0 {
    } else {
        lemma_lex_irrefl(a.skip(1));
    }
}

/// Byte-lexicographic order is transitive.
pub proof fn lemma_lex_trans(a: Seq<u8>, b: Seq<u8>, c: Seq<u8>)
    requires
        lex_lt(a, b),
        lex_lt(b, c),
    ensures
        lex_lt(a, c),
    decreases a.len(),
{
    if a.len() == 0 {
    } else {
        if a[0] == b[0] && b[0] == c[0] {
            lemma_lex_trans(a.skip(1), b.skip(1), c.skip(1));
        }
    }
}

/// Is `a` strictly before `b` in byte-lexicographic order?
pub fn key_lt(a: &Vec<u8>, b: &Vec<u8>) -> (r: bool)
    ensures
        r == lex_lt(a@, b@),
{
    let mut i: usize = 0;
    proof {
        assert(a@.skip(0) =~= a@);
        assert(b@.skip(0) =~= b@);
    }
    loop
        invariant
            i <= a@.len(),
            i <= b@.len(),
            lex_lt(a@, b@) == lex_lt(a@.skip(i as int), b@.skip(i as int)),
        decreases a@.len() - i,
    {
        if i == b.len() {
            return false;
        }
        if i == a.len() {
            return true;
        }
        proof {
            assert(a@.skip(i as int)[0] == a@[i as int]);
            assert(b@.skip(i as int)[0] == b@[i as int]);
        }
        let x = a[i];
        let y = b[i];
        if x < y {
            return true;
        }
        if x > y {
            return false;
        }
        proof {
            assert(a@.skip(i as int).skip(1) =~= a@.skip(i + 1));
            assert(b@.skip(i as int).skip(1) =~= b@.skip(i + 1));
        }
        i = i + 1;
    }
}

/// Is `e` one of the entries of `es` at an index at or after `j0`?
pub(crate) open spec fn among_from(
    es: Seq<(Vec<u8>, Statistics)>,
    j0: int,
    e: (Vec<u8>, Statistics),
) -> bool {
    exists|j: int| j0 <= j < es.len() && e == #[trigger] es[j]
}

/// Sort entries into strictly increasing key order. Keys must be pairwise
/// distinct; the output holds exactly the input entries.
fn sort_entries(entries: Vec<(Vec<u8>, Statistics)>) -> (out: Vec<(Vec<u8>, Statistics)>)
    requires
        forall|i: int, j: int|
            0 <= i < j < entries@.len() ==> entries@[i].0@ != entries@[j].0@,
    ensures
        out@.len() == entries@.len(),
        forall|p: int, q: int| 0 <= p < q < out@.len() ==> lex_lt(out@[p].0@, out@[q].0@),
        forall|p: int| 0 <= p < out@.len() ==> #[trigger] among_from(entries@, 0, out@[p]),
        forall|j: int| 0 <= j < entries@.len() ==> #[trigger] among_from(out@, 0, entries@[j]),
{
    let ghost es0 = entries@;
    let n = entries.len();
    let mut rem = entries;
    let mut out: Vec<(Vec<u8>, Statistics)> = Vec::new();
    proof {
        assert(rem@ =~= es0.take(n as int));
    }
    while rem.len() > 0
        invariant
            rem@.len() <= n == es0.len(),
            rem@ == es0.take(rem@.len() as int),
            out@.len() + rem@.len() == n,
            forall|i: int, j: int| 0 <= i < j < es0.len() ==> es0[i].0@ != es0[j].0@,
            forall|p: int, q: int| 0 <= p < q < out@.len() ==> lex_lt(out@[p].0@, out@[q].0@),
            forall|p: int|
                0 <= p < out@.len() ==> #[trigger] among_from(
                    es0,
                    rem@.len() as int,
                    out@[p],
                ),
            forall|j: int|
                rem@.len() <= j < n ==> #[trigger] among_from(out@, 0, es0[j]),
        decreases rem@.len(),
    {
        let ghost out_before = out@;
        let e = rem.pop().unwrap();
        let ghost cur = rem@.len() as int;
        let ghost k = e.0@;
        proof {
            assert(es0.take(cur + 1).drop_last() =~= es0.take(cur));
            assert(e == es0[cur]);
            // the pending key differs from every key already placed
            assert forall|p: int| 0 <= p < out@.len() implies out@[p].0@ != k by {
                assert(among_from(es0, cur + 1, out@[p]));
                let j = choose|j: int| cur + 1 <= j < es0.len() && out@[p] == es0[j];
                assert(es0[cur].0@ != es0[j].0@);
            }
        }
        let mut pos: usize = 0;
        let mut stop = false;
        while !stop
            invariant
                k == e.0@,
                pos <= out@.len(),
                forall|p: int| 0 <= p < pos ==> lex_lt(out@[p].0@, k),
                stop ==> (pos == out@.len() || !lex_lt(out@[pos as int].0@, k)),
            decreases out@.len() - pos + (if stop {
                0int
            } else {
                1int
            }),
        {
            if pos == out.len() {
                stop = true;
            } else if !key_lt(&out[pos].0, &e.0) {
                stop = true;
            } else {
                pos = pos + 1;
            }
        }
        proof {
            // every entry at or after the insertion point follows the key
            assert forall|q: int| pos <= q < out@.len() implies lex_lt(k, out@[q].0@) by {
                assert(!lex_lt(out@[pos as int].0@, k));
                if !lex_lt(k, out@[pos as int].0@) {
                    lemma_lex_connex(k, out@[pos as int].0@);
                    assert(false);
                }
                if q > pos {
                    lemma_lex_trans(k, out@[pos as int].0@, out@[q].0@);
                }
            }
        }
        out.insert(pos, e);
        proof {
            let oa = out@;
            assert(oa.len() == out_before.len() + 1);
            assert forall|p: int, q: int|
                0 <= p < q < oa.len() implies lex_lt(oa[p].0@, oa[q].0@) by {
                if q < pos {
                    assert(oa[p] == out_before[p] && oa[q] == out_before[q]);
                } else if p < pos && q == pos {
                    assert(oa[p] == out_before[p] && oa[q] == e);
                } else if p < pos && q > pos {
                    assert(oa[p] == out_before[p] && oa[q] == out_before[q - 1]);
                } else if p == pos {
                    assert(oa[p] == e && oa[q] == out_before[q - 1]);
                } else {
                    assert(oa[p] == out_before[p - 1] && oa[q] == out_before[q - 1]);
                }
            }
            assert forall|p: int|
                0 <= p < oa.len() implies #[trigger] among_from(es0, cur, oa[p]) by {
                if p < pos {
                    assert(among_from(es0, cur + 1, out_before[p]));
                    let j = choose|j: int| cur + 1 <= j < es0.len() && out_before[p] == es0[j];
                    assert(oa[p] == out_before[p]);
                    assert(cur <= j < es0.len() && oa[p] == es0[j]);
                } else if p == pos {
                    assert(oa[p] == es0[cur]);
                    assert(cur <= cur < es0.len() && oa[p] == es0[cur]);
                } else {
                    assert(among_from(es0, cur + 1, out_before[p - 1]));
                    let j = choose|j: int|
                        cur + 1 <= j < es0.len() && out_before[p - 1] == es0[j];
                    assert(oa[p] == out_before[p - 1]);
                    assert(cur <= j < es0.len() && oa[p] == es0[j]);
                }
            }
            assert forall|j: int|
                cur <= j < n implies #[trigger] among_from(oa, 0, es0[j]) by {
                if j == cur {
                    assert(oa[pos as int] == es0[cur]);
                    assert(0 <= (pos as int) < oa.len() && es0[j] == oa[pos as int]);
                } else {
                    assert(among_from(out_before, 0, es0[j]));
                    let p = choose|p: int|
                        0 <= p < out_before.len() && es0[j] == out_before[p];
                    if p < pos {
                        assert(oa[p] == out_before[p]);
                        assert(0 <= p < oa.len() && es0[j] == oa[p]);
                    } else {
                        assert(oa[p + 1] == out_before[p]);
                        assert(0 <= p + 1 < oa.len() && es0[j] == oa[p + 1]);
                    }
                }
            }
        }
    }
    out
}

/// The table's entries in strictly increasing byte-lexicographic key order:
/// exactly the table's keys, no duplicates, each with its statistics.
pub fn sorted_entries(t: Table) -> (r: Vec<(Vec<u8>, Statistics)>)
    requires
        t.wf(),
    ensures
        r@.len() == t.contents().dom().len(),
        forall|p: int, q: int| 0 <= p < q < r@.len() ==> lex_lt(r@[p].0@, r@[q].0@),
        forall|p: int, q: int| 0 <= p < q < r@.len() ==> r@[p].0@ != r@[q].0@,
        forall|p: int|
            0 <= p < r@.len() ==> #[trigger] t.contents().contains_pair(r@[p].0@, r@[p].1@)
                && wf_stats(r@[p].1@),
        forall|k: Seq<u8>|
            t.contents().dom().contains(k) ==> exists|p: int|
                0 <= p < r@.len() && r@[p].0@ == k,
{
    let ghost m = t.contents();
    let entries = t.into_entries();
    let ghost es0 = entries@;
    let r = sort_entries(entries);
    proof {
        assert forall|p: int, q: int|
            0 <= p < q < r@.len() implies r@[p].0@ != r@[q].0@ by {
            if r@[p].0@ == r@[q].0@ {
                lemma_lex_irrefl(r@[p].0@);
            }
        }
        assert forall|p: int|
            0 <= p < r@.len() implies #[trigger] m.contains_pair(r@[p].0@, r@[p].1@)
            && wf_stats(r@[p].1@) by {
            assert(among_from(es0, 0, r@[p]));
            let j = choose|j: int| 0 <= j < es0.len() && r@[p] == es0[j];
            assert(m.contains_pair(es0[j].0@, es0[j].1@) && wf_stats(es0[j].1@));
        }
        assert forall|k: Seq<u8>|
            m.dom().contains(k) implies exists|p: int| 0 <= p < r@.len() && r@[p].0@ == k by {
            let j = choose|j: int| 0 <= j < es0.len() && es0[j].0@ == k;
            assert(among_from(r@, 0, es0[j]));
            let p = choose|p: int| 0 <= p < r@.len() && es0[j] == r@[p];
            assert(0 <= p < r@.len() && r@[p].0@ == k);
        }
    }
    r
}

/// The byte sequences of a vector of byte vectors.
pub open spec fn views_of(lines: Seq<Vec<u8>>) -> Seq<Seq<u8>> {
    lines.map_values(|l: Vec<u8>| l@)
}

/// `lines` is the report of the table `m` keyed by `ks`: the keys strictly
/// increasing and exactly those of `m`, each line the key's report line.
pub open spec fn report_matches(
    m: Map<Seq<u8>, StatsModel>,
    ks: Seq<Seq<u8>>,
    lines: Seq<Seq<u8>>,
) -> bool {
    &&& lines.len() == ks.len()
    &&& forall|i: int, j: int| 0 <= i < j < ks.len() ==> lex_lt(ks[i], ks[j])
    &&& forall|i: int|
        0 <= i < ks.len() ==> m.dom().contains(#[trigger] ks[i]) && lines[i] == report_line(
            ks[i],
            m[ks[i]],
        )
    &&& forall|k: Seq<u8>|
        m.dom().contains(k) ==> exists|i: int| 0 <= i < ks.len() && ks[i] == k
}

/// Render the full report of a table: one line per key, sorted by key.
pub fn render_report(t: Table) -> (r: Vec<Vec<u8>>)
    requires
        t.wf(),
    ensures
        r@.len() == t.contents().dom().len(),
        exists|ks: Seq<Seq<u8>>| #[trigger] report_matches(t.contents(), ks, views_of(r@)),
{
    let ghost m = t.contents();
    let es = sorted_entries(t);
    let ghost ks = es@.map_values(|e: (Vec<u8>, Statistics)| e.0@);
    let mut r: Vec<Vec<u8>> = Vec::new();
    let mut i: usize = 0;
    while i < es.len()
        invariant
            i <= es@.len(),
            r@.len() == i,
            es@.len() == m.dom().len(),
            ks == es@.map_values(|e: (Vec<u8>, Statistics)| e.0@),
            forall|p: int, q: int| 0 <= p < q < es@.len() ==> lex_lt(es@[p].0@, es@[q].0@),
            forall|p: int|
                0 <= p < es@.len() ==> #[trigger] m.contains_pair(es@[p].0@, es@[p].1@)
                    && wf_stats(es@[p].1@),
            forall|k: Seq<u8>|
                m.dom().contains(k) ==> exists|p: int| 0 <= p < es@.len() && es@[p].0@ == k,
            forall|p: int|
                0 <= p < i ==> r@[p]@ == report_line(es@[p].0@, m[es@[p].0@]),
        decreases es@.len() - i,
    {
        proof {
            assert(m.contains_pair(es@[i as int].0@, es@[i as int].1@));
        }
        let line = format_entry(&es[i].0, &es[i].1);
        r.push(line);
        i = i + 1;
    }
    proof {
        assert forall|p: int, q: int| 0 <= p < q < ks.len() implies lex_lt(ks[p], ks[q]) by {
            assert(ks[p] == es@[p].0@ && ks[q] == es@[q].0@);
        }
        assert forall|p: int|
            0 <= p < ks.len() implies m.dom().contains(#[trigger] ks[p]) && views_of(r@)[p]
            == report_line(ks[p], m[ks[p]]) by {
            assert(ks[p] == es@[p].0@);
            assert(m.contains_pair(es@[p].0@, es@[p].1@));
            assert(views_of(r@)[p] == r@[p]@);
        }
        assert forall|k2: Seq<u8>|
            m.dom().contains(k2) implies exists|p: int| 0 <= p < ks.len() && ks[p] == k2 by {
            let p = choose|p: int| 0 <= p < es@.len() && es@[p].0@ == k2;
            assert(ks[p] == es@[p].0@);
            assert(0 <= p < ks.len() && ks[p] == k2);
        }
        assert(views_of(r@).len() == r@.len());
        assert(ks.len() == es@.len());
        assert(r@.len() == es@.len());
        assert(views_of(r@).len() == ks.len());
        assert(report_matches(m, ks, views_of(r@)));
    }
    r
}

/// Whether a whole input buffer is acceptable: non-empty, terminated by a
/// line break, and every line of the remainder well formed.
pub open spec fn input_ok(input: Seq<u8>) -> bool {
    &&& input.len() > 0
    &&& input.last() == 10
    &&& all_lines_valid(split_lines_spec(input.drop_last()))
}

/// The table summarizing a whole input buffer.
pub open spec fn input_table(input: Seq<u8>) -> Map<Seq<u8>, StatsModel> {
    fold_records(records_of(split_lines_spec(input.drop_last())))
}

/// Summarize a whole input buffer sequentially: split into lines, fold
/// every record into one table, render the sorted report. `None` exactly
/// when the buffer is empty, lacks its final line break, or has a
/// malformed line.
pub fn summarize(input: &[u8]) -> (r: Option<Vec<Vec<u8>>>)
    ensures
        r is Some <==> input_ok(input@),
        r matches Some(lines) ==> {
            &&& lines@.len() == input_table(input@).dom().len()
            &&& exists|ks: Seq<Seq<u8>>| #[trigger] report_matches(
                input_table(input@),
                ks,
                views_of(lines@),
            )
        },
{
    let n = input.len();
    if n == 0 {
        return None;
    }
    if input[n - 1] != 10 {
        return None;
    }
    let trimmed = vstd::slice::slice_subrange(input, 0, n - 1);
    proof {
        assert(trimmed@ =~= input@.drop_last());
    }
    let lines = crate::parse::split_lines(trimmed);
    match Table::aggregate_lines(&lines) {
        None => None,
        Some(t) => Some(render_report(t)),
    }
}

} // verus!
