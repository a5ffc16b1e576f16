//! Decoding the fixed-format input: a buffer of lines `<key>;<value>`, where
//! the value field is `D.d`, `-D.d`, `DD.d` or `-DD.d` (one or two integer
//! digits, exactly one fractional digit, optional sign). Values are decoded
//! arithmetically from the character codes into integer tenths; no generic
//! decimal parser is involved.
use vstd::prelude::*;
use crate::stats::value_in_range;

verus! {

pub open spec fn is_digit(b: u8) -> bool {
    48 <= b <= 57
}

pub open spec fn digit(b: u8) -> int {
    b - 48
}

/// The unsigned value shapes: `D.d` (3 bytes) or `DD.d` (4 bytes).
pub open spec fn valid_unsigned_temp(s: Seq<u8>) -> bool {
    ||| (s.len() == 3 && is_digit(s[0]) && s[1] == 46 && is_digit(s[2]))
    ||| (s.len() == 4 && is_digit(s[0]) && is_digit(s[1]) && s[2] == 46 && is_digit(s[3]))
}

/// Value of an unsigned shape, in tenths: `D.d` is `10*D + d`.
pub open spec fn unsigned_tenths(s: Seq<u8>) -> int {
    if s.len() == 3 {
        digit(s[0]) * 10 + digit(s[2])
    } else {
        digit(s[0]) * 100 + digit(s[1]) * 10 + digit(s[3])
    }
}

/// A valid value field: an unsigned shape, optionally preceded by `-`.
pub open spec fn is_valid_temp(s: Seq<u8>) -> bool {
    if s.len() >= 1 && s[0] == 45 {
        valid_unsigned_temp(s.skip(1))
    } else {
        valid_unsigned_temp(s)
    }
}

/// The standard decimal interpretation of a valid value field, in tenths.
pub open spec fn temp_tenths(s: Seq<u8>) -> int {
    if s.len() >= 1 && s[0] == 45 {
        -unsigned_tenths(s.skip(1))
    } else {
        unsigned_tenths(s)
    }
}

/// Length of the longest prefix of `l` free of the byte `b`; equals
/// `l.len()` when `b` does not occur.
pub open spec fn find_idx(l: Seq<u8>, b: u8) -> int
    decreases l.len(),
{
    if l.len() == 0 {
        0
    } else if l[0] == b {
        0
    } else {
        1 + find_idx(l.skip(1), b)
    }
}

/// `find_idx` is the index of the first occurrence, or the length.
pub proof fn lemma_find_idx(l: Seq<u8>, b: u8)
    ensures
        0 <= find_idx(l, b) <= l.len(),
        find_idx(l, b) < l.len() ==> l[find_idx(l, b)] == b,
        forall|j: int| 0 <= j < find_idx(l, b) ==> l[j] != b,
        find_idx(l, b) == l.len() ==> forall|j: int| 0 <= j < l.len() ==> l[j] != b,
    decreases l.len(),
{
    if l.len() == 0 {
    } else if l[0] == b {
    } else {
        lemma_find_idx(l.skip(1), b);
        assert forall|j: int| 0 <= j < find_idx(l, b) implies l[j] != b by {
            if j >= 1 {
                assert(l.skip(1)[j - 1] == l[j]);
            }
        }
        if find_idx(l, b) == l.len() {
            assert forall|j: int| 0 <= j < l.len() implies l[j] != b by {
                if j >= 1 {
                    assert(l.skip(1)[j - 1] == l[j]);
                }
            }
        }
    }
}

/// Relies on memchr::memchr: returns the index of the first occurrence of
/// `needle` in `haystack`, or `None` when `needle` does not occur.
#[verifier::external_body]
pub(crate) fn find_byte(needle: u8, haystack: &[u8]) -> (r: Option<usize>)
    ensures
        match r {
            Some(i) => {
                &&& i < haystack@.len()
                &&& haystack@[i as int] == needle
                &&& forall|j: int| 0 <= j < i ==> haystack@[j] != needle
            },
            None => forall|j: int| 0 <= j < haystack@.len() ==> haystack@[j] != needle,
        },
{
    memchr::memchr(needle, haystack)
}

/// The result of `find_byte` pinned to `find_idx`.
pub(crate) fn find_byte_idx(needle: u8, haystack: &[u8]) -> (r: Option<usize>)
    ensures
        match r {
            Some(i) => i == find_idx(haystack@, needle) && i < haystack@.len(),
            None => find_idx(haystack@, needle) == haystack@.len(),
        },
{
    let r = find_byte(needle, haystack);
    proof {
        lemma_find_idx(haystack@, needle);
        let f = find_idx(haystack@, needle);
        match r {
            Some(i) => {
                if f < i {
                    assert(haystack@[f] == needle);
                    assert(false);
                } else if (i as int) < f {
                    assert(haystack@[i as int] != needle);
                    assert(false);
                }
            },
            None => {
                if f < haystack@.len() {
                    assert(haystack@[f] == needle);
                    assert(false);
                }
            },
        }
    }
    r
}

/// Decode a valid value field into tenths.
pub fn parse_temperature_value(bytes: &[u8]) -> (t: i64)
    requires
        is_valid_temp(bytes@),
    ensures
        t as int == temp_tenths(bytes@),
        value_in_range(t as int),
{
    let len = bytes.len();
    let neg = bytes[0] == 45;
    let off: usize = if neg {
        1
    } else {
        0
    };
    let unsigned: i64 = if len - off == 3 {
        proof {
            if neg {
                assert(bytes@.skip(1)[0] == bytes@[1]);
                assert(bytes@.skip(1)[2] == bytes@[3]);
            }
        }
        (bytes[off] - 48) as i64 * 10 + (bytes[off + 2] - 48) as i64
    } else {
        proof {
            if neg {
                assert(bytes@.skip(1)[0] == bytes@[1]);
                assert(bytes@.skip(1)[1] == bytes@[2]);
                assert(bytes@.skip(1)[3] == bytes@[4]);
            }
        }
        (bytes[off] - 48) as i64 * 100 + (bytes[off + 1] - 48) as i64 * 10 + (bytes[off + 3]
            - 48) as i64
    };
    if neg {
        -unsigned
    } else {
        unsigned
    }
}

/// Check whether a byte slice is a valid value field.
pub fn temp_is_valid(bytes: &[u8]) -> (ok: bool)
    ensures
        ok == is_valid_temp(bytes@),
{
    let len = bytes.len();
    let neg = len >= 1 && bytes[0] == 45;
    let off: usize = if neg {
        1
    } else {
        0
    };
    let ok = if len - off == 3 && len >= 3 {
        is_digit_exec(bytes[off]) && bytes[off + 1] == 46 && is_digit_exec(bytes[off + 2])
    } else if len - off == 4 && len >= 4 {
        is_digit_exec(bytes[off]) && is_digit_exec(bytes[off + 1]) && bytes[off + 2] == 46
            && is_digit_exec(bytes[off + 3])
    } else {
        false
    };
    proof {
        if neg {
            assert(bytes@.skip(1).len() == len - 1);
            assert(forall|j: int| 0 <= j < len - 1 ==> bytes@.skip(1)[j] == bytes@[j + 1]);
        }
    }
    ok
}

fn is_digit_exec(b: u8) -> (r: bool)
    ensures
        r == is_digit(b),
{
    48 <= b && b <= 57
}

/// Where the key of a line ends: index of the first separator byte.
pub open spec fn sep_pos(l: Seq<u8>) -> int {
    find_idx(l, 59)
}

/// A line is valid when it has a separator and a valid value field after it.
pub open spec fn valid_line(l: Seq<u8>) -> bool {
    sep_pos(l) < l.len() && is_valid_temp(l.skip(sep_pos(l) + 1))
}

/// The key of a line: every byte before the first separator.
pub open spec fn line_key(l: Seq<u8>) -> Seq<u8> {
    l.take(sep_pos(l))
}

/// The value of a valid line, in tenths.
pub open spec fn line_value(l: Seq<u8>) -> int {
    temp_tenths(l.skip(sep_pos(l) + 1))
}

/// Split one line into its key and its decoded value; `None` exactly on a
/// malformed line (no separator, or a value field of the wrong shape).
pub fn parse_line(line: &[u8]) -> (r: Option<(Vec<u8>, i64)>)
    ensures
        r is Some <==> valid_line(line@),
        r matches Some((k, v)) ==> {
            &&& k@ == line_key(line@)
            &&& v as int == line_value(line@)
            &&& value_in_range(v as int)
        },
{
    let n = line.len();
    match find_byte_idx(59, line) {
        None => None,
        Some(i) => {
            let value_field = vstd::slice::slice_subrange(line, i + 1, n);
            if temp_is_valid(value_field) {
                let v = parse_temperature_value(value_field);
                let key = vstd::slice::slice_to_vec(vstd::slice::slice_subrange(line, 0, i));
                proof {
                    assert(line@.subrange(i + 1, line@.len() as int) == line@.skip(i + 1));
                    assert(line@.subrange(0, i as int) == line@.take(i as int));
                }
                Some((key, v))
            } else {
                proof {
                    assert(line@.subrange(i + 1, line@.len() as int) == line@.skip(i + 1));
                }
                None
            }
        },
    }
}

/// Where the first line of a buffer ends: index of the first line break.
pub open spec fn nl_pos(s: Seq<u8>) -> int {
    find_idx(s, 10)
}

/// The lines of a buffer that contains no terminating line break: the
/// buffer cut at every line-break byte. A buffer with no line break is a
/// single line; an empty buffer is a single empty line.
pub open spec fn split_lines_spec(s: Seq<u8>) -> Seq<Seq<u8>>
    decreases s.len(),
        via split_lines_spec_decreases
{
    if nl_pos(s) == s.len() {
        seq![s]
    } else {
        seq![s.take(nl_pos(s))] + split_lines_spec(s.skip(nl_pos(s) + 1))
    }
}

#[via_fn]
proof fn split_lines_spec_decreases(s: Seq<u8>) {
    lemma_find_idx(s, 10);
}

/// Cut a buffer into its lines.
pub fn split_lines(input: &[u8]) -> (r: Vec<Vec<u8>>)
    ensures
        r@.map_values(|l: Vec<u8>| l@) == split_lines_spec(input@),
        r@.len() >= 1,
{
    let mut out: Vec<Vec<u8>> = Vec::new();
    let mut start: usize = 0;
    let len = input.len();
    proof {
        assert(input@.skip(0) =~= input@);
        assert(out@.map_values(|l: Vec<u8>| l@) + split_lines_spec(input@) =~= split_lines_spec(
            input@,
        ));
    }
    loop
        invariant
            start <= len,
            len == input@.len(),
            split_lines_spec(input@) == out@.map_values(|l: Vec<u8>| l@) + split_lines_spec(
                input@.skip(start as int),
            ),
        decreases len - start,
    {
        let rest = vstd::slice::slice_subrange(input, start, len);
        proof {
            assert(rest@ == input@.skip(start as int));
            lemma_find_idx(rest@, 10);
        }
        match find_byte_idx(10, rest) {
            None => {
                let line = vstd::slice::slice_to_vec(rest);
                out.push(line);
                proof {
                    assert(split_lines_spec(rest@) == seq![rest@]);
                    assert(out@.map_values(|l: Vec<u8>| l@) =~= out@.map_values(
                        |l: Vec<u8>| l@,
                    ).drop_last() + seq![rest@]);
                    assert(split_lines_spec(input@) =~= out@.map_values(|l: Vec<u8>| l@));
                }
                return out;
            },
            Some(i) => {
                let line = vstd::slice::slice_to_vec(
                    vstd::slice::slice_subrange(rest, 0, i),
                );
                out.push(line);
                let ghost old_start = start as int;
                start = start + i + 1;
                proof {
                    assert(rest@.subrange(0, i as int) == rest@.take(i as int));
                    assert(rest@.skip(i + 1) =~= input@.skip(start as int));
                    assert(split_lines_spec(rest@) == seq![rest@.take(i as int)]
                        + split_lines_spec(rest@.skip(i + 1)));
                    assert(out@.map_values(|l: Vec<u8>| l@) =~= out@.map_values(
                        |l: Vec<u8>| l@,
                    ).drop_last() + seq![rest@.take(i as int)]);
                    assert(split_lines_spec(input@) =~= out@.map_values(|l: Vec<u8>| l@)
                        + split_lines_spec(input@.skip(start as int)));
                }
            },
        }
    }
}

} // verus!
