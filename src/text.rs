use vstd::prelude::*;
use vstd::string::StringSliceAdditionalSpecFns;

use crate::cluster::{find_from, lemma_find_from_bounds};
use crate::error::DiskError;
use crate::strings::text_of;

verus! {

/// Characters of a row label: two hex digits and a colon.
pub const ROW_LABEL_LEN: usize = 3;

/// Hex digits in a row after its label.
pub const ROW_DIGITS: usize = 64;

/// Bytes in a cluster row: the label and the digits.
pub const ROW_LEN: usize = ROW_LABEL_LEN + ROW_DIGITS;

pub open spec fn is_hex_digit(b: u8) -> bool {
    (48 <= b <= 57) || (65 <= b <= 70) || (97 <= b <= 102)
}

/// The value of a hex digit, of either case.
pub open spec fn hex_value(b: u8) -> u8 {
    if b <= 57 {
        (b - 48) as u8
    } else if b <= 70 {
        (b - 55) as u8
    } else {
        (b - 87) as u8
    }
}

/// The uppercase hex digit for a value below 16.
pub open spec fn hex_digit(v: u8) -> u8 {
    if v < 10 {
        (48 + v) as u8
    } else {
        (55 + v) as u8
    }
}

/// Two uppercase hex digits for each byte, the high nibble first.
pub open spec fn hex_digits(b: Seq<u8>) -> Seq<u8> {
    Seq::new(
        2 * b.len(),
        |i: int|
            if i % 2 == 0 {
                hex_digit(b[i / 2] / 16)
            } else {
                hex_digit(b[i / 2] % 16)
            },
    )
}

/// Relies on `hex::encode_upper`: two digits from `0123456789ABCDEF` for
/// each byte, the high nibble first.
#[verifier::external_body]
pub(crate) fn encode_upper_hex(bytes: &[u8]) -> (r: String)
    ensures
        r@ == text_of(hex_digits(bytes@)),
{
    hex::encode_upper(bytes)
}

/// The value of a hex digit, or `None` for any other byte.
pub fn nibble(b: u8) -> (r: Option<u8>)
    ensures
        r == (if is_hex_digit(b) {
            Some(hex_value(b))
        } else {
            None
        }),
{
    if 48 <= b && b <= 57 {
        Some(b - 48)
    } else if 65 <= b && b <= 70 {
        Some(b - 55)
    } else if 97 <= b && b <= 102 {
        Some(b - 87)
    } else {
        None
    }
}

/// A line without the carriage return that may end it.
pub open spec fn strip_cr(l: Seq<u8>) -> Seq<u8> {
    if l.len() > 0 && l.last() == 13 {
        l.drop_last()
    } else {
        l
    }
}

/// The lines of `t` from position `i` on: each ends at a newline or at the
/// end of the text, and a final newline opens no further line.
pub open spec fn lines_from(t: Seq<u8>, i: int) -> Seq<Seq<u8>>
    decreases t.len() + 1 - i,
    via lines_from_decreases
{
    if 0 <= i < t.len() {
        let e = find_from(t, i, 10);
        seq![strip_cr(t.subrange(i, e))] + lines_from(t, e + 1)
    } else {
        Seq::empty()
    }
}

#[via_fn]
proof fn lines_from_decreases(t: Seq<u8>, i: int) {
    if 0 <= i < t.len() {
        lemma_find_from_bounds(t, i, 10);
    }
}

/// The lines of a text.
pub open spec fn lines(t: Seq<u8>) -> Seq<Seq<u8>> {
    lines_from(t, 0)
}

/// The lines after the two legend lines: one per cluster.
pub open spec fn data_rows(t: Seq<u8>) -> Seq<Seq<u8>> {
    let ls = lines(t);
    if ls.len() <= 2 {
        Seq::empty()
    } else {
        ls.subrange(2, ls.len() as int)
    }
}

/// A cluster row: a three-character label, then sixty-four hex digits.
pub open spec fn row_ok(l: Seq<u8>) -> bool {
    &&& l.len() == ROW_LEN
    &&& forall|k: int| ROW_LABEL_LEN <= k < ROW_LEN ==> is_hex_digit(#[trigger] l[k])
}

/// The record that a row holds. A zero digit stands before the row's digits
/// and the digits are paired from there, so the first digit (the tag) is
/// byte 0 alone and the last digit is left over.
pub open spec fn record_of_row(l: Seq<u8>) -> Seq<u8> {
    Seq::new(
        32,
        |k: int|
            if k == 0 {
                hex_value(l[3])
            } else {
                (hex_value(l[2 + 2 * k]) * 16 + hex_value(l[3 + 2 * k])) as u8
            },
    )
}

pub open spec fn records_of_rows(rows: Seq<Seq<u8>>) -> Seq<Seq<u8>> {
    rows.map_values(|l: Seq<u8>| record_of_row(l))
}

pub open spec fn records_view(v: Seq<Vec<u8>>) -> Seq<Seq<u8>> {
    v.map_values(|x: Vec<u8>| x@)
}

/// The records of a disk text, or `None` where one of its rows is malformed.
pub open spec fn disk_records(t: Seq<u8>) -> Option<Seq<Seq<u8>>> {
    let rows = data_rows(t);
    if forall|i: int| 0 <= i < rows.len() ==> row_ok(#[trigger] rows[i]) {
        Some(records_of_rows(rows))
    } else {
        None
    }
}

/// Decodes the row `t[start..end]` into its record.
fn row_to_raw(t: &[u8], start: usize, end: usize) -> (r: Option<Vec<u8>>)
    requires
        start <= end <= t@.len(),
    ensures
        ({
            let l = t@.subrange(start as int, end as int);
            match r {
                Some(v) => row_ok(l) && v@ == record_of_row(l),
                None => !row_ok(l),
            }
        }),
{
    let ghost l = t@.subrange(start as int, end as int);
    if end - start != ROW_LEN {
        return None;
    }
    let mut out: Vec<u8> = Vec::new();
    match nibble(t[start + 3]) {
        Some(v) => out.push(v),
        None => {
            assert(!is_hex_digit(l[3]));
            return None;
        },
    }
    let mut k: usize = 1;
    while k < 32
        invariant
            l == t@.subrange(start as int, end as int),
            end - start == ROW_LEN,
            end <= t@.len(),
            1 <= k <= 32,
            out@.len() == k,
            forall|j: int| 0 <= j < k ==> out@[j] == #[trigger] record_of_row(l)[j],
            forall|j: int| 3 <= j < 2 + 2 * k ==> is_hex_digit(#[trigger] l[j]),
        decreases 32 - k,
    {
        let hi = nibble(t[start + 2 + 2 * k]);
        let lo = nibble(t[start + 3 + 2 * k]);
        match (hi, lo) {
            (Some(h), Some(w)) => {
                out.push(h * 16 + w);
            },
            _ => {
                assert(!is_hex_digit(l[2 + 2 * k]) || !is_hex_digit(l[3 + 2 * k]));
                return None;
            },
        }
        k = k + 1;
    }
    if nibble(t[start + 66]).is_none() {
        assert(!is_hex_digit(l[66]));
        return None;
    }
    assert(out@ =~= record_of_row(l));
    Some(out)
}

/// The records of a disk text, one per row after the two legend lines, in
/// the order of the rows; fails on the first malformed row.
pub fn format_disk(disk: &str) -> (r: Result<Vec<Vec<u8>>, DiskError>)
    ensures
        match r {
            Ok(rs) => disk_records(disk.spec_bytes()) == Some(records_view(rs@)),
            Err(e) => e == DiskError::MalformedLine && disk_records(disk.spec_bytes()) is None,
        },
{
    let t = disk.as_bytes();
    let mut out: Vec<Vec<u8>> = Vec::new();
    let mut pos: usize = 0;
    let mut line_no: usize = 0;
    let ghost done: Seq<Seq<u8>> = Seq::empty();
    while pos < t.len()
        invariant
            t@ == disk.spec_bytes(),
            pos <= t@.len(),
            lines(t@) == done + lines_from(t@, pos as int),
            done.len() == line_no,
            line_no <= pos,
            forall|i: int| 2 <= i < done.len() ==> row_ok(#[trigger] done[i]),
            records_view(out@) == (if done.len() <= 2 {
                Seq::empty()
            } else {
                records_of_rows(done.subrange(2, done.len() as int))
            }),
        decreases t@.len() - pos,
    {
        let mut e: usize = pos;
        while e < t.len() && t[e] != 10
            invariant
                pos <= e <= t@.len(),
                find_from(t@, pos as int, 10) == find_from(t@, e as int, 10),
            decreases t@.len() - e,
        {
            e = e + 1;
        }
        let mut end: usize = e;
        if end > pos && t[end - 1] == 13 {
            end = end - 1;
        }
        let ghost line = t@.subrange(pos as int, end as int);
        assert(line =~= strip_cr(t@.subrange(pos as int, e as int)));
        let next: usize = if e < t.len() {
            e + 1
        } else {
            e
        };
        proof {
            assert(find_from(t@, pos as int, 10) == e as int);
            if e >= t@.len() {
                assert(lines_from(t@, e + 1) =~= Seq::<Seq<u8>>::empty());
                assert(lines_from(t@, e as int) =~= Seq::<Seq<u8>>::empty());
            }
            assert(lines_from(t@, pos as int) == seq![line] + lines_from(t@, next as int));
        }
        if line_no >= 2 {
            match row_to_raw(t, pos, end) {
                Some(rec) => {
                    out.push(rec);
                },
                None => {
                    assert(lines(t@)[line_no as int] == line);
                    assert(data_rows(t@)[line_no - 2] == line);
                    return Err(DiskError::MalformedLine);
                },
            }
        }
        proof {
            let old_done = done;
            done = done.push(line);
            assert(done + lines_from(t@, next as int) =~= old_done + lines_from(t@, pos as int));
            if done.len() > 2 {
                assert(records_of_rows(done.subrange(2, done.len() as int)) =~= records_of_rows(
                    old_done.subrange(2, old_done.len() as int),
                ).push(record_of_row(line)));
            }
            assert(records_view(out@) =~= (if done.len() <= 2 {
                Seq::empty()
            } else {
                records_of_rows(done.subrange(2, done.len() as int))
            }));
        }
        line_no = line_no + 1;
        pos = next;
    }
    assert(lines(t@) =~= done);
    Ok(out)
}

} // verus!
