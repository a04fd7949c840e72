use vstd::prelude::*;
use vstd::utf8::{encode_utf8, is_ascii_chars, is_ascii_chars_encode_utf8};

use crate::cluster::{
    decode_record, encode_record, lemma_decode_encode, lemma_find_from, ClusterView,
};
use crate::disk::{
    all_wf, decode_disk, decode_records, legend_bytes, render_bytes, row_bytes, rows_bytes,
    ruler_tens, ruler_units,
};
use crate::error::DiskError;
use crate::strings::{lemma_char_byte, text_of};
use crate::text::{
    data_rows, disk_records, hex_digit, hex_digits, hex_value, is_hex_digit, lines, lines_from,
    record_of_row, records_of_rows, row_ok, strip_cr,
};

verus! {

/// Bytes in the legend: two lines with their newlines.
pub const LEGEND_LEN: usize = 121;

/// Bytes in a rendered row with its newline.
pub const ROW_SPAN: usize = 68;

/// A rendered row without its newline.
pub open spec fn row_line(i: int, c: ClusterView) -> Seq<u8> {
    row_bytes(i, c).subrange(0, 67)
}

proof fn lemma_hex_digit(v: u8)
    requires
        v < 16,
    ensures
        is_hex_digit(hex_digit(v)),
        hex_value(hex_digit(v)) == v,
        hex_digit(v) != 10 && hex_digit(v) != 13 && hex_digit(v) < 128,
{
}

proof fn lemma_hex_digits(b: Seq<u8>)
    ensures
        hex_digits(b).len() == 2 * b.len(),
        forall|k: int|
            0 <= k < hex_digits(b).len() ==> is_hex_digit(#[trigger] hex_digits(b)[k]) && hex_digits(
                b,
            )[k] != 10 && hex_digits(b)[k] != 13 && hex_digits(b)[k] < 128,
{
    assert forall|k: int| 0 <= k < hex_digits(b).len() implies is_hex_digit(
        #[trigger] hex_digits(b)[k],
    ) && hex_digits(b)[k] != 10 && hex_digits(b)[k] != 13 && hex_digits(b)[k] < 128 by {
        if k % 2 == 0 {
            lemma_hex_digit(b[k / 2] / 16);
        } else {
            lemma_hex_digit(b[k / 2] % 16);
        }
    }
}

/// A rendered row is sixty-seven bytes of label and digits, none of them a
/// line break, then a newline; it reads back as the cluster's record.
proof fn lemma_row_shape(i: int, c: ClusterView)
    requires
        c.wf(),
    ensures
        row_bytes(i, c).len() == ROW_SPAN,
        row_bytes(i, c)[67] == 10,
        forall|k: int| 0 <= k < 67 ==> #[trigger] row_bytes(i, c)[k] != 10,
        forall|k: int| 0 <= k < ROW_SPAN ==> #[trigger] row_bytes(i, c)[k] < 128,
        strip_cr(row_line(i, c)) == row_line(i, c),
        row_ok(row_line(i, c)),
        record_of_row(row_line(i, c)) == encode_record(c),
{
    let rec = encode_record(c);
    lemma_decode_encode(c);
    assert(rec[0] <= 4);
    let hd = hex_digits(rec);
    let label = hex_digits(seq![(i % 256) as u8]);
    lemma_hex_digits(rec);
    lemma_hex_digits(seq![(i % 256) as u8]);
    let row = row_bytes(i, c);
    let line = row_line(i, c);
    assert(row.len() == 68);
    assert forall|k: int| 3 <= k < 66 implies row[k] == hd[k - 2] by {}
    assert forall|k: int| 0 <= k < 67 implies #[trigger] row[k] != 10 by {
        if k < 2 {
            assert(row[k] == label[k]);
        } else if 3 <= k < 66 {
            assert(row[k] == hd[k - 2]);
        }
    }
    assert forall|k: int| 0 <= k < ROW_SPAN implies #[trigger] row[k] < 128 by {
        if k < 2 {
            assert(row[k] == label[k]);
        } else if 3 <= k < 66 {
            assert(row[k] == hd[k - 2]);
        }
    }
    assert forall|k: int| 3 <= k < 67 implies is_hex_digit(#[trigger] line[k]) by {
        if k < 66 {
            assert(line[k] == hd[k - 2]);
        }
    }
    assert forall|k: int| 0 <= k < 32 implies #[trigger] record_of_row(line)[k] == rec[k] by {
        if k == 0 {
            assert(line[3] == hd[1]);
            lemma_hex_digit(rec[0] % 16);
        } else {
            assert(line[2 + 2 * k] == hd[2 * k]);
            assert(line[3 + 2 * k] == hd[2 * k + 1]);
            lemma_hex_digit(rec[k] / 16);
            lemma_hex_digit(rec[k] % 16);
        }
    }
    assert(record_of_row(line) =~= rec);
}

/// Each cluster's row stands at its fixed place among the rows.
proof fn lemma_rows_layout(cs: Seq<ClusterView>)
    requires
        all_wf(cs),
    ensures
        rows_bytes(cs).len() == ROW_SPAN * cs.len(),
        forall|i: int|
            #![trigger cs[i]]
            0 <= i < cs.len() ==> rows_bytes(cs).subrange(ROW_SPAN * i, ROW_SPAN * i + ROW_SPAN)
                == row_bytes(i, cs[i]),
        forall|k: int| 0 <= k < rows_bytes(cs).len() ==> #[trigger] rows_bytes(cs)[k] < 128,
    decreases cs.len(),
{
    if cs.len() > 0 {
        let d = cs.drop_last();
        let n = cs.len() - 1;
        assert(all_wf(d)) by {
            assert forall|i: int| 0 <= i < d.len() implies (#[trigger] d[i]).wf() by {
                assert(d[i] == cs[i]);
            }
        }
        lemma_rows_layout(d);
        lemma_row_shape(n, cs[n]);
        let all = rows_bytes(cs);
        assert forall|i: int| #![trigger cs[i]] 0 <= i < cs.len() implies all.subrange(
            ROW_SPAN * i,
            ROW_SPAN * i + ROW_SPAN,
        ) == row_bytes(i, cs[i]) by {
            if i < n {
                assert(d[i] == cs[i]);
                assert(all.subrange(ROW_SPAN * i, ROW_SPAN * i + ROW_SPAN) =~= rows_bytes(d).subrange(
                    ROW_SPAN * i,
                    ROW_SPAN * i + ROW_SPAN,
                ));
            } else {
                assert(all.subrange(ROW_SPAN * i, ROW_SPAN * i + ROW_SPAN) =~= row_bytes(i, cs[i]));
            }
        }
        assert forall|k: int| 0 <= k < all.len() implies #[trigger] all[k] < 128 by {
            if k < rows_bytes(d).len() {
                assert(all[k] == rows_bytes(d)[k]);
            } else {
                assert(all[k] == row_bytes(n, cs[n])[k - rows_bytes(d).len()]);
            }
        }
    }
}

/// The lines of a rendered disk from the row of cluster `i` on.
proof fn lemma_row_lines(cs: Seq<ClusterView>, i: int)
    requires
        all_wf(cs),
        0 <= i <= cs.len(),
    ensures
        lines_from(render_bytes(cs), LEGEND_LEN + ROW_SPAN * i) == Seq::new(
            (cs.len() - i) as nat,
            |j: int| row_line(i + j, cs[i + j]),
        ),
    decreases cs.len() - i,
{
    let t = render_bytes(cs);
    lemma_rows_layout(cs);
    assert(legend_bytes().len() == LEGEND_LEN);
    let p = LEGEND_LEN + ROW_SPAN * i;
    if i == cs.len() {
        assert(lines_from(t, p) =~= Seq::<Seq<u8>>::empty());
        assert(Seq::new((cs.len() - i) as nat, |j: int| row_line(i + j, cs[i + j])) =~= Seq::<
            Seq<u8>,
        >::empty());
    } else {
        let row = row_bytes(i, cs[i]);
        lemma_row_shape(i, cs[i]);
        assert(t.subrange(p, p + ROW_SPAN) =~= rows_bytes(cs).subrange(
            ROW_SPAN * i,
            ROW_SPAN * i + ROW_SPAN,
        ));
        assert forall|k: int| p <= k < p + 67 implies t[k] != 10 by {
            assert(t[k] == t.subrange(p, p + ROW_SPAN)[k - p]);
        }
        assert(t[p + 67] == t.subrange(p, p + ROW_SPAN)[67]);
        lemma_find_from(t, p, p + 67, 10);
        lemma_row_lines(cs, i + 1);
        assert(t.subrange(p, p + 67) =~= row_line(i, cs[i]));
        assert(lines_from(t, p) == seq![row_line(i, cs[i])] + lines_from(t, p + ROW_SPAN));
        assert(lines_from(t, p) =~= Seq::new(
            (cs.len() - i) as nat,
            |j: int| row_line(i + j, cs[i + j]),
        ));
    }
}

/// The legend lines are the first two lines of a rendered disk.
proof fn lemma_legend_lines(cs: Seq<ClusterView>)
    requires
        all_wf(cs),
    ensures
        lines(render_bytes(cs)) == seq![ruler_tens(), ruler_units()] + lines_from(
            render_bytes(cs),
            LEGEND_LEN as int,
        ),
        forall|k: int| 0 <= k < LEGEND_LEN ==> #[trigger] render_bytes(cs)[k] < 128,
{
    let t = render_bytes(cs);
    let a = ruler_tens();
    let b = ruler_units();
    assert forall|k: int| 0 <= k < 52 implies #[trigger] a[k] != 10 && a[k] != 13 && a[k] < 128 by {
        let j = k - 3;
        if k >= 3 && j % 16 == 0 && j > 0 {
            lemma_hex_digit((j / 16) as u8);
        }
    }
    assert forall|k: int| 0 <= k < 67 implies #[trigger] b[k] != 10 && b[k] != 13 && b[k] < 128 by {
        if k >= 3 {
            lemma_hex_digit(((k - 3) % 16) as u8);
        }
    }
    assert forall|k: int| 0 <= k < 52 implies #[trigger] t[k] != 10 && t[k] < 128 by {
        assert(t[k] == a[k]);
    }
    assert forall|k: int| 53 <= k < 120 implies #[trigger] t[k] != 10 && t[k] < 128 by {
        assert(t[k] == b[k - 53]);
    }
    lemma_find_from(t, 0, 52, 10);
    lemma_find_from(t, 53, 120, 10);
    assert(t.subrange(0, 52) =~= a);
    assert(a[51] != 13);
    assert(t.subrange(53, 120) =~= b);
    assert(b[66] != 13);
    assert(lines_from(t, 53) == seq![b] + lines_from(t, 121));
    assert(lines_from(t, 0) == seq![a] + lines_from(t, 53));
    assert(lines(t) =~= seq![a, b] + lines_from(t, 121));
}

proof fn lemma_decode_records_all(rs: Seq<Seq<u8>>, cs: Seq<ClusterView>)
    requires
        rs.len() == cs.len(),
        forall|i: int| 0 <= i < rs.len() ==> decode_record(#[trigger] rs[i]) == Ok::<
            ClusterView,
            DiskError,
        >(cs[i]),
    ensures
        decode_records(rs) == Ok::<Seq<ClusterView>, DiskError>(cs),
    decreases rs.len(),
{
    if rs.len() == 0 {
        assert(cs =~= Seq::<ClusterView>::empty());
    } else {
        let (rd, cd) = (rs.drop_last(), cs.drop_last());
        assert forall|i: int| 0 <= i < rd.len() implies decode_record(#[trigger] rd[i]) == Ok::<
            ClusterView,
            DiskError,
        >(cd[i]) by {
            assert(rd[i] == rs[i]);
        }
        lemma_decode_records_all(rd, cd);
        assert(decode_record(rs[rs.len() - 1]) == Ok::<ClusterView, DiskError>(cs.last()));
        assert(cd.push(cs.last()) =~= cs);
    }
}

/// Rendering clusters that fit in records and decoding the text gives the
/// same clusters back, both from the rendered bytes and from the UTF-8
/// bytes of the rendered characters.
pub proof fn lemma_render_round_trip(cs: Seq<ClusterView>)
    requires
        all_wf(cs),
    ensures
        decode_disk(render_bytes(cs)) == Ok::<Seq<ClusterView>, DiskError>(cs),
        encode_utf8(text_of(render_bytes(cs))) == render_bytes(cs),
        decode_disk(encode_utf8(text_of(render_bytes(cs)))) == Ok::<Seq<ClusterView>, DiskError>(
            cs,
        ),
{
    let t = render_bytes(cs);
    lemma_legend_lines(cs);
    lemma_row_lines(cs, 0);
    lemma_rows_layout(cs);
    let rows = Seq::new(cs.len(), |j: int| row_line(0 + j, cs[0 + j]));
    assert(lines(t) == seq![ruler_tens(), ruler_units()] + rows);
    assert(data_rows(t) =~= rows);
    assert forall|i: int| 0 <= i < rows.len() implies row_ok(#[trigger] rows[i]) by {
        lemma_row_shape(i, cs[i]);
    }
    let rs = records_of_rows(rows);
    assert(disk_records(t) == Some(rs));
    assert forall|i: int| 0 <= i < rs.len() implies decode_record(#[trigger] rs[i]) == Ok::<
        ClusterView,
        DiskError,
    >(cs[i]) by {
        lemma_row_shape(i, cs[i]);
        lemma_decode_encode(cs[i]);
    }
    lemma_decode_records_all(rs, cs);
    let chars = text_of(t);
    assert forall|k: int| 0 <= k < t.len() implies #[trigger] t[k] < 128 by {
        if k >= LEGEND_LEN {
            assert(t[k] == rows_bytes(cs)[k - LEGEND_LEN]);
        }
    }
    assert forall|k: int| 0 <= k < chars.len() implies '\0' <= #[trigger] chars[k] <= '\u{7f}' by {
        lemma_char_byte(t[k]);
    }
    assert(is_ascii_chars(chars));
    is_ascii_chars_encode_utf8(chars);
    assert forall|k: int| 0 <= k < t.len() implies #[trigger] encode_utf8(chars)[k] == t[k] by {
        lemma_char_byte(t[k]);
        assert(chars[k] as u8 == encode_utf8(chars)[k]);
    }
    assert(encode_utf8(chars) =~= t);
}

} // verus!
