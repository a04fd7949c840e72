use vstd::prelude::*;
use vstd::string::StringSliceAdditionalSpecFns;

use crate::cluster::{
    cluster_to_raw, decode_record, encode_record, find_from, lemma_field_text, raw_to_cluster,
    Cluster, ClusterView, RECORD_LEN,
};
use crate::error::DiskError;
use crate::strings::{lemma_text_of_add, push_byte, push_chars, text_of};
use crate::text::{
    disk_records, encode_upper_hex, format_disk, hex_digit, hex_digits, records_view,
};

verus! {

pub open spec fn clusters_view(cs: Seq<Cluster>) -> Seq<ClusterView> {
    cs.map_values(|c: Cluster| c@)
}

pub open spec fn strings_view(v: Seq<String>) -> Seq<Seq<char>> {
    v.map_values(|s: String| s@)
}

/// The clusters that the records hold, or the error of the first record whose
/// tag names no cluster kind.
pub open spec fn decode_records(rs: Seq<Seq<u8>>) -> Result<Seq<ClusterView>, DiskError>
    decreases rs.len(),
{
    if rs.len() == 0 {
        Ok(Seq::empty())
    } else {
        match decode_records(rs.drop_last()) {
            Ok(cs) => match decode_record(rs.last()) {
                Ok(c) => Ok(cs.push(c)),
                Err(e) => Err(e),
            },
            Err(e) => Err(e),
        }
    }
}

/// The clusters of a disk text. A malformed row anywhere fails the whole
/// text before any record is read as a cluster.
pub open spec fn decode_disk(t: Seq<u8>) -> Result<Seq<ClusterView>, DiskError> {
    match disk_records(t) {
        None => Err(DiskError::MalformedLine),
        Some(rs) => decode_records(rs),
    }
}

/// Once a prefix of the records fails, the whole sequence fails the same way.
proof fn lemma_decode_records_failed_prefix(rs: Seq<Seq<u8>>, k: int)
    requires
        0 <= k <= rs.len(),
        decode_records(rs.subrange(0, k)) is Err,
    ensures
        decode_records(rs) == decode_records(rs.subrange(0, k)),
    decreases rs.len() - k,
{
    if k < rs.len() {
        let shorter = rs.drop_last();
        assert(shorter.subrange(0, k) =~= rs.subrange(0, k));
        lemma_decode_records_failed_prefix(shorter, k);
    } else {
        assert(rs.subrange(0, k) =~= rs);
    }
}

/// Decodes a disk text into its clusters, in the order of their rows.
pub fn disk_to_clusters(disk: &str) -> (r: Result<Vec<Cluster>, DiskError>)
    ensures
        match r {
            Ok(cs) => decode_disk(disk.spec_bytes()) == Ok::<Seq<ClusterView>, DiskError>(
                clusters_view(cs@),
            ),
            Err(e) => decode_disk(disk.spec_bytes()) == Err::<Seq<ClusterView>, DiskError>(e),
        },
{
    let records = match format_disk(disk) {
        Ok(rs) => rs,
        Err(e) => return Err(e),
    };
    let ghost rs = records_view(records@);
    let mut out: Vec<Cluster> = Vec::new();
    let mut i: usize = 0;
    assert(rs.subrange(0, 0) =~= Seq::<Seq<u8>>::empty());
    assert(clusters_view(out@) =~= Seq::<ClusterView>::empty());
    while i < records.len()
        invariant
            disk_records(disk.spec_bytes()) == Some(rs),
            rs == records_view(records@),
            i <= records@.len(),
            decode_records(rs.subrange(0, i as int)) == Ok::<Seq<ClusterView>, DiskError>(
                clusters_view(out@),
            ),
        decreases records@.len() - i,
    {
        assert(rs.subrange(0, i + 1).drop_last() =~= rs.subrange(0, i as int));
        let raw = &records[i];
        assert(raw@ == rs[i as int]);
        assert(raw@.len() == RECORD_LEN);
        let c = match raw_to_cluster(raw.as_slice()) {
            Ok(c) => c,
            Err(e) => {
                assert(decode_records(rs.subrange(0, i + 1)) == Err::<Seq<ClusterView>, DiskError>(e));
                proof {
                    lemma_decode_records_failed_prefix(rs, i + 1);
                }
                return Err(e);
            },
        };
        let ghost prev = out@;
        out.push(c);
        assert(clusters_view(out@) =~= clusters_view(prev).push(c@));
        i = i + 1;
    }
    assert(rs.subrange(0, i as int) =~= rs);
    Ok(out)
}

/// The names of the file-header clusters, in the order of the sequence;
/// every other cluster is passed over.
pub open spec fn file_names(cs: Seq<ClusterView>) -> Seq<Seq<char>>
    decreases cs.len(),
{
    if cs.len() == 0 {
        Seq::empty()
    } else {
        let rest = file_names(cs.drop_last());
        match cs.last() {
            ClusterView::FileHeader { name, .. } => rest.push(name),
            _ => rest,
        }
    }
}

/// The names of the files on a disk: one for each file-header cluster, in
/// the order of the clusters. This is a scan of the whole sequence; it does
/// not follow the root's chain of file headers.
pub fn list_files(clusters: &[Cluster]) -> (r: Vec<String>)
    ensures
        strings_view(r@) == file_names(clusters_view(clusters@)),
{
    let mut names: Vec<String> = Vec::new();
    let mut i: usize = 0;
    while i < clusters.len()
        invariant
            i <= clusters@.len(),
            strings_view(names@) == file_names(clusters_view(clusters@.subrange(0, i as int))),
        decreases clusters@.len() - i,
    {
        assert(clusters_view(clusters@.subrange(0, i + 1)).drop_last() =~= clusters_view(
            clusters@.subrange(0, i as int),
        ));
        match &clusters[i] {
            Cluster::FileHeader { name, .. } => {
                let ghost prev = names@;
                names.push(name.clone());
                assert(strings_view(names@) =~= strings_view(prev).push(name@));
            },
            _ => {},
        }
        i = i + 1;
    }
    assert(clusters@.subrange(0, i as int) =~= clusters@);
    names
}

/// The first legend line: the tens digit of every sixteenth column.
pub open spec fn ruler_tens() -> Seq<u8> {
    seq![88u8, 88u8, 58u8] + Seq::new(
        49,
        |j: int|
            if j % 16 == 0 && j > 0 {
                hex_digit((j / 16) as u8)
            } else {
                32u8
            },
    )
}

/// The second legend line: the units digit of every column.
pub open spec fn ruler_units() -> Seq<u8> {
    seq![88u8, 88u8, 58u8] + Seq::new(64, |j: int| hex_digit((j % 16) as u8))
}

/// The row of a cluster at position `i`: its label (the position's low byte
/// in two hex digits, and a colon), the record's digits from the tag digit
/// on, and one filler digit.
pub open spec fn row_bytes(i: int, c: ClusterView) -> Seq<u8> {
    hex_digits(seq![(i % 256) as u8]) + seq![58u8] + hex_digits(encode_record(c)).subrange(1, 64)
        + seq![48u8, 10u8]
}

pub open spec fn rows_bytes(cs: Seq<ClusterView>) -> Seq<u8>
    decreases cs.len(),
{
    if cs.len() == 0 {
        Seq::empty()
    } else {
        rows_bytes(cs.drop_last()) + row_bytes(cs.len() - 1, cs.last())
    }
}

/// The two legend lines, each ended by a newline.
pub open spec fn legend_bytes() -> Seq<u8> {
    ruler_tens() + seq![10u8] + ruler_units() + seq![10u8]
}

/// The disk text of a sequence of clusters: the legend, then one row per
/// cluster.
pub open spec fn render_bytes(cs: Seq<ClusterView>) -> Seq<u8> {
    legend_bytes() + rows_bytes(cs)
}

pub open spec fn all_wf(cs: Seq<ClusterView>) -> bool {
    forall|i: int| 0 <= i < cs.len() ==> (#[trigger] cs[i]).wf()
}

fn push_legend(out: &mut String)
    requires
        old(out)@.len() == 0,
    ensures
        final(out)@ == text_of(legend_bytes()),
{
    let ghost acc: Seq<u8> = Seq::empty();
    push_byte(out, 88);
    push_byte(out, 88);
    push_byte(out, 58);
    proof {
        acc = seq![88u8, 88u8, 58u8];
        assert(out@ =~= text_of(acc));
    }
    let mut j: usize = 0;
    while j < 49
        invariant
            j <= 49,
            out@ == text_of(acc + ruler_tens().subrange(3, 3 + j)),
            acc == seq![88u8, 88u8, 58u8],
        decreases 49 - j,
    {
        let b: u8 = if j % 16 == 0 && j > 0 {
            if j / 16 < 10 {
                48 + (j / 16) as u8
            } else {
                55 + (j / 16) as u8
            }
        } else {
            32
        };
        push_byte(out, b);
        proof {
            lemma_text_of_add(acc + ruler_tens().subrange(3, 3 + j), seq![b]);
            assert(acc + ruler_tens().subrange(3, 3 + j + 1) =~= acc + ruler_tens().subrange(3, 3 + j)
                + seq![b]);
        }
        j = j + 1;
    }
    push_byte(out, 10);
    push_byte(out, 88);
    push_byte(out, 88);
    push_byte(out, 58);
    proof {
        assert(acc + ruler_tens().subrange(3, 52) =~= ruler_tens());
        assert(out@ =~= text_of(ruler_tens()) + text_of(seq![10u8, 88u8, 88u8, 58u8]));
        acc = ruler_tens() + seq![10u8, 88u8, 88u8, 58u8];
        assert(out@ =~= text_of(acc)) by {
            lemma_text_of_add(ruler_tens(), seq![10u8, 88u8, 88u8, 58u8]);
        }
    }
    let mut j: usize = 0;
    while j < 64
        invariant
            j <= 64,
            out@ == text_of(acc + ruler_units().subrange(3, 3 + j)),
            acc == ruler_tens() + seq![10u8, 88u8, 88u8, 58u8],
        decreases 64 - j,
    {
        let v = j % 16;
        let b: u8 = if v < 10 {
            48 + v as u8
        } else {
            55 + v as u8
        };
        push_byte(out, b);
        proof {
            lemma_text_of_add(acc + ruler_units().subrange(3, 3 + j), seq![b]);
            assert(acc + ruler_units().subrange(3, 3 + j + 1) =~= acc + ruler_units().subrange(3, 3 + j)
                + seq![b]);
        }
        j = j + 1;
    }
    push_byte(out, 10);
    proof {
        assert(acc + ruler_units().subrange(3, 67) + seq![10u8] =~= legend_bytes());
        lemma_text_of_add(acc + ruler_units().subrange(3, 67), seq![10u8]);
    }
}

/// Renders clusters as a disk text: the two legend lines, then for each
/// cluster its label and its record's sixty-four digits. Every line ends with
/// a newline.
pub fn render_disk(clusters: &[Cluster]) -> (r: String)
    requires
        all_wf(clusters_view(clusters@)),
    ensures
        r@ == text_of(render_bytes(clusters_view(clusters@))),
{
    let mut out = String::new();
    push_legend(&mut out);
    let ghost cs = clusters_view(clusters@);
    let mut i: usize = 0;
    while i < clusters.len()
        invariant
            cs == clusters_view(clusters@),
            all_wf(cs),
            i <= clusters@.len(),
            out@ == text_of(render_bytes(cs.subrange(0, i as int))),
        decreases clusters@.len() - i,
    {
        let ghost before = out@;
        let label_byte: Vec<u8> = vec![(i % 256) as u8];
        let label = encode_upper_hex(label_byte.as_slice());
        push_chars(&mut out, &label, 0);
        push_byte(&mut out, 58);
        assert(cs[i as int].wf());
        let raw = cluster_to_raw(&clusters[i]);
        let digits = encode_upper_hex(raw.as_slice());
        push_chars(&mut out, &digits, 1);
        push_byte(&mut out, 48);
        push_byte(&mut out, 10);
        proof {
            let row = row_bytes(i as int, cs[i as int]);
            assert(label_byte@ =~= seq![(i % 256) as u8]);
            assert(label@.subrange(0, label@.len() as int) =~= label@);
            assert(digits@.subrange(1, digits@.len() as int) =~= text_of(hex_digits(encode_record(cs[i as int])).subrange(1, 64)));
            lemma_text_of_add(hex_digits(seq![(i % 256) as u8]), seq![58u8]);
            lemma_text_of_add(hex_digits(seq![(i % 256) as u8]) + seq![58u8], hex_digits(encode_record(cs[i as int])).subrange(1, 64));
            lemma_text_of_add(hex_digits(seq![(i % 256) as u8]) + seq![58u8] + hex_digits(encode_record(cs[i as int])).subrange(1, 64), seq![48u8]);
            lemma_text_of_add(hex_digits(seq![(i % 256) as u8]) + seq![58u8] + hex_digits(encode_record(cs[i as int])).subrange(1, 64) + seq![48u8], seq![10u8]);
            assert(seq![48u8] + seq![10u8] =~= seq![48u8, 10u8]);
            assert(hex_digits(seq![(i % 256) as u8]) + seq![58u8] + hex_digits(encode_record(cs[i as int])).subrange(1, 64) + seq![48u8] + seq![10u8] =~= row);
            assert(out@ =~= before + text_of(row));
            assert(cs.subrange(0, i + 1).drop_last() =~= cs.subrange(0, i as int));
            lemma_text_of_add(render_bytes(cs.subrange(0, i as int)), row);
            assert(render_bytes(cs.subrange(0, i + 1)) =~= render_bytes(cs.subrange(0, i as int)) + row);
        }
        i = i + 1;
    }
    assert(cs.subrange(0, i as int) =~= cs);
    out
}

/// Every record decodes to a cluster that fits in a record again.
pub proof fn lemma_decoded_wf(r: Seq<u8>)
    requires
        r.len() == RECORD_LEN,
        decode_record(r) is Ok,
    ensures
        decode_record(r)->Ok_0.wf(),
{
    if r[0] == 0 {
        lemma_field_text(r, 4);
    } else if r[0] == 3 {
        lemma_field_text(r, 3);
        let e = find_from(r, 3, 0);
        if e < r.len() {
            lemma_field_text(r, e + 1);
        }
    } else if r[0] == 4 {
        lemma_field_text(r, 2);
    }
}

/// The clusters of a disk text that decodes all fit in records.
pub proof fn lemma_decoded_disk_wf(t: Seq<u8>)
    requires
        decode_disk(t) is Ok,
    ensures
        all_wf(decode_disk(t)->Ok_0),
{
    let rs = disk_records(t)->0;
    assert forall|i: int| 0 <= i < rs.len() implies (#[trigger] rs[i]).len() == RECORD_LEN by {}
    lemma_decoded_records_wf(rs);
}

proof fn lemma_decoded_records_wf(rs: Seq<Seq<u8>>)
    requires
        forall|i: int| 0 <= i < rs.len() ==> (#[trigger] rs[i]).len() == RECORD_LEN,
        decode_records(rs) is Ok,
    ensures
        all_wf(decode_records(rs)->Ok_0),
        decode_records(rs)->Ok_0.len() == rs.len(),
    decreases rs.len(),
{
    if rs.len() > 0 {
        let shorter = rs.drop_last();
        assert forall|i: int| 0 <= i < shorter.len() implies (#[trigger] shorter[i]).len() == RECORD_LEN by {
            assert(shorter[i] == rs[i]);
        }
        lemma_decoded_records_wf(shorter);
        lemma_decoded_wf(rs.last());
    }
}

} // verus!
