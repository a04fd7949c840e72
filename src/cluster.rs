use vstd::prelude::*;

use crate::error::DiskError;
use crate::strings::{
    bytes_of, is_field_text, lemma_char_byte, lemma_text_of_bytes_of, push_field, text_of,
};

verus! {

/// Bytes in one cluster record.
pub const RECORD_LEN: usize = 32;

/// The link value that ends a chain: no cluster follows.
///
/// Every link is one byte wide, so a disk addresses at most 256 clusters and
/// this value doubles as the address of the last one; the codec itself
/// carries every link value through unchanged.
pub const NO_CLUSTER: usize = 0xFF;

/// One disk cluster. Its position in the disk's sequence is its address, and
/// every link field holds such an address.
#[derive(Debug, Clone, PartialEq, Eq)]
pub enum Cluster {
    /// The volume label and the heads of the free, damaged and file-header chains.
    Root { name: String, empty: usize, damaged: usize, headers: usize },
    /// A free cluster, linked into the free chain.
    Empty { next_empty: usize },
    /// A damaged cluster, linked into the damaged chain.
    Damaged { next_damaged: usize },
    /// A directory entry: the file's name, its first block of content, the
    /// next directory entry and the file's first data cluster.
    FileHeader { name: String, content: String, next_header: usize, next_data: usize },
    /// A block of file content and the next data cluster of the file.
    FileData { content: String, next_data: usize },
}

/// A cluster with its text fields seen as character sequences.
pub enum ClusterView {
    Root { name: Seq<char>, empty: usize, damaged: usize, headers: usize },
    Empty { next_empty: usize },
    Damaged { next_damaged: usize },
    FileHeader { name: Seq<char>, content: Seq<char>, next_header: usize, next_data: usize },
    FileData { content: Seq<char>, next_data: usize },
}

impl View for Cluster {
    type V = ClusterView;

    open spec fn view(&self) -> ClusterView {
        match self {
            Cluster::Root { name, empty, damaged, headers } => ClusterView::Root {
                name: name@,
                empty: *empty,
                damaged: *damaged,
                headers: *headers,
            },
            Cluster::Empty { next_empty } => ClusterView::Empty { next_empty: *next_empty },
            Cluster::Damaged { next_damaged } => ClusterView::Damaged { next_damaged: *next_damaged },
            Cluster::FileHeader { name, content, next_header, next_data } => ClusterView::FileHeader {
                name: name@,
                content: content@,
                next_header: *next_header,
                next_data: *next_data,
            },
            Cluster::FileData { content, next_data } => ClusterView::FileData {
                content: content@,
                next_data: *next_data,
            },
        }
    }
}

/// A link fits in the single byte that a record gives it.
pub open spec fn is_link(v: usize) -> bool {
    v < 256
}

impl ClusterView {
    /// The cluster fits in one record: links are bytes, text fields hold
    /// nonzero bytes only and fit in the space their kind leaves them.
    pub open spec fn wf(self) -> bool {
        match self {
            ClusterView::Root { name, empty, damaged, headers } => {
                &&& is_link(empty) && is_link(damaged) && is_link(headers)
                &&& is_field_text(name) && name.len() <= 28
            },
            ClusterView::Empty { next_empty } => is_link(next_empty),
            ClusterView::Damaged { next_damaged } => is_link(next_damaged),
            ClusterView::FileHeader { name, content, next_header, next_data } => {
                &&& is_link(next_header) && is_link(next_data)
                &&& is_field_text(name) && is_field_text(content)
                &&& (name.len() + content.len() <= 28 || (name.len() == 29 && content.len() == 0))
            },
            ClusterView::FileData { content, next_data } => {
                &&& is_link(next_data)
                &&& is_field_text(content) && content.len() <= 30
            },
        }
    }
}

/// The first position at or after `i` that holds `stop`, or the end of `s`.
pub open spec fn find_from(s: Seq<u8>, i: int, stop: u8) -> int
    decreases s.len() - i,
{
    if 0 <= i < s.len() && s[i] != stop {
        find_from(s, i + 1, stop)
    } else {
        i
    }
}

/// Where `find_from` stops, and that it passes over no `stop`.
pub proof fn lemma_find_from_bounds(s: Seq<u8>, i: int, stop: u8)
    requires
        0 <= i,
    ensures
        i <= find_from(s, i, stop),
        i <= s.len() ==> find_from(s, i, stop) <= s.len(),
        0 <= find_from(s, i, stop) < s.len() ==> s[find_from(s, i, stop)] == stop,
        forall|k: int| i <= k < find_from(s, i, stop) ==> s[k] != stop,
    decreases s.len() - i,
{
    if 0 <= i < s.len() && s[i] != stop {
        lemma_find_from_bounds(s, i + 1, stop);
    }
}

/// A field read from a record is text of nonzero bytes that ends inside it.
pub proof fn lemma_field_text(r: Seq<u8>, start: int)
    requires
        0 <= start <= r.len(),
    ensures
        start <= find_from(r, start, 0) <= r.len(),
        find_from(r, start, 0) < r.len() ==> r[find_from(r, start, 0)] == 0,
        is_field_text(text_of(field(r, start))),
        text_of(field(r, start)).len() == find_from(r, start, 0) - start,
{
    lemma_find_from_bounds(r, start, 0);
    let f = field(r, start);
    assert forall|k: int| 0 <= k < f.len() implies 0 < (#[trigger] text_of(f)[k] as u32) && (
    text_of(f)[k] as u32) < 256 by {
        assert(f[k] == r[start + k]);
        lemma_char_byte(f[k]);
    }
}

/// The text field that starts at `start`: it runs up to the first zero byte,
/// or to the end of the record where there is none.
pub open spec fn field(r: Seq<u8>, start: int) -> Seq<u8> {
    r.subrange(start, find_from(r, start, 0))
}

/// The cluster that a record holds, by the kind in its tag byte.
pub open spec fn decode_record(r: Seq<u8>) -> Result<ClusterView, DiskError> {
    if r[0] == 0 {
        Ok(ClusterView::Root {
            name: text_of(field(r, 4)),
            empty: r[1] as usize,
            damaged: r[2] as usize,
            headers: r[3] as usize,
        })
    } else if r[0] == 1 {
        Ok(ClusterView::Empty { next_empty: r[1] as usize })
    } else if r[0] == 2 {
        Ok(ClusterView::Damaged { next_damaged: r[1] as usize })
    } else if r[0] == 3 {
        let end = find_from(r, 3, 0);
        Ok(ClusterView::FileHeader {
            name: text_of(r.subrange(3, end)),
            content: if end < r.len() {
                text_of(field(r, end + 1))
            } else {
                Seq::empty()
            },
            next_header: r[1] as usize,
            next_data: r[2] as usize,
        })
    } else if r[0] == 4 {
        Ok(ClusterView::FileData { content: text_of(field(r, 2)), next_data: r[1] as usize })
    } else {
        Err(DiskError::InvalidClusterType)
    }
}

pub open spec fn cluster_result_view(r: Result<Cluster, DiskError>) -> Result<ClusterView, DiskError> {
    match r {
        Ok(c) => Ok(c@),
        Err(e) => Err(e),
    }
}

/// Reads the text field that starts at `start`; returns it with the position
/// where it ended.
fn read_field(raw: &[u8], start: usize) -> (r: (String, usize))
    requires
        start <= raw@.len(),
    ensures
        r.1 == find_from(raw@, start as int, 0),
        r.0@ == text_of(field(raw@, start as int)),
        r.1 <= raw@.len(),
{
    let mut text = String::new();
    let mut i: usize = start;
    while i < raw.len() && raw[i] != 0
        invariant
            start <= i <= raw@.len(),
            find_from(raw@, start as int, 0) == find_from(raw@, i as int, 0),
            text@ == text_of(raw@.subrange(start as int, i as int)),
        decreases raw@.len() - i,
    {
        let b = raw[i];
        text.push(b as char);
        assert(text_of(raw@.subrange(start as int, i + 1)) =~= text_of(
            raw@.subrange(start as int, i as int),
        ).push(b as char));
        i = i + 1;
    }
    (text, i)
}

/// Decodes one record into the cluster it holds.
pub fn raw_to_cluster(raw: &[u8]) -> (r: Result<Cluster, DiskError>)
    requires
        raw@.len() == RECORD_LEN,
    ensures
        cluster_result_view(r) == decode_record(raw@),
        r is Ok <==> raw@[0] <= 4,
{
    let cluster_type = raw[0];
    if cluster_type == 0 {
        let (name, _) = read_field(raw, 4);
        Ok(Cluster::Root {
            name,
            empty: raw[1] as usize,
            damaged: raw[2] as usize,
            headers: raw[3] as usize,
        })
    } else if cluster_type == 1 {
        Ok(Cluster::Empty { next_empty: raw[1] as usize })
    } else if cluster_type == 2 {
        Ok(Cluster::Damaged { next_damaged: raw[1] as usize })
    } else if cluster_type == 3 {
        let (name, end) = read_field(raw, 3);
        let content = if end < raw.len() {
            read_field(raw, end + 1).0
        } else {
            String::new()
        };
        Ok(Cluster::FileHeader {
            name,
            content,
            next_header: raw[1] as usize,
            next_data: raw[2] as usize,
        })
    } else if cluster_type == 4 {
        let (content, _) = read_field(raw, 2);
        Ok(Cluster::FileData { content, next_data: raw[1] as usize })
    } else {
        Err(DiskError::InvalidClusterType)
    }
}

/// `n` zero bytes.
pub open spec fn zeros(n: int) -> Seq<u8> {
    Seq::new(n as nat, |i: int| 0u8)
}

/// The record that holds a cluster: the tag byte, the links, then the text
/// fields, with zero bytes filling the rest. A file header's name and
/// content are parted by one zero byte, unless the name takes all the room.
pub open spec fn encode_record(c: ClusterView) -> Seq<u8> {
    match c {
        ClusterView::Root { name, empty, damaged, headers } => seq![0u8, empty as u8, damaged as u8, headers as u8]
            + bytes_of(name) + zeros(28 - name.len()),
        ClusterView::Empty { next_empty } => seq![1u8, next_empty as u8] + zeros(30),
        ClusterView::Damaged { next_damaged } => seq![2u8, next_damaged as u8] + zeros(30),
        ClusterView::FileHeader { name, content, next_header, next_data } => seq![3u8, next_header as u8, next_data as u8]
            + bytes_of(name) + if name.len() < 29 {
            seq![0u8] + bytes_of(content) + zeros(28 - name.len() - content.len())
        } else {
            Seq::empty()
        },
        ClusterView::FileData { content, next_data } => seq![4u8, next_data as u8] + bytes_of(content)
            + zeros(30 - content.len()),
    }
}

fn push_zeros(out: &mut Vec<u8>, upto: usize)
    requires
        old(out)@.len() <= upto,
    ensures
        final(out)@ == old(out)@ + zeros(upto - old(out)@.len()),
{
    let ghost start = out@;
    while out.len() < upto
        invariant
            start.len() <= out@.len() <= upto,
            out@ == start + zeros(out@.len() - start.len()),
        decreases upto - out@.len(),
    {
        out.push(0);
        assert(start + zeros(out@.len() - start.len()) =~= out@);
    }
}

/// Encodes a cluster into the record that holds it.
pub fn cluster_to_raw(c: &Cluster) -> (r: Vec<u8>)
    requires
        c@.wf(),
    ensures
        r@ == encode_record(c@),
        r@.len() == RECORD_LEN,
{
    let mut out: Vec<u8> = Vec::new();
    match c {
        Cluster::Root { name, empty, damaged, headers } => {
            out.push(0);
            out.push(*empty as u8);
            out.push(*damaged as u8);
            out.push(*headers as u8);
            push_field(&mut out, name);
            push_zeros(&mut out, RECORD_LEN);
        },
        Cluster::Empty { next_empty } => {
            out.push(1);
            out.push(*next_empty as u8);
            push_zeros(&mut out, RECORD_LEN);
        },
        Cluster::Damaged { next_damaged } => {
            out.push(2);
            out.push(*next_damaged as u8);
            push_zeros(&mut out, RECORD_LEN);
        },
        Cluster::FileHeader { name, content, next_header, next_data } => {
            out.push(3);
            out.push(*next_header as u8);
            out.push(*next_data as u8);
            push_field(&mut out, name);
            if out.len() < RECORD_LEN {
                out.push(0);
                push_field(&mut out, content);
            }
            push_zeros(&mut out, RECORD_LEN);
        },
        Cluster::FileData { content, next_data } => {
            out.push(4);
            out.push(*next_data as u8);
            push_field(&mut out, content);
            push_zeros(&mut out, RECORD_LEN);
        },
    }
    assert(out@ =~= encode_record(c@));
    out
}

/// `find_from` stops at the first `stop` at or after `i`.
pub proof fn lemma_find_from(s: Seq<u8>, i: int, e: int, stop: u8)
    requires
        0 <= i <= e <= s.len(),
        forall|k: int| i <= k < e ==> s[k] != stop,
        e == s.len() || s[e] == stop,
    ensures
        find_from(s, i, stop) == e,
    decreases e - i,
{
    if i < e {
        lemma_find_from(s, i + 1, e, stop);
    }
}

/// A text field placed at `start` and followed by a zero byte or by the end
/// of the record reads back as itself.
proof fn lemma_field_reads_back(r: Seq<u8>, start: int, text: Seq<char>)
    requires
        is_field_text(text),
        0 <= start,
        start + text.len() <= r.len(),
        r.subrange(start, start + text.len()) == bytes_of(text),
        start + text.len() == r.len() || r[start + text.len()] == 0,
    ensures
        find_from(r, start, 0) == start + text.len(),
        text_of(field(r, start)) == text,
{
    lemma_text_of_bytes_of(text);
    assert forall|k: int| start <= k < start + text.len() implies r[k] != 0 by {
        assert(r[k] == r.subrange(start, start + text.len())[k - start]);
    }
    lemma_find_from(r, start, start + text.len(), 0);
}

/// Decoding the record that encodes a cluster gives the cluster back.
pub proof fn lemma_decode_encode(c: ClusterView)
    requires
        c.wf(),
    ensures
        encode_record(c).len() == RECORD_LEN,
        decode_record(encode_record(c)) == Ok::<ClusterView, DiskError>(c),
{
    let r = encode_record(c);
    match c {
        ClusterView::Root { name, empty, damaged, headers } => {
            assert(r.subrange(4, 4 + name.len() as int) =~= bytes_of(name));
            assert(r.len() == 32);
            assert(r[0] == 0 && r[1] == empty as u8 && r[2] == damaged as u8 && r[3] == headers as u8);
            lemma_field_reads_back(r, 4, name);
            assert(decode_record(r) == Ok::<ClusterView, DiskError>(c));
        },
        ClusterView::Empty { next_empty } => {
            assert(r[0] == 1 && r[1] == next_empty as u8);
        },
        ClusterView::Damaged { next_damaged } => {
            assert(r[0] == 2 && r[1] == next_damaged as u8);
        },
        ClusterView::FileHeader { name, content, next_header, next_data } => {
            assert(r.subrange(3, 3 + name.len() as int) =~= bytes_of(name));
            lemma_field_reads_back(r, 3, name);
            if name.len() < 29 {
                let s: int = 4 + name.len() as int;
                assert(r.subrange(s, s + content.len() as int) =~= bytes_of(content));
                lemma_field_reads_back(r, s, content);
            } else {
                assert(content =~= Seq::<char>::empty());
            }
            assert(r[0] == 3 && r[1] == next_header as u8 && r[2] == next_data as u8);
            assert(decode_record(r) == Ok::<ClusterView, DiskError>(c));
        },
        ClusterView::FileData { content, next_data } => {
            assert(r.subrange(2, 2 + content.len() as int) =~= bytes_of(content));
            lemma_field_reads_back(r, 2, content);
            assert(r[0] == 4 && r[1] == next_data as u8);
            assert(decode_record(r) == Ok::<ClusterView, DiskError>(c));
        },
    }
}

/// A record decodes exactly when its tag byte has a zero high nibble and a
/// low nibble from 0 to 4; every other tag byte is an invalid cluster type.
pub proof fn lemma_decode_total(r: Seq<u8>)
    requires
        r.len() == RECORD_LEN,
    ensures
        (decode_record(r) is Ok) <==> (r[0] / 16 == 0 && r[0] % 16 <= 4),
        !(r[0] / 16 == 0 && r[0] % 16 <= 4) ==> decode_record(r) == Err::<ClusterView, DiskError>(
            DiskError::InvalidClusterType,
        ),
{
}

/// A text field ends at the first zero byte at or after its start; where the
/// record holds none, the field runs to the end of the record.
pub proof fn lemma_field_stops_at_first_zero(r: Seq<u8>, start: int)
    requires
        0 <= start <= r.len(),
    ensures
        forall|k: int| 0 <= k < field(r, start).len() ==> #[trigger] field(r, start)[k] != 0,
        start + field(r, start).len() < r.len() ==> r[start + field(r, start).len()] == 0,
        (forall|k: int| start <= k < r.len() ==> #[trigger] r[k] != 0) ==> field(r, start).len()
            == r.len() - start,
{
    lemma_find_from_bounds(r, start, 0);
    let e = find_from(r, start, 0);
    assert forall|k: int| 0 <= k < field(r, start).len() implies #[trigger] field(r, start)[k] != 0 by {
        assert(field(r, start)[k] == r[start + k]);
    }
}

} // verus!
