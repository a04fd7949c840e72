use shell::{
    cluster_to_raw, disk_to_clusters, execute, format_disk, list_files, nibble, raw_to_cluster,
    render_disk, Args, Cluster, Config, DiskError, ShellAction, NO_CLUSTER,
};

const LEGEND_TENS: &str = "XX:                1               2               3";
const LEGEND_UNITS: &str = "XX:0123456789ABCDEF0123456789ABCDEF0123456789ABCDEF0123456789ABCDEF";

const ROOT_ROW: &str = "0050A01464C494E5453544F4E450000000000000000000000000000000000000";
const LOG_ROW: &str = "3FF024C4F472E5458540048454C4C4F000000000000000000000000000000000";
const EMPTY_ROW: &str = "1070000000000000000000000000000000000000000000000000000000000000";

fn disk(rows: &[&str]) -> String {
    let mut text = format!("{}\n{}\n", LEGEND_TENS, LEGEND_UNITS);
    for (i, r) in rows.iter().enumerate() {
        text.push_str(&format!("{:02X}:{}\n", i, r));
    }
    text
}

fn s(text: &str) -> String {
    String::from(text)
}

fn record(bytes: &[u8]) -> Vec<u8> {
    let mut r = bytes.to_vec();
    r.resize(32, 0);
    r
}

#[test]
fn root_row_decodes_and_renders_back() {
    let text = disk(&[ROOT_ROW]);
    let clusters = disk_to_clusters(&text).unwrap();
    assert_eq!(
        clusters,
        vec![Cluster::Root { name: s("FLINTSTONE"), empty: 5, damaged: 10, headers: 1 }]
    );
    let rendered = render_disk(&clusters);
    assert_eq!(rendered, text);
    let mut other_filler = String::from(&ROOT_ROW[..63]);
    other_filler.push('F');
    assert_eq!(disk_to_clusters(&disk(&[other_filler.as_str()])).unwrap(), clusters);
}

#[test]
fn file_header_row_decodes_and_is_listed() {
    let text = disk(&[LOG_ROW, EMPTY_ROW, EMPTY_ROW]);
    let clusters = disk_to_clusters(&text).unwrap();
    assert_eq!(
        clusters[0],
        Cluster::FileHeader {
            name: s("LOG.TXT"),
            content: s("HELLO"),
            next_header: NO_CLUSTER,
            next_data: 2,
        }
    );
    assert_eq!(clusters[1], Cluster::Empty { next_empty: 7 });
    assert_eq!(list_files(&clusters), vec![s("LOG.TXT")]);
    let out = execute(&ShellAction::Dir, &text).unwrap();
    assert_eq!(out, "LOG.TXT\n");
}

#[test]
fn tag_nibble_five_is_invalid_cluster_type() {
    let mut row = String::from("5");
    row.push_str(&ROOT_ROW[1..]);
    assert_eq!(disk_to_clusters(&disk(&[row.as_str()])), Err(DiskError::InvalidClusterType));
    let mut other = String::from("5");
    other.push_str(&LOG_ROW[1..]);
    assert_eq!(disk_to_clusters(&disk(&[other.as_str()])), Err(DiskError::InvalidClusterType));
    assert_eq!(DiskError::InvalidClusterType.message(), "invalid cluster type");
    assert_eq!(raw_to_cluster(&record(&[5, 1, 2, 3])), Err(DiskError::InvalidClusterType));
}

#[test]
fn decode_succeeds_exactly_for_tags_zero_to_four() {
    for tag in 0u8..=255 {
        let r = raw_to_cluster(&record(&[tag, 9]));
        assert_eq!(r.is_ok(), tag <= 4, "tag {}", tag);
    }
}

#[test]
fn each_kind_decodes_from_its_record() {
    assert_eq!(
        raw_to_cluster(&record(&[0, 1, 2, 3, b'V', b'O', b'L'])),
        Ok(Cluster::Root { name: s("VOL"), empty: 1, damaged: 2, headers: 3 })
    );
    assert_eq!(raw_to_cluster(&record(&[1, 4])), Ok(Cluster::Empty { next_empty: 4 }));
    assert_eq!(raw_to_cluster(&record(&[2, 6])), Ok(Cluster::Damaged { next_damaged: 6 }));
    assert_eq!(
        raw_to_cluster(&record(&[3, 8, 9, b'A', 0, b'B', b'C'])),
        Ok(Cluster::FileHeader { name: s("A"), content: s("BC"), next_header: 8, next_data: 9 })
    );
    assert_eq!(
        raw_to_cluster(&record(&[4, 255, b'x', b'y', 0, b'z'])),
        Ok(Cluster::FileData { content: s("xy"), next_data: 255 })
    );
}

#[test]
fn field_without_terminator_fills_the_record() {
    let mut raw = vec![4u8, 1];
    raw.extend(std::iter::repeat(b'Q').take(30));
    match raw_to_cluster(&raw).unwrap() {
        Cluster::FileData { content, .. } => assert_eq!(content.len(), 30),
        other => panic!("unexpected {:?}", other),
    }
    let mut raw = vec![3u8, 1, 2];
    raw.extend(std::iter::repeat(b'N').take(29));
    match raw_to_cluster(&raw).unwrap() {
        Cluster::FileHeader { name, content, .. } => {
            assert_eq!(name.len(), 29);
            assert_eq!(content, "");
        },
        other => panic!("unexpected {:?}", other),
    }
    let mut raw = vec![0u8, 1, 2, 3];
    raw.extend(std::iter::repeat(b'R').take(28));
    match raw_to_cluster(&raw).unwrap() {
        Cluster::Root { name, .. } => assert_eq!(name.len(), 28),
        other => panic!("unexpected {:?}", other),
    }
}

#[test]
fn field_stops_at_first_zero() {
    let raw = record(&[4, 1, b'a', b'b', 0, b'c', b'd']);
    assert_eq!(raw_to_cluster(&raw), Ok(Cluster::FileData { content: s("ab"), next_data: 1 }));
    let raw = record(&[0, 1, 2, 3, 0, b'c']);
    assert_eq!(
        raw_to_cluster(&raw),
        Ok(Cluster::Root { name: s(""), empty: 1, damaged: 2, headers: 3 })
    );
}

fn sample_clusters() -> Vec<Cluster> {
    vec![
        Cluster::Root { name: s("FLINTSTONE"), empty: 2, damaged: 3, headers: 1 },
        Cluster::FileHeader { name: s("A.TXT"), content: s("hi"), next_header: 5, next_data: 4 },
        Cluster::Empty { next_empty: NO_CLUSTER },
        Cluster::Damaged { next_damaged: NO_CLUSTER },
        Cluster::FileData { content: s("more text"), next_data: NO_CLUSTER },
        Cluster::FileHeader { name: s("B"), content: s(""), next_header: NO_CLUSTER, next_data: 0 },
        Cluster::FileHeader {
            name: s("ABCDEFGHIJKLMNOPQRSTUVWXYZ01"),
            content: s(""),
            next_header: 0,
            next_data: 0,
        },
        Cluster::FileHeader {
            name: s("ABCDEFGHIJKLMNOPQRSTUVWXYZ012"),
            content: s(""),
            next_header: 0,
            next_data: 0,
        },
        Cluster::FileData { content: s("\u{e9}\u{ff}"), next_data: 1 },
    ]
}

#[test]
fn encode_then_decode_gives_cluster_back() {
    for c in sample_clusters() {
        let raw = cluster_to_raw(&c);
        assert_eq!(raw.len(), 32);
        assert_eq!(raw_to_cluster(&raw), Ok(c.clone()));
    }
}

#[test]
fn encode_file_header_layout() {
    let c = Cluster::FileHeader { name: s("AB"), content: s("C"), next_header: 7, next_data: 8 };
    assert_eq!(cluster_to_raw(&c), record(&[3, 7, 8, b'A', b'B', 0, b'C']));
    let c = Cluster::FileData { content: s("\u{e9}"), next_data: 1 };
    assert_eq!(cluster_to_raw(&c), record(&[4, 1, 0xE9]));
}

#[test]
fn render_then_decode_gives_clusters_back() {
    let clusters = sample_clusters();
    let text = render_disk(&clusters);
    assert_eq!(disk_to_clusters(&text).unwrap(), clusters);
    assert_eq!(render_disk(&[]), format!("{}\n{}\n", LEGEND_TENS, LEGEND_UNITS));
}

#[test]
fn render_writes_hex_rows() {
    let clusters = vec![
        Cluster::Root { name: s("FLINTSTONE"), empty: 5, damaged: 10, headers: 1 },
        Cluster::FileHeader { name: s("LOG.TXT"), content: s("HELLO"), next_header: 255, next_data: 2 },
        Cluster::Empty { next_empty: 7 },
    ];
    assert_eq!(render_disk(&clusters), disk(&[ROOT_ROW, LOG_ROW, EMPTY_ROW]));
}

#[test]
fn render_labels_wrap_after_ff() {
    let clusters: Vec<Cluster> = (0..257).map(|_| Cluster::Empty { next_empty: 1 }).collect();
    let text = render_disk(&clusters);
    let lines: Vec<&str> = text.lines().collect();
    assert_eq!(lines.len(), 259);
    assert!(lines[2 + 255].starts_with("FF:"));
    assert!(lines[2 + 256].starts_with("00:"));
    assert_eq!(disk_to_clusters(&text).unwrap(), clusters);
}

#[test]
fn listing_keeps_row_order_and_skips_other_kinds() {
    let clusters = sample_clusters();
    assert_eq!(
        list_files(&clusters),
        vec![s("A.TXT"), s("B"), s("ABCDEFGHIJKLMNOPQRSTUVWXYZ01"), s("ABCDEFGHIJKLMNOPQRSTUVWXYZ012")]
    );
    assert!(list_files(&[Cluster::Empty { next_empty: 0 }]).is_empty());
}

#[test]
fn malformed_rows_fail() {
    assert_eq!(disk_to_clusters(&disk(&[&ROOT_ROW[..63]])), Err(DiskError::MalformedLine));
    let mut long = String::from(ROOT_ROW);
    long.push('0');
    assert_eq!(disk_to_clusters(&disk(&[long.as_str()])), Err(DiskError::MalformedLine));
    let mut bad = String::from(ROOT_ROW);
    bad.replace_range(10..11, "G");
    assert_eq!(disk_to_clusters(&disk(&[bad.as_str()])), Err(DiskError::MalformedLine));
    let mut invalid = String::from("7");
    invalid.push_str(&EMPTY_ROW[1..]);
    assert_eq!(
        disk_to_clusters(&disk(&[invalid.as_str(), &ROOT_ROW[..10]])),
        Err(DiskError::MalformedLine)
    );
    assert_eq!(disk_to_clusters(&disk(&[EMPTY_ROW, ""])), Err(DiskError::MalformedLine));
    assert_eq!(DiskError::MalformedLine.message(), "malformed cluster line");
}

#[test]
fn legend_only_and_line_endings() {
    assert_eq!(disk_to_clusters("").unwrap(), vec![]);
    assert_eq!(disk_to_clusters("anything\nat all").unwrap(), vec![]);
    let crlf = disk(&[EMPTY_ROW]).replace('\n', "\r\n");
    assert_eq!(disk_to_clusters(&crlf).unwrap(), vec![Cluster::Empty { next_empty: 7 }]);
    let mut no_final_newline = disk(&[EMPTY_ROW]);
    no_final_newline.pop();
    assert_eq!(disk_to_clusters(&no_final_newline).unwrap(), vec![Cluster::Empty { next_empty: 7 }]);
}

#[test]
fn lowercase_digits_decode() {
    let text = disk(&[LOG_ROW.to_lowercase().as_str()]);
    assert_eq!(list_files(&disk_to_clusters(&text).unwrap()), vec![s("LOG.TXT")]);
}

#[test]
fn format_disk_pairs_digits_after_a_leading_zero() {
    let mut row = String::from("2");
    row.push_str(&"AB".repeat(31));
    row.push('C');
    let records = format_disk(&disk(&[row.as_str()])).unwrap();
    let mut expected = vec![2u8];
    expected.extend(std::iter::repeat(0xABu8).take(31));
    assert_eq!(records, vec![expected]);
}

#[test]
fn nibble_values() {
    assert_eq!(nibble(b'0'), Some(0));
    assert_eq!(nibble(b'9'), Some(9));
    assert_eq!(nibble(b'A'), Some(10));
    assert_eq!(nibble(b'f'), Some(15));
    assert_eq!(nibble(b'g'), None);
    assert_eq!(nibble(b':'), None);
}

#[test]
fn build_chooses_input_and_action() {
    let c = Config::build(Args { input_file: s(""), dir: false, type_: s("") });
    assert_eq!(c.input_path, None);
    assert!(matches!(c.action, ShellAction::Disk));
    let c = Config::build(Args { input_file: s("disk.txt"), dir: true, type_: s("A") });
    assert_eq!(c.input_path, Some(s("disk.txt")));
    assert!(matches!(c.action, ShellAction::Dir));
    let c = Config::build(Args { input_file: s(""), dir: false, type_: s("A.TXT") });
    assert!(matches!(c.action, ShellAction::Type(ref n) if n == "A.TXT"));
}

#[test]
fn execute_performs_each_action() {
    let text = disk(&[ROOT_ROW, LOG_ROW, EMPTY_ROW]);
    assert_eq!(execute(&ShellAction::Disk, &text).unwrap(), text);
    assert_eq!(execute(&ShellAction::Type(s("LOG.TXT")), &text).unwrap(), "type: LOG.TXT\n");
    assert_eq!(execute(&ShellAction::Dir, &text).unwrap(), "LOG.TXT\n");
    assert_eq!(execute(&ShellAction::Dir, &disk(&[&ROOT_ROW[..5]])), Err(DiskError::MalformedLine));
}

#[test]
fn listing_scans_rows_not_the_header_chain() {
    // The root's header chain starts at cluster 2 and ends there, yet the
    // listing still reports the header in cluster 1, in row order.
    let clusters = vec![
        Cluster::Root { name: s("VOL"), empty: NO_CLUSTER, damaged: NO_CLUSTER, headers: 2 },
        Cluster::FileHeader { name: s("FIRST"), content: s(""), next_header: NO_CLUSTER, next_data: 0 },
        Cluster::FileHeader { name: s("SECOND"), content: s(""), next_header: NO_CLUSTER, next_data: 0 },
    ];
    assert_eq!(list_files(&clusters), vec![s("FIRST"), s("SECOND")]);
}
