use smb_heat_spike::correlation::EmitRow;
use smb_heat_spike::emit::{document, Meta};
use smb_heat_spike::ingest::{classify, split_ndjson, Disposition};

fn meta<'a>(walked: &'a [String]) -> Meta<'a> {
    Meta {
        server: "sgi-backup",
        run_id: "0123abcd-0000-0000-0000-000000000000",
        dump_seq: 3,
        emitted_at: "2026-06-10T00:00:00+00:00",
        walked_shares: walked,
    }
}

fn leaf_row(path: &str, day: i32, reads: u32, writes: u32, alloc: u64) -> EmitRow {
    EmitRow {
        share: "heattest".into(),
        path: path.into(),
        day,
        reads,
        writes,
        alloc_bytes: Some(alloc),
        flags: vec![],
    }
}

fn lines(doc: &str) -> Vec<serde_json::Value> {
    doc.lines()
        .map(|l| serde_json::from_str(l).expect("each line is valid JSON"))
        .collect()
}

#[test]
fn backslash_in_path_is_json_escaped() {
    let rows = [leaf_row("folder1\\txtdoc1.txt", 20613, 2, 0, 4096)];
    let doc = document(&meta(&["heattest".into()]), &rows);
    assert!(doc.contains(r#""path":"folder1\\txtdoc1.txt""#));
    let parsed = lines(&doc);
    assert_eq!(parsed[1]["path"], "folder1\\txtdoc1.txt");
}

#[test]
fn header_walked_shares_are_sorted() {
    let walked = vec!["zeta".to_string(), "alpha".to_string(), "mike".to_string()];
    let doc = document(&meta(&walked), &[]);
    let parsed = lines(&doc);
    assert_eq!(parsed[0]["type"], "header");
    assert_eq!(parsed[0]["walked_shares"][0], "alpha");
    assert_eq!(parsed[0]["walked_shares"][1], "mike");
    assert_eq!(parsed[0]["walked_shares"][2], "zeta");
}

#[test]
fn empty_table_emits_header_and_zero_footer() {
    let doc = document(&meta(&["heattest".into()]), &[]);
    let parsed = lines(&doc);
    assert_eq!(parsed.len(), 2);
    assert_eq!(parsed[0]["type"], "header");
    assert_eq!(parsed[1]["type"], "footer");
    assert_eq!(parsed[1]["rows"], 0);
}

#[test]
fn footer_count_matches_row_lines() {
    let rows = [
        leaf_row("a.txt", 20613, 1, 0, 10),
        leaf_row("b.txt", 20613, 0, 1, 20),
        leaf_row("c.txt", 20614, 2, 2, 30),
    ];
    let doc = document(&meta(&["heattest".into()]), &rows);
    let parsed = lines(&doc);
    let row_lines = parsed.iter().filter(|v| v["type"] == "row").count();
    assert_eq!(row_lines, 3);
    let footer = parsed.last().unwrap();
    assert_eq!(footer["type"], "footer");
    assert_eq!(footer["rows"], row_lines);
}

#[test]
fn null_alloc_bytes_serializes_as_json_null_with_flag() {
    let restat = EmitRow {
        share: "heattest".into(),
        path: "missing.txt".into(),
        day: 20614,
        reads: 1,
        writes: 0,
        alloc_bytes: None,
        flags: vec!["restat"],
    };
    let doc = document(&meta(&["heattest".into()]), &[restat]);
    assert!(doc.contains(r#""alloc_bytes":null"#));
    let parsed = lines(&doc);
    assert!(parsed[1]["alloc_bytes"].is_null());
    assert_eq!(parsed[1]["flags"][0], "restat");
}

#[test]
fn header_tag_is_first_and_type_values_are_correct() {
    let doc = document(&meta(&["heattest".into()]), &[leaf_row("a.txt", 1, 1, 0, 8)]);
    for line in doc.lines() {
        assert!(line.starts_with(r#"{"type":"#), "tag must lead: {line}");
    }
    let parsed = lines(&doc);
    assert_eq!(parsed[0]["type"], "header");
    assert_eq!(parsed[1]["type"], "row");
    assert_eq!(parsed[2]["type"], "footer");
}

#[test]
fn document_exact_text() {
    let walked = vec!["b".to_string(), "a".to_string()];
    let mut row = leaf_row("dir\\\"q\"\t\u{1}.txt", -5, 4_294_967_295, 0, u64::MAX);
    row.flags = vec!["x", "y"];
    assert_eq!(
        document(&meta(&walked), &[row]),
        "{\"type\":\"header\",\"server\":\"sgi-backup\",\
         \"run_id\":\"0123abcd-0000-0000-0000-000000000000\",\"dump_seq\":3,\
         \"emitted_at\":\"2026-06-10T00:00:00+00:00\",\"walked_shares\":[\"a\",\"b\"]}\n\
         {\"type\":\"row\",\"share\":\"heattest\",\"path\":\"dir\\\\\\\"q\\\"\\t\\u0001.txt\",\"day\":-5,\
         \"reads\":4294967295,\"writes\":0,\"alloc_bytes\":18446744073709551615,\"flags\":[\"x\",\"y\"]}\n\
         {\"type\":\"footer\",\"rows\":1}\n"
    );
}

#[test]
fn written_documents_are_accepted() {
    let nasty = ["a\nb", "\"type\":\"footer\"", "\u{0}\u{1f}\u{7f}", "日本語\\x", "{}", "\r\n"];
    let rows: Vec<EmitRow> = nasty.iter().map(|p| leaf_row(p, 1, 1, 1, 1)).collect();
    let walked: Vec<String> = nasty.iter().map(|s| s.to_string()).collect();
    let doc = document(&meta(&walked), &rows);
    assert_eq!(split_ndjson(&doc).len(), rows.len() + 2);
    match classify(doc.as_bytes()) {
        Disposition::Accepted { header, rows: n } => {
            assert_eq!(header.server, "sgi-backup");
            assert_eq!(header.run_id, "0123abcd-0000-0000-0000-000000000000");
            assert_eq!(header.dump_seq, 3);
            assert_eq!(header.emitted_at.as_deref(), Some("2026-06-10T00:00:00+00:00"));
            assert_eq!(n, rows.len());
        }
        other => panic!("expected Accepted, got {other:?}"),
    }
    let parsed = lines(&doc);
    for (i, p) in nasty.iter().enumerate() {
        assert_eq!(parsed[i + 1]["path"], *p);
    }
}

#[test]
fn cut_documents_are_not_accepted() {
    let rows = [leaf_row("a}\"]\\ä\n.txt", 20613, 1, 0, 10), leaf_row("b.txt", -1, 0, 1, 20)];
    let mut m = meta(&[]);
    m.server = "sgifs01";
    let doc = document(&m, &rows).into_bytes();
    let accepted = |n: usize| matches!(classify(&doc[..n]), Disposition::Accepted { .. });
    for n in 0..doc.len() - 1 {
        assert!(!accepted(n), "cut after {n} bytes");
    }
    // Only the last line break may be missing.
    assert!(accepted(doc.len() - 1));
    assert!(accepted(doc.len()));
}
