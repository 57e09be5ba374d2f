use smb_heat_spike::correlation::EmitRow;
use smb_heat_spike::emit::{document, Meta};
use smb_heat_spike::rows::{read_row, read_rows};

const ROW: &str = r#"{"type":"row","share":"data","path":"a\\b.txt","day":-3,"reads":1,"writes":4294967295,"alloc_bytes":10,"flags":["restat","x\"y"]}"#;

fn emitted(path: &str, day: i32, alloc_bytes: Option<u64>, flags: Vec<&'static str>) -> EmitRow {
    EmitRow { share: "dätä".into(), path: path.into(), day, reads: 7, writes: 9, alloc_bytes, flags }
}

#[test]
fn a_row_is_read() {
    let r = read_row(ROW).unwrap();
    assert_eq!((r.share.as_str(), r.path.as_str(), r.day), ("data", "a\\b.txt", -3));
    assert_eq!((r.reads, r.writes, r.alloc_bytes), (1, 4294967295, Some(10)));
    assert_eq!(r.flags, vec!["restat", "x\"y"]);
}

#[test]
fn bytes_and_flags_may_be_missing() {
    let bare = r#" {"path":"p","share":"s","writes":2 , "reads" : 1,"day":0} "#;
    let r = read_row(bare).unwrap();
    assert_eq!((r.share.as_str(), r.path.as_str(), r.day), ("s", "p", 0));
    assert_eq!((r.reads, r.writes, r.alloc_bytes), (1, 2, None));
    assert!(r.flags.is_empty());
    let null = r#"{"share":"s","path":"p","day":0,"reads":1,"writes":2,"alloc_bytes":null,"flags":[]}"#;
    assert_eq!(read_row(null).unwrap().alloc_bytes, None);
}

#[test]
fn row_reasons() {
    let reason = |line: &str| read_row(line).unwrap_err();
    assert_eq!(reason(r#"{"type":"row"}"#), "missing field `share` at line 1 column 14");
    assert_eq!(reason(r#"{"share":"s"}"#), "missing field `path` at line 1 column 13");
    assert_eq!(reason(r#"{"share":"s","path":"p"}"#), "missing field `day` at line 1 column 24");
    assert_eq!(
        reason(r#"{"share":"s","path":"p","day":1}"#),
        "missing field `reads` at line 1 column 32"
    );
    assert_eq!(
        reason(r#"{"share":"s","path":"p","day":1,"reads":1}"#),
        "missing field `writes` at line 1 column 42"
    );
    assert_eq!(
        reason(r#"{"share":null}"#),
        "invalid type: null, expected a string at line 1 column 13"
    );
    assert_eq!(
        reason(r#"{"day":2147483648}"#),
        "invalid value: integer `2147483648`, expected i32 at line 1 column 17"
    );
    assert_eq!(
        reason(r#"{"reads":-1}"#),
        "invalid value: integer `-1`, expected u32 at line 1 column 11"
    );
    assert_eq!(
        reason(r#"{"alloc_bytes":"8"}"#),
        "invalid type: string \"8\", expected u64 at line 1 column 18"
    );
    assert_eq!(
        reason(r#"{"flags":[1]}"#),
        "invalid type: integer `1`, expected a string at line 1 column 11"
    );
    assert_eq!(
        reason(r#"{"reads":1,"reads":1}"#),
        "duplicate field `reads` at line 1 column 18"
    );
    assert!(reason("[]").starts_with("invalid type: sequence"));
}

#[test]
fn rows_are_read_as_they_were_written() {
    let meta = Meta {
        server: "sgifs01",
        run_id: "5b08749f-1234-5678-9abc-def012345678",
        dump_seq: 1,
        emitted_at: "2026-06-11T00:00:00+00:00",
        walked_shares: &["data".to_string()],
    };
    let sent = [
        emitted("ü\\\"\n\t.txt", 20613, Some(u64::MAX), vec![]),
        emitted("b", i32::MIN, None, vec!["restat"]),
        emitted("", i32::MAX, Some(0), vec!["unresolved_share"]),
    ];
    let doc = document(&meta, &sent);
    let rows = read_rows(doc.as_bytes()).unwrap();
    assert_eq!(rows.len(), sent.len());
    for (r, e) in rows.iter().zip(&sent) {
        assert_eq!((&r.share, &r.path, r.day), (&e.share, &e.path, e.day));
        assert_eq!((r.reads, r.writes, r.alloc_bytes), (e.reads, e.writes, e.alloc_bytes));
        assert_eq!(r.flags, e.flags);
    }
    assert!(read_rows(document(&meta, &[]).as_bytes()).unwrap().is_empty());
}

#[test]
fn the_first_unreadable_row_is_named() {
    let body = format!("h\n{ROW}\n{{\"type\":\"row\"}}\nnonsense\nf\n");
    assert_eq!(
        read_rows(body.as_bytes()).unwrap_err(),
        "line 3 is not a valid row: missing field `share` at line 1 column 14"
    );
    assert_eq!(read_rows(&[0xff]).unwrap_err(), "body is not valid UTF-8");
    assert!(read_rows(b"").unwrap().is_empty());
    assert!(read_rows(b"h\n").unwrap().is_empty());
}
