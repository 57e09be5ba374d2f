use serde::de::{Error, IgnoredAny, MapAccess, Visitor};
use serde::{Deserialize, Deserializer};
use smb_heat_spike::ingest::{
    archive_rel_path, check_header, check_line, classify, emit_file_name, is_valid_server,
    is_valid_uuid, parse_header, read_header, read_line, run8, split_ndjson, validate_body_lines,
    validate_naming, Disposition, Header, HeaderFields, LineFields,
};

const RUN: &str = "5b08749f-1234-5678-9abc-def012345678";

#[test]
fn valid_header_accepted() {
    let line = r#"{"type":"header","server":"sgifs01","run_id":"5b08749f-1234-5678-9abc-def012345678","dump_seq":1,"emitted_at":"2026-06-11T00:00:00Z","walked_shares":["data"]}"#;
    let h = parse_header(line).expect("valid header");
    assert_eq!(h.server, "sgifs01");
    assert_eq!(h.dump_seq, 1);
}

#[test]
fn header_missing_field_rejected() {
    let line = r#"{"type":"header","run_id":"5b08749f-1234-5678-9abc-def012345678","dump_seq":1}"#;
    assert!(parse_header(line).is_err());
}

#[test]
fn header_wrong_type_rejected() {
    let line = r#"{"type":"header","server":"sgifs01","run_id":"5b08749f-1234-5678-9abc-def012345678","dump_seq":"1"}"#;
    assert!(parse_header(line).is_err());
}

#[test]
fn non_header_first_line_rejected() {
    let line = r#"{"type":"row","share":"data","path":"a.txt","day":20613,"reads":1,"writes":0,"alloc_bytes":10,"flags":[]}"#;
    assert!(parse_header(line).is_err());
}

#[test]
fn header_reasons() {
    let reason = |line: &str| parse_header(line).unwrap_err();
    assert!(reason("nonsense").starts_with("header line is not valid JSON: "));
    assert_eq!(
        reason("{}"),
        "header line is not valid JSON: missing field `type` at line 1 column 2"
    );
    assert_eq!(
        reason(r#"{"type":7}"#),
        "header line is not valid JSON: invalid type: integer `7`, expected a string at line 1 column 9"
    );
    assert_eq!(reason(r#"{"type":"row"}"#), "first line type is \"row\", not \"header\"");
    assert_eq!(reason(r#"{"type":"header"}"#), "header missing \"server\"");
    assert_eq!(
        reason(r#"{"type":"header","server":null}"#),
        "header missing \"server\""
    );
    assert_eq!(
        reason(r#"{"type":"header","server":"s"}"#),
        "header missing \"run_id\""
    );
    assert_eq!(
        reason(r#"{"type":"header","server":"s","run_id":"r"}"#),
        "header missing \"dump_seq\""
    );
    assert_eq!(
        reason(r#"{"type":"header","server":"s","run_id":"r","dump_seq":4294967296}"#),
        "header line is not valid JSON: invalid value: integer `4294967296`, expected u32 at line 1 column 64"
    );
    // A wrong type is a problem of the line, whatever its type says.
    assert!(reason(r#"{"type":"row","server":3}"#).starts_with("header line is not valid JSON: "));
}

#[test]
fn a_line_is_an_object() {
    let list = r#"["header","sgifs01","5b08749f-1234-5678-9abc-def012345678",1]"#;
    let reason = parse_header(list).unwrap_err();
    assert!(reason.starts_with("header line is not valid JSON: invalid type: sequence"));
    assert!(validate_body_lines(&[r#"["footer",0]"#]).is_err());
}

/// A first line's fields, read by `serde` itself.
struct Typed;

struct TypedVisitor;

impl<'de> Visitor<'de> for TypedVisitor {
    type Value = Typed;

    fn expecting(&self, f: &mut std::fmt::Formatter) -> std::fmt::Result {
        f.write_str("a header")
    }

    fn visit_map<A: MapAccess<'de>>(self, mut map: A) -> Result<Typed, A::Error> {
        let mut kind: Option<String> = None;
        let mut server: Option<Option<String>> = None;
        let mut run_id: Option<Option<String>> = None;
        let mut dump_seq: Option<Option<u32>> = None;
        while let Some(key) = map.next_key::<String>()? {
            match key.as_str() {
                "type" if kind.is_some() => return Err(A::Error::duplicate_field("type")),
                "type" => kind = Some(map.next_value()?),
                "server" if server.is_some() => return Err(A::Error::duplicate_field("server")),
                "server" => server = Some(map.next_value()?),
                "run_id" if run_id.is_some() => return Err(A::Error::duplicate_field("run_id")),
                "run_id" => run_id = Some(map.next_value()?),
                "dump_seq" if dump_seq.is_some() => {
                    return Err(A::Error::duplicate_field("dump_seq"));
                }
                "dump_seq" => dump_seq = Some(map.next_value()?),
                _ => {
                    map.next_value::<IgnoredAny>()?;
                }
            }
        }
        if kind.is_none() {
            return Err(A::Error::missing_field("type"));
        }
        Ok(Typed)
    }
}

impl<'de> Deserialize<'de> for Typed {
    fn deserialize<D: Deserializer<'de>>(d: D) -> Result<Typed, D::Error> {
        d.deserialize_struct("Typed", &["type", "server", "run_id", "dump_seq"], TypedVisitor)
    }
}

#[test]
fn reasons_are_those_of_a_typed_read() {
    let lines = [
        "{}",
        "  { } ",
        "{\n\n \"x\" : 1\n}",
        r#"{"server":"a"}"#,
        r#"{"type":7}"#,
        r#"{"type":null}"#,
        r#"{"type":true}"#,
        r#"{"type":["header"]}"#,
        r#"{"type":{"a":1}}"#,
        r#"{"type":1.5}"#,
        r#"{"type":"\ud800"}"#,
        r#"{"x":"äöü","type" :   7 }"#,
        "{\"x\":1,\n \"type\":\n7}",
        r#"{"dump_seq":-1,"type":"header"}"#,
        r#"{"dump_seq":1.5,"type":"header"}"#,
        r#"{"dump_seq":"1","type":"header"}"#,
        r#"{"dump_seq":4294967296,"type":"header"}"#,
        r#"{"dump_seq":18446744073709551616,"type":"header"}"#,
        r#"{"dump_seq":false,"server":3,"type":7}"#,
        r#"{"server":3,"dump_seq":false,"type":7}"#,
        r#"{"run_id":[],"type":"header","type":"header"}"#,
        r#"{"type":"header","type":"header","run_id":[]}"#,
        r#"{"type":"a","server":null,"server" : 3}"#,
        r#"{"type":"a","😀":1,"run_id":"x","run_id":"x"}"#,
    ];
    for line in lines {
        let expected = serde_json::from_str::<Typed>(line).map(|_| ()).unwrap_err();
        assert_eq!(
            parse_header(line).unwrap_err(),
            format!("header line is not valid JSON: {expected}"),
            "{line}"
        );
    }
}

#[test]
fn header_fields_are_read_with_blanks_and_escapes() {
    let line = " { \"type\" : \"header\" , \"server\":\"s\\u0067i\", \"run_id\":\"r\", \"dump_seq\": 7, \"emitted_at\": 5 } ";
    let f = read_header(line).unwrap();
    assert_eq!(f.kind, "header");
    assert_eq!(f.server.as_deref(), Some("sgi"));
    assert_eq!(f.dump_seq, Some(7));
    assert_eq!(f.emitted_at, None);
    assert!(read_header("[1]").is_err());
}

#[test]
fn check_header_on_fields() {
    let f = HeaderFields {
        kind: "header".into(),
        server: Some("s".into()),
        run_id: Some("r".into()),
        dump_seq: Some(9),
        emitted_at: Some("t".into()),
    };
    let h = check_header(f.clone()).unwrap();
    assert_eq!((h.server.as_str(), h.run_id.as_str(), h.dump_seq), ("s", "r", 9));
    assert_eq!(h.emitted_at.as_deref(), Some("t"));
    let mut g = f.clone();
    g.kind = "a\"b".into();
    assert_eq!(check_header(g).unwrap_err(), "first line type is \"a\\\"b\", not \"header\"");
    let mut g = f;
    g.dump_seq = None;
    assert_eq!(check_header(g).unwrap_err(), "header missing \"dump_seq\"");
}

#[test]
fn server_name_validation() {
    assert!(is_valid_server("sgifs01"));
    assert!(is_valid_server("sgi-backup"));
    assert!(!is_valid_server("SGIFS01"));
    assert!(!is_valid_server("a/b"));
    assert!(!is_valid_server(".."));
    assert!(!is_valid_server(""));
    assert!(!is_valid_server("-lead"));
    assert!(!is_valid_server("a\\b"));
}

#[test]
fn uuid_validation() {
    assert!(is_valid_uuid("5b08749f-1234-5678-9abc-def012345678"));
    assert!(!is_valid_uuid("5b08749f12345678"));
    assert!(!is_valid_uuid("5b08749f-1234-5678-9abc-def01234567"));
    assert!(!is_valid_uuid("5b08749g-1234-5678-9abc-def012345678"));
    assert!(is_valid_uuid("5B08749F-1234-5678-9ABC-DEF012345678"));
    assert!(!is_valid_uuid("5b08749f1-234-5678-9abc-def012345678"));
}

#[test]
fn naming_reasons() {
    let header = |server: &str, run_id: &str, dump_seq: u32| Header {
        server: server.into(),
        run_id: run_id.into(),
        dump_seq,
        emitted_at: None,
    };
    assert!(validate_naming(&header("s", RUN, 1)).is_ok());
    assert_eq!(
        validate_naming(&header("../etc", RUN, 1)).unwrap_err(),
        "invalid server name \"../etc\""
    );
    assert_eq!(validate_naming(&header("s", "nope", 1)).unwrap_err(), "invalid run_id \"nope\"");
    assert_eq!(validate_naming(&header("s", RUN, 0)).unwrap_err(), "dump_seq 0 < 1");
}

#[test]
fn archive_naming() {
    let p = archive_rel_path("sgi-backup", "5b08749f-1234-5678-9abc-def012345678", 3);
    assert_eq!(p, "sgi-backup/5b08749f-3.ndjson");
}

#[test]
fn file_name_and_short_run() {
    assert_eq!(emit_file_name(RUN, 12), "5b08749f-12.ndjson");
    assert_eq!(run8(RUN), "5b08749f");
    assert_eq!(run8("abc"), "abc");
    assert_eq!(run8("äöüäöüäöü"), "äöüäöüäö");
}

fn row(p: &str) -> String {
    format!(r#"{{"type":"row","share":"data","path":"{p}","day":20613,"reads":1,"writes":0,"alloc_bytes":10,"flags":[]}}"#)
}

#[test]
fn rows_mismatch_rejected() {
    let r = row("a.txt");
    let lines = vec![r.as_str(), r#"{"type":"footer","rows":2}"#];
    assert!(validate_body_lines(&lines).is_err());
}

#[test]
fn footer_not_last_rejected() {
    let r = row("a.txt");
    let lines = vec![r#"{"type":"footer","rows":1}"#, r.as_str()];
    assert!(validate_body_lines(&lines).is_err());
}

#[test]
fn missing_footer_rejected() {
    let r = row("a.txt");
    let lines = vec![r.as_str()];
    assert!(validate_body_lines(&lines).is_err());
}

#[test]
fn empty_dump_accepted() {
    let lines = vec![r#"{"type":"footer","rows":0}"#];
    assert_eq!(validate_body_lines(&lines).unwrap(), 0);
}

#[test]
fn matching_rows_accepted() {
    let r1 = row("a.txt");
    let r2 = row("b.txt");
    let lines = vec![r1.as_str(), r2.as_str(), r#"{"type":"footer","rows":2}"#];
    assert_eq!(validate_body_lines(&lines).unwrap(), 2);
}

#[test]
fn invalid_json_row_rejected() {
    let lines = vec!["{not json", r#"{"type":"footer","rows":1}"#];
    assert!(validate_body_lines(&lines).is_err());
}

#[test]
fn framing_reasons() {
    let r = row("a.txt");
    let reason = |lines: &[&str]| validate_body_lines(lines).unwrap_err();
    assert_eq!(reason(&[]), "missing footer");
    assert_eq!(reason(&[&r]), "missing footer");
    assert!(reason(&[&r, ""]).starts_with("line 3 is not valid JSON: "));
    assert_eq!(reason(&[r#"{"type":"odd"}"#]), "line 2 has unexpected type \"odd\"");
    assert_eq!(
        reason(&[r#"{"type":"footer","rows":1}"#, &r]),
        "footer is not the last line"
    );
    assert_eq!(reason(&[r#"{"type":"footer"}"#]), "footer missing \"rows\"");
    assert_eq!(
        reason(&[&r, r#"{"type":"footer","rows":5}"#]),
        "footer rows=5 but counted 1 row lines"
    );
}

#[test]
fn single_lines() {
    let f = read_line(r#"{"rows":3,"type":"footer"}"#).unwrap();
    assert_eq!((f.kind.as_str(), f.rows), ("footer", Some(3)));
    let f = LineFields { kind: "footer".into(), rows: Some(3) };
    assert_eq!(check_line(Ok(f.clone()), 3, 4).unwrap(), Some(3));
    assert!(check_line(Ok(f), 2, 4).is_err());
    let f = LineFields { kind: "row".into(), rows: Some(3) };
    assert_eq!(check_line(Ok(f), 0, 4).unwrap(), None);
    assert_eq!(
        check_line(Err("bad".into()), 0, 4).unwrap_err(),
        "line 2 is not valid JSON: bad"
    );
}

#[test]
fn split_keeps_inner_empty_lines() {
    assert_eq!(split_ndjson("a\n\nb\n"), vec!["a", "", "b"]);
    assert_eq!(split_ndjson("a\n\n"), vec!["a", ""]);
    assert_eq!(split_ndjson("a"), vec!["a"]);
    assert!(split_ndjson("").is_empty());
    assert_eq!(split_ndjson("ä\nö"), vec!["ä", "ö"]);
}

#[test]
fn classify_accepts_well_formed_document() {
    let body = format!(
        "{}\n{}\n{}\n",
        r#"{"type":"header","server":"sgifs01","run_id":"5b08749f-1234-5678-9abc-def012345678","dump_seq":1}"#,
        row("a.txt"),
        r#"{"type":"footer","rows":1}"#,
    );
    match classify(body.as_bytes()) {
        Disposition::Accepted { header, rows } => {
            assert_eq!(header.server, "sgifs01");
            assert_eq!(rows, 1);
        }
        other => panic!("expected Accepted, got {other:?}"),
    }
}

#[test]
fn classify_buckets_unsafe_server_as_malformed() {
    let body = format!(
        "{}\n{}\n",
        r#"{"type":"header","server":"../etc","run_id":"5b08749f-1234-5678-9abc-def012345678","dump_seq":1}"#,
        r#"{"type":"footer","rows":0}"#,
    );
    assert!(matches!(classify(body.as_bytes()), Disposition::Malformed { .. }));
}

#[test]
fn classify_rejects_bad_framing_after_valid_header() {
    let body = format!(
        "{}\n{}\n",
        r#"{"type":"header","server":"sgifs01","run_id":"5b08749f-1234-5678-9abc-def012345678","dump_seq":1}"#,
        r#"{"type":"footer","rows":5}"#,
    );
    assert!(matches!(classify(body.as_bytes()), Disposition::Rejected { .. }));
}

#[test]
fn classify_malformed_reasons() {
    let reason = |body: &[u8]| match classify(body) {
        Disposition::Malformed { reason } => reason,
        other => panic!("expected Malformed, got {other:?}"),
    };
    assert_eq!(reason(b""), "empty body");
    assert_eq!(reason(&[0xff, 0xfe]), "body is not valid UTF-8");
    assert!(reason(b"\n").starts_with("header line is not valid JSON: "));
}

#[test]
fn a_field_named_twice_is_refused() {
    let twice = r#"{"type":"header","server":"a","server":"b","run_id":"x","dump_seq":1}"#;
    assert_eq!(
        parse_header(twice).unwrap_err(),
        "header line is not valid JSON: duplicate field `server` at line 1 column 38"
    );
    // The same name, written with an escape.
    let escaped = r#"{"type":"header","server":"a","run_id":"x","dump_seq":1,"t\u0079pe":"header"}"#;
    assert_eq!(
        parse_header(escaped).unwrap_err(),
        "header line is not valid JSON: duplicate field `type` at line 1 column 67"
    );
    // Other fields may stand twice, and names inside values do not count.
    let other = r#"{"x":{"type":1,"type":2},"x":"\"type\":[{","type":"header","server":"a" , "run_id" : "b","dump_seq":1}"#;
    let h = parse_header(other).unwrap();
    assert_eq!((h.server.as_str(), h.run_id.as_str(), h.dump_seq), ("a", "b", 1));
    assert_eq!(
        validate_body_lines(&[r#"{"type":"footer","rows":0,"rows":0}"#]).unwrap_err(),
        "line 2 is not valid JSON: duplicate field `rows` at line 1 column 32"
    );
}
