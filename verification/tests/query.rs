use smb_heat_spike::pairs::lookup;
use smb_heat_spike::query::{
    build_leaderboard_sql, child_depth, children, children_anchor, children_query, escape_like,
    health, hex_val, knobs_from, leaderboard, parent_bytes, part_of, parse_integer, parse_knobs,
    parse_query_string, percent_decode, scope_anchor, window_threshold, Knobs, Param, Query,
    ServerDump, Weight,
};
use serde_json::Value;

fn class(text: Option<&str>) -> Weight {
    match text.map(|t| t.parse::<f64>()) {
        None => Weight::Fine,
        Some(Err(_)) => Weight::NotANumber,
        Some(Ok(w)) if w >= 0.0 => Weight::Fine,
        Some(Ok(_)) => Weight::Negative,
    }
}

fn knobs_for(query: &str) -> Result<Knobs, String> {
    let pairs = parse_query_string(query);
    let read = class(lookup(&pairs, "w_read"));
    let write = class(lookup(&pairs, "w_write"));
    parse_knobs(query, read, write)
}

fn approx(a: f64, b: f64) {
    assert!((a - b).abs() < 1e-9, "expected {b}, got {a}");
}

#[test]
fn parse_knobs_happy_and_garbage() {
    let k = knobs_for("w_read=3&w_write=0.5&depth=2&window=10&limit=5&server=s1").unwrap();
    approx(k.w_read.as_deref().unwrap().parse().unwrap(), 3.0);
    approx(k.w_write.as_deref().unwrap().parse().unwrap(), 0.5);
    assert_eq!(k.depth, 2);
    assert_eq!(k.server.as_deref(), Some("s1"));

    assert!(knobs_for("depth=99").is_err());
    assert!(knobs_for("w_read=-1").is_err());
    assert!(knobs_for("limit=0").is_err());
    assert!(knobs_for("window=banana").is_err());
}

#[test]
fn parse_knobs_percent_decodes_backslash() {
    let k = knobs_for("parent=projects%5Calpha").unwrap();
    assert_eq!(k.parent.as_deref(), Some("projects\\alpha"));
}

#[test]
fn knob_defaults_and_errors() {
    let k = knobs_for("").unwrap();
    let d = Knobs::default();
    assert_eq!((k.window, k.min_span, k.depth, k.limit), (30, 3, 1, 50));
    assert_eq!((d.window, d.min_span, d.depth, d.limit), (30, 3, 1, 50));
    assert!(k.w_read.is_none() && k.w_write.is_none());
    assert!(k.server.is_none() && k.share.is_none() && k.parent.is_none());

    let err = |q: &str| knobs_for(q).unwrap_err();
    assert_eq!(err("w_read=x"), "w_read must be a number");
    assert_eq!(err("w_write=x"), "w_write must be a number");
    assert_eq!(err("window=1.5"), "window must be an integer");
    assert_eq!(err("min_span="), "min_span must be an integer");
    assert_eq!(err("depth=+"), "depth must be an integer");
    assert_eq!(err("limit=9223372036854775808"), "limit must be an integer");
    assert_eq!(err("depth=0"), "depth must be between 1 and 16");
    assert_eq!(err("depth=17"), "depth must be between 1 and 16");
    assert_eq!(err("window=3651"), "window must be between 1 and 3650");
    assert_eq!(err("w_write=-0.1"), "weights must be >= 0");
    assert_eq!(err("limit=1001"), "limit must be between 1 and 1000");
    assert_eq!(err("min_span=-1"), "min_span must be >= 0");
    // The first complaint wins.
    assert_eq!(err("w_read=-1&depth=99"), "depth must be between 1 and 16");
    assert_eq!(err("depth=99&w_write=x"), "w_write must be a number");
    // The last of repeated values counts, and blanks around a filter do not.
    let k = knobs_for("depth=2&depth=%2b3&server=+s1%20&share=++").unwrap();
    assert_eq!(k.depth, 3);
    assert_eq!(k.server.as_deref(), Some("s1"));
    assert_eq!(k.share, None);
    assert!(knobs_for("min_span=0").is_ok());
    // Only a number that is at least zero is a weight.
    assert_eq!(err("w_read=NaN"), "weights must be >= 0");
    assert_eq!(err("w_write=nan"), "weights must be >= 0");
    assert!(knobs_for("w_read=-0&w_write=0.5").is_ok());
    // A weight's kind does not matter where no weight is given.
    assert!(knobs_from(&vec![], Weight::NotANumber, Weight::Negative).is_ok());
}

#[test]
fn query_strings() {
    let pairs = parse_query_string("a=1&&b&c=x=y&%61=2");
    let shown: Vec<(&str, &str)> = pairs.iter().map(|(k, v)| (k.as_str(), v.as_str())).collect();
    assert_eq!(shown, vec![("a", "1"), ("b", ""), ("c", "x=y"), ("a", "2")]);
    assert_eq!(lookup(&pairs, "a"), Some("2"));
    assert_eq!(lookup(&pairs, "z"), None);
    assert!(parse_query_string("").is_empty());
}

#[test]
fn percent_decoding() {
    assert_eq!(percent_decode("a+b%20c"), "a b c");
    assert_eq!(percent_decode("%c3%A4"), "ä");
    assert_eq!(percent_decode("100%"), "100%");
    assert_eq!(percent_decode("%zz%4"), "%zz%4");
    assert_eq!(percent_decode("%41"), "A");
    assert_eq!(percent_decode("%4"), "%4");
    assert_eq!(percent_decode("%ff"), "\u{fffd}");
    assert_eq!(hex_val(b'f'), Some(15));
    assert_eq!(hex_val(b'F'), Some(15));
    assert_eq!(hex_val(b'9'), Some(9));
    assert_eq!(hex_val(b'g'), None);
}

#[test]
fn integers() {
    assert_eq!(parse_integer("-9223372036854775808"), Some(i64::MIN));
    assert_eq!(parse_integer("9223372036854775807"), Some(i64::MAX));
    assert_eq!(parse_integer("9223372036854775808"), None);
    assert_eq!(parse_integer("-9223372036854775809"), None);
    assert_eq!(parse_integer("+007"), Some(7));
    assert_eq!(parse_integer("-0"), Some(0));
    assert_eq!(parse_integer(""), None);
    assert_eq!(parse_integer("-"), None);
    assert_eq!(parse_integer(" 1"), None);
    assert_eq!(parse_integer("1_000"), None);
    assert_eq!(parse_integer("99999999999999999999999"), None);
}

fn shown(q: &Query) -> Vec<String> {
    q.params
        .iter()
        .map(|p| match p {
            Param::Integer(n) => format!("{n}"),
            Param::Text(t) => format!("'{t}'"),
            Param::ReadWeight => "read".into(),
            Param::WriteWeight => "write".into(),
        })
        .collect()
}

fn balanced(q: &Query) {
    assert_eq!(q.sql.matches('?').count(), q.params.len(), "{}", q.sql);
}

#[test]
fn leaderboard_statement() {
    let mut k = Knobs::default();
    k.depth = 2;
    let q = leaderboard(&k, Some(105), &None).unwrap();
    balanced(&q);
    assert_eq!(shown(&q), vec!["2", "read", "write", "75", "3", "50"]);
    assert!(q.sql.starts_with("WITH scoped_files AS (\n  SELECT file_id, server, share,\n"));
    assert!(q.sql.contains("string_split(path, '\\'), 1, ?), '\\')"));
    assert!(q.sql.contains("NULL::VARCHAR AS tier"));
    assert!(q.sql.ends_with("WHERE h.span >= ?\nORDER BY density DESC NULLS LAST\nLIMIT ?"));

    k.server = Some("'; DROP TABLE files; --".into());
    k.share = Some("data".into());
    let q = build_leaderboard_sql(&k, 75, &Some("tier.csv".into()));
    balanced(&q);
    assert_eq!(
        shown(&q),
        vec!["2", "''; DROP TABLE files; --'", "'data'", "read", "write", "75", "'tier.csv'", "3", "50"]
    );
    assert!(q.sql.contains("WHERE 1=1 AND server = ? AND share = ?\n),"));
    assert!(q.sql.contains("read_csv(?, header=true, columns={'server':'VARCHAR'"));
    assert!(!q.sql.contains("DROP"));
    // A prefix of the tier log is a name, not a pattern.
    assert!(q.sql.contains(
        "(b.subtree = tl.path_prefix OR starts_with(b.subtree, tl.path_prefix || '\\'))"
    ));
    assert!(!q.sql.contains("LIKE"));

    // No anchor: nothing to rank.
    assert!(leaderboard(&k, None, &None).is_none());
    let a = scope_anchor(&k);
    balanced(&a);
    assert!(a.sql.ends_with(" WHERE 1=1 AND f.server = ? AND f.share = ?"));
}

#[test]
fn children_statement() {
    let mut k = Knobs::default();
    assert_eq!(children(&k).unwrap_err(), "parent is required");
    k.parent = Some("projects\\100%_!".into());
    k.share = Some("data".into());
    let parent = children(&k).unwrap();
    assert_eq!(parent, "projects\\100%_!");
    assert_eq!(child_depth(parent), 3);
    let q = children_query(&k, parent, Some(105)).unwrap();
    balanced(&q);
    assert_eq!(
        shown(&q),
        vec![
            "3",
            "'projects\\100%_!'",
            "'projects\\100!%!_!!\\%'",
            "'data'",
            "read",
            "write",
            "75"
        ]
    );
    assert!(q.sql.ends_with("ORDER BY demand DESC"));
    assert!(children_query(&k, parent, None).is_none());
    let a = children_anchor(&k, parent);
    balanced(&a);
    assert_eq!(shown(&a).len(), 3);
    assert_eq!(child_depth("projects"), 2);
    assert_eq!(escape_like("a%b_c!d\\e"), "a!%b!_c!!d\\e");
    assert_eq!(window_threshold(105, 30), 75);
}

#[test]
fn a_child_has_a_part_of_known_bytes() {
    assert_eq!(part_of(Some(3), Some(12)), Some((3, 12)));
    assert_eq!(part_of(Some(0), Some(-1)), Some((0, -1)));
    assert_eq!(part_of(Some(3), Some(0)), None);
    assert_eq!(part_of(None, Some(12)), None);
    assert_eq!(part_of(Some(3), None), None);
    assert_eq!(part_of(None, None), None);
}

#[test]
fn parent_totals_skip_unknown_bytes() {
    assert_eq!(parent_bytes(&vec![Some(3000), Some(3000), None]), Some(6000));
    assert_eq!(parent_bytes(&vec![None, None]), None);
    assert_eq!(parent_bytes(&vec![]), None);
    assert_eq!(parent_bytes(&vec![Some(0)]), Some(0));
}

#[test]
fn health_per_server_staleness() {
    let now = 1_781_049_600 + 300;
    let dumps = vec![
        ServerDump { server: "s1".into(), last_dump_seq: 2, last_epoch: 1_781_049_600 },
        ServerDump { server: "s2".into(), last_dump_seq: 5, last_epoch: 1_780_876_800 },
    ];
    let v: Value = serde_json::from_str(&health(&dumps, now)).unwrap();

    let servers = v["servers"].as_array().unwrap();
    assert_eq!(servers.len(), 2);
    let s1 = &servers[0];
    assert_eq!(s1["server"], Value::from("s1"));
    assert_eq!(s1["last_dump_seq"], Value::from(2));
    assert_eq!(s1["last_dump_at"], Value::from("2026-06-10T00:00:00Z"));
    assert_eq!(s1["seconds_stale"], Value::from(300));
    assert!(servers[1]["seconds_stale"].as_i64().unwrap() > 300);
}

#[test]
fn health_exact_text() {
    let dumps = vec![ServerDump { server: "s\"1".into(), last_dump_seq: 2, last_epoch: 10 }];
    assert_eq!(
        health(&dumps, 0),
        "{\"now\":\"1970-01-01T00:00:00Z\",\"servers\":[{\"server\":\"s\\\"1\",\
         \"last_dump_at\":\"1970-01-01T00:00:10Z\",\"last_dump_seq\":2,\"seconds_stale\":-10}]}"
    );
    assert_eq!(health(&vec![], 0), "{\"now\":\"1970-01-01T00:00:00Z\",\"servers\":[]}");
}
