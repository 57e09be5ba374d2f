use smb_heat_spike::db::{IngestError, IngestOutcome};
use smb_heat_spike::ingest::{classify, Disposition};
use smb_heat_spike::server::{
    after_ingest, after_read, after_rows, after_store, answer_asset, answer_query, log_identity,
    log_line, malformed_rel_path, no_route, route, startup_line, AfterRead, AfterStore, Asset,
    Finish, Method, Route, MAX_BODY,
};

const HEAD: &str = r#"{"type":"header","server":"sgifs01","run_id":"5b08749f-1234-5678-9abc-def012345678","dump_seq":7}"#;
const FOOT: &str = r#"{"type":"footer","rows":0}"#;

fn accepted() -> Vec<u8> {
    format!("{HEAD}\n{FOOT}\n").into_bytes()
}

fn rejected() -> Vec<u8> {
    format!("{HEAD}\n").into_bytes()
}

fn line(f: &Finish) -> String {
    log_line("T", "1.2.3.4", f, "none")
}

#[test]
fn routes() {
    assert_eq!(route(Method::Post, "/ingest", false), (Route::Ingest, ""));
    assert_eq!(route(Method::Post, "/ingest?x=1", true), (Route::Ingest, "x=1"));
    assert_eq!(route(Method::Get, "/ingest", true), (Route::NotFound, ""));
    assert_eq!(route(Method::Get, "/api/leaderboard?depth=2", true), (Route::Leaderboard, "depth=2"));
    assert_eq!(route(Method::Get, "/api/children?a?b", true), (Route::Children, "a?b"));
    assert_eq!(route(Method::Get, "/api/health", true), (Route::Health, ""));
    assert_eq!(route(Method::Get, "/api/health", false), (Route::NotFound, ""));
    assert_eq!(route(Method::Post, "/api/health", true), (Route::NotFound, ""));
    assert_eq!(route(Method::Other, "/ingest", true), (Route::NotFound, ""));
    for has_db in [false, true] {
        assert_eq!(route(Method::Get, "/", has_db), (Route::Dashboard(Asset::Page), ""));
        assert_eq!(route(Method::Get, "/?depth=3", has_db), (Route::Dashboard(Asset::Page), "depth=3"));
        assert_eq!(route(Method::Get, "/app.js", has_db), (Route::Dashboard(Asset::Script), ""));
        assert_eq!(route(Method::Get, "/style.css", has_db), (Route::Dashboard(Asset::Style), ""));
        assert_eq!(route(Method::Post, "/", has_db), (Route::NotFound, ""));
        assert_eq!(route(Method::Get, "", has_db), (Route::NotFound, ""));
        assert_eq!(route(Method::Get, "/index.html", has_db), (Route::NotFound, ""));
    }
    assert_eq!(Asset::Page.content_type(), "text/html; charset=utf-8");
    assert_eq!(Asset::Script.content_type(), "text/javascript; charset=utf-8");
    assert_eq!(Asset::Style.content_type(), "text/css; charset=utf-8");
    let f = no_route();
    assert_eq!(f.body, None);
    assert_eq!(
        line(&f),
        "T ip=1.2.3.4 server=- run=- seq=- rows=- status=404 reason=no route db=none"
    );
}

#[test]
fn queries_are_answered() {
    let f = answer_query(&Ok(Ok("{\"rows\":[]}".into())));
    assert_eq!(f.body.as_deref(), Some("{\"rows\":[]}"));
    assert_eq!(line(&f), "T ip=1.2.3.4 server=- run=- seq=- rows=- status=200 reason=ok db=none");
    let f = answer_query(&Ok(Err("no \"table\"".into())));
    assert_eq!(f.body.as_deref(), Some(r#"{"error":"no \"table\""}"#));
    assert_eq!((f.entry.status, f.entry.reason.as_str()), (500, "db error: no \"table\""));
    let f = answer_query(&Err("parent is required".into()));
    assert_eq!(f.body.as_deref(), Some(r#"{"error":"parent is required"}"#));
    assert_eq!((f.entry.status, f.entry.reason.as_str()), (400, "parent is required"));
    let f = answer_asset("<p>");
    assert_eq!(f.body.as_deref(), Some("<p>"));
    assert_eq!((f.entry.status, f.entry.reason.as_str()), (200, "ok"));
}

#[test]
fn unreadable_rows_are_answered_as_a_rejection() {
    let d = classify(&accepted());
    assert!(after_rows(&d, &Ok(vec![])).is_none());
    let f = after_rows(&d, &Err("line 2 is not a valid row: x".into())).unwrap();
    assert_eq!(f.body.as_deref(), Some("line 2 is not a valid row: x"));
    assert_eq!(
        line(&f),
        "T ip=1.2.3.4 server=sgifs01 run=5b08749f seq=7 rows=- status=400 \
         reason=line 2 is not a valid row: x db=none"
    );
    assert!(after_rows(&classify(&rejected()), &Err("x".into())).is_none());
}

#[test]
fn bodies_that_are_not_read() {
    match after_read(&Err("broken pipe".into()), 0) {
        AfterRead::Finish(f) => {
            assert_eq!(f.body.as_deref(), Some("read error: broken pipe"));
            assert_eq!(
                line(&f),
                "T ip=1.2.3.4 server=- run=- seq=- rows=- status=400 reason=body read error db=none"
            );
        }
        AfterRead::Store { .. } => panic!("stored"),
    }
    assert_eq!(MAX_BODY, 256 * 1024 * 1024);
    match after_read(&Ok(vec![0; MAX_BODY + 1]), 0) {
        AfterRead::Finish(f) => {
            assert_eq!(f.body.as_deref(), Some("body exceeds 256 MiB"));
            assert_eq!(f.entry.status, 400);
        }
        AfterRead::Store { .. } => panic!("stored"),
    }
}

fn stored(body: Vec<u8>) -> (Disposition, String) {
    match after_read(&Ok(body), 1_749_600_000_123) {
        AfterRead::Store { disposition, rel_path } => (disposition, rel_path),
        AfterRead::Finish(f) => panic!("{f:?}"),
    }
}

#[test]
fn archive_places() {
    assert_eq!(stored(accepted()).1, "sgifs01/5b08749f-7.ndjson");
    assert_eq!(stored(rejected()).1, "sgifs01/5b08749f-7.ndjson");
    assert_eq!(stored(b"garbage".to_vec()).1, "_malformed/1749600000123.ndjson");
    assert_eq!(
        malformed_rel_path(u128::MAX),
        "_malformed/340282366920938463463374607431768211455.ndjson"
    );
}

fn finished(r: AfterStore) -> Finish {
    match r {
        AfterStore::Finish(f) => f,
        AfterStore::Ingest => panic!("ingest"),
    }
}

#[test]
fn answers_without_a_database() {
    let d = classify(&accepted());
    let f = finished(after_store(&d, &Ok(()), false));
    assert_eq!(f.body, None);
    assert_eq!(
        line(&f),
        "T ip=1.2.3.4 server=sgifs01 run=5b08749f seq=7 rows=0 status=200 reason=ok db=none"
    );
    assert!(matches!(after_store(&d, &Ok(()), true), AfterStore::Ingest));

    let f = finished(after_store(&d, &Err("disk full".into()), true));
    assert_eq!(f.body.as_deref(), Some("archive write failed"));
    assert_eq!(
        line(&f),
        "T ip=1.2.3.4 server=sgifs01 run=5b08749f seq=7 rows=- status=500 reason=archive failed: disk full db=none"
    );
}

#[test]
fn refusals_are_answered_with_their_reason() {
    let d = classify(&rejected());
    let f = finished(after_store(&d, &Ok(()), true));
    assert_eq!(f.body.as_deref(), Some("missing footer"));
    assert_eq!(
        line(&f),
        "T ip=1.2.3.4 server=sgifs01 run=5b08749f seq=7 rows=- status=400 reason=missing footer db=none"
    );
    let d = classify(b"");
    let f = finished(after_store(&d, &Ok(()), true));
    assert_eq!(f.body.as_deref(), Some("empty body"));
    assert_eq!(f.entry.status, 400);
    assert_eq!(log_identity(&d), ("-".to_string(), "-".to_string(), "-".to_string()));
}

#[test]
fn answers_after_ingestion() {
    let d = classify(&accepted());
    let f = after_ingest(&d, 3, &Ok(IngestOutcome::Accepted));
    assert_eq!((f.entry.status, f.entry.reason.as_str(), f.entry.rows.as_str()), (200, "accepted", "3"));
    assert_eq!(f.body, None);
    let f = after_ingest(&d, 3, &Ok(IngestOutcome::DedupeNoop));
    assert_eq!((f.entry.status, f.entry.reason.as_str()), (200, "dedupe-noop"));
    let f = after_ingest(&d, 3, &Err(IngestError::Db("locked".into())));
    assert_eq!((f.entry.status, f.entry.reason.as_str()), (500, "db error: locked"));
    assert_eq!(f.body.as_deref(), Some("db ingest failed"));
    let f = after_ingest(&d, 3, &Err(IngestError::MissingEmittedAt));
    assert_eq!(f.entry.reason, "db error: header missing emitted_at");
}

#[test]
fn startup_log() {
    assert_eq!(
        startup_line("T", "0.0.0.0:2742", "./archive", "none", "none"),
        "T bind=0.0.0.0:2742 archive=./archive db=none engine=none\n"
    );
}
