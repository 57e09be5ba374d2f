use smb_heat_spike::db::{
    strip_utc_suffix, DumpRow, FileFacts, IngestError, IngestOutcome, IngestSession, Reply,
    Statement, DDL, SQL_INSERT_FILE, SQL_INSERT_RUN, SQL_SELECT_FILE, SQL_SELECT_RUN,
    SQL_UPDATE_FILE, SQL_UPDATE_RUN, SQL_UPSERT_COUNT,
};
use smb_heat_spike::ingest::Header;
use std::collections::BTreeMap;

const RUN: &str = "5b08749f-1234-5678-9abc-def012345678";

#[derive(Clone, Debug, PartialEq)]
struct FileRow {
    server: String,
    share: String,
    path: String,
    alloc_bytes: Option<i64>,
    restat: bool,
    unresolved_share: bool,
    first_seen: String,
    last_seen: String,
}

#[derive(Clone, Debug, PartialEq)]
struct RunRow {
    run_id: String,
    server: String,
    started_at: String,
    last_dump_seq: i64,
    last_dump_at: String,
}

/// The three tables, in memory. Timestamps are kept as they are bound, with a blank
/// for the `T`.
#[derive(Clone, Debug, Default, PartialEq)]
struct Tables {
    files: BTreeMap<i64, FileRow>,
    runs: BTreeMap<String, RunRow>,
    day_counts: BTreeMap<(i64, String, i32), (i64, i64)>,
    next_id: i64,
}

fn stamp(ts: &str) -> String {
    ts.replace('T', " ")
}

impl Tables {
    fn run(&mut self, s: Statement, start: &Tables) -> Reply {
        match s {
            Statement::SelectRun { run_id } => {
                Reply::LastSeq(self.runs.get(&run_id.to_lowercase()).map(|r| r.last_dump_seq))
            }
            Statement::SelectFile { server, share, path } => Reply::FoundFile(
                self.files
                    .iter()
                    .find(|(_, f)| f.server == server && f.share == share && f.path == path)
                    .map(|(id, _)| *id),
            ),
            Statement::UpdateFile { facts, ts, file_id } => {
                let FileFacts { alloc_bytes, restat, unresolved_share } = facts;
                let f = self.files.get_mut(&file_id).expect("known file");
                f.alloc_bytes = alloc_bytes;
                f.restat = restat;
                f.unresolved_share = unresolved_share;
                f.last_seen = stamp(&ts);
                Reply::Done
            }
            Statement::InsertFile { server, share, path, facts, ts } => {
                self.next_id += 1;
                let row = FileRow {
                    server,
                    share,
                    path,
                    alloc_bytes: facts.alloc_bytes,
                    restat: facts.restat,
                    unresolved_share: facts.unresolved_share,
                    first_seen: stamp(&ts),
                    last_seen: stamp(&ts),
                };
                self.files.insert(self.next_id, row);
                Reply::NewFile(self.next_id)
            }
            Statement::UpsertCount { file_id, run_id, day, reads, writes } => {
                if reads > i32::MAX as i64 || writes > i32::MAX as i64 {
                    return Reply::Failed("value out of range".into());
                }
                self.day_counts.insert((file_id, run_id.to_lowercase(), day), (reads, writes));
                Reply::Done
            }
            Statement::InsertRun { run_id, server, ts, seq } => {
                if seq > i32::MAX as i64 {
                    return Reply::Failed("value out of range".into());
                }
                let row = RunRow {
                    run_id: run_id.to_lowercase(),
                    server,
                    started_at: stamp(&ts),
                    last_dump_seq: seq,
                    last_dump_at: stamp(&ts),
                };
                self.runs.insert(run_id.to_lowercase(), row);
                Reply::Done
            }
            Statement::UpdateRun { seq, ts, run_id } => {
                if seq > i32::MAX as i64 {
                    return Reply::Failed("value out of range".into());
                }
                let r = self.runs.get_mut(&run_id.to_lowercase()).expect("known run");
                r.last_dump_seq = seq;
                r.last_dump_at = stamp(&ts);
                Reply::Done
            }
            Statement::Rollback => {
                *self = start.clone();
                Reply::Done
            }
            Statement::Commit => Reply::Done,
        }
    }

    fn ingest(&mut self, header: &Header, rows: &[DumpRow]) -> Result<IngestOutcome, IngestError> {
        let mut session = IngestSession::begin(header, rows.to_vec())?;
        let start = self.clone();
        while let Some(statement) = session.statement() {
            let reply = self.run(statement, &start);
            session.advance(reply);
        }
        let outcome = session.outcome().expect("over");
        if outcome.is_err() {
            *self = start;
        }
        outcome
    }

    fn only_file(&self) -> &FileRow {
        assert_eq!(self.files.len(), 1);
        self.files.values().next().unwrap()
    }

    fn only_count(&self) -> (i64, i64) {
        assert_eq!(self.day_counts.len(), 1);
        *self.day_counts.values().next().unwrap()
    }

    fn only_run(&self) -> &RunRow {
        assert_eq!(self.runs.len(), 1);
        self.runs.values().next().unwrap()
    }
}

fn header(seq: u32, emitted: &str) -> Header {
    Header {
        server: "sgifs01".into(),
        run_id: RUN.into(),
        dump_seq: seq,
        emitted_at: Some(emitted.into()),
    }
}

fn dump_row(share: &str, path: &str, day: i32, reads: u32, writes: u32) -> DumpRow {
    DumpRow {
        share: share.into(),
        path: path.into(),
        day,
        reads,
        writes,
        alloc_bytes: Some(4096),
        flags: vec![],
    }
}

#[test]
fn accepted_dump_writes_exact_dimension() {
    let mut db = Tables::default();
    let rows = vec![dump_row("data", "a.txt", 20613, 2, 1)];
    assert_eq!(
        db.ingest(&header(1, "2026-06-10T00:00:00+00:00"), &rows).unwrap(),
        IngestOutcome::Accepted
    );
    let f = db.only_file();
    assert_eq!(f.server, "sgifs01");
    assert_eq!(f.share, "data");
    assert_eq!(f.path, "a.txt");
    assert_eq!(f.alloc_bytes, Some(4096));
    assert!(!f.restat);
    assert!(!f.unresolved_share);
    assert_eq!(f.first_seen, f.last_seen);
    assert_eq!(f.first_seen, "2026-06-10 00:00:00");
}

#[test]
fn facts_rows_exact_and_day_index_verbatim() {
    let mut db = Tables::default();
    let rows = vec![dump_row("data", "a.txt", 20613, 7, 3)];
    db.ingest(&header(1, "2026-06-10T00:00:00+00:00"), &rows).unwrap();
    let ((_, _, day), (reads, writes)) = db.day_counts.iter().next().unwrap();
    assert_eq!(*day, 20613);
    assert_eq!(*reads, 7);
    assert_eq!(*writes, 3);
}

#[test]
fn reingest_same_seq_is_noop() {
    let mut db = Tables::default();
    let rows = vec![dump_row("data", "a.txt", 20613, 7, 3)];
    db.ingest(&header(1, "2026-06-10T00:00:00+00:00"), &rows).unwrap();
    let before = db.clone();

    let rows2 = vec![dump_row("data", "a.txt", 20613, 999, 999)];
    assert_eq!(
        db.ingest(&header(1, "2026-06-10T01:00:00+00:00"), &rows2).unwrap(),
        IngestOutcome::DedupeNoop
    );
    assert_eq!(db, before);
    assert_eq!(db.files.len(), 1);
    assert_eq!(db.day_counts.len(), 1);
    assert_eq!(db.only_count().0, 7);
    assert_eq!(db.only_run().last_dump_seq, 1);
}

#[test]
fn seq2_replaces_facts_and_bumps_last_seen() {
    let mut db = Tables::default();
    db.ingest(
        &header(1, "2026-06-10T00:00:00+00:00"),
        &[dump_row("data", "a.txt", 20613, 2, 0)],
    )
    .unwrap();
    db.ingest(
        &header(2, "2026-06-10T00:05:00+00:00"),
        &[dump_row("data", "a.txt", 20613, 5, 1)],
    )
    .unwrap();
    assert_eq!(db.only_count(), (5, 1));
    let r = db.only_run();
    assert_eq!(r.started_at, "2026-06-10 00:00:00");
    assert_eq!(r.last_dump_at, "2026-06-10 00:05:00");
    assert_eq!(r.last_dump_seq, 2);
    let f = db.only_file();
    assert_eq!(f.last_seen, "2026-06-10 00:05:00");
    assert_eq!(f.first_seen, "2026-06-10 00:00:00");
}

#[test]
fn out_of_order_seq1_after_seq2_is_noop() {
    let mut db = Tables::default();
    db.ingest(
        &header(1, "2026-06-10T00:00:00+00:00"),
        &[dump_row("data", "a.txt", 20613, 2, 0)],
    )
    .unwrap();
    db.ingest(
        &header(2, "2026-06-10T00:05:00+00:00"),
        &[dump_row("data", "a.txt", 20613, 5, 1)],
    )
    .unwrap();
    assert_eq!(
        db.ingest(
            &header(1, "2026-06-10T00:10:00+00:00"),
            &[dump_row("data", "a.txt", 20613, 100, 100)],
        )
        .unwrap(),
        IngestOutcome::DedupeNoop
    );
    assert_eq!(db.only_count().0, 5);
    assert_eq!(db.only_run().last_dump_seq, 2);
}

#[test]
fn unresolved_share_row() {
    let mut db = Tables::default();
    let row = DumpRow {
        share: "unknown".into(),
        path: "mystery.dat".into(),
        day: 20613,
        reads: 1,
        writes: 0,
        alloc_bytes: None,
        flags: vec!["unresolved_share".into()],
    };
    db.ingest(&header(1, "2026-06-10T00:00:00+00:00"), &[row]).unwrap();
    let f = db.only_file();
    assert_eq!(f.share, "unknown");
    assert!(f.unresolved_share);
    assert!(f.alloc_bytes.is_none());
}

#[test]
fn restat_clobbers_known_bytes_to_null() {
    let mut db = Tables::default();
    db.ingest(
        &header(1, "2026-06-10T00:00:00+00:00"),
        &[dump_row("data", "a.txt", 20613, 1, 0)],
    )
    .unwrap();
    assert_eq!(db.only_file().alloc_bytes, Some(4096));

    let restat_row = DumpRow {
        share: "data".into(),
        path: "a.txt".into(),
        day: 20613,
        reads: 2,
        writes: 0,
        alloc_bytes: None,
        flags: vec!["restat".into()],
    };
    db.ingest(&header(2, "2026-06-10T00:05:00+00:00"), &[restat_row]).unwrap();
    let f = db.only_file();
    assert!(f.restat);
    assert!(f.alloc_bytes.is_none());
}

#[test]
fn uuid_round_trips() {
    let mut db = Tables::default();
    db.ingest(
        &header(1, "2026-06-10T00:00:00+00:00"),
        &[dump_row("data", "a.txt", 20613, 1, 0)],
    )
    .unwrap();
    assert_eq!(db.only_run().run_id, RUN);
}

#[test]
fn strip_utc_suffix_strips_zero_designators() {
    assert_eq!(strip_utc_suffix("2026-06-10T00:00:00+00:00"), Some("2026-06-10T00:00:00"));
    assert_eq!(strip_utc_suffix("2026-06-11T00:00:00Z"), Some("2026-06-11T00:00:00"));
    assert_eq!(strip_utc_suffix("2026-06-10T00:00:00-00:00"), Some("2026-06-10T00:00:00"));
    assert_eq!(strip_utc_suffix("2026-06-10T12:34:56.5+00:00"), Some("2026-06-10T12:34:56.5"));
    assert_eq!(strip_utc_suffix("2026-06-10T00:00:00"), Some("2026-06-10T00:00:00"));
}

#[test]
fn strip_utc_suffix_rejects_nonzero_offset() {
    assert_eq!(strip_utc_suffix("2026-06-10T00:00:00+05:00"), None);
    assert_eq!(strip_utc_suffix("2026-06-10T00:00:00-08:00"), None);
}

#[test]
fn strip_utc_suffix_edges() {
    assert_eq!(strip_utc_suffix(""), Some(""));
    assert_eq!(strip_utc_suffix("Z"), Some(""));
    assert_eq!(strip_utc_suffix("2026-06-10"), Some("2026-06-10"));
    assert_eq!(strip_utc_suffix("T+00:00"), Some("T"));
    assert_eq!(strip_utc_suffix("T+00:00+00:00"), Some("T+00:00"));
    assert_eq!(strip_utc_suffix("T+0000"), None);
    assert_eq!(strip_utc_suffix("äTö+00:00"), Some("äTö"));
}

#[test]
fn strip_utc_suffix_knows_every_separator() {
    assert_eq!(strip_utc_suffix("2026-06-10t00:00:00+00:00"), Some("2026-06-10t00:00:00"));
    assert_eq!(strip_utc_suffix("2026-06-10 00:00:00+00:00"), Some("2026-06-10 00:00:00"));
    assert_eq!(strip_utc_suffix("2026-06-10t00:00:00+05:00"), None);
    assert_eq!(strip_utc_suffix("2026-06-10 00:00:00+05:00"), None);
    assert_eq!(strip_utc_suffix("2026-06-10 00:00:00-08:00"), None);
    assert_eq!(strip_utc_suffix("2026-06-10t00:00:00"), Some("2026-06-10t00:00:00"));
    assert_eq!(strip_utc_suffix("2026-06-10 00:00:00"), Some("2026-06-10 00:00:00"));
    assert_eq!(strip_utc_suffix(" 2026-06-10"), Some(" 2026-06-10"));
}

#[test]
fn strip_utc_suffix_looks_behind_the_first_capital_t() {
    for naive in ["Sat-06T00", "Sat 2026-06-10T00:00:00", "at 1 2026-06-10T00:00:00"] {
        assert_eq!(strip_utc_suffix(naive), Some(naive));
        assert_eq!(strip_utc_suffix(&format!("{naive}Z")), Some(naive));
        assert_eq!(strip_utc_suffix(&format!("{naive}+00:00")), Some(naive));
        assert_eq!(strip_utc_suffix(&format!("{naive}-00:00")), Some(naive));
        assert_eq!(strip_utc_suffix(&format!("{naive}+05:00")), None);
    }
    // Without one, a small t or a blank counts only after a digit.
    for naive in ["Sat 2026-06-10 00:00:00", "Sat 2026-06-10t00:00:00", "Sat-06"] {
        assert_eq!(strip_utc_suffix(naive), Some(naive));
    }
    assert_eq!(strip_utc_suffix("Sat 2026-06-10 00:00:00+05:00"), None);
    // The first one counts.
    assert_eq!(strip_utc_suffix("Tue 2026-06-10T00:00:00"), None);
    assert_eq!(strip_utc_suffix("Tue 2026-06-10T00:00:00+00:00"), Some("Tue 2026-06-10T00:00:00"));
}

#[test]
fn ingest_rejects_nonzero_offset() {
    let mut db = Tables::default();
    let err = db
        .ingest(
            &header(1, "2026-06-10T00:00:00+05:00"),
            &[dump_row("data", "a.txt", 20613, 1, 0)],
        )
        .unwrap_err();
    assert!(matches!(err, IngestError::NonUtcOffset(_)));
    assert_eq!(
        err.message(),
        "emitted_at has a non-UTC offset: 2026-06-10T00:00:00+05:00"
    );
    assert_eq!(db.files.len(), 0);
    assert_eq!(db.runs.len(), 0);
}

#[test]
fn seq2_superset_keeps_earlier_rows() {
    let mut db = Tables::default();
    db.ingest(
        &header(1, "2026-06-10T00:00:00+00:00"),
        &[
            dump_row("data", "a.txt", 20613, 1, 0),
            dump_row("data", "b.txt", 20613, 1, 0),
        ],
    )
    .unwrap();
    db.ingest(
        &header(2, "2026-06-10T00:05:00+00:00"),
        &[
            dump_row("data", "a.txt", 20613, 9, 0),
            dump_row("data", "b.txt", 20613, 1, 0),
            dump_row("data", "c.txt", 20613, 1, 0),
        ],
    )
    .unwrap();
    assert_eq!(db.files.len(), 3);
    assert_eq!(db.day_counts.len(), 3);
    let a = db.files.iter().find(|(_, f)| f.path == "a.txt").unwrap().0;
    assert_eq!(db.day_counts[&(*a, RUN.to_string(), 20613)].0, 9);
    assert_eq!(db.files.values().filter(|f| f.path == "b.txt").count(), 1);
}

#[test]
fn missing_time_and_failures() {
    let mut db = Tables::default();
    let mut h = header(1, "");
    h.emitted_at = None;
    let err = db.ingest(&h, &[]).unwrap_err();
    assert!(matches!(err, IngestError::MissingEmittedAt));
    assert_eq!(err.message(), "header missing emitted_at");

    // A failing statement abandons the whole dump.
    let rows = [
        dump_row("data", "a.txt", 1, 1, 0),
        dump_row("data", "b.txt", 1, u32::MAX, 0),
    ];
    let err = db.ingest(&header(1, "2026-06-10T00:00:00Z"), &rows).unwrap_err();
    assert!(matches!(err, IngestError::Db(_)));
    assert_eq!(err.message(), "value out of range");
    assert_eq!(db, Tables::default());
}

#[test]
fn an_empty_dump_records_its_run() {
    let mut db = Tables::default();
    assert_eq!(
        db.ingest(&header(4, "2026-06-10T00:00:00Z"), &[]).unwrap(),
        IngestOutcome::Accepted
    );
    assert_eq!(db.only_run().last_dump_seq, 4);
    assert!(db.files.is_empty());
}

#[test]
fn a_reply_to_another_statement_fails_the_session() {
    let mut s = IngestSession::begin(&header(1, "2026-06-10T00:00:00Z"), vec![]).unwrap();
    s.advance(Reply::NewFile(1));
    assert!(s.statement().is_none());
    assert!(matches!(s.outcome(), Some(Err(IngestError::Db(_)))));
}

#[test]
fn a_size_is_bound_as_a_signed_number() {
    let mut db = Tables::default();
    let mut row = dump_row("data", "a.txt", 1, 1, 0);
    row.alloc_bytes = Some(u64::MAX);
    db.ingest(&header(1, "2026-06-10T00:00:00Z"), &[row]).unwrap();
    assert_eq!(db.only_file().alloc_bytes, Some(-1));
}

#[test]
fn a_number_beyond_the_column_is_refused() {
    let row = dump_row("data", "a.txt", 1, 1, 0);
    for seq in [2147483648, u32::MAX] {
        let mut fresh = Tables::default();
        let r = fresh.ingest(&header(seq, "2026-06-10T00:00:00Z"), &[row.clone()]);
        assert!(matches!(r, Err(IngestError::Db(_))));
        assert!(fresh.runs.is_empty() && fresh.files.is_empty());

        let mut db = Tables::default();
        db.ingest(&header(1, "2026-06-10T00:00:00Z"), &[row.clone()]).unwrap();
        let later = dump_row("data", "a.txt", 1, 9, 9);
        let r = db.ingest(&header(seq, "2026-06-10T00:05:00Z"), &[later]);
        assert!(matches!(r, Err(IngestError::Db(_))), "{seq} is no earlier dump");
        assert_eq!(db.only_count(), (1, 0));
        assert_eq!(db.only_run().last_dump_seq, 1);
    }
}

#[test]
fn the_greatest_number_that_fits_is_applied() {
    let mut db = Tables::default();
    db.ingest(&header(1, "2026-06-10T00:00:00Z"), &[]).unwrap();
    let out = db.ingest(&header(2147483647, "2026-06-10T00:05:00Z"), &[]).unwrap();
    assert_eq!(out, IngestOutcome::Accepted);
    assert_eq!(db.only_run().last_dump_seq, 2147483647);
    let out = db.ingest(&header(2147483647, "2026-06-10T00:05:00Z"), &[]).unwrap();
    assert_eq!(out, IngestOutcome::DedupeNoop);
}

#[test]
fn statements_bind_what_they_say() {
    let placeholders = |sql: &str| sql.matches('?').count();
    assert_eq!(placeholders(SQL_SELECT_RUN), 1);
    assert_eq!(placeholders(SQL_SELECT_FILE), 3);
    assert_eq!(placeholders(SQL_UPDATE_FILE), 5);
    assert_eq!(placeholders(SQL_INSERT_FILE), 8);
    assert_eq!(placeholders(SQL_UPSERT_COUNT), 5);
    assert_eq!(placeholders(SQL_INSERT_RUN), 5);
    assert_eq!(placeholders(SQL_UPDATE_RUN), 3);
    assert_eq!(DDL.matches("IF NOT EXISTS").count(), 4);
}

#[test]
fn a_lost_dump_is_no_loss() {
    let first = [
        dump_row("data", "a.txt", 20613, 1, 0),
        dump_row("data", "b.txt", 20613, 1, 0),
    ];
    let second = [
        dump_row("data", "a.txt", 20613, 4, 2),
        dump_row("data", "a.txt", 20614, 1, 0),
        dump_row("data", "b.txt", 20613, 1, 0),
    ];
    let mut with = Tables::default();
    with.ingest(&header(1, "2026-06-10T00:00:00Z"), &first).unwrap();
    with.ingest(&header(2, "2026-06-10T00:05:00Z"), &second).unwrap();
    let mut without = Tables::default();
    without.ingest(&header(2, "2026-06-10T00:05:00Z"), &second).unwrap();

    let counts = |t: &Tables| -> Vec<(String, i32, (i64, i64))> {
        let mut v: Vec<_> = t
            .day_counts
            .iter()
            .map(|((id, _, day), c)| (t.files[id].path.clone(), *day, *c))
            .collect();
        v.sort();
        v
    };
    assert_eq!(counts(&with), counts(&without));
    assert_eq!(counts(&with).len(), 3);
    assert_eq!(with.only_run().last_dump_seq, without.only_run().last_dump_seq);
    assert_eq!(with.only_run().last_dump_at, without.only_run().last_dump_at);
    for (a, b) in with.files.values().zip(without.files.values()) {
        assert_eq!((&a.path, a.alloc_bytes, &a.last_seen), (&b.path, b.alloc_bytes, &b.last_seen));
    }
}
