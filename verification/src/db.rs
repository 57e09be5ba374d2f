//! Ingestion of an accepted document into the database.
//!
//! One document is one transaction. The decisions are a session: it says which
//! statement to run next and takes what the database answered. The caller opens the
//! transaction, runs the statements and hands the replies back; where one fails,
//! the transaction is abandoned and the archived document is the replay source.
//!
//! `run_id` is bound as text and cast to a UUID; `emitted_at` is bound as text and
//! cast to a timestamp without a time zone, so a zero UTC designator is stripped
//! from it first and any other offset is refused.

use crate::ingest::{Header, HeaderView};
use crate::split::{
    cut_before_ascii, first_at, is_sign, lemma_first_at, lemma_first_at_is, rsplit_sign,
};
use crate::text::{chars_of, same_text};
use vstd::prelude::*;
use vstd::string::*;
use vstd::utf8::*;

verus! {

// ---- timestamps -----------------------------------------------------------

/// Where the last sign stands.
pub open spec fn last_sign(s: Seq<char>) -> Option<int>
    decreases s.len(),
{
    if s.len() == 0 {
        None
    } else if is_sign(s.last()) {
        Some(s.len() - 1)
    } else {
        last_sign(s.drop_last())
    }
}

/// A sign after which there is none is the last.
pub proof fn lemma_last_sign(s: Seq<char>, k: int)
    requires
        0 <= k < s.len(),
        is_sign(s[k]),
        forall|i: int| k < i < s.len() ==> !is_sign(#[trigger] s[i]),
    ensures
        last_sign(s) == Some(k),
    decreases s.len(),
{
    if k < s.len() - 1 {
        assert(!is_sign(s[s.len() - 1]));
        lemma_last_sign(s.drop_last(), k);
    }
}

/// Without a sign there is no last one.
pub proof fn lemma_no_sign(s: Seq<char>)
    requires
        forall|i: int| 0 <= i < s.len() ==> !is_sign(#[trigger] s[i]),
    ensures
        last_sign(s) is None,
    decreases s.len(),
{
    if s.len() > 0 {
        assert(!is_sign(s[s.len() - 1]));
        lemma_no_sign(s.drop_last());
    }
}

/// A small `t` or a blank, after a digit: where a text without a `T` has its time
/// begin.
pub open spec fn is_mark(s: Seq<char>, i: int) -> bool {
    &&& s[i] == 't' || s[i] == ' '
    &&& i > 0 && '0' <= s[i - 1] <= '9'
}

/// Where the first mark stands, from `i` on; the length of `s` where there is none.
pub open spec fn first_mark(s: Seq<char>, i: int) -> int
    decreases s.len() - i,
{
    if 0 <= i < s.len() && !is_mark(s, i) {
        first_mark(s, i + 1)
    } else {
        i
    }
}

/// Where a timestamp's time begins: behind its first `T`; without one, behind its first
/// mark; with neither, nowhere.
pub open spec fn time_from(ts: Seq<char>) -> int {
    let t = first_at(ts, 'T');
    let m = first_mark(ts, 0);
    if t < ts.len() {
        t + 1
    } else if m < ts.len() {
        m + 1
    } else {
        ts.len() as int
    }
}

/// A timestamp without its zero UTC designator: `Z`, or an offset of `+00:00` or
/// `-00:00` in its time. Nothing for any other offset. A timestamp without a
/// designator is itself; the signs before the time are no offset.
pub open spec fn naive_utc(ts: Seq<char>) -> Option<Seq<char>> {
    let from = time_from(ts);
    let time = ts.skip(from);
    if ts.len() > 0 && ts.last() == 'Z' {
        Some(ts.drop_last())
    } else {
        match last_sign(time) {
            None => Some(ts),
            Some(k) => if time.skip(k) == "+00:00"@ || time.skip(k) == "-00:00"@ {
                Some(ts.take(from + k))
            } else {
                None
            },
        }
    }
}

/// The first mark stands in the text, or nowhere.
pub proof fn lemma_first_mark(s: Seq<char>, i: int)
    requires
        0 <= i <= s.len(),
    ensures
        i <= first_mark(s, i) <= s.len(),
    decreases s.len() - i,
{
    if i < s.len() && !is_mark(s, i) {
        lemma_first_mark(s, i + 1);
    }
}

/// The last sign of a text is that of its time where it stands there.
pub proof fn lemma_sign_in_time(ts: Seq<char>, k: int)
    requires
        0 <= k < ts.len(),
        is_sign(ts[k]),
        forall|i: int| k < i < ts.len() ==> !is_sign(#[trigger] ts[i]),
    ensures
        0 <= time_from(ts) <= ts.len(),
        ({
            let from = time_from(ts);
            let time = ts.skip(from);
            if from <= k {
                last_sign(time) == Some(k - from) && time.skip(k - from) == ts.skip(k)
            } else {
                last_sign(time) is None
            }
        }),
{
    lemma_first_at(ts, 'T');
    lemma_first_mark(ts, 0);
    let from = time_from(ts);
    let time = ts.skip(from);
    assert forall|i: int| 0 <= i < time.len() && from + i != k implies from + i < k || !is_sign(
        #[trigger] time[i],
    ) by {
        assert(time[i] == ts[from + i]);
    }
    if from <= k {
        assert(time[k - from] == ts[k]);
        lemma_last_sign(time, k - from);
        assert(time.skip(k - from) =~= ts.skip(k));
    } else {
        lemma_no_sign(time);
    }
}

fn find_time(ts: &str) -> (r: usize)
    ensures
        r == time_from(ts@),
{
    let chars = chars_of(ts);
    let n = chars.len();
    let mut t: usize = 0;
    while t < n && chars[t] != 'T'
        invariant
            t <= n,
            n == chars@.len(),
            chars@ == ts@,
            forall|j: int| 0 <= j < t ==> chars@[j] != 'T',
        decreases n - t,
    {
        t = t + 1;
    }
    proof {
        lemma_first_at_is(ts@, 'T', t as int);
    }
    if t < n {
        return t + 1;
    }
    let mut m: usize = 0;
    while m < n && !((chars[m] == 't' || chars[m] == ' ') && m > 0 && '0' <= chars[m - 1]
        && chars[m - 1] <= '9')
        invariant
            m <= n,
            n == chars@.len(),
            chars@ == ts@,
            first_mark(ts@, m as int) == first_mark(ts@, 0),
        decreases n - m,
    {
        m = m + 1;
    }
    if m < n {
        m + 1
    } else {
        n
    }
}

/// The value of an optional string slice.
pub open spec fn opt_str(s: Option<&str>) -> Option<Seq<char>> {
    match s {
        Some(t) => Some(t@),
        None => None,
    }
}

proof fn lemma_last_byte_ascii(s: Seq<char>, c: char)
    requires
        c as u32 <= 0x7f,
        s.len() > 0,
    ensures
        s.last() == c <==> encode_utf8(s).last() == c as u8,
        encode_utf8(s).len() > 0,
    decreases s.len(),
{
    let rest = s.drop_first();
    if rest.len() > 0 {
        lemma_last_byte_ascii(rest, c);
    } else {
        let v = s[0];
        if v == c {
            let one = seq![c];
            assert(is_ascii_chars(one));
            is_ascii_chars_encode_utf8(one);
            assert(s =~= one);
        } else if encode_utf8(s).last() == c as u8 {
            lemma_single(s, c);
        }
    }
}

proof fn lemma_single(s: Seq<char>, c: char)
    requires
        c as u32 <= 0x7f,
        s.len() == 1,
        encode_utf8(s).last() == c as u8,
    ensures
        s[0] == c,
{
    let b = encode_utf8(s);
    encode_utf8_valid_utf8(s);
    encode_utf8_decode_utf8(s);
    let n = b.len() - 1;
    assert(!is_continuation_byte(b[n]));
    is_char_boundary_iff_not_is_continuation_byte(b, n as int);
    decode_utf8_split(b, n as int);
    valid_utf8_split(b, n as int);
    let tail = b.subrange(n as int, b.len() as int);
    let one = seq![c];
    assert(is_ascii_chars(one));
    is_ascii_chars_encode_utf8(one);
    assert(tail =~= encode_utf8(one));
    encode_utf8_decode_utf8(one);
    assert(decode_utf8(b) == decode_utf8(b.subrange(0, n as int)) + one);
    assert(s =~= one);
}

/// Strip a zero UTC designator from a timestamp; nothing where the offset is not
/// zero, since dropping it would move the instant.
pub fn strip_utc_suffix<'a>(ts: &'a str) -> (r: Option<&'a str>)
    ensures
        opt_str(r) == naive_utc(ts@),
{
    let bytes = ts.as_bytes();
    let n = bytes.len();
    proof {
        if ts@.len() > 0 {
            lemma_last_byte_ascii(ts@, 'Z');
        }
    }
    if n > 0 && bytes[n - 1] == 90 {
        let (a, b) = cut_before_ascii(ts, n - 1);
        proof {
            assert(ts@.len() > 0);
            let bb = encode_utf8(b@);
            assert(bb =~= seq![90u8]);
            let one = seq!['Z'];
            assert(is_ascii_chars(one));
            is_ascii_chars_encode_utf8(one);
            assert(encode_utf8(one) =~= bb);
            encode_utf8_decode_utf8(one);
            encode_utf8_decode_utf8(b@);
            assert(a@ =~= ts@.drop_last());
        }
        return Some(a);
    }
    let from = find_time(ts);
    match rsplit_sign(ts) {
        None => {
            proof {
                lemma_first_at(ts@, 'T');
                lemma_first_mark(ts@, 0);
                assert forall|i: int| 0 <= i < ts@.skip(from as int).len() implies !is_sign(
                    #[trigger] ts@.skip(from as int)[i],
                ) by {
                    assert(ts@.skip(from as int)[i] == ts@[from + i]);
                }
                lemma_no_sign(ts@.skip(from as int));
            }
            Some(ts)
        },
        Some((before, offset)) => {
            let ghost k = before@.len() as int;
            proof {
                assert forall|i: int| k < i < ts@.len() implies !is_sign(#[trigger] ts@[i]) by {
                    assert(ts@[i] == offset@[i - k]);
                }
                assert(ts@[k] == offset@[0]);
                lemma_sign_in_time(ts@, k);
                assert(ts@.skip(k) =~= offset@);
                assert(ts@.take(k) =~= before@);
            }
            if before.unicode_len() < from {
                Some(ts)
            } else if same_text(offset, "+00:00") || same_text(offset, "-00:00") {
                Some(before)
            } else {
                None
            }
        },
    }
}

/// The bytes of a text are those of its parts.
pub proof fn lemma_encode_concat(a: Seq<char>, b: Seq<char>)
    ensures
        encode_utf8(a + b) == encode_utf8(a) + encode_utf8(b),
    decreases a.len(),
{
    if a.len() == 0 {
        assert(a + b =~= b);
        assert(encode_utf8(a) + encode_utf8(b) =~= encode_utf8(b));
    } else {
        lemma_encode_concat(a.drop_first(), b);
        assert((a + b).drop_first() =~= a.drop_first() + b);
        assert(encode_utf8(a + b) =~= encode_utf8(a) + encode_utf8(b));
    }
}

// ---- rows, outcomes, statements -------------------------------------------

/// One row of an accepted document.
#[derive(Debug, Clone)]
pub struct DumpRow {
    pub share: String,
    pub path: String,
    pub day: i32,
    pub reads: u32,
    pub writes: u32,
    pub alloc_bytes: Option<u64>,
    pub flags: Vec<String>,
}

/// The mathematical value of a row.
pub struct DumpView {
    pub share: Seq<char>,
    pub path: Seq<char>,
    pub day: i32,
    pub reads: u32,
    pub writes: u32,
    pub alloc_bytes: Option<u64>,
    pub flags: Seq<Seq<char>>,
}

impl View for DumpRow {
    type V = DumpView;

    open spec fn view(&self) -> DumpView {
        DumpView {
            share: self.share@,
            path: self.path@,
            day: self.day,
            reads: self.reads,
            writes: self.writes,
            alloc_bytes: self.alloc_bytes,
            flags: self.flags@.map_values(|f: String| f@),
        }
    }
}

/// The values of rows.
pub open spec fn dump_views(rows: Seq<DumpRow>) -> Seq<DumpView> {
    rows.map_values(|r: DumpRow| r@)
}

/// What an ingestion came to.
#[derive(Debug, Clone, Copy, PartialEq, Eq, Structural)]
pub enum IngestOutcome {
    /// The rows were applied and committed.
    Accepted,
    /// The dump's number is not above the run's last one: seen already, or out of
    /// order. Rolled back; the archived document stays.
    DedupeNoop,
}

/// Why an ingestion failed.
#[derive(Debug, Clone)]
pub enum IngestError {
    /// The header says nothing of when the document was made.
    MissingEmittedAt,
    /// It was made at a time with an offset other than zero.
    NonUtcOffset(String),
    /// The database failed.
    Db(String),
}

/// The mathematical value of an error.
pub enum ErrorView {
    MissingEmittedAt,
    NonUtcOffset(Seq<char>),
    Db(Seq<char>),
}

impl View for IngestError {
    type V = ErrorView;

    open spec fn view(&self) -> ErrorView {
        match self {
            IngestError::MissingEmittedAt => ErrorView::MissingEmittedAt,
            IngestError::NonUtcOffset(ts) => ErrorView::NonUtcOffset(ts@),
            IngestError::Db(e) => ErrorView::Db(e@),
        }
    }
}

impl IngestError {
    /// The error in words.
    pub fn message(&self) -> (r: String)
        ensures
            r@ == match self@ {
                ErrorView::MissingEmittedAt => "header missing emitted_at"@,
                ErrorView::NonUtcOffset(ts) => "emitted_at has a non-UTC offset: "@ + ts,
                ErrorView::Db(e) => e,
            },
    {
        match self {
            IngestError::MissingEmittedAt => "header missing emitted_at".to_owned(),
            IngestError::NonUtcOffset(ts) => {
                let mut s = "emitted_at has a non-UTC offset: ".to_owned();
                s.append(ts.as_str());
                s
            },
            IngestError::Db(e) => e.clone(),
        }
    }
}

/// What a dump's row says about its file.
#[derive(Debug, Clone)]
pub struct FileFacts {
    pub alloc_bytes: Option<i64>,
    pub restat: bool,
    pub unresolved_share: bool,
}

/// A statement to run, with the values to bind.
#[derive(Debug, Clone)]
pub enum Statement {
    SelectRun { run_id: String },
    SelectFile { server: String, share: String, path: String },
    UpdateFile { facts: FileFacts, ts: String, file_id: i64 },
    InsertFile { server: String, share: String, path: String, facts: FileFacts, ts: String },
    UpsertCount { file_id: i64, run_id: String, day: i32, reads: i64, writes: i64 },
    InsertRun { run_id: String, server: String, ts: String, seq: i64 },
    UpdateRun { seq: i64, ts: String, run_id: String },
    Rollback,
    Commit,
}

/// The mathematical value of a statement.
pub enum StatementView {
    SelectRun { run_id: Seq<char> },
    SelectFile { server: Seq<char>, share: Seq<char>, path: Seq<char> },
    UpdateFile { facts: FileFacts, ts: Seq<char>, file_id: i64 },
    InsertFile {
        server: Seq<char>,
        share: Seq<char>,
        path: Seq<char>,
        facts: FileFacts,
        ts: Seq<char>,
    },
    UpsertCount { file_id: i64, run_id: Seq<char>, day: i32, reads: i64, writes: i64 },
    InsertRun { run_id: Seq<char>, server: Seq<char>, ts: Seq<char>, seq: i64 },
    UpdateRun { seq: i64, ts: Seq<char>, run_id: Seq<char> },
    Rollback,
    Commit,
}

impl View for Statement {
    type V = StatementView;

    open spec fn view(&self) -> StatementView {
        match self {
            Statement::SelectRun { run_id } => StatementView::SelectRun { run_id: run_id@ },
            Statement::SelectFile { server, share, path } => StatementView::SelectFile {
                server: server@,
                share: share@,
                path: path@,
            },
            Statement::UpdateFile { facts, ts, file_id } => StatementView::UpdateFile {
                facts: *facts,
                ts: ts@,
                file_id: *file_id,
            },
            Statement::InsertFile { server, share, path, facts, ts } => StatementView::InsertFile {
                server: server@,
                share: share@,
                path: path@,
                facts: *facts,
                ts: ts@,
            },
            Statement::UpsertCount { file_id, run_id, day, reads, writes } =>
                StatementView::UpsertCount {
                    file_id: *file_id,
                    run_id: run_id@,
                    day: *day,
                    reads: *reads,
                    writes: *writes,
                },
            Statement::InsertRun { run_id, server, ts, seq } => StatementView::InsertRun {
                run_id: run_id@,
                server: server@,
                ts: ts@,
                seq: *seq,
            },
            Statement::UpdateRun { seq, ts, run_id } => StatementView::UpdateRun {
                seq: *seq,
                ts: ts@,
                run_id: run_id@,
            },
            Statement::Rollback => StatementView::Rollback,
            Statement::Commit => StatementView::Commit,
        }
    }
}

/// Run at startup; safe to run on an existing database.
pub const DDL: &'static str = "
CREATE SEQUENCE IF NOT EXISTS file_id_seq;

CREATE TABLE IF NOT EXISTS files (
    file_id          BIGINT PRIMARY KEY DEFAULT nextval('file_id_seq'),
    server           TEXT NOT NULL,
    share            TEXT NOT NULL,
    path             TEXT NOT NULL,
    alloc_bytes      BIGINT,
    restat           BOOLEAN NOT NULL DEFAULT FALSE,
    unresolved_share BOOLEAN NOT NULL DEFAULT FALSE,
    first_seen       TIMESTAMP NOT NULL,
    last_seen        TIMESTAMP NOT NULL,
    UNIQUE (server, share, path)
);

CREATE TABLE IF NOT EXISTS runs (
    run_id        UUID PRIMARY KEY,
    server        TEXT NOT NULL,
    started_at    TIMESTAMP,
    last_dump_seq INTEGER NOT NULL,
    last_dump_at  TIMESTAMP NOT NULL
);

CREATE TABLE IF NOT EXISTS day_counts (
    file_id   BIGINT  NOT NULL,
    run_id    UUID    NOT NULL,
    day_index INTEGER NOT NULL,
    reads     INTEGER NOT NULL,
    writes    INTEGER NOT NULL,
    PRIMARY KEY (file_id, run_id, day_index)
);
";

/// Binds `run_id`.
pub const SQL_SELECT_RUN: &'static str =
    "SELECT last_dump_seq FROM runs WHERE run_id = CAST(? AS UUID)";

/// Binds `server`, `share`, `path`.
pub const SQL_SELECT_FILE: &'static str =
    "SELECT file_id FROM files WHERE server = ? AND share = ? AND path = ?";

/// Binds `alloc_bytes`, `restat`, `unresolved_share`, `ts`, `file_id`.
pub const SQL_UPDATE_FILE: &'static str = "UPDATE files
   SET alloc_bytes = ?, restat = ?, unresolved_share = ?,
       last_seen = CAST(? AS TIMESTAMP)
 WHERE file_id = ?";

/// Binds `server`, `share`, `path`, `alloc_bytes`, `restat`, `unresolved_share`,
/// `ts`, `ts`.
pub const SQL_INSERT_FILE: &'static str = "INSERT INTO files
       (server, share, path, alloc_bytes, restat, unresolved_share,
        first_seen, last_seen)
VALUES (?, ?, ?, ?, ?, ?, CAST(? AS TIMESTAMP), CAST(? AS TIMESTAMP))
RETURNING file_id";

/// Binds `file_id`, `run_id`, `day`, `reads`, `writes`.
pub const SQL_UPSERT_COUNT: &'static str =
    "INSERT INTO day_counts (file_id, run_id, day_index, reads, writes)
VALUES (?, CAST(? AS UUID), ?, ?, ?)
ON CONFLICT (file_id, run_id, day_index)
DO UPDATE SET reads = excluded.reads, writes = excluded.writes";

/// Binds `run_id`, `server`, `ts`, `seq`, `ts`.
pub const SQL_INSERT_RUN: &'static str =
    "INSERT INTO runs (run_id, server, started_at, last_dump_seq, last_dump_at)
VALUES (CAST(? AS UUID), ?, CAST(? AS TIMESTAMP), ?, CAST(? AS TIMESTAMP))";

/// Binds `seq`, `ts`, `run_id`.
pub const SQL_UPDATE_RUN: &'static str =
    "UPDATE runs SET last_dump_seq = ?, last_dump_at = CAST(? AS TIMESTAMP)
 WHERE run_id = CAST(? AS UUID)";

/// What the database answered.
#[derive(Debug, Clone)]
pub enum Reply {
    /// The last dump number of the run, where it is known.
    LastSeq(Option<i64>),
    /// The id of the file, where it is known.
    FoundFile(Option<i64>),
    /// The id of the new file.
    NewFile(i64),
    /// Done.
    Done,
    /// The statement failed.
    Failed(String),
}

// ---- the session ----------------------------------------------------------

/// Where a session stands: the statement that it is waiting for.
#[derive(Debug, Clone)]
pub enum Phase {
    /// The run's last dump number.
    Probe,
    /// The file of the current row.
    Find,
    /// The update of the current row's file.
    Touch { file_id: i64 },
    /// The insertion of the current row's file.
    Add,
    /// The counts of the current row.
    Count { file_id: i64 },
    /// The run's own row.
    Stamp,
    /// The commit.
    Commit,
    /// The rollback of a dump that was seen already.
    Rollback,
    /// Nothing more.
    Over(IngestOutcome),
    /// A statement failed.
    Failed(String),
}

/// The ingestion of one document.
pub struct IngestSession {
    server: String,
    run_id: String,
    seq: i64,
    ts: String,
    rows: Vec<DumpRow>,
    /// The current row.
    at: usize,
    /// Whether the run was known.
    known: bool,
    phase: Phase,
}

/// The mathematical value of a session's phase.
pub enum PhaseView {
    Probe,
    Find,
    Touch { file_id: i64 },
    Add,
    Count { file_id: i64 },
    Stamp,
    Commit,
    Rollback,
    Over(IngestOutcome),
    Failed(Seq<char>),
}

/// The mathematical value of a session.
#[verifier::ext_equal]
pub struct SessionView {
    pub server: Seq<char>,
    pub run_id: Seq<char>,
    pub seq: i64,
    pub ts: Seq<char>,
    pub rows: Seq<DumpView>,
    pub at: int,
    pub known: bool,
    pub phase: PhaseView,
}

impl View for Phase {
    type V = PhaseView;

    open spec fn view(&self) -> PhaseView {
        match self {
            Phase::Probe => PhaseView::Probe,
            Phase::Find => PhaseView::Find,
            Phase::Touch { file_id } => PhaseView::Touch { file_id: *file_id },
            Phase::Add => PhaseView::Add,
            Phase::Count { file_id } => PhaseView::Count { file_id: *file_id },
            Phase::Stamp => PhaseView::Stamp,
            Phase::Commit => PhaseView::Commit,
            Phase::Rollback => PhaseView::Rollback,
            Phase::Over(o) => PhaseView::Over(*o),
            Phase::Failed(e) => PhaseView::Failed(e@),
        }
    }
}

impl View for IngestSession {
    type V = SessionView;

    closed spec fn view(&self) -> SessionView {
        SessionView {
            server: self.server@,
            run_id: self.run_id@,
            seq: self.seq,
            ts: self.ts@,
            rows: dump_views(self.rows@),
            at: self.at as int,
            known: self.known,
            phase: self.phase@,
        }
    }
}

/// A number as a signed one of 64 bits, modulo 2^64.
pub open spec fn as_i64(v: u64) -> int {
    if v <= i64::MAX {
        v as int
    } else {
        v - 0x1_0000_0000_0000_0000
    }
}

/// What a row says about its file.
pub open spec fn facts_of(r: DumpView) -> FileFacts {
    FileFacts {
        alloc_bytes: match r.alloc_bytes {
            Some(v) => Some(as_i64(v) as i64),
            None => None,
        },
        restat: r.flags.contains("restat"@),
        unresolved_share: r.flags.contains("unresolved_share"@),
    }
}

impl SessionView {
    /// The current row.
    pub open spec fn row(self) -> DumpView {
        self.rows[self.at]
    }

    /// A row is at hand wherever the phase is about one.
    pub open spec fn inv(self) -> bool {
        &&& 0 <= self.at <= self.rows.len()
        &&& self.phase is Probe ==> self.at == 0
        &&& self.phase is Find || self.phase is Touch || self.phase is Add || self.phase is Count
            ==> self.at < self.rows.len()
    }

    /// The statement that the session is waiting for.
    pub open spec fn statement(self) -> Option<StatementView> {
        match self.phase {
            PhaseView::Probe => Some(StatementView::SelectRun { run_id: self.run_id }),
            PhaseView::Find => Some(
                StatementView::SelectFile {
                    server: self.server,
                    share: self.row().share,
                    path: self.row().path,
                },
            ),
            PhaseView::Touch { file_id } => Some(
                StatementView::UpdateFile { facts: facts_of(self.row()), ts: self.ts, file_id },
            ),
            PhaseView::Add => Some(
                StatementView::InsertFile {
                    server: self.server,
                    share: self.row().share,
                    path: self.row().path,
                    facts: facts_of(self.row()),
                    ts: self.ts,
                },
            ),
            PhaseView::Count { file_id } => Some(
                StatementView::UpsertCount {
                    file_id,
                    run_id: self.run_id,
                    day: self.row().day,
                    reads: self.row().reads as i64,
                    writes: self.row().writes as i64,
                },
            ),
            PhaseView::Stamp => Some(
                if self.known {
                    StatementView::UpdateRun { seq: self.seq, ts: self.ts, run_id: self.run_id }
                } else {
                    StatementView::InsertRun {
                        run_id: self.run_id,
                        server: self.server,
                        ts: self.ts,
                        seq: self.seq,
                    }
                },
            ),
            PhaseView::Commit => Some(StatementView::Commit),
            PhaseView::Rollback => Some(StatementView::Rollback),
            PhaseView::Over(_) => None,
            PhaseView::Failed(_) => None,
        }
    }

    /// The phase for row `at`: the next row, or the run's own row after the last.
    pub open spec fn phase_at(self, at: int) -> PhaseView {
        if at < self.rows.len() {
            PhaseView::Find
        } else {
            PhaseView::Stamp
        }
    }

    /// The session after a reply. One that does not belong to the statement counts
    /// as a failure.
    pub open spec fn after(self, reply: Reply) -> SessionView {
        let mismatch = PhaseView::Failed("unexpected reply"@);
        match reply {
            Reply::Failed(e) => SessionView { phase: PhaseView::Failed(e@), ..self },
            _ => match (self.phase, reply) {
                (PhaseView::Probe, Reply::LastSeq(None)) => SessionView {
                    known: false,
                    phase: self.phase_at(0),
                    ..self
                },
                (PhaseView::Probe, Reply::LastSeq(Some(prev))) => if self.seq <= prev {
                    SessionView { known: true, phase: PhaseView::Rollback, ..self }
                } else {
                    SessionView { known: true, phase: self.phase_at(0), ..self }
                },
                (PhaseView::Find, Reply::FoundFile(Some(file_id))) => SessionView {
                    phase: PhaseView::Touch { file_id },
                    ..self
                },
                (PhaseView::Find, Reply::FoundFile(None)) => SessionView {
                    phase: PhaseView::Add,
                    ..self
                },
                (PhaseView::Touch { file_id }, Reply::Done) => SessionView {
                    phase: PhaseView::Count { file_id },
                    ..self
                },
                (PhaseView::Add, Reply::NewFile(file_id)) => SessionView {
                    phase: PhaseView::Count { file_id },
                    ..self
                },
                (PhaseView::Count { .. }, Reply::Done) => SessionView {
                    at: self.at + 1,
                    phase: self.phase_at(self.at + 1),
                    ..self
                },
                (PhaseView::Stamp, Reply::Done) => SessionView { phase: PhaseView::Commit, ..self },
                (PhaseView::Commit, Reply::Done) => SessionView {
                    phase: PhaseView::Over(IngestOutcome::Accepted),
                    ..self
                },
                (PhaseView::Rollback, Reply::Done) => SessionView {
                    phase: PhaseView::Over(IngestOutcome::DedupeNoop),
                    ..self
                },
                _ => SessionView { phase: mismatch, ..self },
            },
        }
    }
}

/// The session that a header and rows begin, or why none begins.
pub open spec fn session_of(h: HeaderView, rows: Seq<DumpView>) -> Result<SessionView, ErrorView> {
    match h.emitted_at {
        None => Err(ErrorView::MissingEmittedAt),
        Some(ts) => match naive_utc(ts) {
            None => Err(ErrorView::NonUtcOffset(ts)),
            Some(naive) => Ok(
                SessionView {
                    server: h.server,
                    run_id: h.run_id,
                    seq: h.dump_seq as i64,
                    ts: naive,
                    rows,
                    at: 0,
                    known: false,
                    phase: PhaseView::Probe,
                },
            ),
        },
    }
}

fn has_flag(flags: &Vec<String>, flag: &str) -> (r: bool)
    ensures
        r == flags@.map_values(|f: String| f@).contains(flag@),
{
    let ghost all = flags@.map_values(|f: String| f@);
    let mut i: usize = 0;
    while i < flags.len()
        invariant
            i <= flags@.len(),
            all == flags@.map_values(|f: String| f@),
            forall|j: int| 0 <= j < i ==> #[trigger] all[j] != flag@,
        decreases flags@.len() - i,
    {
        assert(all[i as int] == flags@[i as int]@);
        if same_text(flags[i].as_str(), flag) {
            return true;
        }
        i = i + 1;
    }
    false
}

fn signed_64(v: u64) -> (r: i64)
    ensures
        r == as_i64(v),
{
    if v <= i64::MAX as u64 {
        v as i64
    } else {
        -((u64::MAX - v) as i64) - 1
    }
}

fn row_facts(row: &DumpRow) -> (r: FileFacts)
    ensures
        r == facts_of(row@),
{
    FileFacts {
        alloc_bytes: match row.alloc_bytes {
            Some(v) => Some(signed_64(v)),
            None => None,
        },
        restat: has_flag(&row.flags, "restat"),
        unresolved_share: has_flag(&row.flags, "unresolved_share"),
    }
}

impl IngestSession {
    /// The session is well formed.
    pub closed spec fn wf(&self) -> bool {
        self@.inv()
    }

    /// Begin the ingestion of a document.
    pub fn begin(header: &Header, rows: Vec<DumpRow>) -> (r: Result<IngestSession, IngestError>)
        ensures
            match r {
                Ok(s) => s.wf() && session_of(header@, dump_views(rows@)) == Ok::<
                    SessionView,
                    ErrorView,
                >(s@),
                Err(e) => session_of(header@, dump_views(rows@)) == Err::<SessionView, ErrorView>(
                    e@,
                ),
            },
    {
        let emitted_at = match &header.emitted_at {
            Some(ts) => ts,
            None => {
                return Err(IngestError::MissingEmittedAt);
            },
        };
        match strip_utc_suffix(emitted_at.as_str()) {
            Some(ts) => Ok(
                IngestSession {
                    server: header.server.clone(),
                    run_id: header.run_id.clone(),
                    seq: header.dump_seq as i64,
                    ts: ts.to_owned(),
                    rows,
                    at: 0,
                    known: false,
                    phase: Phase::Probe,
                },
            ),
            None => Err(IngestError::NonUtcOffset(emitted_at.clone())),
        }
    }

    /// The statement to run now; none when the session is over.
    pub fn statement(&self) -> (r: Option<Statement>)
        requires
            self.wf(),
        ensures
            match r {
                Some(s) => self@.statement() == Some(s@),
                None => self@.statement() is None,
            },
    {
        assert(self.at < self.rows@.len() ==> self@.row() == self.rows@[self.at as int]@);
        match &self.phase {
            Phase::Probe => Some(Statement::SelectRun { run_id: self.run_id.clone() }),
            Phase::Find => {
                let row = &self.rows[self.at];
                Some(
                    Statement::SelectFile {
                        server: self.server.clone(),
                        share: row.share.clone(),
                        path: row.path.clone(),
                    },
                )
            },
            Phase::Touch { file_id } => Some(
                Statement::UpdateFile {
                    facts: row_facts(&self.rows[self.at]),
                    ts: self.ts.clone(),
                    file_id: *file_id,
                },
            ),
            Phase::Add => {
                let row = &self.rows[self.at];
                Some(
                    Statement::InsertFile {
                        server: self.server.clone(),
                        share: row.share.clone(),
                        path: row.path.clone(),
                        facts: row_facts(row),
                        ts: self.ts.clone(),
                    },
                )
            },
            Phase::Count { file_id } => {
                let row = &self.rows[self.at];
                Some(
                    Statement::UpsertCount {
                        file_id: *file_id,
                        run_id: self.run_id.clone(),
                        day: row.day,
                        reads: row.reads as i64,
                        writes: row.writes as i64,
                    },
                )
            },
            Phase::Stamp => Some(
                if self.known {
                    Statement::UpdateRun {
                        seq: self.seq,
                        ts: self.ts.clone(),
                        run_id: self.run_id.clone(),
                    }
                } else {
                    Statement::InsertRun {
                        run_id: self.run_id.clone(),
                        server: self.server.clone(),
                        ts: self.ts.clone(),
                        seq: self.seq,
                    }
                },
            ),
            Phase::Commit => Some(Statement::Commit),
            Phase::Rollback => Some(Statement::Rollback),
            Phase::Over(_) => None,
            Phase::Failed(_) => None,
        }
    }

    fn phase_for(&self, at: usize) -> (r: Phase)
        ensures
            r@ == self@.phase_at(at as int),
    {
        if at < self.rows.len() {
            Phase::Find
        } else {
            Phase::Stamp
        }
    }

    /// Take the reply to the statement.
    pub fn advance(&mut self, reply: Reply)
        requires
            old(self).wf(),
        ensures
            final(self).wf(),
            final(self)@ == old(self)@.after(reply),
    {
        let ghost before = self@;
        if let Reply::Failed(e) = reply {
            self.phase = Phase::Failed(e);
            assert(self@ =~= before.after(reply));
            return;
        }
        match (&self.phase, &reply) {
            (Phase::Probe, Reply::LastSeq(None)) => {
                self.known = false;
                self.phase = self.phase_for(0);
            },
            (Phase::Probe, Reply::LastSeq(Some(prev))) => {
                self.known = true;
                if self.seq <= *prev {
                    self.phase = Phase::Rollback;
                } else {
                    self.phase = self.phase_for(0);
                }
            },
            (Phase::Find, Reply::FoundFile(Some(file_id))) => {
                self.phase = Phase::Touch { file_id: *file_id };
            },
            (Phase::Find, Reply::FoundFile(None)) => {
                self.phase = Phase::Add;
            },
            (Phase::Touch { file_id }, Reply::Done) => {
                self.phase = Phase::Count { file_id: *file_id };
            },
            (Phase::Add, Reply::NewFile(file_id)) => {
                self.phase = Phase::Count { file_id: *file_id };
            },
            (Phase::Count { .. }, Reply::Done) => {
                assert(self.at < self.rows.len());
                let next = self.at + 1;
                self.phase = self.phase_for(next);
                self.at = next;
            },
            (Phase::Stamp, Reply::Done) => {
                self.phase = Phase::Commit;
            },
            (Phase::Commit, Reply::Done) => {
                self.phase = Phase::Over(IngestOutcome::Accepted);
            },
            (Phase::Rollback, Reply::Done) => {
                self.phase = Phase::Over(IngestOutcome::DedupeNoop);
            },
            _ => {
                self.phase = Phase::Failed("unexpected reply".to_owned());
            },
        }
        assert(self@ =~= before.after(reply));
    }

    /// What the session came to; nothing while it waits for a statement.
    pub fn outcome(&self) -> (r: Option<Result<IngestOutcome, IngestError>>)
        ensures
            match r {
                None => self@.statement() is Some,
                Some(Ok(o)) => self@.phase == PhaseView::Over(o),
                Some(Err(e)) => self@.phase is Failed && e@ == ErrorView::Db(self@.phase->Failed_0),
            },
    {
        match &self.phase {
            Phase::Over(o) => Some(Ok(*o)),
            Phase::Failed(e) => Some(Err(IngestError::Db(e.clone()))),
            _ => None,
        }
    }
}

} // verus!
