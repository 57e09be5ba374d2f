//! One request to the collector, end to end: route, read, classify, archive, ingest,
//! log, respond. Each step takes what the last one brought and says what to do next;
//! the last is always one response with one log line. The archive comes before the
//! database: it is the record, and the replay source.

use crate::db::{DumpRow, ErrorView, IngestError, IngestOutcome};
use crate::ingest::{
    archive_rel_path, classify, disposition, dump_file_name, lemma_uuid_first_8, naming_ok, run8,
    Disposition, DispositionView, Header, HeaderView,
};
use crate::json::{json_quote, json_quoted};
use crate::split::{first_at, lemma_first_at, split_once};
use crate::text::{dec, fmt_dec, push_dec, push_dec_wide, same_text};
use vstd::prelude::*;

verus! {

/// A cap against a runaway client: a larger body is refused before anything is
/// archived.
pub const MAX_BODY: usize = 268_435_456;

/// The method of a request.
#[derive(Debug, Clone, Copy, PartialEq, Eq, Structural)]
pub enum Method {
    Get,
    Post,
    Other,
}

/// A file of the dashboard.
#[derive(Debug, Clone, Copy, PartialEq, Eq, Structural)]
pub enum Asset {
    Page,
    Script,
    Style,
}

/// Where a request goes.
#[derive(Debug, Clone, Copy, PartialEq, Eq, Structural)]
pub enum Route {
    Ingest,
    Leaderboard,
    Children,
    Health,
    Dashboard(Asset),
    NotFound,
}

/// The path of a URL, without its query.
pub open spec fn url_path(url: Seq<char>) -> Seq<char> {
    url.take(first_at(url, '?'))
}

/// The query of a URL; empty where it has none.
pub open spec fn url_query(url: Seq<char>) -> Seq<char> {
    if first_at(url, '?') < url.len() {
        url.skip(first_at(url, '?') + 1)
    } else {
        Seq::empty()
    }
}

/// Documents are posted to `/ingest`; with a database, queries are got from `/api`; the
/// dashboard is got from `/`, its script from `/app.js` and its style from `/style.css`.
/// There is nothing else.
pub open spec fn route_of(method: Method, url: Seq<char>, has_db: bool) -> Route {
    let path = url_path(url);
    if method == Method::Post && path == "/ingest"@ {
        Route::Ingest
    } else if method == Method::Get && has_db && path == "/api/leaderboard"@ {
        Route::Leaderboard
    } else if method == Method::Get && has_db && path == "/api/children"@ {
        Route::Children
    } else if method == Method::Get && has_db && path == "/api/health"@ {
        Route::Health
    } else if method == Method::Get && path == "/"@ {
        Route::Dashboard(Asset::Page)
    } else if method == Method::Get && path == "/app.js"@ {
        Route::Dashboard(Asset::Script)
    } else if method == Method::Get && path == "/style.css"@ {
        Route::Dashboard(Asset::Style)
    } else {
        Route::NotFound
    }
}

/// The content type of a file of the dashboard.
pub open spec fn content_type_of(asset: Asset) -> Seq<char> {
    match asset {
        Asset::Page => "text/html; charset=utf-8"@,
        Asset::Script => "text/javascript; charset=utf-8"@,
        Asset::Style => "text/css; charset=utf-8"@,
    }
}

impl Asset {
    /// The content type that the file is served with.
    pub fn content_type(&self) -> (r: &'static str)
        ensures
            r@ == content_type_of(*self),
    {
        match self {
            Asset::Page => "text/html; charset=utf-8",
            Asset::Script => "text/javascript; charset=utf-8",
            Asset::Style => "text/css; charset=utf-8",
        }
    }
}

/// Route a request: where it goes, and its query.
pub fn route<'a>(method: Method, url: &'a str, has_db: bool) -> (r: (Route, &'a str))
    ensures
        r.0 == route_of(method, url@, has_db),
        r.1@ == url_query(url@),
{
    proof {
        lemma_first_at(url@, '?');
        reveal_strlit("");
        assert(""@ =~= Seq::empty());
        assert(url@.take(url@.len() as int) =~= url@);
    }
    let (path, query) = match split_once(url, '?') {
        Some((p, q)) => (p, q),
        None => (url, ""),
    };
    let to = if method == Method::Post && same_text(path, "/ingest") {
        Route::Ingest
    } else if method == Method::Get && has_db && same_text(path, "/api/leaderboard") {
        Route::Leaderboard
    } else if method == Method::Get && has_db && same_text(path, "/api/children") {
        Route::Children
    } else if method == Method::Get && has_db && same_text(path, "/api/health") {
        Route::Health
    } else if method == Method::Get && same_text(path, "/") {
        Route::Dashboard(Asset::Page)
    } else if method == Method::Get && same_text(path, "/app.js") {
        Route::Dashboard(Asset::Script)
    } else if method == Method::Get && same_text(path, "/style.css") {
        Route::Dashboard(Asset::Style)
    } else {
        Route::NotFound
    };
    (to, query)
}

/// What is logged of a request; `-` stands for what is not known.
#[derive(Debug, Clone)]
pub struct LogEntry {
    pub server: String,
    pub run: String,
    pub seq: String,
    pub rows: String,
    pub status: u16,
    pub reason: String,
}

/// The end of a request: its response, with a text or empty, and its log entry.
#[derive(Debug, Clone)]
pub struct Finish {
    pub body: Option<String>,
    pub entry: LogEntry,
}

/// The mathematical value of the end of a request.
pub struct FinishView {
    pub body: Option<Seq<char>>,
    pub server: Seq<char>,
    pub run: Seq<char>,
    pub seq: Seq<char>,
    pub rows: Seq<char>,
    pub status: u16,
    pub reason: Seq<char>,
}

impl View for Finish {
    type V = FinishView;

    open spec fn view(&self) -> FinishView {
        FinishView {
            body: crate::text::opt_text(self.body),
            server: self.entry.server@,
            run: self.entry.run@,
            seq: self.entry.seq@,
            rows: self.entry.rows@,
            status: self.entry.status,
            reason: self.entry.reason@,
        }
    }
}

/// The end of a request of nobody known.
pub open spec fn anonymous(body: Option<Seq<char>>, status: u16, reason: Seq<char>) -> FinishView {
    FinishView { body, server: "-"@, run: "-"@, seq: "-"@, rows: "-"@, status, reason }
}

/// What identifies a document in the log: its server, the first 8 characters of its
/// run's id, and its number.
pub open spec fn identity_of(d: DispositionView) -> (Seq<char>, Seq<char>, Seq<char>) {
    match d {
        DispositionView::Malformed { .. } => ("-"@, "-"@, "-"@),
        DispositionView::Rejected { header, .. } => header_identity(header),
        DispositionView::Accepted { header, .. } => header_identity(header),
    }
}

pub open spec fn header_identity(h: HeaderView) -> (Seq<char>, Seq<char>, Seq<char>) {
    (
        h.server,
        if h.run_id.len() < 8 {
            h.run_id
        } else {
            h.run_id.take(8)
        },
        dec(h.dump_seq as nat),
    )
}

/// The end of a request whose document is known that far.
pub open spec fn identified(
    d: DispositionView,
    rows: Seq<char>,
    body: Option<Seq<char>>,
    status: u16,
    reason: Seq<char>,
) -> FinishView {
    let (server, run, seq) = identity_of(d);
    FinishView { body, server, run, seq, rows, status, reason }
}

fn dash() -> (r: String)
    ensures
        r@ == "-"@,
{
    "-".to_owned()
}

fn finish_anonymous(body: Option<String>, status: u16, reason: String) -> (r: Finish)
    ensures
        r@ == anonymous(crate::text::opt_text(body), status, reason@),
{
    Finish {
        body,
        entry: LogEntry { server: dash(), run: dash(), seq: dash(), rows: dash(), status, reason },
    }
}

/// The loggable identity of a disposition. A malformed document has none to trust.
pub fn log_identity(d: &Disposition) -> (r: (String, String, String))
    ensures
        (r.0@, r.1@, r.2@) == identity_of(d@),
{
    match d {
        Disposition::Malformed { .. } => (dash(), dash(), dash()),
        Disposition::Rejected { header, .. } => (
            header.server.clone(),
            run8(header.run_id.as_str()),
            fmt_dec(header.dump_seq as u64),
        ),
        Disposition::Accepted { header, .. } => (
            header.server.clone(),
            run8(header.run_id.as_str()),
            fmt_dec(header.dump_seq as u64),
        ),
    }
}

fn finish_identified(
    d: &Disposition,
    rows: String,
    body: Option<String>,
    status: u16,
    reason: String,
) -> (r: Finish)
    ensures
        r@ == identified(d@, rows@, crate::text::opt_text(body), status, reason@),
{
    let (server, run, seq) = log_identity(d);
    Finish { body, entry: LogEntry { server, run, seq, rows, status, reason } }
}

/// The end of a request that goes nowhere.
pub fn no_route() -> (r: Finish)
    ensures
        r@ == anonymous(None, 404, "no route"@),
{
    finish_anonymous(None, 404, "no route".to_owned())
}

/// An error as a JSON object.
pub open spec fn error_object(e: Seq<char>) -> Seq<char> {
    "{\"error\":"@ + json_quoted(e) + "}"@
}

/// How a query is answered: a refused one with 400 and why, one that the database
/// failed with 500, any other with its JSON.
pub open spec fn query_answer(result: Result<Result<String, String>, String>) -> FinishView {
    match result {
        Ok(Ok(json)) => anonymous(Some(json@), 200, "ok"@),
        Ok(Err(e)) => anonymous(Some(error_object(e@)), 500, "db error: "@ + e@),
        Err(e) => anonymous(Some(error_object(e@)), 400, e@),
    }
}

fn fmt_error_object(e: &str) -> (r: String)
    ensures
        r@ == error_object(e@),
{
    let mut s = "{\"error\":".to_owned();
    s.append(json_quote(e).as_str());
    s.append("}");
    s
}

/// Answer a query: `result` is why it was refused, or what the database made of it.
pub fn answer_query(result: &Result<Result<String, String>, String>) -> (r: Finish)
    ensures
        r@ == query_answer(*result),
{
    match result {
        Ok(Ok(json)) => finish_anonymous(Some(json.clone()), 200, "ok".to_owned()),
        Ok(Err(e)) => {
            let mut reason = "db error: ".to_owned();
            reason.append(e.as_str());
            finish_anonymous(Some(fmt_error_object(e.as_str())), 500, reason)
        },
        Err(e) => finish_anonymous(Some(fmt_error_object(e.as_str())), 400, e.clone()),
    }
}

/// Answer a request for a file of the dashboard, given its text.
pub fn answer_asset(text: &str) -> (r: Finish)
    ensures
        r@ == anonymous(Some(text@), 200, "ok"@),
{
    finish_anonymous(Some(text.to_owned()), 200, "ok".to_owned())
}

/// Where a document is archived, below the archive's root.
pub open spec fn archive_path(d: DispositionView, unix_millis: nat) -> Seq<char> {
    match d {
        DispositionView::Malformed { .. } => malformed_path(unix_millis),
        DispositionView::Rejected { header, .. } => trusted_path(header),
        DispositionView::Accepted { header, .. } => trusted_path(header),
    }
}

/// The place of a document without a trusted identity: by the time it came.
pub open spec fn malformed_path(unix_millis: nat) -> Seq<char> {
    "_malformed/"@ + dec(unix_millis) + ".ndjson"@
}

/// The place of a document with a valid header.
pub open spec fn trusted_path(h: HeaderView) -> Seq<char> {
    h.server + "/"@ + dump_file_name(h.run_id.take(8), h.dump_seq)
}

/// The place of a document without a trusted identity.
pub fn malformed_rel_path(unix_millis: u128) -> (r: String)
    ensures
        r@ == malformed_path(unix_millis as nat),
{
    let mut s = "_malformed/".to_owned();
    push_dec_wide(&mut s, unix_millis);
    s.append(".ndjson");
    s
}

/// What follows the reading of a body.
pub enum AfterRead {
    /// Archive the body at a path below the archive's root.
    Store { disposition: Disposition, rel_path: String },
    /// Done.
    Finish(Finish),
}

/// Decide on a body that was read, to at most one byte over the cap, at a time in
/// milliseconds since 1970-01-01.
pub fn after_read(body: &Result<Vec<u8>, String>, unix_millis: u128) -> (r: AfterRead)
    ensures
        match body {
            Err(e) => r is Finish && r->Finish_0@ == anonymous(
                Some("read error: "@ + e@),
                400,
                "body read error"@,
            ),
            Ok(b) => if b@.len() > MAX_BODY {
                r is Finish && r->Finish_0@ == anonymous(
                    Some("body exceeds 256 MiB"@),
                    400,
                    "body exceeds 256 MiB"@,
                )
            } else {
                &&& r is Store
                &&& r->disposition@ == disposition(b@)
                &&& r->rel_path@ == archive_path(disposition(b@), unix_millis as nat)
            },
        },
{
    match body {
        Err(e) => {
            let mut s = "read error: ".to_owned();
            s.append(e.as_str());
            AfterRead::Finish(finish_anonymous(Some(s), 400, "body read error".to_owned()))
        },
        Ok(b) => {
            if b.len() > MAX_BODY {
                return AfterRead::Finish(
                    finish_anonymous(
                        Some("body exceeds 256 MiB".to_owned()),
                        400,
                        "body exceeds 256 MiB".to_owned(),
                    ),
                );
            }
            let disposition = classify(b.as_slice());
            let rel_path = match &disposition {
                Disposition::Malformed { .. } => malformed_rel_path(unix_millis),
                Disposition::Rejected { header, .. } => place(header),
                Disposition::Accepted { header, .. } => place(header),
            };
            AfterRead::Store { disposition, rel_path }
        },
    }
}

fn place(h: &Header) -> (r: String)
    requires
        naming_ok(h@),
    ensures
        r@ == trusted_path(h@),
{
    proof {
        lemma_uuid_first_8(h.run_id@);
    }
    archive_rel_path(h.server.as_str(), h.run_id.as_str(), h.dump_seq)
}

/// The reason logged for an ingestion, and its status.
pub open spec fn ingest_reason(result: Result<IngestOutcome, IngestError>) -> (u16, Seq<char>) {
    match result {
        Ok(IngestOutcome::Accepted) => (200u16, "accepted"@),
        Ok(IngestOutcome::DedupeNoop) => (200u16, "dedupe-noop"@),
        Err(e) => (500u16, "db error: "@ + error_text(e@)),
    }
}

/// An ingestion error in words.
pub open spec fn error_text(e: ErrorView) -> Seq<char> {
    match e {
        ErrorView::MissingEmittedAt => "header missing emitted_at"@,
        ErrorView::NonUtcOffset(ts) => "emitted_at has a non-UTC offset: "@ + ts,
        ErrorView::Db(e) => e,
    }
}

/// How a posted document is answered, archiving and ingestion having gone as said;
/// without a database there is no ingestion.
pub open spec fn answered(
    d: DispositionView,
    archived: Result<(), String>,
    ingested: Option<Result<IngestOutcome, IngestError>>,
) -> FinishView {
    match archived {
        Err(e) => identified(d, "-"@, Some("archive write failed"@), 500, "archive failed: "@ + e@),
        Ok(_) => match d {
            DispositionView::Malformed { reason } => identified(d, "-"@, Some(reason), 400, reason),
            DispositionView::Rejected { reason, .. } => identified(
                d,
                "-"@,
                Some(reason),
                400,
                reason,
            ),
            DispositionView::Accepted { rows, .. } => match ingested {
                None => identified(d, dec(rows as nat), None, 200, "ok"@),
                Some(result) => ingest_answer(d, rows, result),
            },
        },
    }
}

/// How an accepted document is answered after its ingestion.
pub open spec fn ingest_answer(
    d: DispositionView,
    rows: usize,
    result: Result<IngestOutcome, IngestError>,
) -> FinishView {
    identified(
        d,
        dec(rows as nat),
        if result is Ok {
            None
        } else {
            Some("db ingest failed"@)
        },
        ingest_reason(result).0,
        ingest_reason(result).1,
    )
}

/// What follows the archiving of a body.
pub enum AfterStore {
    /// Ingest the document into the database.
    Ingest,
    /// Done.
    Finish(Finish),
}

/// Decide on a document after it was archived, or could not be. A failure to archive
/// is the operator's problem, not the client's.
pub fn after_store(d: &Disposition, archived: &Result<(), String>, has_db: bool) -> (r: AfterStore)
    ensures
        if archived is Ok && d@ is Accepted && has_db {
            r is Ingest
        } else {
            r is Finish && r->Finish_0@ == answered(d@, *archived, None)
        },
{
    match archived {
        Err(e) => {
            let mut s = "archive failed: ".to_owned();
            s.append(e.as_str());
            AfterStore::Finish(
                finish_identified(d, dash(), Some("archive write failed".to_owned()), 500, s),
            )
        },
        Ok(_) => match d {
            Disposition::Malformed { reason } => AfterStore::Finish(
                finish_identified(d, dash(), Some(reason.clone()), 400, reason.clone()),
            ),
            Disposition::Rejected { reason, .. } => AfterStore::Finish(
                finish_identified(d, dash(), Some(reason.clone()), 400, reason.clone()),
            ),
            Disposition::Accepted { rows, .. } => if has_db {
                AfterStore::Ingest
            } else {
                AfterStore::Finish(
                    finish_identified(d, fmt_dec(*rows as u64), None, 200, "ok".to_owned()),
                )
            },
        },
    }
}

/// Decide on an accepted document that is to be ingested after its rows were read. One
/// with a row that cannot be read is answered as a rejected document is; without one
/// nothing is decided yet.
pub fn after_rows(d: &Disposition, rows: &Result<Vec<DumpRow>, String>) -> (r: Option<Finish>)
    ensures
        match (d@, rows) {
            (DispositionView::Accepted { header, .. }, Err(reason)) => r is Some && r->0@
                == answered(
                DispositionView::Rejected { header, reason: reason@ },
                Ok(()),
                None,
            ),
            _ => r is None,
        },
{
    match (d, rows) {
        (Disposition::Accepted { .. }, Err(reason)) => Some(
            finish_identified(d, dash(), Some(reason.clone()), 400, reason.clone()),
        ),
        _ => None,
    }
}

/// Decide on an accepted document after its ingestion. Where that failed, the archived
/// document is the replay source.
pub fn after_ingest(
    d: &Disposition,
    rows: usize,
    result: &Result<IngestOutcome, IngestError>,
) -> (r: Finish)
    ensures
        r@ == ingest_answer(d@, rows, *result),
        d@ is Accepted && d@->rows == rows ==> r@ == answered(d@, Ok(()), Some(*result)),
{
    let n = fmt_dec(rows as u64);
    match result {
        Ok(IngestOutcome::Accepted) => finish_identified(d, n, None, 200, "accepted".to_owned()),
        Ok(IngestOutcome::DedupeNoop) => finish_identified(
            d,
            n,
            None,
            200,
            "dedupe-noop".to_owned(),
        ),
        Err(e) => {
            let mut s = "db error: ".to_owned();
            s.append(e.message().as_str());
            finish_identified(d, n, Some("db ingest failed".to_owned()), 500, s)
        },
    }
}

/// The log line of a request.
pub open spec fn log_text(ts: Seq<char>, ip: Seq<char>, f: FinishView, db: Seq<char>) -> Seq<char> {
    ts + " ip="@ + ip + " server="@ + f.server + " run="@ + f.run + " seq="@ + f.seq + " rows="@
        + f.rows + " status="@ + dec(f.status as nat) + " reason="@ + f.reason + " db="@ + db
}

/// The log line of a request: the time, the client's address, the document's
/// identity, its rows, the status, a short reason, and the database in use.
pub fn log_line(ts: &str, ip: &str, f: &Finish, db: &str) -> (r: String)
    ensures
        r@ == log_text(ts@, ip@, f@, db@),
{
    let e = &f.entry;
    let mut s = ts.to_owned();
    s.append(" ip=");
    s.append(ip);
    s.append(" server=");
    s.append(e.server.as_str());
    s.append(" run=");
    s.append(e.run.as_str());
    s.append(" seq=");
    s.append(e.seq.as_str());
    s.append(" rows=");
    s.append(e.rows.as_str());
    s.append(" status=");
    push_dec(&mut s, e.status as u64);
    s.append(" reason=");
    s.append(e.reason.as_str());
    s.append(" db=");
    s.append(db);
    s
}

/// The line appended to the startup log.
pub fn startup_line(ts: &str, bind: &str, archive: &str, db: &str, engine: &str) -> (r: String)
    ensures
        r@ == ts@ + " bind="@ + bind@ + " archive="@ + archive@ + " db="@ + db@ + " engine="@
            + engine@ + "\n"@,
{
    let mut s = ts.to_owned();
    s.append(" bind=");
    s.append(bind);
    s.append(" archive=");
    s.append(archive);
    s.append(" db=");
    s.append(db);
    s.append(" engine=");
    s.append(engine);
    s.append("\n");
    s
}

/// A query is answered with 200 exactly where it was taken and the database answered,
/// with 400 exactly where it was refused, and else with 500; it names no document.
pub proof fn law_query_answers(result: Result<Result<String, String>, String>)
    ensures
        query_answer(result).status == 200 <==> result is Ok && result->Ok_0 is Ok,
        query_answer(result).status == 400 <==> result is Err,
        query_answer(result).status == 500 <==> result is Ok && result->Ok_0 is Err,
        query_answer(result).body is Some,
        query_answer(result).server == "-"@ && query_answer(result).rows == "-"@,
{
}

/// A response says 200 exactly where the document was accepted and archived, and, where
/// there is a database, ingested or seen already. It says 400 exactly where the document
/// was archived but not accepted; the body is then the reason that is logged.
pub proof fn law_answers(
    d: DispositionView,
    archived: Result<(), String>,
    ingested: Option<Result<IngestOutcome, IngestError>>,
)
    ensures
        answered(d, archived, ingested).status == 200 <==> {
            &&& archived is Ok
            &&& d is Accepted
            &&& ingested is Some ==> ingested->0 is Ok
        },
        answered(d, archived, ingested).status == 400 <==> archived is Ok && !(d is Accepted),
        answered(d, archived, ingested).status == 400 ==> answered(d, archived, ingested).body
            == Some(answered(d, archived, ingested).reason),
{
}

} // verus!
