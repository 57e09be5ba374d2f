//! Where a request goes and how it is answered.

use crate::db::{ErrorView, IngestError, IngestOutcome};
use crate::ingest::{DispositionView, HeaderView};
use crate::json::json_quoted;
use crate::server::{
    answered, archive_path, content_type_of, error_text, identity_of, log_text, query_answer,
    route_of, url_query, Asset, FinishView, Method, Route, MAX_BODY,
};
use crate::split::lemma_first_at_is;
use crate::text::dec;
use vstd::prelude::*;

verus! {

// ---- routes ---------------------------------------------------------------

/// A request is routed by its method and by what stands before the first question mark
/// of its URL; what stands behind it is the query and decides nothing.
pub proof fn law_routes(method: Method, path: Seq<char>, query: Seq<char>, has_db: bool)
    requires
        !path.contains('?'),
    ensures
        ({
            let plain = route_of(method, path, has_db);
            &&& route_of(method, path + "?"@ + query, has_db) == plain
            &&& url_query(path + "?"@ + query) == query
            &&& url_query(path).len() == 0
            &&& plain == Route::Ingest <==> method == Method::Post && path == "/ingest"@
            &&& plain == Route::Leaderboard <==> method == Method::Get && has_db && path
                == "/api/leaderboard"@
            &&& plain == Route::Children <==> method == Method::Get && has_db && path
                == "/api/children"@
            &&& plain == Route::Health <==> method == Method::Get && has_db && path
                == "/api/health"@
            &&& plain == Route::Dashboard(Asset::Page) <==> method == Method::Get && path == "/"@
            &&& plain == Route::Dashboard(Asset::Script) <==> method == Method::Get && path
                == "/app.js"@
            &&& plain == Route::Dashboard(Asset::Style) <==> method == Method::Get && path
                == "/style.css"@
        }),
{
    reveal_strlit("?");
    let url = path + "?"@ + query;
    assert(url[path.len() as int] == '?');
    assert forall|i: int| 0 <= i < path.len() implies path[i] != '?' && url[i] != '?' by {
        assert(path.contains(path[i]));
    }
    lemma_first_at_is(url, '?', path.len() as int);
    lemma_first_at_is(path, '?', path.len() as int);
    assert(url.take(path.len() as int) =~= path);
    assert(path.take(path.len() as int) =~= path);
    assert(url.skip(path.len() as int + 1) =~= query);
    reveal_strlit("/ingest");
    reveal_strlit("/api/leaderboard");
    reveal_strlit("/api/children");
    reveal_strlit("/api/health");
    reveal_strlit("/");
    reveal_strlit("/app.js");
    reveal_strlit("/style.css");
    assert("/ingest"@.len() == 7 && "/app.js"@.len() == 7 && "/style.css"@.len() == 10);
    assert("/api/leaderboard"@.len() == 16 && "/api/children"@.len() == 13);
    assert("/api/health"@.len() == 11 && "/"@.len() == 1);
}

/// The files of the dashboard are served as what they are.
pub proof fn law_content_types()
    ensures
        content_type_of(Asset::Page) == "text/html; charset=utf-8"@,
        content_type_of(Asset::Script) == "text/javascript; charset=utf-8"@,
        content_type_of(Asset::Style) == "text/css; charset=utf-8"@,
{
}

// ---- answers --------------------------------------------------------------

/// A posted document's answer, by how far it came. A failure to archive is reported
/// whatever the document is; then a document that is not accepted is told why; then the
/// ingestion, where there is one, decides.
pub proof fn law_document_answers(
    d: DispositionView,
    e: String,
    ingested: Option<Result<IngestOutcome, IngestError>>,
)
    ensures
        ({
            let lost = answered(d, Err(e), ingested);
            &&& lost.status == 500
            &&& lost.body == Some("archive write failed"@)
            &&& lost.reason == "archive failed: "@ + e@
            &&& lost.rows == "-"@
        }),
        ({
            let a = answered(d, Ok(()), ingested);
            match d {
                DispositionView::Malformed { reason } => {
                    a.status == 400 && a.body == Some(reason) && a.reason == reason && a.rows
                        == "-"@
                },
                DispositionView::Rejected { reason, .. } => {
                    a.status == 400 && a.body == Some(reason) && a.reason == reason && a.rows
                        == "-"@
                },
                DispositionView::Accepted { rows, .. } => {
                    &&& a.rows == dec(rows as nat)
                    &&& match ingested {
                        None => a.status == 200 && a.body is None && a.reason == "ok"@,
                        Some(Ok(IngestOutcome::Accepted)) => a.status == 200 && a.body is None
                            && a.reason == "accepted"@,
                        Some(Ok(IngestOutcome::DedupeNoop)) => a.status == 200 && a.body is None
                            && a.reason == "dedupe-noop"@,
                        Some(Err(f)) => a.status == 500 && a.body == Some("db ingest failed"@)
                            && a.reason == "db error: "@ + error_text(f@),
                    }
                },
            }
        }),
{
}

/// An ingestion error in words.
pub proof fn law_ingest_errors(t: Seq<char>)
    ensures
        error_text(ErrorView::MissingEmittedAt) == "header missing emitted_at"@,
        error_text(ErrorView::NonUtcOffset(t)) == "emitted_at has a non-UTC offset: "@ + t,
        error_text(ErrorView::Db(t)) == t,
{
}

/// Every answer to a document names it by its server, the first eight characters of its
/// run and its number, where its header was taken, and by hyphens where it was not.
pub proof fn law_answers_name_the_document(
    d: DispositionView,
    archived: Result<(), String>,
    ingested: Option<Result<IngestOutcome, IngestError>>,
)
    ensures
        ({
            let a = answered(d, archived, ingested);
            let named = |h: HeaderView|
                {
                    &&& a.server == h.server
                    &&& a.seq == dec(h.dump_seq as nat)
                    &&& h.run_id.len() >= 8 ==> a.run == h.run_id.take(8)
                    &&& h.run_id.len() < 8 ==> a.run == h.run_id
                };
            &&& (a.server, a.run, a.seq) == identity_of(d)
            &&& match d {
                DispositionView::Malformed { .. } => a.server == "-"@ && a.run == "-"@ && a.seq
                    == "-"@,
                DispositionView::Rejected { header, .. } => named(header),
                DispositionView::Accepted { header, .. } => named(header),
            }
        }),
{
}

/// A query's answer: its JSON, or an object with what went wrong, whether the query was
/// refused or the database failed.
pub proof fn law_query_answer_bodies(json: String, e: String)
    ensures
        ({
            let a = query_answer(Ok(Ok(json)));
            a.body == Some(json@) && a.status == 200 && a.reason == "ok"@
        }),
        ({
            let a = query_answer(Ok(Err(e)));
            a.body == Some("{\"error\":"@ + json_quoted(e@) + "}"@) && a.status == 500 && a.reason
                == "db error: "@ + e@
        }),
        ({
            let a = query_answer(Err(e));
            a.body == Some("{\"error\":"@ + json_quoted(e@) + "}"@) && a.status == 400 && a.reason
                == e@
        }),
        forall|r: Result<Result<String, String>, String>|
            {
                let a = #[trigger] query_answer(r);
                a.server == "-"@ && a.run == "-"@ && a.seq == "-"@ && a.rows == "-"@
            },
{
}

/// A body may have 256 MiB.
pub proof fn law_body_cap()
    ensures
        MAX_BODY == 256 * 1024 * 1024,
{
}

// ---- where a document is kept ---------------------------------------------

/// A document whose header was taken is kept in its server's directory under its run
/// and its number, accepted or not; one without a header by the time that it came.
pub proof fn law_archive_places(
    h: HeaderView,
    rows: usize,
    reason: Seq<char>,
    millis: nat,
    later: nat,
)
    ensures
        archive_path(DispositionView::Accepted { header: h, rows }, millis) == h.server + "/"@ + (
        h.run_id.take(8) + "-"@ + dec(h.dump_seq as nat) + ".ndjson"@),
        archive_path(DispositionView::Rejected { header: h, reason }, later) == archive_path(
            DispositionView::Accepted { header: h, rows },
            millis,
        ),
        archive_path(DispositionView::Malformed { reason }, millis) == "_malformed/"@ + dec(millis)
            + ".ndjson"@,
{
}

// ---- the log --------------------------------------------------------------

/// The log line of a request names the time, the client, the document, its rows, the
/// status, the reason and the database, in this order.
pub proof fn law_log_line(ts: Seq<char>, ip: Seq<char>, f: FinishView, db: Seq<char>)
    ensures
        log_text(ts, ip, f, db) == ts + " ip="@ + ip + " server="@ + f.server + " run="@ + f.run
            + " seq="@ + f.seq + " rows="@ + f.rows + " status="@ + dec(f.status as nat)
            + " reason="@ + f.reason + " db="@ + db,
{
}

} // verus!
