//! What an ingestion leaves in the database.

use crate::db::{
    first_mark, last_sign, lemma_first_mark, lemma_no_sign, naive_utc, session_of, time_from,
    DumpView, ErrorView, IngestOutcome, PhaseView, Reply, SessionView, StatementView,
};
use crate::db::{
    DDL, SQL_INSERT_FILE, SQL_INSERT_RUN, SQL_SELECT_FILE, SQL_SELECT_RUN, SQL_UPDATE_FILE,
    SQL_UPDATE_RUN, SQL_UPSERT_COUNT,
};
use crate::ingest::HeaderView;
use crate::split::lemma_first_at_is;
use crate::store::{
    law_counts_are_replaced, law_facts_are_replaced, law_session_ingests, lemma_with_row,
    lemma_with_rows, played, Database,
};
use crate::text::ascii_folded;
use vstd::prelude::*;

verus! {

// ---- timestamps -----------------------------------------------------------

/// A timestamp that ends in `Z` is stored without it, whatever else it holds.
pub proof fn law_zulu_is_cut(ts: Seq<char>)
    ensures
        naive_utc(ts.push('Z')) == Some(ts),
{
    assert(ts.push('Z').drop_last() =~= ts);
}

/// `from` is where the time of a timestamp begins: behind its first `T` or, without any,
/// behind its first small `t` or blank that follows a digit or, without either, at its
/// end. A timestamp with no sign from there on has no offset and is stored as it is,
/// whatever signs stand before.
pub proof fn law_no_offset(ts: Seq<char>, from: int)
    requires
        ts.len() == 0 || ts.last() != 'Z',
        0 <= from <= ts.len(),
        ({
            ||| from > 0 && ts[from - 1] == 'T' && (forall|i: int|
                0 <= i < from - 1 ==> ts[i] != 'T')
            ||| {
                &&& forall|i: int| 0 <= i < ts.len() ==> ts[i] != 'T'
                &&& from > 1 && (ts[from - 1] == 't' || ts[from - 1] == ' ') && '0' <= ts[from - 2]
                    <= '9'
                &&& forall|i: int|
                    1 <= i < from - 1 ==> !((ts[i] == 't' || ts[i] == ' ') && '0' <= #[trigger] ts[i
                        - 1] <= '9')
            }
            ||| {
                &&& forall|i: int| 0 <= i < ts.len() ==> ts[i] != 'T'
                &&& from == ts.len()
                &&& forall|i: int|
                    1 <= i < ts.len() ==> !((ts[i] == 't' || ts[i] == ' ') && '0' <= #[trigger] ts[i
                        - 1] <= '9')
            }
        }),
        forall|i: int| from <= i < ts.len() ==> ts[i] != '+' && ts[i] != '-',
    ensures
        naive_utc(ts) == Some(ts),
{
    lemma_time_from(ts, from);
    let time = ts.skip(from);
    assert forall|i: int| 0 <= i < time.len() implies !crate::split::is_sign(#[trigger] time[i]) by {
        assert(time[i] == ts[from + i]);
    }
    lemma_no_sign(time);
}

/// With a sign in the time, the last one begins the offset: one of `+00:00` or `-00:00`
/// is cut off, and any other is refused.
pub proof fn law_offset(ts: Seq<char>, from: int, k: int)
    requires
        ts.last() != 'Z',
        0 <= from <= k < ts.len(),
        ({
            ||| from > 0 && ts[from - 1] == 'T' && (forall|i: int|
                0 <= i < from - 1 ==> ts[i] != 'T')
            ||| {
                &&& forall|i: int| 0 <= i < ts.len() ==> ts[i] != 'T'
                &&& from > 1 && (ts[from - 1] == 't' || ts[from - 1] == ' ') && '0' <= ts[from - 2]
                    <= '9'
                &&& forall|i: int|
                    1 <= i < from - 1 ==> !((ts[i] == 't' || ts[i] == ' ') && '0' <= #[trigger] ts[i
                        - 1] <= '9')
            }
        }),
        ts[k] == '+' || ts[k] == '-',
        forall|i: int| k < i < ts.len() ==> ts[i] != '+' && ts[i] != '-',
    ensures
        ts.skip(k) == "+00:00"@ || ts.skip(k) == "-00:00"@ ==> naive_utc(ts) == Some(ts.take(k)),
        ts.skip(k) != "+00:00"@ && ts.skip(k) != "-00:00"@ ==> naive_utc(ts) is None,
{
    lemma_time_from(ts, from);
    crate::db::lemma_sign_in_time(ts, k);
}

proof fn lemma_mark_is(ts: Seq<char>, i: int, m: int)
    requires
        0 <= i <= m <= ts.len(),
        m < ts.len() ==> crate::db::is_mark(ts, m),
        forall|j: int| i <= j < m ==> !#[trigger] crate::db::is_mark(ts, j),
    ensures
        first_mark(ts, i) == m,
    decreases m - i,
{
    if i < m {
        assert(!crate::db::is_mark(ts, i));
        lemma_mark_is(ts, i + 1, m);
    }
}

proof fn lemma_time_from(ts: Seq<char>, from: int)
    requires
        0 <= from <= ts.len(),
        ({
            ||| from > 0 && ts[from - 1] == 'T' && (forall|i: int|
                0 <= i < from - 1 ==> ts[i] != 'T')
            ||| {
                &&& forall|i: int| 0 <= i < ts.len() ==> ts[i] != 'T'
                &&& from > 1 && (ts[from - 1] == 't' || ts[from - 1] == ' ') && '0' <= ts[from - 2]
                    <= '9'
                &&& forall|i: int|
                    1 <= i < from - 1 ==> !((ts[i] == 't' || ts[i] == ' ') && '0' <= #[trigger] ts[i
                        - 1] <= '9')
            }
            ||| {
                &&& forall|i: int| 0 <= i < ts.len() ==> ts[i] != 'T'
                &&& from == ts.len()
                &&& forall|i: int|
                    1 <= i < ts.len() ==> !((ts[i] == 't' || ts[i] == ' ') && '0' <= #[trigger] ts[i
                        - 1] <= '9')
            }
        }),
    ensures
        time_from(ts) == from,
{
    if from > 0 && ts[from - 1] == 'T' && (forall|i: int| 0 <= i < from - 1 ==> ts[i] != 'T') {
        lemma_first_at_is(ts, 'T', from - 1);
    } else {
        lemma_first_at_is(ts, 'T', ts.len() as int);
        if from > 1 && (ts[from - 1] == 't' || ts[from - 1] == ' ') && '0' <= ts[from - 2] <= '9' {
            assert(crate::db::is_mark(ts, from - 1));
            assert forall|j: int| 0 <= j < from - 1 implies !#[trigger] crate::db::is_mark(
                ts,
                j,
            ) by {
                if j >= 1 {
                    assert('0' <= ts[j - 1] <= '9' || true);
                }
            }
            lemma_mark_is(ts, 0, from - 1);
        } else {
            assert forall|j: int| 0 <= j < ts.len() implies !#[trigger] crate::db::is_mark(
                ts,
                j,
            ) by {
                if j >= 1 {
                    assert('0' <= ts[j - 1] <= '9' || true);
                }
            }
            lemma_mark_is(ts, 0, ts.len() as int);
        }
    }
}

/// What is stored of a timestamp is the timestamp up to a designator of UTC.
pub proof fn law_only_designators_are_cut(ts: Seq<char>)
    ensures
        naive_utc(ts) is Some ==> ts == naive_utc(ts)->0 || ts == naive_utc(ts)->0 + "Z"@ || ts
            == naive_utc(ts)->0 + "+00:00"@ || ts == naive_utc(ts)->0 + "-00:00"@,
{
    reveal_strlit("Z");
    crate::split::lemma_first_at(ts, 'T');
    lemma_first_mark(ts, 0);
    if naive_utc(ts) is Some {
        let cut = naive_utc(ts)->0;
        let from = time_from(ts);
        let time = ts.skip(from);
        if ts.len() > 0 && ts.last() == 'Z' {
            assert(ts =~= cut + "Z"@);
        } else if last_sign(time) is Some {
            let k = last_sign(time)->0;
            lemma_last_sign_in(time);
            assert(ts =~= cut + time.skip(k));
        }
    }
}

proof fn lemma_last_sign_in(s: Seq<char>)
    ensures
        last_sign(s) is Some ==> 0 <= last_sign(s)->0 < s.len(),
    decreases s.len(),
{
    if s.len() > 0 {
        lemma_last_sign_in(s.drop_last());
    }
}

// ---- sessions -------------------------------------------------------------

/// A document without a time of emission cannot be ingested, nor one whose time has an
/// offset; any other begins a session that holds what the header and the rows say and
/// has done nothing yet.
pub proof fn law_session_begins(h: HeaderView, rows: Seq<DumpView>)
    ensures
        ({
            let s = session_of(h, rows);
            &&& h.emitted_at is None ==> s == Err::<SessionView, ErrorView>(
                ErrorView::MissingEmittedAt,
            )
            &&& h.emitted_at is Some && naive_utc(h.emitted_at->0) is None ==> s == Err::<
                SessionView,
                ErrorView,
            >(ErrorView::NonUtcOffset(h.emitted_at->0))
            &&& h.emitted_at is Some && naive_utc(h.emitted_at->0) is Some ==> {
                &&& s is Ok
                &&& s->Ok_0.server == h.server
                &&& s->Ok_0.run_id == h.run_id
                &&& s->Ok_0.seq == h.dump_seq
                &&& s->Ok_0.ts == naive_utc(h.emitted_at->0)->0
                &&& s->Ok_0.rows == rows
                &&& s->Ok_0.at == 0
                &&& s->Ok_0.phase == PhaseView::Probe
            }
        }),
{
}

/// What a statement about a row binds: the row's own fields. A size of up to 2^63 - 1
/// bytes is bound as it is and a greater one less 2^64, and the two flags by whether the
/// row has their words.
pub proof fn law_statements_bind_the_row(s: SessionView)
    requires
        s.inv(),
        s.at < s.rows.len(),
    ensures
        ({
            let r = s.rows[s.at];
            match s.statement() {
                Some(StatementView::SelectFile { server, share, path }) => {
                    server == s.server && share == r.share && path == r.path
                },
                Some(StatementView::UpdateFile { facts, ts, file_id }) => {
                    &&& s.phase == (PhaseView::Touch { file_id })
                    &&& ts == s.ts
                    &&& facts.alloc_bytes is Some <==> r.alloc_bytes is Some
                    &&& r.alloc_bytes is Some && r.alloc_bytes->0 <= 0x7fff_ffff_ffff_ffff
                        ==> facts.alloc_bytes->0 == r.alloc_bytes->0
                    &&& r.alloc_bytes is Some && r.alloc_bytes->0 > 0x7fff_ffff_ffff_ffff
                        ==> facts.alloc_bytes->0 == r.alloc_bytes->0 - 0x1_0000_0000_0000_0000
                    &&& facts.restat <==> exists|f: int|
                        0 <= f < r.flags.len() && r.flags[f] == "restat"@
                    &&& facts.unresolved_share <==> exists|f: int|
                        0 <= f < r.flags.len() && r.flags[f] == "unresolved_share"@
                },
                Some(StatementView::InsertFile { server, share, path, facts, ts }) => {
                    &&& server == s.server && share == r.share && path == r.path
                    &&& ts == s.ts
                    &&& facts.alloc_bytes is Some <==> r.alloc_bytes is Some
                    &&& r.alloc_bytes is Some && r.alloc_bytes->0 <= 0x7fff_ffff_ffff_ffff
                        ==> facts.alloc_bytes->0 == r.alloc_bytes->0
                    &&& r.alloc_bytes is Some && r.alloc_bytes->0 > 0x7fff_ffff_ffff_ffff
                        ==> facts.alloc_bytes->0 == r.alloc_bytes->0 - 0x1_0000_0000_0000_0000
                    &&& facts.restat <==> exists|f: int|
                        0 <= f < r.flags.len() && r.flags[f] == "restat"@
                    &&& facts.unresolved_share <==> exists|f: int|
                        0 <= f < r.flags.len() && r.flags[f] == "unresolved_share"@
                },
                Some(StatementView::UpsertCount { file_id, run_id, day, reads, writes }) => {
                    &&& s.phase == (PhaseView::Count { file_id })
                    &&& run_id == s.run_id && day == r.day
                    &&& reads == r.reads && writes == r.writes
                },
                _ => !(s.phase is Find || s.phase is Touch || s.phase is Add || s.phase is Count),
            }
        }),
{
    let r = s.rows[s.at];
    assert(r.flags.contains("restat"@) == exists|f: int|
        0 <= f < r.flags.len() && r.flags[f] == "restat"@);
    assert(r.flags.contains("unresolved_share"@) == exists|f: int|
        0 <= f < r.flags.len() && r.flags[f] == "unresolved_share"@);
}

/// The other statements bind the session's run, number, time and server.
pub proof fn law_statements_bind_the_run(s: SessionView)
    ensures
        s.phase is Probe ==> s.statement() == Some(StatementView::SelectRun { run_id: s.run_id }),
        s.phase is Stamp && s.known ==> s.statement() == Some(
            StatementView::UpdateRun { seq: s.seq, ts: s.ts, run_id: s.run_id },
        ),
        s.phase is Stamp && !s.known ==> s.statement() == Some(
            StatementView::InsertRun {
                run_id: s.run_id,
                server: s.server,
                ts: s.ts,
                seq: s.seq,
            },
        ),
        s.phase is Commit ==> s.statement() == Some(StatementView::Commit),
        s.phase is Rollback ==> s.statement() == Some(StatementView::Rollback),
        s.statement() is None <==> s.phase is Over || s.phase is Failed,
{
}

/// A session goes on by what the database answers: a run's last number at or above the
/// session's rolls it back; otherwise each row's file is looked up, updated where it is
/// known and inserted where it is not, and counted under the id that came back; the run
/// is recorded after the last row, and then comes the commit.
pub proof fn law_session_steps(s: SessionView, n: i64)
    requires
        s.inv(),
    ensures
        s.phase is Probe ==> {
            let (new, known) = (s.after(Reply::LastSeq(None)), s.after(Reply::LastSeq(Some(n))));
            &&& !new.known && known.known
            &&& new.phase == if s.rows.len() > 0 { PhaseView::Find } else { PhaseView::Stamp }
            &&& known.phase == if s.seq <= n { PhaseView::Rollback } else { new.phase }
            &&& new.at == 0 && known.at == 0
        },
        s.phase is Find ==> {
            &&& s.after(Reply::FoundFile(Some(n))).phase == (PhaseView::Touch { file_id: n })
            &&& s.after(Reply::FoundFile(None)).phase == PhaseView::Add
            &&& s.after(Reply::FoundFile(Some(n))).at == s.at
            &&& s.after(Reply::FoundFile(None)).at == s.at
        },
        s.phase == (PhaseView::Touch { file_id: n }) ==> {
            &&& s.after(Reply::Done).phase == (PhaseView::Count { file_id: n })
            &&& s.after(Reply::Done).at == s.at
        },
        s.phase is Add ==> {
            &&& s.after(Reply::NewFile(n)).phase == (PhaseView::Count { file_id: n })
            &&& s.after(Reply::NewFile(n)).at == s.at
        },
        s.phase is Count ==> {
            &&& s.after(Reply::Done).at == s.at + 1
            &&& s.after(Reply::Done).phase == if s.at + 1 < s.rows.len() {
                PhaseView::Find
            } else {
                PhaseView::Stamp
            }
        },
        s.phase is Stamp ==> s.after(Reply::Done).phase == PhaseView::Commit,
        s.phase is Commit ==> s.after(Reply::Done).phase == PhaseView::Over(
            IngestOutcome::Accepted,
        ),
        s.phase is Rollback ==> s.after(Reply::Done).phase == PhaseView::Over(
            IngestOutcome::DedupeNoop,
        ),
        forall|reply: Reply|
            {
                let t = #[trigger] s.after(reply);
                &&& t.server == s.server && t.run_id == s.run_id && t.seq == s.seq && t.ts == s.ts
                    && t.rows == s.rows
                &&& !(s.phase is Probe) ==> t.known == s.known
            },
{
}

/// A reply that does not answer the statement fails the session, and so does one that
/// says that the statement failed, in its own words.
pub proof fn law_other_replies_fail(s: SessionView, reply: Reply)
    ensures
        ({
            let t = s.after(reply);
            let answers = match s.phase {
                PhaseView::Probe => reply is LastSeq,
                PhaseView::Find => reply is FoundFile,
                PhaseView::Add => reply is NewFile,
                PhaseView::Over(_) => false,
                PhaseView::Failed(_) => false,
                _ => reply is Done,
            };
            match reply {
                Reply::Failed(e) => t.phase == PhaseView::Failed(e@),
                _ => !answers ==> t.phase == PhaseView::Failed("unexpected reply"@) && t.at == s.at
                    && t.known == s.known,
            }
        }),
{
}

// ---- what is stored -------------------------------------------------------

/// A dump is refused as seen just where its run's last number is at or above its own,
/// and accepted otherwise, if its number and all counts fit 32 bits with a sign;
/// refused or failed, it changes nothing.
pub proof fn law_when_a_dump_is_accepted(db: Database, s: SessionView)
    requires
        s.phase is Probe,
        s.at == 0,
    ensures
        ({
            let (after, outcome) = played(db, db, s);
            let run = ascii_folded(s.run_id);
            let seen = db.runs.contains_key(run) && s.seq <= db.runs[run].last_seq;
            let fits = -0x8000_0000 <= s.seq <= 0x7fff_ffff && forall|i: int|
                #![trigger s.rows[i]]
                0 <= i < s.rows.len() ==> s.rows[i].reads <= 0x7fff_ffff && s.rows[i].writes
                    <= 0x7fff_ffff;
            &&& outcome == Some(IngestOutcome::DedupeNoop) <==> seen
            &&& outcome == Some(IngestOutcome::Accepted) <==> !seen && fits
            &&& outcome is None <==> !seen && !fits
            &&& outcome != Some(IngestOutcome::Accepted) ==> after == db
        }),
{
    law_session_ingests(db, s);
}

/// After an accepted dump the last row for a file says what is stored of the file: a
/// size of up to 2^63 - 1 bytes as it is, none where the row has none, the flags by
/// whether the row has the words `restat` and `unresolved_share`, last seen at the
/// dump's time and first seen then too if the file is new.
pub proof fn law_last_row_is_stored(db: Database, s: SessionView, i: int)
    requires
        db.inv(),
        db.has_ids(s.rows.len() as int),
        s.phase is Probe,
        s.at == 0,
        played(db, db, s).1 == Some(IngestOutcome::Accepted),
        0 <= i < s.rows.len(),
        forall|j: int|
            i < j < s.rows.len() ==> (#[trigger] s.rows[j]).share != s.rows[i].share
                || s.rows[j].path != s.rows[i].path,
    ensures
        ({
            let after = played(db, db, s).0;
            let r = s.rows[i];
            exists|id: i64|
                {
                    let f = after.files[id];
                    &&& #[trigger] after.files.contains_key(id)
                    &&& f.server == s.server && f.share == r.share && f.path == r.path
                    &&& r.alloc_bytes is None ==> f.facts.alloc_bytes is None
                    &&& r.alloc_bytes is Some && r.alloc_bytes->0 <= 0x7fff_ffff_ffff_ffff
                        ==> f.facts.alloc_bytes is Some && f.facts.alloc_bytes->0
                        == r.alloc_bytes->0
                    &&& r.alloc_bytes is Some && r.alloc_bytes->0 > 0x7fff_ffff_ffff_ffff
                        ==> f.facts.alloc_bytes is Some && f.facts.alloc_bytes->0
                        == r.alloc_bytes->0 - 0x1_0000_0000_0000_0000
                    &&& f.facts.restat <==> exists|k: int|
                        0 <= k < r.flags.len() && r.flags[k] == "restat"@
                    &&& f.facts.unresolved_share <==> exists|k: int|
                        0 <= k < r.flags.len() && r.flags[k] == "unresolved_share"@
                    &&& f.last_seen == s.ts
                    &&& db.files.contains_key(id) ==> f.first_seen == db.files[id].first_seen
                }
        }),
{
    law_session_ingests(db, s);
    law_facts_are_replaced(db, s.server, s.run_id, s.ts, s.seq, s.rows, i);
    crate::store::law_ingest_keeps(db, s.server, s.run_id, s.ts, s.seq, s.rows);
    let after = played(db, db, s).0;
    let r = s.rows[i];
    let id = after.file_id(s.server, r.share, r.path)->0;
    assert(after.is_file(id, s.server, r.share, r.path));
    assert(r.flags.contains("restat"@) == exists|k: int|
        0 <= k < r.flags.len() && r.flags[k] == "restat"@);
    assert(r.flags.contains("unresolved_share"@) == exists|k: int|
        0 <= k < r.flags.len() && r.flags[k] == "unresolved_share"@);
    assert(after.files.contains_key(id));
}

/// After an accepted dump the last row for a file and a day gives the counts that the
/// file has for that run and day.
pub proof fn law_last_counts_are_stored(db: Database, s: SessionView, i: int)
    requires
        db.inv(),
        db.has_ids(s.rows.len() as int),
        s.phase is Probe,
        s.at == 0,
        played(db, db, s).1 == Some(IngestOutcome::Accepted),
        0 <= i < s.rows.len(),
        forall|j: int|
            i < j < s.rows.len() ==> (#[trigger] s.rows[j]).share != s.rows[i].share
                || s.rows[j].path != s.rows[i].path || s.rows[j].day != s.rows[i].day,
    ensures
        ({
            let after = played(db, db, s).0;
            let r = s.rows[i];
            exists|id: i64|
                {
                    let f = after.files[id];
                    let at = (id, ascii_folded(s.run_id), r.day);
                    &&& #[trigger] after.files.contains_key(id)
                    &&& f.server == s.server && f.share == r.share && f.path == r.path
                    &&& after.counts.contains_key(at)
                    &&& after.counts[at].0 == r.reads
                    &&& after.counts[at].1 == r.writes
                }
        }),
{
    law_session_ingests(db, s);
    law_counts_are_replaced(db, s.server, s.run_id, s.ts, s.seq, s.rows, i);
    let after = played(db, db, s).0;
    let r = s.rows[i];
    let id = after.file_id(s.server, r.share, r.path)->0;
    assert(after.is_file(id, s.server, r.share, r.path));
    assert(after.files.contains_key(id));
}

/// An accepted dump records its number and its time as its run's last; a run seen for
/// the first time gets its server and starts at that time. Other runs stand.
pub proof fn law_run_is_recorded(db: Database, s: SessionView)
    requires
        db.inv(),
        db.has_ids(s.rows.len() as int),
        s.phase is Probe,
        s.at == 0,
        played(db, db, s).1 == Some(IngestOutcome::Accepted),
    ensures
        ({
            let after = played(db, db, s).0;
            let run = ascii_folded(s.run_id);
            &&& after.runs.dom() == db.runs.dom().insert(run)
            &&& after.runs[run].last_seq == s.seq
            &&& after.runs[run].last_at == s.ts
            &&& db.runs.contains_key(run) ==> {
                &&& after.runs[run].server == db.runs[run].server
                &&& after.runs[run].started_at == db.runs[run].started_at
            }
            &&& !db.runs.contains_key(run) ==> {
                &&& after.runs[run].server == s.server
                &&& after.runs[run].started_at == s.ts
            }
            &&& forall|k: Seq<char>|
                k != run && #[trigger] db.runs.contains_key(k) ==> after.runs[k] == db.runs[k]
        }),
{
    law_session_ingests(db, s);
    lemma_with_rows(db, s.server, s.run_id, s.ts, s.rows);
    let after = played(db, db, s).0;
    assert(after.runs.dom() =~= db.runs.dom().insert(ascii_folded(s.run_id)));
}

/// `a` became `b` by rows of a server's run, no more being done than the rows say.
spec fn only_rows(
    a: Database,
    b: Database,
    server: Seq<char>,
    run: Seq<char>,
    ts: Seq<char>,
    rows: Seq<DumpView>,
) -> bool {
    &&& forall|id: i64|
        #![trigger b.files.contains_key(id)]
        b.files.contains_key(id) && !(b.files[id].server == server && exists|i: int|
            0 <= i < rows.len() && (#[trigger] rows[i]).share == b.files[id].share && rows[i].path
                == b.files[id].path) ==> a.files.contains_key(id) && b.files[id] == a.files[id]
    &&& forall|id: i64|
        #![trigger b.files.contains_key(id)]
        b.files.contains_key(id) && !a.files.contains_key(id) ==> b.files[id].first_seen == ts
    &&& forall|c: (i64, Seq<char>, i32)|
        #![trigger b.counts.contains_key(c)]
        b.counts.contains_key(c) && !(c.1 == run && b.files[c.0].server == server && exists|i: int|
            0 <= i < rows.len() && (#[trigger] rows[i]).share == b.files[c.0].share && rows[i].path
                == b.files[c.0].path && rows[i].day == c.2) ==> a.counts.contains_key(c)
            && b.counts[c] == a.counts[c]
}

#[verifier::spinoff_prover]
proof fn lemma_only_rows(
    db: Database,
    server: Seq<char>,
    run_id: Seq<char>,
    ts: Seq<char>,
    rows: Seq<DumpView>,
)
    requires
        db.inv(),
        db.has_ids(rows.len() as int),
    ensures
        only_rows(
            db,
            db.with_rows(server, run_id, ts, rows),
            server,
            ascii_folded(run_id),
            ts,
            rows,
        ),
    decreases rows.len(),
{
    if rows.len() > 0 {
        let init = rows.drop_last();
        let r = rows.last();
        let run = ascii_folded(run_id);
        lemma_only_rows(db, server, run_id, ts, init);
        lemma_with_rows(db, server, run_id, ts, init);
        let mid = db.with_rows(server, run_id, ts, init);
        let after = mid.with_row(server, run_id, ts, r);
        lemma_with_row(mid, server, run_id, ts, r);
        let known = mid.file_id(server, r.share, r.path);
        let new = match known {
            Some(id) => id,
            None => mid.next_id,
        };
        if known is Some {
            assert(mid.is_file(new, server, r.share, r.path));
        }
        assert(rows[rows.len() - 1] == r);
        assert(after.files[new].share == r.share && after.files[new].path == r.path);
        assert forall|i: int| 0 <= i < init.len() implies init[i] == #[trigger] rows[i] by {}
        assert forall|id: i64|
            #![trigger after.files.contains_key(id)]
            after.files.contains_key(id) && !(after.files[id].server == server && exists|i: int|
                0 <= i < rows.len() && (#[trigger] rows[i]).share == after.files[id].share
                    && rows[i].path == after.files[id].path) implies db.files.contains_key(id)
            && after.files[id] == db.files[id] by {
            assert(id != new);
            assert(mid.files.contains_key(id) && mid.files[id] == after.files[id]);
            if exists|i: int|
                0 <= i < init.len() && (#[trigger] init[i]).share == mid.files[id].share
                    && init[i].path == mid.files[id].path {
                let i = choose|i: int|
                    0 <= i < init.len() && (#[trigger] init[i]).share == mid.files[id].share
                        && init[i].path == mid.files[id].path;
                assert(rows[i] == init[i]);
            }
        }
        assert forall|c: (i64, Seq<char>, i32)|
            #![trigger after.counts.contains_key(c)]
            after.counts.contains_key(c) && !(c.1 == run && after.files[c.0].server == server
                && exists|i: int|
                0 <= i < rows.len() && (#[trigger] rows[i]).share == after.files[c.0].share
                    && rows[i].path == after.files[c.0].path && rows[i].day == c.2) implies {
            &&& db.counts.contains_key(c)
            &&& after.counts[c] == db.counts[c]
        } by {
            assert(c != (new, run, r.day));
            assert(mid.counts.contains_key(c) && mid.counts[c] == after.counts[c]);
            assert(mid.files.contains_key(c.0));
            assert(mid.files[c.0].server == after.files[c.0].server);
            assert(mid.files[c.0].share == after.files[c.0].share);
            assert(mid.files[c.0].path == after.files[c.0].path);
            if exists|i: int|
                0 <= i < init.len() && (#[trigger] init[i]).share == mid.files[c.0].share
                    && init[i].path == mid.files[c.0].path && init[i].day == c.2 {
                let i = choose|i: int|
                    0 <= i < init.len() && (#[trigger] init[i]).share == mid.files[c.0].share
                        && init[i].path == mid.files[c.0].path && init[i].day == c.2;
                assert(rows[i] == init[i]);
            }
        }
        assert forall|id: i64|
            #![trigger after.files.contains_key(id)]
            after.files.contains_key(id) && !db.files.contains_key(
                id,
            ) implies after.files[id].first_seen == ts by {
            if id != new || known is Some {
                assert(mid.files.contains_key(id));
            }
        }
    }
}

/// An accepted dump touches nothing that it has no row for: every other file stays as
/// it was and none appears, and so does every other count. A file that appears was
/// first seen at the dump's time.
pub proof fn law_only_rows_are_stored(db: Database, s: SessionView)
    requires
        db.inv(),
        db.has_ids(s.rows.len() as int),
        s.phase is Probe,
        s.at == 0,
    ensures
        ({
            let after = played(db, db, s).0;
            let rows = s.rows;
            &&& forall|id: i64|
                #![trigger after.files.contains_key(id)]
                after.files.contains_key(id) && !(after.files[id].server == s.server && exists|
                    i: int,
                |
                    0 <= i < rows.len() && (#[trigger] rows[i]).share == after.files[id].share
                        && rows[i].path == after.files[id].path) ==> db.files.contains_key(id)
                    && after.files[id] == db.files[id]
            &&& forall|id: i64|
                #![trigger after.files.contains_key(id)]
                after.files.contains_key(id) && !db.files.contains_key(id)
                    ==> after.files[id].first_seen == s.ts
            &&& forall|c: (i64, Seq<char>, i32)|
                #![trigger after.counts.contains_key(c)]
                after.counts.contains_key(c) && !(c.1 == ascii_folded(s.run_id)
                    && after.files[c.0].server == s.server && exists|i: int|
                    0 <= i < rows.len() && (#[trigger] rows[i]).share == after.files[c.0].share
                        && rows[i].path == after.files[c.0].path && rows[i].day == c.2)
                    ==> db.counts.contains_key(c) && after.counts[c] == db.counts[c]
        }),
{
    law_session_ingests(db, s);
    lemma_only_rows(db, s.server, s.run_id, s.ts, s.rows);
}

/// The tables, word for word: a file is one by its server, share and path, a run by its
/// id, and a count by its file, run and day.
pub proof fn law_table_texts()
    ensures
        DDL@ == "
CREATE SEQUENCE IF NOT EXISTS file_id_seq;

CREATE TABLE IF NOT EXISTS files (
    file_id          BIGINT PRIMARY KEY DEFAULT nextval('file_id_seq'),
    server           TEXT NOT NULL,
    share            TEXT NOT NULL,
    path             TEXT NOT NULL,
    alloc_bytes      BIGINT,
    restat           BOOLEAN NOT NULL DEFAULT FALSE,
    unresolved_share BOOLEAN NOT NULL DEFAULT FALSE,
    first_seen       TIMESTAMP NOT NULL,
    last_seen        TIMESTAMP NOT NULL,
    UNIQUE (server, share, path)
);

CREATE TABLE IF NOT EXISTS runs (
    run_id        UUID PRIMARY KEY,
    server        TEXT NOT NULL,
    started_at    TIMESTAMP,
    last_dump_seq INTEGER NOT NULL,
    last_dump_at  TIMESTAMP NOT NULL
);

CREATE TABLE IF NOT EXISTS day_counts (
    file_id   BIGINT  NOT NULL,
    run_id    UUID    NOT NULL,
    day_index INTEGER NOT NULL,
    reads     INTEGER NOT NULL,
    writes    INTEGER NOT NULL,
    PRIMARY KEY (file_id, run_id, day_index)
);
"@,
{
}

/// The statements, word for word: a run and a file are found by their keys, a known
/// file keeps the time that it was first seen, and counts are replaced.
pub proof fn law_statement_texts()
    ensures
        SQL_SELECT_RUN@ == "SELECT last_dump_seq FROM runs WHERE run_id = CAST(? AS UUID)"@,
        SQL_SELECT_FILE@ == "SELECT file_id FROM files WHERE server = ? AND share = ? AND path = ?"@,
        SQL_UPDATE_FILE@ == "UPDATE files
   SET alloc_bytes = ?, restat = ?, unresolved_share = ?,
       last_seen = CAST(? AS TIMESTAMP)
 WHERE file_id = ?"@,
        SQL_INSERT_FILE@ == "INSERT INTO files
       (server, share, path, alloc_bytes, restat, unresolved_share,
        first_seen, last_seen)
VALUES (?, ?, ?, ?, ?, ?, CAST(? AS TIMESTAMP), CAST(? AS TIMESTAMP))
RETURNING file_id"@,
        SQL_UPSERT_COUNT@ == "INSERT INTO day_counts (file_id, run_id, day_index, reads, writes)
VALUES (?, CAST(? AS UUID), ?, ?, ?)
ON CONFLICT (file_id, run_id, day_index)
DO UPDATE SET reads = excluded.reads, writes = excluded.writes"@,
        SQL_INSERT_RUN@ == "INSERT INTO runs (run_id, server, started_at, last_dump_seq, last_dump_at)
VALUES (CAST(? AS UUID), ?, CAST(? AS TIMESTAMP), ?, CAST(? AS TIMESTAMP))"@,
        SQL_UPDATE_RUN@ == "UPDATE runs SET last_dump_seq = ?, last_dump_at = CAST(? AS TIMESTAMP)
 WHERE run_id = CAST(? AS UUID)"@,
{
}

} // verus!
