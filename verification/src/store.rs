//! What the database holds, as a mathematical value, and what ingestion makes of
//! it. A session, its statements run one after the other, changes the database
//! exactly as `ingested` says. The columns of a run's last dump and of the counts
//! are 32 bits wide: the database refuses a number that does not fit, and a session
//! with one changes nothing.

use crate::db::{
    facts_of, DumpView, FileFacts, IngestOutcome, PhaseView, Reply, SessionView, StatementView,
};
use crate::text::ascii_folded;
use vstd::prelude::*;

verus! {

/// A file of the dimension table.
pub struct FileRow {
    pub server: Seq<char>,
    pub share: Seq<char>,
    pub path: Seq<char>,
    pub facts: FileFacts,
    pub first_seen: Seq<char>,
    pub last_seen: Seq<char>,
}

/// A run.
pub struct RunRow {
    pub server: Seq<char>,
    pub started_at: Seq<char>,
    pub last_seq: i64,
    pub last_at: Seq<char>,
}

/// A number fits an `INTEGER` column.
pub open spec fn fits_integer(n: i64) -> bool {
    i32::MIN <= n <= i32::MAX
}

/// The counts of a row fit their columns.
pub open spec fn row_fits(r: DumpView) -> bool {
    fits_integer(r.reads as i64) && fits_integer(r.writes as i64)
}

/// A dump's number and all its counts fit their columns.
pub open spec fn dump_fits(seq: i64, rows: Seq<DumpView>) -> bool {
    &&& fits_integer(seq)
    &&& forall|i: int| 0 <= i < rows.len() ==> row_fits(#[trigger] rows[i])
}

/// A run's id as a UUID, whose digits have no case.
pub open spec fn run_key(run_id: Seq<char>) -> Seq<char> {
    ascii_folded(run_id)
}

/// The tables.
#[verifier::ext_equal]
pub struct Database {
    pub files: Map<i64, FileRow>,
    pub runs: Map<Seq<char>, RunRow>,
    /// Reads and writes by file, run and day.
    pub counts: Map<(i64, Seq<char>, i32), (i64, i64)>,
    /// The id of the next file.
    pub next_id: i64,
}

impl Database {
    /// The files are unique by server, share and path, and every count is a known
    /// file's.
    pub open spec fn inv(self) -> bool {
        &&& forall|a: i64, b: i64|
            #![trigger self.files[a], self.files[b]]
            self.files.contains_key(a) && self.files.contains_key(b) && self.files[a].server
                == self.files[b].server && self.files[a].share == self.files[b].share
                && self.files[a].path == self.files[b].path ==> a == b
        &&& forall|c: (i64, Seq<char>, i32)| #[trigger]
            self.counts.contains_key(c) ==> self.files.contains_key(c.0)
    }

    /// There is room for `n` more files: the next ids are free.
    pub open spec fn has_ids(self, n: int) -> bool {
        &&& self.next_id + n <= i64::MAX
        &&& forall|id: i64| #[trigger] self.files.contains_key(id) ==> id < self.next_id
    }

    /// A file's entry.
    pub open spec fn is_file(self, id: i64, server: Seq<char>, share: Seq<char>, path: Seq<char>) -> bool {
        &&& self.files.contains_key(id)
        &&& self.files[id].server == server
        &&& self.files[id].share == share
        &&& self.files[id].path == path
    }

    /// The id of a file, where it is known.
    pub open spec fn file_id(self, server: Seq<char>, share: Seq<char>, path: Seq<char>) -> Option<i64> {
        if exists|id: i64| #[trigger] self.is_file(id, server, share, path) {
            Some(choose|id: i64| #[trigger] self.is_file(id, server, share, path))
        } else {
            None
        }
    }

    /// The counts of a file, by its names, for a run and a day, where there are any.
    pub open spec fn counts_of(
        self,
        server: Seq<char>,
        share: Seq<char>,
        path: Seq<char>,
        run_id: Seq<char>,
        day: i32,
    ) -> Option<(i64, i64)> {
        match self.file_id(server, share, path) {
            Some(id) => if self.counts.contains_key((id, run_key(run_id), day)) {
                Some(self.counts[(id, run_key(run_id), day)])
            } else {
                None
            },
            None => None,
        }
    }

    /// What is known of a file, by its names: its facts and when it was last seen.
    pub open spec fn facts_at(self, server: Seq<char>, share: Seq<char>, path: Seq<char>) -> Option<
        (FileFacts, Seq<char>),
    > {
        match self.file_id(server, share, path) {
            Some(id) => Some((self.files[id].facts, self.files[id].last_seen)),
            None => None,
        }
    }

    /// With a known file's facts replaced.
    pub open spec fn touched(self, id: i64, facts: FileFacts, ts: Seq<char>) -> Database {
        Database {
            files: self.files.insert(id, FileRow { facts, last_seen: ts, ..self.files[id] }),
            ..self
        }
    }

    /// With a new file.
    pub open spec fn added(
        self,
        server: Seq<char>,
        share: Seq<char>,
        path: Seq<char>,
        facts: FileFacts,
        ts: Seq<char>,
    ) -> Database {
        Database {
            files: self.files.insert(
                self.next_id,
                FileRow { server, share, path, facts, first_seen: ts, last_seen: ts },
            ),
            next_id: (self.next_id + 1) as i64,
            ..self
        }
    }

    /// What a statement does and answers. One whose number does not fit its column
    /// does nothing and fails, in words that the engine chooses.
    pub open spec fn executed(self, s: StatementView, start: Database) -> (Database, Reply) {
        match s {
            StatementView::SelectRun { run_id } => (
                self,
                Reply::LastSeq(
                    if self.runs.contains_key(run_key(run_id)) {
                        Some(self.runs[run_key(run_id)].last_seq)
                    } else {
                        None
                    },
                ),
            ),
            StatementView::SelectFile { server, share, path } => (
                self,
                Reply::FoundFile(self.file_id(server, share, path)),
            ),
            StatementView::UpdateFile { facts, ts, file_id } => (
                self.touched(file_id, facts, ts),
                Reply::Done,
            ),
            StatementView::InsertFile { server, share, path, facts, ts } => (
                self.added(server, share, path, facts, ts),
                Reply::NewFile(self.next_id),
            ),
            StatementView::UpsertCount { file_id, run_id, day, reads, writes } => if fits_integer(
                reads,
            ) && fits_integer(writes) {
                (
                    Database {
                        counts: self.counts.insert((file_id, run_key(run_id), day), (reads, writes)),
                        ..self
                    },
                    Reply::Done,
                )
            } else {
                (self, Reply::Failed(arbitrary()))
            },
            StatementView::InsertRun { run_id, server, ts, seq } => if fits_integer(seq) {
                (
                    Database {
                        runs: self.runs.insert(
                            run_key(run_id),
                            RunRow { server, started_at: ts, last_seq: seq, last_at: ts },
                        ),
                        ..self
                    },
                    Reply::Done,
                )
            } else {
                (self, Reply::Failed(arbitrary()))
            },
            StatementView::UpdateRun { seq, ts, run_id } => if fits_integer(seq) {
                (
                    Database {
                        runs: self.runs.insert(
                            run_key(run_id),
                            RunRow { last_seq: seq, last_at: ts, ..self.runs[run_key(run_id)] },
                        ),
                        ..self
                    },
                    Reply::Done,
                )
            } else {
                (self, Reply::Failed(arbitrary()))
            },
            StatementView::Rollback => (start, Reply::Done),
            StatementView::Commit => (self, Reply::Done),
        }
    }

    /// With one row applied: its file known with the row's facts, its counts the
    /// row's.
    pub open spec fn with_row(
        self,
        server: Seq<char>,
        run_id: Seq<char>,
        ts: Seq<char>,
        r: DumpView,
    ) -> Database {
        let (db, id) = match self.file_id(server, r.share, r.path) {
            Some(id) => (self.touched(id, facts_of(r), ts), id),
            None => (self.added(server, r.share, r.path, facts_of(r), ts), self.next_id),
        };
        Database {
            counts: db.counts.insert(
                (id, run_key(run_id), r.day),
                (r.reads as i64, r.writes as i64),
            ),
            ..db
        }
    }

    /// With rows applied, in order.
    pub open spec fn with_rows(
        self,
        server: Seq<char>,
        run_id: Seq<char>,
        ts: Seq<char>,
        rows: Seq<DumpView>,
    ) -> Database
        decreases rows.len(),
    {
        if rows.len() == 0 {
            self
        } else {
            self.with_rows(server, run_id, ts, rows.drop_last()).with_row(
                server,
                run_id,
                ts,
                rows.last(),
            )
        }
    }

    /// With a run's last dump recorded; a new run starts with it.
    pub open spec fn with_run(self, server: Seq<char>, run_id: Seq<char>, ts: Seq<char>, seq: i64) -> Database {
        let k = run_key(run_id);
        Database {
            runs: self.runs.insert(
                k,
                if self.runs.contains_key(k) {
                    RunRow { last_seq: seq, last_at: ts, ..self.runs[k] }
                } else {
                    RunRow { server, started_at: ts, last_seq: seq, last_at: ts }
                },
            ),
            ..self
        }
    }

    /// The dump was seen already, or is older than one that was.
    pub open spec fn is_seen(self, run_id: Seq<char>, seq: i64) -> bool {
        self.runs.contains_key(run_key(run_id)) && seq <= self.runs[run_key(run_id)].last_seq
    }

    /// What ingestion makes of the database, and the outcome: none where a number
    /// does not fit its column, and then everything is as it was.
    pub open spec fn ingested(
        self,
        server: Seq<char>,
        run_id: Seq<char>,
        ts: Seq<char>,
        seq: i64,
        rows: Seq<DumpView>,
    ) -> (Database, Option<IngestOutcome>) {
        if self.is_seen(run_id, seq) {
            (self, Some(IngestOutcome::DedupeNoop))
        } else if dump_fits(seq, rows) {
            (
                self.with_rows(server, run_id, ts, rows).with_run(server, run_id, ts, seq),
                Some(IngestOutcome::Accepted),
            )
        } else {
            (self, None)
        }
    }
}

/// How many statements a session has left at most.
pub open spec fn steps_left(s: SessionView) -> nat {
    let n = s.rows.len() - s.at;
    match s.phase {
        PhaseView::Probe => (4 * n + 4) as nat,
        PhaseView::Find => (4 * n + 3) as nat,
        PhaseView::Touch { .. } => (4 * n + 2) as nat,
        PhaseView::Add => (4 * n + 2) as nat,
        PhaseView::Count { .. } => (4 * n + 1) as nat,
        PhaseView::Stamp => 2,
        PhaseView::Commit => 1,
        PhaseView::Rollback => 1,
        PhaseView::Over(_) => 0,
        PhaseView::Failed(_) => 0,
    }
}

/// A session makes progress with every reply, and stays well formed.
pub proof fn lemma_progress(s: SessionView, reply: Reply)
    requires
        s.inv(),
        s.statement() is Some,
    ensures
        s.after(reply).inv(),
        steps_left(s.after(reply)) < steps_left(s),
{
}

/// A session played to its end, the transaction having begun at `start`: what the
/// database then holds, and the outcome.
pub open spec fn played(start: Database, db: Database, s: SessionView) -> (
    Database,
    Option<IngestOutcome>,
)
    decreases steps_left(s),
    when s.inv()
{
    match s.statement() {
        None => match s.phase {
            PhaseView::Over(o) => (db, Some(o)),
            _ => (start, None),
        },
        Some(stmt) => {
            let (next, reply) = db.executed(stmt, start);
            proof {
                lemma_progress(s, reply);
            }
            played(start, next, s.after(reply))
        },
    }
}

proof fn lemma_played_step(start: Database, db: Database, s: SessionView)
    requires
        s.inv(),
        s.statement() is Some,
    ensures
        ({
            let (next, reply) = db.executed(s.statement()->0, start);
            &&& s.after(reply).inv()
            &&& played(start, db, s) == played(start, next, s.after(reply))
        }),
{
    let (next, reply) = db.executed(s.statement()->0, start);
    lemma_progress(s, reply);
}

proof fn lemma_rows_played(start: Database, db: Database, s: SessionView)
    requires
        s.inv(),
        s.phase == s.phase_at(s.at),
        s.known == start.runs.contains_key(run_key(s.run_id)),
        db.runs == start.runs,
        db == start.with_rows(s.server, s.run_id, s.ts, s.rows.take(s.at)),
        forall|i: int| 0 <= i < s.at ==> row_fits(#[trigger] s.rows[i]),
    ensures
        played(start, db, s) == if dump_fits(s.seq, s.rows) {
            (
                start.with_rows(s.server, s.run_id, s.ts, s.rows).with_run(
                    s.server,
                    s.run_id,
                    s.ts,
                    s.seq,
                ),
                Some(IngestOutcome::Accepted),
            )
        } else {
            (start, None)
        },
    decreases s.rows.len() - s.at,
{
    if s.at < s.rows.len() {
        let r = s.row();
        lemma_played_step(start, db, s);
        let (db1, reply1) = db.executed(s.statement()->0, start);
        let s1 = s.after(reply1);
        lemma_played_step(start, db1, s1);
        let (db2, reply2) = db1.executed(s1.statement()->0, start);
        let s2 = s1.after(reply2);
        lemma_played_step(start, db2, s2);
        let (db3, reply3) = db2.executed(s2.statement()->0, start);
        let s3 = s2.after(reply3);
        assert(s.rows[s.at] == r);
        if row_fits(r) {
            let part = s.rows.take(s.at + 1);
            assert(part.drop_last() =~= s.rows.take(s.at));
            assert(part.last() == r);
            assert(db3 =~= db.with_row(s.server, s.run_id, s.ts, r));
            lemma_rows_played(start, db3, s3);
        } else {
            assert(!dump_fits(s.seq, s.rows));
            assert(s3.phase is Failed);
            assert(played(start, db3, s3) == (start, None::<IngestOutcome>));
        }
    } else {
        assert(s.rows.take(s.at) =~= s.rows);
        lemma_played_step(start, db, s);
        let (db1, reply1) = db.executed(s.statement()->0, start);
        let s1 = s.after(reply1);
        if fits_integer(s.seq) {
            lemma_played_step(start, db1, s1);
            assert(db1 =~= db.with_run(s.server, s.run_id, s.ts, s.seq));
        } else {
            assert(s1.phase is Failed);
            assert(played(start, db1, s1) == (start, None::<IngestOutcome>));
        }
    }
}

/// A session, played to its end, ingests its document: a dump that was seen already
/// leaves the database as it was, and any other is applied row by row and recorded
/// as the run's last. Where a number does not fit its column the session fails, and
/// the database is as it was.
pub proof fn law_session_ingests(db: Database, s: SessionView)
    requires
        s.phase is Probe,
        s.at == 0,
    ensures
        played(db, db, s) == db.ingested(s.server, s.run_id, s.ts, s.seq, s.rows),
{
    lemma_played_step(db, db, s);
    let (db1, reply) = db.executed(s.statement()->0, db);
    let s1 = s.after(reply);
    if db.is_seen(s.run_id, s.seq) {
        lemma_played_step(db, db1, s1);
    } else {
        assert(s.rows.take(0) =~= Seq::empty());
        lemma_rows_played(db, db1, s1);
    }
}

/// A statement that fails ends the session: it asks for nothing more, a commit least of
/// all, and says what failed. A dump is accepted only once its commit is done.
pub proof fn law_failure_ends_the_session(s: SessionView, reply: Reply)
    requires
        s.inv(),
        s.statement() is Some,
    ensures
        match reply {
            Reply::Failed(e) => {
                &&& s.after(reply).statement() is None
                &&& s.after(reply).phase == PhaseView::Failed(e@)
            },
            _ => true,
        },
        s.after(reply).phase == PhaseView::Over(IngestOutcome::Accepted) ==> {
            &&& s.statement() == Some(StatementView::Commit)
            &&& reply is Done
        },
{
}

// ---- what ingestion keeps -------------------------------------------------

/// A file's names have one id.
pub proof fn lemma_file_id(db: Database, id: i64, server: Seq<char>, share: Seq<char>, path: Seq<char>)
    requires
        db.inv(),
        db.is_file(id, server, share, path),
    ensures
        db.file_id(server, share, path) == Some(id),
{
    let found = choose|x: i64| #[trigger] db.is_file(x, server, share, path);
    assert(db.files[found].server == db.files[id].server);
}

/// What one row makes of the database.
pub proof fn lemma_with_row(db: Database, server: Seq<char>, run_id: Seq<char>, ts: Seq<char>, r: DumpView)
    requires
        db.inv(),
        db.has_ids(1),
    ensures
        ({
            let after = db.with_row(server, run_id, ts, r);
            &&& after.inv()
            &&& after.has_ids(0)
            &&& db.next_id <= after.next_id <= db.next_id + 1
            &&& after.runs == db.runs
            &&& after.file_id(server, r.share, r.path) is Some
            &&& after.counts.contains_key(
                (after.file_id(server, r.share, r.path)->0, run_key(run_id), r.day),
            )
            &&& after.counts[(after.file_id(server, r.share, r.path)->0, run_key(run_id), r.day)]
                == (r.reads as i64, r.writes as i64)
            &&& after.files[after.file_id(server, r.share, r.path)->0].facts == facts_of(r)
            &&& after.files[after.file_id(server, r.share, r.path)->0].last_seen == ts
        }),
        keeps(db, db.with_row(server, run_id, ts, r), run_id),
{
    let after = db.with_row(server, run_id, ts, r);
    let id = match db.file_id(server, r.share, r.path) {
        Some(id) => id,
        None => db.next_id,
    };
    if db.file_id(server, r.share, r.path) is Some {
        assert(db.is_file(id, server, r.share, r.path));
    }
    assert forall|a: i64, b: i64|
        #![trigger after.files[a], after.files[b]]
        after.files.contains_key(a) && after.files.contains_key(b) && after.files[a].server
            == after.files[b].server && after.files[a].share == after.files[b].share
            && after.files[a].path == after.files[b].path implies a == b by {
        if a != b {
            if a != id && b != id {
                assert(db.files[a].server == db.files[b].server);
            } else {
                let other = if a == id {
                    b
                } else {
                    a
                };
                assert(db.is_file(other, server, r.share, r.path));
                lemma_file_id(db, other, server, r.share, r.path);
            }
        }
    }
    assert(after.is_file(id, server, r.share, r.path));
    lemma_file_id(after, id, server, r.share, r.path);
}

/// What no ingestion of a run changes: files, runs and counts do not vanish, a file
/// stays itself and was first seen when it was, and other runs' counts stand.
pub open spec fn keeps(before: Database, after: Database, run_id: Seq<char>) -> bool {
    &&& forall|id: i64| #[trigger]
        before.files.contains_key(id) ==> {
            &&& after.files.contains_key(id)
            &&& after.files[id].server == before.files[id].server
            &&& after.files[id].share == before.files[id].share
            &&& after.files[id].path == before.files[id].path
            &&& after.files[id].first_seen == before.files[id].first_seen
        }
    &&& forall|k: Seq<char>| #[trigger]
        before.runs.contains_key(k) ==> {
            &&& after.runs.contains_key(k)
            &&& after.runs[k].started_at == before.runs[k].started_at
            &&& after.runs[k].server == before.runs[k].server
        }
    &&& forall|c: (i64, Seq<char>, i32)| #[trigger]
        before.counts.contains_key(c) ==> {
            &&& after.counts.contains_key(c)
            &&& c.1 != run_key(run_id) ==> after.counts[c] == before.counts[c]
        }
}

proof fn lemma_keeps_transitive(a: Database, b: Database, c: Database, run_id: Seq<char>)
    requires
        keeps(a, b, run_id),
        keeps(b, c, run_id),
    ensures
        keeps(a, c, run_id),
{
    assert forall|id: i64| #[trigger] a.files.contains_key(id) implies {
        &&& c.files.contains_key(id)
        &&& c.files[id].server == a.files[id].server
        &&& c.files[id].share == a.files[id].share
        &&& c.files[id].path == a.files[id].path
        &&& c.files[id].first_seen == a.files[id].first_seen
    } by {
        assert(b.files.contains_key(id));
    }
    assert forall|k: Seq<char>| #[trigger] a.runs.contains_key(k) implies {
        &&& c.runs.contains_key(k)
        &&& c.runs[k].started_at == a.runs[k].started_at
        &&& c.runs[k].server == a.runs[k].server
    } by {
        assert(b.runs.contains_key(k));
    }
    assert forall|x: (i64, Seq<char>, i32)| #[trigger] a.counts.contains_key(x) implies {
        &&& c.counts.contains_key(x)
        &&& x.1 != run_key(run_id) ==> c.counts[x] == a.counts[x]
    } by {
        assert(b.counts.contains_key(x));
    }
}

/// What rows keep of the database.
pub proof fn lemma_with_rows(
    db: Database,
    server: Seq<char>,
    run_id: Seq<char>,
    ts: Seq<char>,
    rows: Seq<DumpView>,
)
    requires
        db.inv(),
        db.has_ids(rows.len() as int),
    ensures
        db.with_rows(server, run_id, ts, rows).inv(),
        db.with_rows(server, run_id, ts, rows).has_ids(0),
        db.with_rows(server, run_id, ts, rows).next_id <= db.next_id + rows.len(),
        db.with_rows(server, run_id, ts, rows).runs == db.runs,
        keeps(db, db.with_rows(server, run_id, ts, rows), run_id),
    decreases rows.len(),
{
    if rows.len() > 0 {
        let init = rows.drop_last();
        lemma_with_rows(db, server, run_id, ts, init);
        let mid = db.with_rows(server, run_id, ts, init);
        lemma_with_row(mid, server, run_id, ts, rows.last());
        lemma_keeps_transitive(db, mid, db.with_rows(server, run_id, ts, rows), run_id);
    }
}

/// Nothing that ingestion finds vanishes: files, runs and counts stay, a file's first
/// sighting and a run's start never change, and the counts of other runs stand.
pub proof fn law_ingest_keeps(
    db: Database,
    server: Seq<char>,
    run_id: Seq<char>,
    ts: Seq<char>,
    seq: i64,
    rows: Seq<DumpView>,
)
    requires
        db.inv(),
        db.has_ids(rows.len() as int),
    ensures
        db.ingested(server, run_id, ts, seq, rows).0.inv(),
        keeps(db, db.ingested(server, run_id, ts, seq, rows).0, run_id),
{
    lemma_with_rows(db, server, run_id, ts, rows);
}

/// Ingesting a dump again, or an older one of the run, changes nothing, whatever it
/// holds: once a dump is in, only one with a greater number is applied.
pub proof fn law_reingest_is_noop(
    db: Database,
    server: Seq<char>,
    run_id: Seq<char>,
    ts: Seq<char>,
    seq: i64,
    rows: Seq<DumpView>,
    again_ts: Seq<char>,
    again_seq: i64,
    again: Seq<DumpView>,
)
    requires
        db.ingested(server, run_id, ts, seq, rows).1 is Some,
        again_seq <= seq,
    ensures
        ({
            let once = db.ingested(server, run_id, ts, seq, rows).0;
            once.ingested(server, run_id, again_ts, again_seq, again) == (
                once,
                Some(IngestOutcome::DedupeNoop),
            )
        }),
{
}

/// Counts are replaced, not added up: after an accepted dump the counts of a row's
/// file and day are the row's, where no later row of the dump is for the same.
pub proof fn law_counts_are_replaced(
    db: Database,
    server: Seq<char>,
    run_id: Seq<char>,
    ts: Seq<char>,
    seq: i64,
    rows: Seq<DumpView>,
    i: int,
)
    requires
        db.inv(),
        db.has_ids(rows.len() as int),
        !db.is_seen(run_id, seq),
        dump_fits(seq, rows),
        0 <= i < rows.len(),
        forall|j: int|
            i < j < rows.len() ==> (#[trigger] rows[j]).share != rows[i].share || rows[j].path
                != rows[i].path || rows[j].day != rows[i].day,
    ensures
        ({
            let after = db.ingested(server, run_id, ts, seq, rows).0;
            let r = rows[i];
            let id = after.file_id(server, r.share, r.path);
            &&& id is Some
            &&& after.counts.contains_key((id->0, run_key(run_id), r.day))
            &&& after.counts[(id->0, run_key(run_id), r.day)] == (r.reads as i64, r.writes as i64)
        }),
{
    lemma_counts(db, server, run_id, ts, rows, i);
    let mid = db.with_rows(server, run_id, ts, rows);
    let after = mid.with_run(server, run_id, ts, seq);
    let r = rows[i];
    let id = mid.file_id(server, r.share, r.path)->0;
    assert(mid.is_file(id, server, r.share, r.path));
    assert(after.is_file(id, server, r.share, r.path));
    lemma_with_rows(db, server, run_id, ts, rows);
    assert(after.inv());
    lemma_file_id(after, id, server, r.share, r.path);
}

proof fn lemma_counts(
    db: Database,
    server: Seq<char>,
    run_id: Seq<char>,
    ts: Seq<char>,
    rows: Seq<DumpView>,
    i: int,
)
    requires
        db.inv(),
        db.has_ids(rows.len() as int),
        0 <= i < rows.len(),
        forall|j: int|
            i < j < rows.len() ==> (#[trigger] rows[j]).share != rows[i].share || rows[j].path
                != rows[i].path || rows[j].day != rows[i].day,
    ensures
        ({
            let after = db.with_rows(server, run_id, ts, rows);
            let r = rows[i];
            let id = after.file_id(server, r.share, r.path);
            &&& id is Some
            &&& after.counts.contains_key((id->0, run_key(run_id), r.day))
            &&& after.counts[(id->0, run_key(run_id), r.day)] == (r.reads as i64, r.writes as i64)
        }),
    decreases rows.len(),
{
    let init = rows.drop_last();
    let last = rows.last();
    lemma_with_rows(db, server, run_id, ts, init);
    let mid = db.with_rows(server, run_id, ts, init);
    lemma_with_row(mid, server, run_id, ts, last);
    let after = mid.with_row(server, run_id, ts, last);
    if i < rows.len() - 1 {
        assert forall|j: int| i < j < init.len() implies (#[trigger] init[j]).share != init[i].share
            || init[j].path != init[i].path || init[j].day != init[i].day by {
            assert(init[j] == rows[j]);
        }
        lemma_counts(db, server, run_id, ts, init, i);
        let r = rows[i];
        assert(init[i] == r);
        let id = mid.file_id(server, r.share, r.path)->0;
        assert(mid.is_file(id, server, r.share, r.path));
        assert(rows[rows.len() - 1] == last);
        let touched = match mid.file_id(server, last.share, last.path) {
            Some(x) => x,
            None => mid.next_id,
        };
        if mid.file_id(server, last.share, last.path) is Some {
            assert(mid.is_file(touched, server, last.share, last.path));
        }
        assert(after.is_file(id, server, r.share, r.path));
        lemma_file_id(after, id, server, r.share, r.path);
    }
}

/// The latest dump is authoritative: after it a file has the facts of the file's last
/// row in the dump, an unknown size among them, and was last seen with the dump.
pub proof fn law_facts_are_replaced(
    db: Database,
    server: Seq<char>,
    run_id: Seq<char>,
    ts: Seq<char>,
    seq: i64,
    rows: Seq<DumpView>,
    i: int,
)
    requires
        db.inv(),
        db.has_ids(rows.len() as int),
        !db.is_seen(run_id, seq),
        dump_fits(seq, rows),
        0 <= i < rows.len(),
        forall|j: int|
            i < j < rows.len() ==> (#[trigger] rows[j]).share != rows[i].share || rows[j].path
                != rows[i].path,
    ensures
        ({
            let after = db.ingested(server, run_id, ts, seq, rows).0;
            let r = rows[i];
            let id = after.file_id(server, r.share, r.path);
            &&& id is Some
            &&& after.files[id->0].facts == facts_of(r)
            &&& after.files[id->0].last_seen == ts
        }),
{
    lemma_facts(db, server, run_id, ts, rows, i);
    let mid = db.with_rows(server, run_id, ts, rows);
    let after = mid.with_run(server, run_id, ts, seq);
    let r = rows[i];
    let id = mid.file_id(server, r.share, r.path)->0;
    assert(mid.is_file(id, server, r.share, r.path));
    assert(after.is_file(id, server, r.share, r.path));
    lemma_with_rows(db, server, run_id, ts, rows);
    assert(after.inv());
    lemma_file_id(after, id, server, r.share, r.path);
}

proof fn lemma_facts(
    db: Database,
    server: Seq<char>,
    run_id: Seq<char>,
    ts: Seq<char>,
    rows: Seq<DumpView>,
    i: int,
)
    requires
        db.inv(),
        db.has_ids(rows.len() as int),
        0 <= i < rows.len(),
        forall|j: int|
            i < j < rows.len() ==> (#[trigger] rows[j]).share != rows[i].share || rows[j].path
                != rows[i].path,
    ensures
        ({
            let after = db.with_rows(server, run_id, ts, rows);
            let r = rows[i];
            let id = after.file_id(server, r.share, r.path);
            &&& id is Some
            &&& after.files[id->0].facts == facts_of(r)
            &&& after.files[id->0].last_seen == ts
        }),
    decreases rows.len(),
{
    let init = rows.drop_last();
    let last = rows.last();
    lemma_with_rows(db, server, run_id, ts, init);
    let mid = db.with_rows(server, run_id, ts, init);
    lemma_with_row(mid, server, run_id, ts, last);
    let after = mid.with_row(server, run_id, ts, last);
    if i < rows.len() - 1 {
        assert forall|j: int| i < j < init.len() implies (#[trigger] init[j]).share != init[i].share
            || init[j].path != init[i].path by {
            assert(init[j] == rows[j]);
        }
        lemma_facts(db, server, run_id, ts, init, i);
        let r = rows[i];
        assert(init[i] == r);
        let id = mid.file_id(server, r.share, r.path)->0;
        assert(mid.is_file(id, server, r.share, r.path));
        assert(rows[rows.len() - 1] == last);
        let touched = match mid.file_id(server, last.share, last.path) {
            Some(x) => x,
            None => mid.next_id,
        };
        if mid.file_id(server, last.share, last.path) is Some {
            assert(mid.is_file(touched, server, last.share, last.path));
        }
        assert(touched != id);
        assert(after.is_file(id, server, r.share, r.path));
        lemma_file_id(after, id, server, r.share, r.path);
    }
}

// ---- a dump supersedes those before it ------------------------------------

/// The counts that the last row for a file and a day has, where there is one.
pub open spec fn last_counts(
    rows: Seq<DumpView>,
    share: Seq<char>,
    path: Seq<char>,
    day: i32,
) -> Option<(i64, i64)>
    decreases rows.len(),
{
    if rows.len() == 0 {
        None
    } else {
        let r = rows.last();
        if r.share == share && r.path == path && r.day == day {
            Some((r.reads as i64, r.writes as i64))
        } else {
            last_counts(rows.drop_last(), share, path, day)
        }
    }
}

/// The facts that the last row for a file has, where there is one.
pub open spec fn last_facts(rows: Seq<DumpView>, share: Seq<char>, path: Seq<char>) -> Option<
    FileFacts,
>
    decreases rows.len(),
{
    if rows.len() == 0 {
        None
    } else {
        let r = rows.last();
        if r.share == share && r.path == path {
            Some(facts_of(r))
        } else {
            last_facts(rows.drop_last(), share, path)
        }
    }
}

proof fn lemma_row_effect(
    db: Database,
    server: Seq<char>,
    run_id: Seq<char>,
    ts: Seq<char>,
    r: DumpView,
    of: (Seq<char>, Seq<char>, Seq<char>),
    run: Seq<char>,
    day: i32,
)
    requires
        db.inv(),
        db.has_ids(1),
    ensures
        ({
            let after = db.with_row(server, run_id, ts, r);
            let same = of == (server, r.share, r.path);
            &&& after.counts_of(of.0, of.1, of.2, run, day) == if same && run_key(run) == run_key(
                run_id,
            ) && day == r.day {
                Some((r.reads as i64, r.writes as i64))
            } else {
                db.counts_of(of.0, of.1, of.2, run, day)
            }
            &&& after.facts_at(of.0, of.1, of.2) == if same {
                Some((facts_of(r), ts))
            } else {
                db.facts_at(of.0, of.1, of.2)
            }
        }),
{
    let after = db.with_row(server, run_id, ts, r);
    lemma_with_row(db, server, run_id, ts, r);
    let id = match db.file_id(server, r.share, r.path) {
        Some(id) => id,
        None => db.next_id,
    };
    if db.file_id(server, r.share, r.path) is Some {
        assert(db.is_file(id, server, r.share, r.path));
    }
    assert(after.is_file(id, server, r.share, r.path));
    lemma_file_id(after, id, server, r.share, r.path);
    if of == (server, r.share, r.path) {
        if db.file_id(of.0, of.1, of.2) is None {
            assert(!db.counts.contains_key((id, run_key(run), day)));
        }
    } else {
        match db.file_id(of.0, of.1, of.2) {
            Some(x) => {
                assert(db.is_file(x, of.0, of.1, of.2));
                assert(after.is_file(x, of.0, of.1, of.2));
                lemma_file_id(after, x, of.0, of.1, of.2);
            },
            None => {
                assert forall|x: i64| !#[trigger] after.is_file(x, of.0, of.1, of.2) by {
                    if after.is_file(x, of.0, of.1, of.2) {
                        assert(x != id);
                        assert(db.is_file(x, of.0, of.1, of.2));
                    }
                }
            },
        }
    }
}

/// What rows make of the counts and the facts: the last row for a file and a day has
/// its counts, the last row for a file its facts, and the rest stands.
pub proof fn lemma_rows_effect(
    db: Database,
    server: Seq<char>,
    run_id: Seq<char>,
    ts: Seq<char>,
    rows: Seq<DumpView>,
    of: (Seq<char>, Seq<char>, Seq<char>),
    run: Seq<char>,
    day: i32,
)
    requires
        db.inv(),
        db.has_ids(rows.len() as int),
    ensures
        ({
            let after = db.with_rows(server, run_id, ts, rows);
            &&& after.counts_of(of.0, of.1, of.2, run, day) == if of.0 == server && run_key(run)
                == run_key(run_id) && last_counts(rows, of.1, of.2, day) is Some {
                last_counts(rows, of.1, of.2, day)
            } else {
                db.counts_of(of.0, of.1, of.2, run, day)
            }
            &&& after.facts_at(of.0, of.1, of.2) == if of.0 == server && last_facts(
                rows,
                of.1,
                of.2,
            ) is Some {
                Some((last_facts(rows, of.1, of.2)->0, ts))
            } else {
                db.facts_at(of.0, of.1, of.2)
            }
        }),
    decreases rows.len(),
{
    if rows.len() > 0 {
        let init = rows.drop_last();
        lemma_rows_effect(db, server, run_id, ts, init, of, run, day);
        lemma_with_rows(db, server, run_id, ts, init);
        let mid = db.with_rows(server, run_id, ts, init);
        lemma_row_effect(mid, server, run_id, ts, rows.last(), of, run, day);
    }
}

proof fn lemma_run_effect(
    db: Database,
    server: Seq<char>,
    run_id: Seq<char>,
    ts: Seq<char>,
    seq: i64,
    of: (Seq<char>, Seq<char>, Seq<char>),
    run: Seq<char>,
    day: i32,
)
    requires
        db.inv(),
    ensures
        ({
            let after = db.with_run(server, run_id, ts, seq);
            &&& after.counts_of(of.0, of.1, of.2, run, day) == db.counts_of(
                of.0,
                of.1,
                of.2,
                run,
                day,
            )
            &&& after.facts_at(of.0, of.1, of.2) == db.facts_at(of.0, of.1, of.2)
        }),
{
    let after = db.with_run(server, run_id, ts, seq);
    assert(after.inv());
    match db.file_id(of.0, of.1, of.2) {
        Some(x) => {
            assert(db.is_file(x, of.0, of.1, of.2));
            assert(after.is_file(x, of.0, of.1, of.2));
            lemma_file_id(after, x, of.0, of.1, of.2);
        },
        None => {
            assert forall|x: i64| !#[trigger] after.is_file(x, of.0, of.1, of.2) by {
                if after.is_file(x, of.0, of.1, of.2) {
                    assert(db.is_file(x, of.0, of.1, of.2));
                }
            }
        },
    }
}

proof fn lemma_ingest_effect(
    db: Database,
    server: Seq<char>,
    run_id: Seq<char>,
    ts: Seq<char>,
    seq: i64,
    rows: Seq<DumpView>,
    of: (Seq<char>, Seq<char>, Seq<char>),
    run: Seq<char>,
    day: i32,
)
    requires
        db.inv(),
        db.has_ids(rows.len() as int),
        !db.is_seen(run_id, seq),
        dump_fits(seq, rows),
    ensures
        ({
            let after = db.ingested(server, run_id, ts, seq, rows).0;
            &&& after.inv()
            &&& after.has_ids(0)
            &&& after.next_id <= db.next_id + rows.len()
            &&& after.counts_of(of.0, of.1, of.2, run, day) == if of.0 == server && run_key(run)
                == run_key(run_id) && last_counts(rows, of.1, of.2, day) is Some {
                last_counts(rows, of.1, of.2, day)
            } else {
                db.counts_of(of.0, of.1, of.2, run, day)
            }
            &&& after.facts_at(of.0, of.1, of.2) == if of.0 == server && last_facts(
                rows,
                of.1,
                of.2,
            ) is Some {
                Some((last_facts(rows, of.1, of.2)->0, ts))
            } else {
                db.facts_at(of.0, of.1, of.2)
            }
        }),
{
    lemma_with_rows(db, server, run_id, ts, rows);
    lemma_rows_effect(db, server, run_id, ts, rows, of, run, day);
    lemma_run_effect(
        db.with_rows(server, run_id, ts, rows),
        server,
        run_id,
        ts,
        seq,
        of,
        run,
        day,
    );
}

/// Every row of `a` has a row for the same file and day in `b`.
pub open spec fn covers(b: Seq<DumpView>, a: Seq<DumpView>) -> bool {
    forall|i: int|
        0 <= i < a.len() ==> last_counts(
            b,
            (#[trigger] a[i]).share,
            a[i].path,
            a[i].day,
        ) is Some
}

proof fn lemma_covered(
    b: Seq<DumpView>,
    a: Seq<DumpView>,
    share: Seq<char>,
    path: Seq<char>,
    day: i32,
)
    requires
        covers(b, a),
    ensures
        last_counts(a, share, path, day) is Some ==> last_counts(b, share, path, day) is Some,
        last_facts(a, share, path) is Some ==> last_facts(b, share, path) is Some,
    decreases a.len(),
{
    if a.len() > 0 {
        let r = a.last();
        let init = a.drop_last();
        assert(last_counts(b, a[a.len() - 1].share, a[a.len() - 1].path, a[a.len() - 1].day) is Some);
        assert forall|i: int| 0 <= i < init.len() implies last_counts(
            b,
            (#[trigger] init[i]).share,
            init[i].path,
            init[i].day,
        ) is Some by {
            assert(init[i] == a[i]);
        }
        lemma_covered(b, init, share, path, day);
        lemma_counted_file(b, r.share, r.path, r.day);
    }
}

proof fn lemma_counted_file(rows: Seq<DumpView>, share: Seq<char>, path: Seq<char>, day: i32)
    ensures
        last_counts(rows, share, path, day) is Some ==> last_facts(rows, share, path) is Some,
    decreases rows.len(),
{
    if rows.len() > 0 {
        lemma_counted_file(rows.drop_last(), share, path, day);
    }
}

/// A dump that does not arrive is no loss: dumps are cumulative, so where a later dump
/// of the run covers the lost one, the counts of every file, run and day, what is known
/// of every file, and the run's last dump are the same without it. Only first sightings
/// and the run's start may be later.
pub proof fn law_lost_dump_is_harmless(
    db: Database,
    server: Seq<char>,
    run_id: Seq<char>,
    lost_ts: Seq<char>,
    lost_seq: i64,
    lost: Seq<DumpView>,
    ts: Seq<char>,
    seq: i64,
    rows: Seq<DumpView>,
    of: (Seq<char>, Seq<char>, Seq<char>),
    run: Seq<char>,
    day: i32,
)
    requires
        db.inv(),
        db.has_ids((lost.len() + rows.len()) as int),
        lost_seq < seq,
        !db.is_seen(run_id, seq),
        dump_fits(seq, rows),
        covers(rows, lost),
    ensures
        ({
            let with = db.ingested(server, run_id, lost_ts, lost_seq, lost).0.ingested(
                server,
                run_id,
                ts,
                seq,
                rows,
            ).0;
            let without = db.ingested(server, run_id, ts, seq, rows).0;
            &&& with.counts_of(of.0, of.1, of.2, run, day) == without.counts_of(
                of.0,
                of.1,
                of.2,
                run,
                day,
            )
            &&& with.facts_at(of.0, of.1, of.2) == without.facts_at(of.0, of.1, of.2)
            &&& with.runs[run_key(run_id)].last_seq == seq
            &&& without.runs[run_key(run_id)].last_seq == seq
            &&& with.runs[run_key(run_id)].last_at == ts
            &&& without.runs[run_key(run_id)].last_at == ts
        }),
{
    let first = db.ingested(server, run_id, lost_ts, lost_seq, lost).0;
    lemma_with_rows(db, server, run_id, lost_ts, lost);
    if !db.is_seen(run_id, lost_seq) && dump_fits(lost_seq, lost) {
        lemma_ingest_effect(db, server, run_id, lost_ts, lost_seq, lost, of, run, day);
    }
    lemma_ingest_effect(first, server, run_id, ts, seq, rows, of, run, day);
    lemma_ingest_effect(db, server, run_id, ts, seq, rows, of, run, day);
    lemma_covered(rows, lost, of.1, of.2, day);
}

} // verus!
