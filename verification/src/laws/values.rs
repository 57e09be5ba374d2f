//! What the library's values stand for, field by field.

use crate::cli::{Command, CommandView};
use crate::correlation::{
    emit_views, opt_access, row_views, EmitRow, HeatRow, ResolvedAccess,
};
use crate::db::{dump_views, opt_str, DumpRow, ErrorView, IngestError, Statement, StatementView};
use crate::emit::{string_views, Meta};
use crate::events::{guid_value, EventView, Guid, SmbEvent};
use crate::flush::Flusher;
use crate::ingest::{Disposition, DispositionView, Header, HeaderFields, LineFields};
use crate::inventory::Walk;
use crate::lifecycle::{EventView as LifecycleView, SmbEvent as LifecycleEvent};
use crate::pairs::pair_views;
use crate::query::{Knobs, Param, ParamView, Query};
use crate::server::Finish;
use crate::split::texts;
use crate::table::TableKey;
use crate::text::opt_text;
use vstd::prelude::*;

verus! {

/// An optional string stands for its text.
pub proof fn law_optional_text(s: Option<String>)
    ensures
        s is None ==> opt_text(s) is None,
        s is Some ==> opt_text(s) == Some(s->0@),
{
}

/// An optional string slice stands for its text too, and an optional report for its
/// access.
pub proof fn law_optional_values(s: Option<&str>, a: Option<ResolvedAccess>)
    ensures
        s is None ==> opt_str(s) is None,
        s is Some ==> opt_str(s) == Some(s->0@),
        a is None ==> opt_access(a) is None,
        a is Some ==> opt_access(a) == Some(a->0@),
{
}

/// Lists stand for the lists of what their items stand for, in their order.
pub proof fn law_lists(
    heat: Seq<HeatRow>,
    emitted: Seq<EmitRow>,
    dumped: Seq<DumpRow>,
    strings: Seq<String>,
    pairs: Seq<(String, String)>,
    slices: Seq<&str>,
    i: int,
)
    ensures
        row_views(heat).len() == heat.len(),
        emit_views(emitted).len() == emitted.len(),
        dump_views(dumped).len() == dumped.len(),
        string_views(strings).len() == strings.len(),
        pair_views(pairs).len() == pairs.len(),
        texts(slices).len() == slices.len(),
        0 <= i < heat.len() ==> row_views(heat)[i] == heat[i]@,
        0 <= i < emitted.len() ==> emit_views(emitted)[i] == emitted[i]@,
        0 <= i < dumped.len() ==> dump_views(dumped)[i] == dumped[i]@,
        0 <= i < strings.len() ==> string_views(strings)[i] == strings[i]@,
        0 <= i < pairs.len() ==> pair_views(pairs)[i] == (pairs[i].0@, pairs[i].1@),
        0 <= i < slices.len() ==> texts(slices)[i] == slices[i]@,
{
}

/// A row of the summary.
pub proof fn law_heat_row(r: HeatRow)
    ensures
        r@.share_guid == r.share_guid,
        r@.share == r.share@,
        r@.path == r.path@,
        r@.reads == r.reads,
        r@.writes == r.writes,
        r@.active_days == r.active_days,
{
}

/// A reported access.
pub proof fn law_resolved_access(a: ResolvedAccess)
    ensures
        a@.share_guid == a.share_guid,
        a@.share == a.share@,
        a@.path == a.path@,
        a@.tree == a.tree,
        a@.open == a.open,
        a@.access == a.access,
        a@.kind == a.kind,
        a@.day == a.day,
{
}

/// An emitted row.
pub proof fn law_emit_row(r: EmitRow)
    ensures
        r@.share == r.share@,
        r@.path == r.path@,
        r@.day == r.day,
        r@.reads == r.reads,
        r@.writes == r.writes,
        r@.alloc_bytes == r.alloc_bytes,
        r@.flags.len() == r.flags@.len(),
        forall|i: int| 0 <= i < r.flags@.len() ==> r@.flags[i] == (#[trigger] r.flags@[i])@,
{
}

/// A received row.
pub proof fn law_dump_row(r: DumpRow)
    ensures
        r@.share == r.share@,
        r@.path == r.path@,
        r@.day == r.day,
        r@.reads == r.reads,
        r@.writes == r.writes,
        r@.alloc_bytes == r.alloc_bytes,
        r@.flags.len() == r.flags@.len(),
        forall|i: int| 0 <= i < r.flags@.len() ==> r@.flags[i] == (#[trigger] r.flags@[i])@,
{
}

/// The metadata of a document, and what a flusher puts into it.
pub proof fn law_metadata(m: Meta, f: Flusher, ts: Seq<char>)
    ensures
        m@.server == m.server@,
        m@.run_id == m.run_id@,
        m@.dump_seq == m.dump_seq,
        m@.emitted_at == m.emitted_at@,
        m@.walked_shares.len() == m.walked_shares@.len(),
        forall|i: int|
            0 <= i < m.walked_shares@.len() ==> m@.walked_shares[i] == (
            #[trigger] m.walked_shares@[i])@,
        f.meta(ts).server == f.server@,
        f.meta(ts).run_id == f.run_id@,
        f.meta(ts).dump_seq == f.dump_seq,
        f.meta(ts).emitted_at == ts,
        f.meta(ts).walked_shares.len() == f.walked_shares@.len(),
        forall|i: int|
            0 <= i < f.walked_shares@.len() ==> f.meta(ts).walked_shares[i] == (
            #[trigger] f.walked_shares@[i])@,
{
}

/// A header, the fields of one, and those of a further line.
pub proof fn law_headers(h: Header, f: HeaderFields, l: LineFields)
    ensures
        h@.server == h.server@,
        h@.run_id == h.run_id@,
        h@.dump_seq == h.dump_seq,
        h@.emitted_at == opt_text(h.emitted_at),
        f@.kind == f.kind@,
        f@.server == opt_text(f.server),
        f@.run_id == opt_text(f.run_id),
        f@.dump_seq == f.dump_seq,
        f@.emitted_at == opt_text(f.emitted_at),
        l@.kind == l.kind@,
        l@.rows == l.rows,
{
}

/// What a document comes to.
pub proof fn law_dispositions(d: Disposition)
    ensures
        match d {
            Disposition::Malformed { reason } => d@ == (DispositionView::Malformed {
                reason: reason@,
            }),
            Disposition::Rejected { header, reason } => d@ == (DispositionView::Rejected {
                header: header@,
                reason: reason@,
            }),
            Disposition::Accepted { header, rows } => d@ == (DispositionView::Accepted {
                header: header@,
                rows,
            }),
        },
{
}

/// A statement of an ingestion.
pub proof fn law_statements(s: Statement)
    ensures
        match s {
            Statement::SelectRun { run_id } => s@ == (StatementView::SelectRun { run_id: run_id@ }),
            Statement::SelectFile { server, share, path } => s@ == (StatementView::SelectFile {
                server: server@,
                share: share@,
                path: path@,
            }),
            Statement::UpdateFile { facts, ts, file_id } => s@ == (StatementView::UpdateFile {
                facts,
                ts: ts@,
                file_id,
            }),
            Statement::InsertFile { server, share, path, facts, ts } => s@ == (
            StatementView::InsertFile {
                server: server@,
                share: share@,
                path: path@,
                facts,
                ts: ts@,
            }),
            Statement::UpsertCount { file_id, run_id, day, reads, writes } => s@ == (
            StatementView::UpsertCount { file_id, run_id: run_id@, day, reads, writes }),
            Statement::InsertRun { run_id, server, ts, seq } => s@ == (StatementView::InsertRun {
                run_id: run_id@,
                server: server@,
                ts: ts@,
                seq,
            }),
            Statement::UpdateRun { seq, ts, run_id } => s@ == (StatementView::UpdateRun {
                seq,
                ts: ts@,
                run_id: run_id@,
            }),
            Statement::Rollback => s@ == StatementView::Rollback,
            Statement::Commit => s@ == StatementView::Commit,
        },
{
}

/// Why an ingestion failed.
pub proof fn law_ingest_error(e: IngestError)
    ensures
        match e {
            IngestError::MissingEmittedAt => e@ == ErrorView::MissingEmittedAt,
            IngestError::NonUtcOffset(t) => e@ == ErrorView::NonUtcOffset(t@),
            IngestError::Db(t) => e@ == ErrorView::Db(t@),
        },
{
}

/// The knobs of a query.
pub proof fn law_knobs(k: Knobs)
    ensures
        k@.w_read == opt_text(k.w_read),
        k@.w_write == opt_text(k.w_write),
        k@.window == k.window,
        k@.min_span == k.min_span,
        k@.depth == k.depth,
        k@.limit == k.limit,
        k@.server == opt_text(k.server),
        k@.share == opt_text(k.share),
        k@.parent == opt_text(k.parent),
{
}

/// A statement of a query, and what it binds.
pub proof fn law_queries(q: Query, p: Param)
    ensures
        q@.sql == q.sql@,
        q@.params.len() == q.params@.len(),
        forall|i: int| 0 <= i < q.params@.len() ==> q@.params[i] == (#[trigger] q.params@[i])@,
        match p {
            Param::Integer(n) => p@ == ParamView::Integer(n),
            Param::Text(t) => p@ == ParamView::Text(t@),
            Param::ReadWeight => p@ == ParamView::ReadWeight,
            Param::WriteWeight => p@ == ParamView::WriteWeight,
        },
{
}

/// The end of a request.
pub proof fn law_finish(f: Finish)
    ensures
        f@.body == opt_text(f.body),
        f@.server == f.entry.server@,
        f@.run == f.entry.run@,
        f@.seq == f.entry.seq@,
        f@.rows == f.entry.rows@,
        f@.status == f.entry.status,
        f@.reason == f.entry.reason@,
{
}

/// A walk.
pub proof fn law_walk(w: Walk)
    ensures
        w@.entries == w.entries@,
        w@.reparse_skipped == w.reparse_skipped,
        w@.cluster_size == w.cluster_size,
{
}

/// An event.
pub proof fn law_events(e: SmbEvent)
    ensures
        match e {
            SmbEvent::TreeConnect { share_guid, share } => e@ == (EventView::TreeConnect {
                share_guid: share_guid as nat,
                share: share@,
            }),
            SmbEvent::Open { open, tree, share_guid, path, access } => e@ == (EventView::Open {
                open: open as nat,
                tree: tree as nat,
                share_guid: match share_guid {
                    Some(g) => Some(g as nat),
                    None => None,
                },
                path: path@,
                access,
            }),
        },
{
}

/// A lifecycle event.
pub proof fn law_lifecycle(e: LifecycleEvent)
    ensures
        match e {
            LifecycleEvent::ConnAccept { conn_id, client } => e@ == (LifecycleView::ConnAccept {
                conn_id: conn_id as nat,
                client: client@,
            }),
            LifecycleEvent::ConnEnd { conn_id } => e@ == (LifecycleView::ConnEnd {
                conn_id: conn_id as nat,
            }),
            LifecycleEvent::SessionAuth { session_id, conn_id, user } => e@ == (
            LifecycleView::SessionAuth {
                session_id: session_id as nat,
                conn_id: match conn_id {
                    Some(c) => Some(c as nat),
                    None => None,
                },
                user: user@,
            }),
            LifecycleEvent::SessionEnd { session_id } => e@ == (LifecycleView::SessionEnd {
                session_id: session_id as nat,
            }),
            LifecycleEvent::TreeConnect { tree_id, session_id, share } => e@ == (
            LifecycleView::TreeConnect {
                tree_id: tree_id as nat,
                session_id: session_id as nat,
                share: share@,
            }),
            LifecycleEvent::TreeEnd { tree_id } => e@ == (LifecycleView::TreeEnd {
                tree_id: tree_id as nat,
            }),
            LifecycleEvent::Open { session_id, tree_id, path } => e@ == (LifecycleView::Open {
                session_id: match session_id {
                    Some(s) => Some(s as nat),
                    None => None,
                },
                tree_id: match tree_id {
                    Some(t) => Some(t as nat),
                    None => None,
                },
                path: path@,
            }),
        },
{
}

/// What the agent is told to do.
pub proof fn law_command(c: Command)
    ensures
        match c {
            Command::Walk { share, root } => c@ == (CommandView::Walk {
                share: share@,
                root: root@,
            }),
            Command::WalkUsage => c@ == CommandView::WalkUsage,
            Command::Trace { mode, mask } => c@ == (CommandView::Trace { mode, mask }),
            Command::UnknownMode(m) => c@ == CommandView::UnknownMode(m@),
        },
{
}

/// The keys of the tables are all of what they are made of.
pub proof fn law_table_keys(s: String, pair: (String, String), n: i32, heat: (Option<u128>, String))
    ensures
        s.key() == s@,
        pair.key() == (pair.0@, pair.1@),
        n.key() == n,
        heat.key() == (heat.0, heat.1@),
{
}

/// A GUID's 128 bits, its first field highest and the bytes of its last in their order.
pub proof fn law_guid_bits(g: Guid)
    ensures
        guid_value(g) == g.data1 * 0x1_0000_0000_0000_0000_0000_0000 + g.data2
            * 0x1_0000_0000_0000_0000_0000 + g.data3 * 0x1_0000_0000_0000_0000 + g.data4[0]
            * 0x100_0000_0000_0000 + g.data4[1] * 0x1_0000_0000_0000 + g.data4[2]
            * 0x100_0000_0000 + g.data4[3] * 0x1_0000_0000 + g.data4[4] * 0x100_0000 + g.data4[5]
            * 0x1_0000 + g.data4[6] * 0x100 + g.data4[7],
{
    let b = g.data4@;
    assert(b.len() == 8);
    assert(b.take(8) =~= b);
    lemma_next_byte(b, 7);
    lemma_next_byte(b, 6);
    lemma_next_byte(b, 5);
    lemma_next_byte(b, 4);
    lemma_next_byte(b, 3);
    lemma_next_byte(b, 2);
    lemma_next_byte(b, 1);
    lemma_next_byte(b, 0);
    assert(crate::events::big_endian(b.take(0)) == 0);
}

proof fn lemma_next_byte(b: Seq<u8>, i: int)
    requires
        0 <= i < b.len(),
    ensures
        crate::events::big_endian(b.take(i + 1)) == crate::events::big_endian(b.take(i)) * 256
            + b[i],
{
    assert(b.take(i + 1).drop_last() =~= b.take(i));
}

} // verus!
