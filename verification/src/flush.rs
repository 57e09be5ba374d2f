//! The flusher's decisions: when to flush, what one flush puts out, and how dumps
//! are numbered. The callback thread only counts; the flusher owns all output.

use crate::correlation::{access_text, CorrelationEngine, CounterFull, EngineView, KeyDay, RowView};
use crate::emit::{document, document_text, string_views, Meta, MetaView};
use crate::events::SmbEvent;
use crate::ingest::{is_name_char, valid_server};
use crate::text::{dec, fold_case, lowercase, opt_text, push_dec};
use vstd::prelude::*;

verus! {

/// The provider to trace.
pub const SMBSERVER_GUID: &'static str = "D48CE617-33A2-4BC3-A5C7-11AA4F29619E";

/// The name of the trace session.
pub const SESSION_NAME: &'static str = "SmbHeatSpike";

/// Seconds between flushes where nothing else is said.
pub const DEFAULT_FLUSH_SECS: u64 = 300;

/// What wakes the flusher.
#[derive(Debug, Clone, Copy, PartialEq, Eq, Structural)]
pub enum Wake {
    /// The open counter tripped.
    FlushNow,
    /// The timer ran out.
    Timeout,
    /// Graceful shutdown.
    Stop,
    /// Nobody is left to wake it.
    Disconnected,
}

/// Whether the flusher goes on after the flush that a wake brings. Every wake brings
/// one, so the tail is never lost.
pub fn continues(w: Wake) -> (r: bool)
    ensures
        r == (w == Wake::FlushNow || w == Wake::Timeout),
{
    match w {
        Wake::FlushNow => true,
        Wake::Timeout => true,
        Wake::Stop => false,
        Wake::Disconnected => false,
    }
}

/// What one event brings.
#[derive(Debug, Clone)]
pub struct Observed {
    /// The line to report for an open that touches data.
    pub line: Option<String>,
    /// The progress line, at every 200th open.
    pub progress: Option<String>,
    /// Whether a dump is due, at every 1000th open.
    pub dump_due: bool,
}

/// The progress line of an engine, where it is due.
pub open spec fn progress_text(v: EngineView) -> Option<Seq<char>> {
    if v.opens_total > 0 && v.opens_total % 200 == 0 {
        Some("  ["@ + v.stats_text() + "]"@)
    } else {
        None
    }
}

/// Take one event into the engine.
pub fn observe(engine: &mut CorrelationEngine, ev: &SmbEvent, filetime: i64) -> (r: Result<
    Observed,
    CounterFull,
>)
    requires
        old(engine).wf(),
    ensures
        final(engine).wf(),
        match r {
            Ok(o) => {
                &&& final(engine)@ == old(engine)@.applied(*ev, filetime as int)
                &&& opt_text(o.line) == match old(engine)@.reported(*ev, filetime as int) {
                    Some(a) => Some(access_text(a)),
                    None => None,
                }
                &&& opt_text(o.progress) == progress_text(final(engine)@)
                &&& o.dump_due == (final(engine)@.opens_total > 0 && final(engine)@.opens_total
                    % 1000 == 0)
            },
            Err(_) => {
                &&& !old(engine)@.has_room(*ev, filetime as int)
                &&& final(engine)@ == old(engine)@
            },
        },
{
    let line = match engine.try_apply(ev, filetime) {
        Ok(Some(a)) => Some(a.to_text()),
        Ok(None) => None,
        Err(e) => {
            return Err(e);
        },
    };
    let n = engine.opens();
    let progress = if n > 0 && n % 200 == 0 {
        let mut s = "  [".to_owned();
        s.append(engine.stats_line().as_str());
        s.append("]");
        Some(s)
    } else {
        None
    };
    Ok(Observed { line, progress, dump_due: n > 0 && n % 1000 == 0 })
}

/// A letter or a digit of ASCII.
pub open spec fn is_host_char(c: char) -> bool {
    'a' <= c <= 'z' || 'A' <= c <= 'Z' || '0' <= c <= '9'
}

/// A computer's name of letters, digits and hyphens, no hyphen first.
pub open spec fn is_host_name(s: Seq<char>) -> bool {
    &&& s.len() > 0
    &&& is_host_char(s[0])
    &&& forall|i: int| 0 <= i < s.len() ==> is_host_char(#[trigger] s[i]) || s[i] == '-'
}

/// The reporting server's name: the computer's name in lower case, empty where there
/// is none. A name of letters, digits and hyphens is one that a collector takes.
pub fn server_name(computer: Option<&str>) -> (r: String)
    ensures
        r@ == match computer {
            Some(c) => lowercase(c@),
            None => Seq::empty(),
        },
        computer is Some && is_host_name(computer->0@) ==> valid_server(r@),
{
    match computer {
        Some(c) => {
            let r = fold_case(c);
            proof {
                if is_host_name(c@) {
                    assert forall|i: int| 0 <= i < c@.len() implies '\0' <= #[trigger] c@[i]
                        <= '\u{7f}' by {
                        assert(is_host_char(c@[i]) || c@[i] == '-');
                    }
                    assert forall|i: int| 0 <= i < r@.len() implies is_name_char(#[trigger] r@[i])
                        || r@[i] == '-' by {
                        assert(is_host_char(c@[i]) || c@[i] == '-');
                    }
                }
            }
            r
        },
        None => String::new(),
    }
}

/// The flusher's own state: the run's identity and the number of the next dump.
pub struct Flusher {
    pub server: String,
    pub run_id: String,
    /// The walked shares, for the header.
    pub walked_shares: Vec<String>,
    /// Whether anything takes the documents.
    pub wants_document: bool,
    /// Starts at 1 and goes up with every flush, whatever becomes of its output, so
    /// that gaps in what arrives mean something.
    pub dump_seq: u32,
}

/// What one flush puts out.
pub struct Dump {
    /// The rendered table.
    pub console: String,
    /// The document, where anything takes it.
    pub document: Option<String>,
    /// The number of the dump.
    pub seq: u32,
}

impl Flusher {
    /// The metadata of the next document.
    pub open spec fn meta(&self, emitted_at: Seq<char>) -> MetaView {
        MetaView {
            server: self.server@,
            run_id: self.run_id@,
            dump_seq: self.dump_seq,
            emitted_at,
            walked_shares: string_views(self.walked_shares@),
        }
    }

    /// The flusher of a run that begins.
    pub fn start(
        server: String,
        run_id: String,
        walked_shares: Vec<String>,
        wants_document: bool,
    ) -> (r: Flusher)
        ensures
            r.server == server,
            r.run_id == run_id,
            r.walked_shares == walked_shares,
            r.wants_document == wants_document,
            r.dump_seq == 1,
    {
        Flusher { server, run_id, walked_shares, wants_document, dump_seq: 1 }
    }

    /// One flush of an engine's state: the rendered table and, where anything takes
    /// it, the document with the same rows.
    pub fn flush(&mut self, engine: &CorrelationEngine, emitted_at: &str) -> (r: Dump)
        requires
            engine.wf(),
            old(self).dump_seq < u32::MAX,
        ensures
            final(self).dump_seq == old(self).dump_seq + 1,
            final(self).server == old(self).server,
            final(self).run_id == old(self).run_id,
            final(self).walked_shares == old(self).walked_shares,
            final(self).wants_document == old(self).wants_document,
            r.seq == old(self).dump_seq,
            exists|rows: Seq<RowView>| #[trigger]
                engine@.is_summary(rows) && r.console@ == engine@.table_text(rows),
            r.document is Some == old(self).wants_document,
            r.document is Some ==> exists|keys: Seq<KeyDay>| #[trigger]
                engine@.is_emission(keys) && r.document->0@ == document_text(
                    old(self).meta(emitted_at@),
                    keys.map_values(|e: KeyDay| engine@.emit_row(e)),
                ),
    {
        let console = engine.resolved_table();
        let document = if self.wants_document {
            let rows = engine.emit_rows();
            let meta = Meta {
                server: self.server.as_str(),
                run_id: self.run_id.as_str(),
                dump_seq: self.dump_seq,
                emitted_at,
                walked_shares: self.walked_shares.as_slice(),
            };
            assert(meta@ == self.meta(emitted_at@));
            Some(document(&meta, rows.as_slice()))
        } else {
            None
        };
        let seq = self.dump_seq;
        self.dump_seq = seq + 1;
        Dump { console, document, seq }
    }
}

/// The line logged for a document that was posted.
pub fn posted_line(seq: u32, status: u16) -> (r: String)
    ensures
        r@ == "emit: POST dump_seq="@ + dec(seq as nat) + " -> "@ + dec(status as nat),
{
    let mut s = "emit: POST dump_seq=".to_owned();
    push_dec(&mut s, seq as u64);
    s.append(" -> ");
    push_dec(&mut s, status as u64);
    s
}

/// The line logged for a document that could not be posted. It is dropped: the next
/// one supersedes it.
pub fn post_failed_line(seq: u32, error: &str) -> (r: String)
    ensures
        r@ == "emit: POST dump_seq="@ + dec(seq as nat) + " failed: "@ + error@,
{
    let mut s = "emit: POST dump_seq=".to_owned();
    push_dec(&mut s, seq as u64);
    s.append(" failed: ");
    s.append(error);
    s
}

} // verus!
