//! The rows of an accepted document, read back from its lines.

use crate::complaints::{
    fmt_missing_field, kind_of, known_views, lemma_distinct, missing_field, well_typed, Kind,
};
use crate::correlation::EmitView;
use crate::db::{dump_views, facts_of, DumpRow, DumpView};
use crate::emit::{
    document_lines, document_text, law_document_is_line_delimited, lemma_row_members, row_line,
    row_members, string_views, MetaView,
};
use crate::fields::distinct_names;
use crate::ingest::{line_object, ndjson_lines, read_object, split_ndjson, utf8_text};
use crate::json::{
    dec_or_null, is_plain_object, json_i32, json_i32_value, json_opt_u64, json_optional_u64,
    json_quoted, json_string, json_strings, json_text, json_texts, json_u32, json_u32_value,
    object_text, quoted_list,
};
use crate::pairs::{by_name, lookup, pair_views};
use crate::split::texts;
use crate::store::{dump_fits, law_counts_are_replaced, law_facts_are_replaced, Database};
use crate::text::{dec, dec_int, push_dec_wide};
use vstd::prelude::*;
use vstd::utf8::*;

verus! {

/// The fields that a row is read for.
pub open spec fn row_kinds() -> Seq<(Seq<char>, Kind)> {
    seq![
        ("share"@, Kind::Text),
        ("path"@, Kind::Text),
        ("day"@, Kind::I32),
        ("reads"@, Kind::U32),
        ("writes"@, Kind::U32),
        ("alloc_bytes"@, Kind::OptU64),
        ("flags"@, Kind::Texts),
    ]
}

/// A string member that has to be there.
pub open spec fn needed_text(
    line: Seq<char>,
    m: Map<Seq<char>, Seq<char>>,
    name: Seq<char>,
) -> Result<Seq<char>, Seq<char>> {
    if m.contains_key(name) {
        json_text(m[name])
    } else {
        Err(missing_field(line, name))
    }
}

/// A `u32` member that has to be there.
pub open spec fn needed_u32(
    line: Seq<char>,
    m: Map<Seq<char>, Seq<char>>,
    name: Seq<char>,
) -> Result<u32, Seq<char>> {
    if m.contains_key(name) {
        json_u32_value(m[name])
    } else {
        Err(missing_field(line, name))
    }
}

/// An `i32` member that has to be there.
pub open spec fn needed_i32(
    line: Seq<char>,
    m: Map<Seq<char>, Seq<char>>,
    name: Seq<char>,
) -> Result<i32, Seq<char>> {
    if m.contains_key(name) {
        json_i32_value(m[name])
    } else {
        Err(missing_field(line, name))
    }
}

/// The row of a line: an object with a share, a path, a day and the counts; the bytes
/// may be missing or null, and the flags may be missing. None of them stands twice.
pub open spec fn row_fields(line: Seq<char>) -> Result<DumpView, Seq<char>> {
    match line_object(line, row_kinds()) {
        Err(e) => Err(e),
        Ok(m) => match needed_text(line, m, "share"@) {
            Err(e) => Err(e),
            Ok(share) => match needed_text(line, m, "path"@) {
                Err(e) => Err(e),
                Ok(path) => match needed_i32(line, m, "day"@) {
                    Err(e) => Err(e),
                    Ok(day) => match needed_u32(line, m, "reads"@) {
                        Err(e) => Err(e),
                        Ok(reads) => match needed_u32(line, m, "writes"@) {
                            Err(e) => Err(e),
                            Ok(writes) => row_of(m, share, path, day, reads, writes),
                        },
                    },
                },
            },
        },
    }
}

/// A row with its optional members.
pub open spec fn row_of(
    m: Map<Seq<char>, Seq<char>>,
    share: Seq<char>,
    path: Seq<char>,
    day: i32,
    reads: u32,
    writes: u32,
) -> Result<DumpView, Seq<char>> {
    let alloc = if m.contains_key("alloc_bytes"@) {
        json_opt_u64(m["alloc_bytes"@])
    } else {
        Ok(None)
    };
    let flags = if m.contains_key("flags"@) {
        json_texts(m["flags"@])
    } else {
        Ok(Seq::empty())
    };
    match alloc {
        Err(e) => Err(e),
        Ok(alloc_bytes) => match flags {
            Err(e) => Err(e),
            Ok(flags) => Ok(DumpView { share, path, day, reads, writes, alloc_bytes, flags }),
        },
    }
}

/// The row that was sent.
pub open spec fn sent_row(e: EmitView) -> DumpView {
    DumpView {
        share: e.share,
        path: e.path,
        day: e.day,
        reads: e.reads,
        writes: e.writes,
        alloc_bytes: e.alloc_bytes,
        flags: e.flags,
    }
}

fn need_text(line: &str, pairs: &Vec<(String, String)>, name: &str) -> (r: Result<String, String>)
    ensures
        match r {
            Ok(s) => needed_text(line@, by_name(pair_views(pairs@)), name@) == Ok::<
                Seq<char>,
                Seq<char>,
            >(s@),
            Err(e) => needed_text(line@, by_name(pair_views(pairs@)), name@) == Err::<
                Seq<char>,
                Seq<char>,
            >(e@),
        },
        forall|s: Seq<char>|
            by_name(pair_views(pairs@)).contains_key(name@) && by_name(pair_views(pairs@))[name@]
                == #[trigger] json_quoted(s) ==> r is Ok && r->Ok_0@ == s,
{
    match lookup(pairs, name) {
        Some(raw) => json_string(raw),
        None => Err(fmt_missing_field(line, name)),
    }
}

fn need_u32(line: &str, pairs: &Vec<(String, String)>, name: &str) -> (r: Result<u32, String>)
    ensures
        match r {
            Ok(n) => needed_u32(line@, by_name(pair_views(pairs@)), name@) == Ok::<u32, Seq<char>>(
                n,
            ),
            Err(e) => needed_u32(line@, by_name(pair_views(pairs@)), name@) == Err::<
                u32,
                Seq<char>,
            >(e@),
        },
        forall|n: u32|
            by_name(pair_views(pairs@)).contains_key(name@) && by_name(pair_views(pairs@))[name@]
                == #[trigger] dec(n as nat) ==> r is Ok && r->Ok_0 == n,
{
    match lookup(pairs, name) {
        Some(raw) => json_u32(raw),
        None => Err(fmt_missing_field(line, name)),
    }
}

fn need_i32(line: &str, pairs: &Vec<(String, String)>, name: &str) -> (r: Result<i32, String>)
    ensures
        match r {
            Ok(n) => needed_i32(line@, by_name(pair_views(pairs@)), name@) == Ok::<i32, Seq<char>>(
                n,
            ),
            Err(e) => needed_i32(line@, by_name(pair_views(pairs@)), name@) == Err::<
                i32,
                Seq<char>,
            >(e@),
        },
        forall|n: i32|
            by_name(pair_views(pairs@)).contains_key(name@) && by_name(pair_views(pairs@))[name@]
                == #[trigger] dec_int(n as int) ==> r is Ok && r->Ok_0 == n,
{
    match lookup(pairs, name) {
        Some(raw) => json_i32(raw),
        None => Err(fmt_missing_field(line, name)),
    }
}

/// The names of a row's members differ.
proof fn lemma_row_names()
    ensures
        kind_of(row_kinds(), "type"@) is None,
        kind_of(row_kinds(), "share"@) == Some(Kind::Text),
        kind_of(row_kinds(), "path"@) == Some(Kind::Text),
        kind_of(row_kinds(), "day"@) == Some(Kind::I32),
        kind_of(row_kinds(), "reads"@) == Some(Kind::U32),
        kind_of(row_kinds(), "writes"@) == Some(Kind::U32),
        kind_of(row_kinds(), "alloc_bytes"@) == Some(Kind::OptU64),
        kind_of(row_kinds(), "flags"@) == Some(Kind::Texts),
{
    reveal_strlit("type");
    reveal_strlit("share");
    reveal_strlit("path");
    reveal_strlit("day");
    reveal_strlit("reads");
    reveal_strlit("writes");
    reveal_strlit("alloc_bytes");
    reveal_strlit("flags");
    assert("type"@.len() == 4 && "path"@.len() == 4 && "day"@.len() == 3);
    assert("share"@.len() == 5 && "reads"@.len() == 5 && "flags"@.len() == 5);
    assert("writes"@.len() == 6 && "alloc_bytes"@.len() == 11);
    assert("type"@[0] == 't' && "path"@[0] == 'p');
    assert("share"@[0] == 's' && "reads"@[0] == 'r' && "flags"@[0] == 'f');
    reveal_with_fuel(kind_of, 8);
    let k = row_kinds();
    let k6 = k.drop_last();
    let k5 = k6.drop_last();
    let k4 = k5.drop_last();
    let k3 = k4.drop_last();
    let k2 = k3.drop_last();
    let k1 = k2.drop_last();
    assert(k6 =~= seq![k[0], k[1], k[2], k[3], k[4], k[5]]);
    assert(k5 =~= seq![k[0], k[1], k[2], k[3], k[4]]);
    assert(k4 =~= seq![k[0], k[1], k[2], k[3]]);
    assert(k3 =~= seq![k[0], k[1], k[2]]);
    assert(k2 =~= seq![k[0], k[1]]);
    assert(k1 =~= seq![k[0]]);
    assert(k1.drop_last() =~= Seq::empty());
}

/// A written row's members are of their kinds, and found by their names.
proof fn lemma_row_kinds(e: EmitView)
    ensures
        is_plain_object(row_members(e)),
        distinct_names(row_members(e)),
        well_typed(row_members(e), row_kinds()),
        ({
            let o = by_name(row_members(e));
            &&& o.contains_key("share"@) && o["share"@] == json_quoted(e.share)
            &&& o.contains_key("path"@) && o["path"@] == json_quoted(e.path)
            &&& o.contains_key("day"@) && o["day"@] == dec_int(e.day as int)
            &&& o.contains_key("reads"@) && o["reads"@] == dec(e.reads as nat)
            &&& o.contains_key("writes"@) && o["writes"@] == dec(e.writes as nat)
            &&& o.contains_key("alloc_bytes"@) && o["alloc_bytes"@] == dec_or_null(e.alloc_bytes)
            &&& o.contains_key("flags"@) && o["flags"@] == quoted_list(e.flags)
        }),
{
    let ms = row_members(e);
    lemma_row_members(e);
    lemma_row_names();
    lemma_distinct(ms, 1);
    lemma_distinct(ms, 2);
    lemma_distinct(ms, 3);
    lemma_distinct(ms, 4);
    lemma_distinct(ms, 5);
    lemma_distinct(ms, 6);
    lemma_distinct(ms, 7);
    assert(ms[1].1 == json_quoted(e.share));
    assert(ms[2].1 == json_quoted(e.path));
    assert(ms[3].1 == dec_int(e.day as int));
    assert(ms[4].1 == dec(e.reads as nat));
    assert(ms[5].1 == dec(e.writes as nat));
    assert(ms[6].1 == dec_or_null(e.alloc_bytes));
    assert(ms[7].1 == quoted_list(e.flags));
}

/// Read a row. One that was written is read back with what was written.
pub fn read_row(line: &str) -> (r: Result<DumpRow, String>)
    ensures
        match r {
            Ok(row) => row_fields(line@) == Ok::<DumpView, Seq<char>>(row@),
            Err(e) => row_fields(line@) == Err::<DumpView, Seq<char>>(e@),
        },
        forall|e: EmitView|
            line@ == #[trigger] row_line(e) ==> r is Ok && r->Ok_0@ == sent_row(e),
{
    proof {
        assert forall|e: EmitView| line@ == #[trigger] row_line(e) implies is_plain_object(
            row_members(e),
        ) && distinct_names(row_members(e)) && well_typed(row_members(e), row_kinds()) && line@
            == object_text(row_members(e)) by {
            lemma_row_kinds(e);
        }
    }
    let known = [
        ("share", Kind::Text),
        ("path", Kind::Text),
        ("day", Kind::I32),
        ("reads", Kind::U32),
        ("writes", Kind::U32),
        ("alloc_bytes", Kind::OptU64),
        ("flags", Kind::Texts),
    ];
    assert(known_views(known@) =~= row_kinds());
    let pairs = match read_object(line, &known) {
        Ok(p) => p,
        Err(e) => {
            return Err(e);
        },
    };
    let ghost o = by_name(pair_views(pairs@));
    proof {
        assert forall|e: EmitView| line@ == #[trigger] row_line(e) implies {
            &&& o.contains_key("share"@) && o["share"@] == json_quoted(e.share)
            &&& o.contains_key("path"@) && o["path"@] == json_quoted(e.path)
            &&& o.contains_key("day"@) && o["day"@] == dec_int(e.day as int)
            &&& o.contains_key("reads"@) && o["reads"@] == dec(e.reads as nat)
            &&& o.contains_key("writes"@) && o["writes"@] == dec(e.writes as nat)
            &&& o.contains_key("alloc_bytes"@) && o["alloc_bytes"@] == dec_or_null(e.alloc_bytes)
            &&& o.contains_key("flags"@) && o["flags"@] == quoted_list(e.flags)
        } by {
            lemma_row_kinds(e);
        }
    }
    let share = match need_text(line, &pairs, "share") {
        Ok(s) => s,
        Err(e) => {
            return Err(e);
        },
    };
    let path = match need_text(line, &pairs, "path") {
        Ok(s) => s,
        Err(e) => {
            return Err(e);
        },
    };
    let day = match need_i32(line, &pairs, "day") {
        Ok(n) => n,
        Err(e) => {
            return Err(e);
        },
    };
    let reads = match need_u32(line, &pairs, "reads") {
        Ok(n) => n,
        Err(e) => {
            return Err(e);
        },
    };
    let writes = match need_u32(line, &pairs, "writes") {
        Ok(n) => n,
        Err(e) => {
            return Err(e);
        },
    };
    let alloc_bytes = match lookup(&pairs, "alloc_bytes") {
        None => None,
        Some(raw) => match json_optional_u64(raw) {
            Ok(n) => n,
            Err(e) => {
                return Err(e);
            },
        },
    };
    let flags: Vec<String> = match lookup(&pairs, "flags") {
        None => {
            let none: Vec<String> = Vec::new();
            assert(string_views(none@) =~= Seq::empty());
            none
        },
        Some(raw) => match json_strings(raw) {
            Ok(v) => v,
            Err(e) => {
                return Err(e);
            },
        },
    };
    let row = DumpRow { share, path, day, reads, writes, alloc_bytes, flags };
    assert(row@.flags =~= string_views(flags@));
    Ok(row)
}

/// The rows of the lines from the second up to line `k`, or the first that is none.
pub open spec fn rows_upto(lines: Seq<Seq<char>>, k: int) -> Result<Seq<DumpView>, Seq<char>>
    decreases k,
{
    if k <= 1 {
        Ok(Seq::empty())
    } else {
        match rows_upto(lines, k - 1) {
            Err(e) => Err(e),
            Ok(rows) => match row_fields(lines[k - 1]) {
                Ok(row) => Ok(rows.push(row)),
                Err(e) => Err("line "@ + dec(k as nat) + " is not a valid row: "@ + e),
            },
        }
    }
}

/// The rows of a document: its lines between the first and the last.
pub open spec fn rows_result(body: Seq<u8>) -> Result<Seq<DumpView>, Seq<char>> {
    let lines = ndjson_lines(decode_utf8(body));
    if valid_utf8(body) {
        rows_upto(lines, lines.len() - 1)
    } else {
        Err("body is not valid UTF-8"@)
    }
}

proof fn lemma_rows_stay(lines: Seq<Seq<char>>, k: int, n: int)
    requires
        k <= n,
        rows_upto(lines, k) is Err,
    ensures
        rows_upto(lines, n) == rows_upto(lines, k),
    decreases n - k,
{
    if k < n {
        lemma_rows_stay(lines, k, n - 1);
    }
}

/// The lines of a document with these rows.
pub open spec fn hold_rows(lines: Seq<Seq<char>>, sent: Seq<EmitView>) -> bool {
    &&& lines.len() == sent.len() + 2
    &&& forall|j: int| 0 <= j < sent.len() ==> lines[j + 1] == row_line(#[trigger] sent[j])
}

proof fn lemma_document_holds_rows(m: MetaView, sent: Seq<EmitView>)
    ensures
        valid_utf8(encode_utf8(document_text(m, sent))),
        hold_rows(ndjson_lines(decode_utf8(encode_utf8(document_text(m, sent)))), sent),
{
    let text = document_text(m, sent);
    encode_utf8_valid_utf8(text);
    encode_utf8_decode_utf8(text);
    law_document_is_line_delimited(m, sent);
    let lines = document_lines(m, sent);
    assert(lines.push(Seq::empty()).drop_last() =~= lines);
}

/// The rows of lines: those between the first and the last.
fn rows_between(lines: &Vec<&str>) -> (r: Result<Vec<DumpRow>, String>)
    ensures
        match r {
            Ok(rows) => rows_upto(texts(lines@), lines@.len() - 1) == Ok::<
                Seq<DumpView>,
                Seq<char>,
            >(dump_views(rows@)),
            Err(e) => rows_upto(texts(lines@), lines@.len() - 1) == Err::<
                Seq<DumpView>,
                Seq<char>,
            >(e@),
        },
        forall|sent: Seq<EmitView>| #[trigger]
            hold_rows(texts(lines@), sent) ==> r is Ok && dump_views(r->Ok_0@) == sent.map_values(
                |e: EmitView| sent_row(e),
            ),
{
    let n = lines.len();
    let ghost all = texts(lines@);
    let mut rows: Vec<DumpRow> = Vec::new();
    let mut k: usize = 1;
    assert(dump_views(rows@) =~= Seq::empty());
    while k < n && k + 1 < n
        invariant
            1 <= k,
            k < n || k == 1,
            n == lines@.len(),
            all == texts(lines@),
            rows_upto(all, k as int) == Ok::<Seq<DumpView>, Seq<char>>(dump_views(rows@)),
            rows@.len() == k - 1,
            forall|sent: Seq<EmitView>, j: int|
                #![trigger hold_rows(all, sent), rows@[j]]
                hold_rows(all, sent) && 0 <= j < rows@.len() ==> rows@[j]@ == sent_row(sent[j]),
        decreases n - k,
    {
        assert(all[k as int] == lines@[k as int]@);
        let ghost before = rows@;
        match read_row(lines[k]) {
            Ok(row) => {
                proof {
                    assert forall|sent: Seq<EmitView>| #[trigger]
                        hold_rows(all, sent) implies row@ == sent_row(sent[k - 1]) by {
                        assert(all[(k - 1) + 1] == row_line(sent[k - 1]));
                    }
                }
                rows.push(row);
                assert(dump_views(rows@) =~= dump_views(before).push(row@));
            },
            Err(e) => {
                let mut s = "line ".to_owned();
                push_dec_wide(&mut s, k as u128 + 1);
                s.append(" is not a valid row: ");
                s.append(e.as_str());
                proof {
                    assert(rows_upto(all, k + 1) == Err::<Seq<DumpView>, Seq<char>>(s@));
                    lemma_rows_stay(all, k + 1, n - 1);
                    assert forall|sent: Seq<EmitView>| #[trigger]
                        hold_rows(all, sent) implies false by {
                        assert(all[(k - 1) + 1] == row_line(sent[k - 1]));
                    }
                }
                return Err(s);
            },
        }
        k = k + 1;
    }
    proof {
        assert forall|sent: Seq<EmitView>| #[trigger] hold_rows(all, sent) implies dump_views(rows@)
            == sent.map_values(|e: EmitView| sent_row(e)) by {
            let views = sent.map_values(|e: EmitView| sent_row(e));
            assert forall|j: int| 0 <= j < sent.len() implies dump_views(rows@)[j] == views[j] by {
                assert(rows@[j]@ == sent_row(sent[j]));
            }
            assert(dump_views(rows@) =~= views);
        }
    }
    Ok(rows)
}

/// Read the rows of a document. Those of a document that was written are the rows that
/// it was written with, in their order.
pub fn read_rows(body: &[u8]) -> (r: Result<Vec<DumpRow>, String>)
    ensures
        match r {
            Ok(rows) => rows_result(body@) == Ok::<Seq<DumpView>, Seq<char>>(dump_views(rows@)),
            Err(e) => rows_result(body@) == Err::<Seq<DumpView>, Seq<char>>(e@),
        },
        forall|m: MetaView, sent: Seq<EmitView>|
            body@ == encode_utf8(#[trigger] document_text(m, sent)) ==> r is Ok && dump_views(
                r->Ok_0@,
            ) == sent.map_values(|e: EmitView| sent_row(e)),
        forall|m: MetaView, sent: Seq<EmitView>, i: int|
            #![trigger document_text(m, sent), sent[i]]
            body@ == encode_utf8(document_text(m, sent)) && 0 <= i < sent.len() ==> {
                &&& r is Ok
                &&& r->Ok_0@.len() == sent.len()
                &&& r->Ok_0@[i].share@ == sent[i].share
                &&& r->Ok_0@[i].path@ == sent[i].path
                &&& r->Ok_0@[i].day == sent[i].day
                &&& r->Ok_0@[i].reads == sent[i].reads
                &&& r->Ok_0@[i].writes == sent[i].writes
                &&& r->Ok_0@[i].alloc_bytes == sent[i].alloc_bytes
                &&& r->Ok_0@[i]@.flags == sent[i].flags
            },
{
    proof {
        assert forall|m: MetaView, sent: Seq<EmitView>|
            body@ == encode_utf8(#[trigger] document_text(m, sent)) implies valid_utf8(body@)
            && hold_rows(ndjson_lines(decode_utf8(body@)), sent) by {
            lemma_document_holds_rows(m, sent);
        }
    }
    match utf8_text(body) {
        Some(text) => {
            proof {
                encode_utf8_decode_utf8(text@);
            }
            let r = rows_between(&split_ndjson(text));
            proof {
                assert forall|m: MetaView, sent: Seq<EmitView>, i: int|
                    #![trigger document_text(m, sent), sent[i]]
                    body@ == encode_utf8(document_text(m, sent)) && 0 <= i < sent.len() implies {
                    &&& r is Ok
                    &&& r->Ok_0@.len() == sent.len()
                    &&& r->Ok_0@[i]@ == sent_row(sent[i])
                } by {
                    let views = sent.map_values(|e: EmitView| sent_row(e));
                    assert(dump_views(r->Ok_0@) == views);
                    assert(dump_views(r->Ok_0@).len() == views.len());
                    assert(dump_views(r->Ok_0@)[i] == views[i]);
                }
            }
            r
        },
        None => Err("body is not valid UTF-8".to_owned()),
    }
}

/// What the agent writes in a row is what the collector stores: once a dump is ingested
/// with the rows that it was written with, a row's counts are those of its file, run and
/// day, unless a later row of the dump is for the same.
pub proof fn law_sent_counts_are_stored(
    db: Database,
    server: Seq<char>,
    run_id: Seq<char>,
    ts: Seq<char>,
    seq: i64,
    sent: Seq<EmitView>,
    i: int,
)
    requires
        db.inv(),
        db.has_ids(sent.len() as int),
        !db.is_seen(run_id, seq),
        dump_fits(seq, sent.map_values(|e: EmitView| sent_row(e))),
        0 <= i < sent.len(),
        forall|j: int|
            i < j < sent.len() ==> (#[trigger] sent[j]).share != sent[i].share || sent[j].path
                != sent[i].path || sent[j].day != sent[i].day,
    ensures
        ({
            let rows = sent.map_values(|e: EmitView| sent_row(e));
            let after = db.ingested(server, run_id, ts, seq, rows).0;
            after.counts_of(server, sent[i].share, sent[i].path, run_id, sent[i].day) == Some(
                (sent[i].reads as i64, sent[i].writes as i64),
            )
        }),
{
    let rows = sent.map_values(|e: EmitView| sent_row(e));
    assert forall|j: int| i < j < rows.len() implies (#[trigger] rows[j]).share != rows[i].share
        || rows[j].path != rows[i].path || rows[j].day != rows[i].day by {
        assert(sent[j].share != sent[i].share || sent[j].path != sent[i].path || sent[j].day
            != sent[i].day);
    }
    law_counts_are_replaced(db, server, run_id, ts, seq, rows, i);
}

/// The same of a file: once the dump is ingested the file has the bytes and the flags of
/// its row, and was last seen with the dump, unless a later row is for the same file.
pub proof fn law_sent_facts_are_stored(
    db: Database,
    server: Seq<char>,
    run_id: Seq<char>,
    ts: Seq<char>,
    seq: i64,
    sent: Seq<EmitView>,
    i: int,
)
    requires
        db.inv(),
        db.has_ids(sent.len() as int),
        !db.is_seen(run_id, seq),
        dump_fits(seq, sent.map_values(|e: EmitView| sent_row(e))),
        0 <= i < sent.len(),
        forall|j: int|
            i < j < sent.len() ==> (#[trigger] sent[j]).share != sent[i].share || sent[j].path
                != sent[i].path,
    ensures
        ({
            let rows = sent.map_values(|e: EmitView| sent_row(e));
            let after = db.ingested(server, run_id, ts, seq, rows).0;
            after.facts_at(server, sent[i].share, sent[i].path) == Some(
                (facts_of(sent_row(sent[i])), ts),
            )
        }),
{
    let rows = sent.map_values(|e: EmitView| sent_row(e));
    assert forall|j: int| i < j < rows.len() implies (#[trigger] rows[j]).share != rows[i].share
        || rows[j].path != rows[i].path by {
        assert(sent[j].share != sent[i].share || sent[j].path != sent[i].path);
    }
    law_facts_are_replaced(db, server, run_id, ts, seq, rows, i);
}

} // verus!
