//! What a document looks like, which documents are taken, and where they are kept.

use crate::correlation::EmitView;
use crate::emit::{
    document_lines, document_text, footer_line, header_line, law_document_is_line_delimited,
    lemma_document_line, lines_text, row_line, sorted_texts, MetaView,
};
use crate::ingest::{
    body_result, disposition, dump_file_name, first_8_bytes, first_problem, header_of,
    header_result, line_fields, line_problem, naming_ok, naming_problem, ndjson_lines, sent_header,
    DispositionView, HeaderFieldsView, HeaderView, LineView,
};
use crate::json::{dec_or_null, escaped, json_quoted, members_text, quoted_items, quoted_list};
use crate::rows::sent_row;
use crate::split::{first_at, lemma_first_at, split};
use crate::text::{debug_text, dec, dec_int};
use vstd::prelude::*;
use vstd::utf8::*;

verus! {

// ---- what is written ------------------------------------------------------

proof fn lemma_plain_char(c: char)
    requires
        ' ' <= c,
        c != '"',
        c != '\\',
    ensures
        crate::json::escaped_char(c) == seq![c],
{
}

/// A text without quotes, backslashes and control characters needs no escape.
proof fn lemma_plain_quoted(s: Seq<char>)
    requires
        forall|i: int| 0 <= i < s.len() ==> ' ' <= #[trigger] s[i] && s[i] != '"' && s[i] != '\\',
    ensures
        escaped(s) == s,
        json_quoted(s) == seq!['"'] + s + seq!['"'],
    decreases s.len(),
{
    if s.len() > 0 {
        lemma_plain_quoted(s.drop_last());
        let c = s[s.len() - 1];
        assert(' ' <= c);
        lemma_plain_char(c);
        assert(escaped(s) =~= s);
    } else {
        assert(escaped(s) =~= s);
    }
}

/// A list of texts, an item at a time.
pub proof fn law_list_text(items: Seq<Seq<char>>, x: Seq<char>)
    ensures
        quoted_list(Seq::empty()) == "[]"@,
        quoted_list(seq![x]) == "["@ + json_quoted(x) + "]"@,
        items.len() > 0 ==> quoted_list(items.push(x)) + ","@ == quoted_list(items).drop_last() + ","@
            + json_quoted(x) + "],"@,
{
    reveal_strlit("[]");
    reveal_strlit("[");
    reveal_strlit("]");
    reveal_strlit(",");
    reveal_strlit("],");
    assert(quoted_list(Seq::empty()) =~= "[]"@);
    assert(quoted_items(seq![x]) == json_quoted(seq![x][0]));
    if items.len() > 0 {
        assert(items.push(x).drop_last() =~= items);
        assert(quoted_list(items).drop_last() =~= "["@ + quoted_items(items));
        assert(quoted_list(items.push(x)) + ","@ =~= quoted_list(items).drop_last() + ","@
            + json_quoted(x) + "],"@);
    }
}

/// A footer's text.
pub proof fn law_footer_text(n: nat)
    ensures
        footer_line(n) == "{\"type\":\"footer\",\"rows\":"@ + dec(n) + "}"@,
{
    reveal_strlit("{\"type\":\"footer\",\"rows\":");
    lemma_names();
    reveal_with_fuel(members_text, 3);
    let ms = crate::emit::footer_members(n);
    assert(ms.drop_last() =~= seq![ms[0]]);
    assert(footer_line(n) =~= "{\"type\":\"footer\",\"rows\":"@ + dec(n) + "}"@);
}

#[verifier::spinoff_prover]
proof fn lemma_names()
    ensures
        "{"@ == seq!['{'],
        "}"@ == seq!['}'],
        ":"@ == seq![':'],
        ","@ == seq![','],
        json_quoted("type"@) == seq!['"', 't', 'y', 'p', 'e', '"'],
        json_quoted("footer"@) == seq!['"', 'f', 'o', 'o', 't', 'e', 'r', '"'],
        json_quoted("rows"@) == seq!['"', 'r', 'o', 'w', 's', '"'],
        json_quoted("row"@) == seq!['"', 'r', 'o', 'w', '"'],
        json_quoted("header"@) == seq!['"', 'h', 'e', 'a', 'd', 'e', 'r', '"'],
{
    reveal_strlit("{");
    reveal_strlit("}");
    reveal_strlit(":");
    reveal_strlit(",");
    reveal_strlit("type");
    reveal_strlit("footer");
    reveal_strlit("rows");
    reveal_strlit("row");
    reveal_strlit("header");
    lemma_plain_quoted("type"@);
    lemma_plain_quoted("footer"@);
    lemma_plain_quoted("rows"@);
    lemma_plain_quoted("row"@);
    lemma_plain_quoted("header"@);
    assert("{"@ =~= seq!['{']);
    assert("}"@ =~= seq!['}']);
    assert(":"@ =~= seq![':']);
    assert(","@ =~= seq![',']);
    assert(json_quoted("type"@) =~= seq!['"', 't', 'y', 'p', 'e', '"']);
    assert(json_quoted("footer"@) =~= seq!['"', 'f', 'o', 'o', 't', 'e', 'r', '"']);
    assert(json_quoted("rows"@) =~= seq!['"', 'r', 'o', 'w', 's', '"']);
    assert(json_quoted("row"@) =~= seq!['"', 'r', 'o', 'w', '"']);
    assert(json_quoted("header"@) =~= seq!['"', 'h', 'e', 'a', 'd', 'e', 'r', '"']);
}

/// A member behind others: a comma, its name in quotes, a colon and its value.
proof fn lemma_member(
    ms: Seq<(Seq<char>, Seq<char>)>,
    before: Seq<char>,
    label: Seq<char>,
    name: Seq<char>,
    value: Seq<char>,
)
    requires
        ms.len() > 0,
        members_text(ms) == before,
        label.len() == name.len() + 4,
        label[0] == ',',
        label[1] == '"',
        label.subrange(2, 2 + name.len() as int) == name,
        label[2 + name.len() as int] == '"',
        label[3 + name.len() as int] == ':',
        forall|i: int|
            0 <= i < name.len() ==> ' ' <= #[trigger] name[i] && name[i] != '"' && name[i] != '\\',
    ensures
        members_text(ms.push((name, value))) == before + label + value,
{
    reveal_strlit(",");
    reveal_strlit(":");
    lemma_plain_quoted(name);
    assert(ms.push((name, value)).drop_last() =~= ms);
    assert(label =~= ","@ + (seq!['"'] + name + seq!['"']) + ":"@) by {
        assert forall|i: int| 0 <= i < label.len() implies label[i] == (","@ + (seq!['"'] + name
            + seq!['"']) + ":"@)[i] by {
            if 2 <= i < name.len() + 2 {
                assert(label[i] == label.subrange(2, 2 + name.len() as int)[i - 2]);
            }
        }
    }
    assert(members_text(ms.push((name, value))) =~= before + label + value);
}

/// A row's text: the file, the day, the counts, the size or null, and the flags.
#[verifier::spinoff_prover]
pub proof fn law_row_text(r: EmitView)
    ensures
        row_line(r) == "{\"type\":\"row\""@ + ",\"share\":"@ + json_quoted(r.share) + ",\"path\":"@
            + json_quoted(r.path) + ",\"day\":"@ + dec_int(r.day as int) + ",\"reads\":"@ + dec(
            r.reads as nat,
        ) + ",\"writes\":"@ + dec(r.writes as nat) + ",\"alloc_bytes\":"@ + (
        if r.alloc_bytes is Some {
            dec(r.alloc_bytes->0 as nat)
        } else {
            "null"@
        }) + ",\"flags\":"@ + quoted_list(r.flags) + "}"@,
{
    lemma_names();
    reveal_strlit("share");
    reveal_strlit("path");
    reveal_strlit("day");
    reveal_strlit("reads");
    reveal_strlit("writes");
    reveal_strlit("alloc_bytes");
    reveal_strlit("flags");
    reveal_strlit("{\"type\":\"row\"");
    reveal_strlit(",\"share\":");
    reveal_strlit(",\"path\":");
    reveal_strlit(",\"day\":");
    reveal_strlit(",\"reads\":");
    reveal_strlit(",\"writes\":");
    reveal_strlit(",\"alloc_bytes\":");
    reveal_strlit(",\"flags\":");
    let t0 = seq![("type"@, json_quoted("row"@))];
    let t1 = t0.push(("share"@, json_quoted(r.share)));
    let t2 = t1.push(("path"@, json_quoted(r.path)));
    let t3 = t2.push(("day"@, dec_int(r.day as int)));
    let t4 = t3.push(("reads"@, dec(r.reads as nat)));
    let t5 = t4.push(("writes"@, dec(r.writes as nat)));
    let t6 = t5.push(("alloc_bytes"@, dec_or_null(r.alloc_bytes)));
    let t7 = t6.push(("flags"@, quoted_list(r.flags)));
    assert(crate::emit::row_members(r) =~= t7);
    assert(",\"share\":"@.subrange(2, 7) =~= "share"@);
    assert(",\"path\":"@.subrange(2, 6) =~= "path"@);
    assert(",\"day\":"@.subrange(2, 5) =~= "day"@);
    assert(",\"reads\":"@.subrange(2, 7) =~= "reads"@);
    assert(",\"writes\":"@.subrange(2, 8) =~= "writes"@);
    assert(",\"alloc_bytes\":"@.subrange(2, 13) =~= "alloc_bytes"@);
    assert(",\"flags\":"@.subrange(2, 7) =~= "flags"@);
    let x0 = members_text(t0);
    assert("{"@ + x0 =~= "{\"type\":\"row\""@);
    lemma_member(t0, x0, ",\"share\":"@, "share"@, json_quoted(r.share));
    let x1 = members_text(t1);
    lemma_member(t1, x1, ",\"path\":"@, "path"@, json_quoted(r.path));
    let x2 = members_text(t2);
    lemma_member(t2, x2, ",\"day\":"@, "day"@, dec_int(r.day as int));
    let x3 = members_text(t3);
    lemma_member(t3, x3, ",\"reads\":"@, "reads"@, dec(r.reads as nat));
    let x4 = members_text(t4);
    lemma_member(t4, x4, ",\"writes\":"@, "writes"@, dec(r.writes as nat));
    let x5 = members_text(t5);
    lemma_member(t5, x5, ",\"alloc_bytes\":"@, "alloc_bytes"@, dec_or_null(r.alloc_bytes));
    let x6 = members_text(t6);
    lemma_member(t6, x6, ",\"flags\":"@, "flags"@, quoted_list(r.flags));
    let y1 = ",\"share\":"@ + json_quoted(r.share);
    assert("{"@ + x1 =~= "{\"type\":\"row\""@ + ",\"share\":"@ + json_quoted(r.share));
    assert("{"@ + x2 =~= ("{"@ + x1) + ",\"path\":"@ + json_quoted(r.path));
    assert("{"@ + x3 =~= ("{"@ + x2) + ",\"day\":"@ + dec_int(r.day as int));
    assert("{"@ + x4 =~= ("{"@ + x3) + ",\"reads\":"@ + dec(r.reads as nat));
    assert("{"@ + x5 =~= ("{"@ + x4) + ",\"writes\":"@ + dec(r.writes as nat));
    assert("{"@ + x6 =~= ("{"@ + x5) + ",\"alloc_bytes\":"@ + dec_or_null(r.alloc_bytes));
    assert("{"@ + members_text(t7) =~= ("{"@ + x6) + ",\"flags\":"@ + quoted_list(r.flags));
}

/// A header's text: the server, the run, the dump's number and time, and the shares
/// that were walked, sorted.
#[verifier::spinoff_prover]
pub proof fn law_header_text(m: MetaView)
    ensures
        header_line(m) == "{\"type\":\"header\""@ + ",\"server\":"@ + json_quoted(m.server)
            + ",\"run_id\":"@ + json_quoted(m.run_id) + ",\"dump_seq\":"@ + dec(m.dump_seq as nat)
            + ",\"emitted_at\":"@ + json_quoted(m.emitted_at) + ",\"walked_shares\":"@ + quoted_list(
            sorted_texts(m.walked_shares),
        ) + "}"@,
{
    lemma_names();
    reveal_strlit("server");
    reveal_strlit("run_id");
    reveal_strlit("dump_seq");
    reveal_strlit("emitted_at");
    reveal_strlit("walked_shares");
    reveal_strlit("{\"type\":\"header\"");
    reveal_strlit(",\"server\":");
    reveal_strlit(",\"run_id\":");
    reveal_strlit(",\"dump_seq\":");
    reveal_strlit(",\"emitted_at\":");
    reveal_strlit(",\"walked_shares\":");
    let walked = quoted_list(sorted_texts(m.walked_shares));
    let t0 = seq![("type"@, json_quoted("header"@))];
    let t1 = t0.push(("server"@, json_quoted(m.server)));
    let t2 = t1.push(("run_id"@, json_quoted(m.run_id)));
    let t3 = t2.push(("dump_seq"@, dec(m.dump_seq as nat)));
    let t4 = t3.push(("emitted_at"@, json_quoted(m.emitted_at)));
    let t5 = t4.push(("walked_shares"@, walked));
    assert(crate::emit::header_members(m) =~= t5);
    assert(",\"server\":"@.subrange(2, 8) =~= "server"@);
    assert(",\"run_id\":"@.subrange(2, 8) =~= "run_id"@);
    assert(",\"dump_seq\":"@.subrange(2, 10) =~= "dump_seq"@);
    assert(",\"emitted_at\":"@.subrange(2, 12) =~= "emitted_at"@);
    assert(",\"walked_shares\":"@.subrange(2, 15) =~= "walked_shares"@);
    let x0 = members_text(t0);
    assert("{"@ + x0 =~= "{\"type\":\"header\""@);
    lemma_member(t0, x0, ",\"server\":"@, "server"@, json_quoted(m.server));
    let x1 = members_text(t1);
    lemma_member(t1, x1, ",\"run_id\":"@, "run_id"@, json_quoted(m.run_id));
    let x2 = members_text(t2);
    lemma_member(t2, x2, ",\"dump_seq\":"@, "dump_seq"@, dec(m.dump_seq as nat));
    let x3 = members_text(t3);
    lemma_member(t3, x3, ",\"emitted_at\":"@, "emitted_at"@, json_quoted(m.emitted_at));
    let x4 = members_text(t4);
    lemma_member(t4, x4, ",\"walked_shares\":"@, "walked_shares"@, walked);
    assert("{"@ + x1 =~= "{\"type\":\"header\""@ + ",\"server\":"@ + json_quoted(m.server));
    assert("{"@ + x2 =~= ("{"@ + x1) + ",\"run_id\":"@ + json_quoted(m.run_id));
    assert("{"@ + x3 =~= ("{"@ + x2) + ",\"dump_seq\":"@ + dec(m.dump_seq as nat));
    assert("{"@ + x4 =~= ("{"@ + x3) + ",\"emitted_at\":"@ + json_quoted(m.emitted_at));
    assert("{"@ + members_text(t5) =~= ("{"@ + x4) + ",\"walked_shares\":"@ + walked);
}

/// A document, cut at its line breaks: the header, each row in order, a footer with the
/// number of rows, and nothing after the last line break.
pub proof fn law_document_pieces(m: MetaView, rows: Seq<EmitView>, i: int)
    ensures
        ({
            let pieces = split(document_text(m, rows), '\n');
            &&& pieces.len() == rows.len() + 3
            &&& pieces[0] == header_line(m)
            &&& 0 <= i < rows.len() ==> pieces[i + 1] == row_line(rows[i])
            &&& pieces[1 + rows.len() as int] == footer_line(rows.len())
            &&& pieces[2 + rows.len() as int].len() == 0
        }),
{
    law_document_is_line_delimited(m, rows);
    lemma_document_line(m, rows, 0);
    let lines = document_lines(m, rows);
    assert(split(document_text(m, rows), '\n') == lines.push(Seq::empty()));
    assert(0 <= i < rows.len() ==> lines[i + 1] == row_line(rows[i]));
}

/// What is sent is what is received: field by field.
pub proof fn law_sent_is_received(m: MetaView, e: EmitView)
    ensures
        sent_header(m).server == m.server,
        sent_header(m).run_id == m.run_id,
        sent_header(m).dump_seq == m.dump_seq,
        sent_header(m).emitted_at == Some(m.emitted_at),
        sent_row(e).share == e.share,
        sent_row(e).path == e.path,
        sent_row(e).day == e.day,
        sent_row(e).reads == e.reads,
        sent_row(e).writes == e.writes,
        sent_row(e).alloc_bytes == e.alloc_bytes,
        sent_row(e).flags == e.flags,
{
}

// ---- what is taken --------------------------------------------------------

/// A header's names are taken just where the server is made of lower-case letters,
/// digits and hyphens and does not start with a hyphen, the run is 32 hexadecimal digits
/// in groups of 8, 4, 4, 4 and 12, and the dump's number is not zero, however great it
/// is.
pub proof fn law_naming(h: HeaderView)
    ensures
        naming_ok(h) <==> {
            &&& h.server.len() > 0
            &&& h.server[0] != '-'
            &&& forall|i: int|
                0 <= i < h.server.len() ==> 'a' <= #[trigger] h.server[i] <= 'z' || '0'
                    <= h.server[i] <= '9' || h.server[i] == '-'
            &&& h.run_id.len() == 36
            &&& h.run_id[8] == '-' && h.run_id[13] == '-' && h.run_id[18] == '-' && h.run_id[23]
                == '-'
            &&& forall|i: int|
                0 <= i < 36 && i != 8 && i != 13 && i != 18 && i != 23 ==> '0'
                    <= #[trigger] h.run_id[i] <= '9' || 'a' <= h.run_id[i] <= 'f' || 'A'
                    <= h.run_id[i] <= 'F'
            &&& h.dump_seq > 0
        },
{
}

/// What is said of names that are refused: the server first, then the run, then the
/// number, which can only be zero.
pub proof fn law_naming_problem(h: HeaderView)
    requires
        !naming_ok(h),
    ensures
        ({
            let server_ok = h.server.len() > 0 && h.server[0] != '-' && forall|i: int|
                0 <= i < h.server.len() ==> 'a' <= #[trigger] h.server[i] <= 'z' || '0'
                    <= h.server[i] <= '9' || h.server[i] == '-';
            let run_ok = h.run_id.len() == 36 && h.run_id[8] == '-' && h.run_id[13] == '-'
                && h.run_id[18] == '-' && h.run_id[23] == '-' && forall|i: int|
                0 <= i < 36 && i != 8 && i != 13 && i != 18 && i != 23 ==> '0'
                    <= #[trigger] h.run_id[i] <= '9' || 'a' <= h.run_id[i] <= 'f' || 'A'
                    <= h.run_id[i] <= 'F';
            &&& !server_ok ==> naming_problem(h) == "invalid server name "@ + debug_text(h.server)
            &&& server_ok && !run_ok ==> naming_problem(h) == "invalid run_id "@ + debug_text(
                h.run_id,
            )
            &&& server_ok && run_ok ==> {
                &&& h.dump_seq == 0
                &&& naming_problem(h) == "dump_seq "@ + dec(0) + " < 1"@
            }
        }),
{
}

/// A first line makes a header just where its type is `header` and the server, the run
/// and the number are there; otherwise the first of these that fails is named.
pub proof fn law_header_needs(f: HeaderFieldsView)
    ensures
        match header_of(f) {
            Ok(h) => {
                &&& f.kind == "header"@
                &&& f.server == Some(h.server)
                &&& f.run_id == Some(h.run_id)
                &&& f.dump_seq == Some(h.dump_seq)
                &&& f.emitted_at == h.emitted_at
            },
            Err(e) => {
                ||| f.kind != "header"@ && e == "first line type is "@ + debug_text(f.kind)
                    + ", not \"header\""@
                ||| f.kind == "header"@ && f.server is None && e == "header missing \"server\""@
                ||| f.kind == "header"@ && f.server is Some && f.run_id is None && e
                    == "header missing \"run_id\""@
                ||| f.kind == "header"@ && f.server is Some && f.run_id is Some && f.dump_seq is None
                    && e == "header missing \"dump_seq\""@
            },
        },
{
}

/// What is wrong with a line, if anything: it is no JSON, it is neither a row nor a
/// footer, or it is a footer too early or without a count. The lines behind the header
/// are numbered from 2.
pub proof fn law_line_problems(l: LineView, e: Seq<char>, i: int, n: int)
    ensures
        line_problem(Err(e), i, n) == Some(
            "line "@ + dec((i + 2) as nat) + " is not valid JSON: "@ + e,
        ),
        line_problem(Ok(l), i, n) is None <==> l.kind == "row"@ || (l.kind == "footer"@ && i + 1 == n
            && l.rows is Some),
        l.kind != "row"@ && l.kind != "footer"@ ==> line_problem(Ok(l), i, n) == Some(
            "line "@ + dec((i + 2) as nat) + " has unexpected type "@ + debug_text(l.kind),
        ),
        l.kind == "footer"@ && i + 1 != n ==> line_problem(Ok(l), i, n) == Some(
            "footer is not the last line"@,
        ),
        l.kind == "footer"@ && i + 1 == n && l.rows is None ==> line_problem(Ok(l), i, n) == Some(
            "footer missing \"rows\""@,
        ),
{
    reveal_strlit("row");
    reveal_strlit("footer");
    assert("row"@.len() != "footer"@.len());
}

proof fn lemma_no_problem_before(lines: Seq<Seq<char>>, k: int)
    requires
        0 <= k <= lines.len(),
        forall|j: int|
            0 <= j < k ==> line_problem(
                line_fields(#[trigger] lines[j]),
                j,
                lines.len() as int,
            ) is None,
    ensures
        first_problem(lines, k) is None,
    decreases k,
{
    if k > 0 {
        lemma_no_problem_before(lines, k - 1);
        assert(line_problem(line_fields(lines[k - 1]), k - 1, lines.len() as int) is None);
    }
}

proof fn lemma_problem_stays(lines: Seq<Seq<char>>, k: int, n: int)
    requires
        0 <= k <= n,
        first_problem(lines, k) is Some,
    ensures
        first_problem(lines, n) == first_problem(lines, k),
    decreases n,
{
    if k < n {
        lemma_problem_stays(lines, k, n - 1);
    }
}

/// The first line with a problem is the one that a document is rejected for.
pub proof fn law_first_problem_counts(lines: Seq<Seq<char>>, k: int)
    requires
        0 <= k < lines.len(),
        forall|j: int|
            0 <= j < k ==> line_problem(
                line_fields(#[trigger] lines[j]),
                j,
                lines.len() as int,
            ) is None,
        line_problem(line_fields(lines[k]), k, lines.len() as int) is Some,
    ensures
        body_result(lines) == Err::<usize, Seq<char>>(
            line_problem(line_fields(lines[k]), k, lines.len() as int)->0,
        ),
{
    lemma_no_problem_before(lines, k);
    lemma_problem_stays(lines, k + 1, lines.len() as int);
}

/// Without a problem in any line, a document is rejected if its last line is no footer,
/// or if the footer counts other than the lines before it.
pub proof fn law_footer_counts(lines: Seq<Seq<char>>)
    requires
        forall|j: int|
            0 <= j < lines.len() ==> line_problem(
                line_fields(#[trigger] lines[j]),
                j,
                lines.len() as int,
            ) is None,
    ensures
        ({
            let n = lines.len() as int;
            let last = line_fields(lines[n - 1]);
            if n == 0 || last->Ok_0.kind != "footer"@ {
                body_result(lines) == Err::<usize, Seq<char>>("missing footer"@)
            } else if last->Ok_0.rows->0 != n - 1 {
                body_result(lines) == Err::<usize, Seq<char>>(
                    "footer rows="@ + dec(last->Ok_0.rows->0 as nat) + " but counted "@ + dec(
                        (n - 1) as nat,
                    ) + " row lines"@,
                )
            } else {
                body_result(lines) is Ok && body_result(lines)->Ok_0 == n - 1
            }
        }),
{
    lemma_no_problem_before(lines, lines.len() as int);
}

/// A document is looked at in this order: whether it is UTF-8, whether it has a line,
/// whether its first line is a header, whether the header's names are taken, and
/// whether the other lines are framed. Only the last leaves the header trusted.
pub proof fn law_disposition_order(body: Seq<u8>)
    ensures
        ({
            let lines = ndjson_lines(decode_utf8(body));
            let d = disposition(body);
            let head = header_result(lines[0]);
            let framed = body_result(lines.drop_first());
            &&& !valid_utf8(body) ==> d == (DispositionView::Malformed {
                reason: "body is not valid UTF-8"@,
            })
            &&& valid_utf8(body) && lines.len() == 0 ==> d == (DispositionView::Malformed {
                reason: "empty body"@,
            })
            &&& valid_utf8(body) && lines.len() > 0 ==> match head {
                Err(reason) => d == (DispositionView::Malformed { reason }),
                Ok(header) => if !naming_ok(header) {
                    d == (DispositionView::Malformed { reason: naming_problem(header) })
                } else {
                    match framed {
                        Err(reason) => d == (DispositionView::Rejected { header, reason }),
                        Ok(rows) => d == (DispositionView::Accepted { header, rows }),
                    }
                },
            }
        }),
{
}

/// The lines of a document hold no line break and, each followed by one, make up the
/// document again; only the last line break may be missing.
pub proof fn law_lines_make_the_text(text: Seq<char>)
    ensures
        ({
            let lines = ndjson_lines(text);
            &&& forall|i: int| 0 <= i < lines.len() ==> !(#[trigger] lines[i]).contains('\n')
            &&& text.len() == 0 || text.last() == '\n' ==> lines_text(lines) == text
            &&& text.len() > 0 && text.last() != '\n' ==> lines_text(lines) == text.push('\n')
        }),
{
    lemma_pieces(text);
    let pieces = split(text, '\n');
    let n = pieces.len();
    assert(pieces.last() == pieces[n - 1]);
    if pieces.last().len() == 0 {
        assert(pieces.last() =~= Seq::empty());
        assert(pieces =~= pieces.drop_last().push(Seq::empty()));
        assert(lines_text(pieces) =~= lines_text(pieces.drop_last()).push('\n'));
        assert(text =~= lines_text(pieces.drop_last())) by {
            assert(lines_text(pieces).drop_last() =~= lines_text(pieces.drop_last()));
            assert(text.push('\n').drop_last() =~= text);
        }
        if text.len() > 0 {
            assert(text.last() == '\n');
        }
    } else {
        let last = pieces.last();
        assert(!last.contains('\n'));
        assert(last[last.len() - 1] != '\n');
        let whole = lines_text(pieces);
        assert(whole == (lines_text(pieces.drop_last()) + last).push('\n'));
        assert(text =~= lines_text(pieces.drop_last()) + last) by {
            assert(whole.drop_last() =~= lines_text(pieces.drop_last()) + last);
            assert(text.push('\n').drop_last() =~= text);
        }
        assert(text[text.len() - 1] == last[last.len() - 1]);
    }
}

proof fn lemma_pieces(text: Seq<char>)
    ensures
        split(text, '\n').len() > 0,
        lines_text(split(text, '\n')) == text.push('\n'),
        forall|i: int|
            0 <= i < split(text, '\n').len() ==> !(#[trigger] split(text, '\n')[i]).contains('\n'),
    decreases text.len(),
{
    lemma_first_at(text, '\n');
    let k = first_at(text, '\n');
    let pieces = split(text, '\n');
    if k == text.len() {
        assert(pieces =~= seq![text]);
        assert(pieces.drop_last() =~= Seq::empty());
        assert(pieces.last() == text);
        assert(lines_text(pieces.drop_last()) + text =~= text);
        assert(lines_text(pieces) =~= text.push('\n'));
        assert(!text.contains('\n'));
    } else {
        let rest = text.skip(k + 1);
        lemma_pieces(rest);
        assert(!text.take(k).contains('\n')) by {
            assert forall|j: int| 0 <= j < k implies #[trigger] text.take(k)[j] != '\n' by {}
        }
        crate::emit::lemma_lines_text_front(pieces);
        assert(pieces.drop_first() =~= split(rest, '\n'));
        assert(text.push('\n') =~= text.take(k).push('\n') + rest.push('\n'));
        assert forall|i: int| 0 <= i < pieces.len() implies !(#[trigger] pieces[i]).contains(
            '\n',
        ) by {
            if i > 0 {
                assert(pieces[i] == split(rest, '\n')[i - 1]);
            }
        }
    }
}

/// Lines in a row, each followed by a line break.
pub proof fn law_lines_text(lines: Seq<Seq<char>>, x: Seq<char>)
    ensures
        lines_text(Seq::empty()).len() == 0,
        lines_text(lines.push(x)) == lines_text(lines) + x + "\n"@,
{
    reveal_strlit("\n");
    assert(lines.push(x).drop_last() =~= lines);
    assert(lines_text(lines.push(x)) =~= lines_text(lines) + x + "\n"@);
}

// ---- where it is kept -----------------------------------------------------

/// A document's file name: the beginning of its run, a hyphen, its number and
/// `.ndjson`. Documents of one beginning have one name only if they have one number.
pub proof fn law_file_names(run8: Seq<char>, other8: Seq<char>, a: u32, b: u32)
    ensures
        dump_file_name(run8, a) == run8 + "-"@ + dec(a as nat) + ".ndjson"@,
        run8.len() == other8.len() && dump_file_name(run8, a) == dump_file_name(other8, b) ==> run8
            == other8 && a == b,
{
    let (x, y) = (dump_file_name(run8, a), dump_file_name(other8, b));
    let (m, n) = (dec(a as nat), dec(b as nat));
    if run8.len() == other8.len() && x == y {
        let k = run8.len() as int;
        reveal_strlit("-");
        reveal_strlit(".ndjson");
        assert(x.take(k) =~= run8);
        assert(y.take(k) =~= other8);
        assert("-"@.len() == 1 && ".ndjson"@.len() == 7);
        assert(x.len() == k + 1 + m.len() + 7);
        assert(y.len() == k + 1 + n.len() + 7);
        assert(m.len() == n.len());
        assert(x.subrange(k + 1, k + 1 + m.len()) =~= m);
        assert(y.subrange(k + 1, k + 1 + n.len()) =~= n);
        lemma_dec_injective(a as nat, b as nat);
    }
}

/// The first eight bytes of a text that can be cut there are the part before the cut.
pub proof fn law_first_8_bytes(a: Seq<char>, b: Seq<char>)
    requires
        encode_utf8(a).len() == 8,
    ensures
        first_8_bytes(a + b) == a,
{
    crate::db::lemma_encode_concat(a, b);
    assert((encode_utf8(a) + encode_utf8(b)).subrange(0, 8) =~= encode_utf8(a));
    encode_utf8_decode_utf8(a);
}

/// Two numbers with one decimal text are one.
proof fn lemma_dec_injective(a: nat, b: nat)
    requires
        dec(a) == dec(b),
    ensures
        a == b,
    decreases a,
{
    crate::text::lemma_dec_digits(a / 10);
    crate::text::lemma_dec_digits(b / 10);
    let (s, t) = (dec(a), dec(b));
    if a >= 10 && b >= 10 {
        assert(s.drop_last() =~= dec(a / 10));
        assert(t.drop_last() =~= dec(b / 10));
        lemma_dec_injective(a / 10, b / 10);
        assert(s.last() == t.last());
    } else if a < 10 && b < 10 {
        assert(s[0] == t[0]);
    } else if a >= 10 {
        assert(s.len() > 1);
    } else {
        assert(t.len() > 1);
    }
}

} // verus!
