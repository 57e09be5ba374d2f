//! Framing of one flush's snapshot as newline-delimited JSON.
//!
//! One document per flush: a `header` line with the run's identity and this dump's
//! sequence number and time, one `row` line per (share, path, day), and a `footer`
//! line with the row count. The type stands first on every line.

use crate::correlation::{emit_views, EmitRow, EmitView};
use crate::fields::distinct_names;
use crate::json::{
    dec_or_null, is_plain_object, is_plain_value, json_quote, json_quoted,
    lemma_plain_object_is_one_line, members_text, object_text, quoted_items, quoted_list,
};
use crate::pairs::by_name;
use crate::split::{lemma_split_piece, lemma_split_whole, split};
use crate::text::{
    dec, dec_int, fmt_dec, fmt_dec_int, in_text_order, lemma_text_le_total,
    lemma_text_le_transitive, text_le,
};
use vstd::prelude::*;

verus! {

/// What a header says besides the rows: the run's identity, minted once, this
/// dump's number and time, and the walked shares.
pub struct Meta<'a> {
    pub server: &'a str,
    pub run_id: &'a str,
    pub dump_seq: u32,
    pub emitted_at: &'a str,
    /// In any order; the header lists them sorted.
    pub walked_shares: &'a [String],
}

/// The mathematical value of the metadata.
pub struct MetaView {
    pub server: Seq<char>,
    pub run_id: Seq<char>,
    pub dump_seq: u32,
    pub emitted_at: Seq<char>,
    pub walked_shares: Seq<Seq<char>>,
}

impl<'a> View for Meta<'a> {
    type V = MetaView;

    open spec fn view(&self) -> MetaView {
        MetaView {
            server: self.server@,
            run_id: self.run_id@,
            dump_seq: self.dump_seq,
            emitted_at: self.emitted_at@,
            walked_shares: self.walked_shares@.map_values(|s: String| s@),
        }
    }
}

// ---- sorting --------------------------------------------------------------

/// `x` put into its place in a sorted list.
pub open spec fn inserted(s: Seq<Seq<char>>, x: Seq<char>) -> Seq<Seq<char>>
    decreases s.len(),
{
    if s.len() == 0 || text_le(s.last(), x) {
        s.push(x)
    } else {
        inserted(s.drop_last(), x).push(s.last())
    }
}

/// The texts in ascending order.
pub open spec fn sorted_texts(s: Seq<Seq<char>>) -> Seq<Seq<char>>
    decreases s.len(),
{
    if s.len() == 0 {
        s
    } else {
        inserted(sorted_texts(s.drop_last()), s.last())
    }
}

proof fn lemma_inserted_at(s: Seq<Seq<char>>, x: Seq<char>, p: int)
    requires
        0 <= p <= s.len(),
        p > 0 ==> text_le(s[p - 1], x),
        forall|j: int| p <= j < s.len() ==> !text_le(#[trigger] s[j], x),
    ensures
        inserted(s, x) == s.insert(p, x),
    decreases s.len(),
{
    if s.len() == 0 || text_le(s.last(), x) {
        if s.len() > 0 && p < s.len() {
            assert(!text_le(s[s.len() - 1], x));
        }
        assert(s.insert(p, x) =~= s.push(x));
    } else {
        let init = s.drop_last();
        assert(p < s.len());
        lemma_inserted_at(init, x, p);
        assert(init.insert(p, x).push(s.last()) =~= s.insert(p, x));
    }
}

proof fn lemma_inserted_sorted(s: Seq<Seq<char>>, x: Seq<char>)
    requires
        forall|i: int, j: int| 0 <= i < j < s.len() ==> text_le(#[trigger] s[i], #[trigger] s[j]),
    ensures
        inserted(s, x).len() == s.len() + 1,
        inserted(s, x).to_multiset() == s.to_multiset().insert(x),
        forall|i: int, j: int|
            0 <= i < j < inserted(s, x).len() ==> text_le(
                #[trigger] inserted(s, x)[i],
                #[trigger] inserted(s, x)[j],
            ),
        forall|i: int|
            0 <= i < inserted(s, x).len() ==> #[trigger] inserted(s, x)[i] == x || s.contains(
                inserted(s, x)[i],
            ),
    decreases s.len(),
{
    broadcast use vstd::seq_lib::group_to_multiset_ensures;

    if s.len() == 0 || text_le(s.last(), x) {
        let r = s.push(x);
        assert forall|i: int, j: int| 0 <= i < j < r.len() implies text_le(
            #[trigger] r[i],
            #[trigger] r[j],
        ) by {
            if j == s.len() && i < s.len() - 1 {
                lemma_text_le_transitive(s[i], s[s.len() - 1], x);
            }
        }
    } else {
        let init = s.drop_last();
        let last = s.last();
        let mid = inserted(init, x);
        lemma_inserted_sorted(init, x);
        lemma_text_le_total(last, x);
        assert(s =~= init.push(last));
        let r = mid.push(last);
        assert(r.to_multiset() =~= s.to_multiset().insert(x));
        assert forall|i: int, j: int| 0 <= i < j < r.len() implies text_le(
            #[trigger] r[i],
            #[trigger] r[j],
        ) by {
            if j == mid.len() {
                assert(r[i] == mid[i]);
                if mid[i] != x {
                    let k = choose|k: int| 0 <= k < init.len() && init[k] == mid[i];
                    assert(s[k] == mid[i] && s[s.len() - 1] == last);
                }
            } else {
                assert(r[i] == mid[i] && r[j] == mid[j]);
            }
        }
        assert forall|i: int| 0 <= i < r.len() implies #[trigger] r[i] == x || s.contains(r[i]) by {
            if i < mid.len() {
                assert(r[i] == mid[i]);
                if mid[i] != x {
                    let k = choose|k: int| 0 <= k < init.len() && init[k] == mid[i];
                    assert(s[k] == r[i]);
                }
            } else {
                assert(s[s.len() - 1] == r[i]);
            }
        }
    }
}

/// The header's shares are the walked shares, each as often as given, in ascending
/// order.
pub proof fn law_sorted_texts(s: Seq<Seq<char>>)
    ensures
        sorted_texts(s).to_multiset() == s.to_multiset(),
        forall|i: int, j: int|
            0 <= i < j < sorted_texts(s).len() ==> text_le(
                #[trigger] sorted_texts(s)[i],
                #[trigger] sorted_texts(s)[j],
            ),
    decreases s.len(),
{
    broadcast use vstd::seq_lib::group_to_multiset_ensures;

    if s.len() > 0 {
        law_sorted_texts(s.drop_last());
        lemma_inserted_sorted(sorted_texts(s.drop_last()), s.last());
        assert(s =~= s.drop_last().push(s.last()));
    }
}

/// The values of strings.
pub open spec fn string_views(v: Seq<String>) -> Seq<Seq<char>> {
    v.map_values(|s: String| s@)
}

fn sorted_copy(v: &[String]) -> (r: Vec<String>)
    ensures
        string_views(r@) == sorted_texts(string_views(v@)),
{
    let mut out: Vec<String> = Vec::new();
    let ghost all = string_views(v@);
    let mut i: usize = 0;
    assert(string_views(out@) =~= sorted_texts(all.take(0)));
    while i < v.len()
        invariant
            i <= v@.len(),
            all == string_views(v@),
            string_views(out@) == sorted_texts(all.take(i as int)),
        decreases v@.len() - i,
    {
        let ghost before = string_views(out@);
        let mut p: usize = out.len();
        while p > 0 && !in_text_order(out[p - 1].as_str(), v[i].as_str())
            invariant
                i < v@.len(),
                p <= out@.len(),
                before == string_views(out@),
                forall|j: int| p <= j < out@.len() ==> !text_le(#[trigger] before[j], v@[i as int]@),
            decreases p,
        {
            assert(before[p - 1] == out@[p - 1]@);
            p = p - 1;
        }
        proof {
            if p > 0 {
                assert(before[p - 1] == out@[p - 1]@);
            }
            lemma_inserted_at(before, v@[i as int]@, p as int);
        }
        out.insert(p, v[i].clone());
        assert(string_views(out@) =~= before.insert(p as int, v@[i as int]@));
        assert(all.take(i + 1).drop_last() =~= all.take(i as int));
        i = i + 1;
    }
    assert(all.take(all.len() as int) =~= all);
    out
}

// ---- lines ----------------------------------------------------------------

/// The members of a header line.
pub open spec fn header_members(m: MetaView) -> Seq<(Seq<char>, Seq<char>)> {
    seq![
        ("type"@, json_quoted("header"@)),
        ("server"@, json_quoted(m.server)),
        ("run_id"@, json_quoted(m.run_id)),
        ("dump_seq"@, dec(m.dump_seq as nat)),
        ("emitted_at"@, json_quoted(m.emitted_at)),
        ("walked_shares"@, quoted_list(sorted_texts(m.walked_shares))),
    ]
}

/// The members of a row line.
pub open spec fn row_members(r: EmitView) -> Seq<(Seq<char>, Seq<char>)> {
    seq![
        ("type"@, json_quoted("row"@)),
        ("share"@, json_quoted(r.share)),
        ("path"@, json_quoted(r.path)),
        ("day"@, dec_int(r.day as int)),
        ("reads"@, dec(r.reads as nat)),
        ("writes"@, dec(r.writes as nat)),
        ("alloc_bytes"@, dec_or_null(r.alloc_bytes)),
        ("flags"@, quoted_list(r.flags)),
    ]
}

/// The members of a footer line.
pub open spec fn footer_members(rows: nat) -> Seq<(Seq<char>, Seq<char>)> {
    seq![("type"@, json_quoted("footer"@)), ("rows"@, dec(rows))]
}

pub open spec fn header_line(m: MetaView) -> Seq<char> {
    object_text(header_members(m))
}

pub open spec fn row_line(r: EmitView) -> Seq<char> {
    object_text(row_members(r))
}

pub open spec fn footer_line(rows: nat) -> Seq<char> {
    object_text(footer_members(rows))
}

/// The lines of a document.
pub open spec fn document_lines(m: MetaView, rows: Seq<EmitView>) -> Seq<Seq<char>> {
    seq![header_line(m)] + rows.map_values(|r: EmitView| row_line(r)) + seq![
        footer_line(rows.len()),
    ]
}

/// Lines, each followed by a line break.
pub open spec fn lines_text(lines: Seq<Seq<char>>) -> Seq<char>
    decreases lines.len(),
{
    if lines.len() == 0 {
        Seq::empty()
    } else {
        (lines_text(lines.drop_last()) + lines.last()).push('\n')
    }
}

/// A document: the header line, one line per row, the footer line with the row
/// count.
pub open spec fn document_text(m: MetaView, rows: Seq<EmitView>) -> Seq<char> {
    lines_text(document_lines(m, rows))
}

/// The values of members to write.
pub open spec fn member_views(v: Seq<(&str, String)>) -> Seq<(Seq<char>, Seq<char>)> {
    v.map_values(|m: (&str, String)| (m.0@, m.1@))
}

fn write_object(members: &Vec<(&str, String)>) -> (r: String)
    ensures
        r@ == object_text(member_views(members@)),
{
    let ghost all = member_views(members@);
    let mut out = "{".to_owned();
    let mut i: usize = 0;
    assert("{"@ + members_text(all.take(0)) =~= "{"@);
    while i < members.len()
        invariant
            i <= members@.len(),
            all == member_views(members@),
            out@ == "{"@ + members_text(all.take(i as int)),
        decreases members@.len() - i,
    {
        let ghost part = all.take(i + 1);
        assert(part.drop_last() =~= all.take(i as int));
        assert(part.last() == (members@[i as int].0@, members@[i as int].1@));
        if i > 0 {
            out.append(",");
        }
        out.append(json_quote(members[i].0).as_str());
        out.append(":");
        out.append(members[i].1.as_str());
        assert(out@ =~= "{"@ + members_text(part));
        i = i + 1;
    }
    assert(all.take(all.len() as int) =~= all);
    out.append("}");
    out
}

fn write_list(items: &Vec<String>) -> (r: String)
    ensures
        r@ == quoted_list(string_views(items@)),
{
    let ghost all = string_views(items@);
    let mut out = "[".to_owned();
    let mut i: usize = 0;
    assert("["@ + quoted_items(all.take(0)) =~= "["@);
    while i < items.len()
        invariant
            i <= items@.len(),
            all == string_views(items@),
            out@ == "["@ + quoted_items(all.take(i as int)),
        decreases items@.len() - i,
    {
        let ghost part = all.take(i + 1);
        assert(part.drop_last() =~= all.take(i as int));
        assert(part.last() == items@[i as int]@);
        if i > 0 {
            out.append(",");
        }
        out.append(json_quote(items[i].as_str()).as_str());
        assert(out@ =~= "["@ + quoted_items(part));
        i = i + 1;
    }
    assert(all.take(all.len() as int) =~= all);
    out.append("]");
    out
}

fn write_header(meta: &Meta) -> (r: String)
    ensures
        r@ == header_line(meta@),
{
    let walked = sorted_copy(meta.walked_shares);
    let mut members: Vec<(&str, String)> = Vec::new();
    members.push(("type", json_quote("header")));
    members.push(("server", json_quote(meta.server)));
    members.push(("run_id", json_quote(meta.run_id)));
    members.push(("dump_seq", fmt_dec(meta.dump_seq as u64)));
    members.push(("emitted_at", json_quote(meta.emitted_at)));
    members.push(("walked_shares", write_list(&walked)));
    assert(member_views(members@) =~= header_members(meta@));
    write_object(&members)
}

fn write_row(row: &EmitRow) -> (r: String)
    ensures
        r@ == row_line(row@),
{
    let mut flags: Vec<String> = Vec::new();
    let mut i: usize = 0;
    while i < row.flags.len()
        invariant
            i <= row.flags@.len(),
            string_views(flags@) == row@.flags.take(i as int),
        decreases row.flags@.len() - i,
    {
        let ghost before = flags@;
        flags.push(row.flags[i].to_owned());
        assert(string_views(flags@) =~= string_views(before).push(row.flags@[i as int]@));
        assert(row@.flags.take(i + 1) =~= row@.flags.take(i as int).push(row@.flags[i as int]));
        i = i + 1;
    }
    assert(row@.flags.take(row@.flags.len() as int) =~= row@.flags);
    let alloc = match row.alloc_bytes {
        Some(b) => fmt_dec(b),
        None => "null".to_owned(),
    };
    let mut members: Vec<(&str, String)> = Vec::new();
    members.push(("type", json_quote("row")));
    members.push(("share", json_quote(row.share.as_str())));
    members.push(("path", json_quote(row.path.as_str())));
    members.push(("day", fmt_dec_int(row.day as i64)));
    members.push(("reads", fmt_dec(row.reads as u64)));
    members.push(("writes", fmt_dec(row.writes as u64)));
    members.push(("alloc_bytes", alloc));
    members.push(("flags", write_list(&flags)));
    assert(member_views(members@) =~= row_members(row@));
    write_object(&members)
}

fn write_footer(rows: usize) -> (r: String)
    ensures
        r@ == footer_line(rows as nat),
{
    let mut members: Vec<(&str, String)> = Vec::new();
    members.push(("type", json_quote("footer")));
    members.push(("rows", fmt_dec(rows as u64)));
    assert(member_views(members@) =~= footer_members(rows as nat));
    write_object(&members)
}

/// One flush's snapshot as a document. Without rows it is a header and a footer
/// that counts none. A trailing line break keeps concatenated documents apart.
pub fn document(meta: &Meta, rows: &[EmitRow]) -> (r: String)
    ensures
        r@ == document_text(meta@, emit_views(rows@)),
{
    let ghost lines = document_lines(meta@, emit_views(rows@));
    let mut out = String::new();
    let head = write_header(meta);
    out.append(head.as_str());
    out.push('\n');
    assert(lines.take(1).drop_last() =~= lines.take(0));
    assert(lines.take(1).last() == head@);
    assert(lines_text(lines.take(0)) =~= Seq::empty());
    assert(out@ =~= lines_text(lines.take(1)));
    let mut i: usize = 0;
    while i < rows.len()
        invariant
            i <= rows@.len(),
            lines == document_lines(meta@, emit_views(rows@)),
            out@ == lines_text(lines.take(i + 1)),
        decreases rows@.len() - i,
    {
        let line = write_row(&rows[i]);
        assert(lines.take(i + 2).drop_last() =~= lines.take(i + 1));
        assert(lines.take(i + 2).last() == line@) by {
            assert(emit_views(rows@)[i as int] == rows@[i as int]@);
        }
        out.append(line.as_str());
        out.push('\n');
        assert(out@ =~= lines_text(lines.take(i + 2)));
        i = i + 1;
    }
    let foot = write_footer(rows.len());
    assert(lines.drop_last() =~= lines.take((rows@.len() + 1) as int));
    assert(lines.last() == foot@);
    out.append(foot.as_str());
    out.push('\n');
    assert(out@ =~= lines_text(lines));
    out
}

// ---- the document as lines ------------------------------------------------

proof fn lemma_dec_is_plain(n: nat)
    ensures
        is_plain_value(dec(n)),
{
    assert(dec_int(n as int) == dec(n));
}

/// A header is an object of plain values under distinct names, found by them.
pub proof fn lemma_header_members(m: MetaView)
    ensures
        is_plain_object(header_members(m)),
        distinct_names(header_members(m)),
        ({
            let o = by_name(header_members(m));
            &&& o.contains_key("type"@) && o["type"@] == json_quoted("header"@)
            &&& o.contains_key("server"@) && o["server"@] == json_quoted(m.server)
            &&& o.contains_key("run_id"@) && o["run_id"@] == json_quoted(m.run_id)
            &&& o.contains_key("dump_seq"@) && o["dump_seq"@] == dec(m.dump_seq as nat)
            &&& o.contains_key("emitted_at"@) && o["emitted_at"@] == json_quoted(m.emitted_at)
        }),
{
    let ms = header_members(m);
    lemma_dec_is_plain(m.dump_seq as nat);
    assert(is_plain_value(ms[0].1));
    assert(is_plain_value(ms[1].1));
    assert(is_plain_value(ms[2].1));
    assert(is_plain_value(ms[4].1));
    assert(is_plain_value(ms[5].1));
    reveal_strlit("type");
    reveal_strlit("server");
    reveal_strlit("run_id");
    reveal_strlit("dump_seq");
    reveal_strlit("emitted_at");
    reveal_strlit("walked_shares");
    reveal_with_fuel(by_name, 7);
    assert(ms.drop_last() =~= seq![ms[0], ms[1], ms[2], ms[3], ms[4]]);
    assert(ms.drop_last().drop_last() =~= seq![ms[0], ms[1], ms[2], ms[3]]);
    assert(ms.drop_last().drop_last().drop_last() =~= seq![ms[0], ms[1], ms[2]]);
    assert(ms.drop_last().drop_last().drop_last().drop_last() =~= seq![ms[0], ms[1]]);
    assert("run_id"@[0] != "server"@[0]);
    assert("dump_seq"@.len() == 8);
    assert("emitted_at"@.len() == 10);
    assert("walked_shares"@.len() == 13);
    assert("type"@.len() == 4);
    assert("server"@.len() == 6);
    assert("run_id"@.len() == 6);
}

/// A row is an object of plain values under distinct names, with its type; it has no
/// `rows`.
pub proof fn lemma_row_members(r: EmitView)
    ensures
        is_plain_object(row_members(r)),
        distinct_names(row_members(r)),
        ({
            let o = by_name(row_members(r));
            &&& o.contains_key("type"@) && o["type"@] == json_quoted("row"@)
            &&& !o.contains_key("rows"@)
        }),
{
    let ms = row_members(r);
    lemma_dec_is_plain(r.reads as nat);
    lemma_dec_is_plain(r.writes as nat);
    if r.alloc_bytes is Some {
        lemma_dec_is_plain(r.alloc_bytes->0 as nat);
    }
    assert(is_plain_value(ms[0].1));
    assert(is_plain_value(ms[1].1));
    assert(is_plain_value(ms[2].1));
    assert(is_plain_value(ms[3].1));
    assert(is_plain_value(ms[6].1));
    assert(is_plain_value(ms[7].1));
    reveal_strlit("type");
    reveal_strlit("share");
    reveal_strlit("path");
    reveal_strlit("day");
    reveal_strlit("reads");
    reveal_strlit("writes");
    reveal_strlit("alloc_bytes");
    reveal_strlit("flags");
    reveal_strlit("rows");
    reveal_with_fuel(by_name, 9);
    let m7 = ms.drop_last();
    let m6 = m7.drop_last();
    let m5 = m6.drop_last();
    let m4 = m5.drop_last();
    let m3 = m4.drop_last();
    let m2 = m3.drop_last();
    assert(m7 =~= seq![ms[0], ms[1], ms[2], ms[3], ms[4], ms[5], ms[6]]);
    assert(m6 =~= seq![ms[0], ms[1], ms[2], ms[3], ms[4], ms[5]]);
    assert(m5 =~= seq![ms[0], ms[1], ms[2], ms[3], ms[4]]);
    assert(m4 =~= seq![ms[0], ms[1], ms[2], ms[3]]);
    assert(m3 =~= seq![ms[0], ms[1], ms[2]]);
    assert(m2 =~= seq![ms[0], ms[1]]);
    assert("type"@[0] == 't' && "path"@[0] == 'p' && "rows"@[0] == 'r');
    assert("type"@.len() == 4 && "path"@.len() == 4 && "rows"@.len() == 4);
    assert("share"@.len() == 5 && "day"@.len() == 3 && "reads"@.len() == 5);
    assert("share"@[0] == 's' && "reads"@[0] == 'r' && "flags"@[0] == 'f');
    assert("writes"@.len() == 6 && "alloc_bytes"@.len() == 11 && "flags"@.len() == 5);
}

/// A footer is an object of plain values under distinct names, found by them.
pub proof fn lemma_footer_members(rows: nat)
    ensures
        is_plain_object(footer_members(rows)),
        distinct_names(footer_members(rows)),
        ({
            let o = by_name(footer_members(rows));
            &&& o.contains_key("type"@) && o["type"@] == json_quoted("footer"@)
            &&& o.contains_key("rows"@) && o["rows"@] == dec(rows)
        }),
{
    let ms = footer_members(rows);
    lemma_dec_is_plain(rows);
    assert(is_plain_value(ms[0].1));
    reveal_strlit("type");
    reveal_strlit("rows");
    reveal_with_fuel(by_name, 3);
    assert(ms.drop_last() =~= seq![ms[0]]);
    assert("type"@[0] == 't' && "rows"@[0] == 'r');
}

/// The first line stands first.
pub proof fn lemma_lines_text_front(lines: Seq<Seq<char>>)
    requires
        lines.len() > 0,
    ensures
        lines_text(lines) == lines[0].push('\n') + lines_text(lines.drop_first()),
    decreases lines.len(),
{
    if lines.len() == 1 {
        assert(lines.drop_last() =~= Seq::empty());
        assert(lines.drop_first() =~= Seq::empty());
        assert(lines_text(lines) =~= lines[0].push('\n') + lines_text(lines.drop_first()));
    } else {
        let init = lines.drop_last();
        let tail = lines.drop_first();
        lemma_lines_text_front(init);
        assert(init.drop_first() =~= tail.drop_last());
        assert(lines_text(lines) =~= lines[0].push('\n') + lines_text(tail));
    }
}

/// Lines without line breaks come apart again at the line breaks.
pub proof fn lemma_lines_come_apart(lines: Seq<Seq<char>>)
    requires
        forall|i: int| 0 <= i < lines.len() ==> !(#[trigger] lines[i]).contains('\n'),
    ensures
        split(lines_text(lines), '\n') == lines.push(Seq::empty()),
    decreases lines.len(),
{
    if lines.len() == 0 {
        lemma_split_whole(Seq::empty(), '\n');
        assert(lines.push(Seq::empty()) =~= seq![Seq::<char>::empty()]);
    } else {
        let tail = lines.drop_first();
        lemma_lines_text_front(lines);
        lemma_split_piece(lines[0], '\n', lines_text(tail));
        lemma_lines_come_apart(tail);
        assert(seq![lines[0]] + tail.push(Seq::empty()) =~= lines.push(Seq::empty()));
    }
}

/// The members of a line of a document.
pub open spec fn line_members(m: MetaView, rows: Seq<EmitView>, i: int) -> Seq<
    (Seq<char>, Seq<char>),
> {
    if i == 0 {
        header_members(m)
    } else if i == rows.len() + 1 {
        footer_members(rows.len())
    } else {
        row_members(rows[i - 1])
    }
}

/// A line of a document is an object of plain values, without a line break.
pub proof fn lemma_document_line(m: MetaView, rows: Seq<EmitView>, i: int)
    requires
        0 <= i < document_lines(m, rows).len(),
    ensures
        document_lines(m, rows).len() == rows.len() + 2,
        document_lines(m, rows)[i] == object_text(line_members(m, rows, i)),
        is_plain_object(line_members(m, rows, i)),
        !document_lines(m, rows)[i].contains('\n'),
{
    if i == 0 {
        lemma_header_members(m);
    } else if i == rows.len() + 1 {
        lemma_footer_members(rows.len());
    } else {
        lemma_row_members(rows[i - 1]);
    }
    lemma_plain_object_is_one_line(line_members(m, rows, i));
}

/// A document is line-delimited: cut at its line breaks it is its header, its rows
/// and its footer, one line each, whatever the names and paths hold.
pub proof fn law_document_is_line_delimited(m: MetaView, rows: Seq<EmitView>)
    ensures
        split(document_text(m, rows), '\n') == document_lines(m, rows).push(Seq::empty()),
        document_lines(m, rows).len() == rows.len() + 2,
{
    let lines = document_lines(m, rows);
    assert forall|i: int| 0 <= i < lines.len() implies !(#[trigger] lines[i]).contains('\n') by {
        lemma_document_line(m, rows, i);
    }
    lemma_lines_come_apart(lines);
}

} // verus!
