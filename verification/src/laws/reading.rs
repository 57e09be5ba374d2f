//! How the lines of a document are read, and what is said of those that cannot be.

use crate::complaints::{
    blanked, char_bytes, column_of, complaint, complaint_among, field_complaint, kind_error,
    kind_of, line_of, missing_field, name_end, past_blanks, value_pad, Kind,
};
use crate::db::DumpView;
use crate::fields::{colons, field_names, past, past_all, start, written_names, Place};
use crate::ingest::{
    header_fields, header_of, header_result, line_fields, line_object, ndjson_lines,
    HeaderFieldsView, HeaderView, LineView,
};
use crate::json::{
    json_i32_value, json_object, json_opt_text, json_opt_u32, json_opt_u64, json_opt_usize,
    json_text, json_texts, json_u32_value,
};
use crate::pairs::by_name;
use crate::rows::{row_fields, rows_result, rows_upto};
use crate::text::dec;
use vstd::prelude::*;
use vstd::utf8::*;

verus! {

// ---- members --------------------------------------------------------------

/// Of members with one name the last one counts.
pub proof fn law_last_member_counts(
    pairs: Seq<(Seq<char>, Seq<char>)>,
    name: Seq<char>,
    value: Seq<char>,
    other: Seq<char>,
)
    ensures
        by_name(Seq::empty()) == Map::<Seq<char>, Seq<char>>::empty(),
        by_name(pairs.push((name, value))).contains_key(name),
        by_name(pairs.push((name, value)))[name] == value,
        other != name ==> by_name(pairs.push((name, value))).contains_key(other) == by_name(
            pairs,
        ).contains_key(other),
        other != name && by_name(pairs).contains_key(other) ==> by_name(
            pairs.push((name, value)),
        )[other] == by_name(pairs)[other],
{
    assert(pairs.push((name, value)).drop_last() =~= pairs);
}

/// A line is an object where it is read as one and there is no complaint about the
/// fields that matter; otherwise it is refused with what was said first.
pub proof fn law_line_objects(line: Seq<char>, known: Seq<(Seq<char>, Kind)>)
    ensures
        match json_object(line) {
            Err(e) => line_object(line, known) == Err::<Map<Seq<char>, Seq<char>>, Seq<char>>(e),
            Ok(m) => {
                &&& complaint(line, m, known) is None ==> line_object(line, known) == Ok::<
                    Map<Seq<char>, Seq<char>>,
                    Seq<char>,
                >(m)
                &&& complaint(line, m, known) is Some ==> line_object(line, known) == Err::<
                    Map<Seq<char>, Seq<char>>,
                    Seq<char>,
                >(complaint(line, m, known)->0)
            },
        },
{
}

// ---- complaints -----------------------------------------------------------

proof fn lemma_no_complaint(
    line: Seq<char>,
    m: Map<Seq<char>, Seq<char>>,
    known: Seq<(Seq<char>, Kind)>,
    n: nat,
)
    requires
        forall|i: int| 0 <= i < n ==> #[trigger] field_complaint(line, m, known, i) is None,
    ensures
        complaint_among(line, m, known, n) is None,
    decreases n,
{
    if n > 0 {
        lemma_no_complaint(line, m, known, (n - 1) as nat);
        assert(field_complaint(line, m, known, n - 1) is None);
    }
}

proof fn lemma_complaint_kept(
    line: Seq<char>,
    m: Map<Seq<char>, Seq<char>>,
    known: Seq<(Seq<char>, Kind)>,
    k: nat,
    n: nat,
)
    requires
        k <= n,
        complaint_among(line, m, known, k) is Some,
    ensures
        complaint_among(line, m, known, n) == complaint_among(line, m, known, k),
    decreases n,
{
    if k < n {
        lemma_complaint_kept(line, m, known, k, (n - 1) as nat);
    }
}

/// The complaint about an object is that about the first of its fields that has one.
pub proof fn law_first_complaint(
    line: Seq<char>,
    m: Map<Seq<char>, Seq<char>>,
    known: Seq<(Seq<char>, Kind)>,
    i: int,
)
    requires
        0 <= i <= field_names(line).len(),
        forall|j: int| 0 <= j < i ==> #[trigger] field_complaint(line, m, known, j) is None,
        i < field_names(line).len() ==> field_complaint(line, m, known, i) is Some,
    ensures
        complaint(line, m, known) == if i < field_names(line).len() {
            field_complaint(line, m, known, i)
        } else {
            None
        },
{
    lemma_no_complaint(line, m, known, i as nat);
    if i < field_names(line).len() {
        lemma_complaint_kept(line, m, known, (i + 1) as nat, field_names(line).len());
    }
}

/// What is said of a field: of one that nobody asked for nothing; of one that stands a
/// second time that it does, and where; of one that will stand again nothing yet; and of
/// any other what is wrong with its value, read where it stands.
pub proof fn law_field_complaints(
    line: Seq<char>,
    m: Map<Seq<char>, Seq<char>>,
    known: Seq<(Seq<char>, Kind)>,
    i: int,
)
    requires
        0 <= i < field_names(line).len(),
    ensures
        ({
            let names = field_names(line);
            let c = field_complaint(line, m, known, i);
            let kind = kind_of(known, names[i]);
            let before = exists|j: int| 0 <= j < i && names[j] == names[i];
            let again = exists|j: int| i < j < names.len() && names[j] == names[i];
            let end = line.take(name_end(line, i));
            &&& kind is None ==> c is None
            &&& kind is Some && before ==> c == Some(
                "duplicate field `"@ + names[i] + "`"@ + (" at line "@ + dec(line_of(end))
                    + " column "@ + dec(column_of(end))),
            )
            &&& kind is Some && !before && again ==> c is None
            &&& kind is Some && !before && !again && m.contains_key(names[i]) ==> c == kind_error(
                kind->0,
                value_pad(line, i) + m[names[i]],
            )
            &&& kind is Some && !before && !again && !m.contains_key(names[i]) ==> c is None
        }),
{
    let names = field_names(line);
    let front = names.take(i);
    let back = names.skip(i + 1);
    if front.contains(names[i]) {
        let j = choose|j: int| 0 <= j < front.len() && front[j] == names[i];
        assert(names[j] == names[i]);
    }
    if exists|j: int| 0 <= j < i && names[j] == names[i] {
        let j = choose|j: int| 0 <= j < i && names[j] == names[i];
        assert(front[j] == names[i]);
    }
    if back.contains(names[i]) {
        let j = choose|j: int| 0 <= j < back.len() && back[j] == names[i];
        assert(names[j + i + 1] == names[i]);
    }
    if exists|j: int| i < j < names.len() && names[j] == names[i] {
        let j = choose|j: int| i < j < names.len() && names[j] == names[i];
        assert(back[j - i - 1] == names[i]);
    }
}

/// The kind of a field is the one that it is listed with, the last one if it is listed
/// twice.
pub proof fn law_kinds_are_listed(
    known: Seq<(Seq<char>, Kind)>,
    name: Seq<char>,
    kind: Kind,
    other: Seq<char>,
)
    ensures
        kind_of(Seq::empty(), name) is None,
        kind_of(known.push((name, kind)), name) == Some(kind),
        other != name ==> kind_of(known.push((name, kind)), other) == kind_of(known, other),
{
    assert(known.push((name, kind)).drop_last() =~= known);
}

/// What is wrong with a value is what its reader says of it.
pub proof fn law_kind_errors(raw: Seq<char>)
    ensures
        kind_error(Kind::Text, raw) == json_text(raw).err(),
        kind_error(Kind::OptText, raw) == json_opt_text(raw).err(),
        kind_error(Kind::OptU32, raw) == json_opt_u32(raw).err(),
        kind_error(Kind::OptUsize, raw) == json_opt_usize(raw, usize::MAX).err(),
        kind_error(Kind::U32, raw) == json_u32_value(raw).err(),
        kind_error(Kind::I32, raw) == json_i32_value(raw).err(),
        kind_error(Kind::OptU64, raw) == json_opt_u64(raw).err(),
        kind_error(Kind::Texts, raw) == json_texts(raw).err(),
{
}

/// A field that has to be there and is not is said to be missing at the end of the line,
/// the blanks there left out.
pub proof fn law_missing_fields(line: Seq<char>, name: Seq<char>, n: int)
    requires
        0 <= n <= line.len(),
        n > 0 ==> !(line[n - 1] == ' ' || line[n - 1] == '\n' || line[n - 1] == '\t' || line[n - 1]
            == '\r'),
        forall|i: int|
            n <= i < line.len() ==> #[trigger] line[i] == ' ' || line[i] == '\n' || line[i] == '\t'
                || line[i] == '\r',
    ensures
        missing_field(line, name) == "missing field `"@ + name + "`"@ + (" at line "@ + dec(
            line_of(line.take(n)),
        ) + " column "@ + dec(column_of(line.take(n)))),
{
    lemma_end(line, n);
}

proof fn lemma_end(line: Seq<char>, n: int)
    requires
        0 <= n <= line.len(),
        n > 0 ==> !crate::json::is_json_blank(line[n - 1]),
        forall|i: int| n <= i < line.len() ==> crate::json::is_json_blank(#[trigger] line[i]),
    ensures
        crate::complaints::end_of(line) == n,
    decreases line.len(),
{
    if n < line.len() {
        assert(crate::json::is_json_blank(line[line.len() - 1]));
        let init = line.drop_last();
        assert forall|i: int| n <= i < init.len() implies crate::json::is_json_blank(
            #[trigger] init[i],
        ) by {
            assert(init[i] == line[i]);
        }
        lemma_end(init, n);
    }
}

/// A place is a line and the bytes of it that came before: a line break begins a line,
/// and any other character takes as many bytes as UTF-8 gives it.
pub proof fn law_places(s: Seq<char>, c: char)
    ensures
        line_of(Seq::empty()) == 1,
        column_of(Seq::empty()) == 0,
        line_of(s.push('\n')) == line_of(s) + 1,
        column_of(s.push('\n')) == 0,
        c != '\n' ==> line_of(s.push(c)) == line_of(s),
        c != '\n' ==> column_of(s.push(c)) == column_of(s) + char_bytes(c),
        c <= '\u{7f}' ==> char_bytes(c) == 1,
        '\u{80}' <= c <= '\u{7ff}' ==> char_bytes(c) == 2,
        '\u{800}' <= c <= '\u{ffff}' ==> char_bytes(c) == 3,
        '\u{10000}' <= c ==> char_bytes(c) == 4,
{
    assert(s.push('\n').drop_last() =~= s);
    assert(s.push(c).drop_last() =~= s);
}

/// A value is read behind blanks that take up what stands before it, so that what is
/// said of it names its place.
pub proof fn law_values_keep_their_place(line: Seq<char>, i: int, s: Seq<char>)
    ensures
        0 <= i < colons(line).len() ==> value_pad(line, i) == blanked(
            line.take(past_blanks(line, colons(line)[i] + 1)),
        ),
        0 <= i < colons(line).len() ==> name_end(line, i) == colons(line)[i],
        i >= colons(line).len() ==> value_pad(line, i).len() == 0 && name_end(line, i) == line.len(),
        line_of(blanked(s)) == line_of(s),
        column_of(blanked(s)) == column_of(s),
    decreases s.len(),
{
    if s.len() > 0 {
        let init = s.drop_last();
        law_values_keep_their_place(line, i, init);
        if s.last() == '\n' {
            assert(blanked(s).drop_last() =~= blanked(init));
        } else {
            lemma_blanks(blanked(init), char_bytes(s.last()));
        }
    }
}

/// Blanks are the space, the line break, the tab and the carriage return; what lies past
/// them is the first place from one on that holds none.
pub proof fn law_past_blanks(s: Seq<char>, i: int, j: int)
    requires
        0 <= i <= j <= s.len(),
        forall|x: int|
            i <= x < j ==> #[trigger] s[x] == ' ' || s[x] == '\n' || s[x] == '\t' || s[x] == '\r',
        j < s.len() ==> s[j] != ' ' && s[j] != '\n' && s[j] != '\t' && s[j] != '\r',
    ensures
        past_blanks(s, i) == j,
    decreases j - i,
{
    if i < j {
        assert(s[i] == ' ' || s[i] == '\n' || s[i] == '\t' || s[i] == '\r');
        law_past_blanks(s, i + 1, j);
    }
}

proof fn lemma_blanks(t: Seq<char>, n: nat)
    ensures
        line_of(t + Seq::new(n, |i: int| ' ')) == line_of(t),
        column_of(t + Seq::new(n, |i: int| ' ')) == column_of(t) + n,
    decreases n,
{
    let u = t + Seq::new(n, |i: int| ' ');
    if n == 0 {
        assert(u =~= t);
    } else {
        lemma_blanks(t, (n - 1) as nat);
        assert(u.drop_last() =~= t + Seq::new((n - 1) as nat, |i: int| ' '));
        assert(u.last() == ' ');
    }
}

// ---- names ----------------------------------------------------------------

/// How a reader goes through an object: a quote opens a string and the next one that no
/// backslash escapes closes it; outside strings brackets nest; and a string closed at
/// the outermost level before a colon is a name.
pub proof fn law_reading_steps(p: Place, c: char)
    ensures
        p.string is Some && p.escape ==> past(p, c).string == Some(p.string->0.push(c)) && !past(
            p,
            c,
        ).escape,
        p.string is Some && !p.escape && c == '\\' ==> past(p, c).string == Some(
            p.string->0.push(c),
        ) && past(p, c).escape,
        p.string is Some && !p.escape && c == '"' ==> past(p, c).string is None,
        p.string is Some && !p.escape && c == '"' ==> past(p, c).names == if p.depth == 1
            && p.naming {
            p.names.push(p.string->0.push('"'))
        } else {
            p.names
        },
        p.string is Some && !p.escape && c != '"' && c != '\\' ==> past(p, c).string == Some(
            p.string->0.push(c),
        ) && !past(p, c).escape,
        p.string is Some ==> past(p, c).depth == p.depth && past(p, c).naming == p.naming,
        p.string is Some && (p.escape || c != '"') ==> past(p, c).names == p.names,
        p.string is None && c == '"' ==> past(p, c).string == Some(seq!['"']),
        p.string is None && c != '"' ==> past(p, c).string is None,
        p.string is None ==> past(p, c).names == p.names && past(p, c).escape == p.escape,
        p.string is None ==> past(p, c).depth == p.depth + if c == '{' || c == '[' {
            1int
        } else if c == '}' || c == ']' {
            -1
        } else {
            0
        },
        p.string is None ==> past(p, c).naming == if c == ':' && p.depth == 1 {
            false
        } else if c == ',' && p.depth == 1 {
            true
        } else {
            p.naming
        },
{
}

/// A reader starts outside of everything, and goes character by character; the names of
/// an object are what it has met at the end, each read as a string.
pub proof fn law_reading(s: Seq<char>, c: char, i: int)
    ensures
        start().depth == 0 && start().naming && start().string is None && !start().escape
            && start().names.len() == 0,
        past_all(start(), Seq::empty()) == start(),
        past_all(start(), s.push(c)) == past(past_all(start(), s), c),
        written_names(s) == past_all(start(), s).names,
        field_names(s).len() == written_names(s).len(),
        0 <= i < written_names(s).len() && json_text(written_names(s)[i]) is Ok ==> field_names(
            s,
        )[i] == json_text(written_names(s)[i])->Ok_0,
{
    assert(s.push(c).drop_last() =~= s);
}

// ---- headers and other lines ----------------------------------------------

/// A first line's fields: its type has to be a string; the server, the run and the
/// number may each be missing or null; the time counts only where it is a string.
pub proof fn law_header_fields(line: Seq<char>)
    ensures
        ({
            let known = seq![
                ("type"@, Kind::Text),
                ("server"@, Kind::OptText),
                ("run_id"@, Kind::OptText),
                ("dump_seq"@, Kind::OptU32),
            ];
            let f = header_fields(line);
            match line_object(line, known) {
                Err(e) => f == Err::<HeaderFieldsView, Seq<char>>(e),
                Ok(m) => {
                    let text = |n: Seq<char>|
                        if m.contains_key(n) {
                            json_opt_text(m[n])
                        } else {
                            Ok(None)
                        };
                    let number = if m.contains_key("dump_seq"@) {
                        json_opt_u32(m["dump_seq"@])
                    } else {
                        Ok(None)
                    };
                    &&& !m.contains_key("type"@) ==> f == Err::<HeaderFieldsView, Seq<char>>(
                        missing_field(line, "type"@),
                    )
                    &&& f is Ok <==> m.contains_key("type"@) && json_text(m["type"@]) is Ok && text(
                        "server"@,
                    ) is Ok && text("run_id"@) is Ok && number is Ok
                    &&& f is Ok ==> {
                        &&& f->Ok_0.kind == json_text(m["type"@])->Ok_0
                        &&& f->Ok_0.server == text("server"@)->Ok_0
                        &&& f->Ok_0.run_id == text("run_id"@)->Ok_0
                        &&& f->Ok_0.dump_seq == number->Ok_0
                        &&& f->Ok_0.emitted_at == if text("emitted_at"@) is Ok {
                            text("emitted_at"@)->Ok_0
                        } else {
                            None
                        }
                    }
                },
            }
        }),
{
}

/// A first line that cannot be read is said to be no JSON.
pub proof fn law_header_results(line: Seq<char>)
    ensures
        match header_fields(line) {
            Ok(f) => header_result(line) == header_of(f),
            Err(e) => header_result(line) == Err::<HeaderView, Seq<char>>(
                "header line is not valid JSON: "@ + e,
            ),
        },
{
}

/// A further line's fields: its type has to be a string, its row count may be missing
/// or null.
pub proof fn law_line_fields(line: Seq<char>)
    ensures
        ({
            let known = seq![("type"@, Kind::Text), ("rows"@, Kind::OptUsize)];
            let f = line_fields(line);
            match line_object(line, known) {
                Err(e) => f == Err::<LineView, Seq<char>>(e),
                Ok(m) => {
                    let count = if m.contains_key("rows"@) {
                        json_opt_usize(m["rows"@], usize::MAX)
                    } else {
                        Ok(None)
                    };
                    &&& !m.contains_key("type"@) ==> f == Err::<LineView, Seq<char>>(
                        missing_field(line, "type"@),
                    )
                    &&& f is Ok <==> m.contains_key("type"@) && json_text(m["type"@]) is Ok
                        && count is Ok
                    &&& f is Ok ==> f->Ok_0.kind == json_text(m["type"@])->Ok_0 && f->Ok_0.rows
                        == count->Ok_0
                },
            }
        }),
{
}

// ---- rows -----------------------------------------------------------------

/// A row's fields: the share, the path, the day and the counts have to be there; the
/// size may be missing or null, and the flags may be missing.
pub proof fn law_row_fields(line: Seq<char>)
    ensures
        ({
            let known = seq![
                ("share"@, Kind::Text),
                ("path"@, Kind::Text),
                ("day"@, Kind::I32),
                ("reads"@, Kind::U32),
                ("writes"@, Kind::U32),
                ("alloc_bytes"@, Kind::OptU64),
                ("flags"@, Kind::Texts),
            ];
            let f = row_fields(line);
            match line_object(line, known) {
                Err(e) => f == Err::<DumpView, Seq<char>>(e),
                Ok(m) => {
                    let size = if m.contains_key("alloc_bytes"@) {
                        json_opt_u64(m["alloc_bytes"@])
                    } else {
                        Ok(None)
                    };
                    let flags = if m.contains_key("flags"@) {
                        json_texts(m["flags"@])
                    } else {
                        Ok(Seq::empty())
                    };
                    let share = m.contains_key("share"@) && json_text(m["share"@]) is Ok;
                    let path = m.contains_key("path"@) && json_text(m["path"@]) is Ok;
                    let day = m.contains_key("day"@) && json_i32_value(m["day"@]) is Ok;
                    let reads = m.contains_key("reads"@) && json_u32_value(m["reads"@]) is Ok;
                    &&& f is Ok <==> {
                        &&& share && path && day && reads
                        &&& m.contains_key("writes"@) && json_u32_value(m["writes"@]) is Ok
                        &&& size is Ok
                        &&& flags is Ok
                    }
                    &&& f is Ok ==> {
                        &&& f->Ok_0.share == json_text(m["share"@])->Ok_0
                        &&& f->Ok_0.path == json_text(m["path"@])->Ok_0
                        &&& f->Ok_0.day == json_i32_value(m["day"@])->Ok_0
                        &&& f->Ok_0.reads == json_u32_value(m["reads"@])->Ok_0
                        &&& f->Ok_0.writes == json_u32_value(m["writes"@])->Ok_0
                        &&& f->Ok_0.alloc_bytes == size->Ok_0
                        &&& f->Ok_0.flags == flags->Ok_0
                    }
                    &&& !m.contains_key("share"@) ==> f == Err::<DumpView, Seq<char>>(
                        missing_field(line, "share"@),
                    )
                    &&& share && !m.contains_key("path"@) ==> f == Err::<DumpView, Seq<char>>(
                        missing_field(line, "path"@),
                    )
                    &&& share && path && !m.contains_key("day"@) ==> f == Err::<DumpView, Seq<char>>(
                        missing_field(line, "day"@),
                    )
                    &&& share && path && day && !m.contains_key("reads"@) ==> f == Err::<DumpView, Seq<char>>(
                        missing_field(line, "reads"@),
                    )
                    &&& share && path && day && reads && !m.contains_key("writes"@) ==> f == Err::<DumpView, Seq<char>>(
                        missing_field(line, "writes"@),
                    )
                },
            }
        }),
{
}

proof fn lemma_rows_so_far(lines: Seq<Seq<char>>, k: int)
    requires
        1 <= k <= lines.len(),
        forall|i: int| 1 <= i < k ==> row_fields(#[trigger] lines[i]) is Ok,
    ensures
        rows_upto(lines, k) is Ok,
        rows_upto(lines, k)->Ok_0.len() == k - 1,
        forall|i: int|
            1 <= i < k ==> rows_upto(lines, k)->Ok_0[i - 1] == row_fields(#[trigger] lines[i])->Ok_0,
    decreases k,
{
    if k > 1 {
        lemma_rows_so_far(lines, k - 1);
        assert(row_fields(lines[k - 1]) is Ok);
    }
}

proof fn lemma_bad_row_stays(lines: Seq<Seq<char>>, k: int, n: int)
    requires
        k <= n,
        rows_upto(lines, k) is Err,
    ensures
        rows_upto(lines, n) == rows_upto(lines, k),
    decreases n - k,
{
    if k < n {
        lemma_bad_row_stays(lines, k, n - 1);
    }
}

/// The rows of a document are its lines between the first and the last, each of them and
/// in their order; a line that is no row is named by its number, the first such one.
pub proof fn law_rows_are_lines(body: Seq<u8>, k: int)
    requires
        valid_utf8(body),
        ({
            let lines = ndjson_lines(decode_utf8(body));
            &&& 1 <= k < lines.len()
            &&& forall|i: int| 1 <= i < k ==> row_fields(#[trigger] lines[i]) is Ok
            &&& k < lines.len() - 1 ==> row_fields(lines[k]) is Err
        }),
    ensures
        ({
            let lines = ndjson_lines(decode_utf8(body));
            let r = rows_result(body);
            if k < lines.len() - 1 {
                r == Err::<Seq<DumpView>, Seq<char>>(
                    "line "@ + dec((k + 1) as nat) + " is not a valid row: "@ + row_fields(
                        lines[k],
                    )->Err_0,
                )
            } else {
                &&& r is Ok
                &&& r->Ok_0.len() == lines.len() - 2
                &&& forall|i: int|
                    1 <= i < lines.len() - 1 ==> r->Ok_0[i - 1] == row_fields(
                        #[trigger] lines[i],
                    )->Ok_0
            }
        }),
{
    let lines = ndjson_lines(decode_utf8(body));
    lemma_rows_so_far(lines, k);
    if k < lines.len() - 1 {
        assert(rows_upto(lines, k + 1) is Err);
        lemma_bad_row_stays(lines, k + 1, lines.len() - 1);
    }
}

/// A body that is not UTF-8 has no rows.
pub proof fn law_no_rows_without_utf8(body: Seq<u8>)
    requires
        !valid_utf8(body),
    ensures
        rows_result(body) == Err::<Seq<DumpView>, Seq<char>>("body is not valid UTF-8"@),
{
}

} // verus!
