//! Parsing, validating and naming one received document.
//!
//! Wire format (newline-delimited JSON, one document per request):
//!   line 1:  {"type":"header","server":...,"run_id":...,"dump_seq":...,...}
//!   lines:   {"type":"row",...}
//!   last:    {"type":"footer","rows":<count of row lines>}

use crate::complaints::{
    complaint, first_complaint, fmt_missing_field, kind_of, known_views, missing_field, well_typed,
    Kind,
};
use crate::correlation::EmitView;
use crate::db::lemma_encode_concat;
use crate::emit::{
    document_lines, document_text, footer_line, footer_members, header_line, header_members,
    law_document_is_line_delimited, lemma_document_line, lemma_footer_members,
    lemma_header_members, lemma_lines_text_front, lemma_row_members, line_members, lines_text,
    row_line, row_members, MetaView,
};
use crate::events::guid_text;
use crate::fields::{closed_text, distinct_names, lemma_cut_object_is_open};
use crate::json::{
    is_plain_object, json_members, json_object, json_string, json_text, object_text, read_text,
    read_u32, read_usize, text_member, u32_member, usize_member,
};
use crate::pairs::{by_name, lookup, pair_views};
use crate::split::{
    lemma_split_not_empty, lemma_split_piece, lemma_split_whole, split, split_all, texts,
};
use crate::text::{
    chars_of, debug_text, dec, fmt_debug, hex, opt_text, push_dec, same_text, text_of,
};
use vstd::prelude::*;
use vstd::slice::slice_subrange;
use vstd::string::*;
use vstd::utf8::*;

verus! {

// ---- header ---------------------------------------------------------------

/// What a first line holds: its type, and the naming fields that are there.
#[derive(Debug, Clone)]
pub struct HeaderFields {
    pub kind: String,
    pub server: Option<String>,
    pub run_id: Option<String>,
    pub dump_seq: Option<u32>,
    /// Only where it is a string.
    pub emitted_at: Option<String>,
}

/// The mathematical value of header fields.
pub struct HeaderFieldsView {
    pub kind: Seq<char>,
    pub server: Option<Seq<char>>,
    pub run_id: Option<Seq<char>>,
    pub dump_seq: Option<u32>,
    pub emitted_at: Option<Seq<char>>,
}

impl View for HeaderFields {
    type V = HeaderFieldsView;

    open spec fn view(&self) -> HeaderFieldsView {
        HeaderFieldsView {
            kind: self.kind@,
            server: opt_text(self.server),
            run_id: opt_text(self.run_id),
            dump_seq: self.dump_seq,
            emitted_at: opt_text(self.emitted_at),
        }
    }
}

/// A header with its fields present and typed. The values are not yet known to be
/// safe as path components.
#[derive(Debug, Clone)]
pub struct Header {
    pub server: String,
    pub run_id: String,
    pub dump_seq: u32,
    /// When the document was made, as it says.
    pub emitted_at: Option<String>,
}

/// The mathematical value of a header.
pub struct HeaderView {
    pub server: Seq<char>,
    pub run_id: Seq<char>,
    pub dump_seq: u32,
    pub emitted_at: Option<Seq<char>>,
}

impl View for Header {
    type V = HeaderView;

    open spec fn view(&self) -> HeaderView {
        HeaderView {
            server: self.server@,
            run_id: self.run_id@,
            dump_seq: self.dump_seq,
            emitted_at: opt_text(self.emitted_at),
        }
    }
}

/// The type of a line whose members are `m`: a string that has to be there.
pub open spec fn type_of(line: Seq<char>, m: Map<Seq<char>, Seq<char>>) -> Result<
    Seq<char>,
    Seq<char>,
> {
    if m.contains_key("type"@) {
        json_text(m["type"@])
    } else {
        Err(missing_field(line, "type"@))
    }
}

/// The members of a line that is an object, there being no complaint about its fields
/// `known`.
pub open spec fn line_object(line: Seq<char>, known: Seq<(Seq<char>, Kind)>) -> Result<
    Map<Seq<char>, Seq<char>>,
    Seq<char>,
> {
    match json_object(line) {
        Err(e) => Err(e),
        Ok(m) => match complaint(line, m, known) {
            Some(e) => Err(e),
            None => Ok(m),
        },
    }
}

/// The fields that a first line is read for.
pub open spec fn header_kinds() -> Seq<(Seq<char>, Kind)> {
    seq![
        ("type"@, Kind::Text),
        ("server"@, Kind::OptText),
        ("run_id"@, Kind::OptText),
        ("dump_seq"@, Kind::OptU32),
    ]
}

/// The fields of a first line: an object with a type, and the naming fields each
/// missing, null or of its type, none of them twice.
pub open spec fn header_fields(line: Seq<char>) -> Result<HeaderFieldsView, Seq<char>> {
    match line_object(line, header_kinds()) {
        Err(e) => Err(e),
        Ok(m) => match type_of(line, m) {
            Err(e) => Err(e),
            Ok(kind) => match text_member(m, "server"@) {
                Err(e) => Err(e),
                Ok(server) => match text_member(m, "run_id"@) {
                    Err(e) => Err(e),
                    Ok(run_id) => match u32_member(m, "dump_seq"@) {
                        Err(e) => Err(e),
                        Ok(dump_seq) => Ok(
                            HeaderFieldsView {
                                kind,
                                server,
                                run_id,
                                dump_seq,
                                emitted_at: match text_member(m, "emitted_at"@) {
                                    Ok(t) => t,
                                    Err(_) => None,
                                },
                            },
                        ),
                    },
                },
            },
        },
    }
}

/// The header that fields make, or why they do not.
pub open spec fn header_of(f: HeaderFieldsView) -> Result<HeaderView, Seq<char>> {
    if f.kind != "header"@ {
        Err("first line type is "@ + debug_text(f.kind) + ", not \"header\""@)
    } else if f.server is None {
        Err("header missing \"server\""@)
    } else if f.run_id is None {
        Err("header missing \"run_id\""@)
    } else if f.dump_seq is None {
        Err("header missing \"dump_seq\""@)
    } else {
        Ok(
            HeaderView {
                server: f.server->0,
                run_id: f.run_id->0,
                dump_seq: f.dump_seq->0,
                emitted_at: f.emitted_at,
            },
        )
    }
}

/// The header of a first line, or why it has none.
pub open spec fn header_result(line: Seq<char>) -> Result<HeaderView, Seq<char>> {
    match header_fields(line) {
        Ok(f) => header_of(f),
        Err(e) => Err("header line is not valid JSON: "@ + e),
    }
}

/// The fields of a header that was written from metadata.
pub open spec fn sent_fields(m: MetaView) -> HeaderFieldsView {
    HeaderFieldsView {
        kind: "header"@,
        server: Some(m.server),
        run_id: Some(m.run_id),
        dump_seq: Some(m.dump_seq),
        emitted_at: Some(m.emitted_at),
    }
}

/// The header that was written from metadata.
pub open spec fn sent_header(m: MetaView) -> HeaderView {
    HeaderView {
        server: m.server,
        run_id: m.run_id,
        dump_seq: m.dump_seq,
        emitted_at: Some(m.emitted_at),
    }
}

/// `a` followed by `b`.
fn concat(a: &str, b: &str) -> (r: String)
    ensures
        r@ == a@ + b@,
{
    let mut s = a.to_owned();
    s.append(b);
    s
}

/// The type of a line.
fn read_type(line: &str, pairs: &Vec<(String, String)>) -> (r: Result<String, String>)
    ensures
        match r {
            Ok(s) => type_of(line@, by_name(pair_views(pairs@))) == Ok::<Seq<char>, Seq<char>>(s@),
            Err(e) => type_of(line@, by_name(pair_views(pairs@))) == Err::<Seq<char>, Seq<char>>(
                e@,
            ),
        },
        forall|s: Seq<char>|
            by_name(pair_views(pairs@)).contains_key("type"@) && by_name(
                pair_views(pairs@),
            )["type"@] == #[trigger] crate::json::json_quoted(s) ==> r is Ok && r->Ok_0@ == s,
{
    match lookup(pairs, "type") {
        Some(raw) => json_string(raw),
        None => Err(fmt_missing_field(line, "type")),
    }
}

/// The members of a line that is an object, there being no complaint about its fields
/// `known`. An object written without blanks, of plain values under distinct names, the
/// known ones each of its kind, is read back.
pub(crate) fn read_object(line: &str, known: &[(&str, Kind)]) -> (r: Result<Vec<(String, String)>, String>)
    ensures
        match r {
            Ok(pairs) => line_object(line@, known_views(known@)) == Ok::<
                Map<Seq<char>, Seq<char>>,
                Seq<char>,
            >(by_name(pair_views(pairs@))),
            Err(e) => line_object(line@, known_views(known@)) == Err::<
                Map<Seq<char>, Seq<char>>,
                Seq<char>,
            >(e@),
        },
        forall|members: Seq<(Seq<char>, Seq<char>)>|
            is_plain_object(members) && distinct_names(members) && well_typed(
                members,
                known_views(known@),
            ) ==> line@ == #[trigger] object_text(members) ==> r is Ok && by_name(
                pair_views(r->Ok_0@),
            ) == by_name(members),
        r is Ok ==> closed_text(line@),
{
    let pairs = match json_members(line) {
        Ok(p) => p,
        Err(e) => {
            return Err(e);
        },
    };
    match first_complaint(line, &pairs, known) {
        Some(e) => Err(e),
        None => Ok(pairs),
    }
}

/// A header's members are of their kinds.
proof fn lemma_header_kinds(m: MetaView)
    ensures
        well_typed(header_members(m), header_kinds()),
{
    let ms = header_members(m);
    lemma_header_members(m);
    lemma_kinds();
    assert(ms[0].1 == crate::json::json_quoted("header"@));
    assert(ms[1].1 == crate::json::json_quoted(m.server));
    assert(ms[2].1 == crate::json::json_quoted(m.run_id));
    assert(ms[3].1 == dec(m.dump_seq as nat));
}

proof fn lemma_kinds()
    ensures
        kind_of(header_kinds(), "type"@) == Some(Kind::Text),
        kind_of(header_kinds(), "server"@) == Some(Kind::OptText),
        kind_of(header_kinds(), "run_id"@) == Some(Kind::OptText),
        kind_of(header_kinds(), "dump_seq"@) == Some(Kind::OptU32),
        kind_of(header_kinds(), "emitted_at"@) is None,
        kind_of(header_kinds(), "walked_shares"@) is None,
{
    reveal_strlit("type");
    reveal_strlit("server");
    reveal_strlit("run_id");
    reveal_strlit("dump_seq");
    reveal_strlit("emitted_at");
    reveal_strlit("walked_shares");
    assert("run_id"@[0] != "server"@[0]);
    assert("type"@.len() == 4 && "server"@.len() == 6 && "run_id"@.len() == 6);
    assert("dump_seq"@.len() == 8 && "emitted_at"@.len() == 10 && "walked_shares"@.len() == 13);
    reveal_with_fuel(kind_of, 5);
    let k = header_kinds();
    assert(k.drop_last() =~= seq![k[0], k[1], k[2]]);
    assert(k.drop_last().drop_last() =~= seq![k[0], k[1]]);
    assert(k.drop_last().drop_last().drop_last() =~= seq![k[0]]);
    assert(k.drop_last().drop_last().drop_last().drop_last() =~= Seq::empty());
}

/// Read the fields of a first line.
pub fn read_header(line: &str) -> (r: Result<HeaderFields, String>)
    ensures
        match r {
            Ok(f) => header_fields(line@) == Ok::<HeaderFieldsView, Seq<char>>(f@),
            Err(e) => header_fields(line@) == Err::<HeaderFieldsView, Seq<char>>(e@),
        },
        forall|m: MetaView|
            line@ == #[trigger] header_line(m) ==> header_fields(line@) == Ok::<
                HeaderFieldsView,
                Seq<char>,
            >(sent_fields(m)),
        r is Ok ==> closed_text(line@),
{
    proof {
        assert forall|m: MetaView| line@ == #[trigger] header_line(m) implies is_plain_object(
            header_members(m),
        ) && distinct_names(header_members(m)) && well_typed(header_members(m), header_kinds())
            && line@ == object_text(header_members(m)) by {
            lemma_header_members(m);
            lemma_header_kinds(m);
        }
    }
    let known = [
        ("type", Kind::Text),
        ("server", Kind::OptText),
        ("run_id", Kind::OptText),
        ("dump_seq", Kind::OptU32),
    ];
    assert(known_views(known@) =~= header_kinds());
    let pairs = match read_object(line, &known) {
        Ok(p) => p,
        Err(e) => {
            return Err(e);
        },
    };
    let ghost o = by_name(pair_views(pairs@));
    proof {
        assert forall|m: MetaView| line@ == #[trigger] header_line(m) implies {
            &&& o.contains_key("type"@) && o["type"@] == crate::json::json_quoted("header"@)
            &&& o.contains_key("server"@) && o["server"@] == crate::json::json_quoted(m.server)
            &&& o.contains_key("run_id"@) && o["run_id"@] == crate::json::json_quoted(m.run_id)
            &&& o.contains_key("dump_seq"@) && o["dump_seq"@] == dec(m.dump_seq as nat)
            &&& o.contains_key("emitted_at"@) && o["emitted_at"@] == crate::json::json_quoted(
                m.emitted_at,
            )
        } by {
            lemma_header_members(m);
        }
    }
    let kind = match read_type(line, &pairs) {
        Ok(k) => k,
        Err(e) => {
            return Err(e);
        },
    };
    let server = match read_text(&pairs, "server") {
        Ok(s) => s,
        Err(e) => {
            return Err(e);
        },
    };
    let run_id = match read_text(&pairs, "run_id") {
        Ok(s) => s,
        Err(e) => {
            return Err(e);
        },
    };
    let dump_seq = match read_u32(&pairs, "dump_seq") {
        Ok(n) => n,
        Err(e) => {
            return Err(e);
        },
    };
    let emitted_at = match read_text(&pairs, "emitted_at") {
        Ok(t) => t,
        Err(_) => None,
    };
    Ok(HeaderFields { kind, server, run_id, dump_seq, emitted_at })
}

/// Make a header of the fields of a first line.
pub fn check_header(f: HeaderFields) -> (r: Result<Header, String>)
    ensures
        match r {
            Ok(h) => header_of(f@) == Ok::<HeaderView, Seq<char>>(h@),
            Err(e) => header_of(f@) == Err::<HeaderView, Seq<char>>(e@),
        },
{
    if !same_text(f.kind.as_str(), "header") {
        let mut e = "first line type is ".to_owned();
        e.append(fmt_debug(f.kind.as_str()).as_str());
        e.append(", not \"header\"");
        return Err(e);
    }
    let server = match f.server {
        Some(s) => s,
        None => {
            return Err("header missing \"server\"".to_owned());
        },
    };
    let run_id = match f.run_id {
        Some(s) => s,
        None => {
            return Err("header missing \"run_id\"".to_owned());
        },
    };
    let dump_seq = match f.dump_seq {
        Some(n) => n,
        None => {
            return Err("header missing \"dump_seq\"".to_owned());
        },
    };
    Ok(Header { server, run_id, dump_seq, emitted_at: f.emitted_at })
}

/// Parse a first line: an object of type "header" with the three naming fields
/// present and typed.
pub fn parse_header(line: &str) -> (r: Result<Header, String>)
    ensures
        match r {
            Ok(h) => header_result(line@) == Ok::<HeaderView, Seq<char>>(h@),
            Err(e) => header_result(line@) == Err::<HeaderView, Seq<char>>(e@),
        },
        forall|m: MetaView|
            line@ == #[trigger] header_line(m) ==> header_result(line@) == Ok::<
                HeaderView,
                Seq<char>,
            >(sent_header(m)),
        r is Ok ==> closed_text(line@),
{
    match read_header(line) {
        Ok(f) => check_header(f),
        Err(e) => Err(concat("header line is not valid JSON: ", e.as_str())),
    }
}

// ---- naming ---------------------------------------------------------------

/// A lower-case ASCII letter or a digit.
pub open spec fn is_name_char(c: char) -> bool {
    'a' <= c <= 'z' || '0' <= c <= '9'
}

/// A server's name: letters, digits and hyphens, no hyphen first.
pub open spec fn valid_server(s: Seq<char>) -> bool {
    &&& s.len() > 0
    &&& is_name_char(s[0])
    &&& forall|i: int| 0 <= i < s.len() ==> is_name_char(#[trigger] s[i]) || s[i] == '-'
}

/// Whether `s` is a safe server name: lower-case letters, digits and hyphens, not a
/// hyphen first. So no separator, dot or drive letter becomes a path component.
pub fn is_valid_server(s: &str) -> (r: bool)
    ensures
        r == valid_server(s@),
{
    let v = chars_of(s);
    if v.len() == 0 || v[0] == '-' {
        return false;
    }
    let mut i: usize = 0;
    while i < v.len()
        invariant
            i <= v@.len(),
            v@ == s@,
            v@.len() > 0,
            v@[0] != '-',
            forall|j: int| 0 <= j < i ==> is_name_char(#[trigger] v@[j]) || v@[j] == '-',
        decreases v@.len() - i,
    {
        let c = v[i];
        if !(('a' <= c && c <= 'z') || ('0' <= c && c <= '9') || c == '-') {
            assert(!(is_name_char(s@[i as int]) || s@[i as int] == '-'));
            return false;
        }
        i = i + 1;
    }
    assert(is_name_char(v@[0]) || v@[0] == '-');
    true
}

/// A hexadecimal digit in either case.
pub open spec fn is_hex_char(c: char) -> bool {
    '0' <= c <= '9' || 'a' <= c <= 'f' || 'A' <= c <= 'F'
}

/// A hyphen stands at these places of a UUID.
pub open spec fn is_uuid_hyphen(i: int) -> bool {
    i == 8 || i == 13 || i == 18 || i == 23
}

/// A hyphenated UUID: groups of 8, 4, 4, 4 and 12 hexadecimal digits.
pub open spec fn valid_uuid(s: Seq<char>) -> bool {
    &&& s.len() == 36
    &&& forall|i: int|
        0 <= i < 36 ==> if is_uuid_hyphen(i) {
            #[trigger] s[i] == '-'
        } else {
            is_hex_char(s[i])
        }
}

/// Whether `s` has the shape of a hyphenated UUID.
pub fn is_valid_uuid(s: &str) -> (r: bool)
    ensures
        r == valid_uuid(s@),
{
    let v = chars_of(s);
    if v.len() != 36 {
        return false;
    }
    let mut i: usize = 0;
    while i < 36
        invariant
            i <= 36,
            v@ == s@,
            v@.len() == 36,
            forall|j: int|
                0 <= j < i ==> if is_uuid_hyphen(j) {
                    #[trigger] v@[j] == '-'
                } else {
                    is_hex_char(v@[j])
                },
        decreases 36 - i,
    {
        let c = v[i];
        let ok = if i == 8 || i == 13 || i == 18 || i == 23 {
            c == '-'
        } else {
            ('0' <= c && c <= '9') || ('a' <= c && c <= 'f') || ('A' <= c && c <= 'F')
        };
        if !ok {
            assert(s@[i as int] == c);
            return false;
        }
        i = i + 1;
    }
    true
}

/// The naming fields are safe to build a path from.
pub open spec fn naming_ok(h: HeaderView) -> bool {
    valid_server(h.server) && valid_uuid(h.run_id) && h.dump_seq >= 1
}

/// Why naming fields are refused.
pub open spec fn naming_problem(h: HeaderView) -> Seq<char> {
    if !valid_server(h.server) {
        "invalid server name "@ + debug_text(h.server)
    } else if !valid_uuid(h.run_id) {
        "invalid run_id "@ + debug_text(h.run_id)
    } else {
        "dump_seq "@ + dec(h.dump_seq as nat) + " < 1"@
    }
}

/// Validate the naming fields before they are used as path components.
pub fn validate_naming(h: &Header) -> (r: Result<(), String>)
    ensures
        match r {
            Ok(_) => naming_ok(h@),
            Err(e) => !naming_ok(h@) && e@ == naming_problem(h@),
        },
{
    if !is_valid_server(h.server.as_str()) {
        return Err(concat("invalid server name ", fmt_debug(h.server.as_str()).as_str()));
    }
    if !is_valid_uuid(h.run_id.as_str()) {
        return Err(concat("invalid run_id ", fmt_debug(h.run_id.as_str()).as_str()));
    }
    if h.dump_seq < 1 {
        let mut e = "dump_seq ".to_owned();
        push_dec(&mut e, h.dump_seq as u64);
        e.append(" < 1");
        return Err(e);
    }
    Ok(())
}

/// The file name of a document: the first 8 bytes of the run's id, and its number.
pub open spec fn dump_file_name(run8: Seq<char>, dump_seq: u32) -> Seq<char> {
    run8 + "-"@ + dec(dump_seq as nat) + ".ndjson"@
}

/// The text of the first 8 bytes.
pub open spec fn first_8_bytes(s: Seq<char>) -> Seq<char> {
    decode_utf8(encode_utf8(s).subrange(0, 8))
}

/// The file name of a document.
pub fn emit_file_name(run_id: &str, dump_seq: u32) -> (r: String)
    requires
        encode_utf8(run_id@).len() >= 8,
        is_char_boundary(encode_utf8(run_id@), 8),
    ensures
        r@ == dump_file_name(first_8_bytes(run_id@), dump_seq),
        valid_uuid(run_id@) ==> r@ == dump_file_name(run_id@.take(8), dump_seq),
{
    let (prefix, _) = run_id.split_at(8);
    proof {
        encode_utf8_decode_utf8(prefix@);
        if valid_uuid(run_id@) {
            lemma_uuid_first_8(run_id@);
        }
    }
    let mut s = prefix.to_owned();
    s.append("-");
    push_dec(&mut s, dump_seq as u64);
    s.append(".ndjson");
    s
}

/// The path of a document below the archive's root: its server's directory and its
/// file name. Where the naming fields are valid the run's id is a UUID, so its first
/// 8 bytes are its first group.
pub fn archive_rel_path(server: &str, run_id: &str, dump_seq: u32) -> (r: String)
    requires
        encode_utf8(run_id@).len() >= 8,
        is_char_boundary(encode_utf8(run_id@), 8),
    ensures
        r@ == server@ + "/"@ + dump_file_name(first_8_bytes(run_id@), dump_seq),
        valid_uuid(run_id@) ==> r@ == server@ + "/"@ + dump_file_name(run_id@.take(8), dump_seq),
{
    let mut s = server.to_owned();
    s.append("/");
    s.append(emit_file_name(run_id, dump_seq).as_str());
    s
}

/// A UUID is ASCII: its first 8 bytes are its first 8 characters, and it can be cut
/// there.
pub proof fn lemma_uuid_first_8(s: Seq<char>)
    requires
        valid_uuid(s),
    ensures
        encode_utf8(s).len() == 36,
        is_char_boundary(encode_utf8(s), 8),
        first_8_bytes(s) == s.take(8),
{
    assert(is_ascii_chars(s)) by {
        assert forall|i: int| 0 <= i < s.len() implies '\0' <= #[trigger] s[i] <= '\u{7f}' by {
            if is_uuid_hyphen(i) {
                assert(s[i] == '-');
            } else {
                assert(is_hex_char(s[i]));
            }
        }
    }
    is_ascii_chars_encode_utf8(s);
    encode_utf8_valid_utf8(s);
    let b = encode_utf8(s);
    assert(s[8] == '-');
    is_char_boundary_iff_not_is_continuation_byte(b, 8);
    let p = s.take(8);
    assert(is_ascii_chars(p));
    is_ascii_chars_encode_utf8(p);
    assert(encode_utf8(p) =~= b.subrange(0, 8));
    encode_utf8_decode_utf8(p);
}

/// The path of a document with valid naming fields has exactly two components, the
/// server's directory and a file; neither holds a separator, and the directory's
/// name holds no dot.
pub proof fn law_archive_path_stays_inside(h: HeaderView)
    requires
        naming_ok(h),
    ensures
        ({
            let file = dump_file_name(h.run_id.take(8), h.dump_seq);
            let path = h.server + "/"@ + file;
            &&& split(path, '/') == seq![h.server, file]
            &&& !h.server.contains('.') && !h.server.contains('/') && !h.server.contains('\\')
            &&& !file.contains('/') && !file.contains('\\')
            &&& file.len() >= 8 && file[0] != '.'
        }),
{
    let file = dump_file_name(h.run_id.take(8), h.dump_seq);
    let server = h.server;
    assert forall|i: int| 0 <= i < server.len() implies #[trigger] server[i] != '.' && server[i]
        != '/' && server[i] != '\\' by {
        assert(is_name_char(server[i]) || server[i] == '-');
    }
    lemma_file_name_chars(h.run_id, h.dump_seq);
    reveal_strlit("/");
    assert(server + "/"@ + file =~= server.push('/') + file);
    lemma_split_piece(server, '/', file);
    lemma_split_whole(file, '/');
    assert(seq![server] + seq![file] =~= seq![server, file]);
}

proof fn lemma_file_name_chars(run_id: Seq<char>, dump_seq: u32)
    requires
        valid_uuid(run_id),
    ensures
        ({
            let file = dump_file_name(run_id.take(8), dump_seq);
            &&& !file.contains('/')
            &&& !file.contains('\\')
            &&& file.len() >= 8
            &&& file[0] != '.'
        }),
{
    let run8 = run_id.take(8);
    let file = dump_file_name(run8, dump_seq);
    let digits = dec(dump_seq as nat);
    reveal_strlit("-");
    reveal_strlit(".ndjson");
    crate::text::lemma_dec_digits(dump_seq as nat);
    assert forall|i: int| 0 <= i < file.len() implies #[trigger] file[i] != '/' && file[i]
        != '\\' by {
        if i < 8 {
            assert(file[i] == run_id[i]);
            assert(is_hex_char(run_id[i]));
        } else if i == 8 {
            assert(file[i] == '-');
        } else if i < 9 + digits.len() {
            assert(file[i] == digits[i - 9]);
        } else {
            assert(file[i] == ".ndjson"@[i - 9 - digits.len()]);
        }
    }
    assert(file[0] == run_id[0]);
    assert(is_hex_char(run_id[0]));
}

/// A minted run id passes as a UUID.
pub proof fn law_run_id_is_uuid(k: nat, upper: bool)
    ensures
        valid_uuid(guid_text(k, upper)),
{
    let s = guid_text(k, upper);
    let a = k / 0x1_0000_0000_0000_0000_0000_0000;
    let b = (k / 0x1_0000_0000_0000_0000_0000) % 0x1_0000;
    let c = (k / 0x1_0000_0000_0000_0000) % 0x1_0000;
    let d = (k / 0x1_0000_0000_0000) % 0x1_0000;
    let e = k % 0x1_0000_0000_0000;
    lemma_hex_digits(a, 8, upper);
    lemma_hex_digits(b, 4, upper);
    lemma_hex_digits(c, 4, upper);
    lemma_hex_digits(d, 4, upper);
    lemma_hex_digits(e, 12, upper);
    assert forall|i: int| 0 <= i < 36 implies if is_uuid_hyphen(i) {
        #[trigger] s[i] == '-'
    } else {
        is_hex_char(s[i])
    } by {
        if i < 8 {
            assert(s[i] == hex(a, 8, upper)[i]);
        } else if 8 < i < 13 {
            assert(s[i] == hex(b, 4, upper)[i - 9]);
        } else if 13 < i < 18 {
            assert(s[i] == hex(c, 4, upper)[i - 14]);
        } else if 18 < i < 23 {
            assert(s[i] == hex(d, 4, upper)[i - 19]);
        } else if 23 < i {
            assert(s[i] == hex(e, 12, upper)[i - 24]);
        }
    }
}

proof fn lemma_hex_digits(n: nat, width: nat, upper: bool)
    ensures
        hex(n, width, upper).len() == width,
        forall|i: int| 0 <= i < width ==> is_hex_char(#[trigger] hex(n, width, upper)[i]),
    decreases width,
{
    if width > 0 {
        lemma_hex_digits(n / 16, (width - 1) as nat, upper);
    }
}

/// The first 8 characters of a run's id, for logging; all of a shorter one.
pub fn run8(run_id: &str) -> (r: String)
    ensures
        r@ == if run_id@.len() < 8 {
            run_id@
        } else {
            run_id@.take(8)
        },
{
    let v = chars_of(run_id);
    let n: usize = if v.len() < 8 {
        v.len()
    } else {
        8
    };
    let s = text_of(v.as_slice(), 0, n);
    assert(v@.subrange(0, v@.len() as int) =~= v@);
    s
}

// ---- framing --------------------------------------------------------------

/// What a line after the header holds, as far as framing goes.
#[derive(Debug, Clone)]
pub struct LineFields {
    pub kind: String,
    pub rows: Option<usize>,
}

/// The mathematical value of a line's fields.
pub struct LineView {
    pub kind: Seq<char>,
    pub rows: Option<usize>,
}

impl View for LineFields {
    type V = LineView;

    open spec fn view(&self) -> LineView {
        LineView { kind: self.kind@, rows: self.rows }
    }
}

/// The fields that a line after the header is read for.
pub open spec fn line_kinds() -> Seq<(Seq<char>, Kind)> {
    seq![("type"@, Kind::Text), ("rows"@, Kind::OptUsize)]
}

/// The fields of a line after the header: an object with a type, its `rows` missing,
/// null or a count, neither twice.
pub open spec fn line_fields(line: Seq<char>) -> Result<LineView, Seq<char>> {
    match line_object(line, line_kinds()) {
        Err(e) => Err(e),
        Ok(m) => match type_of(line, m) {
            Err(e) => Err(e),
            Ok(kind) => match usize_member(m, "rows"@) {
                Err(e) => Err(e),
                Ok(rows) => Ok(LineView { kind, rows }),
            },
        },
    }
}

/// A row's members are of their kinds, and so are a footer's.
proof fn lemma_line_kinds()
    ensures
        forall|r: EmitView| well_typed(#[trigger] row_members(r), line_kinds()),
        forall|n: usize| well_typed(#[trigger] footer_members(n as nat), line_kinds()),
{
    reveal_strlit("type");
    reveal_strlit("share");
    reveal_strlit("path");
    reveal_strlit("day");
    reveal_strlit("reads");
    reveal_strlit("writes");
    reveal_strlit("alloc_bytes");
    reveal_strlit("flags");
    reveal_strlit("rows");
    reveal_with_fuel(kind_of, 3);
    let k = line_kinds();
    assert(k.drop_last() =~= seq![k[0]]);
    assert(k.drop_last().drop_last() =~= Seq::empty());
    assert("type"@[0] == 't' && "rows"@[0] == 'r' && "path"@[0] == 'p');
    assert forall|r: EmitView| well_typed(#[trigger] row_members(r), line_kinds()) by {
        assert(row_members(r)[0].1 == crate::json::json_quoted("row"@));
    }
    assert forall|n: usize| well_typed(#[trigger] footer_members(n as nat), line_kinds()) by {
        assert(footer_members(n as nat)[0].1 == crate::json::json_quoted("footer"@));
        assert(footer_members(n as nat)[1].1 == dec(n as nat));
    }
}

/// Read the fields of a line after the header.
pub fn read_line(line: &str) -> (r: Result<LineFields, String>)
    ensures
        match r {
            Ok(f) => line_fields(line@) == Ok::<LineView, Seq<char>>(f@),
            Err(e) => line_fields(line@) == Err::<LineView, Seq<char>>(e@),
        },
        forall|row: EmitView|
            line@ == #[trigger] row_line(row) ==> line_fields(line@) == Ok::<LineView, Seq<char>>(
                (LineView { kind: "row"@, rows: None }),
            ),
        forall|n: usize|
            line@ == #[trigger] footer_line(n as nat) ==> line_fields(line@) == Ok::<
                LineView,
                Seq<char>,
            >((LineView { kind: "footer"@, rows: Some(n) })),
        r is Ok ==> closed_text(line@),
{
    proof {
        lemma_line_kinds();
        assert forall|row: EmitView| line@ == #[trigger] row_line(row) implies is_plain_object(
            row_members(row),
        ) && distinct_names(row_members(row)) && line@ == object_text(row_members(row)) by {
            lemma_row_members(row);
        }
        assert forall|n: usize| line@ == #[trigger] footer_line(n as nat) implies is_plain_object(
            footer_members(n as nat),
        ) && distinct_names(footer_members(n as nat)) && line@ == object_text(footer_members(n as nat)) by {
            lemma_footer_members(n as nat);
        }
    }
    let known = [("type", Kind::Text), ("rows", Kind::OptUsize)];
    assert(known_views(known@) =~= line_kinds());
    let pairs = match read_object(line, &known) {
        Ok(p) => p,
        Err(e) => {
            return Err(e);
        },
    };
    let ghost o = by_name(pair_views(pairs@));
    proof {
        assert forall|row: EmitView| line@ == #[trigger] row_line(row) implies {
            &&& o.contains_key("type"@) && o["type"@] == crate::json::json_quoted("row"@)
            &&& !o.contains_key("rows"@)
        } by {
            lemma_row_members(row);
        }
        assert forall|n: usize| line@ == #[trigger] footer_line(n as nat) implies {
            &&& o.contains_key("type"@) && o["type"@] == crate::json::json_quoted("footer"@)
            &&& o.contains_key("rows"@) && o["rows"@] == dec(n as nat)
        } by {
            lemma_footer_members(n as nat);
        }
    }
    let kind = match read_type(line, &pairs) {
        Ok(k) => k,
        Err(e) => {
            return Err(e);
        },
    };
    let rows = match read_usize(&pairs, "rows") {
        Ok(n) => n,
        Err(e) => {
            return Err(e);
        },
    };
    Ok(LineFields { kind, rows })
}

/// What is wrong with line `i` of the `n` lines after the header; nothing with a
/// row, nor with a footer that stands last and counts. Lines are numbered from 1 in
/// the document, the header being the first.
pub open spec fn line_problem(f: Result<LineView, Seq<char>>, i: int, n: int) -> Option<Seq<char>> {
    match f {
        Err(e) => Some("line "@ + dec((i + 2) as nat) + " is not valid JSON: "@ + e),
        Ok(l) => if l.kind == "row"@ {
            None
        } else if l.kind == "footer"@ {
            if i != n - 1 {
                Some("footer is not the last line"@)
            } else if l.rows is None {
                Some("footer missing \"rows\""@)
            } else {
                None
            }
        } else {
            Some("line "@ + dec((i + 2) as nat) + " has unexpected type "@ + debug_text(l.kind))
        },
    }
}

/// Check one line after the header: whether it is the footer, and its count.
pub fn check_line(f: Result<LineFields, String>, i: usize, n: usize) -> (r: Result<
    Option<usize>,
    String,
>)
    requires
        i < n < usize::MAX,
    ensures
        ({
            let view = match f {
                Ok(l) => Ok::<LineView, Seq<char>>(l@),
                Err(e) => Err::<LineView, Seq<char>>(e@),
            };
            match r {
                Ok(count) => {
                    &&& line_problem(view, i as int, n as int) is None
                    &&& f is Ok
                    &&& count == if f->Ok_0.kind@ == "footer"@ {
                        f->Ok_0.rows
                    } else {
                        None
                    }
                },
                Err(e) => line_problem(view, i as int, n as int) == Some(e@),
            }
        }),
{
    proof {
        reveal_strlit("row");
        reveal_strlit("footer");
        assert("row"@.len() == 3 && "footer"@.len() == 6);
    }
    match f {
        Err(e) => {
            let mut s = "line ".to_owned();
            push_dec(&mut s, i as u64 + 2);
            s.append(" is not valid JSON: ");
            s.append(e.as_str());
            Err(s)
        },
        Ok(l) => if same_text(l.kind.as_str(), "row") {
            Ok(None)
        } else if same_text(l.kind.as_str(), "footer") {
            if i != n - 1 {
                Err("footer is not the last line".to_owned())
            } else {
                match l.rows {
                    Some(count) => Ok(Some(count)),
                    None => Err("footer missing \"rows\"".to_owned()),
                }
            }
        } else {
            let mut s = "line ".to_owned();
            push_dec(&mut s, i as u64 + 2);
            s.append(" has unexpected type ");
            s.append(fmt_debug(l.kind.as_str()).as_str());
            Err(s)
        },
    }
}

/// The first problem among the first `k` of the lines after the header.
pub open spec fn first_problem(lines: Seq<Seq<char>>, k: int) -> Option<Seq<char>>
    decreases k,
{
    if k <= 0 {
        None
    } else {
        match first_problem(lines, k - 1) {
            Some(p) => Some(p),
            None => line_problem(line_fields(lines[k - 1]), k - 1, lines.len() as int),
        }
    }
}

/// The number of rows that the lines after the header frame, or what is wrong: the
/// first problem with a line; without one, a missing footer or a wrong count.
pub open spec fn body_result(lines: Seq<Seq<char>>) -> Result<usize, Seq<char>> {
    let n = lines.len() as int;
    match first_problem(lines, n) {
        Some(p) => Err(p),
        None => if n == 0 || line_fields(lines[n - 1])->Ok_0.kind != "footer"@ {
            Err("missing footer"@)
        } else {
            let declared = line_fields(lines[n - 1])->Ok_0.rows->0;
            if declared != n - 1 {
                Err(
                    "footer rows="@ + dec(declared as nat) + " but counted "@ + dec((n - 1) as nat)
                        + " row lines"@,
                )
            } else {
                Ok(declared)
            }
        },
    }
}

proof fn lemma_rows_before_footer(lines: Seq<Seq<char>>, k: int)
    requires
        0 <= k <= lines.len(),
        first_problem(lines, k) is None,
    ensures
        forall|j: int|
            0 <= j < k ==> line_fields(#[trigger] lines[j]) is Ok && line_problem(
                line_fields(lines[j]),
                j,
                lines.len() as int,
            ) is None,
    decreases k,
{
    if k > 0 {
        lemma_rows_before_footer(lines, k - 1);
    }
}

/// Framing accepts exactly the lines that are rows up to a last one, a footer that
/// counts them.
pub proof fn law_framing_accepts(lines: Seq<Seq<char>>, rows: usize)
    ensures
        body_result(lines) == Ok::<usize, Seq<char>>(rows) <==> {
            &&& lines.len() == rows + 1
            &&& forall|i: int|
                0 <= i < rows ==> line_fields(#[trigger] lines[i]) is Ok && line_fields(
                    lines[i],
                )->Ok_0.kind == "row"@
            &&& line_fields(lines[rows as int]) is Ok
            &&& line_fields(lines[rows as int])->Ok_0.kind == "footer"@
            &&& line_fields(lines[rows as int])->Ok_0.rows == Some(rows)
        },
{
    reveal_strlit("row");
    reveal_strlit("footer");
    assert("row"@.len() == 3 && "footer"@.len() == 6);
    let n = lines.len() as int;
    let framed = {
        &&& lines.len() == rows + 1
        &&& forall|i: int|
            0 <= i < rows ==> line_fields(#[trigger] lines[i]) is Ok && line_fields(
                lines[i],
            )->Ok_0.kind == "row"@
        &&& line_fields(lines[rows as int]) is Ok
        &&& line_fields(lines[rows as int])->Ok_0.kind == "footer"@
        &&& line_fields(lines[rows as int])->Ok_0.rows == Some(rows)
    };
    if framed {
        lemma_no_problem(lines, n);
    }
    if body_result(lines) == Ok::<usize, Seq<char>>(rows) {
        lemma_rows_before_footer(lines, n);
        assert(line_fields(lines[n - 1]) is Ok);
        assert(line_problem(line_fields(lines[n - 1]), n - 1, n) is None);
    }
}

proof fn lemma_no_problem(lines: Seq<Seq<char>>, k: int)
    requires
        0 <= k <= lines.len(),
        forall|j: int|
            0 <= j < k ==> line_problem(
                line_fields(#[trigger] lines[j]),
                j,
                lines.len() as int,
            ) is None,
    ensures
        first_problem(lines, k) is None,
    decreases k,
{
    if k > 0 {
        lemma_no_problem(lines, k - 1);
        assert(line_problem(line_fields(lines[k - 1]), k - 1, lines.len() as int) is None);
    }
}

proof fn lemma_problem_stays(lines: Seq<Seq<char>>, k: int, n: int)
    requires
        0 <= k <= n,
        first_problem(lines, k) is Some,
    ensures
        first_problem(lines, n) == first_problem(lines, k),
    decreases n - k,
{
    if k < n {
        assert(first_problem(lines, k + 1) == first_problem(lines, k));
        lemma_problem_stays(lines, k + 1, n);
    }
}

/// The lines after the header of a document that was written.
pub open spec fn sent_body(rows: Seq<EmitView>) -> Seq<Seq<char>> {
    rows.map_values(|r: EmitView| row_line(r)).push(footer_line(rows.len()))
}

/// Validate the lines after the header: each an object of type "row" or "footer",
/// one footer, standing last, with the number of rows before it.
pub fn validate_body_lines(lines: &[&str]) -> (r: Result<usize, String>)
    requires
        lines@.len() < usize::MAX,
    ensures
        match r {
            Ok(n) => body_result(texts(lines@)) == Ok::<usize, Seq<char>>(n),
            Err(e) => body_result(texts(lines@)) == Err::<usize, Seq<char>>(e@),
        },
        forall|rows: Seq<EmitView>|
            texts(lines@) == #[trigger] sent_body(rows) ==> body_result(texts(lines@)) == Ok::<
                usize,
                Seq<char>,
            >(rows.len() as usize),
        r is Ok ==> {
            &&& lines@.len() > 0
            &&& forall|i: int| 0 <= i < lines@.len() ==> closed_text(#[trigger] lines@[i]@)
            &&& forall|row: EmitView| texts(lines@).last() != #[trigger] row_line(row)
        },
{
    let ghost all = texts(lines@);
    let n = lines.len();
    let mut footer: Option<usize> = None;
    let mut i: usize = 0;
    while i < n
        invariant
            i <= n,
            n == lines@.len(),
            n < usize::MAX,
            all == texts(lines@),
            first_problem(all, i as int) is None,
            footer is Some ==> i == n && n > 0 && line_fields(all[n - 1])->Ok_0.kind == "footer"@
                && line_fields(all[n - 1])->Ok_0.rows == footer,
            footer is None && i > 0 ==> line_fields(all[i - 1])->Ok_0.kind != "footer"@,
            forall|j: int| 0 <= j < i ==> closed_text(#[trigger] lines@[j]@),
            footer is Some ==> forall|row: EmitView| all[n - 1] != #[trigger] row_line(row),
            forall|rows: Seq<EmitView>, j: int|
                #![trigger sent_body(rows), all[j]]
                all == sent_body(rows) && 0 <= j < i ==> {
                    if j < rows.len() {
                        line_fields(all[j]) == Ok::<LineView, Seq<char>>(
                            (LineView { kind: "row"@, rows: None }),
                        )
                    } else {
                        line_fields(all[j]) == Ok::<LineView, Seq<char>>(
                            (LineView { kind: "footer"@, rows: Some(rows.len() as usize) }),
                        )
                    }
                },
        decreases n - i,
    {
        let f = read_line(lines[i]);
        let ghost read = f;
        assert(all[i as int] == lines@[i as int]@);
        proof {
            assert forall|rows: Seq<EmitView>| all == #[trigger] sent_body(rows) implies {
                if i < rows.len() {
                    line_fields(all[i as int]) == Ok::<LineView, Seq<char>>(
                        (LineView { kind: "row"@, rows: None }),
                    )
                } else {
                    line_fields(all[i as int]) == Ok::<LineView, Seq<char>>(
                        (LineView { kind: "footer"@, rows: Some(rows.len() as usize) }),
                    )
                }
            } by {
                if i < rows.len() {
                    assert(all[i as int] == row_line(rows[i as int]));
                } else {
                    assert(all.len() == rows.len() + 1);
                    assert(all[i as int] == footer_line(rows.len()));
                    assert(footer_line((rows.len() as usize) as nat) == footer_line(rows.len()));
                }
            }
        }
        match check_line(f, i, n) {
            Ok(count) => {
                footer = count;
                assert(line_fields(all[i as int]) == Ok::<LineView, Seq<char>>(read->Ok_0@));
                assert(line_problem(line_fields(all[i as int]), i as int, n as int) is None);
                proof {
                    reveal_strlit("row");
                    reveal_strlit("footer");
                    assert("row"@.len() == 3 && "footer"@.len() == 6);
                }
            },
            Err(e) => {
                proof {
                    assert(first_problem(all, i + 1) == Some(e@));
                    lemma_problem_stays(all, i + 1, n as int);
                    assert forall|rows: Seq<EmitView>| all == #[trigger] sent_body(rows) implies false by {
                        assert(all.len() == rows.len() + 1);
                        reveal_strlit("row");
                        reveal_strlit("footer");
                    }
                }
                return Err(e);
            },
        }
        i = i + 1;
    }
    proof {
        assert forall|rows: Seq<EmitView>| all == #[trigger] sent_body(rows) implies body_result(all)
            == Ok::<usize, Seq<char>>(rows.len() as usize) by {
            assert(all.len() == rows.len() + 1);
            assert(all[n - 1] == all[n - 1]);
        }
    }
    match footer {
        None => Err("missing footer".to_owned()),
        Some(declared) => if declared != n - 1 {
            let mut e = "footer rows=".to_owned();
            push_dec(&mut e, declared as u64);
            e.append(" but counted ");
            push_dec(&mut e, (n - 1) as u64);
            e.append(" row lines");
            Err(e)
        } else {
            Ok(declared)
        },
    }
}

// ---- the whole document ---------------------------------------------------

/// What a document comes to, before anything is stored.
#[derive(Debug)]
pub enum Disposition {
    /// No valid header, or unsafe naming fields: no trusted identity.
    Malformed { reason: String },
    /// A valid header, so the document has its place, but broken framing.
    Rejected { header: Header, reason: String },
    /// A valid document.
    Accepted { header: Header, rows: usize },
}

/// The mathematical value of a disposition.
pub enum DispositionView {
    Malformed { reason: Seq<char> },
    Rejected { header: HeaderView, reason: Seq<char> },
    Accepted { header: HeaderView, rows: usize },
}

impl View for Disposition {
    type V = DispositionView;

    open spec fn view(&self) -> DispositionView {
        match self {
            Disposition::Malformed { reason } => DispositionView::Malformed { reason: reason@ },
            Disposition::Rejected { header, reason } => DispositionView::Rejected {
                header: header@,
                reason: reason@,
            },
            Disposition::Accepted { header, rows } => DispositionView::Accepted {
                header: header@,
                rows: *rows,
            },
        }
    }
}

/// The lines of a document: the text cut at its line breaks, without the empty
/// piece after a last one.
pub open spec fn ndjson_lines(text: Seq<char>) -> Seq<Seq<char>> {
    let pieces = split(text, '\n');
    if pieces.last().len() == 0 {
        pieces.drop_last()
    } else {
        pieces
    }
}

/// Cut a document into lines. One empty piece after a last line break is dropped;
/// an empty line anywhere else stays.
pub fn split_ndjson<'a>(text: &'a str) -> (r: Vec<&'a str>)
    ensures
        texts(r@) == ndjson_lines(text@),
{
    let mut v = split_all(text, '\n');
    let ghost all = texts(v@);
    let n = v.len();
    proof {
        lemma_split_not_empty(text@, '\n');
    }
    assert(all.last() == v@[n - 1]@);
    if v[n - 1].unicode_len() == 0 {
        v.pop();
        assert(texts(v@) =~= all.drop_last());
    }
    v
}

/// Calls `std::str::from_utf8`. Claimed: it gives the text that the bytes encode,
/// and nothing exactly where they are not valid UTF-8.
#[verifier::external_body]
pub(crate) fn utf8_text(body: &[u8]) -> (r: Option<&str>)
    ensures
        match r {
            Some(t) => valid_utf8(body@) && encode_utf8(t@) == body@,
            None => !valid_utf8(body@),
        },
{
    std::str::from_utf8(body).ok()
}

/// What a document comes to: UTF-8 first, then the header, then its naming fields,
/// then the framing.
pub open spec fn disposition(body: Seq<u8>) -> DispositionView {
    let lines = ndjson_lines(decode_utf8(body));
    if !valid_utf8(body) {
        DispositionView::Malformed { reason: "body is not valid UTF-8"@ }
    } else if lines.len() == 0 {
        DispositionView::Malformed { reason: "empty body"@ }
    } else {
        match header_result(lines[0]) {
            Err(reason) => DispositionView::Malformed { reason },
            Ok(header) => if !naming_ok(header) {
                DispositionView::Malformed { reason: naming_problem(header) }
            } else {
                match body_result(lines.drop_first()) {
                    Err(reason) => DispositionView::Rejected { header, reason },
                    Ok(rows) => DispositionView::Accepted { header, rows },
                }
            },
        }
    }
}

/// Nothing but a document with safe naming fields gets a place in the archive.
pub proof fn law_only_safe_names_are_trusted(body: Seq<u8>)
    ensures
        match disposition(body) {
            DispositionView::Malformed { .. } => true,
            DispositionView::Rejected { header, .. } => naming_ok(header),
            DispositionView::Accepted { header, .. } => naming_ok(header),
        },
{
}

// ---- documents that are cut off -------------------------------------------

/// A document that is cut off after `k` bytes.
pub open spec fn cut_document(m: MetaView, rows: Seq<EmitView>, k: int) -> Seq<u8> {
    encode_utf8(document_text(m, rows)).take(k)
}

/// What a cut leaves of lines, if not all: whole lines, and the front of another one.
pub open spec fn is_cut(lines: Seq<Seq<char>>, part: Seq<Seq<char>>) -> bool {
    ||| exists|i: int| 0 <= i < lines.len() && part == #[trigger] lines.take(i)
    ||| exists|i: int, x: int|
        0 <= i < lines.len() && 0 < x < lines[i].len() && part == #[trigger] lines.take(i).push(
            #[trigger] lines[i].take(x),
        )
}

proof fn lemma_cut_lines(lines: Seq<Seq<char>>, j: int)
    requires
        forall|i: int| 0 <= i < lines.len() ==> !(#[trigger] lines[i]).contains('\n'),
        0 <= j < lines_text(lines).len() - 1,
    ensures
        is_cut(lines, ndjson_lines(lines_text(lines).take(j))),
    decreases lines.len(),
{
    let text = lines_text(lines);
    let first = lines[0];
    let tail = lines.drop_first();
    lemma_lines_text_front(lines);
    if j <= first.len() {
        let part = text.take(j);
        assert(part =~= first.take(j));
        assert(!part.contains('\n')) by {
            if part.contains('\n') {
                let x = choose|x: int| 0 <= x < part.len() && part[x] == '\n';
                assert(first[x] == '\n');
            }
        }
        lemma_split_whole(part, '\n');
        if j == 0 {
            assert(ndjson_lines(part) =~= lines.take(0));
        } else if j == first.len() {
            assert(part =~= first);
            assert(ndjson_lines(part) =~= lines.take(1));
            if lines.len() == 1 {
                assert(lines_text(tail) =~= Seq::empty());
            }
        } else {
            assert(lines.take(0).push(first.take(j)) =~= seq![part]);
            assert(ndjson_lines(part) =~= lines.take(0).push(lines[0].take(j)));
        }
    } else {
        let n = j - first.len() - 1;
        let rest = lines_text(tail);
        assert(text.take(j) =~= first.push('\n') + rest.take(n));
        lemma_split_piece(first, '\n', rest.take(n));
        lemma_split_not_empty(rest.take(n), '\n');
        let pieces = split(rest.take(n), '\n');
        let whole = split(text.take(j), '\n');
        assert(whole.last() == pieces.last());
        assert(whole.drop_last() =~= seq![first] + pieces.drop_last());
        let q = ndjson_lines(rest.take(n));
        assert(ndjson_lines(text.take(j)) =~= seq![first] + q);
        assert forall|i: int| 0 <= i < tail.len() implies !(#[trigger] tail[i]).contains('\n') by {
            assert(tail[i] == lines[i + 1]);
        }
        lemma_cut_lines(tail, n);
        if exists|i: int| 0 <= i < tail.len() && q == #[trigger] tail.take(i) {
            let i = choose|i: int| 0 <= i < tail.len() && q == #[trigger] tail.take(i);
            assert(seq![first] + q =~= lines.take(i + 1));
        } else {
            let (i, x) = choose|i: int, x: int|
                0 <= i < tail.len() && 0 < x < tail[i].len() && q == #[trigger] tail.take(i).push(
                    #[trigger] tail[i].take(x),
                );
            assert(tail[i] == lines[i + 1]);
            assert(seq![first] + q =~= lines.take(i + 1).push(lines[i + 1].take(x)));
        }
    }
}

/// The front of valid UTF-8, where it is valid too, encodes the front of the text.
proof fn lemma_front_decodes(b: Seq<u8>, k: int)
    requires
        valid_utf8(b),
        0 <= k <= b.len(),
        valid_utf8(b.take(k)),
    ensures
        decode_utf8(b.take(k)).len() <= decode_utf8(b).len(),
        decode_utf8(b.take(k)) == decode_utf8(b).take(decode_utf8(b.take(k)).len() as int),
    decreases b.len(),
{
    let p = b.take(k);
    if k > 0 {
        let l = length_of_first_scalar(p);
        assert(p[0] == b[0]);
        assert(l == length_of_first_scalar(b));
        assert(pop_first_scalar(p) =~= pop_first_scalar(b).take(k - l));
        lemma_front_decodes(pop_first_scalar(b), k - l);
        let c = decode_first_scalar(b) as char;
        assert(decode_first_scalar(p) == decode_first_scalar(b));
        let (dp, db) = (decode_utf8(pop_first_scalar(p)), decode_utf8(pop_first_scalar(b)));
        assert(decode_utf8(p) == seq![c] + dp);
        assert(decode_utf8(b) == seq![c] + db);
        assert((seq![c] + db).take((1 + dp.len()) as int) =~= seq![c] + db.take(dp.len() as int));
    } else {
        assert(decode_utf8(b).take(0) =~= Seq::empty());
    }
}

/// A document that is cut off, by more than its last line break, is framed no more: it
/// has no line after the header, or its last line is a row, or one of its lines is not
/// closed.
proof fn lemma_cut_document(m: MetaView, rows: Seq<EmitView>, k: int)
    requires
        0 <= k < encode_utf8(document_text(m, rows)).len() - 1,
        valid_utf8(cut_document(m, rows, k)),
    ensures
        ({
            let lines = ndjson_lines(decode_utf8(cut_document(m, rows, k)));
            ||| lines.len() <= 1
            ||| exists|row: EmitView| lines.last() == #[trigger] row_line(row)
            ||| exists|i: int| 0 <= i < lines.len() && !closed_text(#[trigger] lines[i])
        }),
{
    let text = document_text(m, rows);
    let all = document_lines(m, rows);
    let bytes = encode_utf8(text);
    let part = decode_utf8(bytes.take(k));
    encode_utf8_valid_utf8(text);
    encode_utf8_decode_utf8(text);
    lemma_front_decodes(bytes, k);
    let j = part.len() as int;
    decode_utf8_encode_utf8(bytes.take(k));
    assert(j < text.len() - 1) by {
        assert(text.last() == '\n');
        if j == text.len() {
            assert(text.take(j) =~= text);
        } else if j == text.len() - 1 {
            assert(text =~= part + seq!['\n']);
            lemma_encode_concat(part, seq!['\n']);
            assert(is_ascii_chars(seq!['\n']));
            is_ascii_chars_encode_utf8(seq!['\n']);
        }
    }
    assert forall|i: int| 0 <= i < all.len() implies !(#[trigger] all[i]).contains('\n') by {
        lemma_document_line(m, rows, i);
    }
    lemma_cut_lines(all, j);
    let lines = ndjson_lines(part);
    lemma_document_line(m, rows, 0);
    if exists|i: int| 0 <= i < all.len() && lines == #[trigger] all.take(i) {
        let i = choose|i: int| 0 <= i < all.len() && lines == #[trigger] all.take(i);
        if i > 1 {
            assert(lines.last() == all[i - 1]);
            assert(all[i - 1] == row_line(rows[i - 2]));
        }
    } else {
        let (i, x) = choose|i: int, x: int|
            0 <= i < all.len() && 0 < x < all[i].len() && lines == #[trigger] all.take(i).push(
                #[trigger] all[i].take(x),
            );
        lemma_document_line(m, rows, i);
        lemma_cut_object_is_open(line_members(m, rows, i), x);
        assert(!closed_text(lines[i]));
    }
}

/// Classify a received document.
///
/// A document that was written from metadata with valid naming fields is accepted,
/// with the header and the number of rows that it was written with. One that was cut
/// off, wherever that is, is not accepted; only its last line break may be missing.
pub fn classify(body: &[u8]) -> (r: Disposition)
    ensures
        r@ == disposition(body@),
        forall|m: MetaView, rows: Seq<EmitView>|
            body@ == encode_utf8(#[trigger] document_text(m, rows)) && naming_ok(sent_header(m))
                ==> r@ == (DispositionView::Accepted {
                header: sent_header(m),
                rows: rows.len() as usize,
            }),
        forall|m: MetaView, rows: Seq<EmitView>|
            body@ == encode_utf8(#[trigger] document_text(m, rows)) ==> {
                let named = {
                    &&& m.server.len() > 0 && m.server[0] != '-'
                    &&& forall|i: int|
                        0 <= i < m.server.len() ==> 'a' <= #[trigger] m.server[i] <= 'z' || '0'
                            <= m.server[i] <= '9' || m.server[i] == '-'
                    &&& m.run_id.len() == 36
                    &&& m.run_id[8] == '-' && m.run_id[13] == '-' && m.run_id[18] == '-'
                        && m.run_id[23] == '-'
                    &&& forall|i: int|
                        0 <= i < 36 && i != 8 && i != 13 && i != 18 && i != 23 ==> '0'
                            <= #[trigger] m.run_id[i] <= '9' || 'a' <= m.run_id[i] <= 'f' || 'A'
                            <= m.run_id[i] <= 'F'
                    &&& m.dump_seq >= 1
                };
                match r@ {
                    DispositionView::Accepted { header, rows: n } => {
                        &&& named
                        &&& header.server == m.server
                        &&& header.run_id == m.run_id
                        &&& header.dump_seq == m.dump_seq
                        &&& header.emitted_at == Some(m.emitted_at)
                        &&& n == rows.len()
                    },
                    DispositionView::Rejected { .. } => false,
                    DispositionView::Malformed { .. } => !named,
                }
            },
        forall|m: MetaView, rows: Seq<EmitView>, k: int|
            0 <= k < encode_utf8(document_text(m, rows)).len() - 1 && body@
                == #[trigger] cut_document(m, rows, k) ==> !(r@ is Accepted),
{
    let text = match utf8_text(body) {
        Some(t) => t,
        None => {
            proof {
                assert forall|m: MetaView, rows: Seq<EmitView>|
                    body@ == encode_utf8(#[trigger] document_text(m, rows)) implies false by {
                    encode_utf8_valid_utf8(document_text(m, rows));
                }
            }
            return Disposition::Malformed { reason: "body is not valid UTF-8".to_owned() };
        },
    };
    proof {
        encode_utf8_decode_utf8(text@);
    }
    let lines = split_ndjson(text);
    let ghost all = texts(lines@);
    proof {
        assert forall|m: MetaView, rows: Seq<EmitView>|
            body@ == encode_utf8(#[trigger] document_text(m, rows)) implies {
            &&& all.len() == rows.len() + 2
            &&& all[0] == header_line(m)
            &&& all.drop_first() == sent_body(rows)
        } by {
            encode_utf8_decode_utf8(document_text(m, rows));
            law_document_is_line_delimited(m, rows);
            let sent = document_lines(m, rows);
            assert(sent.push(Seq::empty()).drop_last() =~= sent);
            assert(all == sent);
            assert(sent.drop_first() =~= sent_body(rows));
        }
    }
    if lines.len() == 0 {
        return Disposition::Malformed { reason: "empty body".to_owned() };
    }
    assert(all[0] == lines@[0]@);
    let header = match parse_header(lines[0]) {
        Ok(h) => h,
        Err(reason) => {
            return Disposition::Malformed { reason };
        },
    };
    match validate_naming(&header) {
        Ok(_) => {},
        Err(reason) => {
            return Disposition::Malformed { reason };
        },
    }
    let rest = slice_subrange(lines.as_slice(), 1, lines.len());
    assert(texts(rest@) =~= all.drop_first());
    match validate_body_lines(rest) {
        Ok(rows) => {
            proof {
                assert forall|m: MetaView, sent: Seq<EmitView>, k: int|
                    0 <= k < encode_utf8(document_text(m, sent)).len() - 1 implies body@
                    != #[trigger] cut_document(m, sent, k) by {
                    if body@ == cut_document(m, sent, k) {
                        lemma_cut_document(m, sent, k);
                        assert(all.last() == texts(rest@).last());
                        assert forall|i: int| 0 <= i < all.len() implies closed_text(
                            #[trigger] all[i],
                        ) by {
                            assert(all[i] == lines@[i]@);
                            if i > 0 {
                                assert(rest@[i - 1] == lines@[i]);
                            }
                        }
                    }
                }
            }
            Disposition::Accepted { header, rows }
        },
        Err(reason) => Disposition::Rejected { header, reason },
    }
}

} // verus!
