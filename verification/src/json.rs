//! JSON texts: writing strings, lists and flat objects, and reading a line's
//! members. The parser is `serde_json`.

use crate::emit::string_views;
use crate::fields::closed_text;
use crate::pairs::{by_name, lookup, pair_views};
use crate::text::{dec, dec_int, hex, opt_text};
use std::collections::BTreeMap;
use vstd::prelude::*;

verus! {

// ---- writing --------------------------------------------------------------

/// How a character stands inside a JSON string.
pub open spec fn escaped_char(c: char) -> Seq<char> {
    if c == '"' {
        seq!['\\', '"']
    } else if c == '\\' {
        seq!['\\', '\\']
    } else if c == '\u{8}' {
        seq!['\\', 'b']
    } else if c == '\u{c}' {
        seq!['\\', 'f']
    } else if c == '\n' {
        seq!['\\', 'n']
    } else if c == '\r' {
        seq!['\\', 'r']
    } else if c == '\t' {
        seq!['\\', 't']
    } else if (c as u32) < 0x20 {
        seq!['\\', 'u', '0', '0'] + hex(c as nat, 2, false)
    } else {
        seq![c]
    }
}

/// The characters of a JSON string between its quotes.
pub open spec fn escaped(s: Seq<char>) -> Seq<char>
    decreases s.len(),
{
    if s.len() == 0 {
        Seq::empty()
    } else {
        escaped(s.drop_last()) + escaped_char(s.last())
    }
}

/// A string as JSON.
pub open spec fn json_quoted(s: Seq<char>) -> Seq<char> {
    seq!['"'] + escaped(s) + seq!['"']
}

/// Calls `serde_json::to_string` on a string slice. Claimed: the string in quotes,
/// with the quote, the backslash and the control characters below U+0020 escaped
/// and everything else as it is. Serializing a string to memory does not fail.
#[verifier::external_body]
pub(crate) fn json_quote(s: &str) -> (r: String)
    ensures
        r@ == json_quoted(s@),
{
    serde_json::to_string(s).unwrap_or_default()
}

/// Strings as JSON, separated by commas.
pub open spec fn quoted_items(items: Seq<Seq<char>>) -> Seq<char>
    decreases items.len(),
{
    if items.len() == 0 {
        Seq::empty()
    } else if items.len() == 1 {
        json_quoted(items[0])
    } else {
        quoted_items(items.drop_last()) + ","@ + json_quoted(items.last())
    }
}

/// A list of strings as JSON.
pub open spec fn quoted_list(items: Seq<Seq<char>>) -> Seq<char> {
    "["@ + quoted_items(items) + "]"@
}

/// A number or null as JSON.
pub open spec fn dec_or_null(n: Option<u64>) -> Seq<char> {
    match n {
        Some(v) => dec(v as nat),
        None => "null"@,
    }
}

/// One member of an object as JSON.
pub open spec fn member_text(m: (Seq<char>, Seq<char>)) -> Seq<char> {
    json_quoted(m.0) + ":"@ + m.1
}

/// Members as JSON, separated by commas.
pub open spec fn members_text(members: Seq<(Seq<char>, Seq<char>)>) -> Seq<char>
    decreases members.len(),
{
    if members.len() == 0 {
        Seq::empty()
    } else if members.len() == 1 {
        member_text(members[0])
    } else {
        members_text(members.drop_last()) + ","@ + member_text(members.last())
    }
}

/// An object as JSON, each member given with the text of its value.
pub open spec fn object_text(members: Seq<(Seq<char>, Seq<char>)>) -> Seq<char> {
    "{"@ + members_text(members) + "}"@
}

/// A value that is null, a string, an integer or a list of strings.
pub open spec fn is_plain_value(v: Seq<char>) -> bool {
    ||| v == "null"@
    ||| exists|s: Seq<char>| v == #[trigger] json_quoted(s)
    ||| exists|n: int| v == #[trigger] dec_int(n)
    ||| exists|items: Seq<Seq<char>>| v == #[trigger] quoted_list(items)
}

/// An object whose values are all plain.
pub open spec fn is_plain_object(members: Seq<(Seq<char>, Seq<char>)>) -> bool {
    forall|i: int| 0 <= i < members.len() ==> is_plain_value((#[trigger] members[i]).1)
}

// ---- reading --------------------------------------------------------------

/// What `serde_json` reads a line as, the line being an object: the text of each
/// member's value, or the error.
pub uninterp spec fn json_object(line: Seq<char>) -> Result<Map<Seq<char>, Seq<char>>, Seq<char>>;

/// Calls `serde_json::from_str` for a map of raw values. The result is a function
/// of the line, named `json_object`. Claimed besides: an object written without
/// blanks whose values are null, strings, integers or lists of strings is read back
/// as its members; and a line that is read has all its strings and brackets closed.
#[verifier::external_body]
pub(crate) fn json_members(line: &str) -> (r: Result<Vec<(String, String)>, String>)
    ensures
        match r {
            Ok(pairs) => json_object(line@) == Ok::<Map<Seq<char>, Seq<char>>, Seq<char>>(
                by_name(pair_views(pairs@)),
            ),
            Err(e) => json_object(line@) == Err::<Map<Seq<char>, Seq<char>>, Seq<char>>(e@),
        },
        forall|members: Seq<(Seq<char>, Seq<char>)>|
            is_plain_object(members) ==> line@ == #[trigger] object_text(members) ==> r is Ok
                && by_name(pair_views(r->Ok_0@)) == by_name(members),
        r is Ok ==> closed_text(line@),
{
    serde_json::from_str::<BTreeMap<String, Box<serde_json::value::RawValue>>>(line)
        .map(|m| m.into_iter().map(|(k, v)| (k, v.get().to_string())).collect())
        .map_err(|e| e.to_string())
}

/// A blank of JSON.
pub open spec fn is_json_blank(c: char) -> bool {
    c == ' ' || c == '\n' || c == '\t' || c == '\r'
}

/// A value's text behind blanks.
pub open spec fn is_padded(raw: Seq<char>, pad: Seq<char>, v: Seq<char>) -> bool {
    &&& raw == pad + v
    &&& forall|i: int| 0 <= i < pad.len() ==> is_json_blank(#[trigger] pad[i])
}

/// What `serde_json` reads a value's text as, the value being a string.
pub uninterp spec fn json_text(raw: Seq<char>) -> Result<Seq<char>, Seq<char>>;

/// Calls `serde_json::from_str` for a string. The result is a function of the text,
/// named `json_text`. Claimed besides: a string that was written as JSON is read
/// back, blanks before it or not.
#[verifier::external_body]
pub(crate) fn json_string(raw: &str) -> (r: Result<String, String>)
    ensures
        match r {
            Ok(s) => json_text(raw@) == Ok::<Seq<char>, Seq<char>>(s@),
            Err(e) => json_text(raw@) == Err::<Seq<char>, Seq<char>>(e@),
        },
        forall|s: Seq<char>| raw@ == #[trigger] json_quoted(s) ==> r is Ok && r->Ok_0@ == s,
        forall|pad: Seq<char>, s: Seq<char>| #[trigger]
            is_padded(raw@, pad, json_quoted(s)) ==> r is Ok && r->Ok_0@ == s,
{
    serde_json::from_str::<String>(raw).map_err(|e| e.to_string())
}

/// What `serde_json` reads a value's text as, the value being a string or null.
pub uninterp spec fn json_opt_text(raw: Seq<char>) -> Result<Option<Seq<char>>, Seq<char>>;

/// Calls `serde_json::from_str` for an optional string. The result is a function of
/// the text, named `json_opt_text`. Claimed besides: a string that was written as JSON
/// is read back and null is read as nothing, blanks before it or not.
#[verifier::external_body]
pub(crate) fn json_opt_string(raw: &str) -> (r: Result<Option<String>, String>)
    ensures
        match r {
            Ok(s) => json_opt_text(raw@) == Ok::<Option<Seq<char>>, Seq<char>>(opt_text(s)),
            Err(e) => json_opt_text(raw@) == Err::<Option<Seq<char>>, Seq<char>>(e@),
        },
        forall|s: Seq<char>|
            raw@ == #[trigger] json_quoted(s) ==> r is Ok && r->Ok_0 is Some && r->Ok_0->0@ == s,
        forall|pad: Seq<char>, s: Seq<char>| #[trigger]
            is_padded(raw@, pad, json_quoted(s)) ==> r is Ok && r->Ok_0 is Some && r->Ok_0->0@ == s,
        forall|pad: Seq<char>| #[trigger]
            is_padded(raw@, pad, "null"@) ==> r is Ok && r->Ok_0 is None,
{
    serde_json::from_str::<Option<String>>(raw).map_err(|e| e.to_string())
}

/// What `serde_json` reads a value's text as, the value being a `u32` or null.
pub uninterp spec fn json_opt_u32(raw: Seq<char>) -> Result<Option<u32>, Seq<char>>;

/// Calls `serde_json::from_str` for an optional `u32`. The result is a function of the
/// text, named `json_opt_u32`. Claimed besides: the decimal text of a number in range
/// is read as that number and null as nothing, blanks before it or not.
#[verifier::external_body]
pub(crate) fn json_optional_u32(raw: &str) -> (r: Result<Option<u32>, String>)
    ensures
        match r {
            Ok(n) => json_opt_u32(raw@) == Ok::<Option<u32>, Seq<char>>(n),
            Err(e) => json_opt_u32(raw@) == Err::<Option<u32>, Seq<char>>(e@),
        },
        forall|n: u32|
            raw@ == #[trigger] dec(n as nat) ==> r is Ok && r->Ok_0 == Some(n),
        forall|pad: Seq<char>, n: u32| #[trigger]
            is_padded(raw@, pad, dec(n as nat)) ==> r is Ok && r->Ok_0 == Some(n),
        forall|pad: Seq<char>| #[trigger]
            is_padded(raw@, pad, "null"@) ==> r is Ok && r->Ok_0 is None,
{
    serde_json::from_str::<Option<u32>>(raw).map_err(|e| e.to_string())
}

/// What `serde_json` reads a value's text as, the value being null or a `usize` of a
/// machine whose greatest one is `max`.
pub uninterp spec fn json_opt_usize(raw: Seq<char>, max: usize) -> Result<Option<usize>, Seq<char>>;

/// Calls `serde_json::from_str` for an optional `usize`. The result is a function of the
/// text and of the machine's width, named `json_opt_usize`. Claimed besides: the decimal
/// text of a number in range is read as that number and null as nothing, blanks before
/// it or not.
#[verifier::external_body]
pub(crate) fn json_optional_usize(raw: &str) -> (r: Result<Option<usize>, String>)
    ensures
        match r {
            Ok(n) => json_opt_usize(raw@, usize::MAX) == Ok::<Option<usize>, Seq<char>>(n),
            Err(e) => json_opt_usize(raw@, usize::MAX) == Err::<Option<usize>, Seq<char>>(e@),
        },
        forall|n: usize|
            raw@ == #[trigger] dec(n as nat) ==> r is Ok && r->Ok_0 == Some(n),
        forall|pad: Seq<char>, n: usize| #[trigger]
            is_padded(raw@, pad, dec(n as nat)) ==> r is Ok && r->Ok_0 == Some(n),
        forall|pad: Seq<char>| #[trigger]
            is_padded(raw@, pad, "null"@) ==> r is Ok && r->Ok_0 is None,
{
    serde_json::from_str::<Option<usize>>(raw).map_err(|e| e.to_string())
}

/// What `serde_json` reads a value's text as, the value being a `u32`.
pub uninterp spec fn json_u32_value(raw: Seq<char>) -> Result<u32, Seq<char>>;

/// Calls `serde_json::from_str` for a `u32`. The result is a function of the text, named
/// `json_u32_value`. Claimed besides: the decimal text of a number in range is read as
/// that number, blanks before it or not.
#[verifier::external_body]
pub(crate) fn json_u32(raw: &str) -> (r: Result<u32, String>)
    ensures
        match r {
            Ok(n) => json_u32_value(raw@) == Ok::<u32, Seq<char>>(n),
            Err(e) => json_u32_value(raw@) == Err::<u32, Seq<char>>(e@),
        },
        forall|n: u32| raw@ == #[trigger] dec(n as nat) ==> r is Ok && r->Ok_0 == n,
        forall|pad: Seq<char>, n: u32| #[trigger]
            is_padded(raw@, pad, dec(n as nat)) ==> r is Ok && r->Ok_0 == n,
{
    serde_json::from_str::<u32>(raw).map_err(|e| e.to_string())
}

/// What `serde_json` reads a value's text as, the value being an `i32`.
pub uninterp spec fn json_i32_value(raw: Seq<char>) -> Result<i32, Seq<char>>;

/// Calls `serde_json::from_str` for an `i32`. The result is a function of the text, named
/// `json_i32_value`. Claimed besides: the decimal text of a number in range is read as
/// that number, blanks before it or not.
#[verifier::external_body]
pub(crate) fn json_i32(raw: &str) -> (r: Result<i32, String>)
    ensures
        match r {
            Ok(n) => json_i32_value(raw@) == Ok::<i32, Seq<char>>(n),
            Err(e) => json_i32_value(raw@) == Err::<i32, Seq<char>>(e@),
        },
        forall|n: i32| raw@ == #[trigger] dec_int(n as int) ==> r is Ok && r->Ok_0 == n,
        forall|pad: Seq<char>, n: i32| #[trigger]
            is_padded(raw@, pad, dec_int(n as int)) ==> r is Ok && r->Ok_0 == n,
{
    serde_json::from_str::<i32>(raw).map_err(|e| e.to_string())
}

/// What `serde_json` reads a value's text as, the value being a `u64` or null.
pub uninterp spec fn json_opt_u64(raw: Seq<char>) -> Result<Option<u64>, Seq<char>>;

/// Calls `serde_json::from_str` for an optional `u64`. The result is a function of the
/// text, named `json_opt_u64`. Claimed besides: the decimal text of a number in range is
/// read as that number and null as nothing, blanks before it or not.
#[verifier::external_body]
pub(crate) fn json_optional_u64(raw: &str) -> (r: Result<Option<u64>, String>)
    ensures
        match r {
            Ok(n) => json_opt_u64(raw@) == Ok::<Option<u64>, Seq<char>>(n),
            Err(e) => json_opt_u64(raw@) == Err::<Option<u64>, Seq<char>>(e@),
        },
        forall|n: Option<u64>| raw@ == #[trigger] dec_or_null(n) ==> r is Ok && r->Ok_0 == n,
        forall|pad: Seq<char>, n: Option<u64>| #[trigger]
            is_padded(raw@, pad, dec_or_null(n)) ==> r is Ok && r->Ok_0 == n,
{
    serde_json::from_str::<Option<u64>>(raw).map_err(|e| e.to_string())
}

/// What `serde_json` reads a value's text as, the value being a list of strings.
pub uninterp spec fn json_texts(raw: Seq<char>) -> Result<Seq<Seq<char>>, Seq<char>>;

/// Calls `serde_json::from_str` for a list of strings. The result is a function of the
/// text, named `json_texts`. Claimed besides: a list that was written as JSON is read
/// back, blanks before it or not.
#[verifier::external_body]
pub(crate) fn json_strings(raw: &str) -> (r: Result<Vec<String>, String>)
    ensures
        match r {
            Ok(v) => json_texts(raw@) == Ok::<Seq<Seq<char>>, Seq<char>>(string_views(v@)),
            Err(e) => json_texts(raw@) == Err::<Seq<Seq<char>>, Seq<char>>(e@),
        },
        forall|items: Seq<Seq<char>>|
            raw@ == #[trigger] quoted_list(items) ==> r is Ok && string_views(r->Ok_0@) == items,
        forall|pad: Seq<char>, items: Seq<Seq<char>>| #[trigger]
            is_padded(raw@, pad, quoted_list(items)) ==> r is Ok && string_views(r->Ok_0@) == items,
{
    serde_json::from_str::<Vec<String>>(raw).map_err(|e| e.to_string())
}

/// A string member that may be missing or null.
pub open spec fn text_member(m: Map<Seq<char>, Seq<char>>, name: Seq<char>) -> Result<
    Option<Seq<char>>,
    Seq<char>,
> {
    if m.contains_key(name) {
        json_opt_text(m[name])
    } else {
        Ok(None)
    }
}

/// A string member that may be missing or null.
pub fn read_text(pairs: &Vec<(String, String)>, name: &str) -> (r: Result<Option<String>, String>)
    ensures
        match r {
            Ok(s) => text_member(by_name(pair_views(pairs@)), name@) == Ok::<
                Option<Seq<char>>,
                Seq<char>,
            >(opt_text(s)),
            Err(e) => text_member(by_name(pair_views(pairs@)), name@) == Err::<
                Option<Seq<char>>,
                Seq<char>,
            >(e@),
        },
        forall|s: Seq<char>|
            by_name(pair_views(pairs@)).contains_key(name@) && by_name(pair_views(pairs@))[name@]
                == #[trigger] json_quoted(s) ==> r is Ok && r->Ok_0 is Some && r->Ok_0->0@ == s,
{
    match lookup(pairs, name) {
        None => Ok(None),
        Some(raw) => json_opt_string(raw),
    }
}

/// A `u32` member that may be missing or null.
pub open spec fn u32_member(m: Map<Seq<char>, Seq<char>>, name: Seq<char>) -> Result<
    Option<u32>,
    Seq<char>,
> {
    if m.contains_key(name) {
        json_opt_u32(m[name])
    } else {
        Ok(None)
    }
}

/// A `u32` member that may be missing or null.
pub fn read_u32(pairs: &Vec<(String, String)>, name: &str) -> (r: Result<Option<u32>, String>)
    ensures
        match r {
            Ok(n) => u32_member(by_name(pair_views(pairs@)), name@) == Ok::<
                Option<u32>,
                Seq<char>,
            >(n),
            Err(e) => u32_member(by_name(pair_views(pairs@)), name@) == Err::<
                Option<u32>,
                Seq<char>,
            >(e@),
        },
        forall|n: u32|
            by_name(pair_views(pairs@)).contains_key(name@) && by_name(pair_views(pairs@))[name@]
                == #[trigger] dec(n as nat) ==> r == Ok::<Option<u32>, String>(Some(n)),
{
    match lookup(pairs, name) {
        None => Ok(None),
        Some(raw) => json_optional_u32(raw),
    }
}

/// A `usize` member that may be missing or null.
pub open spec fn usize_member(m: Map<Seq<char>, Seq<char>>, name: Seq<char>) -> Result<
    Option<usize>,
    Seq<char>,
> {
    if m.contains_key(name) {
        json_opt_usize(m[name], usize::MAX)
    } else {
        Ok(None)
    }
}

/// A `usize` member that may be missing or null.
pub fn read_usize(pairs: &Vec<(String, String)>, name: &str) -> (r: Result<Option<usize>, String>)
    ensures
        match r {
            Ok(n) => usize_member(by_name(pair_views(pairs@)), name@) == Ok::<
                Option<usize>,
                Seq<char>,
            >(n),
            Err(e) => usize_member(by_name(pair_views(pairs@)), name@) == Err::<
                Option<usize>,
                Seq<char>,
            >(e@),
        },
        forall|n: usize|
            by_name(pair_views(pairs@)).contains_key(name@) && by_name(pair_views(pairs@))[name@]
                == #[trigger] dec(n as nat) ==> r == Ok::<Option<usize>, String>(Some(n)),
{
    match lookup(pairs, name) {
        None => Ok(None),
        Some(raw) => json_optional_usize(raw),
    }
}
// ---- one line stays one line ----------------------------------------------

/// An object of plain values holds no line break.
pub proof fn lemma_plain_object_is_one_line(members: Seq<(Seq<char>, Seq<char>)>)
    requires
        is_plain_object(members),
    ensures
        !object_text(members).contains('\n'),
{
    reveal_strlit("{");
    reveal_strlit("}");
    lemma_members_are_one_line(members);
    lemma_no_break_concat("{"@, members_text(members));
    lemma_no_break_concat("{"@ + members_text(members), "}"@);
}

proof fn lemma_members_are_one_line(members: Seq<(Seq<char>, Seq<char>)>)
    requires
        is_plain_object(members),
    ensures
        !members_text(members).contains('\n'),
    decreases members.len(),
{
    if members.len() > 0 {
        let m = members.last();
        assert(m == members[members.len() - 1]);
        reveal_strlit(",");
        reveal_strlit(":");
        lemma_quoted_is_one_line(m.0);
        lemma_plain_value_is_one_line(m.1);
        lemma_no_break_concat(json_quoted(m.0), ":"@);
        lemma_no_break_concat(json_quoted(m.0) + ":"@, m.1);
        if members.len() > 1 {
            let init = members.drop_last();
            assert(is_plain_object(init)) by {
                assert forall|i: int| 0 <= i < init.len() implies is_plain_value(
                    (#[trigger] init[i]).1,
                ) by {
                    assert(init[i] == members[i]);
                }
            }
            lemma_members_are_one_line(init);
            lemma_no_break_concat(members_text(init), ","@);
            lemma_no_break_concat(members_text(init) + ","@, member_text(m));
        }
    }
}

proof fn lemma_plain_value_is_one_line(v: Seq<char>)
    requires
        is_plain_value(v),
    ensures
        !v.contains('\n'),
{
    reveal_strlit("null");
    if v == "null"@ {
    } else if exists|s: Seq<char>| v == #[trigger] json_quoted(s) {
        let s = choose|s: Seq<char>| v == #[trigger] json_quoted(s);
        lemma_quoted_is_one_line(s);
    } else if exists|n: int| v == #[trigger] dec_int(n) {
        let n = choose|n: int| v == #[trigger] dec_int(n);
        if n < 0 {
            lemma_dec_is_one_line((-n) as nat);
            lemma_no_break_concat(seq!['-'], dec((-n) as nat));
        } else {
            lemma_dec_is_one_line(n as nat);
        }
    } else {
        let items = choose|items: Seq<Seq<char>>| v == #[trigger] quoted_list(items);
        reveal_strlit("[");
        reveal_strlit("]");
        lemma_items_are_one_line(items);
        lemma_no_break_concat("["@, quoted_items(items));
        lemma_no_break_concat("["@ + quoted_items(items), "]"@);
    }
}

proof fn lemma_items_are_one_line(items: Seq<Seq<char>>)
    ensures
        !quoted_items(items).contains('\n'),
    decreases items.len(),
{
    if items.len() > 0 {
        lemma_quoted_is_one_line(items.last());
        if items.len() > 1 {
            reveal_strlit(",");
            let init = items.drop_last();
            lemma_items_are_one_line(init);
            lemma_no_break_concat(quoted_items(init), ","@);
            lemma_no_break_concat(quoted_items(init) + ","@, json_quoted(items.last()));
        }
    }
}

proof fn lemma_dec_is_one_line(n: nat)
    ensures
        !dec(n).contains('\n'),
    decreases n,
{
    if n >= 10 {
        lemma_dec_is_one_line(n / 10);
        lemma_no_break_concat(dec(n / 10), seq![crate::text::digit(n % 10)]);
        assert(dec(n) =~= dec(n / 10) + seq![crate::text::digit(n % 10)]);
    }
}

/// A JSON string holds no line break.
pub proof fn lemma_quoted_is_one_line(s: Seq<char>)
    ensures
        !json_quoted(s).contains('\n'),
    decreases s.len(),
{
    lemma_escaped_is_one_line(s);
    let q = json_quoted(s);
    if q.contains('\n') {
        let i = choose|i: int| 0 <= i < q.len() && q[i] == '\n';
        assert(0 < i < q.len() - 1);
        assert(escaped(s)[i - 1] == '\n');
        assert(escaped(s).contains('\n'));
    }
}

proof fn lemma_escaped_is_one_line(s: Seq<char>)
    ensures
        !escaped(s).contains('\n'),
    decreases s.len(),
{
    if s.len() > 0 {
        lemma_escaped_is_one_line(s.drop_last());
        let (a, b) = (escaped(s.drop_last()), escaped_char(s.last()));
        assert(!b.contains('\n')) by {
            reveal_with_fuel(hex, 3);
        }
        lemma_no_break_concat(a, b);
    }
}

/// Texts without a line break make a text without one.
pub proof fn lemma_no_break_concat(a: Seq<char>, b: Seq<char>)
    requires
        !a.contains('\n'),
        !b.contains('\n'),
    ensures
        !(a + b).contains('\n'),
{
    let s = a + b;
    if s.contains('\n') {
        let i = choose|i: int| 0 <= i < s.len() && s[i] == '\n';
        if i < a.len() {
            assert(a[i] == '\n');
        } else {
            assert(b[i - a.len()] == '\n');
        }
    }
}

} // verus!
