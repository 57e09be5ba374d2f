//! What is wrong with an object's fields: of the fields that are read, the first that
//! stands twice or has a value of another type, in the order of the text, with its
//! place in the line.

use crate::emit::string_views;
use crate::fields::{colons, distinct_names, field_names, places, read_names};
use crate::json::{
    dec_or_null, is_json_blank, is_padded, is_plain_object, json_i32, json_i32_value,
    json_opt_string, json_opt_text, json_opt_u32, json_opt_u64, json_opt_usize, json_optional_u32,
    json_optional_u64, json_optional_usize, json_quoted, json_string, json_strings, json_text,
    json_texts, json_u32, json_u32_value, object_text, quoted_list,
};
use crate::pairs::{by_name, lookup, pair_views};
use crate::text::{chars_of, dec, dec_int, opt_text, push_dec_wide, same_text};
use vstd::prelude::*;

verus! {

// ---- places ---------------------------------------------------------------

/// The bytes of a character.
pub open spec fn char_bytes(c: char) -> nat {
    let n = c as u32;
    if n < 0x80 {
        1
    } else if n < 0x800 {
        2
    } else if n < 0x1_0000 {
        3
    } else {
        4
    }
}

/// The line in which a text ends, the first being 1.
pub open spec fn line_of(s: Seq<char>) -> nat
    decreases s.len(),
{
    if s.len() == 0 {
        1
    } else if s.last() == '\n' {
        line_of(s.drop_last()) + 1
    } else {
        line_of(s.drop_last())
    }
}

/// The bytes of a text's last line.
pub open spec fn column_of(s: Seq<char>) -> nat
    decreases s.len(),
{
    if s.len() == 0 || s.last() == '\n' {
        0
    } else {
        column_of(s.drop_last()) + char_bytes(s.last())
    }
}

/// How a complaint names the place where a text ends.
pub open spec fn place_text(s: Seq<char>) -> Seq<char> {
    " at line "@ + dec(line_of(s)) + " column "@ + dec(column_of(s))
}

/// Blanks that take up a text's place: its line breaks, and a blank for every other
/// byte.
pub open spec fn blanked(s: Seq<char>) -> Seq<char>
    decreases s.len(),
{
    if s.len() == 0 {
        Seq::empty()
    } else if s.last() == '\n' {
        blanked(s.drop_last()).push('\n')
    } else {
        blanked(s.drop_last()) + Seq::new(char_bytes(s.last()), |i: int| ' ')
    }
}

/// Past blanks, from a place on.
pub open spec fn past_blanks(s: Seq<char>, i: int) -> int
    decreases s.len() - i,
{
    if 0 <= i < s.len() && is_json_blank(s[i]) {
        past_blanks(s, i + 1)
    } else {
        i
    }
}

/// Where a text ends but for blanks.
pub open spec fn end_of(s: Seq<char>) -> int
    decreases s.len(),
{
    if s.len() > 0 && is_json_blank(s.last()) {
        end_of(s.drop_last())
    } else {
        s.len() as int
    }
}

/// Where the name of field `i` ends, its colon being next.
pub open spec fn name_end(line: Seq<char>, i: int) -> int {
    if i < colons(line).len() {
        colons(line)[i]
    } else {
        line.len() as int
    }
}

/// Blanks up to where the value of field `i` stands.
pub open spec fn value_pad(line: Seq<char>, i: int) -> Seq<char> {
    if i < colons(line).len() {
        blanked(line.take(past_blanks(line, colons(line)[i] + 1)))
    } else {
        Seq::empty()
    }
}

fn bytes_of(c: char) -> (r: usize)
    ensures
        r == char_bytes(c),
{
    let n = c as u32;
    if n < 0x80 {
        1
    } else if n < 0x800 {
        2
    } else if n < 0x1_0000 {
        3
    } else {
        4
    }
}

fn is_blank(c: char) -> (r: bool)
    ensures
        r == is_json_blank(c),
{
    c == ' ' || c == '\n' || c == '\t' || c == '\r'
}

/// The place after the first `n` characters of `v`, as a complaint names it.
fn fmt_place(v: &Vec<char>, n: usize) -> (r: String)
    requires
        n <= v@.len(),
    ensures
        r@ == place_text(v@.take(n as int)),
{
    let mut line: u128 = 1;
    let mut column: u128 = 0;
    let mut i: usize = 0;
    while i < n
        invariant
            i <= n <= v@.len(),
            line == line_of(v@.take(i as int)),
            column == column_of(v@.take(i as int)),
            line <= i + 1,
            column <= 4 * i,
        decreases n - i,
    {
        assert(v@.take(i + 1).drop_last() =~= v@.take(i as int));
        assert(v@.take(i + 1).last() == v@[i as int]);
        let c = v[i];
        if c == '\n' {
            line = line + 1;
            column = 0;
        } else {
            column = column + bytes_of(c) as u128;
        }
        i = i + 1;
    }
    let mut s = " at line ".to_owned();
    push_dec_wide(&mut s, line);
    s.append(" column ");
    push_dec_wide(&mut s, column);
    s
}

/// Blanks that take up the place of the first `n` characters of `v`.
fn blanks_for(v: &Vec<char>, n: usize) -> (r: String)
    requires
        n <= v@.len(),
    ensures
        r@ == blanked(v@.take(n as int)),
{
    let mut s = String::new();
    let mut i: usize = 0;
    assert(s@ =~= blanked(v@.take(0)));
    while i < n
        invariant
            i <= n <= v@.len(),
            s@ == blanked(v@.take(i as int)),
        decreases n - i,
    {
        assert(v@.take(i + 1).drop_last() =~= v@.take(i as int));
        assert(v@.take(i + 1).last() == v@[i as int]);
        let c = v[i];
        if c == '\n' {
            s.push('\n');
        } else {
            let k = bytes_of(c);
            let ghost before = s@;
            let mut j: usize = 0;
            assert(before + Seq::new(0, |x: int| ' ') =~= before);
            while j < k
                invariant
                    j <= k,
                    s@ == before + Seq::new(j as nat, |x: int| ' '),
                decreases k - j,
            {
                s.push(' ');
                j = j + 1;
                assert(s@ =~= before + Seq::new(j as nat, |x: int| ' '));
            }
        }
        i = i + 1;
    }
    s
}

proof fn lemma_blanked(s: Seq<char>)
    ensures
        forall|i: int| 0 <= i < blanked(s).len() ==> is_json_blank(#[trigger] blanked(s)[i]),
    decreases s.len(),
{
    if s.len() > 0 {
        let init = blanked(s.drop_last());
        lemma_blanked(s.drop_last());
        assert forall|i: int| 0 <= i < blanked(s).len() implies is_json_blank(
            #[trigger] blanked(s)[i],
        ) by {
            if i < init.len() {
                assert(blanked(s)[i] == init[i]);
            }
        }
    }
}

proof fn lemma_past_blanks(s: Seq<char>, i: int)
    requires
        0 <= i <= s.len(),
    ensures
        i <= past_blanks(s, i) <= s.len(),
    decreases s.len() - i,
{
    if i < s.len() && is_json_blank(s[i]) {
        lemma_past_blanks(s, i + 1);
    }
}

proof fn lemma_colons_are_inside(s: Seq<char>)
    ensures
        forall|i: int| 0 <= i < colons(s).len() ==> 0 <= #[trigger] colons(s)[i] < s.len(),
    decreases s.len(),
{
    if s.len() > 0 {
        let init = colons(s.drop_last());
        lemma_colons_are_inside(s.drop_last());
        assert forall|i: int| 0 <= i < colons(s).len() implies 0 <= #[trigger] colons(s)[i]
            < s.len() by {
            if i < init.len() {
                assert(colons(s)[i] == init[i]);
            }
        }
    }
}

// ---- kinds ----------------------------------------------------------------

/// What a field has to be.
#[derive(Debug, Clone, Copy, PartialEq, Eq, Structural)]
pub enum Kind {
    /// A string.
    Text,
    /// A string or null.
    OptText,
    /// A `u32` or null.
    OptU32,
    /// A `usize` or null.
    OptUsize,
    /// A `u32`.
    U32,
    /// An `i32`.
    I32,
    /// A `u64` or null.
    OptU64,
    /// A list of strings.
    Texts,
}

/// What is said of a value that is not of a kind; nothing of one that is.
pub open spec fn kind_error(kind: Kind, raw: Seq<char>) -> Option<Seq<char>> {
    match kind {
        Kind::Text => json_text(raw).err(),
        Kind::OptText => json_opt_text(raw).err(),
        Kind::OptU32 => json_opt_u32(raw).err(),
        Kind::OptUsize => json_opt_usize(raw, usize::MAX).err(),
        Kind::U32 => json_u32_value(raw).err(),
        Kind::I32 => json_i32_value(raw).err(),
        Kind::OptU64 => json_opt_u64(raw).err(),
        Kind::Texts => json_texts(raw).err(),
    }
}

/// A value is written as one of a kind.
pub open spec fn is_of_kind(kind: Kind, v: Seq<char>) -> bool {
    match kind {
        Kind::Text => exists|s: Seq<char>| v == #[trigger] json_quoted(s),
        Kind::OptText => v == "null"@ || exists|s: Seq<char>| v == #[trigger] json_quoted(s),
        Kind::OptU32 => v == "null"@ || exists|n: u32| v == #[trigger] dec(n as nat),
        Kind::OptUsize => v == "null"@ || exists|n: usize| v == #[trigger] dec(n as nat),
        Kind::U32 => exists|n: u32| v == #[trigger] dec(n as nat),
        Kind::I32 => exists|n: i32| v == #[trigger] dec_int(n as int),
        Kind::OptU64 => exists|n: Option<u64>| v == #[trigger] dec_or_null(n),
        Kind::Texts => exists|items: Seq<Seq<char>>| v == #[trigger] quoted_list(items),
    }
}

/// What is wrong with a value's text, blanks before it or not.
fn value_error(kind: Kind, raw: &str) -> (r: Option<String>)
    ensures
        opt_text(r) == kind_error(kind, raw@),
        forall|pad: Seq<char>, v: Seq<char>| #[trigger]
            is_padded(raw@, pad, v) && is_of_kind(kind, v) ==> r is None,
{
    match kind {
        Kind::Text => json_string(raw).err(),
        Kind::OptText => json_opt_string(raw).err(),
        Kind::OptU32 => json_optional_u32(raw).err(),
        Kind::OptUsize => json_optional_usize(raw).err(),
        Kind::U32 => json_u32(raw).err(),
        Kind::I32 => json_i32(raw).err(),
        Kind::OptU64 => json_optional_u64(raw).err(),
        Kind::Texts => json_strings(raw).err(),
    }
}

/// The kind of a field that is read.
pub open spec fn kind_of(known: Seq<(Seq<char>, Kind)>, name: Seq<char>) -> Option<Kind>
    decreases known.len(),
{
    if known.len() == 0 {
        None
    } else if known.last().0 == name {
        Some(known.last().1)
    } else {
        kind_of(known.drop_last(), name)
    }
}

/// The values of known fields.
pub open spec fn known_views(known: Seq<(&str, Kind)>) -> Seq<(Seq<char>, Kind)> {
    known.map_values(|k: (&str, Kind)| (k.0@, k.1))
}

fn find_kind(known: &[(&str, Kind)], name: &str) -> (r: Option<Kind>)
    ensures
        r == kind_of(known_views(known@), name@),
{
    let ghost all = known_views(known@);
    let mut i: usize = known.len();
    assert(all.take(i as int) =~= all);
    while i > 0
        invariant
            i <= known@.len(),
            all == known_views(known@),
            kind_of(all, name@) == kind_of(all.take(i as int), name@),
        decreases i,
    {
        i = i - 1;
        assert(all.take(i + 1).drop_last() =~= all.take(i as int));
        assert(all.take(i + 1).last() == (known@[i as int].0@, known@[i as int].1));
        if same_text(known[i].0, name) {
            return Some(known[i].1);
        }
    }
    None
}

/// Every member with the name of a known field is written as one of its kind.
pub open spec fn well_typed(
    members: Seq<(Seq<char>, Seq<char>)>,
    known: Seq<(Seq<char>, Kind)>,
) -> bool {
    forall|i: int|
        0 <= i < members.len() ==> match kind_of(known, (#[trigger] members[i]).0) {
            Some(kind) => is_of_kind(kind, members[i].1),
            None => true,
        }
}

// ---- complaints -----------------------------------------------------------

/// What is said of a field that stands twice.
pub open spec fn duplicate_field(name: Seq<char>) -> Seq<char> {
    "duplicate field `"@ + name + "`"@
}

/// What is wrong with field `i` of an object. The values are the object's members, so
/// of a field that stands again later only that is said.
pub open spec fn field_complaint(
    line: Seq<char>,
    m: Map<Seq<char>, Seq<char>>,
    known: Seq<(Seq<char>, Kind)>,
    i: int,
) -> Option<Seq<char>> {
    let names = field_names(line);
    let name = names[i];
    match kind_of(known, name) {
        None => None,
        Some(kind) => if names.take(i).contains(name) {
            Some(duplicate_field(name) + place_text(line.take(name_end(line, i))))
        } else if names.skip(i + 1).contains(name) || !m.contains_key(name) {
            None
        } else {
            kind_error(kind, value_pad(line, i) + m[name])
        },
    }
}

/// The first complaint about one of the first `n` fields.
pub open spec fn complaint_among(
    line: Seq<char>,
    m: Map<Seq<char>, Seq<char>>,
    known: Seq<(Seq<char>, Kind)>,
    n: nat,
) -> Option<Seq<char>>
    decreases n,
{
    if n == 0 {
        None
    } else {
        match complaint_among(line, m, known, (n - 1) as nat) {
            Some(e) => Some(e),
            None => field_complaint(line, m, known, n - 1),
        }
    }
}

/// The first complaint about an object's fields.
pub open spec fn complaint(
    line: Seq<char>,
    m: Map<Seq<char>, Seq<char>>,
    known: Seq<(Seq<char>, Kind)>,
) -> Option<Seq<char>> {
    complaint_among(line, m, known, field_names(line).len())
}

proof fn lemma_complaint_stays(
    line: Seq<char>,
    m: Map<Seq<char>, Seq<char>>,
    known: Seq<(Seq<char>, Kind)>,
    k: nat,
    n: nat,
)
    requires
        k <= n,
        complaint_among(line, m, known, k) is Some,
    ensures
        complaint_among(line, m, known, n) == complaint_among(line, m, known, k),
    decreases n,
{
    if k < n {
        lemma_complaint_stays(line, m, known, k, (n - 1) as nat);
    }
}

/// Whether `name` is one of the names from `lo` up to `hi`.
fn stands_in(names: &Vec<String>, lo: usize, hi: usize, name: &str) -> (r: bool)
    requires
        lo <= hi <= names@.len(),
    ensures
        r == string_views(names@).subrange(lo as int, hi as int).contains(name@),
{
    let ghost part = string_views(names@).subrange(lo as int, hi as int);
    let mut i: usize = lo;
    while i < hi
        invariant
            lo <= i <= hi <= names@.len(),
            part == string_views(names@).subrange(lo as int, hi as int),
            forall|j: int| 0 <= j < i - lo ==> #[trigger] part[j] != name@,
        decreases hi - i,
    {
        assert(part[i - lo] == names@[i as int]@);
        if same_text(names[i].as_str(), name) {
            return true;
        }
        i = i + 1;
    }
    false
}

/// Names that are distinct give every member its own text.
pub proof fn lemma_distinct(members: Seq<(Seq<char>, Seq<char>)>, i: int)
    requires
        distinct_names(members),
        0 <= i < members.len(),
    ensures
        by_name(members).contains_key(members[i].0),
        by_name(members)[members[i].0] == members[i].1,
    decreases members.len(),
{
    let init = members.drop_last();
    let last = members.len() - 1;
    if i < last {
        assert(distinct_names(init)) by {
            assert forall|x: int, y: int| 0 <= x < y < init.len() implies (#[trigger] init[x]).0 != (
            #[trigger] init[y]).0 by {
                assert(init[x] == members[x] && init[y] == members[y]);
            }
        }
        lemma_distinct(init, i);
        assert(init[i] == members[i]);
        assert(members[i].0 != members[last].0);
    }
}

/// The first complaint about the fields of an object whose members are `pairs`. There
/// is none about an object written without blanks, of plain values under distinct
/// names, each of its kind.
pub fn first_complaint(
    line: &str,
    pairs: &Vec<(String, String)>,
    known: &[(&str, Kind)],
) -> (r: Option<String>)
    ensures
        opt_text(r) == complaint(line@, by_name(pair_views(pairs@)), known_views(known@)),
        forall|members: Seq<(Seq<char>, Seq<char>)>|
            is_plain_object(members) && distinct_names(members) && well_typed(
                members,
                known_views(known@),
            ) && by_name(pair_views(pairs@)) == by_name(members) ==> line@ == #[trigger] object_text(
                members,
            ) ==> r is None,
{
    let (names, at) = read_names(line);
    let v = chars_of(line);
    let ghost all = field_names(line@);
    let ghost m = by_name(pair_views(pairs@));
    let ghost fields = known_views(known@);
    let mut i: usize = 0;
    while i < names.len()
        invariant
            i <= names@.len(),
            v@ == line@,
            all == field_names(line@),
            string_views(names@) == all,
            places(at@) == colons(line@),
            m == by_name(pair_views(pairs@)),
            fields == known_views(known@),
            complaint_among(line@, m, fields, i as nat) is None,
            forall|members: Seq<(Seq<char>, Seq<char>)>|
                is_plain_object(members) ==> line@ == #[trigger] object_text(members) ==> {
                    &&& names@.len() == members.len()
                    &&& forall|j: int|
                        0 <= j < members.len() ==> (#[trigger] names@[j])@ == members[j].0
                },
        decreases names@.len() - i,
    {
        let name = names[i].as_str();
        assert(all[i as int] == name@);
        let found = match find_kind(known, name) {
            None => None,
            Some(kind) => complaint_about(line, &v, pairs, &names, &at, i, kind),
        };
        assert(opt_text(found) == field_complaint(line@, m, fields, i as int));
        if let Some(e) = found {
            proof {
                lemma_complaint_stays(line@, m, fields, (i + 1) as nat, all.len());
                assert forall|members: Seq<(Seq<char>, Seq<char>)>|
                    is_plain_object(members) && distinct_names(members) && m == by_name(members)
                        && line@ == #[trigger] object_text(members) implies !well_typed(
                    members,
                    fields,
                ) by {
                    assert(members[i as int].0 == name@);
                    if all.take(i as int).contains(name@) {
                        let j = choose|j: int| 0 <= j < i && all.take(i as int)[j] == name@;
                        assert(names@[j]@ == members[j].0);
                    }
                    lemma_distinct(members, i as int);
                    lemma_value_pad(line@, i as int);
                    assert(is_padded(
                        value_pad(line@, i as int) + m[name@],
                        value_pad(line@, i as int),
                        members[i as int].1,
                    ));
                }
            }
            return Some(e);
        }
        i = i + 1;
    }
    None
}

proof fn lemma_value_pad(line: Seq<char>, i: int)
    ensures
        forall|j: int|
            0 <= j < value_pad(line, i).len() ==> is_json_blank(#[trigger] value_pad(line, i)[j]),
{
    if i < colons(line).len() {
        lemma_blanked(line.take(past_blanks(line, colons(line)[i] + 1)));
    }
}

/// The complaint about field `i`, which has to be of a kind.
fn complaint_about(
    line: &str,
    v: &Vec<char>,
    pairs: &Vec<(String, String)>,
    names: &Vec<String>,
    at: &Vec<usize>,
    i: usize,
    kind: Kind,
) -> (r: Option<String>)
    requires
        v@ == line@,
        string_views(names@) == field_names(line@),
        places(at@) == colons(line@),
        i < names@.len(),
    ensures
        ({
            let m = by_name(pair_views(pairs@));
            let all = field_names(line@);
            let name = all[i as int];
            &&& opt_text(r) == if all.take(i as int).contains(name) {
                Some(duplicate_field(name) + place_text(line@.take(name_end(line@, i as int))))
            } else if all.skip(i + 1).contains(name) || !m.contains_key(name) {
                None
            } else {
                kind_error(kind, value_pad(line@, i as int) + m[name])
            }
            &&& forall|x: Seq<char>|
                !all.take(i as int).contains(name) && m.contains_key(name) && #[trigger] is_padded(
                    value_pad(line@, i as int) + m[name],
                    value_pad(line@, i as int),
                    x,
                ) && is_of_kind(kind, x) ==> r is None
        }),
{
    let ghost all = field_names(line@);
    let ghost m = by_name(pair_views(pairs@));
    let name = names[i].as_str();
    assert(all[i as int] == name@);
    let count = names.len();
    let length = v.len();
    assert(at@.len() == places(at@).len());
    proof {
        lemma_colons_are_inside(line@);
        assert(all.subrange(0, i as int) =~= all.take(i as int));
        assert(all.subrange(i + 1, all.len() as int) =~= all.skip(i + 1));
    }
    if stands_in(names, 0, i, name) {
        let end: usize = if i < at.len() {
            assert(places(at@)[i as int] == at@[i as int]);
            at[i]
        } else {
            length
        };
        let mut e = "duplicate field `".to_owned();
        e.append(name);
        e.append("`");
        e.append(fmt_place(v, end).as_str());
        return Some(e);
    }
    if stands_in(names, i + 1, count, name) {
        return None;
    }
    let raw = match lookup(pairs, name) {
        Some(raw) => raw,
        None => {
            return None;
        },
    };
    let mut text = String::new();
    if i < at.len() {
        assert(places(at@)[i as int] == at@[i as int]);
        let mut from: usize = at[i] + 1;
        let ghost first = from as int;
        proof {
            lemma_past_blanks(line@, first);
        }
        while from < length && is_blank(v[from])
            invariant
                0 <= first <= from <= v@.len(),
                length == v@.len(),
                past_blanks(v@, from as int) == past_blanks(v@, first),
            decreases v@.len() - from,
        {
            from = from + 1;
        }
        text = blanks_for(v, from);
    }
    assert(text@ =~= value_pad(line@, i as int));
    text.append(raw);
    value_error(kind, text.as_str())
}

/// What is said of an object without a field that it has to have.
pub open spec fn missing_field(line: Seq<char>, name: Seq<char>) -> Seq<char> {
    "missing field `"@ + name + "`"@ + place_text(line.take(end_of(line)))
}

/// What is said of an object without a field that it has to have.
pub fn fmt_missing_field(line: &str, name: &str) -> (r: String)
    ensures
        r@ == missing_field(line@, name@),
{
    let v = chars_of(line);
    let mut n: usize = v.len();
    assert(v@.take(n as int) =~= v@);
    while n > 0 && is_blank(v[n - 1])
        invariant
            n <= v@.len(),
            end_of(v@.take(n as int)) == end_of(v@),
        decreases n,
    {
        assert(v@.take(n as int).drop_last() =~= v@.take(n - 1));
        n = n - 1;
    }
    let mut e = "missing field `".to_owned();
    e.append(name);
    e.append("`");
    e.append(fmt_place(&v, n).as_str());
    e
}

} // verus!
