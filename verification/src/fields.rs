//! The names in a JSON object and where they stand, in the order in which they do.

use crate::emit::string_views;
use crate::json::{
    escaped, escaped_char, is_plain_object, is_plain_value, json_quoted, json_string, json_text,
    members_text, object_text, quoted_items, quoted_list,
};
use crate::text::{chars_of, dec_int, hex, lemma_dec_digits};
use vstd::prelude::*;

verus! {

/// Where a reader stands in an object's text.
#[verifier::ext_equal]
pub struct Place {
    /// How many brackets are open.
    pub depth: int,
    /// At the outermost level: a name comes next, not a value.
    pub naming: bool,
    /// Inside a string, with its text so far, the opening quote included.
    pub string: Option<Seq<char>>,
    /// After a backslash inside a string.
    pub escape: bool,
    /// The names so far, as they are written.
    pub names: Seq<Seq<char>>,
}

/// Before an object's text.
pub open spec fn start() -> Place {
    Place { depth: 0, naming: true, string: None, escape: false, names: Seq::empty() }
}

/// Past one more character.
pub open spec fn past(p: Place, c: char) -> Place {
    match p.string {
        Some(s) => if p.escape {
            Place { string: Some(s.push(c)), escape: false, ..p }
        } else if c == '\\' {
            Place { string: Some(s.push(c)), escape: true, ..p }
        } else if c == '"' {
            Place {
                string: None,
                names: if p.depth == 1 && p.naming {
                    p.names.push(s.push(c))
                } else {
                    p.names
                },
                ..p
            }
        } else {
            Place { string: Some(s.push(c)), ..p }
        },
        None => if c == '"' {
            Place { string: Some(seq!['"']), ..p }
        } else if c == '{' || c == '[' {
            Place { depth: p.depth + 1, ..p }
        } else if c == '}' || c == ']' {
            Place { depth: p.depth - 1, ..p }
        } else if c == ':' && p.depth == 1 {
            Place { naming: false, ..p }
        } else if c == ',' && p.depth == 1 {
            Place { naming: true, ..p }
        } else {
            p
        },
    }
}

/// Past a text.
pub open spec fn past_all(p: Place, s: Seq<char>) -> Place
    decreases s.len(),
{
    if s.len() == 0 {
        p
    } else {
        past(past_all(p, s.drop_last()), s.last())
    }
}

/// All strings and brackets of a text are closed.
pub open spec fn closed_text(s: Seq<char>) -> bool {
    let p = past_all(start(), s);
    p.depth == 0 && p.string is None
}

/// The names of an object, as they are written.
pub open spec fn written_names(line: Seq<char>) -> Seq<Seq<char>> {
    past_all(start(), line).names
}

/// What a name is read as.
pub open spec fn read_name(raw: Seq<char>) -> Seq<char> {
    match json_text(raw) {
        Ok(s) => s,
        Err(_) => raw,
    }
}

/// The names of an object.
pub open spec fn field_names(line: Seq<char>) -> Seq<Seq<char>> {
    written_names(line).map_values(|raw: Seq<char>| read_name(raw))
}

/// The places of the colons behind an object's names.
pub open spec fn colons(s: Seq<char>) -> Seq<int>
    decreases s.len(),
{
    if s.len() == 0 {
        Seq::empty()
    } else {
        let p = past_all(start(), s.drop_last());
        if s.last() == ':' && p.string is None && p.depth == 1 && p.naming {
            colons(s.drop_last()).push(s.len() - 1)
        } else {
            colons(s.drop_last())
        }
    }
}

/// Places as numbers.
pub open spec fn places(v: Seq<usize>) -> Seq<int> {
    v.map_values(|i: usize| i as int)
}

/// No two members have the same name.
pub open spec fn distinct_names(members: Seq<(Seq<char>, Seq<char>)>) -> bool {
    forall|i: int, j: int|
        0 <= i < j < members.len() ==> (#[trigger] members[i]).0 != (#[trigger] members[j]).0
}

/// The names of an object, as they are written, and the places of their colons.
fn scan_names(line: &str) -> (r: (Vec<String>, Vec<usize>))
    ensures
        string_views(r.0@) == written_names(line@),
        places(r.1@) == colons(line@),
{
    let v = chars_of(line);
    let mut names: Vec<String> = Vec::new();
    let mut at: Vec<usize> = Vec::new();
    let mut depth: i128 = 0;
    let mut naming = true;
    let mut inside = false;
    let mut current = String::new();
    let mut escape = false;
    let mut i: usize = 0;
    assert(string_views(names@) =~= Seq::empty());
    assert(places(at@) =~= Seq::empty());
    while i < v.len()
        invariant
            i <= v@.len(),
            v@ == line@,
            -(i as int) <= depth <= i,
            places(at@) == colons(v@.take(i as int)),
            past_all(start(), v@.take(i as int)) == (Place {
                depth: depth as int,
                naming,
                string: if inside {
                    Some(current@)
                } else {
                    None
                },
                escape,
                names: string_views(names@),
            }),
        decreases v@.len() - i,
    {
        let c = v[i];
        let ghost before = names@;
        proof {
            assert(v@.take(i + 1).drop_last() =~= v@.take(i as int));
            assert(v@.take(i + 1).last() == c);
        }
        if inside {
            current.push(c);
            if escape {
                escape = false;
            } else if c == '\\' {
                escape = true;
            } else if c == '"' {
                inside = false;
                if depth == 1 && naming {
                    names.push(current);
                    assert(string_views(names@) =~= string_views(before).push(current@));
                }
                current = String::new();
            }
        } else if c == '"' {
            current = String::new();
            current.push('"');
            assert(current@ =~= seq!['"']);
            inside = true;
        } else if c == '{' || c == '[' {
            depth = depth + 1;
        } else if c == '}' || c == ']' {
            depth = depth - 1;
        } else if c == ':' && depth == 1 {
            if naming {
                let ghost earlier = at@;
                at.push(i);
                assert(places(at@) =~= places(earlier).push(i as int));
            }
            naming = false;
        } else if c == ',' && depth == 1 {
            naming = true;
        }
        i = i + 1;
    }
    assert(v@.take(i as int) =~= v@);
    (names, at)
}

/// The names of an object and the places of their colons. Those of an object written
/// without blanks, of plain values, are its members'.
pub fn read_names(line: &str) -> (r: (Vec<String>, Vec<usize>))
    ensures
        string_views(r.0@) == field_names(line@),
        places(r.1@) == colons(line@),
        forall|members: Seq<(Seq<char>, Seq<char>)>|
            is_plain_object(members) ==> line@ == #[trigger] object_text(members) ==> {
                &&& r.0@.len() == members.len()
                &&& forall|j: int| 0 <= j < members.len() ==> (#[trigger] r.0@[j])@ == members[j].0
            },
{
    let (raw, at) = scan_names(line);
    let ghost all = field_names(line@);
    proof {
        assert forall|members: Seq<(Seq<char>, Seq<char>)>|
            is_plain_object(members) && line@ == #[trigger] object_text(members) implies {
            &&& raw@.len() == members.len()
            &&& forall|j: int|
                0 <= j < members.len() ==> #[trigger] raw@[j]@ == json_quoted(members[j].0)
        } by {
            lemma_object_names(members);
            assert forall|j: int| 0 <= j < members.len() implies #[trigger] raw@[j]@ == json_quoted(
                members[j].0,
            ) by {
                assert(string_views(raw@)[j] == written_names(line@)[j]);
            }
        }
    }
    let mut names: Vec<String> = Vec::new();
    let mut i: usize = 0;
    assert(string_views(names@) =~= all.take(0));
    while i < raw.len()
        invariant
            i <= raw@.len(),
            string_views(raw@) == written_names(line@),
            all == field_names(line@),
            names@.len() == i,
            string_views(names@) == all.take(i as int),
            forall|members: Seq<(Seq<char>, Seq<char>)>|
                is_plain_object(members) && line@ == #[trigger] object_text(members) ==> {
                    &&& raw@.len() == members.len()
                    &&& forall|j: int|
                        0 <= j < members.len() ==> #[trigger] raw@[j]@ == json_quoted(members[j].0)
                },
            forall|members: Seq<(Seq<char>, Seq<char>)>, j: int|
                #![trigger object_text(members), names@[j]]
                is_plain_object(members) && line@ == object_text(members) && 0 <= j < i
                    ==> names@[j]@ == members[j].0,
        decreases raw@.len() - i,
    {
        let written = raw[i].as_str();
        let name = match json_string(written) {
            Ok(s) => s,
            Err(_) => written.to_owned(),
        };
        let ghost before = names@;
        proof {
            assert(all[i as int] == read_name(string_views(raw@)[i as int]));
            assert(name@ == all[i as int]);
            assert forall|members: Seq<(Seq<char>, Seq<char>)>|
                is_plain_object(members) && line@ == #[trigger] object_text(members) implies name@
                == members[i as int].0 by {
                assert(raw@[i as int]@ == json_quoted(members[i as int].0));
            }
        }
        names.push(name);
        assert(string_views(names@) =~= string_views(before).push(name@));
        assert(all.take(i + 1) =~= all.take(i as int).push(all[i as int]));
        i = i + 1;
    }
    assert(all.take(i as int) =~= all);
    (names, at)
}

// ---- the names of a written object ----------------------------------------

proof fn lemma_past_append(p: Place, a: Seq<char>, b: Seq<char>)
    ensures
        past_all(p, a + b) == past_all(past_all(p, a), b),
    decreases b.len(),
{
    if b.len() == 0 {
        assert(a + b =~= a);
    } else {
        lemma_past_append(p, a, b.drop_last());
        assert((a + b).drop_last() =~= a + b.drop_last());
    }
}

proof fn lemma_past_one(p: Place, c: char)
    ensures
        past_all(p, seq![c]) == past(p, c),
{
    reveal_with_fuel(past_all, 2);
    assert(seq![c].drop_last() =~= Seq::empty());
}

/// Inside a string, up to no quote and no backslash.
proof fn lemma_past_inside(p: Place, s: Seq<char>)
    requires
        p.string is Some,
        !p.escape,
        forall|i: int| 0 <= i < s.len() ==> #[trigger] s[i] != '"' && s[i] != '\\',
    ensures
        past_all(p, s) == (Place { string: Some(p.string->0 + s), ..p }),
    decreases s.len(),
{
    if s.len() == 0 {
        assert(p.string->0 + s =~= p.string->0);
    } else {
        lemma_past_inside(p, s.drop_last());
        assert((p.string->0 + s.drop_last()).push(s.last()) =~= p.string->0 + s);
    }
}

/// Outside strings, past characters without meaning.
proof fn lemma_past_idle(p: Place, s: Seq<char>)
    requires
        p.string is None,
        forall|i: int|
            0 <= i < s.len() ==> {
                let c = #[trigger] s[i];
                c == '-' || '0' <= c <= '9' || 'a' <= c <= 'z'
            },
    ensures
        past_all(p, s) == p,
    decreases s.len(),
{
    if s.len() > 0 {
        lemma_past_idle(p, s.drop_last());
        assert(s.last() == s[s.len() - 1]);
    }
}

proof fn lemma_past_escaped_char(p: Place, c: char)
    requires
        p.string is Some,
        !p.escape,
    ensures
        past_all(p, escaped_char(c)) == (Place {
            string: Some(p.string->0 + escaped_char(c)),
            ..p
        }),
{
    let e = escaped_char(c);
    let t = p.string->0;
    if e == seq![c] {
        assert(c != '"' && c != '\\') by {
            if c == '"' || c == '\\' {
                assert(e.len() == 2);
            }
        }
        lemma_past_inside(p, e);
    } else {
        let x = e[1];
        let rest = e.skip(2);
        assert(e =~= seq!['\\'] + seq![x] + rest);
        lemma_past_append(p, seq!['\\'] + seq![x], rest);
        lemma_past_append(p, seq!['\\'], seq![x]);
        lemma_past_one(p, '\\');
        let q = past(p, '\\');
        lemma_past_one(q, x);
        let w = past(q, x);
        assert(w.string->0 =~= t + seq!['\\', x]);
        assert forall|i: int| 0 <= i < rest.len() implies #[trigger] rest[i] != '"' && rest[i]
            != '\\' by {
            reveal_with_fuel(hex, 3);
        }
        lemma_past_inside(w, rest);
        assert(w.string->0 + rest =~= t + e);
    }
}

proof fn lemma_past_escaped(p: Place, s: Seq<char>)
    requires
        p.string is Some,
        !p.escape,
    ensures
        past_all(p, escaped(s)) == (Place { string: Some(p.string->0 + escaped(s)), ..p }),
    decreases s.len(),
{
    let t = p.string->0;
    if s.len() == 0 {
        assert(t + escaped(s) =~= t);
    } else {
        lemma_past_escaped(p, s.drop_last());
        let q = past_all(p, escaped(s.drop_last()));
        lemma_past_append(p, escaped(s.drop_last()), escaped_char(s.last()));
        lemma_past_escaped_char(q, s.last());
        assert(q.string->0 + escaped_char(s.last()) =~= t + escaped(s));
    }
}

proof fn lemma_past_quoted(p: Place, s: Seq<char>)
    requires
        p.string is None,
        !p.escape,
    ensures
        past_all(p, json_quoted(s)) == (Place {
            names: if p.depth == 1 && p.naming {
                p.names.push(json_quoted(s))
            } else {
                p.names
            },
            ..p
        }),
{
    let a = seq!['"'];
    lemma_past_append(p, a + escaped(s), a);
    lemma_past_append(p, a, escaped(s));
    lemma_past_one(p, '"');
    let q = past(p, '"');
    lemma_past_escaped(q, s);
    let w = past_all(q, escaped(s));
    lemma_past_one(w, '"');
    assert((a + escaped(s)).push('"') =~= json_quoted(s));
}

proof fn lemma_past_items(p: Place, items: Seq<Seq<char>>)
    requires
        p.string is None,
        !p.escape,
        p.depth == 2,
    ensures
        past_all(p, quoted_items(items)) == p,
    decreases items.len(),
{
    if items.len() > 0 {
        lemma_past_quoted(p, items.last());
        if items.len() > 1 {
            reveal_strlit(",");
            let init = quoted_items(items.drop_last());
            lemma_past_items(p, items.drop_last());
            lemma_past_append(p, init + ","@, json_quoted(items.last()));
            lemma_past_append(p, init, ","@);
            assert(","@ =~= seq![',']);
            lemma_past_one(p, ',');
        }
    }
}

proof fn lemma_past_value(p: Place, v: Seq<char>)
    requires
        p.string is None,
        !p.escape,
        p.depth == 1,
        !p.naming,
        is_plain_value(v),
    ensures
        past_all(p, v) == p,
{
    if v == "null"@ {
        reveal_strlit("null");
        lemma_past_idle(p, v);
    } else if exists|s: Seq<char>| v == #[trigger] json_quoted(s) {
        let s = choose|s: Seq<char>| v == #[trigger] json_quoted(s);
        lemma_past_quoted(p, s);
    } else if exists|n: int| v == #[trigger] dec_int(n) {
        let n = choose|n: int| v == #[trigger] dec_int(n);
        if n < 0 {
            lemma_dec_digits((-n) as nat);
        } else {
            lemma_dec_digits(n as nat);
        }
        lemma_past_idle(p, v);
    } else {
        let items = choose|items: Seq<Seq<char>>| v == #[trigger] quoted_list(items);
        reveal_strlit("[");
        reveal_strlit("]");
        let inner = quoted_items(items);
        assert("["@ =~= seq!['[']);
        assert("]"@ =~= seq![']']);
        lemma_past_append(p, "["@ + inner, "]"@);
        lemma_past_append(p, "["@, inner);
        lemma_past_one(p, '[');
        let q = past(p, '[');
        lemma_past_items(q, items);
        lemma_past_one(q, ']');
    }
}

/// The names as they are written.
spec fn quoted_names(members: Seq<(Seq<char>, Seq<char>)>) -> Seq<Seq<char>> {
    members.map_values(|m: (Seq<char>, Seq<char>)| json_quoted(m.0))
}

proof fn lemma_past_members(p: Place, members: Seq<(Seq<char>, Seq<char>)>)
    requires
        p.string is None,
        !p.escape,
        p.depth == 1,
        p.naming,
        is_plain_object(members),
    ensures
        past_all(p, members_text(members)) == (Place {
            naming: members.len() == 0,
            names: p.names + quoted_names(members),
            ..p
        }),
    decreases members.len(),
{
    if members.len() == 0 {
        assert(p.names + quoted_names(members) =~= p.names);
    } else {
        let m = members.last();
        let init = members.drop_last();
        reveal_strlit(",");
        reveal_strlit(":");
        assert(","@ =~= seq![',']);
        assert(":"@ =~= seq![':']);
        assert forall|i: int| 0 <= i < init.len() implies is_plain_value(
            (#[trigger] init[i]).1,
        ) by {
            assert(init[i] == members[i]);
        }
        assert(is_plain_value(members[members.len() - 1].1));
        let q = Place { names: p.names + quoted_names(init), ..p };
        let one = json_quoted(m.0) + ":"@ + m.1;
        // Past the members before the last one and the comma.
        if init.len() > 0 {
            let before = members_text(init);
            lemma_past_members(p, init);
            lemma_past_append(p, before + ","@, one);
            lemma_past_append(p, before, ","@);
            lemma_past_one(past_all(p, before), ',');
            assert(past_all(p, before + ","@) == q);
        } else {
            assert(q.names =~= p.names);
            assert(members_text(members) == one);
        }
        // Past the last member.
        lemma_past_append(q, json_quoted(m.0) + ":"@, m.1);
        lemma_past_append(q, json_quoted(m.0), ":"@);
        lemma_past_quoted(q, m.0);
        let named = past_all(q, json_quoted(m.0));
        lemma_past_one(named, ':');
        lemma_past_value(past(named, ':'), m.1);
        assert(q.names.push(json_quoted(m.0)) =~= p.names + quoted_names(members));
    }
}

/// The names of an object that is written without blanks, of plain values, are those
/// of its members.
pub proof fn lemma_object_names(members: Seq<(Seq<char>, Seq<char>)>)
    requires
        is_plain_object(members),
    ensures
        written_names(object_text(members)) == members.map_values(
            |m: (Seq<char>, Seq<char>)| json_quoted(m.0),
        ),
{
    reveal_strlit("{");
    reveal_strlit("}");
    assert("{"@ =~= seq!['{']);
    assert("}"@ =~= seq!['}']);
    let inner = members_text(members);
    let p = start();
    lemma_past_append(p, "{"@ + inner, "}"@);
    lemma_past_append(p, "{"@, inner);
    lemma_past_one(p, '{');
    let q = past(p, '{');
    lemma_past_members(q, members);
    let w = past_all(q, inner);
    lemma_past_one(w, '}');
    assert(q.names + quoted_names(members) =~= quoted_names(members));
}

// ---- a written object is closed only at its end ---------------------------

/// A condition holds all the way through a text.
spec fn through(p: Place, s: Seq<char>, holds: spec_fn(Place) -> bool) -> bool {
    forall|k: int| 0 <= k <= s.len() ==> holds(#[trigger] past_all(p, s.take(k)))
}

proof fn lemma_through_append(
    p: Place,
    a: Seq<char>,
    b: Seq<char>,
    holds: spec_fn(Place) -> bool,
)
    requires
        through(p, a, holds),
        through(past_all(p, a), b, holds),
    ensures
        through(p, a + b, holds),
{
    let s = a + b;
    assert forall|k: int| 0 <= k <= s.len() implies holds(#[trigger] past_all(p, s.take(k))) by {
        if k <= a.len() {
            assert(s.take(k) =~= a.take(k));
        } else {
            let n = k - a.len();
            assert(s.take(k) =~= a + b.take(n));
            lemma_past_append(p, a, b.take(n));
            assert(holds(past_all(past_all(p, a), b.take(n))));
        }
    }
}

proof fn lemma_through_one(p: Place, c: char, holds: spec_fn(Place) -> bool)
    requires
        holds(p),
        holds(past(p, c)),
    ensures
        through(p, seq![c], holds),
{
    let s = seq![c];
    assert forall|k: int| 0 <= k <= s.len() implies holds(#[trigger] past_all(p, s.take(k))) by {
        if k == 0 {
            assert(s.take(0) =~= Seq::empty());
        } else {
            assert(s.take(1) =~= s);
            lemma_past_one(p, c);
        }
    }
}

/// Inside a string, at a depth.
spec fn in_string(depth: int) -> spec_fn(Place) -> bool {
    |x: Place| x.string is Some && x.depth == depth
}

/// Below the outermost level.
spec fn inside() -> spec_fn(Place) -> bool {
    |x: Place| x.depth >= 1
}

proof fn lemma_through_plain(p: Place, s: Seq<char>)
    requires
        p.string is Some,
        !p.escape,
        forall|i: int| 0 <= i < s.len() ==> #[trigger] s[i] != '"' && s[i] != '\\',
    ensures
        through(p, s, in_string(p.depth)),
{
    assert forall|k: int| 0 <= k <= s.len() implies in_string(p.depth)(
        #[trigger] past_all(p, s.take(k)),
    ) by {
        assert forall|i: int| 0 <= i < k implies #[trigger] s.take(k)[i] != '"' && s.take(k)[i]
            != '\\' by {
            assert(s.take(k)[i] == s[i]);
        }
        lemma_past_inside(p, s.take(k));
    }
}

proof fn lemma_through_escaped_char(p: Place, c: char)
    requires
        p.string is Some,
        !p.escape,
    ensures
        through(p, escaped_char(c), in_string(p.depth)),
{
    let e = escaped_char(c);
    let holds = in_string(p.depth);
    if e == seq![c] {
        assert(c != '"' && c != '\\') by {
            if c == '"' || c == '\\' {
                assert(e.len() == 2);
            }
        }
        lemma_through_plain(p, e);
    } else {
        let x = e[1];
        let rest = e.skip(2);
        let q = past(p, '\\');
        let w = past(q, x);
        assert(e =~= seq!['\\'] + seq![x] + rest);
        lemma_past_one(p, '\\');
        lemma_past_one(q, x);
        lemma_past_append(p, seq!['\\'], seq![x]);
        lemma_through_one(p, '\\', holds);
        lemma_through_one(q, x, holds);
        lemma_through_append(p, seq!['\\'], seq![x], holds);
        assert forall|i: int| 0 <= i < rest.len() implies #[trigger] rest[i] != '"' && rest[i]
            != '\\' by {
            reveal_with_fuel(hex, 3);
        }
        lemma_through_plain(w, rest);
        lemma_through_append(p, seq!['\\'] + seq![x], rest, holds);
    }
}

proof fn lemma_through_escaped(p: Place, s: Seq<char>)
    requires
        p.string is Some,
        !p.escape,
    ensures
        through(p, escaped(s), in_string(p.depth)),
    decreases s.len(),
{
    if s.len() == 0 {
        lemma_through_plain(p, escaped(s));
    } else {
        let init = escaped(s.drop_last());
        lemma_through_escaped(p, s.drop_last());
        lemma_past_escaped(p, s.drop_last());
        lemma_through_escaped_char(past_all(p, init), s.last());
        lemma_through_append(p, init, escaped_char(s.last()), in_string(p.depth));
    }
}

proof fn lemma_through_quoted(p: Place, s: Seq<char>)
    requires
        p.string is None,
        !p.escape,
        p.depth >= 1,
    ensures
        through(p, json_quoted(s), inside()),
{
    let a = seq!['"'];
    let q = past(p, '"');
    lemma_past_one(p, '"');
    lemma_through_one(p, '"', inside());
    lemma_through_escaped(q, s);
    assert(through(q, escaped(s), inside())) by {
        assert forall|k: int| 0 <= k <= escaped(s).len() implies inside()(
            #[trigger] past_all(q, escaped(s).take(k)),
        ) by {
            assert(in_string(q.depth)(past_all(q, escaped(s).take(k))));
        }
    }
    lemma_through_append(p, a, escaped(s), inside());
    lemma_past_append(p, a, escaped(s));
    lemma_past_escaped(q, s);
    let w = past_all(q, escaped(s));
    lemma_through_one(w, '"', inside());
    lemma_through_append(p, a + escaped(s), a, inside());
}

proof fn lemma_through_idle(p: Place, s: Seq<char>)
    requires
        p.string is None,
        p.depth >= 1,
        forall|i: int|
            0 <= i < s.len() ==> {
                let c = #[trigger] s[i];
                c == '-' || '0' <= c <= '9' || 'a' <= c <= 'z'
            },
    ensures
        through(p, s, inside()),
{
    assert forall|k: int| 0 <= k <= s.len() implies inside()(
        #[trigger] past_all(p, s.take(k)),
    ) by {
        assert forall|i: int| 0 <= i < k implies {
            let c = #[trigger] s.take(k)[i];
            c == '-' || '0' <= c <= '9' || 'a' <= c <= 'z'
        } by {
            assert(s.take(k)[i] == s[i]);
        }
        lemma_past_idle(p, s.take(k));
    }
}

proof fn lemma_through_items(p: Place, items: Seq<Seq<char>>)
    requires
        p.string is None,
        !p.escape,
        p.depth == 2,
    ensures
        through(p, quoted_items(items), inside()),
    decreases items.len(),
{
    if items.len() == 0 {
        lemma_through_idle(p, quoted_items(items));
    } else {
        lemma_through_quoted(p, items.last());
        if items.len() > 1 {
            reveal_strlit(",");
            assert(","@ =~= seq![',']);
            let init = quoted_items(items.drop_last());
            lemma_through_items(p, items.drop_last());
            lemma_past_items(p, items.drop_last());
            lemma_past_one(p, ',');
            lemma_past_append(p, init, ","@);
            lemma_through_one(p, ',', inside());
            lemma_through_append(p, init, ","@, inside());
            lemma_through_append(p, init + ","@, json_quoted(items.last()), inside());
        }
    }
}

proof fn lemma_through_value(p: Place, v: Seq<char>)
    requires
        p.string is None,
        !p.escape,
        p.depth == 1,
        !p.naming,
        is_plain_value(v),
    ensures
        through(p, v, inside()),
{
    if v == "null"@ {
        reveal_strlit("null");
        lemma_through_idle(p, v);
    } else if exists|s: Seq<char>| v == #[trigger] json_quoted(s) {
        let s = choose|s: Seq<char>| v == #[trigger] json_quoted(s);
        lemma_through_quoted(p, s);
    } else if exists|n: int| v == #[trigger] dec_int(n) {
        let n = choose|n: int| v == #[trigger] dec_int(n);
        if n < 0 {
            lemma_dec_digits((-n) as nat);
        } else {
            lemma_dec_digits(n as nat);
        }
        lemma_through_idle(p, v);
    } else {
        let items = choose|items: Seq<Seq<char>>| v == #[trigger] quoted_list(items);
        reveal_strlit("[");
        reveal_strlit("]");
        assert("["@ =~= seq!['[']);
        assert("]"@ =~= seq![']']);
        let inner = quoted_items(items);
        let q = past(p, '[');
        lemma_past_one(p, '[');
        lemma_through_one(p, '[', inside());
        lemma_through_items(q, items);
        lemma_through_append(p, "["@, inner, inside());
        lemma_past_append(p, "["@, inner);
        lemma_past_items(q, items);
        lemma_through_one(q, ']', inside());
        lemma_through_append(p, "["@ + inner, "]"@, inside());
    }
}

proof fn lemma_through_members(p: Place, members: Seq<(Seq<char>, Seq<char>)>)
    requires
        p.string is None,
        !p.escape,
        p.depth == 1,
        p.naming,
        is_plain_object(members),
    ensures
        through(p, members_text(members), inside()),
    decreases members.len(),
{
    if members.len() == 0 {
        lemma_through_idle(p, members_text(members));
    } else {
        let m = members.last();
        let init = members.drop_last();
        reveal_strlit(",");
        reveal_strlit(":");
        assert(","@ =~= seq![',']);
        assert(":"@ =~= seq![':']);
        assert forall|i: int| 0 <= i < init.len() implies is_plain_value(
            (#[trigger] init[i]).1,
        ) by {
            assert(init[i] == members[i]);
        }
        assert(is_plain_value(members[members.len() - 1].1));
        let q = Place { names: p.names + quoted_names(init), ..p };
        let one = json_quoted(m.0) + ":"@ + m.1;
        // The last member.
        lemma_through_quoted(q, m.0);
        lemma_past_quoted(q, m.0);
        let named = past_all(q, json_quoted(m.0));
        lemma_past_one(named, ':');
        lemma_through_one(named, ':', inside());
        lemma_through_append(q, json_quoted(m.0), ":"@, inside());
        lemma_past_append(q, json_quoted(m.0), ":"@);
        lemma_through_value(past(named, ':'), m.1);
        lemma_through_append(q, json_quoted(m.0) + ":"@, m.1, inside());
        // The members before it and the comma.
        if init.len() > 0 {
            let before = members_text(init);
            lemma_through_members(p, init);
            lemma_past_members(p, init);
            let w = past_all(p, before);
            lemma_past_one(w, ',');
            lemma_through_one(w, ',', inside());
            lemma_through_append(p, before, ","@, inside());
            lemma_past_append(p, before, ","@);
            assert(past_all(p, before + ","@) == q);
            lemma_through_append(p, before + ","@, one, inside());
        } else {
            assert(q.names =~= p.names);
            assert(members_text(members) == one);
        }
    }
}

/// An object written without blanks, of plain values, is not closed before its end: no
/// part of it that is cut off at the end is.
pub proof fn lemma_cut_object_is_open(members: Seq<(Seq<char>, Seq<char>)>, k: int)
    requires
        is_plain_object(members),
        0 < k < object_text(members).len(),
    ensures
        !closed_text(object_text(members).take(k)),
{
    reveal_strlit("{");
    reveal_strlit("}");
    assert("{"@ =~= seq!['{']);
    assert("}"@ =~= seq!['}']);
    let inner = members_text(members);
    let q = past(start(), '{');
    lemma_past_one(start(), '{');
    lemma_through_members(q, members);
    let n = k - 1;
    assert(object_text(members).take(k) =~= "{"@ + inner.take(n));
    lemma_past_append(start(), "{"@, inner.take(n));
    assert(inside()(past_all(q, inner.take(n))));
}

} // verus!
