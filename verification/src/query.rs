//! Read-side queries: knobs from a query string, the SQL of the leaderboard and of
//! the split explorer, and the health report.
//!
//! Every value of a user is a bound parameter; the SQL is made of fixed fragments,
//! and only which filters are there depends on the knobs. The window is anchored at
//! the latest day in scope: a day counts where it lies above the anchor less the
//! window. The weights of reads and writes are floating point; the knobs carry their
//! texts, and the parameters say where they are bound.

use crate::clock::{date_time_text, rfc3339_utc};
use crate::json::{json_quote, json_quoted};
use crate::pairs::{by_name, lookup, pair_views};
use crate::split::{first_at, lemma_first_at, split, split_all, split_once, texts};
use crate::text::{chars_of, dec_int, fmt_dec_int, opt_text, starts_with, text_of};
use vstd::prelude::*;
use vstd::string::*;
use vstd::utf8::*;

verus! {

// ---- query strings --------------------------------------------------------

/// The value of a hexadecimal digit.
pub open spec fn hex_value(c: u8) -> Option<int> {
    if 48 <= c <= 57 {
        Some(c - 48)
    } else if 97 <= c <= 102 {
        Some(c - 97 + 10)
    } else if 65 <= c <= 70 {
        Some(c - 65 + 10)
    } else {
        None
    }
}

/// The value of a hexadecimal digit; nothing for any other byte.
pub fn hex_val(c: u8) -> (r: Option<u8>)
    ensures
        match r {
            Some(v) => hex_value(c) == Some(v as int) && v < 16,
            None => hex_value(c) is None,
        },
{
    if 48 <= c && c <= 57 {
        Some(c - 48)
    } else if 97 <= c && c <= 102 {
        Some(c - 97 + 10)
    } else if 65 <= c && c <= 70 {
        Some(c - 65 + 10)
    } else {
        None
    }
}

/// An escape of two hexadecimal digits stands at the front of `b`.
pub open spec fn is_escape(b: Seq<u8>) -> bool {
    b.len() > 2 && b[0] == 37 && hex_value(b[1]) is Some && hex_value(b[2]) is Some
}

/// The bytes that a form-encoded text stands for: `+` for a blank, `%XX` for a byte,
/// anything else for itself.
pub open spec fn decoded_bytes(b: Seq<u8>) -> Seq<u8>
    decreases b.len(),
{
    if b.len() == 0 {
        Seq::empty()
    } else if b[0] == 43 {
        seq![32u8] + decoded_bytes(b.skip(1))
    } else if is_escape(b) {
        seq![(hex_value(b[1])->0 * 16 + hex_value(b[2])->0) as u8] + decoded_bytes(b.skip(3))
    } else {
        seq![b[0]] + decoded_bytes(b.skip(1))
    }
}

/// What `String::from_utf8_lossy` makes of bytes.
pub uninterp spec fn utf8_lossy(bytes: Seq<u8>) -> Seq<char>;

/// Calls `String::from_utf8_lossy`. The result is a function of the bytes, named
/// `utf8_lossy`; bytes that are valid UTF-8 give the text that they encode.
#[verifier::external_body]
fn lossy_text(bytes: &Vec<u8>) -> (r: String)
    ensures
        r@ == utf8_lossy(bytes@),
        valid_utf8(bytes@) ==> encode_utf8(r@) == bytes@,
{
    String::from_utf8_lossy(bytes).into_owned()
}

/// The text that a form-encoded text stands for.
pub open spec fn decoded(s: Seq<char>) -> Seq<char> {
    utf8_lossy(decoded_bytes(encode_utf8(s)))
}

/// The bytes that a form-encoded text stands for. A malformed `%` is passed through.
pub fn percent_bytes(s: &str) -> (r: Vec<u8>)
    ensures
        r@ == decoded_bytes(encode_utf8(s@)),
{
    let b = s.as_bytes();
    let mut out: Vec<u8> = Vec::new();
    let mut i: usize = 0;
    assert(b@.skip(0) =~= b@);
    assert(out@ + decoded_bytes(b@.skip(0)) =~= decoded_bytes(b@));
    while i < b.len()
        invariant
            i <= b@.len(),
            b@ == encode_utf8(s@),
            out@ + decoded_bytes(b@.skip(i as int)) == decoded_bytes(b@),
        decreases b@.len() - i,
    {
        let ghost rest = b@.skip(i as int);
        let ghost before = out@;
        let c = b[i];
        if c == 43 {
            out.push(32);
            assert(rest.skip(1) =~= b@.skip(i + 1));
            assert(out@ + decoded_bytes(rest.skip(1)) =~= before + decoded_bytes(rest));
            i = i + 1;
        } else if c == 37 && b.len() - i > 2 {
            match (hex_val(b[i + 1]), hex_val(b[i + 2])) {
                (Some(h), Some(l)) => {
                    assert(is_escape(rest));
                    out.push(h * 16 + l);
                    assert(rest.skip(3) =~= b@.skip(i + 3));
                    assert(out@ + decoded_bytes(rest.skip(3)) =~= before + decoded_bytes(rest));
                    i = i + 3;
                },
                _ => {
                    assert(!is_escape(rest));
                    out.push(37);
                    assert(rest.skip(1) =~= b@.skip(i + 1));
                    assert(out@ + decoded_bytes(rest.skip(1)) =~= before + decoded_bytes(rest));
                    i = i + 1;
                },
            }
        } else {
            out.push(c);
            assert(rest.skip(1) =~= b@.skip(i + 1));
            assert(out@ + decoded_bytes(rest.skip(1)) =~= before + decoded_bytes(rest));
            i = i + 1;
        }
    }
    assert(b@.skip(b@.len() as int) =~= Seq::empty());
    assert(out@ =~= out@ + decoded_bytes(b@.skip(b@.len() as int)));
    out
}

/// Decode a form-encoded text.
pub fn percent_decode(s: &str) -> (r: String)
    ensures
        r@ == decoded(s@),
        valid_utf8(decoded_bytes(encode_utf8(s@))) ==> encode_utf8(r@) == decoded_bytes(
            encode_utf8(s@),
        ),
{
    let bytes = percent_bytes(s);
    lossy_text(&bytes)
}

/// The name and the value of one part of a query string, still encoded: a part
/// without `=` is a name with an empty value.
pub open spec fn raw_pair(part: Seq<char>) -> (Seq<char>, Seq<char>) {
    let i = first_at(part, '=');
    if i < part.len() {
        (part.take(i), part.skip(i + 1))
    } else {
        (part, Seq::empty())
    }
}

/// The names and values of parts, decoded; empty parts are skipped.
pub open spec fn part_pairs(parts: Seq<Seq<char>>) -> Seq<(Seq<char>, Seq<char>)>
    decreases parts.len(),
{
    if parts.len() == 0 {
        Seq::empty()
    } else if parts.last().len() == 0 {
        part_pairs(parts.drop_last())
    } else {
        let (k, v) = raw_pair(parts.last());
        part_pairs(parts.drop_last()).push((decoded(k), decoded(v)))
    }
}

/// The values of a query string by name.
pub open spec fn query_values(q: Seq<char>) -> Map<Seq<char>, Seq<char>> {
    by_name(part_pairs(split(q, '&')))
}

/// Parse a query string into decoded names and values.
pub fn parse_query_string(q: &str) -> (r: Vec<(String, String)>)
    ensures
        pair_views(r@) == part_pairs(split(q@, '&')),
{
    let parts = split_all(q, '&');
    let ghost all = texts(parts@);
    let mut out: Vec<(String, String)> = Vec::new();
    let mut i: usize = 0;
    assert(pair_views(out@) =~= part_pairs(all.take(0)));
    while i < parts.len()
        invariant
            i <= parts@.len(),
            all == texts(parts@),
            pair_views(out@) == part_pairs(all.take(i as int)),
        decreases parts@.len() - i,
    {
        let part = parts[i];
        let ghost before = out@;
        assert(all.take(i + 1).drop_last() =~= all.take(i as int));
        assert(all.take(i + 1).last() == part@);
        proof {
            lemma_first_at(part@, '=');
        }
        if part.unicode_len() > 0 {
            let (k, v) = match split_once(part, '=') {
                Some((k, v)) => (percent_decode(k), percent_decode(v)),
                None => {
                    proof {
                        reveal_strlit("");
                        assert(""@ =~= Seq::empty());
                    }
                    (percent_decode(part), percent_decode(""))
                },
            };
            out.push((k, v));
            assert(pair_views(out@) =~= pair_views(before).push((k@, v@)));
        }
        i = i + 1;
    }
    assert(all.take(all.len() as int) =~= all);
    out
}

// ---- values ---------------------------------------------------------------

/// A decimal digit.
pub open spec fn is_digit(c: char) -> bool {
    '0' <= c <= '9'
}

/// The number that digits spell; nothing for anything else.
pub open spec fn digits_value(s: Seq<char>) -> Option<int>
    decreases s.len(),
{
    if s.len() == 0 || !is_digit(s.last()) {
        None
    } else if s.len() == 1 {
        Some(s[0] as int - 48)
    } else {
        match digits_value(s.drop_last()) {
            Some(n) => Some(n * 10 + (s.last() as int - 48)),
            None => None,
        }
    }
}

/// The 64-bit integer that a text spells: digits, with a sign or without one.
pub open spec fn integer_value(s: Seq<char>) -> Option<int> {
    let n = if s.len() > 0 && (s[0] == '-' || s[0] == '+') {
        match digits_value(s.skip(1)) {
            Some(n) => if s[0] == '-' {
                Some(-n)
            } else {
                Some(n)
            },
            None => None,
        }
    } else {
        digits_value(s)
    };
    match n {
        Some(v) => if i64::MIN <= v <= i64::MAX {
            Some(v)
        } else {
            None
        },
        None => None,
    }
}

proof fn lemma_digits_grow(s: Seq<char>, k: int)
    requires
        0 < k <= s.len(),
    ensures
        digits_value(s) is Some ==> digits_value(s.take(k)) is Some && 0 <= digits_value(
            s.take(k),
        )->0 <= digits_value(s)->0,
    decreases s.len(),
{
    if k < s.len() {
        lemma_digits_grow(s.drop_last(), k);
        assert(s.drop_last().take(k) =~= s.take(k));
    } else {
        assert(s.take(k) =~= s);
        if s.len() > 1 {
            lemma_digits_grow(s.drop_last(), s.len() - 1);
            assert(s.drop_last().take(s.len() - 1) =~= s.drop_last());
        }
    }
}

/// The number that `v[from..]` spells, where it is at most 2^63.
fn parse_digits(v: &Vec<char>, from: usize) -> (r: Option<u64>)
    requires
        from <= v@.len(),
    ensures
        match r {
            Some(n) => digits_value(v@.skip(from as int)) == Some(n as int)
                && n <= 0x8000_0000_0000_0000,
            None => match digits_value(v@.skip(from as int)) {
                Some(n) => n > 0x8000_0000_0000_0000,
                None => true,
            },
        },
{
    let ghost s = v@.skip(from as int);
    if from == v.len() {
        return None;
    }
    let mut n: u64 = 0;
    let mut i: usize = from;
    while i < v.len()
        invariant
            from <= i <= v@.len(),
            from < v@.len(),
            s == v@.skip(from as int),
            n <= 0x8000_0000_0000_0000,
            i == from ==> n == 0,
            i > from ==> digits_value(s.take(i - from)) == Some(n as int),
        decreases v@.len() - i,
    {
        let c = v[i];
        let ghost k = i - from;
        let ghost part = s.take(k + 1);
        assert(part.last() == c);
        assert(part.drop_last() =~= s.take(k));
        proof {
            lemma_digits_grow(s, k + 1);
        }
        if !('0' <= c && c <= '9') {
            assert(digits_value(part) is None);
            return None;
        }
        let d: u64 = c as u64 - 48;
        let ghost sum = n * 10 + d;
        assert(digits_value(part) == Some(sum as int));
        if n > (0x8000_0000_0000_0000 - d) / 10 {
            assert(sum > 0x8000_0000_0000_0000);
            return None;
        }
        n = n * 10 + d;
        i = i + 1;
    }
    assert(s.take(s.len() as int) =~= s);
    Some(n)
}

/// Parse a 64-bit integer: digits, with a sign or without one, and nothing else.
pub fn parse_integer(s: &str) -> (r: Option<i64>)
    ensures
        match r {
            Some(n) => integer_value(s@) == Some(n as int),
            None => integer_value(s@) is None,
        },
{
    let v = chars_of(s);
    if v.len() > 0 && (v[0] == '-' || v[0] == '+') {
        let negative = v[0] == '-';
        match parse_digits(&v, 1) {
            Some(n) => if negative {
                if n == 0x8000_0000_0000_0000 {
                    Some(i64::MIN)
                } else {
                    Some(-(n as i64))
                }
            } else if n <= 0x7fff_ffff_ffff_ffff {
                Some(n as i64)
            } else {
                None
            },
            None => {
                proof {
                    if digits_value(v@.skip(1)) is Some {
                        lemma_digits_grow(v@.skip(1), v@.len() - 1);
                    }
                }
                None
            },
        }
    } else {
        assert(v@.skip(0) =~= v@);
        match parse_digits(&v, 0) {
            Some(n) => if n <= 0x7fff_ffff_ffff_ffff {
                Some(n as i64)
            } else {
                None
            },
            None => None,
        }
    }
}

/// A white-space character of Unicode.
pub open spec fn is_space(c: char) -> bool {
    let n = c as u32;
    ||| 9 <= n <= 13
    ||| n == 0x20
    ||| n == 0x85
    ||| n == 0xa0
    ||| n == 0x1680
    ||| 0x2000 <= n <= 0x200a
    ||| n == 0x2028
    ||| n == 0x2029
    ||| n == 0x202f
    ||| n == 0x205f
    ||| n == 0x3000
}

fn is_space_char(c: char) -> (r: bool)
    ensures
        r == is_space(c),
{
    let n = c as u32;
    (9 <= n && n <= 13) || n == 0x20 || n == 0x85 || n == 0xa0 || n == 0x1680 || (0x2000 <= n && n
        <= 0x200a) || n == 0x2028 || n == 0x2029 || n == 0x202f || n == 0x205f || n == 0x3000
}

/// A text without the white space at its end.
pub open spec fn trimmed_end(s: Seq<char>) -> Seq<char>
    decreases s.len(),
{
    if s.len() > 0 && is_space(s.last()) {
        trimmed_end(s.drop_last())
    } else {
        s
    }
}

/// A text without the white space at its ends.
pub open spec fn trimmed(s: Seq<char>) -> Seq<char>
    decreases s.len(),
{
    if s.len() > 0 && is_space(s[0]) {
        trimmed(s.skip(1))
    } else {
        trimmed_end(s)
    }
}

/// A value that counts: trimmed, and nothing where nothing is left.
pub open spec fn counting(m: Map<Seq<char>, Seq<char>>, name: Seq<char>) -> Option<Seq<char>> {
    if m.contains_key(name) && trimmed(m[name]).len() > 0 {
        Some(trimmed(m[name]))
    } else {
        None
    }
}

fn trim(s: &str) -> (r: String)
    ensures
        r@ == trimmed(s@),
{
    let v = chars_of(s);
    let mut from: usize = 0;
    assert(v@.skip(0) =~= v@);
    while from < v.len() && is_space_char(v[from])
        invariant
            from <= v@.len(),
            trimmed(v@.skip(from as int)) == trimmed(v@),
        decreases v@.len() - from,
    {
        assert(v@.skip(from as int).skip(1) =~= v@.skip(from + 1));
        from = from + 1;
    }
    let ghost s1 = v@.skip(from as int);
    assert(trimmed(s1) == trimmed_end(s1));
    let mut to: usize = v.len();
    assert(v@.subrange(from as int, to as int) =~= s1);
    while to > from && is_space_char(v[to - 1])
        invariant
            from <= to <= v@.len(),
            trimmed_end(v@.subrange(from as int, to as int)) == trimmed_end(s1),
        decreases to,
    {
        assert(v@.subrange(from as int, to as int).drop_last() =~= v@.subrange(
            from as int,
            to - 1,
        ));
        to = to - 1;
    }
    text_of(v.as_slice(), from, to)
}

/// A value that counts, by its name.
pub fn non_empty(pairs: &Vec<(String, String)>, name: &str) -> (r: Option<String>)
    ensures
        opt_text(r) == counting(by_name(pair_views(pairs@)), name@),
{
    match lookup(pairs, name) {
        Some(v) => {
            let t = trim(v);
            if t.as_str().unicode_len() > 0 {
                Some(t)
            } else {
                None
            }
        },
        None => None,
    }
}

// ---- knobs ----------------------------------------------------------------

/// What a weight's text is as a floating-point number.
#[derive(Debug, Clone, Copy, PartialEq, Eq, Structural)]
pub enum Weight {
    /// No number's text.
    NotANumber,
    /// A number that is not at least zero: one below it, or the value that compares
    /// with nothing.
    Negative,
    /// A number of at least zero.
    Fine,
}

/// Resolved query knobs.
#[derive(Debug, Clone)]
pub struct Knobs {
    /// The text of the weight of a read, where one is given; else the weight is 1.
    pub w_read: Option<String>,
    /// The text of the weight of a write, where one is given; else the weight is 2.
    pub w_write: Option<String>,
    pub window: i64,
    pub min_span: i64,
    pub depth: i64,
    pub limit: i64,
    pub server: Option<String>,
    pub share: Option<String>,
    pub parent: Option<String>,
}

/// The mathematical value of knobs.
pub struct KnobsView {
    pub w_read: Option<Seq<char>>,
    pub w_write: Option<Seq<char>>,
    pub window: i64,
    pub min_span: i64,
    pub depth: i64,
    pub limit: i64,
    pub server: Option<Seq<char>>,
    pub share: Option<Seq<char>>,
    pub parent: Option<Seq<char>>,
}

impl View for Knobs {
    type V = KnobsView;

    open spec fn view(&self) -> KnobsView {
        KnobsView {
            w_read: opt_text(self.w_read),
            w_write: opt_text(self.w_write),
            window: self.window,
            min_span: self.min_span,
            depth: self.depth,
            limit: self.limit,
            server: opt_text(self.server),
            share: opt_text(self.share),
            parent: opt_text(self.parent),
        }
    }
}

impl Default for Knobs {
    fn default() -> (r: Self)
        ensures
            r@ == (KnobsView {
                w_read: None,
                w_write: None,
                window: 30,
                min_span: 3,
                depth: 1,
                limit: 50,
                server: None,
                share: None,
                parent: None,
            }),
    {
        Knobs {
            w_read: None,
            w_write: None,
            window: 30,
            min_span: 3,
            depth: 1,
            limit: 50,
            server: None,
            share: None,
            parent: None,
        }
    }
}

/// A value where it is there.
pub open spec fn given(m: Map<Seq<char>, Seq<char>>, name: Seq<char>) -> Option<Seq<char>> {
    if m.contains_key(name) {
        Some(m[name])
    } else {
        None
    }
}

/// An integer knob, with its default; nothing where its text is not an integer.
pub open spec fn integer_knob(m: Map<Seq<char>, Seq<char>>, name: Seq<char>, default: i64) -> Option<
    int,
> {
    if m.contains_key(name) {
        integer_value(m[name])
    } else {
        Some(default as int)
    }
}

/// The knobs that named values make, the weights' texts being numbers as said, or
/// what is wrong with them.
pub open spec fn knobs_of(m: Map<Seq<char>, Seq<char>>, read: Weight, write: Weight) -> Result<
    KnobsView,
    Seq<char>,
> {
    let window = integer_knob(m, "window"@, 30);
    let min_span = integer_knob(m, "min_span"@, 3);
    let depth = integer_knob(m, "depth"@, 1);
    let limit = integer_knob(m, "limit"@, 50);
    if m.contains_key("w_read"@) && read == Weight::NotANumber {
        Err("w_read must be a number"@)
    } else if m.contains_key("w_write"@) && write == Weight::NotANumber {
        Err("w_write must be a number"@)
    } else if window is None {
        Err("window must be an integer"@)
    } else if min_span is None {
        Err("min_span must be an integer"@)
    } else if depth is None {
        Err("depth must be an integer"@)
    } else if limit is None {
        Err("limit must be an integer"@)
    } else if !(1 <= depth->0 <= 16) {
        Err("depth must be between 1 and 16"@)
    } else if !(1 <= window->0 <= 3650) {
        Err("window must be between 1 and 3650"@)
    } else if (m.contains_key("w_read"@) && read == Weight::Negative) || (m.contains_key(
        "w_write"@,
    ) && write == Weight::Negative) {
        Err("weights must be >= 0"@)
    } else if !(1 <= limit->0 <= 1000) {
        Err("limit must be between 1 and 1000"@)
    } else if min_span->0 < 0 {
        Err("min_span must be >= 0"@)
    } else {
        Ok(
            KnobsView {
                w_read: given(m, "w_read"@),
                w_write: given(m, "w_write"@),
                window: window->0 as i64,
                min_span: min_span->0 as i64,
                depth: depth->0 as i64,
                limit: limit->0 as i64,
                server: counting(m, "server"@),
                share: counting(m, "share"@),
                parent: counting(m, "parent"@),
            },
        )
    }
}

fn read_integer(pairs: &Vec<(String, String)>, name: &str, default: i64) -> (r: Option<i64>)
    ensures
        match r {
            Some(n) => integer_knob(by_name(pair_views(pairs@)), name@, default) == Some(n as int),
            None => integer_knob(by_name(pair_views(pairs@)), name@, default) is None,
        },
{
    match lookup(pairs, name) {
        Some(v) => parse_integer(v),
        None => Some(default),
    }
}

fn read_given(pairs: &Vec<(String, String)>, name: &str) -> (r: Option<String>)
    ensures
        opt_text(r) == given(by_name(pair_views(pairs@)), name@),
{
    match lookup(pairs, name) {
        Some(v) => Some(v.to_owned()),
        None => None,
    }
}

/// Make knobs of named values. `read` and `write` say what the texts of the weights
/// are; they do not matter where no weight is given.
pub fn knobs_from(pairs: &Vec<(String, String)>, read: Weight, write: Weight) -> (r: Result<
    Knobs,
    String,
>)
    ensures
        match r {
            Ok(k) => knobs_of(by_name(pair_views(pairs@)), read, write) == Ok::<
                KnobsView,
                Seq<char>,
            >(k@),
            Err(e) => knobs_of(by_name(pair_views(pairs@)), read, write) == Err::<
                KnobsView,
                Seq<char>,
            >(e@),
        },
{
    let w_read = read_given(pairs, "w_read");
    let w_write = read_given(pairs, "w_write");
    if w_read.is_some() && read == Weight::NotANumber {
        return Err("w_read must be a number".to_owned());
    }
    if w_write.is_some() && write == Weight::NotANumber {
        return Err("w_write must be a number".to_owned());
    }
    let window = match read_integer(pairs, "window", 30) {
        Some(n) => n,
        None => {
            return Err("window must be an integer".to_owned());
        },
    };
    let min_span = match read_integer(pairs, "min_span", 3) {
        Some(n) => n,
        None => {
            return Err("min_span must be an integer".to_owned());
        },
    };
    let depth = match read_integer(pairs, "depth", 1) {
        Some(n) => n,
        None => {
            return Err("depth must be an integer".to_owned());
        },
    };
    let limit = match read_integer(pairs, "limit", 50) {
        Some(n) => n,
        None => {
            return Err("limit must be an integer".to_owned());
        },
    };
    if !(1 <= depth && depth <= 16) {
        return Err("depth must be between 1 and 16".to_owned());
    }
    if !(1 <= window && window <= 3650) {
        return Err("window must be between 1 and 3650".to_owned());
    }
    if (w_read.is_some() && read == Weight::Negative) || (w_write.is_some() && write
        == Weight::Negative) {
        return Err("weights must be >= 0".to_owned());
    }
    if !(1 <= limit && limit <= 1000) {
        return Err("limit must be between 1 and 1000".to_owned());
    }
    if min_span < 0 {
        return Err("min_span must be >= 0".to_owned());
    }
    Ok(
        Knobs {
            w_read,
            w_write,
            window,
            min_span,
            depth,
            limit,
            server: non_empty(pairs, "server"),
            share: non_empty(pairs, "share"),
            parent: non_empty(pairs, "parent"),
        },
    )
}

/// Parse and validate a query string.
pub fn parse_knobs(query: &str, read: Weight, write: Weight) -> (r: Result<Knobs, String>)
    ensures
        match r {
            Ok(k) => knobs_of(query_values(query@), read, write) == Ok::<KnobsView, Seq<char>>(k@),
            Err(e) => knobs_of(query_values(query@), read, write) == Err::<KnobsView, Seq<char>>(
                e@,
            ),
        },
{
    let pairs = parse_query_string(query);
    knobs_from(&pairs, read, write)
}

/// Knobs that a query string makes are in range.
pub proof fn law_knobs_are_in_range(m: Map<Seq<char>, Seq<char>>, read: Weight, write: Weight)
    ensures
        match knobs_of(m, read, write) {
            Ok(k) => {
                &&& 1 <= k.depth <= 16
                &&& 1 <= k.window <= 3650
                &&& 1 <= k.limit <= 1000
                &&& 0 <= k.min_span
                &&& k.w_read is Some ==> read == Weight::Fine
                &&& k.w_write is Some ==> write == Weight::Fine
            },
            Err(_) => true,
        },
{
}

// ---- statements -----------------------------------------------------------

/// A value to bind.
#[derive(Debug, Clone)]
pub enum Param {
    Integer(i64),
    Text(String),
    /// The weight of a read.
    ReadWeight,
    /// The weight of a write.
    WriteWeight,
}

/// The mathematical value of a parameter.
pub enum ParamView {
    Integer(i64),
    Text(Seq<char>),
    ReadWeight,
    WriteWeight,
}

impl View for Param {
    type V = ParamView;

    open spec fn view(&self) -> ParamView {
        match self {
            Param::Integer(n) => ParamView::Integer(*n),
            Param::Text(t) => ParamView::Text(t@),
            Param::ReadWeight => ParamView::ReadWeight,
            Param::WriteWeight => ParamView::WriteWeight,
        }
    }
}

/// A statement: its text, and what is bound to its placeholders, in order.
#[derive(Debug, Clone)]
pub struct Query {
    pub sql: String,
    pub params: Vec<Param>,
}

/// The mathematical value of a statement.
#[verifier::ext_equal]
pub struct QueryView {
    pub sql: Seq<char>,
    pub params: Seq<ParamView>,
}

impl View for Query {
    type V = QueryView;

    open spec fn view(&self) -> QueryView {
        QueryView { sql: self.sql@, params: self.params@.map_values(|p: Param| p@) }
    }
}

impl QueryView {
    /// With more text.
    pub open spec fn text(self, sql: Seq<char>) -> QueryView {
        QueryView { sql: self.sql + sql, params: self.params }
    }

    /// With one more parameter.
    pub open spec fn bind(self, p: ParamView) -> QueryView {
        QueryView { sql: self.sql, params: self.params.push(p) }
    }

    /// With a filter and its parameter, where there is a value for it.
    pub open spec fn filter(self, sql: Seq<char>, value: Option<Seq<char>>) -> QueryView {
        match value {
            Some(v) => self.text(sql).bind(ParamView::Text(v)),
            None => self,
        }
    }
}

impl Query {
    fn new() -> (r: Self)
        ensures
            r@ == (QueryView { sql: Seq::empty(), params: Seq::empty() }),
    {
        let q = Query { sql: String::new(), params: Vec::new() };
        assert(q@ =~= (QueryView { sql: Seq::empty(), params: Seq::empty() }));
        q
    }

    fn text(&mut self, sql: &str)
        ensures
            final(self)@ == old(self)@.text(sql@),
    {
        self.sql.append(sql);
        assert(self@ =~= old(self)@.text(sql@));
    }

    fn bind(&mut self, p: Param)
        ensures
            final(self)@ == old(self)@.bind(p@),
    {
        self.params.push(p);
        assert(self@ =~= old(self)@.bind(p@));
    }

    fn filter(&mut self, sql: &str, value: &Option<String>)
        ensures
            final(self)@ == old(self)@.filter(sql@, opt_text(*value)),
    {
        if let Some(v) = value {
            self.text(sql);
            self.bind(Param::Text(v.clone()));
        }
    }
}

/// The empty statement.
pub open spec fn no_query() -> QueryView {
    QueryView { sql: Seq::empty(), params: Seq::empty() }
}

pub const SQL_FILTER_SERVER: &'static str = " AND server = ?";

pub const SQL_FILTER_SHARE: &'static str = " AND share = ?";

pub const SQL_FILTER_F_SERVER: &'static str = " AND f.server = ?";

pub const SQL_FILTER_F_SHARE: &'static str = " AND f.share = ?";

pub const SQL_SCOPE_ANCHOR: &'static str =
    "SELECT MAX(dc.day_index)::BIGINT FROM day_counts dc JOIN files f USING (file_id) WHERE 1=1";

pub const SQL_CHILDREN_ANCHOR: &'static str =
    "SELECT MAX(dc.day_index)::BIGINT FROM day_counts dc JOIN files f USING (file_id) WHERE (f.path = ? OR f.path LIKE ? ESCAPE '!')";

pub const SQL_LEADERBOARD_FILES: &'static str = "WITH scoped_files AS (
  SELECT file_id, server, share,
         array_to_string(list_slice(string_split(path, '\\'), 1, ?), '\\') AS subtree,
         alloc_bytes
  FROM files
  WHERE 1=1";

pub const SQL_LEADERBOARD_BLOCKS: &'static str = "
),
bytes_block AS (
  SELECT server, share, subtree,
         SUM(alloc_bytes)::BIGINT AS bytes,
         COUNT(*) FILTER (WHERE alloc_bytes IS NULL) AS unknown_bytes_files,
         COUNT(*) AS files
  FROM scoped_files
  GROUP BY server, share, subtree
),
heat_block AS (
  SELECT sf.server, sf.share, sf.subtree,
         SUM(? * dc.reads + ? * dc.writes)::DOUBLE AS demand,
         COUNT(DISTINCT dc.day_index) AS span
  FROM day_counts dc JOIN scoped_files sf ON sf.file_id = dc.file_id
  WHERE dc.day_index > ?
  GROUP BY sf.server, sf.share, sf.subtree
)
";

pub const SQL_LEADERBOARD_SELECT: &'static str =
    "SELECT b.server, b.share, b.subtree, b.bytes, b.unknown_bytes_files, b.files,
       h.demand, h.span, h.demand / NULLIF(b.bytes, 0) AS density,
";

pub const SQL_TIER_JOIN: &'static str = "       t.tier, t.migrated_on, t.note
FROM heat_block h JOIN bytes_block b USING (server, share, subtree)
LEFT JOIN LATERAL (
  SELECT tier, migrated_on, note
  FROM read_csv(?, header=true, columns={'server':'VARCHAR','share':'VARCHAR','path_prefix':'VARCHAR','tier':'VARCHAR','migrated_on':'VARCHAR','new_server':'VARCHAR','new_share':'VARCHAR','note':'VARCHAR'}) tl
  WHERE tl.server = b.server AND tl.share = b.share
    AND (b.subtree = tl.path_prefix OR starts_with(b.subtree, tl.path_prefix || '\\'))
  ORDER BY LENGTH(tl.path_prefix) DESC LIMIT 1
) t ON TRUE
";

pub const SQL_NO_TIER: &'static str =
    "       NULL::VARCHAR AS tier, NULL::VARCHAR AS migrated_on, NULL::VARCHAR AS note
FROM heat_block h JOIN bytes_block b USING (server, share, subtree)
";

pub const SQL_LEADERBOARD_TAIL: &'static str = "WHERE h.span >= ?
ORDER BY density DESC NULLS LAST
LIMIT ?";

pub const SQL_CHILDREN_FILES: &'static str = "WITH scoped_files AS (
  SELECT file_id,
         array_to_string(list_slice(string_split(path, '\\'), 1, ?), '\\') AS subtree,
         alloc_bytes
  FROM files
  WHERE (path = ? OR path LIKE ? ESCAPE '!')";

pub const SQL_CHILDREN_BLOCKS: &'static str = "
),
bytes_block AS (
  SELECT subtree,
         SUM(alloc_bytes)::BIGINT AS bytes,
         COUNT(*) FILTER (WHERE alloc_bytes IS NULL) AS unknown_bytes_files,
         COUNT(*) AS files
  FROM scoped_files
  GROUP BY subtree
),
heat_block AS (
  SELECT sf.subtree,
         SUM(? * dc.reads + ? * dc.writes)::DOUBLE AS demand,
         COUNT(DISTINCT dc.day_index) AS span
  FROM day_counts dc JOIN scoped_files sf ON sf.file_id = dc.file_id
  WHERE dc.day_index > ?
  GROUP BY sf.subtree
)
SELECT b.subtree, b.bytes, COALESCE(h.demand, 0.0) AS demand,
        COALESCE(h.demand, 0.0) / NULLIF(b.bytes, 0) AS density,
        COALESCE(h.span, 0) AS span, b.unknown_bytes_files
  FROM bytes_block b LEFT JOIN heat_block h USING (subtree)
  ORDER BY demand DESC";

/// The newest dump and its time, by server.
pub const SQL_HEALTH: &'static str =
    "SELECT server, arg_max(last_dump_seq, last_dump_at)::BIGINT AS last_dump_seq, epoch(MAX(last_dump_at))::BIGINT AS last_epoch FROM runs GROUP BY server ORDER BY server";

/// The first day below the window.
pub fn window_threshold(anchor: i64, window: i64) -> (r: i64)
    requires
        i64::MIN <= anchor - window <= i64::MAX,
    ensures
        r == anchor - window,
{
    anchor - window
}

/// The statement that finds the leaderboard's anchor: the latest day in scope.
pub open spec fn scope_anchor_query(k: KnobsView) -> QueryView {
    no_query().text(SQL_SCOPE_ANCHOR@).filter(SQL_FILTER_F_SERVER@, k.server).filter(
        SQL_FILTER_F_SHARE@,
        k.share,
    )
}

/// The statement that finds the leaderboard's anchor: the latest day in scope.
pub fn scope_anchor(k: &Knobs) -> (r: Query)
    ensures
        r@ == scope_anchor_query(k@),
{
    let mut q = Query::new();
    q.text(SQL_SCOPE_ANCHOR);
    q.filter(SQL_FILTER_F_SERVER, &k.server);
    q.filter(SQL_FILTER_F_SHARE, &k.share);
    q
}

/// The leaderboard's statement: hottest subtrees by density. Parameters in order:
/// depth, server and share where given, the weights, the threshold, the tier log
/// where given, the least span, the limit.
pub open spec fn leaderboard_query(k: KnobsView, threshold: i64, tier_log: Option<Seq<char>>) -> QueryView {
    no_query().text(SQL_LEADERBOARD_FILES@).bind(ParamView::Integer(k.depth)).filter(
        SQL_FILTER_SERVER@,
        k.server,
    ).filter(SQL_FILTER_SHARE@, k.share).text(SQL_LEADERBOARD_BLOCKS@).bind(
        ParamView::ReadWeight,
    ).bind(ParamView::WriteWeight).bind(ParamView::Integer(threshold)).text(
        SQL_LEADERBOARD_SELECT@,
    ).tier(tier_log).text(SQL_LEADERBOARD_TAIL@).bind(ParamView::Integer(k.min_span)).bind(
        ParamView::Integer(k.limit),
    )
}

impl QueryView {
    /// With the tier columns: from the tier log by the longest matching prefix, or
    /// empty without one.
    pub open spec fn tier(self, tier_log: Option<Seq<char>>) -> QueryView {
        match tier_log {
            Some(path) => self.text(SQL_TIER_JOIN@).bind(ParamView::Text(path)),
            None => self.text(SQL_NO_TIER@),
        }
    }
}

fn push_tier_select_and_join(q: &mut Query, tier_log: &Option<String>)
    ensures
        final(q)@ == old(q)@.tier(opt_text(*tier_log)),
{
    match tier_log {
        Some(path) => {
            q.text(SQL_TIER_JOIN);
            q.bind(Param::Text(path.clone()));
        },
        None => {
            q.text(SQL_NO_TIER);
        },
    }
}

/// The leaderboard's statement.
pub fn build_leaderboard_sql(k: &Knobs, threshold: i64, tier_log: &Option<String>) -> (r: Query)
    ensures
        r@ == leaderboard_query(k@, threshold, opt_text(*tier_log)),
        k.server is Some ==> r.params@[1]@ == ParamView::Text(k.server->0@),
        k.share is Some ==> r.params@[if k.server is Some { 2int } else { 1 }]@ == ParamView::Text(
            k.share->0@,
        ),
{
    let mut q = Query::new();
    q.text(SQL_LEADERBOARD_FILES);
    q.bind(Param::Integer(k.depth));
    q.filter(SQL_FILTER_SERVER, &k.server);
    q.filter(SQL_FILTER_SHARE, &k.share);
    q.text(SQL_LEADERBOARD_BLOCKS);
    q.bind(Param::ReadWeight);
    q.bind(Param::WriteWeight);
    q.bind(Param::Integer(threshold));
    q.text(SQL_LEADERBOARD_SELECT);
    push_tier_select_and_join(&mut q, tier_log);
    q.text(SQL_LEADERBOARD_TAIL);
    q.bind(Param::Integer(k.min_span));
    q.bind(Param::Integer(k.limit));
    proof {
        let p = q@.params;
        assert(p.len() == q.params@.len());
        assert(p[1] == q.params@[1]@ && p[2] == q.params@[2]@);
    }
    q
}

/// The leaderboard's statement, its anchor being known; none without an anchor, since
/// there is then nothing to rank.
pub fn leaderboard(k: &Knobs, anchor: Option<i64>, tier_log: &Option<String>) -> (r: Option<Query>)
    requires
        match anchor {
            Some(a) => i64::MIN <= a - k.window <= i64::MAX,
            None => true,
        },
    ensures
        match anchor {
            Some(a) => r is Some && r->0@ == leaderboard_query(
                k@,
                (a - k.window) as i64,
                opt_text(*tier_log),
            ),
            None => r is None,
        },
{
    match anchor {
        Some(a) => Some(build_leaderboard_sql(k, window_threshold(a, k.window), tier_log)),
        None => None,
    }
}

/// A text with the metacharacters of LIKE escaped by `!`.
pub open spec fn like_escaped(s: Seq<char>) -> Seq<char>
    decreases s.len(),
{
    if s.len() == 0 {
        s
    } else {
        let c = s.last();
        let init = like_escaped(s.drop_last());
        if c == '!' || c == '%' || c == '_' {
            init.push('!').push(c)
        } else {
            init.push(c)
        }
    }
}

/// Escape the metacharacters of LIKE (`!`, `%`, `_`) with `!`, so that a text matches
/// itself only. The backslash, the path separator, is none of them.
pub fn escape_like(s: &str) -> (r: String)
    ensures
        r@ == like_escaped(s@),
{
    let v = chars_of(s);
    let mut out = String::new();
    let mut i: usize = 0;
    assert(v@.take(0) =~= Seq::empty());
    while i < v.len()
        invariant
            i <= v@.len(),
            out@ == like_escaped(v@.take(i as int)),
        decreases v@.len() - i,
    {
        let c = v[i];
        assert(v@.take(i + 1).drop_last() =~= v@.take(i as int));
        if c == '!' || c == '%' || c == '_' {
            out.push('!');
        }
        out.push(c);
        i = i + 1;
    }
    assert(v@.take(v@.len() as int) =~= v@);
    out
}

/// What a pattern of LIKE matches, `!` being its escape character: `%` any text, `_`
/// any character, an escaped character itself, and so any other.
pub open spec fn like_matches(pattern: Seq<char>, s: Seq<char>) -> bool
    decreases pattern.len(),
{
    if pattern.len() == 0 {
        s.len() == 0
    } else if pattern[0] == '!' && pattern.len() > 1 {
        s.len() > 0 && s[0] == pattern[1] && like_matches(pattern.skip(2), s.skip(1))
    } else if pattern[0] == '%' {
        exists|k: int| 0 <= k <= s.len() && like_matches(pattern.skip(1), #[trigger] s.skip(k))
    } else if pattern[0] == '_' {
        s.len() > 0 && like_matches(pattern.skip(1), s.skip(1))
    } else {
        s.len() > 0 && s[0] == pattern[0] && like_matches(pattern.skip(1), s.skip(1))
    }
}

/// One character as a pattern.
spec fn escaped_one(c: char) -> Seq<char> {
    if c == '!' || c == '%' || c == '_' {
        seq!['!', c]
    } else {
        seq![c]
    }
}

proof fn lemma_escaped_front(s: Seq<char>)
    requires
        s.len() > 0,
    ensures
        like_escaped(s) == escaped_one(s[0]) + like_escaped(s.skip(1)),
    decreases s.len(),
{
    if s.len() == 1 {
        assert(s.drop_last() =~= Seq::empty());
        assert(s.skip(1) =~= Seq::empty());
        assert(like_escaped(s) =~= escaped_one(s[0]) + like_escaped(s.skip(1)));
    } else {
        lemma_escaped_front(s.drop_last());
        assert(s.drop_last().skip(1) =~= s.skip(1).drop_last());
        assert(like_escaped(s) =~= escaped_one(s[0]) + like_escaped(s.skip(1)));
    }
}

proof fn lemma_escaped_matches(s: Seq<char>, tail: Seq<char>, t: Seq<char>)
    ensures
        like_matches(like_escaped(s) + tail, t) <==> starts_with(t, s) && like_matches(
            tail,
            t.skip(s.len() as int),
        ),
    decreases s.len(),
{
    if s.len() == 0 {
        assert(like_escaped(s) + tail =~= tail);
        assert(t.skip(0) =~= t);
        assert(t.take(0) =~= s);
    } else {
        let c = s[0];
        let rest = s.skip(1);
        let one = escaped_one(c);
        lemma_escaped_front(s);
        let pattern = like_escaped(s) + tail;
        let more = like_escaped(rest) + tail;
        assert(pattern =~= one + more);
        assert(pattern.skip(one.len() as int) =~= more);
        assert(pattern[0] == one[0]);
        if one.len() == 2 {
            assert(pattern[1] == c);
        }
        assert(like_matches(pattern, t) <==> t.len() > 0 && t[0] == c && like_matches(
            more,
            t.skip(1),
        ));
        if t.len() > 0 {
            let u = t.skip(1);
            lemma_escaped_matches(rest, tail, u);
            if s.len() <= t.len() {
                assert(u.skip(rest.len() as int) =~= t.skip(s.len() as int));
            }
            assert(starts_with(t, s) <==> t[0] == c && starts_with(u, rest)) by {
                if starts_with(t, s) {
                    assert(t[0] == t.take(s.len() as int)[0]);
                    assert(u.take(rest.len() as int) =~= t.take(s.len() as int).skip(1));
                }
                if t[0] == c && starts_with(u, rest) {
                    assert(t.take(s.len() as int) =~= seq![c] + u.take(rest.len() as int));
                    assert(s =~= seq![c] + rest);
                }
            }
        }
    }
}

/// A subtree's name is matched literally: the pattern of what lies below it matches
/// exactly the paths that begin with the name and a separator, whatever the name
/// holds.
pub proof fn law_below_pattern_is_literal(parent: Seq<char>, path: Seq<char>)
    ensures
        like_matches(below_pattern(parent), path) <==> starts_with(path, parent.push('\\')),
        like_matches(like_escaped(parent), path) <==> path == parent,
{
    reveal_strlit("\\%");
    let tail = "\\%"@;
    lemma_escaped_matches(parent, tail, path);
    lemma_escaped_matches(parent, Seq::empty(), path);
    assert(like_escaped(parent) + Seq::empty() =~= like_escaped(parent));
    assert(parent =~= path.take(parent.len() as int) && path.len() == parent.len() ==> path =~= parent);
    assert(path == parent ==> path.take(parent.len() as int) =~= parent);
    let n = parent.len() as int;
    let rest = path.skip(n);
    assert(tail.skip(1) =~= seq!['%']);
    assert(seq!['%'].skip(1) =~= Seq::empty());
    if rest.len() > 0 {
        let u = rest.skip(1);
        assert(u.skip(u.len() as int) =~= Seq::empty());
        assert(like_matches(seq!['%'].skip(1), u.skip(u.len() as int)));
        assert(like_matches(seq!['%'], u));
    }
    assert(like_matches(tail, rest) <==> rest.len() > 0 && rest[0] == '\\');
    if starts_with(path, parent.push('\\')) {
        assert(path.take(n) =~= path.take(n + 1).take(n));
        assert(parent.push('\\').take(n) =~= parent);
        assert(path.take(n + 1)[n] == '\\');
    }
    if starts_with(path, parent) && rest.len() > 0 && rest[0] == '\\' {
        assert(path.take(n + 1) =~= path.take(n).push(path[n]));
    }
}

/// The depth of the children of a subtree: one segment more than it has.
pub open spec fn child_depth_of(parent: Seq<char>) -> nat {
    split(parent, '\\').len() + 1
}

/// The depth of the children of a subtree.
pub fn child_depth(parent: &str) -> (r: i64)
    requires
        parent@.len() < i64::MAX - 1,
    ensures
        r == child_depth_of(parent@),
{
    let parts = split_all(parent, '\\');
    proof {
        lemma_split_len(parent@, '\\');
        assert(texts(parts@).len() == parts@.len());
    }
    parts.len() as i64 + 1
}

proof fn lemma_split_len(s: Seq<char>, c: char)
    ensures
        split(s, c).len() <= s.len() + 1,
    decreases s.len(),
{
    lemma_first_at(s, c);
    let i = first_at(s, c);
    if i < s.len() {
        lemma_split_len(s.skip(i + 1), c);
    }
}

/// The pattern of what lies below a subtree.
pub open spec fn below_pattern(parent: Seq<char>) -> Seq<char> {
    like_escaped(parent) + "\\%"@
}

fn parent_like(parent: &str) -> (r: String)
    ensures
        r@ == below_pattern(parent@),
{
    let mut s = escape_like(parent);
    s.append("\\%");
    s
}

/// The statement that finds the anchor below a subtree.
pub open spec fn children_anchor_query(k: KnobsView, parent: Seq<char>) -> QueryView {
    no_query().text(SQL_CHILDREN_ANCHOR@).bind(ParamView::Text(parent)).bind(
        ParamView::Text(below_pattern(parent)),
    ).filter(SQL_FILTER_F_SERVER@, k.server).filter(SQL_FILTER_F_SHARE@, k.share)
}

/// The statement that finds the anchor below a subtree.
pub fn children_anchor(k: &Knobs, parent: &str) -> (r: Query)
    ensures
        r@ == children_anchor_query(k@, parent@),
{
    let mut q = Query::new();
    q.text(SQL_CHILDREN_ANCHOR);
    q.bind(Param::Text(parent.to_owned()));
    q.bind(Param::Text(parent_like(parent)));
    q.filter(SQL_FILTER_F_SERVER, &k.server);
    q.filter(SQL_FILTER_F_SHARE, &k.share);
    q
}

/// The statement that carves a subtree into its children. Parameters in order: the
/// children's depth, the parent, the pattern of what lies below it, server and share
/// where given, the weights, the threshold.
pub open spec fn children_query_of(k: KnobsView, parent: Seq<char>, threshold: i64) -> QueryView {
    no_query().text(SQL_CHILDREN_FILES@).bind(
        ParamView::Integer(child_depth_of(parent) as i64),
    ).bind(ParamView::Text(parent)).bind(ParamView::Text(below_pattern(parent))).filter(
        SQL_FILTER_SERVER@,
        k.server,
    ).filter(SQL_FILTER_SHARE@, k.share).text(SQL_CHILDREN_BLOCKS@).bind(
        ParamView::ReadWeight,
    ).bind(ParamView::WriteWeight).bind(ParamView::Integer(threshold))
}

/// The statement that carves a subtree into its children, the anchor being known;
/// none without an anchor, since nothing was opened below the subtree.
pub fn children_query(k: &Knobs, parent: &str, anchor: Option<i64>) -> (r: Option<Query>)
    requires
        parent@.len() < i64::MAX - 1,
        match anchor {
            Some(a) => i64::MIN <= a - k.window <= i64::MAX,
            None => true,
        },
    ensures
        match anchor {
            Some(a) => r is Some && r->0@ == children_query_of(
                k@,
                parent@,
                (a - k.window) as i64,
            ),
            None => r is None,
        },
{
    let a = match anchor {
        Some(a) => a,
        None => {
            return None;
        },
    };
    let mut q = Query::new();
    q.text(SQL_CHILDREN_FILES);
    q.bind(Param::Integer(child_depth(parent)));
    q.bind(Param::Text(parent.to_owned()));
    q.bind(Param::Text(parent_like(parent)));
    q.filter(SQL_FILTER_SERVER, &k.server);
    q.filter(SQL_FILTER_SHARE, &k.share);
    q.text(SQL_CHILDREN_BLOCKS);
    q.bind(Param::ReadWeight);
    q.bind(Param::WriteWeight);
    q.bind(Param::Integer(window_threshold(a, k.window)));
    Some(q)
}

/// The subtree to carve; it has to be given.
pub fn children(k: &Knobs) -> (r: Result<&str, String>)
    ensures
        match r {
            Ok(p) => k@.parent == Some(p@),
            Err(e) => k@.parent is None && e@ == "parent is required"@,
        },
{
    match &k.parent {
        Some(p) => Ok(p.as_str()),
        None => Err("parent is required".to_owned()),
    }
}

/// The sum of the known byte counts.
pub open spec fn known_sum(bytes: Seq<Option<i64>>) -> int
    decreases bytes.len(),
{
    if bytes.len() == 0 {
        0
    } else {
        known_sum(bytes.drop_last()) + match bytes.last() {
            Some(b) => b as int,
            None => 0,
        }
    }
}

/// The bytes of a subtree from those of its children: the sum of the known ones, and
/// nothing where none is known.
pub fn parent_bytes(bytes: &Vec<Option<i64>>) -> (r: Option<i64>)
    requires
        forall|i: int|
            0 <= i <= bytes@.len() ==> i64::MIN <= #[trigger] known_sum(bytes@.take(i)) <= i64::MAX,
    ensures
        r is Some <==> exists|i: int| 0 <= i < bytes@.len() && #[trigger] bytes@[i] is Some,
        r is Some ==> r->0 == known_sum(bytes@),
{
    let mut sum: i64 = 0;
    let mut any = false;
    let mut i: usize = 0;
    assert(bytes@.take(0) =~= Seq::empty());
    while i < bytes.len()
        invariant
            i <= bytes@.len(),
            forall|j: int|
                0 <= j <= bytes@.len() ==> i64::MIN <= #[trigger] known_sum(bytes@.take(j))
                    <= i64::MAX,
            sum == known_sum(bytes@.take(i as int)),
            any == exists|j: int| 0 <= j < i && #[trigger] bytes@[j] is Some,
        decreases bytes@.len() - i,
    {
        assert(bytes@.take(i + 1).drop_last() =~= bytes@.take(i as int));
        assert(i64::MIN <= known_sum(bytes@.take(i + 1)) <= i64::MAX);
        let b = bytes[i];
        if let Some(n) = b {
            sum = sum + n;
            any = true;
            assert(bytes@[i as int] is Some);
        }
        i = i + 1;
    }
    assert(bytes@.take(bytes@.len() as int) =~= bytes@);
    if any {
        Some(sum)
    } else {
        None
    }
}

/// The part that a child has of its parent's bytes, as a numerator and a denominator:
/// where both are known and the parent has any.
pub fn part_of(bytes: Option<i64>, whole: Option<i64>) -> (r: Option<(i64, i64)>)
    ensures
        match (bytes, whole) {
            (Some(b), Some(w)) => if w != 0 {
                r == Some((b, w))
            } else {
                r is None
            },
            _ => r is None,
        },
{
    match (bytes, whole) {
        (Some(b), Some(w)) => if w != 0 {
            Some((b, w))
        } else {
            None
        },
        _ => None,
    }
}

/// Only which filters are given decides the text of a leaderboard's statement: two
/// queries with the same filters have the same text, whatever their values.
pub proof fn law_leaderboard_text_holds_no_value(
    a: KnobsView,
    b: KnobsView,
    threshold_a: i64,
    threshold_b: i64,
    log_a: Option<Seq<char>>,
    log_b: Option<Seq<char>>,
)
    requires
        a.server is Some == b.server is Some,
        a.share is Some == b.share is Some,
        log_a is Some == log_b is Some,
    ensures
        leaderboard_query(a, threshold_a, log_a).sql == leaderboard_query(b, threshold_b, log_b).sql,
        scope_anchor_query(a).sql == scope_anchor_query(b).sql,
{
}

/// The same of the statements that carve a subtree.
pub proof fn law_children_text_holds_no_value(
    a: KnobsView,
    b: KnobsView,
    parent_a: Seq<char>,
    parent_b: Seq<char>,
    threshold_a: i64,
    threshold_b: i64,
)
    requires
        a.server is Some == b.server is Some,
        a.share is Some == b.share is Some,
    ensures
        children_query_of(a, parent_a, threshold_a).sql == children_query_of(
            b,
            parent_b,
            threshold_b,
        ).sql,
        children_anchor_query(a, parent_a).sql == children_anchor_query(b, parent_b).sql,
{
}

// ---- health ---------------------------------------------------------------

/// A server's newest dump, its time in seconds since 1970-01-01.
#[derive(Debug, Clone)]
pub struct ServerDump {
    pub server: String,
    pub last_dump_seq: i64,
    pub last_epoch: i64,
}

/// The report on one server.
pub open spec fn server_health_text(d: ServerDump, now_secs: int) -> Seq<char> {
    "{\"server\":"@ + json_quoted(d.server@) + ",\"last_dump_at\":"@ + json_quoted(
        date_time_text(d.last_epoch as int) + "Z"@,
    ) + ",\"last_dump_seq\":"@ + dec_int(d.last_dump_seq as int) + ",\"seconds_stale\":"@ + dec_int(
        now_secs - d.last_epoch,
    ) + "}"@
}

/// The reports on servers, separated by commas.
pub open spec fn servers_health_text(dumps: Seq<ServerDump>, now_secs: int) -> Seq<char>
    decreases dumps.len(),
{
    if dumps.len() == 0 {
        Seq::empty()
    } else if dumps.len() == 1 {
        server_health_text(dumps[0], now_secs)
    } else {
        servers_health_text(dumps.drop_last(), now_secs) + ","@ + server_health_text(
            dumps.last(),
            now_secs,
        )
    }
}

/// The health report: how long ago each server's newest dump was made.
pub open spec fn health_text(dumps: Seq<ServerDump>, now_secs: int) -> Seq<char> {
    "{\"now\":"@ + json_quoted(date_time_text(now_secs) + "Z"@) + ",\"servers\":["@
        + servers_health_text(dumps, now_secs) + "]}"@
}

/// The health report on the servers' newest dumps.
pub fn health(dumps: &Vec<ServerDump>, now_secs: i64) -> (r: String)
    requires
        forall|i: int|
            0 <= i < dumps@.len() ==> i64::MIN <= now_secs - (#[trigger] dumps@[i]).last_epoch
                <= i64::MAX,
    ensures
        r@ == health_text(dumps@, now_secs as int),
{
    let mut out = "{\"now\":".to_owned();
    out.append(json_quote(rfc3339_utc(now_secs).as_str()).as_str());
    out.append(",\"servers\":[");
    let ghost head = out@;
    let mut i: usize = 0;
    assert(dumps@.take(0) =~= Seq::empty());
    assert(out@ =~= head + servers_health_text(dumps@.take(0), now_secs as int));
    while i < dumps.len()
        invariant
            i <= dumps@.len(),
            forall|j: int|
                0 <= j < dumps@.len() ==> i64::MIN <= now_secs - (#[trigger] dumps@[j]).last_epoch
                    <= i64::MAX,
            out@ == head + servers_health_text(dumps@.take(i as int), now_secs as int),
        decreases dumps@.len() - i,
    {
        let d = &dumps[i];
        let ghost part = dumps@.take(i + 1);
        assert(part.drop_last() =~= dumps@.take(i as int));
        if i > 0 {
            out.append(",");
        }
        let mut s = "{\"server\":".to_owned();
        s.append(json_quote(d.server.as_str()).as_str());
        s.append(",\"last_dump_at\":");
        s.append(json_quote(rfc3339_utc(d.last_epoch).as_str()).as_str());
        s.append(",\"last_dump_seq\":");
        s.append(fmt_dec_int(d.last_dump_seq).as_str());
        s.append(",\"seconds_stale\":");
        s.append(fmt_dec_int(now_secs - d.last_epoch).as_str());
        s.append("}");
        assert(s@ == server_health_text(*d, now_secs as int));
        out.append(s.as_str());
        assert(out@ =~= head + servers_health_text(part, now_secs as int));
        i = i + 1;
    }
    assert(dumps@.take(dumps@.len() as int) =~= dumps@);
    out.append("]}");
    out
}

} // verus!
