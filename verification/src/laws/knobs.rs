//! What a query string says.

use crate::query::{
    decoded, decoded_bytes, digits_value, hex_value, integer_value, is_space, knobs_of,
    part_pairs, query_values, raw_pair, trimmed, trimmed_end, utf8_lossy, Weight,
};
use crate::split::{first_at, lemma_first_at, lemma_first_at_is, split};
use crate::text::{dec, dec_int, lemma_dec_digits};
use vstd::prelude::*;
use vstd::utf8::encode_utf8;

verus! {

// ---- numbers --------------------------------------------------------------

/// Digits spell a number: each further digit multiplies it by ten and adds to it.
pub proof fn law_digits(s: Seq<char>, c: char)
    ensures
        digits_value(Seq::empty()) is None,
        '0' <= c <= '9' ==> digits_value(seq![c]) == Some(c as int - 48),
        '0' <= c <= '9' && digits_value(s) is Some ==> digits_value(s.push(c)) == Some(
            digits_value(s)->0 * 10 + (c as int - 48),
        ),
        !('0' <= c <= '9') ==> digits_value(s.push(c)) is None,
        s.len() > 0 && digits_value(s) is None ==> digits_value(s.push(c)) is None,
{
    assert(s.push(c).drop_last() =~= s);
    assert(seq![c].last() == c);
}

proof fn lemma_dec_spells(n: nat)
    ensures
        digits_value(dec(n)) == Some(n as int),
    decreases n,
{
    if n >= 10 {
        lemma_dec_spells(n / 10);
        assert(dec(n).drop_last() =~= dec(n / 10));
        lemma_dec_digits(n / 10);
        assert(digits_value(dec(n)) == Some((n / 10) as int * 10 + n % 10));
    } else {
        assert(dec(n).last() == dec(n)[0]);
    }
}

/// An integer of 64 bits is read back from its decimal text, a plus sign before it or
/// not; a number out of that range is not read.
pub proof fn law_integers_are_read(n: int)
    ensures
        -0x8000_0000_0000_0000 <= n <= 0x7fff_ffff_ffff_ffff ==> integer_value(dec_int(n)) == Some(
            n,
        ),
        0 <= n <= 0x7fff_ffff_ffff_ffff ==> integer_value(seq!['+'] + dec_int(n)) == Some(n),
        n < -0x8000_0000_0000_0000 || n > 0x7fff_ffff_ffff_ffff ==> integer_value(dec_int(n))
            is None,
{
    if n >= 0 {
        lemma_dec_spells(n as nat);
        lemma_dec_digits(n as nat);
        let d = dec(n as nat);
        assert('0' <= d[0] <= '9');
        assert((seq!['+'] + d).skip(1) =~= d);
    } else {
        lemma_dec_spells((-n) as nat);
        let d = dec((-n) as nat);
        assert((seq!['-'] + d).skip(1) =~= d);
    }
}

proof fn lemma_only_digits(s: Seq<char>)
    ensures
        digits_value(s) is Some <==> s.len() > 0 && forall|i: int|
            0 <= i < s.len() ==> '0' <= #[trigger] s[i] <= '9',
        digits_value(s) is Some ==> digits_value(s)->0 >= 0,
    decreases s.len(),
{
    if s.len() == 1 {
        assert(s.last() == s[0]);
    } else if s.len() > 1 {
        let init = s.drop_last();
        lemma_only_digits(init);
        if digits_value(s) is Some {
            assert forall|i: int| 0 <= i < s.len() implies '0' <= #[trigger] s[i] <= '9' by {
                if i < s.len() - 1 {
                    assert(s[i] == init[i]);
                }
            }
        }
        if forall|i: int| 0 <= i < s.len() ==> '0' <= #[trigger] s[i] <= '9' {
            assert forall|i: int| 0 <= i < init.len() implies '0' <= #[trigger] init[i] <= '9' by {
                assert(init[i] == s[i]);
            }
            assert('0' <= s[s.len() - 1] <= '9');
        }
    }
}

/// Digits are an integer, with a sign or without one, as far as it is in range; anything
/// else behind the sign is none.
pub proof fn law_what_is_an_integer(digits: Seq<char>)
    requires
        digits.len() > 0 ==> digits[0] != '+' && digits[0] != '-',
    ensures
        ({
            let all = digits.len() > 0 && forall|i: int|
                0 <= i < digits.len() ==> '0' <= #[trigger] digits[i] <= '9';
            let n = digits_value(digits)->0;
            &&& all ==> digits_value(digits) is Some && n >= 0
            &&& integer_value(digits) == if all && n <= 0x7fff_ffff_ffff_ffff {
                Some(n)
            } else {
                None
            }
            &&& integer_value(seq!['+'] + digits) == integer_value(digits)
            &&& integer_value(seq!['-'] + digits) == if all && n <= 0x8000_0000_0000_0000 {
                Some(-n)
            } else {
                None
            }
        }),
{
    lemma_only_digits(digits);
    assert((seq!['+'] + digits).skip(1) =~= digits);
    assert((seq!['-'] + digits).skip(1) =~= digits);
}

// ---- knobs ----------------------------------------------------------------

/// Knobs are made just where every number is an integer within its bounds and the given
/// weights are numbers of at least zero; nothing else is refused.
pub proof fn law_when_knobs_are_made(m: Map<Seq<char>, Seq<char>>, read: Weight, write: Weight)
    ensures
        knobs_of(m, read, write) is Ok <==> {
            &&& m.contains_key("w_read"@) ==> read == Weight::Fine
            &&& m.contains_key("w_write"@) ==> write == Weight::Fine
            &&& m.contains_key("window"@) ==> integer_value(m["window"@]) is Some && 1
                <= integer_value(m["window"@])->0 <= 3650
            &&& m.contains_key("min_span"@) ==> integer_value(m["min_span"@]) is Some && 0
                <= integer_value(m["min_span"@])->0
            &&& m.contains_key("depth"@) ==> integer_value(m["depth"@]) is Some && 1
                <= integer_value(m["depth"@])->0 <= 16
            &&& m.contains_key("limit"@) ==> integer_value(m["limit"@]) is Some && 1
                <= integer_value(m["limit"@])->0 <= 1000
        },
{
}

/// Knobs hold what the named values say: a number given is the knob, one that is not
/// given has its default, and a name counts without the white space around it, where
/// anything is left.
pub proof fn law_knobs_are_what_is_given(m: Map<Seq<char>, Seq<char>>, read: Weight, write: Weight)
    requires
        knobs_of(m, read, write) is Ok,
    ensures
        ({
            let k = knobs_of(m, read, write)->Ok_0;
            &&& k.window == if m.contains_key("window"@) {
                integer_value(m["window"@])->0
            } else {
                30
            }
            &&& k.min_span == if m.contains_key("min_span"@) {
                integer_value(m["min_span"@])->0
            } else {
                3
            }
            &&& k.depth == if m.contains_key("depth"@) { integer_value(m["depth"@])->0 } else { 1 }
            &&& k.limit == if m.contains_key("limit"@) { integer_value(m["limit"@])->0 } else { 50 }
            &&& k.w_read == if m.contains_key("w_read"@) { Some(m["w_read"@]) } else { None }
            &&& k.w_write == if m.contains_key("w_write"@) { Some(m["w_write"@]) } else { None }
            &&& k.server is Some <==> m.contains_key("server"@) && trimmed(m["server"@]).len() > 0
            &&& k.server is Some ==> k.server->0 == trimmed(m["server"@])
            &&& k.share is Some <==> m.contains_key("share"@) && trimmed(m["share"@]).len() > 0
            &&& k.share is Some ==> k.share->0 == trimmed(m["share"@])
            &&& k.parent is Some <==> m.contains_key("parent"@) && trimmed(m["parent"@]).len() > 0
            &&& k.parent is Some ==> k.parent->0 == trimmed(m["parent"@])
        }),
{
}

/// What is said of knobs that are refused is true of them.
pub proof fn law_knob_errors(m: Map<Seq<char>, Seq<char>>, read: Weight, write: Weight)
    requires
        knobs_of(m, read, write) is Err,
    ensures
        ({
            let e = knobs_of(m, read, write)->Err_0;
            let no_integer = |name: Seq<char>|
                m.contains_key(name) && integer_value(m[name]) is None;
            let outside = |name: Seq<char>, least: int, most: int|
                m.contains_key(name) && integer_value(m[name]) is Some && !(least <= integer_value(
                    m[name],
                )->0 <= most);
            let numbers = !no_integer("window"@) && !no_integer("min_span"@) && !no_integer(
                "depth"@,
            ) && !no_integer("limit"@);
            let read_text = m.contains_key("w_read"@) && read == Weight::NotANumber;
            let write_text = m.contains_key("w_write"@) && write == Weight::NotANumber;
            if read_text {
                e == "w_read must be a number"@
            } else if write_text {
                e == "w_write must be a number"@
            } else if no_integer("window"@) {
                e == "window must be an integer"@
            } else if no_integer("min_span"@) {
                e == "min_span must be an integer"@
            } else if no_integer("depth"@) {
                e == "depth must be an integer"@
            } else if no_integer("limit"@) {
                e == "limit must be an integer"@
            } else if outside("depth"@, 1, 16) {
                e == "depth must be between 1 and 16"@
            } else if outside("window"@, 1, 3650) {
                e == "window must be between 1 and 3650"@
            } else if (m.contains_key("w_read"@) && read == Weight::Negative) || (m.contains_key(
                "w_write"@,
            ) && write == Weight::Negative) {
                e == "weights must be >= 0"@
            } else if outside("limit"@, 1, 1000) {
                e == "limit must be between 1 and 1000"@
            } else {
                e == "min_span must be >= 0"@ && integer_value(m["min_span"@])->0 < 0
            }
        }),
{
}

// ---- white space ----------------------------------------------------------

proof fn lemma_trimmed_end(s: Seq<char>) -> (n: int)
    ensures
        0 <= n <= s.len(),
        trimmed_end(s) == s.take(n),
        n > 0 ==> !is_space(s[n - 1]),
        forall|i: int| n <= i < s.len() ==> is_space(#[trigger] s[i]),
    decreases s.len(),
{
    if s.len() > 0 && is_space(s.last()) {
        let n = lemma_trimmed_end(s.drop_last());
        assert(s.drop_last().take(n) =~= s.take(n));
        assert forall|i: int| n <= i < s.len() implies is_space(#[trigger] s[i]) by {
            if i < s.len() - 1 {
                assert(s.drop_last()[i] == s[i]);
            }
        }
        n
    } else {
        assert(s.take(s.len() as int) =~= s);
        s.len() as int
    }
}

/// Trimming takes white space away at both ends, all of it, and nothing else: the
/// result is what stands from the first to the last character that is no white space.
pub proof fn law_trimmed(s: Seq<char>, i: int, j: int)
    requires
        0 <= i <= j <= s.len(),
        forall|x: int| 0 <= x < i ==> is_space(#[trigger] s[x]),
        forall|x: int| j <= x < s.len() ==> is_space(#[trigger] s[x]),
        i < j ==> !is_space(s[i]) && !is_space(s[j - 1]),
    ensures
        trimmed(s) == s.subrange(i, j),
    decreases s.len(),
{
    if s.len() > 0 && is_space(s[0]) {
        let t = s.skip(1);
        if i > 0 {
            assert forall|x: int| 0 <= x < i - 1 implies is_space(#[trigger] t[x]) by {
                assert(t[x] == s[x + 1]);
            }
            assert forall|x: int| j - 1 <= x < t.len() implies is_space(#[trigger] t[x]) by {
                assert(t[x] == s[x + 1]);
            }
            law_trimmed(t, i - 1, j - 1);
            assert(t.subrange(i - 1, j - 1) =~= s.subrange(i, j));
        } else {
            assert(i == j);
            assert forall|x: int| 0 <= x < t.len() implies is_space(#[trigger] t[x]) by {
                assert(t[x] == s[x + 1]);
            }
            law_trimmed(t, 0, 0);
            assert(t.subrange(0, 0) =~= s.subrange(i, j));
        }
    } else {
        let n = lemma_trimmed_end(s);
        if s.len() == 0 {
            assert(trimmed(s) =~= s.subrange(i, j));
        } else {
            assert(i == 0) by {
                if i > 0 {
                    assert(is_space(s[0]));
                }
            }
            assert(j > 0) by {
                if j == 0 {
                    assert(is_space(s[0]));
                }
            }
            assert(n == j) by {
                if n < j {
                    assert(is_space(s[j - 1]));
                }
                if j < n {
                    assert(is_space(s[n - 1]));
                }
            }
            assert(s.take(n) =~= s.subrange(i, j));
        }
    }
}

/// The white space of ASCII is the blank and the five controls from the tab to the
/// carriage return; every other white space lies beyond ASCII.
pub proof fn law_white_space(c: char)
    ensures
        c <= '\u{7f}' ==> is_space(c) == (c == ' ' || c == '\t' || c == '\n' || c == '\u{b}' || c
            == '\u{c}' || c == '\r'),
        is_space(c) && c > '\u{7f}' ==> c == '\u{85}' || c == '\u{a0}' || c == '\u{1680}'
            || '\u{2000}' <= c <= '\u{200a}' || c == '\u{2028}' || c == '\u{2029}' || c
            == '\u{202f}' || c == '\u{205f}' || c == '\u{3000}',
        c == '\u{85}' || c == '\u{a0}' || c == '\u{1680}' || '\u{2000}' <= c <= '\u{200a}' || c
            == '\u{2028}' || c == '\u{2029}' || c == '\u{202f}' || c == '\u{205f}' || c
            == '\u{3000}' ==> is_space(c),
{
}

// ---- form encoding --------------------------------------------------------

/// The value of a hexadecimal digit, in either case, and of no other byte.
pub proof fn law_hex_digits(c: u8, d: int)
    ensures
        0 <= d < 10 && c == 48 + d ==> hex_value(c) == Some(d),
        10 <= d < 16 && (c == 55 + d || c == 87 + d) ==> hex_value(c) == Some(d),
        hex_value(c) is Some <==> 48 <= c <= 57 || 65 <= c <= 70 || 97 <= c <= 102,
{
}

/// Decoding goes from front to back: a plus stands for a blank, a percent sign with two
/// hexadecimal digits for the byte that they spell, and everything else, a percent sign
/// without them too, for itself.
pub proof fn law_form_decoding(c: u8, h: u8, l: u8, rest: Seq<u8>)
    ensures
        decoded_bytes(Seq::empty()).len() == 0,
        decoded_bytes(seq![43u8] + rest) == seq![32u8] + decoded_bytes(rest),
        c != 43 && c != 37 ==> decoded_bytes(seq![c] + rest) == seq![c] + decoded_bytes(rest),
        hex_value(h) is Some && hex_value(l) is Some ==> decoded_bytes(seq![37u8, h, l] + rest)
            == seq![(16 * hex_value(h)->0 + hex_value(l)->0) as u8] + decoded_bytes(rest),
        rest.len() < 2 || hex_value(rest[0]) is None || hex_value(rest[1]) is None ==> decoded_bytes(
            seq![37u8] + rest,
        ) == seq![37u8] + decoded_bytes(rest),
{
    assert((seq![43u8] + rest).skip(1) =~= rest);
    assert((seq![c] + rest).skip(1) =~= rest);
    assert((seq![37u8, h, l] + rest).skip(3) =~= rest);
    assert((seq![37u8] + rest).skip(1) =~= rest);
    if rest.len() >= 2 {
        assert((seq![37u8] + rest)[1] == rest[0]);
        assert((seq![37u8] + rest)[2] == rest[1]);
    }
}

/// A text is decoded from its UTF-8 bytes, whatever is not UTF-8 then being replaced.
pub proof fn law_texts_are_decoded(s: Seq<char>)
    ensures
        decoded(s) == utf8_lossy(decoded_bytes(encode_utf8(s))),
{
}

// ---- query strings --------------------------------------------------------

proof fn lemma_split_end(q: Seq<char>, c: char, part: Seq<char>)
    requires
        !part.contains(c),
    ensures
        split(q.push(c) + part, c) == split(q, c).push(part),
    decreases q.len(),
{
    let s = q.push(c) + part;
    lemma_first_at(q, c);
    let i = first_at(q, c);
    if i < q.len() {
        lemma_first_at_is(s, c, i);
        lemma_split_end(q.skip(i + 1), c, part);
        assert(s.take(i) =~= q.take(i));
        assert(s.skip(i + 1) =~= q.skip(i + 1).push(c) + part);
        assert(split(s, c) =~= split(q, c).push(part));
    } else {
        assert(s[i] == c);
        lemma_first_at_is(s, c, i);
        assert(s.take(i) =~= q);
        assert(s.skip(i + 1) =~= part);
        crate::split::lemma_split_whole(part, c);
        assert(split(s, c) =~= split(q, c).push(part));
    }
}

proof fn lemma_one_more_part(q: Seq<char>, part: Seq<char>)
    requires
        !part.contains('&'),
    ensures
        query_values(q.push('&') + part) == if part.len() == 0 {
            query_values(q)
        } else {
            query_values(q).insert(decoded(raw_pair(part).0), decoded(raw_pair(part).1))
        },
{
    lemma_split_end(q, '&', part);
    let parts = split(q, '&');
    assert(parts.push(part).drop_last() =~= parts);
    assert(parts.push(part).last() == part);
    let pairs = part_pairs(parts);
    let pair = (decoded(raw_pair(part).0), decoded(raw_pair(part).1));
    if part.len() > 0 {
        assert(part_pairs(parts.push(part)) == pairs.push(pair));
        assert(pairs.push(pair).drop_last() =~= pairs);
    }
}

/// A query string without parts has no values.
pub proof fn law_no_query_values()
    ensures
        query_values(Seq::empty()) == Map::<Seq<char>, Seq<char>>::empty(),
{
    let none = Seq::<char>::empty();
    crate::split::lemma_split_whole(none, '&');
    assert(split(none, '&') =~= seq![none]);
    assert(seq![none].drop_last() =~= Seq::empty());
    assert(seq![none].last() == none);
    assert(part_pairs(seq![none].drop_last()).len() == 0);
    assert(part_pairs(seq![none]).len() == 0);
}

/// A query string of one part has that part's value.
pub proof fn law_first_query_value(name: Seq<char>, value: Seq<char>)
    requires
        !name.contains('&'),
        !name.contains('='),
        !value.contains('&'),
    ensures
        query_values(name + "="@ + value) == Map::<Seq<char>, Seq<char>>::empty().insert(
            decoded(name),
            decoded(value),
        ),
{
    reveal_strlit("=");
    let part = name + "="@ + value;
    assert(!part.contains('&')) by {
        assert forall|i: int| 0 <= i < part.len() implies #[trigger] part[i] != '&' by {
            if i < name.len() {
                assert(part[i] == name[i]);
            } else if i > name.len() {
                assert(part[i] == value[i - name.len() - 1]);
            }
        }
    }
    assert(part[name.len() as int] == '=');
    assert forall|j: int| 0 <= j < name.len() implies part[j] != '=' by {
        assert(part[j] == name[j]);
    }
    lemma_first_at_is(part, '=', name.len() as int);
    assert(part.take(name.len() as int) =~= name);
    assert(part.skip(1 + name.len() as int) =~= value);
    crate::split::lemma_split_whole(part, '&');
    let parts = seq![part];
    assert(split(part, '&') =~= parts);
    assert(parts.drop_last() =~= Seq::empty());
    assert(parts.last() == part);
    let pair = (decoded(name), decoded(value));
    let none = Seq::<(Seq<char>, Seq<char>)>::empty();
    assert(part_pairs(parts.drop_last()) == none);
    assert(part_pairs(parts) == none.push(pair));
    assert(none.push(pair).drop_last() =~= none);
    assert(none.push(pair).last() == pair);
    assert(crate::pairs::by_name(none) == Map::<Seq<char>, Seq<char>>::empty());
    assert(crate::pairs::by_name(none.push(pair)) == crate::pairs::by_name(none).insert(
        decoded(name),
        decoded(value),
    ));
}

/// A query string's values, a part at a time: a further `name=value` sets the name,
/// whatever it stood for before; a part without `=` sets its name to what nothing
/// decodes to; an empty part changes nothing.
pub proof fn law_query_values(q: Seq<char>, name: Seq<char>, value: Seq<char>)
    requires
        !name.contains('&'),
        !name.contains('='),
        !value.contains('&'),
    ensures
        query_values(q + "&"@ + name + "="@ + value) == query_values(q).insert(
            decoded(name),
            decoded(value),
        ),
        name.len() > 0 ==> query_values(q + "&"@ + name) == query_values(q).insert(
            decoded(name),
            decoded(Seq::empty()),
        ),
        query_values(q + "&"@) == query_values(q),
{
    reveal_strlit("&");
    reveal_strlit("=");
    let part = name + "="@ + value;
    assert(!part.contains('&')) by {
        assert forall|i: int| 0 <= i < part.len() implies #[trigger] part[i] != '&' by {
            if i < name.len() {
                assert(part[i] == name[i]);
            } else if i > name.len() {
                assert(part[i] == value[i - name.len() - 1]);
            }
        }
    }
    assert(part[name.len() as int] == '=');
    assert forall|j: int| 0 <= j < name.len() implies part[j] != '=' by {
        assert(part[j] == name[j]);
    }
    lemma_first_at_is(part, '=', name.len() as int);
    assert(part.take(name.len() as int) =~= name);
    assert(part.skip(1 + name.len() as int) =~= value);
    lemma_one_more_part(q, part);
    assert(q.push('&') + part =~= q + "&"@ + name + "="@ + value);
    lemma_first_at_is(name, '=', name.len() as int);
    lemma_one_more_part(q, name);
    assert(q.push('&') + name =~= q + "&"@ + name);
    let none = Seq::<char>::empty();
    lemma_one_more_part(q, none);
    assert(q.push('&') + none =~= q + "&"@);
}

} // verus!
