//! Cutting strings at an ASCII character.

use vstd::prelude::*;
use vstd::string::*;
use vstd::utf8::*;

verus! {

/// Where `c` first stands in `s`; the length of `s` where it does not.
pub open spec fn first_at(s: Seq<char>, c: char) -> int
    decreases s.len(),
{
    if s.len() == 0 || s[0] == c {
        0
    } else {
        1 + first_at(s.drop_first(), c)
    }
}

/// What first_at says.
pub proof fn lemma_first_at(s: Seq<char>, c: char)
    ensures
        0 <= first_at(s, c) <= s.len(),
        first_at(s, c) < s.len() ==> s[first_at(s, c)] == c,
        forall|i: int| 0 <= i < first_at(s, c) ==> s[i] != c,
    decreases s.len(),
{
    if s.len() > 0 && s[0] != c {
        let t = s.drop_first();
        lemma_first_at(t, c);
        assert forall|i: int| 0 <= i < first_at(s, c) implies s[i] != c by {
            if i > 0 {
                assert(s[i] == t[i - 1]);
            }
        }
    }
}

/// A place before which `c` does not stand is the first one.
pub proof fn lemma_first_at_is(s: Seq<char>, c: char, i: int)
    requires
        0 <= i <= s.len(),
        i < s.len() ==> s[i] == c,
        forall|j: int| 0 <= j < i ==> s[j] != c,
    ensures
        first_at(s, c) == i,
{
    lemma_first_at(s, c);
    let f = first_at(s, c);
    if f < i {
        assert(s[f] != c);
    }
}

/// The pieces of `s` between the occurrences of `c`.
pub open spec fn split(s: Seq<char>, c: char) -> Seq<Seq<char>>
    decreases s.len(),
{
    proof {
        lemma_first_at(s, c);
    }
    let i = first_at(s, c);
    if i == s.len() {
        seq![s]
    } else {
        seq![s.take(i)] + split(s.skip(i + 1), c)
    }
}

/// A text without `c`, then `c`, then the rest: the first piece is that text.
pub proof fn lemma_split_piece(a: Seq<char>, c: char, b: Seq<char>)
    requires
        !a.contains(c),
    ensures
        split(a.push(c) + b, c) == seq![a] + split(b, c),
{
    let s = a.push(c) + b;
    let i = a.len() as int;
    assert forall|j: int| 0 <= j < i implies s[j] != c by {
        assert(s[j] == a[j]);
        assert(a.contains(a[j]));
    }
    assert(s[i] == c);
    lemma_first_at_is(s, c, i);
    assert(s.take(i) =~= a);
    assert(s.skip(i + 1) =~= b);
}

/// A text without `c` is one piece.
pub proof fn lemma_split_whole(a: Seq<char>, c: char)
    requires
        !a.contains(c),
    ensures
        split(a, c) == seq![a],
{
    assert forall|j: int| 0 <= j < a.len() implies a[j] != c by {
        assert(a.contains(a[j]));
    }
    lemma_first_at_is(a, c, a.len() as int);
}

/// There is always a piece.
pub proof fn lemma_split_not_empty(s: Seq<char>, c: char)
    ensures
        split(s, c).len() > 0,
{
    lemma_first_at(s, c);
}

proof fn lemma_encoding_holds_ascii(s: Seq<char>, i: int, c: char)
    requires
        0 <= i < s.len(),
        s[i] == c,
        c as u32 <= 0x7f,
    ensures
        encode_utf8(s).contains(c as u8),
    decreases s.len(),
{
    let rest = s.drop_first();
    let head = encode_scalar(s[0] as u32);
    if i == 0 {
        let one = seq![c];
        assert(is_ascii_chars(one));
        is_ascii_chars_encode_utf8(one);
        assert(encode_utf8(one)[0] == c as u8);
        assert(encode_utf8(one.drop_first()) =~= seq![]);
        assert(encode_utf8(one) =~= head);
        assert(encode_utf8(s)[0] == c as u8);
    } else {
        lemma_encoding_holds_ascii(rest, i - 1, c);
        let k = choose|k: int| 0 <= k < encode_utf8(rest).len() && encode_utf8(rest)[k] == c as u8;
        assert(encode_utf8(s)[head.len() + k] == c as u8);
    }
}

proof fn lemma_one_ascii(bytes: Seq<u8>, s: Seq<char>, c: char)
    requires
        c as u32 <= 0x7f,
        bytes == seq![c as u8],
        bytes == encode_utf8(s),
    ensures
        s == seq![c],
{
    let one = seq![c];
    assert(is_ascii_chars(one));
    is_ascii_chars_encode_utf8(one);
    assert(encode_utf8(one) =~= bytes);
    encode_utf8_decode_utf8(one);
    encode_utf8_decode_utf8(s);
}

/// Cut `s` before the byte at `k`, an ASCII character.
pub fn cut_before_ascii<'a>(s: &'a str, k: usize) -> (r: (&'a str, &'a str))
    requires
        k < encode_utf8(s@).len(),
        encode_utf8(s@)[k as int] <= 0x7f,
    ensures
        s@ == r.0@ + r.1@,
        encode_utf8(r.0@) == encode_utf8(s@).subrange(0, k as int),
        encode_utf8(r.1@) == encode_utf8(s@).subrange(k as int, encode_utf8(s@).len() as int),
        r.1@.len() > 0,
        r.1@[0] == encode_utf8(s@)[k as int] as char,
{
    let ghost bytes = encode_utf8(s@);
    proof {
        encode_utf8_valid_utf8(s@);
        encode_utf8_decode_utf8(s@);
        assert(!is_continuation_byte(bytes[k as int]));
        is_char_boundary_iff_not_is_continuation_byte(bytes, k as int);
    }
    let (a, b) = s.split_at(k);
    proof {
        decode_utf8_split(bytes, k as int);
        encode_utf8_decode_utf8(a@);
        encode_utf8_decode_utf8(b@);
        lemma_first_ascii(b@);
    }
    (a, b)
}

proof fn lemma_first_ascii(s: Seq<char>)
    requires
        encode_utf8(s).len() > 0,
        encode_utf8(s)[0] <= 0x7f,
    ensures
        s.len() > 0,
        s[0] == encode_utf8(s)[0] as char,
{
    let bytes = encode_utf8(s);
    encode_utf8_valid_utf8(s);
    encode_utf8_decode_utf8(s);
    let c = bytes[0] as char;
    let b0 = bytes[0];
    assert(b0 & 0x7f == b0) by (bit_vector)
        requires
            b0 <= 0x7f,
    ;
    assert(decode_utf8(bytes)[0] == c);
}

/// Cut `s` at the first `c`.
pub fn split_once<'a>(s: &'a str, c: char) -> (r: Option<(&'a str, &'a str)>)
    requires
        c as u32 <= 0x7f,
    ensures
        match r {
            Some((a, b)) => {
                &&& first_at(s@, c) < s@.len()
                &&& a@ == s@.take(first_at(s@, c))
                &&& b@ == s@.skip(first_at(s@, c) + 1)
            },
            None => first_at(s@, c) == s@.len(),
        },
{
    let bytes = s.as_bytes();
    let target: u8 = c as u8;
    let mut i: usize = 0;
    while i < bytes.len()
        invariant
            i <= bytes@.len(),
            bytes@ == encode_utf8(s@),
            target == c as u8,
            c as u32 <= 0x7f,
            forall|j: int| 0 <= j < i ==> bytes@[j] != target,
        decreases bytes@.len() - i,
    {
        if bytes[i] == target {
            let (a, rest) = cut_before_ascii(s, i);
            proof {
                encode_utf8_valid_utf8(rest@);
                let rb = encode_utf8(rest@);
                assert(rb[0] == target);
                lemma_after_ascii(rb);
            }
            let (mid, b) = rest.split_at(1);
            proof {
                let rb = encode_utf8(rest@);
                encode_utf8_decode_utf8(rest@);
                decode_utf8_split(rb, 1);
                encode_utf8_decode_utf8(mid@);
                encode_utf8_decode_utf8(b@);
                assert(encode_utf8(mid@) =~= seq![target]);
                lemma_one_ascii(encode_utf8(mid@), mid@, c);
                assert(s@ == a@ + (mid@ + b@));
                let at = a@.len() as int;
                assert forall|j: int| 0 <= j < at implies s@[j] != c by {
                    assert(s@[j] == a@[j]);
                    if a@[j] == c {
                        lemma_encoding_holds_ascii(a@, j, c);
                        let k = choose|k: int|
                            0 <= k < encode_utf8(a@).len() && encode_utf8(a@)[k] == c as u8;
                        assert(bytes@[k] == target);
                    }
                }
                assert(s@[at] == c);
                lemma_first_at_is(s@, c, at);
                assert(a@ =~= s@.take(at));
                assert(b@ =~= s@.skip(at + 1));
            }
            return Some((a, b));
        }
        i = i + 1;
    }
    proof {
        lemma_first_at(s@, c);
        let f = first_at(s@, c);
        if f < s@.len() {
            lemma_encoding_holds_ascii(s@, f, c);
            let k = choose|k: int| 0 <= k < bytes@.len() && bytes@[k] == c as u8;
            assert(bytes@[k] != target);
        }
    }
    None
}

proof fn lemma_after_ascii(bytes: Seq<u8>)
    requires
        valid_utf8(bytes),
        bytes.len() > 0,
        bytes[0] <= 0x7f,
    ensures
        is_char_boundary(bytes, 1),
{
    reveal_with_fuel(is_char_boundary, 2);
    assert(length_of_first_scalar(bytes) == 1);
}

/// Cut `s` before its last sign, a `+` or a `-`.
pub fn rsplit_sign<'a>(s: &'a str) -> (r: Option<(&'a str, &'a str)>)
    ensures
        match r {
            Some((a, b)) => {
                &&& s@ == a@ + b@
                &&& b@.len() > 0
                &&& is_sign(b@[0])
                &&& forall|i: int| 0 < i < b@.len() ==> !is_sign(#[trigger] b@[i])
            },
            None => forall|i: int| 0 <= i < s@.len() ==> !is_sign(#[trigger] s@[i]),
        },
{
    let bytes = s.as_bytes();
    let mut i: usize = bytes.len();
    while i > 0
        invariant
            i <= bytes@.len(),
            bytes@ == encode_utf8(s@),
            forall|j: int| i <= j < bytes@.len() ==> bytes@[j] != 43 && bytes@[j] != 45,
        decreases i,
    {
        i = i - 1;
        if bytes[i] == 43 || bytes[i] == 45 {
            let (a, b) = cut_before_ascii(s, i);
            proof {
                let rb = encode_utf8(b@);
                assert forall|j: int| 0 < j < b@.len() implies !is_sign(#[trigger] b@[j]) by {
                    if is_sign(b@[j]) {
                        lemma_sign_not_first(b@, j);
                        let k = choose|k: int| 0 < k < rb.len() && (rb[k] == 43 || rb[k] == 45);
                        assert(bytes@[i + k] == rb[k]);
                    }
                }
            }
            return Some((a, b));
        }
    }
    proof {
        assert forall|j: int| 0 <= j < s@.len() implies !is_sign(#[trigger] s@[j]) by {
            if is_sign(s@[j]) {
                lemma_encoding_holds_ascii(s@, j, s@[j]);
                let k = choose|k: int| 0 <= k < bytes@.len() && bytes@[k] == s@[j] as u8;
                assert(bytes@[k] != 43);
            }
        }
    }
    None
}

/// A sign.
pub open spec fn is_sign(c: char) -> bool {
    c == '+' || c == '-'
}

proof fn lemma_sign_not_first(s: Seq<char>, j: int)
    requires
        0 < j < s.len(),
        is_sign(s[j]),
    ensures
        exists|k: int|
            0 < k < encode_utf8(s).len() && (encode_utf8(s)[k] == 43 || encode_utf8(s)[k] == 45),
{
    let rest = s.drop_first();
    let head = encode_scalar(s[0] as u32);
    assert(head.len() > 0);
    lemma_encoding_holds_ascii(rest, j - 1, s[j]);
    let k = choose|k: int| 0 <= k < encode_utf8(rest).len() && encode_utf8(rest)[k] == s[j] as u8;
    assert(encode_utf8(s)[head.len() + k] == s[j] as u8);
}

/// The values of string slices.
pub open spec fn texts(v: Seq<&str>) -> Seq<Seq<char>> {
    v.map_values(|s: &str| s@)
}

/// Cut `s` at every `c`.
pub fn split_all<'a>(s: &'a str, c: char) -> (r: Vec<&'a str>)
    requires
        c as u32 <= 0x7f,
    ensures
        texts(r@) == split(s@, c),
{
    let mut out: Vec<&'a str> = Vec::new();
    let mut rest: &'a str = s;
    assert(texts(out@) + split(rest@, c) =~= split(s@, c));
    loop
        invariant
            c as u32 <= 0x7f,
            texts(out@) + split(rest@, c) == split(s@, c),
        decreases rest@.len(),
    {
        proof {
            lemma_first_at(rest@, c);
        }
        match split_once(rest, c) {
            Some((a, b)) => {
                let ghost before = out@;
                out.push(a);
                assert(texts(out@) =~= texts(before).push(a@));
                assert(texts(out@) + split(b@, c) =~= texts(before) + (seq![a@] + split(b@, c)));
                rest = b;
            },
            None => {
                let ghost before = out@;
                out.push(rest);
                assert(texts(out@) =~= texts(before) + seq![rest@]);
                return out;
            },
        }
    }
}

} // verus!
