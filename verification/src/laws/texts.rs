//! Numbers, texts and dates as they are written and ordered.

use crate::clock::{
    date_of, date_time_text, day_number, fraction_text, is_date_of, law_date_is_unique,
    law_next_day, month_len,
};
use crate::events::{bytes_hex, groups_text, ipv4_text, ipv6_group, ipv6_text, longest_run};
use crate::events::{socket_address_text, zero_run};
use crate::text::{
    bytes_le, dec, dec_int, dec_zeros, digit, hex, hex_digit, hex_short, pad_left,
    text_le,
};
use vstd::prelude::*;
use vstd::utf8::encode_utf8;

verus! {

// ---- numbers --------------------------------------------------------------

/// Decimal digits: one for a number below ten, and one more for each factor of ten, the
/// last being the remainder. A negative number has a minus sign before it.
pub proof fn law_decimal(n: nat, d: nat)
    requires
        d < 10,
    ensures
        dec(d).len() == 1 && dec(d)[0] as int == 48 + d,
        n > 0 ==> dec(10 * n + d).drop_last() == dec(n),
        n > 0 ==> dec(10 * n + d).last() as int == 48 + d,
        dec_int(n as int) == dec(n),
        n > 0 ==> dec_int(-n) == seq!['-'] + dec(n),
{
    lemma_digit(d);
    if n > 0 {
        let m = 10 * n + d;
        assert(m / 10 == n && m % 10 == d);
        assert(dec(m).drop_last() =~= dec(n));
    }
}

proof fn lemma_digit(d: nat)
    requires
        d < 10,
    ensures
        digit(d) as int == 48 + d,
{
}

/// Hexadecimal digits: the last one is the remainder by sixteen, in upper or lower case,
/// and the ones before it are those of the quotient.
pub proof fn law_hexadecimal(n: nat, width: nat, upper: bool)
    ensures
        hex(n, width, upper).len() == width,
        width > 0 ==> hex(n, width, upper).drop_last() == hex(n / 16, (width - 1) as nat, upper),
        width > 0 ==> hex(n, width, upper).last() as int == if n % 16 < 10 {
            48 + n % 16
        } else if upper {
            55 + n % 16
        } else {
            87 + n % 16
        },
    decreases width,
{
    if width > 0 {
        law_hexadecimal(n / 16, (width - 1) as nat, upper);
        lemma_hex_digit(n % 16, upper);
        assert(hex(n, width, upper).drop_last() =~= hex(n / 16, (width - 1) as nat, upper));
    }
}

proof fn lemma_hex_digit(d: nat, upper: bool)
    requires
        d < 16,
    ensures
        hex_digit(d, upper) as int == if d < 10 {
            48 + d
        } else if upper {
            55 + d
        } else {
            87 + d
        },
{
}

/// A padded text ends in the text, is at least as wide as asked for, and holds nothing
/// but the padding before; one that is wide enough is itself.
pub proof fn law_padding(s: Seq<char>, c: char, width: nat)
    ensures
        ({
            let p = pad_left(s, c, width);
            let n = p.len() - s.len();
            &&& p.len() == if s.len() >= width { s.len() } else { width }
            &&& p.skip(n) == s
            &&& forall|i: int| 0 <= i < n ==> #[trigger] p[i] == c
        }),
{
    let p = pad_left(s, c, width);
    assert(p.skip(p.len() - s.len()) =~= s);
}

/// A number filled up with zeros is its decimal text behind zeros, the sign before them
/// and counted.
pub proof fn law_zero_filled(n: nat, width: nat)
    ensures
        dec_zeros(n as int, width) == pad_left(dec(n), '0', width),
        n > 0 && width > 0 ==> dec_zeros(-n, width) == seq!['-'] + pad_left(
            dec(n),
            '0',
            (width - 1) as nat,
        ),
{
}

// ---- order ----------------------------------------------------------------

proof fn lemma_bytes_front(p: Seq<u8>, a: Seq<u8>, b: Seq<u8>)
    ensures
        bytes_le(p + a, p + b) == bytes_le(a, b),
    decreases p.len(),
{
    if p.len() == 0 {
        assert(p + a =~= a);
        assert(p + b =~= b);
    } else {
        let q = p.drop_first();
        lemma_bytes_front(q, a, b);
        assert((p + a).drop_first() =~= q + a);
        assert((p + b).drop_first() =~= q + b);
        assert((p + a)[0] == p[0] && (p + b)[0] == p[0]);
    }
}

/// Texts are ordered by their UTF-8 bytes: by the first that differ, and where none do
/// the shorter comes first.
pub proof fn law_text_order(s: Seq<char>, t: Seq<char>, k: int)
    requires
        0 <= k <= encode_utf8(s).len(),
        k <= encode_utf8(t).len(),
        encode_utf8(s).take(k) == encode_utf8(t).take(k),
    ensures
        ({
            let (a, b) = (encode_utf8(s), encode_utf8(t));
            &&& k < a.len() && k < b.len() && a[k] != b[k] ==> text_le(s, t) == (a[k] < b[k])
            &&& k == a.len() ==> text_le(s, t)
            &&& k == b.len() && k < a.len() ==> !text_le(s, t)
        }),
{
    let (a, b) = (encode_utf8(s), encode_utf8(t));
    let p = a.take(k);
    assert(a =~= p + a.skip(k));
    assert(b =~= p + b.skip(k));
    lemma_bytes_front(p, a.skip(k), b.skip(k));
}

// ---- dates ----------------------------------------------------------------

/// The days are counted from 1970-01-01, and the next day is the next date: February has
/// 29 days in the years that four divides, but for those that a hundred divides and four
/// hundred does not, and else 28; April, June, September and November have 30, the other
/// months 31.
pub proof fn law_calendar(y: int, m: int, d: int)
    requires
        1 <= m <= 12,
        1 <= d <= if m == 2 {
            if y % 4 == 0 && (y % 100 != 0 || y % 400 == 0) {
                29int
            } else {
                28
            }
        } else if m == 4 || m == 6 || m == 9 || m == 11 {
            30
        } else {
            31
        },
    ensures
        day_number(1970, 1, 1) == 0,
        date_of(day_number(y, m, d)) == (y, m, d),
        ({
            let last = if m == 2 {
                if y % 4 == 0 && (y % 100 != 0 || y % 400 == 0) {
                    29int
                } else {
                    28
                }
            } else if m == 4 || m == 6 || m == 9 || m == 11 {
                30
            } else {
                31
            };
            let next = if d < last {
                (y, m, d + 1)
            } else if m < 12 {
                (y, m + 1, 1)
            } else {
                (y + 1, 1, 1)
            };
            &&& day_number(next.0, next.1, next.2) == day_number(y, m, d) + 1
            &&& date_of(day_number(y, m, d) + 1) == next
        }),
{
    law_next_day(y, m, d);
    let here = day_number(y, m, d);
    assert(is_date_of((y, m, d), here));
    law_date_is_unique(here, (y, m, d), date_of(here));
    let next = if d < month_len(y, m) {
        (y, m, d + 1)
    } else if m < 12 {
        (y, m + 1, 1)
    } else {
        (y + 1, 1, 1)
    };
    assert(is_date_of(next, here + 1));
    law_date_is_unique(here + 1, next, date_of(here + 1));
}

/// An instant is written as its date and its time of day, in two digits each but for the
/// year's four.
pub proof fn law_date_time(y: int, m: int, d: int, hour: int, minute: int, second: int)
    requires
        date_of(day_number(y, m, d)) == (y, m, d),
        0 <= hour < 24,
        0 <= minute < 60,
        0 <= second < 60,
    ensures
        date_time_text(86_400 * day_number(y, m, d) + 3600 * hour + 60 * minute + second)
            == dec_zeros(y, 4) + "-"@ + dec_zeros(m, 2) + "-"@ + dec_zeros(d, 2) + "T"@ + dec_zeros(
            hour,
            2,
        ) + ":"@ + dec_zeros(minute, 2) + ":"@ + dec_zeros(second, 2),
{
    let day = day_number(y, m, d);
    let sod = 3600 * hour + 60 * minute + second;
    let secs = 86_400 * day + sod;
    assert(0 <= sod < 86_400);
    assert(secs / 86_400 == day && secs % 86_400 == sod);
    assert(sod / 3600 == hour && sod % 3600 == 60 * minute + second);
    assert((sod % 3600) / 60 == minute && sod % 60 == second);
}

/// A fraction of a second is written in milliseconds, microseconds or nanoseconds,
/// whichever is the first to be exact, and not at all if there is none.
pub proof fn law_fractions(n: int)
    requires
        0 < n < 1000,
    ensures
        fraction_text(0).len() == 0,
        fraction_text(1_000_000 * n) == "."@ + dec_zeros(n, 3),
        forall|k: int|
            #![trigger fraction_text(1_000_000 * k + 1_000 * n)]
            0 <= k < 1000 ==> fraction_text(1_000_000 * k + 1_000 * n) == "."@ + dec_zeros(
                1_000 * k + n,
                6,
            ),
        forall|k: int|
            #![trigger fraction_text(1_000 * k + n)]
            0 <= k < 1_000_000 ==> fraction_text(1_000 * k + n) == "."@ + dec_zeros(
                1_000 * k + n,
                9,
            ),
{
}

// ---- addresses ------------------------------------------------------------

/// A socket address of family 2 shows its four address bytes in decimal, and its port
/// not at all; one of family 23 shows the address behind the flow label; any other is
/// shown byte by byte.
pub proof fn law_socket_addresses(b: Seq<u8>)
    ensures
        b.len() >= 8 && b[0] == 2 && b[1] == 0 ==> socket_address_text(b) == dec(b[4] as nat).push(
            '.',
        ) + dec(b[5] as nat).push('.') + dec(b[6] as nat).push('.') + dec(b[7] as nat),
        b.len() >= 24 && b[0] == 23 && b[1] == 0 ==> socket_address_text(b) == ipv6_text(
            b.subrange(8, 24),
        ),
        b.len() < 8 || b[1] != 0 || (b[0] != 2 && (b[0] != 23 || b.len() < 24))
            ==> socket_address_text(b) == bytes_hex(b, false),
{
}

/// Bytes in hexadecimal, two digits each.
pub proof fn law_bytes_in_hex(b: Seq<u8>, x: u8, upper: bool)
    ensures
        bytes_hex(Seq::empty(), upper).len() == 0,
        bytes_hex(b.push(x), upper) == bytes_hex(b, upper).push(
            hex_digit((x / 16) as nat, upper),
        ).push(hex_digit((x % 16) as nat, upper)),
{
    reveal_with_fuel(hex, 3);
    assert(b.push(x).drop_last() =~= b);
    assert((x as nat / 16) % 16 == x as nat / 16);
    assert(hex(x as nat, 2, upper) =~= seq![
        hex_digit((x / 16) as nat, upper),
        hex_digit((x % 16) as nat, upper),
    ]);
    assert(bytes_hex(b.push(x), upper) =~= bytes_hex(b, upper).push(
        hex_digit((x / 16) as nat, upper),
    ).push(hex_digit((x % 16) as nat, upper)));
}

proof fn lemma_zero_run(a: Seq<u8>, i: int)
    requires
        0 <= i <= 8,
    ensures
        i + zero_run(a, i) <= 8,
        forall|j: int| i <= j < i + zero_run(a, i) ==> #[trigger] ipv6_group(a, j) == 0,
        i + zero_run(a, i) < 8 ==> ipv6_group(a, i + zero_run(a, i)) != 0,
    decreases 8 - i,
{
    if i < 8 && ipv6_group(a, i) == 0 {
        lemma_zero_run(a, i + 1);
    }
}

proof fn lemma_longest_run(a: Seq<u8>, n: int)
    requires
        1 <= n <= 8,
    ensures
        0 <= longest_run(a, n) < n,
        forall|j: int| 0 <= j < n ==> #[trigger] zero_run(a, j) <= zero_run(a, longest_run(a, n)),
        forall|j: int|
            0 <= j < longest_run(a, n) ==> #[trigger] zero_run(a, j) < zero_run(
                a,
                longest_run(a, n),
            ),
    decreases n,
{
    if n > 1 {
        lemma_longest_run(a, n - 1);
        let best = longest_run(a, n - 1);
        assert(zero_run(a, best) <= zero_run(a, best));
    }
}

/// An IPv6 address: eight groups of two bytes in hexadecimal between colons, `::` in
/// place of the first of its longest runs of zero groups if that has two or more, and
/// for a mapped IPv4 address the dotted form behind `::ffff:`.
pub proof fn law_ipv6_addresses(a: Seq<u8>) -> (run: (int, int))
    requires
        a.len() == 16,
    ensures
        0 <= run.0 <= run.1 <= 8,
        forall|j: int|
            run.0 <= j < run.1 ==> #[trigger] (a[2 * j] as int * 256 + a[2 * j + 1]) == 0,
        run.1 < 8 ==> a[2 * run.1] as int * 256 + a[2 * run.1 + 1] != 0,
        forall|j: int| 0 <= j < 8 ==> #[trigger] zero_run(a, j) <= run.1 - run.0,
        forall|j: int| 0 <= j < run.0 ==> #[trigger] zero_run(a, j) < run.1 - run.0,
        ({
            let mapped = (forall|i: int| 0 <= i < 10 ==> #[trigger] a[i] == 0) && a[10] == 255
                && a[11] == 255;
            if mapped {
                ipv6_text(a) == "::ffff:"@ + ipv4_text(a.skip(12))
            } else if run.1 - run.0 >= 2 {
                ipv6_text(a) == groups_text(a, 0, run.0) + "::"@ + groups_text(a, run.1, 8)
            } else {
                ipv6_text(a) == groups_text(a, 0, 8)
            }
        }),
{
    lemma_longest_run(a, 8);
    let start = longest_run(a, 8);
    lemma_zero_run(a, start);
    let run = (start, start + zero_run(a, start));
    assert forall|j: int| run.0 <= j < run.1 implies #[trigger] (a[2 * j] as int * 256 + a[2 * j
        + 1]) == 0 by {
        assert(ipv6_group(a, j) == 0);
    }
    run
}

/// How many groups from one on are zero.
pub proof fn law_zero_runs(a: Seq<u8>, i: int)
    requires
        a.len() == 16,
        0 <= i < 8,
    ensures
        a[2 * i] == 0 && a[2 * i + 1] == 0 ==> zero_run(a, i) == 1 + zero_run(a, i + 1),
        a[2 * i] != 0 || a[2 * i + 1] != 0 ==> zero_run(a, i) == 0,
        zero_run(a, 8) == 0,
{
}

/// Groups between colons, each in hexadecimal without leading zeros.
pub proof fn law_groups(a: Seq<u8>, from: int, to: int)
    requires
        from < to,
    ensures
        groups_text(a, from, from).len() == 0,
        groups_text(a, from, from + 1) == hex_short((a[2 * from] * 256 + a[2 * from + 1]) as nat),
        groups_text(a, from, to + 1) == groups_text(a, from, to).push(':') + hex_short(
            (a[2 * to] * 256 + a[2 * to + 1]) as nat,
        ),
{
}

/// Hexadecimal without leading zeros: the digits of the quotient, and the remainder.
pub proof fn law_short_hexadecimal(n: nat, d: nat)
    requires
        d < 16,
    ensures
        hex_short(d) == seq![hex_digit(d, false)],
        n > 0 ==> hex_short(16 * n + d) == hex_short(n).push(hex_digit(d, false)),
        hex_digit(d, false) as int == if d < 10 { 48 + d } else { 87 + d },
{
    lemma_hex_digit(d, false);
    assert((16 * n + d) / 16 == n && (16 * n + d) % 16 == d);
}

} // verus!
