//! Human-readable rendering of byte counts, counts and timestamps.

use vstd::prelude::*;
use crate::calendar::{calendar_date, date_of_day, is_calendar_date, lemma_calendar_date_exists, lemma_calendar_date_order, lemma_four_digit_years};
use crate::text::{
    digit_char, decimal, zero_padded, push_decimal, push_zero_padded, chars_to_string, pow10, text_lt, text_le,
    lemma_text_lt_within, lemma_zero_padded_len, lemma_zero_padded_order,
};

verus! {

/// `n` in decimal with a comma between each group of three digits,
/// counting from the right (`1234567` reads `1,234,567`).
pub open spec fn thousands(n: nat) -> Seq<char>
    decreases n,
{
    if n < 1000 {
        decimal(n)
    } else {
        thousands(n / 1000) + seq![','] + zero_padded(n % 1000, 3)
    }
}

fn push_thousands(out: &mut Vec<char>, n: u64)
    ensures
        final(out)@ == old(out)@ + thousands(n as nat),
    decreases n,
{
    if n < 1000 {
        push_decimal(out, n);
    } else {
        push_thousands(out, n / 1000);
        out.push(',');
        push_zero_padded(out, n % 1000, 3);
        proof {
            assert(final(out)@ =~= old(out)@ + thousands(n as nat));
        }
    }
}

/// Formats a count with thousands separators.
pub fn format_number(num: u64) -> (s: String)
    ensures
        s@ == thousands(num as nat),
{
    let mut out: Vec<char> = Vec::new();
    push_thousands(&mut out, num);
    proof {
        assert(out@ =~= thousands(num as nat));
    }
    chars_to_string(out)
}

/// The text shown for an unknown modification time.
pub open spec fn unknown_date_text() -> Seq<char> {
    seq!['U', 'n', 'k', 'n', 'o', 'w', 'n']
}

/// `YYYY-MM-DD HH:MM` for a year, month, day, hour and minute.
pub open spec fn stamp_text(y: nat, mo: nat, d: nat, h: nat, mi: nat) -> Seq<char> {
    zero_padded(y, 4) + seq!['-'] + zero_padded(mo, 2) + seq!['-'] + zero_padded(d, 2) + seq![' '] + zero_padded(h, 2)
        + seq![':'] + zero_padded(mi, 2)
}

/// `YYYY-MM-DD HH:MM` (UTC) for a Unix timestamp in seconds, or `Unknown`
/// for the timestamp 0.
pub open spec fn date_text(timestamp: nat) -> Seq<char> {
    if timestamp == 0 {
        unknown_date_text()
    } else {
        let date = calendar_date(timestamp / 86400);
        stamp_text(date.0, date.1, date.2, (timestamp % 86400) / 3600, (timestamp % 3600) / 60)
    }
}

/// Formats a Unix timestamp (seconds) as a UTC date and time to the minute.
pub fn format_date(timestamp: u64) -> (s: String)
    ensures
        s@ == date_text(timestamp as nat),
{
    let mut out: Vec<char> = Vec::new();
    if timestamp == 0 {
        out.push('U');
        out.push('n');
        out.push('k');
        out.push('n');
        out.push('o');
        out.push('w');
        out.push('n');
        proof {
            assert(out@ =~= unknown_date_text());
        }
        return chars_to_string(out);
    }
    let days = timestamp / 86400;
    let hours = (timestamp % 86400) / 3600;
    let minutes = (timestamp % 3600) / 60;
    let (year, month, day) = date_of_day(days);
    push_zero_padded(&mut out, year, 4);
    out.push('-');
    push_zero_padded(&mut out, month, 2);
    out.push('-');
    push_zero_padded(&mut out, day, 2);
    out.push(' ');
    push_zero_padded(&mut out, hours, 2);
    out.push(':');
    push_zero_padded(&mut out, minutes, 2);
    proof {
        assert(out@ =~= date_text(timestamp as nat));
    }
    chars_to_string(out)
}

/// An earlier (year, month, day, hour, minute), each field within its
/// width, gives an earlier text.
proof fn lemma_stamp_text_order(y1: nat, mo1: nat, d1: nat, h1: nat, mi1: nat, y2: nat, mo2: nat, d2: nat, h2: nat, mi2: nat)
    requires
        y1 < 10000 && y2 < 10000,
        mo1 < 100 && mo2 < 100 && d1 < 100 && d2 < 100 && h1 < 100 && h2 < 100 && mi1 < 100 && mi2 < 100,
        y1 < y2 || (y1 == y2 && (mo1 < mo2 || (mo1 == mo2 && (d1 < d2 || (d1 == d2 && (h1 < h2 || (h1 == h2
            && mi1 < mi2))))))),
    ensures
        text_lt(stamp_text(y1, mo1, d1, h1, mi1), stamp_text(y2, mo2, d2, h2, mi2)),
{
    reveal_with_fuel(pow10, 5);
    assert(pow10(4) == 10000 && pow10(2) == 100);
    lemma_zero_padded_len(y1, 4);
    lemma_zero_padded_len(y2, 4);
    lemma_zero_padded_len(mo1, 2);
    lemma_zero_padded_len(mo2, 2);
    lemma_zero_padded_len(d1, 2);
    lemma_zero_padded_len(d2, 2);
    lemma_zero_padded_len(h1, 2);
    lemma_zero_padded_len(h2, 2);
    lemma_zero_padded_len(mi1, 2);
    lemma_zero_padded_len(mi2, 2);
    let (zy1, zy2) = (zero_padded(y1, 4), zero_padded(y2, 4));
    let (zm1, zm2) = (zero_padded(mo1, 2), zero_padded(mo2, 2));
    let (zd1, zd2) = (zero_padded(d1, 2), zero_padded(d2, 2));
    let (zh1, zh2) = (zero_padded(h1, 2), zero_padded(h2, 2));
    let (zi1, zi2) = (zero_padded(mi1, 2), zero_padded(mi2, 2));
    let a = stamp_text(y1, mo1, d1, h1, mi1);
    let b = stamp_text(y2, mo2, d2, h2, mi2);
    let e = Seq::<char>::empty();
    if y1 < y2 {
        lemma_zero_padded_order(y1, y2, 4);
        let p1 = seq!['-'] + zm1 + seq!['-'] + zd1 + seq![' '] + zh1 + seq![':'] + zi1;
        let p2 = seq!['-'] + zm2 + seq!['-'] + zd2 + seq![' '] + zh2 + seq![':'] + zi2;
        lemma_text_lt_within(e, zy1, zy2, p1, p2);
        assert(e + zy1 + p1 =~= a);
        assert(e + zy2 + p2 =~= b);
    } else if mo1 < mo2 {
        lemma_zero_padded_order(mo1, mo2, 2);
        let pre = zy1 + seq!['-'];
        let p1 = seq!['-'] + zd1 + seq![' '] + zh1 + seq![':'] + zi1;
        let p2 = seq!['-'] + zd2 + seq![' '] + zh2 + seq![':'] + zi2;
        lemma_text_lt_within(pre, zm1, zm2, p1, p2);
        assert(pre + zm1 + p1 =~= a);
        assert(pre + zm2 + p2 =~= b);
    } else if d1 < d2 {
        lemma_zero_padded_order(d1, d2, 2);
        let pre = zy1 + seq!['-'] + zm1 + seq!['-'];
        let p1 = seq![' '] + zh1 + seq![':'] + zi1;
        let p2 = seq![' '] + zh2 + seq![':'] + zi2;
        lemma_text_lt_within(pre, zd1, zd2, p1, p2);
        assert(pre + zd1 + p1 =~= a);
        assert(pre + zd2 + p2 =~= b);
    } else if h1 < h2 {
        lemma_zero_padded_order(h1, h2, 2);
        let pre = zy1 + seq!['-'] + zm1 + seq!['-'] + zd1 + seq![' '];
        let p1 = seq![':'] + zi1;
        let p2 = seq![':'] + zi2;
        lemma_text_lt_within(pre, zh1, zh2, p1, p2);
        assert(pre + zh1 + p1 =~= a);
        assert(pre + zh2 + p2 =~= b);
    } else {
        lemma_zero_padded_order(mi1, mi2, 2);
        let pre = zy1 + seq!['-'] + zm1 + seq!['-'] + zd1 + seq![' '] + zh1 + seq![':'];
        lemma_text_lt_within(pre, zi1, zi2, e, e);
        assert(pre + zi1 + e =~= a);
        assert(pre + zi2 + e =~= b);
    }
}

/// A later timestamp never reads earlier: for timestamps from the first
/// second after the epoch up to the last second of the year 9999, the
/// date texts are in the order of the timestamps (lexicographic order,
/// that of `String`'s `<=`).
pub proof fn lemma_date_text_monotone(t1: nat, t2: nat)
    requires
        0 < t1 <= t2 <= 253402300799,
    ensures
        text_le(date_text(t1), date_text(t2)),
{
    let n1 = t1 / 86400;
    let n2 = t2 / 86400;
    lemma_calendar_date_exists(n1);
    lemma_calendar_date_exists(n2);
    let c1 = calendar_date(n1);
    let c2 = calendar_date(n2);
    assert(n1 <= n2 < 2932897);
    lemma_four_digit_years(n1, c1.0, c1.1, c1.2);
    lemma_four_digit_years(n2, c2.0, c2.1, c2.2);
    let r1 = t1 % 86400;
    let r2 = t2 % 86400;
    let h1 = r1 / 3600;
    let h2 = r2 / 3600;
    vstd::arithmetic::div_mod::lemma_mod_mod(t1 as int, 3600, 24);
    vstd::arithmetic::div_mod::lemma_mod_mod(t2 as int, 3600, 24);
    let mi1 = (t1 % 3600) / 60;
    let mi2 = (t2 % 3600) / 60;
    assert(t1 % 3600 == r1 % 3600);
    assert(t2 % 3600 == r2 % 3600);
    if n1 < n2 {
        lemma_calendar_date_order(n1, c1.0, c1.1, c1.2, n2, c2.0, c2.1, c2.2);
        lemma_stamp_text_order(c1.0, c1.1, c1.2, h1, mi1, c2.0, c2.1, c2.2, h2, mi2);
    } else {
        assert(c1 == c2);
        assert(r1 <= r2);
        if h1 < h2 {
            lemma_stamp_text_order(c1.0, c1.1, c1.2, h1, mi1, c2.0, c2.1, c2.2, h2, mi2);
        } else if mi1 < mi2 {
            lemma_stamp_text_order(c1.0, c1.1, c1.2, h1, mi1, c2.0, c2.1, c2.2, h2, mi2);
        } else {
            assert(h1 == h2);
            assert(mi1 == mi2);
            assert(date_text(t1) == date_text(t2));
        }
    }
}

/// `1024^i`.
pub open spec fn pow1024(i: nat) -> nat
    decreases i,
{
    if i == 0 {
        1
    } else {
        1024 * pow1024((i - 1) as nat)
    }
}

/// The unit of a positive byte count: the largest `i <= 5` with
/// `1024^i <= bytes` (0 = Bytes, 1 = KB, ..., 5 = PB).
pub open spec fn unit_index(bytes: nat) -> nat {
    if bytes >= pow1024(5) {
        5
    } else if bytes >= pow1024(4) {
        4
    } else if bytes >= pow1024(3) {
        3
    } else if bytes >= pow1024(2) {
        2
    } else if bytes >= pow1024(1) {
        1
    } else {
        0
    }
}

/// The name of unit `i`.
pub open spec fn unit_name(i: nat) -> Seq<char> {
    if i == 0 {
        seq!['B', 'y', 't', 'e', 's']
    } else if i == 1 {
        seq!['K', 'B']
    } else if i == 2 {
        seq!['M', 'B']
    } else if i == 3 {
        seq!['G', 'B']
    } else if i == 4 {
        seq!['T', 'B']
    } else {
        seq!['P', 'B']
    }
}

/// `bytes / 1024^i` in hundredths, rounded to the nearest hundredth with
/// halves going to the even neighbour.
pub open spec fn hundredths(bytes: nat, i: nat) -> nat {
    let den = pow1024(i);
    let q = bytes * 100 / den;
    let r = bytes * 100 % den;
    if 2 * r > den || (2 * r == den && q % 2 == 1) {
        q + 1
    } else {
        q
    }
}

/// `0 Bytes` for zero; otherwise the count in its unit with two decimals,
/// a space and the unit's name (`1536` reads `1.50 KB`).
pub open spec fn bytes_text(bytes: nat) -> Seq<char> {
    if bytes == 0 {
        seq!['0', ' '] + unit_name(0)
    } else {
        let h = hundredths(bytes, unit_index(bytes));
        decimal(h / 100) + seq!['.'] + zero_padded(h % 100, 2) + seq![' '] + unit_name(
            unit_index(bytes),
        )
    }
}

proof fn lemma_pow1024_values()
    ensures
        pow1024(0) == 1,
        pow1024(1) == 1024,
        pow1024(2) == 1048576,
        pow1024(3) == 1073741824,
        pow1024(4) == 1099511627776,
        pow1024(5) == 1125899906842624,
{
    reveal_with_fuel(pow1024, 6);
}

fn unit_of(bytes: u64) -> (r: (u64, u128))
    requires
        bytes > 0,
    ensures
        r.0 == unit_index(bytes as nat),
        r.1 == pow1024(r.0 as nat),
        r.1 >= 1,
{
    proof {
        lemma_pow1024_values();
    }
    if bytes >= 1125899906842624 {
        (5, 1125899906842624)
    } else if bytes >= 1099511627776 {
        (4, 1099511627776)
    } else if bytes >= 1073741824 {
        (3, 1073741824)
    } else if bytes >= 1048576 {
        (2, 1048576)
    } else if bytes >= 1024 {
        (1, 1024)
    } else {
        (0, 1)
    }
}

fn push_unit_name(out: &mut Vec<char>, i: u64)
    ensures
        final(out)@ == old(out)@ + unit_name(i as nat),
{
    if i == 0 {
        out.push('B');
        out.push('y');
        out.push('t');
        out.push('e');
        out.push('s');
    } else {
        if i == 1 {
            out.push('K');
        } else if i == 2 {
            out.push('M');
        } else if i == 3 {
            out.push('G');
        } else if i == 4 {
            out.push('T');
        } else {
            out.push('P');
        }
        out.push('B');
    }
    proof {
        assert(final(out)@ =~= old(out)@ + unit_name(i as nat));
    }
}

/// Formats a byte count in binary units (1 KB = 1024 bytes) up to PB.
pub fn format_bytes(bytes: u64) -> (s: String)
    ensures
        s@ == bytes_text(bytes as nat),
{
    let mut out: Vec<char> = Vec::new();
    if bytes == 0 {
        out.push('0');
        out.push(' ');
        push_unit_name(&mut out, 0);
        proof {
            assert(out@ =~= bytes_text(0));
        }
        return chars_to_string(out);
    }
    let (i, den) = unit_of(bytes);
    let scaled: u128 = (bytes as u128) * 100;
    let q: u128 = scaled / den;
    let r: u128 = scaled % den;
    proof {
        assert(q * den <= scaled) by (nonlinear_arith)
            requires
                q == scaled / den,
                den >= 1,
        ;
        assert(q <= scaled) by (nonlinear_arith)
            requires
                q * den <= scaled,
                den >= 1,
        ;
        if den == 1 {
            assert(r == 0);
        } else {
            assert(2 * q <= scaled) by (nonlinear_arith)
                requires
                    q * den <= scaled,
                    den >= 2,
            ;
        }
    }
    let h: u128 = if 2 * r > den || (2 * r == den && q % 2 == 1) {
        q + 1
    } else {
        q
    };
    assert(h <= scaled);
    assert(h / 100 <= bytes);
    let whole: u64 = (h / 100) as u64;
    let frac: u64 = (h % 100) as u64;
    push_decimal(&mut out, whole);
    out.push('.');
    push_zero_padded(&mut out, frac, 2);
    out.push(' ');
    push_unit_name(&mut out, i);
    proof {
        assert(h == hundredths(bytes as nat, i as nat));
        assert(out@ =~= bytes_text(bytes as nat));
    }
    chars_to_string(out)
}

proof fn lemma_thousands_arith(n: nat)
    requires
        n >= 1000,
    ensures
        n / 10 >= 10,
        n / 100 >= 10,
        n / 10 / 10 == n / 100,
        n / 100 / 10 == n / 1000,
        (n / 100) % 10 == (n % 1000) / 100,
        (n / 10) % 10 == ((n % 1000) / 10) % 10,
        n % 10 == (n % 1000) % 10,
        (n % 1000) / 10 / 10 == (n % 1000) / 100,
{
}

/// The decimal digits of `n` are those of `n / 1000` followed by the last
/// three, zero-padded.
proof fn lemma_decimal_split_thousands(n: nat)
    requires
        n >= 1000,
    ensures
        decimal(n) == decimal(n / 1000) + zero_padded(n % 1000, 3),
{
    lemma_thousands_arith(n);
    let m = n % 1000;
    let d2 = digit_char(m / 100);
    let d1 = digit_char((m / 10) % 10);
    let d0 = digit_char(m % 10);
    let tail = seq![d2, d1, d0];
    let a = decimal(n / 1000);
    assert(decimal(n / 100) == a.push(d2));
    assert(decimal(n / 10) == a.push(d2).push(d1));
    assert(decimal(n) == a.push(d2).push(d1).push(d0));
    assert(decimal(n) =~= a + tail);
    lemma_padded_three(m);
}

proof fn lemma_padded_three(m: nat)
    requires
        m < 1000,
    ensures
        zero_padded(m, 3) == seq![digit_char(m / 100), digit_char((m / 10) % 10), digit_char(m % 10)],
{
    let tail = seq![digit_char(m / 100), digit_char((m / 10) % 10), digit_char(m % 10)];
    assert(digit_char(0) == '0');
    if m >= 100 {
        assert(m / 10 / 10 == m / 100);
        assert(decimal(m / 100) == seq![digit_char(m / 100)]);
        assert(decimal(m / 10) == seq![digit_char(m / 100)].push(digit_char((m / 10) % 10)));
        assert(decimal(m) == decimal(m / 10).push(digit_char(m % 10)));
        assert(decimal(m) =~= tail);
    } else if m >= 10 {
        assert(m / 100 == 0);
        assert((m / 10) % 10 == m / 10);
        assert(decimal(m / 10) == seq![digit_char(m / 10)]);
        assert(decimal(m) == decimal(m / 10).push(digit_char(m % 10)));
        assert(zero_padded(m, 3) =~= tail);
    } else {
        assert(m / 100 == 0 && (m / 10) % 10 == 0 && m % 10 == m);
        assert(decimal(m) == seq![digit_char(m)]);
        assert(zero_padded(m, 3) =~= tail);
    }
}

/// Dropping the separators from `thousands(n)` gives the plain decimal
/// representation of `n`.
pub proof fn lemma_thousands_digits(n: nat)
    ensures
        thousands(n).filter(|c: char| c != ',') == decimal(n),
    decreases n,
{
    let p = |c: char| c != ',';
    crate::text::lemma_decimal_digits(n);
    if n < 1000 {
        assert(decimal(n).filter(p) =~= decimal(n)) by {
            lemma_filter_keeps_all(decimal(n), p);
        }
    } else {
        lemma_thousands_digits(n / 1000);
        lemma_decimal_split_thousands(n);
        let a = thousands(n / 1000);
        let b = zero_padded(n % 1000, 3);
        crate::text::lemma_decimal_digits(n % 1000);
        assert(forall|i: int| 0 <= i < b.len() ==> #[trigger] p(b[i])) by {
            assert forall|i: int| 0 <= i < b.len() implies #[trigger] p(b[i]) by {
                if decimal(n % 1000).len() < 3 {
                    let z = (3 - decimal(n % 1000).len()) as nat;
                    if i < z {
                        assert(b[i] == '0');
                    } else {
                        assert(b[i] == decimal(n % 1000)[i - z]);
                    }
                } else {
                    assert(b[i] == decimal(n % 1000)[i]);
                }
            }
        }
        lemma_filter_keeps_all(b, p);
        assert(thousands(n) == a + seq![','] + b);
        Seq::filter_distributes_over_add(a + seq![','], b, p);
        Seq::filter_distributes_over_add(a, seq![','], p);
        assert(seq![','].filter(p) =~= Seq::<char>::empty()) by {
            reveal_with_fuel(Seq::filter, 2);
            assert(seq![','].drop_last() =~= Seq::<char>::empty());
        }
        assert(decimal(n) =~= decimal(n / 1000) + b);
    }
}

/// Filtering by a predicate that every element meets keeps the sequence.
proof fn lemma_filter_keeps_all(s: Seq<char>, p: spec_fn(char) -> bool)
    requires
        forall|i: int| 0 <= i < s.len() ==> #[trigger] p(s[i]),
    ensures
        s.filter(p) == s,
    decreases s.len(),
{
    reveal(Seq::filter);
    if s.len() > 0 {
        lemma_filter_keeps_all(s.drop_last(), p);
        assert(s.drop_last().push(s.last()) =~= s);
    } else {
        assert(s.filter(p) =~= s);
    }
}

/// The unit of a positive count is the largest one it reaches: the count
/// is at least one of that unit, and below one of the next unit (up to PB).
pub proof fn lemma_bytes_unit(bytes: nat)
    requires
        bytes > 0,
    ensures
        pow1024(unit_index(bytes)) <= bytes,
        unit_index(bytes) < 5 ==> bytes < 1024 * pow1024(unit_index(bytes)),
        unit_index(bytes) <= 5,
{
    lemma_pow1024_values();
}

/// The value shown is within half a hundredth of the exact quotient.
pub proof fn lemma_hundredths_nearest(bytes: nat, i: nat)
    ensures
        2 * (hundredths(bytes, i) * pow1024(i)) <= 200 * bytes + pow1024(i),
        200 * bytes <= 2 * (hundredths(bytes, i) * pow1024(i)) + pow1024(i),
{
    lemma_pow1024_positive(i);
    let den = pow1024(i);
    let q = bytes * 100 / den;
    let r = bytes * 100 % den;
    assert(q * den + r == bytes * 100) by (nonlinear_arith)
        requires
            den > 0,
            q == bytes * 100 / den,
            r == bytes * 100 % den,
    ;
    assert((q + 1) * den == q * den + den) by (nonlinear_arith);
}

/// Powers of 1024 are positive.
pub proof fn lemma_pow1024_positive(i: nat)
    ensures
        pow1024(i) >= 1,
    decreases i,
{
    if i > 0 {
        lemma_pow1024_positive((i - 1) as nat);
    }
}

} // verus!
