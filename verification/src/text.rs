//! Character-level text building: decimal digits, zero padding, and the
//! conversion of a character buffer into a `String`.

use vstd::prelude::*;

verus! {

/// The character of a decimal digit (`d < 10`).
pub open spec fn digit_char(d: nat) -> char {
    (48 + d) as char
}

/// Decimal representation of `n`: most significant digit first, no leading
/// zeros, and `"0"` for zero.
pub open spec fn decimal(n: nat) -> Seq<char>
    decreases n,
{
    if n < 10 {
        seq![digit_char(n)]
    } else {
        decimal(n / 10).push(digit_char(n % 10))
    }
}

/// Decimal representation of `n` left-padded with zeros to at least `width`
/// characters (what the formatting directive `{:0width}` produces).
pub open spec fn zero_padded(n: nat, width: nat) -> Seq<char> {
    let s = decimal(n);
    if s.len() >= width {
        s
    } else {
        Seq::new((width - s.len()) as nat, |i: int| '0') + s
    }
}

/// Every character of the decimal representation is a digit.
pub proof fn lemma_decimal_digits(n: nat)
    ensures
        decimal(n).len() >= 1,
        forall|i: int| 0 <= i < decimal(n).len() ==> '0' <= #[trigger] decimal(n)[i] <= '9',
    decreases n,
{
    if n >= 10 {
        lemma_decimal_digits(n / 10);
    }
}

/// The length of the decimal representation grows with the number.
pub proof fn lemma_decimal_len_small(n: nat)
    ensures
        n < 10 ==> decimal(n).len() == 1,
        10 <= n < 100 ==> decimal(n).len() == 2,
        100 <= n < 1000 ==> decimal(n).len() == 3,
        n >= 1000 ==> decimal(n).len() >= 4,
    decreases n,
{
    if n >= 10 {
        lemma_decimal_len_small(n / 10);
    }
}

/// Builds a `String` from a buffer of characters.
///
/// Calls `String::from_iter`; the contract claims that the string holds
/// exactly the buffer's characters, in order.
#[verifier::external_body]
pub(crate) fn chars_to_string(chars: Vec<char>) -> (s: String)
    ensures
        s@ == chars@,
{
    String::from_iter(chars)
}

/// The character of digit `d`.
pub fn digit_of(d: u64) -> (c: char)
    requires
        d < 10,
    ensures
        c == digit_char(d as nat),
{
    let b: u8 = 48u8 + (d as u8);
    b as char
}

/// Appends the decimal representation of `n`.
pub fn push_decimal(out: &mut Vec<char>, n: u64)
    ensures
        final(out)@ == old(out)@ + decimal(n as nat),
    decreases n,
{
    if n >= 10 {
        push_decimal(out, n / 10);
    }
    let c = digit_of(n % 10);
    out.push(c);
    proof {
        assert(old(out)@ + decimal(n as nat) =~= final(out)@) by {
            if n >= 10 {
                assert(decimal(n as nat) == decimal((n / 10) as nat).push(digit_char((n % 10) as nat)));
            }
        }
    }
}

/// Number of characters of the decimal representation of `n`.
pub fn decimal_len(n: u64) -> (len: usize)
    ensures
        len == decimal(n as nat).len(),
        1 <= len <= 20,
    decreases n,
{
    if n < 10 {
        1
    } else {
        let r = decimal_len(n / 10);
        proof {
            lemma_decimal_digit_count_bound(n as nat);
        }
        r + 1
    }
}

/// Ten to the power `k`.
pub open spec fn pow10(k: nat) -> nat
    decreases k,
{
    if k == 0 {
        1
    } else {
        10 * pow10((k - 1) as nat)
    }
}

/// A number below `10^k` has at most `k` decimal digits (`k >= 1`).
pub proof fn lemma_decimal_len_below_pow10(n: nat, k: nat)
    requires
        k >= 1,
        n < pow10(k),
    ensures
        decimal(n).len() <= k,
    decreases k,
{
    if n >= 10 {
        assert(k >= 2) by {
            if k == 1 {
                assert(pow10(1) == 10 * pow10(0));
            }
        }
        assert(n / 10 < pow10((k - 1) as nat)) by {
            assert(pow10(k) == 10 * pow10((k - 1) as nat));
        }
        lemma_decimal_len_below_pow10(n / 10, (k - 1) as nat);
    }
}

/// A `u64` has at most twenty decimal digits.
pub proof fn lemma_decimal_digit_count_bound(n: nat)
    ensures
        n < 100000000000000000000 ==> decimal(n).len() <= 20,
        decimal(n).len() >= 1,
{
    lemma_decimal_digits(n);
    if n < 100000000000000000000 {
        assert(pow10(20) == 100000000000000000000) by {
            reveal_with_fuel(pow10, 21);
        }
        lemma_decimal_len_below_pow10(n, 20);
    }
}

/// Appends `n` zero-padded to at least `width` characters.
pub fn push_zero_padded(out: &mut Vec<char>, n: u64, width: usize)
    ensures
        final(out)@ == old(out)@ + zero_padded(n as nat, width as nat),
{
    let len = decimal_len(n);
    let mut k: usize = len;
    let ghost start = out@;
    while k < width
        invariant
            len == decimal(n as nat).len(),
            len <= k,
            k <= width || k == len,
            out@ == start + Seq::new((k - len) as nat, |i: int| '0'),
        decreases width - k,
    {
        out.push('0');
        k = k + 1;
        proof {
            assert(out@ =~= start + Seq::new((k - len) as nat, |i: int| '0'));
        }
    }
    let ghost mid = out@;
    push_decimal(out, n);
    proof {
        if len >= width {
            assert(mid =~= start);
        }
        assert(final(out)@ =~= start + zero_padded(n as nat, width as nat));
    }
}

/// `a` comes strictly before `b` in lexicographic (dictionary) order, the
/// order of `String`'s `<`: at the first position where they differ `a`
/// has the smaller character, or `a` is a proper prefix of `b`.
pub open spec fn text_lt(a: Seq<char>, b: Seq<char>) -> bool {
    exists|i: int|
        0 <= i <= a.len() && i <= b.len() && #[trigger] a.take(i) == b.take(i) && ((i == a.len() && i < b.len()) || (
        i < a.len() && i < b.len() && a[i] < b[i]))
}

/// `a` is `b` or comes before it in lexicographic order.
pub open spec fn text_le(a: Seq<char>, b: Seq<char>) -> bool {
    a == b || text_lt(a, b)
}

/// Two texts of the same length ordered at some position stay so ordered
/// after a common beginning and any endings.
pub proof fn lemma_text_lt_within(pre: Seq<char>, x1: Seq<char>, x2: Seq<char>, post1: Seq<char>, post2: Seq<char>)
    requires
        x1.len() == x2.len(),
        text_lt(x1, x2),
    ensures
        text_lt(pre + x1 + post1, pre + x2 + post2),
{
    let i = choose|i: int|
        0 <= i <= x1.len() && i <= x2.len() && #[trigger] x1.take(i) == x2.take(i) && ((i == x1.len() && i < x2.len())
            || (i < x1.len() && i < x2.len() && x1[i] < x2[i]));
    let a = pre + x1 + post1;
    let b = pre + x2 + post2;
    let k = pre.len() + i;
    assert(a.take(k) =~= pre + x1.take(i));
    assert(b.take(k) =~= pre + x2.take(i));
    assert(a[k] == x1[i]);
    assert(b[k] == x2[i]);
}

/// A number below `10^w` padded to `w` digits has exactly `w` characters.
pub proof fn lemma_zero_padded_len(n: nat, w: nat)
    requires
        w >= 1,
        n < pow10(w),
    ensures
        zero_padded(n, w).len() == w,
{
    lemma_decimal_len_below_pow10(n, w);
}

/// Padding to `w >= 2` digits is padding the number without its last
/// digit to `w - 1` digits, then that digit.
proof fn lemma_zero_padded_push(n: nat, w: nat)
    requires
        w >= 2,
        n < pow10(w),
    ensures
        zero_padded(n, w) == zero_padded(n / 10, (w - 1) as nat).push(digit_char(n % 10)),
{
    lemma_decimal_len_below_pow10(n, w);
    assert(pow10(w) == 10 * pow10((w - 1) as nat));
    assert(n / 10 < pow10((w - 1) as nat));
    lemma_decimal_len_below_pow10(n / 10, (w - 1) as nat);
    if n >= 10 {
        assert(decimal(n) == decimal(n / 10).push(digit_char(n % 10)));
        assert(zero_padded(n, w) =~= zero_padded(n / 10, (w - 1) as nat).push(digit_char(n % 10)));
    } else {
        assert(decimal(n) == seq![digit_char(n)]);
        assert(decimal(0) == seq![digit_char(0)]);
        assert(n / 10 == 0);
        assert(n % 10 == n);
        assert(zero_padded(n, w) =~= zero_padded(n / 10, (w - 1) as nat).push(digit_char(n % 10)));
    }
}

/// Padded to a common width, a smaller number gives an earlier text.
pub proof fn lemma_zero_padded_order(n1: nat, n2: nat, w: nat)
    requires
        w >= 1,
        n1 < n2 < pow10(w),
    ensures
        text_lt(zero_padded(n1, w), zero_padded(n2, w)),
    decreases w,
{
    lemma_zero_padded_len(n1, w);
    lemma_zero_padded_len(n2, w);
    let a = zero_padded(n1, w);
    let b = zero_padded(n2, w);
    if w == 1 {
        assert(pow10(1) == 10 * pow10(0));
        assert(decimal(n1) == seq![digit_char(n1)]);
        assert(decimal(n2) == seq![digit_char(n2)]);
        assert(a.take(0) =~= b.take(0));
        assert(a[0] == digit_char(n1));
        assert(b[0] == digit_char(n2));
        assert(a[0] < b[0]);
    } else {
        lemma_zero_padded_push(n1, w);
        lemma_zero_padded_push(n2, w);
        let w1 = (w - 1) as nat;
        assert(pow10(w) == 10 * pow10(w1));
        let q1 = n1 / 10;
        let q2 = n2 / 10;
        let p1 = zero_padded(q1, w1);
        let p2 = zero_padded(q2, w1);
        lemma_zero_padded_len(q1, w1);
        lemma_zero_padded_len(q2, w1);
        if q1 < q2 {
            lemma_zero_padded_order(q1, q2, w1);
            lemma_text_lt_within(Seq::empty(), p1, p2, seq![digit_char(n1 % 10)], seq![digit_char(n2 % 10)]);
            assert(Seq::<char>::empty() + p1 + seq![digit_char(n1 % 10)] =~= a);
            assert(Seq::<char>::empty() + p2 + seq![digit_char(n2 % 10)] =~= b);
        } else {
            assert(q1 == q2);
            assert(n1 % 10 < n2 % 10);
            let i = w1 as int;
            assert(a.take(i) =~= p1);
            assert(b.take(i) =~= p2);
            assert(a[i] == digit_char(n1 % 10));
            assert(b[i] == digit_char(n2 % 10));
            assert(a[i] < b[i]);
        }
    }
}

} // verus!
