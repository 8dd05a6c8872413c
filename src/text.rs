//! Digits and decimal integers over character sequences.
use crate::number::int_order;
use std::cmp::Ordering;
use vstd::prelude::*;

verus! {

pub open spec fn is_digit(c: char) -> bool {
    '0' <= c <= '9'
}

pub open spec fn digit_value(c: char) -> int {
    c as int - '0' as int
}

/// The value of a string of decimal digits (empty: zero).
pub open spec fn digits_value(d: Seq<char>) -> int
    decreases d.len(),
{
    if d.len() == 0 {
        0
    } else {
        digits_value(d.drop_last()) * 10 + digit_value(d.last())
    }
}

pub open spec fn all_digits(d: Seq<char>) -> bool {
    forall|i: int| 0 <= i < d.len() ==> is_digit(#[trigger] d[i])
}

/// The end of the run of digits that starts at `i`.
pub open spec fn run_end(s: Seq<char>, i: int) -> int
    decreases s.len() - i,
{
    if 0 <= i < s.len() && is_digit(s[i]) {
        run_end(s, i + 1)
    } else {
        i
    }
}

pub proof fn lemma_run_end(s: Seq<char>, i: int)
    requires
        0 <= i <= s.len(),
    ensures
        i <= run_end(s, i) <= s.len(),
        all_digits(s.subrange(i, run_end(s, i))),
        run_end(s, i) < s.len() ==> !is_digit(s[run_end(s, i)]),
    decreases s.len() - i,
{
    if i < s.len() && is_digit(s[i]) {
        lemma_run_end(s, i + 1);
        let e = run_end(s, i);
        assert forall|k: int| 0 <= k < e - i implies is_digit(#[trigger] s.subrange(i, e)[k]) by {
            if k > 0 {
                assert(s.subrange(i, e)[k] == s.subrange(i + 1, e)[k - 1]);
            }
        }
    }
}

pub proof fn lemma_digits_value_nonneg(d: Seq<char>)
    requires
        all_digits(d),
    ensures
        digits_value(d) >= 0,
    decreases d.len(),
{
    if d.len() > 0 {
        assert(all_digits(d.drop_last()));
        lemma_digits_value_nonneg(d.drop_last());
    }
}

/// A cap on accumulated digit values: large enough that any value reaching
/// it is out of every range that the parsers accept.
pub const DIGITS_CAP: u128 = 0x8000_0000_0000_0000_0000_0000_0000_0000;

pub open spec fn capped(v: int) -> int {
    if v < DIGITS_CAP {
        v
    } else {
        DIGITS_CAP as int
    }
}

/// Appends one digit to a capped value.
pub fn push_digit(v: u128, c: char) -> (r: u128)
    requires
        v <= DIGITS_CAP,
        is_digit(c),
    ensures
        r <= DIGITS_CAP,
        v < DIGITS_CAP ==> r == capped(v * 10 + digit_value(c)),
        v == DIGITS_CAP ==> r == DIGITS_CAP,
{
    let d = (c as u32 - '0' as u32) as u128;
    if v > (DIGITS_CAP - d) / 10 {
        assert(v * 10 + d >= DIGITS_CAP) by (nonlinear_arith)
            requires
                v > (DIGITS_CAP - d) / 10,
                d <= 9,
        ;
        DIGITS_CAP
    } else {
        assert(v * 10 + d <= DIGITS_CAP) by (nonlinear_arith)
            requires
                v <= (DIGITS_CAP - d) / 10,
                d <= 9,
        ;
        v * 10 + d
    }
}

/// Whether the character at `j` is a digit.
pub fn digit_at(s: &str, n: usize, j: usize) -> (r: bool)
    requires
        n == s@.len(),
        j < n,
    ensures
        r == is_digit(s@[j as int]),
{
    let c = s.get_char(j);
    '0' <= c && c <= '9'
}

/// The index after the run of digits of `s` that starts at `i`.
pub fn scan_digits(s: &str, n: usize, i: usize) -> (j: usize)
    requires
        n == s@.len(),
        i <= n,
    ensures
        j == run_end(s@, i as int),
{
    let mut j = i;
    let mut more = j < n && digit_at(s, n, j);
    while more
        invariant
            i <= j <= n,
            n == s@.len(),
            run_end(s@, i as int) == run_end(s@, j as int),
            more == (j < n && is_digit(s@[j as int])),
        decreases n - j,
    {
        j = j + 1;
        more = j < n && digit_at(s, n, j);
    }
    j
}

/// The capped value of the digits `s[i..j]` appended to the digits whose
/// capped value is `start`.
pub(crate) fn accumulate_digits(s: &str, i: usize, j: usize, start: u128, Ghost(prefix): Ghost<
    Seq<char>,
>) -> (r: u128)
    requires
        i <= j <= s@.len(),
        all_digits(s@.subrange(i as int, j as int)),
        all_digits(prefix),
        start == capped(digits_value(prefix)),
    ensures
        r == capped(digits_value(prefix + s@.subrange(i as int, j as int))),
{
    let mut v = start;
    let mut k = i;
    proof {
        assert(prefix + s@.subrange(i as int, i as int) =~= prefix);
    }
    while k < j
        invariant
            i <= k <= j <= s@.len(),
            all_digits(s@.subrange(i as int, j as int)),
            all_digits(prefix),
            v == capped(digits_value(prefix + s@.subrange(i as int, k as int))),
        decreases j - k,
    {
        let c = s.get_char(k);
        proof {
            assert(s@.subrange(i as int, j as int)[k - i] == c);
            let old_seq = prefix + s@.subrange(i as int, k as int);
            let new_seq = prefix + s@.subrange(i as int, k + 1);
            assert(new_seq.drop_last() =~= old_seq);
            assert(new_seq.last() == c);
            assert(all_digits(old_seq)) by {
                assert forall|t: int| 0 <= t < old_seq.len() implies is_digit(#[trigger] old_seq[t]) by {
                    if t >= prefix.len() {
                        assert(old_seq[t] == s@.subrange(i as int, j as int)[t - prefix.len()]);
                    }
                }
            }
            lemma_digits_value_nonneg(old_seq);
        }
        v = push_digit(v, c);
        k = k + 1;
    }
    v
}

pub open spec fn digit_char(d: int) -> char {
    ('0' as int + d) as char
}

/// The decimal digits of a natural number, without leading zeros.
pub open spec fn nat_text(n: nat) -> Seq<char>
    decreases n,
{
    if n < 10 {
        seq![digit_char(n as int)]
    } else {
        nat_text(n / 10) + seq![digit_char((n % 10) as int)]
    }
}

/// The decimal text of an integer: a `-` for a negative one, then its digits.
pub open spec fn int_text(n: int) -> Seq<char> {
    if n < 0 {
        seq!['-'] + nat_text((-n) as nat)
    } else {
        nat_text(n as nat)
    }
}

/// Relies on `String`'s `FromIterator<&char>`: the string holds the
/// characters in order.
#[verifier::external_body]
pub fn string_of_chars(v: &Vec<char>) -> (r: String)
    ensures
        r@ == v@,
{
    v.iter().collect()
}

/// Appends the characters of `s` to `out`.
pub fn push_str_chars(out: &mut Vec<char>, s: &str)
    ensures
        final(out)@ == old(out)@ + s@,
{
    let n = s.unicode_len();
    let mut i: usize = 0;
    while i < n
        invariant
            n == s@.len(),
            i <= n,
            out@ == old(out)@ + s@.subrange(0, i as int),
        decreases n - i,
    {
        out.push(s.get_char(i));
        i = i + 1;
        proof {
            assert(out@ =~= old(out)@ + s@.subrange(0, i as int));
        }
    }
    proof {
        assert(s@.subrange(0, n as int) =~= s@);
    }
}

/// Appends the decimal text of `n` to `out`.
pub fn push_int_text(out: &mut Vec<char>, n: i64)
    ensures
        final(out)@ == old(out)@ + int_text(n as int),
{
    if n < 0 {
        out.push('-');
    }
    let ghost magnitude: nat = if n < 0 {
        (-n) as nat
    } else {
        n as nat
    };
    let mut m: u64 = if n < 0 {
        (-(n as i128)) as u64
    } else {
        n as u64
    };
    let ghost before = out@;
    let mut rev: Vec<char> = Vec::new();
    while m >= 10
        invariant
            nat_text(magnitude) == nat_text(m as nat) + rev@.reverse(),
        decreases m,
    {
        let d = m % 10;
        proof {
            assert(nat_text(m as nat) == nat_text((m / 10) as nat) + seq![digit_char(d as int)]);
            assert(rev@.push(digit_char(d as int)).reverse() =~= seq![digit_char(d as int)]
                + rev@.reverse());
        }
        rev.push(('0' as u8 + d as u8) as char);
        m = m / 10;
    }
    out.push(('0' as u8 + m as u8) as char);
    let mut i = rev.len();
    while i > 0
        invariant
            i <= rev@.len(),
            out@ == before + seq![digit_char(m as int)] + rev@.reverse().subrange(
                0,
                (rev@.len() - i) as int,
            ),
        decreases i,
    {
        i = i - 1;
        out.push(rev[i]);
        proof {
            assert(out@ =~= before + seq![digit_char(m as int)] + rev@.reverse().subrange(
                0,
                (rev@.len() - i) as int,
            ));
        }
    }
    proof {
        assert(rev@.reverse().subrange(0, rev@.len() as int) =~= rev@.reverse());
        assert(nat_text(m as nat) == seq![digit_char(m as int)]);
        assert(out@ =~= old(out)@ + int_text(n as int));
    }
}

/// Lexicographic order of two texts from index `i`, by code point, a proper
/// prefix first.
pub open spec fn chars_order_from(a: Seq<char>, b: Seq<char>, i: int) -> Ordering
    decreases a.len() - i,
{
    if 0 <= i < a.len() && i < b.len() {
        if a[i] == b[i] {
            chars_order_from(a, b, i + 1)
        } else {
            int_order(a[i] as int, b[i] as int)
        }
    } else {
        int_order(a.len() as int, b.len() as int)
    }
}

pub open spec fn chars_order(a: Seq<char>, b: Seq<char>) -> Ordering {
    chars_order_from(a, b, 0)
}

/// Lexicographic order of two byte strings from index `i`, a proper prefix
/// first.
pub open spec fn bytes_order_from(a: Seq<u8>, b: Seq<u8>, i: int) -> Ordering
    decreases a.len() - i,
{
    if 0 <= i < a.len() && i < b.len() {
        if a[i] == b[i] {
            bytes_order_from(a, b, i + 1)
        } else {
            int_order(a[i] as int, b[i] as int)
        }
    } else {
        int_order(a.len() as int, b.len() as int)
    }
}

/// The order of two lengths or other small integers.
pub fn compare_usize(x: usize, y: usize) -> (r: Ordering)
    ensures
        r == int_order(x as int, y as int),
{
    if x < y {
        Ordering::Less
    } else if x == y {
        Ordering::Equal
    } else {
        Ordering::Greater
    }
}

/// Compares two texts by `chars_order`.
pub fn compare_text(a: &str, b: &str) -> (r: Ordering)
    ensures
        r == chars_order(a@, b@),
{
    let n = a.unicode_len();
    let m = b.unicode_len();
    let mut i: usize = 0;
    while i < n && i < m
        invariant
            n == a@.len(),
            m == b@.len(),
            i <= n,
            chars_order(a@, b@) == chars_order_from(a@, b@, i as int),
        decreases n - i,
    {
        let x = a.get_char(i);
        let y = b.get_char(i);
        if x != y {
            return if (x as u32) < (y as u32) {
                Ordering::Less
            } else {
                Ordering::Greater
            };
        }
        i = i + 1;
    }
    compare_usize(n, m)
}

/// Compares two byte strings by `bytes_order_from`.
pub fn compare_bytes(a: &Vec<u8>, b: &Vec<u8>) -> (r: Ordering)
    ensures
        r == bytes_order_from(a@, b@, 0),
{
    let mut i: usize = 0;
    while i < a.len() && i < b.len()
        invariant
            i <= a@.len(),
            bytes_order_from(a@, b@, 0) == bytes_order_from(a@, b@, i as int),
        decreases a.len() - i,
    {
        if a[i] != b[i] {
            return if a[i] < b[i] {
                Ordering::Less
            } else {
                Ordering::Greater
            };
        }
        i = i + 1;
    }
    compare_usize(a.len(), b.len())
}

/// Whether two byte strings are equal.
pub fn bytes_equal(a: &Vec<u8>, b: &Vec<u8>) -> (r: bool)
    ensures
        r == (a@ == b@),
{
    if a.len() != b.len() {
        return false;
    }
    let mut i: usize = 0;
    while i < a.len()
        invariant
            i <= a@.len() == b@.len(),
            forall|k: int| 0 <= k < i ==> a@[k] == b@[k],
        decreases a.len() - i,
    {
        if a[i] != b[i] {
            return false;
        }
        i = i + 1;
    }
    proof {
        assert(a@ =~= b@);
    }
    true
}

/// A text compares `Equal` with itself.
pub proof fn lemma_chars_order_reflexive(a: Seq<char>, i: int)
    requires
        0 <= i <= a.len(),
    ensures
        chars_order_from(a, a, i) == Ordering::Equal,
    decreases a.len() - i,
{
    if i < a.len() {
        lemma_chars_order_reflexive(a, i + 1);
    }
}

/// Swapping two texts reverses their order.
pub proof fn lemma_chars_order_antisymmetric(a: Seq<char>, b: Seq<char>, i: int)
    requires
        0 <= i,
    ensures
        chars_order_from(b, a, i) == crate::number::reversed(chars_order_from(a, b, i)),
    decreases a.len() - i,
{
    if i < a.len() && i < b.len() && a[i] == b[i] {
        lemma_chars_order_antisymmetric(a, b, i + 1);
    }
}

/// Texts that compare `Equal` are equal.
pub proof fn lemma_chars_order_equal(a: Seq<char>, b: Seq<char>, i: int)
    requires
        0 <= i <= a.len(),
        i <= b.len(),
        forall|k: int| 0 <= k < i ==> a[k] == b[k],
        chars_order_from(a, b, i) == Ordering::Equal,
    ensures
        a == b,
    decreases a.len() - i,
{
    if i < a.len() && i < b.len() {
        lemma_chars_order_equal(a, b, i + 1);
    } else {
        assert(a =~= b);
    }
}

/// The digits of `n` are digits, at least one, and their value is `n`.
pub proof fn lemma_nat_text(n: nat)
    ensures
        nat_text(n).len() >= 1,
        all_digits(nat_text(n)),
        digits_value(nat_text(n)) == n,
    decreases n,
{
    if n < 10 {
        let t = nat_text(n);
        assert(t.drop_last() =~= Seq::<char>::empty());
        assert(digit_value(digit_char(n as int)) == n);
        assert(digits_value(t) == digits_value(t.drop_last()) * 10 + digit_value(t.last()));
    } else {
        lemma_nat_text(n / 10);
        let t = nat_text(n);
        assert(t.drop_last() =~= nat_text(n / 10));
        assert(t.last() == digit_char((n % 10) as int));
        assert(digit_value(digit_char((n % 10) as int)) == n % 10);
        assert(digits_value(t) == digits_value(nat_text(n / 10)) * 10 + digit_value(t.last()));
        assert((n / 10) * 10 + n % 10 == n) by (nonlinear_arith);
        assert forall|i: int| 0 <= i < t.len() implies is_digit(#[trigger] t[i]) by {
            if i < t.len() - 1 {
                assert(t[i] == nat_text(n / 10)[i]);
            }
        }
    }
}

/// Whether two strings hold the same characters.
pub fn str_equals(s: &str, t: &str) -> (r: bool)
    ensures
        r == (s@ == t@),
{
    let n = s.unicode_len();
    if n != t.unicode_len() {
        return false;
    }
    let mut i: usize = 0;
    while i < n
        invariant
            n == s@.len() == t@.len(),
            i <= n,
            forall|k: int| 0 <= k < i ==> s@[k] == t@[k],
        decreases n - i,
    {
        if s.get_char(i) != t.get_char(i) {
            return false;
        }
        i = i + 1;
    }
    proof {
        assert(s@ =~= t@);
    }
    true
}

/// The integer that a decimal integer text writes: an optional `-`, then
/// digits.
pub open spec fn text_value(t: Seq<char>) -> int {
    if t.len() > 0 && t[0] == '-' {
        -digits_value(t.subrange(1, t.len() as int))
    } else {
        digits_value(t)
    }
}

/// The text of an integer reads back as the integer.
pub proof fn lemma_int_text_value(n: int)
    ensures
        text_value(int_text(n)) == n,
        int_text(n).len() >= 1,
{
    let m: nat = if n < 0 {
        (-n) as nat
    } else {
        n as nat
    };
    lemma_nat_text(m);
    let t = int_text(n);
    if n < 0 {
        assert(t.subrange(1, t.len() as int) =~= nat_text(m));
    } else {
        assert(is_digit(nat_text(m)[0]));
    }
}

/// Appends `s[i..j]` to `out`.
pub fn push_range(out: &mut Vec<char>, s: &str, i: usize, j: usize)
    requires
        i <= j <= s@.len(),
    ensures
        final(out)@ == old(out)@ + s@.subrange(i as int, j as int),
{
    let mut k = i;
    while k < j
        invariant
            i <= k <= j <= s@.len(),
            out@ == old(out)@ + s@.subrange(i as int, k as int),
        decreases j - k,
    {
        out.push(s.get_char(k));
        k = k + 1;
        proof {
            assert(out@ =~= old(out)@ + s@.subrange(i as int, k as int));
        }
    }
}

/// Leading zeros do not change the value of digits.
pub proof fn lemma_leading_zeros(d: Seq<char>, k: int)
    requires
        0 <= k <= d.len(),
        forall|i: int| 0 <= i < k ==> d[i] == '0',
    ensures
        digits_value(d) == digits_value(d.subrange(k, d.len() as int)),
    decreases d.len(),
{
    if d.len() == k {
        if k > 0 {
            let e = d.drop_last();
            lemma_leading_zeros(e, k - 1);
            assert(e.subrange(k - 1, e.len() as int) =~= Seq::<char>::empty());
            assert(d.subrange(k, d.len() as int) =~= Seq::<char>::empty());
        }
    } else {
        let e = d.drop_last();
        lemma_leading_zeros(e, k);
        let r = d.subrange(k, d.len() as int);
        assert(r.drop_last() =~= e.subrange(k, e.len() as int));
        assert(r.last() == d.last());
    }
}

/// Digits whose first digit is not zero are the text of their value.
pub proof fn lemma_canonical_digits(d: Seq<char>)
    requires
        d.len() >= 1,
        all_digits(d),
        d[0] != '0',
    ensures
        nat_text(digits_value(d) as nat) == d,
        digits_value(d) >= 1,
    decreases d.len(),
{
    let v = digits_value(d);
    if d.len() == 1 {
        assert(d.drop_last() =~= Seq::<char>::empty());
        assert(is_digit(d[0]));
        assert(d.last() == d[0]);
        assert(v == digits_value(d.drop_last()) * 10 + digit_value(d.last()));
        assert(v == digit_value(d[0]));
        assert(digit_char(digit_value(d[0])) == d[0]);
        assert(nat_text(v as nat) == seq![digit_char(v)]);
        assert(nat_text(v as nat) =~= d);
    } else {
        let e = d.drop_last();
        assert(all_digits(e)) by {
            assert forall|i: int| 0 <= i < e.len() implies is_digit(#[trigger] e[i]) by {
                assert(e[i] == d[i]);
            }
        }
        assert(e[0] == d[0]);
        lemma_canonical_digits(e);
        let w = digits_value(e);
        assert(is_digit(d.last()));
        assert(v == w * 10 + digit_value(d.last()));
        assert(v / 10 == w && v % 10 == digit_value(d.last())) by (nonlinear_arith)
            requires
                v == w * 10 + digit_value(d.last()),
                0 <= digit_value(d.last()) < 10,
        ;
        assert(digit_char(digit_value(d.last())) == d.last());
        assert(nat_text(v as nat) =~= e.push(d.last()));
        assert(e.push(d.last()) =~= d);
    }
}

} // verus!
