use crate::error::FsError;
use crate::text::{
    digits_value, int_text, lemma_canonical_digits, lemma_int_text_value, lemma_leading_zeros,
    lemma_run_end, push_range, run_end, scan_digits, str_equals, string_of_chars, text_value,
    accumulate_digits, all_digits, is_digit, nat_text, push_int_text,
};
use bigdecimal::num_bigint::BigInt;
use bigdecimal::BigDecimal;
use std::cmp::Ordering;
use vstd::prelude::*;

verus! {

/// `10^n`.
pub open spec fn pow10(n: nat) -> int
    decreases n,
{
    if n == 0 {
        1
    } else {
        10 * pow10((n - 1) as nat)
    }
}

/// The order of two mathematical integers.
pub open spec fn int_order(x: int, y: int) -> Ordering {
    if x < y {
        Ordering::Less
    } else if x == y {
        Ordering::Equal
    } else {
        Ordering::Greater
    }
}

/// The reverse of an order.
pub open spec fn reversed(o: Ordering) -> Ordering {
    match o {
        Ordering::Less => Ordering::Greater,
        Ordering::Equal => Ordering::Equal,
        Ordering::Greater => Ordering::Less,
    }
}

/// What a `Decimal` holds: the number `mantissa * 10^(-scale)`.
pub struct DecimalView {
    pub mantissa: int,
    pub scale: int,
}

impl DecimalView {
    /// The mantissa rewritten at scale `s` (which is at least `self.scale`).
    pub open spec fn at_scale(self, s: int) -> int {
        self.mantissa * pow10((s - self.scale) as nat)
    }
}

/// An exact decimal number of any size, `mantissa * 10^(-scale)`.
///
/// The mantissa is kept as its decimal text, without leading zeros, so that
/// two decimals with the same mantissa and scale are the same value of this
/// type. The digits are kept as written: `1.50` has mantissa 150 and scale 2,
/// `1.5` mantissa 15 and scale 1, and the two compare `Equal`.
#[derive(Debug, PartialEq, Eq)]
pub struct Decimal {
    mantissa: String,
    scale: i64,
}

impl Decimal {
    #[verifier::type_invariant]
    spec fn canonical(self) -> bool {
        self.mantissa@ == int_text(text_value(self.mantissa@))
    }
}

impl View for Decimal {
    type V = DecimalView;

    closed spec fn view(&self) -> DecimalView {
        DecimalView { mantissa: text_value(self.mantissa@), scale: self.scale as int }
    }
}

/// The smallest scale at which both decimals are whole.
pub open spec fn common_scale(a: DecimalView, b: DecimalView) -> int {
    if a.scale >= b.scale {
        a.scale
    } else {
        b.scale
    }
}

/// Exact numeric order of two decimals.
pub open spec fn decimal_order(a: DecimalView, b: DecimalView) -> Ordering {
    let s = common_scale(a, b);
    int_order(a.at_scale(s), b.at_scale(s))
}

/// The exact sum of two decimals, at their common scale.
pub open spec fn decimal_sum(a: DecimalView, b: DecimalView) -> DecimalView {
    let s = common_scale(a, b);
    DecimalView { mantissa: a.at_scale(s) + b.at_scale(s), scale: s }
}

/// How far apart two scales may be for their sum to be formed: the aligned
/// digits of decimals further apart would not fit in a machine's memory.
pub const ALIGN_LIMIT: i64 = 0x1_0000_0000;

pub open spec fn scales_close(a: DecimalView, b: DecimalView) -> bool {
    -ALIGN_LIMIT <= a.scale - b.scale <= ALIGN_LIMIT
}

/// Relies on `BigInt::from_str`, `BigDecimal::new` and bigdecimal's `Ord`:
/// an exact comparison of the values `mantissa * 10^(-scale)`, whose
/// mantissas are given as decimal integer text.
#[verifier::external_body]
fn big_order(a: &str, a_scale: i64, b: &str, b_scale: i64) -> (r: Ordering)
    requires
        a@ == int_text(text_value(a@)),
        b@ == int_text(text_value(b@)),
    ensures
        r == decimal_order(
            DecimalView { mantissa: text_value(a@), scale: a_scale as int },
            DecimalView { mantissa: text_value(b@), scale: b_scale as int },
        ),
{
    let x = BigDecimal::new(<BigInt as std::str::FromStr>::from_str(a).unwrap(), a_scale);
    let y = BigDecimal::new(<BigInt as std::str::FromStr>::from_str(b).unwrap(), b_scale);
    x.cmp(&y)
}

/// Relies on bigdecimal's `Add` for owned values: both operands are aligned to
/// the larger scale and their digits added exactly; the digits come back as
/// `BigInt`'s decimal text.
#[verifier::external_body]
fn big_sum(a: &str, a_scale: i64, b: &str, b_scale: i64) -> (r: (String, i64))
    requires
        a@ == int_text(text_value(a@)),
        b@ == int_text(text_value(b@)),
        -ALIGN_LIMIT <= a_scale - b_scale <= ALIGN_LIMIT,
    ensures
        ({
            let s = decimal_sum(
                DecimalView { mantissa: text_value(a@), scale: a_scale as int },
                DecimalView { mantissa: text_value(b@), scale: b_scale as int },
            );
            r.0@ == int_text(s.mantissa) && r.1 == s.scale
        }),
{
    let x = BigDecimal::new(<BigInt as std::str::FromStr>::from_str(a).unwrap(), a_scale);
    let y = BigDecimal::new(<BigInt as std::str::FromStr>::from_str(b).unwrap(), b_scale);
    let (digits, scale) = (x + y).into_bigint_and_exponent();
    (digits.to_string(), scale)
}

impl Decimal {
    /// The integer `n`, at scale zero.
    pub fn from_i64(n: i64) -> (r: Decimal)
        ensures
            r@ == (DecimalView { mantissa: n as int, scale: 0 }),
    {
        let mut out: Vec<char> = Vec::new();
        push_int_text(&mut out, n);
        proof {
            assert(out@ =~= int_text(n as int));
            lemma_int_text_value(n as int);
        }
        Decimal { mantissa: string_of_chars(&out), scale: 0 }
    }

    /// The mantissa's decimal text: an optional `-`, then digits without
    /// leading zeros.
    pub fn mantissa_text(&self) -> (r: &str)
        ensures
            r@ == int_text(self@.mantissa),
    {
        proof {
            use_type_invariant(self);
        }
        self.mantissa.as_str()
    }

    pub fn scale(&self) -> (r: i64)
        ensures
            r == self@.scale,
    {
        self.scale
    }

    /// Whether the two decimals have the same mantissa and scale.
    pub fn equals(&self, other: &Decimal) -> (r: bool)
        ensures
            r == (self@ == other@),
    {
        proof {
            use_type_invariant(self);
            use_type_invariant(other);
        }
        str_equals(self.mantissa.as_str(), other.mantissa.as_str()) && self.scale == other.scale
    }

    /// A copy with the same view.
    pub fn duplicate(&self) -> (r: Decimal)
        ensures
            r@ == self@,
    {
        proof {
            use_type_invariant(self);
        }
        Decimal { mantissa: self.mantissa.clone(), scale: self.scale }
    }

    /// Exact numeric comparison.
    pub fn compare(&self, other: &Decimal) -> (r: Ordering)
        ensures
            r == decimal_order(self@, other@),
    {
        proof {
            use_type_invariant(self);
            use_type_invariant(other);
        }
        big_order(self.mantissa.as_str(), self.scale, other.mantissa.as_str(), other.scale)
    }

    /// Whether the two decimals' scales are close enough for their sum.
    pub fn close_to(&self, other: &Decimal) -> (r: bool)
        ensures
            r == scales_close(self@, other@),
    {
        let d = self.scale as i128 - other.scale as i128;
        -(ALIGN_LIMIT as i128) <= d && d <= ALIGN_LIMIT as i128
    }

    /// The exact sum, at the larger of the two scales.
    pub fn sum(&self, other: &Decimal) -> (r: Decimal)
        requires
            scales_close(self@, other@),
        ensures
            r@ == decimal_sum(self@, other@),
    {
        proof {
            use_type_invariant(self);
            use_type_invariant(other);
        }
        let (m, s) = big_sum(self.mantissa.as_str(), self.scale, other.mantissa.as_str(), other.scale);
        proof {
            lemma_int_text_value(decimal_sum(self@, other@).mantissa);
        }
        Decimal { mantissa: m, scale: s }
    }
}

/// A number of the document model: an exact decimal, or one of the three
/// non-finite values, which have variants of their own so that each has a
/// single representation.
#[derive(Debug, PartialEq, Eq)]
pub enum FsNumber {
    NAN,
    NegativeInfinity,
    Number(Decimal),
    PositiveInfinity,
}

/// What an `FsNumber` holds.
pub enum FsNumberView {
    NAN,
    NegativeInfinity,
    Number(DecimalView),
    PositiveInfinity,
}

impl View for FsNumber {
    type V = FsNumberView;

    open spec fn view(&self) -> FsNumberView {
        match self {
            FsNumber::NAN => FsNumberView::NAN,
            FsNumber::NegativeInfinity => FsNumberView::NegativeInfinity,
            FsNumber::Number(d) => FsNumberView::Number(d@),
            FsNumber::PositiveInfinity => FsNumberView::PositiveInfinity,
        }
    }
}

/// The total order: equal values are `Equal`; `NAN` comes first, then
/// `NegativeInfinity`, then the finite numbers by value, then
/// `PositiveInfinity`.
pub open spec fn number_order(a: FsNumberView, b: FsNumberView) -> Ordering {
    if a == b {
        Ordering::Equal
    } else {
        match (a, b) {
            (FsNumberView::NAN, _) => Ordering::Less,
            (FsNumberView::PositiveInfinity, _) => Ordering::Greater,
            (FsNumberView::NegativeInfinity, FsNumberView::NAN) => Ordering::Greater,
            (FsNumberView::NegativeInfinity, _) => Ordering::Less,
            (FsNumberView::Number(_), FsNumberView::NAN) => Ordering::Greater,
            (FsNumberView::Number(_), FsNumberView::PositiveInfinity) => Ordering::Less,
            (FsNumberView::Number(_), FsNumberView::NegativeInfinity) => Ordering::Greater,
            (FsNumberView::Number(x), FsNumberView::Number(y)) => decimal_order(x, y),
        }
    }
}

/// Addition: `NAN` absorbs everything; otherwise an infinite left operand wins,
/// `NegativeInfinity` checked before `PositiveInfinity`, then an infinite right
/// operand, `PositiveInfinity` checked before `NegativeInfinity`; two finite
/// numbers add exactly.
pub open spec fn number_add(a: FsNumberView, b: FsNumberView) -> FsNumberView {
    match (a, b) {
        (FsNumberView::NAN, _) => FsNumberView::NAN,
        (_, FsNumberView::NAN) => FsNumberView::NAN,
        (FsNumberView::NegativeInfinity, _) => FsNumberView::NegativeInfinity,
        (FsNumberView::PositiveInfinity, _) => FsNumberView::PositiveInfinity,
        (_, FsNumberView::PositiveInfinity) => FsNumberView::PositiveInfinity,
        (_, FsNumberView::NegativeInfinity) => FsNumberView::NegativeInfinity,
        (FsNumberView::Number(x), FsNumberView::Number(y)) => FsNumberView::Number(
            decimal_sum(x, y),
        ),
    }
}

/// Two finite numbers can be added: their scales are close enough for the
/// exact sum to be formed.
pub open spec fn addable(a: FsNumberView, b: FsNumberView) -> bool {
    (a, b) matches (FsNumberView::Number(x), FsNumberView::Number(y)) ==> scales_close(x, y)
}

impl FsNumber {
    /// Whether the two numbers hold the same.
    pub fn equals(&self, other: &FsNumber) -> (r: bool)
        ensures
            r == (self@ == other@),
    {
        match (self, other) {
            (FsNumber::NAN, FsNumber::NAN) => true,
            (FsNumber::NegativeInfinity, FsNumber::NegativeInfinity) => true,
            (FsNumber::PositiveInfinity, FsNumber::PositiveInfinity) => true,
            (FsNumber::Number(x), FsNumber::Number(y)) => x.equals(y),
            _ => false,
        }
    }

    /// A copy with the same view.
    pub fn duplicate(&self) -> (r: FsNumber)
        ensures
            r@ == self@,
    {
        match self {
            FsNumber::NAN => FsNumber::NAN,
            FsNumber::NegativeInfinity => FsNumber::NegativeInfinity,
            FsNumber::Number(d) => FsNumber::Number(d.duplicate()),
            FsNumber::PositiveInfinity => FsNumber::PositiveInfinity,
        }
    }

    /// Compares two numbers by the total order `number_order`.
    pub fn cmp(&self, other: &FsNumber) -> (r: Ordering)
        ensures
            r == number_order(self@, other@),
    {
        if self.equals(other) {
            return Ordering::Equal;
        }
        match (self, other) {
            (FsNumber::NAN, _) => Ordering::Less,
            (FsNumber::PositiveInfinity, _) => Ordering::Greater,
            (FsNumber::NegativeInfinity, FsNumber::NAN) => Ordering::Greater,
            (FsNumber::NegativeInfinity, _) => Ordering::Less,
            (FsNumber::Number(_), FsNumber::NAN) => Ordering::Greater,
            (FsNumber::Number(_), FsNumber::PositiveInfinity) => Ordering::Less,
            (FsNumber::Number(_), FsNumber::NegativeInfinity) => Ordering::Greater,
            (FsNumber::Number(x), FsNumber::Number(y)) => x.compare(y),
        }
    }

    /// Whether the two numbers can be added (`addable`).
    pub fn can_add(&self, other: &FsNumber) -> (r: bool)
        ensures
            r == addable(self@, other@),
    {
        match (self, other) {
            (FsNumber::Number(x), FsNumber::Number(y)) => x.close_to(y),
            _ => true,
        }
    }

    /// Adds two numbers by the table of `number_add`; finite numbers add
    /// exactly.
    pub fn add(self, other: FsNumber) -> (r: FsNumber)
        requires
            addable(self@, other@),
        ensures
            r@ == number_add(self@, other@),
    {
        match (self, other) {
            (FsNumber::NAN, _) => FsNumber::NAN,
            (_, FsNumber::NAN) => FsNumber::NAN,
            (FsNumber::NegativeInfinity, _) => FsNumber::NegativeInfinity,
            (FsNumber::PositiveInfinity, _) => FsNumber::PositiveInfinity,
            (_, FsNumber::PositiveInfinity) => FsNumber::PositiveInfinity,
            (_, FsNumber::NegativeInfinity) => FsNumber::NegativeInfinity,
            (FsNumber::Number(x), FsNumber::Number(y)) => FsNumber::Number(x.sum(&y)),
        }
    }
}

// The layout of a JSON number literal,
// `-?(0|[1-9][0-9]*)(\.[0-9]+)?([eE][+-]?[0-9]+)?`: where its integer digits,
// fraction digits and exponent digits lie.

pub open spec fn int_start(s: Seq<char>) -> int {
    if s.len() > 0 && s[0] == '-' {
        1
    } else {
        0
    }
}

pub open spec fn int_end(s: Seq<char>) -> int {
    run_end(s, int_start(s))
}

pub open spec fn has_frac(s: Seq<char>) -> bool {
    int_end(s) < s.len() && s[int_end(s)] == '.'
}

pub open spec fn frac_end(s: Seq<char>) -> int {
    if has_frac(s) {
        run_end(s, int_end(s) + 1)
    } else {
        int_end(s)
    }
}

pub open spec fn has_exp(s: Seq<char>) -> bool {
    frac_end(s) < s.len() && (s[frac_end(s)] == 'e' || s[frac_end(s)] == 'E')
}

pub open spec fn exp_signed(s: Seq<char>) -> bool {
    has_exp(s) && frac_end(s) + 1 < s.len() && (s[frac_end(s) + 1] == '-' || s[frac_end(s) + 1]
        == '+')
}

pub open spec fn exp_neg(s: Seq<char>) -> bool {
    exp_signed(s) && s[frac_end(s) + 1] == '-'
}

pub open spec fn exp_start(s: Seq<char>) -> int {
    if exp_signed(s) {
        frac_end(s) + 2
    } else {
        frac_end(s) + 1
    }
}

pub open spec fn exp_end(s: Seq<char>) -> int {
    if has_exp(s) {
        run_end(s, exp_start(s))
    } else {
        frac_end(s)
    }
}

/// `s` is a JSON number literal.
pub open spec fn is_number_literal(s: Seq<char>) -> bool {
    &&& int_end(s) > int_start(s)
    &&& (s[int_start(s)] != '0' || int_end(s) == int_start(s) + 1)
    &&& (has_frac(s) ==> frac_end(s) > int_end(s) + 1)
    &&& (has_exp(s) ==> exp_end(s) > exp_start(s))
    &&& exp_end(s) == s.len()
}

pub open spec fn frac_digits(s: Seq<char>) -> Seq<char> {
    if has_frac(s) {
        s.subrange(int_end(s) + 1, frac_end(s))
    } else {
        Seq::empty()
    }
}

/// The value of the literal's digits, integer and fraction together.
pub open spec fn literal_magnitude(s: Seq<char>) -> int {
    digits_value(s.subrange(int_start(s), int_end(s)) + frac_digits(s))
}

/// The literal's exponent, with its sign.
pub open spec fn literal_exponent(s: Seq<char>) -> int {
    if !has_exp(s) {
        0
    } else if exp_neg(s) {
        -digits_value(s.subrange(exp_start(s), exp_end(s)))
    } else {
        digits_value(s.subrange(exp_start(s), exp_end(s)))
    }
}


/// The positions of a number literal's parts, where `s` is one:
/// `(int_end, frac_end, exp_start)`.
fn literal_layout(s: &str, n: usize) -> (r: Option<(usize, usize, usize)>)
    requires
        n == s@.len(),
    ensures
        r is Some <==> is_number_literal(s@),
        r matches Some((b, c, d)) ==> b == int_end(s@) && c == frac_end(s@) && (has_exp(s@)
            ==> d == exp_start(s@)),
{
    let neg = n > 0 && s.get_char(0) == '-';
    let a: usize = if neg {
        1
    } else {
        0
    };
    let b = scan_digits(s, n, a);
    if b == a {
        return None;
    }
    if s.get_char(a) == '0' && b != a + 1 {
        return None;
    }
    let frac = b < n && s.get_char(b) == '.';
    let c = if frac {
        scan_digits(s, n, b + 1)
    } else {
        b
    };
    if frac && c == b + 1 {
        return None;
    }
    let exp = c < n && (s.get_char(c) == 'e' || s.get_char(c) == 'E');
    if !exp {
        if c != n {
            return None;
        }
        return Some((b, c, c));
    }
    let signed = c + 1 < n && (s.get_char(c + 1) == '-' || s.get_char(c + 1) == '+');
    let d = if signed {
        c + 2
    } else {
        c + 1
    };
    let e = scan_digits(s, n, d);
    if e == d || e != n {
        return None;
    }
    proof {
        lemma_run_end(s@, a as int);
        lemma_run_end(s@, d as int);
        if frac {
            lemma_run_end(s@, b + 1);
        }
        assert(int_start(s@) == a);
        assert(int_end(s@) == b);
        assert(has_frac(s@) == frac);
        assert(frac_end(s@) == c);
        assert(has_exp(s@));
        assert(exp_signed(s@) == signed);
        assert(exp_start(s@) == d);
        assert(exp_end(s@) == e);
    }
    Some((b, c, d))
}


/// Whether serde_json's reading of a number literal as a double overflows to
/// infinity.
pub uninterp spec fn double_overflows(s: Seq<char>) -> bool;

/// Relies on `serde_json::Number::from_str`: for a JSON number literal it
/// fails exactly where its double for the literal is infinite ("number out of
/// range").
#[verifier::external_body]
fn literal_overflows(s: &str) -> (r: bool)
    requires
        is_number_literal(s@),
    ensures
        r == double_overflows(s@),
{
    <serde_json::Number as std::str::FromStr>::from_str(s).is_err()
}

/// The literal's scale: its fraction digits less its exponent.
pub open spec fn literal_scale(s: Seq<char>) -> int {
    frac_digits(s).len() - literal_exponent(s)
}

/// The literal's mantissa, with its sign.
pub open spec fn literal_mantissa(s: Seq<char>) -> int {
    if int_start(s) == 1 {
        -literal_magnitude(s)
    } else {
        literal_magnitude(s)
    }
}

/// The literal's digits, integer and fraction together.
pub open spec fn literal_digits(s: Seq<char>) -> Seq<char> {
    s.subrange(int_start(s), int_end(s)) + frac_digits(s)
}

/// The number of zeros that end a digit string.
pub open spec fn trailing_zeros(d: Seq<char>) -> nat
    decreases d.len(),
{
    if d.len() > 0 && d.last() == '0' {
        trailing_zeros(d.drop_last()) + 1
    } else {
        0
    }
}

/// The literal's mantissa without its trailing zeros, with its sign.
pub open spec fn stripped_mantissa(s: Seq<char>) -> int {
    let d = literal_digits(s);
    let v = digits_value(d.subrange(0, d.len() - trailing_zeros(d)));
    if int_start(s) == 1 {
        -v
    } else {
        v
    }
}

/// The scale that goes with `stripped_mantissa`.
pub open spec fn stripped_scale(s: Seq<char>) -> int {
    literal_scale(s) - trailing_zeros(literal_digits(s))
}

/// What a number literal reads as, given whether its double overflows. Where
/// it does, the infinity of its sign; otherwise the exact decimal it writes,
/// its digits as written. A non-zero value whose scale, trailing zeros
/// removed, lies beyond `i64` lies beyond every double: below them it reads as
/// zero, above them as the infinity of its sign. Where only the written scale
/// leaves `i64`, the mantissa loses its trailing zeros.
pub open spec fn literal_number_with(s: Seq<char>, overflows: bool) -> FsNumberView {
    let m = literal_mantissa(s);
    let sc = literal_scale(s);
    let ss = stripped_scale(s);
    let infinite = if int_start(s) == 1 {
        FsNumberView::NegativeInfinity
    } else {
        FsNumberView::PositiveInfinity
    };
    if overflows {
        infinite
    } else if m == 0 {
        FsNumberView::Number(
            DecimalView {
                mantissa: 0,
                scale: if i64::MIN <= sc <= i64::MAX {
                    sc
                } else {
                    0
                },
            },
        )
    } else if ss < i64::MIN {
        infinite
    } else if ss > i64::MAX {
        FsNumberView::Number(DecimalView { mantissa: 0, scale: 0 })
    } else if sc <= i64::MAX {
        FsNumberView::Number(DecimalView { mantissa: m, scale: sc })
    } else {
        FsNumberView::Number(DecimalView { mantissa: stripped_mantissa(s), scale: ss })
    }
}

/// What a number literal reads as, by serde_json's verdict on its double.
pub open spec fn literal_number(s: Seq<char>) -> FsNumberView {
    literal_number_with(s, double_overflows(s))
}

/// What the text `s` names: one of the literals `NaN`, `-Infinity` and
/// `Infinity`, or a JSON number literal by `literal_number`.
pub open spec fn number_of_text(s: Seq<char>) -> Option<FsNumberView> {
    if s == "NaN"@ {
        Some(FsNumberView::NAN)
    } else if s == "-Infinity"@ {
        Some(FsNumberView::NegativeInfinity)
    } else if s == "Infinity"@ {
        Some(FsNumberView::PositiveInfinity)
    } else if is_number_literal(s) {
        Some(literal_number(s))
    } else {
        None
    }
}

const EXPONENT_BOUND: u128 = 0x40_0000_0000_0000_0000;

/// The mantissa text of a literal's digits: without leading zeros, with a
/// `-` where the literal has one and the value is not zero.
fn mantissa_of_digits(digits: &Vec<char>, negative: bool) -> (r: String)
    requires
        all_digits(digits@),
    ensures
        r@ == int_text(if negative {
            -digits_value(digits@)
        } else {
            digits_value(digits@)
        }),
{
    let n = digits.len();
    let mut k: usize = 0;
    while k < n && digits[k] == '0'
        invariant
            k <= n == digits@.len(),
            forall|i: int| 0 <= i < k ==> digits@[i] == '0',
        decreases n - k,
    {
        k = k + 1;
    }
    proof {
        lemma_leading_zeros(digits@, k as int);
    }
    let mut out: Vec<char> = Vec::new();
    if k == n {
        out.push('0');
        proof {
            assert(digits@.subrange(k as int, n as int) =~= Seq::<char>::empty());
            assert(nat_text(0) == seq!['0']);
            assert(out@ =~= int_text(0));
        }
        return string_of_chars(&out);
    }
    let ghost rest = digits@.subrange(k as int, n as int);
    proof {
        assert(all_digits(rest)) by {
            assert forall|i: int| 0 <= i < rest.len() implies is_digit(#[trigger] rest[i]) by {
                assert(rest[i] == digits@[k + i]);
            }
        }
        lemma_canonical_digits(rest);
    }
    if negative {
        out.push('-');
    }
    let mut i = k;
    while i < n
        invariant
            k <= i <= n == digits@.len(),
            out@ == (if negative {
                seq!['-']
            } else {
                Seq::<char>::empty()
            }) + digits@.subrange(k as int, i as int),
        decreases n - i,
    {
        out.push(digits[i]);
        i = i + 1;
        proof {
            assert(out@ =~= (if negative {
                seq!['-']
            } else {
                Seq::<char>::empty()
            }) + digits@.subrange(k as int, i as int));
        }
    }
    proof {
        assert(out@ =~= int_text(if negative {
            -digits_value(digits@)
        } else {
            digits_value(digits@)
        }));
    }
    string_of_chars(&out)
}

/// Reads a JSON number literal by `literal_number_with`, given whether its
/// double overflows.
fn parse_literal(s: &str, n: usize, b: usize, c: usize, d: usize, overflows: bool) -> (r: FsNumber)
    requires
        n == s@.len(),
        is_number_literal(s@),
        b == int_end(s@),
        c == frac_end(s@),
        has_exp(s@) ==> d == exp_start(s@),
    ensures
        r@ == literal_number_with(s@, overflows),
{
    let ghost t = s@;
    let negative = s.get_char(0) == '-';
    let a: usize = if negative {
        1
    } else {
        0
    };
    let frac = c > b;
    proof {
        lemma_run_end(t, a as int);
        if has_frac(t) {
            lemma_run_end(t, b + 1);
        }
        if has_exp(t) {
            lemma_run_end(t, d as int);
        }
    }
    let mut digits: Vec<char> = Vec::new();
    push_range(&mut digits, s, a, b);
    if frac {
        push_range(&mut digits, s, b + 1, c);
    }
    proof {
        assert(digits@ =~= t.subrange(a as int, b as int) + frac_digits(t));
        assert(all_digits(digits@)) by {
            let x = t.subrange(a as int, b as int);
            let y = frac_digits(t);
            assert forall|i: int| 0 <= i < digits@.len() implies is_digit(#[trigger] digits@[i]) by {
                if i < x.len() {
                    assert(digits@[i] == x[i]);
                } else {
                    assert(digits@[i] == y[i - x.len()]);
                }
            }
        }
    }
    let mantissa = mantissa_of_digits(&digits, negative);
    if overflows {
        return if negative {
            FsNumber::NegativeInfinity
        } else {
            FsNumber::PositiveInfinity
        };
    }
    let exp = c < n;
    let mut ev: u128 = 0;
    if exp {
        proof {
            assert(Seq::<char>::empty() + t.subrange(d as int, n as int) =~= t.subrange(
                d as int,
                n as int,
            ));
        }
        ev = accumulate_digits(s, d, n, 0, Ghost(Seq::empty()));
    }
    let exp_negative = exp && s.get_char(c + 1) == '-';
    let frac_len: usize = if frac {
        c - b - 1
    } else {
        0
    };
    proof {
        crate::text::lemma_digits_value_nonneg(digits@);
        if exp {
            crate::text::lemma_digits_value_nonneg(t.subrange(d as int, n as int));
        }
    }
    decide_literal(&digits, negative, mantissa, frac_len, ev, exp_negative, Ghost(t))
}

const EXPONENT_FLOOR: i128 = 0x40_0000_0000_0000_0000;

/// The reading of a literal whose double does not overflow, from its digits,
/// its mantissa text, and its scale (exactly, or as beyond any `i64` where the
/// exponent is too long).
fn decide_literal(
    digits: &Vec<char>,
    negative: bool,
    mantissa: String,
    frac_len: usize,
    ev: u128,
    exp_negative: bool,
    Ghost(t): Ghost<Seq<char>>,
) -> (r: FsNumber)
    requires
        all_digits(digits@),
        digits@ == literal_digits(t),
        negative == (int_start(t) == 1),
        mantissa@ == int_text(literal_mantissa(t)),
        literal_mantissa(t) == (if negative {
            -digits_value(digits@)
        } else {
            digits_value(digits@)
        }),
        ev <= EXPONENT_BOUND ==> literal_scale(t) == (if exp_negative {
            frac_len + ev
        } else {
            frac_len - ev
        }),
        ev > EXPONENT_BOUND ==> (if exp_negative {
            literal_scale(t) > EXPONENT_FLOOR
        } else {
            literal_scale(t) < frac_len - EXPONENT_FLOOR
        }),
    ensures
        r@ == literal_number_with(t, false),
{
    let zero = digits_all_zero(digits);
    proof {
        lemma_int_text_value(literal_mantissa(t));
        crate::text::lemma_digits_value_nonneg(digits@);
        lemma_int_text_value(0);
    }
    if zero {
        if ev > EXPONENT_BOUND {
            return FsNumber::Number(Decimal { mantissa: zero_text(), scale: 0 });
        }
        let sc0: i128 = if exp_negative {
            frac_len as i128 + ev as i128
        } else {
            frac_len as i128 - ev as i128
        };
        if sc0 < i64::MIN as i128 || sc0 > i64::MAX as i128 {
            return FsNumber::Number(Decimal { mantissa: zero_text(), scale: 0 });
        }
        return FsNumber::Number(Decimal { mantissa: zero_text(), scale: sc0 as i64 });
    }
    let z = count_trailing_zeros(digits);
    proof {
        lemma_trailing_zeros(digits@);
    }
    if ev > EXPONENT_BOUND {
        if exp_negative {
            return FsNumber::Number(Decimal { mantissa: zero_text(), scale: 0 });
        }
        return if negative {
            FsNumber::NegativeInfinity
        } else {
            FsNumber::PositiveInfinity
        };
    }
    let sc: i128 = if exp_negative {
        frac_len as i128 + ev as i128
    } else {
        frac_len as i128 - ev as i128
    };
    let ss: i128 = sc - z as i128;
    if ss < i64::MIN as i128 {
        return if negative {
            FsNumber::NegativeInfinity
        } else {
            FsNumber::PositiveInfinity
        };
    }
    if ss > i64::MAX as i128 {
        return FsNumber::Number(Decimal { mantissa: zero_text(), scale: 0 });
    }
    if sc <= i64::MAX as i128 {
        return FsNumber::Number(Decimal { mantissa, scale: sc as i64 });
    }
    let mut prefix: Vec<char> = Vec::new();
    let keep = digits.len() - z;
    let mut i: usize = 0;
    while i < keep
        invariant
            keep <= digits@.len(),
            i <= keep,
            prefix@ == digits@.subrange(0, i as int),
        decreases keep - i,
    {
        prefix.push(digits[i]);
        i = i + 1;
        proof {
            assert(prefix@ =~= digits@.subrange(0, i as int));
        }
    }
    proof {
        assert(all_digits(prefix@)) by {
            assert forall|k: int| 0 <= k < prefix@.len() implies is_digit(#[trigger] prefix@[k]) by {
                assert(prefix@[k] == digits@[k]);
            }
        }
    }
    let stripped = mantissa_of_digits(&prefix, negative);
    proof {
        lemma_int_text_value(stripped_mantissa(t));
    }
    FsNumber::Number(Decimal { mantissa: stripped, scale: ss as i64 })
}

/// The number of zeros that end the digits.
fn count_trailing_zeros(digits: &Vec<char>) -> (r: usize)
    ensures
        r == trailing_zeros(digits@),
{
    let n = digits.len();
    let mut k: usize = 0;
    while k < n && digits[n - 1 - k] == '0'
        invariant
            k <= n == digits@.len(),
            forall|i: int| n - k <= i < n ==> digits@[i] == '0',
        decreases n - k,
    {
        k = k + 1;
    }
    proof {
        lemma_trailing_zeros_count(digits@, k as int);
    }
    k
}

/// The text `0`.
fn zero_text() -> (r: String)
    ensures
        r@ == int_text(0),
        text_value(r@) == 0,
{
    let mut out: Vec<char> = Vec::new();
    out.push('0');
    proof {
        assert(nat_text(0) == seq!['0']);
        assert(out@ =~= int_text(0));
        lemma_int_text_value(0);
    }
    string_of_chars(&out)
}

/// Whether every digit is zero, that is, whether their value is zero.
fn digits_all_zero(digits: &Vec<char>) -> (r: bool)
    requires
        all_digits(digits@),
    ensures
        r == (digits_value(digits@) == 0),
{
    let n = digits.len();
    let mut k: usize = 0;
    while k < n && digits[k] == '0'
        invariant
            k <= n == digits@.len(),
            forall|i: int| 0 <= i < k ==> digits@[i] == '0',
        decreases n - k,
    {
        k = k + 1;
    }
    proof {
        lemma_leading_zeros(digits@, k as int);
        if k < n {
            let rest = digits@.subrange(k as int, n as int);
            assert(all_digits(rest)) by {
                assert forall|i: int| 0 <= i < rest.len() implies is_digit(#[trigger] rest[i]) by {
                    assert(rest[i] == digits@[k + i]);
                }
            }
            lemma_canonical_digits(rest);
        } else {
            assert(digits@.subrange(k as int, n as int) =~= Seq::<char>::empty());
        }
    }
    k == n
}

impl FsNumber {
    /// Reads `NaN`, `-Infinity`, `Infinity` or a JSON number literal; any
    /// other text is an `InvalidValue` error that carries the text.
    pub fn from_str(s: &str) -> (r: Result<FsNumber, FsError>)
        ensures
            match number_of_text(s@) {
                Some(x) => r matches Ok(v) && v@ == x,
                None => r matches Err(e) && e matches FsError::InvalidValue(m) && m@
                    == "not a number literal: "@ + s@,
            },
    {
        if str_equals(s, "NaN") {
            Ok(FsNumber::NAN)
        } else if str_equals(s, "-Infinity") {
            Ok(FsNumber::NegativeInfinity)
        } else if str_equals(s, "Infinity") {
            Ok(FsNumber::PositiveInfinity)
        } else {
            let n = s.unicode_len();
            match literal_layout(s, n) {
                Some((b, c, d)) => Ok(parse_literal(s, n, b, c, d, literal_overflows(s))),
                None => Err(
                    FsError::InvalidValue(String::from_str("not a number literal: ").concat(s)),
                ),
            }
        }
    }
}

/// Any text that reads as a number compares `Equal` with itself.
pub proof fn lemma_parsed_number_equals_itself(t: Seq<char>)
    requires
        number_of_text(t) is Some,
    ensures
        number_order(number_of_text(t)->0, number_of_text(t)->0) == Ordering::Equal,
{
}

/// Decimals of the same value compare `Equal`, in either order, however
/// their digits are written.
pub proof fn lemma_same_value_equal(x: DecimalView, y: DecimalView)
    requires
        x.at_scale(common_scale(x, y)) == y.at_scale(common_scale(x, y)),
    ensures
        number_order(FsNumberView::Number(x), FsNumberView::Number(y)) == Ordering::Equal,
        number_order(FsNumberView::Number(y), FsNumberView::Number(x)) == Ordering::Equal,
{
    assert(common_scale(x, y) == common_scale(y, x));
}

/// A trailing zero in the fraction does not change a number's place in the
/// order.
pub proof fn lemma_trailing_zero_equal(d: DecimalView)
    ensures
        ({
            let e = DecimalView { mantissa: d.mantissa * 10, scale: d.scale + 1 };
            &&& number_order(FsNumberView::Number(d), FsNumberView::Number(e)) == Ordering::Equal
            &&& number_order(FsNumberView::Number(e), FsNumberView::Number(d)) == Ordering::Equal
        }),
{
    let e = DecimalView { mantissa: d.mantissa * 10, scale: d.scale + 1 };
    assert(pow10(1) == 10) by {
        reveal_with_fuel(pow10, 2);
    }
    assert(common_scale(d, e) == d.scale + 1);
    assert(d.at_scale(d.scale + 1) == d.mantissa * 10);
    assert(e.at_scale(d.scale + 1) == e.mantissa * 1);
    lemma_same_value_equal(d, e);
}

/// Finite numbers are ordered by value, in both directions: where `a` is
/// less than `b`, `a` compares `Less` and `b` compares `Greater`.
pub proof fn lemma_finite_order(a: DecimalView, b: DecimalView)
    requires
        a.at_scale(common_scale(a, b)) < b.at_scale(common_scale(a, b)),
    ensures
        number_order(FsNumberView::Number(a), FsNumberView::Number(b)) == Ordering::Less,
        number_order(FsNumberView::Number(b), FsNumberView::Number(a)) == Ordering::Greater,
{
    assert(common_scale(a, b) == common_scale(b, a));
}

/// The order is antisymmetric: swapping the operands reverses the result.
pub proof fn lemma_number_order_antisymmetric(a: FsNumberView, b: FsNumberView)
    ensures
        number_order(b, a) == reversed(number_order(a, b)),
{
    if let (FsNumberView::Number(x), FsNumberView::Number(y)) = (a, b) {
        assert(common_scale(x, y) == common_scale(y, x));
    }
}

/// `NAN` is below every other number and `PositiveInfinity` above every other
/// number.
pub proof fn lemma_sentinel_ranks(x: FsNumberView)
    ensures
        x != FsNumberView::NAN ==> number_order(FsNumberView::NAN, x) == Ordering::Less,
        x != FsNumberView::PositiveInfinity ==> number_order(FsNumberView::PositiveInfinity, x)
            == Ordering::Greater,
        x != FsNumberView::NAN && x != FsNumberView::NegativeInfinity ==> number_order(
            FsNumberView::NegativeInfinity,
            x,
        ) == Ordering::Less,
{
}

/// None of the words `NaN`, `-Infinity` and `Infinity` is a number literal.
proof fn lemma_words_are_not_literals()
    ensures
        !is_number_literal("NaN"@),
        !is_number_literal("-Infinity"@),
        !is_number_literal("Infinity"@),
{
    reveal_strlit("NaN");
    reveal_strlit("-Infinity");
    reveal_strlit("Infinity");
    assert(run_end("NaN"@, 0) == 0);
    assert(run_end("Infinity"@, 0) == 0);
    assert(run_end("-Infinity"@, 1) == 1);
}

/// The literal's digits are digits; its mantissa is its stripped mantissa
/// times a power of ten, and its scale the stripped scale plus that power; a
/// non-zero stripped mantissa is not a multiple of ten and has the literal's
/// sign.
proof fn lemma_stripped(s: Seq<char>)
    requires
        is_number_literal(s),
    ensures
        all_digits(literal_digits(s)),
        ({
            let z = trailing_zeros(literal_digits(s));
            &&& literal_mantissa(s) == stripped_mantissa(s) * pow10(z)
            &&& literal_scale(s) == stripped_scale(s) + z
        }),
        literal_mantissa(s) != 0 ==> stripped_mantissa(s) % 10 != 0 && stripped_mantissa(s)
            != 0 && ((int_start(s) == 1) == (stripped_mantissa(s) < 0)),
{
    let a = int_start(s);
    let b = int_end(s);
    lemma_run_end(s, a);
    if has_frac(s) {
        lemma_run_end(s, b + 1);
    }
    let x = s.subrange(a, b);
    let y = frac_digits(s);
    let d = literal_digits(s);
    assert(all_digits(d)) by {
        assert forall|i: int| 0 <= i < d.len() implies is_digit(#[trigger] d[i]) by {
            if i < x.len() {
                assert(d[i] == x[i]);
            } else {
                assert(d[i] == y[i - x.len()]);
            }
        }
    }
    lemma_trailing_zeros(d);
    let z = trailing_zeros(d);
    let p = d.subrange(0, d.len() - z);
    assert(all_digits(p)) by {
        assert forall|i: int| 0 <= i < p.len() implies is_digit(#[trigger] p[i]) by {
            assert(p[i] == d[i]);
        }
    }
    crate::text::lemma_digits_value_nonneg(p);
    lemma_pow10_add(z, 0);
    let v = digits_value(p);
    assert(literal_magnitude(s) == v * pow10(z));
    assert(-(v * pow10(z)) == (-v) * pow10(z)) by (nonlinear_arith);
    if literal_mantissa(s) != 0 {
        if z == d.len() {
            assert(p =~= Seq::<char>::empty());
            assert(v == 0);
            assert(v * pow10(z) == 0) by (nonlinear_arith) requires v == 0;
        }
        assert(p.last() == d[d.len() - 1 - z]);
        lemma_not_multiple_of_ten(p, a == 1);
    }
}

/// A decimal whose mantissa is another's times `10^z`, and whose scale is the
/// other's plus `z`, has the other's value at every scale at or above its own.
proof fn lemma_value_lift(m: int, sc: int, m2: int, sc2: int, z: nat, t: int)
    requires
        m == m2 * pow10(z),
        sc == sc2 + z,
        t >= sc,
    ensures
        m * pow10((t - sc) as nat) == m2 * pow10((t - sc2) as nat),
{
    let q = (t - sc) as nat;
    lemma_pow10_add(z, q);
    assert((t - sc2) as nat == z + q);
    assert(m2 * pow10(z) * pow10(q) == m2 * (pow10(z) * pow10(q))) by (nonlinear_arith);
}

/// A non-zero literal within range reads as a decimal that has, at every
/// scale at or above its own, the value of the stripped decimal.
proof fn lemma_reading_value(s: Seq<char>, t: int)
    requires
        is_number_literal(s),
        literal_mantissa(s) != 0,
        i64::MIN <= stripped_scale(s) <= i64::MAX,
        t >= (if literal_scale(s) <= i64::MAX {
            literal_scale(s)
        } else {
            stripped_scale(s)
        }),
    ensures
        literal_number_with(s, false) matches FsNumberView::Number(x) && x.scale == (if literal_scale(
            s,
        ) <= i64::MAX {
            literal_scale(s)
        } else {
            stripped_scale(s)
        }) && x.at_scale(t) == stripped_mantissa(s) * pow10((t - stripped_scale(s)) as nat),
{
    lemma_stripped(s);
    let z = trailing_zeros(literal_digits(s));
    if literal_scale(s) <= i64::MAX {
        lemma_value_lift(
            literal_mantissa(s),
            literal_scale(s),
            stripped_mantissa(s),
            stripped_scale(s),
            z,
            t,
        );
    }
}

/// Two number literals that write the same value read as numbers that
/// compare `Equal`, however their digits are written (`0` and `0.0`, `100`
/// and `1e2`), where neither double overflows.
pub proof fn lemma_literal_value_decides_order(s: Seq<char>, u: Seq<char>)
    requires
        is_number_literal(s),
        is_number_literal(u),
        !double_overflows(s),
        !double_overflows(u),
        ({
            let x = DecimalView { mantissa: literal_mantissa(s), scale: literal_scale(s) };
            let y = DecimalView { mantissa: literal_mantissa(u), scale: literal_scale(u) };
            x.at_scale(common_scale(x, y)) == y.at_scale(common_scale(x, y))
        }),
    ensures
        number_of_text(s) matches Some(a) && number_of_text(u) matches Some(b)
            && number_order(a, b) == Ordering::Equal && number_order(b, a) == Ordering::Equal,
{
    lemma_words_are_not_literals();
    lemma_stripped(s);
    lemma_stripped(u);
    let x = DecimalView { mantissa: literal_mantissa(s), scale: literal_scale(s) };
    let y = DecimalView { mantissa: literal_mantissa(u), scale: literal_scale(u) };
    let c = common_scale(x, y);
    let ps = pow10((c - x.scale) as nat);
    let pu = pow10((c - y.scale) as nat);
    lemma_pow10_add((c - x.scale) as nat, 0);
    lemma_pow10_add((c - y.scale) as nat, 0);
    let a = literal_number_with(s, false);
    let b = literal_number_with(u, false);
    if x.mantissa == 0 || y.mantissa == 0 {
        assert(x.mantissa == 0 && y.mantissa == 0) by (nonlinear_arith)
            requires
                x.mantissa * ps == y.mantissa * pu,
                ps > 0,
                pu > 0,
                x.mantissa == 0 || y.mantissa == 0,
        ;
        let xa = a->Number_0;
        let yb = b->Number_0;
        assert(xa.mantissa == 0 && yb.mantissa == 0);
        assert(xa.at_scale(common_scale(xa, yb)) == 0) by (nonlinear_arith)
            requires xa.mantissa == 0;
        assert(yb.at_scale(common_scale(xa, yb)) == 0) by (nonlinear_arith)
            requires yb.mantissa == 0;
        lemma_same_value_equal(xa, yb);
    } else {
        let zs = trailing_zeros(literal_digits(s));
        let zu = trailing_zeros(literal_digits(u));
        lemma_value_lift(x.mantissa, x.scale, stripped_mantissa(s), stripped_scale(s), zs, c);
        lemma_value_lift(y.mantissa, y.scale, stripped_mantissa(u), stripped_scale(u), zu, c);
        let xs = DecimalView { mantissa: stripped_mantissa(s), scale: stripped_scale(s) };
        let ys = DecimalView { mantissa: stripped_mantissa(u), scale: stripped_scale(u) };
        lemma_unique_stripped(xs, ys, c);
        if i64::MIN <= stripped_scale(s) <= i64::MAX {
            let ts = if literal_scale(s) <= i64::MAX {
                literal_scale(s)
            } else {
                stripped_scale(s)
            };
            let tu = if literal_scale(u) <= i64::MAX {
                literal_scale(u)
            } else {
                stripped_scale(u)
            };
            let t = if ts >= tu {
                ts
            } else {
                tu
            };
            lemma_reading_value(s, t);
            lemma_reading_value(u, t);
            let xa = a->Number_0;
            let yb = b->Number_0;
            assert(common_scale(xa, yb) == t);
            lemma_same_value_equal(xa, yb);
        }
    }
}

impl FsNumber {
    /// Reads a JSON number literal, given whether its double overflows, by
    /// `literal_number_with`; `None` where `s` is not a literal.
    pub fn from_literal(s: &str, overflows: bool) -> (r: Option<FsNumber>)
        ensures
            is_number_literal(s@) ==> (r matches Some(x) && x@ == literal_number_with(s@, overflows)),
            !is_number_literal(s@) ==> r is None,
    {
        let n = s.unicode_len();
        match literal_layout(s, n) {
            Some((b, c, d)) => Some(parse_literal(s, n, b, c, d, overflows)),
            None => None,
        }
    }
}

/// A count `k` of zeros that end `d`, with no zero before them, is its number
/// of trailing zeros.
proof fn lemma_trailing_zeros_count(d: Seq<char>, k: int)
    requires
        0 <= k <= d.len(),
        forall|i: int| d.len() - k <= i < d.len() ==> d[i] == '0',
        k < d.len() ==> d[d.len() - 1 - k] != '0',
    ensures
        trailing_zeros(d) == k,
    decreases k,
{
    if k > 0 {
        let e = d.drop_last();
        assert forall|i: int| e.len() - (k - 1) <= i < e.len() implies e[i] == '0' by {
            assert(e[i] == d[i]);
        }
        if k - 1 < e.len() {
            assert(e[e.len() - 1 - (k - 1)] == d[d.len() - 1 - k]);
        }
        lemma_trailing_zeros_count(e, k - 1);
    }
}

/// `10^(a + b) == 10^a * 10^b`, and powers of ten are positive.
pub proof fn lemma_pow10_add(a: nat, b: nat)
    ensures
        pow10(a + b) == pow10(a) * pow10(b),
        pow10(a) > 0,
    decreases a,
{
    if a > 0 {
        lemma_pow10_add((a - 1) as nat, b);
        assert(pow10(a + b) == 10 * pow10((a - 1 + b) as nat));
        assert(10 * (pow10((a - 1) as nat) * pow10(b)) == (10 * pow10((a - 1) as nat)) * pow10(b))
            by (nonlinear_arith);
    }
}

/// The zeros that end digits make a power of ten of their value: the digits
/// before them have the value divided by it, and do not end in zero.
pub proof fn lemma_trailing_zeros(d: Seq<char>)
    requires
        all_digits(d),
    ensures
        trailing_zeros(d) <= d.len(),
        digits_value(d) == digits_value(d.subrange(0, d.len() - trailing_zeros(d))) * pow10(
            trailing_zeros(d),
        ),
        trailing_zeros(d) < d.len() ==> d[d.len() - 1 - trailing_zeros(d)] != '0',
    decreases d.len(),
{
    if d.len() > 0 && d.last() == '0' {
        let e = d.drop_last();
        assert(all_digits(e)) by {
            assert forall|i: int| 0 <= i < e.len() implies is_digit(#[trigger] e[i]) by {
                assert(e[i] == d[i]);
            }
        }
        lemma_trailing_zeros(e);
        let z = trailing_zeros(e);
        assert(d.subrange(0, d.len() - (z + 1)) =~= e.subrange(0, e.len() - z));
        let w = digits_value(e.subrange(0, e.len() - z));
        assert(digits_value(d) == digits_value(e) * 10 + 0);
        assert(pow10(z + 1) == 10 * pow10(z));
        assert(w * pow10(z) * 10 == w * (10 * pow10(z))) by (nonlinear_arith);
        if z + 1 < d.len() {
            assert(e[e.len() - 1 - z] == d[d.len() - 1 - (z + 1)]);
        }
    } else {
        assert(d.subrange(0, d.len() as int) =~= d);
    }
}

/// Digits that do not end in zero have a value that is not a multiple of
/// ten, nor its negation.
proof fn lemma_not_multiple_of_ten(d: Seq<char>, negative: bool)
    requires
        all_digits(d),
        d.len() >= 1,
        d.last() != '0',
    ensures
        ({
            let v = if negative {
                -digits_value(d)
            } else {
                digits_value(d)
            };
            v % 10 != 0 && v != 0
        }),
{
    let e = d.drop_last();
    assert(all_digits(e)) by {
        assert forall|i: int| 0 <= i < e.len() implies is_digit(#[trigger] e[i]) by {
            assert(e[i] == d[i]);
        }
    }
    crate::text::lemma_digits_value_nonneg(e);
    let w = digits_value(e);
    let l = crate::text::digit_value(d.last());
    assert(is_digit(d[d.len() - 1]));
    assert(1 <= l <= 9);
    assert(digits_value(d) == w * 10 + l);
    assert((w * 10 + l) % 10 != 0 && (-(w * 10 + l)) % 10 != 0) by (nonlinear_arith)
        requires
            w >= 0,
            1 <= l <= 9,
    ;
}

/// Two decimals of the same value whose mantissas are not multiples of ten
/// are the same decimal.
proof fn lemma_unique_stripped(x: DecimalView, y: DecimalView, t: int)
    requires
        t >= x.scale,
        t >= y.scale,
        x.mantissa % 10 != 0,
        y.mantissa % 10 != 0,
        x.mantissa * pow10((t - x.scale) as nat) == y.mantissa * pow10((t - y.scale) as nat),
    ensures
        x == y,
{
    if x.scale < y.scale {
        let k = (y.scale - x.scale) as nat;
        let q = (t - y.scale) as nat;
        lemma_pow10_add(k, q);
        lemma_pow10_add(q, 0);
        assert((t - x.scale) as nat == k + q);
        assert(pow10(k) == 10 * pow10((k - 1) as nat));
        let p = pow10(q);
        let a = x.mantissa * pow10((k - 1) as nat);
        assert(x.mantissa * (pow10(k) * p) == y.mantissa * p);
        assert(y.mantissa == 10 * a) by (nonlinear_arith)
            requires
                x.mantissa * (pow10(k) * p) == y.mantissa * p,
                p > 0,
                pow10(k) == 10 * pow10((k - 1) as nat),
                a == x.mantissa * pow10((k - 1) as nat),
        ;
        assert((10 * a) % 10 == 0) by (nonlinear_arith);
    } else if y.scale < x.scale {
        let k = (x.scale - y.scale) as nat;
        let q = (t - x.scale) as nat;
        lemma_pow10_add(k, q);
        lemma_pow10_add(q, 0);
        assert((t - y.scale) as nat == k + q);
        assert(pow10(k) == 10 * pow10((k - 1) as nat));
        let p = pow10(q);
        let a = y.mantissa * pow10((k - 1) as nat);
        assert(y.mantissa * (pow10(k) * p) == x.mantissa * p);
        assert(x.mantissa == 10 * a) by (nonlinear_arith)
            requires
                y.mantissa * (pow10(k) * p) == x.mantissa * p,
                p > 0,
                pow10(k) == 10 * pow10((k - 1) as nat),
                a == y.mantissa * pow10((k - 1) as nat),
        ;
        assert((10 * a) % 10 == 0) by (nonlinear_arith);
    } else {
        let q = (t - x.scale) as nat;
        lemma_pow10_add(q, 0);
        assert(x.mantissa == y.mantissa) by (nonlinear_arith)
            requires
                x.mantissa * pow10(q) == y.mantissa * pow10(q),
                pow10(q) > 0,
        ;
    }
}

} // verus!
