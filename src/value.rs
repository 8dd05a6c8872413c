//! The document value: a closed tagged union with a total order across its
//! variants.
use crate::error::FsError;
use crate::number::{
    int_order, number_of_text, number_order, Decimal, DecimalView, FsNumber, FsNumberView,
};
use crate::reference::{path_order, reference_of_text, ElementView, FsReference};
use crate::text::{bytes_equal, bytes_order_from, chars_order, compare_bytes, compare_text};
use std::cmp::Ordering;
use vstd::prelude::*;

verus! {

/// A stored field or a whole document.
///
/// A map's entries are kept in strictly increasing key order, so each key
/// appears once and the order does not depend on how the map was built.
#[derive(Debug)]
pub enum FsValue {
    NULL,
    Boolean(bool),
    Number(FsNumber),
    /// Days since the epoch.
    Date(i32),
    String(String),
    Bytes(Vec<u8>),
    Reference(FsReference),
    GeoPoint(FsNumber, FsNumber),
    Array(Vec<FsValue>),
    Mapping(Vec<(String, FsValue)>),
}

/// What an `FsValue` holds.
pub enum ValueView {
    Null,
    Boolean(bool),
    Number(FsNumberView),
    Date(i32),
    String(Seq<char>),
    Bytes(Seq<u8>),
    Reference(Seq<ElementView>),
    GeoPoint(FsNumberView, FsNumberView),
    Array(Seq<ValueView>),
    Mapping(Seq<(Seq<char>, ValueView)>),
}

impl View for FsValue {
    type V = ValueView;

    open spec fn view(&self) -> ValueView
        decreases self, 0nat,
    {
        match self {
            FsValue::NULL => ValueView::Null,
            FsValue::Boolean(b) => ValueView::Boolean(*b),
            FsValue::Number(n) => ValueView::Number(n@),
            FsValue::Date(d) => ValueView::Date(*d),
            FsValue::String(s) => ValueView::String(s@),
            FsValue::Bytes(b) => ValueView::Bytes(b@),
            FsValue::Reference(r) => ValueView::Reference(r@),
            FsValue::GeoPoint(x, y) => ValueView::GeoPoint(x@, y@),
            FsValue::Array(items) => ValueView::Array(value_views(items@)),
            FsValue::Mapping(entries) => ValueView::Mapping(entry_views(entries@)),
        }
    }
}

/// The views of a sequence of values.
pub open spec fn value_views(s: Seq<FsValue>) -> Seq<ValueView>
    decreases s, 1nat,
{
    if s.len() == 0 {
        Seq::empty()
    } else {
        value_views(s.drop_last()).push(s.last().view())
    }
}

/// The views of a sequence of map entries.
pub open spec fn entry_views(s: Seq<(String, FsValue)>) -> Seq<(Seq<char>, ValueView)>
    decreases s, 1nat,
{
    if s.len() == 0 {
        Seq::empty()
    } else {
        entry_views(s.drop_last()).push((s.last().0@, s.last().1.view()))
    }
}

pub proof fn lemma_value_views(s: Seq<FsValue>)
    ensures
        value_views(s).len() == s.len(),
        forall|i: int| 0 <= i < s.len() ==> #[trigger] value_views(s)[i] == s[i]@,
    decreases s.len(),
{
    if s.len() > 0 {
        lemma_value_views(s.drop_last());
        assert(value_views(s) == value_views(s.drop_last()).push(s.last().view()));
    }
}

pub proof fn lemma_entry_views(s: Seq<(String, FsValue)>)
    ensures
        entry_views(s).len() == s.len(),
        forall|i: int| 0 <= i < s.len() ==> #[trigger] entry_views(s)[i] == (s[i].0@, s[i].1@),
    decreases s.len(),
{
    if s.len() > 0 {
        lemma_entry_views(s.drop_last());
        assert(entry_views(s) == entry_views(s.drop_last()).push((s.last().0@, s.last().1.view())));
    }
}

/// The position of a variant in the order across variants.
pub open spec fn rank(v: ValueView) -> int {
    match v {
        ValueView::Null => 0,
        ValueView::Boolean(_) => 1,
        ValueView::Number(_) => 2,
        ValueView::Date(_) => 3,
        ValueView::String(_) => 4,
        ValueView::Bytes(_) => 5,
        ValueView::Reference(_) => 6,
        ValueView::GeoPoint(_, _) => 7,
        ValueView::Array(_) => 8,
        ValueView::Mapping(_) => 9,
    }
}

/// The key at `i` sorts before the key after it.
pub open spec fn ordered_at(entries: Seq<(Seq<char>, ValueView)>, i: int) -> bool {
    chars_order(entries[i].0, entries[i + 1].0) == Ordering::Less
}

/// Keys in strictly increasing order.
pub open spec fn keys_increasing(entries: Seq<(Seq<char>, ValueView)>) -> bool {
    forall|i: int| 0 <= i < entries.len() - 1 ==> #[trigger] ordered_at(entries, i)
}

/// Well-formed: map keys strictly increase and byte strings fit the
/// addressable size, at every depth.
pub open spec fn value_wf(v: ValueView) -> bool
    decreases v, 0nat,
{
    match v {
        ValueView::Bytes(b) => b.len() <= isize::MAX,
        ValueView::Array(items) => values_wf_from(items, 0),
        ValueView::Mapping(entries) => keys_increasing(entries) && entries_wf_from(entries, 0),
        _ => true,
    }
}

pub open spec fn values_wf_from(items: Seq<ValueView>, i: int) -> bool
    decreases items, items.len() - i,
{
    if 0 <= i < items.len() {
        value_wf(items[i]) && values_wf_from(items, i + 1)
    } else {
        true
    }
}

pub open spec fn entries_wf_from(entries: Seq<(Seq<char>, ValueView)>, i: int) -> bool
    decreases entries, entries.len() - i,
{
    if 0 <= i < entries.len() {
        value_wf(entries[i].1) && entries_wf_from(entries, i + 1)
    } else {
        true
    }
}

pub proof fn lemma_values_wf(items: Seq<ValueView>, i: int, k: int)
    requires
        0 <= i <= k < items.len(),
        values_wf_from(items, i),
    ensures
        value_wf(items[k]),
    decreases k - i,
{
    if i < k {
        lemma_values_wf(items, i + 1, k);
    }
}

pub proof fn lemma_entries_wf(entries: Seq<(Seq<char>, ValueView)>, i: int, k: int)
    requires
        0 <= i <= k < entries.len(),
        entries_wf_from(entries, i),
    ensures
        value_wf(entries[k].1),
    decreases k - i,
{
    if i < k {
        lemma_entries_wf(entries, i + 1, k);
    }
}

/// The total order: values of different variants by `rank`; values of one
/// variant by that variant's own order.
pub open spec fn value_order(a: ValueView, b: ValueView) -> Ordering
    decreases a, 0nat,
{
    match (a, b) {
        (ValueView::Null, ValueView::Null) => Ordering::Equal,
        (ValueView::Boolean(x), ValueView::Boolean(y)) => int_order(
            if x {
                1
            } else {
                0
            },
            if y {
                1
            } else {
                0
            },
        ),
        (ValueView::Number(x), ValueView::Number(y)) => number_order(x, y),
        (ValueView::Date(x), ValueView::Date(y)) => int_order(x as int, y as int),
        (ValueView::String(x), ValueView::String(y)) => chars_order(x, y),
        (ValueView::Bytes(x), ValueView::Bytes(y)) => bytes_order_from(x, y, 0),
        (ValueView::Reference(x), ValueView::Reference(y)) => path_order(x, y),
        (ValueView::GeoPoint(x1, x2), ValueView::GeoPoint(y1, y2)) => {
            let o = number_order(x1, y1);
            if o == Ordering::Equal {
                number_order(x2, y2)
            } else {
                o
            }
        },
        (ValueView::Array(xs), ValueView::Array(ys)) => values_order_from(xs, ys, 0),
        (ValueView::Mapping(xs), ValueView::Mapping(ys)) => entries_order_from(xs, ys, 0),
        _ => int_order(rank(a), rank(b)),
    }
}

/// Arrays: lexicographically from index `i`, a proper prefix first.
pub open spec fn values_order_from(xs: Seq<ValueView>, ys: Seq<ValueView>, i: int) -> Ordering
    decreases xs, xs.len() - i,
{
    if 0 <= i < xs.len() && i < ys.len() {
        let o = value_order(xs[i], ys[i]);
        if o == Ordering::Equal {
            values_order_from(xs, ys, i + 1)
        } else {
            o
        }
    } else {
        int_order(xs.len() as int, ys.len() as int)
    }
}

/// Maps: lexicographically over (key, value) entries from index `i`, a
/// proper prefix first.
pub open spec fn entries_order_from(
    xs: Seq<(Seq<char>, ValueView)>,
    ys: Seq<(Seq<char>, ValueView)>,
    i: int,
) -> Ordering
    decreases xs, xs.len() - i,
{
    if 0 <= i < xs.len() && i < ys.len() {
        let k = chars_order(xs[i].0, ys[i].0);
        if k != Ordering::Equal {
            k
        } else {
            let o = value_order(xs[i].1, ys[i].1);
            if o == Ordering::Equal {
                entries_order_from(xs, ys, i + 1)
            } else {
                o
            }
        }
    } else {
        int_order(xs.len() as int, ys.len() as int)
    }
}

/// Values of different variants are ordered by their variants' ranks.
pub proof fn lemma_order_across_variants(a: ValueView, b: ValueView)
    requires
        rank(a) != rank(b),
    ensures
        value_order(a, b) == int_order(rank(a), rank(b)),
{
}

impl FsValue {
    /// The variant's place in the order across variants.
    pub fn rank(&self) -> (r: u8)
        ensures
            r == rank(self@),
    {
        match self {
            FsValue::NULL => 0,
            FsValue::Boolean(_) => 1,
            FsValue::Number(_) => 2,
            FsValue::Date(_) => 3,
            FsValue::String(_) => 4,
            FsValue::Bytes(_) => 5,
            FsValue::Reference(_) => 6,
            FsValue::GeoPoint(_, _) => 7,
            FsValue::Array(_) => 8,
            FsValue::Mapping(_) => 9,
        }
    }

    /// Compares two values by the total order `value_order`.
    pub fn compare(&self, other: &FsValue) -> (r: Ordering)
        requires
            value_wf(self@),
            value_wf(other@),
        ensures
            r == value_order(self@, other@),
        decreases self@,
    {
        let x = self.rank();
        let y = other.rank();
        if x != y {
            proof {
                lemma_order_across_variants(self@, other@);
            }
            return if x < y {
                Ordering::Less
            } else {
                Ordering::Greater
            };
        }
        match (self, other) {
            (FsValue::NULL, FsValue::NULL) => Ordering::Equal,
            (FsValue::Boolean(x), FsValue::Boolean(y)) => {
                if !*x && *y {
                    Ordering::Less
                } else if *x == *y {
                    Ordering::Equal
                } else {
                    Ordering::Greater
                }
            },
            (FsValue::Number(x), FsValue::Number(y)) => x.cmp(y),
            (FsValue::Date(x), FsValue::Date(y)) => {
                if *x < *y {
                    Ordering::Less
                } else if *x == *y {
                    Ordering::Equal
                } else {
                    Ordering::Greater
                }
            },
            (FsValue::String(x), FsValue::String(y)) => compare_text(x.as_str(), y.as_str()),
            (FsValue::Bytes(x), FsValue::Bytes(y)) => compare_bytes(x, y),
            (FsValue::Reference(x), FsValue::Reference(y)) => x.compare(y),
            (FsValue::GeoPoint(x1, x2), FsValue::GeoPoint(y1, y2)) => {
                let o = x1.cmp(y1);
                match o {
                    Ordering::Equal => x2.cmp(y2),
                    _ => o,
                }
            },
            (FsValue::Array(xs), FsValue::Array(ys)) => {
                proof {
                    assert(decreases_to!(self@ => self@->Array_0));
                }
                compare_items(xs, ys)
            },
            (FsValue::Mapping(xs), FsValue::Mapping(ys)) => {
                proof {
                    assert(decreases_to!(self@ => self@->Mapping_0));
                }
                compare_entries(xs, ys)
            },
            _ => Ordering::Equal,
        }
    }

    /// Whether the two values hold the same, variant and contents.
    pub fn equals(&self, other: &FsValue) -> (r: bool)
        ensures
            r == (self@ == other@),
        decreases self@,
    {
        match (self, other) {
            (FsValue::NULL, FsValue::NULL) => true,
            (FsValue::Boolean(x), FsValue::Boolean(y)) => *x == *y,
            (FsValue::Number(x), FsValue::Number(y)) => x.equals(y),
            (FsValue::Date(x), FsValue::Date(y)) => *x == *y,
            (FsValue::String(x), FsValue::String(y)) => crate::text::str_equals(
                x.as_str(),
                y.as_str(),
            ),
            (FsValue::Bytes(x), FsValue::Bytes(y)) => bytes_equal(x, y),
            (FsValue::Reference(x), FsValue::Reference(y)) => x.equals(y),
            (FsValue::GeoPoint(x1, x2), FsValue::GeoPoint(y1, y2)) => x1.equals(y1) && x2.equals(
                y2,
            ),
            (FsValue::Array(xs), FsValue::Array(ys)) => {
                proof {
                    assert(decreases_to!(self@ => self@->Array_0));
                }
                items_equal(xs, ys)
            },
            (FsValue::Mapping(xs), FsValue::Mapping(ys)) => {
                proof {
                    assert(decreases_to!(self@ => self@->Mapping_0));
                }
                entries_equal(xs, ys)
            },
            _ => false,
        }
    }
}

/// Compares two arrays' items by `values_order_from`.
fn compare_items(xs: &Vec<FsValue>, ys: &Vec<FsValue>) -> (r: Ordering)
    requires
        values_wf_from(value_views(xs@), 0),
        values_wf_from(value_views(ys@), 0),
    ensures
        r == values_order_from(value_views(xs@), value_views(ys@), 0),
    decreases value_views(xs@),
{
    let ghost av = value_views(xs@);
    let ghost bv = value_views(ys@);
    proof {
        lemma_value_views(xs@);
        lemma_value_views(ys@);
    }
    let mut i: usize = 0;
    while i < xs.len() && i < ys.len()
        invariant
            i <= xs@.len(),
            av == value_views(xs@),
            bv == value_views(ys@),
            values_wf_from(av, 0),
            values_wf_from(bv, 0),
            av.len() == xs@.len(),
            bv.len() == ys@.len(),
            forall|k: int| 0 <= k < xs@.len() ==> #[trigger] av[k] == xs@[k]@,
            forall|k: int| 0 <= k < ys@.len() ==> #[trigger] bv[k] == ys@[k]@,
            values_order_from(av, bv, 0) == values_order_from(av, bv, i as int),
        decreases xs.len() - i,
    {
        proof {
            lemma_values_wf(av, 0, i as int);
            lemma_values_wf(bv, 0, i as int);
            assert(decreases_to!(av => av[i as int]));
        }
        let o = xs[i].compare(&ys[i]);
        match o {
            Ordering::Equal => {},
            _ => return o,
        }
        i = i + 1;
    }
    crate::text::compare_usize(xs.len(), ys.len())
}

/// Compares two maps' entries by `entries_order_from`.
fn compare_entries(xs: &Vec<(String, FsValue)>, ys: &Vec<(String, FsValue)>) -> (r: Ordering)
    requires
        entries_wf_from(entry_views(xs@), 0),
        entries_wf_from(entry_views(ys@), 0),
    ensures
        r == entries_order_from(entry_views(xs@), entry_views(ys@), 0),
    decreases entry_views(xs@),
{
    let ghost av = entry_views(xs@);
    let ghost bv = entry_views(ys@);
    proof {
        lemma_entry_views(xs@);
        lemma_entry_views(ys@);
    }
    let mut i: usize = 0;
    while i < xs.len() && i < ys.len()
        invariant
            i <= xs@.len(),
            av == entry_views(xs@),
            bv == entry_views(ys@),
            entries_wf_from(av, 0),
            entries_wf_from(bv, 0),
            av.len() == xs@.len(),
            bv.len() == ys@.len(),
            forall|k: int| 0 <= k < xs@.len() ==> #[trigger] av[k] == (xs@[k].0@, xs@[k].1@),
            forall|k: int| 0 <= k < ys@.len() ==> #[trigger] bv[k] == (ys@[k].0@, ys@[k].1@),
            entries_order_from(av, bv, 0) == entries_order_from(av, bv, i as int),
        decreases xs.len() - i,
    {
        let k = compare_text(xs[i].0.as_str(), ys[i].0.as_str());
        match k {
            Ordering::Equal => {},
            _ => return k,
        }
        proof {
            lemma_entries_wf(av, 0, i as int);
            lemma_entries_wf(bv, 0, i as int);
            assert(decreases_to!(av => av[i as int]));
            assert(decreases_to!(av[i as int] => av[i as int].1));
        }
        let o = xs[i].1.compare(&ys[i].1);
        match o {
            Ordering::Equal => {},
            _ => return o,
        }
        i = i + 1;
    }
    crate::text::compare_usize(xs.len(), ys.len())
}

/// Whether two arrays hold the same items.
fn items_equal(xs: &Vec<FsValue>, ys: &Vec<FsValue>) -> (r: bool)
    ensures
        r == (value_views(xs@) == value_views(ys@)),
    decreases value_views(xs@),
{
    let ghost av = value_views(xs@);
    let ghost bv = value_views(ys@);
    proof {
        lemma_value_views(xs@);
        lemma_value_views(ys@);
    }
    if xs.len() != ys.len() {
        return false;
    }
    let mut i: usize = 0;
    while i < xs.len()
        invariant
            i <= xs@.len() == ys@.len(),
            av == value_views(xs@),
            bv == value_views(ys@),
            av.len() == xs@.len(),
            bv.len() == ys@.len(),
            forall|k: int| 0 <= k < xs@.len() ==> #[trigger] av[k] == xs@[k]@,
            forall|k: int| 0 <= k < ys@.len() ==> #[trigger] bv[k] == ys@[k]@,
            forall|k: int| 0 <= k < i ==> av[k] == bv[k],
        decreases xs.len() - i,
    {
        proof {
            assert(decreases_to!(av => av[i as int]));
        }
        if !xs[i].equals(&ys[i]) {
            return false;
        }
        i = i + 1;
    }
    proof {
        assert(av =~= bv);
    }
    true
}

/// Whether two maps hold the same entries in the same order.
fn entries_equal(xs: &Vec<(String, FsValue)>, ys: &Vec<(String, FsValue)>) -> (r: bool)
    ensures
        r == (entry_views(xs@) == entry_views(ys@)),
    decreases entry_views(xs@),
{
    let ghost av = entry_views(xs@);
    let ghost bv = entry_views(ys@);
    proof {
        lemma_entry_views(xs@);
        lemma_entry_views(ys@);
    }
    if xs.len() != ys.len() {
        return false;
    }
    let mut i: usize = 0;
    while i < xs.len()
        invariant
            i <= xs@.len() == ys@.len(),
            av == entry_views(xs@),
            bv == entry_views(ys@),
            av.len() == xs@.len(),
            bv.len() == ys@.len(),
            forall|k: int| 0 <= k < xs@.len() ==> #[trigger] av[k] == (xs@[k].0@, xs@[k].1@),
            forall|k: int| 0 <= k < ys@.len() ==> #[trigger] bv[k] == (ys@[k].0@, ys@[k].1@),
            forall|k: int| 0 <= k < i ==> av[k] == bv[k],
        decreases xs.len() - i,
    {
        if !crate::text::str_equals(xs[i].0.as_str(), ys[i].0.as_str()) {
            proof {
                assert(av[i as int].0 != bv[i as int].0);
            }
            return false;
        }
        proof {
            assert(decreases_to!(av => av[i as int]));
            assert(decreases_to!(av[i as int] => av[i as int].1));
        }
        if !xs[i].1.equals(&ys[i].1) {
            proof {
                assert(av[i as int].1 != bv[i as int].1);
            }
            return false;
        }
        i = i + 1;
    }
    proof {
        assert(av =~= bv);
    }
    true
}

/// Both values are of the same variant.
pub open spec fn same_variant(a: ValueView, b: ValueView) -> bool {
    rank(a) == rank(b)
}

/// `neq`: a `NULL` operand is unequal to every value but `NULL`; other
/// values are unequal where they differ.
pub open spec fn neq_spec(a: ValueView, b: ValueView) -> bool {
    match (a is Null, b is Null) {
        (true, true) => false,
        (true, false) => true,
        (false, true) => true,
        (false, false) => a != b,
    }
}

/// Whether the two values are of the same variant.
pub fn is_same_type(lhs: &FsValue, rhs: &FsValue) -> (r: bool)
    ensures
        r == same_variant(lhs@, rhs@),
{
    lhs.rank() == rhs.rank()
}

/// `lhs < rhs`, and false across variants.
pub fn fs_lt(lhs: FsValue, rhs: FsValue) -> (r: bool)
    requires
        value_wf(lhs@),
        value_wf(rhs@),
    ensures
        r == (same_variant(lhs@, rhs@) && value_order(lhs@, rhs@) == Ordering::Less),
{
    is_same_type(&lhs, &rhs) && match lhs.compare(&rhs) {
        Ordering::Less => true,
        _ => false,
    }
}

/// `lhs > rhs`, and false across variants.
pub fn fs_gt(lhs: FsValue, rhs: FsValue) -> (r: bool)
    requires
        value_wf(lhs@),
        value_wf(rhs@),
    ensures
        r == (same_variant(lhs@, rhs@) && value_order(lhs@, rhs@) == Ordering::Greater),
{
    is_same_type(&lhs, &rhs) && match lhs.compare(&rhs) {
        Ordering::Greater => true,
        _ => false,
    }
}

/// `lhs <= rhs`, and false across variants.
pub fn fs_le(lhs: FsValue, rhs: FsValue) -> (r: bool)
    requires
        value_wf(lhs@),
        value_wf(rhs@),
    ensures
        r == (same_variant(lhs@, rhs@) && value_order(lhs@, rhs@) != Ordering::Greater),
{
    is_same_type(&lhs, &rhs) && match lhs.compare(&rhs) {
        Ordering::Greater => false,
        _ => true,
    }
}

/// `lhs >= rhs`, and false across variants.
pub fn fs_ge(lhs: FsValue, rhs: FsValue) -> (r: bool)
    requires
        value_wf(lhs@),
        value_wf(rhs@),
    ensures
        r == (same_variant(lhs@, rhs@) && value_order(lhs@, rhs@) != Ordering::Less),
{
    is_same_type(&lhs, &rhs) && match lhs.compare(&rhs) {
        Ordering::Less => false,
        _ => true,
    }
}

/// The two values hold the same; values of different variants never do.
/// Numbers are equal where their digits and scale are: `1.1` and `1.10`
/// differ here, though the order puts them `Equal`.
pub fn fs_eq(lhs: FsValue, rhs: FsValue) -> (r: bool)
    ensures
        r == (lhs@ == rhs@),
{
    lhs.equals(&rhs)
}

/// Inequality with the `NULL` rule of `neq_spec`.
pub fn fs_neq(lhs: FsValue, rhs: FsValue) -> (r: bool)
    ensures
        r == neq_spec(lhs@, rhs@),
{
    let l = lhs.equals(&fs_null());
    let r = rhs.equals(&fs_null());
    if l && r {
        false
    } else if l || r {
        true
    } else {
        !lhs.equals(&rhs)
    }
}

/// The null value.
pub fn fs_null() -> (r: FsValue)
    ensures
        r@ == ValueView::Null,
{
    FsValue::NULL
}

/// The number NaN.
pub fn fs_nan() -> (r: FsValue)
    ensures
        r@ == ValueView::Number(FsNumberView::NAN),
{
    FsValue::Number(FsNumber::NAN)
}

pub fn fs_boolean(value: bool) -> (r: FsValue)
    ensures
        r@ == ValueView::Boolean(value),
{
    FsValue::Boolean(value)
}

/// An integer number, at scale zero.
pub fn fs_number_from_integer(value: i32) -> (r: FsValue)
    ensures
        r@ == ValueView::Number(FsNumberView::Number(DecimalView { mantissa: value as int, scale: 0 })),
        value_wf(r@),
{
    FsValue::Number(FsNumber::Number(Decimal::from_i64(value as i64)))
}

/// A number read from `NaN`, `-Infinity`, `Infinity` or a JSON number literal.
pub fn fs_number_from_str(text: &str) -> (r: Result<FsValue, FsError>)
    ensures
        match number_of_text(text@) {
            Some(x) => r matches Ok(v) && v@ == ValueView::Number(x),
            None => r matches Err(e) && e is InvalidValue,
        },
{
    match FsNumber::from_str(text) {
        Ok(n) => Ok(FsValue::Number(n)),
        Err(e) => Err(e),
    }
}

pub fn fs_string(string: &str) -> (r: FsValue)
    ensures
        r@ == ValueView::String(string@),
{
    FsValue::String(String::from_str(string))
}

/// A reference read from `/` followed by a path.
pub fn fs_reference(string: &str) -> (r: Result<FsValue, FsError>)
    ensures
        match reference_of_text(string@) {
            Some(p) => r matches Ok(v) && v@ == ValueView::Reference(p),
            None => r matches Err(e) && e is InvalidValue,
        },
{
    match FsReference::from_str(string) {
        Ok(reference) => Ok(FsValue::Reference(reference)),
        Err(e) => Err(e),
    }
}

pub fn fs_bytes(bytes: Vec<u8>) -> (r: FsValue)
    ensures
        r@ == ValueView::Bytes(bytes@),
{
    FsValue::Bytes(bytes)
}

pub fn fs_array(array: Vec<FsValue>) -> (r: FsValue)
    ensures
        r@ == ValueView::Array(value_views(array@)),
{
    FsValue::Array(array)
}

/// The reference to the database root.
pub fn fs_database_root() -> (r: FsValue)
    ensures
        r@ == ValueView::Reference(Seq::empty()),
{
    FsValue::Reference(FsReference::root())
}

/// A reference that can name a stored document: not the root, and ending in
/// a resource id.
pub open spec fn is_document_key(v: ValueView) -> bool {
    match v {
        ValueView::Reference(p) => p.len() > 0 && p.last().resource_id is Some,
        _ => false,
    }
}

pub fn fs_is_valid_document_key(fs_ref: FsValue) -> (r: bool)
    ensures
        r == is_document_key(fs_ref@),
{
    match fs_ref.as_reference() {
        Some(reference) => !reference.is_root() && reference.has_complete_path(),
        None => false,
    }
}

/// The parent of a reference; `None` for any other value.
pub fn fs_parent(reference: FsValue) -> (r: Option<FsValue>)
    ensures
        match reference@ {
            ValueView::Reference(p) => r matches Some(v) && v@ == ValueView::Reference(
                if p.len() == 0 {
                    p
                } else {
                    p.drop_last()
                },
            ),
            _ => r is None,
        },
{
    match reference.as_reference() {
        Some(fs_ref) => Some(FsValue::Reference(fs_ref.parent())),
        None => None,
    }
}

/// The collection id of a reference's last element (empty for the root);
/// `None` for any other value.
pub fn fs_collection_id(reference: FsValue) -> (r: Option<String>)
    ensures
        match reference@ {
            ValueView::Reference(p) => r matches Some(s) && s@ == if p.len() == 0 {
                Seq::empty()
            } else {
                p.last().collection_id
            },
            _ => r is None,
        },
{
    match reference.as_reference() {
        Some(fs_ref) => Some(fs_ref.collection_id()),
        None => None,
    }
}

/// The index of the entry with key `key`, where there is one.
pub open spec fn entry_index_from(entries: Seq<(Seq<char>, ValueView)>, key: Seq<char>, i: int) -> Option<int>
    decreases entries.len() - i,
{
    if 0 <= i < entries.len() {
        if entries[i].0 == key {
            Some(i)
        } else {
            entry_index_from(entries, key, i + 1)
        }
    } else {
        None
    }
}

/// The value under `key` in a map value.
pub open spec fn map_get_spec(v: ValueView, key: Seq<char>) -> Option<ValueView> {
    match v {
        ValueView::Mapping(entries) => match entry_index_from(entries, key, 0) {
            Some(i) => Some(entries[i].1),
            None => None,
        },
        _ => None,
    }
}

/// The value under `field_name` where `fs_map` is a map holding that key;
/// `None` otherwise.
pub fn fs_map_get(fs_map: FsValue, field_name: &str) -> (r: Option<FsValue>)
    ensures
        match map_get_spec(fs_map@, field_name@) {
            Some(v) => r matches Some(x) && x@ == v,
            None => r is None,
        },
{
    let ghost orig = fs_map@;
    match fs_map {
        FsValue::Mapping(mut entries) => {
            let ghost ev = entry_views(entries@);
            proof {
                lemma_entry_views(entries@);
                lemma_entry_index_bounds(ev, field_name@, 0);
                assert(orig == ValueView::Mapping(ev));
            }
            match entry_index(&entries, field_name) {
                Some(i) => {
                    let ghost before = entries@;
                    let entry = entries.remove(i);
                    proof {
                        assert(entry == before[i as int]);
                        assert(ev[i as int] == (before[i as int].0@, before[i as int].1@));
                        assert(map_get_spec(orig, field_name@) == Some(ev[i as int].1));
                    }
                    Some(entry.1)
                },
                None => None,
            }
        },
        _ => None,
    }
}

/// The index of the entry with key `key`, where there is one.
fn entry_index(entries: &Vec<(String, FsValue)>, key: &str) -> (r: Option<usize>)
    ensures
        match entry_index_from(entry_views(entries@), key@, 0) {
            Some(i) => r == Some(i as usize),
            None => r is None,
        },
        r matches Some(i) ==> entry_index_from(entry_views(entries@), key@, 0) == Some(i as int),
{
    let ghost ev = entry_views(entries@);
    proof {
        lemma_entry_views(entries@);
    }
    let mut i: usize = 0;
    while i < entries.len()
        invariant
            i <= entries@.len(),
            ev == entry_views(entries@),
            ev.len() == entries@.len(),
            forall|k: int| 0 <= k < entries@.len() ==> #[trigger] ev[k] == (entries@[k].0@, entries@[k].1@),
            entry_index_from(ev, key@, 0) == entry_index_from(ev, key@, i as int),
        decreases entries.len() - i,
    {
        if crate::text::str_equals(entries[i].0.as_str(), key) {
            proof {
                assert(ev[i as int].0 == key@);
            }
            return Some(i);
        }
        i = i + 1;
    }
    None
}

pub proof fn lemma_entry_index_bounds(entries: Seq<(Seq<char>, ValueView)>, key: Seq<char>, i: int)
    requires
        0 <= i,
    ensures
        entry_index_from(entries, key, i) matches Some(k) ==> i <= k < entries.len(),
    decreases entries.len() - i,
{
    if 0 <= i < entries.len() && entries[i].0 != key {
        lemma_entry_index_bounds(entries, key, i + 1);
    }
}

impl FsValue {
    /// The reference, where this is one.
    pub fn as_reference(&self) -> (r: Option<&FsReference>)
        ensures
            match self@ {
                ValueView::Reference(p) => r matches Some(x) && x@ == p,
                _ => r is None,
            },
    {
        match self {
            FsValue::Reference(reference) => Some(reference),
            _ => None,
        }
    }

    /// The map's entries, in key order, where this is a map.
    pub fn as_map(&self) -> (r: Option<&Vec<(String, FsValue)>>)
        ensures
            match self@ {
                ValueView::Mapping(entries) => r matches Some(x) && entry_views(x@) == entries,
                _ => r is None,
            },
    {
        match self {
            FsValue::Mapping(entries) => Some(entries),
            _ => None,
        }
    }
}

/// Where `key` goes among sorted entries, scanning down from index `i`: past
/// every key greater than it.
pub open spec fn insert_point(entries: Seq<(Seq<char>, ValueView)>, key: Seq<char>, i: int) -> int
    decreases i,
{
    if 0 < i <= entries.len() && chars_order(entries[i - 1].0, key) == Ordering::Greater {
        insert_point(entries, key, i - 1)
    } else {
        i
    }
}

/// The entries with `key` bound to `v`: the entry with that key replaced, or
/// a new entry at its place in key order.
pub open spec fn entries_insert(
    entries: Seq<(Seq<char>, ValueView)>,
    key: Seq<char>,
    v: ValueView,
) -> Seq<(Seq<char>, ValueView)> {
    let p = insert_point(entries, key, entries.len() as int);
    if 0 < p <= entries.len() && entries[p - 1].0 == key {
        entries.update(p - 1, (key, v))
    } else {
        entries.insert(p, (key, v))
    }
}

pub proof fn lemma_insert_point_bounds(entries: Seq<(Seq<char>, ValueView)>, key: Seq<char>, i: int)
    requires
        0 <= i <= entries.len(),
    ensures
        0 <= insert_point(entries, key, i) <= i,
    decreases i,
{
    if 0 < i && chars_order(entries[i - 1].0, key) == Ordering::Greater {
        lemma_insert_point_bounds(entries, key, i - 1);
    }
}

/// Binds `key` to `value` in sorted entries, by `entries_insert`.
pub fn map_insert(entries: &mut Vec<(String, FsValue)>, key: String, value: FsValue)
    ensures
        entry_views(final(entries)@) == entries_insert(entry_views(old(entries)@), key@, value@),
{
    let ghost ev = entry_views(entries@);
    proof {
        lemma_entry_views(entries@);
        lemma_insert_point_bounds(ev, key@, ev.len() as int);
    }
    let mut p = entries.len();
    let mut more = p > 0 && greater_key(&entries[p - 1].0, &key);
    while more
        invariant
            ev == entry_views(entries@),
            ev.len() == entries@.len(),
            forall|k: int|
                0 <= k < entries@.len() ==> #[trigger] ev[k] == (entries@[k].0@, entries@[k].1@),
            p <= entries@.len(),
            insert_point(ev, key@, ev.len() as int) == insert_point(ev, key@, p as int),
            more == (p > 0 && chars_order(ev[p - 1].0, key@) == Ordering::Greater),
        decreases p,
    {
        p = p - 1;
        more = p > 0 && greater_key(&entries[p - 1].0, &key);
    }
    let ghost before = entries@;
    if p > 0 && entries[p - 1].0 == key {
        entries.set(p - 1, (key, value));
    } else {
        entries.insert(p, (key, value));
    }
    proof {
        lemma_entry_views(entries@);
        assert(entry_views(entries@) =~= entries_insert(ev, key@, value@));
    }
}

/// Whether `a` sorts after `b`.
fn greater_key(a: &String, b: &String) -> (r: bool)
    ensures
        r == (chars_order(a@, b@) == Ordering::Greater),
{
    match compare_text(a.as_str(), b.as_str()) {
        Ordering::Greater => true,
        _ => false,
    }
}

/// The entries bound one after another, by `entries_insert`.
pub open spec fn entries_from(pairs: Seq<(Seq<char>, ValueView)>, n: int) -> Seq<(Seq<char>, ValueView)>
    decreases n,
{
    if 0 < n <= pairs.len() {
        entries_insert(entries_from(pairs, n - 1), pairs[n - 1].0, pairs[n - 1].1)
    } else {
        Seq::empty()
    }
}

impl FsValue {
    /// A map holding the given entries in key order; where a key repeats,
    /// the later entry wins.
    pub fn map_from(pairs: Vec<(String, FsValue)>) -> (r: FsValue)
        ensures
            r@ == ValueView::Mapping(entries_from(entry_views(pairs@), pairs@.len() as int)),
    {
        let ghost pv = entry_views(pairs@);
        let count = pairs.len();
        proof {
            lemma_entry_views(pairs@);
        }
        let mut entries: Vec<(String, FsValue)> = Vec::new();
        let mut rest = pairs;
        let mut tail: Vec<(String, FsValue)> = Vec::new();
        // Move the pairs out from the back, then bind them front to back.
        while rest.len() > 0
            invariant
                pv.len() == rest@.len() + tail@.len(),
                forall|k: int| 0 <= k < rest@.len() ==> #[trigger] pv[k] == (rest@[k].0@, rest@[k].1@),
                forall|k: int|
                    0 <= k < tail@.len() ==> #[trigger] pv[pv.len() - 1 - k] == (
                        tail@[k].0@,
                        tail@[k].1@,
                    ),
            decreases rest.len(),
        {
            let pair = rest.pop().unwrap();
            tail.push(pair);
        }
        proof {
            assert(entry_views(entries@) =~= entries_from(pv, 0));
        }
        let mut i: usize = 0;
        while tail.len() > 0
            invariant
                pv.len() == i + tail@.len(),
                pv.len() == count,
                forall|k: int|
                    0 <= k < tail@.len() ==> #[trigger] pv[pv.len() - 1 - k] == (
                        tail@[k].0@,
                        tail@[k].1@,
                    ),
                entry_views(entries@) == entries_from(pv, i as int),
            decreases tail.len(),
        {
            let ghost last = tail@.len() - 1;
            let (key, value) = tail.pop().unwrap();
            proof {
                assert(pv[pv.len() - 1 - last] == (key@, value@));
                assert(pv.len() - 1 - last == i);
            }
            map_insert(&mut entries, key, value);
            i = i + 1;
        }
        FsValue::Mapping(entries)
    }
}

/// `neq` treats `NULL` as unequal to everything but `NULL`, and no value is
/// unequal to itself.
pub proof fn lemma_neq_rules(v: ValueView)
    ensures
        !neq_spec(ValueView::Null, ValueView::Null),
        !(v is Null) ==> neq_spec(ValueView::Null, v) && neq_spec(v, ValueView::Null),
        !neq_spec(v, v),
{
}

/// The relational operators never hold across variants: for values of
/// different variants each of `<`, `>`, `<=`, `>=` is false.
pub proof fn lemma_clamped_across_variants(a: ValueView, b: ValueView)
    requires
        rank(a) != rank(b),
    ensures
        !(same_variant(a, b) && value_order(a, b) == Ordering::Less),
        !(same_variant(a, b) && value_order(a, b) == Ordering::Greater),
        !(same_variant(a, b) && value_order(a, b) != Ordering::Greater),
        !(same_variant(a, b) && value_order(a, b) != Ordering::Less),
{
}

impl FsValue {
    /// Whether this value is well-formed (`value_wf`): the condition of the
    /// order and of the encoding.
    pub fn is_well_formed(&self) -> (r: bool)
        ensures
            r == value_wf(self@),
        decreases self@,
    {
        match self {
            FsValue::Bytes(b) => b.len() <= isize::MAX as usize,
            FsValue::Array(items) => {
                proof {
                    assert(decreases_to!(self@ => self@->Array_0));
                }
                items_well_formed(items)
            },
            FsValue::Mapping(entries) => {
                proof {
                    assert(decreases_to!(self@ => self@->Mapping_0));
                }
                entries_well_formed(entries)
            },
            _ => true,
        }
    }
}

/// Whether every item is well-formed.
fn items_well_formed(items: &Vec<FsValue>) -> (r: bool)
    ensures
        r == values_wf_from(value_views(items@), 0),
    decreases value_views(items@),
{
    let ghost iv = value_views(items@);
    proof {
        lemma_value_views(items@);
    }
    let mut i: usize = 0;
    while i < items.len()
        invariant
            i <= items@.len(),
            iv == value_views(items@),
            iv.len() == items@.len(),
            forall|k: int| 0 <= k < items@.len() ==> #[trigger] iv[k] == items@[k]@,
            forall|k: int| 0 <= k < i ==> #[trigger] value_wf(iv[k]),
        decreases items.len() - i,
    {
        proof {
            assert(decreases_to!(iv => iv[i as int]));
        }
        if !items[i].is_well_formed() {
            proof {
                lemma_values_wf_prefix(iv, i as int);
            }
            return false;
        }
        i = i + 1;
    }
    proof {
        lemma_values_wf_all(iv, 0);
    }
    true
}

pub proof fn lemma_values_wf_all(items: Seq<ValueView>, i: int)
    requires
        0 <= i <= items.len(),
        forall|k: int| 0 <= k < items.len() ==> #[trigger] value_wf(items[k]),
    ensures
        values_wf_from(items, i),
    decreases items.len() - i,
{
    if i < items.len() {
        assert(value_wf(items[i]));
        lemma_values_wf_all(items, i + 1);
    }
}

/// A value that fails inside an array fails the whole array.
proof fn lemma_values_wf_prefix(items: Seq<ValueView>, k: int)
    requires
        0 <= k < items.len(),
        !value_wf(items[k]),
    ensures
        !values_wf_from(items, 0),
{
    if values_wf_from(items, 0) {
        lemma_values_wf(items, 0, k);
    }
}

/// Whether every value is well-formed and the keys strictly increase.
fn entries_well_formed(entries: &Vec<(String, FsValue)>) -> (r: bool)
    ensures
        r == (keys_increasing(entry_views(entries@)) && entries_wf_from(entry_views(entries@), 0)),
    decreases entry_views(entries@),
{
    let ghost ev = entry_views(entries@);
    proof {
        lemma_entry_views(entries@);
    }
    if !keys_in_order(entries) {
        return false;
    }
    let mut i: usize = 0;
    while i < entries.len()
        invariant
            i <= entries@.len(),
            ev == entry_views(entries@),
            ev.len() == entries@.len(),
            forall|k: int|
                0 <= k < entries@.len() ==> #[trigger] ev[k] == (entries@[k].0@, entries@[k].1@),
            forall|k: int| 0 <= k < i ==> #[trigger] value_wf(ev[k].1),
        decreases entries.len() - i,
    {
        proof {
            assert(decreases_to!(ev => ev[i as int]));
            assert(decreases_to!(ev[i as int] => ev[i as int].1));
        }
        if !entries[i].1.is_well_formed() {
            proof {
                lemma_entries_wf_prefix(ev, i as int);
            }
            return false;
        }
        i = i + 1;
    }
    proof {
        lemma_entries_wf_all(ev, 0);
    }
    true
}

/// Whether the keys strictly increase.
fn keys_in_order(entries: &Vec<(String, FsValue)>) -> (r: bool)
    ensures
        r == keys_increasing(entry_views(entries@)),
{
    let ghost ev = entry_views(entries@);
    proof {
        lemma_entry_views(entries@);
    }
    let n = entries.len();
    if n < 2 {
        return true;
    }
    let mut i: usize = 0;
    while i < n - 1
        invariant
            n == entries@.len(),
            n >= 2,
            i <= n - 1,
            ev == entry_views(entries@),
            ev.len() == entries@.len(),
            forall|k: int|
                0 <= k < entries@.len() ==> #[trigger] ev[k] == (entries@[k].0@, entries@[k].1@),
            forall|k: int| 0 <= k < i ==> #[trigger] ordered_at(ev, k),
        decreases n - i,
    {
        match compare_text(entries[i].0.as_str(), entries[i + 1].0.as_str()) {
            Ordering::Less => {},
            _ => {
                proof {
                    assert(!ordered_at(ev, i as int));
                }
                return false;
            },
        }
        i = i + 1;
    }
    true
}

proof fn lemma_entries_wf_prefix(entries: Seq<(Seq<char>, ValueView)>, k: int)
    requires
        0 <= k < entries.len(),
        !value_wf(entries[k].1),
    ensures
        !entries_wf_from(entries, 0),
{
    if entries_wf_from(entries, 0) {
        lemma_entries_wf(entries, 0, k);
    }
}

pub proof fn lemma_entries_wf_all(entries: Seq<(Seq<char>, ValueView)>, i: int)
    requires
        0 <= i <= entries.len(),
        forall|k: int| 0 <= k < entries.len() ==> #[trigger] value_wf(entries[k].1),
    ensures
        entries_wf_from(entries, i),
    decreases entries.len() - i,
{
    if i < entries.len() {
        assert(value_wf(entries[i].1));
        lemma_entries_wf_all(entries, i + 1);
    }
}

/// One value of each variant, in variant order.
pub fn fs_value_examples() -> (r: Vec<FsValue>)
    ensures
        r@.len() == 10,
        forall|i: int| 0 <= i < 10 ==> rank(#[trigger] r@[i]@) == i && value_wf(r@[i]@),
        r@[0]@ == ValueView::Null,
        r@[1]@ == ValueView::Boolean(true),
        r@[2]@ == ValueView::Number(FsNumberView::Number(DecimalView { mantissa: 7, scale: 0 })),
        r@[3]@ == ValueView::Date(0),
        r@[4]@ == ValueView::String("hello"@),
        r@[5]@ == ValueView::Bytes(seq![0u8, 1u8]),
        r@[6]@ == ValueView::Reference(Seq::empty()),
        r@[7]@ == ValueView::GeoPoint(
            FsNumberView::Number(DecimalView { mantissa: 1, scale: 0 }),
            FsNumberView::Number(DecimalView { mantissa: 2, scale: 0 }),
        ),
        r@[8]@ == ValueView::Array(seq![ValueView::Null]),
        r@[9]@ == ValueView::Mapping(seq![("a"@, ValueView::Null)]),
{
    let mut bytes: Vec<u8> = Vec::new();
    bytes.push(0);
    bytes.push(1);
    let mut items: Vec<FsValue> = Vec::new();
    items.push(FsValue::NULL);
    let mut entries: Vec<(String, FsValue)> = Vec::new();
    entries.push((String::from_str("a"), FsValue::NULL));
    let r = vec![
        FsValue::NULL,
        FsValue::Boolean(true),
        FsValue::Number(FsNumber::Number(Decimal::from_i64(7))),
        FsValue::Date(0),
        FsValue::String(String::from_str("hello")),
        FsValue::Bytes(bytes),
        FsValue::Reference(FsReference::root()),
        FsValue::GeoPoint(
            FsNumber::Number(Decimal::from_i64(1)),
            FsNumber::Number(Decimal::from_i64(2)),
        ),
        FsValue::Array(items),
        FsValue::Mapping(entries),
    ];
    proof {
        let iv = value_views(r@[8]->Array_0@);
        lemma_value_views(r@[8]->Array_0@);
        assert(values_wf_from(iv, 1));
        assert(iv[0] == ValueView::Null);
        assert(value_wf(ValueView::Null));
        assert(values_wf_from(iv, 0));
        assert(r@[8]@ == ValueView::Array(iv));
        let ev = entry_views(r@[9]->Mapping_0@);
        lemma_entry_views(r@[9]->Mapping_0@);
        assert(entries_wf_from(ev, 1));
        assert(ev[0].1 == ValueView::Null);
        assert(entries_wf_from(ev, 0));
        assert(r@[9]@ == ValueView::Mapping(ev));
        assert(iv =~= seq![ValueView::Null]);
        assert(ev =~= seq![("a"@, ValueView::Null)]);
        assert(r@[5]@ == ValueView::Bytes(seq![0u8, 1u8])) by {
            assert(r@[5]->Bytes_0@ =~= seq![0u8, 1u8]);
        }
        assert(keys_increasing(ev));
        assert(value_wf(r@[8]@));
        assert(value_wf(r@[9]@));
        assert forall|i: int| 0 <= i < 10 implies rank(#[trigger] r@[i]@) == i && value_wf(
            r@[i]@,
        ) by {
            if i == 8 {
            } else if i == 9 {
            }
        }
    }
    r
}

/// Every key that the scan for an insertion point passed sorts after the
/// key, and the key before the point does not.
proof fn lemma_insert_point(entries: Seq<(Seq<char>, ValueView)>, key: Seq<char>, i: int)
    requires
        0 <= i <= entries.len(),
    ensures
        0 <= insert_point(entries, key, i) <= i,
        forall|k: int|
            insert_point(entries, key, i) <= k < i ==> chars_order(#[trigger] entries[k].0, key)
                == Ordering::Greater,
        insert_point(entries, key, i) > 0 ==> chars_order(
            entries[insert_point(entries, key, i) - 1].0,
            key,
        ) != Ordering::Greater,
    decreases i,
{
    if 0 < i && chars_order(entries[i - 1].0, key) == Ordering::Greater {
        lemma_insert_point(entries, key, i - 1);
    }
}

/// Binding a key keeps the keys strictly increasing.
pub proof fn lemma_insert_keeps_order(
    entries: Seq<(Seq<char>, ValueView)>,
    key: Seq<char>,
    v: ValueView,
)
    requires
        keys_increasing(entries),
    ensures
        keys_increasing(entries_insert(entries, key, v)),
{
    let p = insert_point(entries, key, entries.len() as int);
    lemma_insert_point(entries, key, entries.len() as int);
    let n = entries_insert(entries, key, v);
    if 0 < p <= entries.len() && entries[p - 1].0 == key {
        assert forall|k: int| 0 <= k < n.len() - 1 implies #[trigger] ordered_at(n, k) by {
            assert(ordered_at(entries, k));
        }
    } else {
        if p > 0 {
            crate::text::lemma_chars_order_reflexive(key, 0);
            if chars_order(entries[p - 1].0, key) == Ordering::Equal {
                crate::text::lemma_chars_order_equal(entries[p - 1].0, key, 0);
            }
        }
        if p < entries.len() {
            crate::text::lemma_chars_order_antisymmetric(entries[p].0, key, 0);
        }
        assert forall|k: int| 0 <= k < n.len() - 1 implies #[trigger] ordered_at(n, k) by {
            if k < p - 1 {
                assert(ordered_at(entries, k));
            } else if k > p {
                assert(ordered_at(entries, k - 1));
            }
        }
    }
}

/// Binding a well-formed value into entries of well-formed values keeps
/// every value well-formed.
pub proof fn lemma_insert_keeps_wf(
    entries: Seq<(Seq<char>, ValueView)>,
    key: Seq<char>,
    v: ValueView,
)
    requires
        entries_wf_from(entries, 0),
        value_wf(v),
    ensures
        entries_wf_from(entries_insert(entries, key, v), 0),
{
    lemma_insert_point(entries, key, entries.len() as int);
    let n = entries_insert(entries, key, v);
    let p = insert_point(entries, key, entries.len() as int);
    assert forall|k: int| 0 <= k < n.len() implies #[trigger] value_wf(n[k].1) by {
        if 0 < p <= entries.len() && entries[p - 1].0 == key {
            if k != p - 1 {
                lemma_entries_wf(entries, 0, k);
            }
        } else if k < p {
            lemma_entries_wf(entries, 0, k);
        } else if k > p {
            lemma_entries_wf(entries, 0, k - 1);
        }
    }
    lemma_entries_wf_all(n, 0);
}

} // verus!
