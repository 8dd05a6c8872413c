//! Document paths: alternating collection ids and resource ids, written as
//! slash-separated text.
use crate::error::FsError;
use crate::number::int_order;
use crate::text::{
    is_digit, lemma_nat_text, nat_text, chars_order, compare_text, compare_usize, accumulate_digits, all_digits, digits_value, int_text, lemma_run_end, push_int_text,
    push_str_chars, scan_digits, string_of_chars,
};
use std::cmp::Ordering;
use vstd::prelude::*;

verus! {

/// A path element's identifier. Numbers order before strings.
#[derive(Debug, Clone, PartialEq, Eq)]
pub enum ResourceId {
    Number(i64),
    String(String),
}

/// What a `ResourceId` holds.
pub enum ResourceIdView {
    Number(i64),
    String(Seq<char>),
}

impl View for ResourceId {
    type V = ResourceIdView;

    open spec fn view(&self) -> ResourceIdView {
        match self {
            ResourceId::Number(n) => ResourceIdView::Number(*n),
            ResourceId::String(s) => ResourceIdView::String(s@),
        }
    }
}

/// One step of a path: a collection, and the resource in it where there is
/// one.
#[derive(Debug, Clone, PartialEq, Eq)]
pub struct PathElement {
    pub collection_id: String,
    pub resource_id: Option<ResourceId>,
}

/// What a `PathElement` holds.
pub struct ElementView {
    pub collection_id: Seq<char>,
    pub resource_id: Option<ResourceIdView>,
}

impl View for PathElement {
    type V = ElementView;

    open spec fn view(&self) -> ElementView {
        ElementView {
            collection_id: self.collection_id@,
            resource_id: match self.resource_id {
                Some(r) => Some(r@),
                None => None,
            },
        }
    }
}

/// A path from the database root; the empty path is the root itself.
#[derive(Debug, Clone, PartialEq, Eq)]
pub struct FsPath(pub Vec<PathElement>);

impl View for FsPath {
    type V = Seq<ElementView>;

    open spec fn view(&self) -> Seq<ElementView> {
        self.0@.map_values(|e: PathElement| e@)
    }
}

/// A reference to a document or a collection, written `/` and then its path.
#[derive(Debug, Clone, PartialEq, Eq)]
pub struct FsReference {
    pub path: FsPath,
}

impl View for FsReference {
    type V = Seq<ElementView>;

    open spec fn view(&self) -> Seq<ElementView> {
        self.path@
    }
}

/// The `i64` that `t` writes: an optional `+` or `-`, then at least one digit
/// and nothing else, in range.
pub open spec fn i64_of_text(t: Seq<char>) -> Option<i64> {
    let start: int = if t.len() > 0 && (t[0] == '+' || t[0] == '-') {
        1
    } else {
        0
    };
    let body = t.subrange(start, t.len() as int);
    let v = if start == 1 && t[0] == '-' {
        -digits_value(body)
    } else {
        digits_value(body)
    };
    if body.len() > 0 && all_digits(body) && i64::MIN <= v <= i64::MAX {
        Some(v as i64)
    } else {
        None
    }
}

/// A segment that reads as an `i64` is a number; any other is a string.
pub open spec fn resource_id_of_text(t: Seq<char>) -> ResourceIdView {
    match i64_of_text(t) {
        Some(n) => ResourceIdView::Number(n),
        None => ResourceIdView::String(t),
    }
}

/// The segments of `s` between its slashes, in order; `s` with `k` slashes
/// has `k + 1` of them.
pub open spec fn split_slash(s: Seq<char>) -> Seq<Seq<char>>
    decreases s.len(),
{
    if s.len() == 0 {
        seq![Seq::empty()]
    } else {
        let rest = split_slash(s.drop_last());
        if s.last() == '/' {
            rest.push(Seq::empty())
        } else {
            rest.update(rest.len() - 1, rest.last().push(s.last()))
        }
    }
}

pub proof fn lemma_split_slash_len(s: Seq<char>)
    ensures
        split_slash(s).len() >= 1,
    decreases s.len(),
{
    if s.len() > 0 {
        lemma_split_slash_len(s.drop_last());
    }
}

/// Segments taken two at a time as (collection, resource) pairs; an odd last
/// segment is a collection without a resource.
pub open spec fn elements_of(segs: Seq<Seq<char>>) -> Seq<ElementView> {
    Seq::new(
        (segs.len() / 2 + segs.len() % 2) as nat,
        |j: int|
            ElementView {
                collection_id: segs[2 * j],
                resource_id: if 2 * j + 1 < segs.len() {
                    Some(resource_id_of_text(segs[2 * j + 1]))
                } else {
                    None
                },
            },
    )
}

/// The path that `s` writes; the empty text is the root.
pub open spec fn path_of_text(s: Seq<char>) -> Seq<ElementView> {
    if s.len() == 0 {
        Seq::empty()
    } else {
        elements_of(split_slash(s))
    }
}

pub open spec fn resource_id_text(r: ResourceIdView) -> Seq<char> {
    match r {
        ResourceIdView::Number(n) => int_text(n as int),
        ResourceIdView::String(t) => t,
    }
}

/// `collection` or `collection/resource`.
pub open spec fn element_text(e: ElementView) -> Seq<char> {
    match e.resource_id {
        Some(r) => e.collection_id + seq!['/'] + resource_id_text(r),
        None => e.collection_id,
    }
}

/// The elements' texts joined with `/`.
pub open spec fn path_text(p: Seq<ElementView>) -> Seq<char>
    decreases p.len(),
{
    if p.len() == 0 {
        Seq::empty()
    } else if p.len() == 1 {
        element_text(p[0])
    } else {
        path_text(p.drop_last()) + seq!['/'] + element_text(p.last())
    }
}

/// Whether `c` is a letter or a number in Unicode's sense.
pub uninterp spec fn unicode_alphanumeric(c: char) -> bool;

/// Relies on `char::is_alphanumeric`: Unicode's `Alphabetic` or `Numeric`
/// property of the character alone.
#[verifier::external_body]
fn alphanumeric(c: char) -> (r: bool)
    ensures
        r == unicode_alphanumeric(c),
{
    c.is_alphanumeric()
}

/// A character that may stand in a reference's path: a letter or digit (any
/// script), `_`, `-` or `/`.
pub open spec fn is_path_char(c: char) -> bool {
    ||| 'a' <= c <= 'z'
    ||| 'A' <= c <= 'Z'
    ||| '0' <= c <= '9'
    ||| c == '_'
    ||| c == '-'
    ||| c == '/'
    ||| unicode_alphanumeric(c)
}

/// The path of a reference text: a `/`, then path characters only.
pub open spec fn reference_of_text(s: Seq<char>) -> Option<Seq<ElementView>> {
    if s.len() > 0 && s[0] == '/' && (forall|i: int| 1 <= i < s.len() ==> is_path_char(#[trigger] s[i])) {
        Some(path_of_text(s.subrange(1, s.len() as int)))
    } else {
        None
    }
}

/// The error message for a text that is not a reference.
pub open spec fn reference_error(s: Seq<char>) -> Seq<char> {
    if s.len() > 0 && s[0] == '/' {
        "not a reference path: "@ + s
    } else {
        "a reference starts with '/': "@ + s
    }
}

/// Reads an `i64` the way `i64_of_text` describes.
pub(crate) fn parse_i64(s: &str) -> (r: Option<i64>)
    ensures
        r == i64_of_text(s@),
{
    let n = s.unicode_len();
    let signed = n > 0 && (s.get_char(0) == '+' || s.get_char(0) == '-');
    let start: usize = if signed {
        1
    } else {
        0
    };
    let e = scan_digits(s, n, start);
    proof {
        lemma_run_end(s@, start as int);
    }
    if e == start || e != n {
        proof {
            let body = s@.subrange(start as int, n as int);
            if body.len() > 0 {
                assert(body[e - start] == s@[e as int]);
            }
        }
        return None;
    }
    proof {
        assert(Seq::<char>::empty() + s@.subrange(start as int, n as int) =~= s@.subrange(
            start as int,
            n as int,
        ));
        crate::text::lemma_digits_value_nonneg(s@.subrange(start as int, n as int));
    }
    let v = accumulate_digits(s, start, n, 0, Ghost(Seq::empty()));
    if signed && s.get_char(0) == '-' {
        if v > 0x8000_0000_0000_0000 {
            None
        } else {
            Some((-(v as i128)) as i64)
        }
    } else {
        if v > 0x7fff_ffff_ffff_ffff {
            None
        } else {
            Some(v as i64)
        }
    }
}

impl ResourceId {
    /// A segment that reads as an `i64` becomes a number, any other a string.
    pub fn from_str(s: &str) -> (r: Result<ResourceId, FsError>)
        ensures
            r matches Ok(id) && id@ == resource_id_of_text(s@),
    {
        match parse_i64(s) {
            Some(n) => Ok(ResourceId::Number(n)),
            None => Ok(ResourceId::String(String::from_str(s))),
        }
    }

    /// Appends this id's text to `out`.
    pub fn push_text(&self, out: &mut Vec<char>)
        ensures
            final(out)@ == old(out)@ + resource_id_text(self@),
    {
        match self {
            ResourceId::Number(n) => push_int_text(out, *n),
            ResourceId::String(s) => push_str_chars(out, s.as_str()),
        }
    }

    /// The id as text: an integer in decimal, a string as it is.
    pub fn to_text(&self) -> (r: String)
        ensures
            r@ == resource_id_text(self@),
    {
        let mut out: Vec<char> = Vec::new();
        self.push_text(&mut out);
        proof {
            assert(out@ =~= resource_id_text(self@));
        }
        string_of_chars(&out)
    }

    /// A copy with the same contents.
    pub fn duplicate(&self) -> (r: ResourceId)
        ensures
            r@ == self@,
    {
        match self {
            ResourceId::Number(n) => ResourceId::Number(*n),
            ResourceId::String(s) => ResourceId::String(s.clone()),
        }
    }
}

impl PathElement {
    /// Appends `collection` or `collection/resource` to `out`.
    pub fn push_text(&self, out: &mut Vec<char>)
        ensures
            final(out)@ == old(out)@ + element_text(self@),
    {
        push_str_chars(out, self.collection_id.as_str());
        match &self.resource_id {
            Some(r) => {
                out.push('/');
                r.push_text(out);
                proof {
                    assert(out@ =~= old(out)@ + element_text(self@));
                }
            },
            None => {},
        }
    }

    /// `collection` or `collection/resource`.
    pub fn to_text(&self) -> (r: String)
        ensures
            r@ == element_text(self@),
    {
        let mut out: Vec<char> = Vec::new();
        self.push_text(&mut out);
        proof {
            assert(out@ =~= element_text(self@));
        }
        string_of_chars(&out)
    }

    /// A copy with the same contents.
    pub fn duplicate(&self) -> (r: PathElement)
        ensures
            r@ == self@,
    {
        PathElement {
            collection_id: self.collection_id.clone(),
            resource_id: match &self.resource_id {
                Some(id) => Some(id.duplicate()),
                None => None,
            },
        }
    }
}

/// The segments of `s` between its slashes.
fn split_segments(s: &str, n: usize) -> (r: Vec<String>)
    requires
        n == s@.len(),
    ensures
        r@.len() == split_slash(s@).len(),
        forall|i: int| 0 <= i < r@.len() ==> (#[trigger] r@[i])@ == split_slash(s@)[i],
{
    let mut segs: Vec<String> = Vec::new();
    let mut start: usize = 0;
    let mut k: usize = 0;
    proof {
        assert(s@.subrange(0, 0) =~= Seq::<char>::empty());
        assert(s@.subrange(0, 0) =~= Seq::<char>::empty());
    }
    while k < n
        invariant
            n == s@.len(),
            start <= k <= n,
            segs@.len() + 1 == split_slash(s@.subrange(0, k as int)).len(),
            forall|i: int|
                0 <= i < segs@.len() ==> (#[trigger] segs@[i])@ == split_slash(
                    s@.subrange(0, k as int),
                )[i],
            split_slash(s@.subrange(0, k as int)).last() == s@.subrange(start as int, k as int),
        decreases n - k,
    {
        let ghost prev = s@.subrange(0, k as int);
        let ghost next = s@.subrange(0, k + 1);
        proof {
            assert(next.drop_last() =~= prev);
            assert(next.last() == s@[k as int]);
            lemma_split_slash_len(prev);
        }
        if s.get_char(k) == '/' {
            segs.push(String::from_str(s.substring_char(start, k)));
            start = k + 1;
            proof {
                assert(s@.subrange(start as int, k + 1) =~= Seq::<char>::empty());
            }
        } else {
            proof {
                assert(s@.subrange(start as int, k + 1) =~= s@.subrange(start as int, k as int).push(
                    s@[k as int],
                ));
            }
        }
        k = k + 1;
    }
    segs.push(String::from_str(s.substring_char(start, n)));
    proof {
        assert(s@.subrange(0, n as int) =~= s@);
        lemma_split_slash_len(s@);
    }
    segs
}

impl FsPath {
    /// Reads a path: the segments between slashes, taken two at a time as
    /// (collection, resource) pairs, an odd last segment being a collection
    /// alone; the empty text is the root.
    pub fn from_str(s: &str) -> (r: Result<FsPath, FsError>)
        ensures
            r matches Ok(p) && p@ == path_of_text(s@),
    {
        let n = s.unicode_len();
        let mut elements: Vec<PathElement> = Vec::new();
        if n == 0 {
            proof {
                assert(elements@.map_values(|e: PathElement| e@) =~= path_of_text(s@));
            }
            return Ok(FsPath(elements));
        }
        let segs = split_segments(s, n);
        let ghost parts = split_slash(s@);
        let count = segs.len();
        let total = count / 2 + count % 2;
        let mut k: usize = 0;
        while k < total
            invariant
                count == segs@.len() == parts.len(),
                parts == split_slash(s@),
                s@.len() > 0,
                total == count / 2 + count % 2,
                k <= total,
                forall|i: int| 0 <= i < segs@.len() ==> (#[trigger] segs@[i])@ == parts[i],
                elements@.len() == k,
                forall|i: int|
                    0 <= i < k ==> (#[trigger] elements@[i])@ == elements_of(parts)[i],
            decreases total - k,
        {
            let j = 2 * k;
            let collection_id = segs[j].clone();
            let resource_id = if j + 1 < count {
                match ResourceId::from_str(segs[j + 1].as_str()) {
                    Ok(id) => Some(id),
                    Err(_) => None,
                }
            } else {
                None
            };
            let e = PathElement { collection_id, resource_id };
            proof {
                assert(e@ == elements_of(parts)[k as int]);
            }
            elements.push(e);
            k = k + 1;
        }
        proof {
            assert(elements@.map_values(|e: PathElement| e@) =~= path_of_text(s@));
        }
        Ok(FsPath(elements))
    }

    /// The elements' texts joined with `/`.
    pub fn to_text(&self) -> (r: String)
        ensures
            r@ == path_text(self@),
    {
        let mut out: Vec<char> = Vec::new();
        let count = self.0.len();
        let mut i: usize = 0;
        while i < count
            invariant
                count == self.0@.len(),
                i <= count,
                out@ == path_text(self@.subrange(0, i as int)),
            decreases count - i,
        {
            let ghost before = self@.subrange(0, i as int);
            let ghost after = self@.subrange(0, i + 1);
            proof {
                assert(after.drop_last() =~= before);
            }
            if i > 0 {
                out.push('/');
            }
            self.0[i].push_text(&mut out);
            proof {
                if i == 0 {
                    assert(out@ =~= path_text(after));
                } else {
                    assert(out@ =~= path_text(after));
                }
            }
            i = i + 1;
        }
        proof {
            assert(self@.subrange(0, count as int) =~= self@);
        }
        string_of_chars(&out)
    }
}

/// Whether `c` is a path character.
fn path_char(c: char) -> (r: bool)
    ensures
        r == is_path_char(c),
{
    ('a' <= c && c <= 'z') || ('A' <= c && c <= 'Z') || ('0' <= c && c <= '9') || c == '_' || c
        == '-' || c == '/' || alphanumeric(c)
}

impl FsReference {
    /// The database root.
    pub fn root() -> (r: FsReference)
        ensures
            r@ == Seq::<ElementView>::empty(),
    {
        let r = FsReference { path: FsPath(Vec::new()) };
        proof {
            assert(r@ =~= Seq::<ElementView>::empty());
        }
        r
    }

    /// Reads `/` followed by a path; any other character than a path
    /// character is an `InvalidValue` error.
    pub fn from_str(s: &str) -> (r: Result<FsReference, FsError>)
        ensures
            match reference_of_text(s@) {
                Some(p) => r matches Ok(x) && x@ == p,
                None => r matches Err(FsError::InvalidValue(m)) && m@ == reference_error(s@),
            },
            r matches Ok(x) ==> canonical_path(x@),
    {
        proof {
            lemma_read_path_canonical(s@);
        }
        let n = s.unicode_len();
        if n == 0 || s.get_char(0) != '/' {
            return Err(FsError::InvalidValue(String::from_str("a reference starts with '/': ").concat(s)));
        }
        let mut i: usize = 1;
        while i < n
            invariant
                n == s@.len(),
                1 <= i <= n,
                s@[0] == '/',
                forall|k: int| 1 <= k < i ==> is_path_char(#[trigger] s@[k]),
            decreases n - i,
        {
            if !path_char(s.get_char(i)) {
                proof {
                    assert(!is_path_char(s@[i as int]));
                    assert(s@.len() > 0 && s@[0] == '/');
                    assert(reference_of_text(s@) is None);
                }
                return Err(FsError::InvalidValue(String::from_str("not a reference path: ").concat(s)));
            }
            i = i + 1;
        }
        match FsPath::from_str(s.substring_char(1, n)) {
            Ok(path) => Ok(FsReference { path }),
            Err(e) => Err(e),
        }
    }

    /// `/` followed by the path's text.
    pub fn to_text(&self) -> (r: String)
        ensures
            r@ == seq!['/'] + path_text(self@),
    {
        proof {
            reveal_strlit("/");
        }
        String::from_str("/").concat(self.path.to_text().as_str())
    }

    /// The path has no elements.
    pub fn is_root(&self) -> (r: bool)
        ensures
            r == (self@.len() == 0),
    {
        self.path.0.len() == 0
    }

    /// The path is the root, or its last element names a resource.
    pub fn has_complete_path(&self) -> (r: bool)
        ensures
            r == (self@.len() == 0 || self@.last().resource_id is Some),
    {
        let n = self.path.0.len();
        if n == 0 {
            true
        } else {
            self.path.0[n - 1].resource_id.is_some()
        }
    }

    /// The path without its last element; the root is its own parent.
    pub fn parent(&self) -> (r: FsReference)
        ensures
            r@ == if self@.len() == 0 {
                self@
            } else {
                self@.drop_last()
            },
    {
        let n = self.path.0.len();
        let keep = if n == 0 {
            0
        } else {
            n - 1
        };
        let mut elements: Vec<PathElement> = Vec::new();
        let mut i: usize = 0;
        while i < keep
            invariant
                keep <= n == self.path.0@.len(),
                i <= keep,
                elements@.len() == i,
                forall|k: int| 0 <= k < i ==> (#[trigger] elements@[k])@ == self.path.0@[k]@,
            decreases keep - i,
        {
            elements.push(self.path.0[i].duplicate());
            i = i + 1;
        }
        let r = FsReference { path: FsPath(elements) };
        proof {
            if n == 0 {
                assert(r@ =~= self@);
            } else {
                assert(r@ =~= self@.drop_last());
            }
        }
        r
    }

    /// The collection id of the last element; empty for the root.
    pub fn collection_id(&self) -> (r: String)
        ensures
            r@ == if self@.len() == 0 {
                Seq::empty()
            } else {
                self@.last().collection_id
            },
    {
        let n = self.path.0.len();
        if n == 0 {
            String::new()
        } else {
            self.path.0[n - 1].collection_id.clone()
        }
    }
}

/// Resource ids: numbers before strings, numbers by value, strings
/// lexicographically.
pub open spec fn resource_id_order(x: ResourceIdView, y: ResourceIdView) -> Ordering {
    match (x, y) {
        (ResourceIdView::Number(m), ResourceIdView::Number(n)) => int_order(m as int, n as int),
        (ResourceIdView::Number(_), ResourceIdView::String(_)) => Ordering::Less,
        (ResourceIdView::String(_), ResourceIdView::Number(_)) => Ordering::Greater,
        (ResourceIdView::String(s), ResourceIdView::String(t)) => chars_order(s, t),
    }
}

/// Elements: by collection id, then by resource id, a missing one first.
pub open spec fn element_order(x: ElementView, y: ElementView) -> Ordering {
    let o = chars_order(x.collection_id, y.collection_id);
    if o != Ordering::Equal {
        o
    } else {
        match (x.resource_id, y.resource_id) {
            (None, None) => Ordering::Equal,
            (None, Some(_)) => Ordering::Less,
            (Some(_), None) => Ordering::Greater,
            (Some(a), Some(b)) => resource_id_order(a, b),
        }
    }
}

/// Paths: lexicographically over their elements from index `i`, a proper
/// prefix first.
pub open spec fn path_order_from(p: Seq<ElementView>, q: Seq<ElementView>, i: int) -> Ordering
    decreases p.len() - i,
{
    if 0 <= i < p.len() && i < q.len() {
        let o = element_order(p[i], q[i]);
        if o == Ordering::Equal {
            path_order_from(p, q, i + 1)
        } else {
            o
        }
    } else {
        int_order(p.len() as int, q.len() as int)
    }
}

pub open spec fn path_order(p: Seq<ElementView>, q: Seq<ElementView>) -> Ordering {
    path_order_from(p, q, 0)
}

impl ResourceId {
    /// Compares by `resource_id_order`.
    pub fn compare(&self, other: &ResourceId) -> (r: Ordering)
        ensures
            r == resource_id_order(self@, other@),
    {
        match (self, other) {
            (ResourceId::Number(m), ResourceId::Number(n)) => {
                if *m < *n {
                    Ordering::Less
                } else if *m == *n {
                    Ordering::Equal
                } else {
                    Ordering::Greater
                }
            },
            (ResourceId::Number(_), ResourceId::String(_)) => Ordering::Less,
            (ResourceId::String(_), ResourceId::Number(_)) => Ordering::Greater,
            (ResourceId::String(s), ResourceId::String(t)) => compare_text(s.as_str(), t.as_str()),
        }
    }

    /// Whether the two ids hold the same.
    pub fn equals(&self, other: &ResourceId) -> (r: bool)
        ensures
            r == (self@ == other@),
    {
        match (self, other) {
            (ResourceId::Number(m), ResourceId::Number(n)) => *m == *n,
            (ResourceId::String(s), ResourceId::String(t)) => crate::text::str_equals(
                s.as_str(),
                t.as_str(),
            ),
            _ => false,
        }
    }
}

impl PathElement {
    /// Compares by `element_order`.
    pub fn compare(&self, other: &PathElement) -> (r: Ordering)
        ensures
            r == element_order(self@, other@),
    {
        let o = compare_text(self.collection_id.as_str(), other.collection_id.as_str());
        match o {
            Ordering::Equal => {},
            _ => return o,
        }
        match (&self.resource_id, &other.resource_id) {
            (None, None) => Ordering::Equal,
            (None, Some(_)) => Ordering::Less,
            (Some(_), None) => Ordering::Greater,
            (Some(a), Some(b)) => a.compare(b),
        }
    }

    /// Whether the two elements hold the same.
    pub fn equals(&self, other: &PathElement) -> (r: bool)
        ensures
            r == (self@ == other@),
    {
        if self.collection_id != other.collection_id {
            return false;
        }
        match (&self.resource_id, &other.resource_id) {
            (None, None) => true,
            (Some(a), Some(b)) => a.equals(b),
            _ => false,
        }
    }
}

impl FsReference {
    /// Compares by `path_order`.
    pub fn compare(&self, other: &FsReference) -> (r: Ordering)
        ensures
            r == path_order(self@, other@),
    {
        let p = &self.path.0;
        let q = &other.path.0;
        let mut i: usize = 0;
        while i < p.len() && i < q.len()
            invariant
                p == &self.path.0,
                q == &other.path.0,
                i <= p@.len(),
                path_order(self@, other@) == path_order_from(self@, other@, i as int),
            decreases p.len() - i,
        {
            let o = p[i].compare(&q[i]);
            match o {
                Ordering::Equal => {},
                _ => return o,
            }
            i = i + 1;
        }
        compare_usize(p.len(), q.len())
    }

    /// Whether the two references hold the same path.
    pub fn equals(&self, other: &FsReference) -> (r: bool)
        ensures
            r == (self@ == other@),
    {
        let p = &self.path.0;
        let q = &other.path.0;
        proof {
            assert(self@.len() == p@.len());
            assert(other@.len() == q@.len());
        }
        if p.len() != q.len() {
            return false;
        }
        let mut i: usize = 0;
        while i < p.len()
            invariant
                p == &self.path.0,
                q == &other.path.0,
                i <= p@.len() == q@.len(),
                forall|k: int| 0 <= k < i ==> self@[k] == other@[k],
            decreases p.len() - i,
        {
            if !p[i].equals(&q[i]) {
                proof {
                    assert(self@[i as int] == p@[i as int]@);
                    assert(other@[i as int] == q@[i as int]@);
                }
                return false;
            }
            i = i + 1;
        }
        proof {
            assert(self@ =~= other@);
        }
        true
    }
}

/// A character that may stand in a segment: a path character other than `/`.
pub open spec fn is_segment_char(c: char) -> bool {
    is_path_char(c) && c != '/'
}

pub open spec fn is_segment(t: Seq<char>) -> bool {
    forall|i: int| 0 <= i < t.len() ==> is_segment_char(#[trigger] t[i])
}

/// A path that its text writes unambiguously: ids are segments, a string id
/// does not read as an integer, only the last element may lack a resource
/// id, and a path of one element has a non-empty text.
pub open spec fn canonical_path(p: Seq<ElementView>) -> bool {
    &&& forall|j: int| 0 <= j < p.len() ==> is_segment(#[trigger] p[j].collection_id)
    &&& forall|j: int|
        0 <= j < p.len() ==> match #[trigger] p[j].resource_id {
            Some(ResourceIdView::String(t)) => is_segment(t) && i64_of_text(t) is None,
            _ => true,
        }
    &&& forall|j: int| 0 <= j < p.len() - 1 ==> (#[trigger] p[j].resource_id) is Some
    &&& !(p.len() == 1 && p[0].collection_id.len() == 0 && p[0].resource_id is None)
}

/// The segments that a path's text holds between slashes.
pub open spec fn element_segments(e: ElementView) -> Seq<Seq<char>> {
    match e.resource_id {
        Some(r) => seq![e.collection_id, resource_id_text(r)],
        None => seq![e.collection_id],
    }
}

pub open spec fn path_segments(p: Seq<ElementView>) -> Seq<Seq<char>>
    decreases p.len(),
{
    if p.len() == 0 {
        Seq::empty()
    } else {
        path_segments(p.drop_last()) + element_segments(p.last())
    }
}

proof fn lemma_split_no_slash(a: Seq<char>)
    requires
        forall|i: int| 0 <= i < a.len() ==> a[i] != '/',
    ensures
        split_slash(a) == seq![a],
    decreases a.len(),
{
    if a.len() > 0 {
        assert forall|i: int| 0 <= i < a.drop_last().len() implies a.drop_last()[i] != '/' by {
            assert(a.drop_last()[i] == a[i]);
        }
        lemma_split_no_slash(a.drop_last());
        assert(a.last() != '/');
        assert(a.drop_last().push(a.last()) =~= a);
        assert(seq![a.drop_last()].update(0, a.drop_last().push(a.last())) =~= seq![a]);
    } else {
        assert(a =~= Seq::<char>::empty());
    }
}

proof fn lemma_split_concat(a: Seq<char>, b: Seq<char>)
    ensures
        split_slash(a + seq!['/'] + b) == split_slash(a) + split_slash(b),
    decreases b.len(),
{
    lemma_split_slash_len(b);
    if b.len() == 0 {
        assert((a + seq!['/'] + b).drop_last() =~= a);
        assert(a + seq!['/'] + b =~= a + seq!['/']);
        assert(split_slash(a).push(Seq::empty()) =~= split_slash(a) + seq![Seq::<char>::empty()]);
    } else {
        lemma_split_concat(a, b.drop_last());
        lemma_split_slash_len(b.drop_last());
        assert((a + seq!['/'] + b).drop_last() =~= a + seq!['/'] + b.drop_last());
        let l = split_slash(a);
        let r = split_slash(b.drop_last());
        if b.last() == '/' {
            assert((l + r).push(Seq::empty()) =~= l + r.push(Seq::empty()));
        } else {
            assert((l + r).update((l + r).len() - 1, (l + r).last().push(b.last())) =~= l + r.update(
                r.len() - 1,
                r.last().push(b.last()),
            ));
        }
    }
}

proof fn lemma_int_text_segment(n: i64)
    ensures
        is_segment(int_text(n as int)),
        i64_of_text(int_text(n as int)) == Some(n),
{
    let m: nat = if n < 0 {
        (-n) as nat
    } else {
        n as nat
    };
    lemma_nat_text(m);
    let t = int_text(n as int);
    let d = nat_text(m);
    if n < 0 {
        assert(t.subrange(1, t.len() as int) =~= d);
        assert forall|i: int| 0 <= i < t.len() implies is_segment_char(#[trigger] t[i]) by {
            if i > 0 {
                assert(t[i] == d[i - 1]);
            }
        }
    } else {
        assert(t.subrange(0, t.len() as int) =~= d);
        assert(is_digit(d[0]));
        assert forall|i: int| 0 <= i < t.len() implies is_segment_char(#[trigger] t[i]) by {
            assert(is_digit(d[i]));
        }
    }
}

proof fn lemma_segments_have_no_slash(t: Seq<char>)
    requires
        is_segment(t),
    ensures
        forall|i: int| 0 <= i < t.len() ==> t[i] != '/',
{
    assert forall|i: int| 0 <= i < t.len() implies t[i] != '/' by {
        assert(is_segment_char(t[i]));
    }
}

/// The resource id's text is a segment and reads back as the id.
proof fn lemma_resource_id_text(r: ResourceIdView)
    requires
        r matches ResourceIdView::String(t) ==> is_segment(t) && i64_of_text(t) is None,
    ensures
        is_segment(resource_id_text(r)),
        resource_id_of_text(resource_id_text(r)) == r,
{
    if let ResourceIdView::Number(n) = r {
        lemma_int_text_segment(n);
    }
}

/// The text of an element splits into its segments.
proof fn lemma_element_split(e: ElementView)
    requires
        is_segment(e.collection_id),
        e.resource_id matches Some(r) ==> is_segment(resource_id_text(r)),
    ensures
        split_slash(element_text(e)) == element_segments(e),
{
    lemma_segments_have_no_slash(e.collection_id);
    lemma_split_no_slash(e.collection_id);
    if let Some(r) = e.resource_id {
        lemma_segments_have_no_slash(resource_id_text(r));
        lemma_split_no_slash(resource_id_text(r));
        lemma_split_concat(e.collection_id, resource_id_text(r));
    }
}

proof fn lemma_path_facts(p: Seq<ElementView>)
    requires
        canonical_path(p),
    ensures
        forall|j: int|
            0 <= j < p.len() ==> (#[trigger] p[j].resource_id matches Some(r) ==> is_segment(
                resource_id_text(r),
            ) && resource_id_of_text(resource_id_text(r)) == r),
{
    assert forall|j: int| 0 <= j < p.len() implies (#[trigger] p[j].resource_id matches Some(r)
        ==> is_segment(resource_id_text(r)) && resource_id_of_text(resource_id_text(r)) == r) by {
        if let Some(r) = p[j].resource_id {
            lemma_resource_id_text(r);
        }
    }
}

/// A path's text splits into its segments, and every character of it is a
/// path character.
proof fn lemma_path_split(p: Seq<ElementView>)
    requires
        p.len() >= 1,
        forall|j: int| 0 <= j < p.len() ==> is_segment(#[trigger] p[j].collection_id),
        forall|j: int|
            0 <= j < p.len() ==> (#[trigger] p[j].resource_id matches Some(r) ==> is_segment(
                resource_id_text(r),
            )),
    ensures
        split_slash(path_text(p)) == path_segments(p),
        forall|i: int| 0 <= i < path_text(p).len() ==> is_path_char(#[trigger] path_text(p)[i]),
    decreases p.len(),
{
    let e = p.last();
    assert(is_segment(p[p.len() - 1].collection_id));
    assert(p[p.len() - 1].resource_id matches Some(r) ==> is_segment(resource_id_text(r)));
    lemma_element_split(e);
    let et = element_text(e);
    assert forall|i: int| 0 <= i < et.len() implies is_path_char(#[trigger] et[i]) by {
        if i < e.collection_id.len() {
            assert(is_segment_char(e.collection_id[i]));
        } else if let Some(r) = e.resource_id {
            if i > e.collection_id.len() {
                assert(et[i] == resource_id_text(r)[i - e.collection_id.len() - 1]);
                assert(is_segment_char(resource_id_text(r)[i - e.collection_id.len() - 1]));
            }
        }
    }
    if p.len() == 1 {
        assert(path_segments(p.drop_last()) =~= Seq::<Seq<char>>::empty());
        assert(path_segments(p) =~= element_segments(e));
    } else {
        let q = p.drop_last();
        assert forall|j: int| 0 <= j < q.len() implies is_segment(#[trigger] q[j].collection_id) by {
            assert(q[j] == p[j]);
        }
        assert forall|j: int|
            0 <= j < q.len() implies (#[trigger] q[j].resource_id matches Some(r) ==> is_segment(
                resource_id_text(r),
            )) by {
            assert(q[j] == p[j]);
        }
        lemma_path_split(q);
        lemma_split_concat(path_text(q), et);
        let t = path_text(p);
        let qt = path_text(q);
        assert(t == qt + seq!['/'] + et);
        assert forall|i: int| 0 <= i < t.len() implies is_path_char(#[trigger] t[i]) by {
            if i < qt.len() {
                assert(t[i] == qt[i]);
            } else if i > qt.len() {
                assert(t[i] == et[i - qt.len() - 1]);
            }
        }
    }
}

/// Where every element but the last has a resource id, the segments hold
/// each collection id at an even index and each resource id's text after it.
proof fn lemma_path_segments(p: Seq<ElementView>)
    requires
        forall|j: int| 0 <= j < p.len() - 1 ==> (#[trigger] p[j].resource_id) is Some,
    ensures
        path_segments(p).len() == if p.len() > 0 && p.last().resource_id is None {
            2 * p.len() - 1int
        } else {
            2 * p.len() as int
        },
        forall|j: int| 0 <= j < p.len() ==> path_segments(p)[2 * j] == #[trigger] p[j].collection_id,
        forall|j: int|
            0 <= j < p.len() ==> (#[trigger] p[j].resource_id matches Some(r) ==> path_segments(p)[2
                * j + 1] == resource_id_text(r)),
    decreases p.len(),
{
    if p.len() > 0 {
        let q = p.drop_last();
        assert forall|j: int| 0 <= j < q.len() - 1 implies (#[trigger] q[j].resource_id) is Some by {
            assert(q[j] == p[j]);
        }
        lemma_path_segments(q);
        if q.len() > 0 {
            assert(q[q.len() - 1] == p[p.len() - 2]);
            assert(q.last().resource_id is Some);
        }
        let s = path_segments(p);
        let qs = path_segments(q);
        assert(s == qs + element_segments(p.last()));
        assert forall|j: int| 0 <= j < p.len() implies s[2 * j] == #[trigger] p[j].collection_id by {
            if j < q.len() {
                assert(q[j] == p[j]);
            }
        }
        assert forall|j: int|
            0 <= j < p.len() implies (#[trigger] p[j].resource_id matches Some(r) ==> s[2 * j + 1]
                == resource_id_text(r)) by {
            if j < q.len() {
                assert(q[j] == p[j]);
            }
        }
    }
}

/// A canonical path's text, after a `/`, reads back as the path.
pub proof fn lemma_reference_text_round_trip(p: Seq<ElementView>)
    requires
        canonical_path(p),
    ensures
        reference_of_text(seq!['/'] + path_text(p)) == Some(p),
{
    let t = path_text(p);
    let s = seq!['/'] + t;
    assert(s.subrange(1, s.len() as int) =~= t);
    if p.len() == 0 {
        assert(path_of_text(t) =~= p);
    } else {
        lemma_path_facts(p);
        lemma_path_split(p);
        lemma_path_segments(p);
        assert forall|i: int| 1 <= i < s.len() implies is_path_char(#[trigger] s[i]) by {
            assert(s[i] == t[i - 1]);
        }
        if t.len() == 0 {
            lemma_split_slash_len(t);
            assert(split_slash(t) =~= seq![Seq::<char>::empty()]);
            assert(false);
        }
        let segs = path_segments(p);
        let got = elements_of(segs);
        assert(got.len() == p.len());
        assert forall|j: int| 0 <= j < p.len() implies #[trigger] got[j] == p[j] by {
            if j < p.len() - 1 {
                assert(p[j].resource_id is Some);
            }
            assert(got[j].collection_id == segs[2 * j]);
            assert(segs[2 * j] == p[j].collection_id);
            match p[j].resource_id {
                Some(r) => {
                    assert(2 * j + 1 < segs.len());
                    assert(segs[2 * j + 1] == resource_id_text(r));
                    assert(resource_id_of_text(resource_id_text(r)) == r);
                    assert(got[j].resource_id == Some(r));
                },
                None => {
                    assert(j == p.len() - 1);
                    assert(got[j].resource_id is None);
                },
            }
            assert(got[j].resource_id == p[j].resource_id);
        }
        assert(got =~= p);
    }
}

/// The text of an integer reads as an `i64` exactly where it is in range.
pub proof fn lemma_int_text_i64(m: int)
    ensures
        i64_of_text(int_text(m)) == if i64::MIN <= m <= i64::MAX {
            Some(m as i64)
        } else {
            None::<i64>
        },
{
    let k: nat = if m < 0 {
        (-m) as nat
    } else {
        m as nat
    };
    lemma_nat_text(k);
    let t = int_text(m);
    let d = nat_text(k);
    if m < 0 {
        assert(t.subrange(1, t.len() as int) =~= d);
    } else {
        assert(t.subrange(0, t.len() as int) =~= d);
        assert(is_digit(d[0]));
    }
}

/// The segments of a text of path characters are segments; a text without a
/// slash is its own one segment.
proof fn lemma_split_segments(t: Seq<char>)
    requires
        forall|i: int| 0 <= i < t.len() ==> is_path_char(#[trigger] t[i]),
    ensures
        forall|k: int| 0 <= k < split_slash(t).len() ==> is_segment(#[trigger] split_slash(t)[k]),
        split_slash(t).len() == 1 ==> split_slash(t)[0] == t,
    decreases t.len(),
{
    lemma_split_slash_len(t);
    if t.len() > 0 {
        let u = t.drop_last();
        assert forall|i: int| 0 <= i < u.len() implies is_path_char(#[trigger] u[i]) by {
            assert(u[i] == t[i]);
        }
        lemma_split_segments(u);
        lemma_split_slash_len(u);
        let rest = split_slash(u);
        let c = t.last();
        assert(is_path_char(t[t.len() - 1]));
        if c == '/' {
            assert forall|k: int| 0 <= k < split_slash(t).len() implies is_segment(
                #[trigger] split_slash(t)[k],
            ) by {
                if k < rest.len() {
                    assert(split_slash(t)[k] == rest[k]);
                }
            }
        } else {
            let last = rest.last().push(c);
            assert(is_segment(last)) by {
                assert(is_segment(rest[rest.len() - 1]));
                assert forall|i: int| 0 <= i < last.len() implies is_segment_char(#[trigger] last[i]) by {
                    if i < last.len() - 1 {
                        assert(last[i] == rest.last()[i]);
                    }
                }
            }
            assert forall|k: int| 0 <= k < split_slash(t).len() implies is_segment(
                #[trigger] split_slash(t)[k],
            ) by {
                if k < rest.len() - 1 {
                    assert(split_slash(t)[k] == rest[k]);
                }
            }
            if split_slash(t).len() == 1 {
                assert(rest[0] == u);
                assert(u.push(c) =~= t);
            }
        }
    } else {
        assert(split_slash(t) == seq![Seq::<char>::empty()]);
        assert(t =~= Seq::<char>::empty());
    }
}

/// Every path that a reference text reads as is canonical.
pub proof fn lemma_read_path_canonical(s: Seq<char>)
    ensures
        reference_of_text(s) matches Some(p) ==> canonical_path(p),
{
    if let Some(p) = reference_of_text(s) {
        let t = s.subrange(1, s.len() as int);
        assert forall|i: int| 0 <= i < t.len() implies is_path_char(#[trigger] t[i]) by {
            assert(t[i] == s[i + 1]);
        }
        if t.len() > 0 {
            let segs = split_slash(t);
            lemma_split_segments(t);
            lemma_split_slash_len(t);
            assert(p == elements_of(segs));
            assert forall|j: int| 0 <= j < p.len() implies is_segment(#[trigger] p[j].collection_id) by {
                assert(p[j].collection_id == segs[2 * j]);
            }
            assert forall|j: int|
                0 <= j < p.len() implies match #[trigger] p[j].resource_id {
                    Some(ResourceIdView::String(u)) => is_segment(u) && i64_of_text(u) is None,
                    _ => true,
                } by {
                if 2 * j + 1 < segs.len() {
                    assert(is_segment(segs[2 * j + 1]));
                }
            }
            assert forall|j: int| 0 <= j < p.len() - 1 implies (#[trigger] p[j].resource_id) is Some by {
                assert(2 * j + 1 < segs.len());
            }
            if p.len() == 1 && segs.len() == 1 {
                assert(p[0].collection_id == t);
            }
        } else {
            assert(p =~= Seq::<ElementView>::empty());
        }
    }
}

} // verus!
