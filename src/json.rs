//! A JSON document as plain values: the shape that the wire encoding reads
//! and writes. Numbers are exact decimals.
use crate::number::{Decimal, DecimalView};
use vstd::prelude::*;

verus! {

/// A JSON value. An object keeps its members in order.
#[derive(Debug)]
pub enum Json {
    Null,
    Bool(bool),
    Number(Decimal),
    String(String),
    Array(Vec<Json>),
    Object(Vec<(String, Json)>),
}

/// What a `Json` holds.
pub enum JsonView {
    Null,
    Bool(bool),
    Number(DecimalView),
    String(Seq<char>),
    Array(Seq<JsonView>),
    Object(Seq<(Seq<char>, JsonView)>),
}

impl View for Json {
    type V = JsonView;

    open spec fn view(&self) -> JsonView
        decreases self, 0nat,
    {
        match self {
            Json::Null => JsonView::Null,
            Json::Bool(b) => JsonView::Bool(*b),
            Json::Number(d) => JsonView::Number(d@),
            Json::String(s) => JsonView::String(s@),
            Json::Array(items) => JsonView::Array(json_views(items@)),
            Json::Object(members) => JsonView::Object(member_views(members@)),
        }
    }
}

/// The views of a sequence of values.
pub open spec fn json_views(s: Seq<Json>) -> Seq<JsonView>
    decreases s, 1nat,
{
    if s.len() == 0 {
        Seq::empty()
    } else {
        json_views(s.drop_last()).push(s.last().view())
    }
}

/// The views of a sequence of object members.
pub open spec fn member_views(s: Seq<(String, Json)>) -> Seq<(Seq<char>, JsonView)>
    decreases s, 1nat,
{
    if s.len() == 0 {
        Seq::empty()
    } else {
        member_views(s.drop_last()).push((s.last().0@, s.last().1.view()))
    }
}

pub proof fn lemma_json_views(s: Seq<Json>)
    ensures
        json_views(s).len() == s.len(),
        forall|i: int| 0 <= i < s.len() ==> #[trigger] json_views(s)[i] == s[i]@,
    decreases s.len(),
{
    if s.len() > 0 {
        lemma_json_views(s.drop_last());
        assert(json_views(s) == json_views(s.drop_last()).push(s.last().view()));
    }
}

pub proof fn lemma_member_views(s: Seq<(String, Json)>)
    ensures
        member_views(s).len() == s.len(),
        forall|i: int|
            0 <= i < s.len() ==> #[trigger] member_views(s)[i] == (s[i].0@, s[i].1@),
    decreases s.len(),
{
    if s.len() > 0 {
        lemma_member_views(s.drop_last());
        assert(member_views(s) == member_views(s.drop_last()).push(
            (s.last().0@, s.last().1.view()),
        ));
    }
}

/// The index of the first member named `key`, from index `i` on.
pub open spec fn member_index_from(members: Seq<(Seq<char>, JsonView)>, key: Seq<char>, i: int) -> Option<
    int,
>
    decreases members.len() - i,
{
    if 0 <= i < members.len() {
        if members[i].0 == key {
            Some(i)
        } else {
            member_index_from(members, key, i + 1)
        }
    } else {
        None
    }
}

pub open spec fn member_index(members: Seq<(Seq<char>, JsonView)>, key: Seq<char>) -> Option<int> {
    member_index_from(members, key, 0)
}

pub proof fn lemma_member_index_bounds(members: Seq<(Seq<char>, JsonView)>, key: Seq<char>, i: int)
    requires
        0 <= i,
    ensures
        member_index_from(members, key, i) matches Some(k) ==> i <= k < members.len() && members[k].0
            == key,
    decreases members.len() - i,
{
    if 0 <= i < members.len() && members[i].0 != key {
        lemma_member_index_bounds(members, key, i + 1);
    }
}

/// The value of the first member named `key`.
pub open spec fn member(members: Seq<(Seq<char>, JsonView)>, key: Seq<char>) -> Option<JsonView> {
    match member_index(members, key) {
        Some(i) => if 0 <= i < members.len() {
            Some(members[i].1)
        } else {
            None
        },
        None => None,
    }
}

impl Json {
    /// The value of the first member named `key`, where this is an object.
    pub fn get(&self, key: &str) -> (r: Option<&Json>)
        ensures
            match self@ {
                JsonView::Object(members) => match member(members, key@) {
                    Some(v) => r matches Some(x) && x@ == v,
                    None => r is None,
                },
                _ => r is None,
            },
    {
        match self {
            Json::Object(members) => {
                let ghost ms = member_views(members@);
                proof {
                    lemma_member_views(members@);
                    lemma_member_index_bounds(ms, key@, 0);
                }
                let mut i: usize = 0;
                while i < members.len()
                    invariant
                        i <= members@.len(),
                        ms == member_views(members@),
                        ms.len() == members@.len(),
                        forall|k: int|
                            0 <= k < members@.len() ==> #[trigger] ms[k] == (
                                members@[k].0@,
                                members@[k].1@,
                            ),
                        member_index(ms, key@) == member_index_from(ms, key@, i as int),
                        self@ == JsonView::Object(ms),
                    decreases members.len() - i,
                {
                    if crate::text::str_equals(members[i].0.as_str(), key) {
                        proof {
                            assert(member_index_from(ms, key@, i as int) == Some(i as int));
                        }
                        return Some(&members[i].1);
                    }
                    i = i + 1;
                }
                None
            },
            _ => None,
        }
    }
}

} // verus!
