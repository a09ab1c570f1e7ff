//! JSON values.

use crate::text;
use vstd::prelude::*;

verus! {

/// A JSON value. A floating-point number is held by its bits; an object keeps its
/// members in order.
#[derive(Debug)]
pub enum Json {
    Null,
    Bool(bool),
    Int(i128),
    Count(u128),
    Float(u64),
    Text(String),
    List(Vec<Json>),
    Object(Vec<(String, Json)>),
}

/// What a JSON value is.
pub enum JsonView {
    Null,
    Bool(bool),
    Int(int),
    Float(u64),
    Text(Seq<char>),
    List(Seq<JsonView>),
    Object(Seq<(Seq<char>, JsonView)>),
}

/// What `v` is.
pub open spec fn json_view(v: Json) -> JsonView
    decreases v,
{
    match v {
        Json::Null => JsonView::Null,
        Json::Bool(b) => JsonView::Bool(b),
        Json::Int(i) => JsonView::Int(i as int),
        Json::Count(n) => JsonView::Int(n as int),
        Json::Float(f) => JsonView::Float(f),
        Json::Text(s) => JsonView::Text(s@),
        Json::List(items) => JsonView::List(json_views(items@)),
        Json::Object(members) => JsonView::Object(member_views(members@)),
    }
}

/// What the values are.
pub open spec fn json_views(items: Seq<Json>) -> Seq<JsonView>
    decreases items,
{
    if items.len() == 0 {
        Seq::empty()
    } else {
        json_views(items.drop_last()).push(json_view(items.last()))
    }
}

/// What the members of an object are.
pub open spec fn member_views(members: Seq<(String, Json)>) -> Seq<(Seq<char>, JsonView)>
    decreases members,
{
    if members.len() == 0 {
        Seq::empty()
    } else {
        member_views(members.drop_last()).push(
            (members.last().0@, json_view(members.last().1)),
        )
    }
}

impl View for Json {
    type V = JsonView;

    open spec fn view(&self) -> JsonView {
        json_view(*self)
    }
}

/// A value behind others.
pub fn push_item(items: &mut Vec<Json>, value: Json)
    ensures
        json_views(final(items)@) == json_views(old(items)@).push(value@),
{
    let ghost before = items@;
    items.push(value);
    assert(items@.drop_last() =~= before);
}

/// A member behind others.
pub fn push_member(members: &mut Vec<(String, Json)>, name: &str, value: Json)
    ensures
        member_views(final(members)@) == member_views(old(members)@).push((name@, value@)),
{
    let ghost before = members@;
    members.push((name.to_owned(), value));
    assert(members@.drop_last() =~= before);
}

/// A text.
pub fn text_value(s: &str) -> (res: Json)
    ensures
        res@ == JsonView::Text(s@),
{
    Json::Text(s.to_owned())
}

/// A count.
pub fn count_value(n: usize) -> (res: Json)
    ensures
        res@ == JsonView::Int(n as int),
{
    Json::Count(n as u128)
}

/// The texts as a list.
pub open spec fn text_list(texts: Seq<Seq<char>>) -> JsonView {
    JsonView::List(texts.map_values(|s: Seq<char>| JsonView::Text(s)))
}

/// The texts as a list.
pub fn text_list_value(texts: &Vec<String>) -> (res: Json)
    ensures
        res@ == text_list(text::texts(texts@)),
{
    let ghost all = text::texts(texts@).map_values(|s: Seq<char>| JsonView::Text(s));
    let mut items: Vec<Json> = Vec::new();
    let mut i: usize = 0;
    assert(json_views(items@) =~= all.take(0));
    while i < texts.len()
        invariant
            0 <= i <= texts@.len(),
            all == text::texts(texts@).map_values(|s: Seq<char>| JsonView::Text(s)),
            json_views(items@) == all.take(i as int),
        decreases texts@.len() - i,
    {
        push_item(&mut items, text_value(texts[i].as_str()));
        assert(all.take(i + 1) =~= all.take(i as int).push(all[i as int]));
        i = i + 1;
    }
    assert(all.take(i as int) =~= all);
    Json::List(items)
}

} // verus!
