//! YAML values.

use crate::text;
use yaml_serde::value::Tag;
use yaml_serde::value::TaggedValue;
use yaml_serde::Value;
use vstd::prelude::*;

verus! {

/// The number of `yaml_serde`.
#[verifier::external_type_specification]
#[verifier::external_body]
pub struct ExNumber(yaml_serde::Number);

/// The tag of `yaml_serde`.
#[verifier::external_type_specification]
#[verifier::external_body]
pub struct ExTag(Tag);

/// The value of `yaml_serde`.
#[verifier::external_type_specification]
#[verifier::external_body]
pub struct ExValue(Value);

/// `yaml_serde::Number` copies to the same number.
pub assume_specification[ <yaml_serde::Number as Clone>::clone ](
    n: &yaml_serde::Number,
) -> (res: yaml_serde::Number)
    ensures
        res == *n,
;

/// `yaml_serde::value::Tag` copies to the same tag.
pub assume_specification[ <Tag as Clone>::clone ](tag: &Tag) -> (res: Tag)
    ensures
        res == *tag,
;

/// A YAML value. Numbers and tags are carried as they are; a mapping keeps its entries
/// in document order.
#[derive(Debug)]
pub enum YamlValue {
    Null,
    Bool(bool),
    Number(yaml_serde::Number),
    String(String),
    Sequence(Vec<YamlValue>),
    Mapping(Vec<(YamlValue, YamlValue)>),
    Tagged(Tag, Box<YamlValue>),
}

/// What a YAML value is.
pub enum YamlView {
    Null,
    Bool(bool),
    Number(yaml_serde::Number),
    String(Seq<char>),
    Sequence(Seq<YamlView>),
    Mapping(Seq<(YamlView, YamlView)>),
    Tagged(Tag, Box<YamlView>),
}

/// What `v` is.
pub open spec fn yaml_view(v: YamlValue) -> YamlView
    decreases v,
{
    match v {
        YamlValue::Null => YamlView::Null,
        YamlValue::Bool(b) => YamlView::Bool(b),
        YamlValue::Number(n) => YamlView::Number(n),
        YamlValue::String(s) => YamlView::String(s@),
        YamlValue::Sequence(items) => YamlView::Sequence(yaml_views(items@)),
        YamlValue::Mapping(entries) => YamlView::Mapping(entry_views(entries@)),
        YamlValue::Tagged(tag, inner) => YamlView::Tagged(tag, Box::new(yaml_view(*inner))),
    }
}

/// What the values are.
pub open spec fn yaml_views(items: Seq<YamlValue>) -> Seq<YamlView>
    decreases items,
{
    if items.len() == 0 {
        Seq::empty()
    } else {
        yaml_views(items.drop_last()).push(yaml_view(items.last()))
    }
}

/// What the entries of a mapping are.
pub open spec fn entry_views(entries: Seq<(YamlValue, YamlValue)>) -> Seq<(YamlView, YamlView)>
    decreases entries,
{
    if entries.len() == 0 {
        Seq::empty()
    } else {
        entry_views(entries.drop_last()).push(
            (yaml_view(entries.last().0), yaml_view(entries.last().1)),
        )
    }
}

impl View for YamlValue {
    type V = YamlView;

    open spec fn view(&self) -> YamlView {
        yaml_view(*self)
    }
}

/// [`yaml_views`], element by element.
pub proof fn lemma_yaml_views(items: Seq<YamlValue>)
    ensures
        yaml_views(items).len() == items.len(),
        forall|i: int| 0 <= i < items.len() ==> #[trigger] yaml_views(items)[i] == items[i]@,
    decreases items.len(),
{
    if items.len() > 0 {
        lemma_yaml_views(items.drop_last());
    }
}

/// [`entry_views`], element by element.
pub proof fn lemma_entry_views(entries: Seq<(YamlValue, YamlValue)>)
    ensures
        entry_views(entries).len() == entries.len(),
        forall|i: int|
            0 <= i < entries.len() ==> #[trigger] entry_views(entries)[i] == (
                entries[i].0@,
                entries[i].1@,
            ),
    decreases entries.len(),
{
    if entries.len() > 0 {
        lemma_entry_views(entries.drop_last());
    }
}

/// The value without the tags around it.
pub open spec fn untagged(v: YamlView) -> YamlView
    decreases v,
{
    match v {
        YamlView::Tagged(_, inner) => untagged(*inner),
        _ => v,
    }
}

/// The text of a value that is a string, tags aside.
pub open spec fn text_of(v: YamlView) -> Option<Seq<char>> {
    match untagged(v) {
        YamlView::String(s) => Some(s),
        _ => None,
    }
}

/// The entries of a value that is a mapping, tags aside.
pub open spec fn entries_of(v: YamlView) -> Option<Seq<(YamlView, YamlView)>> {
    match untagged(v) {
        YamlView::Mapping(m) => Some(m),
        _ => None,
    }
}

/// A value that is neither a mapping nor a sequence, tags aside.
pub open spec fn plain(v: YamlView) -> bool {
    !(untagged(v) is Mapping) && !(untagged(v) is Sequence)
}

/// The position of the first entry whose key is the string `key`, or the number
/// of entries if there is none.
pub open spec fn key_position(entries: Seq<(YamlView, YamlView)>, key: Seq<char>) -> int
    decreases entries.len(),
{
    if entries.len() == 0 || entries[0].0 == YamlView::String(key) {
        0
    } else {
        1 + key_position(entries.skip(1), key)
    }
}

/// The value under the string `key`.
pub open spec fn lookup(entries: Seq<(YamlView, YamlView)>, key: Seq<char>) -> Option<YamlView> {
    let k = key_position(entries, key);
    if 0 <= k < entries.len() {
        Some(entries[k].1)
    } else {
        None
    }
}

/// The text under the string `key`, if it is a string.
pub open spec fn lookup_text(entries: Seq<(YamlView, YamlView)>, key: Seq<char>) -> Option<
    Seq<char>,
> {
    match lookup(entries, key) {
        Some(v) => text_of(v),
        None => None,
    }
}

impl YamlValue {
    /// The value without the tags around it.
    pub fn untag(&self) -> (res: &YamlValue)
        ensures
            res@ == untagged(self@),
            !(res is Tagged),
            *res == *self || decreases_to!(*self => *res),
        decreases self,
    {
        match self {
            YamlValue::Tagged(_, inner) => inner.untag(),
            _ => self,
        }
    }

    /// The text, if the value is a string.
    pub fn as_str(&self) -> (res: Option<&String>)
        ensures
            match res {
                Some(s) => text_of(self@) == Some(s@),
                None => text_of(self@) is None,
            },
    {
        match self.untag() {
            YamlValue::String(s) => Some(s),
            _ => None,
        }
    }

    /// The entries, if the value is a mapping.
    pub fn as_mapping(&self) -> (res: Option<&Vec<(YamlValue, YamlValue)>>)
        ensures
            match res {
                Some(m) => entries_of(self@) == Some(entry_views(m@)),
                None => entries_of(self@) is None,
            },
    {
        match self.untag() {
            YamlValue::Mapping(m) => Some(m),
            _ => None,
        }
    }

    /// Whether the value is neither a mapping nor a sequence.
    pub fn is_plain(&self) -> (res: bool)
        ensures
            res == plain(self@),
    {
        match self.untag() {
            YamlValue::Mapping(_) => false,
            YamlValue::Sequence(_) => false,
            _ => true,
        }
    }

    /// A value that holds the same.
    pub fn duplicate(&self) -> (res: YamlValue)
        ensures
            res@ == self@,
        decreases self,
    {
        match self {
            YamlValue::Null => YamlValue::Null,
            YamlValue::Bool(b) => YamlValue::Bool(*b),
            YamlValue::Number(n) => YamlValue::Number(n.clone()),
            YamlValue::String(s) => YamlValue::String(s.clone()),
            YamlValue::Sequence(items) => {
                let mut out: Vec<YamlValue> = Vec::new();
                let mut i: usize = 0;
                while i < items.len()
                    invariant
                        0 <= i <= items@.len(),
                        decreases_to!(*self => items@),
                        yaml_views(out@) == yaml_views(items@.take(i as int)),
                    decreases items@.len() - i,
                {
                    let ghost before = out@;
                    out.push(items[i].duplicate());
                    assert(out@.drop_last() =~= before);
                    assert(items@.take(i + 1).drop_last() =~= items@.take(i as int));
                    i = i + 1;
                }
                assert(items@.take(i as int) =~= items@);
                YamlValue::Sequence(out)
            },
            YamlValue::Mapping(entries) => {
                let mut out: Vec<(YamlValue, YamlValue)> = Vec::new();
                let mut i: usize = 0;
                while i < entries.len()
                    invariant
                        0 <= i <= entries@.len(),
                        decreases_to!(*self => entries@),
                        entry_views(out@) == entry_views(entries@.take(i as int)),
                    decreases entries@.len() - i,
                {
                    let ghost before = out@;
                    assert(decreases_to!(entries@ => entries@[i as int]));
                    out.push((entries[i].0.duplicate(), entries[i].1.duplicate()));
                    assert(out@.drop_last() =~= before);
                    assert(entries@.take(i + 1).drop_last() =~= entries@.take(i as int));
                    i = i + 1;
                }
                assert(entries@.take(i as int) =~= entries@);
                YamlValue::Mapping(out)
            },
            YamlValue::Tagged(tag, inner) => YamlValue::Tagged(
                tag.clone(),
                Box::new(inner.duplicate()),
            ),
        }
    }
}

impl Clone for YamlValue {
    fn clone(&self) -> (res: YamlValue)
        ensures
            res@ == self@,
    {
        self.duplicate()
    }
}

/// The value under the string `key` of a mapping.
pub fn get<'a>(entries: &'a Vec<(YamlValue, YamlValue)>, key: &str) -> (res: Option<
    &'a YamlValue,
>)
    ensures
        match res {
            Some(v) => lookup(entry_views(entries@), key@) == Some(v@),
            None => lookup(entry_views(entries@), key@) is None,
        },
        match res {
            Some(v) => exists|i: int| 0 <= i < entries@.len() && #[trigger] entries@[i].1 == *v,
            None => true,
        },
{
    let ghost all = entry_views(entries@);
    proof {
        lemma_entry_views(entries@);
    }
    let mut i: usize = 0;
    assert(all.skip(0) =~= all);
    while i < entries.len()
        invariant
            0 <= i <= entries@.len(),
            all == entry_views(entries@),
            all.len() == entries@.len(),
            forall|j: int|
                0 <= j < entries@.len() ==> #[trigger] all[j] == (entries@[j].0@, entries@[j].1@),
            key_position(all, key@) == i + key_position(all.skip(i as int), key@),
        decreases entries@.len() - i,
    {
        assert(all.skip(i as int)[0] == all[i as int]);
        let here: bool = match &entries[i].0 {
            YamlValue::String(s) => text::same_text(s.as_str(), key),
            _ => false,
        };
        if here {
            return Some(&entries[i].1);
        }
        assert(all.skip(i as int).skip(1) =~= all.skip(i + 1));
        i = i + 1;
    }
    assert(all.skip(i as int) =~= Seq::<(YamlView, YamlView)>::empty());
    None
}

/// The text under the string `key` of a mapping, if it is a string.
pub fn get_str<'a>(entries: &'a Vec<(YamlValue, YamlValue)>, key: &str) -> (res: Option<
    &'a String,
>)
    ensures
        match res {
            Some(s) => lookup_text(entry_views(entries@), key@) == Some(s@),
            None => lookup_text(entry_views(entries@), key@) is None,
        },
{
    match get(entries, key) {
        Some(v) => v.as_str(),
        None => None,
    }
}

// ---------------------------------------------------------------------------
// Values in words
// ---------------------------------------------------------------------------

/// The `Debug` form of a value of `yaml_serde`.
pub uninterp spec fn debug_form(value: Value) -> Seq<char>;

/// The `Debug` form of the value of `yaml_serde` that holds the same.
pub uninterp spec fn yaml_debug(v: YamlView) -> Seq<char>;

/// Builds the `yaml_serde::Value` that holds the same, by its variants and by collecting
/// entries into a `yaml_serde::Mapping`. The `Debug` form of what is built depends on
/// what is held alone, and is named; nothing else is said of it.
#[verifier::external_body]
fn outside_value(v: &YamlValue) -> (res: Value)
    ensures
        debug_form(res) == yaml_debug(v@),
{
    match v {
        YamlValue::Null => Value::Null,
        YamlValue::Bool(b) => Value::Bool(*b),
        YamlValue::Number(n) => Value::Number(n.clone()),
        YamlValue::String(s) => Value::String(s.clone()),
        YamlValue::Sequence(items) => Value::Sequence(items.iter().map(outside_value).collect()),
        YamlValue::Mapping(entries) => Value::Mapping(
            entries.iter().map(|e| (outside_value(&e.0), outside_value(&e.1))).collect(),
        ),
        YamlValue::Tagged(tag, inner) => Value::Tagged(
            Box::new(TaggedValue { tag: tag.clone(), value: outside_value(inner) }),
        ),
    }
}

/// Calls `Debug` of `yaml_serde::Value`, whose text is named.
#[verifier::external_body]
fn outside_debug(value: &Value) -> (res: String)
    ensures
        res@ == debug_form(*value),
{
    format!("{:?}", value)
}

/// The value in the form in which `yaml_serde` shows it for debugging.
pub fn debug_text(v: &YamlValue) -> (res: String)
    ensures
        res@ == yaml_debug(v@),
{
    outside_debug(&outside_value(v))
}

} // verus!
