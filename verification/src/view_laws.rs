//! What the values of the library stand for.

use crate::ast::Detection;
use crate::ast::DetectionItem;
use crate::ast::DetectionView;
use crate::ast::FieldSpec;
use crate::ast::ParserErrorView;
use crate::ast::SigmaParserError;
use crate::ast::SigmaValue;
use crate::ast::SigmaValueView;
use crate::ast;
use crate::condition::ConvertError;
use crate::condition::ConvertErrorView;
use crate::json::Json;
use crate::json::JsonView;
use crate::json;
use crate::migrate::Conclusion;
use crate::migrate::ConclusionView;
use crate::registry::SourceOrigin;
use crate::registry::SourceOriginView;
use crate::rule::Detections;
use crate::rule::SigmaRule;
use crate::yaml::YamlValue;
use crate::yaml::YamlView;
use crate::yaml;
use vstd::prelude::*;

verus! {

// ---------------------------------------------------------------------------
// Detections
// ---------------------------------------------------------------------------

proof fn lemma_detection_views(subs: Seq<Detection>)
    ensures
        ast::detection_views(subs).len() == subs.len(),
        forall|i: int|
            0 <= i < subs.len() ==> #[trigger] ast::detection_views(subs)[i] == subs[i]@,
    decreases subs.len(),
{
    if subs.len() > 0 {
        let front = subs.drop_last();
        lemma_detection_views(front);
        assert forall|i: int| 0 <= i < subs.len() implies #[trigger] ast::detection_views(subs)[i]
            == subs[i]@ by {
            if i < front.len() {
                assert(front[i] == subs[i]);
            }
        }
    }
}

/// A detection stands for one of its own kind, of its parts in order.
pub proof fn lemma_detection_stands_for(d: Detection)
    ensures
        d matches Detection::AllOf(items) ==> (d@ matches DetectionView::AllOf(views)
            && views.len() == items@.len() && forall|i: int|
            0 <= i < items@.len() ==> #[trigger] views[i] == items@[i]@),
        d matches Detection::AnyOf(subs) ==> (d@ matches DetectionView::AnyOf(views)
            && views.len() == subs@.len() && forall|i: int|
            0 <= i < subs@.len() ==> #[trigger] views[i] == subs@[i]@),
        d matches Detection::And(subs) ==> (d@ matches DetectionView::And(views)
            && views.len() == subs@.len() && forall|i: int|
            0 <= i < subs@.len() ==> #[trigger] views[i] == subs@[i]@),
        d matches Detection::ArrayMatch { field, quantifier, body } ==> d@
            == (DetectionView::ArrayMatch { field: field@, quantifier, body: Box::new(body@) }),
        d matches Detection::Keywords(values) ==> (d@ matches DetectionView::Keywords(views)
            && views.len() == values@.len() && forall|i: int|
            0 <= i < values@.len() ==> #[trigger] views[i] == values@[i]@),
{
    match d {
        Detection::AnyOf(subs) => lemma_detection_views(subs@),
        Detection::And(subs) => lemma_detection_views(subs@),
        _ => {},
    }
}

/// An item stands for its field and its values, in order; a field for its name and its
/// modifiers; a value for itself.
pub proof fn lemma_item_stands_for(item: DetectionItem, f: FieldSpec, v: YamlValue, s: String)
    ensures
        item@.field == item.field@,
        item@.values.len() == item.values@.len(),
        forall|i: int|
            0 <= i < item.values@.len() ==> #[trigger] item@.values[i] == item.values@[i]@,
        f@.name is Some <==> f.name is Some,
        f.name matches Some(name) ==> f@.name == Some(name@),
        f@.modifiers == f.modifiers@,
        SigmaValue::Yaml(v)@ == SigmaValueView::Yaml(v@),
        SigmaValue::Raw(s)@ == SigmaValueView::Raw(s@),
{
}

/// An error stands for one of its own kind, with its text.
pub proof fn lemma_error_stands_for(s: String)
    ensures
        SigmaParserError::InvalidRule(s)@ == ParserErrorView::InvalidRule(s@),
        SigmaParserError::MissingField(s)@ == ParserErrorView::MissingField(s@),
        SigmaParserError::InvalidDetection(s)@ == ParserErrorView::InvalidDetection(s@),
        SigmaParserError::InvalidFieldSpec(s)@ == ParserErrorView::InvalidFieldSpec(s@),
        SigmaParserError::UnknownModifier(s)@ == ParserErrorView::UnknownModifier(s@),
        SigmaParserError::NotIsNotAModifier@ == ParserErrorView::NotIsNotAModifier,
        SigmaParserError::Condition(s)@ == ParserErrorView::Condition(s@),
        ConvertError::RuleConversion(s)@ == ConvertErrorView::RuleConversion(s@),
        ConvertError::UnsupportedArrayMatching(s)@ == ConvertErrorView::UnsupportedArrayMatching(
            s@,
        ),
{
}

/// A rule stands for its detections by name and its custom attributes, in order.
pub proof fn lemma_named_parts_stand_for<L, R, S, G>(r: SigmaRule<L, R, S, G>, d: Detections)
    ensures
        r@.detection == r.detection@,
        d@.named.len() == d.named@.len(),
        forall|i: int|
            0 <= i < d.named@.len() ==> #[trigger] d@.named[i] == (d.named@[i].0@, d.named@[i].1@),
        r@.custom_attributes.len() == r.custom_attributes@.len(),
        forall|i: int|
            0 <= i < r.custom_attributes@.len() ==> #[trigger] r@.custom_attributes[i] == (
                r.custom_attributes@[i].0@,
                r.custom_attributes@[i].1@,
            ),
{
}

// ---------------------------------------------------------------------------
// Documents
// ---------------------------------------------------------------------------

/// A YAML value stands for one of its own kind, of its parts in order.
pub proof fn lemma_yaml_stands_for(v: YamlValue)
    ensures
        v is Null ==> v@ is Null,
        v matches YamlValue::Bool(b) ==> v@ == YamlView::Bool(b),
        v matches YamlValue::Number(n) ==> v@ == YamlView::Number(n),
        v matches YamlValue::String(s) ==> v@ == YamlView::String(s@),
        v matches YamlValue::Sequence(items) ==> (v@ matches YamlView::Sequence(views)
            && views.len() == items@.len() && forall|i: int|
            0 <= i < items@.len() ==> #[trigger] views[i] == items@[i]@),
        v matches YamlValue::Mapping(entries) ==> (v@ matches YamlView::Mapping(views)
            && views.len() == entries@.len() && forall|i: int|
            0 <= i < entries@.len() ==> #[trigger] views[i] == (entries@[i].0@, entries@[i].1@)),
        v matches YamlValue::Tagged(tag, inner) ==> v@ == YamlView::Tagged(tag, Box::new(inner@)),
{
    match v {
        YamlValue::Sequence(items) => yaml::lemma_yaml_views(items@),
        YamlValue::Mapping(entries) => yaml::lemma_entry_views(entries@),
        _ => {},
    }
}

proof fn lemma_json_views(items: Seq<Json>)
    ensures
        json::json_views(items).len() == items.len(),
        forall|i: int| 0 <= i < items.len() ==> #[trigger] json::json_views(items)[i] == items[i]@,
    decreases items.len(),
{
    if items.len() > 0 {
        let front = items.drop_last();
        lemma_json_views(front);
        assert forall|i: int| 0 <= i < items.len() implies #[trigger] json::json_views(items)[i]
            == items[i]@ by {
            if i < front.len() {
                assert(front[i] == items[i]);
            }
        }
    }
}

proof fn lemma_member_views(members: Seq<(String, Json)>)
    ensures
        json::member_views(members).len() == members.len(),
        forall|i: int|
            0 <= i < members.len() ==> #[trigger] json::member_views(members)[i] == (
                members[i].0@,
                members[i].1@,
            ),
    decreases members.len(),
{
    if members.len() > 0 {
        let front = members.drop_last();
        lemma_member_views(front);
        assert forall|i: int| 0 <= i < members.len() implies #[trigger] json::member_views(
            members,
        )[i] == (members[i].0@, members[i].1@) by {
            if i < front.len() {
                assert(front[i] == members[i]);
            }
        }
    }
}

/// A JSON value stands for one of its own kind, of its parts in order; a count is a number.
pub proof fn lemma_json_stands_for(v: Json)
    ensures
        v is Null ==> v@ is Null,
        v matches Json::Bool(b) ==> v@ == JsonView::Bool(b),
        v matches Json::Int(i) ==> v@ == JsonView::Int(i as int),
        v matches Json::Count(n) ==> v@ == JsonView::Int(n as int),
        v matches Json::Float(f) ==> v@ == JsonView::Float(f),
        v matches Json::Text(s) ==> v@ == JsonView::Text(s@),
        v matches Json::List(items) ==> (v@ matches JsonView::List(views) && views.len()
            == items@.len() && forall|i: int|
            0 <= i < items@.len() ==> #[trigger] views[i] == items@[i]@),
        v matches Json::Object(members) ==> (v@ matches JsonView::Object(views) && views.len()
            == members@.len() && forall|i: int|
            0 <= i < members@.len() ==> #[trigger] views[i] == (members@[i].0@, members@[i].1@)),
{
    match v {
        Json::List(items) => lemma_json_views(items@),
        Json::Object(members) => lemma_member_views(members@),
        _ => {},
    }
}

// ---------------------------------------------------------------------------
// Answers
// ---------------------------------------------------------------------------

/// A conclusion stands for one of its own kind, with its report and its files in order.
pub proof fn lemma_conclusion_stands_for(c: Conclusion)
    ensures
        c is NothingFound <==> c@ is NothingFound,
        c matches Conclusion::Preview { report, yaml } ==> c@ == (ConclusionView::Preview {
            report: report@,
            yaml: yaml@,
        }),
        c matches Conclusion::Write { report, files } ==> (c@ matches ConclusionView::Write {
            report: told,
            files: views,
        } && told == report@ && views.len() == files@.len() && forall|i: int|
            0 <= i < files@.len() ==> (#[trigger] views[i]).content == files@[i].content@
                && views[i].count == files@[i].count && (views[i].name is Some
                <==> files@[i].name is Some) && (files@[i].name matches Some(name)
                ==> views[i].name == Some(name@)) && (views[i].origin is Some
                <==> files@[i].origin is Some) && (files@[i].origin matches Some(path)
                ==> views[i].origin == Some(path@))),
{
}

/// An origin stands for one of its own kind.
pub proof fn lemma_origin_stands_for(place: String)
    ensures
        SourceOrigin::External(place)@ == SourceOriginView::External(place@),
        SourceOrigin::Pipeline(place)@ == SourceOriginView::Pipeline(place@),
{
}

} // verus!
