//! What a rule says, key by key.

use crate::ast::ConditionExpr;
use crate::ast::DetectionView;
use crate::ast::ParserErrorView;
use crate::ast::SigmaParserError;
use crate::detection;
use crate::outcome;
use crate::rule::DetectionsView;
use crate::rule::ParsedParts;
use crate::rule::PartParsers;
use crate::rule::SigmaRule;
use crate::rule::SigmaRuleView;
use crate::rule;
use crate::table;
use crate::text;
use crate::yaml::YamlValue;
use crate::yaml::YamlView;
use crate::yaml;
use vstd::prelude::*;
use yaml_serde::value::Tag;

verus! {

// ---------------------------------------------------------------------------
// Values
// ---------------------------------------------------------------------------

/// The entry at place `i` is the first whose key is that string.
pub open spec fn first_under(m: Seq<(YamlView, YamlView)>, key: Seq<char>, i: int) -> bool {
    &&& 0 <= i < m.len()
    &&& m[i].0 == YamlView::String(key)
    &&& forall|j: int| 0 <= j < i ==> (#[trigger] m[j]).0 != YamlView::String(key)
}

/// `got` is the value of the first entry whose key is that string, or there is none.
pub open spec fn value_at(
    m: Seq<(YamlView, YamlView)>,
    key: Seq<char>,
    got: Option<YamlView>,
) -> bool {
    match got {
        Some(v) => exists|i: int| #[trigger] first_under(m, key, i) && m[i].1 == v,
        None => forall|i: int| 0 <= i < m.len() ==> (#[trigger] m[i]).0 != YamlView::String(key),
    }
}

proof fn lemma_key_position(m: Seq<(YamlView, YamlView)>, key: Seq<char>)
    ensures
        0 <= yaml::key_position(m, key) <= m.len(),
        forall|i: int|
            0 <= i < yaml::key_position(m, key) ==> (#[trigger] m[i]).0 != YamlView::String(key),
        yaml::key_position(m, key) < m.len() ==> m[yaml::key_position(m, key)].0
            == YamlView::String(key),
    decreases m.len(),
{
    if m.len() > 0 && m[0].0 != YamlView::String(key) {
        lemma_key_position(m.skip(1), key);
        let k = yaml::key_position(m.skip(1), key);
        assert forall|i: int| 0 <= i < k + 1 implies (#[trigger] m[i]).0 != YamlView::String(
            key,
        ) by {
            if i > 0 {
                assert(m.skip(1)[i - 1] == m[i]);
            }
        }
    }
}

/// The value under a string is that of the first entry with this key; there is none if and
/// only if no entry has it.
pub proof fn lemma_lookup_is_first(
    m: Seq<(YamlView, YamlView)>,
    key: Seq<char>,
    got: Option<YamlView>,
)
    ensures
        yaml::lookup(m, key) == got <==> value_at(m, key, got),
{
    lemma_key_position(m, key);
    let k = yaml::key_position(m, key);
    if k < m.len() {
        assert(first_under(m, key, k));
    }
    if let Some(v) = got {
        if value_at(m, key, got) {
            let i = choose|i: int| #[trigger] first_under(m, key, i) && m[i].1 == v;
            assert(i == k) by {
                if k < i {
                    assert(m[k].0 != YamlView::String(key));
                }
                if i < k {
                    assert(m[i].0 != YamlView::String(key));
                }
            }
        }
    }
}

/// Tags count for nothing where a string or a mapping is read, and nothing else is taken
/// for one.
pub proof fn lemma_tags_are_ignored(tag: Tag, v: YamlView)
    ensures
        yaml::untagged(YamlView::Tagged(tag, Box::new(v))) == yaml::untagged(v),
        yaml::text_of(YamlView::Tagged(tag, Box::new(v))) == yaml::text_of(v),
        yaml::entries_of(YamlView::Tagged(tag, Box::new(v))) == yaml::entries_of(v),
        yaml::plain(YamlView::Tagged(tag, Box::new(v))) == yaml::plain(v),
        !(v is Tagged) ==> yaml::untagged(v) == v,
        !(v is Tagged) ==> (yaml::text_of(v) is Some <==> v is String),
        !(v is Tagged) ==> (yaml::entries_of(v) is Some <==> v is Mapping),
        !(v is Tagged) ==> (yaml::plain(v) <==> v is Null || v is Bool || v is Number || v is String),
        v matches YamlView::String(s) ==> yaml::text_of(v) == Some(s),
        v matches YamlView::Mapping(m) ==> yaml::entries_of(v) == Some(m),
{
    reveal_with_fuel(yaml::untagged, 2);
}

/// `got` is the text of the first entry whose key is that string, tags aside, or there is
/// no such text.
pub open spec fn text_at(
    m: Seq<(YamlView, YamlView)>,
    key: Seq<char>,
    got: Option<Seq<char>>,
) -> bool {
    match got {
        Some(s) => exists|i: int| #[trigger]
            first_under(m, key, i) && yaml::untagged(m[i].1) == YamlView::String(s),
        None => forall|i: int| #[trigger]
            first_under(m, key, i) ==> !(yaml::untagged(m[i].1) is String),
    }
}

proof fn lemma_text_at(m: Seq<(YamlView, YamlView)>, key: Seq<char>)
    ensures
        text_at(m, key, yaml::lookup_text(m, key)),
{
    lemma_lookup_is_first(m, key, yaml::lookup(m, key));
    if let Some(v) = yaml::lookup(m, key) {
        let k = choose|k: int| #[trigger] first_under(m, key, k) && m[k].1 == v;
        assert forall|i: int| #[trigger] first_under(m, key, i) implies i == k by {
            if i < k {
                assert(m[i].0 != YamlView::String(key));
            }
            if k < i {
                assert(m[k].0 != YamlView::String(key));
            }
        }
    }
}

proof fn lemma_text_at_unique(m: Seq<(YamlView, YamlView)>, key: Seq<char>, got: Option<Seq<char>>)
    requires
        text_at(m, key, got),
    ensures
        yaml::lookup_text(m, key) == got,
{
    lemma_text_at(m, key);
    let own = yaml::lookup_text(m, key);
    if let Some(s) = got {
        let i = choose|i: int| #[trigger]
            first_under(m, key, i) && yaml::untagged(m[i].1) == YamlView::String(s);
        lemma_lookup_is_first(m, key, Some(m[i].1));
        assert(value_at(m, key, Some(m[i].1)));
    } else if let Some(t) = own {
        let i = choose|i: int| #[trigger]
            first_under(m, key, i) && yaml::untagged(m[i].1) == YamlView::String(t);
    }
}

// ---------------------------------------------------------------------------
// Lists of strings
// ---------------------------------------------------------------------------

/// `got` is the strings among the values, tags aside, in order: `places` is where they
/// stand, and nothing else there is a string.
pub open spec fn strings_at(items: Seq<YamlView>, got: Seq<Seq<char>>, places: Seq<int>) -> bool {
    &&& places.len() == got.len()
    &&& forall|i: int, j: int|
        0 <= i < j < places.len() ==> #[trigger] places[i] < #[trigger] places[j]
    &&& forall|i: int|
        0 <= i < places.len() ==> 0 <= #[trigger] places[i] < items.len() && yaml::untagged(
            items[places[i]],
        ) == YamlView::String(got[i])
    &&& forall|k: int|
        0 <= k < items.len() && yaml::untagged(#[trigger] items[k]) is String ==> places.contains(k)
}

proof fn lemma_strings_among(items: Seq<YamlView>) -> (places: Seq<int>)
    ensures
        strings_at(items, rule::strings_among(items), places),
    decreases items.len(),
{
    if items.len() == 0 {
        Seq::empty()
    } else {
        let front = items.drop_last();
        let n = front.len() as int;
        let before = lemma_strings_among(front);
        assert forall|k: int| 0 <= k < n implies #[trigger] items[k] == front[k] by {}
        let got = rule::strings_among(items);
        if yaml::text_of(items.last()) is Some {
            let places = before.push(n);
            assert forall|k: int|
                0 <= k < items.len() && yaml::untagged(
                    #[trigger] items[k],
                ) is String implies places.contains(k) by {
                if k < n {
                    assert(front[k] == items[k]);
                    assert(places[before.index_of(k)] == k);
                } else {
                    assert(places[before.len() as int] == n);
                }
            }
            places
        } else {
            assert forall|k: int|
                0 <= k < items.len() && yaml::untagged(
                    #[trigger] items[k],
                ) is String implies before.contains(k) by {
                if k < n {
                    assert(front[k] == items[k]);
                }
            }
            before
        }
    }
}

/// `got` is the list of strings under a key: the one string, or the strings of the
/// sequence, in order, that the first entry with this key holds; else it is empty.
pub open spec fn list_at(m: Seq<(YamlView, YamlView)>, key: Seq<char>, got: Seq<Seq<char>>) -> bool {
    ||| exists|i: int| #[trigger] first_under(m, key, i) && held_list(m[i].1, got)
    ||| got.len() == 0 && value_at(m, key, None)
}

/// The list of strings that a value holds.
pub open spec fn held_list(v: YamlView, got: Seq<Seq<char>>) -> bool {
    match v {
        YamlView::String(s) => got == seq![s],
        YamlView::Sequence(items) => exists|places: Seq<int>| #[trigger]
            strings_at(items, got, places),
        _ => got.len() == 0,
    }
}

proof fn lemma_list_at(m: Seq<(YamlView, YamlView)>, key: Seq<char>)
    ensures
        list_at(m, key, rule::text_list(m, key)),
{
    lemma_lookup_is_first(m, key, yaml::lookup(m, key));
    if let Some(v) = yaml::lookup(m, key) {
        let i = choose|i: int| #[trigger] first_under(m, key, i) && m[i].1 == v;
        if let YamlView::Sequence(items) = v {
            let places = lemma_strings_among(items);
        }
        assert(held_list(m[i].1, rule::text_list(m, key)));
    }
}

// ---------------------------------------------------------------------------
// Rules
// ---------------------------------------------------------------------------

/// A rule says what stands under its keys, each under its own: the strings, tags aside, and
/// the lists of strings. The other parts are those that were parsed.
pub proof fn lemma_rule_by_key<L, R, S, G>(
    v: YamlView,
    parts: ParsedParts<L, R, S, G>,
    r: SigmaRuleView<L, R, S, G>,
)
    requires
        rule::rule_of(v, parts) == Ok::<SigmaRuleView<L, R, S, G>, ParserErrorView>(r),
    ensures
        yaml::untagged(v) matches YamlView::Mapping(m) && {
            &&& text_at(m, "title"@, Some(r.title))
            &&& text_at(m, "id"@, r.id)
            &&& text_at(m, "name"@, r.name)
            &&& text_at(m, "taxonomy"@, r.taxonomy)
            &&& text_at(m, "description"@, r.description)
            &&& text_at(m, "license"@, r.license)
            &&& text_at(m, "author"@, r.author)
            &&& text_at(m, "date"@, r.date)
            &&& text_at(m, "modified"@, r.modified)
            &&& list_at(m, "references"@, r.references)
            &&& list_at(m, "fields"@, r.fields)
            &&& list_at(m, "falsepositives"@, r.falsepositives)
            &&& list_at(m, "tags"@, r.tags)
            &&& list_at(m, "scope"@, r.scope)
        },
        parts.logsource == Ok::<L, SigmaParserError>(r.logsource),
        r.related == parts.related,
        r.status == parts.status,
        r.level == parts.level,
{
    let m = yaml::entries_of(v)->0;
    lemma_text_at(m, "title"@);
    lemma_text_at(m, "id"@);
    lemma_text_at(m, "name"@);
    lemma_text_at(m, "taxonomy"@);
    lemma_text_at(m, "description"@);
    lemma_text_at(m, "license"@);
    lemma_text_at(m, "author"@);
    lemma_text_at(m, "date"@);
    lemma_text_at(m, "modified"@);
    lemma_list_at(m, "references"@);
    lemma_list_at(m, "fields"@);
    lemma_list_at(m, "falsepositives"@);
    lemma_list_at(m, "tags"@);
    lemma_list_at(m, "scope"@);
}

/// A rule is read if and only if it is a mapping with a title, a detection section that is
/// read, and a log source that was parsed; else the first of these that is missing is told.
pub proof fn lemma_when_rule_is_read<L, R, S, G>(v: YamlView, parts: ParsedParts<L, R, S, G>)
    ensures
        match yaml::untagged(v) {
            YamlView::Mapping(m) => match (yaml::lookup_text(m, "title"@), yaml::lookup(
                m,
                "detection"@,
            )) {
                (None, _) => rule::rule_of(v, parts) == Err::<
                    SigmaRuleView<L, R, S, G>,
                    ParserErrorView,
                >(ParserErrorView::MissingField("title"@)),
                (Some(_), None) => rule::rule_of(v, parts) == Err::<
                    SigmaRuleView<L, R, S, G>,
                    ParserErrorView,
                >(ParserErrorView::MissingField("detection"@)),
                (Some(_), Some(d)) => match rule::detections_of(
                    d,
                    rule::condition_results(parts.conditions@),
                ) {
                    Err(e) => rule::rule_of(v, parts) == Err::<
                        SigmaRuleView<L, R, S, G>,
                        ParserErrorView,
                    >(e),
                    Ok(section) => {
                        &&& rule::rule_of(v, parts) is Ok <==> parts.logsource is Ok
                        &&& parts.logsource matches Err(e) ==> rule::rule_of(v, parts) == Err::<
                            SigmaRuleView<L, R, S, G>,
                            ParserErrorView,
                        >(e@)
                        &&& rule::rule_of(v, parts) matches Ok(r) ==> r.detection == section
                    },
                },
            },
            _ => rule::rule_of(v, parts) == Err::<SigmaRuleView<L, R, S, G>, ParserErrorView>(
                ParserErrorView::InvalidRule("Expected a YAML mapping"@),
            ),
        },
{
}

/// The parts of a rule that have parsers of their own are parsed from what stands under
/// their keys: the log source, the default one if there is none, the related rules, the
/// status and the level.
pub proof fn lemma_parts_by_key<C, P, Q, T, U, L, R, S, G>(
    parsers: PartParsers<C, P, Q, T, U, L>,
    m: Seq<(YamlView, YamlView)>,
    parts: ParsedParts<L, R, S, G>,
    source: Option<YamlView>,
    related: Option<YamlView>,
    status: Option<Seq<char>>,
    level: Option<Seq<char>>,
) where
    P: Fn(&YamlValue) -> Result<L, SigmaParserError>,
    Q: Fn(Option<&YamlValue>) -> R,
    T: Fn(&str) -> Option<S>,
    U: Fn(&str) -> Option<G>,

    requires
        rule::gave_rest(parsers, m, parts),
        value_at(m, "logsource"@, source),
        value_at(m, "related"@, related),
        text_at(m, "status"@, status),
        text_at(m, "level"@, level),
    ensures
        source is None ==> parts.logsource == Ok::<L, SigmaParserError>(parsers.default_logsource),
        source matches Some(s) ==> exists|x: &YamlValue| #[trigger]
            x@ == s && call_ensures(parsers.logsource, (x,), parts.logsource),
        parts.logsource is Ok ==> rule::gave_related(parsers.related, related, parts.related),
        parts.logsource is Ok && status is None ==> parts.status is None,
        parts.logsource is Ok && level is None ==> parts.level is None,
        parts.logsource is Ok ==> (status matches Some(s) ==> exists|x: &str| #[trigger]
            x@ == s && call_ensures(parsers.status, (x,), parts.status)),
        parts.logsource is Ok ==> (level matches Some(s) ==> exists|x: &str| #[trigger]
            x@ == s && call_ensures(parsers.level, (x,), parts.level)),
{
    lemma_lookup_is_first(m, "logsource"@, source);
    lemma_lookup_is_first(m, "related"@, related);
    lemma_text_at_unique(m, "status"@, status);
    lemma_text_at_unique(m, "level"@, level);
}

/// A rule in memory is what its fields are.
pub proof fn lemma_rule_is_its_fields<L, R, S, G>(r: SigmaRule<L, R, S, G>)
    ensures
        r@.title == r.title@,
        r@.detection.condition_strings == text::texts(r.detection.condition_strings@),
        r@.detection.conditions == r.detection.conditions@,
        r@.detection.timeframe == text::opt_text(r.detection.timeframe),
        r@.id == text::opt_text(r.id),
        r@.name == text::opt_text(r.name),
        r@.taxonomy == text::opt_text(r.taxonomy),
        r@.description == text::opt_text(r.description),
        r@.license == text::opt_text(r.license),
        r@.author == text::opt_text(r.author),
        r@.date == text::opt_text(r.date),
        r@.modified == text::opt_text(r.modified),
        r@.references == text::texts(r.references@),
        r@.fields == text::texts(r.fields@),
        r@.falsepositives == text::texts(r.falsepositives@),
        r@.tags == text::texts(r.tags@),
        r@.scope == text::texts(r.scope@),
        r@.logsource == r.logsource,
        r@.related == r.related,
        r@.status == r.status,
        r@.level == r.level,
{
}

// ---------------------------------------------------------------------------
// Detection sections
// ---------------------------------------------------------------------------

/// The entry at place `i` names a detection: its key is neither `condition` nor
/// `timeframe`.
pub open spec fn names_detection(m: Seq<(YamlView, YamlView)>, i: int) -> bool {
    &&& 0 <= i < m.len()
    &&& detection::key_name(m[i].0) != "condition"@
    &&& detection::key_name(m[i].0) != "timeframe"@
}

/// The entry at place `i` is the last of its name.
pub open spec fn last_of_name(m: Seq<(YamlView, YamlView)>, i: int) -> bool {
    forall|j: int| i < j < m.len() ==> detection::key_name((#[trigger] m[j]).0)
        != detection::key_name(m[i].0)
}

/// Some entry names a detection so.
pub open spec fn is_named(m: Seq<(YamlView, YamlView)>, name: Seq<char>) -> bool {
    exists|i: int| #[trigger] names_detection(m, i) && detection::key_name(m[i].0) == name
}

/// Under each name of a section but `condition` and `timeframe` stands the detection that
/// the last entry of that name gives, and there are no others. A section is read if and
/// only if each of these is, and else fails as some of them does.
pub proof fn lemma_named_detections(m: Seq<(YamlView, YamlView)>)
    ensures
        match rule::named_of(m) {
            Ok(named) => named_right(m, named),
            Err(e) => some_detection_fails(m, e),
        },
    decreases m.len(),
{
    if m.len() > 0 {
        let front = m.drop_last();
        let n = front.len() as int;
        let name = detection::key_name(m[n].0);
        lemma_named_detections(front);
        rule::lemma_named_distinct(front);
        assert forall|i: int| 0 <= i < n implies #[trigger] m[i] == front[i] by {}
        match rule::named_of(front) {
            Err(e) => {
                let i = choose|i: int| #[trigger] names_detection(front, i)
                    && detection::detection_of(front[i].1) == Err::<DetectionView, ParserErrorView>(e);
                assert(names_detection(m, i));
            },
            Ok(before) => {
                if !rule::reserved(name) {
                    assert(names_detection(m, n));
                    match detection::detection_of(m[n].1) {
                        Err(e) => {
                            assert(some_detection_fails(m, e));
                        },
                        Ok(d) => {
                            table::lemma_put(before, name, d);
                            lemma_named_step(m, before, d);
                        },
                    }
                } else {
                    lemma_reserved_step(m, before);
                }
            },
        }
    } else {
        let none = Seq::<(Seq<char>, DetectionView)>::empty();
        assert(named_right(m, none));
    }
}

/// The named detections are those of the entries.
pub open spec fn named_right(
    m: Seq<(YamlView, YamlView)>,
    named: Seq<(Seq<char>, DetectionView)>,
) -> bool {
    &&& table::distinct(named)
    &&& forall|i: int| #[trigger]
        names_detection(m, i) ==> detection::detection_of(m[i].1) is Ok && (last_of_name(m, i)
            ==> table::value_of(named, detection::key_name(m[i].0)) == Some(
            detection::detection_of(m[i].1)->Ok_0,
        ))
    &&& forall|name: Seq<char>|
        !is_named(m, name) ==> (#[trigger] table::value_of(named, name)) is None
}

/// Some entry names a detection that fails so.
pub open spec fn some_detection_fails(m: Seq<(YamlView, YamlView)>, e: ParserErrorView) -> bool {
    exists|i: int| #[trigger]
        names_detection(m, i) && detection::detection_of(m[i].1) == Err::<
            DetectionView,
            ParserErrorView,
        >(e)
}

proof fn lemma_named_step(
    m: Seq<(YamlView, YamlView)>,
    before: Seq<(Seq<char>, DetectionView)>,
    d: DetectionView,
)
    requires
        m.len() > 0,
        names_detection(m, m.len() - 1),
        named_right(m.drop_last(), before),
        detection::detection_of(m.last().1) == Ok::<DetectionView, ParserErrorView>(d),
    ensures
        named_right(m, table::put(before, detection::key_name(m.last().0), d)),
{
    let front = m.drop_last();
    let n = front.len() as int;
    let name = detection::key_name(m[n].0);
    let named = table::put(before, name, d);
    table::lemma_put(before, name, d);
    assert forall|i: int| 0 <= i < n implies #[trigger] m[i] == front[i] by {}
    assert forall|i: int| #[trigger] names_detection(m, i) implies detection::detection_of(
        m[i].1,
    ) is Ok && (last_of_name(m, i) ==> table::value_of(named, detection::key_name(m[i].0)) == Some(
        detection::detection_of(m[i].1)->Ok_0,
    )) by {
        if i < n {
            assert(names_detection(front, i));
            if last_of_name(m, i) {
                assert(detection::key_name(m[n].0) != detection::key_name(m[i].0));
                assert forall|j: int| i < j < front.len() implies detection::key_name(
                    (#[trigger] front[j]).0,
                ) != detection::key_name(front[i].0) by {
                    assert(m[j] == front[j]);
                }
                assert(last_of_name(front, i));
                assert(table::value_of(before, detection::key_name(m[i].0)) == Some(
                    detection::detection_of(m[i].1)->Ok_0,
                ));
            }
        }
    }
    assert forall|other: Seq<char>| !is_named(m, other) implies (#[trigger] table::value_of(
        named,
        other,
    )) is None by {
        assert(names_detection(m, n));
        assert(other != name);
        if is_named(front, other) {
            let i = choose|i: int| #[trigger]
                names_detection(front, i) && detection::key_name(front[i].0) == other;
            assert(names_detection(m, i));
        }
        assert(table::value_of(before, other) is None);
    }
}

proof fn lemma_reserved_step(
    m: Seq<(YamlView, YamlView)>,
    before: Seq<(Seq<char>, DetectionView)>,
)
    requires
        m.len() > 0,
        !names_detection(m, m.len() - 1),
        named_right(m.drop_last(), before),
    ensures
        named_right(m, before),
{
    let front = m.drop_last();
    let n = front.len() as int;
    assert forall|i: int| 0 <= i < n implies #[trigger] m[i] == front[i] by {}
    assert forall|i: int| #[trigger] names_detection(m, i) implies detection::detection_of(
        m[i].1,
    ) is Ok && (last_of_name(m, i) ==> table::value_of(before, detection::key_name(m[i].0)) == Some(
        detection::detection_of(m[i].1)->Ok_0,
    )) by {
        assert(names_detection(front, i));
        if last_of_name(m, i) {
            assert forall|j: int| i < j < front.len() implies detection::key_name(
                (#[trigger] front[j]).0,
            ) != detection::key_name(front[i].0) by {
                assert(m[j] == front[j]);
            }
            assert(last_of_name(front, i));
        }
    }
    assert forall|other: Seq<char>| !is_named(m, other) implies (#[trigger] table::value_of(
        before,
        other,
    )) is None by {
        if is_named(front, other) {
            let i = choose|i: int| #[trigger]
                names_detection(front, i) && detection::key_name(front[i].0) == other;
            assert(names_detection(m, i));
        }
    }
}

/// The condition strings of a section: the one string that stands under `condition`, or
/// those of the list there, in order, each of which is a string, tags aside; else the
/// failure is told.
pub proof fn lemma_condition_strings(v: YamlView)
    ensures
        match yaml::untagged(v) {
            YamlView::Mapping(m) => match yaml::lookup(m, "condition"@) {
                None => rule::condition_texts(v) == Err::<Seq<Seq<char>>, ParserErrorView>(
                    ParserErrorView::MissingField("condition"@),
                ),
                Some(YamlView::String(s)) => rule::condition_texts(v) == Ok::<
                    Seq<Seq<char>>,
                    ParserErrorView,
                >(seq![s]),
                Some(YamlView::Sequence(items)) => match rule::condition_texts(v) {
                    Ok(list) => all_texts(items, list),
                    Err(e) => first_no_text(items, e),
                },
                Some(_) => rule::condition_texts(v) == Err::<Seq<Seq<char>>, ParserErrorView>(
                    ParserErrorView::InvalidDetection(
                        "condition must be a string or list of strings"@,
                    ),
                ),
            },
            _ => rule::condition_texts(v) == Err::<Seq<Seq<char>>, ParserErrorView>(
                ParserErrorView::InvalidDetection("Detection section must be a mapping"@),
            ),
        },
{
    if let YamlView::Mapping(m) = yaml::untagged(v) {
        if let Some(YamlView::Sequence(items)) = yaml::lookup(m, "condition"@) {
            let results = rule::condition_text_results(items);
            outcome::lemma_collected(results);
            match outcome::collect(results) {
                Ok(list) => {
                    assert forall|i: int| 0 <= i < items.len() implies yaml::untagged(
                        #[trigger] items[i],
                    ) == YamlView::String(list[i]) by {
                        assert(results[i] == Ok::<Seq<char>, ParserErrorView>(list[i]));
                    }
                },
                Err(e) => {
                    let i = choose|i: int| #[trigger] outcome::fails_first(results, i, e);
                    assert(results[i] == rule::condition_text(items[i]));
                    assert forall|j: int| 0 <= j < i implies yaml::untagged(
                        #[trigger] items[j],
                    ) is String by {
                        assert(results[j] is Ok);
                    }
                    assert(is_first_no_text(items, i, e));
                },
            }
        }
    }
}

/// Each of the values is a string, tags aside, and these are the strings.
pub open spec fn all_texts(items: Seq<YamlView>, list: Seq<Seq<char>>) -> bool {
    list.len() == items.len() && forall|i: int|
        0 <= i < items.len() ==> yaml::untagged(#[trigger] items[i]) == YamlView::String(list[i])
}

/// The failure names the first of the values that is no string.
pub open spec fn first_no_text(items: Seq<YamlView>, e: ParserErrorView) -> bool {
    exists|i: int| #[trigger] is_first_no_text(items, i, e)
}

/// The value at place `i` is the first that is no string, and is named so.
pub open spec fn is_first_no_text(items: Seq<YamlView>, i: int, e: ParserErrorView) -> bool {
    &&& 0 <= i < items.len()
    &&& !(yaml::untagged(items[i]) is String)
    &&& forall|j: int| 0 <= j < i ==> yaml::untagged(#[trigger] items[j]) is String
    &&& e == ParserErrorView::InvalidDetection(
        "condition list items must be strings, got: "@ + yaml::yaml_debug(items[i]),
    )
}

/// What a section that is read holds: its condition strings, the conditions that were
/// parsed, the text under `timeframe`, and its detections. It is read if and only if each
/// of these is.
pub proof fn lemma_section(
    v: YamlView,
    conditions: Seq<Result<ConditionExpr, ParserErrorView>>,
)
    ensures
        match rule::detections_of(v, conditions) {
            Ok(d) => yaml::untagged(v) matches YamlView::Mapping(m) && {
                &&& rule::condition_texts(v) == Ok::<Seq<Seq<char>>, ParserErrorView>(
                    d.condition_strings,
                )
                &&& outcome::are_values(conditions, d.conditions)
                &&& text_at(m, "timeframe"@, d.timeframe)
                &&& named_right(m, d.named)
            },
            Err(e) => {
                ||| rule::condition_texts(v) == Err::<Seq<Seq<char>>, ParserErrorView>(e)
                ||| rule::condition_texts(v) is Ok && outcome::fails(conditions, e)
                ||| rule::condition_texts(v) is Ok && (yaml::untagged(
                    v,
                ) matches YamlView::Mapping(m) && some_detection_fails(m, e))
            },
        },
{
    outcome::lemma_collected(conditions);
    if let YamlView::Mapping(m) = yaml::untagged(v) {
        lemma_named_detections(m);
        lemma_text_at(m, "timeframe"@);
    }
}

// ---------------------------------------------------------------------------
// Custom attributes
// ---------------------------------------------------------------------------

/// A key of a rule that is no custom attribute.
pub open spec fn own_key(name: Seq<char>) -> bool {
    ||| name == "title"@
    ||| name == "id"@
    ||| name == "related"@
    ||| name == "name"@
    ||| name == "taxonomy"@
    ||| name == "status"@
    ||| name == "description"@
    ||| name == "license"@
    ||| name == "author"@
    ||| name == "references"@
    ||| name == "date"@
    ||| name == "modified"@
    ||| name == "logsource"@
    ||| name == "detection"@
    ||| name == "fields"@
    ||| name == "falsepositives"@
    ||| name == "level"@
    ||| name == "tags"@
    ||| name == "scope"@
    ||| name == "custom_attributes"@
}

/// The entry at place `i` is the last under that name, tags aside.
pub open spec fn last_under(m: Seq<(YamlView, YamlView)>, name: Seq<char>, i: int) -> bool {
    &&& 0 <= i < m.len()
    &&& yaml::text_of(m[i].0) == Some(name)
    &&& forall|j: int| i < j < m.len() ==> yaml::text_of((#[trigger] m[j]).0) != Some(name)
}

/// Nothing stands under that name.
pub open spec fn nothing_under(m: Seq<(YamlView, YamlView)>, name: Seq<char>) -> bool {
    forall|i: int| 0 <= i < m.len() ==> yaml::text_of((#[trigger] m[i]).0) != Some(name)
}

proof fn lemma_attribute(
    attributes: Seq<(Seq<char>, YamlView)>,
    m: Seq<(YamlView, YamlView)>,
    top: bool,
    name: Seq<char>,
)
    requires
        table::distinct(attributes),
    ensures
        table::distinct(rule::attributes_after(attributes, m, top)),
        nothing_under(m, name) || (top && own_key(name)) ==> table::value_of(
            rule::attributes_after(attributes, m, top),
            name,
        ) == table::value_of(attributes, name),
        !(top && own_key(name)) ==> forall|i: int| #[trigger]
            last_under(m, name, i) ==> table::value_of(
                rule::attributes_after(attributes, m, top),
                name,
            ) == Some(m[i].1),
    decreases m.len(),
{
    if m.len() > 0 {
        let front = m.drop_last();
        let n = front.len() as int;
        lemma_attribute(attributes, front, top, name);
        assert forall|i: int| 0 <= i < n implies #[trigger] m[i] == front[i] by {}
        let before = rule::attributes_after(attributes, front, top);
        if let Some(last) = yaml::text_of(m[n].0) {
            table::lemma_put(before, last, m[n].1);
        }
        if nothing_under(m, name) {
            assert(yaml::text_of(m[n].0) != Some(name));
            assert forall|i: int| 0 <= i < front.len() implies yaml::text_of(
                (#[trigger] front[i]).0,
            ) != Some(name) by {
                assert(m[i] == front[i]);
            }
            assert(nothing_under(front, name));
        }
        if !(top && own_key(name)) {
            assert forall|i: int| #[trigger] last_under(m, name, i) implies table::value_of(
                rule::attributes_after(attributes, m, top),
                name,
            ) == Some(m[i].1) by {
                if i < n {
                    assert(yaml::text_of(m[n].0) != Some(name));
                    assert forall|j: int| i < j < front.len() implies yaml::text_of(
                        (#[trigger] front[j]).0,
                    ) != Some(name) by {
                        assert(m[j] == front[j]);
                    }
                    assert(last_under(front, name, i));
                }
            }
        }
    }
}

/// The custom attribute of a name is the last entry of that name under
/// `custom_attributes`; if none is there, the last at the top level of the rule, unless
/// that is a key of rules; else there is none.
pub proof fn lemma_custom_attributes(m: Seq<(YamlView, YamlView)>, name: Seq<char>, i: int)
    ensures
        match yaml::lookup(m, "custom_attributes"@) {
            Some(YamlView::Mapping(own)) => {
                &&& last_under(own, name, i) ==> table::value_of(rule::attributes_of(m), name)
                    == Some(own[i].1)
                &&& nothing_under(own, name) && last_under(m, name, i) && !own_key(name)
                    ==> table::value_of(rule::attributes_of(m), name) == Some(m[i].1)
                &&& nothing_under(own, name) && (nothing_under(m, name) || own_key(name))
                    ==> table::value_of(rule::attributes_of(m), name) is None
            },
            _ => {
                &&& last_under(m, name, i) && !own_key(name) ==> table::value_of(
                    rule::attributes_of(m),
                    name,
                ) == Some(m[i].1)
                &&& nothing_under(m, name) || own_key(name) ==> table::value_of(
                    rule::attributes_of(m),
                    name,
                ) is None
            },
        },
        table::distinct(rule::attributes_of(m)),
{
    let none = Seq::<(Seq<char>, YamlView)>::empty();
    lemma_attribute(none, m, true, name);
    let top = rule::attributes_after(none, m, true);
    if let Some(YamlView::Mapping(own)) = yaml::lookup(m, "custom_attributes"@) {
        lemma_attribute(top, own, false, name);
    }
}

/// The custom attributes of a rule are those of its mapping.
pub proof fn lemma_rule_attributes<L, R, S, G>(v: YamlView, parts: ParsedParts<L, R, S, G>)
    ensures
        rule::rule_of(v, parts) matches Ok(r) ==> r.custom_attributes == rule::attributes_of(
            yaml::entries_of(v)->0,
        ),
{
}

// ---------------------------------------------------------------------------
// Tables
// ---------------------------------------------------------------------------

/// The value of a name is that of the first entry with the name; there is none if and only
/// if no entry has it. A value that is put replaces the one that was there, in its place,
/// or stands behind all others.
pub proof fn lemma_table<V>(entries: Seq<(Seq<char>, V)>, name: Seq<char>, value: V, i: int)
    ensures
        0 <= i < entries.len() && entries[i].0 == name && (forall|j: int|
            0 <= j < i ==> (#[trigger] entries[j]).0 != name) ==> table::value_of(entries, name)
            == Some(entries[i].1) && table::put(entries, name, value) == entries.update(
            i,
            (name, value),
        ),
        (forall|j: int| 0 <= j < entries.len() ==> (#[trigger] entries[j]).0 != name)
            ==> table::value_of(entries, name) is None && table::put(entries, name, value)
            == entries.push((name, value)),
{
    if 0 <= i < entries.len() && entries[i].0 == name && (forall|j: int|
        0 <= j < i ==> (#[trigger] entries[j]).0 != name) {
        table::lemma_position_unique(entries, name, i);
    }
    if forall|j: int| 0 <= j < entries.len() ==> (#[trigger] entries[j]).0 != name {
        table::lemma_position_unique(entries, name, entries.len() as int);
    }
}

/// The name that a key gives is its text, tags aside; a key that is no string gives none.
pub proof fn lemma_names_of_keys(v: YamlView)
    ensures
        yaml::untagged(v) matches YamlView::String(s) ==> detection::key_name(v) == s,
        !(yaml::untagged(v) is String) ==> detection::key_name(v) == Seq::<char>::empty(),
{
}

// ---------------------------------------------------------------------------
// Conditions that were parsed
// ---------------------------------------------------------------------------

/// Every condition string of a section that is read was parsed, each by itself, and the
/// conditions are what this gave, in order.
pub proof fn lemma_every_condition_is_parsed<F>(
    parse: F,
    v: YamlView,
    results: Seq<Result<ConditionExpr, SigmaParserError>>,
    d: DetectionsView,
) where F: Fn(&str) -> Result<ConditionExpr, SigmaParserError>
    requires
        rule::gave_conditions(parse, d.condition_strings, results),
        rule::detections_of(v, rule::condition_results(results)) == Ok::<
            DetectionsView,
            ParserErrorView,
        >(d),
    ensures
        d.conditions.len() == d.condition_strings.len(),
        forall|i: int|
            0 <= i < d.conditions.len() ==> gives(
                parse,
                d.condition_strings[i],
                #[trigger] d.conditions[i],
            ),
{
    let seen = rule::condition_results(results);
    outcome::lemma_collected(seen);
    assert(outcome::are_values(seen, d.conditions));
    if results.len() > 0 {
        assert(seen[results.len() - 1] == Ok::<ConditionExpr, ParserErrorView>(
            d.conditions[results.len() - 1],
        ));
    }
    assert forall|i: int| 0 <= i < d.conditions.len() implies gives(
        parse,
        d.condition_strings[i],
        #[trigger] d.conditions[i],
    ) by {
        assert(seen[i] == Ok::<ConditionExpr, ParserErrorView>(d.conditions[i]));
        assert(rule::gave_condition(parse, d.condition_strings[i], results[i]));
    }
}

/// `parse` gave the condition on the text.
pub open spec fn gives<F>(parse: F, text: Seq<char>, c: ConditionExpr) -> bool where
    F: Fn(&str) -> Result<ConditionExpr, SigmaParserError>,
 {
    exists|s: &str| #[trigger]
        s@ == text && call_ensures(parse, (s,), Ok::<ConditionExpr, SigmaParserError>(c))
}

/// The conditions of a rule with a title are parsed from what stands under `detection`, and
/// its other parts if that is read.
pub proof fn lemma_parts_of_rule<C, P, Q, T, U, L, R, S, G>(
    parsers: PartParsers<C, P, Q, T, U, L>,
    m: Seq<(YamlView, YamlView)>,
    parts: ParsedParts<L, R, S, G>,
    title: Seq<char>,
    d: YamlView,
) where
    C: Fn(&str) -> Result<ConditionExpr, SigmaParserError>,
    P: Fn(&YamlValue) -> Result<L, SigmaParserError>,
    Q: Fn(Option<&YamlValue>) -> R,
    T: Fn(&str) -> Option<S>,
    U: Fn(&str) -> Option<G>,

    requires
        rule::gave_parts(parsers, YamlView::Mapping(m), parts),
        text_at(m, "title"@, Some(title)),
        value_at(m, "detection"@, Some(d)),
    ensures
        rule::condition_texts(d) matches Ok(texts) ==> rule::gave_conditions(
            parsers.condition,
            texts,
            parts.conditions@,
        ),
        rule::detections_of(d, rule::condition_results(parts.conditions@)) is Ok
            ==> rule::gave_rest(parsers, m, parts),
{
    lemma_text_at_unique(m, "title"@, Some(title));
    lemma_lookup_is_first(m, "detection"@, Some(d));
}

} // verus!
