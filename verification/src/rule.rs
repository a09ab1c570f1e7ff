//! Parsing a detection rule.

use crate::ast::ConditionExpr;
use crate::ast::Detection;
use crate::ast::DetectionView;
use crate::ast::ParserErrorView;
use crate::ast::SigmaParserError;
use crate::detection;
use crate::outcome;
use crate::table;
use crate::text;
use crate::yaml::YamlValue;
use crate::yaml::YamlView;
use crate::yaml;
use vstd::prelude::*;

verus! {

// ---------------------------------------------------------------------------
// The detection section
// ---------------------------------------------------------------------------

/// The `detection` section of a rule.
#[derive(Debug)]
pub struct Detections {
    /// The detections by name.
    pub named: Vec<(String, Detection)>,
    pub conditions: Vec<ConditionExpr>,
    pub condition_strings: Vec<String>,
    pub timeframe: Option<String>,
}

/// What a detection section is.
#[verifier::ext_equal]
pub struct DetectionsView {
    pub named: Seq<(Seq<char>, DetectionView)>,
    pub conditions: Seq<ConditionExpr>,
    pub condition_strings: Seq<Seq<char>>,
    pub timeframe: Option<Seq<char>>,
}

impl View for Detections {
    type V = DetectionsView;

    open spec fn view(&self) -> DetectionsView {
        DetectionsView {
            named: table::table_view(self.named@),
            conditions: self.conditions@,
            condition_strings: text::texts(self.condition_strings@),
            timeframe: text::opt_text(self.timeframe),
        }
    }
}

/// The error for a member of a condition list that is no string, and is shown so.
pub open spec fn not_a_string(shown: Seq<char>) -> ParserErrorView {
    ParserErrorView::InvalidDetection("condition list items must be strings, got: "@ + shown)
}

/// A member of a condition list.
pub open spec fn condition_text(v: YamlView) -> Result<Seq<char>, ParserErrorView> {
    match yaml::text_of(v) {
        Some(s) => Ok(s),
        None => Err(not_a_string(yaml::yaml_debug(v))),
    }
}

/// The members of a condition list.
pub open spec fn condition_text_results(items: Seq<YamlView>) -> Seq<
    Result<Seq<char>, ParserErrorView>,
> {
    items.map_values(|v: YamlView| condition_text(v))
}

/// The condition strings of a detection section: the one given, or those of a list.
pub open spec fn condition_texts(v: YamlView) -> Result<Seq<Seq<char>>, ParserErrorView> {
    match yaml::entries_of(v) {
        None => Err(
            ParserErrorView::InvalidDetection("Detection section must be a mapping"@),
        ),
        Some(m) => match yaml::lookup(m, "condition"@) {
            None => Err(ParserErrorView::MissingField("condition"@)),
            Some(YamlView::String(s)) => Ok(seq![s]),
            Some(YamlView::Sequence(items)) => outcome::collect(condition_text_results(items)),
            Some(_) => Err(
                ParserErrorView::InvalidDetection("condition must be a string or list of strings"@),
            ),
        },
    }
}

/// The names that are not detections.
pub open spec fn reserved(name: Seq<char>) -> bool {
    name == "condition"@ || name == "timeframe"@
}

/// The named detections of a section; of two under one name the later counts.
pub open spec fn named_of(m: Seq<(YamlView, YamlView)>) -> Result<
    Seq<(Seq<char>, DetectionView)>,
    ParserErrorView,
>
    decreases m.len(),
{
    if m.len() == 0 {
        Ok(Seq::empty())
    } else {
        let name = detection::key_name(m.last().0);
        match named_of(m.drop_last()) {
            Err(e) => Err(e),
            Ok(named) => if reserved(name) {
                Ok(named)
            } else {
                match detection::detection_of(m.last().1) {
                    Err(e) => Err(e),
                    Ok(d) => Ok(table::put(named, name, d)),
                }
            },
        }
    }
}

/// What the parse of each condition string gave.
pub open spec fn condition_results(
    conditions: Seq<Result<ConditionExpr, SigmaParserError>>,
) -> Seq<Result<ConditionExpr, ParserErrorView>> {
    conditions.map_values(
        |r: Result<ConditionExpr, SigmaParserError>|
            match r {
                Ok(c) => Ok(c),
                Err(e) => Err(e@),
            },
    )
}

/// A detection section whose condition strings parse to `conditions`.
pub open spec fn detections_of(
    v: YamlView,
    conditions: Seq<Result<ConditionExpr, ParserErrorView>>,
) -> Result<DetectionsView, ParserErrorView> {
    match condition_texts(v) {
        Err(e) => Err(e),
        Ok(condition_strings) => match outcome::collect(conditions) {
            Err(e) => Err(e),
            Ok(conditions) => match named_of(yaml::entries_of(v)->0) {
                Err(e) => Err(e),
                Ok(named) => Ok(
                    DetectionsView {
                        named,
                        conditions,
                        condition_strings,
                        timeframe: yaml::lookup_text(yaml::entries_of(v)->0, "timeframe"@),
                    },
                ),
            },
        },
    }
}

/// What the result of reading the condition strings is.
pub open spec fn parsed_texts(r: Result<Vec<String>, SigmaParserError>) -> Result<
    Seq<Seq<char>>,
    ParserErrorView,
> {
    match r {
        Ok(strings) => Ok(text::texts(strings@)),
        Err(e) => Err(e@),
    }
}

/// Read the condition strings of a detection section.
pub fn condition_strings(value: &YamlValue) -> (res: Result<Vec<String>, SigmaParserError>)
    ensures
        parsed_texts(res) == condition_texts(value@),
{
    let m: &Vec<(YamlValue, YamlValue)> = match value.as_mapping() {
        Some(m) => m,
        None => {
            return Err(
                SigmaParserError::InvalidDetection(
                    "Detection section must be a mapping".to_owned(),
                ),
            );
        },
    };
    match yaml::get(m, "condition") {
        None => Err(SigmaParserError::MissingField("condition".to_owned())),
        Some(YamlValue::String(s)) => {
            let mut strings: Vec<String> = Vec::new();
            strings.push(s.clone());
            assert(text::texts(strings@) =~= seq![s@]);
            Ok(strings)
        },
        Some(YamlValue::Sequence(items)) => condition_list(items),
        Some(_) => Err(
            SigmaParserError::InvalidDetection(
                "condition must be a string or list of strings".to_owned(),
            ),
        ),
    }
}

/// The members of a condition list, all of which have to be strings.
fn condition_list(items: &Vec<YamlValue>) -> (res: Result<Vec<String>, SigmaParserError>)
    ensures
        parsed_texts(res) == outcome::collect(condition_text_results(yaml::yaml_views(items@))),
{
    let ghost all = condition_text_results(yaml::yaml_views(items@));
    proof {
        yaml::lemma_yaml_views(items@);
    }
    let mut strings: Vec<String> = Vec::new();
    let mut i: usize = 0;
    assert(all.take(0) =~= Seq::empty());
    assert(text::texts(strings@) =~= Seq::empty());
    while i < items.len()
        invariant
            0 <= i <= items@.len(),
            all == condition_text_results(yaml::yaml_views(items@)),
            all.len() == items@.len(),
            forall|j: int| 0 <= j < items@.len() ==> #[trigger] all[j] == condition_text(items@[j]@),
            outcome::collect(all.take(i as int)) == Ok::<_, ParserErrorView>(text::texts(strings@)),
        decreases items@.len() - i,
    {
        proof {
            outcome::lemma_collect_push(all.take(i as int), all[i as int]);
            assert(all.take(i + 1) =~= all.take(i as int).push(all[i as int]));
        }
        match items[i].as_str() {
            Some(s) => {
                let ghost before = strings@;
                strings.push(s.clone());
                assert(text::texts(strings@) =~= text::texts(before).push(s@));
            },
            None => {
                proof {
                    outcome::lemma_collect_stops(all, i + 1);
                }
                return Err(condition_not_a_string(yaml::debug_text(&items[i]).as_str()));
            },
        }
        i = i + 1;
    }
    assert(all.take(i as int) =~= all);
    Ok(strings)
}

/// The error for a member of a condition list that is no string, and is shown so.
pub fn condition_not_a_string(shown: &str) -> (res: SigmaParserError)
    ensures
        res@ == not_a_string(shown@),
{
    let mut message: String = "condition list items must be strings, got: ".to_owned();
    message.append(shown);
    SigmaParserError::InvalidDetection(message)
}

/// The conditions, if each of them parsed.
fn all_conditions(conditions: Vec<Result<ConditionExpr, SigmaParserError>>) -> (res: Result<
    Vec<ConditionExpr>,
    SigmaParserError,
>)
    ensures
        (match res {
            Ok(c) => Ok(c@),
            Err(e) => Err(e@),
        }) == outcome::collect(condition_results(conditions@)),
{
    let ghost all = condition_results(conditions@);
    let mut rest: Vec<Result<ConditionExpr, SigmaParserError>> = conditions;
    let mut out: Vec<ConditionExpr> = Vec::new();
    let ghost mut n: int = 0;
    assert(all.take(0) =~= Seq::empty());
    while rest.len() > 0
        invariant
            0 <= n <= conditions@.len(),
            rest@ == conditions@.skip(n),
            all == condition_results(conditions@),
            outcome::collect(all.take(n)) == Ok::<_, ParserErrorView>(out@),
        decreases rest@.len(),
    {
        proof {
            outcome::lemma_collect_push(all.take(n), all[n]);
            assert(all.take(n + 1) =~= all.take(n).push(all[n]));
            assert(rest@[0] == conditions@[n]);
        }
        match rest.remove(0) {
            Ok(c) => {
                out.push(c);
            },
            Err(e) => {
                proof {
                    outcome::lemma_collect_stops(all, n + 1);
                }
                return Err(e);
            },
        }
        proof {
            n = n + 1;
            assert(rest@ =~= conditions@.skip(n));
        }
    }
    assert(all.take(n) =~= all);
    Ok(out)
}

/// The named detections of a section.
fn named_detections(m: &Vec<(YamlValue, YamlValue)>) -> (res: Result<
    Vec<(String, Detection)>,
    SigmaParserError,
>)
    ensures
        (match res {
            Ok(named) => Ok(table::table_view(named@)),
            Err(e) => Err(e@),
        }) == named_of(yaml::entry_views(m@)),
{
    let ghost all = yaml::entry_views(m@);
    proof {
        yaml::lemma_entry_views(m@);
    }
    let mut named: Vec<(String, Detection)> = Vec::new();
    let mut i: usize = 0;
    assert(all.take(0) =~= Seq::empty());
    assert(table::table_view(named@) =~= Seq::empty());
    while i < m.len()
        invariant
            0 <= i <= m@.len(),
            all == yaml::entry_views(m@),
            all.len() == m@.len(),
            forall|j: int| 0 <= j < m@.len() ==> #[trigger] all[j] == (m@[j].0@, m@[j].1@),
            named_of(all.take(i as int)) == Ok::<_, ParserErrorView>(table::table_view(named@)),
        decreases m@.len() - i,
    {
        assert(all.take(i + 1).drop_last() =~= all.take(i as int));
        assert(all[i as int] == (m@[i as int].0@, m@[i as int].1@));
        let name: String = detection::key_string(&m[i].0);
        if !text::same_text(name.as_str(), "condition") && !text::same_text(
            name.as_str(),
            "timeframe",
        ) {
            match detection::parse_detection(&m[i].1) {
                Ok(d) => {
                    table::put_entry(&mut named, name, d);
                },
                Err(e) => {
                    proof {
                        lemma_named_stops(all, i + 1);
                    }
                    return Err(e);
                },
            }
        }
        i = i + 1;
    }
    assert(all.take(i as int) =~= all);
    Ok(named)
}

/// A failure among the first entries is the failure of the whole.
proof fn lemma_named_stops(m: Seq<(YamlView, YamlView)>, n: int)
    requires
        0 <= n <= m.len(),
        named_of(m.take(n)) is Err,
    ensures
        named_of(m) == named_of(m.take(n)),
    decreases m.len() - n,
{
    if n < m.len() {
        assert(m.take(n + 1).drop_last() =~= m.take(n));
        lemma_named_stops(m, n + 1);
    } else {
        assert(m.take(n) =~= m);
    }
}

/// No two detections of a section have one name, and none has a reserved one.
pub proof fn lemma_named_distinct(m: Seq<(YamlView, YamlView)>)
    ensures
        named_of(m) matches Ok(named) ==> table::distinct(named) && forall|i: int|
            0 <= i < named.len() ==> !reserved((#[trigger] named[i]).0),
    decreases m.len(),
{
    if m.len() > 0 {
        lemma_named_distinct(m.drop_last());
        if let Ok(before) = named_of(m.drop_last()) {
            let name = detection::key_name(m.last().0);
            if let Ok(d) = detection::detection_of(m.last().1) {
                table::lemma_put(before, name, d);
                table::lemma_position(before, name);
            }
        }
    }
}

/// Parse the `detection` section of a rule, its conditions aside: `conditions` holds
/// what the parse of each of its condition strings gave, in their order.
pub fn detections_from(
    value: &YamlValue,
    conditions: Vec<Result<ConditionExpr, SigmaParserError>>,
) -> (res: Result<Detections, SigmaParserError>)
    ensures
        detection::parsed(res) == detections_of(value@, condition_results(conditions@)),
{
    let condition_strings: Vec<String> = match condition_strings(value) {
        Ok(strings) => strings,
        Err(e) => {
            return Err(e);
        },
    };
    let conditions: Vec<ConditionExpr> = match all_conditions(conditions) {
        Ok(conditions) => conditions,
        Err(e) => {
            return Err(e);
        },
    };
    let m: &Vec<(YamlValue, YamlValue)> = value.as_mapping().unwrap();
    let timeframe: Option<String> = text_under(m, "timeframe");
    match named_detections(m) {
        Ok(named) => Ok(Detections { named, conditions, condition_strings, timeframe }),
        Err(e) => Err(e),
    }
}

/// `results` is what `parse` gave on the first of the texts, one behind the other, up
/// to the end or to the first failure.
pub open spec fn gave_conditions<F>(
    parse: F,
    texts: Seq<Seq<char>>,
    results: Seq<Result<ConditionExpr, SigmaParserError>>,
) -> bool where F: Fn(&str) -> Result<ConditionExpr, SigmaParserError> {
    &&& results.len() <= texts.len()
    &&& results.len() < texts.len() ==> results.len() > 0 && results.last() is Err
    &&& forall|i: int| 0 <= i < results.len() - 1 ==> (#[trigger] results[i]) is Ok
    &&& forall|i: int|
        0 <= i < results.len() ==> gave_condition(parse, texts[i], #[trigger] results[i])
}

/// `parse` gave `result` on the text.
pub open spec fn gave_condition<F>(
    parse: F,
    text: Seq<char>,
    result: Result<ConditionExpr, SigmaParserError>,
) -> bool where F: Fn(&str) -> Result<ConditionExpr, SigmaParserError> {
    exists|s: &str| #[trigger] s@ == text && call_ensures(parse, (s,), result)
}

/// Parse the texts, up to the first failure.
fn each_condition<F>(parse_condition: &F, texts: &Vec<String>) -> (res: Vec<
    Result<ConditionExpr, SigmaParserError>,
>) where F: Fn(&str) -> Result<ConditionExpr, SigmaParserError>
    requires
        forall|s: &str| call_requires(*parse_condition, (s,)),
    ensures
        gave_conditions(*parse_condition, text::texts(texts@), res@),
{
    let ghost all = text::texts(texts@);
    let mut results: Vec<Result<ConditionExpr, SigmaParserError>> = Vec::new();
    let mut i: usize = 0;
    while i < texts.len()
        invariant
            0 <= i <= texts@.len(),
            all == text::texts(texts@),
            results@.len() == i,
            forall|s: &str| call_requires(*parse_condition, (s,)),
            forall|j: int| 0 <= j < results@.len() ==> (#[trigger] results@[j]) is Ok,
            forall|j: int|
                0 <= j < results@.len() ==> gave_condition(
                    *parse_condition,
                    all[j],
                    #[trigger] results@[j],
                ),
        decreases texts@.len() - i,
    {
        let s: &str = texts[i].as_str();
        let result: Result<ConditionExpr, SigmaParserError> = parse_condition(s);
        assert(all[i as int] == s@);
        assert(gave_condition(*parse_condition, all[i as int], result));
        let failed: bool = result.is_err();
        results.push(result);
        if failed {
            return results;
        }
        i = i + 1;
    }
    results
}

/// Parse the `detection` section of a rule: its condition strings, each by
/// `parse_condition`, its time frame, and under every other key a detection.
pub fn parse_detections<F>(value: &YamlValue, parse_condition: F) -> (res: Result<
    Detections,
    SigmaParserError,
>) where F: Fn(&str) -> Result<ConditionExpr, SigmaParserError>
    requires
        forall|s: &str| call_requires(parse_condition, (s,)),
    ensures
        exists|results: Seq<Result<ConditionExpr, SigmaParserError>>|
            detection::parsed(res) == #[trigger] detections_of(value@, condition_results(results))
                && (condition_texts(value@) matches Ok(texts) ==> gave_conditions(
                parse_condition,
                texts,
                results,
            )),
{
    match condition_strings(value) {
        Err(e) => {
            let ghost none = Seq::<Result<ConditionExpr, SigmaParserError>>::empty();
            assert(detections_of(value@, condition_results(none)) == Err::<
                DetectionsView,
                ParserErrorView,
            >(e@));
            Err(e)
        },
        Ok(texts) => {
            let results: Vec<Result<ConditionExpr, SigmaParserError>> = each_condition(
                &parse_condition,
                &texts,
            );
            detections_from(value, results)
        },
    }
}

/// The text under a key.
fn text_under(m: &Vec<(YamlValue, YamlValue)>, key: &str) -> (res: Option<String>)
    ensures
        text::opt_text(res) == yaml::lookup_text(yaml::entry_views(m@), key@),
{
    match yaml::get_str(m, key) {
        Some(s) => Some(s.clone()),
        None => None,
    }
}

// ---------------------------------------------------------------------------
// The rule
// ---------------------------------------------------------------------------

/// The parts of a rule that have parsers of their own: what these gave. `L` is a log
/// source, `R` a list of related rules, `S` a status and `G` a severity level.
#[derive(Debug)]
pub struct ParsedParts<L, R, S, G> {
    /// One result for each condition string, in order.
    pub conditions: Vec<Result<ConditionExpr, SigmaParserError>>,
    /// The log source; a default one if the rule gives none.
    pub logsource: Result<L, SigmaParserError>,
    pub related: R,
    pub status: Option<S>,
    pub level: Option<G>,
}

/// A detection rule.
#[derive(Debug)]
pub struct SigmaRule<L, R, S, G> {
    pub title: String,
    pub logsource: L,
    pub detection: Detections,
    pub id: Option<String>,
    pub name: Option<String>,
    pub related: R,
    pub taxonomy: Option<String>,
    pub status: Option<S>,
    pub description: Option<String>,
    pub license: Option<String>,
    pub author: Option<String>,
    pub references: Vec<String>,
    pub date: Option<String>,
    pub modified: Option<String>,
    pub fields: Vec<String>,
    pub falsepositives: Vec<String>,
    pub level: Option<G>,
    pub tags: Vec<String>,
    pub scope: Vec<String>,
    pub custom_attributes: Vec<(String, YamlValue)>,
}

/// What a detection rule is.
#[verifier::ext_equal]
pub struct SigmaRuleView<L, R, S, G> {
    pub title: Seq<char>,
    pub logsource: L,
    pub detection: DetectionsView,
    pub id: Option<Seq<char>>,
    pub name: Option<Seq<char>>,
    pub related: R,
    pub taxonomy: Option<Seq<char>>,
    pub status: Option<S>,
    pub description: Option<Seq<char>>,
    pub license: Option<Seq<char>>,
    pub author: Option<Seq<char>>,
    pub references: Seq<Seq<char>>,
    pub date: Option<Seq<char>>,
    pub modified: Option<Seq<char>>,
    pub fields: Seq<Seq<char>>,
    pub falsepositives: Seq<Seq<char>>,
    pub level: Option<G>,
    pub tags: Seq<Seq<char>>,
    pub scope: Seq<Seq<char>>,
    pub custom_attributes: Seq<(Seq<char>, YamlView)>,
}

impl<L, R, S, G> View for SigmaRule<L, R, S, G> {
    type V = SigmaRuleView<L, R, S, G>;

    open spec fn view(&self) -> SigmaRuleView<L, R, S, G> {
        SigmaRuleView {
            title: self.title@,
            logsource: self.logsource,
            detection: self.detection@,
            id: text::opt_text(self.id),
            name: text::opt_text(self.name),
            related: self.related,
            taxonomy: text::opt_text(self.taxonomy),
            status: self.status,
            description: text::opt_text(self.description),
            license: text::opt_text(self.license),
            author: text::opt_text(self.author),
            references: text::texts(self.references@),
            date: text::opt_text(self.date),
            modified: text::opt_text(self.modified),
            fields: text::texts(self.fields@),
            falsepositives: text::texts(self.falsepositives@),
            level: self.level,
            tags: text::texts(self.tags@),
            scope: text::texts(self.scope@),
            custom_attributes: table::table_view(self.custom_attributes@),
        }
    }
}

/// The strings among the values.
pub open spec fn strings_among(items: Seq<YamlView>) -> Seq<Seq<char>>
    decreases items.len(),
{
    if items.len() == 0 {
        Seq::empty()
    } else {
        match yaml::text_of(items.last()) {
            Some(s) => strings_among(items.drop_last()).push(s),
            None => strings_among(items.drop_last()),
        }
    }
}

/// The list of strings under a key: the one string given, the strings of a list, or
/// none.
pub open spec fn text_list(m: Seq<(YamlView, YamlView)>, key: Seq<char>) -> Seq<Seq<char>> {
    match yaml::lookup(m, key) {
        Some(YamlView::String(s)) => seq![s],
        Some(YamlView::Sequence(items)) => strings_among(items),
        _ => Seq::empty(),
    }
}

/// The keys of a rule that are not custom attributes.
pub open spec fn standard_key(name: Seq<char>) -> bool {
    ||| name == "title"@
    ||| name == "id"@
    ||| name == "related"@
    ||| name == "name"@
    ||| name == "taxonomy"@
    ||| name == "status"@
    ||| name == "description"@
    ||| name == "license"@
    ||| name == "author"@
    ||| name == "references"@
    ||| name == "date"@
    ||| name == "modified"@
    ||| name == "logsource"@
    ||| name == "detection"@
    ||| name == "fields"@
    ||| name == "falsepositives"@
    ||| name == "level"@
    ||| name == "tags"@
    ||| name == "scope"@
    ||| name == "custom_attributes"@
}

/// `attributes` with the string keys of `m` put into it, but for the standard ones
/// at the `top` level of a rule.
pub open spec fn attributes_after(
    attributes: Seq<(Seq<char>, YamlView)>,
    m: Seq<(YamlView, YamlView)>,
    top: bool,
) -> Seq<(Seq<char>, YamlView)>
    decreases m.len(),
{
    if m.len() == 0 {
        attributes
    } else {
        let before = attributes_after(attributes, m.drop_last(), top);
        match yaml::text_of(m.last().0) {
            Some(name) => if top && standard_key(name) {
                before
            } else {
                table::put(before, name, m.last().1)
            },
            None => before,
        }
    }
}

/// The custom attributes of a rule: its keys that are not standard ones, then the
/// entries under `custom_attributes`, which win.
pub open spec fn attributes_of(m: Seq<(YamlView, YamlView)>) -> Seq<(Seq<char>, YamlView)> {
    let top = attributes_after(Seq::empty(), m, true);
    match yaml::lookup(m, "custom_attributes"@) {
        Some(YamlView::Mapping(own)) => attributes_after(top, own, false),
        _ => top,
    }
}

/// A detection rule of these parts, the rest of which stands in the mapping.
pub open spec fn assembled<L, R, S, G>(
    m: Seq<(YamlView, YamlView)>,
    title: Seq<char>,
    detection: DetectionsView,
    logsource: L,
    related: R,
    status: Option<S>,
    level: Option<G>,
) -> SigmaRuleView<L, R, S, G> {
    SigmaRuleView {
        title,
        logsource,
        detection,
        id: yaml::lookup_text(m, "id"@),
        name: yaml::lookup_text(m, "name"@),
        related,
        taxonomy: yaml::lookup_text(m, "taxonomy"@),
        status,
        description: yaml::lookup_text(m, "description"@),
        license: yaml::lookup_text(m, "license"@),
        author: yaml::lookup_text(m, "author"@),
        references: text_list(m, "references"@),
        date: yaml::lookup_text(m, "date"@),
        modified: yaml::lookup_text(m, "modified"@),
        fields: text_list(m, "fields"@),
        falsepositives: text_list(m, "falsepositives"@),
        level,
        tags: text_list(m, "tags"@),
        scope: text_list(m, "scope"@),
        custom_attributes: attributes_of(m),
    }
}

/// A detection rule whose other parts parse to `parts`.
pub open spec fn rule_of<L, R, S, G>(v: YamlView, parts: ParsedParts<L, R, S, G>) -> Result<
    SigmaRuleView<L, R, S, G>,
    ParserErrorView,
> {
    match yaml::entries_of(v) {
        None => Err(ParserErrorView::InvalidRule("Expected a YAML mapping"@)),
        Some(m) => match yaml::lookup_text(m, "title"@) {
            None => Err(ParserErrorView::MissingField("title"@)),
            Some(title) => match yaml::lookup(m, "detection"@) {
                None => Err(ParserErrorView::MissingField("detection"@)),
                Some(d) => match detections_of(d, condition_results(parts.conditions@)) {
                    Err(e) => Err(e),
                    Ok(detection) => match parts.logsource {
                        Err(e) => Err(e@),
                        Ok(logsource) => Ok(
                            assembled(
                                m,
                                title,
                                detection,
                                logsource,
                                parts.related,
                                parts.status,
                                parts.level,
                            ),
                        ),
                    },
                },
            },
        },
    }
}

/// The list of strings under a key.
fn list_under(m: &Vec<(YamlValue, YamlValue)>, key: &str) -> (res: Vec<String>)
    ensures
        text::texts(res@) == text_list(yaml::entry_views(m@), key@),
{
    let mut strings: Vec<String> = Vec::new();
    assert(text::texts(strings@) =~= Seq::empty());
    match yaml::get(m, key) {
        Some(YamlValue::String(s)) => {
            strings.push(s.clone());
            assert(text::texts(strings@) =~= seq![s@]);
        },
        Some(YamlValue::Sequence(items)) => {
            let ghost all = yaml::yaml_views(items@);
            proof {
                yaml::lemma_yaml_views(items@);
            }
            let mut i: usize = 0;
            assert(all.take(0) =~= Seq::empty());
            while i < items.len()
                invariant
                    0 <= i <= items@.len(),
                    all.len() == items@.len(),
                    forall|j: int| 0 <= j < items@.len() ==> #[trigger] all[j] == items@[j]@,
                    text::texts(strings@) == strings_among(all.take(i as int)),
                decreases items@.len() - i,
            {
                assert(all.take(i + 1).drop_last() =~= all.take(i as int));
                assert(all[i as int] == items@[i as int]@);
                if let Some(s) = items[i].as_str() {
                    let ghost before = strings@;
                    strings.push(s.clone());
                    assert(text::texts(strings@) =~= text::texts(before).push(s@));
                }
                i = i + 1;
            }
            assert(all.take(i as int) =~= all);
        },
        _ => {},
    }
    strings
}

/// Whether a key of a rule is not a custom attribute.
fn is_standard_key(name: &str) -> (res: bool)
    ensures
        res == standard_key(name@),
{
    text::same_text(name, "title") || text::same_text(name, "id") || text::same_text(
        name,
        "related",
    ) || text::same_text(name, "name") || text::same_text(name, "taxonomy") || text::same_text(
        name,
        "status",
    ) || text::same_text(name, "description") || text::same_text(name, "license")
        || text::same_text(name, "author") || text::same_text(name, "references")
        || text::same_text(name, "date") || text::same_text(name, "modified")
        || text::same_text(name, "logsource") || text::same_text(name, "detection")
        || text::same_text(name, "fields") || text::same_text(name, "falsepositives")
        || text::same_text(name, "level") || text::same_text(name, "tags") || text::same_text(
        name,
        "scope",
    ) || text::same_text(name, "custom_attributes")
}

/// Put the string keys of `m` into the attributes.
fn add_attributes(
    attributes: &mut Vec<(String, YamlValue)>,
    m: &Vec<(YamlValue, YamlValue)>,
    top: bool,
)
    ensures
        table::table_view(final(attributes)@) == attributes_after(
            table::table_view(old(attributes)@),
            yaml::entry_views(m@),
            top,
        ),
{
    let ghost start = table::table_view(attributes@);
    let ghost all = yaml::entry_views(m@);
    proof {
        yaml::lemma_entry_views(m@);
    }
    let mut i: usize = 0;
    assert(all.take(0) =~= Seq::empty());
    while i < m.len()
        invariant
            0 <= i <= m@.len(),
            all.len() == m@.len(),
            forall|j: int| 0 <= j < m@.len() ==> #[trigger] all[j] == (m@[j].0@, m@[j].1@),
            table::table_view(attributes@) == attributes_after(start, all.take(i as int), top),
        decreases m@.len() - i,
    {
        assert(all.take(i + 1).drop_last() =~= all.take(i as int));
        assert(all[i as int] == (m@[i as int].0@, m@[i as int].1@));
        if let Some(name) = m[i].0.as_str() {
            if !(top && is_standard_key(name.as_str())) {
                table::put_entry(attributes, name.clone(), m[i].1.duplicate());
            }
        }
        i = i + 1;
    }
    assert(all.take(i as int) =~= all);
}

/// Collect the custom attributes of a rule.
fn custom_attributes(m: &Vec<(YamlValue, YamlValue)>) -> (res: Vec<(String, YamlValue)>)
    ensures
        table::table_view(res@) == attributes_of(yaml::entry_views(m@)),
{
    let mut attributes: Vec<(String, YamlValue)> = Vec::new();
    assert(table::table_view(attributes@) =~= Seq::empty());
    add_attributes(&mut attributes, m, true);
    if let Some(YamlValue::Mapping(own)) = yaml::get(m, "custom_attributes") {
        add_attributes(&mut attributes, own, false);
    }
    attributes
}

/// The last entry of that name under `custom_attributes` is the custom attribute,
/// whatever stands at the top level of the rule.
pub proof fn lemma_own_attributes_win(m: Seq<(YamlView, YamlView)>, own: Seq<(YamlView, YamlView)>, i: int)
    requires
        yaml::lookup(m, "custom_attributes"@) == Some(YamlView::Mapping(own)),
        0 <= i < own.len(),
        yaml::text_of(own[i].0) is Some,
        forall|j: int| i < j < own.len() ==> yaml::text_of((#[trigger] own[j]).0) != yaml::text_of(own[i].0),
    ensures
        table::value_of(attributes_of(m), yaml::text_of(own[i].0)->0) == Some(own[i].1),
        table::distinct(attributes_of(m)),
{
    lemma_attributes_distinct(Seq::empty(), m, true);
    lemma_attribute_put(attributes_after(Seq::empty(), m, true), own, i);
}

proof fn lemma_attributes_distinct(
    attributes: Seq<(Seq<char>, YamlView)>,
    m: Seq<(YamlView, YamlView)>,
    top: bool,
)
    requires
        table::distinct(attributes),
    ensures
        table::distinct(attributes_after(attributes, m, top)),
    decreases m.len(),
{
    if m.len() > 0 {
        lemma_attributes_distinct(attributes, m.drop_last(), top);
        if let Some(name) = yaml::text_of(m.last().0) {
            table::lemma_put(attributes_after(attributes, m.drop_last(), top), name, m.last().1);
        }
    }
}

proof fn lemma_attribute_put(
    attributes: Seq<(Seq<char>, YamlView)>,
    own: Seq<(YamlView, YamlView)>,
    i: int,
)
    requires
        table::distinct(attributes),
        0 <= i < own.len(),
        yaml::text_of(own[i].0) is Some,
        forall|j: int| i < j < own.len() ==> yaml::text_of((#[trigger] own[j]).0) != yaml::text_of(own[i].0),
    ensures
        table::value_of(attributes_after(attributes, own, false), yaml::text_of(own[i].0)->0)
            == Some(own[i].1),
        table::distinct(attributes_after(attributes, own, false)),
    decreases own.len(),
{
    let before = own.drop_last();
    lemma_attributes_distinct(attributes, before, false);
    lemma_attributes_distinct(attributes, own, false);
    if let Some(name) = yaml::text_of(own.last().0) {
        table::lemma_put(attributes_after(attributes, before, false), name, own.last().1);
    }
    if i < own.len() - 1 {
        assert(before[i] == own[i]);
        lemma_attribute_put(attributes, before, i);
        assert(own.last() == own[own.len() - 1]);
    }
}

/// Put a detection rule together.
fn assemble<L, R, S, G>(
    m: &Vec<(YamlValue, YamlValue)>,
    title: String,
    detection: Detections,
    logsource: L,
    related: R,
    status: Option<S>,
    level: Option<G>,
) -> (res: SigmaRule<L, R, S, G>)
    ensures
        res@ == assembled(
            yaml::entry_views(m@),
            title@,
            detection@,
            logsource,
            related,
            status,
            level,
        ),
{
    SigmaRule {
        title,
        logsource,
        detection,
        id: text_under(m, "id"),
        name: text_under(m, "name"),
        related,
        taxonomy: text_under(m, "taxonomy"),
        status,
        description: text_under(m, "description"),
        license: text_under(m, "license"),
        author: text_under(m, "author"),
        references: list_under(m, "references"),
        date: text_under(m, "date"),
        modified: text_under(m, "modified"),
        fields: list_under(m, "fields"),
        falsepositives: list_under(m, "falsepositives"),
        level,
        tags: list_under(m, "tags"),
        scope: list_under(m, "scope"),
        custom_attributes: custom_attributes(m),
    }
}

/// Parse a detection rule, the parts aside that have parsers of their own: `parts`
/// holds what these gave.
pub fn rule_from<L, R, S, G>(value: &YamlValue, parts: ParsedParts<L, R, S, G>) -> (res: Result<
    SigmaRule<L, R, S, G>,
    SigmaParserError,
>)
    ensures
        detection::parsed(res) == rule_of(value@, parts),
{
    let m: &Vec<(YamlValue, YamlValue)> = match value.as_mapping() {
        Some(m) => m,
        None => {
            return Err(SigmaParserError::InvalidRule("Expected a YAML mapping".to_owned()));
        },
    };
    let title: String = match text_under(m, "title") {
        Some(title) => title,
        None => {
            return Err(SigmaParserError::MissingField("title".to_owned()));
        },
    };
    let section: &YamlValue = match yaml::get(m, "detection") {
        Some(section) => section,
        None => {
            return Err(SigmaParserError::MissingField("detection".to_owned()));
        },
    };
    let detection: Detections = match detections_from(section, parts.conditions) {
        Ok(detection) => detection,
        Err(e) => {
            return Err(e);
        },
    };
    let logsource: L = match parts.logsource {
        Ok(logsource) => logsource,
        Err(e) => {
            return Err(e);
        },
    };
    Ok(assemble(m, title, detection, logsource, parts.related, parts.status, parts.level))
}

/// The parsers of the parts of a rule.
#[derive(Debug)]
pub struct PartParsers<C, P, Q, T, U, L> {
    /// Parses a condition string.
    pub condition: C,
    /// Parses a log source.
    pub logsource: P,
    /// The log source of a rule that gives none.
    pub default_logsource: L,
    /// Parses the list of related rules, if there is one.
    pub related: Q,
    /// The status of that name.
    pub status: T,
    /// The severity level of that name.
    pub level: U,
}

/// `parse` gave `result` on the value, or, there being none, `result` is the default.
pub open spec fn gave_logsource<P, L>(
    parse: P,
    default: L,
    v: Option<YamlView>,
    result: Result<L, SigmaParserError>,
) -> bool where P: Fn(&YamlValue) -> Result<L, SigmaParserError> {
    match v {
        None => result == Ok::<L, SigmaParserError>(default),
        Some(v) => exists|x: &YamlValue| #[trigger] x@ == v && call_ensures(parse, (x,), result),
    }
}

/// `parse` gave `result` on what stands there.
pub open spec fn gave_related<Q, R>(parse: Q, v: Option<YamlView>, result: R) -> bool where
    Q: Fn(Option<&YamlValue>) -> R,
 {
    exists|x: Option<&YamlValue>| #[trigger]
        opt_view(x) == v && call_ensures(parse, (x,), result)
}

/// What an optional value is.
pub open spec fn opt_view(v: Option<&YamlValue>) -> Option<YamlView> {
    match v {
        Some(x) => Some(x@),
        None => None,
    }
}

/// `parse` gave `result` on the name; without a name there is no result.
pub open spec fn gave_named<T, S>(
    parse: T,
    name: Option<Seq<char>>,
    result: Option<S>,
) -> bool where T: Fn(&str) -> Option<S> {
    match name {
        None => result is None,
        Some(name) => exists|s: &str| #[trigger] s@ == name && call_ensures(parse, (s,), result),
    }
}

/// `parts` is what the parsers gave on the parts of the rule, as far as they were
/// called: a parser is not called behind a failure.
pub open spec fn gave_parts<C, P, Q, T, U, L, R, S, G>(
    parsers: PartParsers<C, P, Q, T, U, L>,
    v: YamlView,
    parts: ParsedParts<L, R, S, G>,
) -> bool where
    C: Fn(&str) -> Result<ConditionExpr, SigmaParserError>,
    P: Fn(&YamlValue) -> Result<L, SigmaParserError>,
    Q: Fn(Option<&YamlValue>) -> R,
    T: Fn(&str) -> Option<S>,
    U: Fn(&str) -> Option<G>,
 {
    match yaml::entries_of(v) {
        None => true,
        Some(m) => yaml::lookup_text(m, "title"@) is Some ==> match yaml::lookup(
            m,
            "detection"@,
        ) {
            None => true,
            Some(d) => {
                &&& condition_texts(d) matches Ok(texts) ==> gave_conditions(
                    parsers.condition,
                    texts,
                    parts.conditions@,
                )
                &&& detections_of(d, condition_results(parts.conditions@)) is Ok ==> gave_rest(
                    parsers,
                    m,
                    parts,
                )
            },
        },
    }
}

/// `parts` is what the parsers gave on the parts of the rule beside its conditions.
pub open spec fn gave_rest<C, P, Q, T, U, L, R, S, G>(
    parsers: PartParsers<C, P, Q, T, U, L>,
    m: Seq<(YamlView, YamlView)>,
    parts: ParsedParts<L, R, S, G>,
) -> bool where
    P: Fn(&YamlValue) -> Result<L, SigmaParserError>,
    Q: Fn(Option<&YamlValue>) -> R,
    T: Fn(&str) -> Option<S>,
    U: Fn(&str) -> Option<G>,
 {
    &&& gave_logsource(
        parsers.logsource,
        parsers.default_logsource,
        yaml::lookup(m, "logsource"@),
        parts.logsource,
    )
    &&& parts.logsource is Ok ==> {
        &&& gave_related(parsers.related, yaml::lookup(m, "related"@), parts.related)
        &&& gave_named(parsers.status, yaml::lookup_text(m, "status"@), parts.status)
        &&& gave_named(parsers.level, yaml::lookup_text(m, "level"@), parts.level)
    }
}

/// The parsers can be called on anything.
pub open spec fn total_parsers<C, P, Q, T, U, L, R, S, G>(
    parsers: PartParsers<C, P, Q, T, U, L>,
) -> bool where
    C: Fn(&str) -> Result<ConditionExpr, SigmaParserError>,
    P: Fn(&YamlValue) -> Result<L, SigmaParserError>,
    Q: Fn(Option<&YamlValue>) -> R,
    T: Fn(&str) -> Option<S>,
    U: Fn(&str) -> Option<G>,
 {
    &&& forall|s: &str| call_requires(parsers.condition, (s,))
    &&& forall|x: &YamlValue| call_requires(parsers.logsource, (x,))
    &&& forall|x: Option<&YamlValue>| call_requires(parsers.related, (x,))
    &&& forall|s: &str| call_requires(parsers.status, (s,))
    &&& forall|s: &str| call_requires(parsers.level, (s,))
}

/// The result for the name under a key, if there is a name.
fn named_under<T, S>(parse: &T, m: &Vec<(YamlValue, YamlValue)>, key: &str) -> (res: Option<
    S,
>) where T: Fn(&str) -> Option<S>
    requires
        forall|s: &str| call_requires(*parse, (s,)),
    ensures
        gave_named(*parse, yaml::lookup_text(yaml::entry_views(m@), key@), res),
{
    match yaml::get_str(m, key) {
        Some(name) => {
            let s: &str = name.as_str();
            parse(s)
        },
        None => None,
    }
}

/// Parse a detection rule: its title, its detections, its log source and all its
/// other attributes, in this order as to failures.
pub fn parse_detection_rule<C, P, Q, T, U, L, R, S, G>(
    value: &YamlValue,
    parsers: PartParsers<C, P, Q, T, U, L>,
) -> (res: Result<SigmaRule<L, R, S, G>, SigmaParserError>) where
    C: Fn(&str) -> Result<ConditionExpr, SigmaParserError>,
    P: Fn(&YamlValue) -> Result<L, SigmaParserError>,
    Q: Fn(Option<&YamlValue>) -> R,
    T: Fn(&str) -> Option<S>,
    U: Fn(&str) -> Option<G>,

    requires
        total_parsers::<C, P, Q, T, U, L, R, S, G>(parsers),
    ensures
        exists|parts: ParsedParts<L, R, S, G>|
            detection::parsed(res) == #[trigger] rule_of(value@, parts) && gave_parts(
                parsers,
                value@,
                parts,
            ),
{
    let ghost unread: ParsedParts<L, R, S, G> = arbitrary();
    let m: &Vec<(YamlValue, YamlValue)> = match value.as_mapping() {
        Some(m) => m,
        None => {
            assert(rule_of(value@, unread) is Err);
            return Err(SigmaParserError::InvalidRule("Expected a YAML mapping".to_owned()));
        },
    };
    let title: String = match text_under(m, "title") {
        Some(title) => title,
        None => {
            assert(rule_of(value@, unread) is Err);
            return Err(SigmaParserError::MissingField("title".to_owned()));
        },
    };
    let section: &YamlValue = match yaml::get(m, "detection") {
        Some(section) => section,
        None => {
            assert(rule_of(value@, unread) is Err);
            return Err(SigmaParserError::MissingField("detection".to_owned()));
        },
    };
    let texts: Vec<String> = match condition_strings(section) {
        Ok(texts) => texts,
        Err(e) => {
            assert(rule_of(value@, unread) is Err);
            return Err(e);
        },
    };
    let conditions: Vec<Result<ConditionExpr, SigmaParserError>> = each_condition(
        &parsers.condition,
        &texts,
    );
    let ghost with_conditions = ParsedParts { conditions, ..unread };
    let detection: Detections = match detections_from(section, conditions) {
        Ok(detection) => detection,
        Err(e) => {
            assert(rule_of(value@, with_conditions) is Err);
            return Err(e);
        },
    };
    let parsed_logsource: Result<L, SigmaParserError> = match yaml::get(m, "logsource") {
        Some(v) => (parsers.logsource)(v),
        None => Ok(parsers.default_logsource),
    };
    let ghost with_logsource = ParsedParts { logsource: parsed_logsource, ..with_conditions };
    let logsource: L = match parsed_logsource {
        Ok(logsource) => logsource,
        Err(e) => {
            assert(rule_of(value@, with_logsource) is Err);
            return Err(e);
        },
    };
    let listed: Option<&YamlValue> = yaml::get(m, "related");
    let related: R = (parsers.related)(listed);
    assert(opt_view(listed) == yaml::lookup(yaml::entry_views(m@), "related"@));
    let status: Option<S> = named_under(&parsers.status, m, "status");
    let level: Option<G> = named_under(&parsers.level, m, "level");
    let ghost all = ParsedParts { related, status, level, ..with_logsource };
    let rule: SigmaRule<L, R, S, G> = assemble(
        m,
        title,
        detection,
        logsource,
        related,
        status,
        level,
    );
    assert(rule_of(value@, all) == Ok::<_, ParserErrorView>(rule@));
    Ok(rule)
}

} // verus!
