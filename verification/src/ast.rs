//! The parts of a Sigma rule.

use crate::text;
use crate::yaml::YamlValue;
use crate::yaml::YamlView;
use vstd::prelude::*;

verus! {

// ---------------------------------------------------------------------------
// Conditions
// ---------------------------------------------------------------------------

/// How many of the selected detections have to match.
#[derive(Clone, Copy, PartialEq, Eq, Structural, Debug)]
pub enum Quantifier {
    Any,
    All,
    Count(u64),
}

/// Which detections a selector expression speaks of.
#[derive(Debug)]
pub enum SelectorPattern {
    /// `them`: every detection whose name does not begin with `_`.
    Them,
    /// A glob over detection names.
    Pattern(String),
}

/// A condition over the detections of a rule.
#[derive(Debug)]
pub enum ConditionExpr {
    And(Vec<ConditionExpr>),
    Or(Vec<ConditionExpr>),
    Not(Box<ConditionExpr>),
    Identifier(String),
    Selector { quantifier: Quantifier, pattern: SelectorPattern },
}

// ---------------------------------------------------------------------------
// Fields
// ---------------------------------------------------------------------------

/// A value modifier of a detection field.
#[derive(Clone, Copy, PartialEq, Eq, Structural, Debug)]
pub enum Modifier {
    Contains,
    StartsWith,
    EndsWith,
    All,
    Base64,
    Base64Offset,
    Wide,
    Utf16be,
    Utf16,
    WinDash,
    Re,
    Cidr,
    Cased,
    Exists,
    Expand,
    FieldRef,
    Gt,
    Gte,
    Lt,
    Lte,
    Neq,
    IgnoreCase,
    Multiline,
    DotAll,
    Minute,
    Hour,
    Day,
    Week,
    Month,
    Year,
}

/// The modifier with the given name.
pub open spec fn modifier_named(s: Seq<char>) -> Option<Modifier> {
    if s == "contains"@ {
        Some(Modifier::Contains)
    } else if s == "startswith"@ {
        Some(Modifier::StartsWith)
    } else if s == "endswith"@ {
        Some(Modifier::EndsWith)
    } else if s == "all"@ {
        Some(Modifier::All)
    } else if s == "base64"@ {
        Some(Modifier::Base64)
    } else if s == "base64offset"@ {
        Some(Modifier::Base64Offset)
    } else if s == "wide"@ || s == "utf16le"@ {
        Some(Modifier::Wide)
    } else if s == "utf16be"@ {
        Some(Modifier::Utf16be)
    } else if s == "utf16"@ {
        Some(Modifier::Utf16)
    } else if s == "windash"@ {
        Some(Modifier::WinDash)
    } else if s == "re"@ {
        Some(Modifier::Re)
    } else if s == "cidr"@ {
        Some(Modifier::Cidr)
    } else if s == "cased"@ {
        Some(Modifier::Cased)
    } else if s == "exists"@ {
        Some(Modifier::Exists)
    } else if s == "expand"@ {
        Some(Modifier::Expand)
    } else if s == "fieldref"@ {
        Some(Modifier::FieldRef)
    } else if s == "gt"@ {
        Some(Modifier::Gt)
    } else if s == "gte"@ {
        Some(Modifier::Gte)
    } else if s == "lt"@ {
        Some(Modifier::Lt)
    } else if s == "lte"@ {
        Some(Modifier::Lte)
    } else if s == "neq"@ {
        Some(Modifier::Neq)
    } else if s == "i"@ || s == "ignorecase"@ {
        Some(Modifier::IgnoreCase)
    } else if s == "m"@ || s == "multiline"@ {
        Some(Modifier::Multiline)
    } else if s == "s"@ || s == "dotall"@ {
        Some(Modifier::DotAll)
    } else if s == "minute"@ {
        Some(Modifier::Minute)
    } else if s == "hour"@ {
        Some(Modifier::Hour)
    } else if s == "day"@ {
        Some(Modifier::Day)
    } else if s == "week"@ {
        Some(Modifier::Week)
    } else if s == "month"@ {
        Some(Modifier::Month)
    } else if s == "year"@ {
        Some(Modifier::Year)
    } else {
        None
    }
}

/// The modifier with the given name.
pub fn modifier_from_name(s: &str) -> (res: Option<Modifier>)
    ensures
        res == modifier_named(s@),
{
    if text::same_text(s, "contains") {
        Some(Modifier::Contains)
    } else if text::same_text(s, "startswith") {
        Some(Modifier::StartsWith)
    } else if text::same_text(s, "endswith") {
        Some(Modifier::EndsWith)
    } else if text::same_text(s, "all") {
        Some(Modifier::All)
    } else if text::same_text(s, "base64") {
        Some(Modifier::Base64)
    } else if text::same_text(s, "base64offset") {
        Some(Modifier::Base64Offset)
    } else if text::same_text(s, "wide") || text::same_text(s, "utf16le") {
        Some(Modifier::Wide)
    } else if text::same_text(s, "utf16be") {
        Some(Modifier::Utf16be)
    } else if text::same_text(s, "utf16") {
        Some(Modifier::Utf16)
    } else if text::same_text(s, "windash") {
        Some(Modifier::WinDash)
    } else if text::same_text(s, "re") {
        Some(Modifier::Re)
    } else if text::same_text(s, "cidr") {
        Some(Modifier::Cidr)
    } else if text::same_text(s, "cased") {
        Some(Modifier::Cased)
    } else if text::same_text(s, "exists") {
        Some(Modifier::Exists)
    } else if text::same_text(s, "expand") {
        Some(Modifier::Expand)
    } else if text::same_text(s, "fieldref") {
        Some(Modifier::FieldRef)
    } else if text::same_text(s, "gt") {
        Some(Modifier::Gt)
    } else if text::same_text(s, "gte") {
        Some(Modifier::Gte)
    } else if text::same_text(s, "lt") {
        Some(Modifier::Lt)
    } else if text::same_text(s, "lte") {
        Some(Modifier::Lte)
    } else if text::same_text(s, "neq") {
        Some(Modifier::Neq)
    } else if text::same_text(s, "i") || text::same_text(s, "ignorecase") {
        Some(Modifier::IgnoreCase)
    } else if text::same_text(s, "m") || text::same_text(s, "multiline") {
        Some(Modifier::Multiline)
    } else if text::same_text(s, "s") || text::same_text(s, "dotall") {
        Some(Modifier::DotAll)
    } else if text::same_text(s, "minute") {
        Some(Modifier::Minute)
    } else if text::same_text(s, "hour") {
        Some(Modifier::Hour)
    } else if text::same_text(s, "day") {
        Some(Modifier::Day)
    } else if text::same_text(s, "week") {
        Some(Modifier::Week)
    } else if text::same_text(s, "month") {
        Some(Modifier::Month)
    } else if text::same_text(s, "year") {
        Some(Modifier::Year)
    } else {
        None
    }
}

/// How the members of an array have to match an object-scope block.
#[derive(Clone, Copy, PartialEq, Eq, Structural, Debug)]
pub enum ArrayQuantifier {
    /// Some member matches.
    Any,
    /// The array is not empty and every member matches.
    All,
    /// Every member matches; an empty or missing array does too.
    AllOrEmpty,
    /// No member matches; an empty or missing array does too.
    NoMember,
}

/// A field with its modifiers; a keyword has no field name.
#[derive(Debug)]
pub struct FieldSpec {
    pub name: Option<String>,
    pub modifiers: Vec<Modifier>,
}

/// What a field specification is.
#[verifier::ext_equal]
pub struct FieldSpecView {
    pub name: Option<Seq<char>>,
    pub modifiers: Seq<Modifier>,
}

impl View for FieldSpec {
    type V = FieldSpecView;

    open spec fn view(&self) -> FieldSpecView {
        FieldSpecView { name: text::opt_text(self.name), modifiers: self.modifiers@ }
    }
}

impl FieldSpec {
    pub fn new(name: Option<String>, modifiers: Vec<Modifier>) -> (res: FieldSpec)
        ensures
            res.name == name,
            res.modifiers == modifiers,
    {
        FieldSpec { name, modifiers }
    }

    /// Whether the modifier is one of the field's.
    pub fn has_modifier(&self, modifier: Modifier) -> (res: bool)
        ensures
            res == self.modifiers@.contains(modifier),
    {
        let mut i: usize = 0;
        while i < self.modifiers.len()
            invariant
                0 <= i <= self.modifiers@.len(),
                forall|j: int| 0 <= j < i ==> self.modifiers@[j] != modifier,
            decreases self.modifiers@.len() - i,
        {
            if self.modifiers[i] == modifier {
                return true;
            }
            i = i + 1;
        }
        false
    }
}

// ---------------------------------------------------------------------------
// Detections
// ---------------------------------------------------------------------------

/// A value to match: a YAML value whose strings may hold wildcards, or a string
/// taken as it stands.
#[derive(Debug)]
pub enum SigmaValue {
    Yaml(YamlValue),
    Raw(String),
}

/// What a value to match is.
pub enum SigmaValueView {
    Yaml(YamlView),
    Raw(Seq<char>),
}

impl View for SigmaValue {
    type V = SigmaValueView;

    open spec fn view(&self) -> SigmaValueView {
        match self {
            SigmaValue::Yaml(v) => SigmaValueView::Yaml(v@),
            SigmaValue::Raw(s) => SigmaValueView::Raw(s@),
        }
    }
}

/// What the values are.
pub open spec fn value_views(values: Seq<SigmaValue>) -> Seq<SigmaValueView> {
    values.map_values(|v: SigmaValue| v@)
}

/// A field and the values that it is matched against.
#[derive(Debug)]
pub struct DetectionItem {
    pub field: FieldSpec,
    pub values: Vec<SigmaValue>,
}

/// What a detection item is.
#[verifier::ext_equal]
pub struct DetectionItemView {
    pub field: FieldSpecView,
    pub values: Seq<SigmaValueView>,
}

impl View for DetectionItem {
    type V = DetectionItemView;

    open spec fn view(&self) -> DetectionItemView {
        DetectionItemView { field: self.field@, values: value_views(self.values@) }
    }
}

/// What the items are.
pub open spec fn item_views(items: Seq<DetectionItem>) -> Seq<DetectionItemView> {
    items.map_values(|i: DetectionItem| i@)
}

/// A named detection of a rule.
#[derive(Debug)]
pub enum Detection {
    /// Every item matches.
    AllOf(Vec<DetectionItem>),
    /// Some detection matches.
    AnyOf(Vec<Detection>),
    /// Every detection matches.
    And(Vec<Detection>),
    /// Members of the array `field` match `body`.
    ArrayMatch { field: String, quantifier: ArrayQuantifier, body: Box<Detection> },
    /// Some value occurs anywhere.
    Keywords(Vec<SigmaValue>),
}

/// What a detection is.
pub enum DetectionView {
    AllOf(Seq<DetectionItemView>),
    AnyOf(Seq<DetectionView>),
    And(Seq<DetectionView>),
    ArrayMatch { field: Seq<char>, quantifier: ArrayQuantifier, body: Box<DetectionView> },
    Keywords(Seq<SigmaValueView>),
}

/// What `d` is.
pub open spec fn detection_view(d: Detection) -> DetectionView
    decreases d,
{
    match d {
        Detection::AllOf(items) => DetectionView::AllOf(item_views(items@)),
        Detection::AnyOf(subs) => DetectionView::AnyOf(detection_views(subs@)),
        Detection::And(subs) => DetectionView::And(detection_views(subs@)),
        Detection::ArrayMatch { field, quantifier, body } => DetectionView::ArrayMatch {
            field: field@,
            quantifier,
            body: Box::new(detection_view(*body)),
        },
        Detection::Keywords(values) => DetectionView::Keywords(value_views(values@)),
    }
}

/// What the detections are.
pub open spec fn detection_views(subs: Seq<Detection>) -> Seq<DetectionView>
    decreases subs,
{
    if subs.len() == 0 {
        Seq::empty()
    } else {
        detection_views(subs.drop_last()).push(detection_view(subs.last()))
    }
}

impl View for Detection {
    type V = DetectionView;

    open spec fn view(&self) -> DetectionView {
        detection_view(*self)
    }
}

// ---------------------------------------------------------------------------
// Errors
// ---------------------------------------------------------------------------

/// Why a rule could not be parsed.
#[derive(Debug)]
pub enum SigmaParserError {
    InvalidRule(String),
    MissingField(String),
    InvalidDetection(String),
    InvalidFieldSpec(String),
    UnknownModifier(String),
    /// `not` belongs to conditions; it is no value modifier.
    NotIsNotAModifier,
    /// A condition string could not be parsed.
    Condition(String),
}

/// What an error is.
pub enum ParserErrorView {
    InvalidRule(Seq<char>),
    MissingField(Seq<char>),
    InvalidDetection(Seq<char>),
    InvalidFieldSpec(Seq<char>),
    UnknownModifier(Seq<char>),
    NotIsNotAModifier,
    Condition(Seq<char>),
}

impl View for SigmaParserError {
    type V = ParserErrorView;

    open spec fn view(&self) -> ParserErrorView {
        match self {
            SigmaParserError::InvalidRule(s) => ParserErrorView::InvalidRule(s@),
            SigmaParserError::MissingField(s) => ParserErrorView::MissingField(s@),
            SigmaParserError::InvalidDetection(s) => ParserErrorView::InvalidDetection(s@),
            SigmaParserError::InvalidFieldSpec(s) => ParserErrorView::InvalidFieldSpec(s@),
            SigmaParserError::UnknownModifier(s) => ParserErrorView::UnknownModifier(s@),
            SigmaParserError::NotIsNotAModifier => ParserErrorView::NotIsNotAModifier,
            SigmaParserError::Condition(s) => ParserErrorView::Condition(s@),
        }
    }
}

} // verus!
