//! Parsing the detection section of a rule.

use crate::ast::ArrayQuantifier;
use crate::ast::ConditionExpr;
use crate::ast::Detection;
use crate::ast::DetectionItem;
use crate::ast::DetectionItemView;
use crate::ast::DetectionView;
use crate::ast::FieldSpec;
use crate::ast::FieldSpecView;
use crate::ast::Modifier;
use crate::ast::ParserErrorView;
use crate::ast::SigmaParserError;
use crate::ast::SigmaValue;
use crate::ast::SigmaValueView;
use crate::ast;
use crate::outcome;
use crate::text;
use crate::yaml::YamlValue;
use crate::yaml::YamlView;
use crate::yaml;
use vstd::prelude::*;

verus! {

/// What the result of a parse is.
pub open spec fn parsed<T: View>(r: Result<T, SigmaParserError>) -> Result<T::V, ParserErrorView> {
    match r {
        Ok(t) => Ok(t@),
        Err(e) => Err(e@),
    }
}

// ---------------------------------------------------------------------------
// Field paths
// ---------------------------------------------------------------------------

/// A segment of a field path: a name and, for an array, how its members match.
#[derive(Debug)]
pub struct PathSegment {
    pub name: String,
    pub quantifier: Option<ArrayQuantifier>,
}

/// What a path segment is.
#[verifier::ext_equal]
pub struct PathSegmentView {
    pub name: Seq<char>,
    pub quantifier: Option<ArrayQuantifier>,
}

impl View for PathSegment {
    type V = PathSegmentView;

    open spec fn view(&self) -> PathSegmentView {
        PathSegmentView { name: self.name@, quantifier: self.quantifier }
    }
}

/// What the segments are.
pub open spec fn segment_views(segments: Seq<PathSegment>) -> Seq<PathSegmentView> {
    segments.map_values(|s: PathSegment| s@)
}

/// How a quantifier is written between brackets.
pub open spec fn quantifier_name(q: ArrayQuantifier) -> Seq<char> {
    match q {
        ArrayQuantifier::Any => "any"@,
        ArrayQuantifier::All => "all"@,
        ArrayQuantifier::AllOrEmpty => "all_or_empty"@,
        ArrayQuantifier::NoMember => "none"@,
    }
}

/// The quantifier written `token` between brackets.
pub open spec fn quantifier_named(token: Seq<char>) -> Option<ArrayQuantifier> {
    if token == "any"@ {
        Some(ArrayQuantifier::Any)
    } else if token == "all"@ {
        Some(ArrayQuantifier::All)
    } else if token == "all_or_empty"@ {
        Some(ArrayQuantifier::AllOrEmpty)
    } else if token == "none"@ {
        Some(ArrayQuantifier::NoMember)
    } else {
        None
    }
}

/// The digits of a position: what follows the `-` of a position counted from the
/// end.
pub open spec fn index_digits(token: Seq<char>) -> Seq<char> {
    if token.len() > 0 && token[0] == '-' {
        token.skip(1)
    } else {
        token
    }
}

/// A position in an array: decimal digits, behind a `-` if counted from the end.
pub open spec fn is_index(token: Seq<char>) -> bool {
    &&& index_digits(token).len() > 0
    &&& forall|i: int|
        0 <= i < index_digits(token).len() ==> '0' <= #[trigger] index_digits(token)[i] <= '9'
}

/// A segment ends with a bracketed selector.
pub open spec fn has_selector(raw: Seq<char>) -> bool {
    raw.len() > 0 && raw.last() == ']' && text::find(raw, '[') < raw.len()
}

/// The name in front of the brackets.
pub open spec fn selector_name(raw: Seq<char>) -> Seq<char> {
    raw.take(text::find(raw, '['))
}

/// What stands between the brackets.
pub open spec fn selector_token(raw: Seq<char>) -> Seq<char> {
    raw.subrange(text::find(raw, '[') + 1, raw.len() - 1)
}

pub open spec fn unknown_selector(token: Seq<char>, field: Seq<char>) -> ParserErrorView {
    ParserErrorView::InvalidFieldSpec(
        "unknown array quantifier '["@ + token + "]' in field '"@ + field
            + "'; only [any], [all], [all_or_empty], [none] and positional indices are supported"@,
    )
}

pub open spec fn nameless_selector(field: Seq<char>) -> ParserErrorView {
    ParserErrorView::InvalidFieldSpec(
        "array quantifier without a field name in '"@ + field + "'"@,
    )
}

/// One dot-separated part of the path `field`. A quantifier is taken off the name;
/// a position stays in it.
pub open spec fn segment_of(raw: Seq<char>, field: Seq<char>) -> Result<
    PathSegmentView,
    ParserErrorView,
> {
    if !has_selector(raw) {
        Ok(PathSegmentView { name: raw, quantifier: None })
    } else if quantifier_named(selector_token(raw)) is None && !is_index(selector_token(raw)) {
        Err(unknown_selector(selector_token(raw), field))
    } else if selector_name(raw).len() == 0 {
        Err(nameless_selector(field))
    } else if quantifier_named(selector_token(raw)) is Some {
        Ok(
            PathSegmentView {
                name: selector_name(raw),
                quantifier: quantifier_named(selector_token(raw)),
            },
        )
    } else {
        Ok(PathSegmentView { name: raw, quantifier: None })
    }
}

/// What each dot-separated part of the path `field` is.
pub open spec fn segment_results(field: Seq<char>) -> Seq<Result<PathSegmentView, ParserErrorView>> {
    text::split(field, '.').map_values(|raw: Seq<char>| segment_of(raw, field))
}

/// The segments of the path `field`.
pub open spec fn path_of(field: Seq<char>) -> Result<Seq<PathSegmentView>, ParserErrorView> {
    outcome::collect(segment_results(field))
}

fn quantifier_from_name(token: &[char]) -> (res: Option<ArrayQuantifier>)
    ensures
        res == quantifier_named(token@),
{
    let t: String = text::string_of(token);
    let s: &str = t.as_str();
    if text::same_text(s, "any") {
        Some(ArrayQuantifier::Any)
    } else if text::same_text(s, "all") {
        Some(ArrayQuantifier::All)
    } else if text::same_text(s, "all_or_empty") {
        Some(ArrayQuantifier::AllOrEmpty)
    } else if text::same_text(s, "none") {
        Some(ArrayQuantifier::NoMember)
    } else {
        None
    }
}

fn index_like(token: &[char]) -> (res: bool)
    ensures
        res == is_index(token@),
{
    let start: usize = if token.len() > 0 && token[0] == '-' {
        1
    } else {
        0
    };
    let ghost digits = index_digits(token@);
    assert(digits =~= token@.skip(start as int));
    if token.len() == start {
        return false;
    }
    let mut i: usize = start;
    while i < token.len()
        invariant
            start <= i <= token@.len(),
            digits == token@.skip(start as int),
            digits == index_digits(token@),
            forall|j: int| 0 <= j < i - start ==> '0' <= #[trigger] digits[j] <= '9',
        decreases token@.len() - i,
    {
        assert(digits[i - start] == token@[i as int]);
        if token[i] < '0' || token[i] > '9' {
            return false;
        }
        i = i + 1;
    }
    true
}

fn parse_segment(raw: &[char], field: &[char]) -> (res: Result<PathSegment, SigmaParserError>)
    ensures
        parsed(res) == segment_of(raw@, field@),
{
    proof {
        text::lemma_find(raw@, '[');
    }
    let open: usize = text::find_char(raw, '[');
    if raw.len() == 0 || raw[raw.len() - 1] != ']' || open == raw.len() {
        return Ok(PathSegment { name: text::string_of(raw), quantifier: None });
    }
    let name: &[char] = &raw[0..open];
    let token: &[char] = &raw[open + 1..raw.len() - 1];
    assert(name@ =~= selector_name(raw@));
    assert(token@ =~= selector_token(raw@));
    let quantifier: Option<ArrayQuantifier> = quantifier_from_name(token);
    if quantifier.is_none() && !index_like(token) {
        let mut message: String = "unknown array quantifier '[".to_owned();
        message.append(text::string_of(token).as_str());
        message.append("]' in field '");
        message.append(text::string_of(field).as_str());
        message.append(
            "'; only [any], [all], [all_or_empty], [none] and positional indices are supported",
        );
        return Err(SigmaParserError::InvalidFieldSpec(message));
    }
    if name.len() == 0 {
        let mut message: String = "array quantifier without a field name in '".to_owned();
        message.append(text::string_of(field).as_str());
        message.append("'");
        return Err(SigmaParserError::InvalidFieldSpec(message));
    }
    if quantifier.is_some() {
        Ok(PathSegment { name: text::string_of(name), quantifier })
    } else {
        Ok(PathSegment { name: text::string_of(raw), quantifier: None })
    }
}

/// What the result of parsing a path is.
pub open spec fn parsed_path(r: Result<Vec<PathSegment>, SigmaParserError>) -> Result<
    Seq<PathSegmentView>,
    ParserErrorView,
> {
    match r {
        Ok(segments) => Ok(segment_views(segments@)),
        Err(e) => Err(e@),
    }
}

/// Split a field path into its dot-separated segments. `[any]`, `[all]`,
/// `[all_or_empty]` and `[none]` behind a name are array quantifiers; a position
/// such as `[0]` or `[-1]` belongs to the name. Any other bracketed token is an
/// error, so that a typo does not silently become a field name with brackets.
pub fn parse_field_path(field_part: &str) -> (res: Result<Vec<PathSegment>, SigmaParserError>)
    ensures
        parsed_path(res) == path_of(field_part@),
{
    let field: Vec<char> = text::chars_of(field_part);
    let raws: Vec<Vec<char>> = text::split_char(&field, '.');
    let ghost all = segment_results(field@);
    let mut segments: Vec<PathSegment> = Vec::new();
    let mut i: usize = 0;
    assert(all.take(0) =~= Seq::empty());
    assert(segment_views(segments@) =~= Seq::empty());
    while i < raws.len()
        invariant
            0 <= i <= raws@.len(),
            text::char_texts(raws@) == text::split(field@, '.'),
            all == segment_results(field@),
            all.len() == raws@.len(),
            field@ == field_part@,
            outcome::collect(all.take(i as int)) == Ok::<_, ParserErrorView>(
                segment_views(segments@),
            ),
        decreases raws@.len() - i,
    {
        assert(text::char_texts(raws@)[i as int] == raws@[i as int]@);
        assert(all[i as int] == segment_of(raws@[i as int]@, field@));
        proof {
            outcome::lemma_collect_push(all.take(i as int), all[i as int]);
            assert(all.take(i + 1) =~= all.take(i as int).push(all[i as int]));
        }
        match parse_segment(&raws[i], &field) {
            Ok(segment) => {
                let ghost before = segments@;
                segments.push(segment);
                assert(segment_views(segments@) =~= segment_views(before).push(segment@));
            },
            Err(e) => {
                proof {
                    outcome::lemma_collect_stops(all, i + 1);
                }
                return Err(e);
            },
        }
        i = i + 1;
    }
    assert(all.take(i as int) =~= all);
    Ok(segments)
}

// ---------------------------------------------------------------------------
// Writing a path back
// ---------------------------------------------------------------------------

/// How a segment is written.
pub open spec fn segment_text(s: PathSegmentView) -> Seq<char> {
    match s.quantifier {
        Some(q) => s.name + "["@ + quantifier_name(q) + "]"@,
        None => s.name,
    }
}

/// How the segments are written one by one.
pub open spec fn segment_texts(segments: Seq<PathSegmentView>) -> Seq<Seq<char>> {
    segments.map_values(|s: PathSegmentView| segment_text(s))
}

/// How a path is written.
pub open spec fn path_text(segments: Seq<PathSegmentView>) -> Seq<char> {
    text::join(segment_texts(segments), "."@)
}

/// How a detection key is written: the path, and behind a `|` the modifiers.
pub open spec fn key_text(segments: Seq<PathSegmentView>, modifiers: Option<Seq<char>>) -> Seq<
    char,
> {
    match modifiers {
        Some(m) => path_text(segments) + "|"@ + m,
        None => path_text(segments),
    }
}

/// What an optional text is.
pub open spec fn opt_str(s: Option<&str>) -> Option<Seq<char>> {
    match s {
        Some(t) => Some(t@),
        None => None,
    }
}

/// Write a detection key from path segments and an optional modifier chain.
pub fn reconstruct_key(segments: &[PathSegment], modifier_part: Option<&str>) -> (res: String)
    ensures
        res@ == key_text(segment_views(segments@), opt_str(modifier_part)),
{
    let mut parts: Vec<String> = Vec::new();
    let ghost all = segment_texts(segment_views(segments@));
    let mut i: usize = 0;
    while i < segments.len()
        invariant
            0 <= i <= segments@.len(),
            all == segment_texts(segment_views(segments@)),
            text::texts(parts@) == all.take(i as int),
        decreases segments@.len() - i,
    {
        let mut part: String = segments[i].name.clone();
        if let Some(q) = segments[i].quantifier {
            part.append("[");
            part.append(
                match q {
                    ArrayQuantifier::Any => "any",
                    ArrayQuantifier::All => "all",
                    ArrayQuantifier::AllOrEmpty => "all_or_empty",
                    ArrayQuantifier::NoMember => "none",
                },
            );
            part.append("]");
        }
        assert(part@ == all[i as int]);
        let ghost before = parts@;
        parts.push(part);
        assert(text::texts(parts@) =~= text::texts(before).push(all[i as int]));
        assert(all.take(i + 1) =~= all.take(i as int).push(all[i as int]));
        i = i + 1;
    }
    assert(all.take(i as int) =~= all);
    let mut key: String = text::join_strings(&parts, ".");
    if let Some(m) = modifier_part {
        key.append("|");
        key.append(m);
    }
    key
}

/// A segment that was parsed is written as it was read.
proof fn lemma_segment_text(raw: Seq<char>, field: Seq<char>)
    ensures
        segment_of(raw, field) matches Ok(s) ==> segment_text(s) == raw,
{
    reveal_strlit("[");
    reveal_strlit("]");
    text::lemma_find(raw, '[');
    if let Ok(s) = segment_of(raw, field) {
        if s.quantifier is Some {
            let token = selector_token(raw);
            assert(quantifier_name(s.quantifier->0) == token);
            assert(selector_name(raw) + "["@ + token + "]"@ =~= raw);
        }
    }
}

/// What the first parts of a path are: each segment is the parse of its own part.
proof fn lemma_path_parts(field: Seq<char>, n: int)
    requires
        0 <= n <= segment_results(field).len(),
        outcome::collect(segment_results(field).take(n)) is Ok,
    ensures
        ({
            let segments = outcome::collect(segment_results(field).take(n))->Ok_0;
            &&& segments.len() == n
            &&& forall|i: int|
                0 <= i < n ==> segment_of(text::split(field, '.')[i], field) == Ok::<
                    PathSegmentView,
                    ParserErrorView,
                >(#[trigger] segments[i])
        }),
    decreases n,
{
    let all = segment_results(field);
    if n > 0 {
        assert(all.take(n) =~= all.take(n - 1).push(all[n - 1]));
        outcome::lemma_collect_push(all.take(n - 1), all[n - 1]);
        lemma_path_parts(field, n - 1);
    }
}

/// What a path is made of: each segment is the parse of its own part.
pub proof fn lemma_path_segments(field: Seq<char>)
    requires
        path_of(field) is Ok,
    ensures
        path_of(field)->Ok_0.len() == text::split(field, '.').len(),
        forall|i: int|
            0 <= i < text::split(field, '.').len() ==> segment_of(
                text::split(field, '.')[i],
                field,
            ) == Ok::<PathSegmentView, ParserErrorView>(#[trigger] path_of(field)->Ok_0[i]),
{
    let all = segment_results(field);
    assert(all.take(all.len() as int) =~= all);
    lemma_path_parts(field, all.len() as int);
}

/// Writing a parsed path gives the path that was read.
pub proof fn lemma_path_text(field: Seq<char>, segments: Seq<PathSegmentView>)
    requires
        path_of(field) == Ok::<Seq<PathSegmentView>, ParserErrorView>(segments),
    ensures
        path_text(segments) == field,
        segment_texts(segments) == text::split(field, '.'),
        segments.len() >= 1,
{
    reveal_strlit(".");
    let all = segment_results(field);
    assert(all.take(all.len() as int) =~= all);
    lemma_path_parts(field, all.len() as int);
    text::lemma_split_nonempty(field, '.');
    assert forall|i: int| 0 <= i < segments.len() implies segment_text(#[trigger] segments[i])
        == text::split(field, '.')[i] by {
        lemma_segment_text(text::split(field, '.')[i], field);
    }
    assert(segment_texts(segments) =~= text::split(field, '.'));
    assert("."@ =~= seq!['.']);
    text::lemma_join_split(field, '.');
}

/// The rest of a parsed path, written and parsed again, is that rest.
pub proof fn lemma_path_rest(field: Seq<char>, segments: Seq<PathSegmentView>, n: int)
    requires
        path_of(field) == Ok::<Seq<PathSegmentView>, ParserErrorView>(segments),
        0 <= n < segments.len(),
    ensures
        path_of(path_text(segments.skip(n))) == Ok::<Seq<PathSegmentView>, ParserErrorView>(
            segments.skip(n),
        ),
{
    reveal_strlit(".");
    assert("."@ =~= seq!['.']);
    lemma_path_text(field, segments);
    let all = segment_results(field);
    assert(all.take(all.len() as int) =~= all);
    lemma_path_parts(field, all.len() as int);
    let rest = segments.skip(n);
    let raws = text::split(field, '.').skip(n);
    let again = path_text(rest);
    text::lemma_split_pieces(field, '.');
    assert(segment_texts(rest) =~= raws) by {
        assert forall|i: int| 0 <= i < rest.len() implies segment_texts(rest)[i] == raws[i] by {
            assert(segment_texts(segments)[i + n] == text::split(field, '.')[i + n]);
        }
    }
    assert forall|i: int| 0 <= i < raws.len() implies !(#[trigger] raws[i]).contains('.') by {
        assert(raws[i] == text::split(field, '.')[i + n]);
    }
    text::lemma_split_join(raws, '.');
    let results = segment_results(again);
    assert(results.len() == rest.len());
    assert forall|i: int| 0 <= i < rest.len() implies #[trigger] results[i] == Ok::<
        PathSegmentView,
        ParserErrorView,
    >(rest[i]) by {
        assert(segments[i + n] == rest[i]);
        assert(raws[i] == text::split(field, '.')[i + n]);
    }
    lemma_all_ok(results, rest);
}

/// Results that are all values collect to those values.
pub proof fn lemma_all_ok<T, E>(results: Seq<Result<T, E>>, values: Seq<T>)
    requires
        results.len() == values.len(),
        forall|i: int| 0 <= i < results.len() ==> #[trigger] results[i] == Ok::<T, E>(values[i]),
    ensures
        outcome::collect(results) == Ok::<Seq<T>, E>(values),
    decreases results.len(),
{
    if results.len() > 0 {
        lemma_all_ok(results.drop_last(), values.drop_last());
        assert(values.drop_last().push(values.last()) =~= values);
    } else {
        assert(values =~= Seq::empty());
    }
}

// ---------------------------------------------------------------------------
// Field specifications
// ---------------------------------------------------------------------------

/// The part of a key in front of the first `|`.
pub open spec fn field_part(key: Seq<char>) -> Seq<char> {
    key.take(text::find(key, '|'))
}

/// The part of a key behind the first `|`.
pub open spec fn modifier_part(key: Seq<char>) -> Option<Seq<char>> {
    if text::find(key, '|') < key.len() {
        Some(key.skip(text::find(key, '|') + 1))
    } else {
        None
    }
}

/// One modifier of a chain. `not` is reserved for conditions.
pub open spec fn modifier_of(name: Seq<char>) -> Result<Modifier, ParserErrorView> {
    if name == "not"@ {
        Err(ParserErrorView::NotIsNotAModifier)
    } else {
        match ast::modifier_named(name) {
            Some(m) => Ok(m),
            None => Err(ParserErrorView::UnknownModifier(name)),
        }
    }
}

/// What each modifier of a chain is.
pub open spec fn modifier_results(part: Seq<char>) -> Seq<Result<Modifier, ParserErrorView>> {
    text::split(part, '|').map_values(|name: Seq<char>| modifier_of(name))
}

/// The modifiers of a chain; without a chain there are none.
pub open spec fn modifiers_of(part: Option<Seq<char>>) -> Result<Seq<Modifier>, ParserErrorView> {
    match part {
        Some(p) => outcome::collect(modifier_results(p)),
        None => Ok(Seq::empty()),
    }
}

/// A key as a field with modifiers. Without a name it is a keyword.
pub open spec fn field_spec_of(key: Seq<char>) -> Result<FieldSpecView, ParserErrorView> {
    match modifiers_of(modifier_part(key)) {
        Err(e) => Err(e),
        Ok(modifiers) => Ok(
            FieldSpecView {
                name: if field_part(key).len() == 0 {
                    None
                } else {
                    Some(field_part(key))
                },
                modifiers,
            },
        ),
    }
}

/// What the result of parsing a modifier chain is.
pub open spec fn parsed_modifiers(r: Result<Vec<Modifier>, SigmaParserError>) -> Result<
    Seq<Modifier>,
    ParserErrorView,
> {
    match r {
        Ok(modifiers) => Ok(modifiers@),
        Err(e) => Err(e@),
    }
}

/// Parse the chain of modifiers, separated by `|`, that follows the first `|` of a
/// key.
pub fn parse_modifiers(modifier_part: Option<&str>) -> (res: Result<
    Vec<Modifier>,
    SigmaParserError,
>)
    ensures
        parsed_modifiers(res) == modifiers_of(opt_str(modifier_part)),
{
    let mut modifiers: Vec<Modifier> = Vec::new();
    let part: &str = match modifier_part {
        Some(part) => part,
        None => {
            return Ok(modifiers);
        },
    };
    let chars: Vec<char> = text::chars_of(part);
    let names: Vec<Vec<char>> = text::split_char(&chars, '|');
    let ghost all = modifier_results(chars@);
    let mut i: usize = 0;
    assert(all.take(0) =~= Seq::empty());
    while i < names.len()
        invariant
            0 <= i <= names@.len(),
            text::char_texts(names@) == text::split(chars@, '|'),
            all == modifier_results(chars@),
            all.len() == names@.len(),
            opt_str(modifier_part) == Some(chars@),
            outcome::collect(all.take(i as int)) == Ok::<_, ParserErrorView>(modifiers@),
        decreases names@.len() - i,
    {
        assert(text::char_texts(names@)[i as int] == names@[i as int]@);
        assert(all[i as int] == modifier_of(names@[i as int]@));
        proof {
            outcome::lemma_collect_push(all.take(i as int), all[i as int]);
            assert(all.take(i + 1) =~= all.take(i as int).push(all[i as int]));
        }
        let name: String = text::string_of(&names[i]);
        if text::same_text(name.as_str(), "not") {
            proof {
                outcome::lemma_collect_stops(all, i + 1);
            }
            return Err(SigmaParserError::NotIsNotAModifier);
        }
        match ast::modifier_from_name(name.as_str()) {
            Some(m) => {
                modifiers.push(m);
            },
            None => {
                proof {
                    outcome::lemma_collect_stops(all, i + 1);
                }
                return Err(SigmaParserError::UnknownModifier(name));
            },
        }
        i = i + 1;
    }
    assert(all.take(i as int) =~= all);
    Ok(modifiers)
}

/// A key cut at its first `|`.
fn cut_key(key: &str) -> (res: (String, Option<String>))
    ensures
        res.0@ == field_part(key@),
        text::opt_text(res.1) == modifier_part(key@),
{
    let chars: Vec<char> = text::chars_of(key);
    proof {
        text::lemma_find(chars@, '|');
    }
    let bar: usize = text::find_char(&chars, '|');
    let field: &[char] = &chars[0..bar];
    assert(field@ =~= field_part(key@));
    if bar < chars.len() {
        let rest: &[char] = &chars[bar + 1..chars.len()];
        assert(rest@ =~= key@.skip(bar + 1));
        (text::string_of(field), Some(text::string_of(rest)))
    } else {
        (text::string_of(field), None)
    }
}

/// The text inside, borrowed.
fn borrowed(s: &Option<String>) -> (res: Option<&str>)
    ensures
        opt_str(res) == text::opt_text(*s),
{
    match s {
        Some(t) => Some(t.as_str()),
        None => None,
    }
}

/// Parse a field specification such as `TargetObject|endswith`: a name and value
/// modifiers.
pub fn parse_field_spec(key: &str) -> (res: Result<FieldSpec, SigmaParserError>)
    ensures
        parsed(res) == field_spec_of(key@),
{
    let (field, modifiers) = cut_key(key);
    match parse_modifiers(borrowed(&modifiers)) {
        Err(e) => Err(e),
        Ok(modifiers) => {
            let chars: Vec<char> = text::chars_of(field.as_str());
            let name: Option<String> = if chars.len() == 0 {
                None
            } else {
                Some(field)
            };
            Ok(FieldSpec::new(name, modifiers))
        },
    }
}

// ---------------------------------------------------------------------------
// Detection items
// ---------------------------------------------------------------------------

/// A value of a field. Under `re` a string is taken as it stands.
pub open spec fn sigma_value_of(v: YamlView, field: FieldSpecView) -> SigmaValueView {
    match v {
        YamlView::String(s) if field.modifiers.contains(Modifier::Re) => SigmaValueView::Raw(s),
        _ => SigmaValueView::Yaml(v),
    }
}

/// The values of a field: those of a list, or the one given.
pub open spec fn sigma_values_of(v: YamlView, field: FieldSpecView) -> Seq<SigmaValueView> {
    match v {
        YamlView::Sequence(items) => items.map_values(|x: YamlView| sigma_value_of(x, field)),
        _ => seq![sigma_value_of(v, field)],
    }
}

/// The detection item of one entry.
pub open spec fn item_of(key: Seq<char>, v: YamlView) -> Result<
    DetectionItemView,
    ParserErrorView,
> {
    match field_spec_of(key) {
        Err(e) => Err(e),
        Ok(field) => Ok(DetectionItemView { field, values: sigma_values_of(v, field) }),
    }
}

/// A YAML value as a value to match, respecting the field's modifiers.
pub fn to_sigma_value(v: &YamlValue, field: &FieldSpec) -> (res: SigmaValue)
    ensures
        res@ == sigma_value_of(v@, field@),
{
    if field.has_modifier(Modifier::Re) {
        if let YamlValue::String(s) = v {
            return SigmaValue::Raw(s.clone());
        }
    }
    SigmaValue::Yaml(v.duplicate())
}

fn to_sigma_values(v: &YamlValue, field: &FieldSpec) -> (res: Vec<SigmaValue>)
    ensures
        ast::value_views(res@) == sigma_values_of(v@, field@),
{
    let mut values: Vec<SigmaValue> = Vec::new();
    match v {
        YamlValue::Sequence(items) => {
            let ghost all = sigma_values_of(v@, field@);
            proof {
                yaml::lemma_yaml_views(items@);
            }
            let mut i: usize = 0;
            while i < items.len()
                invariant
                    0 <= i <= items@.len(),
                    all.len() == items@.len(),
                    forall|j: int|
                        0 <= j < items@.len() ==> #[trigger] all[j] == sigma_value_of(
                            items@[j]@,
                            field@,
                        ),
                    ast::value_views(values@) == all.take(i as int),
                decreases items@.len() - i,
            {
                let ghost before = values@;
                values.push(to_sigma_value(&items[i], field));
                assert(ast::value_views(values@) =~= ast::value_views(before).push(all[i as int]));
                assert(all.take(i + 1) =~= all.take(i as int).push(all[i as int]));
                i = i + 1;
            }
            assert(all.take(i as int) =~= all);
        },
        _ => {
            values.push(to_sigma_value(v, field));
            assert(ast::value_views(values@) =~= sigma_values_of(v@, field@));
        },
    }
    values
}

/// Parse a detection item from a key and its value.
pub fn parse_detection_item(key: &str, value: &YamlValue) -> (res: Result<
    DetectionItem,
    SigmaParserError,
>)
    ensures
        parsed(res) == item_of(key@, value@),
{
    match parse_field_spec(key) {
        Err(e) => Err(e),
        Ok(field) => {
            let values: Vec<SigmaValue> = to_sigma_values(value, &field);
            Ok(DetectionItem { field, values })
        },
    }
}

// ---------------------------------------------------------------------------
// Detections
// ---------------------------------------------------------------------------

/// One entry of a mapping: a plain detection item, or an array block.
#[derive(Debug)]
pub enum ParsedEntry {
    Item(DetectionItem),
    Block(Detection),
}

/// What an entry is.
pub enum ParsedEntryView {
    Item(DetectionItemView),
    Block(DetectionView),
}

impl View for ParsedEntry {
    type V = ParsedEntryView;

    open spec fn view(&self) -> ParsedEntryView {
        match self {
            ParsedEntry::Item(i) => ParsedEntryView::Item(i@),
            ParsedEntry::Block(b) => ParsedEntryView::Block(b@),
        }
    }
}

/// The position of the first segment with a quantifier, or the number of segments.
pub open spec fn first_quantified(segments: Seq<PathSegmentView>) -> int
    decreases segments.len(),
{
    if segments.len() == 0 || segments[0].quantifier is Some {
        0
    } else {
        1 + first_quantified(segments.skip(1))
    }
}

/// The dotted names of the segments.
pub open spec fn dotted(segments: Seq<PathSegmentView>) -> Seq<char> {
    text::join(segments.map_values(|s: PathSegmentView| s.name), "."@)
}

/// The text of a key; a key that is no string has none.
pub open spec fn key_name(v: YamlView) -> Seq<char> {
    match yaml::text_of(v) {
        Some(s) => s,
        None => Seq::empty(),
    }
}

pub open spec fn modified_block() -> ParserErrorView {
    ParserErrorView::InvalidFieldSpec(
        "value modifiers cannot be applied to an array object-scope block; move the modifier onto a field inside the block"@,
    )
}

/// The items among the entries, in order.
pub open spec fn items_among(entries: Seq<ParsedEntryView>) -> Seq<DetectionItemView>
    decreases entries.len(),
{
    if entries.len() == 0 {
        Seq::empty()
    } else {
        match entries.last() {
            ParsedEntryView::Item(i) => items_among(entries.drop_last()).push(i),
            _ => items_among(entries.drop_last()),
        }
    }
}

/// The blocks among the entries, in order.
pub open spec fn blocks_among(entries: Seq<ParsedEntryView>) -> Seq<DetectionView>
    decreases entries.len(),
{
    if entries.len() == 0 {
        Seq::empty()
    } else {
        match entries.last() {
            ParsedEntryView::Block(b) => blocks_among(entries.drop_last()).push(b),
            _ => blocks_among(entries.drop_last()),
        }
    }
}

/// The conjunction of items and array blocks.
pub open spec fn linked(items: Seq<DetectionItemView>, blocks: Seq<DetectionView>) -> DetectionView {
    if blocks.len() == 0 {
        DetectionView::AllOf(items)
    } else if items.len() == 0 && blocks.len() == 1 {
        blocks[0]
    } else if items.len() == 0 {
        DetectionView::And(blocks)
    } else {
        DetectionView::And(seq![DetectionView::AllOf(items)] + blocks)
    }
}

/// A list of plain values.
pub open spec fn all_plain(items: Seq<YamlView>) -> bool {
    forall|i: int| 0 <= i < items.len() ==> yaml::plain(#[trigger] items[i])
}

/// Keywords to match as they are given.
pub open spec fn keywords(items: Seq<YamlView>) -> DetectionView {
    DetectionView::Keywords(items.map_values(|v: YamlView| SigmaValueView::Yaml(v)))
}

/// A detection: a mapping links its entries by AND, a list of plain values is a
/// list of keywords, another list links its members by OR, and any other value is
/// a keyword.
pub open spec fn detection_of(v: YamlView) -> Result<DetectionView, ParserErrorView>
    decreases v, 0nat, 0nat,
{
    match v {
        YamlView::Mapping(m) => match outcome::collect(entry_results(m)) {
            Err(e) => Err(e),
            Ok(entries) => Ok(linked(items_among(entries), blocks_among(entries))),
        },
        YamlView::Sequence(items) => if all_plain(items) {
            Ok(keywords(items))
        } else {
            match outcome::collect(detection_results(items)) {
                Err(e) => Err(e),
                Ok(subs) => Ok(DetectionView::AnyOf(subs)),
            }
        },
        _ => Ok(keywords(seq![v])),
    }
}

/// What each value is as a detection.
pub open spec fn detection_results(items: Seq<YamlView>) -> Seq<
    Result<DetectionView, ParserErrorView>,
>
    decreases items, 0nat, 0nat,
{
    if items.len() == 0 {
        Seq::empty()
    } else {
        detection_results(items.drop_last()).push(detection_of(items.last()))
    }
}

/// What each entry of a mapping is.
pub open spec fn entry_results(m: Seq<(YamlView, YamlView)>) -> Seq<
    Result<ParsedEntryView, ParserErrorView>,
>
    decreases m, 0nat, 0nat,
{
    if m.len() == 0 {
        Seq::empty()
    } else {
        entry_results(m.drop_last()).push(entry_of(key_name(m.last().0), m.last().1))
    }
}

/// One entry of a mapping. A key without a field is an item; another goes by the
/// quantifiers of its path.
pub open spec fn entry_of(key: Seq<char>, v: YamlView) -> Result<ParsedEntryView, ParserErrorView>
    decreases v, 2nat, 0nat,
{
    if field_part(key).len() == 0 {
        match item_of(key, v) {
            Err(e) => Err(e),
            Ok(item) => Ok(ParsedEntryView::Item(item)),
        }
    } else {
        match path_of(field_part(key)) {
            Err(e) => Err(e),
            Ok(segments) => entry_at(segments, modifier_part(key), v),
        }
    }
}

/// The entry at a path: an item, or, from the first quantifier on, a block over the
/// members of the array that lies there.
pub open spec fn entry_at(
    segments: Seq<PathSegmentView>,
    modifiers: Option<Seq<char>>,
    v: YamlView,
) -> Result<ParsedEntryView, ParserErrorView>
    decreases v, 1nat, 2 * segments.len(),
{
    let n = first_quantified(segments);
    if 0 <= n < segments.len() {
        match block_body(segments.skip(n + 1), modifiers, v) {
            Err(e) => Err(e),
            Ok(body) => Ok(
                ParsedEntryView::Block(
                    DetectionView::ArrayMatch {
                        field: dotted(segments.take(n + 1)),
                        quantifier: segments[n].quantifier->0,
                        body: Box::new(body),
                    },
                ),
            ),
        }
    } else {
        match item_of(key_text(segments, modifiers), v) {
            Err(e) => Err(e),
            Ok(item) => Ok(ParsedEntryView::Item(item)),
        }
    }
}

/// What each member of an array is matched against: the mapping given, the values
/// given, or the entry at the rest of the path.
pub open spec fn block_body(
    rest: Seq<PathSegmentView>,
    modifiers: Option<Seq<char>>,
    v: YamlView,
) -> Result<DetectionView, ParserErrorView>
    decreases v, 1nat, 2 * rest.len() + 1,
{
    if rest.len() == 0 {
        if v is Mapping {
            if modifiers is Some {
                Err(modified_block())
            } else {
                detection_of(v)
            }
        } else {
            match modifiers_of(modifiers) {
                Err(e) => Err(e),
                Ok(chain) => Ok(member_item(chain, v)),
            }
        }
    } else {
        match entry_at(rest, modifiers, v) {
            Err(e) => Err(e),
            Ok(ParsedEntryView::Item(item)) => Ok(DetectionView::AllOf(seq![item])),
            Ok(ParsedEntryView::Block(block)) => Ok(block),
        }
    }
}

/// The member itself against the values.
pub open spec fn member_item(modifiers: Seq<Modifier>, v: YamlView) -> DetectionView {
    let field = FieldSpecView { name: None, modifiers };
    DetectionView::AllOf(seq![DetectionItemView { field, values: sigma_values_of(v, field) }])
}

pub proof fn lemma_first_quantified(segments: Seq<PathSegmentView>)
    ensures
        0 <= first_quantified(segments) <= segments.len(),
    decreases segments.len(),
{
    if segments.len() > 0 {
        lemma_first_quantified(segments.skip(1));
    }
}

pub proof fn lemma_detection_results(items: Seq<YamlView>)
    ensures
        detection_results(items).len() == items.len(),
        forall|i: int|
            0 <= i < items.len() ==> #[trigger] detection_results(items)[i] == detection_of(
                items[i],
            ),
    decreases items.len(),
{
    if items.len() > 0 {
        lemma_detection_results(items.drop_last());
    }
}

pub proof fn lemma_entry_results(m: Seq<(YamlView, YamlView)>)
    ensures
        entry_results(m).len() == m.len(),
        forall|i: int|
            0 <= i < m.len() ==> #[trigger] entry_results(m)[i] == entry_of(
                key_name(m[i].0),
                m[i].1,
            ),
    decreases m.len(),
{
    if m.len() > 0 {
        lemma_entry_results(m.drop_last());
    }
}

/// A key is its field part and its modifier part.
pub proof fn lemma_key_parts(key: Seq<char>)
    ensures
        !field_part(key).contains('|'),
        key == match modifier_part(key) {
            Some(m) => field_part(key) + "|"@ + m,
            None => field_part(key),
        },
{
    reveal_strlit("|");
    text::lemma_find(key, '|');
    let k = text::find(key, '|');
    if k < key.len() {
        assert(key =~= key.take(k) + "|"@ + key.skip(k + 1));
    } else {
        assert(key.take(k) =~= key);
    }
}

/// The parts of a key that was put together from a path and modifiers.
pub proof fn lemma_key_cut(path: Seq<char>, modifiers: Option<Seq<char>>)
    requires
        !path.contains('|'),
    ensures
        ({
            let key = match modifiers {
                Some(m) => path + "|"@ + m,
                None => path,
            };
            field_part(key) == path && modifier_part(key) == modifiers
        }),
{
    reveal_strlit("|");
    let key = match modifiers {
        Some(m) => path + "|"@ + m,
        None => path,
    };
    let k = path.len() as int;
    assert forall|i: int| 0 <= i < k implies key[i] != '|' by {
        assert(key[i] == path[i]);
        assert(path.contains(path[i]));
    }
    text::lemma_find_unique(key, '|', k);
    assert(key.take(k) =~= path);
    if let Some(m) = modifiers {
        assert(key.skip(k + 1) =~= m);
    }
}

/// Segments that are the whole or the rest of some path without a `|`.
pub open spec fn written_path(segments: Seq<PathSegmentView>) -> bool {
    &&& path_of(path_text(segments)) == Ok::<Seq<PathSegmentView>, ParserErrorView>(segments)
    &&& !path_text(segments).contains('|')
}

/// A key put together from the rest of a path stands for the entry at that rest.
proof fn lemma_entry_again(
    segments: Seq<PathSegmentView>,
    modifiers: Option<Seq<char>>,
    v: YamlView,
)
    requires
        written_path(segments),
    ensures
        entry_of(key_text(segments, modifiers), v) == entry_at(segments, modifiers, v),
{
    let path = path_text(segments);
    lemma_key_cut(path, modifiers);
    if path.len() == 0 {
        lemma_path_text(path, segments);
        let raws = text::split(path, '.');
        text::lemma_find(path, '.');
        assert(raws =~= seq![path]);
        lemma_segment_text(path, path);
        let all = segment_results(path);
        assert(all.take(all.len() as int) =~= all);
        lemma_path_parts(path, all.len() as int);
        assert(segments.len() == 1);
        assert(!has_selector(path));
        assert(segments[0].quantifier is None);
        lemma_first_quantified(segments);
        lemma_first_quantified(segments.skip(1));
    }
}

/// The rest of a written path is a written path, and shorter.
proof fn lemma_written_rest(segments: Seq<PathSegmentView>, n: int)
    requires
        written_path(segments),
        0 < n < segments.len(),
    ensures
        written_path(segments.skip(n)),
        path_text(segments.skip(n)).len() < path_text(segments).len(),
{
    reveal_strlit(".");
    let path = path_text(segments);
    lemma_path_rest(path, segments, n);
    let texts = segment_texts(segments);
    text::lemma_join_parts(texts, n, "."@);
    assert(segment_texts(segments.skip(n)) =~= texts.skip(n));
    let rest = path_text(segments.skip(n));
    let lead = text::join(texts.take(n), "."@);
    assert forall|i: int| 0 <= i < rest.len() implies rest[i] != '|' by {
        assert(path[lead.len() + 1 + i] == rest[i]);
        assert(path.contains(path[lead.len() + 1 + i]));
    }
}

/// Where the first quantifier stands.
fn find_quantified(segments: &[PathSegment]) -> (res: usize)
    ensures
        res == first_quantified(segment_views(segments@)),
        res <= segments@.len(),
        res < segments@.len() ==> segments@[res as int].quantifier is Some,
{
    let ghost all = segment_views(segments@);
    let mut i: usize = 0;
    assert(all.skip(0) =~= all);
    while i < segments.len()
        invariant
            0 <= i <= segments@.len(),
            all == segment_views(segments@),
            first_quantified(all) == i + first_quantified(all.skip(i as int)),
        decreases segments@.len() - i,
    {
        assert(all.skip(i as int)[0] == segments@[i as int]@);
        if segments[i].quantifier.is_some() {
            return i;
        }
        assert(all.skip(i as int).skip(1) =~= all.skip(i + 1));
        i = i + 1;
    }
    assert(all.skip(i as int) =~= Seq::<PathSegmentView>::empty());
    i
}

/// The names of the segments, dotted.
fn dotted_names(segments: &[PathSegment]) -> (res: String)
    ensures
        res@ == dotted(segment_views(segments@)),
{
    let ghost all = segment_views(segments@).map_values(|s: PathSegmentView| s.name);
    let mut names: Vec<String> = Vec::new();
    let mut i: usize = 0;
    while i < segments.len()
        invariant
            0 <= i <= segments@.len(),
            all == segment_views(segments@).map_values(|s: PathSegmentView| s.name),
            text::texts(names@) == all.take(i as int),
        decreases segments@.len() - i,
    {
        let ghost before = names@;
        names.push(segments[i].name.clone());
        assert(text::texts(names@) =~= text::texts(before).push(all[i as int]));
        assert(all.take(i + 1) =~= all.take(i as int).push(all[i as int]));
        i = i + 1;
    }
    assert(all.take(i as int) =~= all);
    text::join_strings(&names, ".")
}

/// Whether no value is a mapping or a sequence.
fn only_plain(items: &Vec<YamlValue>) -> (res: bool)
    ensures
        res == all_plain(yaml::yaml_views(items@)),
{
    proof {
        yaml::lemma_yaml_views(items@);
    }
    let mut i: usize = 0;
    while i < items.len()
        invariant
            0 <= i <= items@.len(),
            yaml::yaml_views(items@).len() == items@.len(),
            forall|j: int|
                0 <= j < items@.len() ==> #[trigger] yaml::yaml_views(items@)[j] == items@[j]@,
            forall|j: int| 0 <= j < i ==> yaml::plain(#[trigger] yaml::yaml_views(items@)[j]),
        decreases items@.len() - i,
    {
        assert(yaml::yaml_views(items@)[i as int] == items@[i as int]@);
        if !items[i].is_plain() {
            return false;
        }
        i = i + 1;
    }
    true
}

/// Keywords to match as they are given.
fn keyword_values(items: &Vec<YamlValue>) -> (res: Vec<SigmaValue>)
    ensures
        DetectionView::Keywords(ast::value_views(res@)) == keywords(yaml::yaml_views(items@)),
{
    proof {
        yaml::lemma_yaml_views(items@);
    }
    let ghost all = yaml::yaml_views(items@).map_values(|v: YamlView| SigmaValueView::Yaml(v));
    let mut values: Vec<SigmaValue> = Vec::new();
    let mut i: usize = 0;
    while i < items.len()
        invariant
            0 <= i <= items@.len(),
            all.len() == items@.len(),
            forall|j: int|
                0 <= j < items@.len() ==> #[trigger] all[j] == SigmaValueView::Yaml(items@[j]@),
            ast::value_views(values@) == all.take(i as int),
        decreases items@.len() - i,
    {
        let ghost before = values@;
        values.push(SigmaValue::Yaml(items[i].duplicate()));
        assert(ast::value_views(values@) =~= ast::value_views(before).push(all[i as int]));
        assert(all.take(i + 1) =~= all.take(i as int).push(all[i as int]));
        i = i + 1;
    }
    assert(all.take(i as int) =~= all);
    values
}

/// The text of a key; a key that is no string has none.
pub fn key_string(v: &YamlValue) -> (res: String)
    ensures
        res@ == key_name(v@),
{
    match v.as_str() {
        Some(s) => s.clone(),
        None => String::new(),
    }
}

proof fn lemma_detection_views(subs: Seq<Detection>)
    ensures
        ast::detection_views(subs).len() == subs.len(),
        forall|i: int| 0 <= i < subs.len() ==> #[trigger] ast::detection_views(subs)[i] == subs[i]@,
    decreases subs.len(),
{
    if subs.len() > 0 {
        lemma_detection_views(subs.drop_last());
    }
}

/// The conjunction of items and array blocks.
fn link(items: Vec<DetectionItem>, blocks: Vec<Detection>) -> (res: Detection)
    ensures
        res@ == linked(ast::item_views(items@), ast::detection_views(blocks@)),
{
    let ghost all = blocks@;
    proof {
        lemma_detection_views(all);
    }
    if blocks.len() == 0 {
        return Detection::AllOf(items);
    }
    let mut rest: Vec<Detection> = blocks;
    if items.len() == 0 {
        if rest.len() == 1 {
            return rest.remove(0);
        }
        return Detection::And(rest);
    }
    let ghost first = DetectionView::AllOf(ast::item_views(items@));
    let mut parts: Vec<Detection> = Vec::new();
    parts.push(Detection::AllOf(items));
    let ghost front = parts@;
    parts.append(&mut rest);
    proof {
        lemma_detection_views(parts@);
        assert(parts@ =~= front + all);
        assert(ast::detection_views(parts@) =~= seq![first] + ast::detection_views(all)) by {
            assert forall|i: int| 0 <= i < parts@.len() implies ast::detection_views(parts@)[i] == (
            seq![first] + ast::detection_views(all))[i] by {
                assert(ast::detection_views(parts@)[i] == parts@[i]@);
                if i > 0 {
                    assert(parts@[i] == all[i - 1]);
                }
            }
        }
    }
    Detection::And(parts)
}

/// Parse a named detection: a mapping whose entries are linked by AND, a list of
/// plain values (keywords), or a list of detections linked by OR.
pub fn parse_detection(value: &YamlValue) -> (res: Result<Detection, SigmaParserError>)
    ensures
        parsed(res) == detection_of(value@),
    decreases value, 0nat, 0nat,
{
    match value {
        YamlValue::Mapping(m) => {
            let ghost entries = yaml::entry_views(m@);
            let ghost all = entry_results(entries);
            proof {
                yaml::lemma_entry_views(m@);
                lemma_entry_results(entries);
            }
            let mut items: Vec<DetectionItem> = Vec::new();
            let mut blocks: Vec<Detection> = Vec::new();
            let ghost mut seen: Seq<ParsedEntryView> = Seq::empty();
            let mut i: usize = 0;
            assert(all.take(0) =~= Seq::empty());
            assert(ast::item_views(items@) =~= Seq::empty());
            while i < m.len()
                invariant
                    0 <= i <= m@.len(),
                    decreases_to!(*value => m@),
                    value@ == YamlView::Mapping(entries),
                    all == entry_results(entries),
                    all.len() == m@.len(),
                    entries.len() == m@.len(),
                    forall|j: int|
                        0 <= j < m@.len() ==> #[trigger] entries[j] == (m@[j].0@, m@[j].1@),
                    forall|j: int|
                        0 <= j < m@.len() ==> #[trigger] all[j] == entry_of(
                            key_name(entries[j].0),
                            entries[j].1,
                        ),
                    outcome::collect(all.take(i as int)) == Ok::<_, ParserErrorView>(seen),
                    ast::item_views(items@) == items_among(seen),
                    ast::detection_views(blocks@) == blocks_among(seen),
                decreases m@.len() - i,
            {
                assert(decreases_to!(m@ => m@[i as int]));
                assert(entries[i as int] == (m@[i as int].0@, m@[i as int].1@));
                proof {
                    outcome::lemma_collect_push(all.take(i as int), all[i as int]);
                    assert(all.take(i + 1) =~= all.take(i as int).push(all[i as int]));
                }
                let key: String = key_string(&m[i].0);
                match parse_map_entry(key.as_str(), &m[i].1) {
                    Err(e) => {
                        proof {
                            outcome::lemma_collect_stops(all, i + 1);
                        }
                        return Err(e);
                    },
                    Ok(entry) => {
                        let ghost before = seen;
                        proof {
                            seen = seen.push(entry@);
                            assert(seen.drop_last() =~= before);
                        }
                        match entry {
                            ParsedEntry::Item(item) => {
                                let ghost earlier = items@;
                                items.push(item);
                                assert(ast::item_views(items@) =~= ast::item_views(earlier).push(
                                    item@,
                                ));
                            },
                            ParsedEntry::Block(block) => {
                                let ghost earlier = blocks@;
                                blocks.push(block);
                                assert(blocks@.drop_last() =~= earlier);
                            },
                        }
                    },
                }
                i = i + 1;
            }
            assert(all.take(i as int) =~= all);
            Ok(link(items, blocks))
        },
        YamlValue::Sequence(seq) => {
            if only_plain(seq) {
                return Ok(Detection::Keywords(keyword_values(seq)));
            }
            let ghost views = yaml::yaml_views(seq@);
            let ghost all = detection_results(views);
            proof {
                yaml::lemma_yaml_views(seq@);
                lemma_detection_results(views);
            }
            let mut subs: Vec<Detection> = Vec::new();
            let mut i: usize = 0;
            assert(all.take(0) =~= Seq::empty());
            while i < seq.len()
                invariant
                    0 <= i <= seq@.len(),
                    decreases_to!(*value => seq@),
                    value@ == YamlView::Sequence(views),
                    !all_plain(views),
                    all == detection_results(views),
                    all.len() == seq@.len(),
                    views.len() == seq@.len(),
                    forall|j: int| 0 <= j < seq@.len() ==> #[trigger] views[j] == seq@[j]@,
                    forall|j: int|
                        0 <= j < seq@.len() ==> #[trigger] all[j] == detection_of(views[j]),
                    outcome::collect(all.take(i as int)) == Ok::<_, ParserErrorView>(
                        ast::detection_views(subs@),
                    ),
                decreases seq@.len() - i,
            {
                assert(views[i as int] == seq@[i as int]@);
                proof {
                    outcome::lemma_collect_push(all.take(i as int), all[i as int]);
                    assert(all.take(i + 1) =~= all.take(i as int).push(all[i as int]));
                }
                match parse_detection(&seq[i]) {
                    Err(e) => {
                        proof {
                            outcome::lemma_collect_stops(all, i + 1);
                        }
                        return Err(e);
                    },
                    Ok(sub) => {
                        let ghost earlier = subs@;
                        subs.push(sub);
                        assert(subs@.drop_last() =~= earlier);
                    },
                }
                i = i + 1;
            }
            assert(all.take(i as int) =~= all);
            Ok(Detection::AnyOf(subs))
        },
        _ => {
            let mut values: Vec<SigmaValue> = Vec::new();
            values.push(SigmaValue::Yaml(value.duplicate()));
            assert(DetectionView::Keywords(ast::value_views(values@)) == keywords(seq![value@])) by {
                assert(ast::value_views(values@) =~= seq![value@].map_values(
                    |v: YamlView| SigmaValueView::Yaml(v),
                ));
            }
            Ok(Detection::Keywords(values))
        },
    }
}

/// Parse one entry of a mapping. The first array quantifier of the key opens a
/// block over the members of the array at the path up to it.
pub fn parse_map_entry(key: &str, value: &YamlValue) -> (res: Result<ParsedEntry, SigmaParserError>)
    ensures
        parsed(res) == entry_of(key@, value@),
    decreases value, 1nat, 2 * key@.len(),
{
    let (field, modifiers) = cut_key(key);
    let chars: Vec<char> = text::chars_of(field.as_str());
    if chars.len() == 0 {
        return match parse_detection_item(key, value) {
            Err(e) => Err(e),
            Ok(item) => Ok(ParsedEntry::Item(item)),
        };
    }
    let segments: Vec<PathSegment> = match parse_field_path(field.as_str()) {
        Ok(segments) => segments,
        Err(e) => {
            return Err(e);
        },
    };
    let ghost views = segment_views(segments@);
    let ghost chain = modifier_part(key@);
    proof {
        lemma_path_text(field@, views);
        lemma_key_parts(key@);
        assert(key@ == key_text(views, chain));
        assert(written_path(views));
    }
    let n: usize = find_quantified(&segments);
    if n == segments.len() {
        return match parse_detection_item(key, value) {
            Err(e) => Err(e),
            Ok(item) => Ok(ParsedEntry::Item(item)),
        };
    }
    let head: &[PathSegment] = &segments[0..n + 1];
    let rest: &[PathSegment] = &segments[n + 1..segments.len()];
    proof {
        assert(segment_views(head@) =~= views.take(n + 1));
        assert(segment_views(rest@) =~= views.skip(n + 1));
        reveal_strlit("|");
        if rest@.len() > 0 {
            lemma_written_rest(views, n + 1);
        } else {
            assert(segment_texts(views.skip(n + 1)) =~= Seq::empty());
            assert(path_text(views.skip(n + 1)).len() == 0);
        }
        assert(key_text(segment_views(rest@), chain).len() < key@.len());
    }
    match build_block_body(rest, borrowed(&modifiers), value) {
        Err(e) => Err(e),
        Ok(body) => Ok(
            ParsedEntry::Block(
                Detection::ArrayMatch {
                    field: dotted_names(head),
                    quantifier: segments[n].quantifier.unwrap(),
                    body: Box::new(body),
                },
            ),
        ),
    }
}

/// Build the detection that each member of an array is matched against.
fn build_block_body(
    remaining: &[PathSegment],
    modifier_part: Option<&str>,
    value: &YamlValue,
) -> (res: Result<Detection, SigmaParserError>)
    requires
        remaining@.len() > 0 ==> written_path(segment_views(remaining@)),
    ensures
        parsed(res) == block_body(segment_views(remaining@), opt_str(modifier_part), value@),
    decreases
            value,
            1nat,
            2 * key_text(segment_views(remaining@), opt_str(modifier_part)).len() + 1,
{
    if remaining.len() == 0 {
        if let YamlValue::Mapping(_) = value {
            if modifier_part.is_some() {
                return Err(
                    SigmaParserError::InvalidFieldSpec(
                        "value modifiers cannot be applied to an array object-scope block; move the modifier onto a field inside the block".to_owned(),
                    ),
                );
            }
            return parse_detection(value);
        }
        match parse_modifiers(modifier_part) {
            Err(e) => Err(e),
            Ok(modifiers) => {
                let field: FieldSpec = FieldSpec::new(None, modifiers);
                let values: Vec<SigmaValue> = to_sigma_values(value, &field);
                let item: DetectionItem = DetectionItem { field, values };
                let mut items: Vec<DetectionItem> = Vec::new();
                items.push(item);
                assert(ast::item_views(items@) =~= seq![item@]);
                Ok(Detection::AllOf(items))
            },
        }
    } else {
        let remaining_key: String = reconstruct_key(remaining, modifier_part);
        proof {
            lemma_entry_again(segment_views(remaining@), opt_str(modifier_part), value@);
        }
        match parse_map_entry(remaining_key.as_str(), value) {
            Err(e) => Err(e),
            Ok(ParsedEntry::Item(item)) => {
                let mut items: Vec<DetectionItem> = Vec::new();
                items.push(item);
                assert(ast::item_views(items@) =~= seq![item@]);
                Ok(Detection::AllOf(items))
            },
            Ok(ParsedEntry::Block(block)) => Ok(block),
        }
    }
}

/// A key whose path has no quantifier is a plain item, with the key as it stands.
pub proof fn lemma_plain_key_unchanged(key: Seq<char>, v: YamlView, segments: Seq<PathSegmentView>)
    requires
        path_of(field_part(key)) == Ok::<Seq<PathSegmentView>, ParserErrorView>(segments),
        forall|i: int| 0 <= i < segments.len() ==> (#[trigger] segments[i]).quantifier is None,
    ensures
        entry_of(key, v) == match item_of(key, v) {
            Ok(item) => Ok(ParsedEntryView::Item(item)),
            Err(e) => Err(e),
        },
{
    lemma_path_text(field_part(key), segments);
    lemma_key_parts(key);
    assert(key == key_text(segments, modifier_part(key)));
    lemma_none_quantified(segments);
}

proof fn lemma_none_quantified(segments: Seq<PathSegmentView>)
    requires
        forall|i: int| 0 <= i < segments.len() ==> (#[trigger] segments[i]).quantifier is None,
    ensures
        first_quantified(segments) == segments.len(),
    decreases segments.len(),
{
    if segments.len() > 0 {
        assert(segments[0].quantifier is None);
        assert forall|i: int| 0 <= i < segments.skip(1).len() implies (
        #[trigger] segments.skip(1)[i]).quantifier is None by {
            assert(segments.skip(1)[i] == segments[i + 1]);
        }
        lemma_none_quantified(segments.skip(1));
    }
}

} // verus!
