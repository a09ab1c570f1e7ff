//! The positive substring needles of compiled rules.

use crate::matcher::CompiledDetection;
use crate::matcher::CompiledDetectionItem;
use crate::matcher::CompiledMatcher;
use crate::matcher::CompiledRule;
use crate::text;
use vstd::prelude::*;

verus! {

/// A needle as it is indexed: in lower case; an empty one is not.
pub open spec fn indexed_needle(needle: Seq<char>) -> Seq<Seq<char>> {
    if needle.len() == 0 {
        Seq::empty()
    } else {
        seq![text::ascii_lower(needle)]
    }
}

/// The needles of a list.
pub open spec fn indexed_needles(needles: Seq<String>) -> Seq<Seq<char>>
    decreases needles.len(),
{
    if needles.len() == 0 {
        Seq::empty()
    } else {
        indexed_needles(needles.drop_last()) + indexed_needle(needles.last()@)
    }
}

/// The positive substring needles of a matcher. A negated matcher has none: the
/// index shows that a pattern is there, never that it is not.
pub open spec fn needles_of(m: CompiledMatcher) -> Seq<Seq<char>>
    decreases m,
{
    match m {
        CompiledMatcher::Contains { value, .. } => indexed_needle(value@),
        CompiledMatcher::StartsWith { value, .. } => indexed_needle(value@),
        CompiledMatcher::EndsWith { value, .. } => indexed_needle(value@),
        CompiledMatcher::AhoCorasickSet { needles, .. } => indexed_needles(needles@),
        CompiledMatcher::AnyOf(children) => needles_of_all(children@),
        CompiledMatcher::AllOf(children) => needles_of_all(children@),
        CompiledMatcher::CaseInsensitiveGroup { children, .. } => needles_of_all(children@),
        _ => Seq::empty(),
    }
}

/// The needles of all the matchers.
pub open spec fn needles_of_all(children: Seq<CompiledMatcher>) -> Seq<Seq<char>>
    decreases children,
{
    if children.len() == 0 {
        Seq::empty()
    } else {
        needles_of_all(children.drop_last()) + needles_of(children.last())
    }
}

/// A needle on a field, of a rule.
#[verifier::ext_equal]
pub struct NeedleView {
    pub field: Seq<char>,
    pub needle: Seq<char>,
    pub rule: u32,
}

/// Needles on a field, of a rule.
pub open spec fn on_field(needles: Seq<Seq<char>>, field: Seq<char>, rule: u32) -> Seq<NeedleView> {
    needles.map_values(|needle: Seq<char>| NeedleView { field, needle, rule })
}

/// The needles of the items.
pub open spec fn item_needles(items: Seq<CompiledDetectionItem>, rule: u32) -> Seq<NeedleView>
    decreases items.len(),
{
    if items.len() == 0 {
        Seq::empty()
    } else {
        item_needles(items.drop_last(), rule) + (match items.last().field {
            Some(field) => on_field(needles_of(items.last().matcher), field@, rule),
            None => Seq::empty(),
        })
    }
}

/// The needles of a detection. Those of array members and of keywords stand on no
/// field of the event.
pub open spec fn detection_needles(d: CompiledDetection, rule: u32) -> Seq<NeedleView>
    decreases d,
{
    match d {
        CompiledDetection::AllOf(items) => item_needles(items@, rule),
        CompiledDetection::AnyOf(subs) => all_detection_needles(subs@, rule),
        CompiledDetection::And(subs) => all_detection_needles(subs@, rule),
        _ => Seq::empty(),
    }
}

/// The needles of all the detections.
pub open spec fn all_detection_needles(subs: Seq<CompiledDetection>, rule: u32) -> Seq<NeedleView>
    decreases subs,
{
    if subs.len() == 0 {
        Seq::empty()
    } else {
        all_detection_needles(subs.drop_last(), rule) + detection_needles(subs.last(), rule)
    }
}

/// The needles of the named detections of a rule.
pub open spec fn named_needles(detections: Seq<(String, CompiledDetection)>, rule: u32) -> Seq<
    NeedleView,
>
    decreases detections.len(),
{
    if detections.len() == 0 {
        Seq::empty()
    } else {
        named_needles(detections.drop_last(), rule) + detection_needles(detections.last().1, rule)
    }
}

/// The number by which the index knows a rule.
pub open spec fn rule_number(i: int) -> u32 {
    if i <= u32::MAX {
        i as u32
    } else {
        u32::MAX
    }
}

/// The needles of all the rules.
pub open spec fn rule_needles(rules: Seq<CompiledRule>) -> Seq<NeedleView>
    decreases rules.len(),
{
    if rules.len() == 0 {
        Seq::empty()
    } else {
        rule_needles(rules.drop_last()) + named_needles(
            rules.last().detections@,
            rule_number(rules.len() - 1),
        )
    }
}

/// A needle on a field, of a rule.
pub struct Needle {
    pub field: Vec<char>,
    pub needle: Vec<char>,
    pub rule: u32,
}

impl View for Needle {
    type V = NeedleView;

    open spec fn view(&self) -> NeedleView {
        NeedleView { field: self.field@, needle: self.needle@, rule: self.rule }
    }
}

/// What the needles are.
pub open spec fn needle_views(needles: Seq<Needle>) -> Seq<NeedleView> {
    needles.map_values(|n: Needle| n@)
}

fn push_needle(out: &mut Vec<Needle>, field: &str, needle: &str, rule: u32)
    ensures
        needle_views(final(out)@) == needle_views(old(out)@) + on_field(
            indexed_needle(needle@),
            field@,
            rule,
        ),
{
    let ghost before = out@;
    let chars: Vec<char> = text::chars_of(needle);
    if chars.len() == 0 {
        assert(needle_views(out@) =~= needle_views(before) + on_field(
            indexed_needle(needle@),
            field@,
            rule,
        ));
        return;
    }
    out.push(Needle { field: text::chars_of(field), needle: text::to_ascii_lower(&chars), rule });
    assert(needle_views(out@) =~= needle_views(before) + on_field(
        indexed_needle(needle@),
        field@,
        rule,
    ));
}

fn extract_from_matcher(m: &CompiledMatcher, field: &str, rule: u32, out: &mut Vec<Needle>)
    ensures
        needle_views(final(out)@) == needle_views(old(out)@) + on_field(
            needles_of(*m),
            field@,
            rule,
        ),
    decreases m,
{
    let ghost before = needle_views(out@);
    match m {
        CompiledMatcher::Contains { value, .. } => push_needle(out, field, value.as_str(), rule),
        CompiledMatcher::StartsWith { value, .. } => push_needle(out, field, value.as_str(), rule),
        CompiledMatcher::EndsWith { value, .. } => push_needle(out, field, value.as_str(), rule),
        CompiledMatcher::AhoCorasickSet { needles, .. } => {
            let mut i: usize = 0;
            assert(needle_views(out@) =~= before + on_field(
                indexed_needles(needles@.take(0)),
                field@,
                rule,
            ));
            while i < needles.len()
                invariant
                    0 <= i <= needles@.len(),
                    needle_views(out@) == before + on_field(
                        indexed_needles(needles@.take(i as int)),
                        field@,
                        rule,
                    ),
                decreases needles@.len() - i,
            {
                push_needle(out, field, needles[i].as_str(), rule);
                assert(needles@.take(i + 1).drop_last() =~= needles@.take(i as int));
                assert(needle_views(out@) =~= before + on_field(
                    indexed_needles(needles@.take(i + 1)),
                    field@,
                    rule,
                ));
                i = i + 1;
            }
            assert(needles@.take(i as int) =~= needles@);
        },
        CompiledMatcher::AnyOf(children) => extract_from_all(children, field, rule, out),
        CompiledMatcher::AllOf(children) => extract_from_all(children, field, rule, out),
        CompiledMatcher::CaseInsensitiveGroup { children, .. } => extract_from_all(
            children,
            field,
            rule,
            out,
        ),
        _ => {
            assert(needle_views(out@) =~= before + on_field(needles_of(*m), field@, rule));
        },
    }
}

fn extract_from_all(
    children: &Vec<CompiledMatcher>,
    field: &str,
    rule: u32,
    out: &mut Vec<Needle>,
)
    ensures
        needle_views(final(out)@) == needle_views(old(out)@) + on_field(
            needles_of_all(children@),
            field@,
            rule,
        ),
    decreases children@,
{
    let ghost before = needle_views(out@);
    let mut i: usize = 0;
    assert(needle_views(out@) =~= before + on_field(
        needles_of_all(children@.take(0)),
        field@,
        rule,
    ));
    while i < children.len()
        invariant
            0 <= i <= children@.len(),
            needle_views(out@) == before + on_field(
                needles_of_all(children@.take(i as int)),
                field@,
                rule,
            ),
        decreases children@.len() - i,
    {
        extract_from_matcher(&children[i], field, rule, out);
        assert(children@.take(i + 1).drop_last() =~= children@.take(i as int));
        assert(needle_views(out@) =~= before + on_field(
            needles_of_all(children@.take(i + 1)),
            field@,
            rule,
        ));
        i = i + 1;
    }
    assert(children@.take(i as int) =~= children@);
}

/// Collect the needles of a detection.
fn collect_rule_needles(detection: &CompiledDetection, rule: u32, out: &mut Vec<Needle>)
    ensures
        needle_views(final(out)@) == needle_views(old(out)@) + detection_needles(*detection, rule),
    decreases detection,
{
    let ghost before = needle_views(out@);
    match detection {
        CompiledDetection::AllOf(items) => {
            let mut i: usize = 0;
            assert(needle_views(out@) =~= before + item_needles(items@.take(0), rule));
            while i < items.len()
                invariant
                    0 <= i <= items@.len(),
                    needle_views(out@) == before + item_needles(items@.take(i as int), rule),
                decreases items@.len() - i,
            {
                if let Some(field) = &items[i].field {
                    extract_from_matcher(&items[i].matcher, field.as_str(), rule, out);
                }
                assert(items@.take(i + 1).drop_last() =~= items@.take(i as int));
                assert(needle_views(out@) =~= before + item_needles(items@.take(i + 1), rule));
                i = i + 1;
            }
            assert(items@.take(i as int) =~= items@);
        },
        CompiledDetection::AnyOf(subs) => collect_from_all(subs, rule, out),
        CompiledDetection::And(subs) => collect_from_all(subs, rule, out),
        _ => {
            assert(needle_views(out@) =~= before + detection_needles(*detection, rule));
        },
    }
}

fn collect_from_all(subs: &Vec<CompiledDetection>, rule: u32, out: &mut Vec<Needle>)
    ensures
        needle_views(final(out)@) == needle_views(old(out)@) + all_detection_needles(subs@, rule),
    decreases subs@,
{
    let ghost before = needle_views(out@);
    let mut i: usize = 0;
    assert(needle_views(out@) =~= before + all_detection_needles(subs@.take(0), rule));
    while i < subs.len()
        invariant
            0 <= i <= subs@.len(),
            needle_views(out@) == before + all_detection_needles(subs@.take(i as int), rule),
        decreases subs@.len() - i,
    {
        collect_rule_needles(&subs[i], rule, out);
        assert(subs@.take(i + 1).drop_last() =~= subs@.take(i as int));
        assert(needle_views(out@) =~= before + all_detection_needles(subs@.take(i + 1), rule));
        i = i + 1;
    }
    assert(subs@.take(i as int) =~= subs@);
}

/// Collect the needles of all the rules.
pub fn collect_needles(rules: &[CompiledRule]) -> (res: Vec<Needle>)
    ensures
        needle_views(res@) == rule_needles(rules@),
{
    let mut out: Vec<Needle> = Vec::new();
    let mut i: usize = 0;
    assert(needle_views(out@) =~= rule_needles(rules@.take(0)));
    while i < rules.len()
        invariant
            0 <= i <= rules@.len(),
            needle_views(out@) == rule_needles(rules@.take(i as int)),
        decreases rules@.len() - i,
    {
        let number: u32 = if i <= 0xffff_ffff {
            i as u32
        } else {
            0xffff_ffff
        };
        let detections: &Vec<(String, CompiledDetection)> = &rules[i].detections;
        let ghost before = needle_views(out@);
        let mut j: usize = 0;
        assert(needle_views(out@) =~= before + named_needles(detections@.take(0), number));
        while j < detections.len()
            invariant
                0 <= j <= detections@.len(),
                needle_views(out@) == before + named_needles(detections@.take(j as int), number),
            decreases detections@.len() - j,
        {
            collect_rule_needles(&detections[j].1, number, &mut out);
            assert(detections@.take(j + 1).drop_last() =~= detections@.take(j as int));
            assert(needle_views(out@) =~= before + named_needles(
                detections@.take(j + 1),
                number,
            ));
            j = j + 1;
        }
        assert(detections@.take(j as int) =~= detections@);
        assert(rules@.take(i + 1).drop_last() =~= rules@.take(i as int));
        i = i + 1;
    }
    assert(rules@.take(i as int) =~= rules@);
    out
}

} // verus!
