//! An index over the substring patterns of all rules.
//!
//! For each event field one automaton holds the positive substring needles of every
//! rule on that field. A scan of an event marks the rules of which some needle
//! occurs. A rule that cannot fire unless one of its needles occurs (see
//! [`crate::pruning::rule_is_ac_prunable`]) need not be evaluated when it is not
//! marked.

use crate::grouping::FieldGroup;
use crate::grouping::FieldView;
use crate::grouping;
use crate::matcher::CompiledRule;
use crate::matcher::EventValue;
use crate::matcher;
use crate::needles::Needle;
use crate::needles::NeedleView;
use crate::needles;
use crate::order;
use crate::substring;
use crate::text;
use daachorse::errors::DaachorseError;
use daachorse::DoubleArrayAhoCorasick;
use vstd::prelude::*;
use vstd::utf8;

verus! {

/// The most patterns that are indexed for one field. A field with more gets no
/// automaton, and the rules on it are kept for evaluation.
pub const MAX_PATTERNS_PER_FIELD: usize = 100_000;

// ---------------------------------------------------------------------------
// The automaton
// ---------------------------------------------------------------------------

/// The double-array Aho-Corasick automaton of `daachorse`.
#[verifier::external_type_specification]
#[verifier::external_body]
#[verifier::reject_recursive_types(V)]
pub struct ExDoubleArrayAhoCorasick<V>(DoubleArrayAhoCorasick<V>);

/// The error of `daachorse`.
#[verifier::external_type_specification]
#[verifier::external_body]
pub struct ExDaachorseError(DaachorseError);

/// The patterns that an automaton was built from, in order.
pub uninterp spec fn automaton_patterns(a: DoubleArrayAhoCorasick<u32>) -> Seq<Seq<u8>>;

/// The automaton finds matches of the standard kind, and gives for each the position
/// of its pattern.
pub uninterp spec fn automaton_standard(a: DoubleArrayAhoCorasick<u32>) -> bool;

/// `daachorse::DoubleArrayAhoCorasick::new` builds an automaton from these patterns.
pub uninterp spec fn automaton_builds(patterns: Seq<Seq<u8>>) -> bool;

/// The patterns in bytes.
pub open spec fn pattern_bytes(patterns: Seq<String>) -> Seq<Seq<u8>> {
    patterns.map_values(|p: String| utf8::encode_utf8(p@))
}

/// The bytes of the texts.
pub open spec fn text_bytes(patterns: Seq<Seq<char>>) -> Seq<Seq<u8>> {
    patterns.map_values(|p: Seq<char>| utf8::encode_utf8(p))
}

/// How many bytes the patterns have together.
pub open spec fn total_bytes(patterns: Seq<Seq<u8>>) -> nat
    decreases patterns.len(),
{
    if patterns.len() == 0 {
        0
    } else {
        total_bytes(patterns.drop_last()) + patterns.last().len()
    }
}

/// So many bytes of patterns always make an automaton.
pub const SAFE_PATTERN_BYTES: usize = 0x80_0000;

/// Calls `daachorse::DoubleArrayAhoCorasick::new`. The automaton is of the standard
/// match kind, holds the bytes of the patterns, and gives for a match the position
/// of its pattern. Whether the call succeeds depends on the bytes of the patterns
/// alone, and is named. It fails only if there are more than 2^24 - 1 patterns, if
/// a pattern has 2^32 bytes or more, or if the automaton grows beyond 2^32 elements;
/// it has at most one state for each byte of the patterns and a root, and each state
/// takes up at most one further block of 256 elements.
#[verifier::external_body]
fn new_automaton(patterns: &Vec<String>) -> (res: Result<
    DoubleArrayAhoCorasick<u32>,
    DaachorseError,
>)
    ensures
        res is Ok <==> automaton_builds(pattern_bytes(patterns@)),
        match res {
            Ok(a) => automaton_patterns(a) == pattern_bytes(patterns@) && automaton_standard(a),
            Err(_) => patterns@.len() > 0xff_ffff || total_bytes(pattern_bytes(patterns@))
                > SAFE_PATTERN_BYTES,
        },
{
    DoubleArrayAhoCorasick::<u32>::new(patterns)
}

/// The positions of the patterns that occur in `hay`, each once or more.
pub open spec fn are_matches(ids: Seq<u32>, patterns: Seq<Seq<u8>>, hay: Seq<u8>) -> bool {
    forall|id: u32| #[trigger]
        ids.contains(id) <==> (id < patterns.len() && substring::occurs(patterns[id as int], hay))
}

/// Calls `daachorse::DoubleArrayAhoCorasick::find_overlapping_iter` on the bytes of
/// `hay`, which panics if the automaton is not of the standard match kind, and takes
/// the value of each match. A pattern is among the matches if and only if its bytes
/// occur in those of `hay`.
#[verifier::external_body]
fn overlapping_patterns(a: &DoubleArrayAhoCorasick<u32>, hay: &str) -> (res: Vec<u32>)
    requires
        automaton_standard(*a),
    ensures
        are_matches(res@, automaton_patterns(*a), utf8::encode_utf8(hay@)),
{
    a.find_overlapping_iter(hay.as_bytes()).map(|m| m.value()).collect()
}

// ---------------------------------------------------------------------------
// The index
// ---------------------------------------------------------------------------

/// The automaton of a field, and for each pattern the rules that own it.
struct FieldAc {
    automaton: DoubleArrayAhoCorasick<u32>,
    pattern_to_rules: Vec<Vec<u32>>,
}

/// The index: for each indexed field its automaton, and the rules with needles on
/// fields that are not indexed.
pub struct CrossRuleAcIndex {
    per_field: Vec<(String, FieldAc)>,
    kept: Vec<u32>,
    rule_count: usize,
}

/// What an index is.
#[verifier::ext_equal]
pub struct IndexView {
    pub fields: Seq<FieldView>,
    pub kept: Seq<u32>,
    pub rule_count: nat,
}

spec fn field_view(f: (String, FieldAc)) -> FieldView {
    FieldView {
        field: f.0@,
        patterns: automaton_patterns(f.1.automaton).map_values(|b: Seq<u8>| utf8::decode_utf8(b)),
        rules: grouping::rule_lists(f.1.pattern_to_rules@),
    }
}

spec fn field_valid(f: (String, FieldAc)) -> bool {
    &&& automaton_standard(f.1.automaton)
    &&& f.1.pattern_to_rules@.len() <= MAX_PATTERNS_PER_FIELD
    &&& automaton_patterns(f.1.automaton).len() == f.1.pattern_to_rules@.len()
    &&& forall|p: int|
        0 <= p < f.1.pattern_to_rules@.len() ==> utf8::valid_utf8(
            #[trigger] automaton_patterns(f.1.automaton)[p],
        )
}

impl View for CrossRuleAcIndex {
    type V = IndexView;

    closed spec fn view(&self) -> IndexView {
        IndexView {
            fields: self.per_field@.map_values(|f: (String, FieldAc)| field_view(f)),
            kept: self.kept@,
            rule_count: self.rule_count as nat,
        }
    }
}

/// The field is indexed.
pub open spec fn is_indexed(ix: IndexView, field: Seq<char>) -> bool {
    exists|i: int| 0 <= i < ix.fields.len() && (#[trigger] ix.fields[i]).field == field
}

/// The needles on a field, each once, in strictly increasing order.
pub open spec fn needles_on(needles: Seq<NeedleView>, field: Seq<char>) -> Seq<Seq<char>>
    decreases needles.len(),
{
    if needles.len() == 0 {
        Seq::empty()
    } else {
        let before = needles_on(needles.drop_last(), field);
        let last = needles.last();
        if last.field == field {
            order::inserted(before, last.needle)
        } else {
            before
        }
    }
}

/// The patterns get an automaton: there are some, not too many, and `daachorse` can
/// build it.
pub open spec fn get_automaton(patterns: Seq<Seq<char>>) -> bool {
    0 < patterns.len() <= MAX_PATTERNS_PER_FIELD && automaton_builds(text_bytes(patterns))
}

/// Some needle of the rule stands on a field that is not indexed.
pub open spec fn owns_unindexed(ix: IndexView, needles: Seq<NeedleView>, rule: u32) -> bool {
    exists|n: NeedleView| #[trigger]
        needles.contains(n) && n.rule == rule && !is_indexed(ix, n.field)
}

/// The index is the one of these needles: a field is indexed if and only if its
/// needles get an automaton, which they always do where they are not too many and
/// their bytes are within the limit up to which an automaton is always built; the
/// patterns of an indexed field are its needles, with the rules that own them; and the
/// rules with needles on other fields are kept.
pub open spec fn indexes(ix: IndexView, needles: Seq<NeedleView>) -> bool {
    &&& grouping::all_grouped(ix.fields)
    &&& forall|n: NeedleView| #[trigger]
        grouping::held(ix.fields, n) <==> needles.contains(n) && is_indexed(ix, n.field)
    &&& forall|rule: u32| #[trigger] ix.kept.contains(rule) <==> owns_unindexed(ix, needles, rule)
    &&& forall|field: Seq<char>| #[trigger]
        is_indexed(ix, field) <==> get_automaton(needles_on(needles, field))
    &&& forall|field: Seq<char>|
        0 < (#[trigger] needles_on(needles, field)).len() <= MAX_PATTERNS_PER_FIELD
            && total_bytes(text_bytes(needles_on(needles, field))) <= SAFE_PATTERN_BYTES
            ==> get_automaton(needles_on(needles, field))
}

/// A pattern of the field occurs in the event, and the rule owns it.
pub open spec fn field_hit(f: FieldView, event: Seq<(String, EventValue)>, rule: u32) -> bool {
    match matcher::field_value(event, f.field) {
        Some(EventValue::Str(s)) => exists|p: int|
            0 <= p < f.patterns.len() && substring::occurs(
                #[trigger] f.patterns[p],
                text::ascii_lower(s@),
            ) && f.rules[p].contains(rule),
        _ => false,
    }
}

/// The scan of the event marks the rule.
pub open spec fn hit(ix: IndexView, event: Seq<(String, EventValue)>, rule: u32) -> bool {
    ||| ix.kept.contains(rule)
    ||| exists|i: int| 0 <= i < ix.fields.len() && field_hit(#[trigger] ix.fields[i], event, rule)
}

/// The rule at place `r` of the hits is in the list.
spec fn listed(rules: Seq<u32>, r: int) -> bool {
    r <= u32::MAX && rules.contains(r as u32)
}

/// Mark the rules of a list.
fn mark_rules(rules: &Vec<u32>, hits: &mut [bool])
    ensures
        final(hits)@.len() == old(hits)@.len(),
        forall|r: int|
            0 <= r < old(hits)@.len() ==> #[trigger] final(hits)@[r] == (old(hits)@[r] || listed(
                rules@,
                r,
            )),
{
    let ghost before = hits@;
    let mut i: usize = 0;
    while i < rules.len()
        invariant
            0 <= i <= rules@.len(),
            hits@.len() == before.len(),
            forall|r: int|
                0 <= r < before.len() ==> #[trigger] hits@[r] == (before[r] || listed(
                    rules@.take(i as int),
                    r,
                )),
        decreases rules@.len() - i,
    {
        let place: usize = rules[i] as usize;
        let ghost earlier = hits@;
        if place < hits.len() {
            hits[place] = true;
        }
        proof {
            assert(rules@.take(i + 1) =~= rules@.take(i as int).push(rules@[i as int]));
            let now = rules@.take(i + 1);
            assert forall|r: int| 0 <= r < before.len() implies #[trigger] hits@[r] == (before[r]
                || listed(now, r)) by {
                assert(earlier[r] == (before[r] || listed(rules@.take(i as int), r)));
                if listed(rules@.take(i as int), r) {
                    let k = rules@.take(i as int).index_of(r as u32);
                    assert(now[k] == r as u32);
                }
                if r == place {
                    assert(now[i as int] == r as u32);
                }
                if listed(now, r) && r != place {
                    let k = now.index_of(r as u32);
                    assert(k < i);
                    assert(rules@.take(i as int)[k] == r as u32);
                }
            }
        }
        i = i + 1;
    }
    assert(rules@.take(i as int) =~= rules@);
}

/// Some pattern of the field that the rule at place `r` owns occurs in the text.
spec fn pattern_found(f: FieldView, s: Seq<char>, r: int) -> bool {
    r <= u32::MAX && exists|p: int|
        0 <= p < f.patterns.len() && substring::occurs(#[trigger] f.patterns[p], s)
            && f.rules[p].contains(r as u32)
}

/// Mark the rules of which a pattern occurs in the text.
fn scan_field(field: &(String, FieldAc), value: &str, hits: &mut [bool])
    requires
        field_valid(*field),
    ensures
        final(hits)@.len() == old(hits)@.len(),
        forall|r: int|
            0 <= r < old(hits)@.len() ==> #[trigger] final(hits)@[r] == (old(hits)@[r]
                || pattern_found(field_view(*field), value@, r)),
{
    let ghost before = hits@;
    let ghost f = field_view(*field);
    let ghost bytes = automaton_patterns(field.1.automaton);
    let ids: Vec<u32> = overlapping_patterns(&field.1.automaton, value);
    proof {
        assert forall|p: int| 0 <= p < f.patterns.len() implies substring::occurs(
            #[trigger] f.patterns[p],
            value@,
        ) == substring::occurs(bytes[p], utf8::encode_utf8(value@)) by {
            utf8::decode_utf8_encode_utf8(bytes[p]);
            substring::lemma_occurs_bytes(f.patterns[p], value@);
        }
    }
    let mut k: usize = 0;
    while k < ids.len()
        invariant
            0 <= k <= ids@.len(),
            field_valid(*field),
            f == field_view(*field),
            bytes == automaton_patterns(field.1.automaton),
            are_matches(ids@, bytes, utf8::encode_utf8(value@)),
            forall|p: int|
                0 <= p < f.patterns.len() ==> substring::occurs(
                    #[trigger] f.patterns[p],
                    value@,
                ) == substring::occurs(bytes[p], utf8::encode_utf8(value@)),
            hits@.len() == before.len(),
            forall|r: int|
                0 <= r < before.len() ==> (#[trigger] hits@[r] ==> before[r] || pattern_found(
                    f,
                    value@,
                    r,
                )),
            forall|r: int|
                0 <= r < before.len() && before[r] ==> #[trigger] hits@[r],
            forall|r: int, j: int|
                0 <= r < before.len() && 0 <= j < k && listed(
                    f.rules[(#[trigger] ids@[j]) as int],
                    r,
                ) ==> #[trigger] hits@[r],
        decreases ids@.len() - k,
    {
        let ghost earlier = hits@;
        assert(ids@.contains(ids@[k as int]));
        let pattern: usize = ids[k] as usize;
        assert(f.rules[pattern as int] == field.1.pattern_to_rules@[pattern as int]@);
        assert(substring::occurs(f.patterns[pattern as int], value@));
        mark_rules(&field.1.pattern_to_rules[pattern], hits);
        proof {
            assert forall|r: int| 0 <= r < before.len() && #[trigger] hits@[r] implies before[r]
                || pattern_found(f, value@, r) by {
                assert(hits@[r] == (earlier[r] || listed(f.rules[pattern as int], r)));
            }
            assert forall|r: int, j: int|
                0 <= r < before.len() && 0 <= j < k + 1 && listed(
                    f.rules[(#[trigger] ids@[j]) as int],
                    r,
                ) implies #[trigger] hits@[r] by {
                assert(hits@[r] == (earlier[r] || listed(f.rules[pattern as int], r)));
                if j < k {
                    assert(earlier[r]);
                }
            }
            assert forall|r: int| 0 <= r < before.len() && before[r] implies #[trigger] hits@[r] by {
                assert(earlier[r]);
            }
        }
        k = k + 1;
    }
    proof {
        assert forall|r: int| 0 <= r < before.len() implies #[trigger] hits@[r] == (before[r]
            || pattern_found(f, value@, r)) by {
            if pattern_found(f, value@, r) {
                let p = choose|p: int|
                    0 <= p < f.patterns.len() && substring::occurs(
                        #[trigger] f.patterns[p],
                        value@,
                    ) && f.rules[p].contains(r as u32);
                assert(ids@.contains(p as u32));
                let j = ids@.index_of(p as u32);
                assert(ids@[j] as int == p);
                assert(listed(f.rules[ids@[j] as int], r));
            }
        }
    }
}

// ---------------------------------------------------------------------------
// Building the index
// ---------------------------------------------------------------------------

/// Some pattern of the field is owned by the rule.
spec fn group_owns(g: FieldView, rule: u32) -> bool {
    exists|p: int| 0 <= p < g.rules.len() && (#[trigger] g.rules[p]).contains(rule)
}

/// The field is so large that it may not be indexed.
spec fn too_large(g: FieldView) -> bool {
    g.patterns.len() > MAX_PATTERNS_PER_FIELD || total_bytes(text_bytes(g.patterns))
        > SAFE_PATTERN_BYTES
}

/// The first `n` groups are spread over the index: those at the places `taken` are
/// its fields, and the rules of the others are kept.
spec fn spread(
    groups: Seq<FieldView>,
    n: int,
    taken: Seq<int>,
    fields: Seq<FieldView>,
    kept: Seq<u32>,
) -> bool {
    &&& 0 <= n <= groups.len()
    &&& taken.len() == fields.len()
    &&& forall|a: int|
        0 <= a < taken.len() ==> 0 <= #[trigger] taken[a] < n && fields[a] == groups[taken[a]]
            && get_automaton(groups[taken[a]].patterns)
    &&& forall|a: int, b: int|
        0 <= a < b < taken.len() ==> #[trigger] taken[a] < #[trigger] taken[b]
    &&& forall|k: int|
        0 <= k < n && !taken.contains(k) ==> too_large(#[trigger] groups[k]) && !get_automaton(
            groups[k].patterns,
        )
    &&& forall|rule: u32| #[trigger]
        kept.contains(rule) <==> exists|k: int|
            0 <= k < n && !taken.contains(k) && group_owns(#[trigger] groups[k], rule)
}

/// Fields that stand at different places have different names.
proof fn lemma_fields_differ(groups: Seq<FieldView>, i: int, j: int)
    requires
        grouping::all_grouped(groups),
        0 <= i < groups.len(),
        0 <= j < groups.len(),
        groups[i].field == groups[j].field,
    ensures
        i == j,
{
    order::lemma_irreflexive(groups[i].field);
}

/// [`needles_on`], needle by needle.
proof fn lemma_on_field(needles: Seq<NeedleView>, field: Seq<char>)
    ensures
        order::ascending(needles_on(needles, field)),
        forall|x: Seq<char>| #[trigger]
            needles_on(needles, field).contains(x) <==> exists|n: NeedleView| #[trigger]
                needles.contains(n) && n.field == field && n.needle == x,
    decreases needles.len(),
{
    if needles.len() > 0 {
        let front = needles.drop_last();
        let last = needles.last();
        lemma_on_field(front, field);
        order::lemma_inserted(needles_on(front, field), last.needle);
        assert(needles[needles.len() - 1] == last);
        assert(needles.contains(last));
        assert forall|x: Seq<char>| #[trigger]
            needles_on(needles, field).contains(x) <==> exists|n: NeedleView| #[trigger]
                needles.contains(n) && n.field == field && n.needle == x by {
            if exists|n: NeedleView| #[trigger]
                needles.contains(n) && n.field == field && n.needle == x {
                let n = choose|n: NeedleView| #[trigger]
                    needles.contains(n) && n.field == field && n.needle == x;
                let i = needles.index_of(n);
                if i < front.len() {
                    assert(front[i] == n);
                    assert(front.contains(n));
                }
                assert(needles_on(front, field).contains(x) || n == last);
            }
            if needles_on(front, field).contains(x) {
                let n = choose|n: NeedleView| #[trigger]
                    front.contains(n) && n.field == field && n.needle == x;
                assert(needles[front.index_of(n)] == n);
                assert(needles.contains(n));
            }
        }
    }
}

/// The needles on a field are the patterns of its group.
proof fn lemma_needles_on(groups: Seq<FieldView>, needles: Seq<NeedleView>, k: int)
    requires
        grouping::all_grouped(groups),
        forall|n: NeedleView| #[trigger] grouping::held(groups, n) <==> needles.contains(n),
        0 <= k < groups.len(),
    ensures
        needles_on(needles, groups[k].field) == groups[k].patterns,
{
    let g = groups[k];
    let field = g.field;
    assert(grouping::well_grouped(g));
    assert forall|p: int| 0 <= p < g.patterns.len() implies exists|n: NeedleView| #[trigger]
        needles.contains(n) && n.field == field && n.needle == #[trigger] g.patterns[p] by {
        let n = NeedleView { field, needle: g.patterns[p], rule: g.rules[p][0] };
        assert(g.rules[p].contains(g.rules[p][0]));
        assert(grouping::held_at(groups, k, p, n));
        assert(grouping::held(groups, n));
        assert(needles.contains(n));
    }
    lemma_on_field(needles, field);
    assert forall|x: Seq<char>| #[trigger]
        needles_on(needles, field).contains(x) <==> g.patterns.contains(x) by {
        if needles_on(needles, field).contains(x) {
            let n = choose|n: NeedleView| #[trigger]
                needles.contains(n) && n.field == field && n.needle == x;
            assert(grouping::held(groups, n));
            let (j, p) = choose|j: int, p: int| grouping::held_at(groups, j, p, n);
            lemma_fields_differ(groups, j, k);
            assert(g.patterns[p] == x);
        }
        if g.patterns.contains(x) {
            let p = g.patterns.index_of(x);
            let n = choose|n: NeedleView| #[trigger]
                needles.contains(n) && n.field == field && n.needle == g.patterns[p];
            assert(needles.contains(n));
        }
    }
    assert(order::ascending(g.patterns));
    order::lemma_ascending_unique(needles_on(needles, field), g.patterns);
}

/// Groups that are spread over an index are indexed by it.
proof fn lemma_indexes(
    groups: Seq<FieldView>,
    needles: Seq<NeedleView>,
    taken: Seq<int>,
    ix: IndexView,
)
    requires
        grouping::all_grouped(groups),
        forall|n: NeedleView| #[trigger] grouping::held(groups, n) <==> needles.contains(n),
        spread(groups, groups.len() as int, taken, ix.fields, ix.kept),
    ensures
        indexes(ix, needles),
{
    let fields = ix.fields;
    assert forall|i: int, j: int| 0 <= i < j < fields.len() implies order::before(
        (#[trigger] fields[i]).field,
        (#[trigger] fields[j]).field,
    ) by {
        assert(taken[i] < taken[j]);
    }
    assert forall|i: int| 0 <= i < fields.len() implies grouping::well_grouped(#[trigger] fields[i]) by {
        assert(fields[i] == groups[taken[i]]);
    }
    assert forall|k: int| 0 <= k < groups.len() implies (is_indexed(
        ix,
        (#[trigger] groups[k]).field,
    ) <==> taken.contains(k)) by {
        if taken.contains(k) {
            let a = taken.index_of(k);
            assert(fields[a].field == groups[k].field);
        }
        if is_indexed(ix, groups[k].field) {
            let a = choose|a: int|
                0 <= a < fields.len() && (#[trigger] fields[a]).field == groups[k].field;
            lemma_fields_differ(groups, taken[a], k);
        }
    }
    assert forall|n: NeedleView| #[trigger]
        grouping::held(fields, n) <==> needles.contains(n) && is_indexed(ix, n.field) by {
        if grouping::held(fields, n) {
            let (a, p) = choose|a: int, p: int| grouping::held_at(fields, a, p, n);
            assert(grouping::held_at(groups, taken[a], p, n));
            assert(grouping::held(groups, n));
        }
        if needles.contains(n) && is_indexed(ix, n.field) {
            assert(grouping::held(groups, n));
            let (k, p) = choose|k: int, p: int| grouping::held_at(groups, k, p, n);
            assert(groups[k].field == n.field);
            let a = taken.index_of(k);
            assert(grouping::held_at(fields, a, p, n));
        }
    }
    assert forall|rule: u32| #[trigger]
        ix.kept.contains(rule) <==> owns_unindexed(ix, needles, rule) by {
        if ix.kept.contains(rule) {
            let k = choose|k: int|
                0 <= k < groups.len() && !taken.contains(k) && group_owns(
                    #[trigger] groups[k],
                    rule,
                );
            let p = choose|p: int|
                0 <= p < groups[k].rules.len() && (#[trigger] groups[k].rules[p]).contains(rule);
            assert(grouping::well_grouped(groups[k]));
            let n = NeedleView { field: groups[k].field, needle: groups[k].patterns[p], rule };
            assert(grouping::held_at(groups, k, p, n));
            assert(grouping::held(groups, n));
            assert(needles.contains(n));
        }
        if owns_unindexed(ix, needles, rule) {
            let n = choose|n: NeedleView| #[trigger]
                needles.contains(n) && n.rule == rule && !is_indexed(ix, n.field);
            assert(grouping::held(groups, n));
            let (k, p) = choose|k: int, p: int| grouping::held_at(groups, k, p, n);
            assert(grouping::well_grouped(groups[k]));
            assert(groups[k].rules[p].contains(rule));
            assert(group_owns(groups[k], rule));
        }
    }
    assert forall|field: Seq<char>|
        0 < (#[trigger] needles_on(needles, field)).len() implies exists|k: int|
        0 <= k < groups.len() && (#[trigger] groups[k]).field == field by {
        let x = needles_on(needles, field)[0];
        assert(needles_on(needles, field).contains(x));
        lemma_on_field(needles, field);
        let n = choose|n: NeedleView| #[trigger]
            needles.contains(n) && n.field == field && n.needle == x;
        assert(grouping::held(groups, n));
        let (k, p) = choose|k: int, p: int| grouping::held_at(groups, k, p, n);
        assert(groups[k].field == field);
    }
    assert forall|field: Seq<char>| #[trigger]
        is_indexed(ix, field) <==> get_automaton(needles_on(needles, field)) by {
        if is_indexed(ix, field) {
            let a = choose|a: int| 0 <= a < fields.len() && (#[trigger] fields[a]).field == field;
            lemma_needles_on(groups, needles, taken[a]);
        }
        if get_automaton(needles_on(needles, field)) {
            let k = choose|k: int| 0 <= k < groups.len() && (#[trigger] groups[k]).field == field;
            lemma_needles_on(groups, needles, k);
            assert(taken.contains(k));
        }
    }
    assert forall|field: Seq<char>|
        0 < (#[trigger] needles_on(needles, field)).len() <= MAX_PATTERNS_PER_FIELD
            && total_bytes(text_bytes(needles_on(needles, field)))
            <= SAFE_PATTERN_BYTES implies get_automaton(needles_on(needles, field)) by {
        let k = choose|k: int| 0 <= k < groups.len() && (#[trigger] groups[k]).field == field;
        lemma_needles_on(groups, needles, k);
        assert(!too_large(groups[k]));
        let a = taken.index_of(k);
        assert(taken[a] == k);
    }
}

/// The texts as strings.
fn pattern_strings(patterns: &Vec<Vec<char>>) -> (res: Vec<String>)
    ensures
        text::texts(res@) == text::char_texts(patterns@),
{
    let mut out: Vec<String> = Vec::new();
    let mut i: usize = 0;
    while i < patterns.len()
        invariant
            0 <= i <= patterns@.len(),
            text::texts(out@) == text::char_texts(patterns@).take(i as int),
        decreases patterns@.len() - i,
    {
        let ghost before = out@;
        out.push(text::string_of(&patterns[i]));
        assert(text::texts(out@) =~= text::texts(before).push(patterns@[i as int]@));
        assert(text::char_texts(patterns@).take(i + 1) =~= text::char_texts(patterns@).take(
            i as int,
        ).push(patterns@[i as int]@));
        i = i + 1;
    }
    assert(text::char_texts(patterns@).take(i as int) =~= text::char_texts(patterns@));
    out
}

/// Append all the rules of the lists.
fn keep_rules(lists: &Vec<Vec<u32>>, kept: &mut Vec<u32>)
    ensures
        forall|rule: u32| #[trigger]
            final(kept)@.contains(rule) <==> old(kept)@.contains(rule) || exists|p: int|
                0 <= p < lists@.len() && (#[trigger] grouping::rule_lists(lists@)[p]).contains(rule),
{
    let ghost before = kept@;
    let ghost all = grouping::rule_lists(lists@);
    let mut p: usize = 0;
    while p < lists.len()
        invariant
            0 <= p <= lists@.len(),
            all == grouping::rule_lists(lists@),
            forall|rule: u32| #[trigger]
                kept@.contains(rule) <==> before.contains(rule) || exists|q: int|
                    0 <= q < p && (#[trigger] all[q]).contains(rule),
        decreases lists@.len() - p,
    {
        let ghost earlier = kept@;
        let mut list: Vec<u32> = Vec::new();
        let mut i: usize = 0;
        while i < lists[p].len()
            invariant
                p < lists@.len(),
                0 <= i <= lists@[p as int]@.len(),
                list@ == lists@[p as int]@.take(i as int),
            decreases lists@[p as int]@.len() - i,
        {
            list.push(lists[p][i]);
            assert(list@ =~= lists@[p as int]@.take(i + 1));
            i = i + 1;
        }
        assert(list@ =~= all[p as int]);
        kept.append(&mut list);
        proof {
            assert(kept@ =~= earlier + all[p as int]);
            assert forall|rule: u32| #[trigger]
                kept@.contains(rule) <==> before.contains(rule) || exists|q: int|
                    0 <= q < p + 1 && (#[trigger] all[q]).contains(rule) by {
                if kept@.contains(rule) {
                    let k = kept@.index_of(rule);
                    if k < earlier.len() {
                        assert(earlier[k] == rule);
                        assert(earlier.contains(rule));
                    } else {
                        assert(all[p as int][k - earlier.len()] == rule);
                        assert(all[p as int].contains(rule));
                    }
                }
                if earlier.contains(rule) {
                    let k = earlier.index_of(rule);
                    assert(kept@[k] == rule);
                }
                if all[p as int].contains(rule) {
                    let k = all[p as int].index_of(rule);
                    assert(kept@[earlier.len() + k] == rule);
                }
                if exists|q: int| 0 <= q < p + 1 && (#[trigger] all[q]).contains(rule) {
                    let q = choose|q: int| 0 <= q < p + 1 && (#[trigger] all[q]).contains(rule);
                    if q < p {
                        assert(all[q].contains(rule));
                        assert(earlier.contains(rule));
                    }
                }
                if before.contains(rule) {
                    assert(earlier.contains(rule));
                }
            }
        }
        p = p + 1;
    }
}

/// Make the automaton of a group, if its patterns get one.
fn index_group(group: &FieldGroup) -> (res: Option<DoubleArrayAhoCorasick<u32>>)
    requires
        group@.patterns.len() > 0,
    ensures
        res is Some <==> get_automaton(group@.patterns),
        match res {
            Some(a) => automaton_standard(a) && automaton_patterns(a) == text_bytes(
                group@.patterns,
            ),
            None => too_large(group@),
        },
{
    if group.patterns.len() > MAX_PATTERNS_PER_FIELD {
        return None;
    }
    let patterns: Vec<String> = pattern_strings(&group.patterns);
    proof {
        assert(text::texts(patterns@).len() == patterns@.len());
        assert(pattern_bytes(patterns@) =~= text_bytes(group@.patterns)) by {
            assert forall|i: int| 0 <= i < patterns@.len() implies pattern_bytes(patterns@)[i]
                == text_bytes(group@.patterns)[i] by {
                assert(text::texts(patterns@)[i] == patterns@[i]@);
            }
        }
    }
    match new_automaton(&patterns) {
        Ok(a) => Some(a),
        Err(_) => None,
    }
}

/// The lists, copied.
fn copy_lists(lists: &Vec<Vec<u32>>) -> (res: Vec<Vec<u32>>)
    ensures
        grouping::rule_lists(res@) == grouping::rule_lists(lists@),
{
    let ghost all = grouping::rule_lists(lists@);
    let mut out: Vec<Vec<u32>> = Vec::new();
    let mut p: usize = 0;
    while p < lists.len()
        invariant
            0 <= p <= lists@.len(),
            all == grouping::rule_lists(lists@),
            grouping::rule_lists(out@) == all.take(p as int),
        decreases lists@.len() - p,
    {
        let mut list: Vec<u32> = Vec::new();
        let mut i: usize = 0;
        while i < lists[p].len()
            invariant
                p < lists@.len(),
                0 <= i <= lists@[p as int]@.len(),
                list@ == lists@[p as int]@.take(i as int),
            decreases lists@[p as int]@.len() - i,
        {
            list.push(lists[p][i]);
            assert(list@ =~= lists@[p as int]@.take(i + 1));
            i = i + 1;
        }
        let ghost before = out@;
        assert(list@ =~= all[p as int]);
        out.push(list);
        assert(grouping::rule_lists(out@) =~= grouping::rule_lists(before).push(all[p as int]));
        assert(all.take(p + 1) =~= all.take(p as int).push(all[p as int]));
        p = p + 1;
    }
    assert(all.take(p as int) =~= all);
    out
}

impl CrossRuleAcIndex {
    #[verifier::type_invariant]
    spec fn valid(&self) -> bool {
        forall|i: int| 0 <= i < self.per_field@.len() ==> field_valid(#[trigger] self.per_field@[i])
    }

    /// An index over no rules.
    pub fn empty() -> (res: CrossRuleAcIndex)
        ensures
            res@.fields == Seq::<FieldView>::empty(),
            res@.kept == Seq::<u32>::empty(),
            res@.rule_count == 0,
    {
        let res: CrossRuleAcIndex = CrossRuleAcIndex {
            per_field: Vec::new(),
            kept: Vec::new(),
            rule_count: 0,
        };
        assert(res@.fields =~= Seq::<FieldView>::empty());
        res
    }

    /// Whether no field is indexed, so that there is nothing to scan for.
    pub fn is_empty(&self) -> (res: bool)
        ensures
            res == (self@.fields.len() == 0),
    {
        self.per_field.len() == 0
    }

    /// The number of indexed fields.
    pub fn field_count(&self) -> (res: usize)
        ensures
            res == self@.fields.len(),
    {
        self.per_field.len()
    }

    /// The number of rules that the index was built from.
    pub fn rule_count(&self) -> (res: usize)
        ensures
            res == self@.rule_count,
    {
        self.rule_count
    }

    /// Build the index of the rules.
    pub fn build(rules: &[CompiledRule]) -> (res: CrossRuleAcIndex)
        ensures
            indexes(res@, needles::rule_needles(rules@)),
            res@.rule_count == rules@.len(),
    {
        let needles: Vec<Needle> = needles::collect_needles(rules);
        let groups: Vec<FieldGroup> = grouping::group_needles(&needles);
        let ghost views = grouping::group_views(groups@);
        let mut per_field: Vec<(String, FieldAc)> = Vec::new();
        let mut kept: Vec<u32> = Vec::new();
        let ghost mut taken: Seq<int> = Seq::empty();
        let ghost mut fields: Seq<FieldView> = Seq::empty();
        let mut i: usize = 0;
        while i < groups.len()
            invariant
                0 <= i <= groups@.len(),
                views == grouping::group_views(groups@),
                grouping::all_grouped(views),
                fields == per_field@.map_values(|f: (String, FieldAc)| field_view(f)),
                forall|k: int|
                    0 <= k < per_field@.len() ==> field_valid(#[trigger] per_field@[k]),
                spread(views, i as int, taken, fields, kept@),
            decreases groups@.len() - i,
        {
            let ghost g = views[i as int];
            assert(g == groups@[i as int]@);
            assert(grouping::well_grouped(g));
            let ghost before = taken;
            let ghost kept_before = kept@;
            match index_group(&groups[i]) {
                Some(automaton) => {
                    let ac: FieldAc = FieldAc {
                        automaton,
                        pattern_to_rules: copy_lists(&groups[i].rules),
                    };
                    let field: String = text::string_of(&groups[i].field);
                    let ghost entry = (field, ac);
                    proof {
                        assert(grouping::rule_lists(ac.pattern_to_rules@).len()
                            == ac.pattern_to_rules@.len());
                        assert forall|p: int|
                            0 <= p < ac.pattern_to_rules@.len() implies utf8::valid_utf8(
                            #[trigger] automaton_patterns(ac.automaton)[p],
                        ) by {
                            utf8::encode_utf8_valid_utf8(g.patterns[p]);
                        }
                        assert(field_view(entry).patterns =~= g.patterns) by {
                            assert forall|p: int| 0 <= p < g.patterns.len() implies field_view(
                                entry,
                            ).patterns[p] == g.patterns[p] by {
                                utf8::encode_utf8_decode_utf8(g.patterns[p]);
                            }
                        }
                        assert(field_view(entry) =~= g);
                    }
                    let ghost earlier = per_field@;
                    per_field.push((field, ac));
                    proof {
                        taken = taken.push(i as int);
                        fields = fields.push(g);
                        assert(fields =~= per_field@.map_values(
                            |f: (String, FieldAc)| field_view(f),
                        ));
                        lemma_spread_taken(views, i as int, before, fields.drop_last(), kept@);
                        assert(fields.drop_last().push(g) =~= fields);
                    }
                },
                None => {
                    keep_rules(&groups[i].rules, &mut kept);
                    proof {
                        lemma_spread_kept(views, i as int, taken, fields, kept_before, kept@);
                    }
                },
            }
            i = i + 1;
        }
        let res: CrossRuleAcIndex = CrossRuleAcIndex { per_field, kept, rule_count: rules.len() };
        proof {
            assert(res@.fields =~= fields);
            lemma_indexes(views, needles::rule_needles(rules@), taken, res@);
        }
        res
    }

    /// Mark the rules of which a positive substring pattern occurs in the event, and
    /// those with patterns on fields that are not indexed. A rule that was marked
    /// before stays so. A field whose value is not a string marks nothing.
    pub fn mark_hits(&self, event: &Vec<(String, EventValue)>, hits: &mut [bool])
        requires
            old(hits)@.len() == self@.rule_count,
        ensures
            final(hits)@.len() == old(hits)@.len(),
            forall|r: int|
                0 <= r < old(hits)@.len() ==> #[trigger] final(hits)@[r] == (old(hits)@[r] || (r
                    <= u32::MAX && hit(self@, event@, r as u32))),
    {
        proof {
            use_type_invariant(self);
        }
        let ghost start = hits@;
        mark_rules(&self.kept, hits);
        let ghost fields = self@.fields;
        let mut i: usize = 0;
        while i < self.per_field.len()
            invariant
                0 <= i <= self.per_field@.len(),
                fields == self@.fields,
                forall|k: int|
                    0 <= k < self.per_field@.len() ==> field_valid(#[trigger] self.per_field@[k]),
                hits@.len() == start.len(),
                forall|r: int|
                    0 <= r < start.len() ==> #[trigger] hits@[r] == (start[r] || listed(
                        self@.kept,
                        r,
                    ) || fields_hit(fields, i as int, event@, r)),
            decreases self.per_field@.len() - i,
        {
            let ghost before = hits@;
            let ghost f = fields[i as int];
            assert(f == field_view(self.per_field@[i as int]));
            match matcher::get_field(event, self.per_field[i].0.as_str()) {
                Some(EventValue::Str(s)) => {
                    let chars: Vec<char> = text::chars_of(s.as_str());
                    let lowered: String = text::string_of(&text::to_ascii_lower(&chars));
                    scan_field(&self.per_field[i], lowered.as_str(), hits);
                    proof {
                        assert forall|r: int| 0 <= r < start.len() implies (r <= u32::MAX
                            && field_hit(f, event@, r as u32)) == pattern_found(f, lowered@, r) by {}
                    }
                },
                _ => {
                    assert(forall|r: u32| !field_hit(f, event@, r));
                },
            }
            proof {
                assert forall|r: int| 0 <= r < start.len() implies #[trigger] hits@[r] == (start[r]
                    || listed(self@.kept, r) || fields_hit(fields, i + 1, event@, r)) by {
                    assert(before[r] == (start[r] || listed(self@.kept, r) || fields_hit(
                        fields,
                        i as int,
                        event@,
                        r,
                    )));
                    lemma_fields_hit(fields, i as int, event@, r);
                }
            }
            i = i + 1;
        }
    }
}

/// One of the first `n` fields marks the rule at place `r`.
spec fn fields_hit(
    fields: Seq<FieldView>,
    n: int,
    event: Seq<(String, EventValue)>,
    r: int,
) -> bool {
    r <= u32::MAX && exists|i: int|
        0 <= i < n && field_hit(#[trigger] fields[i], event, r as u32)
}

proof fn lemma_fields_hit(
    fields: Seq<FieldView>,
    n: int,
    event: Seq<(String, EventValue)>,
    r: int,
)
    requires
        0 <= n < fields.len(),
    ensures
        fields_hit(fields, n + 1, event, r) == (fields_hit(fields, n, event, r) || (r <= u32::MAX
            && field_hit(fields[n], event, r as u32))),
{
    if fields_hit(fields, n + 1, event, r) {
        let i = choose|i: int|
            0 <= i < n + 1 && field_hit(#[trigger] fields[i], event, r as u32);
        assert(i < n || i == n);
    }
}

/// One more group is taken.
proof fn lemma_spread_taken(
    groups: Seq<FieldView>,
    n: int,
    taken: Seq<int>,
    fields: Seq<FieldView>,
    kept: Seq<u32>,
)
    requires
        spread(groups, n, taken, fields, kept),
        n < groups.len(),
        get_automaton(groups[n].patterns),
    ensures
        spread(groups, n + 1, taken.push(n), fields.push(groups[n]), kept),
{
    let after = taken.push(n);
    assert forall|k: int| after.contains(k) <==> taken.contains(k) || k == n by {
        if taken.contains(k) {
            assert(after[taken.index_of(k)] == k);
        }
        assert(after[taken.len() as int] == n);
        if after.contains(k) {
            let a = after.index_of(k);
            if a < taken.len() {
                assert(taken[a] == k);
            }
        }
    }
    assert forall|rule: u32| #[trigger]
        kept.contains(rule) <==> exists|k: int|
            0 <= k < n + 1 && !after.contains(k) && group_owns(#[trigger] groups[k], rule) by {
        if kept.contains(rule) {
            let k = choose|k: int|
                0 <= k < n && !taken.contains(k) && group_owns(#[trigger] groups[k], rule);
            assert(!after.contains(k) && group_owns(groups[k], rule));
        }
    }
}

/// The rules of one more group are kept.
proof fn lemma_spread_kept(
    groups: Seq<FieldView>,
    n: int,
    taken: Seq<int>,
    fields: Seq<FieldView>,
    kept: Seq<u32>,
    after: Seq<u32>,
)
    requires
        spread(groups, n, taken, fields, kept),
        n < groups.len(),
        too_large(groups[n]),
        !get_automaton(groups[n].patterns),
        forall|rule: u32| #[trigger]
            after.contains(rule) <==> kept.contains(rule) || exists|p: int|
                0 <= p < groups[n].rules.len() && (#[trigger] groups[n].rules[p]).contains(rule),
    ensures
        spread(groups, n + 1, taken, fields, after),
{
    assert(!taken.contains(n)) by {
        if taken.contains(n) {
            assert(taken[taken.index_of(n)] < n);
        }
    }
    assert forall|rule: u32| #[trigger]
        after.contains(rule) <==> exists|k: int|
            0 <= k < n + 1 && !taken.contains(k) && group_owns(#[trigger] groups[k], rule) by {
        if kept.contains(rule) {
            let k = choose|k: int|
                0 <= k < n && !taken.contains(k) && group_owns(#[trigger] groups[k], rule);
            assert(group_owns(groups[k], rule));
        }
        if after.contains(rule) && !kept.contains(rule) {
            assert(group_owns(groups[n], rule));
        }
    }
}

// ---------------------------------------------------------------------------
// One index for one set of needles
// ---------------------------------------------------------------------------

/// The names of the fields.
spec fn field_names(fields: Seq<FieldView>) -> Seq<Seq<char>> {
    fields.map_values(|f: FieldView| f.field)
}

/// A list of rules in strictly increasing order is determined by the rules that it
/// holds.
proof fn lemma_increasing_unique(a: Seq<u32>, b: Seq<u32>)
    requires
        grouping::increasing(a),
        grouping::increasing(b),
        forall|x: u32| #[trigger] a.contains(x) <==> b.contains(x),
    ensures
        a == b,
    decreases a.len(),
{
    if a.len() == 0 {
        if b.len() > 0 {
            assert(b.contains(b[0]));
            assert(a.contains(b[0]));
        }
        assert(a =~= b);
    } else {
        assert(a.contains(a[0]));
        assert(b.contains(a[0]));
        let m = a.len() - 1;
        let n = b.len() - 1;
        assert(a.contains(a[m]));
        assert(b.contains(b[n]));
        assert(b.contains(a[m]));
        assert(a.contains(b[n]));
        let i = b.index_of(a[m]);
        let j = a.index_of(b[n]);
        assert(a[m] <= b[n]);
        assert(b[n] <= a[m]);
        let front = a.drop_last();
        let other = b.drop_last();
        assert forall|x: u32| #[trigger] front.contains(x) <==> other.contains(x) by {
            if front.contains(x) {
                let k = front.index_of(x);
                assert(a[k] == x);
                assert(a.contains(x));
                assert(b.contains(x));
                let l = b.index_of(x);
                assert(a[k] < a[m]);
                assert(other[l] == x);
            }
            if other.contains(x) {
                let k = other.index_of(x);
                assert(b[k] == x);
                assert(b.contains(x));
                assert(a.contains(x));
                let l = a.index_of(x);
                assert(b[k] < b[n]);
                assert(front[l] == x);
            }
        }
        lemma_increasing_unique(front, other);
        assert(a =~= front.push(a[m]));
        assert(b =~= other.push(b[n]));
    }
}

/// The place of a field.
proof fn lemma_field_place(fields: Seq<FieldView>, n: NeedleView, i: int, p: int)
    requires
        grouping::all_grouped(fields),
        grouping::held(fields, n),
        0 <= i < fields.len(),
        fields[i].field == n.field,
        0 <= p < fields[i].patterns.len(),
        fields[i].patterns[p] == n.needle,
    ensures
        fields[i].rules[p].contains(n.rule),
{
    let (k, q) = choose|k: int, q: int| grouping::held_at(fields, k, q, n);
    lemma_fields_differ(fields, i, k);
    assert(grouping::well_grouped(fields[i]));
    order::lemma_irreflexive(fields[i].patterns[p]);
    if p != q {
        if p < q {
            assert(order::before(fields[i].patterns[p], fields[i].patterns[q]));
        } else {
            assert(order::before(fields[i].patterns[q], fields[i].patterns[p]));
        }
    }
}

/// Fields that are grouped are determined by the needles that they hold.
proof fn lemma_groups_unique(a: Seq<FieldView>, b: Seq<FieldView>)
    requires
        grouping::all_grouped(a),
        grouping::all_grouped(b),
        forall|n: NeedleView| #[trigger] grouping::held(a, n) <==> grouping::held(b, n),
    ensures
        a == b,
{
    let names = field_names(a);
    let others = field_names(b);
    assert(order::ascending(names));
    assert(order::ascending(others));
    assert forall|x: Seq<char>| #[trigger] names.contains(x) <==> others.contains(x) by {
        if names.contains(x) {
            lemma_name_held(a, b, x);
        }
        if others.contains(x) {
            lemma_name_held(b, a, x);
        }
    }
    order::lemma_ascending_unique(names, others);
    assert(a.len() == names.len());
    assert(b.len() == others.len());
    assert forall|i: int| 0 <= i < a.len() implies a[i] == b[i] by {
        assert(names[i] == a[i].field);
        assert(others[i] == b[i].field);
        lemma_field_unique(a, b, i);
    }
    assert(a =~= b);
}

/// A field of one grouping is a field of another that holds the same needles.
proof fn lemma_name_held(a: Seq<FieldView>, b: Seq<FieldView>, x: Seq<char>)
    requires
        grouping::all_grouped(a),
        forall|n: NeedleView| #[trigger] grouping::held(a, n) <==> grouping::held(b, n),
        field_names(a).contains(x),
    ensures
        field_names(b).contains(x),
{
    let i = field_names(a).index_of(x);
    assert(grouping::well_grouped(a[i]));
    let n = NeedleView { field: x, needle: a[i].patterns[0], rule: a[i].rules[0][0] };
    assert(a[i].rules[0].contains(a[i].rules[0][0]));
    assert(grouping::held_at(a, i, 0, n));
    assert(grouping::held(a, n));
    let (k, p) = choose|k: int, p: int| grouping::held_at(b, k, p, n);
    assert(field_names(b)[k] == x);
}

proof fn lemma_field_unique(a: Seq<FieldView>, b: Seq<FieldView>, i: int)
    requires
        grouping::all_grouped(a),
        grouping::all_grouped(b),
        forall|n: NeedleView| #[trigger] grouping::held(a, n) <==> grouping::held(b, n),
        0 <= i < a.len(),
        i < b.len(),
        a[i].field == b[i].field,
    ensures
        a[i] == b[i],
{
    let f = a[i];
    let g = b[i];
    assert(grouping::well_grouped(f));
    assert(grouping::well_grouped(g));
    assert(order::ascending(f.patterns));
    assert(order::ascending(g.patterns));
    assert forall|x: Seq<char>| #[trigger] f.patterns.contains(x) <==> g.patterns.contains(x) by {
        if f.patterns.contains(x) {
            lemma_pattern_held(a, b, i, x);
        }
        if g.patterns.contains(x) {
            lemma_pattern_held(b, a, i, x);
        }
    }
    order::lemma_ascending_unique(f.patterns, g.patterns);
    assert forall|p: int| 0 <= p < f.rules.len() implies f.rules[p] == g.rules[p] by {
        assert forall|r: u32| #[trigger] f.rules[p].contains(r) <==> g.rules[p].contains(r) by {
            let n = NeedleView { field: f.field, needle: f.patterns[p], rule: r };
            if f.rules[p].contains(r) {
                assert(grouping::held_at(a, i, p, n));
                assert(grouping::held(a, n));
                lemma_field_place(b, n, i, p);
            }
            if g.rules[p].contains(r) {
                assert(grouping::held_at(b, i, p, n));
                assert(grouping::held(b, n));
                lemma_field_place(a, n, i, p);
            }
        }
        lemma_increasing_unique(f.rules[p], g.rules[p]);
    }
    assert(f.rules =~= g.rules);
}

proof fn lemma_pattern_held(a: Seq<FieldView>, b: Seq<FieldView>, i: int, x: Seq<char>)
    requires
        grouping::all_grouped(a),
        grouping::all_grouped(b),
        forall|n: NeedleView| #[trigger] grouping::held(a, n) <==> grouping::held(b, n),
        0 <= i < a.len(),
        i < b.len(),
        a[i].field == b[i].field,
        a[i].patterns.contains(x),
    ensures
        b[i].patterns.contains(x),
{
    let p = a[i].patterns.index_of(x);
    assert(grouping::well_grouped(a[i]));
    let n = NeedleView { field: a[i].field, needle: x, rule: a[i].rules[p][0] };
    assert(a[i].rules[p].contains(a[i].rules[p][0]));
    assert(grouping::held_at(a, i, p, n));
    assert(grouping::held(a, n));
    let (k, q) = choose|k: int, q: int| grouping::held_at(b, k, q, n);
    lemma_fields_differ(b, k, i);
    assert(b[i].patterns[q] == x);
}

/// Two indexes of the same needles are the same: they index the same fields, give each
/// pattern the same place and the same rules, and keep the same rules.
pub proof fn lemma_index_is_determined(a: IndexView, b: IndexView, needles: Seq<NeedleView>)
    requires
        indexes(a, needles),
        indexes(b, needles),
    ensures
        a.fields == b.fields,
        forall|rule: u32| #[trigger] a.kept.contains(rule) <==> b.kept.contains(rule),
{
    assert forall|field: Seq<char>| #[trigger] is_indexed(a, field) <==> is_indexed(b, field) by {
        assert(is_indexed(a, field) <==> get_automaton(needles_on(needles, field)));
        assert(is_indexed(b, field) <==> get_automaton(needles_on(needles, field)));
    }
    assert forall|n: NeedleView| #[trigger] grouping::held(a.fields, n) <==> grouping::held(
        b.fields,
        n,
    ) by {
        assert(is_indexed(a, n.field) <==> is_indexed(b, n.field));
    }
    lemma_groups_unique(a.fields, b.fields);
    assert forall|rule: u32| #[trigger] a.kept.contains(rule) <==> b.kept.contains(rule) by {
        if owns_unindexed(a, needles, rule) {
            let n = choose|n: NeedleView| #[trigger]
                needles.contains(n) && n.rule == rule && !is_indexed(a, n.field);
            assert(needles.contains(n) && !is_indexed(b, n.field));
        }
        if owns_unindexed(b, needles, rule) {
            let n = choose|n: NeedleView| #[trigger]
                needles.contains(n) && n.rule == rule && !is_indexed(b, n.field);
            assert(needles.contains(n) && !is_indexed(a, n.field));
        }
    }
}

/// An index is empty if and only if the needles of no field get an automaton.
pub proof fn lemma_empty_index(ix: IndexView, needles: Seq<NeedleView>)
    requires
        indexes(ix, needles),
    ensures
        ix.fields.len() == 0 <==> forall|field: Seq<char>|
            !get_automaton(#[trigger] needles_on(needles, field)),
{
    if ix.fields.len() > 0 {
        let field = ix.fields[0].field;
        assert(is_indexed(ix, field));
        assert(get_automaton(needles_on(needles, field)));
    } else {
        assert forall|field: Seq<char>| !get_automaton(#[trigger] needles_on(needles, field)) by {
            assert(!is_indexed(ix, field));
        }
    }
}

} // verus!
