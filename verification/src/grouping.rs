//! Grouping needles by field and pattern.

use crate::needles::Needle;
use crate::needles::NeedleView;
use crate::needles;
use crate::order::Place;
use crate::order;
use crate::text;
use vstd::prelude::*;

verus! {

// ---------------------------------------------------------------------------
// Sorting the needles
// ---------------------------------------------------------------------------

/// `a` does not come behind `b`: by field, by needle, by rule.
pub open spec fn not_behind(a: NeedleView, b: NeedleView) -> bool {
    ||| order::before(a.field, b.field)
    ||| a.field == b.field && order::before(a.needle, b.needle)
    ||| a.field == b.field && a.needle == b.needle && a.rule <= b.rule
}

proof fn lemma_not_behind_transitive(a: NeedleView, b: NeedleView, c: NeedleView)
    requires
        not_behind(a, b),
        not_behind(b, c),
    ensures
        not_behind(a, c),
{
    if order::before(a.field, b.field) && order::before(b.field, c.field) {
        order::lemma_transitive(a.field, b.field, c.field);
    }
    if order::before(a.needle, b.needle) && order::before(b.needle, c.needle) {
        order::lemma_transitive(a.needle, b.needle, c.needle);
    }
}

fn comes_first(a: &Needle, b: &Needle) -> (res: bool)
    ensures
        res ==> not_behind(a@, b@),
        !res ==> not_behind(b@, a@),
{
    proof {
        order::lemma_total(a.field@, b.field@);
        order::lemma_total(a.needle@, b.needle@);
    }
    match order::place_of(&a.field, &b.field) {
        Place::Before => true,
        Place::Behind => false,
        Place::Same => match order::place_of(&a.needle, &b.needle) {
            Place::Before => true,
            Place::Behind => false,
            Place::Same => a.rule <= b.rule,
        },
    }
}

/// The needles at these places are in order.
spec fn in_order(needles: Seq<Needle>, places: Seq<usize>) -> bool {
    forall|i: int, j: int|
        0 <= i < j < places.len() ==> not_behind(
            needles[(#[trigger] places[i]) as int]@,
            needles[(#[trigger] places[j]) as int]@,
        )
}

/// All the places lie in a range.
spec fn within(places: Seq<usize>, lo: int, hi: int) -> bool {
    forall|i: int| 0 <= i < places.len() ==> lo <= #[trigger] places[i] < hi
}

/// Merge two sorted lists of places.
fn merge(needles: &Vec<Needle>, a: &Vec<usize>, b: &Vec<usize>) -> (res: Vec<usize>)
    requires
        within(a@, 0, needles@.len() as int),
        within(b@, 0, needles@.len() as int),
        in_order(needles@, a@),
        in_order(needles@, b@),
    ensures
        in_order(needles@, res@),
        forall|x: usize| res@.contains(x) <==> a@.contains(x) || b@.contains(x),
{
    let mut out: Vec<usize> = Vec::new();
    let mut i: usize = 0;
    let mut j: usize = 0;
    while i < a.len() || j < b.len()
        invariant
            0 <= i <= a@.len(),
            0 <= j <= b@.len(),
            within(a@, 0, needles@.len() as int),
            within(b@, 0, needles@.len() as int),
            in_order(needles@, a@),
            in_order(needles@, b@),
            in_order(needles@, out@),
            forall|k: int, m: int|
                0 <= k < out@.len() && i <= m < a@.len() ==> not_behind(
                    needles@[(#[trigger] out@[k]) as int]@,
                    needles@[(#[trigger] a@[m]) as int]@,
                ),
            forall|k: int, m: int|
                0 <= k < out@.len() && j <= m < b@.len() ==> not_behind(
                    needles@[(#[trigger] out@[k]) as int]@,
                    needles@[(#[trigger] b@[m]) as int]@,
                ),
            forall|k: int| 0 <= k < i ==> out@.contains(#[trigger] a@[k]),
            forall|k: int| 0 <= k < j ==> out@.contains(#[trigger] b@[k]),
            forall|k: int|
                0 <= k < out@.len() ==> a@.contains(#[trigger] out@[k]) || b@.contains(out@[k]),
        decreases a@.len() - i + b@.len() - j,
    {
        let left: bool = if i == a.len() {
            false
        } else if j == b.len() {
            true
        } else {
            comes_first(&needles[a[i]], &needles[b[j]])
        };
        let ghost before = out@;
        let place: usize = if left {
            a[i]
        } else {
            b[j]
        };
        proof {
            let taken = needles@[place as int]@;
            if left && j < b@.len() {
                assert forall|m: int| j <= m < b@.len() implies not_behind(
                    taken,
                    needles@[(#[trigger] b@[m]) as int]@,
                ) by {
                    if m > j {
                        lemma_not_behind_transitive(
                            taken,
                            needles@[b@[j as int] as int]@,
                            needles@[b@[m] as int]@,
                        );
                    }
                }
            }
            if !left && i < a@.len() {
                assert forall|m: int| i <= m < a@.len() implies not_behind(
                    taken,
                    needles@[(#[trigger] a@[m]) as int]@,
                ) by {
                    if m > i {
                        lemma_not_behind_transitive(
                            taken,
                            needles@[a@[i as int] as int]@,
                            needles@[a@[m] as int]@,
                        );
                    }
                }
            }
        }
        out.push(place);
        proof {
            assert(out@[out@.len() - 1] == place);
            assert forall|x: usize| before.contains(x) implies out@.contains(x) by {
                let k = before.index_of(x);
                assert(out@[k] == x);
            }
        }
        if left {
            i = i + 1;
        } else {
            j = j + 1;
        }
    }
    proof {
        assert forall|x: usize| a@.contains(x) || b@.contains(x) implies out@.contains(x) by {
            if a@.contains(x) {
                let k = a@.index_of(x);
                assert(out@.contains(a@[k]));
            } else {
                let k = b@.index_of(x);
                assert(out@.contains(b@[k]));
            }
        }
    }
    out
}

/// The places from `lo` on, before `hi`, in the order of the needles there.
fn sort_places(needles: &Vec<Needle>, lo: usize, hi: usize) -> (res: Vec<usize>)
    requires
        lo <= hi <= needles@.len(),
    ensures
        in_order(needles@, res@),
        forall|x: usize| res@.contains(x) <==> lo <= x < hi,
    decreases hi - lo,
{
    if hi - lo <= 1 {
        let mut res: Vec<usize> = Vec::new();
        if lo < hi {
            res.push(lo);
            assert(res@[0] == lo);
        }
        return res;
    }
    let mid: usize = lo + (hi - lo) / 2;
    let left: Vec<usize> = sort_places(needles, lo, mid);
    let right: Vec<usize> = sort_places(needles, mid, hi);
    proof {
        assert forall|i: int| 0 <= i < left@.len() implies 0 <= #[trigger] left@[i]
            < needles@.len() by {
            assert(left@.contains(left@[i]));
        }
        assert forall|i: int| 0 <= i < right@.len() implies 0 <= #[trigger] right@[i]
            < needles@.len() by {
            assert(right@.contains(right@[i]));
        }
    }
    merge(needles, &left, &right)
}

// ---------------------------------------------------------------------------
// Grouping the needles by field
// ---------------------------------------------------------------------------

/// The patterns on a field, and the rules that own each.
#[verifier::ext_equal]
pub struct FieldView {
    pub field: Seq<char>,
    pub patterns: Seq<Seq<char>>,
    pub rules: Seq<Seq<u32>>,
}

/// The needle is the pattern `p` of the field `i`.
pub open spec fn held_at(fields: Seq<FieldView>, i: int, p: int, n: NeedleView) -> bool {
    &&& 0 <= i < fields.len()
    &&& fields[i].field == n.field
    &&& 0 <= p < fields[i].patterns.len()
    &&& fields[i].patterns[p] == n.needle
    &&& fields[i].rules[p].contains(n.rule)
}

/// The needle is among the patterns.
pub open spec fn held(fields: Seq<FieldView>, n: NeedleView) -> bool {
    exists|i: int, p: int| held_at(fields, i, p, n)
}

/// Rules in strictly increasing order.
pub open spec fn increasing(rules: Seq<u32>) -> bool {
    forall|i: int, j: int| 0 <= i < j < rules.len() ==> rules[i] < rules[j]
}

/// Patterns in strictly increasing order, each with the rules that own it.
pub open spec fn well_grouped(f: FieldView) -> bool {
    &&& f.patterns.len() > 0
    &&& f.patterns.len() == f.rules.len()
    &&& forall|i: int, j: int|
        0 <= i < j < f.patterns.len() ==> order::before(
            #[trigger] f.patterns[i],
            #[trigger] f.patterns[j],
        )
    &&& forall|i: int|
        0 <= i < f.rules.len() ==> (#[trigger] f.rules[i]).len() > 0 && increasing(f.rules[i])
}

/// Fields in strictly increasing order, each well grouped.
pub open spec fn all_grouped(fields: Seq<FieldView>) -> bool {
    &&& forall|i: int, j: int|
        0 <= i < j < fields.len() ==> order::before(
            (#[trigger] fields[i]).field,
            (#[trigger] fields[j]).field,
        )
    &&& forall|i: int| 0 <= i < fields.len() ==> well_grouped(#[trigger] fields[i])
}

/// The needle that was grouped last.
spec fn last_needle(fields: Seq<FieldView>) -> NeedleView {
    NeedleView {
        field: fields.last().field,
        needle: fields.last().patterns.last(),
        rule: fields.last().rules.last().last(),
    }
}

/// The patterns on a field, and the rules that own each.
pub struct FieldGroup {
    pub field: Vec<char>,
    pub patterns: Vec<Vec<char>>,
    pub rules: Vec<Vec<u32>>,
}

impl View for FieldGroup {
    type V = FieldView;

    open spec fn view(&self) -> FieldView {
        FieldView {
            field: self.field@,
            patterns: text::char_texts(self.patterns@),
            rules: rule_lists(self.rules@),
        }
    }
}

/// What the lists of rules are.
pub open spec fn rule_lists(lists: Seq<Vec<u32>>) -> Seq<Seq<u32>> {
    lists.map_values(|l: Vec<u32>| l@)
}

/// What the groups are.
pub open spec fn group_views(groups: Seq<FieldGroup>) -> Seq<FieldView> {
    groups.map_values(|g: FieldGroup| g@)
}

/// The groups with a needle on a new field.
spec fn with_field(fields: Seq<FieldView>, n: NeedleView) -> Seq<FieldView> {
    fields.push(
        FieldView { field: n.field, patterns: seq![n.needle], rules: seq![seq![n.rule]] },
    )
}

/// The groups with a new needle on the last field.
spec fn with_pattern(fields: Seq<FieldView>, n: NeedleView) -> Seq<FieldView> {
    let last = fields.last();
    fields.drop_last().push(
        FieldView {
            field: last.field,
            patterns: last.patterns.push(n.needle),
            rules: last.rules.push(seq![n.rule]),
        },
    )
}

/// The groups with a new rule for the last needle.
spec fn with_rule(fields: Seq<FieldView>, n: NeedleView) -> Seq<FieldView> {
    let last = fields.last();
    fields.drop_last().push(
        FieldView {
            field: last.field,
            patterns: last.patterns,
            rules: last.rules.drop_last().push(last.rules.last().push(n.rule)),
        },
    )
}

/// What has to hold after a needle was added.
spec fn added(before: Seq<FieldView>, after: Seq<FieldView>, n: NeedleView) -> bool {
    &&& all_grouped(after)
    &&& after.len() > 0
    &&& last_needle(after) == n
    &&& forall|m: NeedleView| #[trigger] held(after, m) <==> held(before, m) || m == n
}

proof fn lemma_with_field(fields: Seq<FieldView>, n: NeedleView)
    requires
        all_grouped(fields),
        fields.len() > 0 ==> order::before(fields.last().field, n.field),
    ensures
        added(fields, with_field(fields, n), n),
{
    let after = with_field(fields, n);
    assert forall|i: int, j: int| 0 <= i < j < after.len() implies order::before(
        (#[trigger] after[i]).field,
        (#[trigger] after[j]).field,
    ) by {
        if j == fields.len() && i < fields.len() - 1 {
            order::lemma_transitive(fields[i].field, fields.last().field, n.field);
        }
    }
    assert forall|m: NeedleView| #[trigger] held(after, m) <==> held(fields, m) || m == n by {
        if held(after, m) {
            let (i, p) = choose|i: int, p: int| held_at(after, i, p, m);
            if i < fields.len() {
                assert(held_at(fields, i, p, m));
            }
        }
        if held(fields, m) {
            let (i, p) = choose|i: int, p: int| held_at(fields, i, p, m);
            assert(held_at(after, i, p, m));
        }
        if m == n {
            assert(seq![n.rule][0] == n.rule);
            assert(held_at(after, fields.len() as int, 0, m));
        }
    }
}

proof fn lemma_with_pattern(fields: Seq<FieldView>, n: NeedleView)
    requires
        all_grouped(fields),
        fields.len() > 0,
        fields.last().field == n.field,
        order::before(fields.last().patterns.last(), n.needle),
    ensures
        added(fields, with_pattern(fields, n), n),
{
    let after = with_pattern(fields, n);
    let last = fields.last();
    let new = after.last();
    let k = fields.len() - 1;
    assert(well_grouped(fields[k]));
    assert(well_grouped(new)) by {
        assert forall|i: int, j: int| 0 <= i < j < new.patterns.len() implies order::before(
            #[trigger] new.patterns[i],
            #[trigger] new.patterns[j],
        ) by {
            if j == last.patterns.len() && i < last.patterns.len() - 1 {
                order::lemma_transitive(last.patterns[i], last.patterns.last(), n.needle);
            }
        }
    }
    assert forall|m: NeedleView| #[trigger] held(after, m) <==> held(fields, m) || m == n by {
        if held(after, m) {
            let (i, p) = choose|i: int, p: int| held_at(after, i, p, m);
            if !(i == k && p == last.patterns.len()) {
                assert(held_at(fields, i, p, m));
            }
        }
        if held(fields, m) {
            let (i, p) = choose|i: int, p: int| held_at(fields, i, p, m);
            assert(held_at(after, i, p, m));
        }
        if m == n {
            assert(seq![n.rule][0] == n.rule);
            assert(held_at(after, k, last.patterns.len() as int, m));
        }
    }
}

proof fn lemma_with_rule(fields: Seq<FieldView>, n: NeedleView)
    requires
        all_grouped(fields),
        fields.len() > 0,
        fields.last().field == n.field,
        fields.last().patterns.last() == n.needle,
        fields.last().rules.last().last() < n.rule,
    ensures
        added(fields, with_rule(fields, n), n),
{
    let after = with_rule(fields, n);
    let last = fields.last();
    let new = after.last();
    let k = fields.len() - 1;
    let q = last.rules.len() - 1;
    let list = last.rules[q];
    assert(well_grouped(fields[k]));
    assert(increasing(list.push(n.rule))) by {
        assert(list.len() > 0 && increasing(list));
        assert forall|i: int, j: int| 0 <= i < j < list.push(n.rule).len() implies list.push(
            n.rule,
        )[i] < list.push(n.rule)[j] by {
            if j == list.len() {
                assert(list[i] <= list[list.len() - 1]);
            }
        }
    }
    assert(well_grouped(new));
    assert forall|m: NeedleView| #[trigger] held(after, m) <==> held(fields, m) || m == n by {
        if held(after, m) {
            let (i, p) = choose|i: int, p: int| held_at(after, i, p, m);
            if i == k && p == q {
                let r = list.push(n.rule).index_of(m.rule);
                if r < list.len() {
                    assert(list[r] == m.rule);
                    assert(held_at(fields, i, p, m));
                } else {
                    assert(m == n);
                }
            } else {
                assert(held_at(fields, i, p, m));
            }
        }
        if held(fields, m) {
            let (i, p) = choose|i: int, p: int| held_at(fields, i, p, m);
            if i == k && p == q {
                let r = list.index_of(m.rule);
                assert(list.push(n.rule)[r] == m.rule);
            }
            assert(held_at(after, i, p, m));
        }
        if m == n {
            assert(list.push(n.rule)[list.len() as int] == n.rule);
            assert(held_at(after, k, q, m));
        }
    }
}

/// Add a needle that comes behind those that are grouped.
fn add_needle(groups: &mut Vec<FieldGroup>, n: &Needle)
    requires
        all_grouped(group_views(old(groups)@)),
        old(groups)@.len() > 0 ==> not_behind(last_needle(group_views(old(groups)@)), n@),
    ensures
        added(group_views(old(groups)@), group_views(final(groups)@), n@),
{
    let ghost before = groups@;
    let ghost fields = group_views(groups@);
    let same_field: bool = groups.len() > 0 && text::same_chars(
        &groups[groups.len() - 1].field,
        &n.field,
    );
    if !same_field {
        let mut patterns: Vec<Vec<char>> = Vec::new();
        patterns.push(text::owned(&n.needle));
        let mut list: Vec<u32> = Vec::new();
        list.push(n.rule);
        let mut rules: Vec<Vec<u32>> = Vec::new();
        rules.push(list);
        let group: FieldGroup = FieldGroup { field: text::owned(&n.field), patterns, rules };
        groups.push(group);
        proof {
            assert(list@ =~= seq![n.rule]);
            assert(text::char_texts(patterns@) =~= seq![n.needle@]);
            assert(rule_lists(rules@) =~= seq![seq![n.rule]]);
            assert(group_views(groups@) =~= with_field(fields, n@));
            lemma_with_field(fields, n@);
        }
        return;
    }
    proof {
        assert(well_grouped(fields[fields.len() - 1]));
        assert(fields.last() == before.last()@);
    }
    let mut last: FieldGroup = groups.pop().unwrap();
    let ghost old_last = last@;
    assert(group_views(groups@) =~= fields.drop_last());
    let same_needle: bool = text::same_chars(&last.patterns[last.patterns.len() - 1], &n.needle);
    if !same_needle {
        let mut list: Vec<u32> = Vec::new();
        list.push(n.rule);
        last.patterns.push(text::owned(&n.needle));
        last.rules.push(list);
        proof {
            assert(list@ =~= seq![n.rule]);
            assert(last@.patterns =~= old_last.patterns.push(n.needle@));
            assert(last@.rules =~= old_last.rules.push(seq![n.rule]));
        }
        groups.push(last);
        proof {
            assert(group_views(groups@) =~= with_pattern(fields, n@));
            order::lemma_irreflexive(n.field@);
            lemma_with_pattern(fields, n@);
        }
        return;
    }
    let mut list: Vec<u32> = last.rules.pop().unwrap();
    let ghost old_list = list@;
    assert(old_list == old_last.rules.last());
    assert(rule_lists(last.rules@) =~= old_last.rules.drop_last());
    let new_rule: bool = list[list.len() - 1] != n.rule;
    if new_rule {
        list.push(n.rule);
    }
    last.rules.push(list);
    proof {
        assert(last@.rules =~= old_last.rules.drop_last().push(list@));
        if !new_rule {
            assert(last@.rules =~= old_last.rules);
        }
    }
    groups.push(last);
    proof {
        if new_rule {
            assert(group_views(groups@) =~= with_rule(fields, n@));
            order::lemma_irreflexive(n.field@);
            order::lemma_irreflexive(n.needle@);
            lemma_with_rule(fields, n@);
        } else {
            assert(group_views(groups@) =~= fields);
            let k = fields.len() - 1;
            let q = old_last.rules.len() - 1;
            assert(old_list[old_list.len() - 1] == n.rule);
            assert(held_at(fields, k, q, n@));
        }
    }
}

/// Group the needles by field and pattern.
pub fn group_needles(needles: &Vec<Needle>) -> (res: Vec<FieldGroup>)
    ensures
        all_grouped(group_views(res@)),
        forall|n: NeedleView| #[trigger]
            held(group_views(res@), n) <==> needles::needle_views(needles@).contains(n),
{
    let places: Vec<usize> = sort_places(needles, 0, needles.len());
    let mut groups: Vec<FieldGroup> = Vec::new();
    let mut k: usize = 0;
    while k < places.len()
        invariant
            0 <= k <= places@.len(),
            in_order(needles@, places@),
            forall|x: usize| places@.contains(x) <==> 0 <= x < needles@.len(),
            all_grouped(group_views(groups@)),
            k > 0 ==> groups@.len() > 0 && last_needle(group_views(groups@))
                == needles@[places@[k - 1] as int]@,
            k == 0 ==> groups@.len() == 0,
            forall|n: NeedleView| #[trigger]
                held(group_views(groups@), n) <==> exists|j: int|
                    0 <= j < k && needles@[(#[trigger] places@[j]) as int]@ == n,
        decreases places@.len() - k,
    {
        assert(places@.contains(places@[k as int]));
        if k > 0 {
            assert(not_behind(
                needles@[places@[k - 1] as int]@,
                needles@[places@[k as int] as int]@,
            ));
        }
        let ghost before = group_views(groups@);
        let ghost n = needles@[places@[k as int] as int]@;
        add_needle(&mut groups, &needles[places[k]]);
        proof {
            assert forall|m: NeedleView| #[trigger]
                held(group_views(groups@), m) <==> exists|j: int|
                    0 <= j < k + 1 && needles@[(#[trigger] places@[j]) as int]@ == m by {
                if held(before, m) {
                    let j = choose|j: int|
                        0 <= j < k && needles@[(#[trigger] places@[j]) as int]@ == m;
                    assert(needles@[places@[j] as int]@ == m);
                }
                if m == n {
                    assert(needles@[places@[k as int] as int]@ == m);
                }
            }
        }
        k = k + 1;
    }
    proof {
        let all = needles::needle_views(needles@);
        assert forall|n: NeedleView| #[trigger] held(group_views(groups@), n) <==> all.contains(
            n,
        ) by {
            if held(group_views(groups@), n) {
                let j = choose|j: int|
                    0 <= j < k && needles@[(#[trigger] places@[j]) as int]@ == n;
                assert(places@.contains(places@[j]));
                assert(all[places@[j] as int] == n);
            }
            if all.contains(n) {
                let x = all.index_of(n);
                let place = x as usize;
                assert(places@.contains(place));
                let j = places@.index_of(place);
                assert(needles@[places@[j] as int]@ == n);
            }
        }
    }
    groups
}

} // verus!
