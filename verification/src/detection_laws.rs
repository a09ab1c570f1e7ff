//! What detections mean, and how keys are read.

use crate::ast::ArrayQuantifier;
use crate::ast::DetectionItemView;
use crate::ast::DetectionView;
use crate::ast::FieldSpecView;
use crate::ast::Modifier;
use crate::ast::ParserErrorView;
use crate::ast::SigmaValueView;
use crate::ast;
use crate::detection::ParsedEntryView;
use crate::detection::PathSegmentView;
use crate::detection;
use crate::outcome;
use crate::text;
use crate::yaml::YamlView;
use crate::yaml;
use vstd::prelude::*;

verus! {

// ---------------------------------------------------------------------------
// What a detection means
// ---------------------------------------------------------------------------

/// What holds of an event: the items, the array blocks and the keywords.
pub struct Reading {
    pub item: spec_fn(DetectionItemView) -> bool,
    pub block: spec_fn(Seq<char>, ArrayQuantifier, DetectionView) -> bool,
    pub keyword: spec_fn(SigmaValueView) -> bool,
}

/// The detection holds: all of its items, all or any of its detections, its block, or
/// any of its keywords.
pub open spec fn holds(d: DetectionView, r: Reading) -> bool
    decreases d,
{
    match d {
        DetectionView::AllOf(items) => all_items(items, r),
        DetectionView::AnyOf(subs) => any_holds(subs, r),
        DetectionView::And(subs) => all_hold(subs, r),
        DetectionView::ArrayMatch { field, quantifier, body } => (r.block)(
            field,
            quantifier,
            *body,
        ),
        DetectionView::Keywords(values) => some_keyword(values, r),
    }
}

/// Every item holds.
pub open spec fn all_items(items: Seq<DetectionItemView>, r: Reading) -> bool {
    forall|i: int| 0 <= i < items.len() ==> (r.item)(#[trigger] items[i])
}

/// Some keyword holds.
pub open spec fn some_keyword(values: Seq<SigmaValueView>, r: Reading) -> bool {
    exists|i: int| 0 <= i < values.len() && (r.keyword)(#[trigger] values[i])
}

/// Some detection holds.
pub open spec fn any_holds(subs: Seq<DetectionView>, r: Reading) -> bool
    decreases subs,
{
    subs.len() > 0 && (any_holds(subs.drop_last(), r) || holds(subs.last(), r))
}

/// Every detection holds.
pub open spec fn all_hold(subs: Seq<DetectionView>, r: Reading) -> bool
    decreases subs,
{
    subs.len() > 0 ==> all_hold(subs.drop_last(), r) && holds(subs.last(), r)
}

/// An entry of a mapping holds.
pub open spec fn entry_holds(e: ParsedEntryView, r: Reading) -> bool {
    match e {
        ParsedEntryView::Item(i) => (r.item)(i),
        ParsedEntryView::Block(b) => holds(b, r),
    }
}

/// The entry at place `i` of a mapping, parsed.
pub open spec fn entry(m: Seq<(YamlView, YamlView)>, i: int) -> Result<
    ParsedEntryView,
    ParserErrorView,
> {
    detection::entry_of(detection::key_name(m[i].0), m[i].1)
}

proof fn lemma_lists(subs: Seq<DetectionView>, r: Reading)
    ensures
        all_hold(subs, r) <==> forall|i: int| 0 <= i < subs.len() ==> holds(#[trigger] subs[i], r),
        any_holds(subs, r) <==> exists|i: int| 0 <= i < subs.len() && holds(#[trigger] subs[i], r),
    decreases subs.len(),
{
    if subs.len() > 0 {
        let front = subs.drop_last();
        let n = front.len() as int;
        lemma_lists(front, r);
        assert(subs.last() == subs[n]);
        assert forall|i: int| 0 <= i < n implies #[trigger] front[i] == subs[i] by {}
        if any_holds(front, r) {
            let i = choose|i: int| 0 <= i < front.len() && holds(#[trigger] front[i], r);
            assert(holds(subs[i], r));
        }
        if exists|i: int| 0 <= i < subs.len() && holds(#[trigger] subs[i], r) {
            let i = choose|i: int| 0 <= i < subs.len() && holds(#[trigger] subs[i], r);
            if i < n {
                assert(holds(front[i], r));
            }
        }
        if all_hold(subs, r) {
            assert forall|i: int| 0 <= i < subs.len() implies holds(#[trigger] subs[i], r) by {
                if i < n {
                    assert(holds(front[i], r));
                }
            }
        }
        if forall|i: int| 0 <= i < subs.len() ==> holds(#[trigger] subs[i], r) {
            assert forall|i: int| 0 <= i < n implies holds(#[trigger] front[i], r) by {
                assert(holds(subs[i], r));
            }
        }
    }
}

/// The items and the blocks among entries hold if all the entries do.
proof fn lemma_among(entries: Seq<ParsedEntryView>, r: Reading)
    ensures
        (forall|i: int| 0 <= i < entries.len() ==> entry_holds(#[trigger] entries[i], r)) <==> (
        all_items(detection::items_among(entries), r) && all_hold(
            detection::blocks_among(entries),
            r,
        )),
    decreases entries.len(),
{
    let items = detection::items_among(entries);
    let blocks = detection::blocks_among(entries);
    if entries.len() > 0 {
        let front = entries.drop_last();
        let n = front.len() as int;
        lemma_among(front, r);
        assert(entries.last() == entries[n]);
        assert forall|i: int| 0 <= i < n implies #[trigger] front[i] == entries[i] by {}
        let before = detection::items_among(front);
        let all = forall|i: int| 0 <= i < entries.len() ==> entry_holds(#[trigger] entries[i], r);
        let all_front = forall|i: int| 0 <= i < n ==> entry_holds(#[trigger] front[i], r);
        assert(all <==> all_front && entry_holds(entries[n], r)) by {
            if all {
                assert forall|i: int| 0 <= i < n implies entry_holds(#[trigger] front[i], r) by {
                    assert(entry_holds(entries[i], r));
                }
            }
            if all_front && entry_holds(entries[n], r) {
                assert forall|i: int| 0 <= i < entries.len() implies entry_holds(
                    #[trigger] entries[i],
                    r,
                ) by {
                    if i < n {
                        assert(entry_holds(front[i], r));
                    }
                }
            }
        }
        match entries[n] {
            ParsedEntryView::Item(x) => {
                let m = before.len() as int;
                assert(items == before.push(x));
                assert(all_items(items, r) <==> (all_items(before, r) && (r.item)(x))) by {
                    if all_items(items, r) {
                        assert forall|i: int| 0 <= i < m implies (r.item)(#[trigger] before[i]) by {
                            assert((r.item)(items[i]));
                        }
                        assert((r.item)(items[m]));
                    }
                }
            },
            ParsedEntryView::Block(b) => {
                let earlier = detection::blocks_among(front);
                assert(blocks.drop_last() =~= earlier);
            },
        }
    }
}

/// The entries of a mapping are linked by AND: the detection holds if and only if every
/// entry does, be they items or array blocks and however many there are. Every entry
/// has to parse; else the failure is that of the first that does not.
pub proof fn lemma_mapping_is_conjunction(m: Seq<(YamlView, YamlView)>, r: Reading)
    ensures
        match detection::detection_of(YamlView::Mapping(m)) {
            Ok(d) => {
                &&& forall|i: int| 0 <= i < m.len() ==> (#[trigger] entry(m, i)) is Ok
                &&& holds(d, r) <==> forall|i: int|
                    0 <= i < m.len() ==> entry_holds((#[trigger] entry(m, i))->Ok_0, r)
            },
            Err(e) => exists|i: int|
                0 <= i < m.len() && #[trigger] entry(m, i) == Err::<
                    ParsedEntryView,
                    ParserErrorView,
                >(e) && forall|j: int| 0 <= j < i ==> (#[trigger] entry(m, j)) is Ok,
        },
{
    let results = detection::entry_results(m);
    detection::lemma_entry_results(m);
    outcome::lemma_collected(results);
    match outcome::collect(results) {
        Err(e) => {
            let i = choose|i: int| #[trigger] outcome::fails_first(results, i, e);
            assert(results[i] == entry(m, i));
            assert forall|j: int| 0 <= j < i implies (#[trigger] entry(m, j)) is Ok by {
                assert(results[j] == entry(m, j));
            }
        },
        Ok(entries) => {
            assert forall|i: int| 0 <= i < m.len() implies #[trigger] entry(m, i) == Ok::<
                ParsedEntryView,
                ParserErrorView,
            >(entries[i]) by {
                assert(results[i] == entry(m, i));
            }
            lemma_among(entries, r);
            let items = detection::items_among(entries);
            let blocks = detection::blocks_among(entries);
            lemma_lists(blocks, r);
            let all = forall|i: int| 0 <= i < entries.len() ==> entry_holds(#[trigger] entries[i], r);
            assert(all <==> forall|i: int|
                0 <= i < m.len() ==> entry_holds((#[trigger] entry(m, i))->Ok_0, r)) by {
                if forall|i: int|
                    0 <= i < m.len() ==> entry_holds((#[trigger] entry(m, i))->Ok_0, r) {
                    assert forall|i: int| 0 <= i < entries.len() implies entry_holds(
                        #[trigger] entries[i],
                        r,
                    ) by {
                        assert(entry_holds(entry(m, i)->Ok_0, r));
                    }
                }
            }
            let d = detection::detection_of(YamlView::Mapping(m))->Ok_0;
            let first = DetectionView::AllOf(items);
            let whole = seq![first] + blocks;
            lemma_lists(whole, r);
            assert(all_hold(whole, r) <==> holds(first, r) && all_hold(blocks, r)) by {
                if all_hold(whole, r) {
                    assert(holds(whole[0], r));
                    assert forall|i: int| 0 <= i < blocks.len() implies holds(
                        #[trigger] blocks[i],
                        r,
                    ) by {
                        assert(whole[i + 1] == blocks[i]);
                        assert(holds(whole[i + 1], r));
                    }
                }
                if holds(first, r) && all_hold(blocks, r) {
                    assert forall|i: int| 0 <= i < whole.len() implies holds(
                        #[trigger] whole[i],
                        r,
                    ) by {
                        if i > 0 {
                            assert(whole[i] == blocks[i - 1]);
                        }
                    }
                }
            }
            assert(holds(d, r) <==> all);
        },
    }
}

/// The members of a list that are not all plain values are linked by OR: the detection
/// holds if and only if that of some member does. Every member has to parse.
pub proof fn lemma_list_is_disjunction(items: Seq<YamlView>, r: Reading)
    requires
        exists|i: int|
            0 <= i < items.len() && (yaml::entries_of(#[trigger] items[i]) is Some
                || yaml::untagged(items[i]) is Sequence),
    ensures
        match detection::detection_of(YamlView::Sequence(items)) {
            Ok(d) => {
                &&& forall|i: int|
                    0 <= i < items.len() ==> detection::detection_of(#[trigger] items[i]) is Ok
                &&& holds(d, r) <==> exists|i: int|
                    0 <= i < items.len() && holds(
                        detection::detection_of(#[trigger] items[i])->Ok_0,
                        r,
                    )
            },
            Err(e) => exists|i: int|
                0 <= i < items.len() && detection::detection_of(#[trigger] items[i]) == Err::<
                    DetectionView,
                    ParserErrorView,
                >(e) && forall|j: int|
                    0 <= j < i ==> detection::detection_of(#[trigger] items[j]) is Ok,
        },
{
    let p = choose|i: int|
        0 <= i < items.len() && (yaml::entries_of(#[trigger] items[i]) is Some || yaml::untagged(
            items[i],
        ) is Sequence);
    assert(!yaml::plain(items[p]));
    let results = detection::detection_results(items);
    detection::lemma_detection_results(items);
    outcome::lemma_collected(results);
    match outcome::collect(results) {
        Err(e) => {
            let i = choose|i: int| #[trigger] outcome::fails_first(results, i, e);
            assert(results[i] == detection::detection_of(items[i]));
            assert forall|j: int| 0 <= j < i implies detection::detection_of(
                #[trigger] items[j],
            ) is Ok by {
                assert(results[j] == detection::detection_of(items[j]));
            }
        },
        Ok(subs) => {
            assert forall|i: int| 0 <= i < items.len() implies detection::detection_of(
                #[trigger] items[i],
            ) == Ok::<DetectionView, ParserErrorView>(subs[i]) by {
                assert(results[i] == detection::detection_of(items[i]));
            }
            lemma_lists(subs, r);
            if any_holds(subs, r) {
                let i = choose|i: int| 0 <= i < subs.len() && holds(#[trigger] subs[i], r);
                assert(holds(detection::detection_of(items[i])->Ok_0, r));
            }
            if exists|i: int|
                0 <= i < items.len() && holds(
                    detection::detection_of(#[trigger] items[i])->Ok_0,
                    r,
                ) {
                let i = choose|i: int|
                    0 <= i < items.len() && holds(
                        detection::detection_of(#[trigger] items[i])->Ok_0,
                        r,
                    );
                assert(holds(subs[i], r));
            }
        },
    }
}

/// A list of plain values holds if one of them does as a keyword, and any other value
/// that is neither a mapping nor a list if it does itself.
pub proof fn lemma_plain_values_are_keywords(items: Seq<YamlView>, v: YamlView, r: Reading)
    requires
        forall|i: int|
            0 <= i < items.len() ==> !(yaml::untagged(#[trigger] items[i]) is Mapping)
                && !(yaml::untagged(items[i]) is Sequence),
        !(v is Mapping),
        !(v is Sequence),
    ensures
        detection::detection_of(YamlView::Sequence(items)) matches Ok(d) && (holds(d, r)
            <==> exists|i: int|
            0 <= i < items.len() && (r.keyword)(SigmaValueView::Yaml(#[trigger] items[i]))),
        detection::detection_of(v) matches Ok(d) && (holds(d, r) <==> (r.keyword)(
            SigmaValueView::Yaml(v),
        )),
{
    let values = items.map_values(|x: YamlView| SigmaValueView::Yaml(x));
    assert(detection::all_plain(items));
    assert(detection::detection_of(YamlView::Sequence(items)) == Ok::<
        DetectionView,
        ParserErrorView,
    >(DetectionView::Keywords(values)));
    if exists|i: int|
        0 <= i < items.len() && (r.keyword)(SigmaValueView::Yaml(#[trigger] items[i])) {
        let i = choose|i: int|
            0 <= i < items.len() && (r.keyword)(SigmaValueView::Yaml(#[trigger] items[i]));
        assert((r.keyword)(values[i]));
    }
    if some_keyword(values, r) {
        let i = choose|i: int| 0 <= i < values.len() && (r.keyword)(#[trigger] values[i]);
        assert((r.keyword)(SigmaValueView::Yaml(items[i])));
    }
    let one = seq![v].map_values(|x: YamlView| SigmaValueView::Yaml(x));
    assert(one =~= seq![SigmaValueView::Yaml(v)]);
    if (r.keyword)(SigmaValueView::Yaml(v)) {
        assert((r.keyword)(one[0]));
    }
    assert(detection::detection_of(v) == Ok::<DetectionView, ParserErrorView>(
        DetectionView::Keywords(one),
    ));
    assert(holds(DetectionView::Keywords(one), r) == some_keyword(one, r));
    assert(holds(DetectionView::Keywords(values), r) == some_keyword(values, r));
}

// ---------------------------------------------------------------------------
// Field specifications
// ---------------------------------------------------------------------------

/// Splitting a text with a part behind it.
proof fn lemma_split_behind(s: Seq<char>, t: Seq<char>, sep: char)
    requires
        !t.contains(sep),
    ensures
        text::split(s + seq![sep] + t, sep) == text::split(s, sep).push(t),
{
    let pieces = text::split(s, sep);
    text::lemma_split_nonempty(s, sep);
    text::lemma_split_pieces(s, sep);
    text::lemma_join_split(s, sep);
    let all = pieces.push(t);
    assert forall|i: int| 0 <= i < all.len() implies !(#[trigger] all[i]).contains(sep) by {
        if i < pieces.len() {
            assert(all[i] == pieces[i]);
        }
    }
    text::lemma_split_join(all, sep);
    assert(all.drop_last() =~= pieces);
}

/// A text without the separator is one part.
proof fn lemma_split_one(t: Seq<char>, sep: char)
    requires
        !t.contains(sep),
    ensures
        text::split(t, sep) == seq![t],
{
    text::lemma_split_join(seq![t], sep);
}

/// A name without a `|` is a field without modifiers; an empty one is no field.
pub proof fn lemma_name_is_field(name: Seq<char>)
    requires
        !name.contains('|'),
    ensures
        detection::field_spec_of(name) == Ok::<FieldSpecView, ParserErrorView>(
            FieldSpecView {
                name: if name.len() == 0 {
                    None
                } else {
                    Some(name)
                },
                modifiers: Seq::empty(),
            },
        ),
{
    assert forall|i: int| 0 <= i < name.len() implies name[i] != '|' by {
        assert(name.contains(name[i]));
    }
    text::lemma_find_unique(name, '|', name.len() as int);
    assert(name.take(name.len() as int) =~= name);
}

/// One more modifier behind a key: its name is read by itself, and stands last in the
/// chain; the field and the modifiers before it stay. `not` is refused, and so is a
/// name that no modifier has.
pub proof fn lemma_modifier_is_added(key: Seq<char>, name: Seq<char>)
    requires
        !name.contains('|'),
    ensures
        match detection::field_spec_of(key) {
            Ok(spec) => detection::field_spec_of(key + "|"@ + name) == (if name == "not"@ {
                Err::<FieldSpecView, ParserErrorView>(ParserErrorView::NotIsNotAModifier)
            } else {
                match ast::modifier_named(name) {
                    Some(m) => Ok(
                        FieldSpecView { name: spec.name, modifiers: spec.modifiers.push(m) },
                    ),
                    None => Err(ParserErrorView::UnknownModifier(name)),
                }
            }),
            Err(e) => detection::field_spec_of(key + "|"@ + name) == Err::<
                FieldSpecView,
                ParserErrorView,
            >(e),
        },
{
    reveal_strlit("|");
    assert("|"@ =~= seq!['|']);
    let whole = key + "|"@ + name;
    text::lemma_find(key, '|');
    let k = text::find(key, '|');
    assert forall|i: int| 0 <= i < k implies whole[i] != '|' by {
        assert(whole[i] == key[i]);
    }
    text::lemma_find_unique(whole, '|', k);
    assert(whole.take(k) =~= key.take(k));
    if k < key.len() {
        let chain = key.skip(k + 1);
        assert(whole.skip(k + 1) =~= chain + seq!['|'] + name);
        lemma_split_behind(chain, name, '|');
        let before = detection::modifier_results(chain);
        assert(detection::modifier_results(chain + seq!['|'] + name) =~= before.push(
            detection::modifier_of(name),
        ));
        outcome::lemma_collect_push(before, detection::modifier_of(name));
    } else {
        assert(whole.skip(k + 1) =~= name);
        lemma_split_one(name, '|');
        let none: Seq<Result<Modifier, ParserErrorView>> = Seq::empty();
        assert(detection::modifier_results(name) =~= none.push(detection::modifier_of(name)));
        outcome::lemma_collect_push(none, detection::modifier_of(name));
        assert(detection::modifiers_of(detection::modifier_part(key)) == Ok::<
            Seq<Modifier>,
            ParserErrorView,
        >(Seq::empty()));
    }
}

/// The values of an item: one for each member of a list, in order, or one for the value
/// given. Under `re` a string is taken as it stands; every other value is carried.
pub proof fn lemma_item_values(key: Seq<char>, v: YamlView)
    ensures
        match detection::field_spec_of(key) {
            Err(e) => detection::item_of(key, v) == Err::<DetectionItemView, ParserErrorView>(e),
            Ok(spec) => detection::item_of(key, v) matches Ok(item) && item.field == spec && (
            match v {
                YamlView::Sequence(items) => item.values.len() == items.len() && forall|i: int|
                    0 <= i < items.len() ==> is_value(
                        #[trigger] item.values[i],
                        items[i],
                        spec.modifiers.contains(Modifier::Re),
                    ),
                _ => item.values.len() == 1 && is_value(
                    item.values[0],
                    v,
                    spec.modifiers.contains(Modifier::Re),
                ),
            }),
        },
{
}

/// `value` is what the YAML value gives, `raw` telling whether strings are taken as they
/// stand.
pub open spec fn is_value(value: SigmaValueView, v: YamlView, raw: bool) -> bool {
    match v {
        YamlView::String(s) => if raw {
            value == SigmaValueView::Raw(s)
        } else {
            value == SigmaValueView::Yaml(v)
        },
        _ => value == SigmaValueView::Yaml(v),
    }
}

// ---------------------------------------------------------------------------
// Keys
// ---------------------------------------------------------------------------

/// A path that holds neither brackets nor a `|`, and ends with a name.
pub open spec fn plain_path(path: Seq<char>) -> bool {
    &&& path.len() > 0
    &&& path.last() != '.'
    &&& !path.contains('[')
    &&& !path.contains(']')
    &&& !path.contains('|')
}

/// What an entry is as the body of an array block.
pub open spec fn as_body(e: ParsedEntryView) -> DetectionView {
    match e {
        ParsedEntryView::Item(item) => DetectionView::AllOf(seq![item]),
        ParsedEntryView::Block(block) => block,
    }
}

/// The entry is a block over the members of an array.
pub open spec fn is_block(
    r: Result<ParsedEntryView, ParserErrorView>,
    path: Seq<char>,
    q: ArrayQuantifier,
    body: DetectionView,
) -> bool {
    r == Ok::<ParsedEntryView, ParserErrorView>(
        ParsedEntryView::Block(
            DetectionView::ArrayMatch { field: path, quantifier: q, body: Box::new(body) },
        ),
    )
}

/// The parts of a path, a selector put behind the last.
spec fn selected_parts(path: Seq<char>, selector: Seq<char>) -> Seq<Seq<char>> {
    let parts = text::split(path, '.');
    parts.drop_last().push(parts.last() + selector)
}

/// A part of a path holds no character that the path does not.
proof fn lemma_part_chars(path: Seq<char>, i: int, c: char)
    requires
        0 <= i < text::split(path, '.').len(),
        !path.contains(c),
    ensures
        !text::split(path, '.')[i].contains(c),
    decreases path.len(),
{
    text::lemma_find(path, '.');
    let k = text::find(path, '.');
    if k < path.len() {
        let rest = path.skip(k + 1);
        if i == 0 {
            let part = text::split(path, '.')[0];
            assert(part == path.take(k));
            if part.contains(c) {
                let j = part.index_of(c);
                assert(path[j] == c);
            }
        } else {
            assert(!rest.contains(c)) by {
                if rest.contains(c) {
                    let j = rest.index_of(c);
                    assert(path[k + 1 + j] == c);
                }
            }
            lemma_part_chars(rest, i - 1, c);
            assert(text::split(path, '.')[i] == text::split(rest, '.')[i - 1]);
        }
    }
}

/// The last part of a path is not empty if the path does not end with a dot.
proof fn lemma_last_part(path: Seq<char>)
    requires
        path.len() > 0,
        path.last() != '.',
    ensures
        text::split(path, '.').last().len() > 0,
    decreases path.len(),
{
    text::lemma_find(path, '.');
    let k = text::find(path, '.');
    if k < path.len() {
        let rest = path.skip(k + 1);
        assert(path[path.len() - 1] == path.last());
        assert(k < path.len() - 1);
        assert(rest.last() == path.last());
        lemma_last_part(rest);
        text::lemma_split_nonempty(rest, '.');
        assert(text::split(path, '.').last() == text::split(rest, '.').last());
    }
}

/// Joining the parts of a path, a selector put behind the last, puts it behind the path.
proof fn lemma_selected_parts(path: Seq<char>, selector: Seq<char>)
    requires
        !selector.contains('.'),
    ensures
        text::join(selected_parts(path, selector), seq!['.']) == path + selector,
        selected_parts(path, selector).len() == text::split(path, '.').len(),
        forall|i: int|
            0 <= i < selected_parts(path, selector).len() ==> !(#[trigger] selected_parts(
                path,
                selector,
            )[i]).contains('.'),
{
    let parts = text::split(path, '.');
    let all = selected_parts(path, selector);
    text::lemma_split_nonempty(path, '.');
    text::lemma_split_pieces(path, '.');
    text::lemma_join_split(path, '.');
    let n = parts.len() - 1;
    assert(all.drop_last() =~= parts.drop_last());
    assert(parts[n] == parts.last());
    assert(text::join(all, seq!['.']) =~= path + selector);
    assert forall|i: int| 0 <= i < all.len() implies !(#[trigger] all[i]).contains('.') by {
        if i < n {
            assert(all[i] == parts[i]);
        } else {
            let last = parts[n];
            if (last + selector).contains('.') {
                let j = (last + selector).index_of('.');
                if j < last.len() {
                    assert(last[j] == '.');
                } else {
                    assert(selector[j - last.len()] == '.');
                }
            }
        }
    }
}

/// The segments of a plain path, the last with a quantifier.
spec fn quantified_segments(path: Seq<char>, q: Option<ArrayQuantifier>) -> Seq<PathSegmentView> {
    let parts = text::split(path, '.');
    Seq::new(
        parts.len(),
        |i: int|
            PathSegmentView {
                name: parts[i],
                quantifier: if i == parts.len() - 1 {
                    q
                } else {
                    None
                },
            },
    )
}

/// A path with a quantifier behind it, and possibly another path behind that, has the
/// segments of both.
proof fn lemma_quantified_path(
    path: Seq<char>,
    token: Seq<char>,
    q: ArrayQuantifier,
    rest: Option<Seq<char>>,
)
    requires
        plain_path(path),
        detection::quantifier_named(token) == Some(q),
        !token.contains('.'),
        rest matches Some(r) ==> detection::path_of(r) is Ok,
    ensures
        ({
            let head = path + (seq!['['] + token + seq![']']);
            let whole = match rest {
                Some(r) => head + seq!['.'] + r,
                None => head,
            };
            let more = match rest {
                Some(r) => detection::path_of(r)->Ok_0,
                None => Seq::empty(),
            };
            detection::path_of(whole) == Ok::<Seq<PathSegmentView>, ParserErrorView>(
                quantified_segments(path, Some(q)) + more,
            )
        }),
{
    let selector = seq!['['] + token + seq![']'];
    let head = path + selector;
    let whole = match rest {
        Some(r) => head + seq!['.'] + r,
        None => head,
    };
    let more: Seq<PathSegmentView> = match rest {
        Some(r) => detection::path_of(r)->Ok_0,
        None => Seq::empty(),
    };
    assert(!selector.contains('.')) by {
        if selector.contains('.') {
            let j = selector.index_of('.');
            assert(0 < j < selector.len() - 1);
            assert(token[j - 1] == '.');
        }
    }
    lemma_selected_parts(path, selector);
    text::lemma_split_nonempty(path, '.');
    let parts = text::split(path, '.');
    let front = selected_parts(path, selector);
    let n = parts.len() as int;
    let all = match rest {
        Some(r) => front + text::split(r, '.'),
        None => front,
    };
    match rest {
        Some(r) => {
            text::lemma_split_pieces(r, '.');
            text::lemma_split_nonempty(r, '.');
            text::lemma_join_split(r, '.');
            text::lemma_join_parts(all, n, seq!['.']);
            assert(all.take(n) =~= front);
            assert(all.skip(n) =~= text::split(r, '.'));
            detection::lemma_path_segments(r);
        },
        None => {},
    }
    assert(text::join(all, seq!['.']) == whole);
    assert forall|i: int| 0 <= i < all.len() implies !(#[trigger] all[i]).contains('.') by {
        if i < n {
            assert(all[i] == front[i]);
        } else {
            assert(all[i] == text::split(rest->0, '.')[i - n]);
        }
    }
    text::lemma_split_join(all, '.');
    let segments = quantified_segments(path, Some(q)) + more;
    let results = detection::segment_results(whole);
    assert(results.len() == all.len());
    assert forall|i: int| 0 <= i < results.len() implies #[trigger] results[i] == Ok::<
        PathSegmentView,
        ParserErrorView,
    >(segments[i]) by {
        assert(results[i] == detection::segment_of(all[i], whole));
        if i < n - 1 {
            lemma_part_chars(path, i, ']');
            let part = parts[i];
            assert(all[i] == part);
            if part.len() > 0 {
                assert(part.contains(part.last()));
            }
        } else if i == n - 1 {
            let part = parts[i];
            lemma_part_chars(path, i, '[');
            lemma_last_part(path);
            let raw = part + selector;
            assert(all[i] == raw);
            assert(raw.last() == ']');
            assert forall|j: int| 0 <= j < part.len() implies raw[j] != '[' by {
                assert(raw[j] == part[j]);
                assert(part.contains(part[j]));
            }
            text::lemma_find_unique(raw, '[', part.len() as int);
            assert(detection::selector_name(raw) =~= part);
            assert(detection::selector_token(raw) =~= token);
        } else {
            let r = rest->0;
            assert(all[i] == text::split(r, '.')[i - n]);
            assert(detection::segment_of(text::split(r, '.')[i - n], r) == Ok::<
                PathSegmentView,
                ParserErrorView,
            >(more[i - n]));
        }
    }
    assert(segments.len() == results.len());
    detection::lemma_all_ok(results, segments);
}

/// Where the first quantifier stands.
proof fn lemma_quantified_at(segments: Seq<PathSegmentView>, k: int)
    requires
        0 <= k < segments.len(),
        segments[k].quantifier is Some,
        forall|i: int| 0 <= i < k ==> (#[trigger] segments[i]).quantifier is None,
    ensures
        detection::first_quantified(segments) == k,
    decreases k,
{
    if k > 0 {
        assert(segments[0].quantifier is None);
        let rest = segments.skip(1);
        assert forall|i: int| 0 <= i < k - 1 implies (#[trigger] rest[i]).quantifier is None by {
            assert(rest[i] == segments[i + 1]);
        }
        lemma_quantified_at(rest, k - 1);
    }
}

/// The parts of a key with a text without a `|` in front of it.
proof fn lemma_key_behind(front: Seq<char>, key: Seq<char>)
    requires
        !front.contains('|'),
    ensures
        detection::field_part(front + key) == front + detection::field_part(key),
        detection::modifier_part(front + key) == detection::modifier_part(key),
{
    text::lemma_find(key, '|');
    let k = text::find(key, '|');
    let whole = front + key;
    assert forall|i: int| 0 <= i < front.len() + k implies whole[i] != '|' by {
        if i < front.len() {
            assert(whole[i] == front[i]);
            assert(front.contains(front[i]));
        } else {
            assert(whole[i] == key[i - front.len()]);
        }
    }
    text::lemma_find_unique(whole, '|', front.len() + k);
    assert(whole.take(front.len() + k) =~= front + key.take(k));
    if k < key.len() {
        assert(whole.skip(front.len() + k + 1) =~= key.skip(k + 1));
    }
}

/// The entry at a quantified path is a block of the body behind it.
proof fn lemma_block_at(
    path: Seq<char>,
    q: ArrayQuantifier,
    more: Seq<PathSegmentView>,
    chain: Option<Seq<char>>,
    v: YamlView,
)
    ensures
        match detection::block_body(more, chain, v) {
            Ok(body) => is_block(
                detection::entry_at(quantified_segments(path, Some(q)) + more, chain, v),
                path,
                q,
                body,
            ),
            Err(e) => detection::entry_at(quantified_segments(path, Some(q)) + more, chain, v)
                == Err::<ParsedEntryView, ParserErrorView>(e),
        },
{
    reveal_strlit(".");
    assert("."@ =~= seq!['.']);
    text::lemma_split_nonempty(path, '.');
    text::lemma_join_split(path, '.');
    let front = quantified_segments(path, Some(q));
    let all = front + more;
    let n = front.len() as int;
    assert(all[n - 1] == front[n - 1]);
    assert forall|i: int| 0 <= i < n - 1 implies (#[trigger] all[i]).quantifier is None by {
        assert(all[i] == front[i]);
    }
    lemma_quantified_at(all, n - 1);
    assert(all.skip(n) =~= more);
    assert(all.take(n).map_values(|s: PathSegmentView| s.name) =~= text::split(path, '.'));
}

/// A key with a quantifier behind a path and another key behind that.
proof fn lemma_quantified_key(
    path: Seq<char>,
    token: Seq<char>,
    q: ArrayQuantifier,
    rest: Seq<char>,
    v: YamlView,
)
    requires
        plain_path(path),
        detection::quantifier_named(token) == Some(q),
        !token.contains('.'),
        !token.contains('|'),
        detection::field_part(rest).len() > 0,
        detection::entry_of(rest, v) is Ok,
    ensures
        is_block(
            detection::entry_of(path + (seq!['['] + token + seq![']', '.']) + rest, v),
            path,
            q,
            as_body(detection::entry_of(rest, v)->Ok_0),
        ),
{
    let selector = seq!['['] + token + seq![']', '.'];
    let front = path + selector;
    assert(!front.contains('|')) by {
        if front.contains('|') {
            let j = front.index_of('|');
            if j < path.len() {
                assert(path[j] == '|');
            } else {
                let i = j - path.len();
                assert(0 < i < selector.len() - 2);
                assert(token[i - 1] == '|');
            }
        }
    }
    lemma_key_behind(front, rest);
    let field = detection::field_part(rest);
    lemma_quantified_path(path, token, q, Some(field));
    assert(path + (seq!['['] + token + seq![']']) + seq!['.'] + field =~= front + field);
    let more = detection::path_of(field)->Ok_0;
    detection::lemma_path_segments(field);
    text::lemma_split_nonempty(field, '.');
    lemma_block_at(path, q, more, detection::modifier_part(rest), v);
}

/// A key with a quantifier behind a path, and modifiers or nothing behind that.
proof fn lemma_quantified_end(
    path: Seq<char>,
    token: Seq<char>,
    q: ArrayQuantifier,
    chain: Option<Seq<char>>,
    v: YamlView,
)
    requires
        plain_path(path),
        detection::quantifier_named(token) == Some(q),
        !token.contains('.'),
        !token.contains('|'),
    ensures
        ({
            let head = path + (seq!['['] + token + seq![']']);
            let key = match chain {
                Some(m) => head + seq!['|'] + m,
                None => head,
            };
            let none: Seq<PathSegmentView> = Seq::empty();
            match detection::block_body(none, chain, v) {
                Ok(body) => is_block(detection::entry_of(key, v), path, q, body),
                Err(e) => detection::entry_of(key, v) == Err::<ParsedEntryView, ParserErrorView>(e),
            }
        }),
{
    reveal_strlit("|");
    assert("|"@ =~= seq!['|']);
    let selector = seq!['['] + token + seq![']'];
    let head = path + selector;
    assert(!head.contains('|')) by {
        if head.contains('|') {
            let j = head.index_of('|');
            if j < path.len() {
                assert(path[j] == '|');
            } else {
                let i = j - path.len();
                assert(0 < i < selector.len() - 1);
                assert(token[i - 1] == '|');
            }
        }
    }
    detection::lemma_key_cut(head, chain);
    lemma_quantified_path(path, token, q, None);
    let none: Seq<PathSegmentView> = Seq::empty();
    lemma_block_at(path, q, none, chain, v);
}

/// `[any]`, `[all]`, `[all_or_empty]` and `[none]` behind a path, and a key behind a dot
/// after that: the entry is a block over the members of the array at that path, by that
/// quantifier, and each member is matched against what the key behind the dot gives by
/// itself.
pub proof fn lemma_quantifier_opens_block(path: Seq<char>, rest: Seq<char>, v: YamlView)
    requires
        plain_path(path),
        detection::field_part(rest).len() > 0,
        detection::entry_of(rest, v) is Ok,
    ensures
        ({
            let body = as_body(detection::entry_of(rest, v)->Ok_0);
            &&& is_block(
                detection::entry_of(path + "[any]."@ + rest, v),
                path,
                ArrayQuantifier::Any,
                body,
            )
            &&& is_block(
                detection::entry_of(path + "[all]."@ + rest, v),
                path,
                ArrayQuantifier::All,
                body,
            )
            &&& is_block(
                detection::entry_of(path + "[all_or_empty]."@ + rest, v),
                path,
                ArrayQuantifier::AllOrEmpty,
                body,
            )
            &&& is_block(
                detection::entry_of(path + "[none]."@ + rest, v),
                path,
                ArrayQuantifier::NoMember,
                body,
            )
        }),
{
    lemma_quantifier_names();
    reveal_strlit("[any].");
    reveal_strlit("[all].");
    reveal_strlit("[all_or_empty].");
    reveal_strlit("[none].");
    let tail = seq![']', '.'];
    let any = seq!['a', 'n', 'y'];
    let all = seq!['a', 'l', 'l'];
    let or_empty = seq!['a', 'l', 'l', '_', 'o', 'r', '_', 'e', 'm', 'p', 't', 'y'];
    let none = seq!['n', 'o', 'n', 'e'];
    assert("[any]."@ =~= seq!['['] + any + tail);
    assert("[all]."@ =~= seq!['['] + all + tail);
    assert("[all_or_empty]."@ =~= seq!['['] + or_empty + tail);
    assert("[none]."@ =~= seq!['['] + none + tail);
    lemma_quantified_key(path, any, ArrayQuantifier::Any, rest, v);
    lemma_quantified_key(path, all, ArrayQuantifier::All, rest, v);
    lemma_quantified_key(path, or_empty, ArrayQuantifier::AllOrEmpty, rest, v);
    lemma_quantified_key(path, none, ArrayQuantifier::NoMember, rest, v);
}

/// The names of the quantifiers, character by character.
proof fn lemma_quantifier_names()
    ensures
        detection::quantifier_named(seq!['a', 'n', 'y']) == Some(ArrayQuantifier::Any),
        detection::quantifier_named(seq!['a', 'l', 'l']) == Some(ArrayQuantifier::All),
        detection::quantifier_named(
            seq!['a', 'l', 'l', '_', 'o', 'r', '_', 'e', 'm', 'p', 't', 'y'],
        ) == Some(ArrayQuantifier::AllOrEmpty),
        detection::quantifier_named(seq!['n', 'o', 'n', 'e']) == Some(ArrayQuantifier::NoMember),
{
    reveal_strlit("any");
    reveal_strlit("all");
    reveal_strlit("all_or_empty");
    reveal_strlit("none");
    assert("any"@ =~= seq!['a', 'n', 'y']);
    assert("all"@ =~= seq!['a', 'l', 'l']);
    assert("all_or_empty"@ =~= seq!['a', 'l', 'l', '_', 'o', 'r', '_', 'e', 'm', 'p', 't', 'y']);
    assert("none"@ =~= seq!['n', 'o', 'n', 'e']);
}

/// What stands between brackets is a quantifier if and only if it is one of the four
/// names.
pub proof fn lemma_quantifiers_by_name(token: Seq<char>)
    ensures
        detection::quantifier_named(token) == Some(ArrayQuantifier::Any) <==> token == "any"@,
        detection::quantifier_named(token) == Some(ArrayQuantifier::All) <==> token == "all"@,
        detection::quantifier_named(token) == Some(ArrayQuantifier::AllOrEmpty) <==> token
            == "all_or_empty"@,
        detection::quantifier_named(token) == Some(ArrayQuantifier::NoMember) <==> token
            == "none"@,
{
    reveal_strlit("any");
    reveal_strlit("all");
    reveal_strlit("all_or_empty");
    reveal_strlit("none");
    assert("any"@[1] == 'n' && "all"@[1] == 'l');
    assert("any"@.len() == 3 && "all"@.len() == 3 && "none"@.len() == 4);
    assert("all_or_empty"@.len() == 12);
}

/// The members of an array themselves: with a quantifier at the end of a path each
/// member is matched against the mapping given, or, by the modifiers of the chain,
/// against the values given. A mapping takes no modifiers.
pub proof fn lemma_quantifier_at_end(path: Seq<char>, chain: Seq<char>, v: YamlView)
    requires
        plain_path(path),
    ensures
        ends_with_quantifier(path, "[any]"@, ArrayQuantifier::Any, chain, v),
        ends_with_quantifier(path, "[all]"@, ArrayQuantifier::All, chain, v),
        ends_with_quantifier(path, "[all_or_empty]"@, ArrayQuantifier::AllOrEmpty, chain, v),
        ends_with_quantifier(path, "[none]"@, ArrayQuantifier::NoMember, chain, v),
{
    lemma_quantifier_names();
    reveal_strlit("[any]");
    reveal_strlit("[all]");
    reveal_strlit("[all_or_empty]");
    reveal_strlit("[none]");
    reveal_strlit("|");
    let any = seq!['a', 'n', 'y'];
    let all = seq!['a', 'l', 'l'];
    let or_empty = seq!['a', 'l', 'l', '_', 'o', 'r', '_', 'e', 'm', 'p', 't', 'y'];
    let none = seq!['n', 'o', 'n', 'e'];
    assert("|"@ =~= seq!['|']);
    assert("[any]"@ =~= seq!['['] + any + seq![']']);
    assert("[all]"@ =~= seq!['['] + all + seq![']']);
    assert("[all_or_empty]"@ =~= seq!['['] + or_empty + seq![']']);
    assert("[none]"@ =~= seq!['['] + none + seq![']']);
    lemma_quantified_end(path, any, ArrayQuantifier::Any, None, v);
    lemma_quantified_end(path, any, ArrayQuantifier::Any, Some(chain), v);
    lemma_quantified_end(path, all, ArrayQuantifier::All, None, v);
    lemma_quantified_end(path, all, ArrayQuantifier::All, Some(chain), v);
    lemma_quantified_end(path, or_empty, ArrayQuantifier::AllOrEmpty, None, v);
    lemma_quantified_end(path, or_empty, ArrayQuantifier::AllOrEmpty, Some(chain), v);
    lemma_quantified_end(path, none, ArrayQuantifier::NoMember, None, v);
    lemma_quantified_end(path, none, ArrayQuantifier::NoMember, Some(chain), v);
    assert(detection::modifiers_of(None) == Ok::<Seq<Modifier>, ParserErrorView>(Seq::empty()));
}

/// The entry under a path with a selector at its end, without modifiers and with a chain
/// of them.
pub open spec fn ends_with_quantifier(
    path: Seq<char>,
    selector: Seq<char>,
    q: ArrayQuantifier,
    chain: Seq<char>,
    v: YamlView,
) -> bool {
    let bare = detection::entry_of(path + selector, v);
    let modified = detection::entry_of(path + selector + "|"@ + chain, v);
    if v is Mapping {
        &&& match detection::detection_of(v) {
            Ok(d) => is_block(bare, path, q, d),
            Err(e) => bare == Err::<ParsedEntryView, ParserErrorView>(e),
        }
        &&& modified == Err::<ParsedEntryView, ParserErrorView>(
            ParserErrorView::InvalidFieldSpec(
                "value modifiers cannot be applied to an array object-scope block; move the modifier onto a field inside the block"@,
            ),
        )
    } else {
        &&& is_member_block(bare, path, q, Seq::empty(), v)
        &&& match detection::modifiers_of(Some(chain)) {
            Ok(modifiers) => is_member_block(modified, path, q, modifiers, v),
            Err(e) => modified == Err::<ParsedEntryView, ParserErrorView>(e),
        }
    }
}

/// The entry is a block in which each member is matched, by these modifiers, against the
/// values given.
pub open spec fn is_member_block(
    r: Result<ParsedEntryView, ParserErrorView>,
    path: Seq<char>,
    q: ArrayQuantifier,
    modifiers: Seq<Modifier>,
    v: YamlView,
) -> bool {
    let field = FieldSpecView { name: None, modifiers };
    is_block(
        r,
        path,
        q,
        DetectionView::AllOf(
            seq![DetectionItemView { field, values: detection::sigma_values_of(v, field) }],
        ),
    )
}

/// A key whose field holds no brackets, or that has no field, is a plain item.
pub proof fn lemma_plain_key_is_item(key: Seq<char>, v: YamlView)
    requires
        !detection::field_part(key).contains(']'),
    ensures
        detection::entry_of(key, v) == match detection::item_of(key, v) {
            Ok(item) => Ok(ParsedEntryView::Item(item)),
            Err(e) => Err(e),
        },
{
    let field = detection::field_part(key);
    if field.len() > 0 {
        let parts = text::split(field, '.');
        let segments = Seq::new(
            parts.len(),
            |i: int| PathSegmentView { name: parts[i], quantifier: None },
        );
        let results = detection::segment_results(field);
        assert forall|i: int| 0 <= i < results.len() implies #[trigger] results[i] == Ok::<
            PathSegmentView,
            ParserErrorView,
        >(segments[i]) by {
            lemma_part_chars(field, i, ']');
            let part = parts[i];
            if part.len() > 0 {
                assert(part.contains(part.last()));
            }
        }
        detection::lemma_all_ok(results, segments);
        detection::lemma_plain_key_unchanged(key, v, segments);
    }
}

/// A text of decimal digits, one at least.
pub open spec fn are_digits(t: Seq<char>) -> bool {
    t.len() > 0 && forall|i: int| 0 <= i < t.len() ==> '0' <= #[trigger] t[i] <= '9'
}

/// The entry under a path with a selector at its end that is no quantifier.
proof fn lemma_other_selector(path: Seq<char>, token: Seq<char>, v: YamlView)
    requires
        plain_path(path),
        detection::quantifier_named(token) is None,
        !token.contains('.'),
        !token.contains('|'),
    ensures
        ({
            let key = path + (seq!['['] + token + seq![']']);
            if detection::is_index(token) {
                detection::entry_of(key, v) == match detection::item_of(key, v) {
                    Ok(item) => Ok(ParsedEntryView::Item(item)),
                    Err(e) => Err(e),
                }
            } else {
                detection::entry_of(key, v) == Err::<ParsedEntryView, ParserErrorView>(
                    detection::unknown_selector(token, key),
                )
            }
        }),
{
    let selector = seq!['['] + token + seq![']'];
    let key = path + selector;
    assert(!key.contains('|')) by {
        if key.contains('|') {
            let j = key.index_of('|');
            if j < path.len() {
                assert(path[j] == '|');
            } else {
                let i = j - path.len();
                assert(0 < i < selector.len() - 1);
                assert(token[i - 1] == '|');
            }
        }
    }
    assert(!selector.contains('.')) by {
        if selector.contains('.') {
            let j = selector.index_of('.');
            assert(0 < j < selector.len() - 1);
            assert(token[j - 1] == '.');
        }
    }
    detection::lemma_key_cut(key, None);
    lemma_selected_parts(path, selector);
    text::lemma_split_nonempty(path, '.');
    let parts = text::split(path, '.');
    let all = selected_parts(path, selector);
    let n = parts.len() as int;
    text::lemma_split_join(all, '.');
    let segments = Seq::new(
        all.len(),
        |i: int| PathSegmentView { name: all[i], quantifier: None },
    );
    let results = detection::segment_results(key);
    assert forall|i: int| 0 <= i < n - 1 implies #[trigger] results[i] == Ok::<
        PathSegmentView,
        ParserErrorView,
    >(segments[i]) by {
        lemma_part_chars(path, i, ']');
        let part = parts[i];
        assert(all[i] == part);
        if part.len() > 0 {
            assert(part.contains(part.last()));
        }
    }
    let part = parts[n - 1];
    lemma_part_chars(path, n - 1, '[');
    lemma_last_part(path);
    let raw = part + selector;
    assert(all[n - 1] == raw);
    assert(raw.last() == ']');
    assert forall|j: int| 0 <= j < part.len() implies raw[j] != '[' by {
        assert(raw[j] == part[j]);
        assert(part.contains(part[j]));
    }
    text::lemma_find_unique(raw, '[', part.len() as int);
    assert(detection::selector_name(raw) =~= part);
    assert(detection::selector_token(raw) =~= token);
    assert(results[n - 1] == detection::segment_of(raw, key));
    if detection::is_index(token) {
        assert(results[n - 1] == Ok::<PathSegmentView, ParserErrorView>(segments[n - 1]));
        detection::lemma_all_ok(results, segments);
        detection::lemma_plain_key_unchanged(key, v, segments);
    } else {
        let front = results.drop_last();
        assert forall|i: int| 0 <= i < front.len() implies #[trigger] front[i] == Ok::<
            PathSegmentView,
            ParserErrorView,
        >(segments.drop_last()[i]) by {
            assert(front[i] == results[i]);
        }
        detection::lemma_all_ok(front, segments.drop_last());
        assert(results.last() == results[n - 1]);
    }
}

/// A position in brackets belongs to the name of the field: the entry is an item of that
/// very name, for every position, counted from the start or, behind a `-`, from the end.
pub proof fn lemma_position_stays_in_name(path: Seq<char>, digits: Seq<char>, v: YamlView)
    requires
        plain_path(path),
        are_digits(digits),
    ensures
        names_field(path + "["@ + digits + "]"@, v),
        names_field(path + "[-"@ + digits + "]"@, v),
{
    reveal_strlit("[");
    reveal_strlit("]");
    reveal_strlit("[-");
    assert("["@ =~= seq!['[']);
    let negative = seq!['-'] + digits;
    assert(negative.skip(1) =~= digits);
    assert(path + "["@ + digits + "]"@ =~= path + (seq!['['] + digits + seq![']']));
    assert(path + "[-"@ + digits + "]"@ =~= path + (seq!['['] + negative + seq![']']));
    lemma_token_of_digits(digits, digits);
    lemma_token_of_digits(negative, digits);
    lemma_other_selector(path, digits, v);
    lemma_other_selector(path, negative, v);
    lemma_bracketed_name(path, digits);
    lemma_bracketed_name(path, negative);
    lemma_name_is_field(path + (seq!['['] + digits + seq![']']));
    lemma_name_is_field(path + (seq!['['] + negative + seq![']']));
}

proof fn lemma_token_of_digits(token: Seq<char>, digits: Seq<char>)
    requires
        are_digits(digits),
        token == digits || token == seq!['-'] + digits,
    ensures
        detection::quantifier_named(token) is None,
        detection::is_index(token),
        !token.contains('.'),
        !token.contains('|'),
{
    reveal_strlit("any");
    reveal_strlit("all");
    reveal_strlit("all_or_empty");
    reveal_strlit("none");
    assert forall|i: int| 0 <= i < token.len() implies token[i] == '-' || '0' <= token[i] <= '9' by {
        if token != digits && i > 0 {
            assert(token[i] == digits[i - 1]);
        }
    }
    assert("any"@[0] == 'a' && "all"@[0] == 'a' && "all_or_empty"@[0] == 'a');
    assert("none"@[0] == 'n');
    if token == digits {
        assert('0' <= digits[0] <= '9');
    } else {
        assert(token.skip(1) =~= digits);
    }
}

proof fn lemma_bracketed_name(path: Seq<char>, token: Seq<char>)
    requires
        plain_path(path),
        !token.contains('|'),
    ensures
        !(path + (seq!['['] + token + seq![']'])).contains('|'),
{
    let selector = seq!['['] + token + seq![']'];
    let key = path + selector;
    if key.contains('|') {
        let j = key.index_of('|');
        if j < path.len() {
            assert(path[j] == '|');
        } else {
            let i = j - path.len();
            assert(0 < i < selector.len() - 1);
            assert(token[i - 1] == '|');
        }
    }
}

/// The entry under the key is an item on the field of that name, without modifiers.
pub open spec fn names_field(key: Seq<char>, v: YamlView) -> bool {
    &&& detection::field_spec_of(key) == Ok::<
        FieldSpecView,
        ParserErrorView,
    >(FieldSpecView { name: Some(key), modifiers: Seq::empty() })
    &&& detection::entry_of(key, v) == match detection::item_of(key, v) {
        Ok(item) => Ok(ParsedEntryView::Item(item)),
        Err(e) => Err(e),
    }
}

/// Anything else in brackets at the end of a path is refused, with its text and that of
/// the whole path.
pub proof fn lemma_other_brackets_are_refused(path: Seq<char>, token: Seq<char>, v: YamlView)
    requires
        plain_path(path),
        !token.contains('.'),
        !token.contains('|'),
        token != "any"@,
        token != "all"@,
        token != "all_or_empty"@,
        token != "none"@,
        !are_digits(token),
        !(token.len() > 0 && token[0] == '-' && are_digits(token.skip(1))),
    ensures
        detection::entry_of(path + "["@ + token + "]"@, v) == Err::<
            ParsedEntryView,
            ParserErrorView,
        >(
            ParserErrorView::InvalidFieldSpec(
                "unknown array quantifier '["@ + token + "]' in field '"@ + (path + "["@ + token
                    + "]"@)
                    + "'; only [any], [all], [all_or_empty], [none] and positional indices are supported"@,
            ),
        ),
{
    reveal_strlit("[");
    reveal_strlit("]");
    assert("["@ =~= seq!['[']);
    assert(path + "["@ + token + "]"@ =~= path + (seq!['['] + token + seq![']']));
    assert(!detection::is_index(token)) by {
        if detection::is_index(token) {
            let digits = detection::index_digits(token);
            if token[0] != '-' {
                assert(are_digits(token));
            } else {
                assert(are_digits(token.skip(1)));
            }
        }
    }
    lemma_other_selector(path, token, v);
}

/// Writing a key gives back the path that was read, and behind a `|` its modifiers.
pub proof fn lemma_key_is_written_back(
    path: Seq<char>,
    segments: Seq<PathSegmentView>,
    modifiers: Seq<char>,
)
    requires
        detection::path_of(path) == Ok::<Seq<PathSegmentView>, ParserErrorView>(segments),
    ensures
        detection::key_text(segments, None) == path,
        detection::key_text(segments, Some(modifiers)) == path + "|"@ + modifiers,
{
    detection::lemma_path_text(path, segments);
}

/// A segment is written as its name, and behind it its quantifier in brackets.
pub proof fn lemma_segment_in_words(name: Seq<char>)
    ensures
        detection::segment_text((PathSegmentView { name, quantifier: None })) == name,
        detection::segment_text(
            (PathSegmentView { name, quantifier: Some(ArrayQuantifier::Any) }),
        ) == name + "[any]"@,
        detection::segment_text(
            (PathSegmentView { name, quantifier: Some(ArrayQuantifier::All) }),
        ) == name + "[all]"@,
        detection::segment_text(
            (PathSegmentView { name, quantifier: Some(ArrayQuantifier::AllOrEmpty) }),
        ) == name + "[all_or_empty]"@,
        detection::segment_text(
            (PathSegmentView { name, quantifier: Some(ArrayQuantifier::NoMember) }),
        ) == name + "[none]"@,
{
    reveal_strlit("[");
    reveal_strlit("]");
    reveal_strlit("any");
    reveal_strlit("all");
    reveal_strlit("all_or_empty");
    reveal_strlit("none");
    reveal_strlit("[any]");
    reveal_strlit("[all]");
    reveal_strlit("[all_or_empty]");
    reveal_strlit("[none]");
    assert(name + "["@ + "any"@ + "]"@ =~= name + "[any]"@);
    assert(name + "["@ + "all"@ + "]"@ =~= name + "[all]"@);
    assert(name + "["@ + "all_or_empty"@ + "]"@ =~= name + "[all_or_empty]"@);
    assert(name + "["@ + "none"@ + "]"@ =~= name + "[none]"@);
}

// ---------------------------------------------------------------------------
// The shape of a detection
// ---------------------------------------------------------------------------

/// The items among entries.
pub open spec fn only_items(entries: Seq<ParsedEntryView>) -> Seq<DetectionItemView> {
    entries.filter(|e: ParsedEntryView| e is Item).map_values(|e: ParsedEntryView| e->Item_0)
}

/// The array blocks among entries.
pub open spec fn only_blocks(entries: Seq<ParsedEntryView>) -> Seq<DetectionView> {
    entries.filter(|e: ParsedEntryView| e is Block).map_values(|e: ParsedEntryView| e->Block_0)
}

proof fn lemma_items_and_blocks(entries: Seq<ParsedEntryView>)
    ensures
        detection::items_among(entries) == only_items(entries),
        detection::blocks_among(entries) == only_blocks(entries),
    decreases entries.len(),
{
    reveal(Seq::filter);
    if entries.len() > 0 {
        lemma_items_and_blocks(entries.drop_last());
        assert(detection::items_among(entries) =~= only_items(entries));
        assert(detection::blocks_among(entries) =~= only_blocks(entries));
    } else {
        assert(only_items(entries) =~= Seq::empty());
        assert(only_blocks(entries) =~= Seq::empty());
    }
}

/// The items of a mapping stand together, in order, and in front of its array blocks, which
/// follow in order; a block alone stands by itself.
pub proof fn lemma_shape_of_mapping(m: Seq<(YamlView, YamlView)>, entries: Seq<ParsedEntryView>)
    requires
        entries.len() == m.len(),
        forall|i: int|
            0 <= i < m.len() ==> #[trigger] entry(m, i) == Ok::<ParsedEntryView, ParserErrorView>(
                entries[i],
            ),
    ensures
        ({
            let items = only_items(entries);
            let blocks = only_blocks(entries);
            detection::detection_of(YamlView::Mapping(m)) == Ok::<DetectionView, ParserErrorView>(
                if blocks.len() == 0 {
                    DetectionView::AllOf(items)
                } else if items.len() > 0 {
                    DetectionView::And(seq![DetectionView::AllOf(items)] + blocks)
                } else if blocks.len() > 1 {
                    DetectionView::And(blocks)
                } else {
                    blocks[0]
                },
            )
        }),
{
    let results = detection::entry_results(m);
    detection::lemma_entry_results(m);
    assert forall|i: int| 0 <= i < results.len() implies #[trigger] results[i] == Ok::<
        ParsedEntryView,
        ParserErrorView,
    >(entries[i]) by {
        assert(results[i] == entry(m, i));
    }
    detection::lemma_all_ok(results, entries);
    lemma_items_and_blocks(entries);
}

/// The detections of a list follow in order, one for each member; keywords are the members
/// themselves, in order.
pub proof fn lemma_shape_of_list(items: Seq<YamlView>, subs: Seq<DetectionView>, v: YamlView)
    requires
        subs.len() == items.len(),
        forall|i: int|
            0 <= i < items.len() ==> detection::detection_of(#[trigger] items[i]) == Ok::<
                DetectionView,
                ParserErrorView,
            >(subs[i]),
        !(v is Mapping),
        !(v is Sequence),
    ensures
        (exists|i: int| 0 <= i < items.len() && !yaml::plain(#[trigger] items[i]))
            ==> detection::detection_of(YamlView::Sequence(items)) == Ok::<
            DetectionView,
            ParserErrorView,
        >(DetectionView::AnyOf(subs)),
        (forall|i: int| 0 <= i < items.len() ==> yaml::plain(#[trigger] items[i]))
            ==> detection::detection_of(YamlView::Sequence(items)) == Ok::<
            DetectionView,
            ParserErrorView,
        >(DetectionView::Keywords(Seq::new(items.len(), |i: int| SigmaValueView::Yaml(items[i])))),
        detection::detection_of(v) == Ok::<DetectionView, ParserErrorView>(
            DetectionView::Keywords(seq![SigmaValueView::Yaml(v)]),
        ),
{
    let results = detection::detection_results(items);
    detection::lemma_detection_results(items);
    assert forall|i: int| 0 <= i < results.len() implies #[trigger] results[i] == Ok::<
        DetectionView,
        ParserErrorView,
    >(subs[i]) by {
        assert(results[i] == detection::detection_of(items[i]));
    }
    detection::lemma_all_ok(results, subs);
    let own = items.map_values(|x: YamlView| SigmaValueView::Yaml(x));
    assert(own =~= Seq::new(items.len(), |i: int| SigmaValueView::Yaml(items[i])));
    assert(seq![v].map_values(|x: YamlView| SigmaValueView::Yaml(x)) =~= seq![
        SigmaValueView::Yaml(v),
    ]);
}

} // verus!
