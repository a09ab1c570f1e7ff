//! Tables: named values, in the order in which the names first came.

use crate::text;
use vstd::prelude::*;

verus! {

/// What a table holds.
pub open spec fn table_view<V: View>(entries: Seq<(String, V)>) -> Seq<(Seq<char>, V::V)> {
    entries.map_values(|e: (String, V)| (e.0@, e.1@))
}

/// Where `name` stands, or the number of entries if it does not occur.
pub open spec fn position<V>(entries: Seq<(Seq<char>, V)>, name: Seq<char>) -> int
    decreases entries.len(),
{
    if entries.len() == 0 || entries[0].0 == name {
        0
    } else {
        1 + position(entries.skip(1), name)
    }
}

/// The value under `name`.
pub open spec fn value_of<V>(entries: Seq<(Seq<char>, V)>, name: Seq<char>) -> Option<V> {
    let k = position(entries, name);
    if 0 <= k < entries.len() {
        Some(entries[k].1)
    } else {
        None
    }
}

/// The table with `value` under `name`: in the place of the value that was there,
/// or at the end.
pub open spec fn put<V>(entries: Seq<(Seq<char>, V)>, name: Seq<char>, value: V) -> Seq<
    (Seq<char>, V),
> {
    let k = position(entries, name);
    if 0 <= k < entries.len() {
        entries.update(k, (name, value))
    } else {
        entries.push((name, value))
    }
}

/// No name occurs twice.
pub open spec fn distinct<V>(entries: Seq<(Seq<char>, V)>) -> bool {
    forall|i: int, j: int|
        0 <= i < j < entries.len() ==> (#[trigger] entries[i]).0 != (#[trigger] entries[j]).0
}

/// [`position`] is the first place at which the name stands.
pub proof fn lemma_position<V>(entries: Seq<(Seq<char>, V)>, name: Seq<char>)
    ensures
        0 <= position(entries, name) <= entries.len(),
        forall|i: int|
            0 <= i < position(entries, name) ==> (#[trigger] entries[i]).0 != name,
        position(entries, name) < entries.len() ==> entries[position(entries, name)].0 == name,
    decreases entries.len(),
{
    if entries.len() > 0 && entries[0].0 != name {
        lemma_position(entries.skip(1), name);
        let k = position(entries.skip(1), name);
        assert forall|i: int| 0 <= i < k + 1 implies (#[trigger] entries[i]).0 != name by {
            if i > 0 {
                assert(entries.skip(1)[i - 1] == entries[i]);
            }
        }
    }
}

/// The place that [`lemma_position`] describes is the position.
pub proof fn lemma_position_unique<V>(entries: Seq<(Seq<char>, V)>, name: Seq<char>, k: int)
    requires
        0 <= k <= entries.len(),
        forall|i: int| 0 <= i < k ==> (#[trigger] entries[i]).0 != name,
        k < entries.len() ==> entries[k].0 == name,
    ensures
        position(entries, name) == k,
{
    lemma_position(entries, name);
    let p = position(entries, name);
    if p < k {
        assert(entries[p].0 == name);
    } else if k < p {
        assert(entries[k].0 != name);
    }
}

/// A value that was put is found under its name, the other names keep their values,
/// and no name comes to stand twice.
pub proof fn lemma_put<V>(entries: Seq<(Seq<char>, V)>, name: Seq<char>, value: V)
    requires
        distinct(entries),
    ensures
        distinct(put(entries, name, value)),
        value_of(put(entries, name, value), name) == Some(value),
        forall|other: Seq<char>|
            other != name ==> value_of(put(entries, name, value), other) == #[trigger] value_of(
                entries,
                other,
            ),
{
    lemma_position(entries, name);
    let k = position(entries, name);
    let after = put(entries, name, value);
    lemma_position_unique(after, name, k);
    assert forall|other: Seq<char>| other != name implies value_of(after, other)
        == #[trigger] value_of(entries, other) by {
        lemma_position(entries, other);
        let p = position(entries, other);
        let q = if p < entries.len() {
            p
        } else {
            after.len() as int
        };
        assert forall|i: int| 0 <= i < q implies (#[trigger] after[i]).0 != other by {
            if i < entries.len() {
                assert(entries[i].0 == after[i].0);
            }
        }
        lemma_position_unique(after, other, q);
    }
}

/// Put `value` under `name`.
pub fn put_entry<V: View>(entries: &mut Vec<(String, V)>, name: String, value: V)
    ensures
        table_view(final(entries)@) == put(table_view(old(entries)@), name@, value@),
{
    let ghost before = table_view(entries@);
    let k: usize = entry_position(entries, name.as_str());
    if k < entries.len() {
        entries.set(k, (name, value));
        assert(table_view(entries@) =~= before.update(k as int, (name@, value@)));
    } else {
        entries.push((name, value));
        assert(table_view(entries@) =~= before.push((name@, value@)));
    }
}

/// Where `name` stands.
pub fn entry_position<V: View>(entries: &Vec<(String, V)>, name: &str) -> (res: usize)
    ensures
        res == position(table_view(entries@), name@),
        res <= entries@.len(),
{
    let ghost all = table_view(entries@);
    let mut i: usize = 0;
    while i < entries.len()
        invariant
            0 <= i <= entries@.len(),
            all == table_view(entries@),
            forall|j: int| 0 <= j < i ==> (#[trigger] all[j]).0 != name@,
        decreases entries@.len() - i,
    {
        assert(all[i as int].0 == entries@[i as int].0@);
        if text::same_text(entries[i].0.as_str(), name) {
            proof {
                lemma_position_unique(all, name@, i as int);
            }
            return i;
        }
        i = i + 1;
    }
    proof {
        lemma_position_unique(all, name@, i as int);
    }
    i
}

} // verus!
