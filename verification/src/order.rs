//! The order of texts, and sorting by it.

use vstd::prelude::*;

verus! {

/// `a` comes before `b` in dictionary order, by code points.
pub open spec fn before(a: Seq<char>, b: Seq<char>) -> bool
    decreases a.len(),
{
    if b.len() == 0 {
        false
    } else if a.len() == 0 {
        true
    } else {
        a[0] < b[0] || (a[0] == b[0] && before(a.skip(1), b.skip(1)))
    }
}

/// No text comes before itself.
pub proof fn lemma_irreflexive(a: Seq<char>)
    ensures
        !before(a, a),
    decreases a.len(),
{
    if a.len() > 0 {
        lemma_irreflexive(a.skip(1));
    }
}

pub proof fn lemma_transitive(a: Seq<char>, b: Seq<char>, c: Seq<char>)
    requires
        before(a, b),
        before(b, c),
    ensures
        before(a, c),
    decreases a.len(),
{
    if a.len() > 0 && a[0] == b[0] && b[0] == c[0] {
        lemma_transitive(a.skip(1), b.skip(1), c.skip(1));
    }
}

/// How two values stand to each other.
#[derive(Clone, Copy, PartialEq, Eq, Structural, Debug)]
pub enum Place {
    Before,
    Same,
    Behind,
}

/// How `a` stands to `b`.
pub open spec fn place(a: Seq<char>, b: Seq<char>) -> Place {
    if a == b {
        Place::Same
    } else if before(a, b) {
        Place::Before
    } else {
        Place::Behind
    }
}

/// Of two different texts, one comes before the other.
pub proof fn lemma_total(a: Seq<char>, b: Seq<char>)
    ensures
        a == b || before(a, b) || before(b, a),
    decreases a.len(),
{
    if a.len() > 0 && b.len() > 0 && a[0] == b[0] {
        lemma_total(a.skip(1), b.skip(1));
        if a.skip(1) == b.skip(1) {
            assert(a =~= seq![a[0]] + a.skip(1));
            assert(b =~= seq![b[0]] + b.skip(1));
        }
    } else if a.len() == 0 && b.len() == 0 {
        assert(a =~= b);
    }
}

/// How `a` stands to `b`.
pub fn place_of(a: &[char], b: &[char]) -> (res: Place)
    ensures
        res == place(a@, b@),
{
    let mut i: usize = 0;
    assert(a@.skip(0) =~= a@);
    assert(b@.skip(0) =~= b@);
    while i < a.len() && i < b.len()
        invariant
            0 <= i <= a@.len(),
            i <= b@.len(),
            a@.take(i as int) == b@.take(i as int),
            before(a@, b@) == before(a@.skip(i as int), b@.skip(i as int)),
        decreases a@.len() - i,
    {
        let ghost x = a@.skip(i as int);
        let ghost y = b@.skip(i as int);
        assert(x[0] == a@[i as int] && y[0] == b@[i as int]);
        assert(x.skip(1) =~= a@.skip(i + 1));
        assert(y.skip(1) =~= b@.skip(i + 1));
        if a[i] != b[i] {
            return if a[i] < b[i] {
                Place::Before
            } else {
                Place::Behind
            };
        }
        assert(a@.take(i + 1) =~= a@.take(i as int).push(a@[i as int]));
        assert(b@.take(i + 1) =~= b@.take(i as int).push(b@[i as int]));
        i = i + 1;
    }
    assert(a@.take(a@.len() as int) =~= a@);
    assert(b@.take(b@.len() as int) =~= b@);
    if a.len() == b.len() {
        Place::Same
    } else if a.len() < b.len() {
        Place::Before
    } else {
        Place::Behind
    }
}

/// Texts in strictly increasing order.
pub open spec fn ascending(texts: Seq<Seq<char>>) -> bool {
    forall|i: int, j: int|
        0 <= i < j < texts.len() ==> before(#[trigger] texts[i], #[trigger] texts[j])
}

/// A list in strictly increasing order, with one more text at its place. A text that
/// the list holds is not put in again.
pub open spec fn inserted(texts: Seq<Seq<char>>, text: Seq<char>) -> Seq<Seq<char>>
    decreases texts.len(),
{
    if texts.len() == 0 {
        seq![text]
    } else if before(texts.last(), text) {
        texts.push(text)
    } else if texts.last() == text {
        texts
    } else {
        inserted(texts.drop_last(), text).push(texts.last())
    }
}

/// Putting a text in keeps the list in order, and adds just that text.
pub proof fn lemma_inserted(texts: Seq<Seq<char>>, text: Seq<char>)
    requires
        ascending(texts),
    ensures
        ascending(inserted(texts, text)),
        forall|x: Seq<char>| #[trigger]
            inserted(texts, text).contains(x) <==> texts.contains(x) || x == text,
    decreases texts.len(),
{
    let res = inserted(texts, text);
    if texts.len() == 0 {
        assert(res[0] == text);
    } else {
        let m = texts.len() - 1;
        let front = texts.drop_last();
        assert(texts[m] == texts.last());
        lemma_total(texts.last(), text);
        if before(texts.last(), text) {
            assert forall|i: int, j: int| 0 <= i < j < res.len() implies before(
                #[trigger] res[i],
                #[trigger] res[j],
            ) by {
                if j == texts.len() && i < m {
                    lemma_transitive(texts[i], texts[m], text);
                }
            }
            lemma_pushed(texts, text);
        } else if texts.last() == text {
            assert(texts.contains(text));
        } else {
            lemma_inserted(front, text);
            let rest = inserted(front, text);
            assert forall|i: int, j: int| 0 <= i < j < res.len() implies before(
                #[trigger] res[i],
                #[trigger] res[j],
            ) by {
                if j == rest.len() {
                    assert(rest.contains(rest[i]));
                    if rest[i] != text {
                        let k = front.index_of(rest[i]);
                        assert(texts[k] == rest[i]);
                    }
                }
            }
            lemma_pushed(rest, texts.last());
            lemma_pushed(front, texts.last());
            assert(front.push(texts.last()) =~= texts);
        }
    }
}

/// What a list holds with one more text behind it.
proof fn lemma_pushed(texts: Seq<Seq<char>>, text: Seq<char>)
    ensures
        forall|x: Seq<char>| #[trigger]
            texts.push(text).contains(x) <==> texts.contains(x) || x == text,
{
    let more = texts.push(text);
    assert forall|x: Seq<char>| #[trigger] more.contains(x) <==> texts.contains(x) || x == text by {
        if texts.contains(x) {
            assert(more[texts.index_of(x)] == x);
        }
        assert(more[texts.len() as int] == text);
        if more.contains(x) && x != text {
            assert(texts[more.index_of(x)] == x);
        }
    }
}

/// Of two lists in strictly increasing order that hold the same texts, the last texts
/// are the same.
proof fn lemma_same_last(a: Seq<Seq<char>>, b: Seq<Seq<char>>)
    requires
        ascending(a),
        ascending(b),
        a.len() > 0,
        b.len() > 0,
        forall|x: Seq<char>| #[trigger] a.contains(x) <==> b.contains(x),
    ensures
        a.last() == b.last(),
{
    let m = a.len() - 1;
    let n = b.len() - 1;
    assert(a[m] == a.last() && b[n] == b.last());
    assert(a.contains(a[m]));
    assert(b.contains(b[n]));
    assert(a.contains(b[n]));
    let i = b.index_of(a[m]);
    let j = a.index_of(b[n]);
    if i < n && j < m {
        assert(before(b[i], b[n]));
        assert(before(a[j], a[m]));
        lemma_transitive(a[m], b[n], a[m]);
        lemma_irreflexive(a[m]);
    }
}

/// A list in strictly increasing order is determined by the texts that it holds.
pub proof fn lemma_ascending_unique(a: Seq<Seq<char>>, b: Seq<Seq<char>>)
    requires
        ascending(a),
        ascending(b),
        forall|x: Seq<char>| #[trigger] a.contains(x) <==> b.contains(x),
    ensures
        a == b,
    decreases a.len(),
{
    if a.len() == 0 {
        if b.len() > 0 {
            assert(b.contains(b[0]));
            assert(a.contains(b[0]));
        }
        assert(a =~= b);
    } else {
        assert(a.contains(a[0]));
        assert(b.contains(a[0]));
        lemma_same_last(a, b);
        let front = a.drop_last();
        let other = b.drop_last();
        let top = a.last();
        assert forall|x: Seq<char>| #[trigger] front.contains(x) <==> other.contains(x) by {
            lemma_front_contains(a, x);
            lemma_front_contains(b, x);
        }
        lemma_ascending_unique(front, other);
        assert(a =~= front.push(top));
        assert(b =~= other.push(top));
    }
}

proof fn lemma_front_contains(a: Seq<Seq<char>>, x: Seq<char>)
    requires
        ascending(a),
        a.len() > 0,
    ensures
        a.drop_last().contains(x) <==> a.contains(x) && x != a.last(),
{
    let front = a.drop_last();
    let m = a.len() - 1;
    if front.contains(x) {
        let i = front.index_of(x);
        assert(a[i] == x);
        assert(before(a[i], a[m]));
        lemma_irreflexive(a[m]);
    }
    if a.contains(x) && x != a.last() {
        let i = a.index_of(x);
        assert(front[i] == x);
    }
}

} // verus!
