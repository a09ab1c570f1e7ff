//! What splitting and recognizing filter expressions keeps.

use crate::fibratus;
use crate::macro_shapes::Shape;
use crate::macro_shapes;
use crate::text;
use vstd::prelude::*;

verus! {

// ---------------------------------------------------------------------------
// Quotes and parentheses in a part of a text
// ---------------------------------------------------------------------------

/// A part that begins at the top level is quoted and nested as it is in the whole.
proof fn lemma_state(s: Seq<char>, p: int, q: int, j: int)
    requires
        0 <= p <= q <= s.len(),
        fibratus::top_level(s, p),
        0 <= j <= q - p,
    ensures
        fibratus::quote_at(s.subrange(p, q), j) == fibratus::quote_at(s, p + j),
        fibratus::depth_at(s.subrange(p, q), j) == fibratus::depth_at(s, p + j),
    decreases j,
{
    if j > 0 {
        lemma_state(s, p, q, j - 1);
        assert(s.subrange(p, q)[j - 1] == s[p + j - 1]);
    }
}

/// The character changes nothing in the quoting outside literals, nor in the nesting.
spec fn mild(c: char) -> bool {
    c != '\'' && c != '(' && c != ')' && c != '\\'
}

/// Characters that change nothing lead from the top level to the top level, forwards
/// and backwards.
proof fn lemma_mild_step(s: Seq<char>, k: int)
    requires
        0 <= k < s.len(),
        mild(s[k]),
    ensures
        fibratus::top_level(s, k) == fibratus::top_level(s, k + 1),
{
}

proof fn lemma_mild_run(s: Seq<char>, a: int, b: int)
    requires
        0 <= a <= b <= s.len(),
        forall|k: int| a <= k < b ==> mild(#[trigger] s[k]),
    ensures
        fibratus::top_level(s, a) == fibratus::top_level(s, b),
    decreases b - a,
{
    if a < b {
        lemma_mild_run(s, a, b - 1);
        lemma_mild_step(s, b - 1);
    }
}

// ---------------------------------------------------------------------------
// Boundaries
// ---------------------------------------------------------------------------

/// No boundary lies in front of the next one.
proof fn lemma_no_boundary_before(s: Seq<char>, from: int, token: Seq<char>)
    requires
        0 <= from <= s.len(),
    ensures
        forall|k: int|
            from <= k < fibratus::next_boundary(s, from, token) ==> !#[trigger] fibratus::boundary(
                s,
                k,
                token,
            ),
    decreases s.len() - from,
{
    if from < s.len() && !fibratus::boundary(s, from, token) {
        lemma_no_boundary_before(s, from + 1, token);
    }
}

/// The place that [`lemma_no_boundary_before`] describes is the next boundary.
pub proof fn lemma_boundary_unique(s: Seq<char>, from: int, token: Seq<char>, k: int)
    requires
        0 <= from <= k <= s.len(),
        forall|i: int| from <= i < k ==> !#[trigger] fibratus::boundary(s, i, token),
        k < s.len() ==> fibratus::boundary(s, k, token),
    ensures
        fibratus::next_boundary(s, from, token) == k,
    decreases s.len() - from,
{
    if from < k {
        assert(!fibratus::boundary(s, from, token));
        lemma_boundary_unique(s, from + 1, token, k);
    }
}

/// A token character by character.
pub proof fn lemma_token_chars(s: Seq<char>, i: int, token: Seq<char>)
    requires
        0 <= i,
        i + token.len() <= s.len(),
    ensures
        fibratus::token_at(s, i, token) <==> forall|k: int|
            0 <= k < token.len() ==> text::ascii_lower_char(#[trigger] token[k])
                == text::ascii_lower_char(s[i + k]),
{
    let here = text::ascii_lower(s.subrange(i, i + token.len()));
    let there = text::ascii_lower(token);
    if fibratus::token_at(s, i, token) {
        assert forall|k: int| 0 <= k < token.len() implies text::ascii_lower_char(
            #[trigger] token[k],
        ) == text::ascii_lower_char(s[i + k]) by {
            assert(here[k] == there[k]);
        }
    }
    if forall|k: int|
        0 <= k < token.len() ==> text::ascii_lower_char(#[trigger] token[k])
            == text::ascii_lower_char(s[i + k]) {
        assert forall|k: int| 0 <= k < token.len() implies here[k] == there[k] by {
            assert(text::ascii_lower_char(token[k]) == text::ascii_lower_char(s[i + k]));
        }
        assert(here =~= there);
    }
}

/// ` and `, character by character.
proof fn lemma_and_chars(s: Seq<char>, i: int)
    requires
        0 <= i,
        i + 5 <= s.len(),
    ensures
        fibratus::token_at(s, i, " and "@) <==> s[i] == ' ' && text::ascii_lower_char(s[i + 1])
            == 'a' && text::ascii_lower_char(s[i + 2]) == 'n' && text::ascii_lower_char(s[i + 3])
            == 'd' && s[i + 4] == ' ',
{
    reveal_strlit(" and ");
    let token = " and "@;
    lemma_token_chars(s, i, token);
    assert(token[0] == ' ' && token[1] == 'a' && token[2] == 'n' && token[3] == 'd' && token[4]
        == ' ');
    if s[i] == ' ' && text::ascii_lower_char(s[i + 1]) == 'a' && text::ascii_lower_char(s[i + 2])
        == 'n' && text::ascii_lower_char(s[i + 3]) == 'd' && s[i + 4] == ' ' {
        assert forall|k: int| 0 <= k < token.len() implies text::ascii_lower_char(
            #[trigger] token[k],
        ) == text::ascii_lower_char(s[i + k]) by {
            assert(k == 0 || k == 1 || k == 2 || k == 3 || k == 4);
        }
    }
}

// ---------------------------------------------------------------------------
// Clauses
// ---------------------------------------------------------------------------

/// A clause: it is not empty, has no white space around it, and holds no boundary.
pub open spec fn closed(c: Seq<char>) -> bool {
    &&& c.len() > 0
    &&& text::trimmed(c) == c
    &&& forall|j: int| 0 <= j < c.len() ==> !#[trigger] fibratus::boundary(c, j, " and "@)
}

/// A clause that another may follow: it ends at the top level, and not with an `and`
/// that the one behind it would be taken for.
pub open spec fn passes(c: Seq<char>) -> bool {
    &&& closed(c)
    &&& fibratus::top_level(c, c.len() as int)
    &&& !fibratus::token_at(c.push(' '), c.len() - 4, " and "@)
}

/// All of the clauses but the last may be followed by another.
pub open spec fn chain(list: Seq<Seq<char>>) -> bool {
    &&& forall|i: int| 0 <= i < list.len() ==> closed(#[trigger] list[i])
    &&& forall|i: int| 0 <= i < list.len() - 1 ==> passes(#[trigger] list[i])
}

/// A part of a text, cut at the top level, is cut as it is in the whole.
proof fn lemma_pieces_shift(s: Seq<char>, p: int, f: int)
    requires
        0 <= p,
        0 <= f,
        p + f <= s.len(),
        fibratus::top_level(s, p),
    ensures
        fibratus::pieces(s, p + f) == fibratus::pieces(s.skip(p), f),
    decreases s.len() - f,
{
    fibratus::lemma_and_token();
    let t = s.skip(p);
    let token = " and "@;
    let n = s.len() as int;
    assert(t =~= s.subrange(p, n));
    assert forall|j: int| 0 <= j <= t.len() implies #[trigger] fibratus::boundary(t, j, token)
        == fibratus::boundary(s, p + j, token) by {
        lemma_state(s, p, n, j);
        if j + 5 <= t.len() {
            assert(t.subrange(j, j + 5) =~= s.subrange(p + j, p + j + 5));
        }
    }
    fibratus::lemma_next_boundary(t, f, token);
    let i = fibratus::next_boundary(t, f, token);
    lemma_no_boundary_before(t, f, token);
    assert forall|k: int| p + f <= k < p + i implies !#[trigger] fibratus::boundary(s, k, token) by {
        assert(!fibratus::boundary(t, k - p, token));
    }
    lemma_boundary_unique(s, p + f, token, p + i);
    if i + 5 <= t.len() {
        lemma_pieces_shift(s, p, i + 5);
        assert(t.subrange(f, i) =~= s.subrange(p + f, p + i));
    } else {
        assert(t.skip(f) =~= s.skip(p + f));
    }
}

/// A closed clause is one piece.
pub proof fn lemma_closed_is_one_piece(c: Seq<char>)
    requires
        closed(c),
    ensures
        fibratus::pieces(c, 0) == seq![c],
        fibratus::clauses(c) == seq![c],
{
    fibratus::lemma_and_token();
    let n = c.len() as int;
    lemma_boundary_unique(c, 0, " and "@, n);
    assert(c.skip(0) =~= c);
    assert(fibratus::trimmed_all(seq![c]) =~= seq![c]);
    reveal_with_fuel(fibratus::nonempty, 2);
    assert(seq![c].drop_last() =~= Seq::empty());
    assert(Seq::<Seq<char>>::empty().push(c) =~= seq![c]);
}

/// A clause that passes is the first piece of what it begins with ` and ` behind it.
pub proof fn lemma_first_piece(c: Seq<char>, rest: Seq<char>)
    requires
        passes(c),
    ensures
        fibratus::pieces(c + " and "@ + rest, 0) == seq![c] + fibratus::pieces(rest, 0),
{
    reveal_strlit(" and ");
    fibratus::lemma_and_token();
    let token = " and "@;
    let s = c + token + rest;
    let n = c.len() as int;
    assert(fibratus::top_level(s, 0));
    assert(s.subrange(0, n) =~= c);
    assert forall|j: int| 0 <= j < n implies !#[trigger] fibratus::boundary(s, j, token) by {
        lemma_state(s, 0, n, j);
        assert(!fibratus::boundary(c, j, token));
        if fibratus::token_at(s, j, token) {
            lemma_and_chars(s, j);
            if j + 5 <= n {
                assert(s.subrange(j, j + 5) =~= c.subrange(j, j + 5));
            } else if j == n - 4 {
                let d = c.push(' ');
                assert(d.subrange(j, j + 5) =~= s.subrange(j, j + 5));
            } else if j == n - 3 {
                assert(s[j + 3] == token[0]);
            } else if j == n - 2 {
                assert(s[j + 2] == token[0]);
            } else {
                assert(s[j + 1] == token[0]);
            }
        }
    }
    lemma_state(s, 0, n, n);
    assert(s.subrange(n, n + 5) =~= token);
    assert(fibratus::boundary(s, n, token));
    lemma_boundary_unique(s, 0, token, n);
    fibratus::lemma_top_level_behind(s, n, token, 5);
    lemma_pieces_shift(s, n + 5, 0);
    assert(s.skip(n + 5) =~= rest);
}

/// A chain that is joined is cut into the chain again.
proof fn lemma_pieces_of_joined(list: Seq<Seq<char>>)
    requires
        chain(list),
        list.len() > 0,
    ensures
        fibratus::pieces(text::join(list, " and "@), 0) == list,
    decreases list.len(),
{
    let head = list[0];
    if list.len() == 1 {
        assert(closed(list[0]));
        lemma_closed_is_one_piece(head);
        assert(list =~= seq![head]);
    } else {
        let tail = list.skip(1);
        assert(list =~= seq![head] + tail);
        assert(passes(list[0]));
        assert forall|i: int| 0 <= i < tail.len() implies closed(#[trigger] tail[i]) by {
            assert(tail[i] == list[i + 1]);
        }
        assert forall|i: int| 0 <= i < tail.len() - 1 implies passes(#[trigger] tail[i]) by {
            assert(tail[i] == list[i + 1]);
        }
        lemma_pieces_of_joined(tail);
        text::lemma_join_cons(head, tail, " and "@);
        lemma_first_piece(head, text::join(tail, " and "@));
    }
}

proof fn lemma_nonempty_all(list: Seq<Seq<char>>)
    requires
        forall|i: int| 0 <= i < list.len() ==> (#[trigger] list[i]).len() > 0,
    ensures
        fibratus::nonempty(list) == list,
    decreases list.len(),
{
    if list.len() > 0 {
        let front = list.drop_last();
        assert forall|i: int| 0 <= i < front.len() implies (#[trigger] front[i]).len() > 0 by {
            assert(front[i] == list[i]);
        }
        lemma_nonempty_all(front);
        assert(list[list.len() - 1].len() > 0);
        assert(front.push(list.last()) =~= list);
    } else {
        assert(list =~= Seq::empty());
    }
}

/// The clauses of a chain that is joined are the chain.
pub proof fn lemma_clauses_of_joined(list: Seq<Seq<char>>)
    requires
        chain(list),
        list.len() > 0,
    ensures
        fibratus::clauses(text::join(list, " and "@)) == list,
        fibratus::source_clauses(text::join(list, " and "@)) == list,
{
    lemma_pieces_of_joined(list);
    assert(fibratus::trimmed_all(list) =~= list) by {
        assert forall|i: int| 0 <= i < list.len() implies fibratus::trimmed_all(list)[i]
            == list[i] by {
            assert(closed(list[i]));
        }
    }
    assert forall|i: int| 0 <= i < list.len() implies (#[trigger] list[i]).len() > 0 by {
        assert(closed(list[i]));
    }
    lemma_nonempty_all(list);
    assert(list[list.len() - 1].len() > 0);
}

/// The only white space in the text is the space.
pub open spec fn only_spaces(s: Seq<char>) -> bool {
    forall|i: int| 0 <= i < s.len() && text::white(#[trigger] s[i]) ==> s[i] == ' '
}

/// A trimmed text is trimmed.
proof fn lemma_trimmed_twice(s: Seq<char>)
    ensures
        text::trimmed(text::trimmed(s)) == text::trimmed(s),
{
    let t = text::trimmed(s);
    text::lemma_trimmed(s);
    if t.len() > 0 {
        let none = Seq::<char>::empty();
        text::lemma_trim_padded(none, t);
        assert(none + t =~= t);
    } else {
        assert(t =~= Seq::empty());
        text::lemma_trimmed(t);
        assert(text::trimmed(t) =~= t);
    }
}

/// A piece without the white space around it is closed, if it is not empty; and if
/// another piece follows it and the only white space is the space, it passes.
proof fn lemma_piece(s: Seq<char>, from: int)
    requires
        0 <= from <= s.len(),
        fibratus::top_level(s, from),
    ensures
        ({
            let i = fibratus::next_boundary(s, from, " and "@);
            let t = text::trimmed(s.subrange(from, i));
            &&& from <= i <= s.len()
            &&& t.len() > 0 ==> closed(t)
            &&& t.len() > 0 && i < s.len() && only_spaces(s) ==> passes(t)
        }),
{
    fibratus::lemma_and_token();
    let token = " and "@;
    fibratus::lemma_next_boundary(s, from, token);
    lemma_no_boundary_before(s, from, token);
    let i = fibratus::next_boundary(s, from, token);
    let raw = s.subrange(from, i);
    let t = text::trimmed(raw);
    let n = t.len() as int;
    if n > 0 {
        text::lemma_trimmed(raw);
        text::lemma_lead_place(raw);
        lemma_trimmed_twice(raw);
        let p = from + text::lead(raw);
        assert forall|k: int| from <= k < p implies mild(#[trigger] s[k]) by {
            assert(raw[k - from] == s[k]);
            assert(text::white(raw[k - from]));
        }
        lemma_mild_run(s, from, p);
        assert(t =~= s.subrange(p, p + n));
        assert forall|j: int| 0 <= j < n implies !#[trigger] fibratus::boundary(t, j, token) by {
            lemma_state(s, p, p + n, j);
            if fibratus::boundary(t, j, token) {
                assert(t.subrange(j, j + 5) =~= s.subrange(p + j, p + j + 5));
                assert(fibratus::boundary(s, p + j, token));
            }
        }
        if i < s.len() && only_spaces(s) {
            lemma_behind_is_white(raw);
            assert forall|k: int| p + n <= k < i implies mild(#[trigger] s[k]) && text::white(
                s[k],
            ) by {
                assert(raw[k - from] == s[k]);
            }
            lemma_mild_run(s, p + n, i);
            lemma_state(s, p, p + n, n);
            let d = t.push(' ');
            if fibratus::token_at(d, n - 4, token) {
                let q = p + n - 4;
                lemma_and_chars(d, n - 4);
                lemma_and_chars(s, i);
                assert(d[n - 4] == t[n - 4] && d[n - 3] == t[n - 3] && d[n - 2] == t[n - 2] && d[n
                    - 1] == t[n - 1]);
                assert(s[q] == t[n - 4] && s[q + 1] == t[n - 3] && s[q + 2] == t[n - 2] && s[q + 3]
                    == t[n - 1]);
                assert(s[q + 4] == ' ') by {
                    if p + n < i {
                        assert(text::white(s[p + n]));
                    }
                }
                lemma_and_chars(s, q);
                lemma_mild_run(s, q, q + 4);
                assert(fibratus::boundary(s, q, token));
            }
        }
    }
}

/// What stands behind the trimmed text is white space.
proof fn lemma_behind_is_white(s: Seq<char>)
    ensures
        forall|k: int|
            text::lead(s) + text::trimmed(s).len() <= k < s.len() ==> text::white(#[trigger] s[k]),
{
    text::lemma_lead_place(s);
    let rest = s.skip(text::lead(s));
    lemma_tail_is_white(rest);
    assert forall|k: int|
        text::lead(s) + text::trimmed(s).len() <= k < s.len() implies text::white(
        #[trigger] s[k],
    ) by {
        assert(rest[k - text::lead(s)] == s[k]);
    }
}

proof fn lemma_tail_is_white(s: Seq<char>)
    ensures
        forall|k: int| text::trim_tail(s).len() <= k < s.len() ==> text::white(#[trigger] s[k]),
    decreases s.len(),
{
    if s.len() > 0 && text::white(s.last()) {
        let front = s.drop_last();
        lemma_tail_is_white(front);
        assert forall|k: int| text::trim_tail(s).len() <= k < s.len() implies text::white(
            #[trigger] s[k],
        ) by {
            if k < front.len() {
                assert(front[k] == s[k]);
            }
        }
    }
}

/// The trimmed pieces that are not empty are closed; all but the last pass, if the only
/// white space is the space; and each stands in the text, behind those before it, at
/// the place given.
proof fn lemma_pieces(s: Seq<char>, from: int) -> (places: Seq<int>)
    requires
        0 <= from <= s.len(),
        fibratus::top_level(s, from),
    ensures
        ({
            let list = fibratus::trimmed_all(fibratus::pieces(s, from));
            &&& list.len() >= 1
            &&& places.len() == list.len()
            &&& forall|i: int|
                0 <= i < list.len() && (#[trigger] list[i]).len() > 0 ==> closed(list[i])
            &&& only_spaces(s) ==> forall|i: int|
                0 <= i < list.len() - 1 && (#[trigger] list[i]).len() > 0 ==> passes(list[i])
            &&& in_order(s, from, list, places)
        }),
    decreases s.len() - from,
{
    fibratus::lemma_and_token();
    let token = " and "@;
    lemma_piece(s, from);
    fibratus::lemma_next_boundary(s, from, token);
    let i = fibratus::next_boundary(s, from, token);
    let raw = s.subrange(from, i);
    let first = text::trimmed(raw);
    text::lemma_trimmed(raw);
    let p = from + text::lead(raw);
    assert(first =~= s.subrange(p, p + first.len()));
    if i < s.len() {
        fibratus::lemma_top_level_behind(s, i, token, 5);
        let later = lemma_pieces(s, i + 5);
        let tail = fibratus::trimmed_all(fibratus::pieces(s, i + 5));
        let list = fibratus::trimmed_all(fibratus::pieces(s, from));
        let places = seq![p] + later;
        assert(list =~= seq![first] + tail);
        assert forall|k: int| 0 <= k < list.len() && (#[trigger] list[k]).len() > 0 implies closed(
            list[k],
        ) by {
            if k > 0 {
                assert(list[k] == tail[k - 1]);
            }
        }
        if only_spaces(s) {
            assert forall|k: int|
                0 <= k < list.len() - 1 && (#[trigger] list[k]).len() > 0 implies passes(list[k]) by {
                if k > 0 {
                    assert(list[k] == tail[k - 1]);
                }
            }
        }
        assert forall|k: int| 0 <= k < list.len() implies stands(
            s,
            from,
            #[trigger] list[k],
            places[k],
        ) by {
            if k > 0 {
                assert(stands(s, i + 5, tail[k - 1], later[k - 1]));
            }
        }
        assert forall|k: int, l: int| 0 <= k < l < list.len() implies (#[trigger] places[k])
            + list[k].len() <= #[trigger] places[l] by {
            assert(stands(s, i + 5, tail[l - 1], later[l - 1]));
            if k > 0 {
                assert(later[k - 1] + tail[k - 1].len() <= later[l - 1]);
            }
        }
        places
    } else {
        assert(raw =~= s.skip(from));
        let list = fibratus::trimmed_all(fibratus::pieces(s, from));
        assert(list =~= seq![first]);
        seq![p]
    }
}

/// The text stands at that place, not in front of `from`.
pub open spec fn stands(s: Seq<char>, from: int, t: Seq<char>, p: int) -> bool {
    0 <= from <= p && p + t.len() <= s.len() && s.subrange(p, p + t.len()) == t
}

/// The texts stand at these places, one behind the other.
pub open spec fn in_order(
    s: Seq<char>,
    from: int,
    list: Seq<Seq<char>>,
    places: Seq<int>,
) -> bool {
    &&& forall|i: int| 0 <= i < list.len() ==> stands(s, from, #[trigger] list[i], places[i])
    &&& forall|i: int, j: int|
        0 <= i < j < list.len() ==> (#[trigger] places[i]) + list[i].len() <= #[trigger] places[j]
}

/// The parts that are not empty keep what holds of such parts, and their places.
proof fn lemma_nonempty_keeps(s: Seq<char>, list: Seq<Seq<char>>, places: Seq<int>) -> (kept: Seq<
    int,
>)
    requires
        places.len() == list.len(),
        in_order(s, 0, list, places),
        forall|i: int| 0 <= i < list.len() && (#[trigger] list[i]).len() > 0 ==> closed(list[i]),
    ensures
        kept.len() == fibratus::nonempty(list).len(),
        in_order(s, 0, fibratus::nonempty(list), kept),
        forall|i: int|
            0 <= i < fibratus::nonempty(list).len() ==> closed(
                #[trigger] fibratus::nonempty(list)[i],
            ),
        (forall|i: int|
            0 <= i < list.len() && (#[trigger] list[i]).len() > 0 ==> passes(list[i]))
            ==> forall|i: int|
            0 <= i < fibratus::nonempty(list).len() ==> passes(
                #[trigger] fibratus::nonempty(list)[i],
            ),
        forall|p: int|
            bounded(places, list, p) ==> #[trigger] bounded(kept, fibratus::nonempty(list), p),
    decreases list.len(),
{
    if list.len() == 0 {
        Seq::empty()
    } else {
        let front = list.drop_last();
        let near = places.drop_last();
        assert forall|i: int| 0 <= i < front.len() implies stands(
            s,
            0,
            #[trigger] front[i],
            near[i],
        ) by {
            assert(stands(s, 0, list[i], places[i]));
        }
        assert forall|i: int, j: int| 0 <= i < j < front.len() implies (#[trigger] near[i])
            + front[i].len() <= #[trigger] near[j] by {
            assert(places[i] + list[i].len() <= places[j]);
        }
        assert forall|i: int| 0 <= i < front.len() && (#[trigger] front[i]).len() > 0 implies closed(
            front[i],
        ) by {
            assert(front[i] == list[i]);
        }
        let before = lemma_nonempty_keeps(s, front, near);
        let last = list.last();
        let place = places.last();
        let short = fibratus::nonempty(front);
        let full = fibratus::nonempty(list);
        let n = list.len() - 1;
        assert(list[n] == last);
        assert(stands(s, 0, list[n], places[n]));
        if forall|i: int| 0 <= i < list.len() && (#[trigger] list[i]).len() > 0 ==> passes(list[i]) {
            assert forall|i: int|
                0 <= i < front.len() && (#[trigger] front[i]).len() > 0 implies passes(front[i]) by {
                assert(front[i] == list[i]);
            }
        }
        let kept = if last.len() == 0 {
            before
        } else {
            before.push(place)
        };
        assert forall|p: int| bounded(places, list, p) implies #[trigger] bounded(kept, full, p) by {
            assert forall|i: int| 0 <= i < near.len() implies (#[trigger] near[i]) + front[i].len()
                <= p by {
                assert(places[i] + list[i].len() <= p);
            }
            assert(bounded(near, front, p));
            assert(bounded(before, short, p));
            assert(places[n] + list[n].len() <= p);
        }
        if last.len() > 0 {
            assert forall|i: int| 0 <= i < near.len() implies (#[trigger] near[i]) + front[i].len()
                <= place by {
                assert(places[i] + list[i].len() <= places[n]);
            }
            assert(bounded(near, front, place));
            assert(bounded(before, short, place));
            assert forall|i: int| 0 <= i < full.len() implies stands(
                s,
                0,
                #[trigger] full[i],
                kept[i],
            ) by {
                if i < short.len() {
                    assert(stands(s, 0, short[i], before[i]));
                }
            }
            assert forall|i: int, j: int| 0 <= i < j < full.len() implies (#[trigger] kept[i])
                + full[i].len() <= #[trigger] kept[j] by {
                assert(full[i] == short[i] && kept[i] == before[i]);
                if j < short.len() {
                    assert(before[i] + short[i].len() <= before[j]);
                }
            }
            assert forall|i: int| 0 <= i < full.len() implies closed(#[trigger] full[i]) by {
                if i < short.len() {
                    assert(closed(short[i]));
                }
            }
            if forall|i: int|
                0 <= i < list.len() && (#[trigger] list[i]).len() > 0 ==> passes(list[i]) {
                assert forall|i: int| 0 <= i < full.len() implies passes(#[trigger] full[i]) by {
                    if i < short.len() {
                        assert(passes(short[i]));
                    }
                }
            }
        }
        kept
    }
}

/// The texts at these places end in front of `p`.
spec fn bounded(kept: Seq<int>, list: Seq<Seq<char>>, p: int) -> bool {
    forall|i: int| 0 <= i < kept.len() ==> (#[trigger] kept[i]) + list[i].len() <= p
}

/// The clauses of an expression stand in it, one behind the other, at the places given;
/// each is not empty, has no white space around it, and splits no further.
pub proof fn lemma_clauses_are_parts(s: Seq<char>) -> (places: Seq<int>)
    ensures
        places.len() == fibratus::clauses(s).len(),
        in_order(s, 0, fibratus::clauses(s), places),
        forall|i: int|
            0 <= i < fibratus::clauses(s).len() ==> {
                let c = #[trigger] fibratus::clauses(s)[i];
                c.len() > 0 && text::trimmed(c) == c && fibratus::clauses(c) == seq![c]
            },
{
    let all = lemma_pieces(s, 0);
    let list = fibratus::trimmed_all(fibratus::pieces(s, 0));
    let places = lemma_nonempty_keeps(s, list, all);
    assert forall|i: int| 0 <= i < fibratus::clauses(s).len() implies {
        let c = #[trigger] fibratus::clauses(s)[i];
        c.len() > 0 && text::trimmed(c) == c && fibratus::clauses(c) == seq![c]
    } by {
        let c = fibratus::clauses(s)[i];
        assert(closed(c));
        lemma_closed_is_one_piece(c);
    }
    places
}

/// The clauses of an expression without other white space than spaces are a chain.
proof fn lemma_clauses_chain(s: Seq<char>)
    requires
        only_spaces(s),
    ensures
        chain(fibratus::clauses(s)),
{
    let all = lemma_pieces(s, 0);
    let list = fibratus::trimmed_all(fibratus::pieces(s, 0));
    let whole = lemma_nonempty_keeps(s, list, all);
    let front = list.drop_last();
    let near = all.drop_last();
    assert forall|i: int| 0 <= i < front.len() implies stands(s, 0, #[trigger] front[i], near[i]) by {
        assert(stands(s, 0, list[i], all[i]));
    }
    assert forall|i: int, j: int| 0 <= i < j < front.len() implies (#[trigger] near[i])
        + front[i].len() <= #[trigger] near[j] by {
        assert(all[i] + list[i].len() <= all[j]);
    }
    assert forall|i: int| 0 <= i < front.len() && (#[trigger] front[i]).len() > 0 implies passes(
        front[i],
    ) by {
        assert(front[i] == list[i]);
    }
    let part = lemma_nonempty_keeps(s, front, near);
    let short = fibratus::nonempty(front);
    let full = fibratus::clauses(s);
    assert forall|i: int| 0 <= i < full.len() - 1 implies passes(#[trigger] full[i]) by {
        assert(full[i] == short[i]);
    }
}

// ---------------------------------------------------------------------------
// The names of the macros
// ---------------------------------------------------------------------------

/// A name: small letters and underscores.
pub open spec fn is_name(c: Seq<char>) -> bool {
    c.len() > 0 && forall|i: int|
        0 <= i < c.len() ==> 'a' <= #[trigger] c[i] <= 'z' || c[i] == '_'
}

/// The names of the macros are names.
proof fn lemma_names()
    ensures
        fibratus::macro_table().len() == 31,
        forall|k: int|
            0 <= k < fibratus::macro_table().len() ==> is_name(
                (#[trigger] fibratus::macro_table()[k]).0,
            ),
{
    let table = fibratus::macro_table();
    assert(is_name(table[0].0)) by {
        reveal_strlit("spawn_process");
    }
    assert(is_name(table[1].0)) by {
        reveal_strlit("create_thread");
    }
    assert(is_name(table[2].0)) by {
        reveal_strlit("write_file");
    }
    assert(is_name(table[3].0)) by {
        reveal_strlit("rename_file");
    }
    assert(is_name(table[4].0)) by {
        reveal_strlit("read_file");
    }
    assert(is_name(table[5].0)) by {
        reveal_strlit("delete_file");
    }
    assert(is_name(table[6].0)) by {
        reveal_strlit("set_file_information");
    }
    assert(is_name(table[7].0)) by {
        reveal_strlit("load_module");
    }
    assert(is_name(table[8].0)) by {
        reveal_strlit("unload_module");
    }
    assert(is_name(table[9].0)) by {
        reveal_strlit("send_socket");
    }
    assert(is_name(table[10].0)) by {
        reveal_strlit("recv_socket");
    }
    assert(is_name(table[11].0)) by {
        reveal_strlit("connect_socket");
    }
    assert(is_name(table[12].0)) by {
        reveal_strlit("accept_socket");
    }
    assert(is_name(table[13].0)) by {
        reveal_strlit("virtual_alloc");
    }
    assert(is_name(table[14].0)) by {
        reveal_strlit("virtual_free");
    }
    assert(is_name(table[15].0)) by {
        reveal_strlit("map_view_file");
    }
    assert(is_name(table[16].0)) by {
        reveal_strlit("unmap_view_file");
    }
    assert(is_name(table[17].0)) by {
        reveal_strlit("duplicate_handle");
    }
    assert(is_name(table[18].0)) by {
        reveal_strlit("create_handle");
    }
    assert(is_name(table[19].0)) by {
        reveal_strlit("query_dns");
    }
    assert(is_name(table[20].0)) by {
        reveal_strlit("reply_dns");
    }
    assert(is_name(table[21].0)) by {
        reveal_strlit("create_remote_thread");
    }
    assert(is_name(table[22].0)) by {
        reveal_strlit("open_file");
    }
    assert(is_name(table[23].0)) by {
        reveal_strlit("create_file");
    }
    assert(is_name(table[24].0)) by {
        reveal_strlit("create_new_file");
    }
    assert(is_name(table[25].0)) by {
        reveal_strlit("create_file_supersede");
    }
    assert(is_name(table[26].0)) by {
        reveal_strlit("set_value");
    }
    assert(is_name(table[27].0)) by {
        reveal_strlit("create_key");
    }
    assert(is_name(table[28].0)) by {
        reveal_strlit("open_process");
    }
    assert(is_name(table[29].0)) by {
        reveal_strlit("open_thread");
    }
    assert(is_name(table[30].0)) by {
        reveal_strlit("open_registry");
    }
}

/// A text without quotes and parentheses is at the top level throughout.
proof fn lemma_mild_text(c: Seq<char>, j: int)
    requires
        0 <= j <= c.len(),
        forall|k: int| 0 <= k < c.len() ==> mild(#[trigger] c[k]),
    ensures
        fibratus::top_level(c, j),
{
    assert(fibratus::top_level(c, 0));
    lemma_mild_run(c, 0, j);
}

/// A text without white space at its ends is trimmed.
proof fn lemma_is_trimmed(c: Seq<char>)
    requires
        c.len() > 0,
        !text::white(c[0]),
        !text::white(c.last()),
    ensures
        text::trimmed(c) == c,
{
    let none = Seq::<char>::empty();
    text::lemma_trim_padded(none, c);
    assert(none + c =~= c);
}

/// A name is a clause that others may follow.
proof fn lemma_name_passes(c: Seq<char>)
    requires
        is_name(c),
    ensures
        passes(c),
        !c.contains(' '),
{
    fibratus::lemma_and_token();
    let n = c.len() as int;
    assert('a' <= c[0] <= 'z' || c[0] == '_');
    assert('a' <= c[n - 1] <= 'z' || c[n - 1] == '_');
    lemma_is_trimmed(c);
    assert forall|k: int| 0 <= k < n implies mild(#[trigger] c[k]) by {
        assert('a' <= c[k] <= 'z' || c[k] == '_');
    }
    lemma_mild_text(c, n);
    assert forall|j: int| 0 <= j < n implies !#[trigger] fibratus::boundary(c, j, " and "@) by {
        if fibratus::token_at(c, j, " and "@) {
            lemma_and_chars(c, j);
            assert('a' <= c[j] <= 'z' || c[j] == '_');
        }
    }
    let d = c.push(' ');
    if fibratus::token_at(d, n - 4, " and "@) {
        lemma_and_chars(d, n - 4);
        assert(d[n - 4] == c[n - 4]);
        assert('a' <= c[n - 4] <= 'z' || c[n - 4] == '_');
    }
    if c.contains(' ') {
        let k = c.index_of(' ');
        assert('a' <= c[k] <= 'z' || c[k] == '_');
    }
}

// ---------------------------------------------------------------------------
// The clauses of what was recognized
// ---------------------------------------------------------------------------

/// No macro stands for the clauses from position `i` on.
pub open spec fn none_applies(clauses: Seq<Seq<char>>, i: int) -> bool {
    forall|k: int|
        0 <= k < fibratus::macro_table().len() ==> !#[trigger] fibratus::macro_applies(
            clauses,
            i,
            k,
        )
}

/// Macro `k` stands for the clauses from position `i` on, and no longer one does.
pub open spec fn longest_applies(clauses: Seq<Seq<char>>, i: int, k: int) -> bool {
    &&& 0 <= k < fibratus::macro_table().len()
    &&& fibratus::macro_applies(clauses, i, k)
    &&& forall|l: int|
        0 <= l < fibratus::macro_table().len() && #[trigger] fibratus::macro_applies(clauses, i, l)
            ==> fibratus::macro_forms(l).len() <= fibratus::macro_forms(k).len()
}

/// `x` stands for the clauses from `a` up to `b`: it is the one clause there, no macro
/// standing for any from there on, or it is the name of the longest macro that stands
/// for clauses from there on, and these are they.
pub open spec fn is_run(clauses: Seq<Seq<char>>, a: int, b: int, x: Seq<char>) -> bool {
    &&& 0 <= a < b <= clauses.len()
    &&& (b == a + 1 && x == clauses[a] && none_applies(clauses, a)) || exists|k: int|
        #[trigger] longest_applies(clauses, a, k) && b == a + fibratus::macro_forms(k).len() && x
            == fibratus::macro_table()[k].0
}

/// `starts` cuts the clauses from `i` on into runs, one for each of the list.
pub open spec fn cuts(
    clauses: Seq<Seq<char>>,
    i: int,
    list: Seq<Seq<char>>,
    starts: Seq<int>,
) -> bool {
    &&& starts.len() == list.len() + 1
    &&& starts[0] == i
    &&& starts[list.len() as int] == clauses.len()
    &&& forall|j: int|
        0 <= j < list.len() ==> is_run(clauses, starts[j], starts[j + 1], #[trigger] list[j])
}

proof fn lemma_runs(clauses: Seq<Seq<char>>, i: int) -> (starts: Seq<int>)
    requires
        0 <= i <= clauses.len(),
    ensures
        cuts(clauses, i, fibratus::folded(clauses, i), starts),
    decreases clauses.len() - i,
{
    if i == clauses.len() {
        seq![i]
    } else {
        let n = fibratus::macro_table().len() as int;
        fibratus::lemma_longest_macro_wins(clauses, i, n);
        let list = fibratus::folded(clauses, i);
        let (next, x) = match fibratus::best_macro(clauses, i, n) {
            Some(k) => (i + fibratus::macro_forms(k).len(), fibratus::macro_table()[k].0),
            None => (i + 1, clauses[i]),
        };
        if let Some(k) = fibratus::best_macro(clauses, i, n) {
            assert(longest_applies(clauses, i, k));
        }
        assert(is_run(clauses, i, next, x));
        let later = lemma_runs(clauses, next);
        let tail = fibratus::folded(clauses, next);
        let starts = seq![i] + later;
        assert(list =~= seq![x] + tail);
        assert forall|j: int| 0 <= j < list.len() implies is_run(
            clauses,
            starts[j],
            starts[j + 1],
            #[trigger] list[j],
        ) by {
            if j > 0 {
                assert(list[j] == tail[j - 1]);
                assert(is_run(clauses, later[j - 1], later[j], tail[j - 1]));
            }
        }
        starts
    }
}

/// What was recognized in a chain is a chain.
proof fn lemma_folded_chain(clauses: Seq<Seq<char>>, i: int)
    requires
        0 <= i <= clauses.len(),
        chain(clauses),
    ensures
        chain(fibratus::folded(clauses, i)),
        i < clauses.len() ==> fibratus::folded(clauses, i).len() > 0,
    decreases clauses.len() - i,
{
    if i < clauses.len() {
        let n = fibratus::macro_table().len() as int;
        lemma_names();
        fibratus::lemma_longest_macro_wins(clauses, i, n);
        let list = fibratus::folded(clauses, i);
        let (next, x) = match fibratus::best_macro(clauses, i, n) {
            Some(k) => (i + fibratus::macro_forms(k).len(), fibratus::macro_table()[k].0),
            None => (i + 1, clauses[i]),
        };
        lemma_folded_chain(clauses, next);
        let tail = fibratus::folded(clauses, next);
        assert(list =~= seq![x] + tail);
        assert(closed(clauses[i]));
        if let Some(k) = fibratus::best_macro(clauses, i, n) {
            assert(is_name(fibratus::macro_table()[k].0));
            lemma_name_passes(x);
        } else if next < clauses.len() {
            assert(passes(clauses[i]));
        }
        assert forall|j: int| 0 <= j < list.len() implies closed(#[trigger] list[j]) by {
            if j > 0 {
                assert(list[j] == tail[j - 1]);
            }
        }
        assert forall|j: int| 0 <= j < list.len() - 1 implies passes(#[trigger] list[j]) by {
            if j > 0 {
                assert(list[j] == tail[j - 1]);
            }
        }
    }
}

/// Where no macro stands for any clauses, they stay as they are.
proof fn lemma_nothing_folded(clauses: Seq<Seq<char>>, i: int)
    requires
        0 <= i <= clauses.len(),
        !fibratus::some_macro_applies(clauses),
    ensures
        fibratus::folded(clauses, i) == clauses.skip(i),
    decreases clauses.len() - i,
{
    if i < clauses.len() {
        fibratus::lemma_longest_macro_wins(clauses, i, fibratus::macro_table().len() as int);
        lemma_nothing_folded(clauses, i + 1);
        assert(seq![clauses[i]] + clauses.skip(i + 1) =~= clauses.skip(i));
    } else {
        assert(clauses.skip(i) =~= Seq::empty());
    }
}

/// The clauses of the result are those that were folded.
proof fn lemma_recognized_clauses(condition: Seq<char>)
    requires
        only_spaces(condition),
    ensures
        fibratus::clauses(fibratus::recognized(condition)) == fibratus::folded(
            fibratus::clauses(condition),
            0,
        ),
{
    let list = fibratus::clauses(condition);
    if fibratus::some_macro_applies(list) {
        lemma_clauses_chain(condition);
        let (i, k) = choose|i: int, k: int|
            0 <= k < fibratus::macro_table().len() && #[trigger] fibratus::macro_applies(
                list,
                i,
                k,
            );
        assert(list.len() > 0);
        lemma_folded_chain(list, 0);
        lemma_clauses_of_joined(fibratus::folded(list, 0));
    } else {
        lemma_nothing_folded(list, 0);
        assert(list.skip(0) =~= list);
    }
}

/// The clauses of an expression can be cut into consecutive runs, one for each clause of
/// what it is recognized as, in order: each clause of the result is the one clause of
/// its run, where no macro stands, or the name of the longest macro that stands there,
/// and for its run. The only white space in the expression is the space.
pub proof fn lemma_result_is_runs(condition: Seq<char>) -> (starts: Seq<int>)
    requires
        only_spaces(condition),
    ensures
        cuts(
            fibratus::clauses(condition),
            0,
            fibratus::clauses(fibratus::recognized(condition)),
            starts,
        ),
{
    lemma_recognized_clauses(condition);
    lemma_runs(fibratus::clauses(condition), 0)
}

// ---------------------------------------------------------------------------
// The forms of a clause of a macro
// ---------------------------------------------------------------------------

/// What stands between the two sides of a clause.
spec fn is_op(op: Seq<char>) -> bool {
    op == " = "@ || op == " ~= "@ || op == " != "@
}

/// What stands behind the operator of a clause: a literal or a word.
spec fn is_side(r: Seq<char>) -> bool {
    (exists|v: Seq<char>| #[trigger] macro_shapes::is_word(v) && r == macro_shapes::quoted(v)) || macro_shapes::is_word(r)
}

proof fn lemma_op(op: Seq<char>)
    requires
        is_op(op),
    ensures
        3 <= op.len() <= 4,
        op[0] == ' ',
        op.last() == ' ',
        op[1] == '=' || op[1] == '~' || op[1] == '!',
        op.len() == 4 ==> op[2] == '=',
        op == " = "@ <==> op[1] == '=',
        op == " ~= "@ <==> op[1] == '~',
        op == " != "@ <==> op[1] == '!',
        op == " = "@ <==> op.len() == 3,
{
    reveal_strlit(" = ");
    reveal_strlit(" ~= ");
    reveal_strlit(" != ");
}

/// The characters of a literal.
proof fn lemma_quoted(v: Seq<char>)
    ensures
        macro_shapes::quoted(v).len() == v.len() + 2,
        macro_shapes::quoted(v)[0] == '\'',
        macro_shapes::quoted(v).last() == '\'',
        forall|i: int| 0 <= i < v.len() ==> #[trigger] macro_shapes::quoted(v)[i + 1] == v[i],
{
    reveal_strlit("'");
}

/// No character of a side is a space or a parenthesis.
proof fn lemma_side(r: Seq<char>)
    requires
        is_side(r),
    ensures
        r.len() > 0,
        forall|i: int|
            0 <= i < r.len() ==> #[trigger] r[i] != ' ' && r[i] != '(' && !text::white(r[i]) && r[i]
                != '=',
{
    if macro_shapes::is_word(r) {
        assert forall|i: int| 0 <= i < r.len() implies #[trigger] r[i] != ' ' && r[i] != '('
            && !text::white(r[i]) && r[i] != '=' by {
            assert(macro_shapes::word_char(r[i]));
        }
    } else {
        let v = choose|v: Seq<char>| #[trigger] macro_shapes::is_word(v) && r == macro_shapes::quoted(v);
        lemma_quoted(v);
        assert forall|i: int| 0 <= i < r.len() implies #[trigger] r[i] != ' ' && r[i] != '('
            && !text::white(r[i]) && r[i] != '=' by {
            if 0 < i < r.len() - 1 {
                assert(macro_shapes::quoted(v)[i - 1 + 1] == v[i - 1]);
                assert(macro_shapes::word_char(v[i - 1]));
            }
        }
    }
}

/// Where the spaces of a clause stand, and what else it holds.
proof fn lemma_sides(f: Seq<char>, op: Seq<char>, r: Seq<char>)
    requires
        macro_shapes::is_word(f),
        is_op(op),
        is_side(r),
    ensures
        ({
            let t = f + op + r;
            let n = f.len() as int;
            let m = op.len() as int;
            &&& t.len() == n + m + r.len()
            &&& t[n] == ' '
            &&& t[n + m - 1] == ' '
            &&& t[n + 1] == op[1]
            &&& t[n + m] == r[0]
            &&& t.last() == r.last()
            &&& forall|i: int|
                0 <= i < t.len() && #[trigger] t[i] == ' ' ==> i == n || i == n + m - 1
            &&& forall|i: int| 0 <= i < t.len() ==> #[trigger] t[i] != '('
            &&& forall|i: int| 0 <= i < n + m ==> mild(#[trigger] t[i])
            &&& !text::white(t[0])
            &&& !text::white(t.last())
        }),
{
    let t = f + op + r;
    let n = f.len() as int;
    let m = op.len() as int;
    lemma_op(op);
    lemma_side(r);
    assert(macro_shapes::word_char(f[0]));
    assert forall|i: int| 0 <= i < t.len() implies (#[trigger] t[i] == ' ' ==> i == n || i == n + m
        - 1) && t[i] != '(' && (i < n + m ==> mild(t[i])) by {
        if i < n {
            assert(t[i] == f[i]);
            assert(macro_shapes::word_char(f[i]));
        } else if i < n + m {
            assert(t[i] == op[i - n]);
        } else {
            assert(t[i] == r[i - n - m]);
            assert(r[i - n - m] != ' ' && r[i - n - m] != '(');
        }
    }
    let l = r.len() - 1;
    assert(!text::white(r[l]));
    assert(t[t.len() - 1] == r[l]);
}

/// A clause of a macro ends at the top level.
proof fn lemma_sides_end(f: Seq<char>, op: Seq<char>, r: Seq<char>)
    requires
        macro_shapes::is_word(f),
        is_op(op),
        is_side(r),
    ensures
        fibratus::top_level(f + op + r, (f.len() + op.len() + r.len()) as int),
        forall|j: int|
            0 <= j <= f.len() + op.len() ==> #[trigger] fibratus::top_level(f + op + r, j),
{
    let t = f + op + r;
    let a = (f.len() + op.len()) as int;
    lemma_sides(f, op, r);
    assert(fibratus::top_level(t, 0));
    assert forall|j: int| 0 <= j <= a implies #[trigger] fibratus::top_level(t, j) by {
        lemma_mild_run(t, 0, j);
    }
    assert(fibratus::top_level(t, a));
    if macro_shapes::is_word(r) {
        assert forall|k: int| a <= k < t.len() implies mild(#[trigger] t[k]) by {
            assert(t[k] == r[k - a]);
            assert(macro_shapes::word_char(r[k - a]));
        }
        lemma_mild_run(t, a, t.len() as int);
    } else {
        let v = choose|v: Seq<char>| #[trigger] macro_shapes::is_word(v) && r == macro_shapes::quoted(v);
        lemma_quoted(v);
        let b = a + 1 + v.len();
        assert(t[a] == '\'');
        assert(fibratus::quote_at(t, a + 1) is Inside);
        assert(fibratus::depth_at(t, a + 1) == 0);
        assert forall|k: int| a + 1 <= k < b implies mild(#[trigger] t[k]) by {
            assert(t[k] == r[k - a]);
            assert(macro_shapes::quoted(v)[k - a - 1 + 1] == v[k - a - 1]);
            assert(macro_shapes::word_char(v[k - a - 1]));
        }
        lemma_inside_run(t, a + 1, b);
        assert(t[b] == r[r.len() - 1]);
    }
}

/// Inside a literal, characters that are neither quotes nor backslashes change nothing.
proof fn lemma_inside_run(t: Seq<char>, a: int, b: int)
    requires
        0 <= a <= b <= t.len(),
        fibratus::quote_at(t, a) is Inside,
        forall|k: int| a <= k < b ==> mild(#[trigger] t[k]),
    ensures
        fibratus::quote_at(t, b) is Inside,
        fibratus::depth_at(t, b) == fibratus::depth_at(t, a),
    decreases b - a,
{
    if a < b {
        lemma_inside_run(t, a, b - 1);
        assert(mild(t[b - 1]));
    }
}

/// A clause of a macro may be followed by others.
proof fn lemma_sides_pass(f: Seq<char>, op: Seq<char>, r: Seq<char>)
    requires
        macro_shapes::is_word(f),
        is_op(op),
        is_side(r),
        macro_shapes::is_word(r) ==> r.len() != 3 && op.len() == 4,
    ensures
        passes(f + op + r),
        (f + op + r).contains(' '),
{
    fibratus::lemma_and_token();
    let t = f + op + r;
    let n = f.len() as int;
    let len = t.len() as int;
    lemma_op(op);
    lemma_sides(f, op, r);
    lemma_sides_end(f, op, r);
    lemma_is_trimmed(t);
    assert forall|j: int| 0 <= j < len implies !#[trigger] fibratus::boundary(t, j, " and "@) by {
        if fibratus::token_at(t, j, " and "@) {
            lemma_and_chars(t, j);
            assert(t[j] == ' ' && t[j + 4] == ' ');
        }
    }
    let d = t.push(' ');
    if fibratus::token_at(d, len - 4, " and "@) {
        lemma_and_chars(d, len - 4);
        assert(d[len - 4] == t[len - 4] && d[len - 1] == t[len - 1]);
        if macro_shapes::is_word(r) {
            assert(t[len - 4] == ' ');
        } else {
            let v = choose|v: Seq<char>| #[trigger] macro_shapes::is_word(v) && r == macro_shapes::quoted(v);
            lemma_quoted(v);
            assert(t[len - 1] == '\'');
        }
    }
}

/// A clause is determined by the way in which it is written.
proof fn lemma_sides_unique(
    f: Seq<char>,
    op: Seq<char>,
    r: Seq<char>,
    g: Seq<char>,
    oq: Seq<char>,
    q: Seq<char>,
)
    requires
        macro_shapes::is_word(f),
        is_op(op),
        is_side(r),
        macro_shapes::is_word(g),
        is_op(oq),
        is_side(q),
        f + op + r == g + oq + q,
    ensures
        f == g,
        op == oq,
        r == q,
{
    let t = f + op + r;
    let u = g + oq + q;
    lemma_sides(f, op, r);
    lemma_sides(g, oq, q);
    lemma_op(op);
    lemma_op(oq);
    let n = f.len() as int;
    let m = g.len() as int;
    if n < m {
        assert(u[n] == g[n]);
        assert(macro_shapes::word_char(g[n]));
    }
    if m < n {
        assert(t[m] == f[m]);
        assert(macro_shapes::word_char(f[m]));
    }
    assert(t.take(n) =~= f);
    assert(u.take(n) =~= g);
    assert(t[n + 1] == u[n + 1]);
    assert(t.skip(n + op.len()) =~= r);
    assert(u.skip(n + op.len()) =~= q);
}

/// A token of four characters that begins with a space stands in a clause only where
/// the clause has a space.
proof fn lemma_four_chars(s: Seq<char>, i: int, token: Seq<char>)
    requires
        token == " = '"@ || token == " != "@,
        0 <= i,
        i + 4 <= s.len(),
    ensures
        fibratus::token_at(s, i, token) <==> s[i] == ' ' && s[i + 1] == token[1] && s[i + 2]
            == token[2] && s[i + 3] == token[3],
        token.len() == 4,
        token == " = '"@ ==> token[1] == '=' && token[2] == ' ' && token[3] == '\'',
        token == " != "@ ==> token[1] == '!' && token[2] == '=' && token[3] == ' ',
{
    reveal_strlit(" = '");
    reveal_strlit(" != ");
    lemma_token_chars(s, i, token);
    assert(token[0] == ' ');
    assert forall|k: int| 0 <= k < 4 implies #[trigger] text::ascii_lower_char(token[k])
        == token[k] by {
        assert(k == 0 || k == 1 || k == 2 || k == 3);
    }
    if s[i] == ' ' && s[i + 1] == token[1] && s[i + 2] == token[2] && s[i + 3] == token[3] {
        assert forall|k: int| 0 <= k < token.len() implies text::ascii_lower_char(
            #[trigger] token[k],
        ) == text::ascii_lower_char(s[i + k]) by {
            assert(k == 0 || k == 1 || k == 2 || k == 3);
        }
    }
    if fibratus::token_at(s, i, token) {
        assert(text::ascii_lower_char(token[0]) == text::ascii_lower_char(s[i + 0]));
        assert(text::ascii_lower_char(token[1]) == text::ascii_lower_char(s[i + 1]));
        assert(text::ascii_lower_char(token[2]) == text::ascii_lower_char(s[i + 2]));
        assert(text::ascii_lower_char(token[3]) == text::ascii_lower_char(s[i + 3]));
    }
}

/// Where ` = '` and ` != ` stand in a clause of a macro.
proof fn lemma_four_in_sides(f: Seq<char>, op: Seq<char>, r: Seq<char>, token: Seq<char>)
    requires
        macro_shapes::is_word(f),
        is_op(op),
        is_side(r),
        token == " = '"@ || token == " != "@,
    ensures
        fibratus::next_boundary(f + op + r, 0, token) == (if (token == " = '"@ && op == " = "@
            && r[0] == '\'') || (token == " != "@ && op == " != "@) {
            f.len() as int
        } else {
            (f.len() + op.len() + r.len()) as int
        }),
{
    reveal_strlit(" = '");
    reveal_strlit(" != ");
    let t = f + op + r;
    let n = f.len() as int;
    let m = op.len() as int;
    lemma_sides(f, op, r);
    lemma_sides_end(f, op, r);
    lemma_op(op);
    lemma_side(r);
    assert forall|j: int|
        0 <= j < t.len() && #[trigger] fibratus::boundary(t, j, token) implies j == n && ((token
        == " = '"@ && op == " = "@ && r[0] == '\'') || (token == " != "@ && op == " != "@)) by {
        lemma_four_chars(t, j, token);
        assert(t[j] == ' ');
        assert(r[0] != '=');
    }
    if (token == " = '"@ && op == " = "@ && r[0] == '\'') || (token == " != "@ && op == " != "@) {
        lemma_four_chars(t, n, token);
        assert(t[n + 2] == op[2]);
        assert(fibratus::boundary(t, n, token));
        lemma_boundary_unique(t, 0, token, n);
    } else {
        lemma_boundary_unique(t, 0, token, t.len() as int);
    }
}

spec fn field_of(shape: Shape) -> Seq<char> {
    match shape {
        Shape::Equal { field, .. } => field,
        Shape::Unequal { field, .. } => field,
        Shape::UnequalTo { field, .. } => field,
    }
}

spec fn op_of(shape: Shape) -> Seq<char> {
    if shape is Equal {
        " = "@
    } else {
        " != "@
    }
}

spec fn side_of(shape: Shape) -> Seq<char> {
    match shape {
        Shape::Equal { value, .. } => macro_shapes::quoted(value),
        Shape::Unequal { value, .. } => macro_shapes::quoted(value),
        Shape::UnequalTo { word, .. } => word,
    }
}

/// A literal is no word.
proof fn lemma_quoted_is_no_word(v: Seq<char>)
    ensures
        !macro_shapes::is_word(macro_shapes::quoted(v)),
{
    lemma_quoted(v);
    if macro_shapes::is_word(macro_shapes::quoted(v)) {
        assert(macro_shapes::word_char(macro_shapes::quoted(v)[0]));
    }
}

/// How a clause of a macro is written, and that others may follow it.
proof fn lemma_shape(shape: Shape)
    requires
        macro_shapes::sound(shape),
    ensures
        macro_shapes::is_word(field_of(shape)),
        is_side(side_of(shape)),
        macro_shapes::shape_text(shape) == field_of(shape) + op_of(shape) + side_of(shape),
        macro_shapes::relaxed_text(shape) == field_of(shape) + (if shape is Equal {
            " ~= "@
        } else {
            " != "@
        }) + side_of(shape),
        passes(macro_shapes::shape_text(shape)),
        passes(macro_shapes::relaxed_text(shape)),
        macro_shapes::shape_text(shape).contains(' '),
        macro_shapes::relaxed_text(shape).contains(' '),
{
    let f = field_of(shape);
    let r = side_of(shape);
    match shape {
        Shape::Equal { value, .. } => lemma_quoted_is_no_word(value),
        Shape::Unequal { value, .. } => lemma_quoted_is_no_word(value),
        Shape::UnequalTo { .. } => {},
    }
    lemma_op(" = "@);
    lemma_op(" ~= "@);
    lemma_op(" != "@);
    lemma_sides_pass(f, op_of(shape), r);
    if shape is Equal {
        lemma_sides_pass(f, " ~= "@, r);
    }
}

/// The forms of a clause of a macro: as it is written, as it is written where case does
/// not count, and others with a parenthesis. Each of them holds a space.
proof fn lemma_forms(shape: Shape)
    requires
        macro_shapes::sound(shape),
    ensures
        text::trimmed(macro_shapes::shape_text(shape)) == macro_shapes::shape_text(shape),
        fibratus::ci_eq(macro_shapes::shape_text(shape)) == macro_shapes::relaxed_text(shape),
        forall|x: Seq<char>| #[trigger]
            fibratus::clause_forms(macro_shapes::shape_text(shape)).contains(x) ==> x.contains(' ') && (x
                == macro_shapes::shape_text(shape) || x == macro_shapes::relaxed_text(shape) || x.contains('(')),
{
    reveal_strlit(" = '");
    reveal_strlit(" ~= '");
    reveal_strlit("'");
    reveal_strlit(" = ");
    reveal_strlit(" ~= ");
    reveal_strlit("not (");
    lemma_shape(shape);
    let t = macro_shapes::shape_text(shape);
    let f = field_of(shape);
    let op = op_of(shape);
    let r = side_of(shape);
    lemma_four_in_sides(f, op, r, " = '"@);
    lemma_four_in_sides(f, op, r, " != "@);
    lemma_op(op);
    if let Shape::Equal { field, value } = shape {
        lemma_quoted(value);
        let n = f.len() as int;
        assert(fibratus::ci_eq(t) =~= macro_shapes::relaxed_text(shape));
    } else {
        assert(fibratus::ci_eq(t) == t);
    }
    let forms = fibratus::clause_forms(t);
    assert forall|x: Seq<char>| #[trigger] forms.contains(x) implies x.contains(' ') && (x == t
        || x == macro_shapes::relaxed_text(shape) || x.contains('(')) by {
        if x != t && x != macro_shapes::relaxed_text(shape) {
            let k = forms.index_of(x);
            let (lhs, rhs) = fibratus::neq_sides(t)->0;
            let more = fibratus::negated_forms(text::trimmed(lhs), text::trimmed(rhs));
            let verbatim = if fibratus::ci_eq(t) != t {
                seq![t, fibratus::ci_eq(t)]
            } else {
                seq![t]
            };
            assert(fibratus::neq_sides(t) is Some);
            assert(forms == verbatim + more);
            assert(x == more[k - verbatim.len()]);
            assert(x[3] == "not ("@[3] && x[4] == "not ("@[4]);
            assert(x.contains(x[3]) && x.contains(x[4]));
        }
    }
}

/// A clause of one macro, case aside, is a form of a clause of another only if they are
/// of the same shape.
proof fn lemma_forms_differ(one: Shape, other: Shape, got: Seq<char>)
    requires
        macro_shapes::sound(one),
        macro_shapes::sound(other),
        got == macro_shapes::shape_text(one) || got == macro_shapes::relaxed_text(one),
        fibratus::clause_forms(macro_shapes::shape_text(other)).contains(got),
    ensures
        one == other,
{
    lemma_shape(one);
    lemma_shape(other);
    lemma_forms(other);
    lemma_op(" = "@);
    lemma_op(" ~= "@);
    lemma_op(" != "@);
    let op = if got == macro_shapes::shape_text(one) {
        op_of(one)
    } else if one is Equal {
        " ~= "@
    } else {
        " != "@
    };
    let oq = if got == macro_shapes::shape_text(other) {
        op_of(other)
    } else if other is Equal {
        " ~= "@
    } else {
        " != "@
    };
    lemma_sides(field_of(one), op, side_of(one));
    if got.contains('(') {
        let k = got.index_of('(');
        assert(got[k] != '(');
    }
    lemma_sides_unique(
        field_of(one),
        op,
        side_of(one),
        field_of(other),
        oq,
        side_of(other),
    );
    match (one, other) {
        (Shape::Equal { value: v, .. }, Shape::Equal { value: w, .. }) => lemma_literals(v, w),
        (Shape::Unequal { value: v, .. }, Shape::Unequal { value: w, .. }) => lemma_literals(v, w),
        (Shape::Unequal { value: v, .. }, _) => lemma_quoted_is_no_word(v),
        (_, Shape::Unequal { value: w, .. }) => lemma_quoted_is_no_word(w),
        _ => {},
    }
}

/// A literal holds one text.
proof fn lemma_literals(v: Seq<char>, w: Seq<char>)
    requires
        macro_shapes::quoted(v) == macro_shapes::quoted(w),
    ensures
        v == w,
{
    lemma_quoted(v);
    lemma_quoted(w);
    assert forall|i: int| 0 <= i < v.len() implies v[i] == w[i] by {
        assert(macro_shapes::quoted(v)[i + 1] == v[i]);
        assert(macro_shapes::quoted(w)[i + 1] == w[i]);
    }
    assert(v =~= w);
}

/// The clauses of a macro are those of its shapes.
proof fn lemma_source_clauses(k: int)
    requires
        0 <= k < fibratus::macro_table().len(),
    ensures
        macro_shapes::shaped(k),
        fibratus::source_clauses(fibratus::macro_table()[k].1) == macro_shapes::shape_texts(macro_shapes::shape_table()[k]),
        fibratus::clauses(fibratus::macro_table()[k].1) == macro_shapes::shape_texts(macro_shapes::shape_table()[k]),
        fibratus::macro_forms(k).len() == macro_shapes::shape_table()[k].len(),
        forall|j: int|
            0 <= j < macro_shapes::shape_table()[k].len() ==> #[trigger] fibratus::macro_forms(k)[j]
                == fibratus::clause_forms(macro_shapes::shape_text(macro_shapes::shape_table()[k][j])),
{
    macro_shapes::lemma_shapes();
    assert(macro_shapes::shaped(k));
    let shapes = macro_shapes::shape_table()[k];
    let list = macro_shapes::shape_texts(shapes);
    assert forall|j: int| 0 <= j < list.len() implies passes(#[trigger] list[j]) by {
        assert(macro_shapes::sound(shapes[j]));
        lemma_shape(shapes[j]);
    }
    lemma_clauses_of_joined(list);
}

/// Every form of a clause of a macro holds a space.
proof fn lemma_forms_hold_a_space(k: int, j: int, x: Seq<char>)
    requires
        0 <= k < fibratus::macro_table().len(),
        0 <= j < fibratus::macro_forms(k).len(),
        fibratus::macro_forms(k)[j].contains(x),
    ensures
        x.contains(' '),
{
    lemma_source_clauses(k);
    assert(macro_shapes::sound(macro_shapes::shape_table()[k][j]));
    lemma_forms(macro_shapes::shape_table()[k][j]);
}

/// No macro stands for a run of clauses with a name in it.
proof fn lemma_names_match_nothing(clauses: Seq<Seq<char>>, i: int, k: int, j: int)
    requires
        0 <= k < fibratus::macro_table().len(),
        fibratus::macro_applies(clauses, i, k),
        0 <= j < fibratus::macro_forms(k).len(),
    ensures
        !is_name(clauses[i + j]),
{
    let n = fibratus::macro_forms(k).len() as int;
    let x = clauses[i + j];
    if is_name(x) {
        lemma_name_passes(x);
        assert(clauses.subrange(i, i + n)[j] == x);
        assert(fibratus::macro_forms(k)[j].contains(text::trimmed(x)));
        lemma_forms_hold_a_space(k, j, x);
    }
}

// ---------------------------------------------------------------------------
// Laws of recognition
// ---------------------------------------------------------------------------

/// Recognizing the macros in what was recognized changes nothing. The only white space
/// in the expression is the space.
pub proof fn lemma_recognizing_twice(condition: Seq<char>)
    requires
        only_spaces(condition),
    ensures
        fibratus::recognized(fibratus::recognized(condition)) == fibratus::recognized(condition),
{
    let all = fibratus::clauses(condition);
    let list = fibratus::folded(all, 0);
    lemma_recognized_clauses(condition);
    lemma_names();
    let starts = lemma_runs(all, 0);
    if fibratus::some_macro_applies(all) && fibratus::some_macro_applies(list) {
        let (i, k) = choose|i: int, k: int|
            0 <= k < fibratus::macro_table().len() && #[trigger] fibratus::macro_applies(
                list,
                i,
                k,
            );
        let n = fibratus::macro_forms(k).len() as int;
        assert forall|j: int| 0 <= j < n implies starts[i + j + 1] == #[trigger] starts[i + j] + 1
            && list[i + j] == all[starts[i + j]] && none_applies(all, starts[i + j]) by {
            assert(is_run(all, starts[i + j], starts[i + j + 1], list[i + j]));
            if exists|l: int| #[trigger]
                longest_applies(all, starts[i + j], l) && list[i + j] == fibratus::macro_table()[l].0 {
                let l = choose|l: int| #[trigger]
                    longest_applies(all, starts[i + j], l) && list[i + j]
                        == fibratus::macro_table()[l].0;
                assert(is_name(fibratus::macro_table()[l].0));
                lemma_names_match_nothing(list, i, k, j);
            }
        }
        lemma_steps(starts, i, n);
        let p = starts[i];
        assert(starts[i + 0] == p);
        assert(starts[i + (n - 1)] == p + (n - 1));
        assert(is_run(all, starts[i + n - 1], starts[i + n], list[i + n - 1]));
        assert(is_run(all, starts[i], starts[i + 1], list[i]));
        let before = all.subrange(p, p + n);
        let after = list.subrange(i, i + n);
        assert(before =~= after) by {
            assert forall|j: int| 0 <= j < n implies #[trigger] before[j] == after[j] by {
                assert(starts[i + j] == p + j);
            }
        }
        assert(fibratus::macro_applies(all, p, k));
    }
}

/// Steps of one lead as far as there are steps.
proof fn lemma_steps(starts: Seq<int>, i: int, n: int)
    requires
        0 <= i,
        0 <= n,
        i + n < starts.len(),
        forall|j: int| 0 <= j < n ==> starts[i + j + 1] == #[trigger] starts[i + j] + 1,
    ensures
        forall|j: int| 0 <= j <= n ==> #[trigger] starts[i + j] == starts[i] + j,
    decreases n,
{
    if n > 0 {
        lemma_steps(starts, i, n - 1);
        assert(starts[i + (n - 1)] == starts[i] + (n - 1));
        assert forall|j: int| 0 <= j <= n implies #[trigger] starts[i + j] == starts[i] + j by {
            if j == n {
                assert(starts[i + (n - 1) + 1] == starts[i + (n - 1)] + 1);
            }
        }
    }
}

/// `run` is the clauses of a macro, each as it stands or, an equality with a literal, in
/// the form in which case does not count.
pub open spec fn renders_macro(run: Seq<Seq<char>>, k: int) -> bool {
    let own = fibratus::source_clauses(fibratus::macro_table()[k].1);
    run.len() == own.len() && forall|j: int|
        0 <= j < own.len() ==> (#[trigger] run[j]) == own[j] || run[j] == fibratus::ci_eq(own[j])
}

/// The expression of a macro is recognized as the macro, whether or not case counts in
/// each of its equalities; its clauses, joined, are the expression; and the name of the
/// macro stays.
pub proof fn lemma_macros_are_recognized(k: int, run: Seq<Seq<char>>)
    requires
        0 <= k < fibratus::macro_table().len(),
        renders_macro(run, k),
    ensures
        fibratus::recognized(text::join(run, " and "@)) == fibratus::macro_table()[k].0,
        text::join(fibratus::source_clauses(fibratus::macro_table()[k].1), " and "@)
            == fibratus::macro_table()[k].1,
        fibratus::recognized(fibratus::macro_table()[k].1) == fibratus::macro_table()[k].0,
        fibratus::recognized(fibratus::macro_table()[k].0) == fibratus::macro_table()[k].0,
{
    lemma_source_clauses(k);
    let own = fibratus::source_clauses(fibratus::macro_table()[k].1);
    lemma_run_is_recognized(k, run);
    lemma_run_is_recognized(k, own);
    lemma_names();
    let name = fibratus::macro_table()[k].0;
    lemma_name_passes(name);
    lemma_closed_is_one_piece(name);
    if fibratus::some_macro_applies(seq![name]) {
        let (i, l) = choose|i: int, l: int|
            0 <= l < fibratus::macro_table().len() && #[trigger] fibratus::macro_applies(
                seq![name],
                i,
                l,
            );
        assert(seq![name][i + 0] == name);
        lemma_names_match_nothing(seq![name], i, l, 0);
    }
}

proof fn lemma_run_is_recognized(k: int, run: Seq<Seq<char>>)
    requires
        0 <= k < fibratus::macro_table().len(),
        renders_macro(run, k),
    ensures
        fibratus::recognized(text::join(run, " and "@)) == fibratus::macro_table()[k].0,
{
    lemma_source_clauses(k);
    let shapes = macro_shapes::shape_table()[k];
    let own = macro_shapes::shape_texts(shapes);
    let n = own.len() as int;
    let total = fibratus::macro_table().len() as int;
    assert forall|j: int| 0 <= j < n implies passes(#[trigger] run[j]) && (run[j] == macro_shapes::shape_text(
        shapes[j],
    ) || run[j] == macro_shapes::relaxed_text(shapes[j])) && fibratus::renders(run[j], own[j]) by {
        assert(macro_shapes::sound(shapes[j]));
        lemma_shape(shapes[j]);
        lemma_forms(shapes[j]);
        assert(own[j] == macro_shapes::shape_text(shapes[j]));
    }
    lemma_clauses_of_joined(run);
    assert forall|j: int| 0 <= j < n implies fibratus::renders(
        run[0 + j],
        #[trigger] fibratus::source_clauses(fibratus::macro_table()[k].1)[j],
    ) by {
        assert(passes(run[j]));
    }
    fibratus::lemma_every_form_is_recognized(run, 0, k);
    fibratus::lemma_longest_macro_wins(run, 0, total);
    let b = fibratus::best_macro(run, 0, total)->0;
    lemma_source_clauses(b);
    let others = macro_shapes::shape_table()[b];
    assert(others.len() == n);
    assert(run.subrange(0, n) =~= run);
    assert(others =~= shapes) by {
        assert forall|j: int| 0 <= j < n implies others[j] == shapes[j] by {
            assert(passes(run[j]));
            assert(macro_shapes::sound(shapes[j]) && macro_shapes::sound(others[j]));
            assert(fibratus::macro_forms(b)[j].contains(text::trimmed(run[j])));
            lemma_forms_differ(shapes[j], others[j], run[j]);
        }
    }
    macro_shapes::lemma_sources_differ();
    assert(macro_shapes::number_of(fibratus::macro_table()[b].1) == b);
    assert(macro_shapes::number_of(fibratus::macro_table()[k].1) == k);
    assert(b == k);
    let rest = fibratus::folded(run, n);
    assert(rest =~= Seq::empty());
    let list = fibratus::folded(run, 0);
    assert(list =~= seq![fibratus::macro_table()[k].0]);
}

// ---------------------------------------------------------------------------
// The macros, one by one
// ---------------------------------------------------------------------------

/// The text asks something of a field that some macro asks something of.
pub open spec fn on_macro_field(c: Seq<char>) -> bool {
    ||| text::begins(c, "evt.name "@)
    ||| text::begins(c, "evt.pid "@)
    ||| text::begins(c, "file.operation "@)
    ||| text::begins(c, "file.status "@)
    ||| text::begins(c, "registry.status "@)
    ||| text::begins(c, "ps.access.status "@)
    ||| text::begins(c, "thread.access.status "@)
}

/// A clause that no macro has a part in: it asks nothing of a field of theirs, and is no
/// negation.
pub open spec fn foreign(c: Seq<char>) -> bool {
    passes(c) && !on_macro_field(c) && !text::begins(c, "not ("@)
}

/// Clauses that no macro has a part in.
pub open spec fn all_foreign(list: Seq<Seq<char>>) -> bool {
    forall|i: int| 0 <= i < list.len() ==> foreign(#[trigger] list[i])
}

/// The expression is recognized as the name, by itself and between any clauses that no
/// macro has a part in, and the name stays.
pub open spec fn stands_for(name: Seq<char>, expression: Seq<char>) -> bool {
    &&& fibratus::recognized(expression) == name
    &&& fibratus::recognized(name) == name
    &&& forall|before: Seq<Seq<char>>, behind: Seq<Seq<char>>| #[trigger]
        all_foreign(before) && #[trigger] all_foreign(behind) ==> fibratus::recognized(
            text::join(before + seq![expression] + behind, " and "@),
        ) == text::join(before + seq![name] + behind, " and "@)
}

/// A form of a clause of a macro begins with its field or a negation.
proof fn lemma_form_begins(shape: Shape, x: Seq<char>)
    requires
        macro_shapes::sound(shape),
        fibratus::clause_forms(macro_shapes::shape_text(shape)).contains(x),
    ensures
        text::begins(x, field_of(shape) + " "@) || text::begins(x, "not ("@),
{
    reveal_strlit(" ");
    lemma_shape(shape);
    lemma_forms(shape);
    lemma_op(" = "@);
    lemma_op(" ~= "@);
    lemma_op(" != "@);
    reveal_strlit(" = ");
    reveal_strlit(" ~= ");
    reveal_strlit(" != ");
    let t = macro_shapes::shape_text(shape);
    let f = field_of(shape);
    let n = f.len() as int;
    if x == t || x == macro_shapes::relaxed_text(shape) {
        assert(x.take(n + 1) =~= f + " "@);
    } else {
        let forms = fibratus::clause_forms(t);
        let k = forms.index_of(x);
        let (lhs, rhs) = fibratus::neq_sides(t)->0;
        let more = fibratus::negated_forms(text::trimmed(lhs), text::trimmed(rhs));
        let verbatim = if fibratus::ci_eq(t) != t {
            seq![t, fibratus::ci_eq(t)]
        } else {
            seq![t]
        };
        assert(fibratus::neq_sides(t) is Some);
        assert(forms == verbatim + more);
        assert(x == more[k - verbatim.len()]);
        let m = "not ("@.len() as int;
        assert(x.take(m) =~= "not ("@);
    }
}

/// Every clause of a macro asks something of one of these fields.
proof fn lemma_macro_fields(k: int, j: int)
    requires
        0 <= k < macro_shapes::shape_table().len(),
        0 <= j < macro_shapes::shape_table()[k].len(),
    ensures
        on_macro_field(field_of(macro_shapes::shape_table()[k][j]) + " "@),
{
    let f = field_of(macro_shapes::shape_table()[k][j]);
    assert(f == "evt.name"@ || f == "evt.pid"@ || f == "file.operation"@ || f == "file.status"@ || f == "registry.status"@ || f == "ps.access.status"@ || f == "thread.access.status"@);
    reveal_strlit(" ");
    assert("evt.name "@ =~= "evt.name"@ + " "@) by {
        reveal_strlit("evt.name");
        reveal_strlit("evt.name ");
    }
    assert("evt.pid "@ =~= "evt.pid"@ + " "@) by {
        reveal_strlit("evt.pid");
        reveal_strlit("evt.pid ");
    }
    assert("file.operation "@ =~= "file.operation"@ + " "@) by {
        reveal_strlit("file.operation");
        reveal_strlit("file.operation ");
    }
    assert("file.status "@ =~= "file.status"@ + " "@) by {
        reveal_strlit("file.status");
        reveal_strlit("file.status ");
    }
    assert("registry.status "@ =~= "registry.status"@ + " "@) by {
        reveal_strlit("registry.status");
        reveal_strlit("registry.status ");
    }
    assert("ps.access.status "@ =~= "ps.access.status"@ + " "@) by {
        reveal_strlit("ps.access.status");
        reveal_strlit("ps.access.status ");
    }
    assert("thread.access.status "@ =~= "thread.access.status"@ + " "@) by {
        reveal_strlit("thread.access.status");
        reveal_strlit("thread.access.status ");
    }
    assert((f + " "@).take((f + " "@).len() as int) =~= f + " "@);
}

/// No macro has a part in a clause that asks nothing of its fields.
proof fn lemma_foreign(k: int, j: int, c: Seq<char>)
    requires
        foreign(c),
        0 <= k < fibratus::macro_table().len(),
        0 <= j < fibratus::macro_forms(k).len(),
    ensures
        !fibratus::macro_forms(k)[j].contains(text::trimmed(c)),
{
    lemma_source_clauses(k);
    let shape = macro_shapes::shape_table()[k][j];
    assert(macro_shapes::sound(shape));
    if fibratus::macro_forms(k)[j].contains(text::trimmed(c)) {
        lemma_form_begins(shape, c);
        lemma_macro_fields(k, j);
        let f = field_of(shape) + " "@;
        lemma_begins_twice(c, f);
    }
}

/// What begins with one of the fields asks something of it.
proof fn lemma_begins_twice(c: Seq<char>, f: Seq<char>)
    requires
        text::begins(c, f),
        on_macro_field(f),
    ensures
        on_macro_field(c),
{
    assert forall|g: Seq<char>| #[trigger] text::begins(f, g) implies text::begins(c, g) by {
        assert(c.take(g.len() as int) =~= f.take(g.len() as int));
    }
}

/// No macro stands for clauses from a foreign one on.
proof fn lemma_none_applies(list: Seq<Seq<char>>, i: int)
    requires
        0 <= i < list.len(),
        foreign(list[i]),
    ensures
        none_applies(list, i),
{
    assert forall|k: int| 0 <= k < fibratus::macro_table().len() implies !#[trigger]
        fibratus::macro_applies(list, i, k) by {
        if fibratus::macro_applies(list, i, k) {
            let n = fibratus::macro_forms(k).len() as int;
            assert(list.subrange(i, i + n)[0] == list[i]);
            lemma_foreign(k, 0, list[i]);
        }
    }
}

/// Foreign clauses at the end stay as they are.
proof fn lemma_foreign_end(list: Seq<Seq<char>>, i: int)
    requires
        0 <= i <= list.len(),
        forall|j: int| i <= j < list.len() ==> foreign(#[trigger] list[j]),
    ensures
        fibratus::folded(list, i) == list.skip(i),
    decreases list.len() - i,
{
    if i < list.len() {
        lemma_none_applies(list, i);
        fibratus::lemma_longest_macro_wins(list, i, fibratus::macro_table().len() as int);
        lemma_foreign_end(list, i + 1);
        assert(seq![list[i]] + list.skip(i + 1) =~= list.skip(i));
    } else {
        assert(list.skip(i) =~= Seq::empty());
    }
}

/// Foreign clauses in front stay as they are.
proof fn lemma_foreign_front(list: Seq<Seq<char>>, i: int, n: int)
    requires
        0 <= i <= n <= list.len(),
        forall|j: int| i <= j < n ==> foreign(#[trigger] list[j]),
    ensures
        fibratus::folded(list, i) == list.subrange(i, n) + fibratus::folded(list, n),
    decreases n - i,
{
    if i < n {
        lemma_none_applies(list, i);
        fibratus::lemma_longest_macro_wins(list, i, fibratus::macro_table().len() as int);
        lemma_foreign_front(list, i + 1, n);
        assert(seq![list[i]] + list.subrange(i + 1, n) =~= list.subrange(i, n));
        assert(seq![list[i]] + (list.subrange(i + 1, n) + fibratus::folded(list, n))
            =~= list.subrange(i, n) + fibratus::folded(list, n));
    } else {
        assert(list.subrange(i, n) + fibratus::folded(list, n) =~= fibratus::folded(list, n));
    }
}

/// Parts that are joined before the others are joined as with them.
proof fn lemma_join_within(
    before: Seq<Seq<char>>,
    own: Seq<Seq<char>>,
    behind: Seq<Seq<char>>,
    sep: Seq<char>,
)
    requires
        own.len() > 0,
    ensures
        text::join(before + own + behind, sep) == text::join(
            before + seq![text::join(own, sep)] + behind,
            sep,
        ),
{
    let one = seq![text::join(own, sep)];
    lemma_join_around(before, own, behind, sep);
    lemma_join_around(before, one, behind, sep);
    assert(text::join(one, sep) == text::join(own, sep));
}

proof fn lemma_join_around(
    before: Seq<Seq<char>>,
    own: Seq<Seq<char>>,
    behind: Seq<Seq<char>>,
    sep: Seq<char>,
)
    requires
        own.len() > 0,
    ensures
        text::join(before + own + behind, sep) == (if before.len() > 0 {
            text::join(before, sep) + sep
        } else {
            Seq::empty()
        }) + text::join(own, sep) + (if behind.len() > 0 {
            sep + text::join(behind, sep)
        } else {
            Seq::empty()
        }),
{
    let all = before + own + behind;
    let b = before.len() as int;
    let mid = own + behind;
    let n = own.len() as int;
    assert(all.skip(b) =~= mid);
    assert(all.take(b) =~= before);
    assert(mid.take(n) =~= own);
    assert(mid.skip(n) =~= behind);
    if b > 0 {
        text::lemma_join_parts(all, b, sep);
    } else {
        assert(all =~= mid);
    }
    if behind.len() > 0 {
        text::lemma_join_parts(mid, n, sep);
    } else {
        assert(mid =~= own);
    }
    let left = if before.len() > 0 {
        text::join(before, sep) + sep
    } else {
        Seq::empty()
    };
    let right = if behind.len() > 0 {
        sep + text::join(behind, sep)
    } else {
        Seq::empty()
    };
    assert(text::join(mid, sep) =~= text::join(own, sep) + right);
    assert(text::join(all, sep) =~= left + text::join(mid, sep));
    assert(text::join(all, sep) =~= left + text::join(own, sep) + right);
}

/// Others may follow the clauses of a macro.
proof fn lemma_own_clauses_pass(k: int)
    requires
        0 <= k < fibratus::macro_table().len(),
    ensures
        forall|j: int|
            0 <= j < macro_shapes::shape_table()[k].len() ==> passes(
                #[trigger] macro_shapes::shape_texts(macro_shapes::shape_table()[k])[j],
            ),
{
    lemma_source_clauses(k);
    let shapes = macro_shapes::shape_table()[k];
    let own = macro_shapes::shape_texts(shapes);
    assert forall|j: int| 0 <= j < shapes.len() implies passes(#[trigger] own[j]) by {
        assert(macro_shapes::sound(shapes[j]));
        lemma_shape(shapes[j]);
    }
}

/// Clauses that others may follow, one behind the other, are a chain.
proof fn lemma_chain_of_parts(
    before: Seq<Seq<char>>,
    own: Seq<Seq<char>>,
    behind: Seq<Seq<char>>,
)
    requires
        forall|i: int| 0 <= i < before.len() ==> passes(#[trigger] before[i]),
        forall|i: int| 0 <= i < own.len() ==> passes(#[trigger] own[i]),
        forall|i: int| 0 <= i < behind.len() ==> passes(#[trigger] behind[i]),
    ensures
        chain(before + own + behind),
{
    let list = before + own + behind;
    let b = before.len() as int;
    let n = own.len() as int;
    assert forall|i: int| 0 <= i < list.len() implies passes(#[trigger] list[i]) by {
        if i < b {
            assert(list[i] == before[i]);
        } else if i < b + n {
            assert(list[i] == own[i - b]);
        } else {
            assert(list[i] == behind[i - b - n]);
        }
    }
}

/// Among foreign clauses the longest macro that stands for the clauses of a macro is that
/// macro.
proof fn lemma_best_in_place(k: int, list: Seq<Seq<char>>, b: int)
    requires
        0 <= k < fibratus::macro_table().len(),
        0 <= b,
        b + fibratus::source_clauses(fibratus::macro_table()[k].1).len() <= list.len(),
        list.subrange(b, b + fibratus::source_clauses(fibratus::macro_table()[k].1).len())
            == fibratus::source_clauses(fibratus::macro_table()[k].1),
        forall|j: int|
            b + fibratus::source_clauses(fibratus::macro_table()[k].1).len() <= j < list.len()
                ==> foreign(#[trigger] list[j]),
    ensures
        fibratus::macro_forms(k).len() == fibratus::source_clauses(
            fibratus::macro_table()[k].1,
        ).len(),
        fibratus::macro_applies(list, b, k),
        fibratus::best_macro(list, b, fibratus::macro_table().len() as int) == Some(k),
{
    lemma_source_clauses(k);
    let shapes = macro_shapes::shape_table()[k];
    let own = macro_shapes::shape_texts(shapes);
    let n = own.len() as int;
    let total = fibratus::macro_table().len() as int;
    lemma_own_clauses_pass(k);
    assert forall|j: int| 0 <= j < n implies list[b + j] == #[trigger] own[j] by {
        assert(list.subrange(b, b + n)[j] == list[b + j]);
    }
    assert forall|j: int| 0 <= j < n implies fibratus::renders(
        list[b + j],
        #[trigger] fibratus::source_clauses(fibratus::macro_table()[k].1)[j],
    ) by {
        assert(list[b + j] == own[j]);
    }
    fibratus::lemma_every_form_is_recognized(list, b, k);
    fibratus::lemma_longest_macro_wins(list, b, total);
    let best = fibratus::best_macro(list, b, total)->0;
    lemma_source_clauses(best);
    let others = macro_shapes::shape_table()[best];
    let m = others.len() as int;
    let run = list.subrange(b, b + m);
    if m > n {
        assert(run[n] == list[b + n]);
        lemma_foreign(best, n, list[b + n]);
        assert(fibratus::macro_forms(best)[n].contains(text::trimmed(run[n])));
    }
    assert(others =~= shapes) by {
        assert forall|j: int| 0 <= j < n implies others[j] == shapes[j] by {
            assert(passes(own[j]));
            assert(list[b + j] == own[j]);
            assert(run[j] == own[j]);
            assert(macro_shapes::sound(shapes[j]) && macro_shapes::sound(others[j]));
            assert(fibratus::macro_forms(best)[j].contains(text::trimmed(run[j])));
            lemma_forms_differ(shapes[j], others[j], run[j]);
        }
    }
    macro_shapes::lemma_sources_differ();
    assert(macro_shapes::number_of(fibratus::macro_table()[best].1) == best);
    assert(macro_shapes::number_of(fibratus::macro_table()[k].1) == k);
}

/// The clauses of a macro are folded into its name among foreign clauses.
proof fn lemma_folded_in_place(k: int, before: Seq<Seq<char>>, behind: Seq<Seq<char>>)
    requires
        0 <= k < fibratus::macro_table().len(),
        all_foreign(before),
        all_foreign(behind),
    ensures
        ({
            let own = fibratus::source_clauses(fibratus::macro_table()[k].1);
            let list = before + own + behind;
            &&& fibratus::some_macro_applies(list)
            &&& fibratus::folded(list, 0) == before + seq![fibratus::macro_table()[k].0] + behind
        }),
{
    lemma_source_clauses(k);
    let own = fibratus::source_clauses(fibratus::macro_table()[k].1);
    let b = before.len() as int;
    let n = own.len() as int;
    let list = before + own + behind;
    assert forall|i: int| 0 <= i < b implies foreign(#[trigger] list[i]) by {
        assert(list[i] == before[i]);
    }
    assert forall|i: int| b + n <= i < list.len() implies foreign(#[trigger] list[i]) by {
        assert(list[i] == behind[i - b - n]);
    }
    assert(list.subrange(b, b + n) =~= own);
    lemma_best_in_place(k, list, b);
    lemma_foreign_front(list, 0, b);
    lemma_foreign_end(list, b + n);
    assert(fibratus::some_macro_applies(list));
    let name = fibratus::macro_table()[k].0;
    assert(list.subrange(0, b) =~= before);
    assert(list.skip(b + n) =~= behind);
    assert(fibratus::folded(list, b) == seq![name] + behind);
    assert(fibratus::folded(list, 0) =~= before + seq![name] + behind);
}

/// The expression of a macro is recognized among foreign clauses.
proof fn lemma_recognized_in_place(k: int, before: Seq<Seq<char>>, behind: Seq<Seq<char>>)
    requires
        0 <= k < fibratus::macro_table().len(),
        all_foreign(before),
        all_foreign(behind),
    ensures
        fibratus::recognized(
            text::join(before + seq![fibratus::macro_table()[k].1] + behind, " and "@),
        ) == text::join(before + seq![fibratus::macro_table()[k].0] + behind, " and "@),
{
    lemma_source_clauses(k);
    let shapes = macro_shapes::shape_table()[k];
    let own = macro_shapes::shape_texts(shapes);
    let list = before + own + behind;
    lemma_own_clauses_pass(k);
    assert forall|i: int| 0 <= i < before.len() implies passes(#[trigger] before[i]) by {
        assert(foreign(before[i]));
    }
    assert forall|i: int| 0 <= i < behind.len() implies passes(#[trigger] behind[i]) by {
        assert(foreign(behind[i]));
    }
    lemma_chain_of_parts(before, own, behind);
    lemma_clauses_of_joined(list);
    lemma_join_within(before, own, behind, " and "@);
    lemma_folded_in_place(k, before, behind);
}

proof fn lemma_stands_for(k: int)
    requires
        0 <= k < fibratus::macro_table().len(),
    ensures
        stands_for(fibratus::macro_table()[k].0, fibratus::macro_table()[k].1),
{
    lemma_source_clauses(k);
    let own = fibratus::source_clauses(fibratus::macro_table()[k].1);
    lemma_macros_are_recognized(k, own);
    assert forall|before: Seq<Seq<char>>, behind: Seq<Seq<char>>| #[trigger]
        all_foreign(before) && #[trigger] all_foreign(behind) implies fibratus::recognized(
        text::join(before + seq![fibratus::macro_table()[k].1] + behind, " and "@),
    ) == text::join(before + seq![fibratus::macro_table()[k].0] + behind, " and "@) by {
        lemma_recognized_in_place(k, before, behind);
    }
}

/// What each macro stands for.
pub proof fn lemma_what_macros_stand_for()
    ensures
        stands_for("spawn_process"@, "evt.name = 'CreateProcess'"@),
        stands_for("create_thread"@, "evt.name = 'CreateThread'"@),
        stands_for("write_file"@, "evt.name = 'WriteFile'"@),
        stands_for("rename_file"@, "evt.name = 'RenameFile'"@),
        stands_for("read_file"@, "evt.name = 'ReadFile'"@),
        stands_for("delete_file"@, "evt.name = 'DeleteFile'"@),
        stands_for("set_file_information"@, "evt.name = 'SetFileInformation'"@),
        stands_for("load_module"@, "evt.name = 'LoadModule'"@),
        stands_for("unload_module"@, "evt.name = 'UnloadModule'"@),
        stands_for("send_socket"@, "evt.name = 'Send'"@),
        stands_for("recv_socket"@, "evt.name = 'Recv'"@),
        stands_for("connect_socket"@, "evt.name = 'Connect'"@),
        stands_for("accept_socket"@, "evt.name = 'Accept'"@),
        stands_for("virtual_alloc"@, "evt.name = 'VirtualAlloc'"@),
        stands_for("virtual_free"@, "evt.name = 'VirtualFree'"@),
        stands_for("map_view_file"@, "evt.name = 'MapViewFile'"@),
        stands_for("unmap_view_file"@, "evt.name = 'UnmapViewFile'"@),
        stands_for("duplicate_handle"@, "evt.name = 'DuplicateHandle'"@),
        stands_for("create_handle"@, "evt.name = 'CreateHandle'"@),
        stands_for("query_dns"@, "evt.name = 'QueryDns'"@),
        stands_for("reply_dns"@, "evt.name = 'ReplyDns'"@),
        stands_for(
            "create_remote_thread"@,
            "evt.name = 'CreateThread' and evt.pid != 4 and evt.pid != thread.pid"@,
        ),
        stands_for(
            "open_file"@,
            "evt.name = 'CreateFile' and file.operation = 'OPEN' and file.status = 'Success'"@,
        ),
        stands_for(
            "create_file"@,
            "evt.name = 'CreateFile' and file.operation != 'OPEN' and file.status = 'Success'"@,
        ),
        stands_for(
            "create_new_file"@,
            "evt.name = 'CreateFile' and file.operation = 'CREATE' and file.status = 'Success'"@,
        ),
        stands_for(
            "create_file_supersede"@,
            "evt.name = 'CreateFile' and file.operation = 'SUPERSEDE'"@,
        ),
        stands_for(
            "set_value"@,
            "evt.name = 'RegSetValue' and registry.status = 'Success'"@,
        ),
        stands_for(
            "create_key"@,
            "evt.name = 'RegCreateKey' and registry.status = 'Success'"@,
        ),
        stands_for(
            "open_process"@,
            "evt.name = 'OpenProcess' and ps.access.status = 'Success'"@,
        ),
        stands_for(
            "open_thread"@,
            "evt.name = 'OpenThread' and thread.access.status = 'Success'"@,
        ),
        stands_for(
            "open_registry"@,
            "evt.name = 'RegOpenKey' and registry.status = 'Success'"@,
        ),
{
    lemma_stands_for(0);
    lemma_stands_for(1);
    lemma_stands_for(2);
    lemma_stands_for(3);
    lemma_stands_for(4);
    lemma_stands_for(5);
    lemma_stands_for(6);
    lemma_stands_for(7);
    lemma_stands_for(8);
    lemma_stands_for(9);
    lemma_stands_for(10);
    lemma_stands_for(11);
    lemma_stands_for(12);
    lemma_stands_for(13);
    lemma_stands_for(14);
    lemma_stands_for(15);
    lemma_stands_for(16);
    lemma_stands_for(17);
    lemma_stands_for(18);
    lemma_stands_for(19);
    lemma_stands_for(20);
    lemma_stands_for(21);
    lemma_stands_for(22);
    lemma_stands_for(23);
    lemma_stands_for(24);
    lemma_stands_for(25);
    lemma_stands_for(26);
    lemma_stands_for(27);
    lemma_stands_for(28);
    lemma_stands_for(29);
    lemma_stands_for(30);
}

/// The macros by name, and no others.
pub proof fn lemma_known_macros(name: Seq<char>)
    ensures
        (exists|k: int|
            0 <= k < fibratus::macro_table().len() && (#[trigger] fibratus::macro_table()[k]).0
                == name) <==> {
            ||| name == "spawn_process"@
            ||| name == "create_thread"@
            ||| name == "write_file"@
            ||| name == "rename_file"@
            ||| name == "read_file"@
            ||| name == "delete_file"@
            ||| name == "set_file_information"@
            ||| name == "load_module"@
            ||| name == "unload_module"@
            ||| name == "send_socket"@
            ||| name == "recv_socket"@
            ||| name == "connect_socket"@
            ||| name == "accept_socket"@
            ||| name == "virtual_alloc"@
            ||| name == "virtual_free"@
            ||| name == "map_view_file"@
            ||| name == "unmap_view_file"@
            ||| name == "duplicate_handle"@
            ||| name == "create_handle"@
            ||| name == "query_dns"@
            ||| name == "reply_dns"@
            ||| name == "create_remote_thread"@
            ||| name == "open_file"@
            ||| name == "create_file"@
            ||| name == "create_new_file"@
            ||| name == "create_file_supersede"@
            ||| name == "set_value"@
            ||| name == "create_key"@
            ||| name == "open_process"@
            ||| name == "open_thread"@
            ||| name == "open_registry"@
        },
{
    let table = fibratus::macro_table();
    assert(table.len() == 31);
    assert(table[0].0 == "spawn_process"@);
    assert(table[1].0 == "create_thread"@);
    assert(table[2].0 == "write_file"@);
    assert(table[3].0 == "rename_file"@);
    assert(table[4].0 == "read_file"@);
    assert(table[5].0 == "delete_file"@);
    assert(table[6].0 == "set_file_information"@);
    assert(table[7].0 == "load_module"@);
    assert(table[8].0 == "unload_module"@);
    assert(table[9].0 == "send_socket"@);
    assert(table[10].0 == "recv_socket"@);
    assert(table[11].0 == "connect_socket"@);
    assert(table[12].0 == "accept_socket"@);
    assert(table[13].0 == "virtual_alloc"@);
    assert(table[14].0 == "virtual_free"@);
    assert(table[15].0 == "map_view_file"@);
    assert(table[16].0 == "unmap_view_file"@);
    assert(table[17].0 == "duplicate_handle"@);
    assert(table[18].0 == "create_handle"@);
    assert(table[19].0 == "query_dns"@);
    assert(table[20].0 == "reply_dns"@);
    assert(table[21].0 == "create_remote_thread"@);
    assert(table[22].0 == "open_file"@);
    assert(table[23].0 == "create_file"@);
    assert(table[24].0 == "create_new_file"@);
    assert(table[25].0 == "create_file_supersede"@);
    assert(table[26].0 == "set_value"@);
    assert(table[27].0 == "create_key"@);
    assert(table[28].0 == "open_process"@);
    assert(table[29].0 == "open_thread"@);
    assert(table[30].0 == "open_registry"@);
}

/// A clause that no macro has a part in stays as it is, and so do any number of them.
pub proof fn lemma_foreign_clauses_stay(list: Seq<Seq<char>>)
    requires
        all_foreign(list),
        list.len() > 0,
    ensures
        fibratus::recognized(text::join(list, " and "@)) == text::join(list, " and "@),
{
    lemma_clauses_of_joined(list);
    lemma_foreign_end(list, 0);
    assert(list.skip(0) =~= list);
}

/// Which texts are taken for the clause of a macro. An equality with a literal: the
/// clause, or with `~=`. An inequality with a literal: the clause, or `not` around the
/// equality, with either sign. An inequality with a number or another field, not as long as
/// `and`: the clause, or `not` around the equality.
pub proof fn lemma_accepted_forms(field: Seq<char>, value: Seq<char>, got: Seq<char>)
    requires
        macro_shapes::is_word(field),
        macro_shapes::is_word(value),
    ensures
        fibratus::clause_forms(field + " = '"@ + value + "'"@).contains(got) <==> got == field
            + " = '"@ + value + "'"@ || got == field + " ~= '"@ + value + "'"@,
        fibratus::clause_forms(field + " != '"@ + value + "'"@).contains(got) <==> got == field
            + " != '"@ + value + "'"@ || got == "not ("@ + field + " = '"@ + value + "')"@ || got
            == "not ("@ + field + " ~= '"@ + value + "')"@,
        value.len() != 3 ==> (fibratus::clause_forms(field + " != "@ + value).contains(got) <==> got
            == field + " != "@ + value || got == "not ("@ + field + " = "@ + value + ")"@),
{
    lemma_equality_forms(field, value, got);
    lemma_inequality_forms(Shape::Unequal { field, value }, got);
    if value.len() != 3 {
        lemma_inequality_forms(Shape::UnequalTo { field, word: value }, got);
    }
    lemma_quoted(value);
    reveal_strlit(" = '");
    reveal_strlit(" ~= '");
    reveal_strlit(" != '");
    reveal_strlit(" = ");
    reveal_strlit(" ~= ");
    reveal_strlit(" != ");
    reveal_strlit("'");
    reveal_strlit("')");
    reveal_strlit(")");
    let q = macro_shapes::quoted(value);
    assert(field + " != '"@ + value + "'"@ =~= field + " != "@ + q);
    assert("not ("@ + field + " = '"@ + value + "')"@ =~= "not ("@ + field + " = "@ + q + ")"@);
    assert("not ("@ + field + " ~= '"@ + value + "')"@ =~= "not ("@ + field + " ~= "@ + q + ")"@);
    assert(q[0] == '\'');
    assert(macro_shapes::word_char(value[0]));
}

proof fn lemma_equality_forms(field: Seq<char>, value: Seq<char>, got: Seq<char>)
    requires
        macro_shapes::is_word(field),
        macro_shapes::is_word(value),
    ensures
        fibratus::clause_forms(field + " = '"@ + value + "'"@).contains(got) <==> got == field
            + " = '"@ + value + "'"@ || got == field + " ~= '"@ + value + "'"@,
{
    let shape = Shape::Equal { field, value };
    let t = macro_shapes::shape_text(shape);
    lemma_forms(shape);
    lemma_shape(shape);
    lemma_quoted(value);
    reveal_strlit(" = '");
    reveal_strlit(" ~= '");
    reveal_strlit(" = ");
    reveal_strlit(" ~= ");
    reveal_strlit(" != ");
    reveal_strlit("'");
    lemma_op(" = "@);
    lemma_four_in_sides(field, " = "@, side_of(shape), " != "@);
    assert(field + " = '"@ + value + "'"@ =~= t);
    assert(field + " ~= '"@ + value + "'"@ =~= macro_shapes::relaxed_text(shape));
    assert(t.len() != macro_shapes::relaxed_text(shape).len());
    let forms = fibratus::clause_forms(t);
    assert(" = '"@[1] == '=' && " != "@[1] == '!');
    assert(t == field + " = "@ + side_of(shape));
    assert(fibratus::next_boundary(t, 0, " != "@) == t.len());
    assert(fibratus::neq_sides(t) is None);
    assert(forms =~= seq![t, fibratus::ci_eq(t)]);
    assert(forms[0] == t && forms[1] == macro_shapes::relaxed_text(shape));
}

proof fn lemma_inequality_forms(shape: Shape, got: Seq<char>)
    requires
        macro_shapes::sound(shape),
        !(shape is Equal),
    ensures
        fibratus::clause_forms(field_of(shape) + " != "@ + side_of(shape)).contains(got) <==> {
            ||| got == field_of(shape) + " != "@ + side_of(shape)
            ||| got == "not ("@ + field_of(shape) + " = "@ + side_of(shape) + ")"@
            ||| side_of(shape)[0] == '\'' && got == "not ("@ + field_of(shape) + " ~= "@ + side_of(
                shape,
            ) + ")"@
        },
{
    let t = macro_shapes::shape_text(shape);
    let f = field_of(shape);
    let r = side_of(shape);
    lemma_forms(shape);
    lemma_shape(shape);
    reveal_strlit(" != ");
    lemma_op(" != "@);
    lemma_four_in_sides(f, " != "@, r, " != "@);
    lemma_side(r);
    assert(is_side(f));
    lemma_side(f);
    lemma_is_trimmed(f);
    lemma_is_trimmed(r);
    let n = f.len() as int;
    assert(t.take(n) =~= f);
    assert(t.skip(n + 4) =~= r);
    let forms = fibratus::clause_forms(t);
    let more = fibratus::negated_forms(f, r);
    assert(forms =~= seq![t] + more);
    assert(forms[0] == t);
    assert(forms[1] == more[0]);
    if r[0] == '\'' {
        assert(forms[2] == more[1]);
    }
}

} // verus!
