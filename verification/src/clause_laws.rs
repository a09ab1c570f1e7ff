//! How an expression falls into clauses.

use crate::fibratus;
use crate::fibratus_laws;
use crate::text;
use vstd::prelude::*;

verus! {

// ---------------------------------------------------------------------------
// Literals and parentheses
// ---------------------------------------------------------------------------

/// The inside of a literal: no quote but behind a backslash, which takes what stands
/// behind it for itself.
pub open spec fn inside(v: Seq<char>) -> bool
    decreases v.len(),
{
    if v.len() == 0 {
        true
    } else if v[0] == '\\' {
        v.len() >= 2 && inside(v.skip(2))
    } else {
        v[0] != '\'' && inside(v.skip(1))
    }
}

proof fn lemma_inside(s: Seq<char>, p: int, v: Seq<char>)
    requires
        0 <= p,
        p + v.len() <= s.len(),
        s.subrange(p, p + v.len()) == v,
        inside(v),
        fibratus::quote_at(s, p) is Inside,
    ensures
        fibratus::quote_at(s, p + v.len()) is Inside,
        fibratus::depth_at(s, p + v.len()) == fibratus::depth_at(s, p),
        forall|i: int| p <= i <= p + v.len() ==> !(#[trigger] fibratus::quote_at(s, i) is Outside),
    decreases v.len(),
{
    let n = v.len() as int;
    if n > 0 {
        assert(s.subrange(p, p + n)[0] == s[p]);
        if v[0] == '\\' {
            assert(v.skip(2) =~= s.subrange(p + 2, p + 2 + v.skip(2).len()));
            assert(fibratus::quote_at(s, p + 1) is Escaped);
            assert(fibratus::quote_at(s, p + 2) is Inside);
            assert(fibratus::depth_at(s, p + 1) == fibratus::depth_at(s, p));
            assert(fibratus::depth_at(s, p + 2) == fibratus::depth_at(s, p + 1));
            lemma_inside(s, p + 2, v.skip(2));
            assert forall|i: int| p <= i <= p + n implies !(#[trigger] fibratus::quote_at(
                s,
                i,
            ) is Outside) by {
                if i > p + 1 {
                    assert(p + 2 <= i <= p + 2 + v.skip(2).len());
                }
            }
        } else {
            assert(v.skip(1) =~= s.subrange(p + 1, p + 1 + v.skip(1).len()));
            assert(fibratus::quote_at(s, p + 1) is Inside);
            assert(fibratus::depth_at(s, p + 1) == fibratus::depth_at(s, p));
            lemma_inside(s, p + 1, v.skip(1));
            assert forall|i: int| p <= i <= p + n implies !(#[trigger] fibratus::quote_at(
                s,
                i,
            ) is Outside) by {
                if i > p {
                    assert(p + 1 <= i <= p + 1 + v.skip(1).len());
                }
            }
        }
    }
}

/// A literal hides what it holds: nothing in it stands at the top level, and behind it
/// everything is as it was in front of it.
pub proof fn lemma_literals_hide(s: Seq<char>, p: int, v: Seq<char>)
    requires
        0 <= p,
        p + v.len() + 2 <= s.len(),
        s.subrange(p, p + v.len() + 2) == seq!['\''] + v + seq!['\''],
        inside(v),
        fibratus::quote_at(s, p) is Outside,
    ensures
        forall|i: int| p < i <= p + v.len() + 1 ==> !#[trigger] fibratus::top_level(s, i),
        fibratus::quote_at(s, p + v.len() + 2) is Outside,
        fibratus::depth_at(s, p + v.len() + 2) == fibratus::depth_at(s, p),
{
    let n = v.len() as int;
    let whole = seq!['\''] + v + seq!['\''];
    assert(s.subrange(p, p + n + 2)[0] == s[p] && whole[0] == '\'');
    assert(s.subrange(p, p + n + 2)[n + 1] == s[p + n + 1] && whole[n + 1] == '\'');
    assert(s.subrange(p + 1, p + 1 + n) =~= v) by {
        assert forall|i: int| 0 <= i < n implies s.subrange(p + 1, p + 1 + n)[i] == v[i] by {
            assert(s.subrange(p, p + n + 2)[i + 1] == s[p + 1 + i]);
            assert(whole[i + 1] == v[i]);
        }
    }
    assert(fibratus::quote_at(s, p + 1) is Inside);
    assert(fibratus::depth_at(s, p + 1) == fibratus::depth_at(s, p));
    lemma_inside(s, p + 1, v);
    assert forall|i: int| p < i <= p + n + 1 implies !#[trigger] fibratus::top_level(s, i) by {
        assert(!(fibratus::quote_at(s, i) is Outside));
    }
    assert(fibratus::quote_at(s, p + n + 1 + 1) is Outside);
    assert(fibratus::depth_at(s, p + n + 1 + 1) == fibratus::depth_at(s, p + n + 1));
}

/// Outside a literal a parenthesis opens or closes a level, and every other character but a
/// quote leaves things as they are. An expression begins at the top level.
pub proof fn lemma_parentheses_count(s: Seq<char>, i: int)
    requires
        0 <= i < s.len(),
    ensures
        fibratus::top_level(s, 0),
        fibratus::quote_at(s, i) is Outside && s[i] != '\'' ==> fibratus::quote_at(
            s,
            i + 1,
        ) is Outside && fibratus::depth_at(s, i + 1) == fibratus::depth_at(s, i) + (if s[i] == '(' {
            1int
        } else if s[i] == ')' {
            -1int
        } else {
            0int
        }),
        fibratus::top_level(s, i) <==> fibratus::quote_at(s, i) is Outside && fibratus::depth_at(
            s,
            i,
        ) == 0,
{
}

/// Two clauses are parted by an `and` between spaces, in letters of any case, at the top
/// level.
pub proof fn lemma_where_clauses_part(s: Seq<char>, i: int)
    ensures
        fibratus::boundary(s, i, " and "@) <==> {
            &&& 0 <= i
            &&& i + 5 <= s.len()
            &&& fibratus::top_level(s, i)
            &&& s[i] == ' '
            &&& s[i + 1] == 'a' || s[i + 1] == 'A'
            &&& s[i + 2] == 'n' || s[i + 2] == 'N'
            &&& s[i + 3] == 'd' || s[i + 3] == 'D'
            &&& s[i + 4] == ' '
        },
{
    reveal_strlit(" and ");
    let token = " and "@;
    if 0 <= i && i + 5 <= s.len() {
        fibratus_laws::lemma_token_chars(s, i, token);
        if fibratus::token_at(s, i, token) {
            assert(text::ascii_lower_char(token[0]) == text::ascii_lower_char(s[i + 0]));
            assert(text::ascii_lower_char(token[1]) == text::ascii_lower_char(s[i + 1]));
            assert(text::ascii_lower_char(token[2]) == text::ascii_lower_char(s[i + 2]));
            assert(text::ascii_lower_char(token[3]) == text::ascii_lower_char(s[i + 3]));
            assert(text::ascii_lower_char(token[4]) == text::ascii_lower_char(s[i + 4]));
        }
        if s[i] == ' ' && (s[i + 1] == 'a' || s[i + 1] == 'A') && (s[i + 2] == 'n' || s[i + 2]
            == 'N') && (s[i + 3] == 'd' || s[i + 3] == 'D') && s[i + 4] == ' ' {
            assert forall|k: int| 0 <= k < token.len() implies text::ascii_lower_char(
                #[trigger] token[k],
            ) == text::ascii_lower_char(s[i + k]) by {
                assert(k == 0 || k == 1 || k == 2 || k == 3 || k == 4);
            }
        }
    }
}

// ---------------------------------------------------------------------------
// Clauses
// ---------------------------------------------------------------------------

proof fn lemma_nonempty_behind(c: Seq<char>, list: Seq<Seq<char>>)
    requires
        c.len() > 0,
    ensures
        fibratus::nonempty(seq![c] + list) == seq![c] + fibratus::nonempty(list),
    decreases list.len(),
{
    let all = seq![c] + list;
    if list.len() == 0 {
        assert(all =~= seq![c]);
        assert(all.drop_last() =~= Seq::<Seq<char>>::empty());
        assert(fibratus::nonempty(all.drop_last()) =~= Seq::<Seq<char>>::empty());
        assert(fibratus::nonempty(all) =~= seq![c]);
        assert(seq![c] + fibratus::nonempty(list) =~= seq![c]);
    } else {
        lemma_nonempty_behind(c, list.drop_last());
        assert(all.drop_last() =~= seq![c] + list.drop_last());
        assert(all.last() == list.last());
        assert(fibratus::nonempty(all) =~= seq![c] + fibratus::nonempty(list));
    }
}

/// A clause that another may follow is the first clause of an expression that begins with
/// it and an `and`; the others are those of what stands behind. A clause alone is the one
/// clause there is, and an empty expression has none.
pub proof fn lemma_clauses_one_by_one(c: Seq<char>, rest: Seq<char>)
    ensures
        fibratus_laws::passes(c) ==> fibratus::clauses(c + " and "@ + rest) == seq![c]
            + fibratus::clauses(rest),
        fibratus_laws::closed(c) ==> fibratus::clauses(c) == seq![c],
        fibratus::clauses(Seq::empty()) == Seq::<Seq<char>>::empty(),
{
    if fibratus_laws::passes(c) {
        fibratus_laws::lemma_first_piece(c, rest);
        let tail = fibratus::pieces(rest, 0);
        assert(fibratus::trimmed_all(seq![c] + tail) =~= seq![c] + fibratus::trimmed_all(tail));
        lemma_nonempty_behind(c, fibratus::trimmed_all(tail));
    }
    if fibratus_laws::closed(c) {
        fibratus_laws::lemma_closed_is_one_piece(c);
    }
    let empty = Seq::<char>::empty();
    fibratus::lemma_and_token();
    assert(fibratus::pieces(empty, 0) =~= seq![empty]) by {
        assert(empty.skip(0) =~= empty);
    }
    assert(text::trimmed(empty) =~= empty) by {
        assert(empty.skip(0) =~= empty);
    }
    let one = fibratus::trimmed_all(seq![empty]);
    assert(one =~= seq![empty]);
    assert(one.drop_last() =~= Seq::<Seq<char>>::empty());
    assert(fibratus::nonempty(one.drop_last()) =~= Seq::<Seq<char>>::empty());
    assert(fibratus::nonempty(one) =~= Seq::<Seq<char>>::empty());
}

// ---------------------------------------------------------------------------
// Equalities and inequalities
// ---------------------------------------------------------------------------

/// What stands in front of a sign: no quote, no parenthesis, no sign.
pub open spec fn left_side(f: Seq<char>) -> bool {
    forall|i: int|
        0 <= i < f.len() ==> #[trigger] f[i] != '\'' && f[i] != '(' && f[i] != ')' && f[i] != '='
            && f[i] != '!'
}

proof fn lemma_left_side(s: Seq<char>, n: int)
    requires
        0 <= n <= s.len(),
        left_side(s.take(n)),
    ensures
        forall|i: int| 0 <= i <= n ==> #[trigger] fibratus::top_level(s, i),
    decreases n,
{
    if n > 0 {
        assert(s.take(n - 1) =~= s.take(n).drop_last());
        assert forall|i: int| 0 <= i < n - 1 implies #[trigger] s.take(n - 1)[i] != '\'' && s.take(
            n - 1,
        )[i] != '(' && s.take(n - 1)[i] != ')' && s.take(n - 1)[i] != '=' && s.take(n - 1)[i]
            != '!' by {
            assert(s.take(n)[i] == s.take(n - 1)[i]);
        }
        lemma_left_side(s, n - 1);
        assert(s.take(n)[n - 1] == s[n - 1]);
        lemma_parentheses_count(s, n - 1);
        assert(fibratus::top_level(s, n - 1));
    }
    assert(fibratus::top_level(s, 0));
}

/// The first sign in a clause is the one behind its left side.
proof fn lemma_first_sign(f: Seq<char>, token: Seq<char>, rest: Seq<char>)
    requires
        left_side(f),
        token.len() == 4,
        token[0] == ' ',
        token[1] == '=' || token[1] == '!',
    ensures
        fibratus::next_boundary(f + token + rest, 0, token) == f.len(),
{
    let s = f + token + rest;
    let n = f.len() as int;
    assert(s.take(n) =~= f);
    lemma_left_side(s, n);
    assert forall|j: int| 0 <= j < n implies !#[trigger] fibratus::boundary(s, j, token) by {
        if fibratus::boundary(s, j, token) {
            fibratus_laws::lemma_token_chars(s, j, token);
            assert(text::ascii_lower_char(token[1]) == text::ascii_lower_char(s[j + 1]));
            if j + 1 < n {
                assert(s[j + 1] == f[j + 1]);
            } else {
                assert(s[j + 1] == token[0]);
            }
        }
    }
    assert(fibratus::top_level(s, n));
    assert(s.subrange(n, n + 4) =~= token);
    assert(fibratus::boundary(s, n, token));
    fibratus_laws::lemma_boundary_unique(s, 0, token, n);
}

/// An equality with a literal becomes one that ignores case, and nothing else of it
/// changes; a clause without one stays. An inequality has the sides that stand on either
/// side of its sign.
pub proof fn lemma_signs(f: Seq<char>, rest: Seq<char>)
    requires
        left_side(f),
    ensures
        fibratus::ci_eq(f + " = '"@ + rest) == f + " ~= '"@ + rest,
        fibratus::ci_eq(f) == f,
        fibratus::neq_sides(f + " != "@ + rest) == Some((f, rest)),
        fibratus::neq_sides(f) is None,
{
    reveal_strlit(" = '");
    reveal_strlit(" != ");
    lemma_first_sign(f, " = '"@, rest);
    lemma_first_sign(f, " != "@, rest);
    let n = f.len() as int;
    let s = f + " = '"@ + rest;
    assert(s.take(n) =~= f);
    assert(s.skip(n + 4) =~= rest);
    let t = f + " != "@ + rest;
    assert(t.take(n) =~= f);
    assert(t.skip(n + 4) =~= rest);
    lemma_no_sign(f, " = '"@);
    lemma_no_sign(f, " != "@);
}

proof fn lemma_no_sign(f: Seq<char>, token: Seq<char>)
    requires
        left_side(f),
        token.len() == 4,
        token[1] == '=' || token[1] == '!',
    ensures
        fibratus::next_boundary(f, 0, token) == f.len(),
{
    assert forall|j: int| 0 <= j < f.len() implies !#[trigger] fibratus::boundary(f, j, token) by {
        if fibratus::boundary(f, j, token) {
            fibratus_laws::lemma_token_chars(f, j, token);
            assert(text::ascii_lower_char(token[1]) == text::ascii_lower_char(f[j + 1]));
        }
    }
    fibratus_laws::lemma_boundary_unique(f, 0, token, f.len() as int);
}

} // verus!
