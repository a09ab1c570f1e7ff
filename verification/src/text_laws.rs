//! What texts are cut into, and how they are put together again.

use crate::ast::SelectorPattern;
use crate::order;
use crate::selector;
use crate::substring;
use crate::text;
use vstd::prelude::*;

verus! {

// ---------------------------------------------------------------------------
// Parts of a text
// ---------------------------------------------------------------------------

/// A text begins with a part if and only if it is that part and something behind it, ends
/// with one if and only if it is something and that part behind it, and holds one if and
/// only if it is that part between something and something.
pub proof fn lemma_parts_of_a_text(s: Seq<char>, p: Seq<char>, a: Seq<char>, b: Seq<char>)
    ensures
        s == p + b ==> text::begins(s, p),
        text::begins(s, p) ==> s == p + s.skip(p.len() as int),
        s == a + p ==> text::ends(s, p),
        text::ends(s, p) ==> s == s.take(s.len() - p.len()) + p,
        s == a + p + b ==> substring::occurs(p, s),
        substring::occurs(p, s) ==> exists|i: int|
            0 <= i <= s.len() - p.len() && s == #[trigger] s.take(i) + p + s.skip(
                i + p.len(),
            ),
{
    lemma_begins(s, p, b);
    lemma_ends(s, p, a);
    lemma_occurs(s, p, a, b);
}

proof fn lemma_begins(s: Seq<char>, p: Seq<char>, b: Seq<char>)
    ensures
        s == p + b ==> text::begins(s, p),
        text::begins(s, p) ==> s == p + s.skip(p.len() as int),
{
    if s == p + b {
        assert(s.take(p.len() as int) =~= p);
    }
    if text::begins(s, p) {
        assert(s =~= p + s.skip(p.len() as int));
    }
}

proof fn lemma_ends(s: Seq<char>, p: Seq<char>, a: Seq<char>)
    ensures
        s == a + p ==> text::ends(s, p),
        text::ends(s, p) ==> s == s.take(s.len() - p.len()) + p,
{
    if s == a + p {
        assert(s.skip(s.len() - p.len()) =~= p);
    }
    if text::ends(s, p) {
        assert(s =~= s.take(s.len() - p.len()) + p);
    }
}

proof fn lemma_occurs(s: Seq<char>, p: Seq<char>, a: Seq<char>, b: Seq<char>)
    ensures
        s == a + p + b ==> substring::occurs(p, s),
        substring::occurs(p, s) ==> exists|i: int|
            0 <= i <= s.len() - p.len() && s == #[trigger] s.take(i) + p + s.skip(i + p.len()),
{
    if s == a + p + b {
        let k = a.len() as int;
        assert(s.subrange(k, k + p.len()) =~= p);
    }
    if substring::occurs(p, s) {
        let i = choose|i: int|
            0 <= i && i + p.len() <= s.len() && #[trigger] s.subrange(i, i + p.len()) == p;
        assert(s =~= s.take(i) + p + s.skip(i + p.len()));
    }
}

/// `them` selects the names that do not begin with an underscore.
pub proof fn lemma_them(name: Seq<char>)
    ensures
        selector::selects(SelectorPattern::Them, name) <==> name.len() == 0 || name[0] != '_',
{
    let mark = seq!['_'];
    if name.len() > 0 {
        assert(name.take(1) =~= seq![name[0]]);
        assert(name.take(1)[0] == name[0]);
        assert(mark[0] == '_');
    }
}

/// The last character of a glob decides first: a wildcard there asks for what stands before
/// it; else one at the start asks for what stands behind it; else the first one asks for
/// what stands on either side of it. A second wildcard stands for itself.
pub proof fn lemma_globs(before: Seq<char>, behind: Seq<char>, name: Seq<char>)
    ensures
        selector::glob_matches(before + seq!['*'], name) <==> text::begins(name, before),
        behind.len() > 0 && behind.last() != '*' ==> (selector::glob_matches(
            seq!['*'] + behind,
            name,
        ) <==> text::ends(name, behind)),
        behind.len() > 0 && behind.last() != '*' && before.len() > 0 && !before.contains('*') ==> (
        selector::glob_matches(before + seq!['*'] + behind, name) <==> text::begins(name, before)
            && text::ends(name, behind)),
{
    let star = seq!['*'];
    assert((before + star).drop_last() =~= before);
    if behind.len() > 0 && behind.last() != '*' {
        assert((star + behind).last() == behind.last());
        assert((star + behind).skip(1) =~= behind);
        if before.len() > 0 && !before.contains('*') {
            let whole = before + star + behind;
            let k = before.len() as int;
            assert(whole.last() == behind.last());
            assert(before.contains(before[0]));
            assert(whole[0] == before[0]);
            assert forall|i: int| 0 <= i < k implies whole[i] != '*' by {
                assert(whole[i] == before[i]);
                assert(before.contains(before[i]));
            }
            text::lemma_find_unique(whole, '*', k);
            assert(whole.take(k) =~= before);
            assert(whole.skip(k + 1) =~= behind);
        }
    }
}

/// A text comes before each that it is the beginning of, and else the first characters in
/// which two texts differ decide.
pub proof fn lemma_order_of_texts(a: Seq<char>, x: char, b: Seq<char>, y: char, c: Seq<char>)
    ensures
        order::before(a, a + seq![x] + b),
        !order::before(a + seq![x] + b, a),
        x < y ==> order::before(a + seq![x] + b, a + seq![y] + c),
        x > y ==> !order::before(a + seq![x] + b, a + seq![y] + c),
    decreases a.len(),
{
    let one = a + seq![x] + b;
    let other = a + seq![y] + c;
    if a.len() == 0 {
        assert(one[0] == x && other[0] == y);
    } else {
        let rest = a.skip(1);
        lemma_order_of_texts(rest, x, b, y, c);
        assert(one.skip(1) =~= rest + seq![x] + b);
        assert(other.skip(1) =~= rest + seq![y] + c);
        assert(one[0] == a[0] && other[0] == a[0]);
    }
}

// ---------------------------------------------------------------------------
// White space
// ---------------------------------------------------------------------------

/// The white-space characters by number.
pub proof fn lemma_white_space(c: char)
    ensures
        text::white(c) <==> {
            ||| 9 <= c as int <= 13
            ||| c as int == 32
            ||| c as int == 133
            ||| c as int == 160
            ||| c as int == 5760
            ||| 8192 <= c as int <= 8202
            ||| c as int == 8232
            ||| c as int == 8233
            ||| c as int == 8239
            ||| c as int == 8287
            ||| c as int == 12288
        },
{
}

/// White space only.
pub open spec fn blank(s: Seq<char>) -> bool {
    forall|i: int| 0 <= i < s.len() ==> text::white(#[trigger] s[i])
}

/// What is trimmed off is the white space around a text, and nothing else.
pub proof fn lemma_trimming(pad: Seq<char>, t: Seq<char>, tail: Seq<char>)
    requires
        blank(pad),
        blank(tail),
    ensures
        text::trimmed(pad) == Seq::<char>::empty(),
        t.len() > 0 && !text::white(t[0]) && !text::white(t.last()) ==> text::trimmed(
            pad + t + tail,
        ) == t && text::lead(pad + t + tail) == pad.len(),
    decreases tail.len(),
{
    text::lemma_lead_unique(pad, pad.len() as int);
    assert(pad.skip(pad.len() as int) =~= Seq::<char>::empty());
    if t.len() > 0 && !text::white(t[0]) && !text::white(t.last()) {
        let s = pad + t + tail;
        assert forall|i: int| 0 <= i < pad.len() implies text::white(#[trigger] s[i]) by {
            assert(s[i] == pad[i]);
        }
        assert(s[pad.len() as int] == t[0]);
        text::lemma_lead_unique(s, pad.len() as int);
        assert(s.skip(pad.len() as int) =~= t + tail);
        lemma_trim_behind(t, tail);
    }
}

proof fn lemma_trim_behind(t: Seq<char>, tail: Seq<char>)
    requires
        blank(tail),
        t.len() > 0,
        !text::white(t.last()),
    ensures
        text::trim_tail(t + tail) == t,
    decreases tail.len(),
{
    if tail.len() > 0 {
        assert((t + tail).last() == tail.last());
        assert(text::white(tail[tail.len() - 1]));
        assert((t + tail).drop_last() =~= t + tail.drop_last());
        assert forall|i: int| 0 <= i < tail.drop_last().len() implies text::white(
            #[trigger] tail.drop_last()[i],
        ) by {
            assert(tail.drop_last()[i] == tail[i]);
        }
        lemma_trim_behind(t, tail.drop_last());
    } else {
        assert(t + tail =~= t);
    }
}

// ---------------------------------------------------------------------------
// Lines
// ---------------------------------------------------------------------------

/// A line ends at a line feed or at a carriage return and a line feed, which do not belong
/// to it; what stands behind the last is a line if it is not empty.
pub proof fn lemma_lines(line: Seq<char>, rest: Seq<char>)
    requires
        !line.contains('\n'),
    ensures
        text::lines(Seq::empty()) == Seq::<Seq<char>>::empty(),
        line.len() > 0 ==> text::lines(line) == seq![line],
        !text::ends(line, seq!['\r']) ==> text::lines(line + seq!['\n'] + rest) == seq![line]
            + text::lines(rest),
        text::lines(line + seq!['\r', '\n'] + rest) == seq![line] + text::lines(rest),
{
    lemma_no_feed(line);
    text::lemma_find_unique(line, '\n', line.len() as int);
    let plain = line + seq!['\n'] + rest;
    let n = line.len() as int;
    assert forall|i: int| 0 <= i < n implies plain[i] != '\n' by {
        assert(plain[i] == line[i]);
    }
    text::lemma_find_unique(plain, '\n', n);
    assert(plain.take(n) =~= line);
    assert(plain.skip(n + 1) =~= rest);
    if !text::ends(line, seq!['\r']) {
        if line.len() > 0 {
            assert(line.skip(line.len() - 1) =~= seq![line.last()]);
        }
        assert(text::without_cr(line) == line);
    }
    let both = line + seq!['\r', '\n'] + rest;
    assert forall|i: int| 0 <= i < n + 1 implies both[i] != '\n' by {
        if i < n {
            assert(both[i] == line[i]);
        }
    }
    text::lemma_find_unique(both, '\n', n + 1);
    assert(both.take(n + 1) =~= line.push('\r'));
    assert(line.push('\r').drop_last() =~= line);
    assert(both.skip(n + 2) =~= rest);
}

proof fn lemma_no_feed(line: Seq<char>)
    requires
        !line.contains('\n'),
    ensures
        forall|i: int| 0 <= i < line.len() ==> #[trigger] line[i] != '\n',
{
    assert forall|i: int| 0 <= i < line.len() implies #[trigger] line[i] != '\n' by {
        assert(line.contains(line[i]));
    }
}

// ---------------------------------------------------------------------------
// Letters and numbers
// ---------------------------------------------------------------------------

/// A capital among the letters from `A` to `Z` becomes the small letter at the same place
/// from `a` on; every other character stays, and what was turned so stays.
pub proof fn lemma_small_letters(c: char)
    ensures
        'A' <= c <= 'Z' ==> text::ascii_lower_char(c) as int - 'a' as int == c as int - 'A' as int,
        !('A' <= c <= 'Z') ==> text::ascii_lower_char(c) == c,
        text::ascii_lower_char(text::ascii_lower_char(c)) == text::ascii_lower_char(c),
{
}

/// The number that decimal digits stand for.
pub open spec fn number(s: Seq<char>) -> int
    decreases s.len(),
{
    if s.len() == 0 {
        0
    } else {
        10 * number(s.drop_last()) + (s.last() as int - '0' as int)
    }
}

/// A number is written in decimal digits that stand for it, the first of them a zero only
/// if it is zero.
pub proof fn lemma_decimal_is_read(n: nat)
    ensures
        number(text::decimal(n)) == n,
        text::decimal(n).len() > 0,
        forall|i: int| 0 <= i < text::decimal(n).len() ==> '0' <= #[trigger] text::decimal(n)[i]
            <= '9',
        text::decimal(n)[0] == '0' <==> n == 0,
    decreases n,
{
    let s = text::decimal(n);
    if n >= 10 {
        lemma_decimal_is_read(n / 10);
        let front = text::decimal(n / 10);
        assert(s.drop_last() =~= front);
        assert(s[0] == front[0]);
        assert forall|i: int| 0 <= i < s.len() implies '0' <= #[trigger] s[i] <= '9' by {
            if i < front.len() {
                assert(front[i] == s[i]);
            }
        }
    } else {
        assert(s.drop_last() =~= Seq::<char>::empty());
        assert(number(s.drop_last()) == 0);
    }
}

} // verus!
