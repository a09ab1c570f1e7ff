//! Character-level text operations, with what each of them means.
//!
//! A text is a sequence of characters. The executable functions work on slices
//! of characters; [`chars_of`] and [`string_of`] go between those and strings.

use vstd::prelude::*;

verus! {

/// `String::push` appends the character to the end of the string.
pub assume_specification[ std::string::String::push ](s: &mut std::string::String, c: char)
    ensures
        final(s)@ == old(s)@.push(c),
;

/// The texts held by a sequence of strings.
pub open spec fn texts(v: Seq<String>) -> Seq<Seq<char>> {
    v.map_values(|s: String| s@)
}

/// The texts held by a sequence of character vectors.
pub open spec fn char_texts(v: Seq<Vec<char>>) -> Seq<Seq<char>> {
    v.map_values(|s: Vec<char>| s@)
}

/// The text held by an optional string.
pub open spec fn opt_text(s: Option<String>) -> Option<Seq<char>> {
    match s {
        Some(t) => Some(t@),
        None => None,
    }
}

/// The characters of a string, in order.
pub fn chars_of(s: &str) -> (res: Vec<char>)
    ensures
        res@ == s@,
{
    let mut res: Vec<char> = Vec::new();
    for c in it: s.chars()
        invariant
            res@ == it.seq().take(it.index()),
            it.seq() == s@,
    {
        res.push(c);
    }
    res
}

/// The string made of the given characters.
pub fn string_of(chars: &[char]) -> (res: String)
    ensures
        res@ == chars@,
{
    let mut res = String::new();
    let mut i: usize = 0;
    while i < chars.len()
        invariant
            0 <= i <= chars@.len(),
            res@ == chars@.take(i as int),
        decreases chars@.len() - i,
    {
        res.push(chars[i]);
        i = i + 1;
    }
    res
}

/// Whether two strings hold the same text.
pub fn same_text(a: &str, b: &str) -> (res: bool)
    ensures
        res == (a@ == b@),
{
    a.to_owned() == b.to_owned()
}

/// Whether two character slices hold the same text.
pub fn same_chars(a: &[char], b: &[char]) -> (res: bool)
    ensures
        res == (a@ == b@),
{
    if a.len() != b.len() {
        return false;
    }
    let mut i: usize = 0;
    while i < a.len()
        invariant
            0 <= i <= a@.len(),
            a@.len() == b@.len(),
            forall|j: int| 0 <= j < i ==> a@[j] == b@[j],
        decreases a@.len() - i,
    {
        if a[i] != b[i] {
            return false;
        }
        i = i + 1;
    }
    assert(a@ =~= b@);
    true
}

/// An owned copy of a character slice.
pub fn owned(a: &[char]) -> (res: Vec<char>)
    ensures
        res@ == a@,
{
    let mut res: Vec<char> = Vec::new();
    let mut i: usize = 0;
    while i < a.len()
        invariant
            0 <= i <= a@.len(),
            res@ == a@.take(i as int),
        decreases a@.len() - i,
    {
        res.push(a[i]);
        i = i + 1;
    }
    res
}

// ---------------------------------------------------------------------------
// Prefixes and suffixes
// ---------------------------------------------------------------------------

/// `s` begins with `p`.
pub open spec fn begins(s: Seq<char>, p: Seq<char>) -> bool {
    p.len() <= s.len() && s.take(p.len() as int) == p
}

/// `s` ends with `p`.
pub open spec fn ends(s: Seq<char>, p: Seq<char>) -> bool {
    p.len() <= s.len() && s.skip(s.len() - p.len()) == p
}

/// Whether `p` stands in `s` at position `i`.
pub open spec fn stands_at(s: Seq<char>, i: int, p: Seq<char>) -> bool {
    0 <= i && i + p.len() <= s.len() && s.subrange(i, i + p.len()) == p
}

pub fn is_at(s: &[char], i: usize, p: &[char]) -> (res: bool)
    ensures
        res == stands_at(s@, i as int, p@),
{
    if i > s.len() || p.len() > s.len() - i {
        return false;
    }
    let mut j: usize = 0;
    assert(s@.len() == s.len());
    while j < p.len()
        invariant
            0 <= j <= p@.len(),
            i + p@.len() <= s@.len(),
            s@.len() <= usize::MAX,
            forall|k: int| 0 <= k < j ==> s@[i + k] == p@[k],
        decreases p@.len() - j,
    {
        if s[i + j] != p[j] {
            assert(s@.subrange(i as int, i + p@.len())[j as int] == s@[i + j]);
            return false;
        }
        j = j + 1;
    }
    assert(s@.subrange(i as int, i + p@.len()) =~= p@);
    true
}

pub fn starts_with(s: &[char], p: &[char]) -> (res: bool)
    ensures
        res == begins(s@, p@),
{
    assert(p@.len() <= s@.len() ==> s@.subrange(0, p@.len() as int) == s@.take(p@.len() as int));
    is_at(s, 0, p)
}

pub fn ends_with(s: &[char], p: &[char]) -> (res: bool)
    ensures
        res == ends(s@, p@),
{
    if p.len() > s.len() {
        return false;
    }
    assert(s@.subrange(s@.len() - p@.len(), s@.len() as int) == s@.skip(s@.len() - p@.len()));
    is_at(s, s.len() - p.len(), p)
}

// ---------------------------------------------------------------------------
// Finding and splitting
// ---------------------------------------------------------------------------

/// The position of the first `c` in `s`, or the length of `s` if there is none.
pub open spec fn find(s: Seq<char>, c: char) -> int
    decreases s.len(),
{
    if s.len() == 0 || s[0] == c {
        0
    } else {
        1 + find(s.skip(1), c)
    }
}

/// What [`find`] gives: every position before it holds another character.
pub proof fn lemma_find(s: Seq<char>, c: char)
    ensures
        0 <= find(s, c) <= s.len(),
        forall|i: int| 0 <= i < find(s, c) ==> s[i] != c,
        find(s, c) < s.len() ==> s[find(s, c)] == c,
    decreases s.len(),
{
    if s.len() != 0 && s[0] != c {
        lemma_find(s.skip(1), c);
        assert forall|i: int| 0 <= i < find(s, c) implies s[i] != c by {
            if i > 0 {
                assert(s.skip(1)[i - 1] == s[i]);
            }
        }
        if find(s, c) < s.len() {
            assert(s.skip(1)[find(s, c) - 1] == s[find(s, c)]);
        }
    }
}

/// The position that [`find`] gives is the only one with its properties.
pub proof fn lemma_find_unique(s: Seq<char>, c: char, k: int)
    requires
        0 <= k <= s.len(),
        forall|i: int| 0 <= i < k ==> s[i] != c,
        k < s.len() ==> s[k] == c,
    ensures
        find(s, c) == k,
{
    lemma_find(s, c);
}

pub fn find_char(s: &[char], c: char) -> (res: usize)
    ensures
        res == find(s@, c),
{
    let mut i: usize = 0;
    while i < s.len() && s[i] != c
        invariant
            0 <= i <= s@.len(),
            forall|j: int| 0 <= j < i ==> s@[j] != c,
        decreases s@.len() - i,
    {
        i = i + 1;
    }
    proof {
        lemma_find_unique(s@, c, i as int);
    }
    i
}

/// The last position of `c`, or -1 if it does not occur.
pub open spec fn find_last(s: Seq<char>, c: char) -> int
    decreases s.len(),
{
    if s.len() == 0 {
        -1
    } else if s.last() == c {
        s.len() - 1
    } else {
        find_last(s.drop_last(), c)
    }
}

/// The last position of `c`.
pub fn find_last_char(s: &[char], c: char) -> (res: Option<usize>)
    ensures
        match res {
            Some(k) => find_last(s@, c) == k && k < s@.len(),
            None => find_last(s@, c) == -1,
        },
{
    let mut i: usize = s.len();
    assert(s@.take(i as int) =~= s@);
    while i > 0
        invariant
            0 <= i <= s@.len(),
            find_last(s@, c) == find_last(s@.take(i as int), c),
        decreases i,
    {
        assert(s@.take(i as int).last() == s@[i - 1]);
        assert(s@.take(i as int).drop_last() =~= s@.take(i - 1));
        if s[i - 1] == c {
            return Some(i - 1);
        }
        i = i - 1;
    }
    None
}

/// The pieces of `s` between its occurrences of `sep`: one more than there are
/// occurrences.
pub open spec fn split(s: Seq<char>, sep: char) -> Seq<Seq<char>>
    decreases s.len(),
{
    let k = find(s, sep);
    if 0 <= k < s.len() {
        seq![s.take(k)] + split(s.skip(k + 1), sep)
    } else {
        seq![s]
    }
}

pub fn split_char(s: &[char], sep: char) -> (res: Vec<Vec<char>>)
    ensures
        char_texts(res@) == split(s@, sep),
        res@.len() >= 1,
{
    let mut out: Vec<Vec<char>> = Vec::new();
    let mut start: usize = 0;
    assert(s@.skip(0) == s@);
    assert(char_texts(out@) =~= Seq::<Seq<char>>::empty());
    assert(split(s@, sep) =~= char_texts(out@) + split(s@.skip(0), sep));
    loop
        invariant_except_break
            0 <= start <= s@.len(),
            split(s@, sep) == char_texts(out@) + split(s@.skip(start as int), sep),
        ensures
            char_texts(out@) == split(s@, sep),
            out@.len() >= 1,
        decreases s@.len() - start,
    {
        let rest: &[char] = &s[start..s.len()];
        assert(rest@ =~= s@.skip(start as int));
        let k: usize = find_char(rest, sep);
        proof {
            lemma_find(rest@, sep);
        }
        let ghost before = out@;
        if k == rest.len() {
            out.push(owned(rest));
            assert(char_texts(out@) =~= char_texts(before).push(rest@));
            assert(split(s@, sep) =~= char_texts(out@));
            break;
        }
        let piece: &[char] = &rest[0..k];
        assert(piece@ =~= rest@.take(k as int));
        out.push(owned(piece));
        assert(char_texts(out@) =~= char_texts(before).push(piece@));
        assert(rest@.skip(k + 1) =~= s@.skip(start + k + 1));
        assert(split(s@, sep) =~= char_texts(out@) + split(s@.skip(start + k + 1), sep));
        start = start + k + 1;
    }
    out
}

/// The parts one after the other, `sep` between neighbours.
pub open spec fn join(parts: Seq<Seq<char>>, sep: Seq<char>) -> Seq<char>
    decreases parts.len(),
{
    if parts.len() == 0 {
        Seq::empty()
    } else if parts.len() == 1 {
        parts[0]
    } else {
        join(parts.drop_last(), sep) + sep + parts.last()
    }
}

pub fn join_strings(parts: &[String], sep: &str) -> (res: String)
    ensures
        res@ == join(texts(parts@), sep@),
{
    let mut out = String::new();
    let mut i: usize = 0;
    assert(texts(parts@).take(0) =~= Seq::<Seq<char>>::empty());
    while i < parts.len()
        invariant
            0 <= i <= parts@.len(),
            out@ == join(texts(parts@).take(i as int), sep@),
        decreases parts@.len() - i,
    {
        if i > 0 {
            out.append(sep);
        }
        out.append(parts[i].as_str());
        assert(texts(parts@).take(i + 1).drop_last() =~= texts(parts@).take(i as int));
        assert(texts(parts@).take(i + 1).last() == parts@[i as int]@);
        if i == 0 {
            assert(out@ =~= parts@[0]@);
        }
        i = i + 1;
    }
    assert(texts(parts@).take(i as int) =~= texts(parts@));
    out
}

/// Joining the pieces of a text gives the text back.
pub proof fn lemma_join_split(s: Seq<char>, sep: char)
    ensures
        join(split(s, sep), seq![sep]) == s,
    decreases s.len(),
{
    lemma_find(s, sep);
    let k = find(s, sep);
    if k < s.len() {
        let rest = split(s.skip(k + 1), sep);
        lemma_join_split(s.skip(k + 1), sep);
        lemma_split_nonempty(s.skip(k + 1), sep);
        lemma_join_cons(s.take(k), rest, seq![sep]);
        assert(s.take(k) + seq![sep] + s.skip(k + 1) =~= s);
    }
}

/// Splitting gives at least one piece.
pub proof fn lemma_split_nonempty(s: Seq<char>, sep: char)
    ensures
        split(s, sep).len() >= 1,
{
    lemma_find(s, sep);
}

/// Joining a list is its head, the separator, and the joined tail.
pub proof fn lemma_join_cons(head: Seq<char>, tail: Seq<Seq<char>>, sep: Seq<char>)
    requires
        tail.len() >= 1,
    ensures
        join(seq![head] + tail, sep) == head + sep + join(tail, sep),
    decreases tail.len(),
{
    let all = seq![head] + tail;
    if tail.len() == 1 {
        assert(all.drop_last() =~= seq![head]);
        assert(join(seq![head], sep) == head);
        assert(all.last() == tail[0]);
        assert(join(all, sep) == join(all.drop_last(), sep) + sep + all.last());
    } else {
        assert(all.drop_last() =~= seq![head] + tail.drop_last());
        lemma_join_cons(head, tail.drop_last(), sep);
        assert(join(all, sep) =~= head + sep + join(tail, sep));
    }
}

/// No piece of a text holds the separator.
pub proof fn lemma_split_pieces(s: Seq<char>, sep: char)
    ensures
        forall|i: int| 0 <= i < split(s, sep).len() ==> !(#[trigger] split(s, sep)[i]).contains(sep),
    decreases s.len(),
{
    lemma_find(s, sep);
    let k = find(s, sep);
    if k < s.len() {
        lemma_split_pieces(s.skip(k + 1), sep);
        let rest = split(s.skip(k + 1), sep);
        assert forall|i: int| 0 <= i < split(s, sep).len() implies !(#[trigger] split(
            s,
            sep,
        )[i]).contains(sep) by {
            if i > 0 {
                assert(split(s, sep)[i] == rest[i - 1]);
            }
        }
    }
}

/// Splitting a joined list gives the list back, if it is not empty and none of its
/// parts holds the separator.
pub proof fn lemma_split_join(parts: Seq<Seq<char>>, sep: char)
    requires
        parts.len() >= 1,
        forall|i: int| 0 <= i < parts.len() ==> !(#[trigger] parts[i]).contains(sep),
    ensures
        split(join(parts, seq![sep]), sep) == parts,
    decreases parts.len(),
{
    let head = parts[0];
    if parts.len() == 1 {
        lemma_find_unique(head, sep, head.len() as int);
        assert(parts =~= seq![head]);
    } else {
        let tail = parts.skip(1);
        assert(parts =~= seq![head] + tail);
        lemma_join_cons(head, tail, seq![sep]);
        assert forall|i: int| 0 <= i < tail.len() implies !(#[trigger] tail[i]).contains(sep) by {
            assert(tail[i] == parts[i + 1]);
        }
        lemma_split_join(tail, sep);
        let whole = head + seq![sep] + join(tail, seq![sep]);
        let k = head.len() as int;
        assert forall|i: int| 0 <= i < k implies whole[i] != sep by {
            assert(whole[i] == head[i]);
            assert(head.contains(head[i]));
        }
        lemma_find_unique(whole, sep, k);
        assert(whole.take(k) =~= head);
        assert(whole.skip(k + 1) =~= join(tail, seq![sep]));
    }
}

/// A joined list is its first parts joined, the separator, and the others joined.
pub proof fn lemma_join_parts(parts: Seq<Seq<char>>, n: int, sep: Seq<char>)
    requires
        0 < n < parts.len(),
    ensures
        join(parts, sep) == join(parts.take(n), sep) + sep + join(parts.skip(n), sep),
    decreases n,
{
    let head = parts[0];
    let tail = parts.skip(1);
    assert(parts =~= seq![head] + tail);
    lemma_join_cons(head, tail, sep);
    if n == 1 {
        assert(parts.take(1) =~= seq![head]);
    } else {
        lemma_join_parts(tail, n - 1, sep);
        assert(parts.take(n) =~= seq![head] + tail.take(n - 1));
        lemma_join_cons(head, tail.take(n - 1), sep);
        assert(tail.skip(n - 1) =~= parts.skip(n));
        assert(head + sep + (join(tail.take(n - 1), sep) + sep + join(parts.skip(n), sep)) =~= (head
            + sep + join(tail.take(n - 1), sep)) + sep + join(parts.skip(n), sep));
    }
}

// ---------------------------------------------------------------------------
// White space
// ---------------------------------------------------------------------------

/// The characters with the Unicode `White_Space` property.
pub open spec fn white(c: char) -> bool {
    ||| '\u{9}' <= c <= '\u{d}'
    ||| c == ' '
    ||| c == '\u{85}'
    ||| c == '\u{a0}'
    ||| c == '\u{1680}'
    ||| '\u{2000}' <= c <= '\u{200a}'
    ||| c == '\u{2028}'
    ||| c == '\u{2029}'
    ||| c == '\u{202f}'
    ||| c == '\u{205f}'
    ||| c == '\u{3000}'
}

pub fn is_white(c: char) -> (res: bool)
    ensures
        res == white(c),
{
    ('\u{9}' <= c && c <= '\u{d}') || c == ' ' || c == '\u{85}' || c == '\u{a0}' || c == '\u{1680}'
        || ('\u{2000}' <= c && c <= '\u{200a}') || c == '\u{2028}' || c == '\u{2029}' || c
        == '\u{202f}' || c == '\u{205f}' || c == '\u{3000}'
}

/// How many white-space characters `s` begins with.
pub open spec fn lead(s: Seq<char>) -> int
    decreases s.len(),
{
    if s.len() == 0 || !white(s[0]) {
        0
    } else {
        1 + lead(s.skip(1))
    }
}

/// `s` without the white space that it ends with.
pub open spec fn trim_tail(s: Seq<char>) -> Seq<char>
    decreases s.len(),
{
    if s.len() == 0 || !white(s.last()) {
        s
    } else {
        trim_tail(s.drop_last())
    }
}

/// `s` without the white space around it.
pub open spec fn trimmed(s: Seq<char>) -> Seq<char> {
    trim_tail(s.skip(lead(s)))
}

pub proof fn lemma_lead(s: Seq<char>)
    ensures
        0 <= lead(s) <= s.len(),
    decreases s.len(),
{
    if s.len() != 0 && white(s[0]) {
        lemma_lead(s.skip(1));
    }
}

pub fn leading_white(s: &[char]) -> (res: usize)
    ensures
        res == lead(s@),
        res <= s@.len(),
{
    let mut i: usize = 0;
    assert(s@.skip(0) =~= s@);
    while i < s.len() && is_white(s[i])
        invariant
            0 <= i <= s@.len(),
            lead(s@) == i + lead(s@.skip(i as int)),
        decreases s@.len() - i,
    {
        assert(s@.skip(i as int).skip(1) =~= s@.skip(i + 1));
        assert(s@.skip(i as int)[0] == s@[i as int]);
        i = i + 1;
    }
    if i < s.len() {
        assert(s@.skip(i as int)[0] == s@[i as int]);
    }
    i
}

pub fn trim(s: &[char]) -> (res: &[char])
    ensures
        res@ == trimmed(s@),
{
    let start: usize = leading_white(s);
    let mut end: usize = s.len();
    assert(s@.subrange(start as int, end as int) =~= s@.skip(start as int));
    while end > start && is_white(s[end - 1])
        invariant
            start <= end <= s@.len(),
            trim_tail(s@.skip(start as int)) == trim_tail(s@.subrange(start as int, end as int)),
        decreases end,
    {
        assert(s@.subrange(start as int, end as int).drop_last() =~= s@.subrange(
            start as int,
            end - 1,
        ));
        assert(s@.subrange(start as int, end as int).last() == s@[end - 1]);
        end = end - 1;
    }
    if end > start {
        assert(s@.subrange(start as int, end as int).last() == s@[end - 1]);
    }
    &s[start..end]
}

// ---------------------------------------------------------------------------
// Lines
// ---------------------------------------------------------------------------

/// A line without the carriage return before its line feed.
pub open spec fn without_cr(s: Seq<char>) -> Seq<char> {
    if s.len() > 0 && s.last() == '\r' {
        s.drop_last()
    } else {
        s
    }
}

/// The lines of a text: a line ends with a line feed or with a carriage return
/// and a line feed; the last line needs no ending, and an empty text has no line.
pub open spec fn lines(s: Seq<char>) -> Seq<Seq<char>>
    decreases s.len(),
{
    let k = find(s, '\n');
    if s.len() == 0 {
        Seq::empty()
    } else if 0 <= k < s.len() {
        seq![without_cr(s.take(k))] + lines(s.skip(k + 1))
    } else {
        seq![s]
    }
}

pub fn lines_of(s: &[char]) -> (res: Vec<Vec<char>>)
    ensures
        char_texts(res@) == lines(s@),
{
    let mut out: Vec<Vec<char>> = Vec::new();
    let mut start: usize = 0;
    assert(s@.skip(0) == s@);
    assert(lines(s@) =~= char_texts(out@) + lines(s@.skip(0)));
    while start < s.len()
        invariant
            0 <= start <= s@.len(),
            lines(s@) == char_texts(out@) + lines(s@.skip(start as int)),
        decreases s@.len() - start,
    {
        let rest: &[char] = &s[start..s.len()];
        assert(rest@ =~= s@.skip(start as int));
        let k: usize = find_char(rest, '\n');
        proof {
            lemma_find(rest@, '\n');
        }
        let ghost before = out@;
        if k == rest.len() {
            out.push(owned(rest));
            assert(char_texts(out@) =~= char_texts(before).push(rest@));
            start = s.len();
            assert(lines(s@.skip(start as int)) =~= Seq::<Seq<char>>::empty());
            assert(lines(s@) =~= char_texts(out@) + lines(s@.skip(start as int)));
        } else {
            let end: usize = if k > 0 && rest[k - 1] == '\r' {
                k - 1
            } else {
                k
            };
            let line: &[char] = &rest[0..end];
            assert(line@ =~= without_cr(rest@.take(k as int)));
            out.push(owned(line));
            assert(char_texts(out@) =~= char_texts(before).push(line@));
            assert(rest@.skip(k + 1) =~= s@.skip(start + k + 1));
            assert(lines(s@) =~= char_texts(out@) + lines(s@.skip(start + k + 1)));
            start = start + k + 1;
        }
    }
    assert(s@.skip(start as int) =~= Seq::<char>::empty());
    assert(lines(s@) =~= char_texts(out@));
    out
}

/// [`lead`] is the place of the first character that is not white space.
pub proof fn lemma_lead_place(s: Seq<char>)
    ensures
        0 <= lead(s) <= s.len(),
        forall|i: int| 0 <= i < lead(s) ==> white(#[trigger] s[i]),
        lead(s) < s.len() ==> !white(s[lead(s)]),
    decreases s.len(),
{
    if s.len() > 0 && white(s[0]) {
        lemma_lead_place(s.skip(1));
        let k = lead(s.skip(1));
        assert forall|i: int| 0 <= i < k + 1 implies white(#[trigger] s[i]) by {
            if i > 0 {
                assert(s.skip(1)[i - 1] == s[i]);
            }
        }
    }
}

/// The place that [`lemma_lead_place`] describes is the one of [`lead`].
pub proof fn lemma_lead_unique(s: Seq<char>, k: int)
    requires
        0 <= k <= s.len(),
        forall|i: int| 0 <= i < k ==> white(#[trigger] s[i]),
        k < s.len() ==> !white(s[k]),
    ensures
        lead(s) == k,
{
    lemma_lead_place(s);
    let p = lead(s);
    if p < k {
        assert(white(s[p]));
    } else if k < p {
        assert(white(s[k]));
    }
}

/// A text without the white space at its end is a front part of it, which does not
/// end with white space.
pub proof fn lemma_trim_tail(s: Seq<char>)
    ensures
        trim_tail(s).len() <= s.len(),
        trim_tail(s) == s.take(trim_tail(s).len() as int),
        trim_tail(s).len() > 0 ==> !white(trim_tail(s).last()),
        s.len() > 0 && !white(s[0]) ==> trim_tail(s).len() > 0,
    decreases s.len(),
{
    if s.len() > 0 && white(s.last()) {
        lemma_trim_tail(s.drop_last());
        let n = trim_tail(s).len() as int;
        assert(s.drop_last().take(n) =~= s.take(n));
        if s.len() > 1 {
            assert(s.drop_last()[0] == s[0]);
        }
    } else {
        assert(s.take(s.len() as int) =~= s);
    }
}

/// A trimmed text is empty, or it begins and ends with other than white space, and
/// stands in the text.
pub proof fn lemma_trimmed(s: Seq<char>)
    ensures
        trimmed(s).len() > 0 ==> !white(trimmed(s)[0]) && !white(trimmed(s).last()),
        trimmed(s) == s.subrange(lead(s), lead(s) + trimmed(s).len()),
        0 <= lead(s) <= lead(s) + trimmed(s).len() <= s.len(),
{
    lemma_lead_place(s);
    let rest = s.skip(lead(s));
    lemma_trim_tail(rest);
    let n = trimmed(s).len() as int;
    assert(rest.take(n) =~= s.subrange(lead(s), lead(s) + n));
    if n > 0 {
        assert(trimmed(s)[0] == s[lead(s)]);
    }
}

/// White space in front of a trimmed text is trimmed off again.
pub proof fn lemma_trim_padded(pad: Seq<char>, t: Seq<char>)
    requires
        forall|i: int| 0 <= i < pad.len() ==> white(#[trigger] pad[i]),
        t.len() > 0,
        !white(t[0]),
        !white(t.last()),
    ensures
        trimmed(pad + t) == t,
{
    let s = pad + t;
    assert forall|i: int| 0 <= i < pad.len() implies white(#[trigger] s[i]) by {
        assert(s[i] == pad[i]);
    }
    assert(s[pad.len() as int] == t[0]);
    lemma_lead_unique(s, pad.len() as int);
    assert(s.skip(pad.len() as int) =~= t);
}

/// A carriage return at the end makes no difference to a trimmed line.
pub proof fn lemma_trim_without_cr(s: Seq<char>)
    ensures
        trimmed(without_cr(s)) == trimmed(s),
{
    if s.len() > 0 && s.last() == '\r' {
        let front = s.drop_last();
        lemma_lead_place(s);
        let k = lead(s);
        if k == s.len() {
            assert forall|i: int| 0 <= i < front.len() implies white(#[trigger] front[i]) by {
                assert(front[i] == s[i]);
            }
            lemma_lead_unique(front, front.len() as int);
            assert(s.skip(k) =~= Seq::empty());
            assert(front.skip(front.len() as int) =~= Seq::empty());
        } else {
            assert(white(s[s.len() - 1]));
            assert(k < front.len());
            assert forall|i: int| 0 <= i < k implies white(#[trigger] front[i]) by {
                assert(front[i] == s[i]);
            }
            assert(front[k] == s[k]);
            lemma_lead_unique(front, k);
            assert(s.skip(k).drop_last() =~= front.skip(k));
            assert(s.skip(k).last() == s.last());
        }
    }
}

// ---------------------------------------------------------------------------
// ASCII case
// ---------------------------------------------------------------------------

/// The character with an ASCII capital turned into its small letter.
pub open spec fn ascii_lower_char(c: char) -> char {
    if 'A' <= c <= 'Z' {
        ((c as u32 + 32) as u32) as char
    } else {
        c
    }
}

/// The text with every ASCII capital turned into its small letter.
pub open spec fn ascii_lower(s: Seq<char>) -> Seq<char> {
    s.map_values(|c: char| ascii_lower_char(c))
}

pub fn lower_char(c: char) -> (res: char)
    ensures
        res == ascii_lower_char(c),
{
    if 'A' <= c && c <= 'Z' {
        let lowered: u8 = (c as u8) + 32;
        lowered as char
    } else {
        c
    }
}

pub fn to_ascii_lower(s: &[char]) -> (res: Vec<char>)
    ensures
        res@ == ascii_lower(s@),
{
    let mut res: Vec<char> = Vec::new();
    let mut i: usize = 0;
    while i < s.len()
        invariant
            0 <= i <= s@.len(),
            res@ == ascii_lower(s@).take(i as int),
        decreases s@.len() - i,
    {
        res.push(lower_char(s[i]));
        i = i + 1;
    }
    assert(ascii_lower(s@).take(i as int) =~= ascii_lower(s@));
    res
}

// ---------------------------------------------------------------------------
// Numbers
// ---------------------------------------------------------------------------

/// The digit for a number below ten.
pub open spec fn digit(d: nat) -> char {
    if d == 0 {
        '0'
    } else if d == 1 {
        '1'
    } else if d == 2 {
        '2'
    } else if d == 3 {
        '3'
    } else if d == 4 {
        '4'
    } else if d == 5 {
        '5'
    } else if d == 6 {
        '6'
    } else if d == 7 {
        '7'
    } else if d == 8 {
        '8'
    } else {
        '9'
    }
}

/// A number in decimal digits.
pub open spec fn decimal(n: nat) -> Seq<char>
    decreases n,
{
    if n < 10 {
        seq![digit(n)]
    } else {
        decimal(n / 10).push(digit(n % 10))
    }
}

fn digit_char(d: u64) -> (res: char)
    requires
        d < 10,
    ensures
        res == digit(d as nat),
{
    if d == 0 {
        '0'
    } else if d == 1 {
        '1'
    } else if d == 2 {
        '2'
    } else if d == 3 {
        '3'
    } else if d == 4 {
        '4'
    } else if d == 5 {
        '5'
    } else if d == 6 {
        '6'
    } else if d == 7 {
        '7'
    } else if d == 8 {
        '8'
    } else {
        '9'
    }
}

/// A number in decimal digits.
pub fn decimal_text(n: u64) -> (res: String)
    ensures
        res@ == decimal(n as nat),
    decreases n,
{
    if n < 10 {
        let mut s: String = String::new();
        s.push(digit_char(n));
        assert(s@ =~= seq![digit(n as nat)]);
        s
    } else {
        let mut s: String = decimal_text(n / 10);
        s.push(digit_char(n % 10));
        s
    }
}

/// Different numbers are written differently.
pub proof fn lemma_decimal_injective(a: nat, b: nat)
    requires
        decimal(a) == decimal(b),
    ensures
        a == b,
    decreases a,
{
    let x = decimal(a);
    assert(x.last() == digit(a % 10));
    assert(decimal(b).last() == digit(b % 10));
    lemma_decimal_len(a);
    lemma_decimal_len(b);
    if a >= 10 && b >= 10 {
        assert(x.drop_last() =~= decimal(a / 10));
        assert(decimal(b).drop_last() =~= decimal(b / 10));
        lemma_decimal_injective(a / 10, b / 10);
        assert(a == 10 * (a / 10) + a % 10 && b == 10 * (b / 10) + b % 10);
    }
}

/// A number has a digit, and from ten on more than one.
pub proof fn lemma_decimal_len(n: nat)
    ensures
        decimal(n).len() >= 1,
        n >= 10 ==> decimal(n).len() >= 2,
        n < 10 ==> decimal(n).len() == 1,
    decreases n,
{
    if n >= 10 {
        lemma_decimal_len(n / 10);
    }
}

} // verus!
