//! Detection-name globs for `... of selection_*` selector expressions.
//!
//! The parser, the evaluator and the converter share this matcher, so that a
//! pattern such as `sel*main` selects the same detections in each of them.

use crate::ast::SelectorPattern;
use crate::text;
use vstd::prelude::*;

verus! {

/// A detection name matches a glob. One `*` at the end, at the start or in
/// between is a wildcard; every other character stands for itself.
pub open spec fn glob_matches(pattern: Seq<char>, name: Seq<char>) -> bool {
    if pattern.len() > 0 && pattern.last() == '*' {
        text::begins(name, pattern.drop_last())
    } else if pattern.len() > 0 && pattern[0] == '*' {
        text::ends(name, pattern.skip(1))
    } else if text::find(pattern, '*') < pattern.len() {
        let k = text::find(pattern, '*');
        text::begins(name, pattern.take(k)) && text::ends(name, pattern.skip(k + 1))
    } else {
        pattern == name
    }
}

/// Check whether a detection name matches a glob `pattern`.
///
/// - `*` matches every name
/// - `selection_*` matches the names that begin with `selection_`
/// - `*_main` matches the names that end with `_main`
/// - `sel*main` matches the names that begin with `sel` and end with `main`
/// - `selection` matches itself only
pub fn detection_name_matches(pattern: &str, name: &str) -> (res: bool)
    ensures
        res == glob_matches(pattern@, name@),
{
    let p: Vec<char> = text::chars_of(pattern);
    let n: Vec<char> = text::chars_of(name);
    if p.len() > 0 && p[p.len() - 1] == '*' {
        assert(p@.subrange(0, p@.len() - 1) =~= p@.drop_last());
        return text::starts_with(&n, &p[0..p.len() - 1]);
    }
    if p.len() > 0 && p[0] == '*' {
        assert(p@.subrange(1, p@.len() as int) =~= p@.skip(1));
        return text::ends_with(&n, &p[1..p.len()]);
    }
    proof {
        text::lemma_find(p@, '*');
    }
    let k: usize = text::find_char(&p, '*');
    if k < p.len() {
        assert(p@.subrange(0, k as int) =~= p@.take(k as int));
        assert(p@.subrange(k + 1, p@.len() as int) =~= p@.skip(k + 1));
        return text::starts_with(&n, &p[0..k]) && text::ends_with(&n, &p[k + 1..p.len()]);
    }
    text::same_chars(&p, &n)
}

/// What a selector pattern selects.
pub open spec fn selects(pattern: SelectorPattern, name: Seq<char>) -> bool {
    match pattern {
        SelectorPattern::Them => !text::begins(name, seq!['_']),
        SelectorPattern::Pattern(glob) => glob_matches(glob@, name),
    }
}

impl SelectorPattern {
    /// Whether this selector pattern matches a detection name. `them` leaves out
    /// the names that begin with `_`.
    pub fn matches_detection_name(&self, name: &str) -> (res: bool)
        ensures
            res == selects(*self, name@),
    {
        match self {
            SelectorPattern::Them => {
                let n: Vec<char> = text::chars_of(name);
                let hidden: bool = n.len() > 0 && n[0] == '_';
                assert(hidden == text::begins(name@, seq!['_'])) by {
                    if n@.len() > 0 {
                        assert(name@.take(1) =~= seq![name@[0]]);
                        assert(seq![name@[0]][0] == name@[0]);
                    }
                }
                !hidden
            },
            SelectorPattern::Pattern(glob) => detection_name_matches(glob.as_str(), name),
        }
    }
}

/// The shapes of a glob: a wildcard alone matches every name, one at the end asks
/// for the text before it, one at the start for the text behind it, one in between
/// for both, and without one only the name itself matches.
pub proof fn lemma_glob_shapes(before: Seq<char>, behind: Seq<char>, name: Seq<char>)
    requires
        !before.contains('*'),
        !behind.contains('*'),
    ensures
        glob_matches(seq!['*'], name),
        glob_matches(before + seq!['*'], name) == text::begins(name, before),
        glob_matches(seq!['*'] + behind, name) == text::ends(name, behind),
        glob_matches(before + seq!['*'] + behind, name) == (text::begins(name, before)
            && text::ends(name, behind)),
        glob_matches(before, name) == (before == name),
{
    let star = seq!['*'];
    assert(star.drop_last() =~= Seq::<char>::empty());
    assert(name.take(0) =~= Seq::<char>::empty());
    assert(name.skip(name.len() as int) =~= Seq::<char>::empty());
    assert((before + star).drop_last() =~= before);
    assert((star + behind).skip(1) =~= behind);
    if behind.len() == 0 {
        assert(behind =~= Seq::<char>::empty());
        assert(star + behind =~= star);
        assert(before + star + behind =~= before + star);
    } else {
        assert(behind.contains(behind.last()));
        assert((star + behind).last() == behind.last());
        assert((before + star + behind).last() == behind.last());
        if before.len() == 0 {
            assert(before =~= Seq::<char>::empty());
            assert(before + star + behind =~= star + behind);
        } else {
            let whole = before + star + behind;
            let k = before.len() as int;
            assert(before.contains(before[0]));
            assert(whole[0] == before[0]);
            assert forall|i: int| 0 <= i < k implies whole[i] != '*' by {
                assert(whole[i] == before[i]);
                assert(before.contains(before[i]));
            }
            text::lemma_find_unique(whole, '*', k);
            assert(whole.take(k) =~= before);
            assert(whole.skip(k + 1) =~= behind);
        }
    }
    if before.len() > 0 {
        assert(before.contains(before[0]));
        assert(before.contains(before.last()));
    }
    assert forall|i: int| 0 <= i < before.len() implies before[i] != '*' by {
        assert(before.contains(before[i]));
    }
    text::lemma_find_unique(before, '*', before.len() as int);
}

} // verus!
