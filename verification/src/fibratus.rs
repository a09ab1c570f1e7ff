//! Fibratus macro library and the pass that recognizes macros in a filter.
//!
//! Each macro pairs a name with the clauses that it stands for. [`recognize`]
//! walks the top-level `and` clauses of a filter expression and replaces each
//! contiguous run that matches the clauses of a macro with the macro's name, so
//! `evt.name = 'CreateProcess' and ps.exe iendswith '\\cmd.exe'` reads
//! `spawn_process and ps.exe iendswith '\\cmd.exe'`.
//!
//! A clause is accepted in every form in which it may have been rendered: with
//! the exact equality `=`, with the case-insensitive `~=`, as the inequality
//! `!=`, or as the negated equality `not (field ~= 'literal')`.

use crate::text;
use vstd::prelude::*;

verus! {

// ---------------------------------------------------------------------------
// Lexical structure of an expression
// ---------------------------------------------------------------------------

/// Where a position stands with respect to single-quoted literals.
#[derive(Clone, Copy)]
pub enum Quote {
    /// Outside every literal.
    Outside,
    /// Inside a literal.
    Inside,
    /// Inside a literal, right behind a backslash.
    Escaped,
}

/// What one character does to the quoting.
pub open spec fn quote_step(q: Quote, c: char) -> Quote {
    match q {
        Quote::Outside => if c == '\'' {
            Quote::Inside
        } else {
            Quote::Outside
        },
        Quote::Inside => if c == '\\' {
            Quote::Escaped
        } else if c == '\'' {
            Quote::Outside
        } else {
            Quote::Inside
        },
        Quote::Escaped => Quote::Inside,
    }
}

/// The quoting in front of position `i`.
pub open spec fn quote_at(s: Seq<char>, i: int) -> Quote
    decreases i,
{
    if i <= 0 {
        Quote::Outside
    } else {
        quote_step(quote_at(s, i - 1), s[i - 1])
    }
}

/// The number of parentheses open in front of position `i`; those inside
/// literals do not count.
pub open spec fn depth_at(s: Seq<char>, i: int) -> int
    decreases i,
{
    if i <= 0 {
        0
    } else if quote_at(s, i - 1) is Outside && s[i - 1] == '(' {
        depth_at(s, i - 1) + 1
    } else if quote_at(s, i - 1) is Outside && s[i - 1] == ')' {
        depth_at(s, i - 1) - 1
    } else {
        depth_at(s, i - 1)
    }
}

/// Position `i` is outside every literal and every parenthesis.
pub open spec fn top_level(s: Seq<char>, i: int) -> bool {
    quote_at(s, i) is Outside && depth_at(s, i) == 0
}

/// `token` stands in `s` at position `i`, the case of ASCII letters aside.
pub open spec fn token_at(s: Seq<char>, i: int, token: Seq<char>) -> bool {
    0 <= i && i + token.len() <= s.len() && text::ascii_lower(s.subrange(i, i + token.len()))
        == text::ascii_lower(token)
}

/// `token` stands at the top level of `s` at position `i`.
pub open spec fn boundary(s: Seq<char>, i: int, token: Seq<char>) -> bool {
    top_level(s, i) && token_at(s, i, token)
}

/// The first position from `from` on at which `token` stands at the top level,
/// or the length of `s` if there is none.
pub open spec fn next_boundary(s: Seq<char>, from: int, token: Seq<char>) -> int
    decreases s.len() - from,
{
    if from >= s.len() {
        s.len() as int
    } else if boundary(s, from, token) {
        from
    } else {
        next_boundary(s, from + 1, token)
    }
}

/// A token that holds neither a quote nor a parenthesis.
pub open spec fn neutral(token: Seq<char>) -> bool {
    forall|k: int|
        0 <= k < token.len() ==> #[trigger] token[k] != '\'' && token[k] != '(' && token[k] != ')'
}

/// What [`next_boundary`] gives.
pub proof fn lemma_next_boundary(s: Seq<char>, from: int, token: Seq<char>)
    requires
        0 <= from <= s.len(),
    ensures
        from <= next_boundary(s, from, token) <= s.len(),
        next_boundary(s, from, token) < s.len() ==> boundary(
            s,
            next_boundary(s, from, token),
            token,
        ),
    decreases s.len() - from,
{
    if from < s.len() && !boundary(s, from, token) {
        lemma_next_boundary(s, from + 1, token);
    }
}

/// Behind a neutral token at the top level, the top level goes on.
pub proof fn lemma_top_level_behind(s: Seq<char>, i: int, token: Seq<char>, n: int)
    requires
        boundary(s, i, token),
        neutral(token),
        0 <= n <= token.len(),
    ensures
        top_level(s, i + n),
    decreases n,
{
    if n > 0 {
        lemma_top_level_behind(s, i, token, n - 1);
        let k = n - 1;
        assert(text::ascii_lower(s.subrange(i, i + token.len()))[k] == text::ascii_lower_char(s[i + k]));
        assert(text::ascii_lower(token)[k] == text::ascii_lower_char(token[k]));
    }
}

pub fn matches_token(s: &[char], i: usize, token: &[char]) -> (res: bool)
    ensures
        res == token_at(s@, i as int, token@),
{
    if i > s.len() || token.len() > s.len() - i {
        return false;
    }
    let mut j: usize = 0;
    assert(s@.len() == s.len());
    while j < token.len()
        invariant
            0 <= j <= token@.len(),
            i + token@.len() <= s@.len() <= usize::MAX,
            forall|k: int|
                0 <= k < j ==> text::ascii_lower_char(s@[i + k]) == text::ascii_lower_char(token@[k]),
        decreases token@.len() - j,
    {
        if text::lower_char(s[i + j]) != text::lower_char(token[j]) {
            let ghost here = text::ascii_lower(s@.subrange(i as int, i + token@.len()));
            assert(here[j as int] == text::ascii_lower_char(s@[i + j]));
            assert(text::ascii_lower(token@)[j as int] == text::ascii_lower_char(token@[j as int]));
            return false;
        }
        j = j + 1;
    }
    assert(text::ascii_lower(s@.subrange(i as int, i + token@.len())) =~= text::ascii_lower(token@));
    true
}

/// The first position from `from` on at which `token` stands at the top level.
fn find_boundary(s: &[char], from: usize, token: &[char]) -> (res: usize)
    requires
        from <= s@.len(),
        top_level(s@, from as int),
    ensures
        res == next_boundary(s@, from as int, token@),
        from <= res <= s@.len(),
{
    let mut i: usize = from;
    let mut quote: Quote = Quote::Outside;
    let mut depth: i128 = 0;
    assert(s@.len() == s.len());
    while i < s.len()
        invariant
            from <= i <= s@.len(),
            s@.len() <= usize::MAX,
            quote == quote_at(s@, i as int),
            depth == depth_at(s@, i as int),
            -(i - from) <= depth <= i - from,
            next_boundary(s@, from as int, token@) == next_boundary(s@, i as int, token@),
        decreases s@.len() - i,
    {
        let outside: bool = match quote {
            Quote::Outside => true,
            _ => false,
        };
        if outside && depth == 0 && matches_token(s, i, token) {
            return i;
        }
        let c: char = s[i];
        if outside && c == '(' {
            depth = depth + 1;
        } else if outside && c == ')' {
            depth = depth - 1;
        }
        quote = match quote {
            Quote::Outside => if c == '\'' {
                Quote::Inside
            } else {
                Quote::Outside
            },
            Quote::Inside => if c == '\\' {
                Quote::Escaped
            } else if c == '\'' {
                Quote::Outside
            } else {
                Quote::Inside
            },
            Quote::Escaped => Quote::Inside,
        };
        i = i + 1;
    }
    i
}

// ---------------------------------------------------------------------------
// Clauses
// ---------------------------------------------------------------------------

/// The pieces of `s` from `from` on, cut at each top-level ` and `.
pub open spec fn pieces(s: Seq<char>, from: int) -> Seq<Seq<char>>
    decreases s.len() - from,
{
    let i = next_boundary(s, from, " and "@);
    if 0 <= from <= i && i + 5 <= s.len() {
        seq![s.subrange(from, i)] + pieces(s, i + 5)
    } else {
        seq![s.skip(from)]
    }
}

/// The pieces with the white space around them removed.
pub open spec fn trimmed_all(parts: Seq<Seq<char>>) -> Seq<Seq<char>> {
    parts.map_values(|p: Seq<char>| text::trimmed(p))
}

/// The pieces that are not empty, in their order.
pub open spec fn nonempty(parts: Seq<Seq<char>>) -> Seq<Seq<char>>
    decreases parts.len(),
{
    if parts.len() == 0 {
        Seq::empty()
    } else if parts.last().len() == 0 {
        nonempty(parts.drop_last())
    } else {
        nonempty(parts.drop_last()).push(parts.last())
    }
}

/// The top-level clauses of an expression: its pieces, trimmed, without the
/// empty ones.
pub open spec fn clauses(s: Seq<char>) -> Seq<Seq<char>> {
    nonempty(trimmed_all(pieces(s, 0)))
}

/// The clauses of a macro source: its pieces, trimmed; an empty one at the end
/// does not count.
pub open spec fn source_clauses(s: Seq<char>) -> Seq<Seq<char>> {
    let parts = trimmed_all(pieces(s, 0));
    if parts.last().len() == 0 {
        parts.drop_last()
    } else {
        parts
    }
}

/// The lengths of the tokens, and that they are neutral but for the quote.
pub proof fn lemma_and_token()
    ensures
        " and "@.len() == 5,
        neutral(" and "@),
        " != "@.len() == 4,
        neutral(" != "@),
        " = '"@.len() == 4,
{
    reveal_strlit(" and ");
    reveal_strlit(" != ");
    reveal_strlit(" = '");
}

proof fn lemma_nonempty_push(parts: Seq<Seq<char>>, p: Seq<char>)
    ensures
        nonempty(parts.push(p)) == if p.len() == 0 {
            nonempty(parts)
        } else {
            nonempty(parts).push(p)
        },
{
    assert(parts.push(p).drop_last() =~= parts);
}

/// The pieces of `s`, cut at each top-level ` and ` and trimmed.
fn trimmed_pieces(s: &[char]) -> (res: Vec<Vec<char>>)
    ensures
        text::char_texts(res@) == trimmed_all(pieces(s@, 0)),
        res@.len() >= 1,
{
    let token: Vec<char> = text::chars_of(" and ");
    let mut out: Vec<Vec<char>> = Vec::new();
    let mut start: usize = 0;
    proof {
        lemma_and_token();
    }
    assert(s@.len() == s.len());
    let ghost all = trimmed_all(pieces(s@, 0));
    assert(all =~= text::char_texts(out@) + trimmed_all(pieces(s@, 0)));
    loop
        invariant_except_break
            0 <= start <= s@.len(),
            s@.len() <= usize::MAX,
            top_level(s@, start as int),
            token@ == " and "@,
            token@.len() == 5,
            neutral(token@),
            all == text::char_texts(out@) + trimmed_all(pieces(s@, start as int)),
        ensures
            text::char_texts(out@) == all,
            out@.len() >= 1,
        decreases s@.len() - start,
    {
        let i: usize = find_boundary(s, start, &token);
        proof {
            lemma_next_boundary(s@, start as int, token@);
        }
        let ghost before = out@;
        let piece: &[char] = text::trim(&s[start..i]);
        out.push(text::owned(piece));
        assert(text::char_texts(out@) =~= text::char_texts(before).push(piece@));
        if i == s.len() {
            assert(s@.subrange(start as int, i as int) =~= s@.skip(start as int));
            assert(trimmed_all(pieces(s@, start as int)) =~= seq![piece@]);
            assert(all =~= text::char_texts(out@));
            break;
        }
        proof {
            lemma_top_level_behind(s@, i as int, token@, 5);
            assert(trimmed_all(pieces(s@, start as int)) =~= seq![piece@] + trimmed_all(
                pieces(s@, i + 5),
            ));
            assert(all =~= text::char_texts(out@) + trimmed_all(pieces(s@, i + 5)));
        }
        start = i + 5;
    }
    out
}

/// Split an expression at its top-level `and`s; parenthesized groups and quoted
/// literals stay whole.
pub fn split_top_level_and(expr: &str) -> (res: Vec<String>)
    ensures
        text::texts(res@) == clauses(expr@),
{
    let s: Vec<char> = text::chars_of(expr);
    let parts: Vec<Vec<char>> = trimmed_pieces(&s);
    let ghost whole = text::char_texts(parts@);
    let mut out: Vec<String> = Vec::new();
    let mut i: usize = 0;
    assert(whole.take(0) =~= Seq::<Seq<char>>::empty());
    assert(text::texts(out@) =~= nonempty(whole.take(0)));
    while i < parts.len()
        invariant
            0 <= i <= parts@.len(),
            whole == text::char_texts(parts@),
            text::texts(out@) == nonempty(whole.take(i as int)),
        decreases parts@.len() - i,
    {
        let ghost before = out@;
        proof {
            assert(whole.take(i + 1) =~= whole.take(i as int).push(whole[i as int]));
            lemma_nonempty_push(whole.take(i as int), whole[i as int]);
        }
        if parts[i].len() > 0 {
            out.push(text::string_of(&parts[i]));
            assert(text::texts(out@) =~= text::texts(before).push(whole[i as int]));
        }
        i = i + 1;
    }
    assert(whole.take(i as int) =~= whole);
    out
}

/// Split the source of a macro at its top-level `and`s, as
/// [`split_top_level_and`] splits an expression.
pub fn split_clauses(src: &str) -> (res: Vec<String>)
    ensures
        text::texts(res@) == source_clauses(src@),
{
    let s: Vec<char> = text::chars_of(src);
    let parts: Vec<Vec<char>> = trimmed_pieces(&s);
    let ghost whole = text::char_texts(parts@);
    let mut out: Vec<String> = Vec::new();
    let n: usize = if parts[parts.len() - 1].len() == 0 {
        parts.len() - 1
    } else {
        parts.len()
    };
    assert(whole.last() == parts@.last()@);
    assert(whole.take(n as int) =~= source_clauses(src@));
    let mut i: usize = 0;
    while i < n
        invariant
            0 <= i <= n <= parts@.len(),
            whole == text::char_texts(parts@),
            text::texts(out@) == whole.take(i as int),
        decreases n - i,
    {
        let ghost before = out@;
        out.push(text::string_of(&parts[i]));
        assert(text::texts(out@) =~= text::texts(before).push(whole[i as int]));
        assert(whole.take(i + 1) =~= whole.take(i as int).push(whole[i as int]));
        i = i + 1;
    }
    out
}

/// The clause with its first top-level ` = '` turned into ` ~= '`.
pub open spec fn ci_eq(s: Seq<char>) -> Seq<char> {
    let i = next_boundary(s, 0, " = '"@);
    if i < s.len() {
        s.take(i) + " ~= '"@ + s.skip(i + 4)
    } else {
        s
    }
}

/// Turn a clause `field = 'literal'` into its case-insensitive form
/// `field ~= 'literal'`; every other clause stays as it is.
pub fn to_ci_eq(clause: &str) -> (res: String)
    ensures
        res@ == ci_eq(clause@),
{
    let s: Vec<char> = text::chars_of(clause);
    let token: Vec<char> = text::chars_of(" = '");
    proof {
        lemma_and_token();
        lemma_next_boundary(s@, 0, token@);
    }
    let i: usize = find_boundary(&s, 0, &token);
    if i == s.len() {
        return clause.to_owned();
    }
    let mut out: String = text::string_of(&s[0..i]);
    out.append(" ~= '");
    let rest: String = text::string_of(&s[i + 4..s.len()]);
    out.append(rest.as_str());
    assert(s@.subrange(0, i as int) =~= s@.take(i as int));
    assert(s@.subrange(i + 4, s@.len() as int) =~= s@.skip(i + 4));
    out
}

/// The two sides of the first top-level ` != `.
pub open spec fn neq_sides(s: Seq<char>) -> Option<(Seq<char>, Seq<char>)> {
    let i = next_boundary(s, 0, " != "@);
    if i < s.len() {
        Some((s.take(i), s.skip(i + 4)))
    } else {
        None
    }
}

/// Split a clause at its first top-level ` != `.
pub fn split_top_level_neq(clause: &str) -> (res: Option<(String, String)>)
    ensures
        match res {
            Some(sides) => neq_sides(clause@) == Some((sides.0@, sides.1@)),
            None => neq_sides(clause@) is None,
        },
{
    let s: Vec<char> = text::chars_of(clause);
    let token: Vec<char> = text::chars_of(" != ");
    proof {
        lemma_and_token();
        lemma_next_boundary(s@, 0, token@);
    }
    let i: usize = find_boundary(&s, 0, &token);
    if i == s.len() {
        return None;
    }
    assert(s@.subrange(0, i as int) =~= s@.take(i as int));
    assert(s@.subrange(i + 4, s@.len() as int) =~= s@.skip(i + 4));
    Some((text::string_of(&s[0..i]), text::string_of(&s[i + 4..s.len()])))
}

// ---------------------------------------------------------------------------
// Rendered forms of a clause
// ---------------------------------------------------------------------------

/// The forms of an inequality clause as a negated equality.
pub open spec fn negated_forms(lhs: Seq<char>, rhs: Seq<char>) -> Seq<Seq<char>> {
    let exact = "not ("@ + lhs + " = "@ + rhs + ")"@;
    let relaxed = "not ("@ + lhs + " ~= "@ + rhs + ")"@;
    if rhs.len() > 0 && rhs[0] == '\'' {
        seq![exact, relaxed]
    } else {
        seq![exact]
    }
}

/// Every form in which a clause of a macro may have been rendered.
pub open spec fn clause_forms(clause: Seq<char>) -> Seq<Seq<char>> {
    let c = text::trimmed(clause);
    let verbatim = if ci_eq(c) != c {
        seq![c, ci_eq(c)]
    } else {
        seq![c]
    };
    match neq_sides(c) {
        Some((lhs, rhs)) => verbatim + negated_forms(text::trimmed(lhs), text::trimmed(rhs)),
        None => verbatim,
    }
}

/// `not (lhs op rhs)`.
fn negated(lhs: &[char], op: &str, rhs: &[char]) -> (res: String)
    ensures
        res@ == "not ("@ + lhs@ + op@ + rhs@ + ")"@,
{
    let mut out: String = "not (".to_owned();
    out.append(text::string_of(lhs).as_str());
    out.append(op);
    out.append(text::string_of(rhs).as_str());
    out.append(")");
    out
}

/// Every form in which a clause of a macro may have been rendered: the clause
/// itself, for an equality also the case-insensitive one, for an inequality also
/// the negated equalities.
pub fn accepted_clause_forms(clause: &str) -> (res: Vec<String>)
    ensures
        text::texts(res@) == clause_forms(clause@),
{
    let s: Vec<char> = text::chars_of(clause);
    let c: String = text::string_of(text::trim(&s));
    let ci: String = to_ci_eq(c.as_str());
    let differs: bool = ci != c;
    let sides: Option<(String, String)> = split_top_level_neq(c.as_str());
    let mut forms: Vec<String> = Vec::new();
    forms.push(c);
    if differs {
        forms.push(ci);
    }
    assert(text::texts(forms@) =~= if ci@ != c@ {
        seq![c@, ci@]
    } else {
        seq![c@]
    });
    if let Some((left, right)) = sides {
        let ghost verbatim = text::texts(forms@);
        let left_chars: Vec<char> = text::chars_of(left.as_str());
        let right_chars: Vec<char> = text::chars_of(right.as_str());
        let lhs: &[char] = text::trim(&left_chars);
        let rhs: &[char] = text::trim(&right_chars);
        forms.push(negated(lhs, " = ", rhs));
        if rhs.len() > 0 && rhs[0] == '\'' {
            forms.push(negated(lhs, " ~= ", rhs));
        }
        assert(text::texts(forms@) =~= verbatim + negated_forms(lhs@, rhs@));
    }
    forms
}

// ---------------------------------------------------------------------------
// Macros
// ---------------------------------------------------------------------------

/// The macro library: each macro's name and the expression that it stands for.
pub open spec fn macro_table() -> Seq<(Seq<char>, Seq<char>)> {
    seq![
        ("spawn_process"@, "evt.name = 'CreateProcess'"@),
        ("create_thread"@, "evt.name = 'CreateThread'"@),
        ("write_file"@, "evt.name = 'WriteFile'"@),
        ("rename_file"@, "evt.name = 'RenameFile'"@),
        ("read_file"@, "evt.name = 'ReadFile'"@),
        ("delete_file"@, "evt.name = 'DeleteFile'"@),
        ("set_file_information"@, "evt.name = 'SetFileInformation'"@),
        ("load_module"@, "evt.name = 'LoadModule'"@),
        ("unload_module"@, "evt.name = 'UnloadModule'"@),
        ("send_socket"@, "evt.name = 'Send'"@),
        ("recv_socket"@, "evt.name = 'Recv'"@),
        ("connect_socket"@, "evt.name = 'Connect'"@),
        ("accept_socket"@, "evt.name = 'Accept'"@),
        ("virtual_alloc"@, "evt.name = 'VirtualAlloc'"@),
        ("virtual_free"@, "evt.name = 'VirtualFree'"@),
        ("map_view_file"@, "evt.name = 'MapViewFile'"@),
        ("unmap_view_file"@, "evt.name = 'UnmapViewFile'"@),
        ("duplicate_handle"@, "evt.name = 'DuplicateHandle'"@),
        ("create_handle"@, "evt.name = 'CreateHandle'"@),
        ("query_dns"@, "evt.name = 'QueryDns'"@),
        ("reply_dns"@, "evt.name = 'ReplyDns'"@),
        ("create_remote_thread"@, "evt.name = 'CreateThread' and evt.pid != 4 and evt.pid != thread.pid"@),
        ("open_file"@, "evt.name = 'CreateFile' and file.operation = 'OPEN' and file.status = 'Success'"@),
        ("create_file"@, "evt.name = 'CreateFile' and file.operation != 'OPEN' and file.status = 'Success'"@),
        ("create_new_file"@, "evt.name = 'CreateFile' and file.operation = 'CREATE' and file.status = 'Success'"@),
        ("create_file_supersede"@, "evt.name = 'CreateFile' and file.operation = 'SUPERSEDE'"@),
        ("set_value"@, "evt.name = 'RegSetValue' and registry.status = 'Success'"@),
        ("create_key"@, "evt.name = 'RegCreateKey' and registry.status = 'Success'"@),
        ("open_process"@, "evt.name = 'OpenProcess' and ps.access.status = 'Success'"@),
        ("open_thread"@, "evt.name = 'OpenThread' and thread.access.status = 'Success'"@),
        ("open_registry"@, "evt.name = 'RegOpenKey' and registry.status = 'Success'"@),
    ]
}

/// The texts of a table of string pairs.
pub open spec fn pair_texts(v: Seq<(&str, &str)>) -> Seq<(Seq<char>, Seq<char>)> {
    v.map_values(|p: (&str, &str)| (p.0@, p.1@))
}

/// The macro library, for lookup.
pub fn expression_macros() -> (res: Vec<(&'static str, &'static str)>)
    ensures
        pair_texts(res@) == macro_table(),
{
    let table: Vec<(&'static str, &'static str)> =
        vec![
        ("spawn_process", "evt.name = 'CreateProcess'"),
        ("create_thread", "evt.name = 'CreateThread'"),
        ("write_file", "evt.name = 'WriteFile'"),
        ("rename_file", "evt.name = 'RenameFile'"),
        ("read_file", "evt.name = 'ReadFile'"),
        ("delete_file", "evt.name = 'DeleteFile'"),
        ("set_file_information", "evt.name = 'SetFileInformation'"),
        ("load_module", "evt.name = 'LoadModule'"),
        ("unload_module", "evt.name = 'UnloadModule'"),
        ("send_socket", "evt.name = 'Send'"),
        ("recv_socket", "evt.name = 'Recv'"),
        ("connect_socket", "evt.name = 'Connect'"),
        ("accept_socket", "evt.name = 'Accept'"),
        ("virtual_alloc", "evt.name = 'VirtualAlloc'"),
        ("virtual_free", "evt.name = 'VirtualFree'"),
        ("map_view_file", "evt.name = 'MapViewFile'"),
        ("unmap_view_file", "evt.name = 'UnmapViewFile'"),
        ("duplicate_handle", "evt.name = 'DuplicateHandle'"),
        ("create_handle", "evt.name = 'CreateHandle'"),
        ("query_dns", "evt.name = 'QueryDns'"),
        ("reply_dns", "evt.name = 'ReplyDns'"),
        ("create_remote_thread", "evt.name = 'CreateThread' and evt.pid != 4 and evt.pid != thread.pid"),
        ("open_file", "evt.name = 'CreateFile' and file.operation = 'OPEN' and file.status = 'Success'"),
        ("create_file", "evt.name = 'CreateFile' and file.operation != 'OPEN' and file.status = 'Success'"),
        ("create_new_file", "evt.name = 'CreateFile' and file.operation = 'CREATE' and file.status = 'Success'"),
        ("create_file_supersede", "evt.name = 'CreateFile' and file.operation = 'SUPERSEDE'"),
        ("set_value", "evt.name = 'RegSetValue' and registry.status = 'Success'"),
        ("create_key", "evt.name = 'RegCreateKey' and registry.status = 'Success'"),
        ("open_process", "evt.name = 'OpenProcess' and ps.access.status = 'Success'"),
        ("open_thread", "evt.name = 'OpenThread' and thread.access.status = 'Success'"),
        ("open_registry", "evt.name = 'RegOpenKey' and registry.status = 'Success'"),
    ];
    assert(pair_texts(table@) =~= macro_table());
    table
}

/// Whether this name is a known Fibratus expression macro.
pub fn is_known_macro(name: &str) -> (res: bool)
    ensures
        res == exists|k: int| 0 <= k < macro_table().len() && (#[trigger] macro_table()[k]).0 == name@,
{
    let table = expression_macros();
    let mut i: usize = 0;
    while i < table.len()
        invariant
            0 <= i <= table@.len(),
            pair_texts(table@) == macro_table(),
            forall|k: int| 0 <= k < i ==> (#[trigger] macro_table()[k]).0 != name@,
        decreases table@.len() - i,
    {
        assert(macro_table()[i as int] == pair_texts(table@)[i as int]);
        if text::same_text(table[i].0, name) {
            return true;
        }
        i = i + 1;
    }
    assert(macro_table().len() == table@.len());
    false
}

/// The accepted forms of each clause of macro `k`.
pub open spec fn macro_forms(k: int) -> Seq<Seq<Seq<char>>> {
    source_clauses(macro_table()[k].1).map_values(|c: Seq<char>| clause_forms(c))
}

/// The accepted forms held by a table of strings.
pub open spec fn form_texts(v: Seq<Vec<String>>) -> Seq<Seq<Seq<char>>> {
    v.map_values(|f: Vec<String>| text::texts(f@))
}

/// The clauses are as many as `forms` has entries, and each is one of the
/// accepted forms at its own place.
pub open spec fn all_accepted(run: Seq<Seq<char>>, forms: Seq<Seq<Seq<char>>>) -> bool {
    run.len() == forms.len() && forall|j: int|
        0 <= j < forms.len() ==> (#[trigger] forms[j]).contains(text::trimmed(run[j]))
}

/// Macro `k` stands for the clauses from position `i` on.
pub open spec fn macro_applies(clauses: Seq<Seq<char>>, i: int, k: int) -> bool {
    let n = macro_forms(k).len();
    0 < n && 0 <= i && i + n <= clauses.len() && all_accepted(
        clauses.subrange(i, i + n),
        macro_forms(k),
    )
}

/// Of the first `n` macros those that stand for the clauses from position `i` on,
/// and of these the first of the longest.
pub open spec fn best_macro(clauses: Seq<Seq<char>>, i: int, n: int) -> Option<int>
    decreases n,
{
    if n <= 0 {
        None
    } else {
        let k = n - 1;
        match best_macro(clauses, i, k) {
            None => if macro_applies(clauses, i, k) {
                Some(k)
            } else {
                None
            },
            Some(b) => if macro_applies(clauses, i, k) && macro_forms(k).len() > macro_forms(
                b,
            ).len() {
                Some(k)
            } else {
                Some(b)
            },
        }
    }
}

/// The clauses from position `i` on, with each run that a macro stands for
/// replaced by the macro's name, the longest macro first.
pub open spec fn folded(clauses: Seq<Seq<char>>, i: int) -> Seq<Seq<char>>
    decreases clauses.len() - i,
{
    if !(0 <= i < clauses.len()) {
        Seq::empty()
    } else {
        match best_macro(clauses, i, macro_table().len() as int) {
            Some(k) => if macro_applies(clauses, i, k) {
                seq![macro_table()[k].0] + folded(clauses, i + macro_forms(k).len())
            } else {
                Seq::empty()
            },
            None => seq![clauses[i]] + folded(clauses, i + 1),
        }
    }
}

/// Some macro stands for some run of the clauses.
pub open spec fn some_macro_applies(clauses: Seq<Seq<char>>) -> bool {
    exists|i: int, k: int|
        0 <= k < macro_table().len() && #[trigger] macro_applies(clauses, i, k)
}

/// A filter expression with the macros in it recognized.
pub open spec fn recognized(condition: Seq<char>) -> Seq<char> {
    if some_macro_applies(clauses(condition)) {
        text::join(folded(clauses(condition), 0), " and "@)
    } else {
        condition
    }
}

/// The macro that is chosen stands for the clauses, and no macro that stands for
/// them is longer.
pub proof fn lemma_longest_macro_wins(clauses: Seq<Seq<char>>, i: int, n: int)
    requires
        0 <= n,
    ensures
        match best_macro(clauses, i, n) {
            Some(b) => 0 <= b < n && macro_applies(clauses, i, b) && forall|k: int|
                0 <= k < n && #[trigger] macro_applies(clauses, i, k) ==> macro_forms(k).len()
                    <= macro_forms(b).len(),
            None => forall|k: int| 0 <= k < n ==> !#[trigger] macro_applies(clauses, i, k),
        },
    decreases n,
{
    if n > 0 {
        lemma_longest_macro_wins(clauses, i, n - 1);
    }
}

/// An expression to which no macro applies comes out as it went in, character
/// for character.
pub proof fn lemma_unrecognized_is_unchanged(condition: Seq<char>)
    requires
        !some_macro_applies(clauses(condition)),
    ensures
        recognized(condition) == condition,
{
}

/// Recognition keeps the order of the clauses: a clause that begins no macro stays
/// as it is in front of what follows it, and a run that a macro stands for becomes
/// the macro's name in front of what follows the run.
pub proof fn lemma_clauses_keep_their_order(clauses: Seq<Seq<char>>, i: int)
    requires
        0 <= i < clauses.len(),
    ensures
        folded(clauses, i).len() >= 1,
        match best_macro(clauses, i, macro_table().len() as int) {
            Some(k) => folded(clauses, i)[0] == macro_table()[k].0 && folded(clauses, i).skip(1)
                == folded(clauses, i + macro_forms(k).len()),
            None => folded(clauses, i)[0] == clauses[i] && folded(clauses, i).skip(1) == folded(
                clauses,
                i + 1,
            ),
        },
{
    lemma_longest_macro_wins(clauses, i, macro_table().len() as int);
    match best_macro(clauses, i, macro_table().len() as int) {
        Some(k) => {
            let rest = folded(clauses, i + macro_forms(k).len());
            assert(folded(clauses, i).skip(1) =~= rest);
        },
        None => {
            assert(folded(clauses, i).skip(1) =~= folded(clauses, i + 1));
        },
    }
}

/// `got` renders the clause of a macro: as it stands, as a case-insensitive equality,
/// or, if it is an inequality, as a negated equality; one that ignores case only
/// against a literal.
pub open spec fn renders(got: Seq<char>, clause: Seq<char>) -> bool {
    let c = text::trimmed(clause);
    let g = text::trimmed(got);
    ||| g == c
    ||| g == ci_eq(c)
    ||| neq_sides(c) matches Some((lhs, rhs)) && g == "not ("@ + text::trimmed(lhs) + " = "@
        + text::trimmed(rhs) + ")"@
    ||| neq_sides(c) matches Some((lhs, rhs)) && text::begins(text::trimmed(rhs), "'"@) && g
        == "not ("@ + text::trimmed(lhs) + " ~= "@ + text::trimmed(rhs) + ")"@
}

/// A macro stands for a run of clauses that render its own, each in a form of its
/// own choice: whether case counts in one of them is of no account.
pub proof fn lemma_every_form_is_recognized(clauses: Seq<Seq<char>>, i: int, k: int)
    requires
        0 <= k < macro_table().len(),
        0 < source_clauses(macro_table()[k].1).len(),
        0 <= i,
        i + source_clauses(macro_table()[k].1).len() <= clauses.len(),
        forall|j: int|
            0 <= j < source_clauses(macro_table()[k].1).len() ==> renders(
                clauses[i + j],
                #[trigger] source_clauses(macro_table()[k].1)[j],
            ),
    ensures
        macro_applies(clauses, i, k),
{
    let own = source_clauses(macro_table()[k].1);
    let n = own.len();
    let run = clauses.subrange(i, i + n);
    assert forall|j: int| 0 <= j < n implies (#[trigger] macro_forms(k)[j]).contains(
        text::trimmed(run[j]),
    ) by {
        assert(run[j] == clauses[i + j]);
        assert(renders(clauses[i + j], own[j]));
        lemma_rendered(run[j], own[j]);
    }
}

/// What renders a clause is one of its accepted forms.
pub proof fn lemma_rendered(got: Seq<char>, clause: Seq<char>)
    requires
        renders(got, clause),
    ensures
        clause_forms(clause).contains(text::trimmed(got)),
{
    reveal_strlit("'");
    let c = text::trimmed(clause);
    let g = text::trimmed(got);
    let verbatim = if ci_eq(c) != c {
        seq![c, ci_eq(c)]
    } else {
        seq![c]
    };
    let forms = clause_forms(clause);
    let v = verbatim.len() as int;
    assert(forms[0] == c);
    if g == ci_eq(c) && ci_eq(c) != c {
        assert(forms[1] == g);
    } else if g != c {
        let (lhs, rhs) = neq_sides(c)->0;
        let more = negated_forms(text::trimmed(lhs), text::trimmed(rhs));
        assert(forms == verbatim + more);
        assert(forms[v] == more[0]);
        if g != more[0] {
            assert(text::trimmed(rhs)[0] == "'"@[0]);
            assert(forms[v + 1] == more[1]);
        }
    }
}

/// A macro with the accepted forms of each of its clauses.
pub struct MacroClauses {
    pub name: &'static str,
    pub forms: Vec<Vec<String>>,
}

/// `m` is macro `k` of the library.
pub open spec fn is_macro(m: MacroClauses, k: int) -> bool {
    m.name@ == macro_table()[k].0 && form_texts(m.forms@) == macro_forms(k)
}

/// The macro library with the accepted forms of each clause.
fn macro_clauses() -> (res: Vec<MacroClauses>)
    ensures
        res@.len() == macro_table().len(),
        forall|k: int| 0 <= k < res@.len() ==> is_macro(#[trigger] res@[k], k),
{
    let table = expression_macros();
    let mut out: Vec<MacroClauses> = Vec::new();
    let mut i: usize = 0;
    assert(pair_texts(table@).len() == table@.len());
    while i < table.len()
        invariant
            0 <= i <= table@.len(),
            pair_texts(table@) == macro_table(),
            out@.len() == i,
            forall|k: int| 0 <= k < i ==> is_macro(#[trigger] out@[k], k),
        decreases table@.len() - i,
    {
        assert(macro_table()[i as int] == pair_texts(table@)[i as int]);
        let parts: Vec<String> = split_clauses(table[i].1);
        let mut forms: Vec<Vec<String>> = Vec::new();
        let mut j: usize = 0;
        while j < parts.len()
            invariant
                0 <= j <= parts@.len(),
                0 <= i < table@.len(),
                text::texts(parts@) == source_clauses(macro_table()[i as int].1),
                form_texts(forms@) == macro_forms(i as int).take(j as int),
            decreases parts@.len() - j,
        {
            let ghost before = forms@;
            forms.push(accepted_clause_forms(parts[j].as_str()));
            assert(text::texts(parts@)[j as int] == parts@[j as int]@);
            assert(form_texts(forms@) =~= form_texts(before).push(macro_forms(i as int)[j as int]));
            assert(macro_forms(i as int).take(j + 1) =~= macro_forms(i as int).take(j as int).push(
                macro_forms(i as int)[j as int],
            ));
            j = j + 1;
        }
        assert(macro_forms(i as int).take(j as int) =~= macro_forms(i as int));
        out.push(MacroClauses { name: table[i].0, forms });
        i = i + 1;
    }
    out
}

/// Whether the clauses are those of a macro, each compared with its own accepted
/// forms.
pub fn clauses_match(run: &[String], clause_forms: &[Vec<String>]) -> (res: bool)
    ensures
        res == all_accepted(text::texts(run@), form_texts(clause_forms@)),
{
    if run.len() != clause_forms.len() {
        return false;
    }
    let mut i: usize = 0;
    while i < run.len()
        invariant
            0 <= i <= run@.len(),
            run@.len() == clause_forms@.len(),
            forall|j: int|
                0 <= j < i ==> (#[trigger] form_texts(clause_forms@)[j]).contains(
                    text::trimmed(text::texts(run@)[j]),
                ),
        decreases run@.len() - i,
    {
        let chars: Vec<char> = text::chars_of(run[i].as_str());
        let got: String = text::string_of(text::trim(&chars));
        let accepted: &Vec<String> = &clause_forms[i];
        let ghost wanted = form_texts(clause_forms@)[i as int];
        assert(wanted == text::texts(accepted@));
        let mut found: bool = false;
        let mut f: usize = 0;
        while f < accepted.len() && !found
            invariant
                0 <= f <= accepted@.len(),
                wanted == text::texts(accepted@),
                found ==> wanted.contains(got@),
                !found ==> forall|g: int| 0 <= g < f ==> wanted[g] != got@,
            decreases accepted@.len() - f,
        {
            if accepted[f] == got {
                found = true;
                assert(wanted[f as int] == got@);
            }
            f = f + 1;
        }
        assert(got@ == text::trimmed(text::texts(run@)[i as int]));
        if !found {
            assert(!wanted.contains(got@));
            return false;
        }
        i = i + 1;
    }
    true
}

/// The first of the longest macros that stand for the clauses from `i` on.
fn find_macro(parts: &Vec<String>, i: usize, macros: &Vec<MacroClauses>) -> (res: Option<usize>)
    requires
        i < parts@.len(),
        macros@.len() == macro_table().len(),
        forall|k: int| 0 <= k < macros@.len() ==> is_macro(#[trigger] macros@[k], k),
    ensures
        match res {
            Some(k) => best_macro(text::texts(parts@), i as int, macro_table().len() as int)
                == Some(k as int),
            None => best_macro(text::texts(parts@), i as int, macro_table().len() as int) is None,
        },
{
    let mut best: Option<usize> = None;
    let ghost all = text::texts(parts@);
    let mut k: usize = 0;
    while k < macros.len()
        invariant
            0 <= k <= macros@.len(),
            i < parts@.len(),
            all == text::texts(parts@),
            macros@.len() == macro_table().len(),
            forall|j: int| 0 <= j < macros@.len() ==> is_macro(#[trigger] macros@[j], j),
            match best {
                Some(b) => b < k && best_macro(all, i as int, k as int) == Some(b as int),
                None => best_macro(all, i as int, k as int) is None,
            },
        decreases macros@.len() - k,
    {
        let forms: &Vec<Vec<String>> = &macros[k].forms;
        let n: usize = forms.len();
        assert(is_macro(macros@[k as int], k as int));
        assert(macro_forms(k as int).len() == n);
        let mut applies: bool = false;
        if n > 0 && n <= parts.len() - i {
            applies = clauses_match(&parts[i..i + n], forms);
            assert(text::texts(parts@.subrange(i as int, i + n)) =~= all.subrange(i as int, i + n));
        }
        assert(applies == macro_applies(all, i as int, k as int));
        let better: bool = match best {
            None => true,
            Some(b) => {
                assert(is_macro(macros@[b as int], b as int));
                assert(macro_forms(b as int).len() == macros@[b as int].forms@.len());
                n > macros[b].forms.len()
            },
        };
        if applies && better {
            best = Some(k);
        }
        k = k + 1;
    }
    best
}

/// Rewrite a Fibratus filter expression so that each run of clauses that a macro
/// stands for is replaced by the macro's name. The longest macro wins, clauses
/// keep their order, and an expression without macros is returned as it is.
pub fn recognize(condition: &str) -> (res: String)
    ensures
        res@ == recognized(condition@),
{
    let parts: Vec<String> = split_top_level_and(condition);
    let macros: Vec<MacroClauses> = macro_clauses();
    let ghost all = text::texts(parts@);
    let mut out: Vec<String> = Vec::new();
    let mut any: bool = false;
    let mut i: usize = 0;
    assert(text::texts(out@) + folded(all, 0) =~= folded(all, 0));
    while i < parts.len()
        invariant
            0 <= i <= parts@.len(),
            all == text::texts(parts@),
            macros@.len() == macro_table().len(),
            forall|k: int| 0 <= k < macros@.len() ==> is_macro(#[trigger] macros@[k], k),
            folded(all, 0) == text::texts(out@) + folded(all, i as int),
            any ==> some_macro_applies(all),
            !any ==> forall|a: int, k: int|
                0 <= a < i && 0 <= k < macro_table().len() ==> !#[trigger] macro_applies(all, a, k),
        decreases parts@.len() - i,
    {
        let ghost before = out@;
        let found: Option<usize> = find_macro(&parts, i, &macros);
        proof {
            lemma_longest_macro_wins(all, i as int, macro_table().len() as int);
        }
        match found {
            Some(k) => {
                assert(is_macro(macros@[k as int], k as int));
                assert(macro_forms(k as int).len() == macros@[k as int].forms@.len());
                out.push(macros[k].name.to_owned());
                any = true;
                assert(text::texts(out@) =~= text::texts(before).push(macro_table()[k as int].0));
                assert(folded(all, 0) =~= text::texts(out@) + folded(
                    all,
                    i + macro_forms(k as int).len(),
                ));
                i = i + macros[k].forms.len();
            },
            None => {
                out.push(parts[i].clone());
                assert(text::texts(out@) =~= text::texts(before).push(all[i as int]));
                assert(folded(all, 0) =~= text::texts(out@) + folded(all, i + 1));
                i = i + 1;
            },
        }
    }
    if !any {
        assert(!some_macro_applies(all)) by {
            assert forall|a: int, k: int|
                0 <= k < macro_table().len() implies !#[trigger] macro_applies(all, a, k) by {}
        }
        return condition.to_owned();
    }
    assert(folded(all, 0) =~= text::texts(out@));
    text::join_strings(&out, " and ")
}

} // verus!
