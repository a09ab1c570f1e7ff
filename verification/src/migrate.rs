//! Moving the `sources:` blocks of pipeline files into files of their own.

use crate::table;
use crate::text;
use vstd::prelude::*;
use vstd::utf8;

verus! {

// ---------------------------------------------------------------------------
// Lines
// ---------------------------------------------------------------------------

/// The line opens a block of sources: it holds the key `sources:`, and behind it at
/// most a comment, with white space in between.
pub open spec fn opens_sources(line: Seq<char>) -> bool {
    let key = text::trimmed(line);
    text::begins(key, "sources:"@) && nothing_or_comment(key.skip("sources:"@.len() as int))
}

/// Behind a key: nothing, or white space and then a comment.
pub open spec fn nothing_or_comment(rest: Seq<char>) -> bool {
    rest.len() == 0 || (0 < text::lead(rest) < rest.len() && rest[text::lead(rest)] == '#')
}

/// The line stands behind a block of sources: it is not empty, not indented and no
/// list item.
pub open spec fn closes_sources(line: Seq<char>) -> bool {
    &&& !opens_sources(line)
    &&& text::trimmed(line).len() > 0
    &&& !text::begins(line, " "@)
    &&& !text::begins(line, "\t"@)
    &&& !text::begins(text::trimmed(line), "-"@)
}

/// The line begins a source.
pub open spec fn begins_source(line: Seq<char>) -> bool {
    text::begins(text::trimmed(line), "- id:"@) || text::begins(text::trimmed(line), "-  id:"@)
}

/// `s` without the copies of `p` that it begins with.
pub open spec fn without_prefixes(s: Seq<char>, p: Seq<char>) -> Seq<char>
    decreases s.len(),
{
    if p.len() > 0 && text::begins(s, p) {
        without_prefixes(s.skip(p.len() as int), p)
    } else {
        s
    }
}

/// The ID that a line gives.
pub open spec fn id_value(line: Seq<char>) -> Seq<char> {
    text::trimmed(without_prefixes(without_prefixes(text::trimmed(line), "- id:"@), "-  id:"@))
}

/// The line begins the source with that ID, plain or in double quotes.
pub open spec fn begins_this(line: Seq<char>, id: Seq<char>) -> bool {
    begins_source(line) && (id_value(line) == id || id_value(line) == "\""@ + id + "\""@)
}

/// The line begins a source with another ID.
pub open spec fn begins_other(line: Seq<char>, id: Seq<char>) -> bool {
    begins_source(line) && !begins_this(line, id)
}

/// The first line from `from` on, before `to`, of which `test` holds; `to` if there
/// is none.
pub open spec fn first_line(
    lines: Seq<Seq<char>>,
    from: int,
    to: int,
    test: spec_fn(Seq<char>) -> bool,
) -> int
    decreases to - from,
{
    if from >= to {
        to
    } else if test(lines[from]) {
        from
    } else {
        first_line(lines, from + 1, to, test)
    }
}

/// The last line from `from` on, before `to`, of which `test` holds.
pub open spec fn last_line(
    lines: Seq<Seq<char>>,
    from: int,
    to: int,
    test: spec_fn(Seq<char>) -> bool,
) -> Option<int>
    decreases to - from,
{
    if from >= to {
        None
    } else if test(lines[to - 1]) {
        Some(to - 1)
    } else {
        last_line(lines, from, to - 1, test)
    }
}

/// Lines, each with a line feed behind it.
pub open spec fn with_feeds(lines: Seq<Seq<char>>) -> Seq<char>
    decreases lines.len(),
{
    if lines.len() == 0 {
        Seq::empty()
    } else {
        with_feeds(lines.drop_last()) + lines.last() + "\n"@
    }
}

/// Where the first block of sources opens.
pub open spec fn block_start(lines: Seq<Seq<char>>) -> int {
    first_line(lines, 0, lines.len() as int, |l: Seq<char>| opens_sources(l))
}

/// Where that block ends.
pub open spec fn block_end(lines: Seq<Seq<char>>) -> int {
    first_line(
        lines,
        block_start(lines) + 1,
        lines.len() as int,
        |l: Seq<char>| closes_sources(l),
    )
}

/// The lines of the source with that ID: from the last line of the block that begins
/// it up to the next source or the end of the block.
pub open spec fn source_lines(lines: Seq<Seq<char>>, id: Seq<char>) -> Option<Seq<Seq<char>>> {
    match last_line(
        lines,
        block_start(lines) + 1,
        block_end(lines),
        |l: Seq<char>| begins_this(l, id),
    ) {
        None => None,
        Some(start) => Some(
            lines.subrange(
                start,
                first_line(
                    lines,
                    start + 1,
                    block_end(lines),
                    |l: Seq<char>| begins_other(l, id),
                ),
            ),
        ),
    }
}

/// The text of the source with that ID, or a bare entry if the block has none.
pub open spec fn source_text(content: Seq<char>, id: Seq<char>) -> Seq<char> {
    match source_lines(text::lines(content), id) {
        Some(lines) => with_feeds(lines),
        None => "  - id: "@ + id + "\n"@,
    }
}

fn is_text(s: &[char], t: &str) -> (res: bool)
    ensures
        res == (s@ == t@),
{
    let chars: Vec<char> = text::chars_of(t);
    text::same_chars(s, &chars)
}

fn begins_with(s: &[char], p: &str) -> (res: bool)
    ensures
        res == text::begins(s@, p@),
{
    let chars: Vec<char> = text::chars_of(p);
    text::starts_with(s, &chars)
}

fn is_opening(line: &[char]) -> (res: bool)
    ensures
        res == opens_sources(line@),
{
    let key: &[char] = text::trim(line);
    if !begins_with(key, "sources:") {
        return false;
    }
    proof {
        reveal_strlit("sources:");
    }
    let n: usize = key.len();
    let rest: &[char] = &key[8..n];
    assert(rest@ =~= key@.skip(8));
    let k: usize = text::leading_white(rest);
    rest.len() == 0 || (0 < k && k < rest.len() && rest[k] == '#')
}

fn is_closing(line: &[char]) -> (res: bool)
    ensures
        res == closes_sources(line@),
{
    let trimmed: &[char] = text::trim(line);
    !is_opening(line) && trimmed.len() > 0 && !begins_with(line, " ") && !begins_with(line, "\t")
        && !begins_with(trimmed, "-")
}

fn is_source_line(line: &[char]) -> (res: bool)
    ensures
        res == begins_source(line@),
{
    let trimmed: &[char] = text::trim(line);
    begins_with(trimmed, "- id:") || begins_with(trimmed, "-  id:")
}

/// `s` without the copies of `p` that it begins with.
fn strip_prefixes<'a>(s: &'a [char], p: &[char]) -> (res: &'a [char])
    requires
        p@.len() > 0,
    ensures
        res@ == without_prefixes(s@, p@),
    decreases s@.len(),
{
    if text::starts_with(s, p) {
        let rest: &[char] = &s[p.len()..s.len()];
        assert(rest@ =~= s@.skip(p@.len() as int));
        strip_prefixes(rest, p)
    } else {
        s
    }
}

fn is_line_of(line: &[char], id: &[char]) -> (res: bool)
    ensures
        res == begins_this(line@, id@),
{
    if !is_source_line(line) {
        return false;
    }
    proof {
        reveal_strlit("- id:");
        reveal_strlit("-  id:");
        reveal_strlit("\"");
    }
    let one: Vec<char> = text::chars_of("- id:");
    let two: Vec<char> = text::chars_of("-  id:");
    let value: &[char] = text::trim(strip_prefixes(strip_prefixes(text::trim(line), &one), &two));
    if text::same_chars(value, id) {
        return true;
    }
    let n: usize = value.len();
    let quoted: bool = n >= 2 && value[0] == '"' && value[n - 1] == '"' && text::same_chars(
        &value[1..n - 1],
        id,
    );
    assert(quoted == (value@ == "\""@ + id@ + "\""@)) by {
        if quoted {
            assert(value@.subrange(1, n - 1) == id@);
            assert(value@ =~= "\""@ + value@.subrange(1, n - 1) + "\""@);
        }
        if value@ == "\""@ + id@ + "\""@ {
            assert(value@.subrange(1, n - 1) =~= id@);
        }
    }
    quoted
}

/// Lines, each with a line feed behind it.
fn feed_lines(lines: &[Vec<char>]) -> (res: String)
    ensures
        res@ == with_feeds(text::char_texts(lines@)),
{
    let ghost all = text::char_texts(lines@);
    let mut out: String = String::new();
    let mut i: usize = 0;
    assert(all.take(0) =~= Seq::empty());
    while i < lines.len()
        invariant
            0 <= i <= lines@.len(),
            all == text::char_texts(lines@),
            out@ == with_feeds(all.take(i as int)),
        decreases lines@.len() - i,
    {
        assert(all.take(i + 1).drop_last() =~= all.take(i as int));
        out.append(text::string_of(&lines[i]).as_str());
        out.append("\n");
        i = i + 1;
    }
    assert(all.take(i as int) =~= all);
    out
}

fn find_opening(lines: &Vec<Vec<char>>) -> (res: usize)
    ensures
        res == block_start(text::char_texts(lines@)),
        res <= lines@.len(),
{
    let ghost all = text::char_texts(lines@);
    let ghost test = |l: Seq<char>| opens_sources(l);
    let mut i: usize = 0;
    while i < lines.len()
        invariant
            0 <= i <= lines@.len(),
            all == text::char_texts(lines@),
            test == (|l: Seq<char>| opens_sources(l)),
            first_line(all, 0, all.len() as int, test) == first_line(
                all,
                i as int,
                all.len() as int,
                test,
            ),
        decreases lines@.len() - i,
    {
        assert(all[i as int] == lines@[i as int]@);
        if is_opening(&lines[i]) {
            return i;
        }
        i = i + 1;
    }
    i
}

fn find_closing(lines: &Vec<Vec<char>>, from: usize) -> (res: usize)
    requires
        from <= lines@.len(),
    ensures
        res == first_line(
            text::char_texts(lines@),
            from as int,
            lines@.len() as int,
            |l: Seq<char>| closes_sources(l),
        ),
        from <= res <= lines@.len(),
{
    let ghost all = text::char_texts(lines@);
    let ghost test = |l: Seq<char>| closes_sources(l);
    let mut i: usize = from;
    while i < lines.len()
        invariant
            from <= i <= lines@.len(),
            all == text::char_texts(lines@),
            test == (|l: Seq<char>| closes_sources(l)),
            first_line(all, from as int, all.len() as int, test) == first_line(
                all,
                i as int,
                all.len() as int,
                test,
            ),
        decreases lines@.len() - i,
    {
        assert(all[i as int] == lines@[i as int]@);
        if is_closing(&lines[i]) {
            return i;
        }
        i = i + 1;
    }
    i
}

/// The text of the source with that ID, if the block has one.
fn find_source(content: &str, source_id: &str) -> (res: Option<String>)
    ensures
        match source_lines(text::lines(content@), source_id@) {
            Some(lines) => res matches Some(found) && found@ == with_feeds(lines),
            None => res is None,
        },
{
    let chars: Vec<char> = text::chars_of(content);
    let lines: Vec<Vec<char>> = text::lines_of(&chars);
    let id: Vec<char> = text::chars_of(source_id);
    let ghost all = text::char_texts(lines@);
    let ghost this = |l: Seq<char>| begins_this(l, id@);
    let ghost other = |l: Seq<char>| begins_other(l, id@);
    let open: usize = find_opening(&lines);
    let mut found: Option<usize> = None;
    if open < lines.len() {
        let close: usize = find_closing(&lines, open + 1);
        let mut i: usize = close;
        while i > open + 1
            invariant_except_break
                found is None,
                last_line(all, open + 1, close as int, this) == last_line(
                    all,
                    open + 1,
                    i as int,
                    this,
                ),
            invariant
                open < i <= close <= lines@.len(),
                all == text::char_texts(lines@),
                this == (|l: Seq<char>| begins_this(l, id@)),
            ensures
                match found {
                    Some(start) => last_line(all, open + 1, close as int, this) == Some(
                        start as int,
                    ) && open < start < close,
                    None => last_line(all, open + 1, close as int, this) is None,
                },
            decreases i,
        {
            assert(all[i - 1] == lines@[i - 1]@);
            if is_line_of(&lines[i - 1], &id) {
                found = Some(i - 1);
                break;
            }
            i = i - 1;
        }
        if let Some(start) = found {
            let mut end: usize = start + 1;
            while end < close && !(is_source_line(&lines[end]) && !is_line_of(&lines[end], &id))
                invariant
                    start < end <= close <= lines@.len(),
                    all == text::char_texts(lines@),
                    other == (|l: Seq<char>| begins_other(l, id@)),
                    first_line(all, start + 1, close as int, other) == first_line(
                        all,
                        end as int,
                        close as int,
                        other,
                    ),
                decreases close - end,
            {
                assert(all[end as int] == lines@[end as int]@);
                end = end + 1;
            }
            assert(first_line(all, end as int, close as int, other) == end) by {
                if end < close {
                    assert(all[end as int] == lines@[end as int]@);
                }
            }
            let part: &[Vec<char>] = &lines[start..end];
            assert(text::char_texts(part@) =~= all.subrange(start as int, end as int));
            return Some(feed_lines(part));
        }
    }
    None
}

/// Extract the text of one source from a pipeline file, comments and all.
pub fn extract_source_yaml(content: &str, source_id: &str) -> (res: String)
    ensures
        res@ == source_text(content@, source_id@),
{
    match find_source(content, source_id) {
        Some(found) => found,
        None => bare_entry(source_id),
    }
}

/// An entry with an ID and nothing else.
fn bare_entry(source_id: &str) -> (res: String)
    ensures
        res@ == "  - id: "@ + source_id@ + "\n"@,
{
    let mut out: String = "  - id: ".to_owned();
    out.append(source_id);
    out.append("\n");
    out
}

// ---------------------------------------------------------------------------
// Writing sources
// ---------------------------------------------------------------------------

/// The text of one source, as it stands in a pipeline file.
#[derive(Clone, Debug)]
pub struct ExtractedSource {
    pub raw_yaml: String,
}

impl View for ExtractedSource {
    type V = Seq<char>;

    open spec fn view(&self) -> Seq<char> {
        self.raw_yaml@
    }
}

/// The indent of the line that begins the source to which the last of the lines
/// belongs.
pub open spec fn entry_indent(lines: Seq<Seq<char>>) -> Option<int>
    decreases lines.len(),
{
    if lines.len() == 0 {
        None
    } else if begins_source(lines.last()) {
        Some(text::lead(lines.last()))
    } else {
        entry_indent(lines.drop_last())
    }
}

/// How much deeper than the entry a line lies, `entry` being the indent of the line
/// that begins the entry. A line in front of any entry counts as a key of one.
pub open spec fn depth_in_entry(line: Seq<char>, entry: Option<int>) -> nat {
    match entry {
        None => 2,
        Some(indent) => if text::lead(line) > indent {
            (text::lead(line) - indent) as nat
        } else {
            0
        },
    }
}

/// So many spaces.
pub open spec fn spaces(n: nat) -> Seq<char> {
    Seq::new(n, |i: int| ' ')
}

/// A line of a source as it is written: the entry begins at two spaces, and the line
/// lies as much deeper than that as it did; empty lines are left out.
pub open spec fn written_line(line: Seq<char>, entry: Option<int>) -> Seq<char> {
    if text::trimmed(line).len() == 0 {
        Seq::empty()
    } else {
        "  "@ + spaces(depth_in_entry(line, entry)) + text::trimmed(line) + "\n"@
    }
}

/// The lines as they are written.
pub open spec fn written_lines(lines: Seq<Seq<char>>) -> Seq<char>
    decreases lines.len(),
{
    if lines.len() == 0 {
        Seq::empty()
    } else {
        written_lines(lines.drop_last()) + written_line(lines.last(), entry_indent(lines))
    }
}

/// The sources as they are written.
pub open spec fn written_sources(sources: Seq<Seq<char>>) -> Seq<char>
    decreases sources.len(),
{
    if sources.len() == 0 {
        Seq::empty()
    } else {
        written_sources(sources.drop_last()) + written_lines(text::lines(sources.last()))
    }
}

/// What the sources are.
pub open spec fn source_texts(sources: Seq<ExtractedSource>) -> Seq<Seq<char>> {
    sources.map_values(|s: ExtractedSource| s@)
}

/// A file of sources.
pub open spec fn sources_file(sources: Seq<Seq<char>>) -> Seq<char> {
    "sources:\n"@ + written_sources(sources)
}

/// Append so many spaces.
fn push_spaces(out: &mut String, n: usize)
    ensures
        final(out)@ == old(out)@ + spaces(n as nat),
{
    let ghost before = out@;
    let mut i: usize = 0;
    assert(out@ =~= before + spaces(0));
    while i < n
        invariant
            0 <= i <= n,
            out@ == before + spaces(i as nat),
        decreases n - i,
    {
        out.push(' ');
        assert(out@ =~= before + spaces((i + 1) as nat));
        i = i + 1;
    }
}

/// Append the lines of one source.
fn write_source(out: &mut String, raw_yaml: &str)
    ensures
        final(out)@ == old(out)@ + written_lines(text::lines(raw_yaml@)),
{
    let ghost before = out@;
    let chars: Vec<char> = text::chars_of(raw_yaml);
    let lines: Vec<Vec<char>> = text::lines_of(&chars);
    let ghost all = text::char_texts(lines@);
    let mut entry: Option<usize> = None;
    let ghost mut indent: Option<int> = None;
    let mut i: usize = 0;
    assert(all.take(0) =~= Seq::empty());
    assert(out@ =~= before + written_lines(all.take(0)));
    while i < lines.len()
        invariant
            0 <= i <= lines@.len(),
            all == text::char_texts(lines@),
            match entry {
                Some(n) => indent == Some(n as int),
                None => indent is None,
            },
            indent == entry_indent(all.take(i as int)),
            out@ == before + written_lines(all.take(i as int)),
        decreases lines@.len() - i,
    {
        assert(all.take(i + 1).drop_last() =~= all.take(i as int));
        assert(all[i as int] == lines@[i as int]@);
        let ghost earlier = out@;
        let lead: usize = text::leading_white(&lines[i]);
        if is_source_line(&lines[i]) {
            entry = Some(lead);
            proof {
                indent = Some(lead as int);
            }
        }
        let trimmed: &[char] = text::trim(&lines[i]);
        if trimmed.len() > 0 {
            let depth: usize = match entry {
                None => 2,
                Some(n) => if lead > n {
                    lead - n
                } else {
                    0
                },
            };
            out.append("  ");
            push_spaces(out, depth);
            out.append(text::string_of(trimmed).as_str());
            out.append("\n");
        }
        assert(out@ =~= earlier + written_line(all[i as int], indent));
        assert(out@ =~= before + written_lines(all.take(i + 1)));
        i = i + 1;
    }
    assert(all.take(i as int) =~= all);
}

/// Build a complete sources file.
pub fn build_sources_yaml(sources: &[ExtractedSource]) -> (res: String)
    ensures
        res@ == sources_file(source_texts(sources@)),
{
    let ghost all = source_texts(sources@);
    let mut out: String = "sources:\n".to_owned();
    let mut i: usize = 0;
    assert(all.take(0) =~= Seq::empty());
    assert(out@ =~= "sources:\n"@ + written_sources(all.take(0)));
    while i < sources.len()
        invariant
            0 <= i <= sources@.len(),
            all == source_texts(sources@),
            out@ == "sources:\n"@ + written_sources(all.take(i as int)),
        decreases sources@.len() - i,
    {
        assert(all.take(i + 1).drop_last() =~= all.take(i as int));
        write_source(&mut out, sources[i].raw_yaml.as_str());
        assert(out@ =~= "sources:\n"@ + written_sources(all.take(i + 1)));
        i = i + 1;
    }
    assert(all.take(i as int) =~= all);
    out
}

// ---------------------------------------------------------------------------
// Removing a block of sources
// ---------------------------------------------------------------------------

/// How many bytes of white space a line begins with.
pub open spec fn indent(line: Seq<char>) -> nat {
    utf8::encode_utf8(line.take(text::lead(line))).len()
}

/// The line belongs to a block of sources that opens at the given indent: it is
/// empty, lies deeper, or is a list item that lies at least as deep.
pub open spec fn in_block(line: Seq<char>, depth: nat) -> bool {
    ||| text::trimmed(line).len() == 0
    ||| indent(line) > depth
    ||| text::begins(text::trimmed(line), "-"@) && indent(line) >= depth
}

/// The lines that stay; `block` is the indent of the block of sources that the first
/// of them may belong to.
pub open spec fn kept_lines(lines: Seq<Seq<char>>, block: Option<nat>) -> Seq<Seq<char>>
    decreases lines.len(),
{
    if lines.len() == 0 {
        Seq::empty()
    } else {
        match block {
            Some(depth) => if in_block(lines[0], depth) {
                kept_lines(lines.skip(1), block)
            } else {
                seq![lines[0]] + kept_lines(lines.skip(1), None)
            },
            None => if opens_sources(lines[0]) {
                kept_lines(lines.skip(1), Some(indent(lines[0])))
            } else {
                seq![lines[0]] + kept_lines(lines.skip(1), None)
            },
        }
    }
}

/// The text without its blocks of sources.
pub open spec fn stripped(content: Seq<char>) -> Seq<char> {
    let kept = text::join(kept_lines(text::lines(content), None), "\n"@);
    if text::ends(content, "\n"@) {
        kept + "\n"@
    } else {
        kept
    }
}

fn indent_of(line: &[char]) -> (res: usize)
    ensures
        res == indent(line@),
{
    let n: usize = text::leading_white(line);
    let s: String = text::string_of(&line[0..n]);
    assert(line@.subrange(0, n as int) =~= line@.take(n as int));
    s.as_str().as_bytes().len()
}

fn belongs(line: &[char], depth: usize) -> (res: bool)
    ensures
        res == in_block(line@, depth as nat),
{
    let trimmed: &[char] = text::trim(line);
    if trimmed.len() == 0 {
        return true;
    }
    let here: usize = indent_of(line);
    here > depth || (begins_with(trimmed, "-") && here >= depth)
}

/// Remove the blocks of sources from a pipeline file.
pub fn remove_sources_block(content: &str) -> (res: String)
    ensures
        res@ == stripped(content@),
{
    let chars: Vec<char> = text::chars_of(content);
    let lines: Vec<Vec<char>> = text::lines_of(&chars);
    let ghost all = text::char_texts(lines@);
    let mut kept: Vec<String> = Vec::new();
    let mut block: Option<usize> = None;
    let ghost mut depth: Option<nat> = None;
    let mut i: usize = 0;
    assert(all.skip(0) =~= all);
    assert(kept_lines(all, None) =~= text::texts(kept@) + kept_lines(all.skip(0), depth));
    while i < lines.len()
        invariant
            0 <= i <= lines@.len(),
            all == text::char_texts(lines@),
            match block {
                Some(d) => depth == Some(d as nat),
                None => depth is None,
            },
            kept_lines(all, None) == text::texts(kept@) + kept_lines(all.skip(i as int), depth),
        decreases lines@.len() - i,
    {
        let line: &Vec<char> = &lines[i];
        assert(all.skip(i as int)[0] == line@);
        assert(all.skip(i as int).skip(1) =~= all.skip(i + 1));
        let ghost before = kept@;
        let skipped: bool = match block {
            Some(d) => belongs(line, d),
            None => false,
        };
        if !skipped {
            if block.is_none() && is_opening(line) {
                let d: usize = indent_of(line);
                block = Some(d);
                proof {
                    depth = Some(d as nat);
                }
            } else {
                block = None;
                proof {
                    depth = None;
                }
                kept.push(text::string_of(line));
                assert(text::texts(kept@) =~= text::texts(before).push(line@));
            }
        }
        assert(kept_lines(all, None) =~= text::texts(kept@) + kept_lines(all.skip(i + 1), depth));
        i = i + 1;
    }
    assert(all.skip(i as int) =~= Seq::<Seq<char>>::empty());
    assert(kept_lines(all, None) =~= text::texts(kept@));
    let mut out: String = text::join_strings(&kept, "\n");
    let feed: Vec<char> = text::chars_of("\n");
    if text::ends_with(&chars, &feed) {
        out.append("\n");
    }
    out
}

// ---------------------------------------------------------------------------
// The migration
// ---------------------------------------------------------------------------

/// Where the sources go.
#[derive(Clone, Copy, PartialEq, Eq, Structural, Debug)]
pub enum Strategy {
    /// Into one file.
    Single,
    /// Into one file for each pipeline.
    PerPipeline,
}

/// The strategy of that name.
pub fn strategy_from_name(name: &str) -> (res: Option<Strategy>)
    ensures
        res == (if name@ == "single"@ {
            Some(Strategy::Single)
        } else if name@ == "per-pipeline"@ {
            Some(Strategy::PerPipeline)
        } else {
            None
        }),
{
    if text::same_text(name, "single") {
        Some(Strategy::Single)
    } else if text::same_text(name, "per-pipeline") {
        Some(Strategy::PerPipeline)
    } else {
        None
    }
}

/// The part of a file name in front of its extension. A dot that the name begins
/// with opens no extension.
pub open spec fn file_stem(name: Seq<char>) -> Seq<char> {
    let dot = text::find_last(name, '.');
    if dot > 0 {
        name.take(dot)
    } else {
        name
    }
}

/// The extension of a file name.
pub open spec fn file_extension(name: Seq<char>) -> Option<Seq<char>> {
    let dot = text::find_last(name, '.');
    if dot > 0 {
        Some(name.skip(dot + 1))
    } else {
        None
    }
}

/// Whether a file of a directory is taken for a pipeline.
pub fn is_pipeline_file(file_name: &str) -> (res: bool)
    ensures
        res == (file_extension(file_name@) == Some("yml"@) || file_extension(file_name@) == Some(
            "yaml"@,
        )),
{
    let name: Vec<char> = text::chars_of(file_name);
    let n: usize = name.len();
    match text::find_last_char(&name, '.') {
        Some(dot) if dot > 0 => {
            let rest: &[char] = &name[dot + 1..n];
            assert(rest@ =~= name@.skip(dot + 1));
            is_text(rest, "yml") || is_text(rest, "yaml")
        },
        _ => false,
    }
}

/// What the names of the files for a pipeline begin with: the stem of its file name,
/// or `sources` if that cannot be read.
pub open spec fn pipeline_stem(file_name: Option<&str>) -> Seq<char> {
    match file_name {
        Some(name) => file_stem(name@),
        None => "sources"@,
    }
}

/// The name of the file for the sources of a pipeline: the plain one, or, if `k` is
/// not 0, the one with that number.
pub open spec fn sources_name(stem: Seq<char>, k: nat) -> Seq<char> {
    if k == 0 {
        stem + "-sources.yml"@
    } else {
        stem + "-"@ + text::decimal(k) + "-sources.yml"@
    }
}

/// The first number from `k` on whose name is not taken.
pub open spec fn free_number(stem: Seq<char>, taken: Seq<Seq<char>>, k: nat) -> nat
    decreases taken.len() - k,
{
    if k < taken.len() && taken.contains(sources_name(stem, k)) {
        free_number(stem, taken, k + 1)
    } else {
        k
    }
}

/// The first name for the sources of a pipeline that is not taken.
pub open spec fn free_name(stem: Seq<char>, taken: Seq<Seq<char>>) -> Seq<char> {
    sources_name(stem, free_number(stem, taken, 0))
}

/// Different numbers give different names.
proof fn lemma_names_differ(stem: Seq<char>, a: nat, b: nat)
    requires
        sources_name(stem, a) == sources_name(stem, b),
    ensures
        a == b,
{
    reveal_strlit("-");
    let tail = "-sources.yml"@;
    let x = sources_name(stem, a);
    let y = sources_name(stem, b);
    if a != 0 && b != 0 {
        let n = stem.len() as int;
        let m = x.len() - tail.len();
        assert(x.subrange(n + 1, m) =~= text::decimal(a));
        assert(y.subrange(n + 1, m) =~= text::decimal(b));
        text::lemma_decimal_injective(a, b);
    } else {
        text::lemma_decimal_len(a);
        text::lemma_decimal_len(b);
    }
}

/// What [`free_number`] gives: every number before it has a name that is taken.
proof fn lemma_free_number(stem: Seq<char>, taken: Seq<Seq<char>>, k: nat)
    requires
        k <= taken.len(),
    ensures
        k <= free_number(stem, taken, k) <= taken.len(),
        forall|i: nat|
            k <= i < free_number(stem, taken, k) ==> taken.contains(
                #[trigger] sources_name(stem, i),
            ),
        free_number(stem, taken, k) < taken.len() ==> !taken.contains(
            sources_name(stem, free_number(stem, taken, k)),
        ),
    decreases taken.len() - k,
{
    if k < taken.len() && taken.contains(sources_name(stem, k)) {
        lemma_free_number(stem, taken, k + 1);
    }
}

/// The name that is chosen for the sources of a pipeline is not taken.
pub proof fn lemma_free_name_is_free(stem: Seq<char>, taken: Seq<Seq<char>>)
    ensures
        !taken.contains(free_name(stem, taken)),
{
    lemma_free_number(stem, taken, 0);
    let n = taken.len();
    if free_number(stem, taken, 0) == n && taken.contains(sources_name(stem, n)) {
        let names = Seq::new((n + 1) as nat, |i: int| sources_name(stem, i as nat));
        assert forall|i: int, j: int| 0 <= i < j < names.len() implies names[i] != names[j] by {
            if names[i] == names[j] {
                lemma_names_differ(stem, i as nat, j as nat);
            }
        }
        names.unique_seq_to_set();
        taken.lemma_cardinality_of_set();
        assert(names.to_set().subset_of(taken.to_set())) by {
            assert forall|x: Seq<char>| names.to_set().contains(x) implies taken.to_set().contains(
                x,
            ) by {
                let i = names.index_of(x);
                assert(names[i] == sources_name(stem, i as nat));
            }
        }
        vstd::set_lib::lemma_len_subset(names.to_set(), taken.to_set());
    }
}

/// What the names of the files for a pipeline begin with.
fn stem_of(file_name: Option<&str>) -> (res: String)
    ensures
        res@ == pipeline_stem(file_name),
{
    match file_name {
        Some(name) => {
            let chars: Vec<char> = text::chars_of(name);
            match text::find_last_char(&chars, '.') {
                Some(dot) if dot > 0 => {
                    let stem: &[char] = &chars[0..dot];
                    assert(stem@ =~= chars@.take(dot as int));
                    text::string_of(stem)
                },
                _ => name.to_owned(),
            }
        },
        None => "sources".to_owned(),
    }
}

fn number_name(stem: &str, k: usize) -> (res: String)
    ensures
        res@ == sources_name(stem@, k as nat),
{
    let mut out: String = stem.to_owned();
    if k > 0 {
        out.append("-");
        out.append(text::decimal_text(k as u64).as_str());
    }
    out.append("-sources.yml");
    out
}

/// The name of the file for the sources of a pipeline, the names of other such files
/// aside. A pipeline without a readable file name gives `sources`.
pub fn sources_file_name(file_name: Option<&str>) -> (res: String)
    ensures
        res@ == pipeline_stem(file_name) + "-sources.yml"@,
{
    number_name(stem_of(file_name).as_str(), 0)
}

/// The texts of the file names.
pub open spec fn file_names(pipelines: Seq<PipelineSourcesView>) -> Seq<Seq<char>> {
    pipelines.map_values(|p: PipelineSourcesView| p.file_name)
}

/// Whether a pipeline has files of that name.
fn is_taken(pipelines: &Vec<PipelineSources>, name: &str) -> (res: bool)
    ensures
        res == file_names(pipeline_views(pipelines@)).contains(name@),
{
    let ghost names = file_names(pipeline_views(pipelines@));
    let mut i: usize = 0;
    while i < pipelines.len()
        invariant
            0 <= i <= pipelines@.len(),
            names == file_names(pipeline_views(pipelines@)),
            forall|k: int| 0 <= k < i ==> #[trigger] names[k] != name@,
        decreases pipelines@.len() - i,
    {
        assert(names[i as int] == pipelines@[i as int].file_name@);
        if text::same_text(pipelines[i].file_name.as_str(), name) {
            return true;
        }
        i = i + 1;
    }
    assert(names.len() == pipelines@.len());
    false
}

/// Choose a name for the sources of a pipeline that no other pipeline has.
fn choose_name(pipelines: &Vec<PipelineSources>, file_name: Option<&str>) -> (res: String)
    ensures
        res@ == free_name(
            pipeline_stem(file_name),
            file_names(pipeline_views(pipelines@)),
        ),
{
    let ghost taken = file_names(pipeline_views(pipelines@));
    let stem: String = stem_of(file_name);
    let mut k: usize = 0;
    let mut name: String = number_name(stem.as_str(), 0);
    assert(taken.len() == pipelines@.len());
    while k < pipelines.len() && is_taken(pipelines, name.as_str())
        invariant
            k <= pipelines@.len(),
            taken == file_names(pipeline_views(pipelines@)),
            taken.len() == pipelines@.len(),
            name@ == sources_name(stem@, k as nat),
            free_number(stem@, taken, 0) == free_number(stem@, taken, k as nat),
        decreases pipelines@.len() - k,
    {
        k = k + 1;
        name = number_name(stem.as_str(), k);
    }
    name
}

/// Two declarations of one source ID.
#[derive(Debug)]
pub struct SourceConflict {
    pub id: String,
    pub first: String,
    pub second: String,
}

impl SourceConflict {
    /// The conflict in words.
    pub fn message(&self) -> (res: String)
        ensures
            res@ == "Error: source ID '"@ + self.id@ + "' declared in both '"@ + self.first@
                + "' and '"@ + self.second@ + "'. Resolve the conflict before migrating."@,
    {
        let mut out: String = "Error: source ID '".to_owned();
        out.append(self.id.as_str());
        out.append("' declared in both '");
        out.append(self.first.as_str());
        out.append("' and '");
        out.append(self.second.as_str());
        out.append("'. Resolve the conflict before migrating.");
        out
    }
}

/// The sources of one pipeline.
#[derive(Debug)]
pub struct PipelineSources {
    pub path: String,
    /// The name of the file for them.
    pub file_name: String,
    pub sources: Vec<ExtractedSource>,
}

/// What the sources of one pipeline are.
#[verifier::ext_equal]
pub struct PipelineSourcesView {
    pub path: Seq<char>,
    pub file_name: Seq<char>,
    pub sources: Seq<Seq<char>>,
}

impl View for PipelineSources {
    type V = PipelineSourcesView;

    open spec fn view(&self) -> PipelineSourcesView {
        PipelineSourcesView {
            path: self.path@,
            file_name: self.file_name@,
            sources: source_texts(self.sources@),
        }
    }
}

/// What the sources of the pipelines are.
pub open spec fn pipeline_views(pipelines: Seq<PipelineSources>) -> Seq<PipelineSourcesView> {
    pipelines.map_values(|p: PipelineSources| p@)
}

/// The first declaration of a source.
#[derive(Debug)]
pub struct Declaration {
    /// The pipeline.
    pub path: String,
    pub text: String,
    /// Whether the block of the pipeline has the source; else the text is a bare entry.
    pub found: bool,
}

/// What a declaration is.
#[verifier::ext_equal]
pub struct DeclarationView {
    pub path: Seq<char>,
    pub text: Seq<char>,
    pub found: bool,
}

impl View for Declaration {
    type V = DeclarationView;

    open spec fn view(&self) -> DeclarationView {
        DeclarationView { path: self.path@, text: self.text@, found: self.found }
    }
}

/// What has been found in the pipelines that were read.
#[derive(Debug)]
pub struct Migration {
    /// The first declaration of each ID.
    seen: Vec<(String, Declaration)>,
    per_pipeline: Vec<PipelineSources>,
    /// The pipelines without sources.
    without: Vec<String>,
}

/// What a migration is.
#[verifier::ext_equal]
pub struct MigrationView {
    pub seen: Seq<(Seq<char>, DeclarationView)>,
    pub per_pipeline: Seq<PipelineSourcesView>,
    pub without: Seq<Seq<char>>,
}

impl View for Migration {
    type V = MigrationView;

    closed spec fn view(&self) -> MigrationView {
        MigrationView {
            seen: table::table_view(self.seen@),
            per_pipeline: pipeline_views(self.per_pipeline@),
            without: text::texts(self.without@),
        }
    }
}

/// The block of a pipeline has the source.
pub open spec fn has_source(content: Seq<char>, id: Seq<char>) -> bool {
    source_lines(text::lines(content), id) is Some
}

/// A pipeline declares a source by this.
pub open spec fn declaration(path: Seq<char>, content: Seq<char>, id: Seq<char>) -> DeclarationView {
    DeclarationView { path, text: source_text(content, id), found: has_source(content, id) }
}

/// A source as it is written.
pub open spec fn written_source(source: Seq<char>) -> Seq<char> {
    written_lines(text::lines(source))
}

/// The declarations give a source one configuration: it stands in both pipelines, and
/// is written in the same way for both.
pub open spec fn same_source(a: DeclarationView, b: DeclarationView) -> bool {
    a.found && b.found && written_source(a.text) == written_source(b.text)
}

/// The pipeline that declared the ID before and in another way, the IDs in front of it
/// in its own pipeline being `earlier`. One pipeline declares no ID twice.
pub open spec fn clash(
    seen: Seq<(Seq<char>, DeclarationView)>,
    earlier: Seq<Seq<char>>,
    path: Seq<char>,
    content: Seq<char>,
    id: Seq<char>,
) -> Option<Seq<char>> {
    if earlier.contains(id) {
        Some(path)
    } else {
        match table::value_of(seen, id) {
            Some(first) => if same_source(first, declaration(path, content, id)) {
                None
            } else {
                Some(first.path)
            },
            None => None,
        }
    }
}

/// The first ID of a pipeline that was declared before in another way, and the
/// pipeline that declared it.
pub open spec fn conflict(
    seen: Seq<(Seq<char>, DeclarationView)>,
    ids: Seq<Seq<char>>,
    path: Seq<char>,
    content: Seq<char>,
) -> Option<(Seq<char>, Seq<char>)>
    decreases ids.len(),
{
    if ids.len() == 0 {
        None
    } else {
        match conflict(seen, ids.drop_last(), path, content) {
            Some(c) => Some(c),
            None => match clash(seen, ids.drop_last(), path, content, ids.last()) {
                Some(first) => Some((ids.last(), first)),
                None => None,
            },
        }
    }
}

/// The IDs that were not declared before.
pub open spec fn fresh_ids(
    seen: Seq<(Seq<char>, DeclarationView)>,
    ids: Seq<Seq<char>>,
) -> Seq<Seq<char>>
    decreases ids.len(),
{
    if ids.len() == 0 {
        Seq::empty()
    } else {
        let before = fresh_ids(seen, ids.drop_last());
        if table::value_of(seen, ids.last()) is None {
            before.push(ids.last())
        } else {
            before
        }
    }
}

/// The declarations of these IDs.
pub open spec fn declarations(path: Seq<char>, content: Seq<char>, ids: Seq<Seq<char>>) -> Seq<
    (Seq<char>, DeclarationView),
> {
    ids.map_values(|id: Seq<char>| (id, declaration(path, content, id)))
}

proof fn lemma_conflict_stays(
    seen: Seq<(Seq<char>, DeclarationView)>,
    ids: Seq<Seq<char>>,
    path: Seq<char>,
    content: Seq<char>,
    n: int,
)
    requires
        0 <= n <= ids.len(),
        conflict(seen, ids.take(n), path, content) is Some,
    ensures
        conflict(seen, ids, path, content) == conflict(seen, ids.take(n), path, content),
    decreases ids.len() - n,
{
    if n < ids.len() {
        assert(ids.take(n + 1).drop_last() =~= ids.take(n));
        lemma_conflict_stays(seen, ids, path, content, n + 1);
    } else {
        assert(ids.take(n) =~= ids);
    }
}

/// The texts of the sources with these IDs.
pub open spec fn extracted(content: Seq<char>, ids: Seq<Seq<char>>) -> Seq<Seq<char>> {
    ids.map_values(|id: Seq<char>| source_text(content, id))
}

/// All the sources, pipeline by pipeline.
pub open spec fn consolidated(pipelines: Seq<PipelineSourcesView>) -> Seq<Seq<char>>
    decreases pipelines.len(),
{
    if pipelines.len() == 0 {
        Seq::empty()
    } else {
        consolidated(pipelines.drop_last()) + pipelines.last().sources
    }
}

/// How many sources there are in which pipelines.
pub open spec fn found_text(m: MigrationView) -> Seq<char> {
    "Found "@ + text::decimal(consolidated(m.per_pipeline).len()) + " source(s) across "@
        + text::decimal(m.per_pipeline.len()) + " pipeline(s) ("@ + text::decimal(m.without.len())
        + " without sources)."@
}

/// A file to write: its name in the output directory, or none for the output itself.
#[derive(Debug)]
pub struct OutputFile {
    pub name: Option<String>,
    pub content: String,
    /// How many sources it holds.
    pub count: usize,
    /// The pipeline that they come from, if it is one.
    pub origin: Option<String>,
}

/// What a file to write is.
#[verifier::ext_equal]
pub struct OutputFileView {
    pub name: Option<Seq<char>>,
    pub content: Seq<char>,
    pub count: nat,
    pub origin: Option<Seq<char>>,
}

impl View for OutputFile {
    type V = OutputFileView;

    open spec fn view(&self) -> OutputFileView {
        OutputFileView {
            name: text::opt_text(self.name),
            content: self.content@,
            count: self.count as nat,
            origin: text::opt_text(self.origin),
        }
    }
}

/// The files to write, one for each pipeline that has sources of its own.
pub open spec fn pipeline_files(pipelines: Seq<PipelineSourcesView>) -> Seq<OutputFileView>
    decreases pipelines.len(),
{
    if pipelines.len() == 0 {
        Seq::empty()
    } else {
        let before = pipeline_files(pipelines.drop_last());
        let last = pipelines.last();
        if last.sources.len() == 0 {
            before
        } else {
            before.push(
                OutputFileView {
                    name: Some(last.file_name),
                    content: sources_file(last.sources),
                    count: last.sources.len(),
                    origin: Some(last.path),
                },
            )
        }
    }
}

/// The files to write: one with all the sources, or one for each pipeline.
pub open spec fn output_files(m: MigrationView, strategy: Strategy) -> Seq<OutputFileView> {
    match strategy {
        Strategy::Single => seq![
            OutputFileView {
                name: None,
                content: sources_file(consolidated(m.per_pipeline)),
                count: consolidated(m.per_pipeline).len(),
                origin: None,
            },
        ],
        Strategy::PerPipeline => pipeline_files(m.per_pipeline),
    }
}

/// What is to be done when all the pipelines are read.
#[derive(Debug)]
pub enum Conclusion {
    /// No pipeline has sources.
    NothingFound,
    /// Show the sources.
    Preview { report: String, yaml: String },
    /// Write the files, then remove the blocks from the pipelines.
    Write { report: String, files: Vec<OutputFile> },
}

/// What a conclusion is.
pub enum ConclusionView {
    NothingFound,
    Preview { report: Seq<char>, yaml: Seq<char> },
    Write { report: Seq<char>, files: Seq<OutputFileView> },
}

impl View for Conclusion {
    type V = ConclusionView;

    open spec fn view(&self) -> ConclusionView {
        match self {
            Conclusion::NothingFound => ConclusionView::NothingFound,
            Conclusion::Preview { report, yaml } => ConclusionView::Preview {
                report: report@,
                yaml: yaml@,
            },
            Conclusion::Write { report, files } => ConclusionView::Write {
                report: report@,
                files: files@.map_values(|f: OutputFile| f@),
            },
        }
    }
}

/// No two of the files have one name, so that none is written over another.
pub open spec fn names_differ(files: Seq<OutputFile>) -> bool {
    forall|i: int, j: int|
        0 <= i < j < files.len() ==> (#[trigger] files[i])@.name != (#[trigger] files[j])@.name
}

/// What is to be done with what was found.
pub open spec fn conclusion(m: MigrationView, dry_run: bool, strategy: Strategy) -> ConclusionView {
    if consolidated(m.per_pipeline).len() == 0 {
        ConclusionView::NothingFound
    } else if dry_run {
        ConclusionView::Preview {
            report: found_text(m),
            yaml: sources_file(consolidated(m.per_pipeline)),
        }
    } else {
        ConclusionView::Write { report: found_text(m), files: output_files(m, strategy) }
    }
}

/// A migration with one more pipeline, which has no conflict with those before. A
/// source that was declared before is not taken in again.
pub open spec fn with_pipeline(
    m: MigrationView,
    path: Seq<char>,
    stem: Seq<char>,
    content: Seq<char>,
    ids: Seq<Seq<char>>,
) -> MigrationView {
    if ids.len() == 0 {
        MigrationView { without: m.without.push(path), ..m }
    } else {
        let fresh = fresh_ids(m.seen, ids);
        MigrationView {
            seen: m.seen + declarations(path, content, fresh),
            per_pipeline: m.per_pipeline.push(
                PipelineSourcesView {
                    path,
                    file_name: free_name(stem, file_names(m.per_pipeline)),
                    sources: extracted(content, fresh),
                },
            ),
            ..m
        }
    }
}

/// A source with the same text.
fn copy_source(source: &ExtractedSource) -> (res: ExtractedSource)
    ensures
        res@ == source@,
{
    ExtractedSource { raw_yaml: source.raw_yaml.clone() }
}

proof fn lemma_push_distinct(names: Seq<Seq<char>>, name: Seq<char>)
    requires
        names.no_duplicates(),
        !names.contains(name),
    ensures
        names.push(name).no_duplicates(),
{
    assert forall|i: int, j: int|
        0 <= i < names.len() + 1 && 0 <= j < names.len() + 1 && i != j implies names.push(name)[i]
        != names.push(name)[j] by {
        if i < names.len() {
            assert(names.contains(names[i]));
        }
        if j < names.len() {
            assert(names.contains(names[j]));
        }
    }
}

impl Migration {
    /// No two pipelines have files of one name.
    #[verifier::type_invariant]
    spec fn valid(&self) -> bool {
        file_names(pipeline_views(self.per_pipeline@)).no_duplicates()
    }

    /// Nothing has been read.
    pub fn new() -> (res: Migration)
        ensures
            res@ == (MigrationView {
                seen: Seq::empty(),
                per_pipeline: Seq::empty(),
                without: Seq::empty(),
            }),
    {
        let res: Migration = Migration {
            seen: Vec::new(),
            per_pipeline: Vec::new(),
            without: Vec::new(),
        };
        assert(res@.seen =~= Seq::empty());
        assert(res@.per_pipeline =~= Seq::empty());
        assert(res@.without =~= Seq::empty());
        res
    }

    /// Take in one pipeline: its path, its file name, its text and the IDs of its
    /// sources. An ID that another pipeline declared in the same way is not taken in
    /// again. One that was declared in another way is a conflict, which changes
    /// nothing.
    pub fn add_pipeline(
        &mut self,
        path: &str,
        file_name: Option<&str>,
        content: &str,
        ids: &Vec<String>,
    ) -> (res: Result<(), SourceConflict>)
        ensures
            match conflict(old(self)@.seen, text::texts(ids@), path@, content@) {
                Some((id, first)) => res matches Err(e) && e.id@ == id && e.first@ == first
                    && e.second@ == path@ && final(self)@ == old(self)@,
                None => res is Ok && final(self)@ == with_pipeline(
                    old(self)@,
                    path@,
                    pipeline_stem(file_name),
                    content@,
                    text::texts(ids@),
                ),
            },
    {
        let ghost start = *self;
        let ghost names = text::texts(ids@);
        proof {
            use_type_invariant(&*self);
        }
        if ids.len() == 0 {
            let mut without: Vec<String> = Vec::new();
            std::mem::swap(&mut without, &mut self.without);
            without.push(path.to_owned());
            self.without = without;
            assert(self@.without =~= start@.without.push(path@));
            return Ok(());
        }
        let mut fresh: Vec<(String, Declaration)> = Vec::new();
        let mut sources: Vec<ExtractedSource> = Vec::new();
        let ghost mut taken: Seq<Seq<char>> = Seq::empty();
        let mut i: usize = 0;
        assert(names.take(0) =~= Seq::empty());
        assert(table::table_view(fresh@) =~= declarations(path@, content@, taken));
        assert(source_texts(sources@) =~= extracted(content@, taken));
        while i < ids.len()
            invariant
                0 <= i <= ids@.len(),
                *self == start,
                start == *old(self),
                names == text::texts(ids@),
                conflict(start@.seen, names.take(i as int), path@, content@) is None,
                taken == fresh_ids(start@.seen, names.take(i as int)),
                table::table_view(fresh@) == declarations(path@, content@, taken),
                source_texts(sources@) == extracted(content@, taken),
            decreases ids@.len() - i,
        {
            let ghost earlier = names.take(i as int);
            let ghost id = names[i as int];
            assert(names.take(i + 1).drop_last() =~= earlier);
            assert(names.take(i + 1).last() == id);
            let found: Option<String> = find_source(content, ids[i].as_str());
            let declared: Declaration = match found {
                Some(text) => Declaration { path: path.to_owned(), text, found: true },
                None => Declaration {
                    path: path.to_owned(),
                    text: bare_entry(ids[i].as_str()),
                    found: false,
                },
            };
            assert(declared@ =~= declaration(path@, content@, id));
            let k: usize = table::entry_position(&self.seen, ids[i].as_str());
            let first: Option<String> = if repeats(ids, i) {
                Some(path.to_owned())
            } else if k < self.seen.len() && !is_same_source(&self.seen[k].1, &declared) {
                Some(self.seen[k].1.path.clone())
            } else {
                None
            };
            proof {
                table::lemma_position(start@.seen, id);
                if k < self.seen@.len() {
                    assert(start@.seen[k as int].1 == self.seen@[k as int].1@);
                }
                assert(text::opt_text(first) == clash(start@.seen, earlier, path@, content@, id));
            }
            if let Some(first) = first {
                proof {
                    lemma_conflict_stays(start@.seen, names, path@, content@, i + 1);
                }
                return Err(SourceConflict { id: ids[i].clone(), first, second: path.to_owned() });
            }
            if k == self.seen.len() {
                let ghost before = fresh@;
                let ghost texts = sources@;
                let ghost held = taken;
                sources.push(ExtractedSource { raw_yaml: declared.text.clone() });
                fresh.push((ids[i].clone(), declared));
                proof {
                    taken = taken.push(id);
                    assert(table::table_view(fresh@) =~= table::table_view(before).push(
                        (id, declaration(path@, content@, id)),
                    ));
                    assert(declarations(path@, content@, taken) =~= declarations(
                        path@,
                        content@,
                        held,
                    ).push((id, declaration(path@, content@, id))));
                    assert(source_texts(sources@) =~= source_texts(texts).push(
                        source_text(content@, id),
                    ));
                    assert(extracted(content@, taken) =~= extracted(content@, held).push(
                        source_text(content@, id),
                    ));
                }
            }
            i = i + 1;
        }
        assert(names.take(i as int) =~= names);
        let ghost added = table::table_view(fresh@);
        let mut seen: Vec<(String, Declaration)> = Vec::new();
        std::mem::swap(&mut seen, &mut self.seen);
        seen.append(&mut fresh);
        assert(table::table_view(seen@) =~= start@.seen + added);
        self.seen = seen;
        let entry: PipelineSources = PipelineSources {
            path: path.to_owned(),
            file_name: choose_name(&self.per_pipeline, file_name),
            sources,
        };
        let mut pipelines: Vec<PipelineSources> = Vec::new();
        std::mem::swap(&mut pipelines, &mut self.per_pipeline);
        pipelines.push(entry);
        proof {
            let names = file_names(start@.per_pipeline);
            lemma_free_name_is_free(pipeline_stem(file_name), names);
            assert(pipeline_views(pipelines@) =~= start@.per_pipeline.push(entry@));
            assert(file_names(pipeline_views(pipelines@)) =~= names.push(entry@.file_name));
            lemma_push_distinct(names, entry@.file_name);
        }
        self.per_pipeline = pipelines;
        Ok(())
    }

    /// All the sources, pipeline by pipeline.
    fn all_sources(&self) -> (res: Vec<ExtractedSource>)
        ensures
            source_texts(res@) == consolidated(self@.per_pipeline),
    {
        let ghost all = self@.per_pipeline;
        let mut out: Vec<ExtractedSource> = Vec::new();
        let mut i: usize = 0;
        assert(all.take(0) =~= Seq::empty());
        assert(source_texts(out@) =~= Seq::empty());
        while i < self.per_pipeline.len()
            invariant
                0 <= i <= self.per_pipeline@.len(),
                all == self@.per_pipeline,
                source_texts(out@) == consolidated(all.take(i as int)),
            decreases self.per_pipeline@.len() - i,
        {
            assert(all.take(i + 1).drop_last() =~= all.take(i as int));
            let mine: &Vec<ExtractedSource> = &self.per_pipeline[i].sources;
            let ghost texts = source_texts(mine@);
            assert(all[i as int].sources == texts);
            let ghost before = source_texts(out@);
            let mut k: usize = 0;
            assert(source_texts(out@) =~= before + texts.take(0));
            while k < mine.len()
                invariant
                    0 <= k <= mine@.len(),
                    texts == source_texts(mine@),
                    source_texts(out@) == before + texts.take(k as int),
                decreases mine@.len() - k,
            {
                let ghost earlier = out@;
                out.push(copy_source(&mine[k]));
                assert(source_texts(out@) =~= source_texts(earlier).push(texts[k as int]));
                assert(source_texts(out@) =~= before + texts.take(k + 1));
                k = k + 1;
            }
            assert(texts.take(k as int) =~= texts);
            i = i + 1;
        }
        assert(all.take(i as int) =~= all);
        out
    }

    /// The files to write, one for each pipeline that has sources of its own.
    fn files_per_pipeline(&self) -> (res: Vec<OutputFile>)
        ensures
            res@.map_values(|f: OutputFile| f@) == output_files(self@, Strategy::PerPipeline),
    {
        let ghost all = self@.per_pipeline;
        let mut files: Vec<OutputFile> = Vec::new();
        let mut i: usize = 0;
        assert(all.take(0) =~= Seq::empty());
        assert(files@.map_values(|f: OutputFile| f@) =~= Seq::empty());
        while i < self.per_pipeline.len()
            invariant
                0 <= i <= self.per_pipeline@.len(),
                all == self@.per_pipeline,
                files@.map_values(|f: OutputFile| f@) == pipeline_files(all.take(i as int)),
            decreases self.per_pipeline@.len() - i,
        {
            assert(all.take(i + 1).drop_last() =~= all.take(i as int));
            let p: &PipelineSources = &self.per_pipeline[i];
            assert(all[i as int] == p@);
            assert(source_texts(p.sources@).len() == p.sources@.len());
            if p.sources.len() > 0 {
                let ghost before = files@.map_values(|f: OutputFile| f@);
                let file: OutputFile = OutputFile {
                    name: Some(p.file_name.clone()),
                    content: build_sources_yaml(&p.sources),
                    count: p.sources.len(),
                    origin: Some(p.path.clone()),
                };
                files.push(file);
                assert(files@.map_values(|f: OutputFile| f@) =~= before.push(file@));
                assert(file@ =~= pipeline_files(all.take(i + 1)).last());
            }
            i = i + 1;
        }
        assert(all.take(i as int) =~= all);
        files
    }

    /// What is to be done, all the pipelines being read.
    pub fn conclude(&self, dry_run: bool, strategy: Strategy) -> (res: Conclusion)
        ensures
            res@ == conclusion(self@, dry_run, strategy),
            res matches Conclusion::Write { files, .. } ==> names_differ(files@),
    {
        proof {
            use_type_invariant(self);
        }
        let sources: Vec<ExtractedSource> = self.all_sources();
        assert(source_texts(sources@).len() == sources@.len());
        assert(self@.per_pipeline.len() == self.per_pipeline@.len());
        assert(self@.without.len() == self.without@.len());
        if sources.len() == 0 {
            return Conclusion::NothingFound;
        }
        let mut report: String = "Found ".to_owned();
        report.append(text::decimal_text(sources.len() as u64).as_str());
        report.append(" source(s) across ");
        report.append(text::decimal_text(self.per_pipeline.len() as u64).as_str());
        report.append(" pipeline(s) (");
        report.append(text::decimal_text(self.without.len() as u64).as_str());
        report.append(" without sources).");
        if dry_run {
            return Conclusion::Preview { report, yaml: build_sources_yaml(&sources) };
        }
        match strategy {
            Strategy::Single => {
                let file: OutputFile = OutputFile {
                    name: None,
                    content: build_sources_yaml(&sources),
                    count: sources.len(),
                    origin: None,
                };
                let mut files: Vec<OutputFile> = Vec::new();
                files.push(file);
                assert(files@.map_values(|f: OutputFile| f@) =~= output_files(self@, strategy));
                Conclusion::Write { report, files }
            },
            Strategy::PerPipeline => {
                let files: Vec<OutputFile> = self.files_per_pipeline();
                proof {
                    let views = files@.map_values(|f: OutputFile| f@);
                    lemma_pipeline_files(self@.per_pipeline);
                    assert(views.len() == files@.len());
                    assert forall|i: int, j: int| 0 <= i < j < files@.len() implies (
                    #[trigger] files@[i])@.name != (#[trigger] files@[j])@.name by {
                        assert(views[i] == files@[i]@ && views[j] == files@[j]@);
                    }
                }
                Conclusion::Write { report, files }
            },
        }
    }
}

/// Whether the ID stands among those before it.
fn repeats(ids: &Vec<String>, i: usize) -> (res: bool)
    requires
        i < ids@.len(),
    ensures
        res == text::texts(ids@).take(i as int).contains(ids@[i as int]@),
{
    let ghost earlier = text::texts(ids@).take(i as int);
    let mut j: usize = 0;
    while j < i
        invariant
            0 <= j <= i < ids@.len(),
            earlier == text::texts(ids@).take(i as int),
            forall|k: int| 0 <= k < j ==> #[trigger] earlier[k] != ids@[i as int]@,
        decreases i - j,
    {
        assert(earlier[j as int] == ids@[j as int]@);
        if text::same_text(ids[j].as_str(), ids[i].as_str()) {
            assert(earlier.contains(ids@[i as int]@));
            return true;
        }
        j = j + 1;
    }
    false
}

/// Whether the declarations give a source one configuration.
fn is_same_source(a: &Declaration, b: &Declaration) -> (res: bool)
    ensures
        res == same_source(a@, b@),
{
    if !a.found || !b.found {
        return false;
    }
    let mut first: String = "".to_owned();
    let mut second: String = "".to_owned();
    proof {
        reveal_strlit("");
    }
    write_source(&mut first, a.text.as_str());
    write_source(&mut second, b.text.as_str());
    assert(first@ =~= written_source(a.text@));
    assert(second@ =~= written_source(b.text@));
    text::same_text(first.as_str(), second.as_str())
}

/// What a file was written with, in words.
pub fn wrote_message(count: usize, origin: Option<&str>, target: &str) -> (res: String)
    ensures
        res@ == "Wrote "@ + text::decimal(count as nat) + " source(s)"@ + (match origin {
            Some(path) => " from "@ + path@,
            None => ""@,
        }) + " to "@ + target@,
{
    let mut out: String = "Wrote ".to_owned();
    out.append(text::decimal_text(count as u64).as_str());
    out.append(" source(s)");
    let from: String = match origin {
        Some(path) => {
            let mut from: String = " from ".to_owned();
            from.append(path);
            from
        },
        None => "".to_owned(),
    };
    out.append(from.as_str());
    out.append(" to ");
    out.append(target);
    out
}

/// The text of a pipeline file without its sources, if that is another text.
pub fn strip_pipeline(content: &str) -> (res: Option<String>)
    ensures
        match res {
            Some(rest) => rest@ == stripped(content@) && rest@ != content@,
            None => stripped(content@) == content@,
        },
{
    let rest: String = remove_sources_block(content);
    if text::same_text(rest.as_str(), content) {
        None
    } else {
        Some(rest)
    }
}

/// The files of the pipelines have names that pipelines have, and no two have one name.
proof fn lemma_pipeline_files(pipelines: Seq<PipelineSourcesView>)
    requires
        file_names(pipelines).no_duplicates(),
    ensures
        forall|f: int|
            0 <= f < pipeline_files(pipelines).len() ==> has_pipeline(
                pipelines,
                #[trigger] pipeline_files(pipelines)[f],
            ),
        forall|i: int, j: int|
            0 <= i < j < pipeline_files(pipelines).len() ==> (#[trigger] pipeline_files(
                pipelines,
            )[i]).name != (#[trigger] pipeline_files(pipelines)[j]).name,
    decreases pipelines.len(),
{
    if pipelines.len() > 0 {
        let front = pipelines.drop_last();
        let last = pipelines.last();
        let m = pipelines.len() - 1;
        let before = pipeline_files(front);
        let files = pipeline_files(pipelines);
        let names = file_names(pipelines);
        assert(file_names(front) =~= names.drop_last());
        lemma_pipeline_files(front);
        assert forall|f: int| 0 <= f < files.len() implies has_pipeline(
            pipelines,
            #[trigger] files[f],
        ) by {
            if f < before.len() {
                assert(files[f] == before[f]);
                let p = choose|p: int| #[trigger] is_file_of(front, p, before[f]);
                assert(is_file_of(pipelines, p, files[f]));
            } else {
                assert(is_file_of(pipelines, m, files[f]));
            }
        }
        assert forall|i: int, j: int| 0 <= i < j < files.len() implies (#[trigger] files[i]).name
            != (#[trigger] files[j]).name by {
            assert(files[i] == before[i]);
            if j < before.len() {
                assert(files[j] == before[j]);
            } else {
                assert(has_pipeline(front, before[i]));
                let p = choose|p: int| #[trigger] is_file_of(front, p, before[i]);
                assert(names[p] == front[p].file_name);
                assert(names[m] == last.file_name);
            }
        }
    }
}

/// The file holds the sources of the pipeline at place `p`, and there are some.
pub open spec fn is_file_of(
    pipelines: Seq<PipelineSourcesView>,
    p: int,
    file: OutputFileView,
) -> bool {
    &&& 0 <= p < pipelines.len()
    &&& pipelines[p].sources.len() > 0
    &&& file.name == Some(pipelines[p].file_name)
    &&& file.content == sources_file(pipelines[p].sources)
    &&& file.origin == Some(pipelines[p].path)
}

/// The file holds the sources of some pipeline.
pub open spec fn has_pipeline(pipelines: Seq<PipelineSourcesView>, file: OutputFileView) -> bool {
    exists|p: int| #[trigger] is_file_of(pipelines, p, file)
}

/// The sources of the pipeline at place `p` stand in some file.
pub open spec fn has_file(
    files: Seq<OutputFileView>,
    pipelines: Seq<PipelineSourcesView>,
    p: int,
) -> bool {
    exists|f: int| 0 <= f < files.len() && is_file_of(pipelines, p, #[trigger] files[f])
}

/// Each pipeline with sources has its file.
pub proof fn lemma_pipeline_has_file(pipelines: Seq<PipelineSourcesView>, p: int)
    requires
        0 <= p < pipelines.len(),
        pipelines[p].sources.len() > 0,
    ensures
        has_file(pipeline_files(pipelines), pipelines, p),
    decreases pipelines.len(),
{
    let front = pipelines.drop_last();
    let files = pipeline_files(pipelines);
    if p < front.len() {
        lemma_pipeline_has_file(front, p);
        let f = choose|f: int|
            0 <= f < pipeline_files(front).len() && is_file_of(
                front,
                p,
                #[trigger] pipeline_files(front)[f],
            );
        assert(files[f] == pipeline_files(front)[f]);
        assert(is_file_of(pipelines, p, files[f]));
    } else {
        assert(is_file_of(pipelines, p, files[files.len() - 1]));
    }
}

/// One file is written for each pipeline that has sources of its own, with those
/// sources and no other, under a name of its own.
pub proof fn lemma_one_file_for_each_pipeline(m: MigrationView)
    requires
        file_names(m.per_pipeline).no_duplicates(),
    ensures
        forall|p: int|
            0 <= p < m.per_pipeline.len() && (#[trigger] m.per_pipeline[p]).sources.len() > 0
                ==> has_file(output_files(m, Strategy::PerPipeline), m.per_pipeline, p),
        forall|f: int|
            0 <= f < output_files(m, Strategy::PerPipeline).len() ==> has_pipeline(
                m.per_pipeline,
                #[trigger] output_files(m, Strategy::PerPipeline)[f],
            ),
        forall|i: int, j: int|
            0 <= i < j < output_files(m, Strategy::PerPipeline).len() ==> (
            #[trigger] output_files(m, Strategy::PerPipeline)[i]).name != (
            #[trigger] output_files(m, Strategy::PerPipeline)[j]).name,
{
    lemma_pipeline_files(m.per_pipeline);
    assert forall|p: int|
        0 <= p < m.per_pipeline.len() && (#[trigger] m.per_pipeline[p]).sources.len()
            > 0 implies has_file(output_files(m, Strategy::PerPipeline), m.per_pipeline, p) by {
        lemma_pipeline_has_file(m.per_pipeline, p);
    }
}

} // verus!
