//! Which lines of a pipeline file are its sources.

use crate::migrate::OutputFileView;
use crate::migrate::PipelineSourcesView;
use crate::migrate;
use crate::migrate_laws;
use crate::text;
use crate::text_laws;
use vstd::prelude::*;
use vstd::utf8;

verus! {

// ---------------------------------------------------------------------------
// Kinds of lines
// ---------------------------------------------------------------------------

/// A text without white space at its ends.
pub open spec fn tight(t: Seq<char>) -> bool {
    t.len() > 0 && !text::white(t[0]) && !text::white(t.last())
}

/// A line opens the sources with `sources:`, alone or with a comment behind white space,
/// and with nothing else behind it, at any indentation.
pub proof fn lemma_opening_lines(
    pad: Seq<char>,
    gap: Seq<char>,
    rest: Seq<char>,
    tail: Seq<char>,
)
    requires
        text_laws::blank(pad),
        text_laws::blank(gap),
        text_laws::blank(tail),
        tight(rest),
    ensures
        migrate::opens_sources(pad + "sources:"@ + tail),
        migrate::opens_sources(pad + ("sources:"@ + gap + rest) + tail) <==> gap.len() > 0
            && rest[0] == '#',
{
    reveal_strlit("sources:");
    let key = "sources:"@;
    let n = key.len() as int;
    text_laws::lemma_trimming(pad, key, tail);
    assert(key.take(n) =~= key);
    assert(key.skip(n) =~= Seq::<char>::empty());
    let whole = key + gap + rest;
    text_laws::lemma_trimming(pad, whole, tail);
    assert(whole.take(n) =~= key);
    let behind = whole.skip(n);
    assert(behind =~= gap + rest);
    assert forall|i: int| 0 <= i < gap.len() implies text::white(#[trigger] behind[i]) by {
        assert(behind[i] == gap[i]);
    }
    assert(behind[gap.len() as int] == rest[0]);
    text::lemma_lead_unique(behind, gap.len() as int);
}

/// A line begins a source with `- id:`, and up to two spaces in it, at any indentation; the
/// source is the one whose ID stands there, plain or in double quotes.
pub proof fn lemma_id_lines(
    pad: Seq<char>,
    gap: Seq<char>,
    value: Seq<char>,
    tail: Seq<char>,
    id: Seq<char>,
)
    requires
        text_laws::blank(pad),
        text_laws::blank(gap),
        text_laws::blank(tail),
        tight(value),
        !text::begins(value, "- id:"@),
        !text::begins(value, "-  id:"@),
    ensures
        migrate::begins_source(pad + ("- id:"@ + gap + value) + tail),
        migrate::begins_source(pad + ("-  id:"@ + gap + value) + tail),
        migrate::begins_this(pad + ("- id:"@ + gap + value) + tail, id) <==> value == id || value
            == "\""@ + id + "\""@,
        migrate::begins_this(pad + ("-  id:"@ + gap + value) + tail, id) <==> value == id || value
            == "\""@ + id + "\""@,
{
    reveal_strlit("- id:");
    reveal_strlit("-  id:");
    let one = "- id:"@;
    let two = "-  id:"@;
    let rest = gap + value;
    let s = one + gap + value;
    let t = two + gap + value;
    text_laws::lemma_trimming(pad, s, tail);
    text_laws::lemma_trimming(pad, t, tail);
    lemma_no_prefix(gap, value, one);
    lemma_no_prefix(gap, value, two);
    assert(s.take(5) =~= one);
    assert(s.skip(5) =~= rest);
    assert(t.take(6) =~= two);
    assert(t.skip(6) =~= rest);
    assert(!text::begins(t, one)) by {
        assert(t.take(5)[2] == ' ');
        assert(one[2] == 'i');
    }
    reveal_with_fuel(migrate::without_prefixes, 2);
    assert(migrate::without_prefixes(s, one) == rest);
    assert(migrate::without_prefixes(rest, two) == rest);
    assert(migrate::without_prefixes(t, one) == t);
    assert(migrate::without_prefixes(t, two) == rest);
    let none = Seq::<char>::empty();
    text_laws::lemma_trimming(gap, value, none);
    assert(gap + value + none =~= rest);
}

proof fn lemma_no_prefix(gap: Seq<char>, value: Seq<char>, prefix: Seq<char>)
    requires
        text_laws::blank(gap),
        prefix == "- id:"@ || prefix == "-  id:"@,
        !text::begins(value, prefix),
    ensures
        !text::begins(gap + value, prefix),
{
    reveal_strlit("- id:");
    reveal_strlit("-  id:");
    let rest = gap + value;
    if gap.len() == 0 {
        assert(rest =~= value);
    } else if text::begins(rest, prefix) {
        assert(rest.take(prefix.len() as int)[0] == rest[0]);
        assert(rest[0] == gap[0]);
        assert(text::white(gap[0]));
        assert(prefix[0] == '-');
    }
}

/// A line ends the sources if it is neither indented nor a list item, holds something, and
/// does not open sources again.
pub proof fn lemma_closing_lines(t: Seq<char>, tail: Seq<char>)
    requires
        tight(t),
        text_laws::blank(tail),
    ensures
        migrate::closes_sources(t + tail) <==> t[0] != '-' && !migrate::opens_sources(t + tail),
        !migrate::closes_sources(" "@ + t + tail),
        !migrate::closes_sources("\t"@ + t + tail),
        !migrate::closes_sources(tail),
{
    reveal_strlit(" ");
    reveal_strlit("\t");
    reveal_strlit("-");
    let none = Seq::<char>::empty();
    text_laws::lemma_trimming(none, t, tail);
    let line = t + tail;
    assert(none + t + tail =~= line);
    assert(line.take(1) =~= seq![t[0]]);
    assert(t.take(1) =~= seq![t[0]]);
    assert(" "@ =~= seq![' ']);
    assert("\t"@ =~= seq!['\t']);
    assert("-"@ =~= seq!['-']);
    assert(seq![t[0]][0] == t[0]);
    assert(line.take(1)[0] == t[0]);
    assert(text::begins(line, " "@) ==> t[0] == ' ') by {
        if text::begins(line, " "@) {
            assert(line.take(1)[0] == " "@[0]);
        }
    }
    assert(text::begins(line, "\t"@) ==> t[0] == '\t') by {
        if text::begins(line, "\t"@) {
            assert(line.take(1)[0] == "\t"@[0]);
        }
    }
    assert(text::begins(t, "-"@) <==> t[0] == '-') by {
        if text::begins(t, "-"@) {
            assert(t.take(1)[0] == "-"@[0]);
        }
    }
    assert((" "@ + t + tail).take(1) =~= " "@);
    assert(("\t"@ + t + tail).take(1) =~= "\t"@);
    text_laws::lemma_trimming(tail, t, none);
}

proof fn lemma_bytes_of_spaces(n: nat)
    ensures
        utf8::encode_utf8(migrate::spaces(n)).len() == n,
    decreases n,
{
    let s = migrate::spaces(n);
    if n > 0 {
        lemma_bytes_of_spaces((n - 1) as nat);
        assert(s.drop_first() =~= migrate::spaces((n - 1) as nat));
        assert(s[0] == ' ');
        assert(utf8::encode_scalar(' ' as u32).len() == 1);
    } else {
        assert(s =~= Seq::<char>::empty());
    }
}

/// A line behind one that opens sources at a depth belongs to them if it is blank, lies
/// deeper, or is a list item that lies as deep.
pub proof fn lemma_lines_of_a_block(n: nat, t: Seq<char>, tail: Seq<char>, depth: nat)
    requires
        tight(t),
        text_laws::blank(tail),
    ensures
        migrate::indent(migrate::spaces(n) + t + tail) == n,
        migrate::in_block(migrate::spaces(n) + t + tail, depth) <==> n > depth || (n == depth
            && t[0] == '-'),
        migrate::in_block(tail, depth),
{
    reveal_strlit("-");
    let pad = migrate::spaces(n);
    text_laws::lemma_trimming(pad, t, tail);
    let line = pad + t + tail;
    assert(line.take(n as int) =~= pad);
    lemma_bytes_of_spaces(n);
    assert("-"@ =~= seq!['-']);
    assert(t.take(1) =~= seq![t[0]]);
    assert(text::begins(t, "-"@) <==> t[0] == '-') by {
        if text::begins(t, "-"@) {
            assert(t.take(1)[0] == "-"@[0]);
        }
    }
    text_laws::lemma_trimming(tail, t, tail);
}

// ---------------------------------------------------------------------------
// Extracting a source
// ---------------------------------------------------------------------------

/// None of the lines is one that opens sources.
pub open spec fn none_opens(lines: Seq<Seq<char>>) -> bool {
    forall|i: int| 0 <= i < lines.len() ==> !migrate::opens_sources(#[trigger] lines[i])
}

/// None of the lines is one that ends sources.
pub open spec fn none_closes(lines: Seq<Seq<char>>) -> bool {
    forall|i: int| 0 <= i < lines.len() ==> !migrate::closes_sources(#[trigger] lines[i])
}

/// None of the lines begins the source with that ID.
pub open spec fn none_begins(lines: Seq<Seq<char>>, id: Seq<char>) -> bool {
    forall|i: int| 0 <= i < lines.len() ==> !migrate::begins_this(#[trigger] lines[i], id)
}

/// The lines are one source with that ID.
pub open spec fn one_source(lines: Seq<Seq<char>>, id: Seq<char>) -> bool {
    &&& lines.len() > 0
    &&& migrate::begins_this(lines[0], id)
    &&& forall|i: int| 0 < i < lines.len() ==> !migrate::begins_source(#[trigger] lines[i])
}

/// The source with an ID is read from the first block of sources of a file: the lines from
/// the one that begins it up to the next source or the end of the block. A block without it
/// gives a bare entry with the ID.
pub proof fn lemma_source_is_extracted(
    head: Seq<Seq<char>>,
    opening: Seq<char>,
    before: Seq<Seq<char>>,
    own: Seq<Seq<char>>,
    behind: Seq<Seq<char>>,
    tail: Seq<Seq<char>>,
    id: Seq<char>,
)
    requires
        none_opens(head),
        migrate::opens_sources(opening),
        none_closes(before),
        none_closes(own),
        none_closes(behind),
        tail.len() > 0 ==> migrate::closes_sources(tail[0]),
        one_source(own, id),
        none_begins(behind, id),
        behind.len() > 0 ==> migrate::begins_other(behind[0], id),
    ensures
        migrate::source_lines(
            head + seq![opening] + (before + own + behind) + tail,
            id,
        ) == Some(own),
{
    let block = before + own + behind;
    let all = head + seq![opening] + block + tail;
    let len = all.len() as int;
    let h = head.len() as int;
    let start = h + 1 + before.len();
    let over = start + own.len();
    let end = h + 1 + block.len();
    let opens = |l: Seq<char>| migrate::opens_sources(l);
    let closes = |l: Seq<char>| migrate::closes_sources(l);
    let this = |l: Seq<char>| migrate::begins_this(l, id);
    let other = |l: Seq<char>| migrate::begins_other(l, id);
    assert forall|i: int| 0 <= i < h implies !opens(#[trigger] all[i]) by {
        assert(all[i] == head[i]);
    }
    assert(all[h] == opening);
    migrate_laws::lemma_first_line_unique(all, 0, len, opens, h);
    assert forall|i: int| h + 1 <= i < end implies !closes(#[trigger] all[i]) by {
        let k = i - h - 1;
        assert(all[i] == block[k]);
        if k < before.len() {
            assert(block[k] == before[k]);
        } else if k < before.len() + own.len() {
            assert(block[k] == own[k - before.len()]);
        } else {
            assert(block[k] == behind[k - before.len() - own.len()]);
        }
    }
    if end < len {
        assert(all[end] == tail[0]);
    }
    migrate_laws::lemma_first_line_unique(all, h + 1, len, closes, end);
    assert forall|i: int| start < i < end implies !this(#[trigger] all[i]) by {
        let k = i - start;
        if k < own.len() {
            assert(all[i] == own[k]);
        } else {
            assert(all[i] == behind[k - own.len()]);
        }
    }
    assert(all[start] == own[0]);
    migrate_laws::lemma_last_line(all, h + 1, end, this, start);
    assert forall|i: int| start + 1 <= i < over implies !other(#[trigger] all[i]) by {
        assert(all[i] == own[i - start]);
    }
    if over < end {
        assert(all[over] == behind[0]);
    }
    migrate_laws::lemma_first_line_unique(all, start + 1, end, other, over);
    assert(all.subrange(start, over) =~= own);
}

/// The text of a source is its lines, each with a line feed; without it, a bare entry.
pub proof fn lemma_source_text(content: Seq<char>, id: Seq<char>, own: Seq<Seq<char>>, line: Seq<char>)
    ensures
        migrate::source_lines(text::lines(content), id) is None ==> migrate::source_text(content, id)
            == "  - id: "@ + id + "\n"@,
        migrate::source_lines(text::lines(content), id) == Some(own) ==> migrate::source_text(
            content,
            id,
        ) == migrate::with_feeds(own),
        migrate::with_feeds(Seq::empty()) == Seq::<char>::empty(),
        migrate::with_feeds(own.push(line)) == migrate::with_feeds(own) + line + "\n"@,
{
    assert(own.push(line).drop_last() =~= own);
}

// ---------------------------------------------------------------------------
// Counts
// ---------------------------------------------------------------------------

/// The file is that of the pipeline, and tells how many sources it holds.
pub open spec fn tells_count(file: OutputFileView, p: PipelineSourcesView) -> bool {
    &&& file.name == Some(p.file_name)
    &&& file.origin == Some(p.path)
    &&& file.content == "sources:\n"@ + migrate::written_sources(p.sources)
    &&& file.count == p.sources.len()
    &&& file.count > 0
}

/// Each file that is written for a pipeline tells how many sources of which pipeline it
/// holds; the files stand in the order of the pipelines.
pub proof fn lemma_files_tell_counts(pipelines: Seq<PipelineSourcesView>) -> (places: Seq<int>)
    ensures
        places.len() == migrate::pipeline_files(pipelines).len(),
        forall|i: int, j: int|
            0 <= i < j < places.len() ==> #[trigger] places[i] < #[trigger] places[j],
        forall|f: int|
            0 <= f < places.len() ==> 0 <= #[trigger] places[f] < pipelines.len() && tells_count(
                migrate::pipeline_files(pipelines)[f],
                pipelines[places[f]],
            ),
    decreases pipelines.len(),
{
    if pipelines.len() == 0 {
        Seq::empty()
    } else {
        let front = pipelines.drop_last();
        let n = front.len() as int;
        let before = lemma_files_tell_counts(front);
        assert forall|i: int| 0 <= i < n implies #[trigger] pipelines[i] == front[i] by {}
        if pipelines.last().sources.len() == 0 {
            before
        } else {
            before.push(n)
        }
    }
}

// ---------------------------------------------------------------------------
// Writing a source
// ---------------------------------------------------------------------------

/// A line of a source is written at two spaces and as many more as it lies deeper than the
/// line that begins the source, or at four if none does; blank lines are left out.
pub proof fn lemma_line_as_written(
    pad: Seq<char>,
    t: Seq<char>,
    tail: Seq<char>,
    entry: int,
)
    requires
        text_laws::blank(pad),
        text_laws::blank(tail),
        tight(t),
        entry >= 0,
    ensures
        migrate::written_line(pad + t + tail, Some(entry)) == "  "@ + Seq::new(
            (if pad.len() > entry {
                pad.len() - entry
            } else {
                0
            }) as nat,
            |i: int| ' ',
        ) + t + "\n"@,
        migrate::written_line(pad + t + tail, None) == "    "@ + t + "\n"@,
        migrate::written_line(tail, Some(entry)) == Seq::<char>::empty(),
        migrate::written_line(tail, None) == Seq::<char>::empty(),
{
    reveal_strlit("  ");
    reveal_strlit("    ");
    text_laws::lemma_trimming(pad, t, tail);
    text_laws::lemma_trimming(tail, t, pad);
    assert("  "@ + migrate::spaces(2) =~= "    "@);
}

/// A line is written by the indentation of the last line up to it that begins a source.
pub proof fn lemma_lines_as_written(lines: Seq<Seq<char>>, line: Seq<char>, k: int)
    ensures
        migrate::written_lines(Seq::empty()) == Seq::<char>::empty(),
        migrate::begins_source(line) ==> migrate::written_lines(lines.push(line))
            == migrate::written_lines(lines) + migrate::written_line(line, Some(text::lead(line))),
        !migrate::begins_source(line) && 0 <= k < lines.len() && migrate::begins_source(lines[k])
            && (forall|i: int| k < i < lines.len() ==> !migrate::begins_source(#[trigger] lines[i]))
            ==> migrate::written_lines(lines.push(line)) == migrate::written_lines(lines)
            + migrate::written_line(line, Some(text::lead(lines[k]))),
        !migrate::begins_source(line) && (forall|i: int|
            0 <= i < lines.len() ==> !migrate::begins_source(#[trigger] lines[i]))
            ==> migrate::written_lines(lines.push(line)) == migrate::written_lines(lines)
            + migrate::written_line(line, None),
{
    assert(lines.push(line).drop_last() =~= lines);
    if 0 <= k < lines.len() && migrate::begins_source(lines[k]) && (forall|i: int|
        k < i < lines.len() ==> !migrate::begins_source(#[trigger] lines[i])) {
        lemma_entry_of(lines, k);
    }
    if forall|i: int| 0 <= i < lines.len() ==> !migrate::begins_source(#[trigger] lines[i]) {
        lemma_entry_of(lines, -1);
    }
}

proof fn lemma_entry_of(lines: Seq<Seq<char>>, k: int)
    requires
        -1 <= k < lines.len(),
        k >= 0 ==> migrate::begins_source(lines[k]),
        forall|i: int| k < i < lines.len() ==> !migrate::begins_source(#[trigger] lines[i]),
    ensures
        migrate::entry_indent(lines) == (if k >= 0 {
            Some(text::lead(lines[k]))
        } else {
            None
        }),
    decreases lines.len(),
{
    if lines.len() > 0 && k < lines.len() - 1 {
        let front = lines.drop_last();
        assert(!migrate::begins_source(lines[lines.len() - 1]));
        assert forall|i: int| k < i < front.len() implies !migrate::begins_source(
            #[trigger] front[i],
        ) by {
            assert(front[i] == lines[i]);
        }
        lemma_entry_of(front, k);
    }
}

} // verus!
