//! What moving sources keeps.

use crate::migrate::ConclusionView;
use crate::migrate::DeclarationView;
use crate::migrate::MigrationView;
use crate::migrate::OutputFileView;
use crate::migrate::PipelineSourcesView;
use crate::migrate::Strategy;
use crate::migrate;
use crate::table;
use crate::text;
use vstd::prelude::*;

verus! {

// ---------------------------------------------------------------------------
// What the steps keep
// ---------------------------------------------------------------------------

/// Without a line that opens sources every line stays.
proof fn lemma_all_lines_kept(lines: Seq<Seq<char>>)
    requires
        forall|i: int| 0 <= i < lines.len() ==> !migrate::opens_sources(#[trigger] lines[i]),
    ensures
        migrate::kept_lines(lines, None) == lines,
    decreases lines.len(),
{
    if lines.len() > 0 {
        assert(!migrate::opens_sources(lines[0]));
        assert forall|i: int| 0 <= i < lines.skip(1).len() implies !migrate::opens_sources(
            #[trigger] lines.skip(1)[i],
        ) by {
            assert(lines.skip(1)[i] == lines[i + 1]);
        }
        lemma_all_lines_kept(lines.skip(1));
        assert(seq![lines[0]] + lines.skip(1) =~= lines);
    } else {
        assert(lines =~= Seq::empty());
    }
}

/// A text without carriage returns is its lines, joined by line feeds.
proof fn lemma_lines_joined(s: Seq<char>)
    requires
        !s.contains('\r'),
    ensures
        s == text::join(text::lines(s), seq!['\n']) + (if text::ends(s, seq!['\n']) {
            seq!['\n']
        } else {
            Seq::empty()
        }),
    decreases s.len(),
{
    let feed = seq!['\n'];
    text::lemma_find(s, '\n');
    let k = text::find(s, '\n');
    if s.len() == 0 {
        assert(!text::ends(s, feed));
        assert(s =~= Seq::empty());
    } else if k < s.len() {
        let head = s.take(k);
        let rest = s.skip(k + 1);
        assert(text::without_cr(head) == head) by {
            if head.len() > 0 {
                assert(s.contains(s[k - 1]));
                assert(head.last() == s[k - 1]);
            }
        }
        assert(!rest.contains('\r')) by {
            if rest.contains('\r') {
                let i = rest.index_of('\r');
                assert(s[k + 1 + i] == '\r');
                assert(s.contains(s[k + 1 + i]));
            }
        }
        lemma_lines_joined(rest);
        let tail = text::lines(rest);
        assert(s =~= head + feed + rest);
        if rest.len() == 0 {
            assert(tail =~= Seq::empty());
            assert(text::lines(s) =~= seq![head]);
            assert(s.skip(s.len() - 1) =~= feed);
            assert(s =~= head + feed);
        } else {
            assert(tail.len() > 0);
            text::lemma_join_cons(head, tail, feed);
            assert(s.skip(s.len() - 1) =~= rest.skip(rest.len() - 1));
            let end = if text::ends(rest, feed) {
                feed
            } else {
                Seq::empty()
            };
            assert(head + feed + (text::join(tail, feed) + end) =~= (head + feed + text::join(
                tail,
                feed,
            )) + end);
        }
    } else {
        assert(!text::ends(s, feed)) by {
            if text::ends(s, feed) {
                assert(s.skip(s.len() - 1)[0] == '\n');
                assert(s[s.len() - 1] == '\n');
            }
        }
        assert(text::lines(s) =~= seq![s]);
        assert(s + Seq::<char>::empty() =~= s);
    }
}

/// A pipeline file without a block of sources, with plain line feeds, is left as it
/// is.
pub proof fn lemma_without_sources_unchanged(content: Seq<char>)
    requires
        !content.contains('\r'),
        forall|i: int|
            0 <= i < text::lines(content).len() ==> !migrate::opens_sources(
                #[trigger] text::lines(content)[i],
            ),
    ensures
        migrate::stripped(content) == content,
{
    reveal_strlit("\n");
    assert("\n"@ =~= seq!['\n']);
    lemma_all_lines_kept(text::lines(content));
    lemma_lines_joined(content);
    let joined = text::join(text::lines(content), "\n"@);
    assert(joined + Seq::<char>::empty() =~= joined);
}

/// The lines that stay are lines of the file, in their order: `places` says where
/// each of them stands.
pub proof fn lemma_kept_in_order(lines: Seq<Seq<char>>, block: Option<nat>) -> (places: Seq<int>)
    ensures
        places.len() == migrate::kept_lines(lines, block).len(),
        forall|i: int|
            0 <= i < places.len() ==> 0 <= #[trigger] places[i] < lines.len() && lines[places[i]]
                == migrate::kept_lines(lines, block)[i],
        forall|i: int, j: int|
            0 <= i < j < places.len() ==> #[trigger] places[i] < #[trigger] places[j],
    decreases lines.len(),
{
    if lines.len() == 0 {
        Seq::empty()
    } else {
        let skips = match block {
            Some(depth) => migrate::in_block(lines[0], depth),
            None => migrate::opens_sources(lines[0]),
        };
        let next = if !skips {
            None
        } else if block is Some {
            block
        } else {
            Some(migrate::indent(lines[0]))
        };
        let later = lemma_kept_in_order(lines.skip(1), next);
        let shifted = later.map_values(|p: int| p + 1);
        assert forall|i: int| 0 <= i < shifted.len() implies lines[#[trigger] shifted[i]]
            == migrate::kept_lines(lines.skip(1), next)[i] by {
            assert(later[i] + 1 == shifted[i]);
            assert(lines.skip(1)[later[i]] == lines[shifted[i]]);
        }
        assert forall|i: int, j: int| 0 <= i < j < shifted.len() implies #[trigger] shifted[i]
            < #[trigger] shifted[j] by {
            assert(later[i] < later[j]);
        }
        if skips {
            shifted
        } else {
            let places = seq![0int] + shifted;
            assert forall|i: int| 0 <= i < places.len() implies 0 <= #[trigger] places[i]
                < lines.len() && lines[places[i]] == migrate::kept_lines(lines, block)[i] by {
                if i > 0 {
                    assert(places[i] == shifted[i - 1]);
                    assert(later[i - 1] + 1 == shifted[i - 1]);
                }
            }
            assert forall|i: int, j: int| 0 <= i < j < places.len() implies #[trigger] places[i]
                < #[trigger] places[j] by {
                assert(places[j] == shifted[j - 1]);
                assert(later[j - 1] + 1 == shifted[j - 1]);
                if i > 0 {
                    assert(places[i] == shifted[i - 1]);
                }
            }
            places
        }
    }
}

/// Where the block of sources that opens at line `open` is over.
pub open spec fn block_over(lines: Seq<Seq<char>>, open: int) -> int {
    migrate::first_line(
        lines,
        open + 1,
        lines.len() as int,
        |l: Seq<char>| !migrate::in_block(l, migrate::indent(lines[open])),
    )
}

proof fn lemma_first_line(
    lines: Seq<Seq<char>>,
    from: int,
    to: int,
    test: spec_fn(Seq<char>) -> bool,
)
    requires
        0 <= from <= to <= lines.len(),
    ensures
        from <= migrate::first_line(lines, from, to, test) <= to,
        forall|i: int| from <= i < migrate::first_line(lines, from, to, test) ==> !test(#[trigger] lines[i]),
        migrate::first_line(lines, from, to, test) < to ==> test(lines[migrate::first_line(lines, from, to, test)]),
    decreases to - from,
{
    if from < to && !test(lines[from]) {
        lemma_first_line(lines, from + 1, to, test);
    }
}

proof fn lemma_skip_block(lines: Seq<Seq<char>>, depth: nat, n: int)
    requires
        0 <= n <= lines.len(),
        forall|i: int| 0 <= i < n ==> migrate::in_block(#[trigger] lines[i], depth),
    ensures
        migrate::kept_lines(lines, Some(depth)) == migrate::kept_lines(lines.skip(n), Some(depth)),
    decreases n,
{
    if n > 0 {
        assert(migrate::in_block(lines[0], depth));
        let rest = lines.skip(1);
        assert forall|i: int| 0 <= i < n - 1 implies migrate::in_block(#[trigger] rest[i], depth) by {
            assert(rest[i] == lines[i + 1]);
        }
        lemma_skip_block(rest, depth, n - 1);
        assert(rest.skip(n - 1) =~= lines.skip(n));
    } else {
        assert(lines.skip(0) =~= lines);
    }
}

proof fn lemma_keep_until(lines: Seq<Seq<char>>, n: int)
    requires
        0 <= n <= lines.len(),
        forall|i: int| 0 <= i < n ==> !migrate::opens_sources(#[trigger] lines[i]),
    ensures
        migrate::kept_lines(lines, None) == lines.take(n) + migrate::kept_lines(lines.skip(n), None),
    decreases n,
{
    if n > 0 {
        assert(!migrate::opens_sources(lines[0]));
        let rest = lines.skip(1);
        assert forall|i: int| 0 <= i < n - 1 implies !migrate::opens_sources(#[trigger] rest[i]) by {
            assert(rest[i] == lines[i + 1]);
        }
        lemma_keep_until(rest, n - 1);
        assert(rest.skip(n - 1) =~= lines.skip(n));
        assert(seq![lines[0]] + (rest.take(n - 1) + migrate::kept_lines(lines.skip(n), None)) =~= lines.take(
            n,
        ) + migrate::kept_lines(lines.skip(n), None));
    } else {
        assert(lines.skip(0) =~= lines);
        assert(lines.take(0) + migrate::kept_lines(lines, None) =~= migrate::kept_lines(lines, None));
    }
}

/// Of a file with one block of sources, that block is removed and nothing else.
pub proof fn lemma_one_block_removed(lines: Seq<Seq<char>>)
    requires
        migrate::block_start(lines) < lines.len(),
        forall|i: int|
            block_over(lines, migrate::block_start(lines)) < i < lines.len() ==> !migrate::opens_sources(
                #[trigger] lines[i],
            ),
    ensures
        migrate::kept_lines(lines, None) == lines.take(migrate::block_start(lines)) + lines.skip(
            block_over(lines, migrate::block_start(lines)),
        ),
{
    let len = lines.len() as int;
    lemma_first_line(lines, 0, len, |l: Seq<char>| migrate::opens_sources(l));
    let open = migrate::block_start(lines);
    let depth = migrate::indent(lines[open]);
    let over = block_over(lines, open);
    lemma_first_line(lines, open + 1, len, |l: Seq<char>| !migrate::in_block(l, depth));
    assert forall|i: int| 0 <= i < open implies !migrate::opens_sources(#[trigger] lines[i]) by {
        let test = |l: Seq<char>| migrate::opens_sources(l);
        assert(!test(lines[i]));
    }
    lemma_keep_until(lines, open);
    let block = lines.skip(open);
    assert(block[0] == lines[open]);
    let inner = block.skip(1);
    assert(inner =~= lines.skip(open + 1));
    let n = over - open - 1;
    assert forall|i: int| 0 <= i < n implies migrate::in_block(#[trigger] inner[i], depth) by {
        let test = |l: Seq<char>| !migrate::in_block(l, depth);
        assert(inner[i] == lines[open + 1 + i]);
        assert(!test(lines[open + 1 + i]));
    }
    lemma_skip_block(inner, depth, n);
    let rest = lines.skip(over);
    assert(inner.skip(n) =~= rest);
    if over < len {
        let later = rest.skip(1);
        assert(rest[0] == lines[over]);
        assert forall|i: int| 0 <= i < later.len() implies !migrate::opens_sources(#[trigger] later[i]) by {
            assert(later[i] == lines[over + 1 + i]);
        }
        lemma_all_lines_kept(later);
        assert(seq![rest[0]] + later =~= rest);
    } else {
        assert(rest =~= Seq::empty());
    }
}

// ---------------------------------------------------------------------------
// Reading back what was written
// ---------------------------------------------------------------------------

/// A line of a source as it is written, without its line feed; `entry` is the indent
/// of the line that begins the entry.
pub open spec fn row(line: Seq<char>, entry: Option<int>) -> Seq<char> {
    "  "@ + migrate::spaces(migrate::depth_in_entry(line, entry)) + text::trimmed(line)
}

/// The lines that are written.
pub open spec fn rows(lines: Seq<Seq<char>>) -> Seq<Seq<char>>
    decreases lines.len(),
{
    if lines.len() == 0 {
        Seq::empty()
    } else if text::trimmed(lines.last()).len() == 0 {
        rows(lines.drop_last())
    } else {
        rows(lines.drop_last()).push(row(lines.last(), migrate::entry_indent(lines)))
    }
}

/// The lines that are written for the sources.
pub open spec fn all_rows(sources: Seq<Seq<char>>) -> Seq<Seq<char>>
    decreases sources.len(),
{
    if sources.len() == 0 {
        Seq::empty()
    } else {
        all_rows(sources.drop_last()) + rows(text::lines(sources.last()))
    }
}

proof fn lemma_feeds_concat(a: Seq<Seq<char>>, b: Seq<Seq<char>>)
    ensures
        migrate::with_feeds(a + b) == migrate::with_feeds(a) + migrate::with_feeds(b),
    decreases b.len(),
{
    if b.len() == 0 {
        assert(a + b =~= a);
        assert(migrate::with_feeds(a) + migrate::with_feeds(b) =~= migrate::with_feeds(a));
    } else {
        assert((a + b).drop_last() =~= a + b.drop_last());
        lemma_feeds_concat(a, b.drop_last());
        assert(migrate::with_feeds(a) + migrate::with_feeds(b.drop_last()) + b.last() + "\n"@ =~= migrate::with_feeds(a)
            + migrate::with_feeds(b));
    }
}

proof fn lemma_one_feed(line: Seq<char>)
    ensures
        migrate::with_feeds(seq![line]) == line + "\n"@,
{
    reveal_with_fuel(migrate::with_feeds, 2);
    assert(seq![line].drop_last() =~= Seq::empty());
    assert(Seq::<char>::empty() + line + "\n"@ =~= line + "\n"@);
}

proof fn lemma_rows_written(lines: Seq<Seq<char>>)
    ensures
        migrate::written_lines(lines) == migrate::with_feeds(rows(lines)),
    decreases lines.len(),
{
    if lines.len() > 0 {
        lemma_rows_written(lines.drop_last());
        let line = lines.last();
        let before = rows(lines.drop_last());
        let entry = migrate::entry_indent(lines);
        if text::trimmed(line).len() == 0 {
            assert(migrate::written_lines(lines) =~= migrate::written_lines(lines.drop_last()));
        } else {
            assert(rows(lines).drop_last() =~= before);
            assert(migrate::with_feeds(before) + row(line, entry) + "\n"@ =~= migrate::with_feeds(before)
                + migrate::written_line(line, entry));
        }
    }
}

proof fn lemma_all_rows_written(sources: Seq<Seq<char>>)
    ensures
        migrate::written_sources(sources) == migrate::with_feeds(all_rows(sources)),
    decreases sources.len(),
{
    if sources.len() > 0 {
        lemma_all_rows_written(sources.drop_last());
        lemma_rows_written(text::lines(sources.last()));
        lemma_feeds_concat(all_rows(sources.drop_last()), rows(text::lines(sources.last())));
    }
}

/// No line of a text holds a line feed.
proof fn lemma_lines_no_feed(s: Seq<char>)
    ensures
        forall|i: int| 0 <= i < text::lines(s).len() ==> !(#[trigger] text::lines(s)[i]).contains('\n'),
    decreases s.len(),
{
    text::lemma_find(s, '\n');
    let k = text::find(s, '\n');
    if s.len() > 0 && k < s.len() {
        lemma_lines_no_feed(s.skip(k + 1));
        let head = s.take(k);
        let rest = text::lines(s.skip(k + 1));
        let first = text::without_cr(head);
        assert(!first.contains('\n')) by {
            if first.contains('\n') {
                let i = first.index_of('\n');
                assert(s[i] == '\n');
            }
        }
        assert forall|i: int| 0 <= i < text::lines(s).len() implies !(#[trigger] text::lines(
            s,
        )[i]).contains('\n') by {
            if i > 0 {
                assert(text::lines(s)[i] == rest[i - 1]);
            }
        }
    } else if s.len() > 0 {
        assert(!s.contains('\n')) by {
            if s.contains('\n') {
                let i = s.index_of('\n');
                assert(s[i] == '\n');
            }
        }
    }
}

/// The lines of lines with feeds behind them are those lines, without a carriage
/// return at their end.
proof fn lemma_lines_of_feeds(lines: Seq<Seq<char>>)
    requires
        forall|i: int| 0 <= i < lines.len() ==> !(#[trigger] lines[i]).contains('\n'),
    ensures
        text::lines(migrate::with_feeds(lines)) == lines.map_values(|l: Seq<char>| text::without_cr(l)),
    decreases lines.len(),
{
    reveal_strlit("\n");
    let plain = lines.map_values(|l: Seq<char>| text::without_cr(l));
    if lines.len() == 0 {
        assert(plain =~= Seq::empty());
    } else {
        let head = lines[0];
        let tail = lines.skip(1);
        assert(lines =~= seq![head] + tail);
        lemma_feeds_concat(seq![head], tail);
        lemma_one_feed(head);
        let whole = migrate::with_feeds(lines);
        let k = head.len() as int;
        assert forall|i: int| 0 <= i < k implies whole[i] != '\n' by {
            assert(whole[i] == head[i]);
            assert(head.contains(head[i]));
        }
        assert(whole[k] == '\n');
        text::lemma_find_unique(whole, '\n', k);
        assert(whole.take(k) =~= head);
        assert(whole.skip(k + 1) =~= migrate::with_feeds(tail));
        assert forall|i: int| 0 <= i < tail.len() implies !(#[trigger] tail[i]).contains('\n') by {
            assert(tail[i] == lines[i + 1]);
        }
        lemma_lines_of_feeds(tail);
        assert(plain =~= seq![text::without_cr(head)] + tail.map_values(
            |l: Seq<char>| text::without_cr(l),
        ));
    }
}

/// What a written line is: it begins with a space, holds no line feed, does not end
/// with a carriage return, and trims to what the line trims to.
proof fn lemma_row(line: Seq<char>, entry: Option<int>)
    requires
        !line.contains('\n'),
        text::trimmed(line).len() > 0,
    ensures
        text::trimmed(row(line, entry)) == text::trimmed(line),
        text::lead(row(line, entry)) == 2 + migrate::depth_in_entry(line, entry),
        text::begins(row(line, entry), " "@),
        !row(line, entry).contains('\n'),
        text::without_cr(row(line, entry)) == row(line, entry),
{
    reveal_strlit("  ");
    reveal_strlit(" ");
    let t = text::trimmed(line);
    text::lemma_trimmed(line);
    let pad = "  "@ + migrate::spaces(migrate::depth_in_entry(line, entry));
    let r = row(line, entry);
    assert forall|i: int| 0 <= i < pad.len() implies #[trigger] pad[i] == ' ' by {}
    assert(r =~= pad + t);
    text::lemma_trim_padded(pad, t);
    assert forall|i: int| 0 <= i < pad.len() implies text::white(#[trigger] r[i]) by {
        assert(r[i] == pad[i]);
    }
    assert(r[pad.len() as int] == t[0]);
    text::lemma_lead_unique(r, pad.len() as int);
    assert(r.take(1) =~= " "@);
    assert(r.last() == t.last());
    if r.contains('\n') {
        let i = r.index_of('\n');
        if i < pad.len() {
            assert(r[i] == pad[i]);
        }
        let j = i - pad.len();
        assert(t[j] == '\n');
        assert(line[text::lead(line) + j] == '\n');
        assert(line.contains('\n'));
    }
}

/// [`lemma_row`] of all the lines that are written.
proof fn lemma_rows(lines: Seq<Seq<char>>)
    requires
        forall|i: int| 0 <= i < lines.len() ==> !(#[trigger] lines[i]).contains('\n'),
    ensures
        forall|i: int|
            0 <= i < rows(lines).len() ==> plain_row(#[trigger] rows(lines)[i]),
    decreases lines.len(),
{
    if lines.len() > 0 {
        let front = lines.drop_last();
        assert forall|i: int| 0 <= i < front.len() implies !(#[trigger] front[i]).contains('\n') by {
            assert(front[i] == lines[i]);
        }
        lemma_rows(front);
        assert(!lines[lines.len() - 1].contains('\n'));
        if text::trimmed(lines.last()).len() > 0 {
            lemma_row(lines.last(), migrate::entry_indent(lines));
            let before = rows(front);
            assert forall|i: int| 0 <= i < rows(lines).len() implies plain_row(
                #[trigger] rows(lines)[i],
            ) by {
                if i < before.len() {
                    assert(rows(lines)[i] == before[i]);
                }
            }
        }
    }
}

/// A line as it is written.
pub open spec fn plain_row(line: Seq<char>) -> bool {
    &&& text::begins(line, " "@)
    &&& !line.contains('\n')
    &&& text::without_cr(line) == line
    &&& text::trimmed(line).len() > 0
}

proof fn lemma_all_rows(sources: Seq<Seq<char>>)
    ensures
        forall|i: int|
            0 <= i < all_rows(sources).len() ==> plain_row(#[trigger] all_rows(sources)[i]),
    decreases sources.len(),
{
    if sources.len() > 0 {
        lemma_all_rows(sources.drop_last());
        let lines = text::lines(sources.last());
        lemma_lines_no_feed(sources.last());
        lemma_rows(lines);
        let a = all_rows(sources.drop_last());
        let b = rows(lines);
        assert forall|i: int| 0 <= i < (a + b).len() implies plain_row(#[trigger] (a + b)[i]) by {
            if i < a.len() {
                assert((a + b)[i] == a[i]);
            } else {
                assert((a + b)[i] == b[i - a.len()]);
            }
        }
    }
}

/// The line that opens a file of sources.
proof fn lemma_opening_line()
    ensures
        migrate::opens_sources("sources:"@),
        !"sources:"@.contains('\n'),
        text::without_cr("sources:"@) == "sources:"@,
        "sources:\n"@ == "sources:"@ + "\n"@,
{
    reveal_strlit("sources:");
    reveal_strlit("sources:\n");
    reveal_strlit("\n");
    let s = "sources:"@;
    let none = Seq::<char>::empty();
    text::lemma_trim_padded(none, s);
    assert(none + s =~= s);
    assert(s.take(8) =~= s);
    assert(s.skip(8) =~= none);
    assert("sources:\n"@ =~= s + "\n"@);
}

/// The lines of a file of sources.
proof fn lemma_file_lines(sources: Seq<Seq<char>>)
    ensures
        text::lines(migrate::sources_file(sources)) == seq!["sources:"@] + all_rows(sources),
{
    let first = "sources:"@;
    let body = all_rows(sources);
    let all = seq![first] + body;
    lemma_opening_line();
    lemma_all_rows_written(sources);
    lemma_all_rows(sources);
    lemma_feeds_concat(seq![first], body);
    lemma_one_feed(first);
    assert forall|i: int| 0 <= i < all.len() implies !(#[trigger] all[i]).contains('\n')
        && text::without_cr(all[i]) == all[i] by {
        if i > 0 {
            assert(plain_row(body[i - 1]));
            assert(all[i] == body[i - 1]);
        }
    }
    lemma_lines_of_feeds(all);
    assert(all.map_values(|l: Seq<char>| text::without_cr(l)) =~= all);
}

/// The text is one entry of a list of sources, with that ID: its first line begins
/// the source, and no other begins one.
pub open spec fn is_entry(source: Seq<char>, id: Seq<char>) -> bool {
    let lines = rows(text::lines(source));
    &&& lines.len() > 0
    &&& migrate::begins_this(lines[0], id)
    &&& forall|k: int| 0 < k < lines.len() ==> !migrate::begins_source(#[trigger] lines[k])
}

/// The text is one entry, and not the one with that ID.
pub open spec fn is_other_entry(source: Seq<char>, id: Seq<char>) -> bool {
    let lines = rows(text::lines(source));
    &&& lines.len() > 0
    &&& migrate::begins_other(lines[0], id)
    &&& forall|k: int| 0 < k < lines.len() ==> !migrate::begins_source(#[trigger] lines[k])
}

pub proof fn lemma_last_line(
    lines: Seq<Seq<char>>,
    from: int,
    to: int,
    test: spec_fn(Seq<char>) -> bool,
    k: int,
)
    requires
        0 <= from <= k < to <= lines.len(),
        test(lines[k]),
        forall|i: int| k < i < to ==> !test(#[trigger] lines[i]),
    ensures
        migrate::last_line(lines, from, to, test) == Some(k),
    decreases to - from,
{
    if k < to - 1 {
        assert(!test(lines[to - 1]));
        lemma_last_line(lines, from, to - 1, test, k);
    }
}

pub proof fn lemma_first_line_unique(
    lines: Seq<Seq<char>>,
    from: int,
    to: int,
    test: spec_fn(Seq<char>) -> bool,
    k: int,
)
    requires
        0 <= from <= k <= to <= lines.len(),
        forall|i: int| from <= i < k ==> !test(#[trigger] lines[i]),
        k < to ==> test(lines[k]),
    ensures
        migrate::first_line(lines, from, to, test) == k,
    decreases to - from,
{
    if from < k {
        assert(!test(lines[from]));
        lemma_first_line_unique(lines, from + 1, to, test, k);
    }
}

/// How many lines are written for the first `n` sources.
spec fn offset(sources: Seq<Seq<char>>, n: int) -> nat {
    all_rows(sources.take(n)).len()
}

/// The lines that are written for one source stand behind those of the sources
/// before it.
proof fn lemma_rows_place(sources: Seq<Seq<char>>, n: int)
    requires
        0 <= n < sources.len(),
    ensures
        offset(sources, n + 1) == offset(sources, n) + rows(text::lines(sources[n])).len(),
        offset(sources, n + 1) <= all_rows(sources).len(),
        all_rows(sources).subrange(offset(sources, n) as int, offset(sources, n + 1) as int)
            == rows(text::lines(sources[n])),
    decreases sources.len() - n,
{
    let front = sources.take(n);
    let mine = rows(text::lines(sources[n]));
    assert(sources.take(n + 1).drop_last() =~= front);
    lemma_rows_prefix(sources, n + 1);
    let so_far = all_rows(sources.take(n + 1));
    assert(so_far == all_rows(front) + mine);
    let lo = offset(sources, n) as int;
    let hi = offset(sources, n + 1) as int;
    assert(all_rows(sources).subrange(lo, hi) =~= so_far.subrange(lo, hi)) by {
        assert(all_rows(sources).take(hi) =~= so_far);
        assert forall|i: int| 0 <= i < hi - lo implies all_rows(sources).subrange(lo, hi)[i]
            == so_far.subrange(lo, hi)[i] by {
            assert(all_rows(sources).take(hi)[lo + i] == so_far[lo + i]);
        }
    }
    assert(so_far.subrange(lo, hi) =~= mine);
}

proof fn lemma_rows_prefix(sources: Seq<Seq<char>>, n: int)
    requires
        0 <= n <= sources.len(),
    ensures
        offset(sources, n) <= all_rows(sources).len(),
        all_rows(sources).take(offset(sources, n) as int) == all_rows(sources.take(n)),
    decreases sources.len() - n,
{
    if n == sources.len() {
        assert(sources.take(n) =~= sources);
        assert(all_rows(sources).take(all_rows(sources).len() as int) =~= all_rows(sources));
    } else {
        lemma_rows_prefix(sources, n + 1);
        assert(sources.take(n + 1).drop_last() =~= sources.take(n));
        let a = all_rows(sources.take(n));
        let b = rows(text::lines(sources[n]));
        assert(all_rows(sources.take(n + 1)) == a + b);
        let lo = offset(sources, n) as int;
        let hi = offset(sources, n + 1) as int;
        assert(all_rows(sources).take(lo) =~= all_rows(sources).take(hi).take(lo));
        assert((a + b).take(lo) =~= a);
    }
}

/// No line of the sources from `from` on, before `to`, begins the source with that
/// ID.
proof fn lemma_no_other_begins(sources: Seq<Seq<char>>, from: int, id: Seq<char>)
    requires
        0 <= from <= sources.len(),
        forall|j: int| from <= j < sources.len() ==> is_other_entry(#[trigger] sources[j], id),
    ensures
        forall|i: int|
            offset(sources, from) <= i < all_rows(sources).len() ==> !migrate::begins_this(
                #[trigger] all_rows(sources)[i],
                id,
            ),
        from < sources.len() ==> migrate::begins_other(
            all_rows(sources)[offset(sources, from) as int],
            id,
        ) && offset(sources, from) < all_rows(sources).len(),
    decreases sources.len() - from,
{
    let all = all_rows(sources);
    if from < sources.len() {
        lemma_no_other_begins(sources, from + 1, id);
        lemma_rows_place(sources, from);
        let lo = offset(sources, from) as int;
        let hi = offset(sources, from + 1) as int;
        let mine = rows(text::lines(sources[from]));
        assert(is_other_entry(sources[from], id));
        assert(all.subrange(lo, hi)[0] == all[lo]);
        assert forall|i: int| lo <= i < all.len() implies !migrate::begins_this(#[trigger] all[i], id) by {
            if i < hi {
                assert(all.subrange(lo, hi)[i - lo] == all[i]);
                assert(mine[i - lo] == all[i]);
            }
        }
    } else {
        assert(sources.take(from) =~= sources);
    }
}

/// A source that was written to a file of sources is read back from it, as it was
/// written, if each of the sources is one entry and no other has its ID.
pub proof fn lemma_written_source_is_read_back(sources: Seq<Seq<char>>, n: int, id: Seq<char>)
    requires
        0 <= n < sources.len(),
        is_entry(sources[n], id),
        forall|j: int|
            0 <= j < sources.len() && j != n ==> is_other_entry(#[trigger] sources[j], id),
    ensures
        migrate::source_text(migrate::sources_file(sources), id) == migrate::written_lines(text::lines(sources[n])),
{
    let file = text::lines(migrate::sources_file(sources));
    let body = all_rows(sources);
    let len = file.len() as int;
    lemma_file_lines(sources);
    lemma_opening_line();
    lemma_all_rows(sources);
    assert forall|i: int| 0 <= i < body.len() implies #[trigger] file[i + 1] == body[i] by {}
    let opening = |l: Seq<char>| migrate::opens_sources(l);
    lemma_first_line_unique(file, 0, len, opening, 0);
    let closing = |l: Seq<char>| migrate::closes_sources(l);
    assert forall|i: int| 1 <= i < len implies !closing(#[trigger] file[i]) by {
        assert(file[i] == body[i - 1]);
        assert(plain_row(body[i - 1]));
    }
    lemma_first_line_unique(file, 1, len, closing, len);
    lemma_rows_place(sources, n);
    let lo = offset(sources, n) as int;
    let hi = offset(sources, n + 1) as int;
    let mine = rows(text::lines(sources[n]));
    assert forall|i: int| lo <= i < hi implies #[trigger] body[i] == mine[i - lo] by {
        assert(body.subrange(lo, hi)[i - lo] == body[i]);
    }
    lemma_no_other_begins(sources, n + 1, id);
    let this = |l: Seq<char>| migrate::begins_this(l, id);
    assert(file[lo + 1] == body[lo]);
    assert forall|i: int| lo + 1 < i < len implies !this(#[trigger] file[i]) by {
        assert(file[i] == body[i - 1]);
        if i - 1 < hi {
            assert(body[i - 1] == mine[i - 1 - lo]);
        }
    }
    lemma_last_line(file, 1, len, this, lo + 1);
    let other = |l: Seq<char>| migrate::begins_other(l, id);
    assert forall|i: int| lo + 2 <= i < hi + 1 implies !other(#[trigger] file[i]) by {
        assert(file[i] == body[i - 1]);
        assert(body[i - 1] == mine[i - 1 - lo]);
    }
    if hi + 1 < len {
        assert(n + 1 < sources.len()) by {
            if n + 1 == sources.len() {
                assert(sources.take(n + 1) =~= sources);
            }
        }
        assert(file[hi + 1] == body[hi]);
    }
    lemma_first_line_unique(file, lo + 2, len, other, hi + 1);
    assert(file.subrange(lo + 1, hi + 1) =~= mine) by {
        assert forall|i: int| 0 <= i < hi - lo implies file.subrange(lo + 1, hi + 1)[i]
            == mine[i] by {
            assert(file[lo + 1 + i] == body[lo + i]);
            assert(body[lo + i] == mine[i]);
        }
    }
    lemma_rows_written(text::lines(sources[n]));
}

proof fn lemma_last_line_place(
    lines: Seq<Seq<char>>,
    from: int,
    to: int,
    test: spec_fn(Seq<char>) -> bool,
)
    ensures
        migrate::last_line(lines, from, to, test) matches Some(k) ==> from <= k < to && test(lines[k])
            && forall|i: int| k < i < to ==> !test(#[trigger] lines[i]),
    decreases to - from,
{
    if from < to && !test(lines[to - 1]) {
        lemma_last_line_place(lines, from, to - 1, test);
    }
}

/// The lines that are written for lines of which only the first begins a source.
proof fn lemma_rows_of_entry(lines: Seq<Seq<char>>)
    requires
        lines.len() > 0,
        text::trimmed(lines[0]).len() > 0,
        forall|i: int| 0 <= i < lines.len() ==> !(#[trigger] lines[i]).contains('\n'),
        forall|i: int| 0 < i < lines.len() ==> !migrate::begins_source(#[trigger] lines[i]),
    ensures
        rows(lines).len() > 0,
        rows(lines)[0] == row(lines[0], migrate::entry_indent(seq![lines[0]])),
        forall|k: int| 0 < k < rows(lines).len() ==> !migrate::begins_source(#[trigger] rows(lines)[k]),
    decreases lines.len(),
{
    let front = lines.drop_last();
    let last = lines.last();
    if front.len() == 0 {
        reveal_with_fuel(rows, 2);
        assert(rows(front) =~= Seq::empty());
        assert(lines =~= seq![lines[0]]);
    } else {
        assert forall|i: int| 0 <= i < front.len() implies !(#[trigger] front[i]).contains('\n') by {
            assert(front[i] == lines[i]);
        }
        assert forall|i: int| 0 < i < front.len() implies !migrate::begins_source(#[trigger] front[i]) by {
            assert(front[i] == lines[i]);
        }
        lemma_rows_of_entry(front);
        assert(!migrate::begins_source(lines[lines.len() - 1]));
        assert(!lines[lines.len() - 1].contains('\n'));
        if text::trimmed(last).len() > 0 {
            lemma_row(last, migrate::entry_indent(lines));
            let before = rows(front);
            assert forall|k: int| 0 < k < rows(lines).len() implies !migrate::begins_source(
                #[trigger] rows(lines)[k],
            ) by {
                if k < before.len() {
                    assert(rows(lines)[k] == before[k]);
                } else {
                    assert(rows(lines)[k] == row(last, migrate::entry_indent(lines)));
                }
            }
        }
    }
}

/// What is extracted for an ID that the block of sources has is one entry with that
/// ID.
pub proof fn lemma_extracted_is_entry(content: Seq<char>, id: Seq<char>)
    requires
        migrate::source_lines(text::lines(content), id) is Some,
    ensures
        is_entry(migrate::source_text(content, id), id),
{
    let all = text::lines(content);
    let len = all.len() as int;
    let this = |l: Seq<char>| migrate::begins_this(l, id);
    let other = |l: Seq<char>| migrate::begins_other(l, id);
    let opening = |l: Seq<char>| migrate::opens_sources(l);
    let closing = |l: Seq<char>| migrate::closes_sources(l);
    lemma_first_line(all, 0, len, opening);
    let open = migrate::block_start(all);
    lemma_last_line_place(all, open + 1, migrate::block_end(all), this);
    if open < len {
        lemma_first_line(all, open + 1, len, closing);
    }
    let close = migrate::block_end(all);
    let start = migrate::last_line(all, open + 1, close, this)->0;
    lemma_first_line(all, start + 1, close, other);
    let end = migrate::first_line(all, start + 1, close, other);
    let mine = all.subrange(start, end);
    let plain = mine.map_values(|l: Seq<char>| text::without_cr(l));
    lemma_lines_no_feed(content);
    assert forall|i: int| 0 <= i < mine.len() implies !(#[trigger] mine[i]).contains('\n') by {
        assert(mine[i] == all[start + i]);
    }
    lemma_lines_of_feeds(mine);
    assert forall|i: int| 0 <= i < plain.len() implies !(#[trigger] plain[i]).contains('\n')
        && text::trimmed(plain[i]) == text::trimmed(mine[i]) by {
        text::lemma_trim_without_cr(mine[i]);
        if plain[i].contains('\n') {
            let k = plain[i].index_of('\n');
            assert(mine[i][k] == '\n');
            assert(mine[i].contains('\n'));
        }
    }
    assert forall|i: int| 0 < i < plain.len() implies !migrate::begins_source(#[trigger] plain[i]) by {
        assert(mine[i] == all[start + i]);
        assert(!this(all[start + i]));
        assert(!other(all[start + i]));
        assert(text::trimmed(plain[i]) == text::trimmed(mine[i]));
    }
    assert(mine[0] == all[start]);
    assert(this(all[start]));
    assert(text::trimmed(plain[0]) == text::trimmed(mine[0]));
    reveal_strlit("- id:");
    reveal_strlit("-  id:");
    lemma_rows_of_entry(plain);
    lemma_row(plain[0], migrate::entry_indent(seq![plain[0]]));
}

/// A source keeps its relative indentation: the line that begins it is written at two
/// spaces, and every other line at two more than it lay deeper than that line, or at
/// two if it did not. `n` is the place of the line.
pub proof fn lemma_relative_indentation_kept(lines: Seq<Seq<char>>, n: int)
    requires
        0 <= n < lines.len(),
        migrate::begins_source(lines[0]),
        forall|i: int| 0 < i < lines.len() ==> !migrate::begins_source(#[trigger] lines[i]),
        text::trimmed(lines[n]).len() > 0,
        !lines[n].contains('\n'),
    ensures
        migrate::written_lines(lines.take(n + 1)) == migrate::written_lines(lines.take(n)) + row(
            lines[n],
            Some(text::lead(lines[0])),
        ) + "\n"@,
        text::trimmed(row(lines[n], Some(text::lead(lines[0])))) == text::trimmed(lines[n]),
        text::lead(row(lines[n], Some(text::lead(lines[0])))) == 2 + (if text::lead(lines[n])
            > text::lead(lines[0]) {
            text::lead(lines[n]) - text::lead(lines[0])
        } else {
            0
        }),
{
    let front = lines.take(n + 1);
    assert(front.drop_last() =~= lines.take(n));
    lemma_entry_indent(lines, n + 1);
    lemma_row(lines[n], Some(text::lead(lines[0])));
    let before = migrate::written_lines(lines.take(n));
    assert(before + row(lines[n], Some(text::lead(lines[0]))) + "\n"@ =~= before
        + migrate::written_line(lines[n], Some(text::lead(lines[0]))));
}

proof fn lemma_entry_indent(lines: Seq<Seq<char>>, n: int)
    requires
        0 < n <= lines.len(),
        migrate::begins_source(lines[0]),
        forall|i: int| 0 < i < lines.len() ==> !migrate::begins_source(#[trigger] lines[i]),
    ensures
        migrate::entry_indent(lines.take(n)) == Some(text::lead(lines[0])),
    decreases n,
{
    assert(lines.take(n).last() == lines[n - 1]);
    if n > 1 {
        assert(lines.take(n).drop_last() =~= lines.take(n - 1));
        lemma_entry_indent(lines, n - 1);
    }
}

// ---------------------------------------------------------------------------
// Each source once
// ---------------------------------------------------------------------------

/// What will be written is what was declared: the source of each ID once, in the order
/// in which the IDs came first.
pub open spec fn holds_each_once(m: MigrationView) -> bool {
    &&& table::distinct(m.seen)
    &&& migrate::consolidated(m.per_pipeline) == m.seen.map_values(
        |e: (Seq<char>, DeclarationView)| e.1.text,
    )
}

/// Of a pipeline without conflict no ID stands twice, and none clashes.
proof fn lemma_no_conflict(
    seen: Seq<(Seq<char>, DeclarationView)>,
    ids: Seq<Seq<char>>,
    path: Seq<char>,
    content: Seq<char>,
)
    requires
        migrate::conflict(seen, ids, path, content) is None,
    ensures
        ids.no_duplicates(),
        forall|k: int|
            0 <= k < ids.len() ==> match table::value_of(seen, #[trigger] ids[k]) {
                Some(first) => migrate::same_source(
                    first,
                    migrate::declaration(path, content, ids[k]),
                ),
                None => true,
            },
    decreases ids.len(),
{
    if ids.len() > 0 {
        let front = ids.drop_last();
        lemma_no_conflict(seen, front, path, content);
        assert(migrate::clash(seen, front, path, content, ids.last()) is None);
        assert forall|i: int, j: int|
            0 <= i < ids.len() && 0 <= j < ids.len() && i != j implies ids[i] != ids[j] by {
            if i < front.len() {
                assert(front[i] == ids[i]);
                assert(front.contains(ids[i]));
            }
            if j < front.len() {
                assert(front[j] == ids[j]);
                assert(front.contains(ids[j]));
            }
        }
        assert forall|k: int|
            0 <= k < ids.len() implies match table::value_of(seen, #[trigger] ids[k]) {
            Some(first) => migrate::same_source(
                first,
                migrate::declaration(path, content, ids[k]),
            ),
            None => true,
        } by {
            if k < front.len() {
                assert(front[k] == ids[k]);
            }
        }
    }
}

/// The fresh IDs are those that were not declared before, each once.
proof fn lemma_fresh_ids(seen: Seq<(Seq<char>, DeclarationView)>, ids: Seq<Seq<char>>)
    requires
        ids.no_duplicates(),
    ensures
        migrate::fresh_ids(seen, ids).no_duplicates(),
        forall|x: Seq<char>| #[trigger]
            migrate::fresh_ids(seen, ids).contains(x) <==> ids.contains(x) && table::value_of(
                seen,
                x,
            ) is None,
    decreases ids.len(),
{
    if ids.len() > 0 {
        let front = ids.drop_last();
        let last = ids.last();
        let before = migrate::fresh_ids(seen, front);
        let fresh = migrate::fresh_ids(seen, ids);
        lemma_fresh_ids(seen, front);
        assert(ids[ids.len() - 1] == last);
        assert(!front.contains(last)) by {
            if front.contains(last) {
                let i = front.index_of(last);
                assert(ids[i] == ids[ids.len() - 1]);
            }
        }
        assert forall|x: Seq<char>| #[trigger] ids.contains(x) <==> front.contains(x) || x
            == last by {
            if ids.contains(x) && x != last {
                assert(front[ids.index_of(x)] == x);
            }
            if front.contains(x) {
                assert(ids[front.index_of(x)] == x);
            }
        }
        if table::value_of(seen, last) is None {
            assert(!before.contains(last));
            assert forall|x: Seq<char>| #[trigger] fresh.contains(x) <==> before.contains(x) || x
                == last by {
                if before.contains(x) {
                    assert(fresh[before.index_of(x)] == x);
                }
                assert(fresh[before.len() as int] == last);
                if fresh.contains(x) && x != last {
                    assert(before[fresh.index_of(x)] == x);
                }
            }
            assert forall|i: int, j: int|
                0 <= i < fresh.len() && 0 <= j < fresh.len() && i != j implies fresh[i]
                != fresh[j] by {
                if i < before.len() {
                    assert(before.contains(before[i]));
                }
                if j < before.len() {
                    assert(before.contains(before[j]));
                }
            }
        }
    }
}

/// A migration in which nothing has been read holds each source once, and one that
/// does so still does with one more pipeline. Each source that this pipeline declares
/// is held then, in the way in which it is written.
pub proof fn lemma_each_source_is_kept_once(
    m: MigrationView,
    path: Seq<char>,
    stem: Seq<char>,
    content: Seq<char>,
    ids: Seq<Seq<char>>,
)
    requires
        holds_each_once(m),
        migrate::conflict(m.seen, ids, path, content) is None,
    ensures
        holds_each_once(
            (MigrationView {
                seen: Seq::empty(),
                per_pipeline: Seq::empty(),
                without: Seq::empty(),
            }),
        ),
        holds_each_once(migrate::with_pipeline(m, path, stem, content, ids)),
        forall|k: int|
            0 <= k < ids.len() ==> is_written(
                migrate::with_pipeline(m, path, stem, content, ids),
                migrate::source_text(content, #[trigger] ids[k]),
            ),
{
    let none: Seq<(Seq<char>, DeclarationView)> = Seq::empty();
    assert(none.map_values(|e: (Seq<char>, DeclarationView)| e.1.text) =~= Seq::empty());
    lemma_no_conflict(m.seen, ids, path, content);
    lemma_fresh_ids(m.seen, ids);
    if ids.len() > 0 {
        let after = migrate::with_pipeline(m, path, stem, content, ids);
        let fresh = migrate::fresh_ids(m.seen, ids);
        let added = migrate::declarations(path, content, fresh);
        let old_texts = m.seen.map_values(|e: (Seq<char>, DeclarationView)| e.1.text);
        let texts = after.seen.map_values(|e: (Seq<char>, DeclarationView)| e.1.text);
        assert forall|i: int, j: int| 0 <= i < j < after.seen.len() implies (
        #[trigger] after.seen[i]).0 != (#[trigger] after.seen[j]).0 by {
            let n = m.seen.len();
            if j >= n {
                assert(after.seen[j] == added[j - n]);
                assert(fresh.contains(fresh[j - n]));
                table::lemma_position(m.seen, fresh[j - n]);
                if i >= n {
                    assert(after.seen[i] == added[i - n]);
                } else {
                    assert(after.seen[i] == m.seen[i]);
                }
            } else {
                assert(after.seen[i] == m.seen[i] && after.seen[j] == m.seen[j]);
            }
        }
        assert(after.per_pipeline.drop_last() =~= m.per_pipeline);
        assert(texts =~= old_texts + migrate::extracted(content, fresh));
        assert(migrate::consolidated(after.per_pipeline) == texts);
        assert forall|k: int| 0 <= k < ids.len() implies is_written(
            after,
            migrate::source_text(content, #[trigger] ids[k]),
        ) by {
            let id = ids[k];
            assert(ids.contains(id));
            table::lemma_position(m.seen, id);
            if table::value_of(m.seen, id) is None {
                assert(fresh.contains(id));
                let place = m.seen.len() + fresh.index_of(id);
                assert(after.seen[place] == added[fresh.index_of(id)]);
                assert(texts[place] == migrate::source_text(content, id));
                assert(texts.contains(texts[place]));
            } else {
                let place = table::position(m.seen, id);
                assert(after.seen[place] == m.seen[place]);
                assert(texts[place] == m.seen[place].1.text);
                assert(texts.contains(texts[place]));
            }
        }
    }
}

/// Among the sources there is one that is written like this one.
pub open spec fn is_written(m: MigrationView, source: Seq<char>) -> bool {
    exists|held: Seq<char>| #[trigger]
        migrate::consolidated(m.per_pipeline).contains(held) && migrate::written_source(held)
            == migrate::written_source(source)
}

// ---------------------------------------------------------------------------
// What is shown and what is written
// ---------------------------------------------------------------------------

/// The file of sources holds the source as an entry, as it is written, between other
/// entries.
pub open spec fn holds_entry(file: Seq<char>, source: Seq<char>) -> bool {
    exists|before: Seq<Seq<char>>, behind: Seq<Seq<char>>|
        file == "sources:\n"@ + #[trigger] migrate::written_sources(before)
            + migrate::written_lines(text::lines(source)) + #[trigger] migrate::written_sources(
            behind,
        )
}

/// Some file holds the source as an entry.
pub open spec fn some_file_holds(files: Seq<OutputFileView>, source: Seq<char>) -> bool {
    exists|f: int| 0 <= f < files.len() && holds_entry((#[trigger] files[f]).content, source)
}

proof fn lemma_written_parts(a: Seq<Seq<char>>, b: Seq<Seq<char>>)
    ensures
        migrate::written_sources(a + b) == migrate::written_sources(a) + migrate::written_sources(
            b,
        ),
    decreases b.len(),
{
    if b.len() == 0 {
        assert(a + b =~= a);
        assert(migrate::written_sources(a) + migrate::written_sources(b)
            =~= migrate::written_sources(a));
    } else {
        assert((a + b).drop_last() =~= a + b.drop_last());
        lemma_written_parts(a, b.drop_last());
        assert(migrate::written_sources(a + b) =~= migrate::written_sources(a)
            + migrate::written_sources(b));
    }
}

/// A file of sources is its opening line and, behind it, its entries in order, each as
/// it is written by itself: one entry more is that entry behind the others.
pub proof fn lemma_file_is_its_entries(sources: Seq<Seq<char>>, source: Seq<char>, i: int)
    ensures
        migrate::sources_file(Seq::empty()) == "sources:\n"@,
        migrate::sources_file(sources.push(source)) == migrate::sources_file(sources)
            + migrate::written_lines(text::lines(source)),
        0 <= i < sources.len() ==> holds_entry(migrate::sources_file(sources), sources[i]),
{
    let none: Seq<Seq<char>> = Seq::empty();
    assert("sources:\n"@ + migrate::written_sources(none) =~= "sources:\n"@);
    assert(sources.push(source).drop_last() =~= sources);
    assert(migrate::sources_file(sources.push(source)) =~= migrate::sources_file(sources)
        + migrate::written_lines(text::lines(source)));
    if 0 <= i < sources.len() {
        let before = sources.take(i);
        let one = seq![sources[i]];
        let behind = sources.skip(i + 1);
        assert(sources =~= before + one + behind);
        lemma_written_parts(before + one, behind);
        lemma_written_parts(before, one);
        assert(one.drop_last() =~= none);
        assert(migrate::written_sources(one) =~= migrate::written_lines(text::lines(sources[i])));
        assert(migrate::sources_file(sources) =~= "sources:\n"@ + migrate::written_sources(before)
            + migrate::written_lines(text::lines(sources[i])) + migrate::written_sources(behind));
    }
}

/// A source of a pipeline is among all the sources, and the other way round.
proof fn lemma_consolidated(pipelines: Seq<PipelineSourcesView>, source: Seq<char>)
    ensures
        migrate::consolidated(pipelines).contains(source) <==> exists|p: int|
            0 <= p < pipelines.len() && (#[trigger] pipelines[p]).sources.contains(source),
    decreases pipelines.len(),
{
    if pipelines.len() > 0 {
        let front = pipelines.drop_last();
        let last = pipelines.last();
        let n = front.len() as int;
        lemma_consolidated(front, source);
        let a = migrate::consolidated(front);
        let b = last.sources;
        assert(pipelines[n] == last);
        assert((a + b).contains(source) <==> a.contains(source) || b.contains(source)) by {
            if a.contains(source) {
                assert((a + b)[a.index_of(source)] == source);
            }
            if b.contains(source) {
                assert((a + b)[a.len() + b.index_of(source)] == source);
            }
            if (a + b).contains(source) {
                let i = (a + b).index_of(source);
                if i < a.len() {
                    assert(a[i] == source);
                } else {
                    assert(b[i - a.len()] == source);
                }
            }
        }
        if a.contains(source) {
            let p = choose|p: int|
                0 <= p < front.len() && (#[trigger] front[p]).sources.contains(source);
            assert(pipelines[p] == front[p]);
        }
        if exists|p: int|
            0 <= p < pipelines.len() && (#[trigger] pipelines[p]).sources.contains(source) {
            let p = choose|p: int|
                0 <= p < pipelines.len() && (#[trigger] pipelines[p]).sources.contains(source);
            if p < n {
                assert(front[p] == pipelines[p]);
            }
        }
    }
}

/// The preview shows what would be written: a dry run shows, for either strategy, the
/// text of the one file that a real run writes, and reports the same. Every source that
/// was found stands in that text and, one file for each pipeline, in some file. How
/// many sources there are is told of each file.
pub proof fn lemma_preview_is_what_is_written(m: MigrationView, strategy: Strategy, i: int)
    requires
        0 <= i < migrate::consolidated(m.per_pipeline).len(),
    ensures
        match (
            migrate::conclusion(m, true, strategy),
            migrate::conclusion(m, false, Strategy::Single),
            migrate::conclusion(m, false, Strategy::PerPipeline),
        ) {
            (
                ConclusionView::Preview { report, yaml },
                ConclusionView::Write { report: one, files },
                ConclusionView::Write { report: other, files: more },
            ) => {
                &&& one == report && other == report
                &&& files.len() == 1
                &&& files[0].name is None
                &&& files[0].content == yaml
                &&& files[0].count == migrate::consolidated(m.per_pipeline).len()
                &&& holds_entry(yaml, migrate::consolidated(m.per_pipeline)[i])
                &&& some_file_holds(more, migrate::consolidated(m.per_pipeline)[i])
            },
            _ => false,
        },
{
    let all = migrate::consolidated(m.per_pipeline);
    let source = all[i];
    lemma_file_is_its_entries(all, source, i);
    assert(all.contains(source));
    lemma_consolidated(m.per_pipeline, source);
    let p = choose|p: int|
        0 <= p < m.per_pipeline.len() && (#[trigger] m.per_pipeline[p]).sources.contains(source);
    let mine = m.per_pipeline[p].sources;
    let k = mine.index_of(source);
    lemma_file_is_its_entries(mine, source, k);
    migrate::lemma_pipeline_has_file(m.per_pipeline, p);
    let more = migrate::pipeline_files(m.per_pipeline);
    let f = choose|f: int|
        0 <= f < more.len() && migrate::is_file_of(m.per_pipeline, p, #[trigger] more[f]);
    assert(holds_entry(more[f].content, source));
    assert(some_file_holds(more, source));
}

/// Nothing is shown or written if and only if nothing was found; a run that is not dry
/// writes, and a dry one does not.
pub proof fn lemma_dry_run_writes_nothing(m: MigrationView, strategy: Strategy)
    ensures
        migrate::conclusion(m, true, strategy) is NothingFound <==> migrate::consolidated(
            m.per_pipeline,
        ).len() == 0,
        migrate::conclusion(m, false, strategy) is NothingFound <==> migrate::consolidated(
            m.per_pipeline,
        ).len() == 0,
        !(migrate::conclusion(m, true, strategy) is Write),
        !(migrate::conclusion(m, false, strategy) is Preview),
{
}

/// Each ID of which a source is held is read back from what is shown and written, if
/// each source is one entry with the ID under which it was declared.
pub proof fn lemma_preview_is_read_back(m: MigrationView, strategy: Strategy, n: int)
    requires
        holds_each_once(m),
        0 <= n < m.seen.len(),
        is_entry(m.seen[n].1.text, m.seen[n].0),
        forall|j: int|
            0 <= j < m.seen.len() && j != n ==> is_other_entry(
                (#[trigger] m.seen[j]).1.text,
                m.seen[n].0,
            ),
    ensures
        migrate::conclusion(m, true, strategy) matches ConclusionView::Preview { yaml, .. }
            && migrate::source_text(yaml, m.seen[n].0) == migrate::written_source(
            m.seen[n].1.text,
        ),
{
    let all = migrate::consolidated(m.per_pipeline);
    assert forall|j: int| 0 <= j < all.len() && j != n implies is_other_entry(
        #[trigger] all[j],
        m.seen[n].0,
    ) by {
        assert(all[j] == m.seen[j].1.text);
    }
    assert(all[n] == m.seen[n].1.text);
    lemma_written_source_is_read_back(all, n, m.seen[n].0);
}

// ---------------------------------------------------------------------------
// When pipelines conflict
// ---------------------------------------------------------------------------

/// A pipeline is taken in if and only if it declares no ID twice and every ID that was
/// declared before stands in both pipelines and is written in the same way for both.
pub proof fn lemma_when_pipelines_conflict(
    seen: Seq<(Seq<char>, DeclarationView)>,
    ids: Seq<Seq<char>>,
    path: Seq<char>,
    content: Seq<char>,
)
    ensures
        migrate::conflict(seen, ids, path, content) is None <==> ids.no_duplicates() && forall|
            k: int,
        |
            0 <= k < ids.len() ==> agrees(seen, #[trigger] ids[k], content),
        migrate::conflict(seen, ids, path, content) matches Some((id, first)) ==> ids.contains(id)
            && (first == path || (table::value_of(seen, id) matches Some(d) && first == d.path)),
    decreases ids.len(),
{
    if ids.len() > 0 {
        let front = ids.drop_last();
        let n = front.len() as int;
        let last = ids[n];
        lemma_when_pipelines_conflict(seen, front, path, content);
        assert forall|i: int| 0 <= i < n implies #[trigger] front[i] == ids[i] by {}
        assert(ids.contains(last));
        if migrate::conflict(seen, front, path, content) is Some {
            let found = migrate::conflict(seen, front, path, content)->0;
            let id = found.0;
            assert(ids[front.index_of(id)] == id);
            if ids.no_duplicates() {
                assert(front.no_duplicates());
            }
            if forall|k: int| 0 <= k < ids.len() ==> agrees(seen, #[trigger] ids[k], content) {
                assert forall|k: int| 0 <= k < n implies agrees(
                    seen,
                    #[trigger] front[k],
                    content,
                ) by {
                    assert(agrees(seen, ids[k], content));
                }
            }
        } else {
            if front.contains(last) {
                let k = front.index_of(last);
                assert(ids[k] == ids[n]);
            } else {
                assert(ids.no_duplicates()) by {
                    assert forall|i: int, j: int|
                        0 <= i < ids.len() && 0 <= j < ids.len() && i != j implies ids[i]
                        != ids[j] by {
                        if i < n {
                            assert(front[i] == ids[i]);
                            assert(front.contains(front[i]));
                        }
                        if j < n {
                            assert(front[j] == ids[j]);
                            assert(front.contains(front[j]));
                        }
                    }
                }
                assert(migrate::clash(seen, front, path, content, last) is None <==> agrees(
                    seen,
                    last,
                    content,
                ));
                if agrees(seen, last, content) {
                    assert forall|k: int| 0 <= k < ids.len() implies agrees(
                        seen,
                        #[trigger] ids[k],
                        content,
                    ) by {
                        if k < n {
                            assert(agrees(seen, front[k], content));
                        }
                    }
                }
            }
        }
    }
}

/// The ID was not declared before, or it was, stands in both pipelines, and is written
/// in the same way.
pub open spec fn agrees(
    seen: Seq<(Seq<char>, DeclarationView)>,
    id: Seq<char>,
    content: Seq<char>,
) -> bool {
    match table::value_of(seen, id) {
        None => true,
        Some(first) => {
            &&& first.found
            &&& migrate::source_lines(text::lines(content), id) is Some
            &&& migrate::written_lines(text::lines(first.text)) == migrate::written_lines(
                text::lines(migrate::source_text(content, id)),
            )
        },
    }
}

// ---------------------------------------------------------------------------
// File names
// ---------------------------------------------------------------------------

/// The file for a pipeline is named after it: `-sources.yml` behind the stem, or, if
/// that name is taken, the first number behind the stem whose name is not.
pub proof fn lemma_file_is_named_after_pipeline(stem: Seq<char>, taken: Seq<Seq<char>>)
    ensures
        !taken.contains(stem + "-sources.yml"@) ==> migrate::free_name(stem, taken) == stem
            + "-sources.yml"@,
        taken.contains(stem + "-sources.yml"@) ==> exists|k: nat|
            k > 0 && migrate::free_name(stem, taken) == stem + "-"@ + #[trigger] text::decimal(k)
                + "-sources.yml"@ && !taken.contains(migrate::free_name(stem, taken)) && forall|
                j: nat,
            |
                0 < j < k ==> taken.contains(stem + "-"@ + #[trigger] text::decimal(j)
                    + "-sources.yml"@),
{
    migrate::lemma_free_name_is_free(stem, taken);
    lemma_free_from(stem, taken, 0);
    let k = migrate::free_number(stem, taken, 0);
    if taken.contains(stem + "-sources.yml"@) {
        assert(migrate::sources_name(stem, 0) == stem + "-sources.yml"@);
        assert(taken.len() > 0) by {
            let i = taken.index_of(stem + "-sources.yml"@);
        }
        assert(k > 0);
        let number = text::decimal(k);
        assert forall|j: nat| 0 < j < k implies taken.contains(
            stem + "-"@ + #[trigger] text::decimal(j) + "-sources.yml"@,
        ) by {
            assert(taken.contains(migrate::sources_name(stem, j)));
        }
    } else {
        assert(migrate::sources_name(stem, 0) == stem + "-sources.yml"@);
    }
}

proof fn lemma_free_from(stem: Seq<char>, taken: Seq<Seq<char>>, k: nat)
    ensures
        k <= migrate::free_number(stem, taken, k),
        forall|j: nat|
            k <= j < migrate::free_number(stem, taken, k) ==> taken.contains(
                #[trigger] migrate::sources_name(stem, j),
            ),
    decreases taken.len() - k,
{
    if k < taken.len() && taken.contains(migrate::sources_name(stem, k)) {
        lemma_free_from(stem, taken, k + 1);
    }
}

/// The stem of a file name is what stands in front of its last dot, and the extension
/// what stands behind it; a name without a dot, but for one at its start, is a stem.
pub proof fn lemma_stem_and_extension(stem: Seq<char>, extension: Seq<char>)
    requires
        stem.len() > 0,
        !extension.contains('.'),
    ensures
        migrate::file_stem(stem + "."@ + extension) == stem,
        migrate::file_extension(stem + "."@ + extension) == Some(extension),
        !stem.skip(1).contains('.') ==> migrate::file_stem(stem) == stem
            && migrate::file_extension(stem) is None,
{
    reveal_strlit(".");
    assert("."@ =~= seq!['.']);
    let name = stem + "."@ + extension;
    let k = stem.len() as int;
    assert forall|i: int| k < i < name.len() implies name[i] != '.' by {
        assert(name[i] == extension[i - k - 1]);
        assert(extension.contains(extension[i - k - 1]));
    }
    lemma_find_last(name, '.', k);
    assert(name.take(k) =~= stem);
    assert(name.skip(k + 1) =~= extension);
    if !stem.skip(1).contains('.') {
        assert forall|i: int| 0 < i < stem.len() implies stem[i] != '.' by {
            assert(stem.skip(1)[i - 1] == stem[i]);
            assert(stem.skip(1).contains(stem.skip(1)[i - 1]));
        }
        if stem[0] == '.' {
            lemma_find_last(stem, '.', 0);
        } else {
            lemma_find_last(stem, '.', -1);
        }
    }
}

proof fn lemma_find_last(s: Seq<char>, c: char, k: int)
    requires
        -1 <= k < s.len(),
        k >= 0 ==> s[k] == c,
        forall|i: int| k < i < s.len() ==> s[i] != c,
    ensures
        text::find_last(s, c) == k,
    decreases s.len(),
{
    if s.len() > 0 && k < s.len() - 1 {
        assert(s.last() == s[s.len() - 1]);
        lemma_find_last(s.drop_last(), c, k);
    }
}

/// The last place of a character: it stands there, and not behind it; there is none if and
/// only if the text does not hold it.
pub proof fn lemma_last_place(s: Seq<char>, c: char)
    ensures
        -1 <= text::find_last(s, c) < s.len(),
        text::find_last(s, c) >= 0 ==> s[text::find_last(s, c)] == c,
        forall|i: int| text::find_last(s, c) < i < s.len() ==> #[trigger] s[i] != c,
    decreases s.len(),
{
    if s.len() > 0 && s.last() != c {
        let front = s.drop_last();
        lemma_last_place(front, c);
        assert forall|i: int| text::find_last(s, c) < i < s.len() implies #[trigger] s[i] != c by {
            if i < front.len() {
                assert(front[i] == s[i]);
            }
        }
    }
}

// ---------------------------------------------------------------------------
// Taking in a pipeline
// ---------------------------------------------------------------------------

/// The IDs of a pipeline that were not declared before are taken in, in order.
pub proof fn lemma_fresh_ids_in_order(seen: Seq<(Seq<char>, DeclarationView)>, ids: Seq<Seq<char>>)
    ensures
        migrate::fresh_ids(seen, ids) == ids.filter(
            |id: Seq<char>| table::value_of(seen, id) is None,
        ),
    decreases ids.len(),
{
    reveal(Seq::filter);
    if ids.len() > 0 {
        lemma_fresh_ids_in_order(seen, ids.drop_last());
    }
}

/// A pipeline without sources is noted by its path, and nothing else changes. One with
/// sources comes behind the others, with its path, a name of its own for its file, and the
/// texts of the sources that were not declared before, in order; these are noted as
/// declared there.
pub proof fn lemma_pipeline_is_taken_in(
    m: MigrationView,
    path: Seq<char>,
    stem: Seq<char>,
    content: Seq<char>,
    ids: Seq<Seq<char>>,
    i: int,
)
    ensures
        ids.len() == 0 ==> {
            let after = migrate::with_pipeline(m, path, stem, content, ids);
            &&& after.without == m.without.push(path)
            &&& after.seen == m.seen
            &&& after.per_pipeline == m.per_pipeline
        },
        ids.len() > 0 ==> {
            let after = migrate::with_pipeline(m, path, stem, content, ids);
            let fresh = ids.filter(|id: Seq<char>| table::value_of(m.seen, id) is None);
            let n = m.per_pipeline.len() as int;
            &&& after.without == m.without
            &&& after.per_pipeline.len() == n + 1
            &&& after.per_pipeline.take(n) == m.per_pipeline
            &&& after.per_pipeline[n].path == path
            &&& !migrate::file_names(m.per_pipeline).contains(after.per_pipeline[n].file_name)
            &&& after.per_pipeline[n].file_name == migrate::free_name(
                stem,
                migrate::file_names(m.per_pipeline),
            )
            &&& after.per_pipeline[n].sources.len() == fresh.len()
            &&& 0 <= i < fresh.len() ==> after.per_pipeline[n].sources[i] == migrate::source_text(
                content,
                fresh[i],
            )
            &&& after.seen.len() == m.seen.len() + fresh.len()
            &&& after.seen.take(m.seen.len() as int) == m.seen
            &&& 0 <= i < fresh.len() ==> {
                let noted = after.seen[m.seen.len() + i];
                &&& noted.0 == fresh[i]
                &&& noted.1.path == path
                &&& noted.1.text == migrate::source_text(content, fresh[i])
                &&& noted.1.found <==> migrate::source_lines(
                    text::lines(content),
                    fresh[i],
                ) is Some
            }
        },
{
    lemma_fresh_ids_in_order(m.seen, ids);
    migrate::lemma_free_name_is_free(stem, migrate::file_names(m.per_pipeline));
    let after = migrate::with_pipeline(m, path, stem, content, ids);
    if ids.len() > 0 {
        let n = m.per_pipeline.len() as int;
        assert(after.per_pipeline.take(n) =~= m.per_pipeline);
        assert(after.seen.take(m.seen.len() as int) =~= m.seen);
    }
}

/// What was found, in words: how many sources, in how many pipelines, and how many
/// pipelines had none.
pub proof fn lemma_found_in_words(m: MigrationView)
    ensures
        migrate::found_text(m) == "Found "@ + text::decimal(
            migrate::consolidated(m.per_pipeline).len(),
        ) + " source(s) across "@ + text::decimal(m.per_pipeline.len()) + " pipeline(s) ("@
            + text::decimal(m.without.len()) + " without sources)."@,
{
}

/// The sources of all pipelines are those of each, one pipeline behind the other.
pub proof fn lemma_sources_in_order(pipelines: Seq<PipelineSourcesView>, more: PipelineSourcesView)
    ensures
        migrate::consolidated(Seq::empty()) == Seq::<Seq<char>>::empty(),
        migrate::consolidated(pipelines.push(more)) == migrate::consolidated(pipelines)
            + more.sources,
{
    assert(pipelines.push(more).drop_last() =~= pipelines);
}

/// The files for a pipeline are named after the stem of its own, or, if it has no name,
/// `sources`.
pub proof fn lemma_stem_of_pipeline(name: &str)
    ensures
        migrate::pipeline_stem(Some(name)) == migrate::file_stem(name@),
        migrate::pipeline_stem(None) == "sources"@,
{
}

// ---------------------------------------------------------------------------
// The text that stays
// ---------------------------------------------------------------------------

proof fn lemma_joined_with_feeds(lines: Seq<Seq<char>>)
    requires
        lines.len() > 0,
    ensures
        text::join(lines, "\n"@) + "\n"@ == migrate::with_feeds(lines),
    decreases lines.len(),
{
    if lines.len() == 1 {
        lemma_one_feed(lines[0]);
        assert(lines =~= seq![lines[0]]);
    } else {
        lemma_joined_with_feeds(lines.drop_last());
        assert(text::join(lines, "\n"@) + "\n"@ =~= migrate::with_feeds(lines));
    }
}

/// Of a text of lines, each with a line feed behind it, the lines that stay are left, each
/// with its line feed.
pub proof fn lemma_stripped_lines(lines: Seq<Seq<char>>)
    requires
        lines.len() > 0,
        forall|i: int|
            0 <= i < lines.len() ==> !(#[trigger] lines[i]).contains('\n') && !text::ends(
                lines[i],
                seq!['\r'],
            ),
    ensures
        migrate::kept_lines(lines, None).len() > 0 ==> migrate::stripped(migrate::with_feeds(lines))
            == migrate::with_feeds(migrate::kept_lines(lines, None)),
        migrate::kept_lines(lines, None).len() == 0 ==> migrate::stripped(
            migrate::with_feeds(lines),
        ) == "\n"@,
{
    reveal_strlit("\n");
    let content = migrate::with_feeds(lines);
    lemma_lines_of_feeds(lines);
    let plain = lines.map_values(|l: Seq<char>| text::without_cr(l));
    assert forall|i: int| 0 <= i < lines.len() implies plain[i] == lines[i] by {
        let l = lines[i];
        assert(!text::ends(l, seq!['\r']));
        if l.len() > 0 {
            assert(l.skip(l.len() - 1) =~= seq![l.last()]);
        }
    }
    assert(plain =~= lines);
    let front = migrate::with_feeds(lines.drop_last()) + lines.last();
    assert(content == front + "\n"@);
    assert(content.skip(content.len() - 1) =~= "\n"@);
    let kept = migrate::kept_lines(lines, None);
    if kept.len() > 0 {
        lemma_joined_with_feeds(kept);
    } else {
        assert(text::join(kept, "\n"@) + "\n"@ =~= "\n"@);
    }
}

/// Every block of sources is removed: its opening line and the lines that belong to it. What
/// stands in front of it stays, and so does the line behind it; from there on the next block
/// is looked for.
pub proof fn lemma_blocks_one_by_one(
    head: Seq<Seq<char>>,
    opening: Seq<char>,
    block: Seq<Seq<char>>,
    next: Seq<char>,
    rest: Seq<Seq<char>>,
)
    requires
        forall|i: int| 0 <= i < head.len() ==> !migrate::opens_sources(#[trigger] head[i]),
        migrate::opens_sources(opening),
        forall|i: int|
            0 <= i < block.len() ==> migrate::in_block(
                #[trigger] block[i],
                migrate::indent(opening),
            ),
        !migrate::in_block(next, migrate::indent(opening)),
    ensures
        migrate::kept_lines(head + seq![opening] + block, None) == head,
        migrate::kept_lines(head + seq![opening] + block + seq![next] + rest, None) == head + seq![
            next,
        ] + migrate::kept_lines(rest, None),
{
    let depth = migrate::indent(opening);
    let h = head.len() as int;
    let n = block.len() as int;
    let none = Seq::<Seq<char>>::empty();
    let short = head + seq![opening] + block;
    assert forall|i: int| 0 <= i < h implies !migrate::opens_sources(#[trigger] short[i]) by {
        assert(short[i] == head[i]);
    }
    lemma_keep_until(short, h);
    assert(short.take(h) =~= head);
    let first = short.skip(h);
    assert(first[0] == opening);
    assert(first.skip(1) =~= block);
    lemma_skip_block(block, depth, n);
    assert(block.skip(n) =~= none);
    assert(migrate::kept_lines(none, Some(depth)) =~= none);
    assert(head + none =~= head);
    let long = head + seq![opening] + block + seq![next] + rest;
    assert forall|i: int| 0 <= i < h implies !migrate::opens_sources(#[trigger] long[i]) by {
        assert(long[i] == head[i]);
    }
    lemma_keep_until(long, h);
    assert(long.take(h) =~= head);
    let second = long.skip(h);
    assert(second[0] == opening);
    let behind = second.skip(1);
    assert(behind =~= block + seq![next] + rest);
    assert forall|i: int| 0 <= i < n implies migrate::in_block(#[trigger] behind[i], depth) by {
        assert(behind[i] == block[i]);
    }
    lemma_skip_block(behind, depth, n);
    let over = behind.skip(n);
    assert(over =~= seq![next] + rest);
    assert(over[0] == next);
    assert(over.skip(1) =~= rest);
    assert(head + (seq![next] + migrate::kept_lines(rest, None)) =~= head + seq![next]
        + migrate::kept_lines(rest, None));
}

} // verus!
