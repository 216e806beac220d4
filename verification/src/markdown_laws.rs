//! What holds of every markdown chunking: the sections cover the file's lines
//! in order, each starts at a heading (but the first), none holds another
//! heading, and joining their texts gives back the file's lines.

use vstd::prelude::*;
use crate::chunk::{
    ChunkView, heading_marker, heading_title, is_heading_line, lemma_section_end_bounds, markdown_chunk,
    markdown_chunks, markdown_chunks_from, section_end, strip_hashes,
};
use crate::text::{
    is_white_space, join_lines, lemma_trim_end_at, lemma_trim_start_at, lines_of, trim_start_ws,
};

verus! {

/// The texts of chunks.
pub open spec fn chunk_texts(cs: Seq<ChunkView>) -> Seq<Seq<char>> {
    cs.map_values(|c: ChunkView| c.text)
}

/// The sections from line `s` on, as the law states them.
pub open spec fn sections_wellformed(path: Seq<char>, lines: Seq<Seq<char>>, s: int, c: Seq<ChunkView>) -> bool {
    &&& c.len() > 0
    &&& c[0].start_line == s + 1
    &&& c.last().end_line == lines.len()
    &&& forall|k: int|
        0 <= k < c.len() ==> {
            &&& 1 <= (#[trigger] c[k]).start_line <= c[k].end_line <= lines.len()
            &&& c[k].text == join_lines(lines.subrange(c[k].start_line - 1, c[k].end_line))
            &&& c[k].file_path == path
            &&& c[k].language == "markdown"@
            &&& (k > 0 ==> is_heading_line(lines[c[k].start_line - 1]))
            &&& forall|j: int| c[k].start_line <= j < c[k].end_line ==> !is_heading_line(#[trigger] lines[j])
        }
    &&& forall|k: int| 0 <= k < c.len() - 1 ==> #[trigger] c[k + 1].start_line == c[k].end_line + 1
}

proof fn lemma_sections_from(path: Seq<char>, lines: Seq<Seq<char>>, s: int)
    requires
        0 <= s < lines.len(),
    ensures
        sections_wellformed(path, lines, s, markdown_chunks_from(path, lines, s)),
    decreases lines.len() - s,
{
    let e = section_end(lines, s);
    lemma_section_end_bounds(lines, s);
    let c = markdown_chunks_from(path, lines, s);
    let rest = markdown_chunks_from(path, lines, e);
    let m = markdown_chunk(path, lines, s, e);
    assert(c == seq![m] + rest);
    if e < lines.len() {
        lemma_sections_from(path, lines, e);
        assert(c.last() == rest.last());
    } else {
        assert(rest.len() == 0);
    }
    assert forall|k: int|
        0 <= k < c.len() implies {
            &&& 1 <= (#[trigger] c[k]).start_line <= c[k].end_line <= lines.len()
            &&& c[k].text == join_lines(lines.subrange(c[k].start_line - 1, c[k].end_line))
            &&& c[k].file_path == path
            &&& c[k].language == "markdown"@
            &&& (k > 0 ==> is_heading_line(lines[c[k].start_line - 1]))
            &&& forall|j: int| c[k].start_line <= j < c[k].end_line ==> !is_heading_line(#[trigger] lines[j])
        } by {
        if k > 0 {
            assert(c[k] == rest[k - 1]);
            if k == 1 {
                assert(rest[0].start_line == e + 1);
            }
        }
    }
    assert forall|k: int| 0 <= k < c.len() - 1 implies #[trigger] c[k + 1].start_line == c[k].end_line + 1 by {
        assert(c[k + 1] == rest[k]);
        if k > 0 {
            assert(c[k] == rest[k - 1]);
            assert(rest[(k - 1) + 1].start_line == rest[k - 1].end_line + 1);
        }
    }
}

/// Markdown chunks partition the file's lines into sections: there are none
/// exactly when the file has no lines; the first starts at line 1 and the
/// last ends at the last line; each starts on the line after the one before
/// ends; each text is its lines joined; each section but the first opens
/// with a heading, and no other of its lines is a heading.
pub proof fn law_markdown_sections(path: Seq<char>, source: Seq<char>)
    ensures
        (lines_of(source).len() == 0) == (markdown_chunks(path, source).len() == 0),
        lines_of(source).len() > 0 ==> sections_wellformed(
            path,
            lines_of(source),
            0,
            markdown_chunks(path, source),
        ),
{
    if lines_of(source).len() > 0 {
        lemma_sections_from(path, lines_of(source), 0);
    }
}

/// Joining the texts of two nonempty runs of lines with one more `'\n'`
/// gives the join of all of them.
pub proof fn lemma_join_concat(a: Seq<Seq<char>>, b: Seq<Seq<char>>)
    requires
        a.len() > 0,
        b.len() > 0,
    ensures
        join_lines(a + b) == join_lines(a) + seq!['\n'] + join_lines(b),
    decreases b.len(),
{
    if b.len() == 1 {
        assert((a + b).drop_last() == a);
        assert((a + b).last() == b[0]);
    } else {
        lemma_join_concat(a, b.drop_last());
        assert((a + b).drop_last() == a + b.drop_last());
        assert((a + b).last() == b.last());
        assert(join_lines(b) == join_lines(b.drop_last()) + seq!['\n'] + b.last());
    }
}

proof fn lemma_texts_from(path: Seq<char>, lines: Seq<Seq<char>>, s: int)
    requires
        0 <= s < lines.len(),
    ensures
        join_lines(chunk_texts(markdown_chunks_from(path, lines, s))) == join_lines(
            lines.subrange(s, lines.len() as int),
        ),
    decreases lines.len() - s,
{
    let e = section_end(lines, s);
    lemma_section_end_bounds(lines, s);
    let c = markdown_chunks_from(path, lines, s);
    let rest = markdown_chunks_from(path, lines, e);
    let m = markdown_chunk(path, lines, s, e);
    assert(c == seq![m] + rest);
    assert(chunk_texts(c) =~= seq![m.text] + chunk_texts(rest));
    if e < lines.len() {
        lemma_texts_from(path, lines, e);
        lemma_join_concat(seq![m.text], chunk_texts(rest));
        lemma_join_concat(lines.subrange(s, e), lines.subrange(e, lines.len() as int));
        assert(lines.subrange(s, e) + lines.subrange(e, lines.len() as int) == lines.subrange(
            s,
            lines.len() as int,
        ));
        assert(join_lines(seq![m.text]) == m.text);
    } else {
        assert(chunk_texts(rest).len() == 0);
        assert(chunk_texts(c) =~= seq![m.text]);
    }
}

/// Markdown chunking loses no line and reorders none: joining the chunks'
/// texts with `'\n'` gives the file's lines joined with `'\n'`.
pub proof fn law_markdown_round_trip(path: Seq<char>, source: Seq<char>)
    ensures
        join_lines(chunk_texts(markdown_chunks(path, source))) == join_lines(lines_of(source)),
{
    let lines = lines_of(source);
    if lines.len() > 0 {
        lemma_texts_from(path, lines, 0);
        assert(lines.subrange(0, lines.len() as int) == lines);
    } else {
        assert(chunk_texts(markdown_chunks(path, source)).len() == 0);
    }
}

/// `h` `'#'` characters.
pub open spec fn hashes(h: nat) -> Seq<char> {
    Seq::new(h, |i: int| '#')
}

proof fn lemma_strip_hashes(h: nat, r: Seq<char>)
    requires
        r.len() > 0,
        r[0] != '#',
    ensures
        strip_hashes(hashes(h) + r) == r,
    decreases h,
{
    if h > 0 {
        assert((hashes(h) + r)[0] == '#');
        assert((hashes(h) + r).drop_first() == hashes((h - 1) as nat) + r);
        lemma_strip_hashes((h - 1) as nat, r);
    } else {
        assert(hashes(h) + r == r);
    }
}

/// A line of one to three `'#'`, a space and a title with no whitespace at
/// either end and no leading `'#'` is a heading, and its title is that text.
proof fn lemma_heading_form(h: nat, title: Seq<char>)
    requires
        1 <= h <= 3,
        title.len() > 0,
        !is_white_space(title[0]),
        !is_white_space(title.last()),
        title[0] != '#',
    ensures
        is_heading_line(hashes(h) + seq![' '] + title),
        heading_title(hashes(h) + seq![' '] + title) == title,
{
    let r = seq![' '] + title;
    let line = hashes(h) + r;
    assert(hashes(h) + seq![' '] + title == line);
    assert(line[0] == '#');
    assert(('#' as u32) == 0x23u32);
    assert(!is_white_space(line[0]));
    assert(trim_start_ws(line) == line);
    assert(line[h as int] == ' ');
    assert(forall|i: int| 0 <= i < h ==> line[i] == '#');
    assert(heading_marker(line));
    lemma_strip_hashes(h, r);
    assert(r[1] == title[0]);
    assert(is_white_space(r[0])) by {
        assert((' ' as u32) == 0x20u32);
    }
    lemma_trim_start_at(r, 1);
    assert(r.skip(1) == title);
    lemma_trim_end_at(title, title.len() as int);
    assert(title.take(title.len() as int) == title);
}

/// A line that is a heading, or where the sections are scanned from, opens a
/// section: some chunk starts there and is that section's chunk.
proof fn lemma_heading_opens_section(path: Seq<char>, lines: Seq<Seq<char>>, s: int, j: int)
    requires
        0 <= s <= j < lines.len(),
        j == s || is_heading_line(lines[j]),
    ensures
        exists|k: int|
            0 <= k < markdown_chunks_from(path, lines, s).len() && #[trigger] markdown_chunks_from(
                path,
                lines,
                s,
            )[k] == markdown_chunk(path, lines, j, section_end(lines, j)),
    decreases j - s,
{
    let e = section_end(lines, s);
    lemma_section_end_bounds(lines, s);
    let c = markdown_chunks_from(path, lines, s);
    let rest = markdown_chunks_from(path, lines, e);
    assert(c == seq![markdown_chunk(path, lines, s, e)] + rest);
    if j == s {
        assert(c[0] == markdown_chunk(path, lines, j, section_end(lines, j)));
    } else {
        assert(j >= e) by {
            if j < e {
                assert(!is_heading_line(lines[j]));
            }
        }
        lemma_heading_opens_section(path, lines, e, j);
        let k = choose|k: int|
            0 <= k < rest.len() && #[trigger] rest[k] == markdown_chunk(path, lines, j, section_end(lines, j));
        assert(c[k + 1] == rest[k]);
    }
}

/// A heading of one to three `'#'`, a space and a title (no whitespace at
/// either end, no leading `'#'`) opens a chunk that starts on its line and
/// is named by exactly that title.
pub proof fn law_markdown_heading_titles(path: Seq<char>, source: Seq<char>, j: int, h: nat, title: Seq<char>)
    requires
        0 <= j < lines_of(source).len(),
        1 <= h <= 3,
        title.len() > 0,
        !is_white_space(title[0]),
        !is_white_space(title.last()),
        title[0] != '#',
        lines_of(source)[j] == hashes(h) + seq![' '] + title,
    ensures
        exists|k: int|
            0 <= k < markdown_chunks(path, source).len() && (#[trigger] markdown_chunks(path, source)[k]).start_line
                == j + 1 && markdown_chunks(path, source)[k].item_name == title,
{
    let lines = lines_of(source);
    lemma_heading_form(h, title);
    lemma_heading_opens_section(path, lines, 0, j);
    let cs = markdown_chunks(path, source);
    let k = choose|k: int|
        0 <= k < cs.len() && #[trigger] cs[k] == markdown_chunk(path, lines, j, section_end(lines, j));
    assert(cs[k].start_line == j + 1 && cs[k].item_name == title);
}

} // verus!
