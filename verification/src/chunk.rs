//! Splitting source files into chunks: Rust files by top-level declaration,
//! markdown files by heading, anything else as one chunk.

use vstd::prelude::*;
use crate::declarations::{chunk_rust_tree, lemma_positions_rows_fit, rust_chunks};
use crate::syntax::{
    nodes_view, parse_rust, positions_agree, ranges_nest, rust_parser, rust_syntax, starts_in_preorder, SyntaxNode,
};
use crate::text::{
    blank, chars_to_string, is_blank, join_lines, join_range, lines_of, seqs_view, slice_chars,
    split_lines, str_chars, trim, trim_start, trim_start_ws, trim_ws, utf8_len,
};

verus! {

/// The longest chunk text kept, in characters; longer texts are truncated.
pub const MAX_CHUNK_CHARS: usize = 48000;

/// A piece of a source file: where it lies, what it is called, and its text.
#[derive(Debug, Clone)]
pub struct Chunk {
    pub file_path: String,
    pub start_line: usize,
    pub end_line: usize,
    pub item_name: String,
    pub text: String,
    pub language: String,
}

/// Why a file could not be chunked.
#[derive(Debug)]
pub enum ChunkError {
    /// The Rust grammar could not be loaded into the parser (never, with the
    /// grammar and library this crate is built with).
    LanguageUnavailable,
    /// The parser gave no syntax tree for the file (never, once the grammar
    /// is loaded).
    ParseFailed,
    /// A row of a given syntax tree leaves no room for a one-based line number
    /// (never, for a tree that tree-sitter made of the file).
    MalformedSyntaxTree,
}

/// The mathematical value of a `Chunk`.
pub struct ChunkView {
    pub file_path: Seq<char>,
    pub start_line: int,
    pub end_line: int,
    pub item_name: Seq<char>,
    pub text: Seq<char>,
    pub language: Seq<char>,
}

impl View for Chunk {
    type V = ChunkView;

    open spec fn view(&self) -> ChunkView {
        ChunkView {
            file_path: self.file_path@,
            start_line: self.start_line as int,
            end_line: self.end_line as int,
            item_name: self.item_name@,
            text: self.text@,
            language: self.language@,
        }
    }
}

/// The values of a sequence of chunks.
pub open spec fn chunks_view(v: Seq<Chunk>) -> Seq<ChunkView> {
    v.map_values(|c: Chunk| c@)
}

/// Builds a chunk from its parts.
pub fn make_chunk(
    file_path: &Vec<char>,
    start_line: usize,
    end_line: usize,
    item_name: &Vec<char>,
    text: &Vec<char>,
    language: &Vec<char>,
) -> (c: Chunk)
    ensures
        c@ == (ChunkView {
            file_path: file_path@,
            start_line: start_line as int,
            end_line: end_line as int,
            item_name: item_name@,
            text: text@,
            language: language@,
        }),
{
    Chunk {
        file_path: chars_to_string(file_path),
        start_line,
        end_line,
        item_name: chars_to_string(item_name),
        text: chars_to_string(text),
        language: chars_to_string(language),
    }
}

// --- Markdown ---

/// Whether `t` opens with one to three `'#'` followed by a space.
pub open spec fn heading_marker(t: Seq<char>) -> bool {
    &&& t.len() >= 2
    &&& t[0] == '#'
    &&& (t[1] == ' ' || (t.len() >= 3 && t[1] == '#' && (t[2] == ' ' || (t.len() >= 4 && t[2]
        == '#' && t[3] == ' '))))
}

/// A markdown heading of level one to three: after leading whitespace, one to
/// three `'#'` and a space.
pub open spec fn is_heading_line(line: Seq<char>) -> bool {
    heading_marker(trim_start_ws(line))
}

/// `s` without its leading `'#'` characters (`str::trim_start_matches('#')`).
pub open spec fn strip_hashes(s: Seq<char>) -> Seq<char>
    decreases s.len(),
{
    if s.len() > 0 && s[0] == '#' {
        strip_hashes(s.drop_first())
    } else {
        s
    }
}

/// The title of a heading line: the line without leading `'#'`, trimmed.
pub open spec fn heading_title(line: Seq<char>) -> Seq<char> {
    trim_ws(strip_hashes(line))
}

/// Whether `line` is a markdown heading of level one to three.
pub fn is_heading(line: &str) -> (res: bool)
    ensures
        res == is_heading_line(line@),
{
    heading_chars(&str_chars(line))
}

fn heading_chars(line: &Vec<char>) -> (res: bool)
    ensures
        res == is_heading_line(line@),
{
    let t: Vec<char> = trim_start(line);
    let n: usize = t.len();
    n >= 2 && t[0] == '#' && (t[1] == ' ' || (n >= 3 && t[1] == '#' && (t[2] == ' ' || (n >= 4
        && t[2] == '#' && t[3] == ' '))))
}

/// The title of a heading line.
fn title_of_heading(line: &Vec<char>) -> (res: Vec<char>)
    ensures
        res@ == heading_title(line@),
{
    let n: usize = line.len();
    let mut j: usize = 0;
    assert(line@.skip(0) == line@);
    while j < n && line[j] == '#'
        invariant
            j <= n == line@.len(),
            strip_hashes(line@) == strip_hashes(line@.skip(j as int)),
        decreases n - j,
    {
        proof {
            assert(line@.skip(j as int).drop_first() == line@.skip(j + 1));
        }
        j = j + 1;
    }
    let rest: Vec<char> = slice_chars(line, j, n);
    proof {
        assert(line@.skip(0) == line@);
        assert(rest@ == line@.skip(j as int));
    }
    trim(&rest)
}

/// The index where the section that starts at line `s` ends: the next heading
/// line after `s`, or the end.
pub open spec fn section_end(lines: Seq<Seq<char>>, s: int) -> int
    decreases lines.len() - s,
{
    if s + 1 >= lines.len() {
        lines.len() as int
    } else if is_heading_line(lines[s + 1]) {
        s + 1
    } else {
        section_end(lines, s + 1)
    }
}

pub proof fn lemma_section_end_bounds(lines: Seq<Seq<char>>, s: int)
    requires
        0 <= s < lines.len(),
    ensures
        s < section_end(lines, s) <= lines.len(),
        forall|k: int| s < k < section_end(lines, s) ==> !is_heading_line(#[trigger] lines[k]),
        section_end(lines, s) < lines.len() ==> is_heading_line(lines[section_end(lines, s)]),
    decreases lines.len() - s,
{
    if s + 1 < lines.len() && !is_heading_line(lines[s + 1]) {
        lemma_section_end_bounds(lines, s + 1);
    }
}

proof fn lemma_section_end_at(lines: Seq<Seq<char>>, s: int, e: int)
    requires
        0 <= s < e <= lines.len(),
        forall|k: int| s < k < e ==> !is_heading_line(#[trigger] lines[k]),
        e < lines.len() ==> is_heading_line(lines[e]),
    ensures
        section_end(lines, s) == e,
    decreases e - s,
{
    if s + 1 < e {
        assert(!is_heading_line(lines[s + 1]));
        lemma_section_end_at(lines, s + 1, e);
    }
}

/// The chunk of the markdown section `lines[s..e]`: named after its heading,
/// or after the file where it has none (or an empty title).
pub open spec fn markdown_chunk(path: Seq<char>, lines: Seq<Seq<char>>, s: int, e: int) -> ChunkView {
    ChunkView {
        file_path: path,
        start_line: s + 1,
        end_line: e,
        item_name: if is_heading_line(lines[s]) && heading_title(lines[s]).len() > 0 {
            heading_title(lines[s])
        } else {
            path
        },
        text: join_lines(lines.subrange(s, e)),
        language: "markdown"@,
    }
}

/// The chunks of the sections from line `s` on.
pub open spec fn markdown_chunks_from(path: Seq<char>, lines: Seq<Seq<char>>, s: int) -> Seq<ChunkView>
    decreases lines.len() - s,
{
    if s < 0 || s >= lines.len() {
        seq![]
    } else {
        let e = section_end(lines, s);
        proof {
            lemma_section_end_bounds(lines, s);
        }
        seq![markdown_chunk(path, lines, s, e)] + markdown_chunks_from(path, lines, e)
    }
}

/// A markdown file split at its headings: each heading starts a section that
/// runs to the next heading; lines before the first heading form a section too.
pub open spec fn markdown_chunks(path: Seq<char>, source: Seq<char>) -> Seq<ChunkView> {
    markdown_chunks_from(path, lines_of(source), 0)
}

/// Splits a markdown file at its headings.
pub fn chunk_markdown(file_path: &str, source: &str) -> (chunks: Vec<Chunk>)
    ensures
        chunks_view(chunks@) == markdown_chunks(file_path@, source@),
{
    let path: Vec<char> = str_chars(file_path);
    let src: Vec<char> = str_chars(source);
    let lines: Vec<Vec<char>> = split_lines(&src);
    let ghost ls = seqs_view(lines@);
    let n: usize = lines.len();
    let mut chunks: Vec<Chunk> = Vec::new();
    if n == 0 {
        return chunks;
    }
    let language: Vec<char> = str_chars("markdown");
    let mut current_start: usize = 0;
    let mut current_heading: Vec<char> = Vec::new();
    let mut idx: usize = 0;
    while idx < n
        invariant
            n == lines@.len() == ls.len(),
            ls == seqs_view(lines@),
            path@ == file_path@,
            language@ == "markdown"@,
            current_start <= idx <= n,
            current_start < n,
            current_start == idx ==> idx == 0,
            forall|k: int| current_start < k < idx ==> !is_heading_line(#[trigger] ls[k]),
            idx > current_start ==> current_heading@ == (if is_heading_line(ls[current_start as int])
                && heading_title(ls[current_start as int]).len() > 0 {
                heading_title(ls[current_start as int])
            } else {
                path@
            }),
            chunks_view(chunks@) + markdown_chunks_from(path@, ls, current_start as int)
                == markdown_chunks_from(path@, ls, 0),
        decreases n - idx,
    {
        if heading_chars(&lines[idx]) {
            if idx > current_start {
                let text: Vec<char> = join_range(&lines, current_start, idx);
                let c: Chunk = make_chunk(&path, current_start + 1, idx, &current_heading, &text, &language);
                proof {
                    lemma_section_end_at(ls, current_start as int, idx as int);
                    assert(c@ == markdown_chunk(path@, ls, current_start as int, idx as int));
                }
                let ghost before = chunks_view(chunks@);
                chunks.push(c);
                assert(chunks_view(chunks@) == before.push(c@));
                assert(chunks_view(chunks@) + markdown_chunks_from(path@, ls, idx as int)
                    =~= before + markdown_chunks_from(path@, ls, current_start as int));
            }
            let title: Vec<char> = title_of_heading(&lines[idx]);
            current_heading = if title.len() > 0 { title } else { slice_chars(&path, 0, path.len()) };
            proof {
                assert(path@.subrange(0, path@.len() as int) == path@);
            }
            current_start = idx;
        } else if idx == current_start {
            current_heading = slice_chars(&path, 0, path.len());
            proof {
                assert(path@.subrange(0, path@.len() as int) == path@);
            }
        }
        idx = idx + 1;
    }
    let text: Vec<char> = join_range(&lines, current_start, n);
    let c: Chunk = make_chunk(&path, current_start + 1, n, &current_heading, &text, &language);
    proof {
        lemma_section_end_at(ls, current_start as int, n as int);
        assert(c@ == markdown_chunk(path@, ls, current_start as int, n as int));
        assert(markdown_chunks_from(path@, ls, n as int).len() == 0);
    }
    let ghost before = chunks_view(chunks@);
    chunks.push(c);
    assert(chunks_view(chunks@) =~= before.push(c@));
    assert(chunks_view(chunks@) =~= markdown_chunks_from(path@, ls, 0));
    chunks
}


// --- Any file ---

/// Whether `p` ends with `suffix`.
pub open spec fn has_suffix(p: Seq<char>, suffix: Seq<char>) -> bool {
    p.len() >= suffix.len() && p.subrange(p.len() - suffix.len(), p.len() as int) == suffix
}

/// Rust files end in `.rs`.
pub open spec fn is_rust_path(p: Seq<char>) -> bool {
    has_suffix(p, seq!['.', 'r', 's'])
}

/// Markdown files end in `.md`.
pub open spec fn is_markdown_path(p: Seq<char>) -> bool {
    has_suffix(p, seq!['.', 'm', 'd'])
}

/// A file of another kind as one chunk named after the file, from line 1 to
/// its last line (line 1 when it has none).
pub open spec fn text_chunk(path: Seq<char>, source: Seq<char>) -> ChunkView {
    ChunkView {
        file_path: path,
        start_line: 1,
        end_line: if lines_of(source).len() > 1 {
            lines_of(source).len() as int
        } else {
            1
        },
        item_name: path,
        text: source,
        language: "text"@,
    }
}

/// `t` cut to its first `MAX_CHUNK_CHARS` characters.
pub open spec fn truncated(t: Seq<char>) -> Seq<char> {
    if t.len() > MAX_CHUNK_CHARS {
        t.take(MAX_CHUNK_CHARS as int)
    } else {
        t
    }
}

/// The chunks with their texts truncated, and those left blank dropped.
pub open spec fn finished(cs: Seq<ChunkView>) -> Seq<ChunkView>
    decreases cs.len(),
{
    if cs.len() == 0 {
        seq![]
    } else {
        let prev = finished(cs.drop_last());
        let c = cs.last();
        let t = truncated(c.text);
        if is_blank(t) {
            prev
        } else {
            prev.push(
                ChunkView {
                    file_path: c.file_path,
                    start_line: c.start_line,
                    end_line: c.end_line,
                    item_name: c.item_name,
                    text: t,
                    language: c.language,
                },
            )
        }
    }
}

fn ends_with(p: &Vec<char>, a: char, b: char, c: char) -> (res: bool)
    ensures
        res == has_suffix(p@, seq![a, b, c]),
{
    let n: usize = p.len();
    if n < 3 {
        return false;
    }
    let r: bool = p[n - 3] == a && p[n - 2] == b && p[n - 1] == c;
    proof {
        let tail = p@.subrange(n - 3, n as int);
        if r {
            assert(tail =~= seq![a, b, c]);
        } else {
            assert(tail != seq![a, b, c]) by {
                if tail == seq![a, b, c] {
                    assert(tail[0] == a && tail[1] == b && tail[2] == c);
                }
            }
        }
    }
    r
}

/// Truncates each chunk's text to `MAX_CHUNK_CHARS` characters and drops
/// the chunks whose text is then blank.
pub fn finish_chunks(chunks: Vec<Chunk>) -> (res: Vec<Chunk>)
    ensures
        chunks_view(res@) == finished(chunks_view(chunks@)),
{
    let ghost all = chunks_view(chunks@);
    let n: usize = chunks.len();
    let mut res: Vec<Chunk> = Vec::new();
    let mut k: usize = 0;
    while k < n
        invariant
            k <= n == chunks@.len(),
            all == chunks_view(chunks@),
            chunks_view(res@) == finished(all.take(k as int)),
        decreases n - k,
    {
        let c: &Chunk = &chunks[k];
        let mut text: Vec<char> = str_chars(c.text.as_str());
        if text.len() > MAX_CHUNK_CHARS {
            text.truncate(MAX_CHUNK_CHARS);
        }
        proof {
            assert(all.take(k + 1).drop_last() == all.take(k as int));
            assert(all.take(k + 1).last() == c@);
            assert(text@ == truncated(c.text@));
        }
        if !blank(&text) {
            let kept = Chunk {
                file_path: c.file_path.clone(),
                start_line: c.start_line,
                end_line: c.end_line,
                item_name: c.item_name.clone(),
                text: chars_to_string(&text),
                language: c.language.clone(),
            };
            let ghost before = chunks_view(res@);
            res.push(kept);
            assert(chunks_view(res@) =~= before.push(kept@));
        }
        k = k + 1;
    }
    assert(all.take(n as int) == all);
    res
}

/// Parses a Rust file with tree-sitter and chunks it by declaration.
pub fn chunk_rust(file_path: &str, source: &str) -> (res: Result<Vec<Chunk>, ChunkError>)
    requires
        utf8_len(source@) < usize::MAX,
    ensures
        res matches Ok(cs) && chunks_view(cs@) == rust_chunks(
            file_path@,
            source@,
            rust_syntax(source@),
        ),
        positions_agree(source@, rust_syntax(source@)),
        starts_in_preorder(rust_syntax(source@)),
        ranges_nest(rust_syntax(source@)),
{
    let mut parser = match rust_parser() {
        Ok(p) => p,
        Err(_) => {
            return Err(ChunkError::LanguageUnavailable);
        },
    };
    let nodes: Vec<SyntaxNode> = match parse_rust(&mut parser, source) {
        Some(nodes) => nodes,
        None => {
            return Err(ChunkError::ParseFailed);
        },
    };
    proof {
        lemma_positions_rows_fit(source@, nodes_view(nodes@));
    }
    chunk_rust_tree(file_path, source, &nodes)
}

/// Splits a source file into chunks: a `.rs` file by its top-level
/// declarations, a `.md` file by its headings, any other file as one chunk.
/// Each chunk's text is cut to `MAX_CHUNK_CHARS` characters, and chunks whose
/// text is then blank are dropped.
pub fn chunk_file(file_path: &str, source: &str) -> (res: Result<Vec<Chunk>, ChunkError>)
    requires
        utf8_len(source@) < usize::MAX,
    ensures
        !is_rust_path(file_path@) && is_markdown_path(file_path@) ==> (res matches Ok(cs)
            && chunks_view(cs@) == finished(markdown_chunks(file_path@, source@))),
        !is_rust_path(file_path@) && !is_markdown_path(file_path@) ==> (res matches Ok(cs)
            && chunks_view(cs@) == finished(seq![text_chunk(file_path@, source@)])),
        is_rust_path(file_path@) ==> (res matches Ok(cs) && chunks_view(cs@) == finished(
            rust_chunks(file_path@, source@, rust_syntax(source@)),
        )),
        is_rust_path(file_path@) ==> positions_agree(source@, rust_syntax(source@))
            && starts_in_preorder(rust_syntax(source@)) && ranges_nest(rust_syntax(source@)),
{
    let path: Vec<char> = str_chars(file_path);
    let chunks: Vec<Chunk> = if ends_with(&path, '.', 'r', 's') {
        match chunk_rust(file_path, source) {
            Ok(cs) => cs,
            Err(e) => {
                return Err(e);
            },
        }
    } else if ends_with(&path, '.', 'm', 'd') {
        chunk_markdown(file_path, source)
    } else {
        let src: Vec<char> = str_chars(source);
        let lines: Vec<Vec<char>> = split_lines(&src);
        let end_line: usize = if lines.len() > 1 {
            lines.len()
        } else {
            1
        };
        let language: Vec<char> = str_chars("text");
        let c: Chunk = make_chunk(&path, 1, end_line, &path, &src, &language);
        let mut v: Vec<Chunk> = Vec::new();
        v.push(c);
        assert(chunks_view(v@) =~= seq![text_chunk(file_path@, source@)]);
        v
    };
    Ok(finish_chunks(chunks))
}


/// Every chunk that comes out has a text of at most `MAX_CHUNK_CHARS`
/// characters that is not blank, and is one of the chunks that went in, with
/// its text cut to that length.
pub proof fn law_finished_chunks(cs: Seq<ChunkView>)
    ensures
        forall|k: int|
            0 <= k < finished(cs).len() ==> {
                &&& (#[trigger] finished(cs)[k]).text.len() <= MAX_CHUNK_CHARS
                &&& !is_blank(finished(cs)[k].text)
                &&& exists|j: int|
                    #![trigger cs[j]]
                    0 <= j < cs.len() && finished(cs)[k] == (ChunkView {
                        text: truncated(cs[j].text),
                        ..cs[j]
                    })
            },
        finished(cs).len() <= cs.len(),
    decreases cs.len(),
{
    if cs.len() > 0 {
        law_finished_chunks(cs.drop_last());
        let prev = finished(cs.drop_last());
        let f = finished(cs);
        assert forall|k: int|
            0 <= k < f.len() implies {
                &&& (#[trigger] f[k]).text.len() <= MAX_CHUNK_CHARS
                &&& !is_blank(f[k].text)
                &&& exists|j: int|
                    #![trigger cs[j]]
                    0 <= j < cs.len() && f[k] == (ChunkView { text: truncated(cs[j].text), ..cs[j] })
            } by {
            if k < prev.len() {
                assert(f[k] == prev[k]);
                let j = choose|j: int|
                    #![trigger cs.drop_last()[j]]
                    0 <= j < cs.drop_last().len() && prev[k] == (ChunkView {
                        text: truncated(cs.drop_last()[j].text),
                        ..cs.drop_last()[j]
                    });
                assert(cs.drop_last()[j] == cs[j]);
            } else {
                let j = cs.len() - 1;
                assert(f[k] == (ChunkView { text: truncated(cs[j].text), ..cs[j] }));
            }
        }
    }
}

} // verus!
