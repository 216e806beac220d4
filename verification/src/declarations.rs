//! Chunking a Rust file by its top-level declarations, over the syntax tree
//! that tree-sitter gives for it.

use vstd::prelude::*;
use crate::chunk::{Chunk, ChunkError, ChunkView, chunks_view, make_chunk};
use crate::preamble::{
    covers, law_preamble_lines, preamble, preamble_indices, preamble_line, preamble_of, ranges_view,
};
use crate::syntax::{
    SyntaxNode, SyntaxNodeView, child_by_field, child_indices, child_of_kind, children, children_from,
    first_of_kind,
    find_in_field, find_of_kind, in_subtree, is_position, nodes_view, positions_agree, ranges_nest,
    starts_in_preorder,
};
use crate::text::{
    char_byte_offsets, line_offset, line_offsets, lines_of, lines_span, seqs_view, slice_chars,
    split_lines, str_chars, str_eq, text_between, text_between_bytes, trim, trim_ws, utf8_len,
    append_chars, lemma_newline_count_prefix, lemma_utf8_len_prefix, lemma_utf8_prefix_strict,
    newline_count, is_blank, no_crlf, lemma_line_start, lemma_line_offset_next, law_line_offset_monotone,
};

verus! {

/// The text of `o`, or nothing.
pub open spec fn text_or_empty(o: Option<Seq<char>>) -> Seq<char> {
    match o {
        Some(x) => x,
        None => seq![],
    }
}

/// The source text of a node (`Node::utf8_text`): `None` when its byte range
/// does not fall on character boundaries.
pub open spec fn node_text(s: Seq<char>, n: SyntaxNodeView) -> Option<Seq<char>> {
    text_between(s, n.start_byte, n.end_byte)
}

/// The name drawn from a declaration's text when it has no name field: its
/// first line trimmed, at most 60 characters; `"unknown"` for an empty text.
pub open spec fn first_line_name(text: Seq<char>) -> Seq<char> {
    let ls = lines_of(text);
    let first = if ls.len() > 0 {
        ls[0]
    } else {
        "unknown"@
    };
    let tr = trim_ws(first);
    if tr.len() <= 60 {
        tr
    } else {
        tr.take(60)
    }
}

/// The name of declaration `i`: the text of its `name` field, else a name
/// drawn from its first line.
pub open spec fn item_name(s: Seq<char>, t: Seq<SyntaxNodeView>, i: int) -> Seq<char> {
    match child_by_field(t, i, "name"@) {
        Some(n) => text_or_empty(node_text(s, t[n])),
        None => first_line_name(text_or_empty(node_text(s, t[i]))),
    }
}

/// The name of impl block `i`: `Type`, or `Type<Trait>` for a trait impl;
/// `"impl"` without a type field.
pub open spec fn impl_name(s: Seq<char>, t: Seq<SyntaxNodeView>, i: int) -> Seq<char> {
    match child_by_field(t, i, "type"@) {
        Some(ty) => {
            let tn = text_or_empty(node_text(s, t[ty]));
            match child_by_field(t, i, "trait"@) {
                Some(tr) => tn + seq!['<'] + text_or_empty(node_text(s, t[tr])) + seq!['>'],
                None => tn,
            }
        },
        None => "impl"@,
    }
}

/// The kinds of impl members that become chunks of their own.
pub open spec fn is_member_kind(k: Seq<char>) -> bool {
    k == "function_item"@ || k == "const_item"@ || k == "type_item"@
}

/// The kinds of top-level declarations that become chunks.
pub open spec fn is_top_level_kind(k: Seq<char>) -> bool {
    ||| k == "function_item"@
    ||| k == "struct_item"@
    ||| k == "enum_item"@
    ||| k == "impl_item"@
    ||| k == "trait_item"@
    ||| k == "mod_item"@
    ||| k == "const_item"@
    ||| k == "static_item"@
    ||| k == "type_item"@
    ||| k == "macro_definition"@
}

/// The name of impl member `j`: the text of its `name` field, `"unknown"`
/// when it has none or its text is not on character boundaries.
pub open spec fn member_name(s: Seq<char>, t: Seq<SyntaxNodeView>, j: int) -> Seq<char> {
    match child_by_field(t, j, "name"@) {
        Some(n) => match node_text(s, t[n]) {
            Some(x) => x,
            None => "unknown"@,
        },
        None => "unknown"@,
    }
}

/// The chunk of node `n` of a Rust file, with the lines of its rows.
pub open spec fn node_chunk(path: Seq<char>, n: SyntaxNodeView, name: Seq<char>, text: Seq<char>) -> ChunkView {
    ChunkView {
        file_path: path,
        start_line: n.start_row + 1,
        end_line: n.end_row + 1,
        item_name: name,
        text: text,
        language: "rust"@,
    }
}

/// The chunks of the members among `cs`, named `Impl::member`.
pub open spec fn member_chunks(
    path: Seq<char>,
    s: Seq<char>,
    t: Seq<SyntaxNodeView>,
    cs: Seq<int>,
    iname: Seq<char>,
) -> Seq<ChunkView>
    decreases cs.len(),
{
    if cs.len() == 0 {
        seq![]
    } else {
        let prev = member_chunks(path, s, t, cs.drop_last(), iname);
        let j = cs.last();
        if is_member_kind(t[j].kind) {
            prev.push(
                node_chunk(
                    path,
                    t[j],
                    iname + seq![':', ':'] + member_name(s, t, j),
                    text_or_empty(node_text(s, t[j])),
                ),
            )
        } else {
            prev
        }
    }
}

/// A large impl block split into one chunk per method, constant and type of
/// its body; the whole block as one chunk when it has no body or no such member.
pub open spec fn split_impl_chunks(
    path: Seq<char>,
    s: Seq<char>,
    t: Seq<SyntaxNodeView>,
    i: int,
    iname: Seq<char>,
) -> Seq<ChunkView> {
    let whole = node_chunk(path, t[i], iname, text_or_empty(node_text(s, t[i])));
    match child_of_kind(t, i, "declaration_list"@) {
        None => seq![whole],
        Some(b) => {
            let ms = member_chunks(path, s, t, children(t, b), iname);
            if ms.len() == 0 {
                seq![whole]
            } else {
                ms
            }
        },
    }
}

/// Whether top-level node `i` is an impl block of more than 100 lines.
pub open spec fn is_large_impl(t: Seq<SyntaxNodeView>, i: int) -> bool {
    t[i].kind == "impl_item"@ && (t[i].end_row + 1) - (t[i].start_row + 1) + 1 > 100
}

/// The chunks of top-level declaration `i`, and the byte ranges they cover.
pub open spec fn item_chunks(path: Seq<char>, s: Seq<char>, t: Seq<SyntaxNodeView>, i: int) -> (
    Seq<ChunkView>,
    Seq<(int, int)>,
) {
    if is_large_impl(t, i) {
        let cs = split_impl_chunks(path, s, t, i, impl_name(s, t, i));
        (
            cs,
            cs.map_values(
                |c: ChunkView|
                    (line_offset(s, c.start_line - 1) as int, line_offset(s, c.end_line) as int),
            ),
        )
    } else {
        (
            seq![node_chunk(path, t[i], item_name(s, t, i), text_or_empty(node_text(s, t[i])))],
            seq![(t[i].start_byte, t[i].end_byte)],
        )
    }
}

/// The chunks of the top-level declarations among `items`, in order, and the
/// byte ranges they cover.
pub open spec fn items_chunks(path: Seq<char>, s: Seq<char>, t: Seq<SyntaxNodeView>, items: Seq<int>) -> (
    Seq<ChunkView>,
    Seq<(int, int)>,
)
    decreases items.len(),
{
    if items.len() == 0 {
        (seq![], seq![])
    } else {
        let (c0, r0) = items_chunks(path, s, t, items.drop_last());
        let i = items.last();
        if is_top_level_kind(t[i].kind) {
            let (c1, r1) = item_chunks(path, s, t, i);
            (c0 + c1, r0 + r1)
        } else {
            (c0, r0)
        }
    }
}

/// The chunks of a Rust file with syntax tree `t`: the preamble, if any,
/// then the chunks of its top-level declarations in order.
pub open spec fn rust_chunks(path: Seq<char>, s: Seq<char>, t: Seq<SyntaxNodeView>) -> Seq<ChunkView> {
    let (cs, cov) = items_chunks(path, s, t, children(t, 0));
    match preamble(path, s, cov) {
        Some(p) => seq![p] + cs,
        None => cs,
    }
}

/// Every row of the tree leaves room for a one-based line number.
pub open spec fn rows_fit(t: Seq<SyntaxNodeView>) -> bool {
    forall|i: int|
        #![trigger t[i]]
        0 <= i < t.len() ==> t[i].start_row < usize::MAX && t[i].end_row < usize::MAX
}

/// The source text, with what is needed to look up its nodes and lines.
struct Source {
    path: Vec<char>,
    chars: Vec<char>,
    offs: Vec<usize>,
    lines: Vec<Vec<char>>,
    line_offs: Vec<usize>,
}

impl Source {
    spec fn wf(&self) -> bool {
        &&& utf8_len(self.chars@) < usize::MAX
        &&& self.offs@.len() == self.chars@.len() + 1
        &&& forall|k: int|
            0 <= k <= self.chars@.len() ==> self.offs@[k] == utf8_len(#[trigger] self.chars@.take(k))
        &&& seqs_view(self.lines@) == lines_of(self.chars@)
        &&& self.line_offs@.len() == self.lines@.len() + 1
        &&& forall|k: int|
            0 <= k <= self.lines@.len() ==> self.line_offs@[k] == lines_span(
                #[trigger] seqs_view(self.lines@).take(k),
            )
    }

    /// The text of a node, or nothing.
    fn text(&self, n: &SyntaxNode) -> (res: Vec<char>)
        requires
            self.wf(),
        ensures
            res@ == text_or_empty(node_text(self.chars@, n@)),
    {
        match text_between_bytes(&self.chars, &self.offs, n.start_byte, n.end_byte) {
            Some(t) => t,
            None => Vec::new(),
        }
    }

    /// The byte offset of line `k` (`byte_offset_for_line`).
    fn line_offset(&self, k: usize) -> (res: usize)
        requires
            self.wf(),
        ensures
            res == line_offset(self.chars@, k as int),
    {
        if k < self.lines.len() {
            self.line_offs[k]
        } else {
            self.line_offs[self.lines.len()]
        }
    }
}

fn copy_chars(v: &Vec<char>) -> (res: Vec<char>)
    ensures
        res@ == v@,
{
    let r: Vec<char> = slice_chars(v, 0, v.len());
    assert(v@.subrange(0, v@.len() as int) == v@);
    r
}

/// The name of top-level declaration `i`.
fn extract_item_name(src: &Source, nodes: &Vec<SyntaxNode>, i: usize) -> (res: Vec<char>)
    requires
        src.wf(),
        i < nodes@.len(),
    ensures
        res@ == item_name(src.chars@, nodes_view(nodes@), i as int),
{
    let cs: Vec<usize> = child_indices(nodes, i);
    match find_in_field(nodes, &cs, "name") {
        Some(n) => src.text(&nodes[n]),
        None => {
            let text: Vec<char> = src.text(&nodes[i]);
            let ls: Vec<Vec<char>> = split_lines(&text);
            let first: Vec<char> = if ls.len() > 0 {
                copy_chars(&ls[0])
            } else {
                str_chars("unknown")
            };
            let tr: Vec<char> = trim(&first);
            if tr.len() <= 60 {
                tr
            } else {
                slice_chars(&tr, 0, 60)
            }
        },
    }
}

/// The name of impl block `i`.
fn extract_impl_name(src: &Source, nodes: &Vec<SyntaxNode>, i: usize) -> (res: Vec<char>)
    requires
        src.wf(),
        i < nodes@.len(),
    ensures
        res@ == impl_name(src.chars@, nodes_view(nodes@), i as int),
{
    let cs: Vec<usize> = child_indices(nodes, i);
    match find_in_field(nodes, &cs, "type") {
        Some(ty) => {
            let mut name: Vec<char> = src.text(&nodes[ty]);
            match find_in_field(nodes, &cs, "trait") {
                Some(tr) => {
                    let tn: Vec<char> = src.text(&nodes[tr]);
                    name.push('<');
                    append_chars(&mut name, &tn);
                    name.push('>');
                    name
                },
                None => name,
            }
        },
        None => str_chars("impl"),
    }
}

fn is_member(kind: &str) -> (res: bool)
    ensures
        res == is_member_kind(kind@),
{
    str_eq(kind, "function_item") || str_eq(kind, "const_item") || str_eq(kind, "type_item")
}

fn is_top_level(kind: &str) -> (res: bool)
    ensures
        res == is_top_level_kind(kind@),
{
    str_eq(kind, "function_item") || str_eq(kind, "struct_item") || str_eq(kind, "enum_item")
        || str_eq(kind, "impl_item") || str_eq(kind, "trait_item") || str_eq(kind, "mod_item")
        || str_eq(kind, "const_item") || str_eq(kind, "static_item") || str_eq(kind, "type_item")
        || str_eq(kind, "macro_definition")
}

/// The chunk of node `j` with the given name and its own text.
fn chunk_of_node(src: &Source, nodes: &Vec<SyntaxNode>, j: usize, name: &Vec<char>) -> (c: Chunk)
    requires
        src.wf(),
        j < nodes@.len(),
        rows_fit(nodes_view(nodes@)),
    ensures
        c@ == node_chunk(
            src.path@,
            nodes_view(nodes@)[j as int],
            name@,
            text_or_empty(node_text(src.chars@, nodes@[j as int]@)),
        ),
        c.start_line >= 1,
{
    assert(nodes_view(nodes@)[j as int] == nodes@[j as int]@);
    assert(nodes_view(nodes@)[j as int].start_row < usize::MAX);
    let text: Vec<char> = src.text(&nodes[j]);
    let language: Vec<char> = str_chars("rust");
    make_chunk(&src.path, nodes[j].start_row + 1, nodes[j].end_row + 1, name, &text, &language)
}

/// The name of impl member `j`.
fn extract_member_name(src: &Source, nodes: &Vec<SyntaxNode>, j: usize) -> (res: Vec<char>)
    requires
        src.wf(),
        j < nodes@.len(),
    ensures
        res@ == member_name(src.chars@, nodes_view(nodes@), j as int),
{
    let cs: Vec<usize> = child_indices(nodes, j);
    match find_in_field(nodes, &cs, "name") {
        Some(n) => match text_between_bytes(&src.chars, &src.offs, nodes[n].start_byte, nodes[n].end_byte) {
            Some(x) => x,
            None => str_chars("unknown"),
        },
        None => str_chars("unknown"),
    }
}

/// Splits the large impl block `i` into one chunk per member of its body.
fn split_impl_methods(src: &Source, nodes: &Vec<SyntaxNode>, i: usize, impl_name: &Vec<char>) -> (res: Vec<Chunk>)
    requires
        src.wf(),
        i < nodes@.len(),
        rows_fit(nodes_view(nodes@)),
    ensures
        chunks_view(res@) == split_impl_chunks(src.path@, src.chars@, nodes_view(nodes@), i as int, impl_name@),
        forall|k: int| 0 <= k < res@.len() ==> #[trigger] res@[k].start_line >= 1,
{
    let ghost t = nodes_view(nodes@);
    let mut chunks: Vec<Chunk> = Vec::new();
    let cs: Vec<usize> = child_indices(nodes, i);
    match find_of_kind(nodes, &cs, "declaration_list") {
        None => {
            let c: Chunk = chunk_of_node(src, nodes, i, impl_name);
            chunks.push(c);
            assert(chunks_view(chunks@) =~= seq![c@]);
        },
        Some(body) => {
            let members: Vec<usize> = child_indices(nodes, body);
            let ghost ms = members@.map_values(|k: usize| k as int);
            let n: usize = members.len();
            let mut k: usize = 0;
            while k < n
                invariant
                    src.wf(),
                    rows_fit(t),
                    t == nodes_view(nodes@),
                    k <= n == members@.len(),
                    ms == members@.map_values(|k: usize| k as int),
                    forall|m: int| 0 <= m < members@.len() ==> members@[m] < nodes@.len(),
                    chunks_view(chunks@) == member_chunks(src.path@, src.chars@, t, ms.take(k as int), impl_name@),
                    forall|m: int| 0 <= m < chunks@.len() ==> #[trigger] chunks@[m].start_line >= 1,
                decreases n - k,
            {
                let j: usize = members[k];
                proof {
                    assert(ms.take(k + 1).drop_last() == ms.take(k as int));
                    assert(ms.take(k + 1).last() == j as int);
                }
                if is_member(nodes[j].kind.as_str()) {
                    let member: Vec<char> = extract_member_name(src, nodes, j);
                    let mut name: Vec<char> = copy_chars(impl_name);
                    name.push(':');
                    name.push(':');
                    append_chars(&mut name, &member);
                    let c: Chunk = chunk_of_node(src, nodes, j, &name);
                    let ghost before = chunks_view(chunks@);
                    chunks.push(c);
                    proof {
                        assert(name@ == impl_name@ + seq![':', ':'] + member@);
                        assert(chunks_view(chunks@) =~= before.push(c@));
                    }
                }
                k = k + 1;
            }
            assert(ms.take(n as int) == ms);
            if chunks.len() == 0 {
                let c: Chunk = chunk_of_node(src, nodes, i, impl_name);
                chunks.push(c);
                assert(chunks_view(chunks@) =~= seq![c@]);
            }
        },
    }
    chunks
}

} // verus!

verus! {

/// Whether every node's rows leave room for a one-based line number.
fn check_rows_fit(nodes: &Vec<SyntaxNode>) -> (res: bool)
    ensures
        res == rows_fit(nodes_view(nodes@)),
{
    let n: usize = nodes.len();
    let mut k: usize = 0;
    while k < n
        invariant
            k <= n == nodes@.len(),
            forall|m: int|
                #![trigger nodes_view(nodes@)[m]]
                0 <= m < k ==> nodes_view(nodes@)[m].start_row < usize::MAX
                    && nodes_view(nodes@)[m].end_row < usize::MAX,
        decreases n - k,
    {
        assert(nodes_view(nodes@)[k as int] == nodes@[k as int]@);
        if nodes[k].start_row == usize::MAX || nodes[k].end_row == usize::MAX {
            assert(!(nodes_view(nodes@)[k as int].start_row < usize::MAX && nodes_view(nodes@)[k as int].end_row < usize::MAX));
            return false;
        }
        k = k + 1;
    }
    true
}

/// The chunks of a Rust file from its syntax tree, listed in preorder from the
/// root: the preamble, then each top-level declaration; impl blocks of more
/// than 100 lines split into their members.
pub fn chunk_rust_tree(file_path: &str, source: &str, nodes: &Vec<SyntaxNode>) -> (res: Result<
    Vec<Chunk>,
    ChunkError,
>)
    requires
        utf8_len(source@) < usize::MAX,
    ensures
        rows_fit(nodes_view(nodes@)) ==> (res matches Ok(cs) && chunks_view(cs@) == rust_chunks(
            file_path@,
            source@,
            nodes_view(nodes@),
        )),
        !rows_fit(nodes_view(nodes@)) ==> res matches Err(ChunkError::MalformedSyntaxTree),
{
    if !check_rows_fit(nodes) {
        return Err(ChunkError::MalformedSyntaxTree);
    }
    let ghost t = nodes_view(nodes@);
    let path: Vec<char> = str_chars(file_path);
    let chars: Vec<char> = str_chars(source);
    let offs: Vec<usize> = char_byte_offsets(&chars);
    let lines: Vec<Vec<char>> = split_lines(&chars);
    let line_offs: Vec<usize> = line_offsets(&chars, &lines);
    let src = Source { path, chars, offs, lines, line_offs };
    let items: Vec<usize> = if nodes.len() > 0 {
        child_indices(nodes, 0)
    } else {
        Vec::new()
    };
    let ghost iv = items@.map_values(|k: usize| k as int);
    assert(iv == children(t, 0));
    let mut chunks: Vec<Chunk> = Vec::new();
    let mut covered: Vec<(usize, usize)> = Vec::new();
    let n: usize = items.len();
    let mut k: usize = 0;
    while k < n
        invariant
            src.wf(),
            src.path@ == file_path@,
            src.chars@ == source@,
            rows_fit(t),
            t == nodes_view(nodes@),
            k <= n == items@.len(),
            iv == items@.map_values(|k: usize| k as int),
            forall|m: int| 0 <= m < items@.len() ==> items@[m] < nodes@.len(),
            (chunks_view(chunks@), ranges_view(covered@)) == items_chunks(
                src.path@,
                src.chars@,
                t,
                iv.take(k as int),
            ),
        decreases n - k,
    {
        let i: usize = items[k];
        let ghost before_c = chunks_view(chunks@);
        let ghost before_r = ranges_view(covered@);
        proof {
            assert(iv.take(k + 1).drop_last() == iv.take(k as int));
            assert(iv.take(k + 1).last() == i as int);
            assert(t[i as int] == nodes@[i as int]@);
            assert(t[i as int].start_row < usize::MAX);
        }
        if is_top_level(nodes[i].kind.as_str()) {
            let start_line: usize = nodes[i].start_row + 1;
            let end_line: usize = nodes[i].end_row + 1;
            if str_eq(nodes[i].kind.as_str(), "impl_item") && end_line >= start_line && end_line
                - start_line >= 100 {
                let iname: Vec<char> = extract_impl_name(&src, nodes, i);
                let mut ics: Vec<Chunk> = split_impl_methods(&src, nodes, i, &iname);
                let ghost cs = chunks_view(ics@);
                let m_n: usize = ics.len();
                let mut m: usize = 0;
                while m < m_n
                    invariant
                        src.wf(),
                        m <= m_n == ics@.len(),
                        cs == chunks_view(ics@),
                        forall|q: int| 0 <= q < ics@.len() ==> #[trigger] ics@[q].start_line >= 1,
                        ranges_view(covered@) == before_r + cs.take(m as int).map_values(
                            |c: ChunkView|
                                (line_offset(src.chars@, c.start_line - 1) as int, line_offset(
                                    src.chars@,
                                    c.end_line,
                                ) as int),
                        ),
                    decreases m_n - m,
                {
                    let lo: usize = src.line_offset(ics[m].start_line - 1);
                    let hi: usize = src.line_offset(ics[m].end_line);
                    let ghost prev = ranges_view(covered@);
                    covered.push((lo, hi));
                    proof {
                        assert(cs[m as int] == ics@[m as int]@);
                        assert(cs.take(m + 1) == cs.take(m as int).push(cs[m as int]));
                        assert(ranges_view(covered@) =~= prev.push((lo as int, hi as int)));
                    }
                    m = m + 1;
                }
                assert(cs.take(m_n as int) == cs);
                chunks.append(&mut ics);
                proof {
                    assert(chunks_view(chunks@) =~= before_c + cs);
                }
            } else {
                let name: Vec<char> = extract_item_name(&src, nodes, i);
                let c: Chunk = chunk_of_node(&src, nodes, i, &name);
                chunks.push(c);
                covered.push((nodes[i].start_byte, nodes[i].end_byte));
                proof {
                    assert(chunks_view(chunks@) =~= before_c + seq![c@]);
                    assert(ranges_view(covered@) =~= before_r + seq![(t[i as int].start_byte, t[i as int].end_byte)]);
                }
            }
        }
        k = k + 1;
    }
    assert(iv.take(n as int) == iv);
    match preamble_of(&src.path, &src.chars, &src.lines, &src.line_offs, &covered) {
        Some(p) => {
            let ghost before = chunks_view(chunks@);
            chunks.insert(0, p);
            assert(chunks_view(chunks@) =~= seq![p@] + before);
        },
        None => {},
    }
    Ok(chunks)
}

} // verus!

verus! {

/// All chunks carry the file's path and the language `"rust"`.
pub open spec fn labelled(cs: Seq<ChunkView>, path: Seq<char>) -> bool {
    forall|k: int| 0 <= k < cs.len() ==> (#[trigger] cs[k]).file_path == path && cs[k].language == "rust"@
}

proof fn lemma_member_chunks_labelled(path: Seq<char>, s: Seq<char>, t: Seq<SyntaxNodeView>, cs: Seq<int>, iname: Seq<char>)
    ensures
        labelled(member_chunks(path, s, t, cs, iname), path),
    decreases cs.len(),
{
    if cs.len() > 0 {
        lemma_member_chunks_labelled(path, s, t, cs.drop_last(), iname);
    }
}

proof fn lemma_items_chunks_labelled(path: Seq<char>, s: Seq<char>, t: Seq<SyntaxNodeView>, items: Seq<int>)
    ensures
        labelled(items_chunks(path, s, t, items).0, path),
    decreases items.len(),
{
    if items.len() > 0 {
        lemma_items_chunks_labelled(path, s, t, items.drop_last());
        let i = items.last();
        if is_top_level_kind(t[i].kind) {
            let (c0, r0) = items_chunks(path, s, t, items.drop_last());
            let (c1, r1) = item_chunks(path, s, t, i);
            if is_large_impl(t, i) {
                match child_of_kind(t, i, "declaration_list"@) {
                    Some(b) => lemma_member_chunks_labelled(path, s, t, children(t, b), impl_name(s, t, i)),
                    None => {},
                }
            }
            assert(labelled(c1, path));
            assert forall|k: int| 0 <= k < (c0 + c1).len() implies (#[trigger] (c0 + c1)[k]).file_path
                == path && (c0 + c1)[k].language == "rust"@ by {
                if k >= c0.len() {
                    assert((c0 + c1)[k] == c1[k - c0.len()]);
                }
            }
        }
    }
}

/// Every chunk of a Rust file, the preamble included, carries the file's
/// path and the language `"rust"`.
pub proof fn law_rust_chunks_labelled(path: Seq<char>, s: Seq<char>, t: Seq<SyntaxNodeView>)
    ensures
        labelled(rust_chunks(path, s, t), path),
{
    lemma_items_chunks_labelled(path, s, t, children(t, 0));
    let (cs, cov) = items_chunks(path, s, t, children(t, 0));
    match preamble(path, s, cov) {
        Some(p) => {
            assert forall|k: int| 0 <= k < (seq![p] + cs).len() implies (#[trigger] (seq![p] + cs)[k]).file_path
                == path && (seq![p] + cs)[k].language == "rust"@ by {
                if k > 0 {
                    assert((seq![p] + cs)[k] == cs[k - 1]);
                }
            }
        },
        None => {},
    }
}

} // verus!

verus! {

proof fn lemma_position_bounds(s: Seq<char>, byte: int, row: int)
    requires
        is_position(s, byte, row),
    ensures
        0 <= row <= byte <= utf8_len(s),
        row <= newline_count(s),
{
    let k = choose|k: int|
        0 <= k <= s.len() && utf8_len(#[trigger] s.take(k)) == byte && newline_count(s.take(k)) == row;
    lemma_newline_count_prefix(s, k, k);
    lemma_newline_count_prefix(s, k, s.len() as int);
    lemma_utf8_len_prefix(s, k);
}

proof fn lemma_position_order(s: Seq<char>, b1: int, r1: int, b2: int, r2: int)
    requires
        is_position(s, b1, r1),
        is_position(s, b2, r2),
        b1 <= b2,
    ensures
        r1 <= r2,
{
    let k1 = choose|k: int|
        0 <= k <= s.len() && utf8_len(#[trigger] s.take(k)) == b1 && newline_count(s.take(k)) == r1;
    let k2 = choose|k: int|
        0 <= k <= s.len() && utf8_len(#[trigger] s.take(k)) == b2 && newline_count(s.take(k)) == r2;
    if k2 < k1 {
        lemma_utf8_prefix_strict(s, k2, k1);
    } else {
        lemma_newline_count_prefix(s, k1, k2);
    }
}

/// When the rows are the newlines before each node's bytes, every row
/// leaves room for a one-based line number.
pub proof fn lemma_positions_rows_fit(s: Seq<char>, t: Seq<SyntaxNodeView>)
    requires
        positions_agree(s, t),
        utf8_len(s) < usize::MAX,
    ensures
        rows_fit(t),
{
    assert forall|i: int| #![trigger t[i]] 0 <= i < t.len() implies t[i].start_row < usize::MAX
        && t[i].end_row < usize::MAX by {
        lemma_position_bounds(s, t[i].start_byte, t[i].start_row);
        lemma_position_bounds(s, t[i].end_byte, t[i].end_row);
    }
}

} // verus!

verus! {

proof fn lemma_children_from_in_range(t: Seq<SyntaxNodeView>, d: int, j: int)
    ensures
        forall|k: int|
            0 <= k < children_from(t, d, j).len() ==> j <= #[trigger] children_from(t, d, j)[k] < t.len(),
    decreases t.len() - j,
{
    if !(j < 0 || j >= t.len() || t[j].depth <= d) {
        lemma_children_from_in_range(t, d, j + 1);
        let rest = children_from(t, d, j + 1);
        if t[j].depth == d + 1 {
            assert forall|k: int| 0 <= k < children_from(t, d, j).len() implies j <= #[trigger] children_from(
                t,
                d,
                j,
            )[k] < t.len() by {
                if k > 0 {
                    assert(children_from(t, d, j)[k] == rest[k - 1]);
                }
            }
        }
    }
}

/// The children of a node are nodes of the tree, after it.
pub proof fn lemma_children_in_range(t: Seq<SyntaxNodeView>, i: int)
    ensures
        forall|k: int| 0 <= k < children(t, i).len() ==> i < #[trigger] children(t, i)[k] < t.len(),
{
    if 0 <= i < t.len() {
        lemma_children_from_in_range(t, t[i].depth, i + 1);
    }
}

proof fn lemma_first_of_kind_in(t: Seq<SyntaxNodeView>, cs: Seq<int>, k: Seq<char>)
    ensures
        first_of_kind(t, cs, k) matches Some(j) ==> cs.contains(j),
    decreases cs.len(),
{
    if cs.len() > 0 && t[cs[0]].kind != k {
        lemma_first_of_kind_in(t, cs.drop_first(), k);
        match first_of_kind(t, cs, k) {
            Some(j) => {
                let m = choose|m: int| 0 <= m < cs.drop_first().len() && cs.drop_first()[m] == j;
                assert(cs[m + 1] == j);
            },
            None => {},
        }
    } else if cs.len() > 0 {
        assert(cs[0] == cs[0]);
    }
}

/// Every chunk's lines run from 1 up, forward, to at most `max`.
pub open spec fn lines_within(cs: Seq<ChunkView>, max: nat) -> bool {
    forall|k: int| 0 <= k < cs.len() ==> 1 <= #[trigger] cs[k].start_line <= cs[k].end_line <= max
}

proof fn lemma_node_chunk_lines(path: Seq<char>, s: Seq<char>, t: Seq<SyntaxNodeView>, j: int, name: Seq<char>, text: Seq<char>)
    requires
        positions_agree(s, t),
        0 <= j < t.len(),
    ensures
        1 <= node_chunk(path, t[j], name, text).start_line <= node_chunk(path, t[j], name, text).end_line
            <= newline_count(s) + 1,
{
    assert(t[j].start_byte <= t[j].end_byte);
    lemma_position_bounds(s, t[j].start_byte, t[j].start_row);
    lemma_position_bounds(s, t[j].end_byte, t[j].end_row);
    lemma_position_order(s, t[j].start_byte, t[j].start_row, t[j].end_byte, t[j].end_row);
}

proof fn lemma_member_chunks_lines(path: Seq<char>, s: Seq<char>, t: Seq<SyntaxNodeView>, cs: Seq<int>, iname: Seq<char>)
    requires
        positions_agree(s, t),
        forall|k: int| 0 <= k < cs.len() ==> 0 <= #[trigger] cs[k] < t.len(),
    ensures
        lines_within(member_chunks(path, s, t, cs, iname), newline_count(s) + 1),
    decreases cs.len(),
{
    if cs.len() > 0 {
        lemma_member_chunks_lines(path, s, t, cs.drop_last(), iname);
        let j = cs.last();
        assert(cs[cs.len() - 1] == j);
        if is_member_kind(t[j].kind) {
            lemma_node_chunk_lines(
                path,
                s,
                t,
                j,
                iname + seq![':', ':'] + member_name(s, t, j),
                text_or_empty(node_text(s, t[j])),
            );
        }
    }
}

proof fn lemma_item_chunks_lines(path: Seq<char>, s: Seq<char>, t: Seq<SyntaxNodeView>, i: int)
    requires
        positions_agree(s, t),
        0 <= i < t.len(),
    ensures
        lines_within(item_chunks(path, s, t, i).0, newline_count(s) + 1),
{
    if is_large_impl(t, i) {
        let iname = impl_name(s, t, i);
        lemma_node_chunk_lines(path, s, t, i, iname, text_or_empty(node_text(s, t[i])));
        match child_of_kind(t, i, "declaration_list"@) {
            Some(b) => {
                lemma_first_of_kind_in(t, children(t, i), "declaration_list"@);
                lemma_children_in_range(t, i);
                let m = choose|m: int| 0 <= m < children(t, i).len() && children(t, i)[m] == b;
                assert(0 <= b < t.len());
                lemma_children_in_range(t, b);
                lemma_member_chunks_lines(path, s, t, children(t, b), iname);
            },
            None => {},
        }
    } else {
        lemma_node_chunk_lines(path, s, t, i, item_name(s, t, i), text_or_empty(node_text(s, t[i])));
    }
}

proof fn lemma_items_chunks_lines(path: Seq<char>, s: Seq<char>, t: Seq<SyntaxNodeView>, items: Seq<int>)
    requires
        positions_agree(s, t),
        forall|k: int| 0 <= k < items.len() ==> 0 <= #[trigger] items[k] < t.len(),
    ensures
        lines_within(items_chunks(path, s, t, items).0, newline_count(s) + 1),
    decreases items.len(),
{
    if items.len() > 0 {
        lemma_items_chunks_lines(path, s, t, items.drop_last());
        let i = items.last();
        assert(items[items.len() - 1] == i);
        if is_top_level_kind(t[i].kind) {
            let (c0, r0) = items_chunks(path, s, t, items.drop_last());
            let (c1, r1) = item_chunks(path, s, t, i);
            let max = newline_count(s) + 1;
            lemma_item_chunks_lines(path, s, t, i);
            assert forall|k: int| 0 <= k < (c0 + c1).len() implies 1 <= #[trigger] (c0 + c1)[k].start_line
                <= (c0 + c1)[k].end_line <= max by {
                if k >= c0.len() {
                    assert((c0 + c1)[k] == c1[k - c0.len()]);
                } else {
                    assert((c0 + c1)[k] == c0[k]);
                }
            }
        }
    }
}

/// The lines of every chunk of a Rust file run forward from line 1, and
/// never past the line after the file's last newline, when the tree's rows
/// count the newlines before each node's bytes.
pub proof fn law_rust_chunk_lines(path: Seq<char>, s: Seq<char>, t: Seq<SyntaxNodeView>)
    requires
        positions_agree(s, t),
    ensures
        lines_within(rust_chunks(path, s, t), newline_count(s) + 1),
{
    lemma_children_in_range(t, 0);
    lemma_items_chunks_lines(path, s, t, children(t, 0));
    let (cs, cov) = items_chunks(path, s, t, children(t, 0));
    let max = newline_count(s) + 1;
    match preamble(path, s, cov) {
        Some(p) => {
            let lines = lines_of(s);
            let idx = crate::preamble::preamble_indices(s, cov, lines.len() as int);
            crate::preamble::law_preamble_lines(s, cov, lines.len() as int);
            crate::text::lemma_lines_count(s);
            assert(idx.contains(idx[0]));
            assert(idx.contains(idx.last()));
            assert(idx[0] <= idx.last()) by {
                if idx.len() > 1 {
                    assert(idx[0] < idx[idx.len() - 1]);
                }
            }
            assert(1 <= p.start_line <= p.end_line <= max);
            assert forall|k: int| 0 <= k < (seq![p] + cs).len() implies 1 <= #[trigger] (seq![p] + cs)[k].start_line
                <= (seq![p] + cs)[k].end_line <= max by {
                if k > 0 {
                    assert((seq![p] + cs)[k] == cs[k - 1]);
                }
            }
        },
        None => {},
    }
}

} // verus!

verus! {

/// Where the subtree scanned from `j` ends: the first node from `j` on that
/// is not deeper than `d`, or the end.
pub open spec fn scan_end(t: Seq<SyntaxNodeView>, d: int, j: int) -> int
    decreases t.len() - j,
{
    if j < 0 || j >= t.len() || t[j].depth <= d {
        j
    } else {
        scan_end(t, d, j + 1)
    }
}

proof fn lemma_scan_end(t: Seq<SyntaxNodeView>, d: int, j: int)
    requires
        0 <= j <= t.len(),
    ensures
        j <= scan_end(t, d, j) <= t.len(),
        scan_end(t, d, j) < t.len() ==> t[scan_end(t, d, j)].depth <= d,
    decreases t.len() - j,
{
    if j < t.len() && t[j].depth > d {
        lemma_scan_end(t, d, j + 1);
    }
}

proof fn lemma_scan_end_stops(t: Seq<SyntaxNodeView>, d: int, j: int, y: int)
    requires
        0 <= j <= y < t.len(),
        t[y].depth <= d,
    ensures
        scan_end(t, d, j) <= y,
    decreases y - j,
{
    if j < y && t[j].depth > d {
        lemma_scan_end_stops(t, d, j + 1, y);
    }
}

proof fn lemma_scan_end_nested(t: Seq<SyntaxNodeView>, d: int, j: int, d2: int, x: int)
    requires
        0 <= j <= t.len(),
        j <= x <= scan_end(t, d, j),
        d <= d2,
    ensures
        scan_end(t, d2, x) <= scan_end(t, d, j),
{
    lemma_scan_end(t, d, j);
    let e = scan_end(t, d, j);
    if e < t.len() {
        lemma_scan_end_stops(t, d2, x, e);
    } else {
        lemma_scan_end(t, d2, x);
    }
}

proof fn lemma_children_from_props(t: Seq<SyntaxNodeView>, d: int, j: int)
    requires
        0 <= j <= t.len(),
    ensures
        forall|k: int|
            0 <= k < children_from(t, d, j).len() ==> j <= #[trigger] children_from(t, d, j)[k]
                < scan_end(t, d, j) && t[children_from(t, d, j)[k]].depth == d + 1,
        forall|a: int, b: int|
            #![trigger children_from(t, d, j)[a], children_from(t, d, j)[b]]
            0 <= a < b < children_from(t, d, j).len() ==> children_from(t, d, j)[a] < children_from(
                t,
                d,
                j,
            )[b],
    decreases t.len() - j,
{
    if j < t.len() && t[j].depth > d {
        lemma_children_from_props(t, d, j + 1);
        let c = children_from(t, d, j);
        let rest = children_from(t, d, j + 1);
        if t[j].depth == d + 1 {
            assert(c == seq![j] + rest);
            assert forall|k: int| 0 <= k < c.len() implies j <= #[trigger] c[k] < scan_end(t, d, j)
                && t[c[k]].depth == d + 1 by {
                lemma_scan_end(t, d, j + 1);
                if k > 0 {
                    assert(c[k] == rest[k - 1]);
                }
            }
            assert forall|a: int, b: int| #![trigger c[a], c[b]] 0 <= a < b < c.len() implies c[a] < c[b] by {
                assert(c[b] == rest[b - 1]);
                if a > 0 {
                    assert(c[a] == rest[a - 1]);
                }
            }
        }
    }
}

/// Start rows never decrease in preorder.
proof fn lemma_row_order(s: Seq<char>, t: Seq<SyntaxNodeView>, x: int, y: int)
    requires
        positions_agree(s, t),
        starts_in_preorder(t),
        0 <= x <= y < t.len(),
    ensures
        t[x].start_row <= t[y].start_row,
{
    if x < y {
        assert(t[x].start_byte <= t[y].start_byte);
        assert(t[x] == t[x] && t[y] == t[y]);
        lemma_position_order(s, t[x].start_byte, t[x].start_row, t[y].start_byte, t[y].start_row);
    }
}

/// The chunks' first lines never go back.
pub open spec fn sorted_starts(cs: Seq<ChunkView>) -> bool {
    forall|a: int, b: int|
        #![trigger cs[a], cs[b]]
        0 <= a < b < cs.len() ==> cs[a].start_line <= cs[b].start_line
}

/// Each chunk ends on the line where every later chunk starts, or before.
pub open spec fn in_line_order(cs: Seq<ChunkView>) -> bool {
    forall|a: int, b: int|
        #![trigger cs[a], cs[b]]
        0 <= a < b < cs.len() ==> cs[a].end_line <= cs[b].start_line
}

/// Every chunk lies within the lines of rows `a` to `b`.
pub open spec fn lines_between(cs: Seq<ChunkView>, a: int, b: int) -> bool {
    forall|k: int| #![trigger cs[k]] 0 <= k < cs.len() ==> a + 1 <= cs[k].start_line && cs[k].end_line <= b + 1
}

proof fn lemma_scan_end_deeper(t: Seq<SyntaxNodeView>, d: int, j: int)
    requires
        0 <= j <= t.len(),
    ensures
        forall|x: int| #![trigger t[x]] j <= x < scan_end(t, d, j) ==> t[x].depth > d,
    decreases t.len() - j,
{
    if j < t.len() && t[j].depth > d {
        lemma_scan_end_deeper(t, d, j + 1);
    }
}

/// Row order follows byte order.
proof fn lemma_rows_follow(s: Seq<char>, t: Seq<SyntaxNodeView>, x: int, y: int)
    requires
        positions_agree(s, t),
        0 <= x < t.len(),
        0 <= y < t.len(),
    ensures
        t[x].end_byte <= t[y].start_byte ==> t[x].end_row <= t[y].start_row,
        t[x].end_byte <= t[y].end_byte ==> t[x].end_row <= t[y].end_row,
        t[x].start_row <= t[x].end_row,
{
    assert(t[x] == t[x] && t[y] == t[y]);
    if t[x].end_byte <= t[y].start_byte {
        lemma_position_order(s, t[x].end_byte, t[x].end_row, t[y].start_byte, t[y].start_row);
    }
    if t[x].end_byte <= t[y].end_byte {
        lemma_position_order(s, t[x].end_byte, t[x].end_row, t[y].end_byte, t[y].end_row);
    }
    lemma_position_order(s, t[x].start_byte, t[x].start_row, t[x].end_byte, t[x].end_row);
}

proof fn lemma_member_ordered(
    path: Seq<char>,
    s: Seq<char>,
    t: Seq<SyntaxNodeView>,
    cs: Seq<int>,
    iname: Seq<char>,
    a: int,
    b: int,
)
    requires
        forall|k: int|
            #![trigger cs[k]]
            0 <= k < cs.len() ==> 0 <= cs[k] < t.len() && a <= t[cs[k]].start_row <= t[cs[k]].end_row <= b,
        forall|x: int, y: int|
            #![trigger cs[x], cs[y]]
            0 <= x < y < cs.len() ==> t[cs[x]].end_row <= t[cs[y]].start_row,
    ensures
        in_line_order(member_chunks(path, s, t, cs, iname)),
        lines_between(member_chunks(path, s, t, cs, iname), a, b),
    decreases cs.len(),
{
    if cs.len() > 0 {
        let j = cs.last();
        let pre = cs.drop_last();
        assert(cs[cs.len() - 1] == j);
        assert forall|k: int| #![trigger pre[k]] 0 <= k < pre.len() implies 0 <= pre[k] < t.len() && a
            <= t[pre[k]].start_row <= t[pre[k]].end_row <= t[j].start_row by {
            assert(pre[k] == cs[k]);
        }
        assert forall|x: int, y: int| #![trigger pre[x], pre[y]] 0 <= x < y < pre.len() implies t[pre[x]].end_row
            <= t[pre[y]].start_row by {
            assert(pre[x] == cs[x] && pre[y] == cs[y]);
        }
        lemma_member_ordered(path, s, t, pre, iname, a, t[j].start_row);
        let prev = member_chunks(path, s, t, pre, iname);
        let r = member_chunks(path, s, t, cs, iname);
        if is_member_kind(t[j].kind) {
            assert(r == prev.push(r[r.len() - 1]));
            assert(r[r.len() - 1].start_line == t[j].start_row + 1);
            assert(r[r.len() - 1].end_line == t[j].end_row + 1);
            assert forall|x: int, y: int| #![trigger r[x], r[y]] 0 <= x < y < r.len() implies r[x].end_line
                <= r[y].start_line by {
                assert(r[x] == prev[x]);
                if y < prev.len() {
                    assert(r[y] == prev[y]);
                }
            }
            assert forall|k: int| #![trigger r[k]] 0 <= k < r.len() implies a + 1 <= r[k].start_line
                && r[k].end_line <= b + 1 by {
                if k < prev.len() {
                    assert(r[k] == prev[k]);
                }
            }
        }
    }
}

proof fn lemma_item_ordered(path: Seq<char>, s: Seq<char>, t: Seq<SyntaxNodeView>, i: int)
    requires
        positions_agree(s, t),
        starts_in_preorder(t),
        ranges_nest(t),
        0 <= i < t.len(),
    ensures
        in_line_order(item_chunks(path, s, t, i).0),
        lines_between(item_chunks(path, s, t, i).0, t[i].start_row, t[i].end_row),
{
    let d = t[i].depth;
    let e = scan_end(t, d, i + 1);
    lemma_scan_end(t, d, i + 1);
    lemma_rows_follow(s, t, i, i);
    if is_large_impl(t, i) {
        let iname = impl_name(s, t, i);
        match child_of_kind(t, i, "declaration_list"@) {
            Some(bn) => {
                lemma_first_of_kind_in(t, children(t, i), "declaration_list"@);
                lemma_children_from_props(t, d, i + 1);
                let ci = children(t, i);
                let m0 = choose|m0: int| 0 <= m0 < ci.len() && ci[m0] == bn;
                assert(i + 1 <= bn < e && t[bn].depth == d + 1);
                let cs = children(t, bn);
                lemma_children_from_props(t, d + 1, bn + 1);
                lemma_scan_end_nested(t, d, i + 1, d + 1, bn + 1);
                lemma_scan_end_deeper(t, d, i + 1);
                assert forall|k: int| #![trigger cs[k]] 0 <= k < cs.len() implies 0 <= cs[k] < t.len()
                    && t[i].start_row <= t[cs[k]].start_row <= t[cs[k]].end_row <= t[i].end_row by {
                    let m = cs[k];
                    assert(bn + 1 <= m < e);
                    lemma_row_order(s, t, i, m);
                    assert(in_subtree(t, i, m));
                    assert(t[m].end_byte <= t[i].end_byte);
                    lemma_rows_follow(s, t, m, i);
                }
                assert forall|x: int, y: int| #![trigger cs[x], cs[y]] 0 <= x < y < cs.len() implies t[cs[x]].end_row
                    <= t[cs[y]].start_row by {
                    let cx = cs[x];
                    let cy = cs[y];
                    assert(children_from(t, d + 1, bn + 1)[x] < children_from(t, d + 1, bn + 1)[y]);
                    assert(t[cy].depth == t[cx].depth);
                    assert(t[cx].end_byte <= t[cy].start_byte);
                    lemma_rows_follow(s, t, cx, cy);
                }
                lemma_member_ordered(path, s, t, cs, iname, t[i].start_row, t[i].end_row);
            },
            None => {},
        }
    }
}

proof fn lemma_items_ordered(
    path: Seq<char>,
    s: Seq<char>,
    t: Seq<SyntaxNodeView>,
    items: Seq<int>,
    a: int,
    b: int,
)
    requires
        positions_agree(s, t),
        starts_in_preorder(t),
        ranges_nest(t),
        forall|k: int|
            #![trigger items[k]]
            0 <= k < items.len() ==> 0 <= items[k] < t.len() && a <= t[items[k]].start_row
                <= t[items[k]].end_row <= b,
        forall|x: int, y: int|
            #![trigger items[x], items[y]]
            0 <= x < y < items.len() ==> t[items[x]].end_row <= t[items[y]].start_row,
    ensures
        in_line_order(items_chunks(path, s, t, items).0),
        lines_between(items_chunks(path, s, t, items).0, a, b),
    decreases items.len(),
{
    if items.len() > 0 {
        let i = items.last();
        let pre = items.drop_last();
        assert(items[items.len() - 1] == i);
        assert forall|k: int| #![trigger pre[k]] 0 <= k < pre.len() implies 0 <= pre[k] < t.len() && a
            <= t[pre[k]].start_row <= t[pre[k]].end_row <= t[i].start_row by {
            assert(pre[k] == items[k]);
        }
        assert forall|x: int, y: int| #![trigger pre[x], pre[y]] 0 <= x < y < pre.len() implies t[pre[x]].end_row
            <= t[pre[y]].start_row by {
            assert(pre[x] == items[x] && pre[y] == items[y]);
        }
        lemma_items_ordered(path, s, t, pre, a, t[i].start_row);
        let (c0, r0) = items_chunks(path, s, t, pre);
        if is_top_level_kind(t[i].kind) {
            let (c1, r1) = item_chunks(path, s, t, i);
            lemma_item_ordered(path, s, t, i);
            let c = c0 + c1;
            assert forall|x: int, y: int| #![trigger c[x], c[y]] 0 <= x < y < c.len() implies c[x].end_line
                <= c[y].start_line by {
                if y < c0.len() {
                    assert(c[x] == c0[x] && c[y] == c0[y]);
                } else if x >= c0.len() {
                    assert(c[x] == c1[x - c0.len()] && c[y] == c1[y - c0.len()]);
                } else {
                    assert(c[x] == c0[x] && c[y] == c1[y - c0.len()]);
                }
            }
            assert forall|k: int| #![trigger c[k]] 0 <= k < c.len() implies a + 1 <= c[k].start_line
                && c[k].end_line <= b + 1 by {
                if k < c0.len() {
                    assert(c[k] == c0[k]);
                } else {
                    assert(c[k] == c1[k - c0.len()]);
                }
            }
        }
    }
}

/// The chunks of a Rust file come in the order of the source: the preamble,
/// when there is one, first; then the declarations' chunks, each ending on
/// the line where the next one starts or before (declarations sharing a line
/// share it), so their first lines never go back.
pub proof fn law_rust_chunks_in_order(path: Seq<char>, s: Seq<char>, t: Seq<SyntaxNodeView>)
    requires
        positions_agree(s, t),
        starts_in_preorder(t),
        ranges_nest(t),
    ensures
        ({
            let cs = items_chunks(path, s, t, children(t, 0)).0;
            let r = rust_chunks(path, s, t);
            &&& in_line_order(cs)
            &&& sorted_starts(cs)
            &&& r == cs || (r.len() == cs.len() + 1 && r[0].item_name == "preamble"@ && r.skip(1) == cs)
        }),
{
    let items = children(t, 0);
    if t.len() > 0 {
        let d0 = t[0].depth;
        lemma_children_from_props(t, d0, 1);
        lemma_scan_end(t, d0, 1);
        assert(items == children_from(t, d0, 1));
        assert forall|k: int| #![trigger items[k]] 0 <= k < items.len() implies 0 <= items[k] < t.len()
            && 0 <= t[items[k]].start_row <= t[items[k]].end_row <= newline_count(s) by {
            let m = items[k];
            assert(t[m] == t[m]);
            lemma_rows_follow(s, t, m, m);
            lemma_position_bounds(s, t[m].start_byte, t[m].start_row);
            lemma_position_bounds(s, t[m].end_byte, t[m].end_row);
        }
        assert forall|x: int, y: int| #![trigger items[x], items[y]] 0 <= x < y < items.len() implies t[items[x]].end_row
            <= t[items[y]].start_row by {
            let ix = items[x];
            let iy = items[y];
            assert(ix < iy);
            assert(t[iy].depth == t[ix].depth);
            assert(t[ix].end_byte <= t[iy].start_byte);
            lemma_rows_follow(s, t, ix, iy);
        }
        lemma_items_ordered(path, s, t, items, 0, newline_count(s) as int);
    }
    lemma_children_in_range(t, 0);
    lemma_items_chunks_lines(path, s, t, items);
    let (cs, cov) = items_chunks(path, s, t, items);
    assert forall|a: int, b: int| #![trigger cs[a], cs[b]] 0 <= a < b < cs.len() implies cs[a].start_line
        <= cs[b].start_line by {
        assert(cs[a].start_line <= cs[a].end_line);
    }
    match preamble(path, s, cov) {
        Some(p) => {
            assert((seq![p] + cs).skip(1) == cs);
        },
        None => {},
    }
}

} // verus!

verus! {

/// Every non-blank line of `s` whose bytes lie within range `r` falls within
/// the lines of chunk `c`.
pub open spec fn range_keeps_lines(s: Seq<char>, c: ChunkView, r: (int, int)) -> bool {
    forall|j: int|
        #![trigger line_offset(s, j)]
        0 <= j < lines_of(s).len() && !is_blank(lines_of(s)[j]) && r.0 <= line_offset(s, j)
            && line_offset(s, j) + utf8_len(lines_of(s)[j]) <= r.1 ==> c.start_line <= j + 1
            <= c.end_line
}

proof fn lemma_nonblank_bytes(x: Seq<char>)
    requires
        !is_blank(x),
    ensures
        utf8_len(x) > 0,
{
    lemma_utf8_len_prefix(x, x.len() as int);
    assert(x.take(x.len() as int) == x);
}

/// Line `j` starts and ends at positions on row `j`.
proof fn lemma_line_positions(s: Seq<char>, j: int)
    requires
        no_crlf(s),
        0 <= j < lines_of(s).len(),
    ensures
        is_position(s, line_offset(s, j) as int, j),
        is_position(s, (line_offset(s, j) + utf8_len(lines_of(s)[j])) as int, j),
{
    let k = lemma_line_start(s, j);
    let e = k + lines_of(s)[j].len();
    assert(utf8_len(s.take(k)) == line_offset(s, j) && newline_count(s.take(k)) == j);
    assert(utf8_len(s.take(e)) == line_offset(s, j) + utf8_len(lines_of(s)[j]) && newline_count(s.take(e)) == j);
}

proof fn lemma_node_keeps_lines(
    path: Seq<char>,
    s: Seq<char>,
    t: Seq<SyntaxNodeView>,
    i: int,
    name: Seq<char>,
    text: Seq<char>,
)
    requires
        positions_agree(s, t),
        no_crlf(s),
        0 <= i < t.len(),
    ensures
        range_keeps_lines(s, node_chunk(path, t[i], name, text), (t[i].start_byte, t[i].end_byte)),
{
    let n = t[i];
    assert(t[i] == n);
    assert forall|j: int|
        #![trigger line_offset(s, j)]
        0 <= j < lines_of(s).len() && !is_blank(lines_of(s)[j]) && n.start_byte <= line_offset(s, j)
            && line_offset(s, j) + utf8_len(lines_of(s)[j]) <= n.end_byte implies n.start_row + 1
        <= j + 1 <= n.end_row + 1 by {
        lemma_line_positions(s, j);
        lemma_position_order(s, n.start_byte, n.start_row, line_offset(s, j) as int, j);
        lemma_position_order(s, (line_offset(s, j) + utf8_len(lines_of(s)[j])) as int, j, n.end_byte, n.end_row);
    }
}

proof fn lemma_lines_keep_lines(s: Seq<char>, c: ChunkView)
    requires
        1 <= c.start_line <= c.end_line,
    ensures
        range_keeps_lines(
            s,
            c,
            (line_offset(s, c.start_line - 1) as int, line_offset(s, c.end_line) as int),
        ),
{
    let a = c.start_line - 1;
    let b = c.end_line;
    assert forall|j: int|
        #![trigger line_offset(s, j)]
        0 <= j < lines_of(s).len() && !is_blank(lines_of(s)[j]) && line_offset(s, a) <= line_offset(s, j)
            && line_offset(s, j) + utf8_len(lines_of(s)[j]) <= line_offset(s, b) implies c.start_line
        <= j + 1 <= c.end_line by {
        lemma_nonblank_bytes(lines_of(s)[j]);
        if j < a {
            lemma_line_offset_next(s, j, a);
        }
        if b <= j {
            law_line_offset_monotone(s, b, j);
        }
    }
}

proof fn lemma_item_keeps_lines(path: Seq<char>, s: Seq<char>, t: Seq<SyntaxNodeView>, i: int)
    requires
        positions_agree(s, t),
        no_crlf(s),
        0 <= i < t.len(),
    ensures
        item_chunks(path, s, t, i).0.len() == item_chunks(path, s, t, i).1.len(),
        forall|k: int|
            #![trigger item_chunks(path, s, t, i).0[k]]
            0 <= k < item_chunks(path, s, t, i).0.len() ==> range_keeps_lines(
                s,
                item_chunks(path, s, t, i).0[k],
                item_chunks(path, s, t, i).1[k],
            ),
{
    let (c, r) = item_chunks(path, s, t, i);
    if is_large_impl(t, i) {
        lemma_item_chunks_lines(path, s, t, i);
        assert forall|k: int| #![trigger c[k]] 0 <= k < c.len() implies range_keeps_lines(s, c[k], r[k]) by {
            assert(1 <= c[k].start_line <= c[k].end_line);
            lemma_lines_keep_lines(s, c[k]);
        }
    } else {
        lemma_node_keeps_lines(path, s, t, i, item_name(s, t, i), text_or_empty(node_text(s, t[i])));
        assert forall|k: int| #![trigger c[k]] 0 <= k < c.len() implies range_keeps_lines(s, c[k], r[k]) by {
            assert(k == 0);
        }
    }
}

proof fn lemma_items_keep_lines(path: Seq<char>, s: Seq<char>, t: Seq<SyntaxNodeView>, items: Seq<int>)
    requires
        positions_agree(s, t),
        no_crlf(s),
        forall|k: int| 0 <= k < items.len() ==> 0 <= #[trigger] items[k] < t.len(),
    ensures
        items_chunks(path, s, t, items).0.len() == items_chunks(path, s, t, items).1.len(),
        forall|k: int|
            #![trigger items_chunks(path, s, t, items).0[k]]
            0 <= k < items_chunks(path, s, t, items).0.len() ==> range_keeps_lines(
                s,
                items_chunks(path, s, t, items).0[k],
                items_chunks(path, s, t, items).1[k],
            ),
    decreases items.len(),
{
    if items.len() > 0 {
        let pre = items.drop_last();
        let i = items.last();
        assert(items[items.len() - 1] == i);
        assert forall|k: int| 0 <= k < pre.len() implies 0 <= #[trigger] pre[k] < t.len() by {
            assert(pre[k] == items[k]);
        }
        lemma_items_keep_lines(path, s, t, pre);
        if is_top_level_kind(t[i].kind) {
            let (c0, r0) = items_chunks(path, s, t, pre);
            let (c1, r1) = item_chunks(path, s, t, i);
            lemma_item_keeps_lines(path, s, t, i);
            let c = c0 + c1;
            let r = r0 + r1;
            assert forall|k: int| #![trigger c[k]] 0 <= k < c.len() implies range_keeps_lines(s, c[k], r[k]) by {
                if k < c0.len() {
                    assert(c[k] == c0[k] && r[k] == r0[k]);
                } else {
                    assert(c[k] == c1[k - c0.len()] && r[k] == r1[k - c0.len()]);
                }
            }
        }
    }
}

/// No line of a Rust file is lost: when its lines end with a bare `'\n'`,
/// every non-blank line lies within the lines of a declaration's chunk, or
/// is one of the lines that the preamble chunk joins.
pub proof fn law_rust_no_line_lost(path: Seq<char>, s: Seq<char>, t: Seq<SyntaxNodeView>)
    requires
        positions_agree(s, t),
        no_crlf(s),
    ensures
        ({
            let (cs, cov) = items_chunks(path, s, t, children(t, 0));
            let lines = lines_of(s);
            forall|j: int|
                0 <= j < lines.len() && !is_blank(#[trigger] lines[j]) ==> (exists|k: int|
                    #![trigger cs[k]]
                    0 <= k < cs.len() && cs[k].start_line <= j + 1 <= cs[k].end_line) || (preamble(
                    path,
                    s,
                    cov,
                ) is Some && preamble_indices(s, cov, lines.len() as int).contains(j))
        }),
{
    let items = children(t, 0);
    lemma_children_in_range(t, 0);
    lemma_items_keep_lines(path, s, t, items);
    let (cs, cov) = items_chunks(path, s, t, items);
    let lines = lines_of(s);
    let n = lines.len() as int;
    law_preamble_lines(s, cov, n);
    assert forall|j: int| 0 <= j < lines.len() && !is_blank(#[trigger] lines[j]) implies (exists|k: int|
        #![trigger cs[k]]
        0 <= k < cs.len() && cs[k].start_line <= j + 1 <= cs[k].end_line) || (preamble(path, s, cov) is Some
        && preamble_indices(s, cov, n).contains(j)) by {
        let start = line_offset(s, j) as int;
        let end = start + utf8_len(lines[j]);
        if covers(cov, start, end) {
            let k = choose|k: int| 0 <= k < cov.len() && #[trigger] cov[k].0 <= start && end <= cov[k].1;
            assert(range_keeps_lines(s, cs[k], cov[k]));
            assert(cs[k].start_line <= j + 1 <= cs[k].end_line);
        } else {
            assert(preamble_line(s, cov, j));
            assert(preamble_indices(s, cov, n).contains(j));
        }
    }
}

proof fn lemma_items_chunks_lens(path: Seq<char>, s: Seq<char>, t: Seq<SyntaxNodeView>, items: Seq<int>)
    ensures
        items_chunks(path, s, t, items).0.len() == items_chunks(path, s, t, items).1.len(),
    decreases items.len(),
{
    if items.len() > 0 {
        lemma_items_chunks_lens(path, s, t, items.drop_last());
    }
}

/// A top-level declaration that is not a large impl has its own chunk among
/// the declarations' chunks, beside its own byte range.
proof fn lemma_items_contain(path: Seq<char>, s: Seq<char>, t: Seq<SyntaxNodeView>, items: Seq<int>, m: int)
    requires
        0 <= m < items.len(),
        is_top_level_kind(t[items[m]].kind),
        !is_large_impl(t, items[m]),
    ensures
        ({
            let (c, r) = items_chunks(path, s, t, items);
            let i = items[m];
            exists|k: int|
                0 <= k < c.len() && k < r.len() && #[trigger] c[k] == node_chunk(
                    path,
                    t[i],
                    item_name(s, t, i),
                    text_or_empty(node_text(s, t[i])),
                ) && r[k] == (t[i].start_byte, t[i].end_byte)
        }),
    decreases items.len(),
{
    let pre = items.drop_last();
    let (c0, r0) = items_chunks(path, s, t, pre);
    let (c, r) = items_chunks(path, s, t, items);
    let i = items[m];
    lemma_items_chunks_lens(path, s, t, pre);
    if m == items.len() - 1 {
        assert(items.last() == i);
        let (c1, r1) = item_chunks(path, s, t, i);
        assert(c == c0 + c1 && r == r0 + r1);
        let k = c0.len() as int;
        assert(c[k] == c1[0] && r[k] == r1[0]);
    } else {
        assert(pre[m] == i);
        lemma_items_contain(path, s, t, pre, m);
        let k = choose|k: int|
            0 <= k < c0.len() && k < r0.len() && #[trigger] c0[k] == node_chunk(
                path,
                t[i],
                item_name(s, t, i),
                text_or_empty(node_text(s, t[i])),
            ) && r0[k] == (t[i].start_byte, t[i].end_byte);
        if is_top_level_kind(t[items.last()].kind) {
            let (c1, r1) = item_chunks(path, s, t, items.last());
            assert(c == c0 + c1 && r == r0 + r1);
            assert(c[k] == c0[k] && r[k] == r0[k]);
        }
    }
}

/// Every top-level function, struct, enum, impl, trait, module, constant,
/// static, type alias and `macro_rules!` definition, but an impl of more than
/// 100 lines, becomes a chunk of its own: with its lines, its text and, when
/// it has a `name` field, that name; and no line within its bytes goes to the
/// preamble.
pub proof fn law_rust_declarations_kept(path: Seq<char>, s: Seq<char>, t: Seq<SyntaxNodeView>, m: int)
    requires
        0 <= m < children(t, 0).len(),
    ensures
        ({
            let i = children(t, 0)[m];
            let n = t[i];
            let cov = items_chunks(path, s, t, children(t, 0)).1;
            let r = rust_chunks(path, s, t);
            let lines = lines_of(s);
            (n.kind == "function_item"@ || n.kind == "struct_item"@ || n.kind == "enum_item"@ || n.kind
                == "impl_item"@ || n.kind == "trait_item"@ || n.kind == "mod_item"@ || n.kind
                == "const_item"@ || n.kind == "static_item"@ || n.kind == "type_item"@ || n.kind
                == "macro_definition"@) && !(n.kind == "impl_item"@ && n.end_row - n.start_row >= 100)
                ==> {
                &&& exists|k: int|
                    0 <= k < r.len() && (#[trigger] r[k]).start_line == n.start_row + 1 && r[k].end_line
                        == n.end_row + 1 && r[k].text == text_or_empty(node_text(s, n))
                        && r[k].file_path == path && r[k].language == "rust"@ && (child_by_field(
                        t,
                        i,
                        "name"@,
                    ) matches Some(f) ==> r[k].item_name == text_or_empty(node_text(s, t[f])))
                &&& forall|j: int|
                    0 <= j < lines.len() && n.start_byte <= #[trigger] line_offset(s, j) && line_offset(s, j)
                        + utf8_len(lines[j]) <= n.end_byte ==> !preamble_indices(
                        s,
                        cov,
                        lines.len() as int,
                    ).contains(j)
            }
        }),
{
    let items = children(t, 0);
    let i = items[m];
    let n = t[i];
    let (cs, cov) = items_chunks(path, s, t, items);
    let r = rust_chunks(path, s, t);
    let lines = lines_of(s);
    if is_top_level_kind(n.kind) && !is_large_impl(t, i) {
        lemma_items_contain(path, s, t, items, m);
        let k = choose|k: int|
            0 <= k < cs.len() && k < cov.len() && #[trigger] cs[k] == node_chunk(
                path,
                t[i],
                item_name(s, t, i),
                text_or_empty(node_text(s, t[i])),
            ) && cov[k] == (t[i].start_byte, t[i].end_byte);
        match preamble(path, s, cov) {
            Some(p) => {
                assert(r[k + 1] == cs[k]);
            },
            None => {
                assert(r[k] == cs[k]);
            },
        }
        law_preamble_lines(s, cov, lines.len() as int);
        assert forall|j: int|
            0 <= j < lines.len() && n.start_byte <= #[trigger] line_offset(s, j) && line_offset(s, j)
                + utf8_len(lines[j]) <= n.end_byte implies !preamble_indices(
            s,
            cov,
            lines.len() as int,
        ).contains(j) by {
            let st = line_offset(s, j) as int;
            assert(cov[k].0 <= st && st + utf8_len(lines[j]) <= cov[k].1);
            assert(covers(cov, st, st + utf8_len(lines[j])));
        }
    }
}

} // verus!
