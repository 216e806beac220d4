//! The preamble of a Rust file: the lines that no top-level declaration covers.

use vstd::prelude::*;
use crate::chunk::{Chunk, ChunkView, make_chunk};
use crate::text::{
    blank, is_blank, join_lines, line_offset, line_offsets, lines_of, lines_span,
    seqs_view, split_lines, str_chars, utf8_len, lemma_lines_span_concat, lemma_lines_span_bound,
};

verus! {

/// Whether one of the byte ranges `covered` holds all of `start..end`.
pub open spec fn covers(covered: Seq<(int, int)>, start: int, end: int) -> bool {
    exists|k: int| 0 <= k < covered.len() && #[trigger] covered[k].0 <= start && end <= covered[k].1
}

/// The byte ranges, as integers.
pub open spec fn ranges_view(v: Seq<(usize, usize)>) -> Seq<(int, int)> {
    v.map_values(|r: (usize, usize)| (r.0 as int, r.1 as int))
}

/// Line `j` of `source` belongs to the preamble: no range of `covered` holds
/// its bytes, and it is not blank.
pub open spec fn preamble_line(source: Seq<char>, covered: Seq<(int, int)>, j: int) -> bool {
    let line = lines_of(source)[j];
    let start = line_offset(source, j) as int;
    &&& !covers(covered, start, start + utf8_len(line))
    &&& !is_blank(line)
}

/// The indices, below `k`, of the preamble lines, in order.
pub open spec fn preamble_indices(source: Seq<char>, covered: Seq<(int, int)>, k: int) -> Seq<int>
    decreases k,
{
    if k <= 0 {
        seq![]
    } else {
        let prev = preamble_indices(source, covered, k - 1);
        if preamble_line(source, covered, k - 1) {
            prev.push(k - 1)
        } else {
            prev
        }
    }
}

/// The preamble chunk: the preamble lines joined, from the first to the last
/// of them; none when there are no such lines.
pub open spec fn preamble(path: Seq<char>, source: Seq<char>, covered: Seq<(int, int)>) -> Option<
    ChunkView,
> {
    let lines = lines_of(source);
    let idx = preamble_indices(source, covered, lines.len() as int);
    if idx.len() == 0 {
        None
    } else {
        Some(
            ChunkView {
                file_path: path,
                start_line: idx[0] + 1,
                end_line: idx.last() + 1,
                item_name: "preamble"@,
                text: join_lines(idx.map_values(|j: int| lines[j])),
                language: "rust"@,
            },
        )
    }
}

/// Whether one of `covered` holds all of `start..end`.
fn covered_by(covered: &Vec<(usize, usize)>, start: usize, end: usize) -> (res: bool)
    ensures
        res == covers(ranges_view(covered@), start as int, end as int),
{
    let n: usize = covered.len();
    let mut k: usize = 0;
    while k < n
        invariant
            k <= n == covered@.len(),
            forall|m: int|
                0 <= m < k ==> !(#[trigger] ranges_view(covered@)[m].0 <= start && end
                    <= ranges_view(covered@)[m].1),
        decreases n - k,
    {
        let s: usize = covered[k].0;
        let e: usize = covered[k].1;
        if start >= s && end <= e {
            assert(ranges_view(covered@)[k as int].0 <= start && end <= ranges_view(covered@)[k as int].1);
            return true;
        }
        k = k + 1;
    }
    false
}

/// The preamble of a source already split into lines with their offsets.
pub fn preamble_of(
    path: &Vec<char>,
    source: &Vec<char>,
    lines: &Vec<Vec<char>>,
    offs: &Vec<usize>,
    covered: &Vec<(usize, usize)>,
) -> (res: Option<Chunk>)
    requires
        seqs_view(lines@) == lines_of(source@),
        utf8_len(source@) < usize::MAX,
        offs@.len() == lines@.len() + 1,
        forall|k: int|
            0 <= k <= lines@.len() ==> offs@[k] == lines_span(#[trigger] seqs_view(lines@).take(k)),
    ensures
        match res {
            Some(c) => preamble(path@, source@, ranges_view(covered@)) == Some(c@),
            None => preamble(path@, source@, ranges_view(covered@)) is None,
        },
{
    let ghost ls = seqs_view(lines@);
    let ghost cov = ranges_view(covered@);
    let n: usize = lines.len();
    let mut kept: Vec<usize> = Vec::new();
    let mut kept_lines: Vec<Vec<char>> = Vec::new();
    let mut j: usize = 0;
    proof {
        lemma_lines_span_bound(source@);
    }
    while j < n
        invariant
            j <= n == lines@.len() == ls.len(),
            ls == seqs_view(lines@),
            ls == lines_of(source@),
            cov == ranges_view(covered@),
            utf8_len(source@) < usize::MAX,
            lines_span(ls) <= utf8_len(source@) + 1,
            offs@.len() == lines@.len() + 1,
            forall|k: int| 0 <= k <= lines@.len() ==> offs@[k] == lines_span(#[trigger] ls.take(k)),
            kept@.map_values(|k: usize| k as int) == preamble_indices(source@, cov, j as int),
            kept_lines@.len() == kept@.len(),
            forall|m: int| 0 <= m < kept@.len() ==> kept@[m] < j,
            seqs_view(kept_lines@) == preamble_indices(source@, cov, j as int).map_values(
                |k: int| ls[k],
            ),
        decreases n - j,
    {
        let ghost before_idx = kept@.map_values(|k: usize| k as int);
        let ghost before_lines = seqs_view(kept_lines@);
        let start: usize = offs[j];
        proof {
            assert(ls.take(j + 1).drop_last() == ls.take(j as int));
            assert(ls.take(j + 1).last() == ls[j as int]);
            lemma_lines_span_concat(ls.take(j + 1), ls.skip(j + 1));
            assert(ls.take(j + 1) + ls.skip(j + 1) == ls);
            assert(line_offset(source@, j as int) == start);
        }
        let end: usize = offs[j + 1] - 1;
        assert(end == start + utf8_len(ls[j as int]));
        if !covered_by(covered, start, end) && !blank(&lines[j]) {
            kept.push(j);
            let line: Vec<char> = crate::text::slice_chars(&lines[j], 0, lines[j].len());
            kept_lines.push(line);
            proof {
                assert(lines@[j as int]@.subrange(0, lines@[j as int]@.len() as int) == lines@[j as int]@);
                assert(kept@.map_values(|k: usize| k as int) =~= before_idx.push(j as int));
                assert(seqs_view(kept_lines@) =~= before_lines.push(ls[j as int]));
                assert(preamble_indices(source@, cov, j + 1) == before_idx.push(j as int));
                assert(preamble_indices(source@, cov, j + 1).map_values(|k: int| ls[k])
                    =~= before_lines.push(ls[j as int]));
            }
        }
        j = j + 1;
    }
    if kept.len() == 0 {
        return None;
    }
    let text: Vec<char> = crate::text::join_all(&kept_lines);
    let name: Vec<char> = str_chars("preamble");
    let language: Vec<char> = str_chars("rust");
    let first: usize = kept[0];
    let last: usize = kept[kept.len() - 1];
    proof {
        let idx = preamble_indices(source@, cov, n as int);
        assert(idx[0] == first as int);
        assert(idx.last() == last as int);
    }
    Some(make_chunk(path, first + 1, last + 1, &name, &text, &language))
}

/// Collects the lines of `source` that no range of `covered` holds and that
/// are not blank, as the chunk `"preamble"`; none when there are no such lines.
pub fn collect_preamble(file_path: &str, source: &str, covered: &Vec<(usize, usize)>) -> (res: Option<
    Chunk,
>)
    requires
        utf8_len(source@) < usize::MAX,
    ensures
        match res {
            Some(c) => preamble(file_path@, source@, ranges_view(covered@)) == Some(c@),
            None => preamble(file_path@, source@, ranges_view(covered@)) is None,
        },
{
    let path: Vec<char> = str_chars(file_path);
    let src: Vec<char> = str_chars(source);
    let lines: Vec<Vec<char>> = split_lines(&src);
    let offs: Vec<usize> = line_offsets(&src, &lines);
    preamble_of(&path, &src, &lines, &offs, covered)
}

} // verus!

verus! {

/// The preamble holds exactly the lines that no range covers and that are
/// not blank, each once, in the order of the file.
pub proof fn law_preamble_lines(source: Seq<char>, covered: Seq<(int, int)>, k: int)
    requires
        0 <= k <= lines_of(source).len(),
    ensures
        forall|j: int|
            #![trigger preamble_indices(source, covered, k).contains(j)]
            #![trigger preamble_line(source, covered, j)]
            preamble_indices(source, covered, k).contains(j) <==> (0 <= j < k && preamble_line(
                source,
                covered,
                j,
            )),
        forall|a: int, b: int|
            #![trigger preamble_indices(source, covered, k)[a], preamble_indices(source, covered, k)[b]]
            0 <= a < b < preamble_indices(source, covered, k).len() ==> preamble_indices(
                source,
                covered,
                k,
            )[a] < preamble_indices(source, covered, k)[b],
    decreases k,
{
    if k > 0 {
        law_preamble_lines(source, covered, k - 1);
        let prev = preamble_indices(source, covered, k - 1);
        let cur = preamble_indices(source, covered, k);
        if preamble_line(source, covered, k - 1) {
            assert(cur == prev.push(k - 1));
            assert forall|j: int| cur.contains(j) implies (0 <= j < k && preamble_line(source, covered, j)) by {
                let m = choose|m: int| 0 <= m < cur.len() && cur[m] == j;
                if m == prev.len() {
                    assert(j == k - 1);
                } else {
                    assert(prev[m] == j);
                    assert(prev.contains(j));
                }
            }
            assert forall|j: int| (0 <= j < k && preamble_line(source, covered, j)) implies cur.contains(j) by {
                if j == k - 1 {
                    assert(cur[cur.len() - 1] == j);
                } else {
                    assert(prev.contains(j));
                    let m = choose|m: int| 0 <= m < prev.len() && prev[m] == j;
                    assert(cur[m] == j);
                }
            }
            assert forall|a: int, b: int| 0 <= a < b < cur.len() implies cur[a] < cur[b] by {
                if b == cur.len() - 1 {
                    assert(cur[a] == prev[a]);
                    assert(prev.contains(prev[a]));
                } else {
                    assert(cur[a] == prev[a] && cur[b] == prev[b]);
                }
            }
        }
    }
}

} // verus!
