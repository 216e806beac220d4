//! Character-level text utilities: line splitting as `str::lines` does it,
//! whitespace trimming, joining, and UTF-8 byte lengths.

use vstd::prelude::*;

verus! {

/// Index of the first `'\n'` in `s`, or `s.len()` when there is none.
pub open spec fn first_newline(s: Seq<char>) -> int
    decreases s.len(),
{
    if s.len() == 0 {
        0
    } else if s[0] == '\n' {
        0
    } else {
        1 + first_newline(s.drop_first())
    }
}

pub proof fn lemma_first_newline_bounds(s: Seq<char>)
    ensures
        0 <= first_newline(s) <= s.len(),
        first_newline(s) < s.len() ==> s[first_newline(s)] == '\n',
        forall|k: int| 0 <= k < first_newline(s) ==> s[k] != '\n',
    decreases s.len(),
{
    if s.len() > 0 && s[0] != '\n' {
        lemma_first_newline_bounds(s.drop_first());
        assert forall|k: int| 0 <= k < first_newline(s) implies s[k] != '\n' by {
            if k > 0 {
                assert(s[k] == s.drop_first()[k - 1]);
            }
        }
    }
}

/// A line ending with `"\r"` loses it, as `str::lines` strips a `"\r\n"` terminator.
pub open spec fn strip_cr(line: Seq<char>) -> Seq<char> {
    if line.len() > 0 && line.last() == '\r' {
        line.drop_last()
    } else {
        line
    }
}

/// The lines of `s` as `str::lines` yields them: split at `'\n'`, a `'\r'`
/// before the `'\n'` dropped, and no empty line after a final terminator.
pub open spec fn lines_of(s: Seq<char>) -> Seq<Seq<char>>
    decreases s.len(),
{
    if s.len() == 0 {
        seq![]
    } else {
        let nl = first_newline(s);
        if nl >= s.len() {
            seq![s]
        } else {
            proof {
                lemma_first_newline_bounds(s);
            }
            seq![strip_cr(s.take(nl))] + lines_of(s.skip(nl + 1))
        }
    }
}

/// The character sequences held by a vector of character vectors.
pub open spec fn seqs_view(v: Seq<Vec<char>>) -> Seq<Seq<char>> {
    v.map_values(|l: Vec<char>| l@)
}

/// Splits `s` into its lines, as `str::lines` does.
pub fn split_lines(s: &Vec<char>) -> (lines: Vec<Vec<char>>)
    ensures
        seqs_view(lines@) == lines_of(s@),
{
    let mut lines: Vec<Vec<char>> = Vec::new();
    let n: usize = s.len();
    let mut start: usize = 0;
    let mut cur: Vec<char> = Vec::new();
    let mut i: usize = 0;
    assert(s@.skip(0) == s@);
    while i < n
        invariant
            n == s@.len(),
            start <= i <= n,
            cur@ == s@.subrange(start as int, i as int),
            forall|k: int| start <= k < i ==> s@[k] != '\n',
            seqs_view(lines@) + lines_of(s@.skip(start as int)) == lines_of(s@),
        decreases n - i,
    {
        let c: char = s[i];
        if c == '\n' {
            let ghost rest = s@.skip(start as int);
            proof {
                lemma_first_newline_at(rest, (i - start) as int);
                assert(rest.take((i - start) as int) == cur@);
                assert(rest.skip((i - start) as int + 1) == s@.skip(i + 1));
            }
            let line: Vec<char> = drop_trailing_cr(cur);
            let ghost before = seqs_view(lines@);
            lines.push(line);
            assert(seqs_view(lines@) =~= before.push(strip_cr(cur@)));
            cur = Vec::new();
            start = i + 1;
        } else {
            cur.push(c);
        }
        i = i + 1;
    }
    let ghost rest = s@.skip(start as int);
    if start < n {
        proof {
            lemma_first_newline_at(rest, rest.len() as int);
            assert(rest == cur@);
        }
        let ghost before = seqs_view(lines@);
        lines.push(cur);
        assert(seqs_view(lines@) =~= before.push(rest));
    } else {
        assert(rest.len() == 0);
    }
    lines
}

proof fn lemma_first_newline_at(s: Seq<char>, k: int)
    requires
        0 <= k <= s.len(),
        forall|j: int| 0 <= j < k ==> s[j] != '\n',
        k < s.len() ==> s[k] == '\n',
    ensures
        first_newline(s) == k,
    decreases s.len(),
{
    if s.len() > 0 && k > 0 {
        assert forall|j: int| 0 <= j < k - 1 implies s.drop_first()[j] != '\n' by {
            assert(s[j + 1] != '\n');
        }
        lemma_first_newline_at(s.drop_first(), k - 1);
    }
}

fn drop_trailing_cr(line: Vec<char>) -> (res: Vec<char>)
    ensures
        res@ == strip_cr(line@),
{
    let mut line = line;
    let len: usize = line.len();
    if len > 0 && line[len - 1] == '\r' {
        line.pop();
    }
    line
}

} // verus!

verus! {

/// Whether `c` has the Unicode `White_Space` property (`PropList.txt`): the
/// controls U+0009 to U+000D, the space, U+0085, U+00A0, U+1680, U+2000 to
/// U+200A, U+2028, U+2029, U+202F, U+205F and U+3000.
pub open spec fn is_white_space(c: char) -> bool {
    let v = c as u32;
    ||| 0x09 <= v <= 0x0D
    ||| v == 0x20
    ||| v == 0x85
    ||| v == 0xA0
    ||| v == 0x1680
    ||| 0x2000 <= v <= 0x200A
    ||| v == 0x2028
    ||| v == 0x2029
    ||| v == 0x202F
    ||| v == 0x205F
    ||| v == 0x3000
}

/// Whether `c` is whitespace, as `char::is_whitespace` decides it: by the
/// Unicode `White_Space` property.
pub(crate) fn char_is_whitespace(c: char) -> (res: bool)
    ensures
        res == is_white_space(c),
{
    let v = c as u32;
    (0x09 <= v && v <= 0x0D) || v == 0x20 || v == 0x85 || v == 0xA0 || v == 0x1680 || (0x2000
        <= v && v <= 0x200A) || v == 0x2028 || v == 0x2029 || v == 0x202F || v == 0x205F || v
        == 0x3000
}

/// `s` without its leading whitespace (`str::trim_start`).
pub open spec fn trim_start_ws(s: Seq<char>) -> Seq<char>
    decreases s.len(),
{
    if s.len() > 0 && is_white_space(s[0]) {
        trim_start_ws(s.drop_first())
    } else {
        s
    }
}

/// `s` without its trailing whitespace (`str::trim_end`).
pub open spec fn trim_end_ws(s: Seq<char>) -> Seq<char>
    decreases s.len(),
{
    if s.len() > 0 && is_white_space(s.last()) {
        trim_end_ws(s.drop_last())
    } else {
        s
    }
}

/// `s` without leading and trailing whitespace (`str::trim`).
pub open spec fn trim_ws(s: Seq<char>) -> Seq<char> {
    trim_end_ws(trim_start_ws(s))
}

/// Every character of `s` is whitespace (so `s.trim()` is empty).
pub open spec fn is_blank(s: Seq<char>) -> bool {
    forall|k: int| 0 <= k < s.len() ==> is_white_space(s[k])
}

pub proof fn lemma_trim_start_at(s: Seq<char>, j: int)
    requires
        0 <= j <= s.len(),
        forall|k: int| 0 <= k < j ==> is_white_space(s[k]),
        j < s.len() ==> !is_white_space(s[j]),
    ensures
        trim_start_ws(s) == s.skip(j),
    decreases s.len(),
{
    if j == 0 {
        assert(s.skip(0) == s);
    } else {
        assert forall|k: int| 0 <= k < j - 1 implies is_white_space(s.drop_first()[k]) by {
            assert(is_white_space(s[k + 1]));
        }
        lemma_trim_start_at(s.drop_first(), j - 1);
        assert(s.drop_first().skip(j - 1) == s.skip(j));
    }
}

pub proof fn lemma_trim_end_at(s: Seq<char>, j: int)
    requires
        0 <= j <= s.len(),
        forall|k: int| j <= k < s.len() ==> is_white_space(s[k]),
        j > 0 ==> !is_white_space(s[j - 1]),
    ensures
        trim_end_ws(s) == s.take(j),
    decreases s.len(),
{
    if j == s.len() {
        assert(s.take(j) == s);
    } else {
        lemma_trim_end_at(s.drop_last(), j);
        assert(s.drop_last().take(j) == s.take(j));
    }
}

/// `trim_ws(s)` is empty exactly when every character of `s` is whitespace.
pub proof fn lemma_trim_empty_iff_blank(s: Seq<char>)
    ensures
        (trim_ws(s).len() == 0) == is_blank(s),
    decreases s.len(),
{
    if s.len() > 0 && is_white_space(s[0]) {
        lemma_trim_empty_iff_blank(s.drop_first());
        if is_blank(s.drop_first()) {
            assert forall|k: int| 0 <= k < s.len() implies is_white_space(s[k]) by {
                if k > 0 {
                    assert(s[k] == s.drop_first()[k - 1]);
                }
            }
        } else {
            let k = choose|k: int| 0 <= k < s.drop_first().len() && !is_white_space(s.drop_first()[k]);
            assert(s[k + 1] == s.drop_first()[k]);
        }
    } else if s.len() > 0 {
        lemma_trim_end_nonempty(s);
    }
}

proof fn lemma_trim_end_nonempty(s: Seq<char>)
    requires
        s.len() > 0,
        !is_white_space(s[0]),
    ensures
        trim_end_ws(s).len() > 0,
    decreases s.len(),
{
    if is_white_space(s.last()) {
        lemma_trim_end_nonempty(s.drop_last());
    }
}

/// `s` without its leading whitespace.
pub fn trim_start(s: &Vec<char>) -> (res: Vec<char>)
    ensures
        res@ == trim_start_ws(s@),
{
    let n: usize = s.len();
    let mut j: usize = 0;
    while j < n && char_is_whitespace(s[j])
        invariant
            j <= n == s@.len(),
            forall|k: int| 0 <= k < j ==> is_white_space(s@[k]),
        decreases n - j,
    {
        j = j + 1;
    }
    proof {
        lemma_trim_start_at(s@, j as int);
    }
    slice_chars(s, j, n)
}

/// `s` without leading and trailing whitespace.
pub fn trim(s: &Vec<char>) -> (res: Vec<char>)
    ensures
        res@ == trim_ws(s@),
{
    let t: Vec<char> = trim_start(s);
    let mut j: usize = t.len();
    while j > 0 && char_is_whitespace(t[j - 1])
        invariant
            j <= t@.len(),
            forall|k: int| j <= k < t@.len() ==> is_white_space(t@[k]),
        decreases j,
    {
        j = j - 1;
    }
    proof {
        lemma_trim_end_at(t@, j as int);
    }
    slice_chars(&t, 0, j)
}

/// Whether every character of `s` is whitespace.
pub fn blank(s: &Vec<char>) -> (res: bool)
    ensures
        res == is_blank(s@),
{
    let n: usize = s.len();
    let mut j: usize = 0;
    while j < n
        invariant
            j <= n == s@.len(),
            forall|k: int| 0 <= k < j ==> is_white_space(s@[k]),
        decreases n - j,
    {
        if !char_is_whitespace(s[j]) {
            return false;
        }
        j = j + 1;
    }
    true
}

/// The characters `s[from..to]`.
pub fn slice_chars(s: &Vec<char>, from: usize, to: usize) -> (res: Vec<char>)
    requires
        from <= to <= s@.len(),
    ensures
        res@ == s@.subrange(from as int, to as int),
{
    let mut res: Vec<char> = Vec::new();
    let mut k: usize = from;
    while k < to
        invariant
            from <= k <= to <= s@.len(),
            res@ == s@.subrange(from as int, k as int),
        decreases to - k,
    {
        res.push(s[k]);
        k = k + 1;
    }
    res
}

/// Appends `b` to `a`.
pub fn append_chars(a: &mut Vec<char>, b: &Vec<char>)
    ensures
        final(a)@ == old(a)@ + b@,
{
    let n: usize = b.len();
    let mut k: usize = 0;
    while k < n
        invariant
            k <= n == b@.len(),
            a@ == old(a)@ + b@.take(k as int),
        decreases n - k,
    {
        a.push(b[k]);
        k = k + 1;
        assert(b@.take(k as int) == b@.take(k - 1).push(b@[k - 1]));
    }
    assert(b@.take(n as int) == b@);
}

/// The lines joined with `'\n'` between consecutive ones (`[&str]::join("\n")`).
pub open spec fn join_lines(lines: Seq<Seq<char>>) -> Seq<char>
    decreases lines.len(),
{
    if lines.len() == 0 {
        seq![]
    } else if lines.len() == 1 {
        lines[0]
    } else {
        join_lines(lines.drop_last()) + seq!['\n'] + lines.last()
    }
}

/// Joins `lines[from..to]` with `'\n'`.
pub fn join_range(lines: &Vec<Vec<char>>, from: usize, to: usize) -> (res: Vec<char>)
    requires
        from <= to <= lines@.len(),
    ensures
        res@ == join_lines(seqs_view(lines@).subrange(from as int, to as int)),
{
    let mut res: Vec<char> = Vec::new();
    let mut k: usize = from;
    while k < to
        invariant
            from <= k <= to <= lines@.len(),
            res@ == join_lines(seqs_view(lines@).subrange(from as int, k as int)),
        decreases to - k,
    {
        let ghost prev = seqs_view(lines@).subrange(from as int, k as int);
        if k > from {
            res.push('\n');
        }
        append_chars(&mut res, &lines[k]);
        k = k + 1;
        proof {
            let cur = seqs_view(lines@).subrange(from as int, k as int);
            assert(cur.drop_last() == prev);
            assert(cur.last() == lines@[k - 1]@);
            if k - 1 == from {
                assert(prev.len() == 0);
                assert(res@ == seq![] + lines@[k - 1]@);
            }
        }
    }
    res
}

/// Joins the character vectors of `items` with `'\n'`.
pub fn join_all(items: &Vec<Vec<char>>) -> (res: Vec<char>)
    ensures
        res@ == join_lines(seqs_view(items@)),
{
    let r: Vec<char> = join_range(items, 0, items.len());
    assert(seqs_view(items@).subrange(0, items@.len() as int) == seqs_view(items@));
    r
}

/// The characters of `s` (`str::chars`).
#[verifier::external_body]
pub(crate) fn str_chars(s: &str) -> (res: Vec<char>)
    ensures
        res@ == s@,
{
    s.chars().collect()
}

/// The string made of the characters of `v` (`String::from_iter`).
#[verifier::external_body]
pub(crate) fn chars_to_string(v: &Vec<char>) -> (res: String)
    ensures
        res@ == v@,
{
    String::from_iter(v.iter())
}

/// Whether two strings hold the same characters (`str::eq`).
#[verifier::external_body]
pub(crate) fn str_eq(a: &str, b: &str) -> (res: bool)
    ensures
        res == (a@ == b@),
{
    a == b
}

} // verus!

verus! {

/// The number of bytes of the UTF-8 encoding of `c` (`char::len_utf8`).
pub open spec fn utf8_width(c: char) -> nat {
    if (c as u32) < 0x80 {
        1
    } else if (c as u32) < 0x800 {
        2
    } else if (c as u32) < 0x10000 {
        3
    } else {
        4
    }
}

/// The number of bytes of the UTF-8 encoding of `s` (`str::len`).
pub open spec fn utf8_len(s: Seq<char>) -> nat
    decreases s.len(),
{
    if s.len() == 0 {
        0
    } else {
        utf8_len(s.drop_last()) + utf8_width(s.last())
    }
}

pub proof fn lemma_utf8_len_concat(a: Seq<char>, b: Seq<char>)
    ensures
        utf8_len(a + b) == utf8_len(a) + utf8_len(b),
    decreases b.len(),
{
    if b.len() == 0 {
        assert(a + b == a);
    } else {
        lemma_utf8_len_concat(a, b.drop_last());
        assert((a + b).drop_last() == a + b.drop_last());
        assert((a + b).last() == b.last());
    }
}

/// `utf8_len` counts exactly the bytes of vstd's UTF-8 encoding.
pub proof fn lemma_utf8_len_is_encoding_len(s: Seq<char>)
    ensures
        utf8_len(s) == vstd::utf8::encode_utf8(s).len(),
    decreases s.len(),
{
    if s.len() > 0 {
        lemma_utf8_len_is_encoding_len(s.drop_first());
        lemma_utf8_len_concat(seq![s[0]], s.drop_first());
        assert(seq![s[0]] + s.drop_first() == s);
        assert(seq![s[0]].drop_last().len() == 0);
        let v: u32 = s[0] as u32;
        assert(vstd::utf8::is_scalar(v)) by {
            vstd::utf8::char_is_scalar(s[0]);
        }
        assert(vstd::utf8::encode_scalar(v).len() == utf8_width(s[0]));
        assert(seq![s[0]].drop_last() =~= Seq::<char>::empty());
        assert(utf8_len(Seq::<char>::empty()) == 0);
        assert(seq![s[0]].last() == s[0]);
        assert(utf8_len(seq![s[0]]) == utf8_width(s[0]));
        assert(vstd::utf8::encode_utf8(s) == vstd::utf8::encode_scalar(v) + vstd::utf8::encode_utf8(
            s.drop_first(),
        ));
    }
}

/// Prefixes of `s` grow strictly in their byte length.
pub proof fn lemma_utf8_prefix_strict(s: Seq<char>, i: int, j: int)
    requires
        0 <= i < j <= s.len(),
    ensures
        utf8_len(s.take(i)) < utf8_len(s.take(j)),
    decreases j - i,
{
    assert(s.take(j).drop_last() == s.take(j - 1));
    if i < j - 1 {
        lemma_utf8_prefix_strict(s, i, j - 1);
    }
}

/// The byte length of the UTF-8 encoding of `c`.
pub fn char_utf8_width(c: char) -> (w: usize)
    ensures
        w == utf8_width(c),
{
    let v: u32 = c as u32;
    if v < 0x80 {
        1
    } else if v < 0x800 {
        2
    } else if v < 0x10000 {
        3
    } else {
        4
    }
}

/// The byte length of the UTF-8 encoding of `s`.
pub fn chars_utf8_len(s: &Vec<char>) -> (n: usize)
    requires
        utf8_len(s@) <= usize::MAX,
    ensures
        n == utf8_len(s@),
{
    let len: usize = s.len();
    let mut k: usize = 0;
    let mut n: usize = 0;
    while k < len
        invariant
            k <= len == s@.len(),
            n == utf8_len(s@.take(k as int)),
            utf8_len(s@) <= usize::MAX,
        decreases len - k,
    {
        proof {
            assert(s@.take(k + 1).drop_last() == s@.take(k as int));
            lemma_utf8_len_concat(s@.take(k + 1), s@.skip(k + 1));
            assert(s@.take(k + 1) + s@.skip(k + 1) == s@);
        }
        n = n + char_utf8_width(s[k]);
        k = k + 1;
    }
    assert(s@.take(len as int) == s@);
    n
}

/// The byte offset of each character boundary of `s`: entry `k` is the byte
/// length of the first `k` characters, for `k` from 0 to `s.len()`.
pub fn char_byte_offsets(s: &Vec<char>) -> (offs: Vec<usize>)
    requires
        utf8_len(s@) <= usize::MAX,
    ensures
        offs@.len() == s@.len() + 1,
        forall|k: int| 0 <= k <= s@.len() ==> offs@[k] == utf8_len(#[trigger] s@.take(k)),
{
    let len: usize = s.len();
    let mut offs: Vec<usize> = Vec::new();
    offs.push(0);
    assert(s@.take(0).len() == 0);
    let mut k: usize = 0;
    let mut n: usize = 0;
    while k < len
        invariant
            k <= len == s@.len(),
            n == utf8_len(s@.take(k as int)),
            offs@.len() == k + 1,
            forall|j: int| 0 <= j <= k ==> offs@[j] == utf8_len(#[trigger] s@.take(j)),
            utf8_len(s@) <= usize::MAX,
        decreases len - k,
    {
        proof {
            assert(s@.take(k + 1).drop_last() == s@.take(k as int));
            lemma_utf8_len_concat(s@.take(k + 1), s@.skip(k + 1));
            assert(s@.take(k + 1) + s@.skip(k + 1) == s@);
        }
        n = n + char_utf8_width(s[k]);
        k = k + 1;
        offs.push(n);
    }
    offs
}

/// The character index at which the UTF-8 encoding of `s` reaches byte `b`,
/// when `b` falls on a character boundary.
pub open spec fn char_index_at_byte(s: Seq<char>, b: int) -> Option<int> {
    if exists|k: int| 0 <= k <= s.len() && utf8_len(#[trigger] s.take(k)) == b {
        Some(choose|k: int| 0 <= k <= s.len() && utf8_len(#[trigger] s.take(k)) == b)
    } else {
        None
    }
}

/// The text of `s` between the byte offsets `b0` and `b1` of its UTF-8
/// encoding (`str::from_utf8` of that byte range): `None` when the range does
/// not fall on character boundaries in order.
pub open spec fn text_between(s: Seq<char>, b0: int, b1: int) -> Option<Seq<char>> {
    match (char_index_at_byte(s, b0), char_index_at_byte(s, b1)) {
        (Some(i), Some(j)) => if i <= j {
            Some(s.subrange(i, j))
        } else {
            None
        },
        _ => None,
    }
}

proof fn lemma_char_index_unique(s: Seq<char>, b: int, k: int)
    requires
        0 <= k <= s.len(),
        utf8_len(s.take(k)) == b,
    ensures
        char_index_at_byte(s, b) == Some(k),
{
    let c = choose|c: int| 0 <= c <= s.len() && utf8_len(#[trigger] s.take(c)) == b;
    if c < k {
        lemma_utf8_prefix_strict(s, c, k);
    } else if k < c {
        lemma_utf8_prefix_strict(s, k, c);
    }
}

/// Looks up the character index whose byte offset is `b` in a table made by
/// `char_byte_offsets`.
fn find_char_index(s: &Vec<char>, offs: &Vec<usize>, b: usize) -> (res: Option<usize>)
    requires
        offs@.len() == s@.len() + 1,
        forall|k: int| 0 <= k <= s@.len() ==> offs@[k] == utf8_len(#[trigger] s@.take(k)),
    ensures
        res matches Some(k) ==> char_index_at_byte(s@, b as int) == Some(k as int),
        res is None ==> char_index_at_byte(s@, b as int) is None,
{
    let mut lo: usize = 0;
    let mut hi: usize = offs.len();
    while lo < hi
        invariant
            lo <= hi <= offs@.len() == s@.len() + 1,
            forall|k: int| 0 <= k <= s@.len() ==> offs@[k] == utf8_len(#[trigger] s@.take(k)),
            forall|k: int| 0 <= k < lo ==> offs@[k] < b,
            forall|k: int| hi <= k < offs@.len() ==> offs@[k] > b,
        decreases hi - lo,
    {
        let mid: usize = lo + (hi - lo) / 2;
        if offs[mid] == b {
            proof {
                lemma_char_index_unique(s@, b as int, mid as int);
            }
            return Some(mid);
        } else if offs[mid] < b {
            proof {
                assert forall|k: int| 0 <= k <= mid implies offs@[k] < b by {
                    if k < mid {
                        lemma_utf8_prefix_strict(s@, k, mid as int);
                    }
                }
            }
            lo = mid + 1;
        } else {
            proof {
                assert forall|k: int| mid <= k < offs@.len() implies offs@[k] > b by {
                    if k > mid {
                        lemma_utf8_prefix_strict(s@, mid as int, k);
                    }
                }
            }
            hi = mid;
        }
    }
    proof {
        if char_index_at_byte(s@, b as int) is Some {
            let c = choose|c: int| 0 <= c <= s@.len() && utf8_len(#[trigger] s@.take(c)) == b;
            assert(offs@[c] == b);
        }
    }
    None
}

/// The characters of `s` between byte offsets `b0` and `b1`, or `None` when
/// they do not fall on character boundaries in order.
pub fn text_between_bytes(s: &Vec<char>, offs: &Vec<usize>, b0: usize, b1: usize) -> (res: Option<
    Vec<char>,
>)
    requires
        offs@.len() == s@.len() + 1,
        forall|k: int| 0 <= k <= s@.len() ==> offs@[k] == utf8_len(#[trigger] s@.take(k)),
    ensures
        match res {
            Some(t) => text_between(s@, b0 as int, b1 as int) == Some(t@),
            None => text_between(s@, b0 as int, b1 as int) is None,
        },
{
    match (find_char_index(s, offs, b0), find_char_index(s, offs, b1)) {
        (Some(i), Some(j)) => if i <= j {
            Some(slice_chars(s, i, j))
        } else {
            None
        },
        _ => None,
    }
}

} // verus!

verus! {

/// The bytes that `lines` span in their source when each is followed by a
/// one-byte terminator.
pub open spec fn lines_span(lines: Seq<Seq<char>>) -> nat
    decreases lines.len(),
{
    if lines.len() == 0 {
        0
    } else {
        lines_span(lines.drop_last()) + utf8_len(lines.last()) + 1
    }
}

pub proof fn lemma_lines_span_concat(a: Seq<Seq<char>>, b: Seq<Seq<char>>)
    ensures
        lines_span(a + b) == lines_span(a) + lines_span(b),
    decreases b.len(),
{
    if b.len() == 0 {
        assert(a + b == a);
    } else {
        lemma_lines_span_concat(a, b.drop_last());
        assert((a + b).drop_last() == a + b.drop_last());
        assert((a + b).last() == b.last());
    }
}

/// The lines of `s` span at most one byte more than `s` itself.
pub proof fn lemma_lines_span_bound(s: Seq<char>)
    ensures
        lines_span(lines_of(s)) <= utf8_len(s) + 1,
    decreases s.len(),
{
    if s.len() > 0 {
        let nl = first_newline(s);
        lemma_first_newline_bounds(s);
        if nl >= s.len() {
            assert(seq![s].drop_last() =~= Seq::<Seq<char>>::empty());
            assert(lines_of(s) == seq![s]);
            assert(lines_span(Seq::<Seq<char>>::empty()) == 0);
            assert(lines_span(seq![s]) == utf8_len(s) + 1);
        } else {
            let head = s.take(nl);
            let rest = s.skip(nl + 1);
            lemma_lines_span_bound(rest);
            lemma_lines_span_concat(seq![strip_cr(head)], lines_of(rest));
            assert(seq![strip_cr(head)].drop_last() =~= Seq::<Seq<char>>::empty());
            assert(lines_of(s) == seq![strip_cr(head)] + lines_of(rest));
            assert(lines_span(Seq::<Seq<char>>::empty()) == 0);
            assert(lines_span(seq![strip_cr(head)]) == utf8_len(strip_cr(head)) + 1);
            assert(utf8_len(strip_cr(head)) <= utf8_len(head));
            assert(s == head + seq!['\n'] + rest);
            lemma_utf8_len_concat(head + seq!['\n'], rest);
            lemma_utf8_len_concat(head, seq!['\n']);
            assert(seq!['\n'].drop_last() =~= Seq::<char>::empty());
            assert(utf8_len(Seq::<char>::empty()) == 0);
            assert(('\n' as u32) == 10u32);
            assert(utf8_len(seq!['\n']) == 1);
        }
    }
}

proof fn lemma_lines_span_prefix(lines: Seq<Seq<char>>, k: int)
    requires
        0 <= k <= lines.len(),
    ensures
        lines_span(lines.take(k)) <= lines_span(lines),
{
    lemma_lines_span_concat(lines.take(k), lines.skip(k));
    assert(lines.take(k) + lines.skip(k) == lines);
}

/// The byte offset at which line `k` of `source` starts, counting each line's
/// bytes plus one for its terminator; past the last line it stays at the end.
pub open spec fn line_offset(source: Seq<char>, k: int) -> nat {
    let lines = lines_of(source);
    lines_span(lines.take(if k < lines.len() { k } else { lines.len() as int }))
}

/// The offset of every line start in `lines`: entry `k` spans the first `k`
/// lines, for `k` from 0 to `lines.len()`.
pub fn line_offsets(source: &Vec<char>, lines: &Vec<Vec<char>>) -> (offs: Vec<usize>)
    requires
        seqs_view(lines@) == lines_of(source@),
        utf8_len(source@) < usize::MAX,
    ensures
        offs@.len() == lines@.len() + 1,
        forall|k: int|
            0 <= k <= lines@.len() ==> offs@[k] == lines_span(
                #[trigger] seqs_view(lines@).take(k),
            ),
{
    let n: usize = lines.len();
    let mut offs: Vec<usize> = Vec::new();
    offs.push(0);
    assert(seqs_view(lines@).take(0).len() == 0);
    let mut k: usize = 0;
    let mut acc: usize = 0;
    proof {
        lemma_lines_span_bound(source@);
    }
    while k < n
        invariant
            k <= n == lines@.len(),
            seqs_view(lines@) == lines_of(source@),
            lines_span(lines_of(source@)) <= utf8_len(source@) + 1,
            utf8_len(source@) < usize::MAX,
            acc == lines_span(seqs_view(lines@).take(k as int)),
            offs@.len() == k + 1,
            forall|j: int|
                0 <= j <= k ==> offs@[j] == lines_span(#[trigger] seqs_view(lines@).take(j)),
        decreases n - k,
    {
        let ghost v = seqs_view(lines@);
        proof {
            assert(v.take(k + 1).drop_last() == v.take(k as int));
            assert(v.take(k + 1).last() == lines@[k as int]@);
            lemma_lines_span_prefix(v, k + 1);
        }
        let w: usize = chars_utf8_len(&lines[k]);
        acc = acc + w + 1;
        k = k + 1;
        offs.push(acc);
    }
    offs
}

/// The byte offset of line `line_idx` of `source`: the sum, over the lines
/// before it, of each line's byte length plus one.
pub fn byte_offset_for_line(source: &str, line_idx: usize) -> (offset: usize)
    requires
        utf8_len(source@) < usize::MAX,
    ensures
        offset == line_offset(source@, line_idx as int),
        offset <= vstd::utf8::encode_utf8(source@).len() + 1,
{
    proof {
        law_line_offset_monotone(source@, line_idx as int, line_idx as int);
    }
    let chars: Vec<char> = str_chars(source);
    let lines: Vec<Vec<char>> = split_lines(&chars);
    let offs: Vec<usize> = line_offsets(&chars, &lines);
    if line_idx < lines.len() {
        offs[line_idx]
    } else {
        offs[lines.len()]
    }
}

} // verus!

verus! {

proof fn lemma_encode_concat(a: Seq<char>, b: Seq<char>)
    ensures
        vstd::utf8::encode_utf8(a + b) == vstd::utf8::encode_utf8(a) + vstd::utf8::encode_utf8(b),
    decreases a.len(),
{
    if a.len() == 0 {
        assert(a + b == b);
        assert(vstd::utf8::encode_utf8(a) =~= Seq::<u8>::empty());
        assert(Seq::<u8>::empty() + vstd::utf8::encode_utf8(b) =~= vstd::utf8::encode_utf8(b));
    } else {
        lemma_encode_concat(a.drop_first(), b);
        assert((a + b).drop_first() == a.drop_first() + b);
        assert((a + b)[0] == a[0]);
        let e0 = vstd::utf8::encode_scalar(a[0] as u32);
        assert(vstd::utf8::encode_utf8(a + b) == e0 + vstd::utf8::encode_utf8(a.drop_first() + b));
        assert(vstd::utf8::encode_utf8(a) == e0 + vstd::utf8::encode_utf8(a.drop_first()));
        assert(e0 + (vstd::utf8::encode_utf8(a.drop_first()) + vstd::utf8::encode_utf8(b)) =~= (e0
            + vstd::utf8::encode_utf8(a.drop_first())) + vstd::utf8::encode_utf8(b));
    }
}

/// The text between two byte offsets is the UTF-8 slice between them: its
/// encoding is exactly the bytes `b0..b1` of the encoding of `s`.
pub proof fn law_text_between_is_byte_slice(s: Seq<char>, b0: int, b1: int)
    requires
        text_between(s, b0, b1) is Some,
    ensures
        0 <= b0 <= b1 <= vstd::utf8::encode_utf8(s).len(),
        vstd::utf8::encode_utf8(text_between(s, b0, b1)->0) == vstd::utf8::encode_utf8(s).subrange(
            b0,
            b1,
        ),
{
    let i = char_index_at_byte(s, b0)->0;
    let j = char_index_at_byte(s, b1)->0;
    let t = s.subrange(i, j);
    assert(s.take(j) == s.take(i) + t);
    assert(s == s.take(j) + s.skip(j));
    lemma_encode_concat(s.take(i), t);
    lemma_encode_concat(s.take(j), s.skip(j));
    lemma_utf8_len_is_encoding_len(s.take(i));
    lemma_utf8_len_is_encoding_len(s.take(j));
    let e = vstd::utf8::encode_utf8(s);
    assert(vstd::utf8::encode_utf8(s.take(j)) == e.subrange(0, b1));
    assert(vstd::utf8::encode_utf8(t) =~= e.subrange(b0, b1));
}

} // verus!

verus! {

/// Line offsets, which `byte_offset_for_line` returns, grow with the line
/// index and never pass the source's byte length plus one.
pub proof fn law_line_offset_monotone(source: Seq<char>, i: int, j: int)
    requires
        0 <= i <= j,
    ensures
        line_offset(source, i) <= line_offset(source, j),
        line_offset(source, j) <= utf8_len(source) + 1,
        line_offset(source, j) <= vstd::utf8::encode_utf8(source).len() + 1,
{
    lemma_utf8_len_is_encoding_len(source);
    let lines = lines_of(source);
    let n = lines.len() as int;
    let ii = if i < n { i } else { n };
    let jj = if j < n { j } else { n };
    assert(lines.take(jj) == lines.take(ii) + lines.take(jj).skip(ii));
    lemma_lines_span_concat(lines.take(ii), lines.take(jj).skip(ii));
    lemma_lines_span_prefix(lines, jj);
    lemma_lines_span_bound(source);
}

} // verus!

verus! {

/// The number of `'\n'` characters in `s`.
pub open spec fn newline_count(s: Seq<char>) -> nat
    decreases s.len(),
{
    if s.len() == 0 {
        0
    } else {
        newline_count(s.drop_last()) + if s.last() == '\n' {
            1nat
        } else {
            0nat
        }
    }
}

/// Newlines of a longer prefix are at least those of a shorter one, and
/// never more than the characters.
pub proof fn lemma_newline_count_prefix(s: Seq<char>, i: int, j: int)
    requires
        0 <= i <= j <= s.len(),
    ensures
        newline_count(s.take(i)) <= newline_count(s.take(j)) <= newline_count(s),
        newline_count(s.take(j)) <= j,
    decreases s.len(),
{
    if s.len() > 0 {
        assert(s.take(s.len() as int) == s);
        if j < s.len() {
            lemma_newline_count_prefix(s.drop_last(), i, j);
            assert(s.drop_last().take(i) == s.take(i));
            assert(s.drop_last().take(j) == s.take(j));
        } else {
            if i < s.len() {
                lemma_newline_count_prefix(s.drop_last(), i, s.len() - 1);
                assert(s.drop_last().take(i) == s.take(i));
                assert(s.drop_last().take(s.len() - 1) == s.drop_last());
            }
            lemma_newline_count_prefix(s.drop_last(), s.len() - 1, s.len() - 1);
            assert(s.drop_last().take(s.len() - 1) == s.drop_last());
        }
    }
}

/// A prefix of `k` characters takes at least `k` bytes, and no more than
/// the whole text.
pub proof fn lemma_utf8_len_prefix(s: Seq<char>, k: int)
    requires
        0 <= k <= s.len(),
    ensures
        k <= utf8_len(s.take(k)) <= utf8_len(s),
    decreases k,
{
    lemma_utf8_len_concat(s.take(k), s.skip(k));
    assert(s.take(k) + s.skip(k) == s);
    if k > 0 {
        lemma_utf8_len_prefix(s, k - 1);
        assert(s.take(k).drop_last() == s.take(k - 1));
    }
}

} // verus!

verus! {

pub proof fn lemma_newline_count_concat(a: Seq<char>, b: Seq<char>)
    ensures
        newline_count(a + b) == newline_count(a) + newline_count(b),
    decreases b.len(),
{
    if b.len() == 0 {
        assert(a + b == a);
    } else {
        lemma_newline_count_concat(a, b.drop_last());
        assert((a + b).drop_last() == a + b.drop_last());
        assert((a + b).last() == b.last());
    }
}

/// A text has at most one line more than it has newlines.
pub proof fn lemma_lines_count(s: Seq<char>)
    ensures
        lines_of(s).len() <= newline_count(s) + 1,
    decreases s.len(),
{
    if s.len() > 0 {
        let nl = first_newline(s);
        lemma_first_newline_bounds(s);
        if nl < s.len() {
            let rest = s.skip(nl + 1);
            lemma_lines_count(rest);
            assert(s == s.take(nl) + seq!['\n'] + rest);
            lemma_newline_count_concat(s.take(nl) + seq!['\n'], rest);
            lemma_newline_count_concat(s.take(nl), seq!['\n']);
            assert(seq!['\n'].drop_last() =~= Seq::<char>::empty());
            assert(newline_count(Seq::<char>::empty()) == 0);
            assert(seq!['\n'].last() == '\n');
            assert(newline_count(seq!['\n']) == 1);
        }
    }
}

} // verus!

verus! {

/// No `'\r'` of `s` stands right before a `'\n'`: its lines end with a bare
/// `'\n'`.
pub open spec fn no_crlf(s: Seq<char>) -> bool {
    forall|i: int| 0 <= i < s.len() - 1 && #[trigger] s[i] == '\r' ==> s[i + 1] != '\n'
}

proof fn lemma_newline_free(x: Seq<char>)
    requires
        forall|i: int| 0 <= i < x.len() ==> x[i] != '\n',
    ensures
        newline_count(x) == 0,
    decreases x.len(),
{
    if x.len() > 0 {
        lemma_newline_free(x.drop_last());
        assert(x.last() == x[x.len() - 1]);
    }
}

proof fn lemma_one_newline()
    ensures
        newline_count(seq!['\n']) == 1,
        utf8_len(seq!['\n']) == 1,
{
    assert(seq!['\n'].drop_last() =~= Seq::<char>::empty());
    assert(newline_count(Seq::<char>::empty()) == 0);
    assert(utf8_len(Seq::<char>::empty()) == 0);
    assert(seq!['\n'].last() == '\n');
    assert(('\n' as u32) == 10u32);
}

/// Where line `j` of `s` starts: a character index `k` whose prefix has the
/// line's byte offset and `j` newlines, and from which the line's characters
/// follow, with no newline among them.
pub proof fn lemma_line_start(s: Seq<char>, j: int) -> (k: int)
    requires
        no_crlf(s),
        0 <= j < lines_of(s).len(),
    ensures
        0 <= k,
        k + lines_of(s)[j].len() <= s.len(),
        s.subrange(k, k + lines_of(s)[j].len()) == lines_of(s)[j],
        utf8_len(s.take(k)) == line_offset(s, j),
        newline_count(s.take(k)) == j,
        utf8_len(s.take(k + lines_of(s)[j].len())) == line_offset(s, j) + utf8_len(lines_of(s)[j]),
        newline_count(s.take(k + lines_of(s)[j].len())) == j,
    decreases s.len(),
{
    let nl = first_newline(s);
    lemma_first_newline_bounds(s);
    let lines = lines_of(s);
    assert(s.take(0) =~= Seq::<char>::empty());
    assert(newline_count(Seq::<char>::empty()) == 0);
    assert(utf8_len(Seq::<char>::empty()) == 0);
    assert(lines.take(0) =~= Seq::<Seq<char>>::empty());
    assert(lines_span(Seq::<Seq<char>>::empty()) == 0);
    if nl >= s.len() {
        assert(lines == seq![s]);
        assert(s.subrange(0, s.len() as int) == s);
        assert(s.take(s.len() as int) == s);
        lemma_newline_free(s);
        0
    } else {
        let head = s.take(nl);
        let rest = s.skip(nl + 1);
        assert(strip_cr(head) == head) by {
            if head.len() > 0 && head.last() == '\r' {
                assert(s[nl - 1] == '\r');
                assert(s[nl] == '\n');
            }
        }
        assert(lines == seq![head] + lines_of(rest));
        assert(forall|i: int| 0 <= i < head.len() ==> head[i] == s[i]);
        lemma_newline_free(head);
        assert(s == head + seq!['\n'] + rest);
        lemma_one_newline();
        if j == 0 {
            assert(lines[0] == head);
            assert(s.subrange(0, nl) == head);
            assert(s.take(nl) == head);
            0
        } else {
            assert(no_crlf(rest)) by {
                assert forall|i: int| 0 <= i < rest.len() - 1 && #[trigger] rest[i] == '\r' implies rest[i
                    + 1] != '\n' by {
                    assert(rest[i] == s[nl + 1 + i]);
                    assert(rest[i + 1] == s[nl + 1 + i + 1]);
                }
            }
            assert(lines[j] == lines_of(rest)[j - 1]);
            let k1 = lemma_line_start(rest, j - 1);
            let len = lines[j].len() as int;
            let k = nl + 1 + k1;
            assert(s.subrange(k, k + len) == rest.subrange(k1, k1 + len));
            assert(s.take(k) == (head + seq!['\n']) + rest.take(k1));
            assert(s.take(k + len) == (head + seq!['\n']) + rest.take(k1 + len));
            lemma_newline_count_concat(head + seq!['\n'], rest.take(k1));
            lemma_newline_count_concat(head + seq!['\n'], rest.take(k1 + len));
            lemma_newline_count_concat(head, seq!['\n']);
            lemma_utf8_len_concat(head + seq!['\n'], rest.take(k1));
            lemma_utf8_len_concat(head + seq!['\n'], rest.take(k1 + len));
            lemma_utf8_len_concat(head, seq!['\n']);
            assert(lines.take(j) == seq![head] + lines_of(rest).take(j - 1));
            lemma_lines_span_concat(seq![head], lines_of(rest).take(j - 1));
            assert(seq![head].drop_last() =~= Seq::<Seq<char>>::empty());
            assert(seq![head].last() == head);
            k
        }
    }
}

/// The next line starts past the end of this one and its terminator.
pub proof fn lemma_line_offset_next(s: Seq<char>, a: int, b: int)
    requires
        0 <= a < b,
        a < lines_of(s).len(),
    ensures
        line_offset(s, a) + utf8_len(lines_of(s)[a]) + 1 <= line_offset(s, b),
{
    let lines = lines_of(s);
    assert(lines.take(a + 1).drop_last() == lines.take(a));
    assert(lines.take(a + 1).last() == lines[a]);
    law_line_offset_monotone(s, a + 1, b);
}

} // verus!
