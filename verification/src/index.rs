//! The decisions of indexing: which files of a source directory are chunked,
//! under which path they are stored, and the id each chunk gets.

use vstd::prelude::*;
use crate::chunk::Chunk;
use crate::number::{decimal, push_decimal};
use crate::text::{append_chars, chars_to_string, str_chars};

verus! {

/// `glob::Pattern`, held opaque.
#[verifier::external_type_specification]
#[verifier::external_body]
pub struct ExPattern(glob::Pattern);

/// `glob::PatternError`, held opaque.
#[verifier::external_type_specification]
#[verifier::external_body]
pub struct ExPatternError(glob::PatternError);

/// Whether `glob::Pattern::new` accepts `pattern`.
pub uninterp spec fn glob_valid(pattern: Seq<char>) -> bool;

/// Whether `path` matches the glob `pattern` under `glob::Pattern::matches`
/// (default match options; separators as `std::path::is_separator` sees them).
pub uninterp spec fn glob_matches(pattern: Seq<char>, path: Seq<char>) -> bool;

/// A compiled glob pattern, with the text it was compiled from.
pub struct GlobPattern {
    source: String,
    compiled: glob::Pattern,
}

impl View for GlobPattern {
    type V = Seq<char>;

    /// The text of the pattern.
    closed spec fn view(&self) -> Seq<char> {
        self.source@
    }
}

/// Calls `glob::Pattern::new`: it fails exactly on the patterns it does not
/// accept, and the compiled pattern keeps its text.
#[verifier::external_body]
fn compile_glob(pattern: &str) -> (res: Result<GlobPattern, glob::PatternError>)
    ensures
        res is Ok == glob_valid(pattern@),
        res matches Ok(g) ==> g@ == pattern@,
{
    glob::Pattern::new(pattern).map(|compiled| GlobPattern { source: pattern.to_owned(), compiled })
}

/// Calls `glob::Pattern::matches`; the contract names its result.
#[verifier::external_body]
fn glob_match(pattern: &GlobPattern, path: &str) -> (res: bool)
    ensures
        res == glob_matches(pattern@, path@),
{
    pattern.compiled.matches(path)
}

/// The texts of compiled patterns.
pub open spec fn patterns_view(v: Seq<GlobPattern>) -> Seq<Seq<char>> {
    v.map_values(|g: GlobPattern| g@)
}

/// The texts of strings.
pub open spec fn strings_view(v: Seq<String>) -> Seq<Seq<char>> {
    v.map_values(|s: String| s@)
}

/// Compiles glob patterns; fails with the index of the first pattern that
/// does not compile.
pub fn compile_patterns(patterns: &Vec<String>) -> (res: Result<Vec<GlobPattern>, usize>)
    ensures
        match res {
            Ok(gs) => patterns_view(gs@) == strings_view(patterns@) && forall|k: int|
                0 <= k < patterns@.len() ==> glob_valid(#[trigger] patterns@[k]@),
            Err(k) => k < patterns@.len() && !glob_valid(patterns@[k as int]@) && forall|j: int|
                0 <= j < k ==> glob_valid(#[trigger] patterns@[j]@),
        },
{
    let n: usize = patterns.len();
    let mut res: Vec<GlobPattern> = Vec::new();
    let mut k: usize = 0;
    while k < n
        invariant
            k <= n == patterns@.len(),
            patterns_view(res@) == strings_view(patterns@).take(k as int),
            forall|j: int| 0 <= j < k ==> glob_valid(#[trigger] patterns@[j]@),
        decreases n - k,
    {
        match compile_glob(patterns[k].as_str()) {
            Ok(g) => {
                let ghost before = patterns_view(res@);
                res.push(g);
                assert(patterns_view(res@) =~= before.push(patterns@[k as int]@));
                assert(strings_view(patterns@).take(k + 1) =~= strings_view(patterns@).take(
                    k as int,
                ).push(patterns@[k as int]@));
            },
            Err(_) => {
                return Err(k);
            },
        }
        k = k + 1;
    }
    assert(strings_view(patterns@).take(n as int) == strings_view(patterns@));
    Ok(res)
}

/// Whether one of `patterns` matches `path`.
pub open spec fn any_matches(patterns: Seq<Seq<char>>, path: Seq<char>) -> bool {
    exists|k: int| 0 <= k < patterns.len() && glob_matches(#[trigger] patterns[k], path)
}

/// A file is indexed when some pattern of `includes` matches it (or there
/// are none) and no pattern of `excludes` does.
pub open spec fn is_selected(includes: Seq<Seq<char>>, excludes: Seq<Seq<char>>, path: Seq<char>) -> bool {
    (includes.len() == 0 || any_matches(includes, path)) && !any_matches(excludes, path)
}

fn matches_any(patterns: &Vec<GlobPattern>, path: &str) -> (res: bool)
    ensures
        res == any_matches(patterns_view(patterns@), path@),
{
    let n: usize = patterns.len();
    let mut k: usize = 0;
    while k < n
        invariant
            k <= n == patterns@.len(),
            forall|j: int| 0 <= j < k ==> !glob_matches(#[trigger] patterns_view(patterns@)[j], path@),
        decreases n - k,
    {
        if glob_match(&patterns[k], path) {
            assert(glob_matches(patterns_view(patterns@)[k as int], path@));
            return true;
        }
        k = k + 1;
    }
    false
}

/// Whether the file at `rel_path` (relative to its source directory) is indexed.
pub fn should_index(rel_path: &str, includes: &Vec<GlobPattern>, excludes: &Vec<GlobPattern>) -> (res: bool)
    ensures
        res == is_selected(patterns_view(includes@), patterns_view(excludes@), rel_path@),
{
    if includes.len() > 0 && !matches_any(includes, rel_path) {
        return false;
    }
    !matches_any(excludes, rel_path)
}

/// The path under which a file is stored: its source directory's prefix, a
/// `'/'`, and its path relative to that directory.
pub fn prefixed_path(prefix: &str, rel_path: &str) -> (res: String)
    ensures
        res@ == prefix@ + seq!['/'] + rel_path@,
{
    let mut p: Vec<char> = str_chars(prefix);
    p.push('/');
    let rel: Vec<char> = str_chars(rel_path);
    append_chars(&mut p, &rel);
    chars_to_string(&p)
}

/// `name` is a nonempty run of consecutive characters of `path` without a
/// `'/'`: the shape of any component of `path`.
pub open spec fn is_component_of(name: Seq<char>, path: Seq<char>) -> bool {
    &&& name.len() > 0
    &&& !name.contains('/')
    &&& exists|i: int| 0 <= i && i + name.len() <= path.len() && #[trigger] path.subrange(i, i + name.len()) == name
}

/// The final component of `path` as `std::path::Path::file_name` gives it
/// (under the path syntax of the platform the crate is built for), as text.
pub uninterp spec fn path_file_name_of(path: Seq<char>) -> Option<Seq<char>>;

/// Calls `std::path::Path::file_name` on `path` and turns the name into a
/// string with `OsStr::to_string_lossy`. The claims: the result is the named
/// final component; a name it returns is a `Normal` component, a nonempty
/// slice of the path between separators, `'/'` being one on every platform;
/// a slice of UTF-8 text at separators converts unchanged.
#[verifier::external_body]
fn path_file_name(path: &str) -> (res: Option<String>)
    ensures
        match res {
            Some(n) => path_file_name_of(path@) == Some(n@) && is_component_of(n@, path@),
            None => path_file_name_of(path@) is None,
        },
{
    std::path::Path::new(path).file_name().map(|n| n.to_string_lossy().into_owned())
}

/// The prefix of a source directory from the last component of its path:
/// that name when there is one, else the whole path.
pub fn prefix_from(path: &str, file_name: Option<String>) -> (res: String)
    ensures
        match file_name {
            Some(n) => res@ == n@,
            None => res@ == path@,
        },
{
    match file_name {
        Some(n) => n,
        None => path.to_owned(),
    }
}

/// The prefix under which the files of the source directory at `path` are
/// stored: the directory's own name, or the whole path when it has none.
pub fn source_prefix(path: &str) -> (res: String)
    ensures
        res@ == match path_file_name_of(path@) {
            Some(n) => n,
            None => path@,
        },
        res@ == path@ || is_component_of(res@, path@),
{
    prefix_from(path, path_file_name(path))
}

/// The id of a chunk in the store: `file:start-end`.
pub open spec fn external_id_of(file_path: Seq<char>, start_line: nat, end_line: nat) -> Seq<char> {
    file_path + seq![':'] + decimal(start_line) + seq!['-'] + decimal(end_line)
}

/// The id under which a chunk is stored.
pub fn external_id(chunk: &Chunk) -> (id: String)
    ensures
        id@ == external_id_of(chunk.file_path@, chunk.start_line as nat, chunk.end_line as nat),
{
    let mut s: Vec<char> = str_chars(chunk.file_path.as_str());
    s.push(':');
    push_decimal(&mut s, chunk.start_line as u64);
    s.push('-');
    push_decimal(&mut s, chunk.end_line as u64);
    chars_to_string(&s)
}

} // verus!

verus! {

/// When `sep` occurs in neither tail, a string split at its last `sep`
/// determines both sides.
proof fn lemma_split_at_last(a1: Seq<char>, d1: Seq<char>, a2: Seq<char>, d2: Seq<char>, sep: char)
    requires
        a1 + seq![sep] + d1 == a2 + seq![sep] + d2,
        forall|k: int| 0 <= k < d1.len() ==> d1[k] != sep,
        forall|k: int| 0 <= k < d2.len() ==> d2[k] != sep,
    ensures
        a1 == a2,
        d1 == d2,
{
    let x = a1 + seq![sep] + d1;
    let y = a2 + seq![sep] + d2;
    if d1.len() < d2.len() {
        let i = x.len() - d1.len() - 1;
        assert(x[i] == sep);
        assert(y[i] == d2[d2.len() - d1.len() - 1]);
    } else if d2.len() < d1.len() {
        let i = y.len() - d2.len() - 1;
        assert(y[i] == sep);
        assert(x[i] == d1[d1.len() - d2.len() - 1]);
    }
    assert(d1 =~= x.subrange(x.len() - d1.len(), x.len() as int));
    assert(d2 =~= y.subrange(y.len() - d2.len(), y.len() as int));
    assert(a1 =~= x.subrange(0, a1.len() as int));
    assert(a2 =~= y.subrange(0, a2.len() as int));
}

/// Each place of a chunk has its own id: equal ids come from equal files
/// and line ranges, so storing by id replaces exactly the chunk at that place.
pub proof fn law_external_id_injective(f1: Seq<char>, s1: nat, e1: nat, f2: Seq<char>, s2: nat, e2: nat)
    requires
        external_id_of(f1, s1, e1) == external_id_of(f2, s2, e2),
    ensures
        f1 == f2,
        s1 == s2,
        e1 == e2,
{
    crate::number::lemma_decimal_digits(s1);
    crate::number::lemma_decimal_digits(s2);
    crate::number::lemma_decimal_digits(e1);
    crate::number::lemma_decimal_digits(e2);
    assert forall|k: int| 0 <= k < decimal(e1).len() implies decimal(e1)[k] != '-' by {
        assert(48 <= (decimal(e1)[k] as u32));
    }
    assert forall|k: int| 0 <= k < decimal(e2).len() implies decimal(e2)[k] != '-' by {
        assert(48 <= (decimal(e2)[k] as u32));
    }
    lemma_split_at_last(
        f1 + seq![':'] + decimal(s1),
        decimal(e1),
        f2 + seq![':'] + decimal(s2),
        decimal(e2),
        '-',
    );
    assert forall|k: int| 0 <= k < decimal(s1).len() implies decimal(s1)[k] != ':' by {
        assert((decimal(s1)[k] as u32) <= 57);
    }
    assert forall|k: int| 0 <= k < decimal(s2).len() implies decimal(s2)[k] != ':' by {
        assert((decimal(s2)[k] as u32) <= 57);
    }
    lemma_split_at_last(f1, decimal(s1), f2, decimal(s2), ':');
    crate::number::lemma_decimal_injective(s1, s2);
    crate::number::lemma_decimal_injective(e1, e2);
}

/// Which files are indexed, over the patterns one by one: a file that any
/// one exclude pattern matches is left out; so is one that no include
/// pattern matches when there are include patterns; every other file is
/// indexed.
pub proof fn law_selection(includes: Seq<Seq<char>>, excludes: Seq<Seq<char>>, path: Seq<char>)
    ensures
        forall|k: int|
            0 <= k < excludes.len() && #[trigger] glob_matches(excludes[k], path) ==> !is_selected(
                includes,
                excludes,
                path,
            ),
        includes.len() > 0 && (forall|k: int| 0 <= k < includes.len() ==> !#[trigger] glob_matches(includes[k], path))
            ==> !is_selected(includes, excludes, path),
        (includes.len() == 0 || exists|k: int| 0 <= k < includes.len() && #[trigger] glob_matches(includes[k], path))
            && (forall|k: int| 0 <= k < excludes.len() ==> !#[trigger] glob_matches(excludes[k], path))
            ==> is_selected(includes, excludes, path),
{
}

} // verus!
