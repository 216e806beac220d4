//! How a search result is shown: the fields drawn from its attributes, with
//! their fallbacks, and the lines printed for it.

use vstd::prelude::*;
use crate::number::{i64_decimal, push_decimal, decimal, signed_decimal};
use crate::text::{append_chars, chars_to_string, lines_of, seqs_view, split_lines, str_chars, str_eq};

verus! {

/// The value of a metadata attribute of a stored vector.
#[derive(Debug)]
pub enum AttributeValue {
    String(String),
    Int64(i64),
    /// A value of another type, which results are never shown from.
    Other,
}

/// A search result: the id of the stored chunk and its attributes, each
/// name listed once.
#[derive(Debug)]
pub struct SearchHit {
    pub external_id: String,
    pub attributes: Vec<(String, AttributeValue)>,
}

/// The first attribute called `name`.
pub open spec fn lookup(attrs: Seq<(String, AttributeValue)>, name: Seq<char>) -> Option<AttributeValue>
    decreases attrs.len(),
{
    if attrs.len() == 0 {
        None
    } else if attrs[0].0@ == name {
        Some(attrs[0].1)
    } else {
        lookup(attrs.drop_first(), name)
    }
}

/// The text of the string attribute `name`, if there is one.
pub open spec fn string_attr(attrs: Seq<(String, AttributeValue)>, name: Seq<char>) -> Option<Seq<char>> {
    match lookup(attrs, name) {
        Some(AttributeValue::String(s)) => Some(s@),
        _ => None,
    }
}

/// The value of the integer attribute `name`, or 0.
pub open spec fn int_attr_or_zero(attrs: Seq<(String, AttributeValue)>, name: Seq<char>) -> int {
    match lookup(attrs, name) {
        Some(AttributeValue::Int64(n)) => n as int,
        _ => 0,
    }
}

/// The text of the string attribute `name`, or nothing.
pub open spec fn string_attr_or_empty(attrs: Seq<(String, AttributeValue)>, name: Seq<char>) -> Seq<char> {
    match string_attr(attrs, name) {
        Some(s) => s,
        None => seq![],
    }
}

/// The lines shown for a hit after its header: where the chunk lies (its
/// file, else the hit's id; lines 0 where they are missing), its item name
/// when there is one, and its text indented by two spaces between `---`
/// rulers, then an empty line.
pub open spec fn hit_lines(hit: SearchHit) -> Seq<Seq<char>> {
    let attrs = hit.attributes@;
    let file = match string_attr(attrs, "file_path"@) {
        Some(s) => s,
        None => hit.external_id@,
    };
    let item = string_attr_or_empty(attrs, "item_name"@);
    let text = string_attr_or_empty(attrs, "chunk_text"@);
    seq![
        "  File: "@ + file + seq![':'] + signed_decimal(int_attr_or_zero(attrs, "start_line"@))
            + seq!['-'] + signed_decimal(int_attr_or_zero(attrs, "end_line"@)),
    ] + (if item.len() > 0 {
        seq!["  Item: "@ + item]
    } else {
        seq![]
    }) + seq!["  ---"@] + lines_of(text).map_values(|l: Seq<char>| "  "@ + l) + seq![
        "  ---"@,
        seq![],
    ]
}

/// The header line of the hit ranked `rank` (from 1), with its score already
/// written out: `Result {rank} (score: {score})`.
pub open spec fn header_line(rank: nat, score: Seq<char>) -> Seq<char> {
    "Result "@ + decimal(rank) + " (score: "@ + score + seq![')']
}

fn find_attr(attrs: &Vec<(String, AttributeValue)>, name: &str) -> (res: Option<usize>)
    ensures
        match res {
            Some(k) => k < attrs@.len() && lookup(attrs@, name@) == Some(attrs@[k as int].1),
            None => lookup(attrs@, name@) is None,
        },
{
    let n: usize = attrs.len();
    let mut k: usize = 0;
    assert(attrs@.skip(0) == attrs@);
    while k < n
        invariant
            k <= n == attrs@.len(),
            lookup(attrs@, name@) == lookup(attrs@.skip(k as int), name@),
        decreases n - k,
    {
        assert(attrs@.skip(k as int)[0] == attrs@[k as int]);
        assert(attrs@.skip(k as int).drop_first() == attrs@.skip(k + 1));
        if str_eq(attrs[k].0.as_str(), name) {
            return Some(k);
        }
        k = k + 1;
    }
    assert(attrs@.skip(n as int).len() == 0);
    None
}

fn string_attr_of(attrs: &Vec<(String, AttributeValue)>, name: &str) -> (res: Option<Vec<char>>)
    ensures
        match res {
            Some(s) => string_attr(attrs@, name@) == Some(s@),
            None => string_attr(attrs@, name@) is None,
        },
{
    match find_attr(attrs, name) {
        Some(k) => match &attrs[k].1 {
            AttributeValue::String(s) => Some(str_chars(s.as_str())),
            _ => None,
        },
        None => None,
    }
}

fn int_attr_of(attrs: &Vec<(String, AttributeValue)>, name: &str) -> (res: i64)
    ensures
        res as int == int_attr_or_zero(attrs@, name@),
{
    match find_attr(attrs, name) {
        Some(k) => match &attrs[k].1 {
            AttributeValue::Int64(n) => *n,
            _ => 0,
        },
        None => 0,
    }
}

/// The header line of the hit ranked `rank`, its score written out by the caller.
pub fn header(rank: usize, score: &str) -> (line: String)
    ensures
        line@ == header_line(rank as nat, score@),
{
    let mut s: Vec<char> = str_chars("Result ");
    push_decimal(&mut s, rank as u64);
    let mid: Vec<char> = str_chars(" (score: ");
    append_chars(&mut s, &mid);
    let sc: Vec<char> = str_chars(score);
    append_chars(&mut s, &sc);
    s.push(')');
    chars_to_string(&s)
}

/// The lines shown for a hit after its header.
pub fn format_hit(hit: &SearchHit) -> (lines: Vec<String>)
    ensures
        lines@.map_values(|l: String| l@) == hit_lines(*hit),
{
    let attrs = &hit.attributes;
    let file: Vec<char> = match string_attr_of(attrs, "file_path") {
        Some(s) => s,
        None => str_chars(hit.external_id.as_str()),
    };
    let item: Vec<char> = match string_attr_of(attrs, "item_name") {
        Some(s) => s,
        None => Vec::new(),
    };
    let text: Vec<char> = match string_attr_of(attrs, "chunk_text") {
        Some(s) => s,
        None => Vec::new(),
    };
    let mut out: Vec<String> = Vec::new();
    let mut first: Vec<char> = str_chars("  File: ");
    append_chars(&mut first, &file);
    first.push(':');
    let start: Vec<char> = i64_decimal(int_attr_of(attrs, "start_line"));
    append_chars(&mut first, &start);
    first.push('-');
    let end: Vec<char> = i64_decimal(int_attr_of(attrs, "end_line"));
    append_chars(&mut first, &end);
    out.push(chars_to_string(&first));
    assert(out@.map_values(|l: String| l@) =~= seq![first@]);
    assert(first@ == "  File: "@ + file@ + seq![':'] + start@ + seq!['-'] + end@);
    let ghost head = seq![
        "  File: "@ + file@ + seq![':'] + start@ + seq!['-'] + end@,
    ] + (if item@.len() > 0 {
        seq!["  Item: "@ + item@]
    } else {
        seq![]
    });
    if item.len() > 0 {
        let mut line: Vec<char> = str_chars("  Item: ");
        append_chars(&mut line, &item);
        let ghost before = out@.map_values(|l: String| l@);
        out.push(chars_to_string(&line));
        assert(out@.map_values(|l: String| l@) =~= before.push(line@));
    }
    assert(out@.map_values(|l: String| l@) =~= head);
    out.push(str_chars_string("  ---"));
    let ghost mid = head + seq!["  ---"@];
    assert(out@.map_values(|l: String| l@) =~= mid);
    let lines: Vec<Vec<char>> = split_lines(&text);
    let ghost body = seqs_view(lines@).map_values(|l: Seq<char>| "  "@ + l);
    let n: usize = lines.len();
    let mut k: usize = 0;
    while k < n
        invariant
            k <= n == lines@.len(),
            out@.map_values(|l: String| l@) == mid + body.take(k as int),
            body == seqs_view(lines@).map_values(|l: Seq<char>| "  "@ + l),
        decreases n - k,
    {
        let mut line: Vec<char> = str_chars("  ");
        append_chars(&mut line, &lines[k]);
        let ghost before = out@.map_values(|l: String| l@);
        out.push(chars_to_string(&line));
        assert(out@.map_values(|l: String| l@) =~= before.push(line@));
        assert(body.take(k + 1) =~= body.take(k as int).push(body[k as int]));
        k = k + 1;
    }
    assert(body.take(n as int) == body);
    out.push(str_chars_string("  ---"));
    out.push(String::new());
    assert(out@.map_values(|l: String| l@) =~= hit_lines(*hit));
    out
}

fn str_chars_string(s: &str) -> (res: String)
    ensures
        res@ == s@,
{
    s.to_owned()
}

/// The text of a hit is shown whole: between the two `"  ---"` rulers stand
/// exactly the lines of its `chunk_text` attribute (as `str::lines` yields
/// them), each after two spaces, all of them and in order; the rulers
/// follow the location line and the item line, which is there exactly when
/// the hit has a non-empty `item_name`; an empty line ends the hit.
pub proof fn law_hit_shows_every_line(hit: SearchHit)
    ensures
        ({
            let r = hit_lines(hit);
            let text = match lookup(hit.attributes@, "chunk_text"@) {
                Some(AttributeValue::String(t)) => t@,
                _ => Seq::<char>::empty(),
            };
            let item = match lookup(hit.attributes@, "item_name"@) {
                Some(AttributeValue::String(t)) => t@,
                _ => Seq::<char>::empty(),
            };
            let ls = lines_of(text);
            let off: int = if item.len() > 0 {
                3
            } else {
                2
            };
            &&& r.len() == off + ls.len() + 2
            &&& item.len() > 0 ==> r[1] == "  Item: "@ + item
            &&& r[off - 1] == "  ---"@
            &&& forall|m: int| 0 <= m < ls.len() ==> r[off + m] == "  "@ + #[trigger] ls[m]
            &&& r[off + ls.len()] == "  ---"@
            &&& r[off + ls.len() + 1] == Seq::<char>::empty()
        }),
{
    let r = hit_lines(hit);
    let attrs = hit.attributes@;
    let item = string_attr_or_empty(attrs, "item_name"@);
    let text = string_attr_or_empty(attrs, "chunk_text"@);
    let ls = lines_of(text);
    let file = match string_attr(attrs, "file_path"@) {
        Some(s) => s,
        None => hit.external_id@,
    };
    let first = seq![
        "  File: "@ + file + seq![':'] + signed_decimal(int_attr_or_zero(attrs, "start_line"@))
            + seq!['-'] + signed_decimal(int_attr_or_zero(attrs, "end_line"@)),
    ];
    let mid = if item.len() > 0 {
        seq!["  Item: "@ + item]
    } else {
        seq![]
    };
    let body = ls.map_values(|l: Seq<char>| "  "@ + l);
    let head = first + mid + seq!["  ---"@];
    assert(r == head + body + seq!["  ---"@, Seq::<char>::empty()]);
    let off: int = if item.len() > 0 {
        3
    } else {
        2
    };
    assert(head.len() == off);
    assert(r[off - 1] == "  ---"@);
    if item.len() > 0 {
        assert(r[1] == mid[0]);
    }
    assert forall|m: int| 0 <= m < ls.len() implies r[off + m] == "  "@ + #[trigger] ls[m] by {
        assert(r[off + m] == body[m]);
    }
}

} // verus!
