use vstd::prelude::*;

use crate::key::{extract_key, extract_key_chars, opt_chars};
use crate::text::{
    chars_of, continues, continues_line, is_passive, is_passive_line, lines_of, split_lines,
    str_views, string_of, string_views,
};

verus! {

/// A record as a value: its key and the exact lines it was read from.
pub struct Record {
    pub key: Seq<char>,
    pub raw: Seq<Seq<char>>,
}

/// One entry of a resource file: its key and the source lines that make it up, from the blank
/// lines that led to it through the line where its value ends, with any comment lines inside a
/// continued value.
#[derive(Debug, Clone)]
pub struct StringEntry {
    pub key: String,
    pub raw_lines: Vec<String>,
}

impl View for StringEntry {
    type V = Record;

    open spec fn view(&self) -> Record {
        Record { key: self.key@, raw: string_views(self.raw_lines@) }
    }
}

/// The views of a sequence of entries.
pub open spec fn entry_views(v: Seq<StringEntry>) -> Seq<Record> {
    v.map_values(|e: StringEntry| e@)
}

/// A line on which a record ends: it carries text and does not continue.
pub open spec fn ends_record(line: Seq<char>) -> bool {
    !is_passive(line) && !continues(line)
}

/// The line on which the record that starts at line `i` ends; the number of lines if it never
/// does.
pub open spec fn record_end(lines: Seq<Seq<char>>, i: int) -> int
    decreases lines.len() - i,
{
    if i < 0 || i >= lines.len() {
        lines.len() as int
    } else if ends_record(lines[i]) {
        i
    } else {
        record_end(lines, i + 1)
    }
}

/// The text that a record's lines accumulate: each line followed by a line break.
pub open spec fn joined(lines: Seq<Seq<char>>) -> Seq<char>
    decreases lines.len(),
{
    if lines.len() == 0 {
        Seq::empty()
    } else {
        joined(lines.drop_last()) + lines.last() + seq!['\n']
    }
}

/// The index of the first `=` in `s` at or after `i`; the length of `s` if there is none.
pub open spec fn first_eq(s: Seq<char>, i: int) -> int
    decreases s.len() - i,
{
    if i < 0 || i >= s.len() || s[i] == '=' {
        i
    } else {
        first_eq(s, i + 1)
    }
}

/// The key of a record's text: read from what stands before its first `=`.
pub open spec fn key_of_text(t: Seq<char>) -> Option<Seq<char>> {
    let p = first_eq(t, 0);
    if p < t.len() {
        extract_key(t.subrange(0, p))
    } else {
        None
    }
}

/// What reading one record from line `start` gives: the record, if its lines end and hold a key,
/// and the line where reading goes on.
pub open spec fn entry_at(lines: Seq<Seq<char>>, start: int) -> (Option<Record>, int) {
    if start >= lines.len() {
        (None, start)
    } else {
        let e = record_end(lines, start);
        if e >= lines.len() {
            (None, lines.len() as int)
        } else {
            let raw = lines.subrange(start, e + 1);
            match key_of_text(joined(raw)) {
                Some(k) => (Some(Record { key: k, raw }), e + 1),
                None => (None, e + 1),
            }
        }
    }
}

/// The records with a non-empty key that lines `i..` hold, in order. Where the stretch that
/// starts at a line gives no record, reading starts again at the line after that one, so a comment
/// in front of an entry does not hide it.
pub open spec fn records_from(lines: Seq<Seq<char>>, i: int) -> Seq<Record>
    decreases lines.len() - i,
    via records_from_decreases
{
    if i < 0 || i >= lines.len() {
        Seq::empty()
    } else {
        let (r, next) = entry_at(lines, i);
        match r {
            Some(rec) => if rec.key.len() > 0 {
                seq![rec] + records_from(lines, next)
            } else {
                records_from(lines, next)
            },
            None => records_from(lines, i + 1),
        }
    }
}

#[via_fn]
proof fn records_from_decreases(lines: Seq<Seq<char>>, i: int) {
    if 0 <= i < lines.len() {
        lemma_record_end(lines, i);
    }
}

/// The records of a sequence of lines.
pub open spec fn parse_lines(lines: Seq<Seq<char>>) -> Seq<Record> {
    records_from(lines, 0)
}

/// The records of a text.
pub open spec fn parse_text(s: Seq<char>) -> Seq<Record> {
    parse_lines(lines_of(s))
}

/// A record ends at a line at or after its first one, and every line before that end is passive
/// or continued.
pub proof fn lemma_record_end(lines: Seq<Seq<char>>, i: int)
    requires
        0 <= i <= lines.len(),
    ensures
        i <= record_end(lines, i) <= lines.len(),
        record_end(lines, i) < lines.len() ==> ends_record(lines[record_end(lines, i)]),
        forall|k: int| i <= k < record_end(lines, i) ==> !ends_record(#[trigger] lines[k]),
    decreases lines.len() - i,
{
    if i < lines.len() && !ends_record(lines[i]) {
        lemma_record_end(lines, i + 1);
    }
}

/// The index of the first `=` in `t`, or its length.
fn find_eq(t: &[char]) -> (p: usize)
    ensures
        p as int == first_eq(t@, 0),
        p <= t@.len(),
{
    let mut p: usize = 0;
    while p < t.len() && t[p] != '='
        invariant
            p <= t@.len(),
            first_eq(t@, p as int) == first_eq(t@, 0),
        decreases t@.len() - p,
    {
        p = p + 1;
    }
    p
}

/// The key of a record's accumulated text.
fn key_in_text(t: &[char]) -> (r: Option<Vec<char>>)
    ensures
        opt_chars(r) == key_of_text(t@),
{
    let p = find_eq(t);
    if p < t.len() {
        extract_key_chars(t, p)
    } else {
        None
    }
}

/// Reads one record from line `start`: its lines run on through blank lines, comments and lines
/// that end in a backslash, and stop at the first other line. Returns the record if it ends and a
/// key stands before its first `=`, and the line where reading goes on.
pub fn parse_multiline_entry(lines: &[&str], start: usize) -> (r: (Option<StringEntry>, usize))
    ensures
        (match r.0 {
            Some(e) => Some(e@),
            None => None::<Record>,
        }, r.1 as int) == entry_at(str_views(lines@), start as int),
{
    let ghost ls = str_views(lines@);
    if start >= lines.len() {
        return (None, start);
    }
    proof {
        lemma_record_end(ls, start as int);
    }
    let mut i: usize = start;
    let mut raw_lines: Vec<String> = Vec::new();
    let mut full_text: Vec<char> = Vec::new();
    while i < lines.len()
        invariant
            start <= i <= lines@.len(),
            ls == str_views(lines@),
            string_views(raw_lines@) == ls.subrange(start as int, i as int),
            full_text@ == joined(ls.subrange(start as int, i as int)),
            forall|k: int| start <= k < i ==> !ends_record(#[trigger] ls[k]),
        decreases lines@.len() - i,
    {
        let line = chars_of(lines[i]);
        let ghost prev = raw_lines@;
        raw_lines.push(lines[i].to_owned());
        assert(string_views(raw_lines@) =~= string_views(prev).push(line@));
        let mut c: usize = 0;
        while c < line.len()
            invariant
                start <= i < lines@.len(),
                c <= line@.len(),
                full_text@ == joined(ls.subrange(start as int, i as int)) + line@.take(c as int),
            decreases line@.len() - c,
        {
            full_text.push(line[c]);
            assert(line@.take(c + 1) =~= line@.take(c as int).push(line@[c as int]));
            c = c + 1;
        }
        full_text.push('\n');
        let ghost done = ls.subrange(start as int, i + 1);
        assert(done.drop_last() =~= ls.subrange(start as int, i as int));
        assert(line@.take(line@.len() as int) =~= line@);
        assert(full_text@ =~= joined(done));
        assert(ls.subrange(start as int, i + 1) =~= ls.subrange(start as int, i as int).push(ls[i as int]));
        assert(line@ == ls[i as int]);
        if !is_passive_line(&line) && !continues_line(&line) {
            assert(record_end(ls, start as int) == i) by {
                lemma_record_end(ls, start as int);
                if record_end(ls, start as int) < i {
                    assert(!ends_record(ls[record_end(ls, start as int)]));
                }
                if record_end(ls, start as int) > i {
                    assert(!ends_record(ls[i as int]));
                }
            }
            let key = key_in_text(&full_text);
            match key {
                Some(k) => {
                    return (Some(StringEntry { key: string_of(&k), raw_lines }), i + 1);
                },
                None => {
                    return (None, i + 1);
                },
            }
        }
        i = i + 1;
    }
    assert(record_end(ls, start as int) == ls.len()) by {
        lemma_record_end(ls, start as int);
        if record_end(ls, start as int) < ls.len() {
            assert(!ends_record(ls[record_end(ls, start as int)]));
        }
    }
    (None, i)
}

/// The records with a non-empty key among `lines`, in the order in which they stand. A stretch
/// that gives no record is tried again from its second line.
pub fn parse_line_slices(lines: &[&str]) -> (r: Vec<StringEntry>)
    ensures
        entry_views(r@) == parse_lines(str_views(lines@)),
{
    let ghost ls = str_views(lines@);
    let mut entries: Vec<StringEntry> = Vec::new();
    let mut i: usize = 0;
    while i < lines.len()
        invariant
            i <= lines@.len(),
            ls == str_views(lines@),
            parse_lines(ls) == entry_views(entries@) + records_from(ls, i as int),
        decreases lines@.len() - i,
    {
        proof {
            lemma_record_end(ls, i as int);
        }
        let (entry, next) = parse_multiline_entry(lines, i);
        let ghost before = entries@;
        match entry {
            Some(ent) => {
                if !ent.key.as_str().is_empty() {
                    entries.push(ent);
                    assert(entry_views(entries@) =~= entry_views(before).push(ent@));
                }
                i = next;
            },
            None => {
                i = i + 1;
            },
        }
    }
    assert(entry_views(entries@) + Seq::<Record>::empty() =~= entry_views(entries@));
    entries
}

/// The records of a resource text with a non-empty key, in the order in which they stand.
pub fn parse_strings_with_order(content: &str) -> (r: Vec<StringEntry>)
    ensures
        entry_views(r@) == parse_text(content@),
{
    let lines = split_lines(content);
    parse_line_slices(lines.as_slice())
}

} // verus!
