use vstd::prelude::*;

use crate::record::{
    entry_at, entry_views, joined, lemma_record_end, parse_line_slices, parse_lines,
    parse_multiline_entry, Record, StringEntry,
};
use crate::text::{
    chars_of, is_blank, is_blank_line, is_comment, is_comment_line, is_passive, is_passive_line,
    lines_of, push_char, split_lines, str_views, string_views,
};

verus! {

/// Blank lines reduced to one empty line per run.
pub open spec fn collapse_blanks(s: Seq<Seq<char>>) -> Seq<Seq<char>>
    decreases s.len(),
{
    if s.len() == 0 {
        Seq::empty()
    } else {
        let r = collapse_blanks(s.drop_last());
        if is_blank(s.last()) {
            if r.len() > 0 && is_blank(r.last()) {
                r
            } else {
                r.push(Seq::empty())
            }
        } else {
            r.push(s.last())
        }
    }
}

/// `s` without its leading blank lines.
pub open spec fn strip_leading_blanks(s: Seq<Seq<char>>) -> Seq<Seq<char>>
    decreases s.len(),
{
    if s.len() > 0 && is_blank(s[0]) {
        strip_leading_blanks(s.drop_first())
    } else {
        s
    }
}

/// `s` without its trailing blank lines.
pub open spec fn strip_trailing_blanks(s: Seq<Seq<char>>) -> Seq<Seq<char>>
    decreases s.len(),
{
    if s.len() > 0 && is_blank(s.last()) {
        strip_trailing_blanks(s.drop_last())
    } else {
        s
    }
}

/// The line sequence as it is written: blank runs collapsed, none at either end.
pub open spec fn normalized(s: Seq<Seq<char>>) -> Seq<Seq<char>> {
    strip_trailing_blanks(strip_leading_blanks(collapse_blanks(s)))
}

/// Whether string `line` is blank.
fn blank_string(line: &String) -> (r: bool)
    ensures
        r == is_blank(line@),
{
    let cs = chars_of(line.as_str());
    is_blank_line(&cs)
}

/// Collapses blank runs, then drops the blank lines at either end.
pub fn normalize_lines(lines: Vec<String>) -> (r: Vec<String>)
    ensures
        string_views(r@) == normalized(string_views(lines@)),
{
    let ghost src = string_views(lines@);
    let mut collapsed: Vec<String> = Vec::new();
    let mut last_empty = false;
    let mut i: usize = 0;
    while i < lines.len()
        invariant
            i <= lines@.len(),
            src == string_views(lines@),
            string_views(collapsed@) == collapse_blanks(src.take(i as int)),
            last_empty == (collapsed@.len() > 0 && is_blank(collapsed@.last()@)),
        decreases lines@.len() - i,
    {
        assert(src.take(i + 1).drop_last() =~= src.take(i as int));
        let ghost before = collapsed@;
        if blank_string(&lines[i]) {
            if !last_empty {
                collapsed.push(String::new());
                last_empty = true;
                assert(string_views(collapsed@) =~= string_views(before).push(Seq::empty()));
            }
        } else {
            collapsed.push(lines[i].clone());
            last_empty = false;
            assert(string_views(collapsed@) =~= string_views(before).push(src[i as int]));
        }
        i = i + 1;
    }
    assert(src.take(src.len() as int) =~= src);
    let ghost c = string_views(collapsed@);
    let mut k: usize = 0;
    assert(c.subrange(0, c.len() as int) =~= c);
    while k < collapsed.len() && blank_string(&collapsed[k])
        invariant
            k <= collapsed@.len(),
            c == string_views(collapsed@),
            strip_leading_blanks(c.subrange(k as int, c.len() as int)) == strip_leading_blanks(c),
        decreases collapsed@.len() - k,
    {
        assert(c.subrange(k as int, c.len() as int).drop_first() =~= c.subrange(
            k + 1,
            c.len() as int,
        ));
        k = k + 1;
    }
    let mut out: Vec<String> = Vec::new();
    let mut j: usize = k;
    while j < collapsed.len()
        invariant
            k <= j <= collapsed@.len(),
            c == string_views(collapsed@),
            string_views(out@) == c.subrange(k as int, j as int),
        decreases collapsed@.len() - j,
    {
        let ghost before = out@;
        out.push(collapsed[j].clone());
        assert(string_views(out@) =~= string_views(before).push(c[j as int]));
        assert(c.subrange(k as int, j + 1) =~= c.subrange(k as int, j as int).push(c[j as int]));
        j = j + 1;
    }
    assert(strip_leading_blanks(c) == string_views(out@));
    while out.len() > 0 && blank_string(&out[out.len() - 1])
        invariant
            strip_trailing_blanks(string_views(out@)) == normalized(src),
        decreases out@.len(),
    {
        let ghost before = string_views(out@);
        out.pop();
        assert(string_views(out@) =~= before.drop_last());
    }
    out
}

/// The index of the first record of `recs[i..]` with key `key`; the length of `recs` if none has it.
pub open spec fn find_key(recs: Seq<Record>, key: Seq<char>, i: int) -> int
    decreases recs.len() - i,
{
    if i < 0 || i >= recs.len() || recs[i].key == key {
        i
    } else {
        find_key(recs, key, i + 1)
    }
}

/// The record that stands in the output for original record `r`: the target's first record with
/// the same key, if it has one, else `r` itself.
pub open spec fn chosen(r: Record, target: Seq<Record>) -> Record {
    let j = find_key(target, r.key, 0);
    if j < target.len() {
        target[j]
    } else {
        r
    }
}

/// The records of the output, one for each original record, in the original's order.
pub open spec fn merged(original: Seq<Record>, target: Seq<Record>) -> Seq<Record> {
    original.map_values(|r: Record| chosen(r, target))
}

/// The lines of a sequence of records, one record after the other.
pub open spec fn flatten(rs: Seq<Record>) -> Seq<Seq<char>>
    decreases rs.len(),
{
    if rs.len() == 0 {
        Seq::empty()
    } else {
        flatten(rs.drop_last()) + rs.last().raw
    }
}

/// The keys of the original records that the target has no record for, in the original's order.
pub open spec fn missing_keys(original: Seq<Record>, target: Seq<Record>) -> Seq<Seq<char>>
    decreases original.len(),
{
    if original.len() == 0 {
        Seq::empty()
    } else {
        let r = missing_keys(original.drop_last(), target);
        if find_key(target, original.last().key, 0) < target.len() {
            r
        } else {
            r.push(original.last().key)
        }
    }
}

/// The first line at or after `i` that is neither blank nor a comment; the number of lines if none
/// is.
pub open spec fn first_text_line(lines: Seq<Seq<char>>, i: int) -> int
    decreases lines.len() - i,
{
    if i < 0 || i >= lines.len() || !is_passive(lines[i]) {
        i
    } else {
        first_text_line(lines, i + 1)
    }
}

/// Where the leading comment block ends, looking from line `i`: at the first line of text of the
/// first record with a key; at the end if there is no such record.
pub open spec fn header_end(lines: Seq<Seq<char>>, i: int) -> int
    decreases lines.len() - i,
    via header_end_decreases
{
    if i < 0 || i >= lines.len() {
        lines.len() as int
    } else {
        let (r, next) = entry_at(lines, i);
        match r {
            Some(rec) => if rec.key.len() > 0 {
                first_text_line(lines, i)
            } else {
                header_end(lines, next)
            },
            None => header_end(lines, i + 1),
        }
    }
}

#[via_fn]
proof fn header_end_decreases(lines: Seq<Seq<char>>, i: int) {
    if 0 <= i < lines.len() {
        lemma_record_end(lines, i);
    }
}

/// The comment lines of `s`, in order.
pub open spec fn comment_lines(s: Seq<Seq<char>>) -> Seq<Seq<char>>
    decreases s.len(),
{
    if s.len() == 0 {
        Seq::empty()
    } else {
        let r = comment_lines(s.drop_last());
        if is_comment(s.last()) {
            r.push(s.last())
        } else {
            r
        }
    }
}

/// The target's leading comments as the output opens with them: followed by an empty line, if
/// there are any.
pub open spec fn header_block(lines: Seq<Seq<char>>) -> Seq<Seq<char>> {
    let c = comment_lines(lines.take(header_end(lines, 0)));
    if c.len() > 0 {
        c.push(Seq::empty())
    } else {
        c
    }
}

/// The lines that reconciling a target's lines against the original records writes.
pub open spec fn reconciled_lines(original: Seq<Record>, target: Seq<Seq<char>>) -> Seq<
    Seq<char>,
> {
    normalized(header_block(target) + flatten(merged(original, parse_lines(target))))
}

/// The lines that reconciling a target text against the original records writes.
pub open spec fn reconciled(original: Seq<Record>, target: Seq<char>) -> Seq<Seq<char>> {
    reconciled_lines(original, lines_of(target))
}

/// What reconciling one target gives: the lines to write, and the keys that were copied from the
/// original because the target lacked them.
pub struct SyncOutcome {
    pub lines: Vec<String>,
    pub added_keys: Vec<String>,
}

/// The index of the first entry with key `key`, or the number of entries.
fn find_entry(entries: &Vec<StringEntry>, key: &String) -> (r: usize)
    ensures
        r as int == find_key(entry_views(entries@), key@, 0),
{
    let ghost recs = entry_views(entries@);
    let mut j: usize = 0;
    while j < entries.len() && !(entries[j].key == *key)
        invariant
            j <= entries@.len(),
            recs == entry_views(entries@),
            find_key(recs, key@, j as int) == find_key(recs, key@, 0),
        decreases entries@.len() - j,
    {
        j = j + 1;
    }
    j
}

/// Appends copies of `src` to `out`.
fn append_lines(out: &mut Vec<String>, src: &Vec<String>)
    ensures
        string_views(final(out)@) == string_views(old(out)@) + string_views(src@),
{
    let ghost start = string_views(out@);
    let mut i: usize = 0;
    while i < src.len()
        invariant
            i <= src@.len(),
            string_views(out@) == start + string_views(src@).take(i as int),
        decreases src@.len() - i,
    {
        let ghost before = out@;
        out.push(src[i].clone());
        assert(string_views(out@) =~= string_views(before).push(src@[i as int]@));
        assert(string_views(src@).take(i + 1) =~= string_views(src@).take(i as int).push(
            src@[i as int]@,
        ));
        i = i + 1;
    }
    assert(string_views(src@).take(src@.len() as int) =~= string_views(src@));
}

/// The target's leading comment block, followed by an empty line where it is not empty.
fn header_lines(lines: &[&str]) -> (r: Vec<String>)
    ensures
        string_views(r@) == header_block(str_views(lines@)),
{
    let ghost ls = str_views(lines@);
    let mut end: usize = lines.len();
    let mut found = false;
    let mut i: usize = 0;
    while i < lines.len() && !found
        invariant
            i <= lines@.len(),
            end <= lines@.len(),
            ls == str_views(lines@),
            ls.len() == lines@.len(),
            !found ==> end == lines@.len(),
            !found ==> header_end(ls, 0) == header_end(ls, i as int),
            found ==> header_end(ls, 0) == end,
        decreases lines@.len() - i + (if found { 0int } else { 1int }),
    {
        proof {
            lemma_record_end(ls, i as int);
        }
        let (entry, next) = parse_multiline_entry(lines, i);
        let keyed = match &entry {
            Some(ent) => !ent.key.as_str().is_empty(),
            None => false,
        };
        if keyed {
            let mut k: usize = i;
            while k < lines.len() && is_passive_line(&chars_of(lines[k]))
                invariant
                    i <= k <= lines@.len(),
                    ls == str_views(lines@),
                    first_text_line(ls, k as int) == first_text_line(ls, i as int),
                decreases lines@.len() - k,
            {
                k = k + 1;
            }
            end = k;
            found = true;
        } else if entry.is_some() {
            i = next;
        } else {
            i = i + 1;
        }
    }
    let mut out: Vec<String> = Vec::new();
    let mut k: usize = 0;
    while k < end
        invariant
            k <= end <= lines@.len(),
            ls == str_views(lines@),
            header_end(ls, 0) == end,
            string_views(out@) == comment_lines(ls.take(k as int)),
        decreases end - k,
    {
        assert(ls.take(k + 1).drop_last() =~= ls.take(k as int));
        let line = chars_of(lines[k]);
        if is_comment_line(&line) {
            let ghost before = out@;
            out.push(lines[k].to_owned());
            assert(string_views(out@) =~= string_views(before).push(ls[k as int]));
        }
        k = k + 1;
    }
    if out.len() > 0 {
        let ghost before = out@;
        out.push(String::new());
        assert(string_views(out@) =~= string_views(before).push(Seq::empty()));
    }
    out
}

/// Reconciles a target text against the original's records: the target's leading comments, then,
/// for each original record in order, the target's own record for its key if it has one, else the
/// original record; blank runs collapsed and none at either end. Also gives the keys that were
/// copied from the original.
pub fn reconcile(original_entries: &Vec<StringEntry>, target: &str) -> (r: SyncOutcome)
    ensures
        string_views(r.lines@) == reconciled(entry_views(original_entries@), target@),
        string_views(r.added_keys@) == missing_keys(
            entry_views(original_entries@),
            parse_lines(lines_of(target@)),
        ),
{
    let ghost orig = entry_views(original_entries@);
    let lines = split_lines(target);
    let target_entries = parse_line_slices(lines.as_slice());
    let ghost trecs = entry_views(target_entries@);
    let mut out = header_lines(lines.as_slice());
    let ghost head = string_views(out@);
    let mut added: Vec<String> = Vec::new();
    let mut i: usize = 0;
    while i < original_entries.len()
        invariant
            i <= original_entries@.len(),
            orig == entry_views(original_entries@),
            trecs == entry_views(target_entries@),
            trecs == parse_lines(lines_of(target@)),
            string_views(out@) == head + flatten(merged(orig.take(i as int), trecs)),
            string_views(added@) == missing_keys(orig.take(i as int), trecs),
        decreases original_entries@.len() - i,
    {
        let entry = &original_entries[i];
        let ghost step = orig.take(i + 1);
        assert(step.drop_last() =~= orig.take(i as int));
        assert(merged(step, trecs).drop_last() =~= merged(orig.take(i as int), trecs));
        let ghost prev = string_views(out@);
        let j = find_entry(&target_entries, &entry.key);
        if j < target_entries.len() {
            append_lines(&mut out, &target_entries[j].raw_lines);
        } else {
            append_lines(&mut out, &entry.raw_lines);
            let ghost before = added@;
            added.push(entry.key.clone());
            assert(string_views(added@) =~= string_views(before).push(entry.key@));
        }
        assert(string_views(out@) =~= head + flatten(merged(step, trecs)));
        i = i + 1;
    }
    assert(orig.take(orig.len() as int) =~= orig);
    SyncOutcome { lines: normalize_lines(out), added_keys: added }
}

/// The text of a file made of `lines`: each line followed by a line break.
pub fn render_lines(lines: &Vec<String>) -> (r: String)
    ensures
        r@ == joined(string_views(lines@)),
{
    let ghost ls = string_views(lines@);
    let mut out = String::new();
    let mut i: usize = 0;
    while i < lines.len()
        invariant
            i <= lines@.len(),
            ls == string_views(lines@),
            out@ == joined(ls.take(i as int)),
        decreases lines@.len() - i,
    {
        assert(ls.take(i + 1).drop_last() =~= ls.take(i as int));
        out.append(lines[i].as_str());
        push_char(&mut out, '\n');
        i = i + 1;
    }
    assert(ls.take(ls.len() as int) =~= ls);
    out
}

} // verus!
