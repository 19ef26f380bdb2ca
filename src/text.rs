use vstd::prelude::*;

verus! {

/// Unicode `White_Space`, the set that `char::is_whitespace` and `str::trim` use.
pub open spec fn is_ws(c: char) -> bool {
    let u = c as u32;
    (0x9 <= u && u <= 0xd) || u == 0x20 || u == 0x85 || u == 0xa0 || u == 0x1680 || (0x2000 <= u
        && u <= 0x200a) || u == 0x2028 || u == 0x2029 || u == 0x202f || u == 0x205f || u == 0x3000
}

/// `s` without its leading whitespace.
pub open spec fn trim_start(s: Seq<char>) -> Seq<char>
    decreases s.len(),
{
    if s.len() > 0 && is_ws(s[0]) {
        trim_start(s.drop_first())
    } else {
        s
    }
}

/// `s` without its trailing whitespace.
pub open spec fn trim_end(s: Seq<char>) -> Seq<char>
    decreases s.len(),
{
    if s.len() > 0 && is_ws(s.last()) {
        trim_end(s.drop_last())
    } else {
        s
    }
}

/// `s` without whitespace at either end.
pub open spec fn trim(s: Seq<char>) -> Seq<char> {
    trim_end(trim_start(s))
}

/// A line that holds nothing but whitespace.
pub open spec fn is_blank(line: Seq<char>) -> bool {
    trim_start(line).len() == 0
}

/// A line whose first non-blank characters open a block or a line comment.
pub open spec fn is_comment(line: Seq<char>) -> bool {
    let t = trim_start(line);
    t.len() >= 2 && t[0] == '/' && (t[1] == '*' || t[1] == '/')
}

/// A line that carries no part of a key or value: blank, or a comment.
pub open spec fn is_passive(line: Seq<char>) -> bool {
    is_blank(line) || is_comment(line)
}

/// A line whose value goes on to the next line: its last non-blank character is a backslash.
pub open spec fn continues(line: Seq<char>) -> bool {
    let t = trim_end(line);
    t.len() > 0 && t.last() == '\\'
}

/// The index of the first line break at or after `i`, or the length of `s` if there is none.
pub open spec fn line_end(s: Seq<char>, i: int) -> int
    decreases s.len() - i,
{
    if i < 0 || i >= s.len() || s[i] == '\n' {
        i
    } else {
        line_end(s, i + 1)
    }
}

/// A line without the carriage return of a `\r\n` ending.
pub open spec fn strip_cr(p: Seq<char>) -> Seq<char> {
    if p.len() > 0 && p.last() == '\r' {
        p.drop_last()
    } else {
        p
    }
}

/// The lines of `s` from index `i` on. A line ends at `\n` or `\r\n`; the last line needs no
/// ending, and a text that ends with a line break has no empty line after it.
pub open spec fn lines_from(s: Seq<char>, i: int) -> Seq<Seq<char>>
    decreases s.len() - i,
    via lines_from_decreases
{
    if i < 0 || i >= s.len() {
        Seq::empty()
    } else {
        let e = line_end(s, i);
        if e >= s.len() {
            seq![s.subrange(i, s.len() as int)]
        } else {
            seq![strip_cr(s.subrange(i, e))] + lines_from(s, e + 1)
        }
    }
}

#[via_fn]
proof fn lines_from_decreases(s: Seq<char>, i: int) {
    if 0 <= i < s.len() {
        lemma_line_end(s, i);
    }
}

/// The first line break at or after `i` lies between `i` and the end of `s`.
pub proof fn lemma_line_end(s: Seq<char>, i: int)
    requires
        0 <= i <= s.len(),
    ensures
        i <= line_end(s, i) <= s.len(),
        line_end(s, i) < s.len() ==> s[line_end(s, i)] == '\n',
        forall|k: int| i <= k < line_end(s, i) ==> s[k] != '\n',
    decreases s.len() - i,
{
    if i < s.len() && s[i] != '\n' {
        lemma_line_end(s, i + 1);
    }
}

/// The lines of a text.
pub open spec fn lines_of(s: Seq<char>) -> Seq<Seq<char>> {
    lines_from(s, 0)
}

/// The views of a sequence of string slices.
pub open spec fn str_views(v: Seq<&str>) -> Seq<Seq<char>> {
    v.map_values(|l: &str| l@)
}

/// The views of a sequence of strings.
pub open spec fn string_views(v: Seq<String>) -> Seq<Seq<char>> {
    v.map_values(|l: String| l@)
}

/// Whether `c` is whitespace.
pub fn is_ws_char(c: char) -> (r: bool)
    ensures
        r == is_ws(c),
{
    let u = c as u32;
    (0x9 <= u && u <= 0xd) || u == 0x20 || u == 0x85 || u == 0xa0 || u == 0x1680 || (0x2000 <= u
        && u <= 0x200a) || u == 0x2028 || u == 0x2029 || u == 0x202f || u == 0x205f || u == 0x3000
}

/// The characters of `s`, in order.
pub fn chars_of(s: &str) -> (r: Vec<char>)
    ensures
        r@ == s@,
{
    let mut r: Vec<char> = Vec::new();
    for c in it: s.chars()
        invariant
            r@ == it.seq().take(it.index() as int),
            it.seq() == s@,
    {
        r.push(c);
    }
    r
}

/// The index of the first character of `s[..hi]` that is not whitespace (`hi` if none is).
pub fn trim_start_index(s: &[char], hi: usize) -> (i: usize)
    requires
        hi <= s@.len(),
    ensures
        i <= hi,
        s@.subrange(i as int, hi as int) == trim_start(s@.subrange(0, hi as int)),
{
    let mut i: usize = 0;
    while i < hi && is_ws_char(s[i])
        invariant
            i <= hi <= s@.len(),
            trim_start(s@.subrange(i as int, hi as int)) == trim_start(s@.subrange(0, hi as int)),
        decreases hi - i,
    {
        assert(s@.subrange(i as int, hi as int).drop_first() =~= s@.subrange(i + 1, hi as int));
        i = i + 1;
    }
    i
}

/// Relies on `String::push`: the character is appended at the end.
#[verifier::external_body]
pub(crate) fn push_char(s: &mut String, c: char)
    ensures
        final(s)@ == old(s)@.push(c),
{
    s.push(c)
}

/// A `String` that holds the characters of `cs`.
pub fn string_of(cs: &[char]) -> (r: String)
    ensures
        r@ == cs@,
{
    let mut r = String::new();
    let mut i: usize = 0;
    while i < cs.len()
        invariant
            i <= cs@.len(),
            r@ == cs@.take(i as int),
        decreases cs@.len() - i,
    {
        push_char(&mut r, cs[i]);
        assert(cs@.take(i + 1) =~= cs@.take(i as int).push(cs@[i as int]));
        i = i + 1;
    }
    assert(cs@.take(cs@.len() as int) =~= cs@);
    r
}

/// The index just past the last character of `s[lo..hi]` that is not whitespace (`lo` if none is).
pub fn trim_end_index(s: &[char], lo: usize, hi: usize) -> (j: usize)
    requires
        lo <= hi <= s@.len(),
    ensures
        lo <= j <= hi,
        s@.subrange(lo as int, j as int) == trim_end(s@.subrange(lo as int, hi as int)),
{
    let mut j: usize = hi;
    while j > lo && is_ws_char(s[j - 1])
        invariant
            lo <= j <= hi <= s@.len(),
            trim_end(s@.subrange(lo as int, j as int)) == trim_end(s@.subrange(lo as int, hi as int)),
        decreases j,
    {
        assert(s@.subrange(lo as int, j as int).drop_last() =~= s@.subrange(lo as int, j - 1));
        j = j - 1;
    }
    j
}

/// Whether `line` is blank.
pub fn is_blank_line(line: &[char]) -> (r: bool)
    ensures
        r == is_blank(line@),
{
    let i = trim_start_index(line, line.len());
    assert(line@.subrange(0, line@.len() as int) =~= line@);
    i == line.len()
}

/// Whether `line` is a comment.
pub fn is_comment_line(line: &[char]) -> (r: bool)
    ensures
        r == is_comment(line@),
{
    let i = trim_start_index(line, line.len());
    assert(line@.subrange(0, line@.len() as int) =~= line@);
    i < line.len() && 1 < line.len() - i && line[i] == '/' && (line[i + 1] == '*' || line[i + 1] == '/')
}

/// Whether `line` is blank or a comment.
pub fn is_passive_line(line: &[char]) -> (r: bool)
    ensures
        r == is_passive(line@),
{
    is_blank_line(line) || is_comment_line(line)
}

/// Whether `line` ends in a continuation backslash.
pub fn continues_line(line: &[char]) -> (r: bool)
    ensures
        r == continues(line@),
{
    let j = trim_end_index(line, 0, line.len());
    proof {
        assert(line@.subrange(0, line@.len() as int) =~= line@);
    }
    j > 0 && line[j - 1] == '\\'
}

/// The lines of `content`, as slices of it.
pub fn split_lines<'a>(content: &'a str) -> (r: Vec<&'a str>)
    ensures
        str_views(r@) == lines_of(content@),
{
    let cs = chars_of(content);
    let mut out: Vec<&'a str> = Vec::new();
    let mut i: usize = 0;
    while i < cs.len()
        invariant
            i <= cs@.len(),
            cs@ == content@,
            lines_of(cs@) == str_views(out@) + lines_from(cs@, i as int),
        decreases cs@.len() - i,
    {
        let mut e: usize = i;
        while e < cs.len() && cs[e] != '\n'
            invariant
                i <= e <= cs@.len(),
                line_end(cs@, i as int) == line_end(cs@, e as int),
            decreases cs@.len() - e,
        {
            e = e + 1;
        }
        let ghost before = out@;
        if e == cs.len() {
            out.push(content.substring_char(i, e));
            i = e;
        } else {
            let end = if e > i && cs[e - 1] == '\r' {
                e - 1
            } else {
                e
            };
            assert(cs@.subrange(i as int, end as int) == strip_cr(cs@.subrange(i as int, e as int)))
                by {
                if e > i && cs@[e - 1] == '\r' {
                    assert(cs@.subrange(i as int, e as int).drop_last() =~= cs@.subrange(
                        i as int,
                        end as int,
                    ));
                }
            }
            out.push(content.substring_char(i, end));
            i = e + 1;
        }
        assert(str_views(out@) =~= str_views(before).push(out@.last()@));
    }
    assert(str_views(out@) + Seq::<Seq<char>>::empty() =~= str_views(out@));
    out
}

} // verus!
