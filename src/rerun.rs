use vstd::prelude::*;

use crate::key::extract_key;
use crate::laws::{keys_unique, lemma_chosen_key, lemma_find_key};
use crate::record::{
    ends_record, entry_at, first_eq, joined, key_of_text, lemma_record_end, parse_lines,
    parse_text, record_end, records_from, Record,
};
use crate::sync::{
    chosen, comment_lines, collapse_blanks, find_key, first_text_line, flatten, header_block, header_end, merged,
    normalized, reconciled, strip_leading_blanks, strip_trailing_blanks,
};
use crate::text::{
    is_blank, is_comment, is_passive, is_ws, line_end, lines_from, lines_of, strip_cr, trim,
    trim_end, trim_start,
};

verus! {

/// Every blank line of `s` is empty, and none follows another.
pub open spec fn blanks_tidy(s: Seq<Seq<char>>) -> bool {
    forall|i: int|
        0 <= i < s.len() && is_blank(#[trigger] s[i]) ==> s[i] == Seq::<char>::empty() && (i + 1
            < s.len() ==> !is_blank(s[i + 1]))
}

proof fn lemma_collapse_tidy(s: Seq<Seq<char>>)
    ensures
        blanks_tidy(collapse_blanks(s)),
        s.len() > 0 && !is_blank(s.last()) ==> collapse_blanks(s).len() > 0 && collapse_blanks(
            s,
        ).last() == s.last(),
    decreases s.len(),
{
    if s.len() > 0 {
        lemma_collapse_tidy(s.drop_last());
        let r = collapse_blanks(s.drop_last());
        assert(is_blank(Seq::<char>::empty()));
        if is_blank(s.last()) {
            if !(r.len() > 0 && is_blank(r.last())) {
                assert forall|i: int|
                    0 <= i < r.push(Seq::empty()).len() && is_blank(
                        #[trigger] r.push(Seq::empty())[i],
                    ) implies r.push(Seq::empty())[i] == Seq::<char>::empty() && (i + 1 < r.push(
                    Seq::empty(),
                ).len() ==> !is_blank(r.push(Seq::empty())[i + 1])) by {
                    if i < r.len() {
                        assert(r[i] == r.push(Seq::empty())[i]);
                    }
                }
            }
        } else {
            assert forall|i: int|
                0 <= i < r.push(s.last()).len() && is_blank(
                    #[trigger] r.push(s.last())[i],
                ) implies r.push(s.last())[i] == Seq::<char>::empty() && (i + 1 < r.push(
                s.last(),
            ).len() ==> !is_blank(r.push(s.last())[i + 1])) by {
                if i < r.len() {
                    assert(r[i] == r.push(s.last())[i]);
                }
            }
        }
    }
}

proof fn lemma_collapse_tidy_fixed(s: Seq<Seq<char>>)
    requires
        blanks_tidy(s),
    ensures
        collapse_blanks(s) == s,
    decreases s.len(),
{
    if s.len() > 0 {
        let p = s.drop_last();
        assert(blanks_tidy(p)) by {
            assert forall|i: int| 0 <= i < p.len() && is_blank(#[trigger] p[i]) implies p[i]
                == Seq::<char>::empty() && (i + 1 < p.len() ==> !is_blank(p[i + 1])) by {
                assert(s[i] == p[i]);
            }
        }
        lemma_collapse_tidy_fixed(p);
        if is_blank(s.last()) {
            assert(s[s.len() - 1] == s.last());
            if p.len() > 0 {
                assert(is_blank(s[s.len() - 2]) ==> !is_blank(s[s.len() - 1]));
                assert(p.last() == s[s.len() - 2]);
            }
        }
        assert(s =~= p.push(s.last()));
    }
}

proof fn lemma_strip_leading(s: Seq<Seq<char>>) -> (k: int)
    ensures
        0 <= k <= s.len(),
        strip_leading_blanks(s) == s.subrange(k, s.len() as int),
        k < s.len() ==> !is_blank(s[k]),
        forall|j: int| 0 <= j < k ==> is_blank(#[trigger] s[j]),
    decreases s.len(),
{
    if s.len() > 0 && is_blank(s[0]) {
        let k = lemma_strip_leading(s.drop_first());
        assert(s.drop_first().subrange(k, s.len() - 1) =~= s.subrange(k + 1, s.len() as int));
        assert forall|j: int| 0 <= j < k + 1 implies is_blank(#[trigger] s[j]) by {
            if j > 0 {
                assert(s[j] == s.drop_first()[j - 1]);
            }
        }
        k + 1
    } else {
        assert(s.subrange(0, s.len() as int) =~= s);
        0
    }
}

proof fn lemma_strip_trailing(s: Seq<Seq<char>>) -> (k: int)
    ensures
        0 <= k <= s.len(),
        strip_trailing_blanks(s) == s.subrange(0, k),
        k > 0 ==> !is_blank(s[k - 1]),
    decreases s.len(),
{
    if s.len() > 0 && is_blank(s.last()) {
        let k = lemma_strip_trailing(s.drop_last());
        assert(s.drop_last().subrange(0, k) =~= s.subrange(0, k));
        k
    } else {
        assert(s.subrange(0, s.len() as int) =~= s);
        s.len() as int
    }
}

/// A normalized line sequence: tidy blanks, and none at either end.
pub open spec fn is_normal(s: Seq<Seq<char>>) -> bool {
    &&& blanks_tidy(s)
    &&& s.len() > 0 ==> !is_blank(s[0]) && !is_blank(s.last())
}

/// Normalizing gives a normal sequence.
pub proof fn lemma_normalized_is_normal(s: Seq<Seq<char>>)
    ensures
        is_normal(normalized(s)),
{
    let c = collapse_blanks(s);
    lemma_collapse_tidy(s);
    let k = lemma_strip_leading(c);
    let a = c.subrange(k, c.len() as int);
    let j = lemma_strip_trailing(a);
    let n = a.subrange(0, j);
    assert(normalized(s) == n);
    assert forall|i: int| 0 <= i < n.len() && is_blank(#[trigger] n[i]) implies n[i]
        == Seq::<char>::empty() && (i + 1 < n.len() ==> !is_blank(n[i + 1])) by {
        assert(n[i] == c[k + i]);
        if i + 1 < n.len() {
            assert(n[i + 1] == c[k + i + 1]);
        }
    }
    if n.len() > 0 {
        assert(n[0] == a[0]);
        assert(n.last() == a[j - 1]);
    }
}

/// A normal sequence is its own normal form.
pub proof fn lemma_normal_fixed(s: Seq<Seq<char>>)
    requires
        is_normal(s),
    ensures
        normalized(s) == s,
{
    lemma_collapse_tidy_fixed(s);
}

/// Normalizing twice is normalizing once.
pub proof fn lemma_normalized_idempotent(s: Seq<Seq<char>>)
    ensures
        normalized(normalized(s)) == normalized(s),
{
    lemma_normalized_is_normal(s);
    lemma_normal_fixed(normalized(s));
}

/// A line that a text can be split back into: no line break in it, and no carriage return at its
/// end.
pub open spec fn line_ok(l: Seq<char>) -> bool {
    &&& forall|k: int| 0 <= k < l.len() ==> l[k] != '\n'
    &&& !(l.len() > 0 && l.last() == '\r')
}

proof fn lemma_joined_front(ls: Seq<Seq<char>>)
    requires
        ls.len() > 0,
    ensures
        joined(ls) == ls[0] + seq!['\n'] + joined(ls.drop_first()),
    decreases ls.len(),
{
    if ls.len() > 1 {
        lemma_joined_front(ls.drop_last());
        assert(ls.drop_last().drop_first() =~= ls.drop_first().drop_last());
        assert(ls.drop_last()[0] == ls[0]);
        assert(ls.drop_first().last() == ls.last());
    } else {
        assert(ls.drop_first() =~= Seq::<Seq<char>>::empty());
        assert(ls.drop_last() =~= Seq::<Seq<char>>::empty());
    }
}

proof fn lemma_line_end_shift(a: Seq<char>, b: Seq<char>, j: int)
    requires
        0 <= j <= b.len(),
    ensures
        line_end(a + b, a.len() + j) == a.len() + line_end(b, j),
    decreases b.len() - j,
{
    if j < b.len() && b[j] != '\n' {
        assert((a + b)[a.len() + j] == b[j]);
        lemma_line_end_shift(a, b, j + 1);
    } else if j < b.len() {
        assert((a + b)[a.len() + j] == b[j]);
    }
}

proof fn lemma_lines_from_shift(a: Seq<char>, b: Seq<char>, j: int)
    requires
        0 <= j <= b.len(),
    ensures
        lines_from(a + b, a.len() + j) == lines_from(b, j),
    decreases b.len() - j,
{
    if j < b.len() {
        lemma_line_end_shift(a, b, j);
        crate::text::lemma_line_end(b, j);
        let e = line_end(b, j);
        if e < b.len() {
            lemma_lines_from_shift(a, b, e + 1);
        }
        assert((a + b).subrange(a.len() + j, a.len() + e) =~= b.subrange(j, e));
        assert((a + b).subrange(a.len() + j, (a + b).len() as int) =~= b.subrange(j, b.len() as int));
    }
}

/// Splitting the rendered text of a line sequence gives the sequence back, where every line can
/// be split back into.
pub proof fn lemma_lines_of_joined(ls: Seq<Seq<char>>)
    requires
        forall|i: int| 0 <= i < ls.len() ==> line_ok(#[trigger] ls[i]),
    ensures
        lines_of(joined(ls)) == ls,
    decreases ls.len(),
{
    if ls.len() == 0 {
        assert(joined(ls).len() == 0);
        assert(lines_of(joined(ls)) =~= ls);
    } else {
        let first = ls[0];
        let rest = ls.drop_first();
        assert forall|i: int| 0 <= i < rest.len() implies line_ok(#[trigger] rest[i]) by {
            assert(rest[i] == ls[i + 1]);
        }
        lemma_lines_of_joined(rest);
        lemma_joined_front(ls);
        let head = first + seq!['\n'];
        let s = joined(ls);
        assert(s == head + joined(rest));
        assert(line_ok(ls[0]));
        assert forall|k: int| 0 <= k < first.len() implies s[k] != '\n' by {
            assert(s[k] == first[k]);
        }
        assert(s[first.len() as int] == '\n');
        assert(line_end(s, 0) == first.len()) by {
            crate::text::lemma_line_end(s, 0);
            if line_end(s, 0) < first.len() {
                assert(s[line_end(s, 0)] != '\n');
            }
            if line_end(s, 0) > first.len() {
                assert(s[first.len() as int] != '\n');
            }
        }
        assert(s.subrange(0, first.len() as int) =~= first);
        assert(strip_cr(first) == first);
        lemma_lines_from_shift(head, joined(rest), 0);
        assert(lines_of(s) =~= seq![first] + rest);
        assert(seq![first] + rest =~= ls);
    }
}

/// A record as reading gives it: its lines run on until the one that ends it, and a non-empty key
/// stands before the first `=` of its text.
pub open spec fn well_read(r: Record) -> bool {
    &&& r.raw.len() > 0
    &&& forall|k: int| 0 <= k < r.raw.len() - 1 ==> !ends_record(#[trigger] r.raw[k])
    &&& ends_record(r.raw.last())
    &&& key_of_text(joined(r.raw)) == Some(r.key)
    &&& r.key.len() > 0
}

/// Every record that reading gives is well read.
pub proof fn lemma_records_well_read(lines: Seq<Seq<char>>, i: int)
    ensures
        forall|k: int|
            0 <= k < records_from(lines, i).len() ==> well_read(#[trigger] records_from(lines, i)[k]),
    decreases lines.len() - i,
{
    if 0 <= i < lines.len() {
        lemma_record_end(lines, i);
        let e = record_end(lines, i);
        let next = entry_at(lines, i).1;
        lemma_records_well_read(lines, next);
        lemma_records_well_read(lines, i + 1);
        if e < lines.len() {
            let raw = lines.subrange(i, e + 1);
            assert forall|k: int| 0 <= k < raw.len() - 1 implies !ends_record(#[trigger] raw[k]) by {
                assert(raw[k] == lines[i + k]);
            }
            assert(raw.last() == lines[e]);
        }
        let rs = records_from(lines, i);
        match entry_at(lines, i).0 {
            Some(rec) => {
                let rest = records_from(lines, next);
                if rec.key.len() > 0 {
                    assert(rs == seq![rec] + rest);
                    assert forall|k: int| 0 <= k < rs.len() implies well_read(#[trigger] rs[k]) by {
                        if k > 0 {
                            assert(rs[k] == rest[k - 1]);
                        }
                    }
                } else {
                    assert(rs == rest);
                }
            },
            None => {
                assert(rs == records_from(lines, i + 1));
            },
        }
    }
}

proof fn lemma_record_end_at(lines: Seq<Seq<char>>, i: int, e: int)
    requires
        0 <= i <= e < lines.len(),
        forall|k: int| i <= k < e ==> !ends_record(#[trigger] lines[k]),
        ends_record(lines[e]),
    ensures
        record_end(lines, i) == e,
    decreases e - i,
{
    if i < e {
        lemma_record_end_at(lines, i + 1, e);
    }
}

proof fn lemma_flatten_front(rs: Seq<Record>)
    requires
        rs.len() > 0,
    ensures
        flatten(rs) == rs[0].raw + flatten(rs.drop_first()),
    decreases rs.len(),
{
    if rs.len() > 1 {
        lemma_flatten_front(rs.drop_last());
        assert(rs.drop_last().drop_first() =~= rs.drop_first().drop_last());
        assert(rs.drop_last()[0] == rs[0]);
        assert(rs.drop_first().last() == rs.last());
    } else {
        assert(rs.drop_first() =~= Seq::<Record>::empty());
        assert(rs.drop_last() =~= Seq::<Record>::empty());
    }
}

/// Reading from where a run of well-read records stands gives those records back.
pub proof fn lemma_records_from_flatten(lines: Seq<Seq<char>>, i: int, rs: Seq<Record>)
    requires
        0 <= i <= lines.len(),
        lines.subrange(i, lines.len() as int) == flatten(rs),
        forall|k: int| 0 <= k < rs.len() ==> well_read(#[trigger] rs[k]),
    ensures
        records_from(lines, i) == rs,
        rs.len() > 0 ==> entry_at(lines, i) == (Some(rs[0]), i + rs[0].raw.len()),
    decreases rs.len(),
{
    if rs.len() == 0 {
        assert(lines.subrange(i, lines.len() as int).len() == 0);
        assert(records_from(lines, i) =~= rs);
    } else {
        let r = rs[0];
        assert(well_read(r));
        lemma_flatten_front(rs);
        let n = r.raw.len() as int;
        let tail = lines.subrange(i, lines.len() as int);
        assert(tail == r.raw + flatten(rs.drop_first()));
        assert(tail.subrange(0, n) =~= r.raw);
        assert(tail.subrange(n, tail.len() as int) =~= flatten(rs.drop_first()));
        assert forall|k: int| i <= k < i + n - 1 implies !ends_record(#[trigger] lines[k]) by {
            assert(lines[k] == tail[k - i]);
            assert(tail[k - i] == r.raw[k - i]);
        }
        assert(lines[i + n - 1] == r.raw.last()) by {
            assert(lines[i + n - 1] == tail[n - 1]);
        }
        lemma_record_end_at(lines, i, i + n - 1);
        assert(lines.subrange(i, i + n) =~= r.raw);
        assert(lines.subrange(i + n, lines.len() as int) =~= flatten(rs.drop_first()));
        assert forall|k: int| 0 <= k < rs.drop_first().len() implies well_read(
            #[trigger] rs.drop_first()[k],
        ) by {
            assert(rs.drop_first()[k] == rs[k + 1]);
        }
        lemma_records_from_flatten(lines, i + n, rs.drop_first());
        assert(seq![r] + rs.drop_first() =~= rs);
    }
}

/// Reading a run of well-read records gives them back.
pub proof fn lemma_parse_flatten(rs: Seq<Record>)
    requires
        forall|k: int| 0 <= k < rs.len() ==> well_read(#[trigger] rs[k]),
    ensures
        parse_lines(flatten(rs)) == rs,
{
    let l = flatten(rs);
    assert(l.subrange(0, l.len() as int) =~= l);
    lemma_records_from_flatten(l, 0, rs);
}

/// `trim_start` drops exactly the leading whitespace.
proof fn lemma_trim_start_index(s: Seq<char>) -> (k: int)
    ensures
        0 <= k <= s.len(),
        trim_start(s) == s.subrange(k, s.len() as int),
        forall|j: int| 0 <= j < k ==> is_ws(#[trigger] s[j]),
        k < s.len() ==> !is_ws(s[k]),
    decreases s.len(),
{
    if s.len() > 0 && is_ws(s[0]) {
        let k = lemma_trim_start_index(s.drop_first());
        assert(s.drop_first().subrange(k, s.len() - 1) =~= s.subrange(k + 1, s.len() as int));
        assert forall|j: int| 0 <= j < k + 1 implies is_ws(#[trigger] s[j]) by {
            if j > 0 {
                assert(s[j] == s.drop_first()[j - 1]);
            }
        }
        k + 1
    } else {
        assert(s.subrange(0, s.len() as int) =~= s);
        0
    }
}

/// A blank line is whitespace throughout.
proof fn lemma_blank_all_ws(l: Seq<char>)
    requires
        is_blank(l),
    ensures
        forall|j: int| 0 <= j < l.len() ==> is_ws(#[trigger] l[j]),
{
    lemma_trim_start_index(l);
}

proof fn lemma_trim_start_ws_prefix(w: Seq<char>, y: Seq<char>)
    requires
        forall|j: int| 0 <= j < w.len() ==> is_ws(#[trigger] w[j]),
    ensures
        trim_start(w + y) == trim_start(y),
    decreases w.len(),
{
    if w.len() > 0 {
        assert((w + y)[0] == w[0]);
        assert((w + y).drop_first() =~= w.drop_first() + y);
        assert forall|j: int| 0 <= j < w.drop_first().len() implies is_ws(
            #[trigger] w.drop_first()[j],
        ) by {
            assert(w.drop_first()[j] == w[j + 1]);
        }
        lemma_trim_start_ws_prefix(w.drop_first(), y);
    } else {
        assert(w + y =~= y);
    }
}

proof fn lemma_first_eq_ws_prefix(w: Seq<char>, y: Seq<char>, j: int)
    requires
        forall|k: int| 0 <= k < w.len() ==> is_ws(#[trigger] w[k]),
        0 <= j <= w.len(),
    ensures
        first_eq(w + y, j) == w.len() + first_eq(y, 0),
    decreases w.len() + y.len() - j,
{
    if j < w.len() {
        assert((w + y)[j] == w[j]);
        assert(is_ws(w[j]));
        lemma_first_eq_ws_prefix(w, y, j + 1);
    } else {
        lemma_first_eq_shift(w, y, 0);
    }
}

proof fn lemma_first_eq_shift(w: Seq<char>, y: Seq<char>, j: int)
    requires
        0 <= j <= y.len(),
    ensures
        first_eq(w + y, w.len() + j) == w.len() + first_eq(y, j),
    decreases y.len() - j,
{
    if j < y.len() {
        assert((w + y)[w.len() + j] == y[j]);
        if y[j] != '=' {
            lemma_first_eq_shift(w, y, j + 1);
        }
    }
}

proof fn lemma_first_eq_bound(y: Seq<char>, j: int)
    requires
        0 <= j <= y.len(),
    ensures
        j <= first_eq(y, j) <= y.len(),
    decreases y.len() - j,
{
    if j < y.len() && y[j] != '=' {
        lemma_first_eq_bound(y, j + 1);
    }
}

/// Whitespace in front of a record's text does not change its key.
proof fn lemma_key_ws_prefix(w: Seq<char>, y: Seq<char>)
    requires
        forall|k: int| 0 <= k < w.len() ==> is_ws(#[trigger] w[k]),
    ensures
        key_of_text(w + y) == key_of_text(y),
{
    lemma_first_eq_ws_prefix(w, y, 0);
    lemma_first_eq_bound(y, 0);
    let p = first_eq(y, 0);
    if p < y.len() {
        assert((w + y).subrange(0, w.len() + p) =~= w + y.subrange(0, p));
        lemma_trim_start_ws_prefix(w, y.subrange(0, p));
    }
}

proof fn lemma_joined_concat(x: Seq<Seq<char>>, y: Seq<Seq<char>>)
    ensures
        joined(x + y) == joined(x) + joined(y),
    decreases y.len(),
{
    if y.len() == 0 {
        assert(x + y =~= x);
        assert(joined(x) + joined(y) =~= joined(x));
    } else {
        assert((x + y).drop_last() =~= x + y.drop_last());
        lemma_joined_concat(x, y.drop_last());
        assert(joined(x) + joined(y) =~= joined(x) + joined(y.drop_last()) + y.last() + seq![
            '\n',
        ]);
    }
}

proof fn lemma_joined_blank(x: Seq<Seq<char>>)
    requires
        forall|k: int| 0 <= k < x.len() ==> is_blank(#[trigger] x[k]),
    ensures
        forall|j: int| 0 <= j < joined(x).len() ==> is_ws(#[trigger] joined(x)[j]),
    decreases x.len(),
{
    if x.len() > 0 {
        assert forall|k: int| 0 <= k < x.drop_last().len() implies is_blank(
            #[trigger] x.drop_last()[k],
        ) by {
            assert(x.drop_last()[k] == x[k]);
        }
        lemma_joined_blank(x.drop_last());
        assert(is_blank(x[x.len() - 1]));
        lemma_blank_all_ws(x.last());
        let a = joined(x.drop_last());
        assert forall|j: int| 0 <= j < joined(x).len() implies is_ws(#[trigger] joined(x)[j]) by {
            if j < a.len() {
                assert(joined(x)[j] == a[j]);
            } else if j < a.len() + x.last().len() {
                assert(joined(x)[j] == x.last()[j - a.len()]);
            } else {
                assert(joined(x)[j] == '\n');
            }
        }
    }
}

/// Blank lines in front of a record's lines do not change its key.
proof fn lemma_key_blank_lines_prefix(x: Seq<Seq<char>>, body: Seq<Seq<char>>)
    requires
        forall|k: int| 0 <= k < x.len() ==> is_blank(#[trigger] x[k]),
    ensures
        key_of_text(joined(x + body)) == key_of_text(joined(body)),
{
    lemma_joined_concat(x, body);
    lemma_joined_blank(x);
    lemma_key_ws_prefix(joined(x), joined(body));
}

/// Blank lines stand only at the front of `raw`.
pub open spec fn blanks_lead(raw: Seq<Seq<char>>) -> bool {
    forall|i: int, j: int|
        0 <= i < j < raw.len() && is_blank(#[trigger] raw[j]) ==> is_blank(#[trigger] raw[i])
}

/// A record with its blank runs collapsed.
pub open spec fn tidied(r: Record) -> Record {
    Record { key: r.key, raw: collapse_blanks(r.raw) }
}

/// A record without its leading blank lines.
pub open spec fn stripped(r: Record) -> Record {
    Record { key: r.key, raw: strip_leading_blanks(r.raw) }
}

/// The records that a normalized run of records is made of: each one collapsed, and the first
/// without its leading blank lines.
pub open spec fn settled(rs: Seq<Record>) -> Seq<Record> {
    if rs.len() == 0 {
        rs
    } else {
        seq![stripped(tidied(rs[0]))] + rs.drop_first().map_values(|r: Record| tidied(r))
    }
}

proof fn lemma_collapse_blank_run(x: Seq<Seq<char>>)
    requires
        x.len() > 0,
        forall|k: int| 0 <= k < x.len() ==> is_blank(#[trigger] x[k]),
    ensures
        collapse_blanks(x) == seq![Seq::<char>::empty()],
    decreases x.len(),
{
    assert(is_blank(x[x.len() - 1]));
    if x.len() > 1 {
        assert forall|k: int| 0 <= k < x.drop_last().len() implies is_blank(
            #[trigger] x.drop_last()[k],
        ) by {
            assert(x.drop_last()[k] == x[k]);
        }
        lemma_collapse_blank_run(x.drop_last());
        assert(is_blank(Seq::<char>::empty()));
        assert(seq![Seq::<char>::empty()].last() == Seq::<char>::empty());
    } else {
        assert(x.drop_last() =~= Seq::<Seq<char>>::empty());
        assert(collapse_blanks(x.drop_last()) =~= Seq::<Seq<char>>::empty());
        assert(Seq::<Seq<char>>::empty().push(Seq::<char>::empty()) =~= seq![Seq::<char>::empty()]);
    }
}

proof fn lemma_collapse_then_text(a: Seq<Seq<char>>, b: Seq<Seq<char>>)
    requires
        forall|k: int| 0 <= k < b.len() ==> !is_blank(#[trigger] b[k]),
    ensures
        collapse_blanks(a + b) == collapse_blanks(a) + b,
    decreases b.len(),
{
    if b.len() == 0 {
        assert(a + b =~= a);
        assert(collapse_blanks(a) + b =~= collapse_blanks(a));
    } else {
        assert((a + b).drop_last() =~= a + b.drop_last());
        assert(!is_blank(b[b.len() - 1]));
        assert forall|k: int| 0 <= k < b.drop_last().len() implies !is_blank(
            #[trigger] b.drop_last()[k],
        ) by {
            assert(b.drop_last()[k] == b[k]);
        }
        lemma_collapse_then_text(a, b.drop_last());
        assert(collapse_blanks(a) + b =~= (collapse_blanks(a) + b.drop_last()).push(b.last()));
    }
}

proof fn lemma_collapse_concat(a: Seq<Seq<char>>, b: Seq<Seq<char>>)
    requires
        a.len() > 0,
        !is_blank(a.last()),
    ensures
        collapse_blanks(a + b) == collapse_blanks(a) + collapse_blanks(b),
    decreases b.len(),
{
    lemma_collapse_tidy(a);
    if b.len() == 0 {
        assert(a + b =~= a);
        assert(collapse_blanks(a) + collapse_blanks(b) =~= collapse_blanks(a));
    } else {
        assert((a + b).drop_last() =~= a + b.drop_last());
        lemma_collapse_concat(a, b.drop_last());
        let ca = collapse_blanks(a);
        let cb = collapse_blanks(b.drop_last());
        assert((a + b).last() == b.last());
        if cb.len() > 0 {
            assert((ca + cb).last() == cb.last());
        } else {
            assert(ca + cb =~= ca);
        }
        assert((ca + cb).push(Seq::empty()) =~= ca + cb.push(Seq::empty()));
        assert((ca + cb).push(b.last()) =~= ca + cb.push(b.last()));
    }
}

proof fn lemma_strip_leading_concat(a: Seq<Seq<char>>, b: Seq<Seq<char>>)
    requires
        a.len() > 0,
        !is_blank(a.last()),
    ensures
        strip_leading_blanks(a + b) == strip_leading_blanks(a) + b,
    decreases a.len(),
{
    assert((a + b)[0] == a[0]);
    if is_blank(a[0]) {
        assert(a.len() > 1);
        assert((a + b).drop_first() =~= a.drop_first() + b);
        assert(a.drop_first().last() == a.last());
        lemma_strip_leading_concat(a.drop_first(), b);
    }
}

proof fn lemma_strip_leading_blank_run(x: Seq<Seq<char>>, b: Seq<Seq<char>>)
    requires
        forall|k: int| 0 <= k < x.len() ==> is_blank(#[trigger] x[k]),
    ensures
        strip_leading_blanks(x + b) == strip_leading_blanks(b),
    decreases x.len(),
{
    if x.len() > 0 {
        assert((x + b)[0] == x[0]);
        assert((x + b).drop_first() =~= x.drop_first() + b);
        assert forall|k: int| 0 <= k < x.drop_first().len() implies is_blank(
            #[trigger] x.drop_first()[k],
        ) by {
            assert(x.drop_first()[k] == x[k + 1]);
        }
        lemma_strip_leading_blank_run(x.drop_first(), b);
    } else {
        assert(x + b =~= b);
    }
}

/// A well-read record whose blank lines lead: they are followed by lines of text alone.
proof fn lemma_record_shape(r: Record) -> (k: int)
    requires
        well_read(r),
        blanks_lead(r.raw),
    ensures
        0 <= k < r.raw.len(),
        forall|j: int| 0 <= j < k ==> is_blank(#[trigger] r.raw[j]),
        forall|j: int| k <= j < r.raw.len() ==> !is_blank(#[trigger] r.raw[j]),
        r.raw == r.raw.subrange(0, k) + r.raw.subrange(k, r.raw.len() as int),
        collapse_blanks(r.raw) == collapse_blanks(r.raw.subrange(0, k)) + r.raw.subrange(
            k,
            r.raw.len() as int,
        ),
        strip_leading_blanks(collapse_blanks(r.raw)) == r.raw.subrange(k, r.raw.len() as int),
{
    let raw = r.raw;
    let k = lemma_strip_leading(raw);
    assert(raw[raw.len() - 1] == raw.last());
    assert(!is_blank(raw.last()));
    assert forall|j: int| k <= j < raw.len() implies !is_blank(#[trigger] raw[j]) by {
        if is_blank(raw[j]) && k < j {
            assert(is_blank(raw[k]));
        }
    }
    let x = raw.subrange(0, k);
    let body = raw.subrange(k, raw.len() as int);
    assert(raw =~= x + body);
    assert forall|j: int| 0 <= j < body.len() implies !is_blank(#[trigger] body[j]) by {
        assert(body[j] == raw[k + j]);
    }
    assert forall|j: int| 0 <= j < x.len() implies is_blank(#[trigger] x[j]) by {
        assert(x[j] == raw[j]);
    }
    lemma_collapse_then_text(x, body);
    if k > 0 {
        lemma_collapse_blank_run(x);
    } else {
        assert(x =~= Seq::<Seq<char>>::empty());
    }
    let cx = collapse_blanks(x);
    assert forall|j: int| 0 <= j < cx.len() implies is_blank(#[trigger] cx[j]) by {
        assert(is_blank(Seq::<char>::empty()));
    }
    lemma_strip_leading_blank_run(cx, body);
    assert(body[0] == raw[k]);
    k
}

/// Replacing a well-read record's leading blank lines by other blank lines keeps it well read,
/// with the same key.
proof fn lemma_well_read_reblank(r: Record, k: int, c: Seq<Seq<char>>)
    requires
        well_read(r),
        0 <= k < r.raw.len(),
        forall|j: int| 0 <= j < k ==> is_blank(#[trigger] r.raw[j]),
        forall|j: int| 0 <= j < c.len() ==> is_blank(#[trigger] c[j]),
    ensures
        well_read(Record { key: r.key, raw: c + r.raw.subrange(k, r.raw.len() as int) }),
{
    let raw = r.raw;
    let x = raw.subrange(0, k);
    let body = raw.subrange(k, raw.len() as int);
    let nr = c + body;
    assert(raw =~= x + body);
    assert forall|j: int| 0 <= j < x.len() implies is_blank(#[trigger] x[j]) by {
        assert(x[j] == raw[j]);
    }
    lemma_key_blank_lines_prefix(x, body);
    lemma_key_blank_lines_prefix(c, body);
    assert forall|j: int| 0 <= j < nr.len() - 1 implies !ends_record(#[trigger] nr[j]) by {
        if j < c.len() {
            assert(is_blank(c[j]));
            assert(is_passive(nr[j]));
        } else {
            assert(nr[j] == raw[k + j - c.len()]);
        }
    }
    assert(nr.last() == raw.last());
}

/// Normalizing a run of well-read records whose blank lines lead gives the run of their settled
/// forms, which are well read with the same keys.
proof fn lemma_normalized_flatten(rs: Seq<Record>)
    requires
        forall|k: int| 0 <= k < rs.len() ==> well_read(#[trigger] rs[k]),
        forall|k: int| 0 <= k < rs.len() ==> blanks_lead((#[trigger] rs[k]).raw),
    ensures
        normalized(flatten(rs)) == flatten(settled(rs)),
        settled(rs).len() == rs.len(),
        forall|k: int| 0 <= k < rs.len() ==> well_read(#[trigger] settled(rs)[k]),
        forall|k: int| 0 <= k < rs.len() ==> (#[trigger] settled(rs)[k]).key == rs[k].key,
        rs.len() > 0 ==> !is_blank(settled(rs)[0].raw[0]),
{
    lemma_settled_records(rs);
    if rs.len() == 0 {
        assert(flatten(rs) =~= Seq::<Seq<char>>::empty());
        assert(collapse_blanks(flatten(rs)) =~= Seq::<Seq<char>>::empty());
    } else {
        assert forall|k: int| 0 <= k < rs.len() implies (#[trigger] rs[k]).raw.len() > 0
            && !is_blank(rs[k].raw.last()) by {
            assert(well_read(rs[k]));
        }
        lemma_collapse_flatten(rs);
        let t = rs.map_values(|r: Record| tidied(r));
        lemma_flatten_front(t);
        let k = lemma_record_shape(rs[0]);
        let t0 = t[0].raw;
        assert(t0 == collapse_blanks(rs[0].raw));
        assert(t0.last() == rs[0].raw.last()) by {
            lemma_collapse_tidy(rs[0].raw);
            assert(rs[0].raw[rs[0].raw.len() - 1] == rs[0].raw.last());
        }
        assert(t0.len() > 0);
        lemma_strip_leading_concat(t0, flatten(t.drop_first()));
        assert(t.drop_first() =~= rs.drop_first().map_values(|r: Record| tidied(r)));
        lemma_flatten_front(settled(rs));
        assert(settled(rs).drop_first() =~= t.drop_first());
        let f = flatten(settled(rs));
        let last_rec = settled(rs).last();
        assert(settled(rs)[settled(rs).len() - 1] == last_rec);
        assert(well_read(last_rec));
        assert(f == flatten(settled(rs).drop_last()) + last_rec.raw);
        assert(f.last() == last_rec.raw.last());
        assert(last_rec.raw[last_rec.raw.len() - 1] == last_rec.raw.last());
        assert(!is_blank(f.last()));
    }
}

proof fn lemma_settled_records(rs: Seq<Record>)
    requires
        forall|k: int| 0 <= k < rs.len() ==> well_read(#[trigger] rs[k]),
        forall|k: int| 0 <= k < rs.len() ==> blanks_lead((#[trigger] rs[k]).raw),
    ensures
        settled(rs).len() == rs.len(),
        forall|k: int| 0 <= k < rs.len() ==> well_read(#[trigger] settled(rs)[k]),
        forall|k: int| 0 <= k < rs.len() ==> (#[trigger] settled(rs)[k]).key == rs[k].key,
        rs.len() > 0 ==> !is_blank(settled(rs)[0].raw[0]),
{
    if rs.len() > 0 {
        let st = settled(rs);
        assert forall|i: int| 0 <= i < rs.len() implies well_read(#[trigger] st[i]) && st[i].key
            == rs[i].key by {
            let r = rs[i];
            assert(well_read(r));
            assert(blanks_lead(r.raw));
            let k = lemma_record_shape(r);
            let body = r.raw.subrange(k, r.raw.len() as int);
            if i == 0 {
                lemma_well_read_reblank(r, k, Seq::empty());
                assert(Seq::<Seq<char>>::empty() + body =~= body);
                assert(st[0] == stripped(tidied(r)));
            } else {
                let x = r.raw.subrange(0, k);
                assert forall|j: int| 0 <= j < x.len() implies is_blank(#[trigger] x[j]) by {
                    assert(x[j] == r.raw[j]);
                }
                if k > 0 {
                    lemma_collapse_blank_run(x);
                } else {
                    assert(x =~= Seq::<Seq<char>>::empty());
                }
                let cx = collapse_blanks(x);
                assert forall|j: int| 0 <= j < cx.len() implies is_blank(#[trigger] cx[j]) by {
                    assert(is_blank(Seq::<char>::empty()));
                }
                lemma_well_read_reblank(r, k, cx);
                assert(st[i] == tidied(rs.drop_first()[i - 1]));
                assert(rs.drop_first()[i - 1] == r);
            }
        }
        let k0 = lemma_record_shape(rs[0]);
        assert(st[0].raw[0] == rs[0].raw[k0]);
    }
}

proof fn lemma_collapse_flatten(rs: Seq<Record>)
    requires
        forall|k: int| 0 <= k < rs.len() ==> (#[trigger] rs[k]).raw.len() > 0 && !is_blank(
            rs[k].raw.last(),
        ),
    ensures
        collapse_blanks(flatten(rs)) == flatten(rs.map_values(|r: Record| tidied(r))),
    decreases rs.len(),
{
    let t = rs.map_values(|r: Record| tidied(r));
    if rs.len() > 0 {
        let init = rs.drop_last();
        assert forall|k: int| 0 <= k < init.len() implies (#[trigger] init[k]).raw.len() > 0
            && !is_blank(init[k].raw.last()) by {
            assert(init[k] == rs[k]);
        }
        lemma_collapse_flatten(init);
        assert(t.drop_last() =~= init.map_values(|r: Record| tidied(r)));
        assert(rs[rs.len() - 1] == rs.last());
        if init.len() == 0 {
            assert(flatten(init) =~= Seq::<Seq<char>>::empty());
            assert(flatten(rs) =~= rs.last().raw);
            assert(flatten(t.drop_last()) =~= Seq::<Seq<char>>::empty());
            assert(flatten(t) =~= t.last().raw);
        } else {
            assert(init[init.len() - 1] == init.last());
            assert(flatten(init) == flatten(init.drop_last()) + init.last().raw);
            assert(flatten(init).last() == init.last().raw.last());
            lemma_collapse_concat(flatten(init), rs.last().raw);
        }
    } else {
        assert(flatten(rs) =~= Seq::<Seq<char>>::empty());
        assert(collapse_blanks(flatten(rs)) =~= Seq::<Seq<char>>::empty());
        assert(flatten(t) =~= Seq::<Seq<char>>::empty());
    }
}

proof fn lemma_trim_end_prefix(s: Seq<char>) -> (j: int)
    ensures
        0 <= j <= s.len(),
        trim_end(s) == s.subrange(0, j),
    decreases s.len(),
{
    if s.len() > 0 && is_ws(s.last()) {
        let j = lemma_trim_end_prefix(s.drop_last());
        assert(s.drop_last().subrange(0, j) =~= s.subrange(0, j));
        j
    } else {
        assert(s.subrange(0, s.len() as int) =~= s);
        s.len() as int
    }
}

/// The first line of a record's text, where it is not blank and a key is read from the text,
/// opens that key: it is no comment.
proof fn lemma_key_first_line(raw: Seq<Seq<char>>)
    requires
        raw.len() > 0,
        !is_blank(raw[0]),
        key_of_text(joined(raw)) is Some,
    ensures
        !is_comment(raw[0]),
{
    let l0 = raw[0];
    let jt = joined(raw);
    lemma_joined_front(raw);
    assert(jt == l0 + seq!['\n'] + joined(raw.drop_first()));
    lemma_first_eq_bound(jt, 0);
    let p = first_eq(jt, 0);
    let pre = jt.subrange(0, p);
    assert(extract_key(pre) is Some);
    let k0 = lemma_trim_start_index(l0);
    let kp = lemma_trim_start_index(pre);
    let je = lemma_trim_end_prefix(trim_start(pre));
    assert(trim(pre).len() > 0);
    assert(trim(pre)[0] == '"');
    assert(trim(pre)[0] == pre[kp]);
    assert forall|j: int| 0 <= j < p && j < l0.len() implies #[trigger] pre[j] == l0[j] by {
        assert(pre[j] == jt[j]);
    }
    if p <= k0 {
        assert(is_ws(l0[kp]));
        assert(false);
    }
    if kp < k0 {
        assert(is_ws(l0[kp]));
        assert(false);
    }
    if kp > k0 {
        assert(is_ws(pre[k0]));
        assert(false);
    }
    assert(trim_start(l0)[0] == l0[k0]);
}

/// The first line of a well-read record, where it is not blank, opens its key: it is no comment.
proof fn lemma_first_line_not_comment(r: Record)
    requires
        well_read(r),
        !is_blank(r.raw[0]),
    ensures
        !is_comment(r.raw[0]),
{
    lemma_key_first_line(r.raw);
}

proof fn lemma_collapse_lines_ok(s: Seq<Seq<char>>)
    requires
        forall|k: int| 0 <= k < s.len() ==> line_ok(#[trigger] s[k]),
    ensures
        forall|k: int|
            0 <= k < collapse_blanks(s).len() ==> line_ok(#[trigger] collapse_blanks(s)[k]),
    decreases s.len(),
{
    if s.len() > 0 {
        assert forall|k: int| 0 <= k < s.drop_last().len() implies line_ok(
            #[trigger] s.drop_last()[k],
        ) by {
            assert(s.drop_last()[k] == s[k]);
        }
        lemma_collapse_lines_ok(s.drop_last());
        assert(line_ok(s[s.len() - 1]));
        assert(line_ok(Seq::<char>::empty()));
        let r = collapse_blanks(s.drop_last());
        assert forall|k: int| 0 <= k < collapse_blanks(s).len() implies line_ok(
            #[trigger] collapse_blanks(s)[k],
        ) by {
            if k < r.len() {
                assert(collapse_blanks(s)[k] == r[k]);
            }
        }
    }
}

/// Every line of a normalized sequence can be split back into, where every line it came from can.
proof fn lemma_normalized_lines_ok(s: Seq<Seq<char>>)
    requires
        forall|k: int| 0 <= k < s.len() ==> line_ok(#[trigger] s[k]),
    ensures
        forall|k: int| 0 <= k < normalized(s).len() ==> line_ok(#[trigger] normalized(s)[k]),
{
    let c = collapse_blanks(s);
    lemma_collapse_lines_ok(s);
    let k = lemma_strip_leading(c);
    let a = c.subrange(k, c.len() as int);
    let j = lemma_strip_trailing(a);
    assert forall|i: int| 0 <= i < normalized(s).len() implies line_ok(
        #[trigger] normalized(s)[i],
    ) by {
        assert(normalized(s)[i] == c[k + i]);
    }
}

proof fn lemma_flatten_lines_ok(rs: Seq<Record>)
    requires
        forall|k: int| 0 <= k < rs.len() ==> records_settle_one(#[trigger] rs[k]),
    ensures
        forall|k: int| 0 <= k < flatten(rs).len() ==> line_ok(#[trigger] flatten(rs)[k]),
    decreases rs.len(),
{
    if rs.len() > 0 {
        assert forall|k: int| 0 <= k < rs.drop_last().len() implies records_settle_one(
            #[trigger] rs.drop_last()[k],
        ) by {
            assert(rs.drop_last()[k] == rs[k]);
        }
        lemma_flatten_lines_ok(rs.drop_last());
        let a = flatten(rs.drop_last());
        assert(records_settle_one(rs[rs.len() - 1]));
        assert forall|k: int| 0 <= k < flatten(rs).len() implies line_ok(
            #[trigger] flatten(rs)[k],
        ) by {
            if k < a.len() {
                assert(flatten(rs)[k] == a[k]);
            } else {
                assert(flatten(rs)[k] == rs.last().raw[k - a.len()]);
            }
        }
    }
}

/// A record whose blank lines lead, and each of whose lines can be split back into.
pub open spec fn records_settle_one(r: Record) -> bool {
    &&& blanks_lead(r.raw)
    &&& forall|j: int| 0 <= j < r.raw.len() ==> line_ok(#[trigger] r.raw[j])
}

/// Every record of `rs` has its blank lines in front, and no line that ends in a carriage return.
pub open spec fn records_settle(rs: Seq<Record>) -> bool {
    forall|k: int| 0 <= k < rs.len() ==> records_settle_one(#[trigger] rs[k])
}

/// The second run, where the target opens with no comment block.
proof fn lemma_rerun_plain(original: Seq<char>, target: Seq<char>)
    requires
        keys_unique(parse_text(original)),
        header_block(lines_of(target)).len() == 0,
        records_settle(parse_text(original)),
        records_settle(parse_text(target)),
    ensures
        reconciled(parse_text(original), joined(reconciled(parse_text(original), target)))
            == reconciled(parse_text(original), target),
{
    let o = parse_text(original);
    let t = parse_text(target);
    let m = merged(o, t);
    lemma_records_well_read(lines_of(original), 0);
    lemma_records_well_read(lines_of(target), 0);
    assert forall|i: int| 0 <= i < m.len() implies well_read(#[trigger] m[i]) && records_settle_one(
        m[i],
    ) && m[i].key == o[i].key by {
        lemma_find_key(t, o[i].key, 0);
        lemma_chosen_key(o[i], t);
        assert(m[i] == chosen(o[i], t));
        let j = find_key(t, o[i].key, 0);
        if j < t.len() {
            assert(m[i] == t[j]);
        }
    }
    let x = flatten(m);
    assert(header_block(lines_of(target)) + x =~= x);
    let out1 = reconciled(o, target);
    assert(out1 == normalized(x));
    lemma_normalized_flatten(m);
    let st = settled(m);
    assert(out1 == flatten(st));
    lemma_flatten_lines_ok(m);
    lemma_normalized_lines_ok(x);
    lemma_lines_of_joined(out1);
    lemma_parse_flatten(st);
    // The output opens with no comment block.
    assert(header_block(out1).len() == 0) by {
        if st.len() > 0 {
            assert(out1.subrange(0, out1.len() as int) =~= out1);
            lemma_records_from_flatten(out1, 0, st);
            lemma_flatten_front(st);
            assert(out1[0] == st[0].raw[0]);
            lemma_first_line_not_comment(st[0]);
            assert(first_text_line(out1, 0) == 0);
            assert(header_end(out1, 0) == 0);
            assert(out1.take(0) =~= Seq::<Seq<char>>::empty());
        } else {
            assert(out1.len() == 0);
            assert(out1.take(0) =~= Seq::<Seq<char>>::empty());
        }
    }
    // Each original key finds its own settled record.
    assert forall|i: int| 0 <= i < o.len() implies #[trigger] merged(o, st)[i] == st[i] by {
        lemma_find_key(st, o[i].key, 0);
        let j = find_key(st, o[i].key, 0);
        if j < i {
            assert(st[j].key == o[j].key);
            assert(o[j].key != o[i].key);
        }
        if j > i {
            assert(st[i].key != o[i].key);
        }
    }
    assert(merged(o, st) =~= st);
    assert(header_block(out1) + flatten(st) =~= out1);
    lemma_normalized_idempotent(x);
}

proof fn lemma_comment_lines_all(s: Seq<Seq<char>>)
    ensures
        forall|k: int| 0 <= k < comment_lines(s).len() ==> is_comment(#[trigger] comment_lines(s)[k]),
    decreases s.len(),
{
    if s.len() > 0 {
        lemma_comment_lines_all(s.drop_last());
        let r = comment_lines(s.drop_last());
        assert forall|k: int| 0 <= k < comment_lines(s).len() implies is_comment(
            #[trigger] comment_lines(s)[k],
        ) by {
            if k < r.len() {
                assert(comment_lines(s)[k] == r[k]);
            }
        }
    }
}

proof fn lemma_comment_lines_fixed(c: Seq<Seq<char>>)
    requires
        forall|k: int| 0 <= k < c.len() ==> is_comment(#[trigger] c[k]),
    ensures
        comment_lines(c) == c,
    decreases c.len(),
{
    if c.len() > 0 {
        assert forall|k: int| 0 <= k < c.drop_last().len() implies is_comment(
            #[trigger] c.drop_last()[k],
        ) by {
            assert(c.drop_last()[k] == c[k]);
        }
        lemma_comment_lines_fixed(c.drop_last());
        assert(is_comment(c[c.len() - 1]));
        assert(c.drop_last().push(c.last()) =~= c);
    }
}

/// Reading from a comment line finds nothing that starts there, so it goes on at the next line.
proof fn lemma_skip_comments(lines: Seq<Seq<char>>, j: int, n: int)
    requires
        0 <= j <= n <= lines.len(),
        forall|i: int| j <= i < n ==> is_comment(#[trigger] lines[i]),
    ensures
        records_from(lines, j) == records_from(lines, n),
        header_end(lines, j) == header_end(lines, n),
    decreases n - j,
{
    if j < n {
        lemma_record_end(lines, j);
        let e = record_end(lines, j);
        assert(is_comment(lines[j]));
        if e < lines.len() {
            let raw = lines.subrange(j, e + 1);
            assert(raw[0] == lines[j]);
            if key_of_text(joined(raw)) is Some {
                lemma_key_first_line(raw);
            }
        }
        assert(entry_at(lines, j).0 is None);
        lemma_skip_comments(lines, j + 1, n);
    }
}

proof fn lemma_collapse_blank_front(b: Seq<char>, f: Seq<Seq<char>>)
    requires
        is_blank(b),
        f.len() > 0,
        is_blank(f[0]),
    ensures
        collapse_blanks(seq![b] + f) == collapse_blanks(f),
    decreases f.len(),
{
    assert(is_blank(Seq::<char>::empty()));
    if f.len() == 1 {
        assert((seq![b] + f).drop_last() =~= seq![b]);
        assert(seq![b].drop_last() =~= Seq::<Seq<char>>::empty());
        assert(f.drop_last() =~= Seq::<Seq<char>>::empty());
        lemma_collapse_blank_run(seq![b]);
        lemma_collapse_blank_run(f);
        assert((seq![b] + f).last() == f[0]);
        assert(f.last() == f[0]);
    } else {
        assert((seq![b] + f).drop_last() =~= seq![b] + f.drop_last());
        assert(f.drop_last()[0] == f[0]);
        lemma_collapse_blank_front(b, f.drop_last());
        assert((seq![b] + f).last() == f.last());
        assert(collapse_blanks(seq![b] + f) == collapse_blanks(f));
    }
}

proof fn lemma_tidied_record(r: Record)
    requires
        well_read(r),
        blanks_lead(r.raw),
    ensures
        well_read(tidied(r)),
        tidied(r).key == r.key,
{
    let k = lemma_record_shape(r);
    let x = r.raw.subrange(0, k);
    assert forall|j: int| 0 <= j < x.len() implies is_blank(#[trigger] x[j]) by {
        assert(x[j] == r.raw[j]);
    }
    if k > 0 {
        lemma_collapse_blank_run(x);
    } else {
        assert(x =~= Seq::<Seq<char>>::empty());
    }
    let cx = collapse_blanks(x);
    assert forall|j: int| 0 <= j < cx.len() implies is_blank(#[trigger] cx[j]) by {
        assert(is_blank(Seq::<char>::empty()));
    }
    lemma_well_read_reblank(r, k, cx);
}

/// The second run, where the target opens with a comment block.
#[verifier::rlimit(100)]
proof fn lemma_rerun_with_header(original: Seq<char>, target: Seq<char>)
    requires
        keys_unique(parse_text(original)),
        header_block(lines_of(target)).len() > 0,
        forall|k: int|
            0 <= k < header_block(lines_of(target)).len() ==> line_ok(
                #[trigger] header_block(lines_of(target))[k],
            ),
        records_settle(parse_text(original)),
        records_settle(parse_text(target)),
    ensures
        reconciled(parse_text(original), joined(reconciled(parse_text(original), target)))
            == reconciled(parse_text(original), target),
{
    let o = parse_text(original);
    let t = parse_text(target);
    let m = merged(o, t);
    let tl = lines_of(target);
    let c = comment_lines(tl.take(header_end(tl, 0)));
    let hb = header_block(tl);
    assert(c.len() > 0);
    assert(hb == c.push(Seq::empty()));
    lemma_comment_lines_all(tl.take(header_end(tl, 0)));
    assert forall|k: int| 0 <= k < c.len() implies !is_blank(#[trigger] c[k]) by {
        assert(is_comment(c[k]));
    }
    assert(blanks_tidy(c));
    lemma_collapse_tidy_fixed(c);
    assert(c[c.len() - 1] == c.last());
    lemma_records_well_read(lines_of(original), 0);
    lemma_records_well_read(lines_of(target), 0);
    assert forall|i: int| 0 <= i < m.len() implies well_read(#[trigger] m[i]) && records_settle_one(
        m[i],
    ) && m[i].key == o[i].key by {
        lemma_find_key(t, o[i].key, 0);
        lemma_chosen_key(o[i], t);
        assert(m[i] == chosen(o[i], t));
        let j = find_key(t, o[i].key, 0);
        if j < t.len() {
            assert(m[i] == t[j]);
        }
    }
    let x = hb + flatten(m);
    let out1 = reconciled(o, target);
    assert(out1 == normalized(x));
    assert forall|k: int| 0 <= k < x.len() implies line_ok(#[trigger] x[k]) by {
        lemma_flatten_lines_ok(m);
        if k >= hb.len() {
            assert(x[k] == flatten(m)[k - hb.len()]);
        } else {
            assert(x[k] == hb[k]);
        }
    }
    lemma_normalized_lines_ok(x);
    lemma_lines_of_joined(out1);
    lemma_normalized_idempotent(x);
    let out2 = reconciled(o, joined(out1));
    assert(out2 == normalized(header_block(out1) + flatten(merged(o, parse_lines(out1)))));
    if m.len() == 0 {
        assert(flatten(m) =~= Seq::<Seq<char>>::empty());
        assert(x =~= c.push(Seq::empty()));
        lemma_collapse_concat(c, seq![Seq::<char>::empty()]);
        lemma_collapse_blank_run(seq![Seq::<char>::empty()]);
        assert(x =~= c + seq![Seq::<char>::empty()]);
        assert(collapse_blanks(x) =~= c.push(Seq::empty()));
        assert((c.push(Seq::empty()))[0] == c[0]);
        assert(strip_leading_blanks(collapse_blanks(x)) == c.push(Seq::empty()));
        assert(is_blank(Seq::<char>::empty()));
        assert(c.push(Seq::empty()).drop_last() =~= c);
        assert(c.push(Seq::<char>::empty()).last() == Seq::<char>::empty());
        assert(strip_trailing_blanks(c.push(Seq::empty())) == strip_trailing_blanks(c));
        assert(!is_blank(c.last()));
        assert(strip_trailing_blanks(c) == c);
        assert(out1 == c);
        lemma_skip_comments(out1, 0, out1.len() as int);
        assert(parse_lines(out1) =~= Seq::<Record>::empty());
        assert(merged(o, parse_lines(out1)) =~= Seq::<Record>::empty());
        assert(out1.take(out1.len() as int) =~= out1);
        lemma_comment_lines_fixed(c);
        assert(header_block(out1) + flatten(merged(o, parse_lines(out1))) =~= x);
    } else {
        // The empty line after the comments joins the first record's leading blank lines.
        let m0 = m[0];
        let raw1 = seq![Seq::<char>::empty()] + m0.raw;
        assert(is_blank(Seq::<char>::empty()));
        assert(line_ok(Seq::<char>::empty()));
        lemma_well_read_reblank(m0, 0, seq![Seq::<char>::empty()]);
        assert(m0.raw.subrange(0, m0.raw.len() as int) =~= m0.raw);
        let n0 = Record { key: m0.key, raw: raw1 };
        assert(records_settle_one(n0)) by {
            assert(records_settle_one(m0));
            assert forall|i: int, j: int|
                0 <= i < j < raw1.len() && is_blank(#[trigger] raw1[j]) implies is_blank(
                #[trigger] raw1[i],
            ) by {
                if i > 0 {
                    assert(raw1[i] == m0.raw[i - 1]);
                    assert(raw1[j] == m0.raw[j - 1]);
                }
            }
            assert forall|j: int| 0 <= j < raw1.len() implies line_ok(#[trigger] raw1[j]) by {
                if j > 0 {
                    assert(raw1[j] == m0.raw[j - 1]);
                }
            }
        }
        let mm = m.update(0, n0);
        assert forall|i: int| 0 <= i < mm.len() implies well_read(#[trigger] mm[i])
            && records_settle_one(mm[i]) && mm[i].key == o[i].key by {
            if i > 0 {
                assert(mm[i] == m[i]);
            }
        }
        lemma_flatten_front(m);
        lemma_flatten_front(mm);
        assert(mm.drop_first() =~= m.drop_first());
        let fm = flatten(mm);
        assert(x =~= c + fm);
        let tt = mm.map_values(|r: Record| tidied(r));
        assert forall|k: int| 0 <= k < mm.len() implies (#[trigger] mm[k]).raw.len() > 0
            && !is_blank(mm[k].raw.last()) by {
            assert(well_read(mm[k]));
        }
        lemma_collapse_flatten(mm);
        assert forall|i: int| 0 <= i < tt.len() implies well_read(#[trigger] tt[i]) && tt[i].key
            == o[i].key by {
            lemma_tidied_record(mm[i]);
        }
        lemma_collapse_concat(c, fm);
        let ft = flatten(tt);
        assert(collapse_blanks(x) == c + ft);
        assert((c + ft)[0] == c[0]);
        assert(strip_leading_blanks(c + ft) == c + ft);
        // The last line of text stays last.
        let lastr = mm.last();
        assert(mm[mm.len() - 1] == lastr);
        lemma_collapse_tidy(lastr.raw);
        assert(lastr.raw[lastr.raw.len() - 1] == lastr.raw.last());
        assert(tt[tt.len() - 1] == tidied(lastr));
        assert(tt.last() == tidied(lastr));
        assert(ft == flatten(tt.drop_last()) + tt.last().raw);
        assert((c + ft).last() == lastr.raw.last());
        assert(out1 == c + ft);
        // The first settled record opens with one empty line, then its line of text.
        let k = lemma_record_shape(n0);
        assert(k >= 1);
        let xb = raw1.subrange(0, k);
        let body = raw1.subrange(k, raw1.len() as int);
        assert forall|j: int| 0 <= j < xb.len() implies is_blank(#[trigger] xb[j]) by {
            assert(xb[j] == raw1[j]);
        }
        lemma_collapse_blank_run(xb);
        assert(tt[0] == tidied(n0));
        assert(tt[0].raw == seq![Seq::<char>::empty()] + body);
        lemma_key_blank_lines_prefix(xb, body);
        assert(raw1 =~= xb + body);
        assert(body[0] == raw1[k]);
        lemma_key_first_line(body);
        lemma_flatten_front(tt);
        assert(out1[c.len() as int] == Seq::<char>::empty());
        assert(out1[c.len() as int + 1] == body[0]);
        assert(!is_passive(out1[c.len() as int + 1]));
        // Reading the first run's output gives its settled records back.
        assert forall|i: int| 0 <= i < c.len() implies is_comment(#[trigger] out1[i]) by {
            assert(out1[i] == c[i]);
        }
        lemma_skip_comments(out1, 0, c.len() as int);
        assert(out1.subrange(c.len() as int, out1.len() as int) =~= ft);
        lemma_records_from_flatten(out1, c.len() as int, tt);
        assert(parse_lines(out1) == tt);
        assert(first_text_line(out1, c.len() as int + 1) == c.len() + 1);
        assert(header_end(out1, 0) == c.len() + 1);
        assert(out1.take(c.len() as int + 1) =~= c.push(Seq::empty()));
        lemma_comment_lines_fixed(c);
        assert(comment_lines(c.push(Seq::empty())) == c) by {
            assert(c.push(Seq::empty()).drop_last() =~= c);
        }
        assert(header_block(out1) == c.push(Seq::empty()));
        // Each original key finds its own record.
        assert forall|i: int| 0 <= i < o.len() implies #[trigger] merged(o, tt)[i] == tt[i] by {
            lemma_find_key(tt, o[i].key, 0);
            let j = find_key(tt, o[i].key, 0);
            if j < i {
                assert(tt[j].key == o[j].key);
                assert(o[j].key != o[i].key);
            }
            if j > i {
                assert(tt[i].key != o[i].key);
            }
        }
        assert(merged(o, tt) =~= tt);
        // The header's empty line merges with the first record's.
        let y = header_block(out1) + ft;
        assert(ft[0] == Seq::<char>::empty());
        assert(y =~= c + (seq![Seq::<char>::empty()] + ft));
        lemma_collapse_concat(c, seq![Seq::<char>::empty()] + ft);
        lemma_collapse_blank_front(Seq::<char>::empty(), ft);
        lemma_collapse_concat(c, ft);
        assert(collapse_blanks(y) == collapse_blanks(out1));
    }
}

/// Reconciling a second time, against the same original, the text that the first reconciliation
/// wrote gives the same lines again. This holds where the original's keys are unique, no line of
/// the target's leading comments ends in a carriage return, and in the records of both files blank
/// lines stand only before the first line of text and no line ends in a carriage return.
pub proof fn lemma_rerun_changes_nothing(original: Seq<char>, target: Seq<char>)
    requires
        keys_unique(parse_text(original)),
        forall|k: int|
            0 <= k < header_block(lines_of(target)).len() ==> line_ok(
                #[trigger] header_block(lines_of(target))[k],
            ),
        records_settle(parse_text(original)),
        records_settle(parse_text(target)),
    ensures
        reconciled(parse_text(original), joined(reconciled(parse_text(original), target)))
            == reconciled(parse_text(original), target),
{
    if header_block(lines_of(target)).len() == 0 {
        lemma_rerun_plain(original, target);
    } else {
        lemma_rerun_with_header(original, target);
    }
}

} // verus!
