use vstd::prelude::*;

use crate::text::{chars_of, string_of, trim, trim_end_index, trim_start_index};

verus! {

/// `k` with `head` put in front of it, if there is a `k`.
pub open spec fn prefixed(head: Seq<char>, k: Option<Seq<char>>) -> Option<Seq<char>> {
    match k {
        Some(k) => Some(head + k),
        None => None,
    }
}

/// The key read from the characters that follow its opening quote: up to the first quote that is
/// not escaped, where a backslash makes the character after it literal. `None` if the text ends
/// first.
pub open spec fn key_body(s: Seq<char>) -> Option<Seq<char>>
    decreases s.len(),
{
    if s.len() == 0 {
        None
    } else if s[0] == '\\' {
        if s.len() < 2 {
            None
        } else {
            prefixed(seq![s[1]], key_body(s.subrange(2, s.len() as int)))
        }
    } else if s[0] == '"' {
        Some(Seq::empty())
    } else {
        prefixed(seq![s[0]], key_body(s.drop_first()))
    }
}

/// The key of the text before an assignment: the trimmed text must open with a double quote.
pub open spec fn extract_key(text: Seq<char>) -> Option<Seq<char>> {
    let t = trim(text);
    if t.len() > 0 && t[0] == '"' {
        key_body(t.drop_first())
    } else {
        None
    }
}

/// The view of an optional `Vec<char>`.
pub open spec fn opt_chars(o: Option<Vec<char>>) -> Option<Seq<char>> {
    match o {
        Some(v) => Some(v@),
        None => None,
    }
}

/// The view of an optional `String`.
pub open spec fn opt_string(o: Option<String>) -> Option<Seq<char>> {
    match o {
        Some(v) => Some(v@),
        None => None,
    }
}

/// The key in the first `n` characters of `text`.
pub fn extract_key_chars(text: &[char], n: usize) -> (r: Option<Vec<char>>)
    requires
        n <= text@.len(),
    ensures
        opt_chars(r) == extract_key(text@.subrange(0, n as int)),
{
    let lo = trim_start_index(text, n);
    let hi = trim_end_index(text, lo, n);
    if !(lo < hi && text[lo] == '"') {
        return None;
    }
    let ghost body = text@.subrange(lo + 1, hi as int);
    assert(trim(text@.subrange(0, n as int)).drop_first() =~= body);
    let mut key: Vec<char> = Vec::new();
    let mut i: usize = lo + 1;
    while i < hi
        invariant
            lo < i <= hi <= n <= text@.len(),
            body == text@.subrange(lo + 1, hi as int),
            extract_key(text@.subrange(0, n as int)) == key_body(body),
            key_body(body) == prefixed(key@, key_body(text@.subrange(i as int, hi as int))),
        decreases hi - i,
    {
        let ghost rest = text@.subrange(i as int, hi as int);
        let c = text[i];
        if c == '\\' {
            if hi - i < 2 {
                assert(key_body(rest) is None);
                return None;
            }
            assert(rest.subrange(2, rest.len() as int) =~= text@.subrange(i + 2, hi as int));
            assert(key@ + (seq![text@[i + 1]] + key_body(text@.subrange(i + 2, hi as int))->0)
                =~= key@.push(text@[i + 1]) + key_body(text@.subrange(i + 2, hi as int))->0);
            key.push(text[i + 1]);
            i = i + 2;
        } else if c == '"' {
            assert(key@ + Seq::<char>::empty() =~= key@);
            return Some(key);
        } else {
            assert(rest.drop_first() =~= text@.subrange(i + 1, hi as int));
            assert(key@ + (seq![c] + key_body(text@.subrange(i + 1, hi as int))->0)
                =~= key@.push(c) + key_body(text@.subrange(i + 1, hi as int))->0);
            key.push(c);
            i = i + 1;
        }
    }
    None
}

/// The key at the start of `text`: a double-quoted literal, after leading whitespace, in which a
/// backslash makes the next character literal. `None` where the text does not open with a quote
/// or ends before the closing one.
pub fn extract_key_from_text(text: &str) -> (r: Option<String>)
    ensures
        opt_string(r) == extract_key(text@),
{
    let cs = chars_of(text);
    assert(cs@.subrange(0, cs@.len() as int) =~= cs@);
    match extract_key_chars(&cs, cs.len()) {
        Some(k) => Some(string_of(&k)),
        None => None,
    }
}

} // verus!
