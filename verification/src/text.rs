//! Text helpers: the characters of a string, building strings from
//! characters, UTF-8 byte lengths and the line structure of a text.

use vstd::prelude::*;
use vstd::utf8::encode_utf8;

verus! {

/// Number of bytes in the UTF-8 encoding of `s` (what `str::len` returns).
pub open spec fn utf8_len(s: Seq<char>) -> nat {
    encode_utf8(s).len()
}

/// The characters of `s`, in order.
pub fn chars_of(s: &str) -> (v: Vec<char>)
    ensures
        v@ == s@,
{
    let mut v: Vec<char> = Vec::new();
    for c in it: s.chars()
        invariant
            it.seq() == s@,
            v@ == it.seq().take(it.index() as int),
    {
        v.push(c);
    }
    v
}

/// `String::push`: appends one character at the end.
#[verifier::external_body]
pub(crate) fn push_char(s: &mut String, c: char)
    ensures
        final(s)@ == old(s)@.push(c),
{
    s.push(c)
}

/// The string made of the characters `v[from..to]`.
pub fn string_from_chars(v: &Vec<char>, from: usize, to: usize) -> (s: String)
    requires
        from <= to <= v.len(),
    ensures
        s@ == v@.subrange(from as int, to as int),
{
    let mut s = String::new();
    let mut i = from;
    while i < to
        invariant
            from <= i <= to <= v.len(),
            s@ == v@.subrange(from as int, i as int),
        decreases to - i,
    {
        push_char(&mut s, v[i]);
        assert(v@.subrange(from as int, i + 1) == v@.subrange(from as int, i as int).push(v@[i as int]));
        i = i + 1;
    }
    s
}

/// UTF-8 length is additive over concatenation.
pub proof fn lemma_utf8_len_concat(a: Seq<char>, b: Seq<char>)
    ensures
        utf8_len(a + b) == utf8_len(a) + utf8_len(b),
    decreases a.len(),
{
    if a.len() == 0 {
        assert(a + b == b);
    } else {
        assert((a + b).drop_first() == a.drop_first() + b);
        lemma_utf8_len_concat(a.drop_first(), b);
    }
}

/// A newline takes one byte.
pub proof fn lemma_utf8_len_newline()
    ensures
        utf8_len(seq!['\n']) == 1,
{
    assert(seq!['\n'].drop_first() == Seq::<char>::empty());
    assert(encode_utf8(Seq::<char>::empty()) == Seq::<u8>::empty());
}

/// `s` with every `'\n'` removed.
pub open spec fn without_newlines(s: Seq<char>) -> Seq<char>
    decreases s.len(),
{
    if s.len() == 0 {
        seq![]
    } else if s.last() == '\n' {
        without_newlines(s.drop_last())
    } else {
        without_newlines(s.drop_last()).push(s.last())
    }
}

/// Removing the newlines keeps every other character, in order: it is the
/// text filtered by `c != '\n'`.
pub proof fn lemma_without_newlines_filter(s: Seq<char>)
    ensures
        without_newlines(s) == s.filter(|c: char| c != '\n'),
    decreases s.len(),
{
    reveal_with_fuel(Seq::<char>::filter, 1);
    if s.len() > 0 {
        lemma_without_newlines_filter(s.drop_last());
    }
}

/// `s.replace('\n', "")`: the text without its newlines.
pub fn remove_newlines(s: &str) -> (r: String)
    ensures
        r@ == without_newlines(s@),
        r@ == s@.filter(|c: char| c != '\n'),
{
    proof {
        lemma_without_newlines_filter(s@);
    }
    let chars = chars_of(s);
    let mut r = String::new();
    let mut i: usize = 0;
    while i < chars.len()
        invariant
            chars@ == s@,
            i <= chars.len(),
            r@ == without_newlines(chars@.take(i as int)),
        decreases chars.len() - i,
    {
        assert(chars@.take(i + 1).drop_last() == chars@.take(i as int));
        if chars[i] != '\n' {
            push_char(&mut r, chars[i]);
        }
        i = i + 1;
    }
    assert(chars@.take(chars.len() as int) == chars@);
    r
}

/// The part of `path` after its last `'.'`, or all of `path` where it has
/// none: the last piece of `path.split('.')`.
pub open spec fn extension_of(path: Seq<char>) -> Seq<char>
    decreases path.len(),
{
    if path.len() == 0 {
        seq![]
    } else if path.last() == '.' {
        seq![]
    } else {
        extension_of(path.drop_last()).push(path.last())
    }
}

/// The extension is the text after position `k` where no `'.'` follows `k`
/// and `k` is the start or follows a `'.'`.
proof fn lemma_extension_of(path: Seq<char>, k: int)
    requires
        0 <= k <= path.len(),
        k == 0 || path[k - 1] == '.',
        forall|j: int| k <= j < path.len() ==> path[j] != '.',
    ensures
        extension_of(path) == path.subrange(k, path.len() as int),
    decreases path.len(),
{
    if path.len() > 0 {
        if path.len() == k {
            assert(path.last() == '.');
        } else {
            lemma_extension_of(path.drop_last(), k);
            assert(path.subrange(k, path.len() as int) == path.drop_last().subrange(k, path.len() - 1).push(path.last()));
        }
    }
}

/// `path.split('.').last()`: the file extension of `path` (all of `path`
/// where it has no `'.'`).
pub fn file_extension(path: &str) -> (ext: String)
    ensures
        ext@ == extension_of(path@),
        ext@.len() <= path@.len(),
        ext@ == path@.subrange(path@.len() - ext@.len(), path@.len() as int),
        forall|i: int| 0 <= i < ext@.len() ==> ext@[i] != '.',
        ext@.len() < path@.len() ==> path@[path@.len() - ext@.len() - 1] == '.',
{
    let chars = chars_of(path);
    let mut start: usize = 0;
    let mut i: usize = 0;
    while i < chars.len()
        invariant
            chars@ == path@,
            start <= i <= chars.len(),
            start == 0 || chars@[start - 1] == '.',
            forall|j: int| start <= j < i ==> chars@[j] != '.',
        decreases chars.len() - i,
    {
        if chars[i] == '.' {
            start = i + 1;
        }
        i = i + 1;
    }
    proof {
        lemma_extension_of(chars@, start as int);
    }
    string_from_chars(&chars, start, chars.len())
}

/// Whether some string of `list` is `text`.
pub open spec fn listed(list: Seq<String>, text: Seq<char>) -> bool {
    exists|i: int| 0 <= i < list.len() && (#[trigger] list[i])@ == text
}

/// `list.contains(text)` for a vector of strings.
pub fn contains_string(list: &Vec<String>, text: &String) -> (found: bool)
    ensures
        found == listed(list@, text@),
{
    let mut i: usize = 0;
    while i < list.len()
        invariant
            i <= list.len(),
            forall|j: int| 0 <= j < i ==> (#[trigger] list@[j])@ != text@,
        decreases list.len() - i,
    {
        if list[i] == *text {
            assert(list@[i as int]@ == text@);
            return true;
        }
        i = i + 1;
    }
    false
}

/// Index of the first `'\n'` in `s`, or `s.len()` where there is none.
pub open spec fn newline_index(s: Seq<char>) -> nat
    decreases s.len(),
{
    if s.len() == 0 {
        0
    } else if s[0] == '\n' {
        0
    } else {
        1 + newline_index(s.drop_first())
    }
}

/// A line with the `'\r'` of a `"\r\n"` terminator removed.
pub open spec fn strip_cr(l: Seq<char>) -> Seq<char> {
    if l.len() > 0 && l.last() == '\r' {
        l.drop_last()
    } else {
        l
    }
}

/// The lines of `s` as `str::lines` yields them: `s` is split after each
/// `'\n'`; the terminator, `"\n"` or `"\r\n"`, is not part of the line; the
/// final line ending is optional, so a text ending in `'\n'` has no empty
/// last line, and the empty text has no lines at all.
pub open spec fn lines_of(s: Seq<char>) -> Seq<Seq<char>>
    decreases s.len(),
{
    if s.len() == 0 {
        seq![]
    } else {
        let k = newline_index(s);
        if k >= s.len() {
            seq![s]
        } else {
            seq![strip_cr(s.take(k as int))] + lines_of(s.skip((k + 1) as int))
        }
    }
}

/// No line is longer than the text it comes from.
pub proof fn lemma_line_len_bound(s: Seq<char>)
    ensures
        forall|i: int| 0 <= i < lines_of(s).len() ==> utf8_len(#[trigger] lines_of(s)[i]) <= utf8_len(s),
    decreases s.len(),
{
    if s.len() > 0 {
        let k = newline_index(s);
        if k < s.len() {
            let first = s.take(k as int);
            let rest = s.skip((k + 1) as int);
            assert(s == first + s.skip(k as int));
            lemma_utf8_len_concat(first, s.skip(k as int));
            assert(s.skip(k as int) == seq![s[k as int]] + rest);
            lemma_utf8_len_concat(seq![s[k as int]], rest);
            if first.len() > 0 {
                assert(first =~= first.drop_last() + seq![first.last()]);
                lemma_utf8_len_concat(first.drop_last(), seq![first.last()]);
            }
            lemma_line_len_bound(rest);
            assert(utf8_len(strip_cr(first)) <= utf8_len(first));
            assert(lines_of(s) == seq![strip_cr(first)] + lines_of(rest));
            assert forall|i: int| 0 <= i < lines_of(s).len() implies utf8_len(#[trigger] lines_of(s)[i]) <= utf8_len(s) by {
                if i > 0 {
                    assert(lines_of(s)[i] == lines_of(rest)[i - 1]);
                } else {
                    assert(lines_of(s)[i] == strip_cr(first));
                }
            }
        } else {
            assert(lines_of(s) == seq![s]);
        }
    }
}

/// `newline_index` is the position of the first newline.
pub proof fn lemma_newline_index(s: Seq<char>, k: int)
    requires
        0 <= k <= s.len(),
        forall|j: int| 0 <= j < k ==> s[j] != '\n',
        k < s.len() ==> s[k] == '\n',
    ensures
        newline_index(s) == k,
    decreases s.len(),
{
    if s.len() > 0 && k > 0 {
        lemma_newline_index(s.drop_first(), k - 1);
    }
}

/// The views of a vector of strings.
pub open spec fn string_views(v: Seq<String>) -> Seq<Seq<char>> {
    v.map_values(|x: String| x@)
}

/// The lines of `s`, each as a string of its own (`s.lines().collect()`).
pub fn split_lines(s: &str) -> (lines: Vec<String>)
    ensures
        string_views(lines@) == lines_of(s@),
{
    let chars = chars_of(s);
    let ghost cs = chars@;
    let mut lines: Vec<String> = Vec::new();
    let mut start: usize = 0;
    let mut i: usize = 0;
    proof {
        assert(cs.skip(0) == cs);
        assert(string_views(lines@) + lines_of(cs) == lines_of(cs));
    }
    while i < chars.len()
        invariant
            cs == chars@,
            cs == s@,
            start <= i <= chars.len(),
            forall|j: int| start <= j < i ==> cs[j] != '\n',
            string_views(lines@) + lines_of(cs.skip(start as int)) == lines_of(cs),
        decreases chars.len() - i,
    {
        if chars[i] == '\n' {
            let end = if i > start && chars[i - 1] == '\r' { i - 1 } else { i };
            let line = string_from_chars(&chars, start, end);
            proof {
                let t = cs.skip(start as int);
                lemma_newline_index(t, i - start);
                assert(t.take(i - start) == cs.subrange(start as int, i as int));
                assert(t.skip(i - start + 1) == cs.skip(i + 1));
                assert(line@ == strip_cr(cs.subrange(start as int, i as int)));
                assert(string_views(lines@.push(line)) == string_views(lines@).push(line@));
                assert(lines_of(t) == seq![line@] + lines_of(cs.skip(i + 1)));
                assert(string_views(lines@.push(line)) + lines_of(cs.skip(i + 1))
                    == string_views(lines@) + lines_of(t));
            }
            lines.push(line);
            start = i + 1;
        }
        i = i + 1;
    }
    proof {
        let t = cs.skip(start as int);
        lemma_newline_index(t, t.len() as int);
    }
    if start < chars.len() {
        let line = string_from_chars(&chars, start, chars.len());
        proof {
            let t = cs.skip(start as int);
            assert(t == cs.subrange(start as int, cs.len() as int));
            assert(string_views(lines@.push(line)) == string_views(lines@).push(line@));
            assert(lines_of(t) == seq![line@]);
        }
        lines.push(line);
    } else {
        proof {
            assert(cs.skip(start as int).len() == 0);
            assert(string_views(lines@) + lines_of(cs.skip(start as int)) == string_views(lines@));
        }
    }
    lines
}

} // verus!
