//! Conversions between strings and vectors of characters.

use vstd::prelude::*;
use vstd::string::StringExecFns;

verus! {

/// The character that ends a line of text.
pub const NEWLINE: char = '\n';

/// The text that holds each of `lines` in turn, each followed by a newline.
pub open spec fn joined(lines: Seq<Seq<char>>) -> Seq<char>
    decreases lines.len(),
{
    if lines.len() == 0 {
        Seq::<char>::empty()
    } else {
        joined(lines.drop_last()) + lines.last().push(NEWLINE)
    }
}

/// The characters of `s`, in order.
pub fn chars_of(s: &str) -> (v: Vec<char>)
    ensures
        v@ == s@,
{
    let mut v: Vec<char> = Vec::new();
    for c in it: s.chars()
        invariant
            it.seq() == s@,
            v@ == it.seq().take(it.index()),
    {
        v.push(c);
    }
    v
}

/// The character of `chars` at position `i`.
pub(crate) fn char_at(chars: &Vec<char>, i: usize) -> (c: char)
    requires
        i < chars.len(),
    ensures
        c == chars[i as int],
{
    chars[i]
}

/// Appends `c` to `s`. This is `String::push` of the standard library, of
/// which nothing is proved here: its documentation says that it appends the
/// given character to the end of the string, and the contract says the same.
#[verifier::external_body]
fn push_char(s: &mut String, c: char)
    ensures
        final(s)@ == old(s)@.push(c),
{
    s.push(c);
}

/// The string that holds the characters of `chars` from the last to the
/// first.
pub fn reversed_string(chars: &Vec<char>) -> (s: String)
    ensures
        s@ == chars@.reverse(),
{
    let mut s = String::new();
    let mut i: usize = chars.len();
    while i > 0
        invariant
            i <= chars.len(),
            s@.len() == chars.len() - i,
            forall|k: int| 0 <= k < s@.len() ==> s@[k] == chars@[chars.len() - 1 - k],
        decreases i,
    {
        i -= 1;
        push_char(&mut s, char_at(chars, i));
    }
    s
}

/// The string that holds `c` and then the characters of `chars` from
/// position `from` up to, and without, position `to`.
pub(crate) fn prefixed_substring(c: char, chars: &Vec<char>, from: usize, to: usize) -> (s: String)
    requires
        from <= to <= chars.len(),
    ensures
        s@ == seq![c] + chars@.subrange(from as int, to as int),
{
    let mut s = String::new();
    push_char(&mut s, c);
    let mut i: usize = from;
    while i < to
        invariant
            from <= i <= to <= chars.len(),
            s@ == seq![c] + chars@.subrange(from as int, i as int),
        decreases to - i,
    {
        push_char(&mut s, char_at(chars, i));
        i += 1;
    }
    s
}

/// The string that holds the characters of `chars` from position `from` up
/// to, and without, position `to`.
pub(crate) fn substring(chars: &Vec<char>, from: usize, to: usize) -> (s: String)
    requires
        from <= to <= chars.len(),
    ensures
        s@ == chars@.subrange(from as int, to as int),
{
    let mut s = String::new();
    let mut i: usize = from;
    while i < to
        invariant
            from <= i <= to <= chars.len(),
            s@ == chars@.subrange(from as int, i as int),
        decreases to - i,
    {
        push_char(&mut s, char_at(chars, i));
        i += 1;
    }
    s
}

/// Appends `line` and a newline to `text`.
pub fn push_line(text: &mut String, line: &str)
    ensures
        final(text)@ == old(text)@ + line@.push(NEWLINE),
{
    text.append(line);
    push_char(text, NEWLINE);
}

/// The text that holds each of `lines` in turn, each followed by a newline.
pub fn join_lines(lines: &Vec<String>) -> (text: String)
    ensures
        text@ == joined(lines.deep_view()),
{
    let mut text = String::new();
    let mut i: usize = 0;
    while i < lines.len()
        invariant
            i <= lines.len(),
            text@ == joined(lines.deep_view().take(i as int)),
        decreases lines.len() - i,
    {
        proof {
            let next = lines.deep_view().take(i + 1);
            assert(next.drop_last() =~= lines.deep_view().take(i as int));
        }
        push_line(&mut text, lines[i].as_str());
        i += 1;
    }
    assert(lines.deep_view().take(i as int) =~= lines.deep_view());
    text
}

} // verus!
