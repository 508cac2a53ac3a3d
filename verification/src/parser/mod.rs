//! The formats in which a blocklist is read: each yields the patterns of a
//! file in the order in which the file holds them.

use vstd::prelude::*;
use crate::text::{NEWLINE, char_at, chars_of, substring};

pub mod adblockplus;
pub mod domainlist;

verus! {

/// The character that may stand before a newline at the end of a line.
pub const CARRIAGE_RETURN: char = '\r';

/// The position of the first newline of `text`, or its length if it has
/// none.
pub open spec fn first_newline(text: Seq<char>) -> int
    decreases text.len(),
{
    if text.len() == 0 || text[0] == NEWLINE {
        0
    } else {
        1 + first_newline(text.skip(1))
    }
}

/// `line` without the carriage return at its end, if it has one.
pub open spec fn without_return(line: Seq<char>) -> Seq<char> {
    if line.len() > 0 && line.last() == CARRIAGE_RETURN {
        line.drop_last()
    } else {
        line
    }
}

/// The lines of `text`. A line ends with a newline, or with a carriage
/// return and a newline, neither of which belongs to the line; the last
/// line may end with the text instead, and is then kept whole. An empty
/// text has no lines.
pub open spec fn lines_of(text: Seq<char>) -> Seq<Seq<char>>
    decreases text.len(),
{
    if text.len() == 0 {
        Seq::<Seq<char>>::empty()
    } else {
        let k = first_newline(text);
        if 0 <= k < text.len() {
            seq![without_return(text.take(k))] + lines_of(text.skip(k + 1))
        } else {
            seq![text]
        }
    }
}

/// The first newline of a text is where no newline stands before and one
/// stands at, or at the end of a text without one.
pub proof fn lemma_first_newline(text: Seq<char>, k: int)
    requires
        0 <= k <= text.len(),
        forall|i: int| 0 <= i < k ==> text[i] != NEWLINE,
        k < text.len() ==> text[k] == NEWLINE,
    ensures
        first_newline(text) == k,
    decreases text.len(),
{
    if k > 0 {
        lemma_first_newline(text.skip(1), k - 1);
    }
}

/// A source of patterns: a format in which a blocklist is written.
pub trait ParseFile {
    /// The patterns that a file with the text `file` holds, in order.
    spec fn patterns_of(&self, file: Seq<char>) -> Seq<Seq<char>>;

    /// The patterns that `file` holds, in order. A line that the format
    /// does not take for a pattern is passed over.
    fn parse_file(&self, file: &str) -> (patterns: Vec<String>)
        ensures
            patterns.deep_view() == self.patterns_of(file@),
    ;
}

/// The position of the first newline of `chars` at or after `start`, or the
/// length of `chars` if there is none.
fn find_newline(chars: &Vec<char>, start: usize) -> (end: usize)
    requires
        start <= chars.len(),
    ensures
        start <= end <= chars.len(),
        end - start == first_newline(chars@.skip(start as int)),
{
    let mut end: usize = start;
    while end < chars.len() && char_at(chars, end) != NEWLINE
        invariant
            start <= end <= chars.len(),
            forall|i: int| start <= i < end ==> chars[i] != NEWLINE,
        decreases chars.len() - end,
    {
        end += 1;
    }
    proof {
        lemma_first_newline(chars@.skip(start as int), end - start);
    }
    end
}

/// The lines of `text`, as `lines_of` tells them.
pub fn split_lines(text: &str) -> (lines: Vec<String>)
    ensures
        lines.deep_view() == lines_of(text@),
{
    let chars = chars_of(text);
    let mut lines: Vec<String> = Vec::new();
    let mut start: usize = 0;
    assert(chars@.skip(0) =~= chars@);
    while start < chars.len()
        invariant
            start <= chars.len(),
            lines_of(chars@) == lines.deep_view() + lines_of(chars@.skip(start as int)),
        decreases chars.len() - start,
    {
        let ghost rest = chars@.skip(start as int);
        let end = find_newline(&chars, start);
        let mut stop = end;
        if end < chars.len() && start < end && char_at(&chars, end - 1) == CARRIAGE_RETURN {
            stop = end - 1;
        }
        let line = substring(&chars, start, stop);
        lines.push(line);
        proof {
            let k = end - start;
            if end < chars.len() {
                assert(line@ =~= without_return(rest.take(k)));
                assert(rest.skip(k + 1) =~= chars@.skip(end + 1));
            }
        }
        start = if end < chars.len() {
            end + 1
        } else {
            end
        };
    }
    lines
}

} // verus!
