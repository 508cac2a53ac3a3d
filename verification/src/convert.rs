//! From the text of a blocklist to the text of the minimal list of patterns
//! that stands for it.

use vstd::prelude::*;
use crate::parser::ParseFile;
use crate::parser::adblockplus::AdblockPlus;
use crate::parser::domainlist::DomainList;
use crate::pattern::{SEPARATOR, after_insert_all, canonical, is_wildcard, wildcard_of};
use crate::text::{char_at, chars_of, joined, prefixed_substring};
use crate::trie::Trie;

verus! {

/// The formats in which a blocklist can be read.
#[derive(Clone, Copy, Debug, PartialEq, Eq, Structural)]
pub enum Format {
    /// The plain list of domains.
    DomainList,
    /// The ad-filter format.
    AdblockPlus,
}

impl Default for Format {
    fn default() -> (format: Self)
        ensures
            format == Format::DomainList,
    {
        Format::DomainList
    }
}

impl ParseFile for Format {
    open spec fn patterns_of(&self, file: Seq<char>) -> Seq<Seq<char>> {
        match self {
            Format::DomainList => (DomainList {  }).patterns_of(file),
            Format::AdblockPlus => (AdblockPlus {  }).patterns_of(file),
        }
    }

    fn parse_file(&self, file: &str) -> (patterns: Vec<String>) {
        match self {
            Format::DomainList => (DomainList {  }).parse_file(file),
            Format::AdblockPlus => (AdblockPlus {  }).parse_file(file),
        }
    }
}

/// The pattern that is inserted for `line`: `line` itself, or, where every
/// pattern is to be a wildcard and `line` is none, the wildcard pattern for
/// `line`.
pub open spec fn marked(line: Seq<char>, wildcard_mark: bool) -> Seq<char> {
    if wildcard_mark && !is_wildcard(line) {
        wildcard_of(line)
    } else {
        line
    }
}

/// The patterns that are inserted for `lines`, in order.
pub open spec fn all_marked(lines: Seq<Seq<char>>, wildcard_mark: bool) -> Seq<Seq<char>> {
    lines.map_values(|line: Seq<char>| marked(line, wildcard_mark))
}

/// The patterns stored once the patterns of a file in the given format
/// have been inserted in order into an empty trie.
pub open spec fn converted(file: Seq<char>, format: Format, wildcard_mark: bool) -> Set<Seq<char>> {
    after_insert_all(
        Set::<Seq<char>>::empty(),
        all_marked(format.patterns_of(file), wildcard_mark),
    )
}

/// The trie into which each of `lines` has been inserted in order, each as
/// a wildcard pattern if `wildcard_mark` is set.
pub fn build_trie(lines: &Vec<String>, wildcard_mark: bool) -> (trie: Trie)
    ensures
        trie@ == after_insert_all(
            Set::<Seq<char>>::empty(),
            all_marked(lines.deep_view(), wildcard_mark),
        ),
        canonical(trie@),
{
    let mut trie = Trie::new();
    let ghost all = all_marked(lines.deep_view(), wildcard_mark);
    let mut i: usize = 0;
    while i < lines.len()
        invariant
            i <= lines.len(),
            all == all_marked(lines.deep_view(), wildcard_mark),
            trie@ == after_insert_all(Set::<Seq<char>>::empty(), all.take(i as int)),
            canonical(trie@),
        decreases lines.len() - i,
    {
        proof {
            let next = all.take(i + 1);
            assert(next.drop_last() =~= all.take(i as int));
        }
        let line = lines[i].as_str();
        if wildcard_mark {
            let chars = chars_of(line);
            if chars.len() > 0 && char_at(&chars, 0) == SEPARATOR {
                trie.insert(line);
            } else {
                let entry = prefixed_substring(SEPARATOR, &chars, 0, chars.len());
                assert(chars@.subrange(0, chars.len() as int) =~= chars@);
                trie.insert(entry.as_str());
            }
        } else {
            trie.insert(line);
        }
        i += 1;
    }
    assert(all.take(i as int) =~= all);
    trie
}

/// The minimal list of patterns for the blocklist `file`: the patterns
/// stored once those of the file have been inserted in order, each on a
/// line of its own, each once, in some order.
pub fn convert(file: &str, format: Format, wildcard_mark: bool) -> (text: String)
    ensures
        exists|lines: Seq<Seq<char>>|
            lines.no_duplicates() && lines.to_set() == converted(file@, format, wildcard_mark)
                && text@ == #[trigger] joined(lines),
{
    let lines = format.parse_file(file);
    let trie = build_trie(&lines, wildcard_mark);
    let text = trie.serialize();
    text
}

} // verus!
