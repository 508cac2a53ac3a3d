//! The ad-filter format, of which the rules that block a whole domain are
//! read.

use vstd::prelude::*;
use crate::parser::{ParseFile, lines_of, split_lines};
use crate::pattern::wildcard_of;
use crate::text::{char_at, chars_of, prefixed_substring};
use crate::pattern::SEPARATOR;

verus! {

/// The character that stands twice at the start of a rule for a domain.
pub const ANCHOR: char = '|';

/// The character that ends a rule for a domain.
pub const END_MARK: char = '^';

/// Whether `line` is a rule that blocks a domain: two anchors, the domain,
/// and the end mark.
pub open spec fn is_domain_rule(line: Seq<char>) -> bool {
    line.len() >= 3 && line[0] == ANCHOR && line[1] == ANCHOR && line.last() == END_MARK
}

/// The pattern that a line yields: the wildcard pattern for the domain of a
/// rule that blocks a domain, and none for any other line.
pub open spec fn pattern_of_rule(line: Seq<char>) -> Option<Seq<char>> {
    if is_domain_rule(line) {
        Some(wildcard_of(line.subrange(2, line.len() - 1)))
    } else {
        None
    }
}

/// The lines after the first, which is a header whatever it holds.
pub open spec fn after_header(lines: Seq<Seq<char>>) -> Seq<Seq<char>> {
    if lines.len() > 0 {
        lines.skip(1)
    } else {
        lines
    }
}

/// The ad-filter format. The first line is a header; of the others, each
/// rule that blocks a domain yields the wildcard pattern for that domain.
pub struct AdblockPlus {}

impl ParseFile for AdblockPlus {
    open spec fn patterns_of(&self, file: Seq<char>) -> Seq<Seq<char>> {
        after_header(lines_of(file)).filter_map(|line: Seq<char>| pattern_of_rule(line))
    }

    fn parse_file(&self, file: &str) -> (patterns: Vec<String>) {
        let lines = split_lines(file);
        let ghost rules = after_header(lines.deep_view());
        let ghost pick = |line: Seq<char>| pattern_of_rule(line);
        let mut patterns: Vec<String> = Vec::new();
        if lines.len() == 0 {
            return patterns;
        }
        let mut i: usize = 1;
        while i < lines.len()
            invariant
                1 <= i <= lines.len(),
                rules == lines.deep_view().skip(1),
                pick == |line: Seq<char>| pattern_of_rule(line),
                patterns.deep_view() == rules.take(i - 1).filter_map(pick),
            decreases lines.len() - i,
        {
            let ghost next = rules.take(i as int);
            proof {
                assert(next.drop_last() =~= rules.take(i - 1));
            }
            let chars = chars_of(lines[i].as_str());
            let n = chars.len();
            if n >= 3 && char_at(&chars, 0) == ANCHOR && char_at(&chars, 1) == ANCHOR && char_at(
                &chars,
                n - 1,
            ) == END_MARK {
                let entry = prefixed_substring(SEPARATOR, &chars, 2, n - 1);
                patterns.push(entry);
            }
            i += 1;
        }
        assert(rules.take(i - 1) =~= rules);
        patterns
    }
}

} // verus!
