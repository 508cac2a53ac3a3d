//! The plain list of domains: one pattern on each line, with comments.

use vstd::prelude::*;
use crate::parser::{ParseFile, lines_of, split_lines};

verus! {

/// The character that begins a comment line.
pub const COMMENT: char = '#';

/// Whether `line` is a comment: its first character is the comment mark.
pub open spec fn is_comment(line: Seq<char>) -> bool {
    line.len() > 0 && line[0] == COMMENT
}

/// The plain list of domains. Each line that is no comment is a pattern as
/// it stands.
pub struct DomainList {}

impl ParseFile for DomainList {
    open spec fn patterns_of(&self, file: Seq<char>) -> Seq<Seq<char>> {
        lines_of(file).filter(|line: Seq<char>| !is_comment(line))
    }

    fn parse_file(&self, file: &str) -> (patterns: Vec<String>) {
        let lines = split_lines(file);
        let ghost keep = |line: Seq<char>| !is_comment(line);
        let mut patterns: Vec<String> = Vec::new();
        let mut i: usize = 0;
        while i < lines.len()
            invariant
                i <= lines.len(),
                keep == |line: Seq<char>| !is_comment(line),
                patterns.deep_view() == lines.deep_view().take(i as int).filter(keep),
            decreases lines.len() - i,
        {
            let ghost next = lines.deep_view().take(i + 1);
            proof {
                reveal(Seq::filter);
                assert(next.drop_last() =~= lines.deep_view().take(i as int));
            }
            let chars = crate::text::chars_of(lines[i].as_str());
            if !(chars.len() > 0 && crate::text::char_at(&chars, 0) == COMMENT) {
                let line = lines[i].clone();
                patterns.push(line);
            }
            i += 1;
        }
        assert(lines.deep_view().take(i as int) =~= lines.deep_view());
        patterns
    }
}

} // verus!
