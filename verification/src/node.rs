//! The nodes of the trie, and what a tree of them stores.
//!
//! A node stands for the characters that lead to it from the root: the last
//! characters of every pattern stored at or below it. What the tree stores
//! is told by walking it, one character at a time from the end of a pattern.

use vstd::prelude::*;
use vstd::seq_lib::lemma_seq_concat_contains_all_elements;
use crate::decompose::{below, lemma_placed_by_last, lemma_placed_empty};
use crate::pattern::{SEPARATOR, canonical, is_wildcard, placed};
use crate::text::{char_at, reversed_string};

verus! {

/// What ends at a node of the trie.
#[derive(Clone, Copy, Debug, PartialEq, Eq, Structural)]
pub(crate) enum TrieNodeEnd {
    /// No pattern ends here.
    Continue,
    /// An absolute pattern ends here.
    Absolute,
    /// A wildcard pattern ends here.
    Wildcard,
}

/// A child of a node, with the character that leads to it.
#[derive(Debug)]
pub(crate) struct Edge {
    pub(crate) label: char,
    pub(crate) node: TrieNode,
}

/// One position along the paths of the trie.
#[derive(Debug)]
pub(crate) struct TrieNode {
    pub(crate) end: TrieNodeEnd,
    pub(crate) children: Vec<Edge>,
}

/// A line ends with `c` and then `suffix` if it ends with `suffix` and has
/// `c` just before it.
pub(crate) proof fn lemma_suffix_by_first(c: char, suffix: Seq<char>, line: Seq<char>)
    ensures
        (seq![c] + suffix).is_suffix_of(line) == (suffix.is_suffix_of(line) && line.len()
            > suffix.len() && line[line.len() - suffix.len() - 1] == c),
{
    let longer = seq![c] + suffix;
    if longer.is_suffix_of(line) {
        let tail = line.subrange(line.len() - longer.len(), line.len() as int);
        assert(tail[0] == c);
        assert(suffix =~= line.subrange(line.len() - suffix.len(), line.len() as int)) by {
            assert forall|i: int| 0 <= i < suffix.len() implies suffix[i] == line[line.len()
                - suffix.len() + i] by {
                assert(longer[i + 1] == tail[i + 1]);
            }
        }
    }
}

/// The entry that a pattern of the given kind leaves where it ends.
pub(crate) open spec fn entry_of(wild: bool) -> TrieNodeEnd {
    if wild {
        TrieNodeEnd::Wildcard
    } else {
        TrieNodeEnd::Absolute
    }
}

impl TrieNode {
    /// The position among the children of the one reached by `c`.
    pub(crate) open spec fn index_of(self, c: char) -> Option<int> {
        if exists|i: int| 0 <= i < self.children.len() && self.children[i].label == c {
            Some(choose|i: int| 0 <= i < self.children.len() && self.children[i].label == c)
        } else {
            None
        }
    }

    /// The child reached by `c`.
    pub(crate) open spec fn step(self, c: char) -> Option<TrieNode> {
        match self.index_of(c) {
            Some(i) => Some(self.children[i].node),
            None => None,
        }
    }

    /// The node reached from here by the characters of `s`, taken from the
    /// last to the first.
    pub(crate) open spec fn walk(self, s: Seq<char>) -> Option<TrieNode>
        decreases s.len(),
    {
        if s.len() == 0 {
            Some(self)
        } else {
            match self.step(s.last()) {
                Some(child) => child.walk(s.drop_last()),
                None => None,
            }
        }
    }

    /// What ends at the node reached by `s`; nothing where there is no such
    /// node.
    pub(crate) open spec fn lookup(self, s: Seq<char>) -> TrieNodeEnd {
        match self.walk(s) {
            Some(node) => node.end,
            None => TrieNodeEnd::Continue,
        }
    }

    /// The patterns that end at or below this node, each without the
    /// characters that lead from the root to this node.
    pub(crate) open spec fn stored(self) -> Set<Seq<char>> {
        Set::new(|s: Seq<char>| self.lookup(s) != TrieNodeEnd::Continue)
    }

    /// No two children are reached by the same character; a wildcard has no
    /// children and is reached by the separator; an absolute entry is not
    /// reached by the separator, nor has it a wildcard child.
    pub(crate) open spec fn wf(self) -> bool
        decreases self,
    {
        &&& self.end == TrieNodeEnd::Wildcard ==> self.children.len() == 0
        &&& forall|i: int, j: int|
            0 <= i < j < self.children.len() ==> self.children[i].label != self.children[j].label
        &&& forall|i: int|
            0 <= i < self.children.len() ==> {
                let e = #[trigger] self.children[i];
                &&& e.node.wf()
                &&& e.node.end == TrieNodeEnd::Wildcard ==> e.label == SEPARATOR
                    && self.end != TrieNodeEnd::Absolute
                &&& e.node.end == TrieNodeEnd::Absolute ==> e.label != SEPARATOR
            }
    }

    /// A child of a well-formed node is well formed, and what ends at it
    /// agrees with the character that leads to it.
    pub(crate) proof fn lemma_step(self, c: char)
        requires
            self.wf(),
        ensures
            match self.step(c) {
                Some(child) => {
                    &&& child.wf()
                    &&& child.end == TrieNodeEnd::Wildcard ==> c == SEPARATOR && self.end
                        != TrieNodeEnd::Absolute
                    &&& child.end == TrieNodeEnd::Absolute ==> c != SEPARATOR
                    &&& self.end != TrieNodeEnd::Wildcard
                },
                None => true,
            },
    {
        match self.index_of(c) {
            Some(i) => {
            },
            None => {},
        }
    }

    /// Walking `t + s` is walking `s` and then `t`.
    pub(crate) proof fn lemma_walk_concat(self, t: Seq<char>, s: Seq<char>)
        ensures
            self.walk(t + s) == match self.walk(s) {
                Some(node) => node.walk(t),
                None => None,
            },
        decreases s.len(),
    {
        if s.len() == 0 {
        } else {
            assert((t + s).drop_last() =~= t + s.drop_last());
            match self.step(s.last()) {
                Some(child) => child.lemma_walk_concat(t, s.drop_last()),
                None => {},
            }
        }
    }

    /// Walking one character is one step.
    pub(crate) proof fn lemma_walk_one(self, c: char)
        ensures
            self.walk(seq![c]) == self.step(c),
    {
        let s = seq![c];
        assert(s.drop_last() =~= Seq::<char>::empty());
        match self.step(c) {
            Some(child) => {
                assert(child.walk(Seq::<char>::empty()) == Some(child));
            },
            None => {},
        }
    }

    /// Walking `s` with `c` in front is walking `s` and then one step.
    pub(crate) proof fn lemma_walk_front(self, c: char, s: Seq<char>)
        ensures
            self.walk(seq![c] + s) == match self.walk(s) {
                Some(node) => node.step(c),
                None => None,
            },
    {
        self.lemma_walk_concat(seq![c], s);
        match self.walk(s) {
            Some(node) => node.lemma_walk_one(c),
            None => {},
        }
    }

    /// A node reached from a well-formed node is well formed, and what ends
    /// at it agrees with the first character of the pattern that leads to it.
    pub(crate) proof fn lemma_walk_wf(self, s: Seq<char>)
        requires
            self.wf(),
        ensures
            match self.walk(s) {
                Some(node) => {
                    &&& node.wf()
                    &&& s.len() > 0 && node.end == TrieNodeEnd::Wildcard ==> s[0] == SEPARATOR
                    &&& s.len() > 0 && node.end == TrieNodeEnd::Absolute ==> s[0] != SEPARATOR
                },
                None => true,
            },
        decreases s.len(),
    {
        if s.len() > 0 {
            match self.step(s.last()) {
                Some(child) => {
                    child.lemma_walk_wf(s.drop_last());
                },
                None => {},
            }
        }
    }

    /// The patterns stored in a well-formed trie are in canonical form.
    pub(crate) proof fn lemma_canonical(self)
        requires
            self.wf(),
            self.end == TrieNodeEnd::Continue,
        ensures
            canonical(self.stored()),
    {
        let s = self.stored();
        assert forall|p: Seq<char>, q: Seq<char>|
            #![trigger s.contains(p), s.contains(q)]
            s.contains(p) && is_wildcard(p) && s.contains(q) && p.is_suffix_of(q) implies q
            == p by {
            let u = q.take(q.len() - p.len());
            assert(u + p =~= q);
            self.lemma_walk_concat(u, p);
            self.lemma_walk_wf(p);
        }
        assert forall|p: Seq<char>| #[trigger] s.contains(p) && is_wildcard(p) implies !s.contains(
            p.skip(1),
        ) by {
            let d = p.skip(1);
            assert(seq![SEPARATOR] + d =~= p);
            self.lemma_walk_front(SEPARATOR, d);
            self.lemma_walk_wf(d);
        }
    }

    /// The stored patterns of a node, told by their last character.
    pub(crate) proof fn lemma_stored_by_last(self)
        ensures
            self.stored().contains(Seq::<char>::empty()) == (self.end != TrieNodeEnd::Continue),
            forall|t: Seq<char>, d: char|
                self.stored().contains(#[trigger] t.push(d)) == match self.step(d) {
                    Some(child) => child.stored().contains(t),
                    None => false,
                },
    {
        assert forall|t: Seq<char>, d: char|
            self.stored().contains(#[trigger] t.push(d)) == match self.step(d) {
                Some(child) => child.stored().contains(t),
                None => false,
            } by {
            let q = t.push(d);
            assert(q.drop_last() =~= t);
        }
    }

    /// The patterns stored below a child are those that the node stores
    /// with the child's character at their end.
    pub(crate) proof fn lemma_below(self, c: char)
        ensures
            below(self.stored(), c) == match self.step(c) {
                Some(child) => child.stored(),
                None => Set::<Seq<char>>::empty(),
            },
    {
        self.lemma_stored_by_last();
    }

    /// What a node stores once one of its children has had the rest of a
    /// pattern placed below it.
    pub(crate) proof fn lemma_place_below(self, after: TrieNode, p: Seq<char>, wild: bool, j: int)
        requires
            self.wf(),
            after.wf(),
            p.len() > 0,
            0 <= j < self.children.len(),
            self.children[j].label == p.last(),
            !(p.last() == SEPARATOR && self.children[j].node.end != TrieNodeEnd::Continue),
            after.children.len() == self.children.len(),
            forall|i: int|
                0 <= i < self.children.len() && i != j ==> after.children[i] == self.children[i],
            after.children[j].label == p.last(),
            after.children[j].node.stored() == placed(
                self.children[j].node.stored(),
                p.drop_last(),
                wild,
            ),
            (after.end != TrieNodeEnd::Continue) == (self.end != TrieNodeEnd::Continue && !(wild
                && p.len() == 1)),
        ensures
            after.stored() == placed(self.stored(), p, wild),
    {
        after.lemma_stored_by_last();
        self.lemma_below(p.last());
        lemma_placed_by_last(self.stored(), after.stored(), p, wild);
    }

    /// What a node stores once it has a new child below which the rest of a
    /// pattern has been placed.
    pub(crate) proof fn lemma_place_beside(self, after: TrieNode, p: Seq<char>, wild: bool)
        requires
            self.wf(),
            after.wf(),
            p.len() > 0,
            self.step(p.last()).is_none(),
            after.children.len() == self.children.len() + 1,
            forall|i: int| 0 <= i < self.children.len() ==> after.children[i] == self.children[i],
            after.children[self.children.len() as int].label == p.last(),
            after.children[self.children.len() as int].node.stored() == placed(
                Set::<Seq<char>>::empty(),
                p.drop_last(),
                wild,
            ),
            (after.end != TrieNodeEnd::Continue) == (self.end != TrieNodeEnd::Continue && !(wild
                && p.len() == 1)),
        ensures
            after.stored() == placed(self.stored(), p, wild),
    {
        self.lemma_stored_by_last();
        after.lemma_stored_by_last();
        lemma_placed_by_last(self.stored(), after.stored(), p, wild);
    }

    /// What a node stores once a pattern ends at it.
    pub(crate) proof fn lemma_place_here(self, after: TrieNode, wild: bool)
        requires
            self.wf(),
            after.end == entry_of(wild),
            after.children@ == if wild {
                Seq::<Edge>::empty()
            } else {
                self.children@
            },
            wild || !self.stored().contains(seq![SEPARATOR]),
        ensures
            after.stored() == placed(self.stored(), Seq::<char>::empty(), wild),
    {
        lemma_placed_empty(self.stored(), wild);
        let e = Seq::<char>::empty();
        let target = if wild {
            set![e]
        } else {
            self.stored().insert(e)
        };
        assert forall|q: Seq<char>| after.stored().contains(q) == target.contains(q) by {
            if q.len() == 0 {
                assert(q =~= e);
            }
        }
    }

    /// The patterns stored at and below this node, in the order in which
    /// they are listed: what ends here first, then what lies below each
    /// child in turn. `suffix` holds the characters that lead here.
    pub(crate) open spec fn listed(self, suffix: Seq<char>) -> Seq<Seq<char>>
        decreases self, self.children.len() + 1,
    {
        let here = if self.end != TrieNodeEnd::Continue {
            seq![suffix]
        } else {
            Seq::<Seq<char>>::empty()
        };
        here + self.listed_below(self.children.len() as int, suffix)
    }

    /// The patterns stored below the first `k` children of this node, in
    /// the order in which they are listed.
    pub(crate) open spec fn listed_below(self, k: int, suffix: Seq<char>) -> Seq<Seq<char>>
        decreases self, k,
    {
        if 0 < k <= self.children.len() {
            let e = self.children[k - 1];
            self.listed_below(k - 1, suffix) + e.node.listed(seq![e.label] + suffix)
        } else {
            Seq::<Seq<char>>::empty()
        }
    }

    /// Whether `line` is a pattern stored at or below this node, followed
    /// by `suffix`.
    pub(crate) open spec fn lists(self, suffix: Seq<char>, line: Seq<char>) -> bool {
        suffix.is_suffix_of(line) && self.stored().contains(line.take(line.len() - suffix.len()))
    }

    /// Whether `line` is a pattern stored below one of the first `k`
    /// children of this node, followed by `suffix`.
    pub(crate) open spec fn lists_below(self, k: int, suffix: Seq<char>, line: Seq<char>) -> bool {
        &&& self.lists(suffix, line)
        &&& line.len() > suffix.len()
        &&& match self.index_of(line[line.len() - suffix.len() - 1]) {
            Some(i) => i < k,
            None => false,
        }
    }

    /// What `listed` holds: each stored pattern once, and nothing else.
    pub(crate) proof fn lemma_listed(self, suffix: Seq<char>)
        requires
            self.wf(),
        ensures
            self.listed(suffix).no_duplicates(),
            forall|line: Seq<char>|
                self.listed(suffix).contains(line) == self.lists(suffix, line),
        decreases self, self.children.len() + 1,
    {
        let n = self.children.len() as int;
        let here = if self.end != TrieNodeEnd::Continue {
            seq![suffix]
        } else {
            Seq::<Seq<char>>::empty()
        };
        let rest = self.listed_below(n, suffix);
        self.lemma_listed_below(n, suffix);
        self.lemma_stored_by_last();
        assert forall|i: int, j: int| 0 <= i < here.len() && 0 <= j < rest.len() implies here[i]
            != rest[j] by {
            assert(self.lists_below(n, suffix, rest[j]));
        }
        assert forall|line: Seq<char>| self.listed(suffix).contains(line) == self.lists(
            suffix,
            line,
        ) by {
            lemma_seq_concat_contains_all_elements(here, rest, line);
            let t = line.take(line.len() - suffix.len());
            assert(rest.contains(line) == self.lists_below(n, suffix, line));
            if self.lists(suffix, line) && t.len() == 0 {
                assert(here[0] == line);
            }
        }
    }

    /// What `listed_below` holds: each pattern stored below one of the
    /// first `k` children once, and nothing else.
    pub(crate) proof fn lemma_listed_below(self, k: int, suffix: Seq<char>)
        requires
            self.wf(),
            0 <= k <= self.children.len(),
        ensures
            self.listed_below(k, suffix).no_duplicates(),
            forall|line: Seq<char>|
                self.listed_below(k, suffix).contains(line) == self.lists_below(k, suffix, line),
        decreases self, k,
    {
        if k > 0 {
            let e = self.children[k - 1];
            let longer = seq![e.label] + suffix;
            let a = self.listed_below(k - 1, suffix);
            let b = e.node.listed(longer);
            self.lemma_listed_below(k - 1, suffix);
            e.node.lemma_listed(longer);
            assert forall|line: Seq<char>| b.contains(line) == (self.lists_below(k, suffix, line)
                && !self.lists_below(k - 1, suffix, line)) by {
                lemma_suffix_by_first(e.label, suffix, line);
                assert(b.contains(line) == e.node.lists(longer, line));
                if suffix.is_suffix_of(line) && line.len() > suffix.len() {
                    let t = line.take(line.len() - suffix.len());
                    assert(t.drop_last() =~= line.take(line.len() - longer.len()));
                }
            }
            assert forall|i: int, j: int| 0 <= i < a.len() && 0 <= j < b.len() implies a[i]
                != b[j] by {
                assert(b.contains(b[j]));
            }
            assert forall|line: Seq<char>| self.listed_below(k, suffix).contains(line)
                == self.lists_below(k, suffix, line) by {
                lemma_seq_concat_contains_all_elements(a, b, line);
                assert(a.contains(line) == self.lists_below(k - 1, suffix, line));
            }
        }
    }

    /// From the root, `listed` holds each stored pattern once, and nothing
    /// else.
    pub(crate) proof fn lemma_lines(self)
        requires
            self.wf(),
        ensures
            self.listed(Seq::<char>::empty()).no_duplicates(),
            self.listed(Seq::<char>::empty()).to_set() == self.stored(),
    {
        let e = Seq::<char>::empty();
        self.lemma_listed(e);
        assert forall|line: Seq<char>| self.lists(e, line) == self.stored().contains(line) by {
            assert(line.take(line.len() - e.len()) =~= line);
        }
    }

    /// A node with no entry and no children: it stores nothing.
    pub(crate) fn new() -> (node: Self)
        ensures
            node.end == TrieNodeEnd::Continue,
            node.children@.len() == 0,
            node.wf(),
            node.stored() == Set::<Seq<char>>::empty(),
    {
        TrieNode { end: TrieNodeEnd::Continue, children: Vec::new() }
    }

    /// The position of the child reached by `c`, if there is one.
    pub(crate) fn find(&self, c: char) -> (found: Option<usize>)
        requires
            self.wf(),
        ensures
            match found {
                Some(i) => i < self.children.len() && self.children[i as int].label == c
                    && self.index_of(c) == Some(i as int) && self.step(c) == Some(
                    self.children[i as int].node,
                ),
                None => self.index_of(c).is_none() && self.step(c).is_none(),
            },
    {
        let mut i: usize = 0;
        while i < self.children.len()
            invariant
                i <= self.children.len(),
                self.wf(),
                forall|k: int| 0 <= k < i ==> self.children[k].label != c,
            decreases self.children.len() - i,
        {
            if self.children[i].label == c {
                return Some(i);
            }
            i += 1;
        }
        None
    }

    /// Whether a wildcard ends at the child reached by the separator.
    pub(crate) fn has_wildcard(&self) -> (found: bool)
        requires
            self.wf(),
        ensures
            found == self.stored().contains(seq![SEPARATOR]),
            !found ==> forall|i: int|
                0 <= i < self.children.len() ==> (#[trigger] self.children[i]).node.end
                    != TrieNodeEnd::Wildcard,
    {
        proof {
            self.lemma_stored_by_last();
            self.lemma_step(SEPARATOR);
            match self.step(SEPARATOR) {
                Some(child) => child.lemma_stored_by_last(),
                None => {},
            }
        }
        match self.find(SEPARATOR) {
            Some(j) => self.children[j].node.end == TrieNodeEnd::Wildcard,
            None => false,
        }
    }

    /// Places the first `n` characters of the pattern `chars` at and below
    /// this node, which the rest of the pattern leads to.
    pub(crate) fn place(&mut self, chars: &Vec<char>, n: usize, wild: bool)
        requires
            old(self).wf(),
            old(self).end != TrieNodeEnd::Wildcard,
            0 < chars.len(),
            n <= chars.len(),
            wild == is_wildcard(chars@),
        ensures
            final(self).wf(),
            final(self).stored() == placed(old(self).stored(), chars@.take(n as int), wild),
            n == 0 ==> final(self).end == old(self).end || final(self).end == entry_of(wild),
            n > 0 ==> final(self).end == old(self).end || final(self).end == TrieNodeEnd::Continue,
        decreases n,
    {
        let ghost before = *self;
        let ghost p = chars@.take(n as int);
        if n == 0 {
            assert(p =~= Seq::<char>::empty());
            if wild {
                self.children = Vec::new();
                self.end = TrieNodeEnd::Wildcard;
            } else {
                if self.has_wildcard() {
                    return ;
                }
                self.end = TrieNodeEnd::Absolute;
            }
            proof {
                before.lemma_place_here(*self, wild);
            }
            return ;
        }
        let c = char_at(chars, n - 1);
        assert(p.drop_last() =~= chars@.take(n - 1));
        match self.find(c) {
            Some(j) => {
                if c == SEPARATOR && self.children[j].node.end == TrieNodeEnd::Wildcard {
                    proof {
                        before.lemma_stored_by_last();
                        assert(p.skip(n - 1) =~= seq![c]);
                    }
                    return ;
                }
                self.children[j].node.place(chars, n - 1, wild);
                if n == 1 && wild && self.end == TrieNodeEnd::Absolute {
                    self.end = TrieNodeEnd::Continue;
                }
                proof {
                    before.lemma_place_below(*self, p, wild, j as int);
                }
            },
            None => {
                let mut child = TrieNode::new();
                child.place(chars, n - 1, wild);
                self.children.push(Edge { label: c, node: child });
                if n == 1 && wild && self.end == TrieNodeEnd::Absolute {
                    self.end = TrieNodeEnd::Continue;
                }
                proof {
                    before.lemma_place_beside(*self, p, wild);
                }
            },
        }
    }
}

/// Appends to `out` the patterns stored at and below `node`, in the order
/// of `listed`. `string_stack` holds the characters that lead from the root
/// to `node`, and is left as it was.
pub(crate) fn print_children(node: &TrieNode, string_stack: &mut Vec<char>, out: &mut Vec<String>)
    ensures
        final(string_stack)@ == old(string_stack)@,
        final(out).deep_view() == old(out).deep_view() + node.listed(
            old(string_stack)@.reverse(),
        ),
    decreases node,
{
    let ghost stack = string_stack@;
    let ghost suffix = string_stack@.reverse();
    let ghost before = out.deep_view();
    let ghost here = if node.end != TrieNodeEnd::Continue {
        seq![suffix]
    } else {
        Seq::<Seq<char>>::empty()
    };
    if node.end != TrieNodeEnd::Continue {
        let line = reversed_string(string_stack);
        out.push(line);
    }
    let mut i: usize = 0;
    while i < node.children.len()
        invariant
            i <= node.children.len(),
            string_stack@ == stack,
            suffix == stack.reverse(),
            out.deep_view() == before + here + node.listed_below(i as int, suffix),
        decreases node.children.len() - i,
    {
        let edge = &node.children[i];
        string_stack.push(edge.label);
        assert(string_stack@.reverse() =~= seq![edge.label] + suffix);
        print_children(&edge.node, string_stack, out);
        string_stack.pop();
        i += 1;
    }
}

} // verus!
