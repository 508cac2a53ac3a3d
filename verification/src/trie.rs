//! The suffix trie: characters of a pattern index the tree from the last
//! character of the pattern to the first, so that patterns for one domain and
//! its subdomains share a path from the root.

use vstd::prelude::*;
use crate::node::{TrieNode, TrieNodeEnd, print_children};
use crate::pattern::{SEPARATOR, after_insert, canonical, is_matched, wildcard_of};
use crate::text::{char_at, chars_of, join_lines, joined};

verus! {

/// A set of domain patterns, kept minimal: a pattern that a stored wildcard
/// pattern makes redundant is not stored.
#[derive(Debug)]
pub struct Trie {
    root: TrieNode,
}

impl View for Trie {
    type V = Set<Seq<char>>;

    /// The patterns that the trie stores.
    closed spec fn view(&self) -> Set<Seq<char>> {
        self.root.stored()
    }
}

/// A query whose walk leaves the trie before any wildcard is not matched.
proof fn lemma_match_dead_end(root: TrieNode, w: Seq<char>, i: int)
    requires
        0 <= i < w.len(),
        root.walk(w.skip(i)).is_none(),
        forall|k: int| i < k < w.len() ==> !(w[k] == SEPARATOR && root.stored().contains(#[trigger] w.skip(k))),
    ensures
        !is_matched(root.stored(), w),
{
    let tail = w.skip(i);
    root.lemma_walk_concat(w.take(i), tail);
    assert(w.take(i) + tail =~= w);
    root.lemma_walk_concat(wildcard_of(w.take(i)), tail);
    assert(wildcard_of(w.take(i)) + tail =~= wildcard_of(w));
    assert forall|k: int| 0 <= k <= i implies !root.stored().contains(#[trigger] w.skip(k)) by {
        root.lemma_walk_concat(w.subrange(k, i), tail);
        assert(w.subrange(k, i) + tail =~= w.skip(k));
    }
}

/// At the end of a walk that met no wildcard, the query is matched if an
/// entry ends at the node reached, or a wildcard ends at its child by the
/// separator.
proof fn lemma_match_end(root: TrieNode, cur: TrieNode, w: Seq<char>)
    requires
        root.walk(w) == Some(cur),
        cur.wf(),
        forall|k: int| 0 <= k < w.len() ==> !(w[k] == SEPARATOR && root.stored().contains(#[trigger] w.skip(k))),
    ensures
        is_matched(root.stored(), w) == (cur.end != TrieNodeEnd::Continue || match cur.step(
            SEPARATOR,
        ) {
            Some(child) => child.end == TrieNodeEnd::Wildcard,
            None => false,
        }),
{
    root.lemma_walk_front(SEPARATOR, w);
}

impl Default for Trie {
    /// The trie that stores no pattern.
    fn default() -> (trie: Self)
        ensures
            trie@ == Set::<Seq<char>>::empty(),
    {
        Trie::new()
    }
}

impl Trie {
    /// The tree is well formed, and no pattern ends at its root.
    #[verifier::type_invariant]
    spec fn inv(self) -> bool {
        self.root.wf() && self.root.end == TrieNodeEnd::Continue
    }

    /// The trie that stores no pattern.
    pub fn new() -> (trie: Self)
        ensures
            trie@ == Set::<Seq<char>>::empty(),
    {
        Trie { root: TrieNode::new() }
    }

    /// Inserts the pattern `chars`: as a wildcard pattern if it begins with
    /// the separator, else as an absolute one. The empty pattern is ignored.
    /// A pattern that a stored wildcard pattern covers changes nothing; a
    /// wildcard pattern takes the place of the stored patterns it covers.
    pub fn insert(&mut self, chars: &str)
        ensures
            final(self)@ == after_insert(old(self)@, chars@),
            canonical(final(self)@),
    {
        proof {
            use_type_invariant(&*self);
            self.root.lemma_canonical();
        }
        let p = chars_of(chars);
        if p.len() == 0 {
            return ;
        }
        let wild = char_at(&p, 0) == SEPARATOR;
        let mut root = TrieNode::new();
        std::mem::swap(&mut root, &mut self.root);
        assert(p@.take(p.len() as int) =~= p@);
        root.place(&p, p.len(), wild);
        proof {
            root.lemma_canonical();
        }
        self.root = root;
    }

    /// The stored patterns in the order in which the trie lists them.
    pub closed spec fn lines(&self) -> Seq<Seq<char>> {
        self.root.listed(Seq::<char>::empty())
    }

    /// The stored patterns, each once.
    pub fn patterns(&self) -> (out: Vec<String>)
        ensures
            out.deep_view() == self.lines(),
            self.lines().no_duplicates(),
            self.lines().to_set() == self@,
            canonical(self@),
    {
        proof {
            use_type_invariant(self);
            self.root.lemma_canonical();
            self.root.lemma_lines();
        }
        let mut out: Vec<String> = Vec::new();
        let mut string_stack: Vec<char> = Vec::new();
        print_children(&self.root, &mut string_stack, &mut out);
        out
    }

    /// The stored patterns as text: one pattern on each line.
    pub fn serialize(&self) -> (text: String)
        ensures
            text@ == joined(self.lines()),
            self.lines().no_duplicates(),
            self.lines().to_set() == self@,
            canonical(self@),
    {
        let lines = self.patterns();
        join_lines(&lines)
    }

    /// Whether the stored patterns match `word`: `word` is stored, or a
    /// stored wildcard pattern names `word` or a parent domain of it.
    pub fn matches(&self, word: &str) -> (found: bool)
        ensures
            found == is_matched(self@, word@),
            canonical(self@),
    {
        proof {
            use_type_invariant(self);
            self.root.lemma_canonical();
        }
        let w = chars_of(word);
        let mut cur: &TrieNode = &self.root;
        let mut i: usize = w.len();
        while i > 0
            invariant
                i <= w.len(),
                w@ == word@,
                canonical(self@),
                cur.wf(),
                self.root.walk(w@.skip(i as int)) == Some(*cur),
                forall|k: int|
                    i <= k < w.len() ==> !(w[k] == SEPARATOR && self.root.stored().contains(
                        #[trigger] w@.skip(k),
                    )),
            decreases i,
        {
            let c = char_at(&w, i - 1);
            proof {
                assert(seq![c] + w@.skip(i as int) =~= w@.skip(i - 1));
                self.root.lemma_walk_front(c, w@.skip(i as int));
            }
            match cur.find(c) {
                Some(j) => {
                    cur = &cur.children[j].node;
                    i -= 1;
                    if cur.end == TrieNodeEnd::Wildcard {
                        return true;
                    }
                },
                None => {
                    proof {
                        lemma_match_dead_end(self.root, w@, i - 1);
                    }
                    return false;
                },
            }
        }
        proof {
            assert(w@.skip(0) =~= w@);
            lemma_match_end(self.root, *cur, w@);
        }
        match cur.find(SEPARATOR) {
            Some(j) => {
                if cur.children[j].node.end == TrieNodeEnd::Wildcard {
                    return true;
                }
            },
            None => {},
        }
        cur.end != TrieNodeEnd::Continue
    }
}

} // verus!
