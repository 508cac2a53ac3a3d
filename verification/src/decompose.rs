//! Stored patterns split by their last character, as a trie splits them among
//! the children of a node.

use vstd::prelude::*;
use crate::pattern::{SEPARATOR, wildcard_of, covered, placed};

verus! {

/// The patterns of `s` that end with `c`, each without that last character.
pub open spec fn below(s: Set<Seq<char>>, c: char) -> Set<Seq<char>> {
    Set::new(|t: Seq<char>| s.contains(t.push(c)))
}

/// A pattern is covered if its last character alone is a stored wildcard, or
/// if the rest of it is covered among the patterns that end with that
/// character.
pub proof fn lemma_covered_by_last(s: Set<Seq<char>>, p: Seq<char>)
    requires
        p.len() > 0,
    ensures
        covered(s, p) == ((p.last() == SEPARATOR && s.contains(seq![p.last()])) || covered(
            below(s, p.last()),
            p.drop_last(),
        )),
{
    let c = p.last();
    let p1 = p.drop_last();
    if covered(s, p) {
        let k = choose|k: int| 0 <= k < p.len() && p[k] == SEPARATOR && s.contains(#[trigger] p.skip(k));
        if k == p.len() - 1 {
            assert(p.skip(k) =~= seq![c]);
        } else {
            assert(p.skip(k) =~= p1.skip(k).push(c));
        }
    }
    if covered(below(s, c), p1) {
        let k = choose|k: int| 0 <= k < p1.len() && p1[k] == SEPARATOR && below(s, c).contains(#[trigger] p1.skip(k));
        assert(p1.skip(k).push(c) =~= p.skip(k));
    }
    if c == SEPARATOR && s.contains(seq![c]) {
        assert(p.skip(p.len() - 1) =~= seq![c]);
    }
}

/// A pattern is a suffix of `t.push(d)` only if it ends with `d`, and then
/// if the rest of it is a suffix of `t`.
pub proof fn lemma_suffix_by_last(p: Seq<char>, t: Seq<char>, d: char)
    requires
        p.len() > 0,
    ensures
        p.is_suffix_of(t.push(d)) == (p.last() == d && p.drop_last().is_suffix_of(t)),
{
    let q = t.push(d);
    let p1 = p.drop_last();
    if p.last() == d && p1.is_suffix_of(t) {
        let tail1 = t.subrange(t.len() - p1.len(), t.len() as int);
        assert(p =~= q.subrange(q.len() - p.len(), q.len() as int)) by {
            assert forall|i: int| 0 <= i < p.len() implies p[i] == q[q.len() - p.len() + i] by {
                if i < p1.len() {
                    assert(p1[i] == tail1[i]);
                }
            }
        }
    }
}

/// Placing a pattern changes the stored patterns as placing the pattern
/// without its last character changes those that end with that character;
/// the others stay, but for the empty pattern, which a wildcard of one
/// character displaces.
pub proof fn lemma_placed_by_last(s: Set<Seq<char>>, r: Set<Seq<char>>, p: Seq<char>, wild: bool)
    requires
        p.len() > 0,
        !(p.last() == SEPARATOR && s.contains(seq![p.last()])),
        r.contains(Seq::<char>::empty()) == (s.contains(Seq::<char>::empty()) && !(wild && p.len()
            == 1)),
        forall|t: Seq<char>, d: char|
            d != p.last() ==> r.contains(#[trigger] t.push(d)) == s.contains(t.push(d)),
        forall|t: Seq<char>|
            r.contains(#[trigger] t.push(p.last())) == placed(
                below(s, p.last()),
                p.drop_last(),
                wild,
            ).contains(t),
    ensures
        r == placed(s, p, wild),
{
    let c = p.last();
    let p1 = p.drop_last();
    lemma_covered_by_last(s, p);
    assert(wildcard_of(p1).push(c) =~= wildcard_of(p));
    assert forall|q: Seq<char>| r.contains(q) == placed(s, p, wild).contains(q) by {
        if q.len() == 0 {
            assert(q =~= Seq::<char>::empty());
            if p.len() == 1 {
                assert(p.skip(1) =~= q);
            }
        } else {
            let t = q.drop_last();
            let d = q.last();
            assert(q =~= t.push(d));
            lemma_suffix_by_last(p, t, d);
            if d == c {
                assert((t == p1) == (q == p)) by {
                    assert(p1.push(c) =~= p);
                }
                if p.len() >= 2 {
                    assert(p1.skip(1).push(c) =~= p.skip(1));
                }
            }
        }
    }
}

/// Placing the empty pattern as a wildcard leaves it alone; placing it as an
/// absolute entry adds it, unless the separator alone is stored.
pub proof fn lemma_placed_empty(s: Set<Seq<char>>, wild: bool)
    ensures
        placed(s, Seq::<char>::empty(), wild) == if wild {
            set![Seq::<char>::empty()]
        } else if s.contains(seq![SEPARATOR]) {
            s
        } else {
            s.insert(Seq::<char>::empty())
        },
{
    let e = Seq::<char>::empty();
    assert(wildcard_of(e) =~= seq![SEPARATOR]);
}

} // verus!
