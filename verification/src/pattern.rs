//! The mathematical model of domain patterns and of a set of stored patterns.
//!
//! A pattern is a sequence of characters. One that begins with the separator
//! is a wildcard pattern: it stands for the domain that follows the separator
//! and for every subdomain of it. Any other pattern is absolute and stands for
//! itself alone. A trie is modelled by the set of patterns it stores.

use vstd::prelude::*;

verus! {

/// The character that separates the labels of a domain, and that marks a
/// pattern as covering all subdomains when it leads the pattern.
pub const SEPARATOR: char = '.';

/// A pattern with a leading separator covers the domain named after the
/// separator and every subdomain of it.
pub open spec fn is_wildcard(p: Seq<char>) -> bool {
    p.len() > 0 && p[0] == SEPARATOR
}

/// The wildcard pattern that names the domain `d`.
pub open spec fn wildcard_of(d: Seq<char>) -> Seq<char> {
    seq![SEPARATOR].add(d)
}

/// Some stored wildcard pattern is a suffix of `q`: the domain it names is
/// a strict parent of `q`, or `q` is that pattern itself.
pub open spec fn covered(s: Set<Seq<char>>, q: Seq<char>) -> bool {
    exists|k: int| 0 <= k < q.len() && q[k] == SEPARATOR && s.contains(#[trigger] q.skip(k))
}

/// Whether the query `q` is matched by the stored patterns `s`: it is stored
/// itself, or it is the domain that a stored wildcard pattern names, or a
/// stored wildcard pattern covers it.
pub open spec fn is_matched(s: Set<Seq<char>>, q: Seq<char>) -> bool {
    s.contains(q) || s.contains(wildcard_of(q)) || covered(s, q)
}

/// The stored patterns after `p` has been placed as a wildcard (`wild`) or
/// as an absolute entry.
///
/// Nothing changes where a stored wildcard pattern already covers `p`, nor
/// where `p` is absolute and the wildcard pattern naming it is stored. A
/// wildcard displaces every stored pattern it is a suffix of, and the
/// absolute entry for the domain it names.
pub open spec fn placed(s: Set<Seq<char>>, p: Seq<char>, wild: bool) -> Set<Seq<char>> {
    if covered(s, p) {
        s
    } else if wild {
        s.filter(|q: Seq<char>| !p.is_suffix_of(q) && !(p.len() > 0 && q == p.skip(1))).insert(p)
    } else if s.contains(wildcard_of(p)) {
        s
    } else {
        s.insert(p)
    }
}

/// The stored patterns after the pattern `p` has been inserted. The empty
/// pattern is ignored; the first character of any other decides its kind.
pub open spec fn after_insert(s: Set<Seq<char>>, p: Seq<char>) -> Set<Seq<char>> {
    if p.len() == 0 {
        s
    } else {
        placed(s, p, is_wildcard(p))
    }
}

/// The stored patterns after each pattern of `ps` has been inserted in turn.
pub open spec fn after_insert_all(s: Set<Seq<char>>, ps: Seq<Seq<char>>) -> Set<Seq<char>>
    decreases ps.len(),
{
    if ps.len() == 0 {
        s
    } else {
        after_insert(after_insert_all(s, ps.drop_last()), ps.last())
    }
}

/// What holds of the stored patterns of every trie: the empty pattern is not
/// stored, no stored wildcard pattern is a proper suffix of another stored
/// pattern, and the domain that a stored wildcard pattern names is not
/// stored beside it.
pub open spec fn canonical(s: Set<Seq<char>>) -> bool {
    &&& !s.contains(Seq::<char>::empty())
    &&& forall|p: Seq<char>, q: Seq<char>|
        #![trigger s.contains(p), s.contains(q)]
        s.contains(p) && is_wildcard(p) && s.contains(q) && p.is_suffix_of(q) ==> q == p
    &&& forall|p: Seq<char>| #[trigger] s.contains(p) && is_wildcard(p) ==> !s.contains(p.skip(1))
}

} // verus!
