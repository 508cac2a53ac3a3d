//! What holds of insertion and matching, whatever the patterns: stated over
//! the sets of stored patterns that the contracts of the trie speak of.

use vstd::prelude::*;
use crate::pattern::{SEPARATOR, after_insert, after_insert_all, canonical, covered, is_matched, is_wildcard, wildcard_of};

verus! {

/// Inserting a pattern a second time changes nothing: the stored patterns,
/// and with them every answer to a query, are those after the first time.
pub proof fn insert_is_idempotent(s: Set<Seq<char>>, p: Seq<char>)
    ensures
        after_insert(after_insert(s, p), p) == after_insert(s, p),
        forall|q: Seq<char>|
            is_matched(after_insert(after_insert(s, p), p), q) == is_matched(after_insert(s, p), q),
{
}

/// Once the wildcard pattern for a domain has been inserted, the domain is
/// matched, and inserting the absolute pattern for it changes nothing: the
/// absolute pattern is not stored, before or after.
pub proof fn wildcard_subsumes_absolute(s: Set<Seq<char>>, x: Seq<char>)
    requires
        canonical(s),
        !is_wildcard(x),
    ensures
        is_matched(after_insert(s, wildcard_of(x)), x),
        after_insert(after_insert(s, wildcard_of(x)), x) == after_insert(s, wildcard_of(x)),
        !after_insert(s, wildcard_of(x)).contains(x),
{
    let w = wildcard_of(x);
    assert(w.skip(1) =~= x);
    assert(w.skip(0) =~= w);
    if covered(s, w) {
        let k = choose|k: int| 0 <= k < w.len() && w[k] == SEPARATOR && s.contains(#[trigger] w.skip(k));
        if k > 0 {
            assert(w.skip(k) =~= x.skip(k - 1));
        }
    }
}

/// Inserting the absolute pattern for a domain and then the wildcard pattern
/// for it leaves the domain matched and the absolute pattern not stored. In
/// a trie that was empty, the wildcard pattern is then all that is stored.
pub proof fn wildcard_displaces_absolute(s: Set<Seq<char>>, x: Seq<char>)
    requires
        canonical(s),
        !is_wildcard(x),
    ensures
        is_matched(after_insert(after_insert(s, x), wildcard_of(x)), x),
        !after_insert(after_insert(s, x), wildcard_of(x)).contains(x),
        after_insert(after_insert(Set::<Seq<char>>::empty(), x), wildcard_of(x)) == set![
            wildcard_of(x),
        ],
{
    let w = wildcard_of(x);
    assert(w.skip(1) =~= x);
    assert(w.skip(0) =~= w);
    let s1 = after_insert(s, x);
    if covered(s1, w) {
        let k = choose|k: int| 0 <= k < w.len() && w[k] == SEPARATOR && s1.contains(#[trigger] w.skip(k));
        if k > 0 {
            assert(w.skip(k) =~= x.skip(k - 1));
        }
    }
}

/// A pattern that has just been inserted is matched.
pub proof fn inserted_pattern_is_matched(s: Set<Seq<char>>, p: Seq<char>)
    requires
        p.len() > 0,
    ensures
        is_matched(after_insert(s, p), p),
{
}

/// A query is covered by a wildcard pattern that is stored and is a suffix
/// of it.
proof fn lemma_covered_by_suffix(s: Set<Seq<char>>, p: Seq<char>, q: Seq<char>)
    requires
        is_wildcard(p),
        s.contains(p),
        p.is_suffix_of(q),
    ensures
        covered(s, q),
{
}

/// Insertion takes no answer back: a query that was matched is matched
/// after any insertion.
pub proof fn insert_keeps_matches(s: Set<Seq<char>>, p: Seq<char>, q: Seq<char>)
    requires
        is_matched(s, q),
    ensures
        is_matched(after_insert(s, p), q),
{
    let r = after_insert(s, p);
    if p.len() > 0 && !covered(s, p) && is_wildcard(p) {
        assert(wildcard_of(p.skip(1)) =~= p);
        if s.contains(q) {
            // displaced, `q` has `p` as a suffix or is the domain that `p` names
        } else if s.contains(wildcard_of(q)) && !r.contains(wildcard_of(q)) {
            let w = wildcard_of(q);
            assert(p.is_suffix_of(q)) by {
                if p.len() == w.len() {
                    assert(w.subrange(0, w.len() as int) =~= w);
                }
            }
        } else if covered(s, q) {
            let k = choose|k: int| 0 <= k < q.len() && q[k] == SEPARATOR && s.contains(#[trigger] q.skip(k));
            let x = q.skip(k);
            if !r.contains(x) {
                lemma_covered_by_suffix(r, p, q);
            }
        }
    }
}

/// The last label of a pattern: the characters after its last separator.
pub open spec fn last_label(p: Seq<char>) -> Seq<char>
    decreases p.len(),
{
    if p.len() == 0 || p.last() == SEPARATOR {
        Seq::<char>::empty()
    } else {
        last_label(p.drop_last()).push(p.last())
    }
}

/// A pattern keeps its last label when the characters before one of its
/// separators are taken away.
proof fn lemma_label_of_suffix(q: Seq<char>, k: int)
    requires
        0 <= k < q.len(),
        q[k] == SEPARATOR,
    ensures
        last_label(q.skip(k)) == last_label(q),
    decreases q.len(),
{
    let t = q.skip(k);
    if q.last() != SEPARATOR {
        assert(t.drop_last() =~= q.drop_last().skip(k));
        lemma_label_of_suffix(q.drop_last(), k);
    }
}

/// A pattern keeps its last label when a separator is put in front of it.
proof fn lemma_label_of_wildcard(q: Seq<char>)
    ensures
        last_label(wildcard_of(q)) == last_label(q),
    decreases q.len(),
{
    let w = wildcard_of(q);
    if q.len() == 0 {
    } else {
        if q.last() != SEPARATOR {
            assert(w.drop_last() =~= wildcard_of(q.drop_last()));
            lemma_label_of_wildcard(q.drop_last());
        }
    }
}

/// A pattern that has a wildcard pattern as a suffix has its last label.
proof fn lemma_label_of_covered(p: Seq<char>, x: Seq<char>)
    requires
        is_wildcard(p),
        p.is_suffix_of(x),
    ensures
        last_label(x) == last_label(p),
{
    let k = x.len() - p.len();
    lemma_label_of_suffix(x, k);
}

/// Insertion of `p` stores or drops only patterns that have the last label
/// of `p`.
proof fn lemma_insert_is_local(s: Set<Seq<char>>, p: Seq<char>, x: Seq<char>)
    requires
        last_label(x) != last_label(p),
    ensures
        after_insert(s, p).contains(x) == s.contains(x),
{
    if is_wildcard(p) {
        assert(wildcard_of(p.skip(1)) =~= p);
        lemma_label_of_wildcard(p.skip(1));
        if p.is_suffix_of(x) {
            lemma_label_of_covered(p, x);
        }
    }
}

/// Whether a query is matched rests only on the stored patterns that have
/// its last label.
proof fn lemma_match_is_local(s: Set<Seq<char>>, r: Set<Seq<char>>, q: Seq<char>)
    requires
        forall|x: Seq<char>| last_label(x) == last_label(q) ==> s.contains(x) == r.contains(x),
    ensures
        covered(s, q) == covered(r, q),
        s.contains(wildcard_of(q)) == r.contains(wildcard_of(q)),
        is_matched(s, q) == is_matched(r, q),
{
    lemma_label_of_wildcard(q);
    if covered(s, q) {
        let k = choose|k: int| 0 <= k < q.len() && q[k] == SEPARATOR && s.contains(#[trigger] q.skip(k));
        lemma_label_of_suffix(q, k);
    }
    if covered(r, q) {
        let k = choose|k: int| 0 <= k < q.len() && q[k] == SEPARATOR && r.contains(#[trigger] q.skip(k));
        lemma_label_of_suffix(q, k);
    }
}

/// What insertion of `q` does to the patterns that have its last label
/// rests only on those patterns.
proof fn lemma_insert_rests_on_label(s: Set<Seq<char>>, r: Set<Seq<char>>, q: Seq<char>, x: Seq<char>)
    requires
        forall|y: Seq<char>| last_label(y) == last_label(q) ==> s.contains(y) == r.contains(y),
        last_label(x) == last_label(q),
    ensures
        after_insert(s, q).contains(x) == after_insert(r, q).contains(x),
{
    lemma_match_is_local(s, r, q);
}

/// Patterns whose last labels differ do not interact: inserting one neither
/// stores nor drops the other, changes no answer to a query for the other,
/// and the two can be inserted in either order.
pub proof fn unrelated_patterns_do_not_interact(s: Set<Seq<char>>, p: Seq<char>, q: Seq<char>)
    requires
        last_label(p) != last_label(q),
    ensures
        after_insert(s, p).contains(q) == s.contains(q),
        is_matched(after_insert(s, p), q) == is_matched(s, q),
        after_insert(after_insert(s, p), q) == after_insert(after_insert(s, q), p),
{
    let sp = after_insert(s, p);
    let sq = after_insert(s, q);
    assert forall|x: Seq<char>| last_label(x) == last_label(q) implies sp.contains(x) == s.contains(
        x,
    ) by {
        lemma_insert_is_local(s, p, x);
    }
    assert forall|x: Seq<char>| last_label(x) == last_label(p) implies sq.contains(x) == s.contains(
        x,
    ) by {
        lemma_insert_is_local(s, q, x);
    }
    lemma_match_is_local(sp, s, q);
    assert forall|x: Seq<char>| after_insert(sp, q).contains(x) == after_insert(sq, p).contains(
        x,
    ) by {
        if last_label(x) == last_label(q) {
            lemma_insert_is_local(sq, p, x);
        } else if last_label(x) == last_label(p) {
            lemma_insert_rests_on_label(sq, s, p, x);
            lemma_insert_is_local(sp, q, x);
        } else {
            lemma_insert_is_local(sq, p, x);
            lemma_insert_is_local(s, p, x);
        }
    }
}

/// Insertion keeps the stored patterns in canonical form.
pub proof fn insert_keeps_canonical(s: Set<Seq<char>>, p: Seq<char>)
    requires
        canonical(s),
    ensures
        canonical(after_insert(s, p)),
{
    let r = after_insert(s, p);
    if p.len() > 0 && !covered(s, p) {
        assert forall|a: Seq<char>| #[trigger] r.contains(a) && is_wildcard(a) implies !r.contains(
            a.skip(1),
        ) by {
            if a != p && a.skip(1) == p {
                assert(wildcard_of(p) =~= a);
            }
        }
    }
}

/// Inserting a pattern that is stored in a canonical set, into a part of
/// that set, adds the pattern and changes nothing else.
proof fn lemma_insert_of_stored(s: Set<Seq<char>>, t: Set<Seq<char>>, x: Seq<char>)
    requires
        canonical(s),
        t.subset_of(s),
        s.contains(x),
    ensures
        after_insert(t, x) == t.insert(x),
{
    assert(x.len() > 0) by {
        if x.len() == 0 {
            assert(x =~= Seq::<char>::empty());
        }
    }
    assert(wildcard_of(x).skip(1) =~= x);
}

/// Inserting the first `k` of the patterns listed from a canonical set into
/// an empty trie stores just these.
proof fn lemma_round_trip_prefix(s: Set<Seq<char>>, lines: Seq<Seq<char>>, k: int)
    requires
        canonical(s),
        lines.to_set() == s,
        0 <= k <= lines.len(),
    ensures
        after_insert_all(Set::<Seq<char>>::empty(), lines.take(k)) == lines.take(k).to_set(),
    decreases k,
{
    if k > 0 {
        let earlier = lines.take(k - 1);
        lemma_round_trip_prefix(s, lines, k - 1);
        assert(lines.take(k).drop_last() =~= earlier);
        lemma_insert_of_stored(s, earlier.to_set(), lines[k - 1]);
    }
}

/// The patterns that a trie lists, inserted in the order of the listing
/// into an empty trie, are stored there as they were: the new trie answers
/// every query as the old one does. This holds of any listing that holds
/// each stored pattern and nothing else.
pub proof fn round_trip(s: Set<Seq<char>>, lines: Seq<Seq<char>>)
    requires
        canonical(s),
        lines.to_set() == s,
    ensures
        after_insert_all(Set::<Seq<char>>::empty(), lines) == s,
        forall|q: Seq<char>|
            is_matched(after_insert_all(Set::<Seq<char>>::empty(), lines), q) == is_matched(s, q),
{
    lemma_round_trip_prefix(s, lines, lines.len() as int);
    assert(lines.take(lines.len() as int) =~= lines);
}

} // verus!
