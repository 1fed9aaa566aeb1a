//! Small facts about sequences used by the proofs of this crate.
use vstd::prelude::*;

verus! {

/// Membership after appending one element.
pub proof fn lemma_contains_push<A>(s: Seq<A>, a: A, x: A)
    ensures
        s.push(a).contains(x) <==> (s.contains(x) || x == a),
{
    if s.push(a).contains(x) {
        let q = choose|q: int| 0 <= q < s.push(a).len() && s.push(a)[q] == x;
        if q < s.len() {
            assert(s[q] == x);
        }
    }
    if s.contains(x) {
        let q = choose|q: int| 0 <= q < s.len() && s[q] == x;
        assert(s.push(a)[q] == x);
    }
    if x == a {
        assert(s.push(a)[s.len() as int] == x);
    }
}

/// Membership in a concatenation.
pub proof fn lemma_contains_concat<A>(s: Seq<A>, t: Seq<A>, x: A)
    ensures
        (s + t).contains(x) <==> (s.contains(x) || t.contains(x)),
{
    if (s + t).contains(x) {
        let q = choose|q: int| 0 <= q < (s + t).len() && (s + t)[q] == x;
        if q < s.len() {
            assert(s[q] == x);
        } else {
            assert(t[q - s.len()] == x);
        }
    }
    if s.contains(x) {
        let q = choose|q: int| 0 <= q < s.len() && s[q] == x;
        assert((s + t)[q] == x);
    }
    if t.contains(x) {
        let q = choose|q: int| 0 <= q < t.len() && t[q] == x;
        assert((s + t)[s.len() + q] == x);
    }
}

/// Appending an element not yet present keeps a sequence free of duplicates.
pub proof fn lemma_no_dup_push<A>(s: Seq<A>, a: A)
    requires
        s.no_duplicates(),
        !s.contains(a),
    ensures
        s.push(a).no_duplicates(),
{
    let t = s.push(a);
    assert forall|i: int, j: int| 0 <= i < t.len() && 0 <= j < t.len() && i != j implies t[i] != t[j] by {
        if i < s.len() && j < s.len() {
            assert(t[i] == s[i] && t[j] == s[j]);
        } else if i < s.len() {
            assert(t[i] == s[i]);
            assert(s.contains(s[i]));
        } else if j < s.len() {
            assert(t[j] == s[j]);
            assert(s.contains(s[j]));
        }
    }
}

} // verus!
