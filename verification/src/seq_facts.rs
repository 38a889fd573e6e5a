//! Small facts about sequences used across the library's proofs.

use vstd::prelude::*;

verus! {

/// Membership in a sequence extended by one element.
pub proof fn lemma_push_contains<A>(s: Seq<A>, x: A, t: A)
    ensures
        s.push(x).contains(t) <==> (s.contains(t) || t == x),
{
    if s.push(x).contains(t) {
        let k = choose|k: int| 0 <= k < s.push(x).len() && s.push(x)[k] == t;
        if k < s.len() {
            assert(s[k] == t);
        }
    }
    if s.contains(t) {
        let k = choose|k: int| 0 <= k < s.len() && s[k] == t;
        assert(s.push(x)[k] == t);
    }
    if t == x {
        assert(s.push(x)[s.len() as int] == x);
    }
}

/// Membership in a concatenation.
pub proof fn lemma_concat_contains<A>(s: Seq<A>, u: Seq<A>, t: A)
    ensures
        (s + u).contains(t) <==> (s.contains(t) || u.contains(t)),
{
    if (s + u).contains(t) {
        let k = choose|k: int| 0 <= k < (s + u).len() && (s + u)[k] == t;
        if k < s.len() {
            assert(s[k] == t);
        } else {
            assert(u[k - s.len()] == t);
        }
    }
    if s.contains(t) {
        let k = choose|k: int| 0 <= k < s.len() && s[k] == t;
        assert((s + u)[k] == t);
    }
    if u.contains(t) {
        let k = choose|k: int| 0 <= k < u.len() && u[k] == t;
        assert((s + u)[k + s.len()] == t);
    }
}

} // verus!
