//! Small facts about sequences used across the proofs.
use vstd::prelude::*;

verus! {

pub proof fn lemma_contains_push<A>(s: Seq<A>, x: A)
    ensures
        forall|a: A| #[trigger] s.push(x).contains(a) <==> (s.contains(a) || a == x),
{
    assert forall|a: A| #[trigger] s.push(x).contains(a) <==> (s.contains(a) || a == x) by {
        if a == x {
            assert(s.push(x)[s.len() as int] == a);
        }
        if s.contains(a) {
            let k = choose|k: int| 0 <= k < s.len() && #[trigger] s[k] == a;
            assert(s.push(x)[k] == a);
        }
        if s.push(x).contains(a) {
            let k = choose|k: int| 0 <= k < s.push(x).len() && #[trigger] s.push(x)[k] == a;
            if k < s.len() {
                assert(s[k] == a);
            }
        }
    }
}

pub proof fn lemma_contains_concat<A>(s: Seq<A>, t: Seq<A>)
    ensures
        forall|a: A| #[trigger] (s + t).contains(a) <==> (s.contains(a) || t.contains(a)),
{
    assert forall|a: A| #[trigger] (s + t).contains(a) <==> (s.contains(a) || t.contains(a)) by {
        if s.contains(a) {
            let k = choose|k: int| 0 <= k < s.len() && #[trigger] s[k] == a;
            assert((s + t)[k] == a);
        }
        if t.contains(a) {
            let k = choose|k: int| 0 <= k < t.len() && #[trigger] t[k] == a;
            assert((s + t)[s.len() + k] == a);
        }
        if (s + t).contains(a) {
            let k = choose|k: int| 0 <= k < (s + t).len() && #[trigger] (s + t)[k] == a;
            if k < s.len() {
                assert(s[k] == a);
            } else {
                assert(t[k - s.len()] == a);
            }
        }
    }
}

} // verus!
