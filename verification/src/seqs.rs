//! Facts about sequences.

use vstd::prelude::*;

verus! {

/// What the first `n + 1` of a sequence hold: what the first `n` hold, and
/// the one at `n`.
pub proof fn lemma_take_contains<T>(s: Seq<T>, n: int)
    requires
        0 <= n < s.len(),
    ensures
        forall|x: T| s.take(n + 1).contains(x) <==> s.take(n).contains(x) || x == s[n],
{
    let short = s.take(n);
    let long = s.take(n + 1);
    assert forall|x: T| long.contains(x) <==> short.contains(x) || x == s[n] by {
        if x == s[n] {
            assert(long[n] == x);
        }
    }
}

/// What is in one of two sequences is in the two joined.
pub proof fn lemma_add_contains<T>(front: Seq<T>, back: Seq<T>, x: T)
    requires
        front.contains(x) || back.contains(x),
    ensures
        (front + back).contains(x),
{
    if front.contains(x) {
        let k = choose|k: int| 0 <= k < front.len() && front[k] == x;
        assert((front + back)[k] == x);
    } else {
        let k = choose|k: int| 0 <= k < back.len() && back[k] == x;
        assert((front + back)[front.len() + k] == x);
    }
}

/// What is in two sequences joined is in one of them.
pub proof fn lemma_add_contains_rev<T>(front: Seq<T>, back: Seq<T>, x: T)
    requires
        (front + back).contains(x),
    ensures
        front.contains(x) || back.contains(x),
{
}

} // verus!
