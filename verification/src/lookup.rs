//! First-match search over a sequence, shared by the event table (first
//! listener with a given callback, first entry with a given key) and the
//! module registry (first native module with a given name).

use vstd::prelude::*;

verus! {

/// Index of the first element of `s` satisfying `pred`, or `s.len()` when
/// no element does.
pub open spec fn first_where<A>(s: Seq<A>, pred: spec_fn(A) -> bool) -> int
    decreases s.len(),
{
    if s.len() == 0 {
        0
    } else if pred(s[0]) {
        0
    } else {
        1 + first_where(s.drop_first(), pred)
    }
}

/// Whether some element of `s` satisfies `pred`.
pub open spec fn some_where<A>(s: Seq<A>, pred: spec_fn(A) -> bool) -> bool {
    exists|i: int| 0 <= i < s.len() && pred(s[i])
}

/// `first_where` indeed names the first match: it is in range exactly when a
/// match exists, it satisfies `pred`, and nothing before it does.
pub proof fn lemma_first_where<A>(s: Seq<A>, pred: spec_fn(A) -> bool)
    ensures
        0 <= first_where(s, pred) <= s.len(),
        first_where(s, pred) < s.len() <==> some_where(s, pred),
        first_where(s, pred) < s.len() ==> pred(s[first_where(s, pred)]),
        forall|j: int| 0 <= j < first_where(s, pred) ==> !pred(s[j]),
    decreases s.len(),
{
    if s.len() == 0 {
    } else if pred(s[0]) {
    } else {
        let rest = s.drop_first();
        lemma_first_where(rest, pred);
        let f = first_where(s, pred);
        assert forall|j: int| 0 <= j < f implies !pred(s[j]) by {
            if j > 0 {
                assert(s[j] == rest[j - 1]);
            }
        }
        if f < s.len() {
            assert(s[f] == rest[f - 1]);
        }
        if some_where(s, pred) {
            let i = choose|i: int| 0 <= i < s.len() && pred(s[i]);
            assert(rest[i - 1] == s[i]);
            assert(some_where(rest, pred));
        }
        if some_where(rest, pred) {
            let i = choose|i: int| 0 <= i < rest.len() && pred(rest[i]);
            assert(s[i + 1] == rest[i]);
            assert(some_where(s, pred));
        }
    }
}

/// An index that matches and has no match before it is `first_where`.
pub proof fn lemma_first_where_is<A>(s: Seq<A>, pred: spec_fn(A) -> bool, i: int)
    requires
        0 <= i < s.len(),
        pred(s[i]),
        forall|j: int| 0 <= j < i ==> !pred(s[j]),
    ensures
        first_where(s, pred) == i,
{
    lemma_first_where(s, pred);
    assert(some_where(s, pred));
    let f = first_where(s, pred);
    if f < i {
        assert(pred(s[f]));
        assert(false);
    }
    if f > i {
        assert(!pred(s[i]));
        assert(false);
    }
}

} // verus!
