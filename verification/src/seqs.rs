//! Facts about sequences.

use vstd::prelude::*;

verus! {

/// Inserting an element adds it, wherever it goes.
pub proof fn lemma_insert_multiset<A>(s: Seq<A>, k: int, x: A)
    requires
        0 <= k <= s.len(),
    ensures
        s.insert(k, x).to_multiset() == s.to_multiset().insert(x),
{
    let v = s.insert(k, x);
    v.to_multiset_ensures();
    assert(v.remove(k) =~= s);
    assert(v[k] == x);
    assert(v.contains(x));
    assert(v.to_multiset() =~= s.to_multiset().insert(x));
}

} // verus!
