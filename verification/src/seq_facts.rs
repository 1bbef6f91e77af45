//! Facts about sequences that several modules use.

use vstd::prelude::*;

verus! {

/// One more member of a prefix: the member at the place where it ended.
pub proof fn lemma_take_one_more<A>(s: Seq<A>, i: int, x: A)
    requires
        0 <= i < s.len(),
    ensures
        s.take(i + 1).contains(x) <==> (s.take(i).contains(x) || s[i] == x),
        s.no_duplicates() ==> !s.take(i).contains(s[i]),
{
    let more = s.take(i + 1);
    let less = s.take(i);
    if more.contains(x) {
        let k = choose|k: int| 0 <= k < more.len() && more[k] == x;
        if k < i {
            assert(less[k] == x);
        }
    }
    if less.contains(x) {
        let k = choose|k: int| 0 <= k < less.len() && less[k] == x;
        assert(more[k] == x);
    }
    if s[i] == x {
        assert(more[i] == x);
    }
    if s.no_duplicates() && less.contains(s[i]) {
        let k = choose|k: int| 0 <= k < less.len() && less[k] == s[i];
        assert(s[k] == s[i]);
    }
}

} // verus!
