//! The projection map: which vertex stands for which.
//!
//! When a vertex is merged into another, the map gets an entry from the one
//! that left to the one that stayed. Entries that pointed at the vertex that
//! left are not rewritten, so the vertex that stands for `x` is found by
//! following entries from `x` until one points at itself or there is none.

use std::collections::BTreeMap;
use vstd::prelude::*;
use vstd::string::StringExecFns;

verus! {

/// `x` stands for itself: the map has no entry for it, or one that points at
/// `x` itself.
pub open spec fn is_root(p: Map<u64, u64>, x: u64) -> bool {
    !p.contains_key(x) || p[x] == x
}

/// Where one is after following entries from `x` at most `steps` times.
pub open spec fn follow(p: Map<u64, u64>, x: u64, steps: nat) -> u64
    decreases steps,
{
    if steps == 0 || is_root(p, x) {
        x
    } else {
        follow(p, p[x], (steps - 1) as nat)
    }
}

/// Following entries from `x` comes to an end.
pub open spec fn reaches_root(p: Map<u64, u64>, x: u64) -> bool {
    exists|n: nat| is_root(p, #[trigger] follow(p, x, n))
}

/// No chain of entries runs in a circle.
pub open spec fn acyclic(p: Map<u64, u64>) -> bool {
    forall|x: u64| reaches_root(p, x)
}

/// The vertex that stands for `x`: where following entries from `x` ends.
pub open spec fn find(p: Map<u64, u64>, x: u64) -> u64 {
    follow(p, x, choose|n: nat| is_root(p, #[trigger] follow(p, x, n)))
}

/// The map `x -> find(p, x)`.
pub open spec fn find_map(p: Map<u64, u64>) -> spec_fn(u64) -> u64 {
    |x: u64| find(p, x)
}

/// Once a chain has come to its end, more steps change nothing.
pub proof fn lemma_follow_stable(p: Map<u64, u64>, x: u64, n: nat, m: nat)
    requires
        is_root(p, follow(p, x, n)),
        n <= m,
    ensures
        follow(p, x, m) == follow(p, x, n),
    decreases n,
{
    if n > 0 && !is_root(p, x) {
        lemma_follow_stable(p, p[x], (n - 1) as nat, (m - 1) as nat);
    }
}

/// Any number of steps that ends a chain ends it at the same vertex.
pub proof fn lemma_find_is(p: Map<u64, u64>, x: u64, n: nat)
    requires
        is_root(p, follow(p, x, n)),
    ensures
        find(p, x) == follow(p, x, n),
        is_root(p, find(p, x)),
        reaches_root(p, x),
{
    let k = choose|k: nat| is_root(p, #[trigger] follow(p, x, k));
    if k <= n {
        lemma_follow_stable(p, x, k, n);
    } else {
        lemma_follow_stable(p, x, n, k);
    }
}

/// A vertex that stands for itself is what `find` gives for it.
pub proof fn lemma_find_of_root(p: Map<u64, u64>, x: u64)
    requires
        is_root(p, x),
    ensures
        find(p, x) == x,
        reaches_root(p, x),
{
    assert(follow(p, x, 0) == x);
    lemma_find_is(p, x, 0);
}

/// One step along a chain does not change where it ends.
pub proof fn lemma_find_step(p: Map<u64, u64>, x: u64)
    requires
        !is_root(p, x),
    ensures
        reaches_root(p, x) <==> reaches_root(p, p[x]),
        reaches_root(p, x) ==> find(p, x) == find(p, p[x]),
{
    if reaches_root(p, x) {
        let n = choose|n: nat| is_root(p, #[trigger] follow(p, x, n));
        assert(n > 0);
        assert(follow(p, x, n) == follow(p, p[x], (n - 1) as nat));
        lemma_find_is(p, p[x], (n - 1) as nat);
    }
    if reaches_root(p, p[x]) {
        let n = choose|n: nat| is_root(p, #[trigger] follow(p, p[x], n));
        assert(follow(p, x, n + 1) == follow(p, p[x], n));
        lemma_find_is(p, x, n + 1);
        lemma_find_is(p, p[x], n);
    }
}

/// Finding is idempotent: what stands for `x` stands for itself.
pub proof fn lemma_find_idempotent(p: Map<u64, u64>, x: u64)
    requires
        reaches_root(p, x),
    ensures
        is_root(p, find(p, x)),
        find(p, find(p, x)) == find(p, x),
{
    lemma_find_of_root(p, find(p, x));
}

/// The map after `dropped` has been merged into `kept`.
pub open spec fn link(p: Map<u64, u64>, kept: u64, dropped: u64) -> Map<u64, u64> {
    p.insert(dropped, kept).insert(kept, kept)
}

/// Merging one vertex that stands for itself into another moves what the
/// first stood for to the second, and nothing else.
pub proof fn lemma_link(p: Map<u64, u64>, kept: u64, dropped: u64, x: u64)
    requires
        is_root(p, kept),
        is_root(p, dropped),
        reaches_root(p, x),
    ensures
        reaches_root(link(p, kept, dropped), x),
        find(link(p, kept, dropped), x) == (if find(p, x) == dropped {
            kept
        } else {
            find(p, x)
        }),
{
    let n = choose|n: nat| is_root(p, #[trigger] follow(p, x, n));
    lemma_link_steps(p, kept, dropped, x, n);
}

proof fn lemma_link_steps(p: Map<u64, u64>, kept: u64, dropped: u64, x: u64, n: nat)
    requires
        is_root(p, kept),
        is_root(p, dropped),
        is_root(p, follow(p, x, n)),
    ensures
        reaches_root(link(p, kept, dropped), x),
        find(link(p, kept, dropped), x) == (if find(p, x) == dropped {
            kept
        } else {
            find(p, x)
        }),
    decreases n,
{
    let q = link(p, kept, dropped);
    lemma_find_is(p, x, n);
    if is_root(p, x) {
        lemma_find_of_root(p, x);
        if x == dropped && x != kept {
            assert(is_root(q, kept));
            assert(follow(q, kept, 0) == kept);
            assert(follow(q, x, 1) == follow(q, kept, 0));
            lemma_find_is(q, x, 1);
        } else {
            assert(is_root(q, x));
            lemma_find_of_root(q, x);
        }
    } else {
        assert(x != kept && x != dropped);
        assert(q.contains_key(x) && q[x] == p[x]);
        assert(follow(p, x, n) == follow(p, p[x], (n - 1) as nat));
        lemma_link_steps(p, kept, dropped, p[x], (n - 1) as nat);
        lemma_find_step(p, x);
        lemma_find_step(q, x);
    }
}

/// The vertex that stands for `node`. The chain of entries from `node` must
/// come to an end.
pub fn find_projection(proj_map: &BTreeMap<u64, u64>, node: u64) -> (r: u64)
    requires
        reaches_root(proj_map@, node),
    ensures
        r == find(proj_map@, node),
        is_root(proj_map@, r),
{
    let mut cur = node;
    let ghost mut n: nat = choose|n: nat| is_root(proj_map@, #[trigger] follow(proj_map@, node, n));
    proof {
        lemma_find_is(proj_map@, node, n);
    }
    loop
        invariant
            is_root(proj_map@, follow(proj_map@, cur, n)),
            find(proj_map@, cur) == find(proj_map@, node),
        ensures
            is_root(proj_map@, cur),
            find(proj_map@, cur) == find(proj_map@, node),
        decreases n,
    {
        match proj_map.get(&cur) {
            Some(next) => {
                if *next == cur {
                    break ;
                } else {
                    proof {
                        lemma_find_is(proj_map@, cur, n);
                        lemma_find_step(proj_map@, cur);
                        assert(n > 0);
                        n = (n - 1) as nat;
                    }
                    cur = *next;
                }
            },
            None => {
                break ;
            },
        }
    }
    proof {
        lemma_find_of_root(proj_map@, cur);
    }
    cur
}

/// The two endpoints of the sequence node `n`: the left one, `2n`, and the
/// right one, `2n + 1`.
pub fn split_node_id(n: u64) -> (r: (u64, u64))
    requires
        2 * n + 1 <= u64::MAX,
    ensures
        r.0 == 2 * n,
        r.1 == 2 * n + 1,
{
    let left: u64 = n * 2;
    (left, left + 1)
}

/// The name of an endpoint: the name of its sequence node for a left
/// endpoint, and that name with `_` behind it for a right endpoint.
pub open spec fn endpoint_name(names: Seq<String>, id: u64) -> Option<Seq<char>> {
    if id / 2 < names.len() {
        Some(
            if id % 2 == 1 {
                names[(id / 2) as int]@ + seq!['_']
            } else {
                names[(id / 2) as int]@
            },
        )
    } else {
        None
    }
}

/// The name of the endpoint `id`, where `names` holds the name of sequence
/// node `n` at place `n`: `None` for an endpoint of a sequence node without
/// a name.
pub fn projected_node_name(names: &Vec<String>, id: u64) -> (r: Option<String>)
    ensures
        match r {
            Some(name) => Some(name@),
            None => None,
        } == endpoint_name(names@, id),
{
    let n = id / 2;
    if n >= names.len() as u64 {
        return None;
    }
    let mut name = names[n as usize].clone();
    if id % 2 == 1 {
        proof {
            reveal_strlit("_");
        }
        name.append("_");
        proof {
            assert(name@ =~= names@[(id / 2) as int]@ + seq!['_']);
        }
    }
    Some(name)
}

} // verus!
