//! Reachability theory for the dependency relation.
//!
//! The dependency relation of a graph is a set of (producer, consumer)
//! pairs of node ids.  Reachability is defined by step counts, which
//! keeps every proof a plain induction; acyclicity says no node
//! reaches itself in one or more steps.

use vstd::prelude::*;
use vstd::set_lib::lemma_len_subset;

verus! {

/// `b` is reachable from `a` in exactly `n` forward steps.
pub open spec fn reach_n(es: Set<(int, int)>, a: int, b: int, n: nat) -> bool
    decreases n,
{
    if n == 0 {
        a == b
    } else {
        exists|m: int| es.contains((a, m)) && reach_n(es, m, b, (n - 1) as nat)
    }
}

/// `b` is reachable from `a` in zero or more forward steps.
pub open spec fn reach(es: Set<(int, int)>, a: int, b: int) -> bool {
    exists|n: nat| reach_n(es, a, b, n)
}

/// No node reaches itself in one or more steps.
pub open spec fn acyclic(es: Set<(int, int)>) -> bool {
    forall|t: int, n: nat| n >= 1 ==> !reach_n(es, t, t, n)
}

/// The empty relation is acyclic.
pub proof fn lemma_empty_acyclic(es: Set<(int, int)>)
    requires
        es =~= Set::<(int, int)>::empty(),
    ensures
        acyclic(es),
{
    assert forall|t: int, n: nat| n >= 1 implies !reach_n(es, t, t, n) by {
        assert(forall|m: int| !es.contains((t, m)));
    }
}

/// Reachability is monotone in the relation.
pub proof fn lemma_reach_n_subset(es1: Set<(int, int)>, es2: Set<(int, int)>, a: int, b: int, n: nat)
    requires
        es1.subset_of(es2),
        reach_n(es1, a, b, n),
    ensures
        reach_n(es2, a, b, n),
    decreases n,
{
    if n > 0 {
        let m = choose|m: int| es1.contains((a, m)) && reach_n(es1, m, b, (n - 1) as nat);
        lemma_reach_n_subset(es1, es2, m, b, (n - 1) as nat);
    }
}

/// Paths concatenate: `n1` steps to `m` then `n2` steps to `b` make
/// `n1 + n2` steps to `b`.
pub proof fn lemma_reach_n_trans(es: Set<(int, int)>, a: int, m: int, b: int, n1: nat, n2: nat)
    requires
        reach_n(es, a, m, n1),
        reach_n(es, m, b, n2),
    ensures
        reach_n(es, a, b, n1 + n2),
    decreases n1,
{
    if n1 > 0 {
        let x = choose|x: int| es.contains((a, x)) && reach_n(es, x, m, (n1 - 1) as nat);
        lemma_reach_n_trans(es, x, m, b, (n1 - 1) as nat, n2);
        assert(reach_n(es, x, b, ((n1 - 1) + n2) as nat));
    }
}

/// One more edge at the end extends a path by a step.
pub proof fn lemma_reach_step(es: Set<(int, int)>, a: int, m: int, b: int)
    requires
        reach(es, a, m),
        es.contains((m, b)),
    ensures
        reach(es, a, b),
{
    let n = choose|n: nat| reach_n(es, a, m, n);
    assert(reach_n(es, m, b, 1)) by {
        assert(es.contains((m, b)) && reach_n(es, b, b, 0));
    }
    lemma_reach_n_trans(es, a, m, b, n, 1);
}

/// A path in the relation extended with one edge from `p` to `c`
/// either avoids the new edge, or decomposes around it.
pub proof fn lemma_new_edge_decompose(
    es: Set<(int, int)>,
    p: int,
    c: int,
    a: int,
    b: int,
    n: nat,
)
    requires
        reach_n(es.insert((p, c)), a, b, n),
    ensures
        reach_n(es, a, b, n) || (reach(es, a, p) && reach(es.insert((p, c)), c, b)),
    decreases n,
{
    let es2 = es.insert((p, c));
    if n > 0 {
        let m = choose|m: int| es2.contains((a, m)) && reach_n(es2, m, b, (n - 1) as nat);
        lemma_new_edge_decompose(es, p, c, m, b, (n - 1) as nat);
        if es.contains((a, m)) {
            if reach_n(es, m, b, (n - 1) as nat) {
                assert(reach_n(es, a, b, n));
            } else {
                assert(reach(es, m, p) && reach(es2, c, b));
                let k = choose|k: nat| reach_n(es, m, p, k);
                assert(reach_n(es, a, m, 1)) by {
                    assert(es.contains((a, m)) && reach_n(es, m, p, k) && reach_n(es, m, m, 0));
                }
                lemma_reach_n_trans(es, a, m, p, 1, k);
                assert(reach(es, a, p));
            }
        } else {
            assert(a == p && m == c);
            assert(reach_n(es, a, p, 0));
            assert(reach(es, a, p));
            assert(reach_n(es2, c, b, (n - 1) as nat));
            assert(reach(es2, c, b));
        }
    }
}

/// Within the extended relation, a path from `c` either stays in the
/// old relation or passes through `p` first.
pub proof fn lemma_from_c_decompose(es: Set<(int, int)>, p: int, c: int, b: int)
    requires
        reach(es.insert((p, c)), c, b),
        !reach(es, c, p),
    ensures
        reach(es, c, b),
    decreases (choose|n: nat| reach_n(es.insert((p, c)), c, b, n)),
{
    let es2 = es.insert((p, c));
    let n = choose|n: nat| reach_n(es2, c, b, n);
    lemma_new_edge_decompose(es, p, c, c, b, n);
    if reach_n(es, c, b, n) {
        assert(reach(es, c, b));
    } else {
        assert(reach(es, c, p));
    }
}

/// Adding an edge from `p` to `c` keeps the relation acyclic when `p`
/// is not reachable from `c`.
pub proof fn lemma_preserve_acyclic(es: Set<(int, int)>, p: int, c: int)
    requires
        acyclic(es),
        !reach(es, c, p),
    ensures
        acyclic(es.insert((p, c))),
{
    let es2 = es.insert((p, c));
    assert forall|t: int, n: nat| n >= 1 implies !reach_n(es2, t, t, n) by {
        if reach_n(es2, t, t, n) {
            lemma_new_edge_decompose(es, p, c, t, t, n);
            if reach_n(es, t, t, n) {
                assert(false);
            } else {
                assert(reach(es, t, p) && reach(es2, c, t));
                lemma_from_c_decompose(es, p, c, t);
                assert(reach(es, c, t));
                let n1 = choose|n1: nat| reach_n(es, c, t, n1);
                let n2 = choose|n2: nat| reach_n(es, t, p, n2);
                lemma_reach_n_trans(es, c, t, p, n1, n2);
                assert(reach_n(es, c, p, n1 + n2));
                assert(reach(es, c, p));
                assert(false);
            }
        }
    }
}

/// A subrelation of an acyclic relation is acyclic.
pub proof fn lemma_acyclic_subset(es1: Set<(int, int)>, es2: Set<(int, int)>)
    requires
        acyclic(es2),
        es1.subset_of(es2),
    ensures
        acyclic(es1),
{
    assert forall|t: int, n: nat| n >= 1 implies !reach_n(es1, t, t, n) by {
        if reach_n(es1, t, t, n) {
            lemma_reach_n_subset(es1, es2, t, t, n);
        }
    }
}

/// A set of nodes closed under forward steps and holding `a` holds
/// everything reachable from `a`.
pub proof fn lemma_closed_contains(es: Set<(int, int)>, s: Set<int>, a: int, b: int, n: nat)
    requires
        s.contains(a),
        forall|x: int, y: int| s.contains(x) && #[trigger] es.contains((x, y)) ==> s.contains(y),
        reach_n(es, a, b, n),
    ensures
        s.contains(b),
    decreases n,
{
    if n > 0 {
        let m = choose|m: int| es.contains((a, m)) && reach_n(es, m, b, (n - 1) as nat);
        lemma_closed_contains(es, s, m, b, (n - 1) as nat);
    }
}

/// Everything reachable from a node of `keys` stays within `keys`
/// when every edge ends inside `keys`.
pub proof fn lemma_reach_in_keys(es: Set<(int, int)>, keys: Set<int>, a: int, b: int)
    requires
        keys.contains(a),
        forall|x: int, y: int| #[trigger] es.contains((x, y)) ==> keys.contains(x) && keys.contains(y),
        reach(es, a, b),
    ensures
        keys.contains(b),
{
    let n = choose|n: nat| reach_n(es, a, b, n);
    lemma_closed_contains(es, keys, a, b, n);
}

/// The ancestors of `t`: the nodes of `keys` from which `t` is
/// reachable, `t` itself among them when present.
pub open spec fn ancestors(es: Set<(int, int)>, keys: Set<int>, t: int) -> Set<int> {
    keys.filter(|s: int| reach(es, s, t))
}

/// Along an edge from `p` to `c` of an acyclic relation, the ancestor
/// set strictly shrinks.
pub proof fn lemma_ancestors_strictly_decrease(
    es: Set<(int, int)>,
    keys: Set<int>,
    p: int,
    c: int,
)
    requires
        keys.finite(),
        keys.contains(p),
        keys.contains(c),
        es.contains((p, c)),
        acyclic(es),
    ensures
        ancestors(es, keys, p).len() < ancestors(es, keys, c).len(),
{
    let ap = ancestors(es, keys, p);
    let ac = ancestors(es, keys, c);
    assert forall|s: int| ap.contains(s) implies ac.contains(s) by {
        lemma_reach_step(es, s, p, c);
    }
    assert(!ap.contains(c)) by {
        if ap.contains(c) {
            let n = choose|n: nat| reach_n(es, c, p, n);
            assert(reach_n(es, p, c, 1)) by {
                assert(es.contains((p, c)) && reach_n(es, c, c, 0));
            }
            lemma_reach_n_trans(es, c, p, c, n, 1);
            assert(reach_n(es, c, c, n + 1));
            assert(false);
        }
    }
    assert(ac.contains(c)) by {
        assert(reach_n(es, c, c, 0));
        assert(reach(es, c, c));
    }
    assert(ap.subset_of(ac.remove(c)));
    lemma_len_subset(ap, ac.remove(c));
    assert(ac.remove(c).len() == ac.len() - 1) by {
        keys.lemma_len_filter(|s: int| reach(es, s, c));
    }
}

/// Ancestor sets are finite and no larger than the key set.
pub proof fn lemma_ancestors_finite(es: Set<(int, int)>, keys: Set<int>, t: int)
    requires
        keys.finite(),
    ensures
        ancestors(es, keys, t).finite(),
        ancestors(es, keys, t).len() <= keys.len(),
{
    keys.lemma_len_filter(|s: int| reach(es, s, t));
}

} // verus!
