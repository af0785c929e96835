//! Reachability over a directed edge list: the least set of nodes reachable
//! from a root by one or more edges, computed by frontier expansion.
use vstd::prelude::*;
use vstd::set_lib::{lemma_int_range, lemma_len_subset, set_int_range};

verus! {

/// An edge list: `(from, to)` pairs.
pub open spec fn has_edge(es: Seq<(usize, usize)>, a: usize, b: usize) -> bool {
    exists|i: int| 0 <= i < es.len() && es[i] == (a, b)
}

/// `p` is a walk of one or more edges.
pub open spec fn is_walk(es: Seq<(usize, usize)>, p: Seq<usize>) -> bool {
    &&& p.len() >= 2
    &&& forall|i: int| 0 <= i < p.len() - 1 ==> has_edge(es, #[trigger] p[i], p[i + 1])
}

/// `b` can be reached from `a` by one or more edges.
pub open spec fn reaches(es: Seq<(usize, usize)>, a: usize, b: usize) -> bool {
    exists|p: Seq<usize>| #[trigger] is_walk(es, p) && p[0] == a && p.last() == b
}

/// Every endpoint is below `n`.
pub open spec fn edges_within(es: Seq<(usize, usize)>, n: usize) -> bool {
    forall|i: int| 0 <= i < es.len() ==> (#[trigger] es[i]).0 < n && es[i].1 < n
}

/// One edge is a walk.
pub proof fn lemma_edge_reaches(es: Seq<(usize, usize)>, a: usize, c: usize)
    requires
        has_edge(es, a, c),
    ensures
        reaches(es, a, c),
{
    let p = seq![a, c];
    assert(is_walk(es, p));
}

/// A walk followed by one more edge is a walk.
pub proof fn lemma_reaches_extend(es: Seq<(usize, usize)>, a: usize, x: usize, c: usize)
    requires
        reaches(es, a, x),
        has_edge(es, x, c),
    ensures
        reaches(es, a, c),
{
    let p = choose|p: Seq<usize>| #[trigger] is_walk(es, p) && p[0] == a && p.last() == x;
    let q = p.push(c);
    assert forall|i: int| 0 <= i < q.len() - 1 implies has_edge(es, #[trigger] q[i], q[i + 1]) by {
        if i < p.len() - 1 {
            assert(q[i] == p[i] && q[i + 1] == p[i + 1]);
        }
    }
    assert(is_walk(es, q));
}

/// Whatever a walk reaches from inside a set closed under edges stays inside it.
pub proof fn lemma_closed_contains_reached(es: Seq<(usize, usize)>, s: Seq<usize>, a: usize, b: usize)
    requires
        s.contains(a),
        forall|x: usize, c: usize| s.contains(x) && has_edge(es, x, c) ==> s.contains(c),
        reaches(es, a, b),
    ensures
        s.contains(b),
{
    let p = choose|p: Seq<usize>| #[trigger] is_walk(es, p) && p[0] == a && p.last() == b;
    lemma_walk_stays_inside(es, s, p, 0);
}

proof fn lemma_walk_stays_inside(es: Seq<(usize, usize)>, s: Seq<usize>, p: Seq<usize>, i: int)
    requires
        is_walk(es, p),
        0 <= i < p.len(),
        s.contains(p[i]),
        forall|x: usize, c: usize| s.contains(x) && has_edge(es, x, c) ==> s.contains(c),
    ensures
        s.contains(p.last()),
    decreases p.len() - i,
{
    if i < p.len() - 1 {
        assert(has_edge(es, p[i], p[i + 1]));
        lemma_walk_stays_inside(es, s, p, i + 1);
    }
}

/// A list of distinct ids below `n` has at most `n` entries.
pub proof fn lemma_distinct_ids_bounded(s: Seq<usize>, n: usize)
    requires
        s.no_duplicates(),
        forall|i: int| 0 <= i < s.len() ==> s[i] < n,
    ensures
        s.len() <= n,
{
    let f = |x: usize| x as int;
    assert(vstd::relations::injective(f));
    s.lemma_no_duplicates_injective(f);
    let t = s.map_values(f);
    t.unique_seq_to_set();
    lemma_int_range(0, n as int);
    assert(t.to_set().subset_of(set_int_range(0, n as int)));
    lemma_len_subset(t.to_set(), set_int_range(0, n as int));
}

/// Adds every successor of `x` that is not yet seen.
fn expand(es: &Vec<(usize, usize)>, n: usize, x: usize, seen: &mut Vec<bool>, order: &mut Vec<usize>)
    requires
        edges_within(es@, n),
        old(seen).len() == n,
        old(order)@.no_duplicates(),
        forall|v: usize| v < n ==> (old(seen)@[v as int] <==> old(order)@.contains(v)),
        forall|i: int| 0 <= i < old(order).len() ==> old(order)@[i] < n,
    ensures
        final(seen).len() == n,
        final(order)@.no_duplicates(),
        forall|v: usize| v < n ==> (final(seen)@[v as int] <==> final(order)@.contains(v)),
        forall|i: int| 0 <= i < final(order).len() ==> final(order)@[i] < n,
        final(order).len() >= old(order).len(),
        final(order)@.subrange(0, old(order).len() as int) == old(order)@,
        forall|c: usize| has_edge(es@, x, c) ==> final(order)@.contains(c),
        forall|i: int| old(order).len() <= i < final(order).len() ==> has_edge(es@, x, #[trigger] final(order)@[i]),
{
    let ghost order0 = order@;
    let mut i: usize = 0;
    while i < es.len()
        invariant
            edges_within(es@, n),
            seen.len() == n,
            order@.no_duplicates(),
            forall|v: usize| v < n ==> (seen@[v as int] <==> order@.contains(v)),
            forall|j: int| 0 <= j < order.len() ==> order@[j] < n,
            order.len() >= order0.len(),
            order@.subrange(0, order0.len() as int) == order0,
            i <= es.len(),
            forall|j: int| 0 <= j < i && (#[trigger] es@[j]).0 == x ==> order@.contains(es@[j].1),
            forall|j: int| order0.len() <= j < order.len() ==> has_edge(es@, x, #[trigger] order@[j]),
        decreases es.len() - i,
    {
        let (from, to) = es[i];
        assert(es@[i as int].0 < n && es@[i as int].1 < n);
        if from == x && !seen[to] {
            let ghost before = order@;
            seen.set(to, true);
            order.push(to);
            proof {
                assert(order@.subrange(0, order0.len() as int) =~= before.subrange(0, order0.len() as int));
                assert(forall|v: usize| before.contains(v) ==> order@.contains(v)) by {
                    assert forall|v: usize| before.contains(v) implies order@.contains(v) by {
                        let k = choose|k: int| 0 <= k < before.len() && before[k] == v;
                        assert(order@[k] == v);
                    }
                }
                assert(order@[before.len() as int] == to);
                assert(has_edge(es@, x, to));
            }
        }
        i = i + 1;
    }
    proof {
        assert forall|c: usize| has_edge(es@, x, c) implies order@.contains(c) by {
            let j = choose|j: int| 0 <= j < es.len() && es@[j] == (x, c);
            assert(es@[j].0 == x);
        }
    }
}

/// The nodes reachable from `root` by one or more edges, each once, in the
/// order in which the expansion first meets them.
pub fn reachable_from(es: &Vec<(usize, usize)>, n: usize, root: usize) -> (r: Vec<usize>)
    requires
        edges_within(es@, n),
        root < n,
    ensures
        r@.no_duplicates(),
        forall|v: usize| r@.contains(v) <==> reaches(es@, root, v),
{
    let mut seen: Vec<bool> = Vec::new();
    let mut j: usize = 0;
    while j < n
        invariant
            j <= n,
            seen.len() == j,
            forall|v: int| 0 <= v < j ==> !seen@[v],
        decreases n - j,
    {
        seen.push(false);
        j = j + 1;
    }
    let mut order: Vec<usize> = Vec::new();
    expand(es, n, root, &mut seen, &mut order);
    proof {
        assert forall|i: int| 0 <= i < order.len() implies reaches(es@, root, #[trigger] order@[i]) by {
            lemma_edge_reaches(es@, root, order@[i]);
        }
    }
    let mut k: usize = 0;
    while k < order.len()
        invariant
            edges_within(es@, n),
            seen.len() == n,
            order@.no_duplicates(),
            forall|v: usize| v < n ==> (seen@[v as int] <==> order@.contains(v)),
            forall|i: int| 0 <= i < order.len() ==> order@[i] < n,
            forall|i: int| 0 <= i < order.len() ==> reaches(es@, root, #[trigger] order@[i]),
            forall|c: usize| has_edge(es@, root, c) ==> order@.contains(c),
            k <= order.len(),
            forall|i: int, c: usize| 0 <= i < k && has_edge(es@, order@[i], c) ==> order@.contains(c),
        decreases n - k,
    {
        proof {
            lemma_distinct_ids_bounded(order@, n);
        }
        let x = order[k];
        let ghost before = order@;
        expand(es, n, x, &mut seen, &mut order);
        proof {
            assert forall|v: usize| before.contains(v) implies order@.contains(v) by {
                let m = choose|m: int| 0 <= m < before.len() && before[m] == v;
                assert(order@.subrange(0, before.len() as int)[m] == before[m]);
            }
            assert forall|i: int| 0 <= i < order.len() implies reaches(es@, root, #[trigger] order@[i]) by {
                if i < before.len() {
                    assert(order@.subrange(0, before.len() as int)[i] == before[i]);
                } else {
                    assert(reaches(es@, root, x));
                    lemma_reaches_extend(es@, root, x, order@[i]);
                }
            }
            assert forall|c: usize| has_edge(es@, root, c) implies order@.contains(c) by {
                assert(before.contains(c));
            }
            assert forall|i: int, c: usize| 0 <= i < k + 1 && has_edge(es@, order@[i], c) implies order@.contains(c) by {
                assert(order@.subrange(0, before.len() as int)[i] == before[i]);
            }
        }
        k = k + 1;
    }
    proof {
        assert forall|v: usize| reaches(es@, root, v) implies order@.contains(v) by {
            let p = choose|p: Seq<usize>| #[trigger] is_walk(es@, p) && p[0] == root && p.last() == v;
            assert(has_edge(es@, p[0], p[1]));
            assert forall|x: usize, c: usize| order@.contains(x) && has_edge(es@, x, c) implies order@.contains(c) by {
                let i = choose|i: int| 0 <= i < order.len() && order@[i] == x;
            }
            let q = p.drop_first();
            if q.len() >= 2 {
                assert forall|i: int| 0 <= i < q.len() - 1 implies has_edge(es@, #[trigger] q[i], q[i + 1]) by {
                    assert(has_edge(es@, p[i + 1], p[i + 2]));
                }
                assert(is_walk(es@, q));
                lemma_closed_contains_reached(es@, order@, p[1], v);
            }
        }
        assert forall|v: usize| order@.contains(v) implies reaches(es@, root, v) by {
            let i = choose|i: int| 0 <= i < order.len() && order@[i] == v;
        }
    }
    order
}

} // verus!
