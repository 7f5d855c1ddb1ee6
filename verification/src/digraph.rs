//! Ghost theory of directed graphs over node identifiers.
//!
//! A graph is its arc relation: a set of `(source, destination)` pairs.
//! Paths, reachability and cycles are defined here, together with the
//! lemmas the typed graph needs: inserting an arc whose destination
//! does not already reach its source keeps a graph acyclic, an arc in
//! the other direction closes a cycle, a subgraph of an acyclic graph
//! is acyclic, a closed vertex set contains everything reachable from
//! its members, and every finite nonempty vertex set of an acyclic
//! graph has a member with no predecessor inside the set (which is what
//! makes topological processing possible).

use vstd::prelude::*;
use vstd::set_lib::lemma_len_subset;

verus! {

/// A walk through the arc relation `g`: at least one vertex, and an arc
/// from each vertex of the walk to the next.
pub open spec fn is_path(g: Set<(u64, u64)>, p: Seq<u64>) -> bool {
    p.len() >= 1 && forall|i: int| 0 <= i < p.len() - 1 ==> #[trigger] g.contains((p[i], p[i + 1]))
}

/// `b` can be reached from `a` by following arcs of `g` forward;
/// every vertex reaches itself.
pub open spec fn reaches(g: Set<(u64, u64)>, a: u64, b: u64) -> bool {
    exists|p: Seq<u64>| is_path(g, p) && p.first() == a && p.last() == b
}

/// Some walk of at least one arc returns to its starting vertex.
pub open spec fn has_cycle(g: Set<(u64, u64)>) -> bool {
    exists|p: Seq<u64>| is_path(g, p) && p.len() >= 2 && p.first() == p.last()
}

pub open spec fn acyclic(g: Set<(u64, u64)>) -> bool {
    !has_cycle(g)
}

/// Every vertex reaches itself, by the one-vertex walk.
pub proof fn lemma_reaches_refl(g: Set<(u64, u64)>, a: u64)
    ensures
        reaches(g, a, a),
{
    let p: Seq<u64> = seq![a];
    assert(is_path(g, p));
    assert(p.first() == a && p.last() == a);
}

/// A single arc is a path of length two.
pub proof fn lemma_arc_reaches(g: Set<(u64, u64)>, a: u64, b: u64)
    requires
        g.contains((a, b)),
    ensures
        reaches(g, a, b),
{
    let p: Seq<u64> = seq![a, b];
    assert(g.contains((p[0int], p[0int + 1])));
    assert(is_path(g, p));
    assert(p.first() == a && p.last() == b);
}

/// Two walks that meet in the middle compose into one walk.
pub proof fn lemma_path_concat(g: Set<(u64, u64)>, p: Seq<u64>, q: Seq<u64>)
    requires
        is_path(g, p),
        is_path(g, q),
        p.last() == q.first(),
    ensures
        is_path(g, p + q.skip(1)),
        (p + q.skip(1)).first() == p.first(),
        (p + q.skip(1)).last() == q.last(),
{
    let r = p + q.skip(1);
    assert(r.len() == p.len() + q.len() - 1);
    assert forall|i: int| 0 <= i < r.len() - 1 implies #[trigger] g.contains((r[i], r[i + 1])) by {
        if i < p.len() - 1 {
            assert(r[i] == p[i]);
            assert(r[i + 1] == p[i + 1]);
            assert(g.contains((p[i], p[i + 1])));
        } else if i == p.len() - 1 {
            assert(r[i] == p[i]);
            assert(p[i] == p.last());
            assert(r[i + 1] == q.skip(1)[0]);
            assert(q.skip(1)[0] == q[1]);
            assert(g.contains((q[0int], q[0int + 1])));
        } else {
            let j = i - p.len();
            assert(r[i] == q.skip(1)[j]);
            assert(q.skip(1)[j] == q[j + 1]);
            assert(r[i + 1] == q.skip(1)[j + 1]);
            assert(q.skip(1)[j + 1] == q[j + 2]);
            assert(g.contains((q[j + 1], q[j + 1 + 1])));
        }
    }
    assert(r.first() == p.first());
    if q.len() == 1 {
        assert(r =~= p);
        assert(r.last() == q.last());
    } else {
        assert(r.last() == q.skip(1)[q.len() - 2]);
        assert(q.skip(1)[q.len() - 2] == q[q.len() - 1]);
    }
}

/// Reachability is transitive.
pub proof fn lemma_reaches_trans(g: Set<(u64, u64)>, a: u64, b: u64, c: u64)
    requires
        reaches(g, a, b),
        reaches(g, b, c),
    ensures
        reaches(g, a, c),
{
    let p = choose|p: Seq<u64>| is_path(g, p) && p.first() == a && p.last() == b;
    let q = choose|q: Seq<u64>| is_path(g, q) && q.first() == b && q.last() == c;
    lemma_path_concat(g, p, q);
}

/// A walk from `a` to `b` closed by an arc from `b` back to `a` is a cycle.
pub proof fn lemma_reaches_arc_cycle(g: Set<(u64, u64)>, a: u64, b: u64)
    requires
        reaches(g, a, b),
        g.contains((b, a)),
    ensures
        has_cycle(g),
{
    let p = choose|p: Seq<u64>| is_path(g, p) && p.first() == a && p.last() == b;
    let r = p.push(a);
    assert forall|i: int| 0 <= i < r.len() - 1 implies #[trigger] g.contains((r[i], r[i + 1])) by {
        if i < p.len() - 1 {
            assert(r[i] == p[i]);
            assert(r[i + 1] == p[i + 1]);
            assert(g.contains((p[i], p[i + 1])));
        } else {
            assert(r[i] == p.last());
            assert(r[i + 1] == a);
        }
    }
    assert(is_path(g, r));
    assert(r.len() >= 2);
    assert(r.first() == a && r.last() == a);
}

/// A walk through a subgraph is a walk through the graph.
pub proof fn lemma_path_mono(g1: Set<(u64, u64)>, g2: Set<(u64, u64)>, p: Seq<u64>)
    requires
        is_path(g1, p),
        g1.subset_of(g2),
    ensures
        is_path(g2, p),
{
    assert forall|i: int| 0 <= i < p.len() - 1 implies #[trigger] g2.contains((p[i], p[i + 1])) by {
        assert(g1.contains((p[i], p[i + 1])));
    }
}

/// Reachability only grows with the arc relation.
pub proof fn lemma_reaches_mono(g1: Set<(u64, u64)>, g2: Set<(u64, u64)>, a: u64, b: u64)
    requires
        reaches(g1, a, b),
        g1.subset_of(g2),
    ensures
        reaches(g2, a, b),
{
    let p = choose|p: Seq<u64>| is_path(g1, p) && p.first() == a && p.last() == b;
    lemma_path_mono(g1, g2, p);
}

/// A subgraph of an acyclic graph is acyclic.
pub proof fn lemma_acyclic_mono(g1: Set<(u64, u64)>, g2: Set<(u64, u64)>)
    requires
        acyclic(g2),
        g1.subset_of(g2),
    ensures
        acyclic(g1),
{
    if has_cycle(g1) {
        let p = choose|p: Seq<u64>| is_path(g1, p) && p.len() >= 2 && p.first() == p.last();
        lemma_path_mono(g1, g2, p);
        assert(has_cycle(g2));
    }
}

/// Decomposing a walk of `g` plus one extra arc `e`: either the walk
/// avoids `e` entirely, or `g` alone takes it to the source of `e` and
/// from the destination of `e` to its end.
pub proof fn lemma_path_with_new_arc(g: Set<(u64, u64)>, e: (u64, u64), p: Seq<u64>)
    requires
        is_path(g.insert(e), p),
    ensures
        is_path(g, p) || (reaches(g, p.first(), e.0) && reaches(g, e.1, p.last())),
    decreases p.len(),
{
    if p.len() == 1 {
        assert(is_path(g, p));
    } else {
        let q = p.drop_last();
        assert forall|i: int| 0 <= i < q.len() - 1 implies #[trigger] g.insert(e).contains(
            (q[i], q[i + 1]),
        ) by {
            assert(q[i] == p[i]);
            assert(q[i + 1] == p[i + 1]);
            assert(g.insert(e).contains((p[i], p[i + 1])));
        }
        assert(is_path(g.insert(e), q));
        lemma_path_with_new_arc(g, e, q);
        let c = q.last();
        let b = p.last();
        assert(g.insert(e).contains((p[p.len() - 2], p[p.len() - 2 + 1])));
        assert(q[p.len() - 2] == p[p.len() - 2]);
        assert(g.insert(e).contains((c, b)));
        assert(q.first() == p.first());
        if is_path(g, q) {
            if g.contains((c, b)) {
                assert forall|i: int| 0 <= i < p.len() - 1 implies #[trigger] g.contains(
                    (p[i], p[i + 1]),
                ) by {
                    if i < p.len() - 2 {
                        assert(q[i] == p[i]);
                        assert(q[i + 1] == p[i + 1]);
                        assert(g.contains((q[i], q[i + 1])));
                    } else {
                        assert(p[i] == c && p[i + 1] == b);
                    }
                }
                assert(is_path(g, p));
            } else {
                assert((c, b) == e);
                assert(is_path(g, q) && q.first() == p.first() && q.last() == e.0);
                assert(reaches(g, p.first(), e.0));
                lemma_reaches_refl(g, e.1);
                assert(b == e.1);
            }
        } else {
            assert(reaches(g, q.first(), e.0) && reaches(g, e.1, q.last()));
            if g.contains((c, b)) {
                lemma_arc_reaches(g, c, b);
                lemma_reaches_trans(g, e.1, c, b);
            } else {
                assert((c, b) == e);
                lemma_reaches_refl(g, e.1);
                assert(b == e.1);
            }
        }
    }
}

/// Inserting an arc into an acyclic graph keeps it acyclic, provided the
/// arc's destination did not already reach the arc's source.
pub proof fn lemma_acyclic_insert(g: Set<(u64, u64)>, e: (u64, u64))
    requires
        acyclic(g),
        !reaches(g, e.1, e.0),
    ensures
        acyclic(g.insert(e)),
{
    if has_cycle(g.insert(e)) {
        let p = choose|p: Seq<u64>|
            is_path(g.insert(e), p) && p.len() >= 2 && p.first() == p.last();
        lemma_path_with_new_arc(g, e, p);
        if is_path(g, p) {
            assert(has_cycle(g));
        } else {
            lemma_reaches_trans(g, e.1, p.last(), e.0);
        }
    }
}

/// Inserting an arc whose destination already reaches its source closes
/// a cycle.
pub proof fn lemma_insert_makes_cycle(g: Set<(u64, u64)>, e: (u64, u64))
    requires
        reaches(g, e.1, e.0),
    ensures
        has_cycle(g.insert(e)),
{
    let p = choose|p: Seq<u64>| is_path(g, p) && p.first() == e.1 && p.last() == e.0;
    assert(g.subset_of(g.insert(e)));
    lemma_path_mono(g, g.insert(e), p);
    lemma_reaches_arc_cycle(g.insert(e), e.1, e.0);
}

/// Every finite nonempty vertex set of an acyclic graph has a member
/// with no predecessor inside the set.  This is what guarantees that
/// topological processing of the remaining vertices can always pick a
/// next vertex.
pub proof fn lemma_source_exists(g: Set<(u64, u64)>, s: Set<u64>)
    requires
        acyclic(g),
        s.finite(),
        s.len() > 0,
    ensures
        exists|x: u64|
            s.contains(x) && forall|t: u64| s.contains(t) ==> !g.contains((t, x)),
    decreases s.len(),
{
    let n = s.choose();
    assert(s.contains(n));
    let a = Set::new(|u: u64| s.contains(u) && u != n && reaches(g, u, n));
    assert(a.subset_of(s.remove(n)));
    lemma_len_subset(a, s.remove(n));
    if a.len() == 0 {
        assert forall|t: u64| s.contains(t) implies !g.contains((t, n)) by {
            if g.contains((t, n)) {
                lemma_arc_reaches(g, t, n);
                if t == n {
                    lemma_reaches_refl(g, n);
                    lemma_reaches_arc_cycle(g, n, n);
                } else {
                    assert(a.contains(t));
                    assert(a.remove(t).len() == a.len() - 1);
                }
            }
        }
        assert(s.contains(n) && forall|t: u64| s.contains(t) ==> !g.contains((t, n)));
    } else {
        lemma_source_exists(g, a);
        let x = choose|x: u64|
            a.contains(x) && forall|t: u64| a.contains(t) ==> !g.contains((t, x));
        assert forall|t: u64| s.contains(t) implies !g.contains((t, x)) by {
            if g.contains((t, x)) {
                lemma_arc_reaches(g, t, x);
                assert(reaches(g, x, n));
                lemma_reaches_trans(g, t, x, n);
                if t == n {
                    lemma_reaches_arc_cycle(g, x, n);
                } else {
                    assert(a.contains(t));
                }
            }
        }
        assert(s.contains(x));
    }
}

/// A vertex set that contains `a` and is closed under following arcs
/// forward contains everything reachable from `a`: walks cannot leave
/// a closed set.
pub proof fn lemma_closed_path(g: Set<(u64, u64)>, r: Set<u64>, p: Seq<u64>)
    requires
        is_path(g, p),
        r.contains(p.first()),
        forall|x: u64, y: u64|
            r.contains(x) && #[trigger] g.contains((x, y)) ==> r.contains(y),
    ensures
        r.contains(p.last()),
    decreases p.len(),
{
    if p.len() > 1 {
        let q = p.drop_last();
        assert forall|i: int| 0 <= i < q.len() - 1 implies #[trigger] g.contains(
            (q[i], q[i + 1]),
        ) by {
            assert(q[i] == p[i]);
            assert(q[i + 1] == p[i + 1]);
            assert(g.contains((p[i], p[i + 1])));
        }
        assert(is_path(g, q));
        assert(q.first() == p.first());
        lemma_closed_path(g, r, q);
        assert(g.contains((p[p.len() - 2], p[p.len() - 2 + 1])));
        assert(q.last() == p[p.len() - 2]);
        assert(r.contains(p.last()));
    }
}

/// Set form of [`lemma_closed_path`]: a closed set containing `a`
/// contains every vertex `a` reaches.
pub proof fn lemma_closed_set_reach(g: Set<(u64, u64)>, r: Set<u64>, a: u64, b: u64)
    requires
        r.contains(a),
        forall|x: u64, y: u64|
            r.contains(x) && #[trigger] g.contains((x, y)) ==> r.contains(y),
        reaches(g, a, b),
    ensures
        r.contains(b),
{
    let p = choose|p: Seq<u64>| is_path(g, p) && p.first() == a && p.last() == b;
    lemma_closed_path(g, r, p);
}

} // verus!
