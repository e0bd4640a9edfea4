//! The static dependency relation as a directed graph over entry names.
//!
//! An entry `a` has an edge to `b` when `a`'s script statically references
//! `b`. Paths, reachability and cycles over that relation are what the
//! engine's cycle detection and cascading invalidation are specified
//! against.

use vstd::prelude::*;

verus! {

/// The dependency relation: each defined name maps to the list of names its
/// script statically references.
pub type Rel = Map<Seq<char>, Seq<Seq<char>>>;

/// The views of a list of names.
pub open spec fn names_of(s: Seq<String>) -> Seq<Seq<char>> {
    s.map_values(|x: String| x@)
}

/// `a` statically references `b`.
pub open spec fn edge(rel: Rel, a: Seq<char>, b: Seq<char>) -> bool {
    rel.contains_key(a) && rel[a].contains(b)
}

/// A non-empty walk along edges of the relation.
pub open spec fn is_path(rel: Rel, p: Seq<Seq<char>>) -> bool {
    &&& p.len() >= 1
    &&& forall|k: int| 0 <= k < p.len() - 1 ==> edge(rel, #[trigger] p[k], p[k + 1])
}

/// Some path leads from `a` to `b` (in zero or more steps).
pub open spec fn reaches(rel: Rel, a: Seq<char>, b: Seq<char>) -> bool {
    exists|p: Seq<Seq<char>>| is_path(rel, p) && p.first() == a && p.last() == b
}

/// A path of at least one step leads from `n` back to `n`.
pub open spec fn in_cycle(rel: Rel, n: Seq<char>) -> bool {
    exists|p: Seq<Seq<char>>| is_path(rel, p) && p.len() >= 2 && p.first() == n && p.last() == n
}

/// Some node on a cycle is reachable from `start`.
pub open spec fn has_cycle_from(rel: Rel, start: Seq<char>) -> bool {
    exists|n: Seq<char>| reaches(rel, start, n) && #[trigger] in_cycle(rel, n)
}

/// Every name reaches itself.
pub proof fn lemma_reaches_refl(rel: Rel, a: Seq<char>)
    ensures
        reaches(rel, a, a),
{
    let p = seq![a];
    assert(is_path(rel, p) && p.first() == a && p.last() == a);
}

/// Reachability extends along an edge.
pub proof fn lemma_reaches_step(rel: Rel, a: Seq<char>, b: Seq<char>, c: Seq<char>)
    requires
        reaches(rel, a, b),
        edge(rel, b, c),
    ensures
        reaches(rel, a, c),
{
    let p = choose|p: Seq<Seq<char>>| is_path(rel, p) && p.first() == a && p.last() == b;
    let q = p.push(c);
    assert forall|k: int| 0 <= k < q.len() - 1 implies edge(rel, #[trigger] q[k], q[k + 1]) by {
        if k < p.len() - 1 {
            assert(edge(rel, p[k], p[k + 1]));
        }
    }
    assert(is_path(rel, q) && q.first() == a && q.last() == c);
}

/// Reachability composes.
pub proof fn lemma_reaches_trans(rel: Rel, a: Seq<char>, b: Seq<char>, c: Seq<char>)
    requires
        reaches(rel, a, b),
        reaches(rel, b, c),
    ensures
        reaches(rel, a, c),
{
    let p = choose|p: Seq<Seq<char>>| is_path(rel, p) && p.first() == a && p.last() == b;
    let q = choose|q: Seq<Seq<char>>| is_path(rel, q) && q.first() == b && q.last() == c;
    if q.len() == 1 {
        assert(b == c);
    } else {
        let r = p + q.drop_first();
        assert forall|k: int| 0 <= k < r.len() - 1 implies edge(rel, #[trigger] r[k], r[k + 1]) by {
            if k < p.len() - 1 {
                assert(r[k] == p[k] && r[k + 1] == p[k + 1]);
                assert(edge(rel, p[k], p[k + 1]));
            } else if k == p.len() - 1 {
                assert(r[k] == b && r[k + 1] == q[1]);
                assert(edge(rel, q[0], q[1]));
            } else {
                assert(r[k] == q[k - p.len() + 1] && r[k + 1] == q[k - p.len() + 2]);
                assert(edge(rel, q[k - p.len() + 1], q[k - p.len() + 2]));
            }
        }
        assert(is_path(rel, r) && r.first() == a && r.last() == c);
    }
}

/// A contiguous part of a path is a path.
pub proof fn lemma_subpath(rel: Rel, p: Seq<Seq<char>>, a: int, b: int)
    requires
        is_path(rel, p),
        0 <= a < b <= p.len(),
    ensures
        is_path(rel, p.subrange(a, b)),
        p.subrange(a, b).first() == p[a],
        p.subrange(a, b).last() == p[b - 1],
{
    let q = p.subrange(a, b);
    assert forall|k: int| 0 <= k < q.len() - 1 implies edge(rel, #[trigger] q[k], q[k + 1]) by {
        assert(q[k] == p[a + k]);
        assert(q[k + 1] == p[a + k + 1]);
        assert(edge(rel, p[a + k], p[a + k + 1]));
    }
}

/// A path that revisits a name exhibits a cycle reachable from its start.
pub proof fn lemma_path_repeat_cycle(rel: Rel, p: Seq<Seq<char>>, i: int, j: int)
    requires
        is_path(rel, p),
        0 <= i < j < p.len(),
        p[i] == p[j],
    ensures
        has_cycle_from(rel, p.first()),
{
    lemma_subpath(rel, p, 0, i + 1);
    assert(reaches(rel, p.first(), p[i]));
    lemma_subpath(rel, p, i, j + 1);
    assert(in_cycle(rel, p[i]));
}

/// A reach whose target has an edge back to the source closes a cycle at
/// the source.
pub proof fn lemma_reach_edge_cycle(rel: Rel, a: Seq<char>, b: Seq<char>)
    requires
        reaches(rel, a, b),
        edge(rel, b, a),
    ensures
        in_cycle(rel, a),
{
    let p = choose|p: Seq<Seq<char>>| is_path(rel, p) && p.first() == a && p.last() == b;
    let q = p.push(a);
    assert forall|k: int| 0 <= k < q.len() - 1 implies edge(rel, #[trigger] q[k], q[k + 1]) by {
        if k < p.len() - 1 {
            assert(edge(rel, p[k], p[k + 1]));
        }
    }
    assert(is_path(rel, q) && q.len() >= 2 && q.first() == a && q.last() == a);
}

/// A cycle through `n` ends with an edge into `n` from a node `n` reaches.
pub proof fn lemma_cycle_decompose_last(rel: Rel, n: Seq<char>)
    requires
        in_cycle(rel, n),
    ensures
        exists|z: Seq<char>| #[trigger] edge(rel, z, n) && reaches(rel, n, z),
{
    let p = choose|p: Seq<Seq<char>>|
        is_path(rel, p) && p.len() >= 2 && p.first() == n && p.last() == n;
    let z = p[p.len() - 2];
    assert(edge(rel, z, n));
    lemma_subpath(rel, p, 0, p.len() - 1);
    assert(reaches(rel, n, z));
}

/// A non-trivial reach decomposes into a reach to a direct predecessor of
/// the target.
pub proof fn lemma_reaches_decompose_last(rel: Rel, a: Seq<char>, b: Seq<char>)
    requires
        reaches(rel, a, b),
        a != b,
    ensures
        exists|d: Seq<char>| reaches(rel, a, d) && #[trigger] edge(rel, d, b),
{
    let p = choose|p: Seq<Seq<char>>| is_path(rel, p) && p.first() == a && p.last() == b;
    let d = p[p.len() - 2];
    lemma_subpath(rel, p, 0, p.len() - 1);
    assert(edge(rel, d, b));
    assert(reaches(rel, a, d));
}

/// A cycle through `n` starts with an edge out of `n` whose target reaches
/// `n` back.
pub proof fn lemma_cycle_decompose(rel: Rel, n: Seq<char>)
    requires
        in_cycle(rel, n),
    ensures
        exists|m: Seq<char>| #[trigger] edge(rel, n, m) && reaches(rel, m, n),
{
    let p = choose|p: Seq<Seq<char>>|
        is_path(rel, p) && p.len() >= 2 && p.first() == n && p.last() == n;
    let m = p[1];
    assert(edge(rel, p[0], p[1]));
    lemma_subpath(rel, p, 1, p.len() as int);
    assert(reaches(rel, m, n));
}

/// An edge out of `n` whose target reaches `n` back closes a cycle at `n`.
pub proof fn lemma_cycle_compose(rel: Rel, n: Seq<char>, m: Seq<char>)
    requires
        edge(rel, n, m),
        reaches(rel, m, n),
    ensures
        in_cycle(rel, n),
{
    let p = choose|p: Seq<Seq<char>>| is_path(rel, p) && p.first() == m && p.last() == n;
    let q = seq![n] + p;
    assert forall|k: int| 0 <= k < q.len() - 1 implies edge(rel, #[trigger] q[k], q[k + 1]) by {
        if k == 0 {
            assert(q[0] == n && q[1] == p[0]);
        } else {
            assert(q[k] == p[k - 1] && q[k + 1] == p[k]);
            assert(edge(rel, p[k - 1], p[k]));
        }
    }
    assert(is_path(rel, q) && q.len() >= 2 && q.first() == n && q.last() == n);
}

/// A name with no outgoing edge cannot reach a cycle.
pub proof fn lemma_no_cycle_without_exit(rel: Rel, n: Seq<char>)
    requires
        forall|b: Seq<char>| !#[trigger] edge(rel, n, b),
    ensures
        !has_cycle_from(rel, n),
{
    if has_cycle_from(rel, n) {
        let m = choose|m: Seq<char>| reaches(rel, n, m) && #[trigger] in_cycle(rel, m);
        let p = choose|p: Seq<Seq<char>>| is_path(rel, p) && p.first() == n && p.last() == m;
        if p.len() >= 2 {
            assert(edge(rel, p[0], p[1]));
        }
        assert(m == n);
        let q = choose|q: Seq<Seq<char>>|
            is_path(rel, q) && q.len() >= 2 && q.first() == n && q.last() == n;
        assert(edge(rel, q[0], q[1]));
    }
}

/// Following a path from inside an edge-closed set never leaves the set.
pub proof fn lemma_closed_reaches(rel: Rel, s: Set<Seq<char>>, p: Seq<Seq<char>>)
    requires
        is_path(rel, p),
        s.contains(p.first()),
        forall|a: Seq<char>, b: Seq<char>|
            s.contains(a) && #[trigger] edge(rel, a, b) ==> s.contains(b),
    ensures
        s.contains(p.last()),
    decreases p.len(),
{
    if p.len() > 1 {
        let q = p.drop_last();
        lemma_subpath(rel, p, 0, p.len() - 1);
        lemma_closed_reaches(rel, s, q);
        assert(edge(rel, p[p.len() - 2], p[p.len() - 1]));
    }
}

} // verus!
