//! Mathematical model of routes over the zone graph: the adjacency view,
//! what counts as a route between two zones, and reachability.

use vstd::prelude::*;
use crate::graph::Node;

verus! {

/// The adjacency of a zone table: entry `i` is zone `i`'s declared neighbour
/// list, in traversal priority order.
pub open spec fn adjacency(nodes: Seq<Node>) -> Seq<Seq<usize>> {
    Seq::new(nodes.len(), |i: int| nodes[i].neighbours@)
}

/// One hop from `a` to `b` is allowed when `b` stands in `a`'s declared
/// neighbour list.
pub open spec fn step_ok(adj: Seq<Seq<usize>>, a: usize, b: usize) -> bool {
    &&& a < adj.len()
    &&& adj[a as int].contains(b)
}

/// `p` is a route over `adj` from `s` to `e`: non-empty, every entry a valid
/// zone index, every consecutive pair a declared hop, starting at `s` and
/// ending at `e` (both inclusive).
pub open spec fn is_path(adj: Seq<Seq<usize>>, p: Seq<usize>, s: usize, e: usize) -> bool {
    &&& p.len() >= 1
    &&& forall|k: int| 0 <= k < p.len() ==> p[k] < adj.len()
    &&& forall|k: int| 0 <= k < p.len() - 1 ==> step_ok(adj, #[trigger] p[k], p[k + 1])
    &&& p[0] == s
    &&& p[p.len() - 1] == e
}

/// Some route over `adj` leads from `s` to `e`.
pub open spec fn reachable(adj: Seq<Seq<usize>>, s: usize, e: usize) -> bool {
    exists|p: Seq<usize>| is_path(adj, p, s, e)
}

/// Every declared hop runs both ways.
pub open spec fn symmetric(adj: Seq<Seq<usize>>) -> bool {
    forall|a: usize, b: usize| #[trigger] step_ok(adj, a, b) && b < adj.len() ==> step_ok(adj, b, a)
}

/// Path symmetry: over adjacency that is declared in both directions, the
/// reverse of a route from `a` to `b` is a route from `b` to `a`.
pub proof fn lemma_path_reverse(adj: Seq<Seq<usize>>, p: Seq<usize>, a: usize, b: usize)
    requires
        symmetric(adj),
        is_path(adj, p, a, b),
    ensures
        is_path(adj, p.reverse(), b, a),
{
    let q = p.reverse();
    let n = p.len() as int;
    assert forall|k: int| 0 <= k < q.len() - 1 implies step_ok(adj, #[trigger] q[k], q[k + 1]) by {
        assert(q[k] == p[n - 1 - k]);
        assert(q[k + 1] == p[n - 2 - k]);
        assert(step_ok(adj, p[n - 2 - k], p[n - 1 - k]));
    }
}

/// A non-empty prefix of a route is a route to the zone it stops at.
pub proof fn lemma_path_prefix(adj: Seq<Seq<usize>>, p: Seq<usize>, s: usize, e: usize, t: int)
    requires
        is_path(adj, p, s, e),
        1 <= t <= p.len(),
    ensures
        is_path(adj, p.take(t), s, p[t - 1]),
{
    let q = p.take(t);
    assert forall|k: int| 0 <= k < q.len() - 1 implies step_ok(adj, #[trigger] q[k], q[k + 1]) by {
        assert(q[k] == p[k]);
        assert(q[k + 1] == p[k + 1]);
    }
}

/// Appending a declared hop to a route extends it by one zone.
pub proof fn lemma_path_extend(adj: Seq<Seq<usize>>, p: Seq<usize>, s: usize, e: usize, b: usize)
    requires
        is_path(adj, p, s, e),
        step_ok(adj, e, b),
        b < adj.len(),
    ensures
        is_path(adj, p.push(b), s, b),
{
    let q = p.push(b);
    assert forall|k: int| 0 <= k < q.len() - 1 implies step_ok(adj, #[trigger] q[k], q[k + 1]) by {
        if k < p.len() - 1 {
            assert(q[k] == p[k]);
            assert(q[k + 1] == p[k + 1]);
        } else {
            assert(q[k] == e);
            assert(q[k + 1] == b);
        }
    }
}

/// Reachability is mutual over adjacency that is declared in both directions.
pub proof fn lemma_reachable_symmetric(adj: Seq<Seq<usize>>, a: usize, b: usize)
    requires
        symmetric(adj),
        reachable(adj, a, b),
    ensures
        reachable(adj, b, a),
{
    let p = choose|p: Seq<usize>| is_path(adj, p, a, b);
    lemma_path_reverse(adj, p, a, b);
}

/// Path symmetry for minimum-hop routes: over adjacency declared in both
/// directions, a minimal route from `a` to `b` and a minimal route from `b`
/// to `a` have the same length, and the reverse of the first is itself a
/// route from `b` to `a` of that minimal length.
pub proof fn lemma_minimal_routes_symmetric(
    adj: Seq<Seq<usize>>,
    p_ab: Seq<usize>,
    p_ba: Seq<usize>,
    a: usize,
    b: usize,
)
    requires
        symmetric(adj),
        is_path(adj, p_ab, a, b),
        is_path(adj, p_ba, b, a),
        forall|q: Seq<usize>| #[trigger] is_path(adj, q, a, b) ==> q.len() >= p_ab.len(),
        forall|q: Seq<usize>| #[trigger] is_path(adj, q, b, a) ==> q.len() >= p_ba.len(),
    ensures
        p_ab.len() == p_ba.len(),
        is_path(adj, p_ab.reverse(), b, a),
{
    lemma_path_reverse(adj, p_ab, a, b);
    lemma_path_reverse(adj, p_ba, b, a);
    assert(p_ab.reverse().len() == p_ab.len());
    assert(p_ba.reverse().len() == p_ba.len());
}

/// A set of zones that contains `s` and is closed under declared hops
/// contains the endpoint of every route that starts at `s`.
pub proof fn lemma_path_stays_in_closed(
    adj: Seq<Seq<usize>>,
    marked: Set<int>,
    p: Seq<usize>,
    s: usize,
    e: usize,
)
    requires
        marked.contains(s as int),
        forall|a: usize, b: usize|
            marked.contains(a as int) && #[trigger] step_ok(adj, a, b) ==> marked.contains(
                b as int,
            ),
        is_path(adj, p, s, e),
    ensures
        marked.contains(e as int),
    decreases p.len(),
{
    if p.len() == 1 {
        assert(e == s);
    } else {
        assert(step_ok(adj, p[0], p[1]));
        let q = p.skip(1);
        assert(is_path(adj, q, p[1], e)) by {
            assert forall|k: int| 0 <= k < q.len() - 1 implies step_ok(
                adj,
                #[trigger] q[k],
                q[k + 1],
            ) by {
                assert(q[k] == p[k + 1]);
                assert(q[k + 1] == p[k + 2]);
            }
        }
        lemma_path_stays_in_closed(adj, marked, q, p[1], e);
    }
}

/// No route leads from `s` to `e` when some set of zones holds `s`, is closed
/// under declared hops, and misses `e`.
pub proof fn lemma_closed_set_unreachable(
    adj: Seq<Seq<usize>>,
    marked: Set<int>,
    s: usize,
    e: usize,
)
    requires
        marked.contains(s as int),
        forall|a: usize, b: usize|
            marked.contains(a as int) && #[trigger] step_ok(adj, a, b) ==> marked.contains(
                b as int,
            ),
        !marked.contains(e as int),
    ensures
        !reachable(adj, s, e),
{
    if reachable(adj, s, e) {
        let p = choose|p: Seq<usize>| is_path(adj, p, s, e);
        lemma_path_stays_in_closed(adj, marked, p, s, e);
    }
}

/// The routes enqueued while expanding a route's endpoint over the neighbour
/// list `nbs`, paired with the visited set as it grows: a fresh neighbour
/// enqueues `route` extended by it and is marked visited; an already-visited
/// neighbour is skipped.
#[verifier::opaque]
pub open spec fn bfs_expand(route: Seq<usize>, nbs: Seq<usize>, vis: Set<int>) -> (
    Seq<Seq<usize>>,
    Set<int>,
)
    decreases nbs.len(),
{
    if nbs.len() == 0 {
        (Seq::<Seq<usize>>::empty(), vis)
    } else {
        let nb = nbs[0];
        if vis.contains(nb as int) {
            bfs_expand(route, nbs.skip(1), vis)
        } else {
            let rest = bfs_expand(route, nbs.skip(1), vis.insert(nb as int));
            (seq![route.push(nb)] + rest.0, rest.1)
        }
    }
}

/// The route the breadth-first search delivers from a queue of pending
/// routes: the front route is taken; if it ends at `end` it is the answer,
/// otherwise its endpoint's neighbours are expanded in declared order and
/// the search goes on. `fuel` bounds the number of steps taken; the search
/// itself visits each zone at most once, so any fuel past the zone count
/// changes nothing.
#[verifier::opaque]
pub open spec fn bfs_from(
    adj: Seq<Seq<usize>>,
    end: usize,
    q: Seq<Seq<usize>>,
    vis: Set<int>,
    fuel: nat,
) -> Option<Seq<usize>>
    decreases fuel,
{
    if q.len() == 0 || fuel == 0 {
        None
    } else {
        let route = q[0];
        let v = route[route.len() - 1];
        if v == end {
            Some(route)
        } else {
            let ex = bfs_expand(route, adj[v as int], vis);
            bfs_from(adj, end, q.skip(1) + ex.0, ex.1, (fuel - 1) as nat)
        }
    }
}

/// The route the breadth-first search returns over `adj` from `start` to
/// `end`: a function of the adjacency and the endpoints alone, so the search
/// is deterministic and reproducible.
pub open spec fn bfs_route(adj: Seq<Seq<usize>>, start: usize, end: usize) -> Option<Seq<usize>> {
    bfs_from(
        adj,
        end,
        seq![seq![start]],
        Set::<int>::empty().insert(start as int),
        (adj.len() + 1) as nat,
    )
}

pub proof fn lemma_bfs_expand_empty(route: Seq<usize>, nbs: Seq<usize>, vis: Set<int>)
    requires
        nbs.len() == 0,
    ensures
        bfs_expand(route, nbs, vis).0 == Seq::<Seq<usize>>::empty(),
        bfs_expand(route, nbs, vis).1 == vis,
{
    reveal(bfs_expand);
}

pub proof fn lemma_bfs_expand_seen(route: Seq<usize>, nbs: Seq<usize>, vis: Set<int>)
    requires
        nbs.len() > 0,
        vis.contains(nbs[0] as int),
    ensures
        bfs_expand(route, nbs, vis) == bfs_expand(route, nbs.skip(1), vis),
{
    reveal(bfs_expand);
}

pub proof fn lemma_bfs_expand_fresh(route: Seq<usize>, nbs: Seq<usize>, vis: Set<int>)
    requires
        nbs.len() > 0,
        !vis.contains(nbs[0] as int),
    ensures
        bfs_expand(route, nbs, vis).0 == seq![route.push(nbs[0])] + bfs_expand(
            route,
            nbs.skip(1),
            vis.insert(nbs[0] as int),
        ).0,
        bfs_expand(route, nbs, vis).1 == bfs_expand(
            route,
            nbs.skip(1),
            vis.insert(nbs[0] as int),
        ).1,
{
    reveal(bfs_expand);
}

pub proof fn lemma_bfs_from_empty(
    adj: Seq<Seq<usize>>,
    end: usize,
    q: Seq<Seq<usize>>,
    vis: Set<int>,
    fuel: nat,
)
    requires
        q.len() == 0,
    ensures
        bfs_from(adj, end, q, vis, fuel) is None,
{
    reveal(bfs_from);
}

pub proof fn lemma_bfs_from_found(
    adj: Seq<Seq<usize>>,
    end: usize,
    q: Seq<Seq<usize>>,
    vis: Set<int>,
    fuel: nat,
)
    requires
        q.len() > 0,
        fuel > 0,
        q[0].len() > 0,
        q[0][q[0].len() - 1] == end,
    ensures
        bfs_from(adj, end, q, vis, fuel) == Some(q[0]),
{
    reveal(bfs_from);
}

pub proof fn lemma_bfs_from_step(
    adj: Seq<Seq<usize>>,
    end: usize,
    q: Seq<Seq<usize>>,
    vis: Set<int>,
    fuel: nat,
)
    requires
        q.len() > 0,
        fuel > 0,
        q[0].len() > 0,
        q[0][q[0].len() - 1] != end,
    ensures
        bfs_from(adj, end, q, vis, fuel) == bfs_from(
            adj,
            end,
            q.skip(1) + bfs_expand(q[0], adj[q[0][q[0].len() - 1] as int], vis).0,
            bfs_expand(q[0], adj[q[0][q[0].len() - 1] as int], vis).1,
            (fuel - 1) as nat,
        ),
{
    reveal(bfs_from);
}

} // verus!
