//! The planner: point location, breadth-first shortest-hop search, mission
//! sequencing with scan-once semantics, return-home replanning, and the
//! route cursor.

use vstd::prelude::*;
use crate::graph::{Node, PathPoint, ScanSettings};
use crate::pathspec::{
    adjacency, bfs_expand, bfs_from, bfs_route, is_path, lemma_bfs_expand_empty,
    lemma_bfs_expand_fresh, lemma_bfs_expand_seen, lemma_bfs_from_empty, lemma_bfs_from_found,
    lemma_bfs_from_step, lemma_closed_set_unreachable, lemma_path_extend, lemma_path_prefix,
    reachable, step_ok,
};
use crate::queue_ext::{
    queue_cap, queue_dequeue, queue_is_empty, queue_items, queue_new, queue_push,
};
use vstd::set_lib::{lemma_int_range, lemma_len_subset, set_int_range};

verus! {

/// Why a planning call failed.
#[derive(Clone, Copy, PartialEq, Eq, Structural, Debug)]
pub enum PlanError {
    /// The zone table references a zone index outside the valid range.
    ConfigurationError,
    /// A position lies outside every zone's bounds.
    UnknownStartPosition,
    /// The search exhausted the graph without reaching the target.
    NoRouteFound,
    /// A mission produced zero waypoints.
    EmptyRoute,
    /// The cursor was advanced past the end of the current route.
    OutOfWaypoints,
}

/// The planner: the fixed zone table, the per-start-zone visit-order table,
/// the current route with its read cursor, and the mission start position.
///
/// `route_zones` records, for each waypoint of `global_path`, the zone it was
/// emitted from; `leg_bounds` records where each search leg of the current
/// mission route starts and ends within `route_zones`.
pub struct NodeMap {
    pub nodes: Vec<Node>,
    pub rooms: Vec<Vec<usize>>,
    pub global_path: Vec<PathPoint>,
    pub route_zones: Ghost<Seq<usize>>,
    pub leg_bounds: Ghost<Seq<int>>,
    pub start_x: i32,
    pub start_y: i32,
    pub cur_path_index: usize,
}

/// Every declared neighbour index references a valid zone.
pub open spec fn valid_graph(nodes: Seq<Node>) -> bool {
    forall|i: int, k: int|
        0 <= i < nodes.len() && 0 <= k < nodes[i].neighbours@.len()
            ==> (#[trigger] nodes[i].neighbours@[k]) < nodes.len()
}

/// Every target index of the visit-order table references a valid zone.
pub open spec fn valid_targets(rooms: Seq<Vec<usize>>, n: int) -> bool {
    forall|i: int, k: int|
        0 <= i < rooms.len() && 0 <= k < rooms[i]@.len() ==> (#[trigger] rooms[i]@[k]) < n
}

/// Waypoint `w` carries zone `z`'s declared position and scan angle verbatim.
pub open spec fn wp_matches(nodes: Seq<Node>, w: PathPoint, z: usize) -> bool {
    &&& z < nodes.len()
    &&& w.x == nodes[z as int].node_point.x
    &&& w.y == nodes[z as int].node_point.y
    &&& w.angle == nodes[z as int].scan_angle
}

/// `b` is `a` with at most the transient search scratch (`visited`,
/// `previous`) and the mission-lifetime `scanned` flag changed.
pub open spec fn same_node_core(a: Node, b: Node) -> bool {
    &&& b.node_point == a.node_point
    &&& b.bound_upp_left == a.bound_upp_left
    &&& b.bound_low_right == a.bound_low_right
    &&& b.neighbours@ == a.neighbours@
    &&& b.name@ == a.name@
    &&& b.index == a.index
    &&& b.scan_settings == a.scan_settings
    &&& b.scan_angle == a.scan_angle
}

pub open spec fn same_cores(a: Seq<Node>, b: Seq<Node>) -> bool {
    &&& a.len() == b.len()
    &&& forall|i: int| 0 <= i < a.len() ==> same_node_core(#[trigger] a[i], #[trigger] b[i])
}

/// The mission-lifetime `scanned` flags agree.
pub open spec fn same_scanned(a: Seq<Node>, b: Seq<Node>) -> bool {
    &&& a.len() == b.len()
    &&& forall|i: int| 0 <= i < a.len() ==> (#[trigger] a[i]).scanned == b[i].scanned
}

/// Zone `v` is fully expanded: every declared neighbour is marked visited,
/// with a recorded route at most one hop longer than `v`'s.
pub open spec fn fully_expanded(nodes: Seq<Node>, gp: Map<int, Seq<usize>>, v: int) -> bool {
    forall|k: int|
        0 <= k < nodes[v].neighbours@.len()
            ==> nodes[(#[trigger] nodes[v].neighbours@[k]) as int].visited && gp[nodes[v].neighbours@[k] as int].len() <= gp[v].len() + 1
}

/// The search scratch encodes, for every zone marked visited, a route from
/// `start` to it: `gp` gives the route, and each zone's `previous` link steps
/// back along it.
pub open spec fn chain_ok(nodes: Seq<Node>, gp: Map<int, Seq<usize>>, start: usize) -> bool {
    &&& start < nodes.len()
    &&& nodes[start as int].visited
    &&& gp.dom().contains(start as int)
    &&& gp[start as int] =~= seq![start]
    &&& forall|v: int|
        0 <= v < nodes.len() && nodes[v].visited ==> #[trigger] gp.dom().contains(v) && is_path(
            adjacency(nodes),
            gp[v],
            start,
            v as usize,
        )
    &&& forall|v: int|
        0 <= v < nodes.len() && nodes[v].visited && v != start ==> {
            &&& ((#[trigger] nodes[v].previous) as int) < nodes.len()
            &&& nodes[nodes[v].previous as int].visited
            &&& gp[v] =~= gp[nodes[v].previous as int].push(v as usize)
        }
}

/// `r` is the point locator's answer for `(x, y)`: the first zone (in index
/// order) whose box contains the position, or the sentinel `nodes.len()` when
/// no zone's box does.
pub open spec fn locates(nodes: Seq<Node>, x: i32, y: i32, r: usize) -> bool {
    &&& r <= nodes.len()
    &&& forall|i: int| 0 <= i < r ==> !(#[trigger] nodes[i]).contains_spec(x, y)
    &&& r < nodes.len() ==> nodes[r as int].contains_spec(x, y)
}

/// The point locator's answer, scanning from index `i` upward: the first zone
/// whose box contains `(x, y)`, or the sentinel `nodes.len()`.
pub open spec fn locate_from(nodes: Seq<Node>, x: i32, y: i32, i: int) -> usize
    decreases nodes.len() - i,
{
    if i < 0 || i >= nodes.len() {
        nodes.len() as usize
    } else if nodes[i].contains_spec(x, y) {
        i as usize
    } else {
        locate_from(nodes, x, y, i + 1)
    }
}

/// The point locator's answer for `(x, y)`.
pub open spec fn locate_spec(nodes: Seq<Node>, x: i32, y: i32) -> usize {
    locate_from(nodes, x, y, 0)
}

/// The start zone of mission leg `k`: the mission start for the first leg,
/// thereafter the previous leg's target.
pub open spec fn leg_start(s: usize, targets: Seq<usize>, k: int) -> usize {
    if k == 0 {
        s
    } else {
        targets[k - 1]
    }
}

/// Every leg of the mission tour has a route: from the start zone to the
/// first target, then from each target to the next.
pub open spec fn mission_feasible(adj: Seq<Seq<usize>>, s: usize, targets: Seq<usize>) -> bool {
    forall|k: int|
        0 <= k < targets.len() ==> reachable(adj, leg_start(s, targets, k), #[trigger] targets[k])
}

/// The zones `rz` of a mission route decompose along the boundaries `lb`
/// into one leg per target: leg `k` runs from boundary `lb[k]` up to
/// `lb[k + 1]` and is a minimum-hop route from the previous target (the
/// start zone `s` for the first leg) to target `k` — exactly the route the
/// breadth-first search returns for those endpoints. The boundaries cover
/// `rz` completely, so the route is exactly the legs' concatenation, a
/// function of the zone table, the start zone and the visit order alone.
#[verifier::opaque]
pub open spec fn legs_decompose(
    adj: Seq<Seq<usize>>,
    rz: Seq<usize>,
    lb: Seq<int>,
    s: usize,
    targets: Seq<usize>,
) -> bool {
    &&& lb.len() == targets.len() + 1
    &&& lb[0] == 0
    &&& lb[lb.len() - 1] == rz.len()
    &&& (forall|k1: int, k2: int|
        0 <= k1 <= k2 < lb.len() ==> #[trigger] lb[k1] <= #[trigger] lb[k2])
    &&& (forall|k: int| 0 <= k < targets.len() ==> lb[k] < #[trigger] lb[k + 1])
    &&& (forall|k: int|
        0 <= k < targets.len() ==> is_path(
            adj,
            rz.subrange(lb[k], lb[k + 1]),
            leg_start(s, targets, k),
            #[trigger] targets[k],
        ))
    &&& (forall|k: int, q: Seq<usize>|
        0 <= k < targets.len() && #[trigger] is_path(adj, q, leg_start(s, targets, k), targets[k])
            ==> q.len() >= lb[k + 1] - lb[k])
    &&& (forall|k: int|
        0 <= k < targets.len() ==> Some(rz.subrange(lb[k], lb[k + 1])) == bfs_route(
            adj,
            leg_start(s, targets, k),
            #[trigger] targets[k],
        ))
}

/// A subrange within the first part of a concatenation reads from that part
/// alone.
proof fn lemma_subrange_of_extension(a: Seq<usize>, b: Seq<usize>, lo: int, hi: int)
    requires
        0 <= lo <= hi <= a.len(),
    ensures
        (a + b).subrange(lo, hi) == a.subrange(lo, hi),
{
    assert((a + b).subrange(lo, hi) =~= a.subrange(lo, hi));
}

/// The part of a concatenation past the first part is the second part.
proof fn lemma_suffix_of_extension(a: Seq<usize>, b: Seq<usize>)
    ensures
        (a + b).subrange(a.len() as int, (a + b).len() as int) == b,
{
    assert((a + b).subrange(a.len() as int, (a + b).len() as int) =~= b);
}

/// After appending one search leg, every covered target still has its leg:
/// the earlier subranges are untouched by the appends, and the new subrange
/// is exactly the appended route.
#[verifier::rlimit(100)]
proof fn lemma_extend_legs_paths(
    adj0: Seq<Seq<usize>>,
    base: Seq<usize>,
    cp: Seq<usize>,
    lb: Seq<int>,
    lbnew: Seq<int>,
    start_room: usize,
    targets: Seq<usize>,
    t2: Seq<usize>,
    ri: int,
    prev: usize,
)
    requires
        legs_decompose(adj0, base, lb, start_room, targets.take(ri)),
        0 <= ri < targets.len(),
        t2 == targets.take(ri + 1),
        lbnew == lb.push((base + cp).len() as int),
        prev == leg_start(start_room, targets, ri),
        is_path(adj0, cp, prev, targets[ri]),
        Some(cp) == bfs_route(adj0, prev, targets[ri]),
    ensures
        forall|k: int|
            0 <= k < t2.len() ==> is_path(
                adj0,
                (base + cp).subrange(lbnew[k], lbnew[k + 1]),
                leg_start(start_room, t2, k),
                #[trigger] t2[k],
            ),
        forall|k: int|
            0 <= k < t2.len() ==> Some((base + cp).subrange(lbnew[k], lbnew[k + 1])) == bfs_route(
                adj0,
                leg_start(start_room, t2, k),
                #[trigger] t2[k],
            ),
{
    reveal(legs_decompose);
    let t1 = targets.take(ri);
    let rznew = base + cp;
    assert(t1.len() == ri);
    assert(t2.len() == ri + 1);
    assert(lb[lb.len() - 1] == base.len());
    assert forall|k: int|
        0 <= k < t2.len() implies is_path(
        adj0,
        rznew.subrange(lbnew[k], lbnew[k + 1]),
        leg_start(start_room, t2, k),
        #[trigger] t2[k],
    ) && Some(rznew.subrange(lbnew[k], lbnew[k + 1])) == bfs_route(
        adj0,
        leg_start(start_room, t2, k),
        t2[k],
    ) by {
        if k < ri {
            assert(t2[k] == t1[k]);
            assert(leg_start(start_room, t2, k) == leg_start(start_room, t1, k)) by {
                if k > 0 {
                    assert(t2[k - 1] == t1[k - 1]);
                }
            }
            assert(lbnew[k] == lb[k]);
            assert(lbnew[k + 1] == lb[k + 1]);
            assert(lb[k + 1] <= lb[lb.len() - 1]);
            assert(0 <= lb[k] < lb[k + 1] <= base.len());
            lemma_subrange_of_extension(base, cp, lb[k], lb[k + 1]);
            assert(is_path(
                adj0,
                base.subrange(lb[k], lb[k + 1]),
                leg_start(start_room, t1, k),
                t1[k],
            ));
            assert(Some(base.subrange(lb[k], lb[k + 1])) == bfs_route(
                adj0,
                leg_start(start_room, t1, k),
                t1[k],
            ));
        } else {
            assert(t2[ri] == targets[ri]);
            assert(leg_start(start_room, t2, ri) == prev) by {
                if ri > 0 {
                    assert(t2[ri - 1] == targets[ri - 1]);
                }
            }
            assert(lbnew[ri] == base.len());
            assert(lbnew[ri + 1] == rznew.len());
            lemma_suffix_of_extension(base, cp);
        }
    }
}

/// After appending one minimum-hop search leg, every covered target's leg is
/// still no longer than any route between its endpoints.
#[verifier::rlimit(100)]
proof fn lemma_extend_legs_minimal(
    adj0: Seq<Seq<usize>>,
    base: Seq<usize>,
    cp: Seq<usize>,
    lb: Seq<int>,
    lbnew: Seq<int>,
    start_room: usize,
    targets: Seq<usize>,
    t2: Seq<usize>,
    ri: int,
    prev: usize,
)
    requires
        legs_decompose(adj0, base, lb, start_room, targets.take(ri)),
        0 <= ri < targets.len(),
        t2 == targets.take(ri + 1),
        lbnew == lb.push((base + cp).len() as int),
        prev == leg_start(start_room, targets, ri),
        forall|q: Seq<usize>| #[trigger] is_path(adj0, q, prev, targets[ri]) ==> q.len()
            >= cp.len(),
    ensures
        forall|k: int, q: Seq<usize>|
            0 <= k < t2.len() && #[trigger] is_path(adj0, q, leg_start(start_room, t2, k), t2[k])
                ==> q.len() >= lbnew[k + 1] - lbnew[k],
{
    reveal(legs_decompose);
    let t1 = targets.take(ri);
    assert(t1.len() == ri);
    assert(t2.len() == ri + 1);
    assert(lb[lb.len() - 1] == base.len());
    assert forall|k: int, q: Seq<usize>|
        0 <= k < t2.len() && #[trigger] is_path(adj0, q, leg_start(start_room, t2, k), t2[k])
        implies q.len() >= lbnew[k + 1] - lbnew[k] by {
        if k < ri {
            assert(t2[k] == t1[k]);
            assert(leg_start(start_room, t2, k) == leg_start(start_room, t1, k)) by {
                if k > 0 {
                    assert(t2[k - 1] == t1[k - 1]);
                }
            }
            assert(is_path(adj0, q, leg_start(start_room, t1, k), t1[k]));
            assert(lbnew[k] == lb[k]);
            assert(lbnew[k + 1] == lb[k + 1]);
        } else {
            assert(t2[ri] == targets[ri]);
            assert(leg_start(start_room, t2, ri) == prev) by {
                if ri > 0 {
                    assert(t2[ri - 1] == targets[ri - 1]);
                }
            }
            assert(is_path(adj0, q, prev, targets[ri]));
            assert(q.len() >= cp.len());
            assert(lbnew[ri] == base.len());
            assert(lbnew[ri + 1] == base.len() + cp.len());
        }
    }
}

/// Appending one more minimum-hop search leg to a decomposed mission route
/// keeps it decomposed, now covering one more target.
#[verifier::rlimit(100)]
proof fn lemma_extend_legs(
    adj0: Seq<Seq<usize>>,
    base: Seq<usize>,
    cp: Seq<usize>,
    lb: Seq<int>,
    start_room: usize,
    targets: Seq<usize>,
    ri: int,
    prev: usize,
)
    requires
        legs_decompose(adj0, base, lb, start_room, targets.take(ri)),
        0 <= ri < targets.len(),
        prev == leg_start(start_room, targets, ri),
        is_path(adj0, cp, prev, targets[ri]),
        Some(cp) == bfs_route(adj0, prev, targets[ri]),
        forall|q: Seq<usize>| #[trigger] is_path(adj0, q, prev, targets[ri]) ==> q.len()
            >= cp.len(),
    ensures
        legs_decompose(
            adj0,
            base + cp,
            lb.push((base + cp).len() as int),
            start_room,
            targets.take(ri + 1),
        ),
{
    let t1 = targets.take(ri);
    let t2 = targets.take(ri + 1);
    let rznew = base + cp;
    let lbnew = lb.push(rznew.len() as int);
    lemma_extend_legs_paths(adj0, base, cp, lb, lbnew, start_room, targets, t2, ri, prev);
    lemma_extend_legs_minimal(adj0, base, cp, lb, lbnew, start_room, targets, t2, ri, prev);
    assert(cp.len() >= 1);
    assert(legs_decompose(adj0, rznew, lbnew, start_room, t2)) by {
        reveal(legs_decompose);
        assert(t1.len() == ri);
        assert(t2.len() == ri + 1);
        assert(lbnew.len() == t2.len() + 1);
        assert(lb[lb.len() - 1] == base.len());
        assert(lbnew[ri] == base.len());
        assert(lbnew[ri + 1] == rznew.len());
        assert forall|k: int| 0 <= k < t2.len() implies lbnew[k] < #[trigger] lbnew[k + 1] by {
            if k < ri {
                assert(lbnew[k] == lb[k]);
                assert(lbnew[k + 1] == lb[k + 1]);
            }
        }
        assert forall|k1: int, k2: int|
            0 <= k1 <= k2 < lbnew.len() implies #[trigger] lbnew[k1] <= #[trigger] lbnew[k2] by {
            if k2 < lbnew.len() - 1 {
                assert(lbnew[k1] == lb[k1]);
                assert(lbnew[k2] == lb[k2]);
            } else {
                assert(lbnew[k2] == rznew.len());
                if k1 < lbnew.len() - 1 {
                    assert(lbnew[k1] == lb[k1]);
                    assert(lb[k1] <= lb[lb.len() - 1]);
                }
            }
        }
    }
}

/// The scan state computed for position `i` of a route visiting the zones
/// `rz` in order: `Scan` exactly on the first visit to a zone whose static
/// setting is `Scan`, otherwise `NoScan`.
#[verifier::opaque]
pub open spec fn scan_at(nodes: Seq<Node>, rz: Seq<usize>, i: int) -> ScanSettings {
    if nodes[rz[i] as int].scan_settings == ScanSettings::Scan && (forall|j: int|
        0 <= j < i ==> rz[j] != rz[i]) {
        ScanSettings::Scan
    } else {
        ScanSettings::NoScan
    }
}

/// Zone tables with the same static data describe the same graph.
pub proof fn lemma_same_cores_graph(a: Seq<Node>, b: Seq<Node>)
    requires
        valid_graph(a),
        same_cores(a, b),
    ensures
        valid_graph(b),
        adjacency(b) == adjacency(a),
{
    assert(adjacency(a) =~= adjacency(b));
    assert forall|ii: int, kk: int|
        0 <= ii < b.len() && 0 <= kk < b[ii].neighbours@.len()
            implies (#[trigger] b[ii].neighbours@[kk]) < b.len() by {
        assert(same_node_core(a[ii], b[ii]));
        assert(a[ii].neighbours@[kk] < a.len());
    }
}

pub proof fn lemma_same_cores_trans(a: Seq<Node>, b: Seq<Node>, c: Seq<Node>)
    requires
        same_cores(a, b),
        same_cores(b, c),
    ensures
        same_cores(a, c),
{
    assert forall|i: int|
        0 <= i < a.len() implies same_node_core(#[trigger] a[i], #[trigger] c[i]) by {
        assert(same_node_core(a[i], b[i]));
        assert(same_node_core(b[i], c[i]));
    }
}

/// Minimality of the search's recorded routes, at the moment the queue's
/// front is `end`: any route from `start` to a visited zone is at least as
/// long as the recorded route to that zone, and any route from `start` to an
/// unvisited zone is strictly longer than the recorded route to `end`.
proof fn lemma_bfs_minimal(
    nodes: Seq<Node>,
    gp: Map<int, Seq<usize>>,
    items0: Seq<usize>,
    start: usize,
    end: usize,
    p: Seq<usize>,
    v: usize,
)
    requires
        chain_ok(nodes, gp, start),
        valid_graph(nodes),
        items0.len() >= 1,
        items0[0] == end,
        forall|k: int|
            0 <= k < items0.len() ==> ((#[trigger] items0[k]) as int) < nodes.len()
                && nodes[items0[k] as int].visited,
        forall|qi: int, qj: int|
            0 <= qi <= qj < items0.len() ==> gp[(#[trigger] items0[qi]) as int].len() <= gp[(
            #[trigger] items0[qj]) as int].len(),
        gp[items0[items0.len() - 1] as int].len() <= gp[items0[0] as int].len() + 1,
        forall|w: usize|
            (w as int) < nodes.len() && (#[trigger] nodes[w as int]).visited && !items0.contains(
                w,
            ) ==> fully_expanded(nodes, gp, w as int) && gp[w as int].len() <= gp[
                end as int].len(),
        is_path(adjacency(nodes), p, start, v),
        v < nodes.len(),
    ensures
        nodes[v as int].visited ==> p.len() >= gp[v as int].len(),
        !nodes[v as int].visited ==> p.len() > gp[end as int].len(),
    decreases p.len(),
{
    let adj = adjacency(nodes);
    assert(nodes[end as int].visited);
    if p.len() == 1 {
        assert(v == start);
        assert(gp[start as int] =~= seq![start]);
        assert(gp[v as int].len() == 1);
    } else {
        let l: int = p.len() - 1;
        let u = p[l - 1];
        lemma_path_prefix(adj, p, start, v, l);
        assert((u as int) < nodes.len());
        lemma_bfs_minimal(nodes, gp, items0, start, end, p.take(l), u);
        assert(p.take(l).len() == l);
        assert(step_ok(adj, u, v));
        assert(adj[u as int] == nodes[u as int].neighbours@);
        if nodes[v as int].visited {
            // every visited zone's recorded route is within one hop of the front's
            let vbound: int = gp[end as int].len() as int + 1;
            if items0.contains(v) {
                let k = choose|k: int| 0 <= k < items0.len() && items0[k] == v;
                assert(gp[items0[k] as int].len() <= gp[items0[items0.len() - 1] as int].len());
                assert(gp[v as int].len() <= vbound);
            } else {
                assert(gp[v as int].len() <= vbound);
            }
            if nodes[u as int].visited {
                if items0.contains(u) {
                    let k = choose|k: int| 0 <= k < items0.len() && items0[k] == u;
                    assert(gp[items0[0] as int].len() <= gp[items0[k] as int].len());
                    assert(p.len() >= gp[u as int].len() + 1);
                    assert(p.len() >= gp[end as int].len() + 1);
                } else {
                    assert(fully_expanded(nodes, gp, u as int));
                    let nbs = nodes[u as int].neighbours@;
                    let k = choose|k: int| 0 <= k < nbs.len() && nbs[k] == v;
                    assert(gp[nbs[k] as int].len() <= gp[u as int].len() + 1);
                    assert(gp[v as int].len() <= gp[u as int].len() + 1);
                }
            } else {
                assert(p.len() - 1 > gp[end as int].len());
            }
        } else {
            if nodes[u as int].visited {
                if !items0.contains(u) {
                    assert(fully_expanded(nodes, gp, u as int));
                    let nbs = nodes[u as int].neighbours@;
                    let k = choose|k: int| 0 <= k < nbs.len() && nbs[k] == v;
                    assert(nodes[nbs[k] as int].visited);
                    assert(false);
                }
                let k = choose|k: int| 0 <= k < items0.len() && items0[k] == u;
                assert(gp[items0[0] as int].len() <= gp[items0[k] as int].len());
                assert(p.len() >= gp[u as int].len() + 1);
            }
        }
    }
}

/// Scan-once: in a route whose waypoints carry the computed scan states
/// (with the last waypoint forced to `Done`), no zone's `Scan` state appears
/// more than once, however often the zone is visited.
pub proof fn lemma_scan_once(nodes0: Seq<Node>, rz: Seq<usize>, wps: Seq<PathPoint>)
    requires
        wps.len() == rz.len(),
        forall|i: int|
            0 <= i < wps.len() - 1 ==> (#[trigger] wps[i]).scan_settings == scan_at(nodes0, rz, i),
        wps.len() >= 1 ==> wps[wps.len() - 1].scan_settings == ScanSettings::Done,
    ensures
        forall|i: int, j: int|
            0 <= i < j < wps.len() && rz[i] == rz[j] ==> !((#[trigger] wps[i]).scan_settings
                == ScanSettings::Scan && (#[trigger] wps[j]).scan_settings == ScanSettings::Scan),
{
    assert forall|i: int, j: int|
        0 <= i < j < wps.len() && rz[i] == rz[j] implies !((#[trigger] wps[i]).scan_settings
        == ScanSettings::Scan && (#[trigger] wps[j]).scan_settings == ScanSettings::Scan) by {
        reveal(scan_at);
        if j < wps.len() - 1 {
            if wps[j].scan_settings == ScanSettings::Scan {
                assert(scan_at(nodes0, rz, j) == ScanSettings::Scan);
                assert(rz[i] != rz[j]);
            }
        }
    }
}

/// A planner stays well-formed when only the zones' transient search scratch
/// changes.
pub proof fn lemma_wf_after_scratch(pre: NodeMap, post: NodeMap)
    requires
        pre.wf(),
        same_cores(pre.nodes@, post.nodes@),
        post.rooms == pre.rooms,
        post.global_path == pre.global_path,
        post.route_zones == pre.route_zones,
        post.cur_path_index == pre.cur_path_index,
    ensures
        post.wf(),
        adjacency(post.nodes@) == adjacency(pre.nodes@),
{
    assert(adjacency(post.nodes@) =~= adjacency(pre.nodes@));
    assert forall|i: int, k: int|
        0 <= i < post.nodes@.len() && 0 <= k < post.nodes@[i].neighbours@.len() implies (
    #[trigger] post.nodes@[i].neighbours@[k]) < post.nodes@.len() by {
        assert(same_node_core(pre.nodes@[i], post.nodes@[i]));
        assert(pre.nodes@[i].neighbours@[k] < pre.nodes@.len());
    }
    assert forall|i: int|
        0 <= i < post.global_path@.len() implies wp_matches(
        post.nodes@,
        #[trigger] post.global_path@[i],
        post.route_zones@[i],
    ) by {
        let z = pre.route_zones@[i] as int;
        assert(wp_matches(pre.nodes@, pre.global_path@[i], pre.route_zones@[i]));
        assert(same_node_core(pre.nodes@[z], post.nodes@[z]));
    }
}

impl NodeMap {
    /// Structural well-formedness: valid adjacency and visit-order tables,
    /// and a route whose every waypoint carries its zone's declared position
    /// (with the cursor inside the route).
    pub open spec fn wf(self) -> bool {
        &&& valid_graph(self.nodes@)
        &&& self.rooms@.len() == self.nodes@.len()
        &&& valid_targets(self.rooms@, self.nodes@.len() as int)
        &&& self.route_zones@.len() == self.global_path@.len()
        &&& forall|i: int|
            0 <= i < self.global_path@.len() ==> wp_matches(
                self.nodes@,
                #[trigger] self.global_path@[i],
                self.route_zones@[i],
            )
        &&& self.cur_path_index <= self.global_path@.len()
    }

    /// Build a planner from a zone table, a per-start-zone visit-order table,
    /// and the mission start position. The tables are hand-authored survey
    /// data, so construction rejects, with `ConfigurationError`, a zone table
    /// whose adjacency references an index out of range, a visit-order table
    /// that does not give one row per zone, or a visit-order entry out of
    /// range; it succeeds on exactly the well-formed tables.
    pub fn from_parts(nodes: Vec<Node>, rooms: Vec<Vec<usize>>, x: i32, y: i32) -> (r: Result<
        NodeMap,
        PlanError,
    >)
        ensures
            ({
                let ok = valid_graph(nodes@) && rooms@.len() == nodes@.len() && valid_targets(
                    rooms@,
                    nodes@.len() as int,
                );
                &&& (!ok ==> r == Err::<NodeMap, PlanError>(PlanError::ConfigurationError))
                &&& (ok ==> r is Ok && {
                    let m = r->Ok_0;
                    &&& m.wf()
                    &&& m.nodes == nodes
                    &&& m.rooms == rooms
                    &&& m.start_x == x
                    &&& m.start_y == y
                    &&& m.global_path@.len() == 0
                    &&& m.cur_path_index == 0
                })
            }),
    {
        let n = nodes.len();
        if rooms.len() != n {
            return Err(PlanError::ConfigurationError);
        }
        let mut i: usize = 0;
        while i < n
            invariant
                i <= n,
                n == nodes@.len(),
                forall|ii: int, kk: int|
                    0 <= ii < i && 0 <= kk < nodes@[ii].neighbours@.len() ==> (
                    #[trigger] nodes@[ii].neighbours@[kk]) < n,
            decreases n - i,
        {
            let mut k: usize = 0;
            let nb_len = nodes[i].neighbours.len();
            while k < nb_len
                invariant
                    i < n,
                    k <= nb_len,
                    n == nodes@.len(),
                    nb_len == nodes@[i as int].neighbours@.len(),
                    forall|kk: int|
                        0 <= kk < k ==> (#[trigger] nodes@[i as int].neighbours@[kk]) < n,
                decreases nb_len - k,
            {
                if nodes[i].neighbours[k] >= n {
                    return Err(PlanError::ConfigurationError);
                }
                k += 1;
            }
            i += 1;
        }
        let mut i: usize = 0;
        while i < n
            invariant
                i <= n,
                n == nodes@.len(),
                n == rooms@.len(),
                valid_graph(nodes@),
                forall|ii: int, kk: int|
                    0 <= ii < i && 0 <= kk < rooms@[ii]@.len() ==> (
                    #[trigger] rooms@[ii]@[kk]) < n,
            decreases n - i,
        {
            let mut k: usize = 0;
            let row_len = rooms[i].len();
            while k < row_len
                invariant
                    i < n,
                    k <= row_len,
                    n == nodes@.len(),
                    n == rooms@.len(),
                    row_len == rooms@[i as int]@.len(),
                    forall|kk: int| 0 <= kk < k ==> (#[trigger] rooms@[i as int]@[kk]) < n,
                decreases row_len - k,
            {
                if rooms[i][k] >= n {
                    return Err(PlanError::ConfigurationError);
                }
                k += 1;
            }
            i += 1;
        }
        Ok(
            NodeMap {
                nodes,
                rooms,
                global_path: Vec::new(),
                route_zones: Ghost(Seq::empty()),
                leg_bounds: Ghost(Seq::<int>::empty().push(0)),
                start_x: x,
                start_y: y,
                cur_path_index: 0,
            },
        )
    }

    /// Clear the transient search scratch of every zone.
    pub fn reset_visited(&mut self)
        ensures
            final(self).nodes@.len() == old(self).nodes@.len(),
            forall|i: int|
                0 <= i < old(self).nodes@.len() ==> final(self).nodes@[i] == (Node {
                    visited: false,
                    ..old(self).nodes@[i]
                }),
            *final(self) == (NodeMap { nodes: final(self).nodes, ..*old(self) }),
    {
        let n = self.nodes.len();
        let mut i: usize = 0;
        while i < n
            invariant
                i <= n,
                n == self.nodes@.len(),
                forall|k: int|
                    0 <= k < i ==> self.nodes@[k] == (Node {
                        visited: false,
                        ..old(self).nodes@[k]
                    }),
                forall|k: int| i <= k < n ==> self.nodes@[k] == old(self).nodes@[k],
                *self == (NodeMap { nodes: self.nodes, ..*old(self) }),
            decreases n - i,
        {
            self.nodes[i].visited = false;
            i += 1;
        }
    }

    /// Scan the zones in index order and return the index of the first zone
    /// whose box contains `(x, y)`, or the sentinel `nodes.len()` when none
    /// does.
    pub fn get_current_node(&self, x: i32, y: i32) -> (r: usize)
        ensures
            locates(self.nodes@, x, y, r),
            r == locate_spec(self.nodes@, x, y),
    {
        let n = self.nodes.len();
        let mut i: usize = 0;
        while i < n
            invariant
                i <= n,
                n == self.nodes@.len(),
                forall|k: int| 0 <= k < i ==> !(#[trigger] self.nodes@[k]).contains_spec(x, y),
                locate_spec(self.nodes@, x, y) == locate_from(self.nodes@, x, y, i as int),
            decreases n - i,
        {
            if self.nodes[i].in_bounds(x, y) {
                proof {
                    assert(locate_from(self.nodes@, x, y, i as int) == i);
                }
                return i;
            }
            proof {
                assert(locate_from(self.nodes@, x, y, i as int) == locate_from(
                    self.nodes@,
                    x,
                    y,
                    i as int + 1,
                ));
            }
            i += 1;
        }
        n
    }

    /// Clear every zone's mission-lifetime `scanned` flag.
    fn reset_scanned(&mut self)
        ensures
            final(self).nodes@.len() == old(self).nodes@.len(),
            forall|i: int|
                0 <= i < old(self).nodes@.len() ==> final(self).nodes@[i] == (Node {
                    scanned: false,
                    ..old(self).nodes@[i]
                }),
            *final(self) == (NodeMap { nodes: final(self).nodes, ..*old(self) }),
    {
        let n = self.nodes.len();
        let mut i: usize = 0;
        while i < n
            invariant
                i <= n,
                n == self.nodes@.len(),
                forall|k: int|
                    0 <= k < i ==> self.nodes@[k] == (Node {
                        scanned: false,
                        ..old(self).nodes@[k]
                    }),
                forall|k: int| i <= k < n ==> self.nodes@[k] == old(self).nodes@[k],
                *self == (NodeMap { nodes: self.nodes, ..*old(self) }),
            decreases n - i,
        {
            self.nodes[i].scanned = false;
            i += 1;
        }
    }

    /// Walk the `previous` links backward from `end_node` to `start_node`
    /// and append the forward route (start and end inclusive) to `path`.
    /// `route_map` is the routes that the search recorded while marking
    /// zones visited.
    #[verifier::rlimit(50)]
    pub fn recreate_path(
        &self,
        start_node: usize,
        end_node: usize,
        path: &mut Vec<usize>,
        route_map: Ghost<Map<int, Seq<usize>>>,
    )
        requires
            chain_ok(self.nodes@, route_map@, start_node),
            end_node < self.nodes@.len(),
            self.nodes@[end_node as int].visited,
        ensures
            final(path)@ == old(path)@ + route_map@[end_node as int],
            is_path(
                adjacency(self.nodes@),
                route_map@[end_node as int],
                start_node,
                end_node,
            ),
    {
        let ghost adj = adjacency(self.nodes@);
        let ghost gp = route_map@;
        let ghost full = gp[end_node as int];
        let ghost ln = full.len() as int;
        let mut backward_path: Vec<usize> = Vec::new();
        let mut current_node: usize = end_node;
        proof {
            assert(gp.dom().contains(end_node as int));
            assert(is_path(adj, full, start_node, end_node));
        }
        while current_node != start_node
            invariant
                chain_ok(self.nodes@, gp, start_node),
                adj == adjacency(self.nodes@),
                (current_node as int) < self.nodes@.len(),
                self.nodes@[current_node as int].visited,
                gp.dom().contains(current_node as int),
                is_path(adj, gp[current_node as int], start_node, current_node),
                gp[current_node as int].len() + backward_path@.len() == ln,
                forall|k: int|
                    0 <= k < gp[current_node as int].len() ==> gp[current_node as int][k]
                        == full[k],
                forall|k: int|
                    0 <= k < backward_path@.len() ==> backward_path@[k] == full[ln - 1 - k],
                full == gp[end_node as int],
                ln == full.len(),
                end_node < self.nodes@.len(),
            decreases gp[current_node as int].len(),
        {
            proof {
                let c = current_node as int;
                assert(gp[c][gp[c].len() - 1] == current_node);
                assert(full[gp[c].len() - 1] == current_node);
            }
            backward_path.push(current_node);
            let prev = self.nodes[current_node].previous;
            proof {
                let c = current_node as int;
                assert(gp[c] =~= gp[prev as int].push(current_node));
                assert(gp.dom().contains(prev as int));
                assert(is_path(adj, gp[prev as int], start_node, prev));
                assert(gp[prev as int].len() == gp[c].len() - 1);
                assert forall|k: int| 0 <= k < gp[prev as int].len() implies gp[prev as int][k]
                    == full[k] by {
                    assert(gp[prev as int][k] == gp[c][k]);
                }
            }
            current_node = prev;
        }
        proof {
            let c = current_node as int;
            assert(gp[c] =~= seq![start_node]);
            assert(gp[c].len() == 1);
            assert(full[0] == gp[c][0]);
            assert(full[0] == start_node);
            assert(backward_path@.len() == ln - 1);
        }
        backward_path.push(current_node);
        let ghost base = path@;
        let total = backward_path.len();
        let mut i: usize = total;
        proof {
            assert(backward_path@.len() == ln);
        }
        while i > 0
            invariant
                i <= total,
                total == backward_path@.len(),
                backward_path@.len() == ln,
                ln == full.len(),
                forall|k: int|
                    0 <= k < ln ==> backward_path@[k] == full[ln - 1 - k],
                path@.len() == base.len() + (ln - i),
                forall|k: int| 0 <= k < base.len() ==> path@[k] == base[k],
                forall|k: int|
                    0 <= k < ln - i ==> path@[base.len() + k] == full[k],
            decreases i,
        {
            i -= 1;
            path.push(backward_path[i]);
        }
        proof {
            assert(path@ =~= base + full);
        }
    }

    /// Breadth-first search over the declared adjacency: find a minimum-hop
    /// route from `start_node` to `end_node`, both endpoints included,
    /// expanding each zone's neighbours in their declared order. The result
    /// equals `bfs_route`'s answer, a function of the adjacency and the
    /// endpoints alone, so the choice among equally short routes is
    /// deterministic and reproducible. Fails with `NoRouteFound` exactly
    /// when no route exists. Only the zones' transient search scratch
    /// changes.
    #[verifier::loop_isolation(false)]
    #[verifier::rlimit(100)]
    pub fn get_path(&mut self, start_node: usize, end_node: usize) -> (r: Result<
        Vec<usize>,
        PlanError,
    >)
        requires
            old(self).wf(),
            start_node < old(self).nodes@.len(),
            end_node < old(self).nodes@.len(),
        ensures
            final(self).wf(),
            same_cores(old(self).nodes@, final(self).nodes@),
            same_scanned(old(self).nodes@, final(self).nodes@),
            *final(self) == (NodeMap { nodes: final(self).nodes, ..*old(self) }),
            adjacency(final(self).nodes@) == adjacency(old(self).nodes@),
            match r {
                Ok(p) => is_path(adjacency(old(self).nodes@), p@, start_node, end_node) && (
                start_node == end_node ==> p@ =~= seq![start_node]) && (forall|q: Seq<usize>|
                    #[trigger] is_path(adjacency(old(self).nodes@), q, start_node, end_node)
                        ==> q.len() >= p@.len()) && Some(p@) == bfs_route(
                    adjacency(old(self).nodes@),
                    start_node,
                    end_node,
                ),
                Err(e) => e == PlanError::NoRouteFound && bfs_route(
                    adjacency(old(self).nodes@),
                    start_node,
                    end_node,
                ) is None,
            },
            r is Ok <==> reachable(adjacency(old(self).nodes@), start_node, end_node),
    {
        let ghost n = old(self).nodes@.len() as int;
        let ghost adj = adjacency(old(self).nodes@);
        let mut processing_queue = queue_new();
        let mut path: Vec<usize> = Vec::new();
        self.reset_visited();
        queue_push(&mut processing_queue, start_node);
        self.nodes[start_node].visited = true;
        let ghost mut gp: Map<int, Seq<usize>> = Map::<int, Seq<usize>>::empty().insert(
            start_node as int,
            seq![start_node],
        );
        let ghost mut vis: Set<int> = Set::<int>::empty().insert(start_node as int);
        let ghost mut qroutes: Seq<Seq<usize>> = seq![seq![start_node]];
        let ghost mut fuel: nat = (n + 1) as nat;
        proof {
            assert(same_cores(old(self).nodes@, self.nodes@));
            lemma_wf_after_scratch(*old(self), *self);
            assert(is_path(adj, seq![start_node], start_node, start_node));
            assert(vis.subset_of(set_int_range(0, n)));
            lemma_int_range(0, n);
            lemma_len_subset(vis, set_int_range(0, n));
            vstd::set::axiom_set_insert_len(Set::<int>::empty(), start_node as int);
            assert(vis.len() == 1);
            assert(adj.len() == n);
            assert(qroutes[0] == gp[queue_items(processing_queue)[0] as int]);
            assert(bfs_from(adj, end_node, qroutes, vis, fuel) == bfs_route(
                adj,
                start_node,
                end_node,
            ));
        }
        while !queue_is_empty(&processing_queue)
            invariant
                path@.len() == 0,
                self.nodes@.len() == n,
                same_cores(old(self).nodes@, self.nodes@),
                same_scanned(old(self).nodes@, self.nodes@),
                adjacency(self.nodes@) == adj,
                valid_graph(self.nodes@),
                *self == (NodeMap { nodes: self.nodes, ..*old(self) }),
                queue_cap(processing_queue) is None,
                forall|k: int|
                    0 <= k < queue_items(processing_queue).len() ==> ((#[trigger] queue_items(
                        processing_queue,
                    )[k]) as int) < n && self.nodes@[queue_items(processing_queue)[k] as int].visited,
                chain_ok(self.nodes@, gp, start_node),
                vis.finite(),
                vis.len() <= n,
                forall|v: int| #[trigger] vis.contains(v) ==> 0 <= v < n && self.nodes@[v].visited,
                forall|v: int|
                    0 <= v < n && (#[trigger] self.nodes@[v]).visited ==> vis.contains(v),
                self.nodes@[end_node as int].visited ==> queue_items(processing_queue).contains(
                    end_node,
                ),
                forall|v: usize|
                    (v as int) < n && (#[trigger] self.nodes@[v as int]).visited && !queue_items(
                        processing_queue,
                    ).contains(v) ==> fully_expanded(self.nodes@, gp, v as int) && (queue_items(
                        processing_queue,
                    ).len() >= 1 ==> gp[v as int].len() <= gp[queue_items(
                        processing_queue,
                    )[0] as int].len()),
                forall|qi: int, qj: int|
                    0 <= qi <= qj < queue_items(processing_queue).len() ==> gp[(
                    #[trigger] queue_items(processing_queue)[qi]) as int].len() <= gp[(
                    #[trigger] queue_items(processing_queue)[qj]) as int].len(),
                queue_items(processing_queue).len() >= 1 ==> gp[queue_items(
                    processing_queue,
                )[queue_items(processing_queue).len() - 1] as int].len() <= gp[queue_items(
                    processing_queue,
                )[0] as int].len() + 1,
                qroutes.len() == queue_items(processing_queue).len(),
                forall|k: int|
                    0 <= k < qroutes.len() ==> #[trigger] qroutes[k] == gp[queue_items(
                        processing_queue,
                    )[k] as int],
                bfs_from(adj, end_node, qroutes, vis, fuel) == bfs_route(
                    adj,
                    start_node,
                    end_node,
                ),
                fuel >= n - vis.len() + queue_items(processing_queue).len(),
            decreases n - vis.len() + queue_items(processing_queue).len(),
        {
            let ghost items0 = queue_items(processing_queue);
            let ghost qr0 = qroutes;
            let deq_opt = queue_dequeue(&mut processing_queue);
            let current_node = deq_opt.unwrap();
            proof {
                assert(current_node == items0[0]);
                assert(queue_items(processing_queue) == items0.skip(1));
                assert(qr0[0] == gp[current_node as int]);
                assert(gp.dom().contains(current_node as int));
                assert(is_path(adj, gp[current_node as int], start_node, current_node));
                qroutes = qroutes.skip(1);
                assert forall|k: int|
                    0 <= k < qroutes.len() implies #[trigger] qroutes[k] == gp[queue_items(
                    processing_queue,
                )[k] as int] by {
                    assert(qroutes[k] == qr0[k + 1]);
                    assert(queue_items(processing_queue)[k] == items0[k + 1]);
                }
                assert forall|x: usize|
                    items0.contains(x) && x != current_node implies queue_items(
                    processing_queue,
                ).contains(x) by {
                    let k = choose|k: int| 0 <= k < items0.len() && items0[k] == x;
                    assert(k != 0);
                    assert(queue_items(processing_queue)[k - 1] == x);
                }
                assert forall|k: int|
                    0 <= k < queue_items(processing_queue).len() implies ((#[trigger] queue_items(
                    processing_queue,
                )[k]) as int) < n && self.nodes@[queue_items(processing_queue)[k] as int].visited by {
                    assert(queue_items(processing_queue)[k] == items0[k + 1]);
                }
                assert forall|v: usize|
                    (v as int) < n && (#[trigger] self.nodes@[v as int]).visited && !queue_items(
                        processing_queue,
                    ).contains(v) && v != current_node implies fully_expanded(
                    self.nodes@,
                    gp,
                    v as int,
                ) && gp[v as int].len() <= gp[current_node as int].len() by {
                    if items0.contains(v) {
                        assert(queue_items(processing_queue).contains(v));
                        assert(false);
                    }
                    assert(!items0.contains(v));
                }
                assert forall|qi: int, qj: int|
                    0 <= qi <= qj < queue_items(processing_queue).len() implies gp[(
                #[trigger] queue_items(processing_queue)[qi]) as int].len() <= gp[(
                #[trigger] queue_items(processing_queue)[qj]) as int].len() by {
                    assert(queue_items(processing_queue)[qi] == items0[qi + 1]);
                    assert(queue_items(processing_queue)[qj] == items0[qj + 1]);
                    assert(gp[items0[qi + 1] as int].len() <= gp[items0[qj + 1] as int].len());
                }
                if queue_items(processing_queue).len() >= 1 {
                    assert(queue_items(processing_queue)[0] == items0[1]);
                    assert(gp[items0[0] as int].len() <= gp[items0[1] as int].len());
                    assert(queue_items(processing_queue)[queue_items(
                        processing_queue,
                    ).len() - 1] == items0[items0.len() - 1]);
                }
            }
            if current_node == end_node {
                self.recreate_path(start_node, end_node, &mut path, Ghost(gp));
                proof {
                    assert(gp.dom().contains(end_node as int));
                    assert(is_path(adj, gp[end_node as int], start_node, end_node));
                    assert(reachable(adj, start_node, end_node));
                    assert(path@ =~= gp[end_node as int]);
                    if start_node == end_node {
                        assert(path@ =~= seq![start_node]);
                    }
                    assert forall|q: Seq<usize>| #[trigger] is_path(
                        adj,
                        q,
                        start_node,
                        end_node,
                    ) implies q.len() >= path@.len() by {
                        lemma_bfs_minimal(
                            self.nodes@,
                            gp,
                            items0,
                            start_node,
                            end_node,
                            q,
                            end_node,
                        );
                    }
                    lemma_bfs_from_found(adj, end_node, qr0, vis, fuel);
                    assert(bfs_route(adj, start_node, end_node) == Some(path@));
                    lemma_wf_after_scratch(*old(self), *self);
                }
                return Ok(path);
            }
            let neighbour_count = self.nodes[current_node].neighbours.len();
            let ghost m0 = n - vis.len() + queue_items(processing_queue).len();
            let ghost route_cur = gp[current_node as int];
            let ghost nbs_full = self.nodes@[current_node as int].neighbours@;
            let ghost fuel1 = (fuel - 1) as nat;
            proof {
                assert(route_cur.len() > 0);
                assert(route_cur[route_cur.len() - 1] == current_node);
                assert(fuel > 0);
                lemma_bfs_from_step(adj, end_node, qr0, vis, fuel);
                assert(adj[current_node as int] == nbs_full);
                assert(nbs_full.skip(0) =~= nbs_full);
                assert(bfs_from(
                    adj,
                    end_node,
                    qroutes + bfs_expand(route_cur, nbs_full.skip(0), vis).0,
                    bfs_expand(route_cur, nbs_full.skip(0), vis).1,
                    fuel1,
                ) == bfs_route(adj, start_node, end_node));
                assert(fuel1 >= m0);
            }
            let mut i: usize = 0;
            while i < neighbour_count
                invariant
                    i <= neighbour_count,
                    (current_node as int) < n,
                    self.nodes@[current_node as int].visited,
                    neighbour_count == self.nodes@[current_node as int].neighbours@.len(),
                    self.nodes@.len() == n,
                    same_cores(old(self).nodes@, self.nodes@),
                    same_scanned(old(self).nodes@, self.nodes@),
                    adjacency(self.nodes@) == adj,
                    valid_graph(self.nodes@),
                    *self == (NodeMap { nodes: self.nodes, ..*old(self) }),
                    queue_cap(processing_queue) is None,
                    forall|k: int|
                        0 <= k < queue_items(processing_queue).len() ==> ((#[trigger] queue_items(
                            processing_queue,
                        )[k]) as int) < n && self.nodes@[queue_items(
                            processing_queue,
                        )[k] as int].visited,
                    chain_ok(self.nodes@, gp, start_node),
                    vis.finite(),
                    vis.len() <= n,
                    forall|v: int| #[trigger]
                        vis.contains(v) ==> 0 <= v < n && self.nodes@[v].visited,
                    forall|v: int|
                        0 <= v < n && (#[trigger] self.nodes@[v]).visited ==> vis.contains(v),
                    self.nodes@[end_node as int].visited ==> queue_items(
                        processing_queue,
                    ).contains(end_node),
                    n - vis.len() + queue_items(processing_queue).len() == m0,
                    forall|v: usize|
                        (v as int) < n && (#[trigger] self.nodes@[v as int]).visited
                            && !queue_items(processing_queue).contains(v) && v != current_node
                            ==> fully_expanded(self.nodes@, gp, v as int) && gp[v as int].len()
                            <= gp[current_node as int].len(),
                    forall|qi: int, qj: int|
                        0 <= qi <= qj < queue_items(processing_queue).len() ==> gp[(
                        #[trigger] queue_items(processing_queue)[qi]) as int].len() <= gp[(
                        #[trigger] queue_items(processing_queue)[qj]) as int].len(),
                    queue_items(processing_queue).len() >= 1 ==> gp[queue_items(
                        processing_queue,
                    )[0] as int].len() >= gp[current_node as int].len() && gp[queue_items(
                        processing_queue,
                    )[queue_items(processing_queue).len() - 1] as int].len() <= gp[
                        current_node as int].len() + 1,
                    forall|k: int|
                        0 <= k < i ==> self.nodes@[(#[trigger] self.nodes@[current_node as int].neighbours@[k]) as int].visited
                            && gp[self.nodes@[current_node as int].neighbours@[k] as int].len()
                            <= gp[current_node as int].len() + 1,
                    gp[current_node as int] == route_cur,
                    nbs_full == self.nodes@[current_node as int].neighbours@,
                    qroutes.len() == queue_items(processing_queue).len(),
                    forall|k: int|
                        0 <= k < qroutes.len() ==> #[trigger] qroutes[k] == gp[queue_items(
                            processing_queue,
                        )[k] as int],
                    bfs_from(
                        adj,
                        end_node,
                        qroutes + bfs_expand(route_cur, nbs_full.skip(i as int), vis).0,
                        bfs_expand(route_cur, nbs_full.skip(i as int), vis).1,
                        fuel1,
                    ) == bfs_route(adj, start_node, end_node),
                decreases neighbour_count - i,
            {
                let nb = self.nodes[current_node].neighbours[i];
                proof {
                    assert((nb as int) < n);
                }
                if !self.nodes[nb].visited {
                    let ghost nodes0 = self.nodes@;
                    let ghost gp0 = gp;
                    let ghost vis0 = vis;
                    let ghost qr_pre = qroutes;
                    let ghost items_pre = queue_items(processing_queue);
                    self.nodes[nb].visited = true;
                    self.nodes[nb].previous = current_node;
                    queue_push(&mut processing_queue, nb);
                    proof {
                        gp = gp.insert(nb as int, gp0[current_node as int].push(nb));
                        vis = vis.insert(nb as int);
                        let nodes1 = self.nodes@;
                        assert(nodes1 =~= nodes0.update(
                            nb as int,
                            (Node { visited: true, previous: current_node, ..nodes0[nb as int] }),
                        ));
                        assert(adjacency(nodes1) =~= adj);
                        assert forall|ii: int, kk: int|
                            0 <= ii < nodes1.len() && 0 <= kk < nodes1[ii].neighbours@.len() implies (
                        #[trigger] nodes1[ii].neighbours@[kk]) < nodes1.len() by {
                            assert(nodes1[ii].neighbours@ == nodes0[ii].neighbours@);
                            assert(nodes0[ii].neighbours@[kk] < nodes0.len());
                        }
                        assert(valid_graph(nodes1));
                        assert(nb != start_node);
                        // the new zone's route extends the current zone's route
                        assert(gp0.dom().contains(current_node as int));
                        assert(adj[current_node as int] == nodes0[current_node as int].neighbours@);
                        assert(adj[current_node as int].contains(nb));
                        assert(step_ok(adj, current_node, nb));
                        lemma_path_extend(
                            adj,
                            gp0[current_node as int],
                            start_node,
                            current_node,
                            nb,
                        );
                        assert forall|v: int|
                            0 <= v < nodes1.len() && nodes1[v].visited implies #[trigger] gp.dom().contains(
                            v,
                        ) && is_path(adjacency(nodes1), gp[v], start_node, v as usize) by {
                            if v == nb as int {
                                assert(gp[v] == gp0[current_node as int].push(nb));
                            } else {
                                assert(nodes0[v].visited);
                                assert(gp.dom().contains(v));
                                assert(gp[v] == gp0[v]);
                            }
                        }
                        assert forall|v: int|
                            0 <= v < nodes1.len() && nodes1[v].visited && v != start_node as int implies ((
                        #[trigger] nodes1[v].previous) as int) < nodes1.len()
                            && nodes1[nodes1[v].previous as int].visited && gp[v] =~= gp[nodes1[v].previous as int].push(
                            v as usize,
                        ) by {
                            if v == nb as int {
                                assert(nodes1[v].previous == current_node);
                                assert(gp[current_node as int] == gp0[current_node as int]);
                            } else {
                                assert(nodes0[v].visited);
                                assert(nodes1[v].previous == nodes0[v].previous);
                                let pv = nodes0[v].previous as int;
                                assert(nodes0[pv].visited);
                                assert(pv != nb as int);
                                assert(gp[v] == gp0[v]);
                                assert(gp[pv] == gp0[pv]);
                            }
                        }
                        assert(chain_ok(nodes1, gp, start_node));
                        // the visited mirror and the measure
                        assert(!vis0.contains(nb as int));
                        vstd::set::axiom_set_insert_len(vis0, nb as int);
                        assert(vis.len() == vis0.len() + 1);
                        assert(vis.subset_of(set_int_range(0, n)));
                        lemma_int_range(0, n);
                        lemma_len_subset(vis, set_int_range(0, n));
                        // queue facts
                        let items1 = queue_items(processing_queue);
                        assert(items1 == items_pre.push(nb));
                        assert forall|x: usize| items_pre.contains(x) implies items1.contains(
                            x,
                        ) by {
                            let k = choose|k: int| 0 <= k < items_pre.len() && items_pre[k] == x;
                            assert(items1[k] == x);
                        }
                        assert forall|k: int|
                            0 <= k < items1.len() implies ((#[trigger] items1[k]) as int) < n
                            && nodes1[items1[k] as int].visited by {
                            if k < items1.len() - 1 {
                                assert(items1[k] == items_pre[k]);
                                assert(nodes0[items1[k] as int].visited);
                            }
                        }
                        // a zone already pending stays pending
                        if nodes1[end_node as int].visited {
                            if nodes0[end_node as int].visited {
                                assert(items_pre.contains(end_node));
                                assert(items1.contains(end_node));
                            } else {
                                assert(end_node == nb);
                                assert(items1[items1.len() - 1] == end_node);
                            }
                        }
                        // expanded zones stay expanded
                        assert forall|v: usize|
                            (v as int) < n && (#[trigger] nodes1[v as int]).visited
                            && !items1.contains(v) && v != current_node implies fully_expanded(
                            nodes1,
                            gp,
                            v as int,
                        ) && gp[v as int].len() <= gp[current_node as int].len() by {
                            assert(items1[items1.len() - 1] == nb);
                            assert(items1.contains(nb));
                            assert(v != nb);
                            assert(nodes0[v as int].visited);
                            if items_pre.contains(v) {
                                assert(items1.contains(v));
                                assert(false);
                            }
                            assert(!items_pre.contains(v));
                            assert(fully_expanded(nodes0, gp0, v as int));
                            assert(gp[v as int] == gp0[v as int]);
                            assert forall|k: int|
                                0 <= k < nodes1[v as int].neighbours@.len() implies nodes1[(
                            #[trigger] nodes1[v as int].neighbours@[k]) as int].visited && gp[
                                nodes1[v as int].neighbours@[k] as int].len() <= gp[
                                v as int].len() + 1 by {
                                assert(nodes1[v as int].neighbours@ == nodes0[v as int].neighbours@);
                                let w = nodes0[v as int].neighbours@[k] as int;
                                assert(nodes0[w].visited);
                                assert(w != nb as int);
                                assert(gp[w] == gp0[w]);
                                assert(gp0[w].len() <= gp0[v as int].len() + 1);
                            }
                        }
                        // the queue order: the new zone's route is the longest
                        assert(gp[nb as int].len() == gp[current_node as int].len() + 1);
                        assert forall|qi: int, qj: int|
                            0 <= qi <= qj < items1.len() implies gp[(
                        #[trigger] items1[qi]) as int].len() <= gp[(
                        #[trigger] items1[qj]) as int].len() by {
                            if qj < items1.len() - 1 {
                                assert(items1[qi] == items_pre[qi]);
                                assert(items1[qj] == items_pre[qj]);
                                assert(items_pre[qi] != nb && items_pre[qj] != nb);
                                assert(gp[items_pre[qi] as int] == gp0[items_pre[qi] as int]);
                                assert(gp0[items_pre[qi] as int].len() <= gp0[items_pre[qj] as int].len());
                            } else if qi < items1.len() - 1 {
                                assert(items1[qi] == items_pre[qi]);
                                assert(items_pre[qi] != nb);
                                assert(gp[items_pre[qi] as int] == gp0[items_pre[qi] as int]);
                                assert(gp0[items_pre[qi] as int].len() <= gp0[items_pre[items_pre.len() - 1] as int].len());
                                assert(gp0[items_pre[items_pre.len() - 1] as int].len() <= gp0[current_node as int].len() + 1);
                            }
                        }
                        if items_pre.len() >= 1 {
                            assert(items1[0] == items_pre[0]);
                            assert(items_pre[0] != nb);
                            assert(gp[items_pre[0] as int] == gp0[items_pre[0] as int]);
                        }
                        // the fresh neighbour queues one more route, as the
                        // search function says
                        qroutes = qroutes.push(route_cur.push(nb));
                        assert(gp[nb as int] == route_cur.push(nb));
                        assert forall|k: int|
                            0 <= k < qroutes.len() implies #[trigger] qroutes[k]
                            == gp[items1[k] as int] by {
                            if k < qroutes.len() - 1 {
                                assert(qroutes[k] == qr_pre[k]);
                                assert(items1[k] == items_pre[k]);
                                assert(items_pre[k] != nb);
                                assert(gp[items_pre[k] as int] == gp0[items_pre[k] as int]);
                            }
                        }
                        let nbss = nbs_full.skip(i as int);
                        assert(nbss[0] == nb);
                        assert(!vis0.contains(nb as int));
                        lemma_bfs_expand_fresh(route_cur, nbss, vis0);
                        assert(nbss.skip(1) =~= nbs_full.skip(i as int + 1));
                        assert(vis == vis0.insert(nb as int));
                        assert(qroutes + bfs_expand(route_cur, nbs_full.skip(i as int + 1), vis).0
                            =~= qr_pre + bfs_expand(route_cur, nbss, vis0).0);
                        assert(bfs_expand(route_cur, nbs_full.skip(i as int + 1), vis).1
                            == bfs_expand(route_cur, nbss, vis0).1);
                    }
                } else {
                    proof {
                        let items = queue_items(processing_queue);
                        assert(self.nodes@[nb as int].visited);
                        if items.contains(nb) {
                            let k = choose|k: int| 0 <= k < items.len() && items[k] == nb;
                            assert(gp[items[k] as int].len() <= gp[items[items.len()
                                - 1] as int].len());
                            assert(gp[nb as int].len() <= gp[current_node as int].len() + 1);
                        } else if nb == current_node {
                            assert(gp[nb as int].len() <= gp[current_node as int].len() + 1);
                        } else {
                            assert(gp[nb as int].len() <= gp[current_node as int].len());
                        }
                        // the already-visited neighbour queues nothing, as
                        // the search function says
                        let nbss = nbs_full.skip(i as int);
                        assert(nbss[0] == nb);
                        assert(vis.contains(nb as int));
                        lemma_bfs_expand_seen(route_cur, nbss, vis);
                        assert(nbss.skip(1) =~= nbs_full.skip(i as int + 1));
                    }
                }
                i += 1;
            }
            proof {
                assert(fully_expanded(self.nodes@, gp, current_node as int));
                assert(nbs_full.skip(neighbour_count as int).len() == 0);
                lemma_bfs_expand_empty(route_cur, nbs_full.skip(neighbour_count as int), vis);
                assert(qroutes + Seq::<Seq<usize>>::empty() =~= qroutes);
                assert(bfs_from(adj, end_node, qroutes, vis, fuel1) == bfs_route(
                    adj,
                    start_node,
                    end_node,
                ));
                fuel = fuel1;
                let items2 = queue_items(processing_queue);
                assert forall|v: usize|
                    (v as int) < n && (#[trigger] self.nodes@[v as int]).visited
                    && !items2.contains(v) && items2.len() >= 1 implies gp[v as int].len() <= gp[
                    items2[0] as int].len() by {
                    if v != current_node {
                        assert(gp[v as int].len() <= gp[current_node as int].len());
                    }
                    assert(gp[current_node as int].len() <= gp[items2[0] as int].len());
                }
            }
        }
        proof {
            assert(queue_items(processing_queue).len() == 0);
            assert(qroutes.len() == 0);
            lemma_bfs_from_empty(adj, end_node, qroutes, vis, fuel);
            assert(bfs_route(adj, start_node, end_node) is None);
            assert(!self.nodes@[end_node as int].visited);
            assert(!vis.contains(end_node as int));
            assert(vis.contains(start_node as int));
            assert forall|a: usize, b: usize|
                vis.contains(a as int) && #[trigger] step_ok(adj, a, b) implies vis.contains(
                b as int,
            ) by {
                assert(self.nodes@[a as int].visited);
                assert(!queue_items(processing_queue).contains(a));
                assert(fully_expanded(self.nodes@, gp, a as int));
                assert(adj[a as int] == self.nodes@[a as int].neighbours@);
                let nbs = self.nodes@[a as int].neighbours@;
                let k = choose|k: int| 0 <= k < nbs.len() && nbs[k] == b;
                assert(self.nodes@[b as int].visited);
            }
            lemma_closed_set_unreachable(adj, vis, start_node, end_node);
            lemma_wf_after_scratch(*old(self), *self);
        }
        Err(PlanError::NoRouteFound)
    }

    /// Plan a full mission tour from the configured start position: clear
    /// every `scanned` flag, locate the start zone, look up its visit order,
    /// stitch one search leg per target into one route (every zone of every
    /// leg emitted, shared leg boundaries twice), compute each waypoint's
    /// scan state under scan-once semantics, and force the final waypoint to
    /// `Done`. On success `leg_bounds` splits the route's zones into the
    /// legs, in visit order, each a minimum-hop route from the previous
    /// target to the next. On any failure no route is installed and every
    /// `scanned` flag is left clear.
    #[verifier::loop_isolation(false)]
    #[verifier::rlimit(100)]
    pub fn create_global_path(&mut self) -> (r: Result<(), PlanError>)
        requires
            old(self).wf(),
        ensures
            final(self).wf(),
            same_cores(old(self).nodes@, final(self).nodes@),
            adjacency(final(self).nodes@) == adjacency(old(self).nodes@),
            final(self).rooms == old(self).rooms,
            final(self).start_x == old(self).start_x,
            final(self).start_y == old(self).start_y,
            final(self).cur_path_index == 0,
            ({
                let nodes0 = old(self).nodes@;
                let adj0 = adjacency(nodes0);
                let n = nodes0.len() as int;
                let s0 = locate_spec(nodes0, old(self).start_x, old(self).start_y);
                let targets = if (s0 as int) < n {
                    old(self).rooms@[s0 as int]@
                } else {
                    Seq::<usize>::empty()
                };
                &&& ((s0 as int) == n ==> r == Err::<(), PlanError>(
                    PlanError::UnknownStartPosition,
                ))
                &&& ((s0 as int) < n && !mission_feasible(adj0, s0, targets) ==> r == Err::<
                    (),
                    PlanError,
                >(PlanError::NoRouteFound))
                &&& ((s0 as int) < n && mission_feasible(adj0, s0, targets) && targets.len() == 0
                    ==> r == Err::<(), PlanError>(PlanError::EmptyRoute))
                &&& ((s0 as int) < n && mission_feasible(adj0, s0, targets) && targets.len() > 0
                    ==> r == Ok::<(), PlanError>(()))
                &&& (r is Err ==> final(self).global_path@.len() == 0 && (forall|z: int|
                    0 <= z < n ==> !final(self).nodes@[z].scanned))
                &&& (r is Ok ==> {
                    let rz = final(self).route_zones@;
                    let wps = final(self).global_path@;
                    &&& wps.len() >= 1
                    &&& rz.len() == wps.len()
                    &&& rz[0] == s0
                    &&& rz[rz.len() - 1] == targets[targets.len() - 1]
                    &&& (forall|i: int|
                        0 <= i < rz.len() - 1 ==> rz[i + 1] == rz[i] || step_ok(
                            adj0,
                            rz[i],
                            #[trigger] rz[i + 1],
                        ))
                    &&& (forall|i: int|
                        0 <= i < wps.len() - 1 ==> (#[trigger] wps[i]).scan_settings == scan_at(
                            nodes0,
                            rz,
                            i,
                        ))
                    &&& wps[wps.len() - 1].scan_settings == ScanSettings::Done
                    &&& (forall|i: int, j: int|
                        0 <= i < j < wps.len() && rz[i] == rz[j] ==> !((
                        #[trigger] wps[i]).scan_settings == ScanSettings::Scan && (
                        #[trigger] wps[j]).scan_settings == ScanSettings::Scan))
                    &&& (forall|z: usize|
                        (z as int) < n ==> ((#[trigger] final(self).nodes@[z as int]).scanned
                            <==> rz.contains(z)))
                    &&& legs_decompose(adj0, rz, final(self).leg_bounds@, s0, targets)
                })
            }),
    {
        let ghost nodes0 = old(self).nodes@;
        let ghost adj0 = adjacency(old(self).nodes@);
        let ghost n = old(self).nodes@.len() as int;
        let start_room = self.get_current_node(self.start_x, self.start_y);
        self.global_path = Vec::new();
        self.route_zones = Ghost(Seq::empty());
        self.leg_bounds = Ghost(Seq::<int>::empty().push(0));
        self.cur_path_index = 0;
        self.reset_scanned();
        proof {
            assert(same_cores(nodes0, self.nodes@));
            lemma_same_cores_graph(nodes0, self.nodes@);
        }
        let n_zones = self.nodes.len();
        if start_room >= n_zones {
            return Err(PlanError::UnknownStartPosition);
        }
        let ghost targets = self.rooms@[start_room as int]@;
        let num_targets = self.rooms[start_room].len();
        let mut previous_visited_room = start_room;
        let mut room_index: usize = 0;
        proof {
            assert(targets.take(0) =~= Seq::<usize>::empty());
            assert(legs_decompose(
                adj0,
                self.route_zones@,
                self.leg_bounds@,
                start_room,
                targets.take(0),
            )) by {
                reveal(legs_decompose);
            }
        }
        while room_index < num_targets
            invariant
                self.wf(),
                same_cores(nodes0, self.nodes@),
                adjacency(self.nodes@) == adj0,
                self.rooms == old(self).rooms,
                self.start_x == old(self).start_x,
                self.start_y == old(self).start_y,
                self.cur_path_index == 0,
                self.nodes@.len() == n,
                targets == self.rooms@[start_room as int]@,
                room_index <= num_targets,
                (previous_visited_room as int) < n,
                previous_visited_room == leg_start(start_room, targets, room_index as int),
                room_index > 0 ==> self.route_zones@.len() >= 1,
                room_index == 0 ==> self.route_zones@.len() == 0,
                self.route_zones@.len() >= 1 ==> self.route_zones@[0] == start_room
                    && self.route_zones@[self.route_zones@.len() - 1] == previous_visited_room,
                forall|i: int|
                    0 <= i < self.route_zones@.len() - 1 ==> self.route_zones@[i + 1]
                        == self.route_zones@[i] || step_ok(
                        adj0,
                        self.route_zones@[i],
                        #[trigger] self.route_zones@[i + 1],
                    ),
                forall|i: int|
                    0 <= i < self.global_path@.len() ==> (
                    #[trigger] self.global_path@[i]).scan_settings == scan_at(
                        nodes0,
                        self.route_zones@,
                        i,
                    ),
                forall|z: usize|
                    (z as int) < n ==> ((#[trigger] self.nodes@[z as int]).scanned
                        <==> self.route_zones@.contains(z)),
                forall|k: int|
                    0 <= k < room_index ==> reachable(
                        adj0,
                        leg_start(start_room, targets, k),
                        #[trigger] targets[k],
                    ),
                legs_decompose(
                    adj0,
                    self.route_zones@,
                    self.leg_bounds@,
                    start_room,
                    targets.take(room_index as int),
                ),
            decreases num_targets - room_index,
        {
            let target = self.rooms[start_room][room_index];
            proof {
                assert((target as int) < n);
            }
            let ghost nodes_pre = self.nodes@;
            let path_result = self.get_path(previous_visited_room, target);
            let ghost nodes_searched = self.nodes@;
            proof {
                lemma_same_cores_trans(nodes0, nodes_pre, nodes_searched);
            }
            let current_path = match path_result {
                Ok(p) => p,
                Err(_) => {
                    self.global_path = Vec::new();
                    self.route_zones = Ghost(Seq::<usize>::empty());
                    self.leg_bounds = Ghost(Seq::<int>::empty().push(0));
                    self.cur_path_index = 0;
                    self.reset_scanned();
                    proof {
                        assert forall|z: int|
                            0 <= z < n implies same_node_core(
                            #[trigger] nodes_searched[z],
                            #[trigger] self.nodes@[z],
                        ) by {}
                        lemma_same_cores_trans(nodes0, nodes_searched, self.nodes@);
                        lemma_same_cores_graph(nodes0, self.nodes@);
                        assert(!reachable(
                            adj0,
                            leg_start(start_room, targets, room_index as int),
                            targets[room_index as int],
                        ));
                        assert(!mission_feasible(adj0, start_room, targets));
                    }
                    return Err(PlanError::NoRouteFound);
                }
            };
            proof {
                assert(is_path(adj0, current_path@, previous_visited_room, target));
                assert forall|z: usize|
                    (z as int) < n implies ((#[trigger] self.nodes@[z as int]).scanned
                    <==> self.route_zones@.contains(z)) by {
                    assert(nodes_pre[z as int].scanned == self.nodes@[z as int].scanned);
                }
            }
            let leg_len = current_path.len();
            let ghost base = self.route_zones@;
            let ghost lb = self.leg_bounds@;
            let mut i: usize = 0;
            proof {
                assert(base + current_path@.take(0) =~= base);
                assert(lb[room_index as int] == base.len()) by {
                    reveal(legs_decompose);
                }
            }
            while i < leg_len
                invariant
                    i <= leg_len,
                    self.wf(),
                    same_cores(nodes0, self.nodes@),
                    adjacency(self.nodes@) == adj0,
                    self.rooms == old(self).rooms,
                    self.start_x == old(self).start_x,
                    self.start_y == old(self).start_y,
                    self.cur_path_index == 0,
                    self.nodes@.len() == n,
                    self.route_zones@ == base + current_path@.take(i as int),
                    self.leg_bounds@ == lb,
                    self.route_zones@.len() >= 1 ==> self.route_zones@[0] == start_room,
                    forall|ii: int|
                        0 <= ii < self.route_zones@.len() - 1 ==> self.route_zones@[ii + 1]
                            == self.route_zones@[ii] || step_ok(
                            adj0,
                            self.route_zones@[ii],
                            #[trigger] self.route_zones@[ii + 1],
                        ),
                    forall|ii: int|
                        0 <= ii < self.global_path@.len() ==> (
                        #[trigger] self.global_path@[ii]).scan_settings == scan_at(
                            nodes0,
                            self.route_zones@,
                            ii,
                        ),
                    forall|z: usize|
                        (z as int) < n ==> ((#[trigger] self.nodes@[z as int]).scanned
                            <==> self.route_zones@.contains(z)),
                decreases leg_len - i,
            {
                let current_node = current_path[i];
                proof {
                    assert(current_path@[i as int] < adj0.len());
                    assert((current_node as int) < n);
                }
                let scan_settings = if self.nodes[current_node].scan_settings
                    == ScanSettings::Scan && !self.nodes[current_node].scanned {
                    ScanSettings::Scan
                } else {
                    ScanSettings::NoScan
                };
                let ghost nodesb = self.nodes@;
                let ghost rzb = self.route_zones@;
                let ghost wpsb = self.global_path@;
                self.nodes[current_node].scanned = true;
                let wp = PathPoint::new(
                    self.nodes[current_node].node_point.x,
                    self.nodes[current_node].node_point.y,
                    scan_settings,
                    self.nodes[current_node].scan_angle,
                );
                self.global_path.push(wp);
                self.route_zones = Ghost(self.route_zones@.push(current_node));
                proof {
                    let c = current_node;
                    let ci = c as int;
                    let rz2 = self.route_zones@;
                    let wps2 = self.global_path@;
                    assert(self.nodes@ =~= nodesb.update(
                        ci,
                        (Node { scanned: true, ..nodesb[ci] }),
                    ));
                    assert forall|z: int|
                        0 <= z < n implies same_node_core(
                        #[trigger] nodesb[z],
                        #[trigger] self.nodes@[z],
                    ) by {}
                    lemma_same_cores_trans(nodes0, nodesb, self.nodes@);
                    lemma_same_cores_graph(nodes0, self.nodes@);
                    assert(rz2 =~= base + current_path@.take(i as int + 1));
                    // the new waypoint carries the zone's declared data
                    assert(same_node_core(nodes0[ci], self.nodes@[ci]));
                    assert(wp_matches(self.nodes@, wp, c));
                    assert forall|ii: int|
                        0 <= ii < wps2.len() implies wp_matches(
                        self.nodes@,
                        #[trigger] wps2[ii],
                        rz2[ii],
                    ) by {
                        if ii < wpsb.len() {
                            assert(wp_matches(nodesb, wpsb[ii], rzb[ii]));
                            assert(same_node_core(nodesb[rzb[ii] as int], self.nodes@[rzb[ii] as int]));
                        }
                    }
                    // the route stays a stitched walk
                    assert forall|ii: int|
                        0 <= ii < rz2.len() - 1 implies rz2[ii + 1] == rz2[ii] || step_ok(
                        adj0,
                        rz2[ii],
                        #[trigger] rz2[ii + 1],
                    ) by {
                        if ii < rzb.len() - 1 {
                            assert(rz2[ii] == rzb[ii]);
                            assert(rz2[ii + 1] == rzb[ii + 1]);
                        } else {
                            assert(ii == rzb.len() - 1);
                            assert(rz2[ii + 1] == c);
                            if i == 0 {
                                assert(rzb == base);
                                assert(current_path@[0] == previous_visited_room);
                                assert(rz2[ii] == base[base.len() - 1]);
                                assert(rz2[ii] == c);
                            } else {
                                assert(rz2[ii] == current_path@[i as int - 1]);
                                assert(step_ok(adj0, current_path@[i as int - 1], current_path@[i as int]));
                            }
                        }
                    }
                    // the new waypoint's scan state is the computed one
                    reveal(scan_at);
                    assert(nodes0[ci].scan_settings == nodesb[ci].scan_settings);
                    assert(nodesb[ci].scanned <==> rzb.contains(c));
                    if scan_settings == ScanSettings::Scan {
                        assert(!rzb.contains(c));
                        assert forall|j: int| 0 <= j < rzb.len() implies rzb[j] != c by {
                            if rzb[j] == c {
                                assert(rzb.contains(c));
                            }
                        }
                        assert(scan_at(nodes0, rz2, rzb.len() as int) == ScanSettings::Scan);
                    } else {
                        if nodes0[ci].scan_settings == ScanSettings::Scan {
                            assert(rzb.contains(c));
                            let j = choose|j: int| 0 <= j < rzb.len() && rzb[j] == c;
                            assert(rz2[j] == rz2[rzb.len() as int]);
                        }
                        assert(scan_at(nodes0, rz2, rzb.len() as int) == ScanSettings::NoScan);
                    }
                    // earlier waypoints keep their computed scan state
                    assert forall|ii: int|
                        0 <= ii < wps2.len() implies (#[trigger] wps2[ii]).scan_settings
                        == scan_at(nodes0, rz2, ii) by {
                        if ii < wpsb.len() {
                            assert(wpsb[ii].scan_settings == scan_at(nodes0, rzb, ii));
                            assert(rz2[ii] == rzb[ii]);
                            assert forall|j: int| 0 <= j < ii implies rz2[j] == rzb[j] by {}
                            if scan_at(nodes0, rzb, ii) == ScanSettings::Scan {
                                assert(scan_at(nodes0, rz2, ii) == ScanSettings::Scan);
                            } else {
                                if nodes0[rz2[ii] as int].scan_settings == ScanSettings::Scan {
                                    let j = choose|j: int| 0 <= j < ii && rzb[j] == rzb[ii];
                                    assert(rz2[j] == rz2[ii]);
                                }
                                assert(scan_at(nodes0, rz2, ii) == ScanSettings::NoScan);
                            }
                        }
                    }
                    // the scanned flags mirror the zones visited so far
                    assert forall|z: usize|
                        (z as int) < n implies ((#[trigger] self.nodes@[z as int]).scanned
                        <==> rz2.contains(z)) by {
                        if z == c {
                            assert(rz2[rz2.len() - 1] == c);
                            assert(rz2.contains(c));
                        } else {
                            assert(self.nodes@[z as int].scanned == nodesb[z as int].scanned);
                            if rzb.contains(z) {
                                let j = choose|j: int| 0 <= j < rzb.len() && rzb[j] == z;
                                assert(rz2[j] == z);
                                assert(rz2.contains(z));
                            }
                            if rz2.contains(z) {
                                let j = choose|j: int| 0 <= j < rz2.len() && rz2[j] == z;
                                assert(j < rzb.len());
                                assert(rzb[j] == z);
                                assert(rzb.contains(z));
                            }
                        }
                    }
                }
                i += 1;
            }
            self.leg_bounds = Ghost(self.leg_bounds@.push(self.route_zones@.len() as int));
            proof {
                assert(current_path@.take(leg_len as int) =~= current_path@);
                assert(self.route_zones@ == base + current_path@);
                assert(self.route_zones@[self.route_zones@.len() - 1] == current_path@[leg_len
                    - 1]);
                assert(targets[room_index as int] == target);
                lemma_extend_legs(
                    adj0,
                    base,
                    current_path@,
                    lb,
                    start_room,
                    targets,
                    room_index as int,
                    previous_visited_room,
                );
                assert(self.leg_bounds@ == lb.push((base + current_path@).len() as int));
            }
            previous_visited_room = target;
            room_index += 1;
        }
        proof {
            assert(mission_feasible(adj0, start_room, targets));
            if num_targets > 0 {
                assert(self.route_zones@[self.route_zones@.len() - 1] == leg_start(
                    start_room,
                    targets,
                    num_targets as int,
                ));
            }
            assert(targets.take(num_targets as int) =~= targets);
            assert(legs_decompose(
                adj0,
                self.route_zones@,
                self.leg_bounds@,
                start_room,
                targets,
            ));
        }
        let res = self.finalize_route(Ghost(nodes0));
        res
    }

    /// Force the last waypoint of a freshly stitched mission route to `Done`,
    /// or report `EmptyRoute` on a route with no waypoints.
    #[verifier::rlimit(100)]
    fn finalize_route(&mut self, Ghost(nodes0): Ghost<Seq<Node>>) -> (r: Result<(), PlanError>)
        requires
            old(self).wf(),
            forall|ii: int|
                0 <= ii < old(self).global_path@.len() ==> (#[trigger] old(
                    self,
                ).global_path@[ii]).scan_settings == scan_at(nodes0, old(self).route_zones@, ii),
        ensures
            final(self).wf(),
            final(self).nodes == old(self).nodes,
            final(self).rooms == old(self).rooms,
            final(self).route_zones == old(self).route_zones,
            final(self).leg_bounds == old(self).leg_bounds,
            final(self).start_x == old(self).start_x,
            final(self).start_y == old(self).start_y,
            final(self).cur_path_index == old(self).cur_path_index,
            final(self).global_path@.len() == old(self).global_path@.len(),
            old(self).global_path@.len() == 0 ==> r == Err::<(), PlanError>(PlanError::EmptyRoute)
                && final(self).global_path == old(self).global_path,
            old(self).global_path@.len() > 0 ==> ({
                let wps = final(self).global_path@;
                let rz = final(self).route_zones@;
                &&& r == Ok::<(), PlanError>(())
                &&& (forall|ii: int|
                    0 <= ii < wps.len() - 1 ==> (#[trigger] wps[ii]).scan_settings == scan_at(
                        nodes0,
                        rz,
                        ii,
                    ))
                &&& wps[wps.len() - 1].scan_settings == ScanSettings::Done
                &&& (forall|i: int, j: int|
                    0 <= i < j < wps.len() && rz[i] == rz[j] ==> !((
                    #[trigger] wps[i]).scan_settings == ScanSettings::Scan && (
                    #[trigger] wps[j]).scan_settings == ScanSettings::Scan))
            }),
    {
        if self.global_path.len() == 0 {
            return Err(PlanError::EmptyRoute);
        }
        let last_index = self.global_path.len() - 1;
        let ghost wps_pre = self.global_path@;
        let ghost rz = self.route_zones@;
        self.global_path[last_index].scan_settings = ScanSettings::Done;
        proof {
            let wps = self.global_path@;
            assert(wps =~= wps_pre.update(
                last_index as int,
                (PathPoint { scan_settings: ScanSettings::Done, ..wps_pre[last_index as int] }),
            ));
            assert forall|ii: int|
                0 <= ii < wps.len() implies wp_matches(
                self.nodes@,
                #[trigger] wps[ii],
                rz[ii],
            ) by {
                assert(wp_matches(self.nodes@, wps_pre[ii], rz[ii]));
            }
            assert forall|ii: int|
                0 <= ii < wps.len() - 1 implies (#[trigger] wps[ii]).scan_settings == scan_at(
                nodes0,
                rz,
                ii,
            ) by {
                assert(wps[ii] == wps_pre[ii]);
            }
            lemma_scan_once(nodes0, rz, wps);
        }
        Ok(())
    }

    /// Replan a route from the robot's presumed current position — the
    /// position of the last delivered waypoint — back to the mission start
    /// position, with no scanning on the way. The previous route is
    /// discarded, the cursor reset, and the per-zone `scanned` flags left
    /// untouched.
    #[verifier::loop_isolation(false)]
    #[verifier::rlimit(100)]
    pub fn go_home(&mut self) -> (r: Result<(), PlanError>)
        requires
            old(self).wf(),
            old(self).cur_path_index >= 1,
        ensures
            final(self).wf(),
            same_cores(old(self).nodes@, final(self).nodes@),
            same_scanned(old(self).nodes@, final(self).nodes@),
            adjacency(final(self).nodes@) == adjacency(old(self).nodes@),
            final(self).rooms == old(self).rooms,
            final(self).start_x == old(self).start_x,
            final(self).start_y == old(self).start_y,
            final(self).cur_path_index == 0,
            ({
                let nodes0 = old(self).nodes@;
                let adj0 = adjacency(nodes0);
                let n = nodes0.len() as int;
                let wp0 = old(self).global_path@[old(self).cur_path_index - 1];
                let cz = locate_spec(nodes0, wp0.x, wp0.y);
                let hz = locate_spec(nodes0, old(self).start_x, old(self).start_y);
                &&& (((cz as int) == n || (hz as int) == n) ==> r == Err::<(), PlanError>(
                    PlanError::UnknownStartPosition,
                ))
                &&& ((cz as int) < n && (hz as int) < n && !reachable(adj0, cz, hz) ==> r
                    == Err::<(), PlanError>(PlanError::NoRouteFound))
                &&& ((cz as int) < n && (hz as int) < n && reachable(adj0, cz, hz) ==> r
                    == Ok::<(), PlanError>(()))
                &&& (r is Err ==> final(self).global_path@.len() == 0)
                &&& (r is Ok ==> {
                    let rz = final(self).route_zones@;
                    let wps = final(self).global_path@;
                    &&& rz.len() == wps.len()
                    &&& is_path(adj0, rz, cz, hz)
                    &&& Some(rz) == bfs_route(adj0, cz, hz)
                    &&& (forall|q: Seq<usize>|
                        #[trigger] is_path(adj0, q, cz, hz) ==> q.len() >= rz.len())
                    &&& (forall|i: int|
                        0 <= i < wps.len() ==> (#[trigger] wps[i]).scan_settings
                            == ScanSettings::NoScan)
                })
            }),
    {
        let ghost nodes0 = old(self).nodes@;
        let ghost adj0 = adjacency(old(self).nodes@);
        let ghost n = old(self).nodes@.len() as int;
        let idx = self.cur_path_index - 1;
        let current_x = self.global_path[idx].x;
        let current_y = self.global_path[idx].y;
        let current_node_index = self.get_current_node(current_x, current_y);
        let end_node_index = self.get_current_node(self.start_x, self.start_y);
        self.global_path = Vec::new();
        self.route_zones = Ghost(Seq::<usize>::empty());
        self.cur_path_index = 0;
        let n_zones = self.nodes.len();
        if current_node_index >= n_zones || end_node_index >= n_zones {
            return Err(PlanError::UnknownStartPosition);
        }
        let path_result = self.get_path(current_node_index, end_node_index);
        let home_path = match path_result {
            Ok(p) => p,
            Err(_) => {
                return Err(PlanError::NoRouteFound);
            },
        };
        proof {
            assert(is_path(adj0, home_path@, current_node_index, end_node_index));
            assert(home_path@.take(0) =~= self.route_zones@);
        }
        let home_len = home_path.len();
        let mut i: usize = 0;
        while i < home_len
            invariant
                i <= home_len,
                home_len == home_path@.len(),
                self.wf(),
                same_cores(nodes0, self.nodes@),
                same_scanned(nodes0, self.nodes@),
                adjacency(self.nodes@) == adj0,
                self.rooms == old(self).rooms,
                self.start_x == old(self).start_x,
                self.start_y == old(self).start_y,
                self.cur_path_index == 0,
                self.nodes@.len() == n,
                self.route_zones@ == home_path@.take(i as int),
                self.global_path@.len() == i,
                forall|k: int|
                    0 <= k < i ==> (#[trigger] self.global_path@[k]).scan_settings
                        == ScanSettings::NoScan,
            decreases home_len - i,
        {
            let current_node = home_path[i];
            proof {
                assert(home_path@[i as int] < adj0.len());
                assert((current_node as int) < n);
                assert(same_node_core(nodes0[current_node as int], self.nodes@[current_node as int]));
            }
            let wp = PathPoint::new(
                self.nodes[current_node].node_point.x,
                self.nodes[current_node].node_point.y,
                ScanSettings::NoScan,
                self.nodes[current_node].scan_angle,
            );
            let ghost wpsb = self.global_path@;
            let ghost rzb = self.route_zones@;
            self.global_path.push(wp);
            self.route_zones = Ghost(self.route_zones@.push(current_node));
            proof {
                assert(self.route_zones@ =~= home_path@.take(i as int + 1));
                assert(wp_matches(self.nodes@, wp, current_node));
                assert forall|ii: int|
                    0 <= ii < self.global_path@.len() implies wp_matches(
                    self.nodes@,
                    #[trigger] self.global_path@[ii],
                    self.route_zones@[ii],
                ) by {
                    if ii < wpsb.len() {
                        assert(wp_matches(self.nodes@, wpsb[ii], rzb[ii]));
                    }
                }
            }
            i += 1;
        }
        proof {
            assert(self.route_zones@ =~= home_path@);
        }
        self.leg_bounds = Ghost(
            Seq::<int>::empty().push(0).push(self.route_zones@.len() as int),
        );
        Ok(())
    }

    /// Whether the cursor still has a waypoint to deliver.
    pub fn has_next(&self) -> (r: bool)
        ensures
            r == (self.cur_path_index < self.global_path@.len()),
    {
        self.cur_path_index < self.global_path.len()
    }

    /// Deliver the waypoint at the cursor and advance the cursor; past the
    /// end of the route this is an `OutOfWaypoints` error and nothing moves.
    pub fn get_next_path(&mut self) -> (r: Result<PathPoint, PlanError>)
        ensures
            *final(self) == (NodeMap {
                cur_path_index: final(self).cur_path_index,
                ..*old(self)
            }),
            old(self).cur_path_index < old(self).global_path@.len() ==> {
                &&& r == Ok::<PathPoint, PlanError>(
                    old(self).global_path@[old(self).cur_path_index as int],
                )
                &&& final(self).cur_path_index == old(self).cur_path_index + 1
            },
            old(self).cur_path_index >= old(self).global_path@.len() ==> {
                &&& r == Err::<PathPoint, PlanError>(PlanError::OutOfWaypoints)
                &&& final(self).cur_path_index == old(self).cur_path_index
            },
    {
        if self.cur_path_index < self.global_path.len() {
            let ret = self.global_path[self.cur_path_index];
            self.cur_path_index = self.cur_path_index + 1;
            Ok(ret)
        } else {
            Err(PlanError::OutOfWaypoints)
        }
    }
}

} // verus!
