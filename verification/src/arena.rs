//! The standard arena survey: sixteen zones — four scan stations (`s0`-`s3`)
//! with real bounding boxes, corridor junctions (`f0`-`f3_1`) and room
//! waypoints (`r0`-`r5`) with degenerate boxes that never contain a real
//! position — plus the per-station visit-order table.

use vstd::prelude::*;
use crate::graph::{Node, Point, ScanSettings};
use crate::planner::{valid_graph, valid_targets, NodeMap};

verus! {

fn indices1(a: usize) -> (v: Vec<usize>)
    ensures
        v@ == seq![a],
{
    let mut v: Vec<usize> = Vec::new();
    v.push(a);
    proof {
        assert(v@ =~= seq![a]);
    }
    v
}

fn indices2(a: usize, b: usize) -> (v: Vec<usize>)
    ensures
        v@ == seq![a, b],
{
    let mut v: Vec<usize> = Vec::new();
    v.push(a);
    v.push(b);
    proof {
        assert(v@ =~= seq![a, b]);
    }
    v
}

fn indices3(a: usize, b: usize, c: usize) -> (v: Vec<usize>)
    ensures
        v@ == seq![a, b, c],
{
    let mut v: Vec<usize> = Vec::new();
    v.push(a);
    v.push(b);
    v.push(c);
    proof {
        assert(v@ =~= seq![a, b, c]);
    }
    v
}

/// Zone `n` carries exactly this survey entry, with a clear search scratch
/// and a clear mission `scanned` flag.
pub open spec fn zone_is(
    n: Node,
    name: Seq<char>,
    index: usize,
    px: i32,
    py: i32,
    ulx: i32,
    uly: i32,
    lrx: i32,
    lry: i32,
    setting: ScanSettings,
    angle: i32,
    neighbours: Seq<usize>,
) -> bool {
    &&& n.name@ == name
    &&& n.index == index
    &&& n.node_point == (Point { x: px, y: py })
    &&& n.bound_upp_left == (Point { x: ulx, y: uly })
    &&& n.bound_low_right == (Point { x: lrx, y: lry })
    &&& n.scan_settings == setting
    &&& n.scan_angle == angle
    &&& n.neighbours@ == neighbours
    &&& n.previous == usize::MAX
    &&& !n.visited
    &&& !n.scanned
}

/// The standard arena's zone table, entry for entry: four scan stations with
/// real bounding boxes, and junction and room waypoints with the degenerate
/// box (-1, -1)-(-1, -1).
pub open spec fn standard_arena(nodes: Seq<Node>) -> bool {
    &&& nodes.len() == 16
    &&& zone_is(nodes[0], "s0"@, 0, 180, 2100, 0, 1370, 720, 2400, ScanSettings::Scan, 300, seq![4usize])
    &&& zone_is(nodes[1], "s1"@, 1, 180, 300, 0, 0, 700, 900, ScanSettings::Scan, 55, seq![6usize])
    &&& zone_is(nodes[2], "s2"@, 2, 1300, 630, 1170, 470, 1900, 1020, ScanSettings::Scan, 40, seq![7usize])
    &&& zone_is(nodes[3], "s3"@, 3, 2080, 1700, 1190, 1490, 2400, 2400, ScanSettings::Scan, 150, seq![9usize])
    &&& zone_is(nodes[4], "f0"@, 4, 800, 2100, -1i32, -1i32, -1i32, -1i32, ScanSettings::Scan, 180, seq![15usize, 0])
    &&& zone_is(nodes[5], "f1_0"@, 5, 180, 2100, -1i32, -1i32, -1i32, -1i32, ScanSettings::Scan, 270, seq![10usize, 6])
    &&& zone_is(nodes[6], "f1_1"@, 6, 180, 2100, -1i32, -1i32, -1i32, -1i32, ScanSettings::Scan, 270, seq![5usize, 1])
    &&& zone_is(nodes[7], "f2"@, 7, 1300, 1150, -1i32, -1i32, -1i32, -1i32, ScanSettings::Scan, 270, seq![13usize, 2])
    &&& zone_is(nodes[8], "f3_0"@, 8, 1050, 1700, -1i32, -1i32, -1i32, -1i32, ScanSettings::Scan, 0, seq![14usize, 9])
    &&& zone_is(nodes[9], "f3_1"@, 9, 1580, 1700, -1i32, -1i32, -1i32, -1i32, ScanSettings::Scan, 0, seq![8usize, 3])
    &&& zone_is(nodes[10], "r0"@, 10, 180, 1150, -1i32, -1i32, -1i32, -1i32, ScanSettings::NoScan, 300, seq![5usize, 11])
    &&& zone_is(nodes[11], "r1"@, 11, 960, 1150, -1i32, -1i32, -1i32, -1i32, ScanSettings::NoScan, 0, seq![10usize, 12])
    &&& zone_is(nodes[12], "r2"@, 12, 960, 1300, -1i32, -1i32, -1i32, -1i32, ScanSettings::NoScan, 0, seq![11usize, 13, 14])
    &&& zone_is(nodes[13], "r3"@, 13, 1300, 1300, -1i32, -1i32, -1i32, -1i32, ScanSettings::NoScan, 0, seq![12usize, 7])
    &&& zone_is(nodes[14], "r4"@, 14, 960, 1700, -1i32, -1i32, -1i32, -1i32, ScanSettings::NoScan, 0, seq![12usize, 15, 8])
    &&& zone_is(nodes[15], "r5"@, 15, 960, 1300, -1i32, -1i32, -1i32, -1i32, ScanSettings::NoScan, 0, seq![14usize, 4])
}

/// The standard visit-order table: one row per zone; each scan station's row
/// lists the stations to tour from there in priority order, and every other
/// zone's row is empty.
pub open spec fn standard_visit_orders(rooms: Seq<Vec<usize>>) -> bool {
    &&& rooms.len() == 16
    &&& rooms[0]@ == seq![3usize, 2, 1]
    &&& rooms[1]@ == seq![2usize, 3, 0]
    &&& rooms[2]@ == seq![1usize, 3, 0]
    &&& rooms[3]@ == seq![0usize, 2, 1]
    &&& forall|i: int| 4 <= i < 16 ==> (#[trigger] rooms[i])@ == Seq::<usize>::empty()
}

impl NodeMap {
    /// Build the planner over the standard arena survey, with `(x, y)` as
    /// the mission start position. Scan angles are whole degrees.
    pub fn new(x: i32, y: i32) -> (m: NodeMap)
        ensures
            m.wf(),
            m.start_x == x,
            m.start_y == y,
            m.nodes@.len() == 16,
            m.rooms@.len() == 16,
            standard_arena(m.nodes@),
            standard_visit_orders(m.rooms@),
            forall|i: int|
                0 <= i < m.nodes@.len() ==> !(#[trigger] m.nodes@[i]).scanned
                    && !m.nodes@[i].visited,
            m.global_path@.len() == 0,
            m.cur_path_index == 0,
    {
        let mut nodes: Vec<Node> = Vec::new();
        nodes.push(
            Node::new("s0".to_owned(), 0, 180, 2100, 0, 1370, 720, 2400, ScanSettings::Scan, 300, indices1(4)),
        );
        nodes.push(
            Node::new("s1".to_owned(), 1, 180, 300, 0, 0, 700, 900, ScanSettings::Scan, 55, indices1(6)),
        );
        nodes.push(
            Node::new("s2".to_owned(), 2, 1300, 630, 1170, 470, 1900, 1020, ScanSettings::Scan, 40, indices1(7)),
        );
        nodes.push(
            Node::new("s3".to_owned(), 3, 2080, 1700, 1190, 1490, 2400, 2400, ScanSettings::Scan, 150, indices1(9)),
        );
        nodes.push(
            Node::new("f0".to_owned(), 4, 800, 2100, -1i32, -1i32, -1i32, -1i32, ScanSettings::Scan, 180, indices2(15, 0)),
        );
        nodes.push(
            Node::new("f1_0".to_owned(), 5, 180, 2100, -1i32, -1i32, -1i32, -1i32, ScanSettings::Scan, 270, indices2(10, 6)),
        );
        nodes.push(
            Node::new("f1_1".to_owned(), 6, 180, 2100, -1i32, -1i32, -1i32, -1i32, ScanSettings::Scan, 270, indices2(5, 1)),
        );
        nodes.push(
            Node::new("f2".to_owned(), 7, 1300, 1150, -1i32, -1i32, -1i32, -1i32, ScanSettings::Scan, 270, indices2(13, 2)),
        );
        nodes.push(
            Node::new("f3_0".to_owned(), 8, 1050, 1700, -1i32, -1i32, -1i32, -1i32, ScanSettings::Scan, 0, indices2(14, 9)),
        );
        nodes.push(
            Node::new("f3_1".to_owned(), 9, 1580, 1700, -1i32, -1i32, -1i32, -1i32, ScanSettings::Scan, 0, indices2(8, 3)),
        );
        nodes.push(
            Node::new("r0".to_owned(), 10, 180, 1150, -1i32, -1i32, -1i32, -1i32, ScanSettings::NoScan, 300, indices2(5, 11)),
        );
        nodes.push(
            Node::new("r1".to_owned(), 11, 960, 1150, -1i32, -1i32, -1i32, -1i32, ScanSettings::NoScan, 0, indices2(10, 12)),
        );
        nodes.push(
            Node::new("r2".to_owned(), 12, 960, 1300, -1i32, -1i32, -1i32, -1i32, ScanSettings::NoScan, 0, indices3(11, 13, 14)),
        );
        nodes.push(
            Node::new("r3".to_owned(), 13, 1300, 1300, -1i32, -1i32, -1i32, -1i32, ScanSettings::NoScan, 0, indices2(12, 7)),
        );
        nodes.push(
            Node::new("r4".to_owned(), 14, 960, 1700, -1i32, -1i32, -1i32, -1i32, ScanSettings::NoScan, 0, indices3(12, 15, 8)),
        );
        nodes.push(
            Node::new("r5".to_owned(), 15, 960, 1300, -1i32, -1i32, -1i32, -1i32, ScanSettings::NoScan, 0, indices2(14, 4)),
        );
        let mut rooms: Vec<Vec<usize>> = Vec::new();
        rooms.push(indices3(3, 2, 1));
        rooms.push(indices3(2, 3, 0));
        rooms.push(indices3(1, 3, 0));
        rooms.push(indices3(0, 2, 1));
        let mut j: usize = 0;
        while j < 12
            invariant
                j <= 12,
                rooms@.len() == 4 + j,
                rooms@[0]@ == seq![3usize, 2, 1],
                rooms@[1]@ == seq![2usize, 3, 0],
                rooms@[2]@ == seq![1usize, 3, 0],
                rooms@[3]@ == seq![0usize, 2, 1],
                forall|ii: int| 4 <= ii < rooms@.len() ==> (#[trigger] rooms@[ii])@ == Seq::<
                    usize,
                >::empty(),
                forall|ii: int, kk: int|
                    0 <= ii < rooms@.len() && 0 <= kk < rooms@[ii]@.len() ==> (
                    #[trigger] rooms@[ii]@[kk]) < 16,
            decreases 12 - j,
        {
            rooms.push(Vec::new());
            j += 1;
        }
        let m = NodeMap {
            nodes,
            rooms,
            global_path: Vec::new(),
            route_zones: Ghost(Seq::empty()),
            leg_bounds: Ghost(Seq::<int>::empty().push(0)),
            start_x: x,
            start_y: y,
            cur_path_index: 0,
        };
        proof {
            assert(valid_graph(m.nodes@));
            assert(valid_targets(m.rooms@, 16));
            assert(standard_arena(m.nodes@));
            assert(standard_visit_orders(m.rooms@));
        }
        m
    }
}

} // verus!
