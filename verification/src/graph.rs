//! The static zone graph: zones (nodes), their positions, bounding boxes,
//! adjacency, and per-zone scan metadata.

use vstd::prelude::*;

verus! {

/// What the robot should do at a waypoint: pass through (`NoScan`), perform a
/// scan (`Scan`), or treat it as the terminal waypoint of the whole mission
/// (`Done`).
#[derive(Clone, Copy, PartialEq, Eq, Structural, Debug)]
pub enum ScanSettings {
    NoScan,
    Scan,
    Done,
}

/// An integer (x, y) position in arena coordinates.
#[derive(Clone, Copy, PartialEq, Eq, Structural, Debug)]
pub struct Point {
    pub x: i32,
    pub y: i32,
}

impl Point {
    pub fn new(x: i32, y: i32) -> (p: Point)
        ensures
            p == (Point { x, y }),
    {
        Point { x, y }
    }
}

/// One waypoint of a planned route: a position, whether to scan there, and
/// the heading (in whole degrees) the robot should face while scanning.
#[derive(Clone, Copy, PartialEq, Eq, Structural, Debug)]
pub struct PathPoint {
    pub x: i32,
    pub y: i32,
    pub scan_settings: ScanSettings,
    pub angle: i32,
}

impl PathPoint {
    pub fn new(x: i32, y: i32, scan_settings: ScanSettings, angle: i32) -> (p: PathPoint)
        ensures
            p == (PathPoint { x, y, scan_settings, angle }),
    {
        PathPoint { x, y, scan_settings, angle }
    }
}

/// One zone of the arena.
///
/// `node_point` is the canonical waypoint coordinate emitted verbatim into
/// routes; `bound_upp_left` / `bound_low_right` delimit the zone's containment
/// box (degenerate boxes mark junctions that never contain a real position);
/// `neighbours` lists adjacent zone indices in traversal priority order.
/// `visited` / `previous` are transient search scratch, reset before every
/// search; `scanned` is a mission-lifetime flag recording that this zone's
/// scan action has already been included in the current tour.
pub struct Node {
    pub node_point: Point,
    pub bound_upp_left: Point,
    pub bound_low_right: Point,
    pub neighbours: Vec<usize>,
    pub name: String,
    pub previous: usize,
    pub index: usize,
    pub visited: bool,
    pub scan_settings: ScanSettings,
    pub scan_angle: i32,
    pub scanned: bool,
}

impl Node {
    pub fn new(
        name: String,
        node_index: usize,
        node_x: i32,
        node_y: i32,
        upp_left_x: i32,
        upp_left_y: i32,
        low_right_x: i32,
        low_right_y: i32,
        scan_settings: ScanSettings,
        scan_angle: i32,
        neighbours: Vec<usize>,
    ) -> (n: Node)
        ensures
            n.node_point == (Point { x: node_x, y: node_y }),
            n.bound_upp_left == (Point { x: upp_left_x, y: upp_left_y }),
            n.bound_low_right == (Point { x: low_right_x, y: low_right_y }),
            n.index == node_index,
            n.neighbours == neighbours,
            n.name == name,
            n.previous == usize::MAX,
            n.visited == false,
            n.scan_settings == scan_settings,
            n.scan_angle == scan_angle,
            n.scanned == false,
    {
        Node {
            node_point: Point::new(node_x, node_y),
            bound_upp_left: Point::new(upp_left_x, upp_left_y),
            bound_low_right: Point::new(low_right_x, low_right_y),
            index: node_index,
            neighbours,
            name,
            previous: usize::MAX,
            visited: false,
            scan_settings,
            scan_angle,
            scanned: false,
        }
    }

    /// A position lies in this zone when it is within the bounding box,
    /// inclusive on all four edges.
    pub open spec fn contains_spec(self, x: i32, y: i32) -> bool {
        &&& self.bound_upp_left.x <= x
        &&& x <= self.bound_low_right.x
        &&& self.bound_upp_left.y <= y
        &&& y <= self.bound_low_right.y
    }

    pub fn in_bounds(&self, x: i32, y: i32) -> (r: bool)
        ensures
            r == self.contains_spec(x, y),
    {
        self.bound_upp_left.x <= x && x <= self.bound_low_right.x
            && self.bound_upp_left.y <= y && y <= self.bound_low_right.y
    }

    pub fn get_neighbours(&self) -> (r: Vec<usize>)
        ensures
            r@ == self.neighbours@,
    {
        self.neighbours.clone()
    }

    pub fn add_neighbours(&mut self, index: usize)
        ensures
            final(self).neighbours@ == old(self).neighbours@.push(index),
            *final(self) == (Node { neighbours: final(self).neighbours, ..*old(self) }),
    {
        self.neighbours.push(index);
    }

    pub fn set_neighbours(&mut self, neighbours: Vec<usize>)
        ensures
            final(self).neighbours == neighbours,
            *final(self) == (Node { neighbours, ..*old(self) }),
    {
        self.neighbours = neighbours;
    }

    pub fn get_name(&self) -> (r: String)
        ensures
            r@ == self.name@,
    {
        self.name.clone()
    }

    pub fn is_visited(&self) -> (r: bool)
        ensures
            r == self.visited,
    {
        self.visited
    }

    pub fn set_visited(&mut self, val: bool)
        ensures
            *final(self) == (Node { visited: val, ..*old(self) }),
    {
        self.visited = val;
    }

    pub fn set_previous(&mut self, previous: usize)
        ensures
            *final(self) == (Node { previous, ..*old(self) }),
    {
        self.previous = previous;
    }
}

} // verus!
