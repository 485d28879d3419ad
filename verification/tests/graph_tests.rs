use zone_planner::graph::{Node, PathPoint, Point, ScanSettings};

fn plain_node(name: &str, index: usize, neighbours: Vec<usize>) -> Node {
    Node::new(
        name.to_owned(),
        index,
        10,
        20,
        -1,
        -1,
        -1,
        -1,
        ScanSettings::NoScan,
        0,
        neighbours,
    )
}

#[test]
fn point_new_holds_coordinates() {
    let p = Point::new(7, -3);
    assert_eq!(p.x, 7);
    assert_eq!(p.y, -3);
}

#[test]
fn path_point_new_holds_fields() {
    let w = PathPoint::new(1, 2, ScanSettings::Scan, 90);
    assert_eq!(w.x, 1);
    assert_eq!(w.y, 2);
    assert_eq!(w.scan_settings, ScanSettings::Scan);
    assert_eq!(w.angle, 90);
}

#[test]
fn node_new_initial_state() {
    let n = plain_node("r9", 4, vec![1, 2]);
    assert_eq!(n.get_name(), "r9");
    assert_eq!(n.index, 4);
    assert!(!n.is_visited());
    assert!(!n.scanned);
    assert_eq!(n.get_neighbours(), vec![1, 2]);
}

#[test]
fn node_neighbour_updates() {
    let mut n = plain_node("r9", 0, vec![1]);
    n.add_neighbours(5);
    assert_eq!(n.get_neighbours(), vec![1, 5]);
    n.set_neighbours(vec![9]);
    assert_eq!(n.get_neighbours(), vec![9]);
}

#[test]
fn node_visited_and_previous() {
    let mut n = plain_node("r9", 0, vec![]);
    n.set_visited(true);
    assert!(n.is_visited());
    n.set_visited(false);
    assert!(!n.is_visited());
    n.set_previous(3);
    assert_eq!(n.previous, 3);
}

#[test]
fn in_bounds_inclusive_on_all_edges() {
    let n = Node::new(
        "s0".to_owned(),
        0,
        50,
        50,
        0,
        10,
        100,
        200,
        ScanSettings::Scan,
        0,
        vec![],
    );
    assert!(n.in_bounds(0, 10));
    assert!(n.in_bounds(100, 200));
    assert!(n.in_bounds(50, 50));
    assert!(!n.in_bounds(-1, 10));
    assert!(!n.in_bounds(101, 10));
    assert!(!n.in_bounds(0, 9));
    assert!(!n.in_bounds(0, 201));
}

#[test]
fn degenerate_box_matches_nothing_real() {
    let n = plain_node("f0", 0, vec![]);
    assert!(!n.in_bounds(10, 20));
    assert!(!n.in_bounds(0, 0));
}
