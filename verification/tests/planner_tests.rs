use zone_planner::graph::{Node, ScanSettings};
use zone_planner::planner::{NodeMap, PlanError};

/// A zone with a real bounding box around its own position.
fn boxed_zone(name: &str, index: usize, x: i32, y: i32, setting: ScanSettings, neighbours: Vec<usize>) -> Node {
    Node::new(
        name.to_owned(),
        index,
        x,
        y,
        x - 10,
        y - 10,
        x + 10,
        y + 10,
        setting,
        0,
        neighbours,
    )
}

/// A three-zone line `A - B - C`: A and C are both adjacent to B only.
fn line_arena() -> NodeMap {
    let nodes = vec![
        boxed_zone("a", 0, 0, 0, ScanSettings::NoScan, vec![1]),
        boxed_zone("b", 1, 100, 0, ScanSettings::NoScan, vec![0, 2]),
        boxed_zone("c", 2, 200, 0, ScanSettings::NoScan, vec![1]),
    ];
    let rooms = vec![vec![2], vec![], vec![0]];
    NodeMap::from_parts(nodes, rooms, 0, 0).expect("a well-formed zone table")
}

#[test]
fn search_three_zone_line() {
    let mut m = line_arena();
    let path = m.get_path(0, 2).expect("a route exists");
    assert_eq!(path, vec![0, 1, 2]);
}

#[test]
fn search_reverse_of_line_is_reversed_route() {
    let mut m = line_arena();
    let forward = m.get_path(0, 2).expect("a route exists");
    let backward = m.get_path(2, 0).expect("a route exists");
    let mut reversed = forward.clone();
    reversed.reverse();
    assert_eq!(backward, reversed);
}

#[test]
fn search_from_zone_to_itself_is_single_element() {
    let mut m = NodeMap::new(1191, 1491);
    for z in 0..16 {
        let path = m.get_path(z, z).expect("a route exists");
        assert_eq!(path, vec![z]);
    }
}

#[test]
fn search_disconnected_is_no_route_found() {
    let nodes = vec![
        boxed_zone("a", 0, 0, 0, ScanSettings::NoScan, vec![]),
        boxed_zone("b", 1, 100, 0, ScanSettings::NoScan, vec![]),
    ];
    let rooms = vec![vec![], vec![]];
    let mut m = NodeMap::from_parts(nodes, rooms, 0, 0).expect("a well-formed zone table");
    assert_eq!(m.get_path(0, 1), Err(PlanError::NoRouteFound));
}

#[test]
fn construction_rejects_out_of_range_neighbour() {
    let nodes = vec![
        boxed_zone("a", 0, 0, 0, ScanSettings::NoScan, vec![5]),
        boxed_zone("b", 1, 100, 0, ScanSettings::NoScan, vec![0]),
    ];
    let rooms = vec![vec![], vec![]];
    assert!(matches!(
        NodeMap::from_parts(nodes, rooms, 0, 0),
        Err(PlanError::ConfigurationError)
    ));
}

#[test]
fn construction_rejects_out_of_range_target() {
    let nodes = vec![boxed_zone("a", 0, 0, 0, ScanSettings::NoScan, vec![])];
    let rooms = vec![vec![7]];
    assert!(matches!(
        NodeMap::from_parts(nodes, rooms, 0, 0),
        Err(PlanError::ConfigurationError)
    ));
}

#[test]
fn locator_unresolved_is_sentinel() {
    let m = NodeMap::new(1191, 1491);
    assert_eq!(m.get_current_node(-5000, -5000), 16);
}

#[test]
fn locator_picks_first_of_overlapping_boxes() {
    let nodes = vec![
        boxed_zone("a", 0, 0, 0, ScanSettings::NoScan, vec![1]),
        boxed_zone("b", 1, 0, 0, ScanSettings::NoScan, vec![0]),
    ];
    let rooms = vec![vec![], vec![]];
    let m = NodeMap::from_parts(nodes, rooms, 0, 0).expect("a well-formed zone table");
    assert_eq!(m.get_current_node(0, 0), 0);
}

#[test]
fn mission_from_unknown_position_fails() {
    let mut m = NodeMap::new(-5000, -5000);
    assert_eq!(m.create_global_path(), Err(PlanError::UnknownStartPosition));
    assert!(!m.has_next());
}

#[test]
fn mission_with_no_targets_is_empty_route() {
    let nodes = vec![boxed_zone("a", 0, 0, 0, ScanSettings::NoScan, vec![])];
    let rooms = vec![vec![]];
    let mut m = NodeMap::from_parts(nodes, rooms, 0, 0).expect("a well-formed zone table");
    assert_eq!(m.create_global_path(), Err(PlanError::EmptyRoute));
}

#[test]
fn mission_to_unreachable_target_fails() {
    let nodes = vec![
        boxed_zone("a", 0, 0, 0, ScanSettings::NoScan, vec![]),
        boxed_zone("b", 1, 100, 0, ScanSettings::NoScan, vec![]),
    ];
    let rooms = vec![vec![1], vec![]];
    let mut m = NodeMap::from_parts(nodes, rooms, 0, 0).expect("a well-formed zone table");
    assert_eq!(m.create_global_path(), Err(PlanError::NoRouteFound));
    assert!(!m.has_next());
}

/// The full mission on the standard arena, starting inside station `s3`:
/// visit order [s0, s2, s1], three breadth-first legs, scan-once states,
/// and the terminal `Done` override.
#[test]
fn standard_arena_mission_exact_route() {
    let mut m = NodeMap::new(1191, 1491);
    m.create_global_path().expect("the standard arena is connected");

    let expected_zones: Vec<usize> = vec![
        3, 9, 8, 14, 15, 4, 0, // leg s3 -> s0
        0, 4, 15, 14, 12, 13, 7, 2, // leg s0 -> s2
        2, 7, 13, 12, 11, 10, 5, 6, 1, // leg s2 -> s1
    ];
    let expected_scans: Vec<ScanSettings> = vec![
        ScanSettings::Scan,   // 3, first visit
        ScanSettings::Scan,   // 9
        ScanSettings::Scan,   // 8
        ScanSettings::NoScan, // 14, static NoScan
        ScanSettings::NoScan, // 15
        ScanSettings::Scan,   // 4
        ScanSettings::Scan,   // 0, first visit
        ScanSettings::NoScan, // 0 again
        ScanSettings::NoScan, // 4 again
        ScanSettings::NoScan, // 15
        ScanSettings::NoScan, // 14
        ScanSettings::NoScan, // 12
        ScanSettings::NoScan, // 13
        ScanSettings::Scan,   // 7, first visit
        ScanSettings::Scan,   // 2, first visit
        ScanSettings::NoScan, // 2 again
        ScanSettings::NoScan, // 7 again
        ScanSettings::NoScan, // 13
        ScanSettings::NoScan, // 12
        ScanSettings::NoScan, // 11
        ScanSettings::NoScan, // 10
        ScanSettings::Scan,   // 5, first visit
        ScanSettings::Scan,   // 6, first visit
        ScanSettings::Done,   // 1, forced terminal override
    ];
    assert_eq!(expected_zones.len(), 24);
    assert_eq!(m.global_path.len(), 24);
    for i in 0..24 {
        let wp = m.get_next_path().expect("a waypoint is available");
        let z = expected_zones[i];
        assert_eq!(wp.x, m.nodes[z].node_point.x);
        assert_eq!(wp.y, m.nodes[z].node_point.y);
        assert_eq!(wp.angle, m.nodes[z].scan_angle);
        assert_eq!(wp.scan_settings, expected_scans[i]);
    }
    assert!(!m.has_next());
    assert_eq!(m.get_next_path(), Err(PlanError::OutOfWaypoints));
}

#[test]
fn cursor_fails_only_past_the_end() {
    let mut m = NodeMap::new(1191, 1491);
    m.create_global_path().expect("the standard arena is connected");
    let route_len = m.global_path.len();
    for _ in 0..route_len {
        assert!(m.has_next());
        assert!(m.get_next_path().is_ok());
    }
    assert!(!m.has_next());
    assert_eq!(m.get_next_path(), Err(PlanError::OutOfWaypoints));
    assert_eq!(m.get_next_path(), Err(PlanError::OutOfWaypoints));
}

#[test]
fn last_waypoint_of_mission_is_done() {
    let mut m = NodeMap::new(1191, 1491);
    m.create_global_path().expect("the standard arena is connected");
    let last = m.global_path[m.global_path.len() - 1];
    assert_eq!(last.scan_settings, ScanSettings::Done);
}

/// A zone with `static_scan_setting = Scan` visited twice across two legs:
/// the first visit's waypoint is `Scan`, the second's is `NoScan`.
#[test]
fn scan_once_across_two_legs() {
    let nodes = vec![
        boxed_zone("a", 0, 0, 0, ScanSettings::Scan, vec![1]),
        boxed_zone("x", 1, 100, 0, ScanSettings::Scan, vec![0]),
    ];
    // from zone a: visit x, then come back to a (x is crossed... emitted twice)
    let rooms = vec![vec![1, 0], vec![]];
    let mut m = NodeMap::from_parts(nodes, rooms, 0, 0).expect("a well-formed zone table");
    m.create_global_path().expect("the two zones are connected");
    // legs: [a, x] and [x, a] concatenated
    assert_eq!(m.global_path.len(), 4);
    let w0 = m.get_next_path().unwrap();
    let w1 = m.get_next_path().unwrap();
    let w2 = m.get_next_path().unwrap();
    let w3 = m.get_next_path().unwrap();
    assert_eq!(w0.scan_settings, ScanSettings::Scan); // a, first visit
    assert_eq!(w1.scan_settings, ScanSettings::Scan); // x, first visit
    assert_eq!(w2.scan_settings, ScanSettings::NoScan); // x again
    assert_eq!(w3.scan_settings, ScanSettings::Done); // a again, then forced Done
}

#[test]
fn every_waypoint_position_is_a_zone_position() {
    let mut m = NodeMap::new(1191, 1491);
    m.create_global_path().expect("the standard arena is connected");
    let positions: Vec<(i32, i32)> = m
        .nodes
        .iter()
        .map(|n| (n.node_point.x, n.node_point.y))
        .collect();
    while m.has_next() {
        let wp = m.get_next_path().unwrap();
        assert!(positions.contains(&(wp.x, wp.y)));
    }
}

#[test]
fn return_home_route_is_all_no_scan() {
    let mut m = NodeMap::new(1191, 1491);
    m.create_global_path().expect("the standard arena is connected");
    // deliver the first leg (7 waypoints, ending at station s0)
    for _ in 0..7 {
        m.get_next_path().expect("a waypoint is available");
    }
    m.go_home().expect("the standard arena is connected");
    // s0's position lies in s0's own box; home position lies in s3's box
    let expected_zones: Vec<usize> = vec![0, 4, 15, 14, 8, 9, 3];
    assert_eq!(m.global_path.len(), expected_zones.len());
    for &z in expected_zones.iter() {
        let wp = m.get_next_path().expect("a waypoint is available");
        assert_eq!(wp.x, m.nodes[z].node_point.x);
        assert_eq!(wp.y, m.nodes[z].node_point.y);
        assert_eq!(wp.scan_settings, ScanSettings::NoScan);
    }
    assert_eq!(m.get_next_path(), Err(PlanError::OutOfWaypoints));
}

#[test]
fn return_home_from_unknown_position_fails() {
    let nodes = vec![
        boxed_zone("a", 0, 0, 0, ScanSettings::NoScan, vec![1]),
        // a zone whose declared position lies outside every box
        Node::new(
            "ghostly".to_owned(),
            1,
            500,
            500,
            -1,
            -1,
            -1,
            -1,
            ScanSettings::NoScan,
            0,
            vec![0],
        ),
    ];
    let rooms = vec![vec![1], vec![]];
    let mut m = NodeMap::from_parts(nodes, rooms, 0, 0).expect("a well-formed zone table");
    m.create_global_path().expect("the two zones are connected");
    // deliver both waypoints; the last one sits at (500, 500), in no box
    m.get_next_path().unwrap();
    m.get_next_path().unwrap();
    assert_eq!(m.go_home(), Err(PlanError::UnknownStartPosition));
}
