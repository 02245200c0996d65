use w9l::arena::GroupArena;
use w9l::group::Group;
use w9l::hex::{classify, CellKind, Hex};

#[test]
fn bridge_needs_two_corners() {
    let mut g = Group::new();
    g.add_corner(0);
    assert!(!g.check_bridge());
    g.add_corner(2);
    assert!(g.check_bridge());
    // a corner recorded twice still counts once
    let mut h = Group::new();
    h.add_corner(0);
    h.add_corner(0);
    assert!(!h.check_bridge());
}

#[test]
fn fork_needs_three_edges() {
    let mut g = Group::new();
    g.add_edge(0);
    g.add_edge(1);
    assert!(!g.check_fork());
    g.add_edge(2);
    assert!(g.check_fork());
}

#[test]
fn merge_unions_masks_and_stones() {
    let mut a = Group::new();
    a.add_edge(0);
    a.add_hex(Hex { x: 0, y: 0 });
    let mut b = Group::new();
    b.add_edge(1);
    b.add_edge(2);
    b.add_hex(Hex { x: 1, y: 0 });
    assert!(!a.check_fork());
    a.merge(&b);
    assert!(a.check_fork());
    assert!(!a.check_bridge());
}

#[test]
fn ring_closes_around_a_cell() {
    let mut g = Group::new();
    for (x, y) in [(1i32, 0i32), (0, 1), (-1, 1), (-1, 0), (0, -1)] {
        g.add_hex(Hex { x, y });
    }
    assert!(g.add_hex_and_check_ring(Hex { x: 1, y: -1 }));
}

#[test]
fn no_ring_below_six_stones() {
    let mut g = Group::new();
    for (x, y) in [(1i32, 0i32), (0, 1), (-1, 1), (-1, 0)] {
        g.add_hex(Hex { x, y });
    }
    assert!(!g.add_hex_and_check_ring(Hex { x: 0, y: -1 }));
}

#[test]
fn no_ring_through_the_center_stone() {
    // center plus five of its neighbors: six stones, but the loop they
    // close encloses no cell
    let mut g = Group::new();
    for (x, y) in [(0i32, 0i32), (-1, 0), (-1, 1), (0, 1), (1, 0)] {
        g.add_hex(Hex { x, y });
    }
    assert!(!g.add_hex_and_check_ring(Hex { x: 1, y: -1 }));
}

#[test]
fn check_ring_reads_the_last_stone() {
    let mut g = Group::new();
    assert!(!g.check_ring());
    for (x, y) in [(1i32, 0i32), (0, 1), (-1, 1), (-1, 0), (0, -1), (1, -1)] {
        g.add_hex(Hex { x, y });
    }
    assert!(g.check_ring());
}

#[test]
fn classify_names_interior_edges_and_corners() {
    assert_eq!(classify(Hex { x: 0, y: 0 }, 3), CellKind::Interior);
    assert_eq!(classify(Hex { x: 1, y: 1 }, 3), CellKind::Interior);
    // one cube coordinate on the rim: an edge
    assert_eq!(classify(Hex { x: -1, y: 3 }, 3), CellKind::Edge(0));
    assert_eq!(classify(Hex { x: -3, y: 1 }, 3), CellKind::Edge(1));
    assert_eq!(classify(Hex { x: -1, y: -2 }, 3), CellKind::Edge(2));
    assert_eq!(classify(Hex { x: 1, y: -3 }, 3), CellKind::Edge(3));
    assert_eq!(classify(Hex { x: 3, y: -1 }, 3), CellKind::Edge(4));
    assert_eq!(classify(Hex { x: 2, y: 1 }, 3), CellKind::Edge(5));
    // two cube coordinates on the rim: a corner
    assert_eq!(classify(Hex { x: -3, y: 3 }, 3), CellKind::Corner(0));
    assert_eq!(classify(Hex { x: -3, y: 0 }, 3), CellKind::Corner(1));
    assert_eq!(classify(Hex { x: 0, y: -3 }, 3), CellKind::Corner(2));
    assert_eq!(classify(Hex { x: 3, y: -3 }, 3), CellKind::Corner(3));
    assert_eq!(classify(Hex { x: 3, y: 0 }, 3), CellKind::Corner(4));
    assert_eq!(classify(Hex { x: 0, y: 3 }, 3), CellKind::Corner(5));
}

#[test]
fn find_resolves_merged_handles_to_one_survivor() {
    let mut a = GroupArena::new();
    let g0 = a.new_group();
    let g1 = a.new_group();
    let g2 = a.new_group();
    a.merge(g0, g1);
    assert_eq!(a.find(g1), g0);
    assert_eq!(a.find(g0), g0);
    a.merge(g1, g2);
    assert_eq!(a.find(g2), g0);
    assert_eq!(a.find(a.find(g2)), a.find(g2));
}

#[test]
fn merge_order_does_not_change_representatives() {
    let mut a = GroupArena::new();
    let a0 = a.new_group();
    let a1 = a.new_group();
    let a2 = a.new_group();
    a.merge(a0, a1);
    a.merge(a1, a2);

    let mut b = GroupArena::new();
    let b0 = b.new_group();
    let b1 = b.new_group();
    let b2 = b.new_group();
    b.merge(b1, b2);
    b.merge(b2, b0);

    assert_eq!(a.find(a0), b.find(b0));
    assert_eq!(a.find(a1), b.find(b1));
    assert_eq!(a.find(a2), b.find(b2));
}

#[test]
fn merged_group_carries_both_masks() {
    let mut a = GroupArena::new();
    let g0 = a.new_group();
    let g1 = a.new_group();
    a.add_stone_and_classify(g0, Hex { x: -3, y: 3 }, 3);
    a.add_stone_and_classify(g1, Hex { x: 0, y: -3 }, 3);
    assert!(!a.group(g0).check_bridge());
    a.merge(g0, g1);
    assert!(a.group(g1).check_bridge());
}
