use oqci::target::{CouplingMode, PhysicalQubit, Topology};

fn p(n: u32) -> PhysicalQubit {
    PhysicalQubit(n)
}

#[test]
fn a_line_couples_neighbours_both_ways() {
    let t = Topology::linear(3);
    assert_eq!(t.qubit_count(), 3);
    assert!(t.supports(p(0), p(1)));
    assert!(t.supports(p(1), p(0)));
    assert!(!t.supports(p(0), p(2)));
    assert!(t.couples(p(2), p(1), CouplingMode::Symmetric));
}

#[test]
fn coupling_modes_read_direction_differently() {
    let t = Topology::new(2, vec![(p(0), p(1))]);
    assert!(t.couples(p(0), p(1), CouplingMode::Directed));
    assert!(!t.couples(p(1), p(0), CouplingMode::Directed));
    assert!(t.couples(p(1), p(0), CouplingMode::Undirected));
    assert!(!t.couples(p(0), p(1), CouplingMode::Symmetric));
}

#[test]
fn neighbours_are_listed_in_ascending_order() {
    let t = Topology::new(4, vec![(p(2), p(0)), (p(2), p(3)), (p(1), p(2))]);
    assert_eq!(t.adjacent(p(2), CouplingMode::Directed), vec![p(0), p(3)]);
    assert_eq!(t.adjacent(p(2), CouplingMode::Undirected), vec![p(0), p(1), p(3)]);
}

#[test]
fn shortest_paths_are_breadth_first() {
    let t = Topology::linear(5);
    assert_eq!(
        t.shortest_path(p(0), p(3), CouplingMode::Undirected),
        Some(vec![p(0), p(1), p(2), p(3)])
    );
    assert_eq!(t.distance(p(4), p(1), CouplingMode::Undirected), Some(3));
    assert_eq!(t.distance(p(2), p(2), CouplingMode::Undirected), Some(0));
    assert_eq!(t.distance(p(0), p(9), CouplingMode::Undirected), None);
}

#[test]
fn frozen_qubits_are_not_walked_through() {
    let t = Topology::linear(3);
    let frozen = vec![false, true, false];
    assert_eq!(
        t.shortest_path_avoiding(p(0), p(2), CouplingMode::Undirected, &frozen),
        None
    );
    assert_eq!(
        t.shortest_path_avoiding(p(0), p(1), CouplingMode::Undirected, &frozen),
        Some(vec![p(0), p(1)])
    );
}

#[test]
fn a_disconnected_device_has_no_paths() {
    let t = Topology::disconnected(2);
    assert_eq!(t.shortest_path(p(0), p(1), CouplingMode::Undirected), None);
}

#[test]
fn distance_takes_the_shortcut_when_one_exists() {
    // A ring of five: 0-1-2-3-4-0. From 0 to 3 the short way round is two hops.
    let t = Topology::new(
        5,
        vec![(p(0), p(1)), (p(1), p(2)), (p(2), p(3)), (p(3), p(4)), (p(4), p(0))],
    );
    assert_eq!(t.distance(p(0), p(3), CouplingMode::Undirected), Some(2));
    assert_eq!(t.shortest_path(p(0), p(3), CouplingMode::Undirected).unwrap(), vec![p(0), p(4), p(3)]);
    assert_eq!(t.distance(p(0), p(3), CouplingMode::Directed), Some(3));
    assert_eq!(t.distance(p(2), p(2), CouplingMode::Directed), Some(0));
}
