use netflow::{Kind, Link, Network, NetworkError};

#[test]
fn simplex_edges_become_one_link_each() {
    let net = Network::new(Kind::Simplex, 3, vec![(1, 2), (2, 3), (3, 1)]).unwrap();
    assert_eq!(net.kind(), Kind::Simplex);
    assert_eq!(net.node_quantity(), 3);
    assert_eq!(net.link_count(), 3);
    assert_eq!(net.link(0), Some(Link { from: 1, to: 2, capacity: 0 }));
    assert_eq!(net.link(1), Some(Link { from: 2, to: 3, capacity: 0 }));
    assert_eq!(net.link(2), Some(Link { from: 3, to: 1, capacity: 0 }));
    assert_eq!(net.link(3), None);
}

#[test]
fn duplex_edges_become_two_links_each() {
    let net = Network::new(Kind::Duplex, 3, vec![(1, 2), (3, 2)]).unwrap();
    assert_eq!(net.kind(), Kind::Duplex);
    assert_eq!(net.link_count(), 4);
    assert_eq!(net.link(0), Some(Link { from: 1, to: 2, capacity: 0 }));
    assert_eq!(net.link(1), Some(Link { from: 2, to: 1, capacity: 0 }));
    assert_eq!(net.link(2), Some(Link { from: 3, to: 2, capacity: 0 }));
    assert_eq!(net.link(3), Some(Link { from: 2, to: 3, capacity: 0 }));
}

#[test]
fn endpoint_zero_is_invalid() {
    let r = Network::new(Kind::Simplex, 3, vec![(1, 2), (0, 3)]);
    assert_eq!(r.err(), Some(NetworkError::InvalidTopology));
}

#[test]
fn endpoint_beyond_node_quantity_is_invalid() {
    let r = Network::new(Kind::Duplex, 3, vec![(1, 4)]);
    assert_eq!(r.err(), Some(NetworkError::InvalidTopology));
    let r = Network::new(Kind::Simplex, 3, vec![(4, 1)]);
    assert_eq!(r.err(), Some(NetworkError::InvalidTopology));
}

#[test]
fn endpoints_at_the_bounds_are_valid() {
    let net = Network::new(Kind::Simplex, 3, vec![(1, 3), (3, 1)]).unwrap();
    assert_eq!(net.link_count(), 2);
}

#[test]
fn network_without_edges_or_nodes() {
    let net = Network::new(Kind::Duplex, 0, vec![]).unwrap();
    assert_eq!(net.node_quantity(), 0);
    assert_eq!(net.link_count(), 0);
    assert_eq!(net.neighbors(0), vec![]);
    assert_eq!(net.neighbors(1), vec![]);
    let r = Network::new(Kind::Simplex, 0, vec![(1, 1)]);
    assert_eq!(r.err(), Some(NetworkError::InvalidTopology));
}

#[test]
fn neighbors_come_in_insertion_order() {
    let net = Network::new(Kind::Simplex, 4, vec![(1, 3), (2, 1), (1, 2), (1, 4), (3, 1)]).unwrap();
    assert_eq!(net.neighbors(1), vec![(0, 3), (2, 2), (3, 4)]);
    assert_eq!(net.neighbors(2), vec![(1, 1)]);
    assert_eq!(net.neighbors(3), vec![(4, 1)]);
    assert_eq!(net.neighbors(4), vec![]);
}

#[test]
fn neighbors_of_a_duplex_network_hold_both_directions() {
    let net = Network::new(Kind::Duplex, 3, vec![(1, 2), (2, 3)]).unwrap();
    assert_eq!(net.neighbors(1), vec![(0, 2)]);
    assert_eq!(net.neighbors(2), vec![(1, 1), (2, 3)]);
    assert_eq!(net.neighbors(3), vec![(3, 2)]);
}

#[test]
fn neighbors_of_no_node_are_none() {
    let net = Network::new(Kind::Duplex, 2, vec![(1, 2)]).unwrap();
    assert_eq!(net.neighbors(0), vec![]);
    assert_eq!(net.neighbors(3), vec![]);
    assert_eq!(net.neighbors(usize::MAX), vec![]);
}

#[test]
fn parallel_links_and_loops_are_kept() {
    let net = Network::new(Kind::Simplex, 2, vec![(1, 2), (1, 2), (2, 2)]).unwrap();
    assert_eq!(net.neighbors(1), vec![(0, 2), (1, 2)]);
    assert_eq!(net.neighbors(2), vec![(2, 2)]);
}

#[test]
fn set_capacities_attaches_capacity_to_links() {
    let mut net = Network::new(Kind::Duplex, 2, vec![(1, 2)]).unwrap();
    assert_eq!(net.set_capacities(&vec![(0, 7), (1, 9)]), Ok(()));
    assert_eq!(net.link(0), Some(Link { from: 1, to: 2, capacity: 7 }));
    assert_eq!(net.link(1), Some(Link { from: 2, to: 1, capacity: 9 }));
}

#[test]
fn set_capacities_later_entry_counts() {
    let mut net = Network::new(Kind::Simplex, 3, vec![(1, 2), (2, 3)]).unwrap();
    assert_eq!(net.set_capacities(&vec![(1, 4), (0, 2), (1, 6)]), Ok(()));
    assert_eq!(net.link(0), Some(Link { from: 1, to: 2, capacity: 2 }));
    assert_eq!(net.link(1), Some(Link { from: 2, to: 3, capacity: 6 }));
}

#[test]
fn set_capacities_leaves_unnamed_links_alone() {
    let mut net = Network::new(Kind::Simplex, 3, vec![(1, 2), (2, 3)]).unwrap();
    assert_eq!(net.set_capacities(&vec![(0, 5), (1, 8)]), Ok(()));
    assert_eq!(net.set_capacities(&vec![(1, u64::MAX)]), Ok(()));
    assert_eq!(net.set_capacities(&vec![]), Ok(()));
    assert_eq!(net.link(0), Some(Link { from: 1, to: 2, capacity: 5 }));
    assert_eq!(net.link(1), Some(Link { from: 2, to: 3, capacity: u64::MAX }));
}

#[test]
fn set_capacities_for_a_missing_link_changes_nothing() {
    let mut net = Network::new(Kind::Simplex, 3, vec![(1, 2), (2, 3)]).unwrap();
    assert_eq!(net.set_capacities(&vec![(0, 5), (1, 8)]), Ok(()));
    assert_eq!(
        net.set_capacities(&vec![(0, 1), (2, 3)]),
        Err(NetworkError::InvalidTopology)
    );
    assert_eq!(net.link(0), Some(Link { from: 1, to: 2, capacity: 5 }));
    assert_eq!(net.link(1), Some(Link { from: 2, to: 3, capacity: 8 }));
    assert_eq!(net.neighbors(1), vec![(0, 2)]);
}

#[test]
fn default_network_is_the_twenty_node_grid() {
    let net = Network::default();
    assert_eq!(net.kind(), Kind::Duplex);
    assert_eq!(net.node_quantity(), 20);
    assert_eq!(net.link_count(), 50);
    assert_eq!(net.link(0), Some(Link { from: 1, to: 2, capacity: 255 }));
    assert_eq!(net.link(1), Some(Link { from: 2, to: 1, capacity: 255 }));
    assert_eq!(net.link(48), Some(Link { from: 13, to: 18, capacity: 255 }));
    assert_eq!(net.link(49), Some(Link { from: 18, to: 13, capacity: 255 }));
    assert_eq!(net.neighbors(8), vec![(31, 9), (32, 7), (45, 3), (46, 13)]);
    let mut l = 0;
    while l < 50 {
        assert_eq!(net.link(l).unwrap().capacity, 255);
        l += 1;
    }
}
