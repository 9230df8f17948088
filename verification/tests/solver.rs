use netflow::{FlowAssignment, Kind, Network, NetworkError, UnmetDemand};

fn network(kind: Kind, nodes: usize, edges: Vec<(usize, usize)>, capacities: Vec<u64>) -> Network {
    let mut net = Network::new(kind, nodes, edges).unwrap();
    let mut entries = Vec::new();
    for (l, c) in capacities.iter().enumerate() {
        entries.push((l, *c));
    }
    net.set_capacities(&entries).unwrap();
    net
}

fn zeros(n: usize) -> Vec<Vec<i64>> {
    vec![vec![0; n]; n]
}

fn single(n: usize, s: usize, d: usize, amount: i64) -> Vec<Vec<i64>> {
    let mut m = zeros(n);
    m[s - 1][d - 1] = amount;
    m
}

fn inflow(net: &Network, flows: &Vec<u64>, node: usize) -> u64 {
    let mut sum = 0;
    for l in 0..net.link_count() {
        if net.link(l).unwrap().to == node {
            sum += flows[l];
        }
    }
    sum
}

fn outflow(net: &Network, flows: &Vec<u64>, node: usize) -> u64 {
    let mut sum = 0;
    for l in 0..net.link_count() {
        if net.link(l).unwrap().from == node {
            sum += flows[l];
        }
    }
    sum
}

fn unmet(source: usize, destination: usize, shortfall: u64) -> UnmetDemand {
    UnmetDemand { source, destination, shortfall }
}

#[test]
fn single_link_carries_demand_within_capacity() {
    let net = network(Kind::Simplex, 2, vec![(1, 2)], vec![5]);
    let r = net.flow(single(2, 1, 2, 3)).unwrap();
    assert_eq!(r.flows, vec![3]);
    assert_eq!(r.unmet, vec![]);
}

#[test]
fn single_link_reports_shortfall_beyond_capacity() {
    let net = network(Kind::Simplex, 2, vec![(1, 2)], vec![5]);
    let r = net.flow(single(2, 1, 2, 8)).unwrap();
    assert_eq!(r.flows, vec![5]);
    assert_eq!(r.unmet, vec![unmet(1, 2, 3)]);
}

#[test]
fn two_paths_split_demand() {
    let net = network(Kind::Duplex, 4, vec![(1, 2), (2, 3), (1, 4), (4, 3)], vec![4; 8]);
    let r = net.flow(single(4, 1, 3, 6)).unwrap();
    assert_eq!(r.unmet, vec![]);
    assert_eq!(inflow(&net, &r.flows, 3), 6);
    assert_eq!(r.flows, vec![4, 0, 4, 0, 2, 0, 2, 0]);
    assert!(r.flows[2] > 0 && r.flows[6] > 0);
}

#[test]
fn negative_entry_is_invalid_demand() {
    let net = network(Kind::Simplex, 2, vec![(1, 2)], vec![5]);
    let mut m = single(2, 1, 2, 3);
    m[1][0] = -1;
    assert_eq!(net.flow(m), Err(NetworkError::InvalidDemand));
}

#[test]
fn negative_entry_on_the_diagonal_is_invalid_demand() {
    let net = network(Kind::Simplex, 2, vec![(1, 2)], vec![5]);
    let mut m = zeros(2);
    m[1][1] = i64::MIN;
    assert_eq!(net.flow(m), Err(NetworkError::InvalidDemand));
}

#[test]
fn matrix_of_wrong_dimension_is_invalid_demand() {
    let net = network(Kind::Simplex, 2, vec![(1, 2)], vec![5]);
    assert_eq!(net.flow(zeros(1)), Err(NetworkError::InvalidDemand));
    assert_eq!(net.flow(zeros(3)), Err(NetworkError::InvalidDemand));
    assert_eq!(net.flow(vec![]), Err(NetworkError::InvalidDemand));
    assert_eq!(net.flow(vec![vec![0, 0], vec![0]]), Err(NetworkError::InvalidDemand));
    assert_eq!(net.flow(vec![vec![0, 0, 0], vec![0, 0]]), Err(NetworkError::InvalidDemand));
}

#[test]
fn check_demand_accepts_what_flow_accepts() {
    let net = network(Kind::Simplex, 2, vec![(1, 2)], vec![5]);
    assert!(net.check_demand(&zeros(2)));
    assert!(net.check_demand(&vec![vec![i64::MAX, 1], vec![0, 7]]));
    assert!(!net.check_demand(&zeros(3)));
    assert!(!net.check_demand(&vec![vec![0, 0], vec![0, -1]]));
    assert!(!net.check_demand(&vec![vec![0, 0], vec![0, 0, 0]]));
}

#[test]
fn empty_network_has_an_empty_solution() {
    let net = Network::new(Kind::Duplex, 0, vec![]).unwrap();
    let r = net.flow(vec![]).unwrap();
    assert_eq!(r, FlowAssignment { flows: vec![], unmet: vec![] });
}

#[test]
fn no_demand_places_no_flow() {
    let net = network(Kind::Duplex, 3, vec![(1, 2), (2, 3)], vec![4; 4]);
    let r = net.flow(zeros(3)).unwrap();
    assert_eq!(r.flows, vec![0, 0, 0, 0]);
    assert_eq!(r.unmet, vec![]);
}

#[test]
fn demand_from_a_node_to_itself_counts_as_none() {
    let net = network(Kind::Duplex, 2, vec![(1, 2), (1, 1)], vec![4; 4]);
    let mut m = zeros(2);
    m[0][0] = 5;
    m[1][1] = 9;
    let r = net.flow(m).unwrap();
    assert_eq!(r.flows, vec![0, 0, 0, 0]);
    assert_eq!(r.unmet, vec![]);
}

#[test]
fn links_without_capacity_carry_nothing() {
    let net = Network::new(Kind::Simplex, 2, vec![(1, 2)]).unwrap();
    let r = net.flow(single(2, 1, 2, 4)).unwrap();
    assert_eq!(r.flows, vec![0]);
    assert_eq!(r.unmet, vec![unmet(1, 2, 4)]);
}

#[test]
fn zero_capacity_link_is_treated_as_absent() {
    let net = network(Kind::Simplex, 3, vec![(1, 2), (1, 3), (3, 2)], vec![0, 5, 5]);
    let r = net.flow(single(3, 1, 2, 3)).unwrap();
    assert_eq!(r.flows, vec![0, 3, 3]);
    assert_eq!(r.unmet, vec![]);
}

#[test]
fn disconnected_pair_has_its_whole_demand_as_shortfall() {
    let net = network(Kind::Duplex, 4, vec![(1, 2), (3, 4)], vec![9; 4]);
    let r = net.flow(single(4, 1, 3, 7)).unwrap();
    assert_eq!(r.flows, vec![0, 0, 0, 0]);
    assert_eq!(r.unmet, vec![unmet(1, 3, 7)]);
}

#[test]
fn simplex_link_cannot_be_used_backwards() {
    let net = network(Kind::Simplex, 2, vec![(1, 2)], vec![5]);
    let r = net.flow(single(2, 2, 1, 2)).unwrap();
    assert_eq!(r.flows, vec![0]);
    assert_eq!(r.unmet, vec![unmet(2, 1, 2)]);
}

#[test]
fn duplex_directions_have_independent_capacity() {
    let net = network(Kind::Duplex, 2, vec![(1, 2)], vec![5, 2]);
    let mut m = zeros(2);
    m[0][1] = 5;
    m[1][0] = 3;
    let r = net.flow(m).unwrap();
    assert_eq!(r.flows, vec![5, 2]);
    assert_eq!(r.unmet, vec![unmet(2, 1, 1)]);
}

#[test]
fn shortest_path_is_preferred_to_an_earlier_longer_one() {
    let net = network(Kind::Simplex, 4, vec![(1, 2), (2, 3), (3, 4), (1, 4)], vec![1; 4]);
    let r = net.flow(single(4, 1, 4, 1)).unwrap();
    assert_eq!(r.flows, vec![0, 0, 0, 1]);
    assert_eq!(r.unmet, vec![]);
}

#[test]
fn ties_between_shortest_paths_go_to_the_earlier_link() {
    let net = network(Kind::Simplex, 4, vec![(1, 3), (1, 2), (2, 4), (3, 4)], vec![1; 4]);
    let r = net.flow(single(4, 1, 4, 1)).unwrap();
    assert_eq!(r.flows, vec![1, 0, 0, 1]);
    let net = network(Kind::Simplex, 4, vec![(1, 2), (1, 3), (2, 4), (3, 4)], vec![1; 4]);
    let r = net.flow(single(4, 1, 4, 1)).unwrap();
    assert_eq!(r.flows, vec![1, 0, 1, 0]);
}

#[test]
fn tie_at_the_first_node_outweighs_a_later_tie() {
    // Both 1-2-4-5 and 1-3-4-5 are shortest; at node 1 link 0 comes first.
    let net = network(
        Kind::Simplex,
        5,
        vec![(1, 2), (1, 3), (3, 4), (2, 4), (4, 5)],
        vec![1; 5],
    );
    let r = net.flow(single(5, 1, 5, 1)).unwrap();
    assert_eq!(r.flows, vec![1, 0, 0, 1, 1]);
}

#[test]
fn parallel_links_are_used_in_insertion_order() {
    let net = network(Kind::Simplex, 2, vec![(1, 2), (1, 2)], vec![3, 4]);
    let r = net.flow(single(2, 1, 2, 5)).unwrap();
    assert_eq!(r.flows, vec![3, 2]);
    assert_eq!(r.unmet, vec![]);
}

#[test]
fn augmentation_pushes_the_bottleneck_and_goes_on() {
    // First the two-hop path with bottleneck 2, then the three-hop path.
    let net = network(
        Kind::Simplex,
        5,
        vec![(1, 2), (2, 5), (1, 3), (3, 4), (4, 5)],
        vec![7, 2, 4, 3, 9],
    );
    let r = net.flow(single(5, 1, 5, 6)).unwrap();
    assert_eq!(r.flows, vec![2, 2, 3, 3, 3]);
    assert_eq!(r.unmet, vec![unmet(1, 5, 1)]);
}

#[test]
fn earlier_pairs_are_served_first() {
    let net = network(Kind::Simplex, 3, vec![(1, 2), (2, 3)], vec![10, 5]);
    let mut m = zeros(3);
    m[0][2] = 4;
    m[1][2] = 4;
    let r = net.flow(m).unwrap();
    assert_eq!(r.flows, vec![4, 5]);
    assert_eq!(r.unmet, vec![unmet(2, 3, 3)]);
}

#[test]
fn pairs_are_taken_by_source_then_destination() {
    let net = network(Kind::Simplex, 3, vec![(1, 3), (1, 2), (2, 3), (2, 1)], vec![1, 1, 0, 0]);
    let mut m = zeros(3);
    m[1][0] = 2;
    m[0][2] = 3;
    m[0][1] = 4;
    m[1][2] = 5;
    let r = net.flow(m).unwrap();
    assert_eq!(r.flows, vec![1, 1, 0, 0]);
    assert_eq!(
        r.unmet,
        vec![unmet(1, 2, 3), unmet(1, 3, 2), unmet(2, 1, 2), unmet(2, 3, 5)]
    );
}

#[test]
fn one_unroutable_pair_does_not_stop_the_others() {
    let net = network(Kind::Simplex, 3, vec![(2, 3)], vec![5]);
    let mut m = zeros(3);
    m[0][1] = 1;
    m[1][2] = 4;
    let r = net.flow(m).unwrap();
    assert_eq!(r.flows, vec![4]);
    assert_eq!(r.unmet, vec![unmet(1, 2, 1)]);
}

#[test]
fn placed_flow_is_not_rerouted_for_a_later_path() {
    // The path over link 1 is taken first and blocks both three-hop paths.
    let edges = vec![(1, 2), (2, 5), (2, 3), (3, 6), (1, 4), (4, 5), (5, 6)];
    let net = network(Kind::Simplex, 6, edges, vec![1; 7]);
    let r = net.flow(single(6, 1, 6, 2)).unwrap();
    assert_eq!(r.flows, vec![1, 1, 0, 0, 0, 0, 1]);
    assert_eq!(r.unmet, vec![unmet(1, 6, 1)]);
}

#[test]
fn raising_a_capacity_from_zero_can_lower_the_routed_total() {
    let edges = vec![(1, 2), (2, 5), (2, 3), (3, 6), (1, 4), (4, 5), (5, 6)];
    let closed = network(Kind::Simplex, 6, edges.clone(), vec![1, 0, 1, 1, 1, 1, 1]);
    let r = closed.flow(single(6, 1, 6, 2)).unwrap();
    assert_eq!(r.flows, vec![1, 0, 1, 1, 1, 1, 1]);
    assert_eq!(r.unmet, vec![]);
    let open = network(Kind::Simplex, 6, edges, vec![1; 7]);
    let r = open.flow(single(6, 1, 6, 2)).unwrap();
    assert_eq!(outflow(&open, &r.flows, 1), 1);
    assert_eq!(r.unmet, vec![unmet(1, 6, 1)]);
}

#[test]
fn raising_the_capacity_of_a_link_with_spare_capacity_changes_nothing() {
    let edges = vec![(1, 2), (2, 3), (1, 3), (3, 4)];
    let lower = network(Kind::Duplex, 4, edges.clone(), vec![6, 6, 3, 3, 2, 2, 4, 4]);
    let mut m = zeros(4);
    m[0][3] = 5;
    m[1][3] = 2;
    let before = lower.flow(m.clone()).unwrap();
    assert_eq!(before.flows, vec![2, 0, 2, 0, 2, 0, 4, 0]);
    assert_eq!(before.unmet, vec![unmet(1, 4, 1), unmet(2, 4, 2)]);
    let higher = network(Kind::Duplex, 4, edges, vec![60, 6, 3, 3, 2, 2, 4, 4]);
    assert_eq!(higher.flow(m).unwrap(), before);
}

#[test]
fn raising_a_capacity_used_up_last_routes_no_less() {
    let lower = network(Kind::Simplex, 2, vec![(1, 2)], vec![5]);
    let r = lower.flow(single(2, 1, 2, 8)).unwrap();
    assert_eq!(r.flows, vec![5]);
    assert_eq!(r.unmet, vec![unmet(1, 2, 3)]);
    let higher = network(Kind::Simplex, 2, vec![(1, 2)], vec![6]);
    let r = higher.flow(single(2, 1, 2, 8)).unwrap();
    assert_eq!(r.flows, vec![6]);
    assert_eq!(r.unmet, vec![unmet(1, 2, 2)]);
}

#[test]
fn raising_a_capacity_keeps_what_was_routed_before_it_was_used_up() {
    // Link 1 is used up by the first push of one unit; with twice the
    // capacity the first push is two units and blocks both other paths.
    let edges = vec![(1, 2), (2, 5), (2, 3), (3, 6), (1, 4), (4, 5), (5, 6)];
    let lower = network(Kind::Simplex, 6, edges.clone(), vec![2, 1, 1, 1, 1, 1, 2]);
    let r = lower.flow(single(6, 1, 6, 3)).unwrap();
    assert_eq!(r.flows, vec![2, 1, 1, 1, 1, 1, 2]);
    assert_eq!(r.unmet, vec![]);
    let higher = network(Kind::Simplex, 6, edges, vec![2, 2, 1, 1, 1, 1, 2]);
    let r = higher.flow(single(6, 1, 6, 3)).unwrap();
    assert_eq!(r.flows, vec![2, 2, 0, 0, 0, 0, 2]);
    assert_eq!(r.unmet, vec![unmet(1, 6, 1)]);
    assert!(outflow(&higher, &r.flows, 1) >= 1);
}

#[test]
fn flows_stay_within_capacity() {
    let mut net = Network::default();
    let mut entries = Vec::new();
    for l in 0..net.link_count() {
        entries.push((l, (l as u64 * 7) % 11));
    }
    net.set_capacities(&entries).unwrap();
    let mut m = zeros(20);
    for s in 0..20 {
        for d in 0..20 {
            m[s][d] = ((s * 3 + d * 5) % 9) as i64;
        }
    }
    let r = net.flow(m).unwrap();
    assert_eq!(r.flows.len(), 50);
    for l in 0..50 {
        assert!(r.flows[l] <= net.link(l).unwrap().capacity);
    }
    assert!(!r.unmet.is_empty());
}

#[test]
fn solving_twice_gives_the_same_solution() {
    let net = Network::default();
    let mut m = zeros(20);
    for s in 0..20 {
        for d in 0..20 {
            m[s][d] = ((s * 31 + d * 17) % 64) as i64;
        }
    }
    let first = net.flow(m.clone()).unwrap();
    let second = net.flow(m).unwrap();
    assert_eq!(first, second);
}

#[test]
fn solving_leaves_the_network_as_it_was() {
    let net = network(Kind::Simplex, 2, vec![(1, 2)], vec![5]);
    net.flow(single(2, 1, 2, 5)).unwrap();
    assert_eq!(net.link(0).unwrap().capacity, 5);
    let r = net.flow(single(2, 1, 2, 5)).unwrap();
    assert_eq!(r.flows, vec![5]);
    assert_eq!(r.unmet, vec![]);
}

#[test]
fn a_commodity_conserves_flow_at_every_node_between() {
    let net = Network::default();
    let r = net.flow(single(20, 1, 20, 600)).unwrap();
    let routed = outflow(&net, &r.flows, 1) - inflow(&net, &r.flows, 1);
    assert_eq!(inflow(&net, &r.flows, 20) - outflow(&net, &r.flows, 20), routed);
    for v in 2..20 {
        assert_eq!(inflow(&net, &r.flows, v), outflow(&net, &r.flows, v));
    }
    assert_eq!(routed, 510);
    assert_eq!(r.unmet, vec![unmet(1, 20, 90)]);
}

#[test]
fn routed_and_shortfall_add_up_to_the_demand() {
    let net = network(
        Kind::Simplex,
        5,
        vec![(1, 2), (2, 5), (1, 3), (3, 4), (4, 5)],
        vec![7, 2, 4, 3, 9],
    );
    let r = net.flow(single(5, 1, 5, 40)).unwrap();
    let routed = inflow(&net, &r.flows, 5);
    assert_eq!(routed, 5);
    assert_eq!(r.unmet, vec![unmet(1, 5, 35)]);
}

#[test]
fn greatest_demand_and_capacity_do_not_overflow() {
    let most = i64::MAX as u64;
    let net = network(Kind::Simplex, 3, vec![(1, 2), (2, 3)], vec![most + 5, u64::MAX]);
    let mut m = zeros(3);
    m[0][2] = i64::MAX;
    m[1][2] = i64::MAX;
    m[0][1] = i64::MAX;
    let r = net.flow(m).unwrap();
    assert_eq!(r.flows, vec![most + 5, most + 5]);
    assert_eq!(r.unmet, vec![unmet(1, 3, most - 5)]);
}

#[test]
fn capacity_beyond_every_demand_is_never_used_up() {
    let net = network(Kind::Simplex, 3, vec![(1, 2), (2, 3)], vec![u64::MAX, u64::MAX]);
    let mut m = zeros(3);
    m[0][2] = i64::MAX;
    m[1][2] = i64::MAX;
    m[0][1] = i64::MAX;
    let r = net.flow(m).unwrap();
    assert_eq!(r.flows, vec![u64::MAX - 1, u64::MAX - 1]);
    assert_eq!(r.unmet, vec![]);
}

fn plain_solve(net: &Network, demand: &Vec<Vec<i64>>) -> FlowAssignment {
    let n = net.node_quantity();
    let count = net.link_count();
    let mut residual: Vec<u64> = (0..count).map(|l| net.link(l).unwrap().capacity).collect();
    let mut flows = vec![0u64; count];
    let mut unmet = Vec::new();
    for s in 1..=n {
        for d in 1..=n {
            if s == d || demand[s - 1][d - 1] <= 0 {
                continue;
            }
            let mut remaining = demand[s - 1][d - 1] as u64;
            while remaining > 0 {
                let mut parent: Vec<Option<usize>> = vec![None; n + 1];
                let mut seen = vec![false; n + 1];
                let mut queue = std::collections::VecDeque::new();
                seen[s] = true;
                queue.push_back(s);
                while let Some(u) = queue.pop_front() {
                    for (l, v) in net.neighbors(u) {
                        if residual[l] > 0 && !seen[v] {
                            seen[v] = true;
                            parent[v] = Some(l);
                            queue.push_back(v);
                        }
                    }
                }
                if !seen[d] {
                    break;
                }
                let mut path = Vec::new();
                let mut v = d;
                while v != s {
                    let l = parent[v].unwrap();
                    path.push(l);
                    v = net.link(l).unwrap().from;
                }
                let bottleneck = path.iter().map(|l| residual[*l]).min().unwrap();
                let amount = remaining.min(bottleneck);
                for l in &path {
                    residual[*l] -= amount;
                    flows[*l] += amount;
                }
                remaining -= amount;
            }
            if remaining > 0 {
                unmet.push(UnmetDemand { source: s, destination: d, shortfall: remaining });
            }
        }
    }
    FlowAssignment { flows, unmet }
}

fn next(state: &mut u64, bound: u64) -> u64 {
    *state = state
        .wrapping_mul(6364136223846793005)
        .wrapping_add(1442695040888963407);
    (*state >> 33) % bound
}

#[test]
fn agrees_with_a_plain_queue_search_on_many_networks() {
    let mut state: u64 = 2024;
    for round in 0..400 {
        let n = 2 + next(&mut state, 6) as usize;
        let kind = if round % 2 == 0 { Kind::Simplex } else { Kind::Duplex };
        let edge_count = next(&mut state, 14) as usize;
        let mut edges = Vec::new();
        for _ in 0..edge_count {
            let a = 1 + next(&mut state, n as u64) as usize;
            let b = 1 + next(&mut state, n as u64) as usize;
            edges.push((a, b));
        }
        let mut net = Network::new(kind, n, edges).unwrap();
        let mut entries = Vec::new();
        for l in 0..net.link_count() {
            entries.push((l, next(&mut state, 5)));
        }
        net.set_capacities(&entries).unwrap();
        let mut m = zeros(n);
        for s in 0..n {
            for d in 0..n {
                if next(&mut state, 3) == 0 {
                    m[s][d] = next(&mut state, 7) as i64;
                }
            }
        }
        let expected = plain_solve(&net, &m);
        let r = net.flow(m).unwrap();
        assert_eq!(r, expected);
        for l in 0..net.link_count() {
            assert!(r.flows[l] <= net.link(l).unwrap().capacity);
        }
    }
}
