//! The flow solver: every demand pair in turn, over the capacity that the
//! pairs before it have left.

use crate::paths::{cut_off, lemma_cut_off_persists};
use crate::routing::{lemma_route_bounds, route_spec};
use crate::topology::{Link, Network, NetworkError, NetworkView};
use vstd::prelude::*;

verus! {

/// Demand from `source` to `destination` of which `shortfall` units could
/// not be routed.
#[derive(Debug, Clone, Copy, PartialEq, Eq, Structural)]
pub struct UnmetDemand {
    pub source: usize,
    pub destination: usize,
    pub shortfall: u64,
}

/// What the solver returns: the flow on every link, by link number, and the
/// demands that were not fully routed, in the order in which the pairs were
/// processed.
#[derive(Debug, PartialEq, Eq)]
pub struct FlowAssignment {
    pub flows: Vec<u64>,
    pub unmet: Vec<UnmetDemand>,
}

/// The rows of a demand matrix as sequences. Entry `[s - 1][d - 1]` is the
/// demand from node `s` to node `d`.
pub open spec fn matrix(rows: Seq<Vec<i64>>) -> Seq<Seq<i64>> {
    Seq::new(rows.len(), |i: int| rows[i]@)
}

/// The matrix has a row and a column for every node and no negative entry.
pub open spec fn demand_valid(node_quantity: nat, demand: Seq<Seq<i64>>) -> bool {
    &&& demand.len() == node_quantity
    &&& forall|i: int| 0 <= i < demand.len() ==> (#[trigger] demand[i]).len() == node_quantity
    &&& forall|i: int, j: int|
        0 <= i < demand.len() && 0 <= j < demand[i].len() ==> (#[trigger] demand[i][j]) >= 0
}

/// What the solver tries to route from `s` to `d`: the entry of the matrix,
/// and nothing from a node to itself.
pub open spec fn wanted(demand: Seq<Seq<i64>>, s: int, d: int) -> nat {
    if s == d || demand[s - 1][d - 1] <= 0 {
        0
    } else {
        demand[s - 1][d - 1] as nat
    }
}

/// The nominal capacity of every link.
pub open spec fn capacities(links: Seq<Link>) -> Seq<u64> {
    Seq::new(links.len(), |l: int| links[l].capacity)
}

/// The flow on every link: what is gone of its capacity.
pub open spec fn flows_of(links: Seq<Link>, residual: Seq<u64>) -> Seq<u64> {
    Seq::new(links.len(), |l: int| (links[l].capacity - residual[l]) as u64)
}

/// How far the solver has come: what is left of every link's capacity, and
/// the shortfalls recorded so far.
pub struct Progress {
    pub residual: Seq<u64>,
    pub unmet: Seq<UnmetDemand>,
}

/// The progress once the pair `(s, d)` has been processed.
pub open spec fn after_pair(
    links: Seq<Link>,
    demand: Seq<Seq<i64>>,
    before: Progress,
    s: int,
    d: int,
) -> Progress {
    let routed = route_spec(links, before.residual, s, d, wanted(demand, s, d));
    Progress {
        residual: routed.0,
        unmet: if routed.1 > 0 {
            before.unmet.push(
                UnmetDemand {
                    source: s as usize,
                    destination: d as usize,
                    shortfall: routed.1 as u64,
                },
            )
        } else {
            before.unmet
        },
    }
}

/// The progress once every pair with a source among `1..=sources` has been
/// processed and, of source `sources + 1`, the pairs with a destination
/// among `1..=destinations`.
pub open spec fn progress(
    net: NetworkView,
    demand: Seq<Seq<i64>>,
    sources: nat,
    destinations: nat,
) -> Progress
    decreases sources, destinations,
{
    if destinations > 0 {
        after_pair(
            net.links,
            demand,
            progress(net, demand, sources, (destinations - 1) as nat),
            sources as int + 1,
            destinations as int,
        )
    } else if sources > 0 {
        progress(net, demand, (sources - 1) as nat, net.node_quantity)
    } else {
        Progress { residual: capacities(net.links), unmet: Seq::empty() }
    }
}

/// The progress once every pair has been processed.
pub open spec fn solution(net: NetworkView, demand: Seq<Seq<i64>>) -> Progress {
    progress(net, demand, net.node_quantity, 0)
}

/// `flows` and `unmet` are what the solver returns for `demand` on `net`.
pub open spec fn is_solution(
    net: NetworkView,
    demand: Seq<Seq<i64>>,
    flows: Seq<u64>,
    unmet: Seq<UnmetDemand>,
) -> bool {
    &&& flows == flows_of(net.links, solution(net, demand).residual)
    &&& unmet == solution(net, demand).unmet
}

/// What the flows leave of every link's capacity.
pub open spec fn spare_of(links: Seq<Link>, flows: Seq<u64>) -> Seq<u64> {
    Seq::new(links.len(), |l: int| (links[l].capacity - flows[l]) as u64)
}

/// At every stage the residual capacity of a link is within its capacity.
pub proof fn lemma_progress_bounds(
    net: NetworkView,
    demand: Seq<Seq<i64>>,
    sources: nat,
    destinations: nat,
)
    requires
        net.wf(),
    ensures
        progress(net, demand, sources, destinations).residual.len() == net.links.len(),
        forall|l: int|
            0 <= l < net.links.len() ==> (#[trigger] progress(
                net,
                demand,
                sources,
                destinations,
            ).residual[l]) <= net.links[l].capacity,
    decreases sources, destinations,
{
    if destinations > 0 {
        let before = progress(net, demand, sources, (destinations - 1) as nat);
        lemma_progress_bounds(net, demand, sources, (destinations - 1) as nat);
        lemma_route_bounds(
            net.links,
            before.residual,
            sources as int + 1,
            destinations as int,
            wanted(demand, sources as int + 1, destinations as int),
        );
        assert forall|l: int| 0 <= l < net.links.len() implies (#[trigger] progress(
            net,
            demand,
            sources,
            destinations,
        ).residual[l]) <= net.links[l].capacity by {
            assert(before.residual[l] <= net.links[l].capacity);
        }
    } else if sources > 0 {
        lemma_progress_bounds(net, demand, (sources - 1) as nat, net.node_quantity);
    }
}

impl Network {
    /// Whether the matrix has a row and a column for every node and no
    /// negative entry.
    pub fn check_demand(&self, intensity_matrix: &Vec<Vec<i64>>) -> (ok: bool)
        ensures
            ok == demand_valid(self@.node_quantity, matrix(intensity_matrix@)),
    {
        let n: usize = self.node_quantity;
        let ghost demand = matrix(intensity_matrix@);
        if intensity_matrix.len() != n {
            return false;
        }
        let mut i: usize = 0;
        while i < n
            invariant
                i <= n,
                n == self@.node_quantity,
                intensity_matrix.len() == n,
                demand == matrix(intensity_matrix@),
                forall|a: int| 0 <= a < i ==> (#[trigger] demand[a]).len() == n,
                forall|a: int, b: int|
                    0 <= a < i && 0 <= b < demand[a].len() ==> (#[trigger] demand[a][b]) >= 0,
            decreases n - i,
        {
            if intensity_matrix[i].len() != n {
                assert(demand[i as int].len() != n);
                return false;
            }
            let mut j: usize = 0;
            while j < n
                invariant
                    j <= n,
                    i < n,
                    intensity_matrix.len() == n,
                    intensity_matrix[i as int].len() == n,
                    demand == matrix(intensity_matrix@),
                    forall|b: int| 0 <= b < j ==> (#[trigger] demand[i as int][b]) >= 0,
                decreases n - j,
            {
                if intensity_matrix[i][j] < 0 {
                    assert(demand[i as int][j as int] < 0);
                    return false;
                }
                j = j + 1;
            }
            i = i + 1;
        }
        true
    }

    /// Routes the demand matrix over the network. The pairs are taken by
    /// ascending source, then ascending destination; each is routed over
    /// what the pairs before it have left of the capacities, along
    /// breadth-first shortest augmenting paths, until its demand is met or
    /// no augmenting path is left. Returns the flow on every link and the
    /// shortfall of every pair that was not fully routed.
    ///
    /// Fails with `InvalidDemand`, before anything is routed, when the
    /// matrix is not `node_quantity` by `node_quantity` or holds a negative
    /// entry. A demand from a node to itself counts as none.
    pub fn flow(&self, intensity_matrix: Vec<Vec<i64>>) -> (r: Result<FlowAssignment, NetworkError>)
        ensures
            self@.wf(),
            r is Ok <==> demand_valid(self@.node_quantity, matrix(intensity_matrix@)),
            r matches Err(e) ==> e == NetworkError::InvalidDemand,
            r matches Ok(assignment) ==> {
                &&& is_solution(
                    self@,
                    matrix(intensity_matrix@),
                    assignment.flows@,
                    assignment.unmet@,
                )
                &&& assignment.flows.len() == self@.links.len()
                &&& forall|l: int|
                    0 <= l < self@.links.len() ==> (#[trigger] assignment.flows[l])
                        <= self@.links[l].capacity
                &&& forall|i: int|
                    0 <= i < assignment.unmet.len() ==> cut_off(
                        self@.links,
                        spare_of(self@.links, assignment.flows@),
                        (#[trigger] assignment.unmet[i]).source as int,
                        assignment.unmet[i].destination as int,
                    )
            },
    {
        proof {
            use_type_invariant(self);
            assert(self.links.len() <= usize::MAX);
            assert(self.adjacency.len() <= usize::MAX);
        }
        if !self.check_demand(&intensity_matrix) {
            return Err(NetworkError::InvalidDemand);
        }
        let n: usize = self.node_quantity;
        let ghost net = self@;
        let ghost demand = matrix(intensity_matrix@);
        let mut residual: Vec<u64> = Vec::new();
        let mut flows: Vec<u64> = Vec::new();
        let mut l: usize = 0;
        while l < self.links.len()
            invariant
                l <= self.links.len(),
                residual.len() == l,
                flows.len() == l,
                forall|m: int| 0 <= m < l ==> (#[trigger] residual[m]) == self.links[m].capacity,
                forall|m: int| 0 <= m < l ==> (#[trigger] flows[m]) == 0,
            decreases self.links.len() - l,
        {
            residual.push(self.links[l].capacity);
            flows.push(0);
            l = l + 1;
        }
        assert(residual@ == capacities(net.links));
        let mut unmet: Vec<UnmetDemand> = Vec::new();
        let mut s: usize = 1;
        while s <= n
            invariant
                self.well_formed(),
                net == self@,
                n == self.node_quantity,
                demand == matrix(intensity_matrix@),
                demand_valid(n as nat, demand),
                1 <= s <= n + 1,
                residual.len() == net.links.len(),
                flows.len() == net.links.len(),
                forall|m: int|
                    0 <= m < net.links.len() ==> (#[trigger] flows[m]) + residual[m]
                        == net.links[m].capacity,
                progress(net, demand, (s - 1) as nat, 0) == (Progress {
                    residual: residual@,
                    unmet: unmet@,
                }),
                forall|i: int|
                    0 <= i < unmet.len() ==> cut_off(
                        net.links,
                        residual@,
                        (#[trigger] unmet[i]).source as int,
                        unmet[i].destination as int,
                    ),
            decreases n + 1 - s,
        {
            let mut d: usize = 1;
            while d <= n
                invariant
                    self.well_formed(),
                    net == self@,
                    n == self.node_quantity,
                    demand == matrix(intensity_matrix@),
                    demand_valid(n as nat, demand),
                    1 <= s <= n,
                    1 <= d <= n + 1,
                    residual.len() == net.links.len(),
                    flows.len() == net.links.len(),
                    forall|m: int|
                        0 <= m < net.links.len() ==> (#[trigger] flows[m]) + residual[m]
                            == net.links[m].capacity,
                    progress(net, demand, (s - 1) as nat, (d - 1) as nat) == (Progress {
                        residual: residual@,
                        unmet: unmet@,
                    }),
                    forall|i: int|
                        0 <= i < unmet.len() ==> cut_off(
                            net.links,
                            residual@,
                            (#[trigger] unmet[i]).source as int,
                            unmet[i].destination as int,
                        ),
                decreases n + 1 - d,
            {
                let ghost before = Progress { residual: residual@, unmet: unmet@ };
                assert(demand[s - 1][d - 1] == intensity_matrix[s - 1][d - 1]);
                assert(demand[s - 1].len() == n);
                let want: i64 = intensity_matrix[s - 1][d - 1];
                if s != d && want > 0 {
                    let shortfall: u64 = self.route(&mut residual, &mut flows, s, d, want as u64);
                    proof {
                        assert forall|i: int| 0 <= i < unmet.len() implies cut_off(
                            net.links,
                            residual@,
                            (#[trigger] unmet[i]).source as int,
                            unmet[i].destination as int,
                        ) by {
                            lemma_cut_off_persists(
                                net.links,
                                before.residual,
                                residual@,
                                unmet[i].source as int,
                                unmet[i].destination as int,
                            );
                        }
                    }
                    if shortfall > 0 {
                        unmet.push(UnmetDemand { source: s, destination: d, shortfall });
                    }
                }
                proof {
                    assert(progress(net, demand, (s - 1) as nat, d as nat) == after_pair(
                        net.links,
                        demand,
                        before,
                        s as int,
                        d as int,
                    ));
                }
                d = d + 1;
            }
            s = s + 1;
        }
        assert(flows@ =~= flows_of(net.links, residual@));
        assert(residual@ =~= spare_of(net.links, flows@));
        Ok(FlowAssignment { flows, unmet })
    }
}

} // verus!
