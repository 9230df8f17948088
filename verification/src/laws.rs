//! What holds of every solution: it is determined by its inputs, it lists
//! the shortfalls and nothing else, a pair with no connection is listed in
//! full, and what was routed and what was not add up to what was asked for.

use crate::conservation::pair_shortfall;
use crate::paths::{chosen_path, has_chosen, is_walk, reachable};
use crate::routing::lemma_route_bounds;
use crate::solver::{
    demand_valid, is_solution, lemma_progress_bounds, progress, solution, wanted, UnmetDemand,
};
use crate::topology::NetworkView;
use vstd::prelude::*;

verus! {

/// Determinism: whatever the solver returns for a demand on a network, it
/// returns every time. Two solutions of the same inputs have the same flow
/// on every link and the same list of shortfalls.
pub proof fn lemma_solution_unique(
    net: NetworkView,
    demand: Seq<Seq<i64>>,
    flows_a: Seq<u64>,
    unmet_a: Seq<UnmetDemand>,
    flows_b: Seq<u64>,
    unmet_b: Seq<UnmetDemand>,
)
    requires
        is_solution(net, demand, flows_a, unmet_a),
        is_solution(net, demand, flows_b, unmet_b),
    ensures
        flows_a == flows_b,
        unmet_a == unmet_b,
{
}

/// The entry by which a shortfall is reported.
pub open spec fn unmet_entry(s: int, d: int, shortfall: nat) -> UnmetDemand {
    UnmetDemand { source: s as usize, destination: d as usize, shortfall: shortfall as u64 }
}

/// The pair `(s, d)` has been processed once the solver has come to
/// `sources` and `destinations`.
pub open spec fn processed(s: int, d: int, sources: nat, destinations: nat) -> bool {
    s - 1 < sources || (s - 1 == sources && d <= destinations)
}

/// A pair with a shortfall is listed from the stage at which it was
/// processed onwards.
proof fn lemma_listed_from(
    net: NetworkView,
    demand: Seq<Seq<i64>>,
    s: int,
    d: int,
    sources: nat,
    destinations: nat,
)
    requires
        1 <= s,
        1 <= d <= net.node_quantity,
        pair_shortfall(net, demand, s, d) > 0,
        processed(s, d, sources, destinations),
    ensures
        progress(net, demand, sources, destinations).unmet.contains(
            unmet_entry(s, d, pair_shortfall(net, demand, s, d)),
        ),
    decreases sources, destinations,
{
    let entry = unmet_entry(s, d, pair_shortfall(net, demand, s, d));
    let now = progress(net, demand, sources, destinations).unmet;
    if destinations > 0 {
        let before = progress(net, demand, sources, (destinations - 1) as nat);
        if s - 1 == sources && d == destinations {
            assert(now == before.unmet.push(entry));
            assert(now[now.len() - 1] == entry);
        } else {
            lemma_listed_from(net, demand, s, d, sources, (destinations - 1) as nat);
            let i = choose|i: int| 0 <= i < before.unmet.len() && before.unmet[i] == entry;
            assert(now[i] == entry);
        }
    } else {
        lemma_listed_from(net, demand, s, d, (sources - 1) as nat, net.node_quantity);
    }
}

/// Every pair that was not fully routed is listed with its shortfall.
pub proof fn lemma_shortfall_listed(net: NetworkView, demand: Seq<Seq<i64>>, s: int, d: int)
    requires
        1 <= s <= net.node_quantity,
        1 <= d <= net.node_quantity,
        pair_shortfall(net, demand, s, d) > 0,
    ensures
        solution(net, demand).unmet.contains(
            unmet_entry(s, d, pair_shortfall(net, demand, s, d)),
        ),
{
    lemma_listed_from(net, demand, s, d, net.node_quantity, 0);
}

/// The pair of entry `a` is processed before the pair of entry `b`.
pub open spec fn listed_before(a: UnmetDemand, b: UnmetDemand) -> bool {
    a.source < b.source || (a.source == b.source && a.destination < b.destination)
}

/// At every stage, the list holds nothing but shortfalls: each entry names
/// a pair of distinct nodes that has been processed and gives what the pair
/// could not route, which is more than nothing; and the entries stand in
/// the order in which their pairs were processed.
pub proof fn lemma_listed_is_shortfall(
    net: NetworkView,
    demand: Seq<Seq<i64>>,
    sources: nat,
    destinations: nat,
)
    requires
        net.wf(),
        sources <= net.node_quantity,
        destinations <= net.node_quantity,
        sources == net.node_quantity ==> destinations == 0,
    ensures
        forall|i: int|
            0 <= i < progress(net, demand, sources, destinations).unmet.len() ==> {
                let e = #[trigger] progress(net, demand, sources, destinations).unmet[i];
                &&& 1 <= e.source <= net.node_quantity
                &&& 1 <= e.destination <= net.node_quantity
                &&& e.source != e.destination
                &&& processed(e.source as int, e.destination as int, sources, destinations)
                &&& e.shortfall > 0
                &&& e.shortfall == pair_shortfall(
                    net,
                    demand,
                    e.source as int,
                    e.destination as int,
                )
            },
        forall|i: int, j: int|
            0 <= i < j < progress(net, demand, sources, destinations).unmet.len()
                ==> listed_before(
                #[trigger] progress(net, demand, sources, destinations).unmet[i],
                #[trigger] progress(net, demand, sources, destinations).unmet[j],
            ),
    decreases sources, destinations,
{
    let now = progress(net, demand, sources, destinations).unmet;
    if destinations > 0 {
        let s = sources as int + 1;
        let d = destinations as int;
        let before = progress(net, demand, sources, (destinations - 1) as nat);
        lemma_listed_is_shortfall(net, demand, sources, (destinations - 1) as nat);
        lemma_progress_bounds(net, demand, sources, (destinations - 1) as nat);
        lemma_route_bounds(net.links, before.residual, s, d, wanted(demand, s, d));
        assert forall|i: int| 0 <= i < now.len() implies {
            let e = #[trigger] now[i];
            &&& 1 <= e.source <= net.node_quantity
            &&& 1 <= e.destination <= net.node_quantity
            &&& e.source != e.destination
            &&& processed(e.source as int, e.destination as int, sources, destinations)
            &&& e.shortfall > 0
            &&& e.shortfall == pair_shortfall(net, demand, e.source as int, e.destination as int)
        } by {
            if i < before.unmet.len() {
                assert(now[i] == before.unmet[i]);
            }
        }
        assert forall|i: int, j: int| 0 <= i < j < now.len() implies listed_before(
            #[trigger] now[i],
            #[trigger] now[j],
        ) by {
            assert(now[i] == before.unmet[i]);
            if j < before.unmet.len() {
                assert(now[j] == before.unmet[j]);
            }
        }
    } else if sources > 0 {
        lemma_listed_is_shortfall(net, demand, (sources - 1) as nat, net.node_quantity);
        let before = progress(net, demand, (sources - 1) as nat, net.node_quantity).unmet;
        assert(now == before);
        assert forall|i: int| 0 <= i < now.len() implies {
            let e = #[trigger] now[i];
            &&& 1 <= e.source <= net.node_quantity
            &&& 1 <= e.destination <= net.node_quantity
            &&& e.source != e.destination
            &&& processed(e.source as int, e.destination as int, sources, destinations)
            &&& e.shortfall > 0
            &&& e.shortfall == pair_shortfall(net, demand, e.source as int, e.destination as int)
        } by {
            let e = before[i];
            assert(processed(
                e.source as int,
                e.destination as int,
                (sources - 1) as nat,
                net.node_quantity,
            ));
        }
    }
}

/// Disconnection: where no walk leads from `s` to `d`, nothing of the
/// pair's demand is routed: the shortfall is the whole demand, and where
/// there is a demand the solution lists the pair with it.
pub proof fn lemma_disconnected(net: NetworkView, demand: Seq<Seq<i64>>, s: int, d: int)
    requires
        demand_valid(net.node_quantity, demand),
        1 <= s <= net.node_quantity,
        1 <= d <= net.node_quantity,
        !reachable(net.links, s, d),
    ensures
        pair_shortfall(net, demand, s, d) == demand[s - 1][d - 1],
        demand[s - 1][d - 1] > 0 ==> solution(net, demand).unmet.contains(
            UnmetDemand {
                source: s as usize,
                destination: d as usize,
                shortfall: demand[s - 1][d - 1] as u64,
            },
        ),
{
    let before = progress(net, demand, (s - 1) as nat, (d - 1) as nat);
    assert(demand[s - 1][d - 1] >= 0);
    if s == d {
        assert(is_walk(net.links, Seq::<usize>::empty(), s, d));
    }
    if has_chosen(net.links, before.residual, s, d) {
        let path = chosen_path(net.links, before.residual, s, d);
        assert(is_walk(net.links, path, s, d));
    }
    if demand[s - 1][d - 1] > 0 {
        lemma_shortfall_listed(net, demand, s, d);
    }
}

/// The sum of the shortfalls of a list.
pub open spec fn total_shortfall(unmet: Seq<UnmetDemand>) -> nat
    decreases unmet.len(),
{
    if unmet.len() == 0 {
        0
    } else {
        total_shortfall(unmet.drop_last()) + unmet.last().shortfall as nat
    }
}

/// The demand of all the pairs processed once the solver has come to
/// `sources` and `destinations`.
pub open spec fn total_wanted(
    node_quantity: nat,
    demand: Seq<Seq<i64>>,
    sources: nat,
    destinations: nat,
) -> nat
    decreases sources, destinations,
{
    if destinations > 0 {
        total_wanted(node_quantity, demand, sources, (destinations - 1) as nat) + wanted(
            demand,
            sources as int + 1,
            destinations as int,
        )
    } else if sources > 0 {
        total_wanted(node_quantity, demand, (sources - 1) as nat, node_quantity)
    } else {
        0
    }
}

/// What has been routed of the demand of all the pairs processed once the
/// solver has come to `sources` and `destinations`.
pub open spec fn total_routed(
    net: NetworkView,
    demand: Seq<Seq<i64>>,
    sources: nat,
    destinations: nat,
) -> int
    decreases sources, destinations,
{
    if destinations > 0 {
        total_routed(net, demand, sources, (destinations - 1) as nat) + wanted(
            demand,
            sources as int + 1,
            destinations as int,
        ) - pair_shortfall(net, demand, sources as int + 1, destinations as int)
    } else if sources > 0 {
        total_routed(net, demand, (sources - 1) as nat, net.node_quantity)
    } else {
        0
    }
}

/// At every stage, what was routed and what is listed as shortfall add up
/// to what was asked for.
pub proof fn lemma_totals(net: NetworkView, demand: Seq<Seq<i64>>, sources: nat, destinations: nat)
    requires
        net.wf(),
    ensures
        total_routed(net, demand, sources, destinations) + total_shortfall(
            progress(net, demand, sources, destinations).unmet,
        ) == total_wanted(net.node_quantity, demand, sources, destinations),
        total_routed(net, demand, sources, destinations) >= 0,
    decreases sources, destinations,
{
    if destinations > 0 {
        let s = sources as int + 1;
        let d = destinations as int;
        let before = progress(net, demand, sources, (destinations - 1) as nat);
        let now = progress(net, demand, sources, destinations);
        lemma_totals(net, demand, sources, (destinations - 1) as nat);
        lemma_progress_bounds(net, demand, sources, (destinations - 1) as nat);
        lemma_route_bounds(net.links, before.residual, s, d, wanted(demand, s, d));
        let short = pair_shortfall(net, demand, s, d);
        if short > 0 {
            assert(now.unmet.drop_last() == before.unmet);
            assert(now.unmet.last().shortfall == short);
        }
    } else if sources > 0 {
        lemma_totals(net, demand, (sources - 1) as nat, net.node_quantity);
    }
}

} // verus!
