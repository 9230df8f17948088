//! Flow balance: what a commodity sends into a node it sends out again.

use crate::paths::{chosen_path, has_chosen, is_walk};
use crate::routing::{
    bottleneck, lemma_bottleneck, lemma_route_bounds, push_along, route_spec, step_amount,
};
use crate::search::lemma_chosen_is_simple;
use crate::solver::{is_solution, lemma_progress_bounds, progress, wanted, UnmetDemand};
use crate::topology::{links_in_range, Link, NetworkView};
use vstd::prelude::*;

verus! {

/// The flow that leaves node `v`, where link `l` carries `flow[l]`.
pub open spec fn outflow(links: Seq<Link>, flow: Seq<int>, v: int) -> int
    decreases links.len(),
{
    if links.len() == 0 {
        0
    } else {
        outflow(links.drop_last(), flow, v) + if links.last().from == v {
            flow[links.len() - 1]
        } else {
            0
        }
    }
}

/// The flow that enters node `v`, where link `l` carries `flow[l]`.
pub open spec fn inflow(links: Seq<Link>, flow: Seq<int>, v: int) -> int
    decreases links.len(),
{
    if links.len() == 0 {
        0
    } else {
        inflow(links.drop_last(), flow, v) + if links.last().to == v {
            flow[links.len() - 1]
        } else {
            0
        }
    }
}

/// What node `v` sends out beyond what it takes in when `amount` units
/// travel from `s` to `d`: `amount` at `s`, its negative at `d`, nothing
/// elsewhere.
pub open spec fn surplus(s: int, d: int, v: int, amount: int) -> int {
    (if v == s {
        amount
    } else {
        0
    }) - (if v == d {
        amount
    } else {
        0
    })
}

/// What is gone of every link's residual capacity between two states.
pub open spec fn used(before: Seq<u64>, after: Seq<u64>) -> Seq<int> {
    Seq::new(before.len(), |l: int| before[l] - after[l])
}

/// The flow that the pair `(s, d)` places on every link: what its routing
/// takes of the capacity that the pairs before it have left.
pub open spec fn commodity_flow(net: NetworkView, demand: Seq<Seq<i64>>, s: int, d: int) -> Seq<
    int,
> {
    used(
        progress(net, demand, (s - 1) as nat, (d - 1) as nat).residual,
        progress(net, demand, (s - 1) as nat, d as nat).residual,
    )
}

/// What the pair `(s, d)` could not route.
pub open spec fn pair_shortfall(net: NetworkView, demand: Seq<Seq<i64>>, s: int, d: int) -> nat {
    route_spec(
        net.links,
        progress(net, demand, (s - 1) as nat, (d - 1) as nat).residual,
        s,
        d,
        wanted(demand, s, d),
    ).1
}

/// `amount` on every link of `path`, nothing elsewhere.
pub open spec fn path_flow(count: nat, path: Seq<usize>, amount: int) -> Seq<int> {
    Seq::new(
        count,
        |l: int|
            if path.contains(l as usize) {
                amount
            } else {
                0
            },
    )
}

/// More flow on one link is more flow out of the node it leaves and more
/// into the node it enters.
proof fn lemma_balance_update(links: Seq<Link>, flow: Seq<int>, m: int, a: int, v: int)
    requires
        0 <= m < flow.len(),
        links.len() <= flow.len(),
    ensures
        outflow(links, flow.update(m, flow[m] + a), v) == outflow(links, flow, v) + if m
            < links.len() && links[m].from == v {
            a
        } else {
            0
        },
        inflow(links, flow.update(m, flow[m] + a), v) == inflow(links, flow, v) + if m
            < links.len() && links[m].to == v {
            a
        } else {
            0
        },
    decreases links.len(),
{
    if links.len() > 0 {
        lemma_balance_update(links.drop_last(), flow, m, a, v);
    }
}

/// Where no link carries flow, none leaves or enters a node.
proof fn lemma_balance_zero(links: Seq<Link>, flow: Seq<int>, v: int)
    requires
        links.len() <= flow.len(),
        forall|l: int| 0 <= l < flow.len() ==> flow[l] == 0,
    ensures
        outflow(links, flow, v) == 0,
        inflow(links, flow, v) == 0,
    decreases links.len(),
{
    if links.len() > 0 {
        lemma_balance_zero(links.drop_last(), flow, v);
    }
}

/// The flow out of a node and into it adds up link by link.
proof fn lemma_balance_sum(links: Seq<Link>, f: Seq<int>, g: Seq<int>, h: Seq<int>, v: int)
    requires
        links.len() <= f.len(),
        f.len() == g.len(),
        f.len() == h.len(),
        forall|l: int| 0 <= l < f.len() ==> h[l] == f[l] + g[l],
    ensures
        outflow(links, h, v) == outflow(links, f, v) + outflow(links, g, v),
        inflow(links, h, v) == inflow(links, f, v) + inflow(links, g, v),
    decreases links.len(),
{
    if links.len() > 0 {
        lemma_balance_sum(links.drop_last(), f, g, h, v);
    }
}

/// Flow along a walk that repeats no link leaves its first node, enters its
/// last, and passes through every node between.
pub proof fn lemma_path_balance(
    links: Seq<Link>,
    path: Seq<usize>,
    s: int,
    d: int,
    amount: int,
    v: int,
)
    requires
        links.len() <= usize::MAX,
        is_walk(links, path, s, d),
        path.no_duplicates(),
    ensures
        outflow(links, path_flow(links.len(), path, amount), v) - inflow(
            links,
            path_flow(links.len(), path, amount),
            v,
        ) == surplus(s, d, v, amount),
    decreases path.len(),
{
    let whole = path_flow(links.len(), path, amount);
    if path.len() == 0 {
        lemma_balance_zero(links, whole, v);
    } else {
        let m = path.last() as int;
        let shorter = path.drop_last();
        let x = links[m].from as int;
        let part = path_flow(links.len(), shorter, amount);
        assert(shorter.no_duplicates()) by {
            assert forall|i: int, j: int|
                0 <= i < shorter.len() && 0 <= j < shorter.len() && i != j implies shorter[i]
                != shorter[j] by {
                assert(shorter[i] == path[i] && shorter[j] == path[j]);
            }
        }
        lemma_path_balance(links, shorter, s, x, amount, v);
        assert(!shorter.contains(m as usize)) by {
            if shorter.contains(m as usize) {
                let i = choose|i: int| 0 <= i < shorter.len() && shorter[i] == m as usize;
                assert(path[i] == path[path.len() - 1]);
            }
        }
        assert(whole =~= part.update(m, part[m] + amount)) by {
            assert forall|l: int| 0 <= l < links.len() implies whole[l] == part.update(
                m,
                part[m] + amount,
            )[l] by {
                if l == m {
                    assert(path[path.len() - 1] == m as usize);
                    assert(path.contains(l as usize));
                } else {
                    if shorter.contains(l as usize) {
                        let i = choose|i: int| 0 <= i < shorter.len() && shorter[i] == l as usize;
                        assert(path[i] == l as usize);
                    }
                    if path.contains(l as usize) {
                        let i = choose|i: int| 0 <= i < path.len() && path[i] == l as usize;
                        assert(shorter[i] == l as usize);
                    }
                }
            }
        }
        lemma_balance_update(links, part, m, amount, v);
    }
}

/// However far a routing gets, it conserves flow: what it takes of the
/// capacities leaves the source, enters the destination, and passes through
/// every other node. The amount is the demand less the shortfall.
pub proof fn lemma_route_balance(
    links: Seq<Link>,
    residual: Seq<u64>,
    node_quantity: nat,
    s: int,
    d: int,
    remaining: nat,
    v: int,
)
    requires
        node_quantity < usize::MAX,
        links.len() <= usize::MAX,
        residual.len() == links.len(),
        links_in_range(links, node_quantity),
        1 <= s <= node_quantity,
        1 <= d <= node_quantity,
    ensures
        outflow(links, used(residual, route_spec(links, residual, s, d, remaining).0), v) - inflow(
            links,
            used(residual, route_spec(links, residual, s, d, remaining).0),
            v,
        ) == surplus(s, d, v, remaining - route_spec(links, residual, s, d, remaining).1),
    decreases remaining,
{
    let end = route_spec(links, residual, s, d, remaining);
    let total = used(residual, end.0);
    if remaining == 0 || !has_chosen(links, residual, s, d) {
        lemma_balance_zero(links, total, v);
    } else {
        let path = chosen_path(links, residual, s, d);
        let amount = step_amount(residual, path, remaining);
        let next = push_along(residual, path, amount);
        lemma_bottleneck(residual, path);
        lemma_chosen_is_simple(links, residual, node_quantity, s, d, path);
        lemma_route_balance(links, next, node_quantity, s, d, (remaining - amount) as nat, v);
        lemma_route_bounds(links, next, s, d, (remaining - amount) as nat);
        lemma_path_balance(links, path, s, d, amount as int, v);
        let first = path_flow(links.len(), path, amount as int);
        let rest = used(next, end.0);
        assert forall|l: int| 0 <= l < links.len() implies total[l] == first[l] + rest[l] by {
            if path.contains(l as usize) {
                let i = choose|i: int| 0 <= i < path.len() && path[i] == l as usize;
                assert(bottleneck(residual, path) <= residual[path[i] as int]);
            }
        }
        lemma_balance_sum(links, first, rest, total, v);
    }
}

/// Flow conservation for every commodity: at a node that is neither its
/// source nor its destination, what the pair `(s, d)` sends in equals what
/// it sends out. The source sends out what was routed, which is the demand
/// less the shortfall, and the destination takes it in. This holds whether
/// or not the pair was fully routed.
pub proof fn lemma_commodity_conserved(
    net: NetworkView,
    demand: Seq<Seq<i64>>,
    s: int,
    d: int,
    v: int,
)
    requires
        net.wf(),
        1 <= s <= net.node_quantity,
        1 <= d <= net.node_quantity,
    ensures
        v != s && v != d ==> inflow(net.links, commodity_flow(net, demand, s, d), v) == outflow(
            net.links,
            commodity_flow(net, demand, s, d),
            v,
        ),
        outflow(net.links, commodity_flow(net, demand, s, d), v) - inflow(
            net.links,
            commodity_flow(net, demand, s, d),
            v,
        ) == surplus(s, d, v, wanted(demand, s, d) - pair_shortfall(net, demand, s, d)),
{
    let before = progress(net, demand, (s - 1) as nat, (d - 1) as nat);
    lemma_progress_bounds(net, demand, (s - 1) as nat, (d - 1) as nat);
    lemma_route_balance(
        net.links,
        before.residual,
        net.node_quantity,
        s,
        d,
        wanted(demand, s, d),
        v,
    );
}

/// The flow that the pairs processed so far, taken together, place on
/// link `l`.
pub open spec fn summed_flow(
    net: NetworkView,
    demand: Seq<Seq<i64>>,
    sources: nat,
    destinations: nat,
    l: int,
) -> int
    decreases sources, destinations,
{
    if destinations > 0 {
        summed_flow(net, demand, sources, (destinations - 1) as nat, l) + commodity_flow(
            net,
            demand,
            sources as int + 1,
            destinations as int,
        )[l]
    } else if sources > 0 {
        summed_flow(net, demand, (sources - 1) as nat, net.node_quantity, l)
    } else {
        0
    }
}

/// At every stage, what is gone of a link's capacity is the sum of what
/// the commodities processed so far have placed on it. At the last stage
/// that is the flow that the solver reports for the link.
pub proof fn lemma_flow_is_sum(
    net: NetworkView,
    demand: Seq<Seq<i64>>,
    sources: nat,
    destinations: nat,
    l: int,
)
    requires
        net.wf(),
        0 <= l < net.links.len(),
    ensures
        net.links[l].capacity - progress(net, demand, sources, destinations).residual[l]
            == summed_flow(net, demand, sources, destinations, l),
    decreases sources, destinations,
{
    if destinations > 0 {
        lemma_flow_is_sum(net, demand, sources, (destinations - 1) as nat, l);
        lemma_progress_bounds(net, demand, sources, (destinations - 1) as nat);
        lemma_progress_bounds(net, demand, sources, destinations);
    } else if sources > 0 {
        lemma_flow_is_sum(net, demand, (sources - 1) as nat, net.node_quantity, l);
    }
}

/// The flow that the solver reports for a link is the sum of what the
/// commodities place on it.
pub proof fn lemma_solution_is_sum(
    net: NetworkView,
    demand: Seq<Seq<i64>>,
    flows: Seq<u64>,
    unmet: Seq<UnmetDemand>,
    l: int,
)
    requires
        net.wf(),
        is_solution(net, demand, flows, unmet),
        0 <= l < net.links.len(),
    ensures
        flows[l] == summed_flow(net, demand, net.node_quantity, 0, l),
{
    lemma_flow_is_sum(net, demand, net.node_quantity, 0, l);
    lemma_progress_bounds(net, demand, net.node_quantity, 0);
}

/// The pair `(s, d)` is the only one with a demand.
pub open spec fn only_pair(node_quantity: nat, demand: Seq<Seq<i64>>, s: int, d: int) -> bool {
    forall|a: int, b: int|
        1 <= a <= node_quantity && 1 <= b <= node_quantity && (a != s || b != d)
            ==> #[trigger] wanted(demand, a, b) == 0
}

/// The reported flows as amounts.
pub open spec fn amounts(flows: Seq<u64>) -> Seq<int> {
    Seq::new(flows.len(), |l: int| flows[l] as int)
}

/// Where one pair alone has a demand, the flow so far is that pair's, once
/// it has been processed, and none before.
proof fn lemma_only_pair_sum(
    net: NetworkView,
    demand: Seq<Seq<i64>>,
    s: int,
    d: int,
    sources: nat,
    destinations: nat,
    l: int,
)
    requires
        net.wf(),
        0 <= l < net.links.len(),
        1 <= s <= net.node_quantity,
        1 <= d <= net.node_quantity,
        only_pair(net.node_quantity, demand, s, d),
        sources <= net.node_quantity,
        destinations <= net.node_quantity,
        sources == net.node_quantity ==> destinations == 0,
    ensures
        summed_flow(net, demand, sources, destinations, l) == if s - 1 < sources || (s - 1
            == sources && d <= destinations) {
            commodity_flow(net, demand, s, d)[l]
        } else {
            0
        },
    decreases sources, destinations,
{
    if destinations > 0 {
        let a = sources as int + 1;
        let b = destinations as int;
        lemma_only_pair_sum(net, demand, s, d, sources, (destinations - 1) as nat, l);
        lemma_progress_bounds(net, demand, sources, (destinations - 1) as nat);
        if a != s || b != d {
            assert(wanted(demand, a, b) == 0);
            assert(commodity_flow(net, demand, a, b)[l] == 0);
        }
    } else if sources > 0 {
        lemma_only_pair_sum(net, demand, s, d, (sources - 1) as nat, net.node_quantity, l);
    }
}

/// Where one pair alone has a demand, the reported flows are that
/// commodity's own: they leave the source, enter the destination, and at
/// every other node what comes in goes out.
pub proof fn lemma_single_commodity_conserved(
    net: NetworkView,
    demand: Seq<Seq<i64>>,
    s: int,
    d: int,
    flows: Seq<u64>,
    unmet: Seq<UnmetDemand>,
    v: int,
)
    requires
        net.wf(),
        1 <= s <= net.node_quantity,
        1 <= d <= net.node_quantity,
        only_pair(net.node_quantity, demand, s, d),
        is_solution(net, demand, flows, unmet),
    ensures
        outflow(net.links, amounts(flows), v) - inflow(net.links, amounts(flows), v) == surplus(
            s,
            d,
            v,
            wanted(demand, s, d) - pair_shortfall(net, demand, s, d),
        ),
{
    let own = commodity_flow(net, demand, s, d);
    lemma_progress_bounds(net, demand, (s - 1) as nat, (d - 1) as nat);
    lemma_progress_bounds(net, demand, net.node_quantity, 0);
    assert(amounts(flows) =~= own) by {
        assert forall|l: int| 0 <= l < net.links.len() implies amounts(flows)[l] == own[l] by {
            lemma_solution_is_sum(net, demand, flows, unmet, l);
            lemma_only_pair_sum(net, demand, s, d, net.node_quantity, 0, l);
        }
    }
    lemma_commodity_conserved(net, demand, s, d, v);
}

} // verus!
