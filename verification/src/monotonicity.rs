//! What more capacity on one link does to a solution.
//!
//! The solver places flow pair by pair and path by path and never takes it
//! back, so more capacity on a link can draw flow onto a path that blocks
//! others: the total routed may fall. What is kept, whatever the network
//! and the demand, is what was routed before the link was used up.

use crate::laws::{lemma_totals, total_routed, total_shortfall};
use crate::paths::{
    all_positive, chosen_path, has_chosen, is_augmenting, is_chosen, is_walk, lemma_chosen_unique,
    lemma_walk_links,
};
use crate::routing::{
    bottleneck, lemma_bottleneck, lemma_route_bounds, push_along, route_spec, step_amount,
};
use crate::solver::{capacities, flows_of, lemma_progress_bounds, progress, solution, wanted};
use crate::topology::{Link, NetworkView};
use vstd::prelude::*;

verus! {

/// Two lists of links join the same nodes.
pub open spec fn same_endpoints(a: Seq<Link>, b: Seq<Link>) -> bool {
    &&& a.len() == b.len()
    &&& forall|l: int|
        0 <= l < a.len() ==> (#[trigger] a[l]).from == b[l].from && a[l].to == b[l].to
}

/// The residual capacities with `delta` more on link `l`.
pub open spec fn raised(residual: Seq<u64>, l: int, delta: nat) -> Seq<u64> {
    residual.update(l, (residual[l] + delta) as u64)
}

/// The network with the capacity of link `l` set to `capacity`.
pub open spec fn with_capacity(net: NetworkView, l: int, capacity: u64) -> NetworkView {
    NetworkView {
        kind: net.kind,
        node_quantity: net.node_quantity,
        links: net.links.update(
            l,
            Link { from: net.links[l].from, to: net.links[l].to, capacity },
        ),
    }
}

/// Whether a sequence of links is a walk depends on their endpoints only.
proof fn lemma_walk_same(a: Seq<Link>, b: Seq<Link>, path: Seq<usize>, s: int, d: int)
    requires
        same_endpoints(a, b),
    ensures
        is_walk(a, path, s, d) == is_walk(b, path, s, d),
    decreases path.len(),
{
    if path.len() > 0 && path.last() < a.len() {
        let m = path.last() as int;
        assert(a[m].from == b[m].from && a[m].to == b[m].to);
        lemma_walk_same(a, b, path.drop_last(), s, a[m].from as int);
    }
}

/// Which path the search settles on depends on the endpoints of the links
/// and on which of them have residual capacity, not on how much.
proof fn lemma_chosen_same(
    a: Seq<Link>,
    b: Seq<Link>,
    residual_a: Seq<u64>,
    residual_b: Seq<u64>,
    s: int,
    d: int,
)
    requires
        same_endpoints(a, b),
        residual_a.len() == residual_b.len(),
        forall|l: int|
            0 <= l < residual_a.len() ==> ((#[trigger] residual_a[l]) > 0) == (residual_b[l] > 0),
    ensures
        has_chosen(a, residual_a, s, d) == has_chosen(b, residual_b, s, d),
        has_chosen(a, residual_a, s, d) ==> chosen_path(a, residual_a, s, d) == chosen_path(
            b,
            residual_b,
            s,
            d,
        ),
{
    assert forall|q: Seq<usize>|
        is_augmenting(a, residual_a, q, s, d) == is_augmenting(b, residual_b, q, s, d) by {
        lemma_walk_same(a, b, q, s, d);
        if all_positive(residual_a, q) {
            assert forall|i: int| 0 <= i < q.len() implies (#[trigger] q[i]) < residual_b.len()
                && residual_b[q[i] as int] > 0 by {
                assert(residual_a[q[i] as int] > 0);
            }
        }
        if all_positive(residual_b, q) {
            assert forall|i: int| 0 <= i < q.len() implies (#[trigger] q[i]) < residual_a.len()
                && residual_a[q[i] as int] > 0 by {
                assert(residual_b[q[i] as int] > 0);
            }
        }
    }
    assert forall|p: Seq<usize>|
        is_chosen(a, residual_a, s, d, p) == is_chosen(b, residual_b, s, d, p) by {
        assert(is_augmenting(a, residual_a, p, s, d) == is_augmenting(b, residual_b, p, s, d));
    }
    if has_chosen(a, residual_a, s, d) {
        let p = chosen_path(a, residual_a, s, d);
        assert(is_chosen(b, residual_b, s, d, p));
        lemma_chosen_unique(b, residual_b, s, d, p, chosen_path(b, residual_b, s, d));
    }
    if has_chosen(b, residual_b, s, d) {
        let p = chosen_path(b, residual_b, s, d);
        assert(is_chosen(a, residual_a, s, d, p));
    }
}

/// More residual capacity on one link never lowers a bottleneck; it leaves
/// the bottleneck as it was where that was below what the link had, or
/// where the path does not take the link.
proof fn lemma_bottleneck_raised(residual: Seq<u64>, path: Seq<usize>, l: int, delta: nat)
    requires
        0 <= l < residual.len(),
        residual[l] + delta <= u64::MAX,
        forall|i: int| 0 <= i < path.len() ==> (#[trigger] path[i]) < residual.len(),
    ensures
        bottleneck(residual, path) <= bottleneck(raised(residual, l, delta), path),
        bottleneck(residual, path) < residual[l] ==> bottleneck(raised(residual, l, delta), path)
            == bottleneck(residual, path),
        bottleneck(residual, path) >= residual[l] ==> bottleneck(
            raised(residual, l, delta),
            path,
        ) >= residual[l],
        !path.contains(l as usize) ==> bottleneck(raised(residual, l, delta), path) == bottleneck(
            residual,
            path,
        ),
    decreases path.len(),
{
    if path.len() > 0 {
        let shorter = path.drop_last();
        assert forall|i: int| 0 <= i < shorter.len() implies (#[trigger] shorter[i])
            < residual.len() by {
            assert(shorter[i] == path[i]);
        }
        lemma_bottleneck_raised(residual, shorter, l, delta);
        assert(path[path.len() - 1] == path.last());
        if !path.contains(l as usize) {
            if shorter.contains(l as usize) {
                let i = choose|i: int| 0 <= i < shorter.len() && shorter[i] == l as usize;
                assert(path[i] == l as usize);
            }
        }
    }
}

/// Routing over residual capacities of which link `l` has `delta` more
/// goes the same way, as long as the routing does not use up link `l`.
proof fn lemma_route_raised(
    a: Seq<Link>,
    b: Seq<Link>,
    residual: Seq<u64>,
    l: int,
    delta: nat,
    s: int,
    d: int,
    remaining: nat,
)
    requires
        same_endpoints(a, b),
        a.len() <= usize::MAX,
        residual.len() == a.len(),
        0 <= l < residual.len(),
        residual[l] + delta <= u64::MAX,
        route_spec(a, residual, s, d, remaining).0[l] > 0,
    ensures
        route_spec(b, raised(residual, l, delta), s, d, remaining).0 == raised(
            route_spec(a, residual, s, d, remaining).0,
            l,
            delta,
        ),
        route_spec(b, raised(residual, l, delta), s, d, remaining).1 == route_spec(
            a,
            residual,
            s,
            d,
            remaining,
        ).1,
    decreases remaining,
{
    let more = raised(residual, l, delta);
    lemma_route_bounds(a, residual, s, d, remaining);
    lemma_chosen_same(a, b, residual, more, s, d);
    if remaining != 0 && has_chosen(a, residual, s, d) {
        let path = chosen_path(a, residual, s, d);
        let amount = step_amount(residual, path, remaining);
        let next = push_along(residual, path, amount);
        crate::paths::lemma_walk_links(a, path, s, d);
        lemma_bottleneck(residual, path);
        lemma_bottleneck_raised(residual, path, l, delta);
        lemma_route_bounds(a, next, s, d, (remaining - amount) as nat);
        assert(next[l] > 0);
        if path.contains(l as usize) {
            let i = choose|i: int| 0 <= i < path.len() && path[i] == l as usize;
            assert(bottleneck(residual, path) <= residual[path[i] as int]);
            assert(amount < residual[l]);
        }
        assert(step_amount(more, path, remaining) == amount);
        assert(push_along(more, path, amount) =~= raised(next, l, delta)) by {
            assert forall|m: int| 0 <= m < residual.len() implies push_along(more, path, amount)[m]
                == raised(next, l, delta)[m] by {
                if path.contains(m as usize) {
                    let i = choose|i: int| 0 <= i < path.len() && path[i] == m as usize;
                    assert(bottleneck(residual, path) <= residual[path[i] as int]);
                }
            }
        }
        lemma_route_raised(a, b, next, l, delta, s, d, (remaining - amount) as nat);
    }
}

/// Whatever the solver has processed while link `l` still has spare
/// capacity is as it would be with more capacity on that link: the same
/// shortfalls, and the same residual capacities but for the added capacity
/// on link `l`.
pub proof fn lemma_progress_raised(
    net: NetworkView,
    demand: Seq<Seq<i64>>,
    l: int,
    capacity: u64,
    sources: nat,
    destinations: nat,
)
    requires
        net.wf(),
        0 <= l < net.links.len(),
        capacity >= net.links[l].capacity,
        progress(net, demand, sources, destinations).residual[l] > 0,
    ensures
        progress(with_capacity(net, l, capacity), demand, sources, destinations).residual
            == raised(
            progress(net, demand, sources, destinations).residual,
            l,
            (capacity - net.links[l].capacity) as nat,
        ),
        progress(with_capacity(net, l, capacity), demand, sources, destinations).unmet == progress(
            net,
            demand,
            sources,
            destinations,
        ).unmet,
    decreases sources, destinations,
{
    let other = with_capacity(net, l, capacity);
    let delta = (capacity - net.links[l].capacity) as nat;
    lemma_progress_bounds(net, demand, sources, destinations);
    if destinations > 0 {
        let s = sources as int + 1;
        let d = destinations as int;
        let before = progress(net, demand, sources, (destinations - 1) as nat);
        lemma_progress_bounds(net, demand, sources, (destinations - 1) as nat);
        lemma_route_bounds(net.links, before.residual, s, d, wanted(demand, s, d));
        assert(before.residual[l] <= net.links[l].capacity);
        lemma_progress_raised(net, demand, l, capacity, sources, (destinations - 1) as nat);
        lemma_route_raised(
            net.links,
            other.links,
            before.residual,
            l,
            delta,
            s,
            d,
            wanted(demand, s, d),
        );
    } else if sources > 0 {
        lemma_progress_raised(net, demand, l, capacity, (sources - 1) as nat, net.node_quantity);
    } else {
        assert(capacities(other.links) =~= raised(capacities(net.links), l, delta));
    }
}

/// Monotonicity, for a link that the solution does not use up: raising the
/// capacity of such a link, all else fixed, leaves every flow and every
/// shortfall as it was, so the total routed does not decrease and the total
/// shortfall does not increase.
pub proof fn lemma_spare_capacity_raised(
    net: NetworkView,
    demand: Seq<Seq<i64>>,
    l: int,
    capacity: u64,
)
    requires
        net.wf(),
        0 <= l < net.links.len(),
        capacity >= net.links[l].capacity,
        solution(net, demand).residual[l] > 0,
    ensures
        flows_of(
            with_capacity(net, l, capacity).links,
            solution(with_capacity(net, l, capacity), demand).residual,
        ) == flows_of(net.links, solution(net, demand).residual),
        solution(with_capacity(net, l, capacity), demand).unmet == solution(net, demand).unmet,
        total_routed(with_capacity(net, l, capacity), demand, net.node_quantity, 0) >= total_routed(
            net,
            demand,
            net.node_quantity,
            0,
        ),
        total_shortfall(solution(with_capacity(net, l, capacity), demand).unmet) <= total_shortfall(
            solution(net, demand).unmet,
        ),
{
    let other = with_capacity(net, l, capacity);
    lemma_progress_raised(net, demand, l, capacity, net.node_quantity, 0);
    lemma_progress_bounds(net, demand, net.node_quantity, 0);
    lemma_raised_wf(net, l, capacity);
    lemma_totals(net, demand, net.node_quantity, 0);
    lemma_totals(other, demand, net.node_quantity, 0);
    assert(flows_of(other.links, solution(other, demand).residual) =~= flows_of(
        net.links,
        solution(net, demand).residual,
    ));
}

/// What a routing pushes in the rounds that begin with spare capacity on
/// link `l`. The round that uses the link up is the last that counts.
pub open spec fn routed_with_spare(
    links: Seq<Link>,
    residual: Seq<u64>,
    s: int,
    d: int,
    remaining: nat,
    l: int,
) -> nat
    decreases remaining,
    via routed_with_spare_decreases
{
    if remaining == 0 || !has_chosen(links, residual, s, d) || residual[l] == 0 {
        0
    } else {
        let path = chosen_path(links, residual, s, d);
        let amount = step_amount(residual, path, remaining);
        amount + routed_with_spare(
            links,
            push_along(residual, path, amount),
            s,
            d,
            (remaining - amount) as nat,
            l,
        )
    }
}

/// Each round routes something, so less is left for the next.
#[via_fn]
proof fn routed_with_spare_decreases(
    links: Seq<Link>,
    residual: Seq<u64>,
    s: int,
    d: int,
    remaining: nat,
    l: int,
) {
    if remaining != 0 && has_chosen(links, residual, s, d) {
        let path = chosen_path(links, residual, s, d);
        lemma_bottleneck(residual, path);
    }
}

/// What the pairs processed so far have routed in rounds that began with
/// spare capacity on link `l`.
pub open spec fn total_with_spare(
    net: NetworkView,
    demand: Seq<Seq<i64>>,
    sources: nat,
    destinations: nat,
    l: int,
) -> nat
    decreases sources, destinations,
{
    if destinations > 0 {
        total_with_spare(net, demand, sources, (destinations - 1) as nat, l) + routed_with_spare(
            net.links,
            progress(net, demand, sources, (destinations - 1) as nat).residual,
            sources as int + 1,
            destinations as int,
            wanted(demand, sources as int + 1, destinations as int),
            l,
        )
    } else if sources > 0 {
        total_with_spare(net, demand, (sources - 1) as nat, net.node_quantity, l)
    } else {
        0
    }
}

/// A routing that leaves link `l` spare capacity has pushed all it pushed
/// in rounds that began with spare capacity on the link.
proof fn lemma_route_all_with_spare(
    links: Seq<Link>,
    residual: Seq<u64>,
    s: int,
    d: int,
    remaining: nat,
    l: int,
)
    requires
        links.len() <= usize::MAX,
        residual.len() == links.len(),
        0 <= l < residual.len(),
        route_spec(links, residual, s, d, remaining).0[l] > 0,
    ensures
        routed_with_spare(links, residual, s, d, remaining, l) == remaining - route_spec(
            links,
            residual,
            s,
            d,
            remaining,
        ).1,
    decreases remaining,
{
    lemma_route_bounds(links, residual, s, d, remaining);
    if remaining != 0 && has_chosen(links, residual, s, d) {
        let path = chosen_path(links, residual, s, d);
        let amount = step_amount(residual, path, remaining);
        lemma_bottleneck(residual, path);
        lemma_route_all_with_spare(
            links,
            push_along(residual, path, amount),
            s,
            d,
            (remaining - amount) as nat,
            l,
        );
    }
}

/// Routing over residual capacities of which link `l` has `delta` more
/// routes at least what was routed while link `l` had spare capacity.
proof fn lemma_route_keeps(
    a: Seq<Link>,
    b: Seq<Link>,
    residual: Seq<u64>,
    l: int,
    delta: nat,
    s: int,
    d: int,
    remaining: nat,
)
    requires
        same_endpoints(a, b),
        a.len() <= usize::MAX,
        residual.len() == a.len(),
        0 <= l < residual.len(),
        residual[l] + delta <= u64::MAX,
        residual[l] > 0,
    ensures
        remaining - route_spec(b, raised(residual, l, delta), s, d, remaining).1
            >= routed_with_spare(a, residual, s, d, remaining, l),
    decreases remaining,
{
    let more = raised(residual, l, delta);
    lemma_route_bounds(b, more, s, d, remaining);
    lemma_chosen_same(a, b, residual, more, s, d);
    if remaining != 0 && has_chosen(a, residual, s, d) {
        let path = chosen_path(a, residual, s, d);
        let amount = step_amount(residual, path, remaining);
        let next = push_along(residual, path, amount);
        let pushed = step_amount(more, path, remaining);
        lemma_walk_links(a, path, s, d);
        lemma_bottleneck(residual, path);
        lemma_bottleneck(more, path);
        lemma_bottleneck_raised(residual, path, l, delta);
        lemma_route_bounds(b, push_along(more, path, pushed), s, d, (remaining - pushed) as nat);
        if path.contains(l as usize) {
            let i = choose|i: int| 0 <= i < path.len() && path[i] == l as usize;
            assert(bottleneck(residual, path) <= residual[path[i] as int]);
        }
        assert(pushed >= amount);
        assert(route_spec(b, more, s, d, remaining) == route_spec(
            b,
            push_along(more, path, pushed),
            s,
            d,
            (remaining - pushed) as nat,
        ));
        if next[l] > 0 {
            if path.contains(l as usize) {
                assert(amount < residual[l]);
            }
            assert(pushed == amount);
            assert(push_along(more, path, amount) =~= raised(next, l, delta)) by {
                assert forall|m: int| 0 <= m < residual.len() implies push_along(
                    more,
                    path,
                    amount,
                )[m] == raised(next, l, delta)[m] by {
                    if path.contains(m as usize) {
                        let i = choose|i: int| 0 <= i < path.len() && path[i] == m as usize;
                        assert(bottleneck(residual, path) <= residual[path[i] as int]);
                    }
                }
            }
            lemma_route_keeps(a, b, next, l, delta, s, d, (remaining - amount) as nat);
        } else {
            assert(routed_with_spare(a, next, s, d, (remaining - amount) as nat, l) == 0);
        }
    }
}

/// At every stage, the solver has routed with more capacity on link `l` at
/// least what it routed without it while the link had spare capacity.
pub proof fn lemma_progress_keeps(
    net: NetworkView,
    demand: Seq<Seq<i64>>,
    l: int,
    capacity: u64,
    sources: nat,
    destinations: nat,
)
    requires
        net.wf(),
        0 <= l < net.links.len(),
        capacity >= net.links[l].capacity,
    ensures
        total_routed(with_capacity(net, l, capacity), demand, sources, destinations)
            >= total_with_spare(net, demand, sources, destinations, l),
    decreases sources, destinations,
{
    let other = with_capacity(net, l, capacity);
    let delta = (capacity - net.links[l].capacity) as nat;
    lemma_raised_wf(net, l, capacity);
    if destinations > 0 {
        let s = sources as int + 1;
        let d = destinations as int;
        let before = progress(net, demand, sources, (destinations - 1) as nat);
        let raised_before = progress(other, demand, sources, (destinations - 1) as nat);
        lemma_progress_keeps(net, demand, l, capacity, sources, (destinations - 1) as nat);
        lemma_progress_bounds(net, demand, sources, (destinations - 1) as nat);
        lemma_progress_bounds(other, demand, sources, (destinations - 1) as nat);
        lemma_route_bounds(other.links, raised_before.residual, s, d, wanted(demand, s, d));
        if before.residual[l] > 0 {
            lemma_progress_raised(net, demand, l, capacity, sources, (destinations - 1) as nat);
            lemma_route_keeps(
                net.links,
                other.links,
                before.residual,
                l,
                delta,
                s,
                d,
                wanted(demand, s, d),
            );
        }
    } else if sources > 0 {
        lemma_progress_keeps(net, demand, l, capacity, (sources - 1) as nat, net.node_quantity);
    }
}

/// At every stage at which link `l` still has spare capacity, all that
/// was routed was routed while it had.
pub proof fn lemma_spare_routes_all(
    net: NetworkView,
    demand: Seq<Seq<i64>>,
    l: int,
    sources: nat,
    destinations: nat,
)
    requires
        net.wf(),
        0 <= l < net.links.len(),
        progress(net, demand, sources, destinations).residual[l] > 0,
    ensures
        total_with_spare(net, demand, sources, destinations, l) == total_routed(
            net,
            demand,
            sources,
            destinations,
        ),
    decreases sources, destinations,
{
    if destinations > 0 {
        let s = sources as int + 1;
        let d = destinations as int;
        let before = progress(net, demand, sources, (destinations - 1) as nat);
        lemma_progress_bounds(net, demand, sources, (destinations - 1) as nat);
        lemma_route_bounds(net.links, before.residual, s, d, wanted(demand, s, d));
        lemma_spare_routes_all(net, demand, l, sources, (destinations - 1) as nat);
        lemma_route_all_with_spare(net.links, before.residual, s, d, wanted(demand, s, d), l);
    } else if sources > 0 {
        lemma_spare_routes_all(net, demand, l, (sources - 1) as nat, net.node_quantity);
    }
}

/// A network with another capacity on one link is a network.
proof fn lemma_raised_wf(net: NetworkView, l: int, capacity: u64)
    requires
        net.wf(),
        0 <= l < net.links.len(),
    ensures
        with_capacity(net, l, capacity).wf(),
{
    let other = with_capacity(net, l, capacity);
    assert forall|m: int| 0 <= m < other.links.len() implies 1 <= (#[trigger] other.links[m]).from
        <= other.node_quantity && 1 <= other.links[m].to <= other.node_quantity by {
        assert(1 <= net.links[m].from <= net.node_quantity);
    }
}

/// Whatever the network and the demand: with more capacity on link `l`,
/// all else fixed, the solver routes at least what it routed before link
/// `l` was used up.
pub proof fn lemma_raised_keeps_routed_with_spare(
    net: NetworkView,
    demand: Seq<Seq<i64>>,
    l: int,
    capacity: u64,
)
    requires
        net.wf(),
        0 <= l < net.links.len(),
        capacity >= net.links[l].capacity,
    ensures
        total_routed(with_capacity(net, l, capacity), demand, net.node_quantity, 0)
            >= total_with_spare(net, demand, net.node_quantity, 0, l),
{
    lemma_progress_keeps(net, demand, l, capacity, net.node_quantity, 0);
}

/// Monotonicity, where the solver routes nothing once link `l` is used up
/// (as it does where the link is never used up): raising the capacity of
/// link `l`, all else fixed, does not decrease the total routed and does
/// not increase the total shortfall.
pub proof fn lemma_capacity_raised(net: NetworkView, demand: Seq<Seq<i64>>, l: int, capacity: u64)
    requires
        net.wf(),
        0 <= l < net.links.len(),
        capacity >= net.links[l].capacity,
        total_with_spare(net, demand, net.node_quantity, 0, l) == total_routed(
            net,
            demand,
            net.node_quantity,
            0,
        ) || solution(net, demand).residual[l] > 0,
    ensures
        total_routed(with_capacity(net, l, capacity), demand, net.node_quantity, 0) >= total_routed(
            net,
            demand,
            net.node_quantity,
            0,
        ),
        total_shortfall(solution(with_capacity(net, l, capacity), demand).unmet) <= total_shortfall(
            solution(net, demand).unmet,
        ),
{
    let other = with_capacity(net, l, capacity);
    if solution(net, demand).residual[l] > 0 {
        lemma_spare_routes_all(net, demand, l, net.node_quantity, 0);
    }
    lemma_progress_keeps(net, demand, l, capacity, net.node_quantity, 0);
    lemma_raised_wf(net, l, capacity);
    lemma_totals(net, demand, net.node_quantity, 0);
    lemma_totals(other, demand, net.node_quantity, 0);
}

} // verus!
