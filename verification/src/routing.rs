//! Routing one commodity: augmenting along the preferred path until the
//! demand is met or no augmenting path is left.

use crate::paths::{
    all_positive, chosen_path, cut_off, has_chosen, is_chosen, lemma_chosen_is_choice,
    lemma_walk_links,
};
use crate::search::lemma_search_total;
use crate::topology::{links_in_range, Link, Network};
use vstd::prelude::*;

verus! {

/// The least residual capacity along `path`.
pub open spec fn bottleneck(residual: Seq<u64>, path: Seq<usize>) -> u64
    decreases path.len(),
{
    if path.len() == 0 {
        u64::MAX
    } else {
        let rest = bottleneck(residual, path.drop_last());
        let here = residual[path.last() as int];
        if here < rest {
            here
        } else {
            rest
        }
    }
}

/// The flow that one augmentation pushes: what the path can still carry,
/// but no more than what is still asked for.
pub open spec fn step_amount(residual: Seq<u64>, path: Seq<usize>, remaining: nat) -> nat {
    if remaining < bottleneck(residual, path) {
        remaining
    } else {
        bottleneck(residual, path) as nat
    }
}

/// The residual capacities after `amount` was pushed along `path`: every
/// link of the path has `amount` less, every other link what it had.
pub open spec fn push_along(residual: Seq<u64>, path: Seq<usize>, amount: nat) -> Seq<u64> {
    Seq::new(
        residual.len(),
        |l: int|
            if path.contains(l as usize) {
                (residual[l] - amount) as u64
            } else {
                residual[l]
            },
    )
}

/// Routing `remaining` units from `s` to `d`: the residual capacities
/// afterwards and the shortfall. Each round pushes `step_amount` along the
/// chosen path; it ends when nothing is left to route or no path is found.
pub open spec fn route_spec(
    links: Seq<Link>,
    residual: Seq<u64>,
    s: int,
    d: int,
    remaining: nat,
) -> (Seq<u64>, nat)
    decreases remaining,
    via route_spec_decreases
{
    if remaining == 0 || !has_chosen(links, residual, s, d) {
        (residual, remaining)
    } else {
        let path = chosen_path(links, residual, s, d);
        let amount = step_amount(residual, path, remaining);
        route_spec(links, push_along(residual, path, amount), s, d, (remaining - amount) as nat)
    }
}

/// Each round routes something, so less is left for the next.
#[via_fn]
proof fn route_spec_decreases(
    links: Seq<Link>,
    residual: Seq<u64>,
    s: int,
    d: int,
    remaining: nat,
) {
    if remaining != 0 && has_chosen(links, residual, s, d) {
        let path = chosen_path(links, residual, s, d);
        lemma_bottleneck(residual, path);
    }
}

/// One round of routing: with the chosen path in hand, what is routed is
/// what the rest of the routing makes of the capacities after the push.
pub proof fn lemma_route_round(
    links: Seq<Link>,
    residual: Seq<u64>,
    s: int,
    d: int,
    remaining: nat,
    path: Seq<usize>,
)
    requires
        remaining > 0,
        is_chosen(links, residual, s, d, path),
    ensures
        0 < step_amount(residual, path, remaining) <= remaining,
        route_spec(links, residual, s, d, remaining) == route_spec(
            links,
            push_along(residual, path, step_amount(residual, path, remaining)),
            s,
            d,
            (remaining - step_amount(residual, path, remaining)) as nat,
        ),
{
    lemma_chosen_is_choice(links, residual, s, d, path);
    lemma_bottleneck(residual, path);
}

/// The end of routing: with nothing left to route, or no augmenting path,
/// the capacities stay as they are and what is left is the shortfall.
pub proof fn lemma_route_end(links: Seq<Link>, residual: Seq<u64>, s: int, d: int, remaining: nat)
    requires
        remaining == 0 || cut_off(links, residual, s, d),
    ensures
        route_spec(links, residual, s, d, remaining) == (residual, remaining),
{
}

/// The bottleneck is the residual capacity of some link of the path and no
/// more than that of any; along an augmenting path it is positive.
pub proof fn lemma_bottleneck(residual: Seq<u64>, path: Seq<usize>)
    ensures
        forall|i: int|
            0 <= i < path.len() ==> bottleneck(residual, path) <= residual[(
            #[trigger] path[i]) as int],
        path.len() > 0 ==> exists|i: int|
            0 <= i < path.len() && bottleneck(residual, path) == residual[(
            #[trigger] path[i]) as int],
        all_positive(residual, path) ==> bottleneck(residual, path) > 0,
    decreases path.len(),
{
    if path.len() > 0 {
        let shorter = path.drop_last();
        lemma_bottleneck(residual, shorter);
        assert forall|i: int| 0 <= i < path.len() implies bottleneck(residual, path) <= residual[(
        #[trigger] path[i]) as int] by {
            if i < shorter.len() {
                assert(shorter[i] == path[i]);
            }
        }
        if bottleneck(residual, path) == residual[path.last() as int] {
            assert(path[path.len() - 1] == path.last());
        } else {
            let i = choose|i: int|
                0 <= i < shorter.len() && bottleneck(residual, shorter) == residual[(
                #[trigger] shorter[i]) as int];
            assert(shorter[i] == path[i]);
        }
        if all_positive(residual, path) {
            assert(residual[path[path.len() - 1] as int] > 0);
            assert forall|i: int| 0 <= i < shorter.len() implies (#[trigger] shorter[i])
                < residual.len() && residual[shorter[i] as int] > 0 by {
                assert(shorter[i] == path[i]);
            }
        }
    }
}

/// Routing never adds residual capacity, and leaves no more to route than
/// it was asked for.
pub proof fn lemma_route_bounds(
    links: Seq<Link>,
    residual: Seq<u64>,
    s: int,
    d: int,
    remaining: nat,
)
    requires
        residual.len() == links.len(),
        links.len() <= usize::MAX,
    ensures
        route_spec(links, residual, s, d, remaining).0.len() == residual.len(),
        route_spec(links, residual, s, d, remaining).1 <= remaining,
        forall|l: int|
            0 <= l < residual.len() ==> (#[trigger] route_spec(
                links,
                residual,
                s,
                d,
                remaining,
            ).0[l]) <= residual[l],
    decreases remaining,
{
    if remaining != 0 && has_chosen(links, residual, s, d) {
        let path = chosen_path(links, residual, s, d);
        let amount = step_amount(residual, path, remaining);
        lemma_bottleneck(residual, path);
        let next = push_along(residual, path, amount);
        lemma_route_bounds(links, next, s, d, (remaining - amount) as nat);
        assert forall|l: int| 0 <= l < residual.len() implies (#[trigger] route_spec(
            links,
            residual,
            s,
            d,
            remaining,
        ).0[l]) <= residual[l] by {
            if path.contains(l as usize) {
                let i = choose|i: int| 0 <= i < path.len() && path[i] == l as usize;
                assert(bottleneck(residual, path) <= residual[path[i] as int]);
            }
            assert(next[l] <= residual[l]);
            assert(route_spec(links, next, s, d, (remaining - amount) as nat).0[l] <= next[l]);
        }
    }
}

/// Routing ends short of the demand only where no augmenting path is left.
pub proof fn lemma_route_stops(
    links: Seq<Link>,
    residual: Seq<u64>,
    node_quantity: nat,
    s: int,
    d: int,
    remaining: nat,
)
    requires
        node_quantity < usize::MAX,
        links.len() <= usize::MAX,
        residual.len() == links.len(),
        links_in_range(links, node_quantity),
        1 <= s <= node_quantity,
        1 <= d <= node_quantity,
    ensures
        route_spec(links, residual, s, d, remaining).1 > 0 ==> cut_off(
            links,
            route_spec(links, residual, s, d, remaining).0,
            s,
            d,
        ),
    decreases remaining,
{
    lemma_search_total(links, residual, node_quantity, s, d);
    if remaining != 0 && has_chosen(links, residual, s, d) {
        let path = chosen_path(links, residual, s, d);
        let amount = step_amount(residual, path, remaining);
        lemma_bottleneck(residual, path);
        lemma_route_stops(
            links,
            push_along(residual, path, amount),
            node_quantity,
            s,
            d,
            (remaining - amount) as nat,
        );
    }
}

impl Network {
    /// The least residual capacity along `path`.
    fn bottleneck_of(residual: &Vec<u64>, path: &Vec<usize>) -> (b: u64)
        requires
            forall|i: int| 0 <= i < path.len() ==> (#[trigger] path[i]) < residual.len(),
        ensures
            b == bottleneck(residual@, path@),
    {
        let mut b: u64 = u64::MAX;
        let mut i: usize = 0;
        while i < path.len()
            invariant
                i <= path.len(),
                forall|j: int| 0 <= j < path.len() ==> (#[trigger] path[j]) < residual.len(),
                b == bottleneck(residual@, path@.take(i as int)),
            decreases path.len() - i,
        {
            let here: u64 = residual[path[i]];
            proof {
                let longer = path@.take(i as int + 1);
                assert(longer.drop_last() == path@.take(i as int));
                assert(longer.last() == path[i as int]);
            }
            if here < b {
                b = here;
            }
            i = i + 1;
        }
        assert(path@.take(i as int) == path@);
        b
    }

    /// Moves `amount` along `path`: off the residual capacity of each of
    /// its links and onto the flow that the link carries.
    fn push_flow(residual: &mut Vec<u64>, flows: &mut Vec<u64>, path: &Vec<usize>, amount: u64)
        requires
            path@.no_duplicates(),
            old(flows).len() == old(residual).len(),
            forall|i: int|
                0 <= i < path.len() ==> (#[trigger] path[i]) < old(residual).len() && old(
                    residual,
                )[path[i] as int] >= amount,
            forall|l: int|
                0 <= l < old(residual).len() ==> (#[trigger] old(flows)[l]) + old(residual)[l]
                    <= u64::MAX,
        ensures
            final(residual)@ == push_along(old(residual)@, path@, amount as nat),
            final(flows).len() == old(flows).len(),
            forall|l: int|
                0 <= l < old(residual).len() ==> (#[trigger] final(flows)[l]) + final(residual)[l]
                    == old(flows)[l] + old(residual)[l],
    {
        let ghost residual0 = residual@;
        let ghost flows0 = flows@;
        let mut i: usize = 0;
        while i < path.len()
            invariant
                i <= path.len(),
                path@.no_duplicates(),
                residual.len() == residual0.len(),
                flows.len() == residual0.len(),
                forall|j: int|
                    0 <= j < path.len() ==> (#[trigger] path[j]) < residual0.len()
                        && residual0[path[j] as int] >= amount,
                forall|l: int|
                    0 <= l < residual0.len() ==> (#[trigger] flows0[l]) + residual0[l] <= u64::MAX,
                residual@ == push_along(residual0, path@.take(i as int), amount as nat),
                forall|l: int|
                    0 <= l < residual0.len() ==> (#[trigger] flows[l]) + residual[l] == flows0[l]
                        + residual0[l],
            decreases path.len() - i,
        {
            let l: usize = path[i];
            proof {
                let done = path@.take(i as int);
                if done.contains(l) {
                    let j = choose|j: int| 0 <= j < done.len() && done[j] == l;
                    assert(path[j] == path[i as int]);
                }
                assert(residual[l as int] == residual0[l as int]);
                assert(flows0[l as int] + residual0[l as int] <= u64::MAX);
            }
            residual[l] = residual[l] - amount;
            flows[l] = flows[l] + amount;
            proof {
                let done = path@.take(i as int);
                let more = path@.take(i as int + 1);
                assert(more[i as int] == l);
                assert forall|m: int| 0 <= m < residual0.len() implies residual@[m] == push_along(
                    residual0,
                    more,
                    amount as nat,
                )[m] by {
                    if m == l {
                        assert(more.contains(m as usize));
                    } else {
                        if done.contains(m as usize) {
                            let j = choose|j: int| 0 <= j < done.len() && done[j] == m as usize;
                            assert(more[j] == m as usize);
                        }
                        if more.contains(m as usize) {
                            let j = choose|j: int| 0 <= j < more.len() && more[j] == m as usize;
                            assert(done[j] == m as usize);
                        }
                    }
                }
                assert(residual@ =~= push_along(residual0, more, amount as nat));
            }
            i = i + 1;
        }
        assert(path@.take(i as int) == path@);
    }

    /// Routes `demand` units from `source` to `destination` over what
    /// `residual` leaves of the capacities, adds what it routes to `flows`,
    /// and returns the shortfall.
    pub(crate) fn route(
        &self,
        residual: &mut Vec<u64>,
        flows: &mut Vec<u64>,
        source: usize,
        destination: usize,
        demand: u64,
    ) -> (shortfall: u64)
        requires
            old(residual).len() == self@.links.len(),
            old(flows).len() == self@.links.len(),
            1 <= source <= self@.node_quantity,
            1 <= destination <= self@.node_quantity,
            forall|l: int|
                0 <= l < old(residual).len() ==> (#[trigger] old(flows)[l]) + old(residual)[l]
                    <= u64::MAX,
        ensures
            (final(residual)@, shortfall as nat) == route_spec(
                self@.links,
                old(residual)@,
                source as int,
                destination as int,
                demand as nat,
            ),
            shortfall <= demand,
            shortfall > 0 ==> cut_off(
                self@.links,
                final(residual)@,
                source as int,
                destination as int,
            ),
            final(residual).len() == old(residual).len(),
            final(flows).len() == old(flows).len(),
            forall|l: int|
                0 <= l < old(residual).len() ==> (#[trigger] final(flows)[l]) + final(residual)[l]
                    == old(flows)[l] + old(residual)[l],
            forall|l: int|
                0 <= l < old(residual).len() ==> (#[trigger] final(residual)[l]) <= old(
                    residual,
                )[l],
    {
        let ghost residual0 = residual@;
        let ghost flows0 = flows@;
        let ghost links = self@.links;
        let ghost s = source as int;
        let ghost d = destination as int;
        let mut remaining: u64 = demand;
        let mut blocked: bool = false;
        while remaining > 0 && !blocked
            invariant
                links == self@.links,
                s == source,
                d == destination,
                1 <= source <= self@.node_quantity,
                1 <= destination <= self@.node_quantity,
                residual.len() == links.len(),
                flows.len() == links.len(),
                residual0.len() == links.len(),
                remaining <= demand,
                route_spec(links, residual@, s, d, remaining as nat) == route_spec(
                    links,
                    residual0,
                    s,
                    d,
                    demand as nat,
                ),
                blocked ==> cut_off(links, residual@, s, d),
                forall|l: int|
                    0 <= l < residual0.len() ==> (#[trigger] flows0[l]) + residual0[l] <= u64::MAX,
                forall|l: int|
                    0 <= l < residual0.len() ==> (#[trigger] flows[l]) + residual[l] == flows0[l]
                        + residual0[l],
                forall|l: int|
                    0 <= l < residual0.len() ==> (#[trigger] residual[l]) <= residual0[l],
            decreases remaining, if blocked { 0int } else { 1int },
        {
            match self.find_path(residual, source, destination) {
                None => {
                    blocked = true;
                },
                Some(path) => {
                    proof {
                        lemma_chosen_is_choice(links, residual@, s, d, path@);
                        lemma_walk_links(links, path@, s, d);
                        lemma_bottleneck(residual@, path@);
                    }
                    let b: u64 = Network::bottleneck_of(residual, &path);
                    let amount: u64 = if remaining < b {
                        remaining
                    } else {
                        b
                    };
                    assert(amount == step_amount(residual@, path@, remaining as nat));
                    let ghost before = residual@;
                    Network::push_flow(residual, flows, &path, amount);
                    proof {
                        assert forall|l: int| 0 <= l < residual0.len() implies (
                        #[trigger] residual[l]) <= residual0[l] by {
                            assert(before[l] <= residual0[l]);
                            if path@.contains(l as usize) {
                                let i = choose|i: int| 0 <= i < path.len() && path[i] == l as usize;
                                assert(before[path[i] as int] >= amount);
                            }
                        }
                    }
                    remaining = remaining - amount;
                },
            }
        }
        remaining
    }
}

} // verus!
