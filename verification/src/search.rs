//! Breadth-first search for the preferred augmenting path.

use crate::paths::{
    all_positive, chosen_path, cut_off, has_chosen, is_augmenting, is_chosen, is_walk,
    lemma_chosen_unique, lemma_precedes_last, lemma_precedes_push, lemma_precedes_transitive,
    precedes,
};
use crate::topology::{lemma_out_links, links_in_range, out_links, Link, Network};
use vstd::prelude::*;

verus! {

/// The state of a search in progress. `tree[v]` is the path by which node
/// `v` was reached and `place[v]` its position in the queue. The links that
/// leave `queue[head]` and lie below `bound` have been looked at, as have
/// all links that leave a node earlier in the queue.
struct Search {
    visited: Seq<bool>,
    parent: Seq<usize>,
    queue: Seq<usize>,
    head: int,
    bound: int,
    tree: Seq<Seq<usize>>,
    place: Seq<int>,
}

/// Link `l` has been looked at.
spec fn scanned(links: Seq<Link>, st: Search, l: int) -> bool {
    let u = links[l].from as int;
    st.place[u] < st.head || (st.place[u] == st.head && l < st.bound)
}

/// What holds of the path by which a visited node `v` was reached.
spec fn node_ok(links: Seq<Link>, residual: Seq<u64>, s: int, st: Search, v: int) -> bool {
    let t = st.tree[v];
    &&& is_augmenting(links, residual, t, s, v)
    &&& forall|i: int|
        0 <= i < t.len() ==> st.visited[links[(#[trigger] t[i]) as int].to as int]
            && st.tree[links[t[i] as int].to as int].len() == i + 1
    &&& v != s ==> {
        &&& t.len() > 0
        &&& st.parent[v] == t.last()
        &&& st.visited[links[t.last() as int].from as int]
        &&& t.drop_last() == st.tree[links[t.last() as int].from as int]
        &&& scanned(links, st, t.last() as int)
    }
}

/// The invariant of the search from node `s` in a network of `n` nodes.
spec fn search_inv(links: Seq<Link>, residual: Seq<u64>, n: int, s: int, st: Search) -> bool {
    &&& 1 <= s <= n
    &&& links.len() <= usize::MAX
    &&& residual.len() == links.len()
    &&& links_in_range(links, n as nat)
    &&& st.visited.len() == n + 1
    &&& st.parent.len() == n + 1
    &&& st.tree.len() == n + 1
    &&& st.place.len() == n + 1
    &&& 0 <= st.head <= st.queue.len()
    &&& 0 <= st.bound <= links.len()
    &&& !st.visited[0]
    &&& forall|i: int|
        0 <= i < st.queue.len() ==> 1 <= (#[trigger] st.queue[i]) <= n
            && st.visited[st.queue[i] as int] && st.place[st.queue[i] as int] == i
    &&& forall|v: int|
        0 <= v <= n && #[trigger] st.visited[v] ==> 0 <= st.place[v] < st.queue.len()
            && st.queue[st.place[v]] == v
    &&& st.visited[s]
    &&& st.tree[s].len() == 0
    &&& forall|v: int|
        0 <= v <= n && #[trigger] st.visited[v] ==> node_ok(links, residual, s, st, v)
    &&& forall|i: int, j: int|
        0 <= i < j < st.queue.len() ==> precedes(
            st.tree[(#[trigger] st.queue[i]) as int],
            st.tree[(#[trigger] st.queue[j]) as int],
        )
    &&& forall|v: int, q: Seq<usize>|
        0 <= v <= n && st.visited[v] && #[trigger] is_augmenting(links, residual, q, s, v) ==> q
            == st.tree[v] || precedes(st.tree[v], q)
    &&& forall|l: int|
        0 <= l < links.len() && residual[l] > 0 && st.visited[links[l].from as int]
            && #[trigger] scanned(links, st, l) ==> st.visited[links[l].to as int]
}

/// Link `l` is the next link that leaves the node at the head of the queue.
spec fn is_next(links: Seq<Link>, st: Search, l: int) -> bool {
    &&& st.head < st.queue.len()
    &&& st.bound <= l < links.len()
    &&& links[l].from == st.queue[st.head]
    &&& forall|m: int| st.bound <= m < l ==> (#[trigger] links[m]).from != st.queue[st.head]
}

/// The state after link `l` was looked at and led nowhere new.
spec fn skip(st: Search, l: int) -> Search {
    Search { bound: l + 1, ..st }
}

/// The state after link `l` led to a node that had not been visited.
spec fn visit(links: Seq<Link>, st: Search, l: int) -> Search {
    let u = st.queue[st.head] as int;
    let v = links[l].to as int;
    Search {
        visited: st.visited.update(v, true),
        parent: st.parent.update(v, l as usize),
        queue: st.queue.push(v as usize),
        head: st.head,
        bound: l + 1,
        tree: st.tree.update(v, st.tree[u].push(l as usize)),
        place: st.place.update(v, st.queue.len() as int),
    }
}

/// The state after the last link of the node at the head was looked at.
spec fn advance(st: Search) -> Search {
    Search { head: st.head + 1, bound: 0, ..st }
}

/// The number of visited nodes.
spec fn count_visited(visited: Seq<bool>) -> nat
    decreases visited.len(),
{
    if visited.len() == 0 {
        0
    } else {
        count_visited(visited.drop_last()) + if visited.last() {
            1nat
        } else {
            0nat
        }
    }
}

/// No more nodes are visited than there are.
proof fn lemma_count_bounded(visited: Seq<bool>)
    ensures
        count_visited(visited) <= visited.len(),
    decreases visited.len(),
{
    if visited.len() > 0 {
        lemma_count_bounded(visited.drop_last());
    }
}

/// Where no node is marked, none is counted.
proof fn lemma_count_none(visited: Seq<bool>)
    requires
        forall|i: int| 0 <= i < visited.len() ==> !visited[i],
    ensures
        count_visited(visited) == 0,
    decreases visited.len(),
{
    if visited.len() > 0 {
        lemma_count_none(visited.drop_last());
    }
}

/// Marking a node that was not visited adds one to the count.
proof fn lemma_count_update(visited: Seq<bool>, v: int)
    requires
        0 <= v < visited.len(),
        !visited[v],
    ensures
        count_visited(visited.update(v, true)) == count_visited(visited) + 1,
    decreases visited.len(),
{
    let after = visited.update(v, true);
    if v == visited.len() - 1 {
        assert(after.drop_last() == visited.drop_last());
    } else {
        lemma_count_update(visited.drop_last(), v);
        assert(after.drop_last() == visited.drop_last().update(v, true));
    }
}

/// Looking at a link that leads nowhere new keeps the invariant.
proof fn lemma_skip(links: Seq<Link>, residual: Seq<u64>, n: int, s: int, st: Search, l: int)
    requires
        search_inv(links, residual, n, s, st),
        is_next(links, st, l),
        residual[l] == 0 || st.visited[links[l].to as int],
    ensures
        search_inv(links, residual, n, s, skip(st, l)),
{
    let st2 = skip(st, l);
    assert forall|m: int| 0 <= m < links.len() && #[trigger] scanned(links, st, m) implies scanned(
        links,
        st2,
        m,
    ) by {}
    assert forall|v: int| 0 <= v <= n && #[trigger] st2.visited[v] implies node_ok(
        links,
        residual,
        s,
        st2,
        v,
    ) by {
        assert(node_ok(links, residual, s, st, v));
        if v != s {
            let t = st.tree[v];
            assert(t.last() < links.len());
            assert(scanned(links, st, t.last() as int));
        }
    }
    assert forall|m: int|
        0 <= m < links.len() && residual[m] > 0 && st2.visited[links[m].from as int]
            && #[trigger] scanned(links, st2, m) implies st2.visited[links[m].to as int] by {
        if !scanned(links, st, m) {
            let w = links[m].from as int;
            assert(1 <= links[m].from <= n);
            assert(st.queue[st.place[w]] == w);
            assert(m == l);
        }
    }
}

/// Moving on to the next node of the queue keeps the invariant.
proof fn lemma_advance(links: Seq<Link>, residual: Seq<u64>, n: int, s: int, st: Search)
    requires
        search_inv(links, residual, n, s, st),
        st.head < st.queue.len(),
        forall|m: int|
            st.bound <= m < links.len() ==> (#[trigger] links[m]).from != st.queue[st.head],
    ensures
        search_inv(links, residual, n, s, advance(st)),
{
    let st2 = advance(st);
    assert forall|m: int| 0 <= m < links.len() && #[trigger] scanned(links, st, m) implies scanned(
        links,
        st2,
        m,
    ) by {}
    assert forall|v: int| 0 <= v <= n && #[trigger] st2.visited[v] implies node_ok(
        links,
        residual,
        s,
        st2,
        v,
    ) by {
        assert(node_ok(links, residual, s, st, v));
        if v != s {
            let t = st.tree[v];
            assert(t.last() < links.len());
            assert(scanned(links, st, t.last() as int));
        }
    }
    assert forall|m: int|
        0 <= m < links.len() && residual[m] > 0 && st2.visited[links[m].from as int]
            && #[trigger] scanned(links, st2, m) implies st2.visited[links[m].to as int] by {
        if !scanned(links, st, m) {
            let w = links[m].from as int;
            assert(1 <= links[m].from <= n);
            assert(st.queue[st.place[w]] == w);
            assert(false);
        }
    }
}

/// Every augmenting path that ends at a node not yet visited comes after
/// the path through the link that the search is about to follow.
proof fn lemma_frontier(
    links: Seq<Link>,
    residual: Seq<u64>,
    n: int,
    s: int,
    st: Search,
    l: int,
    q: Seq<usize>,
    w: int,
)
    requires
        search_inv(links, residual, n, s, st),
        is_next(links, st, l),
        is_augmenting(links, residual, q, s, w),
        0 <= w <= n ==> !st.visited[w],
    ensures
        q == st.tree[st.queue[st.head] as int].push(l as usize) || precedes(
            st.tree[st.queue[st.head] as int].push(l as usize),
            q,
        ),
    decreases q.len(),
{
    let u = st.queue[st.head] as int;
    let cand = st.tree[u].push(l as usize);
    if q.len() == 0 {
        assert(w == s);
    } else {
        let m = q.last() as int;
        let before = q.drop_last();
        let x = links[m].from as int;
        assert(q[q.len() - 1] == q.last());
        assert(1 <= links[m].from <= n && 1 <= links[m].to <= n);
        assert(all_positive(residual, before)) by {
            assert forall|i: int| 0 <= i < before.len() implies (#[trigger] before[i])
                < residual.len() && residual[before[i] as int] > 0 by {
                assert(before[i] == q[i]);
            }
        }
        assert(is_augmenting(links, residual, before, s, x));
        assert(q == before.push(m as usize));
        if !st.visited[x] {
            lemma_frontier(links, residual, n, s, st, l, before, x);
            assert(cand.len() <= before.len());
        } else {
            assert(st.queue[st.place[x]] == x);
            assert(!scanned(links, st, m));
            assert(before == st.tree[x] || precedes(st.tree[x], before));
            if st.place[x] == st.head {
                assert(x == u);
                assert(m >= l);
                if before == st.tree[u] {
                    if m > l {
                        lemma_precedes_last(st.tree[u], l as usize, m as usize);
                    }
                } else {
                    lemma_precedes_push(st.tree[u], before, l as usize, m as usize);
                }
            } else {
                assert(precedes(
                    st.tree[st.queue[st.head] as int],
                    st.tree[st.queue[st.place[x]] as int],
                ));
                if before != st.tree[x] {
                    lemma_precedes_transitive(st.tree[u], st.tree[x], before);
                }
                lemma_precedes_push(st.tree[u], before, l as usize, m as usize);
            }
        }
    }
}

/// Following a link to a node that had not been visited keeps the invariant.
proof fn lemma_visit(links: Seq<Link>, residual: Seq<u64>, n: int, s: int, st: Search, l: int)
    requires
        search_inv(links, residual, n, s, st),
        is_next(links, st, l),
        residual[l] > 0,
        !st.visited[links[l].to as int],
    ensures
        search_inv(links, residual, n, s, visit(links, st, l)),
{
    let st2 = visit(links, st, l);
    let u = st.queue[st.head] as int;
    let v = links[l].to as int;
    let cand = st.tree[u].push(l as usize);
    assert(1 <= links[l].from <= n && 1 <= links[l].to <= n);
    assert(st.visited[u]);
    assert(node_ok(links, residual, s, st, u));
    assert(st2.tree[v] == cand);
    assert(cand.drop_last() == st.tree[u]);
    assert(cand.last() == l);

    assert forall|i: int| 0 <= i < st2.queue.len() implies 1 <= (#[trigger] st2.queue[i]) <= n
        && st2.visited[st2.queue[i] as int] && st2.place[st2.queue[i] as int] == i by {
        if i < st.queue.len() {
            assert(st2.queue[i] == st.queue[i]);
        }
    }
    assert forall|w: int| 0 <= w <= n && #[trigger] st2.visited[w] implies 0 <= st2.place[w]
        < st2.queue.len() && st2.queue[st2.place[w]] == w by {
        if w != v {
            assert(st.visited[w]);
        }
    }
    assert forall|m: int|
        0 <= m < links.len() && #[trigger] scanned(links, st, m)
            && st.visited[links[m].from as int] implies scanned(links, st2, m) by {}
    assert(node_ok(links, residual, s, st2, v)) by {
        assert(is_walk(links, cand, s, v));
        assert forall|i: int| 0 <= i < cand.len() implies (#[trigger] cand[i]) < residual.len()
            && residual[cand[i] as int] > 0 by {
            if i < st.tree[u].len() {
                assert(cand[i] == st.tree[u][i]);
            }
        }
        assert forall|i: int| 0 <= i < cand.len() implies st2.visited[links[(
        #[trigger] cand[i]) as int].to as int] && st2.tree[links[cand[i] as int].to as int].len()
            == i + 1 by {
            if i < st.tree[u].len() {
                assert(cand[i] == st.tree[u][i]);
            }
        }
        assert(scanned(links, st2, l));
    }
    assert forall|w: int| 0 <= w <= n && #[trigger] st2.visited[w] implies node_ok(
        links,
        residual,
        s,
        st2,
        w,
    ) by {
        if w != v {
            assert(st.visited[w]);
            assert(node_ok(links, residual, s, st, w));
            let t = st.tree[w];
            assert(st2.tree[w] == t);
            assert forall|i: int| 0 <= i < t.len() implies st2.visited[links[(
            #[trigger] t[i]) as int].to as int] && st2.tree[links[t[i] as int].to as int].len()
                == i + 1 by {}
            if w != s {
                assert(t.last() < links.len());
                assert(scanned(links, st, t.last() as int));
            }
        }
    }
    assert forall|i: int, j: int| 0 <= i < j < st2.queue.len() implies precedes(
        st2.tree[(#[trigger] st2.queue[i]) as int],
        st2.tree[(#[trigger] st2.queue[j]) as int],
    ) by {
        assert(st2.queue[i] == st.queue[i]);
        let a = st.queue[i] as int;
        assert(st2.tree[a] == st.tree[a]);
        if j < st.queue.len() {
            assert(st2.queue[j] == st.queue[j]);
            assert(st2.tree[st.queue[j] as int] == st.tree[st.queue[j] as int]);
        } else {
            assert(st2.queue[j] == v);
            if i < st.head {
                assert(precedes(
                    st.tree[(st.queue[i]) as int],
                    st.tree[(st.queue[st.head]) as int],
                ));
            } else if i == st.head {
            } else if a == s {
            } else {
                assert(node_ok(links, residual, s, st, a));
                let t = st.tree[a];
                let p = t.last();
                let x = links[p as int].from as int;
                assert(t == t.drop_last().push(p));
                assert(p < links.len());
                assert(1 <= links[p as int].from <= n);
                assert(st.queue[st.place[x]] == x);
                if st.place[x] < st.head {
                    assert(precedes(
                        st.tree[(st.queue[st.place[x]]) as int],
                        st.tree[(st.queue[st.head]) as int],
                    ));
                    lemma_precedes_push(st.tree[x], st.tree[u], p, l as usize);
                } else {
                    assert(x == u);
                    lemma_precedes_last(st.tree[u], p, l as usize);
                }
            }
        }
    }
    assert forall|w: int, q: Seq<usize>|
        0 <= w <= n && st2.visited[w] && #[trigger] is_augmenting(
            links,
            residual,
            q,
            s,
            w,
        ) implies q == st2.tree[w] || precedes(st2.tree[w], q) by {
        if w == v {
            lemma_frontier(links, residual, n, s, st, l, q, v);
        } else {
            assert(st.visited[w]);
        }
    }
    assert forall|m: int|
        0 <= m < links.len() && residual[m] > 0 && st2.visited[links[m].from as int]
            && #[trigger] scanned(links, st2, m) implies st2.visited[links[m].to as int] by {
        let x = links[m].from as int;
        assert(1 <= links[m].from <= n && 1 <= links[m].to <= n);
        if x != v {
            assert(st.visited[x]);
            assert(st.queue[st.place[x]] == x);
            if scanned(links, st, m) {
                assert(st.visited[links[m].to as int]);
            } else {
                assert(m == l);
            }
        }
    }
}

/// Once every visited node has had all its links looked at, every node that
/// an augmenting path leads to has been visited.
proof fn lemma_exhausted(
    links: Seq<Link>,
    residual: Seq<u64>,
    n: int,
    s: int,
    st: Search,
    q: Seq<usize>,
    w: int,
)
    requires
        search_inv(links, residual, n, s, st),
        st.head == st.queue.len(),
        is_augmenting(links, residual, q, s, w),
    ensures
        0 <= w <= n,
        st.visited[w],
    decreases q.len(),
{
    if q.len() > 0 {
        let m = q.last() as int;
        let before = q.drop_last();
        let x = links[m].from as int;
        assert(q[q.len() - 1] == q.last());
        assert(1 <= links[m].from <= n && 1 <= links[m].to <= n);
        assert(all_positive(residual, before)) by {
            assert forall|i: int| 0 <= i < before.len() implies (#[trigger] before[i])
                < residual.len() && residual[before[i] as int] > 0 by {
                assert(before[i] == q[i]);
            }
        }
        lemma_exhausted(links, residual, n, s, st, before, x);
        assert(scanned(links, st, m));
    }
}

/// The path by which a visited node was reached repeats no link.
proof fn lemma_tree_simple(links: Seq<Link>, residual: Seq<u64>, n: int, s: int, st: Search, v: int)
    requires
        search_inv(links, residual, n, s, st),
        0 <= v <= n,
        st.visited[v],
    ensures
        st.tree[v].no_duplicates(),
{
    let t = st.tree[v];
    assert(node_ok(links, residual, s, st, v));
    assert forall|i: int, j: int| 0 <= i < t.len() && 0 <= j < t.len() && i != j implies t[i]
        != t[j] by {
        assert(st.tree[links[t[i] as int].to as int].len() == i + 1);
        assert(st.tree[links[t[j] as int].to as int].len() == j + 1);
    }
}

/// The state in which the search from `s` begins: `s` alone is visited and
/// waits in the queue.
spec fn start(n: int, s: int) -> Search {
    Search {
        visited: Seq::new((n + 1) as nat, |v: int| v == s),
        parent: Seq::new((n + 1) as nat, |v: int| 0usize),
        queue: seq![s as usize],
        head: 0,
        bound: 0,
        tree: Seq::new((n + 1) as nat, |v: int| Seq::<usize>::empty()),
        place: Seq::new((n + 1) as nat, |v: int| 0int),
    }
}

/// The search begins in a state that meets the invariant.
proof fn lemma_start(links: Seq<Link>, residual: Seq<u64>, n: int, s: int)
    requires
        1 <= s <= n,
        n < usize::MAX,
        links.len() <= usize::MAX,
        residual.len() == links.len(),
        links_in_range(links, n as nat),
    ensures
        search_inv(links, residual, n, s, start(n, s)),
        count_visited(start(n, s).visited) == 1,
{
    let st = start(n, s);
    let unvisited = Seq::new((n + 1) as nat, |v: int| false);
    lemma_count_none(unvisited);
    lemma_count_update(unvisited, s);
    assert(st.visited =~= unvisited.update(s, true));
    assert forall|v: int, q: Seq<usize>|
        0 <= v <= n && st.visited[v] && #[trigger] is_augmenting(
            links,
            residual,
            q,
            s,
            v,
        ) implies q == st.tree[v] || precedes(st.tree[v], q) by {
        if q.len() == 0 {
            assert(q == st.tree[v]);
        }
    }
    assert(is_walk(links, st.tree[s], s, s));
    assert(node_ok(links, residual, s, st, s));
}

/// Looking past a link that does not leave the node at the head of the
/// queue keeps the invariant.
proof fn lemma_pass(links: Seq<Link>, residual: Seq<u64>, n: int, s: int, st: Search)
    requires
        search_inv(links, residual, n, s, st),
        st.head < st.queue.len(),
        st.bound < links.len(),
        links[st.bound].from != st.queue[st.head],
    ensures
        search_inv(links, residual, n, s, skip(st, st.bound)),
{
    let st2 = skip(st, st.bound);
    assert forall|m: int| 0 <= m < links.len() && #[trigger] scanned(links, st, m) implies scanned(
        links,
        st2,
        m,
    ) by {}
    assert forall|v: int| 0 <= v <= n && #[trigger] st2.visited[v] implies node_ok(
        links,
        residual,
        s,
        st2,
        v,
    ) by {
        assert(node_ok(links, residual, s, st, v));
        if v != s {
            let t = st.tree[v];
            assert(t.last() < links.len());
            assert(scanned(links, st, t.last() as int));
        }
    }
    assert forall|m: int|
        0 <= m < links.len() && residual[m] > 0 && st2.visited[links[m].from as int]
            && #[trigger] scanned(links, st2, m) implies st2.visited[links[m].to as int] by {
        if !scanned(links, st, m) {
            let w = links[m].from as int;
            assert(1 <= links[m].from <= n);
            assert(st.queue[st.place[w]] == w);
            assert(false);
        }
    }
}

/// From any state that it can come to, the search ends: with the chosen
/// path to `d`, or with the knowledge that no augmenting path leads there.
proof fn lemma_search_ends(
    links: Seq<Link>,
    residual: Seq<u64>,
    n: int,
    s: int,
    d: int,
    st: Search,
)
    requires
        search_inv(links, residual, n, s, st),
        1 <= d <= n,
    ensures
        cut_off(links, residual, s, d) || exists|path: Seq<usize>|
            is_chosen(links, residual, s, d, path) && path.no_duplicates(),
    decreases n + 1 - count_visited(st.visited), st.queue.len() - st.head, links.len() - st.bound,
{
    lemma_count_bounded(st.visited);
    if st.visited[d] {
        lemma_tree_simple(links, residual, n, s, st, d);
        assert(node_ok(links, residual, s, st, d));
        assert(is_chosen(links, residual, s, d, st.tree[d]) && st.tree[d].no_duplicates());
    } else if st.head == st.queue.len() {
        assert forall|q: Seq<usize>| !is_augmenting(links, residual, q, s, d) by {
            if is_augmenting(links, residual, q, s, d) {
                lemma_exhausted(links, residual, n, s, st, q, d);
            }
        }
    } else if st.bound == links.len() {
        lemma_advance(links, residual, n, s, st);
        lemma_search_ends(links, residual, n, s, d, advance(st));
    } else {
        let l = st.bound;
        if links[l].from == st.queue[st.head] {
            assert(is_next(links, st, l));
            assert(1 <= links[l].to <= n);
            if residual[l] > 0 && !st.visited[links[l].to as int] {
                lemma_visit(links, residual, n, s, st, l);
                lemma_count_update(st.visited, links[l].to as int);
                lemma_count_bounded(visit(links, st, l).visited);
                lemma_search_ends(links, residual, n, s, d, visit(links, st, l));
            } else {
                lemma_skip(links, residual, n, s, st, l);
                lemma_search_ends(links, residual, n, s, d, skip(st, l));
            }
        } else {
            lemma_pass(links, residual, n, s, st);
            lemma_search_ends(links, residual, n, s, d, skip(st, l));
        }
    }
}

/// The chosen path repeats no link.
pub proof fn lemma_chosen_is_simple(
    links: Seq<Link>,
    residual: Seq<u64>,
    node_quantity: nat,
    s: int,
    d: int,
    path: Seq<usize>,
)
    requires
        node_quantity < usize::MAX,
        links.len() <= usize::MAX,
        residual.len() == links.len(),
        links_in_range(links, node_quantity),
        1 <= s <= node_quantity,
        1 <= d <= node_quantity,
        is_chosen(links, residual, s, d, path),
    ensures
        path.no_duplicates(),
{
    lemma_start(links, residual, node_quantity as int, s);
    lemma_search_ends(links, residual, node_quantity as int, s, d, start(node_quantity as int, s));
    let found = choose|found: Seq<usize>|
        is_chosen(links, residual, s, d, found) && found.no_duplicates();
    lemma_chosen_unique(links, residual, s, d, path, found);
}

/// Between two nodes of a network, the search finds its path exactly when
/// an augmenting path exists.
pub proof fn lemma_search_total(
    links: Seq<Link>,
    residual: Seq<u64>,
    node_quantity: nat,
    s: int,
    d: int,
)
    requires
        node_quantity < usize::MAX,
        links.len() <= usize::MAX,
        residual.len() == links.len(),
        links_in_range(links, node_quantity),
        1 <= s <= node_quantity,
        1 <= d <= node_quantity,
    ensures
        has_chosen(links, residual, s, d) <==> !cut_off(links, residual, s, d),
{
    lemma_start(links, residual, node_quantity as int, s);
    lemma_search_ends(links, residual, node_quantity as int, s, d, start(node_quantity as int, s));
    if has_chosen(links, residual, s, d) {
        let path = chosen_path(links, residual, s, d);
        assert(is_augmenting(links, residual, path, s, d));
    }
}

impl Network {
    /// Searches breadth first, over the links with residual capacity, for a
    /// path from `source` to `destination`. A node's links are tried in
    /// insertion order, so of several shortest paths the search returns the
    /// one that takes the earlier link where they part.
    pub(crate) fn find_path(
        &self,
        residual: &Vec<u64>,
        source: usize,
        destination: usize,
    ) -> (r: Option<Vec<usize>>)
        requires
            residual.len() == self@.links.len(),
            1 <= source <= self@.node_quantity,
            1 <= destination <= self@.node_quantity,
        ensures
            self@.wf(),
            r matches Some(path) ==> path@.no_duplicates() && is_chosen(
                self@.links,
                residual@,
                source as int,
                destination as int,
                path@,
            ),
            r is None ==> cut_off(self@.links, residual@, source as int, destination as int),
    {
        proof {
            use_type_invariant(self);
        }
        let size: usize = self.adjacency.len();
        let ghost n: int = self.node_quantity as int;
        let ghost s: int = source as int;
        let mut visited: Vec<bool> = vec![false; size];
        let mut parent: Vec<usize> = vec![0usize; size];
        let mut queue: Vec<usize> = Vec::new();
        visited[source] = true;
        queue.push(source);
        let mut head: usize = 0;
        let ghost mut st: Search = start(n, s);
        proof {
            lemma_start(self.links@, residual@, n, s);
            assert(st.visited =~= visited@);
            assert(st.parent =~= parent@);
            assert(st.queue =~= queue@);
        }
        while head < queue.len() && !visited[destination]
            invariant
                self.well_formed(),
                n == self.node_quantity,
                s == source,
                size == n + 1,
                1 <= destination <= n,
                search_inv(self.links@, residual@, n, s, st),
                st.visited == visited@,
                st.parent == parent@,
                st.queue == queue@,
                st.head == head,
                st.bound == 0,
                queue.len() == count_visited(visited@),
            decreases size - head,
        {
            let u: usize = queue[head];
            let mut k: usize = 0;
            proof {
                lemma_out_links(self.links@, u as int);
            }
            while k < self.adjacency[u].len()
                invariant
                    self.well_formed(),
                    n == self.node_quantity,
                    s == source,
                    size == n + 1,
                    search_inv(self.links@, residual@, n, s, st),
                    st.visited == visited@,
                    st.parent == parent@,
                    st.queue == queue@,
                    st.head == head,
                    head < queue.len(),
                    u == queue[head as int],
                    1 <= u <= n,
                    k <= self.adjacency[u as int].len(),
                    forall|j: int|
                        0 <= j < k ==> (#[trigger] self.adjacency[u as int][j]) < st.bound,
                    st.bound == if k == 0 {
                        0
                    } else {
                        self.adjacency[u as int][k - 1] + 1
                    },
                    queue.len() == count_visited(visited@),
                decreases self.adjacency[u as int].len() - k,
            {
                let l: usize = self.adjacency[u][k];
                proof {
                    lemma_out_links(self.links@, u as int);
                    let out = out_links(self.links@, u as int);
                    assert(out == self.adjacency[u as int]@);
                    assert(out[k as int] == l);
                    assert forall|m: int| st.bound <= m < l implies (#[trigger] self.links@[m]).from
                        != u by {
                        if self.links@[m].from == u {
                            let j = choose|j: int| 0 <= j < out.len() && #[trigger] out[j] == m;
                            if j < k {
                                assert(self.adjacency[u as int][j] < st.bound);
                            } else if j > k {
                                assert(out[k as int] < out[j]);
                            }
                        }
                    }
                    if k > 0 {
                        assert(out[k - 1] < out[k as int]);
                    }
                    assert(is_next(self.links@, st, l as int));
                }
                let v: usize = self.links[l].to;
                assert(1 <= self.links@[l as int].to <= n);
                if residual[l] > 0 && !visited[v] {
                    proof {
                        lemma_visit(self.links@, residual@, n, s, st, l as int);
                        lemma_count_update(visited@, v as int);
                        st = visit(self.links@, st, l as int);
                    }
                    visited[v] = true;
                    parent[v] = l;
                    queue.push(v);
                } else {
                    proof {
                        lemma_skip(self.links@, residual@, n, s, st, l as int);
                        st = skip(st, l as int);
                    }
                }
                proof {
                    assert forall|j: int| 0 <= j < k + 1 implies (
                    #[trigger] self.adjacency[u as int][j]) < st.bound by {
                        if j < k {
                            let out = out_links(self.links@, u as int);
                            assert(out[j] < out[k as int]);
                        }
                    }
                }
                k = k + 1;
            }
            proof {
                let out = out_links(self.links@, u as int);
                assert(out == self.adjacency[u as int]@);
                assert forall|m: int| st.bound <= m < self.links@.len() implies (
                #[trigger] self.links@[m]).from != u by {
                    if self.links@[m].from == u {
                        let j = choose|j: int| 0 <= j < out.len() && #[trigger] out[j] == m;
                        assert(self.adjacency[u as int][j] < st.bound);
                    }
                }
                lemma_advance(self.links@, residual@, n, s, st);
                st = advance(st);
                lemma_count_bounded(visited@);
            }
            head = head + 1;
        }
        if !visited[destination] {
            proof {
                assert forall|q: Seq<usize>|
                    !is_augmenting(self.links@, residual@, q, s, destination as int) by {
                    if is_augmenting(self.links@, residual@, q, s, destination as int) {
                        lemma_exhausted(self.links@, residual@, n, s, st, q, destination as int);
                    }
                }
            }
            return None;
        }
        let ghost whole = st.tree[destination as int];
        let mut backward: Vec<usize> = Vec::new();
        let mut node: usize = destination;
        while node != source
            invariant
                self.well_formed(),
                n == self.node_quantity,
                s == source,
                search_inv(self.links@, residual@, n, s, st),
                st.parent == parent@,
                1 <= node <= n,
                1 <= destination <= n,
                st.visited[node as int],
                whole == st.tree[destination as int],
                backward.len() + st.tree[node as int].len() == whole.len(),
                st.tree[node as int] == whole.take(st.tree[node as int].len() as int),
                forall|i: int|
                    0 <= i < backward.len() ==> #[trigger] backward[i] == whole[whole.len() - 1
                        - i],
            decreases st.tree[node as int].len(),
        {
            proof {
                assert(node_ok(self.links@, residual@, s, st, node as int));
            }
            let l: usize = parent[node];
            let ghost t = st.tree[node as int];
            assert(l == t.last());
            assert(t[t.len() - 1] == whole[t.len() - 1]);
            assert(l < self.links@.len());
            backward.push(l);
            node = self.links[l].from;
            proof {
                assert(1 <= self.links@[l as int].from <= n);
                assert(st.tree[node as int] == t.drop_last());
                assert(t.drop_last() == whole.take(t.len() - 1));
            }
        }
        let mut path: Vec<usize> = Vec::new();
        let mut i: usize = backward.len();
        while i > 0
            invariant
                i <= backward.len(),
                backward.len() == whole.len(),
                path.len() == backward.len() - i,
                forall|j: int|
                    0 <= j < backward.len() ==> #[trigger] backward[j] == whole[whole.len() - 1
                        - j],
                forall|j: int| 0 <= j < path.len() ==> #[trigger] path[j] == whole[j],
            decreases i,
        {
            i = i - 1;
            path.push(backward[i]);
        }
        proof {
            assert(path@ == whole);
            assert(node_ok(self.links@, residual@, s, st, destination as int));
            lemma_tree_simple(self.links@, residual@, n, s, st, destination as int);
        }
        Some(path)
    }
}

} // verus!
