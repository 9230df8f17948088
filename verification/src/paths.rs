//! Walks through the network, augmenting paths, and the order in which the
//! breadth-first search prefers them.

use crate::topology::Link;
use vstd::prelude::*;

verus! {

/// `path` is a sequence of links that leads from node `s` to node `d`, each
/// link starting where the one before it ends.
pub open spec fn is_walk(links: Seq<Link>, path: Seq<usize>, s: int, d: int) -> bool
    decreases path.len(),
{
    if path.len() == 0 {
        s == d
    } else {
        &&& path.last() < links.len()
        &&& links[path.last() as int].to == d
        &&& is_walk(links, path.drop_last(), s, links[path.last() as int].from as int)
    }
}

/// Every link of `path` has residual capacity left.
pub open spec fn all_positive(residual: Seq<u64>, path: Seq<usize>) -> bool {
    forall|i: int|
        0 <= i < path.len() ==> (#[trigger] path[i]) < residual.len() && residual[path[i] as int]
            > 0
}

/// `path` leads from `s` to `d` over links with residual capacity only.
pub open spec fn is_augmenting(
    links: Seq<Link>,
    residual: Seq<u64>,
    path: Seq<usize>,
    s: int,
    d: int,
) -> bool {
    is_walk(links, path, s, d) && all_positive(residual, path)
}

/// Node `d` can be reached from node `s` over the links of the network,
/// whatever their capacity.
pub open spec fn reachable(links: Seq<Link>, s: int, d: int) -> bool {
    exists|path: Seq<usize>| is_walk(links, path, s, d)
}

/// `p` and `q` agree before position `k`, where `p` has the smaller link.
pub open spec fn differ_at(p: Seq<usize>, q: Seq<usize>, k: int) -> bool {
    &&& 0 <= k < p.len()
    &&& k < q.len()
    &&& p[k] < q[k]
    &&& forall|j: int| 0 <= j < k ==> #[trigger] p[j] == q[j]
}

/// The order of preference among paths: fewer hops first, and among paths
/// with equally many hops the one that takes the earlier link at the first
/// node where they part.
pub open spec fn precedes(p: Seq<usize>, q: Seq<usize>) -> bool {
    p.len() < q.len() || (p.len() == q.len() && exists|k: int| differ_at(p, q, k))
}

/// `path` is the augmenting path that the search settles on: the one that
/// is preferred to every other augmenting path from `s` to `d`.
pub open spec fn is_chosen(
    links: Seq<Link>,
    residual: Seq<u64>,
    s: int,
    d: int,
    path: Seq<usize>,
) -> bool {
    &&& is_augmenting(links, residual, path, s, d)
    &&& forall|q: Seq<usize>| #[trigger]
        is_augmenting(links, residual, q, s, d) ==> q == path || precedes(path, q)
}

/// Whether the search finds a path from `s` to `d`.
pub open spec fn has_chosen(links: Seq<Link>, residual: Seq<u64>, s: int, d: int) -> bool {
    exists|path: Seq<usize>| is_chosen(links, residual, s, d, path)
}

/// The path that the search finds from `s` to `d`, where it finds one.
pub open spec fn chosen_path(links: Seq<Link>, residual: Seq<u64>, s: int, d: int) -> Seq<usize> {
    choose|path: Seq<usize>| is_chosen(links, residual, s, d, path)
}

/// A walk uses links of the network only.
pub proof fn lemma_walk_links(links: Seq<Link>, path: Seq<usize>, s: int, d: int)
    requires
        is_walk(links, path, s, d),
    ensures
        forall|i: int| 0 <= i < path.len() ==> (#[trigger] path[i]) < links.len(),
    decreases path.len(),
{
    if path.len() > 0 {
        lemma_walk_links(links, path.drop_last(), s, links[path.last() as int].from as int);
        assert forall|i: int| 0 <= i < path.len() implies (#[trigger] path[i]) < links.len() by {
            if i < path.len() - 1 {
                assert(path.drop_last()[i] == path[i]);
            }
        }
    }
}

/// No path is preferred to one that is preferred to it.
pub proof fn lemma_precedes_asymmetric(p: Seq<usize>, q: Seq<usize>)
    requires
        precedes(p, q),
    ensures
        !precedes(q, p),
        p != q,
{
    if p.len() == q.len() {
        let k = choose|k: int| differ_at(p, q, k);
        if precedes(q, p) {
            let m = choose|m: int| differ_at(q, p, m);
            if m < k {
                assert(p[m] == q[m]);
            } else if k < m {
                assert(q[k] == p[k]);
            }
        }
    }
}

/// Preference is transitive.
pub proof fn lemma_precedes_transitive(a: Seq<usize>, b: Seq<usize>, c: Seq<usize>)
    requires
        precedes(a, b),
        precedes(b, c),
    ensures
        precedes(a, c),
{
    if a.len() == b.len() && b.len() == c.len() {
        let k1 = choose|k: int| differ_at(a, b, k);
        let k2 = choose|k: int| differ_at(b, c, k);
        let k = if k1 <= k2 {
            k1
        } else {
            k2
        };
        assert forall|j: int| 0 <= j < k implies #[trigger] a[j] == c[j] by {
            assert(a[j] == b[j]);
            assert(b[j] == c[j]);
        }
        if k1 < k2 {
            assert(b[k1] == c[k1]);
        } else if k2 < k1 {
            assert(a[k2] == b[k2]);
        }
        assert(differ_at(a, c, k));
    }
}

/// Extending two paths by one link each keeps the preference between them.
pub proof fn lemma_precedes_push(p: Seq<usize>, q: Seq<usize>, x: usize, y: usize)
    requires
        precedes(p, q),
    ensures
        precedes(p.push(x), q.push(y)),
{
    if p.len() == q.len() {
        let k = choose|k: int| differ_at(p, q, k);
        assert forall|j: int| 0 <= j < k implies #[trigger] p.push(x)[j] == q.push(y)[j] by {
            assert(p[j] == q[j]);
        }
        assert(differ_at(p.push(x), q.push(y), k));
    }
}

/// Of two paths that part at their last link, the one with the earlier link
/// is preferred.
pub proof fn lemma_precedes_last(p: Seq<usize>, x: usize, y: usize)
    requires
        x < y,
    ensures
        precedes(p.push(x), p.push(y)),
{
    assert(differ_at(p.push(x), p.push(y), p.len() as int));
}

/// At most one path is the chosen one.
pub proof fn lemma_chosen_unique(
    links: Seq<Link>,
    residual: Seq<u64>,
    s: int,
    d: int,
    p: Seq<usize>,
    q: Seq<usize>,
)
    requires
        is_chosen(links, residual, s, d, p),
        is_chosen(links, residual, s, d, q),
    ensures
        p == q,
{
    if p != q {
        lemma_precedes_asymmetric(p, q);
    }
}

/// The path that a search returned is the one that `chosen_path` names.
pub proof fn lemma_chosen_is_choice(
    links: Seq<Link>,
    residual: Seq<u64>,
    s: int,
    d: int,
    p: Seq<usize>,
)
    requires
        is_chosen(links, residual, s, d, p),
    ensures
        has_chosen(links, residual, s, d),
        chosen_path(links, residual, s, d) == p,
{
    lemma_chosen_unique(links, residual, s, d, p, chosen_path(links, residual, s, d));
}

/// No augmenting path leads from `s` to `d`.
pub open spec fn cut_off(links: Seq<Link>, residual: Seq<u64>, s: int, d: int) -> bool {
    forall|q: Seq<usize>| !is_augmenting(links, residual, q, s, d)
}

/// A pair that is cut off stays cut off when residual capacity shrinks.
pub proof fn lemma_cut_off_persists(
    links: Seq<Link>,
    before: Seq<u64>,
    after: Seq<u64>,
    s: int,
    d: int,
)
    requires
        cut_off(links, before, s, d),
        before.len() == after.len(),
        forall|l: int| 0 <= l < after.len() ==> (#[trigger] after[l]) <= before[l],
    ensures
        cut_off(links, after, s, d),
{
    assert forall|q: Seq<usize>| !is_augmenting(links, after, q, s, d) by {
        if is_augmenting(links, after, q, s, d) {
            assert forall|i: int| 0 <= i < q.len() implies (#[trigger] q[i]) < before.len()
                && before[q[i] as int] > 0 by {
                assert(after[q[i] as int] <= before[q[i] as int]);
            }
            assert(is_augmenting(links, before, q, s, d));
        }
    }
}

/// The chosen path has the fewest hops of all augmenting paths.
pub proof fn lemma_chosen_is_shortest(
    links: Seq<Link>,
    residual: Seq<u64>,
    s: int,
    d: int,
    path: Seq<usize>,
    q: Seq<usize>,
)
    requires
        is_chosen(links, residual, s, d, path),
        is_augmenting(links, residual, q, s, d),
    ensures
        path.len() <= q.len(),
{
}

} // verus!
