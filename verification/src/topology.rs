//! Nodes, links and the adjacency index.

use vstd::prelude::*;

verus! {

/// Whether an edge of the edge list stands for one directed link or for two.
#[derive(Debug, Clone, Copy, PartialEq, Eq, Structural)]
pub enum Kind {
    /// One link per edge, from its first endpoint to its second.
    Simplex,
    /// Two independent links per edge, one in each direction.
    Duplex,
}

/// One directed, capacitated connection between two nodes.
#[derive(Debug, Clone, Copy, PartialEq, Eq, Structural)]
pub struct Link {
    pub from: usize,
    pub to: usize,
    pub capacity: u64,
}

/// The structural errors. Both abort the operation with no partial result.
#[derive(Debug, Clone, Copy, PartialEq, Eq, Structural)]
pub enum NetworkError {
    /// An edge names a node outside `1..=node_quantity`, or a capacity is
    /// given for a link that the network does not have.
    InvalidTopology,
    /// The demand matrix is not `node_quantity` by `node_quantity`, or holds
    /// a negative entry.
    InvalidDemand,
}

/// The mathematical content of a network: its links in insertion order.
/// Link `l` is `links[l]`; nodes are the numbers `1..=node_quantity`.
pub struct NetworkView {
    pub kind: Kind,
    pub node_quantity: nat,
    pub links: Seq<Link>,
}

impl NetworkView {
    /// Every link joins two nodes of the network, and the nodes and links
    /// can be counted by a machine.
    pub open spec fn wf(self) -> bool {
        &&& self.node_quantity < usize::MAX
        &&& self.links.len() <= usize::MAX
        &&& links_in_range(self.links, self.node_quantity)
    }

    /// The links that leave `node`, each with the node it leads to, in
    /// insertion order.
    pub open spec fn neighbors(self, node: int) -> Seq<(usize, usize)> {
        let out = out_links(self.links, node);
        Seq::new(out.len(), |k: int| (out[k], self.links[out[k] as int].to))
    }
}

/// Every link joins two nodes among `1..=node_quantity`.
pub open spec fn links_in_range(links: Seq<Link>, node_quantity: nat) -> bool {
    forall|l: int|
        0 <= l < links.len() ==> 1 <= (#[trigger] links[l]).from <= node_quantity && 1
            <= links[l].to <= node_quantity
}

/// The links that leave `node`, in ascending order, which is insertion order.
pub open spec fn out_links(links: Seq<Link>, node: int) -> Seq<usize>
    decreases links.len(),
{
    if links.len() == 0 {
        Seq::empty()
    } else {
        let rest = out_links(links.drop_last(), node);
        if links.last().from == node {
            rest.push((links.len() - 1) as usize)
        } else {
            rest
        }
    }
}

/// `out_links` lists exactly the links that leave `node`, in ascending order.
pub proof fn lemma_out_links(links: Seq<Link>, node: int)
    requires
        links.len() <= usize::MAX,
    ensures
        forall|k: int|
            0 <= k < out_links(links, node).len() ==> (#[trigger] out_links(links, node)[k])
                < links.len() && links[out_links(links, node)[k] as int].from == node,
        forall|i: int, j: int|
            0 <= i < j < out_links(links, node).len() ==> out_links(links, node)[i] < out_links(
                links,
                node,
            )[j],
        forall|l: int|
            0 <= l < links.len() && (#[trigger] links[l]).from == node ==> exists|k: int|
                0 <= k < out_links(links, node).len() && #[trigger] out_links(links, node)[k] == l,
    decreases links.len(),
{
    if links.len() > 0 {
        let shorter = links.drop_last();
        lemma_out_links(shorter, node);
        let rest = out_links(shorter, node);
        let out = out_links(links, node);
        assert forall|l: int|
            0 <= l < links.len() && (#[trigger] links[l]).from == node implies exists|k: int|
            0 <= k < out.len() && #[trigger] out[k] == l by {
            if l < shorter.len() {
                assert(shorter[l].from == node);
                let k = choose|k: int| 0 <= k < rest.len() && #[trigger] rest[k] == l;
                assert(out[k] == l);
            } else {
                assert(out[out.len() - 1] == l);
            }
        }
    }
}

/// The links of `out_links` depend on the endpoints only.
pub proof fn lemma_out_links_by_from(a: Seq<Link>, b: Seq<Link>, node: int)
    requires
        a.len() == b.len(),
        forall|l: int| 0 <= l < a.len() ==> (#[trigger] a[l]).from == b[l].from,
    ensures
        out_links(a, node) == out_links(b, node),
    decreases a.len(),
{
    if a.len() > 0 {
        lemma_out_links_by_from(a.drop_last(), b.drop_last(), node);
        assert(a.last().from == b[a.len() - 1].from);
    }
}

/// Whether every edge joins two nodes among `1..=node_quantity`.
pub open spec fn endpoints_valid(node_quantity: nat, edges: Seq<(usize, usize)>) -> bool {
    forall|i: int|
        0 <= i < edges.len() ==> 1 <= (#[trigger] edges[i]).0 <= node_quantity && 1
            <= edges[i].1 <= node_quantity
}

/// The links that an edge list stands for, each with the given capacity.
/// Simplex: edge `i` is link `i`. Duplex: edge `i` is link `2 * i`, and link
/// `2 * i + 1` is its reverse.
pub open spec fn links_of(kind: Kind, edges: Seq<(usize, usize)>, capacity: u64) -> Seq<Link> {
    match kind {
        Kind::Simplex => Seq::new(
            edges.len(),
            |l: int| Link { from: edges[l].0, to: edges[l].1, capacity },
        ),
        Kind::Duplex => Seq::new(
            2 * edges.len(),
            |l: int|
                if l % 2 == 0 {
                    Link { from: edges[l / 2].0, to: edges[l / 2].1, capacity }
                } else {
                    Link { from: edges[l / 2].1, to: edges[l / 2].0, capacity }
                },
        ),
    }
}

/// The capacity that a list of `(link, capacity)` entries gives to `link`:
/// that of the last entry that names it, or `before` if none does.
pub open spec fn assigned_capacity(entries: Seq<(usize, u64)>, link: int, before: u64) -> u64
    decreases entries.len(),
{
    if entries.len() == 0 {
        before
    } else if entries.last().0 == link {
        entries.last().1
    } else {
        assigned_capacity(entries.drop_last(), link, before)
    }
}

/// The links after a list of `(link, capacity)` entries has been applied.
pub open spec fn with_capacities(links: Seq<Link>, entries: Seq<(usize, u64)>) -> Seq<Link> {
    Seq::new(
        links.len(),
        |l: int|
            Link {
                from: links[l].from,
                to: links[l].to,
                capacity: assigned_capacity(entries, l, links[l].capacity),
            },
    )
}

/// Whether every entry names a link of the network.
pub open spec fn entries_valid(link_count: nat, entries: Seq<(usize, u64)>) -> bool {
    forall|i: int| 0 <= i < entries.len() ==> (#[trigger] entries[i]).0 < link_count
}

/// Replaces link number `l`.
fn store(links: &mut Vec<Link>, l: usize, link: Link)
    requires
        l < old(links).len(),
    ensures
        final(links)@ == old(links)@.update(l as int, link),
    no_unwind
{
    links[l] = link;
}

/// A fixed topology: numbered nodes and the directed links between them,
/// indexed per node by the links that leave it.
#[derive(Debug)]
pub struct Network {
    pub(crate) kind: Kind,
    pub(crate) node_quantity: usize,
    pub(crate) links: Vec<Link>,
    pub(crate) adjacency: Vec<Vec<usize>>,
}

impl View for Network {
    type V = NetworkView;

    /// The kind, the number of nodes and the links.
    open(crate) spec fn view(&self) -> NetworkView {
        NetworkView {
            kind: self.kind,
            node_quantity: self.node_quantity as nat,
            links: self.links@,
        }
    }
}

impl Network {
    /// Links join nodes of the network, and `adjacency[v]` lists the links
    /// that leave `v` (slot 0 stands for no node and stays empty).
    #[verifier::type_invariant]
    pub open(crate) spec fn well_formed(self) -> bool {
        &&& links_in_range(self.links@, self.node_quantity as nat)
        &&& self.adjacency.len() == self.node_quantity + 1
        &&& forall|v: int|
            0 <= v <= self.node_quantity ==> (#[trigger] self.adjacency[v])@ == out_links(
                self.links@,
                v,
            )
    }

    /// Builds the links and the adjacency index from edges that have been
    /// checked.
    fn build(kind: Kind, node_quantity: usize, edges: &Vec<(usize, usize)>, capacity: u64) -> (net:
        Network)
        requires
            endpoints_valid(node_quantity as nat, edges@),
        ensures
            net@ == (NetworkView {
                kind,
                node_quantity: node_quantity as nat,
                links: links_of(kind, edges@, capacity),
            }),
    {
        let mut adjacency: Vec<Vec<usize>> = Vec::new();
        let mut v: usize = 0;
        while v < node_quantity
            invariant
                v <= node_quantity,
                adjacency.len() == v,
                forall|w: int| 0 <= w < v ==> (#[trigger] adjacency[w])@ == Seq::<usize>::empty(),
            decreases node_quantity - v,
        {
            adjacency.push(Vec::new());
            v = v + 1;
        }
        adjacency.push(Vec::new());
        let mut links: Vec<Link> = Vec::new();
        let mut i: usize = 0;
        while i < edges.len()
            invariant
                i <= edges.len(),
                endpoints_valid(node_quantity as nat, edges@),
                adjacency.len() == node_quantity + 1,
                links@ == links_of(kind, edges@.take(i as int), capacity),
                links_in_range(links@, node_quantity as nat),
                forall|w: int|
                    0 <= w <= node_quantity ==> (#[trigger] adjacency[w])@ == out_links(links@, w),
            decreases edges.len() - i,
        {
            let (a, b) = edges[i];
            assert(1 <= edges@[i as int].0 <= node_quantity);
            let ghost before = links@;
            let forward = Link { from: a, to: b, capacity };
            let id: usize = links.len();
            links.push(forward);
            adjacency[a].push(id);
            proof {
                assert(links@.drop_last() == before);
                assert forall|w: int| 0 <= w <= node_quantity implies (#[trigger] adjacency[w])@
                    == out_links(links@, w) by {}
            }
            match kind {
                Kind::Simplex => {},
                Kind::Duplex => {
                    let ghost middle = links@;
                    let backward = Link { from: b, to: a, capacity };
                    let back_id: usize = links.len();
                    links.push(backward);
                    adjacency[b].push(back_id);
                    proof {
                        assert(links@.drop_last() == middle);
                        assert forall|w: int| 0 <= w <= node_quantity implies (
                        #[trigger] adjacency[w])@ == out_links(links@, w) by {}
                    }
                },
            }
            proof {
                let short = edges@.take(i as int);
                let long = edges@.take(i as int + 1);
                assert(forall|k: int| 0 <= k < short.len() ==> short[k] == long[k]);
                assert(long[i as int] == edges@[i as int]);
                assert(links@ =~= links_of(kind, long, capacity));
            }
            i = i + 1;
        }
        assert(edges@.take(i as int) == edges@);
        Network { kind, node_quantity, links, adjacency }
    }

    /// Builds the network that `edges` describes, every link with capacity 0.
    /// Fails with `InvalidTopology` when an edge names a node outside
    /// `1..=node_quantity`.
    pub fn new(kind: Kind, node_quantity: usize, edges: Vec<(usize, usize)>) -> (r: Result<
        Network,
        NetworkError,
    >)
        ensures
            r is Ok <==> endpoints_valid(node_quantity as nat, edges@),
            r matches Ok(net) ==> net@ == (NetworkView {
                kind,
                node_quantity: node_quantity as nat,
                links: links_of(kind, edges@, 0),
            }),
            r matches Ok(net) ==> net@.wf(),
            r matches Err(e) ==> e == NetworkError::InvalidTopology,
    {
        let mut i: usize = 0;
        while i < edges.len()
            invariant
                i <= edges.len(),
                endpoints_valid(node_quantity as nat, edges@.take(i as int)),
            decreases edges.len() - i,
        {
            let (a, b) = edges[i];
            if a < 1 || a > node_quantity || b < 1 || b > node_quantity {
                return Err(NetworkError::InvalidTopology);
            }
            assert forall|k: int| 0 <= k < i + 1 implies 1 <= (#[trigger] edges@.take(
                i as int + 1,
            )[k]).0 <= node_quantity && 1 <= edges@.take(i as int + 1)[k].1 <= node_quantity by {
                if k < i {
                    assert(edges@.take(i as int)[k] == edges@[k]);
                }
            }
            i = i + 1;
        }
        assert(edges@.take(i as int) == edges@);
        let net = Network::build(kind, node_quantity, &edges, 0);
        proof {
            use_type_invariant(&net);
            assert(net.links.len() <= usize::MAX);
            assert(net.adjacency.len() <= usize::MAX);
        }
        Ok(net)
    }

    /// Gives links their capacities. Every entry is a link number and the
    /// capacity that the link is to have; of two entries for one link the
    /// later counts, and a link without an entry keeps what it had. Where
    /// an entry names a link that the network does not have, nothing
    /// changes and the call fails with `InvalidTopology`.
    pub fn set_capacities(&mut self, capacities: &Vec<(usize, u64)>) -> (r: Result<
        (),
        NetworkError,
    >)
        ensures
            r is Ok <==> entries_valid(old(self)@.links.len(), capacities@),
            r is Ok ==> final(self)@ == (NetworkView {
                kind: old(self)@.kind,
                node_quantity: old(self)@.node_quantity,
                links: with_capacities(old(self)@.links, capacities@),
            }),
            r matches Err(e) ==> e == NetworkError::InvalidTopology && final(self)@ == old(self)@,
            final(self)@.wf(),
    {
        proof {
            use_type_invariant(&*self);
            assert(self.links.len() <= usize::MAX);
            assert(self.adjacency.len() <= usize::MAX);
        }
        let ghost before = self.links@;
        let mut i: usize = 0;
        while i < capacities.len()
            invariant
                i <= capacities.len(),
                self.links@ == before,
                *self == *old(self),
                self@.wf(),
                entries_valid(before.len(), capacities@.take(i as int)),
            decreases capacities.len() - i,
        {
            if capacities[i].0 >= self.links.len() {
                return Err(NetworkError::InvalidTopology);
            }
            assert forall|k: int| 0 <= k < i + 1 implies (#[trigger] capacities@.take(
                i as int + 1,
            )[k]).0 < before.len() by {
                if k < i {
                    assert(capacities@.take(i as int)[k] == capacities@[k]);
                }
            }
            i = i + 1;
        }
        assert(capacities@.take(i as int) == capacities@);
        assert(self.links@ =~= with_capacities(before, capacities@.take(0)));
        let mut i: usize = 0;
        while i < capacities.len()
            invariant
                i <= capacities.len(),
                self.kind == old(self).kind,
                self.node_quantity == old(self).node_quantity,
                before == old(self).links@,
                entries_valid(before.len(), capacities@),
                self.links@ == with_capacities(before, capacities@.take(i as int)),
            decreases capacities.len() - i,
        {
            let (l, capacity) = capacities[i];
            let link: Link = self.links[l];
            proof {
                use_type_invariant(&*self);
                let now = self.links@;
                let next = now.update(l as int, Link { from: link.from, to: link.to, capacity });
                assert forall|v: int| 0 <= v <= self.node_quantity implies out_links(next, v)
                    == out_links(now, v) by {
                    lemma_out_links_by_from(next, now, v);
                }
                let short = capacities@.take(i as int);
                let long = capacities@.take(i as int + 1);
                assert(long.drop_last() == short);
                assert(long.last() == capacities@[i as int]);
                assert(next =~= with_capacities(before, long));
            }
            store(&mut self.links, l, Link { from: link.from, to: link.to, capacity });
            i = i + 1;
        }
        assert(capacities@.take(i as int) == capacities@);
        Ok(())
    }

    /// The links that leave `node`, each with the node it leads to, in
    /// insertion order. A number that names no node has no neighbours.
    pub fn neighbors(&self, node: usize) -> (r: Vec<(usize, usize)>)
        ensures
            self@.wf(),
            r@ == self@.neighbors(node as int),
    {
        proof {
            use_type_invariant(self);
            assert(self.links.len() <= usize::MAX);
            assert(self.adjacency.len() <= usize::MAX);
            lemma_out_links(self.links@, node as int);
        }
        let mut out: Vec<(usize, usize)> = Vec::new();
        if node < self.adjacency.len() {
            let mut k: usize = 0;
            while k < self.adjacency[node].len()
                invariant
                    self.well_formed(),
                    node < self.adjacency.len(),
                    k <= self.adjacency[node as int].len(),
                    out.len() == k,
                    forall|j: int|
                        0 <= j < k ==> #[trigger] out[j] == self@.neighbors(node as int)[j],
                decreases self.adjacency[node as int].len() - k,
            {
                let l: usize = self.adjacency[node][k];
                proof {
                    assert(self.links.len() <= usize::MAX);
                    lemma_out_links(self.links@, node as int);
                    assert(out_links(self.links@, node as int)[k as int] == l);
                }
                out.push((l, self.links[l].to));
                k = k + 1;
            }
            assert(out@ =~= self@.neighbors(node as int));
        } else {
            proof {
                let leaving = out_links(self.links@, node as int);
                if leaving.len() > 0 {
                    assert(self.links@[leaving[0] as int].from == node);
                }
                assert(out@ =~= self@.neighbors(node as int));
            }
        }
        out
    }

    /// Whether an edge stands for one link or for two.
    pub fn kind(&self) -> (r: Kind)
        ensures
            r == self@.kind,
    {
        self.kind
    }

    /// The number of nodes.
    pub fn node_quantity(&self) -> (r: usize)
        ensures
            r == self@.node_quantity,
    {
        self.node_quantity
    }

    /// The number of links.
    pub fn link_count(&self) -> (r: usize)
        ensures
            r == self@.links.len(),
    {
        self.links.len()
    }

    /// Link number `l`, if the network has one.
    pub fn link(&self, l: usize) -> (r: Option<Link>)
        ensures
            r == if l < self@.links.len() {
                Some(self@.links[l as int])
            } else {
                None
            },
    {
        if l < self.links.len() {
            Some(self.links[l])
        } else {
            None
        }
    }
}

/// The edges of the default network: a grid of four rows of five nodes,
/// closed into a ring around its border.
pub open spec fn default_edges() -> Seq<(usize, usize)> {
    seq![
        (1usize, 2usize),
        (2usize, 3usize),
        (3usize, 4usize),
        (4usize, 5usize),
        (5usize, 10usize),
        (10usize, 15usize),
        (15usize, 20usize),
        (20usize, 19usize),
        (19usize, 18usize),
        (18usize, 17usize),
        (17usize, 16usize),
        (16usize, 11usize),
        (11usize, 6usize),
        (6usize, 1usize),
        (10usize, 9usize),
        (9usize, 8usize),
        (8usize, 7usize),
        (7usize, 6usize),
        (15usize, 14usize),
        (14usize, 13usize),
        (13usize, 12usize),
        (12usize, 11usize),
        (3usize, 8usize),
        (8usize, 13usize),
        (13usize, 18usize),
    ]
}

impl Default for Network {
    /// Twenty nodes joined by twenty-five duplex edges, every link with
    /// capacity 255.
    fn default() -> (net: Network)
        ensures
            net@ == (NetworkView {
                kind: Kind::Duplex,
                node_quantity: 20,
                links: links_of(Kind::Duplex, default_edges(), 255),
            }),
            net@.wf(),
    {
        let edges: Vec<(usize, usize)> = vec![
            (1, 2),
            (2, 3),
            (3, 4),
            (4, 5),
            (5, 10),
            (10, 15),
            (15, 20),
            (20, 19),
            (19, 18),
            (18, 17),
            (17, 16),
            (16, 11),
            (11, 6),
            (6, 1),
            (10, 9),
            (9, 8),
            (8, 7),
            (7, 6),
            (15, 14),
            (14, 13),
            (13, 12),
            (12, 11),
            (3, 8),
            (8, 13),
            (13, 18),
        ];
        assert(edges@ =~= default_edges());
        let net = Network::build(Kind::Duplex, 20, &edges, 255);
        proof {
            use_type_invariant(&net);
            assert(net.links.len() <= usize::MAX);
            assert(net.adjacency.len() <= usize::MAX);
        }
        net
    }
}

} // verus!
