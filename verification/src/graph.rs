use std::collections::HashMap;
use std::collections::HashSet;

use vstd::prelude::*;
use vstd::std_specs::iter::IteratorSpec;

use crate::weight::{
    arithmetic_obeys, order_obeys, weight_add, weight_le, weight_ops_total, zero_spec, zero_weight,
    Weight,
};
use vstd::std_specs::ops::AddSpec;

verus! {

broadcast use vstd::std_specs::hash::group_hash_axioms;

pub type NodeId = usize;

/// One edge as it was added to a network.
#[derive(Debug, Clone, Copy)]
pub struct Edge<W> {
    pub from: NodeId,
    pub to: NodeId,
    pub weight: W,
}

/// What one edge adds to the adjacency list of node `u`: the edge is listed
/// at its source, and in an undirected network also at its target unless it
/// is a self-loop.
pub open spec fn edge_entries<W>(e: Edge<W>, directed: bool, u: NodeId) -> Seq<(NodeId, W)> {
    if e.from == u {
        seq![(e.to, e.weight)]
    } else if !directed && e.to == u {
        seq![(e.from, e.weight)]
    } else {
        Seq::empty()
    }
}

/// The adjacency list of `u` after adding `edges` in order.
pub open spec fn adjacency_of<W>(edges: Seq<Edge<W>>, directed: bool, u: NodeId) -> Seq<
    (NodeId, W),
>
    decreases edges.len(),
{
    if edges.len() == 0 {
        Seq::empty()
    } else {
        adjacency_of(edges.drop_last(), directed, u) + edge_entries(edges.last(), directed, u)
    }
}

/// The nodes that some edge of `edges` touches.
pub open spec fn endpoints<W>(edges: Seq<Edge<W>>) -> Set<NodeId>
    decreases edges.len(),
{
    if edges.len() == 0 {
        Set::empty()
    } else {
        endpoints(edges.drop_last()).insert(edges.last().from).insert(edges.last().to)
    }
}

/// The number of adjacency entries that `edges` create: one per edge in a
/// directed network; in an undirected one two per edge, one per self-loop.
pub open spec fn entry_count<W>(edges: Seq<Edge<W>>, directed: bool) -> nat
    decreases edges.len(),
{
    if edges.len() == 0 {
        0
    } else {
        entry_count(edges.drop_last(), directed) + if directed || edges.last().from
            == edges.last().to {
            1nat
        } else {
            2nat
        }
    }
}

/// The number of self-loops among `edges`.
pub open spec fn self_loop_count<W>(edges: Seq<Edge<W>>) -> nat
    decreases edges.len(),
{
    if edges.len() == 0 {
        0
    } else {
        self_loop_count(edges.drop_last()) + if edges.last().from == edges.last().to {
            1nat
        } else {
            0nat
        }
    }
}

/// The edge count that a network reports: its adjacency entries, halved
/// (rounding down) when the network is undirected.
pub open spec fn reported_edge_count<W>(edges: Seq<Edge<W>>, directed: bool) -> nat {
    if directed {
        entry_count(edges, directed)
    } else {
        entry_count(edges, directed) / 2
    }
}

/// The edges of `edges` whose two endpoints are both in `keep`, in order.
pub open spec fn induced_edges<W>(edges: Seq<Edge<W>>, keep: Set<NodeId>) -> Seq<Edge<W>>
    decreases edges.len(),
{
    if edges.len() == 0 {
        Seq::empty()
    } else {
        let prev = induced_edges(edges.drop_last(), keep);
        let e = edges.last();
        if keep.contains(e.from) && keep.contains(e.to) {
            prev.push(e)
        } else {
            prev
        }
    }
}

/// The sum of the weights of `edges`, added in order to the zero weight.
pub open spec fn edge_weight_total<W: Weight>(edges: Seq<Edge<W>>) -> W
    decreases edges.len(),
{
    if edges.len() == 0 {
        zero_spec::<W>()
    } else {
        edge_weight_total(edges.drop_last()).add_spec(edges.last().weight)
    }
}

/// The sum of the weights in the adjacency entries `adj`, added in order to
/// the zero weight.
pub open spec fn entry_weight_total<W: Weight>(adj: Seq<(NodeId, W)>) -> W
    decreases adj.len(),
{
    if adj.len() == 0 {
        zero_spec::<W>()
    } else {
        entry_weight_total(adj.drop_last()).add_spec(adj.last().1)
    }
}

/// `acc` with the weights of the entries of `adj` whose node satisfies
/// `keep` added to it, in order.
pub open spec fn add_entries<W: Weight>(
    acc: W,
    adj: Seq<(NodeId, W)>,
    keep: spec_fn(NodeId) -> bool,
) -> W
    decreases adj.len(),
{
    if adj.len() == 0 {
        acc
    } else {
        let prev = add_entries(acc, adj.drop_last(), keep);
        if keep(adj.last().0) {
            prev.add_spec(adj.last().1)
        } else {
            prev
        }
    }
}

/// The weights of the adjacency entries of the nodes `from`, taken node by
/// node and entry by entry, whose node satisfies `keep`, added in that
/// order to the zero weight.
pub open spec fn weight_into<W: Weight>(
    network: Network<W>,
    from: Seq<NodeId>,
    keep: spec_fn(NodeId) -> bool,
) -> W
    decreases from.len(),
{
    if from.len() == 0 {
        zero_spec::<W>()
    } else {
        add_entries(weight_into(network, from.drop_last(), keep), network.adjacency(from.last()), keep)
    }
}

/// The weighted degrees of `nodes`, added in order to the zero weight.
pub open spec fn degree_total<W: Weight>(network: Network<W>, nodes: Seq<NodeId>) -> W
    decreases nodes.len(),
{
    if nodes.len() == 0 {
        zero_spec::<W>()
    } else {
        degree_total(network, nodes.drop_last()).add_spec(
            entry_weight_total(network.adjacency(nodes.last())),
        )
    }
}

/// Being one of the entries of `s`.
pub open spec fn member_of(s: Seq<NodeId>) -> spec_fn(NodeId) -> bool {
    |n: NodeId| s.contains(n)
}

pub proof fn lemma_endpoints_finite<W>(edges: Seq<Edge<W>>)
    ensures
        endpoints(edges).finite(),
    decreases edges.len(),
{
    if edges.len() > 0 {
        lemma_endpoints_finite(edges.drop_last());
    }
}

pub proof fn lemma_entry_count<W>(edges: Seq<Edge<W>>, directed: bool)
    ensures
        self_loop_count(edges) <= edges.len(),
        directed ==> entry_count(edges, directed) == edges.len(),
        !directed ==> entry_count(edges, directed) == 2 * edges.len() - self_loop_count(edges),
    decreases edges.len(),
{
    if edges.len() > 0 {
        lemma_entry_count(edges.drop_last(), directed);
    }
}

/// The number of entries of `adj` that lead to `v`.
pub open spec fn neighbor_count<W>(adj: Seq<(NodeId, W)>, v: NodeId) -> nat
    decreases adj.len(),
{
    if adj.len() == 0 {
        0
    } else {
        neighbor_count(adj.drop_last(), v) + if adj.last().0 == v {
            1nat
        } else {
            0nat
        }
    }
}

proof fn lemma_neighbor_count_append<W>(a: Seq<(NodeId, W)>, b: Seq<(NodeId, W)>, v: NodeId)
    ensures
        neighbor_count(a + b, v) == neighbor_count(a, v) + neighbor_count(b, v),
    decreases b.len(),
{
    if b.len() > 0 {
        lemma_neighbor_count_append(a, b.drop_last(), v);
        assert((a + b).drop_last() =~= a + b.drop_last());
    } else {
        assert(a + b =~= a);
    }
}

/// Law: in an undirected network, `u` lists `v` exactly as often as `v`
/// lists `u`.
pub proof fn lemma_undirected_symmetry<W>(edges: Seq<Edge<W>>, u: NodeId, v: NodeId)
    ensures
        neighbor_count(adjacency_of(edges, false, u), v) == neighbor_count(
            adjacency_of(edges, false, v),
            u,
        ),
    decreases edges.len(),
{
    if edges.len() > 0 {
        let prev = edges.drop_last();
        let e = edges.last();
        lemma_undirected_symmetry(prev, u, v);
        lemma_neighbor_count_append(adjacency_of(prev, false, u), edge_entries(e, false, u), v);
        lemma_neighbor_count_append(adjacency_of(prev, false, v), edge_entries(e, false, v), u);
        reveal_with_fuel(neighbor_count, 2);
    }
}

/// Law: an undirected network without self-loops reports as many edges as
/// were added to it.
pub proof fn lemma_undirected_edge_count<W>(edges: Seq<Edge<W>>)
    requires
        forall|k: int| 0 <= k < edges.len() ==> #[trigger] edges[k].from != edges[k].to,
    ensures
        reported_edge_count(edges, false) == edges.len(),
{
    lemma_entry_count(edges, false);
    lemma_no_self_loops(edges);
}

proof fn lemma_no_self_loops<W>(edges: Seq<Edge<W>>)
    requires
        forall|k: int| 0 <= k < edges.len() ==> #[trigger] edges[k].from != edges[k].to,
    ensures
        self_loop_count(edges) == 0,
    decreases edges.len(),
{
    if edges.len() > 0 {
        let prev = edges.drop_last();
        assert forall|k: int| 0 <= k < prev.len() implies #[trigger] prev[k].from != prev[k].to by {
            assert(prev[k] == edges[k]);
        }
        lemma_no_self_loops(prev);
        assert(edges[edges.len() - 1].from != edges[edges.len() - 1].to);
    }
}

/// Law: every edge of the subgraph induced by `keep` has both endpoints in
/// `keep`, so the subgraph's nodes are among `keep`; and every edge with
/// both endpoints in `keep` is kept.
pub proof fn lemma_induced_edges_inside<W>(edges: Seq<Edge<W>>, keep: Set<NodeId>)
    ensures
        forall|k: int|
            0 <= k < induced_edges(edges, keep).len() ==> keep.contains(
                #[trigger] induced_edges(edges, keep)[k].from,
            ) && keep.contains(induced_edges(edges, keep)[k].to) && edges.contains(
                induced_edges(edges, keep)[k],
            ),
        endpoints(induced_edges(edges, keep)).subset_of(keep),
        forall|k: int|
            0 <= k < edges.len() && keep.contains(#[trigger] edges[k].from) && keep.contains(
                edges[k].to,
            ) ==> induced_edges(edges, keep).contains(edges[k]),
    decreases edges.len(),
{
    if edges.len() > 0 {
        let prev = edges.drop_last();
        lemma_induced_edges_inside(prev, keep);
        let r = induced_edges(edges, keep);
        let pr = induced_edges(prev, keep);
        let e = edges.last();
        assert forall|k: int| 0 <= k < r.len() implies keep.contains(#[trigger] r[k].from)
            && keep.contains(r[k].to) && edges.contains(r[k]) by {
            if k < pr.len() {
                assert(r[k] == pr[k]);
                assert(keep.contains(pr[k].from));
                let j = choose|j: int| 0 <= j < prev.len() && prev[j] == pr[k];
                assert(edges[j] == prev[j]);
            } else {
                assert(r[k] == e);
                assert(edges[edges.len() - 1] == e);
            }
        }
        assert forall|n: NodeId| endpoints(r).contains(n) implies keep.contains(n) by {
            if keep.contains(e.from) && keep.contains(e.to) {
                assert(r == pr.push(e));
                assert(pr.push(e).drop_last() =~= pr);
            }
        }
        assert forall|k: int|
            0 <= k < edges.len() && keep.contains(#[trigger] edges[k].from) && keep.contains(
                edges[k].to,
            ) implies r.contains(edges[k]) by {
            if k < prev.len() {
                assert(prev[k] == edges[k]);
                let j = choose|j: int| 0 <= j < pr.len() && pr[j] == prev[k];
                assert(r[j] == pr[j]);
            } else {
                assert(r[pr.len() as int] == e);
            }
        }
    }
}

/// Law: the subgraph induced by a superset of the nodes keeps every edge, in
/// order.
pub proof fn lemma_induced_by_all_nodes<W>(edges: Seq<Edge<W>>, keep: Set<NodeId>)
    requires
        endpoints(edges).subset_of(keep),
    ensures
        induced_edges(edges, keep) == edges,
    decreases edges.len(),
{
    if edges.len() > 0 {
        let prev = edges.drop_last();
        assert(endpoints(prev).subset_of(keep)) by {
            assert forall|n: NodeId| endpoints(prev).contains(n) implies keep.contains(n) by {
                assert(endpoints(edges).contains(n));
            }
        }
        lemma_induced_by_all_nodes(prev, keep);
        assert(endpoints(edges).contains(edges.last().from));
        assert(endpoints(edges).contains(edges.last().to));
        assert(prev.push(edges.last()) =~= edges);
    }
}

/// A weighted network, directed or not.
///
/// Its model is the sequence of edges added to it (`edge_log`): the node set,
/// the adjacency lists and the counts are functions of that sequence.
#[derive(Debug)]
pub struct Network<W> {
    nodes: HashSet<NodeId>,
    adjacency: HashMap<NodeId, Vec<(NodeId, W)>>,
    edges: Vec<Edge<W>>,
    self_loops: usize,
    directed: bool,
    total_weight: W,
}

impl<W: Weight> Network<W> {
    /// The edges added to the network, in order.
    pub closed spec fn edge_log(&self) -> Seq<Edge<W>> {
        self.edges@
    }

    pub closed spec fn spec_is_directed(&self) -> bool {
        self.directed
    }

    /// The node set of the network.
    pub open spec fn node_set(&self) -> Set<NodeId> {
        endpoints(self.edge_log())
    }

    /// The adjacency list of `u`.
    pub open spec fn adjacency(&self, u: NodeId) -> Seq<(NodeId, W)> {
        adjacency_of(self.edge_log(), self.spec_is_directed(), u)
    }

    /// The structure agrees with the edge log.
    pub closed spec fn wf(&self) -> bool {
        &&& self.nodes@ == endpoints(self.edges@)
        &&& forall|u: NodeId|
            #![trigger self.adjacency@.contains_key(u)]
            #![trigger adjacency_of(self.edges@, self.directed, u)]
            {
                &&& self.adjacency@.contains_key(u) <==> adjacency_of(
                    self.edges@,
                    self.directed,
                    u,
                ).len() > 0
                &&& self.adjacency@.contains_key(u) ==> self.adjacency@[u]@ == adjacency_of(
                    self.edges@,
                    self.directed,
                    u,
                )
            }
        &&& self.self_loops == self_loop_count(self.edges@)
        &&& arithmetic_obeys::<W>() ==> self.total_weight == edge_weight_total(self.edges@)
        &&& weight_ops_total::<W>()
    }

    /// A well-formed network's weight type has total operators.
    pub proof fn lemma_ops_total(&self)
        requires
            self.wf(),
        ensures
            weight_ops_total::<W>(),
    {
    }

    /// An empty network.
    pub fn new(directed: bool) -> (r: Self)
        requires
            weight_ops_total::<W>(),
        ensures
            r.wf(),
            r.edge_log() == Seq::<Edge<W>>::empty(),
            r.spec_is_directed() == directed,
    {
        Network {
            nodes: HashSet::new(),
            adjacency: HashMap::new(),
            edges: Vec::new(),
            self_loops: 0,
            directed,
            total_weight: zero_weight(),
        }
    }

    /// The number of nodes.
    pub fn node_count(&self) -> (r: usize)
        requires
            self.wf(),
        ensures
            r == self.node_set().len(),
    {
        self.nodes.len()
    }

    /// The number of edges: the adjacency entries, halved in an undirected
    /// network.
    pub fn edge_count(&self) -> (r: usize)
        requires
            self.wf(),
        ensures
            r == reported_edge_count(self.edge_log(), self.spec_is_directed()),
    {
        proof {
            lemma_entry_count(self.edges@, self.directed);
        }
        let n = self.edges.len();
        if self.directed {
            n
        } else {
            // (2n - loops) / 2 == n - loops / 2 - loops % 2
            let half = self.self_loops / 2;
            let odd = self.self_loops % 2;
            n - half - odd
        }
    }

    pub fn is_directed(&self) -> (r: bool)
        ensures
            r == self.spec_is_directed(),
    {
        self.directed
    }

    /// The sum of the weights of all added edges, accumulated with `W`'s `+`
    /// in the order the edges were added.
    pub fn total_weight(&self) -> (r: W)
        requires
            self.wf(),
        ensures
            arithmetic_obeys::<W>() ==> r == edge_weight_total(self.edge_log()),
    {
        self.total_weight
    }

    /// The nodes, each once, in no particular order.
    pub fn nodes(&self) -> (r: Vec<NodeId>)
        requires
            self.wf(),
        ensures
            r@.to_set() == self.node_set(),
            r@.no_duplicates(),
    {
        let mut out: Vec<NodeId> = Vec::new();
        let ghost keys = self.nodes.iter().remaining();
        for n in it: self.nodes.iter()
            invariant
                it.seq() == keys,
                out@.len() == it.index(),
                forall|k: int| 0 <= k < it.index() ==> out@[k] == *it.seq()[k],
        {
            out.push(*n);
        }
        proof {
            assert(out@ =~= keys.unref());
        }
        out
    }

    /// The adjacency list of `node`, or `None` where it has none.
    pub fn neighbors(&self, node: NodeId) -> (r: Option<&[(NodeId, W)]>)
        requires
            self.wf(),
        ensures
            match r {
                Some(s) => s@ == self.adjacency(node) && s@.len() > 0,
                None => self.adjacency(node).len() == 0,
            },
    {
        match self.adjacency.get(&node) {
            Some(v) => Some(v.as_slice()),
            None => None,
        }
    }

    /// The number of adjacency entries of `node`.
    pub fn degree(&self, node: NodeId) -> (r: usize)
        requires
            self.wf(),
        ensures
            r == self.adjacency(node).len(),
    {
        match self.adjacency.get(&node) {
            Some(v) => v.len(),
            None => 0,
        }
    }

    /// The sum of the weights in the adjacency list of `node`, accumulated
    /// with `W`'s `+` from the zero weight; the zero weight where `node` has
    /// no adjacency list.
    pub fn weighted_degree(&self, node: NodeId) -> (r: W)
        requires
            self.wf(),
        ensures
            arithmetic_obeys::<W>() ==> r == entry_weight_total(self.adjacency(node)),
    {
        match self.adjacency.get(&node) {
            Some(list) => {
                let mut sum = zero_weight();
                let mut i: usize = 0;
                while i < list.len()
                    invariant
                        i <= list@.len(),
                        weight_ops_total::<W>(),
                        arithmetic_obeys::<W>() ==> sum == entry_weight_total(list@.take(i as int)),
                    decreases list.len() - i,
                {
                    proof {
                        assert(list@.take(i + 1).drop_last() =~= list@.take(i as int));
                    }
                    sum = weight_add(sum, list[i].1);
                    i = i + 1;
                }
                proof {
                    assert(list@.take(list@.len() as int) =~= list@);
                }
                sum
            },
            None => zero_weight(),
        }
    }

    /// The network induced by the given nodes: every edge whose two
    /// endpoints are both listed, each once, in the order edges were added.
    pub fn subgraph(&self, nodes: &[NodeId]) -> (r: Network<W>)
        requires
            self.wf(),
        ensures
            r.wf(),
            r.spec_is_directed() == self.spec_is_directed(),
            r.edge_log() == induced_edges(self.edge_log(), nodes@.to_set()),
            r.node_set().subset_of(nodes@.to_set()),
            forall|e: Edge<W>|
                #[trigger] r.edge_log().contains(e) ==> nodes@.contains(e.from) && nodes@.contains(
                    e.to,
                ),
    {
        let mut keep: HashSet<NodeId> = HashSet::new();
        let mut i: usize = 0;
        while i < nodes.len()
            invariant
                i <= nodes.len(),
                keep@ == nodes@.take(i as int).to_set(),
            decreases nodes.len() - i,
        {
            proof {
                assert(nodes@.take(i + 1) =~= nodes@.take(i as int).push(nodes@[i as int]));
                nodes@.take(i as int).lemma_push_to_set_commute(nodes@[i as int]);
            }
            keep.insert(nodes[i]);
            i = i + 1;
        }
        proof {
            assert(nodes@.take(nodes.len() as int) =~= nodes@);
        }
        let ghost keep_set = nodes@.to_set();
        let mut sub: Network<W> = Network::new(self.directed);
        let mut j: usize = 0;
        while j < self.edges.len()
            invariant
                self.wf(),
                j <= self.edges@.len(),
                keep@ == keep_set,
                sub.wf(),
                sub.directed == self.directed,
                sub.edges@ == induced_edges(self.edges@.take(j as int), keep_set),
            decreases self.edges@.len() - j,
        {
            let e = self.edges[j];
            proof {
                assert(self.edges@.take(j + 1).drop_last() =~= self.edges@.take(j as int));
            }
            if keep.contains(&e.from) && keep.contains(&e.to) {
                sub.add_edge_internal(e.from, e.to, e.weight);
            }
            j = j + 1;
        }
        proof {
            assert(self.edges@.take(self.edges@.len() as int) =~= self.edges@);
            lemma_induced_edges_inside(self.edges@, keep_set);
            assert forall|e: Edge<W>| #[trigger] sub.edge_log().contains(e) implies nodes@.contains(
                e.from,
            ) && nodes@.contains(e.to) by {
                let ie = induced_edges(self.edges@, keep_set);
                assert(sub.edge_log() == ie);
                let k = choose|k: int| 0 <= k < ie.len() && ie[k] == e;
                assert(keep_set.contains(ie[k].from));
                assert(keep_set.contains(ie[k].to));
            }
        }
        sub
    }

    /// Adds one edge: both endpoints join the node set, the edge is listed at
    /// its source and, in an undirected network, at its target unless it is a
    /// self-loop; its weight is added to the total.
    pub(crate) fn add_edge_internal(&mut self, from: NodeId, to: NodeId, weight: W)
        requires
            old(self).wf(),
        ensures
            final(self).wf(),
            final(self).spec_is_directed() == old(self).spec_is_directed(),
            final(self).edge_log() == old(self).edge_log().push(Edge { from, to, weight }),
    {
        let ghost old_edges = self.edges@;
        let ghost old_adj = self.adjacency@;
        let e = Edge { from, to, weight };
        let ghost new_edges = old_edges.push(e);
        proof {
            assert(new_edges.drop_last() =~= old_edges);
            lemma_entry_count(old_edges, self.directed);
        }
        self.nodes.insert(from);
        self.nodes.insert(to);
        let mut list = match self.adjacency.remove(&from) {
            Some(l) => l,
            None => Vec::new(),
        };
        list.push((to, weight));
        self.adjacency.insert(from, list);
        if !self.directed && from != to {
            let mut back = match self.adjacency.remove(&to) {
                Some(l) => l,
                None => Vec::new(),
            };
            back.push((from, weight));
            self.adjacency.insert(to, back);
        }
        self.total_weight = weight_add(self.total_weight, weight);
        self.edges.push(e);
        if from == to {
            assert(self.edges@.len() == self.edges.len());
            self.self_loops = self.self_loops + 1;
        }
        proof {
            assert(self.edges@ == new_edges);
            assert forall|u: NodeId|
                #![trigger self.adjacency@.contains_key(u)]
                #![trigger adjacency_of(self.edges@, self.directed, u)]
                {
                    &&& self.adjacency@.contains_key(u) <==> adjacency_of(
                        self.edges@,
                        self.directed,
                        u,
                    ).len() > 0
                    &&& self.adjacency@.contains_key(u) ==> self.adjacency@[u]@ == adjacency_of(
                        self.edges@,
                        self.directed,
                        u,
                    )
                } by {
                assert(adjacency_of(new_edges, self.directed, u) == adjacency_of(
                    old_edges,
                    self.directed,
                    u,
                ) + edge_entries(e, self.directed, u));
                if u != from && (self.directed || u != to) {
                    assert(edge_entries(e, self.directed, u) =~= Seq::<(NodeId, W)>::empty());
                    assert(adjacency_of(new_edges, self.directed, u) =~= adjacency_of(
                        old_edges,
                        self.directed,
                        u,
                    ));
                    assert(old_adj.contains_key(u) == self.adjacency@.contains_key(u));
                } else {
                    if old_adj.contains_key(u) {
                        assert(old_adj[u]@ == adjacency_of(old_edges, self.directed, u));
                    } else {
                        assert(adjacency_of(old_edges, self.directed, u).len() == 0);
                    }
                }
            }
        }
    }
}

/// Builds a network edge by edge.
pub struct NetworkBuilder<W> {
    network: Network<W>,
}

impl<W: Weight> NetworkBuilder<W> {
    /// The network under construction.
    pub closed spec fn spec_network(&self) -> Network<W> {
        self.network
    }

    pub closed spec fn wf(&self) -> bool {
        self.network.wf()
    }

    /// A builder of an empty network.
    pub fn new(directed: bool) -> (r: Self)
        requires
            weight_ops_total::<W>(),
        ensures
            r.wf(),
            r.spec_network().edge_log() == Seq::<Edge<W>>::empty(),
            r.spec_network().spec_is_directed() == directed,
    {
        NetworkBuilder { network: Network::new(directed) }
    }

    /// Adds the edge `from -> to` unless its weight is `<=` the zero weight
    /// (`W::from(0)`); such edges are skipped.
    pub fn add_edge(&mut self, from: NodeId, to: NodeId, weight: W) -> (r: &mut Self)
        requires
            old(self).wf(),
        ensures
            r.wf(),
            r.spec_network().spec_is_directed() == old(self).spec_network().spec_is_directed(),
            ({
                let before = old(self).spec_network().edge_log();
                let after = r.spec_network().edge_log();
                let added = before.push(Edge { from, to, weight });
                &&& after == before || after == added
                &&& arithmetic_obeys::<W>() && order_obeys::<W>() ==> {
                    &&& weight_le(weight, zero_spec::<W>()) ==> after == before
                    &&& !weight_le(weight, zero_spec::<W>()) ==> after == added
                }
            }),
            *final(self) == *final(r),
    {
        let zero = zero_weight();
        if weight.le(&zero) {
            return self;
        }
        self.network.add_edge_internal(from, to, weight);
        self
    }

    /// The network built so far.
    pub fn build(self) -> (r: Network<W>)
        requires
            self.wf(),
        ensures
            r == self.spec_network(),
            r.wf(),
    {
        self.network
    }
}

} // verus!
