use std::collections::HashSet;

use vstd::prelude::*;

use crate::graph::{Network, NodeId};
use crate::weight::Weight;

verus! {

broadcast use {vstd::std_specs::hash::group_hash_axioms, vstd::seq_lib::group_seq_properties};

/// The number of entries of `adj` whose target satisfies `pred`.
pub open spec fn count_entries<W>(adj: Seq<(NodeId, W)>, pred: spec_fn(NodeId) -> bool) -> nat
    decreases adj.len(),
{
    if adj.len() == 0 {
        0
    } else {
        count_entries(adj.drop_last(), pred) + if pred(adj.last().0) {
            1nat
        } else {
            0nat
        }
    }
}

/// Entries from `u` to a member of `set` that is not below `u`: each
/// internal undirected edge is counted from its smaller end.
pub open spec fn internal_from(set: Set<NodeId>, u: NodeId) -> spec_fn(NodeId) -> bool {
    |v: NodeId| set.contains(v) && u <= v
}

/// Entries to nodes outside `set`.
pub open spec fn external_to(set: Set<NodeId>) -> spec_fn(NodeId) -> bool {
    |v: NodeId| !set.contains(v)
}

/// Summed over the listed nodes (with repetition): the adjacency entries
/// (`total`), those inside the set counted from their smaller end
/// (`internal`), and those leaving the set (`external`).
pub open spec fn edge_statistics_spec<W: Weight>(
    network: Network<W>,
    nodes: Seq<NodeId>,
    set: Set<NodeId>,
) -> (nat, nat, nat)
    decreases nodes.len(),
{
    if nodes.len() == 0 {
        (0, 0, 0)
    } else {
        let prev = edge_statistics_spec(network, nodes.drop_last(), set);
        let u = nodes.last();
        let adj = network.adjacency(u);
        (
            prev.0 + count_entries(adj, internal_from(set, u)),
            prev.1 + count_entries(adj, external_to(set)),
            prev.2 + adj.len(),
        )
    }
}

proof fn lemma_count_entries_bound<W>(adj: Seq<(NodeId, W)>, p: spec_fn(NodeId) -> bool, q: spec_fn(NodeId) -> bool)
    requires
        forall|v: NodeId| #[trigger] p(v) ==> !q(v),
    ensures
        count_entries(adj, p) + count_entries(adj, q) <= adj.len(),
    decreases adj.len(),
{
    if adj.len() > 0 {
        lemma_count_entries_bound(adj.drop_last(), p, q);
    }
}

proof fn lemma_statistics_bound<W: Weight>(network: Network<W>, nodes: Seq<NodeId>, set: Set<NodeId>)
    ensures
        edge_statistics_spec(network, nodes, set).0 + edge_statistics_spec(network, nodes, set).1
            <= edge_statistics_spec(network, nodes, set).2,
    decreases nodes.len(),
{
    if nodes.len() > 0 {
        lemma_statistics_bound(network, nodes.drop_last(), set);
        let u = nodes.last();
        lemma_count_entries_bound(network.adjacency(u), internal_from(set, u), external_to(set));
    }
}

/// The internal edges (each counted once, from its smaller end), the edges
/// leaving the module and the total degree of the module made of `nodes`.
pub fn calculate_edge_statistics<W: Weight>(network: &Network<W>, nodes: &[NodeId]) -> (r: (
    usize,
    usize,
    usize,
))
    requires
        network.wf(),
        edge_statistics_spec(*network, nodes@, nodes@.to_set()).2 <= usize::MAX,
    ensures
        (r.0 as nat, r.1 as nat, r.2 as nat) == edge_statistics_spec(
            *network,
            nodes@,
            nodes@.to_set(),
        ),
{
    let mut node_set: HashSet<NodeId> = HashSet::new();
    let mut i: usize = 0;
    while i < nodes.len()
        invariant
            i <= nodes@.len(),
            node_set@ == nodes@.take(i as int).to_set(),
        decreases nodes@.len() - i,
    {
        proof {
            assert(nodes@.take(i + 1) =~= nodes@.take(i as int).push(nodes@[i as int]));
            nodes@.take(i as int).lemma_push_to_set_commute(nodes@[i as int]);
        }
        node_set.insert(nodes[i]);
        i = i + 1;
    }
    proof {
        assert(nodes@.take(nodes@.len() as int) =~= nodes@);
    }
    let ghost set = nodes@.to_set();
    let mut internal_edges: usize = 0;
    let mut external_edges: usize = 0;
    let mut total_degree: usize = 0;
    let mut j: usize = 0;
    while j < nodes.len()
        invariant
            network.wf(),
            node_set@ == set,
            j <= nodes@.len(),
            edge_statistics_spec(*network, nodes@, set).2 <= usize::MAX,
            (internal_edges as nat, external_edges as nat, total_degree as nat)
                == edge_statistics_spec(*network, nodes@.take(j as int), set),
        decreases nodes@.len() - j,
    {
        let node = nodes[j];
        let ghost prefix = nodes@.take(j as int);
        proof {
            assert(nodes@.take(j + 1).drop_last() =~= prefix);
            lemma_statistics_prefix(*network, nodes@, set, j + 1);
            lemma_statistics_bound(*network, prefix, set);
            assert(nodes@.take(j + 1).last() == node);
        }
        if let Some(neighbors) = network.neighbors(node) {
            total_degree = total_degree + neighbors.len();
            let ghost adj = neighbors@;
            let mut k: usize = 0;
            while k < neighbors.len()
                invariant
                    node_set@ == set,
                    k <= adj.len(),
                    adj == neighbors@,
                    internal_edges as nat == edge_statistics_spec(*network, prefix, set).0
                        + count_entries(adj.take(k as int), internal_from(set, node)),
                    external_edges as nat == edge_statistics_spec(*network, prefix, set).1
                        + count_entries(adj.take(k as int), external_to(set)),
                    edge_statistics_spec(*network, prefix, set).0 + edge_statistics_spec(
                        *network,
                        prefix,
                        set,
                    ).1 + adj.len() <= usize::MAX,
                decreases adj.len() - k,
            {
                proof {
                    assert(adj.take(k + 1).drop_last() =~= adj.take(k as int));
                    lemma_count_entries_bound(
                        adj.take(k as int),
                        internal_from(set, node),
                        external_to(set),
                    );
                }
                let (neighbor, _weight) = neighbors[k];
                if node_set.contains(&neighbor) {
                    if node <= neighbor {
                        internal_edges = internal_edges + 1;
                    }
                } else {
                    external_edges = external_edges + 1;
                }
                k = k + 1;
            }
            proof {
                assert(adj.take(adj.len() as int) =~= adj);
            }
        } else {
            proof {
                assert(network.adjacency(node) =~= Seq::empty());
            }
        }
        j = j + 1;
    }
    proof {
        assert(nodes@.take(nodes@.len() as int) =~= nodes@);
    }
    (internal_edges, external_edges, total_degree)
}

/// The totals only grow along the node list.
proof fn lemma_statistics_prefix<W: Weight>(network: Network<W>, nodes: Seq<NodeId>, set: Set<NodeId>, j: int)
    requires
        0 <= j <= nodes.len(),
    ensures
        edge_statistics_spec(network, nodes.take(j), set).2 <= edge_statistics_spec(
            network,
            nodes,
            set,
        ).2,
    decreases nodes.len() - j,
{
    if j < nodes.len() {
        lemma_statistics_prefix(network, nodes, set, j + 1);
        assert(nodes.take(j + 1).drop_last() =~= nodes.take(j));
    } else {
        assert(nodes.take(j) =~= nodes);
    }
}

} // verus!
