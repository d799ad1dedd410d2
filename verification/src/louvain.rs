use std::collections::HashMap;
use std::collections::HashSet;

use vstd::prelude::*;
use vstd::std_specs::iter::IteratorSpec;

use crate::error::OslomError;
use crate::graph::{
    add_entries, degree_total, edge_weight_total, entry_weight_total, weight_into, Network, NodeId,
};
use vstd::std_specs::ops::{AddSpec, DivSpec, MulSpec, SubSpec};
use crate::modules::{is_member, lemma_filter_no_dup_set, Module, ModuleCollection, ModuleId};
use crate::order::{
    lemma_permutation_no_duplicates, lemma_sorted_permutation, sort_nodes, strictly_sorted,
};
use crate::random::NodeShuffler;
use crate::weight::{
    arithmetic_obeys, modularity_term, order_obeys, weight_add, weight_div, weight_eq, weight_mul,
    weight_gt, weight_of, weight_ops_total, weight_sub, zero_spec, zero_weight, Weight,
};

verus! {

broadcast use {vstd::std_specs::hash::group_hash_axioms, vstd::seq_lib::group_seq_properties};

/// The most optimisation passes that `optimize` runs.
pub const MAX_ITERATIONS: usize = 100;

/// Louvain-style local moving: every node starts in a community of its own
/// and moves to the neighbouring community of best modularity gain until no
/// node moves.
pub struct LouvainOptimizer<'a, W> {
    network: &'a Network<W>,
    node_to_community: HashMap<NodeId, ModuleId>,
    community_weights: HashMap<ModuleId, W>,
    total_weight: W,
}

impl<'a, W: Weight> LouvainOptimizer<'a, W> {
    /// The network being optimised.
    pub closed spec fn spec_network(&self) -> Network<W> {
        *self.network
    }

    /// The community of each node.
    pub closed spec fn assignment(&self) -> Map<NodeId, ModuleId> {
        self.node_to_community@
    }

    /// Every node of the network, and only those, has a community, and every
    /// community in use has a weight entry.
    pub closed spec fn wf(&self) -> bool {
        &&& self.network.wf()
        &&& self.node_to_community@.dom() == self.network.node_set()
        &&& forall|n: NodeId| #[trigger]
            self.node_to_community@.contains_key(n) ==> self.community_weights@.contains_key(
                self.node_to_community@[n],
            )
        &&& arithmetic_obeys::<W>() ==> self.total_weight == edge_weight_total(self.network.edge_log())
        &&& weight_ops_total::<W>()
    }

    /// The weight of each community.
    pub closed spec fn weights(&self) -> Map<ModuleId, W> {
        self.community_weights@
    }

    /// The modularity gain of moving `node` into community `target`.
    spec fn gain_spec(&self, node: NodeId, target: ModuleId) -> W {
        gain_in(self.spec_network(), self.assignment(), self.weights(), node, target)
    }

    /// An optimiser with every node of `network` in a community of its own.
    pub fn new(network: &'a Network<W>) -> (r: Self)
        requires
            network.wf(),
        ensures
            r.wf(),
            r.spec_network() == *network,
            r.assignment().dom() == network.node_set(),
            forall|a: NodeId, b: NodeId|
                r.assignment().contains_key(a) && r.assignment().contains_key(b) && a != b
                    ==> #[trigger] r.assignment()[a] != #[trigger] r.assignment()[b],
            communities_connected(*network, r.assignment()),
            singleton_state(*network, (r.assignment(), r.weights())),
    {
        proof {
            network.lemma_ops_total();
        }
        let nodes = network.nodes();
        let mut node_to_community: HashMap<NodeId, ModuleId> = HashMap::new();
        let mut community_weights: HashMap<ModuleId, W> = HashMap::new();
        let mut i: usize = 0;
        while i < nodes.len()
            invariant
                network.wf(),
                i <= nodes@.len(),
                nodes@.no_duplicates(),
                nodes@.to_set() == network.node_set(),
                node_to_community@.dom() == nodes@.take(i as int).to_set(),
                forall|k: int| 0 <= k < i ==> #[trigger] node_to_community@[nodes@[k]] == k,
                forall|c: ModuleId| #[trigger] community_weights@.contains_key(c) <==> c < i,
                arithmetic_obeys::<W>() ==> forall|k: int|
                    0 <= k < i ==> #[trigger] community_weights@[k as usize] == entry_weight_total(
                        network.adjacency(nodes@[k]),
                    ),
            decreases nodes@.len() - i,
        {
            let node = nodes[i];
            proof {
                assert(nodes@.take(i + 1) =~= nodes@.take(i as int).push(node));
                nodes@.take(i as int).lemma_push_to_set_commute(node);
                assert(!nodes@.take(i as int).contains(node)) by {
                    if nodes@.take(i as int).contains(node) {
                        let k = choose|k: int|
                            0 <= k < i && #[trigger] nodes@.take(i as int)[k] == node;
                        assert(nodes@[k] == nodes@[i as int]);
                    }
                }
            }
            node_to_community.insert(node, i);
            community_weights.insert(i, network.weighted_degree(node));
            i = i + 1;
        }
        proof {
            assert(nodes@.take(nodes@.len() as int) =~= nodes@);
        }
        let r = LouvainOptimizer {
            network,
            node_to_community,
            community_weights,
            total_weight: network.total_weight(),
        };
        proof {
            assert forall|a: NodeId, b: NodeId|
                r.assignment().contains_key(a) && r.assignment().contains_key(b) && a != b
                    implies #[trigger] r.assignment()[a] != #[trigger] r.assignment()[b] by {
                let ka = nodes@.index_of(a);
                let kb = nodes@.index_of(b);
                assert(nodes@.to_set().contains(a));
                assert(nodes@.to_set().contains(b));
                assert(nodes@[ka] == a);
                assert(nodes@[kb] == b);
            }
            assert forall|n: NodeId| #[trigger]
                r.assignment().contains_key(n) implies r.weights().contains_key(r.assignment()[n])
                && (arithmetic_obeys::<W>() ==> r.weights()[r.assignment()[n]] == entry_weight_total(
                network.adjacency(n),
            )) by {
                let k = nodes@.index_of(n);
                assert(nodes@.to_set().contains(n));
                assert(nodes@[k] == n);
                assert(r.assignment()[n] == k);
                if arithmetic_obeys::<W>() {
                    assert(community_weights@[k as usize] == entry_weight_total(
                        network.adjacency(nodes@[k]),
                    ));
                }
            }
            assert forall|a: NodeId, b: NodeId|
                r.assignment().contains_key(a) && r.assignment().contains_key(b)
                    && #[trigger] r.assignment()[a] == #[trigger] r.assignment()[b] implies connected(
                *network,
                a,
                b,
            ) by {
                assert(a == b);
                lemma_connected_refl(*network, a);
            }
        }
        r
    }

    /// The community of `node`.
    fn community_of(&self, node: NodeId) -> (r: ModuleId)
        requires
            self.wf(),
            self.spec_network().node_set().contains(node),
        ensures
            r == self.assignment()[node],
    {
        match self.node_to_community.get(&node) {
            Some(c) => *c,
            None => 0,
        }
    }

    /// The weight of the edges from `node` to other nodes of `community`.
    fn calculate_edges_to_community(&self, node: NodeId, community: ModuleId) -> (r: W)
        requires
            self.wf(),
        ensures
            arithmetic_obeys::<W>() ==> r == add_entries(
                zero_spec::<W>(),
                self.spec_network().adjacency(node),
                other_in_community(self.assignment(), community, node),
            ),
    {
        let ghost keep = other_in_community(self.assignment(), community, node);
        let mut weight = zero_weight();
        if let Some(neighbors) = self.network.neighbors(node) {
            let mut i: usize = 0;
            while i < neighbors.len()
                invariant
                    self.wf(),
                    i <= neighbors@.len(),
                    keep == other_in_community(self.assignment(), community, node),
                    arithmetic_obeys::<W>() ==> weight == add_entries(
                        zero_spec::<W>(),
                        neighbors@.take(i as int),
                        keep,
                    ),
                decreases neighbors@.len() - i,
            {
                proof {
                    assert(neighbors@.take(i + 1).drop_last() =~= neighbors@.take(i as int));
                }
                let (neighbor, edge_weight) = neighbors[i];
                if let Some(neighbor_community) = self.node_to_community.get(&neighbor) {
                    if *neighbor_community == community && neighbor != node {
                        weight = weight_add(weight, edge_weight);
                    }
                }
                i = i + 1;
            }
            proof {
                assert(neighbors@.take(neighbors@.len() as int) =~= neighbors@);
            }
        } else {
            proof {
                assert(self.spec_network().adjacency(node) =~= Seq::<(NodeId, W)>::empty());
            }
        }
        weight
    }

    /// The modularity gain of moving `node` into `target_community`:
    /// `(k_target - k_current) / m - d * (w_target - w_current + d) / (2 m^2)`
    /// with `d` the weighted degree of the node, `k` its edge weight into a
    /// community, `w` a community's weight and `m` the total weight; zero for
    /// its own community or an edgeless network.
    fn calculate_modularity_gain(&self, node: NodeId, target_community: ModuleId) -> (r: W)
        requires
            self.wf(),
            self.spec_network().node_set().contains(node),
        ensures
            arithmetic_obeys::<W>() && order_obeys::<W>() ==> r == self.gain_spec(
                node,
                target_community,
            ),
    {
        let current_community = self.community_of(node);
        if current_community == target_community {
            return zero_weight();
        }
        let node_degree = self.network.weighted_degree(node);
        let current_community_weight = match self.community_weights.get(&current_community) {
            Some(w) => *w,
            None => zero_weight(),
        };
        let target_community_weight = match self.community_weights.get(&target_community) {
            Some(w) => *w,
            None => zero_weight(),
        };
        let edges_to_current = self.calculate_edges_to_community(node, current_community);
        let edges_to_target = self.calculate_edges_to_community(node, target_community);
        let zero = zero_weight();
        if self.total_weight.eq(&zero) {
            return zero_weight();
        }
        let two = W::from(2u32);
        let first = weight_div(weight_sub(edges_to_target, edges_to_current), self.total_weight);
        let spread = weight_add(
            weight_sub(target_community_weight, current_community_weight),
            node_degree,
        );
        let second = weight_div(
            weight_mul(node_degree, spread),
            weight_mul(weight_mul(two, self.total_weight), self.total_weight),
        );
        weight_sub(first, second)
    }

    /// The candidate community of largest gain, where the gain is `>` zero;
    /// the node's own community otherwise. The candidates are the node's own
    /// community and those of its neighbours.
    fn find_best_community(&self, node: NodeId) -> (r: ModuleId)
        requires
            self.wf(),
            self.spec_network().node_set().contains(node),
        ensures
            candidate_move(self.spec_network(), self.assignment(), node, r),
            best_choice(self.spec_network(), self.assignment(), self.weights(), node, r),
    {
        let current_community = self.community_of(node);
        let mut best_community = current_community;
        let mut best_gain = zero_weight();
        let ghost network = self.spec_network();
        let ghost adj = self.spec_network().adjacency(node);
        let ghost assign = self.assignment();
        let mut candidates: HashSet<ModuleId> = HashSet::new();
        candidates.insert(current_community);
        proof {
            assert(candidates@ =~= set![assign[node]]);
        }
        if let Some(neighbors) = self.network.neighbors(node) {
            let mut i: usize = 0;
            while i < neighbors.len()
                invariant
                    self.wf(),
                    neighbors@ == adj,
                    adj == network.adjacency(node),
                    network == self.spec_network(),
                    assign == self.assignment(),
                    current_community == assign[node],
                    i <= neighbors@.len(),
                    forall|c: ModuleId|
                        #[trigger] candidates@.contains(c) <==> c == current_community || exists|
                            k: int,
                        |
                            0 <= k < i && assign.contains_key(#[trigger] adj[k].0) && assign[adj[k].0]
                                == c,
                decreases neighbors@.len() - i,
            {
                let (neighbor, _w) = neighbors[i];
                proof {
                    assert(adj[i as int].0 == neighbor);
                }
                if let Some(community) = self.node_to_community.get(&neighbor) {
                    candidates.insert(*community);
                }
                i = i + 1;
            }
        } else {
            proof {
                assert(adj.len() == 0);
            }
        }
        let ghost cands = candidates@;
        proof {
            assert(cands =~= candidate_set(network, assign, node));
        }
        let ghost keys = candidates.iter().remaining();
        proof {
            assert(keys.unref().to_set() == cands);
        }
        let ghost obeys = arithmetic_obeys::<W>() && order_obeys::<W>();
        for community in it: candidates.iter()
            invariant
                self.wf(),
                self.spec_network().node_set().contains(node),
                network == self.spec_network(),
                assign == self.assignment(),
                current_community == assign[node],
                it.seq() == keys,
                keys.unref().to_set() == cands,
                cands == candidate_set(network, assign, node),
                obeys == (arithmetic_obeys::<W>() && order_obeys::<W>()),
                best_community == current_community || cands.contains(best_community),
                obeys ==> (best_community, best_gain) == best_prefix(
                    network,
                    assign,
                    self.weights(),
                    node,
                    keys.unref().take(it.index() as int),
                ),
        {
            proof {
                assert(keys.unref()[it.index() as int] == *community);
                assert(keys.unref().contains(*community));
                assert(keys.unref().take(it.index() + 1).drop_last() =~= keys.unref().take(
                    it.index() as int,
                ));
            }
            let gain = self.calculate_modularity_gain(node, *community);
            if gain.gt(&best_gain) {
                best_gain = gain;
                best_community = *community;
            }
        }
        proof {
            assert(keys.unref().take(keys.unref().len() as int) =~= keys.unref());
            keys.unref().unique_seq_to_set();
            assert(candidate_move(network, assign, node, best_community)) by {
                if best_community != current_community {
                    assert(cands.contains(best_community));
                }
            }
            let ks = keys.unref();
            assert(ks.no_duplicates());
            assert(ks.to_set() == candidate_set(network, assign, node));
            let bp = best_prefix(network, assign, self.weights(), node, ks);
            assert(obeys ==> bp.0 == best_community);
            assert(best_choice(network, assign, self.weights(), node, best_community));
        }
        best_community
    }

    /// Moves `node` into `new_community`, moving its weighted degree between
    /// the community weights.
    fn move_node_to_community(&mut self, node: NodeId, new_community: ModuleId)
        requires
            old(self).wf(),
            old(self).spec_network().node_set().contains(node),
        ensures
            final(self).wf(),
            final(self).spec_network() == old(self).spec_network(),
            final(self).assignment() == old(self).assignment().insert(node, new_community),
            arithmetic_obeys::<W>() ==> final(self).weights() == moved_weights(
                old(self).weights(),
                old(self).assignment()[node],
                new_community,
                entry_weight_total(old(self).spec_network().adjacency(node)),
            ),
    {
        let old_community = self.community_of(node);
        let node_degree = self.network.weighted_degree(node);
        if let Some(weight) = self.community_weights.remove(&old_community) {
            self.community_weights.insert(old_community, weight_sub(weight, node_degree));
        }
        let current = match self.community_weights.remove(&new_community) {
            Some(w) => w,
            None => zero_weight(),
        };
        self.community_weights.insert(new_community, weight_add(current, node_degree));
        self.node_to_community.insert(node, new_community);
        proof {
            assert(self.node_to_community@.dom() =~= self.network.node_set());
            if arithmetic_obeys::<W>() {
                assert(self.weights() =~= moved_weights(
                    old(self).weights(),
                    old(self).assignment()[node],
                    new_community,
                    entry_weight_total(old(self).spec_network().adjacency(node)),
                ));
            }
        }
    }

    /// Runs passes until one moves no node, and returns the communities as a
    /// module collection; `ConvergenceFailed` once `MAX_ITERATIONS` passes
    /// have run (also when the last of them moved nothing). The final state
    /// is reached from the first by best-gain moves, and on success no node
    /// would move from it. A network whose nodes list only themselves always
    /// succeeds.
    pub fn optimize(&mut self) -> (r: Result<ModuleCollection<W>, OslomError>)
        requires
            old(self).wf(),
        ensures
            final(self).wf(),
            final(self).spec_network() == old(self).spec_network(),
            match r {
                Ok(c) => {
                    &&& c.wf()
                    &&& c.partitions(old(self).spec_network().node_set())
                    &&& groups_communities(c.module_map(), final(self).assignment())
                    &&& stable(
                        old(self).spec_network(),
                        final(self).assignment(),
                        final(self).weights(),
                    )
                },
                Err(e) => e is ConvergenceFailed,
            },
            self_loops_only(old(self).spec_network()) ==> r is Ok,
            arithmetic_obeys::<W>() && order_obeys::<W>() && no_positive_gain(
                old(self).spec_network(),
                old(self).assignment(),
                old(self).weights(),
            ) ==> r is Ok && final(self).assignment() == old(self).assignment()
                && final(self).weights() == old(self).weights(),
            communities_connected(old(self).spec_network(), old(self).assignment())
                ==> communities_connected(old(self).spec_network(), final(self).assignment()),
            exists|order: Seq<NodeId>, steps: Seq<PassState<W>>|
                {
                    &&& #[trigger] pass_trace(old(self).spec_network(), order, steps)
                    &&& steps[0] == (old(self).assignment(), old(self).weights())
                    &&& steps.last() == (final(self).assignment(), final(self).weights())
                },
            final(self).assignment().dom() == old(self).spec_network().node_set(),
            exists|orders: Seq<Seq<NodeId>>, traces: Seq<Seq<PassState<W>>>|
                {
                    &&& #[trigger] pass_run(
                        old(self).spec_network(),
                        (old(self).assignment(), old(self).weights()),
                        orders,
                        traces,
                    )
                    &&& run_end((old(self).assignment(), old(self).weights()), traces) == (
                        final(self).assignment(),
                        final(self).weights(),
                    )
                    &&& 1 <= orders.len() <= MAX_ITERATIONS
                    &&& forall|p: int|
                        0 <= p < orders.len() - 1 ==> #[trigger] moved_in_pass(orders[p], traces[p])
                    &&& orders.len() < MAX_ITERATIONS ==> !moved_in_pass(orders.last(), traces.last())
                    &&& r is Ok <==> orders.len() < MAX_ITERATIONS
                },
    {
        let mut shuffler = NodeShuffler::new(None);
        self.optimize_with(&mut shuffler)
    }

    /// `optimize`, with the node orders of the passes drawn from `shuffler`.
    pub fn optimize_with(&mut self, shuffler: &mut NodeShuffler) -> (r: Result<
        ModuleCollection<W>,
        OslomError,
    >)
        requires
            old(self).wf(),
        ensures
            final(self).wf(),
            final(self).spec_network() == old(self).spec_network(),
            match r {
                Ok(c) => {
                    &&& c.wf()
                    &&& c.partitions(old(self).spec_network().node_set())
                    &&& groups_communities(c.module_map(), final(self).assignment())
                    &&& stable(
                        old(self).spec_network(),
                        final(self).assignment(),
                        final(self).weights(),
                    )
                },
                Err(e) => e is ConvergenceFailed,
            },
            self_loops_only(old(self).spec_network()) ==> r is Ok,
            arithmetic_obeys::<W>() && order_obeys::<W>() && no_positive_gain(
                old(self).spec_network(),
                old(self).assignment(),
                old(self).weights(),
            ) ==> r is Ok && final(self).assignment() == old(self).assignment()
                && final(self).weights() == old(self).weights(),
            communities_connected(old(self).spec_network(), old(self).assignment())
                ==> communities_connected(old(self).spec_network(), final(self).assignment()),
            exists|order: Seq<NodeId>, steps: Seq<PassState<W>>|
                {
                    &&& #[trigger] pass_trace(old(self).spec_network(), order, steps)
                    &&& steps[0] == (old(self).assignment(), old(self).weights())
                    &&& steps.last() == (final(self).assignment(), final(self).weights())
                },
            final(self).assignment().dom() == old(self).spec_network().node_set(),
            exists|orders: Seq<Seq<NodeId>>, traces: Seq<Seq<PassState<W>>>|
                {
                    &&& #[trigger] pass_run(
                        old(self).spec_network(),
                        (old(self).assignment(), old(self).weights()),
                        orders,
                        traces,
                    )
                    &&& run_end((old(self).assignment(), old(self).weights()), traces) == (
                        final(self).assignment(),
                        final(self).weights(),
                    )
                    &&& 1 <= orders.len() <= MAX_ITERATIONS
                    &&& forall|p: int|
                        0 <= p < orders.len() - 1 ==> #[trigger] moved_in_pass(orders[p], traces[p])
                    &&& orders.len() < MAX_ITERATIONS ==> !moved_in_pass(orders.last(), traces.last())
                    &&& r is Ok <==> orders.len() < MAX_ITERATIONS
                },
    {
        let ghost network = self.spec_network();
        let ghost mut all_order: Seq<NodeId> = Seq::empty();
        let ghost mut all_steps: Seq<PassState<W>> = seq![(self.assignment(), self.weights())];
        let ghost start = (self.assignment(), self.weights());
        let ghost mut orders: Seq<Seq<NodeId>> = Seq::empty();
        let ghost mut traces: Seq<Seq<PassState<W>>> = Seq::empty();
        let mut improved = true;
        let mut iteration: usize = 0;
        proof {
            assert(pass_trace(network, all_order, all_steps));
            assert(pass_run(network, start, orders, traces));
        }
        while improved && iteration < MAX_ITERATIONS
            invariant
                self.wf(),
                self.spec_network() == old(self).spec_network(),
                network == old(self).spec_network(),
                iteration <= MAX_ITERATIONS,
                pass_trace(network, all_order, all_steps),
                all_steps[0] == (old(self).assignment(), old(self).weights()),
                all_steps.last() == (self.assignment(), self.weights()),
                !improved ==> stable(network, self.assignment(), self.weights()),
                self_loops_only(network) ==> iteration <= 1 && (iteration == 1 ==> !improved),
                iteration == 0 ==> improved,
                arithmetic_obeys::<W>() && order_obeys::<W>() && no_positive_gain(
                    network,
                    start.0,
                    start.1,
                ) ==> iteration <= 1 && (iteration == 1 ==> !improved) && (self.assignment(),
                    self.weights()) == start,
                start == (old(self).assignment(), old(self).weights()),
                pass_run(network, start, orders, traces),
                orders.len() == iteration,
                run_end(start, traces) == (self.assignment(), self.weights()),
                forall|p: int|
                    0 <= p < orders.len() - 1 ==> #[trigger] moved_in_pass(orders[p], traces[p]),
                iteration > 0 ==> (improved <==> moved_in_pass(orders.last(), traces.last())),
            decreases MAX_ITERATIONS - iteration,
        {
            let ghost before = (self.assignment(), self.weights());
            improved = self.optimize_pass(shuffler);
            proof {
                let (order, steps) = choose|order: Seq<NodeId>, steps: Seq<PassState<W>>|
                    {
                        &&& order.no_duplicates()
                        &&& order.to_set() == network.node_set()
                        &&& #[trigger] pass_trace(network, order, steps)
                        &&& steps[0] == before
                        &&& steps.last() == (self.assignment(), self.weights())
                        &&& improved <==> moved_in_pass(order, steps)
                    };
                if iteration == 0 && arithmetic_obeys::<W>() && order_obeys::<W>() && no_positive_gain(
                    network,
                    start.0,
                    start.1,
                ) {
                    assert forall|k: int| 0 <= k < order.len() implies network.node_set().contains(
                        #[trigger] order[k],
                    ) by {
                        assert(order.to_set().contains(order[k]));
                    }
                    lemma_no_gain_pass(network, order, steps, order.len() as int);
                    assert(!moved_in_pass(order, steps));
                    assert(steps.last() == steps[order.len() as int]);
                }
                lemma_trace_concat(network, all_order, all_steps, order, steps);
                all_order = all_order + order;
                all_steps = all_steps + steps.skip(1);
                let old_orders = orders;
                let old_traces = traces;
                orders = orders.push(order);
                traces = traces.push(steps);
                assert(pass_ok(network, orders, traces, old_orders.len() as int));
                assert forall|p: int| 0 <= p < orders.len() implies #[trigger] pass_ok(
                    network,
                    orders,
                    traces,
                    p,
                ) by {
                    if p < old_orders.len() {
                        assert(pass_ok(network, old_orders, old_traces, p));
                        assert(orders[p] == old_orders[p]);
                        assert(traces[p] == old_traces[p]);
                    }
                }
                assert forall|p: int| 0 <= p < orders.len() - 1 implies #[trigger] chained(
                    traces,
                    p,
                ) by {
                    if p < old_orders.len() - 1 {
                        assert(chained(old_traces, p));
                        assert(traces[p] == old_traces[p]);
                        assert(traces[p + 1] == old_traces[p + 1]);
                    } else {
                        assert(traces[p] == old_traces.last());
                        assert(run_end(start, old_traces) == before);
                    }
                }
                assert(pass_run(network, start, orders, traces));
                assert(run_end(start, traces) == (self.assignment(), self.weights()));
                assert forall|p: int|
                    0 <= p < orders.len() - 1 implies #[trigger] moved_in_pass(
                    orders[p],
                    traces[p],
                ) by {
                    if p < old_orders.len() - 1 {
                        assert(moved_in_pass(old_orders[p], old_traces[p]));
                    } else {
                        assert(orders[p] == old_orders.last());
                        assert(traces[p] == old_traces.last());
                    }
                }
                if !improved {
                    assert forall|n: NodeId|
                        network.node_set().contains(n) implies #[trigger] best_choice(
                        network,
                        self.assignment(),
                        self.weights(),
                        n,
                        self.assignment()[n],
                    ) by {
                        assert(order.to_set().contains(n));
                        let k = order.index_of(n);
                        lemma_no_move_constant(network, order, steps, k);
                        lemma_no_move_constant(network, order, steps, order.len() as int);
                        assert(step_ok(network, order, steps, k));
                        assert(!moved_at(order, steps, k));
                        assert(steps[k] == (self.assignment(), self.weights()));
                        let st = steps[k];
                        let c = choose|c: ModuleId|
                            #![trigger best_choice(network, st.0, st.1, n, c)]
                            {
                                &&& candidate_move(network, st.0, n, c)
                                &&& best_choice(network, st.0, st.1, n, c)
                                &&& c == st.0[n] ==> steps[k + 1] == st
                                &&& c != st.0[n] ==> {
                                    &&& steps[k + 1].0 == st.0.insert(n, c)
                                    &&& arithmetic_obeys::<W>() ==> steps[k + 1].1 == moved_weights(
                                        st.1,
                                        st.0[n],
                                        c,
                                        entry_weight_total(network.adjacency(n)),
                                    )
                                }
                            };
                        assert(c == st.0[n]);
                    }
                }
            }
            iteration = iteration + 1;
        }
        proof {
            if communities_connected(network, old(self).assignment()) {
                lemma_trace_keeps_connected(network, all_order, all_steps, all_order.len() as int);
                assert(all_steps.last() == all_steps[all_order.len() as int]);
            }
        }
        if iteration >= MAX_ITERATIONS {
            return Err(
                OslomError::ConvergenceFailed("Louvain algorithm did not converge".to_string()),
            );
        }
        Ok(self.build_module_collection())
    }

    /// One pass over all nodes in random order; `true` where a node moved.
    fn optimize_pass(&mut self, shuffler: &mut NodeShuffler) -> (improved: bool)
        requires
            old(self).wf(),
        ensures
            final(self).wf(),
            final(self).spec_network() == old(self).spec_network(),
            !improved ==> final(self).assignment() == old(self).assignment(),
            self_loops_only(old(self).spec_network()) ==> !improved,
            exists|order: Seq<NodeId>, steps: Seq<PassState<W>>|
                {
                    &&& order.no_duplicates()
                    &&& order.to_set() == old(self).spec_network().node_set()
                    &&& #[trigger] pass_trace(old(self).spec_network(), order, steps)
                    &&& steps[0] == (old(self).assignment(), old(self).weights())
                    &&& steps.last() == (final(self).assignment(), final(self).weights())
                    &&& improved <==> moved_in_pass(order, steps)
                },
    {
        let mut nodes = self.network.nodes();
        let ghost listed = nodes@;
        shuffler.shuffle(&mut nodes);
        proof {
            lemma_permutation_no_duplicates(listed, nodes@);
            assert forall|k: int|
                0 <= k < nodes@.len() implies self.spec_network().node_set().contains(
                    #[trigger] nodes@[k],
                ) by {
                assert(nodes@.to_set().contains(nodes@[k]));
            }
        }
        self.optimize_pass_sequential(&nodes)
    }

    /// Moves each listed node, in order, to its best community; `true` where
    /// a node moved.
    fn optimize_pass_sequential(&mut self, nodes: &Vec<NodeId>) -> (improved: bool)
        requires
            old(self).wf(),
            forall|k: int|
                0 <= k < nodes@.len() ==> old(self).spec_network().node_set().contains(
                    #[trigger] nodes@[k],
                ),
        ensures
            final(self).wf(),
            final(self).spec_network() == old(self).spec_network(),
            !improved ==> final(self).assignment() == old(self).assignment(),
            self_loops_only(old(self).spec_network()) ==> !improved,
            exists|steps: Seq<PassState<W>>|
                {
                    &&& #[trigger] pass_trace(old(self).spec_network(), nodes@, steps)
                    &&& steps[0] == (old(self).assignment(), old(self).weights())
                    &&& steps.last() == (final(self).assignment(), final(self).weights())
                    &&& improved <==> moved_in_pass(nodes@, steps)
                },
    {
        let ghost network = self.spec_network();
        let ghost mut steps: Seq<PassState<W>> = seq![(self.assignment(), self.weights())];
        let mut improved = false;
        let mut i: usize = 0;
        while i < nodes.len()
            invariant
                self.wf(),
                self.spec_network() == old(self).spec_network(),
                network == old(self).spec_network(),
                i <= nodes@.len(),
                forall|k: int|
                    0 <= k < nodes@.len() ==> self.spec_network().node_set().contains(
                        #[trigger] nodes@[k],
                    ),
                !improved ==> self.assignment() == old(self).assignment(),
                self_loops_only(network) ==> !improved,
                steps.len() == i + 1,
                steps[0] == (old(self).assignment(), old(self).weights()),
                steps[i as int] == (self.assignment(), self.weights()),
                forall|k: int| 0 <= k < i ==> #[trigger] step_ok(network, nodes@, steps, k),
                improved <==> exists|k: int| 0 <= k < i && #[trigger] moved_at(nodes@, steps, k),
            decreases nodes@.len() - i,
        {
            let node = nodes[i];
            proof {
                assert(self.spec_network().node_set().contains(nodes@[i as int]));
            }
            let ghost before = (self.assignment(), self.weights());
            let ghost old_steps = steps;
            let current_community = self.community_of(node);
            let best_community = self.find_best_community(node);
            proof {
                if self_loops_only(network) && best_community != current_community {
                    let k = choose|k: int|
                        0 <= k < network.adjacency(node).len() && before.0.contains_key(
                            #[trigger] network.adjacency(node)[k].0,
                        ) && before.0[network.adjacency(node)[k].0] == best_community;
                    assert(network.adjacency(node)[k].0 == node);
                }
            }
            if best_community != current_community {
                self.move_node_to_community(node, best_community);
                improved = true;
            }
            proof {
                steps = steps.push((self.assignment(), self.weights()));
                assert(steps[i as int] == before);
                assert(nodes@[i as int] == node);
                if best_community != current_community {
                    assert(steps[i + 1].0 == before.0.insert(node, best_community));
                }
                assert(best_choice(network, before.0, before.1, node, best_community));
                assert(move_ok(network, before, node, steps[i + 1]));
                assert(step_ok(network, nodes@, steps, i as int));
                assert forall|k: int| 0 <= k < i + 1 implies #[trigger] step_ok(
                    network,
                    nodes@,
                    steps,
                    k,
                ) by {
                    if k < i {
                        assert(step_ok(network, nodes@, old_steps, k));
                        assert(steps[k] == old_steps[k]);
                        assert(steps[k + 1] == old_steps[k + 1]);
                    }
                }
                assert(moved_at(nodes@, steps, i as int) <==> best_community != current_community);
                assert forall|k: int| 0 <= k < i implies #[trigger] moved_at(nodes@, steps, k)
                    == moved_at(nodes@, old_steps, k) by {
                    assert(steps[k] == old_steps[k]);
                    assert(steps[k + 1] == old_steps[k + 1]);
                }
                if best_community != current_community {
                    assert(moved_at(nodes@, steps, i as int));
                }
                if improved && best_community == current_community {
                    let k = choose|k: int| 0 <= k < i && #[trigger] moved_at(nodes@, old_steps, k);
                    assert(moved_at(nodes@, steps, k));
                }
            }
            i = i + 1;
        }
        proof {
            assert(pass_trace(network, nodes@, steps));
            assert(steps.last() == steps[nodes@.len() as int]);
        }
        improved
    }

    /// The modularity contribution of one community:
    /// `internal / m - (total_degree^2 / (4 m)) / m`, with the internal
    /// weight halved in an undirected network; zero for an edgeless network.
    fn calculate_community_modularity(&self, community_id: ModuleId, nodes: &[NodeId]) -> (r: W)
        requires
            self.wf(),
        ensures
            arithmetic_obeys::<W>() && order_obeys::<W>() ==> {
                let network = self.spec_network();
                let m = edge_weight_total(network.edge_log());
                &&& weight_eq(m, zero_spec::<W>()) ==> r == zero_spec::<W>()
                &&& !weight_eq(m, zero_spec::<W>()) ==> r == modularity_term(
                    network.spec_is_directed(),
                    weight_into(network, nodes@, assigned_to(self.assignment(), community_id)),
                    degree_total(network, nodes@),
                    m,
                )
            },
    {
        let zero = zero_weight();
        if self.total_weight.eq(&zero) {
            return zero_weight();
        }
        let ghost keep = assigned_to(self.assignment(), community_id);
        let mut internal_weight = zero_weight();
        let mut total_degree = zero_weight();
        let mut i: usize = 0;
        while i < nodes.len()
            invariant
                self.wf(),
                i <= nodes@.len(),
                keep == assigned_to(self.assignment(), community_id),
                arithmetic_obeys::<W>() ==> internal_weight == weight_into(
                    self.spec_network(),
                    nodes@.take(i as int),
                    keep,
                ),
                arithmetic_obeys::<W>() ==> total_degree == degree_total(
                    self.spec_network(),
                    nodes@.take(i as int),
                ),
            decreases nodes@.len() - i,
        {
            let node = nodes[i];
            let ghost acc0 = internal_weight;
            proof {
                assert(nodes@.take(i + 1).drop_last() =~= nodes@.take(i as int));
                assert(nodes@.take(i + 1).last() == node);
            }
            total_degree = weight_add(total_degree, self.network.weighted_degree(node));
            if let Some(neighbors) = self.network.neighbors(node) {
                let mut j: usize = 0;
                while j < neighbors.len()
                    invariant
                        self.wf(),
                        j <= neighbors@.len(),
                        keep == assigned_to(self.assignment(), community_id),
                        arithmetic_obeys::<W>() ==> internal_weight == add_entries(
                            acc0,
                            neighbors@.take(j as int),
                            keep,
                        ),
                    decreases neighbors@.len() - j,
                {
                    proof {
                        assert(neighbors@.take(j + 1).drop_last() =~= neighbors@.take(j as int));
                    }
                    let (neighbor, weight) = neighbors[j];
                    if let Some(neighbor_community) = self.node_to_community.get(&neighbor) {
                        if *neighbor_community == community_id {
                            internal_weight = weight_add(internal_weight, weight);
                        }
                    }
                    j = j + 1;
                }
                proof {
                    assert(neighbors@.take(neighbors@.len() as int) =~= neighbors@);
                }
            } else {
                proof {
                    assert(self.spec_network().adjacency(node) =~= Seq::<(NodeId, W)>::empty());
                }
            }
            i = i + 1;
        }
        proof {
            assert(nodes@.take(nodes@.len() as int) =~= nodes@);
        }
        if !self.network.is_directed() {
            internal_weight = weight_div(internal_weight, W::from(2u32));
        }
        let four = W::from(4u32);
        let expected = weight_div(
            weight_mul(total_degree, total_degree),
            weight_mul(four, self.total_weight),
        );
        weight_sub(
            weight_div(internal_weight, self.total_weight),
            weight_div(expected, self.total_weight),
        )
    }

    /// Groups the nodes by community: one module per community in use,
    /// holding its nodes in increasing order, scored with the community's
    /// modularity contribution.
    fn build_module_collection(&self) -> (r: ModuleCollection<W>)
        requires
            self.wf(),
        ensures
            r.wf(),
            r.partitions(self.spec_network().node_set()),
            groups_communities(r.module_map(), self.assignment()),
    {
        let ghost assign = self.node_to_community@;
        // The nodes, each once.
        let mut nodes_list: Vec<NodeId> = Vec::new();
        let ghost keys = self.node_to_community.keys().remaining();
        for k in it: self.node_to_community.keys()
            invariant
                it.seq() == keys,
                nodes_list@.len() == it.index(),
                forall|j: int| 0 <= j < it.index() ==> nodes_list@[j] == *it.seq()[j],
        {
            nodes_list.push(*k);
        }
        proof {
            assert(nodes_list@ =~= keys.unref());
        }
        // Group them by community.
        let mut community_nodes: HashMap<ModuleId, Vec<NodeId>> = HashMap::new();
        let mut i: usize = 0;
        while i < nodes_list.len()
            invariant
                self.wf(),
                assign == self.node_to_community@,
                nodes_list@.to_set() == assign.dom(),
                nodes_list@.no_duplicates(),
                i <= nodes_list@.len(),
                forall|c: ModuleId| #[trigger]
                    community_nodes@.contains_key(c) ==> community_nodes@[c]@ == nodes_list@.take(
                        i as int,
                    ).filter(in_community(assign, c)),
                forall|c: ModuleId| #[trigger]
                    community_nodes@.contains_key(c) <==> exists|k: int|
                        0 <= k < i && assign[#[trigger] nodes_list@[k]] == c,
            decreases nodes_list@.len() - i,
        {
            let node = nodes_list[i];
            proof {
                assert(nodes_list@.to_set().contains(node));
            }
            let community = self.community_of(node);
            let mut list = match community_nodes.remove(&community) {
                Some(l) => l,
                None => Vec::new(),
            };
            list.push(node);
            community_nodes.insert(community, list);
            proof {
                let prefix = nodes_list@.take(i as int);
                assert(nodes_list@.take(i + 1) =~= prefix.push(node));
                assert forall|c: ModuleId| #[trigger]
                    community_nodes@.contains_key(c) implies community_nodes@[c]@
                        == nodes_list@.take(i + 1).filter(in_community(assign, c)) by {
                    prefix.lemma_filter_push(node, in_community(assign, c));
                    if c != community {
                        assert(nodes_list@.take(i + 1).filter(in_community(assign, c))
                            == prefix.filter(in_community(assign, c)));
                    } else {
                        if !old_contains(prefix, assign, c) {
                            assert(prefix.filter(in_community(assign, c)) =~= Seq::<
                                NodeId,
                            >::empty()) by {
                                lemma_filter_none(prefix, assign, c);
                            }
                        }
                    }
                }
                assert forall|c: ModuleId| #[trigger]
                    community_nodes@.contains_key(c) <==> exists|k: int|
                        0 <= k < i + 1 && assign[#[trigger] nodes_list@[k]] == c by {
                    if c == community {
                        assert(assign[nodes_list@[i as int]] == c);
                    }
                }
            }
            i = i + 1;
        }
        proof {
            assert(nodes_list@.take(nodes_list@.len() as int) =~= nodes_list@);
        }
        // The communities in use, each once.
        let mut communities: Vec<ModuleId> = Vec::new();
        let ghost ckeys_it = community_nodes.keys().remaining();
        for c in it: community_nodes.keys()
            invariant
                it.seq() == ckeys_it,
                communities@.len() == it.index(),
                forall|j: int| 0 <= j < it.index() ==> communities@[j] == *it.seq()[j],
        {
            communities.push(*c);
        }
        proof {
            assert(communities@ =~= ckeys_it.unref());
        }
        let ghost groups = community_nodes@;
        let ghost members = |c: ModuleId, n: NodeId| assign.contains_key(n) && assign[n] == c;
        proof {
            assert forall|c: ModuleId| #[trigger]
                groups.contains_key(c) implies groups[c]@.no_duplicates() && groups[c]@.to_set()
                    == Set::new(|n: NodeId| members(c, n)) && groups[c]@.len() > 0 by {
                lemma_filter_no_dup_set(nodes_list@, in_community(assign, c));
                assert(groups[c]@.to_set() =~= Set::new(|n: NodeId| members(c, n)));
                let k = choose|k: int|
                    0 <= k < nodes_list@.len() && assign[#[trigger] nodes_list@[k]] == c;
                assert(groups[c]@.to_set().contains(nodes_list@[k]));
            }
        }
        // One module per community.
        let mut collection: ModuleCollection<W> = ModuleCollection::new();
        let mut j: usize = 0;
        while j < communities.len()
            invariant
                self.wf(),
                assign == self.node_to_community@,
                communities@.to_set() == groups.dom(),
                communities@.no_duplicates(),
                j <= communities@.len(),
                collection.wf(),
                collection.spec_next_id() == j,
                forall|c: ModuleId| #[trigger]
                    groups.contains_key(c) ==> groups[c]@.no_duplicates() && groups[c]@.to_set()
                        == Set::new(|n: NodeId| members(c, n)) && groups[c]@.len() > 0,
                forall|k: int|
                    j <= k < communities@.len() ==> #[trigger] community_nodes@.contains_key(
                        communities@[k],
                    ) && community_nodes@[communities@[k]] == groups[communities@[k]],
                forall|id: ModuleId| #[trigger]
                    collection.module_map().contains_key(id) <==> id < j,
                forall|id: ModuleId| #[trigger]
                    collection.module_map().contains_key(id) ==> {
                        let m = collection.module_map()[id];
                        &&& m.nodes@.len() > 0
                        &&& strictly_sorted(m.nodes@)
                        &&& m.nodes@.to_set() == Set::new(
                            |n: NodeId| members(communities@[id as int], n),
                        )
                    },
            decreases communities@.len() - j,
        {
            let community = communities[j];
            proof {
                assert(communities@.to_set().contains(community));
                assert(community_nodes@.contains_key(communities@[j as int]));
            }
            let taken = community_nodes.remove(&community);
            proof {
                assert forall|k: int|
                    j + 1 <= k < communities@.len() implies #[trigger] community_nodes@.contains_key(
                        communities@[k],
                    ) && community_nodes@[communities@[k]] == groups[communities@[k]] by {
                    assert(communities@[k] != communities@[j as int]);
                }
            }
            if let Some(mut nodes) = taken {
                let ghost unsorted = nodes@;
                if nodes.len() > 0 {
                    sort_nodes(&mut nodes);
                    proof {
                        lemma_sorted_permutation(unsorted, nodes@);
                    }
                    let modularity = self.calculate_community_modularity(community, &nodes);
                    let ghost before = collection.module_map();
                    let id = collection.insert_module(nodes, modularity);
                    proof {
                        assert(id == j);
                    }
                }
            }
            j = j + 1;
        }
        proof {
            let map = collection.module_map();
            assert forall|n: NodeId| #[trigger]
                self.spec_network().node_set().contains(n) implies exists|id: ModuleId|
                    is_member(map, id, n) by {
                let c = assign[n];
                assert(nodes_list@.to_set().contains(n));
                let k = nodes_list@.index_of(n);
                assert(groups.contains_key(c));
                assert(communities@.to_set().contains(c));
                assert(communities@.contains(c));
                let k2 = choose|k2: int| 0 <= k2 < communities@.len() && communities@[k2] == c;
                let id = k2 as ModuleId;
                assert(id as int == k2);
                assert(map.contains_key(id));
                assert(members(c, n));
                assert(map[id].nodes@.to_set().contains(n));
                assert(is_member(map, id, n));
            }
            assert forall|id: ModuleId, n: NodeId| #[trigger]
                is_member(map, id, n) implies self.spec_network().node_set().contains(n) by {
                assert(map[id].nodes@.to_set().contains(n));
            }
            assert forall|id1: ModuleId, id2: ModuleId, n: NodeId|
                #[trigger] is_member(map, id1, n) && #[trigger] is_member(map, id2, n) implies id1
                == id2 by {
                assert(map[id1].nodes@.to_set().contains(n));
                assert(map[id2].nodes@.to_set().contains(n));
                assert(communities@[id1 as int] == communities@[id2 as int]);
            }
            assert forall|id1: ModuleId, id2: ModuleId, a: NodeId, b: NodeId|
                #[trigger] is_member(map, id1, a) && #[trigger] is_member(map, id2, b) implies (id1
                == id2 <==> assign[a] == assign[b]) by {
                assert(map[id1].nodes@.to_set().contains(a));
                assert(map[id2].nodes@.to_set().contains(b));
                assert(assign[a] == communities@[id1 as int]);
                assert(assign[b] == communities@[id2 as int]);
                if id1 != id2 {
                    assert(communities@[id1 as int] != communities@[id2 as int]);
                }
            }
        }
        collection
    }
}

/// Two nodes of `map`'s modules share a module exactly when `assign` puts
/// them in the same community.
pub open spec fn groups_communities<W>(
    map: Map<ModuleId, Module<W>>,
    assign: Map<NodeId, ModuleId>,
) -> bool {
    forall|id1: ModuleId, id2: ModuleId, a: NodeId, b: NodeId|
        #[trigger] is_member(map, id1, a) && #[trigger] is_member(map, id2, b) ==> (id1 == id2
            <==> assign[a] == assign[b])
}

/// Law: two module collections that both partition `nodes` into the
/// communities of `assign` hold the same modules: each module of the one
/// has the same nodes as some module of the other. So two optimisations
/// that end in the same assignment give the same modules.
pub proof fn lemma_same_communities_same_modules<W: Weight>(
    c1: ModuleCollection<W>,
    c2: ModuleCollection<W>,
    nodes: Set<NodeId>,
    assign: Map<NodeId, ModuleId>,
)
    requires
        c1.partitions(nodes),
        c2.partitions(nodes),
        groups_communities(c1.module_map(), assign),
        groups_communities(c2.module_map(), assign),
    ensures
        forall|id1: ModuleId| #[trigger]
            c1.module_map().contains_key(id1) ==> exists|id2: ModuleId|
                c2.module_map().contains_key(id2) && #[trigger] c2.module_map()[id2].nodes@.to_set()
                    == c1.module_map()[id1].nodes@.to_set(),
{
    let m1 = c1.module_map();
    let m2 = c2.module_map();
    assert forall|id1: ModuleId| #[trigger] m1.contains_key(id1) implies exists|id2: ModuleId|
        m2.contains_key(id2) && #[trigger] m2[id2].nodes@.to_set() == m1[id1].nodes@.to_set() by {
        let a = m1[id1].nodes@[0];
        assert(is_member(m1, id1, a));
        assert(nodes.contains(a));
        let id2 = choose|id2: ModuleId| is_member(m2, id2, a);
        assert forall|b: NodeId| m2[id2].nodes@.to_set().contains(b) <==> m1[id1].nodes@.to_set().contains(
            b,
        ) by {
            if m1[id1].nodes@.contains(b) {
                assert(is_member(m1, id1, b));
                assert(nodes.contains(b));
                let j = choose|j: ModuleId| is_member(m2, j, b);
                assert(assign[a] == assign[b]);
                assert(j == id2);
            }
            if m2[id2].nodes@.contains(b) {
                assert(is_member(m2, id2, b));
                assert(nodes.contains(b));
                let j = choose|j: ModuleId| is_member(m1, j, b);
                assert(assign[a] == assign[b]);
                assert(j == id1);
            }
        }
        assert(m2[id2].nodes@.to_set() =~= m1[id1].nodes@.to_set());
    }
}

/// `node` may move into `c` from `assign`: `c` is its own community or that
/// of one of its neighbours.
pub open spec fn candidate_move<W: Weight>(
    network: Network<W>,
    assign: Map<NodeId, ModuleId>,
    node: NodeId,
    c: ModuleId,
) -> bool {
    c == assign[node] || exists|k: int|
        0 <= k < network.adjacency(node).len() && assign.contains_key(
            #[trigger] network.adjacency(node)[k].0,
        ) && assign[network.adjacency(node)[k].0] == c
}

/// The state a pass reads and changes: each node's community and each
/// community's weight.
pub type PassState<W> = (Map<NodeId, ModuleId>, Map<ModuleId, W>);

/// From state `before`, `node` moves to the community that examining its
/// candidates keeps, giving state `after`: unchanged where that is its own
/// community, otherwise with `node` in the new community and its weighted
/// degree moved between the two community weights.
pub open spec fn move_ok<W: Weight>(
    network: Network<W>,
    before: PassState<W>,
    node: NodeId,
    after: PassState<W>,
) -> bool {
    let assign = before.0;
    let weights = before.1;
    exists|c: ModuleId|
        #![trigger best_choice(network, assign, weights, node, c)]
        {
            &&& candidate_move(network, assign, node, c)
            &&& best_choice(network, assign, weights, node, c)
            &&& c == assign[node] ==> after == before
            &&& c != assign[node] ==> {
                &&& after.0 == assign.insert(node, c)
                &&& arithmetic_obeys::<W>() ==> after.1 == moved_weights(
                    weights,
                    assign[node],
                    c,
                    entry_weight_total(network.adjacency(node)),
                )
            }
        }
}

/// Step `k` of a pass moves node `order[k]` from state `steps[k]` to
/// `steps[k + 1]`.
pub open spec fn step_ok<W: Weight>(
    network: Network<W>,
    order: Seq<NodeId>,
    steps: Seq<PassState<W>>,
    k: int,
) -> bool {
    move_ok(network, steps[k], order[k], steps[k + 1])
}

/// `steps` are the states of passes over `order`, before and after each
/// node's move.
pub open spec fn pass_trace<W: Weight>(
    network: Network<W>,
    order: Seq<NodeId>,
    steps: Seq<PassState<W>>,
) -> bool {
    &&& steps.len() == order.len() + 1
    &&& forall|k: int| 0 <= k < order.len() ==> #[trigger] step_ok(network, order, steps, k)
}

/// Step `k` changed the community of the node it moved.
pub open spec fn moved_at<W>(order: Seq<NodeId>, steps: Seq<PassState<W>>, k: int) -> bool {
    steps[k + 1].0[order[k]] != steps[k].0[order[k]]
}

/// Some step of the pass changed a node's community.
pub open spec fn moved_in_pass<W>(order: Seq<NodeId>, steps: Seq<PassState<W>>) -> bool {
    exists|k: int| 0 <= k < order.len() && #[trigger] moved_at(order, steps, k)
}

/// Every adjacency entry of every node leads back to that node.
pub open spec fn self_loops_only<W: Weight>(network: Network<W>) -> bool {
    forall|n: NodeId, k: int|
        0 <= k < network.adjacency(n).len() ==> #[trigger] network.adjacency(n)[k].0 == n
}

/// No node of the network would move: for each, examining its candidates
/// keeps its own community.
pub open spec fn stable<W: Weight>(
    network: Network<W>,
    assign: Map<NodeId, ModuleId>,
    weights: Map<ModuleId, W>,
) -> bool {
    forall|n: NodeId|
        network.node_set().contains(n) ==> #[trigger] best_choice(network, assign, weights, n, assign[n])
}

/// `u` and `v` are joined by an edge in one direction or the other: one of
/// them lists the other.
pub open spec fn linked<W: Weight>(network: Network<W>, u: NodeId, v: NodeId) -> bool {
    ||| exists|k: int|
        0 <= k < network.adjacency(u).len() && #[trigger] network.adjacency(u)[k].0 == v
    ||| exists|k: int|
        0 <= k < network.adjacency(v).len() && #[trigger] network.adjacency(v)[k].0 == u
}

/// `p` is a path of `network`, edge directions ignored.
pub open spec fn is_path<W: Weight>(network: Network<W>, p: Seq<NodeId>) -> bool {
    &&& p.len() >= 1
    &&& forall|i: int| 0 <= i < p.len() - 1 ==> #[trigger] linked(network, p[i], p[i + 1])
}

/// `a` and `b` lie in one weakly connected component of `network`.
pub open spec fn connected<W: Weight>(network: Network<W>, a: NodeId, b: NodeId) -> bool {
    exists|p: Seq<NodeId>| #[trigger] is_path(network, p) && p[0] == a && p.last() == b
}

/// Every community of `assign` lies in one weakly connected component of
/// `network`.
pub open spec fn communities_connected<W: Weight>(
    network: Network<W>,
    assign: Map<NodeId, ModuleId>,
) -> bool {
    forall|a: NodeId, b: NodeId|
        assign.contains_key(a) && assign.contains_key(b) && #[trigger] assign[a] == #[trigger] assign[b]
            ==> connected(network, a, b)
}

proof fn lemma_connected_refl<W: Weight>(network: Network<W>, a: NodeId)
    ensures
        connected(network, a, a),
{
    let p = seq![a];
    assert(is_path(network, p));
}

proof fn lemma_connected_symmetric<W: Weight>(network: Network<W>, a: NodeId, b: NodeId)
    requires
        connected(network, a, b),
    ensures
        connected(network, b, a),
{
    let p = choose|p: Seq<NodeId>| #[trigger] is_path(network, p) && p[0] == a && p.last() == b;
    let q = p.reverse();
    assert forall|i: int| 0 <= i < q.len() - 1 implies #[trigger] linked(network, q[i], q[i + 1]) by {
        let j = p.len() - 2 - i;
        assert(linked(network, p[j], p[j + 1]));
        assert(q[i] == p[j + 1]);
        assert(q[i + 1] == p[j]);
    }
    assert(is_path(network, q));
}

proof fn lemma_connected_extend<W: Weight>(network: Network<W>, a: NodeId, b: NodeId, c: NodeId)
    requires
        connected(network, a, b),
        linked(network, b, c),
    ensures
        connected(network, a, c),
{
    let p = choose|p: Seq<NodeId>| #[trigger] is_path(network, p) && p[0] == a && p.last() == b;
    let q = p.push(c);
    assert forall|i: int| 0 <= i < q.len() - 1 implies #[trigger] linked(network, q[i], q[i + 1]) by {
        if i < p.len() - 1 {
            assert(linked(network, p[i], p[i + 1]));
        }
    }
    assert(is_path(network, q));
}

/// One move keeps every community within one weakly connected component.
proof fn lemma_move_keeps_connected<W: Weight>(
    network: Network<W>,
    before: PassState<W>,
    node: NodeId,
    after: PassState<W>,
)
    requires
        move_ok(network, before, node, after),
        communities_connected(network, before.0),
    ensures
        communities_connected(network, after.0),
{
    let assign = before.0;
    let weights = before.1;
    let c = choose|c: ModuleId|
        #![trigger best_choice(network, assign, weights, node, c)]
        {
            &&& candidate_move(network, assign, node, c)
            &&& best_choice(network, assign, weights, node, c)
            &&& c == assign[node] ==> after == before
            &&& c != assign[node] ==> {
                &&& after.0 == assign.insert(node, c)
                &&& arithmetic_obeys::<W>() ==> after.1 == moved_weights(
                    weights,
                    assign[node],
                    c,
                    entry_weight_total(network.adjacency(node)),
                )
            }
        };
    if c != assign[node] {
        let k = choose|k: int|
            0 <= k < network.adjacency(node).len() && assign.contains_key(
                #[trigger] network.adjacency(node)[k].0,
            ) && assign[network.adjacency(node)[k].0] == c;
        let m = network.adjacency(node)[k].0;
        assert(linked(network, node, m));
        assert(linked(network, m, node));
        let na = after.0;
        assert forall|a: NodeId, b: NodeId|
            na.contains_key(a) && na.contains_key(b) && #[trigger] na[a] == #[trigger] na[b]
                implies connected(network, a, b) by {
            if a == node && b == node {
                lemma_connected_refl(network, a);
            } else if a == node {
                assert(assign[b] == c);
                assert(assign[m] == assign[b]);
                assert(connected(network, m, b));
                lemma_connected_symmetric(network, m, b);
                lemma_connected_extend(network, b, m, node);
                lemma_connected_symmetric(network, b, node);
            } else if b == node {
                assert(assign[a] == c);
                assert(assign[a] == assign[m]);
                assert(connected(network, a, m));
                lemma_connected_extend(network, a, m, node);
            } else {
                assert(assign[a] == assign[b]);
            }
        }
    }
}

/// Law: best-gain moves keep every community within one weakly connected
/// component of the network.
pub proof fn lemma_trace_keeps_connected<W: Weight>(
    network: Network<W>,
    order: Seq<NodeId>,
    steps: Seq<PassState<W>>,
    j: int,
)
    requires
        pass_trace(network, order, steps),
        communities_connected(network, steps[0].0),
        0 <= j <= order.len(),
    ensures
        communities_connected(network, steps[j].0),
    decreases j,
{
    if j > 0 {
        lemma_trace_keeps_connected(network, order, steps, j - 1);
        assert(step_ok(network, order, steps, j - 1));
        lemma_move_keeps_connected(network, steps[j - 1], order[j - 1], steps[j]);
    }
}

/// Law: where modules group nodes by community and every community lies in
/// one weakly connected component, so does every module.
pub proof fn lemma_modules_connected<W: Weight>(
    network: Network<W>,
    map: Map<ModuleId, Module<W>>,
    assign: Map<NodeId, ModuleId>,
)
    requires
        groups_communities(map, assign),
        communities_connected(network, assign),
        forall|id: ModuleId, n: NodeId| #[trigger] is_member(map, id, n) ==> assign.contains_key(n),
    ensures
        forall|id: ModuleId, a: NodeId, b: NodeId|
            #[trigger] is_member(map, id, a) && #[trigger] is_member(map, id, b) ==> connected(
                network,
                a,
                b,
            ),
{
    assert forall|id: ModuleId, a: NodeId, b: NodeId|
        #[trigger] is_member(map, id, a) && #[trigger] is_member(map, id, b) implies connected(
        network,
        a,
        b,
    ) by {
        assert(assign[a] == assign[b]);
    }
}

/// Pass `p` of `orders` and `traces` lists every node of `network` once and
/// moves the nodes in that order.
pub open spec fn pass_ok<W: Weight>(
    network: Network<W>,
    orders: Seq<Seq<NodeId>>,
    traces: Seq<Seq<PassState<W>>>,
    p: int,
) -> bool {
    &&& orders[p].no_duplicates()
    &&& orders[p].to_set() == network.node_set()
    &&& pass_trace(network, orders[p], traces[p])
}

/// Pass `p + 1` starts where pass `p` ended.
pub open spec fn chained<W>(traces: Seq<Seq<PassState<W>>>, p: int) -> bool {
    traces[p].last() == traces[p + 1][0]
}

/// `orders` and `traces` are the passes of an optimisation that starts at
/// `start`, one after another.
pub open spec fn pass_run<W: Weight>(
    network: Network<W>,
    start: PassState<W>,
    orders: Seq<Seq<NodeId>>,
    traces: Seq<Seq<PassState<W>>>,
) -> bool {
    &&& orders.len() == traces.len()
    &&& forall|p: int| 0 <= p < orders.len() ==> #[trigger] pass_ok(network, orders, traces, p)
    &&& traces.len() > 0 ==> traces[0][0] == start
    &&& forall|p: int| 0 <= p < orders.len() - 1 ==> #[trigger] chained(traces, p)
}

/// The state after the passes `traces` from `start`.
pub open spec fn run_end<W>(start: PassState<W>, traces: Seq<Seq<PassState<W>>>) -> PassState<W> {
    if traces.len() == 0 {
        start
    } else {
        traces.last().last()
    }
}

/// `start` has each node of `network` in a community of its own, weighted
/// with the weight of the node's adjacency list.
pub open spec fn singleton_state<W: Weight>(network: Network<W>, start: PassState<W>) -> bool {
    &&& start.0.dom() == network.node_set()
    &&& forall|a: NodeId, b: NodeId|
        start.0.contains_key(a) && start.0.contains_key(b) && a != b ==> #[trigger] start.0[a]
            != #[trigger] start.0[b]
    &&& forall|n: NodeId| #[trigger]
        start.0.contains_key(n) ==> start.1.contains_key(start.0[n]) && (arithmetic_obeys::<W>()
            ==> start.1[start.0[n]] == entry_weight_total(network.adjacency(n)))
}

/// From communities of one node each, the optimisation can run
/// `MAX_ITERATIONS` passes over the nodes of `network`, each pass but
/// possibly the last moving some node: the run in which `optimize` gives
/// up.
pub open spec fn louvain_fails<W: Weight>(network: Network<W>) -> bool {
    exists|start: PassState<W>, orders: Seq<Seq<NodeId>>, traces: Seq<Seq<PassState<W>>>|
        #![trigger pass_run(network, start, orders, traces)]
        {
            &&& singleton_state(network, start)
            &&& pass_run(network, start, orders, traces)
            &&& orders.len() == MAX_ITERATIONS
            &&& forall|p: int|
                0 <= p < orders.len() - 1 ==> #[trigger] moved_in_pass(orders[p], traces[p])
        }
}

/// No node of the network has a candidate community whose gain is `>`
/// zero.
pub open spec fn no_positive_gain<W: Weight>(
    network: Network<W>,
    assign: Map<NodeId, ModuleId>,
    weights: Map<ModuleId, W>,
) -> bool {
    forall|n: NodeId, c: ModuleId|
        network.node_set().contains(n) && #[trigger] candidate_set(network, assign, n).contains(c)
            ==> !weight_gt(#[trigger] gain_in(network, assign, weights, n, c), zero_spec::<W>())
}

/// `W`'s `>` is irreflexive and transitive.
pub open spec fn strict_weight_order<W: Weight>() -> bool {
    &&& forall|a: W| !#[trigger] weight_gt(a, a)
    &&& forall|a: W, b: W, c: W|
        #[trigger] weight_gt(a, b) && #[trigger] weight_gt(b, c) ==> weight_gt(a, c)
}

/// Where no candidate has a positive gain, examining candidates in any
/// order keeps the node's own community.
proof fn lemma_best_prefix_keeps<W: Weight>(
    network: Network<W>,
    assign: Map<NodeId, ModuleId>,
    weights: Map<ModuleId, W>,
    n: NodeId,
    cands: Seq<ModuleId>,
)
    requires
        no_positive_gain(network, assign, weights),
        network.node_set().contains(n),
        forall|k: int| 0 <= k < cands.len() ==> candidate_set(network, assign, n).contains(
            #[trigger] cands[k],
        ),
    ensures
        best_prefix(network, assign, weights, n, cands) == (assign[n], zero_spec::<W>()),
    decreases cands.len(),
{
    if cands.len() > 0 {
        lemma_best_prefix_keeps(network, assign, weights, n, cands.drop_last());
        assert(candidate_set(network, assign, n).contains(cands[cands.len() - 1]));
    }
}

/// The kept community after a prefix of the candidates: either the own
/// community with gain zero and no candidate so far above zero, or a
/// community whose gain is above zero.
proof fn lemma_best_prefix_shape<W: Weight>(
    network: Network<W>,
    assign: Map<NodeId, ModuleId>,
    weights: Map<ModuleId, W>,
    n: NodeId,
    cands: Seq<ModuleId>,
)
    requires
        strict_weight_order::<W>(),
    ensures
        ({
            let bp = best_prefix(network, assign, weights, n, cands);
            ||| bp == (assign[n], zero_spec::<W>()) && forall|k: int|
                0 <= k < cands.len() ==> !weight_gt(
                    gain_in(network, assign, weights, n, #[trigger] cands[k]),
                    zero_spec::<W>(),
                )
            ||| weight_gt(bp.1, zero_spec::<W>()) && bp.1 == gain_in(network, assign, weights, n, bp.0)
        }),
    decreases cands.len(),
{
    if cands.len() > 0 {
        let prev = cands.drop_last();
        lemma_best_prefix_shape(network, assign, weights, n, prev);
        let pb = best_prefix(network, assign, weights, n, prev);
        let c = cands.last();
        let g = gain_in(network, assign, weights, n, c);
        if weight_gt(g, pb.1) {
            if pb.1 != zero_spec::<W>() {
                assert(weight_gt(pb.1, zero_spec::<W>()));
                assert(weight_gt(g, zero_spec::<W>()));
            }
        } else {
            if pb == (assign[n], zero_spec::<W>()) && forall|k: int|
                0 <= k < prev.len() ==> !weight_gt(
                    gain_in(network, assign, weights, n, #[trigger] prev[k]),
                    zero_spec::<W>(),
                ) {
                assert forall|k: int| 0 <= k < cands.len() implies !weight_gt(
                    gain_in(network, assign, weights, n, #[trigger] cands[k]),
                    zero_spec::<W>(),
                ) by {
                    if k < prev.len() {
                        assert(cands[k] == prev[k]);
                    }
                }
            }
        }
    }
}

/// Law: where `W`'s `>` is a strict order, examining the candidates `cands`
/// keeps a gain that no candidate's gain, nor zero, exceeds: the node's own
/// community with gain zero, or a candidate with its own gain. So the
/// community chosen for a node has the largest gain among its candidates
/// where that gain is positive, and is the node's own community otherwise.
pub proof fn lemma_best_prefix_is_max<W: Weight>(
    network: Network<W>,
    assign: Map<NodeId, ModuleId>,
    weights: Map<ModuleId, W>,
    n: NodeId,
    cands: Seq<ModuleId>,
)
    requires
        strict_weight_order::<W>(),
    ensures
        ({
            let bp = best_prefix(network, assign, weights, n, cands);
            &&& forall|k: int|
                0 <= k < cands.len() ==> !weight_gt(
                    gain_in(network, assign, weights, n, #[trigger] cands[k]),
                    bp.1,
                )
            &&& !weight_gt(zero_spec::<W>(), bp.1)
            &&& bp == (assign[n], zero_spec::<W>()) || (cands.contains(bp.0) && bp.1 == gain_in(
                network,
                assign,
                weights,
                n,
                bp.0,
            ))
        }),
    decreases cands.len(),
{
    if cands.len() > 0 {
        let prev = cands.drop_last();
        lemma_best_prefix_is_max(network, assign, weights, n, prev);
        let pb = best_prefix(network, assign, weights, n, prev);
        let c = cands.last();
        let g = gain_in(network, assign, weights, n, c);
        let bp = best_prefix(network, assign, weights, n, cands);
        assert forall|k: int| 0 <= k < cands.len() implies !weight_gt(
            gain_in(network, assign, weights, n, #[trigger] cands[k]),
            bp.1,
        ) by {
            let gk = gain_in(network, assign, weights, n, cands[k]);
            if k < prev.len() {
                assert(cands[k] == prev[k]);
                assert(!weight_gt(gk, pb.1));
                if weight_gt(g, pb.1) && weight_gt(gk, g) {
                    assert(weight_gt(gk, pb.1));
                }
            }
        }
        if weight_gt(g, pb.1) {
            assert(cands[cands.len() - 1] == c);
            if weight_gt(zero_spec::<W>(), g) {
                assert(weight_gt(zero_spec::<W>(), pb.1));
            }
        } else if pb != (assign[n], zero_spec::<W>()) {
            let j = choose|j: int| 0 <= j < prev.len() && prev[j] == pb.0;
            assert(cands[j] == pb.0);
        }
    }
}

/// Law: where `W`'s order is strict, a state from which no node would move
/// (in the order one pass examined the candidates) offers no node a positive
/// gain, so a pass in any order moves nothing.
pub proof fn lemma_stable_no_positive_gain<W: Weight>(
    network: Network<W>,
    assign: Map<NodeId, ModuleId>,
    weights: Map<ModuleId, W>,
)
    requires
        arithmetic_obeys::<W>(),
        order_obeys::<W>(),
        strict_weight_order::<W>(),
        stable(network, assign, weights),
    ensures
        no_positive_gain(network, assign, weights),
{
    assert forall|n: NodeId, c: ModuleId|
        network.node_set().contains(n) && #[trigger] candidate_set(network, assign, n).contains(c)
            implies !weight_gt(
            #[trigger] gain_in(network, assign, weights, n, c),
            zero_spec::<W>(),
        ) by {
        assert(best_choice(network, assign, weights, n, assign[n]));
        let cands = choose|cands: Seq<ModuleId>|
            #![trigger best_prefix(network, assign, weights, n, cands)]
            {
                &&& cands.no_duplicates()
                &&& cands.to_set() == candidate_set(network, assign, n)
                &&& arithmetic_obeys::<W>() && order_obeys::<W>() ==> best_prefix(
                    network,
                    assign,
                    weights,
                    n,
                    cands,
                ).0 == assign[n]
            };
        lemma_best_prefix_shape(network, assign, weights, n, cands);
        let bp = best_prefix(network, assign, weights, n, cands);
        if weight_gt(bp.1, zero_spec::<W>()) && bp.1 == gain_in(network, assign, weights, n, bp.0) {
            assert(gain_in(network, assign, weights, n, assign[n]) == zero_spec::<W>());
            assert(weight_gt(zero_spec::<W>(), zero_spec::<W>()));
        }
        assert(cands.to_set().contains(c));
        let k = cands.index_of(c);
        assert(cands[k] == c);
    }
}

/// A pass from a state without positive gains moves nothing.
proof fn lemma_no_gain_pass<W: Weight>(
    network: Network<W>,
    order: Seq<NodeId>,
    steps: Seq<PassState<W>>,
    j: int,
)
    requires
        arithmetic_obeys::<W>(),
        order_obeys::<W>(),
        pass_trace(network, order, steps),
        no_positive_gain(network, steps[0].0, steps[0].1),
        forall|k: int| 0 <= k < order.len() ==> network.node_set().contains(#[trigger] order[k]),
        0 <= j <= order.len(),
    ensures
        steps[j] == steps[0],
        forall|k: int| 0 <= k < j ==> !#[trigger] moved_at(order, steps, k),
    decreases j,
{
    if j > 0 {
        lemma_no_gain_pass(network, order, steps, j - 1);
        let k = j - 1;
        assert(step_ok(network, order, steps, k));
        let st = steps[k];
        let n = order[k];
        assert(network.node_set().contains(n));
        let c = choose|c: ModuleId|
            #![trigger best_choice(network, st.0, st.1, n, c)]
            {
                &&& candidate_move(network, st.0, n, c)
                &&& best_choice(network, st.0, st.1, n, c)
                &&& c == st.0[n] ==> steps[k + 1] == st
                &&& c != st.0[n] ==> {
                    &&& steps[k + 1].0 == st.0.insert(n, c)
                    &&& arithmetic_obeys::<W>() ==> steps[k + 1].1 == moved_weights(
                        st.1,
                        st.0[n],
                        c,
                        entry_weight_total(network.adjacency(n)),
                    )
                }
            };
        let cands = choose|cands: Seq<ModuleId>|
            #![trigger best_prefix(network, st.0, st.1, n, cands)]
            {
                &&& cands.no_duplicates()
                &&& cands.to_set() == candidate_set(network, st.0, n)
                &&& arithmetic_obeys::<W>() && order_obeys::<W>() ==> best_prefix(
                    network,
                    st.0,
                    st.1,
                    n,
                    cands,
                ).0 == c
            };
        assert forall|i: int| 0 <= i < cands.len() implies candidate_set(network, st.0, n).contains(
            #[trigger] cands[i],
        ) by {
            assert(cands.to_set().contains(cands[i]));
        }
        lemma_best_prefix_keeps(network, st.0, st.1, n, cands);
        assert(c == st.0[n]);
        assert(!moved_at(order, steps, k));
    }
}

/// A pass in which no node moved leaves every state as the first.
proof fn lemma_no_move_constant<W: Weight>(
    network: Network<W>,
    order: Seq<NodeId>,
    steps: Seq<PassState<W>>,
    j: int,
)
    requires
        pass_trace(network, order, steps),
        !moved_in_pass(order, steps),
        0 <= j <= order.len(),
    ensures
        steps[j] == steps[0],
    decreases j,
{
    if j > 0 {
        lemma_no_move_constant(network, order, steps, j - 1);
        assert(step_ok(network, order, steps, j - 1));
        assert(!moved_at(order, steps, j - 1));
    }
}

/// Two passes, the second starting where the first ends, make one trace.
proof fn lemma_trace_concat<W: Weight>(
    network: Network<W>,
    o1: Seq<NodeId>,
    s1: Seq<PassState<W>>,
    o2: Seq<NodeId>,
    s2: Seq<PassState<W>>,
)
    requires
        pass_trace(network, o1, s1),
        pass_trace(network, o2, s2),
        s1.last() == s2[0],
    ensures
        pass_trace(network, o1 + o2, s1 + s2.skip(1)),
        (s1 + s2.skip(1))[0] == s1[0],
        (s1 + s2.skip(1)).last() == s2.last(),
{
    let o = o1 + o2;
    let s = s1 + s2.skip(1);
    assert forall|k: int| 0 <= k < o.len() implies #[trigger] step_ok(network, o, s, k) by {
        if k < o1.len() {
            assert(step_ok(network, o1, s1, k));
            assert(s[k] == s1[k]);
            if k + 1 < s1.len() {
                assert(s[k + 1] == s1[k + 1]);
            }
            assert(o[k] == o1[k]);
        } else {
            let j = k - o1.len();
            assert(step_ok(network, o2, s2, j));
            assert(o[k] == o2[j]);
            assert(s[k + 1] == s2[j + 1]);
            if j == 0 {
                assert(s[k] == s1.last());
            } else {
                assert(s[k] == s2[j]);
            }
        }
    }
}

/// The weight recorded for community `c` in `weights`; the zero weight
/// where none is.
pub open spec fn weight_or_zero<W: Weight>(weights: Map<ModuleId, W>, c: ModuleId) -> W {
    if weights.contains_key(c) {
        weights[c]
    } else {
        zero_spec::<W>()
    }
}

/// The modularity gain of moving `node` into community `target` under the
/// communities `assign` and their weights `weights`: zero for its own
/// community or an edgeless network.
pub open spec fn gain_in<W: Weight>(
    network: Network<W>,
    assign: Map<NodeId, ModuleId>,
    weights: Map<ModuleId, W>,
    node: NodeId,
    target: ModuleId,
) -> W {
    let current = assign[node];
    let m = edge_weight_total(network.edge_log());
    if current == target || weight_eq(m, zero_spec::<W>()) {
        zero_spec::<W>()
    } else {
        let adj = network.adjacency(node);
        gain_value(
            entry_weight_total(adj),
            add_entries(zero_spec::<W>(), adj, other_in_community(assign, current, node)),
            add_entries(zero_spec::<W>(), adj, other_in_community(assign, target, node)),
            weight_or_zero(weights, current),
            weight_or_zero(weights, target),
            m,
        )
    }
}

/// The communities `node` may move into: its own and its neighbours'.
pub open spec fn candidate_set<W: Weight>(
    network: Network<W>,
    assign: Map<NodeId, ModuleId>,
    node: NodeId,
) -> Set<ModuleId> {
    Set::new(|c: ModuleId| candidate_move(network, assign, node, c))
}

/// The community kept, and its gain, after examining the candidates `cands`
/// in order: starting from the node's own community with gain zero, a
/// candidate replaces the kept one where its gain is `>` the kept gain.
pub open spec fn best_prefix<W: Weight>(
    network: Network<W>,
    assign: Map<NodeId, ModuleId>,
    weights: Map<ModuleId, W>,
    node: NodeId,
    cands: Seq<ModuleId>,
) -> (ModuleId, W)
    decreases cands.len(),
{
    if cands.len() == 0 {
        (assign[node], zero_spec::<W>())
    } else {
        let prev = best_prefix(network, assign, weights, node, cands.drop_last());
        let c = cands.last();
        let g = gain_in(network, assign, weights, node, c);
        if weight_gt(g, prev.1) {
            (c, g)
        } else {
            prev
        }
    }
}

/// `c` is the community that examining the candidates of `node`, each once
/// in some order, keeps: one of largest gain, kept only where its gain is
/// `>` zero (where `W` follows vstd's specifications).
pub open spec fn best_choice<W: Weight>(
    network: Network<W>,
    assign: Map<NodeId, ModuleId>,
    weights: Map<ModuleId, W>,
    node: NodeId,
    c: ModuleId,
) -> bool {
    exists|cands: Seq<ModuleId>|
        #![trigger best_prefix(network, assign, weights, node, cands)]
        {
            &&& cands.no_duplicates()
            &&& cands.to_set() == candidate_set(network, assign, node)
            &&& arithmetic_obeys::<W>() && order_obeys::<W>() ==> best_prefix(
                network,
                assign,
                weights,
                node,
                cands,
            ).0 == c
        }
}

/// The community weights after a node of weighted degree `d` moves from
/// community `from` into `to`: `from` loses `d` (where it has a weight) and
/// `to` gains it (from the zero weight where it has none).
pub open spec fn moved_weights<W: Weight>(
    weights: Map<ModuleId, W>,
    from: ModuleId,
    to: ModuleId,
    d: W,
) -> Map<ModuleId, W> {
    let lowered = if weights.contains_key(from) {
        weights.insert(from, weights[from].sub_spec(d))
    } else {
        weights
    };
    lowered.insert(to, weight_or_zero(lowered, to).add_spec(d))
}

/// A node other than `node` that `assign` puts in community `c`.
pub open spec fn other_in_community(
    assign: Map<NodeId, ModuleId>,
    c: ModuleId,
    node: NodeId,
) -> spec_fn(NodeId) -> bool {
    |n: NodeId| assign.contains_key(n) && assign[n] == c && n != node
}

/// A node that `assign` puts in community `c`.
pub open spec fn assigned_to(assign: Map<NodeId, ModuleId>, c: ModuleId) -> spec_fn(NodeId) -> bool {
    |n: NodeId| assign.contains_key(n) && assign[n] == c
}

/// The modularity gain of a move, from the node's weighted degree `d`, its
/// edge weights `ec` into its current and `et` into the target community,
/// the two communities' weights `cw` and `tw` and the total weight `m`:
/// `(et - ec) / m - d * (tw - cw + d) / (2 m * m)`.
pub open spec fn gain_value<W: Weight>(d: W, ec: W, et: W, cw: W, tw: W, m: W) -> W {
    let first = et.sub_spec(ec).div_spec(m);
    let spread = tw.sub_spec(cw).add_spec(d);
    let second = d.mul_spec(spread).div_spec(weight_of::<W>(2u32).mul_spec(m).mul_spec(m));
    first.sub_spec(second)
}

/// Membership in community `c` under `assign`.
spec fn in_community(assign: Map<NodeId, ModuleId>, c: ModuleId) -> spec_fn(NodeId) -> bool {
    |n: NodeId| assign[n] == c
}

/// Some entry of `s` is in community `c`.
spec fn old_contains(s: Seq<NodeId>, assign: Map<NodeId, ModuleId>, c: ModuleId) -> bool {
    exists|k: int| 0 <= k < s.len() && assign[#[trigger] s[k]] == c
}

proof fn lemma_filter_none(s: Seq<NodeId>, assign: Map<NodeId, ModuleId>, c: ModuleId)
    requires
        !old_contains(s, assign, c),
    ensures
        s.filter(in_community(assign, c)) == Seq::<NodeId>::empty(),
    decreases s.len(),
{
    reveal(Seq::filter);
    if s.len() > 0 {
        let prev = s.drop_last();
        assert(!old_contains(prev, assign, c)) by {
            if old_contains(prev, assign, c) {
                let k = choose|k: int| 0 <= k < prev.len() && assign[#[trigger] prev[k]] == c;
                assert(s[k] == prev[k]);
            }
        }
        lemma_filter_none(prev, assign, c);
        assert(assign[s[s.len() - 1]] != c);
    }
}

} // verus!
