use std::collections::HashMap;

use vstd::prelude::*;
use vstd::std_specs::iter::IteratorSpec;

use crate::error::OslomError;
use vstd::std_specs::ops::AddSpec;
use crate::graph::{
    add_entries, degree_total, edge_weight_total, member_of, weight_into, Edge, Network,
    NetworkBuilder, NodeId,
};
use crate::louvain::{
    communities_connected, groups_communities, louvain_fails, self_loops_only, singleton_state,
    stable, strict_weight_order, LouvainOptimizer,
};
use crate::modules::{
    disjoint_modules, homeless_upto, is_member, listed_count, listed_score_total, merged_nodes, pair_overlaps, Module,
    ModuleCollection, ModuleId,
};
use crate::order::{copy_nodes, dedup_sorted, sort_nodes, strictly_sorted};
use crate::random::NodeShuffler;
use crate::weight::{
    arithmetic_obeys, modularity_term, order_obeys, weight_add, weight_div, weight_eq, weight_ge,
    weight_gt,
    weight_lt, weight_mul, weight_of, weight_ops_total, weight_sub, zero_spec, zero_weight, Weight,
    count_weight,
};
use vstd::std_specs::ops::{DivSpec, SubSpec};

verus! {

broadcast use {vstd::std_specs::hash::group_hash_axioms, vstd::seq_lib::group_seq_properties};

/// Parameters of an OSLOM run.
#[derive(Debug, Clone, Copy)]
pub struct OslomConfig<W> {
    /// Number of runs for the first hierarchical level
    pub r: usize,
    /// Number of runs for higher hierarchical levels
    pub hr: usize,
    /// Statistical significance threshold
    pub threshold: W,
    /// Coverage parameter for module unions
    pub cp: W,
    /// Whether to find singleton nodes
    pub find_singletons: bool,
    /// Random seed for reproducibility
    pub random_seed: Option<u64>,
    /// Verbose output
    pub verbose: bool,
    /// Maximum iterations for convergence
    pub max_iterations: usize,
    /// Convergence tolerance
    pub convergence_tolerance: W,
    /// Number of threads for parallel processing (Some(1) = single-threaded by default, None = use all available)
    pub num_threads: Option<usize>,
}

impl<W: Weight> OslomConfig<W> {
    /// Ten first-level runs, fifty higher-level runs, threshold 1/10, cp 1/2,
    /// no singletons, no seed, quiet, 100 iterations, tolerance 1/10^6, one
    /// thread. The fractions are computed with `W`'s division, which gives
    /// the correctly rounded values `0.1`, `0.5` and `1e-6` for floating-point
    /// weights.
    pub fn default() -> (r: Self)
        requires
            weight_ops_total::<W>(),
        ensures
            r.r == 10,
            r.hr == 50,
            !r.find_singletons,
            r.random_seed is None,
            !r.verbose,
            r.max_iterations == 100,
            r.num_threads == Some(1usize),
            arithmetic_obeys::<W>() ==> {
                &&& r.threshold == weight_of::<W>(1u32).div_spec(weight_of::<W>(10u32))
                &&& r.cp == weight_of::<W>(1u32).div_spec(weight_of::<W>(2u32))
                &&& r.convergence_tolerance == weight_of::<W>(1u32).div_spec(
                    weight_of::<W>(1000000u32),
                )
            },
    {
        let one = W::from(1u32);
        OslomConfig {
            r: 10,
            hr: 50,
            threshold: weight_div(one, W::from(10u32)),
            cp: weight_div(one, W::from(2u32)),
            find_singletons: false,
            random_seed: None,
            verbose: false,
            max_iterations: 100,
            convergence_tolerance: weight_div(one, W::from(1000000u32)),
            num_threads: Some(1),
        }
    }
}

/// Summary of the first hierarchical level.
#[derive(Debug, Clone, Copy)]
pub struct ClusteringStats<W> {
    pub num_modules: usize,
    pub coverage: usize,
    pub modularity: W,
    pub total_nodes: usize,
    pub homeless_nodes: usize,
}

/// Hierarchical clustering results (level -> modules), their statistics and
/// the configuration used.
#[derive(Debug)]
pub struct OslomResult<W> {
    /// Hierarchical clustering results (level -> modules)
    pub hierarchical_modules: HashMap<usize, ModuleCollection<W>>,
    /// Clustering statistics
    pub statistics: ClusteringStats<W>,
    /// Configuration used
    pub config: OslomConfig<W>,
}

impl<W: Weight> OslomResult<W> {
    /// The number of levels.
    pub fn num_levels(&self) -> (r: usize)
        ensures
            r == self.hierarchical_modules@.dom().len(),
    {
        self.hierarchical_modules.len()
    }

    /// The highest level, 0 where there is none.
    pub fn max_level(&self) -> (r: usize)
        ensures
            self.hierarchical_modules@.dom().len() == 0 ==> r == 0,
            self.hierarchical_modules@.dom().len() > 0 ==> self.hierarchical_modules@.contains_key(
                r,
            ),
            forall|l: usize| self.hierarchical_modules@.contains_key(l) ==> l <= r,
    {
        let mut best: Option<usize> = None;
        let ghost keys = self.hierarchical_modules.keys().remaining();
        for l in it: self.hierarchical_modules.keys()
            invariant
                it.seq() == keys,
                keys.unref().to_set() == self.hierarchical_modules@.dom(),
                match best {
                    Some(b) => self.hierarchical_modules@.contains_key(b) && forall|j: int|
                        0 <= j < it.index() ==> *it.seq()[j] <= b,
                    None => it.index() == 0,
                },
        {
            proof {
                assert(keys.unref()[it.index() as int] == *l);
                assert(keys.unref().contains(*l));
            }
            best = match best {
                Some(b) => if *l > b {
                    Some(*l)
                } else {
                    Some(b)
                },
                None => Some(*l),
            };
        }
        proof {
            assert forall|l: usize| self.hierarchical_modules@.contains_key(l) implies match best {
                Some(b) => l <= b,
                None => false,
            } by {
                assert(keys.unref().to_set().contains(l));
                let j = keys.unref().index_of(l);
                assert(*keys[j] == l);
            }
            if self.hierarchical_modules@.dom().len() > 0 {
                let l = self.hierarchical_modules@.dom().choose();
                assert(self.hierarchical_modules@.contains_key(l));
            }
        }
        match best {
            Some(b) => b,
            None => 0,
        }
    }

    /// The modules of `level`, where there is such a level.
    pub fn get_level(&self, level: usize) -> (r: Option<&ModuleCollection<W>>)
        ensures
            match r {
                Some(c) => self.hierarchical_modules@.contains_key(level) && *c
                    == self.hierarchical_modules@[level],
                None => !self.hierarchical_modules@.contains_key(level),
            },
    {
        self.hierarchical_modules.get(&level)
    }

    /// The modules of every level, numbered `0 ..` within their level in no
    /// particular order, as plain node lists: each module of the level under
    /// exactly one number.
    pub fn to_python_format(&self) -> (r: HashMap<usize, HashMap<usize, Vec<NodeId>>>)
        requires
            forall|l: usize| #[trigger]
                self.hierarchical_modules@.contains_key(l) ==> self.hierarchical_modules@[l].wf(),
        ensures
            r@.dom() == self.hierarchical_modules@.dom(),
            forall|l: usize| #[trigger]
                r@.contains_key(l) ==> exists|ids: Seq<ModuleId>|
                    numbers_modules(r@[l]@, self.hierarchical_modules@[l], ids),
    {
        let mut result: HashMap<usize, HashMap<usize, Vec<NodeId>>> = HashMap::new();
        let ghost levels = self.hierarchical_modules@;
        let ghost keys = self.hierarchical_modules.keys().remaining();
        for l in it: self.hierarchical_modules.keys()
            invariant
                it.seq() == keys,
                keys.unref().to_set() == levels.dom(),
                keys.unref().no_duplicates(),
                levels == self.hierarchical_modules@,
                forall|l: usize| #[trigger]
                    levels.contains_key(l) ==> levels[l].wf(),
                result@.dom() == keys.unref().take(it.index() as int).to_set(),
                forall|l: usize| #[trigger]
                    result@.contains_key(l) ==> exists|ids: Seq<ModuleId>|
                        numbers_modules(result@[l]@, levels[l], ids),
        {
            let level = *l;
            proof {
                assert(keys.unref()[it.index() as int] == level);
                assert(keys.unref().contains(level));
                assert(keys.unref().take(it.index() + 1) =~= keys.unref().take(
                    it.index() as int,
                ).push(level));
                keys.unref().take(it.index() as int).lemma_push_to_set_commute(level);
            }
            if let Some(collection) = self.hierarchical_modules.get(&level) {
                let modules = collection.modules();
                let mut level_modules: HashMap<usize, Vec<NodeId>> = HashMap::new();
                let mut idx: usize = 0;
                while idx < modules.len()
                    invariant
                        collection.wf(),
                        idx <= modules@.len(),
                        modules@.len() == collection.module_map().dom().len(),
                        forall|j: int|
                            0 <= j < modules@.len() ==> collection.module_map().contains_key(
                                #[trigger] modules@[j].id,
                            ) && *modules@[j] == collection.module_map()[modules@[j].id],
                        level_modules@.dom() == Set::new(|i: usize| i < idx),
                        forall|i: usize|
                            i < idx ==> #[trigger] level_modules@[i]@
                                == collection.module_map()[modules@[i as int].id].nodes@,
                    decreases modules@.len() - idx,
                {
                    let module = modules[idx];
                    let nodes = copy_nodes(&module.nodes);
                    level_modules.insert(idx, nodes);
                    proof {
                        assert(level_modules@.dom() =~= Set::new(|i: usize| i < idx + 1));
                    }
                    idx = idx + 1;
                }
                let ghost ids = Seq::new(modules@.len(), |j: int| modules@[j].id);
                proof {
                    assert(ids.no_duplicates()) by {
                        assert forall|a: int, b: int|
                            0 <= a < ids.len() && 0 <= b < ids.len() && a != b implies ids[a]
                            != ids[b] by {
                            if a < b {
                                assert(modules@[a].id != modules@[b].id);
                            } else {
                                assert(modules@[b].id != modules@[a].id);
                            }
                        }
                    }
                    assert forall|i: usize| i < ids.len() implies {
                        &&& collection.module_map().contains_key(#[trigger] ids[i as int])
                        &&& level_modules@[i]@ == collection.module_map()[ids[i as int]].nodes@
                    } by {
                        assert(collection.module_map().contains_key(modules@[i as int].id));
                        assert(level_modules@[i]@ == collection.module_map()[modules@[
                            i as int
                        ].id].nodes@);
                    }
                    assert(numbers_modules(level_modules@, *collection, ids));
                }
                let ghost before = result@;
                result.insert(level, level_modules);
                proof {
                    assert forall|k: usize| #[trigger]
                        result@.contains_key(k) implies exists|ids: Seq<ModuleId>|
                        numbers_modules(result@[k]@, levels[k], ids) by {
                        if k == level {
                            assert(numbers_modules(result@[k]@, levels[k], ids));
                        } else {
                            assert(before.contains_key(k));
                            assert(result@[k] == before[k]);
                        }
                    }
                }
            }
        }
        proof {
            assert(keys.unref().take(keys.unref().len() as int) =~= keys.unref());
        }
        result
    }
}

/// `level` numbers the modules of `c` as `0 .. n`, module `ids[i]` under
/// number `i`: `ids` lists each module of `c` once.
pub open spec fn numbers_modules<W: Weight>(
    level: Map<usize, Vec<NodeId>>,
    c: ModuleCollection<W>,
    ids: Seq<ModuleId>,
) -> bool {
    &&& ids.len() == c.module_map().dom().len()
    &&& ids.no_duplicates()
    &&& level.dom() == Set::new(|i: usize| i < ids.len())
    &&& forall|i: usize|
        i < ids.len() ==> {
            &&& c.module_map().contains_key(#[trigger] ids[i as int])
            &&& level[i]@ == c.module_map()[ids[i as int]].nodes@
        }
}

/// The statistical evaluation and progress reporting that an OSLOM run
/// relies on.
pub trait ModuleScorer<W> {
    /// `value` is a score that this scorer gives the module made of `nodes`
    /// in `network`. A scorer that does not define it makes no promise on
    /// its scores; the library's contracts speak of this relation for a
    /// scorer of any type, so what holds of it there holds whatever an
    /// implementation makes it.
    open spec fn scored(&self, network: Network<W>, nodes: Seq<NodeId>, value: W) -> bool {
        true
    }

    /// The significance score of the module made of `nodes` in `network`.
    fn evaluate_module(&self, network: &Network<W>, nodes: &[NodeId]) -> (r: W)
        ensures
            self.scored(*network, nodes@, r),
    ;

    /// Called as the run progresses.
    fn progress(&self, event: Progress);
}

/// Progress of an OSLOM run.
#[derive(Debug, Clone, Copy, PartialEq, Eq)]
pub enum Progress {
    /// A hierarchical level is about to be processed.
    LevelStart { level: usize },
    /// A level produced no module; the run stops.
    NoModules { level: usize },
    /// A level produced `count` modules.
    ModulesFound { level: usize, count: usize },
    /// Run `run` (from 1) of `runs` of a level starts.
    Run { run: usize, runs: usize },
}

/// Scores every module of `modules` with `scorer` and keeps, under fresh
/// identifiers, those whose score is `>=` the threshold, with that score.
#[verifier::spinoff_prover]
pub fn evaluate_modules<W: Weight, S: ModuleScorer<W>>(
    network: &Network<W>,
    threshold: W,
    modules: &ModuleCollection<W>,
    scorer: &S,
) -> (r: ModuleCollection<W>)
    requires
        modules.wf(),
    ensures
        r.wf(),
        r.spec_next_id() == r.module_map().dom().len(),
        r.module_map().dom().len() <= modules.module_map().dom().len(),
        forall|id: ModuleId| #[trigger]
            r.module_map().contains_key(id) ==> exists|old_id: ModuleId|
                modules.module_map().contains_key(old_id) && r.module_map()[id].nodes@
                    == modules.module_map()[old_id].nodes@,
        r.covered_nodes().subset_of(modules.covered_nodes()),
        evaluated_from(*scorer, *network, modules.module_map(), r.module_map(), threshold),
        disjoint_modules(modules.module_map()) ==> disjoint_modules(r.module_map()),
{
    let mut evaluated: ModuleCollection<W> = ModuleCollection::new();
    let all = modules.modules();
    let ghost map = modules.module_map();
    let ghost order = Seq::new(all@.len(), |j: int| all@[j].id);
    let ghost mut scores: Seq<W> = Seq::empty();
    let ghost mut kept: Seq<int> = Seq::empty();
    proof {
        assert(order.no_duplicates()) by {
            assert forall|a: int, b: int|
                0 <= a < order.len() && 0 <= b < order.len() && a != b implies order[a]
                != order[b] by {
                if a < b {
                    assert(all@[a].id != all@[b].id);
                } else {
                    assert(all@[b].id != all@[a].id);
                }
            }
        }
        assert(lists_each_module(map, order));
        assert(evaluated.module_map().dom() =~= Set::new(|id: ModuleId| id < kept.len()));
    }
    let mut i: usize = 0;
    while i < all.len()
        invariant
            map == modules.module_map(),
            order == Seq::new(all@.len(), |j: int| all@[j].id),
            lists_each_module(map, order),
            scores.len() == i,
            forall|j: int|
                0 <= j < i ==> scorer.scored(*network, map[order[j]].nodes@, #[trigger] scores[j]),
            evaluated.spec_next_id() == kept.len(),
            forall|a: int, b: int| 0 <= a < b < kept.len() ==> kept[a] < kept[b],
            forall|a: int| 0 <= a < kept.len() ==> 0 <= #[trigger] kept[a] < i,
            order_obeys::<W>() ==> forall|j: int|
                0 <= j < i ==> (#[trigger] kept.contains(j) <==> weight_ge(scores[j], threshold)),
            evaluated.module_map().dom() == Set::new(|id: ModuleId| id < kept.len()),
            forall|id: ModuleId|
                id < kept.len() ==> #[trigger] evaluated.module_map()[id].id == id
                    && evaluated.module_map()[id].nodes@ == map[order[kept[id as int]]].nodes@
                    && evaluated.module_map()[id].score == scores[kept[id as int]],
            modules.wf(),
            i <= all@.len(),
            all@.len() == modules.module_map().dom().len(),
            forall|j: int|
                0 <= j < all@.len() ==> modules.module_map().contains_key(#[trigger] all@[j].id)
                    && *all@[j] == modules.module_map()[all@[j].id],
            evaluated.wf(),
            evaluated.spec_next_id() == evaluated.module_map().dom().len(),
            evaluated.spec_next_id() <= i,
            forall|id: ModuleId| #[trigger]
                evaluated.module_map().contains_key(id) ==> id < evaluated.spec_next_id(),
            forall|id: ModuleId| #[trigger]
                evaluated.module_map().contains_key(id) ==> exists|old_id: ModuleId|
                    modules.module_map().contains_key(old_id) && evaluated.module_map()[id].nodes@
                        == modules.module_map()[old_id].nodes@,
        decreases all@.len() - i,
    {
        let module = all[i];
        let score = scorer.evaluate_module(network, module.nodes.as_slice());
        let ghost old_kept = kept;
        let ghost old_scores = scores;
        let ghost old_map = evaluated.module_map();
        proof {
            scores = scores.push(score);
            assert(map[order[i as int]] == *all@[i as int]);
            assert forall|j: int|
                0 <= j < i + 1 implies scorer.scored(
                *network,
                map[order[j]].nodes@,
                #[trigger] scores[j],
            ) by {
                if j < i {
                    assert(scores[j] == old_scores[j]);
                }
            }
        }
        if score.ge(&threshold) {
            let nodes = copy_nodes(&module.nodes);
            let ghost before = evaluated.module_map();
            let ghost old_id = module.id;
            proof {
                evaluated.lemma_wf_facts();
                assert(modules.module_map().contains_key(all@[i as int].id));
                assert(!before.contains_key(evaluated.spec_next_id()));
            }
            let id = evaluated.insert_module(nodes, score);
            proof {
                assert(evaluated.module_map().dom() =~= before.dom().insert(id));
                assert(evaluated.module_map().dom().len() == before.dom().len() + 1);
                assert(modules.module_map().contains_key(old_id) && evaluated.module_map()[id].nodes@
                    == modules.module_map()[old_id].nodes@);
                kept = kept.push(i as int);
                assert(id == old_kept.len());
                assert(evaluated.module_map().dom() =~= Set::new(|x: ModuleId| x < kept.len()));
                assert forall|x: ModuleId|
                    x < kept.len() implies #[trigger] evaluated.module_map()[x].id == x
                    && evaluated.module_map()[x].nodes@ == map[order[kept[x as int]]].nodes@
                    && evaluated.module_map()[x].score == scores[kept[x as int]] by {
                    if x < old_kept.len() {
                        assert(old_map.contains_key(x));
                        assert(old_map[x].id == x);
                        assert(kept[x as int] == old_kept[x as int]);
                        assert(evaluated.module_map()[x] == old_map[x]);
                        assert(0 <= old_kept[x as int] < i);
                        assert(scores[kept[x as int]] == old_scores[kept[x as int]]);
                    } else {
                        assert(x == id);
                        assert(kept[x as int] == i);
                        assert(order[i as int] == all@[i as int].id);
                        assert(evaluated.module_map()[x].score == score);
                        assert(scores[i as int] == score);
                        assert(map[order[i as int]] == *all@[i as int]);
                    }
                }
                if order_obeys::<W>() {
                    assert forall|j: int| 0 <= j < i + 1 implies (#[trigger] kept.contains(j)
                        <==> weight_ge(scores[j], threshold)) by {
                        if j < i {
                            assert(scores[j] == old_scores[j]);
                            assert(kept.contains(j) <==> old_kept.contains(j)) by {
                                if kept.contains(j) {
                                    let a = choose|a: int| 0 <= a < kept.len() && kept[a] == j;
                                    if a < old_kept.len() {
                                        assert(old_kept[a] == j);
                                    }
                                }
                                if old_kept.contains(j) {
                                    let a = choose|a: int| 0 <= a < old_kept.len() && old_kept[a] == j;
                                    assert(kept[a] == j);
                                }
                            }
                        } else {
                            assert(kept[old_kept.len() as int] == j);
                        }
                    }
                }
            }
        } else {
            proof {
                assert forall|x: ModuleId|
                    x < kept.len() implies #[trigger] evaluated.module_map()[x].id == x
                    && evaluated.module_map()[x].nodes@ == map[order[kept[x as int]]].nodes@
                    && evaluated.module_map()[x].score == scores[kept[x as int]] by {
                    assert(kept == old_kept);
                    assert(old_map == evaluated.module_map());
                    assert(old_map[x].id == x);
                    assert(0 <= kept[x as int] < i);
                    assert(scores[kept[x as int]] == old_scores[kept[x as int]]);
                }
                if order_obeys::<W>() {
                    assert forall|j: int| 0 <= j < i + 1 implies (#[trigger] kept.contains(j)
                        <==> weight_ge(scores[j], threshold)) by {
                        if j < i {
                            assert(scores[j] == old_scores[j]);
                        } else {
                            assert(!weight_ge(scores[j], threshold));
                            if kept.contains(j) {
                                let a = choose|a: int| 0 <= a < kept.len() && kept[a] == j;
                            }
                        }
                    }
                }
            }
        }
        i = i + 1;
    }
    proof {
        assert(scored_selection(
            *scorer,
            *network,
            map,
            evaluated.module_map(),
            threshold,
            order,
            scores,
            kept,
        ));
        if disjoint_modules(map) {
            lemma_selection_keeps_disjoint(
                *scorer,
                *network,
                map,
                evaluated.module_map(),
                threshold,
                order,
                scores,
                kept,
            );
        }
    }
    proof {
        crate::modules::lemma_copies_covered(modules.module_map(), evaluated.module_map());
    }
    evaluated
}

/// The modularity of `modules` on `network`: the sum over modules of
/// `internal / m - (degree^2 / (4 m)) / m`, with internal weights halved in an
/// undirected network; zero for an edgeless network.
pub fn calculate_modularity<W: Weight>(network: &Network<W>, modules: &ModuleCollection<W>) -> (r:
    W)
    requires
        network.wf(),
        modules.wf(),
    ensures
        arithmetic_obeys::<W>() && order_obeys::<W>() ==> {
            let m = edge_weight_total(network.edge_log());
            &&& weight_eq(m, zero_spec::<W>()) ==> r == zero_spec::<W>()
            &&& !weight_eq(m, zero_spec::<W>()) ==> exists|order: Seq<ModuleId>|
                #[trigger] lists_each_module(modules.module_map(), order) && r == modularity_sum(
                    *network,
                    Seq::new(order.len(), |k: int| modules.module_map()[order[k]].nodes@),
                    m,
                )
        },
{
    proof {
        network.lemma_ops_total();
    }
    let total_weight = network.total_weight();
    let zero = zero_weight();
    if total_weight.eq(&zero) {
        return zero_weight();
    }
    let module_vec = modules.modules();
    let r = calculate_modularity_sequential(network, &module_vec, total_weight);
    proof {
        let map = modules.module_map();
        let order = Seq::new(module_vec@.len(), |k: int| module_vec@[k].id);
        assert(Seq::new(order.len(), |k: int| map[order[k]].nodes@) =~= Seq::new(
            module_vec@.len(),
            |k: int| module_vec@[k].nodes@,
        ));
        assert(order.no_duplicates()) by {
            assert forall|a: int, b: int|
                0 <= a < order.len() && 0 <= b < order.len() && a != b implies order[a]
                != order[b] by {
                if a < b {
                    assert(module_vec@[a].id != module_vec@[b].id);
                } else {
                    assert(module_vec@[b].id != module_vec@[a].id);
                }
            }
        }
        assert(lists_each_module(map, order));
    }
    r
}

/// `after` keeps, under identifiers `0 ..` and in the order `order` walks
/// the modules of `before`, those whose score in `scores` is `>=`
/// `threshold` (the positions `kept`), each with its nodes and its score;
/// each score is one that `scorer` gives the nodes of its module.
pub open spec fn scored_selection<W: Weight, S: ModuleScorer<W>>(
    scorer: S,
    network: Network<W>,
    before: Map<ModuleId, Module<W>>,
    after: Map<ModuleId, Module<W>>,
    threshold: W,
    order: Seq<ModuleId>,
    scores: Seq<W>,
    kept: Seq<int>,
) -> bool {
    &&& lists_each_module(before, order)
    &&& scores.len() == order.len()
    &&& forall|j: int|
        0 <= j < order.len() ==> scorer.scored(network, before[order[j]].nodes@, #[trigger] scores[j])
    &&& forall|a: int, b: int| 0 <= a < b < kept.len() ==> kept[a] < kept[b]
    &&& forall|a: int| 0 <= a < kept.len() ==> 0 <= #[trigger] kept[a] < order.len()
    &&& order_obeys::<W>() ==> forall|j: int|
        0 <= j < order.len() ==> (#[trigger] kept.contains(j) <==> weight_ge(scores[j], threshold))
    &&& after.dom() == Set::new(|id: ModuleId| id < kept.len())
    &&& forall|id: ModuleId|
        id < kept.len() ==> #[trigger] after[id].id == id && after[id].nodes@
            == before[order[kept[id as int]]].nodes@ && after[id].score == scores[kept[id as int]]
}

/// `after` is what scoring the modules of `before` with `scorer` and
/// keeping those that reach `threshold` gives, for some order of the
/// modules.
pub open spec fn evaluated_from<W: Weight, S: ModuleScorer<W>>(
    scorer: S,
    network: Network<W>,
    before: Map<ModuleId, Module<W>>,
    after: Map<ModuleId, Module<W>>,
    threshold: W,
) -> bool {
    exists|order: Seq<ModuleId>, scores: Seq<W>, kept: Seq<int>|
        #[trigger] scored_selection(scorer, network, before, after, threshold, order, scores, kept)
}

/// Keeping some of disjoint modules, each at most once, leaves them
/// disjoint.
proof fn lemma_selection_keeps_disjoint<W: Weight, S: ModuleScorer<W>>(
    scorer: S,
    network: Network<W>,
    before: Map<ModuleId, Module<W>>,
    after: Map<ModuleId, Module<W>>,
    threshold: W,
    order: Seq<ModuleId>,
    scores: Seq<W>,
    kept: Seq<int>,
)
    requires
        scored_selection(scorer, network, before, after, threshold, order, scores, kept),
        disjoint_modules(before),
    ensures
        disjoint_modules(after),
{
    assert forall|id1: ModuleId, id2: ModuleId, n: NodeId|
        #[trigger] is_member(after, id1, n) && #[trigger] is_member(after, id2, n) implies id1
        == id2 by {
        assert(after[id1].id == id1);
        assert(after[id2].id == id2);
        let k1 = kept[id1 as int];
        let k2 = kept[id2 as int];
        assert(0 <= k1 < order.len());
        assert(0 <= k2 < order.len());
        assert(before.contains_key(order[k1]));
        assert(before.contains_key(order[k2]));
        assert(is_member(before, order[k1], n));
        assert(is_member(before, order[k2], n));
        assert(order[k1] == order[k2]);
        assert(k1 == k2);
        if id1 < id2 {
            assert(kept[id1 as int] < kept[id2 as int]);
        } else if id2 < id1 {
            assert(kept[id2 as int] < kept[id1 as int]);
        }
    }
}

/// `order` lists each module of `map` exactly once.
pub open spec fn lists_each_module<W>(map: Map<ModuleId, Module<W>>, order: Seq<ModuleId>) -> bool {
    &&& order.no_duplicates()
    &&& order.len() == map.dom().len()
    &&& forall|k: int| 0 <= k < order.len() ==> map.contains_key(#[trigger] order[k])
}

fn calculate_modularity_sequential<W: Weight>(
    network: &Network<W>,
    modules: &Vec<&Module<W>>,
    total_weight: W,
) -> (r: W)
    requires
        network.wf(),
    ensures
        arithmetic_obeys::<W>() ==> r == modularity_sum(
            *network,
            Seq::new(modules@.len(), |k: int| modules@[k].nodes@),
            total_weight,
        ),
{
    proof {
        network.lemma_ops_total();
    }
    let ghost lists = Seq::new(modules@.len(), |k: int| modules@[k].nodes@);
    let mut modularity = zero_weight();
    let mut i: usize = 0;
    while i < modules.len()
        invariant
            network.wf(),
            weight_ops_total::<W>(),
            i <= modules@.len(),
            lists == Seq::new(modules@.len(), |k: int| modules@[k].nodes@),
            arithmetic_obeys::<W>() ==> modularity == modularity_sum(
                *network,
                lists.take(i as int),
                total_weight,
            ),
        decreases modules@.len() - i,
    {
        let module = modules[i];
        let ghost nodes = module.nodes@;
        let ghost keep = member_of(nodes);
        proof {
            assert(lists.take(i + 1).drop_last() =~= lists.take(i as int));
            assert(lists.take(i + 1).last() == nodes);
        }
        let mut internal_weight = zero_weight();
        let mut total_degree = zero_weight();
        let mut j: usize = 0;
        while j < module.nodes.len()
            invariant
                network.wf(),
                weight_ops_total::<W>(),
                j <= nodes.len(),
                nodes == module.nodes@,
                keep == member_of(nodes),
                arithmetic_obeys::<W>() ==> internal_weight == weight_into(
                    *network,
                    nodes.take(j as int),
                    keep,
                ),
                arithmetic_obeys::<W>() ==> total_degree == degree_total(
                    *network,
                    nodes.take(j as int),
                ),
            decreases module.nodes@.len() - j,
        {
            let node = module.nodes[j];
            let ghost acc0 = internal_weight;
            proof {
                assert(nodes.take(j + 1).drop_last() =~= nodes.take(j as int));
                assert(nodes.take(j + 1).last() == node);
            }
            total_degree = weight_add(total_degree, network.weighted_degree(node));
            if let Some(neighbors) = network.neighbors(node) {
                let mut k: usize = 0;
                while k < neighbors.len()
                    invariant
                        k <= neighbors@.len(),
                        weight_ops_total::<W>(),
                        nodes == module.nodes@,
                        keep == member_of(nodes),
                        arithmetic_obeys::<W>() ==> internal_weight == add_entries(
                            acc0,
                            neighbors@.take(k as int),
                            keep,
                        ),
                    decreases neighbors@.len() - k,
                {
                    proof {
                        assert(neighbors@.take(k + 1).drop_last() =~= neighbors@.take(k as int));
                    }
                    let (neighbor, weight) = neighbors[k];
                    if module.contains(neighbor) {
                        internal_weight = weight_add(internal_weight, weight);
                    }
                    k = k + 1;
                }
                proof {
                    assert(neighbors@.take(neighbors@.len() as int) =~= neighbors@);
                }
            } else {
                proof {
                    assert(network.adjacency(node) =~= Seq::<(NodeId, W)>::empty());
                }
            }
            j = j + 1;
        }
        proof {
            assert(nodes.take(nodes.len() as int) =~= nodes);
        }
        if !network.is_directed() {
            internal_weight = weight_div(internal_weight, W::from(2u32));
        }
        let expected = weight_div(
            weight_mul(total_degree, total_degree),
            weight_mul(W::from(4u32), total_weight),
        );
        modularity = weight_add(
            modularity,
            weight_sub(weight_div(internal_weight, total_weight), weight_div(expected, total_weight)),
        );
        i = i + 1;
    }
    proof {
        assert(lists.take(modules@.len() as int) =~= lists);
    }
    modularity
}

/// The weight of the edges listed at nodes of `module1` that lead to nodes of
/// `module2`.
fn calculate_inter_module_weight<W: Weight>(
    network: &Network<W>,
    module1: &Module<W>,
    module2: &Module<W>,
) -> (r: W)
    requires
        network.wf(),
    ensures
        arithmetic_obeys::<W>() ==> r == weight_into(
            *network,
            module1.nodes@,
            member_of(module2.nodes@),
        ),
{
    proof {
        network.lemma_ops_total();
    }
    let ghost keep = member_of(module2.nodes@);
    let mut total_weight = zero_weight();
    let mut i: usize = 0;
    while i < module1.nodes.len()
        invariant
            network.wf(),
            weight_ops_total::<W>(),
            i <= module1.nodes@.len(),
            keep == member_of(module2.nodes@),
            arithmetic_obeys::<W>() ==> total_weight == weight_into(
                *network,
                module1.nodes@.take(i as int),
                keep,
            ),
        decreases module1.nodes@.len() - i,
    {
        let ghost acc0 = total_weight;
        let ghost node = module1.nodes@[i as int];
        proof {
            assert(module1.nodes@.take(i + 1).drop_last() =~= module1.nodes@.take(i as int));
            assert(module1.nodes@.take(i + 1).last() == node);
        }
        if let Some(neighbors) = network.neighbors(module1.nodes[i]) {
            let mut k: usize = 0;
            while k < neighbors.len()
                invariant
                    k <= neighbors@.len(),
                    weight_ops_total::<W>(),
                    keep == member_of(module2.nodes@),
                    arithmetic_obeys::<W>() ==> total_weight == add_entries(
                        acc0,
                        neighbors@.take(k as int),
                        keep,
                    ),
                decreases neighbors@.len() - k,
            {
                proof {
                    assert(neighbors@.take(k + 1).drop_last() =~= neighbors@.take(k as int));
                }
                let (node2, weight) = neighbors[k];
                if module2.contains(node2) {
                    total_weight = weight_add(total_weight, weight);
                }
                k = k + 1;
            }
            proof {
                assert(neighbors@.take(neighbors@.len() as int) =~= neighbors@);
            }
        } else {
            proof {
                assert(network.adjacency(node) =~= Seq::<(NodeId, W)>::empty());
            }
        }
        i = i + 1;
    }
    proof {
        assert(module1.nodes@.take(module1.nodes@.len() as int) =~= module1.nodes@);
    }
    total_weight
}

/// The network of modules: module number `i` of `modules.module_ids()`
/// becomes node `i`, and modules `i < j` are joined by an edge `i -> j`
/// weighted with the inter-module weight where that weight is `>` zero.
#[verifier::spinoff_prover]
fn create_aggregate_network<W: Weight>(original: &Network<W>, modules: &ModuleCollection<W>) -> (r:
    Network<W>)
    requires
        original.wf(),
        modules.wf(),
    ensures
        r.wf(),
        r.spec_is_directed() == original.spec_is_directed(),
        forall|k: int|
            #![trigger r.edge_log()[k]]
            0 <= k < r.edge_log().len() ==> r.edge_log()[k].from < r.edge_log()[k].to
                && r.edge_log()[k].to < modules.module_map().dom().len(),
        arithmetic_obeys::<W>() && order_obeys::<W>() ==> exists|order: Seq<ModuleId>|
            #[trigger] lists_each_module(modules.module_map(), order) && r.edge_log()
                == aggregate_edges(*original, node_lists(modules.module_map(), order), order.len() as int),
        aggregate_of(*original, *modules, r),
{
    proof {
        original.lemma_ops_total();
    }
    let mut builder: NetworkBuilder<W> = NetworkBuilder::new(original.is_directed());
    let module_ids = modules.module_ids();
    proof {
        module_ids@.unique_seq_to_set();
    }
    let n = module_ids.len();
    let ghost map = modules.module_map();
    let ghost mods = node_lists(map, module_ids@);
    let ghost obeys = arithmetic_obeys::<W>() && order_obeys::<W>();
    let mut i: usize = 0;
    while i < n
        invariant
            original.wf(),
            weight_ops_total::<W>(),
            modules.wf(),
            n == module_ids@.len(),
            n == modules.module_map().dom().len(),
            module_ids@.to_set() == modules.module_map().dom(),
            builder.wf(),
            builder.spec_network().spec_is_directed() == original.spec_is_directed(),
            forall|k: int|
                0 <= k < builder.spec_network().edge_log().len()
                    ==> #[trigger] builder.spec_network().edge_log()[k].from
                    < builder.spec_network().edge_log()[k].to < n,
            i <= n,
            map == modules.module_map(),
            mods == node_lists(map, module_ids@),
            obeys == (arithmetic_obeys::<W>() && order_obeys::<W>()),
            obeys ==> builder.spec_network().edge_log() == aggregate_edges(*original, mods, i as int),
        decreases n - i,
    {
        proof {
            assert(row_edges(*original, mods, i as int, i + 1) =~= Seq::<Edge<W>>::empty());
            assert(aggregate_edges(*original, mods, i as int) + row_edges(*original, mods, i as int, i + 1)
                =~= aggregate_edges(*original, mods, i as int));
        }
        let mut j: usize = i + 1;
        while j < n
            invariant
                original.wf(),
                weight_ops_total::<W>(),
                modules.wf(),
                i < n,
                i + 1 <= j <= n,
                n == module_ids@.len(),
                n == modules.module_map().dom().len(),
                module_ids@.to_set() == modules.module_map().dom(),
                builder.wf(),
                builder.spec_network().spec_is_directed() == original.spec_is_directed(),
                forall|k: int|
                    0 <= k < builder.spec_network().edge_log().len()
                        ==> #[trigger] builder.spec_network().edge_log()[k].from
                        < builder.spec_network().edge_log()[k].to < n,
                map == modules.module_map(),
                mods == node_lists(map, module_ids@),
                obeys == (arithmetic_obeys::<W>() && order_obeys::<W>()),
                obeys ==> builder.spec_network().edge_log() == aggregate_edges(
                    *original,
                    mods,
                    i as int,
                ) + row_edges(*original, mods, i as int, j as int),
            decreases n - j,
        {
            let ghost log0 = builder.spec_network().edge_log();
            proof {
                assert(module_ids@.to_set().contains(module_ids@[i as int]));
                assert(module_ids@.to_set().contains(module_ids@[j as int]));
            }
            let m1 = modules.get_module(module_ids[i]);
            let m2 = modules.get_module(module_ids[j]);
            if let (Some(module1), Some(module2)) = (m1, m2) {
                let weight = calculate_inter_module_weight(original, module1, module2);
                let zero = zero_weight();
                proof {
                    assert(mods[i as int] == module1.nodes@);
                    assert(mods[j as int] == module2.nodes@);
                }
                if weight.gt(&zero) {
                    let ghost before = builder.spec_network().edge_log();
                    builder.add_edge(i, j, weight);
                    proof {
                        let after = builder.spec_network().edge_log();
                        assert forall|k: int|
                            0 <= k < after.len() implies #[trigger] after[k].from < after[k].to
                                < n by {
                            if k < before.len() {
                                assert(after[k] == before[k]);
                            }
                        }
                        if obeys {
                            assert(pair_edge(*original, mods, i as int, j as int) =~= seq![
                                Edge { from: i, to: j, weight },
                            ]);
                        }
                    }
                } else {
                    proof {
                        if obeys {
                            assert(pair_edge(*original, mods, i as int, j as int) =~= Seq::<
                                Edge<W>,
                            >::empty());
                        }
                    }
                }
            }
            proof {
                if obeys {
                    let a = aggregate_edges(*original, mods, i as int);
                    let b = row_edges(*original, mods, i as int, j as int);
                    let c = pair_edge(*original, mods, i as int, j as int);
                    assert(row_edges(*original, mods, i as int, j + 1) == b + c);
                    assert(a + (b + c) =~= (a + b) + c);
                }
            }
            j = j + 1;
        }
        proof {
            assert(mods.len() == n);
        }
        i = i + 1;
    }
    let ghost log = builder.spec_network().edge_log();
    let net = builder.build();
    proof {
        assert forall|k: int|
            #![trigger net.edge_log()[k]]
            0 <= k < net.edge_log().len() implies net.edge_log()[k].from < net.edge_log()[k].to
                && net.edge_log()[k].to < modules.module_map().dom().len() by {
            assert(net.edge_log()[k] == log[k]);
            assert(log[k].from < log[k].to < n);
        }
        assert(lists_each_module(map, module_ids@));
    }
    net
}

/// `r` is the network of the modules of `modules` on `original`: module
/// number `k` of some order of the modules is node `k`, and modules `i < j`
/// are joined by an edge `i -> j` carrying the weight from module `i` into
/// module `j`, where that weight is `>` zero.
pub open spec fn aggregate_of<W: Weight>(
    original: Network<W>,
    modules: ModuleCollection<W>,
    r: Network<W>,
) -> bool {
    &&& r.wf()
    &&& r.spec_is_directed() == original.spec_is_directed()
    &&& arithmetic_obeys::<W>() && order_obeys::<W>() ==> exists|order: Seq<ModuleId>|
        #[trigger] lists_each_module(modules.module_map(), order) && r.edge_log() == aggregate_edges(
            original,
            node_lists(modules.module_map(), order),
            order.len() as int,
        )
}

/// `c` is what `run_oslom_level` can give on `network` at `level`: of
/// `run_count` single runs with their modularities, the one kept by
/// `best_run` (where `W` follows vstd's specifications), with singletons
/// added where `find_singletons` is set.
pub open spec fn level_result<W: Weight, S: ModuleScorer<W>>(
    scorer: S,
    network: Network<W>,
    config: OslomConfig<W>,
    level: usize,
    c: ModuleCollection<W>,
) -> bool {
    &&& c.wf()
    &&& !config.find_singletons ==> c.module_map().dom().len() <= network.node_set().len()
    &&& exists|best: ModuleCollection<W>, runs: Seq<Map<ModuleId, Module<W>>>, values: Seq<W>|
        #![trigger best.module_map(), best_run(runs, values, minus_infinity::<W>())]
        {
            &&& runs.len() == run_count(config, level)
            &&& runs_ok(scorer, network, config, runs, values)
            &&& arithmetic_obeys::<W>() && order_obeys::<W>() ==> best.module_map() == best_run(
                runs,
                values,
                minus_infinity::<W>(),
            ).0
            &&& best.module_map() == Map::<ModuleId, Module<W>>::empty() || single_run_result(
                scorer,
                network,
                config.threshold,
                best.module_map(),
            )
            &&& config.find_singletons ==> singletons_added(network, best, c)
            &&& !config.find_singletons ==> c == best
        }
}

/// Each of `runs` is a single-run result on `network`, with modularity
/// `values` at the same position.
pub open spec fn runs_ok<W: Weight, S: ModuleScorer<W>>(
    scorer: S,
    network: Network<W>,
    config: OslomConfig<W>,
    runs: Seq<Map<ModuleId, Module<W>>>,
    values: Seq<W>,
) -> bool
    decreases runs.len(),
{
    &&& values.len() == runs.len()
    &&& runs.len() > 0 ==> {
        &&& runs_ok(scorer, network, config, runs.drop_last(), values.drop_last())
        &&& single_run_result(scorer, network, config.threshold, runs.last())
        &&& modularity_value(network, runs.last(), values.last())
    }
}

/// Level `l` of `levels` was computed on `nets[l]`; where the hierarchy
/// went on past it, it has at least two modules and `nets[l + 1]` is the
/// network of its modules.
pub open spec fn level_step<W: Weight, S: ModuleScorer<W>>(
    scorer: S,
    config: OslomConfig<W>,
    levels: Map<usize, ModuleCollection<W>>,
    nets: Seq<Network<W>>,
    l: int,
    top: int,
) -> bool {
    &&& level_result(scorer, nets[l], config, l as usize, levels[l as usize])
    &&& levels[l as usize].module_map().dom().len() > 0
    &&& l + 1 < top ==> {
        &&& levels[l as usize].module_map().dom().len() >= 2
        &&& aggregate_of(nets[l], levels[l as usize], nets[l + 1])
    }
}

/// The levels `0 .. top` of `levels` form the hierarchy of `network`: level
/// 0 is a level result on `network`, each further level one on the network
/// of the modules of the level before, and the hierarchy stops at level
/// `top` because the last level has at most one module or is level 11, or
/// because the next level's network has more than `usize::MAX / 4` nodes or
/// its run gave no module.
pub open spec fn hierarchy_of<W: Weight, S: ModuleScorer<W>>(
    scorer: S,
    network: Network<W>,
    config: OslomConfig<W>,
    levels: Map<usize, ModuleCollection<W>>,
    top: int,
    nets: Seq<Network<W>>,
) -> bool {
    &&& 0 <= top <= 12
    &&& nets.len() == top + 1
    &&& nets[0] == network
    &&& forall|l: int| 0 <= l < top ==> #[trigger] level_step(scorer, config, levels, nets, l, top)
    &&& {
        ||| top > 0 && (levels[(top - 1) as usize].module_map().dom().len() <= 1 || top - 1 > 10)
        ||| top > 0 && nets[top].node_set().len() > usize::MAX / 4
        ||| exists|c: ModuleCollection<W>|
            #[trigger] level_result(scorer, nets[top], config, top as usize, c) && c.module_map().dom().len()
                == 0
    }
}

/// The levels `0 .. top` of `levels` were computed as in `hierarchy_of`,
/// the network of level `top` has at most `usize::MAX / 4` nodes, and the
/// Louvain optimisation can give up on it.
pub open spec fn fails_at_level<W: Weight, S: ModuleScorer<W>>(
    scorer: S,
    network: Network<W>,
    config: OslomConfig<W>,
    levels: Map<usize, ModuleCollection<W>>,
    top: int,
    nets: Seq<Network<W>>,
) -> bool {
    &&& 0 <= top <= 11
    &&& nets.len() == top + 1
    &&& nets[0] == network
    &&& forall|l: int| 0 <= l < top ==> #[trigger] level_step(scorer, config, levels, nets, l, top + 1)
    &&& nets[top].node_set().len() <= usize::MAX / 4
    &&& louvain_fails(nets[top])
}

/// `value` is the modularity `calculate_modularity` gives for the modules
/// `map` on `network`.
pub open spec fn modularity_value<W: Weight>(
    network: Network<W>,
    map: Map<ModuleId, Module<W>>,
    value: W,
) -> bool {
    arithmetic_obeys::<W>() && order_obeys::<W>() ==> {
        let m = edge_weight_total(network.edge_log());
        &&& weight_eq(m, zero_spec::<W>()) ==> value == zero_spec::<W>()
        &&& !weight_eq(m, zero_spec::<W>()) ==> exists|order: Seq<ModuleId>|
            #[trigger] lists_each_module(map, order) && value == modularity_sum(
                network,
                Seq::new(order.len(), |k: int| map[order[k]].nodes@),
                m,
            )
    }
}

/// The node lists of the modules of `map` that `order` names, in order.
pub open spec fn node_lists<W>(map: Map<ModuleId, Module<W>>, order: Seq<ModuleId>) -> Seq<
    Seq<NodeId>,
> {
    Seq::new(order.len(), |k: int| map[order[k]].nodes@)
}

/// The weight of the adjacency entries at nodes of `from` that lead to
/// nodes of `to`.
pub open spec fn inter_weight<W: Weight>(network: Network<W>, from: Seq<NodeId>, to: Seq<NodeId>) -> W {
    weight_into(network, from, member_of(to))
}

/// The edge `i -> j` of the aggregate network, where the weight from module
/// `i` into module `j` is `>` zero.
pub open spec fn pair_edge<W: Weight>(
    network: Network<W>,
    mods: Seq<Seq<NodeId>>,
    i: int,
    j: int,
) -> Seq<Edge<W>> {
    let w = inter_weight(network, mods[i], mods[j]);
    if weight_gt(w, zero_spec::<W>()) {
        seq![Edge { from: i as NodeId, to: j as NodeId, weight: w }]
    } else {
        Seq::empty()
    }
}

/// The aggregate edges from module `i` to modules `i + 1 .. j`, in order.
pub open spec fn row_edges<W: Weight>(
    network: Network<W>,
    mods: Seq<Seq<NodeId>>,
    i: int,
    j: int,
) -> Seq<Edge<W>>
    decreases j - i,
{
    if j <= i + 1 {
        Seq::empty()
    } else {
        row_edges(network, mods, i, j - 1) + pair_edge(network, mods, i, j - 1)
    }
}

/// The aggregate edges from modules `0 .. i` to the modules after them, row
/// by row.
pub open spec fn aggregate_edges<W: Weight>(
    network: Network<W>,
    mods: Seq<Seq<NodeId>>,
    i: int,
) -> Seq<Edge<W>>
    decreases i,
{
    if i <= 0 {
        Seq::empty()
    } else {
        aggregate_edges(network, mods, i - 1) + row_edges(network, mods, i - 1, mods.len() as int)
    }
}

/// Adding to `acc` the entries of `adj` that `keep` selects gives `acc`
/// where it selects none.
proof fn lemma_add_no_entries<W: Weight>(acc: W, adj: Seq<(NodeId, W)>, keep: spec_fn(NodeId) -> bool)
    requires
        forall|k: int| 0 <= k < adj.len() ==> !keep(#[trigger] adj[k].0),
    ensures
        add_entries(acc, adj, keep) == acc,
    decreases adj.len(),
{
    if adj.len() > 0 {
        lemma_add_no_entries(acc, adj.drop_last(), keep);
        assert(!keep(adj[adj.len() - 1].0));
    }
}

/// In a network whose nodes list only themselves, no weight leads from
/// the nodes of `from` to nodes outside it.
proof fn lemma_no_weight_across<W: Weight>(
    network: Network<W>,
    from: Seq<NodeId>,
    to: Seq<NodeId>,
)
    requires
        self_loops_only(network),
        forall|n: NodeId| from.contains(n) ==> !to.contains(n),
    ensures
        inter_weight(network, from, to) == zero_spec::<W>(),
    decreases from.len(),
{
    if from.len() > 0 {
        let rest = from.drop_last();
        assert forall|n: NodeId| rest.contains(n) implies !to.contains(n) by {
            let k = choose|k: int| 0 <= k < rest.len() && rest[k] == n;
            assert(from[k] == n);
        }
        lemma_no_weight_across(network, rest, to);
        let u = from.last();
        assert(from.contains(u));
        assert forall|k: int| 0 <= k < network.adjacency(u).len() implies !member_of(to)(
            #[trigger] network.adjacency(u)[k].0,
        ) by {
            assert(network.adjacency(u)[k].0 == u);
        }
        lemma_add_no_entries(
            weight_into(network, rest, member_of(to)),
            network.adjacency(u),
            member_of(to),
        );
    }
}

/// The aggregate edges of rows `i` from column `j` back are empty where
/// every pair edge is.
proof fn lemma_row_edges_empty<W: Weight>(
    network: Network<W>,
    mods: Seq<Seq<NodeId>>,
    i: int,
    j: int,
)
    requires
        forall|a: int, b: int| 0 <= a < b < mods.len() ==> #[trigger] pair_edge(network, mods, a, b)
            =~= Seq::<Edge<W>>::empty(),
        0 <= i,
        j <= mods.len(),
    ensures
        row_edges(network, mods, i, j) =~= Seq::<Edge<W>>::empty(),
    decreases j - i,
{
    if j > i + 1 {
        lemma_row_edges_empty(network, mods, i, j - 1);
        assert(pair_edge(network, mods, i, j - 1) =~= Seq::<Edge<W>>::empty());
    }
}

/// Law: where `W`'s `>` is irreflexive, the network of disjoint modules of
/// a network whose nodes list only themselves has no edge, so its nodes
/// list only themselves too.
pub proof fn lemma_aggregate_of_self_loops<W: Weight>(
    original: Network<W>,
    modules: ModuleCollection<W>,
    r: Network<W>,
)
    requires
        arithmetic_obeys::<W>(),
        order_obeys::<W>(),
        strict_weight_order::<W>(),
        self_loops_only(original),
        disjoint_modules(modules.module_map()),
        aggregate_of(original, modules, r),
    ensures
        r.edge_log().len() == 0,
        self_loops_only(r),
{
    let map = modules.module_map();
    let order = choose|order: Seq<ModuleId>|
        #[trigger] lists_each_module(map, order) && r.edge_log() == aggregate_edges(
            original,
            node_lists(map, order),
            order.len() as int,
        );
    let mods = node_lists(map, order);
    assert forall|a: int, b: int| 0 <= a < b < mods.len() implies #[trigger] pair_edge(
        original,
        mods,
        a,
        b,
    ) =~= Seq::<Edge<W>>::empty() by {
        assert(order[a] != order[b]);
        assert forall|n: NodeId| mods[a].contains(n) implies !mods[b].contains(n) by {
            assert(is_member(map, order[a], n));
            if mods[b].contains(n) {
                assert(is_member(map, order[b], n));
            }
        }
        lemma_no_weight_across(original, mods[a], mods[b]);
        assert(!weight_gt(zero_spec::<W>(), zero_spec::<W>()));
    }
    assert forall|i: int| 0 <= i <= mods.len() implies #[trigger] aggregate_edges(original, mods, i)
        =~= Seq::<Edge<W>>::empty() by {
        lemma_aggregate_edges_empty(original, mods, i);
    }
    assert(r.edge_log() =~= Seq::<Edge<W>>::empty());
    assert forall|n: NodeId, k: int|
        0 <= k < r.adjacency(n).len() implies #[trigger] r.adjacency(n)[k].0 == n by {
        assert(r.adjacency(n) =~= Seq::<(NodeId, W)>::empty());
    }
}

/// The aggregate edges of the first `i` rows are empty where every pair
/// edge is.
proof fn lemma_aggregate_edges_empty<W: Weight>(network: Network<W>, mods: Seq<Seq<NodeId>>, i: int)
    requires
        forall|a: int, b: int| 0 <= a < b < mods.len() ==> #[trigger] pair_edge(network, mods, a, b)
            =~= Seq::<Edge<W>>::empty(),
        i <= mods.len(),
    ensures
        aggregate_edges(network, mods, i) =~= Seq::<Edge<W>>::empty(),
    decreases i,
{
    if i > 0 {
        lemma_aggregate_edges_empty(network, mods, i - 1);
        lemma_row_edges_empty(network, mods, i - 1, mods.len() as int);
    }
}

/// The larger of `a` and `b` as `f64::max` chooses it: the other where one
/// is not equal to itself, `b` where `a < b`, `a` otherwise.
pub open spec fn weight_max_spec<W: Weight>(a: W, b: W) -> W {
    if !weight_eq(a, a) {
        b
    } else if !weight_eq(b, b) {
        a
    } else if weight_lt(a, b) {
        b
    } else {
        a
    }
}

/// The modularity terms of the modules with node lists `mods`, added in
/// order to the zero weight, with total weight `m`.
pub open spec fn modularity_sum<W: Weight>(network: Network<W>, mods: Seq<Seq<NodeId>>, m: W) -> W
    decreases mods.len(),
{
    if mods.len() == 0 {
        zero_spec::<W>()
    } else {
        let nodes = mods.last();
        modularity_sum(network, mods.drop_last(), m).add_spec(
            modularity_term(
                network.spec_is_directed(),
                weight_into(network, nodes, member_of(nodes)),
                degree_total(network, nodes),
                m,
            ),
        )
    }
}

/// Law: in the modularity of an undirected network, each module's internal
/// weight, which its adjacency lists hold once from each end of an edge, is
/// halved: its term is the directed formula applied to half the internal
/// weight. In a directed network the internal weight is taken whole.
pub proof fn lemma_modularity_internal_halved<W: Weight>(
    network: Network<W>,
    mods: Seq<Seq<NodeId>>,
    m: W,
)
    requires
        mods.len() > 0,
    ensures
        ({
            let s = mods.last();
            let internal = weight_into(network, s, member_of(s));
            let counted = if network.spec_is_directed() {
                internal
            } else {
                internal.div_spec(weight_of::<W>(2u32))
            };
            modularity_sum(network, mods, m) == modularity_sum(network, mods.drop_last(), m).add_spec(
                modularity_term(true, counted, degree_total(network, s), m),
            )
        }),
{
}

/// The larger of two weights as `f64::max` chooses it: where one of them is
/// unordered with itself (a NaN), the other.
fn weight_max<W: Weight>(a: W, b: W) -> (r: W)
    ensures
        order_obeys::<W>() ==> r == weight_max_spec(a, b),
{
    if !a.eq(&a) {
        b
    } else if !b.eq(&b) {
        a
    } else if a.lt(&b) {
        b
    } else {
        a
    }
}

/// Whether the union of modules `id1` and `id2`, sorted and without
/// repetition, scores `>` the larger of their two scores; `InvalidConfig`
/// where one of them does not exist.
fn should_merge_modules<W: Weight, S: ModuleScorer<W>>(
    network: &Network<W>,
    modules: &ModuleCollection<W>,
    id1: ModuleId,
    id2: ModuleId,
    scorer: &S,
) -> (r: Result<bool, OslomError>)
    requires
        modules.wf(),
    ensures
        r is Ok <==> modules.module_map().contains_key(id1) && modules.module_map().contains_key(
            id2,
        ),
        r matches Err(e) ==> e is InvalidConfig,
        r matches Ok(merge) ==> merge_decision(
            *scorer,
            *network,
            modules.module_map(),
            id1,
            id2,
            merge,
        ),
{
    let module1 = match modules.get_module(id1) {
        Some(m) => m,
        None => {
            return Err(OslomError::InvalidConfig("Module not found".to_string()));
        },
    };
    let module2 = match modules.get_module(id2) {
        Some(m) => m,
        None => {
            return Err(OslomError::InvalidConfig("Module not found".to_string()));
        },
    };
    let mut union_nodes = copy_nodes(&module1.nodes);
    let mut i: usize = 0;
    while i < module2.nodes.len()
        invariant
            i <= module2.nodes@.len(),
            union_nodes@ == module1.nodes@ + module2.nodes@.take(i as int),
        decreases module2.nodes@.len() - i,
    {
        proof {
            assert(module2.nodes@.take(i + 1) =~= module2.nodes@.take(i as int).push(
                module2.nodes@[i as int],
            ));
        }
        union_nodes.push(module2.nodes[i]);
        i = i + 1;
    }
    let ghost joined = union_nodes@;
    proof {
        assert(module2.nodes@.take(i as int) =~= module2.nodes@);
        assert(joined.to_set() =~= module1.nodes@.to_set() + module2.nodes@.to_set()) by {
            assert forall|n: NodeId| joined.to_set().contains(n) <==> (module1.nodes@.to_set()
                + module2.nodes@.to_set()).contains(n) by {
                if joined.contains(n) {
                    let k = choose|k: int| 0 <= k < joined.len() && joined[k] == n;
                    if k >= module1.nodes@.len() {
                        assert(module2.nodes@[k - module1.nodes@.len()] == n);
                    }
                }
                if module1.nodes@.contains(n) {
                    let k = choose|k: int| 0 <= k < module1.nodes@.len() && module1.nodes@[k] == n;
                    assert(joined[k] == n);
                }
                if module2.nodes@.contains(n) {
                    let k = choose|k: int| 0 <= k < module2.nodes@.len() && module2.nodes@[k] == n;
                    assert(joined[module1.nodes@.len() + k] == n);
                }
            }
        }
    }
    sort_nodes(&mut union_nodes);
    proof {
        crate::order::lemma_same_multiset_same_set(joined, union_nodes@);
    }
    let union_nodes = dedup_sorted(union_nodes);
    let union_score = scorer.evaluate_module(network, union_nodes.as_slice());
    let top = weight_max(module1.score, module2.score);
    let merge = union_score.gt(&top);
    proof {
        assert(union_scored(
            *scorer,
            *network,
            modules.module_map()[id1].nodes@,
            modules.module_map()[id2].nodes@,
            union_score,
        ));
    }
    Ok(merge)
}

/// Resolves overlaps: while some pair of modules overlaps with ratio `>=`
/// 1/2, the first such pair is merged where its union scores better than
/// both, and otherwise the lower-scored module of the two (the second on a
/// tie) is removed. Each step removes one module.
fn process_overlaps<W: Weight, S: ModuleScorer<W>>(
    network: &Network<W>,
    modules: ModuleCollection<W>,
    scorer: &S,
) -> (r: Result<ModuleCollection<W>, OslomError>)
    requires
        modules.wf(),
        modules.spec_next_id() + modules.module_map().dom().len() <= usize::MAX,
        weight_ops_total::<W>(),
    ensures
        match r {
            Ok(c) => {
                &&& c.wf()
                &&& c.spec_next_id() + c.module_map().dom().len() <= modules.spec_next_id()
                    + modules.module_map().dom().len()
                &&& c.module_map().dom().len() <= modules.module_map().dom().len()
                &&& c.covered_nodes().subset_of(modules.covered_nodes())
                &&& overlaps_resolved(*scorer, *network, modules.module_map(), c.module_map())
                &&& disjoint_modules(modules.module_map()) ==> disjoint_modules(c.module_map())
            },
            Err(_) => false,
        },
{
    let mut modules = modules;
    let ghost bound = modules.spec_next_id() + modules.module_map().dom().len();
    let ghost initial = modules.module_map().dom().len();
    let ghost covered0 = modules.covered_nodes();
    let ghost mut trace: Seq<Map<ModuleId, Module<W>>> = seq![modules.module_map()];
    let ghost first = modules.module_map();
    let threshold = weight_div(W::from(1u32), W::from(2u32));
    loop
        invariant
            modules.wf(),
            modules.spec_next_id() + modules.module_map().dom().len() <= bound,
            modules.module_map().dom().len() <= initial,
            bound <= usize::MAX,
            modules.covered_nodes().subset_of(covered0),
            weight_ops_total::<W>(),
            arithmetic_obeys::<W>() ==> threshold == half_spec::<W>(),
            resolution_trace(*scorer, *network, trace),
            trace[0] == first,
            trace.last() == modules.module_map(),
            disjoint_modules(first) ==> disjoint_modules(modules.module_map()),
        ensures
            no_overlaps(modules.module_map()),
        decreases modules.module_map().dom().len(),
    {
        proof {
            modules.lemma_wf_facts();
        }
        let overlaps = modules.find_overlapping_pairs(threshold);
        if overlaps.len() == 0 {
            proof {
                if arithmetic_obeys::<W>() && order_obeys::<W>() {
                    let map = modules.module_map();
                    assert forall|x: ModuleId, y: ModuleId|
                        map.contains_key(x) && map.contains_key(y) && x != y implies !pair_overlaps(
                        map,
                        x,
                        y,
                        half_spec::<W>(),
                    ) || !pair_overlaps(map, y, x, half_spec::<W>()) by {
                        if pair_overlaps(map, x, y, threshold) && pair_overlaps(map, y, x, threshold) {
                            let k = choose|k: int|
                                0 <= k < overlaps@.len() && ((#[trigger] overlaps@[k].0 == x
                                    && overlaps@[k].1 == y) || (overlaps@[k].0 == y
                                    && overlaps@[k].1 == x));
                        }
                    }
                }
            }
            break;
        }
        let (id1, id2, _overlap) = overlaps[0];
        proof {
            assert(modules.module_map().contains_key(overlaps@[0].0));
            assert(modules.module_map().contains_key(overlaps@[0].1));
            assert(overlaps@[0].0 != overlaps@[0].1);
        }
        let ghost before = modules.module_map();
        let ghost old_trace = trace;
        proof {
            if arithmetic_obeys::<W>() && order_obeys::<W>() {
                assert(overlaps@[0].2 == crate::modules::overlap_ratio_spec(before[id1], before[id2]));
                assert(pair_overlaps(before, id1, id2, half_spec::<W>()));
            }
        }
        let ghost before_len = before.dom().len();
        proof {
            assert(before.dom().remove(id1).remove(id2).len() == before_len - 2);
            assert(before_len >= 2);
        }
        let should_merge = should_merge_modules(network, &modules, id1, id2, scorer)?;
        if should_merge {
            let ids = [id1, id2];
            let merged = modules.merge_modules(&ids);
            proof {
                assert(ids@[0] == id1);
                match merged {
                    Ok(new_id) => {
                        let listed = ids@.to_set().filter(|id: ModuleId| before.contains_key(id));
                        assert(listed =~= set![id1, id2]);
                        assert(before.remove_keys(listed).dom() =~= before.dom().remove(id1).remove(
                            id2,
                        ));
                        assert(modules.module_map().dom() =~= modules.module_map().remove(
                            new_id,
                        ).dom().insert(new_id));
                        assert(!before.contains_key(new_id));
                        crate::modules::lemma_merge_keeps_coverage(
                            before,
                            modules.module_map(),
                            ids@,
                            new_id,
                        );
                        let after = modules.module_map();
                        assert(before.remove_keys(listed) =~= before.remove(id1).remove(id2));
                        assert(after[new_id].nodes@.to_set() =~= before[id1].nodes@.to_set()
                            + before[id2].nodes@.to_set()) by {
                            assert forall|n: NodeId|
                                merged_nodes(before, ids@).contains(n) <==> (
                                before[id1].nodes@.to_set() + before[id2].nodes@.to_set()).contains(n) by {
                                if before[id1].nodes@.contains(n) {
                                    assert(ids@.contains(id1) && is_member(before, id1, n));
                                }
                                if before[id2].nodes@.contains(n) {
                                    assert(ids@[1] == id2);
                                    assert(ids@.contains(id2) && is_member(before, id2, n));
                                }
                                if merged_nodes(before, ids@).contains(n) {
                                    let x = choose|x: ModuleId| ids@.contains(x) && is_member(before, x, n);
                                    let k = choose|k: int| 0 <= k < ids@.len() && ids@[k] == x;
                                }
                            }
                        }
                        assert(ids@ =~= seq![id1, id2]);
                        assert(seq![id1, id2].drop_last() =~= seq![id1]);
                        assert(seq![id1].drop_last() =~= Seq::<ModuleId>::empty());
                        assert(seq![id1, id2].last() == id2);
                        assert(seq![id1].last() == id1);
                        assert(listed_count(before, Seq::<ModuleId>::empty()) == 0);
                        assert(listed_count(before, seq![id1]) == 1);
                        assert(listed_count(before, seq![id1, id2]) == 2);
                        assert(merged_step(before, after, id1, id2));
                        if disjoint_modules(first) {
                            crate::modules::lemma_merge_keeps_disjoint(before, after, id1, id2, new_id);
                        }
                        assert(before.remove(id1) == before.remove(id1));
                        assert(before.remove(id2) == before.remove(id2));
                        assert(overlap_step(*scorer, *network, before, after));
                    },
                    Err(_) => {
                        assert(before.contains_key(ids@[0]));
                    },
                }
            }
            merged?;
            proof {
                trace = trace.push(modules.module_map());
                assert(trace[old_trace.len() - 1] == before);
                assert(resolution_trace(*scorer, *network, trace)) by {
                    assert forall|k: int| 0 <= k < trace.len() - 1 implies #[trigger] overlap_step(
                        *scorer,
                        *network,
                        trace[k],
                        trace[k + 1],
                    ) by {
                        if k < old_trace.len() - 1 {
                            assert(overlap_step(*scorer, *network, old_trace[k], old_trace[k + 1]));
                        }
                    }
                }
            }
        } else {
            let score1 = match modules.get_module(id1) {
                Some(m) => m.score,
                None => {
                    proof {
                        assert(false);
                    }
                    zero_weight()
                },
            };
            let score2 = match modules.get_module(id2) {
                Some(m) => m.score,
                None => {
                    proof {
                        assert(false);
                    }
                    zero_weight()
                },
            };
            let gone = if score1.lt(&score2) {
                id1
            } else {
                id2
            };
            let removed = modules.remove_module(gone);
            proof {
                if disjoint_modules(first) {
                    assert forall|a: ModuleId, b: ModuleId, n: NodeId|
                        #[trigger] is_member(modules.module_map(), a, n) && #[trigger] is_member(
                            modules.module_map(),
                            b,
                            n,
                        ) implies a == b by {
                        assert(is_member(before, a, n));
                        assert(is_member(before, b, n));
                    }
                }
                crate::modules::lemma_remove_covered(before, gone);
                assert(removed is Some);
                assert(before.dom().remove(id1).len() == before_len - 1);
                assert(before.dom().remove(id2).len() == before_len - 1);
                assert(before.remove(id1) == before.remove(id1));
                assert(before.remove(id2) == before.remove(id2));
                assert(overlap_step(*scorer, *network, before, modules.module_map()));
                trace = trace.push(modules.module_map());
                assert(trace[old_trace.len() - 1] == before);
                assert(resolution_trace(*scorer, *network, trace)) by {
                    assert forall|k: int| 0 <= k < trace.len() - 1 implies #[trigger] overlap_step(
                        *scorer,
                        *network,
                        trace[k],
                        trace[k + 1],
                    ) by {
                        if k < old_trace.len() - 1 {
                            assert(overlap_step(*scorer, *network, old_trace[k], old_trace[k + 1]));
                        }
                    }
                }
            }
        }
    }
    proof {
        assert(overlaps_resolved(*scorer, *network, first, modules.module_map()));
    }
    Ok(modules)
}

/// The weight `1 / 2` from which two modules count as overlapping.
pub open spec fn half_spec<W: Weight>() -> W {
    weight_of::<W>(1u32).div_spec(weight_of::<W>(2u32))
}

/// `after` replaces modules `x` and `y` of `before` by one fresh module that
/// holds their nodes, each once, scored with the mean of their scores.
pub open spec fn merged_step<W: Weight>(
    before: Map<ModuleId, Module<W>>,
    after: Map<ModuleId, Module<W>>,
    x: ModuleId,
    y: ModuleId,
) -> bool {
    exists|n: ModuleId|
        #![trigger after[n]]
        {
            &&& !before.contains_key(n)
            &&& after.contains_key(n)
            &&& after.remove(n) == before.remove(x).remove(y)
            &&& after[n].id == n
            &&& after[n].nodes@.no_duplicates()
            &&& after[n].nodes@.to_set() == before[x].nodes@.to_set() + before[y].nodes@.to_set()
            &&& arithmetic_obeys::<W>() ==> after[n].score == listed_score_total(
                before,
                seq![x, y],
            ).div_spec(count_weight::<W>(2usize))
        }
}

/// One step of overlap resolution: of two distinct modules `x`, `y` of
/// `before`, `x` overlapping `y` by at least one half, `after` merges the
/// two where the score `scorer` gives their union is `>` the larger of
/// their scores; otherwise it drops `x` where its score is `<` that of `y`,
/// and `y` where not.
pub open spec fn overlap_step<W: Weight, S: ModuleScorer<W>>(
    scorer: S,
    network: Network<W>,
    before: Map<ModuleId, Module<W>>,
    after: Map<ModuleId, Module<W>>,
) -> bool {
    exists|x: ModuleId, y: ModuleId|
        #![trigger before.remove(x), before.remove(y)]
        {
            &&& before.contains_key(x)
            &&& before.contains_key(y)
            &&& x != y
            &&& arithmetic_obeys::<W>() && order_obeys::<W>() ==> pair_overlaps(
                before,
                x,
                y,
                half_spec::<W>(),
            )
            &&& {
                ||| after == before.remove(x) && merge_decision(
                    scorer,
                    network,
                    before,
                    x,
                    y,
                    false,
                ) && (order_obeys::<W>() ==> weight_lt(before[x].score, before[y].score))
                ||| after == before.remove(y) && merge_decision(
                    scorer,
                    network,
                    before,
                    x,
                    y,
                    false,
                ) && (order_obeys::<W>() ==> !weight_lt(before[x].score, before[y].score))
                ||| merged_step(before, after, x, y) && merge_decision(
                    scorer,
                    network,
                    before,
                    x,
                    y,
                    true,
                )
            }
        }
}

/// Each map of `trace` follows from the one before by an overlap step.
pub open spec fn resolution_trace<W: Weight, S: ModuleScorer<W>>(
    scorer: S,
    network: Network<W>,
    trace: Seq<Map<ModuleId, Module<W>>>,
) -> bool {
    &&& trace.len() >= 1
    &&& forall|k: int|
        0 <= k < trace.len() - 1 ==> #[trigger] overlap_step(scorer, network, trace[k], trace[k + 1])
}

/// No two modules of `map` overlap each other by one half in both orders.
pub open spec fn no_overlaps<W: Weight>(map: Map<ModuleId, Module<W>>) -> bool {
    arithmetic_obeys::<W>() && order_obeys::<W>() ==> forall|x: ModuleId, y: ModuleId|
        #![trigger pair_overlaps(map, x, y, half_spec::<W>()), pair_overlaps(map, y, x, half_spec::<W>())]
        map.contains_key(x) && map.contains_key(y) && x != y ==> !pair_overlaps(
            map,
            x,
            y,
            half_spec::<W>(),
        ) || !pair_overlaps(map, y, x, half_spec::<W>())
}

/// `after` follows from `before` by overlap steps, and no overlap is left.
pub open spec fn overlaps_resolved<W: Weight, S: ModuleScorer<W>>(
    scorer: S,
    network: Network<W>,
    before: Map<ModuleId, Module<W>>,
    after: Map<ModuleId, Module<W>>,
) -> bool {
    &&& no_overlaps(after)
    &&& exists|trace: Seq<Map<ModuleId, Module<W>>>|
        #[trigger] resolution_trace(scorer, network, trace) && trace[0] == before && trace.last()
            == after
}

/// `value` is a score that `scorer` gives the nodes of `a` and `b` together,
/// listed in increasing order, each once.
pub open spec fn union_scored<W: Weight, S: ModuleScorer<W>>(
    scorer: S,
    network: Network<W>,
    a: Seq<NodeId>,
    b: Seq<NodeId>,
    value: W,
) -> bool {
    exists|u: Seq<NodeId>|
        #![trigger scorer.scored(network, u, value)]
        {
            &&& strictly_sorted(u)
            &&& u.to_set() == a.to_set() + b.to_set()
            &&& scorer.scored(network, u, value)
        }
}

/// `merge` is the decision whether modules `x` and `y` of `map` merge: for a
/// score that `scorer` gives their union, whether it is `>` the larger of
/// their two scores.
pub open spec fn merge_decision<W: Weight, S: ModuleScorer<W>>(
    scorer: S,
    network: Network<W>,
    map: Map<ModuleId, Module<W>>,
    x: ModuleId,
    y: ModuleId,
    merge: bool,
) -> bool {
    exists|value: W|
        #[trigger] union_scored(scorer, network, map[x].nodes@, map[y].nodes@, value) && (
        order_obeys::<W>() ==> (merge <==> weight_gt(
            value,
            weight_max_spec(map[x].score, map[y].score),
        )))
}

/// Some entry of the adjacency list `adj` leads to a node of `covered`.
pub open spec fn has_covered_neighbor<W>(adj: Seq<(NodeId, W)>, covered: Set<NodeId>) -> bool {
    exists|k: int| 0 <= k < adj.len() && covered.contains(#[trigger] adj[k].0)
}

/// The nodes of `homeless`, taken in order, that receive a module of their
/// own: those none of whose neighbours is held by a module, where the
/// modules held are `covered` at first and grow by each singleton created.
pub open spec fn singleton_nodes<W: Weight>(
    network: Network<W>,
    homeless: Seq<NodeId>,
    covered: Set<NodeId>,
) -> Seq<NodeId>
    decreases homeless.len(),
{
    if homeless.len() == 0 {
        Seq::empty()
    } else {
        let n = homeless[0];
        if has_covered_neighbor(network.adjacency(n), covered) {
            singleton_nodes(network, homeless.drop_first(), covered)
        } else {
            seq![n] + singleton_nodes(network, homeless.drop_first(), covered.insert(n))
        }
    }
}

/// `after` is `before` with a module of its own, scored with the zero
/// weight, for each node that `handle_singletons` gives one to, in
/// increasing node order under fresh identifiers.
pub open spec fn singletons_added<W: Weight>(
    network: Network<W>,
    before: ModuleCollection<W>,
    after: ModuleCollection<W>,
) -> bool {
        ({
            let added = singleton_nodes(
                network,
                homeless_upto(before.covered_nodes(), network.node_set().len()),
                before.covered_nodes(),
            );
            &&& after.spec_next_id() == before.spec_next_id() + added.len()
            &&& after.module_map().dom().len() == before.module_map().dom().len()
                + added.len()
            &&& added.len() <= network.node_set().len()
            &&& forall|id: ModuleId| #[trigger]
                after.module_map().contains_key(id) <==> (before.module_map().contains_key(id) || before.spec_next_id() <= id < before.spec_next_id() + added.len())
            &&& forall|id: ModuleId| #[trigger]
                before.module_map().contains_key(id) ==> after.module_map()[id]
                    == before.module_map()[id]
            &&& forall|k: int|
                0 <= k < added.len() ==> #[trigger] after.module_map()[(before.spec_next_id() + k) as ModuleId].nodes@ == seq![added[k]]
                    && (arithmetic_obeys::<W>() ==> after.module_map()[(before.spec_next_id() + k) as ModuleId].score == zero_spec::<W>())
        })
}

/// The nodes given a module of their own are distinct nodes of
/// `homeless`, none of them in `covered`, where `homeless` lists distinct
/// nodes outside `covered`.
proof fn lemma_singleton_nodes_fresh<W: Weight>(
    network: Network<W>,
    homeless: Seq<NodeId>,
    covered: Set<NodeId>,
)
    requires
        homeless.no_duplicates(),
        forall|k: int| 0 <= k < homeless.len() ==> !covered.contains(#[trigger] homeless[k]),
    ensures
        singleton_nodes(network, homeless, covered).no_duplicates(),
        forall|k: int|
            0 <= k < singleton_nodes(network, homeless, covered).len() ==> {
                &&& !covered.contains(#[trigger] singleton_nodes(network, homeless, covered)[k])
                &&& homeless.contains(singleton_nodes(network, homeless, covered)[k])
            },
    decreases homeless.len(),
{
    if homeless.len() > 0 {
        let n = homeless[0];
        let rest = homeless.drop_first();
        assert forall|k: int| 0 <= k < rest.len() implies rest[k] != n by {
            assert(homeless[k + 1] == rest[k]);
        }
        if has_covered_neighbor(network.adjacency(n), covered) {
            lemma_singleton_nodes_fresh(network, rest, covered);
            let added = singleton_nodes(network, rest, covered);
            assert forall|k: int| 0 <= k < added.len() implies homeless.contains(added[k]) by {
                let j = choose|j: int| 0 <= j < rest.len() && rest[j] == added[k];
                assert(homeless[j + 1] == added[k]);
            }
        } else {
            let bigger = covered.insert(n);
            assert forall|k: int| 0 <= k < rest.len() implies !bigger.contains(#[trigger] rest[k]) by {
                assert(homeless[k + 1] == rest[k]);
            }
            lemma_singleton_nodes_fresh(network, rest, bigger);
            let tail = singleton_nodes(network, rest, bigger);
            let added = seq![n] + tail;
            assert(singleton_nodes(network, homeless, covered) == added);
            assert forall|k: int| 0 <= k < added.len() implies {
                &&& !covered.contains(#[trigger] added[k])
                &&& homeless.contains(added[k])
            } by {
                if k == 0 {
                    assert(homeless[0] == n);
                } else {
                    assert(added[k] == tail[k - 1]);
                    let j = choose|j: int| 0 <= j < rest.len() && rest[j] == tail[k - 1];
                    assert(homeless[j + 1] == added[k]);
                }
            }
            assert forall|a: int, b: int| 0 <= a < b < added.len() implies added[a] != added[b] by {
                if a == 0 {
                    assert(added[b] == tail[b - 1]);
                    assert(!bigger.contains(tail[b - 1]));
                } else {
                    assert(added[a] == tail[a - 1]);
                    assert(added[b] == tail[b - 1]);
                }
            }
        }
    }
}

/// Giving homeless nodes modules of their own leaves disjoint modules
/// disjoint.
proof fn lemma_singletons_keep_disjoint<W: Weight>(
    network: Network<W>,
    before: ModuleCollection<W>,
    after: ModuleCollection<W>,
)
    requires
        before.wf(),
        network.node_set().len() <= usize::MAX,
        disjoint_modules(before.module_map()),
        singletons_added(network, before, after),
    ensures
        disjoint_modules(after.module_map()),
{
    let covered = before.covered_nodes();
    let total = network.node_set().len();
    let homeless = homeless_upto(covered, total);
    let added = singleton_nodes(network, homeless, covered);
    let next = before.spec_next_id();
    let b = before.module_map();
    let a = after.module_map();
    before.lemma_wf_facts();
    crate::modules::lemma_homeless_complement(covered, total);
    assert forall|k: int| 0 <= k < homeless.len() implies !covered.contains(#[trigger] homeless[k]) by {
        assert(homeless.contains(homeless[k]));
    }
    assert(homeless.no_duplicates()) by {
        assert forall|i: int, j: int| 0 <= i < j < homeless.len() implies homeless[i] != homeless[j] by {
            assert(homeless[i] < homeless[j]);
        }
    }
    lemma_singleton_nodes_fresh(network, homeless, covered);
    assert forall|id1: ModuleId, id2: ModuleId, n: NodeId|
        #[trigger] is_member(a, id1, n) && #[trigger] is_member(a, id2, n) implies id1 == id2 by {
        let old1 = b.contains_key(id1);
        let old2 = b.contains_key(id2);
        if old1 {
            assert(a[id1] == b[id1]);
            assert(is_member(b, id1, n));
            assert(covered.contains(n));
        }
        if old2 {
            assert(a[id2] == b[id2]);
            assert(is_member(b, id2, n));
            assert(covered.contains(n));
        }
        if !old1 {
            let k1 = id1 - next;
            assert(a[(next + k1) as ModuleId].nodes@ == seq![added[k1]]);
            assert(n == added[k1]);
            assert(!covered.contains(added[k1]));
        }
        if !old2 {
            let k2 = id2 - next;
            assert(a[(next + k2) as ModuleId].nodes@ == seq![added[k2]]);
            assert(n == added[k2]);
            assert(!covered.contains(added[k2]));
        }
        if !old1 && !old2 {
            let k1 = id1 - next;
            let k2 = id2 - next;
            if k1 != k2 {
                if k1 < k2 {
                    assert(added[k1] != added[k2]);
                } else {
                    assert(added[k2] != added[k1]);
                }
            }
        }
    }
}

/// Gives each node `0 .. node_count` that no module holds, and none of whose
/// neighbours a module holds, a module of its own with score
/// the zero weight, in increasing node order.
#[verifier::spinoff_prover]
fn handle_singletons<W: Weight>(network: &Network<W>, modules: &mut ModuleCollection<W>)
    requires
        network.wf(),
        old(modules).wf(),
        old(modules).spec_next_id() + network.node_set().len() <= usize::MAX,
    ensures
        final(modules).wf(),
        singletons_added(*network, *old(modules), *final(modules)),
{
    proof {
        network.lemma_ops_total();
    }
    let ghost covered0 = modules.covered_nodes();
    let ghost map0 = modules.module_map();
    let ghost next0 = modules.spec_next_id();
    proof {
        modules.lemma_wf_facts();
    }
    let total = network.node_count();
    let homeless = modules.homeless_nodes(total);
    proof {
        lemma_homeless_upto_len(covered0, total as nat);
    }
    let ghost target = singleton_nodes(*network, homeless@, covered0);
    let ghost mut added: Seq<NodeId> = Seq::empty();
    let mut i: usize = 0;
    while i < homeless.len()
        invariant
            network.wf(),
            weight_ops_total::<W>(),
            modules.wf(),
            i <= homeless@.len(),
            homeless@.len() <= total,
            total == network.node_set().len(),
            next0 + total <= usize::MAX,
            added.len() <= i,
            modules.spec_next_id() == next0 + added.len(),
            modules.module_map().dom().len() == map0.dom().len() + added.len(),
            target == added + singleton_nodes(*network, homeless@.skip(i as int), modules.covered_nodes()),
            forall|id: ModuleId| #[trigger]
                modules.module_map().contains_key(id) <==> (map0.contains_key(id) || next0 <= id
                    < next0 + added.len()),
            forall|id: ModuleId| #[trigger]
                map0.contains_key(id) ==> modules.module_map()[id] == map0[id],
            forall|k: int|
                0 <= k < added.len() ==> #[trigger] modules.module_map()[(next0
                    + k) as ModuleId].nodes@ == seq![added[k]] && (arithmetic_obeys::<W>()
                    ==> modules.module_map()[(next0 + k) as ModuleId].score == zero_spec::<W>()),
            forall|id: ModuleId| #[trigger] map0.contains_key(id) ==> id < next0,
        decreases homeless@.len() - i,
    {
        let node = homeless[i];
        let ghost covered = modules.covered_nodes();
        proof {
            let rest = homeless@.skip(i as int);
            assert(rest[0] == node);
            assert(rest.drop_first() =~= homeless@.skip(i + 1));
        }
        let mut create = false;
        match network.neighbors(node) {
            Some(neighbors) => {
                let mut best_module: Option<ModuleId> = None;
                let mut best_connections: usize = 0;
                let mut k: usize = 0;
                while k < neighbors.len()
                    invariant
                        modules.wf(),
                        covered == modules.covered_nodes(),
                        k <= neighbors@.len(),
                        best_connections <= neighbors@.len(),
                        best_module is Some <==> best_connections > 0,
                        best_module is Some <==> exists|j: int|
                            0 <= j < k && covered.contains(#[trigger] neighbors@[j].0),
                    decreases neighbors@.len() - k,
                {
                    let (neighbor, _weight) = neighbors[k];
                    if let Some(memberships) = modules.node_memberships(neighbor) {
                        let ghost members = memberships@;
                        let ghost keys = memberships.iter().remaining();
                        proof {
                            assert(keys.unref().to_set() == members);
                            let x = choose|x: ModuleId| is_member(
                                modules.module_map(),
                                x,
                                neighbor,
                            );
                            assert(members.contains(x));
                            assert(keys.unref().contains(x));
                            assert(keys.len() > 0);
                        }
                        for module_id in it: memberships.iter()
                            invariant
                                modules.wf(),
                                it.seq() == keys,
                                keys.unref().to_set() == members,
                                members == modules.members_of(neighbor),
                                neighbors@[k as int].0 == neighbor,
                                k < neighbors@.len(),
                                best_connections <= neighbors@.len(),
                                best_module is Some <==> best_connections > 0,
                                it.index() > 0 ==> best_connections > 0,
                        {
                            proof {
                                assert(keys.unref()[it.index() as int] == *module_id);
                                assert(keys.unref().contains(*module_id));
                            }
                            proof {
                                assert(members.contains(*module_id));
                                assert(is_member(
                                    modules.module_map(),
                                    *module_id,
                                    neighbor,
                                ));
                            }
                            match modules.get_module(*module_id) {
                                Some(module) => {
                                    let mut connections: usize = 0;
                                    let mut j: usize = 0;
                                    while j < neighbors.len()
                                        invariant
                                            j <= neighbors@.len(),
                                            connections <= j,
                                            k < neighbors@.len(),
                                            module.nodes@.contains(neighbors@[k as int].0),
                                            j > k ==> connections > 0,
                                        decreases neighbors@.len() - j,
                                    {
                                        if module.contains(neighbors[j].0) {
                                            connections = connections + 1;
                                        }
                                        j = j + 1;
                                    }
                                    if connections > best_connections {
                                        best_connections = connections;
                                        best_module = Some(*module_id);
                                    }
                                },
                                None => {},
                            }
                        }
                    }
                    proof {
                        assert(covered.contains(neighbor) <==> modules.covered_nodes().contains(
                            neighbor,
                        ));
                        assert(neighbors@[k as int].0 == neighbor);
                    }
                    k = k + 1;
                }
                if best_module.is_none() {
                    create = true;
                }
            },
            None => {
                create = true;
            },
        }
        proof {
            assert(create <==> !has_covered_neighbor(network.adjacency(node), covered));
        }
        if create {
            let ghost before = modules.module_map();
            proof {
                modules.lemma_wf_facts();
                assert(!before.contains_key(modules.spec_next_id()));
            }
            let mut single: Vec<NodeId> = Vec::new();
            single.push(node);
            assert(single@ == seq![node]);
            let id = modules.insert_module(single, zero_weight());
            proof {
                modules.lemma_wf_facts();
                assert(modules.module_map().dom() =~= before.dom().insert(id));
                assert(modules.module_map().dom().len() == before.dom().len() + 1);
                assert(modules.covered_nodes() =~= covered.insert(node)) by {
                    assert forall|n: NodeId|
                        #![trigger modules.covered_nodes().contains(n)]
                        modules.covered_nodes().contains(n) <==> covered.insert(node).contains(n)
                        by {
                        if n == node {
                            assert(is_member(modules.module_map(), id, n));
                        }
                        if covered.contains(n) {
                            let x = choose|x: ModuleId| is_member(before, x, n);
                            assert(is_member(modules.module_map(), x, n));
                        }
                        if modules.covered_nodes().contains(n) {
                            let x = choose|x: ModuleId|
                                is_member(modules.module_map(), x, n);
                            if x != id {
                                assert(is_member(before, x, n));
                            }
                        }
                    }
                }
                let old_added = added;
                added = added.push(node);
                assert forall|k: int|
                    0 <= k < added.len() implies #[trigger] modules.module_map()[(next0
                        + k) as ModuleId].nodes@ == seq![added[k]] && (arithmetic_obeys::<W>()
                        ==> modules.module_map()[(next0 + k) as ModuleId].score == zero_spec::<W>()) by {
                    if k < added.len() - 1 {
                        assert(before.contains_key((next0 + k) as ModuleId));
                        assert(added[k] == old_added[k]);
                        assert(before[(next0 + k) as ModuleId].nodes@ == seq![old_added[k]]);
                    } else {
                        assert((next0 + k) as ModuleId == id);
                        assert(modules.module_map()[id].nodes@ == seq![node]);
                    }
                }
            }
        }
        i = i + 1;
    }
    proof {
        assert(homeless@.skip(homeless@.len() as int) =~= Seq::<NodeId>::empty());
        assert(added =~= target);
    }
}

/// One OSLOM run on `network`: Louvain communities, kept where their score
/// reaches the threshold, with overlaps resolved; the modules are disjoint.
/// `ConvergenceFailed` only where the Louvain optimisation gives up.
fn run_single_oslom_iteration<W: Weight, S: ModuleScorer<W>>(
    network: &Network<W>,
    config: &OslomConfig<W>,
    scorer: &S,
    shuffler: &mut NodeShuffler,
) -> (r: Result<ModuleCollection<W>, OslomError>)
    requires
        network.wf(),
        network.node_set().len() <= usize::MAX / 2,
    ensures
        match r {
            Ok(c) => {
                &&& c.wf()
                &&& c.spec_next_id() <= 2 * network.node_set().len()
                &&& c.module_map().dom().len() <= network.node_set().len()
                &&& c.covered_nodes().subset_of(network.node_set())
                &&& single_run_result(*scorer, *network, config.threshold, c.module_map())
                &&& disjoint_modules(c.module_map())
            },
            Err(e) => e is ConvergenceFailed && louvain_fails(*network),
        },
        self_loops_only(*network) ==> r is Ok,
{
    proof {
        network.lemma_ops_total();
    }
    let mut optimizer = LouvainOptimizer::new(network);
    let ghost start = (optimizer.assignment(), optimizer.weights());
    let initial_modules = match optimizer.optimize_with(shuffler) {
        Ok(c) => c,
        Err(e) => {
            proof {
                assert(singleton_state(*network, start));
            }
            return Err(e);
        },
    };
    proof {
        crate::graph::lemma_endpoints_finite(network.edge_log());
        initial_modules.lemma_partition_size(network.node_set());
        crate::modules::lemma_partition_covers(initial_modules, network.node_set());
        assert(disjoint_modules(initial_modules.module_map()));
    }
    let evaluated_modules = evaluate_modules(network, config.threshold, &initial_modules, scorer);
    let final_modules = process_overlaps(network, evaluated_modules, scorer)?;
    proof {
        assert(evaluated_from(
            *scorer,
            *network,
            initial_modules.module_map(),
            evaluated_modules.module_map(),
            config.threshold,
        ));
        assert(stable(*network, optimizer.assignment(), optimizer.weights()));
        assert(communities_connected(*network, optimizer.assignment()));
    }
    Ok(final_modules)
}

/// `result` is what one run can give on `network`: the modules of a
/// partition of its nodes into communities, each within one weakly
/// connected component and from which no node would move, scored and kept
/// where they reach `threshold`, with overlaps then resolved.
pub open spec fn single_run_result<W: Weight, S: ModuleScorer<W>>(
    scorer: S,
    network: Network<W>,
    threshold: W,
    result: Map<ModuleId, Module<W>>,
) -> bool {
    exists|
        initial: ModuleCollection<W>,
        evaluated: Map<ModuleId, Module<W>>,
        assign: Map<NodeId, ModuleId>,
        weights: Map<ModuleId, W>,
    |
        #![trigger evaluated_from(scorer, network, initial.module_map(), evaluated, threshold), stable(network, assign, weights)]
        {
            &&& initial.partitions(network.node_set())
            &&& groups_communities(initial.module_map(), assign)
            &&& communities_connected(network, assign)
            &&& stable(network, assign, weights)
            &&& evaluated_from(scorer, network, initial.module_map(), evaluated, threshold)
            &&& overlaps_resolved(scorer, network, evaluated, result)
        }
}

/// The modules of one hierarchical level: `r` runs on the first level and
/// `hr` on the others (one where that number is zero), made one after
/// another; the run of largest modularity is kept (the first on ties; none
/// beats minus infinity only through a NaN) and, where `find_singletons` is
/// set, homeless nodes without a covered neighbour get modules of their own.
/// `ConvergenceFailed` only where a Louvain optimisation gives up.
fn run_oslom_level<W: Weight, S: ModuleScorer<W>>(
    network: &Network<W>,
    config: &OslomConfig<W>,
    level: usize,
    scorer: &S,
    shuffler: &mut NodeShuffler,
) -> (r: Result<ModuleCollection<W>, OslomError>)
    requires
        network.wf(),
        network.node_set().len() <= usize::MAX / 4,
    ensures
        match r {
            Ok(c) => {
                &&& c.wf()
                &&& c.module_map().dom().len() <= 2 * network.node_set().len()
                &&& !config.find_singletons ==> c.module_map().dom().len()
                    <= network.node_set().len()
                &&& !config.find_singletons ==> c.covered_nodes().subset_of(network.node_set())
                &&& level_result(*scorer, *network, *config, level, c)
                &&& disjoint_modules(c.module_map())
            },
            Err(e) => e is ConvergenceFailed && louvain_fails(*network),
        },
        self_loops_only(*network) ==> r is Ok,
{
    proof {
        network.lemma_ops_total();
    }
    let configured = if level == 0 {
        config.r
    } else {
        config.hr
    };
    let runs = if configured == 0 {
        1
    } else {
        configured
    };
    let mut best_modules: ModuleCollection<W> = ModuleCollection::new();
    let mut best_modularity = weight_sub(zero_weight(), weight_div(W::from(1u32), zero_weight()));
    let ghost mut run_maps: Seq<Map<ModuleId, Module<W>>> = Seq::empty();
    let ghost mut values: Seq<W> = Seq::empty();
    let ghost obeys = arithmetic_obeys::<W>() && order_obeys::<W>();
    proof {
        assert(best_modules.covered_nodes() =~= Set::<NodeId>::empty());
    }
    let mut run: usize = 0;
    while run < runs
        invariant
            network.wf(),
            weight_ops_total::<W>(),
            network.node_set().len() <= usize::MAX / 4,
            runs == run_count(*config, level),
            obeys == (arithmetic_obeys::<W>() && order_obeys::<W>()),
            run <= runs,
            best_modules.wf(),
            best_modules.spec_next_id() <= 2 * network.node_set().len(),
            best_modules.module_map().dom().len() <= network.node_set().len(),
            best_modules.covered_nodes().subset_of(network.node_set()),
            best_modules.module_map() == Map::<ModuleId, Module<W>>::empty() || single_run_result(
                *scorer,
                *network,
                config.threshold,
                best_modules.module_map(),
            ),
            run_maps.len() == run,
            disjoint_modules(best_modules.module_map()),
            runs_ok(*scorer, *network, *config, run_maps, values),
            obeys ==> (best_modules.module_map(), best_modularity) == best_run(
                run_maps,
                values,
                minus_infinity::<W>(),
            ),
        decreases runs - run,
    {
        scorer.progress(Progress::Run { run: run + 1, runs });
        let modules = run_single_oslom_iteration(network, config, scorer, shuffler)?;
        let modularity = calculate_modularity(network, &modules);
        let ghost old_maps = run_maps;
        let ghost old_values = values;
        proof {
            run_maps = run_maps.push(modules.module_map());
            values = values.push(modularity);
            assert(run_maps.drop_last() =~= old_maps);
            assert(values.drop_last() =~= old_values);
            assert(modularity_value(*network, modules.module_map(), modularity));
            assert(runs_ok(*scorer, *network, *config, run_maps, values));
        }
        if modularity.gt(&best_modularity) {
            best_modularity = modularity;
            best_modules = modules;
        }
        run = run + 1;
    }
    let ghost best = best_modules;
    if config.find_singletons {
        handle_singletons(network, &mut best_modules);
    }
    proof {
        assert(best.module_map() == Map::<ModuleId, Module<W>>::empty() || single_run_result(
            *scorer,
            *network,
            config.threshold,
            best.module_map(),
        ));
        let bm = best_run(run_maps, values, minus_infinity::<W>());
        assert(obeys ==> best.module_map() == bm.0);
        assert(run_maps.len() == run_count(*config, level));
        assert(config.find_singletons ==> singletons_added(*network, best, best_modules));
        if config.find_singletons {
            lemma_singletons_keep_disjoint(*network, best, best_modules);
        }
        assert(!config.find_singletons ==> best_modules == best);
        assert(best_modules.wf());
        assert(!config.find_singletons ==> best_modules.module_map().dom().len()
            <= network.node_set().len());
        assert(level_result(*scorer, *network, *config, level, best_modules));
    }
    Ok(best_modules)
}

/// The number of runs made on `level`: `r` on the first level, `hr` on
/// the others, one where that number is zero.
pub open spec fn run_count<W>(config: OslomConfig<W>, level: usize) -> usize {
    let configured = if level == 0 {
        config.r
    } else {
        config.hr
    };
    if configured == 0 {
        1
    } else {
        configured
    }
}

/// `0 - 1 / 0` in `W`: minus infinity for floating-point weights.
pub open spec fn minus_infinity<W: Weight>() -> W {
    zero_spec::<W>().sub_spec(weight_of::<W>(1u32).div_spec(zero_spec::<W>()))
}

/// The run kept after examining the runs `runs` with modularities `values`
/// in order, and its modularity: starting from no modules and `start`, a run
/// replaces the kept one where its modularity is `>` the kept modularity.
pub open spec fn best_run<W: Weight>(
    runs: Seq<Map<ModuleId, Module<W>>>,
    values: Seq<W>,
    start: W,
) -> (Map<ModuleId, Module<W>>, W)
    decreases runs.len(),
{
    if runs.len() == 0 {
        (Map::empty(), start)
    } else {
        let prev = best_run(runs.drop_last(), values.drop_last(), start);
        if weight_gt(values.last(), prev.1) {
            (runs.last(), values.last())
        } else {
            prev
        }
    }
}

/// Law: a hierarchy goes on after every level below 11 that has at least
/// two modules. If the last level `top - 1` is at most level 10 and holds
/// two modules or more, the hierarchy stopped only because the network of
/// those modules is too large or its run gave no module; and every earlier
/// level holds two modules or more.
pub proof fn lemma_hierarchy_continues<W: Weight, S: ModuleScorer<W>>(
    scorer: S,
    network: Network<W>,
    config: OslomConfig<W>,
    levels: Map<usize, ModuleCollection<W>>,
    top: int,
    nets: Seq<Network<W>>,
)
    requires
        hierarchy_of(scorer, network, config, levels, top, nets),
    ensures
        forall|l: int| 0 <= l < top - 1 ==> #[trigger] levels[l as usize].module_map().dom().len() >= 2,
        top > 0 && top - 1 <= 10 && levels[(top - 1) as usize].module_map().dom().len() >= 2 ==> {
            ||| nets[top].node_set().len() > usize::MAX / 4
            ||| exists|c: ModuleCollection<W>|
                #[trigger] level_result(scorer, nets[top], config, top as usize, c)
                    && c.module_map().dom().len() == 0
        },
{
    assert forall|l: int| 0 <= l < top - 1 implies #[trigger] levels[l as usize].module_map().dom().len()
        >= 2 by {
        assert(level_step(scorer, config, levels, nets, l, top));
    }
}

/// Law: where `W`'s `>` is a strict order, the run kept has the largest
/// modularity: no run's modularity, nor `start`, is `>` the kept value, and
/// the kept pair is `start` with no modules, or one of the runs with its own
/// modularity, which is `>` `start`.
pub proof fn lemma_best_run_is_max<W: Weight>(
    runs: Seq<Map<ModuleId, Module<W>>>,
    values: Seq<W>,
    start: W,
)
    requires
        strict_weight_order::<W>(),
        values.len() == runs.len(),
    ensures
        ({
            let best = best_run(runs, values, start);
            &&& forall|k: int| 0 <= k < values.len() ==> !weight_gt(#[trigger] values[k], best.1)
            &&& !weight_gt(start, best.1)
            &&& best == (Map::<ModuleId, Module<W>>::empty(), start) || exists|k: int|
                0 <= k < runs.len() && best == (#[trigger] runs[k], values[k]) && weight_gt(
                    values[k],
                    start,
                )
        }),
    decreases runs.len(),
{
    if runs.len() > 0 {
        let pr = runs.drop_last();
        let pv = values.drop_last();
        lemma_best_run_is_max(pr, pv, start);
        let prev = best_run(pr, pv, start);
        let best = best_run(runs, values, start);
        let v = values.last();
        assert forall|k: int| 0 <= k < values.len() implies !weight_gt(#[trigger] values[k], best.1) by {
            if k < pv.len() {
                assert(values[k] == pv[k]);
                assert(!weight_gt(pv[k], prev.1));
                if weight_gt(v, prev.1) && weight_gt(values[k], v) {
                    assert(weight_gt(values[k], prev.1));
                }
            }
        }
        if weight_gt(v, prev.1) {
            if weight_gt(start, v) {
                assert(weight_gt(start, prev.1));
            }
            let k = runs.len() - 1;
            assert(runs[k] == runs.last());
            if prev.1 != start {
                let k0 = choose|k0: int|
                    0 <= k0 < pr.len() && prev == (#[trigger] pr[k0], pv[k0]) && weight_gt(pv[k0], start);
                assert(weight_gt(v, start));
            }
            assert(best == (runs[k], values[k]));
        } else if prev != (Map::<ModuleId, Module<W>>::empty(), start) {
            let k = choose|k: int|
                0 <= k < pr.len() && prev == (#[trigger] pr[k], pv[k]) && weight_gt(pv[k], start);
            assert(runs[k] == pr[k]);
            assert(values[k] == pv[k]);
            assert(best == (runs[k], values[k]));
        }
    }
}

/// Hierarchical OSLOM: the modules of `network` on level 0, then of the
/// network of those modules on level 1, and so on while a level yields more
/// than one module, up to level 11. `InsufficientData` for a network without
/// nodes; `ConvergenceFailed` where a Louvain optimisation does not converge,
/// stated with the levels completed before the level on whose network that
/// happened. A network whose nodes list only themselves always succeeds
/// (where it has more than one node or `find_singletons` is set, this is
/// stated for a `W` whose operators and strict order follow their
/// specifications). Node orders are drawn from a
/// generator seeded with `random_seed` where one is given.
pub fn run_oslom<W: Weight, S: ModuleScorer<W>>(
    network: &Network<W>,
    config: &OslomConfig<W>,
    scorer: &S,
) -> (r: Result<OslomResult<W>, OslomError>)
    requires
        network.wf(),
        network.node_set().len() <= usize::MAX / 4,
    ensures
        network.node_set().len() == 0 ==> (r matches Err(e) && e is InsufficientData),
        match r {
            Ok(res) => {
                let levels = res.hierarchical_modules@;
                &&& network.node_set().len() > 0
                &&& res.config == *config
                &&& res.statistics.total_nodes == network.node_set().len()
                &&& forall|l: usize| #[trigger]
                    levels.contains_key(l) ==> {
                        &&& l <= 11
                        &&& levels[l].wf()
                        &&& levels[l].module_map().dom().len() > 0
                        &&& forall|l2: usize| l2 < l ==> levels.contains_key(l2)
                    }
                &&& levels.contains_key(0) ==> {
                    &&& res.statistics.num_modules == levels[0].module_map().dom().len()
                    &&& res.statistics.coverage == levels[0].covered_nodes().len()
                    &&& res.statistics.homeless_nodes == homeless_upto(
                        levels[0].covered_nodes(),
                        network.node_set().len(),
                    ).len()
                }
                &&& !config.find_singletons && levels.contains_key(0) ==> levels[0].covered_nodes().subset_of(
                    network.node_set(),
                )
                &&& !config.find_singletons ==> res.statistics.coverage <= res.statistics.total_nodes
                &&& !levels.contains_key(0) ==> {
                    &&& res.statistics.num_modules == 0
                    &&& res.statistics.coverage == 0
                    &&& res.statistics.homeless_nodes == network.node_set().len()
                    &&& arithmetic_obeys::<W>() ==> res.statistics.modularity == zero_spec::<W>()
                }
                &&& levels.contains_key(0) ==> modularity_value(
                    *network,
                    levels[0].module_map(),
                    res.statistics.modularity,
                )
                &&& exists|top: int, nets: Seq<Network<W>>|
                    #[trigger] hierarchy_of(*scorer, *network, *config, levels, top, nets) && forall|l: usize|
                        #[trigger] levels.contains_key(l) <==> l < top
            },
            Err(e) => {
                ||| network.node_set().len() == 0 && e is InsufficientData
                ||| {
                    &&& network.node_set().len() > 0
                    &&& e is ConvergenceFailed
                    &&& exists|
                        levels: Map<usize, ModuleCollection<W>>,
                        top: int,
                        nets: Seq<Network<W>>,
                    | #[trigger] fails_at_level(*scorer, *network, *config, levels, top, nets)
                }
            },
        },
        self_loops_only(*network) && network.node_set().len() == 1 && !config.find_singletons
            ==> r is Ok,
        arithmetic_obeys::<W>() && order_obeys::<W>() && strict_weight_order::<W>()
            && self_loops_only(*network) && network.node_set().len() > 0 ==> r is Ok,
{
    proof {
        network.lemma_ops_total();
    }
    let total_nodes = network.node_count();
    if total_nodes == 0 {
        return Err(OslomError::InsufficientData("Empty network".to_string()));
    }
    let mut shuffler = NodeShuffler::new(config.random_seed);
    let mut hierarchical_modules: HashMap<usize, ModuleCollection<W>> = HashMap::new();
    let mut aggregated: Option<Network<W>> = None;
    let mut level: usize = 0;
    let ghost mut top: nat = 0;
    let ghost mut nets: Seq<Network<W>> = seq![*network];
    let ghost succeeds = self_loops_only(*network) && network.node_set().len() == 1
        && !config.find_singletons;
    let ghost good = arithmetic_obeys::<W>() && order_obeys::<W>() && strict_weight_order::<W>()
        && self_loops_only(*network);
    loop
        invariant_except_break
            level <= 11,
            network.wf(),
            weight_ops_total::<W>(),
            network.node_set().len() > 0,
            network.node_set().len() <= usize::MAX / 4,
            match aggregated {
                Some(net) => {
                    &&& level > 0
                    &&& net.wf()
                    &&& nets[level as int] == net
                },
                None => level == 0,
            },
            nets.len() == level + 1,
            nets[0] == *network,
            forall|l: usize| #[trigger]
                hierarchical_modules@.contains_key(l) <==> l < level,
            forall|l: usize| #[trigger]
                hierarchical_modules@.contains_key(l) ==> hierarchical_modules@[l].wf()
                    && hierarchical_modules@[l].module_map().dom().len() > 0,
            forall|l: int|
                0 <= l < level ==> #[trigger] level_step(
                    *scorer,
                    *config,
                    hierarchical_modules@,
                    nets,
                    l,
                    level + 1,
                ),
            !config.find_singletons && hierarchical_modules@.contains_key(0)
                ==> hierarchical_modules@[0].covered_nodes().subset_of(network.node_set()),
            succeeds == (self_loops_only(*network) && network.node_set().len() == 1
                && !config.find_singletons),
            level > 0 ==> !succeeds,
            good == (arithmetic_obeys::<W>() && order_obeys::<W>() && strict_weight_order::<W>()
                && self_loops_only(*network)),
            good ==> self_loops_only(nets[level as int]),
        ensures
            top <= 12,
            !config.find_singletons && hierarchical_modules@.contains_key(0)
                ==> hierarchical_modules@[0].covered_nodes().subset_of(network.node_set()),
            forall|l: usize| #[trigger] hierarchical_modules@.contains_key(l) <==> l < top,
            forall|l: usize| #[trigger]
                hierarchical_modules@.contains_key(l) ==> hierarchical_modules@[l].wf()
                    && hierarchical_modules@[l].module_map().dom().len() > 0,
            hierarchy_of(*scorer, *network, *config, hierarchical_modules@, top as int, nets),
        decreases 11 - level,
    {
        scorer.progress(Progress::LevelStart { level });
        let current: &Network<W> = match &aggregated {
            Some(net) => net,
            None => network,
        };
        if current.node_count() > usize::MAX / 4 {
            proof {
                top = level as nat;
                assert forall|l: int| 0 <= l < top implies #[trigger] level_step(
                    *scorer,
                    *config,
                    hierarchical_modules@,
                    nets,
                    l,
                    top as int,
                ) by {
                    assert(level_step(*scorer, *config, hierarchical_modules@, nets, l, level + 1));
                }
            }
            break;
        }
        let modules = match run_oslom_level(current, config, level, scorer, &mut shuffler) {
            Ok(c) => c,
            Err(e) => {
                proof {
                    assert(nets[level as int] == *current);
                    assert(fails_at_level(
                        *scorer,
                        *network,
                        *config,
                        hierarchical_modules@,
                        level as int,
                        nets,
                    ));
                }
                return Err(e);
            },
        };
        let count = modules.size();
        if count == 0 {
            scorer.progress(Progress::NoModules { level });
            proof {
                top = level as nat;
                assert(level_result(*scorer, nets[top as int], *config, top as usize, modules));
                assert forall|l: int| 0 <= l < top implies #[trigger] level_step(
                    *scorer,
                    *config,
                    hierarchical_modules@,
                    nets,
                    l,
                    top as int,
                ) by {
                    assert(level_step(*scorer, *config, hierarchical_modules@, nets, l, level + 1));
                }
            }
            break;
        }
        scorer.progress(Progress::ModulesFound { level, count });
        if count <= 1 || level > 10 {
            let ghost old_levels = hierarchical_modules@;
            let ghost old_nets = nets;
            hierarchical_modules.insert(level, modules);
            proof {
                top = level as nat + 1;
                nets = nets.push(*current);
                assert(forall|l: usize| #[trigger]
                    hierarchical_modules@.contains_key(l) <==> l < top);
                assert forall|l: int| 0 <= l < top implies #[trigger] level_step(
                    *scorer,
                    *config,
                    hierarchical_modules@,
                    nets,
                    l,
                    top as int,
                ) by {
                    if l < level {
                        assert(level_step(*scorer, *config, old_levels, old_nets, l, level + 1));
                        assert(nets[l] == old_nets[l]);
                        assert(nets[l + 1] == old_nets[l + 1]);
                        assert(hierarchical_modules@[l as usize] == old_levels[l as usize]);
                    } else {
                        assert(hierarchical_modules@[l as usize] == modules);
                    }
                }
            }
            break;
        }
        let next_network = create_aggregate_network(current, &modules);
        let ghost old_levels = hierarchical_modules@;
        let ghost old_nets = nets;
        hierarchical_modules.insert(level, modules);
        proof {
            nets = nets.push(next_network);
            assert forall|l: int| 0 <= l < level + 1 implies #[trigger] level_step(
                *scorer,
                *config,
                hierarchical_modules@,
                nets,
                l,
                level + 2,
            ) by {
                if l < level {
                    assert(level_step(*scorer, *config, old_levels, old_nets, l, level + 1));
                    assert(nets[l] == old_nets[l]);
                    assert(nets[l + 1] == old_nets[l + 1]);
                    assert(hierarchical_modules@[l as usize] == old_levels[l as usize]);
                } else {
                    assert(hierarchical_modules@[l as usize] == modules);
                    assert(nets[l] == *current);
                    assert(nets[l + 1] == next_network);
                    assert(level_result(*scorer, *current, *config, level, modules));
                    assert(aggregate_of(*current, modules, next_network));
                }
            }
            if good {
                assert(nets[level as int] == *current);
                lemma_aggregate_of_self_loops(*current, modules, next_network);
                assert(nets[level + 1] == next_network);
            }
        }
        aggregated = Some(next_network);
        let ghost prev = level as int;
        level = level + 1;
        proof {
            assert forall|l: int| 0 <= l < level implies #[trigger] level_step(
                *scorer,
                *config,
                hierarchical_modules@,
                nets,
                l,
                level + 1,
            ) by {
                assert(level_step(*scorer, *config, hierarchical_modules@, nets, l, prev + 2));
                assert(prev + 2 == level + 1);
            }
        }
    }
    let statistics = match hierarchical_modules.get(&0) {
        Some(base_modules) => ClusteringStats {
            num_modules: base_modules.size(),
            coverage: base_modules.coverage(),
            modularity: calculate_modularity(network, base_modules),
            total_nodes,
            homeless_nodes: base_modules.homeless_nodes(total_nodes).len(),
        },
        None => ClusteringStats {
            num_modules: 0,
            coverage: 0,
            modularity: zero_weight(),
            total_nodes,
            homeless_nodes: total_nodes,
        },
    };
    let result = OslomResult { hierarchical_modules, statistics, config: *config };
    proof {
        if !config.find_singletons && result.hierarchical_modules@.contains_key(0) {
            crate::graph::lemma_endpoints_finite(network.edge_log());
            vstd::set_lib::lemma_len_subset(
                result.hierarchical_modules@[0].covered_nodes(),
                network.node_set(),
            );
        }
        let levels = result.hierarchical_modules@;
        assert forall|l: usize| #[trigger] levels.contains_key(l) implies l <= 11 && forall|
            l2: usize,
        | l2 < l ==> levels.contains_key(l2) by {
            assert(l < top);
        }
    }
    Ok(result)
}


proof fn lemma_homeless_upto_len(covered: Set<NodeId>, total: nat)
    ensures
        homeless_upto(covered, total).len() <= total,
    decreases total,
{
    if total > 0 {
        lemma_homeless_upto_len(covered, (total - 1) as nat);
    }
}

} // verus!
