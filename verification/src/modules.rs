use std::collections::HashMap;
use std::collections::HashSet;

use vstd::prelude::*;
use vstd::std_specs::iter::IteratorSpec;

use crate::error::OslomError;
use crate::graph::NodeId;
use crate::order::strictly_sorted;
use crate::weight::{
    arithmetic_obeys, count_to_weight, count_weight, order_obeys, weight_add, weight_div,
    weight_ge, weight_ops_total, zero_spec, zero_weight, Weight,
};
use vstd::std_specs::ops::{AddSpec, DivSpec};

verus! {

broadcast use {vstd::std_specs::hash::group_hash_axioms, vstd::seq_lib::group_seq_properties};

pub type ModuleId = usize;

/// A module (community): an identifier, its nodes and a score.
#[derive(Debug, Clone)]
pub struct Module<W> {
    pub id: ModuleId,
    pub nodes: Vec<NodeId>,
    pub score: W,
}

/// The number of entries of `s` that lie in `set`, counted with repetition.
pub open spec fn count_in(s: Seq<NodeId>, set: Set<NodeId>) -> nat
    decreases s.len(),
{
    if s.len() == 0 {
        0
    } else {
        count_in(s.drop_last(), set) + if set.contains(s.last()) {
            1nat
        } else {
            0nat
        }
    }
}

pub proof fn lemma_count_in_bound(s: Seq<NodeId>, set: Set<NodeId>)
    ensures
        count_in(s, set) <= s.len(),
    decreases s.len(),
{
    if s.len() > 0 {
        lemma_count_in_bound(s.drop_last(), set);
    }
}

/// The overlap ratio of `a` with `b`: the entries of `b` that are nodes of
/// `a`, divided by the smaller of the two sizes, in `W`; the zero weight
/// where one of them is empty.
pub open spec fn overlap_ratio_spec<W: Weight>(a: Module<W>, b: Module<W>) -> W {
    let inter = count_in(b.nodes@, a.nodes@.to_set());
    let min = if a.nodes@.len() < b.nodes@.len() {
        a.nodes@.len()
    } else {
        b.nodes@.len()
    };
    if min == 0 {
        zero_spec::<W>()
    } else {
        count_weight::<W>(inter as usize).div_spec(count_weight::<W>(min as usize))
    }
}

/// The entries of a sequence without repetition that lie in `set` are as
/// many as the elements its set shares with `set`.
proof fn lemma_count_in_no_dup(s: Seq<NodeId>, set: Set<NodeId>)
    requires
        s.no_duplicates(),
    ensures
        count_in(s, set) == s.to_set().intersect(set).len(),
        s.to_set().intersect(set).finite(),
    decreases s.len(),
{
    if s.len() == 0 {
        assert(s.to_set().intersect(set) =~= Set::<NodeId>::empty());
    } else {
        let prev = s.drop_last();
        let x = s.last();
        lemma_count_in_no_dup(prev, set);
        assert(s =~= prev.push(x));
        prev.lemma_push_to_set_commute(x);
        assert(!prev.contains(x)) by {
            if prev.contains(x) {
                let j = choose|j: int| 0 <= j < prev.len() && prev[j] == x;
                assert(s[j] == s[s.len() - 1]);
            }
        }
        let pi = prev.to_set().intersect(set);
        assert(!pi.contains(x));
        if set.contains(x) {
            assert(s.to_set().intersect(set) =~= pi.insert(x));
        } else {
            assert(s.to_set().intersect(set) =~= pi);
        }
    }
}

/// Law: for modules without repeated nodes, the overlap ratio does not
/// depend on the order of the two modules: the shared nodes are divided by
/// the size of the smaller module either way. A module contained in the
/// other has ratio `k / k` with it in both orders, `k` its size.
pub proof fn lemma_overlap_ratio_symmetric<W: Weight>(a: Module<W>, b: Module<W>)
    requires
        a.nodes@.no_duplicates(),
        b.nodes@.no_duplicates(),
    ensures
        overlap_ratio_spec(a, b) == overlap_ratio_spec(b, a),
        count_in(b.nodes@, a.nodes@.to_set()) == count_in(a.nodes@, b.nodes@.to_set()),
        a.nodes@.len() > 0 && a.nodes@.to_set().subset_of(b.nodes@.to_set()) ==> {
            &&& a.nodes@.len() <= b.nodes@.len()
            &&& overlap_ratio_spec(a, b) == count_weight::<W>(a.nodes@.len() as usize).div_spec(
                count_weight::<W>(a.nodes@.len() as usize),
            )
            &&& overlap_ratio_spec(b, a) == overlap_ratio_spec(a, b)
        },
{
    let sa = a.nodes@.to_set();
    let sb = b.nodes@.to_set();
    lemma_count_in_no_dup(a.nodes@, sb);
    lemma_count_in_no_dup(b.nodes@, sa);
    assert(sa.intersect(sb) =~= sb.intersect(sa));
    a.nodes@.unique_seq_to_set();
    b.nodes@.unique_seq_to_set();
    if a.nodes@.len() > 0 && sa.subset_of(sb) {
        assert(sb.intersect(sa) =~= sa);
        vstd::set_lib::lemma_len_subset(sa, sb);
    }
}

/// Module `x`'s overlap ratio with module `y` reaches `threshold`.
pub open spec fn pair_overlaps<W: Weight>(
    map: Map<ModuleId, Module<W>>,
    x: ModuleId,
    y: ModuleId,
    threshold: W,
) -> bool {
    weight_ge(overlap_ratio_spec(map[x], map[y]), threshold)
}

impl<W: Weight> Module<W> {
    pub fn new(id: ModuleId, nodes: Vec<NodeId>, score: W) -> (r: Self)
        ensures
            r.id == id,
            r.nodes == nodes,
            r.score == score,
    {
        Module { id, nodes, score }
    }

    /// The number of node entries.
    pub fn size(&self) -> (r: usize)
        ensures
            r == self.nodes@.len(),
    {
        self.nodes.len()
    }

    /// Whether `node` is one of the module's nodes.
    pub fn contains(&self, node: NodeId) -> (r: bool)
        ensures
            r == self.nodes@.contains(node),
    {
        let mut i: usize = 0;
        while i < self.nodes.len()
            invariant
                i <= self.nodes@.len(),
                forall|k: int| 0 <= k < i ==> self.nodes@[k] != node,
            decreases self.nodes@.len() - i,
        {
            if self.nodes[i] == node {
                return true;
            }
            i = i + 1;
        }
        false
    }

    /// The number of node entries of `other` that are nodes of this module.
    pub fn intersection_size(&self, other: &Module<W>) -> (r: usize)
        ensures
            r == count_in(other.nodes@, self.nodes@.to_set()),
    {
        let mut set: HashSet<NodeId> = HashSet::new();
        let mut i: usize = 0;
        while i < self.nodes.len()
            invariant
                i <= self.nodes@.len(),
                set@ == self.nodes@.take(i as int).to_set(),
            decreases self.nodes@.len() - i,
        {
            proof {
                assert(self.nodes@.take(i + 1) =~= self.nodes@.take(i as int).push(
                    self.nodes@[i as int],
                ));
                self.nodes@.take(i as int).lemma_push_to_set_commute(self.nodes@[i as int]);
            }
            set.insert(self.nodes[i]);
            i = i + 1;
        }
        proof {
            assert(self.nodes@.take(self.nodes@.len() as int) =~= self.nodes@);
        }
        let mut count: usize = 0;
        let mut j: usize = 0;
        while j < other.nodes.len()
            invariant
                j <= other.nodes@.len(),
                set@ == self.nodes@.to_set(),
                count == count_in(other.nodes@.take(j as int), set@),
            decreases other.nodes@.len() - j,
        {
            proof {
                assert(other.nodes@.take(j + 1).drop_last() =~= other.nodes@.take(j as int));
                lemma_count_in_bound(other.nodes@.take(j as int), set@);
            }
            if set.contains(&other.nodes[j]) {
                count = count + 1;
            }
            j = j + 1;
        }
        proof {
            assert(other.nodes@.take(other.nodes@.len() as int) =~= other.nodes@);
        }
        count
    }

    /// The intersection size divided by the smaller module size, in `W`;
    /// the zero weight where one of the modules is empty.
    pub fn overlap_ratio(&self, other: &Module<W>) -> (r: W)
        requires
            weight_ops_total::<W>(),
        ensures
            arithmetic_obeys::<W>() ==> r == overlap_ratio_spec(*self, *other),
    {
        let intersection = self.intersection_size(other);
        let a = self.size();
        let b = other.size();
        let min_size = if a < b {
            a
        } else {
            b
        };
        if min_size == 0 {
            zero_weight()
        } else {
            weight_div(count_to_weight(intersection), count_to_weight(min_size))
        }
    }
}

/// A collection of modules, indexed by identifier, with for each node the
/// set of modules that hold it.
#[derive(Debug)]
pub struct ModuleCollection<W> {
    modules: HashMap<ModuleId, Module<W>>,
    memberships: HashMap<NodeId, HashSet<ModuleId>>,
    next_id: ModuleId,
}

/// Module `id` of `map` holds `node`.
pub open spec fn is_member<W>(map: Map<ModuleId, Module<W>>, id: ModuleId, node: NodeId) -> bool {
    map.contains_key(id) && map[id].nodes@.contains(node)
}

/// No node belongs to two modules of `map`.
pub open spec fn disjoint_modules<W>(map: Map<ModuleId, Module<W>>) -> bool {
    forall|id1: ModuleId, id2: ModuleId, n: NodeId|
        #[trigger] is_member(map, id1, n) && #[trigger] is_member(map, id2, n) ==> id1 == id2
}

/// Replacing two modules `x` and `y` of disjoint modules by one module
/// holding their nodes leaves the modules disjoint.
pub proof fn lemma_merge_keeps_disjoint<W>(
    before: Map<ModuleId, Module<W>>,
    after: Map<ModuleId, Module<W>>,
    x: ModuleId,
    y: ModuleId,
    m: ModuleId,
)
    requires
        disjoint_modules(before),
        before.contains_key(x),
        before.contains_key(y),
        !before.contains_key(m),
        after.contains_key(m),
        after.remove(m) == before.remove(x).remove(y),
        after[m].nodes@.to_set() == before[x].nodes@.to_set() + before[y].nodes@.to_set(),
    ensures
        disjoint_modules(after),
{
    assert forall|id1: ModuleId, id2: ModuleId, n: NodeId|
        #[trigger] is_member(after, id1, n) && #[trigger] is_member(after, id2, n) implies id1
        == id2 by {
        let rest = before.remove(x).remove(y);
        if id1 != m {
            assert(after.remove(m).contains_key(id1));
            assert(after[id1] == rest[id1]);
            assert(is_member(before, id1, n));
        }
        if id2 != m {
            assert(after.remove(m).contains_key(id2));
            assert(after[id2] == rest[id2]);
            assert(is_member(before, id2, n));
        }
        if id1 == m && id2 != m {
            assert(after[m].nodes@.to_set().contains(n));
            if before[x].nodes@.contains(n) {
                assert(is_member(before, x, n));
            } else {
                assert(before[y].nodes@.to_set().contains(n));
                assert(is_member(before, y, n));
            }
        }
        if id2 == m && id1 != m {
            assert(after[m].nodes@.to_set().contains(n));
            if before[x].nodes@.contains(n) {
                assert(is_member(before, x, n));
            } else {
                assert(before[y].nodes@.to_set().contains(n));
                assert(is_member(before, y, n));
            }
        }
    }
}

/// The nodes held by at least one module of `map`.
pub open spec fn covered_in<W>(map: Map<ModuleId, Module<W>>) -> Set<NodeId> {
    Set::new(|n: NodeId| exists|id: ModuleId| is_member(map, id, n))
}

/// The identifiers of the modules of `map` that hold `node`.
pub open spec fn members_in<W>(map: Map<ModuleId, Module<W>>, node: NodeId) -> Set<ModuleId> {
    Set::new(|id: ModuleId| is_member(map, id, node))
}

/// The nodes held by the modules of `map` that `ids` lists.
pub open spec fn merged_nodes<W>(map: Map<ModuleId, Module<W>>, ids: Seq<ModuleId>) -> Set<NodeId> {
    Set::new(|n: NodeId| exists|id: ModuleId| ids.contains(id) && is_member(map, id, n))
}

impl<W: Weight> ModuleCollection<W> {
    /// The modules by identifier.
    pub closed spec fn module_map(&self) -> Map<ModuleId, Module<W>> {
        self.modules@
    }

    /// The identifier that the next inserted module receives.
    pub closed spec fn spec_next_id(&self) -> ModuleId {
        self.next_id
    }

    /// The identifiers of the modules that hold `node`.
    pub open spec fn members_of(&self, node: NodeId) -> Set<ModuleId> {
        members_in(self.module_map(), node)
    }

    /// The nodes held by at least one module.
    pub open spec fn covered_nodes(&self) -> Set<NodeId> {
        covered_in(self.module_map())
    }

    /// The modules partition `nodes`: each node of `nodes` is held by exactly
    /// one module, modules hold nothing else, and each module is a non-empty
    /// increasing list.
    pub open spec fn partitions(&self, nodes: Set<NodeId>) -> bool {
        &&& forall|n: NodeId| #[trigger]
            nodes.contains(n) ==> exists|id: ModuleId| is_member(self.module_map(), id, n)
        &&& forall|id: ModuleId, n: NodeId| #[trigger]
            is_member(self.module_map(), id, n) ==> nodes.contains(n)
        &&& forall|id1: ModuleId, id2: ModuleId, n: NodeId|
            #[trigger] is_member(self.module_map(), id1, n) && #[trigger] is_member(
                self.module_map(),
                id2,
                n,
            ) ==> id1 == id2
        &&& forall|id: ModuleId| #[trigger]
            self.module_map().contains_key(id) ==> self.module_map()[id].nodes@.len() > 0
                && strictly_sorted(self.module_map()[id].nodes@)
    }

    /// Identifiers match their keys and lie below `next_id`, and the
    /// membership index agrees with the modules.
    pub closed spec fn wf(&self) -> bool {
        &&& self.modules@.dom().finite()
        &&& forall|id: ModuleId| #[trigger]
            self.modules@.contains_key(id) ==> self.modules@[id].id == id && id < self.next_id
        &&& forall|n: NodeId| #[trigger]
            self.memberships@.contains_key(n) ==> self.memberships@[n]@ == members_in(
                self.modules@,
                n,
            )
        &&& forall|n: NodeId| #[trigger]
            self.memberships@.contains_key(n) <==> exists|id: ModuleId|
                is_member(self.modules@, id, n)
    }

    /// A well-formed collection has finitely many modules, all with
    /// identifiers below `next_id`.
    pub proof fn lemma_wf_facts(&self)
        requires
            self.wf(),
        ensures
            self.module_map().dom().finite(),
            forall|id: ModuleId| #[trigger]
                self.module_map().contains_key(id) ==> id < self.spec_next_id(),
    {
    }

    /// An empty collection.
    pub fn new() -> (r: Self)
        ensures
            r.wf(),
            r.module_map() == Map::<ModuleId, Module<W>>::empty(),
            r.spec_next_id() == 0,
    {
        ModuleCollection { modules: HashMap::new(), memberships: HashMap::new(), next_id: 0 }
    }

    /// Adds a module with the given nodes and score under a fresh
    /// identifier, which is returned.
    pub fn insert_module(&mut self, nodes: Vec<NodeId>, score: W) -> (id: ModuleId)
        requires
            old(self).wf(),
            old(self).spec_next_id() < usize::MAX,
        ensures
            final(self).wf(),
            id == old(self).spec_next_id(),
            final(self).spec_next_id() == id + 1,
            final(self).module_map() == old(self).module_map().insert(
                id,
                Module { id, nodes, score },
            ),
    {
        let id = self.next_id;
        let ghost old_mem = self.memberships@;
        let ghost old_mods = self.modules@;
        let mut i: usize = 0;
        while i < nodes.len()
            invariant
                i <= nodes@.len(),
                self.modules@ == old_mods,
                self.next_id == id,
                forall|n: NodeId| #[trigger]
                    self.memberships@.contains_key(n) <==> (old_mem.contains_key(n)
                        || nodes@.take(i as int).contains(n)),
                forall|n: NodeId| #[trigger]
                    self.memberships@.contains_key(n) ==> self.memberships@[n]@ == (if old_mem.contains_key(
                        n,
                    ) {
                        old_mem[n]@
                    } else {
                        Set::<ModuleId>::empty()
                    }).union(
                        if nodes@.take(i as int).contains(n) {
                            set![id]
                        } else {
                            Set::<ModuleId>::empty()
                        },
                    ),
            decreases nodes@.len() - i,
        {
            let n = nodes[i];
            proof {
                assert(nodes@.take(i + 1) =~= nodes@.take(i as int).push(n));
                assert forall|m: NodeId| #[trigger]
                    nodes@.take(i + 1).contains(m) <==> (nodes@.take(i as int).contains(m) || m
                        == n) by {
                    nodes@.take(i as int).lemma_push_to_set_commute(n);
                    assert(nodes@.take(i + 1).to_set().contains(m) == nodes@.take(i + 1).contains(m));
                    assert(nodes@.take(i as int).to_set().contains(m) == nodes@.take(i as int).contains(m));
                }
            }
            let mut set = match self.memberships.remove(&n) {
                Some(s) => s,
                None => HashSet::new(),
            };
            set.insert(id);
            self.memberships.insert(n, set);
            i = i + 1;
        }
        proof {
            assert(nodes@.take(nodes@.len() as int) =~= nodes@);
        }
        let module = Module { id, nodes, score };
        self.modules.insert(id, module);
        self.next_id = id + 1;
        proof {
            let new_mods = self.modules@;
            assert(!old_mods.contains_key(id));
            assert forall|n: NodeId| #[trigger]
                self.memberships@.contains_key(n) implies self.memberships@[n]@ == members_in(
                    self.modules@,
                    n,
                ) by {
                if old_mem.contains_key(n) {
                    assert(old_mem[n]@ == members_in(old_mods, n));
                } else {
                    assert(members_in(old_mods, n) =~= Set::<ModuleId>::empty());
                }
                assert(members_in(new_mods, n) =~= members_in(old_mods, n).union(
                    if module.nodes@.contains(n) {
                        set![id]
                    } else {
                        Set::<ModuleId>::empty()
                    },
                ));
            }
            assert forall|n: NodeId| #[trigger]
                self.memberships@.contains_key(n) <==> exists|mid: ModuleId|
                    is_member(self.modules@, mid, n) by {
                if module.nodes@.contains(n) {
                    assert(is_member(new_mods, id, n));
                }
                if old_mem.contains_key(n) {
                    let mid = choose|mid: ModuleId| is_member(old_mods, mid, n);
                    assert(is_member(new_mods, mid, n));
                }
                if exists|mid: ModuleId| is_member(new_mods, mid, n) {
                    let mid = choose|mid: ModuleId| is_member(new_mods, mid, n);
                    if mid != id {
                        assert(is_member(old_mods, mid, n));
                    }
                }
            }
        }
        id
    }

    /// Removes module `id` and returns it; `None`, with the collection
    /// unchanged, where there is no such module.
    pub fn remove_module(&mut self, id: ModuleId) -> (r: Option<Module<W>>)
        requires
            old(self).wf(),
        ensures
            final(self).wf(),
            final(self).spec_next_id() == old(self).spec_next_id(),
            match r {
                Some(m) => {
                    &&& old(self).module_map().contains_key(id)
                    &&& m == old(self).module_map()[id]
                    &&& final(self).module_map() == old(self).module_map().remove(id)
                },
                None => {
                    &&& !old(self).module_map().contains_key(id)
                    &&& final(self).module_map() == old(self).module_map()
                },
            },
    {
        let ghost old_mem = self.memberships@;
        let ghost old_mods = self.modules@;
        match self.modules.remove(&id) {
            Some(module) => {
                let ghost new_mods = self.modules@;
                proof {
                    assert(new_mods == old_mods.remove(id));
                    assert forall|n: NodeId|
                        #[trigger] members_in(new_mods, n) == members_in(old_mods, n).remove(id) by {
                        assert(members_in(new_mods, n) =~= members_in(old_mods, n).remove(id));
                    }
                }
                let mut i: usize = 0;
                while i < module.nodes.len()
                    invariant
                        i <= module.nodes@.len(),
                        self.modules@ == new_mods,
                        self.next_id == old(self).next_id,
                        new_mods == old_mods.remove(id),
                        old_mods.contains_key(id),
                        module == old_mods[id],
                        forall|n: NodeId| #[trigger]
                            members_in(new_mods, n) == members_in(old_mods, n).remove(id),
                        forall|n: NodeId| #[trigger]
                            old_mem.contains_key(n) ==> old_mem[n]@ == members_in(old_mods, n),
                        forall|n: NodeId| #[trigger]
                            old_mem.contains_key(n) <==> exists|mid: ModuleId|
                                is_member(old_mods, mid, n),
                        forall|n: NodeId| #[trigger]
                            self.memberships@.contains_key(n) ==> self.memberships@[n]@
                                == (if module.nodes@.take(i as int).contains(n) {
                                members_in(new_mods, n)
                            } else {
                                old_mem[n]@
                            }),
                        forall|n: NodeId| #[trigger]
                            self.memberships@.contains_key(n) <==> (if module.nodes@.take(
                                i as int,
                            ).contains(n) {
                                exists|mid: ModuleId| is_member(new_mods, mid, n)
                            } else {
                                old_mem.contains_key(n)
                            }),
                    decreases module.nodes@.len() - i,
                {
                    let n = module.nodes[i];
                    proof {
                        assert(module.nodes@.take(i + 1) =~= module.nodes@.take(i as int).push(n));
                        assert forall|m: NodeId| #[trigger]
                            module.nodes@.take(i + 1).contains(m) <==> (module.nodes@.take(
                                i as int,
                            ).contains(m) || m == n) by {
                            module.nodes@.take(i as int).lemma_push_to_set_commute(n);
                            assert(module.nodes@.take(i + 1).to_set().contains(m)
                                == module.nodes@.take(i + 1).contains(m));
                            assert(module.nodes@.take(i as int).to_set().contains(m)
                                == module.nodes@.take(i as int).contains(m));
                        }
                        assert(module.nodes@.contains(n));
                        assert(is_member(old_mods, id, n));
                    }
                    let removed = self.memberships.remove(&n);
                    match removed {
                        Some(mut set) => {
                            set.remove(&id);
                            proof {
                                assert(set@ =~= members_in(new_mods, n));
                            }
                            if !set.is_empty() {
                                self.memberships.insert(n, set);
                                proof {
                                    let x = choose|x: ModuleId| set@.contains(x);
                                    assert(is_member(new_mods, x, n));
                                }
                            } else {
                                proof {
                                    if exists|mid: ModuleId| is_member(new_mods, mid, n) {
                                        let mid = choose|mid: ModuleId| is_member(new_mods, mid, n);
                                        assert(set@.contains(mid));
                                    }
                                }
                            }
                        },
                        None => {
                            proof {
                                if exists|mid: ModuleId| is_member(new_mods, mid, n) {
                                    let mid = choose|mid: ModuleId| is_member(new_mods, mid, n);
                                    assert(is_member(old_mods, mid, n));
                                }
                            }
                        },
                    }
                    i = i + 1;
                }
                proof {
                    assert(module.nodes@.take(module.nodes@.len() as int) =~= module.nodes@);
                    assert forall|mid: ModuleId| #[trigger]
                        self.modules@.contains_key(mid) implies self.modules@[mid].id == mid && mid
                        < self.next_id by {
                        assert(old_mods.contains_key(mid));
                    }
                    assert forall|n: NodeId| #[trigger]
                        self.memberships@.contains_key(n) <==> exists|mid: ModuleId|
                            is_member(self.modules@, mid, n) by {
                        if !module.nodes@.contains(n) {
                            if exists|mid: ModuleId| is_member(new_mods, mid, n) {
                                let mid = choose|mid: ModuleId| is_member(new_mods, mid, n);
                                assert(is_member(old_mods, mid, n));
                            }
                            if old_mem.contains_key(n) {
                                let mid = choose|mid: ModuleId| is_member(old_mods, mid, n);
                                assert(mid != id);
                                assert(is_member(new_mods, mid, n));
                            }
                        }
                    }
                    assert forall|n: NodeId| #[trigger]
                        self.memberships@.contains_key(n) implies self.memberships@[n]@
                            == members_in(self.modules@, n) by {
                        if !module.nodes@.contains(n) {
                            assert(!members_in(old_mods, n).contains(id));
                            assert(members_in(old_mods, n).remove(id) =~= members_in(old_mods, n));
                        }
                    }
                }
                Some(module)
            },
            None => {
                proof {
                    assert(self.modules@ =~= old_mods);
                }
                None
            },
        }
    }

    /// Module `id`, where there is one.
    pub fn get_module(&self, id: ModuleId) -> (r: Option<&Module<W>>)
        requires
            self.wf(),
        ensures
            match r {
                Some(m) => self.module_map().contains_key(id) && *m == self.module_map()[id],
                None => !self.module_map().contains_key(id),
            },
    {
        self.modules.get(&id)
    }

    /// The identifiers of all modules, each once, in no particular order.
    pub fn module_ids(&self) -> (r: Vec<ModuleId>)
        requires
            self.wf(),
        ensures
            r@.to_set() == self.module_map().dom(),
            r@.no_duplicates(),
    {
        let mut out: Vec<ModuleId> = Vec::new();
        let ghost keys = self.modules.keys().remaining();
        for k in it: self.modules.keys()
            invariant
                it.seq() == keys,
                out@.len() == it.index(),
                forall|j: int| 0 <= j < it.index() ==> out@[j] == *it.seq()[j],
        {
            out.push(*k);
        }
        proof {
            assert(out@ =~= keys.unref());
        }
        out
    }

    /// All modules, each once, in no particular order.
    pub fn modules(&self) -> (r: Vec<&Module<W>>)
        requires
            self.wf(),
        ensures
            r@.len() == self.module_map().dom().len(),
            forall|j: int|
                0 <= j < r@.len() ==> self.module_map().contains_key(#[trigger] r@[j].id)
                    && *r@[j] == self.module_map()[r@[j].id],
            forall|j: int, k: int| 0 <= j < k < r@.len() ==> r@[j].id != r@[k].id,
    {
        let ids = self.module_ids();
        proof {
            ids@.unique_seq_to_set();
        }
        let mut out: Vec<&Module<W>> = Vec::new();
        let mut i: usize = 0;
        while i < ids.len()
            invariant
                self.wf(),
                i <= ids@.len(),
                ids@.to_set() == self.module_map().dom(),
                ids@.no_duplicates(),
                out@.len() == i,
                forall|j: int| 0 <= j < i ==> out@[j].id == ids@[j] && *out@[j] == self.module_map()[ids@[j]],
            decreases ids@.len() - i,
        {
            assert(self.module_map().dom().contains(ids@[i as int]));
            match self.modules.get(&ids[i]) {
                Some(m) => {
                    out.push(m);
                },
                None => {
                    i = i + 1;
                    continue;
                },
            }
            i = i + 1;
        }
        proof {
            assert forall|j: int|
                0 <= j < out@.len() implies self.module_map().contains_key(#[trigger] out@[j].id)
                && *out@[j] == self.module_map()[out@[j].id] by {
                assert(ids@.to_set().contains(ids@[j]));
            }
            assert forall|j: int, k: int| 0 <= j < k < out@.len() implies out@[j].id
                != out@[k].id by {
                assert(ids@[j] != ids@[k]);
            }
        }
        out
    }

    /// The number of modules.
    pub fn size(&self) -> (r: usize)
        requires
            self.wf(),
        ensures
            r == self.module_map().dom().len(),
    {
        self.modules.len()
    }

    /// The identifiers of the modules that hold `node`; `None` where no
    /// module does.
    pub fn node_memberships(&self, node: NodeId) -> (r: Option<&HashSet<ModuleId>>)
        requires
            self.wf(),
        ensures
            match r {
                Some(s) => s@ == self.members_of(node) && self.covered_nodes().contains(node),
                None => !self.covered_nodes().contains(node),
            },
    {
        self.memberships.get(&node)
    }

    /// The overlap ratio of modules `m1` and `m2`; `None` unless both exist.
    pub fn check_overlap(&self, m1: ModuleId, m2: ModuleId) -> (r: Option<W>)
        requires
            self.wf(),
            weight_ops_total::<W>(),
        ensures
            r is Some <==> self.module_map().contains_key(m1) && self.module_map().contains_key(m2),
            r matches Some(v) ==> (arithmetic_obeys::<W>() ==> v == overlap_ratio_spec(
                self.module_map()[m1],
                self.module_map()[m2],
            )),
    {
        let module1 = match self.modules.get(&m1) {
            Some(m) => m,
            None => {
                return None;
            },
        };
        let module2 = match self.modules.get(&m2) {
            Some(m) => m,
            None => {
                return None;
            },
        };
        Some(module1.overlap_ratio(module2))
    }

    /// The pairs of distinct modules, each unordered pair at most once, whose
    /// overlap ratio (of the first with the second) is `>=` the threshold,
    /// with that ratio. The identifiers are walked in some order `ids`, and
    /// each pair is examined as `(ids[a], ids[b])` with `a < b`: every pair
    /// whose ratio in that order reaches the threshold is listed, so every
    /// pair whose ratios in both orders reach it is.
    pub fn find_overlapping_pairs(&self, threshold: W) -> (r: Vec<(ModuleId, ModuleId, W)>)
        requires
            self.wf(),
            weight_ops_total::<W>(),
        ensures
            forall|k: int|
                #![trigger r@[k]]
                0 <= k < r@.len() ==> {
                    &&& self.module_map().contains_key(r@[k].0)
                    &&& self.module_map().contains_key(r@[k].1)
                    &&& r@[k].0 != r@[k].1
                    &&& arithmetic_obeys::<W>() ==> r@[k].2 == overlap_ratio_spec(
                        self.module_map()[r@[k].0],
                        self.module_map()[r@[k].1],
                    )
                    &&& order_obeys::<W>() ==> weight_ge(r@[k].2, threshold)
                },
            forall|k1: int, k2: int|
                #![trigger r@[k1], r@[k2]]
                0 <= k1 < k2 < r@.len() ==> !(r@[k1].0 == r@[k2].0 && r@[k1].1 == r@[k2].1) && !(
                r@[k1].0 == r@[k2].1 && r@[k1].1 == r@[k2].0),
            arithmetic_obeys::<W>() && order_obeys::<W>() ==> forall|x: ModuleId, y: ModuleId|
                #![trigger pair_overlaps(self.module_map(), x, y, threshold), pair_overlaps(self.module_map(), y, x, threshold)]
                self.module_map().contains_key(x) && self.module_map().contains_key(y) && x != y
                    && pair_overlaps(self.module_map(), x, y, threshold) && pair_overlaps(
                    self.module_map(),
                    y,
                    x,
                    threshold,
                ) ==> exists|k: int|
                    0 <= k < r@.len() && ((#[trigger] r@[k].0 == x && r@[k].1 == y) || (r@[k].0 == y
                        && r@[k].1 == x)),
            arithmetic_obeys::<W>() && order_obeys::<W>() ==> exists|ids: Seq<ModuleId>|
                #![trigger ids.to_set()]
                {
                    &&& ids.no_duplicates()
                    &&& ids.to_set() == self.module_map().dom()
                    &&& forall|a: int, b: int|
                        #![trigger pair_overlaps(self.module_map(), ids[a], ids[b], threshold)]
                        0 <= a < b < ids.len() && pair_overlaps(
                            self.module_map(),
                            ids[a],
                            ids[b],
                            threshold,
                        ) ==> exists|k: int|
                            0 <= k < r@.len() && #[trigger] r@[k].0 == ids[a] && r@[k].1 == ids[b]
                },
    {
        let ids = self.module_ids();
        let ghost map = self.module_map();
        let ghost obeys = arithmetic_obeys::<W>() && order_obeys::<W>();
        let mut overlaps: Vec<(ModuleId, ModuleId, W)> = Vec::new();
        let ghost mut pos: Seq<(int, int)> = Seq::empty();
        let n = ids.len();
        let mut i: usize = 0;
        while i < n
            invariant
                self.wf(),
                weight_ops_total::<W>(),
                map == self.module_map(),
                obeys == (arithmetic_obeys::<W>() && order_obeys::<W>()),
                n == ids@.len(),
                i <= n,
                ids@.to_set() == self.module_map().dom(),
                ids@.no_duplicates(),
                pos.len() == overlaps@.len(),
                forall|k: int|
                    #![trigger pos[k]]
                    0 <= k < pos.len() ==> 0 <= pos[k].0 < pos[k].1 < n && pos[k].0 < i
                        && overlaps@[k].0 == ids@[pos[k].0] && overlaps@[k].1 == ids@[pos[k].1]
                        && (arithmetic_obeys::<W>() ==> overlaps@[k].2 == overlap_ratio_spec(
                        map[overlaps@[k].0],
                        map[overlaps@[k].1],
                    )) && (order_obeys::<W>() ==> weight_ge(overlaps@[k].2, threshold)),
                forall|k1: int, k2: int|
                    #![trigger pos[k1], pos[k2]]
                    0 <= k1 < k2 < pos.len() ==> pos[k1].0 < pos[k2].0 || (pos[k1].0 == pos[k2].0
                        && pos[k1].1 < pos[k2].1),
                forall|a: int, b: int|
                    #![trigger pair_overlaps(map, ids@[a], ids@[b], threshold)]
                    0 <= a < b < n && a < i && obeys && pair_overlaps(map, ids@[a], ids@[b], threshold)
                        ==> exists|k: int| 0 <= k < pos.len() && #[trigger] pos[k] == (a, b),
            decreases n - i,
        {
            let mut j: usize = i + 1;
            while j < n
                invariant
                    self.wf(),
                    weight_ops_total::<W>(),
                    map == self.module_map(),
                    obeys == (arithmetic_obeys::<W>() && order_obeys::<W>()),
                    n == ids@.len(),
                    i < n,
                    i + 1 <= j <= n,
                    ids@.to_set() == self.module_map().dom(),
                    ids@.no_duplicates(),
                    pos.len() == overlaps@.len(),
                    forall|k: int|
                        #![trigger pos[k]]
                        0 <= k < pos.len() ==> 0 <= pos[k].0 < pos[k].1 < n && (pos[k].0 < i || (
                        pos[k].0 == i && pos[k].1 < j)) && overlaps@[k].0 == ids@[pos[k].0]
                            && overlaps@[k].1 == ids@[pos[k].1] && (arithmetic_obeys::<W>()
                            ==> overlaps@[k].2 == overlap_ratio_spec(
                            map[overlaps@[k].0],
                            map[overlaps@[k].1],
                        )) && (order_obeys::<W>() ==> weight_ge(overlaps@[k].2, threshold)),
                    forall|k1: int, k2: int|
                        #![trigger pos[k1], pos[k2]]
                        0 <= k1 < k2 < pos.len() ==> pos[k1].0 < pos[k2].0 || (pos[k1].0
                            == pos[k2].0 && pos[k1].1 < pos[k2].1),
                    forall|a: int, b: int|
                        #![trigger pair_overlaps(map, ids@[a], ids@[b], threshold)]
                        0 <= a < b < n && (a < i || (a == i && b < j)) && obeys && pair_overlaps(
                            map,
                            ids@[a],
                            ids@[b],
                            threshold,
                        ) ==> exists|k: int| 0 <= k < pos.len() && #[trigger] pos[k] == (a, b),
                decreases n - j,
            {
                let id1 = ids[i];
                let id2 = ids[j];
                proof {
                    assert(ids@.to_set().contains(ids@[i as int]));
                    assert(ids@.to_set().contains(ids@[j as int]));
                }
                if let Some(overlap) = self.check_overlap(id1, id2) {
                    if overlap.ge(&threshold) {
                        let ghost old_pos = pos;
                        let ghost old_overlaps = overlaps@;
                        overlaps.push((id1, id2, overlap));
                        proof {
                            pos = pos.push((i as int, j as int));
                            assert(pos[old_pos.len() as int] == (i as int, j as int));
                            assert forall|k: int|
                                #![trigger pos[k]]
                                0 <= k < pos.len() implies 0 <= pos[k].0 < pos[k].1 < n && (pos[k].0
                                    < i || (pos[k].0 == i && pos[k].1 < j + 1))
                                    && overlaps@[k].0 == ids@[pos[k].0] && overlaps@[k].1
                                    == ids@[pos[k].1] && (arithmetic_obeys::<W>()
                                    ==> overlaps@[k].2 == overlap_ratio_spec(
                                    map[overlaps@[k].0],
                                    map[overlaps@[k].1],
                                )) && (order_obeys::<W>() ==> weight_ge(overlaps@[k].2, threshold)) by {
                                if k < old_pos.len() {
                                    assert(pos[k] == old_pos[k]);
                                    assert(overlaps@[k] == old_overlaps[k]);
                                }
                            }
                            assert forall|a: int, b: int|
                                #![trigger pair_overlaps(map, ids@[a], ids@[b], threshold)]
                                0 <= a < b < n && (a < i || (a == i && b < j + 1)) && obeys
                                    && pair_overlaps(map, ids@[a], ids@[b], threshold) implies exists|
                                k: int,
                            | 0 <= k < pos.len() && #[trigger] pos[k] == (a, b) by {
                                if a == i && b == j {
                                    assert(pos[old_pos.len() as int] == (a, b));
                                } else {
                                    let k = choose|k: int|
                                        0 <= k < old_pos.len() && #[trigger] old_pos[k] == (a, b);
                                    assert(pos[k] == (a, b));
                                }
                            }
                        }
                    } else {
                        proof {
                            if obeys {
                                assert(!pair_overlaps(map, ids@[i as int], ids@[j as int], threshold));
                            }
                        }
                    }
                }
                j = j + 1;
            }
            i = i + 1;
        }
        proof {
            assert forall|k: int|
                #![trigger overlaps@[k]]
                0 <= k < overlaps@.len() implies {
                &&& self.module_map().contains_key(overlaps@[k].0)
                &&& self.module_map().contains_key(overlaps@[k].1)
                &&& overlaps@[k].0 != overlaps@[k].1
                &&& arithmetic_obeys::<W>() ==> overlaps@[k].2 == overlap_ratio_spec(
                    self.module_map()[overlaps@[k].0],
                    self.module_map()[overlaps@[k].1],
                )
                &&& order_obeys::<W>() ==> weight_ge(overlaps@[k].2, threshold)
            } by {
                let p = pos[k];
                assert(ids@.to_set().contains(ids@[p.0]));
                assert(ids@.to_set().contains(ids@[p.1]));
            }
            assert forall|k1: int, k2: int|
                #![trigger overlaps@[k1], overlaps@[k2]]
                0 <= k1 < k2 < overlaps@.len() implies !(overlaps@[k1].0 == overlaps@[k2].0
                && overlaps@[k1].1 == overlaps@[k2].1) && !(overlaps@[k1].0 == overlaps@[k2].1
                && overlaps@[k1].1 == overlaps@[k2].0) by {
                let p1 = pos[k1];
                let p2 = pos[k2];
                assert(p1.0 < p2.0 || (p1.0 == p2.0 && p1.1 < p2.1));
            }
            if obeys {
                assert forall|x: ModuleId, y: ModuleId|
                    #![trigger pair_overlaps(map, x, y, threshold), pair_overlaps(map, y, x, threshold)]
                    map.contains_key(x) && map.contains_key(y) && x != y && pair_overlaps(
                        map,
                        x,
                        y,
                        threshold,
                    ) && pair_overlaps(map, y, x, threshold) implies exists|k: int|
                    0 <= k < overlaps@.len() && ((#[trigger] overlaps@[k].0 == x && overlaps@[k].1
                        == y) || (overlaps@[k].0 == y && overlaps@[k].1 == x)) by {
                    assert(ids@.to_set().contains(x));
                    assert(ids@.to_set().contains(y));
                    let a = ids@.index_of(x);
                    let b = ids@.index_of(y);
                    assert(ids@[a] == x);
                    assert(ids@[b] == y);
                    if a < b {
                        assert(pair_overlaps(map, ids@[a], ids@[b], threshold));
                        let k = choose|k: int| 0 <= k < pos.len() && #[trigger] pos[k] == (a, b);
                        assert(overlaps@[k].0 == x && overlaps@[k].1 == y);
                    } else {
                        assert(pair_overlaps(map, ids@[b], ids@[a], threshold));
                        let k = choose|k: int| 0 <= k < pos.len() && #[trigger] pos[k] == (b, a);
                        assert(overlaps@[k].0 == y && overlaps@[k].1 == x);
                    }
                }
                assert forall|a: int, b: int|
                    #![trigger pair_overlaps(map, ids@[a], ids@[b], threshold)]
                    0 <= a < b < ids@.len() && pair_overlaps(
                        map,
                        ids@[a],
                        ids@[b],
                        threshold,
                    ) implies exists|k: int|
                    0 <= k < overlaps@.len() && #[trigger] overlaps@[k].0 == ids@[a]
                        && overlaps@[k].1 == ids@[b] by {
                    let k = choose|k: int| 0 <= k < pos.len() && #[trigger] pos[k] == (a, b);
                    assert(overlaps@[k].0 == ids@[a]);
                }
                assert(ids@.to_set() == self.module_map().dom());
            }
        }
        overlaps
    }

    /// Replaces the listed modules that exist by one module holding their
    /// nodes, each once, with the mean of their scores (a module listed
    /// twice counts twice), and returns its identifier. An empty list, or
    /// one without an existing module, is refused with `InvalidConfig` and
    /// changes nothing.
    pub fn merge_modules(&mut self, module_ids: &[ModuleId]) -> (r: Result<ModuleId, OslomError>)
        requires
            old(self).wf(),
            weight_ops_total::<W>(),
            old(self).spec_next_id() < usize::MAX,
        ensures
            final(self).wf(),
            match r {
                Ok(new_id) => {
                    let old_map = old(self).module_map();
                    let listed = module_ids@.to_set().filter(|id: ModuleId| old_map.contains_key(id));
                    &&& exists|k: int|
                        0 <= k < module_ids@.len() && old_map.contains_key(#[trigger] module_ids@[k])
                    &&& new_id == old(self).spec_next_id()
                    &&& final(self).spec_next_id() == new_id + 1
                    &&& final(self).module_map().remove(new_id) == old_map.remove_keys(listed)
                    &&& final(self).module_map().contains_key(new_id)
                    &&& final(self).module_map()[new_id].id == new_id
                    &&& final(self).module_map()[new_id].nodes@.no_duplicates()
                    &&& final(self).module_map()[new_id].nodes@.to_set() == merged_nodes(
                        old_map,
                        module_ids@,
                    )
                    &&& arithmetic_obeys::<W>() ==> final(self).module_map()[new_id].score
                        == listed_score_total(old_map, module_ids@).div_spec(
                        count_weight::<W>(listed_count(old_map, module_ids@) as usize),
                    )
                },
                Err(e) => {
                    &&& e is InvalidConfig
                    &&& forall|k: int|
                        0 <= k < module_ids@.len() ==> !old(self).module_map().contains_key(
                            #[trigger] module_ids@[k],
                        )
                    &&& final(self).module_map() == old(self).module_map()
                    &&& final(self).spec_next_id() == old(self).spec_next_id()
                },
            },
    {
        if module_ids.len() == 0 {
            return Err(OslomError::InvalidConfig("Cannot merge empty module list".to_string()));
        }
        let ghost old_map = self.modules@;
        let ghost in_map = |id: ModuleId| old_map.contains_key(id);
        let mut seen: HashSet<NodeId> = HashSet::new();
        let mut all_nodes: Vec<NodeId> = Vec::new();
        let mut total_score = zero_weight();
        let mut valid: Vec<ModuleId> = Vec::new();
        let mut i: usize = 0;
        while i < module_ids.len()
            invariant
                weight_ops_total::<W>(),
                self.wf(),
                self.modules@ == old_map,
                self.next_id == old(self).next_id,
                i <= module_ids@.len(),
                seen@ == all_nodes@.to_set(),
                all_nodes@.no_duplicates(),
                all_nodes@.to_set() == merged_nodes(old_map, module_ids@.take(i as int)),
                valid@.to_set() == module_ids@.take(i as int).to_set().filter(in_map),
                forall|id: ModuleId| #[trigger] in_map(id) == old_map.contains_key(id),
                valid@.len() <= i,
                valid@.len() > 0 <==> exists|k: int|
                    0 <= k < i && old_map.contains_key(#[trigger] module_ids@[k]),
                valid@.len() == listed_count(old_map, module_ids@.take(i as int)),
                arithmetic_obeys::<W>() ==> total_score == listed_score_total(
                    old_map,
                    module_ids@.take(i as int),
                ),
            decreases module_ids@.len() - i,
        {
            let id = module_ids[i];
            let ghost prefix = module_ids@.take(i as int);
            proof {
                assert(module_ids@.take(i + 1) =~= prefix.push(id));
                prefix.lemma_push_to_set_commute(id);
            }
            match self.modules.get(&id) {
                Some(module) => {
                    let ghost before = all_nodes@;
                    let mut j: usize = 0;
                    while j < module.nodes.len()
                        invariant
                            j <= module.nodes@.len(),
                            seen@ == all_nodes@.to_set(),
                            all_nodes@.no_duplicates(),
                            all_nodes@.to_set() == before.to_set().union(
                                module.nodes@.take(j as int).to_set(),
                            ),
                        decreases module.nodes@.len() - j,
                    {
                        let n = module.nodes[j];
                        proof {
                            assert(module.nodes@.take(j + 1) =~= module.nodes@.take(j as int).push(
                                n,
                            ));
                            module.nodes@.take(j as int).lemma_push_to_set_commute(n);
                        }
                        if seen.insert(n) {
                            proof {
                                all_nodes@.lemma_push_to_set_commute(n);
                                assert(!all_nodes@.contains(n)) by {
                                    assert(!all_nodes@.to_set().contains(n));
                                }
                            }
                            all_nodes.push(n);
                        }
                        proof {
                            assert(all_nodes@.to_set() =~= before.to_set().union(
                                module.nodes@.take(j + 1).to_set(),
                            ));
                        }
                        j = j + 1;
                    }
                    total_score = weight_add(total_score, module.score);
                    proof {
                        valid@.lemma_push_to_set_commute(id);
                        assert(module.nodes@.take(module.nodes@.len() as int) =~= module.nodes@);
                        assert(all_nodes@.to_set() =~= merged_nodes(old_map, prefix.push(id)))
                            by {
                            assert forall|n: NodeId|
                                merged_nodes(old_map, prefix.push(id)).contains(n)
                                    implies all_nodes@.to_set().contains(n) by {
                                let mid = choose|mid: ModuleId|
                                    prefix.push(id).contains(mid) && is_member(old_map, mid, n);
                                if mid != id {
                                    assert(prefix.to_set().contains(mid));
                                    assert(merged_nodes(old_map, prefix).contains(n));
                                } else {
                                    assert(module.nodes@.to_set().contains(n));
                                }
                            }
                            assert forall|n: NodeId|
                                all_nodes@.to_set().contains(n) implies merged_nodes(
                                    old_map,
                                    prefix.push(id),
                                ).contains(n) by {
                                if before.to_set().contains(n) {
                                    let mid = choose|mid: ModuleId|
                                        prefix.contains(mid) && is_member(old_map, mid, n);
                                    assert(prefix.push(id).to_set().contains(mid));
                                } else {
                                    assert(module.nodes@.to_set().contains(n));
                                    assert(prefix.push(id).to_set().contains(id));
                                    assert(is_member(old_map, id, n));
                                }
                            }
                        }
                        assert(module_ids@[i as int] == id);
                    }
                    valid.push(id);
                    proof {
                        assert(valid@.to_set() =~= module_ids@.take(i + 1).to_set().filter(
                            in_map,
                        ));
                    }
                },
                None => {
                    proof {
                        assert(merged_nodes(old_map, prefix.push(id)) =~= merged_nodes(
                            old_map,
                            prefix,
                        )) by {
                            assert forall|n: NodeId|
                                merged_nodes(old_map, prefix.push(id)).contains(n)
                                    implies merged_nodes(old_map, prefix).contains(n) by {
                                let mid = choose|mid: ModuleId|
                                    prefix.push(id).contains(mid) && is_member(old_map, mid, n);
                                assert(prefix.push(id).to_set().contains(mid));
                                assert(prefix.to_set().contains(mid));
                            }
                            assert forall|n: NodeId|
                                merged_nodes(old_map, prefix).contains(n) implies merged_nodes(
                                    old_map,
                                    prefix.push(id),
                                ).contains(n) by {
                                let mid = choose|mid: ModuleId|
                                    prefix.contains(mid) && is_member(old_map, mid, n);
                                assert(prefix.push(id).to_set().contains(mid));
                            }
                        }
                        assert(valid@.to_set() =~= module_ids@.take(i + 1).to_set().filter(
                            in_map,
                        ));
                    }
                },
            }
            proof {
                assert(module_ids@.take(i + 1)[i as int] == id);
                assert(module_ids@.take(i + 1).drop_last() =~= prefix);
            }
            i = i + 1;
        }
        proof {
            assert(module_ids@.take(module_ids@.len() as int) =~= module_ids@);
        }
        if valid.len() == 0 {
            return Err(OslomError::InvalidConfig("No valid modules to merge".to_string()));
        }
        let ghost listed = valid@.to_set();
        let mut k: usize = 0;
        while k < valid.len()
            invariant
                self.wf(),
                self.next_id == old(self).next_id,
                k <= valid@.len(),
                self.modules@ == old_map.remove_keys(valid@.take(k as int).to_set()),
            decreases valid@.len() - k,
        {
            proof {
                assert(valid@.take(k + 1) =~= valid@.take(k as int).push(valid@[k as int]));
                valid@.take(k as int).lemma_push_to_set_commute(valid@[k as int]);
            }
            self.remove_module(valid[k]);
            proof {
                assert(self.modules@ =~= old_map.remove_keys(valid@.take(k + 1).to_set()));
            }
            k = k + 1;
        }
        proof {
            assert(valid@.take(valid@.len() as int) =~= valid@);
        }
        let avg_score = weight_div(total_score, count_to_weight(valid.len()));
        let ghost merged = all_nodes@;
        let new_id = self.insert_module(all_nodes, avg_score);
        proof {
            let listed2 = module_ids@.to_set().filter(|id: ModuleId| old_map.contains_key(id));
            assert(listed2 =~= listed);
            assert(self.module_map().remove(new_id) =~= old_map.remove_keys(listed));
        }
        Ok(new_id)
    }

    /// The number of nodes held by at least one module.
    pub fn coverage(&self) -> (r: usize)
        requires
            self.wf(),
        ensures
            r == self.covered_nodes().len(),
    {
        proof {
            assert(self.memberships@.dom() =~= self.covered_nodes());
        }
        self.memberships.len()
    }

    /// The number of modules with at least one node.
    pub fn effective_groups(&self) -> (r: usize)
        requires
            self.wf(),
        ensures
            r == self.module_map().dom().filter(
                |id: ModuleId| self.module_map()[id].nodes@.len() > 0,
            ).len(),
    {
        let ids = self.module_ids();
        let ghost pred = |id: ModuleId| self.module_map()[id].nodes@.len() > 0;
        let mut count: usize = 0;
        let mut i: usize = 0;
        while i < ids.len()
            invariant
                self.wf(),
                i <= ids@.len(),
                ids@.to_set() == self.module_map().dom(),
                ids@.no_duplicates(),
                count == ids@.take(i as int).filter(pred).len(),
                count <= i,
                forall|id: ModuleId| #[trigger]
                    pred(id) == (self.module_map()[id].nodes@.len() > 0),
            decreases ids@.len() - i,
        {
            proof {
                assert(ids@.take(i + 1).drop_last() =~= ids@.take(i as int));
                assert(ids@.take(i + 1) =~= ids@.take(i as int).push(ids@[i as int]));
                ids@.take(i as int).lemma_filter_push(ids@[i as int], pred);
                assert(ids@.to_set().contains(ids@[i as int]));
            }
            match self.modules.get(&ids[i]) {
                Some(m) => {
                    if m.nodes.len() > 0 {
                        count = count + 1;
                    }
                },
                None => {},
            }
            i = i + 1;
        }
        proof {
            assert(ids@.take(ids@.len() as int) =~= ids@);
            lemma_filter_no_dup_set(ids@, pred);
            ids@.filter(pred).unique_seq_to_set();
            assert(ids@.filter(pred).to_set() =~= self.module_map().dom().filter(pred));
        }
        count
    }

    /// The nodes `0 .. total_nodes` that no module holds, in increasing order.
    pub fn homeless_nodes(&self, total_nodes: usize) -> (r: Vec<NodeId>)
        requires
            self.wf(),
        ensures
            r@ == homeless_upto(self.covered_nodes(), total_nodes as nat),
    {
        let mut homeless: Vec<NodeId> = Vec::new();
        let mut node: usize = 0;
        while node < total_nodes
            invariant
                self.wf(),
                node <= total_nodes,
                homeless@ == homeless_upto(self.covered_nodes(), node as nat),
            decreases total_nodes - node,
        {
            if !self.memberships.contains_key(&node) {
                homeless.push(node);
            }
            node = node + 1;
        }
        homeless
    }

    /// A partition of a finite set has at most as many modules as the set
    /// has elements.
    pub proof fn lemma_partition_size(&self, nodes: Set<NodeId>)
        requires
            self.wf(),
            self.partitions(nodes),
            nodes.finite(),
        ensures
            self.module_map().dom().len() <= nodes.len(),
    {
        let map = self.module_map();
        let f = |id: ModuleId| map[id].nodes@[0];
        let image = map.dom().map(f);
        assert(vstd::relations::injective_on(f, map.dom())) by {
            assert forall|a: ModuleId, b: ModuleId|
                map.dom().contains(a) && map.dom().contains(b) && #[trigger] f(a) == #[trigger] f(
                    b,
                ) implies a == b by {
                assert(is_member(map, a, f(a)));
                assert(is_member(map, b, f(b)));
            }
        }
        vstd::set_lib::lemma_map_size(map.dom(), image, f);
        assert(image.subset_of(nodes)) by {
            assert forall|n: NodeId| image.contains(n) implies nodes.contains(n) by {
                let id = choose|id: ModuleId| map.dom().contains(id) && f(id) == n;
                assert(is_member(map, id, n));
            }
        }
        vstd::set_lib::lemma_len_subset(image, nodes);
    }
}

/// Law: inserting a module under a fresh identifier and then removing that
/// identifier gives back the module and leaves the modules as they were.
pub proof fn lemma_insert_remove_roundtrip<W>(
    before: Map<ModuleId, Module<W>>,
    id: ModuleId,
    module: Module<W>,
)
    requires
        !before.contains_key(id),
    ensures
        before.insert(id, module).contains_key(id),
        before.insert(id, module)[id] == module,
        before.insert(id, module).remove(id) == before,
{
    assert(before.insert(id, module).remove(id) =~= before);
}

/// Law: merging modules keeps the covered nodes: where the merged module
/// holds exactly the nodes of the listed modules that exist, and replaces
/// them, the nodes held by some module are the same before and after.
pub proof fn lemma_merge_keeps_coverage<W>(
    before: Map<ModuleId, Module<W>>,
    after: Map<ModuleId, Module<W>>,
    ids: Seq<ModuleId>,
    new_id: ModuleId,
)
    requires
        !before.contains_key(new_id),
        exists|k: int| 0 <= k < ids.len() && before.contains_key(#[trigger] ids[k]),
        after.contains_key(new_id),
        after.remove(new_id) == before.remove_keys(
            ids.to_set().filter(|id: ModuleId| before.contains_key(id)),
        ),
        after[new_id].nodes@.to_set() == merged_nodes(before, ids),
    ensures
        covered_in(after) == covered_in(before),
{
    let listed = ids.to_set().filter(|id: ModuleId| before.contains_key(id));
    assert forall|n: NodeId| covered_in(after).contains(n) <==> covered_in(before).contains(n) by {
        if covered_in(after).contains(n) {
            let id = choose|id: ModuleId| is_member(after, id, n);
            if id == new_id {
                assert(after[new_id].nodes@.to_set().contains(n));
                let src = choose|src: ModuleId| ids.contains(src) && is_member(before, src, n);
                assert(is_member(before, src, n));
            } else {
                assert(after.remove(new_id).contains_key(id));
                assert(after.remove(new_id)[id] == after[id]);
                assert(is_member(before, id, n));
            }
        }
        if covered_in(before).contains(n) {
            let id = choose|id: ModuleId| is_member(before, id, n);
            if listed.contains(id) {
                assert(ids.to_set().contains(id));
                assert(merged_nodes(before, ids).contains(n));
                assert(after[new_id].nodes@.to_set().contains(n));
                assert(is_member(after, new_id, n));
            } else {
                assert(before.remove_keys(listed).contains_key(id));
                assert(before.remove_keys(listed)[id] == before[id]);
                assert(id != new_id);
                assert(after.remove(new_id).contains_key(id));
                assert(after.remove(new_id)[id] == after[id]);
                assert(is_member(after, id, n));
            }
        }
    }
    assert(covered_in(after) =~= covered_in(before));
}

/// The scores of the modules of `map` that `ids` names, each time it names
/// one, added in order to the zero weight.
pub open spec fn listed_score_total<W: Weight>(map: Map<ModuleId, Module<W>>, ids: Seq<ModuleId>) -> W
    decreases ids.len(),
{
    if ids.len() == 0 {
        zero_spec::<W>()
    } else {
        let prev = listed_score_total(map, ids.drop_last());
        if map.contains_key(ids.last()) {
            prev.add_spec(map[ids.last()].score)
        } else {
            prev
        }
    }
}

/// How many entries of `ids` name a module of `map`.
pub open spec fn listed_count<W>(map: Map<ModuleId, Module<W>>, ids: Seq<ModuleId>) -> nat
    decreases ids.len(),
{
    if ids.len() == 0 {
        0
    } else {
        listed_count(map, ids.drop_last()) + if map.contains_key(ids.last()) {
            1nat
        } else {
            0nat
        }
    }
}

/// Removing a module covers no new node.
pub proof fn lemma_remove_covered<W>(before: Map<ModuleId, Module<W>>, id: ModuleId)
    ensures
        covered_in(before.remove(id)).subset_of(covered_in(before)),
{
    assert forall|n: NodeId| covered_in(before.remove(id)).contains(n) implies covered_in(
        before,
    ).contains(n) by {
        let x = choose|x: ModuleId| is_member(before.remove(id), x, n);
        assert(is_member(before, x, n));
    }
}

/// Modules that each hold the nodes of some module of `before` cover no
/// node that `before` does not.
pub proof fn lemma_copies_covered<W, V>(before: Map<ModuleId, Module<W>>, after: Map<ModuleId, Module<V>>)
    requires
        forall|id: ModuleId| #[trigger]
            after.contains_key(id) ==> exists|old_id: ModuleId|
                before.contains_key(old_id) && after[id].nodes@ == before[old_id].nodes@,
    ensures
        covered_in(after).subset_of(covered_in(before)),
{
    assert forall|n: NodeId| covered_in(after).contains(n) implies covered_in(before).contains(n) by {
        let x = choose|x: ModuleId| is_member(after, x, n);
        assert(after.contains_key(x));
        let y = choose|y: ModuleId|
            before.contains_key(y) && after[x].nodes@ == before[y].nodes@;
        assert(is_member(before, y, n));
    }
}

/// Law: a collection that partitions a node set covers exactly that set, so
/// its coverage is the set's size.
pub proof fn lemma_partition_covers<W: Weight>(c: ModuleCollection<W>, nodes: Set<NodeId>)
    requires
        c.partitions(nodes),
    ensures
        c.covered_nodes() == nodes,
{
    assert forall|n: NodeId| c.covered_nodes().contains(n) <==> nodes.contains(n) by {
        if c.covered_nodes().contains(n) {
            let id = choose|id: ModuleId| is_member(c.module_map(), id, n);
            assert(is_member(c.module_map(), id, n));
        }
    }
    assert(c.covered_nodes() =~= nodes);
}

/// Law: the homeless nodes below `total` are exactly the numbers below
/// `total` that are not covered, each once and in increasing order.
pub proof fn lemma_homeless_complement(covered: Set<NodeId>, total: nat)
    requires
        total <= usize::MAX,
    ensures
        forall|n: NodeId|
            homeless_upto(covered, total).contains(n) <==> (n < total && !covered.contains(n)),
        forall|i: int, j: int|
            0 <= i < j < homeless_upto(covered, total).len() ==> homeless_upto(covered, total)[i]
                < homeless_upto(covered, total)[j],
        forall|i: int|
            0 <= i < homeless_upto(covered, total).len() ==> homeless_upto(covered, total)[i]
                < total,
    decreases total,
{
    if total > 0 {
        let prev = homeless_upto(covered, (total - 1) as nat);
        lemma_homeless_complement(covered, (total - 1) as nat);
        {
            let n = (total - 1) as NodeId;
            if !covered.contains(n) {
                assert forall|i: int, j: int|
                    0 <= i < j < prev.push(n).len() implies prev.push(n)[i] < prev.push(n)[j] by {
                    if j == prev.len() {
                        assert(prev[i] < total - 1);
                    } else {
                        assert(prev.push(n)[i] == prev[i]);
                        assert(prev.push(n)[j] == prev[j]);
                    }
                }
                assert forall|m: NodeId|
                    prev.push(n).contains(m) <==> (m < total && !covered.contains(m)) by {
                    if m == n {
                        assert(prev.push(n)[prev.len() as int] == m);
                    }
                    if prev.push(n).contains(m) && m != n {
                        let k = choose|k: int| 0 <= k < prev.push(n).len() && prev.push(n)[k] == m;
                        assert(prev[k] == m);
                    }
                    if prev.contains(m) {
                        let k = choose|k: int| 0 <= k < prev.len() && prev[k] == m;
                        assert(prev.push(n)[k] == m);
                    }
                }
            }
        }
    }
}

/// The numbers `0 .. total` outside `covered`, in increasing order.
pub open spec fn homeless_upto(covered: Set<NodeId>, total: nat) -> Seq<NodeId>
    decreases total,
{
    if total == 0 {
        Seq::empty()
    } else {
        let prev = homeless_upto(covered, (total - 1) as nat);
        let n = (total - 1) as NodeId;
        if covered.contains(n) {
            prev
        } else {
            prev.push(n)
        }
    }
}

/// Filtering a sequence without duplicates keeps it without duplicates and
/// filters its set of elements.
pub proof fn lemma_filter_no_dup_set<A>(s: Seq<A>, pred: spec_fn(A) -> bool)
    requires
        s.no_duplicates(),
    ensures
        s.filter(pred).no_duplicates(),
        s.filter(pred).to_set() == s.to_set().filter(pred),
    decreases s.len(),
{
    reveal(Seq::filter);
    if s.len() > 0 {
        let prev = s.drop_last();
        let x = s.last();
        assert(prev.no_duplicates());
        lemma_filter_no_dup_set(prev, pred);
        assert(s =~= prev.push(x));
        prev.lemma_push_to_set_commute(x);
        assert(!prev.contains(x));
        assert(!prev.to_set().contains(x));
        assert(prev.filter(pred).to_set().contains(x) == prev.filter(pred).contains(x));
        if pred(x) {
            assert(s.filter(pred) == prev.filter(pred).push(x));
            prev.filter(pred).lemma_push_to_set_commute(x);
            assert(s.filter(pred).no_duplicates()) by {
                assert forall|i: int, j: int|
                    0 <= i < j < s.filter(pred).len() implies s.filter(pred)[i] != s.filter(
                        pred,
                    )[j] by {
                    if j == s.filter(pred).len() - 1 {
                        assert(prev.filter(pred).contains(s.filter(pred)[i]));
                    } else {
                        assert(s.filter(pred)[i] == prev.filter(pred)[i]);
                        assert(s.filter(pred)[j] == prev.filter(pred)[j]);
                    }
                }
            }
        } else {
            assert(s.filter(pred) == prev.filter(pred));
        }
        assert(s.filter(pred).to_set() =~= s.to_set().filter(pred));
    }
}

impl<W: Weight> Default for ModuleCollection<W> {
    fn default() -> (r: Self)
        ensures
            r.wf(),
            r.module_map() == Map::<ModuleId, Module<W>>::empty(),
            r.spec_next_id() == 0,
    {
        Self::new()
    }
}

} // verus!
