//! The executor: the dependency index, the node store and the steps of a run.

use petgraph::graph::DiGraph;
use std::collections::hash_map::Entry;
use std::collections::HashMap;
use std::collections::HashSet;
use vstd::prelude::*;
use vstd::std_specs::iter::IteratorSpec;

use crate::diagram::depicts;
use crate::diagram::dot_text;
use crate::diagram::draw;
use crate::diagram::graph_edges;
use crate::diagram::graph_nodes;
use crate::diagram::render;
use crate::laws::lemma_idle_means_done;
use crate::model::acyclic;
use crate::model::dependents;
use crate::model::endpoints_known;
use crate::model::frontier;
use crate::model::lemma_begin;
use crate::model::lemma_complete;
use crate::model::lemma_fresh_inv;
use crate::model::lemma_next_edge;
use crate::model::prerequisites;
use crate::model::Schedule;
use crate::shared::indexes;
use crate::shared::NodeInfo;
use crate::Prioritized;

verus! {

/// Why an executor could not be built.
#[derive(Debug, Clone, Copy, PartialEq, Eq, Structural)]
pub enum ConstructionError {
    /// An edge names this key, and the node set has no node for it.
    UnknownKey(u64),
}

/// The endpoint of `edge` that `keys` lacks; the subject when it lacks both.
pub open spec fn unknown_endpoint(keys: Set<u64>, edge: (u64, u64)) -> u64 {
    if !keys.contains(edge.0) {
        edge.0
    } else {
        edge.1
    }
}

/// `key` is the first endpoint, in the order of the edges and subject before
/// dependent, that is not in `keys`.
pub open spec fn first_unknown(keys: Set<u64>, edges: Seq<(u64, u64)>, key: u64) -> bool {
    exists|i: int|
        0 <= i < edges.len() && #[trigger] endpoints_known(keys, edges.take(i)) && !keys.contains(
            key,
        ) && key == unknown_endpoint(keys, edges[i])
}

/// `ready` holds the nodes that `before` stored under the keys of `keys`, each
/// key once and with its own node, and `after` is `before` without them.
pub open spec fn hands_out<Node>(
    before: Map<u64, Node>,
    after: Map<u64, Node>,
    ready: Seq<(u64, Node)>,
    keys: Set<u64>,
) -> bool {
    &&& forall|i: int, j: int| 0 <= i < j < ready.len() ==> ready[i].0 != ready[j].0
    &&& forall|key: u64|
        keys.contains(key) ==> exists|i: int| 0 <= i < ready.len() && (#[trigger] ready[i]).0 == key
    &&& forall|i: int|
        0 <= i < ready.len() ==> {
            &&& keys.contains((#[trigger] ready[i]).0)
            &&& before.contains_key(ready[i].0)
            &&& before[ready[i].0] == ready[i].1
        }
    &&& after == before.remove_keys(keys)
}

/// A dependency graph in execution.
///
/// The executor owns the nodes until they start. [`Self::start`] hands out
/// the nodes that wait for nothing, and each [`Self::complete`] hands out the
/// nodes whose last prerequisite has just finished. A node is handed out by
/// value, so nothing can start it a second time.
pub struct AsyncGraphExecutor<Node> {
    node_infos: HashMap<u64, NodeInfo>,
    nodes: HashMap<u64, Node>,
    node_keys_with_no_deps: Vec<u64>,
    graph: DiGraph<u64, ()>,
    key_to_graph_idx: HashMap<u64, usize>,
    in_flight: HashSet<u64>,
    schedule: Ghost<Schedule>,
}

impl<Node> View for AsyncGraphExecutor<Node> {
    type V = Schedule;

    closed spec fn view(&self) -> Schedule {
        self.schedule@
    }
}

impl<Node> AsyncGraphExecutor<Node> {
    /// The dependency index: the record of each key.
    pub closed spec fn infos(&self) -> Map<u64, NodeInfo> {
        self.node_infos@
    }

    /// The node store: the nodes that have not been handed out.
    pub closed spec fn store(&self) -> Map<u64, Node> {
        self.nodes@
    }

    /// The keys that the executor tracks as in flight.
    pub closed spec fn running(&self) -> Set<u64> {
        self.in_flight@
    }

    /// The keys that were found without prerequisites at construction.
    pub closed spec fn initial_keys(&self) -> Seq<u64> {
        self.node_keys_with_no_deps@
    }

    /// The node weights of the drawing, by index.
    pub closed spec fn drawn_nodes(&self) -> Seq<u64> {
        graph_nodes(self.graph)
    }

    /// The edges of the drawing, by index.
    pub closed spec fn drawn_edges(&self) -> Seq<(int, int)> {
        graph_edges(self.graph)
    }

    /// Where the drawing has the node of each key.
    pub closed spec fn positions(&self) -> Map<u64, usize> {
        self.key_to_graph_idx@
    }

    /// The executor is consistent: its abstract state is one that a run can
    /// reach, and each of its parts says what that state says.
    pub open spec fn wf(&self) -> bool {
        &&& self@.inv()
        &&& indexes(self.infos(), self@)
        &&& self.store().dom() == self@.waiting()
        &&& self.running() == self@.in_flight()
        &&& self.initial_keys().no_duplicates()
        &&& self.initial_keys().to_set() == frontier(self@.keys, self@.edges)
        &&& depicts(
            self.drawn_nodes(),
            self.drawn_edges(),
            self.positions(),
            self@.keys,
            self@.edges,
        )
    }

    /// What a step leaves alone: the keys found ready at construction, the
    /// drawing, and the dependents, the flag and the priority of each record.
    pub open spec fn same_construction(&self, other: &Self) -> bool {
        &&& self.initial_keys() == other.initial_keys()
        &&& self.drawn_nodes() == other.drawn_nodes()
        &&& self.drawn_edges() == other.drawn_edges()
        &&& self.positions() == other.positions()
        &&& self.infos().dom() == other.infos().dom()
        &&& forall|key: u64| #[trigger]
            self.infos().contains_key(key) ==> {
                &&& self.infos()[key].depended_on_by@ == other.infos()[key].depended_on_by@
                &&& self.infos()[key].failed == other.infos()[key].failed
                &&& self.infos()[key].priority == other.infos()[key].priority
            }
    }
}

impl<Node: Prioritized> AsyncGraphExecutor<Node> {
    /// Builds the executor for `nodes` under `edges`, where an edge
    /// `(subject, dependent)` says that `subject` must finish before
    /// `dependent` may start.
    ///
    /// Construction succeeds exactly when both ends of every edge are keys of
    /// `nodes`. The executor then holds every node, has the record of every
    /// key filled in from the edges and from the node's priority, and nothing
    /// has started. Otherwise the error names the first endpoint that is not
    /// a key and the nodes are dropped.
    ///
    /// The drawing is indexed by `u32`, which bounds the number of nodes and
    /// of edges.
    pub fn new(nodes: HashMap<u64, Node>, edges: Vec<(u64, u64)>) -> (built: Result<
        Self,
        ConstructionError,
    >)
        requires
            nodes@.len() < u32::MAX,
            edges@.len() < u32::MAX,
        ensures
            built is Ok <==> endpoints_known(nodes@.dom(), edges@),
            built matches Ok(executor) ==> {
                &&& executor.wf()
                &&& executor@ == Schedule::fresh(nodes@.dom(), edges@)
                &&& executor.store() == nodes@
                &&& forall|key: u64| #[trigger]
                    nodes@.contains_key(key) ==> call_ensures(
                        Node::get_priority,
                        (&nodes@[key],),
                        executor.infos()[key].priority,
                    )
            },
            built matches Err(ConstructionError::UnknownKey(key)) ==> first_unknown(
                nodes@.dom(),
                edges@,
                key,
            ),
    {
        broadcast use vstd::std_specs::hash::group_hash_axioms;

        let blank = blank_index(&nodes);
        let node_infos = match enter_edges(blank, &edges) {
            Ok(infos) => infos,
            Err(error) => {
                return Err(error);
            },
        };
        let node_keys_with_no_deps = unblocked(&node_infos);
        let (graph, key_to_graph_idx) = draw(&nodes, &edges);
        let ghost schedule = Schedule::fresh(nodes@.dom(), edges@);
        proof {
            lemma_fresh_inv(nodes@.dom(), edges@);
            assert(node_keys_with_no_deps@.to_set() =~= frontier(schedule.keys, schedule.edges));
        }
        Ok(
            AsyncGraphExecutor {
                node_infos,
                nodes,
                node_keys_with_no_deps,
                graph,
                key_to_graph_idx,
                in_flight: HashSet::new(),
                schedule: Ghost(schedule),
            },
        )
    }
}

impl<Node> AsyncGraphExecutor<Node> {
    /// Begins the run: hands out the node of every key that has no
    /// prerequisite, and tracks those keys as in flight.
    ///
    /// On an executor whose run has begun already this hands out nothing and
    /// changes nothing.
    pub fn start(&mut self) -> (ready: Vec<(u64, Node)>)
        requires
            old(self).wf(),
        ensures
            final(self).wf(),
            final(self)@ == old(self)@.begin(),
            hands_out(
                old(self).store(),
                final(self).store(),
                ready@,
                old(self)@.newly_started(final(self)@),
            ),
            final(self).infos() == old(self).infos(),
            final(self).same_construction(old(self)),
    {
        broadcast use vstd::std_specs::hash::group_hash_axioms;

        let ghost before = self.schedule@;
        let ghost store = self.nodes@;
        let ghost running = self.in_flight@;
        let ghost first = self.node_keys_with_no_deps@;
        let mut ready: Vec<(u64, Node)> = Vec::new();
        let mut i: usize = 0;
        proof {
            assert(store.remove_keys(first.take(0).to_set().intersect(store.dom())) =~= store);
        }
        while i < self.node_keys_with_no_deps.len()
            invariant
                i <= first.len(),
                first.no_duplicates(),
                self.node_keys_with_no_deps@ == first,
                self.node_infos == old(self).node_infos,
                self.graph == old(self).graph,
                self.key_to_graph_idx == old(self).key_to_graph_idx,
                self.schedule == old(self).schedule,
                self.in_flight@ == running.union(
                    first.take(i as int).to_set().intersect(store.dom()),
                ),
                hands_out(
                    store,
                    self.nodes@,
                    ready@,
                    first.take(i as int).to_set().intersect(store.dom()),
                ),
            decreases first.len() - i,
        {
            let key = self.node_keys_with_no_deps[i];
            let ghost held = ready@;
            let ghost done = first.take(i as int).to_set();
            let ghost next = first.take(i + 1).to_set();
            proof {
                assert(first.take(i + 1) =~= first.take(i as int).push(key));
                first.take(i as int).lemma_push_to_set_commute(key);
            }
            let ghost left = self.nodes@;
            match self.nodes.remove(&key) {
                Some(node) => {
                    self.in_flight.insert(key);
                    ready.push((key, node));
                    proof {
                        lemma_hand_out_one(store, left, held, done.intersect(store.dom()), key);
                        assert(next.intersect(store.dom()) =~= done.intersect(store.dom()).insert(
                            key,
                        ));
                    }
                },
                None => {
                    proof {
                        assert(self.nodes@ =~= left);
                        assert(next.intersect(store.dom()) =~= done.intersect(store.dom()));
                    }
                },
            }
            i += 1;
        }
        proof {
            assert(first.take(i as int) =~= first);
            lemma_begin(before);
            let after = before.begin();
            assert(first.to_set().intersect(store.dom()) =~= before.newly_started(after));
            assert(self.nodes@.dom() =~= after.waiting());
            assert(self.in_flight@ =~= after.in_flight());
        }
        self.schedule = Ghost(before.begin());
        ready
    }

    /// Takes the report that the run of `key` has ended, with or without
    /// success, and hands out the node of every dependent of `key` that waits
    /// for nothing any more.
    ///
    /// The outcome of the run plays no part: a failed run unblocks its
    /// dependents as a successful one does, and no record is marked.
    ///
    /// The answer is `None`, and nothing changes, when `key` is not in
    /// flight: when it has not started, has reported before, or is no key at
    /// all.
    #[allow(unused_variables)]
    pub fn complete(&mut self, key: u64, succeeded: bool) -> (ready: Option<Vec<(u64, Node)>>)
        requires
            old(self).wf(),
        ensures
            final(self).wf(),
            ready is Some <==> old(self)@.in_flight().contains(key),
            ready is None ==> *final(self) == *old(self),
            ready matches Some(nodes) ==> {
                &&& final(self)@ == old(self)@.complete(key)
                &&& hands_out(
                    old(self).store(),
                    final(self).store(),
                    nodes@,
                    old(self)@.newly_started(final(self)@),
                )
            },
            final(self).same_construction(old(self)),
    {
        broadcast use vstd::std_specs::hash::group_hash_axioms;

        if !self.in_flight.contains(&key) {
            return None;
        }
        let ghost before = self.schedule@;
        let ghost after = before.complete(key);
        let ghost store = self.nodes@;
        let ghost running = self.in_flight@.remove(key);
        let ghost records = self.node_infos@;
        proof {
            lemma_complete(before, key);
        }
        self.in_flight.remove(&key);
        let waiting = elements(&self.node_infos.get(&key).unwrap().depended_on_by);
        let mut ready: Vec<(u64, Node)> = Vec::new();
        let mut i: usize = 0;
        proof {
            assert(store.remove_keys(waiting@.take(0).to_set().intersect(after.ready())) =~= store);
        }
        while i < waiting.len()
            invariant
                i <= waiting.len(),
                old(self).wf(),
                before == old(self).schedule@,
                after == before.complete(key),
                before.in_flight().contains(key),
                store == old(self).nodes@,
                records == old(self).node_infos@,
                running == old(self).in_flight@.remove(key),
                waiting@.no_duplicates(),
                waiting@.to_set() == dependents(before.edges, key),
                self.node_keys_with_no_deps == old(self).node_keys_with_no_deps,
                self.graph == old(self).graph,
                self.key_to_graph_idx == old(self).key_to_graph_idx,
                self.schedule == old(self).schedule,
                self.node_infos@.dom() == records.dom(),
                forall|k: u64| #[trigger]
                    records.contains_key(k) ==> {
                        &&& self.node_infos@[k].depended_on_by == records[k].depended_on_by
                        &&& self.node_infos@[k].failed == records[k].failed
                        &&& self.node_infos@[k].priority == records[k].priority
                        &&& self.node_infos@[k].depends_on@ == if waiting@.take(
                            i as int,
                        ).to_set().contains(k) {
                            after.pending(k)
                        } else {
                            before.pending(k)
                        }
                    },
                self.in_flight@ == running.union(
                    waiting@.take(i as int).to_set().intersect(after.ready()),
                ),
                hands_out(
                    store,
                    self.nodes@,
                    ready@,
                    waiting@.take(i as int).to_set().intersect(after.ready()),
                ),
            decreases waiting.len() - i,
        {
            let dependent = waiting[i];
            let ghost held = ready@;
            let ghost done = waiting@.take(i as int).to_set();
            let ghost next = waiting@.take(i + 1).to_set();
            proof {
                assert(waiting@.take(i + 1) =~= waiting@.take(i as int).push(dependent));
                waiting@.take(i as int).lemma_push_to_set_commute(dependent);
                if done.contains(dependent) {
                    let j = choose|j: int| 0 <= j < i && waiting@.take(i as int)[j] == dependent;
                    assert(waiting@[j] == waiting@[i as int]);
                }
                assert(waiting@.to_set().contains(waiting@[i as int]));
                let e = choose|e: int|
                    0 <= e < before.edges.len() && before.edges[e] == (key, dependent);
                assert(records.contains_key(before.edges[e].1));
            }
            let cleared = strike(&mut self.node_infos, dependent, key);
            if cleared {
                let ghost left = self.nodes@;
                let node = self.nodes.remove(&dependent).unwrap();
                self.in_flight.insert(dependent);
                ready.push((dependent, node));
                proof {
                    lemma_hand_out_one(store, left, held, done.intersect(after.ready()), dependent);
                    assert(next.intersect(after.ready()) =~= done.intersect(after.ready()).insert(
                        dependent,
                    ));
                }
            } else {
                proof {
                    assert(next.intersect(after.ready()) =~= done.intersect(after.ready()));
                }
            }
            i += 1;
        }
        proof {
            assert(waiting@.take(i as int) =~= waiting@);
            assert forall|k: u64| #[trigger] self.node_infos@.contains_key(k) implies self.node_infos@[k].depends_on@
                == after.pending(k) by {
                if !dependents(before.edges, key).contains(k) {
                    assert(before.pending(k) =~= after.pending(k));
                }
            }
            assert(self.nodes@.dom() =~= after.waiting());
        }
        self.schedule = Ghost(after);
        Some(ready)
    }

    /// The record of `key`, if `key` is a key of the node set.
    pub fn node_info(&self, key: u64) -> (info: Option<&NodeInfo>)
        ensures
            info is Some <==> self.infos().contains_key(key),
            info matches Some(found) ==> *found == self.infos()[key],
    {
        broadcast use vstd::std_specs::hash::group_hash_axioms;

        self.node_infos.get(&key)
    }

    /// The nodes that have not been handed out.
    pub fn nodes(&self) -> (nodes: &HashMap<u64, Node>)
        ensures
            nodes@ == self.store(),
    {
        &self.nodes
    }

    /// The keys that were found without prerequisites at construction.
    pub fn node_keys_with_no_deps(&self) -> (keys: &Vec<u64>)
        ensures
            keys@ == self.initial_keys(),
    {
        &self.node_keys_with_no_deps
    }

    /// Whether nothing is in flight: the run has nothing left to wait for.
    pub fn is_idle(&self) -> (idle: bool)
        ensures
            idle == self.running().is_empty(),
            self.wf() ==> idle == self@.idle(),
    {
        self.in_flight.is_empty()
    }

    /// The dependency graph as Graphviz text: one node for each key, labelled
    /// with the key, and one arrow for each edge, from subject to dependent.
    pub fn dot(&self) -> (text: String)
        ensures
            text@ == dot_text(self.drawn_nodes(), self.drawn_edges()),
    {
        render(&self.graph)
    }

    /// The index is a function of the node set and the edges: two executors
    /// built over the same keys and edges have, for every key, the same
    /// unfinished prerequisites and the same dependents, and they found the
    /// same keys ready, each once. The order in which those keys are listed
    /// is that of a hash map and may differ.
    pub proof fn lemma_rebuilt_index_is_same(
        keys: Set<u64>,
        edges: Seq<(u64, u64)>,
        one: &Self,
        other: &Self,
    )
        requires
            one.wf(),
            one@ == Schedule::fresh(keys, edges),
            other.wf(),
            other@ == Schedule::fresh(keys, edges),
        ensures
            one.infos().dom() == other.infos().dom(),
            forall|key: u64| #[trigger]
                keys.contains(key) ==> {
                    &&& one.infos()[key].depends_on@ == other.infos()[key].depends_on@
                    &&& one.infos()[key].depended_on_by@ == other.infos()[key].depended_on_by@
                    &&& one.infos()[key].depends_on@ == prerequisites(edges, key)
                    &&& one.infos()[key].depended_on_by@ == dependents(edges, key)
                },
            one.initial_keys().to_set() == other.initial_keys().to_set(),
            one.initial_keys().len() == other.initial_keys().len(),
    {
        one.initial_keys().unique_seq_to_set();
        other.initial_keys().unique_seq_to_set();
    }

    /// When a run over acyclic edges has nothing in flight, no node is left
    /// in the store: every node has been handed out, and every key has
    /// reported.
    pub proof fn lemma_idle_store_is_empty(&self)
        requires
            self.wf(),
            self@.begun,
            self@.idle(),
            acyclic(self@.edges),
        ensures
            self.store().dom() == Set::<u64>::empty(),
            self@.finished == self@.keys,
    {
        lemma_idle_means_done(self@);
    }
}

/// One more node leaves the store: the account of what was handed out goes
/// on with the key added, the node appended and the key gone from the store.
proof fn lemma_hand_out_one<Node>(
    store: Map<u64, Node>,
    left: Map<u64, Node>,
    held: Seq<(u64, Node)>,
    taken: Set<u64>,
    key: u64,
)
    requires
        hands_out(store, left, held, taken),
        left.contains_key(key),
    ensures
        hands_out(store, left.remove(key), held.push((key, left[key])), taken.insert(key)),
{
    let ready = held.push((key, left[key]));
    assert(left.remove(key) =~= store.remove_keys(taken.insert(key)));
    assert forall|k: u64| taken.insert(key).contains(k) implies exists|n: int|
        0 <= n < ready.len() && (#[trigger] ready[n]).0 == k by {
        if k == key {
            assert(ready[held.len() as int].0 == k);
        } else {
            let n = choose|n: int| 0 <= n < held.len() && (#[trigger] held[n]).0 == k;
            assert(ready[n].0 == k);
        }
    }
}

/// A record for each key of `nodes`, with the node's priority and with no
/// edge entered yet.
fn blank_index<Node: Prioritized>(nodes: &HashMap<u64, Node>) -> (infos: HashMap<u64, NodeInfo>)
    ensures
        indexes(infos@, Schedule::fresh(nodes@.dom(), Seq::empty())),
        forall|key: u64| #[trigger]
            nodes@.contains_key(key) ==> call_ensures(
                Node::get_priority,
                (&nodes@[key],),
                infos@[key].priority,
            ),
{
    broadcast use vstd::std_specs::hash::group_hash_axioms;

    let mut infos: HashMap<u64, NodeInfo> = HashMap::new();
    for pair in it: nodes.iter()
        invariant
            it.seq() == nodes.iter().remaining(),
            forall|key: u64|
                infos@.contains_key(key) <==> exists|j: int|
                    0 <= j < it.index() && *(#[trigger] it.seq()[j]).0 == key,
            forall|key: u64| #[trigger]
                infos@.contains_key(key) ==> {
                    &&& nodes@.contains_key(key)
                    &&& infos@[key].depends_on@ == Set::<u64>::empty()
                    &&& infos@[key].depended_on_by@ == Set::<u64>::empty()
                    &&& !infos@[key].failed
                    &&& call_ensures(Node::get_priority, (&nodes@[key],), infos@[key].priority)
                },
    {
        let (key, node) = pair;
        let info = NodeInfo {
            depends_on: HashSet::new(),
            depended_on_by: HashSet::new(),
            failed: false,
            priority: node.get_priority(),
        };
        infos.insert(*key, info);
    }
    proof {
        let blank = Schedule::fresh(nodes@.dom(), Seq::empty());
        assert(infos@.dom() =~= nodes@.dom());
        assert forall|key: u64| #[trigger] infos@.contains_key(key) implies {
            &&& infos@[key].depends_on@ == blank.pending(key)
            &&& infos@[key].depended_on_by@ == dependents(blank.edges, key)
        } by {
            assert(blank.pending(key) =~= Set::<u64>::empty());
            assert(dependents(blank.edges, key) =~= Set::<u64>::empty());
        }
    }
    infos
}

/// Enters the edges into a blank index: each edge adds its dependent to the
/// record of its subject and its subject to the record of its dependent. The
/// first endpoint without a record ends the work.
fn enter_edges(blank: HashMap<u64, NodeInfo>, edges: &Vec<(u64, u64)>) -> (linked: Result<
    HashMap<u64, NodeInfo>,
    ConstructionError,
>)
    requires
        indexes(blank@, Schedule::fresh(blank@.dom(), Seq::empty())),
    ensures
        linked is Ok <==> endpoints_known(blank@.dom(), edges@),
        linked matches Ok(infos) ==> {
            &&& indexes(infos@, Schedule::fresh(blank@.dom(), edges@))
            &&& forall|key: u64| #[trigger]
                blank@.contains_key(key) ==> infos@[key].priority == blank@[key].priority
        },
        linked matches Err(ConstructionError::UnknownKey(key)) ==> first_unknown(
            blank@.dom(),
            edges@,
            key,
        ),
{
    broadcast use vstd::std_specs::hash::group_hash_axioms;

    let ghost keys = blank@.dom();
    let mut infos = blank;
    let mut i: usize = 0;
    proof {
        assert(edges@.take(0) =~= Seq::<(u64, u64)>::empty());
    }
    while i < edges.len()
        invariant
            i <= edges.len(),
            indexes(infos@, Schedule::fresh(keys, edges@.take(i as int))),
            endpoints_known(keys, edges@.take(i as int)),
            keys == blank@.dom(),
            forall|key: u64| #[trigger]
                blank@.contains_key(key) ==> infos@[key].priority == blank@[key].priority,
        decreases edges.len() - i,
    {
        let (subject, dependent) = edges[i];
        match infos.entry(subject) {
            Entry::Occupied(mut occupied) => {
                occupied.get_mut().depended_on_by.insert(dependent);
            },
            Entry::Vacant(_) => {
                return Err(ConstructionError::UnknownKey(subject));
            },
        }
        match infos.entry(dependent) {
            Entry::Occupied(mut occupied) => {
                occupied.get_mut().depends_on.insert(subject);
            },
            Entry::Vacant(_) => {
                return Err(ConstructionError::UnknownKey(dependent));
            },
        }
        proof {
            let longer = Schedule::fresh(keys, edges@.take(i + 1));
            assert(infos@.dom() =~= keys);
            assert forall|key: u64| #[trigger] infos@.contains_key(key) implies {
                &&& infos@[key].depends_on@ == longer.pending(key)
                &&& infos@[key].depended_on_by@ == dependents(longer.edges, key)
                &&& !infos@[key].failed
            } by {
                lemma_next_edge(edges@, i as int, key);
            }
        }
        i += 1;
    }
    proof {
        assert(edges@.take(i as int) =~= edges@);
    }
    Ok(infos)
}

/// The keys whose record lists no unfinished prerequisite, each once, in the
/// order in which the map hands them out.
fn unblocked(infos: &HashMap<u64, NodeInfo>) -> (keys: Vec<u64>)
    ensures
        keys@.no_duplicates(),
        forall|key: u64|
            keys@.contains(key) <==> infos@.contains_key(key) && infos@[key].depends_on@.is_empty(),
{
    broadcast use vstd::std_specs::hash::group_hash_axioms;

    let mut keys: Vec<u64> = Vec::new();
    for pair in it: infos.iter()
        invariant
            it.seq() == infos.iter().remaining(),
            it.seq().no_duplicates(),
            keys@.no_duplicates(),
            forall|key: u64|
                keys@.contains(key) <==> exists|j: int|
                    0 <= j < it.index() && *(#[trigger] it.seq()[j]).0 == key
                        && it.seq()[j].1.depends_on@.is_empty(),
    {
        let (key, info) = pair;
        let ghost before = keys@;
        let ghost at = it.index();
        if info.depends_on.is_empty() {
            proof {
                if before.contains(*key) {
                    let j = choose|j: int|
                        0 <= j < at && *(#[trigger] it.seq()[j]).0 == *key
                            && it.seq()[j].1.depends_on@.is_empty();
                    assert(infos@.contains_key(*it.seq()[j].0));
                }
            }
            keys.push(*key);
            proof {
                assert forall|k: u64| keys@.contains(k) implies exists|j: int|
                    0 <= j < at + 1 && *(#[trigger] it.seq()[j]).0 == k
                        && it.seq()[j].1.depends_on@.is_empty() by {
                    let n = choose|n: int| 0 <= n < keys@.len() && keys@[n] == k;
                    if n < before.len() {
                        assert(before.contains(k));
                    }
                }
                assert forall|k: u64|
                    (exists|j: int|
                        0 <= j < at + 1 && *(#[trigger] it.seq()[j]).0 == k
                            && it.seq()[j].1.depends_on@.is_empty()) implies keys@.contains(k) by {
                    let j = choose|j: int|
                        0 <= j < at + 1 && *(#[trigger] it.seq()[j]).0 == k
                            && it.seq()[j].1.depends_on@.is_empty();
                    if j < at {
                        assert(before.contains(k));
                        let n = choose|n: int| 0 <= n < before.len() && before[n] == k;
                        assert(keys@[n] == k);
                    } else {
                        assert(keys@[before.len() as int] == k);
                    }
                }
            }
        }
    }
    keys
}

/// The elements of a set, each once, in the order in which the set hands them
/// out.
fn elements(set: &HashSet<u64>) -> (listed: Vec<u64>)
    ensures
        listed@.no_duplicates(),
        listed@.to_set() == set@,
{
    broadcast use vstd::std_specs::hash::group_hash_axioms;

    let mut listed: Vec<u64> = Vec::new();
    for key in it: set.iter()
        invariant
            it.seq() == set.iter().remaining(),
            listed@ == it.seq().take(it.index()).unref(),
    {
        listed.push(*key);
    }
    proof {
        let all = set.iter().remaining();
        assert(all.take(all.len() as int) =~= all);
    }
    listed
}

/// Strikes `key` from the unfinished prerequisites of `dependent` and says
/// whether none is left.
fn strike(infos: &mut HashMap<u64, NodeInfo>, dependent: u64, key: u64) -> (cleared: bool)
    requires
        old(infos)@.contains_key(dependent),
    ensures
        final(infos)@.dom() == old(infos)@.dom(),
        forall|other: u64|
            other != dependent && #[trigger] old(infos)@.contains_key(other) ==> final(infos)@[other]
                == old(infos)@[other],
        final(infos)@[dependent].depends_on@ == old(infos)@[dependent].depends_on@.remove(key),
        final(infos)@[dependent].depended_on_by == old(infos)@[dependent].depended_on_by,
        final(infos)@[dependent].failed == old(infos)@[dependent].failed,
        final(infos)@[dependent].priority == old(infos)@[dependent].priority,
        cleared == final(infos)@[dependent].depends_on@.is_empty(),
{
    broadcast use vstd::std_specs::hash::group_hash_axioms;

    let mut cleared = false;
    match infos.entry(dependent) {
        Entry::Occupied(mut occupied) => {
            let info = occupied.get_mut();
            info.depends_on.remove(&key);
            cleared = info.depends_on.is_empty();
        },
        Entry::Vacant(_) => {
            assert(false);
        },
    }
    cleared
}

} // verus!
