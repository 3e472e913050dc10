//! The abstract state of a run and the order that the edges impose on it.

use vstd::prelude::*;

verus! {

/// The keys that must finish before `key` may start: the subjects of the
/// edges whose dependent is `key`.
pub open spec fn prerequisites(edges: Seq<(u64, u64)>, key: u64) -> Set<u64> {
    Set::new(|subject: u64| edges.contains((subject, key)))
}

/// The keys that wait for `key`: the dependents of the edges whose subject is
/// `key`.
pub open spec fn dependents(edges: Seq<(u64, u64)>, key: u64) -> Set<u64> {
    Set::new(|dependent: u64| edges.contains((key, dependent)))
}

/// Both ends of every edge are keys of the node set.
pub open spec fn endpoints_known(keys: Set<u64>, edges: Seq<(u64, u64)>) -> bool {
    forall|i: int|
        0 <= i < edges.len() ==> keys.contains((#[trigger] edges[i]).0) && keys.contains(
            edges[i].1,
        )
}

/// The keys that no edge points at: they may start before anything has
/// finished.
pub open spec fn frontier(keys: Set<u64>, edges: Seq<(u64, u64)>) -> Set<u64> {
    Set::new(|key: u64| keys.contains(key) && forall|subject: u64| !edges.contains((subject, key)))
}

/// The pair of neighbours at `i` and `i + 1` in `path`.
pub open spec fn hop(path: Seq<u64>, i: int) -> (u64, u64) {
    (path[i], path[i + 1])
}

/// `path` walks along edges: each key is a prerequisite of the next one.
pub open spec fn is_path(edges: Seq<(u64, u64)>, path: Seq<u64>) -> bool {
    &&& path.len() >= 1
    &&& forall|i: int| 0 <= i < path.len() - 1 ==> edges.contains(#[trigger] hop(path, i))
}

/// Some path of at least one edge leads from `from` to `to`.
pub open spec fn reaches(edges: Seq<(u64, u64)>, from: u64, to: u64) -> bool {
    exists|path: Seq<u64>|
        #[trigger] is_path(edges, path) && path.len() >= 2 && path.first() == from && path.last()
            == to
}

/// No key reaches itself.
pub open spec fn acyclic(edges: Seq<(u64, u64)>) -> bool {
    forall|key: u64| !reaches(edges, key, key)
}

/// The abstract state of one run: the node set, the edges, whether the run has
/// begun and which keys have reported completion.
pub struct Schedule {
    pub keys: Set<u64>,
    pub edges: Seq<(u64, u64)>,
    pub begun: bool,
    pub finished: Set<u64>,
}

impl Schedule {
    /// The state right after construction: nothing started, nothing finished.
    pub open spec fn fresh(keys: Set<u64>, edges: Seq<(u64, u64)>) -> Schedule {
        Schedule { keys, edges, begun: false, finished: Set::empty() }
    }

    /// The prerequisites of `key` that have not finished yet.
    pub open spec fn pending(self, key: u64) -> Set<u64> {
        prerequisites(self.edges, key).difference(self.finished)
    }

    /// The keys all of whose prerequisites have finished.
    pub open spec fn ready(self) -> Set<u64> {
        Set::new(|key: u64| self.keys.contains(key) && self.pending(key).is_empty())
    }

    /// The keys whose work has been handed out. Once the run has begun these
    /// are exactly the ready keys: a key starts at the moment its last
    /// prerequisite finishes.
    pub open spec fn started(self) -> Set<u64> {
        if self.begun {
            self.ready()
        } else {
            Set::empty()
        }
    }

    /// The keys that have started and not yet finished.
    pub open spec fn in_flight(self) -> Set<u64> {
        self.started().difference(self.finished)
    }

    /// The keys whose work has not been handed out.
    pub open spec fn waiting(self) -> Set<u64> {
        self.keys.difference(self.started())
    }

    /// Nothing is in flight: the run has nothing left to wait for.
    pub open spec fn idle(self) -> bool {
        self.in_flight().is_empty()
    }

    /// What holds of every state that a run can reach.
    pub open spec fn inv(self) -> bool {
        &&& self.keys.finite()
        &&& endpoints_known(self.keys, self.edges)
        &&& self.finished.subset_of(self.started())
    }

    /// The run begins: the frontier starts.
    pub open spec fn begin(self) -> Schedule {
        Schedule { begun: true, ..self }
    }

    /// `key` reports completion.
    pub open spec fn complete(self, key: u64) -> Schedule {
        Schedule { finished: self.finished.insert(key), ..self }
    }

    /// The keys that a step from `self` to `next` starts.
    pub open spec fn newly_started(self, next: Schedule) -> Set<u64> {
        next.started().difference(self.started())
    }

    /// The state after the keys of `completions` have reported, in that order.
    pub open spec fn after(self, completions: Seq<u64>) -> Schedule
        decreases completions.len(),
    {
        if completions.len() == 0 {
            self
        } else {
            self.after(completions.drop_last()).complete(completions.last())
        }
    }

    /// Each key of `completions` is in flight at the moment it reports.
    pub open spec fn accepts(self, completions: Seq<u64>) -> bool {
        forall|i: int|
            0 <= i < completions.len() ==> (#[trigger] self.after(completions.take(i))).in_flight().contains(
                completions[i],
            )
    }
}

/// What one more edge adds: the edge at `i` makes its subject a prerequisite
/// of its dependent and its dependent a dependent of its subject, and nothing
/// else changes.
pub proof fn lemma_next_edge(edges: Seq<(u64, u64)>, i: int, key: u64)
    requires
        0 <= i < edges.len(),
    ensures
        prerequisites(edges.take(i + 1), key) == if key == edges[i].1 {
            prerequisites(edges.take(i), key).insert(edges[i].0)
        } else {
            prerequisites(edges.take(i), key)
        },
        dependents(edges.take(i + 1), key) == if key == edges[i].0 {
            dependents(edges.take(i), key).insert(edges[i].1)
        } else {
            dependents(edges.take(i), key)
        },
{
    let shorter = edges.take(i);
    let longer = edges.take(i + 1);
    assert forall|edge: (u64, u64)|
        longer.contains(edge) <==> shorter.contains(edge) || edge == edges[i] by {
        if shorter.contains(edge) {
            let j = choose|j: int| 0 <= j < shorter.len() && shorter[j] == edge;
            assert(longer[j] == edge);
        }
        if edge == edges[i] {
            assert(longer[i] == edge);
        }
    }
}

/// A fresh state over a finite node set whose edges stay inside it is a
/// reachable state.
pub proof fn lemma_fresh_inv(keys: Set<u64>, edges: Seq<(u64, u64)>)
    requires
        keys.finite(),
        endpoints_known(keys, edges),
    ensures
        Schedule::fresh(keys, edges).inv(),
        Schedule::fresh(keys, edges).started() == Set::<u64>::empty(),
        Schedule::fresh(keys, edges).waiting() == keys,
        Schedule::fresh(keys, edges).in_flight() == Set::<u64>::empty(),
{
}

/// The more has finished, the more is ready.
pub proof fn lemma_ready_grows(s: Schedule, key: u64)
    ensures
        s.ready().subset_of(s.complete(key).ready()),
{
}

/// Beginning keeps a state reachable, starts the frontier when the run is
/// fresh, and changes nothing when it has begun already.
pub proof fn lemma_begin(s: Schedule)
    requires
        s.inv(),
    ensures
        s.begin().inv(),
        s.begun ==> s.begin() == s,
        !s.begun ==> s.begin().started() == frontier(s.keys, s.edges),
        !s.begun ==> s.begin().in_flight() == frontier(s.keys, s.edges),
        s.started().subset_of(s.begin().started()),
        frontier(s.keys, s.edges).subset_of(s.begin().started()),
{
    let t = s.begin();
    if !s.begun {
        assert forall|k: u64| t.started().contains(k) <==> frontier(s.keys, s.edges).contains(
            k,
        ) by {
            if t.started().contains(k) {
                assert forall|subject: u64| !s.edges.contains((subject, k)) by {
                    if s.edges.contains((subject, k)) {
                        assert(t.pending(k).contains(subject));
                    }
                }
            }
        }
    }
}

/// A completion of a key in flight keeps the state reachable and takes back
/// nothing that has started. What it starts are the dependents of `key` that
/// it made ready, and none of them had started before.
pub proof fn lemma_complete(s: Schedule, key: u64)
    requires
        s.inv(),
        s.in_flight().contains(key),
    ensures
        s.begun,
        s.complete(key).inv(),
        s.started().subset_of(s.complete(key).started()),
        s.newly_started(s.complete(key)) == dependents(s.edges, key).intersect(
            s.complete(key).ready(),
        ),
        s.complete(key).in_flight() == s.in_flight().remove(key).union(
            s.newly_started(s.complete(key)),
        ),
        !dependents(s.edges, key).contains(key),
{
    let t = s.complete(key);
    lemma_ready_grows(s, key);
    if prerequisites(s.edges, key).contains(key) {
        assert(s.pending(key).contains(key));
    }
    let fresh_ready = dependents(s.edges, key).intersect(t.ready());
    assert forall|k: u64| s.newly_started(t).contains(k) <==> fresh_ready.contains(k) by {
        if fresh_ready.contains(k) {
            assert(s.pending(k).contains(key));
        }
    }
}

} // verus!
