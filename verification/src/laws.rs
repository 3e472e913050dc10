//! What holds of every run.
//!
//! A run is a fresh schedule that has begun and then takes completion
//! reports, each of a key that is in flight when it reports. The laws below
//! are stated over [`Schedule`], which is the view of the executor: what they
//! say of the abstract state, each step of the executor says of itself.

use vstd::prelude::*;
use vstd::set_lib::lemma_len_subset;

use crate::model::acyclic;
use crate::model::endpoints_known;
use crate::model::frontier;
use crate::model::hop;
use crate::model::is_path;
use crate::model::lemma_begin;
use crate::model::lemma_complete;
use crate::model::lemma_fresh_inv;
use crate::model::prerequisites;
use crate::model::reaches;
use crate::model::Schedule;

verus! {

/// A prefix of accepted reports is accepted.
pub proof fn lemma_accepts_prefix(s: Schedule, completions: Seq<u64>, n: int)
    requires
        s.accepts(completions),
        0 <= n <= completions.len(),
    ensures
        s.accepts(completions.take(n)),
{
    let prefix = completions.take(n);
    assert forall|i: int| 0 <= i < prefix.len() implies (#[trigger] s.after(
        prefix.take(i),
    )).in_flight().contains(prefix[i]) by {
        assert(prefix.take(i) =~= completions.take(i));
    }
}

/// One more report: the state after the first `n + 1` reports is the state
/// after the first `n`, completed by the report at `n`.
pub proof fn lemma_after_next(s: Schedule, completions: Seq<u64>, n: int)
    requires
        0 <= n < completions.len(),
    ensures
        s.after(completions.take(n + 1)) == s.after(completions.take(n)).complete(completions[n]),
{
    let longer = completions.take(n + 1);
    assert(longer.drop_last() =~= completions.take(n));
}

/// Accepted reports lead from a reachable state to a reachable state. The
/// node set and the edges stay, the finished keys are the earlier ones and
/// the reported ones, and nothing that has started is taken back.
pub proof fn lemma_run(s: Schedule, completions: Seq<u64>)
    requires
        s.inv(),
        s.accepts(completions),
    ensures
        s.after(completions).inv(),
        s.after(completions).keys == s.keys,
        s.after(completions).edges == s.edges,
        s.after(completions).begun == s.begun,
        s.after(completions).finished == s.finished.union(completions.to_set()),
        s.started().subset_of(s.after(completions).started()),
    decreases completions.len(),
{
    if completions.len() > 0 {
        let earlier = completions.drop_last();
        lemma_accepts_prefix(s, completions, completions.len() - 1);
        lemma_run(s, earlier);
        lemma_complete(s.after(earlier), completions.last());
        assert(completions =~= earlier.push(completions.last()));
        earlier.lemma_push_to_set_commute(completions.last());
    }
}

/// What has started by some point of a run has started at every later point.
pub proof fn lemma_started_grows(s: Schedule, completions: Seq<u64>, i: int, j: int)
    requires
        s.inv(),
        s.accepts(completions),
        0 <= i <= j <= completions.len(),
    ensures
        s.after(completions.take(i)).started().subset_of(s.after(completions.take(j)).started()),
    decreases j - i,
{
    if i < j {
        lemma_started_grows(s, completions, i, j - 1);
        lemma_accepts_prefix(s, completions, j - 1);
        lemma_run(s, completions.take(j - 1));
        lemma_after_next(s, completions, j - 1);
        lemma_complete(s.after(completions.take(j - 1)), completions[j - 1]);
    }
}

/// The keys that the report at `i` starts.
pub open spec fn started_by(s: Schedule, completions: Seq<u64>, i: int) -> Set<u64> {
    s.after(completions.take(i)).newly_started(s.after(completions.take(i + 1)))
}

/// Completeness: when a run over acyclic edges has nothing in flight any
/// more, every key has started and has finished.
pub proof fn lemma_idle_means_done(s: Schedule)
    requires
        s.inv(),
        s.begun,
        s.idle(),
        acyclic(s.edges),
    ensures
        s.finished == s.keys,
        s.started() == s.keys,
{
    assert forall|key: u64| s.keys.contains(key) implies s.finished.contains(key) by {
        if !s.finished.contains(key) {
            lemma_held_up(s, key);
            assert(!s.in_flight().is_empty());
        }
    }
}

/// Completeness without the word acyclic: when a run has nothing in flight
/// any more, the finished keys are exactly the keys all of whose
/// prerequisites have finished. A key that is left over waits for a
/// prerequisite that is left over too, which takes a cycle.
pub proof fn lemma_idle_leftovers_are_blocked(s: Schedule, key: u64)
    requires
        s.inv(),
        s.begun,
        s.idle(),
        s.keys.contains(key),
    ensures
        s.finished.contains(key) <==> prerequisites(s.edges, key).subset_of(s.finished),
        !s.finished.contains(key) ==> exists|subject: u64|
            s.edges.contains((subject, key)) && s.keys.contains(subject) && !s.finished.contains(
                subject,
            ),
{
    if s.finished.contains(key) {
        assert(s.started().contains(key));
        assert forall|subject: u64|
            prerequisites(s.edges, key).contains(subject) implies s.finished.contains(subject) by {
            lemma_subject_finishes_first(s, subject, key);
        }
    } else {
        assert(!s.in_flight().contains(key));
        assert(!s.pending(key).is_empty());
        let subject = choose|subject: u64| s.pending(key).contains(subject);
        assert(s.pending(key).contains(subject)) by {
            if forall|other: u64| !s.pending(key).contains(other) {
                assert(s.pending(key) =~= Set::<u64>::empty());
            }
        }
        let e = choose|e: int| 0 <= e < s.edges.len() && s.edges[e] == (subject, key);
        assert(s.keys.contains(s.edges[e].0));
        assert(!prerequisites(s.edges, key).subset_of(s.finished));
    }
}

/// Completeness of a whole run: when the reports of a run over acyclic edges
/// leave nothing in flight, every key has reported, and has done so once.
pub proof fn lemma_finished_run_ran_all(keys: Set<u64>, edges: Seq<(u64, u64)>, completions: Seq<u64>)
    requires
        keys.finite(),
        endpoints_known(keys, edges),
        acyclic(edges),
        Schedule::fresh(keys, edges).begin().accepts(completions),
        Schedule::fresh(keys, edges).begin().after(completions).idle(),
    ensures
        completions.no_duplicates(),
        completions.to_set() == keys,
{
    let first = Schedule::fresh(keys, edges).begin();
    lemma_fresh_inv(keys, edges);
    lemma_begin(Schedule::fresh(keys, edges));
    lemma_run(first, completions);
    lemma_reports_once(first, completions);
    lemma_idle_means_done(first.after(completions));
}

/// Ordering: over an edge, the dependent has started only if the subject has
/// finished.
pub proof fn lemma_subject_finishes_first(s: Schedule, subject: u64, dependent: u64)
    requires
        s.edges.contains((subject, dependent)),
        s.started().contains(dependent),
    ensures
        s.finished.contains(subject),
{
    if !s.finished.contains(subject) {
        assert(s.pending(dependent).contains(subject));
    }
}

/// Ordering along a run: when the report at `i` starts the dependent of an
/// edge, the subject of that edge has reported by then, at `i` or before.
pub proof fn lemma_starts_after_subject_reports(
    keys: Set<u64>,
    edges: Seq<(u64, u64)>,
    completions: Seq<u64>,
    i: int,
    subject: u64,
    dependent: u64,
)
    requires
        keys.finite(),
        endpoints_known(keys, edges),
        Schedule::fresh(keys, edges).begin().accepts(completions),
        0 <= i < completions.len(),
        edges.contains((subject, dependent)),
        started_by(Schedule::fresh(keys, edges).begin(), completions, i).contains(dependent),
    ensures
        exists|j: int| 0 <= j <= i && completions[j] == subject,
{
    let first = Schedule::fresh(keys, edges).begin();
    lemma_fresh_inv(keys, edges);
    lemma_begin(Schedule::fresh(keys, edges));
    let reported = completions.take(i + 1);
    lemma_accepts_prefix(first, completions, i + 1);
    lemma_run(first, reported);
    lemma_subject_finishes_first(first.after(reported), subject, dependent);
    let j = choose|j: int| 0 <= j < reported.len() && reported[j] == subject;
    assert(completions[j] == subject);
}

/// Frontier: what starts before any report is exactly the set of keys that no
/// edge points at.
pub proof fn lemma_first_wave_is_frontier(keys: Set<u64>, edges: Seq<(u64, u64)>)
    requires
        keys.finite(),
        endpoints_known(keys, edges),
    ensures
        Schedule::fresh(keys, edges).started() == Set::<u64>::empty(),
        Schedule::fresh(keys, edges).begin().started() == frontier(keys, edges),
        frontier(keys, edges) == Set::new(
            |key: u64| keys.contains(key) && prerequisites(edges, key).is_empty(),
        ),
{
    lemma_fresh_inv(keys, edges);
    lemma_begin(Schedule::fresh(keys, edges));
}

/// No double start: along a run no key reports twice, none reports that had
/// finished before the run, and no key is started by two reports or by a
/// report after it had started already.
pub proof fn lemma_reports_once(s: Schedule, completions: Seq<u64>)
    requires
        s.inv(),
        s.accepts(completions),
    ensures
        completions.no_duplicates(),
        forall|i: int| 0 <= i < completions.len() ==> !s.finished.contains(#[trigger] completions[i]),
        forall|i: int, j: int|
            0 <= i < j < completions.len() ==> #[trigger] started_by(s, completions, i).disjoint(
                #[trigger] started_by(s, completions, j),
            ),
        forall|i: int|
            0 <= i < completions.len() ==> s.started().disjoint(
                #[trigger] started_by(s, completions, i),
            ),
{
    assert forall|i: int| 0 <= i < completions.len() implies !s.finished.contains(
        #[trigger] completions[i],
    ) && forall|j: int| 0 <= j < i ==> completions[j] != completions[i] by {
        lemma_accepts_prefix(s, completions, i);
        lemma_run(s, completions.take(i));
        assert forall|j: int| 0 <= j < i implies completions[j] != completions[i] by {
            assert(completions.take(i)[j] == completions[j]);
        }
    }
    assert forall|i: int, j: int| 0 <= i < j < completions.len() implies #[trigger] started_by(
        s,
        completions,
        i,
    ).disjoint(#[trigger] started_by(s, completions, j)) by {
        lemma_started_grows(s, completions, i + 1, j);
    }
    assert forall|i: int| 0 <= i < completions.len() implies s.started().disjoint(
        #[trigger] started_by(s, completions, i),
    ) by {
        lemma_started_grows(s, completions, 0, i);
    }
}

/// Independence, one way: two keys that are in flight at the same time have
/// no path between them.
pub proof fn lemma_in_flight_unordered(s: Schedule, a: u64, b: u64)
    requires
        s.inv(),
        s.in_flight().contains(a),
        s.in_flight().contains(b),
    ensures
        !reaches(s.edges, a, b),
{
    if reaches(s.edges, a, b) {
        let path = choose|path: Seq<u64>|
            #[trigger] is_path(s.edges, path) && path.len() >= 2 && path.first() == a
                && path.last() == b;
        lemma_upstream_finished(s, path, 0);
    }
}

/// Independence, the other way: the reports of two keys in flight are taken
/// in either order, and both orders lead to the same state.
pub proof fn lemma_reports_commute(s: Schedule, a: u64, b: u64)
    requires
        s.inv(),
        s.in_flight().contains(a),
        s.in_flight().contains(b),
        a != b,
    ensures
        s.complete(a).in_flight().contains(b),
        s.complete(b).in_flight().contains(a),
        s.complete(a).complete(b) == s.complete(b).complete(a),
{
    lemma_complete(s, a);
    lemma_complete(s, b);
    assert(s.finished.insert(a).insert(b) =~= s.finished.insert(b).insert(a));
}

/// Independence, the existence of it: over acyclic edges two keys without a
/// path between them can be in flight at the same time. The reports returned
/// are an accepted run after which both are.
pub proof fn lemma_unordered_keys_run_together(
    keys: Set<u64>,
    edges: Seq<(u64, u64)>,
    a: u64,
    b: u64,
) -> (completions: Seq<u64>)
    requires
        keys.finite(),
        endpoints_known(keys, edges),
        acyclic(edges),
        keys.contains(a),
        keys.contains(b),
        !reaches(edges, a, b),
        !reaches(edges, b, a),
    ensures
        Schedule::fresh(keys, edges).begin().accepts(completions),
        Schedule::fresh(keys, edges).begin().after(completions).in_flight().contains(a),
        Schedule::fresh(keys, edges).begin().after(completions).in_flight().contains(b),
{
    let first = Schedule::fresh(keys, edges).begin();
    lemma_fresh_inv(keys, edges);
    lemma_begin(Schedule::fresh(keys, edges));
    let spared = set![a, b];
    let completions = lemma_drain_sparing(first, spared);
    let last = first.after(completions);
    lemma_run(first, completions);
    lemma_held_up(last, a);
    lemma_held_up(last, b);
    completions
}

/// Independence, with one key ahead: over acyclic edges a key `a` that `b`
/// does not reach can finish while `b` has not finished. The reports returned
/// are an accepted run in which `a` reports and `b` does not.
pub proof fn lemma_can_finish_before(keys: Set<u64>, edges: Seq<(u64, u64)>, a: u64, b: u64) -> (completions: Seq<u64>)
    requires
        keys.finite(),
        endpoints_known(keys, edges),
        acyclic(edges),
        keys.contains(a),
        a != b,
        !reaches(edges, b, a),
    ensures
        Schedule::fresh(keys, edges).begin().accepts(completions),
        completions.contains(a),
        !completions.contains(b),
{
    let first = Schedule::fresh(keys, edges).begin();
    lemma_fresh_inv(keys, edges);
    lemma_begin(Schedule::fresh(keys, edges));
    let spared = set![b];
    let completions = lemma_drain_sparing(first, spared);
    let last = first.after(completions);
    lemma_run(first, completions);
    if !last.finished.contains(a) {
        lemma_held_up(last, a);
        assert(last.in_flight().contains(b));
    }
    completions
}

/// Reporting `first` and then `rest` is reporting `rest` from the state that
/// `first` leaves.
proof fn lemma_after_prepend(s: Schedule, first: u64, rest: Seq<u64>)
    ensures
        s.after(seq![first] + rest) == s.complete(first).after(rest),
    decreases rest.len(),
{
    let all = seq![first] + rest;
    if rest.len() == 0 {
        assert(all.drop_last() =~= Seq::<u64>::empty());
        assert(s.after(all.drop_last()) == s);
    } else {
        assert(all.drop_last() =~= seq![first] + rest.drop_last());
        lemma_after_prepend(s, first, rest.drop_last());
    }
}

/// A run that goes on for as long as some key outside `spared` is in flight:
/// in the end, only spared keys are.
proof fn lemma_drain_sparing(s: Schedule, spared: Set<u64>) -> (completions: Seq<u64>)
    requires
        s.inv(),
        s.begun,
    ensures
        s.accepts(completions),
        forall|i: int| 0 <= i < completions.len() ==> !spared.contains(#[trigger] completions[i]),
        s.after(completions).in_flight().subset_of(spared),
    decreases s.keys.difference(s.finished).len(),
{
    if exists|key: u64| s.in_flight().contains(key) && !spared.contains(key) {
        let key = choose|key: u64| s.in_flight().contains(key) && !spared.contains(key);
        let next = s.complete(key);
        lemma_complete(s, key);
        assert(next.keys.difference(next.finished) =~= s.keys.difference(s.finished).remove(key));
        let rest = lemma_drain_sparing(next, spared);
        let completions = seq![key] + rest;
        lemma_after_prepend(s, key, rest);
        assert forall|i: int| 0 <= i < completions.len() implies (#[trigger] s.after(
            completions.take(i),
        )).in_flight().contains(completions[i]) by {
            if i > 0 {
                assert(completions.take(i) =~= seq![key] + rest.take(i - 1));
                lemma_after_prepend(s, key, rest.take(i - 1));
            }
        }
        completions
    } else {
        Seq::empty()
    }
}

/// Along a path that ends in a started key, every earlier key has finished.
proof fn lemma_upstream_finished(s: Schedule, path: Seq<u64>, i: int)
    requires
        s.inv(),
        is_path(s.edges, path),
        s.started().contains(path.last()),
        0 <= i < path.len() - 1,
    ensures
        s.finished.contains(path[i]),
    decreases path.len() - i,
{
    if i + 1 < path.len() - 1 {
        lemma_upstream_finished(s, path, i + 1);
    }
    assert(s.edges.contains(hop(path, i)));
    lemma_subject_finishes_first(s, path[i], path[i + 1]);
}

/// The unfinished prerequisite that the schedule picks for a key.
spec fn blocker(s: Schedule, key: u64) -> u64 {
    choose|subject: u64| s.pending(key).contains(subject)
}

/// A walk against the edges that starts at `key` and takes `steps` steps, each
/// to the picked unfinished prerequisite; written in the direction of the
/// edges, so that it ends in `key`.
spec fn holdup(s: Schedule, key: u64, steps: nat) -> Seq<u64>
    decreases steps,
{
    if steps == 0 {
        seq![key]
    } else {
        let shorter = holdup(s, key, (steps - 1) as nat);
        seq![blocker(s, shorter.first())] + shorter
    }
}

/// Nothing in flight holds `key` up: no key in flight is `key` or reaches it.
spec fn unheld(s: Schedule, key: u64) -> bool {
    &&& !s.in_flight().contains(key)
    &&& forall|holder: u64|
        s.in_flight().contains(holder) ==> !#[trigger] reaches(s.edges, holder, key)
}

/// While nothing in flight holds `key` up, the walk goes on: it is a path to
/// `key` through keys that have not started.
proof fn lemma_holdup(s: Schedule, key: u64, steps: nat)
    requires
        s.inv(),
        s.begun,
        s.keys.contains(key),
        !s.finished.contains(key),
        unheld(s, key),
    ensures
        holdup(s, key, steps).len() == steps + 1,
        is_path(s.edges, holdup(s, key, steps)),
        holdup(s, key, steps).last() == key,
        forall|i: int|
            0 <= i <= steps ==> s.keys.contains(#[trigger] holdup(s, key, steps)[i])
                && !s.started().contains(holdup(s, key, steps)[i]),
    decreases steps,
{
    let walk = holdup(s, key, steps);
    if steps > 0 {
        let shorter = holdup(s, key, (steps - 1) as nat);
        lemma_holdup(s, key, (steps - 1) as nat);
        let head = shorter.first();
        let subject = blocker(s, head);
        assert(s.pending(head).contains(subject));
        let e = choose|e: int| 0 <= e < s.edges.len() && s.edges[e] == (subject, head);
        assert(s.keys.contains(s.edges[e].0));
        assert(is_path(s.edges, walk)) by {
            assert forall|i: int| 0 <= i < walk.len() - 1 implies s.edges.contains(
                #[trigger] hop(walk, i),
            ) by {
                if i > 0 {
                    assert(hop(walk, i) == hop(shorter, i - 1));
                }
            }
        }
        if s.started().contains(subject) {
            assert(reaches(s.edges, subject, key));
        }
    }
}

/// In a run over acyclic edges every unfinished key is held up by a key in
/// flight: it is in flight itself, or some key in flight reaches it.
pub proof fn lemma_held_up(s: Schedule, key: u64)
    requires
        s.inv(),
        s.begun,
        acyclic(s.edges),
        s.keys.contains(key),
        !s.finished.contains(key),
    ensures
        exists|holder: u64|
            s.in_flight().contains(holder) && (holder == key || reaches(s.edges, holder, key)),
{
    if unheld(s, key) {
        let steps = s.keys.len();
        let walk = holdup(s, key, steps);
        lemma_holdup(s, key, steps);
        lemma_len_subset(walk.to_set(), s.keys);
        if walk.no_duplicates() {
            walk.unique_seq_to_set();
        } else {
            let (i, j) = choose|i: int, j: int|
                0 <= i < walk.len() && 0 <= j < walk.len() && i != j && walk[i] == walk[j];
            let (low, high) = if i < j {
                (i, j)
            } else {
                (j, i)
            };
            let cycle = walk.subrange(low, high + 1);
            assert(is_path(s.edges, cycle)) by {
                assert forall|n: int| 0 <= n < cycle.len() - 1 implies s.edges.contains(
                    #[trigger] hop(cycle, n),
                ) by {
                    assert(hop(cycle, n) == hop(walk, low + n));
                }
            }
            assert(reaches(s.edges, walk[low], walk[low]));
        }
    }
}

} // verus!
