//! The bookkeeping record that the executor keeps for each key.

use std::collections::HashSet;
use vstd::prelude::*;

use crate::model::dependents;
use crate::model::Schedule;

verus! {

/// What the executor knows of one key.
#[derive(Debug)]
pub struct NodeInfo {
    /// The prerequisites that have not finished yet. The key may start when
    /// this set is empty.
    pub depends_on: HashSet<u64>,
    /// The keys to look at when this key finishes. Fixed at construction.
    pub depended_on_by: HashSet<u64>,
    /// Set at construction to `false` and never changed: a failed run is not
    /// told apart from a successful one.
    pub failed: bool,
    /// The priority that the node gave at construction. Scheduling does not
    /// read it.
    pub priority: u64,
}

/// `infos` is the dependency index of `schedule`: it has a record for each key
/// and for no other, each record holds the unfinished prerequisites and all
/// the dependents of its key, and no record is marked as failed.
pub open spec fn indexes(infos: Map<u64, NodeInfo>, schedule: Schedule) -> bool {
    &&& infos.dom() == schedule.keys
    &&& forall|key: u64| #[trigger]
        infos.contains_key(key) ==> {
            &&& infos[key].depends_on@ == schedule.pending(key)
            &&& infos[key].depended_on_by@ == dependents(schedule.edges, key)
            &&& !infos[key].failed
        }
}

} // verus!
