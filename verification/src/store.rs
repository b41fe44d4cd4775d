//! What a store holds.

use crate::config::Config;
use crate::engine::{self, Engine};
use crate::model::{EventV, MutationEvent, StateV, TaskState};
use crate::strmap::StrMap;
use vstd::prelude::*;

verus! {

/// A store as it was read: its configuration, the compacted tasks, and the log
/// of the events since.
pub struct Store {
    pub config: Config,
    pub baseline: Vec<TaskState>,
    pub mutations: Vec<MutationEvent>,
}

impl Store {
    /// The log in the model.
    pub open spec fn log(&self) -> Seq<EventV> {
        self.mutations.deep_view()
    }

    /// The tasks before the log.
    pub open spec fn base(&self) -> StateV {
        engine::baseline_state(self.baseline.deep_view())
    }

    /// The status that marks a task complete.
    pub open spec fn done(&self) -> Seq<char> {
        self.config.workflow.done_status@
    }

    /// The tasks as the log leaves them.
    pub open spec fn state(&self) -> StateV {
        engine::replay(self.base(), self.log(), self.done())
    }
}

/// The tasks that a baseline and a log make, under the configured done status.
pub fn materialize(
    config: &Config,
    baseline: &Vec<TaskState>,
    log: &Vec<MutationEvent>,
) -> (r: StrMap<
    TaskState,
>)
    ensures
        r@ == engine::replay(
            engine::baseline_state(baseline.deep_view()),
            log.deep_view(),
            config.workflow.done_status@,
        ),
{
    Engine::materialize_state(baseline, log, config.workflow.done_status.as_str())
}

} // verus!
