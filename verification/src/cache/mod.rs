pub mod engine;
pub mod persistence;

pub use engine::CacheEngine;
pub use persistence::CacheMetadata;

use crate::models::TaskDefinition;
use vstd::prelude::*;

verus! {

/// A task's result can be reused only when it declares both inputs and outputs.
pub open spec fn cacheable(task: TaskDefinition) -> bool {
    task.inputs@.len() > 0 && task.outputs@.len() > 0
}

/// Whether a task's result can be taken from the cache: only a task that declares both
/// inputs and outputs is considered.
pub fn is_task_cacheable(task_def: &TaskDefinition) -> (c: bool)
    ensures
        c == cacheable(*task_def),
{
    !task_def.inputs.is_empty() && !task_def.outputs.is_empty()
}

} // verus!
