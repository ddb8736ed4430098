//! Tasks and the collaborator traits: resources, executables, and the
//! preemption hook.

use vstd::prelude::*;
use vstd::string::StringExecFns;

use crate::task_ident::TaskIdent;

verus! {

/// A named, singleton execution slot. `dir_id` must be stable, unique and
/// filesystem-safe; it names the resource's directory under the root.
pub trait Resource: Sized {
    fn dir_id(&self) -> String;

    /// Descriptive name of the resource; defaults to wrapping `dir_id`.
    fn name(&self) -> String {
        let mut s = String::new();
        s.append("Resource #");
        let id = self.dir_id();
        s.append(id.as_str());
        s
    }
}

/// The callback that runs a task's job. Preemptible executables must poll
/// `preempt.should_preempt_now` at their own cadence and return promptly when
/// it yields true.
pub trait Executable<R: Resource>: Sized {
    fn execute<P: Preemption<R>>(&self, preempt: &P);

    /// True if the job can be preempted; such executables must poll for
    /// preemption while executing.
    fn is_preemptible(&self) -> bool {
        false
    }
}

/// The preemption hook handed to an executing task.
pub trait Preemption<R: Resource>: Sized {
    /// True if the given task should yield now.
    fn should_preempt_now(&self, task: &TaskIdent) -> bool;
}

/// A unit of work: the executable payload of one submission.
pub struct Task<E> {
    pub executable: E,
}

impl<E> Task<E> {
    pub fn new(executable: E) -> (t: Task<E>)
        ensures
            t.executable == executable,
    {
        Task { executable }
    }
}

impl<E: Clone> Task<E> {
    /// A second handle to the same logical task, one per resource it is
    /// enqueued on.
    pub fn clone_task(&self) -> (t: Task<E>)
        ensures
            cloned(self.executable, t.executable),
    {
        Task { executable: self.executable.clone() }
    }
}

} // verus!
