//! The scheduler facade: accepts submissions, keeps one election loop per
//! resource, and models the control channel of the background poller. The
//! caller (which owns the filesystem and the polling thread) scans each
//! resource's directory, feeds the scan to `tick_resource`, and performs the
//! returned action.

use vstd::prelude::*;
use vstd::string::StringExecFns;

use crate::candidate::ScanEntry;
use crate::election::{any_candidate, distinct_filenames, elected_head, is_elected, CandView};
use crate::resource_scheduler::{tick_transition, ResourceScheduler, TickAction};
use crate::root::{claimed_of, owns, SchedulerRoot, TaskFile};
use crate::task::{Executable, Resource, Task};
use crate::task_ident::{spec_filename, TaskIdent, TaskIdentView};

verus! {

/// How often, in milliseconds, the poller runs by default.
pub const POLL_INTERVAL_MS: u64 = 100;

/// Data attached to a submission; reserved.
pub struct ScheduleData {}

/// `stop` found the control channel already closed: the worker is gone.
pub struct ChannelClosed;

/// The per-process scheduler.
pub struct Scheduler<R, E> {
    pub root: SchedulerRoot<E>,
    pub resource_schedulers: Vec<ResourceScheduler<R>>,
    /// A control channel exists: `start` has been called.
    pub control_active: bool,
    /// The worker has not yet been told to stop.
    pub worker_live: bool,
    pub poll_interval: u64,
}

impl<R: Resource + Copy, E> Scheduler<R, E> {
    /// The facade invariant: the ledger invariant, and one loop per resource
    /// directory.
    pub open spec fn wf(self) -> bool {
        &&& self.root.wf()
        &&& forall|i: int, j: int|
            0 <= i < j < self.resource_schedulers@.len() ==> (
            #[trigger] self.resource_schedulers@[i]).dir_id@ != (
            #[trigger] self.resource_schedulers@[j]).dir_id@
    }

    /// A scheduler polling at the default interval. The caller creates the
    /// root directory on disk.
    pub fn new() -> (r: Scheduler<R, E>)
        ensures
            r.wf(),
            r.root.own_tasks@.len() == 0,
            r.root.task_files@.len() == 0,
            r.root.ident_counter == 0,
            r.resource_schedulers@.len() == 0,
            !r.control_active,
            !r.worker_live,
            r.poll_interval == POLL_INTERVAL_MS,
    {
        Self::new_with_poll_interval(POLL_INTERVAL_MS)
    }

    /// A scheduler polling every `poll_interval` milliseconds.
    pub fn new_with_poll_interval(poll_interval: u64) -> (r: Scheduler<R, E>)
        ensures
            r.wf(),
            r.root.own_tasks@.len() == 0,
            r.root.task_files@.len() == 0,
            r.root.ident_counter == 0,
            r.resource_schedulers@.len() == 0,
            !r.control_active,
            !r.worker_live,
            r.poll_interval == poll_interval,
    {
        Scheduler {
            root: SchedulerRoot::new(),
            resource_schedulers: Vec::new(),
            control_active: false,
            worker_live: false,
            poll_interval,
        }
    }

    /// Opens the control channel: the caller spawns the polling worker.
    pub fn start(&mut self)
        ensures
            final(self).control_active,
            final(self).worker_live,
            final(self).root == old(self).root,
            final(self).resource_schedulers == old(self).resource_schedulers,
            final(self).poll_interval == old(self).poll_interval,
    {
        self.control_active = true;
        self.worker_live = true;
    }

    /// Signals the worker to stop. Succeeds if no worker was ever started or
    /// if the live worker takes the signal; fails with `ChannelClosed` once
    /// the worker is gone, and changes nothing then.
    pub fn stop(&mut self) -> (r: Result<(), ChannelClosed>)
        ensures
            final(self).root == old(self).root,
            final(self).resource_schedulers == old(self).resource_schedulers,
            final(self).control_active == old(self).control_active,
            final(self).poll_interval == old(self).poll_interval,
            r is Ok == (!old(self).control_active || old(self).worker_live),
            !final(self).worker_live == (old(self).control_active || !old(self).worker_live),
    {
        if !self.control_active {
            return Ok(());
        }
        if self.worker_live {
            self.worker_live = false;
            return Ok(());
        }
        Err(ChannelClosed)
    }

    /// Makes sure an election loop exists for this resource, keyed by its
    /// directory id; at most one loop per directory. Returns the resource's
    /// directory id: afterwards some loop carries it, and a newly created
    /// loop holds this resource with no reaper memory.
    pub fn ensure_resource_scheduler(&mut self, resource: R) -> (d: String)
        requires
            old(self).wf(),
        ensures
            final(self).wf(),
            final(self).root == old(self).root,
            final(self).control_active == old(self).control_active,
            final(self).worker_live == old(self).worker_live,
            final(self).poll_interval == old(self).poll_interval,
            final(self).resource_schedulers@.len() >= old(self).resource_schedulers@.len(),
            forall|i: int|
                0 <= i < old(self).resource_schedulers@.len() ==> #[trigger] final(self).resource_schedulers@[i] == old(self).resource_schedulers@[i],
            exists|j: int|
                0 <= j < final(self).resource_schedulers@.len() && (#[trigger] final(self).resource_schedulers@[j]).dir_id@ == d@,
            final(self).resource_schedulers@.len() > old(self).resource_schedulers@.len() ==> {
                &&& final(self).resource_schedulers@.len() == old(self).resource_schedulers@.len()
                    + 1
                &&& final(self).resource_schedulers@.last().resource == resource
                &&& final(self).resource_schedulers@.last().dir_id@ == d@
                &&& final(self).resource_schedulers@.last().previous is None
            },
    {
        let dir_id = resource.dir_id();
        let mut i: usize = 0;
        while i < self.resource_schedulers.len()
            invariant
                i <= self.resource_schedulers@.len(),
                old(self).wf(),
                *self == *old(self),
                forall|j: int|
                    0 <= j < i ==> (#[trigger] self.resource_schedulers@[j]).dir_id@ != dir_id@,
            decreases self.resource_schedulers@.len() - i,
        {
            if self.resource_schedulers[i].dir_id == dir_id {
                proof {
                    assert((self.resource_schedulers@[i as int]).dir_id@ == dir_id@);
                }
                return dir_id;
            }
            i = i + 1;
        }
        self.resource_schedulers.push(ResourceScheduler::new(resource, dir_id.clone()));
        proof {
            assert forall|i: int, j: int|
                0 <= i < j < self.resource_schedulers@.len() implies (
            #[trigger] self.resource_schedulers@[i]).dir_id@ != (
            #[trigger] self.resource_schedulers@[j]).dir_id@ by {
                if j == self.resource_schedulers@.len() - 1 {
                    assert(self.resource_schedulers@[i] == old(self).resource_schedulers@[i]);
                }
            }
            assert((self.resource_schedulers@.last()).dir_id@ == dir_id@);
        }
        dir_id
    }

    /// Accepts a submission: makes sure a loop exists for each listed
    /// resource, allocates the next identity, and records one enqueuement per
    /// distinct resource directory. Returns the records whose files the
    /// caller must now create and shared-lock on disk, in `dir/filename`
    /// form.
    pub fn schedule(&mut self, priority: usize, name: &str, executable: E, resources: &Vec<R>) -> (
        r: Vec<TaskFile>)
        requires
            old(self).wf(),
            old(self).root.ident_counter < usize::MAX,
        ensures
            final(self).wf(),
            final(self).root.ident_counter == old(self).root.ident_counter + 1,
            final(self).root.process_id == old(self).root.process_id,
            final(self).root.task_files@ == old(self).root.task_files@ + r@,
            forall|k: int|
                0 <= k < r@.len() ==> (#[trigger] r@[k]).ident@ == (TaskIdentView {
                    priority: priority as int,
                    name: name@,
                    id: old(self).root.ident_counter as int,
                    process_id: old(self).root.process_id@,
                }) && r@[k].filename@ == spec_filename(r@[k].ident@),
            resources@.len() == 0 ==> r@.len() == 0 && final(self).root.own_tasks@ == old(
                self,
            ).root.own_tasks@,
            resources@.len() > 0 ==> r@.len() >= 1 && final(self).root.own_tasks@.len() == old(
                self,
            ).root.own_tasks@.len() + 1 && (final(self).root.own_tasks@.last().ident@
                == (TaskIdentView {
                priority: priority as int,
                name: name@,
                id: old(self).root.ident_counter as int,
                process_id: old(self).root.process_id@,
            })) && !final(self).root.own_tasks@.last().claimed && forall|i: int|
                0 <= i < old(self).root.own_tasks@.len() ==> final(self).root.own_tasks@[i] == old(
                    self,
                ).root.own_tasks@[i],
            final(self).resource_schedulers@.len() >= old(self).resource_schedulers@.len(),
            forall|i: int|
                0 <= i < old(self).resource_schedulers@.len() ==> #[trigger] final(self).resource_schedulers@[i] == old(self).resource_schedulers@[i],
            forall|k: int|
                #![trigger r@[k]]
                0 <= k < r@.len() ==> exists|j: int|
                    0 <= j < final(self).resource_schedulers@.len() && (#[trigger] final(self).resource_schedulers@[j]).dir_id@ == r@[k].dir_id@,
    {
        let mut dir_ids: Vec<String> = Vec::new();
        let mut i: usize = 0;
        while i < resources.len()
            invariant
                old(self).wf(),
                self.wf(),
                self.root == old(self).root,
                i <= resources@.len(),
                dir_ids@.len() <= i,
                i > 0 ==> dir_ids@.len() >= 1,
                forall|a: int, b: int|
                    0 <= a < b < dir_ids@.len() ==> (#[trigger] dir_ids@[a])@ != (
                    #[trigger] dir_ids@[b])@,
                self.resource_schedulers@.len() >= old(self).resource_schedulers@.len(),
                forall|a: int|
                    0 <= a < old(self).resource_schedulers@.len() ==> #[trigger] self.resource_schedulers@[a] == old(self).resource_schedulers@[a],
                forall|a: int|
                    #![trigger dir_ids@[a]]
                    0 <= a < dir_ids@.len() ==> exists|j: int|
                        0 <= j < self.resource_schedulers@.len() && (#[trigger] self.resource_schedulers@[j]).dir_id@ == dir_ids@[a]@,
            decreases resources@.len() - i,
        {
            let ghost pre_rs = self.resource_schedulers@;
            // one dir_id call per resource, reused for the registration, the
            // dedup and the record
            let d = self.ensure_resource_scheduler(resources[i]);
            proof {
                assert forall|a: int| #![trigger dir_ids@[a]] 0 <= a < dir_ids@.len() implies
                    exists|j: int|
                    0 <= j < self.resource_schedulers@.len() && (
                    #[trigger] self.resource_schedulers@[j]).dir_id@ == dir_ids@[a]@ by {
                    let j0 = choose|j: int|
                        0 <= j < pre_rs.len() && (#[trigger] pre_rs[j]).dir_id@ == dir_ids@[a]@;
                    assert(self.resource_schedulers@[j0] == pre_rs[j0]);
                }
                assert forall|a: int| 0 <= a < old(self).resource_schedulers@.len() implies
                    #[trigger] self.resource_schedulers@[a] == old(self).resource_schedulers@[a] by {
                    assert(self.resource_schedulers@[a] == pre_rs[a]);
                }
            }
            let mut seen = false;
            let mut j: usize = 0;
            while j < dir_ids.len()
                invariant
                    j <= dir_ids@.len(),
                    seen == exists|b: int| 0 <= b < j && (#[trigger] dir_ids@[b])@ == d@,
                decreases dir_ids@.len() - j,
            {
                if dir_ids[j] == d {
                    seen = true;
                    proof {
                        assert(exists|b: int| 0 <= b < j + 1 && (#[trigger] dir_ids@[b])@ == d@);
                    }
                }
                j = j + 1;
            }
            if !seen {
                dir_ids.push(d);
            } else {
                proof {
                    assert(dir_ids@.len() >= 1);
                }
            }
            i = i + 1;
        }
        let ghost rs_after = self.resource_schedulers@;
        proof {
            assert forall|a: int| #![trigger dir_ids@[a]] 0 <= a < dir_ids@.len() implies exists|
                j: int,
            | 0 <= j < rs_after.len() && (#[trigger] rs_after[j]).dir_id@ == dir_ids@[a]@ by {
                let j0 = choose|j: int|
                    0 <= j < self.resource_schedulers@.len() && (
                    #[trigger] self.resource_schedulers@[j]).dir_id@ == dir_ids@[a]@;
                assert(0 <= j0 < rs_after.len() && rs_after[j0].dir_id@ == dir_ids@[a]@);
            }
        }
        let ident = self.root.new_ident(priority, name.to_owned());
        let task = Task::new(executable);
        let files = self.root.schedule(ident, task, &dir_ids);
        proof {
            assert(self.resource_schedulers@ == rs_after);
            assert forall|k: int| #![trigger files@[k]] 0 <= k < files@.len() implies exists|
                j: int,
            |
                0 <= j < self.resource_schedulers@.len() && (
                #[trigger] self.resource_schedulers@[j]).dir_id@ == files@[k].dir_id@ by {
                assert(files@[k].dir_id == dir_ids@[k]);
                let j0 = choose|j: int|
                    0 <= j < rs_after.len() && (#[trigger] rs_after[j]).dir_id@ == dir_ids@[k]@;
                assert(0 <= j0 < self.resource_schedulers@.len());
                assert((self.resource_schedulers@[j0]).dir_id@ == files@[k].dir_id@);
            }
        }
        files
    }

    /// Forgets a task once its execution has returned (or when a submission
    /// listed no resources).
    pub fn complete(&mut self, ident: &TaskIdent)
        requires
            old(self).wf(),
            owns(old(self).root.own_tasks@, ident@) ==> claimed_of(
                old(self).root.own_tasks@,
                ident@,
            ),
        ensures
            final(self).wf(),
            !owns(final(self).root.own_tasks@, ident@),
            final(self).root.process_id == old(self).root.process_id,
            final(self).root.ident_counter == old(self).root.ident_counter,
            final(self).resource_schedulers == old(self).resource_schedulers,
    {
        self.root.retire(ident);
    }
}

impl<R: Resource + Copy, E: Clone> Scheduler<R, E> {
    /// One tick of the election loop at index `idx`, fed with a scan of that
    /// resource's directory. The caller performs the returned action.
    pub fn tick_resource(&mut self, idx: usize, scan: &Vec<ScanEntry>) -> (a: TickAction<E>)
        requires
            old(self).wf(),
            idx < old(self).resource_schedulers@.len(),
            distinct_filenames(scan@),
        ensures
            final(self).wf(),
            final(self).resource_schedulers@.len() == old(self).resource_schedulers@.len(),
            forall|i: int|
                0 <= i < old(self).resource_schedulers@.len() && i != idx ==> final(self).resource_schedulers@[i] == old(self).resource_schedulers@[i],
            final(self).resource_schedulers@[idx as int].dir_id == old(
                self,
            ).resource_schedulers@[idx as int].dir_id,
            final(self).root.process_id == old(self).root.process_id,
            final(self).root.ident_counter == old(self).root.ident_counter,
            !any_candidate(scan@) ==> a is Idle && final(self).root == old(self).root,
            any_candidate(scan@) ==> is_elected(scan@, elected_head(scan@)),
            forall|h: CandView|
                #[trigger] is_elected(scan@, h) ==> tick_transition(
                    old(self).root,
                    final(self).root,
                    old(self).resource_schedulers@[idx as int].previous,
                    final(self).resource_schedulers@[idx as int].previous,
                    old(self).resource_schedulers@[idx as int].dir_id@,
                    h,
                    a,
                ),
    {
        let mut rs = self.resource_schedulers.remove(idx);
        let a = rs.handle_next(&mut self.root, scan);
        self.resource_schedulers.insert(idx, rs);
        proof {
            assert(self.resource_schedulers@ =~= old(self).resource_schedulers@.update(
                idx as int,
                self.resource_schedulers@[idx as int],
            ));
        }
        a
    }

    /// The number of election loops, for the caller's polling pass.
    pub fn resource_scheduler_count(&self) -> (n: usize)
        ensures
            n == self.resource_schedulers@.len(),
    {
        self.resource_schedulers.len()
    }

    /// The directory id of the loop at `idx`, for the caller's scan.
    pub fn resource_dir_id(&self, idx: usize) -> (d: String)
        requires
            idx < self.resource_schedulers@.len(),
        ensures
            d@ == self.resource_schedulers@[idx as int].dir_id@,
    {
        self.resource_schedulers[idx].dir_id.clone()
    }
}

} // verus!
