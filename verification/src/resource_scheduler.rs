//! The per-resource election loop: one tick scans the resource's directory,
//! elects the head of the queue, and either executes an owned winner, waits,
//! or applies the stale-peer reaper rule.

use vstd::prelude::*;

use crate::candidate::ScanEntry;
use crate::election::{
    any_candidate, distinct_filenames, elect, elected_head, is_elected, lemma_elected_unique,
    view_of, CandView,
};
use crate::root::{claimed_of, owns, own_index, OwnTask, SchedulerRoot, TaskFile};
use crate::task::{Executable, Preemption, Resource, Task};
use crate::task_ident::{spec_filename, TaskIdent};

verus! {

/// What one tick of a resource's election loop asks its caller to do.
/// The caller owns the filesystem: it unlinks loser files, takes the resource
/// lock around the execution, and unlinks a reaped file.
pub enum TickAction<E> {
    /// Nothing to do this tick.
    Idle,
    /// This process's task won the election here: unlink the `losers`' files
    /// now, run `task` under the resource lock, then unlink `local`'s file
    /// and retire the task.
    Execute { ident: TaskIdent, task: Task<E>, losers: Vec<TaskFile>, local: Option<TaskFile> },
    /// A dead peer's record has forfeited its turn: try to unlink
    /// `filename` in this resource's directory.
    Reap { ident: TaskIdent, filename: String },
}

/// One election loop, for one (process, resource) pair.
pub struct ResourceScheduler<R> {
    pub resource: R,
    pub dir_id: String,
    /// The head seen on the last tick, with how many consecutive ticks it has
    /// been seen unlocked and foreign; the reaper's memory.
    pub previous: Option<(TaskIdent, usize)>,
}

/// The ledger kept exactly as it was.
pub open spec fn root_unchanged<E>(pre: SchedulerRoot<E>, post: SchedulerRoot<E>) -> bool {
    &&& post.process_id == pre.process_id
    &&& post.ident_counter == pre.ident_counter
    &&& post.own_tasks@ == pre.own_tasks@
    &&& post.task_files@ == pre.task_files@
}

/// What a tick does, as a relation between the ledger and reaper state before
/// and after, given the elected head `h` of the scan.
pub open spec fn tick_transition<E: Clone>(
    pre_root: SchedulerRoot<E>,
    post_root: SchedulerRoot<E>,
    pre_prev: Option<(TaskIdent, usize)>,
    post_prev: Option<(TaskIdent, usize)>,
    dir_id: Seq<char>,
    h: CandView,
    a: TickAction<E>,
) -> bool {
    if owns(pre_root.own_tasks@, h.ident) {
        if !claimed_of(pre_root.own_tasks@, h.ident) {
            // This resource claims the task and will execute it.
            &&& post_prev is None
            &&& a matches TickAction::Execute { ident, task, losers, local } && {
                &&& ident@ == h.ident
                &&& post_root.own_tasks@ == pre_root.own_tasks@.update(
                    own_index(pre_root.own_tasks@, h.ident),
                    (OwnTask {
                        ident: pre_root.own_tasks@[own_index(pre_root.own_tasks@, h.ident)].ident,
                        task: pre_root.own_tasks@[own_index(pre_root.own_tasks@, h.ident)].task,
                        claimed: true,
                    }),
                )
                &&& forall|k: int|
                    0 <= k < losers@.len() ==> (#[trigger] losers@[k]).ident@ == h.ident
                        && losers@[k].dir_id@ != dir_id && pre_root.task_files@.contains(
                        losers@[k],
                    )
                &&& forall|j: int|
                    0 <= j < pre_root.task_files@.len() && (#[trigger] pre_root.task_files@[j]).ident@
                        == h.ident && pre_root.task_files@[j].dir_id@ != dir_id
                        ==> losers@.contains(pre_root.task_files@[j])
                &&& forall|k: int|
                    0 <= k < post_root.task_files@.len() ==> pre_root.task_files@.contains(
                        #[trigger] post_root.task_files@[k],
                    ) && !(post_root.task_files@[k].ident@ == h.ident
                        && post_root.task_files@[k].dir_id@ != dir_id)
                &&& forall|j: int|
                    0 <= j < pre_root.task_files@.len() && !((#[trigger] pre_root.task_files@[j]).ident@
                        == h.ident && pre_root.task_files@[j].dir_id@ != dir_id)
                        ==> post_root.task_files@.contains(pre_root.task_files@[j])
                &&& cloned(
                    pre_root.own_tasks@[own_index(pre_root.own_tasks@, h.ident)].task.executable,
                    task.executable,
                )
                &&& match local {
                    Some(f) => f.ident@ == h.ident && f.dir_id@ == dir_id
                        && pre_root.task_files@.contains(f),
                    None => forall|j: int|
                        0 <= j < pre_root.task_files@.len() ==> !((#[trigger] pre_root.task_files@[j]).ident@
                            == h.ident && pre_root.task_files@[j].dir_id@ == dir_id),
                }
            }
        } else {
            // A sibling resource already claimed it; it will clean up.
            &&& a is Idle
            &&& root_unchanged(pre_root, post_root)
            &&& post_prev == pre_prev
        }
    } else if h.locked {
        // A live peer's task: leave it alone and forget any streak.
        &&& a is Idle
        &&& root_unchanged(pre_root, post_root)
        &&& post_prev is None
    } else {
        // A foreign, unlocked head: the reaper rule.
        &&& root_unchanged(pre_root, post_root)
        &&& match pre_prev {
            None => a is Idle && (post_prev matches Some(p) && p.0@ == h.ident && p.1 == 1),
            Some(p) => if p.0@ == h.ident && p.1 >= 2 {
                (a matches TickAction::Reap { ident, filename } && ident@ == h.ident && filename@
                    == spec_filename(h.ident)) && post_prev is None
            } else if p.0@ == h.ident {
                a is Idle && (post_prev matches Some(q) && q.0@ == h.ident && q.1 == p.1 + 1)
            } else {
                a is Idle && post_prev is None
            },
        }
    }
}

impl<R: Resource> ResourceScheduler<R> {
    /// One loop for `resource`, whose directory is named by `dir_id`, with no
    /// reaper memory yet.
    pub fn new(resource: R, dir_id: String) -> (r: ResourceScheduler<R>)
        ensures
            r.resource == resource,
            r.dir_id == dir_id,
            r.previous is None,
    {
        ResourceScheduler { resource, dir_id, previous: None }
    }

    /// One tick of the election loop. The caller passes what it saw in the
    /// resource's directory (a real directory listing: filenames distinct)
    /// and performs the returned action; the ledger and the reaper memory
    /// advance by `tick_transition`.
    pub fn handle_next<E: Clone>(
        &mut self,
        root: &mut SchedulerRoot<E>,
        scan: &Vec<ScanEntry>,
    ) -> (a: TickAction<E>)
        requires
            old(root).wf(),
            distinct_filenames(scan@),
        ensures
            final(root).wf(),
            final(self).resource == old(self).resource,
            final(self).dir_id == old(self).dir_id,
            final(root).process_id == old(root).process_id,
            final(root).ident_counter == old(root).ident_counter,
            !any_candidate(scan@) ==> a is Idle && final(self).previous is None && *final(root)
                == *old(root),
            any_candidate(scan@) ==> is_elected(scan@, elected_head(scan@)),
            forall|h: CandView|
                #[trigger] is_elected(scan@, h) ==> tick_transition(
                    *old(root),
                    *final(root),
                    old(self).previous,
                    final(self).previous,
                    old(self).dir_id@,
                    h,
                    a,
                ),
    {
        let head = match elect(scan) {
            Some(h) => h,
            None => {
                self.previous = None;
                return TickAction::Idle;
            },
        };
        let ghost hv = view_of(head);
        proof {
            assert(is_elected(scan@, hv));
            assert(is_elected(scan@, elected_head(scan@))) by {
                assert(exists|h: CandView| is_elected(scan@, h));
            }
        }
        if root.owns_task(&head.ident) {
            if root.claim(&head.ident) {
                self.previous = None;
                let (losers, local) = root.take_losers(&head.ident, &self.dir_id);
                let ghost idx = own_index(old(root).own_tasks@, head.ident@);
                proof {
                    assert(own_index(root.own_tasks@, head.ident@) == idx) by {
                        let k = own_index(root.own_tasks@, head.ident@);
                        assert(root.own_tasks@[idx].ident@ == head.ident@);
                        assert(0 <= k < root.own_tasks@.len() && root.own_tasks@[k].ident@
                            == head.ident@);
                        if k != idx {
                            assert(root.own_tasks@[if k < idx {
                                k
                            } else {
                                idx
                            }].ident@ != root.own_tasks@[if k < idx {
                                idx
                            } else {
                                k
                            }].ident@);
                        }
                    }
                    assert(root.own_tasks@[idx].task == old(root).own_tasks@[idx].task);
                }
                let task = root.task_clone(&head.ident).unwrap();
                let a = TickAction::Execute { ident: head.ident, task, losers, local };
                proof {
                    assert forall|h: CandView| #[trigger] is_elected(scan@, h) implies
                        tick_transition(
                        *old(root),
                        *root,
                        old(self).previous,
                        self.previous,
                        old(self).dir_id@,
                        h,
                        a,
                    ) by {
                        lemma_elected_unique(scan@, h, hv);
                    }
                }
                return a;
            } else {
                proof {
                    assert forall|h: CandView| #[trigger] is_elected(scan@, h) implies
                        tick_transition(
                        *old(root),
                        *root,
                        old(self).previous,
                        self.previous,
                        old(self).dir_id@,
                        h,
                        TickAction::Idle,
                    ) by {
                        lemma_elected_unique(scan@, h, hv);
                    }
                }
                return TickAction::Idle;
            }
        }
        if head.locked {
            self.previous = None;
            proof {
                assert forall|h: CandView| #[trigger] is_elected(scan@, h) implies tick_transition(
                    *old(root),
                    *root,
                    old(self).previous,
                    self.previous,
                    old(self).dir_id@,
                    h,
                    TickAction::Idle,
                ) by {
                    lemma_elected_unique(scan@, h, hv);
                }
            }
            return TickAction::Idle;
        }
        let (have_prev, same, count) = match &self.previous {
            Some(pair) => (true, pair.0 == head.ident, pair.1),
            None => (false, false, 0),
        };
        if have_prev && same && count >= 2 {
            self.previous = None;
            let filename = head.ident.to_filename();
            let a = TickAction::Reap { ident: head.ident, filename };
            proof {
                assert forall|h: CandView| #[trigger] is_elected(scan@, h) implies tick_transition(
                    *old(root),
                    *root,
                    old(self).previous,
                    self.previous,
                    old(self).dir_id@,
                    h,
                    a,
                ) by {
                    lemma_elected_unique(scan@, h, hv);
                }
            }
            return a;
        } else if have_prev && same {
            self.previous = Some((head.ident, count + 1));
        } else if have_prev {
            self.previous = None;
        } else {
            self.previous = Some((head.ident, 1));
        }
        proof {
            assert forall|h: CandView| #[trigger] is_elected(scan@, h) implies tick_transition(
                *old(root),
                *root,
                old(self).previous,
                self.previous,
                old(self).dir_id@,
                h,
                TickAction::Idle,
            ) by {
                lemma_elected_unique(scan@, h, hv);
            }
        }
        TickAction::Idle
    }

    /// Runs an executable on this resource's behalf, handing it this loop as
    /// its preemption hook. The caller holds the resource lock around this
    /// call.
    pub fn perform_task<E: Executable<R>>(&self, task: &Task<E>) {
        task.executable.execute(self);
    }
}

impl<R: Resource> Preemption<R> for ResourceScheduler<R> {
    /// The preemption policy is reserved: no task is asked to yield.
    fn should_preempt_now(&self, _task: &TaskIdent) -> bool {
        false
    }
}

} // verus!
