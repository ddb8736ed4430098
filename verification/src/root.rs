//! The process-wide ledger: which tasks this process owns, and which on-disk
//! records it has enqueued for them.

use vstd::prelude::*;

use crate::process::random_process_token;
use crate::task::Task;
use crate::task_ident::{spec_filename, TaskIdent, TaskIdentView};

verus! {

/// The ledger's view of one on-disk task record: which task, under which
/// resource directory, and under what filename.
pub struct TaskFile {
    pub ident: TaskIdent,
    pub dir_id: String,
    pub filename: String,
}

impl TaskFile {
    /// The filename really encodes the identity.
    pub open spec fn wf(self) -> bool {
        &&& self.ident@.wf()
        &&& self.filename@ == spec_filename(self.ident@)
    }
}

impl Clone for TaskFile {
    fn clone(&self) -> (r: Self)
        ensures
            r == *self,
    {
        TaskFile {
            ident: self.ident.clone(),
            dir_id: self.dir_id.clone(),
            filename: self.filename.clone(),
        }
    }
}

/// One task owned by this process: its identity, its payload, and whether a
/// resource has already claimed it for execution.
pub struct OwnTask<E> {
    pub ident: TaskIdent,
    pub task: Task<E>,
    pub claimed: bool,
}

/// Does some entry of `s` carry the identity `v`?
pub open spec fn owns<E>(s: Seq<OwnTask<E>>, v: TaskIdentView) -> bool {
    exists|i: int| 0 <= i < s.len() && (#[trigger] s[i]).ident@ == v
}

/// The index of the entry carrying `v` (meaningful only when `owns` holds and
/// entries are unique).
pub open spec fn own_index<E>(s: Seq<OwnTask<E>>, v: TaskIdentView) -> int {
    choose|i: int| 0 <= i < s.len() && (#[trigger] s[i]).ident@ == v
}

/// Whether the entry carrying `v` has been claimed by a resource.
pub open spec fn claimed_of<E>(s: Seq<OwnTask<E>>, v: TaskIdentView) -> bool {
    s[own_index(s, v)].claimed
}

/// Does some record of `files` carry the identity `v`?
pub open spec fn has_file(files: Seq<TaskFile>, v: TaskIdentView) -> bool {
    exists|i: int| 0 <= i < files.len() && (#[trigger] files[i]).ident@ == v
}

/// The per-process scheduler state: the root of the ledger.
pub struct SchedulerRoot<E> {
    /// This process's random token; the `process_id` of every task it owns.
    pub process_id: String,
    /// The next sequence number to hand out.
    pub ident_counter: usize,
    /// The tasks this process has submitted and not yet retired.
    pub own_tasks: Vec<OwnTask<E>>,
    /// One record per (task, resource directory) still enqueued on disk.
    pub task_files: Vec<TaskFile>,
}

impl<E> SchedulerRoot<E> {
    /// The ledger invariant: the token is separator-free; owned identities
    /// are well-formed, carry this process's token, sit below the sequence
    /// counter, and are pairwise distinct; every record belongs to an owned
    /// task; and every unclaimed task still has at least one record.
    pub open spec fn wf(self) -> bool {
        &&& self.process_id@.len() >= 1
        &&& forall|i: int| 0 <= i < self.process_id@.len() ==> #[trigger] self.process_id@[i]
            != '-'
        &&& forall|i: int|
            0 <= i < self.own_tasks@.len() ==> {
                &&& (#[trigger] self.own_tasks@[i]).ident@.wf()
                &&& self.own_tasks@[i].ident@.process_id == self.process_id@
                &&& self.own_tasks@[i].ident@.id < self.ident_counter
            }
        &&& forall|i: int, j: int|
            0 <= i < j < self.own_tasks@.len() ==> (#[trigger] self.own_tasks@[i]).ident@ != (
            #[trigger] self.own_tasks@[j]).ident@
        &&& forall|i: int|
            0 <= i < self.task_files@.len() ==> (#[trigger] self.task_files@[i]).wf() && owns(
                self.own_tasks@,
                self.task_files@[i].ident@,
            )
        &&& forall|i: int|
            0 <= i < self.own_tasks@.len() && !(#[trigger] self.own_tasks@[i]).claimed
                ==> has_file(self.task_files@, self.own_tasks@[i].ident@)
    }

    /// A fresh ledger with a fresh process token and an empty ledger.
    pub fn new() -> (r: SchedulerRoot<E>)
        ensures
            r.wf(),
            r.own_tasks@.len() == 0,
            r.task_files@.len() == 0,
            r.ident_counter == 0,
            r.process_id@.len() == 10,
    {
        SchedulerRoot {
            process_id: random_process_token(),
            ident_counter: 0,
            own_tasks: Vec::new(),
            task_files: Vec::new(),
        }
    }

    /// Allocates the identity of the next submission: the monotonic sequence
    /// number, stamped with this process's token. Touches no disk.
    pub fn new_ident(&mut self, priority: usize, name: String) -> (r: TaskIdent)
        requires
            old(self).wf(),
            old(self).ident_counter < usize::MAX,
        ensures
            final(self).wf(),
            final(self).ident_counter == old(self).ident_counter + 1,
            final(self).own_tasks@ == old(self).own_tasks@,
            final(self).task_files@ == old(self).task_files@,
            final(self).process_id == old(self).process_id,
            r@ == (TaskIdentView {
                priority: priority as int,
                name: name@,
                id: old(self).ident_counter as int,
                process_id: old(self).process_id@,
            }),
            r@.wf(),
            !owns(old(self).own_tasks@, r@),
            r@.id < final(self).ident_counter,
    {
        let id = self.ident_counter;
        self.ident_counter = self.ident_counter + 1;
        let r = TaskIdent::new(priority, name, id, self.process_id.clone());
        proof {
            assert(!owns(old(self).own_tasks@, r@)) by {
                if owns(old(self).own_tasks@, r@) {
                    let i = choose|i: int|
                        0 <= i < old(self).own_tasks@.len() && (#[trigger] old(
                            self,
                        ).own_tasks@[i]).ident@ == r@;
                    assert(old(self).own_tasks@[i].ident@.id < old(self).ident_counter);
                }
            }
        }
        r
    }

    /// Records a submission: one on-disk record per listed resource
    /// directory, and one owned, unclaimed task entry (when any resource is
    /// listed at all). Returns the records whose files the caller must now
    /// create and lock on disk.
    pub fn schedule(&mut self, task_ident: TaskIdent, task: Task<E>, dir_ids: &Vec<String>) -> (
        new_files: Vec<TaskFile>)
        requires
            old(self).wf(),
            task_ident@.wf(),
            task_ident@.process_id == old(self).process_id@,
            task_ident@.id < old(self).ident_counter,
            !owns(old(self).own_tasks@, task_ident@),
            forall|i: int, j: int|
                0 <= i < j < dir_ids@.len() ==> (#[trigger] dir_ids@[i])@ != (
                #[trigger] dir_ids@[j])@,
        ensures
            final(self).wf(),
            final(self).process_id == old(self).process_id,
            final(self).ident_counter == old(self).ident_counter,
            dir_ids@.len() > 0 ==> final(self).own_tasks@ == old(self).own_tasks@.push(
                (OwnTask { ident: task_ident, task: task, claimed: false }),
            ),
            dir_ids@.len() == 0 ==> final(self).own_tasks@ == old(self).own_tasks@,
            final(self).task_files@ == old(self).task_files@ + new_files@,
            new_files@.len() == dir_ids@.len(),
            forall|k: int|
                0 <= k < new_files@.len() ==> {
                    &&& (#[trigger] new_files@[k]).ident == task_ident
                    &&& new_files@[k].dir_id == dir_ids@[k]
                    &&& new_files@[k].filename@ == spec_filename(task_ident@)
                },
    {
        let filename = task_ident.to_filename();
        let mut new_files: Vec<TaskFile> = Vec::new();
        let mut k: usize = 0;
        while k < dir_ids.len()
            invariant
                k <= dir_ids@.len(),
                new_files@.len() == k,
                filename@ == spec_filename(task_ident@),
                forall|m: int|
                    0 <= m < k ==> {
                        &&& (#[trigger] new_files@[m]).ident == task_ident
                        &&& new_files@[m].dir_id == dir_ids@[m]
                        &&& new_files@[m].filename@ == spec_filename(task_ident@)
                    },
            decreases dir_ids@.len() - k,
        {
            new_files.push(
                TaskFile {
                    ident: task_ident.clone(),
                    dir_id: dir_ids[k].clone(),
                    filename: filename.clone(),
                },
            );
            k = k + 1;
        }
        let mut m: usize = 0;
        while m < new_files.len()
            invariant
                m <= new_files@.len(),
                self.task_files@ == old(self).task_files@ + new_files@.take(m as int),
                self.own_tasks@ == old(self).own_tasks@,
                self.process_id == old(self).process_id,
                self.ident_counter == old(self).ident_counter,
            decreases new_files@.len() - m,
        {
            self.task_files.push(new_files[m].clone());
            proof {
                assert(self.task_files@ =~= old(self).task_files@ + new_files@.take(m + 1 as int));
            }
            m = m + 1;
        }
        proof {
            assert(self.task_files@ =~= old(self).task_files@ + new_files@);
        }
        if dir_ids.len() > 0 {
            self.own_tasks.push(OwnTask { ident: task_ident, task, claimed: false });
        }
        proof {
            if dir_ids@.len() > 0 {
                let t = (OwnTask { ident: task_ident, task: task, claimed: false });
                assert(self.own_tasks@ == old(self).own_tasks@.push(t) && (t.ident@).wf()
                    && t.ident@.process_id == old(self).process_id@ && t.ident@.id < old(
                    self,
                ).ident_counter && !t.claimed && !owns(old(self).own_tasks@, t.ident@) && forall|
                    k: int,
                |
                    0 <= k < new_files@.len() ==> (#[trigger] new_files@[k]).ident@ == t.ident@
                        && new_files@[k].wf());
            }
            lemma_schedule_wf(*old(self), *self, new_files@);
        }
        new_files
    }

    /// True if this process owns the task with this identity.
    pub fn owns_task(&self, ident: &TaskIdent) -> (r: bool)
        requires
            self.wf(),
        ensures
            r == owns(self.own_tasks@, ident@),
    {
        let mut i: usize = 0;
        while i < self.own_tasks.len()
            invariant
                i <= self.own_tasks@.len(),
                forall|j: int| 0 <= j < i ==> (#[trigger] self.own_tasks@[j]).ident@ != ident@,
            decreases self.own_tasks@.len() - i,
        {
            if self.own_tasks[i].ident == *ident {
                return true;
            }
            i = i + 1;
        }
        false
    }

    /// Tries to claim the owned task for one resource: the atomic act that
    /// decides which resource will run it. Succeeds exactly when the task is
    /// owned and no sibling resource has claimed it yet.
    pub fn claim(&mut self, ident: &TaskIdent) -> (r: bool)
        requires
            old(self).wf(),
        ensures
            final(self).wf(),
            final(self).process_id == old(self).process_id,
            final(self).ident_counter == old(self).ident_counter,
            final(self).task_files@ == old(self).task_files@,
            r == (owns(old(self).own_tasks@, ident@) && !claimed_of(old(self).own_tasks@, ident@)),
            r ==> final(self).own_tasks@ == old(self).own_tasks@.update(
                own_index(old(self).own_tasks@, ident@),
                (OwnTask {
                    ident: old(self).own_tasks@[own_index(old(self).own_tasks@, ident@)].ident,
                    task: old(self).own_tasks@[own_index(old(self).own_tasks@, ident@)].task,
                    claimed: true,
                }),
            ),
            !r ==> final(self).own_tasks@ == old(self).own_tasks@,
            owns(final(self).own_tasks@, ident@) == owns(old(self).own_tasks@, ident@),
            r ==> claimed_of(final(self).own_tasks@, ident@),
    {
        let mut i: usize = 0;
        while i < self.own_tasks.len()
            invariant
                i <= self.own_tasks@.len(),
                *self == *old(self),
                old(self).wf(),
                forall|j: int| 0 <= j < i ==> (#[trigger] self.own_tasks@[j]).ident@ != ident@,
            decreases self.own_tasks@.len() - i,
        {
            if self.own_tasks[i].ident == *ident {
                proof {
                    assert(own_index(old(self).own_tasks@, ident@) == i) by {
                        let k = own_index(old(self).own_tasks@, ident@);
                        assert(0 <= k < old(self).own_tasks@.len() && old(
                            self,
                        ).own_tasks@[k].ident@ == ident@);
                    }
                }
                if self.own_tasks[i].claimed {
                    return false;
                }
                let entry = self.own_tasks.remove(i);
                self.own_tasks.insert(
                    i,
                    OwnTask { ident: entry.ident, task: entry.task, claimed: true },
                );
                proof {
                    assert(self.own_tasks@ =~= old(self).own_tasks@.update(
                        i as int,
                        (OwnTask {
                            ident: old(self).own_tasks@[i as int].ident,
                            task: old(self).own_tasks@[i as int].task,
                            claimed: true,
                        }),
                    ));
                    lemma_claim_wf(*old(self), *self, ident@, i as int);
                }
                return true;
            }
            i = i + 1;
        }
        false
    }

}

impl<E: Clone> SchedulerRoot<E> {
    /// A fresh handle to the payload of an owned task, for the resource that
    /// claimed it: a clone of exactly the owned entry's executable.
    pub fn task_clone(&self, ident: &TaskIdent) -> (r: Option<Task<E>>)
        requires
            self.wf(),
        ensures
            r is Some == owns(self.own_tasks@, ident@),
            r matches Some(t) ==> cloned(
                self.own_tasks@[own_index(self.own_tasks@, ident@)].task.executable,
                t.executable,
            ),
    {
        let mut i: usize = 0;
        while i < self.own_tasks.len()
            invariant
                i <= self.own_tasks@.len(),
                self.wf(),
                forall|j: int| 0 <= j < i ==> (#[trigger] self.own_tasks@[j]).ident@ != ident@,
            decreases self.own_tasks@.len() - i,
        {
            if self.own_tasks[i].ident == *ident {
                proof {
                    assert(own_index(self.own_tasks@, ident@) == i) by {
                        let k = own_index(self.own_tasks@, ident@);
                        assert(0 <= k < self.own_tasks@.len() && self.own_tasks@[k].ident@
                            == ident@);
                    }
                }
                return Some(self.own_tasks[i].task.clone_task());
            }
            i = i + 1;
        }
        proof {
            assert(!owns(self.own_tasks@, ident@)) by {
                if owns(self.own_tasks@, ident@) {
                    let k = choose|k: int|
                        0 <= k < self.own_tasks@.len() && (#[trigger] self.own_tasks@[k]).ident@
                            == ident@;
                }
            }
        }
        None
    }
}

impl<E> SchedulerRoot<E> {
    /// Splits off the records of a claimed task that live under other
    /// resources' directories: the losers of the election, whose files the
    /// caller must now unlink. The record under `dir_id` itself, if any, is
    /// returned as the one to destroy only after the task has run.
    pub fn take_losers(&mut self, ident: &TaskIdent, dir_id: &String) -> (r: (
        Vec<TaskFile>,
        Option<TaskFile>,
    ))
        requires
            old(self).wf(),
            owns(old(self).own_tasks@, ident@) ==> claimed_of(old(self).own_tasks@, ident@),
        ensures
            final(self).wf(),
            final(self).process_id == old(self).process_id,
            final(self).ident_counter == old(self).ident_counter,
            final(self).own_tasks@ == old(self).own_tasks@,
            final(self).task_files@ == old(self).task_files@.filter(
                |f: TaskFile| !(f.ident@ == ident@ && f.dir_id@ != dir_id@),
            ),
            r.0@ == old(self).task_files@.filter(
                |f: TaskFile| f.ident@ == ident@ && f.dir_id@ != dir_id@,
            ),
            forall|k: int|
                0 <= k < r.0@.len() ==> (#[trigger] r.0@[k]).ident@ == ident@ && r.0@[k].dir_id@
                    != dir_id@ && old(self).task_files@.contains(r.0@[k]),
            forall|j: int|
                0 <= j < old(self).task_files@.len() && (#[trigger] old(
                    self,
                ).task_files@[j]).ident@ == ident@ && old(self).task_files@[j].dir_id@ != dir_id@
                    ==> r.0@.contains(old(self).task_files@[j]),
            forall|k: int|
                0 <= k < final(self).task_files@.len() ==> old(self).task_files@.contains(
                    #[trigger] final(self).task_files@[k],
                ) && !(final(self).task_files@[k].ident@ == ident@
                    && final(self).task_files@[k].dir_id@ != dir_id@),
            forall|j: int|
                0 <= j < old(self).task_files@.len() && !((#[trigger] old(
                    self,
                ).task_files@[j]).ident@ == ident@ && old(self).task_files@[j].dir_id@ != dir_id@)
                    ==> final(self).task_files@.contains(old(self).task_files@[j]),
            match r.1 {
                Some(f) => f.ident@ == ident@ && f.dir_id@ == dir_id@ && old(
                    self,
                ).task_files@.contains(f),
                None => forall|j: int|
                    0 <= j < old(self).task_files@.len() ==> !((#[trigger] old(
                        self,
                    ).task_files@[j]).ident@ == ident@ && old(self).task_files@[j].dir_id@
                        == dir_id@),
            },
    {
        let ghost keepp = |f: TaskFile| !(f.ident@ == ident@ && f.dir_id@ != dir_id@);
        let ghost losep = |f: TaskFile| f.ident@ == ident@ && f.dir_id@ != dir_id@;
        let ghost all = self.task_files@;
        let n = self.task_files.len();
        let mut kept: Vec<TaskFile> = Vec::new();
        let mut losers: Vec<TaskFile> = Vec::new();
        let mut local: Option<TaskFile> = None;
        let mut k: usize = 0;
        proof {
            assert(kept@ =~= all.take(0).filter(keepp)) by {
                reveal(Seq::filter);
                assert(all.take(0) =~= Seq::<TaskFile>::empty());
            }
            assert(losers@ =~= all.take(0).filter(losep)) by {
                reveal(Seq::filter);
                assert(all.take(0) =~= Seq::<TaskFile>::empty());
            }
        }
        while k < n
            invariant
                k <= n,
                n == all.len(),
                all == self.task_files@,
                *self == *old(self),
                kept@ == all.take(k as int).filter(keepp),
                losers@ == all.take(k as int).filter(losep),
                keepp == (|f: TaskFile| !(f.ident@ == ident@ && f.dir_id@ != dir_id@)),
                losep == (|f: TaskFile| f.ident@ == ident@ && f.dir_id@ != dir_id@),
                forall|i: int| 0 <= i < kept@.len() ==> all.contains(#[trigger] kept@[i]),
                match local {
                    Some(f) => f.ident@ == ident@ && f.dir_id@ == dir_id@ && all.contains(f),
                    None => forall|j: int|
                        0 <= j < k ==> !((#[trigger] all[j]).ident@ == ident@ && all[j].dir_id@
                            == dir_id@),
                },
            decreases n - k,
        {
            let f = self.task_files[k].clone();
            proof {
                assert(all.take(k + 1 as int) =~= all.take(k as int).push(f));
                lemma_filter_push(all.take(k as int), f, keepp);
                lemma_filter_push(all.take(k as int), f, losep);
                assert(all.contains(f)) by {
                    assert(all[k as int] == f);
                }
            }
            if f.ident == *ident && !(f.dir_id == *dir_id) {
                losers.push(f);
            } else {
                if f.ident == *ident {
                    local = Some(f.clone());
                }
                kept.push(f);
            }
            k = k + 1;
        }
        proof {
            assert(all.take(n as int) =~= all);
        }
        self.task_files = kept;
        proof {
            lemma_filter_elementwise(old(self).task_files@, keepp);
            lemma_filter_elementwise(old(self).task_files@, losep);
            assert forall|j: int|
                0 <= j < old(self).task_files@.len() && (#[trigger] old(
                    self,
                ).task_files@[j]).ident@ != ident@ implies self.task_files@.contains(
                old(self).task_files@[j],
            ) by {
                old(self).task_files@.lemma_filter_contains(keepp, j);
            }
            lemma_shrink_files_wf(*old(self), *self, ident@);
        }
        (losers, local)
    }

    /// Forgets a task once it has run (or was never enqueued anywhere): its
    /// entry leaves `own_tasks` and every record of it leaves the ledger.
    pub fn retire(&mut self, ident: &TaskIdent)
        requires
            old(self).wf(),
            owns(old(self).own_tasks@, ident@) ==> claimed_of(old(self).own_tasks@, ident@),
        ensures
            final(self).wf(),
            final(self).process_id == old(self).process_id,
            final(self).ident_counter == old(self).ident_counter,
            owns(old(self).own_tasks@, ident@) ==> final(self).own_tasks@ == old(
                self,
            ).own_tasks@.remove(own_index(old(self).own_tasks@, ident@)),
            !owns(old(self).own_tasks@, ident@) ==> final(self).own_tasks@ == old(self).own_tasks@,
            !owns(final(self).own_tasks@, ident@),
            final(self).task_files@ == old(self).task_files@.filter(
                |f: TaskFile| f.ident@ != ident@,
            ),
            forall|k: int|
                0 <= k < final(self).task_files@.len() ==> old(self).task_files@.contains(
                    #[trigger] final(self).task_files@[k],
                ) && final(self).task_files@[k].ident@ != ident@,
            forall|j: int|
                0 <= j < old(self).task_files@.len() && (#[trigger] old(
                    self,
                ).task_files@[j]).ident@ != ident@ ==> final(self).task_files@.contains(
                    old(self).task_files@[j],
                ),
    {
        let ghost keepp = |f: TaskFile| f.ident@ != ident@;
        let ghost all = self.task_files@;
        let n = self.task_files.len();
        let mut kept: Vec<TaskFile> = Vec::new();
        let mut k: usize = 0;
        proof {
            assert(kept@ =~= all.take(0).filter(keepp)) by {
                reveal(Seq::filter);
                assert(all.take(0) =~= Seq::<TaskFile>::empty());
            }
        }
        while k < n
            invariant
                k <= n,
                n == all.len(),
                all == self.task_files@,
                *self == *old(self),
                kept@ == all.take(k as int).filter(keepp),
                keepp == (|f: TaskFile| f.ident@ != ident@),
                forall|i: int| 0 <= i < kept@.len() ==> all.contains(#[trigger] kept@[i]),
            decreases n - k,
        {
            let f = self.task_files[k].clone();
            proof {
                assert(all.take(k + 1 as int) =~= all.take(k as int).push(f));
                lemma_filter_push(all.take(k as int), f, keepp);
                assert(all.contains(f)) by {
                    assert(all[k as int] == f);
                }
            }
            if !(f.ident == *ident) {
                kept.push(f);
            }
            k = k + 1;
        }
        proof {
            assert(all.take(n as int) =~= all);
        }
        self.task_files = kept;
        let mut i: usize = 0;
        while i < self.own_tasks.len()
            invariant
                i <= self.own_tasks@.len(),
                old(self).wf(),
                owns(old(self).own_tasks@, ident@) ==> claimed_of(old(self).own_tasks@, ident@),
                self.own_tasks@ == old(self).own_tasks@,
                self.process_id == old(self).process_id,
                self.ident_counter == old(self).ident_counter,
                keepp == (|f: TaskFile| f.ident@ != ident@),
                self.task_files@ == old(self).task_files@.filter(keepp),
                forall|j: int| 0 <= j < i ==> (#[trigger] self.own_tasks@[j]).ident@ != ident@,
            decreases self.own_tasks@.len() - i,
        {
            if self.own_tasks[i].ident == *ident {
                proof {
                    assert(own_index(old(self).own_tasks@, ident@) == i) by {
                        let w = own_index(old(self).own_tasks@, ident@);
                        assert(0 <= w < old(self).own_tasks@.len() && old(
                            self,
                        ).own_tasks@[w].ident@ == ident@);
                    }
                }
                self.own_tasks.remove(i);
                proof {
                    lemma_filter_elementwise(old(self).task_files@, keepp);
                    lemma_retire_wf(*old(self), *self, ident@, i as int, keepp);
                }
                return ;
            }
            i = i + 1;
        }
        proof {
            assert(!owns(old(self).own_tasks@, ident@)) by {
                if owns(old(self).own_tasks@, ident@) {
                    let w = own_index(old(self).own_tasks@, ident@);
                    assert(0 <= w < old(self).own_tasks@.len() && old(self).own_tasks@[w].ident@
                        == ident@);
                }
            }
            lemma_filter_elementwise(old(self).task_files@, keepp);
            assert forall|m: int| 0 <= m < self.task_files@.len() implies old(
                self,
            ).task_files@.contains(#[trigger] self.task_files@[m]) by {
                lemma_filter_membership(old(self).task_files@, keepp, m);
            }
            assert forall|j: int|
                0 <= j < old(self).task_files@.len() && (#[trigger] old(
                    self,
                ).task_files@[j]).ident@ != ident@ implies self.task_files@.contains(
                old(self).task_files@[j],
            ) by {
                old(self).task_files@.lemma_filter_contains(keepp, j);
            }
            lemma_shrink_files_wf(*old(self), *self, ident@);
        }
    }
}

/// Appending one element to a sequence extends its filtration by that element
/// exactly when the element passes the predicate.
proof fn lemma_filter_push<A>(s: Seq<A>, e: A, pred: spec_fn(A) -> bool)
    ensures
        s.push(e).filter(pred) == (if pred(e) {
            s.filter(pred).push(e)
        } else {
            s.filter(pred)
        }),
{
    reveal(Seq::filter);
    assert(s.push(e).drop_last() =~= s);
    assert(s.push(e).last() == e);
}

/// The ledger invariant survives dropping task records, as long as every
/// record of an unclaimed task survives.
proof fn lemma_shrink_files_wf<E>(pre: SchedulerRoot<E>, post: SchedulerRoot<E>, v: TaskIdentView)
    requires
        pre.wf(),
        post.own_tasks@ == pre.own_tasks@,
        post.process_id == pre.process_id,
        post.ident_counter == pre.ident_counter,
        forall|i: int| 0 <= i < post.task_files@.len() ==> pre.task_files@.contains(
            #[trigger] post.task_files@[i],
        ),
        owns(pre.own_tasks@, v) ==> claimed_of(pre.own_tasks@, v),
        forall|j: int|
            0 <= j < pre.task_files@.len() && (#[trigger] pre.task_files@[j]).ident@ != v
                ==> post.task_files@.contains(pre.task_files@[j]),
    ensures
        post.wf(),
{
    assert forall|i: int| 0 <= i < post.task_files@.len() implies (
    #[trigger] post.task_files@[i]).wf() && owns(post.own_tasks@, post.task_files@[i].ident@) by {
        let f = post.task_files@[i];
        let j = choose|j: int| 0 <= j < pre.task_files@.len() && pre.task_files@[j] == f;
        assert(pre.task_files@[j].wf() && owns(pre.own_tasks@, pre.task_files@[j].ident@));
    }
    assert forall|i: int|
        0 <= i < post.own_tasks@.len() && !(#[trigger] post.own_tasks@[i]).claimed implies has_file(
        post.task_files@,
        post.own_tasks@[i].ident@,
    ) by {
        let w = post.own_tasks@[i].ident@;
        assert(w != v) by {
            if w == v {
                assert(owns(pre.own_tasks@, v)) by {
                    assert(pre.own_tasks@[i].ident@ == v);
                }
                let k = own_index(pre.own_tasks@, v);
                assert(0 <= k < pre.own_tasks@.len() && pre.own_tasks@[k].ident@ == v);
                if k != i {
                    assert(pre.own_tasks@[k].ident@ != pre.own_tasks@[i].ident@);
                }
                assert(pre.own_tasks@[i].claimed);
            }
        }
        assert(has_file(pre.task_files@, w)) by {
            assert(!pre.own_tasks@[i].claimed);
        }
        let j = choose|j: int|
            0 <= j < pre.task_files@.len() && (#[trigger] pre.task_files@[j]).ident@ == w;
        assert(post.task_files@.contains(pre.task_files@[j]));
        let m = choose|m: int|
            0 <= m < post.task_files@.len() && post.task_files@[m] == pre.task_files@[j];
        assert(post.task_files@[m].ident@ == w);
    }
}

/// The ledger invariant survives retiring a task: its own entry and all of
/// its records leave together.
proof fn lemma_retire_wf<E>(
    pre: SchedulerRoot<E>,
    post: SchedulerRoot<E>,
    v: TaskIdentView,
    i: int,
    pred: spec_fn(TaskFile) -> bool,
)
    requires
        pre.wf(),
        0 <= i < pre.own_tasks@.len(),
        pre.own_tasks@[i].ident@ == v,
        post.own_tasks@ == pre.own_tasks@.remove(i),
        forall|f: TaskFile| #[trigger] pred(f) == (f.ident@ != v),
        post.task_files@ == pre.task_files@.filter(pred),
        post.process_id == pre.process_id,
        post.ident_counter == pre.ident_counter,
    ensures
        post.wf(),
        !owns(post.own_tasks@, v),
{
    broadcast use vstd::seq_lib::group_filter_ensures;

    lemma_filter_elementwise(pre.task_files@, pred);
    pre.own_tasks@.remove_ensures(i);
    assert(!owns(post.own_tasks@, v)) by {
        if owns(post.own_tasks@, v) {
            let w = choose|w: int|
                0 <= w < post.own_tasks@.len() && (#[trigger] post.own_tasks@[w]).ident@ == v;
            if w < i {
                assert(pre.own_tasks@[w].ident@ == v);
                assert(pre.own_tasks@[w].ident@ != pre.own_tasks@[i].ident@);
            } else {
                assert(pre.own_tasks@[w + 1].ident@ == v);
                assert(pre.own_tasks@[i].ident@ != pre.own_tasks@[w + 1].ident@);
            }
        }
    }
    assert forall|k: int| 0 <= k < post.task_files@.len() implies (
    #[trigger] post.task_files@[k]).wf() && owns(post.own_tasks@, post.task_files@[k].ident@) by {
        let f = post.task_files@[k];
        assert(f.ident@ != v);
        assert(pre.task_files@.contains(f)) by {
            lemma_filter_membership(pre.task_files@, pred, k);
        }
        let j = choose|j: int| 0 <= j < pre.task_files@.len() && pre.task_files@[j] == f;
        assert(pre.task_files@[j].wf());
        let w = choose|w: int|
            0 <= w < pre.own_tasks@.len() && (#[trigger] pre.own_tasks@[w]).ident@ == f.ident@;
        assert(w != i);
        if w < i {
            assert(post.own_tasks@[w].ident@ == f.ident@);
        } else {
            assert(post.own_tasks@[w - 1].ident@ == f.ident@);
        }
    }
    assert forall|k: int|
        0 <= k < post.own_tasks@.len() && !(#[trigger] post.own_tasks@[k]).claimed implies has_file(
        post.task_files@,
        post.own_tasks@[k].ident@,
    ) by {
        let w = post.own_tasks@[k].ident@;
        let kp = if k < i {
            k
        } else {
            k + 1
        };
        assert(pre.own_tasks@[kp].ident@ == w && !pre.own_tasks@[kp].claimed);
        assert(w != v) by {
            if kp != i {
                assert(pre.own_tasks@[if kp < i {
                    kp
                } else {
                    i
                }].ident@ != pre.own_tasks@[if kp < i {
                    i
                } else {
                    kp
                }].ident@);
            }
        }
        let j = choose|j: int|
            0 <= j < pre.task_files@.len() && (#[trigger] pre.task_files@[j]).ident@ == w;
        assert(pre.task_files@.filter(pred).contains(pre.task_files@[j]));
        let m = choose|m: int|
            0 <= m < post.task_files@.len() && post.task_files@[m] == pre.task_files@[j];
        assert(post.task_files@[m].ident@ == w);
    }
}

/// A filtration holds exactly the elements of the underlying sequence that
/// pass the predicate.
proof fn lemma_filter_elementwise(s: Seq<TaskFile>, pred: spec_fn(TaskFile) -> bool)
    ensures
        forall|k: int|
            0 <= k < s.filter(pred).len() ==> pred(#[trigger] s.filter(pred)[k]) && s.contains(
                s.filter(pred)[k],
            ),
        forall|j: int| 0 <= j < s.len() && pred(#[trigger] s[j]) ==> s.filter(pred).contains(s[j]),
{
    broadcast use vstd::seq_lib::group_filter_ensures;

    assert forall|k: int| 0 <= k < s.filter(pred).len() implies pred(#[trigger] s.filter(pred)[k])
        && s.contains(s.filter(pred)[k]) by {
        lemma_filter_membership(s, pred, k);
    }
    assert forall|j: int| 0 <= j < s.len() && pred(#[trigger] s[j]) implies s.filter(pred).contains(
        s[j],
    ) by {
        s.lemma_filter_contains(pred, j);
    }
}

/// An element of a filtration is an element of the underlying sequence.
proof fn lemma_filter_membership<A>(s: Seq<A>, pred: spec_fn(A) -> bool, k: int)
    requires
        0 <= k < s.filter(pred).len(),
    ensures
        s.contains(s.filter(pred)[k]),
    decreases s.len(),
{
    reveal(Seq::filter);
    if s.len() > 0 {
        let front = s.drop_last();
        if pred(s.last()) && k == s.filter(pred).len() - 1 {
            assert(s[s.len() - 1] == s.filter(pred)[k]);
        } else {
            lemma_filter_membership(front, pred, k);
            let j = choose|j: int| 0 <= j < front.len() && front[j] == front.filter(pred)[k];
            assert(s[j] == s.filter(pred)[k]);
        }
    }
}

/// The ledger invariant survives recording a submission.
proof fn lemma_schedule_wf<E>(pre: SchedulerRoot<E>, post: SchedulerRoot<E>, added: Seq<TaskFile>)
    requires
        pre.wf(),
        post.process_id == pre.process_id,
        post.ident_counter == pre.ident_counter,
        added.len() > 0 ==> exists|t: OwnTask<E>|
            post.own_tasks@ == pre.own_tasks@.push(t) && (#[trigger] t.ident@).wf()
                && t.ident@.process_id == pre.process_id@ && t.ident@.id < pre.ident_counter
                && !t.claimed && !owns(pre.own_tasks@, t.ident@) && forall|k: int|
                0 <= k < added.len() ==> (#[trigger] added[k]).ident@ == t.ident@ && added[k].wf(),
        added.len() == 0 ==> post.own_tasks@ == pre.own_tasks@,
        post.task_files@ == pre.task_files@ + added,
    ensures
        post.wf(),
{
    if added.len() > 0 {
        let t = choose|t: OwnTask<E>|
            post.own_tasks@ == pre.own_tasks@.push(t) && (#[trigger] t.ident@).wf()
                && t.ident@.process_id == pre.process_id@ && t.ident@.id < pre.ident_counter
                && !t.claimed && !owns(pre.own_tasks@, t.ident@) && forall|k: int|
                0 <= k < added.len() ==> (#[trigger] added[k]).ident@ == t.ident@ && added[k].wf();
        let n = pre.own_tasks@.len() as int;
        assert forall|i: int, j: int| 0 <= i < j < post.own_tasks@.len() implies (
        #[trigger] post.own_tasks@[i]).ident@ != (#[trigger] post.own_tasks@[j]).ident@ by {
            if j == n {
                if post.own_tasks@[i].ident@ == t.ident@ {
                    assert(owns(pre.own_tasks@, t.ident@));
                }
            }
        }
        assert forall|i: int| 0 <= i < post.task_files@.len() implies (
        #[trigger] post.task_files@[i]).wf() && owns(post.own_tasks@, post.task_files@[i].ident@) by {
            if i < pre.task_files@.len() {
                assert(owns(pre.own_tasks@, pre.task_files@[i].ident@));
                let w = choose|w: int|
                    0 <= w < pre.own_tasks@.len() && (#[trigger] pre.own_tasks@[w]).ident@
                        == pre.task_files@[i].ident@;
                assert(post.own_tasks@[w].ident@ == post.task_files@[i].ident@);
            } else {
                assert(post.own_tasks@[n].ident@ == post.task_files@[i].ident@);
            }
        }
        assert forall|i: int|
            0 <= i < post.own_tasks@.len() && !(#[trigger] post.own_tasks@[i]).claimed implies
            has_file(post.task_files@, post.own_tasks@[i].ident@) by {
            if i < n {
                if !pre.own_tasks@[i].claimed {
                    let w = choose|w: int|
                        0 <= w < pre.task_files@.len() && (#[trigger] pre.task_files@[w]).ident@
                            == pre.own_tasks@[i].ident@;
                    assert(post.task_files@[w].ident@ == post.own_tasks@[i].ident@);
                }
            } else {
                assert(post.task_files@[pre.task_files@.len() as int].ident@
                    == post.own_tasks@[i].ident@);
            }
        }
    } else {
        assert(post.task_files@ =~= pre.task_files@);
        assert forall|i: int|
            0 <= i < post.own_tasks@.len() && !(#[trigger] post.own_tasks@[i]).claimed implies
            has_file(post.task_files@, post.own_tasks@[i].ident@) by {
            if !pre.own_tasks@[i].claimed {
                let w = choose|w: int|
                    0 <= w < pre.task_files@.len() && (#[trigger] pre.task_files@[w]).ident@
                        == pre.own_tasks@[i].ident@;
                assert(post.task_files@[w].ident@ == post.own_tasks@[i].ident@);
            }
        }
    }
}

/// The ledger invariant survives claiming a task.
proof fn lemma_claim_wf<E>(
    pre: SchedulerRoot<E>,
    post: SchedulerRoot<E>,
    v: TaskIdentView,
    i: int,
)
    requires
        pre.wf(),
        0 <= i < pre.own_tasks@.len(),
        pre.own_tasks@[i].ident@ == v,
        post.own_tasks@ == pre.own_tasks@.update(
            i,
            (OwnTask {
                ident: pre.own_tasks@[i].ident,
                task: pre.own_tasks@[i].task,
                claimed: true,
            }),
        ),
        post.task_files@ == pre.task_files@,
        post.process_id == pre.process_id,
        post.ident_counter == pre.ident_counter,
    ensures
        post.wf(),
        owns(post.own_tasks@, v),
        claimed_of(post.own_tasks@, v),
{
    assert(post.own_tasks@[i].ident@ == v);
    assert forall|k: int| 0 <= k < post.task_files@.len() implies (
    #[trigger] post.task_files@[k]).wf() && owns(post.own_tasks@, post.task_files@[k].ident@) by {
        assert(owns(pre.own_tasks@, pre.task_files@[k].ident@));
        let w = choose|w: int|
            0 <= w < pre.own_tasks@.len() && (#[trigger] pre.own_tasks@[w]).ident@
                == pre.task_files@[k].ident@;
        assert(post.own_tasks@[w].ident@ == post.task_files@[k].ident@);
    }
    assert forall|k: int|
        0 <= k < post.own_tasks@.len() && !(#[trigger] post.own_tasks@[k]).claimed implies has_file(
        post.task_files@,
        post.own_tasks@[k].ident@,
    ) by {
        assert(!pre.own_tasks@[k].claimed && pre.own_tasks@[k].ident@ == post.own_tasks@[k].ident@);
    }
    assert(claimed_of(post.own_tasks@, v)) by {
        let k = own_index(post.own_tasks@, v);
        assert(0 <= k < post.own_tasks@.len() && post.own_tasks@[k].ident@ == v);
        if k != i {
            assert(pre.own_tasks@[k].ident@ == v);
        }
    }
}

} // verus!
