//! The laws of the election loop, stated over `tick_transition`: a task is
//! executed by at most one tick, and the reaper touches a record only after
//! three consecutive sightings of it unlocked and foreign.

use vstd::prelude::*;

use crate::election::{cand_view_of, entry_parses, is_elected, CandView};
use crate::candidate::ScanEntry;
use crate::resource_scheduler::{tick_transition, TickAction};
use crate::root::{owns, SchedulerRoot};
use crate::task_ident::TaskIdent;

verus! {

/// Exactly-once per submission: once a tick executes a task, no later tick —
/// on any resource of this process, under any scan — executes the same task
/// again. The first tick claims the task; from then on its entry is claimed,
/// so every election that puts it at the head answers `Idle`.
pub proof fn lemma_exactly_once<E: Clone>(
    r0: SchedulerRoot<E>,
    r1: SchedulerRoot<E>,
    r2: SchedulerRoot<E>,
    p0: Option<(TaskIdent, usize)>,
    p1: Option<(TaskIdent, usize)>,
    q0: Option<(TaskIdent, usize)>,
    q1: Option<(TaskIdent, usize)>,
    d1: Seq<char>,
    d2: Seq<char>,
    h1: CandView,
    h2: CandView,
    a1: TickAction<E>,
    a2: TickAction<E>,
)
    requires
        r0.wf(),
        r1.wf(),
        tick_transition(r0, r1, p0, p1, d1, h1, a1),
        a1 is Execute,
        tick_transition(r1, r2, q0, q1, d2, h2, a2),
        h2.ident == h1.ident,
    ensures
        a2 is Idle,
{
    let v = h1.ident;
    let i = crate::root::own_index(r0.own_tasks@, v);
    assert(owns(r0.own_tasks@, v) && !crate::root::claimed_of(r0.own_tasks@, v));
    assert(0 <= i < r0.own_tasks@.len() && r0.own_tasks@[i].ident@ == v);
    assert(r1.own_tasks@[i].ident@ == v && r1.own_tasks@[i].claimed);
    assert(owns(r1.own_tasks@, v));
    assert(crate::root::claimed_of(r1.own_tasks@, v)) by {
        let k = crate::root::own_index(r1.own_tasks@, v);
        assert(0 <= k < r1.own_tasks@.len() && r1.own_tasks@[k].ident@ == v);
        if k != i {
            assert(r0.own_tasks@[k].ident@ == v);
        }
    }
}

/// The reaper never touches a record whose creator holds its shared lock: a
/// tick whose elected head is locked answers `Idle`.
pub proof fn lemma_locked_never_reaped<E: Clone>(
    r0: SchedulerRoot<E>,
    r1: SchedulerRoot<E>,
    p0: Option<(TaskIdent, usize)>,
    p1: Option<(TaskIdent, usize)>,
    d: Seq<char>,
    h: CandView,
    a: TickAction<E>,
)
    requires
        tick_transition(r0, r1, p0, p1, d, h, a),
        h.locked,
    ensures
        !(a is Reap),
{
}

/// Reaper threshold: starting with no memory, a foreign record seen unlocked
/// at the head is left alone on the first two ticks and reaped only on the
/// third consecutive one, and nothing else is reaped in the interim.
pub proof fn lemma_reaper_three_strikes<E: Clone>(
    r0: SchedulerRoot<E>,
    r1: SchedulerRoot<E>,
    r2: SchedulerRoot<E>,
    r3: SchedulerRoot<E>,
    p1: Option<(TaskIdent, usize)>,
    p2: Option<(TaskIdent, usize)>,
    p3: Option<(TaskIdent, usize)>,
    d: Seq<char>,
    h: CandView,
    a1: TickAction<E>,
    a2: TickAction<E>,
    a3: TickAction<E>,
)
    requires
        !owns(r0.own_tasks@, h.ident),
        !h.locked,
        tick_transition(r0, r1, None, p1, d, h, a1),
        tick_transition(r1, r2, p1, p2, d, h, a2),
        tick_transition(r2, r3, p2, p3, d, h, a3),
    ensures
        a1 is Idle,
        a2 is Idle,
        a3 matches TickAction::Reap { ident, filename } && ident@ == h.ident,
        p3 is None,
{
    assert(r1.own_tasks@ == r0.own_tasks@);
    assert(r2.own_tasks@ == r1.own_tasks@);
    assert(!owns(r1.own_tasks@, h.ident));
    assert(!owns(r2.own_tasks@, h.ident));
}

/// Election order: the winner has the least priority among all pending
/// records, and among records of that priority the earliest creation time.
/// Under a burst this executes tasks in ascending priority order; under slow
/// arrival each tick's sole pending task runs at once, in submission order.
pub proof fn lemma_elected_order(scan: Seq<ScanEntry>, h: CandView, j: int)
    requires
        is_elected(scan, h),
        0 <= j < scan.len(),
        entry_parses(scan[j]),
    ensures
        h.ident.priority <= cand_view_of(scan[j]).ident.priority,
        h.ident.priority == cand_view_of(scan[j]).ident.priority ==> h.created_us
            <= cand_view_of(scan[j]).created_us,
{
}

} // verus!
