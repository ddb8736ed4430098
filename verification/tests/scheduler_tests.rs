use task_scheduler::candidate::ScanEntry;
use task_scheduler::resource_scheduler::TickAction;
use task_scheduler::root::TaskFile;
use task_scheduler::scheduler::Scheduler;
use task_scheduler::task::{Executable, Preemption, Resource};
use task_scheduler::task_ident::TaskIdent;

#[derive(Copy, Clone, Debug)]
struct Rsrc {
    id: usize,
}

impl Resource for Rsrc {
    fn dir_id(&self) -> String {
        self.id.to_string()
    }
}

#[derive(Clone, Debug)]
struct Job {
    id: usize,
}

impl Executable<Rsrc> for Job {
    fn execute<P: Preemption<Rsrc>>(&self, _preempt: &P) {}
}

/// A simulated resource directory: the filenames present, with creation
/// times, as a scan would report them. Own files are reported locked (our
/// shared lock is held); foreign files carry the liveness the test chooses.
struct Disk {
    entries: Vec<(String, u64, bool)>,
    clock: u64,
}

impl Disk {
    fn new() -> Disk {
        Disk { entries: Vec::new(), clock: 0 }
    }

    fn add(&mut self, filename: &str, locked: bool) {
        self.clock += 1;
        self.entries.push((filename.to_string(), self.clock, locked));
    }

    fn remove(&mut self, filename: &str) {
        self.entries.retain(|e| e.0 != filename);
    }

    fn scan(&self) -> Vec<ScanEntry> {
        self.entries
            .iter()
            .map(|(f, t, l)| ScanEntry { filename: f.clone(), created_us: *t, locked: *l })
            .collect()
    }
}

fn dir_index<E: Clone>(s: &Scheduler<Rsrc, E>, dir: &str) -> usize {
    let n = s.resource_scheduler_count();
    for i in 0..n {
        if s.resource_dir_id(i) == dir {
            return i;
        }
    }
    panic!("no resource scheduler for dir {}", dir);
}

/// Feeds files enqueued by `schedule` into the simulated disks.
fn place(disks: &mut [(String, Disk)], files: &[TaskFile]) {
    for f in files {
        for (dir, disk) in disks.iter_mut() {
            if *dir == f.dir_id {
                disk.add(&f.filename, true);
            }
        }
    }
}

/// Runs ticks on resource "0" until all submitted tasks have executed,
/// mirroring what the polling worker does, and returns the execution order.
fn drain(s: &mut Scheduler<Rsrc, Job>, disks: &mut [(String, Disk)], expect: usize) -> Vec<usize> {
    let mut order = Vec::new();
    let idx = dir_index(s, "0");
    for _ in 0..expect * 3 {
        let scan = disks[0].1.scan();
        match s.tick_resource(idx, &scan) {
            TickAction::Execute { ident, task, losers, local } => {
                order.push(task.executable.id);
                for l in &losers {
                    for (dir, disk) in disks.iter_mut() {
                        if *dir == l.dir_id {
                            disk.remove(&l.filename);
                        }
                    }
                }
                if let Some(f) = &local {
                    disks[0].1.remove(&f.filename);
                }
                s.complete(&ident);
            }
            TickAction::Idle => {}
            TickAction::Reap { .. } => panic!("reaped an owned task"),
        }
        if order.len() == expect {
            break;
        }
    }
    order
}

fn three_disks() -> Vec<(String, Disk)> {
    vec![
        ("0".to_string(), Disk::new()),
        ("1".to_string(), Disk::new()),
        ("2".to_string(), Disk::new()),
    ]
}

fn resources() -> Vec<Rsrc> {
    vec![Rsrc { id: 0 }, Rsrc { id: 1 }, Rsrc { id: 2 }]
}

#[test]
fn burst_priority_order() {
    let mut s: Scheduler<Rsrc, Job> = Scheduler::new();
    let mut disks = three_disks();
    let rs = resources();
    for id in 0..5usize {
        let files = s.schedule(4 - id, &format!("task{}", id), Job { id }, &rs);
        place(&mut disks, &files);
    }
    let order = drain(&mut s, &mut disks, 5);
    assert_eq!(order, vec![4, 3, 2, 1, 0]);
}

#[test]
fn slow_arrival_fifo() {
    // Each submission is fully processed before the next arrives, so the
    // inverse priorities never get to reorder anything.
    let mut s: Scheduler<Rsrc, Job> = Scheduler::new();
    let mut disks = three_disks();
    let rs = resources();
    let mut order = Vec::new();
    for id in 0..5usize {
        let files = s.schedule(4 - id, &format!("task{}", id), Job { id }, &rs);
        place(&mut disks, &files);
        order.extend(drain(&mut s, &mut disks, 1));
    }
    assert_eq!(order, vec![0, 1, 2, 3, 4]);
}

#[test]
fn matched_priority_order() {
    let mut s: Scheduler<Rsrc, Job> = Scheduler::new();
    let mut disks = three_disks();
    let rs = resources();
    for id in 0..5usize {
        let files = s.schedule(id, &format!("task{}", id), Job { id }, &rs);
        place(&mut disks, &files);
    }
    let order = drain(&mut s, &mut disks, 5);
    assert_eq!(order, vec![0, 1, 2, 3, 4]);
}

#[test]
fn multi_resource_exactly_once() {
    let mut s: Scheduler<Rsrc, Job> = Scheduler::new();
    let mut disks = three_disks();
    let rs = resources();
    let files = s.schedule(0, "only", Job { id: 99 }, &rs);
    assert_eq!(files.len(), 3);
    place(&mut disks, &files);
    let idx = dir_index(&s, "0");
    let scan = disks[0].1.scan();
    match s.tick_resource(idx, &scan) {
        TickAction::Execute { ident, task, losers, local } => {
            assert_eq!(task.executable.id, 99);
            // the two sibling enqueuements are destroyed as losers
            assert_eq!(losers.len(), 2);
            let f = local.expect("local record should exist");
            disks[0].1.remove(&f.filename);
            for l in &losers {
                assert!(l.dir_id == "1" || l.dir_id == "2");
            }
            s.complete(&ident);
            // completing an already-retired task is a harmless no-op
            s.complete(&ident);
        }
        _ => panic!("expected the task to execute"),
    }
    // a second pass finds nothing to do anywhere
    let scan = disks[0].1.scan();
    assert!(matches!(s.tick_resource(idx, &scan), TickAction::Idle));
}

#[test]
fn own_files_report_process_token() {
    let mut s: Scheduler<Rsrc, Job> = Scheduler::new();
    let rs = vec![Rsrc { id: 0 }];
    let files = s.schedule(1, "tok", Job { id: 0 }, &rs);
    let parsed = TaskIdent::from_filename(&files[0].filename).unwrap();
    assert_eq!(parsed.process_id.len(), 10);
    assert!(parsed.process_id.chars().all(|c| c.is_ascii_alphanumeric()));
}

#[test]
fn reaper_waits_three_sightings() {
    let mut s: Scheduler<Rsrc, Job> = Scheduler::new();
    s.ensure_resource_scheduler(Rsrc { id: 0 });
    let idx = dir_index(&s, "0");
    let mut disk = Disk::new();
    // two records of a dead peer: the head (priority 1) and another
    disk.add("1-peerpeerpe-0-gone", false);
    disk.add("2-peerpeerpe-1-other", false);
    let scan = disk.scan();
    assert!(matches!(s.tick_resource(idx, &scan), TickAction::Idle));
    assert!(matches!(s.tick_resource(idx, &scan), TickAction::Idle));
    match s.tick_resource(idx, &scan) {
        TickAction::Reap { filename, .. } => {
            // only the head is reaped, nothing else
            assert_eq!(filename, "1-peerpeerpe-0-gone");
        }
        _ => panic!("expected a reap on the third sighting"),
    }
}

#[test]
fn live_peer_never_reaped() {
    let mut s: Scheduler<Rsrc, Job> = Scheduler::new();
    s.ensure_resource_scheduler(Rsrc { id: 0 });
    let idx = dir_index(&s, "0");
    let mut disk = Disk::new();
    disk.add("1-peerpeerpe-0-alive", true);
    let scan = disk.scan();
    for _ in 0..5 {
        assert!(matches!(s.tick_resource(idx, &scan), TickAction::Idle));
    }
}

#[test]
fn interrupted_streak_resets_reaper() {
    let mut s: Scheduler<Rsrc, Job> = Scheduler::new();
    s.ensure_resource_scheduler(Rsrc { id: 0 });
    let idx = dir_index(&s, "0");
    let mut disk = Disk::new();
    disk.add("1-peerpeerpe-0-gone", false);
    let scan = disk.scan();
    assert!(matches!(s.tick_resource(idx, &scan), TickAction::Idle));
    assert!(matches!(s.tick_resource(idx, &scan), TickAction::Idle));
    // a higher-priority record appears at the head and breaks the streak
    let mut disk2 = Disk::new();
    disk2.add("0-peerpeerpe-7-first", false);
    disk2.add("1-peerpeerpe-0-gone", false);
    let scan2 = disk2.scan();
    assert!(matches!(s.tick_resource(idx, &scan2), TickAction::Idle));
    // back to the original head: the count starts over
    assert!(matches!(s.tick_resource(idx, &scan), TickAction::Idle));
    assert!(matches!(s.tick_resource(idx, &scan), TickAction::Idle));
    assert!(matches!(s.tick_resource(idx, &scan), TickAction::Reap { .. }));
}

#[test]
fn parse_failures_are_skipped_in_scans() {
    let mut s: Scheduler<Rsrc, Job> = Scheduler::new();
    s.ensure_resource_scheduler(Rsrc { id: 0 });
    let idx = dir_index(&s, "0");
    let mut disk = Disk::new();
    disk.add("resource.lock", false);
    disk.add("garbage", false);
    let scan = disk.scan();
    // nothing parses: nothing is ever reaped or executed
    for _ in 0..4 {
        assert!(matches!(s.tick_resource(idx, &scan), TickAction::Idle));
    }
}

#[test]
fn stop_twice_errors_second_time() {
    let mut s: Scheduler<Rsrc, Job> = Scheduler::new_with_poll_interval(50);
    // without a worker, stop is a no-op success
    assert!(s.stop().is_ok());
    s.start();
    assert!(s.stop().is_ok());
    assert!(s.stop().is_err());
    // state is still usable
    let files = s.schedule(0, "after", Job { id: 1 }, &vec![Rsrc { id: 0 }]);
    assert_eq!(files.len(), 1);
}

#[test]
fn empty_resource_list_schedules_nothing() {
    let mut s: Scheduler<Rsrc, Job> = Scheduler::new();
    let files = s.schedule(0, "nowhere", Job { id: 1 }, &Vec::new());
    assert!(files.is_empty());
}
