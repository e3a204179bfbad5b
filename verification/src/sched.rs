//! The round-robin scheduler.

use vstd::prelude::*;
use std::collections::VecDeque;
use crate::text;

verus! {

pub const STACK_BYTES: u64 = 65536;

pub const MAX_TASKS: usize = 24;

#[derive(Clone, Copy, PartialEq, Eq, Debug, Structural)]
pub enum TaskState {
    Ready,
    /// Until this tick.
    Sleeping(u64),
    Terminated,
}

#[derive(Clone, Copy)]
pub struct Task {
    pub name: &'static str,
    pub saved_rsp: u64,
    pub state: TaskState,
    pub switches: u64,
}

pub struct Scheduler {
    pub tasks: Vec<Task>,
    /// The ready queue.
    pub ready: VecDeque<u32>,
    /// The sleeping tasks, each with the tick that wakes it.
    pub sleepers: Vec<(u32, u64)>,
    pub current: u32,
    pub running: bool,
    pub task_switches: u64,
}

#[verifier::ext_equal]
pub struct SchedView {
    pub tasks: Seq<Task>,
    pub ready: Seq<u32>,
    pub sleepers: Seq<(u32, u64)>,
    pub current: u32,
    pub running: bool,
    pub task_switches: u64,
}

/// The tasks with one of them in another state.
pub open spec fn with_state(tasks: Seq<Task>, id: u32, state: TaskState) -> Seq<Task> {
    tasks.update(id as int, Task { state, ..tasks[id as int] })
}

/// The tasks with one more switch counted for one of them.
pub open spec fn counted(tasks: Seq<Task>, id: u32) -> Seq<Task> {
    tasks.update(
        id as int,
        Task {
            switches: tasks[id as int].switches.wrapping_add(1),
            ..tasks[id as int]
        },
    )
}

impl SchedView {
    /// Every queue speaks of tasks that exist.
    pub open spec fn wf(self) -> bool {
        &&& self.running ==> self.current < self.tasks.len()
        &&& forall|i: int| 0 <= i < self.ready.len() ==> (#[trigger] self.ready[i]) < self.tasks.len()
        &&& forall|i: int|
            0 <= i < self.sleepers.len() ==> (#[trigger] self.sleepers[i]).0 < self.tasks.len()
        &&& !self.running ==> self.current == 0
    }

    /// The sleepers from index `i` on whose time has come move to the ready
    /// queue; the last sleeper takes the place of one that leaves.
    pub open spec fn woken(self, i: int, now: u64) -> SchedView
        decreases self.sleepers.len() - i,
    {
        if i < 0 || i >= self.sleepers.len() {
            self
        } else if self.sleepers[i].1 <= now {
            let id = self.sleepers[i].0;
            SchedView {
                sleepers: self.sleepers.update(i, self.sleepers.last()).drop_last(),
                tasks: with_state(self.tasks, id, TaskState::Ready),
                ready: self.ready.push(id),
                ..self
            }.woken(i, now)
        } else {
            self.woken(i + 1, now)
        }
    }

    /// The current task goes to the back of the queue if it is ready.
    pub open spec fn requeued(self) -> SchedView {
        if self.tasks[self.current as int].state == TaskState::Ready {
            SchedView { ready: self.ready.push(self.current), ..self }
        } else {
            self
        }
    }

    /// Takes the first ready task other than the current one off the queue;
    /// what stands before it is dropped.
    pub open spec fn picked(self) -> (SchedView, Option<u32>)
        decreases self.ready.len(),
    {
        if self.ready.len() == 0 {
            (self, None)
        } else {
            let id = self.ready[0];
            let rest = SchedView { ready: self.ready.skip(1), ..self };
            if id == self.current || self.tasks[id as int].state != TaskState::Ready {
                rest.picked()
            } else {
                (rest, Some(id))
            }
        }
    }

    /// One turn of the scheduler at tick `now`: the state after it, and the
    /// task to switch to.
    pub open spec fn turn(self, now: u64) -> (SchedView, Option<u32>) {
        if !self.running {
            (self, None)
        } else {
            let (s, next) = self.woken(0, now).requeued().picked();
            match next {
                None => (s, None),
                Some(id) => (
                    SchedView {
                        current: id,
                        task_switches: s.task_switches.wrapping_add(1),
                        tasks: counted(counted(s.tasks, s.current), id),
                        ..s
                    },
                    Some(id),
                ),
            }
        }
    }
}

proof fn woken_keeps_order(s: SchedView, i: int, now: u64)
    requires
        s.wf(),
        s.running,
        0 <= i,
    ensures
        s.woken(i, now).wf(),
        s.woken(i, now).running,
        s.woken(i, now).current == s.current,
        s.woken(i, now).tasks.len() == s.tasks.len(),
    decreases s.sleepers.len() - i,
{
    if i < s.sleepers.len() {
        if s.sleepers[i].1 <= now {
            let id = s.sleepers[i].0;
            let t = SchedView {
                sleepers: s.sleepers.update(i, s.sleepers.last()).drop_last(),
                tasks: with_state(s.tasks, id, TaskState::Ready),
                ready: s.ready.push(id),
                ..s
            };
            assert(t.wf());
            woken_keeps_order(t, i, now);
        } else {
            woken_keeps_order(s, i + 1, now);
        }
    }
}

proof fn picked_keeps_order(s: SchedView)
    requires
        s.wf(),
        s.running,
    ensures
        s.picked().0.wf(),
        s.picked().0.running,
        s.picked().0.current == s.current,
        s.picked().0.tasks == s.tasks,
        s.picked().1 matches Some(id) ==> id < s.tasks.len() && id != s.current
            && s.tasks[id as int].state == TaskState::Ready,
    decreases s.ready.len(),
{
    if s.ready.len() > 0 {
        let rest = SchedView { ready: s.ready.skip(1), ..s };
        assert(rest.wf());
        picked_keeps_order(rest);
    }
}

/// A turn keeps the scheduler in order, and switches only to another task
/// that is ready.
pub proof fn turn_keeps_order(s: SchedView, now: u64)
    requires
        s.wf(),
    ensures
        s.turn(now).0.wf(),
        s.turn(now).1 matches Some(id) ==> {
            &&& id != s.current
            &&& id == s.turn(now).0.current
            &&& s.turn(now).0.tasks[id as int].state == TaskState::Ready
        },
{
    if s.running {
        woken_keeps_order(s, 0, now);
        let w = s.woken(0, now);
        assert(w.requeued().wf());
        picked_keeps_order(w.requeued());
    }
}

proof fn woken_all(s: SchedView, i: int, now: u64)
    requires
        0 <= i <= s.sleepers.len(),
        forall|k: int| 0 <= k < i ==> (#[trigger] s.sleepers[k]).1 > now,
    ensures
        forall|k: int|
            0 <= k < s.woken(i, now).sleepers.len() ==> (#[trigger] s.woken(
                i,
                now,
            ).sleepers[k]).1 > now,
    decreases s.sleepers.len() - i,
{
    if i < s.sleepers.len() {
        if s.sleepers[i].1 <= now {
            let id = s.sleepers[i].0;
            let t = SchedView {
                sleepers: s.sleepers.update(i, s.sleepers.last()).drop_last(),
                tasks: with_state(s.tasks, id, TaskState::Ready),
                ready: s.ready.push(id),
                ..s
            };
            woken_all(t, i, now);
            assert(s.woken(i, now) == t.woken(i, now));
        } else {
            woken_all(s, i + 1, now);
            assert(s.woken(i, now) == s.woken(i + 1, now));
        }
    }
}

proof fn picked_keeps_sleepers(s: SchedView)
    ensures
        s.picked().0.sleepers == s.sleepers,
    decreases s.ready.len(),
{
    if s.ready.len() > 0 {
        picked_keeps_sleepers(SchedView { ready: s.ready.skip(1), ..s });
    }
}

/// No task sleeps past its tick: after a turn at `now`, every task that still
/// sleeps waits for a later tick.
pub proof fn sleepers_are_woken(s: SchedView, now: u64)
    requires
        s.wf(),
        s.running,
    ensures
        forall|k: int|
            0 <= k < s.turn(now).0.sleepers.len() ==> (#[trigger] s.turn(now).0.sleepers[k]).1
                > now,
{
    woken_all(s, 0, now);
    picked_keeps_sleepers(s.woken(0, now).requeued());
}

proof fn woken_sleepers_stay(s: SchedView, i: int, now: u64, id: u32)
    requires
        0 <= i,
        forall|k: int|
            0 <= k < s.sleepers.len() && (#[trigger] s.sleepers[k]).0 == id ==> s.sleepers[k].1
                > now,
        id < s.tasks.len(),
        s.tasks[id as int].state != TaskState::Ready,
        s.wf(),
        s.running,
    ensures
        s.woken(i, now).tasks[id as int].state != TaskState::Ready,
    decreases s.sleepers.len() - i,
{
    if i < s.sleepers.len() {
        if s.sleepers[i].1 <= now {
            let t = SchedView {
                sleepers: s.sleepers.update(i, s.sleepers.last()).drop_last(),
                tasks: with_state(s.tasks, s.sleepers[i].0, TaskState::Ready),
                ready: s.ready.push(s.sleepers[i].0),
                ..s
            };
            assert(s.sleepers[i].0 != id);
            assert forall|k: int|
                0 <= k < t.sleepers.len() && (#[trigger] t.sleepers[k]).0 == id implies
                t.sleepers[k].1 > now by {
                if k == i {
                    assert(t.sleepers[k] == s.sleepers[s.sleepers.len() - 1]);
                } else {
                    assert(t.sleepers[k] == s.sleepers[k]);
                }
            }
            assert(t.wf());
            woken_sleepers_stay(t, i, now, id);
        } else {
            woken_sleepers_stay(s, i + 1, now, id);
        }
    }
}

/// A sleeping task does not run early: a turn before its tick does not switch
/// to it. Nor does a turn switch to a task that has ended.
pub proof fn sleeping_tasks_do_not_run(s: SchedView, now: u64, id: u32)
    requires
        s.wf(),
        s.running,
        id < s.tasks.len(),
        s.tasks[id as int].state != TaskState::Ready,
        forall|k: int|
            0 <= k < s.sleepers.len() && (#[trigger] s.sleepers[k]).0 == id ==> s.sleepers[k].1
                > now,
    ensures
        s.turn(now).1 != Some(id),
{
    woken_keeps_order(s, 0, now);
    woken_sleepers_stay(s, 0, now, id);
    let w = s.woken(0, now).requeued();
    assert(w.wf());
    picked_keeps_order(w);
}

proof fn woken_extends_queue(s: SchedView, i: int, now: u64)
    requires
        0 <= i,
    ensures
        s.ready.len() <= s.woken(i, now).ready.len(),
        forall|k: int|
            0 <= k < s.ready.len() ==> #[trigger] s.woken(i, now).ready[k] == s.ready[k],
    decreases s.sleepers.len() - i,
{
    if i < s.sleepers.len() {
        if s.sleepers[i].1 <= now {
            let t = SchedView {
                sleepers: s.sleepers.update(i, s.sleepers.last()).drop_last(),
                tasks: with_state(s.tasks, s.sleepers[i].0, TaskState::Ready),
                ready: s.ready.push(s.sleepers[i].0),
                ..s
            };
            woken_extends_queue(t, i, now);
            assert forall|k: int| 0 <= k < s.ready.len() implies #[trigger] s.woken(
                i,
                now,
            ).ready[k] == s.ready[k] by {
                assert(t.ready[k] == s.ready[k]);
                assert(t.woken(i, now).ready[k] == t.ready[k]);
            }
        } else {
            woken_extends_queue(s, i + 1, now);
        }
    }
}

proof fn woken_keeps_ready(s: SchedView, i: int, now: u64, id: u32)
    requires
        0 <= i,
        id < s.tasks.len(),
        s.wf(),
        s.running,
        s.tasks[id as int].state == TaskState::Ready,
    ensures
        s.woken(i, now).tasks[id as int].state == TaskState::Ready,
    decreases s.sleepers.len() - i,
{
    if i < s.sleepers.len() {
        if s.sleepers[i].1 <= now {
            let t = SchedView {
                sleepers: s.sleepers.update(i, s.sleepers.last()).drop_last(),
                tasks: with_state(s.tasks, s.sleepers[i].0, TaskState::Ready),
                ready: s.ready.push(s.sleepers[i].0),
                ..s
            };
            assert(t.wf());
            woken_keeps_ready(t, i, now, id);
        } else {
            woken_keeps_ready(s, i + 1, now, id);
        }
    }
}

proof fn picked_moves_forward(s: SchedView, k: int)
    requires
        s.wf(),
        s.running,
        0 <= k < s.ready.len(),
        s.ready[k] != s.current,
        s.tasks[s.ready[k] as int].state == TaskState::Ready,
    ensures
        s.picked().1 is Some,
        s.picked().1 == Some(s.ready[k]) || exists|j: int|
            0 <= j < k && j < s.picked().0.ready.len() && #[trigger] s.picked().0.ready[j]
                == s.ready[k],
    decreases s.ready.len(),
{
    let id = s.ready[0];
    let rest = SchedView { ready: s.ready.skip(1), ..s };
    if id == s.current || s.tasks[id as int].state != TaskState::Ready {
        assert(rest.wf());
        assert(rest.ready[k - 1] == s.ready[k]);
        picked_moves_forward(rest, k - 1);
        assert(s.picked() == rest.picked());
    } else if k > 0 {
        assert(rest.ready[k - 1] == s.ready[k]);
        assert(s.picked().0.ready[k - 1] == s.ready[k]);
    }
}

/// Round robin: with every turn a ready task that waits in the queue either
/// runs or moves forward, so it runs after at most as many turns as its place
/// in the queue.
pub proof fn waiting_tasks_move_forward(s: SchedView, now: u64, k: int)
    requires
        s.wf(),
        s.running,
        0 <= k < s.ready.len(),
        s.ready[k] != s.current,
        s.tasks[s.ready[k] as int].state == TaskState::Ready,
    ensures
        s.turn(now).1 is Some,
        s.turn(now).1 == Some(s.ready[k]) || exists|j: int|
            0 <= j < k && j < s.turn(now).0.ready.len() && #[trigger] s.turn(now).0.ready[j]
                == s.ready[k],
{
    woken_keeps_order(s, 0, now);
    woken_extends_queue(s, 0, now);
    woken_keeps_ready(s, 0, now, s.ready[k]);
    let w = s.woken(0, now).requeued();
    assert(w.wf());
    assert(w.ready[k] == s.ready[k]);
    picked_moves_forward(w, k);
    if s.turn(now).1 != Some(s.ready[k]) {
        let j = choose|j: int|
            0 <= j < k && j < w.picked().0.ready.len() && #[trigger] w.picked().0.ready[j]
                == w.ready[k];
        assert(s.turn(now).0.ready[j] == s.ready[k]);
    }
}

impl Scheduler {
    pub open spec fn seen(&self) -> SchedView {
        SchedView {
            tasks: self.tasks@,
            ready: self.ready@,
            sleepers: self.sleepers@,
            current: self.current,
            running: self.running,
            task_switches: self.task_switches,
        }
    }

    pub open spec fn wf(&self) -> bool {
        self.seen().wf()
    }

    /// A scheduler that has not started.
    pub fn new() -> (s: Scheduler)
        ensures
            s.wf(),
            s.seen() == (SchedView {
                tasks: Seq::empty(),
                ready: Seq::empty(),
                sleepers: Seq::empty(),
                current: 0,
                running: false,
                task_switches: 0,
            }),
    {
        Scheduler {
            tasks: Vec::new(),
            ready: VecDeque::new(),
            sleepers: Vec::new(),
            current: 0,
            running: false,
            task_switches: 0,
        }
    }

    fn wake(&mut self, now: u64)
        requires
            old(self).wf(),
            old(self).running,
        ensures
            final(self).seen() == old(self).seen().woken(0, now),
            final(self).wf(),
            final(self).running,
    {
        proof {
            woken_keeps_order(self.seen(), 0, now);
        }
        let mut i: usize = 0;
        while i < self.sleepers.len()
            invariant
                self.wf(),
                self.running,
                i <= self.sleepers@.len(),
                old(self).seen().woken(0, now) == self.seen().woken(i as int, now),
            decreases self.sleepers@.len() - i,
        {
            if self.sleepers[i].1 <= now {
                let id: u32 = self.sleepers[i].0;
                let ghost s = self.seen();
                self.sleepers.swap_remove(i);
                let mut t: Task = self.tasks[id as usize];
                t.state = TaskState::Ready;
                self.tasks.set(id as usize, t);
                self.ready.push_back(id);
                assert(self.seen() =~= (SchedView {
                    sleepers: s.sleepers.update(i as int, s.sleepers.last()).drop_last(),
                    tasks: with_state(s.tasks, id, TaskState::Ready),
                    ready: s.ready.push(id),
                    ..s
                }));
            } else {
                i += 1;
            }
        }
    }

    fn pick(&mut self) -> (r: Option<u32>)
        requires
            old(self).wf(),
            old(self).running,
        ensures
            (final(self).seen(), r) == old(self).seen().picked(),
    {
        while self.ready.len() > 0
            invariant
                self.wf(),
                self.running,
                old(self).seen().picked() == self.seen().picked(),
            decreases self.ready@.len(),
        {
            let ghost s = self.seen();
            if let Some(id) = self.ready.pop_front() {
                assert(self.ready@ =~= s.ready.skip(1));
                assert(s.ready[0] == id);
                assert(self.seen() =~= (SchedView { ready: s.ready.skip(1), ..s }));
                if id != self.current && self.tasks[id as usize].state == TaskState::Ready {
                    return Some(id);
                }
            }
        }
        None
    }

    fn count_switch(&mut self, id: u32)
        requires
            id < old(self).tasks@.len(),
        ensures
            final(self).seen() == (SchedView {
                tasks: counted(old(self).tasks@, id),
                ..old(self).seen()
            }),
    {
        let mut t: Task = self.tasks[id as usize];
        t.switches = t.switches.wrapping_add(1);
        self.tasks.set(id as usize, t);
    }
}

pub fn active(sch: &Scheduler) -> (r: bool)
    ensures
        r == sch.running,
{
    sch.running
}

pub fn switches(sch: &Scheduler) -> (n: u64)
    ensures
        n == sch.task_switches,
{
    sch.task_switches
}

/// Starts the scheduler: the kernel becomes a task, and the task with the number
/// 0, which is the kernel where no task was added before, is ready to run.
pub fn init(sch: &mut Scheduler)
    requires
        old(sch).wf(),
    ensures
        final(sch).wf(),
        final(sch).seen() == (SchedView {
            tasks: old(sch).tasks@.push(
                Task { name: "kernel", saved_rsp: 0, state: TaskState::Ready, switches: 0 },
            ),
            ready: old(sch).ready@.push(0),
            running: true,
            ..old(sch).seen()
        }),
{
    sch.tasks.push(
        Task { name: "kernel", saved_rsp: 0, state: TaskState::Ready, switches: 0 },
    );
    sch.ready.push_back(0);
    sch.running = true;
    assert forall|i: int| 0 <= i < sch.seen().ready.len() implies (#[trigger]
    sch.seen().ready[i]) < sch.tasks@.len() by {
        if i < old(sch).ready@.len() {
            assert(sch.seen().ready[i] == old(sch).seen().ready[i]);
        }
    }
    assert forall|i: int| 0 <= i < sch.seen().sleepers.len() implies (#[trigger]
    sch.seen().sleepers[i]).0 < sch.tasks@.len() by {
        assert(old(sch).seen().sleepers[i].0 < old(sch).tasks@.len());
    }
}

/// Adds a task whose stack starts at `stack`: its number, and the stack
/// pointer that it starts with. The entry point goes to the seventh word
/// above that pointer. There is no answer where the table is full.
pub fn spawn(sch: &mut Scheduler, name: &'static str, stack: u64) -> (r: Option<(u32, u64)>)
    requires
        old(sch).wf(),
        stack + STACK_BYTES <= u64::MAX,
    ensures
        final(sch).wf(),
        old(sch).tasks@.len() >= MAX_TASKS ==> r is None && final(sch).seen()
            == old(sch).seen(),
        old(sch).tasks@.len() < MAX_TASKS ==> {
            let id = old(sch).tasks@.len() as u32;
            let sp = ((stack + STACK_BYTES) / 16 * 16 - 56) as u64;
            &&& r == Some((id, sp))
            &&& final(sch).seen() == (SchedView {
                tasks: old(sch).tasks@.push(
                    Task { name, saved_rsp: sp, state: TaskState::Ready, switches: 0 },
                ),
                ready: old(sch).ready@.push(id),
                ..old(sch).seen()
            })
        },
{
    if sch.tasks.len() >= MAX_TASKS {
        return None;
    }
    let id: u32 = sch.tasks.len() as u32;
    let top: u64 = stack + STACK_BYTES;
    let sp: u64 = top / 16 * 16 - 56;
    sch.tasks.push(Task { name, saved_rsp: sp, state: TaskState::Ready, switches: 0 });
    sch.ready.push_back(id);
    assert forall|i: int| 0 <= i < sch.seen().ready.len() implies (#[trigger]
    sch.seen().ready[i]) < sch.tasks@.len() by {
        if i < old(sch).ready@.len() {
            assert(sch.seen().ready[i] == old(sch).seen().ready[i]);
        }
    }
    assert forall|i: int| 0 <= i < sch.seen().sleepers.len() implies (#[trigger]
    sch.seen().sleepers[i]).0 < sch.tasks@.len() by {
        assert(old(sch).seen().sleepers[i].0 < old(sch).tasks@.len());
    }
    Some((id, sp))
}

/// Called from the timer interrupt. Moves the current task to the back of
/// the ready queue and picks the next ready task, if any. The answer is
/// that task and its saved stack pointer; the pointer of the task that
/// leaves is saved with [`save_rsp`].
pub fn schedule(sch: &mut Scheduler, now: u64) -> (r: Option<(u32, u64)>)
    requires
        old(sch).wf(),
    ensures
        final(sch).wf(),
        final(sch).seen() == old(sch).seen().turn(now).0,
        r == (match old(sch).seen().turn(now).1 {
            Some(id) => Some((id, final(sch).tasks@[id as int].saved_rsp)),
            None => None,
        }),
{
    let ghost s0 = sch.seen();
    proof {
        turn_keeps_order(s0, now);
    }
    if !sch.running {
        return None;
    }
    sch.wake(now);
    let cur: u32 = sch.current;
    if sch.tasks[cur as usize].state == TaskState::Ready {
        sch.ready.push_back(cur);
    }
    assert(sch.seen() =~= s0.woken(0, now).requeued());
    proof {
        picked_keeps_order(sch.seen());
    }
    match sch.pick() {
        None => None,
        Some(id) => {
            sch.current = id;
            sch.task_switches = sch.task_switches.wrapping_add(1);
            sch.count_switch(cur);
            sch.count_switch(id);
            Some((id, sch.tasks[id as usize].saved_rsp))
        },
    }
}

/// Notes the stack pointer of a task that was switched away from.
pub fn save_rsp(sch: &mut Scheduler, id: u32, rsp: u64)
    requires
        old(sch).wf(),
        id < old(sch).tasks@.len(),
    ensures
        final(sch).wf(),
        final(sch).seen() == (SchedView {
            tasks: old(sch).tasks@.update(
                id as int,
                Task { saved_rsp: rsp, ..old(sch).tasks@[id as int] },
            ),
            ..old(sch).seen()
        }),
{
    let mut t: Task = sch.tasks[id as usize];
    t.saved_rsp = rsp;
    sch.tasks.set(id as usize, t);
}

/// Puts the current task to sleep until `target` ticks.
pub fn sleep_until(sch: &mut Scheduler, target: u64)
    requires
        old(sch).wf(),
        old(sch).running,
    ensures
        final(sch).wf(),
        final(sch).seen() == (SchedView {
            tasks: with_state(
                old(sch).tasks@,
                old(sch).current,
                TaskState::Sleeping(target),
            ),
            sleepers: old(sch).sleepers@.push((old(sch).current, target)),
            ..old(sch).seen()
        }),
{
    let cur: u32 = sch.current;
    let mut t: Task = sch.tasks[cur as usize];
    t.state = TaskState::Sleeping(target);
    sch.tasks.set(cur as usize, t);
    sch.sleepers.push((cur, target));
    assert forall|i: int| 0 <= i < sch.seen().sleepers.len() implies (#[trigger]
    sch.seen().sleepers[i]).0 < sch.tasks@.len() by {
        if i < old(sch).sleepers@.len() {
            assert(sch.seen().sleepers[i] == old(sch).seen().sleepers[i]);
        }
    }
}

/// Ends the current task: it is never picked again.
pub fn terminate_current(sch: &mut Scheduler)
    requires
        old(sch).wf(),
        old(sch).running,
    ensures
        final(sch).wf(),
        final(sch).seen() == (SchedView {
            tasks: with_state(old(sch).tasks@, old(sch).current, TaskState::Terminated),
            ..old(sch).seen()
        }),
{
    let cur: u32 = sch.current;
    let mut t: Task = sch.tasks[cur as usize];
    t.state = TaskState::Terminated;
    sch.tasks.set(cur as usize, t);
}

/// The line that the boot log shows when the scheduler starts.
pub open spec fn init_text() -> Seq<char> {
    "Scheduler: round-robin, 1 task (kernel), 64 KB stacks"@
}

pub fn init_line() -> (v: Vec<char>)
    ensures
        v@ == init_text(),
{
    text::chars_of("Scheduler: round-robin, 1 task (kernel), 64 KB stacks")
}

// ---------- laws ----------

proof fn woken_keeps_stacks(s: SchedView, i: int, now: u64)
    requires
        0 <= i,
        s.wf(),
        s.running,
    ensures
        s.woken(i, now).tasks.len() == s.tasks.len(),
        forall|k: int|
            0 <= k < s.tasks.len() ==> (#[trigger] s.woken(i, now).tasks[k]).saved_rsp
                == s.tasks[k].saved_rsp && s.woken(i, now).tasks[k].name == s.tasks[k].name && s.woken(
                i,
                now,
            ).tasks[k].switches == s.tasks[k].switches,
        s.woken(i, now).task_switches == s.task_switches,
    decreases s.sleepers.len() - i,
{
    if i < s.sleepers.len() {
        if s.sleepers[i].1 <= now {
            let id = s.sleepers[i].0;
            let t = SchedView {
                sleepers: s.sleepers.update(i, s.sleepers.last()).drop_last(),
                tasks: with_state(s.tasks, id, TaskState::Ready),
                ready: s.ready.push(id),
                ..s
            };
            assert(t.wf());
            woken_keeps_stacks(t, i, now);
            assert forall|k: int| 0 <= k < s.tasks.len() implies (#[trigger] s.woken(
                i,
                now,
            ).tasks[k]).saved_rsp == s.tasks[k].saved_rsp && s.woken(i, now).tasks[k].name
                == s.tasks[k].name && s.woken(i, now).tasks[k].switches == s.tasks[k].switches by {
                assert(t.woken(i, now).tasks[k].saved_rsp == t.tasks[k].saved_rsp);
            }
        } else {
            woken_keeps_stacks(s, i + 1, now);
        }
    }
}

/// A turn keeps every task's name and stack, counts a switch for the task that
/// leaves and the one that comes, and one in all; without a switch nothing is
/// counted.
pub proof fn turns_keep_the_stacks(s: SchedView, now: u64, k: int)
    requires
        s.wf(),
        s.running,
        0 <= k < s.tasks.len(),
    ensures
        ({
            let (t, next) = s.turn(now);
            &&& t.tasks.len() == s.tasks.len()
            &&& t.tasks[k].name == s.tasks[k].name
            &&& t.tasks[k].saved_rsp == s.tasks[k].saved_rsp
            &&& next is None ==> t.current == s.current && t.tasks[k].switches == s.tasks[k].switches
                && t.task_switches == s.task_switches
            &&& next matches Some(id) ==> {
                &&& t.current == id
                &&& t.task_switches == s.task_switches.wrapping_add(1)
                &&& t.tasks[k].switches == (if k == s.current || k == id {
                    s.tasks[k].switches.wrapping_add(1)
                } else {
                    s.tasks[k].switches
                })
            }
        }),
{
    woken_keeps_order(s, 0, now);
    woken_keeps_stacks(s, 0, now);
    let w = s.woken(0, now);
    assert(w.tasks[k].saved_rsp == s.tasks[k].saved_rsp);
    assert(w.requeued().wf());
    picked_keeps_order(w.requeued());
    picked_keeps_counts(w.requeued());
}

proof fn picked_keeps_counts(s: SchedView)
    ensures
        s.picked().0.task_switches == s.task_switches,
    decreases s.ready.len(),
{
    if s.ready.len() > 0 {
        picked_keeps_counts(SchedView { ready: s.ready.skip(1), ..s });
    }
}

proof fn picked_keeps_the_last(s: SchedView)
    requires
        s.ready.len() > 0,
        s.ready.last() == s.current,
        s.picked().1 is Some,
    ensures
        s.picked().0.ready.len() > 0,
        s.picked().0.ready.last() == s.current,
    decreases s.ready.len(),
{
    let id = s.ready[0];
    let rest = SchedView { ready: s.ready.skip(1), ..s };
    if s.ready.len() == 1 {
        assert(rest.ready.len() == 0);
        assert(rest.picked().1 is None);
    } else {
        assert(rest.ready.last() == s.ready.last());
        if id == s.current || s.tasks[id as int].state != TaskState::Ready {
            picked_keeps_the_last(rest);
        }
    }
}

proof fn woken_keeps_others(s: SchedView, i: int, now: u64)
    requires
        0 <= i,
        s.wf(),
        s.running,
        s.tasks[s.current as int].state == TaskState::Ready,
    ensures
        s.woken(i, now).tasks[s.current as int].state == TaskState::Ready,
    decreases s.sleepers.len() - i,
{
    if i < s.sleepers.len() {
        if s.sleepers[i].1 <= now {
            let t = SchedView {
                sleepers: s.sleepers.update(i, s.sleepers.last()).drop_last(),
                tasks: with_state(s.tasks, s.sleepers[i].0, TaskState::Ready),
                ready: s.ready.push(s.sleepers[i].0),
                ..s
            };
            assert(t.wf());
            woken_keeps_others(t, i, now);
        } else {
            woken_keeps_others(s, i + 1, now);
        }
    }
}

/// A task that is switched away from while it is ready goes to the back of the
/// queue: all that wait come first, and it comes again.
pub proof fn leaving_task_goes_to_the_back(s: SchedView, now: u64)
    requires
        s.wf(),
        s.running,
        s.tasks[s.current as int].state == TaskState::Ready,
        s.turn(now).1 is Some,
    ensures
        s.turn(now).0.ready.len() > 0,
        s.turn(now).0.ready.last() == s.current,
{
    woken_keeps_order(s, 0, now);
    woken_keeps_others(s, 0, now);
    let w = s.woken(0, now).requeued();
    assert(w.ready.last() == w.current);
    picked_keeps_the_last(w);
}

} // verus!
