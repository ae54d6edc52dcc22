use crate::timer::{le_count, lemma_le_prefix_exists, not_of_task, tasks_of, timer_sorted, TimerEntry, TimerQueue};
use crate::channel::{Channel, Poll};
use vstd::prelude::*;

verus! {

/// One step of a task's program.
#[derive(Clone, Copy, PartialEq, Eq, Debug)]
pub enum Step {
    /// Records the label in the run's log, then goes on.
    Emit(u64),
    /// Suspends until the clock has advanced by the given number of milliseconds.
    Sleep(u64),
    /// Suspends once, going to the back of the ready queue.
    Yield,
    /// Spawns the program with this index as a new task (its handle is the next task id).
    Spawn(usize),
    /// Suspends until the task with this handle has finished. A handle that names no task,
    /// or a task that was dropped, gives `Cancelled`, which is logged, and the program goes on.
    Await(usize),
    /// Drops the unfinished task with this handle, as a race drops its loser: its timers are
    /// released, it leaves the ready queue, and the tasks awaiting it are woken (their await
    /// gives `Cancelled`). A finished task, the running task itself, or a handle that names
    /// no task is left alone.
    Abort(usize),
    /// Opens a channel of `u64` messages with one sender; its id is the number of channels
    /// opened before it.
    Open,
    /// Sends the value on the channel, waking its parked receiver.
    Send(usize, u64),
    /// Receives from the channel: logs the oldest message, or logs that the channel is closed
    /// and drained; with nothing queued and a sender left, parks the task until a send or the
    /// last sender's drop, then tries again.
    Recv(usize),
    /// Clones a sender of the channel.
    CloneSender(usize),
    /// Drops a sender of the channel; dropping the last one closes it and wakes its receiver.
    DropSender(usize),
}

/// What a log entry records.
#[derive(Clone, Copy, PartialEq, Eq, Debug)]
pub enum Output {
    /// The task emitted this label.
    Emit(u64),
    /// The task awaited this handle, which names no task or a dropped one: the await failed
    /// with `Cancelled`.
    Cancelled(usize),
    /// The task received this message.
    Received(u64),
    /// The task found this channel closed and drained.
    Closed(usize),
    /// The task used a channel that does not exist, or cloned or dropped a sender of one
    /// that has none left.
    BadChannel(usize),
}

/// An entry of the run's log: what task `task` produced at instant `at`.
#[derive(Clone, Copy, PartialEq, Eq, Debug)]
pub struct Event {
    pub at: u64,
    pub task: usize,
    pub what: Output,
}

/// Executor bookkeeping for one task: which program it runs, how far it got, whether it has
/// stopped, whether it stopped by being dropped, and the task it awaits, if it is parked on one.
#[derive(Clone, Copy, PartialEq, Eq, Debug)]
pub struct TaskState {
    pub program: usize,
    pub pc: usize,
    pub done: bool,
    pub cancelled: bool,
    pub awaiting: Option<usize>,
}

/// What one tick of the executor did.
#[derive(Clone, Copy, PartialEq, Eq, Debug)]
pub enum Tick {
    /// The task with this id was given one poll.
    Polled(usize),
    /// The ready queue was empty: advanced the clock to the earliest deadline and woke the
    /// tasks that were due.
    Advanced(u64),
    /// Nothing is ready and no timer is pending.
    Idle,
}

/// The result of `run`: the log, which tasks finished (by handle), whether the root task
/// finished, the clock when the run stopped, the number of ticks taken, and whether it
/// stopped because nothing could make progress any more.
pub struct RunReport {
    pub log: Vec<Event>,
    pub finished: Vec<bool>,
    pub root_done: bool,
    pub now: u64,
    pub ticks: u64,
    pub idle: bool,
}

/// Awaiting a handle whose task was dropped unfinished when the run stopped.
#[derive(Clone, Copy, PartialEq, Eq, Debug)]
pub struct Cancelled;

impl RunReport {
    /// The outcome of awaiting handle `h` after the run: `Ok` if that task finished,
    /// `Err(Cancelled)` if it was dropped unfinished or never spawned.
    pub fn await_handle(&self, h: usize) -> (r: Result<(), Cancelled>)
        ensures
            r is Ok <==> (h < self.finished@.len() && self.finished@[h as int]),
    {
        if h < self.finished.len() && self.finished[h] {
            Ok(())
        } else {
            Err(Cancelled)
        }
    }
}

// ---------------------------------------------------------------- the model

/// The state of an executor: its tasks (task 0 is the root), the FIFO ready queue, the
/// pending timers in firing order, the number of timers registered so far, the clock and
/// the log.
pub ghost struct ExecView {
    pub tasks: Seq<TaskState>,
    pub ready: Seq<usize>,
    pub timers: Seq<TimerEntry>,
    pub issued: u64,
    pub now: u64,
    pub log: Seq<Event>,
    pub chans: Seq<ChanView>,
}

/// The state of a channel: its queued messages, its live senders, whether its receiver
/// lives, and the task parked on it.
pub ghost struct ChanView {
    pub queue: Seq<u64>,
    pub senders: nat,
    pub receiver: bool,
    pub parked: Option<usize>,
}

pub open spec fn chan_view(c: Channel<u64>) -> ChanView {
    ChanView { queue: c@, senders: c.senders(), receiver: c.has_receiver(), parked: c.parked() }
}

/// The state with `what` logged for task `t` at the current instant.
pub open spec fn logged(s: ExecView, t: usize, what: Output) -> ExecView {
    ExecView { log: s.log.push(Event { at: s.now, task: t, what }), ..s }
}

/// Waking the task `w`, if there is one.
pub open spec fn wake_opt(ready: Seq<usize>, w: Option<usize>) -> Seq<usize> {
    match w {
        Some(x) => wake_spec(ready, x),
        None => ready,
    }
}

/// Every `Spawn` step names a program that exists.
pub open spec fn programs_valid(progs: Seq<Seq<Step>>) -> bool {
    forall|p: int, i: int|
        0 <= p < progs.len() && 0 <= i < progs[p].len() ==> match #[trigger] progs[p][i] {
            Step::Spawn(q) => q < progs.len(),
            _ => true,
        }
}

/// Log entries are in virtual-time order and none is later than `now`.
pub open spec fn log_ordered(log: Seq<Event>, now: u64) -> bool {
    &&& forall|i: int, j: int| 0 <= i <= j < log.len() ==> (#[trigger] log[i]).at <= (#[trigger] log[j]).at
    &&& forall|i: int| 0 <= i < log.len() ==> (#[trigger] log[i]).at <= now
}

/// Waking `t`: it goes to the back of the ready queue unless it is already in it.
pub open spec fn wake_spec(ready: Seq<usize>, t: usize) -> Seq<usize> {
    if ready.contains(t) {
        ready
    } else {
        ready.push(t)
    }
}

/// Waking the tasks `ts`, in order.
pub open spec fn wake_seq(ready: Seq<usize>, ts: Seq<usize>) -> Seq<usize>
    decreases ts.len(),
{
    if ts.len() == 0 {
        ready
    } else {
        wake_spec(wake_seq(ready, ts.drop_last()), ts.last())
    }
}

/// When a sleep of `d` milliseconds starting at `now` ends; the clock saturates.
pub open spec fn sleep_deadline(now: u64, d: u64) -> u64 {
    if d > u64::MAX - now {
        u64::MAX
    } else {
        (now + d) as u64
    }
}

/// Keeps every task id but `h`.
pub open spec fn other_than(h: usize) -> spec_fn(usize) -> bool {
    |x: usize| x != h
}

/// A channel with task `h` no longer parked on it.
pub open spec fn unparked(cv: ChanView, h: usize) -> ChanView {
    if cv.parked == Some(h) {
        ChanView { parked: None, ..cv }
    } else {
        cv
    }
}

/// Every channel with task `h` no longer parked on it.
pub open spec fn unpark_all(chans: Seq<ChanView>, h: usize) -> Seq<ChanView> {
    chans.map_values(|cv: ChanView| unparked(cv, h))
}

/// Drops task `h`: it stops as cancelled, its timers and its place as a parked receiver are
/// released, it leaves the ready queue, and the tasks awaiting it are woken (their await, run
/// again, gives `Cancelled`).
pub open spec fn drop_task(s: ExecView, h: usize) -> ExecView {
    let th = s.tasks[h as int];
    wake_awaiters_from(
        ExecView {
            tasks: s.tasks.update(h as int, TaskState { done: true, cancelled: true, awaiting: None, ..th }),
            ready: s.ready.filter(other_than(h)),
            timers: s.timers.filter(not_of_task(h)),
            chans: unpark_all(s.chans, h),
            ..s
        },
        h,
        0,
    )
}

/// Wakes, in task order from `i` on, every task parked on the finished task `done`.
pub open spec fn wake_awaiters_from(s: ExecView, done: usize, i: int) -> ExecView
    decreases s.tasks.len() - i,
{
    if i < 0 || i >= s.tasks.len() {
        s
    } else if s.tasks[i].awaiting == Some(done) {
        let ts = s.tasks[i];
        wake_awaiters_from(
            ExecView {
                tasks: s.tasks.update(i, TaskState { awaiting: None, ..ts }),
                ready: wake_spec(s.ready, i as usize),
                ..s
            },
            done,
            i + 1,
        )
    } else {
        wake_awaiters_from(s, done, i + 1)
    }
}

/// Task `t` runs the steps of `prog` from `pc` on: `Emit`, `Spawn`, and an `Await` of a
/// finished task or of no task go on to the next step; `Sleep` registers a timer, `Yield`
/// requeues the task, and an `Await` of an unfinished task parks it, each ending the poll;
/// at the end of the program the task is done and its awaiters are woken.
pub open spec fn poll_from(s: ExecView, t: usize, prog: Seq<Step>, pc: int) -> ExecView
    decreases prog.len() - pc,
{
    if 0 <= pc < prog.len() {
        let ts = s.tasks[t as int];
        match prog[pc] {
            Step::Emit(l) => poll_from(
                ExecView { log: s.log.push(Event { at: s.now, task: t, what: Output::Emit(l) }), ..s },
                t,
                prog,
                pc + 1,
            ),
            Step::Sleep(d) => {
                let dl = sleep_deadline(s.now, d);
                ExecView {
                    tasks: s.tasks.update(t as int, TaskState { pc: (pc + 1) as usize, ..ts }),
                    timers: s.timers.insert(
                        le_count(s.timers, dl),
                        TimerEntry { deadline: dl, seq: s.issued, task: t },
                    ),
                    issued: (s.issued + 1) as u64,
                    ..s
                }
            },
            Step::Yield => ExecView {
                tasks: s.tasks.update(t as int, TaskState { pc: (pc + 1) as usize, ..ts }),
                ready: wake_spec(s.ready, t),
                ..s
            },
            Step::Spawn(q) => poll_from(
                ExecView {
                    tasks: s.tasks.push(TaskState { program: q, pc: 0, done: false, cancelled: false, awaiting: None }),
                    ready: wake_spec(s.ready, s.tasks.len() as usize),
                    ..s
                },
                t,
                prog,
                pc + 1,
            ),
            Step::Await(h) => if h < s.tasks.len() && !s.tasks[h as int].done {
                ExecView {
                    tasks: s.tasks.update(
                        t as int,
                        TaskState { pc: pc as usize, awaiting: Some(h), ..ts },
                    ),
                    ..s
                }
            } else if h < s.tasks.len() && !s.tasks[h as int].cancelled {
                poll_from(s, t, prog, pc + 1)
            } else {
                poll_from(
                    ExecView {
                        log: s.log.push(Event { at: s.now, task: t, what: Output::Cancelled(h) }),
                        ..s
                    },
                    t,
                    prog,
                    pc + 1,
                )
            },
            Step::Abort(h) => if h < s.tasks.len() && h != t && !s.tasks[h as int].done {
                poll_from(drop_task(s, h), t, prog, pc + 1)
            } else {
                poll_from(s, t, prog, pc + 1)
            },
            Step::Open => poll_from(
                ExecView {
                    chans: s.chans.push(ChanView { queue: Seq::empty(), senders: 1, receiver: true, parked: None }),
                    ..s
                },
                t,
                prog,
                pc + 1,
            ),
            Step::Send(c, v) => if c < s.chans.len() {
                let cv = s.chans[c as int];
                poll_from(
                    ExecView {
                        chans: s.chans.update(c as int, ChanView { queue: cv.queue.push(v), parked: None, ..cv }),
                        ready: wake_opt(s.ready, cv.parked),
                        ..s
                    },
                    t,
                    prog,
                    pc + 1,
                )
            } else {
                poll_from(logged(s, t, Output::BadChannel(c)), t, prog, pc + 1)
            },
            Step::Recv(c) => if c < s.chans.len() {
                let cv = s.chans[c as int];
                if cv.queue.len() > 0 {
                    poll_from(
                        logged(
                            ExecView { chans: s.chans.update(c as int, ChanView { queue: cv.queue.skip(1), ..cv }), ..s },
                            t,
                            Output::Received(cv.queue[0]),
                        ),
                        t,
                        prog,
                        pc + 1,
                    )
                } else if cv.senders == 0 {
                    poll_from(logged(s, t, Output::Closed(c)), t, prog, pc + 1)
                } else {
                    ExecView {
                        chans: s.chans.update(c as int, ChanView { parked: Some(t), ..cv }),
                        tasks: s.tasks.update(t as int, TaskState { pc: pc as usize, ..ts }),
                        ..s
                    }
                }
            } else {
                poll_from(logged(s, t, Output::BadChannel(c)), t, prog, pc + 1)
            },
            Step::CloneSender(c) => if c < s.chans.len() && 0 < s.chans[c as int].senders < usize::MAX {
                let cv = s.chans[c as int];
                poll_from(
                    ExecView { chans: s.chans.update(c as int, ChanView { senders: cv.senders + 1, ..cv }), ..s },
                    t,
                    prog,
                    pc + 1,
                )
            } else {
                poll_from(logged(s, t, Output::BadChannel(c)), t, prog, pc + 1)
            },
            Step::DropSender(c) => if c < s.chans.len() && s.chans[c as int].senders > 0 {
                let cv = s.chans[c as int];
                if cv.senders == 1 {
                    poll_from(
                        ExecView {
                            chans: s.chans.update(c as int, ChanView { senders: 0, parked: None, ..cv }),
                            ready: wake_opt(s.ready, cv.parked),
                            ..s
                        },
                        t,
                        prog,
                        pc + 1,
                    )
                } else {
                    poll_from(
                        ExecView {
                            chans: s.chans.update(c as int, ChanView { senders: (cv.senders - 1) as nat, ..cv }),
                            ..s
                        },
                        t,
                        prog,
                        pc + 1,
                    )
                }
            } else {
                poll_from(logged(s, t, Output::BadChannel(c)), t, prog, pc + 1)
            },
        }
    } else {
        let ts = s.tasks[t as int];
        wake_awaiters_from(
            ExecView { tasks: s.tasks.update(t as int, TaskState { pc: pc as usize, done: true, ..ts }), ..s },
            t,
            0,
        )
    }
}

/// One poll of task `t`: a finished task is left as it is.
pub open spec fn poll_spec(progs: Seq<Seq<Step>>, s: ExecView, t: usize) -> ExecView {
    let ts = s.tasks[t as int];
    if ts.done {
        s
    } else {
        poll_from(s, t, progs[ts.program as int], ts.pc as int)
    }
}

/// One tick: with a task ready, the first one is dequeued and polled. Otherwise, with a
/// timer pending, the clock advances to the earliest deadline (never backwards) and the due
/// timers fire, waking their tasks in firing order. Otherwise nothing happens.
pub open spec fn tick_spec(progs: Seq<Seq<Step>>, s: ExecView) -> (ExecView, Tick) {
    if s.ready.len() > 0 {
        let t = s.ready[0];
        (poll_spec(progs, ExecView { ready: s.ready.skip(1), ..s }, t), Tick::Polled(t))
    } else if s.timers.len() > 0 {
        let now = if s.timers[0].deadline > s.now { s.timers[0].deadline } else { s.now };
        let k = le_count(s.timers, now);
        (
            ExecView {
                now,
                timers: s.timers.skip(k),
                ready: wake_seq(s.ready, tasks_of(s.timers.take(k))),
                ..s
            },
            Tick::Advanced(now),
        )
    } else {
        (s, Tick::Idle)
    }
}

/// The state after `k` ticks from `s`.
pub open spec fn ticks_from(progs: Seq<Seq<Step>>, s: ExecView, k: nat) -> ExecView
    decreases k,
{
    if k == 0 {
        s
    } else {
        tick_spec(progs, ticks_from(progs, s, (k - 1) as nat)).0
    }
}

/// The state of a fresh executor: only the root task, ready; clock at 0.
pub open spec fn initial_view() -> ExecView {
    ExecView {
        tasks: seq![TaskState { program: 0, pc: 0, done: false, cancelled: false, awaiting: None }],
        ready: seq![0usize],
        timers: Seq::empty(),
        issued: 0,
        now: 0,
        log: Seq::empty(),
        chans: Seq::empty(),
    }
}

proof fn lemma_wake_seq_contains(ready: Seq<usize>, ts: Seq<usize>, j: int)
    requires
        0 <= j < ts.len(),
    ensures
        wake_seq(ready, ts).contains(ts[j]),
    decreases ts.len(),
{
    let prev = wake_seq(ready, ts.drop_last());
    if j == ts.len() - 1 {
        if !prev.contains(ts.last()) {
            assert(prev.push(ts.last())[prev.len() as int] == ts.last());
        }
    } else {
        lemma_wake_seq_contains(ready, ts.drop_last(), j);
        assert(ts.drop_last()[j] == ts[j]);
        if !prev.contains(ts.last()) {
            let w = choose|w: int| 0 <= w < prev.len() && prev[w] == ts[j];
            assert(prev.push(ts.last())[w] == ts[j]);
        }
    }
}

/// A sleeping task is woken exactly when its deadline has come. When nothing is ready and a
/// timer is pending, one tick advances the clock to the earliest deadline (no further), and
/// each registered entry is then either due, in which case its task is in the ready queue
/// and the entry is gone, or not yet due, in which case the entry is still registered: no
/// sleep ends early, and none is left behind once due.
pub proof fn lemma_sleep_wakes_when_due(progs: Seq<Seq<Step>>, s: ExecView, i: int)
    requires
        s.ready.len() == 0,
        timer_sorted(s.timers),
        0 <= i < s.timers.len(),
    ensures
        ({
            let (s2, r) = tick_spec(progs, s);
            let e = s.timers[i];
            &&& r == Tick::Advanced(s2.now)
            &&& s2.now == if s.timers[0].deadline > s.now { s.timers[0].deadline } else { s.now }
            &&& e.deadline <= s2.now ==> s2.ready.contains(e.task) && !s2.timers.contains(e)
            &&& e.deadline > s2.now ==> s2.timers.contains(e)
        }),
{
    let (s2, r) = tick_spec(progs, s);
    let now = s2.now;
    let k = le_count(s.timers, now);
    lemma_le_prefix_exists(s.timers, now);
    let e = s.timers[i];
    if i > k {
        assert(crate::timer::fires_before(s.timers[k], s.timers[i]));
    }
    if e.deadline <= now {
        assert(i < k);
        let ts = tasks_of(s.timers.take(k));
        assert(ts[i] == e.task);
        lemma_wake_seq_contains(s.ready, ts, i);
        if s2.timers.contains(e) {
            let j = choose|j: int| 0 <= j < s2.timers.len() && s2.timers[j] == e;
            assert(s.timers[k + j] == e);
            assert(crate::timer::fires_before(s.timers[i], s.timers[k + j]));
        }
    } else {
        assert(i >= k);
        assert(s2.timers[i - k] == e);
    }
}

// ---------------------------------------------------------------- the executor

/// A single-threaded cooperative executor on a virtual clock. Task 0 is the root.
pub struct Executor {
    programs: Vec<Vec<Step>>,
    tasks: Vec<TaskState>,
    ready: Vec<usize>,
    timers: TimerQueue,
    now: u64,
    log: Vec<Event>,
    chans: Vec<Channel<u64>>,
}

impl Executor {
    pub closed spec fn view(&self) -> ExecView {
        ExecView {
            tasks: self.tasks@,
            ready: self.ready@,
            timers: self.timers@,
            issued: self.timers.next_seq(),
            now: self.now,
            log: self.log@,
            chans: self.chans@.map_values(|c: Channel<u64>| chan_view(c)),
        }
    }

    /// The programs the tasks run.
    pub closed spec fn programs(&self) -> Seq<Seq<Step>> {
        self.programs@.map_values(|p: Vec<Step>| p@)
    }

    pub closed spec fn wf(&self) -> bool {
        &&& self.timers.wf()
        &&& self.tasks@.len() > 0
        &&& programs_valid(self.programs())
        &&& forall|i: int|
            0 <= i < self.tasks@.len() ==> (#[trigger] self.tasks@[i]).program < self.programs@.len()
                && self.tasks@[i].pc <= self.programs@[self.tasks@[i].program as int]@.len()
        &&& forall|i: int| 0 <= i < self.ready@.len() ==> (#[trigger] self.ready@[i]) < self.tasks@.len()
        &&& forall|i: int| 0 <= i < self.timers@.len() ==> (#[trigger] self.timers@[i]).task < self.tasks@.len()
        &&& log_ordered(self.log@, self.now)
        &&& forall|c: int|
            0 <= c < self.chans@.len() ==> (#[trigger] self.chans@[c]).has_receiver() && match self.chans@[c].parked() {
                Some(w) => w < self.tasks@.len(),
                None => true,
            }
    }

    /// An executor whose root task runs `programs[0]`; the root is ready, the clock at 0.
    pub fn new(programs: Vec<Vec<Step>>) -> (r: Executor)
        requires
            programs@.len() > 0,
            programs_valid(programs@.map_values(|p: Vec<Step>| p@)),
        ensures
            r.wf(),
            r@ == initial_view(),
            r.programs() == programs@.map_values(|p: Vec<Step>| p@),
    {
        let mut tasks: Vec<TaskState> = Vec::new();
        tasks.push(TaskState { program: 0, pc: 0, done: false, cancelled: false, awaiting: None });
        let mut ready: Vec<usize> = Vec::new();
        ready.push(0);
        let r = Executor { programs, tasks, ready, timers: TimerQueue::new(), now: 0, log: Vec::new(), chans: Vec::new() };
        assert(r.ready@ == seq![0usize]);
        assert(r.tasks@ == seq![TaskState { program: 0, pc: 0, done: false, cancelled: false, awaiting: None }]);
        assert(r@.chans =~= Seq::<ChanView>::empty());
        assert(r@ == initial_view());
        r
    }

    pub fn now_ms(&self) -> (r: u64)
        ensures
            r == self@.now,
    {
        self.now
    }

    /// The log so far.
    pub fn events(&self) -> (r: &Vec<Event>)
        ensures
            r@ == self@.log,
    {
        &self.log
    }

    /// Whether the root task has finished.
    pub fn root_done(&self) -> (r: bool)
        requires
            self.wf(),
        ensures
            r == self@.tasks[0].done,
    {
        self.tasks[0].done
    }

    fn wake(&mut self, t: usize)
        requires
            old(self).wf(),
            t < old(self).tasks@.len(),
        ensures
            final(self).wf(),
            final(self)@ == (ExecView { ready: wake_spec(old(self)@.ready, t), ..old(self)@ }),
            final(self).programs@ == old(self).programs@,
            final(self).timers == old(self).timers,
    {
        let n = self.ready.len();
        let mut i: usize = 0;
        while i < n
            invariant
                i <= n,
                n == self.ready@.len(),
                self.wf(),
                forall|k: int| 0 <= k < i ==> self.ready@[k] != t,
            decreases n - i,
        {
            if self.ready[i] == t {
                assert(self.ready@.contains(t));
                return;
            }
            i = i + 1;
        }
        assert(!self.ready@.contains(t));
        self.ready.push(t);
    }

    fn wake_awaiters(&mut self, done: usize)
        requires
            old(self).wf(),
        ensures
            final(self).wf(),
            final(self)@ == wake_awaiters_from(old(self)@, done, 0),
            final(self).programs@ == old(self).programs@,
            final(self).timers == old(self).timers,
            final(self).tasks@.len() == old(self).tasks@.len(),
            forall|i: int|
                0 <= i < old(self).tasks@.len() ==> (#[trigger] final(self).tasks@[i]).program
                    == old(self).tasks@[i].program && final(self).tasks@[i].done == old(self).tasks@[i].done,
    {
        let n = self.tasks.len();
        let mut i: usize = 0;
        while i < n
            invariant
                i <= n,
                n == self.tasks@.len(),
                self.wf(),
                self.programs@ == old(self).programs@,
                self.timers == old(self).timers,
                wake_awaiters_from(self@, done, i as int) == wake_awaiters_from(old(self)@, done, 0),
                forall|k: int|
                    0 <= k < n ==> (#[trigger] self.tasks@[k]).program == old(self).tasks@[k].program
                        && self.tasks@[k].done == old(self).tasks@[k].done,
            decreases n - i,
        {
            if self.tasks[i].awaiting == Some(done) {
                let mut ts = self.tasks[i];
                ts.awaiting = None;
                self.tasks.set(i, ts);
                self.wake(i);
            }
            i = i + 1;
        }
    }

    /// Logs `what` for task `t` at the current instant.
    fn log_event(&mut self, t: usize, what: Output)
        requires
            old(self).wf(),
        ensures
            final(self).wf(),
            final(self)@ == logged(old(self)@, t, what),
            final(self).programs@ == old(self).programs@,
            final(self).timers == old(self).timers,
            final(self).tasks@ == old(self).tasks@,
    {
        self.log.push(Event { at: self.now, task: t, what });
        assert(log_ordered(self.log@, self.now));
    }

    /// Releases every channel on which task `h` is parked.
    fn unpark_everywhere(&mut self, h: usize)
        requires
            old(self).wf(),
        ensures
            final(self).wf(),
            final(self)@ == (ExecView { chans: unpark_all(old(self)@.chans, h), ..old(self)@ }),
            final(self).programs@ == old(self).programs@,
            final(self).timers == old(self).timers,
            final(self).tasks@ == old(self).tasks@,
    {
        let ghost c0 = self@.chans;
        let n = self.chans.len();
        let mut i: usize = 0;
        while i < n
            invariant
                i <= n,
                n == self.chans@.len(),
                c0.len() == n,
                self.wf(),
                self.programs@ == old(self).programs@,
                self.timers == old(self).timers,
                self.tasks@ == old(self).tasks@,
                self.ready@ == old(self).ready@,
                self.now == old(self).now,
                self.log@ == old(self).log@,
                c0 == old(self)@.chans,
                forall|k: int| 0 <= k < i ==> chan_view(#[trigger] self.chans@[k]) == unparked(c0[k], h),
                forall|k: int| i <= k < n ==> chan_view(#[trigger] self.chans@[k]) == c0[k],
            decreases n - i,
        {
            self.chans[i].unpark(h);
            i = i + 1;
        }
        assert(self@.chans =~= unpark_all(c0, h));
    }

    /// Takes `h` out of the ready queue.
    fn drop_ready(&mut self, h: usize)
        requires
            old(self).wf(),
        ensures
            final(self).wf(),
            final(self)@ == (ExecView { ready: old(self)@.ready.filter(other_than(h)), ..old(self)@ }),
            final(self).programs@ == old(self).programs@,
    {
        let ghost s0 = self.ready@;
        let n = self.ready.len();
        let mut kept: Vec<usize> = Vec::new();
        proof {
            reveal(Seq::filter);
            assert(s0.take(0).filter(other_than(h)) =~= Seq::<usize>::empty());
        }
        let mut i: usize = 0;
        while i < n
            invariant
                i <= n,
                n == s0.len(),
                self.ready@ == s0,
                self.wf(),
                kept@ == s0.take(i as int).filter(other_than(h)),
                forall|a: int| 0 <= a < kept@.len() ==> (#[trigger] kept@[a]) < self.tasks@.len(),
            decreases n - i,
        {
            let x = self.ready[i];
            proof {
                assert(s0.take(i + 1) == s0.take(i as int).push(x));
                s0.take(i as int).lemma_filter_push(x, other_than(h));
            }
            if x != h {
                kept.push(x);
            }
            i = i + 1;
        }
        assert(s0.take(n as int) == s0);
        self.ready = kept;
    }

    /// Polls task `t`: runs its steps until one suspends it or its program ends.
    fn poll(&mut self, t: usize)
        requires
            old(self).wf(),
            t < old(self).tasks@.len(),
            old(self).timers.next_seq() < u64::MAX,
        ensures
            final(self).wf(),
            final(self)@ == poll_spec(old(self).programs(), old(self)@, t),
            final(self).programs@ == old(self).programs@,
            final(self).timers.next_seq() <= old(self).timers.next_seq() + 1,
    {
        if self.tasks[t].done {
            return;
        }
        let ghost progs = self.programs();
        let p = self.tasks[t].program;
        let ghost prog = progs[p as int];
        assert(prog == self.programs@[p as int]@);
        let len = self.programs[p].len();
        let mut pc = self.tasks[t].pc;
        while pc < len
            invariant
                self.wf(),
                self.programs@ == old(self).programs@,
                progs == self.programs(),
                t < self.tasks@.len(),
                self.tasks@[t as int].program == p,
                !self.tasks@[t as int].done,
                prog == self.programs@[p as int]@,
                len == prog.len(),
                pc <= len,
                self.timers.next_seq() == old(self).timers.next_seq(),
                old(self).timers.next_seq() < u64::MAX,
                poll_from(self@, t, prog, pc as int) == poll_spec(progs, old(self)@, t),
            decreases len - pc,
        {
            let step = self.programs[p][pc];
            assert(step == prog[pc as int]);
            let ghost s = self@;
            pc = pc + 1;
            match step {
                Step::Emit(label) => {
                    self.log.push(Event { at: self.now, task: t, what: Output::Emit(label) });
                    assert(log_ordered(self.log@, self.now));
                    assert(self@ == (ExecView {
                        log: s.log.push(Event { at: s.now, task: t, what: Output::Emit(label) }),
                        ..s
                    }));
                },
                Step::Sleep(d) => {
                    let deadline = if d > u64::MAX - self.now {
                        u64::MAX
                    } else {
                        self.now + d
                    };
                    self.timers.insert(deadline, t);
                    let mut ts = self.tasks[t];
                    ts.pc = pc;
                    self.tasks.set(t, ts);
                    assert(self.timers@ =~= s.timers.insert(
                        le_count(s.timers, deadline),
                        TimerEntry { deadline, seq: s.issued, task: t },
                    ));
                    assert forall|i: int| 0 <= i < self.timers@.len() implies (#[trigger] self.timers@[i]).task
                        < self.tasks@.len() by {
                        let k = le_count(s.timers, deadline);
                        if i < k {
                            assert(self.timers@[i] == s.timers[i]);
                        } else if i > k {
                            assert(self.timers@[i] == s.timers[i - 1]);
                        }
                    }
                    assert(self@ == poll_from(s, t, prog, pc - 1));
                    return;
                },
                Step::Yield => {
                    let mut ts = self.tasks[t];
                    ts.pc = pc;
                    self.tasks.set(t, ts);
                    self.wake(t);
                    assert(self@ == poll_from(s, t, prog, pc - 1));
                    return;
                },
                Step::Spawn(q) => {
                    assert(q < self.programs@.len()) by {
                        assert(progs[p as int][pc - 1] == step);
                    }
                    self.tasks.push(TaskState { program: q, pc: 0, done: false, cancelled: false, awaiting: None });
                    let id = self.tasks.len() - 1;
                    self.wake(id);
                    assert(self@ == (ExecView {
                        tasks: s.tasks.push(TaskState { program: q, pc: 0, done: false, cancelled: false, awaiting: None }),
                        ready: wake_spec(s.ready, s.tasks.len() as usize),
                        ..s
                    }));
                },
                Step::Await(h) => {
                    if h < self.tasks.len() && !self.tasks[h].done {
                        let mut ts = self.tasks[t];
                        ts.pc = pc - 1;
                        ts.awaiting = Some(h);
                        self.tasks.set(t, ts);
                        assert(self@ == poll_from(s, t, prog, pc - 1));
                        return;
                    } else if h >= self.tasks.len() || self.tasks[h].cancelled {
                        self.log.push(Event { at: self.now, task: t, what: Output::Cancelled(h) });
                        assert(log_ordered(self.log@, self.now));
                        assert(self@ == (ExecView {
                            log: s.log.push(Event { at: s.now, task: t, what: Output::Cancelled(h) }),
                            ..s
                        }));
                    }
                },
                Step::Abort(h) => {
                    if h < self.tasks.len() && h != t && !self.tasks[h].done {
                        let ghost timers0 = self.timers@;
                        self.timers.cancel_task(h);
                        assert forall|i: int| 0 <= i < self.timers@.len() implies (#[trigger] self.timers@[i]).task
                            < self.tasks@.len() by {
                            assert(timers0.contains(self.timers@[i]));
                        }
                        self.drop_ready(h);
                        self.unpark_everywhere(h);
                        let mut th = self.tasks[h];
                        th.done = true;
                        th.cancelled = true;
                        th.awaiting = None;
                        self.tasks.set(h, th);
                        assert(self@ == (ExecView {
                            tasks: s.tasks.update(
                                h as int,
                                TaskState { done: true, cancelled: true, awaiting: None, ..s.tasks[h as int] },
                            ),
                            ready: s.ready.filter(other_than(h)),
                            timers: s.timers.filter(not_of_task(h)),
                            chans: unpark_all(s.chans, h),
                            ..s
                        }));
                        self.wake_awaiters(h);
                    }
                },
                Step::Open => {
                    self.chans.push(Channel::new());
                    assert(self@.chans =~= s.chans.push(
                        ChanView { queue: Seq::empty(), senders: 1, receiver: true, parked: None },
                    ));
                },
                Step::Send(c, v) => {
                    if c < self.chans.len() {
                        let ghost cv = s.chans[c as int];
                        let res = self.chans[c].send(v);
                        assert(self@.chans =~= s.chans.update(
                            c as int,
                            ChanView { queue: cv.queue.push(v), parked: None, ..cv },
                        ));
                        if let Ok(Some(w)) = res {
                            self.wake(w);
                        }
                    } else {
                        self.log_event(t, Output::BadChannel(c));
                    }
                },
                Step::Recv(c) => {
                    if c < self.chans.len() {
                        let ghost cv = s.chans[c as int];
                        match self.chans[c].poll_recv(t) {
                            Poll::Ready(Some(v)) => {
                                assert(self@.chans =~= s.chans.update(
                                    c as int,
                                    ChanView { queue: cv.queue.skip(1), ..cv },
                                ));
                                self.log_event(t, Output::Received(v));
                            },
                            Poll::Ready(None) => {
                                assert(self@.chans =~= s.chans);
                                self.log_event(t, Output::Closed(c));
                            },
                            Poll::Pending => {
                                let mut ts = self.tasks[t];
                                ts.pc = pc - 1;
                                self.tasks.set(t, ts);
                                assert(self@.chans =~= s.chans.update(c as int, ChanView { parked: Some(t), ..cv }));
                                assert(self@ == poll_from(s, t, prog, pc - 1));
                                return;
                            },
                        }
                    } else {
                        self.log_event(t, Output::BadChannel(c));
                    }
                },
                Step::CloneSender(c) => {
                    if c < self.chans.len() && 0 < self.chans[c].senders_count() && self.chans[c].senders_count()
                        < usize::MAX {
                        let ghost cv = s.chans[c as int];
                        self.chans[c].clone_sender();
                        assert(self@.chans =~= s.chans.update(c as int, ChanView { senders: cv.senders + 1, ..cv }));
                    } else {
                        self.log_event(t, Output::BadChannel(c));
                    }
                },
                Step::DropSender(c) => {
                    if c < self.chans.len() && self.chans[c].senders_count() > 0 {
                        let ghost cv = s.chans[c as int];
                        let w = self.chans[c].drop_sender();
                        proof {
                            if cv.senders == 1 {
                                assert(self@.chans =~= s.chans.update(
                                    c as int,
                                    ChanView { senders: 0, parked: None, ..cv },
                                ));
                            } else {
                                assert(self@.chans =~= s.chans.update(
                                    c as int,
                                    ChanView { senders: (cv.senders - 1) as nat, ..cv },
                                ));
                            }
                        }
                        if let Some(x) = w {
                            self.wake(x);
                        }
                    } else {
                        self.log_event(t, Output::BadChannel(c));
                    }
                },
            }
        }
        let ghost s = self@;
        let mut ts = self.tasks[t];
        ts.pc = pc;
        ts.done = true;
        self.tasks.set(t, ts);
        assert(self@ == (ExecView {
            tasks: s.tasks.update(t as int, TaskState { pc: pc as usize, done: true, ..s.tasks[t as int] }),
            ..s
        }));
        self.wake_awaiters(t);
    }

    /// One step of the executor, exactly as `tick_spec` describes it.
    pub fn tick(&mut self) -> (r: Tick)
        requires
            old(self).wf(),
            old(self)@.issued < u64::MAX,
        ensures
            final(self).wf(),
            final(self).programs() == old(self).programs(),
            (final(self)@, r) == tick_spec(old(self).programs(), old(self)@),
            final(self)@.issued <= old(self)@.issued + 1,
    {
        let ghost s = self@;
        if self.ready.len() > 0 {
            let t = self.ready.remove(0);
            assert(self@ == (ExecView { ready: s.ready.skip(1), ..s }));
            assert(forall|i: int| 0 <= i < self.ready@.len() ==> self.ready@[i] == s.ready[i + 1]);
            self.poll(t);
            return Tick::Polled(t);
        }
        match self.timers.earliest() {
            None => Tick::Idle,
            Some(d) => {
                if d > self.now {
                    self.now = d;
                }
                let ghost before = self.timers@;
                let fired = self.timers.pop_expired(self.now);
                let n = fired.len();
                let ghost ts_all = tasks_of(before.take(n as int));
                assert(fired@.take(0) =~= Seq::<usize>::empty());
                let mut i: usize = 0;
                while i < n
                    invariant
                        i <= n,
                        n == fired@.len(),
                        self.wf(),
                        self.programs@ == old(self).programs@,
                        fired@ == ts_all,
                        forall|k: int| 0 <= k < n ==> (#[trigger] fired@[k]) < self.tasks@.len(),
                        self.timers@ == before.skip(n as int),
                        self.timers.next_seq() == old(self).timers.next_seq(),
                        self.now == (if d > old(self).now { d } else { old(self).now }),
                        self.log@ == old(self).log@,
                        self.tasks@ == old(self).tasks@,
                        self@.chans == s.chans,
                        self.ready@ == wake_seq(s.ready, fired@.take(i as int)),
                    decreases n - i,
                {
                    let t = fired[i];
                    self.wake(t);
                    assert(fired@.take(i + 1).drop_last() == fired@.take(i as int));
                    i = i + 1;
                }
                assert(fired@.take(n as int) == fired@);
                assert(before == s.timers);
                Tick::Advanced(self.now)
            },
        }
    }
}

/// Whether every `Spawn` step of `programs` names a program that exists.
pub fn check_programs(programs: &Vec<Vec<Step>>) -> (r: bool)
    ensures
        r == programs_valid(programs@.map_values(|p: Vec<Step>| p@)),
{
    let ghost progs = programs@.map_values(|p: Vec<Step>| p@);
    let n = programs.len();
    let mut p: usize = 0;
    while p < n
        invariant
            p <= n,
            n == progs.len(),
            progs == programs@.map_values(|p: Vec<Step>| p@),
            forall|a: int, i: int|
                0 <= a < p && 0 <= i < progs[a].len() ==> match #[trigger] progs[a][i] {
                    Step::Spawn(q) => q < progs.len(),
                    _ => true,
                },
        decreases n - p,
    {
        let m = programs[p].len();
        let mut i: usize = 0;
        while i < m
            invariant
                p < n,
                i <= m,
                n == progs.len(),
                progs == programs@.map_values(|p: Vec<Step>| p@),
                m == progs[p as int].len(),
                forall|a: int, j: int|
                    0 <= a < p && 0 <= j < progs[a].len() ==> match #[trigger] progs[a][j] {
                        Step::Spawn(q) => q < progs.len(),
                        _ => true,
                    },
                forall|j: int|
                    0 <= j < i ==> match #[trigger] progs[p as int][j] {
                        Step::Spawn(q) => q < progs.len(),
                        _ => true,
                    },
            decreases m - i,
        {
            assert(programs[p as int]@[i as int] == progs[p as int][i as int]);
            if let Step::Spawn(q) = programs[p][i] {
                if q >= n {
                    assert(!programs_valid(progs)) by {
                        assert(progs[p as int][i as int] == Step::Spawn(q));
                    }
                    return false;
                }
            }
            i = i + 1;
        }
        p = p + 1;
    }
    true
}

/// Runs `programs[0]` as the root task, for at most `max_ticks` ticks: stops when the root
/// finishes (other tasks are then dropped unfinished), when a tick finds nothing to do, or
/// when the ticks run out. The report is the state reached after `r.ticks` ticks.
pub fn run(programs: Vec<Vec<Step>>, max_ticks: u64) -> (r: RunReport)
    requires
        programs@.len() > 0,
        programs_valid(programs@.map_values(|p: Vec<Step>| p@)),
    ensures
        ({
            let progs = programs@.map_values(|p: Vec<Step>| p@);
            let s = ticks_from(progs, initial_view(), r.ticks as nat);
            &&& r.log@ == s.log
            &&& r.now == s.now
            &&& r.finished@ == s.tasks.map_values(|ts: TaskState| ts.done && !ts.cancelled)
            &&& r.root_done == s.tasks[0].done
            &&& r.ticks <= max_ticks
            &&& forall|k: nat| k < r.ticks ==> !(#[trigger] ticks_from(progs, initial_view(), k)).tasks[0].done
            &&& forall|k: nat|
                k + 1 < r.ticks ==> tick_spec(progs, #[trigger] ticks_from(progs, initial_view(), k)).1
                    != Tick::Idle
            &&& r.idle <==> (r.ticks > 0 && tick_spec(
                progs,
                ticks_from(progs, initial_view(), (r.ticks - 1) as nat),
            ).1 == Tick::Idle)
            &&& r.root_done || r.idle || r.ticks == max_ticks
        }),
{
    let ghost progs = programs@.map_values(|p: Vec<Step>| p@);
    let mut ex = Executor::new(programs);
    let mut ticks: u64 = 0;
    let mut idle = false;
    while ticks < max_ticks && !ex.root_done() && !idle
        invariant
            ex.wf(),
            ex.programs() == progs,
            ex@.issued <= ticks,
            ticks <= max_ticks,
            ex@ == ticks_from(progs, initial_view(), ticks as nat),
            forall|k: nat| k < ticks ==> !(#[trigger] ticks_from(progs, initial_view(), k)).tasks[0].done,
            forall|k: nat|
                k + 1 < ticks ==> tick_spec(progs, #[trigger] ticks_from(progs, initial_view(), k)).1
                    != Tick::Idle,
            idle <==> (ticks > 0 && tick_spec(progs, ticks_from(progs, initial_view(), (ticks - 1) as nat)).1
                == Tick::Idle),
        decreases max_ticks - ticks,
    {
        let ghost before = ex@;
        let t = ex.tick();
        assert(ticks_from(progs, initial_view(), (ticks + 1) as nat) == tick_spec(progs, before).0);
        assert(((ticks + 1) - 1) as nat == ticks as nat);
        ticks = ticks + 1;
        if let Tick::Idle = t {
            idle = true;
        }
    }
    let root_done = ex.root_done();
    let now = ex.now;
    let n = ex.tasks.len();
    let mut finished: Vec<bool> = Vec::new();
    let mut i: usize = 0;
    while i < n
        invariant
            i <= n,
            n == ex.tasks@.len(),
            finished@.len() == i,
            forall|k: int| 0 <= k < i ==> finished@[k] == ((#[trigger] ex.tasks@[k]).done && !ex.tasks@[k].cancelled),
        decreases n - i,
    {
        finished.push(ex.tasks[i].done && !ex.tasks[i].cancelled);
        i = i + 1;
    }
    assert(finished@ =~= ex@.tasks.map_values(|ts: TaskState| ts.done && !ts.cancelled));
    RunReport { log: ex.log, finished, root_done, now, ticks, idle }
}

} // verus!
