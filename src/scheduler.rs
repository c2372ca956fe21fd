use vstd::prelude::*;
use crate::job::{HwJob, WaitKind, WaitView};
use crate::order::{
    TimeJob, keep, misses, waits_at, jobs_at, without_target, not_due, handles, min_due,
    release_order, lemma_min_due, lemma_keep_len, lemma_keep_all, lemma_keep_keep, lemma_keep_order,
    lemma_keep_sound, lemma_release_iff_due, lemma_release_ties_in_arrival_order,
};

verus! {

/// A pending event job, as the scheduler sees it: event name and handle.
pub type EventJob = (Seq<char>, usize);

/// Holds of an event job waiting on the event `n`.
pub open spec fn named(n: Seq<char>) -> spec_fn(EventJob) -> bool {
    |e: EventJob| e.0 == n
}

/// Holds of an event job waiting on an event other than `n`.
pub open spec fn unnamed(n: Seq<char>) -> spec_fn(EventJob) -> bool {
    |e: EventJob| e.0 != n
}

/// The resumption handles of a sequence of event jobs.
pub open spec fn event_handles(s: Seq<EventJob>) -> Seq<usize> {
    s.map_values(|e: EventJob| e.1)
}

/// The event jobs of an executable queue.
pub open spec fn event_view(s: Seq<(String, usize)>) -> Seq<EventJob> {
    s.map_values(|e: (String, usize)| (e.0@, e.1))
}

/// The smallest target among all pending time jobs, if there is one.
pub open spec fn next_target(s: Seq<TimeJob>) -> Option<usize> {
    min_due(s, usize::MAX)
}

pub open spec fn max(a: usize, b: usize) -> usize {
    if a >= b {
        a
    } else {
        b
    }
}

/// The names of a sequence of strings.
pub open spec fn names(v: Seq<String>) -> Seq<Seq<char>> {
    v.map_values(|n: String| n@)
}

/// The state of a scheduler: committed tick, timescale, the pending time and
/// event jobs in arrival order, and the names of the events fired so far.
pub ghost struct SchedView {
    pub tick: usize,
    pub timescale: usize,
    pub time: Seq<TimeJob>,
    pub events: Seq<EventJob>,
    pub fired: Set<Seq<char>>,
}

/// What one round of the drive loop decided.
pub ghost enum StepView {
    Finished,
    Idle,
    Stopped,
    Resumed(Seq<usize>),
}

/// One round of the drive loop on the jobs received so far. `closed` says
/// whether every sender of jobs is gone.
pub open spec fn step_spec(s: SchedView, duration: usize, closed: bool) -> (SchedView, StepView) {
    match next_target(s.time) {
        None => (s, if s.events.len() == 0 && closed {
            StepView::Finished
        } else {
            StepView::Idle
        }),
        Some(m) => if m >= duration {
            (SchedView { tick: max(s.tick, duration), ..s }, StepView::Stopped)
        } else {
            let t = max(s.tick, m);
            (
                SchedView { tick: t, time: not_due(s.time, t), ..s },
                StepView::Resumed(handles(release_order(s.time, t))),
            )
        },
    }
}

/// The drive loop run to its end once every job has been received: the
/// final state and the handles resumed, in order.
pub open spec fn run_spec(s: SchedView, duration: usize) -> (SchedView, Seq<usize>)
    decreases s.time.len() via run_spec_decreases
{
    let (s2, st) = step_spec(s, duration, true);
    match st {
        StepView::Resumed(h) => {
            let (s3, rest) = run_spec(s2, duration);
            (s3, h + rest)
        },
        _ => (s2, Seq::empty()),
    }
}

#[via_fn]
proof fn run_spec_decreases(s: SchedView, duration: usize) {
    lemma_step_shrinks(s, duration, true);
}

/// A round that resumes jobs leaves fewer time jobs pending.
proof fn lemma_step_shrinks(s: SchedView, duration: usize, closed: bool)
    ensures
        step_spec(s, duration, closed).1 is Resumed ==> step_spec(s, duration, closed).0.time.len()
            < s.time.len(),
{
    lemma_min_due(s.time, usize::MAX);
    if let Some(m) = next_target(s.time) {
        if m < duration {
            let t = max(s.tick, m);
            let i = choose|i: int| 0 <= i < s.time.len() && s.time[i].0 == m;
            lemma_keep_len(s.time, waits_at(t), i);
        }
    }
}

/// The committed tick never decreases, and a round of the drive loop never
/// commits a tick beyond `duration` unless it was already there.
pub proof fn lemma_step_tick_bounds(s: SchedView, duration: usize, closed: bool)
    ensures
        s.tick <= step_spec(s, duration, closed).0.tick,
        step_spec(s, duration, closed).0.tick <= max(s.tick, duration),
{
    lemma_min_due(s.time, usize::MAX);
}

/// A round of the drive loop resumes a time job exactly when the tick it
/// commits has reached the job's target. A round that stops resumes nothing,
/// and every pending target then lies at or beyond `duration`.
pub proof fn lemma_step_resumes_iff_due(s: SchedView, duration: usize, closed: bool)
    ensures
        ({
            let (s2, st) = step_spec(s, duration, closed);
            &&& st is Resumed ==> {
                let out = release_order(s.time, s2.tick);
                &&& st->Resumed_0 == handles(out)
                &&& forall|k: int| 0 <= k < out.len() ==> #[trigger] out[k].0 <= s2.tick
                &&& forall|i: int| 0 <= i < s.time.len() && s.time[i].0 <= s2.tick ==> out.contains(#[trigger] s.time[i])
                &&& forall|k: int| 0 <= k < s2.time.len() ==> #[trigger] s2.time[k].0 > s2.tick
            }
            &&& st is Stopped ==> s2.time == s.time && forall|i: int| 0 <= i < s.time.len() ==> #[trigger] s.time[i].0 >= duration
        }),
{
    lemma_min_due(s.time, usize::MAX);
    let (s2, st) = step_spec(s, duration, closed);
    lemma_release_iff_due(s.time, s2.tick);
}

/// Over a whole run the committed tick never decreases and never passes
/// `duration` unless it started beyond it.
pub proof fn lemma_run_tick_bounds(s: SchedView, duration: usize)
    ensures
        s.tick <= run_spec(s, duration).0.tick,
        run_spec(s, duration).0.tick <= max(s.tick, duration),
    decreases s.time.len(),
{
    lemma_step_tick_bounds(s, duration, true);
    lemma_step_shrinks(s, duration, true);
    let (s2, st) = step_spec(s, duration, true);
    if st is Resumed {
        lemma_run_tick_bounds(s2, duration);
    }
}

/// Each job of `s` paired with the tick `c` at which it resumes.
pub open spec fn at_tick(s: Seq<TimeJob>, c: usize) -> Seq<(TimeJob, usize)> {
    s.map_values(|j: TimeJob| (j, c))
}

/// The handles of a resumption log.
pub open spec fn log_handles(l: Seq<(TimeJob, usize)>) -> Seq<usize> {
    l.map_values(|e: (TimeJob, usize)| e.0.1)
}

/// The time jobs resumed over a whole run, in order, each with the tick that
/// was committed when it resumed.
pub open spec fn run_log(s: SchedView, duration: usize) -> Seq<(TimeJob, usize)>
    decreases s.time.len() via run_log_decreases
{
    let (s2, st) = step_spec(s, duration, true);
    match st {
        StepView::Resumed(_) => at_tick(release_order(s.time, s2.tick), s2.tick) + run_log(s2, duration),
        _ => Seq::empty(),
    }
}

#[via_fn]
proof fn run_log_decreases(s: SchedView, duration: usize) {
    lemma_step_shrinks(s, duration, true);
}

/// The handles that a run returns are those of its resumption log.
pub proof fn lemma_run_log_handles(s: SchedView, duration: usize)
    ensures
        run_spec(s, duration).1 == log_handles(run_log(s, duration)),
    decreases s.time.len(),
{
    lemma_step_shrinks(s, duration, true);
    let (s2, st) = step_spec(s, duration, true);
    if st is Resumed {
        lemma_run_log_handles(s2, duration);
        let a = at_tick(release_order(s.time, s2.tick), s2.tick);
        assert(log_handles(a + run_log(s2, duration)) =~= log_handles(a) + log_handles(run_log(s2, duration)));
        assert(log_handles(a) =~= handles(release_order(s.time, s2.tick)));
    } else {
        assert(log_handles(Seq::empty()) =~= Seq::<usize>::empty());
    }
}

/// Over a whole run, a time job resumes exactly when the committed tick
/// reaches its target: no job resumes before its target, the ticks of the
/// resumptions never decrease, every job whose target lies before `duration`
/// resumes, and the jobs left pending all wait at or beyond `duration`.
pub proof fn lemma_run_resumes_iff_due(s: SchedView, duration: usize)
    ensures
        ({
            let l = run_log(s, duration);
            let f = run_spec(s, duration).0;
            &&& forall|k: int| 0 <= k < l.len() ==> #[trigger] l[k].0.0 <= l[k].1
            &&& forall|k: int| 0 <= k < l.len() ==> s.tick <= #[trigger] l[k].1 <= f.tick
            &&& forall|k: int, m: int| 0 <= k < m < l.len() ==> #[trigger] l[k].1 <= #[trigger] l[m].1
            &&& forall|i: int|
                0 <= i < s.time.len() && s.time[i].0 < duration ==> exists|k: int|
                    0 <= k < l.len() && #[trigger] l[k].0 == #[trigger] s.time[i]
            &&& forall|k: int| 0 <= k < f.time.len() ==> #[trigger] f.time[k].0 >= duration
        }),
    decreases s.time.len(),
{
    lemma_min_due(s.time, usize::MAX);
    lemma_step_shrinks(s, duration, true);
    lemma_step_tick_bounds(s, duration, true);
    lemma_step_resumes_iff_due(s, duration, true);
    let (s2, st) = step_spec(s, duration, true);
    let l = run_log(s, duration);
    let f = run_spec(s, duration).0;
    if st is Resumed {
        let c = s2.tick;
        lemma_run_resumes_iff_due(s2, duration);
        lemma_run_tick_bounds(s2, duration);
        let ro = release_order(s.time, c);
        let a = at_tick(ro, c);
        let l2 = run_log(s2, duration);
        assert(l == a + l2);
        assert forall|k: int| 0 <= k < l.len() implies #[trigger] l[k].0.0 <= l[k].1 && s.tick <= l[k].1
            <= f.tick by {
            if k < a.len() {
                assert(l[k] == (ro[k], c));
            } else {
                assert(l[k] == l2[k - a.len()]);
            }
        }
        assert forall|k: int, m: int| 0 <= k < m < l.len() implies #[trigger] l[k].1 <= #[trigger] l[m].1 by {
            if m < a.len() {
                assert(l[k] == (ro[k], c) && l[m] == (ro[m], c));
            } else if k < a.len() {
                assert(l[k] == (ro[k], c) && l[m] == l2[m - a.len()]);
            } else {
                assert(l[k] == l2[k - a.len()] && l[m] == l2[m - a.len()]);
            }
        }
        assert forall|i: int| 0 <= i < s.time.len() && s.time[i].0 < duration implies exists|k: int|
            0 <= k < l.len() && #[trigger] l[k].0 == #[trigger] s.time[i] by {
            if s.time[i].0 <= c {
                assert(ro.contains(s.time[i]));
                let q = choose|q: int| 0 <= q < ro.len() && ro[q] == s.time[i];
                assert(l[q] == (ro[q], c));
                assert(l[q].0 == s.time[i]);
            } else {
                lemma_keep_order(s.time, waits_at(c), i, i);
                let (k, k2) = choose|k: int, k2: int|
                    0 <= k <= k2 < s2.time.len() && s2.time[k] == s.time[i] && s2.time[k2] == s.time[i];
                assert(s2.time[k].0 < duration);
                let q = choose|q: int| 0 <= q < l2.len() && #[trigger] l2[q].0 == s2.time[k];
                assert(l[a.len() + q] == l2[q]);
                assert(l[a.len() + q].0 == s.time[i]);
            }
        }
    }
}

/// Over a whole run, two jobs of equal target before `duration` resume at
/// the same tick, in the order in which they arrived.
pub proof fn lemma_run_ties_in_arrival_order(s: SchedView, duration: usize, i: int, j: int)
    requires
        0 <= i < j < s.time.len(),
        s.time[i].0 == s.time[j].0,
        s.time[i].0 < duration,
    ensures
        exists|p: int, q: int|
            0 <= p < q < run_log(s, duration).len() && run_log(s, duration)[p].0 == s.time[i]
                && run_log(s, duration)[q].0 == s.time[j] && run_log(s, duration)[p].1 == run_log(
                s,
                duration,
            )[q].1,
    decreases s.time.len(),
{
    lemma_min_due(s.time, usize::MAX);
    lemma_step_shrinks(s, duration, true);
    let (s2, st) = step_spec(s, duration, true);
    let c = s2.tick;
    let l = run_log(s, duration);
    assert(st is Resumed);
    let ro = release_order(s.time, c);
    let a = at_tick(ro, c);
    let l2 = run_log(s2, duration);
    assert(l == a + l2);
    if s.time[i].0 <= c {
        lemma_release_ties_in_arrival_order(s.time, c, i, j);
        let (p, q) = choose|p: int, q: int| 0 <= p < q < ro.len() && ro[p] == s.time[i] && ro[q] == s.time[j];
        assert(l[p] == (ro[p], c) && l[q] == (ro[q], c));
    } else {
        lemma_keep_order(s.time, waits_at(c), i, j);
        let (k, m) = choose|k: int, m: int|
            0 <= k <= m < s2.time.len() && (i < j ==> k < m) && s2.time[k] == s.time[i] && s2.time[m] == s.time[j];
        lemma_run_ties_in_arrival_order(s2, duration, k, m);
        let (p, q) = choose|p: int, q: int|
            0 <= p < q < l2.len() && l2[p].0 == s2.time[k] && l2[q].0 == s2.time[m] && l2[p].1 == l2[q].1;
        assert(l[a.len() + p] == l2[p] && l[a.len() + q] == l2[q]);
    }
}

/// The state after the scheduler receives `j`: the job joins the end of
/// the pending jobs of its kind.
pub open spec fn receive(s: SchedView, j: HwJob) -> SchedView {
    match j.wait_evt@ {
        WaitView::Time(t) => SchedView { time: s.time.push((t, j.handle)), ..s },
        WaitView::Event(n) => SchedView { events: s.events.push((n, j.handle)), ..s },
    }
}

/// The state after the scheduler receives every job of `js`, in order.
pub open spec fn receive_all(s: SchedView, js: Seq<HwJob>) -> SchedView
    decreases js.len(),
{
    if js.len() == 0 {
        s
    } else {
        receive(receive_all(s, js.drop_last()), js.last())
    }
}

/// The effect of the event `n` notified at tick `at`: the state after it,
/// and the handles resumed, in order. Every job waiting on `n` resumes, in
/// arrival order; when `at` lies beyond the committed tick, the tick moves
/// to `at` and the time jobs due there resume after them. From then on `n`
/// counts as fired.
pub open spec fn notify_spec(s: SchedView, n: Seq<char>, at: usize) -> (SchedView, Seq<usize>) {
    let fired = event_handles(keep(s.events, named(n)));
    let s1 = SchedView { events: keep(s.events, unnamed(n)), fired: s.fired.insert(n), ..s };
    if at > s.tick {
        (
            SchedView { tick: at, time: not_due(s.time, at), ..s1 },
            fired + handles(release_order(s.time, at)),
        )
    } else {
        (s1, fired)
    }
}

/// Notifying `n` resumes every job waiting on `n` once, in arrival order,
/// and no longer holds it; every job waiting on another event stays pending.
pub proof fn lemma_notify_fires_each_once(s: SchedView, n: Seq<char>, at: usize)
    ensures
        ({
            let fired = keep(s.events, named(n));
            let (s2, r) = notify_spec(s, n, at);
            &&& r.subrange(0, fired.len() as int) == event_handles(fired)
            &&& forall|i: int| 0 <= i < s.events.len() && s.events[i].0 == n ==> fired.contains(#[trigger] s.events[i])
            &&& s2.events == keep(s.events, unnamed(n))
            &&& forall|i: int| 0 <= i < s.events.len() && s.events[i].0 != n ==> s2.events.contains(#[trigger] s.events[i])
            &&& forall|k: int| 0 <= k < s2.events.len() ==> #[trigger] s2.events[k].0 != n
        }),
{
    let fired = keep(s.events, named(n));
    let (s2, r) = notify_spec(s, n, at);
    assert(r.subrange(0, fired.len() as int) =~= event_handles(fired));
    assert forall|i: int| 0 <= i < s.events.len() && s.events[i].0 == n implies fired.contains(#[trigger] s.events[i]) by {
        lemma_keep_order(s.events, named(n), i, i);
    }
    assert forall|i: int| 0 <= i < s.events.len() && s.events[i].0 != n implies s2.events.contains(#[trigger] s.events[i]) by {
        lemma_keep_order(s.events, unnamed(n), i, i);
    }
    lemma_keep_sound(s.events, unnamed(n));
    assert forall|k: int| 0 <= k < s2.events.len() implies #[trigger] s2.events[k].0 != n by {
        assert(unnamed(n)(s2.events[k]));
    }
}

proof fn lemma_receive_all_keeps_tick(s: SchedView, js: Seq<HwJob>)
    ensures
        receive_all(s, js).tick == s.tick,
    decreases js.len(),
{
    if js.len() > 0 {
        lemma_receive_all_keeps_tick(s, js.drop_last());
    }
}

/// The outcome of one round of the drive loop.
#[derive(Debug)]
pub enum SimStep {
    /// Nothing is pending and no job can arrive any more.
    Finished,
    /// No time job is pending: wait for a job or an event.
    Idle,
    /// The next target lies at or beyond the duration: the run is over.
    Stopped,
    /// These handles resume, in this order.
    Resumed(Vec<usize>),
}

impl View for SimStep {
    type V = StepView;

    open spec fn view(&self) -> StepView {
        match self {
            SimStep::Finished => StepView::Finished,
            SimStep::Idle => StepView::Idle,
            SimStep::Stopped => StepView::Stopped,
            SimStep::Resumed(h) => StepView::Resumed(h@),
        }
    }
}

/// The simulated-time scheduler: owner of the clock and of every pending job.
#[derive(Debug)]
pub struct HwScheduler {
    tick: usize,
    timescale: usize,
    time_jobs: Vec<TimeJob>,
    event_jobs: Vec<(String, usize)>,
    fired: Vec<String>,
}

impl View for HwScheduler {
    type V = SchedView;

    closed spec fn view(&self) -> SchedView {
        SchedView {
            tick: self.tick,
            timescale: self.timescale,
            time: self.time_jobs@,
            events: event_view(self.event_jobs@),
            fired: names(self.fired@).to_set(),
        }
    }
}

/// The smallest target among the jobs of `s` that are due at `tick`.
fn first_due(s: &Vec<TimeJob>, tick: usize) -> (r: Option<usize>)
    ensures
        r == min_due(s@, tick),
{
    let mut best: Option<usize> = None;
    let mut i: usize = 0;
    while i < s.len()
        invariant
            i <= s.len(),
            best == min_due(s@.subrange(0, i as int), tick),
        decreases s.len() - i,
    {
        assert(s@.subrange(0, i + 1).drop_last() =~= s@.subrange(0, i as int));
        let t = s[i].0;
        if t <= tick {
            match best {
                None => {
                    best = Some(t);
                },
                Some(b) => {
                    if t < b {
                        best = Some(t);
                    }
                },
            }
        }
        i += 1;
    }
    assert(s@.subrange(0, s.len() as int) =~= s@);
    best
}

/// Splits `s` into the jobs whose target is `m` and the others.
fn split_target(s: &Vec<TimeJob>, m: usize) -> (r: (Vec<TimeJob>, Vec<TimeJob>))
    ensures
        r.0@ == jobs_at(s@, m),
        r.1@ == without_target(s@, m),
{
    let mut at: Vec<TimeJob> = Vec::new();
    let mut rest: Vec<TimeJob> = Vec::new();
    let mut i: usize = 0;
    while i < s.len()
        invariant
            i <= s.len(),
            at@ == jobs_at(s@.subrange(0, i as int), m),
            rest@ == without_target(s@.subrange(0, i as int), m),
        decreases s.len() - i,
    {
        assert(s@.subrange(0, i + 1).drop_last() =~= s@.subrange(0, i as int));
        let j = s[i];
        if j.0 == m {
            at.push(j);
        } else {
            rest.push(j);
        }
        i += 1;
    }
    assert(s@.subrange(0, s.len() as int) =~= s@);
    (at, rest)
}

/// The handles of a sequence of time jobs.
fn handles_of(s: &Vec<TimeJob>) -> (r: Vec<usize>)
    ensures
        r@ == handles(s@),
{
    let mut r: Vec<usize> = Vec::new();
    let mut i: usize = 0;
    while i < s.len()
        invariant
            i <= s.len(),
            r@ == handles(s@.subrange(0, i as int)),
        decreases s.len() - i,
    {
        assert(handles(s@.subrange(0, i + 1)) =~= handles(s@.subrange(0, i as int)).push(s@[i as int].1));
        r.push(s[i].1);
        i += 1;
    }
    assert(s@.subrange(0, s.len() as int) =~= s@);
    r
}

impl HwScheduler {
    /// A scheduler at tick `cur_tick` with the given timescale and no job.
    pub fn new(cur_tick: usize, timescale: usize) -> (r: HwScheduler)
        ensures
            r@ == (SchedView {
                tick: cur_tick,
                timescale,
                time: Seq::empty(),
                events: Seq::empty(),
                fired: Set::empty(),
            }),
    {
        let r = HwScheduler {
            tick: cur_tick,
            timescale,
            time_jobs: Vec::new(),
            event_jobs: Vec::new(),
            fired: Vec::new(),
        };
        assert(event_view(r.event_jobs@) =~= Seq::empty());
        assert(names(r.fired@).to_set() =~= Set::empty());
        r
    }

    /// The latest committed tick.
    pub fn current_tick(&self) -> (r: usize)
        ensures
            r == self@.tick,
    {
        self.tick
    }

    /// Whether the event `name` has fired.
    pub fn has_fired(&self, name: &String) -> (r: bool)
        ensures
            r == self@.fired.contains(name@),
    {
        let mut i: usize = 0;
        while i < self.fired.len()
            invariant
                i <= self.fired.len(),
                forall|j: int| 0 <= j < i ==> self.fired@[j]@ != name@,
            decreases self.fired.len() - i,
        {
            if self.fired[i] == *name {
                assert(names(self.fired@)[i as int] == name@);
                return true;
            }
            i += 1;
        }
        assert(!names(self.fired@).contains(name@));
        false
    }

    /// The number of ticks per second, used for reporting only.
    pub fn timescale(&self) -> (r: usize)
        ensures
            r == self@.timescale,
    {
        self.timescale
    }

    /// Adds a job to the pending jobs of its kind, after those already there.
    pub fn enqueue(&mut self, job: HwJob)
        ensures
            final(self)@ == receive(old(self)@, job),
    {
        self.receive_job(&job);
    }

    fn receive_job(&mut self, job: &HwJob)
        ensures
            final(self)@ == receive(old(self)@, *job),
    {
        match &job.wait_evt {
            WaitKind::Time(t) => {
                self.time_jobs.push((*t, job.handle));
            },
            WaitKind::Event(n) => {
                let ghost ev = self.event_jobs@;
                self.event_jobs.push((n.clone(), job.handle));
                assert(event_view(self.event_jobs@) =~= event_view(ev).push((n@, job.handle)));
            },
        }
    }

    /// One round of the drive loop over the jobs received so far; `closed`
    /// says whether every sender of jobs is gone. With no time job pending
    /// the round finishes the run if nothing at all is pending and no job can
    /// come, and otherwise waits. When the smallest target reaches
    /// `duration`, the tick moves to `duration` and the run stops. Otherwise
    /// the tick moves to that target and the due jobs resume.
    pub fn step(&mut self, duration: usize, closed: bool) -> (r: SimStep)
        ensures
            (final(self)@, r@) == step_spec(old(self)@, duration, closed),
            old(self)@.tick <= final(self)@.tick <= max(old(self)@.tick, duration),
    {
        proof {
            lemma_step_tick_bounds(self@, duration, closed);
        }
        match first_due(&self.time_jobs, usize::MAX) {
            None => {
                if self.event_jobs.len() == 0 && closed {
                    SimStep::Finished
                } else {
                    SimStep::Idle
                }
            },
            Some(m) => {
                if m >= duration {
                    if duration > self.tick {
                        self.tick = duration;
                    }
                    SimStep::Stopped
                } else {
                    if m > self.tick {
                        self.tick = m;
                    }
                    let h = self.release_due();
                    SimStep::Resumed(h)
                }
            },
        }
    }

    /// Fires the event `name` at tick `tick`: every job waiting on it resumes
    /// once, in arrival order, and jobs waiting on other events stay. When
    /// `tick` lies beyond the committed tick, the tick moves there and the
    /// time jobs due there resume too.
    pub fn notify(&mut self, name: String, tick: usize) -> (r: Vec<usize>)
        ensures
            (final(self)@, r@) == notify_spec(old(self)@, name@, tick),
            old(self)@.tick <= final(self)@.tick,
    {
        let ghost ev = event_view(self.event_jobs@);
        let mut fired: Vec<usize> = Vec::new();
        let mut rest: Vec<(String, usize)> = Vec::new();
        let mut i: usize = 0;
        while i < self.event_jobs.len()
            invariant
                i <= self.event_jobs.len(),
                ev == event_view(self.event_jobs@),
                fired@ == event_handles(keep(ev.subrange(0, i as int), named(name@))),
                event_view(rest@) == keep(ev.subrange(0, i as int), unnamed(name@)),
            decreases self.event_jobs.len() - i,
        {
            let e = &self.event_jobs[i];
            proof {
                assert(ev.subrange(0, i + 1).drop_last() =~= ev.subrange(0, i as int));
                assert(ev.subrange(0, i + 1).last() == (e.0@, e.1));
                let k = keep(ev.subrange(0, i as int), named(name@));
                assert(event_handles(k.push((e.0@, e.1))) =~= event_handles(k).push(e.1));
            }
            if e.0 == name {
                fired.push(e.1);
            } else {
                let ghost before = rest@;
                rest.push((e.0.clone(), e.1));
                assert(event_view(rest@) =~= event_view(before).push((e.0@, e.1)));
            }
            i += 1;
        }
        assert(ev.subrange(0, ev.len() as int) =~= ev);
        self.event_jobs = rest;
        let ghost before = self.fired@;
        self.fired.push(name);
        assert(names(self.fired@) =~= names(before).push(name@));
        proof {
            names(before).lemma_push_to_set_commute(name@);
        }
        if tick > self.tick {
            self.tick = tick;
            let mut h = self.release_due();
            fired.append(&mut h);
        }
        fired
    }

    /// Receives `jobs` in order, then runs the drive loop with no further job
    /// to come, until it finishes, stops at `duration`, or has only event
    /// jobs left. Returns the handles resumed, in order.
    pub fn simulate(&mut self, duration: usize, jobs: Vec<HwJob>) -> (r: Vec<usize>)
        ensures
            (final(self)@, r@) == run_spec(receive_all(old(self)@, jobs@), duration),
            r@ == log_handles(run_log(receive_all(old(self)@, jobs@), duration)),
            old(self)@.tick <= final(self)@.tick <= max(old(self)@.tick, duration),
    {
        let mut i: usize = 0;
        while i < jobs.len()
            invariant
                i <= jobs.len(),
                self@ == receive_all(old(self)@, jobs@.subrange(0, i as int)),
            decreases jobs.len() - i,
        {
            assert(jobs@.subrange(0, i + 1).drop_last() =~= jobs@.subrange(0, i as int));
            self.receive_job(&jobs[i]);
            i += 1;
        }
        assert(jobs@.subrange(0, jobs.len() as int) =~= jobs@);
        let ghost s0 = self@;
        proof {
            lemma_receive_all_keeps_tick(old(self)@, jobs@);
            lemma_run_tick_bounds(s0, duration);
            lemma_run_log_handles(s0, duration);
        }
        let mut out: Vec<usize> = Vec::new();
        loop
            invariant
                run_spec(s0, duration).0 == run_spec(self@, duration).0,
                run_spec(s0, duration).1 == out@ + run_spec(self@, duration).1,
            ensures
                run_spec(s0, duration).0 == self@,
                run_spec(s0, duration).1 == out@,
            decreases self@.time.len(),
        {
            let ghost prev = self@;
            proof {
                lemma_step_shrinks(prev, duration, true);
            }
            let st = self.step(duration, true);
            match st {
                SimStep::Resumed(mut h) => {
                    proof {
                        assert(out@ + (h@ + run_spec(self@, duration).1) =~= (out@ + h@) + run_spec(self@, duration).1);
                    }
                    out.append(&mut h);
                },
                _ => {
                    proof {
                        assert(out@ + Seq::<usize>::empty() =~= out@);
                    }
                    break;
                },
            }
        }
        out
    }

    /// Resumes every time job that is due at the committed tick, by
    /// ascending target and, for equal targets, in arrival order.
    fn release_due(&mut self) -> (r: Vec<usize>)
        ensures
            r@ == handles(release_order(old(self)@.time, old(self)@.tick)),
            final(self)@ == (SchedView { time: not_due(old(self)@.time, old(self)@.tick), ..old(self)@ }),
    {
        let tick = self.tick;
        let ghost orig = self.time_jobs@;
        let mut out: Vec<TimeJob> = Vec::new();
        loop
            invariant
                self.tick == tick,
                self.timescale == old(self).timescale,
                self.event_jobs == old(self).event_jobs,
                self.fired == old(self).fired,
                orig == old(self)@.time,
                tick == old(self)@.tick,
                out@ + release_order(self.time_jobs@, tick) == release_order(orig, tick),
                not_due(self.time_jobs@, tick) == not_due(orig, tick),
            ensures
                self.tick == tick,
                self.timescale == old(self).timescale,
                self.event_jobs == old(self).event_jobs,
                self.fired == old(self).fired,
                out@ == release_order(orig, tick),
                self.time_jobs@ == not_due(orig, tick),
            decreases self.time_jobs.len(),
        {
            let ghost cur = self.time_jobs@;
            proof {
                lemma_min_due(cur, tick);
            }
            match first_due(&self.time_jobs, tick) {
                None => {
                    proof {
                        assert(forall|i: int| 0 <= i < cur.len() ==> waits_at(tick)(#[trigger] cur[i]));
                        lemma_keep_all(cur, waits_at(tick));
                        assert(release_order(cur, tick) =~= Seq::empty());
                        assert(out@ + release_order(cur, tick) =~= out@);
                    }
                    break;
                },
                Some(m) => {
                    let (mut at, rest) = split_target(&self.time_jobs, m);
                    proof {
                        let i = choose|i: int| 0 <= i < cur.len() && cur[i].0 == m;
                        lemma_keep_len(cur, misses(m), i);
                        lemma_keep_keep(cur, misses(m), waits_at(tick));
                        assert(release_order(cur, tick) == at@ + release_order(rest@, tick));
                        assert(out@ + at@ + release_order(rest@, tick) =~= out@ + (at@ + release_order(rest@, tick)));
                    }
                    out.append(&mut at);
                    self.time_jobs = rest;
                },
            }
        }
        handles_of(&out)
    }
}

} // verus!
