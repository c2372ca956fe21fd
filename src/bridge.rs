use vstd::prelude::*;
use crate::job::{HwJob, WaitKind, WaitView};
use crate::scheduler::HwScheduler;

verus! {

/// A named component that repeatedly waits on one condition and then runs
/// one step of work. `handle` identifies it to the scheduler.
#[derive(Debug)]
pub struct HwTask {
    pub name: String,
    pub kind: WaitKind,
    pub handle: usize,
}

impl HwTask {
    pub fn new(name: String, kind: WaitKind, handle: usize) -> (r: HwTask)
        ensures
            r.name@ == name@,
            r.kind@ == kind@,
            r.handle == handle,
    {
        HwTask { name, kind, handle }
    }
}

/// The state of a suspension: the condition, the handle that resumes it,
/// whether its job was sent, and whether the scheduler resumed it.
pub ghost struct BridgeView {
    pub wait: WaitView,
    pub handle: usize,
    pub sent: bool,
    pub resumed: bool,
}

/// What one evaluation of a suspension reports.
pub ghost enum PollView {
    Ready,
    /// Not ready; the job to send to the scheduler, on the first such
    /// evaluation only.
    Pending(Option<(WaitView, usize)>),
}

/// Whether the condition of `b` holds at tick `now` with the events `fired`
/// fired so far: a time wait once the tick reaches its target, an event wait
/// once its event has fired.
pub open spec fn is_ready(b: BridgeView, now: usize, fired: Set<Seq<char>>) -> bool {
    match b.wait {
        WaitView::Time(t) => now >= t,
        WaitView::Event(n) => fired.contains(n),
    }
}

/// One evaluation of a suspension at tick `now` with the events `fired`.
pub open spec fn poll_spec(b: BridgeView, now: usize, fired: Set<Seq<char>>) -> (BridgeView, PollView) {
    if is_ready(b, now, fired) {
        (b, PollView::Ready)
    } else if b.sent {
        (b, PollView::Pending(None))
    } else {
        (BridgeView { sent: true, ..b }, PollView::Pending(Some((b.wait, b.handle))))
    }
}

pub open spec fn emits(p: PollView) -> bool {
    match p {
        PollView::Pending(Some(_)) => true,
        _ => false,
    }
}

/// Successive evaluations of one suspension, each at a tick and a set of
/// fired events: the state after them and the number of jobs they sent.
pub open spec fn poll_run(b: BridgeView, nows: Seq<(usize, Set<Seq<char>>)>) -> (BridgeView, nat)
    decreases nows.len(),
{
    if nows.len() == 0 {
        (b, 0)
    } else {
        let (b2, p) = poll_spec(b, nows[0].0, nows[0].1);
        let (b3, c) = poll_run(b2, nows.subrange(1, nows.len() as int));
        (b3, c + if emits(p) { 1nat } else { 0nat })
    }
}

/// However often a suspension is evaluated, it sends at most one job, and
/// none once its job was sent.
pub proof fn lemma_bridge_sends_at_most_once(b: BridgeView, nows: Seq<(usize, Set<Seq<char>>)>)
    ensures
        poll_run(b, nows).1 <= if b.sent { 0nat } else { 1nat },
        poll_run(b, nows).0.sent == (b.sent || poll_run(b, nows).1 == 1),
    decreases nows.len(),
{
    if nows.len() > 0 {
        let (b2, p) = poll_spec(b, nows[0].0, nows[0].1);
        lemma_bridge_sends_at_most_once(b2, nows.subrange(1, nows.len() as int));
    }
}

/// What one evaluation of a suspension reports.
#[derive(Debug)]
pub enum BridgePoll {
    Ready,
    Pending(Option<HwJob>),
}

impl View for BridgePoll {
    type V = PollView;

    open spec fn view(&self) -> PollView {
        match self {
            BridgePoll::Ready => PollView::Ready,
            BridgePoll::Pending(None) => PollView::Pending(None),
            BridgePoll::Pending(Some(j)) => PollView::Pending(Some((j.wait_evt@, j.handle))),
        }
    }
}

/// The suspension a task creates for one round of its loop.
#[derive(Debug)]
pub struct HwFuture {
    kind: WaitKind,
    handle: usize,
    sent: bool,
    resumed: bool,
}

impl View for HwFuture {
    type V = BridgeView;

    closed spec fn view(&self) -> BridgeView {
        BridgeView { wait: self.kind@, handle: self.handle, sent: self.sent, resumed: self.resumed }
    }
}

impl HwFuture {
    /// A fresh suspension on the condition of `parent`.
    pub fn new(parent: &HwTask) -> (r: HwFuture)
        ensures
            r@ == (BridgeView { wait: parent.kind@, handle: parent.handle, sent: false, resumed: false }),
    {
        HwFuture { kind: parent.kind.duplicate(), handle: parent.handle, sent: false, resumed: false }
    }

    /// A fresh suspension until the tick reaches `tick`.
    pub fn wait_for(tick: usize, handle: usize) -> (r: HwFuture)
        ensures
            r@ == (BridgeView { wait: WaitView::Time(tick), handle, sent: false, resumed: false }),
    {
        HwFuture { kind: WaitKind::Time(tick), handle, sent: false, resumed: false }
    }

    /// A fresh suspension until the event `name` fires.
    pub fn wait_event(name: String, handle: usize) -> (r: HwFuture)
        ensures
            r@ == (BridgeView { wait: WaitView::Event(name@), handle, sent: false, resumed: false }),
    {
        HwFuture { kind: WaitKind::Event(name), handle, sent: false, resumed: false }
    }

    /// Records that the scheduler resumed this suspension's job. A job is
    /// resumed at most once: a second resumption changes nothing and returns
    /// `false`, a logic error that the caller must treat as fatal.
    pub fn resume(&mut self) -> (r: bool)
        ensures
            r == !old(self)@.resumed,
            final(self)@ == (BridgeView { resumed: true, ..old(self)@ }),
    {
        if self.resumed {
            false
        } else {
            self.resumed = true;
            true
        }
    }

    /// Evaluates the suspension against the scheduler's committed tick and
    /// fired events. Ready when the condition holds; otherwise pending, with
    /// the job to send on the first pending evaluation and without one after
    /// that. A job once sent is never sent again, so however many times one
    /// suspension is evaluated, it sends at most one job.
    pub fn poll(&mut self, sched: &HwScheduler) -> (r: BridgePoll)
        ensures
            (final(self)@, r@) == poll_spec(old(self)@, sched@.tick, sched@.fired),
            old(self)@.sent ==> !emits(r@),
            final(self)@.sent == (old(self)@.sent || emits(r@)),
    {
        let ready = match &self.kind {
            WaitKind::Time(t) => sched.current_tick() >= *t,
            WaitKind::Event(n) => sched.has_fired(n),
        };
        if ready {
            BridgePoll::Ready
        } else if self.sent {
            BridgePoll::Pending(None)
        } else {
            self.sent = true;
            BridgePoll::Pending(Some(HwJob::new(self.kind.duplicate(), self.handle)))
        }
    }
}

} // verus!
