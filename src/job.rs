use vstd::prelude::*;

verus! {

/// The condition a suspended component waits on.
#[derive(Debug)]
pub enum WaitKind {
    /// Resume once the committed tick reaches the target.
    Time(usize),
    /// Resume when the named event is notified.
    Event(String),
}

/// The mathematical form of a wait condition.
pub enum WaitView {
    Time(usize),
    Event(Seq<char>),
}

impl View for WaitKind {
    type V = WaitView;

    open spec fn view(&self) -> WaitView {
        match self {
            WaitKind::Time(t) => WaitView::Time(*t),
            WaitKind::Event(n) => WaitView::Event(n@),
        }
    }
}

impl WaitKind {
    /// A copy of the condition, equal to it in every field.
    pub fn duplicate(&self) -> (r: WaitKind)
        ensures
            r@ == self@,
    {
        match self {
            WaitKind::Time(t) => WaitKind::Time(*t),
            WaitKind::Event(n) => WaitKind::Event(n.clone()),
        }
    }
}

/// One pending suspension: the condition and the handle that resumes the
/// suspended component.
#[derive(Debug)]
pub struct HwJob {
    pub wait_evt: WaitKind,
    pub handle: usize,
}

impl HwJob {
    pub fn new(wait_evt: WaitKind, handle: usize) -> (r: HwJob)
        ensures
            r.wait_evt@ == wait_evt@,
            r.handle == handle,
    {
        HwJob { wait_evt, handle }
    }
}

} // verus!
