use vstd::prelude::*;
use once_cell::sync::OnceCell;
use crate::scheduler::{HwScheduler, SchedView};

verus! {

#[verifier::external_type_specification]
#[verifier::external_body]
#[verifier::reject_recursive_types(T)]
pub struct ExOnceCell<T>(OnceCell<T>);

/// The scheduler held by a cell: empty, or the one scheduler installed in it.
pub uninterp spec fn installed(c: OnceCell<HwScheduler>) -> Seq<SchedView>;

/// Relies on `once_cell::sync::OnceCell::set`: an empty cell takes the value
/// and `Ok(())` comes back; a full cell keeps its value and hands the new
/// one back in `Err`.
#[verifier::external_body]
fn install(cell: &mut OnceCell<HwScheduler>, s: HwScheduler) -> (r: Result<(), HwScheduler>)
    ensures
        installed(*old(cell)).len() == 0 ==> r is Ok,
        installed(*old(cell)).len() == 0 ==> installed(*final(cell)) == seq![s@],
        installed(*old(cell)).len() != 0 ==> r is Err && r->Err_0 == s,
        installed(*old(cell)).len() != 0 ==> installed(*final(cell)) == installed(*old(cell)),
{
    cell.set(s)
}

/// Relies on `once_cell::sync::OnceCell::get`: `None` for an empty cell,
/// otherwise a reference to the value it holds.
#[verifier::external_body]
fn installed_ref(cell: &OnceCell<HwScheduler>) -> (r: Option<&HwScheduler>)
    ensures
        installed(*cell).len() == 0 ==> r is None,
        installed(*cell).len() != 0 ==> r is Some,
        r is Some ==> r->0@ == installed(*cell)[0],
{
    cell.get()
}

/// Relies on `once_cell::sync::OnceCell::get_mut`: `None` for an empty cell,
/// otherwise the one reference to the value it holds, through which the
/// value in the cell changes.
#[verifier::external_body]
fn installed_mut(cell: &mut OnceCell<HwScheduler>) -> (r: Option<&mut HwScheduler>)
    ensures
        installed(*old(cell)).len() == 0 ==> r is None && installed(*final(cell)) == installed(*old(cell)),
        installed(*old(cell)).len() != 0 ==> r is Some,
        r is Some ==> (*r->0)@ == installed(*old(cell))[0],
        r is Some ==> installed(*final(cell)) == seq![(*final(r->0))@],
{
    cell.get_mut()
}

impl HwScheduler {
    /// Installs this scheduler as the one scheduler of `cell`. A cell takes
    /// one scheduler only: registering into a cell that already holds one is
    /// a fatal configuration error, which callers rule out first (see
    /// `is_registered`).
    pub fn register(self, cell: &mut OnceCell<HwScheduler>)
        requires
            installed(*old(cell)).len() == 0,
        ensures
            installed(*final(cell)) == seq![self@],
    {
        let _ = install(cell, self);
    }

    /// Whether `cell` holds a scheduler.
    pub fn is_registered(cell: &OnceCell<HwScheduler>) -> (r: bool)
        ensures
            r == (installed(*cell).len() != 0),
    {
        installed_ref(cell).is_some()
    }

    /// The scheduler installed in `cell`. Asking an empty cell is a fatal
    /// error, which callers rule out first.
    pub fn global(cell: &OnceCell<HwScheduler>) -> (r: &HwScheduler)
        requires
            installed(*cell).len() != 0,
        ensures
            r@ == installed(*cell)[0],
    {
        installed_ref(cell).unwrap()
    }
}

impl HwScheduler {
    /// The scheduler installed in `cell`, to drive it: what it becomes
    /// through the reference is what the cell holds afterwards. Asking an
    /// empty cell is a fatal error, which callers rule out first.
    pub fn global_mut(cell: &mut OnceCell<HwScheduler>) -> (r: &mut HwScheduler)
        requires
            installed(*old(cell)).len() != 0,
        ensures
            (*r)@ == installed(*old(cell))[0],
            installed(*final(cell)) == seq![(*final(r))@],
    {
        installed_mut(cell).unwrap()
    }
}

/// The latest committed tick of the scheduler installed in `cell`.
pub fn cur_tick(cell: &OnceCell<HwScheduler>) -> (r: usize)
    requires
        installed(*cell).len() != 0,
    ensures
        r == installed(*cell)[0].tick,
{
    HwScheduler::global(cell).current_tick()
}

} // verus!
