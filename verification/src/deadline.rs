//! The wall-clock deadline of a solve, installed for a scope and restored after it.
//!
//! Every loop that may run long consults the installed deadline only to stop
//! early, so consulting it can refuse an attempt but never change the answer of
//! a completed one. The deadline is held in an explicit cell that the caller
//! threads through; installing returns a guard that restores the previous value,
//! so nested installs behave like a stack.
use vstd::prelude::*;
use std::time::Instant;

verus! {

#[verifier::external_type_specification]
#[verifier::external_body]
pub struct ExInstant(Instant);

/// Whether the clock has reached `deadline`. Calls `Instant::now()` and
/// compares; the answer depends on the time of the call, so nothing is stated
/// of it.
#[verifier::external_body]
pub fn reached(deadline: &Instant) -> (r: bool) {
    Instant::now() >= *deadline
}

/// The deadline currently in force for one thread of work.
pub struct DeadlineCell {
    pub current: Option<Instant>,
}

/// The deadline that was in force before an install; handing it to
/// [`restore`] puts it back.
pub struct Guard(pub Option<Instant>);

/// The cell after installing `deadline`.
pub open spec fn installed(cell: DeadlineCell, deadline: Option<Instant>) -> DeadlineCell {
    DeadlineCell { current: deadline }
}

/// The cell after restoring from `guard`.
pub open spec fn restored(cell: DeadlineCell, guard: Guard) -> DeadlineCell {
    DeadlineCell { current: guard.0 }
}

impl DeadlineCell {
    /// A cell with no deadline installed.
    pub fn new() -> (cell: DeadlineCell)
        ensures
            cell.current is None,
    {
        DeadlineCell { current: None }
    }
}

/// Install `deadline` until the returned guard is handed back to [`restore`].
pub fn install(cell: &mut DeadlineCell, deadline: Option<Instant>) -> (guard: Guard)
    ensures
        *final(cell) == installed(*old(cell), deadline),
        guard.0 == old(cell).current,
{
    let previous = cell.current;
    cell.current = deadline;
    Guard(previous)
}

/// Put back the deadline that was in force when `guard` was made.
pub fn restore(cell: &mut DeadlineCell, guard: Guard)
    ensures
        *final(cell) == restored(*old(cell), guard),
{
    cell.current = guard.0;
}

/// Whether the installed deadline has passed. `false` when none is installed.
pub fn expired(cell: &DeadlineCell) -> (r: bool)
    ensures
        r ==> cell.current is Some,
{
    match &cell.current {
        None => false,
        Some(d) => reached(d),
    }
}

/// Whether an optional deadline has passed; `false` for `None`.
pub fn passed(deadline: &Option<Instant>) -> (r: bool)
    ensures
        r ==> deadline is Some,
{
    match deadline {
        None => false,
        Some(d) => reached(d),
    }
}

/// Installing a deadline and restoring the guard it returned leaves the cell as
/// it was: nested installs behave like a stack.
pub proof fn lemma_install_then_restore(cell: DeadlineCell, deadline: Option<Instant>)
    ensures
        restored(installed(cell, deadline), Guard(cell.current)) == cell,
{
}

/// Two nested installs unwind in order: each restore puts back exactly the
/// deadline of the enclosing scope.
pub proof fn lemma_restore_returns_outer(outer: DeadlineCell, d1: Option<Instant>, d2: Option<Instant>)
    ensures
        ({
            let c1 = installed(outer, d1);
            let c2 = installed(c1, d2);
            restored(c2, Guard(c1.current)) == c1 && restored(c1, Guard(outer.current)) == outer
        }),
{
}

} // verus!
