//! Actions at the end of a scope.
//!
//! A guard holds an action, to be run once: by whoever ends the scope, or earlier.

use vstd::prelude::*;

verus! {

/// Holds an action to be run, unless it has been cancelled or run before.
pub struct Deferred<F: FnOnce()> {
    action: Option<F>,
}

impl<F: FnOnce()> Deferred<F> {
    /// The action that is still to be run.
    pub closed spec fn pending(self) -> Option<F> {
        self.action
    }

    /// A guard that holds `action`.
    pub fn new(action: F) -> (d: Self)
        ensures
            d.pending() == Some(action),
    {
        Deferred { action: Some(action) }
    }

    /// Cancels the action.
    pub fn cancel(&mut self)
        ensures
            final(self).pending() is None,
    {
        self.action = None;
    }

    /// Runs the action now; it is not run again.
    pub fn call(&mut self)
        requires
            old(self).pending() matches Some(f) ==> call_requires(f, ()),
        ensures
            final(self).pending() is None,
            old(self).pending() matches Some(f) ==> call_ensures(f, (), ()),
    {
        if let Some(action) = self.action.take() {
            action();
        }
    }
}

/// Holds `action` until the scope ends.
pub fn defer<F: FnOnce()>(action: F) -> (d: Deferred<F>)
    ensures
        d.pending() == Some(action),
{
    Deferred::new(action)
}

/// A deferred action is run when the scope ends, and not again; one that has been cancelled is not pending
/// any more.
pub proof fn law_runs_once<F: FnOnce()>(
    action: F,
    made: Deferred<F>,
    run: &mut Deferred<F>,
    cancelled: &mut Deferred<F>,
)
    requires
        call_ensures(defer::<F>, (action,), made),
        *old(run) == made,
        call_ensures(Deferred::<F>::call, (run,), ()),
        *old(cancelled) == made,
        call_ensures(Deferred::<F>::cancel, (cancelled,), ()),
    ensures
        call_ensures(action, (), ()),
        final(run).pending() is None,
        final(cancelled).pending() is None,
{
}

} // verus!
