use klib::defer::{defer, Deferred};

/// A guard that runs its action at the end of a scope.
struct Scope<F: FnOnce()>(Deferred<F>);

impl<F: FnOnce()> Drop for Scope<F> {
    fn drop(&mut self) {
        self.0.call();
    }
}

#[test]
fn runs_on_drop() {
    let mut ran = false;
    {
        let _guard = Scope(defer(|| ran = true));
    }
    assert!(ran);
}

#[test]
fn cancel_prevents_run() {
    let mut ran = false;
    {
        let mut guard = Scope(defer(|| ran = true));
        guard.0.cancel();
    }
    assert!(!ran);
}

#[test]
fn call_runs_once() {
    let mut count = 0;
    {
        let mut guard = Scope(defer(|| count += 1));
        guard.0.call();
    }
    assert_eq!(count, 1);
}
