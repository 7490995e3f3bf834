//! A boxed `FnOnce()` that is called at most once.
use vstd::prelude::*;

verus! {

/// Dispatches a call to a `FnOnce()` from a trait object.
pub trait Callback: Send {
    /// The function may be called: its own precondition holds.
    spec fn callable(&self) -> bool;

    /// What the function promises for when it has returned: its own
    /// postcondition.
    spec fn done(&self) -> bool;

    /// Calls the function from a trait object on the heap.
    fn call_box(self: Box<Self>)
        requires
            self.callable(),
        ensures
            self.done(),
    ;
}

impl<F: FnOnce() + Send> Callback for F {
    open spec fn callable(&self) -> bool {
        self.requires(())
    }

    open spec fn done(&self) -> bool {
        self.ensures((), ())
    }

    fn call_box(self: Box<Self>) {
        let f: F = *self;
        f();
    }
}

/// A `FnOnce()` of any type, kept in a sized value until it is called.
///
/// The function is called at most once: `call` takes it out, and a second
/// `call` is a misuse that the precondition leaves out.
pub struct Deferred {
    callback: Option<Box<dyn Callback>>,
}

impl Deferred {
    #[verifier::type_invariant]
    spec fn callable_if_pending(&self) -> bool {
        self.callback matches Some(callback) ==> callback.callable()
    }

    /// The function has not been called yet.
    pub closed spec fn pending(&self) -> bool {
        self.callback is Some
    }

    /// What the function promises for when it has returned; `true` once it
    /// has been called.
    pub closed spec fn promise(&self) -> bool {
        match self.callback {
            Some(callback) => callback.done(),
            None => true,
        }
    }

    /// Constructs a new `Deferred` from a `FnOnce()`.
    pub fn new<F: FnOnce() + Send + 'static>(f: F) -> (deferred: Self)
        requires
            f.requires(()),
        ensures
            deferred.pending(),
            deferred.promise() == f.ensures((), ()),
    {
        let callback: Box<dyn Callback> = Box::new(f);
        Deferred { callback: Some(callback) }
    }

    /// Tells whether the function has not been called yet.
    pub fn is_pending(&self) -> (r: bool)
        ensures
            r == self.pending(),
    {
        self.callback.is_some()
    }

    /// Calls the function. It must not have been called before. When the
    /// call returns, the function has run: what it promised holds.
    pub fn call(&mut self)
        requires
            old(self).pending(),
        ensures
            !final(self).pending(),
            old(self).promise(),
    {
        let mut taken = Deferred { callback: None };
        core::mem::swap(self, &mut taken);
        proof {
            use_type_invariant(&taken);
        }
        match taken.callback {
            Some(f) => {
                f.call_box();
            },
            None => {},
        }
    }
}

} // verus!
