//! Garbage and bags of garbage.
//!
//! An object that is unlinked from a shared structure is stashed away until
//! the global epoch has advanced far enough for it to be destroyed. What is
//! stashed is a function that destroys it: a piece of garbage.
//!
//! Garbage is first put into the bag of the participant that made it. When the
//! bag is full it is marked with the current global epoch and handed to the
//! global queue; this spreads the cost of the queue over many objects.
use vstd::prelude::*;
use arrayvec::ArrayVec;
use crate::deferred::Deferred;

verus! {

/// Maximum number of objects a bag can contain.
pub const MAX_OBJECTS: usize = 64;

/// A function that destroys an object, waiting to be run once.
pub struct Garbage {
    func: Deferred,
}

impl Garbage {
    #[verifier::type_invariant]
    spec fn not_yet_run(&self) -> bool {
        self.func.pending()
    }

    /// What the function promises for when it has run: its own
    /// postcondition.
    pub closed spec fn promise(&self) -> bool {
        self.func.promise()
    }

    /// Makes a closure that will later be called.
    pub fn new<F: FnOnce() + Send + 'static>(f: F) -> (garbage: Self)
        requires
            f.requires(()),
        ensures
            garbage.promise() == f.ensures((), ()),
    {
        Garbage { func: Deferred::new(f) }
    }

    /// Runs the function and uses the garbage up. When the call returns,
    /// the function has run: what it promised holds.
    pub fn run(self)
        ensures
            self.promise(),
    {
        proof {
            use_type_invariant(&self);
        }
        let mut func = self.func;
        func.call();
    }
}

#[verifier::external_type_specification]
#[verifier::external_body]
#[verifier::reject_recursive_types(T)]
pub struct ExArrayVec<T, const CAP: usize>(ArrayVec<T, CAP>);

/// What an array of garbage holds, oldest first.
pub uninterp spec fn held(objects: ArrayVec<Garbage, MAX_OBJECTS>) -> Seq<Garbage>;

/// `ArrayVec::new`: the new array is empty.
#[verifier::external_body]
fn objects_new() -> (objects: ArrayVec<Garbage, MAX_OBJECTS>)
    ensures
        held(objects) == Seq::<Garbage>::empty(),
{
    ArrayVec::new()
}

/// `ArrayVec::len`: the number of elements, which never exceeds the capacity.
#[verifier::external_body]
fn objects_len(objects: &ArrayVec<Garbage, MAX_OBJECTS>) -> (len: usize)
    ensures
        len == held(*objects).len(),
        len <= MAX_OBJECTS,
{
    objects.len()
}

/// `ArrayVec::is_empty`: whether the array holds no element.
#[verifier::external_body]
fn objects_is_empty(objects: &ArrayVec<Garbage, MAX_OBJECTS>) -> (empty: bool)
    ensures
        empty == (held(*objects).len() == 0),
{
    objects.is_empty()
}

/// `ArrayVec::try_push`: appends the element if the array holds fewer than
/// its capacity, and else does not touch the array and hands the element
/// back (`CapacityError::element`).
#[verifier::external_body]
fn objects_try_push(objects: &mut ArrayVec<Garbage, MAX_OBJECTS>, garbage: Garbage) -> (r: Result<(), Garbage>)
    ensures
        r is Ok <==> held(*old(objects)).len() < MAX_OBJECTS,
        r is Ok ==> held(*final(objects)) == held(*old(objects)).push(garbage),
        r is Err ==> r->Err_0 == garbage && *final(objects) == *old(objects),
{
    objects.try_push(garbage).map_err(|e| e.element())
}

/// `ArrayVec::pop`: removes the last element and returns it, or returns
/// `None` if the array is empty.
#[verifier::external_body]
fn objects_pop(objects: &mut ArrayVec<Garbage, MAX_OBJECTS>) -> (r: Option<Garbage>)
    ensures
        r is Some <==> held(*old(objects)).len() > 0,
        r is Some ==> r->Some_0 == held(*old(objects)).last() && held(*final(objects)) == held(
            *old(objects),
        ).drop_last(),
        r is None ==> held(*final(objects)) == held(*old(objects)),
{
    objects.pop()
}

/// A bag of garbage: at most [`MAX_OBJECTS`] pieces.
///
/// Its view is the sequence of the pieces, oldest first.
pub struct Bag {
    /// Removed objects.
    objects: ArrayVec<Garbage, MAX_OBJECTS>,
}

impl View for Bag {
    type V = Seq<Garbage>;

    closed spec fn view(&self) -> Seq<Garbage> {
        held(self.objects)
    }
}

impl Bag {
    /// Returns a new, empty bag.
    pub fn new() -> (bag: Self)
        ensures
            bag@ == Seq::<Garbage>::empty(),
    {
        Bag { objects: objects_new() }
    }

    /// Returns `true` if the bag is empty.
    pub fn is_empty(&self) -> (empty: bool)
        ensures
            empty == (self@.len() == 0),
    {
        objects_is_empty(&self.objects)
    }

    /// Returns the number of pieces in the bag.
    pub fn len(&self) -> (len: usize)
        ensures
            len == self@.len(),
            len <= MAX_OBJECTS,
    {
        objects_len(&self.objects)
    }

    /// Attempts to insert a piece of garbage into the bag. A full bag is left
    /// as it is and the piece comes back.
    pub fn try_push(&mut self, garbage: Garbage) -> (r: Result<(), Garbage>)
        ensures
            r is Ok <==> old(self)@.len() < MAX_OBJECTS,
            r is Ok ==> final(self)@ == old(self)@.push(garbage),
            r is Err ==> r->Err_0 == garbage && *final(self) == *old(self),
    {
        objects_try_push(&mut self.objects, garbage)
    }

    /// Whether every piece of garbage in the bag has run: what each
    /// promised holds.
    pub open spec fn all_run(&self) -> bool {
        forall|i: int| 0 <= i < self@.len() ==> (#[trigger] self@[i]).promise()
    }

    /// Destroys the bag: runs every piece of garbage in it exactly once, the
    /// newest first, and returns how many were run.
    pub fn run(self) -> (count: usize)
        ensures
            count == self@.len(),
            self.all_run(),
    {
        let mut objects = self.objects;
        let mut count: usize = 0;
        let mut left = objects_len(&objects);
        while left > 0
            invariant
                left == held(objects).len(),
                count + left == self@.len(),
                count + left <= MAX_OBJECTS,
                held(objects) == self@.take(left as int),
                forall|i: int| left <= i < self@.len() ==> (#[trigger] self@[i]).promise(),
            decreases left,
        {
            if let Some(garbage) = objects_pop(&mut objects) {
                garbage.run();
                count = count + 1;
            }
            left = left - 1;
        }
        count
    }
}

impl Default for Bag {
    fn default() -> (bag: Self)
        ensures
            bag@ == Seq::<Garbage>::empty(),
    {
        Bag::new()
    }
}

} // verus!
