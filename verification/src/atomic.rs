//! Tagged pointer words.
//!
//! A pointer to a `T` is aligned to `align_of::<T>()`, so its low bits are
//! always zero. This module packs a small integer, the tag, into those bits
//! and keeps address and tag apart again when the word is read.
use vstd::prelude::*;
use core::marker::PhantomData;
use crate::guard::Guard;
use core::cmp::Ordering;
use vstd::std_specs::cmp::PartialEqSpecImpl;
use vstd::std_specs::cmp::PartialOrdSpecImpl;
use vstd::arithmetic::power2::is_pow2;
use vstd::layout::align_of;
use vstd::layout::align_properties;
use vstd::layout::layout_for_type_is_valid;

verus! {

/// `mask` is a run of low one-bits: `2^k - 1` for some `k`.
pub open spec fn is_low_mask(mask: usize) -> bool {
    mask < usize::MAX && mask & ((mask + 1) as usize) == 0
}

/// The bits of a word that hold the tag of a pointer to `T`:
/// `align_of::<T>() - 1`.
pub open spec fn tag_mask<T>() -> usize {
    if 1 <= align_of::<T>() <= usize::MAX {
        (align_of::<T>() - 1) as usize
    } else {
        0
    }
}

/// The word that holds the address bits of `data` and the tag `tag`, cut to
/// the bits of `mask`.
pub open spec fn compose(mask: usize, data: usize, tag: usize) -> usize {
    (data & !mask) | (tag & mask)
}

/// The address bits of `data`.
pub open spec fn address_of(mask: usize, data: usize) -> usize {
    data & !mask
}

/// The tag bits of `data`.
pub open spec fn tag_of(mask: usize, data: usize) -> usize {
    data & mask
}

/// `raw` has no bit set where a pointer to `T` holds its tag.
pub open spec fn is_aligned<T>(raw: usize) -> bool {
    raw & tag_mask::<T>() == 0
}

proof fn lemma_pow2_low_mask(a: int)
    requires
        is_pow2(a),
        a <= usize::MAX,
    ensures
        is_low_mask((a - 1) as usize),
    decreases a,
{
    reveal(is_pow2);
    if a == 1 {
        assert(0usize & 1usize == 0) by (bit_vector);
    } else {
        let h = a / 2;
        lemma_pow2_low_mask(h);
        let hm = (h - 1) as usize;
        let hu = h as usize;
        let am = (a - 1) as usize;
        let au = a as usize;
        assert(hu == (hm + 1) as usize);
        assert(au == (am + 1) as usize);
        assert(am & au == 0) by (bit_vector)
            requires
                hm & hu == 0,
                hu == hm + 1,
                au == hu * 2,
                am == au - 1,
                hu >= 1,
                au > hu,
        ;
    }
}

/// The tag bits of a pointer to `T` form a low mask.
pub proof fn lemma_tag_mask_is_low<T>()
    ensures
        is_low_mask(tag_mask::<T>()),
{
    broadcast use align_properties;
    if 1 <= align_of::<T>() <= usize::MAX {
        assert(is_pow2(align_of::<T>() as int));
        lemma_pow2_low_mask(align_of::<T>() as int);
    } else {
        assert(0usize & 1usize == 0) by (bit_vector);
    }
}

/// Returns a bitmask of the unused low bits of a pointer to `T`.
pub fn low_bits<T>() -> (mask: usize)
    ensures
        mask == tag_mask::<T>(),
        is_low_mask(mask),
{
    layout_for_type_is_valid::<T>();
    proof {
        lemma_tag_mask_is_low::<T>();
    }
    core::mem::align_of::<T>() - 1
}

/// A word that `compose` put together comes apart again: it has the
/// address bits of `data` and the tag bits of `tag`. The two parts of a word
/// do not overlap, and together they are the word.
pub proof fn lemma_compose_parts(mask: usize, data: usize, tag: usize)
    ensures
        address_of(mask, compose(mask, data, tag)) == address_of(mask, data),
        tag_of(mask, compose(mask, data, tag)) == tag_of(mask, tag),
        tag_of(mask, address_of(mask, data)) == 0,
        address_of(mask, address_of(mask, data)) == address_of(mask, data),
        tag_of(mask, data) <= mask,
        compose(mask, data, tag_of(mask, data)) == data,
{
    assert(((data & !mask) | (tag & mask)) & !mask == data & !mask) by (bit_vector);
    assert(((data & !mask) | (tag & mask)) & mask == tag & mask) by (bit_vector);
    assert((data & !mask) & mask == 0) by (bit_vector);
    assert((data & !mask) & !mask == data & !mask) by (bit_vector);
    assert(data & mask <= mask) by (bit_vector);
    assert((data & !mask) | ((data & mask) & mask) == data) by (bit_vector);
}

/// Under a low mask, a tag that fits is kept whole and an aligned address is
/// kept whole.
pub proof fn lemma_fits(mask: usize, raw: usize, tag: usize)
    requires
        is_low_mask(mask),
    ensures
        tag <= mask ==> tag_of(mask, tag) == tag,
        tag_of(mask, raw) == 0 ==> address_of(mask, raw) == raw,
{
    let next = (mask + 1) as usize;
    assert(tag <= mask ==> tag & mask == tag) by (bit_vector)
        requires
            mask & next == 0,
            next == mask + 1,
            next > mask,
    ;
    assert(raw & mask == 0 ==> raw & !mask == raw) by (bit_vector);
}

/// Tag round trip: a word made of an aligned address and a tag that fits
/// gives both back exactly.
pub proof fn lemma_tag_round_trip<T>(raw: usize, tag: usize)
    requires
        is_aligned::<T>(raw),
        tag <= tag_mask::<T>(),
    ensures
        address_of(tag_mask::<T>(), compose(tag_mask::<T>(), raw, tag)) == raw,
        tag_of(tag_mask::<T>(), compose(tag_mask::<T>(), raw, tag)) == tag,
{
    let mask = tag_mask::<T>();
    lemma_tag_mask_is_low::<T>();
    lemma_compose_parts(mask, raw, tag);
    lemma_fits(mask, raw, tag);
}

/// Returns the word with the address bits of `data` and the tag `tag`, cut to
/// the tag bits of a pointer to `T`.
pub fn data_with_tag<T>(data: usize, tag: usize) -> (word: usize)
    ensures
        word == compose(tag_mask::<T>(), data, tag),
{
    let mask = low_bits::<T>();
    (data & !mask) | (tag & mask)
}

/// Splits a word into its address and its tag.
pub fn decompose_data<T>(data: usize) -> (parts: (usize, usize))
    ensures
        parts.0 == address_of(tag_mask::<T>(), data),
        parts.1 == tag_of(tag_mask::<T>(), data),
{
    let mask = low_bits::<T>();
    let raw = data & !mask;
    let tag = data & mask;
    (raw, tag)
}

/// Tells whether `raw` is aligned for a `T`.
pub fn aligned<T>(raw: usize) -> (r: bool)
    ensures
        r == is_aligned::<T>(raw),
{
    raw & low_bits::<T>() == 0
}

/// Accepts an address that is aligned for a `T`. An unaligned address is a
/// misuse that the precondition leaves out.
pub fn ensure_aligned<T>(raw: usize) -> (word: usize)
    requires
        is_aligned::<T>(raw),
    ensures
        word == raw,
        address_of(tag_mask::<T>(), word) == raw,
        tag_of(tag_mask::<T>(), word) == 0,
{
    proof {
        lemma_tag_mask_is_low::<T>();
        lemma_fits(tag_mask::<T>(), raw, 0);
    }
    raw
}

/// A memory ordering of an operation on an atomic cell.
#[derive(Clone, Copy, Debug, PartialEq, Eq, Structural)]
pub enum Order {
    /// No ordering constraints, only atomic operations.
    Relaxed,
    /// All previous writes become visible to a load that acquires the value.
    Release,
    /// All writes before the store that released the value become visible.
    Acquire,
    /// Both `Acquire` and `Release`, for operations that load and store.
    AcqRel,
    /// `AcqRel`, and all threads see these operations in the same order.
    SeqCst,
}

/// The strongest ordering that a failed compare-and-set may use when its
/// success ordering is `ord`: it is no stronger than `ord` and is one of
/// `Relaxed`, `Acquire` and `SeqCst`.
pub open spec fn failure_ordering_of(ord: Order) -> Order {
    match ord {
        Order::Relaxed | Order::Release => Order::Relaxed,
        Order::Acquire | Order::AcqRel => Order::Acquire,
        Order::SeqCst => Order::SeqCst,
    }
}

/// Given the ordering for the success case of a compare-and-set, returns the
/// strongest appropriate ordering for the failure case.
pub fn strongest_failure_ordering(ord: Order) -> (failure: Order)
    ensures
        failure == failure_ordering_of(ord),
{
    match ord {
        Order::Relaxed | Order::Release => Order::Relaxed,
        Order::Acquire | Order::AcqRel => Order::Acquire,
        Order::SeqCst => Order::SeqCst,
    }
}

/// Memory orderings for compare-and-set operations.
///
/// A compare-and-set can have different orderings depending on whether it
/// succeeds. A single [`Order`] is the success ordering and gives the
/// strongest failure ordering it allows; a pair gives both.
pub trait CompareAndSetOrdering {
    /// The ordering of the operation if it succeeds.
    spec fn on_success(&self) -> Order;

    /// The ordering of the operation if it fails.
    spec fn on_failure(&self) -> Order;

    /// The ordering of the operation if it succeeds.
    fn success(&self) -> (ord: Order)
        ensures
            ord == self.on_success(),
    ;

    /// The ordering of the operation if it fails.
    fn failure(&self) -> (ord: Order)
        ensures
            ord == self.on_failure(),
    ;
}

impl CompareAndSetOrdering for Order {
    open spec fn on_success(&self) -> Order {
        *self
    }

    open spec fn on_failure(&self) -> Order {
        failure_ordering_of(*self)
    }

    fn success(&self) -> (ord: Order) {
        *self
    }

    fn failure(&self) -> (ord: Order) {
        strongest_failure_ordering(*self)
    }
}

impl CompareAndSetOrdering for (Order, Order) {
    open spec fn on_success(&self) -> Order {
        self.0
    }

    open spec fn on_failure(&self) -> Order {
        self.1
    }

    fn success(&self) -> (ord: Order) {
        self.0
    }

    fn failure(&self) -> (ord: Order) {
        self.1
    }
}

/// A tagged pointer word that is valid while a guard is held.
///
/// It does not own what it points to. Its view is the word itself.
pub struct Ptr<'g, T: 'g> {
    data: usize,
    _marker: PhantomData<&'g T>,
}

impl<'g, T> View for Ptr<'g, T> {
    type V = usize;

    closed spec fn view(&self) -> usize {
        self.data
    }
}

impl<'g, T> Clone for Ptr<'g, T> {
    fn clone(&self) -> (copy: Self)
        ensures
            copy@ == self@,
    {
        Ptr { data: self.data, _marker: PhantomData }
    }
}

impl<'g, T> Copy for Ptr<'g, T> {

}

impl<'g, T> Ptr<'g, T> {
    /// The address that the pointer holds.
    pub open spec fn addr(&self) -> usize {
        address_of(tag_mask::<T>(), self@)
    }

    /// The tag that the pointer holds.
    pub open spec fn spec_tag(&self) -> usize {
        tag_of(tag_mask::<T>(), self@)
    }

    /// Returns a new pointer with the word `data`.
    pub fn from_data(data: usize) -> (ptr: Self)
        ensures
            ptr@ == data,
    {
        Ptr { data: data, _marker: PhantomData }
    }

    /// Returns a new null pointer: address 0, tag 0.
    pub fn null() -> (ptr: Self)
        ensures
            ptr@ == 0,
            ptr.addr() == 0,
            ptr.spec_tag() == 0,
    {
        proof {
            lemma_compose_parts(tag_mask::<T>(), 0, 0);
            assert(0usize & !tag_mask::<T>() == 0) by (bit_vector);
            assert(0usize & tag_mask::<T>() == 0) by (bit_vector);
        }
        Ptr { data: 0, _marker: PhantomData }
    }

    /// Returns a new pointer to the address `raw`, with tag 0.
    pub fn from_raw(raw: usize) -> (ptr: Self)
        requires
            is_aligned::<T>(raw),
        ensures
            ptr@ == raw,
            ptr.addr() == raw,
            ptr.spec_tag() == 0,
    {
        let data = ensure_aligned::<T>(raw);
        Ptr { data: data, _marker: PhantomData }
    }

    /// Returns `true` if the address is zero, whatever the tag.
    pub fn is_null(&self) -> (r: bool)
        ensures
            r == (self.addr() == 0),
    {
        self.as_raw() == 0
    }

    /// Returns the address, without the tag.
    pub fn as_raw(&self) -> (raw: usize)
        ensures
            raw == self.addr(),
            is_aligned::<T>(raw),
    {
        proof {
            lemma_compose_parts(tag_mask::<T>(), self@, 0);
        }
        let (raw, _) = decompose_data::<T>(self.data);
        raw
    }

    /// Takes the word over as an owned pointer. The caller claims that nothing
    /// else reaches the allocation any more.
    pub fn into_owned(self) -> (owned: Owned<T>)
        requires
            self.addr() != 0,
        ensures
            owned@ == self@,
    {
        Owned { data: self.data, _marker: PhantomData }
    }

    /// Returns the tag.
    pub fn tag(&self) -> (tag: usize)
        ensures
            tag == self.spec_tag(),
            tag <= tag_mask::<T>(),
    {
        proof {
            lemma_compose_parts(tag_mask::<T>(), self@, 0);
        }
        let (_, tag) = decompose_data::<T>(self.data);
        tag
    }

    /// Returns the same pointer with the tag `tag`, cut to the tag bits.
    pub fn with_tag(&self, tag: usize) -> (ptr: Self)
        ensures
            ptr@ == compose(tag_mask::<T>(), self@, tag),
            ptr.addr() == self.addr(),
            ptr.spec_tag() == tag_of(tag_mask::<T>(), tag),
            tag <= tag_mask::<T>() ==> ptr.spec_tag() == tag,
    {
        proof {
            lemma_compose_parts(tag_mask::<T>(), self@, tag);
            lemma_tag_mask_is_low::<T>();
            lemma_fits(tag_mask::<T>(), 0, tag);
        }
        Self::from_data(data_with_tag::<T>(self.data, tag))
    }
}

impl<'g, T> PartialEq for Ptr<'g, T> {
    /// Pointers are equal if their words are, tag included.
    fn eq(&self, other: &Self) -> (r: bool) {
        self.data == other.data
    }
}

impl<'g, T> Eq for Ptr<'g, T> {

}

impl<'g, T> PartialEqSpecImpl for Ptr<'g, T> {
    open spec fn obeys_eq_spec() -> bool {
        true
    }

    open spec fn eq_spec(&self, other: &Self) -> bool {
        self@ == other@
    }
}

impl<'g, T> PartialOrd for Ptr<'g, T> {
    /// Pointers are ordered as their words are.
    fn partial_cmp(&self, other: &Self) -> (r: Option<Ordering>) {
        self.data.partial_cmp(&other.data)
    }
}

impl<'g, T> PartialOrdSpecImpl for Ptr<'g, T> {
    open spec fn obeys_partial_cmp_spec() -> bool {
        true
    }

    open spec fn partial_cmp_spec(&self, other: &Self) -> Option<Ordering> {
        if self@ < other@ {
            Some(Ordering::Less)
        } else if self@ > other@ {
            Some(Ordering::Greater)
        } else {
            Some(Ordering::Equal)
        }
    }
}

impl<'g, T> Default for Ptr<'g, T> {
    fn default() -> (ptr: Self)
        ensures
            ptr@ == 0,
    {
        Ptr::null()
    }
}

/// A tagged pointer word that stands for the one owner of an allocation.
///
/// Its address is never zero. It is not `Copy`: the word moves with the
/// ownership. Its view is the word itself.
pub struct Owned<T> {
    data: usize,
    _marker: PhantomData<Box<T>>,
}

impl<T> View for Owned<T> {
    type V = usize;

    closed spec fn view(&self) -> usize {
        self.data
    }
}

impl<T> Owned<T> {
    #[verifier::type_invariant]
    spec fn owns_something(&self) -> bool {
        address_of(tag_mask::<T>(), self.data) != 0
    }

    /// The address that the pointer holds.
    pub open spec fn addr(&self) -> usize {
        address_of(tag_mask::<T>(), self@)
    }

    /// The tag that the pointer holds.
    pub open spec fn spec_tag(&self) -> usize {
        tag_of(tag_mask::<T>(), self@)
    }

    /// Takes over the allocation at the address `raw`, with tag 0.
    pub fn from_raw(raw: usize) -> (owned: Self)
        requires
            is_aligned::<T>(raw),
            raw != 0,
        ensures
            owned@ == raw,
            owned.addr() == raw,
            owned.spec_tag() == 0,
    {
        let data = ensure_aligned::<T>(raw);
        Owned { data: data, _marker: PhantomData }
    }

    /// Turns the owned pointer into a [`Ptr`] with the same word. The
    /// allocation is not released: it belongs to the cell that the pointer is
    /// stored in next.
    pub fn into_ptr<'g>(self, _guard: &'g Guard) -> (ptr: Ptr<'g, T>)
        ensures
            ptr@ == self@,
            ptr.addr() != 0,
    {
        proof {
            use_type_invariant(&self);
        }
        Ptr::from_data(self.data)
    }

    /// Gives up the word and returns the address of the allocation, for the
    /// caller to release or to box again.
    pub fn into_raw(self) -> (raw: usize)
        ensures
            raw == self.addr(),
            raw != 0,
    {
        proof {
            use_type_invariant(&self);
        }
        let (raw, _) = decompose_data::<T>(self.data);
        raw
    }

    /// Returns the tag.
    pub fn tag(&self) -> (tag: usize)
        ensures
            tag == self.spec_tag(),
            tag <= tag_mask::<T>(),
    {
        proof {
            lemma_compose_parts(tag_mask::<T>(), self@, 0);
        }
        let (_, tag) = decompose_data::<T>(self.data);
        tag
    }

    /// Returns the same owned pointer with the tag `tag`, cut to the tag bits.
    pub fn with_tag(self, tag: usize) -> (owned: Self)
        ensures
            owned@ == compose(tag_mask::<T>(), self@, tag),
            owned.addr() == self.addr(),
            owned.spec_tag() == tag_of(tag_mask::<T>(), tag),
            tag <= tag_mask::<T>() ==> owned.spec_tag() == tag,
    {
        proof {
            use_type_invariant(&self);
            lemma_compose_parts(tag_mask::<T>(), self@, tag);
            lemma_tag_mask_is_low::<T>();
            lemma_fits(tag_mask::<T>(), 0, tag);
        }
        Owned { data: data_with_tag::<T>(self.data, tag), _marker: PhantomData }
    }
}

/// A cell that holds a tagged pointer word.
///
/// The cell has one owner at a time: whoever changes it borrows it mutably,
/// so every operation sees the word that the last one left, under any memory
/// ordering. The final drop of a cell releases nothing: what the word points
/// to has been handed on by then. Its view is the word that it holds.
pub struct Atomic<T> {
    data: usize,
    _marker: PhantomData<T>,
}

impl<T> View for Atomic<T> {
    type V = usize;

    closed spec fn view(&self) -> usize {
        self.data
    }
}

/// What a `fetch_and` with `val` leaves of the word `data`: the address is
/// kept, the tag is the old one and-ed with `val`.
pub open spec fn and_tag(mask: usize, data: usize, val: usize) -> usize {
    data & (val | !mask)
}

/// What a `fetch_or` with `val` leaves of the word `data`.
pub open spec fn or_tag(mask: usize, data: usize, val: usize) -> usize {
    data | (val & mask)
}

/// What a `fetch_xor` with `val` leaves of the word `data`.
pub open spec fn xor_tag(mask: usize, data: usize, val: usize) -> usize {
    data ^ (val & mask)
}

/// The bitwise operations on the tag leave the address alone and combine the
/// old tag with the tag bits of the operand.
pub proof fn lemma_tag_ops(mask: usize, data: usize, val: usize)
    ensures
        address_of(mask, and_tag(mask, data, val)) == address_of(mask, data),
        tag_of(mask, and_tag(mask, data, val)) == tag_of(mask, data) & tag_of(mask, val),
        address_of(mask, or_tag(mask, data, val)) == address_of(mask, data),
        tag_of(mask, or_tag(mask, data, val)) == tag_of(mask, data) | tag_of(mask, val),
        address_of(mask, xor_tag(mask, data, val)) == address_of(mask, data),
        tag_of(mask, xor_tag(mask, data, val)) == tag_of(mask, data) ^ tag_of(mask, val),
{
    assert((data & (val | !mask)) & !mask == data & !mask) by (bit_vector);
    assert((data & (val | !mask)) & mask == (data & mask) & (val & mask)) by (bit_vector);
    assert((data | (val & mask)) & !mask == data & !mask) by (bit_vector);
    assert((data | (val & mask)) & mask == (data & mask) | (val & mask)) by (bit_vector);
    assert((data ^ (val & mask)) & !mask == data & !mask) by (bit_vector);
    assert((data ^ (val & mask)) & mask == (data & mask) ^ (val & mask)) by (bit_vector);
}

impl<T> Atomic<T> {
    /// Returns a new cell that holds the word `data`.
    pub fn from_data(data: usize) -> (cell: Self)
        ensures
            cell@ == data,
    {
        Atomic { data: data, _marker: PhantomData }
    }

    /// Returns a new null cell.
    pub fn null() -> (cell: Self)
        ensures
            cell@ == 0,
    {
        Atomic { data: 0, _marker: PhantomData }
    }

    /// Returns a new cell that holds the word of `owned`. The allocation now
    /// belongs to the cell's client.
    pub fn from_owned(owned: Owned<T>) -> (cell: Self)
        ensures
            cell@ == owned@,
    {
        let data = owned.data;
        Self::from_data(data)
    }

    /// Returns a new cell that holds the word of `ptr`.
    pub fn from_ptr(ptr: Ptr<T>) -> (cell: Self)
        ensures
            cell@ == ptr@,
    {
        Self::from_data(ptr.data)
    }

    /// Returns a new cell that holds the address `raw`.
    pub fn from_raw(raw: usize) -> (cell: Self)
        ensures
            cell@ == raw,
    {
        Self::from_data(raw)
    }

    /// Loads the word. The pointer that comes back is exactly what the cell
    /// holds.
    pub fn load<'g>(&self, _ord: Order, _guard: &'g Guard) -> (ptr: Ptr<'g, T>)
        ensures
            ptr@ == self@,
    {
        Ptr::from_data(self.data)
    }

    /// Stores the word of `new`.
    pub fn store(&mut self, new: Ptr<T>, _ord: Order)
        ensures
            final(self)@ == new@,
    {
        self.data = new.data;
    }

    /// Stores the word of `new`. The allocation is not released: it now
    /// belongs to the cell's client.
    pub fn store_owned(&mut self, new: Owned<T>, _ord: Order)
        ensures
            final(self)@ == new@,
    {
        let data = new.data;
        self.data = data;
    }

    /// Stores the word of `new` and returns the word that the cell held.
    pub fn swap<'g>(&mut self, new: Ptr<T>, _ord: Order, _guard: &'g Guard) -> (previous: Ptr<'g, T>)
        ensures
            previous@ == old(self)@,
            final(self)@ == new@,
    {
        let previous = self.data;
        self.data = new.data;
        Ptr::from_data(previous)
    }

    /// Stores `new` if the cell holds the word of `current`, tag included.
    ///
    /// On success the cell holds the word of `new`, and the pointer that was
    /// written comes back. On failure the cell is unchanged and the error is
    /// the word that it holds.
    pub fn compare_and_set<'g, O: CompareAndSetOrdering>(
        &mut self,
        current: Ptr<T>,
        new: Ptr<T>,
        _ord: O,
        _guard: &'g Guard,
    ) -> (r: Result<Ptr<'g, T>, Ptr<'g, T>>)
        ensures
            old(self)@ == current@ ==> r is Ok && r->Ok_0@ == new@ && final(self)@ == new@,
            old(self)@ != current@
                ==> r is Err && r->Err_0@ == old(self)@ && final(self)@ == old(self)@,
    {
        if self.data == current.data {
            self.data = new.data;
            Ok(Ptr::from_data(new.data))
        } else {
            Err(Ptr::from_data(self.data))
        }
    }

    /// Stores `new` if the cell holds the word of `current`, tag included.
    ///
    /// The weak form is allowed to fail for no reason where cells are shared;
    /// a cell with one owner never does, so this is `compare_and_set`.
    pub fn compare_and_set_weak<'g, O: CompareAndSetOrdering>(
        &mut self,
        current: Ptr<T>,
        new: Ptr<T>,
        ord: O,
        guard: &'g Guard,
    ) -> (r: Result<Ptr<'g, T>, Ptr<'g, T>>)
        ensures
            old(self)@ == current@ ==> r is Ok && r->Ok_0@ == new@ && final(self)@ == new@,
            old(self)@ != current@
                ==> r is Err && r->Err_0@ == old(self)@ && final(self)@ == old(self)@,
    {
        self.compare_and_set(current, new, ord, guard)
    }

    /// Stores the owned pointer `new` if the cell holds the word of
    /// `current`.
    ///
    /// On success the pointer that was written comes back. On failure the
    /// cell is unchanged, and the error holds the word of the cell and `new`,
    /// which was not installed.
    pub fn compare_and_set_owned<'g, O: CompareAndSetOrdering>(
        &mut self,
        current: Ptr<T>,
        new: Owned<T>,
        _ord: O,
        _guard: &'g Guard,
    ) -> (r: Result<Ptr<'g, T>, (Ptr<'g, T>, Owned<T>)>)
        ensures
            old(self)@ == current@ ==> r is Ok && r->Ok_0@ == new@ && final(self)@ == new@,
            old(self)@ != current@ ==> r is Err && r->Err_0.0@ == old(self)@ && r->Err_0.1@
                == new@ && final(self)@ == old(self)@,
    {
        if self.data == current.data {
            let data = new.data;
            self.data = data;
            Ok(Ptr::from_data(data))
        } else {
            Err((Ptr::from_data(self.data), new))
        }
    }

    /// Stores the owned pointer `new` if the cell holds the word of
    /// `current`. With one owner the weak form is `compare_and_set_owned`.
    pub fn compare_and_set_weak_owned<'g, O: CompareAndSetOrdering>(
        &mut self,
        current: Ptr<T>,
        new: Owned<T>,
        ord: O,
        guard: &'g Guard,
    ) -> (r: Result<Ptr<'g, T>, (Ptr<'g, T>, Owned<T>)>)
        ensures
            old(self)@ == current@ ==> r is Ok && r->Ok_0@ == new@ && final(self)@ == new@,
            old(self)@ != current@ ==> r is Err && r->Err_0.0@ == old(self)@ && r->Err_0.1@
                == new@ && final(self)@ == old(self)@,
    {
        self.compare_and_set_owned(current, new, ord, guard)
    }

    /// Ands the tag with `val` and returns the word that the cell held. The
    /// address is kept: the operand is or-ed with the address bits first.
    pub fn fetch_and<'g>(&mut self, val: usize, _ord: Order, _guard: &'g Guard) -> (previous: Ptr<
        'g,
        T,
    >)
        ensures
            previous@ == old(self)@,
            final(self)@ == and_tag(tag_mask::<T>(), old(self)@, val),
            address_of(tag_mask::<T>(), final(self)@) == previous.addr(),
            tag_of(tag_mask::<T>(), final(self)@) == previous.spec_tag() & tag_of(
                tag_mask::<T>(),
                val,
            ),
    {
        proof {
            lemma_tag_ops(tag_mask::<T>(), self@, val);
        }
        let previous = self.data;
        self.data = previous & (val | !low_bits::<T>());
        Ptr::from_data(previous)
    }

    /// Ors the tag with `val` and returns the word that the cell held. The
    /// operand is cut to the tag bits first.
    pub fn fetch_or<'g>(&mut self, val: usize, _ord: Order, _guard: &'g Guard) -> (previous: Ptr<
        'g,
        T,
    >)
        ensures
            previous@ == old(self)@,
            final(self)@ == or_tag(tag_mask::<T>(), old(self)@, val),
            address_of(tag_mask::<T>(), final(self)@) == previous.addr(),
            tag_of(tag_mask::<T>(), final(self)@) == previous.spec_tag() | tag_of(
                tag_mask::<T>(),
                val,
            ),
    {
        proof {
            lemma_tag_ops(tag_mask::<T>(), self@, val);
        }
        let previous = self.data;
        self.data = previous | (val & low_bits::<T>());
        Ptr::from_data(previous)
    }

    /// Xors the tag with `val` and returns the word that the cell held. The
    /// operand is cut to the tag bits first.
    pub fn fetch_xor<'g>(&mut self, val: usize, _ord: Order, _guard: &'g Guard) -> (previous: Ptr<
        'g,
        T,
    >)
        ensures
            previous@ == old(self)@,
            final(self)@ == xor_tag(tag_mask::<T>(), old(self)@, val),
            address_of(tag_mask::<T>(), final(self)@) == previous.addr(),
            tag_of(tag_mask::<T>(), final(self)@) == previous.spec_tag() ^ tag_of(
                tag_mask::<T>(),
                val,
            ),
    {
        proof {
            lemma_tag_ops(tag_mask::<T>(), self@, val);
        }
        let previous = self.data;
        self.data = previous ^ (val & low_bits::<T>());
        Ptr::from_data(previous)
    }
}

impl<T> Clone for Atomic<T> {
    /// Returns a cell that holds the word that this one holds now.
    fn clone(&self) -> (copy: Self)
        ensures
            copy@ == self@,
    {
        Atomic::from_data(self.data)
    }
}

impl<T> Default for Atomic<T> {
    fn default() -> (cell: Self)
        ensures
            cell@ == 0,
    {
        Atomic::null()
    }
}

} // verus!
