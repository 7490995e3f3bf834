//! Words that sit alone on a cache line.
//!
//! The global epoch and the state word of each participant are read far more
//! often than they are written, and by different parties. Each is kept in a
//! `CachePadded` so that a write to one does not evict its neighbours.
use vstd::prelude::*;
use crossbeam_utils::CachePadded;

verus! {

#[verifier::external_type_specification]
#[verifier::external_body]
#[verifier::reject_recursive_types(T)]
pub struct ExCachePadded<T>(CachePadded<T>);

/// The word that a padded cell holds.
pub uninterp spec fn padded_word(cell: CachePadded<usize>) -> usize;

/// `CachePadded::new`: the new cell holds the word it was given.
#[verifier::external_body]
pub(crate) fn padded_new(word: usize) -> (cell: CachePadded<usize>)
    ensures
        padded_word(cell) == word,
{
    CachePadded::new(word)
}

/// `CachePadded::deref`: reads the word that the cell holds.
#[verifier::external_body]
pub(crate) fn padded_get(cell: &CachePadded<usize>) -> (word: usize)
    ensures
        word == padded_word(*cell),
{
    **cell
}

/// `CachePadded::deref_mut`: after the write the cell holds the new word.
#[verifier::external_body]
pub(crate) fn padded_set(cell: &mut CachePadded<usize>, word: usize)
    ensures
        padded_word(*final(cell)) == word,
{
    **cell = word;
}

} // verus!
