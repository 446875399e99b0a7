//! Presentation order of a freshly fetched catalog.

use vstd::prelude::*;
use rand::seq::SliceRandom;
use crate::question::Question;

verus! {

/// Relies on rand's `SliceRandom::shuffle` over the thread-local generator:
/// it only swaps elements of the slice, so what comes back is a
/// rearrangement of what went in. Which one depends on chance.
#[verifier::external_body]
fn shuffle_in_place(v: &mut Vec<Question>)
    ensures
        final(v)@.to_multiset() == old(v)@.to_multiset(),
        final(v)@.len() == old(v)@.len(),
{
    v.shuffle(&mut rand::thread_rng());
}

/// Puts a freshly fetched catalog in a random presentation order: the same
/// questions, each as often as before.
pub fn load_questions(fetched: Vec<Question>) -> (r: Vec<Question>)
    ensures
        r@.to_multiset() == fetched@.to_multiset(),
        r@.len() == fetched@.len(),
{
    let mut questions = fetched;
    shuffle_in_place(&mut questions);
    questions
}

} // verus!
