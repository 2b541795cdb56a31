//! Random choice of positions in the store.

use rand::seq::IteratorRandom;
use vstd::prelude::*;

verus! {

/// Every position of `picks` lies below `len`.
pub open spec fn in_range(picks: Seq<usize>, len: nat) -> bool {
    forall|i: int| 0 <= i < picks.len() ==> #[trigger] picks[i] < len
}

/// No position occurs twice in `picks`.
pub open spec fn distinct(picks: Seq<usize>) -> bool {
    forall|i: int, j: int| 0 <= i < j < picks.len() ==> picks[i] != picks[j]
}

/// `picks` is a choice of `amount` positions out of `len` without repetition,
/// or of all `len` positions where `amount` is larger.
pub open spec fn is_sample(picks: Seq<usize>, len: nat, amount: nat) -> bool {
    &&& picks.len() == if amount <= len { amount } else { len }
    &&& in_range(picks, len)
    &&& distinct(picks)
}

/// Trusted: calls `IteratorRandom::choose_multiple` of `rand` on the range
/// `0..len`, with the thread-local generator. The method fills a reservoir
/// with the first `amount` values of the iterator and then lets each later
/// value replace a random slot or none, so the result holds `amount` values
/// (all of them if the iterator has fewer), each a value of the iterator and
/// none twice. Which values, and in which order, depends on the generator:
/// the contract says nothing of it.
#[verifier::external_body]
pub(crate) fn choose_positions(len: usize, amount: usize) -> (picks: Vec<usize>)
    ensures
        is_sample(picks@, len as nat, amount as nat),
{
    (0..len).choose_multiple(&mut rand::thread_rng(), amount)
}

} // verus!
