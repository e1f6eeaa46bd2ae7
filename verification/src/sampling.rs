//! Drawing the initial centroids: `amount` different samples out of a
//! population, by index.

use rand::rngs::StdRng;
use rand::seq::IteratorRandom;
use vstd::prelude::*;

verus! {

/// `rand::rngs::StdRng`, the generator that callers hand in. The library
/// never looks inside it; it only passes it on to `rand`.
#[verifier::external_type_specification]
#[verifier::external_body]
pub struct ExStdRng(StdRng);

/// `picks` names `amount` different members of a population of `population`
/// samples.
pub open spec fn is_selection(picks: Seq<usize>, amount: nat, population: nat) -> bool {
    &&& picks.len() == amount
    &&& forall|j: int| 0 <= j < picks.len() ==> #[trigger] picks[j] < population
    &&& picks.no_duplicates()
}

/// Calls `rand::seq::IteratorRandom::choose_multiple` on the range
/// `0..population`.
///
/// Not verified. The claims rest on the method's documentation and source: it
/// fills a reservoir with the first `amount` items of the iterator and then
/// lets each later item replace at most one slot, so the result holds
/// `amount` items, or all of them where the iterator has fewer, every one of
/// them an item of the iterator, none of them twice. Which items, and in what
/// order, depends on the generator.
#[verifier::external_body]
pub(crate) fn choose_indices(rng: &mut StdRng, population: usize, amount: usize) -> (picks: Vec<
    usize,
>)
    ensures
        picks@.len() == if amount <= population {
            amount
        } else {
            population
        },
        forall|j: int| 0 <= j < picks@.len() ==> #[trigger] picks@[j] < population,
        picks@.no_duplicates(),
{
    (0..population).choose_multiple(rng, amount)
}

/// Tells whether `picks` names `amount` different members of a population of
/// `population` samples.
pub fn check_selection(picks: &[usize], amount: usize, population: usize) -> (valid: bool)
    ensures
        valid == is_selection(picks@, amount as nat, population as nat),
{
    let len = picks.len();
    if len != amount {
        return false;
    }
    let mut seen: Vec<bool> = Vec::with_capacity(population);
    let mut i: usize = 0;
    while i < population
        invariant
            i <= population,
            seen@.len() == i,
            forall|s: int| 0 <= s < i ==> !(#[trigger] seen@[s]),
        decreases population - i,
    {
        seen.push(false);
        i += 1;
    }
    let mut j: usize = 0;
    while j < len
        invariant
            len == picks@.len(),
            j <= len,
            seen@.len() == population,
            forall|r: int| 0 <= r < j ==> #[trigger] picks@[r] < population,
            forall|r: int, s: int| 0 <= r < s < j ==> picks@[r] != picks@[s],
            forall|s: int|
                0 <= s < population ==> (#[trigger] seen@[s] <==> exists|r: int|
                    0 <= r < j && #[trigger] picks@[r] == s),
        decreases len - j,
    {
        let pick = picks[j];
        if pick >= population {
            return false;
        }
        if seen[pick] {
            proof {
                let r = choose|r: int| 0 <= r < j && #[trigger] picks@[r] == pick;
                assert(picks@[r] == picks@[j as int]);
            }
            return false;
        }
        let ghost marks = seen@;
        seen[pick] = true;
        assert forall|s: int| 0 <= s < population implies (#[trigger] seen@[s] <==> exists|r: int|
            0 <= r < j + 1 && #[trigger] picks@[r] == s) by {
            if s == pick {
                assert(picks@[j as int] == s);
            } else if marks[s] {
                let r = choose|r: int| 0 <= r < j && #[trigger] picks@[r] == s;
                assert(0 <= r < j + 1 && picks@[r] == s);
            } else if exists|r: int| 0 <= r < j + 1 && #[trigger] picks@[r] == s {
                let r = choose|r: int| 0 <= r < j + 1 && #[trigger] picks@[r] == s;
                assert(r < j);
            }
        }
        j += 1;
    }
    true
}

} // verus!
