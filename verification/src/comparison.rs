//! Tallying the outcome of a batch of rate comparisons.

use vstd::prelude::*;
use crate::sums::sum_to;

verus! {

/// The number of `true` entries of `s`.
pub open spec fn count_true(s: Seq<bool>) -> nat
    decreases s.len(),
{
    if s.len() == 0 {
        0
    } else {
        count_true(s.drop_last()) + if s.last() {
            1nat
        } else {
            0nat
        }
    }
}

/// The number of comparisons whose rates matched, given one flag per comparison.
pub fn count_matches(matches: &[bool]) -> (n_match: usize)
    ensures
        n_match == count_true(matches@),
        n_match <= matches@.len(),
{
    let mut n_match: usize = 0;
    let mut i: usize = 0;
    while i < matches.len()
        invariant
            i <= matches@.len(),
            n_match == count_true(matches@.take(i as int)),
            n_match <= i,
        decreases matches@.len() - i,
    {
        assert(matches@.take(i + 1).drop_last() =~= matches@.take(i as int));
        if matches[i] {
            n_match = n_match + 1;
        }
        i = i + 1;
    }
    assert(matches@.take(matches@.len() as int) =~= matches@);
    n_match
}

/// The tally counts each flag that is `true` once and each `false` flag not at
/// all: it is the sum over the flags of 1 for `true` and 0 for `false`.
pub proof fn lemma_count_true_is_sum(s: Seq<bool>)
    ensures
        count_true(s) == sum_to(|i: int| if s[i] { 1int } else { 0int }, s.len() as int),
    decreases s.len(),
{
    if s.len() > 0 {
        let rest = s.drop_last();
        lemma_count_true_is_sum(rest);
        crate::sums::lemma_sum_ext(
            |i: int| if rest[i] { 1int } else { 0int },
            |i: int| if s[i] { 1int } else { 0int },
            rest.len() as int,
        );
    }
}

} // verus!
