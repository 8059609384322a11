//! Human-friendly comparison of names, as the human-sort crate makes it.

use crate::executor::natural::{
    digit_run_positions, digit_runs, is_maximal_run, lemma_digit_runs_are_maximal, positions_view,
    Precedence,
};
use crate::numeral::{decimal_value, parse_number};
use std::cmp::Ordering;
use vstd::prelude::*;

verus! {

/// Whether every run of digits in `s` denotes a number that fits 32 bits.
pub open spec fn readable_digit_runs(s: Seq<char>) -> bool {
    forall|k: int|
        0 <= k < digit_runs(s).len() ==> decimal_value(
            s.subrange((#[trigger] digit_runs(s)[k]).0, digit_runs(s)[k].1),
        ) <= u32::MAX
}

/// Whether every run of digits in `s` denotes a number that fits 32 bits.
pub fn has_readable_digit_runs(s: &str) -> (readable: bool)
    ensures
        readable == readable_digit_runs(s@),
{
    let positions = digit_run_positions(s);
    let mut k: usize = 0;
    proof {
        lemma_digit_runs_are_maximal(s@);
    }
    while k < positions.len()
        invariant
            k <= positions.len(),
            positions_view(positions@) == digit_runs(s@),
            forall|j: int|
                0 <= j < digit_runs(s@).len() ==> is_maximal_run(
                    s@,
                    (#[trigger] digit_runs(s@)[j]).0,
                    digit_runs(s@)[j].1,
                ),
            forall|j: int|
                0 <= j < k ==> decimal_value(
                    s@.subrange((#[trigger] digit_runs(s@)[j]).0, digit_runs(s@)[j].1),
                ) <= u32::MAX,
        decreases positions.len() - k,
    {
        let (start, end) = positions[k];
        assert(digit_runs(s@)[k as int] == (start as int, end as int));
        assert(is_maximal_run(s@, start as int, end as int));
        let run = s.substring_char(start, end);
        assert(run@[0] == s@[start as int]);
        assert forall|i: int| 0 <= i < run@.len() implies crate::numeral::is_digit(
            #[trigger] run@[i],
        ) by {
            assert(run@[i] == s@[start + i]);
        }
        if parse_number(run, u32::MAX as u64).is_none() {
            return false;
        }
        k += 1;
    }
    true
}

/// The verdict of the human-sort crate on two names.
pub uninterp spec fn human_order(a: Seq<char>, b: Seq<char>) -> Precedence;

/// `human_sort::compare`: the verdict is a function of the two names
/// alone. The crate adds up the digits of a run in 32 bits, so names with a
/// run that denotes a number beyond 32 bits are kept from it.
#[verifier::external_body]
fn human_compare(a: &str, b: &str) -> (verdict: Precedence)
    requires
        readable_digit_runs(a@),
        readable_digit_runs(b@),
    ensures
        verdict == human_order(a@, b@),
{
    match human_sort::compare(a, b) {
        Ordering::Less => Precedence::Before,
        Ordering::Equal => Precedence::Same,
        Ordering::Greater => Precedence::After,
    }
}

/// Compares two names in human-friendly order. There is no verdict where
/// one of them holds a run of digits that denotes a number beyond 32 bits.
pub fn compare_human(a: &str, b: &str) -> (verdict: Option<Precedence>)
    ensures
        verdict == if readable_digit_runs(a@) && readable_digit_runs(b@) {
            Some(human_order(a@, b@))
        } else {
            None
        },
{
    if has_readable_digit_runs(a) && has_readable_digit_runs(b) {
        Some(human_compare(a, b))
    } else {
        None
    }
}

} // verus!
