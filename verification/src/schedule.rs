//! How often a run shows progress, and how many successes its threads report at once.

use vstd::arithmetic::div_mod::lemma_div_is_ordered;
use vstd::arithmetic::div_mod::lemma_fundamental_div_mod;
use vstd::arithmetic::power2::pow2;
use vstd::prelude::*;

use crate::bits::lemma_shr_is_div;

verus! {

/// One progress mark for every `2^23` cases, which take a few seconds.
pub open spec fn marks_by_rate(num_total_cases: nat) -> nat {
    num_total_cases / 0x80_0000
}

/// The fewest progress marks that a run aims for. Verbose ones are whole lines: fewer will do.
pub open spec fn fewest_dots(verbose: bool) -> nat {
    if verbose {
        10
    } else {
        40
    }
}

/// How many progress marks a run aims for.
pub open spec fn spec_num_dots(num_total_cases: nat, verbose: bool) -> nat {
    let by_rate = marks_by_rate(num_total_cases);
    let countable: nat = if by_rate <= usize::MAX {
        by_rate
    } else {
        usize::MAX as nat
    };
    if countable >= fewest_dots(verbose) {
        countable
    } else {
        fewest_dots(verbose)
    }
}

/// How many cases one progress mark stands for.
pub open spec fn spec_cases_per_dot(num_total_cases: nat, verbose: bool) -> nat {
    num_total_cases / spec_num_dots(num_total_cases, verbose)
}

/// `r` is the smallest power of two that is not below `x`.
pub open spec fn is_next_power_of_two(x: nat, r: nat) -> bool {
    &&& exists|k: nat| r == #[trigger] pow2(k)
    &&& x <= r
    &&& forall|k: nat| x <= #[trigger] pow2(k) ==> r <= pow2(k)
}

/// `usize::next_power_of_two` of the standard library: "the smallest power of two greater than or
/// equal to `self`". It overflows on numbers above the largest power of two of the type, which are
/// left out here.
pub assume_specification[ usize::next_power_of_two ](x: usize) -> (r: usize)
    requires
        x <= pow2((usize::BITS - 1) as nat),
    ensures
        is_next_power_of_two(x as nat, r as nat),
;

/// How many progress marks a run of `num_total_cases` cases aims for.
pub fn num_dots(num_total_cases: u128, verbose: bool) -> (dots: usize)
    ensures
        dots == spec_num_dots(num_total_cases as nat, verbose),
        dots > 0,
        verbose ==> dots >= 10 && (dots > 10 ==> dots * 0x80_0000 <= num_total_cases),
        !verbose ==> dots >= 40 && (dots > 40 ==> dots * 0x80_0000 <= num_total_cases),
        dots < usize::MAX ==> num_total_cases < (dots + 1) * 0x80_0000,
{
    proof {
        law_number_of_marks(num_total_cases as nat, verbose);
        lemma_shr_is_div(num_total_cases, 23);
        vstd::arithmetic::power2::lemma2_to64();
    }
    let by_rate: u128 = num_total_cases >> 23u32;
    let countable: usize = if by_rate <= usize::MAX as u128 {
        by_rate as usize
    } else {
        usize::MAX
    };
    let fewest: usize = if verbose {
        10
    } else {
        40
    };
    if countable >= fewest {
        countable
    } else {
        fewest
    }
}

/// How many cases one progress mark stands for, or `None` where a `usize` cannot hold it.
pub fn cases_per_dot(num_total_cases: u128, verbose: bool) -> (cases: Option<usize>)
    ensures
        cases is Some <==> spec_cases_per_dot(num_total_cases as nat, verbose) <= usize::MAX,
        cases matches Some(n) ==> n == spec_cases_per_dot(num_total_cases as nat, verbose),
        ({
            let dots = spec_num_dots(num_total_cases as nat, verbose);
            &&& cases matches Some(n) ==> n * dots <= num_total_cases < (n + 1) * dots
            &&& cases is None ==> num_total_cases >= (usize::MAX + 1) * dots
        }),
{
    proof {
        law_marks_share_the_cases(num_total_cases as nat, verbose, usize::MAX as nat);
    }
    let dots: usize = num_dots(num_total_cases, verbose);
    let quotient: u128 = num_total_cases / (dots as u128);
    if quotient <= usize::MAX as u128 {
        Some(quotient as usize)
    } else {
        None
    }
}

/// How many successes a thread gathers before it reports them: a thread's part of the cases of
/// one progress mark, rounded up to a power of two.
pub fn successes_batch_size(cases_per_dot: usize, num_threads: usize) -> (size: usize)
    requires
        num_threads > 0,
        cases_per_dot / num_threads <= pow2((usize::BITS - 1) as nat),
    ensures
        is_next_power_of_two((cases_per_dot / num_threads) as nat, size as nat),
        size > 0,
        exists|k: nat| size == #[trigger] pow2(k),
        cases_per_dot / num_threads <= size,
        size > 1 ==> size < 2 * (cases_per_dot / num_threads),
{
    let size: usize = (cases_per_dot / num_threads).next_power_of_two();
    proof {
        let k = choose|k: nat| size == #[trigger] pow2(k);
        vstd::arithmetic::power2::lemma_pow2_pos(k);
        vstd::arithmetic::power2::lemma2_to64();
        if k > 0 {
            vstd::arithmetic::power2::lemma_pow2_unfold(k);
            assert(cases_per_dot / num_threads > pow2((k - 1) as nat));
        }
    }
    size
}

/// How many progress marks a run aims for: at least 40, or 10 lines in a verbose run. There are
/// more only where every one of them stands for `2^23` cases, and then as many as that allows, up
/// to what a `usize` can count.
pub proof fn law_number_of_marks(num_total_cases: nat, verbose: bool)
    ensures
        ({
            let dots = spec_num_dots(num_total_cases, verbose);
            let fewest: nat = if verbose {
                10
            } else {
                40
            };
            &&& fewest <= dots <= usize::MAX
            &&& dots > fewest ==> dots * 0x80_0000 <= num_total_cases
            &&& dots < usize::MAX ==> num_total_cases < (dots + 1) * 0x80_0000
        }),
{
}

/// The progress marks share the cases evenly: no mark could stand for one case more. More cases
/// than `limit` fall to a mark exactly if there are enough of them for all marks.
pub proof fn law_marks_share_the_cases(num_total_cases: nat, verbose: bool, limit: nat)
    ensures
        ({
            let dots = spec_num_dots(num_total_cases, verbose);
            let per = spec_cases_per_dot(num_total_cases, verbose);
            &&& per * dots <= num_total_cases < (per + 1) * dots
            &&& per > limit <==> num_total_cases >= (limit + 1) * dots
        }),
{
    let total = num_total_cases as int;
    let dots = spec_num_dots(num_total_cases, verbose) as int;
    let per = spec_cases_per_dot(num_total_cases, verbose) as int;
    lemma_fundamental_div_mod(total, dots);
    assert(per * dots == dots * per) by (nonlinear_arith);
    assert((per + 1) * dots == per * dots + dots) by (nonlinear_arith);
    if per > limit {
        assert(per * dots >= (limit + 1) * dots) by (nonlinear_arith)
            requires
                per >= limit + 1,
                dots > 0,
        ;
    } else {
        assert((per + 1) * dots <= (limit + 1) * dots) by (nonlinear_arith)
            requires
                per <= limit,
                dots > 0,
        ;
    }
}

/// Progress is shown at a steady rate: one mark stands for fewer than `2^24` cases, unless there
/// are more marks than a `usize` can count.
pub proof fn law_progress_is_frequent(num_total_cases: nat, verbose: bool)
    requires
        marks_by_rate(num_total_cases) <= usize::MAX,
    ensures
        spec_cases_per_dot(num_total_cases, verbose) < 0x100_0000,
{
    let total = num_total_cases as int;
    let dots = spec_num_dots(num_total_cases, verbose) as int;
    let per = spec_cases_per_dot(num_total_cases, verbose) as int;
    lemma_fundamental_div_mod(total, dots);
    assert(total < (dots + 1) * 0x80_0000);
    if per >= 0x100_0000 {
        assert(dots * per >= dots * 0x100_0000) by (nonlinear_arith)
            requires
                per >= 0x100_0000,
                dots > 0,
        ;
    }
}

/// A run shows no fewer marks than it aims for, once one mark stands for at least one case.
pub proof fn law_enough_progress(num_total_cases: nat, verbose: bool)
    requires
        spec_cases_per_dot(num_total_cases, verbose) > 0,
    ensures
        num_total_cases / spec_cases_per_dot(num_total_cases, verbose) >= spec_num_dots(
            num_total_cases,
            verbose,
        ) >= fewest_dots(verbose),
{
    let total = num_total_cases as int;
    let dots = spec_num_dots(num_total_cases, verbose) as int;
    let per = spec_cases_per_dot(num_total_cases, verbose) as int;
    lemma_fundamental_div_mod(total, dots);
    assert(dots * per <= total);
    lemma_div_is_ordered(dots * per, total, per);
    vstd::arithmetic::div_mod::lemma_div_by_multiple(dots, per);
}

} // verus!
