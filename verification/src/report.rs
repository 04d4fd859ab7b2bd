//! The end of a run: which failures are listed, and what the run comes to.

use vstd::prelude::*;

use crate::cases::Case;
use crate::tally::Tally;
use crate::tally::TallyView;

verus! {

/// A part of the closing report.
#[derive(Debug)]
pub enum Closing {
    /// Say how many mismatches were found, and how many of them are going to be shown.
    Mismatches { found: usize, shown: usize },
    /// Evaluate a mismatching case again, and print it with its results.
    Mismatch { case: Case },
    /// Say how many panics were found, and whether they have been shown already.
    Panics { found: usize, shown_above: bool },
    /// Evaluate a panicking case again, without the C++ implementation, and print it.
    Panic { case: Case },
    /// Say that all cases match.
    AllMatch,
}

/// Whether an earlier case has the operation of the one at `n`.
pub open spec fn has_earlier_of_op(cases: Seq<Case>, n: int) -> bool {
    exists|k: int| 0 <= k < n && (#[trigger] cases[k]).op == cases[n].op
}

/// The first case of every operation, in order.
pub open spec fn one_per_op(cases: Seq<Case>) -> Seq<Case>
    decreases cases.len(),
{
    if cases.len() == 0 {
        Seq::empty()
    } else {
        let selected = one_per_op(cases.drop_last());
        if has_earlier_of_op(cases, cases.len() - 1) {
            selected
        } else {
            selected.push(cases.last())
        }
    }
}

impl TallyView {
    /// Every panic has been shown when it was reported.
    pub open spec fn panics_were_shown(self) -> bool {
        self.verbose && !self.verbose_failed_to_show_some_panics
    }

    /// The part of the closing report on mismatches.
    pub open spec fn mismatch_report(self) -> Seq<Closing> {
        let selected = one_per_op(self.all_mismatches);
        if self.all_mismatches.len() > 0 {
            seq![
                Closing::Mismatches {
                    found: self.all_mismatches.len() as usize,
                    shown: selected.len() as usize,
                },
            ] + selected.map_values(|case: Case| Closing::Mismatch { case })
        } else {
            Seq::empty()
        }
    }

    /// The part of the closing report on panics.
    pub open spec fn panic_report(self) -> Seq<Closing> {
        if self.all_panics.len() == 0 {
            Seq::empty()
        } else {
            seq![
                Closing::Panics {
                    found: self.all_panics.len() as usize,
                    shown_above: self.panics_were_shown(),
                },
            ] + (if self.panics_were_shown() {
                Seq::empty()
            } else {
                self.all_panics.map_values(|case: Case| Closing::Panic { case })
            })
        }
    }

    /// The closing report: the mismatches, the panics or, if there are none of either, that all
    /// cases match.
    pub open spec fn closing_report(self) -> Seq<Closing> {
        self.mismatch_report() + self.panic_report() + (if self.all_mismatches.len() == 0
            && self.all_panics.len() == 0 {
            seq![Closing::AllMatch]
        } else {
            Seq::empty()
        })
    }

    /// The outcome of the run: the number of failures, if there are any.
    pub open spec fn result(self) -> Result<(), usize> {
        let failures = self.all_mismatches.len() + self.all_panics.len();
        if failures == 0 {
            Ok(())
        } else {
            Err(failures as usize)
        }
    }
}

/// The mismatches to show: of each operation, only the first.
pub fn select_mismatches(all_mismatches: &Vec<Case>) -> (selected: Vec<Case>)
    ensures
        selected@ == one_per_op(all_mismatches@),
{
    let mut selected: Vec<Case> = Vec::new();
    assert(all_mismatches@.take(0) =~= Seq::empty());
    for k in 0..all_mismatches.len()
        invariant
            selected@ == one_per_op(all_mismatches@.take(k as int)),
    {
        let ghost next = all_mismatches@.take(k + 1);
        let mut seen: bool = false;
        for j in 0..k
            invariant
                k < all_mismatches@.len(),
                next == all_mismatches@.take(k + 1),
                seen <==> exists|i: int| 0 <= i < j && (#[trigger] next[i]).op == next[k as int].op,
        {
            assert(next[j as int] == all_mismatches@[j as int]);
            seen = seen || all_mismatches[j].op == all_mismatches[k].op;
        }
        assert(next.drop_last() =~= all_mismatches@.take(k as int));
        assert(seen == has_earlier_of_op(next, k as int));
        if !seen {
            selected.push(all_mismatches[k]);
        }
    }
    assert(all_mismatches@.take(all_mismatches@.len() as int) =~= all_mismatches@);
    selected
}

impl Tally {
    /// The closing report of a run.
    pub fn closing_report(&self) -> (closing: Vec<Closing>)
        ensures
            closing@ == self@.closing_report(),
    {
        let mut closing: Vec<Closing> = Vec::new();
        let num_mismatches: usize = self.all_mismatches.len();
        let selected: Vec<Case> = select_mismatches(&self.all_mismatches);
        if num_mismatches > 0 {
            closing.push(Closing::Mismatches { found: num_mismatches, shown: selected.len() });
            for k in 0..selected.len()
                invariant
                    num_mismatches == self.all_mismatches.len(),
                    num_mismatches > 0,
                    selected@ == one_per_op(self.all_mismatches@),
                    closing@ == self@.mismatch_report().take(k + 1),
            {
                closing.push(Closing::Mismatch { case: selected[k] });
                assert(closing@ =~= self@.mismatch_report().take(k + 2));
            }
        }
        assert(closing@ =~= self@.mismatch_report());
        let shown_above: bool = self.verbose && !self.verbose_failed_to_show_some_panics;
        if self.all_panics.len() > 0 {
            closing.push(Closing::Panics { found: self.all_panics.len(), shown_above });
            if !shown_above {
                for k in 0..self.all_panics.len()
                    invariant
                        self.all_panics.len() > 0,
                        !self@.panics_were_shown(),
                        closing@ == self@.mismatch_report() + self@.panic_report().take(k + 1),
                {
                    closing.push(Closing::Panic { case: self.all_panics[k] });
                    assert(closing@ =~= self@.mismatch_report() + self@.panic_report().take(k + 2));
                }
            }
        }
        assert(closing@ =~= self@.mismatch_report() + self@.panic_report());
        if num_mismatches == 0 && self.all_panics.len() == 0 {
            closing.push(Closing::AllMatch);
        }
        assert(closing@ =~= self@.closing_report());
        closing
    }

    /// The outcome of a run: an error with the number of failures, if there are any.
    pub fn result(&self) -> (result: Result<(), usize>)
        requires
            self@.wf(),
        ensures
            result == self@.result(),
            result matches Err(failures) ==> failures > 0,
            result is Ok <==> self.all_mismatches@.len() == 0 && self.all_panics@.len() == 0,
            result matches Err(failures) ==> failures == self.all_mismatches@.len()
                + self.all_panics@.len(),
    {
        let failures: usize = self.all_mismatches.len() + self.all_panics.len();
        if failures == 0 {
            Ok(())
        } else {
            Err(failures)
        }
    }
}

/// Whether the run of any format failed.
pub fn any_mismatches(results: &Vec<Result<(), usize>>) -> (any: bool)
    ensures
        any <==> exists|k: int| 0 <= k < results@.len() && #[trigger] results@[k] is Err,
{
    let mut any: bool = false;
    for k in 0..results.len()
        invariant
            any <==> exists|j: int| 0 <= j < k && #[trigger] results@[j] is Err,
    {
        any = any || results[k].is_err();
    }
    any
}

/// Where the first case of every operation stands.
pub open spec fn first_positions(cases: Seq<Case>) -> Seq<int>
    decreases cases.len(),
{
    if cases.len() == 0 {
        Seq::empty()
    } else {
        let before = first_positions(cases.drop_last());
        if has_earlier_of_op(cases, cases.len() - 1) {
            before
        } else {
            before.push(cases.len() - 1)
        }
    }
}

/// Later cases do not change which operations came earlier.
proof fn lemma_earlier_in_prefix(cases: Seq<Case>, n: int)
    requires
        0 <= n < cases.len() - 1,
    ensures
        has_earlier_of_op(cases.drop_last(), n) == has_earlier_of_op(cases, n),
{
    let before = cases.drop_last();
    if has_earlier_of_op(cases, n) {
        let k = choose|k: int| 0 <= k < n && (#[trigger] cases[k]).op == cases[n].op;
        assert(before[k].op == before[n].op);
    }
    if has_earlier_of_op(before, n) {
        let k = choose|k: int| 0 <= k < n && (#[trigger] before[k]).op == before[n].op;
        assert(cases[k].op == cases[n].op);
    }
}

/// The mismatches to show are, in their order, those before which no other of their operation was
/// reported.
pub proof fn law_selection_is_the_first_of_each_op(cases: Seq<Case>)
    ensures
        ({
            let positions = first_positions(cases);
            &&& one_per_op(cases).len() == positions.len()
            &&& forall|k: int|
                0 <= k < positions.len() ==> 0 <= #[trigger] positions[k] < cases.len()
                    && !has_earlier_of_op(cases, positions[k]) && one_per_op(cases)[k]
                    == cases[positions[k]]
            &&& forall|k: int, l: int|
                0 <= k < l < positions.len() ==> #[trigger] positions[k] < #[trigger] positions[l]
        }),
        forall|n: int|
            0 <= n < cases.len() && !#[trigger] has_earlier_of_op(cases, n) ==> first_positions(
                cases,
            ).contains(n),
    decreases cases.len(),
{
    if cases.len() > 0 {
        let before = cases.drop_last();
        let last = cases.len() - 1;
        let positions = first_positions(cases);
        let positions_before = first_positions(before);
        law_selection_is_the_first_of_each_op(before);
        assert forall|k: int| 0 <= k < positions.len() implies 0 <= #[trigger] positions[k]
            < cases.len() && !has_earlier_of_op(cases, positions[k]) && one_per_op(cases)[k]
            == cases[positions[k]] by {
            if k < positions_before.len() {
                assert(positions[k] == positions_before[k]);
                lemma_earlier_in_prefix(cases, positions[k]);
            }
        }
        assert forall|n: int|
            0 <= n < cases.len() && !#[trigger] has_earlier_of_op(
                cases,
                n,
            ) implies positions.contains(n) by {
            if n < last {
                lemma_earlier_in_prefix(cases, n);
                assert(positions_before.contains(n));
                let k = choose|k: int| 0 <= k < positions_before.len() && positions_before[k] == n;
                assert(positions[k] == n);
            } else {
                assert(positions[positions.len() - 1] == n);
            }
        }
    }
}

/// The first case of an operation that occurs.
proof fn lemma_first_of_op(cases: Seq<Case>, n: int) -> (first: int)
    requires
        0 <= n < cases.len(),
    ensures
        0 <= first <= n,
        cases[first].op == cases[n].op,
        !has_earlier_of_op(cases, first),
    decreases n,
{
    if has_earlier_of_op(cases, n) {
        let k = choose|k: int| 0 <= k < n && (#[trigger] cases[k]).op == cases[n].op;
        lemma_first_of_op(cases, k)
    } else {
        n
    }
}

/// The mismatches to show, and no others, are the first of their operation: each is the case at its
/// position among `positions`, with none of its operation before it. The positions ascend, and
/// leave out no case that is the first of its operation.
pub proof fn law_selected_are_the_first(cases: Seq<Case>) -> (positions: Seq<int>)
    ensures
        one_per_op(cases).len() == positions.len(),
        forall|k: int|
            0 <= k < positions.len() ==> 0 <= #[trigger] positions[k] < cases.len() && one_per_op(
                cases,
            )[k] == cases[positions[k]],
        forall|k: int, m: int|
            0 <= k < positions.len() && 0 <= m < #[trigger] positions[k] ==> (
            #[trigger] cases[m]).op != cases[positions[k]].op,
        forall|k: int, l: int|
            0 <= k < l < positions.len() ==> #[trigger] positions[k] < #[trigger] positions[l],
        forall|n: int|
            0 <= n < cases.len() && !#[trigger] positions.contains(n) ==> exists|m: int|
                0 <= m < n && (#[trigger] cases[m]).op == cases[n].op,
{
    let positions = first_positions(cases);
    law_selection_is_the_first_of_each_op(cases);
    assert forall|k: int, m: int| 0 <= k < positions.len() && 0 <= m < positions[k] implies (
    #[trigger] cases[m]).op != cases[(#[trigger] positions[k])].op by {
        assert(!has_earlier_of_op(cases, positions[k]));
    }
    assert forall|n: int|
        0 <= n < cases.len() && !#[trigger] positions.contains(n) implies exists|m: int|
        0 <= m < n && (#[trigger] cases[m]).op == cases[n].op by {
        assert(has_earlier_of_op(cases, n));
    }
    positions
}

/// Every operation with a mismatch is among the mismatches to show.
pub proof fn law_selection_covers_every_op(cases: Seq<Case>, n: int)
    requires
        0 <= n < cases.len(),
    ensures
        exists|k: int|
            0 <= k < one_per_op(cases).len() && (#[trigger] one_per_op(cases)[k]).op
                == cases[n].op,
{
    let positions = first_positions(cases);
    let first = lemma_first_of_op(cases, n);
    law_selection_is_the_first_of_each_op(cases);
    assert(positions.contains(first));
    let k = choose|k: int| 0 <= k < positions.len() && positions[k] == first;
    assert(one_per_op(cases)[k] == cases[positions[k]]);
}

/// No two of the mismatches to show are of the same operation.
pub proof fn law_selection_has_one_per_op(cases: Seq<Case>, i: int, j: int)
    requires
        0 <= i < j < one_per_op(cases).len(),
    ensures
        one_per_op(cases)[i].op != one_per_op(cases)[j].op,
{
    let positions = first_positions(cases);
    law_selection_is_the_first_of_each_op(cases);
    assert(positions[i] < positions[j]);
    assert(one_per_op(cases)[i] == cases[positions[i]]);
    assert(one_per_op(cases)[j] == cases[positions[j]]);
    assert(!has_earlier_of_op(cases, positions[j]));
}

/// The closing report, part by part. If there are mismatches, it says how many there are and how
/// many of them follow, and these are the selected ones, in order. If there are panics, it says
/// how many there are; unless a verbose run has shown all of them before, every one of them
/// follows, in order. If there is neither, all it says is that all cases match.
pub proof fn law_closing_report_lists_the_failures(s: TallyView)
    ensures
        ({
            let report = s.closing_report();
            let (mismatches, panics) = (s.all_mismatches, s.all_panics);
            let selected = one_per_op(mismatches);
            let shown_above = s.verbose && !s.verbose_failed_to_show_some_panics;
            let on_mismatches = if mismatches.len() > 0 {
                1 + selected.len() as int
            } else {
                0
            };
            let on_panics = if panics.len() == 0 {
                0
            } else if shown_above {
                1
            } else {
                1 + panics.len() as int
            };
            &&& mismatches.len() == 0 && panics.len() == 0 ==> report.len() == 1 && report[0]
                == Closing::AllMatch
            &&& mismatches.len() + panics.len() > 0 ==> report.len() == on_mismatches + on_panics
            &&& mismatches.len() > 0 ==> report[0] == (Closing::Mismatches {
                found: mismatches.len() as usize,
                shown: selected.len() as usize,
            })
            &&& forall|k: int|
                mismatches.len() > 0 && 0 <= k < selected.len() ==> report[1 + k] == (
                Closing::Mismatch { case: #[trigger] selected[k] })
            &&& panics.len() > 0 ==> report[on_mismatches] == (Closing::Panics {
                found: panics.len() as usize,
                shown_above,
            })
            &&& forall|k: int|
                !shown_above && 0 <= k < panics.len() ==> report[on_mismatches + 1 + k] == (
                Closing::Panic { case: #[trigger] panics[k] })
        }),
{
}

/// What a run comes to: success exactly if nothing failed, otherwise the number of all failures.
pub proof fn law_result_counts_the_failures(s: TallyView)
    requires
        s.all_mismatches.len() + s.all_panics.len() <= usize::MAX,
    ensures
        s.result() is Ok <==> s.all_mismatches.len() == 0 && s.all_panics.len() == 0,
        s.result() matches Err(failures) ==> failures == s.all_mismatches.len()
            + s.all_panics.len(),
{
}

/// A run is reported to match throughout exactly if it succeeds.
pub proof fn law_report_agrees_with_result(s: TallyView)
    ensures
        s.closing_report().contains(Closing::AllMatch) <==> s.result() is Ok,
{
    let report = s.closing_report();
    let selected = one_per_op(s.all_mismatches);
    if s.result() is Ok {
        assert(report.last() == Closing::AllMatch);
        assert(report[report.len() - 1] == Closing::AllMatch);
    } else {
        assert forall|k: int| 0 <= k < report.len() implies #[trigger] report[k]
            != Closing::AllMatch by {
            let mismatches = s.mismatch_report();
            let panics = s.panic_report();
            if k < mismatches.len() {
                assert(report[k] == mismatches[k]);
            } else {
                assert(report[k] == panics[k - mismatches.len()]);
            }
        }
    }
}

} // verus!
