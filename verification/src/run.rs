//! A whole run: worker threads go through their shares of the cases, and the main thread takes in
//! their reports in whatever order they arrive.

use vstd::arithmetic::div_mod::lemma_fundamental_div_mod;
use vstd::arithmetic::div_mod::lemma_fundamental_div_mod_converse;
use vstd::arithmetic::power2::pow2;
use vstd::prelude::*;

use crate::cases::in_domain;
use crate::cases::law_cases_are_complete;
use crate::cases::law_cases_are_in_domain;
use crate::cases::Case;
use crate::plan::lemma_share_bound;
use crate::plan::lemma_tried;
use crate::plan::share;
use crate::plan::share_len;
use crate::plan::Plan;
use crate::tally::law_mark_tells_the_stretch;
use crate::tally::law_one_mark_per_stretch;
use crate::tally::lemma_advanced;
use crate::tally::lemma_after_keeps_wf;
use crate::tally::lemma_first_case_bound;
use crate::tally::lemma_marks_in_sum;
use crate::tally::lemma_start_is_wf;
use crate::tally::marks_in;
use crate::tally::Event;
use crate::tally::TallyView;
use crate::tally::MATCH_MARK;
use crate::tally::MISMATCH_MARK;
use crate::tally::PANIC_MARK;
use crate::worker::law_outcome_tells_the_evaluation;
use crate::worker::reports;
use crate::worker::spec_failure_of;
use crate::worker::Failure;
use crate::worker::Update;

verus! {

/// A case with how it failed, or `None` if it did not.
pub type Outcome = (Case, Option<Failure>);

/// Every failure has a weight of its own, every success the same one: 1 or 0.
pub struct Weights {
    pub success: bool,
    pub failure: spec_fn((Case, Failure)) -> nat,
}

impl Weights {
    /// The weight of a report.
    pub open spec fn of_update(self, update: Update) -> nat {
        (if self.success {
            update.successes as nat
        } else {
            0nat
        }) + (match update.mismatch_or_panic {
            Some(failure) => (self.failure)(failure),
            None => 0nat,
        })
    }

    /// The weight of the outcome of one case.
    pub open spec fn of_outcome(self, outcome: Outcome) -> nat {
        match outcome.1 {
            Some(failure) => (self.failure)((outcome.0, failure)),
            None => if self.success {
                1
            } else {
                0
            },
        }
    }

    /// The weight of several reports.
    pub open spec fn of_updates(self, updates: Seq<Update>) -> nat
        decreases updates.len(),
    {
        if updates.len() == 0 {
            0
        } else {
            self.of_update(updates[0]) + self.of_updates(updates.drop_first())
        }
    }

    /// The weight of several outcomes.
    pub open spec fn of_outcomes(self, outcomes: Seq<Outcome>) -> nat
        decreases outcomes.len(),
    {
        if outcomes.len() == 0 {
            0
        } else {
            self.of_outcomes(outcomes.drop_last()) + self.of_outcome(outcomes.last())
        }
    }
}

/// `f(0) + .. + f(n - 1)`.
pub open spec fn sum(n: nat, f: spec_fn(int) -> nat) -> nat
    decreases n,
{
    if n == 0 {
        0
    } else {
        sum((n - 1) as nat, f) + f(n - 1)
    }
}

/// The reports of every thread, of `num_threads` threads that share the outcomes among them.
pub open spec fn all_reports(
    batch_size: usize,
    outcomes: Seq<Outcome>,
    num_threads: nat,
) -> Seq<Seq<Update>> {
    Seq::new(
        num_threads,
        |t: int|
            reports(batch_size, Update::nothing(), share(outcomes, t as nat, num_threads)),
    )
}

/// The reports with the first one of thread `t` taken away.
pub open spec fn without_first(streams: Seq<Seq<Update>>, t: int) -> Seq<Seq<Update>> {
    streams.update(t, streams[t].drop_first())
}

/// `order` names, for every report that arrives, the thread that it comes from. The reports of one
/// thread arrive in the order in which they were sent, and all of them arrive.
pub open spec fn is_arrival_order(streams: Seq<Seq<Update>>, order: Seq<int>) -> bool
    decreases order.len(),
{
    if order.len() == 0 {
        forall|t: int| 0 <= t < streams.len() ==> (#[trigger] streams[t]).len() == 0
    } else {
        &&& 0 <= order[0] < streams.len()
        &&& streams[order[0]].len() > 0
        &&& is_arrival_order(without_first(streams, order[0]), order.drop_first())
    }
}

/// The reports in the order in which they arrive.
pub open spec fn arrivals(streams: Seq<Seq<Update>>, order: Seq<int>) -> Seq<Update>
    decreases order.len(),
{
    if order.len() == 0 {
        Seq::empty()
    } else {
        seq![streams[order[0]][0]] + arrivals(
            without_first(streams, order[0]),
            order.drop_first(),
        )
    }
}

/// The state of the main thread after several reports.
pub open spec fn after_all(s: TallyView, updates: Seq<Update>) -> TallyView
    decreases updates.len(),
{
    if updates.len() == 0 {
        s
    } else {
        after_all(s.after(updates[0]), updates.drop_first())
    }
}

/// All that is shown on several reports.
pub open spec fn all_events(s: TallyView, updates: Seq<Update>) -> Seq<Event>
    decreases updates.len(),
{
    if updates.len() == 0 {
        Seq::empty()
    } else {
        s.events(updates[0]) + all_events(s.after(updates[0]), updates.drop_first())
    }
}

/// The cases that mismatch, in order.
pub open spec fn mismatching(outcomes: Seq<Outcome>) -> Seq<Case>
    decreases outcomes.len(),
{
    if outcomes.len() == 0 {
        Seq::empty()
    } else {
        let before = mismatching(outcomes.drop_last());
        if outcomes.last().1 == Some(Failure::Mismatch) {
            before.push(outcomes.last().0)
        } else {
            before
        }
    }
}

/// The cases that panic, in order.
pub open spec fn panicking(outcomes: Seq<Outcome>) -> Seq<Case>
    decreases outcomes.len(),
{
    if outcomes.len() == 0 {
        Seq::empty()
    } else {
        let before = panicking(outcomes.drop_last());
        if outcomes.last().1 matches Some(Failure::Panic { .. }) {
            before.push(outcomes.last().0)
        } else {
            before
        }
    }
}

proof fn lemma_sum_change(n: nat, f: spec_fn(int) -> nat, g: spec_fn(int) -> nat, t: int, d: int)
    requires
        0 <= t < n,
        forall|i: int| 0 <= i < n && i != t ==> #[trigger] f(i) == g(i),
        g(t) == f(t) + d,
    ensures
        sum(n, g) == sum(n, f) + d,
    decreases n,
{
    if t == n - 1 {
        lemma_sum_same((n - 1) as nat, f, g);
    } else {
        assert(f(n - 1) == g(n - 1));
        lemma_sum_change((n - 1) as nat, f, g, t, d);
    }
}

proof fn lemma_sum_same(n: nat, f: spec_fn(int) -> nat, g: spec_fn(int) -> nat)
    requires
        forall|i: int| 0 <= i < n ==> #[trigger] f(i) == g(i),
    ensures
        sum(n, g) == sum(n, f),
    decreases n,
{
    if n > 0 {
        assert(f(n - 1) == g(n - 1));
        lemma_sum_same((n - 1) as nat, f, g);
    }
}

proof fn lemma_sum_zero(n: nat, f: spec_fn(int) -> nat)
    requires
        forall|i: int| 0 <= i < n ==> #[trigger] f(i) == 0,
    ensures
        sum(n, f) == 0,
    decreases n,
{
    if n > 0 {
        assert(f(n - 1) == 0);
        lemma_sum_zero((n - 1) as nat, f);
    }
}

/// The reports of a thread weigh as much as what it holds and goes through.
proof fn lemma_reports_weight(w: Weights, batch_size: usize, update: Update, outcomes: Seq<Outcome>)
    requires
        !update.is_due(batch_size),
    ensures
        w.of_updates(reports(batch_size, update, outcomes)) == w.of_update(update) + w.of_outcomes(
            outcomes,
        ),
    decreases outcomes.len(),
{
    let all = reports(batch_size, update, outcomes);
    if outcomes.len() == 0 {
        assert(w.of_updates(all.drop_first()) == 0);
        assert(all[0] == update);
    } else {
        let next = update.with_outcome(outcomes[0].0, outcomes[0].1);
        let rest = outcomes.drop_first();
        lemma_outcomes_weight_front(w, outcomes);
        assert(w.of_update(next) == w.of_update(update) + w.of_outcome(outcomes[0]));
        if next.is_due(batch_size) {
            lemma_reports_weight(w, batch_size, Update::nothing(), rest);
            assert(all.drop_first() =~= reports(batch_size, Update::nothing(), rest));
            assert(all[0] == next);
            assert(w.of_update(Update::nothing()) == 0);
        } else {
            lemma_reports_weight(w, batch_size, next, rest);
        }
    }
}

proof fn lemma_outcomes_weight_front(w: Weights, outcomes: Seq<Outcome>)
    requires
        outcomes.len() > 0,
    ensures
        w.of_outcomes(outcomes) == w.of_outcome(outcomes[0]) + w.of_outcomes(
            outcomes.drop_first(),
        ),
    decreases outcomes.len(),
{
    if outcomes.len() == 1 {
        assert(outcomes.drop_last() =~= outcomes.drop_first());
        assert(w.of_outcomes(outcomes.drop_first()) == 0);
    } else {
        lemma_outcomes_weight_front(w, outcomes.drop_last());
        assert(outcomes.drop_last().drop_first() =~= outcomes.drop_first().drop_last());
    }
}

/// The reports weigh the same in whatever order they arrive.
proof fn lemma_arrivals_weight(w: Weights, streams: Seq<Seq<Update>>, order: Seq<int>)
    requires
        is_arrival_order(streams, order),
    ensures
        w.of_updates(arrivals(streams, order)) == sum(
            streams.len(),
            |t: int| w.of_updates(streams[t]),
        ),
    decreases order.len(),
{
    let f = |t: int| w.of_updates(streams[t]);
    if order.len() == 0 {
        assert forall|t: int| 0 <= t < streams.len() implies #[trigger] f(t) == 0 by {
            assert(streams[t].len() == 0);
        }
        lemma_sum_zero(streams.len(), f);
    } else {
        let t0 = order[0];
        let left = without_first(streams, t0);
        let g = |t: int| w.of_updates(left[t]);
        lemma_arrivals_weight(w, left, order.drop_first());
        assert forall|t: int| 0 <= t < streams.len() && t != t0 implies #[trigger] g(t) == f(t) by {
            assert(left[t] == streams[t]);
        }
        assert(left[t0] == streams[t0].drop_first());
        assert(f(t0) == g(t0) + w.of_update(streams[t0][0]));
        lemma_sum_change(streams.len(), g, f, t0, w.of_update(streams[t0][0]) as int);
        let all = arrivals(streams, order);
        assert(all.drop_first() =~= arrivals(left, order.drop_first()));
    }
}

/// One more case makes room for one more term, in exactly one share.
proof fn lemma_share_len_push(n: nat, t: nat, num_threads: nat, k: nat)
    requires
        t < num_threads,
    ensures
        k < share_len(n + 1, t, num_threads) <==> (k < share_len(n, t, num_threads) || (k == n
            / num_threads && t == n % num_threads)),
        k == n / num_threads && t == n % num_threads ==> t + k * num_threads == n,
{
    let p = num_threads as int;
    let q = n as int / p;
    lemma_fundamental_div_mod(n as int, p);
    lemma_share_bound(n, t, num_threads, k);
    lemma_share_bound(n + 1, t, num_threads, k);
    if t + k * num_threads == n {
        assert(n == p * k + t) by (nonlinear_arith)
            requires
                n == t + k * p,
        ;
        lemma_fundamental_div_mod_converse(n as int, p, k as int, t as int);
    }
    if k == q && t == n % num_threads {
        assert(t + k * p == n) by (nonlinear_arith)
            requires
                n == p * q + t,
                k == q,
        ;
    }
}

/// One more case falls to exactly one thread.
proof fn lemma_share_push<T>(cases: Seq<T>, case: T, t: nat, num_threads: nat)
    requires
        t < num_threads,
    ensures
        share(cases.push(case), t, num_threads) == if t == cases.len() % num_threads {
            share(cases, t, num_threads).push(case)
        } else {
            share(cases, t, num_threads)
        },
{
    let n = cases.len();
    let q = n / num_threads;
    let old_len = share_len(n, t, num_threads);
    let new_len = share_len(n + 1, t, num_threads);
    let old_share = share(cases, t, num_threads);
    let new_share = share(cases.push(case), t, num_threads);
    lemma_share_len_push(n, t, num_threads, q);
    lemma_share_len_push(n, t, num_threads, old_len);
    lemma_share_len_push(n, t, num_threads, new_len);
    if new_len > 0 {
        lemma_share_len_push(n, t, num_threads, (new_len - 1) as nat);
    }
    lemma_share_bound(n, t, num_threads, q);
    assert forall|k: int| 0 <= k < old_len implies #[trigger] new_share[k] == old_share[k] by {
        lemma_share_bound(n, t, num_threads, k as nat);
        lemma_share_len_push(n, t, num_threads, k as nat);
        assert(k * num_threads >= 0) by (nonlinear_arith)
            requires
                k >= 0,
        ;
    }
    if t == n % num_threads {
        assert(new_share[q as int] == case);
        assert(new_share =~= old_share.push(case));
    } else {
        assert(new_share =~= old_share);
    }
}

/// The shares of all threads weigh as much as the whole.
proof fn lemma_shares_weight(w: Weights, outcomes: Seq<Outcome>, num_threads: nat)
    requires
        num_threads > 0,
    ensures
        sum(
            num_threads,
            |t: int| w.of_outcomes(share(outcomes, t as nat, num_threads)),
        ) == w.of_outcomes(outcomes),
    decreases outcomes.len(),
{
    let f = |t: int| w.of_outcomes(share(outcomes, t as nat, num_threads));
    if outcomes.len() == 0 {
        assert forall|t: int| 0 <= t < num_threads implies #[trigger] f(t) == 0 by {
            assert(share(outcomes, t as nat, num_threads).len() == 0);
        }
        lemma_sum_zero(num_threads, f);
    } else {
        let before = outcomes.drop_last();
        let last = outcomes.last();
        let g = |t: int| w.of_outcomes(share(before, t as nat, num_threads));
        lemma_shares_weight(w, before, num_threads);
        assert(outcomes =~= before.push(last));
        let t0 = before.len() % num_threads;
        assert forall|t: int| 0 <= t < num_threads && t != t0 implies #[trigger] g(t) == f(t) by {
            lemma_share_push(before, last, t as nat, num_threads);
        }
        lemma_share_push(before, last, t0, num_threads);
        let part = share(before, t0, num_threads);
        assert(part.push(last).drop_last() =~= part);
        assert(f(t0 as int) == g(t0 as int) + w.of_outcome(last));
        lemma_sum_change(num_threads, g, f, t0 as int, w.of_outcome(last) as int);
    }
}

/// The arriving reports weigh as much as the outcomes of all cases.
proof fn lemma_run_weight(
    w: Weights,
    batch_size: usize,
    outcomes: Seq<Outcome>,
    num_threads: nat,
    order: Seq<int>,
)
    requires
        num_threads > 0,
        batch_size > 0,
        is_arrival_order(all_reports(batch_size, outcomes, num_threads), order),
    ensures
        w.of_updates(arrivals(all_reports(batch_size, outcomes, num_threads), order))
            == w.of_outcomes(outcomes),
{
    let streams = all_reports(batch_size, outcomes, num_threads);
    lemma_arrivals_weight(w, streams, order);
    lemma_shares_weight(w, outcomes, num_threads);
    let f = |t: int| w.of_updates(streams[t]);
    let g = |t: int| w.of_outcomes(share(outcomes, t as nat, num_threads));
    assert forall|t: int| 0 <= t < num_threads implies #[trigger] f(t) == g(t) by {
        lemma_reports_weight(
            w,
            batch_size,
            Update::nothing(),
            share(outcomes, t as nat, num_threads),
        );
        assert(w.of_update(Update::nothing()) == 0);
    }
    lemma_sum_same(num_threads, f, g);
}

/// The weight by which every case counts once.
pub open spec fn every_case() -> Weights {
    Weights { success: true, failure: |f: (Case, Failure)| 1 }
}

/// The weight by which the mismatches of one case count.
pub open spec fn mismatches_of(case: Case) -> Weights {
    Weights {
        success: false,
        failure: |f: (Case, Failure)|
            if f.0 == case && f.1 == Failure::Mismatch {
                1
            } else {
                0
            },
    }
}

/// The weight by which the panics of one case count.
pub open spec fn panics_of(case: Case) -> Weights {
    Weights {
        success: false,
        failure: |f: (Case, Failure)|
            if f.0 == case && f.1 is Panic {
                1
            } else {
                0
            },
    }
}

/// The weight by which the panics without a message count.
pub open spec fn silent_panics() -> Weights {
    Weights {
        success: false,
        failure: |f: (Case, Failure)|
            if f.1 == (Failure::Panic { message: None }) {
                1
            } else {
                0
            },
    }
}

/// What the main thread knows after several reports adds up to what they hold.
pub proof fn law_tally_is_faithful(s: TallyView, updates: Seq<Update>)
    requires
        s.wf(),
        s.case_idx + every_case().of_updates(updates) <= usize::MAX,
        s.cases_per_dot > 0 || every_case().of_updates(updates) == 0,
    ensures
        ({
            let t = after_all(s, updates);
            &&& t.wf()
            &&& t.verbose == s.verbose
            &&& t.cases_per_dot == s.cases_per_dot
            &&& t.case_idx == s.case_idx + every_case().of_updates(updates)
            &&& forall|case: Case|
                #![trigger t.all_mismatches.to_multiset().count(case)]
                t.all_mismatches.to_multiset().count(case)
                    == s.all_mismatches.to_multiset().count(case) + mismatches_of(case).of_updates(
                    updates,
                )
            &&& forall|case: Case|
                #![trigger t.all_panics.to_multiset().count(case)]
                t.all_panics.to_multiset().count(case) == s.all_panics.to_multiset().count(case)
                    + panics_of(case).of_updates(updates)
            &&& t.verbose_failed_to_show_some_panics <==> (s.verbose_failed_to_show_some_panics || (
            s.verbose && silent_panics().of_updates(updates) > 0))
        }),
    decreases updates.len(),
{
    broadcast use vstd::seq_lib::group_to_multiset_ensures;

    if updates.len() > 0 {
        let update = updates[0];
        let next = s.after(update);
        assert(every_case().of_update(update) == update.count());
        lemma_after_keeps_wf(s, update);
        law_tally_is_faithful(next, updates.drop_first());
        assert forall|case: Case|
            #![trigger next.all_mismatches.to_multiset().count(case)]
            #![trigger next.all_panics.to_multiset().count(case)]
            next.all_mismatches.to_multiset().count(case)
                == s.all_mismatches.to_multiset().count(case) + mismatches_of(case).of_update(update)
                && next.all_panics.to_multiset().count(case) == s.all_panics.to_multiset().count(
                case,
            ) + panics_of(case).of_update(update) by {}
    }
}

proof fn lemma_outcomes_weights(outcomes: Seq<Outcome>)
    ensures
        every_case().of_outcomes(outcomes) == outcomes.len(),
        forall|case: Case|
            #![trigger mismatching(outcomes).to_multiset().count(case)]
            mismatching(outcomes).to_multiset().count(case) == mismatches_of(case).of_outcomes(
                outcomes,
            ),
        forall|case: Case|
            #![trigger panicking(outcomes).to_multiset().count(case)]
            panicking(outcomes).to_multiset().count(case) == panics_of(case).of_outcomes(outcomes),
        silent_panics().of_outcomes(outcomes) > 0 <==> exists|k: int|
            0 <= k < outcomes.len() && (#[trigger] outcomes[k]).1 == Some(
                Failure::Panic { message: None },
            ),
        mismatching(outcomes).len() + panicking(outcomes).len() == 0 <==> forall|k: int|
            0 <= k < outcomes.len() ==> (#[trigger] outcomes[k]).1 is None,
    decreases outcomes.len(),
{
    broadcast use vstd::seq_lib::group_to_multiset_ensures;

    if outcomes.len() > 0 {
        let before = outcomes.drop_last();
        let last = outcomes.last();
        lemma_outcomes_weights(before);
        assert(forall|k: int| 0 <= k < before.len() ==> before[k] == #[trigger] outcomes[k]);
        assert(outcomes[outcomes.len() - 1] == last);
        let silent = Some(Failure::Panic { message: None });
        if silent_panics().of_outcomes(before) > 0 {
            let k = choose|k: int| 0 <= k < before.len() && (#[trigger] before[k]).1 == silent;
            assert(outcomes[k].1 == silent);
        }
        assert forall|case: Case|
            #![trigger mismatching(outcomes).to_multiset().count(case)]
            mismatching(outcomes).to_multiset().count(case) == mismatches_of(case).of_outcomes(
                outcomes,
            ) by {
            assert(mismatching(before).to_multiset().count(case) == mismatches_of(
                case,
            ).of_outcomes(before));
        }
        assert forall|case: Case|
            #![trigger panicking(outcomes).to_multiset().count(case)]
            panicking(outcomes).to_multiset().count(case) == panics_of(case).of_outcomes(
                outcomes,
            ) by {
            assert(panicking(before).to_multiset().count(case) == panics_of(case).of_outcomes(
                before,
            ));
        }
    }
}

/// However many threads share the cases, whatever the size of their batches and in whatever order
/// their reports arrive: in the end every case has been counted once, the failures are those that
/// occurred, and the run succeeds exactly if no case fails.
pub proof fn law_run_result(
    verbose: bool,
    cases_per_dot: nat,
    batch_size: usize,
    outcomes: Seq<Outcome>,
    num_threads: nat,
    order: Seq<int>,
)
    requires
        num_threads > 0,
        batch_size > 0,
        outcomes.len() <= usize::MAX,
        cases_per_dot > 0 || outcomes.len() == 0,
        is_arrival_order(all_reports(batch_size, outcomes, num_threads), order),
    ensures
        ({
            let updates = arrivals(all_reports(batch_size, outcomes, num_threads), order);
            let end = after_all(TallyView::start(verbose, cases_per_dot), updates);
            let failures = mismatching(outcomes).len() + panicking(outcomes).len();
            &&& end.wf()
            &&& end.case_idx == outcomes.len()
            &&& end.all_mismatches.to_multiset() == mismatching(outcomes).to_multiset()
            &&& end.all_panics.to_multiset() == panicking(outcomes).to_multiset()
            &&& end.panics_were_shown() <==> (verbose && forall|k: int|
                0 <= k < outcomes.len() ==> (#[trigger] outcomes[k]).1 != Some(
                    Failure::Panic { message: None },
                ))
            &&& end.result() == (if failures == 0 {
                Ok::<(), usize>(())
            } else {
                Err::<(), usize>(failures as usize)
            })
            &&& end.result() is Ok <==> forall|k: int|
                0 <= k < outcomes.len() ==> (#[trigger] outcomes[k]).1 is None
        }),
{
    broadcast use vstd::seq_lib::group_to_multiset_ensures;

    let streams = all_reports(batch_size, outcomes, num_threads);
    let updates = arrivals(streams, order);
    let start = TallyView::start(verbose, cases_per_dot);
    let end = after_all(start, updates);
    lemma_outcomes_weights(outcomes);
    lemma_run_weight(every_case(), batch_size, outcomes, num_threads, order);
    lemma_run_weight(silent_panics(), batch_size, outcomes, num_threads, order);
    lemma_start_is_wf(verbose, cases_per_dot);
    law_tally_is_faithful(start, updates);
    assert forall|case: Case|
        #![trigger end.all_mismatches.to_multiset().count(case)]
        end.all_mismatches.to_multiset().count(case) == mismatching(outcomes).to_multiset().count(
            case,
        ) by {
        lemma_run_weight(mismatches_of(case), batch_size, outcomes, num_threads, order);
        assert(start.all_mismatches.to_multiset().count(case) == 0);
    }
    assert forall|case: Case|
        #![trigger end.all_panics.to_multiset().count(case)]
        end.all_panics.to_multiset().count(case) == panicking(outcomes).to_multiset().count(
            case,
        ) by {
        lemma_run_weight(panics_of(case), batch_size, outcomes, num_threads, order);
        assert(start.all_panics.to_multiset().count(case) == 0);
    }
    assert(end.all_mismatches.to_multiset() =~= mismatching(outcomes).to_multiset());
    assert(end.all_panics.to_multiset() =~= panicking(outcomes).to_multiset());
    assert(end.all_mismatches.len() == end.all_mismatches.to_multiset().len());
    assert(mismatching(outcomes).len() == mismatching(outcomes).to_multiset().len());
    assert(end.all_panics.len() == end.all_panics.to_multiset().len());
    assert(panicking(outcomes).len() == panicking(outcomes).to_multiset().len());
}

/// The outcomes of all cases of a plan.
pub open spec fn outcomes_of(
    plan: Plan,
    evaluate: spec_fn(Case) -> Option<Failure>,
) -> Seq<Outcome> {
    Seq::new(plan.cases().len(), |n: int| (plan.cases()[n], evaluate(plan.cases()[n])))
}

/// A run is exhaustive: it succeeds exactly if every one of its operations succeeds on all inputs
/// of its domain, whichever way its threads work.
pub proof fn law_run_is_exhaustive(
    plan: Plan,
    evaluate: spec_fn(Case) -> Option<Failure>,
    verbose: bool,
    cases_per_dot: nat,
    batch_size: usize,
    num_threads: nat,
    order: Seq<int>,
)
    requires
        plan.wf(),
        num_threads > 0,
        batch_size > 0,
        plan.cases().len() <= usize::MAX,
        cases_per_dot > 0 || plan.cases().len() == 0,
        is_arrival_order(
            all_reports(batch_size, outcomes_of(plan, evaluate), num_threads),
            order,
        ),
    ensures
        ({
            let updates = arrivals(
                all_reports(batch_size, outcomes_of(plan, evaluate), num_threads),
                order,
            );
            after_all(TallyView::start(verbose, cases_per_dot), updates).result() is Ok
                <==> forall|case: Case|
                plan.ops@.contains(case.op) && #[trigger] in_domain(
                    plan.width as nat,
                    plan.only_non_trivial_fma,
                    case,
                ) ==> evaluate(case) is None
        }),
{
    let outcomes = outcomes_of(plan, evaluate);
    let w = plan.width as nat;
    let fma = plan.only_non_trivial_fma;
    law_run_result(verbose, cases_per_dot, batch_size, outcomes, num_threads, order);
    if plan.ops@.len() == 0 {
        assert(plan.cases().len() == 0);
    } else {
        assert forall|n: int| 0 <= n < outcomes.len() implies in_domain(w, fma, outcomes[n].0)
            && plan.ops@.contains((#[trigger] outcomes[n]).0.op) by {
            law_cases_are_in_domain(w, fma, plan.ops@, n);
        }
        if forall|n: int| 0 <= n < outcomes.len() ==> (#[trigger] outcomes[n]).1 is None {
            assert forall|case: Case|
                plan.ops@.contains(case.op) && #[trigger] in_domain(
                    w,
                    fma,
                    case,
                ) implies evaluate(case) is None by {
                law_cases_are_complete(w, fma, plan.ops@, case);
                let n = choose|n: int| 0 <= n < plan.cases().len() && plan.cases()[n] == case;
                assert(outcomes[n].1 is None);
            }
        }
    }
}

/// A run is `Ok` exactly if the evaluation of every one of its operations, on all floats of its
/// width, comes out with all implementations in agreement. It makes no difference how many threads
/// work on it and in which order they report.
pub proof fn law_run_checks_every_evaluation(
    plan: Plan,
    evaluate: spec_fn(Case) -> Result<bool, Option<String>>,
    verbose: bool,
    cases_per_dot: nat,
    batch_size: usize,
    num_threads: nat,
    order: Seq<int>,
)
    requires
        plan.wf(),
        num_threads > 0,
        batch_size > 0,
        plan.cases().len() <= usize::MAX,
        cases_per_dot > 0 || plan.cases().len() == 0,
        is_arrival_order(
            all_reports(
                batch_size,
                outcomes_of(plan, |case: Case| spec_failure_of(evaluate(case))),
                num_threads,
            ),
            order,
        ),
    ensures
        ({
            let outcomes = outcomes_of(plan, |case: Case| spec_failure_of(evaluate(case)));
            let updates = arrivals(all_reports(batch_size, outcomes, num_threads), order);
            let unit = pow2(plan.width as nat);
            after_all(TallyView::start(verbose, cases_per_dot), updates).result() is Ok
                <==> forall|case: Case|
                ({
                    &&& plan.ops@.contains(case.op)
                    &&& case.a < unit
                    &&& case.b < unit
                    &&& case.c < unit
                    &&& case.op.arity == 1 ==> case.b == 0
                    &&& case.op.arity <= 2 ==> case.c == 0
                    &&& plan.only_non_trivial_fma ==> (case.op.arity == 1 ==> case.a != 0) && (
                    case.op.arity == 2 ==> case.b != 0) && (case.op.arity == 3 ==> case.c != 0)
                }) ==> #[trigger] evaluate(case) == Ok::<bool, Option<String>>(true)
        }),
{
    let failure = |case: Case| spec_failure_of(evaluate(case));
    let outcomes = outcomes_of(plan, failure);
    law_run_result(verbose, cases_per_dot, batch_size, outcomes, num_threads, order);
    let unit = pow2(plan.width as nat);
    assert forall|n: int| 0 <= n < outcomes.len() implies ((#[trigger] outcomes[n]).1 is None
        <==> evaluate(plan.cases()[n]) == Ok::<bool, Option<String>>(true)) by {
        law_outcome_tells_the_evaluation(evaluate(plan.cases()[n]), None);
    }
    let all_agree = forall|n: int| 0 <= n < outcomes.len() ==> (#[trigger] outcomes[n]).1 is None;
    if all_agree {
        assert forall|case: Case|
            ({
                &&& plan.ops@.contains(case.op)
                &&& case.a < unit
                &&& case.b < unit
                &&& case.c < unit
                &&& case.op.arity == 1 ==> case.b == 0
                &&& case.op.arity <= 2 ==> case.c == 0
                &&& plan.only_non_trivial_fma ==> (case.op.arity == 1 ==> case.a != 0) && (
                case.op.arity == 2 ==> case.b != 0) && (case.op.arity == 3 ==> case.c != 0)
            }) implies #[trigger] evaluate(case) == Ok::<bool, Option<String>>(true) by {
            lemma_tried(plan, case);
            let n = choose|n: int| 0 <= n < plan.cases().len() && plan.cases()[n] == case;
            assert(outcomes[n].1 is None);
        }
    } else {
        let n = choose|n: int| 0 <= n < outcomes.len() && (#[trigger] outcomes[n]).1 is Some;
        let case = plan.cases()[n];
        assert(plan.cases().contains(case));
        lemma_tried(plan, case);
        assert(evaluate(case) != Ok::<bool, Option<String>>(true));
    }
}

/// Over a whole run, progress is shown exactly once for every full stretch of `cases_per_dot`
/// cases.
pub proof fn law_run_progress(s: TallyView, updates: Seq<Update>)
    requires
        s.wf(),
        s.cases_per_dot > 0,
        s.case_idx + every_case().of_updates(updates) <= usize::MAX,
    ensures
        marks_in(all_events(s, updates)) == after_all(s, updates).case_idx / s.cases_per_dot
            - s.case_idx / s.cases_per_dot,
    decreases updates.len(),
{
    if updates.len() > 0 {
        let next = s.after(updates[0]);
        assert(every_case().of_update(updates[0]) == updates[0].count());
        lemma_after_keeps_wf(s, updates[0]);
        law_one_mark_per_stretch(s, updates[0]);
        law_run_progress(next, updates.drop_first());
        lemma_marks_in_sum(s.events(updates[0]), all_events(next, updates.drop_first()));
    }
}

/// The outcomes of the cases in the order in which they are counted, `None` for a success: those of
/// a report are its successes, then its failure.
pub open spec fn counted_outcomes(updates: Seq<Update>) -> Seq<Option<Failure>>
    decreases updates.len(),
{
    if updates.len() == 0 {
        Seq::empty()
    } else {
        Seq::new(updates[0].successes as nat, |i: int| None) + (
        match updates[0].mismatch_or_panic {
            Some((case, failure)) => seq![Some(failure)],
            None => Seq::empty(),
        }) + counted_outcomes(updates.drop_first())
    }
}

/// The case counted at `i` panicked.
pub open spec fn panicked_at(counted: Seq<Option<Failure>>, i: int) -> bool {
    counted[i] matches Some(Failure::Panic { .. })
}

/// The case counted at `i` mismatched.
pub open spec fn mismatched_at(counted: Seq<Option<Failure>>, i: int) -> bool {
    counted[i] == Some(Failure::Mismatch)
}

/// The mark for the `k`-th stretch of cases: that of a panic if one of its cases panicked, else that
/// of a mismatch if one mismatched, else that of a match.
pub open spec fn stretch_mark(
    counted: Seq<Option<Failure>>,
    cases_per_dot: nat,
    k: int,
) -> char {
    let first = k * cases_per_dot;
    if exists|i: int|
        first <= i < first + cases_per_dot && #[trigger] panicked_at(counted, i) {
        PANIC_MARK
    } else if exists|i: int|
        first <= i < first + cases_per_dot && #[trigger] mismatched_at(counted, i) {
        MISMATCH_MARK
    } else {
        MATCH_MARK
    }
}

/// The marks for the stretches from `from` up to `to`.
pub open spec fn stretch_marks(
    counted: Seq<Option<Failure>>,
    cases_per_dot: nat,
    from: int,
    to: int,
) -> Seq<Event> {
    Seq::new(
        (to - from) as nat,
        |j: int| Event::Dot { mark: stretch_mark(counted, cases_per_dot, from + j) },
    )
}

/// The state remembers the last panic and the last mismatch among the cases counted so far.
spec fn remembers(s: TallyView, counted: Seq<Option<Failure>>) -> bool {
    &&& s.case_idx <= counted.len()
    &&& s.last_panic_case_idx matches Some(i) ==> i < s.case_idx && panicked_at(counted, i as int)
    &&& s.last_mismatch_case_idx matches Some(i) ==> i < s.case_idx && mismatched_at(
        counted,
        i as int,
    )
    &&& forall|i: int|
        0 <= i < s.case_idx && #[trigger] panicked_at(counted, i) ==> (
        s.last_panic_case_idx matches Some(last) && i <= last)
    &&& forall|i: int|
        0 <= i < s.case_idx && #[trigger] mismatched_at(counted, i) ==> (
        s.last_mismatch_case_idx matches Some(last) && i <= last)
}

/// `t` is `s` with some successes or one failure counted.
spec fn is_step(s: TallyView, t: TallyView) -> bool {
    (exists|successes: nat| t == #[trigger] s.counted(successes)) || (exists|
        case: Case,
        failure: Failure,
    |
        t == #[trigger] s.failed(case, failure))
}

proof fn lemma_step_mark(s: TallyView, t: TallyView, counted: Seq<Option<Failure>>, j: int)
    requires
        s.wf(),
        !s.verbose,
        s.cases_per_dot > 0,
        s.case_idx < usize::MAX,
        is_step(s, t),
        remembers(t, counted),
        0 <= j < t.dots_due(),
    ensures
        t.dots()[j] == (Event::Dot {
            mark: stretch_mark(
                counted,
                s.cases_per_dot,
                s.case_idx as int / s.cases_per_dot as int + j,
            ),
        }),
{
    let per = s.cases_per_dot as int;
    let k = s.case_idx as int / per + j;
    let first = t.current_dot_first_case_idx + j * per;
    law_mark_tells_the_stretch(s, t, j);
    lemma_first_case_bound(s);
    assert(first == k * per) by (nonlinear_arith)
        requires
            first == (s.case_idx as int / per) * per + j * per,
            k == s.case_idx as int / per + j,
    ;
    assert(0 <= j * per && j * per + per <= t.dots_due() * per) by (nonlinear_arith)
        requires
            0 <= j,
            j + 1 <= t.dots_due(),
            per > 0,
    ;
    lemma_fundamental_div_mod(t.case_idx - t.current_dot_first_case_idx, per);
    assert(t.dots_due() * per == per * t.dots_due()) by (nonlinear_arith);
    assert(0 <= first && first + per <= t.case_idx);
    let panicked = exists|i: int| first <= i < first + per && #[trigger] panicked_at(counted, i);
    let mismatched = exists|i: int|
        first <= i < first + per && #[trigger] mismatched_at(counted, i);
    if panicked {
        let i = choose|i: int| first <= i < first + per && #[trigger] panicked_at(counted, i);
        assert(t.last_panic_case_idx->0 >= first);
    }
    if mismatched {
        let i = choose|i: int| first <= i < first + per && #[trigger] mismatched_at(counted, i);
        assert(t.last_mismatch_case_idx->0 >= first);
    }
}

/// One step shows the marks of the stretches that it completes.
proof fn lemma_step_marks(s: TallyView, t: TallyView, counted: Seq<Option<Failure>>)
    requires
        s.wf(),
        !s.verbose,
        s.cases_per_dot > 0,
        s.case_idx < usize::MAX,
        is_step(s, t),
        remembers(t, counted),
        t.case_idx >= s.case_idx,
    ensures
        t.dots() == stretch_marks(
            counted,
            s.cases_per_dot,
            s.case_idx as int / s.cases_per_dot as int,
            t.case_idx as int / s.cases_per_dot as int,
        ),
{
    lemma_advanced(s, (t.case_idx - s.case_idx) as nat);
    let marks = stretch_marks(
        counted,
        s.cases_per_dot,
        s.case_idx as int / s.cases_per_dot as int,
        t.case_idx as int / s.cases_per_dot as int,
    );
    assert forall|j: int| 0 <= j < t.dots_due() implies #[trigger] t.dots()[j] == marks[j] by {
        lemma_step_mark(s, t, counted, j);
    }
    assert(t.dots() =~= marks);
}

proof fn lemma_stretch_marks_join(
    counted: Seq<Option<Failure>>,
    cases_per_dot: nat,
    a: int,
    b: int,
    c: int,
)
    requires
        a <= b <= c,
    ensures
        stretch_marks(counted, cases_per_dot, a, b) + stretch_marks(counted, cases_per_dot, b, c)
            == stretch_marks(counted, cases_per_dot, a, c),
{
    assert(stretch_marks(counted, cases_per_dot, a, b) + stretch_marks(
        counted,
        cases_per_dot,
        b,
        c,
    ) =~= stretch_marks(counted, cases_per_dot, a, c));
}

/// A report shows the marks of the stretches that it completes.
proof fn lemma_update_marks(s: TallyView, update: Update, counted: Seq<Option<Failure>>)
    requires
        s.wf(),
        !s.verbose,
        s.cases_per_dot > 0,
        counted.len() <= usize::MAX,
        s.case_idx + update.count() <= counted.len(),
        remembers(s, counted),
        forall|i: int|
            s.case_idx <= i < s.case_idx + update.successes ==> (#[trigger] counted[i]) is None,
        update.mismatch_or_panic matches Some((case, failure)) ==> counted[s.case_idx
            + update.successes] == Some(failure),
    ensures
        remembers(s.after(update), counted),
        s.after(update).case_idx == s.case_idx + update.count(),
        s.events(update) == stretch_marks(
            counted,
            s.cases_per_dot,
            s.case_idx as int / s.cases_per_dot as int,
            s.after(update).case_idx as int / s.cases_per_dot as int,
        ),
{
    let per = s.cases_per_dot as int;
    let mid = s.after_successes(update.successes);
    let end = s.after(update);
    lemma_after_keeps_wf(s, update);
    let (a, b, c) = (s.case_idx as int / per, mid.case_idx as int / per, end.case_idx as int / per);
    vstd::arithmetic::div_mod::lemma_div_is_ordered(s.case_idx as int, mid.case_idx as int, per);
    vstd::arithmetic::div_mod::lemma_div_is_ordered(mid.case_idx as int, end.case_idx as int, per);
    if update.successes > 0 {
        let t = s.counted(update.successes as nat);
        assert(remembers(t, counted)) by {
            assert forall|i: int| 0 <= i < t.case_idx && #[trigger] panicked_at(counted, i) implies (
            t.last_panic_case_idx matches Some(last) && i <= last) by {
                assert(i < s.case_idx || counted[i] is None);
            }
            assert forall|i: int|
                0 <= i < t.case_idx && #[trigger] mismatched_at(counted, i) implies (
            t.last_mismatch_case_idx matches Some(last) && i <= last) by {
                assert(i < s.case_idx || counted[i] is None);
            }
        }
        lemma_step_marks(s, t, counted);
    }
    assert(remembers(mid, counted));
    match update.mismatch_or_panic {
        Some((case, failure)) => {
            let t = mid.failed(case, failure);
            assert(panicked_at(counted, mid.case_idx as int) <==> failure is Panic);
            assert(mismatched_at(counted, mid.case_idx as int) <==> failure is Mismatch);
            assert(remembers(t, counted));
            lemma_step_marks(mid, t, counted);
        },
        None => {},
    }
    lemma_stretch_marks_join(counted, s.cases_per_dot, a, b, c);
    assert(s.events(update) =~= stretch_marks(counted, s.cases_per_dot, a, b) + stretch_marks(
        counted,
        s.cases_per_dot,
        b,
        c,
    ));
}

proof fn lemma_marks_from(s: TallyView, updates: Seq<Update>, counted: Seq<Option<Failure>>)
    requires
        s.wf(),
        !s.verbose,
        s.cases_per_dot > 0,
        counted.len() <= usize::MAX,
        remembers(s, counted),
        counted.skip(s.case_idx as int) == counted_outcomes(updates),
    ensures
        all_events(s, updates) == stretch_marks(
            counted,
            s.cases_per_dot,
            s.case_idx as int / s.cases_per_dot as int,
            counted.len() as int / s.cases_per_dot as int,
        ),
    decreases updates.len(),
{
    let left = counted.skip(s.case_idx as int);
    assert(left.len() == counted.len() - s.case_idx);
    if updates.len() == 0 {
        assert(all_events(s, updates) =~= stretch_marks(
            counted,
            s.cases_per_dot,
            s.case_idx as int / s.cases_per_dot as int,
            counted.len() as int / s.cases_per_dot as int,
        ));
    } else {
        let update = updates[0];
        let next = s.after(update);
        let per = s.cases_per_dot as int;
        let later = counted_outcomes(updates.drop_first());
        assert(left.len() == update.count() + later.len());
        assert forall|i: int|
            s.case_idx <= i < s.case_idx + update.successes implies (#[trigger] counted[i]) is None by {
            assert(left[i - s.case_idx] == counted[i]);
        }
        if let Some((case, failure)) = update.mismatch_or_panic {
            assert(left[update.successes as int] == counted[s.case_idx + update.successes]);
        }
        lemma_after_keeps_wf(s, update);
        lemma_update_marks(s, update, counted);
        assert(counted.skip(next.case_idx as int) =~= later) by {
            assert forall|i: int| 0 <= i < later.len() implies counted.skip(
                next.case_idx as int,
            )[i] == later[i] by {
                assert(left[update.count() + i] == later[i]);
            }
        }
        lemma_marks_from(next, updates.drop_first(), counted);
        vstd::arithmetic::div_mod::lemma_div_is_ordered(
            s.case_idx as int,
            next.case_idx as int,
            per,
        );
        vstd::arithmetic::div_mod::lemma_div_is_ordered(
            next.case_idx as int,
            counted.len() as int,
            per,
        );
        lemma_stretch_marks_join(
            counted,
            s.cases_per_dot,
            s.case_idx as int / per,
            next.case_idx as int / per,
            counted.len() as int / per,
        );
    }
}

/// All that a quiet run shows meanwhile is one mark for each full stretch of `cases_per_dot` cases,
/// and the mark tells the worst outcome among the cases counted in that stretch.
pub proof fn law_quiet_run_marks(cases_per_dot: nat, updates: Seq<Update>)
    requires
        cases_per_dot > 0,
        counted_outcomes(updates).len() <= usize::MAX,
    ensures
        all_events(TallyView::start(false, cases_per_dot), updates) == stretch_marks(
            counted_outcomes(updates),
            cases_per_dot,
            0,
            counted_outcomes(updates).len() as int / cases_per_dot as int,
        ),
{
    let start = TallyView::start(false, cases_per_dot);
    let counted = counted_outcomes(updates);
    lemma_start_is_wf(false, cases_per_dot);
    assert(counted.skip(0) =~= counted);
    vstd::arithmetic::div_mod::lemma_basic_div(0, cases_per_dot as int);
    lemma_marks_from(start, updates, counted);
}

/// A verbose run shows every panic that is reported, with its message; if it has none, the run
/// remembers that it could not show it in full.
pub proof fn law_verbose_run_shows_panics(
    s: TallyView,
    updates: Seq<Update>,
    k: int,
    case: Case,
    message: Option<String>,
)
    requires
        s.verbose,
        0 <= k < updates.len(),
        updates[k].mismatch_or_panic == Some((case, Failure::Panic { message })),
    ensures
        all_events(s, updates).contains(Event::ShowPanic { case }),
        message matches Some(text) ==> all_events(s, updates).contains(
            Event::PanicMessage { message: text },
        ),
        message is None ==> after_all(s, updates).verbose_failed_to_show_some_panics,
    decreases updates.len(),
{
    let next = s.after(updates[0]);
    let first = s.events(updates[0]);
    let rest = all_events(next, updates.drop_first());
    let all = all_events(s, updates);
    if k == 0 {
        let announcement = s.announcement(case, Failure::Panic { message });
        let n = first.len() - s.after_successes(updates[0].successes).failed(
            case,
            Failure::Panic { message },
        ).dots().len() - announcement.len();
        assert(announcement[0] == (Event::ShowPanic { case }));
        assert(all[n] == announcement[0]);
        if let Some(text) = message {
            assert(announcement[1] == (Event::PanicMessage { message: text }));
            assert(all[n + 1] == announcement[1]);
        } else {
            lemma_not_shown_is_remembered(next, updates.drop_first());
        }
    } else {
        law_verbose_run_shows_panics(next, updates.drop_first(), k - 1, case, message);
        let shown = Event::ShowPanic { case };
        let i = choose|i: int| 0 <= i < rest.len() && rest[i] == shown;
        assert(all[first.len() + i] == shown);
        if let Some(text) = message {
            let said = Event::PanicMessage { message: text };
            let i = choose|i: int| 0 <= i < rest.len() && rest[i] == said;
            assert(all[first.len() + i] == said);
        }
    }
}

/// A verbose run shows every mismatch that is reported.
pub proof fn law_verbose_run_shows_mismatches(
    s: TallyView,
    updates: Seq<Update>,
    k: int,
    case: Case,
)
    requires
        s.verbose,
        0 <= k < updates.len(),
        updates[k].mismatch_or_panic == Some((case, Failure::Mismatch)),
    ensures
        all_events(s, updates).contains(Event::ShowMismatch { case }),
    decreases updates.len(),
{
    let next = s.after(updates[0]);
    let first = s.events(updates[0]);
    let rest = all_events(next, updates.drop_first());
    let all = all_events(s, updates);
    let shown = Event::ShowMismatch { case };
    if k == 0 {
        let announcement = s.announcement(case, Failure::Mismatch);
        let n = first.len() - s.after_successes(updates[0].successes).failed(
            case,
            Failure::Mismatch,
        ).dots().len() - announcement.len();
        assert(announcement[0] == shown);
        assert(all[n] == announcement[0]);
    } else {
        law_verbose_run_shows_mismatches(next, updates.drop_first(), k - 1, case);
        let i = choose|i: int| 0 <= i < rest.len() && rest[i] == shown;
        assert(all[first.len() + i] == shown);
    }
}

/// The case of a mismatch that is shown.
pub open spec fn shown_mismatch() -> spec_fn(Event) -> Option<Case> {
    |event: Event|
        match event {
            Event::ShowMismatch { case } => Some(case),
            _ => None,
        }
}

/// The case of a panic that is shown.
pub open spec fn shown_panic() -> spec_fn(Event) -> Option<Case> {
    |event: Event|
        match event {
            Event::ShowPanic { case } => Some(case),
            _ => None,
        }
}

/// The message of a panic that is shown.
pub open spec fn shown_message() -> spec_fn(Event) -> Option<String> {
    |event: Event|
        match event {
            Event::PanicMessage { message } => Some(message),
            _ => None,
        }
}

/// The case of a mismatch that is reported.
pub open spec fn reported_mismatch() -> spec_fn(Update) -> Option<Case> {
    |update: Update|
        match update.mismatch_or_panic {
            Some((case, Failure::Mismatch)) => Some(case),
            _ => None,
        }
}

/// The case of a panic that is reported.
pub open spec fn reported_panic() -> spec_fn(Update) -> Option<Case> {
    |update: Update|
        match update.mismatch_or_panic {
            Some((case, Failure::Panic { .. })) => Some(case),
            _ => None,
        }
}

/// The message of a panic that is reported.
pub open spec fn reported_message() -> spec_fn(Update) -> Option<String> {
    |update: Update|
        match update.mismatch_or_panic {
            Some((_, Failure::Panic { message })) => message,
            _ => None,
        }
}

proof fn lemma_filter_map_sum<A, B>(a: Seq<A>, b: Seq<A>, f: spec_fn(A) -> Option<B>)
    ensures
        (a + b).filter_map(f) == a.filter_map(f) + b.filter_map(f),
    decreases b.len(),
{
    if b.len() == 0 {
        assert(a + b =~= a);
        assert(a.filter_map(f) + b.filter_map(f) =~= a.filter_map(f));
    } else {
        assert((a + b).drop_last() =~= a + b.drop_last());
        lemma_filter_map_sum(a, b.drop_last(), f);
        assert((a + b).filter_map(f) =~= a.filter_map(f) + b.filter_map(f));
    }
}

proof fn lemma_filter_map_none<A, B>(a: Seq<A>, f: spec_fn(A) -> Option<B>)
    requires
        forall|k: int| 0 <= k < a.len() ==> f(#[trigger] a[k]) is None,
    ensures
        a.filter_map(f) == Seq::<B>::empty(),
    decreases a.len(),
{
    if a.len() > 0 {
        assert(f(a[a.len() - 1]) is None);
        assert forall|k: int| 0 <= k < a.drop_last().len() implies f(
            #[trigger] a.drop_last()[k],
        ) is None by {
            assert(f(a[k]) is None);
        }
        lemma_filter_map_none(a.drop_last(), f);
    }
}

proof fn lemma_filter_map_front<A, B>(a: Seq<A>, f: spec_fn(A) -> Option<B>)
    requires
        a.len() > 0,
    ensures
        a.filter_map(f) == (match f(a[0]) {
            Some(b) => seq![b],
            None => Seq::empty(),
        }) + a.drop_first().filter_map(f),
{
    let head = seq![a[0]];
    assert(a =~= head + a.drop_first());
    lemma_filter_map_sum(head, a.drop_first(), f);
    assert(head.drop_last() =~= Seq::<A>::empty());
    assert(head.drop_last().filter_map(f) =~= Seq::<B>::empty());
    assert(head.filter_map(f) =~= match f(a[0]) {
        Some(b) => seq![b],
        None => Seq::empty(),
    });
}

/// What a report shows of its failure in a verbose run stands alone among progress lines.
proof fn lemma_shown_of_report<B>(
    s: TallyView,
    update: Update,
    f: spec_fn(Event) -> Option<B>,
    g: spec_fn(Update) -> Option<B>,
)
    requires
        s.verbose,
        forall|event: Event| event is Progress ==> #[trigger] f(event) is None,
        update.mismatch_or_panic is None ==> g(update) is None,
        update.mismatch_or_panic matches Some((case, failure)) ==> s.announcement(
            case,
            failure,
        ).filter_map(f) == (match g(update) {
            Some(b) => seq![b],
            None => Seq::empty(),
        }),
    ensures
        s.events(update).filter_map(f) == (match g(update) {
            Some(b) => seq![b],
            None => Seq::<B>::empty(),
        }),
{
    let dots: Seq<Event> = if update.successes > 0 {
        s.counted(update.successes as nat).dots()
    } else {
        Seq::empty()
    };
    lemma_filter_map_none(dots, f);
    match update.mismatch_or_panic {
        Some((case, failure)) => {
            let announcement = s.announcement(case, failure);
            let more = s.after_successes(update.successes).failed(case, failure).dots();
            lemma_filter_map_none(more, f);
            lemma_filter_map_sum(announcement, more, f);
            lemma_filter_map_sum(dots, announcement + more, f);
            assert(s.events(update).filter_map(f) =~= announcement.filter_map(f));
        },
        None => {
            assert(s.events(update) =~= dots);
        },
    }
}

/// A verbose run shows every reported failure when it is reported: the mismatches, the panics and
/// the messages of the panics that it shows are, in order, exactly those of the reports.
pub proof fn law_verbose_run_shows_every_failure(s: TallyView, updates: Seq<Update>)
    requires
        s.verbose,
    ensures
        all_events(s, updates).filter_map(shown_mismatch()) == updates.filter_map(
            reported_mismatch(),
        ),
        all_events(s, updates).filter_map(shown_panic()) == updates.filter_map(reported_panic()),
        all_events(s, updates).filter_map(shown_message()) == updates.filter_map(
            reported_message(),
        ),
    decreases updates.len(),
{
    if updates.len() > 0 {
        let update = updates[0];
        let events = s.events(update);
        let later = all_events(s.after(update), updates.drop_first());
        law_verbose_run_shows_every_failure(s.after(update), updates.drop_first());
        if let Some((case, failure)) = update.mismatch_or_panic {
            let announcement = s.announcement(case, failure);
            lemma_filter_map_front(announcement, shown_mismatch());
            lemma_filter_map_front(announcement, shown_panic());
            lemma_filter_map_front(announcement, shown_message());
            let rest = announcement.drop_first();
            if rest.len() > 0 {
                lemma_filter_map_front(rest, shown_mismatch());
                lemma_filter_map_front(rest, shown_panic());
                lemma_filter_map_front(rest, shown_message());
                assert(rest.drop_first().len() == 0);
            }
        }
        lemma_shown_of_report(s, update, shown_mismatch(), reported_mismatch());
        lemma_shown_of_report(s, update, shown_panic(), reported_panic());
        lemma_shown_of_report(s, update, shown_message(), reported_message());
        lemma_filter_map_sum(events, later, shown_mismatch());
        lemma_filter_map_sum(events, later, shown_panic());
        lemma_filter_map_sum(events, later, shown_message());
        lemma_filter_map_front(updates, reported_mismatch());
        lemma_filter_map_front(updates, reported_panic());
        lemma_filter_map_front(updates, reported_message());
    }
}

/// The main thread keeps every reported failure, in the order of the reports.
pub proof fn law_failures_are_kept_in_order(s: TallyView, updates: Seq<Update>)
    ensures
        after_all(s, updates).all_mismatches == s.all_mismatches + updates.filter_map(
            reported_mismatch(),
        ),
        after_all(s, updates).all_panics == s.all_panics + updates.filter_map(reported_panic()),
    decreases updates.len(),
{
    if updates.len() == 0 {
        assert(s.all_mismatches + updates.filter_map(reported_mismatch()) =~= s.all_mismatches);
        assert(s.all_panics + updates.filter_map(reported_panic()) =~= s.all_panics);
    } else {
        let next = s.after(updates[0]);
        law_failures_are_kept_in_order(next, updates.drop_first());
        lemma_filter_map_front(updates, reported_mismatch());
        lemma_filter_map_front(updates, reported_panic());
        assert(after_all(s, updates).all_mismatches =~= s.all_mismatches + updates.filter_map(
            reported_mismatch(),
        ));
        assert(after_all(s, updates).all_panics =~= s.all_panics + updates.filter_map(
            reported_panic(),
        ));
    }
}

proof fn lemma_not_shown_is_remembered(s: TallyView, updates: Seq<Update>)
    requires
        s.verbose_failed_to_show_some_panics,
    ensures
        after_all(s, updates).verbose_failed_to_show_some_panics,
    decreases updates.len(),
{
    if updates.len() > 0 {
        lemma_not_shown_is_remembered(s.after(updates[0]), updates.drop_first());
    }
}

} // verus!
