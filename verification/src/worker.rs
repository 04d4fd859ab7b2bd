//! What a worker thread tells the main thread: batches of successes, and every failure at once.

use vstd::prelude::*;

use crate::cases::Case;

verus! {

/// How a case failed: the implementations disagreed, or one of them panicked. A panic carries its
/// message if that is a string.
#[derive(Debug)]
pub enum Failure {
    Mismatch,
    Panic { message: Option<String> },
}

/// What an evaluation comes to: whether all implementations agreed or, where one of them panicked,
/// the message of the panic.
pub open spec fn spec_failure_of(evaluation: Result<bool, Option<String>>) -> Option<Failure> {
    match evaluation {
        Ok(true) => None,
        Ok(false) => Some(Failure::Mismatch),
        Err(message) => Some(Failure::Panic { message }),
    }
}

/// Tells a success from the two kinds of failure.
pub fn failure_of(evaluation: Result<bool, Option<String>>) -> (failure: Option<Failure>)
    ensures
        failure == spec_failure_of(evaluation),
        failure is None <==> evaluation == Ok::<bool, Option<String>>(true),
        failure == Some(Failure::Mismatch) <==> evaluation == Ok::<bool, Option<String>>(false),
        evaluation matches Err(message) ==> failure == Some(Failure::Panic { message }),
{
    match evaluation {
        Ok(agreed) => if agreed {
            None
        } else {
            Some(Failure::Mismatch)
        },
        Err(message) => Some(Failure::Panic { message }),
    }
}

/// A case passes exactly if all implementations agreed, mismatches exactly if they did not, and
/// panics with a message exactly if its evaluation did, with the same message or lack of one.
pub proof fn law_outcome_tells_the_evaluation(
    evaluation: Result<bool, Option<String>>,
    message: Option<String>,
)
    ensures
        spec_failure_of(evaluation) is None <==> evaluation == Ok::<bool, Option<String>>(true),
        spec_failure_of(evaluation) == Some(Failure::Mismatch) <==> evaluation == Ok::<
            bool,
            Option<String>,
        >(false),
        spec_failure_of(evaluation) == Some(Failure::Panic { message }) <==> evaluation == Err::<
            bool,
            Option<String>,
        >(message),
{
}

/// A report of a worker thread: some successes and, after them, at most one failure.
#[derive(Debug)]
pub struct Update {
    pub successes: usize,
    pub mismatch_or_panic: Option<(Case, Failure)>,
}

impl Update {
    /// The report with nothing in it.
    pub open spec fn nothing() -> Update {
        Update { successes: 0, mismatch_or_panic: None }
    }

    /// This report and the outcome of one more case, `None` for a success.
    pub open spec fn with_outcome(self, case: Case, failure: Option<Failure>) -> Update {
        match failure {
            None => Update {
                successes: (self.successes + 1) as usize,
                mismatch_or_panic: self.mismatch_or_panic,
            },
            Some(f) => Update { successes: self.successes, mismatch_or_panic: Some((case, f)) },
        }
    }

    /// A report is sent as soon as it holds a full batch or a failure.
    pub open spec fn is_due(self, batch_size: usize) -> bool {
        self.successes >= batch_size || self.mismatch_or_panic is Some
    }

    /// How many cases the report covers.
    pub open spec fn count(self) -> nat {
        self.successes as nat + (if self.mismatch_or_panic is Some {
            1nat
        } else {
            0nat
        })
    }
}

impl Default for Update {
    fn default() -> (update: Update)
        ensures
            update == Update::nothing(),
            update.successes == 0,
            update.mismatch_or_panic is None,
    {
        Update { successes: 0, mismatch_or_panic: None }
    }
}

/// A worker thread's side of the reports.
pub struct Worker {
    pub successes_batch_size: usize,
    pub update: Update,
}

impl Worker {
    /// What is held back is neither a full batch nor a failure.
    pub open spec fn wf(self) -> bool {
        !self.update.is_due(self.successes_batch_size)
    }

    pub fn new(successes_batch_size: usize) -> (worker: Worker)
        requires
            successes_batch_size > 0,
        ensures
            worker.wf(),
            worker.successes_batch_size == successes_batch_size,
            worker.update == Update::nothing(),
            worker.update.successes == 0,
            worker.update.mismatch_or_panic is None,
    {
        Worker { successes_batch_size, update: Update::default() }
    }

    /// Takes note of the outcome of one case, and hands out a report if one is due.
    pub fn observe(&mut self, case: Case, failure: Option<Failure>) -> (sent: Option<Update>)
        requires
            old(self).wf(),
        ensures
            final(self).wf(),
            final(self).successes_batch_size == old(self).successes_batch_size,
            ({
                let update = old(self).update.with_outcome(case, failure);
                if update.is_due(old(self).successes_batch_size) {
                    sent == Some(update) && final(self).update == Update::nothing()
                } else {
                    sent is None && final(self).update == update
                }
            }),
            failure matches Some(f) ==> (sent matches Some(report) && report.successes
                == old(self).update.successes && report.mismatch_or_panic == Some((case, f))),
            failure is None ==> (sent is Some <==> old(self).update.successes + 1
                >= old(self).successes_batch_size),
            failure is None ==> (sent matches Some(report) ==> report.successes
                == old(self).update.successes + 1 && report.mismatch_or_panic is None),
            final(self).update.mismatch_or_panic is None,
            final(self).update.successes == (if sent is Some {
                0
            } else {
                old(self).update.successes + 1
            }),
    {
        match failure {
            None => {
                self.update.successes = self.update.successes + 1;
            },
            Some(f) => {
                self.update.mismatch_or_panic = Some((case, f));
            },
        }
        if self.update.successes >= self.successes_batch_size
            || self.update.mismatch_or_panic.is_some() {
            let mut sent: Update = Update::default();
            std::mem::swap(&mut self.update, &mut sent);
            Some(sent)
        } else {
            None
        }
    }

    /// The last report of a thread that has run out of cases.
    pub fn finish(self) -> (sent: Update)
        ensures
            sent == self.update,
    {
        self.update
    }
}

/// All reports of a worker thread that holds `update` and goes through `outcomes`, the last one
/// included.
pub open spec fn reports(
    batch_size: usize,
    update: Update,
    outcomes: Seq<(Case, Option<Failure>)>,
) -> Seq<Update>
    decreases outcomes.len(),
{
    if outcomes.len() == 0 {
        seq![update]
    } else {
        let next = update.with_outcome(outcomes[0].0, outcomes[0].1);
        if next.is_due(batch_size) {
            seq![next] + reports(batch_size, Update::nothing(), outcomes.drop_first())
        } else {
            reports(batch_size, next, outcomes.drop_first())
        }
    }
}

/// A failure goes out at once, with its case, how it failed, and the successes before it; a success
/// only adds to their number. A thread holds back fewer successes than a batch.
pub proof fn law_outcome_goes_into_the_report(
    update: Update,
    batch_size: usize,
    case: Case,
    failure: Option<Failure>,
)
    requires
        update.successes < batch_size,
        update.mismatch_or_panic is None,
    ensures
        ({
            let next = update.with_outcome(case, failure);
            &&& failure matches Some(f) ==> next.is_due(batch_size) && next.successes
                == update.successes && next.mismatch_or_panic == Some((case, f))
            &&& failure is None ==> next.successes == update.successes + 1
                && next.mismatch_or_panic is None && (next.is_due(batch_size) <==> next.successes
                >= batch_size)
        }),
        !update.is_due(batch_size),
        Update::nothing().successes == 0,
        Update::nothing().mismatch_or_panic is None,
{
}

/// The number of successes in a sequence of reports.
pub open spec fn successes_in(updates: Seq<Update>) -> nat
    decreases updates.len(),
{
    if updates.len() == 0 {
        0
    } else {
        updates[0].successes as nat + successes_in(updates.drop_first())
    }
}

/// The failures in a sequence of reports, in order.
pub open spec fn failures_in(updates: Seq<Update>) -> Seq<(Case, Failure)>
    decreases updates.len(),
{
    if updates.len() == 0 {
        Seq::empty()
    } else {
        (match updates[0].mismatch_or_panic {
            Some(failure) => seq![failure],
            None => Seq::empty(),
        }) + failures_in(updates.drop_first())
    }
}

/// The number of successful cases.
pub open spec fn success_count(outcomes: Seq<(Case, Option<Failure>)>) -> nat
    decreases outcomes.len(),
{
    if outcomes.len() == 0 {
        0
    } else {
        (if outcomes[0].1 is None {
            1nat
        } else {
            0nat
        }) + success_count(outcomes.drop_first())
    }
}

/// The failed cases, in order.
pub open spec fn failed_cases(outcomes: Seq<(Case, Option<Failure>)>) -> Seq<(Case, Failure)>
    decreases outcomes.len(),
{
    if outcomes.len() == 0 {
        Seq::empty()
    } else {
        (match outcomes[0].1 {
            Some(failure) => seq![(outcomes[0].0, failure)],
            None => Seq::empty(),
        }) + failed_cases(outcomes.drop_first())
    }
}

/// The reports of a thread neither lose nor invent anything: they add up to the successes, and
/// carry the failures in their order.
pub proof fn law_reports_are_faithful(
    batch_size: usize,
    update: Update,
    outcomes: Seq<(Case, Option<Failure>)>,
)
    requires
        !update.is_due(batch_size),
    ensures
        successes_in(reports(batch_size, update, outcomes)) == update.successes + success_count(
            outcomes,
        ),
        failures_in(reports(batch_size, update, outcomes)) == failed_cases(outcomes),
    decreases outcomes.len(),
{
    let all = reports(batch_size, update, outcomes);
    if outcomes.len() == 0 {
        assert(all.drop_first() =~= Seq::<Update>::empty());
        assert(successes_in(all.drop_first()) == 0);
        assert(failures_in(all.drop_first()) =~= Seq::empty());
        assert(all[0] == update);
        assert(failures_in(all) =~= Seq::empty());
    } else {
        let next = update.with_outcome(outcomes[0].0, outcomes[0].1);
        if next.is_due(batch_size) {
            law_reports_are_faithful(batch_size, Update::nothing(), outcomes.drop_first());
            let rest = reports(batch_size, Update::nothing(), outcomes.drop_first());
            assert(all.drop_first() =~= rest);
            assert(all[0] == next);
        } else {
            law_reports_are_faithful(batch_size, next, outcomes.drop_first());
            assert(failures_in(all) =~= failed_cases(outcomes));
        }
    }
}

/// Threads report only once in a while: every report but the last holds a full batch or a failure,
/// and none holds more successes than a batch.
pub proof fn law_reports_are_batched(
    batch_size: usize,
    update: Update,
    outcomes: Seq<(Case, Option<Failure>)>,
    k: int,
)
    requires
        !update.is_due(batch_size),
        0 <= k < reports(batch_size, update, outcomes).len(),
    ensures
        ({
            let all = reports(batch_size, update, outcomes);
            &&& all[k].successes <= batch_size
            &&& k < all.len() - 1 ==> all[k].is_due(batch_size)
        }),
    decreases outcomes.len(),
{
    if outcomes.len() > 0 {
        let next = update.with_outcome(outcomes[0].0, outcomes[0].1);
        if next.is_due(batch_size) {
            if k > 0 {
                law_reports_are_batched(
                    batch_size,
                    Update::nothing(),
                    outcomes.drop_first(),
                    k - 1,
                );
            }
        } else {
            law_reports_are_batched(batch_size, next, outcomes.drop_first(), k);
        }
    }
}

} // verus!
