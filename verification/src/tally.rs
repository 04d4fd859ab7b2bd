//! The main thread's side of a run: it counts the reported cases, gathers the failures and decides
//! what to show.

use vstd::arithmetic::div_mod::lemma_basic_div;
use vstd::arithmetic::div_mod::lemma_fundamental_div_mod;
use vstd::arithmetic::div_mod::lemma_fundamental_div_mod_converse;
use vstd::prelude::*;

use crate::cases::Case;
use crate::worker::Failure;
use crate::worker::Update;

verus! {

/// The progress mark of a stretch of cases with a panic: a skull and crossbones.
pub const PANIC_MARK: char = '\u{1f571}';

/// The progress mark of a stretch of cases with a mismatch, but no panic: a not-equal sign.
pub const MISMATCH_MARK: char = '\u{2260}';

/// The progress mark of a stretch of cases that all match.
pub const MATCH_MARK: char = '.';

/// Something to show to the user.
#[derive(Debug)]
pub enum Event {
    /// Evaluate a mismatching case again, and print it with its results.
    ShowMismatch { case: Case },
    /// Evaluate a panicking case again, without the C++ implementation, and print it.
    ShowPanic { case: Case },
    /// Print the message of a panic.
    PanicMessage { message: String },
    /// Print a line that says how far the run has come and how many failures it has found.
    Progress { case_idx: usize, mismatches: usize, panics: usize },
    /// Print a progress mark.
    Dot { mark: char },
}

/// The state of a run as seen by the main thread.
pub struct Tally {
    pub verbose: bool,
    pub cases_per_dot: usize,
    pub case_idx: usize,
    pub current_dot_first_case_idx: usize,
    pub last_mismatch_case_idx: Option<usize>,
    pub last_panic_case_idx: Option<usize>,
    pub all_mismatches: Vec<Case>,
    pub all_panics: Vec<Case>,
    pub verbose_failed_to_show_some_panics: bool,
}

/// A `Tally` with its lists as sequences.
pub struct TallyView {
    pub verbose: bool,
    pub cases_per_dot: nat,
    pub case_idx: nat,
    pub current_dot_first_case_idx: nat,
    pub last_mismatch_case_idx: Option<usize>,
    pub last_panic_case_idx: Option<usize>,
    pub all_mismatches: Seq<Case>,
    pub all_panics: Seq<Case>,
    pub verbose_failed_to_show_some_panics: bool,
}

impl View for Tally {
    type V = TallyView;

    open spec fn view(&self) -> TallyView {
        TallyView {
            verbose: self.verbose,
            cases_per_dot: self.cases_per_dot as nat,
            case_idx: self.case_idx as nat,
            current_dot_first_case_idx: self.current_dot_first_case_idx as nat,
            last_mismatch_case_idx: self.last_mismatch_case_idx,
            last_panic_case_idx: self.last_panic_case_idx,
            all_mismatches: self.all_mismatches@,
            all_panics: self.all_panics@,
            verbose_failed_to_show_some_panics: self.verbose_failed_to_show_some_panics,
        }
    }
}

impl TallyView {
    /// The state before the first report.
    pub open spec fn start(verbose: bool, cases_per_dot: nat) -> TallyView {
        TallyView {
            verbose,
            cases_per_dot,
            case_idx: 0,
            current_dot_first_case_idx: 0,
            last_mismatch_case_idx: None,
            last_panic_case_idx: None,
            all_mismatches: Seq::empty(),
            all_panics: Seq::empty(),
            verbose_failed_to_show_some_panics: false,
        }
    }

    /// A progress mark has been shown for every full stretch of cases, and the failures are among
    /// the cases counted.
    pub open spec fn wf(self) -> bool {
        &&& self.cases_per_dot == 0 ==> self.case_idx == 0
        &&& self.current_dot_first_case_idx == if self.cases_per_dot == 0 {
            0
        } else {
            (self.case_idx / self.cases_per_dot) * self.cases_per_dot
        }
        &&& self.all_mismatches.len() + self.all_panics.len() <= self.case_idx
        &&& self.last_mismatch_case_idx is Some <==> self.all_mismatches.len() > 0
        &&& self.last_panic_case_idx is Some <==> self.all_panics.len() > 0
        &&& self.last_mismatch_case_idx matches Some(i) ==> i < self.case_idx
        &&& self.last_panic_case_idx matches Some(i) ==> i < self.case_idx
    }

    /// The state with some successful cases counted.
    pub open spec fn counted(self, successes: nat) -> TallyView {
        TallyView { case_idx: self.case_idx + successes, ..self }
    }

    /// The state with a failed case counted and noted.
    pub open spec fn failed(self, case: Case, failure: Failure) -> TallyView {
        match failure {
            Failure::Mismatch => TallyView {
                case_idx: self.case_idx + 1,
                last_mismatch_case_idx: Some(self.case_idx as usize),
                all_mismatches: self.all_mismatches.push(case),
                ..self
            },
            Failure::Panic { message } => TallyView {
                case_idx: self.case_idx + 1,
                last_panic_case_idx: Some(self.case_idx as usize),
                all_panics: self.all_panics.push(case),
                verbose_failed_to_show_some_panics: self.verbose_failed_to_show_some_panics || (
                self.verbose && message is None),
                ..self
            },
        }
    }

    /// What is shown of a failure at once: in a verbose run the case and the message of a panic,
    /// otherwise nothing.
    pub open spec fn announcement(self, case: Case, failure: Failure) -> Seq<Event> {
        if !self.verbose {
            Seq::empty()
        } else {
            match failure {
                Failure::Mismatch => seq![Event::ShowMismatch { case }],
                Failure::Panic { message: Some(message) } => seq![
                    Event::ShowPanic { case },
                    Event::PanicMessage { message },
                ],
                Failure::Panic { message: None } => seq![Event::ShowPanic { case }],
            }
        }
    }

    /// How many progress marks are due.
    pub open spec fn dots_due(self) -> nat {
        ((self.case_idx - self.current_dot_first_case_idx) as nat) / self.cases_per_dot
    }

    /// The progress mark of the stretch of cases that begins at `first`: its worst failure.
    pub open spec fn mark(self, first: nat) -> char {
        if self.last_panic_case_idx matches Some(i) && i >= first {
            PANIC_MARK
        } else if self.last_mismatch_case_idx matches Some(i) && i >= first {
            MISMATCH_MARK
        } else {
            MATCH_MARK
        }
    }

    /// What is shown for the full stretch of cases that begins at `first`.
    pub open spec fn dot(self, first: nat) -> Event {
        if self.verbose {
            Event::Progress {
                case_idx: self.case_idx as usize,
                mismatches: self.all_mismatches.len() as usize,
                panics: self.all_panics.len() as usize,
            }
        } else {
            Event::Dot { mark: self.mark(first) }
        }
    }

    /// The progress marks that are due.
    pub open spec fn dots(self) -> Seq<Event> {
        Seq::new(
            self.dots_due(),
            |j: int| self.dot((self.current_dot_first_case_idx + j * self.cases_per_dot) as nat),
        )
    }

    /// The state with the progress marks that are due shown.
    pub open spec fn advanced(self) -> TallyView {
        TallyView {
            current_dot_first_case_idx: self.current_dot_first_case_idx + self.dots_due()
                * self.cases_per_dot,
            ..self
        }
    }

    /// The state after the successes of a report.
    pub open spec fn after_successes(self, successes: usize) -> TallyView {
        if successes > 0 {
            self.counted(successes as nat).advanced()
        } else {
            self
        }
    }

    /// The state after a report.
    pub open spec fn after(self, update: Update) -> TallyView {
        let counted = self.after_successes(update.successes);
        match update.mismatch_or_panic {
            Some((case, failure)) => counted.failed(case, failure).advanced(),
            None => counted,
        }
    }

    /// What is shown on a report: the progress due to its successes, then its failure, then the
    /// progress due to that.
    pub open spec fn events(self, update: Update) -> Seq<Event> {
        let counted = self.after_successes(update.successes);
        (if update.successes > 0 {
            self.counted(update.successes as nat).dots()
        } else {
            Seq::empty()
        }) + (match update.mismatch_or_panic {
            Some((case, failure)) => self.announcement(case, failure) + counted.failed(
                case,
                failure,
            ).dots(),
            None => Seq::empty(),
        })
    }
}

impl Tally {
    pub fn new(verbose: bool, cases_per_dot: usize) -> (tally: Tally)
        ensures
            tally@ == TallyView::start(verbose, cases_per_dot as nat),
            tally@.wf(),
            tally.verbose == verbose,
            tally.cases_per_dot == cases_per_dot,
            tally.case_idx == 0,
            tally.current_dot_first_case_idx == 0,
            tally.last_mismatch_case_idx is None,
            tally.last_panic_case_idx is None,
            tally.all_mismatches@.len() == 0,
            tally.all_panics@.len() == 0,
            !tally.verbose_failed_to_show_some_panics,
    {
        proof {
            lemma_start_is_wf(verbose, cases_per_dot as nat);
        }
        Tally {
            verbose,
            cases_per_dot,
            case_idx: 0,
            current_dot_first_case_idx: 0,
            last_mismatch_case_idx: None,
            last_panic_case_idx: None,
            all_mismatches: Vec::new(),
            all_panics: Vec::new(),
            verbose_failed_to_show_some_panics: false,
        }
    }

    /// The progress mark of the current stretch of cases.
    fn current_mark(&self) -> (mark: char)
        ensures
            mark == self@.mark(self@.current_dot_first_case_idx),
    {
        if let Some(i) = self.last_panic_case_idx {
            if i >= self.current_dot_first_case_idx {
                return PANIC_MARK;
            }
        }
        if let Some(i) = self.last_mismatch_case_idx {
            if i >= self.current_dot_first_case_idx {
                return MISMATCH_MARK;
            }
        }
        MATCH_MARK
    }

    /// Shows the progress marks that are due.
    fn advance(&mut self, events: &mut Vec<Event>)
        requires
            old(self).cases_per_dot > 0,
            old(self).current_dot_first_case_idx <= old(self).case_idx,
        ensures
            final(self)@ == old(self)@.advanced(),
            final(events)@ == old(events)@ + old(self)@.dots(),
    {
        let ghost s0 = self@;
        let ghost shown = events@;
        let ghost mut k: nat = 0;
        proof {
            lemma_fundamental_div_mod(
                s0.case_idx - s0.current_dot_first_case_idx,
                s0.cases_per_dot as int,
            );
        }
        while self.case_idx - self.current_dot_first_case_idx >= self.cases_per_dot
            invariant
                s0.cases_per_dot > 0,
                s0.current_dot_first_case_idx <= s0.case_idx,
                s0.case_idx - s0.current_dot_first_case_idx == s0.cases_per_dot * s0.dots_due() + (
                s0.case_idx - s0.current_dot_first_case_idx) % s0.cases_per_dot as int,
                k <= s0.dots_due(),
                self@ == (TallyView {
                    current_dot_first_case_idx: s0.current_dot_first_case_idx + k
                        * s0.cases_per_dot,
                    ..s0
                }),
                self.current_dot_first_case_idx <= self.case_idx,
                events@ == shown + s0.dots().take(k as int),
            decreases self.case_idx - self.current_dot_first_case_idx,
        {
            proof {
                let per = s0.cases_per_dot;
                let due = s0.dots_due();
                assert(k < due) by {
                    if k >= due {
                        assert(k * per >= per * due) by (nonlinear_arith)
                            requires
                                k >= due,
                        ;
                    }
                }
                assert((k + 1) * per == k * per + per) by (nonlinear_arith);
                assert(s0.dots().take(k as int).push(s0.dots()[k as int]) =~= s0.dots().take(
                    k as int + 1,
                ));
            }
            if self.verbose {
                events.push(
                    Event::Progress {
                        case_idx: self.case_idx,
                        mismatches: self.all_mismatches.len(),
                        panics: self.all_panics.len(),
                    },
                );
            } else {
                events.push(Event::Dot { mark: self.current_mark() });
            }
            self.current_dot_first_case_idx = self.current_dot_first_case_idx + self.cases_per_dot;
            proof {
                k = k + 1;
            }
        }
        proof {
            let per = s0.cases_per_dot;
            let due = s0.dots_due();
            if k < due {
                assert(per * due >= k * per + per) by (nonlinear_arith)
                    requires
                        k + 1 <= due,
                ;
            }
            assert(s0.dots().take(k as int) =~= s0.dots());
        }
    }

    /// Whether a report can be taken in: its cases can be counted, and there is a progress mark to
    /// count them towards.
    pub open spec fn spec_can_absorb(&self, update: Update) -> bool {
        &&& self.case_idx + update.count() <= usize::MAX
        &&& self.cases_per_dot > 0 || update.count() == 0
    }

    /// Whether a report can be taken in.
    pub fn can_absorb(&self, update: &Update) -> (can: bool)
        ensures
            can == self.spec_can_absorb(*update),
            update.mismatch_or_panic is None ==> (can <==> self.case_idx + update.successes
                <= usize::MAX && (self.cases_per_dot > 0 || update.successes == 0)),
            update.mismatch_or_panic is Some ==> (can <==> self.case_idx + update.successes + 1
                <= usize::MAX && self.cases_per_dot > 0),
    {
        let room: usize = usize::MAX - self.case_idx;
        if update.mismatch_or_panic.is_some() {
            self.cases_per_dot > 0 && update.successes < room
        } else {
            (self.cases_per_dot > 0 || update.successes == 0) && update.successes <= room
        }
    }

    /// Takes in a report of a worker thread, and says what to show.
    pub fn absorb(&mut self, update: Update) -> (events: Vec<Event>)
        requires
            old(self)@.wf(),
            old(self).spec_can_absorb(update),
        ensures
            final(self)@ == old(self)@.after(update),
            final(self)@.wf(),
            events@ == old(self)@.events(update),
            final(self).verbose == old(self).verbose,
            final(self).cases_per_dot == old(self).cases_per_dot,
            update.mismatch_or_panic is None ==> final(self).case_idx == old(self).case_idx
                + update.successes && final(self).all_mismatches@ == old(self).all_mismatches@
                && final(self).all_panics@ == old(self).all_panics@,
            update.mismatch_or_panic is Some ==> final(self).case_idx == old(self).case_idx
                + update.successes + 1,
            update.mismatch_or_panic matches Some((case, Failure::Mismatch)) ==>
                final(self).all_mismatches@ == old(self).all_mismatches@.push(case)
                && final(self).all_panics@ == old(self).all_panics@,
            update.mismatch_or_panic matches Some((case, Failure::Panic { .. })) ==>
                final(self).all_panics@ == old(self).all_panics@.push(case)
                && final(self).all_mismatches@ == old(self).all_mismatches@,
    {
        let mut events: Vec<Event> = Vec::new();
        let ghost s0 = self@;
        proof {
            lemma_after_keeps_wf(s0, update);
        }
        if update.successes > 0 {
            proof {
                lemma_first_case_bound(s0);
            }
            self.case_idx = self.case_idx + update.successes;
            self.advance(&mut events);
        }
        match update.mismatch_or_panic {
            None => {},
            Some((case, failure)) => {
                let ghost s1 = self@;
                proof {
                    lemma_first_case_bound(s1);
                }
                match failure {
                    Failure::Mismatch => {
                        if self.verbose {
                            events.push(Event::ShowMismatch { case });
                        }
                        self.last_mismatch_case_idx = Some(self.case_idx);
                        self.all_mismatches.push(case);
                    },
                    Failure::Panic { message } => {
                        if self.verbose {
                            events.push(Event::ShowPanic { case });
                            match message {
                                Some(message) => {
                                    events.push(Event::PanicMessage { message });
                                },
                                None => {
                                    self.verbose_failed_to_show_some_panics = true;
                                },
                            }
                        }
                        self.last_panic_case_idx = Some(self.case_idx);
                        self.all_panics.push(case);
                    },
                }
                self.case_idx = self.case_idx + 1;
                self.advance(&mut events);
            },
        }
        assert(events@ =~= s0.events(update));
        events
    }
}

/// The state before the first report is well formed.
pub proof fn lemma_start_is_wf(verbose: bool, cases_per_dot: nat)
    ensures
        TallyView::start(verbose, cases_per_dot).wf(),
{
    if cases_per_dot > 0 {
        lemma_basic_div(0, cases_per_dot as int);
        assert(0 * cases_per_dot == 0);
    }
}

/// The current stretch begins no later than the next case.
pub proof fn lemma_first_case_bound(s: TallyView)
    requires
        s.wf(),
    ensures
        s.current_dot_first_case_idx <= s.case_idx,
{
    if s.cases_per_dot > 0 {
        lemma_fundamental_div_mod(s.case_idx as int, s.cases_per_dot as int);
        assert((s.case_idx / s.cases_per_dot) * s.cases_per_dot == s.cases_per_dot * (s.case_idx
            / s.cases_per_dot)) by (nonlinear_arith);
    }
}

/// Counting `more` cases brings the stretches up to date.
pub proof fn lemma_advanced(s: TallyView, more: nat)
    requires
        s.wf(),
        s.cases_per_dot > 0,
    ensures
        ({
            let t = s.counted(more);
            &&& t.advanced().current_dot_first_case_idx == (t.case_idx / t.cases_per_dot)
                * t.cases_per_dot
            &&& t.dots_due() == t.case_idx / t.cases_per_dot - s.case_idx / s.cases_per_dot
        }),
{
    let t = s.counted(more);
    let per = s.cases_per_dot as int;
    let full = s.case_idx as int / per;
    let rest = t.case_idx - full * per;
    lemma_first_case_bound(s);
    lemma_fundamental_div_mod(rest, per);
    let due = rest / per;
    assert(t.case_idx == per * (full + due) + rest % per) by (nonlinear_arith)
        requires
            rest == t.case_idx - full * per,
            rest == per * due + rest % per,
    ;
    lemma_fundamental_div_mod_converse(t.case_idx as int, per, full + due, rest % per);
    assert(full * per + due * per == (full + due) * per) by (nonlinear_arith);
}

proof fn lemma_after_successes_keeps_wf(s: TallyView, successes: usize)
    requires
        s.wf(),
        s.cases_per_dot > 0 || successes == 0,
    ensures
        s.after_successes(successes).wf(),
        s.after_successes(successes).case_idx == s.case_idx + successes,
{
    if successes > 0 {
        lemma_advanced(s, successes as nat);
    }
}

/// A report keeps the state well formed, and counts its cases.
pub proof fn lemma_after_keeps_wf(s: TallyView, update: Update)
    requires
        s.wf(),
        s.case_idx + update.count() <= usize::MAX,
        s.cases_per_dot > 0 || update.count() == 0,
    ensures
        s.after(update).wf(),
        s.after_successes(update.successes).wf(),
        s.after(update).case_idx == s.case_idx + update.count(),
        s.after_successes(update.successes).case_idx == s.case_idx + update.successes,
{
    lemma_after_successes_keeps_wf(s, update.successes);
    if update.mismatch_or_panic is Some {
        lemma_advanced(s.after_successes(update.successes), 1);
    }
}

/// What the main thread knows is what its fields hold.
pub proof fn law_view_of_a_tally(tally: Tally)
    ensures
        tally@.verbose == tally.verbose,
        tally@.cases_per_dot == tally.cases_per_dot,
        tally@.case_idx == tally.case_idx,
        tally@.current_dot_first_case_idx == tally.current_dot_first_case_idx,
        tally@.last_mismatch_case_idx == tally.last_mismatch_case_idx,
        tally@.last_panic_case_idx == tally.last_panic_case_idx,
        tally@.all_mismatches == tally.all_mismatches@,
        tally@.all_panics == tally.all_panics@,
        tally@.verbose_failed_to_show_some_panics == tally.verbose_failed_to_show_some_panics,
{
}

/// What a report changes: its cases are counted, its failure is put behind the earlier ones of its
/// kind and remembered by its number, and a panic that a verbose run has no message for is noted.
pub proof fn law_what_a_report_changes(s: TallyView, update: Update)
    requires
        s.wf(),
        s.case_idx + update.successes <= usize::MAX,
        update.mismatch_or_panic is Some ==> s.case_idx + update.successes < usize::MAX,
        s.cases_per_dot > 0,
    ensures
        ({
            let t = s.after(update);
            let counted = s.case_idx + update.successes;
            &&& t.verbose == s.verbose
            &&& t.cases_per_dot == s.cases_per_dot
            &&& t.current_dot_first_case_idx <= t.case_idx < t.current_dot_first_case_idx
                + t.cases_per_dot
            &&& t.current_dot_first_case_idx as int % t.cases_per_dot as int == 0
            &&& update.mismatch_or_panic is None ==> t.case_idx == counted && t.all_mismatches
                == s.all_mismatches && t.all_panics == s.all_panics && t.last_mismatch_case_idx
                == s.last_mismatch_case_idx && t.last_panic_case_idx == s.last_panic_case_idx
                && t.verbose_failed_to_show_some_panics == s.verbose_failed_to_show_some_panics
            &&& update.mismatch_or_panic matches Some((case, Failure::Mismatch)) ==> t.case_idx
                == counted + 1 && t.all_mismatches == s.all_mismatches.push(case) && t.all_panics
                == s.all_panics && t.last_mismatch_case_idx == Some(counted as usize)
                && t.last_panic_case_idx == s.last_panic_case_idx
                && t.verbose_failed_to_show_some_panics == s.verbose_failed_to_show_some_panics
            &&& update.mismatch_or_panic matches Some((case, Failure::Panic { message }))
                ==> t.case_idx == counted + 1 && t.all_mismatches == s.all_mismatches
                && t.all_panics == s.all_panics.push(case) && t.last_mismatch_case_idx
                == s.last_mismatch_case_idx && t.last_panic_case_idx == Some(counted as usize)
                && t.verbose_failed_to_show_some_panics == (s.verbose_failed_to_show_some_panics
                || (s.verbose && message is None))
        }),
{
    let t = s.after(update);
    let per = s.cases_per_dot as int;
    lemma_after_keeps_wf(s, update);
    lemma_fundamental_div_mod(t.case_idx as int, per);
    let full = t.case_idx as int / per;
    assert(full * per == per * full) by (nonlinear_arith);
    lemma_fundamental_div_mod_converse(full * per, per, full, 0);
}

/// What a verbose run shows on a report: a progress line for each stretch that the successes
/// complete, then the failure with its case and the message of a panic, if it has one, then a
/// progress line if the failure completes a stretch. A line tells the cases and failures counted
/// by then.
pub proof fn law_what_a_verbose_run_shows(s: TallyView, update: Update)
    requires
        s.wf(),
        s.verbose,
        s.case_idx + update.successes <= usize::MAX,
        update.mismatch_or_panic is Some ==> s.case_idx + update.successes < usize::MAX,
        s.cases_per_dot > 0,
    ensures
        ({
            let events = s.events(update);
            let per = s.cases_per_dot as int;
            let counted = s.case_idx + update.successes;
            let first = counted / per - s.case_idx as int / per;
            let last = (counted + 1) / per - counted / per;
            &&& forall|j: int|
                0 <= j < first ==> #[trigger] events[j] == (Event::Progress {
                    case_idx: counted as usize,
                    mismatches: s.all_mismatches.len() as usize,
                    panics: s.all_panics.len() as usize,
                })
            &&& update.mismatch_or_panic is None ==> events.len() == first
            &&& update.mismatch_or_panic matches Some((case, Failure::Mismatch)) ==> {
                &&& events.len() == first + 1 + last
                &&& events[first] == (Event::ShowMismatch { case })
                &&& last > 0 ==> events[first + 1] == (Event::Progress {
                    case_idx: (counted + 1) as usize,
                    mismatches: (s.all_mismatches.len() + 1) as usize,
                    panics: s.all_panics.len() as usize,
                })
            }
            &&& update.mismatch_or_panic matches Some((case, Failure::Panic { message })) ==> {
                let told = if message is Some {
                    2int
                } else {
                    1int
                };
                &&& events.len() == first + told + last
                &&& events[first] == (Event::ShowPanic { case })
                &&& message matches Some(text) ==> events[first + 1] == (Event::PanicMessage {
                    message: text,
                })
                &&& last > 0 ==> events[first + told] == (Event::Progress {
                    case_idx: (counted + 1) as usize,
                    mismatches: s.all_mismatches.len() as usize,
                    panics: (s.all_panics.len() + 1) as usize,
                })
            }
        }),
{
    lemma_after_keeps_wf(s, update);
    if update.successes > 0 {
        lemma_advanced(s, update.successes as nat);
    }
    lemma_advanced(s.after_successes(update.successes), 1);
}

/// A report without anything in it changes and shows nothing.
pub proof fn law_empty_reports_are_ignored(s: TallyView)
    ensures
        s.after(Update { successes: 0, mismatch_or_panic: None }) == s,
        s.events(Update { successes: 0, mismatch_or_panic: None }).len() == 0,
{
}

/// How many of the events show progress.
pub open spec fn marks_in(events: Seq<Event>) -> nat
    decreases events.len(),
{
    if events.len() == 0 {
        0
    } else {
        marks_in(events.drop_last()) + (if events.last() is Progress || events.last() is Dot {
            1nat
        } else {
            0nat
        })
    }
}

/// The marks of two sequences of events add up.
pub proof fn lemma_marks_in_sum(a: Seq<Event>, b: Seq<Event>)
    ensures
        marks_in(a + b) == marks_in(a) + marks_in(b),
    decreases b.len(),
{
    if b.len() == 0 {
        assert(a + b =~= a);
    } else {
        assert((a + b).drop_last() =~= a + b.drop_last());
        lemma_marks_in_sum(a, b.drop_last());
    }
}

proof fn lemma_marks_in_all(events: Seq<Event>)
    requires
        forall|k: int|
            0 <= k < events.len() ==> (#[trigger] events[k] is Progress || events[k] is Dot),
    ensures
        marks_in(events) == events.len(),
    decreases events.len(),
{
    if events.len() > 0 {
        lemma_marks_in_all(events.drop_last());
    }
}

proof fn lemma_marks_in_none(events: Seq<Event>)
    requires
        forall|k: int|
            0 <= k < events.len() ==> !(#[trigger] events[k] is Progress || events[k] is Dot),
    ensures
        marks_in(events) == 0,
    decreases events.len(),
{
    if events.len() > 0 {
        lemma_marks_in_none(events.drop_last());
    }
}

/// Progress is shown exactly once for every full stretch of `cases_per_dot` cases.
pub proof fn law_one_mark_per_stretch(s: TallyView, update: Update)
    requires
        s.wf(),
        s.cases_per_dot > 0,
        s.case_idx + update.count() <= usize::MAX,
    ensures
        s.after(update).case_idx == s.case_idx + update.count(),
        marks_in(s.events(update)) == s.after(update).case_idx / s.cases_per_dot - s.case_idx
            / s.cases_per_dot,
{
    lemma_after_keeps_wf(s, update);
    let counted = s.after_successes(update.successes);
    let first: Seq<Event> = if update.successes > 0 {
        s.counted(update.successes as nat).dots()
    } else {
        Seq::empty()
    };
    if update.successes > 0 {
        lemma_advanced(s, update.successes as nat);
    }
    lemma_marks_in_all(first);
    match update.mismatch_or_panic {
        Some((case, failure)) => {
            let announcement = s.announcement(case, failure);
            let dots = counted.failed(case, failure).dots();
            lemma_advanced(counted, 1);
            lemma_marks_in_none(announcement);
            lemma_marks_in_all(dots);
            lemma_marks_in_sum(announcement, dots);
            lemma_marks_in_sum(first, announcement + dots);
        },
        None => {
            lemma_marks_in_sum(first, Seq::empty());
        },
    }
}

/// The mark of a stretch of cases tells what happened in that very stretch: it is the mark of a
/// panic exactly if the last panic lies there, otherwise that of a mismatch exactly if the last
/// mismatch does. Here `t` is `s` with some successes or one failure counted.
pub proof fn law_mark_tells_the_stretch(s: TallyView, t: TallyView, j: int)
    requires
        s.wf(),
        s.cases_per_dot > 0,
        s.case_idx < usize::MAX,
        (exists|successes: nat| t == #[trigger] s.counted(successes)) || (exists|
            case: Case,
            failure: Failure,
        |
            t == #[trigger] s.failed(case, failure)),
        0 <= j < t.dots_due(),
    ensures
        ({
            let first = (t.current_dot_first_case_idx + j * t.cases_per_dot) as nat;
            let panicked = t.last_panic_case_idx matches Some(i) && first <= i < first
                + t.cases_per_dot;
            let mismatched = t.last_mismatch_case_idx matches Some(i) && first <= i < first
                + t.cases_per_dot;
            t.mark(first) == if panicked {
                PANIC_MARK
            } else if mismatched {
                MISMATCH_MARK
            } else {
                MATCH_MARK
            }
        }),
{
    let per = s.cases_per_dot as int;
    lemma_fundamental_div_mod(s.case_idx as int, per);
    assert((s.case_idx as int / per) * per == per * (s.case_idx as int / per)) by (nonlinear_arith);
    assert(s.case_idx < s.current_dot_first_case_idx + per);
    if j > 0 {
        assert(j * per >= per) by (nonlinear_arith)
            requires
                j >= 1,
                per > 0,
        ;
    } else {
        assert(0 * per == 0);
    }
}

} // verus!
