use apfloat_fuzz::cases::{Case, Op};
use apfloat_fuzz::plan::Plan;
use apfloat_fuzz::report::{any_mismatches, select_mismatches, Closing};
use apfloat_fuzz::schedule::{cases_per_dot, num_dots, successes_batch_size};
use apfloat_fuzz::tally::{Event, Tally, MATCH_MARK, MISMATCH_MARK, PANIC_MARK};
use apfloat_fuzz::worker::{failure_of, Failure, Update, Worker};

const NEG: Op = Op { code: 0, arity: 1 };
const ADD: Op = Op { code: 1, arity: 2 };

fn case(op: Op, a: u128) -> Case {
    Case { op, a, b: 0, c: 0 }
}

fn successes(successes: usize) -> Update {
    Update { successes, mismatch_or_panic: None }
}

fn mismatch(successes: usize, case: Case) -> Update {
    Update { successes, mismatch_or_panic: Some((case, Failure::Mismatch)) }
}

fn panic_with(successes: usize, case: Case, message: Option<&str>) -> Update {
    let message = message.map(|text| text.to_string());
    Update { successes, mismatch_or_panic: Some((case, Failure::Panic { message })) }
}

fn marks(events: &[Event]) -> String {
    events
        .iter()
        .map(|event| match event {
            Event::Dot { mark } => *mark,
            other => panic!("not a progress mark: {other:?}"),
        })
        .collect()
}

#[test]
fn number_of_dots() {
    assert_eq!(num_dots(0, false), 40);
    assert_eq!(num_dots(0, true), 10);
    assert_eq!(num_dots(11 << 23, true), 11);
    assert_eq!(num_dots(11 << 23, false), 40);
    assert_eq!(num_dots((41 << 23) - 1, false), 40);
    assert_eq!(num_dots(41 << 23, false), 41);
    assert_eq!(num_dots(u128::MAX, false), usize::MAX);
}

#[test]
fn cases_of_a_dot() {
    assert_eq!(cases_per_dot(0, false), Some(0));
    assert_eq!(cases_per_dot(39, false), Some(0));
    assert_eq!(cases_per_dot(400, false), Some(10));
    assert_eq!(cases_per_dot(400, true), Some(40));
    assert_eq!(cases_per_dot(0x100_0000, false), Some(0x100_0000 / 40));
    assert_eq!(cases_per_dot(1 << 40, false), Some(1 << 23));
    assert_eq!(cases_per_dot(u128::MAX, false), None);
}

#[test]
fn progress_is_frequent() {
    for shift in 0..80 {
        assert!(cases_per_dot(1 << shift, false).unwrap() < 1 << 24);
        assert!(cases_per_dot((1 << shift) - 1, true).unwrap() < 1 << 24);
    }
}

#[test]
fn batches_are_powers_of_two() {
    assert_eq!(successes_batch_size(0, 8), 1);
    assert_eq!(successes_batch_size(8, 8), 1);
    assert_eq!(successes_batch_size(1000, 8), 128);
    assert_eq!(successes_batch_size(1024, 8), 128);
    assert_eq!(successes_batch_size(1032, 8), 256);
    assert_eq!(successes_batch_size(7, 1), 8);
}

#[test]
fn kinds_of_failure() {
    assert!(failure_of(Ok(true)).is_none());
    assert!(matches!(failure_of(Ok(false)), Some(Failure::Mismatch)));
    assert!(matches!(failure_of(Err(None)), Some(Failure::Panic { message: None })));
    match failure_of(Err(Some("overflow".to_string()))) {
        Some(Failure::Panic { message: Some(message) }) => assert_eq!(message, "overflow"),
        other => panic!("{other:?}"),
    }
}

#[test]
fn workers_report_full_batches() {
    let mut worker = Worker::new(3);
    assert!(worker.observe(case(NEG, 0), None).is_none());
    assert!(worker.observe(case(NEG, 1), None).is_none());
    let sent = worker.observe(case(NEG, 2), None).unwrap();
    assert_eq!(sent.successes, 3);
    assert!(sent.mismatch_or_panic.is_none());
    assert!(worker.observe(case(NEG, 3), None).is_none());
    let last = worker.finish();
    assert_eq!(last.successes, 1);
    assert!(last.mismatch_or_panic.is_none());
}

#[test]
fn workers_report_failures_at_once() {
    let mut worker = Worker::new(100);
    assert!(worker.observe(case(NEG, 0), None).is_none());
    let sent = worker.observe(case(NEG, 1), Some(Failure::Mismatch)).unwrap();
    assert_eq!(sent.successes, 1);
    assert!(matches!(sent.mismatch_or_panic, Some((c, Failure::Mismatch)) if c == case(NEG, 1)));
    let sent = worker.observe(case(NEG, 2), Some(Failure::Panic { message: None })).unwrap();
    assert_eq!(sent.successes, 0);
    assert!(matches!(sent.mismatch_or_panic, Some((c, Failure::Panic { .. })) if c == case(NEG, 2)));
    let last = worker.finish();
    assert_eq!(last.successes, 0);
    assert!(last.mismatch_or_panic.is_none());
}

#[test]
fn dots_tell_the_worst_of_their_stretch() {
    let mut tally = Tally::new(false, 4);
    assert!(tally.absorb(successes(3)).is_empty());
    assert_eq!(marks(&tally.absorb(successes(6))), "..");
    assert_eq!(tally.case_idx, 9);
    // The mismatch is the second case of the third stretch.
    assert!(tally.absorb(mismatch(0, case(NEG, 1))).is_empty());
    assert_eq!(marks(&tally.absorb(successes(2))), "\u{2260}");
    // A panic outweighs a mismatch; both are in the fourth stretch.
    assert!(tally.absorb(panic_with(0, case(NEG, 2), None)).is_empty());
    assert!(tally.absorb(mismatch(0, case(NEG, 3))).is_empty());
    assert_eq!(marks(&tally.absorb(successes(7))), "\u{1f571}.");
    assert_eq!(tally.case_idx, 21);
    assert_eq!((MATCH_MARK, MISMATCH_MARK, PANIC_MARK), ('.', '≠', '🕱'));
}

#[test]
fn a_failure_can_complete_a_stretch() {
    let mut tally = Tally::new(false, 2);
    assert_eq!(marks(&tally.absorb(mismatch(3, case(NEG, 0)))), ".\u{2260}");
}

#[test]
fn quiet_runs_only_show_dots() {
    let mut tally = Tally::new(false, 100);
    assert!(tally.absorb(mismatch(1, case(NEG, 0))).is_empty());
    assert!(tally.absorb(panic_with(1, case(NEG, 1), Some("boom"))).is_empty());
    assert!(!tally.verbose_failed_to_show_some_panics);
    assert_eq!(tally.last_mismatch_case_idx, Some(1));
    assert_eq!(tally.last_panic_case_idx, Some(3));
}

#[test]
fn verbose_runs_show_failures_and_lines() {
    let mut tally = Tally::new(true, 2);
    let events = tally.absorb(mismatch(3, case(NEG, 0)));
    assert_eq!(events.len(), 3);
    assert!(matches!(events[0], Event::Progress { case_idx: 3, mismatches: 0, panics: 0 }));
    assert!(matches!(events[1], Event::ShowMismatch { case: c } if c == case(NEG, 0)));
    assert!(matches!(events[2], Event::Progress { case_idx: 4, mismatches: 1, panics: 0 }));
    let events = tally.absorb(panic_with(0, case(NEG, 1), Some("boom")));
    assert_eq!(events.len(), 2);
    assert!(matches!(events[0], Event::ShowPanic { case: c } if c == case(NEG, 1)));
    assert!(matches!(&events[1], Event::PanicMessage { message } if message == "boom"));
    assert!(!tally.verbose_failed_to_show_some_panics);
    let events = tally.absorb(panic_with(0, case(NEG, 2), None));
    assert_eq!(events.len(), 2);
    assert!(matches!(events[0], Event::ShowPanic { case: c } if c == case(NEG, 2)));
    assert!(matches!(events[1], Event::Progress { case_idx: 6, mismatches: 1, panics: 2 }));
    assert!(tally.verbose_failed_to_show_some_panics);
}

#[test]
fn empty_reports_change_nothing() {
    let mut tally = Tally::new(false, 0);
    assert!(tally.can_absorb(&successes(0)));
    assert!(tally.absorb(successes(0)).is_empty());
    assert_eq!(tally.case_idx, 0);
    assert!(!tally.can_absorb(&successes(1)));
    assert!(!tally.can_absorb(&mismatch(0, case(NEG, 0))));
}

#[test]
fn counters_do_not_overflow() {
    let mut tally = Tally::new(false, usize::MAX);
    tally.absorb(successes(usize::MAX - 2));
    assert!(tally.can_absorb(&successes(2)));
    assert!(!tally.can_absorb(&successes(3)));
    assert!(tally.can_absorb(&mismatch(1, case(NEG, 0))));
    assert!(!tally.can_absorb(&mismatch(2, case(NEG, 0))));
}

#[test]
fn one_mismatch_per_operation() {
    assert!(select_mismatches(&vec![]).is_empty());
    let found = vec![case(NEG, 1), case(NEG, 2), case(ADD, 3), case(ADD, 4), case(NEG, 5)];
    assert_eq!(select_mismatches(&found), vec![case(NEG, 1), case(ADD, 3)]);
    let grouped = vec![case(NEG, 1), case(NEG, 2), case(ADD, 3)];
    assert_eq!(select_mismatches(&grouped), vec![case(NEG, 1), case(ADD, 3)]);
}

#[test]
fn report_of_a_clean_run() {
    let mut tally = Tally::new(false, 10);
    tally.absorb(successes(5));
    let closing = tally.closing_report();
    assert_eq!(closing.len(), 1);
    assert!(matches!(closing[0], Closing::AllMatch));
    assert_eq!(tally.result(), Ok(()));
}

#[test]
fn report_of_failures() {
    let mut tally = Tally::new(false, 10);
    tally.absorb(mismatch(0, case(NEG, 1)));
    tally.absorb(mismatch(0, case(NEG, 2)));
    tally.absorb(panic_with(0, case(ADD, 3), Some("boom")));
    let closing = tally.closing_report();
    assert_eq!(closing.len(), 4);
    assert!(matches!(closing[0], Closing::Mismatches { found: 2, shown: 1 }));
    assert!(matches!(closing[1], Closing::Mismatch { case: c } if c == case(NEG, 1)));
    assert!(matches!(closing[2], Closing::Panics { found: 1, shown_above: false }));
    assert!(matches!(closing[3], Closing::Panic { case: c } if c == case(ADD, 3)));
    assert_eq!(tally.result(), Err(3));
}

#[test]
fn report_of_interleaved_mismatches() {
    let mut tally = Tally::new(false, 10);
    tally.absorb(mismatch(0, case(NEG, 1)));
    tally.absorb(mismatch(0, case(ADD, 2)));
    tally.absorb(mismatch(0, case(NEG, 3)));
    let closing = tally.closing_report();
    assert_eq!(closing.len(), 3);
    assert!(matches!(closing[0], Closing::Mismatches { found: 3, shown: 2 }));
    assert!(matches!(closing[1], Closing::Mismatch { case: c } if c == case(NEG, 1)));
    assert!(matches!(closing[2], Closing::Mismatch { case: c } if c == case(ADD, 2)));
    assert_eq!(tally.result(), Err(3));
}

#[test]
fn panics_are_not_shown_twice() {
    let mut tally = Tally::new(true, 10);
    tally.absorb(panic_with(0, case(ADD, 3), Some("boom")));
    let closing = tally.closing_report();
    assert_eq!(closing.len(), 1);
    assert!(matches!(closing[0], Closing::Panics { found: 1, shown_above: true }));
    // One that could not be shown has all of them listed.
    tally.absorb(panic_with(0, case(ADD, 4), None));
    let closing = tally.closing_report();
    assert_eq!(closing.len(), 3);
    assert!(matches!(closing[0], Closing::Panics { found: 2, shown_above: false }));
    assert!(matches!(closing[2], Closing::Panic { case: c } if c == case(ADD, 4)));
    assert_eq!(tally.result(), Err(2));
}

#[test]
fn any_failed_format_fails_the_whole() {
    assert!(!any_mismatches(&vec![]));
    assert!(!any_mismatches(&vec![Ok(()), Ok(())]));
    assert!(any_mismatches(&vec![Ok(()), Err(2), Ok(())]));
}

// Runs a plan with some threads, whose reports arrive round robin.
fn run(plan: &Plan, num_threads: usize, batch: usize, per_dot: usize) -> (Tally, String) {
    let mut streams = Vec::new();
    for thread_idx in 0..num_threads {
        let mut worker = Worker::new(batch);
        let mut sent = Vec::new();
        let mut k = 0;
        while let Some(case) = plan.case_for_thread(thread_idx, num_threads, k) {
            let evaluation = match (case.a, case.b) {
                (5, 5) => Err(Some("five".to_string())),
                (a, b) if a + b == 9 => Ok(false),
                _ => Ok(true),
            };
            sent.extend(worker.observe(case, failure_of(evaluation)));
            k += 1;
        }
        sent.push(worker.finish());
        streams.push(sent.into_iter());
    }
    let mut tally = Tally::new(false, per_dot);
    let mut shown = String::new();
    loop {
        let mut arrived = false;
        for stream in &mut streams {
            if let Some(update) = stream.next() {
                arrived = true;
                assert!(tally.can_absorb(&update));
                shown.push_str(&marks(&tally.absorb(update)));
            }
        }
        if !arrived {
            return (tally, shown);
        }
    }
}

#[test]
fn result_does_not_depend_on_the_threads() {
    let plan = Plan { width: 3, only_non_trivial_fma: false, ops: vec![NEG, ADD] };
    let total = plan.num_total_cases() as usize;
    assert_eq!(total, 72);
    for (num_threads, batch) in [(1, 1), (1, 64), (3, 2), (8, 4), (100, 1)] {
        let (tally, shown) = run(&plan, num_threads, batch, 7);
        assert_eq!(tally.case_idx, total);
        assert_eq!(shown.chars().count(), total / 7);
        // a + b == 9 for 2 <= a <= 7; the panic is 5 + 5.
        assert_eq!(tally.all_mismatches.len(), 6);
        assert_eq!(tally.all_panics.len(), 1);
        assert_eq!((tally.all_panics[0].a, tally.all_panics[0].b), (5, 5));
        assert_eq!(tally.result(), Err(7));
        let mut found: Vec<u128> = tally.all_mismatches.iter().map(|case| case.a).collect();
        found.sort();
        assert_eq!(found, vec![2, 3, 4, 5, 6, 7]);
    }
}

#[test]
fn runs_without_failures_succeed() {
    let plan = Plan { width: 2, only_non_trivial_fma: false, ops: vec![NEG, ADD] };
    for num_threads in [1, 4, 30] {
        let (tally, shown) = run(&plan, num_threads, 2, 5);
        assert_eq!(tally.case_idx, 20);
        assert_eq!(shown, "....");
        assert_eq!(tally.result(), Ok(()));
    }
}

#[test]
fn marks_of_a_whole_quiet_run() {
    let updates = vec![
        successes(2),
        mismatch(1, case(NEG, 0)),
        panic_with(0, case(NEG, 1), None),
        mismatch(3, case(NEG, 2)),
        successes(7),
        panic_with(2, case(NEG, 3), Some("boom")),
        successes(3),
    ];
    let mut counted = Vec::new();
    let mut tally = Tally::new(false, 3);
    let mut shown = String::new();
    for update in updates {
        counted.extend(vec![MATCH_MARK; update.successes]);
        counted.extend(update.mismatch_or_panic.as_ref().map(|(_, failure)| match failure {
            Failure::Mismatch => MISMATCH_MARK,
            Failure::Panic { .. } => PANIC_MARK,
        }));
        shown.push_str(&marks(&tally.absorb(update)));
    }
    let expected: String = counted
        .chunks_exact(3)
        .map(|stretch| {
            if stretch.contains(&PANIC_MARK) {
                PANIC_MARK
            } else if stretch.contains(&MISMATCH_MARK) {
                MISMATCH_MARK
            } else {
                MATCH_MARK
            }
        })
        .collect();
    assert_eq!(shown, expected);
    assert_eq!(shown, ".🕱≠...🕱");
}
