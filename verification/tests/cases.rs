use std::collections::HashSet;

use apfloat_fuzz::cases::{op_to_combined_input_bits_range, op_to_exhaustive_case, Case, Op};
use apfloat_fuzz::plan::{exhaustive_rounding, plan_exhaustive, Plan};
use apfloat_fuzz::rounding::Rounding;

const NEG: Op = Op { code: 0, arity: 1 };
const ADD: Op = Op { code: 1, arity: 2 };
const MUL_ADD: Op = Op { code: 6, arity: 3 };

fn plan(width: usize, only_non_trivial_fma: bool, ops: Vec<Op>) -> Plan {
    Plan { width, only_non_trivial_fma, ops }
}

fn all(plan: &Plan) -> Vec<Case> {
    (0..plan.num_total_cases()).map(|n| plan.nth_case(n).unwrap()).collect()
}

#[test]
fn range_of_all_inputs() {
    assert_eq!(op_to_combined_input_bits_range(8, false, NEG), (0, 0x100));
    assert_eq!(op_to_combined_input_bits_range(8, false, ADD), (0, 0x1_0000));
    assert_eq!(op_to_combined_input_bits_range(8, false, MUL_ADD), (0, 0x100_0000));
    assert_eq!(op_to_combined_input_bits_range(42, false, MUL_ADD), (0, 1 << 126));
    assert_eq!(op_to_combined_input_bits_range(127, false, NEG), (0, 1 << 127));
}

#[test]
fn range_without_zero_addends() {
    assert_eq!(op_to_combined_input_bits_range(8, true, MUL_ADD), (0x1_0000, 0x100_0000));
    assert_eq!(op_to_combined_input_bits_range(8, true, NEG), (1, 0x100));
}

#[test]
fn inputs_are_digits() {
    let case = op_to_exhaustive_case(8, MUL_ADD, 0x03_02_01);
    assert_eq!(case, Case { op: MUL_ADD, a: 1, b: 2, c: 3 });
    let case = op_to_exhaustive_case(8, NEG, 0xfe);
    assert_eq!(case, Case { op: NEG, a: 0xfe, b: 0, c: 0 });
    let case = op_to_exhaustive_case(42, MUL_ADD, (5 << 84) | (6 << 42) | 7);
    assert_eq!(case, Case { op: MUL_ADD, a: 7, b: 6, c: 5 });
}

#[test]
fn widths_that_are_not_asked_for_are_skipped() {
    assert!(plan_exhaustive(8, 8, 8, false, &vec![NEG], MUL_ADD).is_some());
    assert!(plan_exhaustive(16, 8, 8, false, &vec![NEG], MUL_ADD).is_none());
    assert!(plan_exhaustive(8, 9, 16, false, &vec![NEG], MUL_ADD).is_none());
    assert!(plan_exhaustive(8, 9, 7, false, &vec![NEG], MUL_ADD).is_none());
}

#[test]
fn operations_of_a_plan() {
    let ops = vec![NEG, ADD, MUL_ADD];
    let full = plan_exhaustive(8, 0, 16, false, &ops, MUL_ADD).unwrap();
    assert_eq!(full.ops, ops);
    assert_eq!(full.num_total_cases(), 0x100 + 0x1_0000 + 0x100_0000);
    let fma = plan_exhaustive(8, 0, 16, true, &ops, MUL_ADD).unwrap();
    assert_eq!(fma.ops, vec![MUL_ADD]);
    assert_eq!(fma.num_total_cases(), 0x100_0000 - 0x1_0000);
}

#[test]
fn plans_that_cannot_be_run() {
    assert!(plan(8, false, vec![NEG, ADD, MUL_ADD]).is_runnable());
    assert!(plan(42, false, vec![MUL_ADD]).is_runnable());
    assert!(!plan(43, false, vec![NEG]).is_runnable());
    assert!(plan(128, false, vec![]).is_runnable());
    assert!(!plan(8, false, vec![NEG, Op { code: 9, arity: 4 }]).is_runnable());
    assert!(!plan(8, false, vec![Op { code: 9, arity: 0 }]).is_runnable());
    assert!(plan(42, false, vec![MUL_ADD; 3]).is_runnable());
    assert!(!plan(42, false, vec![MUL_ADD; 4]).is_runnable());
    assert!(plan(42, true, vec![MUL_ADD; 4]).is_runnable());
}

#[test]
fn cases_follow_one_operation_after_the_other() {
    let plan = plan(2, false, vec![NEG, ADD]);
    assert_eq!(plan.num_total_cases(), 4 + 16);
    assert_eq!(plan.nth_case(0), Some(Case { op: NEG, a: 0, b: 0, c: 0 }));
    assert_eq!(plan.nth_case(3), Some(Case { op: NEG, a: 3, b: 0, c: 0 }));
    assert_eq!(plan.nth_case(4), Some(Case { op: ADD, a: 0, b: 0, c: 0 }));
    assert_eq!(plan.nth_case(4 + 6), Some(Case { op: ADD, a: 2, b: 1, c: 0 }));
    assert_eq!(plan.nth_case(19), Some(Case { op: ADD, a: 3, b: 3, c: 0 }));
    assert_eq!(plan.nth_case(20), None);
    assert_eq!(plan.nth_case(u128::MAX), None);
}

#[test]
fn every_combination_occurs_once() {
    let cases = all(&plan(3, false, vec![NEG, ADD, MUL_ADD]));
    assert_eq!(cases.len(), 8 + 64 + 512);
    let seen: HashSet<(u64, u128, u128, u128)> =
        cases.iter().map(|case| (case.op.code, case.a, case.b, case.c)).collect();
    assert_eq!(seen.len(), cases.len());
    for a in 0..8 {
        assert!(seen.contains(&(NEG.code, a, 0, 0)));
        for b in 0..8 {
            assert!(seen.contains(&(ADD.code, a, b, 0)));
            for c in 0..8 {
                assert!(seen.contains(&(MUL_ADD.code, a, b, c)));
            }
        }
    }
}

#[test]
fn non_trivial_fma_has_a_nonzero_addend() {
    let cases = all(&plan(2, true, vec![MUL_ADD]));
    assert_eq!(cases.len(), 4 * 4 * 3);
    assert!(cases.iter().all(|case| case.c != 0));
    assert_eq!(cases[0], Case { op: MUL_ADD, a: 0, b: 0, c: 1 });
}

#[test]
fn threads_share_the_cases() {
    let plan = plan(2, false, vec![NEG, ADD]);
    let total = plan.num_total_cases();
    for num_threads in [1, 3, 7, 20, 33] {
        let mut shared = Vec::new();
        for thread_idx in 0..num_threads {
            let mut k = 0;
            while let Some(case) = plan.case_for_thread(thread_idx, num_threads, k) {
                let n = thread_idx as u128 + k * num_threads as u128;
                assert_eq!(plan.nth_case(n), Some(case));
                shared.push(n);
                k += 1;
            }
        }
        shared.sort();
        assert_eq!(shared, (0..total).collect::<Vec<_>>());
    }
    assert_eq!(plan.case_for_thread(1, usize::MAX, u128::MAX), None);
    assert_eq!(plan.case_for_thread(usize::MAX, 1, u128::MAX), None);
}

#[test]
fn exhaustive_runs_round_to_nearest_even() {
    assert_eq!(exhaustive_rounding(), Rounding::NearestTiesToEven);
}
