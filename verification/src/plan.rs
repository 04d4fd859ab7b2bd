//! What an exhaustive run of one float format consists of, and which thread runs which case.

use vstd::arithmetic::div_mod::lemma_fundamental_div_mod;
use vstd::arithmetic::div_mod::lemma_fundamental_div_mod_converse;
use vstd::arithmetic::power2::pow2;
use vstd::prelude::*;

use crate::cases::all_cases;
use crate::cases::in_domain;
use crate::cases::law_cases_are_complete;
use crate::cases::law_cases_are_in_domain;
use crate::cases::law_cases_follow_the_ops;
use crate::cases::law_cases_of_one_op;
use crate::cases::lemma_all_cases_len;
use crate::cases::lemma_range;
use crate::cases::lemma_width_fits_op;
use crate::cases::op_to_combined_input_bits_range;
use crate::cases::op_to_exhaustive_case;
use crate::cases::width_fits;
use crate::cases::Case;
use crate::cases::Op;
use crate::rounding::Rounding;

verus! {

/// The one rounding mode that the cases of a run are evaluated in.
pub fn exhaustive_rounding() -> (rm: Rounding)
    ensures
        rm == Rounding::NearestTiesToEven,
{
    Rounding::NearestTiesToEven
}

/// The operations that a run covers: all of them, or the fused multiply-add alone.
pub open spec fn selected_ops(
    all_ops: Seq<Op>,
    mul_add: Op,
    only_non_trivial_fma: bool,
) -> Seq<Op> {
    if only_non_trivial_fma {
        seq![mul_add]
    } else {
        all_ops
    }
}

/// The number of terms of `first, first + step, ..` below `total`.
pub open spec fn share_len(total: nat, first: nat, step: nat) -> nat {
    if first < total {
        ((total - first - 1) as nat / step + 1) as nat
    } else {
        0
    }
}

/// The cases that fall to one of `num_threads` threads: from the one at `thread_idx` on, every
/// `num_threads`-th.
pub open spec fn share<T>(cases: Seq<T>, thread_idx: nat, num_threads: nat) -> Seq<T> {
    Seq::new(
        share_len(cases.len(), thread_idx, num_threads),
        |k: int| cases[thread_idx + k * num_threads],
    )
}

/// An exhaustive run over one float format of `width` bits.
pub struct Plan {
    pub width: usize,
    pub only_non_trivial_fma: bool,
    pub ops: Vec<Op>,
}

impl Plan {
    /// All cases of the run, in order.
    pub open spec fn cases(self) -> Seq<Case> {
        all_cases(self.width as nat, self.only_non_trivial_fma, self.ops@)
    }

    /// The inputs of every case can be packed, and the cases can be counted, in a `u128`.
    pub open spec fn wf(self) -> bool {
        &&& self.ops@.len() > 0 ==> width_fits(self.width as nat)
        &&& forall|k: int| 0 <= k < self.ops@.len() ==> (#[trigger] self.ops@[k]).wf()
        &&& self.cases().len() <= u128::MAX
    }
}

/// Plans the run of a float format of `width` bits, or nothing where the width is not asked for.
pub fn plan_exhaustive(
    width: usize,
    min_width: usize,
    max_width: usize,
    only_non_trivial_fma: bool,
    all_ops: &Vec<Op>,
    mul_add: Op,
) -> (plan: Option<Plan>)
    ensures
        plan is Some <==> min_width <= width <= max_width,
        plan matches Some(p) ==> p.width == width && p.only_non_trivial_fma == only_non_trivial_fma
            && p.ops@ == selected_ops(all_ops@, mul_add, only_non_trivial_fma),
        plan matches Some(p) ==> (only_non_trivial_fma ==> p.ops@ == seq![mul_add]),
        plan matches Some(p) ==> (!only_non_trivial_fma ==> p.ops@ == all_ops@),
{
    if !(min_width <= width && width <= max_width) {
        return None;
    }
    let mut ops: Vec<Op> = Vec::new();
    if only_non_trivial_fma {
        ops.push(mul_add);
    } else {
        for k in 0..all_ops.len()
            invariant
                ops@ == all_ops@.take(k as int),
        {
            ops.push(all_ops[k]);
        }
    }
    Some(Plan { width, only_non_trivial_fma, ops })
}

impl Plan {
    /// Whether the run can be carried out: see `wf`.
    pub fn is_runnable(&self) -> (runnable: bool)
        ensures
            runnable == self.wf(),
            runnable <==> (self.ops@.len() > 0 ==> 3 * self.width < 128) && (forall|k: int|
                0 <= k < self.ops@.len() ==> 1 <= (#[trigger] self.ops@[k]).arity <= 3)
                && self.cases().len() <= u128::MAX,
    {
        let ghost w = self.width as nat;
        let ghost fma = self.only_non_trivial_fma;
        // Three times 42 bits still fit a shift of a `u128`.
        if self.ops.len() > 0 && self.width > 42 {
            return false;
        }
        for k in 0..self.ops.len()
            invariant
                forall|j: int| 0 <= j < k ==> (#[trigger] self.ops@[j]).wf(),
        {
            if self.ops[k].arity < 1 || self.ops[k].arity > 3 {
                assert(!self.ops@[k as int].wf());
                return false;
            }
        }
        let mut total: u128 = 0;
        for k in 0..self.ops.len()
            invariant
                w == self.width,
                fma == self.only_non_trivial_fma,
                self.ops@.len() > 0 ==> width_fits(w),
                forall|j: int| 0 <= j < self.ops@.len() ==> (#[trigger] self.ops@[j]).wf(),
                total == all_cases(w, fma, self.ops@.take(k as int)).len(),
        {
            let op: Op = self.ops[k];
            proof {
                lemma_width_fits_op(w, op);
                lemma_all_cases_len(w, fma, self.ops@.take(k as int), op);
                assert(self.ops@.take(k as int).push(op) =~= self.ops@.take(k + 1));
            }
            let range: (u128, u128) = op_to_combined_input_bits_range(
                self.width,
                self.only_non_trivial_fma,
                op,
            );
            match total.checked_add(range.1 - range.0) {
                Some(sum) => {
                    total = sum;
                },
                None => {
                    proof {
                        lemma_all_cases_monotonic(w, fma, self.ops@, k + 1);
                    }
                    return false;
                },
            }
        }
        assert(self.ops@.take(self.ops@.len() as int) =~= self.ops@);
        true
    }

    /// How many cases the run has.
    pub fn num_total_cases(&self) -> (total: u128)
        requires
            self.wf(),
        ensures
            total == self.cases().len(),
    {
        let ghost w = self.width as nat;
        let ghost fma = self.only_non_trivial_fma;
        let mut total: u128 = 0;
        for k in 0..self.ops.len()
            invariant
                w == self.width,
                fma == self.only_non_trivial_fma,
                self.wf(),
                total == all_cases(w, fma, self.ops@.take(k as int)).len(),
        {
            let op: Op = self.ops[k];
            proof {
                lemma_width_fits_op(w, op);
                lemma_all_cases_len(w, fma, self.ops@.take(k as int), op);
                assert(self.ops@.take(k as int).push(op) =~= self.ops@.take(k + 1));
                lemma_all_cases_monotonic(w, fma, self.ops@, k + 1);
            }
            let range: (u128, u128) = op_to_combined_input_bits_range(
                self.width,
                self.only_non_trivial_fma,
                op,
            );
            total = total + (range.1 - range.0);
        }
        assert(self.ops@.take(self.ops@.len() as int) =~= self.ops@);
        total
    }

    /// The case at position `n` of the run.
    pub fn nth_case(&self, n: u128) -> (case: Option<Case>)
        requires
            self.wf(),
        ensures
            case == (if n < self.cases().len() {
                Some(self.cases()[n as int])
            } else {
                None
            }),
    {
        let ghost w = self.width as nat;
        let ghost fma = self.only_non_trivial_fma;
        let mut left: u128 = n;
        assert(self.ops@.skip(0) =~= self.ops@);
        for k in 0..self.ops.len()
            invariant
                w == self.width,
                fma == self.only_non_trivial_fma,
                self.wf(),
                left <= n,
                n < self.cases().len() <==> left < all_cases(w, fma, self.ops@.skip(k as int)).len(),
                n < self.cases().len() ==> self.cases()[n as int] == all_cases(
                    w,
                    fma,
                    self.ops@.skip(k as int),
                )[left as int],
        {
            let op: Op = self.ops[k];
            let ghost rest = self.ops@.skip(k as int);
            proof {
                lemma_width_fits_op(w, op);
                lemma_range(w, fma, op);
                assert(rest[0] == op);
                assert(rest.drop_first() =~= self.ops@.skip(k + 1));
            }
            let range: (u128, u128) = op_to_combined_input_bits_range(
                self.width,
                self.only_non_trivial_fma,
                op,
            );
            let size: u128 = range.1 - range.0;
            if left < size {
                return Some(op_to_exhaustive_case(self.width, op, range.0 + left));
            }
            left = left - size;
        }
        None
    }

    /// The `k`-th of the cases that fall to the thread `thread_idx` out of `num_threads`.
    pub fn case_for_thread(&self, thread_idx: usize, num_threads: usize, k: u128) -> (case: Option<
        Case,
    >)
        requires
            self.wf(),
            num_threads > 0,
        ensures
            ({
                let cases = share(self.cases(), thread_idx as nat, num_threads as nat);
                case == (if k < cases.len() {
                    Some(cases[k as int])
                } else {
                    None
                })
            }),
            case is Some <==> thread_idx + k * num_threads < self.cases().len(),
            case matches Some(c) ==> c == self.cases()[thread_idx + k * num_threads],
    {
        proof {
            lemma_share_bound(
                self.cases().len(),
                thread_idx as nat,
                num_threads as nat,
                k as nat,
            );
        }
        match k.checked_mul(num_threads as u128) {
            Some(skipped) => match skipped.checked_add(thread_idx as u128) {
                Some(n) => self.nth_case(n),
                None => None,
            },
            None => None,
        }
    }
}

/// `k` counts a term of `first, first + step, ..` below `total` exactly if that term is below it.
pub proof fn lemma_share_bound(total: nat, first: nat, step: nat, k: nat)
    requires
        step > 0,
    ensures
        k < share_len(total, first, step) <==> first + k * step < total,
{
    if first < total {
        let span = (total - first - 1) as nat;
        lemma_fundamental_div_mod(span as int, step as int);
        let q = span / step;
        let r = span % step;
        assert(span == step * q + r && 0 <= r < step);
        if k <= q {
            assert(k * step <= step * q) by (nonlinear_arith)
                requires
                    k <= q,
            ;
        } else {
            assert(k * step >= step * q + step) by (nonlinear_arith)
                requires
                    k >= q + 1,
            ;
        }
    }
    assert(k * step >= 0) by (nonlinear_arith);
}

proof fn lemma_all_cases_monotonic(width: nat, only_non_trivial_fma: bool, ops: Seq<Op>, k: int)
    requires
        0 <= k <= ops.len(),
    ensures
        all_cases(width, only_non_trivial_fma, ops.take(k)).len() <= all_cases(
            width,
            only_non_trivial_fma,
            ops,
        ).len(),
    decreases ops.len() - k,
{
    if k < ops.len() {
        lemma_all_cases_monotonic(width, only_non_trivial_fma, ops, k + 1);
        lemma_all_cases_len(width, only_non_trivial_fma, ops.take(k), ops[k]);
        assert(ops.take(k).push(ops[k]) =~= ops.take(k + 1));
    } else {
        assert(ops.take(k) =~= ops);
    }
}

/// A thread starts with the case of its own number and goes on by as many as there are threads, up
/// to the last case.
pub proof fn law_share_is_every_nth<T>(cases: Seq<T>, thread_idx: nat, num_threads: nat, k: nat)
    requires
        num_threads > 0,
    ensures
        k < share(cases, thread_idx, num_threads).len() <==> thread_idx + k * num_threads
            < cases.len(),
        thread_idx + k * num_threads < cases.len() ==> share(
            cases,
            thread_idx,
            num_threads,
        )[k as int] == cases[(thread_idx + k * num_threads) as int],
{
    lemma_share_bound(cases.len(), thread_idx, num_threads, k);
}

/// Every case falls to exactly one of the threads: the one at `n` is the term `n / num_threads` of
/// the share of thread `n % num_threads`, and stands nowhere else.
pub proof fn law_shares_partition_the_cases<T>(
    cases: Seq<T>,
    num_threads: nat,
    n: nat,
    t: nat,
    k: nat,
)
    requires
        num_threads > 0,
        n < cases.len(),
    ensures
        (t < num_threads && k < share(cases, t, num_threads).len() && t + k * num_threads == n) <==> (
        t == n % num_threads && k == n / num_threads),
        n / num_threads < share(cases, n % num_threads, num_threads).len(),
        share(cases, n % num_threads, num_threads)[(n / num_threads) as int] == cases[n as int],
{
    let p = num_threads as int;
    lemma_fundamental_div_mod(n as int, p);
    let q = n / num_threads;
    let r = n % num_threads;
    assert(r + q * num_threads == n) by (nonlinear_arith)
        requires
            n == num_threads * q + r,
    ;
    lemma_share_bound(cases.len(), r, num_threads, q);
    if t < num_threads && t + k * num_threads == n {
        assert(n == p * k + t) by (nonlinear_arith)
            requires
                n == t + k * p,
        ;
        lemma_fundamental_div_mod_converse(n as int, p, k as int, t as int);
    }
}

/// A plan tries a case exactly if it is one of its operations on inputs of its domain.
pub proof fn lemma_tried(plan: Plan, case: Case)
    requires
        plan.wf(),
    ensures
        plan.cases().contains(case) <==> plan.ops@.contains(case.op) && in_domain(
            plan.width as nat,
            plan.only_non_trivial_fma,
            case,
        ),
        plan.ops@.contains(case.op) ==> 1 <= case.op.arity <= 3,
{
    let w = plan.width as nat;
    let fma = plan.only_non_trivial_fma;
    if plan.cases().contains(case) {
        let n = choose|n: int| 0 <= n < plan.cases().len() && plan.cases()[n] == case;
        assert(plan.ops@.len() > 0);
        law_cases_are_in_domain(w, fma, plan.ops@, n);
    }
    if plan.ops@.contains(case.op) {
        let k = choose|k: int| 0 <= k < plan.ops@.len() && plan.ops@[k] == case.op;
        assert(plan.ops@[k].wf());
        if in_domain(w, fma, case) {
            law_cases_are_complete(w, fma, plan.ops@, case);
        }
    }
}

/// A run covers all operations or, where asked to, the fused multiply-add alone. Each of them is
/// tried on exactly these inputs: floats of the given width for the operands that it takes, zero
/// for the others and, where only the fused multiply-add is tried, no zero as the last operand.
pub proof fn law_run_tries_exactly(
    plan: Plan,
    all_ops: Seq<Op>,
    mul_add: Op,
    case: Case,
)
    requires
        plan.wf(),
        plan.ops@ == selected_ops(all_ops, mul_add, plan.only_non_trivial_fma),
    ensures
        plan.cases().contains(case) <==> ({
            &&& if plan.only_non_trivial_fma {
                case.op == mul_add
            } else {
                all_ops.contains(case.op)
            }
            &&& case.a < pow2(plan.width as nat)
            &&& case.b < pow2(plan.width as nat)
            &&& case.c < pow2(plan.width as nat)
            &&& case.op.arity == 1 ==> case.b == 0
            &&& case.op.arity <= 2 ==> case.c == 0
            &&& plan.only_non_trivial_fma ==> (case.op.arity == 1 ==> case.a != 0) && (
            case.op.arity == 2 ==> case.b != 0) && (case.op.arity == 3 ==> case.c != 0)
        }),
{
    lemma_tried(plan, case);
    if plan.only_non_trivial_fma {
        assert(plan.ops@[0] == mul_add);
    }
}

/// Where a case of a run stands: after those of the operations before its own, in the order of its
/// inputs read as one number, the first operand in its lowest bits.
pub proof fn law_case_at(plan: Plan, k: int, n: nat)
    requires
        plan.wf(),
        0 <= k < plan.ops@.len(),
        n < pow2(plan.width as nat * plan.ops@[k].arity as nat) - (if plan.only_non_trivial_fma {
            pow2(plan.width as nat * (plan.ops@[k].arity - 1) as nat) as int
        } else {
            0
        }),
    ensures
        ({
            let w = plan.width as nat;
            let fma = plan.only_non_trivial_fma;
            let at = all_cases(w, fma, plan.ops@.take(k)).len() + n;
            let case = plan.cases()[at as int];
            &&& at < plan.cases().len()
            &&& case.op == plan.ops@[k]
            &&& case.a < pow2(w)
            &&& case.b < pow2(w)
            &&& case.c < pow2(w)
            &&& case.a + case.b * pow2(w) + case.c * pow2(2 * w) == n + (if fma {
                pow2(w * (plan.ops@[k].arity - 1) as nat) as int
            } else {
                0
            })
        }),
{
    let w = plan.width as nat;
    let fma = plan.only_non_trivial_fma;
    let ops = plan.ops@;
    let (before, after) = (ops.take(k), ops.skip(k + 1));
    let op = ops[k];
    assert(ops =~= before + (seq![op] + after));
    law_cases_follow_the_ops(w, fma, before, seq![op] + after);
    law_cases_follow_the_ops(w, fma, seq![op], after);
    law_cases_of_one_op(w, fma, op, n);
}

} // verus!
