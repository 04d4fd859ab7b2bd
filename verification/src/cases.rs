//! The test cases of an exhaustive run: for every operation, every combination of inputs.
//!
//! The inputs of one operation are packed into a single number, the first operand in its lowest
//! bits. Counting that number through a range visits every combination once.

use vstd::arithmetic::div_mod::lemma_div_denominator;
use vstd::arithmetic::div_mod::lemma_fundamental_div_mod;
use vstd::arithmetic::div_mod::lemma_fundamental_div_mod_converse;
use vstd::arithmetic::power2::lemma_pow2_adds;
use vstd::arithmetic::power2::lemma_pow2_pos;
use vstd::arithmetic::power2::lemma_pow2_strictly_increases;
use vstd::arithmetic::power2::pow2;
use vstd::prelude::*;

use crate::bits::lemma_mask_is_mod;
use crate::bits::lemma_one_shl;
use crate::bits::lemma_shr_is_div;

verus! {

/// A floating-point operation: the number that stands for it in an encoded input, and how many
/// operands it takes.
#[derive(Clone, Copy, PartialEq, Eq, Structural, Debug)]
pub struct Op {
    pub code: u64,
    pub arity: u8,
}

impl Op {
    /// Operations are unary, binary or ternary.
    pub open spec fn wf(self) -> bool {
        1 <= self.arity <= 3
    }
}

/// One test case: an operation with the bits of its inputs. Inputs that the operation does not
/// take are zero.
#[derive(Clone, Copy, PartialEq, Eq, Structural, Debug)]
pub struct Case {
    pub op: Op,
    pub a: u128,
    pub b: u128,
    pub c: u128,
}

/// The number after the last packed input of `op`, for floats of `width` bits.
pub open spec fn range_end(width: nat, op: Op) -> nat {
    pow2(width * op.arity as nat)
}

/// The first packed input of `op`: zero or, where a zero last operand (the addend of a fused
/// multiply-add) is of no interest, the first one with a nonzero last operand.
pub open spec fn range_start(width: nat, only_non_trivial_fma: bool, op: Op) -> nat {
    if only_non_trivial_fma {
        pow2(width * (op.arity - 1) as nat)
    } else {
        0
    }
}

/// How many cases `op` has.
pub open spec fn range_len(width: nat, only_non_trivial_fma: bool, op: Op) -> nat {
    (range_end(width, op) - range_start(width, only_non_trivial_fma, op)) as nat
}

/// The packed input of a case.
pub open spec fn packed(width: nat, case: Case) -> nat {
    case.a as nat + case.b as nat * pow2(width) + case.c as nat * pow2(2 * width)
}

/// The case of `op` whose inputs are the lowest three `width`-bit digits of `i`.
pub open spec fn unpacked(width: nat, op: Op, i: nat) -> Case {
    Case {
        op,
        a: (i % pow2(width)) as u128,
        b: ((i / pow2(width)) % pow2(width)) as u128,
        c: ((i / pow2(2 * width)) % pow2(width)) as u128,
    }
}

/// The cases of one operation, in the order in which they are run.
pub open spec fn op_cases(width: nat, only_non_trivial_fma: bool, op: Op) -> Seq<Case> {
    Seq::new(
        range_len(width, only_non_trivial_fma, op),
        |j: int|
            unpacked(width, op, (range_start(width, only_non_trivial_fma, op) + j) as nat),
    )
}

/// The cases of several operations, one operation after the other.
pub open spec fn all_cases(width: nat, only_non_trivial_fma: bool, ops: Seq<Op>) -> Seq<Case>
    decreases ops.len(),
{
    if ops.len() == 0 {
        Seq::empty()
    } else {
        op_cases(width, only_non_trivial_fma, ops[0]) + all_cases(
            width,
            only_non_trivial_fma,
            ops.drop_first(),
        )
    }
}

/// One more operation adds the number of its cases.
pub proof fn lemma_all_cases_len(width: nat, only_non_trivial_fma: bool, ops: Seq<Op>, op: Op)
    ensures
        all_cases(width, only_non_trivial_fma, ops.push(op)).len() == all_cases(
            width,
            only_non_trivial_fma,
            ops,
        ).len() + range_len(width, only_non_trivial_fma, op),
    decreases ops.len(),
{
    if ops.len() == 0 {
        assert(ops.push(op).drop_first() =~= Seq::<Op>::empty());
        assert(all_cases(width, only_non_trivial_fma, ops.push(op).drop_first()).len() == 0);
    } else {
        lemma_all_cases_len(width, only_non_trivial_fma, ops.drop_first(), op);
        assert(ops.push(op).drop_first() =~= ops.drop_first().push(op));
    }
}

/// Three digits of `width` bits fit the `u128` that packs them.
pub open spec fn width_fits(width: nat) -> bool {
    3 * width < 128
}

proof fn lemma_pow2_monotonic(i: nat, j: nat)
    requires
        i <= j,
    ensures
        pow2(i) <= pow2(j),
{
    if i < j {
        lemma_pow2_strictly_increases(i, j);
    }
}

pub proof fn lemma_range(width: nat, only_non_trivial_fma: bool, op: Op)
    requires
        op.wf(),
        width * (op.arity as nat) < 128,
    ensures
        width * (op.arity - 1) as nat == width * op.arity as nat - width,
        0 < range_end(width, op) <= pow2(127) <= u128::MAX,
        range_start(width, only_non_trivial_fma, op) <= range_end(width, op),
        width_fits(width) ==> range_end(width, op) <= pow2(3 * width),
{
    let arity = op.arity as nat;
    assert(width * (arity - 1) as nat == width * arity - width) by (nonlinear_arith)
        requires
            1 <= arity,
    ;
    lemma_pow2_monotonic(width * (arity - 1) as nat, width * arity);
    lemma_pow2_monotonic(width * arity, 127);
    lemma_pow2_pos(width * arity);
    lemma_one_shl(127);
    assert(width * arity <= 3 * width) by (nonlinear_arith)
        requires
            arity <= 3,
    ;
    lemma_pow2_monotonic(width * arity, 3 * width);
}

pub proof fn lemma_width_fits_op(width: nat, op: Op)
    requires
        op.wf(),
        width_fits(width),
    ensures
        width * (op.arity as nat) < 128,
{
    let arity = op.arity as nat;
    assert(width * arity <= 3 * width) by (nonlinear_arith)
        requires
            arity <= 3,
    ;
}

/// The range of packed inputs of `op`: its first number, and the number after its last.
pub fn op_to_combined_input_bits_range(width: usize, only_non_trivial_fma: bool, op: Op) -> (range: (
    u128,
    u128,
))
    requires
        op.wf(),
        width * op.arity < 128,
    ensures
        range.0 == range_start(width as nat, only_non_trivial_fma, op),
        range.1 == range_end(width as nat, op),
        range.0 <= range.1,
        range.1 == pow2((width * op.arity) as nat),
        range.0 == (if only_non_trivial_fma {
            pow2((width * op.arity - width) as nat)
        } else {
            0
        }),
{
    proof {
        lemma_range(width as nat, only_non_trivial_fma, op);
        lemma_one_shl((width * op.arity) as u128);
        lemma_one_shl((width * (op.arity - 1)) as u128);
    }
    let total_bit_width: usize = width * (op.arity as usize);
    let start: u128 = if only_non_trivial_fma {
        1u128 << (total_bit_width - width)
    } else {
        0
    };
    (start, 1u128 << total_bit_width)
}

/// Unpacks the inputs of one case of `op`.
pub fn op_to_exhaustive_case(width: usize, op: Op, i: u128) -> (case: Case)
    requires
        width_fits(width as nat),
        i < pow2(3 * width as nat),
    ensures
        case == unpacked(width as nat, op, i as nat),
        case.op == op,
        case.a < pow2(width as nat),
        case.b < pow2(width as nat),
        case.c < pow2(width as nat),
        case.a + case.b * pow2(width as nat) + case.c * pow2(2 * width as nat) == i,
{
    proof {
        lemma_packed_unpacked(width as nat, op, i as nat);
        lemma_pow2_pos(width as nat);
        lemma_one_shl(width as u128);
        lemma_shr_is_div(i, width as u128);
        lemma_shr_is_div(i, (2 * width) as u128);
    }
    let mask: u128 = (1u128 << width) - 1;
    proof {
        lemma_mask_is_mod(i, mask, width as u128);
        lemma_mask_is_mod(i >> width, mask, width as u128);
        lemma_mask_is_mod(i >> (2 * width), mask, width as u128);
    }
    Case { op, a: i & mask, b: (i >> width) & mask, c: (i >> (2 * width)) & mask }
}

/// The last operand that the operation of a case takes.
pub open spec fn last_operand(case: Case) -> u128 {
    if case.op.arity == 1 {
        case.a
    } else if case.op.arity == 2 {
        case.b
    } else {
        case.c
    }
}

/// The operands of a case are floats of `width` bits, those that its operation does not take are
/// zero and, where only nonzero last operands are of interest, its last one is not.
pub open spec fn in_domain(width: nat, only_non_trivial_fma: bool, case: Case) -> bool {
    &&& case.a < pow2(width)
    &&& case.b < pow2(width)
    &&& case.c < pow2(width)
    &&& case.op.arity < 2 ==> case.b == 0
    &&& case.op.arity < 3 ==> case.c == 0
    &&& only_non_trivial_fma ==> last_operand(case) != 0
}

proof fn lemma_units(width: nat)
    ensures
        pow2(width) > 0,
        pow2(2 * width) == pow2(width) * pow2(width),
        pow2(3 * width) == pow2(2 * width) * pow2(width),
        pow2(0) == 1,
{
    lemma_pow2_pos(width);
    lemma_pow2_adds(width, width);
    lemma_pow2_adds(2 * width, width);
    vstd::arithmetic::power2::lemma2_to64();
}

/// Packing the inputs of an unpacked number gives that number back.
pub proof fn lemma_packed_unpacked(width: nat, op: Op, i: nat)
    requires
        width_fits(width),
        i < pow2(3 * width),
    ensures
        packed(width, unpacked(width, op, i)) == i,
        unpacked(width, op, i).a == i % pow2(width) < pow2(width),
        unpacked(width, op, i).b == (i / pow2(width)) % pow2(width) < pow2(width),
        unpacked(width, op, i).c == i / pow2(2 * width) < pow2(width),
{
    let u = pow2(width) as int;
    let ii = i as int;
    lemma_units(width);
    lemma_pow2_monotonic(width, 127);
    lemma_one_shl(127);
    let q1 = ii / u;
    let q2 = q1 / u;
    lemma_fundamental_div_mod(ii, u);
    lemma_fundamental_div_mod(q1, u);
    lemma_div_denominator(ii, u, u);
    assert(0 <= q2) by (nonlinear_arith)
        requires
            q2 == (ii / u) / u,
            ii >= 0,
            u > 0,
    ;
    assert(q2 < u) by {
        lemma_fundamental_div_mod(ii, u * u);
        assert(q2 * (u * u) <= ii);
        if q2 >= u {
            assert(q2 * (u * u) >= (u * u) * u) by (nonlinear_arith)
                requires
                    q2 >= u,
                    u > 0,
            ;
        }
    }
    vstd::arithmetic::div_mod::lemma_small_mod(q2 as nat, u as nat);
    let a = ii % u;
    let b = q1 % u;
    assert(ii == a + b * u + q2 * (u * u)) by (nonlinear_arith)
        requires
            ii == u * q1 + a,
            q1 == u * q2 + b,
    ;
}

/// Unpacking a packed case gives its inputs back.
pub proof fn lemma_unpacked_packed(width: nat, case: Case)
    requires
        width_fits(width),
        case.a < pow2(width),
        case.b < pow2(width),
        case.c < pow2(width),
    ensures
        unpacked(width, case.op, packed(width, case)) == case,
        packed(width, case) < pow2(3 * width),
{
    let u = pow2(width) as int;
    lemma_units(width);
    let (a, b, c) = (case.a as int, case.b as int, case.c as int);
    let i = packed(width, case) as int;
    assert(i == u * (b + c * u) + a) by (nonlinear_arith)
        requires
            i == a + b * u + c * (u * u),
    ;
    lemma_fundamental_div_mod_converse(i, u, b + c * u, a);
    assert(b + c * u == u * c + b) by (nonlinear_arith);
    lemma_fundamental_div_mod_converse(b + c * u, u, c, b);
    assert(0 <= i && i < (u * u) * u) by (nonlinear_arith)
        requires
            i == a + b * u + c * (u * u),
            0 <= a < u,
            0 <= b < u,
            0 <= c < u,
    ;
    lemma_div_denominator(i, u, u);
    vstd::arithmetic::div_mod::lemma_small_mod(c as nat, u as nat);
}

/// A packed input lies in the range of its operation exactly if the case is in the domain.
pub proof fn lemma_range_is_domain(width: nat, only_non_trivial_fma: bool, case: Case)
    requires
        width_fits(width),
        case.op.wf(),
        case.a < pow2(width),
        case.b < pow2(width),
        case.c < pow2(width),
    ensures
        range_start(width, only_non_trivial_fma, case.op) <= packed(width, case) < range_end(
            width,
            case.op,
        ) <==> in_domain(width, only_non_trivial_fma, case),
{
    let u = pow2(width) as int;
    lemma_units(width);
    let (a, b, c) = (case.a as int, case.b as int, case.c as int);
    let i = packed(width, case) as int;
    assert(i == a + b * u + c * (u * u));
    assert(0 <= b * u && (b != 0 ==> u <= b * u) && (b == 0 ==> b * u == 0) && b * u <= u * u - u)
        by (nonlinear_arith)
        requires
            0 <= b < u,
    ;
    assert(0 <= c * (u * u) && (c != 0 ==> u * u <= c * (u * u)) && (c == 0 ==> c * (u * u) == 0)
        && c * (u * u) <= (u * u) * u - u * u) by (nonlinear_arith)
        requires
            0 <= c < u,
    ;
    assert(u <= u * u) by (nonlinear_arith)
        requires
            u > 0,
    ;
    assert(width * 0 == 0 && width * 1 == width && width * 2 == 2 * width && width * 3 == 3 * width);
}

/// Every case of a run is one of its operations on inputs of its domain.
pub proof fn law_cases_are_in_domain(width: nat, only_non_trivial_fma: bool, ops: Seq<Op>, n: int)
    requires
        width_fits(width),
        forall|k: int| 0 <= k < ops.len() ==> (#[trigger] ops[k]).wf(),
        0 <= n < all_cases(width, only_non_trivial_fma, ops).len(),
    ensures
        ({
            let case = all_cases(width, only_non_trivial_fma, ops)[n];
            in_domain(width, only_non_trivial_fma, case) && ops.contains(case.op)
        }),
    decreases ops.len(),
{
    let op = ops[0];
    let case = all_cases(width, only_non_trivial_fma, ops)[n];
    let head = op_cases(width, only_non_trivial_fma, op);
    if n < head.len() {
        let i = (range_start(width, only_non_trivial_fma, op) + n) as nat;
        lemma_width_fits_op(width, op);
        lemma_range(width, only_non_trivial_fma, op);
        assert(case == unpacked(width, op, i));
        lemma_packed_unpacked(width, op, i);
        lemma_range_is_domain(width, only_non_trivial_fma, case);
    } else {
        assert(forall|k: int|
            0 <= k < ops.drop_first().len() ==> #[trigger] ops.drop_first()[k] == ops[k + 1]);
        law_cases_are_in_domain(width, only_non_trivial_fma, ops.drop_first(), n - head.len());
        let k = choose|k: int| 0 <= k < ops.drop_first().len() && ops.drop_first()[k] == case.op;
        assert(ops[k + 1] == case.op);
    }
}

/// A run leaves nothing out: each of its operations is tried on all inputs of its domain.
pub proof fn law_cases_are_complete(
    width: nat,
    only_non_trivial_fma: bool,
    ops: Seq<Op>,
    case: Case,
)
    requires
        width_fits(width),
        forall|k: int| 0 <= k < ops.len() ==> (#[trigger] ops[k]).wf(),
        ops.contains(case.op),
        in_domain(width, only_non_trivial_fma, case),
    ensures
        all_cases(width, only_non_trivial_fma, ops).contains(case),
    decreases ops.len(),
{
    let all = all_cases(width, only_non_trivial_fma, ops);
    let head = op_cases(width, only_non_trivial_fma, ops[0]);
    if ops[0] == case.op {
        lemma_unpacked_packed(width, case);
        lemma_range_is_domain(width, only_non_trivial_fma, case);
        let j = packed(width, case) - range_start(width, only_non_trivial_fma, case.op);
        assert(head[j] == case);
        assert(all[j] == case);
    } else {
        let k = choose|k: int| 0 <= k < ops.len() && ops[k] == case.op;
        assert(ops.drop_first()[k - 1] == case.op);
        assert(forall|k: int|
            0 <= k < ops.drop_first().len() ==> #[trigger] ops.drop_first()[k] == ops[k + 1]);
        law_cases_are_complete(width, only_non_trivial_fma, ops.drop_first(), case);
        let rest = all_cases(width, only_non_trivial_fma, ops.drop_first());
        let j = choose|j: int| 0 <= j < rest.len() && rest[j] == case;
        assert(all[head.len() + j] == case);
    }
}

/// The cases of one list of operations are followed by those of another.
pub proof fn law_cases_follow_the_ops(
    width: nat,
    only_non_trivial_fma: bool,
    ops: Seq<Op>,
    more: Seq<Op>,
)
    ensures
        all_cases(width, only_non_trivial_fma, ops + more) == all_cases(
            width,
            only_non_trivial_fma,
            ops,
        ) + all_cases(width, only_non_trivial_fma, more),
    decreases ops.len(),
{
    let all = all_cases(width, only_non_trivial_fma, ops + more);
    let rest = all_cases(width, only_non_trivial_fma, more);
    if ops.len() == 0 {
        assert(ops + more =~= more);
        assert(all =~= all_cases(width, only_non_trivial_fma, ops) + rest);
    } else {
        assert((ops + more).drop_first() =~= ops.drop_first() + more);
        law_cases_follow_the_ops(width, only_non_trivial_fma, ops.drop_first(), more);
        assert(all =~= all_cases(width, only_non_trivial_fma, ops) + rest);
    }
}

/// One operation has as many cases as its operands have values together, less those with a zero
/// last operand where these are left out. The inputs of the `n`-th, read as one number with the
/// first operand in its lowest bits, are that number, counted from the first one not left out.
pub proof fn law_cases_of_one_op(width: nat, only_non_trivial_fma: bool, op: Op, n: nat)
    requires
        3 * width < 128,
        1 <= op.arity <= 3,
    ensures
        ({
            let cases = all_cases(width, only_non_trivial_fma, seq![op]);
            let case = cases[n as int];
            let left_out = if only_non_trivial_fma {
                pow2(width * (op.arity - 1) as nat) as int
            } else {
                0
            };
            &&& cases.len() == pow2(width * op.arity as nat) - left_out
            &&& n < cases.len() ==> case.op == op && case.a < pow2(width) && case.b < pow2(width)
                && case.c < pow2(width) && case.a + case.b * pow2(width) + case.c * pow2(2 * width)
                == n + left_out
        }),
{
    let cases = all_cases(width, only_non_trivial_fma, seq![op]);
    let head = op_cases(width, only_non_trivial_fma, op);
    assert(seq![op].drop_first() =~= Seq::<Op>::empty());
    assert(all_cases(width, only_non_trivial_fma, seq![op].drop_first()) =~= Seq::empty());
    assert(cases =~= head);
    lemma_width_fits_op(width, op);
    lemma_range(width, only_non_trivial_fma, op);
    if n < cases.len() {
        lemma_packed_unpacked(
            width,
            op,
            (range_start(width, only_non_trivial_fma, op) + n) as nat,
        );
    }
}

/// A run tries nothing twice, as long as no operation is listed twice.
pub proof fn law_cases_are_distinct(
    width: nat,
    only_non_trivial_fma: bool,
    ops: Seq<Op>,
    m: int,
    n: int,
)
    requires
        width_fits(width),
        forall|k: int| 0 <= k < ops.len() ==> (#[trigger] ops[k]).wf(),
        ops.no_duplicates(),
        0 <= m < n < all_cases(width, only_non_trivial_fma, ops).len(),
    ensures
        all_cases(width, only_non_trivial_fma, ops)[m] != all_cases(
            width,
            only_non_trivial_fma,
            ops,
        )[n],
    decreases ops.len(),
{
    let op = ops[0];
    let all = all_cases(width, only_non_trivial_fma, ops);
    let head = op_cases(width, only_non_trivial_fma, op);
    let rest = ops.drop_first();
    assert(forall|k: int| 0 <= k < rest.len() ==> #[trigger] rest[k] == ops[k + 1]);
    let start = range_start(width, only_non_trivial_fma, op);
    lemma_width_fits_op(width, op);
    lemma_range(width, only_non_trivial_fma, op);
    if n < head.len() {
        lemma_packed_unpacked(width, op, (start + m) as nat);
        lemma_packed_unpacked(width, op, (start + n) as nat);
    } else if m >= head.len() {
        law_cases_are_distinct(
            width,
            only_non_trivial_fma,
            rest,
            m - head.len(),
            n - head.len(),
        );
    } else {
        law_cases_are_in_domain(width, only_non_trivial_fma, rest, n - head.len());
        let k = choose|k: int| 0 <= k < rest.len() && rest[k] == all[n].op;
        assert(ops[k + 1] == all[n].op);
        assert(all[m].op == ops[0]);
    }
}

} // verus!
