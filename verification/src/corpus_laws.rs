//! What holds of a corpus as a whole.

use vstd::arithmetic::div_mod::lemma_fundamental_div_mod_converse;
use vstd::arithmetic::power2::lemma_pow2_adds;
use vstd::arithmetic::power2::lemma_pow2_strictly_increases;
use vstd::arithmetic::power2::pow2;
use vstd::prelude::*;

use crate::corpus::digit_char;
use crate::corpus::entry;
use crate::corpus::file_name;
use crate::corpus::format_entries;
use crate::corpus::input_desc;
use crate::corpus::law_number_of_files;
use crate::corpus::le_bytes;
use crate::corpus::lemma_op_entries_len;
use crate::corpus::mode_entries;
use crate::corpus::num_files;
use crate::corpus::num_picks;
use crate::corpus::op_entries;
use crate::corpus::operand_bytes;
use crate::corpus::picks;
use crate::corpus::Entry;
use crate::corpus::Format;
use crate::corpus::NamedOp;
use crate::rounding::spec_round_all;
use crate::rounding::RoundCodes;
use crate::rounding::Rounding;
use crate::semantics::lemma_inputs_fit;

verus! {

/// The number of some bytes, the lowest one first.
pub open spec fn le_value(bytes: Seq<u8>) -> nat
    decreases bytes.len(),
{
    if bytes.len() == 0 {
        0
    } else {
        bytes[0] as nat + 256 * le_value(bytes.drop_first())
    }
}

/// The bytes of a number give it back, if there are enough of them.
pub proof fn lemma_le_round_trip(value: nat, n: nat)
    requires
        value < pow2(8 * n),
    ensures
        le_bytes(value, n).len() == n,
        le_value(le_bytes(value, n)) == value,
    decreases n,
{
    vstd::arithmetic::power2::lemma2_to64();
    if n > 0 {
        let rest = le_bytes(value / 256, (n - 1) as nat);
        lemma_pow2_adds(8, (8 * (n - 1)) as nat);
        assert(value / 256 < pow2((8 * (n - 1)) as nat));
        lemma_le_round_trip(value / 256, (n - 1) as nat);
        let bytes = le_bytes(value, n);
        assert(bytes.drop_first() =~= rest);
        assert(bytes[0] == (value % 256) as u8);
    }
}

proof fn lemma_operand(byte_len: nat, operands: Seq<u128>, k: int)
    requires
        0 <= k < operands.len(),
        forall|i: int| 0 <= i < operands.len() ==> (#[trigger] operands[i]) < pow2(8 * byte_len),
    ensures
        operand_bytes(byte_len, operands).len() == operands.len() * byte_len,
        0 <= k * byte_len <= (k + 1) * byte_len <= operands.len() * byte_len,
        operand_bytes(byte_len, operands).subrange(k * byte_len, (k + 1) * byte_len) == le_bytes(
            operands[k] as nat,
            byte_len,
        ),
    decreases operands.len(),
{
    let before = operands.drop_last();
    let all = operand_bytes(byte_len, operands);
    let n = operands.len();
    lemma_le_round_trip(operands.last() as nat, byte_len);
    assert(n * byte_len == (n - 1) * byte_len + byte_len) by (nonlinear_arith);
    assert(0 <= k * byte_len && k * byte_len + byte_len == (k + 1) * byte_len && (k + 1) * byte_len
        <= n * byte_len) by (nonlinear_arith)
        requires
            0 <= k,
            k + 1 <= n,
    ;
    if before.len() == 0 {
        assert(operand_bytes(byte_len, before) =~= Seq::empty());
        assert(0 * byte_len == 0);
        assert(all =~= le_bytes(operands[k] as nat, byte_len));
        assert(all.subrange(0, byte_len as int) =~= all);
    } else {
        let j = if k < before.len() {
            k
        } else {
            0
        };
        lemma_operand(byte_len, before, j);
        if k < before.len() {
            assert(all.subrange(k * byte_len, (k + 1) * byte_len) =~= operand_bytes(
                byte_len,
                before,
            ).subrange(k * byte_len, (k + 1) * byte_len)) by {
                assert((k + 1) * byte_len <= (n - 1) * byte_len) by (nonlinear_arith)
                    requires
                        k + 1 <= n - 1,
                ;
            }
        } else {
            assert(all.subrange(k * byte_len, (k + 1) * byte_len) =~= le_bytes(
                operands[k] as nat,
                byte_len,
            ));
        }
    }
}

/// An encoded input can be parsed again: its first bytes are the numbers of the format, the
/// operation and the rounding mode, and the bytes after them are those of the operands, from which
/// the bits of each one can be read back.
pub proof fn law_encoded_input_parses(
    format: Format,
    codes: RoundCodes,
    op: NamedOp,
    rm: Rounding,
    picks: Seq<int>,
    k: int,
)
    requires
        format.wf(),
        op.wf(),
        forall|i: int| 0 <= i < picks.len() ==> 0 <= #[trigger] picks[i] < 10,
        0 <= k < picks.len(),
    ensures
        ({
            let bytes = entry(format, codes, op, rm, picks).bytes;
            let size = format.byte_len as int;
            &&& bytes.len() == 3 + picks.len() * size
            &&& bytes[0] == format.kind
            &&& bytes[1] == op.op.code
            &&& bytes[2] == codes.code(rm)
            &&& 3 <= 3 + k * size <= 3 + (k + 1) * size <= bytes.len()
            &&& le_value(bytes.subrange(3 + k * size, 3 + (k + 1) * size))
                == format.semantics.input_bits()[picks[k]]
        }),
{
    let size = format.byte_len as nat;
    let operands = picks.map_values(|p: int| format.semantics.input_bits()[p]);
    if format.semantics.bits() < 8 * size {
        lemma_pow2_strictly_increases(format.semantics.bits(), 8 * size);
    }
    assert forall|i: int| 0 <= i < operands.len() implies (#[trigger] operands[i]) < pow2(
        8 * size,
    ) by {
        assert(0 <= picks[i] < 10);
        lemma_inputs_fit(format.semantics, picks[i]);
    }
    lemma_operand(size, operands, k);
    lemma_le_round_trip(operands[k] as nat, size);
    let bytes = entry(format, codes, op, rm, picks).bytes;
    let body = operand_bytes(size, operands);
    assert(bytes.subrange(3 + k * size, 3 + (k + 1) * size) =~= body.subrange(
        k * size,
        (k + 1) * size,
    ));
}

/// One input is picked for each operand, out of ten.
pub open spec fn are_picks(arity: u8, picks: Seq<int>) -> bool {
    picks.len() == arity && forall|i: int| 0 <= i < picks.len() ==> 0 <= #[trigger] picks[i] < 10
}

/// The position of the picks among all ways to pick.
pub open spec fn pick_number(picks: Seq<int>) -> int
    decreases picks.len(),
{
    if picks.len() == 0 {
        0
    } else {
        10 * pick_number(picks.drop_last()) + picks.last()
    }
}

proof fn lemma_picks_are_numbered(arity: u8, chosen: Seq<int>)
    requires
        1 <= arity <= 3,
        are_picks(arity, chosen),
    ensures
        0 <= pick_number(chosen) < num_picks(arity),
        picks(arity, pick_number(chosen)) == chosen,
{
    reveal_with_fuel(pick_number, 4);
    assert(0 <= chosen[0] < 10);
    if arity == 1 {
        assert(picks(arity, pick_number(chosen)) =~= chosen);
    } else if arity == 2 {
        assert(0 <= chosen[1] < 10);
        assert(picks(arity, pick_number(chosen)) =~= chosen);
    } else {
        assert(0 <= chosen[1] < 10);
        assert(0 <= chosen[2] < 10);
        assert(picks(arity, pick_number(chosen)) =~= chosen);
    }
}

proof fn lemma_picks_are_picks(arity: u8, j: int)
    requires
        1 <= arity <= 3,
        0 <= j < num_picks(arity),
    ensures
        are_picks(arity, picks(arity, j)),
{
}

proof fn lemma_op_entries_contain(
    format: Format,
    codes: RoundCodes,
    op: NamedOp,
    rms: Seq<Rounding>,
    rm: Rounding,
    chosen: Seq<int>,
)
    requires
        op.wf(),
        rms.contains(rm),
        are_picks(op.op.arity, chosen),
    ensures
        op_entries(format, codes, op, rms).contains(entry(format, codes, op, rm, chosen)),
    decreases rms.len(),
{
    let all = op_entries(format, codes, op, rms);
    let before = op_entries(format, codes, op, rms.drop_last());
    let e = entry(format, codes, op, rm, chosen);
    let m = choose|m: int| 0 <= m < rms.len() && rms[m] == rm;
    if m == rms.len() - 1 {
        lemma_picks_are_numbered(op.op.arity, chosen);
        let j = pick_number(chosen);
        assert(mode_entries(format, codes, op, rm)[j] == e);
        assert(all[before.len() + j] == e);
    } else {
        assert(rms.drop_last()[m] == rm);
        lemma_op_entries_contain(format, codes, op, rms.drop_last(), rm, chosen);
        let j = choose|j: int| 0 <= j < before.len() && before[j] == e;
        assert(all[j] == e);
    }
}

/// The corpus of a format is the full product: it has a file for every operation, every rounding
/// mode and every choice of inputs for the operands.
pub proof fn law_corpus_is_complete(
    format: Format,
    codes: RoundCodes,
    ops: Seq<NamedOp>,
    n: int,
    rm: Rounding,
    chosen: Seq<int>,
)
    requires
        0 <= n < ops.len(),
        ops[n].wf(),
        are_picks(ops[n].op.arity, chosen),
    ensures
        format_entries(format, codes, ops).contains(entry(format, codes, ops[n], rm, chosen)),
    decreases ops.len(),
{
    let all = format_entries(format, codes, ops);
    let before = format_entries(format, codes, ops.drop_last());
    let e = entry(format, codes, ops[n], rm, chosen);
    if n == ops.len() - 1 {
        let rms = spec_round_all();
        assert(rms[0] == Rounding::NearestTiesToEven && rms[1] == Rounding::TowardPositive && rms[2]
            == Rounding::TowardNegative && rms[3] == Rounding::TowardZero && rms[4]
            == Rounding::NearestTiesToAway);
        assert(rms.contains(rm));
        let last = op_entries(format, codes, ops[n], rms);
        lemma_op_entries_contain(format, codes, ops[n], rms, rm, chosen);
        let j = choose|j: int| 0 <= j < last.len() && last[j] == e;
        assert(all[before.len() + j] == e);
    } else {
        assert(ops.drop_last()[n] == ops[n]);
        law_corpus_is_complete(format, codes, ops.drop_last(), n, rm, chosen);
        let j = choose|j: int| 0 <= j < before.len() && before[j] == e;
        assert(all[j] == e);
    }
}

/// Where a file stands among those for its operation: the rounding mode and the picks.
proof fn lemma_locate_in_op(
    format: Format,
    codes: RoundCodes,
    op: NamedOp,
    rms: Seq<Rounding>,
    p: int,
) -> (found: (int, int))
    requires
        0 <= p < op_entries(format, codes, op, rms).len(),
    ensures
        0 <= found.0 < rms.len(),
        0 <= found.1 < num_picks(op.op.arity),
        p == found.0 * num_picks(op.op.arity) + found.1,
        op_entries(format, codes, op, rms)[p] == entry(
            format,
            codes,
            op,
            rms[found.0],
            picks(op.op.arity, found.1),
        ),
    decreases rms.len(),
{
    let before = op_entries(format, codes, op, rms.drop_last());
    if p < before.len() {
        lemma_locate_in_op(format, codes, op, rms.drop_last(), p)
    } else {
        lemma_op_entries_len(format, codes, op, rms.drop_last());
        (rms.len() - 1, p - before.len())
    }
}

/// Where a file stands among those for its format: the operation, and the place among its files.
proof fn lemma_locate_in_format(
    format: Format,
    codes: RoundCodes,
    ops: Seq<NamedOp>,
    p: int,
) -> (found: (int, int))
    requires
        0 <= p < format_entries(format, codes, ops).len(),
    ensures
        0 <= found.0 < ops.len(),
        0 <= found.1 < op_entries(format, codes, ops[found.0], spec_round_all()).len(),
        p == num_files(ops.take(found.0)) + found.1,
        format_entries(format, codes, ops)[p] == op_entries(
            format,
            codes,
            ops[found.0],
            spec_round_all(),
        )[found.1],
    decreases ops.len(),
{
    let rest = ops.drop_last();
    let before = format_entries(format, codes, rest);
    if p < before.len() {
        let found = lemma_locate_in_format(format, codes, rest, p);
        assert(rest.take(found.0) =~= ops.take(found.0));
        found
    } else {
        law_number_of_files(format, codes, rest);
        assert(ops.take(ops.len() - 1) =~= rest);
        (ops.len() - 1, p - before.len())
    }
}

/// The corpus of a format holds nothing but files for its operations, in a rounding mode, on
/// inputs picked for the operands.
pub proof fn law_corpus_is_sound(format: Format, codes: RoundCodes, ops: Seq<NamedOp>, p: int)
    requires
        forall|k: int| 0 <= k < ops.len() ==> (#[trigger] ops[k]).wf(),
        0 <= p < format_entries(format, codes, ops).len(),
    ensures
        exists|n: int, rm: Rounding, chosen: Seq<int>|
            0 <= n < ops.len() && are_picks(ops[n].op.arity, chosen) && format_entries(
                format,
                codes,
                ops,
            )[p] == #[trigger] entry(format, codes, ops[n], rm, chosen),
{
    let (n, rm, chosen) = lemma_locate_file(format, codes, ops, p);
    assert(format_entries(format, codes, ops)[p] == entry(format, codes, ops[n], rm, chosen));
}

/// The files for one list of operations are followed by those for another.
pub proof fn law_files_follow_the_ops(
    format: Format,
    codes: RoundCodes,
    ops: Seq<NamedOp>,
    more: Seq<NamedOp>,
)
    ensures
        format_entries(format, codes, ops + more) == format_entries(format, codes, ops)
            + format_entries(format, codes, more),
        num_files(ops + more) == num_files(ops) + num_files(more),
    decreases more.len(),
{
    let both = format_entries(format, codes, ops + more);
    if more.len() == 0 {
        assert(ops + more =~= ops);
        assert(both =~= format_entries(format, codes, ops) + format_entries(format, codes, more));
    } else {
        assert((ops + more).drop_last() =~= ops + more.drop_last());
        law_files_follow_the_ops(format, codes, ops, more.drop_last());
        assert(both =~= format_entries(format, codes, ops) + format_entries(format, codes, more));
    }
}

/// The bytes of a number are its digits to the base 256.
proof fn lemma_le_byte(value: nat, n: nat, b: nat)
    requires
        b < n,
    ensures
        le_bytes(value, n).len() == n,
        le_bytes(value, n)[b as int] == (value / pow2(8 * b)) % 256,
    decreases n,
{
    vstd::arithmetic::power2::lemma2_to64();
    lemma_le_len(value, n);
    if b > 0 {
        let c = (b - 1) as nat;
        lemma_le_byte(value / 256, (n - 1) as nat, c);
        lemma_pow2_adds(8, 8 * c);
        vstd::arithmetic::power2::lemma_pow2_pos(8 * c);
        vstd::arithmetic::div_mod::lemma_div_denominator(value as int, 256, pow2(8 * c) as int);
    } else {
        assert(value / pow2(0) == value);
    }
}

proof fn lemma_le_len(value: nat, n: nat)
    ensures
        le_bytes(value, n).len() == n,
    decreases n,
{
    if n > 0 {
        lemma_le_len(value / 256, (n - 1) as nat);
    }
}

/// Where the bytes of an operand stand among those of all operands.
proof fn lemma_operand_byte(byte_len: nat, operands: Seq<u128>, i: int, b: nat)
    requires
        0 <= i < operands.len(),
        b < byte_len,
    ensures
        operand_bytes(byte_len, operands).len() == operands.len() * byte_len,
        0 <= i * byte_len + b < operands.len() * byte_len,
        operand_bytes(byte_len, operands)[i * byte_len + b] == (operands[i] as nat / pow2(8 * b))
            % 256,
    decreases operands.len(),
{
    let n = operands.len();
    let before = operands.drop_last();
    lemma_operand_len(byte_len, operands);
    lemma_operand_len(byte_len, before);
    lemma_le_byte(operands.last() as nat, byte_len, b);
    assert(n * byte_len == (n - 1) * byte_len + byte_len) by (nonlinear_arith);
    assert(0 <= i * byte_len && i * byte_len + byte_len <= n * byte_len) by (nonlinear_arith)
        requires
            0 <= i,
            i + 1 <= n,
    ;
    if i < n - 1 {
        lemma_operand_byte(byte_len, before, i, b);
        assert(before[i] == operands[i]);
    }
}

proof fn lemma_operand_len(byte_len: nat, operands: Seq<u128>)
    ensures
        operand_bytes(byte_len, operands).len() == operands.len() * byte_len,
    decreases operands.len(),
{
    let n = operands.len();
    if n == 0 {
        assert(0 * byte_len == 0);
    } else {
        lemma_operand_len(byte_len, operands.drop_last());
        lemma_le_len(operands.last() as nat, byte_len);
        assert(n * byte_len == (n - 1) * byte_len + byte_len) by (nonlinear_arith);
    }
}

/// How many choices of inputs an operation has: ten for each operand.
proof fn lemma_files_of_one_op(format: Format, codes: RoundCodes, op: NamedOp, m: int, j: int)
    requires
        0 <= m < 5,
        0 <= j < num_picks(op.op.arity),
    ensures
        format_entries(format, codes, seq![op]).len() == 5 * num_picks(op.op.arity),
        0 <= m * num_picks(op.op.arity) + j < 5 * num_picks(op.op.arity),
        format_entries(format, codes, seq![op])[m * num_picks(op.op.arity) + j] == entry(
            format,
            codes,
            op,
            spec_round_all()[m],
            picks(op.op.arity, j),
        ),
{
    let n = num_picks(op.op.arity) as int;
    let all = op_entries(format, codes, op, spec_round_all());
    assert(seq![op].drop_last() =~= Seq::<NamedOp>::empty());
    assert(format_entries(format, codes, seq![op].drop_last()) =~= Seq::empty());
    assert(format_entries(format, codes, seq![op]) =~= all);
    lemma_op_entries_len(format, codes, op, spec_round_all());
    assert(0 <= m * n && m * n + n <= 5 * n) by (nonlinear_arith)
        requires
            0 <= m < 5,
            n > 0,
    ;
    let (k, i) = lemma_locate_in_op(format, codes, op, spec_round_all(), m * n + j);
    lemma_fundamental_div_mod_converse(m * n + j, n, m, j);
    lemma_fundamental_div_mod_converse(m * n + j, n, k, i);
}

/// The files for an operation: five times as many as there are choices, ten for each operand. The
/// rounding modes come one after the other, and for each mode the inputs picked count up, read as
/// a number of decimal digits.
///
/// The name of a file joins the names of the format, the operation and the rounding mode and the
/// numbers of the inputs by hyphens. Its bytes are the numbers of the format, the operation and the
/// rounding mode, followed by the inputs, the lowest byte of each one first.
pub proof fn law_file_for(
    format: Format,
    codes: RoundCodes,
    op: NamedOp,
    m: int,
    x: int,
    y: int,
    z: int,
)
    requires
        format.wf(),
        op.wf(),
        0 <= m < 5,
        0 <= x < 10,
        0 <= y < 10,
        0 <= z < 10,
    ensures
        ({
            let files = format_entries(format, codes, seq![op]);
            let arity = op.op.arity;
            let (choices, at, chosen) = if arity == 1 {
                (10int, x, seq![x])
            } else if arity == 2 {
                (100int, 10 * x + y, seq![x, y])
            } else {
                (1000int, 100 * x + 10 * y + z, seq![x, y, z])
            };
            let file = files[m * choices + at];
            let (mode, code) = if m == 0 {
                ("NearestTiesToEven"@, codes.nearest_ties_to_even)
            } else if m == 1 {
                ("TowardPositive"@, codes.toward_positive)
            } else if m == 2 {
                ("TowardNegative"@, codes.toward_negative)
            } else if m == 3 {
                ("TowardZero"@, codes.toward_zero)
            } else {
                ("NearestTiesToAway"@, codes.nearest_ties_to_away)
            };
            let desc = if arity == 1 {
                seq![(48 + x) as char]
            } else if arity == 2 {
                seq![(48 + x) as char, '-', (48 + y) as char]
            } else {
                seq![(48 + x) as char, '-', (48 + y) as char, '-', (48 + z) as char]
            };
            let size = format.byte_len as int;
            &&& files.len() == 5 * choices
            &&& 0 <= m * choices + at < files.len()
            &&& file.name == format.short_lowercase_name@ + seq!['-'] + op.name@ + seq!['-'] + mode
                + seq!['-'] + desc
            &&& file.bytes.len() == 3 + arity * size
            &&& file.bytes[0] == format.kind
            &&& file.bytes[1] == op.op.code
            &&& file.bytes[2] == code
            &&& forall|i: int, b: nat|
                0 <= i < arity && b < size ==> #[trigger] file.bytes[3 + (i * size + b)] == (
                format.semantics.input_bits()[chosen[i]] as nat / pow2(8 * b)) % 256
        }),
{
    let arity = op.op.arity;
    let (at, chosen) = if arity == 1 {
        (x, seq![x])
    } else if arity == 2 {
        (10 * x + y, seq![x, y])
    } else {
        (100 * x + 10 * y + z, seq![x, y, z])
    };
    lemma_files_of_one_op(format, codes, op, m, at);
    assert(picks(arity, at) =~= chosen);
    let rm = spec_round_all()[m];
    let file = entry(format, codes, op, rm, chosen);
    let size = format.byte_len as nat;
    let desc = if arity == 1 {
        seq![(48 + x) as char]
    } else if arity == 2 {
        seq![(48 + x) as char, '-', (48 + y) as char]
    } else {
        seq![(48 + x) as char, '-', (48 + y) as char, '-', (48 + z) as char]
    };
    assert(input_desc(chosen) =~= desc) by {
        lemma_desc_of_digits(x, y, z);
    }
    let operands = chosen.map_values(|p: int| format.semantics.input_bits()[p]);
    lemma_operand_len(size, operands);
    assert forall|i: int, b: nat| 0 <= i < arity && b < size implies #[trigger] file.bytes[3 + (i
        * size + b)] == (format.semantics.input_bits()[chosen[i]] as nat / pow2(8 * b)) % 256 by {
        lemma_operand_byte(size, operands, i, b);
        assert(operands[i] == format.semantics.input_bits()[chosen[i]]);
    }
}

proof fn lemma_desc_of_digits(x: int, y: int, z: int)
    ensures
        input_desc(seq![x]) == seq![(48 + x) as char],
        input_desc(seq![x, y]) == seq![(48 + x) as char, '-', (48 + y) as char],
        input_desc(seq![x, y, z]) == seq![
            (48 + x) as char,
            '-',
            (48 + y) as char,
            '-',
            (48 + z) as char,
        ],
{
    assert(seq![x, y].drop_last() =~= seq![x]);
    assert(seq![x, y, z].drop_last() =~= seq![x, y]);
    assert(input_desc(seq![x]) =~= seq![(48 + x) as char]);
    assert(input_desc(seq![x, y]) =~= seq![(48 + x) as char, '-', (48 + y) as char]);
    assert(input_desc(seq![x, y, z]) =~= seq![
        (48 + x) as char,
        '-',
        (48 + y) as char,
        '-',
        (48 + z) as char,
    ]);
}

/// What a file is known by is its name and its bytes.
pub proof fn law_view_of_a_file(file: Entry)
    ensures
        file@.name == file.name@,
        file@.bytes == file.bytes@,
{
}

/// A name without hyphens.
pub open spec fn has_no_hyphen(name: Seq<char>) -> bool {
    forall|i: int| 0 <= i < name.len() ==> #[trigger] name[i] != '-'
}

/// The first hyphen ends a name without hyphens.
proof fn lemma_cut_at_hyphen(x: Seq<char>, u: Seq<char>, y: Seq<char>, v: Seq<char>)
    requires
        has_no_hyphen(x),
        has_no_hyphen(y),
        x + seq!['-'] + u == y + seq!['-'] + v,
    ensures
        x == y,
        u == v,
{
    let left = x + seq!['-'] + u;
    let right = y + seq!['-'] + v;
    if x.len() < y.len() {
        assert(left[x.len() as int] == '-');
        assert(right[x.len() as int] == y[x.len() as int]);
    }
    if y.len() < x.len() {
        assert(right[y.len() as int] == '-');
        assert(left[y.len() as int] == x[y.len() as int]);
    }
    assert forall|i: int| 0 <= i < x.len() implies x[i] == y[i] by {
        assert(left[i] == x[i]);
        assert(right[i] == y[i]);
    }
    assert(x =~= y);
    assert(left.len() == x.len() + 1 + u.len());
    assert(right.len() == y.len() + 1 + v.len());
    assert forall|i: int| 0 <= i < u.len() implies u[i] == v[i] by {
        assert(left[x.len() + 1 + i] == u[i]);
        assert(right[x.len() + 1 + i] == v[i]);
    }
    assert(u =~= v);
}

/// The last hyphen starts a name without hyphens.
proof fn lemma_cut_at_last_hyphen(u: Seq<char>, x: Seq<char>, v: Seq<char>, y: Seq<char>)
    requires
        has_no_hyphen(x),
        has_no_hyphen(y),
        u + seq!['-'] + x == v + seq!['-'] + y,
    ensures
        u == v,
        x == y,
{
    let left = u + seq!['-'] + x;
    let right = v + seq!['-'] + y;
    assert(left.len() == u.len() + 1 + x.len());
    assert(right.len() == v.len() + 1 + y.len());
    if x.len() < y.len() {
        assert(left[u.len() as int] == '-');
        assert(right[u.len() as int] == y[u.len() - v.len() - 1]);
    }
    if y.len() < x.len() {
        assert(right[v.len() as int] == '-');
        assert(left[v.len() as int] == x[v.len() - u.len() - 1]);
    }
    lemma_cancel_end(u + seq!['-'], x, v + seq!['-'], y);
    lemma_cancel_end(u, seq!['-'], v, seq!['-']);
}

/// Two sequences with the same beginning are equal only if their ends are.
proof fn lemma_cancel(x: Seq<char>, u: Seq<char>, v: Seq<char>)
    requires
        x + u == x + v,
    ensures
        u == v,
{
    assert((x + u).len() == x.len() + u.len());
    assert((x + v).len() == x.len() + v.len());
    assert forall|i: int| 0 <= i < u.len() implies u[i] == v[i] by {
        assert((x + u)[x.len() + i] == u[i]);
        assert((x + v)[x.len() + i] == v[i]);
    }
    assert(u =~= v);
}

/// Two sequences with ends of the same length are equal only if their ends and beginnings are.
proof fn lemma_cancel_end(u: Seq<char>, x: Seq<char>, v: Seq<char>, y: Seq<char>)
    requires
        u + x == v + y,
        x.len() == y.len(),
    ensures
        u == v,
        x == y,
{
    assert((u + x).len() == u.len() + x.len());
    assert((v + y).len() == v.len() + y.len());
    assert forall|i: int| 0 <= i < u.len() implies u[i] == v[i] by {
        assert((u + x)[i] == u[i]);
        assert((v + y)[i] == v[i]);
    }
    assert(u =~= v);
    lemma_cancel(u, x, y);
}

/// A character of a description of inputs.
spec fn is_desc_char(c: char) -> bool {
    c == '-' || 48 <= c as int <= 57
}

proof fn lemma_input_desc_shape(arity: u8, p: Seq<int>)
    requires
        1 <= arity <= 3,
        are_picks(arity, p),
    ensures
        input_desc(p).len() == 2 * arity - 1,
        forall|i: int| 0 <= i < input_desc(p).len() ==> is_desc_char(#[trigger] input_desc(p)[i]),
{
    reveal_with_fuel(input_desc, 4);
    assert(0 <= p[0] < 10);
    if arity >= 2 {
        assert(0 <= p[1] < 10);
    }
    if arity >= 3 {
        assert(0 <= p[2] < 10);
    }
}

/// The name of a rounding mode ends in a letter, and can be told from what ends with it.
proof fn lemma_rounding_names(u: Seq<char>, a: Rounding, v: Seq<char>, b: Rounding)
    ensures
        a.name().len() >= 10,
        !is_desc_char(a.name().last()),
        u + a.name() == v + b.name() ==> a == b,
{
    reveal_strlit("NearestTiesToEven");
    reveal_strlit("TowardPositive");
    reveal_strlit("TowardNegative");
    reveal_strlit("TowardZero");
    reveal_strlit("NearestTiesToAway");
    if u + a.name() == v + b.name() {
        let left = u + a.name();
        let right = v + b.name();
        let (m, n) = (a.name().len() as int, b.name().len() as int);
        assert(left[left.len() - 1] == a.name()[m - 1]);
        assert(right[right.len() - 1] == b.name()[n - 1]);
        assert(left[left.len() - 5] == a.name()[m - 5]);
        assert(right[right.len() - 5] == b.name()[n - 5]);
    }
}

/// What follows the name of the format can be told apart from its end: the numbers of the inputs
/// are digits and hyphens, and the rounding mode before them ends in a letter.
proof fn lemma_read_from_end(
    o: Seq<char>,
    a: Rounding,
    p: Seq<int>,
    s: u8,
    x: Seq<char>,
    b: Rounding,
    q: Seq<int>,
    t: u8,
)
    requires
        1 <= s <= 3,
        1 <= t <= 3,
        are_picks(s, p),
        are_picks(t, q),
        o + seq!['-'] + a.name() + (seq!['-'] + input_desc(p)) == x + seq!['-'] + b.name() + (seq![
            '-',
        ] + input_desc(q)),
    ensures
        o == x,
        a == b,
        input_desc(p) == input_desc(q),
{
    let (d, e) = (seq!['-'] + input_desc(p), seq!['-'] + input_desc(q));
    let (l, m) = (o + seq!['-'] + a.name(), x + seq!['-'] + b.name());
    let left = l + d;
    let right = m + e;
    lemma_input_desc_shape(s, p);
    lemma_input_desc_shape(t, q);
    lemma_rounding_names(o + seq!['-'], a, x + seq!['-'], b);
    lemma_rounding_names(x + seq!['-'], b, o + seq!['-'], a);
    assert(left.len() == l.len() + d.len());
    assert(right.len() == m.len() + e.len());
    assert(left[l.len() - 1] == a.name().last());
    assert(right[m.len() - 1] == b.name().last());
    if s < t {
        assert(right[l.len() - 1] == input_desc(q)[l.len() - 2 - m.len()]);
    }
    if t < s {
        assert(left[m.len() - 1] == input_desc(p)[m.len() - 2 - l.len()]);
    }
    lemma_cancel_end(l, d, m, e);
    lemma_cancel(seq!['-'], input_desc(p), input_desc(q));
    lemma_cancel_end(o + seq!['-'], a.name(), x + seq!['-'], b.name());
    lemma_cancel_end(o, seq!['-'], x, seq!['-']);
}

/// The numbers of the inputs can be told from their description.
proof fn lemma_input_desc(arity: u8, p: Seq<int>, q: Seq<int>)
    requires
        1 <= arity <= 3,
        are_picks(arity, p),
        are_picks(arity, q),
        input_desc(p) == input_desc(q),
    ensures
        p == q,
{
    reveal_with_fuel(input_desc, 4);
    let d = input_desc(p);
    let e = input_desc(q);
    assert(0 <= p[0] < 10 && 0 <= q[0] < 10);
    assert(d[0] == digit_char(p[0]) && e[0] == digit_char(q[0]));
    if arity >= 2 {
        assert(0 <= p[1] < 10 && 0 <= q[1] < 10);
        assert(d[2] == digit_char(p[1]) && e[2] == digit_char(q[1]));
    }
    if arity >= 3 {
        assert(0 <= p[2] < 10 && 0 <= q[2] < 10);
        assert(d[4] == digit_char(p[2]) && e[4] == digit_char(q[2]));
    }
    assert(p =~= q);
}

/// What the name of a file starts with: the names of the format and the operation, joined by a
/// hyphen.
pub open spec fn stem(format_name: Seq<char>, op_name: Seq<char>) -> Seq<char> {
    format_name + seq!['-'] + op_name
}

/// The stem, the rounding mode and the inputs can be told from the name of a file.
proof fn lemma_file_name_tells(
    f: Seq<char>,
    o: Seq<char>,
    a: Rounding,
    p: Seq<int>,
    s: u8,
    g: Seq<char>,
    x: Seq<char>,
    b: Rounding,
    q: Seq<int>,
    t: u8,
)
    requires
        1 <= s <= 3,
        1 <= t <= 3,
        are_picks(s, p),
        are_picks(t, q),
        file_name(f, o, a, p) == file_name(g, x, b, q),
    ensures
        stem(f, o) == stem(g, x),
        a == b,
        p == q,
{
    assert(file_name(f, o, a, p) =~= stem(f, o) + seq!['-'] + a.name() + (seq!['-'] + input_desc(
        p,
    )));
    assert(file_name(g, x, b, q) =~= stem(g, x) + seq!['-'] + b.name() + (seq!['-'] + input_desc(
        q,
    )));
    lemma_read_from_end(stem(f, o), a, p, s, stem(g, x), b, q, t);
    lemma_input_desc_shape(s, p);
    lemma_input_desc_shape(t, q);
    lemma_input_desc(s, p, q);
}

/// Two files have the same name exactly if their rounding modes and inputs are the same, and so are
/// the names of their formats and operations once they are joined.
pub proof fn law_when_names_collide(
    f: Format,
    g: Format,
    codes: RoundCodes,
    o: NamedOp,
    x: NamedOp,
    a: Rounding,
    b: Rounding,
    p: Seq<int>,
    q: Seq<int>,
)
    requires
        o.wf(),
        x.wf(),
        are_picks(o.op.arity, p),
        are_picks(x.op.arity, q),
    ensures
        entry(f, codes, o, a, p).name == entry(g, codes, x, b, q).name <==> (a == b && p == q
            && stem(f.short_lowercase_name@, o.name@) == stem(g.short_lowercase_name@, x.name@)),
{
    let (f_name, g_name) = (f.short_lowercase_name@, g.short_lowercase_name@);
    if entry(f, codes, o, a, p).name == entry(g, codes, x, b, q).name {
        lemma_file_name_tells(
            f_name,
            o.name@,
            a,
            p,
            o.op.arity,
            g_name,
            x.name@,
            b,
            q,
            x.op.arity,
        );
    }
}

/// No two files of a format have the same name, as long as the operations have different names:
/// none overwrites another.
pub proof fn law_file_names_are_distinct(
    format: Format,
    codes: RoundCodes,
    ops: Seq<NamedOp>,
    p: int,
    q: int,
)
    requires
        forall|k: int| 0 <= k < ops.len() ==> (#[trigger] ops[k]).wf(),
        forall|k: int, l: int|
            0 <= k < l < ops.len() ==> (#[trigger] ops[k]).name@ != (#[trigger] ops[l]).name@,
        0 <= p < q < format_entries(format, codes, ops).len(),
    ensures
        format_entries(format, codes, ops)[p].name != format_entries(format, codes, ops)[q].name,
{
    let all = format_entries(format, codes, ops);
    let rms = spec_round_all();
    let (n1, r1) = lemma_locate_in_format(format, codes, ops, p);
    let (n2, r2) = lemma_locate_in_format(format, codes, ops, q);
    let (m1, j1) = lemma_locate_in_op(format, codes, ops[n1], rms, r1);
    let (m2, j2) = lemma_locate_in_op(format, codes, ops[n2], rms, r2);
    let (s, t) = (ops[n1].op.arity, ops[n2].op.arity);
    if all[p].name == all[q].name {
        lemma_picks_are_picks(s, j1);
        lemma_picks_are_picks(t, j2);
        lemma_file_name_tells(
            format.short_lowercase_name@,
            ops[n1].name@,
            rms[m1],
            picks(s, j1),
            s,
            format.short_lowercase_name@,
            ops[n2].name@,
            rms[m2],
            picks(t, j2),
            t,
        );
        lemma_cancel(format.short_lowercase_name@ + seq!['-'], ops[n1].name@, ops[n2].name@);
        assert(n1 == n2);
        lemma_rounding_modes_are_distinct(m1, m2);
        lemma_picks_are_different(s, j1, j2);
        assert(false);
    }
}

proof fn lemma_rounding_modes_are_distinct(m: int, n: int)
    requires
        0 <= m < 5,
        0 <= n < 5,
        spec_round_all()[m] == spec_round_all()[n],
    ensures
        m == n,
{
}

/// The picks give their own position back.
proof fn lemma_number_of_picks(arity: u8, j: int)
    requires
        1 <= arity <= 3,
        0 <= j < num_picks(arity),
    ensures
        pick_number(picks(arity, j)) == j,
{
    reveal_with_fuel(pick_number, 4);
    let chosen = picks(arity, j);
    if arity == 2 {
        assert(chosen.drop_last() =~= seq![j / 10]);
    } else if arity == 3 {
        assert(chosen.drop_last() =~= seq![j / 100, (j / 10) % 10]);
        assert(chosen.drop_last().drop_last() =~= seq![j / 100]);
        assert(j / 100 == (j / 10) / 10);
    }
}

proof fn lemma_picks_are_different(arity: u8, i: int, j: int)
    requires
        1 <= arity <= 3,
        0 <= i < num_picks(arity),
        0 <= j < num_picks(arity),
        picks(arity, i) == picks(arity, j),
    ensures
        i == j,
{
    lemma_number_of_picks(arity, i);
    lemma_number_of_picks(arity, j);
}

/// A name without hyphens on either side of the hyphen of a stem is enough to tell both names.
proof fn lemma_stem_tells(f: Seq<char>, o: Seq<char>, g: Seq<char>, x: Seq<char>)
    requires
        stem(f, o) == stem(g, x),
        (has_no_hyphen(f) && has_no_hyphen(g)) || (has_no_hyphen(o) && has_no_hyphen(x)),
    ensures
        f == g,
        o == x,
{
    if has_no_hyphen(f) && has_no_hyphen(g) {
        lemma_cut_at_hyphen(f, o, g, x);
    } else {
        lemma_cut_at_last_hyphen(f, o, g, x);
    }
}

/// The operation, the rounding mode and the inputs that a file is for.
proof fn lemma_locate_file(
    format: Format,
    codes: RoundCodes,
    ops: Seq<NamedOp>,
    p: int,
) -> (found: (int, Rounding, Seq<int>))
    requires
        forall|k: int| 0 <= k < ops.len() ==> (#[trigger] ops[k]).wf(),
        0 <= p < format_entries(format, codes, ops).len(),
    ensures
        0 <= found.0 < ops.len(),
        are_picks(ops[found.0].op.arity, found.2),
        format_entries(format, codes, ops)[p] == entry(
            format,
            codes,
            ops[found.0],
            found.1,
            found.2,
        ),
{
    let (n, r) = lemma_locate_in_format(format, codes, ops, p);
    let (m, j) = lemma_locate_in_op(format, codes, ops[n], spec_round_all(), r);
    lemma_picks_are_picks(ops[n].op.arity, j);
    (n, spec_round_all()[m], picks(ops[n].op.arity, j))
}

/// Two files with the same name are for operations whose stems are the same.
proof fn lemma_collision(
    f: Format,
    g: Format,
    codes: RoundCodes,
    ops: Seq<NamedOp>,
    p: int,
    q: int,
) -> (found: (int, int))
    requires
        forall|k: int| 0 <= k < ops.len() ==> (#[trigger] ops[k]).wf(),
        0 <= p < format_entries(f, codes, ops).len(),
        0 <= q < format_entries(g, codes, ops).len(),
        format_entries(f, codes, ops)[p].name == format_entries(g, codes, ops)[q].name,
    ensures
        0 <= found.0 < ops.len(),
        0 <= found.1 < ops.len(),
        stem(f.short_lowercase_name@, ops[found.0].name@) == stem(
            g.short_lowercase_name@,
            ops[found.1].name@,
        ),
{
    let (m, a, chosen) = lemma_locate_file(f, codes, ops, p);
    let (n, b, other) = lemma_locate_file(g, codes, ops, q);
    law_when_names_collide(f, g, codes, ops[m], ops[n], a, b, chosen, other);
    (m, n)
}

/// Files of different formats have different names, as long as the formats have different names
/// without hyphens.
pub proof fn law_formats_do_not_collide(
    f: Format,
    g: Format,
    codes: RoundCodes,
    ops: Seq<NamedOp>,
    p: int,
    q: int,
)
    requires
        forall|k: int| 0 <= k < ops.len() ==> (#[trigger] ops[k]).wf(),
        has_no_hyphen(f.short_lowercase_name@),
        has_no_hyphen(g.short_lowercase_name@),
        f.short_lowercase_name@ != g.short_lowercase_name@,
        0 <= p < format_entries(f, codes, ops).len(),
        0 <= q < format_entries(g, codes, ops).len(),
    ensures
        format_entries(f, codes, ops)[p].name != format_entries(g, codes, ops)[q].name,
{
    if format_entries(f, codes, ops)[p].name == format_entries(g, codes, ops)[q].name {
        let (m, n) = lemma_collision(f, g, codes, ops, p, q);
        lemma_stem_tells(
            f.short_lowercase_name@,
            ops[m].name@,
            g.short_lowercase_name@,
            ops[n].name@,
        );
    }
}

/// Files of different formats have different names, whatever the different names of the formats
/// hold, as long as the names of the operations hold no hyphen.
pub proof fn law_formats_do_not_collide_for_plain_ops(
    f: Format,
    g: Format,
    codes: RoundCodes,
    ops: Seq<NamedOp>,
    p: int,
    q: int,
)
    requires
        forall|k: int| 0 <= k < ops.len() ==> (#[trigger] ops[k]).wf(),
        forall|k: int| 0 <= k < ops.len() ==> has_no_hyphen((#[trigger] ops[k]).name@),
        f.short_lowercase_name@ != g.short_lowercase_name@,
        0 <= p < format_entries(f, codes, ops).len(),
        0 <= q < format_entries(g, codes, ops).len(),
    ensures
        format_entries(f, codes, ops)[p].name != format_entries(g, codes, ops)[q].name,
{
    if format_entries(f, codes, ops)[p].name == format_entries(g, codes, ops)[q].name {
        let (m, n) = lemma_collision(f, g, codes, ops, p, q);
        lemma_stem_tells(
            f.short_lowercase_name@,
            ops[m].name@,
            g.short_lowercase_name@,
            ops[n].name@,
        );
    }
}

/// No two pairs of a format and an operation have the same names once these are joined.
pub open spec fn stems_are_distinct(formats: Seq<Format>, ops: Seq<NamedOp>) -> bool {
    forall|i: int, k: int, j: int, l: int|
        0 <= i < formats.len() && 0 <= j < formats.len() && 0 <= k < ops.len() && 0 <= l < ops.len()
            && #[trigger] stem(formats[i].short_lowercase_name@, ops[k].name@) == #[trigger] stem(
            formats[j].short_lowercase_name@,
            ops[l].name@,
        ) ==> i == j && k == l
}

/// Different names, without hyphens for the formats or without hyphens for the operations, give
/// different stems.
pub proof fn law_plain_names_give_distinct_stems(formats: Seq<Format>, ops: Seq<NamedOp>)
    requires
        forall|i: int, j: int|
            0 <= i < j < formats.len() ==> (#[trigger] formats[i]).short_lowercase_name@ != (
            #[trigger] formats[j]).short_lowercase_name@,
        forall|k: int, l: int|
            0 <= k < l < ops.len() ==> (#[trigger] ops[k]).name@ != (#[trigger] ops[l]).name@,
        (forall|i: int|
            0 <= i < formats.len() ==> has_no_hyphen((#[trigger] formats[i]).short_lowercase_name@))
            || (forall|k: int|
            0 <= k < ops.len() ==> has_no_hyphen((#[trigger] ops[k]).name@)),
    ensures
        stems_are_distinct(formats, ops),
{
    assert forall|i: int, k: int, j: int, l: int|
        0 <= i < formats.len() && 0 <= j < formats.len() && 0 <= k < ops.len() && 0 <= l < ops.len()
            && #[trigger] stem(formats[i].short_lowercase_name@, ops[k].name@) == #[trigger] stem(
            formats[j].short_lowercase_name@,
            ops[l].name@,
        ) implies i == j && k == l by {
        lemma_stem_tells(
            formats[i].short_lowercase_name@,
            ops[k].name@,
            formats[j].short_lowercase_name@,
            ops[l].name@,
        );
    }
}

/// No two files of a whole corpus have the same name, as long as the stems differ: in the end there
/// are as many files as were written.
pub proof fn law_corpus_names_are_distinct(
    formats: Seq<Format>,
    codes: RoundCodes,
    ops: Seq<NamedOp>,
    i: int,
    p: int,
    j: int,
    q: int,
)
    requires
        forall|k: int| 0 <= k < ops.len() ==> (#[trigger] ops[k]).wf(),
        stems_are_distinct(formats, ops),
        0 <= i < formats.len(),
        0 <= j < formats.len(),
        0 <= p < format_entries(formats[i], codes, ops).len(),
        0 <= q < format_entries(formats[j], codes, ops).len(),
        i != j || p != q,
    ensures
        format_entries(formats[i], codes, ops)[p].name != format_entries(
            formats[j],
            codes,
            ops,
        )[q].name,
{
    if i != j {
        if format_entries(formats[i], codes, ops)[p].name == format_entries(
            formats[j],
            codes,
            ops,
        )[q].name {
            let (m, n) = lemma_collision(formats[i], formats[j], codes, ops, p, q);
            assert(false);
        }
    } else {
        assert forall|k: int, l: int| 0 <= k < l < ops.len() implies (#[trigger] ops[k]).name@ != (
        #[trigger] ops[l]).name@ by {
            let name = formats[i].short_lowercase_name@;
            if ops[k].name@ == ops[l].name@ {
                assert(stem(name, ops[k].name@) == stem(name, ops[l].name@));
            }
        }
        if p < q {
            law_file_names_are_distinct(formats[i], codes, ops, p, q);
        } else {
            law_file_names_are_distinct(formats[i], codes, ops, q, p);
        }
    }
}

} // verus!
