//! The inputs that a fuzzer starts from: small files, each with an encoded operation, rounding mode
//! and operands.

use num_traits::ToPrimitive;

use vstd::prelude::*;
use vstd::string::StringExecFns;

use crate::cases::Op;
use crate::rounding::debug_name;
use crate::rounding::round_all;
use crate::rounding::spec_round_all;
use crate::rounding::RoundCodes;
use crate::rounding::Rounding;
use crate::semantics::inputs;
use crate::semantics::Semantics;

verus! {

/// A float format as encoded inputs refer to it.
#[derive(Debug)]
pub struct Format {
    pub semantics: Semantics,
    /// The number that stands for the format.
    pub kind: u64,
    /// How many bytes an operand takes.
    pub byte_len: usize,
    pub short_lowercase_name: String,
}

impl Format {
    /// The number of the format fits the byte that holds it, and its floats fit their bytes.
    pub open spec fn wf(self) -> bool {
        self.kind <= u8::MAX && self.semantics.bits() <= 8 * self.byte_len
    }
}

/// An operation with its name.
#[derive(Debug)]
pub struct NamedOp {
    pub op: Op,
    pub name: String,
}

impl NamedOp {
    /// The number of the operation fits the byte that holds it.
    pub open spec fn wf(self) -> bool {
        self.op.wf() && self.op.code <= u8::MAX
    }
}

/// A file of the corpus.
#[derive(Debug)]
pub struct Entry {
    pub name: String,
    pub bytes: Vec<u8>,
}

/// A file of the corpus: its name and what it holds.
pub struct EntryView {
    pub name: Seq<char>,
    pub bytes: Seq<u8>,
}

impl View for Entry {
    type V = EntryView;

    open spec fn view(&self) -> EntryView {
        EntryView { name: self.name@, bytes: self.bytes@ }
    }
}

/// The lowest `n` bytes of a number, the lowest one first.
pub open spec fn le_bytes(value: nat, n: nat) -> Seq<u8>
    decreases n,
{
    if n == 0 {
        Seq::empty()
    } else {
        seq![(value % 256) as u8] + le_bytes(value / 256, (n - 1) as nat)
    }
}

/// Operands one after the other, `byte_len` bytes each.
pub open spec fn operand_bytes(byte_len: nat, operands: Seq<u128>) -> Seq<u8>
    decreases operands.len(),
{
    if operands.len() == 0 {
        Seq::empty()
    } else {
        operand_bytes(byte_len, operands.drop_last()) + le_bytes(operands.last() as nat, byte_len)
    }
}

/// An encoded input: the numbers of the format, the operation and the rounding mode, then the
/// operands.
pub open spec fn encoded(
    format: Format,
    op: Op,
    round_code: u8,
    operands: Seq<u128>,
) -> Seq<u8> {
    seq![format.kind as u8, op.code as u8, round_code] + operand_bytes(
        format.byte_len as nat,
        operands,
    )
}

/// The digit for a number below ten.
pub open spec fn digit_char(d: int) -> char {
    (48 + d) as char
}

/// The numbers of the inputs of a case, joined by hyphens.
pub open spec fn input_desc(picks: Seq<int>) -> Seq<char>
    decreases picks.len(),
{
    if picks.len() == 0 {
        Seq::empty()
    } else if picks.len() == 1 {
        seq![digit_char(picks[0])]
    } else {
        input_desc(picks.drop_last()) + seq!['-', digit_char(picks.last())]
    }
}

/// The name of a file: format, operation, rounding mode and inputs, joined by hyphens.
pub open spec fn file_name(
    format_name: Seq<char>,
    op_name: Seq<char>,
    rm: Rounding,
    picks: Seq<int>,
) -> Seq<char> {
    format_name + seq!['-'] + op_name + seq!['-'] + rm.name() + seq!['-'] + input_desc(picks)
}

/// How many ways there are to pick one of ten inputs for each operand.
pub open spec fn num_picks(arity: u8) -> nat {
    if arity == 1 {
        10
    } else if arity == 2 {
        100
    } else {
        1000
    }
}

/// The `j`-th way to pick inputs, the last operand changing fastest: the decimal digits of `j`.
pub open spec fn picks(arity: u8, j: int) -> Seq<int> {
    if arity == 1 {
        seq![j]
    } else if arity == 2 {
        seq![j / 10, j % 10]
    } else {
        seq![j / 100, (j / 10) % 10, j % 10]
    }
}

/// The file for an operation in a rounding mode on the inputs picked.
pub open spec fn entry(
    format: Format,
    codes: RoundCodes,
    op: NamedOp,
    rm: Rounding,
    picks: Seq<int>,
) -> EntryView {
    EntryView {
        name: file_name(format.short_lowercase_name@, op.name@, rm, picks),
        bytes: encoded(
            format,
            op.op,
            codes.code(rm),
            picks.map_values(|p: int| format.semantics.input_bits()[p]),
        ),
    }
}

/// The files for an operation in one rounding mode: one for each way to pick inputs.
pub open spec fn mode_entries(
    format: Format,
    codes: RoundCodes,
    op: NamedOp,
    rm: Rounding,
) -> Seq<EntryView> {
    Seq::new(
        num_picks(op.op.arity),
        |j: int| entry(format, codes, op, rm, picks(op.op.arity, j)),
    )
}

/// The files for an operation in several rounding modes, one mode after the other.
pub open spec fn op_entries(
    format: Format,
    codes: RoundCodes,
    op: NamedOp,
    rms: Seq<Rounding>,
) -> Seq<EntryView>
    decreases rms.len(),
{
    if rms.len() == 0 {
        Seq::empty()
    } else {
        op_entries(format, codes, op, rms.drop_last()) + mode_entries(
            format,
            codes,
            op,
            rms.last(),
        )
    }
}

/// The files for a format: for every operation, in all rounding modes.
pub open spec fn format_entries(
    format: Format,
    codes: RoundCodes,
    ops: Seq<NamedOp>,
) -> Seq<EntryView>
    decreases ops.len(),
{
    if ops.len() == 0 {
        Seq::empty()
    } else {
        format_entries(format, codes, ops.drop_last()) + op_entries(
            format,
            codes,
            ops.last(),
            spec_round_all(),
        )
    }
}

/// What a list of files holds.
pub open spec fn views(entries: Seq<Entry>) -> Seq<EntryView> {
    entries.map_values(|e: Entry| e@)
}

/// `ToPrimitive::to_u8` of `num_traits` for `u64`: the number, if a `u8` can represent it.
#[verifier::external_body]
fn to_u8(n: u64) -> (byte: Option<u8>)
    ensures
        byte == (if n <= u8::MAX {
            Some(n as u8)
        } else {
            None
        }),
{
    n.to_u8()
}

/// Appends the bytes of an operand.
fn write_as_le_bytes_into(operand: u128, byte_len: usize, buf: &mut Vec<u8>)
    ensures
        final(buf)@ == old(buf)@ + le_bytes(operand as nat, byte_len as nat),
{
    let ghost before = buf@;
    let ghost target = le_bytes(operand as nat, byte_len as nat);
    let mut left: u128 = operand;
    for k in 0..byte_len
        invariant
            before + target == buf@ + le_bytes(left as nat, (byte_len - k) as nat),
    {
        let ghost rest = le_bytes((left / 256) as nat, (byte_len - k - 1) as nat);
        let byte: u8 = (left % 256) as u8;
        assert(buf@ + (seq![byte] + rest) =~= buf@.push(byte) + rest);
        buf.push(byte);
        left = left / 256;
    }
    assert(buf@ + le_bytes(left as nat, 0) =~= buf@);
}

/// The digit for a number below ten.
fn digit(d: usize) -> (text: &'static str)
    requires
        d < 10,
    ensures
        text@ == seq![digit_char(d as int)],
{
    proof {
        reveal_strlit("0");
        reveal_strlit("1");
        reveal_strlit("2");
        reveal_strlit("3");
        reveal_strlit("4");
        reveal_strlit("5");
        reveal_strlit("6");
        reveal_strlit("7");
        reveal_strlit("8");
        reveal_strlit("9");
    }
    match d {
        0 => "0",
        1 => "1",
        2 => "2",
        3 => "3",
        4 => "4",
        5 => "5",
        6 => "6",
        7 => "7",
        8 => "8",
        _ => "9",
    }
}

/// The `j`-th way to pick inputs.
fn pick(arity: u8, j: usize) -> (picked: Vec<usize>)
    requires
        1 <= arity <= 3,
        j < num_picks(arity),
    ensures
        picked@.map_values(|p: usize| p as int) == picks(arity, j as int),
        picked@.len() == arity,
        forall|k: int| 0 <= k < picked@.len() ==> #[trigger] picked@[k] < 10,
{
    let mut picked: Vec<usize> = Vec::new();
    if arity == 1 {
        picked.push(j);
    } else if arity == 2 {
        picked.push(j / 10);
        picked.push(j % 10);
    } else {
        picked.push(j / 100);
        picked.push((j / 10) % 10);
        picked.push(j % 10);
    }
    assert(picked@.map_values(|p: usize| p as int) =~= picks(arity, j as int));
    picked
}

/// The name of a file.
fn name_entry(format: &Format, op: &NamedOp, rm: Rounding, picked: &Vec<usize>) -> (name: String)
    requires
        forall|k: int| 0 <= k < picked@.len() ==> #[trigger] picked@[k] < 10,
    ensures
        name@ == file_name(
            format.short_lowercase_name@,
            op.name@,
            rm,
            picked@.map_values(|p: usize| p as int),
        ),
{
    let ghost numbers = picked@.map_values(|p: usize| p as int);
    let rm_name: String = debug_name(rm);
    let mut name: String = String::new();
    proof {
        reveal_strlit("-");
        assert("-"@ =~= seq!['-']);
    }
    name.append(format.short_lowercase_name.as_str());
    name.append("-");
    name.append(op.name.as_str());
    name.append("-");
    name.append(rm_name.as_str());
    name.append("-");
    let ghost prefix = name@;
    assert(prefix =~= format.short_lowercase_name@ + seq!['-'] + op.name@ + seq!['-'] + rm.name()
        + seq!['-']);
    assert(prefix + input_desc(numbers.take(0)) =~= prefix);
    for k in 0..picked.len()
        invariant
            numbers == picked@.map_values(|p: usize| p as int),
            forall|k: int| 0 <= k < picked@.len() ==> #[trigger] picked@[k] < 10,
            "-"@ == seq!['-'],
            name@ == prefix + input_desc(numbers.take(k as int)),
    {
        let ghost next = numbers.take(k + 1);
        assert(next.drop_last() =~= numbers.take(k as int));
        if k > 0 {
            name.append("-");
        }
        name.append(digit(picked[k]));
        assert(name@ =~= prefix + input_desc(next));
    }
    assert(numbers.take(picked@.len() as int) =~= numbers);
    name
}

/// The contents of a file.
fn encode_entry(
    format: &Format,
    codes: &RoundCodes,
    op: &NamedOp,
    rm: Rounding,
    inputs: &Vec<u128>,
    picked: &Vec<usize>,
) -> (buf: Vec<u8>)
    requires
        format.wf(),
        op.wf(),
        inputs@ == format.semantics.input_bits(),
        forall|k: int| 0 <= k < picked@.len() ==> #[trigger] picked@[k] < 10,
    ensures
        buf@ == encoded(
            *format,
            op.op,
            codes.code(rm),
            picked@.map_values(|p: usize| p as int).map_values(
                |p: int| format.semantics.input_bits()[p],
            ),
        ),
{
    let ghost operands = picked@.map_values(|p: usize| p as int).map_values(
        |p: int| format.semantics.input_bits()[p],
    );
    let mut buf: Vec<u8> = Vec::new();
    buf.push(to_u8(format.kind).unwrap());
    buf.push(to_u8(op.op.code).unwrap());
    buf.push(codes.round_to_u8(rm));
    let ghost header = buf@;
    assert(header =~= seq![format.kind as u8, op.op.code as u8, codes.code(rm)]);
    assert(header + operand_bytes(format.byte_len as nat, operands.take(0)) =~= header);
    for k in 0..picked.len()
        invariant
            operands == picked@.map_values(|p: usize| p as int).map_values(
                |p: int| format.semantics.input_bits()[p],
            ),
            inputs@ == format.semantics.input_bits(),
            forall|k: int| 0 <= k < picked@.len() ==> #[trigger] picked@[k] < 10,
            buf@ == header + operand_bytes(format.byte_len as nat, operands.take(k as int)),
    {
        let ghost next = operands.take(k + 1);
        assert(next.drop_last() =~= operands.take(k as int));
        write_as_le_bytes_into(inputs[picked[k]], format.byte_len, &mut buf);
        assert(buf@ =~= header + operand_bytes(format.byte_len as nat, next));
    }
    assert(operands.take(picked@.len() as int) =~= operands);
    buf
}

proof fn lemma_views_push(entries: Seq<Entry>, e: Entry)
    ensures
        views(entries.push(e)) == views(entries).push(e@),
{
    assert(views(entries.push(e)) =~= views(entries).push(e@));
}

/// The files for a format: every operation, in every rounding mode, on all combinations of inputs.
pub fn gen_for_f(format: &Format, codes: &RoundCodes, ops: &Vec<NamedOp>) -> (entries: Vec<Entry>)
    requires
        format.wf(),
        forall|k: int| 0 <= k < ops@.len() ==> (#[trigger] ops@[k]).wf(),
    ensures
        views(entries@) == format_entries(*format, *codes, ops@),
        entries@.len() == format_entries(*format, *codes, ops@).len(),
        forall|k: int|
            0 <= k < entries@.len() ==> (#[trigger] entries@[k]).name@ == format_entries(
                *format,
                *codes,
                ops@,
            )[k].name && entries@[k].bytes@ == format_entries(*format, *codes, ops@)[k].bytes,
{
    let inputs: Vec<u128> = inputs(format.semantics);
    let rms: Vec<Rounding> = round_all();
    let mut entries: Vec<Entry> = Vec::new();
    assert(views(entries@) =~= format_entries(*format, *codes, ops@.take(0)));
    for n in 0..ops.len()
        invariant
            format.wf(),
            forall|k: int| 0 <= k < ops@.len() ==> (#[trigger] ops@[k]).wf(),
            inputs@ == format.semantics.input_bits(),
            rms@ == spec_round_all(),
            views(entries@) == format_entries(*format, *codes, ops@.take(n as int)),
    {
        let op: &NamedOp = &ops[n];
        let ghost done = views(entries@);
        assert(ops@.take(n + 1).drop_last() =~= ops@.take(n as int));
        assert(views(entries@) =~= done + op_entries(*format, *codes, *op, rms@.take(0)));
        for m in 0..rms.len()
            invariant
                format.wf(),
                op.wf(),
                inputs@ == format.semantics.input_bits(),
                views(entries@) == done + op_entries(*format, *codes, *op, rms@.take(m as int)),
        {
            let rm: Rounding = rms[m];
            let ghost done_mode = views(entries@);
            let ghost all = mode_entries(*format, *codes, *op, rm);
            let combinations: usize = if op.op.arity == 1 {
                10
            } else if op.op.arity == 2 {
                100
            } else {
                1000
            };
            assert(views(entries@) =~= done_mode + all.take(0));
            for j in 0..combinations
                invariant
                    format.wf(),
                    op.wf(),
                    inputs@ == format.semantics.input_bits(),
                    combinations == num_picks(op.op.arity),
                    all == mode_entries(*format, *codes, *op, rm),
                    views(entries@) == done_mode + all.take(j as int),
            {
                let picked: Vec<usize> = pick(op.op.arity, j);
                let name: String = name_entry(format, op, rm, &picked);
                let bytes: Vec<u8> = encode_entry(format, codes, op, rm, &inputs, &picked);
                let e: Entry = Entry { name, bytes };
                proof {
                    assert(e@ == all[j as int]);
                    lemma_views_push(entries@, e);
                    assert(all.take(j as int).push(e@) =~= all.take(j + 1));
                }
                entries.push(e);
                assert(views(entries@) =~= done_mode + all.take(j + 1));
            }
            assert(all.take(combinations as int) =~= all);
            assert(rms@.take(m + 1).drop_last() =~= rms@.take(m as int));
            assert(views(entries@) =~= done + op_entries(*format, *codes, *op, rms@.take(m + 1)));
        }
        assert(rms@.take(rms@.len() as int) =~= rms@);
        assert(views(entries@) =~= format_entries(*format, *codes, ops@.take(n + 1)));
    }
    assert(ops@.take(ops@.len() as int) =~= ops@);
    assert forall|k: int| 0 <= k < entries@.len() implies (#[trigger] entries@[k]).name@
        == format_entries(*format, *codes, ops@)[k].name && entries@[k].bytes@ == format_entries(
        *format,
        *codes,
        ops@,
    )[k].bytes by {
        assert(views(entries@)[k] == entries@[k]@);
    }
    entries
}

/// Why an encoded input was turned down: it could not be decoded, or its results did not match.
#[derive(Debug)]
pub enum Error {
    Decode(String),
    Check(String),
}

/// Whether an input may go into the corpus, by what came of decoding, evaluating and checking it.
/// It has to parse, and nothing more: its results are for the fuzzer to look into.
pub fn is_accepted(outcome: &Result<(), Error>) -> (accepted: bool)
    ensures
        !accepted <==> (*outcome matches Err(Error::Decode(_))),
{
    match outcome {
        Ok(()) => true,
        Err(Error::Check(_)) => true,
        Err(Error::Decode(_)) => false,
    }
}

/// How many files a format gets.
pub open spec fn num_files(ops: Seq<NamedOp>) -> nat
    decreases ops.len(),
{
    if ops.len() == 0 {
        0
    } else {
        num_files(ops.drop_last()) + 5 * num_picks(ops.last().op.arity)
    }
}

/// An operation gets as many files in each rounding mode.
pub proof fn lemma_op_entries_len(format: Format, codes: RoundCodes, op: NamedOp, rms: Seq<Rounding>)
    ensures
        op_entries(format, codes, op, rms).len() == rms.len() * num_picks(op.op.arity),
    decreases rms.len(),
{
    let n = num_picks(op.op.arity);
    if rms.len() == 0 {
        assert(0 * n == 0);
    } else {
        lemma_op_entries_len(format, codes, op, rms.drop_last());
        assert(rms.len() * n == (rms.len() - 1) * n + n) by (nonlinear_arith);
    }
}

/// A format gets, for each operation and rounding mode, as many files as there are combinations of
/// inputs.
pub proof fn law_number_of_files(format: Format, codes: RoundCodes, ops: Seq<NamedOp>)
    ensures
        format_entries(format, codes, ops).len() == num_files(ops),
    decreases ops.len(),
{
    if ops.len() > 0 {
        law_number_of_files(format, codes, ops.drop_last());
        lemma_op_entries_len(format, codes, ops.last(), spec_round_all());
    }
}

/// The files of a corpus, one list for each format, and their number.
#[derive(Debug)]
pub struct Corpus {
    pub batches: Vec<Vec<Entry>>,
    pub total: u64,
}

/// The formats and operations can be encoded, and the files for them counted.
pub open spec fn spec_can_generate(formats: Seq<Format>, ops: Seq<NamedOp>) -> bool {
    &&& forall|k: int| 0 <= k < formats.len() ==> (#[trigger] formats[k]).wf()
    &&& forall|k: int| 0 <= k < ops.len() ==> (#[trigger] ops[k]).wf()
    &&& formats.len() * num_files(ops) <= u64::MAX
}

/// Whether the formats and operations can be encoded, and the files for them counted.
pub fn can_generate(formats: &Vec<Format>, ops: &Vec<NamedOp>) -> (can: bool)
    ensures
        can == spec_can_generate(formats@, ops@),
        can <==> (forall|k: int|
            0 <= k < formats@.len() ==> (#[trigger] formats@[k]).kind <= 255
                && formats@[k].semantics.bits() <= 8 * formats@[k].byte_len) && (forall|k: int|
            0 <= k < ops@.len() ==> (#[trigger] ops@[k]).op.code <= 255 && 1 <= ops@[k].op.arity
                <= 3) && formats@.len() * num_files(ops@) <= u64::MAX,
{
    for k in 0..formats.len()
        invariant
            forall|i: int| 0 <= i < k ==> (#[trigger] formats@[i]).wf(),
    {
        let format: &Format = &formats[k];
        let width: usize = format.semantics.bit_width();
        if format.kind > 255 || (format.byte_len < 16 && 8 * format.byte_len < width) {
            assert(!formats@[k as int].wf());
            return false;
        }
    }
    let mut files: u128 = 0;
    assert(ops@.take(0) =~= Seq::empty());
    for k in 0..ops.len()
        invariant
            forall|i: int| 0 <= i < k ==> (#[trigger] ops@[i]).wf(),
            files == num_files(ops@.take(k as int)),
            files <= 5000 * k,
    {
        let op: Op = ops[k].op;
        if op.code > 255 || op.arity < 1 || op.arity > 3 {
            assert(!ops@[k as int].wf());
            return false;
        }
        assert(ops@.take(k + 1).drop_last() =~= ops@.take(k as int));
        files = files + (if op.arity == 1 {
            50
        } else if op.arity == 2 {
            500
        } else {
            5000
        });
    }
    assert(ops@.take(ops@.len() as int) =~= ops@);
    match files.checked_mul(formats.len() as u128) {
        Some(total) => {
            assert(total == formats@.len() * num_files(ops@)) by (nonlinear_arith)
                requires
                    total == files * formats@.len(),
                    files == num_files(ops@),
            ;
            total <= u64::MAX as u128
        },
        None => {
            assert(files * formats@.len() == formats@.len() * num_files(ops@)) by (nonlinear_arith)
                requires
                    files == num_files(ops@),
            ;
            false
        },
    }
}

/// The corpus for several formats.
pub fn generate(formats: &Vec<Format>, codes: &RoundCodes, ops: &Vec<NamedOp>) -> (corpus: Corpus)
    requires
        spec_can_generate(formats@, ops@),
    ensures
        corpus.batches@.len() == formats@.len(),
        forall|i: int|
            0 <= i < formats@.len() ==> views((#[trigger] corpus.batches@[i])@) == format_entries(
                formats@[i],
                *codes,
                ops@,
            ),
        corpus.total == formats@.len() * num_files(ops@),
        forall|i: int|
            0 <= i < formats@.len() ==> (#[trigger] corpus.batches@[i])@.len() == num_files(ops@),
        forall|i: int, k: int|
            0 <= i < formats@.len() && 0 <= k < num_files(ops@) ==> (
            #[trigger] corpus.batches@[i]@[k]).name@ == format_entries(
                formats@[i],
                *codes,
                ops@,
            )[k].name && corpus.batches@[i]@[k].bytes@ == format_entries(
                formats@[i],
                *codes,
                ops@,
            )[k].bytes,
{
    let mut batches: Vec<Vec<Entry>> = Vec::new();
    let mut total: u64 = 0;
    assert(0 * num_files(ops@) == 0);
    for n in 0..formats.len()
        invariant
            forall|k: int| 0 <= k < formats@.len() ==> (#[trigger] formats@[k]).wf(),
            forall|k: int| 0 <= k < ops@.len() ==> (#[trigger] ops@[k]).wf(),
            formats@.len() * num_files(ops@) <= u64::MAX,
            batches@.len() == n,
            forall|i: int|
                0 <= i < n ==> views((#[trigger] batches@[i])@) == format_entries(
                    formats@[i],
                    *codes,
                    ops@,
                ),
            total == n * num_files(ops@),
            forall|i: int| 0 <= i < n ==> (#[trigger] batches@[i])@.len() == num_files(ops@),
            forall|i: int, k: int|
                0 <= i < n && 0 <= k < num_files(ops@) ==> (#[trigger] batches@[i]@[k]).name@
                    == format_entries(formats@[i], *codes, ops@)[k].name && batches@[i]@[k].bytes@
                    == format_entries(formats@[i], *codes, ops@)[k].bytes,
    {
        let entries: Vec<Entry> = gen_for_f(&formats[n], codes, ops);
        proof {
            law_number_of_files(formats@[n as int], *codes, ops@);
            let files = num_files(ops@) as int;
            assert((n + 1) * files == n * files + files) by (nonlinear_arith);
            assert((n + 1) * files <= formats@.len() * files) by (nonlinear_arith)
                requires
                    n + 1 <= formats@.len(),
                    files >= 0,
            ;
            assert(views(entries@).len() == entries@.len());
        }
        total = total + entries.len() as u64;
        batches.push(entries);
    }
    Corpus { batches, total }
}

} // verus!
