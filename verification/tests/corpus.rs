use std::collections::HashSet;

use apfloat_fuzz::cases::Op;
use apfloat_fuzz::corpus::{
    can_generate, gen_for_f, generate, is_accepted, Error, Format, NamedOp,
};
use apfloat_fuzz::rounding::{round_all, RoundCodes, Rounding};
use apfloat_fuzz::semantics::{inputs, Semantics};

const CODES: RoundCodes = RoundCodes {
    nearest_ties_to_even: 10,
    toward_positive: 11,
    toward_negative: 12,
    toward_zero: 13,
    nearest_ties_to_away: 14,
};

fn op(name: &str, code: u64, arity: u8) -> NamedOp {
    NamedOp { op: Op { code, arity }, name: name.to_string() }
}

fn format(semantics: Semantics, kind: u64, byte_len: usize, name: &str) -> Format {
    Format { semantics, kind, byte_len, short_lowercase_name: name.to_string() }
}

fn ops() -> Vec<NamedOp> {
    vec![op("Neg", 0, 1), op("Add", 1, 2), op("MulAdd", 6, 3)]
}

#[test]
fn inputs_of_half() {
    assert_eq!(
        inputs(Semantics::Half),
        vec![0, 0x7c00, 0x8000, 0xfc00, 0x7e00, 0x7d00, 0x7bff, 1, 0x0400, 0x3c00],
    );
}

#[test]
fn inputs_of_single() {
    assert_eq!(
        inputs(Semantics::Single),
        vec![
            0,
            0x7f80_0000,
            0x8000_0000,
            0xff80_0000,
            0x7fc0_0000,
            0x7fa0_0000,
            0x7f7f_ffff,
            1,
            0x0080_0000,
            0x3f80_0000,
        ],
    );
    assert_eq!(inputs(Semantics::Single)[6], f32::MAX.to_bits() as u128);
    assert_eq!(inputs(Semantics::Single)[8], f32::MIN_POSITIVE.to_bits() as u128);
    assert_eq!(inputs(Semantics::Single)[9], 1f32.to_bits() as u128);
}

#[test]
fn inputs_of_double() {
    assert_eq!(
        inputs(Semantics::Double),
        vec![
            0,
            0x7ff0_0000_0000_0000,
            0x8000_0000_0000_0000,
            0xfff0_0000_0000_0000,
            0x7ff8_0000_0000_0000,
            0x7ff4_0000_0000_0000,
            0x7fef_ffff_ffff_ffff,
            1,
            0x0010_0000_0000_0000,
            0x3ff0_0000_0000_0000,
        ],
    );
    assert_eq!(inputs(Semantics::Double)[6], f64::MAX.to_bits() as u128);
}

#[test]
fn inputs_of_quad() {
    assert_eq!(
        inputs(Semantics::Quad),
        vec![
            0,
            0x7fff_0000_0000_0000_0000_0000_0000_0000,
            0x8000_0000_0000_0000_0000_0000_0000_0000,
            0xffff_0000_0000_0000_0000_0000_0000_0000,
            0x7fff_8000_0000_0000_0000_0000_0000_0000,
            0x7fff_4000_0000_0000_0000_0000_0000_0000,
            0x7ffe_ffff_ffff_ffff_ffff_ffff_ffff_ffff,
            1,
            0x0001_0000_0000_0000_0000_0000_0000_0000,
            0x3fff_0000_0000_0000_0000_0000_0000_0000,
        ],
    );
}

#[test]
fn inputs_of_bfloat() {
    assert_eq!(
        inputs(Semantics::BFloat),
        vec![0, 0x7f80, 0x8000, 0xff80, 0x7fc0, 0x7fa0, 0x7f7f, 1, 0x0080, 0x3f80],
    );
}

#[test]
fn inputs_of_float8_e5m2() {
    assert_eq!(
        inputs(Semantics::Float8E5M2),
        vec![0, 0x7c, 0x80, 0xfc, 0x7e, 0x7d, 0x7b, 1, 0x04, 0x3c],
    );
}

#[test]
fn inputs_of_float8_e4m3fn() {
    // Without infinities: they are the one NaN, which is never signaling.
    assert_eq!(
        inputs(Semantics::Float8E4M3FN),
        vec![0, 0x7f, 0x80, 0xff, 0x7f, 0x7f, 0x7e, 1, 0x08, 0x38],
    );
}

#[test]
fn inputs_of_x87() {
    // With an explicit integer bit.
    assert_eq!(
        inputs(Semantics::X87DoubleExtended),
        vec![
            0,
            0x7fff_8000_0000_0000_0000,
            0x8000_0000_0000_0000_0000,
            0xffff_8000_0000_0000_0000,
            0x7fff_c000_0000_0000_0000,
            0x7fff_a000_0000_0000_0000,
            0x7ffe_ffff_ffff_ffff_ffff,
            1,
            0x0001_8000_0000_0000_0000,
            0x3fff_8000_0000_0000_0000,
        ],
    );
}

#[test]
fn bit_widths() {
    let widths: Vec<usize> = [
        Semantics::Half,
        Semantics::Single,
        Semantics::Double,
        Semantics::Quad,
        Semantics::BFloat,
        Semantics::Float8E5M2,
        Semantics::Float8E4M3FN,
        Semantics::X87DoubleExtended,
    ]
    .into_iter()
    .map(|sem| sem.bit_width())
    .collect();
    assert_eq!(widths, vec![16, 32, 64, 128, 16, 8, 8, 80]);
}

#[test]
fn rounding_modes_in_order() {
    assert_eq!(
        round_all(),
        vec![
            Rounding::NearestTiesToEven,
            Rounding::TowardPositive,
            Rounding::TowardNegative,
            Rounding::TowardZero,
            Rounding::NearestTiesToAway,
        ],
    );
    let codes: Vec<u8> = round_all().into_iter().map(|rm| CODES.round_to_u8(rm)).collect();
    assert_eq!(codes, vec![10, 11, 12, 13, 14]);
}

#[test]
fn unary_entries() {
    let half = format(Semantics::Half, 16, 2, "half");
    let entries = gen_for_f(&half, &CODES, &vec![op("Neg", 0, 1)]);
    assert_eq!(entries.len(), 50);
    assert_eq!(entries[0].name, "half-Neg-NearestTiesToEven-0");
    assert_eq!(entries[0].bytes, vec![16, 0, 10, 0, 0]);
    assert_eq!(entries[9].name, "half-Neg-NearestTiesToEven-9");
    assert_eq!(entries[9].bytes, vec![16, 0, 10, 0x00, 0x3c]);
    assert_eq!(entries[10].name, "half-Neg-TowardPositive-0");
    assert_eq!(entries[26].name, "half-Neg-TowardNegative-6");
    assert_eq!(entries[26].bytes, vec![16, 0, 12, 0xff, 0x7b]);
    assert_eq!(entries[31].name, "half-Neg-TowardZero-1");
    assert_eq!(entries[49].name, "half-Neg-NearestTiesToAway-9");
    assert_eq!(entries[49].bytes[2], 14);
}

#[test]
fn binary_entries() {
    let single = format(Semantics::Single, 32, 4, "single");
    let entries = gen_for_f(&single, &CODES, &vec![op("Add", 1, 2)]);
    assert_eq!(entries.len(), 500);
    assert_eq!(entries[69].name, "single-Add-NearestTiesToEven-6-9");
    assert_eq!(
        entries[69].bytes,
        vec![32, 1, 10, 0xff, 0xff, 0x7f, 0x7f, 0x00, 0x00, 0x80, 0x3f],
    );
}

#[test]
fn ternary_entries() {
    let tiny = format(Semantics::Float8E5M2, 255, 1, "f8e5m2");
    let entries = gen_for_f(&tiny, &CODES, &vec![op("MulAdd", 6, 3)]);
    assert_eq!(entries.len(), 5000);
    assert_eq!(entries[1987].name, "f8e5m2-MulAdd-TowardPositive-9-8-7");
    assert_eq!(entries[1987].bytes, vec![255, 6, 11, 0x3c, 0x04, 0x01]);
}

#[test]
fn operands_take_all_their_bytes() {
    let x87 = format(Semantics::X87DoubleExtended, 80, 10, "x87");
    let entries = gen_for_f(&x87, &CODES, &vec![op("Neg", 0, 1)]);
    assert_eq!(entries[9].bytes, vec![80, 0, 10, 0, 0, 0, 0, 0, 0, 0, 0x80, 0xff, 0x3f]);
    let padded = format(Semantics::Half, 16, 20, "padded");
    let entries = gen_for_f(&padded, &CODES, &vec![op("Neg", 0, 1)]);
    assert_eq!(entries[9].bytes.len(), 3 + 20);
    assert_eq!(&entries[9].bytes[..6], &[16, 0, 10, 0x00, 0x3c, 0x00]);
}

#[test]
fn no_operations_no_entries() {
    let half = format(Semantics::Half, 16, 2, "half");
    assert!(gen_for_f(&half, &CODES, &vec![]).is_empty());
}

#[test]
fn corpus_is_the_full_product() {
    let formats =
        vec![format(Semantics::Half, 16, 2, "half"), format(Semantics::Quad, 128, 16, "quad")];
    let ops = ops();
    assert!(can_generate(&formats, &ops));
    let corpus = generate(&formats, &CODES, &ops);
    assert_eq!(corpus.batches.len(), 2);
    assert_eq!(corpus.batches[0].len(), 5 * (10 + 100 + 1000));
    assert_eq!(corpus.batches[1].len(), 5 * (10 + 100 + 1000));
    assert_eq!(corpus.total, 2 * 5550);
    let names: HashSet<&str> =
        corpus.batches.iter().flatten().map(|entry| entry.name.as_str()).collect();
    assert_eq!(names.len(), 2 * 5550);
    assert!(names.contains("quad-Add-TowardZero-3-4"));
    assert!(names.contains("half-MulAdd-NearestTiesToAway-0-5-9"));
}

#[test]
fn encoded_inputs_can_be_parsed() {
    let quad = format(Semantics::Quad, 128, 16, "quad");
    let values = inputs(Semantics::Quad);
    let entries = gen_for_f(&quad, &CODES, &vec![op("Rem", 5, 2)]);
    for (j, entry) in entries.iter().take(100).enumerate() {
        assert_eq!(entry.bytes.len(), 3 + 2 * 16);
        assert_eq!(&entry.bytes[..3], &[128, 5, 10]);
        let mut a = [0; 16];
        let mut b = [0; 16];
        a.copy_from_slice(&entry.bytes[3..19]);
        b.copy_from_slice(&entry.bytes[19..35]);
        assert_eq!(u128::from_le_bytes(a), values[j / 10]);
        assert_eq!(u128::from_le_bytes(b), values[j % 10]);
    }
}

#[test]
fn what_cannot_be_encoded() {
    let half = || format(Semantics::Half, 16, 2, "half");
    assert!(can_generate(&vec![], &vec![]));
    assert!(can_generate(&vec![half()], &ops()));
    assert!(can_generate(&vec![format(Semantics::Half, 255, usize::MAX, "half")], &ops()));
    assert!(!can_generate(&vec![half(), format(Semantics::Half, 256, 2, "half")], &ops()));
    assert!(!can_generate(&vec![format(Semantics::Half, 16, 1, "half")], &ops()));
    assert!(!can_generate(&vec![half()], &vec![op("Neg", 256, 1)]));
    assert!(!can_generate(&vec![half()], &vec![op("Neg", 0, 0)]));
    assert!(!can_generate(&vec![half()], &vec![op("Neg", 0, 4)]));
}

#[test]
fn names_with_hyphens_do_not_collide() {
    let half = format(Semantics::Half, 16, 2, "half");
    let ops = vec![
        op("A", 0, 1),
        op("A-TowardZero", 1, 1),
        op("A-TowardZero-1", 2, 2),
        op("", 3, 2),
        op("-", 4, 1),
    ];
    let entries = gen_for_f(&half, &CODES, &ops);
    assert_eq!(entries.len(), 5 * (10 + 10 + 100 + 100 + 10));
    let names: HashSet<&str> = entries.iter().map(|entry| entry.name.as_str()).collect();
    assert_eq!(names.len(), entries.len());
}

#[test]
fn formats_with_hyphens_do_not_collide() {
    // The operations have plain names, so the formats need not.
    let formats = vec![
        format(Semantics::Half, 16, 2, "f"),
        format(Semantics::BFloat, 17, 2, "f-Neg"),
        format(Semantics::Single, 32, 4, "f-Neg-Neg"),
        format(Semantics::Double, 64, 8, ""),
    ];
    let ops = vec![op("Neg", 0, 1), op("Add", 1, 2)];
    let corpus = generate(&formats, &CODES, &ops);
    let names: HashSet<&str> =
        corpus.batches.iter().flatten().map(|entry| entry.name.as_str()).collect();
    assert_eq!(names.len() as u64, corpus.total);
}

#[test]
fn hyphens_on_both_sides_collide() {
    // Both stems are `f-a-Neg`.
    let f = gen_for_f(&format(Semantics::Half, 16, 2, "f"), &CODES, &vec![op("a-Neg", 0, 1)]);
    let g = gen_for_f(&format(Semantics::Single, 32, 4, "f-a"), &CODES, &vec![op("Neg", 0, 1)]);
    assert_eq!(f.len(), g.len());
    for (k, (a, b)) in f.iter().zip(&g).enumerate() {
        assert_eq!(a.name, b.name);
        assert_ne!(a.name, g[(k + 1) % g.len()].name);
    }
}

#[test]
fn only_a_decoding_error_is_fatal() {
    assert!(is_accepted(&Ok(())));
    assert!(is_accepted(&Err(Error::Check("mismatch".to_string()))));
    assert!(!is_accepted(&Err(Error::Decode("too short".to_string()))));
}
