//! The rounding modes that operations are tried in.

use rustc_apfloat::Round;

use vstd::prelude::*;

verus! {

/// A rounding mode of `rustc_apfloat`.
#[derive(Clone, Copy, PartialEq, Eq, Structural, Debug)]
pub enum Rounding {
    NearestTiesToEven,
    TowardPositive,
    TowardNegative,
    TowardZero,
    NearestTiesToAway,
}

/// The rounding modes in the order in which they are tried.
pub open spec fn spec_round_all() -> Seq<Rounding> {
    seq![
        Rounding::NearestTiesToEven,
        Rounding::TowardPositive,
        Rounding::TowardNegative,
        Rounding::TowardZero,
        Rounding::NearestTiesToAway,
    ]
}

/// The rounding modes in the order in which they are tried.
pub fn round_all() -> (all: Vec<Rounding>)
    ensures
        all@ == spec_round_all(),
        all@ == seq![
            Rounding::NearestTiesToEven,
            Rounding::TowardPositive,
            Rounding::TowardNegative,
            Rounding::TowardZero,
            Rounding::NearestTiesToAway,
        ],
{
    let mut all: Vec<Rounding> = Vec::new();
    all.push(Rounding::NearestTiesToEven);
    all.push(Rounding::TowardPositive);
    all.push(Rounding::TowardNegative);
    all.push(Rounding::TowardZero);
    all.push(Rounding::NearestTiesToAway);
    all
}

impl Rounding {
    /// The name of a rounding mode.
    pub open spec fn name(self) -> Seq<char> {
        match self {
            Rounding::NearestTiesToEven => "NearestTiesToEven"@,
            Rounding::TowardPositive => "TowardPositive"@,
            Rounding::TowardNegative => "TowardNegative"@,
            Rounding::TowardZero => "TowardZero"@,
            Rounding::NearestTiesToAway => "NearestTiesToAway"@,
        }
    }
}

/// What `rustc_apfloat::Round` prints as its `Debug` form: the name of the mode.
#[verifier::external_body]
pub(crate) fn debug_name(rm: Rounding) -> (name: String)
    ensures
        name@ == rm.name(),
{
    let round = match rm {
        Rounding::NearestTiesToEven => Round::NearestTiesToEven,
        Rounding::TowardPositive => Round::TowardPositive,
        Rounding::TowardNegative => Round::TowardNegative,
        Rounding::TowardZero => Round::TowardZero,
        Rounding::NearestTiesToAway => Round::NearestTiesToAway,
    };
    format!("{:?}", round)
}

/// The numbers that stand for the rounding modes in an encoded input.
#[derive(Clone, Copy, PartialEq, Eq, Structural, Debug)]
pub struct RoundCodes {
    pub nearest_ties_to_even: u8,
    pub toward_positive: u8,
    pub toward_negative: u8,
    pub toward_zero: u8,
    pub nearest_ties_to_away: u8,
}

impl RoundCodes {
    /// The number of a rounding mode.
    pub open spec fn code(self, rm: Rounding) -> u8 {
        match rm {
            Rounding::NearestTiesToEven => self.nearest_ties_to_even,
            Rounding::TowardPositive => self.toward_positive,
            Rounding::TowardNegative => self.toward_negative,
            Rounding::TowardZero => self.toward_zero,
            Rounding::NearestTiesToAway => self.nearest_ties_to_away,
        }
    }

    /// The number of a rounding mode.
    pub fn round_to_u8(&self, rm: Rounding) -> (code: u8)
        ensures
            code == self.code(rm),
            rm == Rounding::NearestTiesToEven ==> code == self.nearest_ties_to_even,
            rm == Rounding::TowardPositive ==> code == self.toward_positive,
            rm == Rounding::TowardNegative ==> code == self.toward_negative,
            rm == Rounding::TowardZero ==> code == self.toward_zero,
            rm == Rounding::NearestTiesToAway ==> code == self.nearest_ties_to_away,
    {
        match rm {
            Rounding::NearestTiesToEven => self.nearest_ties_to_even,
            Rounding::TowardPositive => self.toward_positive,
            Rounding::TowardNegative => self.toward_negative,
            Rounding::TowardZero => self.toward_zero,
            Rounding::NearestTiesToAway => self.nearest_ties_to_away,
        }
    }
}

/// Every rounding mode has the number that was given for it, whatever the numbers are.
pub proof fn law_codes_are_those_given(codes: RoundCodes)
    ensures
        codes.code(Rounding::NearestTiesToEven) == codes.nearest_ties_to_even,
        codes.code(Rounding::TowardPositive) == codes.toward_positive,
        codes.code(Rounding::TowardNegative) == codes.toward_negative,
        codes.code(Rounding::TowardZero) == codes.toward_zero,
        codes.code(Rounding::NearestTiesToAway) == codes.nearest_ties_to_away,
{
}

/// A number tells its rounding mode, as long as no two modes were given the same one.
pub proof fn law_codes_tell_the_mode(codes: RoundCodes, a: Rounding, b: Rounding)
    requires
        seq![
            codes.nearest_ties_to_even,
            codes.toward_positive,
            codes.toward_negative,
            codes.toward_zero,
            codes.nearest_ties_to_away,
        ].no_duplicates(),
    ensures
        codes.code(a) == codes.code(b) <==> a == b,
{
    let numbers = seq![
        codes.nearest_ties_to_even,
        codes.toward_positive,
        codes.toward_negative,
        codes.toward_zero,
        codes.nearest_ties_to_away,
    ];
    assert(numbers[0] == codes.nearest_ties_to_even && numbers[1] == codes.toward_positive
        && numbers[2] == codes.toward_negative && numbers[3] == codes.toward_zero && numbers[4]
        == codes.nearest_ties_to_away);
}

/// Every rounding mode is tried, and none twice.
pub proof fn law_every_mode_is_tried_once(rm: Rounding, i: int, j: int)
    ensures
        spec_round_all().contains(rm),
        0 <= i < j < spec_round_all().len() ==> spec_round_all()[i] != spec_round_all()[j],
{
    let all = spec_round_all();
    assert(all[0] == Rounding::NearestTiesToEven && all[1] == Rounding::TowardPositive && all[2]
        == Rounding::TowardNegative && all[3] == Rounding::TowardZero && all[4]
        == Rounding::NearestTiesToAway);
}

} // verus!
