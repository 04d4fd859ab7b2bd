//! The float formats of `rustc_apfloat`, and the inputs that every one of them is tried on first.

use rustc_apfloat::ieee::BFloat;
use rustc_apfloat::ieee::Double;
use rustc_apfloat::ieee::Float8E4M3FN;
use rustc_apfloat::ieee::Float8E5M2;
use rustc_apfloat::ieee::Half;
use rustc_apfloat::ieee::Quad;
use rustc_apfloat::ieee::Single;
use rustc_apfloat::ieee::X87DoubleExtended;
use rustc_apfloat::Float;

use vstd::arithmetic::power2::lemma_pow2_adds;
use vstd::arithmetic::power2::lemma_pow2_pos;
use vstd::arithmetic::power2::lemma_pow2_strictly_increases;
use vstd::arithmetic::power2::lemma_pow2_unfold;
use vstd::arithmetic::power2::pow2;
use vstd::prelude::*;

verus! {

/// A float format, named after its type in `rustc_apfloat::ieee`.
#[derive(Clone, Copy, PartialEq, Eq, Structural, Debug)]
pub enum Semantics {
    Half,
    Single,
    Double,
    Quad,
    BFloat,
    Float8E5M2,
    Float8E4M3FN,
    X87DoubleExtended,
}

impl Semantics {
    /// The number of bits of a float.
    pub open spec fn bits(self) -> nat {
        match self {
            Semantics::Half => 16,
            Semantics::Single => 32,
            Semantics::Double => 64,
            Semantics::Quad => 128,
            Semantics::BFloat => 16,
            Semantics::Float8E5M2 => 8,
            Semantics::Float8E4M3FN => 8,
            Semantics::X87DoubleExtended => 80,
        }
    }

    /// The number of bits of its exponent.
    pub open spec fn exponent_bits(self) -> nat {
        match self {
            Semantics::Half => 5,
            Semantics::Single => 8,
            Semantics::Double => 11,
            Semantics::Quad => 15,
            Semantics::BFloat => 8,
            Semantics::Float8E5M2 => 5,
            Semantics::Float8E4M3FN => 4,
            Semantics::X87DoubleExtended => 15,
        }
    }

    /// The number of bits of its significand as stored, below the exponent.
    pub open spec fn significand_bits(self) -> nat {
        (self.bits() - 1 - self.exponent_bits()) as nat
    }

    /// The number of bits after the binary point.
    pub open spec fn fraction_bits(self) -> nat {
        if self == Semantics::X87DoubleExtended {
            63
        } else {
            self.significand_bits()
        }
    }

    /// The bit before the binary point where it is stored, as the x87 format does.
    pub open spec fn integer_bit(self) -> nat {
        if self == Semantics::X87DoubleExtended {
            pow2(63)
        } else {
            0
        }
    }

    /// The largest value of the exponent field.
    pub open spec fn top_exponent(self) -> nat {
        (pow2(self.exponent_bits()) - 1) as nat
    }

    /// The largest value of the significand field.
    pub open spec fn top_significand(self) -> nat {
        (pow2(self.significand_bits()) - 1) as nat
    }

    /// Whether the top exponent is set apart for infinities and many NaNs. `Float8E4M3FN` has no
    /// infinities, and only the float with all bits set below the sign as NaN.
    pub open spec fn has_infinity(self) -> bool {
        self != Semantics::Float8E4M3FN
    }

    /// The positive float with these fields.
    pub open spec fn assemble(self, exponent: nat, significand: nat) -> nat {
        exponent * pow2(self.significand_bits()) + significand
    }

    /// A positive float with its sign bit set.
    pub open spec fn negated(self, bits: nat) -> nat {
        pow2((self.bits() - 1) as nat) + bits
    }

    /// The quiet NaN without a payload: the first bit after the binary point is set.
    pub open spec fn qnan_bits(self) -> nat {
        if self.has_infinity() {
            self.assemble(
                self.top_exponent(),
                self.integer_bit() + pow2((self.fraction_bits() - 1) as nat),
            )
        } else {
            self.assemble(self.top_exponent(), self.top_significand())
        }
    }

    /// The signaling NaN without a payload: the bit after that is set instead.
    pub open spec fn snan_bits(self) -> nat {
        if self.has_infinity() {
            self.assemble(
                self.top_exponent(),
                self.integer_bit() + pow2((self.fraction_bits() - 2) as nat),
            )
        } else {
            self.assemble(self.top_exponent(), self.top_significand())
        }
    }

    /// Infinity, or the quiet NaN where there is none.
    pub open spec fn infinity_bits(self) -> nat {
        if self.has_infinity() {
            self.assemble(self.top_exponent(), self.integer_bit())
        } else {
            self.qnan_bits()
        }
    }

    /// The largest finite float.
    pub open spec fn largest_bits(self) -> nat {
        if self.has_infinity() {
            self.assemble((self.top_exponent() - 1) as nat, self.top_significand())
        } else {
            self.assemble(self.top_exponent(), (self.top_significand() - 1) as nat)
        }
    }

    /// The smallest positive float of full precision.
    pub open spec fn smallest_normalized_bits(self) -> nat {
        self.assemble(1, self.integer_bit())
    }

    /// The number one: its exponent is the bias.
    pub open spec fn one_bits(self) -> nat {
        self.assemble(
            (pow2((self.exponent_bits() - 1) as nat) - 1) as nat,
            self.integer_bit(),
        )
    }

    /// The inputs that each operand takes: both zeros, both infinities, both kinds of NaN, the
    /// ends of the range and one.
    pub open spec fn input_bits(self) -> Seq<u128> {
        seq![
            0u128,
            self.infinity_bits() as u128,
            self.negated(0) as u128,
            self.negated(self.infinity_bits()) as u128,
            self.qnan_bits() as u128,
            self.snan_bits() as u128,
            self.largest_bits() as u128,
            1u128,
            self.smallest_normalized_bits() as u128,
            self.one_bits() as u128,
        ]
    }
}

impl Semantics {
    /// The number of bits of a float.
    pub fn bit_width(self) -> (width: usize)
        ensures
            width == self.bits(),
    {
        match self {
            Semantics::Half => 16,
            Semantics::Single => 32,
            Semantics::Double => 64,
            Semantics::Quad => 128,
            Semantics::BFloat => 16,
            Semantics::Float8E5M2 => 8,
            Semantics::Float8E4M3FN => 8,
            Semantics::X87DoubleExtended => 80,
        }
    }
}

/// The bits of `Float::ZERO` of the type that `sem` names: all clear.
#[verifier::external_body]
fn zero(sem: Semantics) -> (bits: u128)
    ensures
        bits == 0,
{
    match sem {
        Semantics::Half => Half::ZERO.to_bits(),
        Semantics::Single => Single::ZERO.to_bits(),
        Semantics::Double => Double::ZERO.to_bits(),
        Semantics::Quad => Quad::ZERO.to_bits(),
        Semantics::BFloat => BFloat::ZERO.to_bits(),
        Semantics::Float8E5M2 => Float8E5M2::ZERO.to_bits(),
        Semantics::Float8E4M3FN => Float8E4M3FN::ZERO.to_bits(),
        Semantics::X87DoubleExtended => X87DoubleExtended::ZERO.to_bits(),
    }
}

/// The bits of `Float::INFINITY` of the type that `sem` names: the top exponent with an empty
/// fraction or, in a format without infinities, the quiet NaN.
#[verifier::external_body]
fn infinity(sem: Semantics) -> (bits: u128)
    ensures
        bits == sem.infinity_bits(),
{
    match sem {
        Semantics::Half => Half::INFINITY.to_bits(),
        Semantics::Single => Single::INFINITY.to_bits(),
        Semantics::Double => Double::INFINITY.to_bits(),
        Semantics::Quad => Quad::INFINITY.to_bits(),
        Semantics::BFloat => BFloat::INFINITY.to_bits(),
        Semantics::Float8E5M2 => Float8E5M2::INFINITY.to_bits(),
        Semantics::Float8E4M3FN => Float8E4M3FN::INFINITY.to_bits(),
        Semantics::X87DoubleExtended => X87DoubleExtended::INFINITY.to_bits(),
    }
}

/// The bits of `-Float::ZERO` of the type that `sem` names: negation flips the sign bit.
#[verifier::external_body]
fn negative_zero(sem: Semantics) -> (bits: u128)
    ensures
        bits == sem.negated(0),
{
    match sem {
        Semantics::Half => (-Half::ZERO).to_bits(),
        Semantics::Single => (-Single::ZERO).to_bits(),
        Semantics::Double => (-Double::ZERO).to_bits(),
        Semantics::Quad => (-Quad::ZERO).to_bits(),
        Semantics::BFloat => (-BFloat::ZERO).to_bits(),
        Semantics::Float8E5M2 => (-Float8E5M2::ZERO).to_bits(),
        Semantics::Float8E4M3FN => (-Float8E4M3FN::ZERO).to_bits(),
        Semantics::X87DoubleExtended => (-X87DoubleExtended::ZERO).to_bits(),
    }
}

/// The bits of `-Float::INFINITY` of the type that `sem` names: negation flips the sign bit.
#[verifier::external_body]
fn negative_infinity(sem: Semantics) -> (bits: u128)
    ensures
        bits == sem.negated(sem.infinity_bits()),
{
    match sem {
        Semantics::Half => (-Half::INFINITY).to_bits(),
        Semantics::Single => (-Single::INFINITY).to_bits(),
        Semantics::Double => (-Double::INFINITY).to_bits(),
        Semantics::Quad => (-Quad::INFINITY).to_bits(),
        Semantics::BFloat => (-BFloat::INFINITY).to_bits(),
        Semantics::Float8E5M2 => (-Float8E5M2::INFINITY).to_bits(),
        Semantics::Float8E4M3FN => (-Float8E4M3FN::INFINITY).to_bits(),
        Semantics::X87DoubleExtended => (-X87DoubleExtended::INFINITY).to_bits(),
    }
}

/// The bits of `Float::qnan(None)` of the type that `sem` names: the top exponent, and the quiet
/// bit alone in the fraction. The one NaN of a format without infinities has all bits set.
#[verifier::external_body]
fn qnan(sem: Semantics) -> (bits: u128)
    ensures
        bits == sem.qnan_bits(),
{
    match sem {
        Semantics::Half => <Half as Float>::qnan(None).to_bits(),
        Semantics::Single => <Single as Float>::qnan(None).to_bits(),
        Semantics::Double => <Double as Float>::qnan(None).to_bits(),
        Semantics::Quad => <Quad as Float>::qnan(None).to_bits(),
        Semantics::BFloat => <BFloat as Float>::qnan(None).to_bits(),
        Semantics::Float8E5M2 => <Float8E5M2 as Float>::qnan(None).to_bits(),
        Semantics::Float8E4M3FN => <Float8E4M3FN as Float>::qnan(None).to_bits(),
        Semantics::X87DoubleExtended => <X87DoubleExtended as Float>::qnan(None).to_bits(),
    }
}

/// The bits of `Float::snan(None)` of the type that `sem` names: the top exponent, and the bit
/// below the quiet bit alone in the fraction. A format without infinities has no signaling NaN and
/// gives its one NaN.
#[verifier::external_body]
fn snan(sem: Semantics) -> (bits: u128)
    ensures
        bits == sem.snan_bits(),
{
    match sem {
        Semantics::Half => Half::snan(None).to_bits(),
        Semantics::Single => Single::snan(None).to_bits(),
        Semantics::Double => Double::snan(None).to_bits(),
        Semantics::Quad => Quad::snan(None).to_bits(),
        Semantics::BFloat => BFloat::snan(None).to_bits(),
        Semantics::Float8E5M2 => Float8E5M2::snan(None).to_bits(),
        Semantics::Float8E4M3FN => Float8E4M3FN::snan(None).to_bits(),
        Semantics::X87DoubleExtended => X87DoubleExtended::snan(None).to_bits(),
    }
}

/// The bits of `Float::largest()` of the type that `sem` names: the largest finite number.
#[verifier::external_body]
fn largest(sem: Semantics) -> (bits: u128)
    ensures
        bits == sem.largest_bits(),
{
    match sem {
        Semantics::Half => Half::largest().to_bits(),
        Semantics::Single => Single::largest().to_bits(),
        Semantics::Double => Double::largest().to_bits(),
        Semantics::Quad => Quad::largest().to_bits(),
        Semantics::BFloat => BFloat::largest().to_bits(),
        Semantics::Float8E5M2 => Float8E5M2::largest().to_bits(),
        Semantics::Float8E4M3FN => Float8E4M3FN::largest().to_bits(),
        Semantics::X87DoubleExtended => X87DoubleExtended::largest().to_bits(),
    }
}

/// The bits of `Float::SMALLEST` of the type that `sem` names, the smallest positive number: the
/// lowest bit alone.
#[verifier::external_body]
fn smallest(sem: Semantics) -> (bits: u128)
    ensures
        bits == 1,
{
    match sem {
        Semantics::Half => Half::SMALLEST.to_bits(),
        Semantics::Single => Single::SMALLEST.to_bits(),
        Semantics::Double => Double::SMALLEST.to_bits(),
        Semantics::Quad => Quad::SMALLEST.to_bits(),
        Semantics::BFloat => BFloat::SMALLEST.to_bits(),
        Semantics::Float8E5M2 => Float8E5M2::SMALLEST.to_bits(),
        Semantics::Float8E4M3FN => Float8E4M3FN::SMALLEST.to_bits(),
        Semantics::X87DoubleExtended => X87DoubleExtended::SMALLEST.to_bits(),
    }
}

/// The bits of `Float::smallest_normalized()` of the type that `sem` names: the lowest exponent
/// that is not that of the denormals, with an empty fraction.
#[verifier::external_body]
fn smallest_normalized(sem: Semantics) -> (bits: u128)
    ensures
        bits == sem.smallest_normalized_bits(),
{
    match sem {
        Semantics::Half => Half::smallest_normalized().to_bits(),
        Semantics::Single => Single::smallest_normalized().to_bits(),
        Semantics::Double => Double::smallest_normalized().to_bits(),
        Semantics::Quad => Quad::smallest_normalized().to_bits(),
        Semantics::BFloat => BFloat::smallest_normalized().to_bits(),
        Semantics::Float8E5M2 => Float8E5M2::smallest_normalized().to_bits(),
        Semantics::Float8E4M3FN => Float8E4M3FN::smallest_normalized().to_bits(),
        Semantics::X87DoubleExtended => X87DoubleExtended::smallest_normalized().to_bits(),
    }
}

/// The bits of `Float::SMALLEST / Float::SMALLEST` of the type that `sem` names. There is no
/// constant for the number one, but a nonzero finite number divided by itself is exactly that.
#[verifier::external_body]
fn one(sem: Semantics) -> (bits: u128)
    ensures
        bits == sem.one_bits(),
{
    match sem {
        Semantics::Half => (Half::SMALLEST / Half::SMALLEST).value.to_bits(),
        Semantics::Single => (Single::SMALLEST / Single::SMALLEST).value.to_bits(),
        Semantics::Double => (Double::SMALLEST / Double::SMALLEST).value.to_bits(),
        Semantics::Quad => (Quad::SMALLEST / Quad::SMALLEST).value.to_bits(),
        Semantics::BFloat => (BFloat::SMALLEST / BFloat::SMALLEST).value.to_bits(),
        Semantics::Float8E5M2 => (Float8E5M2::SMALLEST / Float8E5M2::SMALLEST).value.to_bits(),
        Semantics::Float8E4M3FN => (Float8E4M3FN::SMALLEST / Float8E4M3FN::SMALLEST).value.to_bits(),
        Semantics::X87DoubleExtended => (X87DoubleExtended::SMALLEST / X87DoubleExtended::SMALLEST).value.to_bits(),
    }
}

/// The inputs that each operand of a float format takes.
pub fn inputs(sem: Semantics) -> (bits: Vec<u128>)
    ensures
        bits@ == sem.input_bits(),
{
    let mut bits: Vec<u128> = Vec::new();
    bits.push(zero(sem));
    bits.push(infinity(sem));
    bits.push(negative_zero(sem));
    bits.push(negative_infinity(sem));
    bits.push(qnan(sem));
    bits.push(snan(sem));
    bits.push(largest(sem));
    bits.push(smallest(sem));
    bits.push(smallest_normalized(sem));
    bits.push(one(sem));
    bits
}

proof fn lemma_assemble_fits(sem: Semantics, exponent: nat, significand: nat)
    requires
        exponent <= sem.top_exponent(),
        significand <= sem.top_significand(),
    ensures
        sem.assemble(exponent, significand) < pow2((sem.bits() - 1) as nat),
        sem.negated(sem.assemble(exponent, significand)) < pow2(sem.bits()),
{
    let unit = pow2(sem.significand_bits());
    lemma_pow2_pos(sem.exponent_bits());
    lemma_pow2_pos(sem.significand_bits());
    lemma_pow2_adds(sem.exponent_bits(), sem.significand_bits());
    lemma_pow2_unfold(sem.bits());
    assert(exponent * unit + significand < pow2(sem.exponent_bits()) * unit) by (nonlinear_arith)
        requires
            exponent + 1 <= pow2(sem.exponent_bits()),
            significand < unit,
    ;
}

/// Every input fits the bits of its format.
pub proof fn lemma_inputs_fit(sem: Semantics, k: int)
    requires
        0 <= k < 10,
    ensures
        sem.input_bits().len() == 10,
        sem.input_bits()[k] < pow2(sem.bits()) <= pow2(128),
        pow2(128) == u128::MAX + 1,
{
    let top = sem.top_exponent();
    let e = sem.exponent_bits();
    let m = sem.significand_bits();
    vstd::arithmetic::power2::lemma2_to64();
    lemma_pow2_adds(64, 64);
    assert(0x1_0000_0000_0000_0000 * 0x1_0000_0000_0000_0000 == u128::MAX + 1);
    if sem.bits() < 128 {
        lemma_pow2_strictly_increases(sem.bits(), 128);
    }
    lemma_pow2_unfold(e);
    lemma_pow2_unfold(m);
    lemma_pow2_unfold((m - 1) as nat);
    lemma_pow2_strictly_increases(1, e);
    lemma_pow2_strictly_increases(1, m);
    lemma_pow2_pos((e - 1) as nat);
    lemma_pow2_pos((m - 1) as nat);
    lemma_pow2_pos((m - 2) as nat);
    if sem == Semantics::X87DoubleExtended {
        lemma_pow2_unfold(62);
        lemma_pow2_pos(61);
        lemma_pow2_pos(62);
    }
    assert(sem.assemble(0, 0) == 0);
    assert(sem.assemble(0, 1) == 1);
    lemma_assemble_fits(sem, 0, 0);
    lemma_assemble_fits(sem, 0, 1);
    lemma_assemble_fits(sem, top, sem.top_significand());
    lemma_assemble_fits(sem, top, (sem.top_significand() - 1) as nat);
    lemma_assemble_fits(sem, (top - 1) as nat, sem.top_significand());
    lemma_assemble_fits(sem, 1, sem.integer_bit());
    lemma_assemble_fits(sem, (pow2((e - 1) as nat) - 1) as nat, sem.integer_bit());
    if sem.has_infinity() {
        lemma_assemble_fits(sem, top, sem.integer_bit());
        lemma_assemble_fits(
            sem,
            top,
            sem.integer_bit() + pow2((sem.fraction_bits() - 1) as nat),
        );
        lemma_assemble_fits(
            sem,
            top,
            sem.integer_bit() + pow2((sem.fraction_bits() - 2) as nat),
        );
    }
    lemma_pow2_unfold(sem.bits());
    assert(sem.infinity_bits() < pow2((sem.bits() - 1) as nat));
    assert(sem.qnan_bits() < pow2((sem.bits() - 1) as nat));
    assert(sem.snan_bits() < pow2((sem.bits() - 1) as nat));
    assert(sem.largest_bits() < pow2((sem.bits() - 1) as nat));
    assert(sem.smallest_normalized_bits() < pow2((sem.bits() - 1) as nat));
    assert(sem.one_bits() < pow2((sem.bits() - 1) as nat));
}

} // verus!
