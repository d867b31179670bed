use num_bigint::{BigInt, Sign};
use num_rational::BigRational;
use vstd::prelude::*;

verus! {

/// Base of the digits of a magnitude.
pub const DIGIT_BASE: u64 = 0x1_0000_0000;

/// The value of little-endian base 2^32 digits.
pub open spec fn digits_value(d: Seq<u32>) -> nat
    decreases d.len(),
{
    if d.len() == 0 {
        0
    } else {
        d[0] as nat + DIGIT_BASE as nat * digits_value(d.skip(1))
    }
}

/// Digits without a most significant zero, so that each value has one representation.
pub open spec fn canonical(d: Seq<u32>) -> bool {
    d.len() == 0 || d.last() != 0
}

/// The integer with the given sign and magnitude digits.
pub open spec fn signed_value(negative: bool, d: Seq<u32>) -> int {
    if negative {
        -(digits_value(d) as int)
    } else {
        digits_value(d) as int
    }
}

/// No integer above one divides both.
pub open spec fn coprime(a: nat, b: nat) -> bool {
    forall|k: nat| k > 1 ==> !(#[trigger] (a % k) == 0 && b % k == 0)
}

/// An integer of any size: a sign and the little-endian base 2^32 digits of its magnitude, with
/// no most significant zero digit, and zero never negative.
pub struct Numeral {
    negative: bool,
    digits: Vec<u32>,
}

impl View for Numeral {
    type V = (bool, Seq<u32>);

    closed spec fn view(&self) -> (bool, Seq<u32>) {
        (self.negative, self.digits@)
    }
}

impl Numeral {
    #[verifier::type_invariant]
    spec fn inv(self) -> bool {
        canonical(self.digits@) && (self.digits@.len() == 0 ==> !self.negative)
    }

    /// Canonical digits, and zero is not negative.
    pub open spec fn wf(&self) -> bool {
        canonical(self@.1) && (self@.1.len() == 0 ==> !self@.0)
    }

    /// The integer this numeral denotes.
    pub open spec fn value(&self) -> int {
        signed_value(self@.0, self@.1)
    }

    /// The integer with the given sign and magnitude digits; most significant zero digits are
    /// dropped, and a zero magnitude is never negative.
    pub fn new(negative: bool, digits: Vec<u32>) -> (r: Numeral)
        ensures
            r.wf(),
            exists|k: nat|
                k <= digits@.len() && #[trigger] digits@.subrange(0, k as int) == r@.1 && (
                forall|j: int| k <= j < digits@.len() ==> digits@[j] == 0),
            r@.0 == (negative && r@.1.len() > 0),
    {
        let mut digits = digits;
        let ghost given = digits@;
        while digits.len() > 0 && digits[digits.len() - 1] == 0
            invariant
                digits@.len() <= given.len(),
                digits@ == given.subrange(0, digits@.len() as int),
                forall|j: int| digits@.len() <= j < given.len() ==> given[j] == 0,
            decreases digits@.len(),
        {
            digits.pop();
        }
        let negative = negative && digits.len() > 0;
        Numeral { negative, digits }
    }

    /// The non-negative integer `n`.
    pub fn from_u64(n: u64) -> (r: Numeral)
        ensures
            r.wf(),
            r.value() == n,
    {
        let lo = (n % DIGIT_BASE) as u32;
        let hi = (n / DIGIT_BASE) as u32;
        let mut digits: Vec<u32> = Vec::new();
        if hi > 0 {
            digits.push(lo);
            digits.push(hi);
            proof {
                assert(digits@.skip(1).skip(1) =~= Seq::<u32>::empty());
                assert(digits@.skip(1)[0] == hi);
                assert(digits_value(digits@.skip(1).skip(1)) == 0);
                assert(digits_value(digits@.skip(1)) == hi);
            }
        } else if lo > 0 {
            digits.push(lo);
            proof {
                assert(digits@.skip(1) =~= Seq::<u32>::empty());
            }
        }
        Numeral { negative: false, digits }
    }

    /// Whether the numeral is below zero.
    pub fn is_negative(&self) -> (r: bool)
        ensures
            r == self@.0,
    {
        self.negative
    }

    /// The little-endian base 2^32 digits of the magnitude.
    pub fn digits(&self) -> (r: &Vec<u32>)
        ensures
            r@ == self@.1,
    {
        &self.digits
    }

    /// Equality of sign and digits, which is equality of value.
    pub fn equals(&self, other: &Numeral) -> (r: bool)
        ensures
            r == (self@ == other@),
    {
        if self.negative != other.negative || self.digits.len() != other.digits.len() {
            return false;
        }
        let mut i: usize = 0;
        while i < self.digits.len()
            invariant
                self.digits@.len() == other.digits@.len(),
                i <= self.digits@.len(),
                forall|j: int| 0 <= j < i ==> self.digits@[j] == other.digits@[j],
            decreases self.digits@.len() - i,
        {
            if self.digits[i] != other.digits[i] {
                return false;
            }
            i = i + 1;
        }
        assert(self.digits@ =~= other.digits@);
        true
    }

    /// A copy of this numeral.
    pub fn duplicate(&self) -> (r: Numeral)
        ensures
            r@ == self@,
    {
        proof {
            use_type_invariant(self);
        }
        Numeral { negative: self.negative, digits: self.digits.clone() }
    }
}

/// Relies on num_rational::Ratio::new, which puts a fraction of num_bigint::BigInt values in
/// lowest terms with a positive denominator, and on BigInt::from_slice and
/// BigInt::to_u32_digits, which read and give a sign with little-endian base 2^32 digits, the
/// latter without a most significant zero digit.
#[verifier::external_body]
fn reduce_fraction(
    n_negative: bool,
    n_digits: &Vec<u32>,
    d_negative: bool,
    d_digits: &Vec<u32>,
) -> (r: (bool, Vec<u32>, Vec<u32>))
    requires
        digits_value(d_digits@) > 0,
    ensures
        canonical(r.1@),
        canonical(r.2@),
        r.1@.len() == 0 ==> !r.0,
        digits_value(r.2@) > 0,
        signed_value(r.0, r.1@) * signed_value(d_negative, d_digits@) == signed_value(
            n_negative,
            n_digits@,
        ) * digits_value(r.2@),
        coprime(digits_value(r.1@), digits_value(r.2@)),
{
    let n_sign = if n_negative { Sign::Minus } else { Sign::Plus };
    let d_sign = if d_negative { Sign::Minus } else { Sign::Plus };
    let ratio = BigRational::new(BigInt::from_slice(n_sign, n_digits), BigInt::from_slice(d_sign, d_digits));
    let (sign, numer) = ratio.numer().to_u32_digits();
    let (_, denom) = ratio.denom().to_u32_digits();
    let negative = match sign {
        Sign::Minus => true,
        Sign::NoSign | Sign::Plus => false,
    };
    (negative, numer, denom)
}

/// A rational number of any size, kept in lowest terms with a positive denominator, so that
/// two equal values have equal representations.
pub struct Rational {
    numer: Numeral,
    denom: Vec<u32>,
}

impl View for Rational {
    type V = (bool, Seq<u32>, Seq<u32>);

    closed spec fn view(&self) -> (bool, Seq<u32>, Seq<u32>) {
        (self.numer@.0, self.numer@.1, self.denom@)
    }
}

impl Rational {
    #[verifier::type_invariant]
    spec fn inv(self) -> bool {
        &&& canonical(self.numer.digits@)
        &&& canonical(self.denom@)
        &&& (self.numer.digits@.len() == 0 ==> !self.numer.negative)
        &&& digits_value(self.denom@) > 0
        &&& coprime(digits_value(self.numer.digits@), digits_value(self.denom@))
    }

    /// Canonical digits, zero not negative, a positive denominator, and lowest terms.
    pub open spec fn wf(&self) -> bool {
        &&& canonical(self@.1)
        &&& canonical(self@.2)
        &&& (self@.1.len() == 0 ==> !self@.0)
        &&& digits_value(self@.2) > 0
        &&& coprime(digits_value(self@.1), digits_value(self@.2))
    }

    /// The fraction `numer / denom` in lowest terms; `None` when `denom` is zero.
    pub fn new(numer: &Numeral, denom: &Numeral) -> (r: Option<Rational>)
        ensures
            r is None <==> denom.value() == 0,
            r matches Some(q) ==> q.wf() && signed_value(q@.0, q@.1) * denom.value() == numer.value()
                * digits_value(q@.2),
    {
        proof {
            use_type_invariant(numer);
            use_type_invariant(denom);
        }
        if denom.digits.len() == 0 {
            return None;
        }
        proof {
            lemma_nonzero_value(denom.digits@);
        }
        let (negative, n, d) = reduce_fraction(numer.negative, &numer.digits, denom.negative, &denom.digits);
        Some(Rational { numer: Numeral { negative, digits: n }, denom: d })
    }

    /// The numerator, carrying the sign.
    pub fn numer(&self) -> (r: &Numeral)
        ensures
            r@ == (self@.0, self@.1),
    {
        &self.numer
    }

    /// The magnitude digits of the denominator.
    pub fn denom(&self) -> (r: &Vec<u32>)
        ensures
            r@ == self@.2,
    {
        &self.denom
    }

    /// Equality of the reduced representations, which is equality of value.
    pub fn equals(&self, other: &Rational) -> (r: bool)
        ensures
            r == (self@ == other@),
    {
        if !self.numer.equals(&other.numer) || self.denom.len() != other.denom.len() {
            return false;
        }
        let mut i: usize = 0;
        while i < self.denom.len()
            invariant
                self.denom@.len() == other.denom@.len(),
                i <= self.denom@.len(),
                forall|j: int| 0 <= j < i ==> self.denom@[j] == other.denom@[j],
            decreases self.denom@.len() - i,
        {
            if self.denom[i] != other.denom[i] {
                return false;
            }
            i = i + 1;
        }
        assert(self.denom@ =~= other.denom@);
        true
    }

    /// A copy of this rational.
    pub fn duplicate(&self) -> (r: Rational)
        ensures
            r@ == self@,
    {
        proof {
            use_type_invariant(self);
        }
        Rational { numer: self.numer.duplicate(), denom: self.denom.clone() }
    }
}

/// Canonical digits that are not all absent denote a positive value.
proof fn lemma_nonzero_value(d: Seq<u32>)
    requires
        canonical(d),
        d.len() > 0,
    ensures
        digits_value(d) > 0,
    decreases d.len(),
{
    if d.len() > 1 {
        assert(d.skip(1).last() == d.last());
        lemma_nonzero_value(d.skip(1));
    }
}

} // verus!
