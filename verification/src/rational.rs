//! Exact rational numbers in lowest terms.
//!
//! An [`ExactRational`] holds a numerator and a positive denominator as
//! canonical decimal strings, reduced to lowest terms. Its mathematical value
//! is the spec-level fraction [`Rat`]. Unbounded-precision reduction and
//! addition are delegated to the `num` crate behind trusted wrappers whose
//! contracts pin the result down exactly; everything around them is verified.

use vstd::prelude::*;
use crate::decimal::{
    dec_digits, dec_int, digits_val, int_val, is_digits, is_int_literal,
    lemma_dec_digits_well_formed, lemma_dec_int_well_formed, lemma_dec_int_zero, int_to_string,
    nat_to_string,
};

verus! {

/// The absolute value of an integer, as a natural number.
pub open spec fn abs_nat(v: int) -> nat {
    if v < 0 {
        (-v) as nat
    } else {
        v as nat
    }
}

/// Euclid's greatest common divisor of two non-negative integers.
pub open spec fn gcd(a: nat, b: nat) -> nat
    decreases b,
{
    if b == 0 {
        a
    } else {
        gcd(b, a % b)
    }
}

/// The mathematical value of an exact rational: a numerator and a
/// denominator, the denominator positive for well-formed values.
pub ghost struct Rat {
    pub num: int,
    pub den: int,
}

/// A fraction in lowest terms: positive denominator, numerator and
/// denominator coprime.
pub open spec fn rat_reduced(r: Rat) -> bool {
    &&& r.den >= 1
    &&& gcd(abs_nat(r.num), r.den as nat) == 1
}

/// The canonical (lowest-terms) form of the fraction `n / d`, for `d >= 1`:
/// both parts divided by their greatest common divisor.
pub open spec fn rat_canon(n: int, d: int) -> Rat {
    let g = gcd(abs_nat(n), abs_nat(d)) as int;
    Rat { num: n / g, den: d / g }
}

/// The exact rational value of an integer.
pub open spec fn rat_int(v: int) -> Rat {
    Rat { num: v, den: 1 }
}

/// Exact addition of two fractions, reduced to canonical form.
pub open spec fn rat_add(a: Rat, b: Rat) -> Rat {
    rat_canon(a.num * b.den + b.num * a.den, a.den * b.den)
}

/// Exact negation; canonical form is preserved.
pub open spec fn rat_neg(a: Rat) -> Rat {
    Rat { num: -a.num, den: a.den }
}

/// The exact value of a signed fraction `n / d` (`d` nonzero): the magnitudes
/// reduced to lowest terms, the result negated when exactly one of the two is
/// negative.
pub open spec fn rat_fraction(n: int, d: int) -> Rat {
    let c = rat_canon(abs_nat(n) as int, abs_nat(d) as int);
    if (n < 0) != (d < 0) {
        rat_neg(c)
    } else {
        c
    }
}

/// The canonical textual form of a rational value:
/// `<numerator>/<denominator>`, both in decimal.
pub open spec fn rat_literal(r: Rat) -> Seq<char> {
    dec_int(r.num) + seq!['/'] + dec_int(r.den)
}

/// `gcd(a, 1) == 1`: an integer and 1 are always coprime.
pub proof fn lemma_gcd_one(a: nat)
    ensures
        gcd(a, 1) == 1,
{
    assert(a % 1 == 0) by (nonlinear_arith);
    assert(gcd(a, 1) == gcd(1, 0));
    assert(gcd(1, 0) == 1);
}

/// Relies on `num::BigInt::from_str` and `num::BigRational::new`: the
/// fraction of two decimal digit strings, reduced to lowest terms (both parts
/// divided by their greatest common divisor, denominator kept positive), each
/// part rendered back as a canonical decimal string.
#[verifier::external_body]
fn big_reduce(n: &str, d: &str) -> (r: (String, String))
    requires
        is_digits(n@),
        is_digits(d@),
        digits_val(d@) != 0,
    ensures
        r.0@ == dec_int(rat_canon(digits_val(n@) as int, digits_val(d@) as int).num),
        r.1@ == dec_int(rat_canon(digits_val(n@) as int, digits_val(d@) as int).den),
        rat_reduced(Rat { num: int_val(r.0@), den: int_val(r.1@) }),
{
    let bn = <num::BigInt as std::str::FromStr>::from_str(n).unwrap();
    let bd = <num::BigInt as std::str::FromStr>::from_str(d).unwrap();
    let q = num::rational::BigRational::new(bn, bd);
    (q.numer().to_string(), q.denom().to_string())
}

/// Relies on `num::BigRational` addition: the exact sum of two fractions
/// given as decimal strings (signed numerators, positive denominators),
/// reduced to lowest terms with a positive denominator and rendered back as
/// canonical decimal strings.
#[verifier::external_body]
fn big_add(n1: &str, d1: &str, n2: &str, d2: &str) -> (r: (String, String))
    requires
        is_int_literal(n1@),
        is_digits(d1@),
        digits_val(d1@) != 0,
        is_int_literal(n2@),
        is_digits(d2@),
        digits_val(d2@) != 0,
    ensures
        ({
            let s = rat_add(
                Rat { num: int_val(n1@), den: digits_val(d1@) as int },
                Rat { num: int_val(n2@), den: digits_val(d2@) as int },
            );
            r.0@ == dec_int(s.num) && r.1@ == dec_int(s.den)
        }),
        rat_reduced(Rat { num: int_val(r.0@), den: int_val(r.1@) }),
{
    let a = num::rational::BigRational::new_raw(
        <num::BigInt as std::str::FromStr>::from_str(n1).unwrap(),
        <num::BigInt as std::str::FromStr>::from_str(d1).unwrap(),
    );
    let b = num::rational::BigRational::new_raw(
        <num::BigInt as std::str::FromStr>::from_str(n2).unwrap(),
        <num::BigInt as std::str::FromStr>::from_str(d2).unwrap(),
    );
    let q = a + b;
    (q.numer().to_string(), q.denom().to_string())
}

/// An arbitrary-precision rational number in lowest terms: the numerator
/// (sign included) and the positive denominator, each held as its canonical
/// decimal rendering.
#[derive(Debug)]
pub struct ExactRational {
    num: String,
    den: String,
}

impl View for ExactRational {
    type V = Rat;

    closed spec fn view(&self) -> Rat {
        Rat { num: int_val(self.num@), den: int_val(self.den@) }
    }
}

impl Clone for ExactRational {
    fn clone(&self) -> (r: Self)
        ensures
            r == *self,
    {
        ExactRational { num: self.num.clone(), den: self.den.clone() }
    }
}

impl ExactRational {
    /// Well-formed: the two strings are the canonical decimal renderings of
    /// the value's parts, and the value is in lowest terms with a positive
    /// denominator.
    pub closed spec fn wf(self) -> bool {
        &&& self.num@ == dec_int(self@.num)
        &&& self.den@ == dec_int(self@.den)
        &&& rat_reduced(self@)
    }

    /// Well-formed values are reduced: exposes the invariant to callers.
    pub proof fn lemma_wf_reduced(self)
        requires
            self.wf(),
        ensures
            rat_reduced(self@),
    {
    }

    /// Builds a rational from already canonical parts.
    pub(crate) fn from_canonical(num: String, den: String) -> (r: Self)
        requires
            num@ == dec_int(int_val(num@)),
            den@ == dec_int(int_val(den@)),
            rat_reduced(Rat { num: int_val(num@), den: int_val(den@) }),
        ensures
            r.wf(),
            r@ == (Rat { num: int_val(num@), den: int_val(den@) }),
    {
        ExactRational { num, den }
    }

    /// The reduced fraction of two decimal digit strings of any length;
    /// the denominator string must not denote zero.
    pub(crate) fn reduce_fraction(n: &str, d: &str) -> (r: Self)
        requires
            is_digits(n@),
            is_digits(d@),
            digits_val(d@) != 0,
        ensures
            r.wf(),
            r@ == rat_canon(digits_val(n@) as int, digits_val(d@) as int),
    {
        let (num, den) = big_reduce(n, d);
        proof {
            let c = rat_canon(digits_val(n@) as int, digits_val(d@) as int);
            lemma_dec_int_well_formed(c.num);
            lemma_dec_int_well_formed(c.den);
        }
        ExactRational { num, den }
    }

    /// The exact rational with the given integer value and denominator 1.
    pub fn from_integer(v: i128) -> (r: Self)
        ensures
            r.wf(),
            r@ == rat_int(v as int),
    {
        let num = int_to_string(v);
        let den = String::from_str(digit_str_one());
        proof {
            lemma_dec_int_well_formed(v as int);
            lemma_dec_int_well_formed(1int);
            lemma_gcd_one(abs_nat(v as int));
        }
        ExactRational { num, den }
    }

    /// The exact rational `num / den`, reduced to lowest terms; the
    /// denominator must not be zero.
    pub fn from_fraction(num: i128, den: i128) -> (r: Self)
        requires
            den != 0,
        ensures
            r.wf(),
            r@ == rat_fraction(num as int, den as int),
    {
        let nmag = abs_magnitude(num);
        let dmag = abs_magnitude(den);
        proof {
            lemma_dec_digits_well_formed(abs_nat(num as int));
            lemma_dec_digits_well_formed(abs_nat(den as int));
        }
        let q = Self::reduce_fraction(nmag.as_str(), dmag.as_str());
        let opposite = (num < 0) != (den < 0);
        if opposite {
            q.neg()
        } else {
            q
        }
    }

    /// True exactly when the value is zero.
    pub fn is_zero(&self) -> (b: bool)
        requires
            self.wf(),
        ensures
            b <==> self@.num == 0,
    {
        let zero = String::from_str(digit_str_zero());
        let b = self.num == zero;
        proof {
            lemma_dec_int_zero(self@.num);
        }
        b
    }

    /// Exact negation, by flipping the sign of the numerator string.
    pub fn neg(&self) -> (r: Self)
        requires
            self.wf(),
        ensures
            r.wf(),
            r@ == rat_neg(self@),
    {
        proof {
            lemma_dec_int_well_formed(self@.num);
            reveal_strlit("-");
        }
        if self.is_zero() {
            let r = self.clone();
            proof {
                assert(rat_neg(self@) == self@);
            }
            r
        } else if self.num.as_str().get_char(0) == '-' {
            let n = self.num.as_str().unicode_len();
            let num = self.num.as_str().substring_char(1, n).to_owned();
            proof {
                assert(self@.num < 0);
                assert(num@ =~= self.num@.skip(1));
                assert(num@ == dec_digits((-self@.num) as nat));
                lemma_dec_int_well_formed(-self@.num);
                assert(abs_nat(-self@.num) == abs_nat(self@.num));
            }
            ExactRational { num, den: self.den.clone() }
        } else {
            let mut num = String::from_str("-");
            num.append(self.num.as_str());
            proof {
                assert(self@.num > 0);
                assert(self.num@ == dec_digits(self@.num as nat));
                assert(num@ =~= seq!['-'] + dec_digits(self@.num as nat));
                assert(num@ == dec_int(-self@.num));
                lemma_dec_int_well_formed(-self@.num);
                assert(abs_nat(-self@.num) == abs_nat(self@.num));
            }
            ExactRational { num, den: self.den.clone() }
        }
    }

    /// Exact addition; the result is again in lowest terms.
    pub fn add(&self, other: &Self) -> (r: Self)
        requires
            self.wf(),
            other.wf(),
        ensures
            r.wf(),
            r@ == rat_add(self@, other@),
    {
        proof {
            lemma_dec_int_well_formed(self@.num);
            lemma_dec_int_well_formed(self@.den);
            lemma_dec_int_well_formed(other@.num);
            lemma_dec_int_well_formed(other@.den);
        }
        let (num, den) = big_add(
            self.num.as_str(),
            self.den.as_str(),
            other.num.as_str(),
            other.den.as_str(),
        );
        proof {
            let s = rat_add(self@, other@);
            lemma_dec_int_well_formed(s.num);
            lemma_dec_int_well_formed(s.den);
        }
        ExactRational { num, den }
    }

    /// The canonical textual form, `<numerator>/<denominator>`.
    pub fn serialize(&self) -> (s: String)
        requires
            self.wf(),
        ensures
            s@ == rat_literal(self@),
    {
        let mut s = self.num.clone();
        s.append("/");
        s.append(self.den.as_str());
        proof {
            reveal_strlit("/");
            assert(s@ =~= rat_literal(self@));
        }
        s
    }
}

/// The decimal rendering of a machine integer's magnitude.
fn abs_magnitude(v: i128) -> (s: String)
    ensures
        s@ == dec_digits(abs_nat(v as int)),
{
    if v >= 0 {
        nat_to_string(v as u128)
    } else {
        let mag: u128 = if v == i128::MIN {
            170141183460469231731687303715884105728u128
        } else {
            (-v) as u128
        };
        assert(mag == abs_nat(v as int));
        nat_to_string(mag)
    }
}

/// The string "1" (kept out of string literals' opacity: revealed here once).
fn digit_str_one() -> (r: &'static str)
    ensures
        r@ == dec_int(1),
{
    proof {
        reveal_strlit("1");
    }
    let r = "1";
    proof {
        assert(r@ =~= seq![crate::decimal::digit_char(1)]);
    }
    r
}

/// The string "0".
fn digit_str_zero() -> (r: &'static str)
    ensures
        r@ == seq!['0'],
{
    proof {
        reveal_strlit("0");
    }
    let r = "0";
    proof {
        assert(r@ =~= seq!['0']);
    }
    r
}

impl PartialEq for ExactRational {
    /// Structural comparison of the canonical forms; for well-formed values
    /// this coincides with mathematical equality (`lemma_eq_is_value_eq`).
    fn eq(&self, other: &Self) -> (r: bool) {
        self.num == other.num && self.den == other.den
    }
}

impl Eq for ExactRational {

}

impl vstd::std_specs::cmp::PartialEqSpecImpl for ExactRational {
    open spec fn obeys_eq_spec() -> bool {
        true
    }

    closed spec fn eq_spec(&self, other: &Self) -> bool {
        self.num@ == other.num@ && self.den@ == other.den@
    }
}

/// For well-formed rationals, the executable `==` answers exactly whether the
/// two mathematical values are equal: canonical forms are unique.
pub proof fn lemma_eq_is_value_eq(a: &ExactRational, b: &ExactRational)
    requires
        a.wf(),
        b.wf(),
    ensures
        vstd::std_specs::cmp::PartialEqSpec::eq_spec(a, b) <==> a@ == b@,
{
    if a@ == b@ {
        assert(a.num@ == b.num@);
        assert(a.den@ == b.den@);
    }
    if vstd::std_specs::cmp::PartialEqSpec::eq_spec(a, b) {
        lemma_dec_int_well_formed(a@.num);
        lemma_dec_int_well_formed(a@.den);
        lemma_dec_int_well_formed(b@.num);
        lemma_dec_int_well_formed(b@.den);
    }
}

} // verus!
