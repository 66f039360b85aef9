//! Labeled polynomials and their descriptions, as handed in by the constraint layer.

use vstd::prelude::*;
use crate::algebra::Field;

verus! {

/// The label and the degree bound of a polynomial, without the polynomial.
pub struct PolynomialInfo {
    label: String,
    degree_bound: Option<usize>,
}

impl PolynomialInfo {
    pub closed spec fn spec_label(&self) -> Seq<char> {
        self.label@
    }

    pub closed spec fn spec_degree_bound(&self) -> Option<usize> {
        self.degree_bound
    }

    pub fn new(label: String, degree_bound: Option<usize>) -> (r: PolynomialInfo)
        ensures
            r.spec_label() == label@,
            r.spec_degree_bound() == degree_bound,
    {
        PolynomialInfo { label, degree_bound }
    }

    /// The label.
    pub fn label(&self) -> (r: &str)
        ensures
            r@ == self.spec_label(),
    {
        self.label.as_str()
    }

    /// The degree bound, if any.
    pub fn degree_bound(&self) -> (r: Option<usize>)
        ensures
            r == self.spec_degree_bound(),
    {
        self.degree_bound
    }
}

/// The value at `x` of the polynomial with coefficients `c[i..]` (lowest degree first),
/// in Horner form: `c[i] + x * (c[i + 1] + x * (...))`.
pub open spec fn horner<F: Field>(c: Seq<F>, i: int, x: F) -> F
    decreases c.len() - i,
{
    if i >= c.len() {
        F::spec_zero()
    } else {
        c[i].spec_add(x.spec_mul(horner(c, i + 1, x)))
    }
}

/// The value at `x` of the polynomial with coefficients `c`, lowest degree first.
pub open spec fn poly_eval<F: Field>(c: Seq<F>, x: F) -> F {
    horner(c, 0, x)
}

/// A polynomial in coefficient form with its label and optional degree bound.
pub struct LabeledPolynomial<F> {
    label: String,
    coeffs: Vec<F>,
    degree_bound: Option<usize>,
}

impl<F> LabeledPolynomial<F> {
    pub closed spec fn spec_label(&self) -> Seq<char> {
        self.label@
    }

    /// The coefficients, lowest degree first.
    pub closed spec fn spec_coeffs(&self) -> Seq<F> {
        self.coeffs@
    }

    pub closed spec fn spec_degree_bound(&self) -> Option<usize> {
        self.degree_bound
    }

    pub fn new(label: String, coeffs: Vec<F>, degree_bound: Option<usize>) -> (r:
        LabeledPolynomial<F>)
        ensures
            r.spec_label() == label@,
            r.spec_coeffs() == coeffs@,
            r.spec_degree_bound() == degree_bound,
    {
        LabeledPolynomial { label, coeffs, degree_bound }
    }

    /// The label.
    pub fn label(&self) -> (r: &String)
        ensures
            r@ == self.spec_label(),
    {
        &self.label
    }

    /// The degree bound, if any.
    pub fn degree_bound(&self) -> (r: Option<usize>)
        ensures
            r == self.spec_degree_bound(),
    {
        self.degree_bound
    }
}

impl<F: Field> LabeledPolynomial<F> {
    /// The value of the polynomial at `x`.
    pub fn evaluate(&self, x: F) -> (r: F)
        ensures
            r == poly_eval(self.spec_coeffs(), x),
    {
        let mut acc = F::zero();
        let mut i: usize = self.coeffs.len();
        while i > 0
            invariant
                i <= self.coeffs@.len(),
                acc == horner(self.coeffs@, i as int, x),
            decreases i,
        {
            i = i - 1;
            let t = x.times(&acc);
            acc = self.coeffs[i].plus(&t);
        }
        acc
    }
}

} // verus!
