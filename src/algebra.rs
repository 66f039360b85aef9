//! What the commitment structures need of the algebra they carry.
//!
//! Every trait here states its operations over spec functions, so that the structures
//! built on top can be specified exactly, and states the algebraic laws that the
//! structures' own laws rest on as proof obligations of each instance.

use vstd::prelude::*;

verus! {

/// A type whose values may or may not be well-formed elements (for instance, a reduced
/// residue). The laws of the traits below are stated for well-formed values.
pub trait Element: Sized + Copy {
    spec fn spec_valid(self) -> bool;
}

/// The field operations used by linear combinations and polynomial evaluation.
pub trait Field: Element {
    spec fn spec_zero() -> Self;

    spec fn spec_add(self, other: Self) -> Self;

    spec fn spec_neg(self) -> Self;

    spec fn spec_mul(self, other: Self) -> Self;

    fn zero() -> (r: Self)
        ensures
            r == Self::spec_zero(),
    ;

    fn plus(&self, other: &Self) -> (r: Self)
        ensures
            r == self.spec_add(*other),
    ;

    fn negate(&self) -> (r: Self)
        ensures
            r == self.spec_neg(),
    ;

    fn times(&self, other: &Self) -> (r: Self)
        ensures
            r == self.spec_mul(*other),
    ;

    fn is_zero(&self) -> (r: bool)
        ensures
            r == (*self == Self::spec_zero()),
    ;

    fn equals(&self, other: &Self) -> (r: bool)
        ensures
            r == (*self == *other),
    ;

    proof fn lemma_closed(a: Self, b: Self)
        requires
            a.spec_valid(),
            b.spec_valid(),
        ensures
            Self::spec_zero().spec_valid(),
            a.spec_add(b).spec_valid(),
            a.spec_neg().spec_valid(),
            a.spec_mul(b).spec_valid(),
    ;

    /// Zero is the additive identity.
    proof fn lemma_add_zero(a: Self)
        requires
            a.spec_valid(),
        ensures
            a.spec_add(Self::spec_zero()) == a,
            Self::spec_zero().spec_add(a) == a,
    ;

    /// `neg` is the additive inverse.
    proof fn lemma_add_neg(a: Self)
        requires
            a.spec_valid(),
        ensures
            a.spec_add(a.spec_neg()) == Self::spec_zero(),
    ;
}

/// The group operations used to prepare a commitment.
pub trait Group: Element {
    spec fn spec_identity() -> Self;

    spec fn spec_plus(self, other: Self) -> Self;

    spec fn spec_double(self) -> Self;

    fn double(&self) -> (r: Self)
        ensures
            r == self.spec_double(),
    ;

    proof fn lemma_group_closed(a: Self, b: Self)
        requires
            a.spec_valid(),
            b.spec_valid(),
        ensures
            Self::spec_identity().spec_valid(),
            a.spec_plus(b).spec_valid(),
            a.spec_double().spec_valid(),
    ;

    /// Doubling adds an element to itself.
    proof fn lemma_double_is_plus(a: Self)
        requires
            a.spec_valid(),
        ensures
            a.spec_double() == a.spec_plus(a),
    ;

    /// The identity is neutral.
    proof fn lemma_plus_identity(a: Self)
        requires
            a.spec_valid(),
        ensures
            a.spec_plus(Self::spec_identity()) == a,
            Self::spec_identity().spec_plus(a) == a,
    ;

    /// The group operation is associative.
    proof fn lemma_plus_assoc(a: Self, b: Self, c: Self)
        requires
            a.spec_valid(),
            b.spec_valid(),
            c.spec_valid(),
        ensures
            a.spec_plus(b).spec_plus(c) == a.spec_plus(b.spec_plus(c)),
    ;
}

/// A canonical, self-delimiting byte encoding.
pub trait CanonicalBytes: Element {
    spec fn spec_encoding(self) -> Seq<u8>;

    /// Decodes a value from the front of `bytes`, with the number of bytes it took.
    spec fn spec_parse(bytes: Seq<u8>) -> Option<(Self, nat)>;

    fn write_le(&self, out: &mut Vec<u8>)
        ensures
            final(out)@ == old(out)@ + self.spec_encoding(),
    ;

    fn read_le(bytes: &[u8], pos: usize) -> (r: Option<(Self, usize)>)
        requires
            pos <= bytes@.len(),
        ensures
            r == (match Self::spec_parse(bytes@.subrange(pos as int, bytes@.len() as int)) {
                Some((x, n)) => Some((x, (pos + n) as usize)),
                None => None,
            }),
    ;

    /// A decoded value never takes more bytes than there are.
    proof fn lemma_parse_length(bytes: Seq<u8>)
        ensures
            Self::spec_parse(bytes) matches Some((x, n)) ==> n <= bytes.len(),
    ;

    /// The encoding of a well-formed value decodes to it, whatever follows.
    proof fn lemma_parse_encoding(x: Self, rest: Seq<u8>)
        requires
            x.spec_valid(),
        ensures
            Self::spec_parse(x.spec_encoding() + rest) == Some((x, x.spec_encoding().len())),
    ;
}

/// A value with a derived, pairing-friendly form that is a function of the value alone.
pub trait Prepare {
    type Prepared: View;

    spec fn spec_prepare(&self) -> <Self::Prepared as View>::V;

    fn prepare(&self) -> (r: Self::Prepared)
        ensures
            r@ == self.spec_prepare(),
    ;
}

} // verus!
