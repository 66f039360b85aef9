//! Commitments, their prepared (doubling-ladder) form, and labeled commitments.

use vstd::prelude::*;
use vstd::arithmetic::power2::{lemma_pow2_unfold, pow2};
use crate::algebra::{CanonicalBytes, Element, Group, Prepare};
use crate::polynomial::PolynomialInfo;

verus! {

/// The number of doublings in a prepared commitment: one per bit of a 128-bit scalar.
pub const PREPARED_LADDER_LEN: usize = 128;

/// A commitment to a polynomial: one group element.
#[derive(Clone, Copy, Debug, PartialEq, Eq)]
pub struct Commitment<G>(pub G);

/// A commitment prepared for pairing: the commitment doubled again and again.
pub struct PreparedCommitment<G>(pub Vec<G>);

impl<G> View for PreparedCommitment<G> {
    type V = Seq<G>;

    open spec fn view(&self) -> Seq<G> {
        self.0@
    }
}

/// `g` doubled `i` times.
pub open spec fn doubled<G: Group>(g: G, i: nat) -> G
    decreases i,
{
    if i == 0 {
        g
    } else {
        doubled(g, (i - 1) as nat).spec_double()
    }
}

/// The first `n` rungs of the doubling ladder of `g`: rung `i` is `g` doubled `i` times.
pub open spec fn doubling_ladder<G: Group>(g: G, n: nat) -> Seq<G> {
    Seq::new(n, |i: int| doubled(g, i as nat))
}

/// `n` times `g`: `g + g + ... + g`.
pub open spec fn scalar_mul<G: Group>(g: G, n: nat) -> G
    decreases n,
{
    if n == 0 {
        G::spec_identity()
    } else {
        scalar_mul(g, (n - 1) as nat).spec_plus(g)
    }
}

impl<G: Group> Prepare for Commitment<G> {
    type Prepared = PreparedCommitment<G>;

    open spec fn spec_prepare(&self) -> Seq<G> {
        doubling_ladder(self.0, PREPARED_LADDER_LEN as nat)
    }

    /// The doubling ladder of the commitment, [`PREPARED_LADDER_LEN`] rungs long, each
    /// rung the double of the one before.
    fn prepare(&self) -> (r: PreparedCommitment<G>) {
        let mut ladder: Vec<G> = Vec::new();
        let mut cur = self.0;
        let mut i: usize = 0;
        while i < PREPARED_LADDER_LEN
            invariant
                i <= PREPARED_LADDER_LEN,
                ladder@ == doubling_ladder(self.0, i as nat),
                cur == doubled(self.0, i as nat),
            decreases PREPARED_LADDER_LEN - i,
        {
            ladder.push(cur);
            cur = cur.double();
            i = i + 1;
            assert(ladder@ =~= doubling_ladder(self.0, i as nat));
        }
        PreparedCommitment(ladder)
    }
}

proof fn lemma_scalar_mul_valid<G: Group>(g: G, n: nat)
    requires
        g.spec_valid(),
    ensures
        scalar_mul(g, n).spec_valid(),
    decreases n,
{
    G::lemma_group_closed(g, g);
    if n > 0 {
        lemma_scalar_mul_valid(g, (n - 1) as nat);
        G::lemma_group_closed(scalar_mul(g, (n - 1) as nat), g);
    }
}

/// `(m + n) g == m g + n g`.
proof fn lemma_scalar_mul_add<G: Group>(g: G, m: nat, n: nat)
    requires
        g.spec_valid(),
    ensures
        scalar_mul(g, m + n) == scalar_mul(g, m).spec_plus(scalar_mul(g, n)),
    decreases n,
{
    lemma_scalar_mul_valid(g, m);
    if n == 0 {
        G::lemma_plus_identity(scalar_mul(g, m));
    } else {
        lemma_scalar_mul_add(g, m, (n - 1) as nat);
        lemma_scalar_mul_valid(g, (n - 1) as nat);
        assert(scalar_mul(g, m + n) == scalar_mul(g, (m + n - 1) as nat).spec_plus(g));
        assert((m + n - 1) as nat == m + (n - 1) as nat);
        G::lemma_plus_assoc(scalar_mul(g, m), scalar_mul(g, (n - 1) as nat), g);
    }
}

/// Rung `i` of the doubling ladder of a commitment is `2^i` times the commitment: every
/// element of a prepared commitment is the matching power-of-two multiple.
pub proof fn lemma_ladder_is_scalar_multiple<G: Group>(g: G, i: nat)
    requires
        g.spec_valid(),
    ensures
        doubled(g, i) == scalar_mul(g, pow2(i)),
    decreases i,
{
    if i == 0 {
        assert(pow2(0) == 1) by {
            vstd::arithmetic::power2::lemma2_to64();
        }
        assert(scalar_mul(g, 1) == scalar_mul(g, 0).spec_plus(g));
        G::lemma_plus_identity(g);
    } else {
        lemma_ladder_is_scalar_multiple(g, (i - 1) as nat);
        lemma_pow2_unfold(i);
        let m = pow2((i - 1) as nat);
        lemma_scalar_mul_add(g, m, m);
        lemma_scalar_mul_valid(g, m);
        G::lemma_double_is_plus(scalar_mul(g, m));
        assert(pow2(i) == m + m);
    }
}

impl<G: Element> Element for Commitment<G> {
    open spec fn spec_valid(self) -> bool {
        self.0.spec_valid()
    }
}

impl<G: CanonicalBytes> CanonicalBytes for Commitment<G> {
    open spec fn spec_encoding(self) -> Seq<u8> {
        self.0.spec_encoding()
    }

    open spec fn spec_parse(bytes: Seq<u8>) -> Option<(Commitment<G>, nat)> {
        match G::spec_parse(bytes) {
            Some((g, n)) => Some((Commitment(g), n)),
            None => None,
        }
    }

    fn write_le(&self, out: &mut Vec<u8>) {
        self.0.write_le(out);
    }

    fn read_le(bytes: &[u8], pos: usize) -> (r: Option<(Commitment<G>, usize)>) {
        match G::read_le(bytes, pos) {
            Some((g, p)) => Some((Commitment(g), p)),
            None => None,
        }
    }

    proof fn lemma_parse_length(bytes: Seq<u8>) {
        G::lemma_parse_length(bytes);
    }

    proof fn lemma_parse_encoding(x: Commitment<G>, rest: Seq<u8>) {
        G::lemma_parse_encoding(x.0, rest);
    }
}

/// A commitment with the label of its polynomial and its degree bound, if any.
pub struct LabeledCommitment<C> {
    label: String,
    commitment: C,
    degree_bound: Option<usize>,
}

impl<C> View for LabeledCommitment<C> {
    /// The label, the commitment and the degree bound.
    type V = (Seq<char>, C, Option<usize>);

    closed spec fn view(&self) -> (Seq<char>, C, Option<usize>) {
        (self.label@, self.commitment, self.degree_bound)
    }
}

impl<C> LabeledCommitment<C> {
    pub fn new(label: String, commitment: C, degree_bound: Option<usize>) -> (r:
        LabeledCommitment<C>)
        ensures
            r@ == (label@, commitment, degree_bound),
    {
        LabeledCommitment { label, commitment, degree_bound }
    }

    /// A labeled commitment with the label and the degree bound of `info`.
    pub fn new_with_info(info: &PolynomialInfo, commitment: C) -> (r: LabeledCommitment<C>)
        ensures
            r@ == (info.spec_label(), commitment, info.spec_degree_bound()),
    {
        LabeledCommitment {
            label: info.label().to_owned(),
            commitment,
            degree_bound: info.degree_bound(),
        }
    }

    /// The label.
    pub fn label(&self) -> (r: &str)
        ensures
            r@ == self@.0,
    {
        self.label.as_str()
    }

    /// The commitment.
    pub fn commitment(&self) -> (r: &C)
        ensures
            *r == self@.1,
    {
        &self.commitment
    }

    /// The degree bound, if any.
    pub fn degree_bound(&self) -> (r: Option<usize>)
        ensures
            r == self@.2,
    {
        self.degree_bound
    }
}

impl<C: CanonicalBytes> LabeledCommitment<C> {
    /// Writes the commitment alone: neither the label nor the degree bound is written, so
    /// the bytes are those of the bare commitment. There is no reading counterpart: read
    /// the commitment and label it again with `new`.
    pub fn write_le(&self, out: &mut Vec<u8>)
        ensures
            final(out)@ == old(out)@ + self@.1.spec_encoding(),
    {
        self.commitment.write_le(out);
    }
}

} // verus!
