//! The prime field of integers modulo `2^31 - 1`, with its additive group and its
//! four-byte little-endian encoding: one verified instance of the traits in `algebra`.

use vstd::prelude::*;
use vstd::arithmetic::div_mod::{lemma_add_mod_noop, lemma_small_mod};
use crate::algebra::{CanonicalBytes, Element, Field, Group};
use crate::bytes::{lemma_u32_le_round_trip, read_u32, u32_from_le, u32_le, write_u32};

verus! {

/// The modulus, the Mersenne prime `2^31 - 1`.
pub const MODULUS: u64 = 2147483647;

/// A residue modulo [`MODULUS`]. Every value built by this module is reduced.
#[derive(Clone, Copy, Debug, PartialEq, Eq, Hash)]
pub struct Fp {
    v: u32,
}

impl Fp {
    /// The residue as an integer.
    pub closed spec fn value(self) -> nat {
        self.v as nat
    }

    pub closed spec fn spec_from(n: int) -> Fp {
        Fp { v: (n % (MODULUS as int)) as u32 }
    }

    /// The residue of `n`.
    pub fn new(n: u64) -> (r: Fp)
        ensures
            r.value() == n % MODULUS,
            r.spec_valid(),
    {
        Fp { v: (n % MODULUS) as u32 }
    }

    /// The residue as an integer in `0..MODULUS`.
    pub fn to_u64(&self) -> (r: u64)
        ensures
            r == self.value(),
    {
        self.v as u64
    }
}

impl Element for Fp {
    closed spec fn spec_valid(self) -> bool {
        self.v < MODULUS
    }
}

impl Field for Fp {
    closed spec fn spec_zero() -> Fp {
        Fp { v: 0 }
    }

    closed spec fn spec_add(self, other: Fp) -> Fp {
        Fp::spec_from(self.v as int + other.v as int)
    }

    closed spec fn spec_neg(self) -> Fp {
        Fp::spec_from(MODULUS as int - (self.v as int % MODULUS as int))
    }

    closed spec fn spec_mul(self, other: Fp) -> Fp {
        Fp::spec_from(self.v as int * other.v as int)
    }

    fn zero() -> (r: Fp) {
        Fp { v: 0 }
    }

    fn plus(&self, other: &Fp) -> (r: Fp) {
        Fp { v: ((self.v as u64 + other.v as u64) % MODULUS) as u32 }
    }

    fn negate(&self) -> (r: Fp) {
        Fp { v: ((MODULUS - (self.v as u64 % MODULUS)) % MODULUS) as u32 }
    }

    fn times(&self, other: &Fp) -> (r: Fp) {
        assert((self.v as u64) * (other.v as u64) <= 0xffff_ffffu64 * 0xffff_ffffu64) by (nonlinear_arith);
        Fp { v: ((self.v as u64 * other.v as u64) % MODULUS) as u32 }
    }

    fn is_zero(&self) -> (r: bool) {
        self.v == 0
    }

    fn equals(&self, other: &Fp) -> (r: bool) {
        self.v == other.v
    }

    proof fn lemma_closed(a: Fp, b: Fp) {
    }

    proof fn lemma_add_zero(a: Fp) {
        lemma_small_mod(a.v as nat, MODULUS as nat);
    }

    proof fn lemma_add_neg(a: Fp) {
        lemma_small_mod(a.v as nat, MODULUS as nat);
        if a.v == 0 {
            assert(MODULUS as int % MODULUS as int == 0);
        } else {
            lemma_small_mod((MODULUS - a.v) as nat, MODULUS as nat);
            assert((a.v + (MODULUS - a.v)) as int == MODULUS as int);
        }
    }
}

impl Group for Fp {
    closed spec fn spec_identity() -> Fp {
        Fp { v: 0 }
    }

    closed spec fn spec_plus(self, other: Fp) -> Fp {
        self.spec_add(other)
    }

    closed spec fn spec_double(self) -> Fp {
        self.spec_add(self)
    }

    fn double(&self) -> (r: Fp) {
        self.plus(self)
    }

    proof fn lemma_group_closed(a: Fp, b: Fp) {
    }

    proof fn lemma_double_is_plus(a: Fp) {
    }

    proof fn lemma_plus_identity(a: Fp) {
        Fp::lemma_add_zero(a);
    }

    proof fn lemma_plus_assoc(a: Fp, b: Fp, c: Fp) {
        let m = MODULUS as int;
        lemma_small_mod(a.v as nat, m as nat);
        lemma_small_mod(c.v as nat, m as nat);
        lemma_add_mod_noop(a.v + b.v, c.v as int, m);
        lemma_add_mod_noop(a.v as int, b.v + c.v, m);
        assert((a.v + b.v) + c.v == a.v + (b.v + c.v));
    }
}

impl CanonicalBytes for Fp {
    closed spec fn spec_encoding(self) -> Seq<u8> {
        u32_le(self.v)
    }

    closed spec fn spec_parse(bytes: Seq<u8>) -> Option<(Fp, nat)> {
        if bytes.len() < 4 {
            None
        } else {
            let v = u32_from_le(bytes[0], bytes[1], bytes[2], bytes[3]);
            if v < MODULUS {
                Some((Fp { v }, 4))
            } else {
                None
            }
        }
    }

    fn write_le(&self, out: &mut Vec<u8>) {
        write_u32(out, self.v);
    }

    fn read_le(bytes: &[u8], pos: usize) -> (r: Option<(Fp, usize)>) {
        let ghost rest = bytes@.subrange(pos as int, bytes@.len() as int);
        let len = bytes.len();
        match read_u32(bytes, pos) {
            None => None,
            Some(v) => {
                assert(rest[0] == bytes@[pos as int] && rest[1] == bytes@[pos + 1]
                    && rest[2] == bytes@[pos + 2] && rest[3] == bytes@[pos + 3]);
                assert(pos + 4 <= len);
                if (v as u64) < MODULUS {
                    Some((Fp { v }, pos + 4))
                } else {
                    None
                }
            },
        }
    }

    proof fn lemma_parse_length(bytes: Seq<u8>) {
    }

    proof fn lemma_parse_encoding(x: Fp, rest: Seq<u8>) {
        let b = x.spec_encoding() + rest;
        lemma_u32_le_round_trip(x.v);
        assert(b[0] == u32_le(x.v)[0] && b[1] == u32_le(x.v)[1] && b[2] == u32_le(x.v)[2]
            && b[3] == u32_le(x.v)[3]);
    }
}

} // verus!
