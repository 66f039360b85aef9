//! The wire format of a committer key, as spec functions: how a key is written, how bytes
//! are read back, and the proof that reading what was written gives the key back.
//!
//! Integers are little-endian `u32`; a sequence is its length followed by its items; an
//! optional field is a flag byte followed, when set, by the field. The body is followed by
//! a SHA-256 digest of the group elements of the key's plain, hiding and shifted bases.

use vstd::prelude::*;
use crate::algebra::{CanonicalBytes, Element};
use crate::basis_map::{ascending, lemma_insert_above, map_insert};
use crate::bytes::{bool_byte, lemma_u32_le_round_trip, u32_from_le, u32_le};
use crate::digest::sha256;

verus! {

/// The abstract contents of a committer key.
pub struct CommitterKeyModel<G> {
    pub powers_of_beta_g: Seq<G>,
    pub lagrange_bases_at_beta_g: Seq<(usize, Seq<G>)>,
    pub powers_of_beta_times_gamma_g: Seq<G>,
    pub shifted_powers_of_beta_g: Option<Seq<G>>,
    pub shifted_powers_of_beta_times_gamma_g: Option<Seq<(usize, Seq<G>)>>,
    pub enforced_degree_bounds: Option<Seq<usize>>,
    pub max_degree: usize,
}

/// Why bytes do not decode to a committer key.
#[derive(Clone, Copy, Debug, PartialEq, Eq, Structural)]
pub enum KeyDecodeError {
    /// The bytes end early, hold a flag other than 0 or 1, or hold an invalid group element.
    Malformed,
    /// The group elements do not match the digest stored after them.
    IntegrityMismatch,
}

// ----- writing -----

/// The four bytes of a length or of a key (truncated to 32 bits).
pub open spec fn usize_bytes(n: int) -> Seq<u8> {
    u32_le(n as u32)
}

/// The encodings of the points of `s`, one after the other.
pub open spec fn points_bytes<G: CanonicalBytes>(s: Seq<G>) -> Seq<u8>
    decreases s.len(),
{
    if s.len() == 0 {
        Seq::empty()
    } else {
        points_bytes(s.drop_last()) + s.last().spec_encoding()
    }
}

/// Lagrange bases: each entry is its domain size followed by the basis, whose length is
/// not written (it is the domain size).
pub open spec fn lagrange_bytes<G: CanonicalBytes>(s: Seq<(usize, Seq<G>)>) -> Seq<u8>
    decreases s.len(),
{
    if s.len() == 0 {
        Seq::empty()
    } else {
        lagrange_bytes(s.drop_last()) + (usize_bytes(s.last().0 as int) + points_bytes(
            s.last().1,
        ))
    }
}

/// Shifted hiding bases: each entry is its degree bound, the basis length, then the basis.
pub open spec fn shifted_bases_bytes<G: CanonicalBytes>(s: Seq<(usize, Seq<G>)>) -> Seq<u8>
    decreases s.len(),
{
    if s.len() == 0 {
        Seq::empty()
    } else {
        shifted_bases_bytes(s.drop_last()) + (usize_bytes(s.last().0 as int) + (usize_bytes(
            s.last().1.len() as int,
        ) + points_bytes(s.last().1)))
    }
}

/// The degree bounds, four bytes each.
pub open spec fn bounds_bytes(s: Seq<usize>) -> Seq<u8>
    decreases s.len(),
{
    if s.len() == 0 {
        Seq::empty()
    } else {
        bounds_bytes(s.drop_last()) + usize_bytes(s.last() as int)
    }
}

/// The encodings of the points of every basis of `s`, in the order of `s`.
pub open spec fn bases_points_bytes<G: CanonicalBytes>(s: Seq<(usize, Seq<G>)>) -> Seq<u8>
    decreases s.len(),
{
    if s.len() == 0 {
        Seq::empty()
    } else {
        bases_points_bytes(s.drop_last()) + points_bytes(s.last().1)
    }
}

pub open spec fn optional_points_bytes<G: CanonicalBytes>(o: Option<Seq<G>>) -> Seq<u8> {
    match o {
        Some(s) => seq![bool_byte(true)] + (usize_bytes(s.len() as int) + points_bytes(s)),
        None => seq![bool_byte(false)],
    }
}

pub open spec fn optional_shifted_bases_bytes<G: CanonicalBytes>(
    o: Option<Seq<(usize, Seq<G>)>>,
) -> Seq<u8> {
    match o {
        Some(s) => seq![bool_byte(true)] + (usize_bytes(s.len() as int) + shifted_bases_bytes(s)),
        None => seq![bool_byte(false)],
    }
}

pub open spec fn optional_bounds_bytes(o: Option<Seq<usize>>) -> Seq<u8> {
    match o {
        Some(s) => seq![bool_byte(true)] + (usize_bytes(s.len() as int) + bounds_bytes(s)),
        None => seq![bool_byte(false)],
    }
}

/// Everything but the digest, field by field.
pub open spec fn body_bytes<G: CanonicalBytes>(k: CommitterKeyModel<G>) -> Seq<u8> {
    (usize_bytes(k.powers_of_beta_g.len() as int) + points_bytes(k.powers_of_beta_g)) + ((
    usize_bytes(k.lagrange_bases_at_beta_g.len() as int) + lagrange_bytes(
        k.lagrange_bases_at_beta_g,
    )) + ((usize_bytes(k.powers_of_beta_times_gamma_g.len() as int) + points_bytes(
        k.powers_of_beta_times_gamma_g,
    )) + optional_fields_bytes(k)))
}

/// The fields after the plain, Lagrange and hiding bases.
pub open spec fn optional_fields_bytes<G: CanonicalBytes>(k: CommitterKeyModel<G>) -> Seq<u8> {
    optional_points_bytes(k.shifted_powers_of_beta_g) + (optional_shifted_bases_bytes(
        k.shifted_powers_of_beta_times_gamma_g,
    ) + (optional_bounds_bytes(k.enforced_degree_bounds) + usize_bytes(k.max_degree as int)))
}

/// What the digest covers: the plain and hiding bases, then, where present, the shifted
/// basis and the shifted hiding bases in ascending order of degree bound.
pub open spec fn digest_input<G: CanonicalBytes>(k: CommitterKeyModel<G>) -> Seq<u8> {
    points_bytes(k.powers_of_beta_g) + points_bytes(k.powers_of_beta_times_gamma_g) + match k.shifted_powers_of_beta_g {
        Some(s) => points_bytes(s),
        None => Seq::empty(),
    } + match k.shifted_powers_of_beta_times_gamma_g {
        Some(m) => bases_points_bytes(m),
        None => Seq::empty(),
    }
}

/// The bytes of a committer key: its body, then the digest of its group elements.
pub open spec fn key_bytes<G: CanonicalBytes>(k: CommitterKeyModel<G>) -> Seq<u8> {
    body_bytes(k) + sha256(digest_input(k))@
}

// ----- reading -----

pub open spec fn parse_u32_at(b: Seq<u8>, p: int) -> Option<(u32, int)> {
    if 0 <= p && p + 4 <= b.len() {
        Some((u32_from_le(b[p], b[p + 1], b[p + 2], b[p + 3]), p + 4))
    } else {
        None
    }
}

pub open spec fn parse_bool_at(b: Seq<u8>, p: int) -> Option<(bool, int)> {
    if 0 <= p < b.len() && b[p] == 0 {
        Some((false, p + 1))
    } else if 0 <= p < b.len() && b[p] == 1 {
        Some((true, p + 1))
    } else {
        None
    }
}

pub open spec fn parse_point_at<G: CanonicalBytes>(b: Seq<u8>, p: int) -> Option<(G, int)> {
    if 0 <= p <= b.len() {
        match G::spec_parse(b.subrange(p, b.len() as int)) {
            Some((x, n)) => Some((x, p + n)),
            None => None,
        }
    } else {
        None
    }
}

/// `n` points from position `p`.
pub open spec fn parse_points_at<G: CanonicalBytes>(b: Seq<u8>, p: int, n: nat) -> Option<
    (Seq<G>, int),
>
    decreases n,
{
    if n == 0 {
        Some((Seq::empty(), p))
    } else {
        match parse_points_at::<G>(b, p, (n - 1) as nat) {
            Some((s, q)) => match parse_point_at::<G>(b, q) {
                Some((x, r)) => Some((s.push(x), r)),
                None => None,
            },
            None => None,
        }
    }
}

/// `n` Lagrange bases from position `p`, each bound in turn into the map.
pub open spec fn parse_lagrange_at<G: CanonicalBytes>(b: Seq<u8>, p: int, n: nat) -> Option<
    (Seq<(usize, Seq<G>)>, int),
>
    decreases n,
{
    if n == 0 {
        Some((Seq::empty(), p))
    } else {
        match parse_lagrange_at::<G>(b, p, (n - 1) as nat) {
            Some((m, q)) => match parse_u32_at(b, q) {
                Some((size, q1)) => match parse_points_at::<G>(b, q1, size as nat) {
                    Some((basis, q2)) => Some((map_insert(m, size as usize, basis), q2)),
                    None => None,
                },
                None => None,
            },
            None => None,
        }
    }
}

/// `n` shifted hiding bases from position `p`, each bound in turn into the map.
pub open spec fn parse_shifted_bases_at<G: CanonicalBytes>(b: Seq<u8>, p: int, n: nat) -> Option<
    (Seq<(usize, Seq<G>)>, int),
>
    decreases n,
{
    if n == 0 {
        Some((Seq::empty(), p))
    } else {
        match parse_shifted_bases_at::<G>(b, p, (n - 1) as nat) {
            Some((m, q)) => match parse_u32_at(b, q) {
                Some((key, q1)) => match parse_u32_at(b, q1) {
                    Some((len, q2)) => match parse_points_at::<G>(b, q2, len as nat) {
                        Some((basis, q3)) => Some((map_insert(m, key as usize, basis), q3)),
                        None => None,
                    },
                    None => None,
                },
                None => None,
            },
            None => None,
        }
    }
}

/// `n` degree bounds from position `p`.
pub open spec fn parse_bounds_at(b: Seq<u8>, p: int, n: nat) -> Option<(Seq<usize>, int)>
    decreases n,
{
    if n == 0 {
        Some((Seq::empty(), p))
    } else {
        match parse_bounds_at(b, p, (n - 1) as nat) {
            Some((s, q)) => match parse_u32_at(b, q) {
                Some((x, r)) => Some((s.push(x as usize), r)),
                None => None,
            },
            None => None,
        }
    }
}

pub open spec fn parse_optional_points_at<G: CanonicalBytes>(b: Seq<u8>, p: int) -> Option<
    (Option<Seq<G>>, int),
> {
    match parse_bool_at(b, p) {
        Some((true, q)) => match parse_u32_at(b, q) {
            Some((n, q1)) => match parse_points_at::<G>(b, q1, n as nat) {
                Some((s, q2)) => Some((Some(s), q2)),
                None => None,
            },
            None => None,
        },
        Some((false, q)) => Some((None, q)),
        None => None,
    }
}

pub open spec fn parse_optional_shifted_bases_at<G: CanonicalBytes>(b: Seq<u8>, p: int) -> Option<
    (Option<Seq<(usize, Seq<G>)>>, int),
> {
    match parse_bool_at(b, p) {
        Some((true, q)) => match parse_u32_at(b, q) {
            Some((n, q1)) => match parse_shifted_bases_at::<G>(b, q1, n as nat) {
                Some((s, q2)) => Some((Some(s), q2)),
                None => None,
            },
            None => None,
        },
        Some((false, q)) => Some((None, q)),
        None => None,
    }
}

pub open spec fn parse_optional_bounds_at(b: Seq<u8>, p: int) -> Option<
    (Option<Seq<usize>>, int),
> {
    match parse_bool_at(b, p) {
        Some((true, q)) => match parse_u32_at(b, q) {
            Some((n, q1)) => match parse_bounds_at(b, q1, n as nat) {
                Some((s, q2)) => Some((Some(s), q2)),
                None => None,
            },
            None => None,
        },
        Some((false, q)) => Some((None, q)),
        None => None,
    }
}

/// The fields after the hiding basis, from position `p`.
pub open spec fn parse_optional_fields_at<G: CanonicalBytes>(b: Seq<u8>, p: int) -> Option<
    ((Option<Seq<G>>, Option<Seq<(usize, Seq<G>)>>, Option<Seq<usize>>, usize), int),
> {
    match parse_optional_points_at::<G>(b, p) {
        None => None,
        Some((shifted, p1)) => match parse_optional_shifted_bases_at::<G>(b, p1) {
            None => None,
            Some((shifted_gamma, p2)) => match parse_optional_bounds_at(b, p2) {
                None => None,
                Some((bounds, p3)) => match parse_u32_at(b, p3) {
                    None => None,
                    Some((max_degree, p4)) => Some(
                        ((shifted, shifted_gamma, bounds, max_degree as usize), p4),
                    ),
                },
            },
        },
    }
}

/// The body of a committer key at the front of `b`, with the position after it.
pub open spec fn parse_body<G: CanonicalBytes>(b: Seq<u8>) -> Option<(CommitterKeyModel<G>, int)> {
    match parse_u32_at(b, 0) {
        None => None,
        Some((n0, p0)) => match parse_points_at::<G>(b, p0, n0 as nat) {
            None => None,
            Some((powers, p1)) => match parse_u32_at(b, p1) {
                None => None,
                Some((n1, p2)) => match parse_lagrange_at::<G>(b, p2, n1 as nat) {
                    None => None,
                    Some((lagrange, p3)) => match parse_u32_at(b, p3) {
                        None => None,
                        Some((n2, p4)) => match parse_points_at::<G>(b, p4, n2 as nat) {
                            None => None,
                            Some((gamma, p5)) => match parse_optional_fields_at::<G>(b, p5) {
                                None => None,
                                Some(((shifted, shifted_gamma, bounds, max_degree), p6)) => Some(
                                    (
                                        CommitterKeyModel {
                                            powers_of_beta_g: powers,
                                            lagrange_bases_at_beta_g: lagrange,
                                            powers_of_beta_times_gamma_g: gamma,
                                            shifted_powers_of_beta_g: shifted,
                                            shifted_powers_of_beta_times_gamma_g: shifted_gamma,
                                            enforced_degree_bounds: bounds,
                                            max_degree,
                                        },
                                        p6,
                                    ),
                                ),
                            },
                        },
                    },
                },
            },
        },
    }
}

/// What reading a committer key from the front of `b` gives: the key when its body parses
/// and the 32 bytes after it are the digest of its group elements; an integrity error when
/// they are another digest; a format error otherwise.
pub open spec fn decode_key<G: CanonicalBytes>(b: Seq<u8>) -> Result<
    CommitterKeyModel<G>,
    KeyDecodeError,
> {
    match parse_body::<G>(b) {
        None => Err(KeyDecodeError::Malformed),
        Some((k, p)) => if p + 32 <= b.len() {
            if b.subrange(p, p + 32) == sha256(digest_input(k))@ {
                Ok(k)
            } else {
                Err(KeyDecodeError::IntegrityMismatch)
            }
        } else {
            Err(KeyDecodeError::Malformed)
        },
    }
}

// ----- failures carry forward -----

pub proof fn lemma_points_none<G: CanonicalBytes>(b: Seq<u8>, p: int, m: nat, n: nat)
    requires
        m <= n,
        parse_points_at::<G>(b, p, m) is None,
    ensures
        parse_points_at::<G>(b, p, n) is None,
    decreases n,
{
    if n > m {
        lemma_points_none::<G>(b, p, m, (n - 1) as nat);
    }
}

pub proof fn lemma_lagrange_none<G: CanonicalBytes>(b: Seq<u8>, p: int, m: nat, n: nat)
    requires
        m <= n,
        parse_lagrange_at::<G>(b, p, m) is None,
    ensures
        parse_lagrange_at::<G>(b, p, n) is None,
    decreases n,
{
    if n > m {
        lemma_lagrange_none::<G>(b, p, m, (n - 1) as nat);
    }
}

pub proof fn lemma_shifted_bases_none<G: CanonicalBytes>(b: Seq<u8>, p: int, m: nat, n: nat)
    requires
        m <= n,
        parse_shifted_bases_at::<G>(b, p, m) is None,
    ensures
        parse_shifted_bases_at::<G>(b, p, n) is None,
    decreases n,
{
    if n > m {
        lemma_shifted_bases_none::<G>(b, p, m, (n - 1) as nat);
    }
}

pub proof fn lemma_bounds_none(b: Seq<u8>, p: int, m: nat, n: nat)
    requires
        m <= n,
        parse_bounds_at(b, p, m) is None,
    ensures
        parse_bounds_at(b, p, n) is None,
    decreases n,
{
    if n > m {
        lemma_bounds_none(b, p, m, (n - 1) as nat);
    }
}

// ----- reading what was written -----

pub open spec fn fits_u32(n: int) -> bool {
    0 <= n < 0x1_0000_0000
}

pub open spec fn all_valid<G: Element>(s: Seq<G>) -> bool {
    forall|i: int| 0 <= i < s.len() ==> #[trigger] s[i].spec_valid()
}

/// Lagrange bases that can be written and read back: ascending domain sizes, each the
/// length of its basis.
pub open spec fn lagrange_encodable<G: Element>(s: Seq<(usize, Seq<G>)>) -> bool {
    &&& ascending(s)
    &&& forall|i: int|
        0 <= i < s.len() ==> #[trigger] s[i].1.len() == s[i].0 && fits_u32(s[i].0 as int)
            && all_valid(s[i].1)
}

pub open spec fn shifted_bases_encodable<G: Element>(s: Seq<(usize, Seq<G>)>) -> bool {
    &&& ascending(s)
    &&& forall|i: int|
        0 <= i < s.len() ==> fits_u32(#[trigger] s[i].0 as int) && fits_u32(s[i].1.len() as int)
            && all_valid(s[i].1)
}

pub open spec fn bounds_encodable(s: Seq<usize>) -> bool {
    forall|i: int| 0 <= i < s.len() ==> fits_u32(#[trigger] s[i] as int)
}

/// A key that the format can carry: well-formed group elements, ascending maps, Lagrange
/// bases as long as their domain sizes, and every length, key and degree within 32 bits.
pub open spec fn encodable<G: CanonicalBytes>(k: CommitterKeyModel<G>) -> bool {
    &&& fits_u32(k.powers_of_beta_g.len() as int)
    &&& all_valid(k.powers_of_beta_g)
    &&& fits_u32(k.lagrange_bases_at_beta_g.len() as int)
    &&& lagrange_encodable(k.lagrange_bases_at_beta_g)
    &&& fits_u32(k.powers_of_beta_times_gamma_g.len() as int)
    &&& all_valid(k.powers_of_beta_times_gamma_g)
    &&& match k.shifted_powers_of_beta_g {
        Some(s) => fits_u32(s.len() as int) && all_valid(s),
        None => true,
    }
    &&& match k.shifted_powers_of_beta_times_gamma_g {
        Some(m) => fits_u32(m.len() as int) && shifted_bases_encodable(m),
        None => true,
    }
    &&& match k.enforced_degree_bounds {
        Some(s) => fits_u32(s.len() as int) && bounds_encodable(s),
        None => true,
    }
    &&& fits_u32(k.max_degree as int)
}

/// `b` holds `x` at `p`.
pub open spec fn holds_at(b: Seq<u8>, p: int, x: Seq<u8>) -> bool {
    0 <= p && p + x.len() <= b.len() && b.subrange(p, p + x.len()) == x
}

pub proof fn lemma_holds_split(b: Seq<u8>, p: int, x: Seq<u8>, y: Seq<u8>)
    requires
        holds_at(b, p, x + y),
    ensures
        holds_at(b, p, x),
        holds_at(b, p + x.len(), y),
{
    assert(b.subrange(p, p + x.len()) =~= (x + y).subrange(0, x.len() as int));
    assert(b.subrange(p + x.len(), p + x.len() + y.len()) =~= (x + y).subrange(
        x.len() as int,
        (x + y).len() as int,
    ));
    assert((x + y).subrange(0, x.len() as int) =~= x);
    assert((x + y).subrange(x.len() as int, (x + y).len() as int) =~= y);
}

pub proof fn lemma_parse_u32_written(b: Seq<u8>, p: int, n: int)
    requires
        fits_u32(n),
        holds_at(b, p, usize_bytes(n)),
    ensures
        parse_u32_at(b, p) == Some((n as u32, p + 4)),
        (n as u32) as int == n,
{
    let w = usize_bytes(n);
    lemma_u32_le_round_trip(n as u32);
    assert(b[p] == w[0] && b[p + 1] == w[1] && b[p + 2] == w[2] && b[p + 3] == w[3]) by {
        assert(b.subrange(p, p + 4)[0] == b[p]);
        assert(b.subrange(p, p + 4)[1] == b[p + 1]);
        assert(b.subrange(p, p + 4)[2] == b[p + 2]);
        assert(b.subrange(p, p + 4)[3] == b[p + 3]);
    }
}

pub proof fn lemma_parse_bool_written(b: Seq<u8>, p: int, f: bool)
    requires
        holds_at(b, p, seq![bool_byte(f)]),
    ensures
        parse_bool_at(b, p) == Some((f, p + 1)),
{
    assert(b.subrange(p, p + 1)[0] == b[p]);
}

pub proof fn lemma_parse_points_written<G: CanonicalBytes>(b: Seq<u8>, p: int, s: Seq<G>)
    requires
        all_valid(s),
        holds_at(b, p, points_bytes(s)),
    ensures
        parse_points_at::<G>(b, p, s.len()) == Some((s, p + points_bytes(s).len())),
    decreases s.len(),
{
    if s.len() > 0 {
        let t = s.drop_last();
        let x = s.last();
        assert(all_valid(t)) by {
            assert forall|i: int| 0 <= i < t.len() implies #[trigger] t[i].spec_valid() by {
                assert(t[i] == s[i]);
            }
        }
        lemma_holds_split(b, p, points_bytes(t), x.spec_encoding());
        lemma_parse_points_written(b, p, t);
        let q = p + points_bytes(t).len();
        let e = x.spec_encoding();
        let rest = b.subrange(q + e.len(), b.len() as int);
        assert(b.subrange(q, b.len() as int) =~= e + rest);
        assert(s[s.len() - 1].spec_valid());
        G::lemma_parse_encoding(x, rest);
        assert(t.push(x) =~= s);
    }
}

pub proof fn lemma_parse_lagrange_written<G: CanonicalBytes>(
    b: Seq<u8>,
    p: int,
    s: Seq<(usize, Seq<G>)>,
)
    requires
        lagrange_encodable(s),
        holds_at(b, p, lagrange_bytes(s)),
    ensures
        parse_lagrange_at::<G>(b, p, s.len()) == Some((s, p + lagrange_bytes(s).len())),
    decreases s.len(),
{
    if s.len() > 0 {
        let t = s.drop_last();
        let (k, v) = s.last();
        assert(s[s.len() - 1] == (k, v));
        assert(lagrange_encodable(t)) by {
            assert forall|i: int| 0 <= i < t.len() implies #[trigger] t[i].1.len() == t[i].0
                && fits_u32(t[i].0 as int) && all_valid(t[i].1) by {
                assert(t[i] == s[i]);
            }
        }
        lemma_holds_split(b, p, lagrange_bytes(t), usize_bytes(k as int) + points_bytes(v));
        lemma_parse_lagrange_written(b, p, t);
        let q = p + lagrange_bytes(t).len();
        lemma_holds_split(b, q, usize_bytes(k as int), points_bytes(v));
        lemma_parse_u32_written(b, q, k as int);
        lemma_parse_points_written(b, q + 4, v);
        assert forall|j: int| 0 <= j < t.len() implies t[j].0 < k by {
            assert(t[j] == s[j]);
        }
        lemma_insert_above(t, k, v);
        assert(t.push((k, v)) =~= s);
    }
}

pub proof fn lemma_parse_shifted_bases_written<G: CanonicalBytes>(
    b: Seq<u8>,
    p: int,
    s: Seq<(usize, Seq<G>)>,
)
    requires
        shifted_bases_encodable(s),
        holds_at(b, p, shifted_bases_bytes(s)),
    ensures
        parse_shifted_bases_at::<G>(b, p, s.len()) == Some((s, p + shifted_bases_bytes(s).len())),
    decreases s.len(),
{
    if s.len() > 0 {
        let t = s.drop_last();
        let (k, v) = s.last();
        assert(s[s.len() - 1] == (k, v));
        assert(shifted_bases_encodable(t)) by {
            assert forall|i: int| 0 <= i < t.len() implies fits_u32(#[trigger] t[i].0 as int)
                && fits_u32(t[i].1.len() as int) && all_valid(t[i].1) by {
                assert(t[i] == s[i]);
            }
        }
        let entry = usize_bytes(k as int) + (usize_bytes(v.len() as int) + points_bytes(v));
        lemma_holds_split(b, p, shifted_bases_bytes(t), entry);
        lemma_parse_shifted_bases_written(b, p, t);
        let q = p + shifted_bases_bytes(t).len();
        lemma_holds_split(b, q, usize_bytes(k as int), usize_bytes(v.len() as int) + points_bytes(v));
        lemma_holds_split(b, q + 4, usize_bytes(v.len() as int), points_bytes(v));
        lemma_parse_u32_written(b, q, k as int);
        lemma_parse_u32_written(b, q + 4, v.len() as int);
        lemma_parse_points_written(b, q + 8, v);
        assert forall|j: int| 0 <= j < t.len() implies t[j].0 < k by {
            assert(t[j] == s[j]);
        }
        lemma_insert_above(t, k, v);
        assert(t.push((k, v)) =~= s);
    }
}

pub proof fn lemma_parse_bounds_written(b: Seq<u8>, p: int, s: Seq<usize>)
    requires
        bounds_encodable(s),
        holds_at(b, p, bounds_bytes(s)),
    ensures
        parse_bounds_at(b, p, s.len()) == Some((s, p + bounds_bytes(s).len())),
    decreases s.len(),
{
    if s.len() > 0 {
        let t = s.drop_last();
        let x = s.last();
        assert(s[s.len() - 1] == x);
        assert(bounds_encodable(t)) by {
            assert forall|i: int| 0 <= i < t.len() implies fits_u32(#[trigger] t[i] as int) by {
                assert(t[i] == s[i]);
            }
        }
        lemma_holds_split(b, p, bounds_bytes(t), usize_bytes(x as int));
        lemma_parse_bounds_written(b, p, t);
        lemma_parse_u32_written(b, p + bounds_bytes(t).len(), x as int);
        assert(t.push(x) =~= s);
    }
}

proof fn lemma_parse_optional_fields_written<G: CanonicalBytes>(
    b: Seq<u8>,
    p: int,
    k: CommitterKeyModel<G>,
)
    requires
        encodable(k),
        holds_at(b, p, optional_fields_bytes(k)),
    ensures
        parse_optional_fields_at::<G>(b, p) == Some(
            (
                (
                    k.shifted_powers_of_beta_g,
                    k.shifted_powers_of_beta_times_gamma_g,
                    k.enforced_degree_bounds,
                    k.max_degree,
                ),
                p + optional_fields_bytes(k).len(),
            ),
        ),
{
    let pd = optional_points_bytes(k.shifted_powers_of_beta_g);
    let pe = optional_shifted_bases_bytes(k.shifted_powers_of_beta_times_gamma_g);
    let pf = optional_bounds_bytes(k.enforced_degree_bounds);
    let pg = usize_bytes(k.max_degree as int);
    lemma_holds_split(b, p, pd, pe + (pf + pg));
    let p1 = p + pd.len();
    lemma_holds_split(b, p1, pe, pf + pg);
    let p2 = p1 + pe.len();
    lemma_holds_split(b, p2, pf, pg);
    let p3 = p2 + pf.len();
    match k.shifted_powers_of_beta_g {
        Some(s) => {
            lemma_holds_split(b, p, seq![bool_byte(true)], usize_bytes(s.len() as int) + points_bytes(s));
            lemma_parse_bool_written(b, p, true);
            lemma_holds_split(b, p + 1, usize_bytes(s.len() as int), points_bytes(s));
            lemma_parse_u32_written(b, p + 1, s.len() as int);
            lemma_parse_points_written(b, p + 5, s);
        },
        None => {
            lemma_parse_bool_written(b, p, false);
        },
    }
    match k.shifted_powers_of_beta_times_gamma_g {
        Some(m) => {
            lemma_holds_split(b, p1, seq![bool_byte(true)], usize_bytes(m.len() as int) + shifted_bases_bytes(m));
            lemma_parse_bool_written(b, p1, true);
            lemma_holds_split(b, p1 + 1, usize_bytes(m.len() as int), shifted_bases_bytes(m));
            lemma_parse_u32_written(b, p1 + 1, m.len() as int);
            lemma_parse_shifted_bases_written(b, p1 + 5, m);
        },
        None => {
            lemma_parse_bool_written(b, p1, false);
        },
    }
    match k.enforced_degree_bounds {
        Some(s) => {
            lemma_holds_split(b, p2, seq![bool_byte(true)], usize_bytes(s.len() as int) + bounds_bytes(s));
            lemma_parse_bool_written(b, p2, true);
            lemma_holds_split(b, p2 + 1, usize_bytes(s.len() as int), bounds_bytes(s));
            lemma_parse_u32_written(b, p2 + 1, s.len() as int);
            lemma_parse_bounds_written(b, p2 + 5, s);
        },
        None => {
            lemma_parse_bool_written(b, p2, false);
        },
    }
    lemma_parse_u32_written(b, p3, k.max_degree as int);
}

proof fn lemma_parse_body_written<G: CanonicalBytes>(b: Seq<u8>, k: CommitterKeyModel<G>)
    requires
        encodable(k),
        holds_at(b, 0, body_bytes(k)),
    ensures
        parse_body::<G>(b) == Some((k, body_bytes(k).len() as int)),
{
    let pa0 = usize_bytes(k.powers_of_beta_g.len() as int);
    let pa1 = points_bytes(k.powers_of_beta_g);
    let pb0 = usize_bytes(k.lagrange_bases_at_beta_g.len() as int);
    let pb1 = lagrange_bytes(k.lagrange_bases_at_beta_g);
    let pc0 = usize_bytes(k.powers_of_beta_times_gamma_g.len() as int);
    let pc1 = points_bytes(k.powers_of_beta_times_gamma_g);
    let tail = optional_fields_bytes(k);
    lemma_holds_split(b, 0, pa0 + pa1, (pb0 + pb1) + ((pc0 + pc1) + tail));
    lemma_holds_split(b, 0, pa0, pa1);
    let q1: int = pa0.len() as int + pa1.len();
    lemma_holds_split(b, q1, pb0 + pb1, (pc0 + pc1) + tail);
    lemma_holds_split(b, q1, pb0, pb1);
    let q2: int = q1 + pb0.len() + pb1.len();
    lemma_holds_split(b, q2, pc0 + pc1, tail);
    lemma_holds_split(b, q2, pc0, pc1);
    let q3: int = q2 + pc0.len() + pc1.len();
    lemma_parse_u32_written(b, 0, k.powers_of_beta_g.len() as int);
    lemma_parse_points_written(b, 4, k.powers_of_beta_g);
    lemma_parse_u32_written(b, q1, k.lagrange_bases_at_beta_g.len() as int);
    lemma_parse_lagrange_written(b, q1 + 4, k.lagrange_bases_at_beta_g);
    lemma_parse_u32_written(b, q2, k.powers_of_beta_times_gamma_g.len() as int);
    lemma_parse_points_written(b, q2 + 4, k.powers_of_beta_times_gamma_g);
    lemma_parse_optional_fields_written(b, q3, k);
}

/// Reading back what was written gives the key back, whatever follows it: for a key that
/// the format can carry, `decode_key(key_bytes(k) + rest)` is `Ok(k)`. (With the contracts
/// of `CommitterKey::write_le` and `CommitterKey::read_le`, reading what `write_le`
/// wrote returns a key with the same contents.)
pub proof fn lemma_key_round_trip<G: CanonicalBytes>(k: CommitterKeyModel<G>, rest: Seq<u8>)
    requires
        encodable(k),
    ensures
        decode_key::<G>(key_bytes(k) + rest) == Ok::<CommitterKeyModel<G>, KeyDecodeError>(k),
{
    let body = body_bytes(k);
    let d = sha256(digest_input(k))@;
    let b = key_bytes(k) + rest;
    assert(b.subrange(0, body.len() as int) =~= body);
    lemma_parse_body_written(b, k);
    assert(b.subrange(body.len() as int, body.len() as int + 32) =~= d);
}

} // verus!
