//! The committer key: every basis an honest prover needs, its integrity-checked binary
//! form, and the views of it that commitments are computed against.

use vstd::prelude::*;
use crate::algebra::CanonicalBytes;
use crate::basis_map::{BasisMap, map_get};
use crate::bytes::{read_bool, read_u32, write_bool, write_u32};
use crate::digest::{append_bytes, sha256, sha256_digest};
use crate::key_format::{
    bases_points_bytes, body_bytes, bounds_bytes, decode_key, digest_input, key_bytes,
    lagrange_bytes, optional_fields_bytes, optional_bounds_bytes, optional_points_bytes, optional_shifted_bases_bytes,
    parse_body, parse_optional_fields_at, parse_bounds_at, parse_lagrange_at, parse_optional_bounds_at,
    parse_optional_points_at, parse_optional_shifted_bases_at, parse_point_at, parse_points_at,
    parse_shifted_bases_at, points_bytes, shifted_bases_bytes, usize_bytes,
    CommitterKeyModel, KeyDecodeError, lemma_bounds_none, lemma_lagrange_none, lemma_points_none,
    lemma_shifted_bases_none,
};

verus! {

/// Used to commit to, and create evaluation proofs for, polynomials.
#[derive(Clone, Debug, PartialEq, Eq)]
pub struct CommitterKey<G> {
    /// The key used to commit to polynomials.
    pub powers_of_beta_g: Vec<G>,
    /// The keys used to commit to polynomials in Lagrange basis, by domain size.
    pub lagrange_bases_at_beta_g: BasisMap<G>,
    /// The key used to commit to hiding polynomials.
    pub powers_of_beta_times_gamma_g: Vec<G>,
    /// The powers used to commit to shifted polynomials; `None` if no degree bound can be
    /// enforced.
    pub shifted_powers_of_beta_g: Option<Vec<G>>,
    /// The powers used to commit to shifted hiding polynomials, by degree bound; `None` if
    /// no degree bound can be enforced.
    pub shifted_powers_of_beta_times_gamma_g: Option<BasisMap<G>>,
    /// The degree bounds that can be enforced, ascending; `None` if none can.
    pub enforced_degree_bounds: Option<Vec<usize>>,
    /// The maximum degree supported by the parameters this key was derived from.
    pub max_degree: usize,
}

pub open spec fn option_vec_view<T>(o: Option<Vec<T>>) -> Option<Seq<T>> {
    match o {
        Some(v) => Some(v@),
        None => None,
    }
}

pub open spec fn option_map_view<G>(o: Option<BasisMap<G>>) -> Option<Seq<(usize, Seq<G>)>> {
    match o {
        Some(m) => Some(m@),
        None => None,
    }
}

impl<G> View for CommitterKey<G> {
    type V = CommitterKeyModel<G>;

    open spec fn view(&self) -> CommitterKeyModel<G> {
        CommitterKeyModel {
            powers_of_beta_g: self.powers_of_beta_g@,
            lagrange_bases_at_beta_g: self.lagrange_bases_at_beta_g@,
            powers_of_beta_times_gamma_g: self.powers_of_beta_times_gamma_g@,
            shifted_powers_of_beta_g: option_vec_view(self.shifted_powers_of_beta_g),
            shifted_powers_of_beta_times_gamma_g: option_map_view(
                self.shifted_powers_of_beta_times_gamma_g,
            ),
            enforced_degree_bounds: option_vec_view(self.enforced_degree_bounds),
            max_degree: self.max_degree,
        }
    }
}

impl<G> CommitterKey<G> {
    /// Both maps keep their keys in ascending order.
    pub open spec fn maps_wf(&self) -> bool {
        &&& self.lagrange_bases_at_beta_g.wf()
        &&& match self.shifted_powers_of_beta_times_gamma_g {
            Some(m) => m.wf(),
            None => true,
        }
    }
}

// ----- writing -----

fn write_len(out: &mut Vec<u8>, n: usize)
    ensures
        final(out)@ == old(out)@ + usize_bytes(n as int),
{
    #[verifier::truncate]
    let m = n as u32;
    assert(m == (n as int) as u32);
    write_u32(out, m);
}

fn write_points<G: CanonicalBytes>(out: &mut Vec<u8>, s: &Vec<G>)
    ensures
        final(out)@ == old(out)@ + points_bytes(s@),
{
    let mut i: usize = 0;
    while i < s.len()
        invariant
            i <= s@.len(),
            out@ == old(out)@ + points_bytes(s@.subrange(0, i as int)),
        decreases s@.len() - i,
    {
        s[i].write_le(out);
        proof {
            let t = s@.subrange(0, i + 1);
            assert(t.drop_last() =~= s@.subrange(0, i as int));
            assert(t.last() == s@[i as int]);
            assert(out@ =~= old(out)@ + points_bytes(t));
        }
        i = i + 1;
    }
    assert(s@.subrange(0, i as int) =~= s@);
}

fn write_lagrange<G: CanonicalBytes>(out: &mut Vec<u8>, m: &BasisMap<G>)
    ensures
        final(out)@ == old(out)@ + lagrange_bytes(m@),
{
    let mut i: usize = 0;
    while i < m.len()
        invariant
            i <= m@.len(),
            out@ == old(out)@ + lagrange_bytes(m@.subrange(0, i as int)),
        decreases m@.len() - i,
    {
        write_len(out, m.key_at(i));
        write_points(out, m.basis_at(i));
        proof {
            let t = m@.subrange(0, i + 1);
            assert(t.drop_last() =~= m@.subrange(0, i as int));
            assert(t.last() == m@[i as int]);
            assert(out@ =~= old(out)@ + lagrange_bytes(t));
        }
        i = i + 1;
    }
    assert(m@.subrange(0, i as int) =~= m@);
}

fn write_shifted_bases<G: CanonicalBytes>(out: &mut Vec<u8>, m: &BasisMap<G>)
    ensures
        final(out)@ == old(out)@ + shifted_bases_bytes(m@),
{
    let mut i: usize = 0;
    while i < m.len()
        invariant
            i <= m@.len(),
            out@ == old(out)@ + shifted_bases_bytes(m@.subrange(0, i as int)),
        decreases m@.len() - i,
    {
        write_len(out, m.key_at(i));
        write_len(out, m.basis_at(i).len());
        write_points(out, m.basis_at(i));
        proof {
            let t = m@.subrange(0, i + 1);
            assert(t.drop_last() =~= m@.subrange(0, i as int));
            assert(t.last() == m@[i as int]);
            assert(out@ =~= old(out)@ + shifted_bases_bytes(t));
        }
        i = i + 1;
    }
    assert(m@.subrange(0, i as int) =~= m@);
}

fn write_bounds(out: &mut Vec<u8>, s: &Vec<usize>)
    ensures
        final(out)@ == old(out)@ + bounds_bytes(s@),
{
    let mut i: usize = 0;
    while i < s.len()
        invariant
            i <= s@.len(),
            out@ == old(out)@ + bounds_bytes(s@.subrange(0, i as int)),
        decreases s@.len() - i,
    {
        write_len(out, s[i]);
        proof {
            let t = s@.subrange(0, i + 1);
            assert(t.drop_last() =~= s@.subrange(0, i as int));
            assert(t.last() == s@[i as int]);
            assert(out@ =~= old(out)@ + bounds_bytes(t));
        }
        i = i + 1;
    }
    assert(s@.subrange(0, i as int) =~= s@);
}

fn write_bases_points<G: CanonicalBytes>(out: &mut Vec<u8>, m: &BasisMap<G>)
    ensures
        final(out)@ == old(out)@ + bases_points_bytes(m@),
{
    let mut i: usize = 0;
    while i < m.len()
        invariant
            i <= m@.len(),
            out@ == old(out)@ + bases_points_bytes(m@.subrange(0, i as int)),
        decreases m@.len() - i,
    {
        write_points(out, m.basis_at(i));
        proof {
            let t = m@.subrange(0, i + 1);
            assert(t.drop_last() =~= m@.subrange(0, i as int));
            assert(t.last() == m@[i as int]);
            assert(out@ =~= old(out)@ + bases_points_bytes(t));
        }
        i = i + 1;
    }
    assert(m@.subrange(0, i as int) =~= m@);
}

impl<G: CanonicalBytes> CommitterKey<G> {
    /// The bytes that the digest covers. Writing and reading both take the digest of this,
    /// so the two cannot drift apart.
    pub fn digest_input(&self) -> (r: Vec<u8>)
        ensures
            r@ == digest_input(self@),
    {
        let mut out: Vec<u8> = Vec::new();
        write_points(&mut out, &self.powers_of_beta_g);
        write_points(&mut out, &self.powers_of_beta_times_gamma_g);
        if let Some(s) = &self.shifted_powers_of_beta_g {
            write_points(&mut out, s);
        }
        if let Some(m) = &self.shifted_powers_of_beta_times_gamma_g {
            write_bases_points(&mut out, m);
        }
        assert(out@ =~= digest_input(self@));
        out
    }

    /// Appends the binary form of the key: its fields, each sequence after its length and
    /// each optional field after a presence flag, then the SHA-256 digest of its plain,
    /// hiding and shifted bases. Lengths, keys and degrees are written as 32 bits.
    pub fn write_le(&self, out: &mut Vec<u8>)
        ensures
            final(out)@ == old(out)@ + key_bytes(self@),
    {
        let ghost start = out@;
        self.write_body(out);
        let input = self.digest_input();
        let digest = sha256_digest(input.as_slice());
        append_bytes(out, digest.as_slice());
        assert(out@ =~= start + key_bytes(self@));
    }

    fn write_body(&self, out: &mut Vec<u8>)
        ensures
            final(out)@ == old(out)@ + body_bytes(self@),
    {
        let ghost start = out@;
        write_len(out, self.powers_of_beta_g.len());
        write_points(out, &self.powers_of_beta_g);
        let ghost a = out@;
        write_len(out, self.lagrange_bases_at_beta_g.len());
        write_lagrange(out, &self.lagrange_bases_at_beta_g);
        let ghost b = out@;
        write_len(out, self.powers_of_beta_times_gamma_g.len());
        write_points(out, &self.powers_of_beta_times_gamma_g);
        let ghost c = out@;
        self.write_optional_fields(out);
        proof {
            let k = self@;
            let pa = usize_bytes(k.powers_of_beta_g.len() as int) + points_bytes(k.powers_of_beta_g);
            let pb = usize_bytes(k.lagrange_bases_at_beta_g.len() as int) + lagrange_bytes(
                k.lagrange_bases_at_beta_g,
            );
            let pc = usize_bytes(k.powers_of_beta_times_gamma_g.len() as int) + points_bytes(
                k.powers_of_beta_times_gamma_g,
            );
            assert(a =~= start + pa);
            assert(b =~= a + pb);
            assert(c =~= b + pc);
            assert(out@ =~= start + (pa + (pb + (pc + optional_fields_bytes(k)))));
        }
    }

    fn write_optional_fields(&self, out: &mut Vec<u8>)
        ensures
            final(out)@ == old(out)@ + optional_fields_bytes(self@),
    {
        let ghost start = out@;
        write_optional_points(out, &self.shifted_powers_of_beta_g);
        let ghost d = out@;
        write_optional_shifted_bases(out, &self.shifted_powers_of_beta_times_gamma_g);
        let ghost e = out@;
        write_optional_bounds(out, &self.enforced_degree_bounds);
        let ghost f = out@;
        write_len(out, self.max_degree);
        assert(out@ =~= start + optional_fields_bytes(self@));
    }
}

fn write_optional_points<G: CanonicalBytes>(out: &mut Vec<u8>, o: &Option<Vec<G>>)
    ensures
        final(out)@ == old(out)@ + optional_points_bytes(option_vec_view(*o)),
{
    let ghost start = out@;
    match o {
        Some(s) => {
            write_bool(out, true);
            write_len(out, s.len());
            write_points(out, s);
        },
        None => {
            write_bool(out, false);
        },
    }
    assert(out@ =~= start + optional_points_bytes(option_vec_view(*o)));
}

fn write_optional_shifted_bases<G: CanonicalBytes>(out: &mut Vec<u8>, o: &Option<BasisMap<G>>)
    ensures
        final(out)@ == old(out)@ + optional_shifted_bases_bytes(option_map_view(*o)),
{
    let ghost start = out@;
    match o {
        Some(m) => {
            write_bool(out, true);
            write_len(out, m.len());
            write_shifted_bases(out, m);
        },
        None => {
            write_bool(out, false);
        },
    }
    assert(out@ =~= start + optional_shifted_bases_bytes(option_map_view(*o)));
}

fn write_optional_bounds(out: &mut Vec<u8>, o: &Option<Vec<usize>>)
    ensures
        final(out)@ == old(out)@ + optional_bounds_bytes(option_vec_view(*o)),
{
    let ghost start = out@;
    match o {
        Some(s) => {
            write_bool(out, true);
            write_len(out, s.len());
            write_bounds(out, s);
        },
        None => {
            write_bool(out, false);
        },
    }
    assert(out@ =~= start + optional_bounds_bytes(option_vec_view(*o)));
}

// ----- reading -----

fn read_point<G: CanonicalBytes>(bytes: &[u8], pos: usize) -> (r: Option<(G, usize)>)
    requires
        pos <= bytes@.len(),
    ensures
        match r {
            Some((x, p)) => parse_point_at::<G>(bytes@, pos as int) == Some((x, p as int))
                && p <= bytes@.len(),
            None => parse_point_at::<G>(bytes@, pos as int) is None,
        },
{
    let _len = bytes.len();
    proof {
        G::lemma_parse_length(bytes@.subrange(pos as int, bytes@.len() as int));
    }
    G::read_le(bytes, pos)
}

fn read_points<G: CanonicalBytes>(bytes: &[u8], pos: usize, n: u32) -> (r: Option<(Vec<G>, usize)>)
    requires
        pos <= bytes@.len(),
    ensures
        match r {
            Some((v, p)) => parse_points_at::<G>(bytes@, pos as int, n as nat) == Some(
                (v@, p as int),
            ) && p <= bytes@.len(),
            None => parse_points_at::<G>(bytes@, pos as int, n as nat) is None,
        },
{
    let mut v: Vec<G> = Vec::new();
    let mut p = pos;
    let mut i: u32 = 0;
    let len = bytes.len();
    assert(v@ =~= Seq::<G>::empty());
    while i < n
        invariant
            i <= n,
            len == bytes@.len(),
            p <= bytes@.len(),
            pos <= bytes@.len(),
            parse_points_at::<G>(bytes@, pos as int, i as nat) == Some((v@, p as int)),
        decreases n - i,
    {
        match read_point::<G>(bytes, p) {
            None => {
                proof {
                    lemma_points_none::<G>(bytes@, pos as int, (i + 1) as nat, n as nat);
                }
                return None;
            },
            Some((x, q)) => {
                v.push(x);
                p = q;
            },
        }
        i = i + 1;
    }
    Some((v, p))
}

fn read_lagrange<G: CanonicalBytes>(bytes: &[u8], pos: usize, n: u32) -> (r: Option<
    (BasisMap<G>, usize),
>)
    requires
        pos <= bytes@.len(),
    ensures
        match r {
            Some((m, p)) => parse_lagrange_at::<G>(bytes@, pos as int, n as nat) == Some(
                (m@, p as int),
            ) && p <= bytes@.len() && m.wf(),
            None => parse_lagrange_at::<G>(bytes@, pos as int, n as nat) is None,
        },
{
    let mut m: BasisMap<G> = BasisMap::new();
    let mut p = pos;
    let mut i: u32 = 0;
    let len = bytes.len();
    while i < n
        invariant
            i <= n,
            len == bytes@.len(),
            p <= bytes@.len(),
            pos <= bytes@.len(),
            m.wf(),
            parse_lagrange_at::<G>(bytes@, pos as int, i as nat) == Some((m@, p as int)),
        decreases n - i,
    {
        let size = match read_u32(bytes, p) {
            None => {
                proof {
                    lemma_lagrange_none::<G>(bytes@, pos as int, (i + 1) as nat, n as nat);
                }
                return None;
            },
            Some(size) => size,
        };
        match read_points::<G>(bytes, p + 4, size) {
            None => {
                proof {
                    lemma_lagrange_none::<G>(bytes@, pos as int, (i + 1) as nat, n as nat);
                }
                return None;
            },
            Some((basis, q)) => {
                m.insert(size as usize, basis);
                p = q;
            },
        }
        i = i + 1;
    }
    Some((m, p))
}

fn read_shifted_bases<G: CanonicalBytes>(bytes: &[u8], pos: usize, n: u32) -> (r: Option<
    (BasisMap<G>, usize),
>)
    requires
        pos <= bytes@.len(),
    ensures
        match r {
            Some((m, p)) => parse_shifted_bases_at::<G>(bytes@, pos as int, n as nat) == Some(
                (m@, p as int),
            ) && p <= bytes@.len() && m.wf(),
            None => parse_shifted_bases_at::<G>(bytes@, pos as int, n as nat) is None,
        },
{
    let mut m: BasisMap<G> = BasisMap::new();
    let mut p = pos;
    let mut i: u32 = 0;
    let len = bytes.len();
    while i < n
        invariant
            i <= n,
            len == bytes@.len(),
            p <= bytes@.len(),
            pos <= bytes@.len(),
            m.wf(),
            parse_shifted_bases_at::<G>(bytes@, pos as int, i as nat) == Some((m@, p as int)),
        decreases n - i,
    {
        let key = match read_u32(bytes, p) {
            None => {
                proof {
                    lemma_shifted_bases_none::<G>(bytes@, pos as int, (i + 1) as nat, n as nat);
                }
                return None;
            },
            Some(key) => key,
        };
        let len = match read_u32(bytes, p + 4) {
            None => {
                proof {
                    lemma_shifted_bases_none::<G>(bytes@, pos as int, (i + 1) as nat, n as nat);
                }
                return None;
            },
            Some(len) => len,
        };
        match read_points::<G>(bytes, p + 8, len) {
            None => {
                proof {
                    lemma_shifted_bases_none::<G>(bytes@, pos as int, (i + 1) as nat, n as nat);
                }
                return None;
            },
            Some((basis, q)) => {
                m.insert(key as usize, basis);
                p = q;
            },
        }
        i = i + 1;
    }
    Some((m, p))
}

fn read_bounds(bytes: &[u8], pos: usize, n: u32) -> (r: Option<(Vec<usize>, usize)>)
    requires
        pos <= bytes@.len(),
    ensures
        match r {
            Some((v, p)) => parse_bounds_at(bytes@, pos as int, n as nat) == Some((v@, p as int))
                && p <= bytes@.len(),
            None => parse_bounds_at(bytes@, pos as int, n as nat) is None,
        },
{
    let mut v: Vec<usize> = Vec::new();
    let mut p = pos;
    let mut i: u32 = 0;
    let len = bytes.len();
    assert(v@ =~= Seq::<usize>::empty());
    while i < n
        invariant
            i <= n,
            len == bytes@.len(),
            p <= bytes@.len(),
            pos <= bytes@.len(),
            parse_bounds_at(bytes@, pos as int, i as nat) == Some((v@, p as int)),
        decreases n - i,
    {
        match read_u32(bytes, p) {
            None => {
                proof {
                    lemma_bounds_none(bytes@, pos as int, (i + 1) as nat, n as nat);
                }
                return None;
            },
            Some(x) => {
                v.push(x as usize);
                p = p + 4;
            },
        }
        i = i + 1;
    }
    Some((v, p))
}

fn read_optional_points<G: CanonicalBytes>(bytes: &[u8], pos: usize) -> (r: Option<
    (Option<Vec<G>>, usize),
>)
    requires
        pos <= bytes@.len(),
    ensures
        match r {
            Some((o, p)) => parse_optional_points_at::<G>(bytes@, pos as int) == Some(
                (option_vec_view(o), p as int),
            ) && p <= bytes@.len(),
            None => parse_optional_points_at::<G>(bytes@, pos as int) is None,
        },
{
    let _len = bytes.len();
    match read_bool(bytes, pos) {
        None => None,
        Some(false) => Some((None, pos + 1)),
        Some(true) => match read_u32(bytes, pos + 1) {
            None => None,
            Some(n) => match read_points::<G>(bytes, pos + 5, n) {
                None => None,
                Some((s, p)) => Some((Some(s), p)),
            },
        },
    }
}

fn read_optional_shifted_bases<G: CanonicalBytes>(bytes: &[u8], pos: usize) -> (r: Option<
    (Option<BasisMap<G>>, usize),
>)
    requires
        pos <= bytes@.len(),
    ensures
        match r {
            Some((o, p)) => parse_optional_shifted_bases_at::<G>(bytes@, pos as int) == Some(
                (option_map_view(o), p as int),
            ) && p <= bytes@.len() && match o {
                Some(m) => m.wf(),
                None => true,
            },
            None => parse_optional_shifted_bases_at::<G>(bytes@, pos as int) is None,
        },
{
    let _len = bytes.len();
    match read_bool(bytes, pos) {
        None => None,
        Some(false) => Some((None, pos + 1)),
        Some(true) => match read_u32(bytes, pos + 1) {
            None => None,
            Some(n) => match read_shifted_bases::<G>(bytes, pos + 5, n) {
                None => None,
                Some((m, p)) => Some((Some(m), p)),
            },
        },
    }
}

fn read_optional_bounds(bytes: &[u8], pos: usize) -> (r: Option<(Option<Vec<usize>>, usize)>)
    requires
        pos <= bytes@.len(),
    ensures
        match r {
            Some((o, p)) => parse_optional_bounds_at(bytes@, pos as int) == Some(
                (option_vec_view(o), p as int),
            ) && p <= bytes@.len(),
            None => parse_optional_bounds_at(bytes@, pos as int) is None,
        },
{
    let _len = bytes.len();
    match read_bool(bytes, pos) {
        None => None,
        Some(false) => Some((None, pos + 1)),
        Some(true) => match read_u32(bytes, pos + 1) {
            None => None,
            Some(n) => match read_bounds(bytes, pos + 5, n) {
                None => None,
                Some((s, p)) => Some((Some(s), p)),
            },
        },
    }
}

/// The fields after the hiding basis, as read from `bytes` at `pos`.
type OptionalFields<G> = (Option<Vec<G>>, Option<BasisMap<G>>, Option<Vec<usize>>, usize);

fn read_optional_fields<G: CanonicalBytes>(bytes: &[u8], pos: usize) -> (r: Option<
    (OptionalFields<G>, usize),
>)
    requires
        pos <= bytes@.len(),
    ensures
        match r {
            Some(((s, sg, bd, md), p)) => parse_optional_fields_at::<G>(bytes@, pos as int)
                == Some(
                (
                    (option_vec_view(s), option_map_view(sg), option_vec_view(bd), md),
                    p as int,
                ),
            ) && p <= bytes@.len() && match sg {
                Some(m) => m.wf(),
                None => true,
            },
            None => parse_optional_fields_at::<G>(bytes@, pos as int) is None,
        },
{
    let _len = bytes.len();
    let (shifted, p1) = match read_optional_points::<G>(bytes, pos) {
        None => return None,
        Some(x) => x,
    };
    let (shifted_gamma, p2) = match read_optional_shifted_bases::<G>(bytes, p1) {
        None => return None,
        Some(x) => x,
    };
    let (bounds, p3) = match read_optional_bounds(bytes, p2) {
        None => return None,
        Some(x) => x,
    };
    let max_degree = match read_u32(bytes, p3) {
        None => return None,
        Some(x) => x,
    };
    Some(((shifted, shifted_gamma, bounds, max_degree as usize), p3 + 4))
}

impl<G: CanonicalBytes> CommitterKey<G> {
    fn read_body(bytes: &[u8]) -> (r: Option<(CommitterKey<G>, usize)>)
        ensures
            match r {
                Some((k, p)) => parse_body::<G>(bytes@) == Some((k@, p as int))
                    && p <= bytes@.len() && k.maps_wf(),
                None => parse_body::<G>(bytes@) is None,
            },
    {
        let _len = bytes.len();
        let n0 = match read_u32(bytes, 0) {
            None => return None,
            Some(x) => x,
        };
        let (powers_of_beta_g, p1) = match read_points::<G>(bytes, 4, n0) {
            None => return None,
            Some(x) => x,
        };
        let n1 = match read_u32(bytes, p1) {
            None => return None,
            Some(x) => x,
        };
        let (lagrange_bases_at_beta_g, p3) = match read_lagrange::<G>(bytes, p1 + 4, n1) {
            None => return None,
            Some(x) => x,
        };
        let n2 = match read_u32(bytes, p3) {
            None => return None,
            Some(x) => x,
        };
        let (powers_of_beta_times_gamma_g, p5) = match read_points::<G>(bytes, p3 + 4, n2) {
            None => return None,
            Some(x) => x,
        };
        let ((shifted_powers_of_beta_g, shifted_powers_of_beta_times_gamma_g, enforced_degree_bounds, max_degree), p6) =
            match read_optional_fields::<G>(bytes, p5) {
            None => return None,
            Some(x) => x,
        };
        let k = CommitterKey {
            powers_of_beta_g,
            lagrange_bases_at_beta_g,
            powers_of_beta_times_gamma_g,
            shifted_powers_of_beta_g,
            shifted_powers_of_beta_times_gamma_g,
            enforced_degree_bounds,
            max_degree,
        };
        Some((k, p6))
    }

    /// Reads a committer key from the front of `bytes`, and checks the digest after it
    /// against the digest of the group elements that were read.
    pub fn read_le(bytes: &[u8]) -> (r: Result<CommitterKey<G>, KeyDecodeError>)
        ensures
            match r {
                Ok(k) => decode_key::<G>(bytes@) == Ok::<CommitterKeyModel<G>, KeyDecodeError>(
                    k@,
                ) && k.maps_wf(),
                Err(e) => decode_key::<G>(bytes@) == Err::<CommitterKeyModel<G>, KeyDecodeError>(
                    e,
                ),
            },
    {
        let len = bytes.len();
        let (k, p) = match Self::read_body(bytes) {
            None => return Err(KeyDecodeError::Malformed),
            Some(x) => x,
        };
        if bytes.len() - p < 32 {
            return Err(KeyDecodeError::Malformed);
        }
        let input = k.digest_input();
        let digest = sha256_digest(input.as_slice());
        let mut i: usize = 0;
        while i < 32
            invariant
                i <= 32,
                len == bytes@.len(),
                p + 32 <= bytes@.len(),
                digest == sha256(digest_input(k@)),
                digest@.len() == 32,
                parse_body::<G>(bytes@) == Some((k@, p as int)),
                forall|j: int| 0 <= j < i ==> bytes@[p + j] == digest@[j],
            decreases 32 - i,
        {
            if bytes[p + i] != digest[i] {
                assert(bytes@.subrange(p as int, p + 32)[i as int] != digest@[i as int]);
                return Err(KeyDecodeError::IntegrityMismatch);
            }
            i = i + 1;
        }
        assert(bytes@.subrange(p as int, p + 32) =~= digest@);
        Ok(k)
    }
}

// ----- views for the prover -----

/// A window of a basis, with the hiding basis that goes with it: what commitments and
/// openings are computed against. It borrows from the key and copies nothing.
pub struct Powers<'a, G> {
    pub powers_of_beta_g: &'a [G],
    pub powers_of_beta_times_gamma_g: &'a [G],
}

/// A Lagrange basis for one evaluation domain, with the hiding basis.
pub struct LagrangeBasis<'a, G> {
    pub lagrange_basis_at_beta_g: &'a [G],
    pub powers_of_beta_times_gamma_g: &'a [G],
    pub domain_size: usize,
}

/// The largest degree bound that the key enforces.
pub open spec fn max_bound(bounds: Seq<usize>) -> usize {
    bounds.last()
}

/// What `shifted_powers_of_beta_g` serves for `bound` (the largest enforced bound when
/// `None`): the shifted basis from offset `max_bound - bound` on, and the shifted hiding
/// basis of that bound. `None` when the key enforces no degree bound, when the bound is not
/// one it enforces, or when the key lacks what that bound needs.
pub open spec fn spec_shifted_powers<G>(k: CommitterKeyModel<G>, bound: Option<usize>) -> Option<
    (Seq<G>, Seq<G>),
> {
    match (
        k.shifted_powers_of_beta_g,
        k.shifted_powers_of_beta_times_gamma_g,
        k.enforced_degree_bounds,
    ) {
        (Some(shifted), Some(hiding), Some(bounds)) => if bounds.len() == 0 {
            None
        } else {
            let top = max_bound(bounds);
            let b = match bound {
                Some(d) => d,
                None => top,
            };
            if bounds.contains(b) && b <= top && top - b <= shifted.len() && map_get(
                hiding,
                b,
            ) is Some {
                Some((shifted.subrange(top - b, shifted.len() as int), map_get(hiding, b)->0))
            } else {
                None
            }
        },
        _ => None,
    }
}

/// The degree-bound machinery of a key is consistent: the shifted basis, the shifted
/// hiding bases and the enforced bounds are present together; the bounds ascend strictly;
/// and every enforced bound has its shifted hiding basis and fits the shifted basis.
pub open spec fn degree_bounds_wf<G>(k: CommitterKeyModel<G>) -> bool {
    match (
        k.shifted_powers_of_beta_g,
        k.shifted_powers_of_beta_times_gamma_g,
        k.enforced_degree_bounds,
    ) {
        (Some(shifted), Some(hiding), Some(bounds)) => {
            &&& bounds.len() > 0
            &&& forall|i: int, j: int| 0 <= i < j < bounds.len() ==> bounds[i] < bounds[j]
            &&& forall|i: int|
                0 <= i < bounds.len() ==> map_get(hiding, #[trigger] bounds[i]) is Some
                    && max_bound(bounds) - bounds[i] <= shifted.len()
        },
        (None, None, None) => true,
        _ => false,
    }
}

/// On a key whose degree-bound machinery is consistent, `shifted_powers_of_beta_g`
/// serves exactly the enforced bounds: for each, the shifted basis from offset
/// `max_bound - bound` (so its first element is the shifted basis at that offset, and
/// its length is the shifted basis's length less the offset), with that bound's shifted
/// hiding basis.
pub proof fn lemma_shifted_powers_offset<G>(k: CommitterKeyModel<G>, bound: usize)
    requires
        degree_bounds_wf(k),
    ensures
        spec_shifted_powers(k, Some(bound)) is Some <==> (k.enforced_degree_bounds matches Some(
            bounds,
        ) && bounds.contains(bound)),
        spec_shifted_powers(k, Some(bound)) matches Some((basis, hiding)) ==> {
            let shifted = k.shifted_powers_of_beta_g->0;
            let offset = max_bound(k.enforced_degree_bounds->0) - bound;
            &&& basis == shifted.subrange(offset, shifted.len() as int)
            &&& basis.len() == shifted.len() - offset
            &&& (basis.len() > 0 ==> basis[0] == shifted[offset])
            &&& Some(hiding) == map_get(k.shifted_powers_of_beta_times_gamma_g->0, bound)
        },
{
    if let Some(bounds) = k.enforced_degree_bounds {
        if bounds.contains(bound) && k.shifted_powers_of_beta_g is Some {
            let i = choose|i: int| 0 <= i < bounds.len() && bounds[i] == bound;
            assert(map_get(k.shifted_powers_of_beta_times_gamma_g->0, bounds[i]) is Some);
            if i < bounds.len() - 1 {
                assert(bounds[i] < bounds[bounds.len() - 1]);
            }
        }
    }
}

impl<G> CommitterKey<G> {
    /// The plain basis and the hiding basis, for unshifted commitments and openings.
    pub fn powers(&self) -> (r: Powers<'_, G>)
        ensures
            r.powers_of_beta_g@ == self.powers_of_beta_g@,
            r.powers_of_beta_times_gamma_g@ == self.powers_of_beta_times_gamma_g@,
    {
        Powers {
            powers_of_beta_g: self.powers_of_beta_g.as_slice(),
            powers_of_beta_times_gamma_g: self.powers_of_beta_times_gamma_g.as_slice(),
        }
    }

    /// The powers for committing to shifted polynomials with degree bound `degree_bound`,
    /// or with the largest enforced bound when `None`: a window of the one shifted basis
    /// that all bounds share, starting at offset `max_bound - degree_bound`.
    pub fn shifted_powers_of_beta_g(&self, degree_bound: Option<usize>) -> (r: Option<
        Powers<'_, G>,
    >)
        requires
            self.maps_wf(),
        ensures
            match r {
                Some(p) => spec_shifted_powers(self@, degree_bound) == Some(
                    (p.powers_of_beta_g@, p.powers_of_beta_times_gamma_g@),
                ),
                None => spec_shifted_powers(self@, degree_bound) is None,
            },
    {
        match (
            &self.shifted_powers_of_beta_g,
            &self.shifted_powers_of_beta_times_gamma_g,
            &self.enforced_degree_bounds,
        ) {
            (Some(shifted), Some(hiding), Some(bounds)) => {
                if bounds.len() == 0 {
                    return None;
                }
                let top = bounds[bounds.len() - 1];
                let bound = match degree_bound {
                    Some(d) => d,
                    None => top,
                };
                if !contains_bound(bounds, bound) || bound > top || top - bound > shifted.len() {
                    return None;
                }
                match hiding.get(bound) {
                    None => None,
                    Some(h) => {
                        let window = vstd::slice::slice_subrange(
                            shifted.as_slice(),
                            top - bound,
                            shifted.len(),
                        );
                        Some(
                            Powers {
                                powers_of_beta_g: window,
                                powers_of_beta_times_gamma_g: h.as_slice(),
                            },
                        )
                    },
                }
            },
            _ => None,
        }
    }

    /// The Lagrange basis precomputed for evaluation domains of `domain_size` elements,
    /// if any, with the hiding basis.
    pub fn lagrange_basis(&self, domain_size: usize) -> (r: Option<LagrangeBasis<'_, G>>)
        requires
            self.maps_wf(),
        ensures
            match r {
                Some(l) => map_get(self@.lagrange_bases_at_beta_g, domain_size) == Some(
                    l.lagrange_basis_at_beta_g@,
                ) && l.powers_of_beta_times_gamma_g@ == self.powers_of_beta_times_gamma_g@
                    && l.domain_size == domain_size,
                None => map_get(self@.lagrange_bases_at_beta_g, domain_size) is None,
            },
    {
        match self.lagrange_bases_at_beta_g.get(domain_size) {
            None => None,
            Some(basis) => Some(
                LagrangeBasis {
                    lagrange_basis_at_beta_g: basis.as_slice(),
                    powers_of_beta_times_gamma_g: self.powers_of_beta_times_gamma_g.as_slice(),
                    domain_size,
                },
            ),
        }
    }

    /// The maximum degree supported by the parameters this key was derived from.
    pub fn max_degree(&self) -> (r: usize)
        ensures
            r == self.max_degree,
    {
        self.max_degree
    }

    /// The maximum degree this key can commit to: one less than the number of powers.
    pub fn supported_degree(&self) -> (r: usize)
        requires
            self.powers_of_beta_g@.len() > 0,
        ensures
            r == self.powers_of_beta_g@.len() - 1,
    {
        self.powers_of_beta_g.len() - 1
    }
}

/// Whether `bound` is one of `bounds`.
fn contains_bound(bounds: &Vec<usize>, bound: usize) -> (r: bool)
    ensures
        r == bounds@.contains(bound),
{
    let mut i: usize = 0;
    while i < bounds.len()
        invariant
            i <= bounds@.len(),
            forall|j: int| 0 <= j < i ==> bounds@[j] != bound,
        decreases bounds@.len() - i,
    {
        if bounds[i] == bound {
            return true;
        }
        i = i + 1;
    }
    false
}

} // verus!
