//! The verifier key and its prepared form, with the lookup of the shifting element of a
//! degree bound.

use vstd::prelude::*;
use crate::algebra::Prepare;
use crate::basis_map::{ascending, lemma_lower_bound_at, lemma_map_get_ascending, map_get};

verus! {

/// Used to check evaluation proofs.
pub struct VerifierKey<V, H, P> {
    /// The verifier key of the underlying KZG10 scheme.
    pub vk: V,
    /// Each enforced degree bound with its G2 shifting element, in ascending order of
    /// bound; `None` if no degree bound can be enforced.
    pub degree_bounds_and_neg_powers_of_h: Option<Vec<(usize, H)>>,
    /// The prepared form of the shifting elements, in the same order.
    pub degree_bounds_and_prepared_neg_powers_of_h: Option<Vec<(usize, P)>>,
    /// The maximum degree supported by the trimmed parameters this key is part of.
    pub supported_degree: usize,
    /// The maximum degree supported by the parameters this key was derived from.
    pub max_degree: usize,
}

/// The prepared form of a verifier key.
pub struct PreparedVerifierKey<Q, P> {
    /// The prepared verifier key of the underlying KZG10 scheme.
    pub prepared_vk: Q,
    /// Each enforced degree bound with its prepared shifting element, in ascending order
    /// of bound; `None` if no degree bound can be enforced.
    pub degree_bounds_and_prepared_neg_powers_of_h: Option<Vec<(usize, P)>>,
    /// The maximum degree supported by the parameters this key was derived from.
    pub max_degree: usize,
    /// The maximum degree supported by the trimmed parameters this key is part of.
    pub supported_degree: usize,
}

/// The bounds of an optional list ascend strictly.
pub open spec fn bounds_ascending<T>(o: Option<Vec<(usize, T)>>) -> bool {
    match o {
        Some(v) => ascending(v@),
        None => true,
    }
}

/// What an optional list binds `bound` to.
pub open spec fn lookup_bound<T>(o: Option<Vec<(usize, T)>>, bound: usize) -> Option<T> {
    match o {
        Some(v) => map_get(v@, bound),
        None => None,
    }
}

/// The list holds the entry `(bound, x)`.
pub open spec fn has_entry<T>(o: Option<Vec<(usize, T)>>, bound: usize, x: T) -> bool {
    match o {
        Some(v) => exists|i: int| 0 <= i < v@.len() && v@[i] == (bound, x),
        None => false,
    }
}

/// The list holds an entry for `bound`.
pub open spec fn has_bound<T>(o: Option<Vec<(usize, T)>>, bound: usize) -> bool {
    match o {
        Some(v) => exists|i: int| 0 <= i < v@.len() && v@[i].0 == bound,
        None => false,
    }
}

/// Binary search for `bound` in a list whose bounds ascend strictly.
fn search_bound<T>(v: &Vec<(usize, T)>, bound: usize) -> (r: Option<usize>)
    requires
        ascending(v@),
    ensures
        match r {
            Some(i) => i < v@.len() && v@[i as int].0 == bound && map_get(v@, bound) == Some(
                v@[i as int].1,
            ),
            None => map_get(v@, bound) is None,
        },
{
    let mut lo: usize = 0;
    let mut hi: usize = v.len();
    while lo < hi
        invariant
            lo <= hi <= v@.len(),
            ascending(v@),
            forall|j: int| 0 <= j < lo ==> v@[j].0 < bound,
            forall|j: int| hi <= j < v@.len() ==> v@[j].0 > bound,
        decreases hi - lo,
    {
        let mid = lo + (hi - lo) / 2;
        let d = v[mid].0;
        if d < bound {
            lo = mid + 1;
        } else if d > bound {
            hi = mid;
        } else {
            proof {
                lemma_lower_bound_at(v@, bound, mid as int);
            }
            return Some(mid);
        }
    }
    proof {
        lemma_lower_bound_at(v@, bound, lo as int);
    }
    None
}

impl<V, H: Copy, P: Clone> VerifierKey<V, H, P> {
    /// The shifting element of `degree_bound`, found by binary search; `None` when the
    /// key does not enforce that bound.
    pub fn get_shift_power(&self, degree_bound: usize) -> (r: Option<H>)
        requires
            bounds_ascending(self.degree_bounds_and_neg_powers_of_h),
        ensures
            r == lookup_bound(self.degree_bounds_and_neg_powers_of_h, degree_bound),
            r is Some <==> has_bound(self.degree_bounds_and_neg_powers_of_h, degree_bound),
            r matches Some(h) ==> has_entry(self.degree_bounds_and_neg_powers_of_h, degree_bound, h),
    {
        proof {
            if self.degree_bounds_and_neg_powers_of_h is Some {
                lemma_map_get_ascending(self.degree_bounds_and_neg_powers_of_h->0@, degree_bound);
            }
        }
        match &self.degree_bounds_and_neg_powers_of_h {
            None => None,
            Some(v) => match search_bound(v, degree_bound) {
                None => None,
                Some(i) => Some(v[i].1),
            },
        }
    }

    /// The prepared shifting element of `degree_bound` (a clone of the stored one); `None`
    /// when the key does not enforce that bound.
    pub fn get_prepared_shift_power(&self, degree_bound: usize) -> (r: Option<P>)
        requires
            bounds_ascending(self.degree_bounds_and_prepared_neg_powers_of_h),
        ensures
            match lookup_bound(self.degree_bounds_and_prepared_neg_powers_of_h, degree_bound) {
                Some(p) => r matches Some(q) && cloned(p, q),
                None => r is None,
            },
    {
        get_prepared(&self.degree_bounds_and_prepared_neg_powers_of_h, degree_bound)
    }

    /// The maximum degree supported by the parameters this key was derived from.
    pub fn max_degree(&self) -> (r: usize)
        ensures
            r == self.max_degree,
    {
        self.max_degree
    }

    /// The maximum degree supported by the trimmed parameters this key is part of.
    pub fn supported_degree(&self) -> (r: usize)
        ensures
            r == self.supported_degree,
    {
        self.supported_degree
    }
}

fn get_prepared<P: Clone>(o: &Option<Vec<(usize, P)>>, bound: usize) -> (r: Option<P>)
    requires
        bounds_ascending(*o),
    ensures
        match lookup_bound(*o, bound) {
            Some(p) => r matches Some(q) && cloned(p, q),
            None => r is None,
        },
{
    match o {
        None => None,
        Some(v) => match search_bound(v, bound) {
            None => None,
            Some(i) => Some(v[i].1.clone()),
        },
    }
}

/// A copy of a list of prepared elements, each cloned.
fn clone_prepared<P: Clone>(o: &Option<Vec<(usize, P)>>) -> (r: Option<Vec<(usize, P)>>)
    ensures
        match (*o, r) {
            (Some(v), Some(w)) => w@.len() == v@.len() && forall|i: int|
                0 <= i < v@.len() ==> (#[trigger] w@[i]).0 == v@[i].0 && cloned(v@[i].1, w@[i].1),
            (None, None) => true,
            _ => false,
        },
{
    match o {
        None => None,
        Some(v) => {
            let mut w: Vec<(usize, P)> = Vec::new();
            let mut i: usize = 0;
            while i < v.len()
                invariant
                    i <= v@.len(),
                    w@.len() == i,
                    forall|j: int|
                        0 <= j < i ==> (#[trigger] w@[j]).0 == v@[j].0 && cloned(v@[j].1, w@[j].1),
                decreases v@.len() - i,
            {
                w.push((v[i].0, v[i].1.clone()));
                i = i + 1;
            }
            Some(w)
        },
    }
}

impl<V: Prepare, H, P: Clone> VerifierKey<V, H, P> {
    /// The prepared form: the prepared inner key, a copy of the prepared shifting
    /// elements, and the same degrees.
    pub fn prepare(&self) -> (r: PreparedVerifierKey<V::Prepared, P>)
        ensures
            r.prepared_vk@ == self.vk.spec_prepare(),
            r.max_degree == self.max_degree,
            r.supported_degree == self.supported_degree,
            match (self.degree_bounds_and_prepared_neg_powers_of_h, r.degree_bounds_and_prepared_neg_powers_of_h) {
                (Some(v), Some(w)) => w@.len() == v@.len() && forall|i: int|
                    0 <= i < v@.len() ==> (#[trigger] w@[i]).0 == v@[i].0 && cloned(
                        v@[i].1,
                        w@[i].1,
                    ),
                (None, None) => true,
                _ => false,
            },
    {
        PreparedVerifierKey {
            prepared_vk: self.vk.prepare(),
            degree_bounds_and_prepared_neg_powers_of_h: clone_prepared(
                &self.degree_bounds_and_prepared_neg_powers_of_h,
            ),
            max_degree: self.max_degree,
            supported_degree: self.supported_degree,
        }
    }
}

impl<Q, P: Clone> PreparedVerifierKey<Q, P> {
    /// The prepared shifting element of `bound` (a clone of the stored one), found by
    /// binary search; `None` when the key does not enforce that bound.
    pub fn get_prepared_shift_power(&self, bound: usize) -> (r: Option<P>)
        requires
            bounds_ascending(self.degree_bounds_and_prepared_neg_powers_of_h),
        ensures
            match lookup_bound(self.degree_bounds_and_prepared_neg_powers_of_h, bound) {
                Some(p) => r matches Some(q) && cloned(p, q),
                None => r is None,
            },
    {
        get_prepared(&self.degree_bounds_and_prepared_neg_powers_of_h, bound)
    }
}

} // verus!
