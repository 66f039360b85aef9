//! Linear combinations of labeled polynomials: a label and a coefficient for each term,
//! kept in a deterministic order of terms.

use vstd::prelude::*;
use vstd::utf8::encode_utf8;
use crate::algebra::Field;
use crate::bytes::{bytes_lt, compare_bytes, lemma_bytes_transitive, lemma_bytes_trichotomy};

verus! {

/// A term of a linear combination.
#[derive(Clone, Debug, PartialEq, Eq, PartialOrd, Ord, Hash)]
pub enum LCTerm {
    /// The constant term, standing for `one`.
    One,
    /// The label of a polynomial.
    PolyLabel(String),
}

/// A term as the contracts see it: `None` for the constant term, the UTF-8 bytes of the
/// label for a polynomial.
pub type TermKey = Option<Seq<u8>>;

impl View for LCTerm {
    type V = TermKey;

    open spec fn view(&self) -> TermKey {
        match self {
            LCTerm::One => None,
            LCTerm::PolyLabel(l) => Some(encode_utf8(l@)),
        }
    }
}

/// The order of terms: the constant term first, then labels in lexicographic order of
/// their bytes (the order of `String`).
pub open spec fn term_lt(a: TermKey, b: TermKey) -> bool {
    match (a, b) {
        (None, Some(_)) => true,
        (Some(x), Some(y)) => bytes_lt(x, y),
        _ => false,
    }
}

pub proof fn lemma_term_trichotomy(a: TermKey, b: TermKey)
    ensures
        term_lt(a, b) || a == b || term_lt(b, a),
        !(term_lt(a, b) && term_lt(b, a)),
        !(term_lt(a, b) && a == b),
{
    if let (Some(x), Some(y)) = (a, b) {
        lemma_bytes_trichotomy(x, y);
    }
}

pub proof fn lemma_term_transitive(a: TermKey, b: TermKey, c: TermKey)
    requires
        term_lt(a, b),
        term_lt(b, c),
    ensures
        term_lt(a, c),
{
    if let (Some(x), Some(y), Some(z)) = (a, b, c) {
        lemma_bytes_transitive(x, y, z);
    }
}

impl LCTerm {
    /// Whether this is the constant term.
    pub fn is_one(&self) -> (r: bool)
        ensures
            r == (self@ is None),
    {
        match self {
            LCTerm::One => true,
            LCTerm::PolyLabel(_) => false,
        }
    }

    /// Compares two terms in the order of [`term_lt`]: -1, 0 or 1.
    pub fn compare(&self, other: &LCTerm) -> (r: i8)
        ensures
            r == -1 <==> term_lt(self@, other@),
            r == 0 <==> self@ == other@,
            r == 1 <==> term_lt(other@, self@),
            r == -1 || r == 0 || r == 1,
    {
        match (self, other) {
            (LCTerm::One, LCTerm::One) => 0,
            (LCTerm::One, LCTerm::PolyLabel(_)) => -1,
            (LCTerm::PolyLabel(_), LCTerm::One) => 1,
            (LCTerm::PolyLabel(a), LCTerm::PolyLabel(b)) => {
                compare_bytes(a.as_str().as_bytes(), b.as_str().as_bytes())
            },
        }
    }

    /// A copy of the term.
    pub fn duplicate(&self) -> (r: LCTerm)
        ensures
            r@ == self@,
            r == *self,
    {
        match self {
            LCTerm::One => LCTerm::One,
            LCTerm::PolyLabel(l) => LCTerm::PolyLabel(l.clone()),
        }
    }

    /// The label of a polynomial term; an error for the constant term.
    pub fn try_into_label(self) -> (r: Result<String, ()>)
        ensures
            match self {
                LCTerm::One => r is Err,
                LCTerm::PolyLabel(l) => r == Ok::<String, ()>(l),
            },
    {
        match self {
            LCTerm::One => Err(()),
            LCTerm::PolyLabel(l) => Ok(l),
        }
    }

    /// Whether this is the polynomial term labeled `label`.
    pub fn eq_label(&self, label: &String) -> (r: bool)
        ensures
            r == (self@ == Some(encode_utf8(label@))),
    {
        match self {
            LCTerm::One => false,
            LCTerm::PolyLabel(l) => compare_bytes(l.as_str().as_bytes(), label.as_str().as_bytes())
                == 0,
        }
    }

    /// The term as text: `1` for the constant term, the label otherwise.
    pub fn to_string(&self) -> (r: String)
        ensures
            match self {
                LCTerm::One => r@ == seq!['1'],
                LCTerm::PolyLabel(l) => r@ == l@,
            },
    {
        match self {
            LCTerm::One => {
                let r = "1".to_owned();
                proof {
                    reveal_strlit("1");
                }
                r
            },
            LCTerm::PolyLabel(l) => l.clone(),
        }
    }
}

impl From<String> for LCTerm {
    fn from(other: String) -> (r: LCTerm) {
        LCTerm::PolyLabel(other)
    }
}

impl vstd::std_specs::convert::FromSpecImpl<String> for LCTerm {
    open spec fn obeys_from_spec() -> bool {
        true
    }

    open spec fn from_spec(v: String) -> LCTerm {
        LCTerm::PolyLabel(v)
    }
}

impl<'a> From<&'a str> for LCTerm {
    fn from(other: &'a str) -> (r: LCTerm) {
        LCTerm::PolyLabel(other.to_owned())
    }
}

/// The term of a label given as text; contracts that need its label use `eq_label`.
impl<'a> vstd::std_specs::convert::FromSpecImpl<&'a str> for LCTerm {
    open spec fn obeys_from_spec() -> bool {
        false
    }

    open spec fn from_spec(v: &'a str) -> LCTerm {
        LCTerm::One
    }
}

/// The terms of `s` ascend strictly.
pub open spec fn terms_ascending<F>(s: Seq<(TermKey, F)>) -> bool {
    forall|i: int, j: int| 0 <= i < j < s.len() ==> term_lt(s[i].0, s[j].0)
}

/// The coefficient that `s` gives `k` (its last entry for `k`).
pub open spec fn lookup<F>(s: Seq<(TermKey, F)>, k: TermKey) -> Option<F>
    decreases s.len(),
{
    if s.len() == 0 {
        None
    } else if s.last().0 == k {
        Some(s.last().1)
    } else {
        lookup(s.drop_last(), k)
    }
}

/// The coefficients of `s`, as a map from term to coefficient.
pub open spec fn to_coeffs<F>(s: Seq<(TermKey, F)>) -> Map<TermKey, F> {
    Map::new(|k: TermKey| lookup(s, k) is Some, |k: TermKey| lookup(s, k)->0)
}

/// Adding `c` to the coefficient of `t` (an absent term counts as zero); a coefficient
/// that becomes zero is removed.
pub open spec fn add_term<F: Field>(m: Map<TermKey, F>, t: TermKey, c: F) -> Map<TermKey, F> {
    let sum = if m.contains_key(t) {
        m[t].spec_add(c)
    } else {
        c
    };
    if sum == F::spec_zero() {
        m.remove(t)
    } else {
        m.insert(t, sum)
    }
}

/// Adding `c` to the coefficient of `t`, keeping a zero.
pub open spec fn merge_term<F: Field>(m: Map<TermKey, F>, t: TermKey, c: F) -> Map<TermKey, F> {
    m.insert(
        t,
        if m.contains_key(t) {
            m[t].spec_add(c)
        } else {
            c
        },
    )
}

/// The terms of `s` merged in order, duplicates summed.
pub open spec fn merged<F: Field>(s: Seq<(F, TermKey)>) -> Map<TermKey, F>
    decreases s.len(),
{
    if s.len() == 0 {
        Map::empty()
    } else {
        merge_term(merged(s.drop_last()), s.last().1, s.last().0)
    }
}

/// `add_term` of each entry of `s` in order, its coefficient passed through `f`.
pub open spec fn add_all<F: Field>(
    m: Map<TermKey, F>,
    s: Seq<(TermKey, F)>,
    f: spec_fn(F) -> F,
) -> Map<TermKey, F>
    decreases s.len(),
{
    if s.len() == 0 {
        m
    } else {
        add_term(add_all(m, s.drop_last(), f), s.last().0, f(s.last().1))
    }
}

proof fn lemma_lookup_at<F>(s: Seq<(TermKey, F)>, i: int)
    requires
        terms_ascending(s),
        0 <= i < s.len(),
    ensures
        lookup(s, s[i].0) == Some(s[i].1),
    decreases s.len(),
{
    if i < s.len() - 1 {
        lemma_term_trichotomy(s[i].0, s.last().0);
        assert(term_lt(s[i].0, s[s.len() - 1].0));
        let t = s.drop_last();
        assert(t[i] == s[i]);
        lemma_lookup_at(t, i);
    }
}

proof fn lemma_lookup_found<F>(s: Seq<(TermKey, F)>, k: TermKey)
    ensures
        lookup(s, k) is Some ==> exists|i: int| 0 <= i < s.len() && s[i].0 == k,
    decreases s.len(),
{
    if s.len() > 0 && s.last().0 != k {
        let t = s.drop_last();
        lemma_lookup_found(t, k);
        if lookup(t, k) is Some {
            let i = choose|i: int| 0 <= i < t.len() && t[i].0 == k;
            assert(s[i] == t[i]);
        }
    }
}

/// The coefficients of an ascending `s`: its terms, each with its entry's coefficient.
proof fn lemma_coeffs<F>(s: Seq<(TermKey, F)>)
    requires
        terms_ascending(s),
    ensures
        forall|i: int| 0 <= i < s.len() ==> #[trigger] to_coeffs(s).contains_key(s[i].0)
            && to_coeffs(s)[s[i].0] == s[i].1,
        forall|k: TermKey| #[trigger]
            to_coeffs(s).contains_key(k) ==> exists|i: int| 0 <= i < s.len() && s[i].0 == k,
{
    assert forall|i: int| 0 <= i < s.len() implies #[trigger] to_coeffs(s).contains_key(s[i].0)
        && to_coeffs(s)[s[i].0] == s[i].1 by {
        lemma_lookup_at(s, i);
    }
    assert forall|k: TermKey| #[trigger] to_coeffs(s).contains_key(k) implies exists|i: int|
        0 <= i < s.len() && s[i].0 == k by {
        lemma_lookup_found(s, k);
    }
}

/// A term that falls strictly between the entries of an ascending `s` has no coefficient.
proof fn lemma_absent<F>(s: Seq<(TermKey, F)>, i: int, t: TermKey)
    requires
        terms_ascending(s),
        0 <= i <= s.len(),
        forall|j: int| 0 <= j < i ==> term_lt(#[trigger] s[j].0, t),
        i < s.len() ==> term_lt(t, s[i].0),
    ensures
        !to_coeffs(s).contains_key(t),
{
    lemma_coeffs(s);
    if to_coeffs(s).contains_key(t) {
        let a = choose|a: int| 0 <= a < s.len() && s[a].0 == t;
        if a < i {
            lemma_term_trichotomy(s[a].0, t);
        } else {
            if a > i {
                lemma_term_transitive(t, s[i].0, s[a].0);
            }
            lemma_term_trichotomy(t, s[a].0);
        }
    }
}

/// A labeled linear combination of polynomials: a coefficient for each term, kept in
/// ascending order of terms.
#[derive(Clone, Debug)]
pub struct LinearCombination<F> {
    /// The label.
    pub label: String,
    /// The terms and their coefficients, in ascending order of terms (see `wf`).
    pub terms: Vec<(LCTerm, F)>,
}

impl<F> LinearCombination<F> {
    /// The terms and their coefficients, in order.
    pub open spec fn entries(&self) -> Seq<(TermKey, F)> {
        self.terms@.map_values(|e: (LCTerm, F)| (e.0@, e.1))
    }

    /// The coefficient of each term.
    pub open spec fn coeffs(&self) -> Map<TermKey, F> {
        to_coeffs(self.entries())
    }

    /// The terms ascend strictly.
    pub open spec fn wf(&self) -> bool {
        terms_ascending(self.entries())
    }

    /// An empty linear combination labeled `label`.
    pub fn empty(label: String) -> (r: LinearCombination<F>)
        ensures
            r.wf(),
            r.label == label,
            r.coeffs() == Map::<TermKey, F>::empty(),
            r.entries().len() == 0,
    {
        let r = LinearCombination { label, terms: Vec::new() };
        assert(r.entries() =~= Seq::<(TermKey, F)>::empty());
        assert(r.coeffs() =~= Map::<TermKey, F>::empty());
        r
    }

    /// The label.
    pub fn label(&self) -> (r: &String)
        ensures
            r == &self.label,
    {
        &self.label
    }

    /// Whether there is no term.
    pub fn is_empty(&self) -> (r: bool)
        requires
            self.wf(),
        ensures
            r == (self.coeffs().dom() == Set::<TermKey>::empty()),
    {
        proof {
            lemma_coeffs(self.entries());
            if self.terms@.len() > 0 {
                assert(self.coeffs().contains_key(self.entries()[0].0));
            } else {
                assert(self.coeffs().dom() =~= Set::<TermKey>::empty());
            }
        }
        self.terms.len() == 0
    }

    /// The number of terms.
    pub fn len(&self) -> (r: usize)
        ensures
            r == self.entries().len(),
    {
        self.terms.len()
    }

    /// The position at which `t` stands or would stand, and whether it stands there.
    fn position(&self, t: &LCTerm) -> (r: (usize, bool))
        requires
            self.wf(),
        ensures
            r.0 <= self.entries().len(),
            forall|j: int| 0 <= j < r.0 ==> term_lt(#[trigger] self.entries()[j].0, t@),
            r.1 <==> (r.0 < self.entries().len() && self.entries()[r.0 as int].0 == t@),
            !r.1 && r.0 < self.entries().len() ==> term_lt(t@, self.entries()[r.0 as int].0),
    {
        let mut i: usize = 0;
        while i < self.terms.len() && self.terms[i].0.compare(t) == -1
            invariant
                i <= self.entries().len(),
                self.terms@.len() == self.entries().len(),
                forall|j: int| 0 <= j < i ==> term_lt(#[trigger] self.entries()[j].0, t@),
            decreases self.entries().len() - i,
        {
            assert(self.entries()[i as int].0 == self.terms@[i as int].0@);
            i = i + 1;
        }
        if i < self.terms.len() {
            let c = self.terms[i].0.compare(t);
            assert(self.entries()[i as int].0 == self.terms@[i as int].0@);
            proof {
                lemma_term_trichotomy(self.entries()[i as int].0, t@);
            }
            (i, c == 0)
        } else {
            (i, false)
        }
    }
}

impl<F: Field> LinearCombination<F> {
    /// Adds `c` to the coefficient of `t`; a coefficient that becomes zero is removed, so
    /// no term with a zero coefficient is kept this way.
    pub fn add(&mut self, c: F, t: LCTerm)
        requires
            old(self).wf(),
        ensures
            final(self).wf(),
            final(self).label == old(self).label,
            final(self).coeffs() == add_term(old(self).coeffs(), t@, c),
    {
        let (i, found) = self.position(&t);
        let ghost s = self.entries();
        let ghost tv = t@;
        proof {
            lemma_coeffs(s);
            if found {
                assert(to_coeffs(s).contains_key(s[i as int].0));
                assert(self.terms@[i as int].1 == s[i as int].1);
            } else {
                lemma_absent(s, i as int, tv);
            }
        }
        if found {
            let sum = self.terms[i].1.plus(&c);
            if sum.is_zero() {
                self.terms.remove(i);
                assert(self.entries() =~= s.remove(i as int));
                proof {
                    self.lemma_after_remove(s, i as int);
                }
            } else {
                self.terms.set(i, (t, sum));
                assert(self.entries() =~= s.update(i as int, (tv, sum)));
                proof {
                    self.lemma_after_update(s, i as int, sum);
                }
            }
        } else if !c.is_zero() {
            self.terms.insert(i, (t, c));
            assert(self.entries() =~= s.insert(i as int, (tv, c)));
            proof {
                self.lemma_after_insert(s, i as int, tv, c);
            }
        } else {
            assert(old(self).coeffs().remove(tv) =~= old(self).coeffs());
        }
    }

    /// Adds `c` to the coefficient of `t`, keeping a zero.
    fn merge(&mut self, c: F, t: LCTerm)
        requires
            old(self).wf(),
        ensures
            final(self).wf(),
            final(self).label == old(self).label,
            final(self).coeffs() == merge_term(old(self).coeffs(), t@, c),
    {
        let (i, found) = self.position(&t);
        let ghost s = self.entries();
        let ghost tv = t@;
        proof {
            lemma_coeffs(s);
            if found {
                assert(to_coeffs(s).contains_key(s[i as int].0));
                assert(self.terms@[i as int].1 == s[i as int].1);
            } else {
                lemma_absent(s, i as int, tv);
            }
        }
        if found {
            let sum = self.terms[i].1.plus(&c);
            self.terms.set(i, (t, sum));
            assert(self.entries() =~= s.update(i as int, (tv, sum)));
            proof {
                self.lemma_after_update(s, i as int, sum);
            }
        } else {
            self.terms.insert(i, (t, c));
            assert(self.entries() =~= s.insert(i as int, (tv, c)));
            proof {
                self.lemma_after_insert(s, i as int, tv, c);
            }
        }
    }

    proof fn lemma_after_remove(&self, s: Seq<(TermKey, F)>, i: int)
        requires
            terms_ascending(s),
            0 <= i < s.len(),
            self.entries() == s.remove(i),
        ensures
            self.wf(),
            self.coeffs() == to_coeffs(s).remove(s[i].0),
    {
        let e = self.entries();
        assert forall|a: int, b: int| 0 <= a < b < e.len() implies term_lt(e[a].0, e[b].0) by {
            let a1 = if a < i { a } else { a + 1 };
            let b1 = if b < i { b } else { b + 1 };
            assert(e[a] == s[a1] && e[b] == s[b1]);
        }
        lemma_coeffs(s);
        lemma_coeffs(e);
        assert forall|k: TermKey| #[trigger] self.coeffs().contains_key(k) == to_coeffs(s).remove(
            s[i].0,
        ).contains_key(k) && (self.coeffs().contains_key(k) ==> self.coeffs()[k] == to_coeffs(
            s,
        )[k]) by {
            if self.coeffs().contains_key(k) {
                let a = choose|a: int| 0 <= a < e.len() && e[a].0 == k;
                let a1 = if a < i { a } else { a + 1 };
                assert(e[a] == s[a1]);
                lemma_term_trichotomy(s[a1].0, s[i].0);
            }
            if to_coeffs(s).contains_key(k) && k != s[i].0 {
                let a = choose|a: int| 0 <= a < s.len() && s[a].0 == k;
                let a1 = if a < i { a } else { a - 1 };
                assert(e[a1] == s[a]);
            }
        }
        assert(self.coeffs() =~= to_coeffs(s).remove(s[i].0));
    }

    proof fn lemma_after_update(&self, s: Seq<(TermKey, F)>, i: int, v: F)
        requires
            terms_ascending(s),
            0 <= i < s.len(),
            self.entries() == s.update(i, (s[i].0, v)),
        ensures
            self.wf(),
            self.coeffs() == to_coeffs(s).insert(s[i].0, v),
    {
        let e = self.entries();
        assert forall|a: int, b: int| 0 <= a < b < e.len() implies term_lt(e[a].0, e[b].0) by {
            assert(e[a].0 == s[a].0 && e[b].0 == s[b].0);
        }
        lemma_coeffs(s);
        lemma_coeffs(e);
        assert forall|k: TermKey| #[trigger] self.coeffs().contains_key(k) == to_coeffs(s).insert(
            s[i].0,
            v,
        ).contains_key(k) && (self.coeffs().contains_key(k) ==> self.coeffs()[k] == to_coeffs(
            s,
        ).insert(s[i].0, v)[k]) by {
            if self.coeffs().contains_key(k) {
                let a = choose|a: int| 0 <= a < e.len() && e[a].0 == k;
                if a != i {
                    assert(e[a] == s[a]);
                    lemma_term_trichotomy(s[a].0, s[i].0);
                }
            }
            if to_coeffs(s).contains_key(k) {
                let a = choose|a: int| 0 <= a < s.len() && s[a].0 == k;
                assert(e[a].0 == s[a].0);
            }
        }
        assert(self.coeffs() =~= to_coeffs(s).insert(s[i].0, v));
    }

    proof fn lemma_after_insert(&self, s: Seq<(TermKey, F)>, i: int, t: TermKey, v: F)
        requires
            terms_ascending(s),
            0 <= i <= s.len(),
            forall|j: int| 0 <= j < i ==> term_lt(#[trigger] s[j].0, t),
            i < s.len() ==> term_lt(t, s[i].0),
            self.entries() == s.insert(i, (t, v)),
        ensures
            self.wf(),
            self.coeffs() == to_coeffs(s).insert(t, v),
    {
        let e = self.entries();
        assert forall|a: int, b: int| 0 <= a < b < e.len() implies term_lt(e[a].0, e[b].0) by {
            if b > i {
                assert(e[b] == s[b - 1]);
                if b - 1 > i {
                    lemma_term_transitive(t, s[i].0, s[b - 1].0);
                }
                if a < i {
                    assert(e[a] == s[a]);
                    lemma_term_transitive(s[a].0, t, s[b - 1].0);
                } else if a > i {
                    assert(e[a] == s[a - 1]);
                }
            } else if b == i {
                assert(e[a] == s[a]);
            } else {
                assert(e[a] == s[a] && e[b] == s[b]);
            }
        }
        lemma_coeffs(s);
        lemma_coeffs(e);
        assert forall|k: TermKey| #[trigger] self.coeffs().contains_key(k) == to_coeffs(s).insert(
            t,
            v,
        ).contains_key(k) && (self.coeffs().contains_key(k) ==> self.coeffs()[k] == to_coeffs(
            s,
        ).insert(t, v)[k]) by {
            if k == t {
                assert(e[i] == (t, v));
                assert(to_coeffs(e).contains_key(e[i].0));
            }
            if self.coeffs().contains_key(k) && k != t {
                let a = choose|a: int| 0 <= a < e.len() && e[a].0 == k;
                let a1 = if a < i { a } else { a - 1 };
                assert(e[a] == s[a1]);
            }
            if to_coeffs(s).contains_key(k) {
                let a = choose|a: int| 0 <= a < s.len() && s[a].0 == k;
                let a1 = if a < i { a } else { a + 1 };
                assert(e[a1] == s[a]);
                if k == t {
                    if a < i {
                        lemma_term_trichotomy(s[a].0, t);
                    } else {
                        if a > i {
                            lemma_term_transitive(t, s[i].0, s[a].0);
                        }
                        lemma_term_trichotomy(t, s[a].0);
                    }
                }
            }
        }
        assert(self.coeffs() =~= to_coeffs(s).insert(t, v));
    }
}

/// Multiplication by `factor` on the left.
pub open spec fn scale_by<F: Field>(factor: F) -> spec_fn(F) -> F {
    |x: F| factor.spec_mul(x)
}

/// Multiplication by `factor` on the right.
pub open spec fn times_by<F: Field>(factor: F) -> spec_fn(F) -> F {
    |x: F| x.spec_mul(factor)
}

/// The additive inverse when `negate`, the coefficient itself otherwise.
pub open spec fn sign_by<F: Field>(negate: bool) -> spec_fn(F) -> F {
    |x: F|
        if negate {
            x.spec_neg()
        } else {
            x
        }
}

/// The terms of a list of `(coefficient, term)` pairs, as the contracts see them.
pub open spec fn pairs_view<F>(s: Seq<(F, LCTerm)>) -> Seq<(F, TermKey)> {
    s.map_values(|e: (F, LCTerm)| (e.0, e.1@))
}

impl<F: Field> LinearCombination<F> {
    /// A linear combination labeled `label` with the given `(coefficient, term)` pairs,
    /// the coefficients of a repeated term summed. Zero coefficients are kept.
    pub fn new(label: String, terms: Vec<(F, LCTerm)>) -> (r: LinearCombination<F>)
        ensures
            r.wf(),
            r.label == label,
            r.coeffs() == merged(pairs_view(terms@)),
    {
        let ghost lab = label;
        let mut r = LinearCombination::empty(label);
        let mut i: usize = 0;
        assert(pairs_view(terms@.subrange(0, 0)) =~= Seq::<(F, TermKey)>::empty());
        while i < terms.len()
            invariant
                i <= terms@.len(),
                r.wf(),
                r.label == lab,
                r.coeffs() == merged(pairs_view(terms@.subrange(0, i as int))),
            decreases terms@.len() - i,
        {
            let c = terms[i].0;
            let t = terms[i].1.duplicate();
            r.merge(c, t);
            proof {
                let p = pairs_view(terms@.subrange(0, i + 1));
                assert(p.drop_last() =~= pairs_view(terms@.subrange(0, i as int)));
                assert(p.last() == (c, terms@[i as int].1@));
            }
            i = i + 1;
        }
        assert(terms@.subrange(0, i as int) =~= terms@);
        r
    }

    /// The `(coefficient, term)` pairs, in ascending order of terms.
    pub fn iter(&self) -> (r: Vec<(F, LCTerm)>)
        ensures
            r@.len() == self.entries().len(),
            forall|i: int|
                0 <= i < r@.len() ==> (#[trigger] r@[i]).0 == self.entries()[i].1 && r@[i].1@
                    == self.entries()[i].0,
    {
        let mut r: Vec<(F, LCTerm)> = Vec::new();
        let mut i: usize = 0;
        while i < self.terms.len()
            invariant
                i <= self.terms@.len(),
                r@.len() == i,
                forall|j: int|
                    0 <= j < i ==> (#[trigger] r@[j]).0 == self.entries()[j].1 && r@[j].1@
                        == self.entries()[j].0,
            decreases self.terms@.len() - i,
        {
            r.push((self.terms[i].1, self.terms[i].0.duplicate()));
            i = i + 1;
        }
        r
    }

    fn add_mapped_terms(&mut self, other: &LinearCombination<F>, factor: Option<F>, negate: bool)
        requires
            old(self).wf(),
        ensures
            final(self).wf(),
            final(self).label == old(self).label,
            final(self).coeffs() == add_all(
                old(self).coeffs(),
                other.entries(),
                match factor {
                    Some(f) => scale_by(f),
                    None => sign_by(negate),
                },
            ),
    {
        let ghost f = match factor {
            Some(f) => scale_by(f),
            None => sign_by(negate),
        };
        let mut i: usize = 0;
        assert(other.entries().subrange(0, 0) =~= Seq::<(TermKey, F)>::empty());
        while i < other.terms.len()
            invariant
                i <= other.entries().len(),
                other.terms@.len() == other.entries().len(),
                self.wf(),
                self.label == old(self).label,
                f == (match factor {
                    Some(f) => scale_by(f),
                    None => sign_by(negate),
                }),
                self.coeffs() == add_all(old(self).coeffs(), other.entries().subrange(0, i as int), f),
            decreases other.entries().len() - i,
        {
            let c = other.terms[i].1;
            let d = match factor {
                Some(k) => k.times(&c),
                None => if negate {
                    c.negate()
                } else {
                    c
                },
            };
            let t = other.terms[i].0.duplicate();
            self.add(d, t);
            proof {
                let p = other.entries().subrange(0, i + 1);
                assert(p.drop_last() =~= other.entries().subrange(0, i as int));
                assert(p.last() == (t@, c));
            }
            i = i + 1;
        }
        assert(other.entries().subrange(0, i as int) =~= other.entries());
    }

    /// `self += (coeff, other)`: adds `coeff * c` to the coefficient of each term `t` of
    /// `other` with coefficient `c`, in order, as `add` does.
    pub fn add_assign_scaled(&mut self, coeff: F, other: &LinearCombination<F>)
        requires
            old(self).wf(),
        ensures
            final(self).wf(),
            final(self).label == old(self).label,
            final(self).coeffs() == add_all(old(self).coeffs(), other.entries(), scale_by(coeff)),
    {
        self.add_mapped_terms(other, Some(coeff), false);
    }

    /// `self -= (coeff, other)`: adds `(-coeff) * c` for each term of `other`, as `add`
    /// does.
    pub fn sub_assign_scaled(&mut self, coeff: F, other: &LinearCombination<F>)
        requires
            old(self).wf(),
        ensures
            final(self).wf(),
            final(self).label == old(self).label,
            final(self).coeffs() == add_all(
                old(self).coeffs(),
                other.entries(),
                scale_by(coeff.spec_neg()),
            ),
    {
        let neg = coeff.negate();
        self.add_mapped_terms(other, Some(neg), false);
    }

    /// `self += other`: adds each coefficient of `other` to its term, as `add` does.
    pub fn add_assign(&mut self, other: &LinearCombination<F>)
        requires
            old(self).wf(),
        ensures
            final(self).wf(),
            final(self).label == old(self).label,
            final(self).coeffs() == add_all(old(self).coeffs(), other.entries(), sign_by(false)),
    {
        self.add_mapped_terms(other, None, false);
    }

    /// `self -= other`: adds the inverse of each coefficient of `other` to its term, as
    /// `add` does.
    pub fn sub_assign(&mut self, other: &LinearCombination<F>)
        requires
            old(self).wf(),
        ensures
            final(self).wf(),
            final(self).label == old(self).label,
            final(self).coeffs() == add_all(old(self).coeffs(), other.entries(), sign_by(true)),
    {
        self.add_mapped_terms(other, None, true);
    }

    /// `self += c`: adds `c` to the constant term, as `add` does.
    pub fn add_constant(&mut self, c: F)
        requires
            old(self).wf(),
        ensures
            final(self).wf(),
            final(self).label == old(self).label,
            final(self).coeffs() == add_term(old(self).coeffs(), None, c),
    {
        self.add(c, LCTerm::One);
    }

    /// `self -= c`: adds `-c` to the constant term, as `add` does.
    pub fn sub_constant(&mut self, c: F)
        requires
            old(self).wf(),
        ensures
            final(self).wf(),
            final(self).label == old(self).label,
            final(self).coeffs() == add_term(old(self).coeffs(), None, c.spec_neg()),
    {
        let neg = c.negate();
        self.add(neg, LCTerm::One);
    }

    /// `self *= coeff`: multiplies every coefficient by `coeff` in place. Unlike `add`,
    /// this keeps a coefficient that becomes zero.
    pub fn mul_assign(&mut self, coeff: F)
        requires
            old(self).wf(),
        ensures
            final(self).wf(),
            final(self).label == old(self).label,
            final(self).entries().len() == old(self).entries().len(),
            forall|i: int|
                0 <= i < old(self).entries().len() ==> (#[trigger] final(self).entries()[i]) == (
                old(self).entries()[i].0,
                old(self).entries()[i].1.spec_mul(coeff),
            ),
            final(self).coeffs() == old(self).coeffs().map_values(times_by(coeff)),
    {
        let ghost s = self.entries();
        let mut i: usize = 0;
        while i < self.terms.len()
            invariant
                i <= self.terms@.len(),
                self.label == old(self).label,
                self.entries().len() == s.len(),
                s == old(self).entries(),
                forall|j: int|
                    0 <= j < s.len() ==> (#[trigger] self.entries()[j]) == if j < i {
                        (s[j].0, s[j].1.spec_mul(coeff))
                    } else {
                        s[j]
                    },
            decreases self.terms@.len() - i,
        {
            let ghost prev = self.entries();
            assert(prev[i as int] == s[i as int]);
            let t = self.terms[i].0.duplicate();
            let c = self.terms[i].1.times(&coeff);
            self.terms.set(i, (t, c));
            assert(self.entries() =~= prev.update(
                i as int,
                (s[i as int].0, s[i as int].1.spec_mul(coeff)),
            ));
            i = i + 1;
        }
        let ghost e = self.entries();
        assert forall|a: int, b: int| 0 <= a < b < e.len() implies term_lt(e[a].0, e[b].0) by {
            assert(e[a].0 == s[a].0 && e[b].0 == s[b].0);
        }
        proof {
            lemma_coeffs(s);
            lemma_coeffs(e);
            let m = old(self).coeffs().map_values(times_by(coeff));
            assert forall|k: TermKey| #[trigger] self.coeffs().contains_key(k) == m.contains_key(k)
                && (m.contains_key(k) ==> self.coeffs()[k] == m[k]) by {
                if self.coeffs().contains_key(k) {
                    let a = choose|a: int| 0 <= a < e.len() && e[a].0 == k;
                    assert(e[a].0 == s[a].0);
                    assert(to_coeffs(s).contains_key(s[a].0));
                }
                if m.contains_key(k) {
                    let a = choose|a: int| 0 <= a < s.len() && s[a].0 == k;
                    assert(e[a].0 == s[a].0);
                    assert(to_coeffs(e).contains_key(e[a].0));
                }
            }
            assert(self.coeffs() =~= m);
        }
    }
}

/// Adding the inverse of a term's coefficient removes the term: for distinct terms `x`
/// and `y`, building a combination from `(a, x)` and `(b, y)` and then adding `-a` to `x`
/// leaves `y` with `b` and nothing else.
pub proof fn lemma_add_inverse_removes_term<F: Field>(a: F, b: F, x: TermKey, y: TermKey)
    requires
        a.spec_valid(),
        x != y,
    ensures
        add_term(merged(seq![(a, x), (b, y)]), x, a.spec_neg()) == map![y => b],
{
    let s = seq![(a, x), (b, y)];
    assert(s.drop_last().drop_last() =~= Seq::<(F, TermKey)>::empty());
    assert(s.drop_last().last() == (a, x));
    let m1 = merged(s.drop_last());
    assert(merged(s.drop_last().drop_last()) == Map::<TermKey, F>::empty());
    assert(m1 =~= Map::<TermKey, F>::empty().insert(x, a));
    let m = merged(s);
    assert(!m1.contains_key(y));
    assert(m =~= Map::<TermKey, F>::empty().insert(x, a).insert(y, b));
    F::lemma_add_neg(a);
    assert(m.remove(x) =~= map![y => b]);
}

} // verus!
