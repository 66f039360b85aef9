//! Query sets, evaluations, and the evaluation of labeled polynomials at a query set.

use vstd::prelude::*;
use crate::algebra::Field;
use crate::polynomial::{LabeledPolynomial, poly_eval};

verus! {

// ----- the label index -----

/// Polynomial positions by label, in a `hashbrown` hash map.
#[verifier::external_body]
pub struct LabelIndex {
    map: hashbrown::HashMap<String, usize>,
}

/// Positions by label.
pub type LabelMap = Map<Seq<char>, usize>;

/// What a label index holds: each label with its position.
pub uninterp spec fn label_index_contents(m: LabelIndex) -> LabelMap;

impl LabelIndex {
    /// Relies on `hashbrown::HashMap::new`: the map is empty.
    #[verifier::external_body]
    fn new() -> (index: LabelIndex)
        ensures
            label_index_contents(index) == LabelMap::empty(),
    {
        LabelIndex { map: hashbrown::HashMap::new() }
    }

    /// Relies on `hashbrown::HashMap::insert`: `label` is bound to `i`, replacing what it was
    /// bound to; other labels keep theirs (keys are equal when their text is).
    #[verifier::external_body]
    pub(crate) fn insert(&mut self, label: String, i: usize)
        ensures
            label_index_contents(*final(self)) == label_index_contents(*old(self)).insert(
                label@,
                i,
            ),
    {
        self.map.insert(label, i);
    }

    /// Relies on `hashbrown::HashMap::get`: the position bound to `label`, if any.
    #[verifier::external_body]
    pub(crate) fn get(&self, label: &String) -> (r: Option<usize>)
        ensures
            r == (if label_index_contents(*self).contains_key(label@) {
                Some(label_index_contents(*self)[label@])
            } else {
                None
            }),
    {
        self.map.get(label.as_str()).copied()
    }
}

/// Each label of `labels` with its last position.
pub open spec fn last_positions(labels: Seq<Seq<char>>) -> Map<Seq<char>, usize>
    decreases labels.len(),
{
    if labels.len() == 0 {
        Map::empty()
    } else {
        last_positions(labels.drop_last()).insert(labels.last(), (labels.len() - 1) as usize)
    }
}

pub proof fn lemma_last_positions(labels: Seq<Seq<char>>, l: Seq<char>)
    requires
        labels.len() <= usize::MAX,
    ensures
        last_positions(labels).contains_key(l) <==> labels.contains(l),
        last_positions(labels).contains_key(l) ==> last_positions(labels)[l] < labels.len()
            && labels[last_positions(labels)[l] as int] == l,
    decreases labels.len(),
{
    if labels.len() > 0 {
        let t = labels.drop_last();
        lemma_last_positions(t, l);
        if l == labels.last() {
            assert(labels[labels.len() - 1] == l);
        } else {
            if t.contains(l) {
                let i = choose|i: int| 0 <= i < t.len() && t[i] == l;
                assert(labels[i] == t[i]);
                let p = last_positions(t)[l] as int;
                assert(labels[p] == t[p]);
            }
            if labels.contains(l) {
                let i = choose|i: int| 0 <= i < labels.len() && labels[i] == l;
                assert(i < labels.len() - 1);
                assert(t[i] == labels[i]);
            }
        }
    }
}

// ----- query sets and evaluations -----

/// A query: the label of a polynomial, and a named point to open it at.
pub type Query<F> = (String, (String, F));

/// The set of queries to open: `(label, (point_name, point))`, each at most once. The
/// point name tells apart named points that may coincide.
#[derive(Clone, Debug)]
pub struct QuerySet<F> {
    pub queries: Vec<Query<F>>,
}

pub open spec fn query_view<F>(q: Query<F>) -> (Seq<char>, (Seq<char>, F)) {
    (q.0@, (q.1.0@, q.1.1))
}

impl<F> View for QuerySet<F> {
    type V = Seq<(Seq<char>, (Seq<char>, F))>;

    open spec fn view(&self) -> Seq<(Seq<char>, (Seq<char>, F))> {
        self.queries@.map_values(|q: Query<F>| query_view(q))
    }
}

impl<F> QuerySet<F> {
    /// No query is there twice.
    pub open spec fn wf(&self) -> bool {
        forall|i: int, j: int| 0 <= i < j < self@.len() ==> self@[i] != self@[j]
    }

    /// The empty query set.
    pub fn new() -> (r: QuerySet<F>)
        ensures
            r@ == Seq::<(Seq<char>, (Seq<char>, F))>::empty(),
            r.wf(),
    {
        let r = QuerySet { queries: Vec::new() };
        assert(r@ =~= Seq::<(Seq<char>, (Seq<char>, F))>::empty());
        r
    }

    /// The number of queries.
    pub fn len(&self) -> (r: usize)
        ensures
            r == self@.len(),
    {
        self.queries.len()
    }
}

impl<F: Field> QuerySet<F> {
    /// Adds the query `(label, (point_name, point))` unless it is there already; says
    /// whether it was added.
    pub fn insert(&mut self, label: String, point_name: String, point: F) -> (r: bool)
        requires
            old(self).wf(),
        ensures
            final(self).wf(),
            r == !old(self)@.contains((label@, (point_name@, point))),
            final(self)@ == if r {
                old(self)@.push((label@, (point_name@, point)))
            } else {
                old(self)@
            },
    {
        let ghost q = (label@, (point_name@, point));
        let mut i: usize = 0;
        while i < self.queries.len()
            invariant
                i <= self@.len(),
                self.queries@.len() == self@.len(),
                self@ == old(self)@,
                self.wf(),
                q == (label@, (point_name@, point)),
                forall|j: int| 0 <= j < i ==> self@[j] != q,
            decreases self@.len() - i,
        {
            let e = &self.queries[i];
            assert(self@[i as int] == query_view(self.queries@[i as int]));
            let same_label = e.0 == label;
            let same_name = e.1.0 == point_name;
            let same_point = e.1.1.equals(&point);
            assert(same_label == (e.0@ == label@));
            assert(same_name == (e.1.0@ == point_name@));
            assert(*e == self.queries@[i as int]);
            assert(query_view(*e) == (e.0@, (e.1.0@, e.1.1)));
            if same_label && same_name && same_point {
                assert(self@[i as int] == q);
                return false;
            }
            assert(self@[i as int] != q);
            i = i + 1;
        }
        let ghost before = self@;
        self.queries.push((label, (point_name, point)));
        assert(self@ =~= before.push(q));
        true
    }
}

/// The values of the polynomials at the queried points, by `(label, point)`.
#[derive(Clone, Debug)]
pub struct Evaluations<F> {
    pub entries: Vec<((String, F), F)>,
}

impl<F> Evaluations<F> {
    pub open spec fn keys(&self) -> Seq<(Seq<char>, F)> {
        self.entries@.map_values(|e: ((String, F), F)| (e.0.0@, e.0.1))
    }

    /// The value of each `(label, point)`.
    pub open spec fn values(&self) -> Map<(Seq<char>, F), F> {
        Map::new(
            |k: (Seq<char>, F)| self.keys().contains(k),
            |k: (Seq<char>, F)|
                self.entries@[choose|i: int| 0 <= i < self.keys().len() && self.keys()[i] == k].1,
        )
    }

    /// No key is there twice.
    pub open spec fn wf(&self) -> bool {
        forall|i: int, j: int| 0 <= i < j < self.keys().len() ==> self.keys()[i] != self.keys()[j]
    }

    /// No evaluation.
    pub fn new() -> (r: Evaluations<F>)
        ensures
            r.wf(),
            r.values() == Map::<(Seq<char>, F), F>::empty(),
    {
        let r = Evaluations { entries: Vec::new() };
        assert(r.values() =~= Map::<(Seq<char>, F), F>::empty());
        r
    }

    /// The number of evaluations.
    pub fn len(&self) -> (r: usize)
        requires
            self.wf(),
        ensures
            r == self.values().len(),
    {
        proof {
            self.lemma_values_len();
        }
        self.entries.len()
    }

    proof fn lemma_values_len(&self)
        requires
            self.wf(),
        ensures
            self.values().len() == self.keys().len(),
    {
        self.keys().unique_seq_to_set();
        assert(self.values().dom() =~= self.keys().to_set());
    }
}

impl<F: Field> Evaluations<F> {
    /// The position of `(label, point)`, if it is there.
    fn find(&self, label: &String, point: &F) -> (r: Option<usize>)
        ensures
            match r {
                Some(i) => i < self.keys().len() && self.keys()[i as int] == (label@, *point),
                None => !self.keys().contains((label@, *point)),
            },
    {
        let mut i: usize = 0;
        while i < self.entries.len()
            invariant
                i <= self.keys().len(),
                self.entries@.len() == self.keys().len(),
                forall|j: int| 0 <= j < i ==> self.keys()[j] != (label@, *point),
            decreases self.keys().len() - i,
        {
            let e = &self.entries[i];
            if e.0.0 == *label && e.0.1.equals(point) {
                return Some(i);
            }
            i = i + 1;
        }
        None
    }

    /// The value of the polynomial labeled `label` at `point`, if it was evaluated there.
    pub fn get(&self, label: &String, point: &F) -> (r: Option<F>)
        requires
            self.wf(),
        ensures
            r == (if self.values().contains_key((label@, *point)) {
                Some(self.values()[(label@, *point)])
            } else {
                None
            }),
    {
        match self.find(label, point) {
            None => None,
            Some(i) => {
                proof {
                    self.lemma_value_at(i as int);
                }
                Some(self.entries[i].1)
            },
        }
    }

    proof fn lemma_value_at(&self, i: int)
        requires
            self.wf(),
            0 <= i < self.keys().len(),
        ensures
            self.values().contains_key(self.keys()[i]),
            self.values()[self.keys()[i]] == self.entries@[i].1,
    {
        let k = self.keys()[i];
        let j = choose|j: int| 0 <= j < self.keys().len() && self.keys()[j] == k;
        assert(j == i);
    }

    /// Records `value` as the value at `(label, point)`, replacing an earlier one.
    pub fn insert(&mut self, label: String, point: F, value: F)
        requires
            old(self).wf(),
        ensures
            final(self).wf(),
            final(self).values() == old(self).values().insert((label@, point), value),
    {
        let ghost k = (label@, point);
        let ghost old_values = self.values();
        match self.find(&label, &point) {
            Some(i) => {
                let ghost before = self.keys();
                self.entries.set(i, ((label, point), value));
                assert(self.keys() =~= before);
                assert(self.wf());
                assert(self.entries@[i as int].1 == value);
                assert(self.keys()[i as int] == k);
                assert(old_values.contains_key(k)) by {
                    old(self).lemma_value_at(i as int);
                }
                assert forall|kk: (Seq<char>, F)| #[trigger] self.values().contains_key(kk)
                    == old_values.insert(k, value).contains_key(kk) by {
                    assert(self.values().contains_key(kk) == before.contains(kk));
                    assert(old_values.contains_key(kk) == before.contains(kk));
                }
                assert forall|kk: (Seq<char>, F)| #[trigger] self.values().contains_key(kk)
                    implies self.values()[kk] == old_values.insert(k, value)[kk] by {
                    let j = choose|j: int| 0 <= j < self.keys().len() && self.keys()[j] == kk;
                    self.lemma_value_at(j);
                    old(self).lemma_value_at(j);
                    if j != i {
                        assert(self.entries@[j] == old(self).entries@[j]);
                        assert(kk != k);
                    } else {
                        assert(kk == k);
                    }
                }
                assert(self.values() =~= old_values.insert(k, value));
            },
            None => {
                let ghost before = self.keys();
                self.entries.push(((label, point), value));
                assert(self.keys() =~= before.push(k));
                assert(self.wf()) by {
                    assert forall|x: int, y: int| 0 <= x < y < self.keys().len() implies self.keys()[x]
                        != self.keys()[y] by {
                        if y == before.len() {
                            assert(before[x] != k);
                        }
                    }
                }
                assert forall|kk: (Seq<char>, F)| #[trigger] self.values().contains_key(kk)
                    == old_values.insert(k, value).contains_key(kk) by {
                    assert(self.values().contains_key(kk) == self.keys().contains(kk));
                    assert(old_values.contains_key(kk) == before.contains(kk));
                    if before.contains(kk) {
                        let j = choose|j: int| 0 <= j < before.len() && before[j] == kk;
                        assert(self.keys()[j] == kk);
                    }
                    if self.keys().contains(kk) && kk != k {
                        let j = choose|j: int| 0 <= j < self.keys().len() && self.keys()[j] == kk;
                        assert(j < before.len());
                        assert(before[j] == kk);
                    }
                    assert(self.keys()[before.len() as int] == k);
                }
                assert forall|kk: (Seq<char>, F)| #[trigger] self.values().contains_key(kk)
                    implies self.values()[kk] == old_values.insert(k, value)[kk] by {
                    let j = choose|j: int| 0 <= j < self.keys().len() && self.keys()[j] == kk;
                    self.lemma_value_at(j);
                    if j < before.len() {
                        old(self).lemma_value_at(j);
                        assert(self.entries@[j] == old(self).entries@[j]);
                        assert(kk != k);
                    } else {
                        assert(kk == k);
                    }
                }
                assert(self.values() =~= old_values.insert(k, value));
            },
        }
    }
}

// ----- evaluating a query set -----

/// The labels of `polys`, in order.
pub open spec fn poly_labels<F>(polys: Seq<LabeledPolynomial<F>>) -> Seq<Seq<char>> {
    polys.map_values(|p: LabeledPolynomial<F>| p.spec_label())
}

/// What evaluating `polys` at the queries `qs` gives: for each query `(label, (_, point))`,
/// the value at `point` of the polynomial labeled `label` (the last such one), keyed by
/// `(label, point)`.
pub open spec fn query_evaluations<F: Field>(
    polys: Seq<LabeledPolynomial<F>>,
    qs: Seq<(Seq<char>, (Seq<char>, F))>,
) -> Map<(Seq<char>, F), F>
    decreases qs.len(),
{
    if qs.len() == 0 {
        Map::empty()
    } else {
        let (label, (_, point)) = qs.last();
        let p = polys[last_positions(poly_labels(polys))[label] as int];
        query_evaluations(polys, qs.drop_last()).insert(
            (label, point),
            poly_eval(p.spec_coeffs(), point),
        )
    }
}

/// Evaluates the polynomials at every query of `query_set`. Every queried label must be the
/// label of one of `polys`.
pub fn evaluate_query_set<F: Field>(
    polys: &Vec<LabeledPolynomial<F>>,
    query_set: &QuerySet<F>,
) -> (r: Evaluations<F>)
    requires
        forall|i: int|
            0 <= i < query_set@.len() ==> poly_labels(polys@).contains(#[trigger] query_set@[i].0),
    ensures
        r.wf(),
        r.values() == query_evaluations(polys@, query_set@),
{
    let n = polys.len();
    assert(poly_labels(polys@).len() == n);
    let mut index = LabelIndex::new();
    let mut i: usize = 0;
    assert(poly_labels(polys@).subrange(0, 0) =~= Seq::<Seq<char>>::empty());
    while i < polys.len()
        invariant
            i <= polys@.len(),
            label_index_contents(index) == last_positions(poly_labels(polys@).subrange(0, i as int)),
        decreases polys@.len() - i,
    {
        let label = polys[i].label().clone();
        index.insert(label, i);
        proof {
            let s = poly_labels(polys@).subrange(0, i + 1);
            assert(s.drop_last() =~= poly_labels(polys@).subrange(0, i as int));
        }
        i = i + 1;
    }
    assert(poly_labels(polys@).subrange(0, i as int) =~= poly_labels(polys@));
    let mut evaluations = Evaluations::new();
    let mut j: usize = 0;
    assert(query_set@.subrange(0, 0) =~= Seq::<(Seq<char>, (Seq<char>, F))>::empty());
    while j < query_set.queries.len()
        invariant
            j <= query_set@.len(),
            query_set.queries@.len() == query_set@.len(),
            poly_labels(polys@).len() == n,
            label_index_contents(index) == last_positions(poly_labels(polys@)),
            forall|i: int|
                0 <= i < query_set@.len() ==> poly_labels(polys@).contains(#[trigger] query_set@[i].0),
            evaluations.wf(),
            evaluations.values() == query_evaluations(polys@, query_set@.subrange(0, j as int)),
        decreases query_set@.len() - j,
    {
        let q = &query_set.queries[j];
        assert(query_set@[j as int] == query_view(*q));
        proof {
            lemma_last_positions(poly_labels(polys@), q.0@);
            assert(poly_labels(polys@).contains(query_set@[j as int].0));
        }
        let k = match index.get(&q.0) {
            Some(k) => k,
            None => {
                assert(false);
                0
            },
        };
        assert(poly_labels(polys@)[k as int] == polys@[k as int].spec_label());
        let value = polys[k].evaluate(q.1.1);
        evaluations.insert(q.0.clone(), q.1.1, value);
        proof {
            let s = query_set@.subrange(0, j + 1);
            assert(s.drop_last() =~= query_set@.subrange(0, j as int));
            assert(s.last() == query_set@[j as int]);
        }
        j = j + 1;
    }
    assert(query_set@.subrange(0, j as int) =~= query_set@);
    evaluations
}

} // verus!
