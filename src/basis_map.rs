//! A map from a degree (or a domain size) to a basis of group elements, kept in ascending
//! order of its keys, so that walking it is deterministic.

use vstd::prelude::*;

verus! {

/// The keys of `s` ascend strictly.
pub open spec fn ascending<V>(s: Seq<(usize, V)>) -> bool {
    forall|i: int, j: int| 0 <= i < j < s.len() ==> s[i].0 < s[j].0
}

/// The number of leading entries of `s` whose key is below `k`: in an ascending `s`, the
/// position at which `k` stands or would stand.
pub open spec fn lower_bound<V>(s: Seq<(usize, V)>, k: usize) -> nat
    decreases s.len(),
{
    if s.len() == 0 {
        0
    } else if s[0].0 < k {
        1 + lower_bound(s.drop_first(), k)
    } else {
        0
    }
}

/// `s` with `k` bound to `v`: the entry of `k` replaced, or a new entry at its place.
pub open spec fn map_insert<V>(s: Seq<(usize, V)>, k: usize, v: V) -> Seq<(usize, V)> {
    let i = lower_bound(s, k) as int;
    if i < s.len() && s[i].0 == k {
        s.update(i, (k, v))
    } else {
        s.insert(i, (k, v))
    }
}

/// What `s` binds `k` to.
pub open spec fn map_get<V>(s: Seq<(usize, V)>, k: usize) -> Option<V> {
    let i = lower_bound(s, k) as int;
    if i < s.len() && s[i].0 == k {
        Some(s[i].1)
    } else {
        None
    }
}

/// The bases of `s`, in order.
pub open spec fn map_values<V>(s: Seq<(usize, V)>) -> Seq<V> {
    s.map_values(|e: (usize, V)| e.1)
}

/// The position of `k` is the first entry whose key is not below it.
pub proof fn lemma_lower_bound_at<V>(s: Seq<(usize, V)>, k: usize, i: int)
    requires
        0 <= i <= s.len(),
        forall|j: int| 0 <= j < i ==> s[j].0 < k,
        i == s.len() || s[i].0 >= k,
    ensures
        lower_bound(s, k) == i,
    decreases i,
{
    if i > 0 {
        let t = s.drop_first();
        assert forall|j: int| 0 <= j < i - 1 implies t[j].0 < k by {
            assert(t[j] == s[j + 1]);
        }
        if i - 1 < t.len() {
            assert(t[i - 1] == s[i]);
        }
        lemma_lower_bound_at(t, k, i - 1);
    }
}

/// In an ascending `s` whose keys are all below `k`, binding `k` appends an entry.
pub proof fn lemma_insert_above<V>(s: Seq<(usize, V)>, k: usize, v: V)
    requires
        ascending(s),
        forall|j: int| 0 <= j < s.len() ==> s[j].0 < k,
    ensures
        map_insert(s, k, v) == s.push((k, v)),
        ascending(s.push((k, v))),
{
    lemma_lower_bound_at(s, k, s.len() as int);
    assert(s.insert(s.len() as int, (k, v)) =~= s.push((k, v)));
}

/// Every entry before the position of `k` has a smaller key; the entry at it, if any,
/// does not.
pub proof fn lemma_lower_bound_props<V>(s: Seq<(usize, V)>, k: usize)
    ensures
        lower_bound(s, k) <= s.len(),
        forall|j: int| 0 <= j < lower_bound(s, k) ==> s[j].0 < k,
        lower_bound(s, k) < s.len() ==> s[lower_bound(s, k) as int].0 >= k,
    decreases s.len(),
{
    if s.len() > 0 && s[0].0 < k {
        let t = s.drop_first();
        lemma_lower_bound_props(t, k);
        assert forall|j: int| 0 <= j < lower_bound(s, k) implies s[j].0 < k by {
            if j > 0 {
                assert(s[j] == t[j - 1]);
            }
        }
        if lower_bound(s, k) < s.len() {
            assert(s[lower_bound(s, k) as int] == t[lower_bound(t, k) as int]);
        }
    }
}

/// In an ascending `s`, `k` is bound to `v` exactly when `(k, v)` is an entry, and to
/// nothing when no entry has key `k`.
pub proof fn lemma_map_get_ascending<V>(s: Seq<(usize, V)>, k: usize)
    requires
        ascending(s),
    ensures
        forall|v: V| map_get(s, k) == Some(v) <==> exists|i: int| 0 <= i < s.len() && s[i] == (k, v),
        map_get(s, k) is None <==> forall|i: int| 0 <= i < s.len() ==> s[i].0 != k,
{
    let n = lower_bound(s, k) as int;
    lemma_lower_bound_props(s, k);
    assert forall|j: int| 0 <= j < s.len() && s[j].0 == k implies j == n by {
        if j > n {
            assert(s[n].0 < s[j].0);
        }
    }
}

/// The bases, keyed by degree, in ascending order of degree.
#[derive(Clone, Debug, PartialEq, Eq)]
pub struct BasisMap<G> {
    entries: Vec<(usize, Vec<G>)>,
}

impl<G> View for BasisMap<G> {
    type V = Seq<(usize, Seq<G>)>;

    closed spec fn view(&self) -> Seq<(usize, Seq<G>)> {
        self.entries@.map_values(|e: (usize, Vec<G>)| (e.0, e.1@))
    }
}

impl<G> BasisMap<G> {
    /// The keys ascend strictly: every map built by `new` and `insert` is so.
    pub open spec fn wf(&self) -> bool {
        ascending(self@)
    }

    /// The empty map.
    pub fn new() -> (r: BasisMap<G>)
        ensures
            r@ == Seq::<(usize, Seq<G>)>::empty(),
            r.wf(),
    {
        let r = BasisMap { entries: Vec::new() };
        assert(r@ =~= Seq::<(usize, Seq<G>)>::empty());
        r
    }

    /// The number of entries.
    pub fn len(&self) -> (r: usize)
        ensures
            r == self@.len(),
    {
        self.entries.len()
    }

    /// The key of entry `i`.
    pub fn key_at(&self, i: usize) -> (r: usize)
        requires
            i < self@.len(),
        ensures
            r == self@[i as int].0,
    {
        self.entries[i].0
    }

    /// The basis of entry `i`.
    pub fn basis_at(&self, i: usize) -> (r: &Vec<G>)
        requires
            i < self@.len(),
        ensures
            r@ == self@[i as int].1,
    {
        &self.entries[i].1
    }

    /// The position at which `k` stands or would stand.
    fn position(&self, k: usize) -> (r: usize)
        requires
            self.wf(),
        ensures
            r == lower_bound(self@, k),
            r <= self@.len(),
            forall|j: int| 0 <= j < r ==> self@[j].0 < k,
            r < self@.len() ==> self@[r as int].0 >= k,
    {
        let mut i: usize = 0;
        while i < self.entries.len() && self.entries[i].0 < k
            invariant
                i <= self@.len(),
                self.entries@.len() == self@.len(),
                forall|j: int| 0 <= j < i ==> self@[j].0 < k,
            decreases self@.len() - i,
        {
            i = i + 1;
        }
        proof {
            lemma_lower_bound_at(self@, k, i as int);
        }
        i
    }

    /// The basis bound to `k`, if any.
    pub fn get(&self, k: usize) -> (r: Option<&Vec<G>>)
        requires
            self.wf(),
        ensures
            match r {
                Some(b) => map_get(self@, k) == Some(b@),
                None => map_get(self@, k) is None,
            },
    {
        let i = self.position(k);
        if i < self.entries.len() && self.entries[i].0 == k {
            Some(&self.entries[i].1)
        } else {
            None
        }
    }

    /// Binds `k` to `basis`, replacing what `k` was bound to.
    pub fn insert(&mut self, k: usize, basis: Vec<G>)
        requires
            old(self).wf(),
        ensures
            final(self).wf(),
            final(self)@ == map_insert(old(self)@, k, basis@),
    {
        let i = self.position(k);
        let ghost s = self@;
        if i < self.entries.len() && self.entries[i].0 == k {
            self.entries.set(i, (k, basis));
            assert(self@ =~= s.update(i as int, (k, basis@)));
        } else {
            self.entries.insert(i, (k, basis));
            assert(self@ =~= s.insert(i as int, (k, basis@)));
            assert forall|a: int, b: int| 0 <= a < b < self@.len() implies self@[a].0 < self@[b].0 by {
                if b > i {
                    assert(self@[b] == s[b - 1]);
                    assert(s[b - 1].0 >= s[i as int].0);
                    assert(s[i as int].0 > k);
                }
                if b > a > i {
                    assert(self@[a] == s[a - 1]);
                }
                if a < i {
                    assert(self@[a] == s[a]);
                }
            }
        }
    }
}

} // verus!
