//! Association lists with mathematical `Map` views.
//!
//! Every persistent table of the system is a vector of key-value pairs with
//! unique keys. Integer-keyed tables (`IdMap`) keep their entries sorted by
//! key, so a table's entry sequence is a canonical snapshot of the mapping;
//! string-keyed tables (`StrMap`) keep insertion order. The spec layer
//! relates the entry sequence to a `Map` and gives the summation lemmas the
//! ledger invariants rely on.

use vstd::prelude::*;

verus! {

/// No two entries share a key.
pub open spec fn unique_keys<K, V>(s: Seq<(K, V)>) -> bool {
    forall|i: int, j: int| 0 <= i < j < s.len() ==> s[i].0 != s[j].0
}

/// Keys are strictly increasing.
pub open spec fn sorted_keys<V>(s: Seq<(u128, V)>) -> bool {
    forall|i: int, j: int| 0 <= i < j < s.len() ==> s[i].0 < s[j].0
}

/// The mapping that a key-value sequence denotes; later entries win.
pub open spec fn kv_map<K, V>(s: Seq<(K, V)>) -> Map<K, V>
    decreases s.len(),
{
    if s.len() == 0 {
        Map::empty()
    } else {
        kv_map(s.drop_last()).insert(s.last().0, s.last().1)
    }
}

/// The sum of all values of a key-value sequence.
pub open spec fn sum_vals<K>(s: Seq<(K, u128)>) -> int
    decreases s.len(),
{
    if s.len() == 0 {
        0
    } else {
        sum_vals(s.drop_last()) + s.last().1
    }
}

pub proof fn lemma_sorted_implies_unique<V>(s: Seq<(u128, V)>)
    requires
        sorted_keys(s),
    ensures
        unique_keys(s),
{
    assert forall|i: int, j: int| 0 <= i < j < s.len() implies s[i].0 != s[j].0 by {
        assert(s[i].0 < s[j].0);
    }
}

pub proof fn lemma_kv_map_domain<K, V>(s: Seq<(K, V)>, k: K)
    ensures
        kv_map(s).dom().contains(k) <==> exists|i: int| 0 <= i < s.len() && s[i].0 == k,
    decreases s.len(),
{
    if s.len() > 0 {
        lemma_kv_map_domain(s.drop_last(), k);
        if s.last().0 == k {
            assert(s[s.len() - 1].0 == k);
        } else if kv_map(s).dom().contains(k) {
            let i = choose|i: int| 0 <= i < s.drop_last().len() && s.drop_last()[i].0 == k;
            assert(s[i].0 == k);
        } else if exists|i: int| 0 <= i < s.len() && s[i].0 == k {
            let i = choose|i: int| 0 <= i < s.len() && s[i].0 == k;
            assert(i < s.len() - 1);
            assert(s.drop_last()[i].0 == k);
        }
    }
}

pub proof fn lemma_kv_map_index<K, V>(s: Seq<(K, V)>, i: int)
    requires
        unique_keys(s),
        0 <= i < s.len(),
    ensures
        kv_map(s).dom().contains(s[i].0),
        kv_map(s)[s[i].0] == s[i].1,
    decreases s.len(),
{
    if i < s.len() - 1 {
        assert(unique_keys(s.drop_last())) by {
            assert forall|x: int, y: int|
                0 <= x < y < s.drop_last().len() implies s.drop_last()[x].0 != s.drop_last()[y].0 by {
                assert(s[x].0 != s[y].0);
            }
        }
        lemma_kv_map_index(s.drop_last(), i);
        assert(s.drop_last()[i] == s[i]);
        assert(s.last().0 != s[i].0);
    }
}

/// Inserting a fresh key at any position inserts it into the mapping.
pub proof fn lemma_kv_map_insert_at<K, V>(s: Seq<(K, V)>, i: int, k: K, v: V)
    requires
        0 <= i <= s.len(),
        forall|j: int| 0 <= j < s.len() ==> s[j].0 != k,
    ensures
        kv_map(s.insert(i, (k, v))) == kv_map(s).insert(k, v),
    decreases s.len(),
{
    let t = s.insert(i, (k, v));
    if i == s.len() {
        assert(t.drop_last() =~= s);
        assert(t.last() == (k, v));
    } else {
        assert(t.last() == s.last());
        assert(t.drop_last() =~= s.drop_last().insert(i, (k, v)));
        lemma_kv_map_insert_at(s.drop_last(), i, k, v);
        assert(s.last().0 != k);
        assert(kv_map(s.drop_last()).insert(k, v).insert(s.last().0, s.last().1) =~= kv_map(
            s.drop_last(),
        ).insert(s.last().0, s.last().1).insert(k, v));
    }
}

/// Overwriting the value at an existing key updates the mapping.
pub proof fn lemma_kv_map_update<K, V>(s: Seq<(K, V)>, i: int, v: V)
    requires
        unique_keys(s),
        0 <= i < s.len(),
    ensures
        kv_map(s.update(i, (s[i].0, v))) == kv_map(s).insert(s[i].0, v),
    decreases s.len(),
{
    let k = s[i].0;
    let t = s.update(i, (k, v));
    if i == s.len() - 1 {
        assert(t.drop_last() =~= s.drop_last());
        assert(t.last() == (k, v));
        assert(kv_map(s.drop_last()).insert(k, v) =~= kv_map(s.drop_last()).insert(
            k,
            s[i].1,
        ).insert(k, v));
    } else {
        assert(unique_keys(s.drop_last())) by {
            assert forall|x: int, y: int|
                0 <= x < y < s.drop_last().len() implies s.drop_last()[x].0 != s.drop_last()[y].0 by {
                assert(s[x].0 != s[y].0);
            }
        }
        assert(t.last() == s.last());
        assert(t.drop_last() =~= s.drop_last().update(i, (k, v)));
        assert(s.drop_last()[i] == s[i]);
        lemma_kv_map_update(s.drop_last(), i, v);
        assert(s.last().0 != k);
        assert(kv_map(s.drop_last()).insert(k, v).insert(s.last().0, s.last().1) =~= kv_map(
            s.drop_last(),
        ).insert(s.last().0, s.last().1).insert(k, v));
    }
}

/// Removing an entry removes its key from the mapping.
pub proof fn lemma_kv_map_remove<K, V>(s: Seq<(K, V)>, i: int)
    requires
        unique_keys(s),
        0 <= i < s.len(),
    ensures
        kv_map(s.remove(i)) == kv_map(s).remove(s[i].0),
    decreases s.len(),
{
    let k = s[i].0;
    let t = s.remove(i);
    assert(unique_keys(s.drop_last())) by {
        assert forall|x: int, y: int|
            0 <= x < y < s.drop_last().len() implies s.drop_last()[x].0 != s.drop_last()[y].0 by {
            assert(s[x].0 != s[y].0);
        }
    }
    if i == s.len() - 1 {
        assert(t =~= s.drop_last());
        lemma_kv_map_domain(s.drop_last(), k);
        assert forall|j: int| 0 <= j < s.drop_last().len() implies s.drop_last()[j].0 != k by {
            assert(s[j].0 != s[i].0);
        }
        assert(!kv_map(s.drop_last()).dom().contains(k));
        assert(kv_map(s.drop_last()) =~= kv_map(s.drop_last()).insert(k, s[i].1).remove(k));
    } else {
        assert(t.last() == s.last());
        assert(t.drop_last() =~= s.drop_last().remove(i));
        assert(s.drop_last()[i] == s[i]);
        lemma_kv_map_remove(s.drop_last(), i);
        assert(s.last().0 != k);
        assert(kv_map(s.drop_last()).remove(k).insert(s.last().0, s.last().1) =~= kv_map(
            s.drop_last(),
        ).insert(s.last().0, s.last().1).remove(k));
    }
}

pub proof fn lemma_sum_nonneg<K>(s: Seq<(K, u128)>)
    ensures
        0 <= sum_vals(s),
    decreases s.len(),
{
    if s.len() > 0 {
        lemma_sum_nonneg(s.drop_last());
    }
}

pub proof fn lemma_sum_insert_at<K>(s: Seq<(K, u128)>, i: int, p: (K, u128))
    requires
        0 <= i <= s.len(),
    ensures
        sum_vals(s.insert(i, p)) == sum_vals(s) + p.1,
    decreases s.len(),
{
    let t = s.insert(i, p);
    if i == s.len() {
        assert(t.drop_last() =~= s);
    } else {
        assert(t.last() == s.last());
        assert(t.drop_last() =~= s.drop_last().insert(i, p));
        lemma_sum_insert_at(s.drop_last(), i, p);
    }
}

pub proof fn lemma_sum_update<K>(s: Seq<(K, u128)>, i: int, p: (K, u128))
    requires
        0 <= i < s.len(),
    ensures
        sum_vals(s.update(i, p)) == sum_vals(s) - s[i].1 + p.1,
    decreases s.len(),
{
    let t = s.update(i, p);
    if i == s.len() - 1 {
        assert(t.drop_last() =~= s.drop_last());
    } else {
        assert(t.last() == s.last());
        assert(t.drop_last() =~= s.drop_last().update(i, p));
        assert(s.drop_last()[i] == s[i]);
        lemma_sum_update(s.drop_last(), i, p);
    }
}

pub proof fn lemma_sum_remove<K>(s: Seq<(K, u128)>, i: int)
    requires
        0 <= i < s.len(),
    ensures
        sum_vals(s.remove(i)) == sum_vals(s) - s[i].1,
    decreases s.len(),
{
    let t = s.remove(i);
    if i == s.len() - 1 {
        assert(t =~= s.drop_last());
    } else {
        assert(t.last() == s.last());
        assert(t.drop_last() =~= s.drop_last().remove(i));
        assert(s.drop_last()[i] == s[i]);
        lemma_sum_remove(s.drop_last(), i);
    }
}

/// One entry's value never exceeds the total.
pub proof fn lemma_sum_entry_bound<K>(s: Seq<(K, u128)>, i: int)
    requires
        0 <= i < s.len(),
    ensures
        s[i].1 <= sum_vals(s),
{
    lemma_sum_remove(s, i);
    lemma_sum_nonneg(s.remove(i));
}

/// A uniquely-keyed sequence whose entries all occur in another
/// uniquely-keyed sequence sums to no more than that one.
pub proof fn lemma_sum_subset<K>(p: Seq<(K, u128)>, r: Seq<(K, u128)>)
    requires
        unique_keys(p),
        unique_keys(r),
        forall|i: int|
            0 <= i < p.len() ==> exists|j: int|
                0 <= j < r.len() && r[j].0 == #[trigger] p[i].0 && r[j].1 == p[i].1,
    ensures
        sum_vals(p) <= sum_vals(r),
    decreases p.len(),
{
    if p.len() == 0 {
        lemma_sum_nonneg(r);
    } else {
        let e = p.last();
        assert(p[p.len() - 1] == e);
        let j = choose|j: int| 0 <= j < r.len() && r[j].0 == e.0 && r[j].1 == e.1;
        let r2 = r.remove(j);
        lemma_sum_remove(r, j);
        assert(unique_keys(r2)) by {
            assert forall|x: int, y: int| 0 <= x < y < r2.len() implies r2[x].0 != r2[y].0 by {
                let x0 = if x < j { x } else { x + 1 };
                let y0 = if y < j { y } else { y + 1 };
                assert(r2[x] == r[x0]);
                assert(r2[y] == r[y0]);
            }
        }
        assert forall|i: int|
            0 <= i < p.drop_last().len() implies exists|j2: int|
            0 <= j2 < r2.len() && r2[j2].0 == #[trigger] p.drop_last()[i].0 && r2[j2].1
                == p.drop_last()[i].1 by {
            assert(p[i] == p.drop_last()[i]);
            let j0 = choose|j0: int| 0 <= j0 < r.len() && r[j0].0 == p[i].0 && r[j0].1 == p[i].1;
            assert(p[i].0 != e.0);
            assert(r[j0].0 != r[j].0);
            assert(j0 != j);
            let j2 = if j0 < j { j0 } else { j0 - 1 };
            assert(r2[j2] == r[j0]);
        }
        lemma_sum_subset(p.drop_last(), r2);
    }
}

/// Pushing one entry adds its value to the sum.
pub proof fn lemma_sum_push<K>(s: Seq<(K, u128)>, p: (K, u128))
    ensures
        sum_vals(s.push(p)) == sum_vals(s) + p.1,
{
    assert(s.push(p).drop_last() =~= s);
}

/// A sorted insertion of a key above every present key lands at the end.
pub proof fn lemma_insert_fresh_at_end<V>(s0: Seq<(u128, V)>, s1: Seq<(u128, V)>, k: u128, v: V)
    requires
        sorted_keys(s1),
        exists|i: int| 0 <= i <= s0.len() && s1 == #[trigger] s0.insert(i, (k, v)),
        forall|j: int| 0 <= j < s0.len() ==> s0[j].0 < k,
    ensures
        s1 == s0.push((k, v)),
{
    let i = choose|i: int| 0 <= i <= s0.len() && s1 == #[trigger] s0.insert(i, (k, v));
    if i < s0.len() {
        assert(s1[i + 1] == s0[i]);
        assert(s1[i as int].0 == k);
        assert(false);
    }
    assert(s0.insert(s0.len() as int, (k, v)) =~= s0.push((k, v)));
}

/// Every key of a filtered sequence stays below any bound the keys obey.
pub proof fn lemma_filter_key_bound<V>(
    s: Seq<(u128, V)>,
    pred: spec_fn((u128, V)) -> bool,
    bound: u128,
)
    requires
        forall|j: int| 0 <= j < s.len() ==> #[trigger] s[j].0 < bound,
    ensures
        forall|i: int| 0 <= i < s.filter(pred).len() ==> #[trigger] s.filter(pred)[i].0 < bound,
    decreases s.len(),
{
    reveal(Seq::filter);
    if s.len() > 0 {
        assert(forall|j: int| 0 <= j < s.drop_last().len() ==> #[trigger] s.drop_last()[j].0 < bound);
        lemma_filter_key_bound(s.drop_last(), pred, bound);
        assert(s[s.len() - 1].0 < bound);
        let t = s.filter(pred);
        let t0 = s.drop_last().filter(pred);
        if pred(s.last()) {
            assert(t == t0.push(s.last()));
            assert forall|i: int| 0 <= i < t.len() implies #[trigger] t[i].0 < bound by {
                if i < t.len() - 1 {
                    assert(t[i] == t0[i]);
                }
            }
        } else {
            assert(t == t0);
        }
    }
}

/// Filtering keeps a key-sorted sequence sorted.
pub proof fn lemma_filter_sorted<V>(s: Seq<(u128, V)>, pred: spec_fn((u128, V)) -> bool)
    requires
        sorted_keys(s),
    ensures
        sorted_keys(s.filter(pred)),
    decreases s.len(),
{
    reveal(Seq::filter);
    if s.len() > 0 {
        assert(sorted_keys(s.drop_last())) by {
            assert forall|x: int, y: int|
                0 <= x < y < s.drop_last().len() implies s.drop_last()[x].0 < s.drop_last()[y].0 by {
                assert(s[x].0 < s[y].0);
            }
        }
        lemma_filter_sorted(s.drop_last(), pred);
        if pred(s.last()) {
            assert(forall|j: int|
                0 <= j < s.drop_last().len() ==> #[trigger] s.drop_last()[j].0 < s.last().0);
            lemma_filter_key_bound(s.drop_last(), pred, s.last().0);
            let t = s.filter(pred);
            assert(t == s.drop_last().filter(pred).push(s.last()));
            assert forall|x: int, y: int| 0 <= x < y < t.len() implies t[x].0 < t[y].0 by {
                if y < t.len() - 1 {
                    assert(s.drop_last().filter(pred)[x].0 < s.drop_last().filter(pred)[y].0);
                } else {
                    assert(t[x] == s.drop_last().filter(pred)[x]);
                }
            }
        }
    }
}

/// An integer-keyed table whose entries stay sorted by key.
pub struct IdMap<V> {
    entries: Vec<(u128, V)>,
}

impl<V> IdMap<V> {
    /// The entry sequence: the canonical snapshot of the table.
    pub closed spec fn entries_seq(&self) -> Seq<(u128, V)> {
        self.entries@
    }

    pub open spec fn wf(&self) -> bool {
        sorted_keys(self.entries_seq())
    }

    /// The mapping this table denotes.
    pub open spec fn to_map(&self) -> Map<u128, V> {
        kv_map(self.entries_seq())
    }

    pub fn new() -> (r: Self)
        ensures
            r.wf(),
            r.entries_seq() == Seq::<(u128, V)>::empty(),
            r.to_map() == Map::<u128, V>::empty(),
    {
        let r = IdMap { entries: Vec::new() };
        proof {
            assert(r.to_map() =~= Map::<u128, V>::empty());
        }
        r
    }

    /// Wraps an already-sorted entry vector.
    pub fn from_sorted(entries: Vec<(u128, V)>) -> (r: Self)
        requires
            sorted_keys(entries@),
        ensures
            r.wf(),
            r.entries_seq() == entries@,
    {
        IdMap { entries }
    }

    pub fn len(&self) -> (r: usize)
        ensures
            r == self.entries_seq().len(),
    {
        self.entries.len()
    }

    pub fn get(&self, k: u128) -> (r: Option<&V>)
        requires
            self.wf(),
        ensures
            match r {
                Some(v) => self.to_map().dom().contains(k) && *v == self.to_map()[k],
                None => !self.to_map().dom().contains(k),
            },
    {
        proof {
            lemma_sorted_implies_unique(self.entries_seq());
        }
        let n = self.entries.len();
        let mut i: usize = 0;
        while i < n
            invariant
                n == self.entries_seq().len(),
                i <= n,
                forall|j: int| 0 <= j < i ==> self.entries_seq()[j].0 != k,
            decreases n - i,
        {
            if self.entries[i].0 == k {
                proof {
                    lemma_kv_map_index(self.entries_seq(), i as int);
                }
                return Some(&self.entries[i].1);
            }
            i += 1;
        }
        proof {
            lemma_kv_map_domain(self.entries_seq(), k);
        }
        None
    }

    pub fn contains_key(&self, k: u128) -> (r: bool)
        requires
            self.wf(),
        ensures
            r == self.to_map().dom().contains(k),
    {
        match self.get(k) {
            Some(_) => true,
            None => false,
        }
    }

    /// Inserts or overwrites; the entry lands at its sorted position.
    pub fn insert(&mut self, k: u128, v: V)
        requires
            old(self).wf(),
        ensures
            final(self).wf(),
            final(self).to_map() == old(self).to_map().insert(k, v),
            old(self).to_map().dom().contains(k) ==> exists|i: int|
                0 <= i < old(self).entries_seq().len() && old(self).entries_seq()[i].0 == k
                    && final(self).entries_seq() == old(self).entries_seq().update(i, (k, v)),
            !old(self).to_map().dom().contains(k) ==> exists|i: int|
                0 <= i <= old(self).entries_seq().len()
                    && final(self).entries_seq() == old(self).entries_seq().insert(i, (k, v)),
    {
        proof {
            lemma_sorted_implies_unique(self.entries_seq());
        }
        let ghost s0 = self.entries_seq();
        let n = self.entries.len();
        let mut i: usize = 0;
        while i < n && self.entries[i].0 < k
            invariant
                i <= n,
                forall|j: int| 0 <= j < i ==> s0[j].0 < k,
            decreases n - i,
        {
            i += 1;
        }
        if i < n && self.entries[i].0 == k {
            self.entries[i] = (k, v);
            proof {
                lemma_kv_map_update(s0, i as int, v);
                lemma_kv_map_domain(s0, k);
                assert(sorted_keys(self.entries_seq())) by {
                    assert forall|x: int, y: int|
                        0 <= x < y < self.entries_seq().len() implies self.entries_seq()[x].0
                        < self.entries_seq()[y].0 by {
                        assert(s0[x].0 < s0[y].0);
                    }
                }
            }
        } else {
            proof {
                assert forall|j: int| 0 <= j < s0.len() implies s0[j].0 != k by {
                    if j >= i {
                        assert(s0[i as int].0 <= s0[j].0);
                    }
                }
                lemma_kv_map_domain(s0, k);
                lemma_kv_map_insert_at(s0, i as int, k, v);
            }
            self.entries.insert(i, (k, v));
            proof {
                let t = self.entries_seq();
                assert(sorted_keys(t)) by {
                    assert forall|x: int, y: int| 0 <= x < y < t.len() implies t[x].0 < t[y].0 by {
                        if x < i && y > i {
                            assert(t[x] == s0[x]);
                            assert(t[y] == s0[y - 1]);
                            assert(s0[x].0 < k || x == i);
                            assert(s0[y - 1].0 >= k);
                            assert(s0[y - 1].0 != k);
                        } else if y == i {
                            assert(t[x] == s0[x]);
                        } else if x == i && y > i {
                            assert(t[y] == s0[y - 1]);
                            assert(s0[y - 1].0 >= k && s0[y - 1].0 != k);
                        } else if y < i {
                            assert(t[x] == s0[x] && t[y] == s0[y]);
                        } else if x > i {
                            assert(t[x] == s0[x - 1] && t[y] == s0[y - 1]);
                        }
                    }
                }
            }
        }
    }

    /// Removes a key, handing back its value.
    pub fn remove(&mut self, k: u128) -> (r: Option<V>)
        requires
            old(self).wf(),
        ensures
            final(self).wf(),
            final(self).to_map() == old(self).to_map().remove(k),
            match r {
                Some(v) => old(self).to_map().dom().contains(k) && v == old(self).to_map()[k]
                    && exists|i: int|
                    0 <= i < old(self).entries_seq().len() && old(self).entries_seq()[i].0 == k
                        && old(self).entries_seq()[i].1 == v
                        && final(self).entries_seq() == old(self).entries_seq().remove(i),
                None => !old(self).to_map().dom().contains(k) && final(self).entries_seq() == old(self).entries_seq(),
            },
    {
        proof {
            lemma_sorted_implies_unique(self.entries_seq());
        }
        let ghost s0 = self.entries_seq();
        let n = self.entries.len();
        let mut i: usize = 0;
        while i < n
            invariant
                self.entries_seq() == s0,
                sorted_keys(s0),
                unique_keys(s0),
                n == s0.len(),
                i <= n,
                forall|j: int| 0 <= j < i ==> s0[j].0 != k,
            decreases n - i,
        {
            if self.entries[i].0 == k {
                proof {
                    lemma_kv_map_index(s0, i as int);
                    lemma_kv_map_remove(s0, i as int);
                }
                let pair = self.entries.remove(i);
                proof {
                    assert(sorted_keys(self.entries_seq())) by {
                        let t = self.entries_seq();
                        assert forall|x: int, y: int|
                            0 <= x < y < t.len() implies t[x].0 < t[y].0 by {
                            let x0 = if x < i { x } else { x + 1 };
                            let y0 = if y < i { y } else { y + 1 };
                            assert(t[x] == s0[x0]);
                            assert(t[y] == s0[y0]);
                        }
                    }
                    assert(old(self).entries_seq()[i as int].0 == k);
                }
                return Some(pair.1);
            }
            i += 1;
        }
        proof {
            lemma_kv_map_domain(s0, k);
            assert(self.to_map() =~= self.to_map().remove(k));
        }
        None
    }
}

/// Every element of a filtered sequence occurs in the sequence.
pub proof fn lemma_filter_subset<V>(s: Seq<(u128, V)>, pred: spec_fn((u128, V)) -> bool)
    ensures
        forall|i: int|
            0 <= i < s.filter(pred).len() ==> exists|j: int|
                0 <= j < s.len() && s[j] == #[trigger] s.filter(pred)[i],
    decreases s.len(),
{
    reveal(Seq::filter);
    if s.len() > 0 {
        lemma_filter_subset(s.drop_last(), pred);
        let t = s.filter(pred);
        let t0 = s.drop_last().filter(pred);
        assert forall|i: int|
            0 <= i < t.len() implies exists|j: int| 0 <= j < s.len() && s[j] == #[trigger] t[i] by {
            if pred(s.last()) && i == t.len() - 1 {
                assert(s[s.len() - 1] == t[i]);
            } else {
                assert(t[i] == t0[i]);
                let j = choose|j: int| 0 <= j < s.drop_last().len() && s.drop_last()[j] == t0[i];
                assert(s[j] == t[i]);
            }
        }
    }
}

impl IdMap<u128> {
    /// A copy of the entry snapshot.
    pub fn entries_vec(&self) -> (r: Vec<(u128, u128)>)
        ensures
            r@ == self.entries_seq(),
    {
        let n = self.entries.len();
        let mut r: Vec<(u128, u128)> = Vec::new();
        let mut i: usize = 0;
        while i < n
            invariant
                i <= n,
                r@ == self.entries_seq().take(i as int),
            decreases n - i,
        {
            r.push(self.entries[i]);
            proof {
                assert(r@ =~= self.entries_seq().take(i + 1));
            }
            i += 1;
        }
        proof {
            assert(self.entries_seq().take(n as int) =~= self.entries_seq());
        }
        r
    }
}

/// A string-keyed table in insertion order.
pub struct StrMap<V> {
    entries: Vec<(String, V)>,
}

impl<V> StrMap<V> {
    /// The entry sequence with keys taken to their character sequences.
    pub closed spec fn keyed(&self) -> Seq<(Seq<char>, V)> {
        self.entries@.map_values(|p: (String, V)| (p.0@, p.1))
    }

    pub open spec fn wf(&self) -> bool {
        unique_keys(self.keyed())
    }

    pub open spec fn to_map(&self) -> Map<Seq<char>, V> {
        kv_map(self.keyed())
    }

    pub fn new() -> (r: Self)
        ensures
            r.wf(),
            r.keyed() == Seq::<(Seq<char>, V)>::empty(),
            r.to_map() == Map::<Seq<char>, V>::empty(),
    {
        let r = StrMap { entries: Vec::new() };
        proof {
            assert(r.keyed() =~= Seq::<(Seq<char>, V)>::empty());
            assert(r.to_map() =~= Map::<Seq<char>, V>::empty());
        }
        r
    }

    pub fn len(&self) -> (r: usize)
        ensures
            r == self.keyed().len(),
    {
        self.entries.len()
    }

    pub fn get(&self, k: &String) -> (r: Option<&V>)
        requires
            self.wf(),
        ensures
            match r {
                Some(v) => self.to_map().dom().contains(k@) && *v == self.to_map()[k@],
                None => !self.to_map().dom().contains(k@),
            },
    {
        let n = self.entries.len();
        let mut i: usize = 0;
        while i < n
            invariant
                self.wf(),
                n == self.keyed().len(),
                i <= n,
                forall|j: int| 0 <= j < i ==> self.keyed()[j].0 != k@,
            decreases n - i,
        {
            if self.entries[i].0 == *k {
                proof {
                    lemma_kv_map_index(self.keyed(), i as int);
                }
                return Some(&self.entries[i].1);
            }
            proof {
                assert(self.keyed()[i as int].0 == self.entries@[i as int].0@);
            }
            i += 1;
        }
        proof {
            lemma_kv_map_domain(self.keyed(), k@);
        }
        None
    }

    pub fn contains_key(&self, k: &String) -> (r: bool)
        requires
            self.wf(),
        ensures
            r == self.to_map().dom().contains(k@),
    {
        match self.get(k) {
            Some(_) => true,
            None => false,
        }
    }

    /// Inserts or overwrites the value under the key.
    pub fn insert(&mut self, k: &String, v: V)
        requires
            old(self).wf(),
        ensures
            final(self).wf(),
            final(self).to_map() == old(self).to_map().insert(k@, v),
            old(self).to_map().dom().contains(k@) ==> exists|i: int|
                0 <= i < old(self).keyed().len() && old(self).keyed()[i].0 == k@
                    && final(self).keyed() == old(self).keyed().update(i, (k@, v)),
            !old(self).to_map().dom().contains(k@)
                ==> final(self).keyed() == old(self).keyed().push((k@, v)),
    {
        let ghost s0 = self.keyed();
        let n = self.entries.len();
        let mut i: usize = 0;
        while i < n
            invariant
                self.keyed() == s0,
                unique_keys(s0),
                n == s0.len(),
                i <= n,
                forall|j: int| 0 <= j < i ==> s0[j].0 != k@,
            decreases n - i,
        {
            if self.entries[i].0 == *k {
                self.entries[i] = (k.clone(), v);
                proof {
                    assert(s0[i as int].0 == k@);
                    assert(self.keyed() =~= s0.update(i as int, (k@, v)));
                    lemma_kv_map_update(s0, i as int, v);
                    lemma_kv_map_domain(s0, k@);
                    assert(unique_keys(self.keyed())) by {
                        let t = self.keyed();
                        assert forall|x: int, y: int|
                            0 <= x < y < t.len() implies t[x].0 != t[y].0 by {
                            assert(t[x].0 == s0[x].0 && t[y].0 == s0[y].0);
                        }
                    }
                }
                return ;
            }
            proof {
                assert(self.keyed()[i as int].0 == self.entries@[i as int].0@);
            }
            i += 1;
        }
        proof {
            lemma_kv_map_domain(s0, k@);
        }
        self.entries.push((k.clone(), v));
        proof {
            assert(self.keyed() =~= s0.push((k@, v)));
            assert(s0.push((k@, v)) == s0.insert(s0.len() as int, (k@, v)));
            lemma_kv_map_insert_at(s0, s0.len() as int, k@, v);
            assert(unique_keys(self.keyed())) by {
                let t = self.keyed();
                assert forall|x: int, y: int| 0 <= x < y < t.len() implies t[x].0 != t[y].0 by {
                    if y < s0.len() {
                        assert(t[x].0 == s0[x].0 && t[y].0 == s0[y].0);
                    } else {
                        assert(t[x].0 == s0[x].0 && t[y].0 == k@);
                    }
                }
            }
        }
    }
}

} // verus!
