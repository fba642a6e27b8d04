use vstd::prelude::*;
use crate::order::{KeyOrder, str_lt, lemma_str_order, compare_chars};
use crate::text::chars_of;

verus! {

/// A key type with a strict total order on its views and an executable comparison.
pub trait OrdKey: View + Sized {
    spec fn key_lt(a: Self::V, b: Self::V) -> bool;

    proof fn lemma_key_order()
        ensures
            forall|a: Self::V| !#[trigger] Self::key_lt(a, a),
            forall|a: Self::V, b: Self::V, c: Self::V|
                #[trigger] Self::key_lt(a, b) && #[trigger] Self::key_lt(b, c) ==> Self::key_lt(a, c),
            forall|a: Self::V, b: Self::V| a == b || #[trigger] Self::key_lt(a, b) || Self::key_lt(b, a),
    ;

    fn compare_key(&self, other: &Self) -> (r: KeyOrder)
        ensures
            r == KeyOrder::Less <==> Self::key_lt(self@, other@),
            r == KeyOrder::Equal <==> self@ == other@,
            r == KeyOrder::Greater <==> Self::key_lt(other@, self@),
    ;

    fn clone_key(&self) -> (r: Self)
        ensures
            r@ == self@,
    ;
}

/// A value that can be copied with its view kept.
pub trait ViewClone: View + Sized {
    fn clone_view(&self) -> (r: Self)
        ensures
            r@ == self@,
    ;
}

impl ViewClone for usize {
    fn clone_view(&self) -> (r: Self) {
        *self
    }
}

impl ViewClone for () {
    fn clone_view(&self) -> (r: Self) {
        ()
    }
}

impl ViewClone for String {
    fn clone_view(&self) -> (r: Self) {
        self.clone()
    }
}

impl OrdKey for String {
    open spec fn key_lt(a: Seq<char>, b: Seq<char>) -> bool {
        str_lt(a, b)
    }

    proof fn lemma_key_order() {
        lemma_str_order();
        let l = |a: Seq<char>, b: Seq<char>| str_lt(a, b);
        assert forall|a: Seq<char>| !#[trigger] str_lt(a, a) by {
            assert(!l(a, a));
        }
        assert forall|a: Seq<char>, b: Seq<char>, c: Seq<char>|
            #[trigger] str_lt(a, b) && #[trigger] str_lt(b, c) implies str_lt(a, c) by {
            assert(l(a, b) && l(b, c));
        }
        assert forall|a: Seq<char>, b: Seq<char>| a == b || #[trigger] str_lt(a, b) || str_lt(b, a) by {
            assert(a == b || l(a, b) || l(b, a));
        }
    }

    fn compare_key(&self, other: &Self) -> (r: KeyOrder) {
        let a = chars_of(self.as_str());
        let b = chars_of(other.as_str());
        compare_chars(&a, &b)
    }

    fn clone_key(&self) -> (r: Self) {
        self.clone()
    }
}

/// The map built by inserting the first `n` key/value pairs in order.
pub open spec fn prefix_map<A, B>(ks: Seq<A>, vs: Seq<B>, n: int) -> Map<A, B>
    decreases n,
{
    if n <= 0 {
        Map::empty()
    } else {
        prefix_map(ks, vs, n - 1).insert(ks[n - 1], vs[n - 1])
    }
}

/// Keys strictly increasing.
pub open spec fn sorted_keys<K: OrdKey>(ks: Seq<K::V>) -> bool {
    forall|i: int, j: int| 0 <= i < j < ks.len() ==> K::key_lt(ks[i], ks[j])
}

/// Two strictly increasing sequences with the same elements are equal.
pub proof fn lemma_sorted_unique<K: OrdKey>(a: Seq<K::V>, b: Seq<K::V>)
    requires
        sorted_keys::<K>(a),
        sorted_keys::<K>(b),
        a.to_set() == b.to_set(),
    ensures
        a == b,
    decreases a.len(),
{
    K::lemma_key_order();
    if a.len() == 0 {
        if b.len() > 0 {
            assert(b.to_set().contains(b[0]));
        }
        assert(a =~= b);
    } else {
        assert(b.to_set().contains(a[0]));
        assert(a.to_set().contains(b[0]));
        let i = choose|i: int| 0 <= i < b.len() && b[i] == a[0];
        let j = choose|j: int| 0 <= j < a.len() && a[j] == b[0];
        if i > 0 {
            assert(K::key_lt(b[0], b[i]));
            if j > 0 {
                assert(K::key_lt(a[0], a[j]));
            }
        }
        assert(a[0] == b[0]);
        let a1 = a.drop_first();
        let b1 = b.drop_first();
        assert forall|x: K::V| a1.to_set().contains(x) implies b1.to_set().contains(x) by {
            let p = choose|p: int| 0 <= p < a1.len() && a1[p] == x;
            assert(a.to_set().contains(x));
            let q = choose|q: int| 0 <= q < b.len() && b[q] == x;
            assert(K::key_lt(a[0], a[p + 1]));
            if q == 0 {
                assert(false);
            }
            assert(b1[q - 1] == x);
        }
        assert forall|x: K::V| b1.to_set().contains(x) implies a1.to_set().contains(x) by {
            let p = choose|p: int| 0 <= p < b1.len() && b1[p] == x;
            assert(b.to_set().contains(x));
            let q = choose|q: int| 0 <= q < a.len() && a[q] == x;
            assert(K::key_lt(b[0], b[p + 1]));
            if q == 0 {
                assert(false);
            }
            assert(a1[q - 1] == x);
        }
        assert(a1.to_set() =~= b1.to_set());
        lemma_sorted_unique::<K>(a1, b1);
        assert(a =~= seq![a[0]] + a1);
        assert(b =~= seq![b[0]] + b1);
    }
}

/// A map kept as a vector of entries in strictly increasing key order,
/// so that walking it visits keys in order. The keys are ordered through `OrdKey`, whose
/// comparison is proved; vstd's specifications of `BTreeMap` and `BTreeSet` hold only for
/// keys known to obey `cmp`, which text keys with a derived order are not.
pub struct SortedMap<K, V> {
    entries: Vec<(K, V)>,
}

impl<K: OrdKey, V: View> View for SortedMap<K, V> {
    type V = Map<K::V, V::V>;

    open spec fn view(&self) -> Map<K::V, V::V> {
        Map::new(
            |k: K::V| self.key_seq().contains(k),
            |k: K::V| self.value_seq()[self.key_seq().index_of(k)],
        )
    }
}

impl<K: OrdKey, V: View> SortedMap<K, V> {
    /// The keys, in increasing order.
    pub closed spec fn key_seq(&self) -> Seq<K::V> {
        Seq::new(self.entries@.len(), |i: int| self.entries@[i].0@)
    }

    /// The values, in the order of their keys.
    pub closed spec fn value_seq(&self) -> Seq<V::V> {
        Seq::new(self.entries@.len(), |i: int| self.entries@[i].1@)
    }

    /// The values themselves, in the order of their keys.
    pub closed spec fn exec_seq(&self) -> Seq<V> {
        Seq::new(self.entries@.len(), |i: int| self.entries@[i].1)
    }

    /// The map from keys to the values themselves.
    pub open spec fn exec_map(&self) -> Map<K::V, V> {
        Map::new(
            |k: K::V| self.key_seq().contains(k),
            |k: K::V| self.exec_seq()[self.key_seq().index_of(k)],
        )
    }

    pub open spec fn wf(&self) -> bool {
        &&& sorted_keys::<K>(self.key_seq())
        &&& self.value_seq().len() == self.key_seq().len()
        &&& self.exec_seq().len() == self.key_seq().len()
        &&& forall|i: int| 0 <= i < self.key_seq().len() ==> (#[trigger] self.exec_seq()[i])@ == self.value_seq()[i]
    }

    /// What the view says of the entry at position `i`.
    pub proof fn lemma_at(&self, i: int)
        requires
            self.wf(),
            0 <= i < self.key_seq().len(),
        ensures
            self@.contains_key(self.key_seq()[i]),
            self@[self.key_seq()[i]] == self.value_seq()[i],
            self.exec_map().contains_key(self.key_seq()[i]),
            self.exec_map()[self.key_seq()[i]] == self.exec_seq()[i],
            self.key_seq().index_of(self.key_seq()[i]) == i,
    {
        K::lemma_key_order();
        let ks = self.key_seq();
        assert(ks.contains(ks[i]));
        let j = ks.index_of(ks[i]);
        if j != i {
            if j < i {
                assert(K::key_lt(ks[j], ks[i]));
            } else {
                assert(K::key_lt(ks[i], ks[j]));
            }
        }
    }

    /// The view's domain is the set of keys.
    pub proof fn lemma_dom(&self)
        requires
            self.wf(),
        ensures
            self@.dom() == self.key_seq().to_set(),
            self@.dom().finite(),
            self@.dom().len() == self.key_seq().len(),
            self.key_seq().no_duplicates(),
    {
        K::lemma_key_order();
        let ks = self.key_seq();
        assert(self@.dom() =~= ks.to_set());
        assert forall|i: int, j: int| 0 <= i < ks.len() && 0 <= j < ks.len() && i != j implies ks[i]
            != ks[j] by {
            if i < j {
                assert(K::key_lt(ks[i], ks[j]));
            } else {
                assert(K::key_lt(ks[j], ks[i]));
            }
        }
        ks.unique_seq_to_set();
    }

    /// The view is what inserting the entries in order builds.
    pub proof fn lemma_prefix_map(&self, n: int)
        requires
            self.wf(),
            0 <= n <= self.key_seq().len(),
        ensures
            prefix_map(self.key_seq(), self.value_seq(), n) =~= self@.restrict(
                self.key_seq().take(n).to_set(),
            ),
        decreases n,
    {
        if n > 0 {
            self.lemma_prefix_map(n - 1);
            self.lemma_at(n - 1);
            let ks = self.key_seq();
            assert(ks.take(n) =~= ks.take(n - 1).push(ks[n - 1]));
            ks.take(n - 1).lemma_push_to_set_commute(ks[n - 1]);
        } else {
            assert(self.key_seq().take(0).to_set() =~= Set::empty());
        }
    }

    /// Inserting all entries in order builds the view.
    pub proof fn lemma_full_prefix_map(&self)
        requires
            self.wf(),
        ensures
            prefix_map(self.key_seq(), self.value_seq(), self.key_seq().len() as int) == self@,
    {
        self.lemma_prefix_map(self.key_seq().len() as int);
        self.lemma_dom();
        assert(self.key_seq().take(self.key_seq().len() as int) =~= self.key_seq());
        assert(self@.restrict(self.key_seq().to_set()) =~= self@);
    }

    /// The number of entries fits in a `usize`.
    pub proof fn lemma_len_bound(&self)
        ensures
            self.key_seq().len() <= usize::MAX,
    {
        assert(self.entries.len() == self.entries@.len());
    }

    /// Under `wf`, the values themselves view as the map's values.
    pub proof fn lemma_exec_map(&self)
        requires
            self.wf(),
        ensures
            self.exec_map().dom() == self@.dom(),
            forall|k: K::V| #[trigger] self.exec_map().contains_key(k) ==> self.exec_map()[k]@ == self@[k],
    {
        assert(self.exec_map().dom() =~= self@.dom());
        assert forall|k: K::V| #[trigger] self.exec_map().contains_key(k) implies self.exec_map()[k]@ == self@[k] by {
            let j = self.key_seq().index_of(k);
            self.lemma_at(j);
        }
    }

    /// What replacing the value at position `i` by `v`, keys kept, does to the map.
    pub proof fn lemma_update_at(old_map: Self, new_map: Self, i: int, v: V)
        requires
            old_map.wf(),
            0 <= i < old_map.key_seq().len(),
            new_map.key_seq() == old_map.key_seq(),
            new_map.value_seq() == old_map.value_seq().update(i, v@),
            new_map.exec_seq() == old_map.exec_seq().update(i, v),
        ensures
            new_map.wf(),
            new_map@ == old_map@.insert(old_map.key_seq()[i], v@),
            new_map.exec_map() == old_map.exec_map().insert(old_map.key_seq()[i], v),
    {
        old_map.lemma_dom();
        new_map.lemma_dom();
        new_map.lemma_at(i);
        assert forall|k: K::V| #[trigger] new_map@.contains_key(k) implies new_map@[k] == old_map@.insert(
            old_map.key_seq()[i],
            v@,
        )[k] by {
            let j = new_map.key_seq().index_of(k);
            new_map.lemma_at(j);
            old_map.lemma_at(j);
        }
        assert(new_map@ =~= old_map@.insert(old_map.key_seq()[i], v@));
        assert forall|k: K::V| #[trigger] new_map.exec_map().contains_key(k) implies new_map.exec_map()[k]
            == old_map.exec_map().insert(old_map.key_seq()[i], v)[k] by {
            let j = new_map.key_seq().index_of(k);
            new_map.lemma_at(j);
            old_map.lemma_at(j);
        }
        assert(new_map.exec_map() =~= old_map.exec_map().insert(old_map.key_seq()[i], v));
    }

    pub fn new() -> (m: Self)
        ensures
            m.wf(),
            m.key_seq() == Seq::<K::V>::empty(),
            m@ == Map::<K::V, V::V>::empty(),
            m.exec_map() == Map::<K::V, V>::empty(),
    {
        let m = SortedMap { entries: Vec::new() };
        assert(m.key_seq() =~= Seq::<K::V>::empty());
        assert(m@ =~= Map::<K::V, V::V>::empty());
        assert(m.exec_map() =~= Map::<K::V, V>::empty());
        m
    }

    pub fn len(&self) -> (n: usize)
        ensures
            n == self.key_seq().len(),
    {
        self.entries.len()
    }

    pub fn is_empty(&self) -> (b: bool)
        ensures
            b <==> self.key_seq().len() == 0,
    {
        self.entries.len() == 0
    }

    /// Where `k` stands, or where it would be inserted.
    pub fn find(&self, k: &K) -> (r: Result<usize, usize>)
        requires
            self.wf(),
        ensures
            match r {
                Ok(i) => i < self.key_seq().len() && self.key_seq()[i as int] == k@,
                Err(i) => {
                    &&& i <= self.key_seq().len()
                    &&& !self.key_seq().contains(k@)
                    &&& forall|j: int| 0 <= j < i ==> K::key_lt(#[trigger] self.key_seq()[j], k@)
                    &&& forall|j: int|
                        i <= j < self.key_seq().len() ==> K::key_lt(k@, #[trigger] self.key_seq()[j])
                },
            },
    {
        proof {
            K::lemma_key_order();
        }
        let ghost ks = self.key_seq();
        let mut i: usize = 0;
        while i < self.entries.len()
            invariant
                self.wf(),
                ks == self.key_seq(),
                i <= ks.len(),
                forall|j: int| 0 <= j < i ==> K::key_lt(#[trigger] ks[j], k@),
            decreases self.entries.len() - i,
        {
            proof {
                K::lemma_key_order();
            }
            let ek = &self.entries[i].0;
            assert(ks[i as int] == ek@);
            let c = k.compare_key(ek);
            match c {
                KeyOrder::Equal => {
                    return Ok(i);
                },
                KeyOrder::Less => {
                    assert(K::key_lt(k@, ek@));
                    assert(K::key_lt(k@, ks[i as int]));
                    assert forall|j: int| i <= j < ks.len() implies K::key_lt(k@, #[trigger] ks[j]) by {
                        if j > i {
                            assert(K::key_lt(ks[i as int], ks[j]));
                        }
                    }
                    assert forall|j: int| 0 <= j < ks.len() implies ks[j] != k@ by {
                        if j < i {
                            assert(K::key_lt(ks[j], k@));
                        } else {
                            assert(K::key_lt(k@, ks[j]));
                        }
                    }
                    return Err(i);
                },
                KeyOrder::Greater => {},
            }
            i = i + 1;
        }
        assert forall|j: int| 0 <= j < ks.len() implies ks[j] != k@ by {
            assert(K::key_lt(ks[j], k@));
        }
        Err(i)
    }

    pub fn contains_key(&self, k: &K) -> (b: bool)
        requires
            self.wf(),
        ensures
            b == self@.contains_key(k@),
    {
        match self.find(k) {
            Ok(_) => true,
            Err(_) => false,
        }
    }

    pub fn get(&self, k: &K) -> (r: Option<&V>)
        requires
            self.wf(),
        ensures
            match r {
                Some(v) => self@.contains_key(k@) && v@ == self@[k@] && *v == self.exec_map()[k@],
                None => !self@.contains_key(k@),
            },
    {
        match self.find(k) {
            Ok(i) => {
                proof {
                    self.lemma_at(i as int);
                }
                Some(&self.entries[i].1)
            },
            Err(_) => None,
        }
    }

    pub fn key_at(&self, i: usize) -> (r: &K)
        requires
            i < self.key_seq().len(),
        ensures
            r@ == self.key_seq()[i as int],
    {
        &self.entries[i].0
    }

    pub fn value_at(&self, i: usize) -> (r: &V)
        requires
            i < self.key_seq().len(),
        ensures
            r@ == self.value_seq()[i as int],
            *r == self.exec_seq()[i as int],
    {
        &self.entries[i].1
    }

    /// The value at position `i`, to change in place.
    pub fn value_mut_at(&mut self, i: usize) -> (r: &mut V)
        requires
            i < old(self).key_seq().len(),
        ensures
            *r == old(self).exec_seq()[i as int],
            final(self).key_seq() == old(self).key_seq(),
            final(self).exec_seq() == old(self).exec_seq().update(i as int, *final(r)),
            final(self).value_seq() == old(self).value_seq().update(i as int, final(r)@),
    {
        let e = &mut self.entries[i];
        &mut e.1
    }

    /// Replaces the value at position `i`, keeping the keys.
    pub fn set_value_at(&mut self, i: usize, v: V)
        requires
            old(self).wf(),
            i < old(self).key_seq().len(),
        ensures
            final(self).wf(),
            final(self).key_seq() == old(self).key_seq(),
            final(self).value_seq() == old(self).value_seq().update(i as int, v@),
            final(self).exec_seq() == old(self).exec_seq().update(i as int, v),
            final(self)@ == old(self)@.insert(old(self).key_seq()[i as int], v@),
            final(self).exec_map() == old(self).exec_map().insert(old(self).key_seq()[i as int], v),
    {
        let (k, _old_v) = self.entries.remove(i);
        self.entries.insert(i, (k, v));
        assert(self.key_seq() =~= old(self).key_seq());
        assert(self.value_seq() =~= old(self).value_seq().update(i as int, v@));
        assert(self.exec_seq() =~= old(self).exec_seq().update(i as int, v));
        proof {
            old(self).lemma_dom();
            self.lemma_dom();
            self.lemma_at(i as int);
            assert forall|k: K::V| #[trigger] self@.contains_key(k) implies self@[k] == old(
                self,
            )@.insert(old(self).key_seq()[i as int], v@)[k] by {
                let j = self.key_seq().index_of(k);
                self.lemma_at(j);
                old(self).lemma_at(j);
            }
            assert(self@ =~= old(self)@.insert(old(self).key_seq()[i as int], v@));
            assert forall|k: K::V| #[trigger] self.exec_map().contains_key(k) implies self.exec_map()[k] == old(
                self,
            ).exec_map().insert(old(self).key_seq()[i as int], v)[k] by {
                let j = self.key_seq().index_of(k);
                self.lemma_at(j);
                old(self).lemma_at(j);
            }
            assert(self.exec_map() =~= old(self).exec_map().insert(old(self).key_seq()[i as int], v));
        }
    }

    /// Inserts or overwrites the value of `k`.
    pub fn insert(&mut self, k: K, v: V)
        requires
            old(self).wf(),
        ensures
            final(self).wf(),
            final(self)@ == old(self)@.insert(k@, v@),
            final(self).exec_map() == old(self).exec_map().insert(k@, v),
            final(self).key_seq().to_set() == old(self).key_seq().to_set().insert(k@),
    {
        match self.find(&k) {
            Ok(i) => {
                proof {
                    old(self).lemma_at(i as int);
                }
                self.set_value_at(i, v);
                assert(self.key_seq().to_set() =~= old(self).key_seq().to_set().insert(k@));
            },
            Err(i) => {
                let ghost kv = k@;
                let ghost vv = v;
                self.entries.insert(i, (k, v));
                assert(self.exec_seq() =~= old(self).exec_seq().insert(i as int, vv));
                let ghost oks = old(self).key_seq();
                let ghost ks = self.key_seq();
                assert(ks =~= oks.insert(i as int, kv));
                assert(self.value_seq() =~= old(self).value_seq().insert(i as int, vv@));
                proof {
                    K::lemma_key_order();
                    assert forall|a: int, b: int| 0 <= a < b < ks.len() implies K::key_lt(
                        ks[a],
                        ks[b],
                    ) by {
                        if b < i {
                        } else if b == i {
                        } else if a < i {
                            assert(K::key_lt(oks[a], kv));
                            assert(K::key_lt(kv, oks[b - 1]));
                        } else if a == i {
                        } else {
                        }
                    }
                    assert forall|x: K::V| ks.to_set().contains(x) <==> oks.to_set().insert(
                        kv,
                    ).contains(x) by {
                        if ks.to_set().contains(x) {
                            let j = choose|j: int| 0 <= j < ks.len() && ks[j] == x;
                            if j < i {
                                assert(oks[j] == x);
                            } else if j > i {
                                assert(oks[j - 1] == x);
                            }
                        }
                        if oks.to_set().contains(x) {
                            let j = choose|j: int| 0 <= j < oks.len() && oks[j] == x;
                            if j < i {
                                assert(ks[j] == x);
                            } else {
                                assert(ks[j + 1] == x);
                            }
                        }
                        if x == kv {
                            assert(ks[i as int] == x);
                        }
                    }
                    assert(ks.to_set() =~= oks.to_set().insert(kv));
                    assert forall|x: K::V| #[trigger] self@.contains_key(x) implies self@[x] == old(
                        self,
                    )@.insert(kv, vv@)[x] by {
                        let j = ks.index_of(x);
                        self.lemma_at(j);
                        if j < i {
                            old(self).lemma_at(j);
                        } else if j > i {
                            old(self).lemma_at(j - 1);
                        }
                    }
                    assert(self@ =~= old(self)@.insert(kv, vv@));
                    assert forall|x: K::V| #[trigger] self.exec_map().contains_key(x) implies self.exec_map()[x] == old(
                        self,
                    ).exec_map().insert(kv, vv)[x] by {
                        let j = ks.index_of(x);
                        self.lemma_at(j);
                        if j < i {
                            old(self).lemma_at(j);
                        } else if j > i {
                            old(self).lemma_at(j - 1);
                        }
                    }
                    assert(self.exec_map() =~= old(self).exec_map().insert(kv, vv));
                }
            },
        }
    }
    /// Removes `k` and its value; says whether it was there.
    pub fn remove(&mut self, k: &K) -> (b: bool)
        requires
            old(self).wf(),
        ensures
            final(self).wf(),
            b == old(self)@.contains_key(k@),
            final(self)@ == old(self)@.remove(k@),
            final(self).exec_map() == old(self).exec_map().remove(k@),
    {
        match self.find(k) {
            Ok(i) => {
                let ghost oks = old(self).key_seq();
                let _ = self.entries.remove(i);
                let ghost ks = self.key_seq();
                assert(ks =~= oks.remove(i as int));
                assert(self.value_seq() =~= old(self).value_seq().remove(i as int));
                assert(self.exec_seq() =~= old(self).exec_seq().remove(i as int));
                proof {
                    K::lemma_key_order();
                    old(self).lemma_at(i as int);
                    assert forall|a: int, b: int| 0 <= a < b < ks.len() implies K::key_lt(ks[a], ks[b]) by {
                        if a < i && b >= i {
                            assert(K::key_lt(oks[a], oks[b + 1]));
                        } else if a >= i {
                            assert(K::key_lt(oks[a + 1], oks[b + 1]));
                        }
                    }
                    assert forall|x: K::V| #[trigger] self@.contains_key(x) <==> old(self)@.remove(k@).contains_key(x) by {
                        if ks.contains(x) {
                            let j = choose|j: int| 0 <= j < ks.len() && ks[j] == x;
                            if j < i {
                                assert(oks[j] == x);
                                assert(K::key_lt(oks[j], oks[i as int]));
                            } else {
                                assert(oks[j + 1] == x);
                                assert(K::key_lt(oks[i as int], oks[j + 1]));
                            }
                            assert(oks.contains(x));
                        }
                        if oks.contains(x) && x != k@ {
                            let j = choose|j: int| 0 <= j < oks.len() && oks[j] == x;
                            if j < i {
                                assert(ks[j] == x);
                            } else {
                                assert(j != i);
                                assert(ks[j - 1] == x);
                            }
                        }
                    }
                    assert forall|x: K::V| #[trigger] self@.contains_key(x) implies self@[x] == old(self)@[x] && self.exec_map()[x] == old(self).exec_map()[x] by {
                        let j = ks.index_of(x);
                        self.lemma_at(j);
                        if j < i {
                            old(self).lemma_at(j);
                        } else {
                            old(self).lemma_at(j + 1);
                        }
                    }
                    assert(self@ =~= old(self)@.remove(k@));
                    assert(self.exec_map() =~= old(self).exec_map().remove(k@));
                }
                true
            },
            Err(_) => {
                assert(old(self)@.remove(k@) =~= old(self)@);
                assert(old(self).exec_map().remove(k@) =~= old(self).exec_map());
                false
            },
        }
    }
}

impl<K: OrdKey, V: ViewClone> SortedMap<K, V> {
    /// A copy of the map.
    pub fn clone_map(&self) -> (r: Self)
        ensures
            self.wf() ==> r.wf(),
            r.key_seq() == self.key_seq(),
            r.value_seq() == self.value_seq(),
            r@ == self@,
    {
        let mut entries: Vec<(K, V)> = Vec::new();
        let mut i: usize = 0;
        while i < self.entries.len()
            invariant
                i <= self.entries@.len(),
                entries@.len() == i,
                forall|j: int|
                    0 <= j < i ==> (#[trigger] entries@[j]).0@ == self.entries@[j].0@ && entries@[j].1@
                        == self.entries@[j].1@,
            decreases self.entries.len() - i,
        {
            let k = self.entries[i].0.clone_key();
            let v = self.entries[i].1.clone_view();
            entries.push((k, v));
            i = i + 1;
        }
        let r = SortedMap { entries };
        assert(r.key_seq() =~= self.key_seq());
        assert(r.value_seq() =~= self.value_seq());
        assert(r@ =~= self@);
        r
    }
}

impl<K: OrdKey, V: ViewClone> ViewClone for SortedMap<K, V> {
    fn clone_view(&self) -> (r: Self) {
        self.clone_map()
    }
}

} // verus!
