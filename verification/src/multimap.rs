//! A multi-map from keys to values: a managed wrapper around a map store
//! whose values are set stores. It keeps a running count of all mappings
//! and never leaves a key with an empty value set.

use vstd::prelude::*;
use crate::keys::{OrderedKey, StoreKey};
use crate::maps::{Lookup, MapStore, SortedMap};
use crate::sets::{elems_vec, Container, SetStore};
use crate::store::{elem_model_set, elem_models, has_elem, has_key, index_of_elem, index_of_key,
    lemma_elem_model_set_contains, lemma_elem_model_set_len, lemma_index_of_elem,
    lemma_index_of_key, lemma_insert_elem, lemma_insert_entry, lemma_nat_sum_insert,
    lemma_nat_sum_member, lemma_nat_sum_remove, lemma_nat_sum_update, lemma_remove_elem,
    lemma_remove_entry, lemma_update_entry, nat_sum, value_of, entries_within,
    lemma_entries_within_subrange, lemma_push_add_subrange, KeyBound};

verus! {

/// The sizes of the value sets of an entry sequence, in entry order.
pub open spec fn set_sizes<K, S: SetStore>(s: Seq<(K, S)>) -> Seq<nat> {
    s.map_values(|p: (K, S)| p.1.elems().len())
}

/// The number of mappings held by an entry sequence: the sum of the sizes
/// of its value sets.
pub open spec fn total_mappings<K, S: SetStore>(s: Seq<(K, S)>) -> nat {
    nat_sum(set_sizes(s))
}

/// Whether the abstract multi-map `m` holds the mapping `(k, v)`.
pub open spec fn mm_contains_pair<KM, EM>(m: Map<KM, Set<EM>>, k: KM, v: EM) -> bool {
    m.dom().contains(k) && m[k].contains(v)
}

/// The abstract multi-map `m` with the mapping `(k, v)` added.
pub open spec fn mm_add_pair<KM, EM>(m: Map<KM, Set<EM>>, k: KM, v: EM) -> Map<KM, Set<EM>> {
    if m.dom().contains(k) {
        m.insert(k, m[k].insert(v))
    } else {
        m.insert(k, Set::<EM>::empty().insert(v))
    }
}

/// The abstract multi-map `m` with the mapping `(k, v)` removed; the key
/// leaves with its last value.
pub open spec fn mm_remove_pair<KM, EM>(m: Map<KM, Set<EM>>, k: KM, v: EM) -> Map<KM, Set<EM>> {
    if mm_contains_pair(m, k, v) {
        if m[k].remove(v) == Set::<EM>::empty() {
            m.remove(k)
        } else {
            m.insert(k, m[k].remove(v))
        }
    } else {
        m
    }
}

/// The mappings contributed by one entry: its key's model paired with each
/// of its values' models, in the value set's order.
pub open spec fn entry_pairs<K: StoreKey, S: SetStore>(p: (K, S)) -> Seq<
    (<K as View>::V, <<S as SetStore>::Elem as View>::V),
> {
    p.1.elems().map_values(|e: S::Elem| (p.0@, e@))
}

/// All mappings of an entry sequence, flattened in iteration order: the
/// entries in entry order, each key repeated once per value.
pub open spec fn spec_mappings<K: StoreKey, S: SetStore>(s: Seq<(K, S)>) -> Seq<
    (<K as View>::V, <<S as SetStore>::Elem as View>::V),
>
    decreases s.len(),
{
    if s.len() == 0 {
        Seq::empty()
    } else {
        entry_pairs(s[0]) + spec_mappings(s.drop_first())
    }
}

/// The models of a sequence of `(key, value)` pairs.
pub open spec fn pair_models<K: StoreKey, E: StoreKey>(s: Seq<(K, E)>) -> Seq<
    (<K as View>::V, <E as View>::V),
> {
    s.map_values(|p: (K, E)| (p.0@, p.1@))
}

/// Reading one more pair extends the pair models by one.
pub proof fn lemma_pair_models_push<K: StoreKey, E: StoreKey>(s: Seq<(K, E)>, q: (K, E))
    ensures
        pair_models(s.push(q)) == pair_models(s).push((q.0@, q.1@)),
{
    assert(pair_models(s.push(q)) =~= pair_models(s).push((q.0@, q.1@)));
}

/// Flattening distributes over appending one entry at the back.
pub proof fn lemma_spec_mappings_push<K: StoreKey, S: SetStore>(s: Seq<(K, S)>, p: (K, S))
    ensures
        spec_mappings(s.push(p)) == spec_mappings(s) + entry_pairs(p),
    decreases s.len(),
{
    if s.len() == 0 {
        assert(s.push(p).drop_first() =~= Seq::<(K, S)>::empty());
        assert(spec_mappings(Seq::<(K, S)>::empty()) == Seq::<
            (<K as View>::V, <<S as SetStore>::Elem as View>::V),
        >::empty());
        assert(s.push(p)[0] == p);
        assert(spec_mappings(s.push(p)) =~= spec_mappings(s) + entry_pairs(p));
    } else {
        assert(s.push(p).drop_first() =~= s.drop_first().push(p));
        lemma_spec_mappings_push(s.drop_first(), p);
        assert(entry_pairs(s[0]) + (spec_mappings(s.drop_first()) + entry_pairs(p)) =~= (
        entry_pairs(s[0]) + spec_mappings(s.drop_first())) + entry_pairs(p));
    }
}

/// The flattened mappings are exactly as many as the value-set sizes add
/// up to.
pub proof fn lemma_spec_mappings_len<K: StoreKey, S: SetStore>(s: Seq<(K, S)>)
    ensures
        spec_mappings(s).len() == total_mappings(s),
    decreases s.len(),
{
    if s.len() == 0 {
        assert(set_sizes(s) =~= Seq::<nat>::empty());
    } else {
        lemma_spec_mappings_len(s.drop_first());
        crate::store::lemma_nat_sum_split(set_sizes(s), 1);
        assert(set_sizes(s).subrange(1, set_sizes(s).len() as int) =~= set_sizes(
            s.drop_first(),
        ));
        assert(set_sizes(s).subrange(0, 1) =~= seq![s[0].1.elems().len()]);
        crate::store::lemma_nat_sum_singleton(s[0].1.elems().len());
    }
}

/// Every key of a flattened mapping sequence is the key model of one of
/// the entries.
pub proof fn lemma_spec_mappings_keys<K: StoreKey, S: SetStore>(s: Seq<(K, S)>)
    ensures
        forall|j: int|
            0 <= j < spec_mappings(s).len() ==> exists|i: int|
                0 <= i < s.len() && (#[trigger] spec_mappings(s)[j]).0 == s[i].0@,
    decreases s.len(),
{
    if s.len() > 0 {
        lemma_spec_mappings_keys(s.drop_first());
        let blk = entry_pairs(s[0]);
        let rest = spec_mappings(s.drop_first());
        assert forall|j: int|
            0 <= j < spec_mappings(s).len() implies exists|i: int|
            0 <= i < s.len() && (#[trigger] spec_mappings(s)[j]).0 == s[i].0@ by {
            if j < blk.len() {
                assert(spec_mappings(s)[j] == blk[j]);
                assert(spec_mappings(s)[j].0 == s[0].0@);
            } else {
                let j2 = j - blk.len();
                assert(spec_mappings(s)[j] == rest[j2]);
                let i2 = choose|i2: int|
                    0 <= i2 < s.drop_first().len() && (#[trigger] rest[j2]).0
                        == s.drop_first()[i2].0@;
                assert(s.drop_first()[i2] == s[i2 + 1]);
                assert(spec_mappings(s)[j].0 == s[i2 + 1].0@);
            }
        }
    }
}

/// The law of sorted flattening: over entries whose keys ascend, the
/// flattened mappings come in non-decreasing key order. This covers the
/// flattened iteration and every key-range output of a sorted multi-map.
pub proof fn lemma_spec_mappings_sorted<K: OrderedKey, S: SetStore>(s: Seq<(K, S)>)
    requires
        crate::store::sorted_keys(s),
    ensures
        forall|p: int, q: int|
            0 <= p < q < spec_mappings(s).len() ==> K::le_model(
                (#[trigger] spec_mappings(s)[p]).0,
                (#[trigger] spec_mappings(s)[q]).0,
            ),
    decreases s.len(),
{
    if s.len() > 0 {
        let t = s.drop_first();
        assert(forall|i: int| 0 <= i < t.len() ==> #[trigger] t[i] == s[i + 1]);
        lemma_spec_mappings_sorted(t);
        lemma_spec_mappings_keys(t);
        let blk = entry_pairs(s[0]);
        let rest = spec_mappings(t);
        assert forall|p: int, q: int|
            0 <= p < q < spec_mappings(s).len() implies K::le_model(
            (#[trigger] spec_mappings(s)[p]).0,
            (#[trigger] spec_mappings(s)[q]).0,
        ) by {
            let kp = spec_mappings(s)[p].0;
            let kq = spec_mappings(s)[q].0;
            if p < blk.len() && q < blk.len() {
                assert(kp == s[0].0@ && kq == s[0].0@);
                K::le_reflexive(kp);
            } else if p < blk.len() {
                assert(kp == s[0].0@);
                assert(spec_mappings(s)[q] == rest[q - blk.len()]);
                let i2 = choose|i2: int|
                    0 <= i2 < t.len() && (#[trigger] rest[q - blk.len()]).0 == t[i2].0@;
                if s.len() == 1 {
                    assert(rest.len() == 0);
                } else {
                    assert(kq == s[i2 + 1].0@);
                    assert(K::le_model(s[0].0@, s[i2 + 1].0@));
                }
            } else {
                assert(spec_mappings(s)[p] == rest[p - blk.len()]);
                assert(spec_mappings(s)[q] == rest[q - blk.len()]);
            }
        }
    }
}

/// Keeps the pairs whose key model lies between the two boundaries.
pub open spec fn pair_within<K: OrderedKey, EM>(lo: KeyBound<K>, hi: KeyBound<K>) -> spec_fn(
    (<K as View>::V, EM),
) -> bool {
    |q: (<K as View>::V, EM)| crate::store::within_bounds::<K>(q.0, lo, hi)
}

/// A filter that accepts every member keeps the sequence whole.
pub proof fn lemma_filter_all_true<A>(s: Seq<A>, pred: spec_fn(A) -> bool)
    requires
        forall|i: int| 0 <= i < s.len() ==> pred(#[trigger] s[i]),
    ensures
        s.filter(pred) == s,
    decreases s.len(),
{
    reveal(Seq::filter);
    if s.len() != 0 {
        lemma_filter_all_true(s.drop_last(), pred);
        assert(s.drop_last().push(s.last()) =~= s);
    }
}

/// A filter that rejects every member leaves nothing.
pub proof fn lemma_filter_all_false<A>(s: Seq<A>, pred: spec_fn(A) -> bool)
    requires
        forall|i: int| 0 <= i < s.len() ==> !pred(#[trigger] s[i]),
    ensures
        s.filter(pred) == Seq::<A>::empty(),
    decreases s.len(),
{
    reveal(Seq::filter);
    if s.len() != 0 {
        lemma_filter_all_false(s.drop_last(), pred);
    }
}

/// The law of key ranges: flattening the entries within two boundaries
/// yields exactly those of all the flattened mappings whose key lies
/// between the boundaries, in their original order.
pub proof fn lemma_mappings_within_is_filter<K: OrderedKey, S: SetStore>(
    s: Seq<(K, S)>,
    lo: KeyBound<K>,
    hi: KeyBound<K>,
)
    ensures
        spec_mappings(entries_within(s, lo, hi)) == spec_mappings(s).filter(
            pair_within::<K, <<S as SetStore>::Elem as View>::V>(lo, hi),
        ),
    decreases s.len(),
{
    let pred = pair_within::<K, <<S as SetStore>::Elem as View>::V>(lo, hi);
    if s.len() == 0 {
        reveal(Seq::filter);
        assert(spec_mappings(s) == Seq::<
            (<K as View>::V, <<S as SetStore>::Elem as View>::V),
        >::empty());
        assert(entries_within(s, lo, hi) == Seq::<(K, S)>::empty());
    } else {
        let t = s.drop_first();
        lemma_mappings_within_is_filter(t, lo, hi);
        Seq::filter_distributes_over_add(entry_pairs(s[0]), spec_mappings(t), pred);
        if crate::store::within_bounds::<K>(s[0].0@, lo, hi) {
            assert forall|i: int|
                0 <= i < entry_pairs(s[0]).len() implies pred(
                #[trigger] entry_pairs(s[0])[i],
            ) by {
                assert(entry_pairs(s[0])[i].0 == s[0].0@);
            }
            lemma_filter_all_true(entry_pairs(s[0]), pred);
            let w = seq![s[0]] + entries_within(t, lo, hi);
            assert(entries_within(s, lo, hi) == w);
            assert(w[0] == s[0]);
            assert(w.drop_first() =~= entries_within(t, lo, hi));
            assert(spec_mappings(w) == entry_pairs(s[0]) + spec_mappings(
                entries_within(t, lo, hi),
            ));
        } else {
            assert forall|i: int|
                0 <= i < entry_pairs(s[0]).len() implies !pred(
                #[trigger] entry_pairs(s[0])[i],
            ) by {
                assert(entry_pairs(s[0])[i].0 == s[0].0@);
            }
            lemma_filter_all_false(entry_pairs(s[0]), pred);
            assert(Seq::<(<K as View>::V, <<S as SetStore>::Elem as View>::V)>::empty()
                + spec_mappings(entries_within(t, lo, hi)) =~= spec_mappings(
                entries_within(t, lo, hi),
            ));
        }
    }
}

/// The law of redundant insertion: after a mapping is added, it is held;
/// adding it again changes nothing. Together with the contract of
/// insertion this says that a second identical insert returns `false` and
/// leaves the number of mappings unchanged.
pub proof fn lemma_redundant_insert<KM, EM>(m: Map<KM, Set<EM>>, k: KM, v: EM)
    ensures
        mm_contains_pair(mm_add_pair(m, k, v), k, v),
        mm_add_pair(mm_add_pair(m, k, v), k, v) == mm_add_pair(m, k, v),
{
    let m1 = mm_add_pair(m, k, v);
    assert(m1.dom().contains(k));
    assert(m1[k].contains(v));
    assert(m1[k].insert(v) =~= m1[k]);
    assert(mm_add_pair(m1, k, v) =~= m1);
}

/// A multi-map from keys to values, wrapping a map store `M` whose values
/// are set stores.
///
/// The wrapper maintains two invariants: its running `length` counter
/// equals the total number of `(key, value)` mappings, and no key is ever
/// associated with an empty value set. Value sets are readable but never
/// handed out mutably, so only the operations here can change them.
pub struct MultiMap<M> {
    map: M,
    length: usize,
}

impl<M> MultiMap<M> where M: MapStore, M::Val: SetStore {
    /// The wrapped map store.
    pub closed spec fn spec_map(self) -> M {
        self.map
    }

    /// The running mapping counter.
    pub closed spec fn spec_length(self) -> usize {
        self.length
    }

    /// The entries of the wrapped store, in its iteration order.
    pub open spec fn entries(self) -> Seq<(M::Key, M::Val)> {
        self.spec_map().entries()
    }

    /// The number of mappings, as the counter reports it.
    pub open spec fn spec_num_mappings(self) -> nat {
        self.spec_length() as nat
    }

    /// The invariant of the wrapper: the wrapped store is well formed, so
    /// is every value set, no value set is empty, and the counter equals
    /// the true number of mappings.
    pub open spec fn inv(self) -> bool {
        &&& self.spec_map().inv()
        &&& forall|i: int|
            0 <= i < self.entries().len() ==> (#[trigger] self.entries()[i]).1.inv()
        &&& forall|i: int|
            0 <= i < self.entries().len() ==> (#[trigger] self.entries()[i]).1.elems().len() > 0
        &&& self.spec_length() as nat == total_mappings(self.entries())
    }

    /// What the multi-map holds, as a map from key models to sets of value
    /// models.
    pub open spec fn model(self) -> Map<
        <M::Key as View>::V,
        Set<<<M::Val as SetStore>::Elem as View>::V>,
    > {
        Map::new(
            |km: <M::Key as View>::V| has_key(self.entries(), km),
            |km: <M::Key as View>::V| elem_model_set(value_of(self.entries(), km).elems()),
        )
    }

    /// Creates a new, empty multi-map.
    pub fn new() -> (r: Self)
        ensures
            r.inv(),
            r.entries().len() == 0,
            r.model() == Map::<
                <M::Key as View>::V,
                Set<<<M::Val as SetStore>::Elem as View>::V>,
            >::empty(),
            r.spec_num_mappings() == 0,
    {
        let r = MultiMap { map: M::empty(), length: 0 };
        proof {
            assert(set_sizes(r.entries()) =~= Seq::<nat>::empty());
            assert(r.model() =~= Map::<
                <M::Key as View>::V,
                Set<<<M::Val as SetStore>::Elem as View>::V>,
            >::empty());
        }
        r
    }

    /// Inserts a `(key, value)` mapping. Returns `true` if it was not
    /// already present; a present mapping leaves the multi-map unchanged.
    pub fn insert(&mut self, key: M::Key, value: <M::Val as SetStore>::Elem) -> (r: bool)
        requires
            old(self).inv(),
            // The counter can only grow when the mapping is new.
            old(self).spec_length() < usize::MAX || mm_contains_pair(
                old(self).model(),
                key@,
                value@,
            ),
        ensures
            final(self).inv(),
            r == !mm_contains_pair(old(self).model(), key@, value@),
            final(self).model() == mm_add_pair(old(self).model(), key@, value@),
            final(self).spec_num_mappings() == old(self).spec_num_mappings() + (
            if r {
                1nat
            } else {
                0nat
            }),
    {
        let set = self.map.get_or_insert(key, <M::Val as SetStore>::empty());
        let added = set.insert(value);
        proof {
            let s0 = old(self).entries();
            let s1 = self.entries();
            if has_key(s0, key@) {
                let i = index_of_key(s0, key@);
                lemma_index_of_key(s0, key@);
                let vs0 = s0[i].1;
                let vs1 = s1[i].1;
                old(self).spec_map().inv_distinct();
                lemma_update_entry(s0, i, (s0[i].0, vs1));
                assert(s1 == s0.update(i, (s0[i].0, vs1)));
                vs0.inv_distinct();
                lemma_elem_model_set_contains(vs0.elems());
                assert(added == !mm_contains_pair(old(self).model(), key@, value@));
                if added {
                    let j = choose|j: int|
                        0 <= j <= vs0.elems().len() && vs1.elems() == vs0.elems().insert(
                            j,
                            value,
                        );
                    lemma_insert_elem(vs0.elems(), j, value);
                }
                assert(set_sizes(s1) =~= set_sizes(s0).update(i, vs1.elems().len()));
                lemma_nat_sum_update(set_sizes(s0), i, vs1.elems().len());
                assert(self.model() =~~= mm_add_pair(old(self).model(), key@, value@));
            } else {
                let i = choose|i: int|
                    0 <= i <= s0.len() && s1 == s0.insert(i, (key, s1[i].1));
                assert(s1 == s0.insert(i, (key, s1[i].1)));
                let vs1 = s1[i].1;
                assert(vs1.elems() == Seq::<<M::Val as SetStore>::Elem>::empty().insert(
                    0,
                    value,
                ));
                assert(vs1.elems().len() == 1);
                assert(vs1.elems()[0] == value);
                old(self).spec_map().inv_distinct();
                lemma_insert_entry(s0, i, (key, vs1));
                assert(added);
                lemma_insert_elem(Seq::<<M::Val as SetStore>::Elem>::empty(), 0, value);
                assert(elem_model_set(vs1.elems()) == elem_model_set(
                    Seq::<<M::Val as SetStore>::Elem>::empty(),
                ).insert(value@));
                assert(elem_model_set(Seq::<<M::Val as SetStore>::Elem>::empty()) =~= Set::<
                    <<M::Val as SetStore>::Elem as View>::V,
                >::empty());
                assert(set_sizes(s1) =~= set_sizes(s0).insert(i, vs1.elems().len()));
                lemma_nat_sum_insert(set_sizes(s0), i, vs1.elems().len());
                assert(self.model() =~~= mm_add_pair(old(self).model(), key@, value@));
            }
        }
        if added {
            self.length = self.length + 1;
        }
        added
    }
}

impl<M> MultiMap<M> where M: MapStore, M::Val: SetStore {
    /// Returns `true` if the multi-map holds no mapping. Because no key
    /// keeps an empty value set, an empty wrapped store means an empty
    /// multi-map.
    pub fn is_empty(&self) -> (r: bool)
        requires
            self.inv(),
        ensures
            r == (self.entries().len() == 0),
            r == (self.spec_num_mappings() == 0),
    {
        proof {
            if self.entries().len() > 0 {
                lemma_nat_sum_member(set_sizes(self.entries()), 0);
            }
        }
        self.map.is_empty()
    }

    /// Returns the number of keys that hold at least one mapping.
    pub fn num_keys(&self) -> (r: usize)
        requires
            self.inv(),
        ensures
            r == self.entries().len(),
    {
        self.map.len()
    }

    /// Returns the number of `(key, value)` mappings, over all keys. This
    /// reads the maintained counter, it sums nothing.
    pub fn num_mappings(&self) -> (r: usize)
        requires
            self.inv(),
        ensures
            r as nat == self.spec_num_mappings(),
            r as nat == total_mappings(self.entries()),
    {
        self.length
    }

    /// Returns the keys, in the wrapped store's iteration order.
    pub fn keys(&self) -> (r: Vec<M::Key>)
        requires
            self.inv(),
        ensures
            r@.len() == self.entries().len(),
            forall|i: int| 0 <= i < r@.len() ==> (#[trigger] r@[i])@ == self.entries()[i].0@,
    {
        let n = self.map.len();
        let mut r: Vec<M::Key> = Vec::new();
        let mut i: usize = 0;
        while i < n
            invariant
                self.inv(),
                n == self.entries().len(),
                i <= n,
                r@.len() == i,
                forall|j: int| 0 <= j < i ==> (#[trigger] r@[j])@ == self.entries()[j].0@,
            decreases n - i,
        {
            r.push(self.map.key_at(i).dup());
            i = i + 1;
        }
        r
    }

    /// Returns each key with its values, in the wrapped store's iteration
    /// order; each value set is read out in its own order.
    pub fn value_sets(&self) -> (r: Vec<(M::Key, Vec<<M::Val as SetStore>::Elem>)>)
        requires
            self.inv(),
        ensures
            r@.len() == self.entries().len(),
            forall|i: int|
                0 <= i < r@.len() ==> (#[trigger] r@[i]).0@ == self.entries()[i].0@
                    && elem_models(r@[i].1@) == elem_models(self.entries()[i].1.elems()),
    {
        let n = self.map.len();
        let mut r: Vec<(M::Key, Vec<<M::Val as SetStore>::Elem>)> = Vec::new();
        let mut i: usize = 0;
        while i < n
            invariant
                self.inv(),
                n == self.entries().len(),
                i <= n,
                r@.len() == i,
                forall|j: int|
                    0 <= j < i ==> (#[trigger] r@[j]).0@ == self.entries()[j].0@
                        && elem_models(r@[j].1@) == elem_models(self.entries()[j].1.elems()),
            decreases n - i,
        {
            let k = self.map.key_at(i).dup();
            let vs = elems_vec(self.map.val_at(i));
            r.push((k, vs));
            i = i + 1;
        }
        r
    }

    /// Returns every `(key, value)` mapping, flattened: the keys in the
    /// wrapped store's iteration order, each repeated once per value in its
    /// set's order.
    pub fn mappings(&self) -> (r: Vec<(M::Key, <M::Val as SetStore>::Elem)>)
        requires
            self.inv(),
        ensures
            pair_models(r@) == spec_mappings(self.entries()),
            r@.len() as nat == self.spec_num_mappings(),
    {
        let n = self.map.len();
        let mut r: Vec<(M::Key, <M::Val as SetStore>::Elem)> = Vec::new();
        let mut i: usize = 0;
        while i < n
            invariant
                self.inv(),
                n == self.entries().len(),
                i <= n,
                pair_models(r@) == spec_mappings(self.entries().subrange(0, i as int)),
            decreases n - i,
        {
            let k = self.map.key_at(i);
            let s = self.map.val_at(i);
            let m = s.len();
            let mut j: usize = 0;
            while j < m
                invariant
                    self.inv(),
                    n == self.entries().len(),
                    i < n,
                    m == self.entries()[i as int].1.elems().len(),
                    *s == self.entries()[i as int].1,
                    *k == self.entries()[i as int].0,
                    j <= m,
                    pair_models(r@) == spec_mappings(self.entries().subrange(0, i as int))
                        + entry_pairs(self.entries()[i as int]).subrange(0, j as int),
                decreases m - j,
            {
                let e = s.elem_at(j).dup();
                let kd = k.dup();
                proof {
                    assert(entry_pairs(self.entries()[i as int])[j as int] == (kd@, e@));
                }
                let ghost r0 = r@;
                r.push((kd, e));
                proof {
                    let q = r@[r0.len() as int];
                    lemma_pair_models_push(r0, q);
                    lemma_push_add_subrange(
                        spec_mappings(self.entries().subrange(0, i as int)),
                        entry_pairs(self.entries()[i as int]),
                        j as int,
                    );
                }
                j = j + 1;
            }
            proof {
                let pre = self.entries().subrange(0, i as int);
                lemma_spec_mappings_push(pre, self.entries()[i as int]);
                assert(pre.push(self.entries()[i as int]) =~= self.entries().subrange(
                    0,
                    i as int + 1,
                ));
                assert(entry_pairs(self.entries()[i as int]).subrange(
                    0,
                    m as int,
                ) =~= entry_pairs(self.entries()[i as int]));
            }
            i = i + 1;
        }
        proof {
            assert(self.entries().subrange(0, n as int) =~= self.entries());
            lemma_spec_mappings_len(self.entries());
        }
        r
    }
}

/// The abstract multi-map `m` with a whole sequence of mappings added,
/// first to last.
pub open spec fn mm_add_all<KM, EM>(m: Map<KM, Set<EM>>, items: Seq<(KM, EM)>) -> Map<
    KM,
    Set<EM>,
>
    decreases items.len(),
{
    if items.len() == 0 {
        m
    } else {
        mm_add_all(mm_add_pair(m, items[0].0, items[0].1), items.drop_first())
    }
}

impl<M> MultiMap<M> where M: MapStore, M::Val: SetStore {
    /// Inserts every `(key, value)` pair of the vector in order, exactly
    /// as the same sequence of single insertions would.
    pub fn extend_entries(&mut self, items: Vec<(M::Key, <M::Val as SetStore>::Elem)>)
        requires
            old(self).inv(),
            old(self).spec_num_mappings() + items@.len() <= usize::MAX,
        ensures
            final(self).inv(),
            final(self).model() == mm_add_all(old(self).model(), pair_models(items@)),
            final(self).spec_num_mappings() <= old(self).spec_num_mappings() + items@.len(),
    {
        let ghost items_init = items@;
        let mut items = items;
        while items.len() > 0
            invariant
                self.inv(),
                self.spec_num_mappings() + items@.len() <= usize::MAX,
                mm_add_all(self.model(), pair_models(items@)) == mm_add_all(
                    old(self).model(),
                    pair_models(items_init),
                ),
                self.spec_num_mappings() + items@.len() <= old(self).spec_num_mappings()
                    + items_init.len(),
            decreases items@.len(),
        {
            let ghost items0 = items@;
            let (k, v) = items.remove(0);
            proof {
                assert(items@ =~= items0.drop_first());
                assert(pair_models(items0)[0] == (k@, v@));
                assert(pair_models(items0).drop_first() =~= pair_models(items0.drop_first()));
            }
            self.insert(k, v);
        }
        proof {
            assert(pair_models(items@) =~= Seq::<
                (<M::Key as View>::V, <<M::Val as SetStore>::Elem as View>::V),
            >::empty());
        }
    }

    /// Builds a multi-map holding exactly the pairs of the vector, as a
    /// fresh multi-map extended by them would.
    pub fn from_entries(items: Vec<(M::Key, <M::Val as SetStore>::Elem)>) -> (r: Self)
        requires
            items@.len() <= usize::MAX,
        ensures
            r.inv(),
            r.model() == mm_add_all(
                Map::<<M::Key as View>::V, Set<<<M::Val as SetStore>::Elem as View>::V>>::empty(),
                pair_models(items@),
            ),
    {
        let mut r = MultiMap::new();
        r.extend_entries(items);
        r
    }
}

impl<M> Default for MultiMap<M> where M: MapStore, M::Val: SetStore {
    /// Creates a new, empty multi-map.
    fn default() -> (r: Self)
        ensures
            r.inv(),
            r.entries().len() == 0,
            r.spec_num_mappings() == 0,
    {
        MultiMap::new()
    }
}

impl<M> MultiMap<M> where M: Lookup, M::Val: SetStore {
    /// Returns `true` if the multi-map holds any mapping with the given
    /// key.
    pub fn contains_key(&self, key: &M::Key) -> (r: bool)
        requires
            self.inv(),
        ensures
            r == self.model().dom().contains(key@),
    {
        self.map.contains_key(key)
    }

    /// Returns the set of values for the given key, if there are any. A
    /// returned set is never empty, and it can only be read, never
    /// changed.
    pub fn get(&self, key: &M::Key) -> (r: Option<&M::Val>)
        requires
            self.inv(),
        ensures
            match r {
                Some(s) => {
                    &&& self.model().dom().contains(key@)
                    &&& *s == value_of(self.entries(), key@)
                    &&& s.inv()
                    &&& s.elems().len() > 0
                    &&& elem_model_set(s.elems()) == self.model()[key@]
                },
                None => !self.model().dom().contains(key@),
            },
    {
        let r = self.map.get(key);
        proof {
            if has_key(self.entries(), key@) {
                self.spec_map().inv_distinct();
                lemma_index_of_key(self.entries(), key@);
            }
        }
        r
    }

    /// Returns `true` if the multi-map holds the given `(key, value)`
    /// mapping.
    pub fn contains(&self, key: &M::Key, value: &<M::Val as SetStore>::Elem) -> (r: bool)
        where
            M::Val: Container,
        requires
            self.inv(),
        ensures
            r == mm_contains_pair(self.model(), key@, value@),
    {
        match self.map.get(key) {
            Some(set) => {
                proof {
                    self.spec_map().inv_distinct();
                    lemma_index_of_key(self.entries(), key@);
                    set.inv_distinct();
                    lemma_elem_model_set_contains(set.elems());
                }
                set.contains(value)
            },
            None => false,
        }
    }

    /// Removes every mapping with the given key. Returns the removed set
    /// of values, if the key was present.
    pub fn remove_key(&mut self, key: &M::Key) -> (r: Option<M::Val>)
        requires
            old(self).inv(),
        ensures
            final(self).inv(),
            match r {
                Some(s) => {
                    &&& old(self).model().dom().contains(key@)
                    &&& s == value_of(old(self).entries(), key@)
                    &&& s.inv()
                    &&& s.elems().len() > 0
                    &&& elem_model_set(s.elems()) == old(self).model()[key@]
                    &&& final(self).model() == old(self).model().remove(key@)
                    &&& final(self).spec_num_mappings() == old(self).spec_num_mappings()
                        - s.elems().len()
                },
                None => {
                    &&& !old(self).model().dom().contains(key@)
                    &&& final(self).model() == old(self).model()
                    &&& final(self).spec_num_mappings() == old(self).spec_num_mappings()
                },
            },
    {
        match self.map.remove(key) {
            Some(s) => {
                let n = s.len();
                proof {
                    let s0 = old(self).entries();
                    let i = index_of_key(s0, key@);
                    lemma_index_of_key(s0, key@);
                    old(self).spec_map().inv_distinct();
                    lemma_remove_entry(s0, i);
                    assert(set_sizes(self.entries()) =~= set_sizes(s0).remove(i));
                    lemma_nat_sum_remove(set_sizes(s0), i);
                    lemma_nat_sum_member(set_sizes(s0), i);
                    assert(self.model() =~~= old(self).model().remove(key@));
                }
                self.length = self.length - n;
                Some(s)
            },
            None => {
                proof {
                    assert(self.model() =~~= old(self).model());
                }
                None
            },
        }
    }

    /// Removes a `(key, value)` mapping. Returns `true` if it was present.
    /// A key whose last value is removed leaves the multi-map entirely.
    pub fn remove(&mut self, key: &M::Key, value: &<M::Val as SetStore>::Elem) -> (r: bool)
        where
            M::Val: Container,
        requires
            old(self).inv(),
        ensures
            final(self).inv(),
            r == mm_contains_pair(old(self).model(), key@, value@),
            final(self).model() == mm_remove_pair(old(self).model(), key@, value@),
            final(self).spec_num_mappings() == old(self).spec_num_mappings() - (
            if r {
                1nat
            } else {
                0nat
            }),
    {
        let (removed, emptied): (bool, bool) = match self.map.get_mut(key) {
            Some(set) => {
                let rem = set.remove(value);
                let emp = set.is_empty();
                (rem, emp)
            },
            None => (false, false),
        };
        proof {
            let s0 = old(self).entries();
            let s1 = self.entries();
            old(self).spec_map().inv_distinct();
            if has_key(s0, key@) {
                let i = index_of_key(s0, key@);
                lemma_index_of_key(s0, key@);
                let vs0 = s0[i].1;
                let vs1 = s1[i].1;
                vs0.inv_distinct();
                lemma_elem_model_set_contains(vs0.elems());
                lemma_update_entry(s0, i, (s0[i].0, vs1));
                assert(s1 == s0.update(i, (s0[i].0, vs1)));
                assert(removed == mm_contains_pair(old(self).model(), key@, value@));
                if removed {
                    let j = index_of_elem(vs0.elems(), value@);
                    lemma_index_of_elem(vs0.elems(), value@);
                    lemma_remove_elem(vs0.elems(), j);
                    lemma_elem_model_set_len(vs1.elems());
                    assert(set_sizes(s1) =~= set_sizes(s0).update(i, vs1.elems().len()));
                    lemma_nat_sum_update(set_sizes(s0), i, vs1.elems().len());
                    lemma_nat_sum_member(set_sizes(s0), i);
                } else {
                    assert(vs1.elems() == vs0.elems());
                    assert(set_sizes(s1) =~= set_sizes(s0));
                    assert(self.model() =~~= old(self).model());
                }
            } else {
                assert(!removed);
                assert(self.model() =~~= old(self).model());
            }
        }
        if removed {
            proof {
                let s0 = old(self).entries();
                let i = index_of_key(s0, key@);
                let vs0 = s0[i].1;
                let vs1 = self.entries()[i].1;
                lemma_elem_model_set_len(vs0.elems());
                lemma_elem_model_set_len(vs1.elems());
                if !emptied {
                    // The shrunken set's model is still inhabited, so the
                    // removed pair's key stays with the rest of its set.
                    lemma_elem_model_set_contains(vs1.elems());
                    assert(has_elem(vs1.elems(), vs1.elems()[0]@));
                    assert(old(self).model()[key@].remove(value@).contains(vs1.elems()[0]@));
                    assert(self.model() =~~= mm_remove_pair(
                        old(self).model(),
                        key@,
                        value@,
                    ));
                }
            }
            self.length = self.length - 1;
            if emptied {
                let ghost s_mid = self.entries();
                proof {
                    // The emptied set's model is the empty set, so the key
                    // leaves with its last value.
                    let s0 = old(self).entries();
                    let i = index_of_key(s0, key@);
                    assert(s_mid[i].1.elems().len() == 0);
                    lemma_elem_model_set_len(s_mid[i].1.elems());
                    assert(old(self).model()[key@].remove(value@) =~= Set::<
                        <<M::Val as SetStore>::Elem as View>::V,
                    >::empty());
                    crate::store::lemma_key_at_index(s_mid, i);
                }
                let _ = self.map.remove(key);
                proof {
                    let s0 = old(self).entries();
                    let i = index_of_key(s0, key@);
                    lemma_remove_entry(s_mid, i);
                    assert(self.entries() == s_mid.remove(i));
                    assert(set_sizes(self.entries()) =~= set_sizes(s_mid).remove(i));
                    lemma_nat_sum_remove(set_sizes(s_mid), i);
                    assert(set_sizes(s_mid)[i] == 0);
                    assert(self.model() =~~= old(self).model().remove(key@));
                }
            }
        }
        removed
    }
}

impl<M> MultiMap<M> where M: SortedMap, M::Key: OrderedKey, M::Val: SetStore {
    /// Returns each key within the given boundaries with its values, in
    /// ascending key order. Only a multi-map over a sorted backend offers
    /// this.
    pub fn value_sets_in_range(&self, lo: &KeyBound<M::Key>, hi: &KeyBound<M::Key>) -> (r: Vec<
        (M::Key, Vec<<M::Val as SetStore>::Elem>),
    >)
        requires
            self.inv(),
        ensures
            ({
                let w = entries_within(self.entries(), *lo, *hi);
                &&& r@.len() == w.len()
                &&& forall|i: int|
                    0 <= i < r@.len() ==> (#[trigger] r@[i]).0@ == w[i].0@ && elem_models(
                        r@[i].1@,
                    ) == elem_models(w[i].1.elems())
            }),
    {
        let (a, b) = self.map.range_indexes(lo, hi);
        proof {
            self.spec_map().inv_sorted();
            lemma_entries_within_subrange(self.entries(), *lo, *hi, a as int, b as int);
        }
        let mut r: Vec<(M::Key, Vec<<M::Val as SetStore>::Elem>)> = Vec::new();
        let mut i: usize = a;
        while i < b
            invariant
                self.inv(),
                a <= i <= b <= self.entries().len(),
                r@.len() == i - a,
                forall|j: int|
                    0 <= j < r@.len() ==> (#[trigger] r@[j]).0@ == self.entries()[a + j].0@
                        && elem_models(r@[j].1@) == elem_models(
                        self.entries()[a + j].1.elems(),
                    ),
            decreases b - i,
        {
            let k = self.map.key_at(i).dup();
            let vs = elems_vec(self.map.val_at(i));
            r.push((k, vs));
            i = i + 1;
        }
        r
    }

    /// Returns every `(key, value)` mapping whose key lies within the
    /// given boundaries, flattened, in ascending key order.
    pub fn mappings_in_range(&self, lo: &KeyBound<M::Key>, hi: &KeyBound<M::Key>) -> (r: Vec<
        (M::Key, <M::Val as SetStore>::Elem),
    >)
        requires
            self.inv(),
        ensures
            pair_models(r@) == spec_mappings(entries_within(self.entries(), *lo, *hi)),
    {
        let (a, b) = self.map.range_indexes(lo, hi);
        proof {
            self.spec_map().inv_sorted();
            lemma_entries_within_subrange(self.entries(), *lo, *hi, a as int, b as int);
            assert(self.entries().subrange(a as int, a as int) =~= Seq::<
                (M::Key, M::Val),
            >::empty());
        }
        let mut r: Vec<(M::Key, <M::Val as SetStore>::Elem)> = Vec::new();
        let mut i: usize = a;
        while i < b
            invariant
                self.inv(),
                a <= i <= b <= self.entries().len(),
                pair_models(r@) == spec_mappings(self.entries().subrange(a as int, i as int)),
            decreases b - i,
        {
            let k = self.map.key_at(i);
            let s = self.map.val_at(i);
            let m = s.len();
            let mut j: usize = 0;
            while j < m
                invariant
                    self.inv(),
                    a <= i < b <= self.entries().len(),
                    m == self.entries()[i as int].1.elems().len(),
                    *s == self.entries()[i as int].1,
                    *k == self.entries()[i as int].0,
                    j <= m,
                    pair_models(r@) == spec_mappings(
                        self.entries().subrange(a as int, i as int),
                    ) + entry_pairs(self.entries()[i as int]).subrange(0, j as int),
                decreases m - j,
            {
                let e = s.elem_at(j).dup();
                let kd = k.dup();
                proof {
                    assert(entry_pairs(self.entries()[i as int])[j as int] == (kd@, e@));
                }
                let ghost r0 = r@;
                r.push((kd, e));
                proof {
                    let q = r@[r0.len() as int];
                    lemma_pair_models_push(r0, q);
                    lemma_push_add_subrange(
                        spec_mappings(self.entries().subrange(a as int, i as int)),
                        entry_pairs(self.entries()[i as int]),
                        j as int,
                    );
                }
                j = j + 1;
            }
            proof {
                let pre = self.entries().subrange(a as int, i as int);
                lemma_spec_mappings_push(pre, self.entries()[i as int]);
                assert(pre.push(self.entries()[i as int]) =~= self.entries().subrange(
                    a as int,
                    i as int + 1,
                ));
                assert(entry_pairs(self.entries()[i as int]).subrange(
                    0,
                    m as int,
                ) =~= entry_pairs(self.entries()[i as int]));
            }
            i = i + 1;
        }
        r
    }
}

impl<M> MultiMap<M> where M: MapStore, M::Val: SetStore {
    /// The counting law: the number a multi-map reports equals the number
    /// of `(key, value)` pairs that flattening its value sets yields.
    pub proof fn lemma_len_is_flattened_count(self)
        requires
            self.inv(),
        ensures
            self.spec_num_mappings() == spec_mappings(self.entries()).len(),
    {
        lemma_spec_mappings_len(self.entries());
    }

    /// The pruning law: every key a multi-map holds maps to at least one
    /// value. A key whose last value leaves disappears at once, so no
    /// lookup ever sees it again.
    pub proof fn lemma_no_empty_value_sets(self)
        requires
            self.inv(),
        ensures
            forall|km: <M::Key as View>::V|
                self.model().dom().contains(km) ==> (#[trigger] self.model()[km]).len() > 0,
    {
        assert forall|km: <M::Key as View>::V|
            self.model().dom().contains(km) implies (#[trigger] self.model()[km]).len()
            > 0 by {
            let i = index_of_key(self.entries(), km);
            lemma_index_of_key(self.entries(), km);
            self.spec_map().inv_distinct();
            crate::store::lemma_key_at_index(self.entries(), i);
            self.entries()[i].1.inv_distinct();
            lemma_elem_model_set_len(self.entries()[i].1.elems());
        }
    }

    /// The key-counting law: the number of keys a multi-map reports is
    /// the size of its model's domain.
    pub proof fn lemma_num_keys_is_dom_size(self)
        requires
            self.inv(),
        ensures
            self.model().dom().finite(),
            self.model().dom().len() == self.entries().len(),
    {
        let keys = crate::store::key_models(self.entries());
        self.spec_map().inv_distinct();
        assert forall|m: <M::Key as View>::V|
            #[trigger] self.model().dom().contains(m) == keys.to_set().contains(m) by {
            if has_key(self.entries(), m) {
                let i = index_of_key(self.entries(), m);
                lemma_index_of_key(self.entries(), m);
                assert(keys[i] == m);
            }
            if keys.to_set().contains(m) {
                let i = choose|i: int| 0 <= i < keys.len() && keys[i] == m;
                assert(self.entries()[i].0@ == m);
            }
        }
        assert(self.model().dom() =~= keys.to_set());
        assert(keys.no_duplicates()) by {
            assert forall|a: int, b: int|
                0 <= a < b < keys.len() implies keys[a] != keys[b] by {
                assert(self.entries()[a].0@ != self.entries()[b].0@);
            }
        }
        keys.unique_seq_to_set();
    }

    /// The borrowed-key law: every lookup of this multi-map is stated over
    /// the key's model alone, so any two keys with one model — an owned
    /// key and a fresh copy of it, say — see the same answer.
    pub proof fn lemma_lookup_by_model(self, k1: &M::Key, k2: &M::Key)
        requires
            k1@ == k2@,
        ensures
            self.model().dom().contains(k1@) == self.model().dom().contains(k2@),
            self.model().dom().contains(k1@) ==> self.model()[k1@] == self.model()[k2@],
    {
    }
}

impl<M> MultiMap<M> where M: SortedMap, M::Key: OrderedKey, M::Val: SetStore {
    /// The order law of a sorted multi-map: its keys ascend strictly, and
    /// its flattened mappings come in non-decreasing key order.
    pub proof fn lemma_iteration_sorted(self)
        requires
            self.inv(),
        ensures
            crate::store::sorted_keys(self.entries()),
            forall|p: int, q: int|
                0 <= p < q < spec_mappings(self.entries()).len() ==> <M::Key as OrderedKey>::le_model(
                    (#[trigger] spec_mappings(self.entries())[p]).0,
                    (#[trigger] spec_mappings(self.entries())[q]).0,
                ),
    {
        self.spec_map().inv_sorted();
        lemma_spec_mappings_sorted(self.entries());
    }

    /// The range law of a sorted multi-map: the mappings within two
    /// boundaries are exactly those of all its mappings whose key lies
    /// between the boundaries, in their original order.
    pub proof fn lemma_range_is_filter(self, lo: KeyBound<M::Key>, hi: KeyBound<M::Key>)
        requires
            self.inv(),
        ensures
            spec_mappings(entries_within(self.entries(), lo, hi)) == spec_mappings(
                self.entries(),
            ).filter(pair_within::<M::Key, <<M::Val as SetStore>::Elem as View>::V>(lo, hi)),
    {
        lemma_mappings_within_is_filter(self.entries(), lo, hi);
    }
}

} // verus!
