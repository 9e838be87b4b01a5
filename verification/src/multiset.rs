//! A set that counts duplicates: a managed wrapper around a map store from
//! values to counts. It keeps a running total of all occurrences and never
//! leaves a value with a count of zero.

use vstd::prelude::*;
use vstd::multiset::Multiset;
use crate::keys::{OrderedKey, StoreKey};
use crate::maps::{Lookup, MapStore, SortedMap};
use crate::store::{elem_models, entries_within, has_key, index_of_key,
    lemma_entries_within_subrange, lemma_index_of_key, lemma_insert_entry, lemma_nat_sum_insert,
    lemma_nat_sum_member, lemma_nat_sum_remove, lemma_nat_sum_split, lemma_nat_sum_singleton,
    lemma_nat_sum_update, lemma_remove_entry, lemma_update_entry, nat_sum, value_of, KeyBound,
    lemma_elem_models_push, lemma_push_add_subrange};

verus! {

/// The counts of an entry sequence, in entry order.
pub open spec fn counts_of<K>(s: Seq<(K, usize)>) -> Seq<nat> {
    s.map_values(|p: (K, usize)| p.1 as nat)
}

/// The total number of occurrences an entry sequence holds: the sum of its
/// counts.
pub open spec fn total_count<K>(s: Seq<(K, usize)>) -> nat {
    nat_sum(counts_of(s))
}

/// One value's model repeated as often as its count says.
pub open spec fn repeat_value<K: StoreKey>(p: (K, usize)) -> Seq<<K as View>::V> {
    Seq::new(p.1 as nat, |j: int| p.0@)
}

/// All occurrences of an entry sequence, flattened in iteration order:
/// each value's model repeated once per occurrence.
pub open spec fn spec_occurrences<K: StoreKey>(s: Seq<(K, usize)>) -> Seq<<K as View>::V>
    decreases s.len(),
{
    if s.len() == 0 {
        Seq::empty()
    } else {
        repeat_value(s[0]) + spec_occurrences(s.drop_first())
    }
}

/// Flattening distributes over appending one entry at the back.
pub proof fn lemma_spec_occurrences_push<K: StoreKey>(s: Seq<(K, usize)>, p: (K, usize))
    ensures
        spec_occurrences(s.push(p)) == spec_occurrences(s) + repeat_value(p),
    decreases s.len(),
{
    if s.len() == 0 {
        assert(s.push(p).drop_first() =~= Seq::<(K, usize)>::empty());
        assert(spec_occurrences(Seq::<(K, usize)>::empty()) == Seq::<<K as View>::V>::empty());
        assert(s.push(p)[0] == p);
        assert(spec_occurrences(s.push(p)) =~= spec_occurrences(s) + repeat_value(p));
    } else {
        assert(s.push(p).drop_first() =~= s.drop_first().push(p));
        lemma_spec_occurrences_push(s.drop_first(), p);
        assert(repeat_value(s[0]) + (spec_occurrences(s.drop_first()) + repeat_value(p)) =~= (
        repeat_value(s[0]) + spec_occurrences(s.drop_first())) + repeat_value(p));
    }
}

/// The flattened occurrences are exactly as many as the counts add up to.
pub proof fn lemma_spec_occurrences_len<K: StoreKey>(s: Seq<(K, usize)>)
    ensures
        spec_occurrences(s).len() == total_count(s),
    decreases s.len(),
{
    if s.len() == 0 {
        assert(counts_of(s) =~= Seq::<nat>::empty());
    } else {
        lemma_spec_occurrences_len(s.drop_first());
        lemma_nat_sum_split(counts_of(s), 1);
        assert(counts_of(s).subrange(1, counts_of(s).len() as int) =~= counts_of(
            s.drop_first(),
        ));
        assert(counts_of(s).subrange(0, 1) =~= seq![s[0].1 as nat]);
        lemma_nat_sum_singleton(s[0].1 as nat);
    }
}

/// Every occurrence of a flattened occurrence sequence is the key model
/// of one of the entries.
pub proof fn lemma_spec_occurrences_keys<K: StoreKey>(s: Seq<(K, usize)>)
    ensures
        forall|j: int|
            0 <= j < spec_occurrences(s).len() ==> exists|i: int|
                0 <= i < s.len() && #[trigger] spec_occurrences(s)[j] == s[i].0@,
    decreases s.len(),
{
    if s.len() > 0 {
        lemma_spec_occurrences_keys(s.drop_first());
        let blk = repeat_value(s[0]);
        let rest = spec_occurrences(s.drop_first());
        assert forall|j: int|
            0 <= j < spec_occurrences(s).len() implies exists|i: int|
            0 <= i < s.len() && #[trigger] spec_occurrences(s)[j] == s[i].0@ by {
            if j < blk.len() {
                assert(spec_occurrences(s)[j] == s[0].0@);
            } else {
                let j2 = j - blk.len();
                assert(spec_occurrences(s)[j] == rest[j2]);
                let i2 = choose|i2: int|
                    0 <= i2 < s.drop_first().len() && #[trigger] rest[j2] == s.drop_first()[
                        i2
                    ].0@;
                assert(s.drop_first()[i2] == s[i2 + 1]);
                assert(spec_occurrences(s)[j] == s[i2 + 1].0@);
            }
        }
    }
}

/// The law of sorted flattening: over entries whose values ascend, the
/// flattened occurrences come in non-decreasing order. This covers the
/// flattened iteration and every range output of a sorted multi-set.
pub proof fn lemma_spec_occurrences_sorted<K: OrderedKey>(s: Seq<(K, usize)>)
    requires
        crate::store::sorted_keys(s),
    ensures
        forall|p: int, q: int|
            0 <= p < q < spec_occurrences(s).len() ==> K::le_model(
                #[trigger] spec_occurrences(s)[p],
                #[trigger] spec_occurrences(s)[q],
            ),
    decreases s.len(),
{
    if s.len() > 0 {
        let t = s.drop_first();
        assert(forall|i: int| 0 <= i < t.len() ==> #[trigger] t[i] == s[i + 1]);
        lemma_spec_occurrences_sorted(t);
        lemma_spec_occurrences_keys(t);
        let blk = repeat_value(s[0]);
        let rest = spec_occurrences(t);
        assert forall|p: int, q: int|
            0 <= p < q < spec_occurrences(s).len() implies K::le_model(
            #[trigger] spec_occurrences(s)[p],
            #[trigger] spec_occurrences(s)[q],
        ) by {
            let kp = spec_occurrences(s)[p];
            let kq = spec_occurrences(s)[q];
            if p < blk.len() && q < blk.len() {
                assert(kp == s[0].0@ && kq == s[0].0@);
                K::le_reflexive(kp);
            } else if p < blk.len() {
                assert(kp == s[0].0@);
                assert(spec_occurrences(s)[q] == rest[q - blk.len()]);
                let i2 = choose|i2: int|
                    0 <= i2 < t.len() && #[trigger] rest[q - blk.len()] == t[i2].0@;
                if s.len() == 1 {
                    assert(rest.len() == 0);
                } else {
                    assert(kq == s[i2 + 1].0@);
                    assert(K::le_model(s[0].0@, s[i2 + 1].0@));
                }
            } else {
                assert(spec_occurrences(s)[p] == rest[p - blk.len()]);
                assert(spec_occurrences(s)[q] == rest[q - blk.len()]);
            }
        }
    }
}

/// Keeps the value models that lie between the two boundaries.
pub open spec fn model_within<K: OrderedKey>(lo: KeyBound<K>, hi: KeyBound<K>) -> spec_fn(
    <K as View>::V,
) -> bool {
    |m: <K as View>::V| crate::store::within_bounds::<K>(m, lo, hi)
}

/// The law of value ranges: flattening the entries within two boundaries
/// yields exactly those of all the flattened occurrences that lie between
/// the boundaries, in their original order.
pub proof fn lemma_occurrences_within_is_filter<K: OrderedKey>(
    s: Seq<(K, usize)>,
    lo: KeyBound<K>,
    hi: KeyBound<K>,
)
    ensures
        spec_occurrences(entries_within(s, lo, hi)) == spec_occurrences(s).filter(
            model_within::<K>(lo, hi),
        ),
    decreases s.len(),
{
    let pred = model_within::<K>(lo, hi);
    if s.len() == 0 {
        reveal(Seq::filter);
        assert(spec_occurrences(s) == Seq::<<K as View>::V>::empty());
        assert(entries_within(s, lo, hi) == Seq::<(K, usize)>::empty());
    } else {
        let t = s.drop_first();
        lemma_occurrences_within_is_filter(t, lo, hi);
        Seq::filter_distributes_over_add(repeat_value(s[0]), spec_occurrences(t), pred);
        if crate::store::within_bounds::<K>(s[0].0@, lo, hi) {
            assert forall|i: int|
                0 <= i < repeat_value(s[0]).len() implies pred(
                #[trigger] repeat_value(s[0])[i],
            ) by {
                assert(repeat_value(s[0])[i] == s[0].0@);
            }
            crate::multimap::lemma_filter_all_true(repeat_value(s[0]), pred);
            let w = seq![s[0]] + entries_within(t, lo, hi);
            assert(entries_within(s, lo, hi) == w);
            assert(w[0] == s[0]);
            assert(w.drop_first() =~= entries_within(t, lo, hi));
            assert(spec_occurrences(w) == repeat_value(s[0]) + spec_occurrences(
                entries_within(t, lo, hi),
            ));
        } else {
            assert forall|i: int|
                0 <= i < repeat_value(s[0]).len() implies !pred(
                #[trigger] repeat_value(s[0])[i],
            ) by {
                assert(repeat_value(s[0])[i] == s[0].0@);
            }
            crate::multimap::lemma_filter_all_false(repeat_value(s[0]), pred);
            assert(Seq::<<K as View>::V>::empty() + spec_occurrences(
                entries_within(t, lo, hi),
            ) =~= spec_occurrences(entries_within(t, lo, hi)));
        }
    }
}

/// A set that allows duplicate values, wrapping a map store `M` from
/// values to their counts.
///
/// The wrapper maintains two invariants: its running `length` counter
/// equals the sum of all counts, and no value ever keeps a count of zero.
pub struct MultiSet<M> {
    map: M,
    length: usize,
}

impl<M> MultiSet<M> where M: Lookup + MapStore<Val = usize> {
    /// The wrapped map store.
    pub closed spec fn spec_map(self) -> M {
        self.map
    }

    /// The running occurrence counter.
    pub closed spec fn spec_length(self) -> usize {
        self.length
    }

    /// The entries of the wrapped store, in its iteration order.
    pub open spec fn entries(self) -> Seq<(M::Key, usize)> {
        self.spec_map().entries()
    }

    /// The number of occurrences, as the counter reports it.
    pub open spec fn spec_len(self) -> nat {
        self.spec_length() as nat
    }

    /// The number of occurrences of the value model `m`.
    pub open spec fn spec_count(self, m: <M::Key as View>::V) -> nat {
        if has_key(self.entries(), m) {
            value_of(self.entries(), m) as nat
        } else {
            0
        }
    }

    /// The invariant of the wrapper: the wrapped store is well formed, no
    /// count is zero, and the counter equals the sum of all counts.
    pub open spec fn inv(self) -> bool {
        &&& self.spec_map().inv()
        &&& forall|i: int| 0 <= i < self.entries().len() ==> (#[trigger] self.entries()[i]).1 > 0
        &&& self.spec_length() as nat == total_count(self.entries())
    }

    /// Creates a new, empty multi-set.
    pub fn new() -> (r: Self)
        ensures
            r.inv(),
            r.entries().len() == 0,
            r.spec_len() == 0,
            forall|m: <M::Key as View>::V| r.spec_count(m) == 0,
    {
        let r = MultiSet { map: M::empty(), length: 0 };
        proof {
            assert(counts_of(r.entries()) =~= Seq::<nat>::empty());
        }
        r
    }

    /// Inserts one occurrence of a value. Returns the previous count, `0`
    /// if the value was not present.
    pub fn insert(&mut self, value: M::Key) -> (prev: usize)
        requires
            old(self).inv(),
            old(self).spec_len() + 1 <= usize::MAX,
        ensures
            final(self).inv(),
            prev as nat == old(self).spec_count(value@),
            final(self).spec_count(value@) == old(self).spec_count(value@) + 1,
            forall|m: <M::Key as View>::V|
                m != value@ ==> final(self).spec_count(m) == old(self).spec_count(m),
            final(self).spec_len() == old(self).spec_len() + 1,
    {
        self.insert_some(value, 1)
    }

    /// Inserts `count` occurrences of a value. Returns the previous count,
    /// `0` if the value was not present. Inserting zero occurrences
    /// changes nothing.
    pub fn insert_some(&mut self, value: M::Key, count: usize) -> (prev: usize)
        requires
            old(self).inv(),
            old(self).spec_len() + count <= usize::MAX,
        ensures
            final(self).inv(),
            prev as nat == old(self).spec_count(value@),
            final(self).spec_count(value@) == old(self).spec_count(value@) + count,
            forall|m: <M::Key as View>::V|
                m != value@ ==> final(self).spec_count(m) == old(self).spec_count(m),
            final(self).spec_len() == old(self).spec_len() + count,
    {
        if count == 0 {
            return self.count(&value);
        }
        proof {
            if has_key(old(self).entries(), value@) {
                let i = index_of_key(old(self).entries(), value@);
                lemma_index_of_key(old(self).entries(), value@);
                old(self).spec_map().inv_distinct();
                crate::store::lemma_key_at_index(old(self).entries(), i);
                lemma_nat_sum_member(counts_of(old(self).entries()), i);
                assert(counts_of(old(self).entries())[i] == old(self).entries()[i].1 as nat);
            }
        }
        let c = self.map.get_or_insert(value, 0);
        let prev = *c;
        *c = prev + count;
        proof {
            let s0 = old(self).entries();
            let s1 = self.entries();
            old(self).spec_map().inv_distinct();
            if has_key(s0, value@) {
                let i = index_of_key(s0, value@);
                lemma_index_of_key(s0, value@);
                lemma_update_entry(s0, i, (s0[i].0, (prev + count) as usize));
                assert(s1 == s0.update(i, (s0[i].0, (prev + count) as usize)));
                assert(counts_of(s1) =~= counts_of(s0).update(i, (prev + count) as nat));
                lemma_nat_sum_update(counts_of(s0), i, (prev + count) as nat);
            } else {
                let i = choose|i: int|
                    0 <= i <= s0.len() && s1 == #[trigger] s0.insert(
                        i,
                        (value, (prev + count) as usize),
                    );
                assert(s1 == s0.insert(i, (value, (prev + count) as usize)));
                lemma_insert_entry(s0, i, (value, (prev + count) as usize));
                assert(counts_of(s1) =~= counts_of(s0).insert(i, (prev + count) as nat));
                lemma_nat_sum_insert(counts_of(s0), i, (prev + count) as nat);
            }
        }
        self.length = self.length + count;
        prev
    }

    /// Sets the count of a value outright. Returns the previous count.
    /// Setting a count of zero removes the value entirely.
    pub fn set_count(&mut self, value: M::Key, count: usize) -> (prev: usize)
        requires
            old(self).inv(),
            old(self).spec_len() - old(self).spec_count(value@) + count <= usize::MAX,
        ensures
            final(self).inv(),
            prev as nat == old(self).spec_count(value@),
            final(self).spec_count(value@) == count,
            forall|m: <M::Key as View>::V|
                m != value@ ==> final(self).spec_count(m) == old(self).spec_count(m),
            final(self).spec_len() == old(self).spec_len() - old(self).spec_count(value@)
                + count,
    {
        if count == 0 {
            return self.remove_all(&value);
        }
        proof {
            if has_key(old(self).entries(), value@) {
                let i = index_of_key(old(self).entries(), value@);
                lemma_index_of_key(old(self).entries(), value@);
                old(self).spec_map().inv_distinct();
                lemma_nat_sum_member(counts_of(old(self).entries()), i);
                assert(counts_of(old(self).entries())[i] == old(self).entries()[i].1 as nat);
            }
        }
        let c = self.map.get_or_insert(value, 0);
        let prev = *c;
        *c = count;
        proof {
            let s0 = old(self).entries();
            let s1 = self.entries();
            old(self).spec_map().inv_distinct();
            if has_key(s0, value@) {
                let i = index_of_key(s0, value@);
                lemma_index_of_key(s0, value@);
                lemma_update_entry(s0, i, (s0[i].0, count));
                assert(s1 == s0.update(i, (s0[i].0, count)));
                assert(counts_of(s1) =~= counts_of(s0).update(i, count as nat));
                lemma_nat_sum_update(counts_of(s0), i, count as nat);
            } else {
                let i = choose|i: int|
                    0 <= i <= s0.len() && s1 == #[trigger] s0.insert(i, (value, count));
                assert(s1 == s0.insert(i, (value, count)));
                lemma_insert_entry(s0, i, (value, count));
                assert(counts_of(s1) =~= counts_of(s0).insert(i, count as nat));
                lemma_nat_sum_insert(counts_of(s0), i, count as nat);
            }
        }
        self.length = self.length - prev + count;
        prev
    }

    /// Removes one occurrence of a value. Returns the previous count, `0`
    /// if the value was not present. A value whose count reaches zero
    /// leaves the multi-set entirely.
    pub fn remove(&mut self, value: &M::Key) -> (prev: usize)
        requires
            old(self).inv(),
        ensures
            final(self).inv(),
            prev as nat == old(self).spec_count(value@),
            final(self).spec_count(value@) == (if old(self).spec_count(value@) > 0 {
                old(self).spec_count(value@) - 1
            } else {
                0
            }),
            forall|m: <M::Key as View>::V|
                m != value@ ==> final(self).spec_count(m) == old(self).spec_count(m),
            final(self).spec_len() == old(self).spec_len() - (if old(self).spec_count(value@)
                > 0 {
                1nat
            } else {
                0nat
            }),
    {
        self.remove_at_most(value, 1)
    }

    /// Removes at most `max` occurrences of a value. Returns the previous
    /// count, `0` if the value was not present. A value whose count
    /// reaches zero leaves the multi-set entirely.
    pub fn remove_at_most(&mut self, value: &M::Key, max: usize) -> (prev: usize)
        requires
            old(self).inv(),
        ensures
            final(self).inv(),
            prev as nat == old(self).spec_count(value@),
            final(self).spec_count(value@) == (if old(self).spec_count(value@) <= max {
                0nat
            } else {
                (old(self).spec_count(value@) - max) as nat
            }),
            forall|m: <M::Key as View>::V|
                m != value@ ==> final(self).spec_count(m) == old(self).spec_count(m),
            final(self).spec_len() == old(self).spec_len() - (if old(self).spec_count(value@)
                <= max {
                old(self).spec_count(value@)
            } else {
                max as nat
            }),
    {
        let removed: usize;
        let prev: usize;
        match self.map.get_mut(value) {
            Some(c) => {
                prev = *c;
                removed = if prev < max {
                    prev
                } else {
                    max
                };
                *c = prev - removed;
            },
            None => {
                proof {
                    assert(counts_of(self.entries()) =~= counts_of(old(self).entries()));
                }
                return 0;
            },
        }
        proof {
            let s0 = old(self).entries();
            let s1 = self.entries();
            old(self).spec_map().inv_distinct();
            let i = index_of_key(s0, value@);
            lemma_index_of_key(s0, value@);
            lemma_update_entry(s0, i, (s0[i].0, (prev - removed) as usize));
            assert(s1 == s0.update(i, (s0[i].0, (prev - removed) as usize)));
            assert(counts_of(s1) =~= counts_of(s0).update(i, (prev - removed) as nat));
            lemma_nat_sum_update(counts_of(s0), i, (prev - removed) as nat);
            lemma_nat_sum_member(counts_of(s0), i);
            assert(counts_of(s0)[i] == s0[i].1 as nat);
        }
        self.length = self.length - removed;
        if prev - removed == 0 {
            let _ = self.map.remove(value);
            proof {
                let s0 = old(self).entries();
                let i = index_of_key(s0, value@);
                let s_mid = s0.update(i, (s0[i].0, (prev - removed) as usize));
                let s2 = self.entries();
                assert(has_key(s_mid, value@) && index_of_key(s_mid, value@) == i);
                lemma_remove_entry(s_mid, i);
                assert(s2 == s_mid.remove(i));
                assert(counts_of(s2) =~= counts_of(s_mid).remove(i));
                lemma_nat_sum_remove(counts_of(s_mid), i);
            }
        }
        prev
    }

    /// Removes every occurrence of a value. Returns the previous count,
    /// `0` if the value was not present.
    pub fn remove_all(&mut self, value: &M::Key) -> (prev: usize)
        requires
            old(self).inv(),
        ensures
            final(self).inv(),
            prev as nat == old(self).spec_count(value@),
            final(self).spec_count(value@) == 0,
            forall|m: <M::Key as View>::V|
                m != value@ ==> final(self).spec_count(m) == old(self).spec_count(m),
            final(self).spec_len() == old(self).spec_len() - old(self).spec_count(value@),
    {
        match self.map.remove(value) {
            Some(count) => {
                proof {
                    let s0 = old(self).entries();
                    let i = index_of_key(s0, value@);
                    lemma_index_of_key(s0, value@);
                    old(self).spec_map().inv_distinct();
                    lemma_remove_entry(s0, i);
                    assert(counts_of(self.entries()) =~= counts_of(s0).remove(i));
                    lemma_nat_sum_remove(counts_of(s0), i);
                    lemma_nat_sum_member(counts_of(s0), i);
                    assert(counts_of(s0)[i] == s0[i].1 as nat);
                }
                self.length = self.length - count;
                count
            },
            None => {
                proof {
                    assert(counts_of(self.entries()) =~= counts_of(old(self).entries()));
                }
                0
            },
        }
    }

    /// Returns `true` if the multi-set holds at least one occurrence of
    /// the value.
    pub fn contains(&self, value: &M::Key) -> (r: bool)
        requires
            self.inv(),
        ensures
            r == (self.spec_count(value@) > 0),
    {
        proof {
            if has_key(self.entries(), value@) {
                self.spec_map().inv_distinct();
                lemma_index_of_key(self.entries(), value@);
            }
        }
        self.map.contains_key(value)
    }

    /// Returns the number of occurrences of the value, `0` if it is not
    /// present.
    pub fn count(&self, value: &M::Key) -> (r: usize)
        requires
            self.inv(),
        ensures
            r as nat == self.spec_count(value@),
    {
        match self.map.get(value) {
            Some(c) => *c,
            None => 0,
        }
    }

    /// Returns `true` if the multi-set holds nothing.
    pub fn is_empty(&self) -> (r: bool)
        requires
            self.inv(),
        ensures
            r == (self.spec_len() == 0),
            r == (self.entries().len() == 0),
    {
        proof {
            if self.entries().len() > 0 {
                lemma_nat_sum_member(counts_of(self.entries()), 0);
                assert(counts_of(self.entries())[0] == self.entries()[0].1 as nat);
            }
        }
        self.length == 0
    }

    /// Returns the number of occurrences held, duplicates included. This
    /// reads the maintained counter, it sums nothing.
    pub fn len(&self) -> (r: usize)
        requires
            self.inv(),
        ensures
            r as nat == self.spec_len(),
            r as nat == total_count(self.entries()),
    {
        self.length
    }

    /// Returns every occurrence, duplicates included: each value in the
    /// wrapped store's iteration order, repeated once per occurrence.
    pub fn iter(&self) -> (r: Vec<M::Key>)
        requires
            self.inv(),
        ensures
            elem_models(r@) == spec_occurrences(self.entries()),
            r@.len() as nat == self.spec_len(),
    {
        let n = self.map.len();
        let mut r: Vec<M::Key> = Vec::new();
        let mut i: usize = 0;
        while i < n
            invariant
                self.inv(),
                n == self.entries().len(),
                i <= n,
                elem_models(r@) == spec_occurrences(self.entries().subrange(0, i as int)),
            decreases n - i,
        {
            let k = self.map.key_at(i);
            let m = *self.map.val_at(i);
            let mut j: usize = 0;
            while j < m
                invariant
                    self.inv(),
                    n == self.entries().len(),
                    i < n,
                    m == self.entries()[i as int].1,
                    *k == self.entries()[i as int].0,
                    j <= m,
                    elem_models(r@) == spec_occurrences(self.entries().subrange(0, i as int))
                        + repeat_value(self.entries()[i as int]).subrange(0, j as int),
                decreases m - j,
            {
                let kd = k.dup();
                proof {
                    assert(repeat_value(self.entries()[i as int])[j as int] == kd@);
                }
                let ghost r0 = r@;
                r.push(kd);
                proof {
                    let q = r@[r0.len() as int];
                    lemma_elem_models_push(r0, q);
                    lemma_push_add_subrange(
                        spec_occurrences(self.entries().subrange(0, i as int)),
                        repeat_value(self.entries()[i as int]),
                        j as int,
                    );
                }
                j = j + 1;
            }
            proof {
                let pre = self.entries().subrange(0, i as int);
                lemma_spec_occurrences_push(pre, self.entries()[i as int]);
                assert(pre.push(self.entries()[i as int]) =~= self.entries().subrange(
                    0,
                    i as int + 1,
                ));
                assert(repeat_value(self.entries()[i as int]).subrange(
                    0,
                    m as int,
                ) =~= repeat_value(self.entries()[i as int]));
            }
            i = i + 1;
        }
        proof {
            assert(self.entries().subrange(0, n as int) =~= self.entries());
            lemma_spec_occurrences_len(self.entries());
        }
        r
    }

    /// Inserts one occurrence of every value of the vector in order,
    /// exactly as the same sequence of single insertions would: each
    /// value's count grows by its number of occurrences in the vector.
    pub fn extend_values(&mut self, items: Vec<M::Key>)
        requires
            old(self).inv(),
            old(self).spec_len() + items@.len() <= usize::MAX,
        ensures
            final(self).inv(),
            forall|m: <M::Key as View>::V|
                final(self).spec_count(m) == old(self).spec_count(m) + elem_models(
                    items@,
                ).to_multiset().count(m),
            final(self).spec_len() == old(self).spec_len() + items@.len(),
    {
        proof {
            broadcast use vstd::seq_lib::group_to_multiset_ensures;

        }
        let ghost items_init = items@;
        let mut items = items;
        while items.len() > 0
            invariant
                self.inv(),
                self.spec_len() + items@.len() == old(self).spec_len() + items_init.len(),
                old(self).spec_len() + items_init.len() <= usize::MAX,
                forall|m: <M::Key as View>::V|
                    #[trigger] self.spec_count(m) + elem_models(items@).to_multiset().count(m)
                        == old(self).spec_count(m) + elem_models(
                        items_init,
                    ).to_multiset().count(m),
            decreases items@.len(),
        {
            proof {
                broadcast use vstd::seq_lib::group_to_multiset_ensures;

            }
            let ghost items0 = items@;
            let x = items.remove(0);
            proof {
                assert(elem_models(items0.remove(0)) =~= elem_models(items0).remove(0));
                assert(elem_models(items0).to_multiset().remove(x@) =~= elem_models(
                    items@,
                ).to_multiset());
            }
            self.insert(x);
        }
        proof {
            broadcast use vstd::seq_lib::group_to_multiset_ensures;

            assert(elem_models(items@) =~= Seq::<<M::Key as View>::V>::empty());
            assert(elem_models(items@).to_multiset() =~= Multiset::<
                <M::Key as View>::V,
            >::empty());
        }
    }

    /// Builds a multi-set holding exactly the values of the vector, with
    /// multiplicities, as a fresh multi-set extended by them would.
    pub fn from_values(items: Vec<M::Key>) -> (r: Self)
        requires
            items@.len() <= usize::MAX,
        ensures
            r.inv(),
            forall|m: <M::Key as View>::V|
                r.spec_count(m) == elem_models(items@).to_multiset().count(m),
            r.spec_len() == items@.len(),
    {
        let mut r = MultiSet::new();
        r.extend_values(items);
        r
    }

    /// Returns each distinct value with its count, in the wrapped store's
    /// iteration order.
    pub fn counts(&self) -> (r: Vec<(M::Key, usize)>)
        requires
            self.inv(),
        ensures
            r@.len() == self.entries().len(),
            forall|i: int|
                0 <= i < r@.len() ==> (#[trigger] r@[i]).0@ == self.entries()[i].0@
                    && r@[i].1 == self.entries()[i].1,
    {
        let n = self.map.len();
        let mut r: Vec<(M::Key, usize)> = Vec::new();
        let mut i: usize = 0;
        while i < n
            invariant
                self.inv(),
                n == self.entries().len(),
                i <= n,
                r@.len() == i,
                forall|j: int|
                    0 <= j < i ==> (#[trigger] r@[j]).0@ == self.entries()[j].0@ && r@[j].1
                        == self.entries()[j].1,
            decreases n - i,
        {
            let k = self.map.key_at(i).dup();
            let c = *self.map.val_at(i);
            r.push((k, c));
            i = i + 1;
        }
        r
    }
}

impl<M> MultiSet<M> where
    M: SortedMap + Lookup + MapStore<Val = usize>,
    M::Key: OrderedKey,
 {
    /// Returns every occurrence whose value lies within the given
    /// boundaries, duplicates included, in ascending order. Only a
    /// multi-set over a sorted backend offers this.
    pub fn range(&self, lo: &KeyBound<M::Key>, hi: &KeyBound<M::Key>) -> (r: Vec<M::Key>)
        requires
            self.inv(),
        ensures
            elem_models(r@) == spec_occurrences(entries_within(self.entries(), *lo, *hi)),
    {
        let (a, b) = self.map.range_indexes(lo, hi);
        proof {
            self.spec_map().inv_sorted();
            lemma_entries_within_subrange(self.entries(), *lo, *hi, a as int, b as int);
            assert(self.entries().subrange(a as int, a as int) =~= Seq::<
                (M::Key, usize),
            >::empty());
        }
        let mut r: Vec<M::Key> = Vec::new();
        let mut i: usize = a;
        while i < b
            invariant
                self.inv(),
                a <= i <= b <= self.entries().len(),
                elem_models(r@) == spec_occurrences(
                    self.entries().subrange(a as int, i as int),
                ),
            decreases b - i,
        {
            let k = self.map.key_at(i);
            let m = *self.map.val_at(i);
            let mut j: usize = 0;
            while j < m
                invariant
                    self.inv(),
                    a <= i < b <= self.entries().len(),
                    m == self.entries()[i as int].1,
                    *k == self.entries()[i as int].0,
                    j <= m,
                    elem_models(r@) == spec_occurrences(
                        self.entries().subrange(a as int, i as int),
                    ) + repeat_value(self.entries()[i as int]).subrange(0, j as int),
                decreases m - j,
            {
                let kd = k.dup();
                proof {
                    assert(repeat_value(self.entries()[i as int])[j as int] == kd@);
                }
                let ghost r0 = r@;
                r.push(kd);
                proof {
                    let q = r@[r0.len() as int];
                    lemma_elem_models_push(r0, q);
                    lemma_push_add_subrange(
                        spec_occurrences(self.entries().subrange(a as int, i as int)),
                        repeat_value(self.entries()[i as int]),
                        j as int,
                    );
                }
                j = j + 1;
            }
            proof {
                let pre = self.entries().subrange(a as int, i as int);
                lemma_spec_occurrences_push(pre, self.entries()[i as int]);
                assert(pre.push(self.entries()[i as int]) =~= self.entries().subrange(
                    a as int,
                    i as int + 1,
                ));
                assert(repeat_value(self.entries()[i as int]).subrange(
                    0,
                    m as int,
                ) =~= repeat_value(self.entries()[i as int]));
            }
            i = i + 1;
        }
        r
    }

    /// Returns each distinct value within the given boundaries with its
    /// count, in ascending order.
    pub fn range_counts(&self, lo: &KeyBound<M::Key>, hi: &KeyBound<M::Key>) -> (r: Vec<
        (M::Key, usize),
    >)
        requires
            self.inv(),
        ensures
            ({
                let w = entries_within(self.entries(), *lo, *hi);
                &&& r@.len() == w.len()
                &&& forall|i: int|
                    0 <= i < r@.len() ==> (#[trigger] r@[i]).0@ == w[i].0@ && r@[i].1 == w[i].1
            }),
    {
        let (a, b) = self.map.range_indexes(lo, hi);
        proof {
            self.spec_map().inv_sorted();
            lemma_entries_within_subrange(self.entries(), *lo, *hi, a as int, b as int);
        }
        let mut r: Vec<(M::Key, usize)> = Vec::new();
        let mut i: usize = a;
        while i < b
            invariant
                self.inv(),
                a <= i <= b <= self.entries().len(),
                r@.len() == i - a,
                forall|j: int|
                    0 <= j < r@.len() ==> (#[trigger] r@[j]).0@ == self.entries()[a + j].0@
                        && r@[j].1 == self.entries()[a + j].1,
            decreases b - i,
        {
            let k = self.map.key_at(i).dup();
            let c = *self.map.val_at(i);
            r.push((k, c));
            i = i + 1;
        }
        r
    }
}

impl<M> Default for MultiSet<M> where M: Lookup + MapStore<Val = usize> {
    /// Creates a new, empty multi-set.
    fn default() -> (r: Self)
        ensures
            r.inv(),
            r.entries().len() == 0,
            r.spec_len() == 0,
    {
        MultiSet::new()
    }
}

impl<M> MultiSet<M> where M: Lookup + MapStore<Val = usize> {
    /// The counting law: the length a multi-set reports equals the number
    /// of occurrences that flattening its counts yields.
    pub proof fn lemma_len_is_occurrence_count(self)
        requires
            self.inv(),
        ensures
            self.spec_len() == spec_occurrences(self.entries()).len(),
    {
        lemma_spec_occurrences_len(self.entries());
    }

    /// The pruning law: a value is held exactly when its count is
    /// positive. A value whose count reaches zero disappears at once, so
    /// no lookup ever sees it again.
    pub proof fn lemma_no_zero_counts(self)
        requires
            self.inv(),
        ensures
            forall|m: <M::Key as View>::V|
                #[trigger] has_key(self.entries(), m) == (self.spec_count(m) > 0),
    {
        assert forall|m: <M::Key as View>::V|
            #[trigger] has_key(self.entries(), m) == (self.spec_count(m) > 0) by {
            if has_key(self.entries(), m) {
                lemma_index_of_key(self.entries(), m);
            }
        }
    }
}

impl<M> MultiSet<M> where
    M: SortedMap + Lookup + MapStore<Val = usize>,
    M::Key: OrderedKey,
 {
    /// The order law of a sorted multi-set: its distinct values ascend
    /// strictly, and its flattened occurrences come in non-decreasing
    /// order.
    pub proof fn lemma_iteration_sorted(self)
        requires
            self.inv(),
        ensures
            crate::store::sorted_keys(self.entries()),
            forall|p: int, q: int|
                0 <= p < q < spec_occurrences(self.entries()).len() ==> <M::Key as OrderedKey>::le_model(
                    #[trigger] spec_occurrences(self.entries())[p],
                    #[trigger] spec_occurrences(self.entries())[q],
                ),
    {
        self.spec_map().inv_sorted();
        lemma_spec_occurrences_sorted(self.entries());
    }

    /// The range law of a sorted multi-set: the occurrences within two
    /// boundaries are exactly those of all its occurrences that lie
    /// between the boundaries, in their original order.
    pub proof fn lemma_range_is_filter(self, lo: KeyBound<M::Key>, hi: KeyBound<M::Key>)
        requires
            self.inv(),
        ensures
            spec_occurrences(entries_within(self.entries(), lo, hi)) == spec_occurrences(
                self.entries(),
            ).filter(model_within::<M::Key>(lo, hi)),
    {
        lemma_occurrences_within_is_filter(self.entries(), lo, hi);
    }
}

} // verus!
