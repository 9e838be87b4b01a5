//! The common mathematical vocabulary of the backing stores.
//!
//! A map store is modelled by the sequence of its entries in iteration
//! order; a set store by the sequence of its elements. All statements are
//! about key models (see [`crate::keys::StoreKey`]), never about the
//! executable key values themselves.

use vstd::prelude::*;
use crate::keys::{OrderedKey, StoreKey};

verus! {

/// The models of the keys of an entry sequence, in entry order.
pub open spec fn key_models<K: StoreKey, V>(s: Seq<(K, V)>) -> Seq<<K as View>::V> {
    s.map_values(|p: (K, V)| p.0@)
}

/// No two entries share a key model.
pub open spec fn distinct_keys<K: StoreKey, V>(s: Seq<(K, V)>) -> bool {
    forall|i: int, j: int| #![trigger s[i], s[j]] 0 <= i < j < s.len() ==> s[i].0@ != s[j].0@
}

/// Some entry has key model `m`.
pub open spec fn has_key<K: StoreKey, V>(s: Seq<(K, V)>, m: <K as View>::V) -> bool {
    exists|i: int| 0 <= i < s.len() && (#[trigger] s[i]).0@ == m
}

/// The index of the entry with key model `m` (meaningful when `has_key`).
pub open spec fn index_of_key<K: StoreKey, V>(s: Seq<(K, V)>, m: <K as View>::V) -> int {
    choose|i: int| 0 <= i < s.len() && (#[trigger] s[i]).0@ == m
}

/// The value stored under key model `m` (meaningful when `has_key`).
pub open spec fn value_of<K: StoreKey, V>(s: Seq<(K, V)>, m: <K as View>::V) -> V {
    s[index_of_key(s, m)].1
}

pub proof fn lemma_index_of_key<K: StoreKey, V>(s: Seq<(K, V)>, m: <K as View>::V)
    requires
        has_key(s, m),
    ensures
        0 <= index_of_key(s, m) < s.len(),
        s[index_of_key(s, m)].0@ == m,
{
}

/// In a sequence with distinct key models, the entry at `i` is the one and
/// only witness for its own key model.
pub proof fn lemma_key_at_index<K: StoreKey, V>(s: Seq<(K, V)>, i: int)
    requires
        distinct_keys(s),
        0 <= i < s.len(),
    ensures
        has_key(s, s[i].0@),
        index_of_key(s, s[i].0@) == i,
        value_of(s, s[i].0@) == s[i].1,
{
    assert(0 <= i < s.len() && s[i].0@ == s[i].0@);
    let j = index_of_key(s, s[i].0@);
    if j != i {
        if j < i {
            assert(s[j].0@ != s[i].0@);
        } else {
            assert(s[i].0@ != s[j].0@);
        }
    }
}

/// The models of the elements of a set store, in element order.
pub open spec fn elem_models<E: StoreKey>(s: Seq<E>) -> Seq<<E as View>::V> {
    s.map_values(|e: E| e@)
}

/// No two elements share a model.
pub open spec fn distinct_elems<E: StoreKey>(s: Seq<E>) -> bool {
    forall|i: int, j: int| #![trigger s[i], s[j]] 0 <= i < j < s.len() ==> s[i]@ != s[j]@
}

/// Some element has model `m`.
pub open spec fn has_elem<E: StoreKey>(s: Seq<E>, m: <E as View>::V) -> bool {
    exists|i: int| 0 <= i < s.len() && (#[trigger] s[i])@ == m
}

/// The index of the element with model `m` (meaningful when `has_elem`).
pub open spec fn index_of_elem<E: StoreKey>(s: Seq<E>, m: <E as View>::V) -> int {
    choose|i: int| 0 <= i < s.len() && (#[trigger] s[i])@ == m
}

pub proof fn lemma_index_of_elem<E: StoreKey>(s: Seq<E>, m: <E as View>::V)
    requires
        has_elem(s, m),
    ensures
        0 <= index_of_elem(s, m) < s.len(),
        s[index_of_elem(s, m)]@ == m,
{
}

pub proof fn lemma_elem_at_index<E: StoreKey>(s: Seq<E>, i: int)
    requires
        distinct_elems(s),
        0 <= i < s.len(),
    ensures
        has_elem(s, s[i]@),
        index_of_elem(s, s[i]@) == i,
{
    assert(0 <= i < s.len() && s[i]@ == s[i]@);
    let j = index_of_elem(s, s[i]@);
    if j != i {
        if j < i {
            assert(s[j]@ != s[i]@);
        } else {
            assert(s[i]@ != s[j]@);
        }
    }
}

/// Entry key models are strictly ascending.
pub open spec fn sorted_keys<K: OrderedKey, V>(s: Seq<(K, V)>) -> bool {
    forall|i: int, j: int| #![trigger s[i], s[j]]
        0 <= i < j < s.len() ==> K::le_model(s[i].0@, s[j].0@) && s[i].0@ != s[j].0@
}

/// Element models are strictly ascending.
pub open spec fn sorted_elems<E: OrderedKey>(s: Seq<E>) -> bool {
    forall|i: int, j: int| #![trigger s[i], s[j]]
        0 <= i < j < s.len() ==> E::le_model(s[i]@, s[j]@) && s[i]@ != s[j]@
}

pub proof fn lemma_sorted_keys_distinct<K: OrderedKey, V>(s: Seq<(K, V)>)
    requires
        sorted_keys(s),
    ensures
        distinct_keys(s),
{
}

pub proof fn lemma_sorted_elems_distinct<E: OrderedKey>(s: Seq<E>)
    requires
        sorted_elems(s),
    ensures
        distinct_elems(s),
{
}

/// Replacing the entry at `i` by one with the same key model leaves every
/// key in place and changes only that key's value.
pub proof fn lemma_update_entry<K: StoreKey, V>(s: Seq<(K, V)>, i: int, p: (K, V))
    requires
        distinct_keys(s),
        0 <= i < s.len(),
        p.0@ == s[i].0@,
    ensures
        distinct_keys(s.update(i, p)),
        forall|m: <K as View>::V| #[trigger] has_key(s.update(i, p), m) == has_key(s, m),
        value_of(s.update(i, p), p.0@) == p.1,
        forall|m: <K as View>::V|
            m != p.0@ && has_key(s, m) ==> #[trigger] value_of(s.update(i, p), m) == value_of(
                s,
                m,
            ),
{
    let t = s.update(i, p);
    assert(distinct_keys(t));
    assert forall|m: <K as View>::V| #[trigger] has_key(t, m) == has_key(s, m) by {
        if has_key(s, m) {
            let j = index_of_key(s, m);
            lemma_index_of_key(s, m);
            assert(t[j].0@ == m);
        }
        if has_key(t, m) {
            let j = index_of_key(t, m);
            lemma_index_of_key(t, m);
            assert(s[j].0@ == m);
        }
    }
    lemma_key_at_index(t, i);
    assert forall|m: <K as View>::V|
        m != p.0@ && has_key(s, m) implies #[trigger] value_of(t, m) == value_of(s, m) by {
        let j = index_of_key(s, m);
        lemma_index_of_key(s, m);
        assert(j != i);
        lemma_key_at_index(t, j);
        lemma_key_at_index(s, j);
    }
}

/// Inserting an entry with a fresh key model adds exactly that key and
/// leaves every other key's value alone.
pub proof fn lemma_insert_entry<K: StoreKey, V>(s: Seq<(K, V)>, i: int, p: (K, V))
    requires
        distinct_keys(s),
        !has_key(s, p.0@),
        0 <= i <= s.len(),
    ensures
        distinct_keys(s.insert(i, p)),
        forall|m: <K as View>::V|
            #[trigger] has_key(s.insert(i, p), m) == (has_key(s, m) || m == p.0@),
        value_of(s.insert(i, p), p.0@) == p.1,
        forall|m: <K as View>::V|
            m != p.0@ && has_key(s, m) ==> #[trigger] value_of(s.insert(i, p), m) == value_of(
                s,
                m,
            ),
{
    let t = s.insert(i, p);
    assert forall|a: int, b: int| #![trigger t[a], t[b]]
        0 <= a < b < t.len() implies t[a].0@ != t[b].0@ by {
        if a != i && b != i {
            let a0 = if a < i { a } else { a - 1 };
            let b0 = if b < i { b } else { b - 1 };
            assert(t[a] == s[a0] && t[b] == s[b0]);
        } else if a == i {
            let b0 = b - 1;
            assert(t[b] == s[b0]);
            if t[b].0@ == p.0@ {
                assert(has_key(s, p.0@));
            }
        } else {
            assert(t[a] == s[a]);
            if t[a].0@ == p.0@ {
                assert(has_key(s, p.0@));
            }
        }
    }
    assert forall|m: <K as View>::V|
        #[trigger] has_key(t, m) == (has_key(s, m) || m == p.0@) by {
        if has_key(s, m) {
            let j = index_of_key(s, m);
            lemma_index_of_key(s, m);
            let j2 = if j < i { j } else { j + 1 };
            assert(t[j2].0@ == m);
        }
        if m == p.0@ {
            assert(t[i].0@ == m);
        }
        if has_key(t, m) && m != p.0@ {
            let j = index_of_key(t, m);
            lemma_index_of_key(t, m);
            assert(j != i);
            let j0 = if j < i { j } else { j - 1 };
            assert(s[j0].0@ == m);
        }
    }
    lemma_key_at_index(t, i);
    assert forall|m: <K as View>::V|
        m != p.0@ && has_key(s, m) implies #[trigger] value_of(t, m) == value_of(s, m) by {
        let j = index_of_key(s, m);
        lemma_index_of_key(s, m);
        lemma_key_at_index(s, j);
        let j2 = if j < i { j } else { j + 1 };
        assert(t[j2] == s[j]);
        lemma_key_at_index(t, j2);
    }
}

/// Removing the entry at `i` removes exactly its key and leaves every other
/// key's value alone.
pub proof fn lemma_remove_entry<K: StoreKey, V>(s: Seq<(K, V)>, i: int)
    requires
        distinct_keys(s),
        0 <= i < s.len(),
    ensures
        distinct_keys(s.remove(i)),
        forall|m: <K as View>::V|
            #[trigger] has_key(s.remove(i), m) == (has_key(s, m) && m != s[i].0@),
        forall|m: <K as View>::V|
            m != s[i].0@ && has_key(s, m) ==> #[trigger] value_of(s.remove(i), m) == value_of(
                s,
                m,
            ),
{
    let t = s.remove(i);
    assert forall|a: int, b: int| #![trigger t[a], t[b]]
        0 <= a < b < t.len() implies t[a].0@ != t[b].0@ by {
        let a0 = if a < i { a } else { a + 1 };
        let b0 = if b < i { b } else { b + 1 };
        assert(t[a] == s[a0] && t[b] == s[b0]);
    }
    assert forall|m: <K as View>::V|
        #[trigger] has_key(t, m) == (has_key(s, m) && m != s[i].0@) by {
        if has_key(s, m) && m != s[i].0@ {
            let j = index_of_key(s, m);
            lemma_index_of_key(s, m);
            assert(j != i);
            let j2 = if j < i { j } else { j - 1 };
            assert(t[j2].0@ == m);
        }
        if has_key(t, m) {
            let j = index_of_key(t, m);
            lemma_index_of_key(t, m);
            let j0 = if j < i { j } else { j + 1 };
            assert(s[j0].0@ == m);
            if m == s[i].0@ {
                lemma_key_at_index(s, j0);
                lemma_key_at_index(s, i);
            }
        }
    }
    assert forall|m: <K as View>::V|
        m != s[i].0@ && has_key(s, m) implies #[trigger] value_of(t, m) == value_of(s, m) by {
        let j = index_of_key(s, m);
        lemma_index_of_key(s, m);
        lemma_key_at_index(s, j);
        assert(j != i);
        let j2 = if j < i { j } else { j - 1 };
        assert(t[j2] == s[j]);
        lemma_key_at_index(t, j2);
    }
}

/// The set of element models of a set store's elements.
pub open spec fn elem_model_set<E: StoreKey>(s: Seq<E>) -> Set<<E as View>::V> {
    elem_models(s).to_set()
}

/// Membership in the model set is exactly `has_elem`.
pub proof fn lemma_elem_model_set_contains<E: StoreKey>(s: Seq<E>)
    ensures
        forall|m: <E as View>::V| #[trigger] elem_model_set(s).contains(m) == has_elem(s, m),
{
    assert forall|m: <E as View>::V|
        #[trigger] elem_model_set(s).contains(m) == has_elem(s, m) by {
        if elem_model_set(s).contains(m) {
            let j = choose|j: int| 0 <= j < elem_models(s).len() && elem_models(s)[j] == m;
            assert(s[j]@ == m);
        }
        if has_elem(s, m) {
            let j = index_of_elem(s, m);
            lemma_index_of_elem(s, m);
            assert(elem_models(s)[j] == m);
        }
    }
}

/// A set store with distinct element models has as many models as elements.
pub proof fn lemma_elem_model_set_len<E: StoreKey>(s: Seq<E>)
    requires
        distinct_elems(s),
    ensures
        elem_model_set(s).finite(),
        elem_model_set(s).len() == s.len(),
{
    assert(elem_models(s).no_duplicates()) by {
        assert forall|a: int, b: int|
            0 <= a < b < elem_models(s).len() implies elem_models(s)[a] != elem_models(
            s,
        )[b] by {
            assert(s[a]@ != s[b]@);
        }
    }
    elem_models(s).unique_seq_to_set();
}

/// Inserting an element with a fresh model adds exactly that model.
pub proof fn lemma_insert_elem<E: StoreKey>(s: Seq<E>, i: int, e: E)
    requires
        distinct_elems(s),
        !has_elem(s, e@),
        0 <= i <= s.len(),
    ensures
        distinct_elems(s.insert(i, e)),
        elem_model_set(s.insert(i, e)) == elem_model_set(s).insert(e@),
        has_elem(s.insert(i, e), e@),
{
    let t = s.insert(i, e);
    assert forall|a: int, b: int| #![trigger t[a], t[b]]
        0 <= a < b < t.len() implies t[a]@ != t[b]@ by {
        if a != i && b != i {
            let a0 = if a < i { a } else { a - 1 };
            let b0 = if b < i { b } else { b - 1 };
            assert(t[a] == s[a0] && t[b] == s[b0]);
        } else if a == i {
            let b0 = b - 1;
            assert(t[b] == s[b0]);
            if t[b]@ == e@ {
                assert(has_elem(s, e@));
            }
        } else {
            assert(t[a] == s[a]);
            if t[a]@ == e@ {
                assert(has_elem(s, e@));
            }
        }
    }
    assert(t[i]@ == e@);
    lemma_elem_model_set_contains(s);
    lemma_elem_model_set_contains(t);
    assert forall|m: <E as View>::V| #[trigger] has_elem(t, m) == (has_elem(s, m) || m == e@) by {
        if has_elem(s, m) {
            let j = index_of_elem(s, m);
            lemma_index_of_elem(s, m);
            let j2 = if j < i { j } else { j + 1 };
            assert(t[j2]@ == m);
        }
        if has_elem(t, m) && m != e@ {
            let j = index_of_elem(t, m);
            lemma_index_of_elem(t, m);
            assert(j != i);
            let j0 = if j < i { j } else { j - 1 };
            assert(s[j0]@ == m);
        }
    }
    assert(elem_model_set(t) =~= elem_model_set(s).insert(e@));
}

/// Removing the element at `i` removes exactly its model.
pub proof fn lemma_remove_elem<E: StoreKey>(s: Seq<E>, i: int)
    requires
        distinct_elems(s),
        0 <= i < s.len(),
    ensures
        distinct_elems(s.remove(i)),
        elem_model_set(s.remove(i)) == elem_model_set(s).remove(s[i]@),
        !has_elem(s.remove(i), s[i]@),
{
    let t = s.remove(i);
    assert forall|a: int, b: int| #![trigger t[a], t[b]]
        0 <= a < b < t.len() implies t[a]@ != t[b]@ by {
        let a0 = if a < i { a } else { a + 1 };
        let b0 = if b < i { b } else { b + 1 };
        assert(t[a] == s[a0] && t[b] == s[b0]);
    }
    lemma_elem_model_set_contains(s);
    lemma_elem_model_set_contains(t);
    assert forall|m: <E as View>::V|
        #[trigger] has_elem(t, m) == (has_elem(s, m) && m != s[i]@) by {
        if has_elem(s, m) && m != s[i]@ {
            let j = index_of_elem(s, m);
            lemma_index_of_elem(s, m);
            assert(j != i);
            let j2 = if j < i { j } else { j - 1 };
            assert(t[j2]@ == m);
        }
        if has_elem(t, m) {
            let j = index_of_elem(t, m);
            lemma_index_of_elem(t, m);
            let j0 = if j < i { j } else { j + 1 };
            assert(s[j0]@ == m);
            if m == s[i]@ {
                lemma_elem_at_index(s, j0);
                lemma_elem_at_index(s, i);
            }
        }
    }
    assert(elem_model_set(t) =~= elem_model_set(s).remove(s[i]@));
}

/// The sum of a sequence of naturals.
pub open spec fn nat_sum(s: Seq<nat>) -> nat
    decreases s.len(),
{
    if s.len() == 0 {
        0
    } else {
        nat_sum(s.drop_last()) + s.last()
    }
}

pub proof fn lemma_nat_sum_concat(a: Seq<nat>, b: Seq<nat>)
    ensures
        nat_sum(a + b) == nat_sum(a) + nat_sum(b),
    decreases b.len(),
{
    if b.len() == 0 {
        assert(a + b =~= a);
    } else {
        lemma_nat_sum_concat(a, b.drop_last());
        assert((a + b).drop_last() =~= a + b.drop_last());
        assert((a + b).last() == b.last());
    }
}

pub proof fn lemma_nat_sum_singleton(x: nat)
    ensures
        nat_sum(seq![x]) == x,
{
    assert(seq![x].drop_last() =~= Seq::<nat>::empty());
    assert(nat_sum(Seq::<nat>::empty()) == 0);
    assert(seq![x].last() == x);
}

/// Splits the sum at an index.
pub proof fn lemma_nat_sum_split(s: Seq<nat>, i: int)
    requires
        0 <= i <= s.len(),
    ensures
        nat_sum(s) == nat_sum(s.subrange(0, i)) + nat_sum(s.subrange(i, s.len() as int)),
{
    lemma_nat_sum_concat(s.subrange(0, i), s.subrange(i, s.len() as int));
    assert(s.subrange(0, i) + s.subrange(i, s.len() as int) =~= s);
}

pub proof fn lemma_nat_sum_insert(s: Seq<nat>, i: int, x: nat)
    requires
        0 <= i <= s.len(),
    ensures
        nat_sum(s.insert(i, x)) == nat_sum(s) + x,
{
    let t = s.insert(i, x);
    lemma_nat_sum_split(s, i);
    lemma_nat_sum_split(t, i);
    lemma_nat_sum_split(t.subrange(i, t.len() as int), 1);
    assert(t.subrange(0, i) =~= s.subrange(0, i));
    assert(t.subrange(i, t.len() as int).subrange(0, 1) =~= seq![x]);
    assert(t.subrange(i, t.len() as int).subrange(1, t.len() - i) =~= s.subrange(
        i,
        s.len() as int,
    ));
    lemma_nat_sum_singleton(x);
}

pub proof fn lemma_nat_sum_remove(s: Seq<nat>, i: int)
    requires
        0 <= i < s.len(),
    ensures
        nat_sum(s) == nat_sum(s.remove(i)) + s[i],
{
    assert(s.remove(i).insert(i, s[i]) =~= s);
    lemma_nat_sum_insert(s.remove(i), i, s[i]);
}

pub proof fn lemma_nat_sum_update(s: Seq<nat>, i: int, x: nat)
    requires
        0 <= i < s.len(),
    ensures
        nat_sum(s.update(i, x)) + s[i] == nat_sum(s) + x,
{
    assert(s.update(i, x) =~= s.remove(i).insert(i, x));
    lemma_nat_sum_remove(s, i);
    lemma_nat_sum_insert(s.remove(i), i, x);
}

/// Every member of the sequence is bounded by the sum.
pub proof fn lemma_nat_sum_member(s: Seq<nat>, i: int)
    requires
        0 <= i < s.len(),
    ensures
        s[i] <= nat_sum(s),
{
    lemma_nat_sum_remove(s, i);
}

/// Writing an element right after inserting it is one single insertion.
pub broadcast proof fn lemma_insert_then_update<A>(s: Seq<A>, i: int, a: A, b: A)
    requires
        0 <= i <= s.len(),
    ensures
        #[trigger] s.insert(i, a).update(i, b) == s.insert(i, b),
{
    assert(s.insert(i, a).update(i, b) =~= s.insert(i, b));
}

/// Reading one more element extends the models by one.
pub broadcast proof fn lemma_elem_models_push<E: StoreKey>(s: Seq<E>, x: E)
    ensures
        #[trigger] elem_models(s.push(x)) == elem_models(s).push(x@),
{
    assert(elem_models(s.push(x)) =~= elem_models(s).push(x@));
}

/// Extending a prefix of `blk` by its next member lengthens the prefix.
pub proof fn lemma_push_add_subrange<T>(pre: Seq<T>, blk: Seq<T>, j: int)
    requires
        0 <= j < blk.len(),
    ensures
        (pre + blk.subrange(0, j)).push(blk[j]) == pre + blk.subrange(0, j + 1),
{
    assert((pre + blk.subrange(0, j)).push(blk[j]) =~= pre + blk.subrange(0, j + 1));
}

/// A boundary of a key range; the counterpart of a range endpoint.
pub enum KeyBound<K> {
    /// No constraint on this side.
    Unbounded,
    /// The side includes the key itself.
    Included(K),
    /// The side excludes the key itself.
    Excluded(K),
}

/// Whether key model `m` lies on or above the lower boundary `lo`.
pub open spec fn above_lower<K: OrderedKey>(m: <K as View>::V, lo: KeyBound<K>) -> bool {
    match lo {
        KeyBound::Unbounded => true,
        KeyBound::Included(k) => K::le_model(k@, m),
        KeyBound::Excluded(k) => K::le_model(k@, m) && k@ != m,
    }
}

/// Whether key model `m` lies on or below the upper boundary `hi`.
pub open spec fn below_upper<K: OrderedKey>(m: <K as View>::V, hi: KeyBound<K>) -> bool {
    match hi {
        KeyBound::Unbounded => true,
        KeyBound::Included(k) => K::le_model(m, k@),
        KeyBound::Excluded(k) => K::le_model(m, k@) && k@ != m,
    }
}

/// Whether key model `m` lies between the two boundaries.
pub open spec fn within_bounds<K: OrderedKey>(
    m: <K as View>::V,
    lo: KeyBound<K>,
    hi: KeyBound<K>,
) -> bool {
    above_lower(m, lo) && below_upper(m, hi)
}

/// The subsequence of entries whose key model lies between the two
/// boundaries, in their original order.
pub open spec fn entries_within<K: OrderedKey, V>(
    s: Seq<(K, V)>,
    lo: KeyBound<K>,
    hi: KeyBound<K>,
) -> Seq<(K, V)>
    decreases s.len(),
{
    if s.len() == 0 {
        Seq::empty()
    } else if within_bounds::<K>(s[0].0@, lo, hi) {
        seq![s[0]] + entries_within(s.drop_first(), lo, hi)
    } else {
        entries_within(s.drop_first(), lo, hi)
    }
}

/// When the entries inside the boundaries form the contiguous index block
/// `[a, b)`, the subsequence within the boundaries is exactly that block.
pub proof fn lemma_entries_within_subrange<K: OrderedKey, V>(
    s: Seq<(K, V)>,
    lo: KeyBound<K>,
    hi: KeyBound<K>,
    a: int,
    b: int,
)
    requires
        0 <= a <= b <= s.len(),
        forall|i: int| a <= i < b ==> within_bounds::<K>((#[trigger] s[i]).0@, lo, hi),
        forall|i: int| 0 <= i < a ==> !above_lower::<K>((#[trigger] s[i]).0@, lo),
        forall|i: int| b <= i < s.len() ==> !below_upper::<K>((#[trigger] s[i]).0@, hi),
    ensures
        entries_within(s, lo, hi) == s.subrange(a, b),
    decreases s.len(),
{
    if s.len() == 0 {
        assert(entries_within(s, lo, hi) =~= s.subrange(a, b));
    } else {
        let t = s.drop_first();
        assert(forall|i: int| 0 <= i < t.len() ==> #[trigger] t[i] == s[i + 1]);
        if a > 0 {
            assert(!within_bounds::<K>(s[0].0@, lo, hi));
            lemma_entries_within_subrange(t, lo, hi, a - 1, b - 1);
            assert(t.subrange(a - 1, b - 1) =~= s.subrange(a, b));
        } else if b > 0 {
            assert(within_bounds::<K>(s[0].0@, lo, hi));
            lemma_entries_within_subrange(t, lo, hi, 0, b - 1);
            assert(seq![s[0]] + t.subrange(0, b - 1) =~= s.subrange(0, b));
        } else {
            assert(!within_bounds::<K>(s[0].0@, lo, hi));
            lemma_entries_within_subrange(t, lo, hi, 0, 0);
            assert(t.subrange(0, 0) =~= s.subrange(0, 0));
        }
    }
}

impl<K: OrderedKey> KeyBound<K> {
    /// Decides whether `key` lies on or above `self` taken as a lower
    /// boundary.
    pub fn admits_above(&self, key: &K) -> (r: bool)
        ensures
            r == above_lower(key@, *self),
    {
        match self {
            KeyBound::Unbounded => true,
            KeyBound::Included(k) => k.key_le(key),
            KeyBound::Excluded(k) => k.key_le(key) && !k.key_eq(key),
        }
    }

    /// Decides whether `key` lies on or below `self` taken as an upper
    /// boundary.
    pub fn admits_below(&self, key: &K) -> (r: bool)
        ensures
            r == below_upper(key@, *self),
    {
        match self {
            KeyBound::Unbounded => true,
            KeyBound::Included(k) => key.key_le(k),
            KeyBound::Excluded(k) => key.key_le(k) && !k.key_eq(key),
        }
    }
}

} // verus!
