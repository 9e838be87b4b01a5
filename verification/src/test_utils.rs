//! Small verified helpers that tests use to check outputs whose order the
//! backend is free to choose.

use vstd::prelude::*;
use vstd::multiset::Multiset;
use vstd::seq_lib::group_to_multiset_ensures;
use crate::keys::{OrderedKey, StoreKey};
use crate::store::elem_models;

verus! {

/// Whether a sequence of keys is non-decreasing by model.
pub open spec fn nondecreasing<T: OrderedKey>(s: Seq<T>) -> bool {
    forall|i: int| 0 <= i < s.len() - 1 ==> T::le_model((#[trigger] s[i])@, s[i + 1]@)
}

/// Finds the position of an element of `xs` whose model equals `x`'s, if
/// any.
fn find_by_model<T: StoreKey>(xs: &Vec<T>, x: &T) -> (r: Option<usize>)
    ensures
        match r {
            Some(i) => i < xs@.len() && xs@[i as int]@ == x@,
            None => forall|j: int| 0 <= j < xs@.len() ==> (#[trigger] xs@[j])@ != x@,
        },
{
    let mut t: usize = 0;
    while t < xs.len()
        invariant
            t <= xs@.len(),
            forall|j: int| 0 <= j < t ==> (#[trigger] xs@[j])@ != x@,
        decreases xs@.len() - t,
    {
        if xs[t].key_eq(x) {
            return Some(t);
        }
        t = t + 1;
    }
    None
}

/// Decides whether the two vectors hold the same element models with the
/// same multiplicities, in any order.
pub fn unordered_elements_are<T: StoreKey>(xs: &Vec<T>, ys: &Vec<T>) -> (r: bool)
    ensures
        r == (elem_models(xs@).to_multiset() == elem_models(ys@).to_multiset()),
{
    proof {
        broadcast use group_to_multiset_ensures;

    }
    let mut remaining: Vec<T> = Vec::new();
    let mut i: usize = 0;
    while i < ys.len()
        invariant
            i <= ys.len(),
            remaining@.len() == i,
            forall|j: int| 0 <= j < i ==> (#[trigger] remaining@[j])@ == ys@[j]@,
        decreases ys.len() - i,
    {
        remaining.push(ys[i].dup());
        i = i + 1;
    }
    proof {
        assert(elem_models(remaining@) =~= elem_models(ys@));
    }
    let mut k: usize = 0;
    while k < xs.len()
        invariant
            k <= xs.len(),
            elem_models(ys@).to_multiset() == elem_models(xs@.subrange(0, k as int)).to_multiset()
                .add(elem_models(remaining@).to_multiset()),
        decreases xs.len() - k,
    {
        proof {
            broadcast use group_to_multiset_ensures;

        }
        let x = &xs[k];
        let found_at = find_by_model(&remaining, x);
        if found_at.is_none() {
            proof {
                broadcast use group_to_multiset_ensures;

                // The still-needed copies of this element run out: the two
                // multisets disagree on its count.
                let m = elem_models(remaining@).to_multiset();
                assert(!elem_models(remaining@).contains(x@)) by {
                    if elem_models(remaining@).contains(x@) {
                        let j = choose|j: int|
                            0 <= j < elem_models(remaining@).len() && elem_models(
                                remaining@,
                            )[j] == x@;
                        assert((#[trigger] remaining@[j])@ == x@);
                    }
                }
                assert(m.count(x@) == 0);
                let pre = elem_models(xs@.subrange(0, k as int)).to_multiset();
                assert(elem_models(ys@).to_multiset().count(x@) == pre.count(x@));
                assert(elem_models(xs@).to_multiset().count(x@) >= pre.count(x@) + 1) by {
                    let rest = elem_models(xs@.subrange(k as int, xs@.len() as int));
                    assert(elem_models(xs@) =~= elem_models(xs@.subrange(0, k as int))
                        + rest);
                    vstd::seq_lib::lemma_multiset_commutative(
                        elem_models(xs@.subrange(0, k as int)),
                        rest,
                    );
                    assert(rest[0] == x@);
                    assert(rest.to_multiset().contains(x@)) by {
                        assert(rest.contains(x@));
                    }
                }
                assert(elem_models(xs@).to_multiset() != elem_models(ys@).to_multiset());
            }
            return false;
        }
        let pos = found_at.unwrap();
        let ghost rem0 = remaining@;
        let _ = remaining.remove(pos);
        proof {
            broadcast use group_to_multiset_ensures;

            assert(elem_models(rem0.remove(pos as int)) =~= elem_models(rem0).remove(
                pos as int,
            ));
            assert(elem_models(rem0).to_multiset().remove(x@) =~= elem_models(
                remaining@,
            ).to_multiset());
            assert(elem_models(xs@.subrange(0, k as int + 1)) =~= elem_models(
                xs@.subrange(0, k as int),
            ).push(x@));
            assert(elem_models(xs@.subrange(0, k as int + 1)).to_multiset() =~= elem_models(
                xs@.subrange(0, k as int),
            ).to_multiset().insert(x@));
            assert(elem_models(ys@).to_multiset() =~= elem_models(
                xs@.subrange(0, k as int + 1),
            ).to_multiset().add(elem_models(remaining@).to_multiset()));
        }
        k = k + 1;
    }
    proof {
        broadcast use group_to_multiset_ensures;

        assert(xs@.subrange(0, xs@.len() as int) =~= xs@);
    }
    let empty_now = remaining.len() == 0;
    proof {
        broadcast use group_to_multiset_ensures;

        if remaining@.len() == 0 {
            assert(elem_models(remaining@) =~= Seq::<<T as View>::V>::empty());
            assert(elem_models(remaining@).to_multiset() =~= Multiset::<
                <T as View>::V,
            >::empty());
            assert(elem_models(ys@).to_multiset() =~= elem_models(xs@).to_multiset());
        } else {
            assert(elem_models(ys@).to_multiset().len() == elem_models(xs@).to_multiset().len()
                + elem_models(remaining@).to_multiset().len());
            assert(elem_models(remaining@).to_multiset().len() == remaining@.len());
            assert(elem_models(xs@).to_multiset() != elem_models(ys@).to_multiset());
        }
    }
    empty_now
}

/// Decides whether the keys in the vector come in non-decreasing model
/// order.
pub fn is_sorted<T: OrderedKey>(xs: &Vec<T>) -> (r: bool)
    ensures
        r == nondecreasing(xs@),
{
    let n = xs.len();
    if n == 0 {
        return true;
    }
    let mut i: usize = 0;
    while i < n - 1
        invariant
            n == xs@.len(),
            n >= 1,
            i <= n - 1,
            forall|j: int| 0 <= j < i ==> T::le_model((#[trigger] xs@[j])@, xs@[j + 1]@),
        decreases n - i,
    {
        if !xs[i].key_le(&xs[i + 1]) {
            return false;
        }
        i = i + 1;
    }
    true
}

} // verus!
