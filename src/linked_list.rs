//! The abstract model of the list: its contents as a sequence, what each operation does to
//! them, and the laws that follow for sequences of operations.

pub mod method;
pub mod trait_impl;

use vstd::prelude::*;
use vstd::std_specs::cmp::PartialEqSpec;

verus! {

/// The contents after `v` is inserted at the front of `s`.
pub open spec fn push_front_seq<T>(s: Seq<T>, v: T) -> Seq<T> {
    seq![v] + s
}

/// The contents after `v` is inserted at the back of `s`.
pub open spec fn push_back_seq<T>(s: Seq<T>, v: T) -> Seq<T> {
    s.push(v)
}

/// The contents left and the element returned when the front of `s` is removed.
pub open spec fn pop_front_seq<T>(s: Seq<T>) -> (Seq<T>, Option<T>) {
    if s.len() == 0 {
        (s, None)
    } else {
        (s.drop_first(), Some(s[0]))
    }
}

/// The contents left and the element returned when the back of `s` is removed.
pub open spec fn pop_back_seq<T>(s: Seq<T>) -> (Seq<T>, Option<T>) {
    if s.len() == 0 {
        (s, None)
    } else {
        (s.drop_last(), Some(s.last()))
    }
}

/// `a` and `b` have the same length and elements that are equal one by one, by `T`'s `==`.
pub open spec fn same_elements<T: PartialEq>(a: Seq<T>, b: Seq<T>) -> bool {
    &&& a.len() == b.len()
    &&& forall|k: int| 0 <= k < a.len() ==> (#[trigger] a[k]).eq_spec(&b[k])
}

/// The contents after each element of `vs` is pushed at the front of `s`, in order.
pub open spec fn push_front_all<T>(s: Seq<T>, vs: Seq<T>) -> Seq<T>
    decreases vs.len(),
{
    if vs.len() == 0 {
        s
    } else {
        push_front_all(push_front_seq(s, vs[0]), vs.drop_first())
    }
}

/// The contents after each element of `vs` is pushed at the back of `s`, in order.
pub open spec fn push_back_all<T>(s: Seq<T>, vs: Seq<T>) -> Seq<T>
    decreases vs.len(),
{
    if vs.len() == 0 {
        s
    } else {
        push_back_all(push_back_seq(s, vs[0]), vs.drop_first())
    }
}

/// What `k` successive removals at the front return, starting from the contents `s`.
pub open spec fn pop_front_outputs<T>(s: Seq<T>, k: nat) -> Seq<Option<T>>
    decreases k,
{
    if k == 0 {
        Seq::empty()
    } else {
        let (rest, r) = pop_front_seq(s);
        seq![r] + pop_front_outputs(rest, (k - 1) as nat)
    }
}

/// What `k` successive removals at the back return, starting from the contents `s`.
pub open spec fn pop_back_outputs<T>(s: Seq<T>, k: nat) -> Seq<Option<T>>
    decreases k,
{
    if k == 0 {
        Seq::empty()
    } else {
        let (rest, r) = pop_back_seq(s);
        seq![r] + pop_back_outputs(rest, (k - 1) as nat)
    }
}

/// `k` absent results in a row.
pub open spec fn nones<T>(k: nat) -> Seq<Option<T>> {
    Seq::new(k, |i: int| None)
}

/// Pushing `v1, ..., vn` at the front, one after the other, puts them before the old
/// contents in the order `vn, ..., v1`; on a new list that is all it holds.
pub proof fn lemma_push_front_reverses<T>(s: Seq<T>, vs: Seq<T>)
    ensures
        push_front_all(s, vs) == vs.reverse() + s,
    decreases vs.len(),
{
    if vs.len() > 0 {
        let rest = vs.drop_first();
        lemma_push_front_reverses(push_front_seq(s, vs[0]), rest);
        assert(vs.reverse() =~= rest.reverse() + seq![vs[0]]);
        assert(rest.reverse() + push_front_seq(s, vs[0]) =~= vs.reverse() + s);
    } else {
        assert(vs.reverse() + s =~= s);
    }
}

/// Pushing `v1, ..., vn` at the back, one after the other, puts them after the old
/// contents in the order `v1, ..., vn`.
pub proof fn lemma_push_back_keeps_order<T>(s: Seq<T>, vs: Seq<T>)
    ensures
        push_back_all(s, vs) == s + vs,
    decreases vs.len(),
{
    if vs.len() > 0 {
        let rest = vs.drop_first();
        lemma_push_back_keeps_order(push_back_seq(s, vs[0]), rest);
        assert(push_back_seq(s, vs[0]) + rest =~= s + vs);
    } else {
        assert(s + vs =~= s);
    }
}

/// Removing at the front until nothing is left returns the elements from front to back,
/// and every removal after that returns `None`.
pub proof fn lemma_pop_front_drains_in_order<T>(s: Seq<T>, k: nat)
    requires
        k >= s.len(),
    ensures
        pop_front_outputs(s, k) == s.map_values(|v: T| Some(v)) + nones::<T>((k - s.len()) as nat),
    decreases k,
{
    if k > 0 {
        let (rest, r) = pop_front_seq(s);
        lemma_pop_front_drains_in_order(rest, (k - 1) as nat);
        if s.len() == 0 {
            assert(pop_front_outputs(s, k) =~= s.map_values(|v: T| Some(v)) + nones::<T>(k));
        } else {
            assert(pop_front_outputs(s, k) =~= s.map_values(|v: T| Some(v)) + nones::<T>(
                (k - s.len()) as nat,
            ));
        }
    } else {
        assert(pop_front_outputs(s, k) =~= s.map_values(|v: T| Some(v)) + nones::<T>(0));
    }
}

/// Removing at the back until nothing is left returns the elements from back to front,
/// and every removal after that returns `None`.
pub proof fn lemma_pop_back_drains_in_reverse<T>(s: Seq<T>, k: nat)
    requires
        k >= s.len(),
    ensures
        pop_back_outputs(s, k) == s.reverse().map_values(|v: T| Some(v)) + nones::<T>(
            (k - s.len()) as nat,
        ),
    decreases k,
{
    if k > 0 {
        let (rest, r) = pop_back_seq(s);
        lemma_pop_back_drains_in_reverse(rest, (k - 1) as nat);
        if s.len() == 0 {
            assert(pop_back_outputs(s, k) =~= s.reverse().map_values(|v: T| Some(v)) + nones::<T>(
                k,
            ));
        } else {
            assert(s.reverse() =~= seq![s.last()] + rest.reverse());
            assert(pop_back_outputs(s, k) =~= s.reverse().map_values(|v: T| Some(v)) + nones::<T>(
                (k - s.len()) as nat,
            ));
        }
    } else {
        assert(pop_back_outputs(s, k) =~= s.reverse().map_values(|v: T| Some(v)) + nones::<T>(0));
    }
}

/// Once a removal at either end has returned `None`, the list is empty, and every further
/// removal at either end returns `None` and leaves it as it is.
pub proof fn lemma_exhaustion_is_stable<T>(s: Seq<T>, k: nat)
    requires
        pop_front_seq(s).1 is None || pop_back_seq(s).1 is None,
    ensures
        s.len() == 0,
        pop_front_seq(s) == (s, None::<T>),
        pop_back_seq(s) == (s, None::<T>),
        pop_front_outputs(s, k) == nones::<T>(k),
        pop_back_outputs(s, k) == nones::<T>(k),
{
    lemma_pop_front_drains_in_order(s, k);
    lemma_pop_back_drains_in_reverse(s, k);
    assert(s.map_values(|v: T| Some(v)) + nones::<T>(k) =~= nones::<T>(k));
    assert(s.reverse().map_values(|v: T| Some(v)) + nones::<T>(k) =~= nones::<T>(k));
}

/// A list built from an array `[v1, v2, v3]` (its contents are the array's, in order) gives
/// back `v1`, `v2`, `v3`, in that order, when it is emptied from the front.
pub proof fn lemma_from_then_pop_front<T>(array: [T; 3])
    ensures
        pop_front_outputs(array@, 3) == seq![Some(array[0]), Some(array[1]), Some(array[2])],
{
    let s = array@;
    assert(s.len() == 3);
    lemma_pop_front_drains_in_order(s, 3);
    assert(s.map_values(|v: T| Some(v)) + nones::<T>(0) =~= seq![
        Some(array[0]),
        Some(array[1]),
        Some(array[2]),
    ]);
}

} // verus!
