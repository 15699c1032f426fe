//! Element-wise comparison helpers.

use vstd::prelude::*;

verus! {

/// Executable equality that is proven to agree with mathematical equality.
///
/// Implemented for every cell and marker type the library compares at run
/// time, so that generic code can test equality and still reason about it.
pub trait EqCheck: Sized {
    /// Compare two values; the result is exactly mathematical equality.
    fn eq_check(&self, other: &Self) -> (r: bool)
        ensures
            r == (*self == *other),
    ;
}

impl EqCheck for bool {
    fn eq_check(&self, other: &Self) -> (r: bool)
        ensures
            r == (*self == *other),
    {
        *self == *other
    }
}

impl EqCheck for u8 {
    fn eq_check(&self, other: &Self) -> (r: bool)
        ensures
            r == (*self == *other),
    {
        *self == *other
    }
}

impl EqCheck for u32 {
    fn eq_check(&self, other: &Self) -> (r: bool)
        ensures
            r == (*self == *other),
    {
        *self == *other
    }
}

impl EqCheck for i32 {
    fn eq_check(&self, other: &Self) -> (r: bool)
        ensures
            r == (*self == *other),
    {
        *self == *other
    }
}

impl EqCheck for () {
    fn eq_check(&self, other: &Self) -> (r: bool)
        ensures
            r == (*self == *other),
    {
        true
    }
}

impl<T: EqCheck> EqCheck for Option<T> {
    fn eq_check(&self, other: &Self) -> (r: bool)
        ensures
            r == (*self == *other),
    {
        match (self, other) {
            (Option::None, Option::None) => true,
            (Option::Some(a), Option::Some(b)) => a.eq_check(b),
            _ => false,
        }
    }
}

/// Whether the two sequences contain the same elements, each element of
/// one occurring somewhere in the other; multiplicity is not compared.
pub open spec fn spec_vec_set_eq<T>(a: Seq<T>, b: Seq<T>) -> bool {
    (forall|i: int| 0 <= i < a.len() ==> b.contains(#[trigger] a[i])) && (forall|i: int|
        0 <= i < b.len() ==> a.contains(#[trigger] b[i]))
}

/// Whether `v` contains an element equal to `x`.
pub fn vec_contains<T: EqCheck>(v: &Vec<T>, x: &T) -> (r: bool)
    ensures
        r == v@.contains(*x),
{
    let mut i: usize = 0;
    while i < v.len()
        invariant
            0 <= i <= v@.len(),
            forall|j: int| 0 <= j < i ==> v@[j] != *x,
        decreases v@.len() - i,
    {
        if v[i].eq_check(x) {
            return true;
        }
        i = i + 1;
    }
    false
}

/// Checks if two vectors are equal in the sense that each element of one
/// occurs in the other, in either direction; order and multiplicity do not
/// matter.
pub fn vec_equals<T: EqCheck>(vec_a: &Vec<T>, vec_b: &Vec<T>) -> (r: bool)
    ensures
        r == spec_vec_set_eq(vec_a@, vec_b@),
{
    let mut i: usize = 0;
    while i < vec_a.len()
        invariant
            0 <= i <= vec_a@.len(),
            forall|j: int| 0 <= j < i ==> vec_b@.contains(#[trigger] vec_a@[j]),
        decreases vec_a@.len() - i,
    {
        if !vec_contains(vec_b, &vec_a[i]) {
            return false;
        }
        i = i + 1;
    }
    let mut k: usize = 0;
    while k < vec_b.len()
        invariant
            forall|j: int| 0 <= j < vec_a@.len() ==> vec_b@.contains(#[trigger] vec_a@[j]),
            0 <= k <= vec_b@.len(),
            forall|j: int| 0 <= j < k ==> vec_a@.contains(#[trigger] vec_b@[j]),
        decreases vec_b@.len() - k,
    {
        if !vec_contains(vec_a, &vec_b[k]) {
            return false;
        }
        k = k + 1;
    }
    true
}

} // verus!
