use crate::key::OrdKey;
use vstd::prelude::*;

verus! {

/// No element of `s` in the index range `[lo, hi)` has the key `k`.
pub open spec fn absent_in<T: OrdKey>(s: Seq<T>, k: int, lo: int, hi: int) -> bool {
    forall|m: int| lo <= m < hi ==> #[trigger] s[m].key() != k
}

/// The keys of `s` never decrease from left to right.
pub open spec fn sorted_by_key<T: OrdKey>(s: Seq<T>) -> bool {
    forall|a: int, b: int| 0 <= a <= b < s.len() ==> #[trigger] s[a].key() <= #[trigger] s[b].key()
}

/// Scans `arr` from the left; returns the first index whose element has the
/// key of `value`, or -1 when there is none.
pub fn sequential_search<T: OrdKey>(arr: &[T], value: &T) -> (r: i32)
    requires
        arr@.len() <= i32::MAX,
    ensures
        r == -1 <==> absent_in(arr@, value.key(), 0, arr@.len() as int),
        r != -1 ==> 0 <= r < arr@.len() && arr@[r as int].key() == value.key() && absent_in(
            arr@,
            value.key(),
            0,
            r as int,
        ),
{
    let mut i: usize = 0;
    while i < arr.len()
        invariant
            arr@.len() <= i32::MAX,
            i <= arr@.len(),
            absent_in(arr@, value.key(), 0, i as int),
        decreases arr@.len() - i,
    {
        if arr[i].key_eq(value) {
            return i as i32;
        }
        i = i + 1;
    }
    -1
}

/// The recursive form of `sequential_search`, scanning from `index` on:
/// returns the first index at or after `index` whose element has the key of
/// `value`, or -1 when there is none.
pub fn recursive_sequential_search<T: OrdKey>(arr: &[T], value: &T, index: usize) -> (r: i32)
    requires
        arr@.len() <= i32::MAX,
    ensures
        r == -1 <==> absent_in(arr@, value.key(), index as int, arr@.len() as int),
        r != -1 ==> index <= r < arr@.len() && arr@[r as int].key() == value.key() && absent_in(
            arr@,
            value.key(),
            index as int,
            r as int,
        ),
    decreases arr@.len() - index,
{
    if index >= arr.len() {
        return -1;
    }
    if arr[index].key_eq(value) {
        return index as i32;
    }
    recursive_sequential_search(arr, value, index + 1)
}

/// Binary search over `arr`, whose keys are sorted: returns an index whose
/// element has the key of `value`, or -1 when there is none (in particular
/// when `arr` is empty).
pub fn binary_search<T: OrdKey>(arr: &[T], value: &T) -> (r: i32)
    requires
        arr@.len() <= i32::MAX,
        sorted_by_key(arr@),
    ensures
        r == -1 <==> absent_in(arr@, value.key(), 0, arr@.len() as int),
        r != -1 ==> 0 <= r < arr@.len() && arr@[r as int].key() == value.key(),
{
    if arr.len() == 0 {
        return -1;
    }
    let mut l: usize = 0;
    let mut r: usize = arr.len() - 1;
    while l <= r
        invariant
            0 < arr@.len() <= i32::MAX,
            sorted_by_key(arr@),
            l <= arr@.len(),
            r < arr@.len(),
            absent_in(arr@, value.key(), 0, l as int),
            absent_in(arr@, value.key(), r + 1, arr@.len() as int),
        decreases r + 1 - l,
    {
        let mid: usize = l + (r - l) / 2;
        if arr[mid].key_eq(value) {
            return mid as i32;
        }
        if value.key_lt(&arr[mid]) {
            if mid == 0 {
                return -1;
            }
            r = mid - 1;
        } else {
            l = mid + 1;
        }
    }
    -1
}

/// The recursive form of `binary_search`, over the inclusive index range
/// `[l, r]` of `arr`, whose keys are sorted: returns an index in that range
/// whose element has the key of `value`, or -1 when there is none.
pub fn recursive_binary_search<T: OrdKey>(arr: &[T], value: &T, l: usize, r: usize) -> (res: i32)
    requires
        arr@.len() <= i32::MAX,
        l <= r ==> r < arr@.len(),
        sorted_by_key(arr@),
    ensures
        res == -1 <==> absent_in(arr@, value.key(), l as int, r + 1),
        res != -1 ==> l <= res <= r && arr@[res as int].key() == value.key(),
    decreases r + 1 - l,
{
    if l > r {
        return -1;
    }
    let mid: usize = l + (r - l) / 2;
    if arr[mid].key_eq(value) {
        return mid as i32;
    }
    if value.key_lt(&arr[mid]) {
        if mid == 0 {
            return -1;
        }
        return recursive_binary_search(arr, value, l, mid - 1);
    }
    recursive_binary_search(arr, value, mid + 1, r)
}

} // verus!
