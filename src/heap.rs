use crate::key::OrdKey;
use crate::tree::{in_subtree, lemma_in_subtree_child};
use vstd::multiset::Multiset;
use vstd::prelude::*;
use vstd::seq_lib::{
    group_to_multiset_ensures, lemma_multiset_commutative, to_multiset_contains, to_multiset_update,
};

verus! {

/// Which way a heap is ordered: the largest key at the root, or the smallest.
#[allow(non_camel_case_types)]
#[derive(Debug, Clone, Copy, PartialEq, Eq, Structural)]
pub enum Heap_Type {
    Max,
    Min,
}

/// The index of the parent of node `c` in the level-order layout.
pub open spec fn parent(c: int) -> int {
    (c - 1) / 2
}

/// Key `a` strictly beats key `b` under the polarity `ht`.
pub open spec fn wins(ht: Heap_Type, a: int, b: int) -> bool {
    match ht {
        Heap_Type::Max => a > b,
        Heap_Type::Min => a < b,
    }
}

/// Key `a` may stand above key `b` in a heap of polarity `ht`.
pub open spec fn ordered(ht: Heap_Type, a: int, b: int) -> bool {
    !wins(ht, b, a)
}

/// Every node `c` below `n` whose parent is at index `i` or later is ordered
/// against that parent.
pub open spec fn ordered_from<T: OrdKey>(s: Seq<T>, ht: Heap_Type, i: int, n: int) -> bool {
    forall|c: int|
        0 < c < n && #[trigger] parent(c) >= i ==> ordered(ht, s[parent(c)].key(), s[c].key())
}

/// The first `n` elements of `s`, seen as a complete binary tree with root 0
/// and children `2i+1`, `2i+2`, are heap-ordered.
pub open spec fn heap_ordered<T: OrdKey>(s: Seq<T>, ht: Heap_Type, n: int) -> bool {
    ordered_from(s, ht, 0, n)
}

/// The keys of `s` run in the order that heap-sort yields under `ht`:
/// ascending for `Max`, descending for `Min`.
pub open spec fn sorted_for<T: OrdKey>(s: Seq<T>, ht: Heap_Type) -> bool {
    forall|a: int, b: int|
        0 <= a <= b < s.len() ==> ordered(ht, #[trigger] s[b].key(), #[trigger] s[a].key())
}

/// In a heap-ordered prefix, the root is ordered against every node.
pub proof fn lemma_root_dominates<T: OrdKey>(s: Seq<T>, ht: Heap_Type, n: int, k: int)
    requires
        heap_ordered(s, ht, n),
        0 <= k < n <= s.len(),
    ensures
        ordered(ht, s[0].key(), s[k].key()),
    decreases k,
{
    if k > 0 {
        let p = parent(k);
        lemma_root_dominates(s, ht, n, p);
        assert(ordered(ht, s[p].key(), s[k].key()));
    }
}

/// Exchanging two entries below `n` keeps what the first `n` entries hold,
/// and leaves the rest in place.
proof fn lemma_swap_prefix<T>(s: Seq<T>, x: int, y: int, n: int)
    requires
        0 <= x < n,
        0 <= y < n,
        n <= s.len(),
    ensures
        s.update(x, s[y]).update(y, s[x]).subrange(0, n).to_multiset() == s.subrange(
            0,
            n,
        ).to_multiset(),
        s.update(x, s[y]).update(y, s[x]).subrange(n, s.len() as int) == s.subrange(
            n,
            s.len() as int,
        ),
{
    broadcast use vstd::multiset::group_multiset_axioms;

    let t = s.subrange(0, n);
    let t1 = t.update(x, t[y]);
    assert(s.update(x, s[y]).update(y, s[x]).subrange(0, n) =~= t1.update(y, t[x]));
    assert(s.update(x, s[y]).update(y, s[x]).subrange(n, s.len() as int) =~= s.subrange(
        n,
        s.len() as int,
    ));
    to_multiset_update(t, x, t[y]);
    to_multiset_update(t1, y, t[x]);
    assert(t.contains(t[x]));
    to_multiset_contains(t, t[x]);
    assert(t1.update(y, t[x]).to_multiset() =~= t.to_multiset());
}

/// Two sequences of one length that hold the same prefix multiset and the
/// same suffix hold the same multiset.
proof fn lemma_prefix_suffix_multiset<T>(s1: Seq<T>, s2: Seq<T>, n: int)
    requires
        0 <= n <= s1.len(),
        s1.len() == s2.len(),
        s1.subrange(0, n).to_multiset() == s2.subrange(0, n).to_multiset(),
        s1.subrange(n, s1.len() as int) == s2.subrange(n, s2.len() as int),
    ensures
        s1.to_multiset() == s2.to_multiset(),
{
    assert(s1 =~= s1.subrange(0, n) + s1.subrange(n, s1.len() as int));
    assert(s2 =~= s2.subrange(0, n) + s2.subrange(n, s2.len() as int));
    lemma_multiset_commutative(s1.subrange(0, n), s1.subrange(n, s1.len() as int));
    lemma_multiset_commutative(s2.subrange(0, n), s2.subrange(n, s2.len() as int));
}

/// Every element of the first `n` entries of `t` stood among the first `n`
/// entries of `s`, when the two prefixes hold the same multiset.
proof fn lemma_prefix_member<T>(s: Seq<T>, t: Seq<T>, n: int, a: int)
    requires
        0 <= a < n <= s.len(),
        n <= t.len(),
        t.subrange(0, n).to_multiset() == s.subrange(0, n).to_multiset(),
    ensures
        exists|k: int| 0 <= k < n && s[k] == t[a],
{
    let ts = t.subrange(0, n);
    let ss = s.subrange(0, n);
    assert(ts[a] == t[a]);
    to_multiset_contains(ts, t[a]);
    to_multiset_contains(ss, t[a]);
    let k = choose|k: int| 0 <= k < ss.len() && ss[k] == t[a];
    assert(s[k] == t[a]);
}

/// All nodes of `s` but `j` are ordered against their parents, and the
/// children of `j` are ordered against the parent of `j`.
spec fn heap_except<T: OrdKey>(s: Seq<T>, ht: Heap_Type, j: int) -> bool {
    &&& forall|c: int|
        0 < c < s.len() && c != j && #[trigger] parent(c) >= 0 ==> ordered(
            ht,
            s[parent(c)].key(),
            s[c].key(),
        )
    &&& j > 0 ==> forall|c: int|
        0 < c < s.len() && #[trigger] parent(c) == j ==> ordered(
            ht,
            s[parent(j)].key(),
            s[c].key(),
        )
}

/// The array that sifting the element at `j` up yields: it changes place
/// with its parent until the parent beats it or it reaches the root.
pub open spec fn sifted_up<T: OrdKey>(s: Seq<T>, ht: Heap_Type, j: int) -> Seq<T>
    decreases j,
{
    if j <= 0 || j >= s.len() || wins(ht, s[parent(j)].key(), s[j].key()) {
        s
    } else {
        sifted_up(s.update(parent(j), s[j]).update(j, s[parent(j)]), ht, parent(j))
    }
}

/// The array that sifting the element at `j` down within the first `n`
/// entries yields: while a child below `n` beats it, it changes place with
/// the child that wins (the left one on a tie), and goes on from there.
pub open spec fn sifted_down<T: OrdKey>(s: Seq<T>, ht: Heap_Type, j: int, n: int) -> Seq<T>
    decreases n - j,
{
    if j < 0 || j >= n / 2 || n > s.len() {
        s
    } else {
        let l = 2 * j + 1;
        let r = 2 * j + 2;
        let a = if l < n && wins(ht, s[l].key(), s[j].key()) {
            l
        } else {
            j
        };
        let b = if r < n && wins(ht, s[r].key(), s[a].key()) {
            r
        } else {
            a
        };
        if b == j {
            s
        } else {
            sifted_down(s.update(j, s[b]).update(b, s[j]), ht, b, n)
        }
    }
}

/// Every node below `n` whose parent lies in the subtree of a child of `i`
/// is ordered against that parent.
pub open spec fn children_ordered<T: OrdKey>(s: Seq<T>, ht: Heap_Type, i: int, n: int) -> bool {
    forall|c: int|
        0 < c < n && #[trigger] parent(c) >= 0 && (in_subtree(parent(c), 2 * i + 1) || in_subtree(
            parent(c),
            2 * i + 2,
        )) ==> ordered(ht, s[parent(c)].key(), s[c].key())
}

/// Every node below `n` whose parent lies in the subtree of `i` is ordered
/// against that parent.
pub open spec fn subtree_ordered<T: OrdKey>(s: Seq<T>, ht: Heap_Type, i: int, n: int) -> bool {
    forall|c: int|
        0 < c < n && #[trigger] parent(c) >= 0 && in_subtree(parent(c), i) ==> ordered(
            ht,
            s[parent(c)].key(),
            s[c].key(),
        )
}

/// The array that `build_heap` yields: the nodes `i - 1` down to 0 are
/// sifted down in turn within the first `n` entries.
pub open spec fn built<T: OrdKey>(s: Seq<T>, ht: Heap_Type, i: int, n: int) -> Seq<T>
    decreases i,
{
    if i <= 0 {
        s
    } else {
        built(sifted_down(s, ht, i - 1, n), ht, i - 1, n)
    }
}

/// Index `k` of `s` is where the scan of the leaf half `[len/2, len)` stops:
/// no leaf beats `s[k]` in reverse, that is, under the opposite of `ht`, and
/// every leaf before it is strictly beaten by it in reverse.
pub open spec fn leaf_pick<T: OrdKey>(s: Seq<T>, ht: Heap_Type, k: int) -> bool {
    &&& s.len() / 2 <= k < s.len()
    &&& forall|m: int| s.len() / 2 <= m < s.len() ==> !wins(ht, s[k].key(), #[trigger] s[m].key())
    &&& forall|m: int| s.len() / 2 <= m < k ==> wins(ht, #[trigger] s[m].key(), s[k].key())
}

/// Why `increase_key` refused to change a heap.
#[derive(Debug, Clone, Copy, PartialEq, Eq, Structural)]
pub enum KeyError {
    /// The index lies outside the array.
    IndexOutOfBounds,
    /// The new key does not strictly beat the current one.
    KeyNotImproving,
}

/// A binary heap stored as a vector in level order, with its polarity.
#[derive(Debug)]
pub struct Heap<T: OrdKey> {
    arr: Vec<T>,
    heap_type: Heap_Type,
}

impl<T: OrdKey> View for Heap<T> {
    type V = Seq<T>;

    closed spec fn view(&self) -> Seq<T> {
        self.arr@
    }
}

impl<T: OrdKey> Heap<T> {
    /// The polarity fixed at construction.
    pub closed spec fn polarity(&self) -> Heap_Type {
        self.heap_type
    }

    /// The whole array is heap-ordered under the heap's polarity.
    pub open spec fn is_heap(&self) -> bool {
        heap_ordered(self@, self.polarity(), self@.len() as int)
    }

    /// Wraps `arr` as it stands; call `build_heap` to put it in heap order.
    pub fn new(arr: Vec<T>, heap_type: Heap_Type) -> (r: Self)
        ensures
            r@ == arr@,
            r.polarity() == heap_type,
    {
        Heap { arr, heap_type }
    }

    /// Whether the element at `i` beats the one at `j`.
    fn compare(&self, i: usize, j: usize) -> (r: bool)
        requires
            i < self@.len(),
            j < self@.len(),
        ensures
            r == wins(self.polarity(), self@[i as int].key(), self@[j as int].key()),
    {
        self.compare_type(self.arr[i], self.arr[j])
    }

    /// Whether `x` beats `y` under this heap's polarity.
    pub fn compare_type(&self, x: T, y: T) -> (r: bool)
        ensures
            r == wins(self.polarity(), x.key(), y.key()),
    {
        match self.heap_type {
            Heap_Type::Max => y.key_lt(&x),
            Heap_Type::Min => x.key_lt(&y),
        }
    }

    /// The polarity fixed at construction.
    pub fn heap_type(&self) -> (r: Heap_Type)
        ensures
            r == self.polarity(),
    {
        self.heap_type
    }

    /// The stored array, in level order.
    pub fn as_vec(&self) -> (r: &Vec<T>)
        ensures
            r@ == self@,
    {
        &self.arr
    }

    /// The number of stored elements.
    pub fn size(&self) -> (r: usize)
        ensures
            r == self@.len(),
    {
        self.arr.len()
    }

    fn left_child_index(i: usize) -> (r: usize)
        requires
            i < usize::MAX / 2,
        ensures
            r == 2 * i + 1,
    {
        Self::right_child_index(i) - 1
    }

    fn right_child_index(i: usize) -> (r: usize)
        requires
            i < usize::MAX / 2,
        ensures
            r == 2 * i + 2,
    {
        (i + 1) * 2
    }

    fn parent_index(i: usize) -> (r: usize)
        requires
            i > 0,
        ensures
            r == parent(i as int),
    {
        (i - 1) / 2
    }

    fn swap(&mut self, x: usize, y: usize)
        requires
            x < old(self)@.len(),
            y < old(self)@.len(),
        ensures
            final(self)@ == old(self)@.update(x as int, old(self)@[y as int]).update(
                y as int,
                old(self)@[x as int],
            ),
            final(self).polarity() == old(self).polarity(),
    {
        let z = self.arr[x];
        let w = self.arr[y];
        self.arr.set(x, w);
        self.arr.set(y, z);
    }

    /// Removes every element.
    pub fn clear(&mut self)
        ensures
            final(self)@ == Seq::<T>::empty(),
            final(self).polarity() == old(self).polarity(),
    {
        self.arr.clear();
    }

    /// Sifts the element at `i` down within the first `n` elements. The
    /// elements from `n` on stay where they are, and the first `n` are
    /// permuted; if every node below `n` whose parent lies after `i` was
    /// ordered, then afterwards so is every node whose parent lies at `i` or
    /// after.
    pub fn heapify(&mut self, i: usize, n: usize)
        requires
            n <= old(self)@.len(),
        ensures
            final(self).polarity() == old(self).polarity(),
            final(self)@.len() == old(self)@.len(),
            final(self)@.subrange(0, n as int).to_multiset() == old(self)@.subrange(
                0,
                n as int,
            ).to_multiset(),
            final(self)@.subrange(n as int, old(self)@.len() as int) == old(self)@.subrange(
                n as int,
                old(self)@.len() as int,
            ),
            final(self)@ == sifted_down(old(self)@, old(self).polarity(), i as int, n as int),
            forall|k: int|
                0 <= k < old(self)@.len() && !in_subtree(k, i as int) ==> #[trigger] final(self)@[k]
                    == old(self)@[k],
            (forall|c: int|
                0 < c < n && #[trigger] parent(c) == i ==> !wins(
                    old(self).polarity(),
                    old(self)@[c].key(),
                    old(self)@[i as int].key(),
                )) ==> final(self)@ == old(self)@,
            ordered_from(old(self)@, old(self).polarity(), i + 1, n as int) ==> ordered_from(
                final(self)@,
                old(self).polarity(),
                i as int,
                n as int,
            ),
            children_ordered(old(self)@, old(self).polarity(), i as int, n as int) ==> subtree_ordered(
                final(self)@,
                old(self).polarity(),
                i as int,
                n as int,
            ),
    {
        let ghost s0 = self@;
        let ghost ht = self.polarity();
        let ghost good = ordered_from(s0, ht, i + 1, n as int);
        let ghost goodl = children_ordered(s0, ht, i as int, n as int);
        proof {
            if goodl {
                assert forall|c: int|
                    0 < c < n && #[trigger] parent(c) >= 0 && in_subtree(parent(c), i as int) && parent(c)
                        != i implies ordered(ht, s0[parent(c)].key(), s0[c].key()) by {
                    lemma_in_subtree_child(parent(c), i as int);
                }
            }
        }
        let mut j = i;
        if i >= n {
            return;
        }
        loop
            invariant
                self.polarity() == ht,
                self@.len() == s0.len(),
                n <= s0.len(),
                i <= j < n,
                j > i ==> parent(j as int) >= i,
                in_subtree(j as int, i as int),
                j > i ==> in_subtree(parent(j as int), i as int),
                goodl ==> forall|c: int|
                    0 < c < n && #[trigger] parent(c) >= 0 && in_subtree(parent(c), i as int) && parent(c)
                        != j ==> ordered(ht, self@[parent(c)].key(), self@[c].key()),
                goodl && j > i ==> forall|c: int|
                    0 < c < n && #[trigger] parent(c) == j ==> ordered(
                        ht,
                        self@[parent(j as int)].key(),
                        self@[c].key(),
                    ),
                sifted_down(self@, ht, j as int, n as int) == sifted_down(s0, ht, i as int, n as int),
                forall|k: int|
                    0 <= k < s0.len() && !in_subtree(k, i as int) ==> #[trigger] self@[k] == s0[k],
                self@.subrange(0, n as int).to_multiset() == s0.subrange(0, n as int).to_multiset(),
                self@.subrange(n as int, s0.len() as int) == s0.subrange(n as int, s0.len() as int),
                good ==> forall|c: int|
                    0 < c < n && #[trigger] parent(c) >= i && parent(c) != j ==> ordered(
                        ht,
                        self@[parent(c)].key(),
                        self@[c].key(),
                    ),
                good && j > i ==> forall|c: int|
                    0 < c < n && #[trigger] parent(c) == j ==> ordered(
                        ht,
                        self@[parent(j as int)].key(),
                        self@[c].key(),
                    ),
            ensures
                self.polarity() == ht,
                self@.len() == s0.len(),
                self@.subrange(0, n as int).to_multiset() == s0.subrange(0, n as int).to_multiset(),
                self@.subrange(n as int, s0.len() as int) == s0.subrange(n as int, s0.len() as int),
                self@ == sifted_down(s0, ht, i as int, n as int),
                goodl ==> subtree_ordered(self@, ht, i as int, n as int),
                forall|k: int|
                    0 <= k < s0.len() && !in_subtree(k, i as int) ==> #[trigger] self@[k] == s0[k],
                good ==> ordered_from(self@, ht, i as int, n as int),
            decreases n - j,
        {
            if j >= n / 2 {
                assert(forall|c: int| 0 < c < n ==> #[trigger] parent(c) != j);
                break;
            }
            let l = Self::left_child_index(j);
            let r = l + 1;
            let mut largest = j;
            if l < n && self.compare(l, largest) {
                largest = l;
            }
            if r < n && self.compare(r, largest) {
                largest = r;
            }
            if largest == j {
                assert(forall|c: int| 0 < c < n && #[trigger] parent(c) == j ==> c == l || c == r);
                break;
            }
            let ghost s1 = self@;
            self.swap(j, largest);
            proof {
                lemma_swap_prefix(s1, j as int, largest as int, n as int);
                assert(forall|c: int| 0 < c < n && #[trigger] parent(c) == j ==> c == l || c == r);
                assert(forall|c: int|
                    0 < c < n && #[trigger] parent(c) == largest ==> c == 2 * largest + 1 || c
                        == 2 * largest + 2);
                assert(parent(largest as int) == j);
                assert(in_subtree(largest as int, i as int));
                assert(!in_subtree(parent(i as int), i as int));
            }
            j = largest;
        }
        proof {
            if forall|c: int|
                0 < c < n && #[trigger] parent(c) == i ==> !wins(ht, s0[c].key(), s0[i as int].key()) {
                if i < n / 2 {
                    assert(parent(2 * i + 1) == i);
                    assert(parent(2 * i + 2) == i);
                }
                assert(sifted_down(s0, ht, i as int, n as int) == s0);
            }
        }
    }

    /// Turns the array into a heap by sifting down every internal node, from
    /// the last one up to the root.
    pub fn build_heap(&mut self)
        ensures
            final(self).polarity() == old(self).polarity(),
            final(self)@.to_multiset() == old(self)@.to_multiset(),
            final(self)@.len() == old(self)@.len(),
            final(self).is_heap(),
            final(self)@ == built(
                old(self)@,
                old(self).polarity(),
                (old(self)@.len() / 2) as int,
                old(self)@.len() as int,
            ),
            old(self).is_heap() ==> final(self)@ == old(self)@,
    {
        let ghost s0 = self@;
        let ghost ht = self.polarity();
        let n = self.arr.len();
        let mut i = n / 2;
        assert(forall|c: int| 0 < c < n ==> #[trigger] parent(c) < i);
        while i > 0
            invariant
                self.polarity() == ht,
                self@.len() == n,
                self@.to_multiset() == s0.to_multiset(),
                ordered_from(self@, ht, i as int, n as int),
                built(self@, ht, i as int, n as int) == built(s0, ht, (n / 2) as int, n as int),
                heap_ordered(s0, ht, n as int) ==> self@ == s0,
            decreases i,
        {
            i = i - 1;
            let ghost s1 = self@;
            self.heapify(i, n);
            proof {
                if heap_ordered(s0, ht, n as int) {
                    assert(forall|c: int|
                        0 < c < n && #[trigger] parent(c) == i ==> !wins(
                            ht,
                            s1[c].key(),
                            s1[i as int].key(),
                        ));
                }
            }
            assert(self@.subrange(0, n as int) =~= self@);
            assert(s1.subrange(0, n as int) =~= s1);
        }
    }

    /// Heap-sort in place: ascending keys for `Max`, descending for `Min`.
    /// The heap order is not kept.
    pub fn sort(&mut self)
        ensures
            final(self).polarity() == old(self).polarity(),
            final(self)@.to_multiset() == old(self)@.to_multiset(),
            final(self)@.len() == old(self)@.len(),
            sorted_for(final(self)@, old(self).polarity()),
    {
        let ghost ht = self.polarity();
        self.build_heap();
        let ghost s0 = self@;
        let n = self.arr.len();
        let mut i = n;
        while i > 1
            invariant
                self.polarity() == ht,
                self@.len() == n,
                self@.to_multiset() == s0.to_multiset(),
                i <= n,
                n > 0 ==> i >= 1,
                heap_ordered(self@, ht, i as int),
                forall|a: int, b: int|
                    i <= a <= b < n ==> ordered(ht, #[trigger] self@[b].key(), #[trigger] self@[a].key()),
                forall|a: int, b: int|
                    0 <= a < i <= b < n ==> ordered(ht, #[trigger] self@[b].key(), #[trigger] self@[a].key()),
            decreases i,
        {
            i = i - 1;
            let ghost s1 = self@;
            self.swap(0, i);
            let ghost s2 = self@;
            proof {
                lemma_swap_prefix(s1, 0, i as int, i + 1);
                lemma_prefix_suffix_multiset(s2, s1, i + 1);
                assert forall|c: int| 0 < c < i && #[trigger] parent(c) >= 1 implies ordered(
                    ht,
                    s2[parent(c)].key(),
                    s2[c].key(),
                ) by {
                    assert(parent(c) >= 0);
                }
            }
            self.heapify(0, i);
            proof {
                let s3 = self@;
                lemma_prefix_suffix_multiset(s3, s2, i as int);
                assert forall|b: int| i <= b < n implies #[trigger] s3[b] == s2[b] by {
                    assert(s3.subrange(i as int, n as int)[b - i] == s2.subrange(i as int, n as int)[b - i]);
                }
                assert(s3[i as int] == s1[0]);
                assert forall|a: int, b: int|
                    0 <= a < i <= b < n implies ordered(ht, #[trigger] s3[b].key(), #[trigger] s3[a].key()) by {
                    lemma_prefix_member(s2, s3, i as int, a);
                    let k = choose|k: int| 0 <= k < i && s2[k] == s3[a];
                    let k1 = if k == 0 { i as int } else { k };
                    assert(s3[a] == s1[k1]);
                    lemma_root_dominates(s1, ht, i + 1, k1);
                    if b > i {
                        assert(s3[b] == s1[b]);
                    }
                }
                assert forall|a: int, b: int|
                    i <= a <= b < n implies ordered(ht, #[trigger] s3[b].key(), #[trigger] s3[a].key()) by {
                    if a == i {
                        assert(s3[a] == s1[0]);
                        if b > i {
                            assert(s3[b] == s1[b]);
                            assert(ordered(ht, s1[b].key(), s1[0].key()));
                        }
                    } else {
                        assert(s3[a] == s2[a]);
                        assert(s3[b] == s2[b]);
                        assert(s3[a] == s1[a]);
                        assert(s3[b] == s1[b]);
                    }
                }
            }
        }
    }

    /// The root, if the heap is not empty.
    pub fn get_root(&self) -> (r: Option<T>)
        ensures
            self@.len() == 0 ==> r is None,
            self@.len() > 0 ==> r == Some(self@[0]),
    {
        if self.arr.len() == 0 {
            return None;
        }
        Some(self.arr[0])
    }

    /// The leaf extreme: scanning the second half of the array, the element
    /// that every other leaf beats or ties under the heap's polarity (the
    /// smallest leaf of a max-heap), the first such on ties.
    pub fn get_leaf(&self) -> (r: Option<T>)
        ensures
            self@.len() == 0 ==> r is None,
            self@.len() > 0 ==> exists|k: int|
                leaf_pick(self@, self.polarity(), k) && r == Some(#[trigger] self@[k]),
    {
        let n = self.arr.len();
        if n == 0 {
            return None;
        }
        let mut leaf = self.arr[n / 2];
        let ghost mut k: int = (n / 2) as int;
        let mut i = n / 2;
        while i < n
            invariant
                n == self@.len(),
                n / 2 <= k < n,
                n / 2 <= i <= n,
                k <= i || k == n / 2,
                leaf == self@[k],
                forall|m: int| n / 2 <= m < i ==> !wins(self.polarity(), leaf.key(), #[trigger] self@[m].key()),
                forall|m: int| n / 2 <= m < k ==> wins(self.polarity(), #[trigger] self@[m].key(), leaf.key()),
            decreases n - i,
        {
            if self.compare_type(leaf, self.arr[i]) {
                leaf = self.arr[i];
                proof {
                    k = i as int;
                }
            }
            i = i + 1;
        }
        assert(leaf_pick(self@, self.polarity(), k));
        Some(leaf)
    }

    /// Removes and returns the root: the root changes place with the last
    /// element, the rest is sifted down, and the last slot is dropped.
    pub fn extract_root(&mut self) -> (r: Option<T>)
        ensures
            final(self).polarity() == old(self).polarity(),
            old(self)@.len() == 0 ==> r is None && final(self)@ == old(self)@,
            old(self)@.len() > 0 ==> r == Some(old(self)@[0]) && final(self)@.len() == old(
                self,
            )@.len() - 1 && final(self)@.to_multiset() == old(self)@.to_multiset().remove(
                old(self)@[0],
            ),
            old(self).is_heap() ==> final(self).is_heap(),
    {
        let ghost s1 = self@;
        let ghost ht = self.polarity();
        let n = self.arr.len();
        if n == 0 {
            return None;
        }
        self.swap(0, n - 1);
        let ghost s2 = self@;
        proof {
            lemma_swap_prefix(s1, 0, n - 1, n as int);
            assert(s2.subrange(0, n as int) =~= s2);
            assert(s1.subrange(0, n as int) =~= s1);
            if heap_ordered(s1, ht, n as int) {
                assert forall|c: int| 0 < c < n - 1 && #[trigger] parent(c) >= 1 implies ordered(
                    ht,
                    s2[parent(c)].key(),
                    s2[c].key(),
                ) by {
                    assert(parent(c) >= 0);
                }
            }
        }
        self.heapify(0, n - 1);
        let ghost s3 = self@;
        proof {
            lemma_prefix_suffix_multiset(s3, s2, n - 1);
            assert(s3.subrange(n - 1, n as int)[0] == s2.subrange(n - 1, n as int)[0]);
            assert(s3 =~= s3.subrange(0, n - 1).push(s1[0]));
        }
        let r = self.arr.pop();
        proof {
            broadcast use group_to_multiset_ensures, vstd::multiset::group_multiset_axioms;

            let s4 = self@;
            assert(s4 =~= s3.subrange(0, n - 1));
            assert(s3.to_multiset() == s4.to_multiset().insert(s1[0]));
            assert(s4.to_multiset() =~= s1.to_multiset().remove(s1[0]));
            if heap_ordered(s1, ht, n as int) {
                assert forall|c: int| 0 < c < s4.len() && #[trigger] parent(c) >= 0 implies ordered(
                    ht,
                    s4[parent(c)].key(),
                    s4[c].key(),
                ) by {
                    assert(s4[c] == s3[c]);
                    assert(s4[parent(c)] == s3[parent(c)]);
                }
            }
        }
        r
    }

    /// Moves the element at `i` up while it is not beaten by its parent.
    fn sift_up(&mut self, i: usize)
        requires
            i < old(self)@.len(),
        ensures
            final(self).polarity() == old(self).polarity(),
            final(self)@.len() == old(self)@.len(),
            final(self)@.to_multiset() == old(self)@.to_multiset(),
            final(self)@ == sifted_up(old(self)@, old(self).polarity(), i as int),
            heap_except(old(self)@, old(self).polarity(), i as int) ==> final(self).is_heap(),
    {
        let ghost s0 = self@;
        let ghost ht = self.polarity();
        let ghost good = heap_except(s0, ht, i as int);
        let n = self.arr.len();
        let mut j = i;
        while j > 0
            invariant
                self.polarity() == ht,
                self@.len() == n,
                n == s0.len(),
                j < n,
                self@.to_multiset() == s0.to_multiset(),
                sifted_up(self@, ht, j as int) == sifted_up(s0, ht, i as int),
                good ==> heap_except(self@, ht, j as int),
            ensures
                self.polarity() == ht,
                self@.len() == n,
                self@.to_multiset() == s0.to_multiset(),
                self@ == sifted_up(s0, ht, i as int),
                good ==> heap_ordered(self@, ht, n as int),
            decreases j,
        {
            let par = Self::parent_index(j);
            if self.compare(par, j) {
                proof {
                    if good {
                        assert forall|c: int| 0 < c < n && #[trigger] parent(c) >= 0 implies ordered(
                            ht,
                            self@[parent(c)].key(),
                            self@[c].key(),
                        ) by {
                            if c == j {
                                assert(parent(c) == par);
                            }
                        }
                    }
                }
                break;
            }
            let ghost s1 = self@;
            self.swap(par, j);
            proof {
                lemma_swap_prefix(s1, par as int, j as int, n as int);
                assert(self@.subrange(0, n as int) =~= self@);
                assert(s1.subrange(0, n as int) =~= s1);
                if good {
                    let s2 = self@;
                    assert forall|c: int| 0 < c < n && c != par && #[trigger] parent(c) >= 0 implies ordered(
                        ht,
                        s2[parent(c)].key(),
                        s2[c].key(),
                    ) by {
                        if parent(c) == j {
                            assert(ordered(ht, s1[parent(j as int)].key(), s1[c].key()));
                        } else if parent(c) == par && c != j {
                            assert(ordered(ht, s1[par as int].key(), s1[c].key()));
                        }
                    }
                    if par > 0 {
                        assert forall|c: int| 0 < c < n && #[trigger] parent(c) == par implies ordered(
                            ht,
                            s2[parent(par as int)].key(),
                            s2[c].key(),
                        ) by {
                            assert(parent(par as int) >= 0);
                            assert(ordered(ht, s1[parent(par as int)].key(), s1[par as int].key()));
                            if c != j {
                                assert(ordered(ht, s1[par as int].key(), s1[c].key()));
                            }
                        }
                    }
                }
            }
            j = par;
        }
        proof {
            if good && j == 0 {
                assert forall|c: int| 0 < c < n && #[trigger] parent(c) >= 0 implies ordered(
                    ht,
                    self@[parent(c)].key(),
                    self@[c].key(),
                ) by {}
            }
        }
    }

    /// Appends `value` and sifts it up to its place.
    pub fn insert(&mut self, value: T)
        ensures
            final(self).polarity() == old(self).polarity(),
            final(self)@.len() == old(self)@.len() + 1,
            final(self)@.to_multiset() == old(self)@.to_multiset().insert(value),
            final(self)@ == sifted_up(
                old(self)@.push(value),
                old(self).polarity(),
                old(self)@.len() as int,
            ),
            old(self).is_heap() ==> final(self).is_heap(),
    {
        let ghost s0 = self@;
        self.arr.push(value);
        proof {
            broadcast use group_to_multiset_ensures;

            let s1 = self@;
            assert(s1 == s0.push(value));
            if heap_ordered(s0, self.polarity(), s0.len() as int) {
                assert forall|c: int| 0 < c < s1.len() && c != s0.len() && #[trigger] parent(c) >= 0 implies ordered(
                    self.polarity(),
                    s1[parent(c)].key(),
                    s1[c].key(),
                ) by {
                    assert(s1[c] == s0[c]);
                    assert(s1[parent(c)] == s0[parent(c)]);
                }
                assert(heap_except(s1, self.polarity(), s0.len() as int));
            }
        }
        let i = self.arr.len() - 1;
        self.sift_up(i);
    }

    /// Replaces the element at `i` with `key`, which must strictly beat it,
    /// and sifts it up. On an error nothing changes.
    pub fn increase_key(&mut self, i: usize, key: T) -> (r: Result<(), KeyError>)
        ensures
            final(self).polarity() == old(self).polarity(),
            i >= old(self)@.len() ==> r == Err::<(), KeyError>(KeyError::IndexOutOfBounds)
                && final(self)@ == old(self)@,
            i < old(self)@.len() && !wins(old(self).polarity(), key.key(), old(self)@[i as int].key())
                ==> r == Err::<(), KeyError>(KeyError::KeyNotImproving) && final(self)@ == old(self)@,
            i < old(self)@.len() && wins(old(self).polarity(), key.key(), old(self)@[i as int].key())
                ==> r is Ok && final(self)@ == sifted_up(
                old(self)@.update(i as int, key),
                old(self).polarity(),
                i as int,
            ) && final(self)@.len() == old(self)@.len() && final(self)@.to_multiset()
                == old(self)@.update(i as int, key).to_multiset() && (old(self).is_heap()
                ==> final(self).is_heap()),
    {
        if i >= self.arr.len() {
            return Err(KeyError::IndexOutOfBounds);
        }
        if !self.compare_type(key, self.arr[i]) {
            return Err(KeyError::KeyNotImproving);
        }
        let ghost s0 = self@;
        let ghost ht = self.polarity();
        self.arr.set(i, key);
        proof {
            let s1 = self@;
            if heap_ordered(s0, ht, s0.len() as int) {
                assert forall|c: int| 0 < c < s1.len() && c != i && #[trigger] parent(c) >= 0 implies ordered(
                    ht,
                    s1[parent(c)].key(),
                    s1[c].key(),
                ) by {
                    assert(s1[c] == s0[c]);
                }
                if i > 0 {
                    assert forall|c: int| 0 < c < s1.len() && #[trigger] parent(c) == i implies ordered(
                        ht,
                        s1[parent(i as int)].key(),
                        s1[c].key(),
                    ) by {
                        assert(parent(i as int) >= 0);
                        assert(ordered(ht, s0[parent(i as int)].key(), s0[i as int].key()));
                    }
                }
                assert(heap_except(s1, ht, i as int));
            }
        }
        self.sift_up(i);
        Ok(())
    }
}

/// After `build_heap`, each existing child `2i+1` or `2i+2` of a node `i` is
/// ordered against `i` under the heap's polarity.
pub proof fn lemma_children_ordered<T: OrdKey>(s: Seq<T>, ht: Heap_Type, i: int, c: int)
    requires
        heap_ordered(s, ht, s.len() as int),
        0 <= i,
        c == 2 * i + 1 || c == 2 * i + 2,
        c < s.len(),
    ensures
        ordered(ht, s[i].key(), s[c].key()),
{
    assert(parent(c) == i);
}

/// A priority queue: a max-heap behind a smaller interface.
#[allow(non_camel_case_types)]
#[derive(Debug)]
pub struct Priority_Queue<T: OrdKey> {
    max_heap: Heap<T>,
}

impl<T: OrdKey> View for Priority_Queue<T> {
    type V = Multiset<T>;

    closed spec fn view(&self) -> Multiset<T> {
        self.max_heap@.to_multiset()
    }
}

/// `x` is held in `m` and no element of `m` has a larger key.
pub open spec fn is_max_of<T: OrdKey>(m: Multiset<T>, x: T) -> bool {
    &&& m.count(x) > 0
    &&& forall|y: T| #[trigger] m.count(y) > 0 ==> y.key() <= x.key()
}

/// Popping twice from a queue yields keys that do not increase.
pub proof fn lemma_pops_non_increasing<T: OrdKey>(q0: Multiset<T>, x1: T, x2: T)
    requires
        is_max_of(q0, x1),
        is_max_of(q0.remove(x1), x2),
    ensures
        x2.key() <= x1.key(),
{
    broadcast use vstd::multiset::group_multiset_axioms;

    assert(q0.count(x2) > 0);
}

impl<T: OrdKey> Priority_Queue<T> {
    /// The queue's heap is a max-heap in heap order.
    pub closed spec fn wf(&self) -> bool {
        self.max_heap.polarity() == Heap_Type::Max && self.max_heap.is_heap()
    }

    proof fn lemma_root_is_max(&self)
        requires
            self.wf(),
            self.max_heap@.len() > 0,
        ensures
            is_max_of(self@, self.max_heap@[0]),
    {
        broadcast use group_to_multiset_ensures;

        let s = self.max_heap@;
        assert(s.contains(s[0]));
        assert forall|y: T| #[trigger] self@.count(y) > 0 implies y.key() <= s[0].key() by {
            assert(s.contains(y));
            let k = choose|k: int| 0 <= k < s.len() && s[k] == y;
            lemma_root_dominates(s, Heap_Type::Max, s.len() as int, k);
        }
    }

    /// An empty queue.
    pub fn new() -> (r: Self)
        ensures
            r.wf(),
            r@ == Multiset::<T>::empty(),
    {
        let r = Priority_Queue { max_heap: Heap::new(Vec::new(), Heap_Type::Max) };
        proof {
            broadcast use group_to_multiset_ensures;

            assert(r.max_heap@.len() == 0);
        }
        r
    }

    /// Adds `value`.
    pub fn push(&mut self, value: T)
        requires
            old(self).wf(),
        ensures
            final(self).wf(),
            final(self)@ == old(self)@.insert(value),
    {
        self.max_heap.insert(value);
    }

    /// Removes and returns an element of largest key, if any.
    pub fn pop(&mut self) -> (r: Option<T>)
        requires
            old(self).wf(),
        ensures
            final(self).wf(),
            old(self)@.len() == 0 ==> r is None && final(self)@ == old(self)@,
            old(self)@.len() > 0 ==> (r matches Some(x) && is_max_of(old(self)@, x) && final(self)@
                == old(self)@.remove(x)),
    {
        proof {
            broadcast use group_to_multiset_ensures;

            if self.max_heap@.len() > 0 {
                self.lemma_root_is_max();
            }
        }
        self.max_heap.extract_root()
    }

    /// An element of largest key, if any; the queue is left as it is.
    pub fn front(&mut self) -> (r: Option<T>)
        requires
            old(self).wf(),
        ensures
            *final(self) == *old(self),
            old(self)@.len() == 0 ==> r is None,
            old(self)@.len() > 0 ==> (r matches Some(x) && is_max_of(old(self)@, x)),
    {
        proof {
            broadcast use group_to_multiset_ensures;

            if self.max_heap@.len() > 0 {
                self.lemma_root_is_max();
            }
        }
        self.max_heap.get_root()
    }

    /// The max-heap that holds the elements.
    pub fn as_heap(&self) -> (r: &Heap<T>)
        ensures
            r@.to_multiset() == self@,
            self.wf() ==> r.polarity() == Heap_Type::Max && r.is_heap(),
    {
        &self.max_heap
    }

    /// The number of elements held.
    pub fn size(&self) -> (r: usize)
        ensures
            r == self@.len(),
    {
        proof {
            broadcast use group_to_multiset_ensures;

        }
        self.max_heap.size()
    }

    /// Removes every element.
    pub fn clear(&mut self)
        requires
            old(self).wf(),
        ensures
            final(self).wf(),
            final(self)@ == Multiset::<T>::empty(),
    {
        self.max_heap.clear();
        proof {
            broadcast use group_to_multiset_ensures;

        }
    }
}

} // verus!
