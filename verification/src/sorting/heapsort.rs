//! In-place heap sort.
//!
//! The slice is read as a complete binary tree from index 0: the parent of
//! the node at `i` is at `(i - 1) / 2` and its children at `2 * i + 1` and
//! `2 * i + 2`. The front of the slice is kept as a max-heap while the
//! sorted values gather behind it.

use crate::exchange::lemma_swapped_multiset;
use crate::exchange::swapped;
use vstd::prelude::*;
use vstd::std_specs::cmp::PartialEqIs;
use vstd::std_specs::cmp::PartialOrdIs;
use vstd::std_specs::cmp::PartialOrdSpec;

verus! {

/// `a` is greater than `b`.
pub open spec fn exceeds<T: Ord>(a: T, b: T) -> bool {
    a.is_gt(&b)
}

/// The comparison of `T` orders its values: `>` decides `exceeds`, no two
/// values exceed each other, and "does not exceed" is transitive.
pub open spec fn total_order<T: Ord>() -> bool {
    &&& T::obeys_partial_cmp_spec()
    &&& forall|a: T, b: T| #[trigger] exceeds(a, b) ==> !exceeds(b, a)
    &&& forall|a: T, b: T, c: T|
        !#[trigger] exceeds(a, b) && !#[trigger] exceeds(b, c) ==> !exceeds(a, c)
}

/// Two values of which neither exceeds the other are the same value.
pub open spec fn ties_are_equal<T: Ord>() -> bool {
    forall|a: T, b: T| !#[trigger] exceeds(a, b) && !exceeds(b, a) ==> a == b
}

/// Where the comparison of `T` keeps the laws of a total order, it orders
/// the values of `T`; where its equality is that of the values themselves,
/// ties are equal.
pub proof fn lemma_total_order<T: Ord>()
    requires
        vstd::laws_cmp::obeys_cmp::<T>(),
    ensures
        total_order::<T>(),
        vstd::laws_eq::obeys_concrete_eq::<T>() ==> ties_are_equal::<T>(),
{
    reveal(vstd::laws_cmp::obeys_cmp_partial_ord);
    reveal(vstd::laws_cmp::obeys_cmp_ord);
    reveal(vstd::laws_cmp::obeys_partial_cmp_spec_properties);
    reveal(vstd::laws_eq::obeys_eq_spec_properties);
    reveal(vstd::laws_eq::obeys_concrete_eq);
    assert forall|a: T, b: T, c: T| !exceeds(a, b) && !exceeds(b, c) implies !exceeds(a, c) by {
        if a.is_gt(&c) {
            assert(c.is_lt(&a));
            assert(a.is_lt(&b) || a.is_eq(&b));
            assert(b.is_lt(&c) || b.is_eq(&c));
            if a.is_lt(&b) {
                assert(c.is_lt(&b));
            } else {
                assert(b.is_eq(&a));
            }
        }
    }
    if vstd::laws_eq::obeys_concrete_eq::<T>() {
        assert forall|a: T, b: T| !#[trigger] exceeds(a, b) && !exceeds(b, a) implies a == b by {
            assert(a.is_lt(&b) || a.is_eq(&b));
        }
    }
}

/// The value at `i` does not exceed the value at `j`.
pub open spec fn in_order<T: Ord>(s: Seq<T>, i: int, j: int) -> bool {
    !exceeds(s[i], s[j])
}

/// `s` is non-decreasing.
pub open spec fn sorted<T: Ord>(s: Seq<T>) -> bool {
    forall|i: int, j: int| 0 <= i < j < s.len() ==> #[trigger] in_order(s, i, j)
}

/// No value of `s` up to index `end` exceeds `x`.
pub open spec fn bounded<T: Ord>(s: Seq<T>, end: int, x: T) -> bool {
    forall|i: int| 0 <= i <= end ==> !#[trigger] exceeds(s[i], x)
}

/// The node at `i` does not exceed its parent.
pub open spec fn edge_ok<T: Ord>(s: Seq<T>, i: int) -> bool {
    !exceeds(s[i], s[(i - 1) / 2])
}

/// The max-heap property up to index `end`, for the nodes whose parent is
/// at `lo` or behind it.
pub open spec fn heap_from<T: Ord>(s: Seq<T>, lo: int, end: int) -> bool {
    forall|i: int| 1 <= i <= end && (i - 1) / 2 >= lo ==> #[trigger] edge_ok(s, i)
}

/// The child of `idx` that a sinking node is compared with: the left one
/// where it is the only one up to `end` or exceeds the right one, else the
/// right.
pub open spec fn larger_child<T: Ord>(s: Seq<T>, end: int, idx: int) -> int {
    if 2 * idx + 2 > end || exceeds(s[2 * idx + 1], s[2 * idx + 2]) {
        2 * idx + 1
    } else {
        2 * idx + 2
    }
}

/// The sequence after the node at `root` has sunk among the nodes up to
/// `end`: while its larger child exceeds it, the two are exchanged.
pub open spec fn sunk<T: Ord>(s: Seq<T>, root: int, end: int) -> Seq<T>
    decreases end - root,
{
    if 0 <= root && 2 * root + 1 <= end < s.len() && exceeds(
        s[larger_child(s, end, root)],
        s[root],
    ) {
        sunk(swapped(s, larger_child(s, end, root), root), larger_child(s, end, root), end)
    } else {
        s
    }
}

/// The sequence after the nodes before `idx` have sunk among the nodes up
/// to `end`, the last of them first.
pub open spec fn heaped<T: Ord>(s: Seq<T>, idx: int, end: int) -> Seq<T>
    decreases idx,
{
    if idx <= 0 {
        s
    } else {
        heaped(sunk(s, idx - 1, end), idx - 1, end)
    }
}

/// The sequence after the heap up to `end` has been emptied: its root is
/// exchanged with its last node and leaves it, the new root sinks, and so
/// on down to one node.
pub open spec fn unloaded<T: Ord>(s: Seq<T>, end: int) -> Seq<T>
    decreases end,
{
    if end < 1 {
        s
    } else {
        unloaded(sunk(swapped(s, 0, end), 0, end - 1), end - 1)
    }
}

/// The result of the sort: a sequence of at most one value stays as it is;
/// a longer one is made a heap, from its last parent back to the root, and
/// the heap is then emptied.
pub open spec fn heap_sorted<T: Ord>(s: Seq<T>) -> Seq<T> {
    if s.len() <= 1 {
        s
    } else {
        unloaded(heaped(s, (s.len() - 2) / 2 + 1, s.len() - 1), s.len() - 1)
    }
}

/// The state while the node at `root` sinks from `start`: every edge from
/// `start` on is in order but those below `root`, and the children of
/// `root` do not exceed its parent.
pub open spec fn sinking<T: Ord>(s: Seq<T>, start: int, end: int, root: int) -> bool {
    &&& forall|i: int|
        1 <= i <= end && (i - 1) / 2 >= start && (i - 1) / 2 != root ==> #[trigger] edge_ok(s, i)
    &&& forall|c: int|
        1 <= c <= end && (c - 1) / 2 == root && root != start ==> #[trigger] in_order(
            s,
            c,
            (root - 1) / 2,
        )
}

/// Exchanging two values up to `end` keeps every bound on the values up to
/// `end`.
pub proof fn lemma_exchanged_bounded<T: Ord>(s: Seq<T>, i: int, j: int, end: int, x: T)
    requires
        0 <= i <= end < s.len(),
        0 <= j <= end,
        bounded(s, end, x),
    ensures
        bounded(swapped(s, i, j), end, x),
{
    let t = swapped(s, i, j);
    assert forall|k: int| 0 <= k <= end implies !#[trigger] exceeds(t[k], x) by {
        if k == j {
            assert(t[k] == s[i]);
            assert(!exceeds(s[i], x));
        } else if k == i {
            assert(t[k] == s[j]);
            assert(!exceeds(s[j], x));
        } else {
            assert(t[k] == s[k]);
            assert(!exceeds(s[k], x));
        }
    }
}

/// One step of a sinking node: the larger child exceeds it and takes its
/// place.
pub proof fn lemma_sink_step<T: Ord>(s: Seq<T>, start: int, end: int, root: int)
    requires
        total_order::<T>(),
        0 <= start <= root,
        2 * root + 1 <= end < s.len(),
        sinking(s, start, end, root),
        exceeds(s[larger_child(s, end, root)], s[root]),
    ensures
        sinking(swapped(s, larger_child(s, end, root), root), start, end, larger_child(s, end, root)),
{
    let c = larger_child(s, end, root);
    let l = 2 * root + 1;
    let r = 2 * root + 2;
    let t = swapped(s, c, root);
    assert(c == l || (c == r && r <= end));
    assert(t[c] == s[root]);
    assert(t[root] == s[c]);
    assert(!exceeds(s[root], s[c]));
    assert forall|i: int|
        1 <= i <= end && (i - 1) / 2 >= start && (i - 1) / 2 != c implies #[trigger] edge_ok(
        t,
        i,
    ) by {
        let p = (i - 1) / 2;
        if i == c {
            assert(p == root);
        } else if p == root {
            // the other child
            assert(i == l || i == r);
            assert(t[i] == s[i]);
            if c == l {
                assert(exceeds(s[l], s[r]));
                assert(!exceeds(s[r], s[l]));
            } else {
                assert(!exceeds(s[l], s[r]));
            }
            assert(!exceeds(s[i], s[c]));
        } else if i == root {
            assert(root != start);
            assert(in_order(s, c, (root - 1) / 2));
            assert(t[p] == s[p]);
        } else {
            assert(edge_ok(s, i));
            assert(t[i] == s[i]);
            assert(t[p] == s[p]);
        }
    }
    assert forall|g: int| 1 <= g <= end && (g - 1) / 2 == c && c != start implies #[trigger] in_order(
        t,
        g,
        (c - 1) / 2,
    ) by {
        assert(edge_ok(s, g));
        assert(t[g] == s[g]);
        assert((c - 1) / 2 == root);
    }
}

/// The end of a sinking node's way: it has no child up to `end`, or its
/// larger child does not exceed it.
pub proof fn lemma_sink_done<T: Ord>(s: Seq<T>, start: int, end: int, root: int)
    requires
        total_order::<T>(),
        0 <= start <= root,
        end < s.len(),
        sinking(s, start, end, root),
        2 * root + 1 > end || !exceeds(s[larger_child(s, end, root)], s[root]),
    ensures
        heap_from(s, start, end),
{
    assert forall|i: int| 1 <= i <= end && (i - 1) / 2 >= start implies #[trigger] edge_ok(
        s,
        i,
    ) by {
        if (i - 1) / 2 != root {
            assert(edge_ok(s, i));
        } else {
            let c = larger_child(s, end, root);
            let l = 2 * root + 1;
            let r = 2 * root + 2;
            assert(i == l || i == r);
            if i != c {
                if c == l {
                    assert(exceeds(s[l], s[r]));
                    assert(!exceeds(s[r], s[l]));
                } else {
                    assert(!exceeds(s[l], s[r]));
                }
                assert(!exceeds(s[i], s[c]));
                assert(!exceeds(s[c], s[root]));
            }
        }
    }
}

/// In a max-heap no value exceeds the root.
pub proof fn lemma_root_is_max<T: Ord>(s: Seq<T>, end: int, i: int)
    requires
        total_order::<T>(),
        heap_from(s, 0, end),
        0 <= i <= end < s.len(),
    ensures
        !exceeds(s[i], s[0]),
    decreases i,
{
    if i == 0 {
        if exceeds(s[0], s[0]) {
            assert(!exceeds(s[0], s[0]));
        }
    } else {
        assert(edge_ok(s, i));
        lemma_root_is_max(s, end, (i - 1) / 2);
        assert(!exceeds(s[i], s[(i - 1) / 2]));
        assert(!exceeds(s[(i - 1) / 2], s[0]));
    }
}

/// The index of the parent of the node at `idx`.
fn parent_idx(idx: usize) -> (p: usize)
    requires
        idx >= 1,
    ensures
        p == (idx - 1) / 2,
{
    (idx - 1) / 2
}

/// The index of the left child of the node at `idx`.
fn left_child_idx(idx: usize) -> (c: usize)
    requires
        2 * idx + 1 <= usize::MAX,
    ensures
        c == 2 * idx + 1,
{
    (idx * 2) + 1
}

/// The index of the right child of the node at `idx`.
fn right_child_idx(idx: usize) -> (c: usize)
    requires
        2 * idx + 2 <= usize::MAX,
    ensures
        c == 2 * idx + 2,
{
    left_child_idx(idx) + 1
}

/// The index of the larger child of the node at `idx`, of those up to
/// `end`: the left one where it is the only one.
fn smallest_child_idx<T: Ord>(source: &[T], end: usize, idx: usize) -> (c: usize)
    requires
        2 * idx + 1 <= end < source@.len(),
    ensures
        c == 2 * idx + 1 || c == 2 * idx + 2,
        c <= end,
        total_order::<T>() ==> c == larger_child(source@, end as int, idx as int),
{
    if left_child_idx(idx) == end {
        left_child_idx(idx)
    } else {
        let ldx: usize = left_child_idx(idx);
        let rdx: usize = right_child_idx(idx);
        if source[ldx] > source[rdx] {
            ldx
        } else {
            rdx
        }
    }
}

/// Lets the node at `start` sink among the nodes up to `end`: while its
/// larger child exceeds it, the two are exchanged.
fn heapify_down<T: Ord>(source: &mut [T], start: usize, end: usize)
    requires
        end < old(source)@.len(),
    ensures
        final(source)@.len() == old(source)@.len(),
        final(source)@.to_multiset() == old(source)@.to_multiset(),
        forall|j: int| end < j < old(source)@.len() ==> final(source)@[j] == old(source)@[j],
        forall|x: T| #[trigger]
            bounded(old(source)@, end as int, x) ==> bounded(final(source)@, end as int, x),
        total_order::<T>() ==> final(source)@ == sunk(old(source)@, start as int, end as int),
        total_order::<T>() && heap_from(old(source)@, start + 1, end as int) ==> heap_from(
            final(source)@,
            start as int,
            end as int,
        ),
{
    let mut root: usize = start;
    while end > 0 && root <= parent_idx(end)
        invariant
            start <= root,
            end < source@.len(),
            source@.len() == old(source)@.len(),
            source@.to_multiset() == old(source)@.to_multiset(),
            forall|j: int| end < j < source@.len() ==> source@[j] == old(source)@[j],
            forall|x: T| #[trigger]
                bounded(old(source)@, end as int, x) ==> bounded(source@, end as int, x),
            total_order::<T>() ==> sunk(source@, root as int, end as int) == sunk(
                old(source)@,
                start as int,
                end as int,
            ),
            total_order::<T>() && heap_from(old(source)@, start + 1, end as int) ==> sinking(
                source@,
                start as int,
                end as int,
                root as int,
            ),
        ensures
            total_order::<T>() ==> source@ == sunk(old(source)@, start as int, end as int),
            source@.len() == old(source)@.len(),
            source@.to_multiset() == old(source)@.to_multiset(),
            forall|j: int| end < j < source@.len() ==> source@[j] == old(source)@[j],
            forall|x: T| #[trigger]
                bounded(old(source)@, end as int, x) ==> bounded(source@, end as int, x),
            total_order::<T>() && heap_from(old(source)@, start + 1, end as int) ==> heap_from(
                source@,
                start as int,
                end as int,
            ),
        decreases end - root,
    {
        let child_idx: usize = smallest_child_idx(source, end, root);
        let ghost before = source@;
        if source[child_idx] > source[root] {
            proof {
                lemma_swapped_multiset(before, child_idx as int, root as int);
                assert forall|x: T| #[trigger] bounded(old(source)@, end as int, x) implies bounded(
                    swapped(before, child_idx as int, root as int),
                    end as int,
                    x,
                ) by {
                    lemma_exchanged_bounded(before, child_idx as int, root as int, end as int, x);
                }
                if total_order::<T>() && heap_from(old(source)@, start + 1, end as int) {
                    lemma_sink_step(before, start as int, end as int, root as int);
                }
            }
            source.swap(child_idx, root);
        } else {
            proof {
                if total_order::<T>() && heap_from(old(source)@, start + 1, end as int) {
                    lemma_sink_done(before, start as int, end as int, root as int);
                }
            }
            break ;
        }
        root = child_idx;
    }
}

/// Two sorted sequences that hold the same values are the same sequence,
/// where ties are equal.
pub proof fn lemma_sorted_is_unique<T: Ord>(a: Seq<T>, b: Seq<T>)
    requires
        total_order::<T>(),
        ties_are_equal::<T>(),
        sorted(a),
        sorted(b),
        a.to_multiset() == b.to_multiset(),
    ensures
        a == b,
{
    let leq = |x: T, y: T| !exceeds(x, y);
    assert(vstd::relations::total_ordering(leq)) by {
        assert forall|x: T| #[trigger] leq(x, x) by {
            if exceeds(x, x) {
                assert(!exceeds(x, x));
            }
        }
        assert forall|x: T, y: T| #[trigger] leq(x, y) || #[trigger] leq(y, x) by {
            if exceeds(x, y) {
                assert(!exceeds(y, x));
            }
        }
    }
    assert forall|i: int, j: int| 0 <= i < j < a.len() implies #[trigger] leq(a[i], a[j]) by {
        assert(in_order(a, i, j));
    }
    assert forall|i: int, j: int| 0 <= i < j < b.len() implies #[trigger] leq(b[i], b[j]) by {
        assert(in_order(b, i, j));
    }
    vstd::seq_lib::lemma_sorted_unique(a, b, leq);
}

/// Sorts `source` in place into non-decreasing order.
///
/// The slice is first made a max-heap, node by node from the last parent
/// back to the root. Then the root, the greatest value of the heap, is
/// exchanged with the heap's last node and leaves the heap, and the new
/// root sinks to its place, until one node is left.
pub fn heap_sort<T: Ord>(source: &mut [T])
    ensures
        final(source)@.len() == old(source)@.len(),
        final(source)@.to_multiset() == old(source)@.to_multiset(),
        total_order::<T>() ==> sorted(final(source)@),
        total_order::<T>() ==> final(source)@ == heap_sorted(old(source)@),
        old(source)@.len() <= 1 ==> final(source)@ == old(source)@,
        total_order::<T>() && ties_are_equal::<T>() && sorted(old(source)@) ==> final(source)@
            == old(source)@,
{
    if source.len() <= 1 {
        return ;
    }
    let n: usize = source.len();
    let mut idx: usize = parent_idx(n - 1) + 1;
    while idx > 0
        invariant
            n >= 2,
            n == source@.len(),
            idx <= (n - 2) / 2 + 1,
            source@.len() == old(source)@.len(),
            source@.to_multiset() == old(source)@.to_multiset(),
            total_order::<T>() ==> heap_from(source@, idx as int, n - 1),
            total_order::<T>() ==> heaped(source@, idx as int, n - 1) == heaped(
                old(source)@,
                (n - 2) / 2 + 1,
                n - 1,
            ),
        decreases idx,
    {
        idx -= 1;
        heapify_down(source, idx, n - 1);
    }

    let mut end: usize = n - 1;
    while end >= 1
        invariant
            end < n,
            n == source@.len(),
            source@.len() == old(source)@.len(),
            source@.to_multiset() == old(source)@.to_multiset(),
            total_order::<T>() ==> heap_from(source@, 0, end as int),
            total_order::<T>() ==> forall|i: int, j: int|
                0 <= i <= end < j < n ==> #[trigger] in_order(source@, i, j),
            total_order::<T>() ==> forall|i: int, j: int|
                end < i < j < n ==> #[trigger] in_order(source@, i, j),
            total_order::<T>() ==> unloaded(source@, end as int) == heap_sorted(old(source)@),
        decreases end,
    {
        let ghost s = source@;
        proof {
            lemma_swapped_multiset(s, 0, end as int);
        }
        source.swap(0, end);
        let ghost s1 = source@;
        if end > 0 {
            heapify_down(source, 0, end - 1);
        }
        proof {
            let s2 = source@;
            if total_order::<T>() {
                assert forall|i: int| 1 <= i <= end - 1 && (i - 1) / 2 >= 1 implies #[trigger] edge_ok(
                    s1,
                    i,
                ) by {
                    assert(edge_ok(s, i));
                }
                assert forall|i: int, j: int| 0 <= i <= end - 1 < j < n implies #[trigger] in_order(
                    s2,
                    i,
                    j,
                ) by {
                    let x = s1[j];
                    assert forall|k: int| 0 <= k <= end - 1 implies !#[trigger] exceeds(
                        s1[k],
                        x,
                    ) by {
                        if j == end {
                            lemma_root_is_max(s, end as int, k);
                            lemma_root_is_max(s, end as int, end as int);
                        } else {
                            assert(in_order(s, k, j));
                            assert(in_order(s, end as int, j));
                        }
                    }
                    assert(bounded(s1, end - 1, x));
                    assert(bounded(s2, end - 1, x));
                }
                assert forall|i: int, j: int| end - 1 < i < j < n implies #[trigger] in_order(
                    s2,
                    i,
                    j,
                ) by {
                    if i == end {
                        assert(in_order(s, 0, j));
                    } else {
                        assert(in_order(s, i, j));
                    }
                }
            }
        }
        end -= 1;
    }
    proof {
        if total_order::<T>() {
            assert forall|i: int, j: int| 0 <= i < j < n implies #[trigger] in_order(
                source@,
                i,
                j,
            ) by {}
            if ties_are_equal::<T>() && sorted(old(source)@) {
                lemma_sorted_is_unique(old(source)@, source@);
            }
        }
    }
}

} // verus!
