//! A binary heap over a growable array.
//!
//! The array is used from index 1: slot 0 is never read, so the parent of
//! the node at index `i` is at `i / 2` and its children at `2 * i` and
//! `2 * i + 1`.

use crate::data_structures::order::consistent;
use crate::data_structures::order::lemma_chain;
use crate::data_structures::order::lemma_one_way;
use crate::data_structures::order::MaxFirst;
use crate::data_structures::order::MinFirst;
use crate::data_structures::order::Order;
use crate::exchange::lemma_swapped_multiset;
use crate::exchange::swapped;
use vstd::prelude::*;

verus! {

/// A priority queue: a binary heap ordered by the relation `O`.
pub struct Heap<T: Default, O = MaxFirst> {
    count: usize,
    items: Vec<T>,
    comparator: O,
}

/// The value at `i` does not come before the value at `j`.
pub open spec fn not_before<T, O: Order<T>>(s: Seq<T>, o: O, i: int, j: int) -> bool {
    !o.before(&s[i], &s[j])
}

/// No value of `s` comes before `x`.
pub open spec fn none_before<T, O: Order<T>>(s: Seq<T>, o: O, x: T) -> bool {
    forall|i: int| 0 <= i < s.len() ==> !#[trigger] o.before(&s[i], &x)
}

/// The node at `i` does not come before its parent.
pub open spec fn edge_ok<T, O: Order<T>>(s: Seq<T>, o: O, i: int) -> bool {
    !o.before(&s[i], &s[i / 2])
}

/// The heap property of an array whose slot 0 is unused: no node comes
/// before its parent.
pub open spec fn ordered<T, O: Order<T>>(s: Seq<T>, o: O) -> bool {
    forall|i: int| 2 <= i < s.len() ==> #[trigger] edge_ok(s, o, i)
}

/// The array after the node at `idx` has risen: while it comes before its
/// parent, the two are exchanged.
pub open spec fn sifted_up<T, O: Order<T>>(s: Seq<T>, o: O, idx: int) -> Seq<T>
    decreases idx,
{
    if 2 <= idx < s.len() && o.before(&s[idx], &s[idx / 2]) {
        sifted_up(swapped(s, idx, idx / 2), o, idx / 2)
    } else {
        s
    }
}

/// The child of `idx` that a sinking node is compared with: the left one
/// where it is the only one or comes before the right one, else the right.
pub open spec fn favoured_child<T, O: Order<T>>(s: Seq<T>, o: O, idx: int) -> int {
    if 2 * idx + 1 >= s.len() || o.before(&s[2 * idx], &s[2 * idx + 1]) {
        2 * idx
    } else {
        2 * idx + 1
    }
}

/// The array after the node at `idx` has sunk: while its favoured child
/// comes before it, the two are exchanged.
pub open spec fn sifted_down<T, O: Order<T>>(s: Seq<T>, o: O, idx: int) -> Seq<T>
    decreases s.len() - idx,
{
    if 1 <= idx && 2 * idx < s.len() && o.before(&s[favoured_child(s, o, idx)], &s[idx]) {
        sifted_down(swapped(s, favoured_child(s, o, idx), idx), o, favoured_child(s, o, idx))
    } else {
        s
    }
}

/// The array after the root has left it: the last node takes the root's
/// place and the array is one shorter.
pub open spec fn root_removed<T>(s: Seq<T>) -> Seq<T> {
    s.update(1, s.last()).drop_last()
}

/// The array after `x` has been added: it is put behind the last node and
/// rises.
pub open spec fn inserted<T, O: Order<T>>(s: Seq<T>, o: O, x: T) -> Seq<T> {
    sifted_up(s.push(x), o, s.len() as int)
}

/// The array after an extraction: the root leaves and the node that takes
/// its place sinks. An array without a live value stays as it is.
pub open spec fn extracted<T, O: Order<T>>(s: Seq<T>, o: O) -> Seq<T> {
    if s.len() >= 2 {
        sifted_down(root_removed(s), o, 1)
    } else {
        s
    }
}

/// Every edge but the one above `idx` is in order, and the children of
/// `idx` do not come before its parent.
pub open spec fn ordered_but_above<T, O: Order<T>>(s: Seq<T>, o: O, idx: int) -> bool {
    &&& forall|i: int| 2 <= i < s.len() && i != idx ==> #[trigger] edge_ok(s, o, i)
    &&& forall|c: int|
        2 <= c < s.len() && c / 2 == idx && idx >= 2 ==> #[trigger] not_before(s, o, c, idx / 2)
}

/// Every edge but those below `idx` is in order, and the children of `idx`
/// do not come before its parent.
pub open spec fn ordered_but_below<T, O: Order<T>>(s: Seq<T>, o: O, idx: int) -> bool {
    &&& forall|i: int| 2 <= i < s.len() && i / 2 != idx ==> #[trigger] edge_ok(s, o, i)
    &&& forall|c: int|
        2 <= c < s.len() && c / 2 == idx && idx >= 2 ==> #[trigger] not_before(s, o, c, idx / 2)
}

/// Exchanging two live values keeps the live values.
pub proof fn lemma_swapped_live<T>(s: Seq<T>, i: int, j: int)
    requires
        1 <= i < s.len(),
        1 <= j < s.len(),
    ensures
        swapped(s, i, j).skip(1).to_multiset() == s.skip(1).to_multiset(),
        swapped(s, i, j)[0] == s[0],
{
    assert(swapped(s, i, j).skip(1) =~= swapped(s.skip(1), i - 1, j - 1));
    lemma_swapped_multiset(s.skip(1), i - 1, j - 1);
}

/// A rising node leaves the heap property behind it.
pub proof fn lemma_sifted_up_ordered<T, O: Order<T>>(s: Seq<T>, o: O, idx: int)
    requires
        consistent(o),
        1 <= idx < s.len(),
        ordered_but_above(s, o, idx),
    ensures
        ordered(sifted_up(s, o, idx), o),
    decreases idx,
{
    let p = idx / 2;
    if 2 <= idx && o.before(&s[idx], &s[p]) {
        let t = swapped(s, idx, p);
        assert(t[idx] == s[p]);
        assert(t[p] == s[idx]);
        lemma_one_way(o, s[idx], s[p]);
        assert forall|i: int| 2 <= i < t.len() && i != p implies #[trigger] edge_ok(t, o, i) by {
            if i == idx {
            } else if i / 2 == idx {
                assert(not_before(s, o, i, idx / 2));
                assert(t[i] == s[i]);
            } else if i / 2 == p {
                assert(edge_ok(s, o, i));
                assert(t[i] == s[i]);
                lemma_chain(o, s[i], s[p], s[idx]);
            } else {
                assert(edge_ok(s, o, i));
                assert(t[i] == s[i]);
                assert(t[i / 2] == s[i / 2]);
            }
        }
        assert forall|c: int| 2 <= c < t.len() && c / 2 == p && p >= 2 implies #[trigger] not_before(
            t,
            o,
            c,
            p / 2,
        ) by {
            assert(edge_ok(s, o, p));
            assert(t[p / 2] == s[p / 2]);
            if c == idx {
            } else {
                assert(edge_ok(s, o, c));
                assert(t[c] == s[c]);
                lemma_chain(o, s[c], s[p], s[p / 2]);
            }
        }
        lemma_sifted_up_ordered(t, o, p);
    } else {
        assert forall|i: int| 2 <= i < s.len() implies #[trigger] edge_ok(s, o, i) by {
            if i != idx {
                assert(edge_ok(s, o, i));
            }
        }
    }
}

/// A sinking node leaves the heap property behind it.
pub proof fn lemma_sifted_down_ordered<T, O: Order<T>>(s: Seq<T>, o: O, idx: int)
    requires
        consistent(o),
        1 <= idx,
        ordered_but_below(s, o, idx),
    ensures
        ordered(sifted_down(s, o, idx), o),
    decreases s.len() - idx,
{
    if 2 * idx < s.len() {
        let c = favoured_child(s, o, idx);
        let l = 2 * idx;
        let r = 2 * idx + 1;
        assert(c == l || (c == r && r < s.len()));
        // the other child, where there is one, does not come before the favoured one
        if r < s.len() && c == l {
            lemma_one_way(o, s[l], s[r]);
        }
        if o.before(&s[c], &s[idx]) {
            let t = swapped(s, c, idx);
            assert(t[c] == s[idx]);
            assert(t[idx] == s[c]);
            lemma_one_way(o, s[c], s[idx]);
            assert forall|i: int| 2 <= i < t.len() && i / 2 != c implies #[trigger] edge_ok(
                t,
                o,
                i,
            ) by {
                if i == c {
                } else if i / 2 == idx {
                    assert(i == l || i == r);
                    assert(t[i] == s[i]);
                } else if i == idx {
                    assert(not_before(s, o, c, idx / 2));
                    assert(t[i / 2] == s[i / 2]);
                } else {
                    assert(edge_ok(s, o, i));
                    assert(t[i] == s[i]);
                    assert(t[i / 2] == s[i / 2]);
                }
            }
            assert forall|g: int| 2 <= g < t.len() && g / 2 == c && c >= 2 implies #[trigger] not_before(
                t,
                o,
                g,
                c / 2,
            ) by {
                assert(edge_ok(s, o, g));
                assert(t[g] == s[g]);
                assert(c / 2 == idx);
            }
            lemma_sifted_down_ordered(t, o, c);
        } else {
            assert forall|i: int| 2 <= i < s.len() implies #[trigger] edge_ok(s, o, i) by {
                if i / 2 != idx {
                    assert(edge_ok(s, o, i));
                } else if i == c {
                } else {
                    assert(i == l || i == r);
                    lemma_chain(o, s[i], s[c], s[idx]);
                }
            }
        }
    } else {
        assert forall|i: int| 2 <= i < s.len() implies #[trigger] edge_ok(s, o, i) by {
            assert(edge_ok(s, o, i));
        }
    }
}

/// In an ordered heap no live value comes before the root.
pub proof fn lemma_root_first<T, O: Order<T>>(s: Seq<T>, o: O, i: int)
    requires
        consistent(o),
        ordered(s, o),
        1 <= i < s.len(),
    ensures
        !o.before(&s[i], &s[1]),
    decreases i,
{
    if i == 1 {
        if o.before(&s[1], &s[1]) {
            lemma_one_way(o, s[1], s[1]);
        }
    } else {
        assert(edge_ok(s, o, i));
        lemma_root_first(s, o, i / 2);
        lemma_chain(o, s[i], s[i / 2], s[1]);
    }
}

impl<T: Default, O: Order<T>> View for Heap<T, O> {
    type V = Seq<T>;

    /// The live values, level by level from the root.
    open spec fn view(&self) -> Seq<T> {
        self.storage().skip(1)
    }
}

impl<T: Default, O: Order<T>> Heap<T, O> {
    /// The backing array: slot 0, then the live values.
    pub closed spec fn storage(&self) -> Seq<T> {
        self.items@
    }

    /// The relation that the heap was made with.
    pub closed spec fn order(&self) -> O {
        self.comparator
    }

    /// The number of live values.
    pub closed spec fn spec_len(&self) -> nat {
        self.count as nat
    }

    /// The backing array holds slot 0 and the live values, nothing else.
    pub open spec fn wf(&self) -> bool {
        self.storage().len() == self.spec_len() + 1
    }

    /// No live value comes before its parent.
    pub open spec fn heap_ordered(&self) -> bool {
        ordered(self.storage(), self.order())
    }

    /// An empty heap ordered by `comparator`.
    pub fn new(comparator: O) -> (heap: Self)
        ensures
            heap.wf(),
            heap.spec_len() == 0,
            heap@ == Seq::<T>::empty(),
            heap.order() == comparator,
            heap.heap_ordered(),
            call_ensures(T::default, (), heap.storage()[0]),
    {
        let mut items: Vec<T> = Vec::new();
        items.push(T::default());
        let heap = Heap { count: 0, items, comparator };
        assert(heap.items@.skip(1) =~= Seq::<T>::empty());
        heap
    }

    /// The number of live values.
    pub fn len(&self) -> (n: usize)
        ensures
            n == self.spec_len(),
    {
        self.count
    }

    /// Whether the heap holds no value.
    pub fn is_empty(&self) -> (b: bool)
        ensures
            b == (self.spec_len() == 0),
    {
        self.len() == 0
    }

    /// The backing array, slot 0 included.
    pub fn items(&self) -> (v: &Vec<T>)
        ensures
            v@ == self.storage(),
    {
        &self.items
    }

    /// Puts `item` below the last node and lets it rise to its place.
    pub fn add(&mut self, item: T)
        requires
            old(self).wf(),
        ensures
            final(self).wf(),
            final(self).order() == old(self).order(),
            final(self).spec_len() == old(self).spec_len() + 1,
            final(self)@.to_multiset() == old(self)@.to_multiset().insert(item),
            final(self).storage()[0] == old(self).storage()[0],
            old(self).order().lawful() ==> final(self).storage() == inserted(
                old(self).storage(),
                old(self).order(),
                item,
            ),
            consistent(old(self).order()) && old(self).heap_ordered() ==> final(self).heap_ordered(),
    {
        proof {
            vstd::seq_lib::to_multiset_build(self.items@.skip(1), item);
            assert(self.items@.push(item).skip(1) =~= self.items@.skip(1).push(item));
            assert(self.items.len() == self.count + 1);
        }
        self.count += 1;
        self.items.push(item);
        self.heapify_up();
        proof {
            if consistent(old(self).order()) && old(self).heap_ordered() {
                lemma_inserted_ordered(old(self).storage(), old(self).order(), item);
            }
        }
    }

    /// Lets the last node rise while it comes before its parent.
    fn heapify_up(&mut self)
        requires
            old(self).items@.len() == old(self).count + 1,
            old(self).count >= 1,
        ensures
            final(self).count == old(self).count,
            final(self).comparator == old(self).comparator,
            final(self).items@.len() == old(self).items@.len(),
            final(self).items@[0] == old(self).items@[0],
            final(self).items@.skip(1).to_multiset() == old(self).items@.skip(1).to_multiset(),
            old(self).comparator.lawful() ==> final(self).items@ == sifted_up(
                old(self).items@,
                old(self).comparator,
                old(self).count as int,
            ),
    {
        let mut idx: usize = self.count;
        while self.parent_idx(idx) > 0
            invariant
                1 <= idx <= self.count,
                self.count == old(self).count,
                self.comparator == old(self).comparator,
                self.items@.len() == self.count + 1,
                self.items@[0] == old(self).items@[0],
                self.items@.skip(1).to_multiset() == old(self).items@.skip(1).to_multiset(),
                self.comparator.lawful() ==> sifted_up(self.items@, self.comparator, idx as int)
                    == sifted_up(old(self).items@, old(self).comparator, old(self).count as int),
            ensures
                self.comparator.lawful() ==> self.items@ == sifted_up(
                    old(self).items@,
                    old(self).comparator,
                    old(self).count as int,
                ),
            decreases idx,
        {
            let pdx: usize = self.parent_idx(idx);
            if self.comparator.precedes(&self.items[idx], &self.items[pdx]) {
                proof {
                    lemma_swapped_live(self.items@, idx as int, pdx as int);
                }
                self.items.swap(idx, pdx);
            } else {
                break ;
            }
            idx = pdx;
        }
    }

    /// The index of the parent of the node at `idx`.
    fn parent_idx(&self, idx: usize) -> (p: usize)
        ensures
            p == idx / 2,
    {
        idx / 2
    }

    /// Whether the node at `idx` has a child among the live values.
    fn children_are_present(&self, idx: usize) -> (b: bool)
        ensures
            b == (2 * idx <= self.count),
    {
        idx <= self.count / 2
    }

    /// The index of the left child of the node at `idx`.
    fn left_child_idx(&self, idx: usize) -> (c: usize)
        requires
            2 * idx <= usize::MAX,
        ensures
            c == 2 * idx,
    {
        idx * 2
    }

    /// The index of the right child of the node at `idx`.
    fn right_child_idx(&self, idx: usize) -> (c: usize)
        requires
            2 * idx + 1 <= usize::MAX,
        ensures
            c == 2 * idx + 1,
    {
        self.left_child_idx(idx) + 1
    }

    /// The index of the child of `idx` that comes first: the left one where
    /// it is the only one.
    fn smallest_child_idx(&self, idx: usize) -> (c: usize)
        requires
            self.items@.len() == self.count + 1,
            1 <= idx,
            2 * idx <= self.count,
        ensures
            c == 2 * idx || c == 2 * idx + 1,
            c <= self.count,
            self.comparator.lawful() ==> c == favoured_child(self.items@, self.comparator, idx as int),
    {
        if self.left_child_idx(idx) == self.count {
            self.left_child_idx(idx)
        } else {
            let ldx: usize = self.left_child_idx(idx);
            let rdx: usize = self.right_child_idx(idx);
            if self.comparator.precedes(&self.items[ldx], &self.items[rdx]) {
                ldx
            } else {
                rdx
            }
        }
    }

    /// Takes the root out: the value that no other live value comes before.
    /// The last node takes its place and sinks while a child comes before
    /// it. An empty heap gives `None` and stays as it is.
    pub fn next(&mut self) -> (r: Option<T>)
        requires
            old(self).wf(),
        ensures
            final(self).wf(),
            final(self).order() == old(self).order(),
            old(self).spec_len() == 0 ==> r.is_none() && *final(self) == *old(self),
            old(self).spec_len() > 0 ==> {
                &&& r == Some(old(self).storage()[1])
                &&& final(self).spec_len() == old(self).spec_len() - 1
                &&& final(self)@.to_multiset().insert(r.unwrap()) == old(self)@.to_multiset()
                &&& final(self).storage()[0] == old(self).storage()[0]
            },
            old(self).order().lawful() ==> final(self).storage() == extracted(
                old(self).storage(),
                old(self).order(),
            ),
            consistent(old(self).order()) && old(self).heap_ordered() ==> {
                &&& final(self).heap_ordered()
                &&& r.is_some() ==> none_before(final(self)@, old(self).order(), r.unwrap())
            },
    {
        if self.count == 0 {
            return None;
        }
        let next = Some(self.items.swap_remove(1));
        self.count -= 1;
        proof {
            lemma_root_removed_live(old(self).items@);
        }

        if self.count > 0 {
            let mut idx: usize = 1;
            while self.children_are_present(idx)
                invariant
                    1 <= idx <= self.count,
                    self.count == old(self).count - 1,
                    self.comparator == old(self).comparator,
                    self.items@.len() == self.count + 1,
                    self.items@[0] == old(self).items@[0],
                    self.items@.skip(1).to_multiset() == root_removed(old(self).items@).skip(
                        1,
                    ).to_multiset(),
                    self.comparator.lawful() ==> sifted_down(
                        self.items@,
                        self.comparator,
                        idx as int,
                    ) == sifted_down(root_removed(old(self).items@), old(self).comparator, 1),
                ensures
                    self.comparator.lawful() ==> self.items@ == sifted_down(
                        root_removed(old(self).items@),
                        old(self).comparator,
                        1,
                    ),
                decreases self.count - idx,
            {
                let child_idx: usize = self.smallest_child_idx(idx);
                if self.comparator.precedes(&self.items[child_idx], &self.items[idx]) {
                    proof {
                        lemma_swapped_live(self.items@, child_idx as int, idx as int);
                    }
                    self.items.swap(child_idx, idx);
                } else {
                    break ;
                }
                idx = child_idx;
            }
        }
        proof {
            let s = old(self).storage();
            let o = old(self).order();
            if consistent(o) && old(self).heap_ordered() {
                lemma_extraction(s, o);
                lemma_live_of_rest(s, self.items@, o);
            }
        }
        next
    }
}

/// Taking the root out takes one value from the live values: the root.
pub proof fn lemma_root_removed_live<T>(s: Seq<T>)
    requires
        s.len() >= 2,
    ensures
        root_removed(s).skip(1).to_multiset().insert(s[1]) == s.skip(1).to_multiset(),
        root_removed(s).len() == s.len() - 1,
        root_removed(s)[0] == s[0],
{
    broadcast use vstd::multiset::group_multiset_axioms;
    broadcast use vstd::seq_lib::group_to_multiset_ensures;

    let v = s.skip(1);
    let w = v.update(0, v.last());
    let n = v.len() as int;
    assert(root_removed(s).skip(1) =~= w.remove(n - 1));
    vstd::seq_lib::to_multiset_update(v, 0, v.last());
    vstd::seq_lib::to_multiset_remove(w, n - 1);
    assert(v.to_multiset().count(v[0]) > 0);
    assert(v.to_multiset().count(v.last()) > 0);
    assert(w[n - 1] == v.last());
    assert(w.remove(n - 1).to_multiset().insert(v[0]) =~= v.to_multiset());
}

/// An addition to an ordered heap leaves an ordered heap.
pub proof fn lemma_inserted_ordered<T, O: Order<T>>(s: Seq<T>, o: O, x: T)
    requires
        consistent(o),
        s.len() >= 1,
        ordered(s, o),
    ensures
        ordered(inserted(s, o, x), o),
{
    let t = s.push(x);
    let n = s.len() as int;
    assert forall|i: int| 2 <= i < t.len() && i != n implies #[trigger] edge_ok(t, o, i) by {
        assert(edge_ok(s, o, i));
    }
    lemma_sifted_up_ordered(t, o, n);
}

/// After the root of an ordered heap has left, the heap is ordered again.
pub proof fn lemma_extraction<T, O: Order<T>>(s: Seq<T>, o: O)
    requires
        consistent(o),
        ordered(s, o),
        s.len() >= 2,
    ensures
        ordered(sifted_down(root_removed(s), o, 1), o),
{
    let t = root_removed(s);
    assert forall|i: int| 2 <= i < t.len() && i / 2 != 1 implies #[trigger] edge_ok(t, o, i) by {
        assert(edge_ok(s, o, i));
    }
    lemma_sifted_down_ordered(t, o, 1);
}

/// No value of `rest` comes before the root of the ordered heap `s`, where
/// the live values of `rest` are among those of `s`.
pub proof fn lemma_live_of_rest<T, O: Order<T>>(s: Seq<T>, rest: Seq<T>, o: O)
    requires
        consistent(o),
        ordered(s, o),
        s.len() >= 2,
        rest.len() >= 1,
        rest.skip(1).to_multiset().insert(s[1]) == s.skip(1).to_multiset(),
    ensures
        none_before(rest.skip(1), o, s[1]),
{
    broadcast use vstd::multiset::group_multiset_axioms;
    broadcast use vstd::seq_lib::group_to_multiset_ensures;

    assert forall|i: int| 0 <= i < rest.skip(1).len() implies !#[trigger] o.before(
        &rest.skip(1)[i],
        &s[1],
    ) by {
        let x = rest.skip(1)[i];
        assert(rest.skip(1).to_multiset().count(x) > 0);
        assert(s.skip(1).to_multiset().count(x) > 0);
        assert(s.skip(1).contains(x));
        let k = choose|k: int| 0 <= k < s.skip(1).len() && s.skip(1)[k] == x;
        lemma_root_first(s, o, k + 1);
    }
}

impl<T: Default + Ord> Heap<T, MaxFirst> {
    /// An empty heap that gives the greatest value first.
    pub fn new_max() -> (heap: Self)
        ensures
            heap.wf(),
            heap.spec_len() == 0,
            heap@ == Seq::<T>::empty(),
            heap.order() == MaxFirst,
            heap.heap_ordered(),
            call_ensures(T::default, (), heap.storage()[0]),
    {
        Self::new(MaxFirst)
    }
}

impl<T: Default + Ord> Heap<T, MinFirst> {
    /// An empty heap that gives the least value first.
    pub fn new_min() -> (heap: Self)
        ensures
            heap.wf(),
            heap.spec_len() == 0,
            heap@ == Seq::<T>::empty(),
            heap.order() == MinFirst,
            heap.heap_ordered(),
            call_ensures(T::default, (), heap.storage()[0]),
    {
        Self::new(MinFirst)
    }
}

} // verus!
