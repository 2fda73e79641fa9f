//! What holds of a heap over any run of additions and extractions, stated
//! on the backing array.

use crate::data_structures::heap::extracted;
use crate::data_structures::heap::inserted;
use crate::data_structures::heap::lemma_extraction;
use crate::data_structures::heap::lemma_live_of_rest;
use crate::data_structures::heap::lemma_root_removed_live;
use crate::data_structures::heap::lemma_inserted_ordered;
use crate::data_structures::heap::lemma_swapped_live;
use crate::data_structures::heap::favoured_child;
use crate::data_structures::heap::ordered;
use crate::data_structures::heap::root_removed;
use crate::data_structures::heap::sifted_down;
use crate::data_structures::heap::sifted_up;
use crate::data_structures::order::consistent;
use crate::data_structures::order::Order;
use crate::exchange::swapped;
use vstd::prelude::*;

verus! {

/// The array after a run of calls, the earliest first: `Some(x)` adds `x`,
/// `None` extracts.
pub open spec fn replayed<T, O: Order<T>>(s: Seq<T>, o: O, calls: Seq<Option<T>>) -> Seq<T>
    decreases calls.len(),
{
    if calls.len() == 0 {
        s
    } else {
        match calls.last() {
            Some(x) => inserted(replayed(s, o, calls.drop_last()), o, x),
            None => extracted(replayed(s, o, calls.drop_last()), o),
        }
    }
}

/// The number of additions in a run of calls.
pub open spec fn additions<T>(calls: Seq<Option<T>>) -> nat
    decreases calls.len(),
{
    if calls.len() == 0 {
        0
    } else if calls.last().is_some() {
        additions(calls.drop_last()) + 1
    } else {
        additions(calls.drop_last())
    }
}

/// The number of extractions in a run of calls.
pub open spec fn extractions<T>(calls: Seq<Option<T>>) -> nat
    decreases calls.len(),
{
    if calls.len() == 0 {
        0
    } else if calls.last().is_none() {
        extractions(calls.drop_last()) + 1
    } else {
        extractions(calls.drop_last())
    }
}

/// The array after `n` extractions in a row.
pub open spec fn drained<T, O: Order<T>>(s: Seq<T>, o: O, n: nat) -> Seq<T>
    decreases n,
{
    if n == 0 {
        s
    } else {
        extracted(drained(s, o, (n - 1) as nat), o)
    }
}

/// A rising node changes neither the length of the array, nor slot 0, nor
/// the live values.
pub proof fn lemma_sifted_up_live<T, O: Order<T>>(s: Seq<T>, o: O, idx: int)
    requires
        1 <= idx < s.len(),
    ensures
        sifted_up(s, o, idx).len() == s.len(),
        sifted_up(s, o, idx)[0] == s[0],
        sifted_up(s, o, idx).skip(1).to_multiset() == s.skip(1).to_multiset(),
    decreases idx,
{
    if 2 <= idx && o.before(&s[idx], &s[idx / 2]) {
        lemma_swapped_live(s, idx, idx / 2);
        lemma_sifted_up_live(swapped(s, idx, idx / 2), o, idx / 2);
    }
}

/// A sinking node changes neither the length of the array, nor slot 0, nor
/// the live values.
pub proof fn lemma_sifted_down_live<T, O: Order<T>>(s: Seq<T>, o: O, idx: int)
    requires
        1 <= idx,
    ensures
        sifted_down(s, o, idx).len() == s.len(),
        s.len() >= 1 ==> sifted_down(s, o, idx)[0] == s[0],
        sifted_down(s, o, idx).skip(1).to_multiset() == s.skip(1).to_multiset(),
    decreases s.len() - idx,
{
    if 2 * idx < s.len() && o.before(&s[favoured_child(s, o, idx)], &s[idx]) {
        let c = favoured_child(s, o, idx);
        lemma_swapped_live(s, c, idx);
        lemma_sifted_down_live(swapped(s, c, idx), o, c);
    }
}

/// An addition makes the array one longer, leaves slot 0 alone and adds
/// the new value to the live values.
pub proof fn lemma_inserted_live<T, O: Order<T>>(s: Seq<T>, o: O, x: T)
    requires
        s.len() >= 1,
    ensures
        inserted(s, o, x).len() == s.len() + 1,
        inserted(s, o, x)[0] == s[0],
        inserted(s, o, x).skip(1).to_multiset() == s.skip(1).to_multiset().insert(x),
{
    vstd::seq_lib::to_multiset_build(s.skip(1), x);
    assert(s.push(x).skip(1) =~= s.skip(1).push(x));
    lemma_sifted_up_live(s.push(x), o, s.len() as int);
}

/// An extraction from an array with a live value makes it one shorter,
/// leaves slot 0 alone and takes the root from the live values.
pub proof fn lemma_extracted_live<T, O: Order<T>>(s: Seq<T>, o: O)
    requires
        s.len() >= 2,
    ensures
        extracted(s, o).len() == s.len() - 1,
        extracted(s, o)[0] == s[0],
        extracted(s, o).skip(1).to_multiset().insert(s[1]) == s.skip(1).to_multiset(),
{
    lemma_root_removed_live(s);
    lemma_sifted_down_live(root_removed(s), o, 1);
}

/// The heap property is kept by every run of additions and extractions:
/// after it, as before it, no node comes before its parent.
pub proof fn lemma_replayed_ordered<T, O: Order<T>>(s: Seq<T>, o: O, calls: Seq<Option<T>>)
    requires
        consistent(o),
        s.len() >= 1,
        ordered(s, o),
    ensures
        replayed(s, o, calls).len() >= 1,
        ordered(replayed(s, o, calls), o),
    decreases calls.len(),
{
    if calls.len() > 0 {
        let t = replayed(s, o, calls.drop_last());
        lemma_replayed_ordered(s, o, calls.drop_last());
        match calls.last() {
            Some(x) => {
                lemma_inserted_live(t, o, x);
                lemma_inserted_ordered(t, o, x);
            },
            None => {
                if t.len() >= 2 {
                    lemma_extracted_live(t, o);
                    lemma_extraction(t, o);
                }
            },
        }
    }
}

/// The number of live values after a run of calls in which no extraction
/// meets an empty heap is the number before, plus the additions, less the
/// extractions.
pub proof fn lemma_replayed_len<T, O: Order<T>>(s: Seq<T>, o: O, calls: Seq<Option<T>>)
    requires
        s.len() >= 1,
        forall|i: int|
            0 <= i < calls.len() && calls[i].is_none() ==> (#[trigger] replayed(
                s,
                o,
                calls.take(i),
            )).len() >= 2,
    ensures
        replayed(s, o, calls).len() == s.len() + additions(calls) - extractions(calls),
        replayed(s, o, calls).len() >= 1,
    decreases calls.len(),
{
    if calls.len() > 0 {
        let before = calls.drop_last();
        let t = replayed(s, o, before);
        assert forall|i: int| 0 <= i < before.len() && before[i].is_none() implies (
        #[trigger] replayed(s, o, before.take(i))).len() >= 2 by {
            assert(before.take(i) =~= calls.take(i));
        }
        lemma_replayed_len(s, o, before);
        match calls.last() {
            Some(x) => {
                lemma_inserted_live(t, o, x);
            },
            None => {
                assert(calls.take(calls.len() - 1) =~= before);
                lemma_extracted_live(t, o);
            },
        }
    }
}

/// After as many extractions as there are live values, or more, no live
/// value is left, and a further extraction changes nothing.
pub proof fn lemma_exhaustion<T, O: Order<T>>(s: Seq<T>, o: O, n: nat)
    requires
        s.len() >= 1,
    ensures
        drained(s, o, n).len() == if n >= s.len() - 1 {
            1
        } else {
            s.len() - n
        },
        n >= s.len() - 1 ==> drained(s, o, n + 1) == drained(s, o, n),
    decreases n,
{
    if n > 0 {
        lemma_exhaustion(s, o, (n - 1) as nat);
        let t = drained(s, o, (n - 1) as nat);
        if t.len() >= 2 {
            lemma_extracted_live(t, o);
        }
    }
}

/// Extractions in a row keep the heap property.
pub proof fn lemma_drained_ordered<T, O: Order<T>>(s: Seq<T>, o: O, n: nat)
    requires
        consistent(o),
        s.len() >= 1,
        ordered(s, o),
    ensures
        drained(s, o, n).len() >= 1,
        ordered(drained(s, o, n), o),
    decreases n,
{
    if n > 0 {
        lemma_drained_ordered(s, o, (n - 1) as nat);
        let t = drained(s, o, (n - 1) as nat);
        if t.len() >= 2 {
            lemma_extracted_live(t, o);
            lemma_extraction(t, o);
        }
    }
}

/// Extractions only take values away: the live values after `j`
/// extractions are among those after `i <= j` extractions.
pub proof fn lemma_drained_live<T, O: Order<T>>(s: Seq<T>, o: O, i: nat, j: nat)
    requires
        s.len() >= 1,
        i <= j,
    ensures
        1 <= drained(s, o, j).len() <= drained(s, o, i).len(),
        drained(s, o, j).skip(1).to_multiset().subset_of(drained(s, o, i).skip(1).to_multiset()),
    decreases j,
{
    broadcast use vstd::multiset::group_multiset_axioms;

    if i == j {
        lemma_exhaustion(s, o, i);
    } else {
        lemma_drained_live(s, o, i, (j - 1) as nat);
        let t = drained(s, o, (j - 1) as nat);
        if t.len() >= 2 {
            lemma_extracted_live(t, o);
        }
    }
}

/// The values that extractions in a row give come in order of priority:
/// the value that a later extraction gives does not come before the value
/// that an earlier one gave. A max-heap gives its values in non-increasing
/// order, a min-heap in non-decreasing order.
pub proof fn lemma_drain_order<T, O: Order<T>>(s: Seq<T>, o: O, i: nat, j: nat)
    requires
        consistent(o),
        s.len() >= 1,
        ordered(s, o),
        i < j,
        drained(s, o, j).len() >= 2,
    ensures
        drained(s, o, i).len() >= 2,
        !o.before(&drained(s, o, j)[1], &drained(s, o, i)[1]),
{
    broadcast use vstd::multiset::group_multiset_axioms;
    broadcast use vstd::seq_lib::group_to_multiset_ensures;

    let a = drained(s, o, i);
    let b = drained(s, o, i + 1);
    let c = drained(s, o, j);
    lemma_drained_live(s, o, i, j);
    lemma_drained_ordered(s, o, i);
    assert(b == extracted(a, o));
    lemma_extracted_live(a, o);
    lemma_live_of_rest(a, b, o);
    lemma_drained_live(s, o, i + 1, j);
    let y = c[1];
    assert(c.skip(1)[0] == y);
    assert(c.skip(1).to_multiset().count(y) > 0);
    assert(b.skip(1).to_multiset().count(y) > 0);
    assert(b.skip(1).contains(y));
    let k = choose|k: int| 0 <= k < b.skip(1).len() && b.skip(1)[k] == y;
    assert(!o.before(&b.skip(1)[k], &a[1]));
}

} // verus!
