//! Stable ordering of shipments by their order number.
use crate::shipment::Shipment;
use vstd::prelude::*;

verus! {

/// `x` put into `s` after every element with an order number not above its own, walking from
/// the back: the step of a stable insertion sort.
pub open spec fn insert_by_order(x: Shipment, s: Seq<Shipment>) -> Seq<Shipment>
    decreases s.len(),
{
    if s.len() == 0 {
        seq![x]
    } else if s.last().order <= x.order {
        s.push(x)
    } else {
        insert_by_order(x, s.drop_last()).push(s.last())
    }
}

/// `s` stably sorted by order number: equal order numbers keep their relative order.
pub open spec fn sort_by_order(s: Seq<Shipment>) -> Seq<Shipment>
    decreases s.len(),
{
    if s.len() == 0 {
        s
    } else {
        insert_by_order(s.last(), sort_by_order(s.drop_last()))
    }
}

/// Whether the order numbers of `s` never decrease.
pub open spec fn is_sorted_by_order(s: Seq<Shipment>) -> bool {
    forall|i: int, j: int| 0 <= i <= j < s.len() ==> s[i].order <= s[j].order
}

/// Inserting after the elements with a higher order number at the back is putting the element
/// at the first index from which all elements have a higher order number.
proof fn lemma_insert_at(x: Shipment, s: Seq<Shipment>, k: int)
    requires
        0 <= k <= s.len(),
        forall|j: int| k <= j < s.len() ==> s[j].order > x.order,
        k > 0 ==> s[k - 1].order <= x.order,
    ensures
        insert_by_order(x, s) == s.insert(k, x),
    decreases s.len(),
{
    if s.len() == 0 {
        assert(s.insert(k, x) =~= seq![x]);
    } else if s.last().order <= x.order {
        assert(k == s.len());
        assert(s.insert(k, x) =~= s.push(x));
    } else {
        lemma_insert_at(x, s.drop_last(), k);
        assert(s.drop_last().insert(k, x).push(s.last()) =~= s.insert(k, x));
    }
}

/// Inserting into a sorted sequence keeps it sorted, and keeps the same elements.
proof fn lemma_insert_sorted(x: Shipment, s: Seq<Shipment>)
    requires
        is_sorted_by_order(s),
    ensures
        is_sorted_by_order(insert_by_order(x, s)),
        insert_by_order(x, s).len() == s.len() + 1,
        insert_by_order(x, s).to_multiset() == s.to_multiset().insert(x),
    decreases s.len(),
{
    broadcast use vstd::seq_lib::group_to_multiset_ensures;
    if s.len() == 0 {
        assert(seq![x] =~= Seq::<Shipment>::empty().push(x));
    } else if s.last().order <= x.order {
    } else {
        let init = s.drop_last();
        assert(is_sorted_by_order(init));
        lemma_insert_sorted(x, init);
        let r = insert_by_order(x, init);
        assert(s =~= init.push(s.last()));
        assert forall|i: int| 0 <= i < r.len() implies r[i].order <= s.last().order by {
            assert(r.to_multiset().count(r[i]) > 0);
            if r[i] == x {
            } else {
                assert(init.to_multiset().count(r[i]) > 0);
                assert(init.contains(r[i]));
                let j = choose|j: int| 0 <= j < init.len() && init[j] == r[i];
                assert(s[j] == init[j]);
            }
        }
    }
}

/// The stable sort by order number yields a sorted permutation of its input.
pub proof fn lemma_sort_by_order(s: Seq<Shipment>)
    ensures
        is_sorted_by_order(sort_by_order(s)),
        sort_by_order(s).len() == s.len(),
        sort_by_order(s).to_multiset() == s.to_multiset(),
    decreases s.len(),
{
    broadcast use vstd::seq_lib::group_to_multiset_ensures;
    if s.len() > 0 {
        lemma_sort_by_order(s.drop_last());
        lemma_insert_sorted(s.last(), sort_by_order(s.drop_last()));
        assert(s =~= s.drop_last().push(s.last()));
    }
}

/// Sorting what is already sorted changes nothing.
pub proof fn lemma_sort_sorted(s: Seq<Shipment>)
    requires
        is_sorted_by_order(s),
    ensures
        sort_by_order(s) == s,
    decreases s.len(),
{
    if s.len() > 0 {
        let init = s.drop_last();
        assert(is_sorted_by_order(init));
        lemma_sort_sorted(init);
        if init.len() == 0 {
            assert(seq![s.last()] =~= s);
        } else {
            assert(init.last().order <= s.last().order);
            assert(init.push(s.last()) =~= s);
        }
    }
}

/// Sorts `v` stably by order number.
pub fn sort_shipments(v: &mut Vec<Shipment>)
    ensures
        final(v)@ == sort_by_order(old(v)@),
{
    let ghost orig = v@;
    let n = v.len();
    let mut i: usize = 0;
    assert(orig.take(0) =~= Seq::<Shipment>::empty());
    assert(v@ =~= sort_by_order(orig.take(0)) + orig.skip(0));
    while i < n
        invariant
            n == orig.len(),
            i <= n,
            v@.len() == n,
            v@ == sort_by_order(orig.take(i as int)) + orig.skip(i as int),
        decreases n - i,
    {
        let ghost sorted = sort_by_order(orig.take(i as int));
        proof {
            lemma_sort_by_order(orig.take(i as int));
        }
        let x = v.remove(i);
        assert(x == orig[i as int]);
        assert(v@ =~= sorted + orig.skip(i + 1));
        let mut k = i;
        while k > 0 && v[k - 1].order > x.order
            invariant
                k <= i,
                i < n,
                v@ == sorted + orig.skip(i + 1),
                sorted.len() == i,
                forall|j: int| k <= j < i ==> sorted[j].order > x.order,
            decreases k,
        {
            k = k - 1;
        }
        proof {
            lemma_insert_at(x, sorted, k as int);
            assert(orig.take(i + 1).drop_last() =~= orig.take(i as int));
        }
        v.insert(k, x);
        assert(v@ =~= sort_by_order(orig.take(i + 1)) + orig.skip(i + 1));
        i = i + 1;
    }
    assert(orig.take(n as int) =~= orig);
    assert(v@ =~= sort_by_order(orig));
}

} // verus!
