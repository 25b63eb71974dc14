use vstd::prelude::*;
use vstd::seq_lib::{lemma_multiset_commutative, to_multiset_build};
use crate::morton::{key_lt, less_than, Key, Keyed};

verus! {

/// The items come in Morton order of their keys: none is followed by one
/// with a lesser key.
pub open spec fn sorted_by_key<T: Keyed>(items: Seq<T>) -> bool {
    forall|i: int, j: int|
        0 <= i < j < items.len() ==> !key_lt(#[trigger] items[j].key_of(), #[trigger] items[i].key_of())
}

/// The items come in strictly increasing Morton order: no key occurs twice.
pub open spec fn strictly_sorted_by_key<T: Keyed>(items: Seq<T>) -> bool {
    forall|i: int, j: int|
        0 <= i < j < items.len() ==> key_lt(#[trigger] items[i].key_of(), #[trigger] items[j].key_of())
}

/// The items that carry the given key.
pub open spec fn with_key<T: Keyed>(key: Key) -> spec_fn(T) -> bool {
    |item: T| item.key_of() == key
}

/// The items of `after` that share a key come in the order that they have
/// in `before`, and they are the same items.
pub open spec fn keeps_order_within_keys<T: Keyed>(before: Seq<T>, after: Seq<T>) -> bool {
    forall|key: Key| #[trigger] after.filter(with_key::<T>(key)) == before.filter(with_key::<T>(key))
}

pub proof fn lemma_filter_none<T: Keyed>(items: Seq<T>, key: Key)
    requires
        forall|i: int| 0 <= i < items.len() ==> (#[trigger] items[i]).key_of() != key,
    ensures
        items.filter(with_key::<T>(key)) == Seq::<T>::empty(),
    decreases items.len(),
{
    if items.len() == 0 {
        items.lemma_filter_len(with_key::<T>(key));
        assert(items.filter(with_key::<T>(key)) =~= Seq::<T>::empty());
    } else {
        let rest = items.drop_last();
        assert forall|i: int| 0 <= i < rest.len() implies (#[trigger] rest[i]).key_of() != key by {
            assert(rest[i] == items[i]);
        }
        lemma_filter_none(rest, key);
        assert(items =~= rest.push(items.last()));
        rest.lemma_filter_push(items.last(), with_key::<T>(key));
        assert(items[items.len() - 1].key_of() != key);
    }
}

/// One more item taken from the left run.
proof fn lemma_merge_left<T: Keyed>(out: Seq<T>, left: Seq<T>, right: Seq<T>, i: int, j: int, key: Key)
    requires
        0 <= i < left.len(),
        0 <= j <= right.len(),
        out.filter(with_key::<T>(key)) == left.take(i).filter(with_key::<T>(key)) + right.take(
            j,
        ).filter(with_key::<T>(key)),
        forall|p: int| 0 <= p < j ==> key_lt((#[trigger] right[p]).key_of(), left[i].key_of()),
    ensures
        out.push(left[i]).filter(with_key::<T>(key)) == left.take(i + 1).filter(
            with_key::<T>(key),
        ) + right.take(j).filter(with_key::<T>(key)),
{
    let holds = with_key::<T>(key);
    let item = left[i];
    assert(left.take(i + 1) =~= left.take(i).push(item));
    out.lemma_filter_push(item, holds);
    left.take(i).lemma_filter_push(item, holds);
    if item.key_of() == key {
        let taken = right.take(j);
        assert forall|p: int| 0 <= p < taken.len() implies (#[trigger] taken[p]).key_of() != key by {
            assert(key_lt(right[p].key_of(), item.key_of()));
        }
        lemma_filter_none(taken, key);
        assert(left.take(i).filter(holds).push(item) + Seq::<T>::empty() =~= (left.take(i).filter(
            holds,
        ) + Seq::<T>::empty()).push(item));
    }
}

/// One more item taken from the right run.
proof fn lemma_merge_right<T: Keyed>(out: Seq<T>, left: Seq<T>, right: Seq<T>, i: int, j: int, key: Key)
    requires
        0 <= i <= left.len(),
        0 <= j < right.len(),
        out.filter(with_key::<T>(key)) == left.take(i).filter(with_key::<T>(key)) + right.take(
            j,
        ).filter(with_key::<T>(key)),
    ensures
        out.push(right[j]).filter(with_key::<T>(key)) == left.take(i).filter(with_key::<T>(key))
            + right.take(j + 1).filter(with_key::<T>(key)),
{
    let holds = with_key::<T>(key);
    let item = right[j];
    assert(right.take(j + 1) =~= right.take(j).push(item));
    out.lemma_filter_push(item, holds);
    right.take(j).lemma_filter_push(item, holds);
    if item.key_of() == key {
        assert(left.take(i).filter(holds) + right.take(j).filter(holds).push(item) =~= (left.take(
            i,
        ).filter(holds) + right.take(j).filter(holds)).push(item));
    }
}

/// Merge two sorted runs into one; of two items with one key, that of the
/// left run comes first.
fn merge<T: Keyed>(left: &Vec<T>, right: &Vec<T>) -> (out: Vec<T>)
    requires
        sorted_by_key(left@),
        sorted_by_key(right@),
    ensures
        sorted_by_key(out@),
        out@.to_multiset() == left@.to_multiset().add(right@.to_multiset()),
        out@.len() == left@.len() + right@.len(),
        forall|key: Key| #[trigger]
            out@.filter(with_key::<T>(key)) == left@.filter(with_key::<T>(key)) + right@.filter(
                with_key::<T>(key),
            ),
{
    let mut out: Vec<T> = Vec::new();
    let mut i: usize = 0;
    let mut j: usize = 0;
    proof {
        assert(left@.take(0) =~= Seq::<T>::empty());
        assert(right@.take(0) =~= Seq::<T>::empty());
        lemma_multiset_commutative(left@.take(0), right@.take(0));
        assert forall|key: Key| #[trigger]
            out@.filter(with_key::<T>(key)) == left@.take(0).filter(with_key::<T>(key))
                + right@.take(0).filter(with_key::<T>(key)) by {
            lemma_filter_none(Seq::<T>::empty(), key);
        }
    }
    while i < left.len() || j < right.len()
        invariant
            i <= left.len(),
            j <= right.len(),
            sorted_by_key(left@),
            sorted_by_key(right@),
            sorted_by_key(out@),
            out@.len() == i + j,
            out@.to_multiset() == left@.take(i as int).to_multiset().add(
                right@.take(j as int).to_multiset(),
            ),
            forall|k: int, p: int|
                0 <= k < out@.len() && i <= p < left@.len() ==> !key_lt(
                    #[trigger] left@[p].key_of(),
                    #[trigger] out@[k].key_of(),
                ),
            forall|k: int, p: int|
                0 <= k < out@.len() && j <= p < right@.len() ==> !key_lt(
                    #[trigger] right@[p].key_of(),
                    #[trigger] out@[k].key_of(),
                ),
            forall|key: Key| #[trigger]
                out@.filter(with_key::<T>(key)) == left@.take(i as int).filter(with_key::<T>(key))
                    + right@.take(j as int).filter(with_key::<T>(key)),
            i < left@.len() ==> forall|p: int|
                0 <= p < j ==> key_lt((#[trigger] right@[p]).key_of(), left@[i as int].key_of()),
        decreases left.len() - i + (right.len() - j),
    {
        let take_left = if i == left.len() {
            false
        } else if j == right.len() {
            true
        } else {
            !less_than(&right[j].sort_key(), &left[i].sort_key())
        };
        if take_left {
            let item = left[i];
            proof {
                to_multiset_build(out@, item);
                to_multiset_build(left@.take(i as int), item);
                assert(left@.take(i + 1) =~= left@.take(i as int).push(item));
                assert forall|key: Key| #[trigger]
                    out@.push(item).filter(with_key::<T>(key)) == left@.take(i + 1).filter(
                        with_key::<T>(key),
                    ) + right@.take(j as int).filter(with_key::<T>(key)) by {
                    lemma_merge_left(out@, left@, right@, i as int, j as int, key);
                }
                if i + 1 < left@.len() {
                    assert(!key_lt(left@[i + 1].key_of(), left@[i as int].key_of()));
                }
            }
            out.push(item);
            i = i + 1;
        } else {
            let item = right[j];
            proof {
                to_multiset_build(out@, item);
                to_multiset_build(right@.take(j as int), item);
                assert(right@.take(j + 1) =~= right@.take(j as int).push(item));
                assert forall|key: Key| #[trigger]
                    out@.push(item).filter(with_key::<T>(key)) == left@.take(i as int).filter(
                        with_key::<T>(key),
                    ) + right@.take(j + 1).filter(with_key::<T>(key)) by {
                    lemma_merge_right(out@, left@, right@, i as int, j as int, key);
                }
            }
            out.push(item);
            j = j + 1;
        }
    }
    proof {
        assert(left@.take(i as int) =~= left@);
        assert(right@.take(j as int) =~= right@);
    }
    out
}

/// Sort the items of `items[lo..hi]` into a new vector.
fn sort_range<T: Keyed>(items: &Vec<T>, lo: usize, hi: usize) -> (out: Vec<T>)
    requires
        lo <= hi <= items.len(),
    ensures
        sorted_by_key(out@),
        out@.to_multiset() == items@.subrange(lo as int, hi as int).to_multiset(),
        out@.len() == hi - lo,
        keeps_order_within_keys(items@.subrange(lo as int, hi as int), out@),
    decreases hi - lo,
{
    if hi - lo <= 1 {
        let mut out: Vec<T> = Vec::new();
        if hi - lo == 1 {
            out.push(items[lo]);
        }
        proof {
            assert(out@ =~= items@.subrange(lo as int, hi as int));
        }
        out
    } else {
        let mid = lo + (hi - lo) / 2;
        let left = sort_range(items, lo, mid);
        let right = sort_range(items, mid, hi);
        proof {
            let a = items@.subrange(lo as int, mid as int);
            let b = items@.subrange(mid as int, hi as int);
            assert(items@.subrange(lo as int, hi as int) =~= a + b);
            lemma_multiset_commutative(a, b);
            assert forall|key: Key| #[trigger]
                (a + b).filter(with_key::<T>(key)) == left@.filter(with_key::<T>(key))
                    + right@.filter(with_key::<T>(key)) by {
                Seq::filter_distributes_over_add(a, b, with_key::<T>(key));
                assert(left@.filter(with_key::<T>(key)) == a.filter(with_key::<T>(key)));
                assert(right@.filter(with_key::<T>(key)) == b.filter(with_key::<T>(key)));
            }
        }
        merge(&left, &right)
    }
}

/// Sort the items into Morton order of their keys. Items that share a key
/// keep their order.
pub fn sort_by_key<T: Keyed>(items: &mut Vec<T>)
    ensures
        sorted_by_key(final(items)@),
        final(items)@.to_multiset() == old(items)@.to_multiset(),
        final(items)@.len() == old(items)@.len(),
        keeps_order_within_keys(old(items)@, final(items)@),
{
    let sorted = sort_range(items, 0, items.len());
    proof {
        assert(items@.subrange(0, items@.len() as int) =~= items@);
    }
    *items = sorted;
}

/// The first of the items with a key is the first of them where they are
/// filtered by that key.
pub proof fn lemma_filter_first<T: Keyed>(items: Seq<T>, key: Key, first: int)
    requires
        0 <= first < items.len(),
        items[first].key_of() == key,
        forall|i: int| 0 <= i < first ==> (#[trigger] items[i]).key_of() != key,
    ensures
        items.filter(with_key::<T>(key)).len() > 0,
        items.filter(with_key::<T>(key))[0] == items[first],
{
    let holds = with_key::<T>(key);
    let head = items.take(first);
    let tail = items.skip(first + 1);
    assert(items =~= head + (seq![items[first]] + tail));
    Seq::filter_distributes_over_add(head, seq![items[first]] + tail, holds);
    lemma_filter_none(head, key);
    tail.lemma_filter_prepend(items[first], holds);
}

/// Sort keys into Morton order.
pub fn sort_keys(keys: &mut Vec<Key>)
    ensures
        sorted_by_key(final(keys)@),
        final(keys)@.to_multiset() == old(keys)@.to_multiset(),
        final(keys)@.len() == old(keys)@.len(),
{
    sort_by_key(keys);
}

/// Whether the items come in Morton order of their keys.
pub fn is_sorted_by_key<T: Keyed>(items: &[T]) -> (sorted: bool)
    ensures
        sorted == sorted_by_key(items@),
{
    if items.len() < 2 {
        return true;
    }
    let mut i: usize = 1;
    while i < items.len()
        invariant
            1 <= i <= items@.len(),
            sorted_by_key(items@.take(i as int)),
        decreases items.len() - i,
    {
        if less_than(&items[i].sort_key(), &items[i - 1].sort_key()) {
            return false;
        }
        proof {
            let prefix = items@.take(i + 1);
            assert forall|p: int, q: int| 0 <= p < q < prefix.len() implies !key_lt(
                #[trigger] prefix[q].key_of(),
                #[trigger] prefix[p].key_of(),
            ) by {
                if q == i {
                    if p < i - 1 {
                        assert(!key_lt(
                            items@.take(i as int)[i - 1].key_of(),
                            items@.take(i as int)[p].key_of(),
                        ));
                    }
                } else {
                    assert(!key_lt(
                        items@.take(i as int)[q].key_of(),
                        items@.take(i as int)[p].key_of(),
                    ));
                }
            }
        }
        i = i + 1;
    }
    proof {
        assert(items@.take(i as int) =~= items@);
    }
    true
}

/// Whether the items come in strictly increasing Morton order of their
/// keys, no key twice.
pub fn is_strictly_sorted_by_key<T: Keyed>(items: &[T]) -> (sorted: bool)
    ensures
        sorted == strictly_sorted_by_key(items@),
{
    if items.len() < 2 {
        return true;
    }
    let mut i: usize = 1;
    while i < items.len()
        invariant
            1 <= i <= items@.len(),
            strictly_sorted_by_key(items@.take(i as int)),
        decreases items.len() - i,
    {
        if !less_than(&items[i - 1].sort_key(), &items[i].sort_key()) {
            proof {
                if strictly_sorted_by_key(items@) {
                    assert(key_lt(items@[i - 1].key_of(), items@[i as int].key_of()));
                }
            }
            return false;
        }
        proof {
            let prefix = items@.take(i + 1);
            assert forall|p: int, q: int| 0 <= p < q < prefix.len() implies key_lt(
                #[trigger] prefix[p].key_of(),
                #[trigger] prefix[q].key_of(),
            ) by {
                if q == i {
                    if p < i - 1 {
                        assert(key_lt(
                            items@.take(i as int)[p].key_of(),
                            items@.take(i as int)[i - 1].key_of(),
                        ));
                    }
                } else {
                    assert(key_lt(
                        items@.take(i as int)[p].key_of(),
                        items@.take(i as int)[q].key_of(),
                    ));
                }
            }
        }
        i = i + 1;
    }
    proof {
        assert(items@.take(i as int) =~= items@);
    }
    true
}

/// Keys in strictly increasing order are different keys.
pub proof fn lemma_strictly_sorted_distinct(keys: Seq<Key>)
    requires
        strictly_sorted_by_key(keys),
    ensures
        keys.no_duplicates(),
{
    assert forall|i: int, j: int| 0 <= i < keys.len() && 0 <= j < keys.len() && i != j implies keys[i]
        != keys[j] by {
        if i < j {
            assert(key_lt(keys[i].key_of(), keys[j].key_of()));
        } else {
            assert(key_lt(keys[j].key_of(), keys[i].key_of()));
        }
    }
}

/// Different keys, once sorted, come in strictly increasing order, and
/// they are the same keys.
pub proof fn lemma_sorted_distinct_is_strict(unsorted: Seq<Key>, sorted: Seq<Key>)
    requires
        unsorted.no_duplicates(),
        sorted_by_key(sorted),
        sorted.to_multiset() == unsorted.to_multiset(),
    ensures
        strictly_sorted_by_key(sorted),
        forall|key: Key| sorted.contains(key) <==> unsorted.contains(key),
{
    assert forall|key: Key| sorted.contains(key) <==> unsorted.contains(key) by {
        vstd::seq_lib::to_multiset_contains(sorted, key);
        vstd::seq_lib::to_multiset_contains(unsorted, key);
    }
    unsorted.lemma_multiset_has_no_duplicates();
    sorted.lemma_multiset_has_no_duplicates_conv();
    assert forall|i: int, j: int| 0 <= i < j < sorted.len() implies key_lt(
        #[trigger] sorted[i].key_of(),
        #[trigger] sorted[j].key_of(),
    ) by {
        assert(!key_lt(sorted[j].key_of(), sorted[i].key_of()));
        crate::morton::lemma_key_order_total(sorted[i], sorted[j]);
    }
}

/// Keys in strictly increasing order, followed by greater keys in strictly
/// increasing order, are in strictly increasing order.
pub proof fn lemma_strictly_sorted_concat(first: Seq<Key>, second: Seq<Key>)
    requires
        strictly_sorted_by_key(first),
        strictly_sorted_by_key(second),
        forall|i: int, j: int|
            0 <= i < first.len() && 0 <= j < second.len() ==> key_lt(
                #[trigger] first[i],
                #[trigger] second[j],
            ),
    ensures
        strictly_sorted_by_key(first + second),
{
    let all = first + second;
    assert forall|i: int, j: int| 0 <= i < j < all.len() implies key_lt(
        #[trigger] all[i].key_of(),
        #[trigger] all[j].key_of(),
    ) by {
        if j < first.len() {
            assert(key_lt(first[i].key_of(), first[j].key_of()));
        } else if i >= first.len() {
            assert(key_lt(second[i - first.len()].key_of(), second[j - first.len()].key_of()));
        } else {
            assert(key_lt(first[i], second[j - first.len()]));
        }
    }
}

/// The least key among the items.
pub open spec fn is_min_key<T: Keyed>(items: Seq<T>, key: Key) -> bool {
    &&& exists|i: int| 0 <= i < items.len() && #[trigger] items[i].key_of() == key
    &&& forall|i: int| 0 <= i < items.len() ==> !key_lt(#[trigger] items[i].key_of(), key)
}

/// The greatest key among the items.
pub open spec fn is_max_key<T: Keyed>(items: Seq<T>, key: Key) -> bool {
    &&& exists|i: int| 0 <= i < items.len() && #[trigger] items[i].key_of() == key
    &&& forall|i: int| 0 <= i < items.len() ==> !key_lt(key, #[trigger] items[i].key_of())
}

/// Items have one least key and one greatest key.
pub proof fn lemma_extreme_keys_unique<T: Keyed>(items: Seq<T>, first: Key, second: Key)
    ensures
        is_min_key(items, first) && is_min_key(items, second) ==> first == second,
        is_max_key(items, first) && is_max_key(items, second) ==> first == second,
{
    crate::morton::lemma_key_order_total(first, second);
}

/// Keys in strictly increasing order are determined by which keys they
/// are.
pub proof fn lemma_strictly_sorted_unique(first: Seq<Key>, second: Seq<Key>)
    requires
        strictly_sorted_by_key(first),
        strictly_sorted_by_key(second),
        forall|key: Key| first.contains(key) <==> second.contains(key),
    ensures
        first == second,
    decreases first.len(),
{
    if first.len() == 0 {
        if second.len() > 0 {
            assert(second.contains(second[0]));
        }
        assert(first =~= second);
    } else {
        let a = first.last();
        assert(first.contains(a));
        assert(second.contains(a));
        let b = second.last();
        assert(second.contains(b));
        assert(first.contains(b));
        let ia = choose|i: int| 0 <= i < second.len() && second[i] == a;
        let ib = choose|i: int| 0 <= i < first.len() && first[i] == b;
        crate::morton::lemma_key_order_total(a, b);
        if ia < second.len() - 1 {
            assert(key_lt(second[ia].key_of(), second[second.len() - 1].key_of()));
        }
        if ib < first.len() - 1 {
            assert(key_lt(first[ib].key_of(), first[first.len() - 1].key_of()));
        }
        assert(a == b);
        let rest_first = first.drop_last();
        let rest_second = second.drop_last();
        assert forall|key: Key| rest_first.contains(key) <==> rest_second.contains(key) by {
            if rest_first.contains(key) {
                let i = choose|i: int| 0 <= i < rest_first.len() && rest_first[i] == key;
                assert(first[i] == key);
                assert(first.contains(key));
                assert(key_lt(first[i].key_of(), first[first.len() - 1].key_of()));
                let j = choose|j: int| 0 <= j < second.len() && second[j] == key;
                crate::morton::lemma_key_order_total(key, a);
                assert(rest_second[j] == key);
            }
            if rest_second.contains(key) {
                let i = choose|i: int| 0 <= i < rest_second.len() && rest_second[i] == key;
                assert(second[i] == key);
                assert(second.contains(key));
                assert(key_lt(second[i].key_of(), second[second.len() - 1].key_of()));
                let j = choose|j: int| 0 <= j < first.len() && first[j] == key;
                crate::morton::lemma_key_order_total(key, a);
                assert(rest_first[j] == key);
            }
        }
        assert forall|i: int, j: int| 0 <= i < j < rest_first.len() implies key_lt(
            #[trigger] rest_first[i].key_of(),
            #[trigger] rest_first[j].key_of(),
        ) by {
            assert(key_lt(first[i].key_of(), first[j].key_of()));
        }
        assert forall|i: int, j: int| 0 <= i < j < rest_second.len() implies key_lt(
            #[trigger] rest_second[i].key_of(),
            #[trigger] rest_second[j].key_of(),
        ) by {
            assert(key_lt(second[i].key_of(), second[j].key_of()));
        }
        lemma_strictly_sorted_unique(rest_first, rest_second);
        assert(first =~= rest_first.push(a));
        assert(second =~= rest_second.push(b));
    }
}

/// The least key among the items, if there is any item.
pub fn min_key<T: Keyed>(items: &[T]) -> (least: Option<Key>)
    ensures
        items@.len() == 0 <==> least.is_none(),
        least matches Some(key) ==> is_min_key(items@, key),
{
    if items.len() == 0 {
        return None;
    }
    let mut best = items[0].sort_key();
    let mut i: usize = 1;
    while i < items.len()
        invariant
            1 <= i <= items@.len(),
            exists|p: int| 0 <= p < i && #[trigger] items@[p].key_of() == best,
            forall|p: int| 0 <= p < i ==> !key_lt(#[trigger] items@[p].key_of(), best),
        decreases items.len() - i,
    {
        let key = items[i].sort_key();
        if less_than(&key, &best) {
            best = key;
        }
        i = i + 1;
    }
    Some(best)
}

/// The greatest key among the items, if there is any item.
pub fn max_key<T: Keyed>(items: &[T]) -> (greatest: Option<Key>)
    ensures
        items@.len() == 0 <==> greatest.is_none(),
        greatest matches Some(key) ==> is_max_key(items@, key),
{
    if items.len() == 0 {
        return None;
    }
    let mut best = items[0].sort_key();
    let mut i: usize = 1;
    while i < items.len()
        invariant
            1 <= i <= items@.len(),
            exists|p: int| 0 <= p < i && #[trigger] items@[p].key_of() == best,
            forall|p: int| 0 <= p < i ==> !key_lt(best, #[trigger] items@[p].key_of()),
        decreases items.len() - i,
    {
        let key = items[i].sort_key();
        if less_than(&best, &key) {
            best = key;
        }
        i = i + 1;
    }
    Some(best)
}

} // verus!
