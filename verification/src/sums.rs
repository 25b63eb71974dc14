use vstd::prelude::*;
use vstd::seq_lib::{to_multiset_contains, to_multiset_remove};

verus! {

/// The sum of the weights of the items.
pub open spec fn weighted_sum<T>(items: Seq<T>, weight: spec_fn(T) -> nat) -> nat
    decreases items.len(),
{
    if items.len() == 0 {
        0
    } else {
        weighted_sum(items.drop_last(), weight) + weight(items.last())
    }
}

/// One more item adds its weight.
pub proof fn lemma_sum_push<T>(items: Seq<T>, item: T, weight: spec_fn(T) -> nat)
    ensures
        weighted_sum(items.push(item), weight) == weighted_sum(items, weight) + weight(item),
{
    assert(items.push(item).drop_last() =~= items);
}

/// The sum over a prefix grows by the weight of the next item.
pub proof fn lemma_sum_take_step<T>(items: Seq<T>, i: int, weight: spec_fn(T) -> nat)
    requires
        0 <= i < items.len(),
    ensures
        weighted_sum(items.take(i + 1), weight) == weighted_sum(items.take(i), weight) + weight(
            items[i],
        ),
        weighted_sum(items.take(0), weight) == 0,
{
    assert(items.take(i + 1).drop_last() =~= items.take(i));
}

/// The sum over a concatenation is the sum of the sums.
pub proof fn lemma_sum_concat<T>(a: Seq<T>, b: Seq<T>, weight: spec_fn(T) -> nat)
    ensures
        weighted_sum(a + b, weight) == weighted_sum(a, weight) + weighted_sum(b, weight),
    decreases b.len(),
{
    if b.len() == 0 {
        assert(a + b =~= a);
    } else {
        assert((a + b).drop_last() =~= a + b.drop_last());
        lemma_sum_concat(a, b.drop_last(), weight);
    }
}

/// No prefix weighs more than the whole.
pub proof fn lemma_sum_prefix_le<T>(items: Seq<T>, i: int, weight: spec_fn(T) -> nat)
    requires
        0 <= i <= items.len(),
    ensures
        weighted_sum(items.take(i), weight) <= weighted_sum(items, weight),
{
    assert(items =~= items.take(i) + items.skip(i));
    lemma_sum_concat(items.take(i), items.skip(i), weight);
}

/// Taking one item out takes its weight out.
pub proof fn lemma_sum_remove<T>(items: Seq<T>, i: int, weight: spec_fn(T) -> nat)
    requires
        0 <= i < items.len(),
    ensures
        weighted_sum(items, weight) == weighted_sum(items.remove(i), weight) + weight(items[i]),
{
    let head = items.take(i);
    let tail = items.skip(i + 1);
    assert(items =~= head.push(items[i]) + tail);
    assert(items.remove(i) =~= head + tail);
    lemma_sum_concat(head.push(items[i]), tail, weight);
    lemma_sum_concat(head, tail, weight);
    lemma_sum_push(head, items[i], weight);
}

/// The sum does not depend on the order of the items.
pub proof fn lemma_sum_permutation<T>(a: Seq<T>, b: Seq<T>, weight: spec_fn(T) -> nat)
    requires
        a.to_multiset() == b.to_multiset(),
    ensures
        weighted_sum(a, weight) == weighted_sum(b, weight),
    decreases a.len(),
{
    a.to_multiset_ensures();
    b.to_multiset_ensures();
    if a.len() == 0 {
        assert(b.len() == 0);
    } else {
        let last = a.last();
        let rest = a.drop_last();
        assert(a.contains(last));
        to_multiset_contains(a, last);
        to_multiset_contains(b, last);
        assert(b.contains(last));
        let i = choose|i: int| 0 <= i < b.len() && b[i] == last;
        assert(rest =~= a.remove(a.len() - 1));
        to_multiset_remove(a, a.len() - 1);
        to_multiset_remove(b, i);
        lemma_sum_permutation(rest, b.remove(i), weight);
        lemma_sum_remove(b, i, weight);
    }
}

/// Items that weigh no more one by one weigh no more together.
pub proof fn lemma_sum_monotone<T>(
    items: Seq<T>,
    lighter: spec_fn(T) -> nat,
    heavier: spec_fn(T) -> nat,
)
    requires
        forall|i: int| 0 <= i < items.len() ==> lighter(#[trigger] items[i]) <= heavier(items[i]),
    ensures
        weighted_sum(items, lighter) <= weighted_sum(items, heavier),
    decreases items.len(),
{
    if items.len() > 0 {
        let rest = items.drop_last();
        assert forall|i: int| 0 <= i < rest.len() implies lighter(#[trigger] rest[i]) <= heavier(
            rest[i],
        ) by {
            assert(rest[i] == items[i]);
        }
        lemma_sum_monotone(rest, lighter, heavier);
        assert(items.last() == items[items.len() - 1]);
    }
}

/// Items of weight at most `bound` each weigh at most `bound` times their number.
pub proof fn lemma_sum_bounded<T>(items: Seq<T>, weight: spec_fn(T) -> nat, bound: nat)
    requires
        forall|i: int| 0 <= i < items.len() ==> weight(#[trigger] items[i]) <= bound,
    ensures
        weighted_sum(items, weight) <= items.len() * bound,
    decreases items.len(),
{
    if items.len() > 0 {
        let rest = items.drop_last();
        assert forall|i: int| 0 <= i < rest.len() implies weight(#[trigger] rest[i]) <= bound by {
            assert(rest[i] == items[i]);
        }
        lemma_sum_bounded(rest, weight, bound);
        assert(items.last() == items[items.len() - 1]);
        assert(items.len() * bound == rest.len() * bound + bound) by (nonlinear_arith)
            requires
                items.len() == rest.len() + 1,
        ;
    }
}


/// Weights that add up item by item add up in sum.
pub proof fn lemma_sum_add<T>(
    items: Seq<T>,
    first: spec_fn(T) -> nat,
    second: spec_fn(T) -> nat,
    both: spec_fn(T) -> nat,
)
    requires
        forall|i: int|
            0 <= i < items.len() ==> both(#[trigger] items[i]) == first(items[i]) + second(items[i]),
    ensures
        weighted_sum(items, both) == weighted_sum(items, first) + weighted_sum(items, second),
    decreases items.len(),
{
    if items.len() > 0 {
        let rest = items.drop_last();
        assert forall|i: int| 0 <= i < rest.len() implies both(#[trigger] rest[i]) == first(rest[i])
            + second(rest[i]) by {
            assert(rest[i] == items[i]);
        }
        lemma_sum_add(rest, first, second, both);
        assert(items.last() == items[items.len() - 1]);
    }
}

/// The weight of each item, or nothing where the item is not chosen.
pub open spec fn restricted<T>(weight: spec_fn(T) -> nat, chosen: spec_fn(T) -> bool) -> spec_fn(
    T,
) -> nat {
    |item: T|
        if chosen(item) {
            weight(item)
        } else {
            0
        }
}

/// The sum over the chosen items is the sum of the restricted weights.
pub proof fn lemma_sum_filter<T>(items: Seq<T>, weight: spec_fn(T) -> nat, chosen: spec_fn(T) -> bool)
    ensures
        weighted_sum(items.filter(chosen), weight) == weighted_sum(items, restricted(weight, chosen)),
    decreases items.len(),
{
    if items.len() == 0 {
        items.lemma_filter_len(chosen);
    } else {
        let rest = items.drop_last();
        lemma_sum_filter(rest, weight, chosen);
        assert(items =~= rest.push(items.last()));
        rest.lemma_filter_push(items.last(), chosen);
        if chosen(items.last()) {
            lemma_sum_push(rest.filter(chosen), items.last(), weight);
        }
    }
}

/// The sum over changed items whose weights did not change.
pub proof fn lemma_sum_map<T>(items: Seq<T>, weight: spec_fn(T) -> nat, change: spec_fn(T) -> T)
    requires
        forall|i: int| 0 <= i < items.len() ==> weight(change(#[trigger] items[i])) == weight(items[i]),
    ensures
        weighted_sum(items.map_values(change), weight) == weighted_sum(items, weight),
    decreases items.len(),
{
    if items.len() > 0 {
        let rest = items.drop_last();
        assert forall|i: int| 0 <= i < rest.len() implies weight(change(#[trigger] rest[i]))
            == weight(rest[i]) by {
            assert(rest[i] == items[i]);
        }
        lemma_sum_map(rest, weight, change);
        assert(items.map_values(change).drop_last() =~= rest.map_values(change));
        assert(items.last() == items[items.len() - 1]);
    }
}

} // verus!
