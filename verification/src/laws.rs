use vstd::prelude::*;
use crate::morton::{
    ancestor_at, ancestors_spec, is_ancestor, key_lt, key_parent, lemma_ancestor_interval,
    lemma_ancestor_less, lemma_ancestor_of_ancestor, lemma_ancestor_wf, lemma_cell_span,
    lemma_interval_ancestor, lemma_key_order_total, lemma_parent_wf, lemma_root, Key, Keyed,
};
use crate::region::{
    in_region, lemma_chain_not_in_region, lemma_listed_wf, listed_ancestor, on_chain,
};
use crate::sorting::strictly_sorted_by_key;
use crate::tree::{kept_prefix, linearised};

verus! {

/// A key at level `L > 0` has `L` ancestors, each a proper ancestor that
/// comes before the key in the Morton order.
pub proof fn lemma_ancestors_proper(k: Key, depth: u64)
    requires
        k.wf(depth),
        k.3 > 0,
    ensures
        ancestors_spec(k, depth).len() == k.3,
        forall|i: int|
            0 <= i < k.3 ==> is_ancestor(#[trigger] ancestors_spec(k, depth)[i], k, depth)
                && ancestors_spec(k, depth)[i].wf(depth) && key_lt(
                ancestors_spec(k, depth)[i],
                k,
            ),
{
    assert forall|i: int| 0 <= i < k.3 implies is_ancestor(
        #[trigger] ancestors_spec(k, depth)[i],
        k,
        depth,
    ) && ancestors_spec(k, depth)[i].wf(depth) && key_lt(ancestors_spec(k, depth)[i], k) by {
        let level = (k.3 - 1 - i) as u64;
        lemma_ancestor_wf(k, level, depth);
        lemma_ancestor_less(ancestor_at(k, level, depth), k, depth);
    }
}

/// No key of a sequence is on the list of ancestors of the key after it.
pub open spec fn overlap_free(keys: Seq<Key>, depth: u64) -> bool {
    forall|j: int|
        0 <= j < keys.len() - 1 ==> !listed_ancestor(#[trigger] keys[j], keys[j + 1], depth)
}

proof fn lemma_kept_all(keys: Seq<Key>, depth: u64, n: nat)
    requires
        overlap_free(keys, depth),
        n < keys.len(),
    ensures
        kept_prefix(keys, depth, n) == keys.take(n as int),
    decreases n,
{
    if n > 0 {
        lemma_kept_all(keys, depth, (n - 1) as nat);
        assert(!listed_ancestor(keys[n - 1], keys[n as int], depth));
        assert(keys.take(n as int) =~= keys.take(n - 1).push(keys[n - 1]));
    } else {
        assert(keys.take(0) =~= Seq::<Key>::empty());
    }
}

/// Keys without overlaps are left as they are.
pub proof fn lemma_linearised_fixpoint(keys: Seq<Key>, depth: u64)
    requires
        overlap_free(keys, depth),
    ensures
        linearised(keys, depth) == keys,
{
    if keys.len() > 0 {
        lemma_kept_all(keys, depth, (keys.len() - 1) as nat);
        assert(keys.take(keys.len() - 1).push(keys.last()) =~= keys);
    }
}

/// What holds of the keys kept among the first `n` of sorted keys.
spec fn kept_inv(keys: Seq<Key>, depth: u64, n: nat) -> bool {
    let out = kept_prefix(keys, depth, n);
    &&& overlap_free(out, depth)
    &&& strictly_sorted_by_key(out)
    &&& forall|j: int| 0 <= j < out.len() ==> key_lt(#[trigger] out[j], keys[n as int]) && out[j].wf(depth)
    &&& out.len() > 0 ==> !listed_ancestor(out.last(), keys[n as int], depth)
}

proof fn lemma_not_above_next(last: Key, prev: Key, next: Key, depth: u64)
    requires
        last.wf(depth),
        prev.wf(depth),
        next.wf(depth),
        key_lt(last, prev),
        key_lt(prev, next),
        !listed_ancestor(last, prev, depth),
        listed_ancestor(prev, next, depth),
    ensures
        !listed_ancestor(last, next, depth),
{
    lemma_key_order_total(last, prev);
    lemma_key_order_total(prev, next);
    lemma_key_order_total(last, next);
    if listed_ancestor(last, next, depth) {
        assert(is_ancestor(last, next, depth));
        assert(is_ancestor(prev, next, depth));
        if last.3 < prev.3 {
            lemma_ancestor_of_ancestor(next, last.3, prev.3, depth);
            assert(is_ancestor(last, prev, depth));
        } else {
            lemma_ancestor_of_ancestor(next, prev.3, last.3, depth);
            lemma_ancestor_wf(last, last.3, depth);
            if last.3 > prev.3 {
                lemma_ancestor_less(prev, last, depth);
            }
        }
    }
}

proof fn lemma_kept_inv(keys: Seq<Key>, depth: u64, n: nat)
    requires
        strictly_sorted_by_key(keys),
        forall|i: int| 0 <= i < keys.len() ==> (#[trigger] keys[i]).wf(depth),
        n < keys.len(),
    ensures
        kept_inv(keys, depth, n),
    decreases n,
{
    if n > 0 {
        lemma_kept_inv(keys, depth, (n - 1) as nat);
        let before = kept_prefix(keys, depth, (n - 1) as nat);
        let out = kept_prefix(keys, depth, n);
        let prev = keys[n - 1];
        let next = keys[n as int];
        assert(key_lt(keys[n - 1].key_of(), keys[n as int].key_of()));
        assert(prev.wf(depth) && next.wf(depth));
        if listed_ancestor(prev, next, depth) {
            if before.len() > 0 {
                lemma_not_above_next(before.last(), prev, next, depth);
            }
        } else {
            assert forall|j: int| 0 <= j < out.len() - 1 implies !listed_ancestor(
                #[trigger] out[j],
                out[j + 1],
                depth,
            ) by {
                if j < before.len() - 1 {
                    assert(out[j] == before[j] && out[j + 1] == before[j + 1]);
                }
            }
            assert(strictly_sorted_by_key(seq![prev]));
            crate::sorting::lemma_strictly_sorted_concat(before, seq![prev]);
            assert(out =~= before + seq![prev]);
        }
    }
}

/// What linearising leaves of keys in strictly increasing order is linear:
/// the keys that are left come in strictly increasing order, and none of
/// them encloses another.
pub proof fn lemma_linearised_linear(keys: Seq<Key>, depth: u64)
    requires
        strictly_sorted_by_key(keys),
        forall|i: int| 0 <= i < keys.len() ==> (#[trigger] keys[i]).wf(depth),
    ensures
        crate::cover::seeds_linear(linearised(keys, depth), depth),
{
    let linear = linearised(keys, depth);
    if keys.len() > 0 {
        let n = (keys.len() - 1) as nat;
        lemma_kept_inv(keys, depth, n);
        lemma_linearised_overlap_free(keys, depth);
        let out = kept_prefix(keys, depth, n);
        assert(keys.last() == keys[n as int]);
        assert(strictly_sorted_by_key(seq![keys.last()]));
        crate::sorting::lemma_strictly_sorted_concat(out, seq![keys.last()]);
        assert(linear =~= out + seq![keys.last()]);
        assert forall|k: int| 0 <= k < linear.len() implies (#[trigger] linear[k]).wf(depth) by {
            if k < out.len() {
                assert(linear[k] == out[k]);
            }
        }
        assert forall|i: int| 0 <= i < linear.len() - 1 implies key_lt(
            #[trigger] linear[i],
            linear[i + 1],
        ) && !crate::cover::encloses(linear[i], linear[i + 1], depth) by {
            assert(key_lt(linear[i].key_of(), linear[i + 1].key_of()));
            assert(!listed_ancestor(linear[i], linear[i + 1], depth));
            lemma_ancestor_wf(linear[i + 1], linear[i + 1].3, depth);
        }
        crate::cover::lemma_neighbours_linear(linear, depth);
    }
}

/// What linearising leaves of keys in strictly increasing order has no
/// overlaps.
pub proof fn lemma_linearised_overlap_free(keys: Seq<Key>, depth: u64)
    requires
        strictly_sorted_by_key(keys),
        forall|i: int| 0 <= i < keys.len() ==> (#[trigger] keys[i]).wf(depth),
    ensures
        overlap_free(linearised(keys, depth), depth),
{
    if keys.len() > 0 {
        let n = (keys.len() - 1) as nat;
        lemma_kept_inv(keys, depth, n);
        let out = kept_prefix(keys, depth, n);
        let linear = out.push(keys.last());
        assert forall|j: int| 0 <= j < linear.len() - 1 implies !listed_ancestor(
            #[trigger] linear[j],
            linear[j + 1],
            depth,
        ) by {
            if j < out.len() - 1 {
                assert(linear[j] == out[j] && linear[j + 1] == out[j + 1]);
            }
        }
    }
}

/// Linearising twice is linearising once, where the keys come in strictly
/// increasing Morton order.
pub proof fn lemma_linearise_idempotent(keys: Seq<Key>, depth: u64)
    requires
        strictly_sorted_by_key(keys),
        forall|i: int| 0 <= i < keys.len() ==> (#[trigger] keys[i]).wf(depth),
    ensures
        linearised(linearised(keys, depth), depth) == linearised(keys, depth),
{
    if keys.len() > 0 {
        let n = (keys.len() - 1) as nat;
        lemma_kept_inv(keys, depth, n);
        let out = kept_prefix(keys, depth, n);
        let linear = out.push(keys.last());
        assert forall|j: int| 0 <= j < linear.len() - 1 implies !listed_ancestor(
            #[trigger] linear[j],
            linear[j + 1],
            depth,
        ) by {
            if j < out.len() - 1 {
                assert(linear[j] == out[j] && linear[j + 1] == out[j + 1]);
            }
        }
        lemma_linearised_fixpoint(linear, depth);
    }
}

/// The region between two keys is linear: none of its keys encloses
/// another.
pub proof fn lemma_region_linear(first: Key, second: Key, a: Key, b: Key, depth: u64)
    requires
        a.wf(depth),
        b.wf(depth),
        in_region(first, a, b, depth),
        in_region(second, a, b, depth),
    ensures
        !is_ancestor(first, second, depth),
{
    if is_ancestor(first, second, depth) {
        let parent = key_parent(second, depth);
        lemma_parent_wf(second, depth);
        lemma_ancestor_of_ancestor(second, first.3, parent.3, depth);
        lemma_ancestor_wf(parent, parent.3, depth);
        if listed_ancestor(parent, a, depth) {
            lemma_listed_wf(parent, a, depth);
            lemma_ancestor_of_ancestor(a, first.3, parent.3, depth);
        } else {
            lemma_listed_wf(parent, b, depth);
            lemma_ancestor_of_ancestor(b, first.3, parent.3, depth);
        }
        assert(on_chain(first, a, b, depth));
        lemma_chain_not_in_region(first, a, b, depth);
    }
}

/// The region between two keys is linear as a sequence: cells of the tree
/// in strictly increasing order, none enclosing another.
pub proof fn lemma_region_is_linear(region: Seq<Key>, a: Key, b: Key, depth: u64)
    requires
        a.wf(depth),
        b.wf(depth),
        crate::region::is_region(region, a, b, depth),
    ensures
        crate::cover::seeds_linear(region, depth),
{
    assert forall|i: int| 0 <= i < region.len() implies (#[trigger] region[i]).wf(depth) by {
        assert(region.contains(region[i]));
    }
    assert forall|i: int, j: int| 0 <= i < j < region.len() implies !crate::cover::encloses(
        #[trigger] region[i],
        #[trigger] region[j],
        depth,
    ) by {
        assert(region.contains(region[i]) && region.contains(region[j]));
        assert(key_lt(region[i].key_of(), region[j].key_of()));
        lemma_region_linear(region[i], region[j], a, b, depth);
        lemma_ancestor_wf(region[j], region[j].3, depth);
    }
}

/// The keys that cover the stretch from `a` to `b`: the region between
/// them, and the two keys.
pub open spec fn covers(w: Key, a: Key, b: Key, depth: u64) -> bool {
    in_region(w, a, b, depth) || w == a || w == b
}

/// The first level at or below `from` at which the cell around `c` lies on
/// neither chain of ancestors.
proof fn lemma_first_off_chain(c: Key, a: Key, b: Key, depth: u64, from: u64) -> (level: u64)
    requires
        a.wf(depth),
        b.wf(depth),
        c.wf(depth),
        a.3 == depth,
        b.3 == depth,
        c.3 == depth,
        c != a,
        c != b,
        from <= depth,
        forall|l: u64| l < from ==> on_chain(#[trigger] ancestor_at(c, l, depth), a, b, depth),
    ensures
        from <= level <= depth,
        !on_chain(ancestor_at(c, level, depth), a, b, depth),
        forall|l: u64| l < level ==> on_chain(#[trigger] ancestor_at(c, l, depth), a, b, depth),
    decreases depth - from,
{
    if !on_chain(ancestor_at(c, from, depth), a, b, depth) {
        from
    } else {
        if from == depth {
            lemma_ancestor_wf(c, depth, depth);
            assert(false);
        }
        let next = (from + 1) as u64;
        assert forall|l: u64| l < next implies on_chain(
            #[trigger] ancestor_at(c, l, depth),
            a,
            b,
            depth,
        ) by {}
        lemma_first_off_chain(c, a, b, depth, next)
    }
}

/// The region between two cells of the deepest level, with the two cells,
/// leaves no gap and covers nothing twice: each cell of the deepest level
/// from `a` to `b` lies in exactly one of the covering keys.
pub proof fn lemma_region_covers(c: Key, a: Key, b: Key, depth: u64) -> (level: u64)
    requires
        a.wf(depth),
        b.wf(depth),
        c.wf(depth),
        a.3 == depth,
        b.3 == depth,
        c.3 == depth,
        key_lt(a, b),
        !key_lt(c, a),
        !key_lt(b, c),
    ensures
        level <= depth,
        covers(ancestor_at(c, level, depth), a, b, depth),
        forall|other: u64|
            other <= depth && other != level ==> !covers(
                #[trigger] ancestor_at(c, other, depth),
                a,
                b,
                depth,
            ),
{
    lemma_key_order_total(a, b);
    lemma_key_order_total(a, c);
    lemma_key_order_total(b, c);
    lemma_ancestor_wf(c, depth, depth);
    lemma_root(a, depth);
    lemma_root(c, depth);
    if c == a || c == b {
        assert forall|other: u64| other <= depth && other != depth implies !covers(
            #[trigger] ancestor_at(c, other, depth),
            a,
            b,
            depth,
        ) by {
            let w = ancestor_at(c, other, depth);
            lemma_ancestor_wf(c, other, depth);
            assert(is_ancestor(w, c, depth));
            lemma_ancestor_less(w, c, depth);
            lemma_key_order_total(a, w);
        }
        depth
    } else {
        assert(depth > 0);
        assert(on_chain(ancestor_at(c, 0, depth), a, b, depth));
        assert forall|l: u64| l < 1 implies on_chain(
            #[trigger] ancestor_at(c, l, depth),
            a,
            b,
            depth,
        ) by {}
        let level = lemma_first_off_chain(c, a, b, depth, 1);
        let w = ancestor_at(c, level, depth);
        lemma_ancestor_wf(c, level, depth);
        lemma_ancestor_interval(c, level, depth);
        lemma_cell_span(level, depth);
        lemma_ancestor_of_ancestor(c, (level - 1) as u64, level, depth);
        assert(key_parent(w, depth) == ancestor_at(c, (level - 1) as u64, depth));
        // neither a nor b lies in the cell of w
        lemma_ancestor_wf(a, depth, depth);
        lemma_ancestor_wf(b, depth, depth);
        if w.morton() <= a.morton() < w.morton() + crate::morton::cell_span(level, depth) {
            lemma_interval_ancestor(w, a, depth);
        }
        if w.morton() <= b.morton() < w.morton() + crate::morton::cell_span(level, depth) {
            lemma_interval_ancestor(w, b, depth);
        }
        assert(key_lt(a, w));
        assert(key_lt(w, b));
        assert(in_region(w, a, b, depth));
        assert forall|other: u64| other <= depth && other != level implies !covers(
            #[trigger] ancestor_at(c, other, depth),
            a,
            b,
            depth,
        ) by {
            let v = ancestor_at(c, other, depth);
            lemma_ancestor_wf(c, other, depth);
            if other < level {
                lemma_chain_not_in_region(v, a, b, depth);
            } else {
                if in_region(v, a, b, depth) {
                    let parent = key_parent(v, depth);
                    lemma_ancestor_of_ancestor(c, (other - 1) as u64, other, depth);
                    assert(parent == ancestor_at(c, (other - 1) as u64, depth));
                    lemma_ancestor_of_ancestor(c, level, (other - 1) as u64, depth);
                    lemma_ancestor_wf(c, (other - 1) as u64, depth);
                    if listed_ancestor(parent, a, depth) {
                        lemma_listed_wf(parent, a, depth);
                        lemma_ancestor_of_ancestor(a, level, parent.3, depth);
                    } else {
                        lemma_listed_wf(parent, b, depth);
                        lemma_ancestor_of_ancestor(b, level, parent.3, depth);
                    }
                    assert(on_chain(w, a, b, depth));
                }
            }
        }
        level
    }
}

} // verus!
