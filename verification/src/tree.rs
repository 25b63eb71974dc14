use vstd::prelude::*;
use vstd::seq_lib::to_multiset_contains;
use crate::morton::{
    ancestor_at, ancestors_spec, contains_key, find_ancestors, find_children,
    find_finest_common_ancestor, is_finest_common_ancestor, key_lt, lemma_ancestor_wf,
    lemma_key_order_total, lemma_root, less_than, sentinel_key, Key, Keyed, Keys, Leaf, Leaves,
    Point,
};
use crate::region::{
    emitted_inv, frontier_inv, in_region, is_region, lemma_emitted_distinct, listed_ancestor, lemma_frontier_cell, lemma_listed, lemma_region_done,
    lemma_region_start, lemma_round_emit, lemma_round_end, lemma_round_expand, lemma_round_skip,
    lemma_round_start, round_inv,
};
use crate::sorting::{
    is_max_key, is_min_key, keeps_order_within_keys, lemma_filter_first, max_key, min_key,
    sort_keys, with_key,
};
use crate::sorting::{sort_by_key, sorted_by_key, strictly_sorted_by_key};
use crate::sums::{
    lemma_sum_monotone, lemma_sum_permutation, lemma_sum_prefix_le, lemma_sum_push,
    lemma_sum_take_step, weighted_sum,
};

verus! {

/// **Weight** of a given **Block**. Defined by number of **Leaf** nodes it contains.
#[derive(Debug, Copy, Clone)]
pub struct Weight(pub u64);

/// Vector of **Weights**.
pub type Weights = Vec<Weight>;

/// Adapted from algorithm 3 in [1]. Construct a minimal octree between two octants, excluding the
/// two octants (sequential).
///
/// The region holds, in Morton order, the keys that lie strictly between
/// `a` and `b`, do not enclose `b`, and whose parent encloses `a` or `b`.
pub fn complete_region(a: &Key, b: &Key, depth: &u64) -> (region: Keys)
    requires
        a.wf(*depth),
        b.wf(*depth),
    ensures
        is_region(region@, *a, *b, *depth),
        crate::cover::seeds_linear(region@, *depth),
{
    let ancestors_a = find_ancestors(a, depth);
    let ancestors_b = find_ancestors(b, depth);
    let na = find_finest_common_ancestor(a, b, depth);
    let mut minimal_tree: Keys = Vec::new();
    proof {
        lemma_region_start(na, *a, *b, *depth);
    }
    if na.3 >= *depth {
        return minimal_tree;
    }
    let mut working_list = find_children(&na, depth);
    let mut level: u64 = na.3 + 1;
    while level <= *depth
        invariant
            a.wf(*depth),
            b.wf(*depth),
            is_finest_common_ancestor(na, *a, *b, *depth),
            ancestors_a@ == ancestors_spec(*a, *depth),
            ancestors_b@ == ancestors_spec(*b, *depth),
            na.3 < level <= *depth + 1,
            frontier_inv(working_list@, level, na, *a, *b, *depth),
            emitted_inv(minimal_tree@, level, *a, *b, *depth),
        decreases *depth + 1 - level,
    {
        let mut aux_list: Keys = Vec::new();
        let ghost before = minimal_tree@;
        let mut i: usize = 0;
        proof {
            lemma_emitted_distinct(before, level, *a, *b, *depth);
            lemma_round_start(working_list@, before, level, *a, *b, *depth);
        }
        while i < working_list.len()
            invariant
                a.wf(*depth),
                b.wf(*depth),
                ancestors_a@ == ancestors_spec(*a, *depth),
                ancestors_b@ == ancestors_spec(*b, *depth),
                1 <= level <= *depth,
                i <= working_list@.len(),
                frontier_inv(working_list@, level, na, *a, *b, *depth),
                emitted_inv(before, level, *a, *b, *depth),
                round_inv(
                    working_list@,
                    i as int,
                    before,
                    minimal_tree@,
                    aux_list@,
                    level,
                    *a,
                    *b,
                    *depth,
                ),
            decreases working_list.len() - i,
        {
            let w = working_list[i];
            proof {
                lemma_frontier_cell(working_list@, i as int, level, na, *a, *b, *depth);
                lemma_listed(w, *a, *depth);
                lemma_listed(w, *b, *depth);
            }
            let encloses_b = contains_key(ancestors_b.as_slice(), &w);
            if less_than(a, &w) && less_than(&w, b) && !encloses_b {
                proof {
                    lemma_round_emit(
                        working_list@,
                        i as int,
                        before,
                        minimal_tree@,
                        aux_list@,
                        level,
                        na,
                        *a,
                        *b,
                        *depth,
                    );
                }
                minimal_tree.push(w);
            } else if encloses_b || contains_key(ancestors_a.as_slice(), &w) {
                proof {
                    lemma_round_expand(
                        working_list@,
                        i as int,
                        before,
                        minimal_tree@,
                        aux_list@,
                        level,
                        na,
                        *a,
                        *b,
                        *depth,
                    );
                }
                let mut children = find_children(&w, depth);
                aux_list.append(&mut children);
            } else {
                proof {
                    lemma_round_skip(
                        working_list@,
                        i as int,
                        before,
                        minimal_tree@,
                        aux_list@,
                        level,
                        *a,
                        *b,
                        *depth,
                    );
                }
            }
            i = i + 1;
        }
        proof {
            lemma_round_end(
                working_list@,
                before,
                minimal_tree@,
                aux_list@,
                level,
                na,
                *a,
                *b,
                *depth,
            );
        }
        working_list = aux_list;
        level = level + 1;
    }
    let ghost found = minimal_tree@;
    sort_keys(&mut minimal_tree);
    proof {
        lemma_region_done(found, minimal_tree@, *a, *b, *depth);
        crate::laws::lemma_region_is_linear(minimal_tree@, *a, *b, *depth);
    }
    minimal_tree
}

/// The weight of a leaf when points are counted.
pub open spec fn leaf_points() -> spec_fn(Leaf) -> nat {
    |leaf: Leaf| leaf.npoints as nat
}

/// The weight of a leaf when only the points at `key` are counted.
pub open spec fn leaf_points_at(key: Key) -> spec_fn(Leaf) -> nat {
    |leaf: Leaf|
        if leaf.key == key {
            leaf.npoints as nat
        } else {
            0
        }
}

/// The number of points that the leaves hold together.
pub open spec fn total_points(leaves: Seq<Leaf>) -> nat {
    weighted_sum(leaves, leaf_points())
}

/// The number of points that the leaves with the given key hold together.
pub open spec fn points_at(leaves: Seq<Leaf>, key: Key) -> nat {
    weighted_sum(leaves, leaf_points_at(key))
}

/// No cell holds more than `ncrit` points, the leaves of one key counted
/// together.
pub open spec fn within_capacity(leaves: Seq<Leaf>, ncrit: usize) -> bool {
    forall|key: Key| #[trigger] points_at(leaves, key) <= ncrit
}

/// One of the `leaves` has the given key.
#[verifier::opaque]
pub open spec fn has_key(leaves: Seq<Leaf>, key: Key) -> bool {
    exists|i: int| 0 <= i < leaves.len() && (#[trigger] leaves[i]).key == key
}

/// `leaf` has the key and the block of one of the `leaves`.
#[verifier::opaque]
pub open spec fn stems_from(leaves: Seq<Leaf>, leaf: Leaf) -> bool {
    exists|i: int|
        0 <= i < leaves.len() && (#[trigger] leaves[i]).key == leaf.key && leaves[i].block
            == leaf.block
}

/// `leaf` has the key and the block of the first of the `leaves` with its key.
#[verifier::opaque]
pub open spec fn is_first_with_key(leaves: Seq<Leaf>, leaf: Leaf) -> bool {
    exists|i: int|
        {
            &&& 0 <= i < leaves.len()
            &&& (#[trigger] leaves[i]).key == leaf.key
            &&& leaves[i].block == leaf.block
            &&& !has_key(leaves.take(i), leaf.key)
        }
}

/// `unique` holds one leaf for each key of `leaves`, in Morton order, with
/// the points of all leaves of that key.
pub open spec fn is_merge_of(unique: Seq<Leaf>, leaves: Seq<Leaf>) -> bool {
    &&& strictly_sorted_by_key(unique)
    &&& forall|key: Key| #[trigger] has_key(unique, key) <==> has_key(leaves, key)
    &&& forall|j: int|
        0 <= j < unique.len() ==> (#[trigger] unique[j]).npoints == points_at(leaves, unique[j].key)
    &&& total_points(unique) == total_points(leaves)
}

/// Each leaf has its own key.
pub proof fn lemma_has_key_at(leaves: Seq<Leaf>, i: int)
    requires
        0 <= i < leaves.len(),
    ensures
        has_key(leaves, leaves[i].key),
        stems_from(leaves, leaves[i]),
{
    reveal(has_key);
    reveal(stems_from);
}

/// The keys of a sequence grown by one leaf.
pub proof fn lemma_has_key_push(leaves: Seq<Leaf>, leaf: Leaf, key: Key)
    ensures
        has_key(leaves.push(leaf), key) <==> has_key(leaves, key) || leaf.key == key,
{
    reveal(has_key);
    let grown = leaves.push(leaf);
    if has_key(leaves, key) {
        let i = choose|i: int| 0 <= i < leaves.len() && (#[trigger] leaves[i]).key == key;
        assert(grown[i].key == key);
    }
    if leaf.key == key {
        assert(grown[leaves.len() as int].key == key);
    }
    if has_key(grown, key) {
        let i = choose|i: int| 0 <= i < grown.len() && (#[trigger] grown[i]).key == key;
        if i < leaves.len() {
            assert(leaves[i].key == key);
        }
    }
}

/// The keys of a prefix grown by the next leaf.
pub proof fn lemma_has_key_take_step(leaves: Seq<Leaf>, i: int, key: Key)
    requires
        0 <= i < leaves.len(),
    ensures
        has_key(leaves.take(i + 1), key) <==> has_key(leaves.take(i), key) || leaves[i].key == key,
        !has_key(leaves.take(0), key),
{
    assert(leaves.take(i + 1) =~= leaves.take(i).push(leaves[i]));
    lemma_has_key_push(leaves.take(i), leaves[i], key);
    assert(!has_key(leaves.take(0), key)) by {
        reveal(has_key);
    }
}

/// Sequences with the same leaves have the same keys.
pub proof fn lemma_has_key_permutation(a: Seq<Leaf>, b: Seq<Leaf>, key: Key)
    requires
        a.to_multiset() == b.to_multiset(),
    ensures
        has_key(a, key) ==> has_key(b, key),
{
    reveal(has_key);
    if has_key(a, key) {
        let i = choose|i: int| 0 <= i < a.len() && (#[trigger] a[i]).key == key;
        to_multiset_contains(a, a[i]);
        to_multiset_contains(b, a[i]);
        assert(a.contains(a[i]));
        let j = choose|j: int| 0 <= j < b.len() && b[j] == a[i];
        assert(b[j].key == key);
    }
}

/// The first leaf with a key is one of the leaves.
pub proof fn lemma_first_stems(leaves: Seq<Leaf>, leaf: Leaf)
    requires
        is_first_with_key(leaves, leaf),
    ensures
        stems_from(leaves, leaf),
        has_key(leaves, leaf.key),
{
    reveal(is_first_with_key);
    reveal(stems_from);
    reveal(has_key);
}

/// Leaves without the key hold no points at it.
pub proof fn lemma_points_at_absent(leaves: Seq<Leaf>, key: Key)
    requires
        !has_key(leaves, key),
    ensures
        points_at(leaves, key) == 0,
    decreases leaves.len(),
{
    if leaves.len() > 0 {
        let rest = leaves.drop_last();
        assert(leaves =~= rest.push(leaves.last()));
        lemma_has_key_push(rest, leaves.last(), key);
        lemma_points_at_absent(rest, key);
    }
}

/// What holds of a scan over sorted leaves that has seen the first `i` of
/// them: `done` holds the finished runs and `curr` the run of the last key.
spec fn scan_inv(leaves: Seq<Leaf>, i: int, done: Seq<Leaf>, curr: Leaf, ncrit: usize) -> bool {
    let seen = leaves.take(i);
    &&& 1 <= i <= leaves.len()
    &&& sorted_by_key(leaves)
    &&& curr.key == leaves[i - 1].key
    &&& curr.npoints == points_at(seen, curr.key)
    &&& curr.npoints <= ncrit
    &&& is_first_with_key(seen, curr)
    &&& strictly_sorted_by_key(done)
    &&& forall|j: int| 0 <= j < done.len() ==> key_lt((#[trigger] done[j]).key, curr.key)
    &&& forall|j: int|
        0 <= j < done.len() ==> (#[trigger] done[j]).npoints == points_at(seen, done[j].key)
            && done[j].npoints <= ncrit
    &&& forall|j: int| 0 <= j < done.len() ==> is_first_with_key(seen, #[trigger] done[j])
    &&& forall|key: Key| #[trigger] has_key(seen, key) <==> has_key(done, key) || key == curr.key
    &&& total_points(done) + curr.npoints == total_points(seen)
}

proof fn lemma_first_extends(leaves: Seq<Leaf>, i: int, x: Leaf)
    requires
        0 <= i < leaves.len(),
        is_first_with_key(leaves.take(i), x),
    ensures
        is_first_with_key(leaves.take(i + 1), x),
{
    reveal(is_first_with_key);
    let before = leaves.take(i);
    let after = leaves.take(i + 1);
    let w = choose|w: int|
        {
            &&& 0 <= w < before.len()
            &&& (#[trigger] before[w]).key == x.key
            &&& before[w].block == x.block
            &&& !has_key(before.take(w), x.key)
        };
    assert(after[w] == before[w]);
    assert(after.take(w) =~= before.take(w));
}

proof fn lemma_first_intro(leaves: Seq<Leaf>, i: int)
    requires
        0 <= i < leaves.len(),
        !has_key(leaves.take(i), leaves[i].key),
    ensures
        is_first_with_key(leaves.take(i + 1), leaves[i]),
{
    reveal(is_first_with_key);
    let after = leaves.take(i + 1);
    assert(after[i] == leaves[i]);
    assert(after.take(i) =~= leaves.take(i));
}

proof fn lemma_keys_below(done: Seq<Leaf>, bound: Key, key: Key)
    requires
        forall|j: int| 0 <= j < done.len() ==> key_lt((#[trigger] done[j]).key, bound),
        has_key(done, key),
    ensures
        key_lt(key, bound),
{
    reveal(has_key);
}

proof fn lemma_points_step(leaves: Seq<Leaf>, i: int, key: Key)
    requires
        0 <= i < leaves.len(),
    ensures
        points_at(leaves.take(i + 1), key) == points_at(leaves.take(i), key) + (if leaves[i].key
            == key {
            leaves[i].npoints as nat
        } else {
            0
        }),
        points_at(leaves.take(i + 1), key) <= points_at(leaves, key),
        total_points(leaves.take(i + 1)) == total_points(leaves.take(i)) + leaves[i].npoints,
{
    lemma_sum_take_step(leaves, i, leaf_points_at(key));
    lemma_sum_take_step(leaves, i, leaf_points());
    lemma_sum_prefix_le(leaves, i + 1, leaf_points_at(key));
}

proof fn lemma_strictly_sorted_push(done: Seq<Leaf>, curr: Leaf)
    requires
        strictly_sorted_by_key(done),
        forall|j: int| 0 <= j < done.len() ==> key_lt((#[trigger] done[j]).key, curr.key),
    ensures
        strictly_sorted_by_key(done.push(curr)),
{
    let grown = done.push(curr);
    assert forall|a: int, b: int| 0 <= a < b < grown.len() implies key_lt(
        #[trigger] grown[a].key_of(),
        #[trigger] grown[b].key_of(),
    ) by {
        if b < done.len() {
            assert(key_lt(done[a].key_of(), done[b].key_of()));
        } else {
            assert(key_lt(done[a].key, curr.key));
        }
    }
}

proof fn lemma_scan_start(leaves: Seq<Leaf>, ncrit: usize)
    requires
        leaves.len() > 0,
        sorted_by_key(leaves),
    ensures
        leaves[0].npoints <= ncrit ==> scan_inv(leaves, 1, Seq::empty(), leaves[0], ncrit),
        leaves[0].npoints > ncrit ==> !within_capacity(leaves, ncrit),
{
    lemma_points_step(leaves, 0, leaves[0].key);
    assert(leaves.take(0) =~= Seq::<Leaf>::empty());
    lemma_has_key_take_step(leaves, 0, leaves[0].key);
    lemma_points_at_absent(leaves.take(0), leaves[0].key);
    if leaves[0].npoints > ncrit {
        assert(points_at(leaves, leaves[0].key) > ncrit);
    } else {
        lemma_has_key_take_step(leaves, 0, leaves[0].key);
        lemma_first_intro(leaves, 0);
        lemma_sum_take_step(leaves, 0, leaf_points());
        assert forall|key: Key| #[trigger]
            has_key(leaves.take(1), key) <==> has_key(Seq::<Leaf>::empty(), key) || key
                == leaves[0].key by {
            lemma_has_key_take_step(leaves, 0, key);
        }
    }
}

proof fn lemma_scan_same_key(leaves: Seq<Leaf>, i: int, done: Seq<Leaf>, curr: Leaf, ncrit: usize)
    requires
        scan_inv(leaves, i, done, curr, ncrit),
        i < leaves.len(),
        leaves[i].key == curr.key,
    ensures
        curr.npoints + leaves[i].npoints > ncrit ==> !within_capacity(leaves, ncrit),
        curr.npoints + leaves[i].npoints <= ncrit ==> scan_inv(
            leaves,
            i + 1,
            done,
            Leaf { npoints: (curr.npoints + leaves[i].npoints) as usize, ..curr },
            ncrit,
        ),
{
    let before = leaves.take(i);
    let after = leaves.take(i + 1);
    lemma_points_step(leaves, i, curr.key);
    if curr.npoints + leaves[i].npoints > ncrit {
        assert(points_at(leaves, curr.key) > ncrit);
    } else {
        let next = Leaf { npoints: (curr.npoints + leaves[i].npoints) as usize, ..curr };
        lemma_first_extends(leaves, i, curr);
        assert(is_first_with_key(after, next)) by {
            reveal(is_first_with_key);
        }
        assert forall|j: int| 0 <= j < done.len() implies (#[trigger] done[j]).npoints
            == points_at(after, done[j].key) && is_first_with_key(after, done[j]) by {
            lemma_points_step(leaves, i, done[j].key);
            lemma_first_extends(leaves, i, done[j]);
        }
        assert forall|key: Key| #[trigger]
            has_key(after, key) <==> has_key(done, key) || key == next.key by {
            lemma_has_key_take_step(leaves, i, key);
            assert(has_key(before, key) <==> has_key(done, key) || key == curr.key);
        }
    }
}

proof fn lemma_scan_new_key(leaves: Seq<Leaf>, i: int, done: Seq<Leaf>, curr: Leaf, ncrit: usize)
    requires
        scan_inv(leaves, i, done, curr, ncrit),
        i < leaves.len(),
        leaves[i].key != curr.key,
    ensures
        leaves[i].npoints > ncrit ==> !within_capacity(leaves, ncrit),
        leaves[i].npoints <= ncrit ==> scan_inv(leaves, i + 1, done.push(curr), leaves[i], ncrit),
{
    let before = leaves.take(i);
    let after = leaves.take(i + 1);
    let leaf = leaves[i];
    let grown = done.push(curr);
    assert(!key_lt(leaves[i].key_of(), leaves[i - 1].key_of()));
    lemma_key_order_total(curr.key, leaf.key);
    assert(key_lt(curr.key, leaf.key));
    assert(!has_key(before, leaf.key)) by {
        assert(has_key(before, leaf.key) <==> has_key(done, leaf.key) || leaf.key == curr.key);
        if has_key(done, leaf.key) {
            lemma_keys_below(done, curr.key, leaf.key);
        }
    }
    lemma_points_at_absent(before, leaf.key);
    lemma_points_step(leaves, i, leaf.key);
    if leaf.npoints > ncrit {
        assert(points_at(leaves, leaf.key) > ncrit);
    } else {
        lemma_sum_push(done, curr, leaf_points());
        lemma_first_extends(leaves, i, curr);
        lemma_points_step(leaves, i, curr.key);
        lemma_first_intro(leaves, i);
        lemma_strictly_sorted_push(done, curr);
        assert forall|j: int| 0 <= j < grown.len() implies (#[trigger] grown[j]).npoints
            == points_at(after, grown[j].key) && grown[j].npoints <= ncrit && is_first_with_key(
            after,
            grown[j],
        ) && key_lt(grown[j].key, leaf.key) by {
            if j < done.len() {
                assert(grown[j] == done[j]);
                lemma_points_step(leaves, i, done[j].key);
                lemma_first_extends(leaves, i, done[j]);
                assert(key_lt(done[j].key, curr.key));
            }
        }
        assert forall|key: Key| #[trigger]
            has_key(after, key) <==> has_key(grown, key) || key == leaf.key by {
            lemma_has_key_take_step(leaves, i, key);
            lemma_has_key_push(done, curr, key);
            assert(has_key(before, key) <==> has_key(done, key) || key == curr.key);
        }
    }
}

proof fn lemma_scan_done(leaves: Seq<Leaf>, done: Seq<Leaf>, curr: Leaf, ncrit: usize)
    requires
        scan_inv(leaves, leaves.len() as int, done, curr, ncrit),
    ensures
        within_capacity(leaves, ncrit),
        is_merge_of(done.push(curr), leaves),
        forall|j: int|
            0 <= j < done.push(curr).len() ==> is_first_with_key(
                leaves,
                #[trigger] done.push(curr)[j],
            ),
{
    let all = done.push(curr);
    assert(leaves.take(leaves.len() as int) =~= leaves);
    lemma_sum_push(done, curr, leaf_points());
    lemma_strictly_sorted_push(done, curr);
    assert forall|key: Key| #[trigger] has_key(all, key) <==> has_key(leaves, key) by {
        lemma_has_key_push(done, curr, key);
        assert(has_key(leaves, key) <==> has_key(done, key) || key == curr.key);
    }
    assert forall|j: int| 0 <= j < all.len() implies is_first_with_key(leaves, #[trigger] all[j])
        && all[j].npoints == points_at(leaves, all[j].key) && all[j].npoints <= ncrit by {
        if j < done.len() {
            assert(all[j] == done[j]);
        }
    }
    assert forall|key: Key| #[trigger] points_at(leaves, key) <= ncrit by {
        if has_key(leaves, key) {
            assert(has_key(all, key));
            lemma_points_of_held_key(all, leaves, key, ncrit);
        } else {
            lemma_points_at_absent(leaves, key);
        }
    }
}

proof fn lemma_points_of_held_key(all: Seq<Leaf>, leaves: Seq<Leaf>, key: Key, ncrit: usize)
    requires
        has_key(all, key),
        forall|j: int|
            0 <= j < all.len() ==> (#[trigger] all[j]).npoints == points_at(leaves, all[j].key)
                && all[j].npoints <= ncrit,
    ensures
        points_at(leaves, key) <= ncrit,
{
    reveal(has_key);
}

/// Merge each run of leaves with one key into one leaf. The leaves come in
/// Morton order. Where a run holds more than `ncrit` points there is no
/// result.
pub(crate) fn merge_runs(leaves: &Vec<Leaf>, ncrit: usize) -> (merged: Option<Vec<Leaf>>)
    requires
        sorted_by_key(leaves@),
    ensures
        merged.is_some() <==> within_capacity(leaves@, ncrit),
        merged matches Some(unique) ==> {
            &&& is_merge_of(unique@, leaves@)
            &&& forall|j: int|
                0 <= j < unique@.len() ==> is_first_with_key(leaves@, #[trigger] unique@[j])
            &&& forall|j: int| 0 <= j < unique@.len() ==> (#[trigger] unique@[j]).npoints <= ncrit
        },
{
    let mut out: Vec<Leaf> = Vec::new();
    if leaves.len() == 0 {
        proof {
            assert forall|key: Key| !has_key(leaves@, key) by {
                reveal(has_key);
            }
            assert forall|key: Key| #[trigger] points_at(leaves@, key) <= ncrit by {
                lemma_points_at_absent(leaves@, key);
            }
            assert(out@ =~= leaves@);
        }
        return Some(out);
    }
    let mut curr = leaves[0];
    proof {
        lemma_scan_start(leaves@, ncrit);
    }
    if curr.npoints > ncrit {
        return None;
    }
    let mut i: usize = 1;
    while i < leaves.len()
        invariant
            scan_inv(leaves@, i as int, out@, curr, ncrit),
        decreases leaves.len() - i,
    {
        let leaf = leaves[i];
        if leaf.key == curr.key {
            proof {
                lemma_scan_same_key(leaves@, i as int, out@, curr, ncrit);
            }
            if leaf.npoints > ncrit - curr.npoints {
                return None;
            }
            curr.npoints = curr.npoints + leaf.npoints;
        } else {
            proof {
                lemma_scan_new_key(leaves@, i as int, out@, curr, ncrit);
            }
            if leaf.npoints > ncrit {
                return None;
            }
            out.push(curr);
            curr = leaf;
        }
        i = i + 1;
    }
    proof {
        lemma_scan_done(leaves@, out@, curr, ncrit);
        lemma_scan_capacity(leaves@, out@, curr, ncrit);
    }
    out.push(curr);
    Some(out)
}

proof fn lemma_scan_capacity(leaves: Seq<Leaf>, done: Seq<Leaf>, curr: Leaf, ncrit: usize)
    requires
        scan_inv(leaves, leaves.len() as int, done, curr, ncrit),
    ensures
        forall|j: int|
            0 <= j < done.push(curr).len() ==> (#[trigger] done.push(curr)[j]).npoints <= ncrit,
{
    let all = done.push(curr);
    assert forall|j: int| 0 <= j < all.len() implies (#[trigger] all[j]).npoints <= ncrit by {
        if j < done.len() {
            assert(all[j] == done[j]);
        }
    }
}

/// Make **Leaves** unique, where no cell holds more than `ncrit` points.
///
/// The leaves are sorted unless `sorted` says that they are already. The
/// result is `None` exactly where some cell would hold more than `ncrit`
/// points: the tree is then too shallow for the points.
pub fn try_unique_leaves(leaves: Leaves, ncrit: &usize, sorted: bool) -> (unique: Option<Leaves>)
    requires
        sorted ==> sorted_by_key(leaves@),
    ensures
        unique.is_some() <==> within_capacity(leaves@, *ncrit),
        unique matches Some(merged) ==> {
            &&& is_merge_of(merged@, leaves@)
            &&& forall|j: int|
                0 <= j < merged@.len() ==> is_first_with_key(leaves@, #[trigger] merged@[j])
            &&& forall|j: int| 0 <= j < merged@.len() ==> (#[trigger] merged@[j]).npoints <= *ncrit
        },
{
    let mut leaves = leaves;
    let ghost given = leaves@;
    // Sort leaves
    if !sorted {
        sort_by_key(&mut leaves);
    }
    let merged = merge_runs(&leaves, *ncrit);
    proof {
        lemma_merge_of_permutation(leaves@, given, merged, *ncrit);
        if merged.is_some() && !sorted {
            let unique = merged->Some_0@;
            assert forall|j: int| 0 <= j < unique.len() implies is_first_with_key(
                given,
                #[trigger] unique[j],
            ) by {
                lemma_first_in_given_order(leaves@, given, unique[j]);
            }
        }
    }
    merged
}

/// The first place at which one of the leaves has the key.
proof fn lemma_first_place_of_key(leaves: Seq<Leaf>, key: Key) -> (first: int)
    requires
        has_key(leaves, key),
    ensures
        0 <= first < leaves.len(),
        leaves[first].key == key,
        forall|i: int| 0 <= i < first ==> (#[trigger] leaves[i]).key != key,
        !has_key(leaves.take(first), key),
    decreases leaves.len(),
{
    reveal(has_key);
    let rest = leaves.drop_last();
    if has_key(rest, key) {
        let first = lemma_first_place_of_key(rest, key);
        assert(leaves.take(first) =~= rest.take(first));
        assert forall|i: int| 0 <= i < first implies (#[trigger] leaves[i]).key != key by {
            assert(rest[i] == leaves[i]);
        }
        first
    } else {
        let first = leaves.len() - 1;
        assert(leaves.take(first) =~= rest);
        assert forall|i: int| 0 <= i < first implies (#[trigger] leaves[i]).key != key by {
            assert(rest[i] == leaves[i]);
        }
        first
    }
}

/// Where sorting kept the order of the leaves of each key, the first leaf
/// of a key after sorting has the block of the first leaf of the key before.
proof fn lemma_first_in_given_order(scanned: Seq<Leaf>, given: Seq<Leaf>, leaf: Leaf)
    requires
        keeps_order_within_keys(given, scanned),
        is_first_with_key(scanned, leaf),
    ensures
        is_first_with_key(given, leaf),
{
    reveal(is_first_with_key);
    let at = choose|i: int|
        {
            &&& 0 <= i < scanned.len()
            &&& (#[trigger] scanned[i]).key == leaf.key
            &&& scanned[i].block == leaf.block
            &&& !has_key(scanned.take(i), leaf.key)
        };
    assert forall|i: int| 0 <= i < at implies (#[trigger] scanned[i]).key_of() != leaf.key by {
        if scanned[i].key == leaf.key {
            assert(scanned.take(at)[i] == scanned[i]);
            lemma_has_key_at(scanned.take(at), i);
        }
    }
    lemma_filter_first(scanned, leaf.key, at);
    assert(scanned.filter(with_key::<Leaf>(leaf.key)) == given.filter(with_key::<Leaf>(leaf.key)));
    let same = given.filter(with_key::<Leaf>(leaf.key));
    assert(same.contains(same[0]));
    given.lemma_filter_contains_rev(with_key::<Leaf>(leaf.key), same[0]);
    given.lemma_filter_pred(with_key::<Leaf>(leaf.key), 0);
    let some = choose|i: int| 0 <= i < given.len() && given[i] == same[0];
    lemma_has_key_at(given, some);
    let first = lemma_first_place_of_key(given, leaf.key);
    assert forall|i: int| 0 <= i < first implies (#[trigger] given[i]).key_of() != leaf.key by {}
    lemma_filter_first(given, leaf.key, first);
}

proof fn lemma_merge_of_permutation(
    scanned: Seq<Leaf>,
    given: Seq<Leaf>,
    merged: Option<Vec<Leaf>>,
    ncrit: usize,
)
    requires
        scanned.to_multiset() == given.to_multiset(),
        merged.is_some() <==> within_capacity(scanned, ncrit),
        merged matches Some(unique) ==> is_merge_of(unique@, scanned),
    ensures
        merged.is_some() <==> within_capacity(given, ncrit),
        merged matches Some(unique) ==> is_merge_of(unique@, given),
{
    assert forall|key: Key| #[trigger] points_at(scanned, key) == points_at(given, key) by {
        lemma_sum_permutation(scanned, given, leaf_points_at(key));
    }
    lemma_sum_permutation(scanned, given, leaf_points());
    if within_capacity(scanned, ncrit) {
        assert forall|key: Key| #[trigger] points_at(given, key) <= ncrit by {
            assert(points_at(scanned, key) == points_at(given, key));
        }
    }
    if within_capacity(given, ncrit) {
        assert forall|key: Key| #[trigger] points_at(scanned, key) <= ncrit by {
            assert(points_at(scanned, key) == points_at(given, key));
        }
    }
    if merged.is_some() {
        let unique = merged->Some_0@;
        assert forall|key: Key| #[trigger] has_key(unique, key) <==> has_key(given, key) by {
            lemma_has_key_permutation(scanned, given, key);
            lemma_has_key_permutation(given, scanned, key);
            assert(has_key(unique, key) <==> has_key(scanned, key));
        }
        assert forall|j: int| 0 <= j < unique.len() implies (#[trigger] unique[j]).npoints
            == points_at(given, unique[j].key) by {
            assert(points_at(scanned, unique[j].key) == points_at(given, unique[j].key));
        }
    }
}

/// Make **Leaves** unique, check that they don't exceed 'ncrit' points per leaf (sequential).
///
/// The caller sees to it that no cell holds more than `ncrit` points;
/// `try_unique_leaves` is there to find out: it gives no result exactly
/// where the points of some key together exceed `ncrit`.
pub fn unique_leaves(leaves: Leaves, ncrit: &usize, sorted: bool) -> (unique: Leaves)
    requires
        sorted ==> sorted_by_key(leaves@),
        within_capacity(leaves@, *ncrit),
    ensures
        is_merge_of(unique@, leaves@),
        forall|j: int| 0 <= j < unique@.len() ==> is_first_with_key(leaves@, #[trigger] unique@[j]),
        forall|j: int| 0 <= j < unique@.len() ==> (#[trigger] unique@[j]).npoints <= *ncrit,
{
    match try_unique_leaves(leaves, ncrit, sorted) {
        Some(unique) => unique,
        None => Vec::new(),
    }
}


/// The leaf that stands for one point: the point's key, no block yet, one
/// point.
pub open spec fn unit_leaf(point: Point) -> Leaf {
    Leaf { key: point.key, block: sentinel_key(), npoints: 1 }
}

/// One leaf for each of the points, in their order.
pub open spec fn unit_leaves(points: Seq<Point>) -> Seq<Leaf> {
    Seq::new(points.len(), |i: int| unit_leaf(points[i]))
}

/// Unit leaves hold as many points as there are leaves.
pub proof fn lemma_unit_total(points: Seq<Point>)
    ensures
        total_points(unit_leaves(points)) == points.len(),
    decreases points.len(),
{
    if points.len() > 0 {
        let rest = points.drop_last();
        assert(unit_leaves(points).drop_last() =~= unit_leaves(rest));
        lemma_unit_total(rest);
    }
}

/// Convert a vector of **Points**, to a Vector of **Leaves**.
///
/// The points are sorted by their keys; each key among them gets one leaf,
/// which counts the points at that key.
pub fn keys_to_leaves(points: &mut Vec<Point>, ncrit: &usize) -> (leaves: Leaves)
    ensures
        sorted_by_key(final(points)@),
        final(points)@.to_multiset() == old(points)@.to_multiset(),
        keeps_order_within_keys(old(points)@, final(points)@),
        is_merge_of(leaves@, unit_leaves(final(points)@)),
        total_points(leaves@) == old(points)@.len(),
        forall|j: int| 0 <= j < leaves@.len() ==> (#[trigger] leaves@[j]).block == sentinel_key(),
{
    // Sort points by Leaf key
    sort_by_key(points);
    let mut units: Vec<Leaf> = Vec::new();
    let mut i: usize = 0;
    while i < points.len()
        invariant
            i <= points.len(),
            units@ == unit_leaves(points@.take(i as int)),
        decreases points.len() - i,
    {
        units.push(Leaf { key: points[i].key, block: Key::default(), npoints: 1 });
        proof {
            assert(units@ =~= unit_leaves(points@.take(i + 1)));
        }
        i = i + 1;
    }
    proof {
        assert(points@.take(i as int) =~= points@);
        let all = units@;
        lemma_unit_total(points@);
        assert forall|a: int, b: int| 0 <= a < b < all.len() implies !key_lt(
            #[trigger] all[b].key_of(),
            #[trigger] all[a].key_of(),
        ) by {
            assert(!key_lt(points@[b].key_of(), points@[a].key_of()));
        }
        assert forall|key: Key| #[trigger] points_at(all, key) <= usize::MAX by {
            lemma_sum_monotone(all, leaf_points_at(key), leaf_points());
        }
    }
    match merge_runs(&units, usize::MAX) {
        Some(leaves) => {
            proof {
                assert forall|j: int| 0 <= j < leaves@.len() implies (#[trigger] leaves@[j]).block
                    == sentinel_key() by {
                    lemma_first_stems(units@, leaves@[j]);
                    reveal(stems_from);
                }
            }
            leaves
        },
        None => Vec::new(),
    }
}

/// The number of the leaves that are assigned to `block`.
pub open spec fn leaves_in_block(leaves: Seq<Leaf>, block: Key) -> nat {
    leaves.filter(|leaf: Leaf| leaf.block == block).len()
}

/// Find the **Weights** of a given set of **Blocks** (sequential).
pub fn find_block_weights(leaves: &[Leaf], blocktree: &[Key]) -> (weights: Weights)
    ensures
        weights@.len() == blocktree@.len(),
        forall|i: int|
            0 <= i < blocktree@.len() ==> (#[trigger] weights@[i]).0 == leaves_in_block(
                leaves@,
                blocktree@[i],
            ),
{
    let mut weights: Weights = Vec::new();
    let mut b: usize = 0;
    while b < blocktree.len()
        invariant
            b <= blocktree@.len(),
            weights@.len() == b,
            forall|i: int|
                0 <= i < b ==> (#[trigger] weights@[i]).0 == leaves_in_block(leaves@, blocktree@[i]),
        decreases blocktree.len() - b,
    {
        let block = blocktree[b];
        let ghost in_block = |leaf: Leaf| leaf.block == block;
        let mut counts: u64 = 0;
        let mut l: usize = 0;
        proof {
            assert(leaves@.take(0).filter(in_block) =~= Seq::<Leaf>::empty()) by {
                leaves@.take(0).lemma_filter_len(in_block);
            }
        }
        while l < leaves.len()
            invariant
                l <= leaves@.len(),
                in_block == (|leaf: Leaf| leaf.block == block),
                counts == leaves@.take(l as int).filter(in_block).len(),
                counts <= l,
            decreases leaves.len() - l,
        {
            proof {
                assert(leaves@.take(l + 1) =~= leaves@.take(l as int).push(leaves@[l as int]));
                leaves@.take(l as int).lemma_filter_push(leaves@[l as int], in_block);
            }
            if leaves[l].block == block {
                counts = counts + 1;
            }
            l = l + 1;
        }
        proof {
            assert(leaves@.take(l as int) =~= leaves@);
        }
        weights.push(Weight(counts));
        b = b + 1;
    }
    weights
}

/// The finest cell among the key's own cell and the cells above it, from
/// `level` upwards, that is one of the `blocks`.
pub open spec fn enclosing_block(key: Key, blocks: Seq<Key>, depth: u64, level: u64) -> Option<Key>
    decreases level,
{
    if blocks.contains(ancestor_at(key, level, depth)) {
        Some(ancestor_at(key, level, depth))
    } else if level == 0 {
        None
    } else {
        enclosing_block(key, blocks, depth, (level - 1) as u64)
    }
}

/// The block that a key is assigned is one of the blocks and is the key's
/// own cell or one of its ancestors; where no block is assigned, none of
/// the blocks is that.
pub proof fn lemma_enclosing_block(key: Key, blocks: Seq<Key>, depth: u64, level: u64)
    requires
        key.wf(depth),
        level <= key.3,
    ensures
        match enclosing_block(key, blocks, depth, level) {
            Some(block) => {
                &&& blocks.contains(block)
                &&& block.3 <= level
                &&& block == ancestor_at(key, block.3, depth)
                &&& forall|finer: u64|
                    block.3 < finer <= level ==> !blocks.contains(
                        #[trigger] ancestor_at(key, finer, depth),
                    )
            },
            None => forall|above: u64|
                above <= level ==> !blocks.contains(#[trigger] ancestor_at(key, above, depth)),
        },
    decreases level,
{
    if !blocks.contains(ancestor_at(key, level, depth)) && level > 0 {
        lemma_enclosing_block(key, blocks, depth, (level - 1) as u64);
    }
}

/// The leaf with the block that `blocks` assigns to it: the finest of the
/// blocks that encloses the leaf.
pub open spec fn with_block(leaf: Leaf, blocks: Seq<Key>, depth: u64) -> Leaf {
    match enclosing_block(leaf.key, blocks, depth, leaf.key.3) {
        Some(block) => Leaf { block, ..leaf },
        None => leaf,
    }
}

/// Find the block of one key: its own cell where that is a block, else the
/// first of its ancestors, from fine to coarse, that is one.
fn find_enclosing_block(key: &Key, blocktree: &[Key], depth: &u64) -> (block: Option<Key>)
    requires
        key.wf(*depth),
    ensures
        block == enclosing_block(*key, blocktree@, *depth, key.3),
{
    proof {
        lemma_ancestor_wf(*key, key.3, *depth);
        lemma_root(*key, *depth);
    }
    if contains_key(blocktree, key) {
        return Some(*key);
    }
    if key.3 == 0 {
        return None;
    }
    let ancestors = find_ancestors(key, depth);
    let mut i: usize = 0;
    while i < ancestors.len()
        invariant
            key.wf(*depth),
            key.3 > 0,
            i <= ancestors@.len(),
            ancestors@.len() == key.3,
            forall|j: int|
                0 <= j < ancestors@.len() ==> #[trigger] ancestors@[j] == ancestor_at(
                    *key,
                    (key.3 - 1 - j) as u64,
                    *depth,
                ),
            enclosing_block(*key, blocktree@, *depth, key.3) == (if i == key.3 {
                None
            } else {
                enclosing_block(*key, blocktree@, *depth, (key.3 - 1 - i) as u64)
            }),
        decreases ancestors.len() - i,
    {
        let ancestor = ancestors[i];
        if contains_key(blocktree, &ancestor) {
            return Some(ancestor);
        }
        i = i + 1;
    }
    None
}

/// Each of the leaves has a block: its own cell or one of its ancestors is
/// one of the `blocks`.
pub open spec fn all_enclosed(leaves: Seq<Leaf>, blocks: Seq<Key>, depth: u64) -> bool {
    forall|i: int|
        0 <= i < leaves.len() ==> enclosing_block(
            (#[trigger] leaves[i]).key,
            blocks,
            depth,
            leaves[i].key.3,
        ).is_some()
}

/// Whether each of the leaves has a block among the `blocks`.
pub fn have_enclosing_blocks(local_leaves: &[Leaf], local_blocktree: &[Key], depth: &u64) -> (all:
    bool)
    requires
        forall|i: int| 0 <= i < local_leaves@.len() ==> (#[trigger] local_leaves@[i]).key.wf(*depth),
    ensures
        all == all_enclosed(local_leaves@, local_blocktree@, *depth),
{
    let mut i: usize = 0;
    while i < local_leaves.len()
        invariant
            i <= local_leaves@.len(),
            forall|j: int|
                0 <= j < local_leaves@.len() ==> (#[trigger] local_leaves@[j]).key.wf(*depth),
            all_enclosed(local_leaves@.take(i as int), local_blocktree@, *depth),
        decreases local_leaves.len() - i,
    {
        if find_enclosing_block(&local_leaves[i].key, local_blocktree, depth).is_none() {
            return false;
        }
        proof {
            let seen = local_leaves@.take(i + 1);
            assert forall|j: int| 0 <= j < seen.len() implies enclosing_block(
                (#[trigger] seen[j]).key,
                local_blocktree@,
                *depth,
                seen[j].key.3,
            ).is_some() by {
                if j < i {
                    assert(local_leaves@.take(i as int)[j] == seen[j]);
                }
            }
        }
        i = i + 1;
    }
    proof {
        assert(local_leaves@.take(i as int) =~= local_leaves@);
    }
    true
}

/// Associate a given set of **Blocks** with a given set of **Leaves** (sequential).
///
/// Each leaf gets the finest of the blocks that encloses it. Every leaf has
/// such a block: `have_enclosing_blocks` is there to find out.
pub fn assign_blocks_to_leaves(local_leaves: &mut Leaves, local_blocktree: &[Key], depth: &u64)
    requires
        forall|i: int|
            0 <= i < old(local_leaves)@.len() ==> (#[trigger] old(local_leaves)@[i]).key.wf(*depth),
        all_enclosed(old(local_leaves)@, local_blocktree@, *depth),
    ensures
        final(local_leaves)@.len() == old(local_leaves)@.len(),
        forall|i: int|
            0 <= i < old(local_leaves)@.len() ==> #[trigger] final(local_leaves)@[i] == with_block(
                old(local_leaves)@[i],
                local_blocktree@,
                *depth,
            ),
        forall|i: int|
            0 <= i < final(local_leaves)@.len() ==> local_blocktree@.contains(
                (#[trigger] final(local_leaves)@[i]).block,
            ) && crate::cover::encloses(
                final(local_leaves)@[i].block,
                final(local_leaves)@[i].key,
                *depth,
            ),
{
    let ghost given = local_leaves@;
    let mut i: usize = 0;
    while i < local_leaves.len()
        invariant
            i <= local_leaves@.len(),
            local_leaves@.len() == given.len(),
            forall|j: int| 0 <= j < given.len() ==> (#[trigger] given[j]).key.wf(*depth),
            all_enclosed(given, local_blocktree@, *depth),
            forall|j: int|
                0 <= j < i ==> #[trigger] local_leaves@[j] == with_block(
                    given[j],
                    local_blocktree@,
                    *depth,
                ),
            forall|j: int|
                0 <= j < i ==> local_blocktree@.contains((#[trigger] local_leaves@[j]).block)
                    && crate::cover::encloses(local_leaves@[j].block, local_leaves@[j].key, *depth),
            forall|j: int| i <= j < given.len() ==> #[trigger] local_leaves@[j] == given[j],
        decreases local_leaves.len() - i,
    {
        let leaf = local_leaves[i];
        proof {
            assert(given[i as int].key.wf(*depth));
            lemma_enclosing_block(leaf.key, local_blocktree@, *depth, leaf.key.3);
        }
        match find_enclosing_block(&leaf.key, local_blocktree, depth) {
            Some(block) => {
                local_leaves.set(i, Leaf { key: leaf.key, block, npoints: leaf.npoints });
            },
            None => {},
        }
        i = i + 1;
    }
}

/// The keys among which the seeds are chosen: the least and the greatest
/// leaf and the keys of the region between them.
pub open spec fn is_seed_candidate(w: Key, least: Key, greatest: Key, depth: u64) -> bool {
    in_region(w, least, greatest, depth) || w == least || w == greatest
}

/// `w` is a seed: a candidate, and as coarse as any candidate.
pub open spec fn is_seed(w: Key, least: Key, greatest: Key, depth: u64) -> bool {
    &&& is_seed_candidate(w, least, greatest, depth)
    &&& forall|v: Key| #[trigger] is_seed_candidate(v, least, greatest, depth) ==> w.3 <= v.3
}

/// `seeds` holds the seeds between `least` and `greatest`, each once, in
/// Morton order.
pub open spec fn seeds_between(seeds: Seq<Key>, least: Key, greatest: Key, depth: u64) -> bool {
    &&& strictly_sorted_by_key(seeds)
    &&& forall|w: Key| seeds.contains(w) <==> #[trigger] is_seed(w, least, greatest, depth)
}

/// `seeds` are the seeds of the leaves: the coarsest keys among the least
/// and the greatest leaf and the region between them, each once, in Morton
/// order.
pub open spec fn are_seeds_of(seeds: Seq<Key>, leaves: Seq<Leaf>, depth: u64) -> bool {
    exists|least: Key, greatest: Key|
        {
            &&& is_min_key(leaves, least)
            &&& is_max_key(leaves, greatest)
            &&& #[trigger] seeds_between(seeds, least, greatest, depth)
        }
}

/// The least and the greatest leaf with the region between them are keys
/// in strictly increasing order.
proof fn lemma_candidates(region: Seq<Key>, least: Key, greatest: Key, depth: u64)
    requires
        is_region(region, least, greatest, depth),
        !key_lt(greatest, least),
    ensures
        least == greatest ==> region.len() == 0,
        least != greatest ==> strictly_sorted_by_key(seq![least] + region + seq![greatest]),
        strictly_sorted_by_key(seq![least] + region),
{
    lemma_key_order_total(least, greatest);
    assert forall|i: int| 0 <= i < region.len() implies key_lt(least, #[trigger] region[i])
        && key_lt(region[i], greatest) by {
        assert(region.contains(region[i]));
    }
    if least == greatest && region.len() > 0 {
        assert(key_lt(least, region[0]) && key_lt(region[0], greatest));
    }
    let head = seq![least];
    assert(strictly_sorted_by_key(head));
    crate::sorting::lemma_strictly_sorted_concat(head, region);
    if least != greatest {
        let tail = seq![greatest];
        assert(strictly_sorted_by_key(tail));
        let body = head + region;
        assert forall|i: int, j: int| 0 <= i < body.len() && 0 <= j < tail.len() implies key_lt(
            #[trigger] body[i],
            #[trigger] tail[j],
        ) by {
            if i > 0 {
                assert(body[i] == region[i - 1]);
            }
        }
        crate::sorting::lemma_strictly_sorted_concat(body, tail);
    }
}

/// Find coarsest **Seeds** at each processor. These are used to seed the construction of a minimal
/// block octree in Algorithm 4 of [1] (sequential).
///
/// The seeds come in strictly increasing Morton order, each once; they lie
/// at one level, so none of them encloses another.
pub fn find_seeds(local_leaves: &[Leaf], depth: &u64) -> (seeds: Keys)
    requires
        local_leaves@.len() > 0,
        forall|i: int| 0 <= i < local_leaves@.len() ==> (#[trigger] local_leaves@[i]).key.wf(*depth),
    ensures
        are_seeds_of(seeds@, local_leaves@, *depth),
        seeds@.len() > 0,
        crate::cover::seeds_linear(seeds@, *depth),
        forall|i: int, j: int|
            0 <= i < seeds@.len() && 0 <= j < seeds@.len() ==> (#[trigger] seeds@[i]).3
                == (#[trigger] seeds@[j]).3,
        (forall|i: int| 0 <= i < local_leaves@.len() ==> (#[trigger] local_leaves@[i]).key.3 > 0)
            ==> (forall|i: int| 0 <= i < seeds@.len() ==> (#[trigger] seeds@[i]).3 > 0),
{
    // Find least and greatest leaves on processor
    let min: Key = match min_key(local_leaves) {
        Some(key) => key,
        None => Key::default(),
    };
    let max: Key = match max_key(local_leaves) {
        Some(key) => key,
        None => Key::default(),
    };
    // Complete region between least and greatest leaves
    let mut region = complete_region(&min, &max, depth);
    let ghost between = region@;
    let mut complete: Keys = Vec::new();
    complete.push(min);
    complete.append(&mut region);
    if min != max {
        complete.push(max);
    }
    proof {
        let at_least = choose|i: int|
            0 <= i < local_leaves@.len() && #[trigger] local_leaves@[i].key_of() == min;
        let at_greatest = choose|i: int|
            0 <= i < local_leaves@.len() && #[trigger] local_leaves@[i].key_of() == max;
        assert(!key_lt(max, local_leaves@[at_least].key_of()));
        assert(local_leaves@[at_least].key.wf(*depth));
        assert(local_leaves@[at_greatest].key.wf(*depth));
        lemma_candidates(between, min, max, *depth);
        if min != max {
            assert(complete@ =~= seq![min] + between + seq![max]);
        } else {
            assert(complete@ =~= seq![min] + between);
        }
        assert forall|w: Key| complete@.contains(w) <==> #[trigger] is_seed_candidate(
            w,
            min,
            max,
            *depth,
        ) by {
            assert(between.contains(w) <==> in_region(w, min, max, *depth));
            if complete@.contains(w) {
                let i = choose|i: int| 0 <= i < complete@.len() && complete@[i] == w;
                if 0 < i && i <= between.len() {
                    assert(between[i - 1] == w);
                }
            }
            if between.contains(w) {
                let i = choose|i: int| 0 <= i < between.len() && between[i] == w;
                assert(complete@[i + 1] == w);
            }
            assert(complete@[0] == min);
            if min != max {
                assert(complete@[complete@.len() - 1] == max);
            }
        }
    }

    // Find blocks
    let mut coarsest: u64 = complete[0].3;
    let mut i: usize = 1;
    while i < complete.len()
        invariant
            1 <= i <= complete@.len(),
            forall|j: int| 0 <= j < i ==> coarsest <= (#[trigger] complete@[j]).3,
            exists|j: int| 0 <= j < i && (#[trigger] complete@[j]).3 == coarsest,
        decreases complete.len() - i,
    {
        if complete[i].3 < coarsest {
            coarsest = complete[i].3;
        }
        i = i + 1;
    }
    let mut seeds: Keys = Vec::new();
    let mut j: usize = 0;
    while j < complete.len()
        invariant
            j <= complete@.len(),
            strictly_sorted_by_key(complete@),
            strictly_sorted_by_key(seeds@),
            j < complete@.len() ==> forall|k: int|
                0 <= k < seeds@.len() ==> key_lt(#[trigger] seeds@[k], complete@[j as int]),
            forall|w: Key|
                #[trigger] seeds@.contains(w) <==> (complete@.take(j as int).contains(w) && w.3
                    == coarsest),
        decreases complete.len() - j,
    {
        let ghost before = seeds@;
        proof {
            assert(complete@.take(j + 1) =~= complete@.take(j as int).push(complete@[j as int]));
            if j + 1 < complete@.len() {
                assert(key_lt(complete@[j as int].key_of(), complete@[j + 1].key_of()));
            }
        }
        if complete[j].3 == coarsest {
            seeds.push(complete[j]);
            proof {
                crate::sorting::lemma_strictly_sorted_concat(before, seq![complete@[j as int]]);
                assert(seeds@ =~= before + seq![complete@[j as int]]);
            }
        }
        proof {
            assert forall|w: Key|
                #[trigger] seeds@.contains(w) <==> (complete@.take(j + 1).contains(w) && w.3
                    == coarsest) by {
                vstd::seq_lib::lemma_seq_contains_after_push(
                    complete@.take(j as int),
                    complete@[j as int],
                    w,
                );
                vstd::seq_lib::lemma_seq_contains_after_push(before, complete@[j as int], w);
                assert(before.contains(w) <==> (complete@.take(j as int).contains(w) && w.3
                    == coarsest));
            }
        }
        j = j + 1;
    }
    proof {
        assert(complete@.take(j as int) =~= complete@);
        let found = choose|k: int| 0 <= k < complete@.len() && (#[trigger] complete@[k]).3 == coarsest;
        assert(complete@.contains(complete@[found]));
        assert(seeds@.contains(complete@[found]));
        assert forall|w: Key| seeds@.contains(w) <==> #[trigger] is_seed(w, min, max, *depth) by {
            assert(complete@.contains(w) <==> is_seed_candidate(w, min, max, *depth));
            if seeds@.contains(w) {
                assert forall|v: Key| #[trigger]
                    is_seed_candidate(v, min, max, *depth) implies w.3 <= v.3 by {
                    assert(complete@.contains(v));
                    let k = choose|k: int| 0 <= k < complete@.len() && complete@[k] == v;
                    assert(coarsest <= complete@[k].3);
                }
            }
            if is_seed(w, min, max, *depth) {
                assert(is_seed_candidate(complete@[found], min, max, *depth));
                let k = choose|k: int| 0 <= k < complete@.len() && complete@[k] == w;
                assert(coarsest <= complete@[k].3);
            }
        }
        assert(seeds_between(seeds@, min, max, *depth));
        assert forall|k: int| 0 <= k < seeds@.len() implies (#[trigger] seeds@[k]).wf(*depth)
            && seeds@[k].3 == coarsest && (seeds@[k] == min || seeds@[k] == max || seeds@[k].3
            >= 1) by {
            assert(seeds@.contains(seeds@[k]));
            assert(complete@.contains(seeds@[k]));
            assert(is_seed_candidate(seeds@[k], min, max, *depth));
        }
        assert forall|a: int, b: int| 0 <= a < b < seeds@.len() implies !crate::cover::encloses(
            #[trigger] seeds@[a],
            #[trigger] seeds@[b],
            *depth,
        ) by {
            assert(key_lt(seeds@[a].key_of(), seeds@[b].key_of()));
            lemma_ancestor_wf(seeds@[b], seeds@[b].3, *depth);
        }
    }
    seeds
}

/// The keys among the first `n` of `keys` that are kept: those that are not
/// on the list of ancestors of the key that follows them.
pub open spec fn kept_prefix(keys: Seq<Key>, depth: u64, n: nat) -> Seq<Key>
    decreases n,
{
    if n == 0 {
        Seq::empty()
    } else {
        let before = kept_prefix(keys, depth, (n - 1) as nat);
        if listed_ancestor(keys[n - 1], keys[n as int], depth) {
            before
        } else {
            before.push(keys[n - 1])
        }
    }
}

/// The keys without those that overlap their successor: a key is dropped
/// where it is an ancestor of the key that follows it. The last key stays.
pub open spec fn linearised(keys: Seq<Key>, depth: u64) -> Seq<Key> {
    if keys.len() == 0 {
        keys
    } else {
        kept_prefix(keys, depth, (keys.len() - 1) as nat).push(keys.last())
    }
}

/// Remove overlaps from a list of octants, algorithm 7 in [1], expects input keys to be sorted
/// (sequential).
///
/// The keys come in strictly increasing order. The result is linear: its
/// keys come in strictly increasing order, and none encloses another.
pub fn linearise(keys: &mut Keys, depth: &u64) -> (linear: Keys)
    requires
        forall|i: int| 0 <= i < old(keys)@.len() ==> (#[trigger] old(keys)@[i]).wf(*depth),
        strictly_sorted_by_key(old(keys)@),
    ensures
        final(keys)@ == old(keys)@,
        linear@ == linearised(old(keys)@, *depth),
        crate::cover::seeds_linear(linear@, *depth),
        linearised(linear@, *depth) == linear@,
{
    proof {
        crate::laws::lemma_linearise_idempotent(keys@, *depth);
        crate::laws::lemma_linearised_linear(keys@, *depth);
    }
    let mut linearised: Keys = Vec::new();
    if keys.len() == 0 {
        return linearised;
    }
    let mut i: usize = 0;
    while i < keys.len() - 1
        invariant
            keys@.len() > 0,
            i <= keys@.len() - 1,
            forall|j: int| 0 <= j < keys@.len() ==> (#[trigger] keys@[j]).wf(*depth),
            linearised@ == kept_prefix(keys@, *depth, i as nat),
        decreases keys.len() - i,
    {
        let curr = keys[i];
        let next = keys[i + 1];
        let ancestors_next = find_ancestors(&next, depth);
        proof {
            lemma_listed(curr, next, *depth);
        }
        if !contains_key(ancestors_next.as_slice(), &curr) {
            linearised.push(curr);
        }
        i = i + 1;
    }
    linearised.push(keys[keys.len() - 1]);
    linearised
}

} // verus!
