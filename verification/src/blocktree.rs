use vstd::prelude::*;
use vstd::seq_lib::lemma_multiset_commutative;
use crate::morton::{
    deepest_last, find_deepest_first_descendent, find_deepest_last_descendent,
    find_finest_common_ancestor, find_greatest_child, is_finest_common_ancestor, key_child, key_lt,
    lemma_ancestor_wf, lemma_root, less_than, root_key, Key, Keyed, Keys, Leaf,
};
use crate::cover::{
    encloses, in_blocktree, in_local_blocktree, lemma_first_seed_apart, lemma_last_seed_apart,
    lemma_linear_by_members, lemma_linear_members, seeds_linear,
};
use crate::morton::contains_key;
use crate::region::is_region;
use crate::sorting::{
    is_max_key, is_min_key, lemma_sorted_distinct_is_strict, lemma_strictly_sorted_distinct,
    max_key, min_key, sort_keys, strictly_sorted_by_key,
};
use crate::tree::complete_region;

verus! {

/// The items whose key lies below the pivot.
pub open spec fn below<T: Keyed>(pivot: Key) -> spec_fn(T) -> bool {
    |item: T| key_lt(item.key_of(), pivot)
}

/// The items whose key is the pivot or lies above it.
pub open spec fn not_below<T: Keyed>(pivot: Key) -> spec_fn(T) -> bool {
    |item: T| !key_lt(item.key_of(), pivot)
}

/// Part the items at the pivot: first those below it, which go to the
/// previous process, then those that stay. Both parts keep their order.
pub fn split_at_pivot<T: Keyed>(items: &[T], pivot: &Key) -> (parts: (Vec<T>, Vec<T>))
    ensures
        parts.0@ == items@.filter(below(*pivot)),
        parts.1@ == items@.filter(not_below(*pivot)),
{
    let ghost goes = below::<T>(*pivot);
    let ghost stays = not_below::<T>(*pivot);
    let mut lower: Vec<T> = Vec::new();
    let mut upper: Vec<T> = Vec::new();
    let mut i: usize = 0;
    proof {
        items@.take(0).lemma_filter_len(goes);
        items@.take(0).lemma_filter_len(stays);
        assert(items@.take(0).filter(goes) =~= Seq::<T>::empty());
        assert(items@.take(0).filter(stays) =~= Seq::<T>::empty());
    }
    while i < items.len()
        invariant
            i <= items@.len(),
            goes == below::<T>(*pivot),
            stays == not_below::<T>(*pivot),
            lower@ == items@.take(i as int).filter(goes),
            upper@ == items@.take(i as int).filter(stays),
        decreases items.len() - i,
    {
        proof {
            assert(items@.take(i + 1) =~= items@.take(i as int).push(items@[i as int]));
            items@.take(i as int).lemma_filter_push(items@[i as int], goes);
            items@.take(i as int).lemma_filter_push(items@[i as int], stays);
        }
        if less_than(&items[i].sort_key(), pivot) {
            lower.push(items[i]);
        } else {
            upper.push(items[i]);
        }
        i = i + 1;
    }
    proof {
        assert(items@.take(i as int) =~= items@);
    }
    (lower, upper)
}

/// The key at which a process parts its leaves after the seeds are found:
/// the first process keeps all its leaves, so its pivot is its least leaf;
/// every other process hands over what lies below its least seed.
pub fn transfer_pivot(local_leaves: &[Leaf], seeds: &[Key], rank: i32) -> (pivot: Key)
    requires
        rank == 0 ==> local_leaves@.len() > 0,
        rank != 0 ==> seeds@.len() > 0,
    ensures
        rank == 0 ==> is_min_key(local_leaves@, pivot),
        rank != 0 ==> is_min_key(seeds@, pivot),
{
    if rank == 0 {
        match min_key(local_leaves) {
            Some(key) => key,
            None => Key::default(),
        }
    } else {
        match min_key(seeds) {
            Some(key) => key,
            None => Key::default(),
        }
    }
}

/// A process whose pivot is its least item hands nothing over.
pub proof fn lemma_nothing_below_least<T: Keyed>(items: Seq<T>, pivot: Key)
    requires
        is_min_key(items, pivot),
    ensures
        items.filter(below(pivot)).len() == 0,
        items.filter(not_below(pivot)) == items,
    decreases items.len(),
{
    lemma_filter_none_below(items, pivot);
}

proof fn lemma_filter_none_below<T: Keyed>(items: Seq<T>, pivot: Key)
    requires
        forall|i: int| 0 <= i < items.len() ==> !key_lt(#[trigger] items[i].key_of(), pivot),
    ensures
        items.filter(below(pivot)).len() == 0,
        items.filter(not_below(pivot)) == items,
    decreases items.len(),
{
    if items.len() == 0 {
        items.lemma_filter_len(below(pivot));
        items.lemma_filter_len(not_below(pivot));
        assert(items.filter(not_below(pivot)) =~= items);
    } else {
        let rest = items.drop_last();
        assert forall|i: int| 0 <= i < rest.len() implies !key_lt(
            #[trigger] rest[i].key_of(),
            pivot,
        ) by {
            assert(rest[i] == items[i]);
        }
        lemma_filter_none_below(rest, pivot);
        assert(items =~= rest.push(items.last()));
        rest.lemma_filter_push(items.last(), below(pivot));
        rest.lemma_filter_push(items.last(), not_below(pivot));
        assert(!key_lt(items[items.len() - 1].key_of(), pivot));
    }
}

/// The seed that the first process adds: the first child of the finest
/// common ancestor of the first cell of the domain and the least seed.
pub open spec fn is_first_seed(seed: Key, seeds: Seq<Key>, depth: u64) -> bool {
    exists|least: Key, ancestor: Key|
        {
            &&& is_min_key(seeds, least)
            &&& #[trigger] is_finest_common_ancestor(
                ancestor,
                Key(0, 0, 0, depth),
                least,
                depth,
            )
            &&& seed == Key(ancestor.0, ancestor.1, ancestor.2, (ancestor.3 + 1) as u64)
        }
}

/// The seed that the last process adds: the last child of the finest common
/// ancestor of the last cell of the domain and the greatest seed.
pub open spec fn is_last_seed(seed: Key, seeds: Seq<Key>, depth: u64) -> bool {
    exists|greatest: Key, ancestor: Key|
        {
            &&& is_max_key(seeds, greatest)
            &&& #[trigger] is_finest_common_ancestor(
                ancestor,
                deepest_last(root_key(), depth),
                greatest,
                depth,
            )
            &&& seed == key_child(ancestor, 7, depth)
        }
}

/// What adding a seed to seeds in strictly increasing order gives: the
/// seeds with the new seed among them, once, in strictly increasing order.
pub open spec fn with_seed(before: Seq<Key>, after: Seq<Key>, seed: Key) -> bool {
    &&& strictly_sorted_by_key(after)
    &&& forall|w: Key| after.contains(w) <==> before.contains(w) || w == seed
    &&& before.contains(seed) ==> after == before
}

/// Seeds that lie below the root, none of them enclosing another.
pub open spec fn seeds_apart(seeds: Seq<Key>, depth: u64) -> bool {
    &&& seeds_linear(seeds, depth)
    &&& forall|i: int| 0 <= i < seeds.len() ==> (#[trigger] seeds[i]).3 > 0
}

/// Put a seed among seeds in strictly increasing order, unless it is there.
fn join_seed(seeds: &mut Keys, seed: Key, depth: &u64)
    requires
        strictly_sorted_by_key(old(seeds)@),
        seed.wf(*depth),
        forall|i: int| 0 <= i < old(seeds)@.len() ==> (#[trigger] old(seeds)@[i]).wf(*depth),
    ensures
        with_seed(old(seeds)@, final(seeds)@, seed),
        final(seeds)@.len() > 0,
        forall|i: int| 0 <= i < final(seeds)@.len() ==> (#[trigger] final(seeds)@[i]).wf(*depth),
{
    let ghost given = seeds@;
    if contains_key(seeds.as_slice(), &seed) {
        return ;
    }
    seeds.push(seed);
    let ghost grown = seeds@;
    sort_keys(seeds);
    proof {
        lemma_strictly_sorted_distinct(given);
        assert(grown.no_duplicates()) by {
            assert forall|i: int, j: int|
                0 <= i < grown.len() && 0 <= j < grown.len() && i != j implies grown[i]
                != grown[j] by {
                if i < given.len() {
                    assert(given.contains(given[i]));
                }
                if j < given.len() {
                    assert(given.contains(given[j]));
                }
            }
        }
        lemma_sorted_distinct_is_strict(grown, seeds@);
        assert forall|w: Key| seeds@.contains(w) <==> given.contains(w) || w == seed by {
            vstd::seq_lib::lemma_seq_contains_after_push(given, seed, w);
        }
        assert forall|i: int| 0 <= i < seeds@.len() implies (#[trigger] seeds@[i]).wf(*depth) by {
            assert(seeds@.contains(seeds@[i]));
            if given.contains(seeds@[i]) {
                let j = choose|j: int| 0 <= j < given.len() && given[j] == seeds@[i];
            }
        }
        assert(seeds@.contains(seed));
    }
}

/// On the first process: add the seed that reaches back to the start of
/// the domain, unless it is among the seeds already. The seeds stay in
/// strictly increasing order.
pub fn add_first_seed(seeds: &mut Keys, depth: &u64) -> (seed: Key)
    requires
        old(seeds)@.len() > 0,
        1 <= *depth <= crate::morton::MAX_DEPTH,
        forall|i: int| 0 <= i < old(seeds)@.len() ==> (#[trigger] old(seeds)@[i]).wf(*depth),
        strictly_sorted_by_key(old(seeds)@),
    ensures
        is_first_seed(seed, old(seeds)@, *depth),
        seed.wf(*depth),
        with_seed(old(seeds)@, final(seeds)@, seed),
        final(seeds)@.len() > 0,
        forall|i: int| 0 <= i < final(seeds)@.len() ==> (#[trigger] final(seeds)@[i]).wf(*depth),
        seeds_apart(old(seeds)@, *depth) ==> seeds_apart(final(seeds)@, *depth),
        seeds_apart(old(seeds)@, *depth) ==> final(seeds)@[0].morton() == 0,
{
    let root = Key(0, 0, 0, 0);
    proof {
        lemma_root(seeds@[0], *depth);
    }
    let dfd_root = find_deepest_first_descendent(&root, depth);
    let min = match min_key(seeds.as_slice()) {
        Some(key) => key,
        None => Key::default(),
    };
    proof {
        lemma_ancestor_wf(root, *depth, *depth);
        crate::morton::lemma_first_descendent_wf(root, *depth);
    }
    let na = find_finest_common_ancestor(&dfd_root, &min, depth);
    let mut first_child = na;
    first_child.3 = first_child.3 + 1;
    proof {
        crate::morton::lemma_first_descendent_wf(na, *depth);
        crate::morton::lemma_first_child_wf(na, *depth);
    }
    let ghost given = seeds@;
    join_seed(seeds, first_child, depth);
    proof {
        if seeds_apart(given, *depth) {
            if !given.contains(first_child) {
                assert forall|a: Key, b: Key|
                    seeds@.contains(a) && seeds@.contains(b) && a != b implies !#[trigger] encloses(
                    a,
                    b,
                    *depth,
                ) by {
                    if a == first_child {
                        lemma_first_seed_apart(first_child, na, min, b, given, *depth);
                    } else if b == first_child {
                        lemma_first_seed_apart(first_child, na, min, a, given, *depth);
                    } else {
                        lemma_linear_members(given, a, b, *depth);
                    }
                }
                lemma_linear_by_members(seeds@, *depth);
                assert forall|i: int| 0 <= i < seeds@.len() implies (#[trigger] seeds@[i]).3 > 0 by {
                    assert(seeds@.contains(seeds@[i]));
                    if given.contains(seeds@[i]) {
                        let j = choose|j: int| 0 <= j < given.len() && given[j] == seeds@[i];
                    }
                }
            }
            crate::cover::lemma_first_seed_begins(first_child, given, *depth);
            assert(seeds@.contains(first_child));
            let at = choose|i: int| 0 <= i < seeds@.len() && seeds@[i] == first_child;
            if at > 0 {
                assert(key_lt(seeds@[0].key_of(), seeds@[at].key_of()));
            }
        }
    }
    first_child
}

/// On the last process: add the seed that reaches on to the end of the
/// domain, unless it is among the seeds already. The seeds stay in strictly
/// increasing order.
pub fn add_last_seed(seeds: &mut Keys, depth: &u64) -> (seed: Key)
    requires
        old(seeds)@.len() > 0,
        1 <= *depth <= crate::morton::MAX_DEPTH,
        forall|i: int| 0 <= i < old(seeds)@.len() ==> (#[trigger] old(seeds)@[i]).wf(*depth),
        strictly_sorted_by_key(old(seeds)@),
    ensures
        is_last_seed(seed, old(seeds)@, *depth),
        seed.wf(*depth),
        with_seed(old(seeds)@, final(seeds)@, seed),
        final(seeds)@.len() > 0,
        forall|i: int| 0 <= i < final(seeds)@.len() ==> (#[trigger] final(seeds)@[i]).wf(*depth),
        seeds_apart(old(seeds)@, *depth) ==> seeds_apart(final(seeds)@, *depth),
        seeds_apart(old(seeds)@, *depth) ==> final(seeds)@.last() == seed,
        seeds_apart(old(seeds)@, *depth) ==> final(seeds)@[0] == old(seeds)@[0],
        crate::cover::cell_end(seed, *depth) == crate::interleave::span(*depth as nat),
{
    let root = Key(0, 0, 0, 0);
    proof {
        lemma_root(seeds@[0], *depth);
    }
    let dld_root = find_deepest_last_descendent(&root, depth);
    let max = match max_key(seeds.as_slice()) {
        Some(key) => key,
        None => Key::default(),
    };
    let na = find_finest_common_ancestor(&dld_root, &max, depth);
    let last_child = find_greatest_child(&na, depth);
    let ghost given = seeds@;
    join_seed(seeds, last_child, depth);
    proof {
        crate::cover::lemma_last_seed_ends(last_child, given, *depth);
        if seeds_apart(given, *depth) {
            if !given.contains(last_child) {
                assert forall|a: Key, b: Key|
                    seeds@.contains(a) && seeds@.contains(b) && a != b implies !#[trigger] encloses(
                    a,
                    b,
                    *depth,
                ) by {
                    if a == last_child {
                        lemma_last_seed_apart(last_child, na, max, b, given, *depth);
                    } else if b == last_child {
                        lemma_last_seed_apart(last_child, na, max, a, given, *depth);
                    } else {
                        lemma_linear_members(given, a, b, *depth);
                    }
                }
                lemma_linear_by_members(seeds@, *depth);
                assert forall|i: int| 0 <= i < seeds@.len() implies (#[trigger] seeds@[i]).3 > 0 by {
                    assert(seeds@.contains(seeds@[i]));
                    if given.contains(seeds@[i]) {
                        let j = choose|j: int| 0 <= j < given.len() && given[j] == seeds@[i];
                    }
                }
            }
            crate::cover::lemma_last_seed_is_last(last_child, given, seeds@, *depth);
        }
    }
    last_child
}

/// The blocks that the first `n` pairs of neighbouring seeds give: each
/// seed but the last, followed by the region between it and the next seed.
pub open spec fn assembled(seeds: Seq<Key>, regions: Seq<Seq<Key>>, n: nat) -> Seq<Key>
    decreases n,
{
    if n == 0 {
        Seq::empty()
    } else {
        assembled(seeds, regions, (n - 1) as nat).push(seeds[n - 1]) + regions[n - 1]
    }
}

/// The blocks with the last seed added where it belongs to them.
pub open spec fn closing(blocks: Seq<Key>, seeds: Seq<Key>, last: bool) -> Seq<Key> {
    if last {
        blocks.push(seeds.last())
    } else {
        blocks
    }
}

/// `blocks` is the local blocktree of the seeds: the seeds and the keys of
/// the regions between neighbouring seeds, each once, in Morton order. The
/// last seed is among the blocks only on the last process.
pub open spec fn is_blocktree_of(blocks: Seq<Key>, seeds: Seq<Key>, depth: u64, last: bool) -> bool {
    &&& strictly_sorted_by_key(blocks)
    &&& forall|w: Key| blocks.contains(w) <==> #[trigger] in_local_blocktree(w, seeds, depth, last)
}

/// One more seed and the region after it, put behind blocks that all come
/// before the seed.
proof fn lemma_assemble_step(blocks: Seq<Key>, a: Key, region: Seq<Key>, b: Key, depth: u64)
    requires
        strictly_sorted_by_key(blocks),
        forall|k: int| 0 <= k < blocks.len() ==> key_lt(#[trigger] blocks[k], a),
        key_lt(a, b),
        is_region(region, a, b, depth),
    ensures
        strictly_sorted_by_key(blocks.push(a) + region),
        forall|k: int|
            0 <= k < (blocks.push(a) + region).len() ==> key_lt(
                #[trigger] (blocks.push(a) + region)[k],
                b,
            ),
{
    let head = blocks.push(a);
    assert(head =~= blocks + seq![a]);
    assert(strictly_sorted_by_key(seq![a]));
    crate::sorting::lemma_strictly_sorted_concat(blocks, seq![a]);
    assert forall|i: int| 0 <= i < region.len() implies key_lt(a, #[trigger] region[i]) && key_lt(
        region[i],
        b,
    ) by {
        assert(region.contains(region[i]));
    }
    assert forall|i: int, j: int| 0 <= i < head.len() && 0 <= j < region.len() implies key_lt(
        #[trigger] head[i],
        #[trigger] region[j],
    ) by {
        if i < blocks.len() {
            assert(key_lt(blocks[i], a));
        }
    }
    crate::sorting::lemma_strictly_sorted_concat(head, region);
}

/// Complete the region between each seed and the next, and sort what that
/// gives: the local part of the distributed blocktree.
///
/// The seeds come in strictly increasing order. Where they are linear, the
/// blocks are those of which `lemma_blocktree_partition` and
/// `lemma_blocktree_linear` speak.
pub fn blocktree_from_seeds(seeds: &[Key], depth: &u64, last: bool) -> (local_blocktree: Keys)
    requires
        seeds@.len() > 0,
        forall|i: int| 0 <= i < seeds@.len() ==> (#[trigger] seeds@[i]).wf(*depth),
        strictly_sorted_by_key(seeds@),
    ensures
        is_blocktree_of(local_blocktree@, seeds@, *depth, last),
        last ==> forall|w: Key| local_blocktree@.contains(w) <==> #[trigger] in_blocktree(w, seeds@, *depth),
        seeds_linear(seeds@, *depth) ==> crate::cover::is_linear(local_blocktree@, *depth),
        last && seeds_linear(seeds@, *depth) && seeds@[0].morton() == 0 && crate::cover::cell_end(
            seeds@.last(),
            *depth,
        ) == crate::interleave::span(*depth as nat) ==> crate::cover::is_partition(
            local_blocktree@,
            *depth,
        ),
{
    // Complete region between seeds at each process
    let mut local_blocktree: Keys = Vec::new();
    let ghost mut regions: Seq<Seq<Key>> = Seq::empty();
    let mut i: usize = 0;
    while i < seeds.len() - 1
        invariant
            seeds@.len() > 0,
            i <= seeds@.len() - 1,
            forall|j: int| 0 <= j < seeds@.len() ==> (#[trigger] seeds@[j]).wf(*depth),
            strictly_sorted_by_key(seeds@),
            regions.len() == i,
            forall|j: int|
                0 <= j < i ==> is_region(#[trigger] regions[j], seeds@[j], seeds@[j + 1], *depth),
            local_blocktree@ == assembled(seeds@, regions, i as nat),
            strictly_sorted_by_key(local_blocktree@),
            forall|k: int|
                0 <= k < local_blocktree@.len() ==> key_lt(
                    #[trigger] local_blocktree@[k],
                    seeds@[i as int],
                ),
        decreases seeds.len() - i,
    {
        let a = seeds[i];
        let b = seeds[i + 1];
        let mut tmp = complete_region(&a, &b, depth);
        proof {
            let grown = regions.push(tmp@);
            lemma_assembled_prefix(seeds@, regions, grown, i as nat);
            assert(key_lt(seeds@[i as int].key_of(), seeds@[i + 1].key_of()));
            lemma_assemble_step(local_blocktree@, a, tmp@, b, *depth);
            regions = grown;
        }
        local_blocktree.push(a);
        local_blocktree.append(&mut tmp);
        i = i + 1;
    }
    if last {
        proof {
            let tail = seq![seeds@[seeds@.len() - 1]];
            assert(strictly_sorted_by_key(tail));
            crate::sorting::lemma_strictly_sorted_concat(local_blocktree@, tail);
            assert(local_blocktree@.push(seeds@[seeds@.len() - 1]) =~= local_blocktree@ + tail);
        }
        local_blocktree.push(seeds[seeds.len() - 1]);
    }
    let ghost unsorted = local_blocktree@;
    sort_keys(&mut local_blocktree);
    proof {
        assert(unsorted == closing(assembled(seeds@, regions, regions.len()), seeds@, last));
        lemma_strictly_sorted_distinct(unsorted);
        lemma_sorted_distinct_is_strict(unsorted, local_blocktree@);
        assert forall|w: Key| local_blocktree@.contains(w) <==> #[trigger] in_local_blocktree(
            w,
            seeds@,
            *depth,
            last,
        ) by {
            let inner = assembled(seeds@, regions, regions.len());
            lemma_assembled_holds(seeds@, regions, *depth, regions.len(), w);
            if last {
                vstd::seq_lib::lemma_seq_contains_after_push(inner, seeds@.last(), w);
            }
        }
        if last {
            assert forall|w: Key| local_blocktree@.contains(w) <==> #[trigger] in_blocktree(
                w,
                seeds@,
                *depth,
            ) by {
                crate::cover::lemma_local_is_whole(w, seeds@, *depth);
                assert(local_blocktree@.contains(w) <==> in_local_blocktree(w, seeds@, *depth, true));
            }
        }
        if seeds_linear(seeds@, *depth) {
            crate::cover::lemma_blocks_partition(local_blocktree@, seeds@, *depth, last);
        }
    }
    local_blocktree
}

proof fn lemma_assembled_prefix(seeds: Seq<Key>, regions: Seq<Seq<Key>>, grown: Seq<Seq<Key>>, n: nat)
    requires
        n <= regions.len(),
        grown.len() >= regions.len(),
        forall|i: int| 0 <= i < regions.len() ==> regions[i] == grown[i],
    ensures
        assembled(seeds, regions, n) == assembled(seeds, grown, n),
    decreases n,
{
    if n > 0 {
        lemma_assembled_prefix(seeds, regions, grown, (n - 1) as nat);
    }
}


proof fn lemma_assembled_holds(
    seeds: Seq<Key>,
    regions: Seq<Seq<Key>>,
    depth: u64,
    n: nat,
    w: Key,
)
    requires
        regions.len() == seeds.len() - 1,
        n <= regions.len(),
        forall|i: int|
            0 <= i < regions.len() ==> is_region(#[trigger] regions[i], seeds[i], seeds[i + 1], depth),
    ensures
        assembled(seeds, regions, n).contains(w) <==> exists|i: int|
            0 <= i < n && #[trigger] crate::cover::block_at(w, seeds, i, depth),
    decreases n,
{
    if n > 0 {
        let before = assembled(seeds, regions, (n - 1) as nat);
        lemma_assembled_holds(seeds, regions, depth, (n - 1) as nat, w);
        vstd::seq_lib::lemma_seq_contains_after_push(before, seeds[n - 1], w);
        vstd::seq_lib::lemma_seq_concat_contains_all_elements(
            before.push(seeds[n - 1]),
            regions[n - 1],
            w,
        );
        assert(is_region(regions[n - 1], seeds[n - 1], seeds[n as int], depth));
        if assembled(seeds, regions, n).contains(w) {
            if before.contains(w) {
                let i = choose|i: int|
                    0 <= i < n - 1 && #[trigger] crate::cover::block_at(w, seeds, i, depth);
                assert(crate::cover::block_at(w, seeds, i, depth));
            } else {
                assert(crate::cover::block_at(w, seeds, n - 1, depth));
            }
        }
        if exists|i: int| 0 <= i < n && #[trigger] crate::cover::block_at(w, seeds, i, depth) {
            let i = choose|i: int| 0 <= i < n && #[trigger] crate::cover::block_at(w, seeds, i, depth);
            if i < n - 1 {
                assert(before.contains(w));
            }
        }
    }
}

} // verus!
