use vstd::prelude::*;
use crate::morton::{Key, Keys, Leaf, Leaves};
use crate::sums::{lemma_sum_prefix_le, lemma_sum_take_step, weighted_sum};
use crate::morton::contains_key;
use crate::tree::Weight;

verus! {

/// The weight of a block as a number.
pub open spec fn weight_of() -> spec_fn(Weight) -> nat {
    |weight: Weight| weight.0 as nat
}

/// The weight of all the blocks together.
pub open spec fn total_weight(weights: Seq<Weight>) -> nat {
    weighted_sum(weights, weight_of())
}

/// The weight of the local blocks together.
pub fn local_weight(weights: &[Weight]) -> (total: u64)
    requires
        total_weight(weights@) <= u64::MAX,
    ensures
        total == total_weight(weights@),
{
    let mut total: u64 = 0;
    let mut i: usize = 0;
    proof {
        assert(weights@.take(0).len() == 0);
    }
    while i < weights.len()
        invariant
            i <= weights@.len(),
            total_weight(weights@) <= u64::MAX,
            total == total_weight(weights@.take(i as int)),
        decreases weights.len() - i,
    {
        proof {
            lemma_sum_take_step(weights@, i as int, weight_of());
            lemma_sum_prefix_le(weights@, i + 1, weight_of());
        }
        total = total + weights[i].0;
        i = i + 1;
    }
    proof {
        assert(weights@.take(i as int) =~= weights@);
    }
    total
}

/// The weight that each process should hold at most, short of one: the
/// total weight divided by the number of processes, rounded up.
pub open spec fn share(total: nat, size: nat) -> nat {
    ((total + size - 1) / (size as int)) as nat
}

/// The number of processes whose target is one unit wider than the share.
pub open spec fn surplus(total: nat, size: nat) -> nat {
    total % size
}

/// Where the target interval of the process with the 1-based number `p`
/// begins, on the scale of cumulative weights.
pub open spec fn target_lower(p: nat, total: nat, size: nat) -> nat {
    if p <= surplus(total, size) {
        ((p - 1) * (share(total, size) + 1)) as nat
    } else {
        ((p - 1) * share(total, size) + surplus(total, size)) as nat
    }
}

/// Where the target interval of the process with the 1-based number `p`
/// ends: the first cumulative weight beyond it.
pub open spec fn target_upper(p: nat, total: nat, size: nat) -> nat {
    if p <= surplus(total, size) {
        p * (share(total, size) + 1)
    } else {
        p * share(total, size) + surplus(total, size)
    }
}

/// The target interval of the process with the 1-based number `p`.
pub fn target_interval(p: u64, total: u64, size: u64) -> (bounds: (u128, u128))
    requires
        1 <= p <= size <= i32::MAX,
    ensures
        bounds.0 == target_lower(p as nat, total as nat, size as nat),
        bounds.1 == target_upper(p as nat, total as nat, size as nat),
{
    // Maximum weight per process
    let w: u128 = (total as u128 + size as u128 - 1) / (size as u128);
    let k: u128 = (total % size) as u128;
    let p: u128 = p as u128;
    proof {
        let x = total as int + size as int - 1;
        assert(x / (size as int) <= x) by (nonlinear_arith)
            requires
                size >= 1,
                x >= 0,
        ;
        assert(w <= 0x1_0000_0000_8000_0000);
        assert(p * (w + 1) <= 0x8000_0000 * 0x1_0000_0000_8000_0001) by (nonlinear_arith)
            requires
                0 <= p <= 0x8000_0000,
                0 <= w + 1 <= 0x1_0000_0000_8000_0001,
        ;
        assert((p - 1) * (w + 1) <= p * (w + 1)) by (nonlinear_arith)
            requires
                p >= 1,
                w >= 0,
        ;
        assert(p * w <= p * (w + 1)) by (nonlinear_arith)
            requires
                p >= 1,
                w >= 0,
        ;
        assert((p - 1) * w <= p * (w + 1)) by (nonlinear_arith)
            requires
                p >= 1,
                w >= 0,
        ;
    }
    if p <= k {
        ((p - 1) * (w + 1), p * (w + 1))
    } else {
        ((p - 1) * w + k, p * w + k)
    }
}

/// The targets tile the scale of cumulative weights: the first begins at 0,
/// each ends where the next begins, none is wider than the share and one,
/// and the last ends at or beyond the total weight.
pub proof fn lemma_targets_tile(p: nat, total: nat, size: nat)
    requires
        1 <= p <= size,
    ensures
        target_lower(1, total, size) == 0,
        p < size ==> target_upper(p, total, size) == target_lower(p + 1, total, size),
        target_upper(p, total, size) - target_lower(p, total, size) <= share(total, size) + 1,
        target_upper(p, total, size) - target_lower(p, total, size) >= share(total, size),
        target_upper(size, total, size) >= total,
{
    let w = share(total, size);
    let k = surplus(total, size);
    assert((p - 1) * (w + 1) + (w + 1) == p * (w + 1)) by (nonlinear_arith);
    assert((p - 1) * w + w == p * w) by (nonlinear_arith);
    assert(0 * (w + 1) == 0 && 0 * w == 0) by (nonlinear_arith);
    if p == k {
        assert(p * (w + 1) == p * w + k) by (nonlinear_arith)
            requires
                p == k,
        ;
    }
    assert(size * w >= total) by (nonlinear_arith)
        requires
            size >= 1,
            w == (total + size - 1) / (size as int),
    {
        let t = total + size - 1;
        assert(t == size * (t / (size as int)) + t % (size as int));
        assert(t % (size as int) < size);
    }
    assert(k < size);
}

/// The cumulative weight of the `i`-th local block on the scale of all
/// processes: the weight before the local blocks, which is `offset`, and
/// the weights of the local blocks up to and with the `i`-th.
pub open spec fn cumulative(weights: Seq<Weight>, offset: int, i: int) -> int {
    offset + total_weight(weights.take(i + 1))
}

/// Of the first `n` blocks, those whose cumulative weight lies in the
/// interval from `lower` up to, and without, `upper`.
pub open spec fn blocks_within(
    blocks: Seq<Key>,
    weights: Seq<Weight>,
    offset: int,
    lower: int,
    upper: int,
    n: nat,
) -> Seq<Key>
    decreases n,
{
    if n == 0 {
        Seq::empty()
    } else {
        let before = blocks_within(blocks, weights, offset, lower, upper, (n - 1) as nat);
        if lower <= cumulative(weights, offset, n - 1) < upper {
            before.push(blocks[n - 1])
        } else {
            before
        }
    }
}

/// The weight of those of the first `n` blocks whose cumulative weight lies
/// in the interval from `lower` up to, and without, `upper`.
pub open spec fn weight_within(
    weights: Seq<Weight>,
    offset: int,
    lower: int,
    upper: int,
    n: nat,
) -> nat
    decreases n,
{
    if n == 0 {
        0
    } else {
        let before = weight_within(weights, offset, lower, upper, (n - 1) as nat);
        if lower <= cumulative(weights, offset, n - 1) < upper {
            before + weights[n - 1].0 as nat
        } else {
            before
        }
    }
}

/// What falls into one target is balanced: the blocks whose cumulative
/// weight lies in an interval weigh less than the width of the interval and
/// the heaviest single block together.
pub proof fn lemma_weight_within_bounded(
    weights: Seq<Weight>,
    offset: int,
    lower: int,
    upper: int,
    heaviest: nat,
    n: nat,
)
    requires
        n <= weights.len(),
        lower < upper,
        forall|i: int| 0 <= i < weights.len() ==> (#[trigger] weights[i]).0 <= heaviest,
    ensures
        weight_within(weights, offset, lower, upper, n) < upper - lower + heaviest,
        weight_within(weights, offset, lower, upper, n) > 0 ==> n > 0 && weight_within(
            weights,
            offset,
            lower,
            upper,
            n,
        ) <= cumulative(weights, offset, n - 1) - lower + heaviest,
    decreases n,
{
    if n > 0 {
        lemma_weight_within_bounded(weights, offset, lower, upper, heaviest, (n - 1) as nat);
        lemma_sum_take_step(weights, n - 1, weight_of());
        if n > 1 {
            assert(cumulative(weights, offset, n - 1) == cumulative(weights, offset, n - 2)
                + weights[n - 1].0);
        }
    }
}

/// The blocks that a process gives to the process before it: those whose
/// cumulative weight lies in the target interval of that process. The first
/// process gives none.
pub open spec fn donation(
    blocks: Seq<Key>,
    weights: Seq<Weight>,
    rank: int,
    size: int,
    cumulative_weight: int,
    total: int,
) -> Seq<Key> {
    if rank == 0 {
        Seq::empty()
    } else {
        blocks_within(
            blocks,
            weights,
            cumulative_weight - total_weight(weights),
            target_lower(rank as nat, total as nat, size as nat) as int,
            target_upper(rank as nat, total as nat, size as nat) as int,
            blocks.len(),
        )
    }
}

/// Find the blocks to give to the previous process, so that the amount of
/// computation on each process is balanced.
///
/// `cumulative_weight` is the weight of the blocks of this process and of
/// all processes before it; `total` is the weight of all blocks.
pub fn donated_blocks(
    weights: &[Weight],
    local_blocktree: &[Key],
    rank: i32,
    size: i32,
    cumulative_weight: u64,
    total: u64,
) -> (q: Keys)
    requires
        0 <= rank < size,
        weights@.len() == local_blocktree@.len(),
        total_weight(weights@) <= cumulative_weight,
    ensures
        q@ == donation(
            local_blocktree@,
            weights@,
            rank as int,
            size as int,
            cumulative_weight as int,
            total as int,
        ),
{
    let mut q: Keys = Vec::new();
    if rank == 0 {
        return q;
    }
    let local = local_weight(weights);
    let offset = cumulative_weight - local;
    let bounds = target_interval(rank as u64, total, size as u64);
    let mut sum: u64 = 0;
    let mut i: usize = 0;
    proof {
        assert(weights@.take(0).len() == 0);
    }
    while i < local_blocktree.len()
        invariant
            i <= local_blocktree@.len(),
            weights@.len() == local_blocktree@.len(),
            total_weight(weights@) == local,
            offset + local == cumulative_weight,
            sum == total_weight(weights@.take(i as int)),
            q@ == blocks_within(
                local_blocktree@,
                weights@,
                offset as int,
                bounds.0 as int,
                bounds.1 as int,
                i as nat,
            ),
        decreases local_blocktree.len() - i,
    {
        proof {
            lemma_sum_take_step(weights@, i as int, weight_of());
            lemma_sum_prefix_le(weights@, i + 1, weight_of());
        }
        sum = sum + weights[i].0;
        let at: u128 = (sum + offset) as u128;
        if bounds.0 <= at && at < bounds.1 {
            q.push(local_blocktree[i]);
        }
        i = i + 1;
    }
    q
}

/// The place of the first `key` among the `keys`, or their number where
/// there is none.
pub open spec fn first_place(keys: Seq<Key>, key: Key) -> int
    decreases keys.len(),
{
    if keys.len() == 0 {
        0
    } else if keys[0] == key {
        0
    } else {
        1 + first_place(keys.drop_first(), key)
    }
}

/// The keys without the first of them that is `key`.
pub open spec fn without_first(keys: Seq<Key>, key: Key) -> Seq<Key> {
    if first_place(keys, key) < keys.len() {
        keys.remove(first_place(keys, key))
    } else {
        keys
    }
}

/// The keys without one occurrence of each of the first `n` of `sent`.
pub open spec fn without_each(keys: Seq<Key>, sent: Seq<Key>, n: nat) -> Seq<Key>
    decreases n,
{
    if n == 0 {
        keys
    } else {
        without_first(without_each(keys, sent, (n - 1) as nat), sent[n - 1])
    }
}

proof fn lemma_first_place(keys: Seq<Key>, key: Key, i: int)
    requires
        0 <= i <= keys.len(),
        forall|j: int| 0 <= j < i ==> keys[j] != key,
        i < keys.len() ==> keys[i] == key,
    ensures
        first_place(keys, key) == i,
    decreases i,
{
    if i > 0 {
        let rest = keys.drop_first();
        assert forall|j: int| 0 <= j < i - 1 implies rest[j] != key by {
            assert(rest[j] == keys[j + 1]);
        }
        lemma_first_place(rest, key, i - 1);
    }
}

/// Take the given blocks out of the local blocktree and take in the blocks
/// received.
pub fn exchange_blocks(local_blocktree: &mut Keys, sent: &[Key], received: &[Key])
    ensures
        final(local_blocktree)@ == without_each(old(local_blocktree)@, sent@, sent@.len()) + received@,
{
    let ghost given = local_blocktree@;
    let mut s: usize = 0;
    while s < sent.len()
        invariant
            s <= sent@.len(),
            local_blocktree@ == without_each(given, sent@, s as nat),
        decreases sent.len() - s,
    {
        let key = sent[s];
        let mut i: usize = 0;
        while i < local_blocktree.len() && local_blocktree[i] != key
            invariant
                i <= local_blocktree@.len(),
                forall|j: int| 0 <= j < i ==> local_blocktree@[j] != key,
            decreases local_blocktree.len() - i,
        {
            i = i + 1;
        }
        proof {
            lemma_first_place(local_blocktree@, key, i as int);
        }
        if i < local_blocktree.len() {
            local_blocktree.remove(i);
        }
        s = s + 1;
    }
    let mut r: usize = 0;
    let ghost kept = local_blocktree@;
    while r < received.len()
        invariant
            r <= received@.len(),
            local_blocktree@ == kept + received@.take(r as int),
        decreases received.len() - r,
    {
        local_blocktree.push(received[r]);
        proof {
            assert(received@.take(r + 1) =~= received@.take(r as int).push(received@[r as int]));
            assert(local_blocktree@ =~= kept + received@.take(r + 1));
        }
        r = r + 1;
    }
    proof {
        assert(received@.take(r as int) =~= received@);
    }
}

/// The leaves that are assigned to `block`.
pub open spec fn assigned_to(block: Key) -> spec_fn(Leaf) -> bool {
    |leaf: Leaf| leaf.block == block
}

/// The leaves of the first `n` of the `blocks`, block by block.
pub open spec fn leaves_of(blocks: Seq<Key>, leaves: Seq<Leaf>, n: nat) -> Seq<Leaf>
    decreases n,
{
    if n == 0 {
        Seq::empty()
    } else {
        leaves_of(blocks, leaves, (n - 1) as nat) + leaves.filter(assigned_to(blocks[n - 1]))
    }
}

/// The leaves that are assigned to none of the `blocks`.
pub open spec fn assigned_elsewhere(blocks: Seq<Key>) -> spec_fn(Leaf) -> bool {
    |leaf: Leaf| !blocks.contains(leaf.block)
}

/// Part the local leaves as their blocks were parted: first the leaves of
/// the blocks that were given away, block by block, then the leaves that
/// stay.
pub fn leaves_of_blocks(sent_blocks: &[Key], local_leaves: &[Leaf]) -> (parts: (Leaves, Leaves))
    ensures
        parts.0@ == leaves_of(sent_blocks@, local_leaves@, sent_blocks@.len()),
        parts.1@ == local_leaves@.filter(assigned_elsewhere(sent_blocks@)),
{
    let mut msg: Leaves = Vec::new();
    let mut b: usize = 0;
    while b < sent_blocks.len()
        invariant
            b <= sent_blocks@.len(),
            msg@ == leaves_of(sent_blocks@, local_leaves@, b as nat),
        decreases sent_blocks.len() - b,
    {
        let block = sent_blocks[b];
        let ghost chosen = assigned_to(block);
        let ghost before = msg@;
        let mut l: usize = 0;
        proof {
            local_leaves@.take(0).lemma_filter_len(chosen);
            assert(local_leaves@.take(0).filter(chosen) =~= Seq::<Leaf>::empty());
            assert(before + Seq::<Leaf>::empty() =~= before);
        }
        while l < local_leaves.len()
            invariant
                l <= local_leaves@.len(),
                chosen == assigned_to(block),
                msg@ == before + local_leaves@.take(l as int).filter(chosen),
            decreases local_leaves.len() - l,
        {
            proof {
                assert(local_leaves@.take(l + 1) =~= local_leaves@.take(l as int).push(
                    local_leaves@[l as int],
                ));
                local_leaves@.take(l as int).lemma_filter_push(local_leaves@[l as int], chosen);
            }
            if local_leaves[l].block == block {
                msg.push(local_leaves[l]);
                proof {
                    assert(msg@ =~= before + local_leaves@.take(l + 1).filter(chosen));
                }
            }
            l = l + 1;
        }
        proof {
            assert(local_leaves@.take(l as int) =~= local_leaves@);
        }
        b = b + 1;
    }
    // Remove these leaves from the local leaves
    let ghost stays = assigned_elsewhere(sent_blocks@);
    let mut kept: Leaves = Vec::new();
    let mut l: usize = 0;
    proof {
        local_leaves@.take(0).lemma_filter_len(stays);
        assert(local_leaves@.take(0).filter(stays) =~= Seq::<Leaf>::empty());
    }
    while l < local_leaves.len()
        invariant
            l <= local_leaves@.len(),
            stays == assigned_elsewhere(sent_blocks@),
            kept@ == local_leaves@.take(l as int).filter(stays),
        decreases local_leaves.len() - l,
    {
        proof {
            assert(local_leaves@.take(l + 1) =~= local_leaves@.take(l as int).push(
                local_leaves@[l as int],
            ));
            local_leaves@.take(l as int).lemma_filter_push(local_leaves@[l as int], stays);
        }
        if !contains_key(sent_blocks, &local_leaves[l].block) {
            kept.push(local_leaves[l]);
        }
        l = l + 1;
    }
    proof {
        assert(local_leaves@.take(l as int) =~= local_leaves@);
    }
    (msg, kept)
}

} // verus!
