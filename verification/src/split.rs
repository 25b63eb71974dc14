use vstd::prelude::*;
use crate::morton::{
    ancestor_at, contains_key, find_ancestor_at, find_children, key_child, lemma_child_wf, Key, Leaf,
    Leaves,
};
use crate::sums::{
    lemma_sum_add, lemma_sum_filter, lemma_sum_map, lemma_sum_monotone, lemma_sum_prefix_le,
    lemma_sum_take_step, restricted, weighted_sum,
};
use crate::tree::{leaf_points, total_points};

verus! {

/// One node of the final tree: the key of a block and the leaves that the
/// block owns.
#[derive(Clone, Debug)]
pub struct Node {
    pub key: Key,
    pub leaves: Leaves,
}

/// Type alias for a tree data structure: the blocks of a process, each with
/// its leaves. It stands for a mapping from block keys to leaves:
/// `lemma_split_distinct` says when no key occurs twice.
pub type Tree = Vec<Node>;

/// A node as a pair of its key and its leaves.
pub open spec fn node_view(node: Node) -> (Key, Seq<Leaf>) {
    (node.key, node.leaves@)
}

/// A tree as the sequence of its nodes.
pub open spec fn tree_view(tree: Seq<Node>) -> Seq<(Key, Seq<Leaf>)> {
    tree.map_values(|node: Node| node_view(node))
}

/// The leaves that lie inside `cell`.
pub open spec fn inside(cell: Key, depth: u64) -> spec_fn(Leaf) -> bool {
    |leaf: Leaf| ancestor_at(leaf.key, cell.3, depth) == cell
}

/// A leaf handed to `cell`.
pub open spec fn handed_to(cell: Key) -> spec_fn(Leaf) -> Leaf {
    |leaf: Leaf| Leaf { key: leaf.key, block: cell, npoints: leaf.npoints }
}

/// Those of the leaves that lie inside `cell`, handed to it.
pub open spec fn leaves_inside(leaves: Seq<Leaf>, cell: Key, depth: u64) -> Seq<Leaf> {
    leaves.filter(inside(cell, depth)).map_values(handed_to(cell))
}

/// The adaptive subdivision of one block: the block itself where it holds
/// at most `ncrit` points or lies at the deepest level, else the
/// subdivisions of those of its children that hold a leaf.
pub open spec fn subdivide(block: Key, leaves: Seq<Leaf>, depth: u64, ncrit: usize) -> Seq<
    (Key, Seq<Leaf>),
>
    decreases depth - block.3, 9nat,
{
    if total_points(leaves) <= ncrit || block.3 >= depth {
        seq![(block, leaves)]
    } else {
        subdivide_children(block, leaves, depth, ncrit, 8)
    }
}

/// The subdivisions of the first `n` children of a block.
pub open spec fn subdivide_children(
    block: Key,
    leaves: Seq<Leaf>,
    depth: u64,
    ncrit: usize,
    n: nat,
) -> Seq<(Key, Seq<Leaf>)>
    decreases depth - block.3, n,
{
    if n == 0 || n > 8 || block.3 >= depth {
        Seq::empty()
    } else {
        let before = subdivide_children(block, leaves, depth, ncrit, (n - 1) as nat);
        let child = key_child(block, n - 1, depth);
        let part = leaves_inside(leaves, child, depth);
        if part.len() == 0 {
            before
        } else {
            before + subdivide(child, part, depth, ncrit)
        }
    }
}

/// The blocks of the leaves: the first `n` leaves' blocks, each once, in the
/// order in which they first occur.
pub open spec fn blocks_of(leaves: Seq<Leaf>, n: nat) -> Seq<Key>
    decreases n,
{
    if n == 0 {
        Seq::empty()
    } else {
        let before = blocks_of(leaves, (n - 1) as nat);
        if before.contains(leaves[n - 1].block) {
            before
        } else {
            before.push(leaves[n - 1].block)
        }
    }
}

/// The subdivisions of the first `n` of the `blocks`, each with the leaves
/// that are assigned to it.
pub open spec fn split_upto(
    leaves: Seq<Leaf>,
    blocks: Seq<Key>,
    depth: u64,
    ncrit: usize,
    n: nat,
) -> Seq<(Key, Seq<Leaf>)>
    decreases n,
{
    if n == 0 {
        Seq::empty()
    } else {
        split_upto(leaves, blocks, depth, ncrit, (n - 1) as nat) + subdivide(
            blocks[n - 1],
            leaves.filter(crate::balance::assigned_to(blocks[n - 1])),
            depth,
            ncrit,
        )
    }
}

/// The final tree of a process: each block of the leaves subdivided until
/// no cell above the deepest level holds more than `ncrit` points.
pub open spec fn split_spec(leaves: Seq<Leaf>, depth: u64, ncrit: usize) -> Seq<(Key, Seq<Leaf>)> {
    let blocks = blocks_of(leaves, leaves.len());
    split_upto(leaves, blocks, depth, ncrit, blocks.len())
}

/// Whether the leaves hold more than `ncrit` points together.
pub fn exceeds(leaves: &Leaves, ncrit: usize) -> (over: bool)
    ensures
        over == (total_points(leaves@) > ncrit),
{
    let mut npoints: usize = 0;
    let mut i: usize = 0;
    proof {
        assert(leaves@.take(0).len() == 0);
    }
    while i < leaves.len()
        invariant
            i <= leaves@.len(),
            npoints == total_points(leaves@.take(i as int)),
            npoints <= ncrit,
        decreases leaves.len() - i,
    {
        proof {
            lemma_sum_take_step(leaves@, i as int, leaf_points());
            lemma_sum_prefix_le(leaves@, i + 1, leaf_points());
        }
        if leaves[i].npoints > ncrit - npoints {
            return true;
        }
        npoints = npoints + leaves[i].npoints;
        i = i + 1;
    }
    proof {
        assert(leaves@.take(i as int) =~= leaves@);
    }
    false
}

/// Those of the leaves that lie inside `cell`, handed to it.
fn collect_inside(leaves: &Leaves, cell: &Key, depth: &u64) -> (part: Leaves)
    requires
        cell.3 <= *depth,
        forall|i: int| 0 <= i < leaves@.len() ==> (#[trigger] leaves@[i]).key.wf(*depth),
    ensures
        part@ == leaves_inside(leaves@, *cell, *depth),
        forall|i: int| 0 <= i < part@.len() ==> (#[trigger] part@[i]).key.wf(*depth),
{
    let ghost lies = inside(*cell, *depth);
    let ghost hand = handed_to(*cell);
    let mut part: Leaves = Vec::new();
    let mut i: usize = 0;
    proof {
        leaves@.take(0).lemma_filter_len(lies);
        assert(leaves@.take(0).filter(lies).map_values(hand) =~= Seq::<Leaf>::empty());
    }
    while i < leaves.len()
        invariant
            i <= leaves@.len(),
            cell.3 <= *depth,
            forall|j: int| 0 <= j < leaves@.len() ==> (#[trigger] leaves@[j]).key.wf(*depth),
            lies == inside(*cell, *depth),
            hand == handed_to(*cell),
            part@ == leaves@.take(i as int).filter(lies).map_values(hand),
            forall|j: int| 0 <= j < part@.len() ==> (#[trigger] part@[j]).key.wf(*depth),
        decreases leaves.len() - i,
    {
        let leaf = leaves[i];
        proof {
            assert(leaves@.take(i + 1) =~= leaves@.take(i as int).push(leaf));
            leaves@.take(i as int).lemma_filter_push(leaf, lies);
        }
        let ancestor = find_ancestor_at(&leaf.key, cell.3, depth);
        if ancestor == *cell {
            part.push(Leaf { key: leaf.key, block: *cell, npoints: leaf.npoints });
            proof {
                assert(leaves@.take(i as int).filter(lies).push(leaf).map_values(hand)
                    =~= leaves@.take(i as int).filter(lies).map_values(hand).push(hand(leaf)));
            }
        }
        i = i + 1;
    }
    proof {
        assert(leaves@.take(i as int) =~= leaves@);
    }
    part
}

/// Subdivide one block and add what that gives to the tree.
fn subdivide_into(block: Key, leaves: Leaves, depth: &u64, ncrit: &usize, tree: &mut Tree)
    requires
        block.wf(*depth),
        forall|i: int| 0 <= i < leaves@.len() ==> (#[trigger] leaves@[i]).key.wf(*depth),
    ensures
        tree_view(final(tree)@) == tree_view(old(tree)@) + subdivide(
            block,
            leaves@,
            *depth,
            *ncrit,
        ),
    decreases *depth - block.3,
{
    let ghost given = tree@;
    if !exceeds(&leaves, *ncrit) || block.3 >= *depth {
        let ghost held = leaves@;
        tree.push(Node { key: block, leaves });
        proof {
            assert(tree_view(tree@) =~= tree_view(given) + seq![(block, held)]);
        }
    } else {
        let children = find_children(&block, depth);
        let mut n: usize = 0;
        proof {
            assert(tree_view(given) + Seq::<(Key, Seq<Leaf>)>::empty() =~= tree_view(given));
        }
        while n < 8
            invariant
                n <= 8,
                block.wf(*depth),
                block.3 < *depth,
                children@ == crate::morton::children_spec(block, *depth),
                forall|i: int| 0 <= i < leaves@.len() ==> (#[trigger] leaves@[i]).key.wf(*depth),
                tree_view(tree@) == tree_view(given) + subdivide_children(
                    block,
                    leaves@,
                    *depth,
                    *ncrit,
                    n as nat,
                ),
            decreases 8 - n,
        {
            let child = children[n];
            proof {
                lemma_child_wf(block, n as int, *depth);
            }
            let part = collect_inside(&leaves, &child, depth);
            let ghost before = tree@;
            if part.len() > 0 {
                subdivide_into(child, part, depth, ncrit, tree);
            }
            proof {
                let done = subdivide_children(block, leaves@, *depth, *ncrit, n as nat);
                if part@.len() > 0 {
                    assert(tree_view(tree@) =~= tree_view(given) + (done + subdivide(
                        child,
                        part@,
                        *depth,
                        *ncrit,
                    )));
                }
            }
            n = n + 1;
        }
    }
}

/// Split **Blocks** to satisfy a maximum of NCRIT particles per node in the final octree
/// (sequential).
///
/// The leaves are grouped by their blocks. A block that holds more than
/// `ncrit` points is replaced by those of its children that hold a leaf,
/// and so on; a cell of the deepest level is never split.
///
/// Each leaf lies at the deepest level, inside its block:
/// `lie_in_their_blocks` is there to find out. No leaf is lost, and where
/// no block of the leaves encloses another, no key stands twice in the tree.
pub fn split_blocks(local_leaves: &mut Leaves, depth: &u64, ncrit: &usize) -> (blocks: Tree)
    requires
        leaves_in_their_blocks(old(local_leaves)@, *depth),
    ensures
        final(local_leaves)@ == old(local_leaves)@,
        tree_view(blocks@) == split_spec(old(local_leaves)@, *depth, *ncrit),
        forall|i: int|
            0 <= i < blocks@.len() ==> within_limit(
                node_view(#[trigger] blocks@[i]),
                *depth,
                *ncrit,
            ),
        forall|i: int|
            0 <= i < blocks@.len() ==> (#[trigger] blocks@[i]).leaves@.len() > 0 && leaves_of_block(
                blocks@[i].leaves@,
                blocks@[i].key,
                *depth,
            ),
        tree_points(tree_view(blocks@)) == total_points(old(local_leaves)@),
        blocks_linear(old(local_leaves)@, *depth) ==> forall|i: int, j: int|
            0 <= i < j < blocks@.len() ==> (#[trigger] blocks@[i]).key != (#[trigger] blocks@[j]).key,
{
    proof {
        assert forall|i: int| 0 <= i < local_leaves@.len() implies (#[trigger] local_leaves@[i]).key.wf(
            *depth,
        ) && local_leaves@[i].block.wf(*depth) by {}
    }
    let mut keys: Vec<Key> = Vec::new();
    let mut i: usize = 0;
    while i < local_leaves.len()
        invariant
            i <= local_leaves@.len(),
            keys@ == blocks_of(local_leaves@, i as nat),
            forall|j: int| 0 <= j < local_leaves@.len() ==> (#[trigger] local_leaves@[j]).block.wf(*depth),
            forall|j: int| 0 <= j < keys@.len() ==> (#[trigger] keys@[j]).wf(*depth),
        decreases local_leaves.len() - i,
    {
        if !contains_key(keys.as_slice(), &local_leaves[i].block) {
            keys.push(local_leaves[i].block);
        }
        i = i + 1;
    }
    let mut blocks: Tree = Vec::new();
    let mut b: usize = 0;
    proof {
        assert(tree_view(blocks@) =~= Seq::<(Key, Seq<Leaf>)>::empty());
    }
    while b < keys.len()
        invariant
            b <= keys@.len(),
            keys@ == blocks_of(local_leaves@, local_leaves@.len()),
            forall|j: int| 0 <= j < local_leaves@.len() ==> (#[trigger] local_leaves@[j]).key.wf(*depth),
            forall|j: int| 0 <= j < keys@.len() ==> (#[trigger] keys@[j]).wf(*depth),
            tree_view(blocks@) == split_upto(local_leaves@, keys@, *depth, *ncrit, b as nat),
        decreases keys.len() - b,
    {
        let key = keys[b];
        let ghost chosen = crate::balance::assigned_to(key);
        let mut group: Leaves = Vec::new();
        let mut l: usize = 0;
        proof {
            local_leaves@.take(0).lemma_filter_len(chosen);
            assert(local_leaves@.take(0).filter(chosen) =~= Seq::<Leaf>::empty());
        }
        while l < local_leaves.len()
            invariant
                l <= local_leaves@.len(),
                chosen == crate::balance::assigned_to(key),
                forall|j: int| 0 <= j < local_leaves@.len() ==> (#[trigger] local_leaves@[j]).key.wf(*depth),
                group@ == local_leaves@.take(l as int).filter(chosen),
                forall|j: int| 0 <= j < group@.len() ==> (#[trigger] group@[j]).key.wf(*depth),
            decreases local_leaves.len() - l,
        {
            proof {
                assert(local_leaves@.take(l + 1) =~= local_leaves@.take(l as int).push(
                    local_leaves@[l as int],
                ));
                local_leaves@.take(l as int).lemma_filter_push(local_leaves@[l as int], chosen);
            }
            if local_leaves[l].block == key {
                group.push(local_leaves[l]);
            }
            l = l + 1;
        }
        proof {
            assert(local_leaves@.take(l as int) =~= local_leaves@);
        }
        subdivide_into(key, group, depth, ncrit, &mut blocks);
        b = b + 1;
    }
    proof {
        assert forall|i: int| 0 <= i < blocks@.len() implies within_limit(
            node_view(#[trigger] blocks@[i]),
            *depth,
            *ncrit,
        ) by {
            lemma_split_within_limit(local_leaves@, keys@, *depth, *ncrit, keys@.len(), i);
            assert(tree_view(blocks@)[i] == node_view(blocks@[i]));
        }
        assert forall|i: int| 0 <= i < blocks@.len() implies (#[trigger] blocks@[i]).leaves@.len()
            > 0 && leaves_of_block(blocks@[i].leaves@, blocks@[i].key, *depth) by {
            lemma_split_settled(local_leaves@, *depth, *ncrit, i);
            assert(tree_view(blocks@)[i] == node_view(blocks@[i]));
        }
        lemma_split_conserves(local_leaves@, *depth, *ncrit);
        if blocks_linear(local_leaves@, *depth) {
            assert forall|i: int, j: int| 0 <= i < j < blocks@.len() implies (#[trigger] blocks@[i]).key
                != (#[trigger] blocks@[j]).key by {
                lemma_split_distinct(local_leaves@, *depth, *ncrit, i, j);
                assert(tree_view(blocks@)[i] == node_view(blocks@[i]));
                assert(tree_view(blocks@)[j] == node_view(blocks@[j]));
            }
        }
    }
    blocks
}

/// Whether each leaf lies at the deepest level, inside its block.
pub fn lie_in_their_blocks(leaves: &[Leaf], depth: &u64) -> (all: bool)
    ensures
        all == leaves_in_their_blocks(leaves@, *depth),
{
    let mut i: usize = 0;
    while i < leaves.len()
        invariant
            i <= leaves@.len(),
            leaves_in_their_blocks(leaves@.take(i as int), *depth),
        decreases leaves.len() - i,
    {
        let leaf = leaves[i];
        if !crate::morton::is_valid_key(&leaf.key, depth) || leaf.key.3 != *depth
            || !crate::morton::is_valid_key(&leaf.block, depth) {
            return false;
        }
        let ancestor = find_ancestor_at(&leaf.key, leaf.block.3, depth);
        if ancestor != leaf.block {
            return false;
        }
        proof {
            let seen = leaves@.take(i + 1);
            assert forall|j: int| 0 <= j < seen.len() implies (#[trigger] seen[j]).key.wf(*depth)
                && seen[j].key.3 == *depth && seen[j].block.wf(*depth) && ancestor_at(
                seen[j].key,
                seen[j].block.3,
                *depth,
            ) == seen[j].block by {
                if j < i {
                    assert(leaves@.take(i as int)[j] == seen[j]);
                }
            }
        }
        i = i + 1;
    }
    proof {
        assert(leaves@.take(i as int) =~= leaves@);
    }
    true
}


/// The place of the block with the given key in the tree, if there is one;
/// the first of them where there are several.
pub fn find_block(tree: &Tree, key: &Key) -> (place: Option<usize>)
    ensures
        match place {
            Some(i) => i < tree@.len() && tree@[i as int].key == *key && forall|j: int|
                0 <= j < i ==> (#[trigger] tree@[j]).key != *key,
            None => forall|j: int| 0 <= j < tree@.len() ==> (#[trigger] tree@[j]).key != *key,
        },
{
    let mut i: usize = 0;
    while i < tree.len()
        invariant
            i <= tree@.len(),
            forall|j: int| 0 <= j < i ==> (#[trigger] tree@[j]).key != *key,
        decreases tree.len() - i,
    {
        if tree[i].key == *key {
            return Some(i);
        }
        i = i + 1;
    }
    None
}

/// The first block of the tree that holds more than `ncrit` points, if
/// there is one: a cell of the deepest level that is too full, for which
/// the tree is too shallow.
pub fn overfull_block(tree: &Tree, ncrit: usize) -> (found: Option<Key>)
    ensures
        match found {
            Some(key) => exists|i: int|
                {
                    &&& 0 <= i < tree@.len()
                    &&& (#[trigger] tree@[i]).key == key
                    &&& total_points(tree@[i].leaves@) > ncrit
                    &&& forall|j: int|
                        0 <= j < i ==> total_points((#[trigger] tree@[j]).leaves@) <= ncrit
                },
            None => forall|i: int|
                0 <= i < tree@.len() ==> total_points((#[trigger] tree@[i]).leaves@) <= ncrit,
        },
{
    let mut i: usize = 0;
    while i < tree.len()
        invariant
            i <= tree@.len(),
            forall|j: int| 0 <= j < i ==> total_points((#[trigger] tree@[j]).leaves@) <= ncrit,
        decreases tree.len() - i,
    {
        if exceeds(&tree[i].leaves, ncrit) {
            return Some(tree[i].key);
        }
        i = i + 1;
    }
    None
}

/// What holds of the leaves that a block is given: each lies at the
/// deepest level, inside the block, and is assigned to the block.
pub open spec fn leaves_of_block(leaves: Seq<Leaf>, block: Key, depth: u64) -> bool {
    forall|i: int|
        0 <= i < leaves.len() ==> (#[trigger] leaves[i]).key.wf(depth) && leaves[i].key.3 == depth
            && ancestor_at(leaves[i].key, block.3, depth) == block && leaves[i].block == block
}

/// What holds of a block of the final tree that came of `block`: it lies in
/// `block`, holds at least one leaf, holds only leaves that lie in it, and
/// holds at most `ncrit` points unless it is a cell of the deepest level.
pub open spec fn settled(node: (Key, Seq<Leaf>), block: Key, depth: u64, ncrit: usize) -> bool {
    &&& node.0.wf(depth)
    &&& block.3 <= node.0.3
    &&& ancestor_at(node.0, block.3, depth) == block
    &&& node.1.len() > 0
    &&& leaves_of_block(node.1, node.0, depth)
    &&& (total_points(node.1) <= ncrit || node.0.3 == depth)
}

proof fn lemma_leaves_inside(leaves: Seq<Leaf>, block: Key, child: Key, depth: u64)
    requires
        leaves_of_block(leaves, block, depth),
        child.3 <= depth,
    ensures
        leaves_of_block(leaves_inside(leaves, child, depth), child, depth),
{
    let lies = inside(child, depth);
    let kept = leaves.filter(lies);
    let part = leaves_inside(leaves, child, depth);
    assert forall|i: int| 0 <= i < part.len() implies (#[trigger] part[i]).key.wf(depth)
        && part[i].key.3 == depth && ancestor_at(part[i].key, child.3, depth) == child
        && part[i].block == child by {
        leaves.lemma_filter_pred(lies, i);
        assert(kept.contains(kept[i]));
        leaves.lemma_filter_contains_rev(lies, kept[i]);
        let j = choose|j: int| 0 <= j < leaves.len() && leaves[j] == kept[i];
        assert(leaves[j].key.wf(depth));
    }
}

/// Every block of the subdivision of `block` is settled.
pub proof fn lemma_subdivide_settled(
    block: Key,
    leaves: Seq<Leaf>,
    depth: u64,
    ncrit: usize,
    i: int,
)
    requires
        block.wf(depth),
        leaves.len() > 0,
        leaves_of_block(leaves, block, depth),
        0 <= i < subdivide(block, leaves, depth, ncrit).len(),
    ensures
        settled(subdivide(block, leaves, depth, ncrit)[i], block, depth, ncrit),
    decreases depth - block.3, 9nat,
{
    if total_points(leaves) <= ncrit || block.3 >= depth {
        crate::morton::lemma_ancestor_wf(block, block.3, depth);
    } else {
        lemma_children_settled(block, leaves, depth, ncrit, 8, i);
    }
}

proof fn lemma_children_settled(
    block: Key,
    leaves: Seq<Leaf>,
    depth: u64,
    ncrit: usize,
    n: nat,
    i: int,
)
    requires
        block.wf(depth),
        block.3 < depth,
        leaves_of_block(leaves, block, depth),
        n <= 8,
        0 <= i < subdivide_children(block, leaves, depth, ncrit, n).len(),
    ensures
        settled(subdivide_children(block, leaves, depth, ncrit, n)[i], block, depth, ncrit),
    decreases depth - block.3, n,
{
    if n > 0 {
        let before = subdivide_children(block, leaves, depth, ncrit, (n - 1) as nat);
        let child = key_child(block, n - 1, depth);
        let part = leaves_inside(leaves, child, depth);
        if i < before.len() {
            lemma_children_settled(block, leaves, depth, ncrit, (n - 1) as nat, i);
        } else {
            lemma_child_wf(block, n - 1, depth);
            lemma_leaves_inside(leaves, block, child, depth);
            let node = subdivide(child, part, depth, ncrit)[i - before.len()];
            lemma_subdivide_settled(child, part, depth, ncrit, i - before.len());
            crate::morton::lemma_ancestor_of_ancestor(node.0, block.3, child.3, depth);
        }
    }
}


/// A block of the final tree is a cell of the tree that holds at most
/// `ncrit` points, unless it is a cell of the deepest level.
pub open spec fn within_limit(node: (Key, Seq<Leaf>), depth: u64, ncrit: usize) -> bool {
    node.0.wf(depth) && (total_points(node.1) <= ncrit || node.0.3 == depth)
}

/// `cell` is `block` or lies inside it.
pub open spec fn lies_in(cell: Key, block: Key, depth: u64) -> bool {
    block.3 <= cell.3 && ancestor_at(cell, block.3, depth) == block
}

/// Every block of the subdivision of a block is within the limit.
pub proof fn lemma_subdivide_within_limit(
    block: Key,
    leaves: Seq<Leaf>,
    depth: u64,
    ncrit: usize,
    i: int,
)
    requires
        block.wf(depth),
        0 <= i < subdivide(block, leaves, depth, ncrit).len(),
    ensures
        within_limit(subdivide(block, leaves, depth, ncrit)[i], depth, ncrit),
        lies_in(subdivide(block, leaves, depth, ncrit)[i].0, block, depth),
    decreases depth - block.3, 9nat,
{
    if !(total_points(leaves) <= ncrit || block.3 >= depth) {
        lemma_children_within_limit(block, leaves, depth, ncrit, 8, i);
    } else {
        crate::morton::lemma_ancestor_wf(block, block.3, depth);
    }
}

proof fn lemma_children_within_limit(
    block: Key,
    leaves: Seq<Leaf>,
    depth: u64,
    ncrit: usize,
    n: nat,
    i: int,
)
    requires
        block.wf(depth),
        block.3 < depth,
        n <= 8,
        0 <= i < subdivide_children(block, leaves, depth, ncrit, n).len(),
    ensures
        within_limit(subdivide_children(block, leaves, depth, ncrit, n)[i], depth, ncrit),
        lies_in(subdivide_children(block, leaves, depth, ncrit, n)[i].0, block, depth),
        exists|m: int|
            0 <= m < n && lies_in(
                subdivide_children(block, leaves, depth, ncrit, n)[i].0,
                #[trigger] key_child(block, m, depth),
                depth,
            ),
    decreases depth - block.3, n,
{
    if n > 0 {
        let before = subdivide_children(block, leaves, depth, ncrit, (n - 1) as nat);
        let child = key_child(block, n - 1, depth);
        let part = leaves_inside(leaves, child, depth);
        if i < before.len() {
            lemma_children_within_limit(block, leaves, depth, ncrit, (n - 1) as nat, i);
            let node = subdivide_children(block, leaves, depth, ncrit, (n - 1) as nat)[i];
            let m = choose|m: int|
                0 <= m < n - 1 && lies_in(node.0, #[trigger] key_child(block, m, depth), depth);
            assert(lies_in(node.0, key_child(block, m, depth), depth));
        } else {
            lemma_child_wf(block, n - 1, depth);
            lemma_subdivide_within_limit(child, part, depth, ncrit, i - before.len());
            let node = subdivide(child, part, depth, ncrit)[i - before.len()];
            crate::morton::lemma_ancestor_of_ancestor(node.0, block.3, child.3, depth);
            assert(lies_in(node.0, key_child(block, n - 1, depth), depth));
        }
    }
}

/// Every block of the final tree is within the limit.
pub proof fn lemma_split_within_limit(
    leaves: Seq<Leaf>,
    blocks: Seq<Key>,
    depth: u64,
    ncrit: usize,
    n: nat,
    i: int,
)
    requires
        n <= blocks.len(),
        forall|j: int| 0 <= j < blocks.len() ==> (#[trigger] blocks[j]).wf(depth),
        0 <= i < split_upto(leaves, blocks, depth, ncrit, n).len(),
    ensures
        within_limit(split_upto(leaves, blocks, depth, ncrit, n)[i], depth, ncrit),
    decreases n,
{
    if n > 0 {
        let before = split_upto(leaves, blocks, depth, ncrit, (n - 1) as nat);
        if i < before.len() {
            lemma_split_within_limit(leaves, blocks, depth, ncrit, (n - 1) as nat, i);
        } else {
            lemma_subdivide_within_limit(
                blocks[n - 1],
                leaves.filter(crate::balance::assigned_to(blocks[n - 1])),
                depth,
                ncrit,
                i - before.len(),
            );
        }
    }
}


/// No two blocks of the subdivision of a block have one key.
pub proof fn lemma_subdivide_distinct(
    block: Key,
    leaves: Seq<Leaf>,
    depth: u64,
    ncrit: usize,
    i: int,
    j: int,
)
    requires
        block.wf(depth),
        0 <= i < j < subdivide(block, leaves, depth, ncrit).len(),
    ensures
        subdivide(block, leaves, depth, ncrit)[i].0 != subdivide(block, leaves, depth, ncrit)[j].0,
    decreases depth - block.3, 9nat,
{
    if !(total_points(leaves) <= ncrit || block.3 >= depth) {
        lemma_children_distinct_keys(block, leaves, depth, ncrit, 8, i, j);
    }
}

proof fn lemma_children_distinct_keys(
    block: Key,
    leaves: Seq<Leaf>,
    depth: u64,
    ncrit: usize,
    n: nat,
    i: int,
    j: int,
)
    requires
        block.wf(depth),
        block.3 < depth,
        n <= 8,
        0 <= i < j < subdivide_children(block, leaves, depth, ncrit, n).len(),
    ensures
        subdivide_children(block, leaves, depth, ncrit, n)[i].0 != subdivide_children(
            block,
            leaves,
            depth,
            ncrit,
            n,
        )[j].0,
    decreases depth - block.3, n,
{
    if n > 0 {
        let before = subdivide_children(block, leaves, depth, ncrit, (n - 1) as nat);
        let child = key_child(block, n - 1, depth);
        let part = leaves_inside(leaves, child, depth);
        lemma_child_wf(block, n - 1, depth);
        if j < before.len() {
            lemma_children_distinct_keys(block, leaves, depth, ncrit, (n - 1) as nat, i, j);
        } else if i >= before.len() {
            lemma_subdivide_distinct(child, part, depth, ncrit, i - before.len(), j - before.len());
        } else {
            lemma_children_within_limit(block, leaves, depth, ncrit, (n - 1) as nat, i);
            lemma_subdivide_within_limit(child, part, depth, ncrit, j - before.len());
            let first = before[i].0;
            let second = subdivide(child, part, depth, ncrit)[j - before.len()].0;
            let m = choose|m: int|
                0 <= m < n - 1 && lies_in(first, #[trigger] key_child(block, m, depth), depth);
            lemma_child_wf(block, m, depth);
            crate::region::lemma_children_distinct(block, m, n - 1, depth);
        }
    }
}

/// The blocks of the leaves are different blocks.
pub proof fn lemma_blocks_of_distinct(leaves: Seq<Leaf>, n: nat)
    requires
        n <= leaves.len(),
    ensures
        blocks_of(leaves, n).no_duplicates(),
        forall|i: int|
            0 <= i < blocks_of(leaves, n).len() ==> exists|j: int|
                0 <= j < n && (#[trigger] leaves[j]).block == #[trigger] blocks_of(leaves, n)[i],
    decreases n,
{
    if n > 0 {
        lemma_blocks_of_distinct(leaves, (n - 1) as nat);
        let before = blocks_of(leaves, (n - 1) as nat);
        let all = blocks_of(leaves, n);
        assert forall|i: int| 0 <= i < all.len() implies exists|j: int|
            0 <= j < n && (#[trigger] leaves[j]).block == #[trigger] all[i] by {
            if i < before.len() {
                let j = choose|j: int|
                    0 <= j < n - 1 && (#[trigger] leaves[j]).block == before[i];
                assert(leaves[j].block == all[i]);
            } else {
                assert(leaves[n - 1].block == all[i]);
            }
        }
    }
}

/// No block of the leaves encloses another of their blocks.
pub open spec fn blocks_linear(leaves: Seq<Leaf>, depth: u64) -> bool {
    forall|i: int, j: int|
        0 <= i < leaves.len() && 0 <= j < leaves.len() ==> !crate::morton::is_ancestor(
            (#[trigger] leaves[i]).block,
            (#[trigger] leaves[j]).block,
            depth,
        )
}

/// The final tree is a mapping: where no block of the leaves encloses
/// another, no two blocks of the tree have one key.
pub proof fn lemma_split_distinct(leaves: Seq<Leaf>, depth: u64, ncrit: usize, i: int, j: int)
    requires
        forall|l: int| 0 <= l < leaves.len() ==> (#[trigger] leaves[l]).block.wf(depth),
        blocks_linear(leaves, depth),
        0 <= i < j < split_spec(leaves, depth, ncrit).len(),
    ensures
        split_spec(leaves, depth, ncrit)[i].0 != split_spec(leaves, depth, ncrit)[j].0,
{
    let blocks = blocks_of(leaves, leaves.len());
    lemma_blocks_of_distinct(leaves, leaves.len());
    assert forall|a: int| 0 <= a < blocks.len() implies (#[trigger] blocks[a]).wf(depth) by {
        let l = choose|l: int| 0 <= l < leaves.len() && (#[trigger] leaves[l]).block == blocks[a];
    }
    assert forall|a: int, b: int| 0 <= a < blocks.len() && 0 <= b < blocks.len() implies !crate::morton::is_ancestor(
        #[trigger] blocks[a],
        #[trigger] blocks[b],
        depth,
    ) by {
        let l = choose|l: int| 0 <= l < leaves.len() && (#[trigger] leaves[l]).block == blocks[a];
        let m = choose|m: int| 0 <= m < leaves.len() && (#[trigger] leaves[m]).block == blocks[b];
        assert(!crate::morton::is_ancestor(leaves[l].block, leaves[m].block, depth));
    }
    lemma_upto_distinct(leaves, blocks, depth, ncrit, blocks.len(), i, j);
}

proof fn lemma_upto_source(
    leaves: Seq<Leaf>,
    blocks: Seq<Key>,
    depth: u64,
    ncrit: usize,
    n: nat,
    i: int,
) -> (b: int)
    requires
        n <= blocks.len(),
        forall|a: int| 0 <= a < blocks.len() ==> (#[trigger] blocks[a]).wf(depth),
        0 <= i < split_upto(leaves, blocks, depth, ncrit, n).len(),
    ensures
        0 <= b < n,
        lies_in(split_upto(leaves, blocks, depth, ncrit, n)[i].0, blocks[b], depth),
        split_upto(leaves, blocks, depth, ncrit, n)[i].0.wf(depth),
    decreases n,
{
    let before = split_upto(leaves, blocks, depth, ncrit, (n - 1) as nat);
    if i < before.len() {
        lemma_upto_source(leaves, blocks, depth, ncrit, (n - 1) as nat, i)
    } else {
        lemma_subdivide_within_limit(
            blocks[n - 1],
            leaves.filter(crate::balance::assigned_to(blocks[n - 1])),
            depth,
            ncrit,
            i - before.len(),
        );
        n - 1
    }
}

proof fn lemma_upto_distinct(
    leaves: Seq<Leaf>,
    blocks: Seq<Key>,
    depth: u64,
    ncrit: usize,
    n: nat,
    i: int,
    j: int,
)
    requires
        n <= blocks.len(),
        blocks.no_duplicates(),
        forall|a: int| 0 <= a < blocks.len() ==> (#[trigger] blocks[a]).wf(depth),
        forall|a: int, b: int|
            0 <= a < blocks.len() && 0 <= b < blocks.len() ==> !crate::morton::is_ancestor(
                #[trigger] blocks[a],
                #[trigger] blocks[b],
                depth,
            ),
        0 <= i < j < split_upto(leaves, blocks, depth, ncrit, n).len(),
    ensures
        split_upto(leaves, blocks, depth, ncrit, n)[i].0 != split_upto(
            leaves,
            blocks,
            depth,
            ncrit,
            n,
        )[j].0,
    decreases n,
{
    let before = split_upto(leaves, blocks, depth, ncrit, (n - 1) as nat);
    let block = blocks[n - 1];
    let group = leaves.filter(crate::balance::assigned_to(block));
    if j < before.len() {
        lemma_upto_distinct(leaves, blocks, depth, ncrit, (n - 1) as nat, i, j);
    } else if i >= before.len() {
        lemma_subdivide_distinct(block, group, depth, ncrit, i - before.len(), j - before.len());
    } else {
        let source = lemma_upto_source(leaves, blocks, depth, ncrit, (n - 1) as nat, i);
        lemma_subdivide_within_limit(block, group, depth, ncrit, j - before.len());
        let first = before[i].0;
        let second = subdivide(block, group, depth, ncrit)[j - before.len()].0;
        if first == second {
            let other = blocks[source];
            assert(other != block);
            if other.3 <= block.3 {
                crate::morton::lemma_ancestor_of_ancestor(first, other.3, block.3, depth);
                crate::morton::lemma_ancestor_wf(block, block.3, depth);
                assert(crate::morton::is_ancestor(other, block, depth));
            } else {
                crate::morton::lemma_ancestor_of_ancestor(first, block.3, other.3, depth);
                assert(crate::morton::is_ancestor(block, other, depth));
            }
        }
    }
}


/// The number of points that the blocks hold together.
pub open spec fn tree_points(nodes: Seq<(Key, Seq<Leaf>)>) -> nat
    decreases nodes.len(),
{
    if nodes.len() == 0 {
        0
    } else {
        tree_points(nodes.drop_last()) + total_points(nodes.last().1)
    }
}

proof fn lemma_tree_points_concat(a: Seq<(Key, Seq<Leaf>)>, b: Seq<(Key, Seq<Leaf>)>)
    ensures
        tree_points(a + b) == tree_points(a) + tree_points(b),
    decreases b.len(),
{
    if b.len() == 0 {
        assert(a + b =~= a);
    } else {
        assert((a + b).drop_last() =~= a + b.drop_last());
        lemma_tree_points_concat(a, b.drop_last());
    }
}

/// The octant of `block` in which a leaf lies.
pub open spec fn octant_in(leaf: Leaf, block: Key, depth: u64) -> int {
    crate::morton::octant_of(ancestor_at(leaf.key, (block.3 + 1) as u64, depth), depth)
}

/// The leaves in the octants of `block` before the `n`-th.
pub open spec fn before_octant(block: Key, n: int, depth: u64) -> spec_fn(Leaf) -> bool {
    |leaf: Leaf| octant_in(leaf, block, depth) < n
}

proof fn lemma_inside_child(leaf: Leaf, block: Key, m: int, depth: u64)
    requires
        block.wf(depth),
        block.3 < depth,
        leaf.key.wf(depth),
        leaf.key.3 == depth,
        ancestor_at(leaf.key, block.3, depth) == block,
        0 <= m < 8,
    ensures
        0 <= octant_in(leaf, block, depth) < 8,
        inside(key_child(block, m, depth), depth)(leaf) <==> octant_in(leaf, block, depth) == m,
{
    let level = (block.3 + 1) as u64;
    let cell = ancestor_at(leaf.key, level, depth);
    crate::morton::lemma_ancestor_wf(leaf.key, level, depth);
    crate::morton::lemma_ancestor_of_ancestor(leaf.key, block.3, level, depth);
    crate::morton::lemma_child_of_parent(cell, depth);
    lemma_child_wf(block, m, depth);
    let n = octant_in(leaf, block, depth);
    if n != m {
        crate::region::lemma_children_distinct(block, n, m, depth);
    }
}

proof fn lemma_sum_same<T>(items: Seq<T>, first: spec_fn(T) -> nat, second: spec_fn(T) -> nat)
    requires
        forall|i: int| 0 <= i < items.len() ==> first(#[trigger] items[i]) == second(items[i]),
    ensures
        weighted_sum(items, first) == weighted_sum(items, second),
{
    lemma_sum_monotone(items, first, second);
    lemma_sum_monotone(items, second, first);
}

proof fn lemma_part_points(leaves: Seq<Leaf>, child: Key, depth: u64)
    ensures
        total_points(leaves_inside(leaves, child, depth)) == weighted_sum(
            leaves,
            restricted(leaf_points(), inside(child, depth)),
        ),
{
    let kept = leaves.filter(inside(child, depth));
    lemma_sum_map(kept, leaf_points(), handed_to(child));
    lemma_sum_filter(leaves, leaf_points(), inside(child, depth));
}

/// The subdivision of a block holds the points of its leaves, none lost
/// and none twice.
pub proof fn lemma_subdivide_conserves(block: Key, leaves: Seq<Leaf>, depth: u64, ncrit: usize)
    requires
        block.wf(depth),
        leaves_of_block(leaves, block, depth),
    ensures
        tree_points(subdivide(block, leaves, depth, ncrit)) == total_points(leaves),
    decreases depth - block.3, 9nat,
{
    if total_points(leaves) <= ncrit || block.3 >= depth {
        let nodes = seq![(block, leaves)];
        assert(nodes.drop_last() =~= Seq::<(Key, Seq<Leaf>)>::empty());
        assert(tree_points(nodes.drop_last()) == 0);
    } else {
        lemma_children_conserve(block, leaves, depth, ncrit, 8);
        assert forall|i: int| 0 <= i < leaves.len() implies restricted(
            leaf_points(),
            before_octant(block, 8, depth),
        )(#[trigger] leaves[i]) == leaf_points()(leaves[i]) by {
            lemma_inside_child(leaves[i], block, 0, depth);
        }
        lemma_sum_same(
            leaves,
            restricted(leaf_points(), before_octant(block, 8, depth)),
            leaf_points(),
        );
    }
}

proof fn lemma_children_conserve(block: Key, leaves: Seq<Leaf>, depth: u64, ncrit: usize, n: nat)
    requires
        block.wf(depth),
        block.3 < depth,
        leaves_of_block(leaves, block, depth),
        n <= 8,
    ensures
        tree_points(subdivide_children(block, leaves, depth, ncrit, n)) == weighted_sum(
            leaves,
            restricted(leaf_points(), before_octant(block, n as int, depth)),
        ),
    decreases depth - block.3, n,
{
    let here = restricted(leaf_points(), before_octant(block, n as int, depth));
    if n == 0 {
        assert forall|i: int| 0 <= i < leaves.len() implies here(#[trigger] leaves[i]) == 0 by {
            lemma_inside_child(leaves[i], block, 0, depth);
        }
        crate::sums::lemma_sum_bounded(leaves, here, 0);
        assert(leaves.len() * 0 == 0) by (nonlinear_arith);
    } else {
        let before = subdivide_children(block, leaves, depth, ncrit, (n - 1) as nat);
        let child = key_child(block, n - 1, depth);
        let part = leaves_inside(leaves, child, depth);
        let earlier = restricted(leaf_points(), before_octant(block, n - 1, depth));
        let this = restricted(leaf_points(), inside(child, depth));
        lemma_children_conserve(block, leaves, depth, ncrit, (n - 1) as nat);
        lemma_part_points(leaves, child, depth);
        assert forall|i: int| 0 <= i < leaves.len() implies here(#[trigger] leaves[i]) == earlier(
            leaves[i],
        ) + this(leaves[i]) by {
            lemma_inside_child(leaves[i], block, n - 1, depth);
        }
        lemma_sum_add(leaves, earlier, this, here);
        if part.len() > 0 {
            lemma_child_wf(block, n - 1, depth);
            lemma_leaves_inside(leaves, block, child, depth);
            lemma_subdivide_conserves(child, part, depth, ncrit);
            lemma_tree_points_concat(before, subdivide(child, part, depth, ncrit));
        }
    }
}

/// Each leaf lies at the deepest level, inside its block.
pub open spec fn leaves_in_their_blocks(leaves: Seq<Leaf>, depth: u64) -> bool {
    forall|i: int|
        0 <= i < leaves.len() ==> (#[trigger] leaves[i]).key.wf(depth) && leaves[i].key.3 == depth
            && leaves[i].block.wf(depth) && ancestor_at(leaves[i].key, leaves[i].block.3, depth)
            == leaves[i].block
}

/// The leaves that are assigned to a block are leaves of that block.
proof fn lemma_group_of_block(leaves: Seq<Leaf>, block: Key, depth: u64)
    requires
        leaves_in_their_blocks(leaves, depth),
    ensures
        leaves_of_block(leaves.filter(crate::balance::assigned_to(block)), block, depth),
{
    let chosen = crate::balance::assigned_to(block);
    let group = leaves.filter(chosen);
    assert forall|i: int| 0 <= i < group.len() implies (#[trigger] group[i]).key.wf(depth)
        && group[i].key.3 == depth && ancestor_at(group[i].key, block.3, depth) == block
        && group[i].block == block by {
        leaves.lemma_filter_pred(chosen, i);
        assert(group.contains(group[i]));
        leaves.lemma_filter_contains_rev(chosen, group[i]);
        let l = choose|l: int| 0 <= l < leaves.len() && leaves[l] == group[i];
        assert(leaves[l].key.wf(depth));
    }
}

/// Every block of the final tree holds at least one leaf, holds only
/// leaves that lie in it and are assigned to it, and is within the limit,
/// where each leaf lies inside its block.
pub proof fn lemma_split_settled(leaves: Seq<Leaf>, depth: u64, ncrit: usize, i: int)
    requires
        leaves_in_their_blocks(leaves, depth),
        0 <= i < split_spec(leaves, depth, ncrit).len(),
    ensures
        split_spec(leaves, depth, ncrit)[i].1.len() > 0,
        leaves_of_block(
            split_spec(leaves, depth, ncrit)[i].1,
            split_spec(leaves, depth, ncrit)[i].0,
            depth,
        ),
        within_limit(split_spec(leaves, depth, ncrit)[i], depth, ncrit),
{
    let blocks = blocks_of(leaves, leaves.len());
    lemma_blocks_of_distinct(leaves, leaves.len());
    assert forall|a: int| 0 <= a < blocks.len() implies (#[trigger] blocks[a]).wf(depth) by {
        let l = choose|l: int| 0 <= l < leaves.len() && (#[trigger] leaves[l]).block == blocks[a];
    }
    lemma_upto_settled(leaves, blocks, depth, ncrit, blocks.len(), i);
}

proof fn lemma_upto_settled(
    leaves: Seq<Leaf>,
    blocks: Seq<Key>,
    depth: u64,
    ncrit: usize,
    n: nat,
    i: int,
)
    requires
        leaves_in_their_blocks(leaves, depth),
        n <= blocks.len(),
        forall|a: int| 0 <= a < blocks.len() ==> (#[trigger] blocks[a]).wf(depth),
        forall|a: int|
            0 <= a < blocks.len() ==> exists|l: int|
                0 <= l < leaves.len() && (#[trigger] leaves[l]).block == #[trigger] blocks[a],
        0 <= i < split_upto(leaves, blocks, depth, ncrit, n).len(),
    ensures
        split_upto(leaves, blocks, depth, ncrit, n)[i].1.len() > 0,
        leaves_of_block(
            split_upto(leaves, blocks, depth, ncrit, n)[i].1,
            split_upto(leaves, blocks, depth, ncrit, n)[i].0,
            depth,
        ),
        within_limit(split_upto(leaves, blocks, depth, ncrit, n)[i], depth, ncrit),
    decreases n,
{
    let before = split_upto(leaves, blocks, depth, ncrit, (n - 1) as nat);
    if i < before.len() {
        lemma_upto_settled(leaves, blocks, depth, ncrit, (n - 1) as nat, i);
    } else {
        let block = blocks[n - 1];
        let chosen = crate::balance::assigned_to(block);
        let group = leaves.filter(chosen);
        lemma_group_of_block(leaves, block, depth);
        let l = choose|l: int| 0 <= l < leaves.len() && (#[trigger] leaves[l]).block == block;
        leaves.lemma_filter_contains(chosen, l);
        lemma_subdivide_settled(block, group, depth, ncrit, i - before.len());
    }
}

/// The leaves whose block is among the first `n` of the `blocks`.
pub open spec fn block_among(blocks: Seq<Key>, n: int) -> spec_fn(Leaf) -> bool {
    |leaf: Leaf| blocks.take(n).contains(leaf.block)
}

proof fn lemma_upto_conserves(
    leaves: Seq<Leaf>,
    blocks: Seq<Key>,
    depth: u64,
    ncrit: usize,
    n: nat,
)
    requires
        leaves_in_their_blocks(leaves, depth),
        blocks.no_duplicates(),
        forall|a: int| 0 <= a < blocks.len() ==> (#[trigger] blocks[a]).wf(depth),
        n <= blocks.len(),
    ensures
        tree_points(split_upto(leaves, blocks, depth, ncrit, n)) == weighted_sum(
            leaves,
            restricted(leaf_points(), block_among(blocks, n as int)),
        ),
    decreases n,
{
    let here = restricted(leaf_points(), block_among(blocks, n as int));
    if n == 0 {
        assert(blocks.take(0) =~= Seq::<Key>::empty());
        assert forall|i: int| 0 <= i < leaves.len() implies here(#[trigger] leaves[i]) == 0 by {}
        crate::sums::lemma_sum_bounded(leaves, here, 0);
        assert(leaves.len() * 0 == 0) by (nonlinear_arith);
    } else {
        let block = blocks[n - 1];
        let chosen = crate::balance::assigned_to(block);
        let group = leaves.filter(chosen);
        let before = split_upto(leaves, blocks, depth, ncrit, (n - 1) as nat);
        let earlier = restricted(leaf_points(), block_among(blocks, n - 1));
        let this = restricted(leaf_points(), chosen);
        lemma_upto_conserves(leaves, blocks, depth, ncrit, (n - 1) as nat);
        assert(blocks.take(n as int) =~= blocks.take(n - 1).push(block));
        assert forall|i: int| 0 <= i < leaves.len() implies here(#[trigger] leaves[i]) == earlier(
            leaves[i],
        ) + this(leaves[i]) by {
            vstd::seq_lib::lemma_seq_contains_after_push(blocks.take(n - 1), block, leaves[i].block);
            let earlier_blocks = blocks.take(n - 1);
            if earlier_blocks.contains(block) {
                let a = choose|a: int| 0 <= a < earlier_blocks.len() && earlier_blocks[a] == block;
                assert(blocks[a] == blocks[n - 1]);
            }
        }
        lemma_sum_add(leaves, earlier, this, here);
        lemma_sum_filter(leaves, leaf_points(), chosen);
        lemma_group_of_block(leaves, block, depth);
        lemma_subdivide_conserves(block, group, depth, ncrit);
        lemma_tree_points_concat(before, subdivide(block, group, depth, ncrit));
    }
}

proof fn lemma_blocks_of_covers(leaves: Seq<Leaf>, n: nat, i: int)
    requires
        0 <= i < n <= leaves.len(),
    ensures
        blocks_of(leaves, n).contains(leaves[i].block),
    decreases n,
{
    let before = blocks_of(leaves, (n - 1) as nat);
    if i < n - 1 {
        lemma_blocks_of_covers(leaves, (n - 1) as nat, i);
        vstd::seq_lib::lemma_seq_contains_after_push(before, leaves[n - 1].block, leaves[i].block);
    } else if !before.contains(leaves[n - 1].block) {
        vstd::seq_lib::lemma_seq_contains_after_push(before, leaves[n - 1].block, leaves[i].block);
    }
}

/// The final tree holds the points of the leaves, none lost and none twice,
/// where each leaf lies inside its block.
pub proof fn lemma_split_conserves(leaves: Seq<Leaf>, depth: u64, ncrit: usize)
    requires
        leaves_in_their_blocks(leaves, depth),
    ensures
        tree_points(split_spec(leaves, depth, ncrit)) == total_points(leaves),
{
    let blocks = blocks_of(leaves, leaves.len());
    lemma_blocks_of_distinct(leaves, leaves.len());
    assert forall|a: int| 0 <= a < blocks.len() implies (#[trigger] blocks[a]).wf(depth) by {
        let l = choose|l: int| 0 <= l < leaves.len() && (#[trigger] leaves[l]).block == blocks[a];
    }
    lemma_upto_conserves(leaves, blocks, depth, ncrit, blocks.len());
    assert(blocks.take(blocks.len() as int) =~= blocks);
    assert forall|i: int| 0 <= i < leaves.len() implies restricted(
        leaf_points(),
        block_among(blocks, blocks.len() as int),
    )(#[trigger] leaves[i]) == leaf_points()(leaves[i]) by {
        lemma_blocks_of_covers(leaves, leaves.len(), i);
    }
    lemma_sum_same(
        leaves,
        restricted(leaf_points(), block_among(blocks, blocks.len() as int)),
        leaf_points(),
    );
}

} // verus!
