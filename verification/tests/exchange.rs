use octree::balance::{
    donated_blocks, exchange_blocks, leaves_of_blocks, local_weight, target_interval,
};
use octree::blocktree::{
    add_first_seed, add_last_seed, blocktree_from_seeds, split_at_pivot, transfer_pivot,
};
use octree::cover::are_linear_seeds;
use octree::morton::{find_ancestors, Key, Keys, Leaf, Leaves, Point};
use octree::sample::{
    bucket_by_splitters, choose_splitters, find_bucket, gather_sorted, leaves_at, sample_leaves, K,
};
use octree::sorting::{is_sorted_by_key, is_strictly_sorted_by_key};
use octree::tree::{find_seeds, Weight};

fn single_leaf(key: Key) -> Leaf {
    Leaf { key, block: Key::default(), npoints: 1 }
}

fn leaf_in(key: Key, block: Key) -> Leaf {
    Leaf { key, block, npoints: 1 }
}

fn point(key: Key, global_idx: usize) -> Point {
    let mut point = Point::default();
    point.key = key;
    point.global_idx = global_idx;
    point
}

#[test]
fn samples_are_local_leaves() {
    let leaves: Leaves = (0..5u64).map(|i| single_leaf(Key(i, 0, 0, 3))).collect();
    let samples = sample_leaves(&leaves);
    assert_eq!(samples.len(), K);
    for sample in &samples {
        assert!(leaves.iter().any(|l| l.key == sample.key));
    }
    let picked = leaves_at(&leaves, &[4, 0, 0, 2]);
    let keys: Keys = picked.iter().map(|l| l.key).collect();
    assert_eq!(keys, vec![Key(4, 0, 0, 3), Key(0, 0, 0, 3), Key(0, 0, 0, 3), Key(2, 0, 0, 3)]);
}

#[test]
fn splitters_are_every_kth_sample_after_the_first_k() {
    // three processes, ten samples each, handed in out of order
    let mut samples: Leaves = (0..30u64).rev().map(|i| single_leaf(Key(0, 0, i, 5))).collect();
    let splitters = choose_splitters(&mut samples);
    assert!(is_sorted_by_key(&samples));
    let keys: Keys = splitters.iter().map(|l| l.key).collect();
    assert_eq!(keys, vec![Key(0, 0, 10, 5), Key(0, 0, 20, 5)]);
    // fewer samples than one process gives: no splitter
    let mut few: Leaves = (0..10u64).map(|i| single_leaf(Key(0, 0, i, 5))).collect();
    assert_eq!(choose_splitters(&mut few).len(), 0);
    let mut eleven: Leaves = (0..11u64).map(|i| single_leaf(Key(0, 0, i, 5))).collect();
    assert_eq!(choose_splitters(&mut eleven).len(), 1);
    let mut twenty_one: Leaves = (0..21u64).map(|i| single_leaf(Key(0, 0, i, 5))).collect();
    assert_eq!(choose_splitters(&mut twenty_one).len(), 2);
}

#[test]
fn two_rank_sort_parts_the_keys() {
    let a = Key(0, 0, 0, 3);
    let b = Key(7, 7, 7, 3);
    let local = vec![single_leaf(a), single_leaf(b)];
    // ten samples from each of two processes
    let places: Vec<usize> = (0..20).map(|i| i % 2).collect();
    let mut samples = leaves_at(&local, &places);
    let splitters = choose_splitters(&mut samples);
    assert_eq!(splitters.len(), 1);
    assert_eq!(splitters[0].key, b);
    let buckets = bucket_by_splitters(&local, &splitters);
    assert_eq!(buckets.len(), 2);
    let first: Keys = buckets[0].iter().map(|l| l.key).collect();
    let second: Keys = buckets[1].iter().map(|l| l.key).collect();
    assert_eq!(first, vec![a]);
    assert_eq!(second, vec![b]);
    // the points go where their leaves go
    let points = vec![point(b, 0), point(a, 1), point(b, 2)];
    let point_buckets = bucket_by_splitters(&points, &splitters);
    let first: Vec<usize> = point_buckets[0].iter().map(|p| p.global_idx).collect();
    let second: Vec<usize> = point_buckets[1].iter().map(|p| p.global_idx).collect();
    assert_eq!(first, vec![1]);
    assert_eq!(second, vec![0, 2]);
}

#[test]
fn buckets_are_ordered_among_themselves() {
    let splitters = vec![single_leaf(Key(2, 0, 0, 3)), single_leaf(Key(4, 0, 0, 3)), single_leaf(Key(4, 4, 0, 3))];
    let mut items: Leaves = Vec::new();
    for x in 0..8u64 {
        for y in [0u64, 3, 5] {
            items.push(single_leaf(Key(x, y, 7 - x, 3)));
        }
    }
    let buckets = bucket_by_splitters(&items, &splitters);
    assert_eq!(buckets.len(), 4);
    let total: usize = buckets.iter().map(|b| b.len()).sum();
    assert_eq!(total, items.len());
    for lower in 0..4 {
        for upper in (lower + 1)..4 {
            for first in &buckets[lower] {
                for second in &buckets[upper] {
                    assert!(first.key < second.key);
                }
            }
        }
    }
    assert_eq!(find_bucket(&Key(0, 0, 0, 3), &splitters), 0);
    assert_eq!(find_bucket(&Key(2, 0, 0, 3), &splitters), 1);
    assert_eq!(find_bucket(&Key(4, 3, 7, 3), &splitters), 2);
    assert_eq!(find_bucket(&Key(7, 7, 7, 3), &splitters), 3);
    assert_eq!(find_bucket(&Key(7, 7, 7, 3), &[]), 0);
}

#[test]
fn received_leaves_are_gathered_in_order() {
    let mut received = vec![single_leaf(Key(4, 0, 0, 3)), single_leaf(Key(1, 0, 0, 3))];
    let mut local = vec![single_leaf(Key(2, 0, 0, 3)), single_leaf(Key(0, 0, 0, 3))];
    gather_sorted(&mut received, &mut local);
    let keys: Keys = received.iter().map(|l| l.key).collect();
    assert_eq!(keys, vec![Key(0, 0, 0, 3), Key(1, 0, 0, 3), Key(2, 0, 0, 3), Key(4, 0, 0, 3)]);
    assert!(local.is_empty());
}

#[test]
fn leaves_below_the_least_seed_are_handed_over() {
    let leaves = vec![
        single_leaf(Key(0, 0, 1, 2)),
        single_leaf(Key(0, 2, 0, 2)),
        single_leaf(Key(2, 0, 0, 2)),
        single_leaf(Key(3, 3, 3, 2)),
    ];
    let seeds = vec![Key(2, 0, 0, 1), Key(0, 2, 0, 1)];
    let pivot = transfer_pivot(&leaves, &seeds, 1);
    assert_eq!(pivot, Key(0, 2, 0, 1));
    let (below, rest) = split_at_pivot(&leaves, &pivot);
    let below: Keys = below.iter().map(|l| l.key).collect();
    let rest: Keys = rest.iter().map(|l| l.key).collect();
    assert_eq!(below, vec![Key(0, 0, 1, 2)]);
    assert_eq!(rest, vec![Key(0, 2, 0, 2), Key(2, 0, 0, 2), Key(3, 3, 3, 2)]);
    // the first process keeps all its leaves
    let pivot = transfer_pivot(&leaves, &seeds, 0);
    assert_eq!(pivot, Key(0, 0, 1, 2));
    let (below, rest) = split_at_pivot(&leaves, &pivot);
    assert!(below.is_empty());
    assert_eq!(rest.len(), 4);
}

#[test]
fn blocktree_of_one_process_covers_the_domain_once() {
    let depth = 3;
    let leaves: Leaves = vec![
        single_leaf(Key(1, 2, 3, 3)),
        single_leaf(Key(2, 6, 1, 3)),
        single_leaf(Key(5, 0, 4, 3)),
        single_leaf(Key(6, 6, 1, 3)),
    ];
    let mut seeds = find_seeds(&leaves, &depth);
    assert_eq!(
        seeds,
        vec![Key(0, 0, 4, 1), Key(0, 4, 0, 1), Key(0, 4, 4, 1), Key(4, 0, 0, 1), Key(4, 0, 4, 1)]
    );
    let first = add_first_seed(&mut seeds, &depth);
    assert_eq!(first, Key(0, 0, 0, 1));
    let last = add_last_seed(&mut seeds, &depth);
    assert_eq!(last, Key(4, 4, 4, 1));
    assert_eq!(seeds.len(), 7);
    assert!(is_strictly_sorted_by_key(&seeds));
    // a seed that is there already does not join a second time
    assert_eq!(add_first_seed(&mut seeds, &depth), Key(0, 0, 0, 1));
    assert_eq!(add_last_seed(&mut seeds, &depth), Key(4, 4, 4, 1));
    assert_eq!(seeds.len(), 7);
    let blocktree = blocktree_from_seeds(&seeds, &depth, true);
    assert!(is_strictly_sorted_by_key(&blocktree));
    for x in 0..8u64 {
        for y in 0..8u64 {
            for z in 0..8u64 {
                let cell = Key(x, y, z, 3);
                let mut chain = find_ancestors(&cell, &depth);
                chain.push(cell);
                let hits = chain.iter().filter(|k| blocktree.contains(k)).count();
                assert_eq!(hits, 1);
            }
        }
    }
    // a process that is not the last leaves its last seed to the next
    let open = blocktree_from_seeds(&seeds, &depth, false);
    assert_eq!(open.len() + 1, blocktree.len());
    assert!(!open.contains(&last));
}

#[test]
fn targets_tile_the_cumulative_weights() {
    // 11 units on 4 processes: share 3, surplus 3
    assert_eq!(target_interval(1, 11, 4), (0, 4));
    assert_eq!(target_interval(2, 11, 4), (4, 8));
    assert_eq!(target_interval(3, 11, 4), (8, 12));
    assert_eq!(target_interval(4, 11, 4), (12, 15));
    // 12 units on 4 processes: share 3, no surplus
    assert_eq!(target_interval(1, 12, 4), (0, 3));
    assert_eq!(target_interval(4, 12, 4), (9, 12));
    assert_eq!(target_interval(1, 0, 1), (0, 0));
    assert_eq!(local_weight(&[Weight(3), Weight(0), Weight(4)]), 7);
}

#[test]
fn blocks_in_the_target_of_the_previous_process_are_given_to_it() {
    // four processes with three blocks each; the weight is biased to the last
    let blocks: Vec<Keys> = (0..4u64)
        .map(|r| (0..3u64).map(|i| Key(r, i, 0, 3)).collect())
        .collect();
    let weights: Vec<Vec<Weight>> = vec![
        vec![Weight(1), Weight(1), Weight(1)],
        vec![Weight(1), Weight(2), Weight(1)],
        vec![Weight(2), Weight(2), Weight(2)],
        vec![Weight(4), Weight(4), Weight(3)],
    ];
    let total: u64 = 24;
    let size = 4;
    let mut cumulative = 0;
    let mut donations: Vec<Keys> = Vec::new();
    for rank in 0..4usize {
        cumulative += local_weight(&weights[rank]);
        donations.push(donated_blocks(
            &weights[rank],
            &blocks[rank],
            rank as i32,
            size,
            cumulative,
            total,
        ));
    }
    // targets: [0, 6), [6, 12), [12, 18), [18, 24)
    assert_eq!(donations[0], Vec::new());
    // cumulative weights on process 1: 4, 6, 7
    assert_eq!(donations[1], vec![Key(1, 0, 0, 3)]);
    // cumulative weights on process 2: 9, 11, 13
    assert_eq!(donations[2], vec![Key(2, 0, 0, 3), Key(2, 1, 0, 3)]);
    // cumulative weights on process 3: 17, 21, 24
    assert_eq!(donations[3], vec![Key(3, 0, 0, 3)]);

    let mut held = blocks.clone();
    for rank in 0..4usize {
        let received: Keys = if rank + 1 < 4 { donations[rank + 1].clone() } else { Vec::new() };
        exchange_blocks(&mut held[rank], &donations[rank], &received);
    }
    assert_eq!(held[0], vec![Key(0, 0, 0, 3), Key(0, 1, 0, 3), Key(0, 2, 0, 3), Key(1, 0, 0, 3)]);
    assert_eq!(held[1], vec![Key(1, 1, 0, 3), Key(1, 2, 0, 3), Key(2, 0, 0, 3), Key(2, 1, 0, 3)]);
    assert_eq!(held[2], vec![Key(2, 2, 0, 3), Key(3, 0, 0, 3)]);
    assert_eq!(held[3], vec![Key(3, 1, 0, 3), Key(3, 2, 0, 3)]);
    // no process holds more than the share and the heaviest block
    let weight_of = |key: &Key| -> u64 { weights[key.0 as usize][key.1 as usize].0 };
    for rank in 0..4usize {
        let load: u64 = held[rank].iter().map(weight_of).sum();
        assert!(load <= 6 + 4);
    }
}

#[test]
fn blocks_leave_once_each() {
    let mut held = vec![Key(1, 0, 0, 3), Key(2, 0, 0, 3), Key(1, 0, 0, 3), Key(3, 0, 0, 3)];
    let sent = vec![Key(1, 0, 0, 3), Key(5, 0, 0, 3), Key(3, 0, 0, 3)];
    let received = vec![Key(7, 0, 0, 3)];
    exchange_blocks(&mut held, &sent, &received);
    assert_eq!(held, vec![Key(2, 0, 0, 3), Key(1, 0, 0, 3), Key(7, 0, 0, 3)]);
}

#[test]
fn leaves_follow_their_blocks() {
    let b1 = Key(0, 0, 0, 1);
    let b2 = Key(0, 0, 4, 1);
    let b3 = Key(4, 0, 0, 1);
    let leaves = vec![
        leaf_in(Key(0, 0, 0, 3), b1),
        leaf_in(Key(0, 0, 5, 3), b2),
        leaf_in(Key(1, 1, 1, 3), b1),
        leaf_in(Key(5, 0, 0, 3), b3),
        leaf_in(Key(1, 0, 6, 3), b2),
    ];
    let (sent, kept) = leaves_of_blocks(&[b2, b1], &leaves);
    let sent: Keys = sent.iter().map(|l| l.key).collect();
    let kept: Keys = kept.iter().map(|l| l.key).collect();
    assert_eq!(
        sent,
        vec![Key(0, 0, 5, 3), Key(1, 0, 6, 3), Key(0, 0, 0, 3), Key(1, 1, 1, 3)]
    );
    assert_eq!(kept, vec![Key(5, 0, 0, 3)]);
}

#[test]
fn one_leaf_on_the_last_process_gives_each_block_once() {
    let depth = 3;
    let leaves = vec![single_leaf(Key(5, 2, 6, 3))];
    let mut seeds = find_seeds(&leaves, &depth);
    assert_eq!(seeds, vec![Key(5, 2, 6, 3)]);
    let last = add_last_seed(&mut seeds, &depth);
    assert_eq!(last, Key(4, 4, 4, 1));
    assert_eq!(seeds, vec![Key(5, 2, 6, 3), Key(4, 4, 4, 1)]);
    let blocktree = blocktree_from_seeds(&seeds, &depth, true);
    assert!(is_strictly_sorted_by_key(&blocktree));
    assert_eq!(blocktree[0], Key(5, 2, 6, 3));
    assert_eq!(*blocktree.last().unwrap(), Key(4, 4, 4, 1));
    for (i, block) in blocktree.iter().enumerate() {
        for other in &blocktree[i + 1..] {
            assert!(block != other);
            assert!(!find_ancestors(other, &depth).contains(block));
        }
    }
    assert!(are_linear_seeds(&seeds, &depth));
    assert!(!are_linear_seeds(&[Key(4, 4, 4, 1), Key(5, 2, 6, 3)], &depth));
    assert!(!are_linear_seeds(&[Key(5, 2, 6, 3), Key(5, 2, 6, 3)], &depth));
    assert!(!are_linear_seeds(&[Key(5, 2, 6, 3), Key(0, 0, 0, 1)], &depth));
    assert!(!are_linear_seeds(&[Key(5, 2, 7, 2)], &depth));
    assert!(are_linear_seeds(&[], &depth));
    // the last seed where the greatest seed is the last cell of its parent
    let mut corner = vec![Key(4, 4, 4, 1)];
    assert_eq!(add_last_seed(&mut corner, &depth), Key(4, 4, 4, 1));
    assert_eq!(corner, vec![Key(4, 4, 4, 1)]);
    let mut origin = vec![Key(0, 0, 0, 1)];
    assert_eq!(add_first_seed(&mut origin, &depth), Key(0, 0, 0, 1));
    assert_eq!(origin, vec![Key(0, 0, 0, 1)]);
}
