use octree::morton::{
    find_ancestors, find_children, find_finest_common_ancestor, Key, Keys, Leaf, Leaves,
};
use octree::sorting::{max_key, min_key};
use octree::split::{exceeds, find_block, overfull_block, split_blocks};
use octree::split::lie_in_their_blocks;
use octree::tree::{
    assign_blocks_to_leaves, complete_region, find_block_weights, find_seeds,
    have_enclosing_blocks, linearise, try_unique_leaves, unique_leaves,
};

fn leaf(key: Key, npoints: usize) -> Leaf {
    Leaf { key, block: Key::default(), npoints }
}

#[test]
fn test_complete_region() {
    let a = Key(0, 0, 0, 2);
    let b = Key(3, 3, 3, 2);
    let depth = 2;
    let result = complete_region(&a, &b, &depth);
    let fca = find_finest_common_ancestor(&a, &b, &depth);

    let min = min_key(&result).unwrap();
    let max = max_key(&result).unwrap();

    // Test that bounds are satisfied
    assert!(a <= min);
    assert!(b >= max);

    // Test that FCA is an ancestor of all nodes in the result
    for node in result.iter() {
        let ancestors = find_ancestors(&node, &depth);
        assert!(ancestors.contains(&fca));
    }
}

#[test]
fn test_unique() {
    let leaves: Leaves = vec![
        Leaf {
            key: Key(0, 0, 0, 1),
            block: Key::default(),
            npoints: 11,
        },
        Leaf {
            key: Key(0, 0, 0, 1),
            block: Key::default(),
            npoints: 12,
        },
        Leaf {
            key: Key(0, 0, 0, 1),
            block: Key::default(),
            npoints: 13,
        },
    ];

    let ncrit: usize = 50;

    let unique = unique_leaves(leaves, &ncrit, true);

    assert_eq!(unique[0].npoints, 36)
}

#[test]
fn test_linearise() {
    let key = Key(0, 0, 0, 1);
    let depth = 2;
    let mut children = find_children(&key, &depth);
    children.insert(0, key);

    let linearised = linearise(&mut children, &depth);

    assert!(!linearised.contains(&key));
    assert_eq!(linearised, find_children(&key, &depth));
}

#[test]
fn region_between_the_corners_of_a_small_tree() {
    let depth = 2;
    let a = Key(0, 0, 0, 2);
    let b = Key(3, 3, 3, 2);
    let region = complete_region(&a, &b, &depth);
    // the seven siblings of a, the six cells of level 1 between, the seven siblings of b
    let mut expected: Keys = Vec::new();
    for n in 1..8u64 {
        expected.push(Key(n / 4, (n / 2) % 2, n % 2, 2));
    }
    for n in 1..7u64 {
        expected.push(Key(2 * (n / 4), 2 * ((n / 2) % 2), 2 * (n % 2), 1));
    }
    for n in 0..7u64 {
        expected.push(Key(2 + n / 4, 2 + (n / 2) % 2, 2 + n % 2, 2));
    }
    assert_eq!(region, expected);
    // nothing lies between a key and itself, nor between keys in the wrong order
    assert_eq!(complete_region(&a, &a, &depth), Vec::new());
    assert_eq!(complete_region(&b, &a, &depth), Vec::new());
    // between a cell and one of its descendants
    assert_eq!(
        complete_region(&Key(0, 0, 0, 1), &Key(0, 0, 1, 2), &depth),
        vec![Key(0, 0, 0, 2)]
    );
}

#[test]
fn region_covers_every_cell_between_once() {
    let depth = 3;
    let a = Key(1, 2, 3, 3);
    let b = Key(6, 1, 4, 3);
    let region = complete_region(&a, &b, &depth);
    let mut covered: Vec<Key> = Vec::new();
    for x in 0..8u64 {
        for y in 0..8u64 {
            for z in 0..8u64 {
                let cell = Key(x, y, z, 3);
                let mut chain = find_ancestors(&cell, &depth);
                chain.push(cell);
                let hits = chain
                    .iter()
                    .filter(|k| region.contains(k) || **k == a || **k == b)
                    .count();
                if a <= cell && cell <= b {
                    assert_eq!(hits, 1);
                    covered.push(cell);
                } else {
                    assert_eq!(hits, 0);
                }
            }
        }
    }
    assert!(covered.len() > 2);
}

#[test]
fn unique_leaves_keeps_points_and_keys() {
    let leaves: Leaves = vec![
        leaf(Key(2, 2, 2, 2), 5),
        leaf(Key(0, 0, 0, 2), 1),
        leaf(Key(2, 2, 2, 2), 7),
        leaf(Key(1, 0, 0, 2), 3),
        leaf(Key(0, 0, 0, 2), 2),
    ];
    let ncrit = 12;
    let unique = unique_leaves(leaves.clone(), &ncrit, false);
    let keys: Vec<Key> = unique.iter().map(|l| l.key).collect();
    assert_eq!(keys, vec![Key(0, 0, 0, 2), Key(1, 0, 0, 2), Key(2, 2, 2, 2)]);
    let counts: Vec<usize> = unique.iter().map(|l| l.npoints).collect();
    assert_eq!(counts, vec![3, 3, 12]);
    let before: usize = leaves.iter().map(|l| l.npoints).sum();
    let after: usize = unique.iter().map(|l| l.npoints).sum();
    assert_eq!(before, after);
    assert_eq!(unique_leaves(Vec::new(), &ncrit, true), Vec::new());
}

#[test]
fn too_many_points_in_one_cell_are_refused() {
    // all 400 points in one corner of a tree of depth 3
    let depth_three_corner = Key(0, 0, 0, 3);
    let leaves: Leaves = (0..400).map(|_| leaf(depth_three_corner, 1)).collect();
    let ncrit = 50;
    assert!(try_unique_leaves(leaves, &ncrit, true).is_none());
    // a single leaf that is too full is refused as well
    assert!(try_unique_leaves(vec![leaf(depth_three_corner, 51)], &ncrit, true).is_none());
    let fits = try_unique_leaves(vec![leaf(depth_three_corner, 20), leaf(depth_three_corner, 30)], &ncrit, true);
    assert_eq!(fits.unwrap()[0].npoints, 50);
}

#[test]
fn linearise_is_idempotent() {
    let depth = 3;
    let mut keys = vec![
        Key(0, 0, 0, 0),
        Key(0, 0, 0, 1),
        Key(0, 0, 0, 2),
        Key(0, 0, 1, 3),
        Key(0, 2, 0, 2),
        Key(4, 0, 0, 1),
        Key(4, 0, 0, 3),
        Key(4, 4, 4, 1),
    ];
    let mut once = linearise(&mut keys, &depth);
    assert_eq!(
        once,
        vec![Key(0, 0, 1, 3), Key(0, 2, 0, 2), Key(4, 0, 0, 3), Key(4, 4, 4, 1)]
    );
    let twice = linearise(&mut once, &depth);
    assert_eq!(once, twice);
    let mut none: Keys = Vec::new();
    assert_eq!(linearise(&mut none, &depth), Vec::new());
}

#[test]
fn seeds_are_the_coarsest_cells_between_the_extremes() {
    let depth = 2;
    let leaves = vec![
        leaf(Key(2, 0, 1, 2), 1),
        leaf(Key(0, 0, 0, 2), 1),
        leaf(Key(3, 3, 3, 2), 1),
    ];
    let seeds = find_seeds(&leaves, &depth);
    let mut expected: Keys = Vec::new();
    for n in 1..7u64 {
        expected.push(Key(2 * (n / 4), 2 * ((n / 2) % 2), 2 * (n % 2), 1));
    }
    assert_eq!(seeds, expected);
    // a single leaf is its own least and greatest seed: one seed
    let alone = find_seeds(&leaves[0..1], &depth);
    assert_eq!(alone, vec![Key(2, 0, 1, 2)]);
    // the extreme leaves are seeds where nothing coarser lies between them, in Morton order
    let neighbours = vec![leaf(Key(1, 1, 1, 2), 1), leaf(Key(0, 0, 1, 2), 1), leaf(Key(0, 1, 1, 2), 1)];
    assert_eq!(
        find_seeds(&neighbours, &depth),
        vec![
            Key(0, 0, 1, 2),
            Key(0, 1, 0, 2),
            Key(0, 1, 1, 2),
            Key(1, 0, 0, 2),
            Key(1, 0, 1, 2),
            Key(1, 1, 0, 2),
            Key(1, 1, 1, 2)
        ]
    );
}

#[test]
fn blocks_are_assigned_and_weighed() {
    let depth = 2;
    let blocktree = vec![Key(0, 0, 0, 1), Key(0, 0, 2, 1), Key(2, 2, 2, 2)];
    let mut leaves = vec![
        leaf(Key(0, 0, 0, 2), 1),
        leaf(Key(1, 1, 1, 2), 1),
        leaf(Key(1, 0, 3, 2), 1),
        leaf(Key(2, 2, 2, 2), 1),
    ];
    assert!(have_enclosing_blocks(&leaves, &blocktree, &depth));
    assert!(!lie_in_their_blocks(&leaves, &depth));
    assign_blocks_to_leaves(&mut leaves, &blocktree, &depth);
    let blocks: Vec<Key> = leaves.iter().map(|l| l.block).collect();
    assert_eq!(blocks, vec![Key(0, 0, 0, 1), Key(0, 0, 0, 1), Key(0, 0, 2, 1), Key(2, 2, 2, 2)]);
    assert!(lie_in_their_blocks(&leaves, &depth));
    let weights = find_block_weights(&leaves, &blocktree);
    let counts: Vec<u64> = weights.iter().map(|w| w.0).collect();
    assert_eq!(counts, vec![2, 1, 1]);
    // a leaf that no block encloses is found out before blocks are assigned
    let stray = vec![leaf(Key(0, 0, 0, 2), 1), leaf(Key(3, 3, 3, 2), 1)];
    assert!(!have_enclosing_blocks(&stray, &blocktree, &depth));
    // so is a leaf that lies outside its block, or above the deepest level
    let outside = vec![Leaf { key: Key(3, 3, 3, 2), block: Key(0, 0, 0, 1), npoints: 9 }];
    assert!(!lie_in_their_blocks(&outside, &depth));
    let shallow = vec![Leaf { key: Key(2, 2, 2, 1), block: Key(0, 0, 0, 0), npoints: 1 }];
    assert!(!lie_in_their_blocks(&shallow, &depth));
}

#[test]
fn blocks_are_split_until_they_fit() {
    let depth = 3;
    let ncrit = 3;
    let block = Key(0, 0, 0, 1);
    let mut leaves: Leaves = vec![
        Leaf { key: Key(0, 0, 0, 3), block, npoints: 2 },
        Leaf { key: Key(1, 0, 0, 3), block, npoints: 2 },
        Leaf { key: Key(1, 1, 1, 3), block, npoints: 3 },
        Leaf { key: Key(2, 2, 2, 3), block, npoints: 1 },
        Leaf { key: Key(3, 3, 3, 3), block, npoints: 2 },
        Leaf { key: Key(4, 4, 4, 3), block: Key(4, 4, 4, 1), npoints: 3 },
    ];
    let tree = split_blocks(&mut leaves, &depth, &ncrit);
    let keys: Vec<Key> = tree.iter().map(|b| b.key).collect();
    assert_eq!(
        keys,
        vec![Key(0, 0, 0, 3), Key(1, 0, 0, 3), Key(1, 1, 1, 3), Key(2, 2, 2, 2), Key(4, 4, 4, 1)]
    );
    for block in &tree {
        let npoints: usize = block.leaves.iter().map(|l| l.npoints).sum();
        assert!(npoints <= ncrit || block.key.3 == depth);
        assert!(!block.leaves.is_empty());
        for leaf in &block.leaves {
            assert_eq!(leaf.block, block.key);
        }
    }
    let total: usize = tree.iter().map(|b| b.leaves.iter().map(|l| l.npoints).sum::<usize>()).sum();
    assert_eq!(total, 13);
    assert_eq!(overfull_block(&tree, ncrit), None);
    assert_eq!(find_block(&tree, &Key(2, 2, 2, 2)), Some(3));
    assert_eq!(find_block(&tree, &Key(0, 0, 0, 1)), None);
    // a cell of the deepest level is never split, however full
    let mut full = vec![
        Leaf { key: Key(4, 4, 4, 3), block: Key(4, 4, 4, 2), npoints: 1 },
        Leaf { key: Key(5, 5, 5, 3), block: Key(4, 4, 4, 2), npoints: 9 },
    ];
    let tree = split_blocks(&mut full, &depth, &ncrit);
    assert_eq!(tree.len(), 2);
    assert_eq!(tree[1].key, Key(5, 5, 5, 3));
    assert_eq!(tree[1].leaves[0].npoints, 9);
    assert_eq!(overfull_block(&tree, ncrit), Some(Key(5, 5, 5, 3)));
}

#[test]
fn leaves_are_weighed_against_the_limit() {
    let leaves = vec![leaf(Key(0, 0, 0, 2), 3), leaf(Key(1, 0, 0, 2), 4)];
    assert!(!exceeds(&leaves, 7));
    assert!(exceeds(&leaves, 6));
    assert!(!exceeds(&Vec::new(), 0));
    let heavy = vec![leaf(Key(0, 0, 0, 2), usize::MAX), leaf(Key(1, 0, 0, 2), usize::MAX)];
    assert!(exceeds(&heavy, usize::MAX));
}

#[test]
fn the_first_leaf_of_a_key_gives_the_block() {
    let first = Leaf { key: Key(1, 1, 1, 2), block: Key(0, 0, 0, 1), npoints: 2 };
    let second = Leaf { key: Key(0, 0, 0, 2), block: Key(0, 0, 0, 0), npoints: 1 };
    let third = Leaf { key: Key(1, 1, 1, 2), block: Key(0, 0, 0, 0), npoints: 5 };
    let ncrit = 10;
    let unique = unique_leaves(vec![first, second, third], &ncrit, false);
    assert_eq!(unique.len(), 2);
    assert_eq!(unique[1].key, Key(1, 1, 1, 2));
    assert_eq!(unique[1].block, Key(0, 0, 0, 1));
    assert_eq!(unique[1].npoints, 7);
}
