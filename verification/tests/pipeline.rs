use octree::balance::{donated_blocks, exchange_blocks, leaves_of_blocks, local_weight};
use octree::blocktree::{
    add_first_seed, add_last_seed, blocktree_from_seeds, split_at_pivot, transfer_pivot,
};
use octree::cover::are_linear_seeds;
use octree::morton::{encode_points, find_ancestors, Key, Keys, Leaf, Leaves, Point, Points};
use octree::sample::{bucket_by_splitters, choose_splitters, gather_sorted, leaves_at, K};
use octree::sorting::{is_sorted_by_key, is_strictly_sorted_by_key, max_key, min_key};
use octree::split::{lie_in_their_blocks, overfull_block, split_blocks};
use octree::tree::{
    assign_blocks_to_leaves, find_block_weights, find_seeds, have_enclosing_blocks, keys_to_leaves,
    unique_leaves,
};
use rand::rngs::StdRng;
use rand::{Rng, SeedableRng};

/// The cell of a coordinate in the unit cube; the far face of the cube is
/// taken into the last cell.
fn unit_cell_of(coordinate: f64, depth: u64) -> u64 {
    let cells = 1u64 << depth;
    let side_length: f64 = 1.0 / (cells as f64);
    let cell = (coordinate / side_length).floor() as u64;
    cell.min(cells - 1)
}

fn points_at(coordinates: &[(f64, f64, f64)], depth: u64) -> Points {
    let mut points: Points = Vec::new();
    let mut cells = Vec::new();
    for (i, &(x, y, z)) in coordinates.iter().enumerate() {
        let mut point = Point::default();
        point.x = x.to_bits();
        point.y = y.to_bits();
        point.z = z.to_bits();
        point.global_idx = i;
        points.push(point);
        cells.push((unit_cell_of(x, depth), unit_cell_of(y, depth), unit_cell_of(z, depth)));
    }
    encode_points(&mut points, &depth, &cells);
    points
}

/// How many of the blocks hold the cell: the cell itself or one of its
/// ancestors.
fn blocks_around(cell: &Key, blocks: &[Key], depth: u64) -> usize {
    let mut chain = find_ancestors(cell, &depth);
    chain.push(*cell);
    chain.iter().filter(|k| blocks.contains(k)).count()
}

#[test]
fn tiny_tree_on_one_process() {
    let depth = 2;
    let ncrit = 50;
    let mut points = points_at(
        &[(0., 0., 0.), (1., 1., 1.), (0., 1., 0.), (1., 0., 1.)],
        depth,
    );
    let leaves = keys_to_leaves(&mut points, &ncrit);
    let mut leaves = unique_leaves(leaves, &ncrit, true);
    let keys: Keys = leaves.iter().map(|l| l.key).collect();
    assert_eq!(keys, vec![Key(0, 0, 0, 2), Key(0, 3, 0, 2), Key(3, 0, 3, 2), Key(3, 3, 3, 2)]);

    let mut seeds = find_seeds(&leaves, &depth);
    add_first_seed(&mut seeds, &depth);
    add_last_seed(&mut seeds, &depth);
    let blocktree = blocktree_from_seeds(&seeds, &depth, true);
    // the blocks are the children of the root, the finest common ancestor of the corners
    let mut children: Keys = Vec::new();
    for n in 0..8u64 {
        children.push(Key(2 * (n / 4), 2 * ((n / 2) % 2), 2 * (n % 2), 1));
    }
    assert_eq!(blocktree, children);

    assign_blocks_to_leaves(&mut leaves, &blocktree, &depth);
    let tree = split_blocks(&mut leaves, &depth, &ncrit);
    assert_eq!(tree.len(), 4);
    let mut nleaves = 0;
    for block in &tree {
        for leaf in &block.leaves {
            assert_eq!(leaf.npoints, 1);
            assert_eq!(leaf.block, block.key);
            nleaves += 1;
        }
    }
    assert_eq!(nleaves, 4);
    assert_eq!(overfull_block(&tree, ncrit), None);
}

/// What one process holds between two exchanges.
struct Process {
    points: Points,
    leaves: Leaves,
    seeds: Keys,
    blocktree: Keys,
}

/// What a run on several processes gave.
struct Outcome {
    /// The local blocktrees before the load was balanced, one after another.
    blocktrees: Keys,
    /// The number of leaves that each process held after the load was balanced.
    loads: Vec<u64>,
    /// The weight of the heaviest block.
    heaviest: u64,
    /// The number of points in the final trees.
    points_in_trees: usize,
}

/// Run the construction on as many processes as there are sets of
/// coordinates, each exchange done by hand.
fn build(coordinates: &[Vec<(f64, f64, f64)>], depth: u64, ncrit: usize, seed: u64) -> Outcome {
    let size = coordinates.len();
    let mut generator = StdRng::seed_from_u64(seed);
    let mut processes: Vec<Process> = coordinates
        .iter()
        .map(|c| Process {
            points: points_at(c, depth),
            leaves: Vec::new(),
            seeds: Vec::new(),
            blocktree: Vec::new(),
        })
        .collect();
    let npoints: usize = coordinates.iter().map(|c| c.len()).sum();

    // sample sort: samples from every process, one set of splitters, one bucket for each process
    let mut local_leaves: Vec<Leaves> = Vec::new();
    let mut samples: Leaves = Vec::new();
    for process in processes.iter_mut() {
        let leaves = keys_to_leaves(&mut process.points, &ncrit);
        let places: Vec<usize> = (0..K).map(|_| generator.gen_range(0..leaves.len())).collect();
        samples.append(&mut leaves_at(&leaves, &places));
        local_leaves.push(leaves);
    }
    let splitters = choose_splitters(&mut samples);
    assert_eq!(splitters.len(), size - 1);
    let mut received_leaves: Vec<Leaves> = vec![Vec::new(); size];
    let mut received_points: Vec<Points> = vec![Vec::new(); size];
    for (sender, process) in processes.iter().enumerate() {
        let mut leaf_buckets = bucket_by_splitters(&local_leaves[sender], &splitters);
        let mut point_buckets = bucket_by_splitters(&process.points, &splitters);
        for receiver in 0..size {
            received_leaves[receiver].append(&mut leaf_buckets[receiver]);
            received_points[receiver].append(&mut point_buckets[receiver]);
        }
    }
    for (rank, process) in processes.iter_mut().enumerate() {
        let mut sorted: Leaves = Vec::new();
        gather_sorted(&mut sorted, &mut received_leaves[rank]);
        process.leaves = unique_leaves(sorted, &ncrit, true);
        process.points = received_points[rank].clone();
    }

    // after the sort the processes hold consecutive stretches of the curve
    for rank in 0..size - 1 {
        let last = max_key(&processes[rank].leaves).unwrap();
        let first = min_key(&processes[rank + 1].leaves).unwrap();
        assert!(last <= first);
        assert!(is_sorted_by_key(&processes[rank].leaves));
    }
    // the points went where their leaves went, and none was lost
    let total_points: usize = processes.iter().map(|p| p.points.len()).sum();
    assert_eq!(total_points, npoints);
    let total_in_leaves: usize =
        processes.iter().map(|p| p.leaves.iter().map(|l| l.npoints).sum::<usize>()).sum();
    assert_eq!(total_in_leaves, npoints);

    // seeds, and the leaves below the least seed of a process go to the process before
    for process in processes.iter_mut() {
        process.seeds = find_seeds(&process.leaves, &depth);
    }
    let mut handed_leaves: Vec<Leaves> = vec![Vec::new(); size];
    let mut handed_points: Vec<Points> = vec![Vec::new(); size];
    let mut kept_leaves: Vec<Leaves> = vec![Vec::new(); size];
    let mut kept_points: Vec<Points> = vec![Vec::new(); size];
    for (rank, process) in processes.iter().enumerate() {
        let pivot = transfer_pivot(&process.leaves, &process.seeds, rank as i32);
        let (below, kept) = split_at_pivot(&process.leaves, &pivot);
        let (points_below, points_kept) = split_at_pivot(&process.points, &pivot);
        if rank > 0 {
            handed_leaves[rank - 1] = below;
            handed_points[rank - 1] = points_below;
        } else {
            assert!(below.is_empty());
        }
        kept_leaves[rank] = kept;
        kept_points[rank] = points_kept;
    }
    for (rank, process) in processes.iter_mut().enumerate() {
        let mut leaves: Leaves = handed_leaves[rank].clone();
        gather_sorted(&mut leaves, &mut kept_leaves[rank]);
        process.leaves = leaves;
        let mut points = handed_points[rank].clone();
        points.append(&mut kept_points[rank]);
        process.points = points;
    }

    // the blocktree: boundary seeds, the least seed of the next process, the regions between
    add_first_seed(&mut processes[0].seeds, &depth);
    add_last_seed(&mut processes[size - 1].seeds, &depth);
    let least_seeds: Keys = processes.iter().map(|p| min_key(&p.seeds).unwrap()).collect();
    for (rank, process) in processes.iter_mut().enumerate() {
        if rank + 1 < size {
            process.seeds.push(least_seeds[rank + 1]);
        }
        assert!(is_strictly_sorted_by_key(&process.seeds));
        assert!(are_linear_seeds(&process.seeds, &depth));
        process.blocktree = blocktree_from_seeds(&process.seeds, &depth, rank + 1 == size);
        assert!(is_strictly_sorted_by_key(&process.blocktree));
    }
    let mut blocktrees: Keys = Vec::new();
    for process in &processes {
        blocktrees.extend(&process.blocktree);
    }

    // every leaf finds its block on its own process
    for process in processes.iter_mut() {
        assert!(have_enclosing_blocks(&process.leaves, &process.blocktree, &depth));
        assign_blocks_to_leaves(&mut process.leaves, &process.blocktree, &depth);
        for leaf in &process.leaves {
            assert!(process.blocktree.contains(&leaf.block));
        }
    }

    // load balance: blocks in the target of the process before go to it, and their leaves follow
    let weights: Vec<Vec<_>> =
        processes.iter().map(|p| find_block_weights(&p.leaves, &p.blocktree)).collect();
    let total: u64 = weights.iter().map(|w| local_weight(w)).sum();
    let heaviest: u64 = weights.iter().flatten().map(|w| w.0).max().unwrap();
    let mut cumulative = 0;
    let mut donations: Vec<Keys> = Vec::new();
    for (rank, process) in processes.iter().enumerate() {
        cumulative += local_weight(&weights[rank]);
        donations.push(donated_blocks(
            &weights[rank],
            &process.blocktree,
            rank as i32,
            size as i32,
            cumulative,
            total,
        ));
    }
    assert!(donations[0].is_empty());
    let mut sent_leaves: Vec<Leaves> = Vec::new();
    for (rank, process) in processes.iter_mut().enumerate() {
        let (sent, kept) = leaves_of_blocks(&donations[rank], &process.leaves);
        sent_leaves.push(sent);
        process.leaves = kept;
    }
    for (rank, process) in processes.iter_mut().enumerate() {
        let received: Keys = if rank + 1 < size { donations[rank + 1].clone() } else { Vec::new() };
        exchange_blocks(&mut process.blocktree, &donations[rank], &received);
        if rank + 1 < size {
            process.leaves.extend(&sent_leaves[rank + 1]);
        }
        // every leaf is on the process that now owns its block
        for leaf in &process.leaves {
            assert!(process.blocktree.contains(&leaf.block));
        }
    }
    let loads: Vec<u64> = processes.iter().map(|p| p.leaves.len() as u64).collect();
    assert_eq!(loads.iter().sum::<u64>(), total);

    // the final trees: no block above the deepest level holds too many points
    let mut points_in_trees = 0;
    for process in processes.iter_mut() {
        assert!(lie_in_their_blocks(&process.leaves, &depth));
        let tree = split_blocks(&mut process.leaves, &depth, &ncrit);
        assert_eq!(overfull_block(&tree, ncrit), None);
        for (i, block) in tree.iter().enumerate() {
            assert!(tree[i + 1..].iter().all(|other| other.key != block.key));
        }
        for block in &tree {
            points_in_trees += block.leaves.iter().map(|l: &Leaf| l.npoints).sum::<usize>();
        }
    }
    Outcome { blocktrees, loads, heaviest, points_in_trees }
}

#[test]
fn four_processes_build_one_tree() {
    let depth = 5;
    let ncrit = 150;
    let mut generator = StdRng::seed_from_u64(2008);
    let coordinates: Vec<Vec<(f64, f64, f64)>> = (0..4)
        .map(|_| (0..10_000).map(|_| (generator.gen(), generator.gen(), generator.gen())).collect())
        .collect();
    let outcome = build(&coordinates, depth, ncrit, 30);
    // no block stands twice in the union of the local blocktrees
    let mut union = outcome.blocktrees.clone();
    octree::sorting::sort_keys(&mut union);
    assert!(is_strictly_sorted_by_key(&union));
    // the union of the local blocktrees covers every cell of the deepest level once
    let cells = 1u64 << depth;
    for x in 0..cells {
        for y in 0..cells {
            for z in 0..cells {
                assert_eq!(blocks_around(&Key(x, y, z, depth), &outcome.blocktrees, depth), 1);
            }
        }
    }
    assert_eq!(outcome.points_in_trees, 40_000);
}

#[test]
fn load_is_balanced_where_points_crowd_one_octant() {
    let depth = 4;
    let ncrit = 150;
    let mut generator = StdRng::seed_from_u64(5);
    // three of four points of each process fall into the first octant of the domain
    let coordinates: Vec<Vec<(f64, f64, f64)>> = (0..4)
        .map(|_| {
            (0..1_000)
                .map(|i| {
                    let scale = if i % 4 == 0 { 1.0 } else { 0.5 };
                    (
                        scale * generator.gen::<f64>(),
                        scale * generator.gen::<f64>(),
                        scale * generator.gen::<f64>(),
                    )
                })
                .collect()
        })
        .collect();
    let outcome = build(&coordinates, depth, ncrit, 16);
    let total: u64 = outcome.loads.iter().sum();
    let share = (total + 3) / 4;
    for load in &outcome.loads {
        assert!(*load <= share + outcome.heaviest);
    }
    assert_eq!(outcome.points_in_trees, 4_000);
}
