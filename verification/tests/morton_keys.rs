use itertools::Itertools;
use octree::morton::{
    are_valid_keys, contains_key, encode_point, encode_points, find_ancestor_at, find_ancestors,
    find_children, find_deepest_first_descendent, find_deepest_last_descendent,
    find_finest_common_ancestor, find_greatest_child, find_parent, find_siblings, is_valid_key,
    less_than, Key, Keys, Leaf, Point, MAX_DEPTH, MAX_POINTS,
};
use octree::sorting::{is_sorted_by_key, sort_keys};
use octree::tree::keys_to_leaves;
use rand::Rng;

/// The number of the cell of the deepest level in which a coordinate lies.
fn cell_of(coordinate: f64, centre: f64, r0: f64, depth: u64) -> u64 {
    let side_length: f64 = (r0 * 2.) / ((1u64 << depth) as f64);
    ((coordinate - (centre - r0)) / side_length).floor() as u64
}

fn point_at(x: f64, y: f64, z: f64) -> Point {
    let mut point = Point::default();
    point.x = x.to_bits();
    point.y = y.to_bits();
    point.z = z.to_bits();
    point
}

fn cell_of_point(point: &Point, x0: &Point, r0: f64, depth: u64) -> (u64, u64, u64) {
    (
        cell_of(f64::from_bits(point.x), f64::from_bits(x0.x), r0, depth),
        cell_of(f64::from_bits(point.y), f64::from_bits(x0.y), r0, depth),
        cell_of(f64::from_bits(point.z), f64::from_bits(x0.z), r0, depth),
    )
}

/// Random points in the unit cube.
fn random(npoints: u64) -> Vec<Point> {
    let mut range = rand::thread_rng();
    let mut points = Vec::new();
    for _ in 0..npoints {
        let x: f64 = range.gen();
        let y: f64 = range.gen();
        let z: f64 = range.gen();
        points.push(point_at(x, y, z));
    }
    points
}

#[test]
fn test_find_parent() {
    let depth = 3;
    let child = Key(3, 3, 3, 3);
    let expected = Key(2, 2, 2, 2);
    let result = find_parent(&child, &depth);
    assert_eq!(result, expected);

    let depth = 3;
    let child = Key(2, 2, 2, 2);
    let expected = Key(0, 0, 0, 1);
    let result = find_parent(&child, &depth);
    assert_eq!(result, expected);

    let depth = 3;
    let child = Key(0, 0, 0, 1);
    let expected = Key(0, 0, 0, 0);
    let result = find_parent(&child, &depth);
    assert_eq!(result, expected);

    let depth = 3;
    let child = Key(0, 0, 0, 0);
    let expected = Key(0, 0, 0, 0);
    let result = find_parent(&child, &depth);
    assert_eq!(result, expected);
}

#[test]
fn test_find_siblings() {
    let depth = 3;
    let key = Key(0, 0, 0, 1);
    let level_diff = depth - key.3;
    let shift = 1 << level_diff;
    let mut expected: Keys = vec![
        Key(0, 0, 0, 1),
        Key(shift, 0, 0, 1),
        Key(0, shift, 0, 1),
        Key(0, 0, shift, 1),
        Key(0, shift, shift, 1),
        Key(shift, shift, 0, 1),
        Key(shift, 0, shift, 1),
        Key(shift, shift, shift, 1),
    ];
    sort_keys(&mut expected);

    let mut result = find_siblings(&key, &depth);
    sort_keys(&mut result);
    assert_eq!(result, expected);
}

#[test]
fn test_find_children() {
    let key = Key(0, 0, 0, 0);
    let depth = 5;
    let level_diff = depth - (key.3 + 1);
    let shift = 1 << level_diff;
    let mut expected: Keys = vec![
        Key(0, 0, 0, 1),
        Key(shift, 0, 0, 1),
        Key(0, shift, 0, 1),
        Key(0, 0, shift, 1),
        Key(0, shift, shift, 1),
        Key(shift, shift, 0, 1),
        Key(shift, 0, shift, 1),
        Key(shift, shift, shift, 1),
    ];

    sort_keys(&mut expected);
    let result = find_children(&key, &depth);
    assert_eq!(result, expected)
}

#[test]
fn test_sorting() {
    let key = Key(0, 0, 0, 1);
    let depth = 3;
    let mut keys = find_siblings(&key, &depth);

    sort_keys(&mut keys);

    // Test sorting method
    let mut prev = keys[0 as usize];

    for i in 1..(keys.len() - 1) {
        let curr = keys[i as usize];
        assert!(curr > prev);
        prev = curr.clone();
    }

    // Test that level makes a difference
    let a = Key(0, 0, 0, 0);
    let b = Key(0, 0, 0, 1);
    assert!(a < b);

    // Test that children are always greater than parent
    let parent = Key(0, 0, 0, 1);
    let children = find_children(&parent, &depth);
    for child in children {
        assert!(child > parent);
        assert!(parent < child);
    }

    // Test that if given three octants, a<b<c and
    // c/∈{D(b)}, a<d<c ∀d ∈{D(b)}.
    let a = Key(0, 0, 0, 1);
    let ds = find_children(&a, &depth);
    let bs = find_siblings(&a, &depth);

    for d in ds {
        assert!(a < d);
        for &b in &bs {
            if b != a {
                assert!(d < b);
                assert!(a < b);
            }
        }
    }
}

#[test]
fn test_encode_point() {
    let depth = 2;
    let x0 = point_at(0.5, 0.5, 0.5);
    let r0 = 0.5;
    let mut point = Point::default();
    point.x = 0.0f64.to_bits();
    point.y = 0.0f64.to_bits();
    point.z = 0.0f64.to_bits();
    let cell = cell_of_point(&point, &x0, r0, depth);
    encode_point(&mut point, &depth, &cell);
    let expected = Key(0, 0, 0, 2);
    assert_eq!(point.key, expected);
}

#[test]
fn test_find_ancestors() {
    let key = Key(0, 0, 0, 2);
    let depth = 3;
    let mut expected = vec![Key(0, 0, 0, 0), Key(0, 0, 0, 1)];

    sort_keys(&mut expected);

    let mut result = find_ancestors(&key, &depth);
    sort_keys(&mut result);
    assert_eq!(expected, result);

    let key = Key(2, 0, 2, 2);
    let depth = 3;
    let mut expected = vec![Key(0, 0, 0, 0), Key(0, 0, 0, 1)];

    sort_keys(&mut expected);

    let mut result = find_ancestors(&key, &depth);
    sort_keys(&mut result);
    assert_eq!(expected, result);
}

#[test]
fn test_find_dld() {
    let key = Key(0, 0, 0, 0);
    let depth = 2;
    let result = find_deepest_last_descendent(&key, &depth);
    let expected = Key(3, 3, 3, 2);
    assert_eq!(expected, result);
}

#[test]
fn test_find_dfd() {
    let key = Key(1, 1, 1, 1);
    let depth = 2;
    let result = find_deepest_first_descendent(&key, &depth);
    let expected = Key(1, 1, 1, 2);
    assert_eq!(expected, result);
}

#[test]
fn test_find_finest_common_ancestor() {
    let a = Key(3, 3, 3, 2);
    let b = Key(0, 0, 0, 2);
    let depth = 2;
    let expected = Key(0, 0, 0, 0);
    let result = find_finest_common_ancestor(&a, &b, &depth);
    assert_eq!(expected, result);
}

#[test]
fn test_keys_to_leaves() {
    let npoints = 342;
    let ncrit = 50;
    let mut points = random(npoints);
    let level = 1;
    let depth = 1;
    let x0 = point_at(0.5, 0.5, 0.5);
    let r0 = 0.5;
    let cells: Vec<(u64, u64, u64)> =
        points.iter().map(|p| cell_of_point(p, &x0, r0, depth)).collect();
    encode_points(&mut points, &level, &cells);
    let unique_keys: Keys = points.iter().map(|p| p.key).unique().clone().collect();
    let leaves = keys_to_leaves(&mut points, &ncrit);

    // Test that no keys are dropped
    assert_eq!(unique_keys.len(), leaves.len());

    // Test that no points are dropped
    let mut nleaf_points = 0;
    for leaf in leaves {
        nleaf_points += leaf.npoints;
    }
    assert_eq!(npoints as usize, nleaf_points);
}

#[test]
fn order_is_total_and_follows_the_interleaved_bits() {
    let interleave = |k: &Key| -> u128 {
        let mut code: u128 = 0;
        for bit in (0..21).rev() {
            code = (code << 3)
                | ((((k.0 >> bit) & 1) << 2) | (((k.1 >> bit) & 1) << 1) | ((k.2 >> bit) & 1))
                    as u128;
        }
        code
    };
    let mut keys = Vec::new();
    for x in 0..4u64 {
        for y in 0..4u64 {
            for z in 0..4u64 {
                keys.push(Key(x * 5, y * 3, z * 7, 3));
            }
        }
    }
    for a in &keys {
        for b in &keys {
            let outcomes = [less_than(a, b), a == b, less_than(b, a)];
            assert_eq!(outcomes.iter().filter(|&&o| o).count(), 1);
            assert_eq!(less_than(a, b), interleave(a) < interleave(b));
        }
    }
    // coarser first among keys of one anchor
    assert!(less_than(&Key(4, 4, 4, 1), &Key(4, 4, 4, 2)));
    assert!(!less_than(&Key(4, 4, 4, 2), &Key(4, 4, 4, 1)));
    // x outranks y outranks z at one bit
    assert!(less_than(&Key(0, 1, 1, 1), &Key(1, 0, 0, 1)));
    assert!(less_than(&Key(0, 0, 1, 1), &Key(0, 1, 0, 1)));
}

#[test]
fn every_key_is_a_child_of_its_parent() {
    let depth = 4;
    for x in 0..16u64 {
        for y in [0u64, 5, 10, 15] {
            for z in [1u64, 6, 11] {
                let key = Key(x, y, z, 4);
                let parent = find_parent(&key, &depth);
                assert!(find_children(&parent, &depth).contains(&key));
                assert!(find_siblings(&key, &depth).contains(&key));
            }
        }
    }
}

#[test]
fn ancestors_are_as_many_as_the_level_and_proper() {
    let depth = 5;
    let key = Key(13, 7, 22, 5);
    let ancestors = find_ancestors(&key, &depth);
    assert_eq!(ancestors.len(), 5);
    assert_eq!(
        ancestors,
        vec![Key(12, 6, 22, 4), Key(12, 4, 20, 3), Key(8, 0, 16, 2), Key(0, 0, 16, 1), Key(0, 0, 0, 0)]
    );
    for ancestor in &ancestors {
        assert!(ancestor.3 < key.3);
        assert!(less_than(ancestor, &key));
    }
    // the root is listed as its own ancestor
    assert_eq!(find_ancestors(&Key(0, 0, 0, 0), &depth), vec![Key(0, 0, 0, 0)]);
}

#[test]
fn siblings_of_the_root_lie_outside_the_domain() {
    let depth = 2;
    let siblings = find_siblings(&Key(0, 0, 0, 0), &depth);
    assert_eq!(siblings.len(), 8);
    assert_eq!(siblings[0], Key(0, 0, 0, 1));
    assert_eq!(siblings[7], Key(4, 4, 4, 1));
}

#[test]
fn finest_common_ancestor_is_proper() {
    let depth = 3;
    let a = Key(2, 2, 2, 2);
    // of a key with itself: its parent
    assert_eq!(find_finest_common_ancestor(&a, &a, &depth), Key(0, 0, 0, 1));
    // of a key with one of its descendants: the parent of the key
    assert_eq!(find_finest_common_ancestor(&a, &Key(3, 3, 3, 3), &depth), Key(0, 0, 0, 1));
    // of two keys in different octants of the root: the root
    assert_eq!(find_finest_common_ancestor(&Key(1, 1, 1, 3), &Key(7, 0, 0, 3), &depth), Key(0, 0, 0, 0));
    // with the root: the root
    assert_eq!(find_finest_common_ancestor(&Key(0, 0, 0, 0), &a, &depth), Key(0, 0, 0, 0));
}

#[test]
fn descendents_at_the_deepest_level() {
    let depth = 4;
    assert_eq!(find_deepest_first_descendent(&Key(8, 4, 0, 2), &depth), Key(8, 4, 0, 4));
    assert_eq!(find_deepest_last_descendent(&Key(8, 4, 0, 2), &depth), Key(11, 7, 3, 4));
    assert_eq!(find_deepest_last_descendent(&Key(9, 4, 1, 4), &depth), Key(9, 4, 1, 4));
    assert_eq!(find_deepest_first_descendent(&Key(9, 4, 1, 4), &depth), Key(9, 4, 1, 4));
}

#[test]
fn defaults_are_the_sentinels() {
    assert_eq!(Key::default(), Key(999, 999, 999, 0));
    let leaf = Leaf::default();
    assert_eq!(leaf.key, Key(999, 999, 999, 0));
    assert_eq!(leaf.block, Key(999, 999, 999, 0));
    assert_eq!(leaf.npoints, 0);
    let point = Point::default();
    assert!(f64::from_bits(point.x).is_nan());
    assert!(f64::from_bits(point.y).is_nan());
    assert!(f64::from_bits(point.z).is_nan());
    assert_eq!(point.global_idx, 0);
    assert_eq!(MAX_POINTS, 50);
}

#[test]
fn encoding_is_monotone_along_the_curve() {
    let depth = 3;
    let x0 = point_at(0.5, 0.5, 0.5);
    let r0 = 0.5;
    let mut first = point_at(0.30, 0.30, 0.30);
    let mut same = point_at(0.26, 0.37, 0.33);
    let mut later = point_at(0.30, 0.30, 0.80);
    for point in [&mut first, &mut same, &mut later] {
        let cell = cell_of_point(point, &x0, r0, depth);
        encode_point(point, &depth, &cell);
    }
    assert_eq!(first.key, Key(2, 2, 2, 3));
    assert_eq!(first.key, same.key);
    assert_eq!(later.key, Key(2, 2, 6, 3));
    assert!(first.key < later.key);
    // the key is a descendant of the root
    assert_eq!(*find_ancestors(&first.key, &depth).last().unwrap(), Key(0, 0, 0, 0));
    // the other fields of a point stay
    assert_eq!(f64::from_bits(first.x), 0.30);
}

#[test]
fn sorting_keeps_every_item() {
    let mut keys = vec![Key(4, 4, 4, 1), Key(0, 0, 0, 0), Key(0, 4, 0, 1), Key(0, 0, 0, 1), Key(0, 4, 0, 1)];
    assert!(!is_sorted_by_key(&keys));
    sort_keys(&mut keys);
    assert!(is_sorted_by_key(&keys));
    assert_eq!(
        keys,
        vec![Key(0, 0, 0, 0), Key(0, 0, 0, 1), Key(0, 4, 0, 1), Key(0, 4, 0, 1), Key(4, 4, 4, 1)]
    );
}

#[test]
fn keys_of_a_tree_are_told_from_others() {
    let depth = 3;
    assert!(is_valid_key(&Key(0, 0, 0, 0), &depth));
    assert!(is_valid_key(&Key(4, 0, 4, 1), &depth));
    assert!(is_valid_key(&Key(7, 7, 7, 3), &depth));
    // an anchor off the grid of its level
    assert!(!is_valid_key(&Key(2, 0, 4, 1), &depth));
    // an anchor outside the domain
    assert!(!is_valid_key(&Key(8, 0, 0, 3), &depth));
    // a level below the deepest
    assert!(!is_valid_key(&Key(0, 0, 0, 4), &depth));
    // a tree too deep for the keys
    assert!(!is_valid_key(&Key(0, 0, 0, 0), &(MAX_DEPTH + 1)));
    assert!(is_valid_key(&Key(0, 0, 0, 0), &MAX_DEPTH));
    assert!(!is_valid_key(&Key::default(), &depth));
    assert!(are_valid_keys(&[Key(0, 0, 0, 0), Key(4, 0, 4, 1)], &depth));
    assert!(!are_valid_keys(&[Key(0, 0, 0, 0), Key(5, 0, 4, 1)], &depth));
    assert!(are_valid_keys::<Key>(&[], &depth));
}

#[test]
fn ancestors_at_a_level_and_the_greatest_child() {
    let depth = 4;
    let key = Key(13, 6, 9, 4);
    assert_eq!(find_ancestor_at(&key, 4, &depth), key);
    assert_eq!(find_ancestor_at(&key, 3, &depth), Key(12, 6, 8, 3));
    assert_eq!(find_ancestor_at(&key, 1, &depth), Key(8, 0, 8, 1));
    assert_eq!(find_ancestor_at(&key, 0, &depth), Key(0, 0, 0, 0));
    assert_eq!(find_greatest_child(&Key(8, 0, 8, 1), &depth), Key(12, 4, 12, 2));
    assert_eq!(find_greatest_child(&Key(0, 0, 0, 0), &depth), Key(8, 8, 8, 1));
    let children = find_children(&Key(8, 0, 8, 1), &depth);
    assert!(contains_key(&children, &Key(12, 0, 8, 2)));
    assert!(!contains_key(&children, &Key(8, 0, 8, 1)));
}
