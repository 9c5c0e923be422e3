use nbody_core::{Body, Bounds, SpatialTree};

/// One whole unit in the solver's 64-bit fixed-point scale.
fn fx(x: f64) -> i64 {
    (x * 4294967296.0) as i64
}

fn unit_square() -> Bounds {
    Bounds::new(vec![fx(-1.0), fx(-1.0)], vec![fx(1.0), fx(1.0)])
}

#[test]
fn test_root_total_mass_is_sum() {
    let mut tree = SpatialTree::new(unit_square());
    tree.insert(0, Body::new(fx(1.0), fx(-0.5), fx(0.25), 0, 0));
    tree.insert(1, Body::new(fx(2.0), fx(0.5), fx(-0.25), 0, 0));
    tree.insert(2, Body::new(fx(0.5), fx(0.75), fx(0.75), 0, 0));
    assert_eq!(tree.get_total_mass(), fx(1.0) + fx(2.0) + fx(0.5));
}

#[test]
fn test_center_of_mass_weighted_average() {
    // equal masses at (-0.5, 0) and (0.5, 0): the average is the origin
    let mut tree = SpatialTree::new(unit_square());
    tree.insert(0, Body::new(fx(1.0), fx(-0.5), 0, 0, 0));
    tree.insert(1, Body::new(fx(1.0), fx(0.5), 0, 0, 0));
    assert_eq!(tree.get_center_of_mass(), vec![0i64, 0i64]);
}

#[test]
fn test_insertion_order_independence() {
    let bodies = [
        (fx(1.0), fx(-0.5), fx(0.25)),
        (fx(2.0), fx(0.5), fx(-0.25)),
        (fx(0.5), fx(0.75), fx(0.75)),
        (fx(3.0), fx(-0.25), fx(-0.75)),
    ];
    let mut fwd = SpatialTree::new(unit_square());
    for (i, &(m, x, y)) in bodies.iter().enumerate() {
        fwd.insert(i, Body::new(m, x, y, 0, 0));
    }
    let mut rev = SpatialTree::new(unit_square());
    for (i, &(m, x, y)) in bodies.iter().rev().enumerate() {
        rev.insert(i, Body::new(m, x, y, 0, 0));
    }
    assert_eq!(fwd.get_total_mass(), rev.get_total_mass());
    assert_eq!(fwd.get_center_of_mass(), rev.get_center_of_mass());
}

#[test]
fn test_self_force_is_zero() {
    // a single-body tree queried by that same body returns the zero vector
    let mut tree = SpatialTree::new(unit_square());
    let body = Body::new(fx(1.0), fx(0.25), fx(0.25), 0, 0);
    tree.insert(7, body);
    let probe = Body::new(fx(1.0), fx(0.25), fx(0.25), 0, 0);
    let f = tree.calculate_force(&probe, 7, fx(1.0), fx(0.001), fx(0.5));
    assert_eq!(f, vec![0i64, 0i64]);
}

#[test]
fn test_coincident_bodies_zero_force() {
    // a distinct body at exactly the resident's position: the zero-distance
    // branch yields no force, and no division by zero occurs
    let mut tree = SpatialTree::new(unit_square());
    tree.insert(0, Body::new(fx(1.0), fx(0.25), fx(0.25), 0, 0));
    let probe = Body::new(fx(2.0), fx(0.25), fx(0.25), 0, 0);
    let f = tree.calculate_force(&probe, 1, fx(1.0), fx(0.001), fx(0.5));
    assert_eq!(f, vec![0i64, 0i64]);
}

#[test]
fn test_coincident_stack_insert_terminates() {
    // several bodies at one exact position stack in one leaf
    let mut tree = SpatialTree::new(unit_square());
    for i in 0..5 {
        tree.insert(i, Body::new(fx(1.0), fx(0.125), fx(0.125), 0, 0));
    }
    assert_eq!(tree.get_total_mass(), 5 * fx(1.0));
    assert_eq!(tree.get_center_of_mass(), vec![fx(0.125), fx(0.125)]);
}

#[test]
fn test_subdivide_partitions_parent() {
    let b = unit_square();
    let subs = b.subdivide();
    assert_eq!(subs.len(), 4);
    // the envelope of the children reconstructs the parent exactly
    let min0: i64 = subs.iter().map(|c| c.min[0]).min().unwrap();
    let min1: i64 = subs.iter().map(|c| c.min[1]).min().unwrap();
    let max0: i64 = subs.iter().map(|c| c.max[0]).max().unwrap();
    let max1: i64 = subs.iter().map(|c| c.max[1]).max().unwrap();
    assert_eq!((min0, min1), (fx(-1.0), fx(-1.0)));
    assert_eq!((max0, max1), (fx(1.0), fx(1.0)));
    // interiors are pairwise disjoint: children overlap on faces at most
    for i in 0..4 {
        for j in 0..4 {
            if i != j {
                let (a, c) = (&subs[i], &subs[j]);
                let apart = (0..2).any(|k| a.max[k] <= c.min[k] || c.max[k] <= a.min[k]);
                assert!(apart, "children {i} and {j} overlap");
            }
        }
    }
    // each child covers one quarter: the midpoint splits both axes at 0
    for c in &subs {
        assert!(c.min[0] == fx(-1.0) || c.min[0] == 0);
        assert!(c.max[1] == fx(1.0) || c.max[1] == 0);
    }
}

#[test]
fn test_subdivide_octants() {
    let b = Bounds::new(
        vec![fx(-1.0), fx(-1.0), fx(-1.0)],
        vec![fx(1.0), fx(1.0), fx(1.0)],
    );
    let subs = b.subdivide();
    assert_eq!(subs.len(), 8);
}

#[test]
fn test_bounds_geometry() {
    let b = Bounds::new(vec![fx(-3.0), fx(-4.0)], vec![fx(3.0), fx(4.0)]);
    assert_eq!(b.center(), vec![0i64, 0i64]);
    // the diagonal of a 6 x 8 box is 10
    assert_eq!(b.diagonal(), fx(10.0));
    assert!(b.contains(&vec![0, 0]));
    assert!(b.contains(&vec![fx(3.0), fx(4.0)]));
    assert!(!b.contains(&vec![fx(3.5), 0]));
}

#[test]
fn test_force_matches_direct_pairwise() {
    // three well-separated bodies; an opening threshold of zero forces the
    // query down to the leaves, where it must equal the two-body sums
    let sources = [
        (fx(1.0), fx(-0.75), fx(-0.5)),
        (fx(2.0), fx(0.75), fx(0.5)),
        (fx(0.5), fx(0.25), fx(-0.75)),
    ];
    let mut tree = SpatialTree::new(unit_square());
    for (i, &(m, x, y)) in sources.iter().enumerate() {
        tree.insert(i, Body::new(m, x, y, 0, 0));
    }
    let probe = Body::new(sources[0].0, sources[0].1, sources[0].2, 0, 0);
    let whole = tree.calculate_force(&probe, 0, fx(1.0), fx(0.001), i64::MIN);
    // the same sum, one single-body tree per source
    let mut expect = vec![0i64, 0i64];
    for (i, &(m, x, y)) in sources.iter().enumerate() {
        if i != 0 {
            let mut single = SpatialTree::new(unit_square());
            single.insert(i, Body::new(m, x, y, 0, 0));
            let f = single.calculate_force(&probe, 0, fx(1.0), fx(0.001), i64::MIN);
            expect[0] = expect[0].wrapping_add(f[0]);
            expect[1] = expect[1].wrapping_add(f[1]);
        }
    }
    assert_eq!(whole, expect);
    assert!(whole != vec![0i64, 0i64]);
}

#[test]
fn test_mirrored_pair_forces_balance() {
    // equal masses at (-d, 0) and (d, 0): equal magnitude, opposite sign,
    // each directed toward the other
    let mut tree = SpatialTree::new(unit_square());
    let a = Body::new(fx(1.0), fx(-0.5), 0, 0, 0);
    let b = Body::new(fx(1.0), fx(0.5), 0, 0, 0);
    tree.insert(0, a);
    tree.insert(1, b);
    let pa = Body::new(fx(1.0), fx(-0.5), 0, 0, 0);
    let pb = Body::new(fx(1.0), fx(0.5), 0, 0, 0);
    let fa = tree.calculate_force(&pa, 0, fx(1.0), fx(0.001), fx(0.5));
    let fb = tree.calculate_force(&pb, 1, fx(1.0), fx(0.001), fx(0.5));
    assert!(fa[0] > 0, "left body is pulled right");
    assert_eq!(fb[0], -fa[0]);
    assert_eq!(fa[1], 0);
    assert_eq!(fb[1], 0);
}

#[test]
fn test_tree_snapshot_structure() {
    let mut tree = SpatialTree::new(unit_square());
    tree.insert(0, Body::new(fx(1.0), fx(-0.5), fx(-0.5), 0, 0));
    tree.insert(1, Body::new(fx(1.0), fx(0.5), fx(0.5), 0, 0));
    let kids = tree.get_children();
    assert_eq!(kids.len(), 4);
    let occupied = kids.iter().filter(|k| k.is_some()).count();
    assert_eq!(occupied, 2);
    assert_eq!(tree.get_bounds().min, vec![fx(-1.0), fx(-1.0)]);
}

#[test]
fn test_depth_cap_stash() {
    // two distinct bodies that subdivision can never separate (both far
    // outside a degenerate box on the same side): insertion still
    // terminates, aggregates stay exact, and a query stays defined
    let mut tree = SpatialTree::new(Bounds::new(vec![0, 0], vec![1, 1]));
    tree.insert(0, Body::new(fx(1.0), fx(5.0), fx(5.0), 0, 0));
    tree.insert(1, Body::new(fx(2.0), fx(6.0), fx(6.0), 0, 0));
    assert_eq!(tree.get_total_mass(), fx(3.0));
    let probe = Body::new(fx(1.0), fx(5.0), fx(5.0), 0, 0);
    let f = tree.calculate_force(&probe, 0, fx(1.0), fx(0.001), fx(0.5));
    assert_eq!(f.len(), 2);
}
