use n_body::geometry::Vec2;
use n_body::particle::{Particle, ParticleBundle};
use n_body::quadtree::{contains, quadtree_system, Aabb, QuadEntry, QuadTree};

fn entry(id: u64, x: i64, y: i64) -> QuadEntry {
    QuadEntry { id, position: Vec2::new(x, y), mass: 1 }
}

fn check_sound(t: &QuadTree) {
    for k in 0..t.entry_count() {
        let leaf = t.node(t.leaf_of(k));
        assert!(leaf.children.is_none());
        assert!(contains(&leaf.bounds, &t.entry(k).position));
        assert!(contains(&t.root_bounds(), &t.entry(k).position));
    }
    assert_eq!(t.node_count(), 1 + 4 * t.subdivisions());
}

#[test]
fn containment_is_half_open() {
    let b = Aabb { min: Vec2::new(0, 0), max: Vec2::new(10, 10) };
    assert!(contains(&b, &Vec2::new(0, 0)));
    assert!(contains(&b, &Vec2::new(9, 9)));
    assert!(!contains(&b, &Vec2::new(10, 5)));
    assert!(!contains(&b, &Vec2::new(5, 10)));
    assert!(!contains(&b, &Vec2::new(-1, 5)));
}

#[test]
fn root_covers_the_bounding_box() {
    let es = vec![entry(1, -5, 3), entry(2, 7, -2), entry(3, 0, 11)];
    let root_only = QuadTree::new(&es);
    assert_eq!(root_only.root_bounds(), Aabb { min: Vec2::new(-5, -2), max: Vec2::new(8, 12) });
    assert_eq!(root_only.node_count(), 1);
    assert_eq!(root_only.entry_count(), 0);
    assert_eq!(root_only.subdivisions(), 0);
    assert_eq!(root_only.node(0).children, None);
    assert_eq!(root_only.node(0).held, None);
    let t = QuadTree::build(&es);
    assert_eq!(t.root_bounds(), Aabb { min: Vec2::new(-5, -2), max: Vec2::new(8, 12) });
    assert_eq!(t.entry_count(), 3);
    check_sound(&t);
}

#[test]
fn inserting_into_a_root_only_tree() {
    let es = vec![entry(1, 0, 0), entry(2, 9, 9)];
    let mut t = QuadTree::new(&es);
    t.insert(es[0]);
    assert_eq!(t.subdivisions(), 0);
    t.insert(es[1]);
    assert_eq!(t.subdivisions(), 1);
    assert_eq!(t.node_count(), 5);
    check_sound(&t);
}

#[test]
fn cluster_of_three_gets_just_the_splits_that_separate_it() {
    let es = vec![entry(1, 0, 0), entry(2, 8, 8), entry(3, 9, 9)];
    let t = QuadTree::build(&es);
    // the root [0,10)² splits once for (8,8), then [5,10)², [7,10)² and [8,10)²
    // split once each before (8,8) and (9,9) part.
    assert_eq!(t.subdivisions(), 4);
    assert_eq!(t.node_count(), 17);
    assert_ne!(t.leaf_of(0), t.leaf_of(1));
    assert_ne!(t.leaf_of(1), t.leaf_of(2));
    assert_ne!(t.leaf_of(0), t.leaf_of(2));
    assert_eq!(t.node(t.leaf_of(1)).bounds, Aabb { min: Vec2::new(8, 8), max: Vec2::new(9, 9) });
    assert_eq!(t.node(t.leaf_of(2)).bounds, Aabb { min: Vec2::new(9, 9), max: Vec2::new(10, 10) });
    check_sound(&t);
}

#[test]
fn identical_points_share_one_leaf_without_splitting() {
    let es = vec![entry(1, 5, 5), entry(2, 5, 5), entry(3, 5, 5)];
    let t = QuadTree::build(&es);
    assert_eq!(t.subdivisions(), 0);
    assert_eq!(t.node_count(), 1);
    assert_eq!(t.leaf_of(0), 0);
    assert_eq!(t.leaf_of(1), 0);
    assert_eq!(t.leaf_of(2), 0);
    assert_eq!(t.node(0).held, Some(Vec2::new(5, 5)));
    check_sound(&t);
}

#[test]
fn coincident_pair_beside_a_third_point() {
    let es = vec![entry(1, 0, 0), entry(2, 0, 0), entry(3, 3, 3)];
    let t = QuadTree::build(&es);
    assert_eq!(t.subdivisions(), 1);
    assert_eq!(t.leaf_of(0), t.leaf_of(1));
    assert_ne!(t.leaf_of(0), t.leaf_of(2));
    check_sound(&t);
}

#[test]
fn children_are_four_consecutive_quadrants() {
    let es = vec![entry(1, 0, 0), entry(2, 9, 9)];
    let t = QuadTree::build(&es);
    let root = t.node(0);
    assert_eq!(root.children, Some(1));
    assert_eq!(root.held, None);
    assert_eq!(t.node(1).bounds, Aabb { min: Vec2::new(0, 5), max: Vec2::new(5, 10) });
    assert_eq!(t.node(2).bounds, Aabb { min: Vec2::new(5, 5), max: Vec2::new(10, 10) });
    assert_eq!(t.node(3).bounds, Aabb { min: Vec2::new(0, 0), max: Vec2::new(5, 5) });
    assert_eq!(t.node(4).bounds, Aabb { min: Vec2::new(5, 0), max: Vec2::new(10, 5) });
    assert_eq!(t.leaf_of(0), 3);
    assert_eq!(t.leaf_of(1), 2);
    assert_eq!(t.render().len(), 5);
}

#[test]
fn empty_snapshot_builds_nothing() {
    let ps: Vec<Particle> = Vec::new();
    assert!(quadtree_system(&ps).is_none());
    let t = QuadTree::new(&Vec::new());
    assert_eq!(t.node_count(), 1);
    assert_eq!(t.entry_count(), 0);
}

#[test]
fn snapshot_of_bodies_is_sound() {
    let mut ps: Vec<Particle> = Vec::new();
    let mut id = 0;
    for x in -4..4 {
        for y in -3..5 {
            ParticleBundle::new().id(id).position(Vec2::from_units(x * 7, y * y)).mass(3).spawn(&mut ps);
            id += 1;
        }
    }
    let t = quadtree_system(&ps).unwrap();
    assert_eq!(t.entry_count(), ps.len());
    for k in 0..ps.len() {
        assert_eq!(t.entry(k).id, ps[k].id);
        assert_eq!(t.entry(k).position, ps[k].position);
        assert_eq!(t.entry(k).mass, 3);
    }
    check_sound(&t);
}

#[test]
fn repeated_positions_land_in_the_same_leaf_after_splits() {
    let es = vec![entry(1, 0, 0), entry(2, 9, 9), entry(3, 9, 9), entry(4, 0, 0), entry(5, 4, 4)];
    let t = QuadTree::build(&es);
    assert_eq!(t.leaf_of(1), t.leaf_of(2));
    assert_eq!(t.leaf_of(0), t.leaf_of(3));
    assert_ne!(t.leaf_of(0), t.leaf_of(1));
    assert_ne!(t.leaf_of(0), t.leaf_of(4));
    check_sound(&t);
}

#[test]
fn outline_lists_cells_depth_first() {
    let es = vec![entry(1, 0, 0), entry(2, 8, 8), entry(3, 9, 9)];
    let t = QuadTree::build(&es);
    let rows = t.visualize();
    assert_eq!(rows.len(), t.node_count());
    let order: Vec<(usize, usize)> = rows.iter().map(|r| (r.node, r.depth)).collect();
    assert_eq!(
        order,
        vec![
            (0, 0),
            (1, 1),
            (2, 1),
            (5, 2),
            (6, 2),
            (9, 3),
            (10, 3),
            (13, 4),
            (14, 4),
            (15, 4),
            (16, 4),
            (11, 3),
            (12, 3),
            (7, 2),
            (8, 2),
            (3, 1),
            (4, 1),
        ]
    );
    assert!(!rows[0].is_leaf);
    assert!(rows[3].is_leaf && !rows[3].has_particle);
    assert!(rows[16].is_leaf && !rows[16].has_particle);
    assert!(rows[15].is_leaf && rows[15].has_particle);
    let holding: Vec<usize> = rows.iter().filter(|r| r.has_particle).map(|r| r.node).collect();
    assert_eq!(holding, vec![14, 15, 3]);
}
