use boids::boid::{align, avoid, avoid_walls, cohede, separate};
use boids::tree::contains_point;
use boids::{flock, Boid, BoidManager, FlockConfig, QuadTree, QuadTreeRegion, Vec2};

fn make_boid(x: i64, y: i64) -> Boid {
    Boid {
        position: Vec2 { x, y },
        velocity: Vec2 { x: 0, y: 0 },
        color: Some(0xff0000),
    }
}

fn config() -> FlockConfig {
    FlockConfig {
        max_speed: 4_000,
        max_steer_force: 500,
        desired_separation: 500_000_000,
        neighbour_distance: 2_500_000_000,
        wall_weight: 25,
    }
}

#[test]
fn test_contains() {
    let ntree = QuadTree::new(QuadTreeRegion::square(0, 0, 100), 4);
    assert!(ntree.contains(&make_boid(50, 50)));
}

#[test]
fn test_insert() {
    let ntree = QuadTree::new(QuadTreeRegion::square(0, 0, 100), 4);
    let (ntree, inserted) = ntree.insert(make_boid(50, 50));
    assert!(inserted);
    assert_eq!(ntree.nearby(&make_boid(40, 40)), Some(vec![make_boid(50, 50)]));
}

#[test]
fn test_nearby() {
    let ntree = QuadTree::new(QuadTreeRegion::square(0, 0, 100), 4);

    // Bottom left corner
    let (ntree, _) = ntree.insert(make_boid(30, 30));
    let (ntree, _) = ntree.insert(make_boid(20, 20));
    let (ntree, _) = ntree.insert(make_boid(10, 10));

    // Top right corner
    let (ntree, _) = ntree.insert(make_boid(75, 75));

    // Top left corner
    let (ntree, _) = ntree.insert(make_boid(40, 70));

    // Bottom right corner
    let (ntree, _) = ntree.insert(make_boid(80, 20));

    // Bottom left corner
    assert_eq!(
        ntree.nearby(&make_boid(40, 40)),
        Some(vec![make_boid(30, 30), make_boid(20, 20), make_boid(10, 10)])
    );

    // Top right corner
    assert_eq!(ntree.nearby(&make_boid(90, 90)), Some(vec![make_boid(75, 75)]));

    // Top left corner
    assert_eq!(ntree.nearby(&make_boid(20, 80)), Some(vec![make_boid(40, 70)]));

    // Bottom right corner
    assert_eq!(ntree.nearby(&make_boid(94, 12)), Some(vec![make_boid(80, 20)]));
}

#[test]
fn test_range_query() {
    let ntree = QuadTree::new(QuadTreeRegion::square(0, 0, 100), 4);

    // Inside (y < 40)
    let (ntree, _) = ntree.insert(make_boid(30, 30));
    let (ntree, _) = ntree.insert(make_boid(20, 20));
    let (ntree, _) = ntree.insert(make_boid(10, 10));
    let (ntree, _) = ntree.insert(make_boid(60, 20));

    // Outside (y > 40)
    let (ntree, _) = ntree.insert(make_boid(60, 59));
    let (ntree, _) = ntree.insert(make_boid(60, 45));

    let result = ntree.range_query(&QuadTreeRegion { x: 0, y: 0, width: 100, height: 40 });

    assert_eq!(
        result,
        vec![make_boid(30, 30), make_boid(20, 20), make_boid(10, 10), make_boid(60, 20)]
    );
}

#[test]
fn test_overlaps() {
    assert!(QuadTreeRegion::square(0, 0, 100).overlaps(&QuadTreeRegion::square(50, 50, 100)));
}

#[test]
fn test_split() {
    let fifty: i64 = 100 / 2;
    assert_eq!(
        QuadTreeRegion::square(0, 0, 100).split(),
        vec![
            QuadTreeRegion { x: 0, y: 0, width: fifty, height: fifty },
            QuadTreeRegion { x: 0, y: 0 + fifty, width: fifty, height: fifty },
            QuadTreeRegion { x: 0 + fifty, y: 0, width: fifty, height: fifty },
            QuadTreeRegion { x: 0 + fifty, y: 0 + fifty, width: fifty, height: fifty },
        ]
    );
}

// World 1000 x 700 units, one agent at (400, 300) with velocity (0.1, 0.2),
// no neighbours, max_speed 2.0, max_steer_force 0.02: the new velocity is
// the old one plus the four wall repulsions alone, and the position moves
// by it. All values in thousandths of a world unit; the wall sum is
// (62 - 41, 83 - 62) = (21, 21) after truncating division.
#[test]
fn lone_agent_feels_walls_only() {
    let boid = Boid {
        position: Vec2 { x: 400_000, y: 300_000 },
        velocity: Vec2 { x: 100, y: 200 },
        color: None,
    };
    let cfg = FlockConfig {
        max_speed: 2_000,
        max_steer_force: 20,
        desired_separation: 500_000_000,
        neighbour_distance: 2_500_000_000,
        wall_weight: 25,
    };
    let next = flock(&boid, &vec![], 1_000_000, 700_000, &cfg);
    assert_eq!(next.velocity, Vec2 { x: 121, y: 221 });
    assert_eq!(next.position, Vec2 { x: 400_121, y: 300_221 });
    assert_eq!(next.color, None);
}

#[test]
fn empty_neighbours_contribute_nothing() {
    let boid = make_boid(400_000, 300_000);
    let none: Vec<Boid> = vec![];
    assert_eq!(align(&none, 500), Vec2 { x: 0, y: 0 });
    assert_eq!(separate(&boid, &none, 500_000_000), Vec2 { x: 0, y: 0 });
    assert_eq!(cohede(&boid, &none, 500), Vec2 { x: 0, y: 0 });
}

// A fast agent far from every wall is braked to exactly max_speed.
#[test]
fn velocity_is_capped_at_max_speed() {
    let boid = Boid {
        position: Vec2 { x: 500_000, y: 350_000 },
        velocity: Vec2 { x: 9_000, y: 0 },
        color: None,
    };
    let cfg = FlockConfig {
        max_speed: 2_000,
        max_steer_force: 20,
        desired_separation: 500_000_000,
        neighbour_distance: 2_500_000_000,
        wall_weight: 25,
    };
    let next = flock(&boid, &vec![], 1_000_000, 700_000, &cfg);
    assert_eq!(next.velocity, Vec2 { x: 2_000, y: 0 });
    let m2 = next.velocity.x * next.velocity.x + next.velocity.y * next.velocity.y;
    assert!(m2 <= cfg.max_speed * cfg.max_speed);
}

// Two neighbours at mirror-image offsets push equally hard in opposite
// directions: the separation steering cancels to zero.
#[test]
fn symmetric_neighbours_cancel_separation() {
    let cur = make_boid(500, 500);
    let pair = vec![make_boid(400, 500), make_boid(600, 500)];
    assert_eq!(separate(&cur, &pair, 500_000_000), Vec2 { x: 0, y: 0 });
    let diag = vec![make_boid(400, 400), make_boid(600, 600)];
    assert_eq!(separate(&cur, &diag, 500_000_000), Vec2 { x: 0, y: 0 });
}

#[test]
fn single_neighbour_separation_value() {
    let cur = make_boid(500, 500);
    let one = vec![make_boid(400, 500)];
    // Offset (100, 0), squared distance 10000, root 100: the push is
    // 100 * 1000^3 / (100 * 10000) = 100000 fixed-point steps.
    assert_eq!(separate(&cur, &one, 500_000_000), Vec2 { x: 100_000, y: 0 });
}

#[test]
fn alignment_exact_value() {
    let mut a = make_boid(0, 0);
    a.velocity = Vec2 { x: 100, y: 200 };
    let mut b = make_boid(0, 0);
    b.velocity = Vec2 { x: 300, y: 400 };
    // Sum (400, 600) over two neighbours with max_steer_force 500:
    // (400 * 500 / 2000, 600 * 500 / 2000) = (100, 150).
    assert_eq!(align(&vec![a, b], 500), Vec2 { x: 100, y: 150 });
}

#[test]
fn cohesion_caps_at_max_steer_force() {
    let cur = make_boid(0, 0);
    let flockmates = vec![make_boid(1_000, 0), make_boid(3_000, 0)];
    // Centroid (2000, 0) is 2000 away, over the 500 cap: rescaled to 500.
    assert_eq!(cohede(&cur, &flockmates, 500), Vec2 { x: 500, y: 0 });
    // A centroid within the cap passes through unchanged.
    let near = vec![make_boid(100, 0), make_boid(300, 0)];
    assert_eq!(cohede(&cur, &near, 500), Vec2 { x: 200, y: 0 });
}

#[test]
fn wall_repulsion_exact_values() {
    // At the bottom-left corner of a 1000 x 700 world the two walls the
    // agent sits on contribute nothing (zero distance is guarded), the
    // two far walls push it back in: (-25, -35).
    assert_eq!(
        avoid_walls(Vec2 { x: 0, y: 0 }, 1_000_000, 700_000, 25),
        Vec2 { x: -25, y: -35 }
    );
    // A target at the agent's own position repels nothing.
    assert_eq!(
        avoid(Vec2 { x: 7, y: 9 }, Vec2 { x: 7, y: 9 }, 25),
        Vec2 { x: 0, y: 0 }
    );
}

// Boundary points count as inside: closed intervals on all four edges.
#[test]
fn region_boundary_is_inside() {
    let r = QuadTreeRegion { x: 0, y: 0, width: 100, height: 100 };
    assert!(contains_point(&r, Vec2 { x: 0, y: 50 }));
    assert!(contains_point(&r, Vec2 { x: 100, y: 50 }));
    assert!(contains_point(&r, Vec2 { x: 50, y: 0 }));
    assert!(contains_point(&r, Vec2 { x: 50, y: 100 }));
    assert!(contains_point(&r, Vec2 { x: 0, y: 0 }));
    assert!(contains_point(&r, Vec2 { x: 100, y: 100 }));
    assert!(!contains_point(&r, Vec2 { x: 101, y: 50 }));
    assert!(!contains_point(&r, Vec2 { x: 50, y: -1 }));
}

// Splitting an odd-sided region still tiles it exactly: areas sum to the
// parent's, and sampled interior points land in exactly one child.
#[test]
fn split_preserves_area_and_partitions() {
    let r = QuadTreeRegion::square(0, 0, 101);
    let cs = r.split();
    assert_eq!(cs.len(), 4);
    let total: i64 = cs.iter().map(|c| c.width * c.height).sum();
    assert_eq!(total, 101 * 101);
    let samples = [
        Vec2 { x: 25, y: 25 },
        Vec2 { x: 25, y: 75 },
        Vec2 { x: 75, y: 25 },
        Vec2 { x: 75, y: 75 },
        Vec2 { x: 1, y: 99 },
        Vec2 { x: 99, y: 1 },
    ];
    for p in samples.iter() {
        let hits = cs.iter().filter(|c| contains_point(c, *p)).count();
        assert_eq!(hits, 1);
    }
}

// Identical inputs give bit-identical results, for the step and for the
// adapter predicates alike.
#[test]
fn step_and_predicates_are_deterministic() {
    let boid = Boid {
        position: Vec2 { x: 123_456, y: 654_321 },
        velocity: Vec2 { x: 321, y: -123 },
        color: Some(0x00ff00),
    };
    let flockmates = vec![make_boid(123_000, 654_000), make_boid(124_000, 655_000)];
    let first = flock(&boid, &flockmates, 1_910_000, 1_080_000, &config());
    let second = flock(&boid, &flockmates, 1_910_000, 1_080_000, &config());
    assert_eq!(first, second);

    let r = QuadTreeRegion::square(10, 20, 300);
    let q = QuadTreeRegion { x: 200, y: 200, width: 400, height: 50 };
    assert_eq!(r.contains(&boid), r.contains(&boid));
    assert_eq!(r.split(), r.split());
    assert_eq!(r.overlaps(&q), r.overlaps(&q));
}

// A bucket over a region too small to quarter grows past its cap instead
// of subdividing without end; its agents stay reachable.
#[test]
fn degenerate_bucket_grows_past_its_cap() {
    let tree = QuadTree::new(QuadTreeRegion::square(0, 0, 2), 1);
    let (tree, a) = tree.insert(make_boid(0, 0));
    let (tree, b) = tree.insert(make_boid(0, 0));
    let (tree, c) = tree.insert(make_boid(0, 0));
    assert!(a && b && c);
    assert_eq!(
        tree.nearby(&make_boid(0, 0)),
        Some(vec![make_boid(0, 0), make_boid(0, 0), make_boid(0, 0)])
    );
}

#[test]
fn manager_seeds_line_of_agents() {
    let m = BoidManager::new(3, 1_910_000, 1_080_000, 50, config());
    assert_eq!(m.length(), 12);
    assert_eq!(
        m.items().clone(),
        vec![100_000, 100_000, 0, 0, 100_100, 100_000, 0, 0, 100_200, 100_000, 0, 0]
    );
}

// One tick of a single resting agent: its own bucket holds only itself,
// so alignment, separation and cohesion all vanish and the walls of the
// 1910 x 1080 world accelerate it by (250 - 13, 250 - 25).
#[test]
fn manager_tick_moves_lone_agent_by_wall_push() {
    let mut m = BoidManager::new(1, 1_910_000, 1_080_000, 50, config());
    m.flock();
    assert_eq!(m.items().clone(), vec![100_237, 100_225, 237, 225]);
    assert_eq!(m.length(), 4);
}

#[test]
fn manager_agents_mirror_the_buffer() {
    let m = BoidManager::new(3, 1_910_000, 1_080_000, 50, config());
    let agents = m.agents();
    assert_eq!(agents.len(), 3);
    for (i, a) in agents.iter().enumerate() {
        assert_eq!(a.position, Vec2 { x: 100_000 + 100 * i as i64, y: 100_000 });
        assert_eq!(a.velocity, Vec2 { x: 0, y: 0 });
    }
}

#[test]
fn manager_ticks_are_deterministic() {
    let mut m1 = BoidManager::new(40, 1_910_000, 1_080_000, 8, config());
    let mut m2 = BoidManager::new(40, 1_910_000, 1_080_000, 8, config());
    for _ in 0..5 {
        m1.flock();
        m2.flock();
    }
    assert_eq!(m1.items().clone(), m2.items().clone());
}
