//! A deterministic flocking ("boids") simulation on a bounded plane, in
//! fixed-point arithmetic: four steering rules combined into one
//! acceleration, a velocity cap, position integration, and a quadtree
//! spatial index that keeps each agent's neighbour set local. The manager
//! here drives one tick: it steps every indexed agent against its own
//! bucket and rebuilds the index from the results.

use vstd::prelude::*;

pub mod boid;
pub mod math;
pub mod tree;

pub use boid::{Boid, FlockConfig, Vec2, flock};
pub use tree::{QuadTree, QuadTreeRegion};

use crate::boid::{COORD_LIMIT, flock_boid_spec, valid_boid, valid_flock_config};
use crate::tree::{
    boid_in_region, lemma_nearby_in_points, lemma_points_in_region, lemma_range_in_points,
};

verus! {

broadcast use vstd::multiset::group_multiset_axioms, vstd::seq_lib::group_to_multiset_ensures;

/// Largest population the manager accepts; keeps every bucket small
/// enough for the motion update's own neighbour cap.
pub const COUNT_LIMIT: u32 = 100_000;

/// Owns the population for one running simulation: the spatial index over
/// the current agents, a flat buffer of their positions and velocities
/// (four numbers per agent) for buffer-based consumers, and the world and
/// steering configuration.
pub struct BoidManager {
    pub boids: QuadTree,
    pub all: Vec<i64>,
    pub count: u32,
    pub width: i64,
    pub height: i64,
    pub bucket_size: u8,
    pub config: FlockConfig,
}

impl BoidManager {
    /// The world rectangle agents are stepped against and queried from.
    pub open spec fn world_spec(self) -> QuadTreeRegion {
        QuadTreeRegion { x: 0, y: 0, width: self.width, height: self.height }
    }

    /// The square region the index is built over (sided by the world
    /// width, as the index wants one splittable shape).
    pub open spec fn root_spec(self) -> QuadTreeRegion {
        QuadTreeRegion { x: 0, y: 0, width: self.width, height: self.width }
    }

    pub open spec fn wf(self) -> bool {
        &&& self.boids.wf()
        &&& self.boids.region == self.root_spec()
        &&& 2 <= self.width <= COORD_LIMIT
        &&& 0 <= self.height <= COORD_LIMIT
        &&& valid_flock_config(self.config)
        &&& self.count <= COUNT_LIMIT
        &&& self.all@.len() == 4 * self.count
        &&& self.boids.points_seq().len() <= self.count
        &&& forall|b: Boid|
            #[trigger] self.boids.points_seq().contains(b) ==> -self.config.max_speed
                <= b.velocity.x <= self.config.max_speed && -self.config.max_speed <= b.velocity.y
                <= self.config.max_speed
    }

    /// What one tick makes of one agent: stepped against its own bucket,
    /// or left as it is if the index does not know it.
    pub open spec fn stepped_spec(self, b: Boid) -> Boid {
        match self.boids.nearby_spec(b.position.x as int, b.position.y as int) {
            Some(ns) => flock_boid_spec(b, ns, self.width as int, self.height as int, self.config),
            None => b,
        }
    }

    /// The agents the rebuilt index holds after a tick that stepped `s`:
    /// each stepped, kept only while its new position is still inside the
    /// indexed region.
    pub open spec fn stepped_contained(self, s: Seq<Boid>) -> Seq<Boid>
        decreases s.len(),
    {
        if s.len() == 0 {
            Seq::empty()
        } else {
            let pre = self.stepped_contained(s.drop_last());
            let nb = self.stepped_spec(s.last());
            if boid_in_region(self.root_spec(), nb) {
                pre.push(nb)
            } else {
                pre
            }
        }
    }

    /// Where seeding puts agent `i`: on a horizontal line, a tenth of a
    /// world unit apart, at rest.
    pub open spec fn seeded_boid(i: int) -> Boid {
        Boid {
            position: Vec2 { x: (100_000 + 100 * i) as i64, y: 100_000 },
            velocity: Vec2 { x: 0, y: 0 },
            color: None,
        }
    }

    /// The seeded agents that land inside region `r`, in seeding order.
    pub open spec fn seeded_contained(n: int, r: QuadTreeRegion) -> Seq<Boid>
        decreases n,
    {
        if n <= 0 {
            Seq::empty()
        } else {
            let pre = Self::seeded_contained(n - 1, r);
            let b = Self::seeded_boid(n - 1);
            if boid_in_region(r, b) {
                pre.push(b)
            } else {
                pre
            }
        }
    }

    /// Agent `i`'s four buffer slots hold its seeded position and zero
    /// velocity.
    pub open spec fn seeded_slot(s: Seq<i64>, j: int) -> bool {
        &&& s[4 * j] == 100_000 + 100 * j
        &&& s[4 * j + 1] == 100_000
        &&& s[4 * j + 2] == 0
        &&& s[4 * j + 3] == 0
    }

    /// Seed `count` agents, mirror all of them into the flat buffer, and
    /// index the ones that fall inside the world square.
    pub fn new(count: u32, width: i64, height: i64, bucket_size: u8, config: FlockConfig) -> (m:
        BoidManager)
        requires
            2 <= width <= COORD_LIMIT,
            0 <= height <= COORD_LIMIT,
            valid_flock_config(config),
            count <= COUNT_LIMIT,
        ensures
            m.wf(),
            m.count == count,
            m.width == width,
            m.height == height,
            m.bucket_size == bucket_size,
            m.config == config,
            forall|i: int| 0 <= i < count ==> #[trigger] Self::seeded_slot(m.all@, i),
            m.boids.points_seq().to_multiset() == Self::seeded_contained(
                count as int,
                m.root_spec(),
            ).to_multiset(),
    {
        let root = QuadTreeRegion::square(0, 0, width);
        let mut boids = QuadTree::new(root, bucket_size);
        let mut all: Vec<i64> = Vec::new();
        let mut i: u32 = 0;
        while i < count
            invariant
                i <= count,
                count <= COUNT_LIMIT,
                2 <= width <= COORD_LIMIT,
                boids.wf(),
                boids.region == (QuadTreeRegion { x: 0, y: 0, width: width, height: width }),
                all@.len() == 4 * i,
                forall|j: int| 0 <= j < i ==> #[trigger] Self::seeded_slot(all@, j),
                boids.points_seq().to_multiset() == Self::seeded_contained(
                    i as int,
                    boids.region,
                ).to_multiset(),
                boids.points_seq().len() <= i,
                forall|b: Boid|
                    #[trigger] boids.points_seq().contains(b) ==> b.velocity.x == 0 && b.velocity.y
                        == 0,
            decreases count - i,
        {
            let x: i64 = 100_000 + 100 * (i as i64);
            let b = Boid {
                position: Vec2 { x: x, y: 100_000 },
                velocity: Vec2 { x: 0, y: 0 },
                color: None,
            };
            let ghost all0 = all@;
            all.push(x);
            all.push(100_000);
            all.push(0);
            all.push(0);
            proof {
                assert(all@.len() == 4 * (i as int) + 4);
                assert forall|j: int| 0 <= j < i as int + 1 implies #[trigger] Self::seeded_slot(
                    all@,
                    j,
                ) by {
                    if j < i as int {
                        assert(Self::seeded_slot(all0, j));
                        assert(all@[4 * j] == all0[4 * j]);
                        assert(all@[4 * j + 1] == all0[4 * j + 1]);
                        assert(all@[4 * j + 2] == all0[4 * j + 2]);
                        assert(all@[4 * j + 3] == all0[4 * j + 3]);
                    } else {
                        assert(all@[4 * j] == x);
                        assert(all@[4 * j + 1] == 100_000);
                        assert(all@[4 * j + 2] == 0);
                        assert(all@[4 * j + 3] == 0);
                    }
                };
            }
            let ghost prev = boids;
            let (t2, ins) = boids.insert(b);
            proof {
                assert(b == Self::seeded_boid(i as int));
                assert(ins == boid_in_region(prev.region, b));
                let pre = Self::seeded_contained(i as int, prev.region);
                assert(Self::seeded_contained(i as int + 1, prev.region) == if boid_in_region(
                    prev.region,
                    b,
                ) {
                    pre.push(b)
                } else {
                    pre
                });
                if ins {
                    assert(pre.push(b).to_multiset() == pre.to_multiset().insert(b));
                    vstd::multiset::lemma_insert_len(prev.points_seq().to_multiset(), b);
                    assert(t2.points_seq().to_multiset().len() == t2.points_seq().len());
                    assert(prev.points_seq().to_multiset().len() == prev.points_seq().len());
                }
                assert forall|bb: Boid| #[trigger] t2.points_seq().contains(bb) implies bb.velocity.x
                    == 0 && bb.velocity.y == 0 by {
                    assert(t2.points_seq().to_multiset().count(bb) > 0);
                    if bb != b {
                        assert(prev.points_seq().to_multiset().count(bb) > 0);
                        assert(prev.points_seq().contains(bb));
                    }
                };
            }
            boids = t2;
            i = i + 1;
        }
        BoidManager { boids, all, count, width, height, bucket_size, config }
    }

    /// One simulation tick: take every indexed agent (in index order),
    /// step each against its own bucket from the pre-tick index, mirror
    /// the results into the flat buffer, and rebuild the index from the
    /// stepped agents that are still inside the indexed square. The
    /// pre-tick index is read only, so agents stepped later in the pass
    /// never see the moves of agents stepped earlier.
    pub fn flock(&mut self)
        requires
            old(self).wf(),
        ensures
            final(self).wf(),
            final(self).count == old(self).count,
            final(self).width == old(self).width,
            final(self).height == old(self).height,
            final(self).bucket_size == old(self).bucket_size,
            final(self).config == old(self).config,
            final(self).all@.len() == old(self).all@.len(),
            ({
                let olds = old(self).boids.range_spec(old(self).world_spec());
                &&& forall|i: int|
                    0 <= i < olds.len() ==> {
                        let nb = old(self).stepped_spec(#[trigger] olds[i]);
                        final(self).all@[4 * i] == nb.position.x && final(self).all@[4 * i + 1]
                            == nb.position.y && final(self).all@[4 * i + 2] == nb.velocity.x
                            && final(self).all@[4 * i + 3] == nb.velocity.y
                    }
                &&& forall|j: int|
                    4 * olds.len() <= j < final(self).all@.len() ==> final(self).all@[j] == old(
                        self,
                    ).all@[j]
                &&& final(self).boids.points_seq().to_multiset() == old(self).stepped_contained(
                    olds,
                ).to_multiset()
            }),
    {
        let world = QuadTreeRegion { x: 0, y: 0, width: self.width, height: self.height };
        let olds: Vec<Boid> = self.boids.range_query(&world);
        proof {
            lemma_range_in_points(self.boids, world);
            lemma_points_in_region(self.boids);
        }
        let root = QuadTreeRegion::square(0, 0, self.width);
        let mut fresh: QuadTree = QuadTree::new(root, self.bucket_size);
        let mut i: usize = 0;
        while i < olds.len()
            invariant
                old(self).wf(),
                self.boids == old(self).boids,
                self.count == old(self).count,
                self.width == old(self).width,
                self.height == old(self).height,
                self.bucket_size == old(self).bucket_size,
                self.config == old(self).config,
                self.all@.len() == old(self).all@.len(),
                olds@ == old(self).boids.range_spec(old(self).world_spec()),
                olds@.len() <= old(self).count,
                forall|b: Boid|
                    #[trigger] olds@.contains(b) ==> old(self).boids.points_seq().contains(b),
                forall|b: Boid|
                    #[trigger] old(self).boids.points_seq().contains(b) ==> boid_in_region(
                        old(self).root_spec(),
                        b,
                    ),
                i <= olds@.len(),
                fresh.wf(),
                fresh.region == old(self).root_spec(),
                fresh.points_seq().to_multiset() == old(self).stepped_contained(
                    olds@.take(i as int),
                ).to_multiset(),
                fresh.points_seq().len() <= i,
                forall|b: Boid|
                    #[trigger] fresh.points_seq().contains(b) ==> -old(self).config.max_speed
                        <= b.velocity.x <= old(self).config.max_speed && -old(
                        self,
                    ).config.max_speed <= b.velocity.y <= old(self).config.max_speed,
                forall|k: int|
                    0 <= k < i ==> {
                        let nb = old(self).stepped_spec(#[trigger] olds@[k]);
                        self.all@[4 * k] == nb.position.x && self.all@[4 * k + 1] == nb.position.y
                            && self.all@[4 * k + 2] == nb.velocity.x && self.all@[4 * k + 3]
                            == nb.velocity.y
                    },
                forall|j: int|
                    4 * (i as int) <= j < self.all@.len() ==> self.all@[j] == old(self).all@[j],
            decreases olds@.len() - i,
        {
            let b: Boid = olds[i];
            proof {
                assert(olds@.contains(b));
                assert(old(self).boids.points_seq().contains(b));
                assert(boid_in_region(old(self).root_spec(), b));
                lemma_nearby_in_points(self.boids, b.position.x as int, b.position.y as int);
            }
            let nbs: Option<Vec<Boid>> = self.boids.nearby(&b);
            let stepped: Boid = match nbs {
                Some(ns) => {
                    proof {
                        let nsspec = old(self).boids.nearby_spec(
                            b.position.x as int,
                            b.position.y as int,
                        ).unwrap();
                        assert forall|j: int| 0 <= j < nsspec.len() implies valid_boid(
                            #[trigger] nsspec[j],
                        ) by {
                            assert(nsspec.contains(nsspec[j]));
                            assert(old(self).boids.points_seq().contains(nsspec[j]));
                        };
                    }
                    flock(&b, &ns, self.width, self.height, &self.config)
                },
                None => b,
            };
            proof {
                assert(stepped == old(self).stepped_spec(olds@[i as int]));
            }
            let base: usize = 4 * i;
            self.all[base] = stepped.position.x;
            self.all[base + 1] = stepped.position.y;
            self.all[base + 2] = stepped.velocity.x;
            self.all[base + 3] = stepped.velocity.y;
            let ghost prev = fresh;
            let (f2, ins) = fresh.insert(stepped);
            proof {
                assert(olds@.take(i as int + 1).drop_last() =~= olds@.take(i as int));
                assert(olds@.take(i as int + 1).last() == olds@[i as int]);
                let pre = old(self).stepped_contained(olds@.take(i as int));
                assert(old(self).stepped_contained(olds@.take(i as int + 1)) == if boid_in_region(
                    old(self).root_spec(),
                    stepped,
                ) {
                    pre.push(stepped)
                } else {
                    pre
                });
                assert(ins == boid_in_region(old(self).root_spec(), stepped));
                if ins {
                    assert(pre.push(stepped).to_multiset() == pre.to_multiset().insert(stepped));
                    vstd::multiset::lemma_insert_len(prev.points_seq().to_multiset(), stepped);
                    assert(f2.points_seq().to_multiset().len() == f2.points_seq().len());
                    assert(prev.points_seq().to_multiset().len() == prev.points_seq().len());
                    assert(pre.to_multiset().len() == pre.len());
                }
                assert forall|bb: Boid| #[trigger] f2.points_seq().contains(bb) implies -old(
                    self,
                ).config.max_speed <= bb.velocity.x <= old(self).config.max_speed && -old(
                    self,
                ).config.max_speed <= bb.velocity.y <= old(self).config.max_speed by {
                    assert(f2.points_seq().to_multiset().count(bb) > 0);
                    if bb != stepped {
                        assert(prev.points_seq().to_multiset().count(bb) > 0);
                        assert(prev.points_seq().contains(bb));
                    }
                };
            }
            fresh = f2;
            i = i + 1;
        }
        proof {
            assert(olds@.take(olds@.len() as int) =~= olds@);
        }
        self.boids = fresh;
    }

    /// The current agents as values, in index order: the plain-sequence
    /// counterpart of the flat buffer, for consumers that want agents
    /// rather than numbers.
    pub fn agents(&self) -> (r: Vec<Boid>)
        requires
            self.wf(),
        ensures
            r@ == self.boids.range_spec(self.world_spec()),
    {
        let world = QuadTreeRegion { x: 0, y: 0, width: self.width, height: self.height };
        self.boids.range_query(&world)
    }

    /// The flat buffer: four numbers per agent, position x and y then
    /// velocity x and y, in the order of the last tick's index walk.
    pub fn items(&self) -> (r: &Vec<i64>)
        ensures
            r@ == self.all@,
    {
        &self.all
    }

    /// How many numbers the buffer holds: four per agent.
    pub fn length(&self) -> (r: u32)
        requires
            self.count <= COUNT_LIMIT,
        ensures
            r == 4 * self.count,
    {
        self.count * 4
    }
}

} // verus!
