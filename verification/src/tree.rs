//! The spatial side of the simulation: the axis-aligned region type with
//! the three geometric predicates the index needs (containment, splitting
//! into quadrants, corner-based overlap), and the quadtree index built on
//! them that hands each agent its local bucket of neighbours.

use vstd::prelude::*;
use vstd::multiset::Multiset;
use crate::boid::{Boid, Vec2, COORD_LIMIT};

verus! {

broadcast use vstd::multiset::group_multiset_axioms, vstd::seq_lib::group_to_multiset_ensures;

/// An axis-aligned rectangle `[x, x+width] x [y, y+height]` in world
/// coordinates. Width and height are never negative.
#[derive(Clone, Copy, PartialEq, Eq, Debug)]
pub struct QuadTreeRegion {
    pub x: i64,
    pub y: i64,
    pub width: i64,
    pub height: i64,
}

/// Bounds under which the predicates below are free of overflow.
pub open spec fn valid_region(r: QuadTreeRegion) -> bool {
    &&& r.width >= 0
    &&& r.height >= 0
    &&& -COORD_LIMIT <= r.x
    &&& r.x + r.width <= COORD_LIMIT
    &&& -COORD_LIMIT <= r.y
    &&& r.y + r.height <= COORD_LIMIT
}

/// Closed-interval membership: points exactly on an edge are inside.
pub open spec fn region_contains(r: QuadTreeRegion, px: int, py: int) -> bool {
    &&& r.x <= px <= r.x + r.width
    &&& r.y <= py <= r.y + r.height
}

/// Strict membership, used to state that split children share only edges.
pub open spec fn region_contains_interior(r: QuadTreeRegion, px: int, py: int) -> bool {
    &&& r.x < px < r.x + r.width
    &&& r.y < py < r.y + r.height
}

pub open spec fn area(r: QuadTreeRegion) -> int {
    r.width * r.height
}

/// The four quadrants of a region, in bottom-left, top-left, bottom-right,
/// top-right order. The left and bottom children take the rounded-down
/// half width and height and the right and top children the rest, so the
/// four tile the parent exactly.
pub open spec fn split_spec(r: QuadTreeRegion) -> Seq<QuadTreeRegion> {
    let wl = (r.width as int / 2) as i64;
    let hb = (r.height as int / 2) as i64;
    let wr = (r.width - wl) as i64;
    let ht = (r.height - hb) as i64;
    seq![
        QuadTreeRegion { x: r.x, y: r.y, width: wl, height: hb },
        QuadTreeRegion { x: r.x, y: (r.y + hb) as i64, width: wl, height: ht },
        QuadTreeRegion { x: (r.x + wl) as i64, y: r.y, width: wr, height: hb },
        QuadTreeRegion { x: (r.x + wl) as i64, y: (r.y + hb) as i64, width: wr, height: ht },
    ]
}

/// Corner-containment overlap test: true iff one of `a`'s corners lies in
/// `b`. A deliberate approximation carried over from the index's contract:
/// two regions that cross without either holding a corner of the other are
/// not reported as overlapping.
pub open spec fn overlaps_spec(a: QuadTreeRegion, b: QuadTreeRegion) -> bool {
    ||| region_contains(b, a.x as int, a.y as int)
    ||| region_contains(b, a.x + a.width, a.y as int)
    ||| region_contains(b, a.x as int, a.y + a.height)
    ||| region_contains(b, a.x + a.width, a.y + a.height)
}

/// Closed-interval containment of a bare point.
pub fn contains_point(region: &QuadTreeRegion, point: Vec2) -> (res: bool)
    requires
        valid_region(*region),
    ensures
        res == region_contains(*region, point.x as int, point.y as int),
{
    region.x <= point.x && region.y <= point.y && region.x + region.width >= point.x && region.y
        + region.height >= point.y
}

impl QuadTreeRegion {
    /// A square region with the given corner and side length.
    pub fn square(x: i64, y: i64, wh: i64) -> (r: QuadTreeRegion)
        ensures
            r == (QuadTreeRegion { x: x, y: y, width: wh, height: wh }),
    {
        QuadTreeRegion { x: x, y: y, width: wh, height: wh }
    }

    /// Closed-interval containment of an agent's position: boundary points
    /// count as inside.
    pub fn contains(&self, boid: &Boid) -> (res: bool)
        requires
            valid_region(*self),
        ensures
            res == region_contains(*self, boid.position.x as int, boid.position.y as int),
    {
        self.x <= boid.position.x && self.y <= boid.position.y && self.x + self.width
            >= boid.position.x && self.y + self.height >= boid.position.y
    }

    /// The four quadrants, bottom-left, top-left, bottom-right, top-right.
    pub fn split(&self) -> (cs: Vec<QuadTreeRegion>)
        requires
            valid_region(*self),
        ensures
            cs@ == split_spec(*self),
            cs@.len() == 4,
    {
        let halfwidth: i64 = ((self.width as u64) / 2) as i64;
        let halfheight: i64 = ((self.height as u64) / 2) as i64;
        let restwidth: i64 = self.width - halfwidth;
        let restheight: i64 = self.height - halfheight;
        let mut cs: Vec<QuadTreeRegion> = Vec::new();
        cs.push(QuadTreeRegion { x: self.x, y: self.y, width: halfwidth, height: halfheight });
        cs.push(
            QuadTreeRegion {
                x: self.x,
                y: self.y + halfheight,
                width: halfwidth,
                height: restheight,
            },
        );
        cs.push(
            QuadTreeRegion {
                x: self.x + halfwidth,
                y: self.y,
                width: restwidth,
                height: halfheight,
            },
        );
        cs.push(
            QuadTreeRegion {
                x: self.x + halfwidth,
                y: self.y + halfheight,
                width: restwidth,
                height: restheight,
            },
        );
        proof {
            assert(cs@ =~= split_spec(*self));
        }
        cs
    }

    /// Corner-containment overlap with another region (see
    /// `overlaps_spec` for the approximation this makes).
    pub fn overlaps(&self, other: &QuadTreeRegion) -> (res: bool)
        requires
            valid_region(*self),
            valid_region(*other),
        ensures
            res == overlaps_spec(*self, *other),
    {
        contains_point(other, Vec2 { x: self.x, y: self.y }) || contains_point(
            other,
            Vec2 { x: self.x + self.width, y: self.y },
        ) || contains_point(other, Vec2 { x: self.x, y: self.y + self.height }) || contains_point(
            other,
            Vec2 { x: self.x + self.width, y: self.y + self.height },
        )
    }
}

/// When the corner test reports an overlap there really is a shared
/// point: the corner it found lies in both regions. The converse can
/// fail — two regions that cross without either holding a corner of the
/// other go unreported — which is the approximation `overlaps_spec`
/// knowingly makes.
pub proof fn lemma_overlaps_sound(a: QuadTreeRegion, b: QuadTreeRegion)
    requires
        a.width >= 0,
        a.height >= 0,
        overlaps_spec(a, b),
    ensures
        exists|px: int, py: int|
            #[trigger] region_contains(a, px, py) && region_contains(b, px, py),
{
    if region_contains(b, a.x as int, a.y as int) {
        assert(region_contains(a, a.x as int, a.y as int));
    } else if region_contains(b, a.x + a.width, a.y as int) {
        assert(region_contains(a, a.x + a.width, a.y as int));
    } else if region_contains(b, a.x as int, a.y + a.height) {
        assert(region_contains(a, a.x as int, a.y + a.height));
    } else {
        assert(region_contains(a, a.x + a.width, a.y + a.height));
    }
}

/// Splitting a non-degenerate region quarters it exactly: the children's
/// areas sum to the parent's, their interiors are pairwise disjoint, and
/// together they cover every point of the parent.
pub proof fn lemma_split_partitions(r: QuadTreeRegion)
    requires
        valid_region(r),
        r.width > 0,
        r.height > 0,
    ensures
        split_spec(r).len() == 4,
        area(split_spec(r)[0]) + area(split_spec(r)[1]) + area(split_spec(r)[2]) + area(
            split_spec(r)[3],
        ) == area(r),
        forall|i: int, j: int, px: int, py: int|
            0 <= i < j < 4 ==> !(#[trigger] region_contains_interior(split_spec(r)[i], px, py)
                && #[trigger] region_contains_interior(split_spec(r)[j], px, py)),
        forall|px: int, py: int|
            #[trigger] region_contains(r, px, py) ==> region_contains(split_spec(r)[0], px, py)
                || region_contains(split_spec(r)[1], px, py) || region_contains(
                split_spec(r)[2],
                px,
                py,
            ) || region_contains(split_spec(r)[3], px, py),
{
    let wl = r.width as int / 2;
    let hb = r.height as int / 2;
    let wr = r.width - wl;
    let ht = r.height - hb;
    assert(wl * hb + wl * ht + wr * hb + wr * ht == r.width * r.height) by (nonlinear_arith)
        requires
            wl + wr == r.width as int,
            hb + ht == r.height as int,
    ;
}

/// The children of a split are valid regions, strictly smaller than the
/// parent, and contained in it.
pub proof fn lemma_split_children(r: QuadTreeRegion)
    requires
        valid_region(r),
        r.width >= 2,
        r.height >= 2,
    ensures
        forall|i: int|
            0 <= i < 4 ==> valid_region(#[trigger] split_spec(r)[i]) && split_spec(r)[i].width >= 1
                && split_spec(r)[i].height >= 1 && split_spec(r)[i].width + split_spec(r)[i].height
                < r.width + r.height,
        forall|i: int, px: int, py: int|
            0 <= i < 4 && #[trigger] region_contains(split_spec(r)[i], px, py) ==> region_contains(
                r,
                px,
                py,
            ),
{
}

/// Either a leaf bucket of agents, capped at `bucket_limit` before the
/// node splits, or an interior node with the four quadrant children in
/// bottom-left, top-left, bottom-right, top-right order.
pub enum QuadTreeKind {
    Bucket { points: Vec<Boid>, bucket_limit: u8 },
    Branch { children: Box<(QuadTree, QuadTree, QuadTree, QuadTree)> },
}

/// The spatial index: a quadtree over closed regions. Every stored agent
/// sits in the bucket of the finest region that contains its position.
pub struct QuadTree {
    pub region: QuadTreeRegion,
    pub kind: QuadTreeKind,
}

pub open spec fn boid_in_region(r: QuadTreeRegion, b: Boid) -> bool {
    region_contains(r, b.position.x as int, b.position.y as int)
}

impl QuadTree {
    /// Well-formedness: regions are valid, every bucketed agent lies in
    /// its bucket's region, and a branch's children are exactly the
    /// quadrants of its own (splittable) region.
    pub open spec fn wf(self) -> bool
        decreases self,
    {
        &&& valid_region(self.region)
        &&& match self.kind {
            QuadTreeKind::Bucket { points, bucket_limit } => forall|i: int|
                0 <= i < points@.len() ==> boid_in_region(self.region, #[trigger] points@[i]),
            QuadTreeKind::Branch { children } => {
                &&& self.region.width >= 2
                &&& self.region.height >= 2
                &&& children.0.region == split_spec(self.region)[0]
                &&& children.1.region == split_spec(self.region)[1]
                &&& children.2.region == split_spec(self.region)[2]
                &&& children.3.region == split_spec(self.region)[3]
                &&& children.0.wf()
                &&& children.1.wf()
                &&& children.2.wf()
                &&& children.3.wf()
            },
        }
    }

    /// Every stored agent, in depth-first child order, buckets in
    /// insertion order.
    pub open spec fn points_seq(self) -> Seq<Boid>
        decreases self,
    {
        match self.kind {
            QuadTreeKind::Bucket { points, .. } => points@,
            QuadTreeKind::Branch { children } => children.0.points_seq() + children.1.points_seq()
                + children.2.points_seq() + children.3.points_seq(),
        }
    }
}

/// The members of `s` whose position lies in `q`, in their original order.
pub open spec fn contained_points(s: Seq<Boid>, q: QuadTreeRegion) -> Seq<Boid>
    decreases s.len(),
{
    if s.len() == 0 {
        Seq::empty()
    } else {
        let pre = contained_points(s.drop_last(), q);
        if boid_in_region(q, s.last()) {
            pre.push(s.last())
        } else {
            pre
        }
    }
}

/// Branches order before buckets, so that replacing a full bucket by a
/// branch over the same region is a step down.
pub open spec fn kind_rank(k: QuadTreeKind) -> int {
    match k {
        QuadTreeKind::Branch { .. } => 0,
        QuadTreeKind::Bucket { .. } => 1,
    }
}

impl QuadTree {
    /// What `nearby` answers: descend to the leaf bucket whose region
    /// holds the queried position (trying children in order) and give all
    /// of that bucket; nothing if the position is outside the tree.
    pub open spec fn nearby_spec(self, px: int, py: int) -> Option<Seq<Boid>>
        decreases self,
    {
        if !region_contains(self.region, px, py) {
            None
        } else {
            match self.kind {
                QuadTreeKind::Bucket { points, .. } => Some(points@),
                QuadTreeKind::Branch { children } => {
                    if region_contains(children.0.region, px, py) {
                        children.0.nearby_spec(px, py)
                    } else if region_contains(children.1.region, px, py) {
                        children.1.nearby_spec(px, py)
                    } else if region_contains(children.2.region, px, py) {
                        children.2.nearby_spec(px, py)
                    } else if region_contains(children.3.region, px, py) {
                        children.3.nearby_spec(px, py)
                    } else {
                        None
                    }
                },
            }
        }
    }

    /// What `range_query` answers: walk the subtrees whose region passes
    /// the corner-overlap test against the query, in child order, and keep
    /// the agents the query region contains.
    pub open spec fn range_spec(self, q: QuadTreeRegion) -> Seq<Boid>
        decreases self,
    {
        if !overlaps_spec(self.region, q) {
            Seq::empty()
        } else {
            match self.kind {
                QuadTreeKind::Bucket { points, .. } => contained_points(points@, q),
                QuadTreeKind::Branch { children } => children.0.range_spec(q)
                    + children.1.range_spec(q) + children.2.range_spec(q) + children.3.range_spec(
                    q,
                ),
            }
        }
    }
}

proof fn lemma_concat_contains(a: Seq<Boid>, b: Seq<Boid>, x: Boid)
    requires
        a.contains(x) || b.contains(x),
    ensures
        (a + b).contains(x),
{
    if a.contains(x) {
        let i = choose|i: int| 0 <= i < a.len() && a[i] == x;
        assert((a + b)[i] == x);
    } else {
        let i = choose|i: int| 0 <= i < b.len() && b[i] == x;
        assert((a + b)[a.len() + i] == x);
    }
}

proof fn lemma_concat_contains_split(a: Seq<Boid>, b: Seq<Boid>, x: Boid)
    requires
        (a + b).contains(x),
    ensures
        a.contains(x) || b.contains(x),
{
    let i = choose|i: int| 0 <= i < (a + b).len() && (a + b)[i] == x;
    if i < a.len() {
        assert(a[i] == x);
    } else {
        assert(b[i - a.len()] == x);
    }
}

/// Concatenation of sequences adds their multisets.
proof fn lemma_to_multiset_concat(a: Seq<Boid>, b: Seq<Boid>)
    ensures
        (a + b).to_multiset() == a.to_multiset().add(b.to_multiset()),
    decreases b.len(),
{
    if b.len() == 0 {
        assert(a + b =~= a);
        assert(forall|x: Boid| b.to_multiset().count(x) == 0);
        assert((a + b).to_multiset() =~= a.to_multiset().add(b.to_multiset()));
    } else {
        lemma_to_multiset_concat(a, b.drop_last());
        assert(a + b =~= (a + b.drop_last()).push(b.last()));
        assert(b =~= b.drop_last().push(b.last()));
        assert((a + b).to_multiset() =~= a.to_multiset().add(b.to_multiset()));
    }
}

proof fn lemma_contained_points_sub(s: Seq<Boid>, q: QuadTreeRegion)
    ensures
        contained_points(s, q).len() <= s.len(),
        forall|b: Boid| #[trigger] contained_points(s, q).contains(b) ==> s.contains(b),
    decreases s.len(),
{
    if s.len() == 0 {
    } else {
        lemma_contained_points_sub(s.drop_last(), q);
        let pre = contained_points(s.drop_last(), q);
        let cp = contained_points(s, q);
        assert forall|b: Boid| #[trigger] cp.contains(b) implies s.contains(b) by {
            let i = choose|i: int| 0 <= i < cp.len() && cp[i] == b;
            if i < pre.len() {
                assert(pre[i] == b);
                assert(pre.contains(b));
                assert(s.drop_last().contains(b));
                let j = choose|j: int| 0 <= j < s.drop_last().len() && s.drop_last()[j] == b;
                assert(s[j] == b);
            } else {
                assert(cp[i] == s.last());
                assert(s[s.len() - 1] == b);
            }
        };
    }
}

/// Every agent a tree hands out in a bucket or range answer is one of its
/// stored agents, and every stored agent lies in the tree's region.
pub proof fn lemma_points_in_region(t: QuadTree)
    requires
        t.wf(),
    ensures
        forall|b: Boid| #[trigger] t.points_seq().contains(b) ==> boid_in_region(t.region, b),
    decreases t,
{
    match t.kind {
        QuadTreeKind::Bucket { points, .. } => {
            assert forall|b: Boid| #[trigger] t.points_seq().contains(b) implies boid_in_region(
                t.region,
                b,
            ) by {
                let i = choose|i: int| 0 <= i < points@.len() && points@[i] == b;
            };
        },
        QuadTreeKind::Branch { children } => {
            lemma_points_in_region(children.0);
            lemma_points_in_region(children.1);
            lemma_points_in_region(children.2);
            lemma_points_in_region(children.3);
            lemma_split_children(t.region);
            let s0 = children.0.points_seq();
            let s1 = children.1.points_seq();
            let s2 = children.2.points_seq();
            let s3 = children.3.points_seq();
            assert forall|b: Boid| #[trigger] t.points_seq().contains(b) implies boid_in_region(
                t.region,
                b,
            ) by {
                lemma_concat_contains_split(s0 + s1 + s2, s3, b);
                if (s0 + s1 + s2).contains(b) {
                    lemma_concat_contains_split(s0 + s1, s2, b);
                    if (s0 + s1).contains(b) {
                        lemma_concat_contains_split(s0, s1, b);
                    }
                }
            };
        },
    }
}

/// A range answer is a sub-collection of the stored agents.
pub proof fn lemma_range_in_points(t: QuadTree, q: QuadTreeRegion)
    requires
        t.wf(),
    ensures
        t.range_spec(q).len() <= t.points_seq().len(),
        forall|b: Boid| #[trigger] t.range_spec(q).contains(b) ==> t.points_seq().contains(b),
    decreases t,
{
    if !overlaps_spec(t.region, q) {
    } else {
        match t.kind {
            QuadTreeKind::Bucket { points, .. } => {
                lemma_contained_points_sub(points@, q);
            },
            QuadTreeKind::Branch { children } => {
                lemma_range_in_points(children.0, q);
                lemma_range_in_points(children.1, q);
                lemma_range_in_points(children.2, q);
                lemma_range_in_points(children.3, q);
                let r0 = children.0.range_spec(q);
                let r1 = children.1.range_spec(q);
                let r2 = children.2.range_spec(q);
                let r3 = children.3.range_spec(q);
                let s0 = children.0.points_seq();
                let s1 = children.1.points_seq();
                let s2 = children.2.points_seq();
                let s3 = children.3.points_seq();
                assert forall|b: Boid| #[trigger] t.range_spec(q).contains(b) implies
                    t.points_seq().contains(b) by {
                    lemma_concat_contains_split(r0 + r1 + r2, r3, b);
                    if (r0 + r1 + r2).contains(b) {
                        lemma_concat_contains_split(r0 + r1, r2, b);
                        if (r0 + r1).contains(b) {
                            lemma_concat_contains_split(r0, r1, b);
                        }
                    }
                    if s0.contains(b) || s1.contains(b) {
                        lemma_concat_contains(s0, s1, b);
                    }
                    if (s0 + s1).contains(b) || s2.contains(b) {
                        lemma_concat_contains(s0 + s1, s2, b);
                    }
                    lemma_concat_contains(s0 + s1 + s2, s3, b);
                };
            },
        }
    }
}

/// A nearby answer is one bucket's worth of the stored agents.
pub proof fn lemma_nearby_in_points(t: QuadTree, px: int, py: int)
    requires
        t.wf(),
    ensures
        match t.nearby_spec(px, py) {
            Some(s) => s.len() <= t.points_seq().len() && forall|b: Boid|
                #[trigger] s.contains(b) ==> t.points_seq().contains(b),
            None => true,
        },
    decreases t,
{
    if !region_contains(t.region, px, py) {
    } else {
        match t.kind {
            QuadTreeKind::Bucket { points, .. } => {},
            QuadTreeKind::Branch { children } => {
                lemma_nearby_in_points(children.0, px, py);
                lemma_nearby_in_points(children.1, px, py);
                lemma_nearby_in_points(children.2, px, py);
                lemma_nearby_in_points(children.3, px, py);
                let s0 = children.0.points_seq();
                let s1 = children.1.points_seq();
                let s2 = children.2.points_seq();
                let s3 = children.3.points_seq();
                if let Some(s) = t.nearby_spec(px, py) {
                    assert forall|b: Boid| #[trigger] s.contains(b) implies
                        t.points_seq().contains(b) by {
                        if s0.contains(b) || s1.contains(b) {
                            lemma_concat_contains(s0, s1, b);
                        }
                        if (s0 + s1).contains(b) || s2.contains(b) {
                            lemma_concat_contains(s0 + s1, s2, b);
                        }
                        lemma_concat_contains(s0 + s1 + s2, s3, b);
                    };
                }
            },
        }
    }
}

impl QuadTree {
    /// An empty index over `region`: the region is quartered right away,
    /// each quadrant starting with an empty bucket capped at `size`.
    pub fn new(region: QuadTreeRegion, size: u8) -> (t: QuadTree)
        requires
            valid_region(region),
            region.width >= 2,
            region.height >= 2,
        ensures
            t.wf(),
            t.region == region,
            t.points_seq() == Seq::<Boid>::empty(),
            kind_rank(t.kind) == 0,
    {
        proof {
            lemma_split_children(region);
        }
        let cs: Vec<QuadTreeRegion> = region.split();
        let c0 = QuadTree {
            region: cs[0],
            kind: QuadTreeKind::Bucket { points: Vec::new(), bucket_limit: size },
        };
        let c1 = QuadTree {
            region: cs[1],
            kind: QuadTreeKind::Bucket { points: Vec::new(), bucket_limit: size },
        };
        let c2 = QuadTree {
            region: cs[2],
            kind: QuadTreeKind::Bucket { points: Vec::new(), bucket_limit: size },
        };
        let c3 = QuadTree {
            region: cs[3],
            kind: QuadTreeKind::Bucket { points: Vec::new(), bucket_limit: size },
        };
        proof {
            assert(c0.wf() && c1.wf() && c2.wf() && c3.wf());
            assert(c0.points_seq() =~= Seq::<Boid>::empty());
            assert(c1.points_seq() =~= Seq::<Boid>::empty());
            assert(c2.points_seq() =~= Seq::<Boid>::empty());
            assert(c3.points_seq() =~= Seq::<Boid>::empty());
        }
        let t = QuadTree {
            region,
            kind: QuadTreeKind::Branch { children: Box::new((c0, c1, c2, c3)) },
        };
        proof {
            assert(t.points_seq() =~= Seq::<Boid>::empty());
            assert(t.wf());
        }
        t
    }

    /// Is the position inside the region this index covers?
    pub fn contains(&self, point: &Boid) -> (res: bool)
        requires
            valid_region(self.region),
        ensures
            res == region_contains(self.region, point.position.x as int, point.position.y as int),
    {
        self.region.contains(point)
    }

    /// Redistribute `points[i..]`, all of which lie in `t`'s region, into
    /// the freshly split branch `t`.
    fn reinsert(t: QuadTree, points: &Vec<Boid>, i: usize) -> (res: QuadTree)
        requires
            t.wf(),
            kind_rank(t.kind) == 0,
            i <= points@.len(),
            forall|j: int|
                0 <= j < points@.len() ==> boid_in_region(t.region, #[trigger] points@[j]),
        ensures
            res.wf(),
            res.region == t.region,
            kind_rank(res.kind) == 0,
            res.points_seq().to_multiset() == t.points_seq().to_multiset().add(
                points@.skip(i as int).to_multiset(),
            ),
        decreases t.region.width + t.region.height, kind_rank(t.kind), points@.len() - i + 1,
    {
        if i < points.len() {
            let p: Boid = points[i];
            let (t2, ok) = t.insert(p);
            proof {
                assert(ok);
                assert(points@.skip(i as int) =~= seq![points@[i as int]] + points@.skip(
                    i as int + 1,
                ));
                lemma_to_multiset_concat(seq![points@[i as int]], points@.skip(i as int + 1));
                assert(seq![points@[i as int]] =~= Seq::<Boid>::empty().push(points@[i as int]));
                assert(forall|x: Boid| Seq::<Boid>::empty().to_multiset().count(x) == 0);
            }
            let res = QuadTree::reinsert(t2, points, i + 1);
            proof {
                assert(res.points_seq().to_multiset() =~= t.points_seq().to_multiset().add(
                    points@.skip(i as int).to_multiset(),
                ));
            }
            res
        } else {
            proof {
                assert(points@.skip(i as int) =~= Seq::<Boid>::empty());
                assert(forall|x: Boid| points@.skip(i as int).to_multiset().count(x) == 0);
                assert(t.points_seq().to_multiset().add(points@.skip(i as int).to_multiset())
                    =~= t.points_seq().to_multiset());
            }
            t
        }
    }

    /// Insert an agent: descend to the quadrant holding its position and
    /// push it into that bucket; a full bucket is first split into four
    /// and its agents redistributed. Returns the grown tree and whether
    /// the agent was inside the indexed region at all (if not, the tree
    /// comes back unchanged). A bucket over a region too small to quarter
    /// grows past its cap instead of splitting without end.
    pub fn insert(self, point: Boid) -> (res: (QuadTree, bool))
        requires
            self.wf(),
        ensures
            res.0.wf(),
            res.0.region == self.region,
            res.1 == region_contains(
                self.region,
                point.position.x as int,
                point.position.y as int,
            ),
            res.1 ==> res.0.points_seq().to_multiset() == self.points_seq().to_multiset().insert(
                point,
            ),
            !res.1 ==> res.0 == self,
            kind_rank(self.kind) == 0 ==> kind_rank(res.0.kind) == 0,
        decreases self.region.width + self.region.height, kind_rank(self.kind), 0int,
    {
        let ghost self0 = self;
        let ghost px = point.position.x as int;
        let ghost py = point.position.y as int;
        let region = self.region;
        if !self.region.contains(&point) {
            return (self, false);
        }
        match self.kind {
            QuadTreeKind::Bucket { mut points, bucket_limit } => {
                let ghost oldp = points@;
                if points.len() < bucket_limit as usize || region.width < 2 || region.height < 2 {
                    points.push(point);
                    let t = QuadTree {
                        region,
                        kind: QuadTreeKind::Bucket { points, bucket_limit },
                    };
                    proof {
                        assert(t.points_seq() == oldp.push(point));
                        assert(t.points_seq().to_multiset()
                            == self0.points_seq().to_multiset().insert(point));
                    }
                    (t, true)
                } else {
                    let t = QuadTree::new(region, bucket_limit);
                    proof {
                        assert(forall|x: Boid| t.points_seq().to_multiset().count(x) == 0);
                        assert(oldp.skip(0) =~= oldp);
                        assert(t.points_seq().to_multiset().add(oldp.skip(0).to_multiset())
                            =~= oldp.to_multiset());
                    }
                    let t2 = QuadTree::reinsert(t, &points, 0);
                    let (t3, ok3) = t2.insert(point);
                    proof {
                        assert(ok3);
                        assert(t3.points_seq().to_multiset()
                            == self0.points_seq().to_multiset().insert(point));
                    }
                    (t3, true)
                }
            },
            QuadTreeKind::Branch { children } => {
                let (c0, c1, c2, c3) = *children;
                let ghost s0 = c0.points_seq();
                let ghost s1 = c1.points_seq();
                let ghost s2 = c2.points_seq();
                let ghost s3 = c3.points_seq();
                proof {
                    lemma_split_children(region);
                    lemma_to_multiset_concat(s0 + s1 + s2, s3);
                    lemma_to_multiset_concat(s0 + s1, s2);
                    lemma_to_multiset_concat(s0, s1);
                }
                if c0.region.contains(&point) {
                    let (c0n, ok) = c0.insert(point);
                    let t = QuadTree {
                        region,
                        kind: QuadTreeKind::Branch { children: Box::new((c0n, c1, c2, c3)) },
                    };
                    proof {
                        assert(ok);
                        lemma_to_multiset_concat(c0n.points_seq() + s1 + s2, s3);
                        lemma_to_multiset_concat(c0n.points_seq() + s1, s2);
                        lemma_to_multiset_concat(c0n.points_seq(), s1);
                        assert(t.points_seq().to_multiset()
                            =~= self0.points_seq().to_multiset().insert(point));
                    }
                    (t, true)
                } else if c1.region.contains(&point) {
                    let (c1n, ok) = c1.insert(point);
                    let t = QuadTree {
                        region,
                        kind: QuadTreeKind::Branch { children: Box::new((c0, c1n, c2, c3)) },
                    };
                    proof {
                        assert(ok);
                        lemma_to_multiset_concat(s0 + c1n.points_seq() + s2, s3);
                        lemma_to_multiset_concat(s0 + c1n.points_seq(), s2);
                        lemma_to_multiset_concat(s0, c1n.points_seq());
                        assert(t.points_seq().to_multiset()
                            =~= self0.points_seq().to_multiset().insert(point));
                    }
                    (t, true)
                } else if c2.region.contains(&point) {
                    let (c2n, ok) = c2.insert(point);
                    let t = QuadTree {
                        region,
                        kind: QuadTreeKind::Branch { children: Box::new((c0, c1, c2n, c3)) },
                    };
                    proof {
                        assert(ok);
                        lemma_to_multiset_concat(s0 + s1 + c2n.points_seq(), s3);
                        lemma_to_multiset_concat(s0 + s1, c2n.points_seq());
                        assert(t.points_seq().to_multiset()
                            =~= self0.points_seq().to_multiset().insert(point));
                    }
                    (t, true)
                } else {
                    proof {
                        lemma_split_partitions(region);
                        assert(region_contains(split_spec(region)[3], px, py));
                    }
                    let (c3n, ok) = c3.insert(point);
                    let t = QuadTree {
                        region,
                        kind: QuadTreeKind::Branch { children: Box::new((c0, c1, c2, c3n)) },
                    };
                    proof {
                        assert(ok);
                        lemma_to_multiset_concat(s0 + s1 + s2, c3n.points_seq());
                        assert(t.points_seq().to_multiset()
                            =~= self0.points_seq().to_multiset().insert(point));
                    }
                    (t, true)
                }
            },
        }
    }

    /// All agents sharing the queried position's finest-grained leaf
    /// region: the whole bucket of the leaf the position descends to, or
    /// nothing if the position is outside the indexed region.
    pub fn nearby(&self, point: &Boid) -> (res: Option<Vec<Boid>>)
        requires
            self.wf(),
        ensures
            match res {
                Some(v) => self.nearby_spec(point.position.x as int, point.position.y as int)
                    == Some(v@),
                None => self.nearby_spec(point.position.x as int, point.position.y as int)
                    is None,
            },
        decreases self.region.width + self.region.height,
    {
        if !self.region.contains(point) {
            return None;
        }
        match &self.kind {
            QuadTreeKind::Bucket { points, .. } => {
                let mut out: Vec<Boid> = Vec::new();
                let mut i: usize = 0;
                proof {
                    assert(out@ =~= points@.take(0));
                }
                while i < points.len()
                    invariant
                        i <= points@.len(),
                        out@ == points@.take(i as int),
                    decreases points@.len() - i,
                {
                    out.push(points[i]);
                    proof {
                        assert(points@.take(i as int + 1) =~= points@.take(i as int).push(
                            points@[i as int],
                        ));
                    }
                    i = i + 1;
                }
                proof {
                    assert(points@.take(points@.len() as int) =~= points@);
                }
                Some(out)
            },
            QuadTreeKind::Branch { children } => {
                proof {
                    lemma_split_children(self.region);
                }
                if children.0.region.contains(point) {
                    children.0.nearby(point)
                } else if children.1.region.contains(point) {
                    children.1.nearby(point)
                } else if children.2.region.contains(point) {
                    children.2.nearby(point)
                } else if children.3.region.contains(point) {
                    children.3.nearby(point)
                } else {
                    None
                }
            },
        }
    }

    /// All stored agents whose position the query region contains,
    /// visiting only subtrees whose region passes the corner-overlap test
    /// against the query.
    pub fn range_query(&self, query: &QuadTreeRegion) -> (res: Vec<Boid>)
        requires
            self.wf(),
            valid_region(*query),
        ensures
            res@ == self.range_spec(*query),
        decreases self.region.width + self.region.height,
    {
        if !self.region.overlaps(query) {
            let out: Vec<Boid> = Vec::new();
            proof {
                assert(out@ =~= self.range_spec(*query));
            }
            return out;
        }
        match &self.kind {
            QuadTreeKind::Bucket { points, .. } => {
                let mut out: Vec<Boid> = Vec::new();
                let mut i: usize = 0;
                proof {
                    assert(points@.take(0) =~= Seq::<Boid>::empty());
                    assert(out@ =~= contained_points(points@.take(0), *query));
                }
                while i < points.len()
                    invariant
                        i <= points@.len(),
                        valid_region(*query),
                        out@ == contained_points(points@.take(i as int), *query),
                    decreases points@.len() - i,
                {
                    let p: Boid = points[i];
                    proof {
                        assert(points@.take(i as int + 1).drop_last() =~= points@.take(i as int));
                        assert(points@.take(i as int + 1).last() == points@[i as int]);
                    }
                    if query.contains(&p) {
                        out.push(p);
                    }
                    i = i + 1;
                }
                proof {
                    assert(points@.take(points@.len() as int) =~= points@);
                }
                out
            },
            QuadTreeKind::Branch { children } => {
                proof {
                    lemma_split_children(self.region);
                }
                let mut out: Vec<Boid> = children.0.range_query(query);
                let mut r1: Vec<Boid> = children.1.range_query(query);
                let mut r2: Vec<Boid> = children.2.range_query(query);
                let mut r3: Vec<Boid> = children.3.range_query(query);
                out.append(&mut r1);
                out.append(&mut r2);
                out.append(&mut r3);
                out
            },
        }
    }
}

/// The geometric predicates are pure functions of their arguments: two
/// results computed from the same region and point are the same result.
pub proof fn lemma_adapter_deterministic(
    c1: bool,
    c2: bool,
    s1: Seq<QuadTreeRegion>,
    s2: Seq<QuadTreeRegion>,
    o1: bool,
    o2: bool,
    r: QuadTreeRegion,
    q: QuadTreeRegion,
    px: int,
    py: int,
)
    requires
        c1 == region_contains(r, px, py),
        c2 == region_contains(r, px, py),
        s1 == split_spec(r),
        s2 == split_spec(r),
        o1 == overlaps_spec(r, q),
        o2 == overlaps_spec(r, q),
    ensures
        c1 == c2,
        s1 == s2,
        o1 == o2,
{
}

} // verus!
