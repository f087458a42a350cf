//! A boundary made of directed edges, queried for the first edge that a
//! moving point meets.

use vstd::prelude::*;
use crate::arith::abs;
use crate::math::{at_coord, det, dot, intersect, is_point_at, lambda_of, lemma_axis_direction, lemma_direction_bound, line_in_limit, mu_of, right, unit_coord, Linear, P2, Segment, V2, PARAM_ONE};

verus! {

/// Parameters at or below this belong to the sweep's own origin, which may
/// already lie on the edge it last bounced off.
pub const HIT_EPSILON: i64 = 1;

/// An ordered list of directed edges. The outward normal of an edge is its
/// direction turned a quarter to the right.
#[derive(Clone, Debug)]
pub struct Collider {
    pub edges: Vec<Segment>,
}

/// Where a motion meets an edge: the parameter along the motion, the point,
/// and the edge's outward normal.
#[derive(Clone, Copy, Debug, PartialEq, Eq, Structural)]
pub struct Collision {
    pub param: i64,
    pub point: P2,
    pub normal: V2,
}

/// First coordinate of the outward normal of `e`.
pub open spec fn normal_x(e: Segment) -> int {
    unit_coord(e.0.stride.y as int, e.0.stride)
}

/// Second coordinate of the outward normal of `e`.
pub open spec fn normal_y(e: Segment) -> int {
    -unit_coord(e.0.stride.x as int, e.0.stride)
}

/// The motion `line` travels against the outward normal of `e`, crosses it
/// within both domains, and does so past its own origin.
pub open spec fn is_hit<L: Linear>(line: L, e: Segment) -> bool {
    let m = line.spec_line();
    &&& normal_x(e) * m.stride.x + normal_y(e) * m.stride.y < 0
    &&& det(m, e.0) != 0
    &&& line.spec_on(lambda_of(m, e.0))
    &&& e.spec_on(mu_of(m, e.0))
    &&& lambda_of(m, e.0) > HIT_EPSILON
}

/// `c` reports the crossing of `line` with `e`.
pub open spec fn is_collision_on<L: Linear>(c: Collision, line: L, e: Segment) -> bool {
    let m = line.spec_line();
    &&& c.param == lambda_of(m, e.0)
    &&& is_point_at(c.point, m, c.param as int)
    &&& c.normal.x == normal_x(e)
    &&& c.normal.y == normal_y(e)
}

/// The report of `line` crossing `e`.
pub open spec fn collision_on<L: Linear>(line: L, e: Segment) -> Collision {
    let m = line.spec_line();
    let t = lambda_of(m, e.0);
    Collision {
        param: t as i64,
        point: V2 {
            x: at_coord(m.source.x as int, m.stride.x as int, t) as i64,
            y: at_coord(m.source.y as int, m.stride.y as int, t) as i64,
        },
        normal: V2 { x: normal_x(e) as i64, y: normal_y(e) as i64 },
    }
}

/// The first of the earliest hits of `line` among `edges`.
pub open spec fn first_edge_hit<L: Linear>(line: L, edges: Seq<Segment>) -> Option<Collision>
    decreases edges.len(),
{
    if edges.len() == 0 {
        None
    } else {
        let best = first_edge_hit(line, edges.drop_last());
        let e = edges.last();
        if is_hit(line, e) && (best is None || lambda_of(line.spec_line(), e.0) < best->0.param) {
            Some(collision_on(line, e))
        } else {
            best
        }
    }
}

/// `c` is the earliest hit of `line` among `edges`.
pub open spec fn is_first_hit<L: Linear>(c: Collision, line: L, edges: Seq<Segment>) -> bool {
    &&& exists|k: int|
        0 <= k < edges.len() && is_hit(line, #[trigger] edges[k]) && is_collision_on(c, line, edges[k])
    &&& forall|j: int|
        0 <= j < edges.len() && is_hit(line, #[trigger] edges[j]) ==> c.param <= lambda_of(
            line.spec_line(),
            edges[j].0,
        )
}

impl Collider {
    /// Every edge can be handed to the line solver.
    pub open spec fn edges_in_limit(&self) -> bool {
        forall|i: int| 0 <= i < self.edges@.len() ==> line_in_limit(#[trigger] self.edges@[i].0)
    }

    pub fn new(edges: Vec<Segment>) -> (r: Collider)
        ensures
            r.edges@ == edges@,
    {
        Collider { edges }
    }

    /// The earliest edge that `line` meets head-on past its origin, or
    /// `None` when it meets none. Of equally early edges the first wins.
    pub fn intersect_with<L: Linear>(&self, line: L) -> (r: Option<Collision>)
        requires
            self.edges_in_limit(),
            line_in_limit(line.spec_line()),
        ensures
            r is None <==> forall|i: int|
                0 <= i < self.edges@.len() ==> !is_hit(line, #[trigger] self.edges@[i]),
            r matches Some(c) ==> is_first_hit(c, line, self.edges@),
            r == first_edge_hit(line, self.edges@),
    {
        let stride = line.stride();
        let mut best: Option<Collision> = None;
        let ghost mut best_k: int = 0;
        let mut i: usize = 0;
        while i < self.edges.len()
            invariant
                0 <= i <= self.edges@.len(),
                self.edges_in_limit(),
                line_in_limit(line.spec_line()),
                stride == line.spec_line().stride,
                best == first_edge_hit(line, self.edges@.take(i as int)),
                best is None <==> forall|j: int| 0 <= j < i ==> !is_hit(line, #[trigger] self.edges@[j]),
                best matches Some(c) ==> {
                    &&& 0 <= best_k < i
                    &&& is_hit(line, self.edges@[best_k])
                    &&& is_collision_on(c, line, self.edges@[best_k])
                    &&& forall|j: int|
                        0 <= j < i && is_hit(line, #[trigger] self.edges@[j]) ==> c.param <= lambda_of(
                            line.spec_line(),
                            self.edges@[j].0,
                        )
                },
            decreases self.edges@.len() - i,
        {
            let edge = self.edges[i];
            assert(line_in_limit(self.edges@[i as int].0));
            let d = edge.direction();
            let normal = right(d);
            proof {
                assert(self.edges@.take(i + 1).drop_last() == self.edges@.take(i as int));
                assert(self.edges@.take(i + 1).last() == edge);
            }
            if dot(normal, stride) < 0 {
                match intersect(&line, &edge) {
                    Some((lambda, _mu, point)) => {
                        if lambda > HIT_EPSILON {
                            let better = match best {
                                None => true,
                                Some(c) => lambda < c.param,
                            };
                            if better {
                                best = Some(Collision { param: lambda, point, normal });
                                proof {
                                    best_k = i as int;
                                }
                            }
                        }
                    },
                    None => {},
                }
            }
            i += 1;
        }
        proof {
            assert(self.edges@.take(self.edges@.len() as int) == self.edges@);
            if let Some(c) = best {
                assert(is_hit(line, self.edges@[best_k]) && is_collision_on(c, line, self.edges@[best_k]));
            }
        }
        best
    }
}

impl Segment {
    /// A collider with this segment as its one edge.
    pub fn to_collider(self) -> (r: Collider)
        requires
            line_in_limit(self.0),
        ensures
            r.edges@ == seq![self],
            r.edges_in_limit(),
    {
        let mut edges: Vec<Segment> = Vec::new();
        edges.push(self);
        Collider::new(edges)
    }
}

/// The outward normal of a horizontal edge points down when the edge runs
/// right and up when it runs left; that of a vertical edge points right
/// when the edge runs up and left when it runs down. Each is exactly the
/// fixed-point unit vector.
pub proof fn lemma_axis_normal(e: Segment)
    ensures
        e.0.stride.y == 0 && e.0.stride.x > 0 ==> normal_x(e) == 0 && normal_y(e) == -PARAM_ONE,
        e.0.stride.y == 0 && e.0.stride.x < 0 ==> normal_x(e) == 0 && normal_y(e) == PARAM_ONE,
        e.0.stride.x == 0 && e.0.stride.y > 0 ==> normal_x(e) == PARAM_ONE && normal_y(e) == 0,
        e.0.stride.x == 0 && e.0.stride.y < 0 ==> normal_x(e) == -PARAM_ONE && normal_y(e) == 0,
{
    lemma_axis_direction(e.0.stride);
}

/// No coordinate of an edge's normal goes beyond `PARAM_ONE`.
pub proof fn lemma_normal_bound(e: Segment)
    ensures
        -PARAM_ONE <= normal_x(e) <= PARAM_ONE,
        -PARAM_ONE <= normal_y(e) <= PARAM_ONE,
{
    lemma_direction_bound(e.0.stride);
}

} // verus!
