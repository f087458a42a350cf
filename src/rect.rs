//! Axis-aligned rectangles: edges, translation, containment and dilation.

use vstd::prelude::*;
use vstd::arithmetic::div_mod::{lemma_div_is_ordered, lemma_div_multiples_vanish};
use crate::collider::{collision_on, first_edge_hit, is_first_hit, is_hit, lemma_axis_normal, normal_x, normal_y, Collider, Collision, HIT_EPSILON};
use crate::dilate::Dilate;
use crate::math::{det, lambda_of, mu_of, in_limit, line_in_limit, v2_in_limit, Line, Linear, Segment, P2, V2, COORD_LIMIT, PARAM_ONE};

verus! {

/// Coordinates of a rectangle whose edges can be handed to the line solver.
pub const RECT_LIMIT: i64 = 524288;

/// Which side of a rectangle's boundary a moving point comes from.
#[derive(Clone, Copy, Debug, PartialEq, Eq, Structural)]
pub enum CollideFrom {
    Inside,
    Outside,
}

/// An axis-aligned rectangle from corner `mins` to corner `maxs`.
#[derive(Clone, Copy, Debug, PartialEq, Eq, Structural)]
pub struct Rect {
    pub mins: P2,
    pub maxs: P2,
}

/// The rectangle with each corner moved: `mins` by `(lx, ly)`, `maxs` by
/// `(hx, hy)`.
pub open spec fn shifted(r: Rect, lx: int, ly: int, hx: int, hy: int) -> Rect {
    Rect {
        mins: V2 { x: (r.mins.x + lx) as i64, y: (r.mins.y + ly) as i64 },
        maxs: V2 { x: (r.maxs.x + hx) as i64, y: (r.maxs.y + hy) as i64 },
    }
}

/// The rectangle grown by `s` on every side (shrunk when `s` is negative).
pub open spec fn grown(r: Rect, s: int) -> Rect {
    shifted(r, -s, -s, s, s)
}

/// Corner `k` of `r`, counter-clockwise from `mins`.
pub open spec fn vertex(r: Rect, k: int) -> P2 {
    if k % 4 == 0 {
        r.mins
    } else if k % 4 == 1 {
        V2 { x: r.maxs.x, y: r.mins.y }
    } else if k % 4 == 2 {
        r.maxs
    } else {
        V2 { x: r.mins.x, y: r.maxs.y }
    }
}

/// `s` runs from `a` to `b`.
pub open spec fn runs_from_to(s: Segment, a: P2, b: P2) -> bool {
    s.0.source == a && s.0.stride.x == b.x - a.x && s.0.stride.y == b.y - a.y
}

/// Side `k` of `r`: bottom, right, top, left, each from corner `k` to
/// corner `k + 1`.
pub open spec fn is_side(s: Segment, r: Rect, k: int) -> bool {
    runs_from_to(s, vertex(r, k), vertex(r, k + 1))
}

/// Edge `k` of the boundary of `r` wound for points coming from `from`.
pub open spec fn rect_edge(r: Rect, from: CollideFrom, k: int) -> Segment {
    let a = if from == CollideFrom::Outside { vertex(r, k) } else { vertex(r, k + 1) };
    let b = if from == CollideFrom::Outside { vertex(r, k + 1) } else { vertex(r, k) };
    Segment(Line { source: a, stride: V2 { x: (b.x - a.x) as i64, y: (b.y - a.y) as i64 } })
}

/// The four edges of the boundary of `r` wound for points from `from`.
pub open spec fn rect_edges(r: Rect, from: CollideFrom) -> Seq<Segment> {
    Seq::new(4, |k: int| rect_edge(r, from, k))
}

/// `c` is the boundary of `r`, wound for points coming from `from`.
pub open spec fn is_rect_collider(c: Collider, r: Rect, from: CollideFrom) -> bool {
    &&& c.edges@.len() == 4
    &&& forall|k: int|
        0 <= k < 4 ==> {
            &&& from == CollideFrom::Outside ==> runs_from_to(
                #[trigger] c.edges@[k],
                vertex(r, k),
                vertex(r, k + 1),
            )
            &&& from == CollideFrom::Inside ==> runs_from_to(
                c.edges@[k],
                vertex(r, k + 1),
                vertex(r, k),
            )
        }
}

/// The unit vector pointing away from `r` across side `k`: down, right,
/// up, left (a normal is this times `PARAM_ONE`).
pub open spec fn away_x(k: int) -> int {
    if k == 1 {
        1
    } else if k == 3 {
        -1
    } else {
        0
    }
}

pub open spec fn away_y(k: int) -> int {
    if k == 0 {
        -1
    } else if k == 2 {
        1
    } else {
        0
    }
}

/// Winding decides which way the normals face. On the boundary of a
/// rectangle with some area wound for points from outside, each side's
/// normal is the unit vector pointing away from the rectangle, so a motion
/// that hits a side is heading into the rectangle across it. Wound for
/// points from inside, each normal points back into the rectangle, and a
/// motion that hits a side is heading out across it.
pub proof fn lemma_winding_normals<L: Linear>(c: Collider, r: Rect, from: CollideFrom, line: L)
    requires
        is_rect_collider(c, r, from),
        r.mins.x < r.maxs.x,
        r.mins.y < r.maxs.y,
    ensures
        forall|k: int|
            0 <= k < 4 ==> {
                &&& from == CollideFrom::Outside ==> normal_x(#[trigger] c.edges@[k]) == away_x(k) * PARAM_ONE
                    && normal_y(c.edges@[k]) == away_y(k) * PARAM_ONE
                &&& from == CollideFrom::Inside ==> normal_x(c.edges@[k]) == -away_x(k) * PARAM_ONE
                    && normal_y(c.edges@[k]) == -away_y(k) * PARAM_ONE
                &&& from == CollideFrom::Outside && is_hit(line, c.edges@[k]) ==> away_x(k)
                    * line.spec_line().stride.x + away_y(k) * line.spec_line().stride.y < 0
                &&& from == CollideFrom::Inside && is_hit(line, c.edges@[k]) ==> away_x(k)
                    * line.spec_line().stride.x + away_y(k) * line.spec_line().stride.y > 0
            },
{
    assert forall|k: int| 0 <= k < 4 implies {
        &&& from == CollideFrom::Outside ==> normal_x(#[trigger] c.edges@[k]) == away_x(k) * PARAM_ONE
            && normal_y(c.edges@[k]) == away_y(k) * PARAM_ONE
        &&& from == CollideFrom::Inside ==> normal_x(c.edges@[k]) == -away_x(k) * PARAM_ONE
            && normal_y(c.edges@[k]) == -away_y(k) * PARAM_ONE
        &&& from == CollideFrom::Outside && is_hit(line, c.edges@[k]) ==> away_x(k)
            * line.spec_line().stride.x + away_y(k) * line.spec_line().stride.y < 0
        &&& from == CollideFrom::Inside && is_hit(line, c.edges@[k]) ==> away_x(k)
            * line.spec_line().stride.x + away_y(k) * line.spec_line().stride.y > 0
    } by {
        let e = c.edges@[k];
        lemma_axis_normal(e);
        let (sx, sy) = (line.spec_line().stride.x as int, line.spec_line().stride.y as int);
        let (ax, ay) = (away_x(k), away_y(k));
        let (nx, ny) = (normal_x(e), normal_y(e));
        if from == CollideFrom::Outside {
            assert(nx * sx + ny * sy == PARAM_ONE * (ax * sx + ay * sy)) by (nonlinear_arith)
                requires
                    nx == ax * PARAM_ONE,
                    ny == ay * PARAM_ONE,
            ;
        } else {
            assert(nx * sx + ny * sy == -PARAM_ONE * (ax * sx + ay * sy)) by (nonlinear_arith)
                requires
                    nx == -ax * PARAM_ONE,
                    ny == -ay * PARAM_ONE,
            ;
        }
    }
}

/// A point rising straight up from below a rectangle with some area, over
/// a horizontal position within it, and crossing its bottom side past its
/// own origin, hits the boundary wound from outside: the first hit is the
/// bottom side, with the normal pointing down, back at the point.
pub proof fn lemma_rising_point_hits_bottom(c: Collider, r: Rect, m: Segment)
    requires
        is_rect_collider(c, r, CollideFrom::Outside),
        r.within(RECT_LIMIT as int),
        r.mins.x < r.maxs.x,
        r.mins.y < r.maxs.y,
        line_in_limit(m.0),
        m.0.stride.x == 0,
        m.0.stride.y > 0,
        r.mins.x <= m.0.source.x <= r.maxs.x,
        m.0.source.y < r.mins.y <= m.0.source.y + m.0.stride.y,
        (r.mins.y - m.0.source.y) * PARAM_ONE >= (HIT_EPSILON + 1) * m.0.stride.y,
    ensures
        first_edge_hit(m, c.edges@) == Some(collision_on(m, c.edges@[0])),
        collision_on(m, c.edges@[0]).normal.x == 0,
        collision_on(m, c.edges@[0]).normal.y == -PARAM_ONE,
{
    let e = c.edges@;
    assert(runs_from_to(e[0], vertex(r, 0), vertex(r, 1)));
    assert(runs_from_to(e[1], vertex(r, 1), vertex(r, 2)));
    assert(runs_from_to(e[2], vertex(r, 2), vertex(r, 3)));
    assert(runs_from_to(e[3], vertex(r, 3), vertex(r, 4)));
    lemma_axis_normal(e[0]);
    lemma_axis_normal(e[2]);
    let one = PARAM_ONE as int;
    let h = m.0.stride.y as int;
    let w = (r.maxs.x - r.mins.x) as int;
    let oy = (r.mins.y - m.0.source.y) as int;
    let ox = (r.mins.x - m.0.source.x) as int;
    assert(det(m.0, e[0].0) == -(w * h));
    assert(w * h > 0) by (nonlinear_arith)
        requires
            w > 0,
            h > 0,
    ;
    // The parameter along the motion.
    let nl = w * oy * one;
    assert((e[0].0.stride.y * ox - e[0].0.stride.x * oy) * one == -nl) by (nonlinear_arith)
        requires
            e[0].0.stride.y == 0,
            e[0].0.stride.x == w,
            nl == w * oy * one,
    ;
    assert(nl >= 0) by (nonlinear_arith)
        requires
            nl == w * oy * one,
            w > 0,
            oy > 0,
            one > 0,
    ;
    let lam = nl / (w * h);
    assert(lambda_of(m.0, e[0].0) == lam);
    assert(2 * (w * h) <= nl) by (nonlinear_arith)
        requires
            nl == w * oy * one,
            oy * one >= 2 * h,
            w > 0,
    ;
    assert(nl <= one * (w * h)) by (nonlinear_arith)
        requires
            nl == w * oy * one,
            oy <= h,
            w > 0,
            one > 0,
    ;
    lemma_div_is_ordered(2 * (w * h), nl, w * h);
    lemma_div_is_ordered(nl, one * (w * h), w * h);
    lemma_div_multiples_vanish(2, w * h);
    lemma_div_multiples_vanish(one, w * h);
    assert((w * h) * 2 == 2 * (w * h) && (w * h) * one == one * (w * h)) by (nonlinear_arith);
    assert(2 <= lam <= one);
    // The parameter along the side.
    let nm = h * (-ox) * one;
    assert((m.0.stride.y * ox - m.0.stride.x * oy) * one == -nm) by (nonlinear_arith)
        requires
            m.0.stride.x == 0,
            m.0.stride.y == h,
            nm == h * (-ox) * one,
    ;
    assert(0 <= nm <= one * (w * h)) by (nonlinear_arith)
        requires
            nm == h * (-ox) * one,
            0 <= -ox <= w,
            h > 0,
            one > 0,
    ;
    lemma_div_is_ordered(nm, one * (w * h), w * h);
    lemma_div_is_ordered(0, nm, w * h);
    assert(0 <= mu_of(m.0, e[0].0) <= one);
    assert(is_hit(m, e[0]));
    // The other sides: two are parallel to the motion, the top faces away.
    assert(det(m.0, e[1].0) == 0 && det(m.0, e[3].0) == 0) by (nonlinear_arith)
        requires
            m.0.stride.x == 0,
            e[1].0.stride.x == 0,
            e[3].0.stride.x == 0,
            det(m.0, e[1].0) == e[1].0.stride.y * m.0.stride.x - e[1].0.stride.x * m.0.stride.y,
            det(m.0, e[3].0) == e[3].0.stride.y * m.0.stride.x - e[3].0.stride.x * m.0.stride.y,
    ;
    assert(normal_x(e[2]) * m.0.stride.x + normal_y(e[2]) * m.0.stride.y >= 0) by (nonlinear_arith)
        requires
            normal_x(e[2]) == 0,
            normal_y(e[2]) == one,
            m.0.stride.x == 0,
            h > 0,
            one > 0,
            m.0.stride.y == h,
    ;
    assert(!is_hit(m, e[1]) && !is_hit(m, e[2]) && !is_hit(m, e[3]));
    assert(e.drop_last().drop_last().drop_last().drop_last() =~= Seq::<Segment>::empty());
    reveal_with_fuel(first_edge_hit, 5);
    assert(e.drop_last().drop_last().drop_last().last() == e[0]);
    assert(e.drop_last().drop_last().last() == e[1]);
    assert(e.drop_last().last() == e[2]);
    assert(e.last() == e[3]);
}

/// A point falling straight down from inside a rectangle with some area
/// and crossing its bottom side past its own origin hits the boundary wound
/// from inside: the first hit is the bottom side, with the normal pointing
/// up, back into the rectangle.
pub proof fn lemma_falling_point_hits_floor(c: Collider, r: Rect, m: Segment)
    requires
        is_rect_collider(c, r, CollideFrom::Inside),
        r.within(RECT_LIMIT as int),
        r.mins.x < r.maxs.x,
        r.mins.y < r.maxs.y,
        line_in_limit(m.0),
        m.0.stride.x == 0,
        m.0.stride.y < 0,
        r.mins.x <= m.0.source.x <= r.maxs.x,
        m.0.source.y + m.0.stride.y <= r.mins.y < m.0.source.y,
        (m.0.source.y - r.mins.y) * PARAM_ONE >= (HIT_EPSILON + 1) * (-m.0.stride.y),
    ensures
        first_edge_hit(m, c.edges@) == Some(collision_on(m, c.edges@[0])),
        collision_on(m, c.edges@[0]).normal.x == 0,
        collision_on(m, c.edges@[0]).normal.y == PARAM_ONE,
{
    let e = c.edges@;
    assert(runs_from_to(e[0], vertex(r, 1), vertex(r, 0)));
    assert(runs_from_to(e[1], vertex(r, 2), vertex(r, 1)));
    assert(runs_from_to(e[2], vertex(r, 3), vertex(r, 2)));
    assert(runs_from_to(e[3], vertex(r, 4), vertex(r, 3)));
    lemma_axis_normal(e[0]);
    lemma_axis_normal(e[2]);
    let one = PARAM_ONE as int;
    let h = -m.0.stride.y;
    let w = (r.maxs.x - r.mins.x) as int;
    let oy = (m.0.source.y - r.mins.y) as int;
    let ox = (r.maxs.x - m.0.source.x) as int;
    assert(det(m.0, e[0].0) == -(w * h)) by (nonlinear_arith)
        requires
            det(m.0, e[0].0) == e[0].0.stride.y * m.0.stride.x - e[0].0.stride.x * m.0.stride.y,
            e[0].0.stride.y == 0,
            e[0].0.stride.x == -w,
            m.0.stride.y == -h,
    ;
    assert(w * h > 0) by (nonlinear_arith)
        requires
            w > 0,
            h > 0,
    ;
    let nl = w * oy * one;
    assert((e[0].0.stride.y * ox - e[0].0.stride.x * (-oy)) * one == -nl) by (nonlinear_arith)
        requires
            e[0].0.stride.y == 0,
            e[0].0.stride.x == -w,
            nl == w * oy * one,
    ;
    assert(nl >= 0) by (nonlinear_arith)
        requires
            nl == w * oy * one,
            w > 0,
            oy > 0,
            one > 0,
    ;
    let lam = nl / (w * h);
    assert(lambda_of(m.0, e[0].0) == lam);
    assert(2 * (w * h) <= nl) by (nonlinear_arith)
        requires
            nl == w * oy * one,
            oy * one >= 2 * h,
            w > 0,
    ;
    assert(nl <= one * (w * h)) by (nonlinear_arith)
        requires
            nl == w * oy * one,
            oy <= h,
            w > 0,
            one > 0,
    ;
    lemma_div_is_ordered(2 * (w * h), nl, w * h);
    lemma_div_is_ordered(nl, one * (w * h), w * h);
    lemma_div_multiples_vanish(2, w * h);
    lemma_div_multiples_vanish(one, w * h);
    assert((w * h) * 2 == 2 * (w * h) && (w * h) * one == one * (w * h)) by (nonlinear_arith);
    assert(2 <= lam <= one);
    let nm = h * ox * one;
    assert((m.0.stride.y * ox - m.0.stride.x * (-oy)) * one == -nm) by (nonlinear_arith)
        requires
            m.0.stride.x == 0,
            m.0.stride.y == -h,
            nm == h * ox * one,
    ;
    assert(0 <= nm <= one * (w * h)) by (nonlinear_arith)
        requires
            nm == h * ox * one,
            0 <= ox <= w,
            h > 0,
            one > 0,
    ;
    lemma_div_is_ordered(nm, one * (w * h), w * h);
    lemma_div_is_ordered(0, nm, w * h);
    assert(0 <= mu_of(m.0, e[0].0) <= one);
    assert(is_hit(m, e[0]));
    assert(det(m.0, e[1].0) == 0 && det(m.0, e[3].0) == 0) by (nonlinear_arith)
        requires
            m.0.stride.x == 0,
            e[1].0.stride.x == 0,
            e[3].0.stride.x == 0,
            det(m.0, e[1].0) == e[1].0.stride.y * m.0.stride.x - e[1].0.stride.x * m.0.stride.y,
            det(m.0, e[3].0) == e[3].0.stride.y * m.0.stride.x - e[3].0.stride.x * m.0.stride.y,
    ;
    assert(normal_x(e[2]) * m.0.stride.x + normal_y(e[2]) * m.0.stride.y >= 0) by (nonlinear_arith)
        requires
            normal_x(e[2]) == 0,
            normal_y(e[2]) == -one,
            m.0.stride.x == 0,
            h > 0,
            one > 0,
            m.0.stride.y == -h,
    ;
    assert(!is_hit(m, e[1]) && !is_hit(m, e[2]) && !is_hit(m, e[3]));
    assert(e.drop_last().drop_last().drop_last().drop_last() =~= Seq::<Segment>::empty());
    reveal_with_fuel(first_edge_hit, 5);
    assert(e.drop_last().drop_last().drop_last().last() == e[0]);
    assert(e.drop_last().drop_last().last() == e[1]);
    assert(e.drop_last().last() == e[2]);
    assert(e.last() == e[3]);
}

/// Dilating `r` by `s` and then shrinking by `s` gives `r` back.
pub proof fn lemma_contract_undoes_expand(r: Rect, s: int)
    requires
        r.wf(),
        r.within(COORD_LIMIT as int),
        0 <= s <= COORD_LIMIT,
    ensures
        grown(grown(r, s), -s) == r,
{
}

impl Rect {
    /// Each coordinate of `mins` is at most the same one of `maxs`.
    pub open spec fn wf(&self) -> bool {
        self.mins.x <= self.maxs.x && self.mins.y <= self.maxs.y
    }

    /// Every coordinate has magnitude at most `lim`.
    pub open spec fn within(&self, lim: int) -> bool {
        &&& -lim <= self.mins.x <= lim
        &&& -lim <= self.mins.y <= lim
        &&& -lim <= self.maxs.x <= lim
        &&& -lim <= self.maxs.y <= lim
    }

    pub fn new_unchecked(mins: P2, maxs: P2) -> (r: Rect)
        requires
            mins.x <= maxs.x,
            mins.y <= maxs.y,
        ensures
            r.mins == mins,
            r.maxs == maxs,
            r.wf(),
    {
        Rect { mins, maxs }
    }

    /// The rectangle with corners `a` and `b`, in either order.
    pub fn new(a: P2, b: P2) -> (r: Rect)
        ensures
            r.mins.x == if a.x <= b.x { a.x } else { b.x },
            r.mins.y == if a.y <= b.y { a.y } else { b.y },
            r.maxs.x == if a.x <= b.x { b.x } else { a.x },
            r.maxs.y == if a.y <= b.y { b.y } else { a.y },
            r.wf(),
    {
        let minx = if a.x <= b.x { a.x } else { b.x };
        let miny = if a.y <= b.y { a.y } else { b.y };
        let maxx = if a.x <= b.x { b.x } else { a.x };
        let maxy = if a.y <= b.y { b.y } else { a.y };
        Rect::new_unchecked(V2 { x: minx, y: miny }, V2 { x: maxx, y: maxy })
    }

    /// The rectangle with corners `a` and `a + dims`.
    pub fn new_with_dims(a: P2, dims: V2) -> (r: Rect)
        requires
            v2_in_limit(a),
            v2_in_limit(dims),
        ensures
            r.mins.x == if dims.x >= 0 { a.x as int } else { a.x + dims.x },
            r.mins.y == if dims.y >= 0 { a.y as int } else { a.y + dims.y },
            r.maxs.x == if dims.x >= 0 { a.x + dims.x } else { a.x as int },
            r.maxs.y == if dims.y >= 0 { a.y + dims.y } else { a.y as int },
            r.wf(),
    {
        Self::new(a, V2 { x: a.x + dims.x, y: a.y + dims.y })
    }

    /// The rectangle moved by the offset `origin`.
    pub fn at(&self, origin: P2) -> (r: Rect)
        requires
            self.within(COORD_LIMIT as int),
            v2_in_limit(origin),
        ensures
            r == shifted(*self, origin.x as int, origin.y as int, origin.x as int, origin.y as int),
            self.wf() ==> r.wf(),
    {
        Rect {
            mins: V2 { x: self.mins.x + origin.x, y: self.mins.y + origin.y },
            maxs: V2 { x: self.maxs.x + origin.x, y: self.maxs.y + origin.y },
        }
    }

    pub fn width(&self) -> (r: i64)
        requires
            self.within(COORD_LIMIT as int),
        ensures
            r == self.maxs.x - self.mins.x,
    {
        self.maxs.x - self.mins.x
    }

    pub fn height(&self) -> (r: i64)
        requires
            self.within(COORD_LIMIT as int),
        ensures
            r == self.maxs.y - self.mins.y,
    {
        self.maxs.y - self.mins.y
    }

    pub fn dims(&self) -> (r: V2)
        requires
            self.within(COORD_LIMIT as int),
        ensures
            r.x == self.maxs.x - self.mins.x,
            r.y == self.maxs.y - self.mins.y,
    {
        V2 { x: self.width(), y: self.height() }
    }

    /// Whether `p` lies in the rectangle, its low edges included and its
    /// high edges left out.
    pub fn contains(&self, p: P2) -> (r: bool)
        ensures
            r == (self.mins.x <= p.x < self.maxs.x && self.mins.y <= p.y < self.maxs.y),
    {
        self.mins.x <= p.x && p.x < self.maxs.x && self.mins.y <= p.y && p.y < self.maxs.y
    }

    /// The four corners, counter-clockwise from `mins`.
    pub fn vertices(&self) -> (r: [P2; 4])
        ensures
            forall|k: int| 0 <= k < 4 ==> #[trigger] r@[k] == vertex(*self, k),
    {
        [
            self.mins,
            V2 { x: self.maxs.x, y: self.mins.y },
            self.maxs,
            V2 { x: self.mins.x, y: self.maxs.y },
        ]
    }

    /// The left side, walked downward.
    pub fn side_min_x(&self) -> (r: Segment)
        requires
            self.within(COORD_LIMIT as int),
        ensures
            is_side(r, *self, 3),
    {
        Segment::new_from_points(V2 { x: self.mins.x, y: self.maxs.y }, self.mins)
    }

    /// The right side, walked upward.
    pub fn side_max_x(&self) -> (r: Segment)
        requires
            self.within(COORD_LIMIT as int),
        ensures
            is_side(r, *self, 1),
    {
        Segment::new_from_points(V2 { x: self.maxs.x, y: self.mins.y }, self.maxs)
    }

    /// The bottom side, walked rightward.
    pub fn side_min_y(&self) -> (r: Segment)
        requires
            self.within(COORD_LIMIT as int),
        ensures
            is_side(r, *self, 0),
    {
        Segment::new_from_points(self.mins, V2 { x: self.maxs.x, y: self.mins.y })
    }

    /// The top side, walked leftward.
    pub fn side_max_y(&self) -> (r: Segment)
        requires
            self.within(COORD_LIMIT as int),
        ensures
            is_side(r, *self, 2),
    {
        Segment::new_from_points(self.maxs, V2 { x: self.mins.x, y: self.maxs.y })
    }

    /// The four sides in the order bottom, right, top, left.
    pub fn sides(&self) -> (r: [Segment; 4])
        requires
            self.within(COORD_LIMIT as int),
        ensures
            forall|k: int| 0 <= k < 4 ==> is_side(#[trigger] r@[k], *self, k),
    {
        [self.side_min_y(), self.side_max_x(), self.side_max_y(), self.side_min_x()]
    }

    /// The boundary as a collider. From `Outside` each side keeps its
    /// direction, so that the normals point away from the rectangle; from
    /// `Inside` each side is reversed, so that they point into it.
    pub fn to_collider(self, from: CollideFrom) -> (r: Collider)
        requires
            self.within(RECT_LIMIT as int),
        ensures
            is_rect_collider(r, self, from),
            r.edges@ == rect_edges(self, from),
            r.edges_in_limit(),
    {
        let sides = self.sides();
        let mut edges: Vec<Segment> = Vec::new();
        let mut i: usize = 0;
        while i < 4
            invariant
                0 <= i <= 4,
                self.within(RECT_LIMIT as int),
                forall|k: int| 0 <= k < 4 ==> is_side(#[trigger] sides@[k], self, k),
                edges@.len() == i,
                forall|k: int|
                    0 <= k < i ==> {
                        &&& from == CollideFrom::Outside ==> runs_from_to(
                            #[trigger] edges@[k],
                            vertex(self, k),
                            vertex(self, k + 1),
                        )
                        &&& from == CollideFrom::Inside ==> runs_from_to(
                            edges@[k],
                            vertex(self, k + 1),
                            vertex(self, k),
                        )
                        &&& line_in_limit(edges@[k].0)
                    },
            decreases 4 - i,
        {
            let side = sides[i];
            assert(is_side(sides@[i as int], self, i as int));
            let edge = match from {
                CollideFrom::Inside => side.reverse(),
                CollideFrom::Outside => side,
            };
            edges.push(edge);
            i += 1;
        }
        assert(edges@ =~= rect_edges(self, from));
        Collider::new(edges)
    }

    /// The earliest side of the boundary, wound for points from `from`,
    /// that `line` meets head-on past its origin: its parameter on `line`,
    /// the point, and the side's normal.
    pub fn intersect_with<L: Linear>(&self, from: CollideFrom, line: L) -> (r: Option<(i64, P2, V2)>)
        requires
            self.within(RECT_LIMIT as int),
            line_in_limit(line.spec_line()),
        ensures
            r is None <==> forall|k: int| 0 <= k < 4 ==> !is_hit(line, #[trigger] rect_edges(*self, from)[k]),
            r matches Some((t, p, n)) ==> is_first_hit(
                Collision { param: t, point: p, normal: n },
                line,
                rect_edges(*self, from),
            ),
    {
        match self.to_collider(from).intersect_with(line) {
            Some(c) => Some((c.param, c.point, c.normal)),
            None => None,
        }
    }
}

/// The side from which `Rect::intersect_with` takes a moving point.
pub type IntersectFrom = CollideFrom;

impl Dilate<Rect> for Rect {
    type Output = Rect;

    open spec fn can_expand(&self, by: Rect) -> bool {
        self.wf() && by.wf() && self.within(COORD_LIMIT as int) && by.within(COORD_LIMIT as int)
    }

    open spec fn can_contract(&self, by: Rect) -> bool {
        &&& self.within(COORD_LIMIT as int)
        &&& by.within(COORD_LIMIT as int)
        &&& self.mins.x + by.maxs.x <= self.maxs.x + by.mins.x
        &&& self.mins.y + by.maxs.y <= self.maxs.y + by.mins.y
    }

    /// Grows `mins` by `by.mins` and `maxs` by `by.maxs`: the rectangle of
    /// the points where `by`'s origin can stand while `by` touches `self`.
    fn expand(&self, by: Rect) -> (r: Rect)
        ensures
            r == shifted(*self, by.mins.x as int, by.mins.y as int, by.maxs.x as int, by.maxs.y as int),
            r.wf(),
    {
        Rect::new_unchecked(
            V2 { x: self.mins.x + by.mins.x, y: self.mins.y + by.mins.y },
            V2 { x: self.maxs.x + by.maxs.x, y: self.maxs.y + by.maxs.y },
        )
    }

    /// Moves `mins` by `by.maxs` and `maxs` by `by.mins`.
    fn contract(&self, by: Rect) -> (r: Rect)
        ensures
            r == shifted(*self, by.maxs.x as int, by.maxs.y as int, by.mins.x as int, by.mins.y as int),
            r.wf(),
    {
        Rect::new_unchecked(
            V2 { x: self.mins.x + by.maxs.x, y: self.mins.y + by.maxs.y },
            V2 { x: self.maxs.x + by.mins.x, y: self.maxs.y + by.mins.y },
        )
    }
}

impl Dilate<i64> for Rect {
    type Output = Rect;

    open spec fn can_expand(&self, by: i64) -> bool {
        &&& self.within(COORD_LIMIT as int)
        &&& in_limit(by as int)
        &&& self.mins.x - by <= self.maxs.x + by
        &&& self.mins.y - by <= self.maxs.y + by
    }

    open spec fn can_contract(&self, by: i64) -> bool {
        &&& self.within(COORD_LIMIT as int)
        &&& in_limit(by as int)
        &&& self.mins.x + by <= self.maxs.x - by
        &&& self.mins.y + by <= self.maxs.y - by
    }

    /// Grows every side outward by `by`.
    fn expand(&self, by: i64) -> (r: Rect)
        ensures
            r == grown(*self, by as int),
            r.wf(),
    {
        Rect::new_unchecked(
            V2 { x: self.mins.x - by, y: self.mins.y - by },
            V2 { x: self.maxs.x + by, y: self.maxs.y + by },
        )
    }

    /// Moves every side inward by `by`.
    fn contract(&self, by: i64) -> (r: Rect)
        ensures
            r == grown(*self, -by),
            r.wf(),
    {
        Rect::new_unchecked(
            V2 { x: self.mins.x + by, y: self.mins.y + by },
            V2 { x: self.maxs.x - by, y: self.maxs.y - by },
        )
    }
}

} // verus!
