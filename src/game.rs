//! The game state and its tick: paddle kinematics, the per-tick registry of
//! solids, and the swept resolution of the ball's motion against them.

use vstd::prelude::*;
use crate::arith::{abs, trunc_div};
use crate::block::{Block, Kind};
use crate::collider::{first_edge_hit, HIT_EPSILON, is_first_hit, is_hit, lemma_normal_bound, Collider, Collision};
use crate::dilate::Dilate;
use crate::math::{Line, reflect_x, reflect_y, at_coord, lambda_of, lerp, reflect, scaled, v2_in_limit, Segment, P2, V2, COORD_LIMIT, PARAM_ONE};
use crate::pickups::{dropped, option_seq, Pickup, catch_box, fall_distance, still_falling, Pickups};
use crate::level::{level_layout, rows_of, kept_blocks, layout_from_draws, lemma_kept_ok, level_blocks, split_rows, INNER_SPLITS, ROWS};
use crate::rng::{child_flip_stream, child_flips, root_flip_stream, root_flips};
use crate::rect::{rect_edge, rect_edges, is_rect_collider, runs_from_to, shifted, vertex, CollideFrom, Rect};
use crate::scoring::{after_broken, after_damaged, after_floor, after_paddle, initial_scoring, Scoring};
use crate::block;

verus! {

/// Length units per pixel.
pub const UNITS_PER_PIXEL: i64 = 100;

/// Time units per second; also the fixed-point scale of a motion's
/// parameter, so that a parameter is spent from the tick's time budget
/// as it stands.
pub const TIME_ONE: i64 = 100000;

pub const PADDLE_Y: i64 = 4000;
pub const PADDLE_W: i64 = 8000;
pub const PADDLE_MAX_SPEED: i64 = 60000;
pub const PADDLE_ACC: i64 = 600000;
pub const PADDLE_FRICTION: i64 = 7;
/// How far the paddle's centre may go from the middle of the arena.
pub const PADDLE_X_BOUND: i64 = 28000;
/// Below this speed the paddle is taken to stand still.
pub const PADDLE_REST_SPEED: i64 = 10;
/// Above this speed the paddle steers the ball it returns.
pub const PADDLE_STEER_SPEED: i64 = 500;
/// Largest paddle speed that one tick can produce.
pub const PADDLE_VEL_LIMIT: i64 = 5600000000;

pub const BALL_SIZE: i64 = 1200;
/// Height at which a serve starts.
pub const BALL_SERVE_Y: i64 = 4800;
/// The serve velocity: 400 pixels per second, along `(0.7, 1)` when the
/// paddle moves and straight up when it does not.
pub const BALL_SERVE_SPEED: i64 = 40000;
pub const BALL_SERVE_SIDE_X: i64 = 22938;
pub const BALL_SERVE_SIDE_Y: i64 = 32769;

pub const GAME_WIDTH: i64 = 60000;
pub const GAME_HEIGHT: i64 = 60000;
pub const GAME_LEFT: i64 = -30000;
pub const GAME_RIGHT: i64 = 30000;
pub const GAME_BOTTOM: i64 = 0;
pub const GAME_TOP: i64 = 60000;

/// Bound on the coordinates of the paddle's and the ball's own rectangles.
pub const BODY_LIMIT: i64 = 131072;
/// Bound on the coordinates of a block.
pub const BLOCK_LIMIT: i64 = 262144;

/// What a solid belongs to.
#[derive(Clone, Copy, Debug, PartialEq, Eq, Structural)]
pub enum EntityID {
    Walls,
    Paddle,
    Block(usize),
}

/// A collider of the current tick and what it belongs to.
#[derive(Clone, Debug)]
pub struct SolidEntity {
    pub collider: Collider,
    pub id: EntityID,
}

impl SolidEntity {
    pub fn new(collider: Collider, id: EntityID) -> (r: SolidEntity)
        ensures
            r.collider == collider,
            r.id == id,
    {
        SolidEntity { collider, id }
    }
}

/// A collision and the solid it was with.
#[derive(Clone, Copy, Debug, PartialEq, Eq, Structural)]
pub struct Hit {
    pub collision: Collision,
    pub id: EntityID,
}

/// `h` is the earliest hit of `motion` over all edges of all `solids`.
pub open spec fn is_first_solid_hit(h: Hit, motion: Segment, solids: Seq<SolidEntity>) -> bool {
    &&& exists|k: int|
        0 <= k < solids.len() && h.id == (#[trigger] solids[k]).id && is_first_hit(
            h.collision,
            motion,
            solids[k].collider.edges@,
        )
    &&& forall|j: int, e: int|
        0 <= j < solids.len() && 0 <= e < solids[j].collider.edges@.len() && is_hit(
            motion,
            #[trigger] solids[j].collider.edges@[e],
        ) ==> h.collision.param <= lambda_of(motion.0, solids[j].collider.edges@[e].0)
}

/// What the search over solids reads of one: its tag and its edges.
pub open spec fn solid_view(s: SolidEntity) -> (EntityID, Seq<Segment>) {
    (s.id, s.collider.edges@)
}

/// The first of the earliest hits of `motion` over the tagged edge lists
/// of `reg`.
pub open spec fn first_solid_hit(motion: Segment, reg: Seq<(EntityID, Seq<Segment>)>) -> Option<Hit>
    decreases reg.len(),
{
    if reg.len() == 0 {
        None
    } else {
        let best = first_solid_hit(motion, reg.drop_last());
        let (id, edges) = reg.last();
        match first_edge_hit(motion, edges) {
            Some(c) => if best is None || c.param < best->0.collision.param {
                Some(Hit { collision: c, id })
            } else {
                best
            },
            None => best,
        }
    }
}

/// No edge of any of `solids` is hit by `motion`.
pub open spec fn misses_all(motion: Segment, solids: Seq<SolidEntity>) -> bool {
    forall|j: int, e: int|
        0 <= j < solids.len() && 0 <= e < solids[j].collider.edges@.len() ==> !is_hit(
            motion,
            #[trigger] solids[j].collider.edges@[e],
        )
}

/// A hit always lies past the sweep's origin and within the sweep: a
/// sub-step that goes on after a bounce pays more than `HIT_EPSILON` and
/// at most the whole sweep out of the time budget, so a budget of `dt`
/// lasts at most `dt / (HIT_EPSILON + 1)` bounces before the loop ends.
pub proof fn lemma_hit_consumes_budget(h: Hit, motion: Segment, solids: Seq<SolidEntity>)
    requires
        is_first_solid_hit(h, motion, solids),
    ensures
        HIT_EPSILON < h.collision.param <= PARAM_ONE,
{
    let k = choose|k: int|
        0 <= k < solids.len() && h.id == (#[trigger] solids[k]).id && is_first_hit(
            h.collision,
            motion,
            solids[k].collider.edges@,
        );
    let edges = solids[k].collider.edges@;
    let e = choose|e: int|
        0 <= e < edges.len() && is_hit(motion, #[trigger] edges[e]) && crate::collider::is_collision_on(
            h.collision,
            motion,
            edges[e],
        );
}

/// Every solid can be queried with an in-limit motion.
pub open spec fn solids_usable(solids: Seq<SolidEntity>) -> bool {
    forall|i: int| 0 <= i < solids.len() ==> (#[trigger] solids[i]).collider.edges_in_limit()
}

/// The earliest hit of `motion` over `solids`; of equally early hits the
/// first solid's wins.
pub fn get_collision(solids: &Vec<SolidEntity>, motion: Segment) -> (r: Option<Hit>)
    requires
        solids_usable(solids@),
        crate::math::line_in_limit(motion.0),
    ensures
        r is None <==> misses_all(motion, solids@),
        r matches Some(h) ==> is_first_solid_hit(h, motion, solids@),
        r == first_solid_hit(motion, solids@.map_values(|x: SolidEntity| solid_view(x))),
{
    let mut best: Option<Hit> = None;
    let ghost mut best_k: int = 0;
    let mut i: usize = 0;
    while i < solids.len()
        invariant
            0 <= i <= solids@.len(),
            solids_usable(solids@),
            crate::math::line_in_limit(motion.0),
            best == first_solid_hit(motion, solids@.take(i as int).map_values(|x: SolidEntity| solid_view(x))),
            best is None <==> forall|j: int, e: int|
                0 <= j < i && 0 <= e < solids@[j].collider.edges@.len() ==> !is_hit(
                    motion,
                    #[trigger] solids@[j].collider.edges@[e],
                ),
            best matches Some(h) ==> {
                &&& 0 <= best_k < i
                &&& h.id == solids@[best_k].id
                &&& is_first_hit(h.collision, motion, solids@[best_k].collider.edges@)
                &&& forall|j: int, e: int|
                    0 <= j < i && 0 <= e < solids@[j].collider.edges@.len() && is_hit(
                        motion,
                        #[trigger] solids@[j].collider.edges@[e],
                    ) ==> h.collision.param <= lambda_of(motion.0, solids@[j].collider.edges@[e].0)
            },
        decreases solids@.len() - i,
    {
        let solid = &solids[i];
        assert(solids@[i as int].collider.edges_in_limit());
        let found = solid.collider.intersect_with(motion);
        let ghost old_best = best;
        proof {
            let f = |x: SolidEntity| solid_view(x);
            assert(solids@.take(i + 1).map_values(f).drop_last() =~= solids@.take(i as int).map_values(f));
            assert(solids@.take(i + 1).map_values(f).last() == solid_view(solids@[i as int]));
        }
        match found {
            Some(c) => {
                let better = match best {
                    None => true,
                    Some(h) => c.param < h.collision.param,
                };
                if better {
                    best = Some(Hit { collision: c, id: solid.id });
                    proof {
                        best_k = i as int;
                    }
                }
            },
            None => {},
        }
        proof {
            let edges_i = solids@[i as int].collider.edges@;
            if let Some(c) = found {
                let k = choose|k: int| 0 <= k < edges_i.len() && is_hit(motion, #[trigger] edges_i[k]) && crate::collider::is_collision_on(c, motion, edges_i[k]);
                assert(is_hit(motion, solids@[i as int].collider.edges@[k]));
            }
            if let Some(h) = best {
                assert forall|j: int, e: int|
                    0 <= j < i + 1 && 0 <= e < solids@[j].collider.edges@.len() && is_hit(
                        motion,
                        #[trigger] solids@[j].collider.edges@[e],
                    ) implies h.collision.param <= lambda_of(motion.0, solids@[j].collider.edges@[e].0) by {
                    if j == i {
                        assert(is_hit(motion, edges_i[e]));
                    } else {
                        if let Some(oh) = old_best {
                        } else {
                            assert(!is_hit(motion, solids@[j].collider.edges@[e]));
                        }
                    }
                }
            } else {
                assert forall|j: int, e: int|
                    0 <= j < i + 1 && 0 <= e < solids@[j].collider.edges@.len() implies !is_hit(
                    motion,
                    #[trigger] solids@[j].collider.edges@[e],
                ) by {
                    if j == i {
                        assert(!is_hit(motion, edges_i[e]));
                    }
                }
            }
        }
        i += 1;
    }
    proof {
        assert(solids@.take(solids@.len() as int) == solids@);
    }
    best
}


/// The ball in flight.
#[derive(Clone, Copy, Debug, PartialEq, Eq)]
pub struct FlyingBall {
    pub pos: P2,
    /// Where the last sub-step started, for interpolation.
    pub prev_pos: P2,
    pub vel: V2,
    /// The solid and normal of the last bounce, so that the surface the
    /// ball now stands on is not taken for a new hit.
    pub prev_collision: Option<(EntityID, V2)>,
}

/// The ball: resting on the paddle until served, or flying.
#[derive(Clone, Copy, Debug, PartialEq, Eq)]
pub enum Ball {
    Flying(FlyingBall),
    Serving,
}

impl Ball {
    pub open spec fn wf(&self) -> bool {
        match *self {
            Ball::Flying(b) => v2_in_limit(b.pos) && v2_in_limit(b.prev_pos) && v2_in_limit(b.vel),
            Ball::Serving => true,
        }
    }

    /// The position at fraction `alpha` of the last sub-step, or `None`
    /// while serving.
    pub fn position(&self, alpha: i64) -> (r: Option<P2>)
        requires
            self.wf(),
            0 <= alpha <= PARAM_ONE,
        ensures
            match *self {
                Ball::Flying(b) => r matches Some(p) && p.x == at_coord(
                    b.prev_pos.x as int,
                    b.pos.x - b.prev_pos.x,
                    alpha as int,
                ) && p.y == at_coord(b.prev_pos.y as int, b.pos.y - b.prev_pos.y, alpha as int),
                Ball::Serving => r is None,
            },
    {
        match self {
            Ball::Flying(ball) => Some(
                V2 { x: lerp(ball.prev_pos.x, ball.pos.x, alpha), y: lerp(ball.prev_pos.y, ball.pos.y, alpha) },
            ),
            Ball::Serving => None,
        }
    }

    /// Launches the ball from `pos` with velocity `vel`.
    pub fn serve(&mut self, pos: P2, vel: V2)
        ensures
            *final(self) == Ball::Flying(FlyingBall { pos, prev_pos: pos, vel, prev_collision: None }),
    {
        let ball = FlyingBall { pos, prev_pos: pos, vel, prev_collision: None };
        *self = Ball::Flying(ball);
    }

    /// Takes the ball out of play, back onto the paddle.
    pub fn kill(&mut self)
        ensures
            *final(self) == Ball::Serving,
    {
        *self = Ball::Serving;
    }
}

/// Where a serve starts.
pub fn serve_position(paddle_x: i64) -> (r: P2)
    ensures
        r == (V2 { x: paddle_x, y: BALL_SERVE_Y }),
{
    V2 { x: paddle_x, y: BALL_SERVE_Y }
}

/// The serve velocity for a paddle moving at `paddle_vel`.
pub open spec fn serve_vel(paddle_vel: int) -> V2 {
    if paddle_vel > 1 {
        V2 { x: BALL_SERVE_SIDE_X, y: BALL_SERVE_SIDE_Y }
    } else if paddle_vel < -1 {
        V2 { x: (-BALL_SERVE_SIDE_X) as i64, y: BALL_SERVE_SIDE_Y }
    } else {
        V2 { x: 0, y: BALL_SERVE_SPEED }
    }
}

/// The serve velocity: tilted toward the side the paddle moves to, or
/// straight up when it stands (nearly) still.
pub fn serve_velocity(paddle_vel: i64) -> (r: V2)
    ensures
        r == serve_vel(paddle_vel as int),
{
    if paddle_vel > 1 {
        V2 { x: BALL_SERVE_SIDE_X, y: BALL_SERVE_SIDE_Y }
    } else if paddle_vel < -1 {
        V2 { x: -BALL_SERVE_SIDE_X, y: BALL_SERVE_SIDE_Y }
    } else {
        V2 { x: 0, y: BALL_SERVE_SPEED }
    }
}

/// The player's controls for one tick.
#[derive(Clone, Copy, Debug, PartialEq, Eq, Structural)]
pub struct Input {
    /// -1 for left, 1 for right, 0 for neither.
    pub paddle_dir: i32,
    pub serve: bool,
}

/// The walls of the arena.
pub open spec fn arena() -> Rect {
    Rect { mins: V2 { x: GAME_LEFT, y: GAME_BOTTOM }, maxs: V2 { x: GAME_RIGHT, y: GAME_HEIGHT } }
}

/// `r` grown by the extents of `by`.
pub open spec fn expanded(r: Rect, by: Rect) -> Rect {
    shifted(r, by.mins.x as int, by.mins.y as int, by.maxs.x as int, by.maxs.y as int)
}

/// The paddle's rectangle placed at `x`.
pub open spec fn paddle_at(paddle_rect: Rect, x: int) -> Rect {
    shifted(paddle_rect, x, PADDLE_Y as int, x, PADDLE_Y as int)
}

/// `solids` is the registry of one tick for a body the shape of `entity`:
/// each block's outer boundary, then the arena's inner one, then the top
/// of the paddle, all grown by `entity`.
pub open spec fn solids_built(
    solids: Seq<SolidEntity>,
    blocks: Seq<Block>,
    paddle_rect: Rect,
    paddle_x: int,
    entity: Rect,
) -> bool {
    let n = blocks.len() as int;
    let pr = expanded(paddle_at(paddle_rect, paddle_x), entity);
    &&& solids.len() == n + 2
    &&& forall|i: int|
        0 <= i < n ==> (#[trigger] solids[i]).id == EntityID::Block(i as usize) && is_rect_collider(
            solids[i].collider,
            expanded(blocks[i].rect, entity),
            CollideFrom::Outside,
        )
    &&& solids[n].id == EntityID::Walls
    &&& is_rect_collider(solids[n].collider, expanded(arena(), entity), CollideFrom::Inside)
    &&& solids[n + 1].id == EntityID::Paddle
    &&& solids[n + 1].collider.edges@.len() == 1
    &&& runs_from_to(solids[n + 1].collider.edges@[0], vertex(pr, 2), vertex(pr, 3))
}

/// The registry of one tick for a body the shape of `entity`, as tagged
/// edge lists: each block's outer boundary, the arena's inner one, and the
/// top of the paddle, all grown by `entity`.
pub open spec fn registry(
    blocks: Seq<Block>,
    paddle_rect: Rect,
    paddle_x: int,
    entity: Rect,
) -> Seq<(EntityID, Seq<Segment>)> {
    let n = blocks.len() as int;
    Seq::new(
        (n + 2) as nat,
        |i: int|
            if i < n {
                (EntityID::Block(i as usize), rect_edges(expanded(blocks[i].rect, entity), CollideFrom::Outside))
            } else if i == n {
                (EntityID::Walls, rect_edges(expanded(arena(), entity), CollideFrom::Inside))
            } else {
                (
                    EntityID::Paddle,
                    seq![rect_edge(expanded(paddle_at(paddle_rect, paddle_x), entity), CollideFrom::Outside, 2)],
                )
            },
    )
}

pub open spec fn clamp(v: int, bound: int) -> int {
    if v > bound {
        bound
    } else if v < -bound {
        -bound
    } else {
        v
    }
}

/// The paddle's speed after `dt` of pushing in direction `dir` against
/// friction, capped at its top speed.
pub open spec fn accelerated(vel: int, dir: int, dt: int) -> int {
    clamp(
        vel + trunc_div(dt * (dir * PADDLE_ACC - vel * PADDLE_FRICTION), TIME_ONE as int),
        PADDLE_MAX_SPEED as int,
    )
}

/// The paddle's position after `dt` at speed `vel`, kept in the arena.
pub open spec fn moved_x(x: int, vel: int, dt: int) -> int {
    clamp(x + trunc_div(dt * vel, TIME_ONE as int), PADDLE_X_BOUND as int)
}

/// The speed the paddle really had moving from `x0` to `x1` in `dt`,
/// taken as 0 when it is below the rest speed.
pub open spec fn measured_speed(x0: int, x1: int, dt: int) -> int {
    let v = trunc_div((x1 - x0) * TIME_ONE, dt);
    if abs(v) < PADDLE_REST_SPEED {
        0
    } else {
        v
    }
}

/// The velocity after bouncing off a surface with normal `n` of the solid
/// `id`: mirrored, and when the paddle moves faster than the steering
/// speed, sent sideways in the paddle's direction.
pub open spec fn bounced(v: V2, n: V2, id: EntityID, paddle_vel: int) -> V2 {
    let rx = reflect_x(v, n);
    let ry = reflect_y(v, n);
    if id is Paddle && abs(paddle_vel) > PADDLE_STEER_SPEED {
        V2 { x: (if paddle_vel > 0 { abs(rx) } else { -abs(rx) }) as i64, y: ry as i64 }
    } else {
        V2 { x: rx as i64, y: ry as i64 }
    }
}

/// The score a block is worth, 0 for an invulnerable one.
pub open spec fn block_score(b: Block) -> i32 {
    match b.kind {
        Kind::Scoring { score, .. } => score,
        Kind::Invulnerable => 0,
    }
}

/// A block after one hit.
pub open spec fn block_after_hit(b: Block) -> Block {
    match b.kind {
        Kind::Scoring { score, hp } => Block { kind: Kind::Scoring { score, hp: (hp - 1) as i32 }, ..b },
        Kind::Invulnerable => b,
    }
}

/// The blocks after a hit on the solid `id`: a block that loses its last
/// hit point goes, another one that is hit loses a hit point.
pub open spec fn blocks_after(blocks: Seq<Block>, id: EntityID) -> Seq<Block> {
    match id {
        EntityID::Block(i) => {
            let b = block_after_hit(blocks[i as int]);
            if b.kind == (Kind::Scoring { score: block_score(b), hp: 0 }) {
                blocks.remove(i as int)
            } else {
                blocks.update(i as int, b)
            }
        },
        _ => blocks,
    }
}

/// The score after a hit on the solid `id` with normal `n`: the floor
/// forfeits the combo, the paddle banks it, a broken block adds to it and
/// a damaged one raises the multiplier. A change that would leave `i64` is
/// not made.
pub open spec fn scoring_after(s: Scoring, blocks: Seq<Block>, id: EntityID, n: V2) -> Scoring {
    match id {
        EntityID::Walls => if n.y > 0 && s.can_hit_floor() {
            after_floor(s)
        } else {
            s
        },
        EntityID::Paddle => if s.can_hit_paddle() {
            after_paddle(s)
        } else {
            s
        },
        EntityID::Block(i) => match blocks[i as int].kind {
            Kind::Scoring { score, hp } => if hp == 1 {
                if s.can_block_broken(score as int) {
                    after_broken(s, score as int)
                } else {
                    s
                }
            } else if s.can_block_damaged() {
                after_damaged(s)
            } else {
                s
            },
            Kind::Invulnerable => s,
        },
    }
}

/// The ball's sweep from `b` over the budget `t`.
pub open spec fn sweep_motion(b: FlyingBall, t: int) -> Segment {
    Segment(
        Line {
            source: b.pos,
            stride: V2 {
                x: trunc_div(b.vel.x * t, PARAM_ONE as int) as i64,
                y: trunc_div(b.vel.y * t, PARAM_ONE as int) as i64,
            },
        },
    )
}

/// Where a sweep ends.
pub open spec fn sweep_end(m: Segment) -> P2 {
    V2 { x: (m.0.source.x + m.0.stride.x) as i64, y: (m.0.source.y + m.0.stride.y) as i64 }
}

/// The blocks, the score and the ball after the ball at `b` spends the
/// budget `t` (the pickups aside). Each sub-step sweeps from the ball's
/// position along its velocity for what is left of the budget. Meeting no
/// solid, or the surface of the last bounce again, ends at the end of the
/// sweep. Otherwise the ball bounces at the earliest hit, the hit takes
/// effect, and the rest of the budget, less the hit's parameter, goes on;
/// the floor ends the flight. A ball whose position or velocity would leave
/// the coordinates the solver can handle is out of play.
pub open spec fn sweep(
    blocks: Seq<Block>,
    scoring: Scoring,
    b: FlyingBall,
    t: int,
    paddle_rect: Rect,
    paddle_x: int,
    paddle_vel: int,
    ball_rect: Rect,
) -> (Seq<Block>, Scoring, Ball)
    decreases (if t > 0 { t } else { 0 }),
{
    if t <= 0 {
        (blocks, scoring, Ball::Flying(b))
    } else {
        let m = sweep_motion(b, t);
        let end = sweep_end(m);
        let ended = if v2_in_limit(end) {
            Ball::Flying(FlyingBall { pos: end, prev_pos: b.pos, ..b })
        } else {
            Ball::Serving
        };
        match first_solid_hit(m, registry(blocks, paddle_rect, paddle_x, ball_rect)) {
            None => (blocks, scoring, ended),
            Some(h) => {
                let n = h.collision.normal;
                if b.prev_collision == Some((h.id, n)) {
                    (blocks, scoring, ended)
                } else if !v2_in_limit(h.collision.point) {
                    (blocks, scoring, Ball::Serving)
                } else {
                    let blocks2 = blocks_after(blocks, h.id);
                    let scoring2 = scoring_after(scoring, blocks, h.id, n);
                    let b2 = FlyingBall {
                        pos: h.collision.point,
                        prev_pos: b.pos,
                        vel: bounced(b.vel, n, h.id, paddle_vel),
                        prev_collision: Some((h.id, n)),
                    };
                    if h.id is Walls && n.y > 0 {
                        (blocks2, scoring2, Ball::Serving)
                    } else if !v2_in_limit(b2.vel) {
                        (blocks2, scoring2, Ball::Serving)
                    } else if h.collision.param > 0 {
                        sweep(
                            blocks2,
                            scoring2,
                            b2,
                            t - h.collision.param,
                            paddle_rect,
                            paddle_x,
                            paddle_vel,
                            ball_rect,
                        )
                    } else {
                        (blocks2, scoring2, Ball::Flying(b2))
                    }
                }
            },
        }
    }
}

/// Chance, in twentieths, that an inner column is a cut.
pub const SPLIT_CHANCE: u32 = 6;
/// Chance, in twentieths, that a block of the layout is kept.
pub const KEEP_CHANCE: u32 = 19;
pub const CHANCE_OUT_OF: u32 = 20;

/// The blocks of the level that `seed` gives: the root generator's flips
/// cut the rows, and the child generator's flips keep blocks of the
/// layout, one flip per block.
pub open spec fn level_of_seed(seed: u64) -> Seq<Block> {
    let split = root_flips(seed, SPLIT_CHANCE, CHANCE_OUT_OF, (ROWS * INNER_SPLITS) as nat);
    let layout = level_layout(rows_of(split));
    layout_from_draws(split, child_flips(seed, KEEP_CHANCE, CHANCE_OUT_OF, layout.len()))
}

/// The level depends on the seed alone: two games started from one seed
/// have the same blocks.
pub proof fn lemma_same_seed_same_level(a: State, b: State, seed: u64)
    requires
        a.blocks@ == level_of_seed(seed),
        b.blocks@ == level_of_seed(seed),
    ensures
        a.blocks@ == b.blocks@,
{
}

/// `p` is a pickup that one of `blocks` could drop, at its centre.
pub open spec fn drop_of_some(p: Pickup, blocks: Seq<Block>) -> bool {
    exists|i: int, k: int, a: int|
        0 <= i < blocks.len() && 0 <= k < 10 && 0 <= a < 100 && Some(p) == #[trigger] dropped(
            0,
            k,
            a,
            blocks[i].rect,
        )
}

/// `new` is `old` followed by no more than `removed` pickups, each dropped
/// by one of `blocks`.
pub open spec fn grown_by_drops(old: Seq<Pickup>, new: Seq<Pickup>, removed: int, blocks: Seq<Block>) -> bool {
    &&& old.len() <= new.len() <= old.len() + removed
    &&& new.take(old.len() as int) == old
    &&& forall|j: int| old.len() <= j < new.len() ==> drop_of_some(#[trigger] new[j], blocks)
}

/// Every block of `new` has the rectangle of a block of `old`.
pub open spec fn rects_from(new: Seq<Block>, old: Seq<Block>) -> bool {
    forall|i: int|
        #![trigger new[i]]
        0 <= i < new.len() ==> exists|j: int| #![trigger old[j]] 0 <= j < old.len() && new[i].rect == old[j].rect
}

/// No drops and nothing removed: the pickups stand as they are.
pub proof fn lemma_no_drops(p: Seq<Pickup>, blocks: Seq<Block>)
    ensures
        grown_by_drops(p, p, 0, blocks),
        rects_from(blocks, blocks),
{
    assert(p.take(p.len() as int) =~= p);
    assert forall|i: int| #![trigger blocks[i]] 0 <= i < blocks.len() implies exists|j: int|
        #![trigger blocks[j]] 0 <= j < blocks.len() && blocks[i].rect == blocks[j].rect by {
        let j = i;
        assert(0 <= j < blocks.len() && blocks[i].rect == blocks[j].rect);
    }
}

/// A hit keeps the rectangles of the blocks it leaves.
pub proof fn lemma_rects_after_hit(blocks: Seq<Block>, id: EntityID)
    requires
        id matches EntityID::Block(i) ==> i < blocks.len(),
    ensures
        rects_from(blocks_after(blocks, id), blocks),
{
    let nb = blocks_after(blocks, id);
    assert forall|i: int| 0 <= i < nb.len() implies exists|j: int|
        0 <= j < blocks.len() && (#[trigger] nb[i]).rect == blocks[j].rect by {
        match id {
            EntityID::Block(k) => {
                let b = block_after_hit(blocks[k as int]);
                if b.kind == (Kind::Scoring { score: block_score(b), hp: 0 }) {
                    if i < k {
                        assert(nb[i] == blocks[i]);
                    } else {
                        assert(nb[i] == blocks[i + 1]);
                    }
                } else {
                    assert(nb[i].rect == blocks[i].rect);
                }
            },
            _ => {
                assert(nb[i] == blocks[i]);
            },
        }
    }
}

/// Drops made by blocks that all have rectangles of earlier blocks are
/// drops of the earlier blocks.
pub proof fn lemma_drops_compose(
    p0: Seq<Pickup>,
    p1: Seq<Pickup>,
    p2: Seq<Pickup>,
    r1: int,
    r2: int,
    b0: Seq<Block>,
    b1: Seq<Block>,
)
    requires
        grown_by_drops(p0, p1, r1, b0),
        grown_by_drops(p1, p2, r2, b1),
        rects_from(b1, b0),
    ensures
        grown_by_drops(p0, p2, r1 + r2, b0),
{
    assert(p2.take(p0.len() as int) =~= p1.take(p0.len() as int)) by {
        assert forall|j: int| 0 <= j < p0.len() implies p2[j] == p1[j] by {
            assert(p2.take(p1.len() as int)[j] == p1[j]);
        }
    }
    assert forall|j: int| p0.len() <= j < p2.len() implies drop_of_some(#[trigger] p2[j], b0) by {
        if j < p1.len() {
            assert(p2.take(p1.len() as int)[j] == p1[j]);
        } else {
            assert(drop_of_some(p2[j], b1));
            let (i, k, a) = choose|i: int, k: int, a: int|
                0 <= i < b1.len() && 0 <= k < 10 && 0 <= a < 100 && Some(p2[j]) == #[trigger] dropped(
                    0,
                    k,
                    a,
                    b1[i].rect,
                );
            let jj = choose|jj: int| 0 <= jj < b0.len() && b1[i].rect == b0[jj].rect;
            assert(Some(p2[j]) == dropped(0, k, a, b0[jj].rect));
        }
    }
}

/// A read-only view of the game for drawing.
pub struct Frame<'a> {
    pub rect: Rect,
    pub paddle_rect: Rect,
    pub paddle_pos: P2,
    pub ball_rect: Rect,
    pub ball_pos: P2,
    pub blocks: &'a Vec<Block>,
    pub pickups: &'a Pickups,
    pub scoring: Scoring,
}

/// The whole game between ticks.
pub struct State {
    pub paddle_rect: Rect,
    pub paddle_x: i64,
    pub paddle_vel: i64,
    pub paddle_prev_x: i64,
    pub ball_rect: Rect,
    pub ball: Ball,
    pub blocks: Vec<Block>,
    pub pickups: Pickups,
    pub scoring: Scoring,
}

fn clamp_i64(v: i64, bound: i64) -> (r: i64)
    requires
        bound >= 0,
    ensures
        r == clamp(v as int, bound as int),
{
    if v > bound {
        bound
    } else if v < -bound {
        -bound
    } else {
        v
    }
}

fn fits(v: V2) -> (r: bool)
    ensures
        r == v2_in_limit(v),
{
    -COORD_LIMIT <= v.x && v.x <= COORD_LIMIT && -COORD_LIMIT <= v.y && v.y <= COORD_LIMIT
}

fn same_key(key: Option<(EntityID, V2)>, id: EntityID, normal: V2) -> (r: bool)
    ensures
        r == (key == Some((id, normal))),
{
    match key {
        Some((k, n)) => {
            let same_id = match (k, id) {
                (EntityID::Walls, EntityID::Walls) => true,
                (EntityID::Paddle, EntityID::Paddle) => true,
                (EntityID::Block(a), EntityID::Block(b)) => a == b,
                _ => false,
            };
            same_id && n.x == normal.x && n.y == normal.y
        },
        None => false,
    }
}

impl State {
    /// The bounds that keep every coordinate of the game within the line
    /// solver's reach, and every block valid.
    pub open spec fn wf(&self) -> bool {
        &&& self.paddle_rect.wf()
        &&& self.paddle_rect.within(BODY_LIMIT as int)
        &&& -PADDLE_X_BOUND <= self.paddle_x <= PADDLE_X_BOUND
        &&& -PADDLE_X_BOUND <= self.paddle_prev_x <= PADDLE_X_BOUND
        &&& -PADDLE_VEL_LIMIT <= self.paddle_vel <= PADDLE_VEL_LIMIT
        &&& self.ball_rect.wf()
        &&& self.ball_rect.within(BODY_LIMIT as int)
        &&& self.ball.wf()
        &&& forall|i: int|
            0 <= i < self.blocks@.len() ==> (#[trigger] self.blocks@[i]).wf() && self.blocks@[i].rect.wf()
                && self.blocks@[i].rect.within(BLOCK_LIMIT as int)
        &&& self.pickups.wf()
    }

    /// The registry of solids for a body the shape of `entity`.
    fn get_solids_for_entity(&self, entity: Rect) -> (solids: Vec<SolidEntity>)
        requires
            self.wf(),
            entity.wf(),
            entity.within(BODY_LIMIT as int),
        ensures
            solids_built(solids@, self.blocks@, self.paddle_rect, self.paddle_x as int, entity),
            solids_usable(solids@),
            solids@.map_values(|x: SolidEntity| solid_view(x)) == registry(
                self.blocks@,
                self.paddle_rect,
                self.paddle_x as int,
                entity,
            ),
    {
        let mut solids: Vec<SolidEntity> = Vec::new();
        let mut i: usize = 0;
        while i < self.blocks.len()
            invariant
                self.wf(),
                entity.wf(),
                entity.within(BODY_LIMIT as int),
                0 <= i <= self.blocks@.len(),
                solids@.len() == i,
                solids_usable(solids@),
                forall|k: int|
                    0 <= k < i ==> (#[trigger] solids@[k]).id == EntityID::Block(k as usize) && is_rect_collider(
                        solids@[k].collider,
                        expanded(self.blocks@[k].rect, entity),
                        CollideFrom::Outside,
                    ) && solids@[k].collider.edges@ == rect_edges(expanded(self.blocks@[k].rect, entity), CollideFrom::Outside),
            decreases self.blocks@.len() - i,
        {
            let block = self.blocks[i];
            assert(self.blocks@[i as int].rect.within(BLOCK_LIMIT as int));
            let grown = block.rect.expand(entity);
            let collider = grown.to_collider(CollideFrom::Outside);
            solids.push(SolidEntity::new(collider, EntityID::Block(i)));
            i += 1;
        }
        let walls = Rect::new(V2 { x: GAME_LEFT, y: GAME_BOTTOM }, V2 { x: GAME_RIGHT, y: GAME_HEIGHT });
        let wall_collider = walls.expand(entity).to_collider(CollideFrom::Inside);
        solids.push(SolidEntity::new(wall_collider, EntityID::Walls));
        let top = self.paddle_rect.at(V2 { x: self.paddle_x, y: PADDLE_Y }).expand(entity).side_max_y();
        let paddle_collider = top.to_collider();
        solids.push(SolidEntity::new(paddle_collider, EntityID::Paddle));
        proof {
            let pr = expanded(paddle_at(self.paddle_rect, self.paddle_x as int), entity);
            assert(top == rect_edge(pr, CollideFrom::Outside, 2));
            assert(solids@.map_values(|x: SolidEntity| solid_view(x)) =~= registry(
                self.blocks@,
                self.paddle_rect,
                self.paddle_x as int,
                entity,
            ));
        }
        solids
    }

    /// Applies a hit to the ball and the game: the ball moves to the point
    /// of contact and bounces off the surface, the paddle steers it when
    /// moving, a block takes a hit (and goes, when broken), and the score
    /// reacts. Returns `false` when the hit is the floor, which ends the
    /// ball's flight.
    pub fn handle_collision(&mut self, ball: &mut FlyingBall, hit: Hit) -> (alive: bool)
        requires
            old(self).wf(),
            v2_in_limit(old(ball).pos),
            v2_in_limit(old(ball).prev_pos),
            v2_in_limit(old(ball).vel),
            v2_in_limit(hit.collision.point),
            -PARAM_ONE <= hit.collision.normal.x <= PARAM_ONE,
            -PARAM_ONE <= hit.collision.normal.y <= PARAM_ONE,
            hit.id matches EntityID::Block(i) ==> i < old(self).blocks@.len(),
        ensures
            final(self).wf(),
            final(self).paddle_rect == old(self).paddle_rect,
            final(self).paddle_x == old(self).paddle_x,
            final(self).paddle_prev_x == old(self).paddle_prev_x,
            final(self).paddle_vel == old(self).paddle_vel,
            final(self).ball_rect == old(self).ball_rect,
            final(self).ball == old(self).ball,
            final(ball).pos == hit.collision.point,
            final(ball).prev_pos == old(ball).prev_pos,
            final(ball).prev_collision == Some((hit.id, hit.collision.normal)),
            final(ball).vel == bounced(old(ball).vel, hit.collision.normal, hit.id, old(self).paddle_vel as int),
            alive == !(hit.id is Walls && hit.collision.normal.y > 0),
            final(self).scoring == scoring_after(old(self).scoring, old(self).blocks@, hit.id, hit.collision.normal),
            final(self).blocks@ == blocks_after(old(self).blocks@, hit.id),
            final(self).blocks@.len() <= old(self).blocks@.len(),
            !(hit.id matches EntityID::Block(i) && block_after_hit(old(self).blocks@[i as int]).kind == (Kind::Scoring {
                score: block_score(old(self).blocks@[i as int]), hp: 0 })) ==> final(self).pickups == old(self).pickups,
            final(self).blocks@.len() == old(self).blocks@.len() ==> final(self).pickups == old(self).pickups,
            grown_by_drops(
                old(self).pickups.pickups@,
                final(self).pickups.pickups@,
                old(self).blocks@.len() - final(self).blocks@.len(),
                old(self).blocks@,
            ),
    {
        proof {
            lemma_no_drops(self.pickups.pickups@, self.blocks@);
        }
        let normal = hit.collision.normal;
        ball.vel = reflect(ball.vel, normal);
        ball.pos = hit.collision.point;
        match hit.id {
            EntityID::Walls => {
                if normal.y > 0 {
                    if self.scoring.fits_hit_floor() {
                        self.scoring.hit_floor();
                    }
                    ball.prev_collision = Some((hit.id, normal));
                    return false;
                }
            },
            EntityID::Paddle => {
                if self.scoring.fits_hit_paddle() {
                    self.scoring.hit_paddle();
                }
                if self.paddle_vel > PADDLE_STEER_SPEED || self.paddle_vel < -PADDLE_STEER_SPEED {
                    let speed = if ball.vel.x < 0 { -ball.vel.x } else { ball.vel.x };
                    ball.vel.x = if self.paddle_vel > 0 { speed } else { -speed };
                }
            },
            EntityID::Block(index) => {
                let mut block = self.blocks[index];
                assert(self.blocks@[index as int].wf());
                let ghost before = self.blocks@;
                match block.hit() {
                    block::Hit::Broken(score) => {
                        let removed = self.blocks.remove(index);
                        proof {
                            assert forall|i: int| 0 <= i < self.blocks@.len() implies (#[trigger] self.blocks@[i]).wf()
                                && self.blocks@[i].rect.wf() && self.blocks@[i].rect.within(BLOCK_LIMIT as int) by {
                                if i >= index {
                                    assert(self.blocks@[i] == before[i + 1]);
                                    assert(before[i + 1].wf());
                                }
                            }
                        }
                        if self.scoring.fits_block_broken(score as i64) {
                            self.scoring.block_broken(score as i64);
                        }
                        let ghost pk = self.pickups.pickups@;
                        self.pickups.block_broken(removed);
                        proof {
                            let (d, k, a) = choose|d: int, k: int, a: int|
                                0 <= d < 2 && 0 <= k < 10 && 0 <= a < 100 && self.pickups.pickups@ == pk
                                    + option_seq(#[trigger] dropped(d, k, a, removed.rect));
                            assert(self.pickups.pickups@.take(pk.len() as int) =~= pk);
                            if d == 0 {
                                assert(self.pickups.pickups@[pk.len() as int] == dropped(d, k, a, removed.rect)->0);
                                assert(removed.rect == before[index as int].rect);
                                assert(drop_of_some(self.pickups.pickups@[pk.len() as int], before));
                            }
                        }
                    },
                    block::Hit::Damaged => {
                        self.blocks.set(index, block);
                        if self.scoring.fits_block_damaged() {
                            self.scoring.block_damaged();
                        }
                    },
                    block::Hit::Invulnerable => {},
                }
            },
        }
        ball.prev_collision = Some((hit.id, normal));
        true
    }

    /// Spends the tick's time budget `dt` moving the ball: each sub-step
    /// sweeps the ball's position along its velocity for what is left of
    /// the budget, and at the earliest solid it meets bounces off it,
    /// applies the hit's effect, and pays the hit's parameter out of the
    /// budget. Meeting nothing, or the surface of the last bounce again,
    /// ends the tick at the end of the sweep. Reaching the floor forfeits
    /// the combo and takes the ball out of play, as does a position or
    /// velocity beyond the coordinates the solver can handle. Returns the
    /// number of sub-steps: each one that goes on pays more than
    /// `HIT_EPSILON` of the budget, so there are at most `(dt + 3) / 2`.
    pub fn update_ball(&mut self, dt: i64) -> (steps: u64)
        requires
            old(self).wf(),
            0 < dt <= TIME_ONE,
        ensures
            final(self).wf(),
            final(self).paddle_rect == old(self).paddle_rect,
            final(self).paddle_x == old(self).paddle_x,
            final(self).paddle_prev_x == old(self).paddle_prev_x,
            final(self).paddle_vel == old(self).paddle_vel,
            final(self).ball_rect == old(self).ball_rect,
            old(self).ball is Serving ==> final(self).ball == old(self).ball,
            old(self).ball matches Ball::Flying(b) ==> (final(self).blocks@, final(self).scoring, final(self).ball)
                == sweep(
                old(self).blocks@,
                old(self).scoring,
                b,
                dt as int,
                old(self).paddle_rect,
                old(self).paddle_x as int,
                old(self).paddle_vel as int,
                old(self).ball_rect,
            ),
            final(self).blocks@.len() <= old(self).blocks@.len(),
            final(self).blocks@.len() == old(self).blocks@.len() ==> final(self).pickups == old(self).pickups,
            grown_by_drops(
                old(self).pickups.pickups@,
                final(self).pickups.pickups@,
                old(self).blocks@.len() - final(self).blocks@.len(),
                old(self).blocks@,
            ),
            2 * steps <= dt + 3,
    {
        proof {
            lemma_no_drops(self.pickups.pickups@, self.blocks@);
        }
        let ghost start = self.ball;
        let mut ball = match self.ball {
            Ball::Flying(b) => b,
            Ball::Serving => {
                return 0;
            },
        };
        let mut remaining: i64 = dt;
        let mut steps: u64 = 0;
        while remaining > 0
            invariant_except_break
                2 * steps <= dt - remaining + 1,
                remaining <= 0 ==> 2 * steps <= dt + 2,
                start matches Ball::Flying(b0) && sweep(
                    self.blocks@,
                    self.scoring,
                    ball,
                    remaining as int,
                    self.paddle_rect,
                    self.paddle_x as int,
                    self.paddle_vel as int,
                    self.ball_rect,
                ) == sweep(
                    old(self).blocks@,
                    old(self).scoring,
                    b0,
                    dt as int,
                    old(self).paddle_rect,
                    old(self).paddle_x as int,
                    old(self).paddle_vel as int,
                    old(self).ball_rect,
                ),
            invariant
                self.wf(),
                self.ball is Flying,
                v2_in_limit(ball.pos),
                v2_in_limit(ball.prev_pos),
                v2_in_limit(ball.vel),
                remaining <= dt <= TIME_ONE,
                self.paddle_rect == old(self).paddle_rect,
                self.paddle_x == old(self).paddle_x,
                self.paddle_prev_x == old(self).paddle_prev_x,
                self.paddle_vel == old(self).paddle_vel,
                self.ball_rect == old(self).ball_rect,
                self.blocks@.len() <= old(self).blocks@.len(),
                start == old(self).ball,
                self.blocks@.len() == old(self).blocks@.len() ==> self.pickups == old(self).pickups,
                grown_by_drops(
                    old(self).pickups.pickups@,
                    self.pickups.pickups@,
                    old(self).blocks@.len() - self.blocks@.len(),
                    old(self).blocks@,
                ),
                rects_from(self.blocks@, old(self).blocks@),
            ensures
                2 * steps <= dt + 3,
                start matches Ball::Flying(b0) && (self.blocks@, self.scoring, Ball::Flying(ball)) == sweep(
                    old(self).blocks@,
                    old(self).scoring,
                    b0,
                    dt as int,
                    old(self).paddle_rect,
                    old(self).paddle_x as int,
                    old(self).paddle_vel as int,
                    old(self).ball_rect,
                ),
            decreases if remaining > 0 { remaining as int } else { 0 },
        {
            steps = steps + 1;
            ball.prev_pos = ball.pos;
            let motion = Segment::new(ball.pos, scaled(ball.vel, remaining));
            assert(motion == sweep_motion(ball, remaining as int));
            let solids = self.get_solids_for_entity(self.ball_rect);
            let found = get_collision(&solids, motion);
            let hit = match found {
                Some(h) => h,
                None => {
                    let dest = motion.destination();
                    if !fits(dest) {
                        self.ball.kill();
                        return steps;
                    }
                    ball.pos = dest;
                    break;
                },
            };
            let normal = hit.collision.normal;
            if same_key(ball.prev_collision, hit.id, normal) {
                let dest = motion.destination();
                if !fits(dest) {
                    self.ball.kill();
                    return steps;
                }
                ball.pos = dest;
                break;
            }
            let ghost n = self.blocks@.len() as int;
            proof {
                let k = choose|k: int|
                    0 <= k < solids@.len() && hit.id == (#[trigger] solids@[k]).id && is_first_hit(
                        hit.collision,
                        motion,
                        solids@[k].collider.edges@,
                    );
                let edges = solids@[k].collider.edges@;
                let e = choose|e: int|
                    0 <= e < edges.len() && is_hit(motion, #[trigger] edges[e])
                        && crate::collider::is_collision_on(hit.collision, motion, edges[e]);
                lemma_normal_bound(edges[e]);
                if hit.id is Block {
                    assert(k < n);
                }
                lemma_hit_consumes_budget(hit, motion, solids@);
            }
            if !fits(hit.collision.point) {
                self.ball.kill();
                return steps;
            }
            let ghost (pk, bk) = (self.pickups.pickups@, self.blocks@);
            let alive = self.handle_collision(&mut ball, hit);
            proof {
                lemma_rects_after_hit(bk, hit.id);
                lemma_drops_compose(
                    old(self).pickups.pickups@,
                    pk,
                    self.pickups.pickups@,
                    old(self).blocks@.len() - bk.len(),
                    bk.len() - self.blocks@.len(),
                    old(self).blocks@,
                    bk,
                );
                assert forall|i: int| 0 <= i < self.blocks@.len() implies exists|j: int|
                    0 <= j < old(self).blocks@.len() && (#[trigger] self.blocks@[i]).rect == old(self).blocks@[j].rect by {
                    let m = choose|m: int| 0 <= m < bk.len() && self.blocks@[i].rect == bk[m].rect;
                    assert(exists|j: int| 0 <= j < old(self).blocks@.len() && (#[trigger] bk[m]).rect == old(self).blocks@[j].rect);
                }
            }
            if !alive || !fits(ball.vel) {
                self.ball.kill();
                return steps;
            }
            remaining = remaining - hit.collision.param;
        }
        self.ball = Ball::Flying(ball);
        steps
    }


    /// Whether the level is cleared: no combo in flight and no scoring
    /// block left.
    pub open spec fn cleared(&self) -> bool {
        self.scoring.combo_score == 0 && forall|i: int|
            0 <= i < self.blocks@.len() ==> !((#[trigger] self.blocks@[i]).kind is Scoring)
    }

    /// One tick of `dt`: the paddle accelerates toward `input.paddle_dir`
    /// against friction and moves within the arena, the pickups fall, and
    /// the ball is either served (when resting and `input.serve` is set)
    /// or moved. Returns whether the game goes on, that is, whether the
    /// level is not yet cleared.
    pub fn update(&mut self, dt: i64, input: Input) -> (r: bool)
        requires
            old(self).wf(),
            0 < dt <= TIME_ONE,
            -1 <= input.paddle_dir <= 1,
        ensures
            final(self).wf(),
            final(self).paddle_prev_x == old(self).paddle_x,
            final(self).paddle_x == moved_x(
                old(self).paddle_x as int,
                accelerated(old(self).paddle_vel as int, input.paddle_dir as int, dt as int),
                dt as int,
            ),
            final(self).paddle_vel == measured_speed(
                old(self).paddle_x as int,
                final(self).paddle_x as int,
                dt as int,
            ),
            old(self).ball is Serving && input.serve ==> final(self).ball == Ball::Flying(
                FlyingBall {
                    pos: V2 { x: final(self).paddle_x, y: BALL_SERVE_Y },
                    prev_pos: V2 { x: final(self).paddle_x, y: BALL_SERVE_Y },
                    vel: serve_vel(final(self).paddle_vel as int),
                    prev_collision: None,
                },
            ),
            old(self).ball is Serving && !input.serve ==> final(self).ball == Ball::Serving,
            old(self).ball is Serving ==> final(self).blocks@ == old(self).blocks@ && final(self).scoring
                == old(self).scoring,
            old(self).ball matches Ball::Flying(b) ==> (final(self).blocks@, final(self).scoring, final(self).ball)
                == sweep(
                old(self).blocks@,
                old(self).scoring,
                b,
                dt as int,
                old(self).paddle_rect,
                final(self).paddle_x as int,
                final(self).paddle_vel as int,
                old(self).ball_rect,
            ),
            final(self).blocks@.len() <= old(self).blocks@.len(),
            grown_by_drops(
                still_falling(
                    old(self).pickups.pickups@,
                    fall_distance(dt as int),
                    catch_box(paddle_at(old(self).paddle_rect, final(self).paddle_x as int)),
                    0,
                ),
                final(self).pickups.pickups@,
                old(self).blocks@.len() - final(self).blocks@.len(),
                old(self).blocks@,
            ),
            r == !final(self).cleared(),
    {
        self.paddle_prev_x = self.paddle_x;
        let vel: i64 = self.paddle_vel;
        let dir: i64 = input.paddle_dir as i64;
        let friction: i64 = vel * PADDLE_FRICTION;
        let acc: i64 = dir * PADDLE_ACC - friction;
        proof {
            assert(-PARAM_ONE * 40000000000 <= dt * acc <= PARAM_ONE * 40000000000) by (nonlinear_arith)
                requires
                    0 < dt <= PARAM_ONE,
                    -40000000000 <= acc <= 40000000000,
            ;
            crate::arith::lemma_trunc_div_bound(dt * acc, TIME_ONE as int, 40000000000);
        }
        let dv: i128 = crate::arith::div_toward_zero((dt as i128) * (acc as i128), TIME_ONE as i128);
        let v1: i64 = clamp_i64((vel as i128 + dv) as i64, PADDLE_MAX_SPEED);
        let old_x: i64 = self.paddle_x;
        proof {
            assert(-PARAM_ONE * PADDLE_MAX_SPEED <= dt * v1 <= PARAM_ONE * PADDLE_MAX_SPEED) by (nonlinear_arith)
                requires
                    0 < dt <= PARAM_ONE,
                    -PADDLE_MAX_SPEED <= v1 <= PADDLE_MAX_SPEED,
            ;
            crate::arith::lemma_trunc_div_bound(dt * v1, TIME_ONE as int, PADDLE_MAX_SPEED as int);
        }
        let dx: i128 = crate::arith::div_toward_zero((dt as i128) * (v1 as i128), TIME_ONE as i128);
        let x1: i64 = clamp_i64(old_x + dx as i64, PADDLE_X_BOUND);
        proof {
            let m = (x1 - old_x) * TIME_ONE;
            assert(-PADDLE_VEL_LIMIT <= m <= PADDLE_VEL_LIMIT);
            assert(abs(m) <= PADDLE_VEL_LIMIT * abs(dt as int)) by (nonlinear_arith)
                requires
                    abs(m) <= PADDLE_VEL_LIMIT,
                    dt >= 1,
            ;
            crate::arith::lemma_trunc_div_bound(m, dt as int, PADDLE_VEL_LIMIT as int);
        }
        let measured: i64 = crate::arith::div_toward_zero(((x1 - old_x) as i128) * (TIME_ONE as i128), dt as i128) as i64;
        self.paddle_x = x1;
        self.paddle_vel = if measured < PADDLE_REST_SPEED && measured > -PADDLE_REST_SPEED { 0 } else { measured };

        let paddle_rect = self.paddle_rect.at(V2 { x: self.paddle_x, y: PADDLE_Y });
        let _collected = self.pickups.update(dt, paddle_rect, 0);

        proof {
            lemma_no_drops(self.pickups.pickups@, self.blocks@);
        }
        match self.ball {
            Ball::Flying(_) => {
                let _steps = self.update_ball(dt);
            },
            Ball::Serving => {
                if input.serve {
                    self.ball.serve(serve_position(self.paddle_x), serve_velocity(self.paddle_vel));
                }
            },
        }

        let mut scoring_left = false;
        let mut i: usize = 0;
        while i < self.blocks.len()
            invariant
                0 <= i <= self.blocks@.len(),
                scoring_left <==> exists|j: int| 0 <= j < i && (#[trigger] self.blocks@[j]).kind is Scoring,
            decreases self.blocks@.len() - i,
        {
            if self.blocks[i].is_scoring() {
                scoring_left = true;
            }
            i += 1;
        }
        !(self.scoring.no_combo() && !scoring_left)
    }


    /// A new game: the paddle in the middle, the ball resting on it, no
    /// score, and the blocks of the level that `seed` gives
    /// (`level_of_seed`). The root generator seeded with `seed` first hands
    /// out the seed of a child generator, then cuts each inner column with
    /// chance 3 in 10; the child keeps each block of the layout with chance
    /// 19 in 20. The pickups draw from a generator of their own, also seeded
    /// with `seed`.
    pub fn new(seed: u64) -> (r: State)
        ensures
            r.wf(),
            r.paddle_x == 0,
            r.paddle_prev_x == 0,
            r.paddle_vel == 0,
            r.ball == Ball::Serving,
            r.scoring == initial_scoring(),
            r.pickups.pickups@.len() == 0,
            r.blocks@ == level_of_seed(seed),
            r.paddle_rect.mins.x == -PADDLE_W / 2 && r.paddle_rect.mins.y == -600,
            r.paddle_rect.maxs.x == PADDLE_W / 2 && r.paddle_rect.maxs.y == 0,
            r.ball_rect.mins.x == -BALL_SIZE / 2 && r.ball_rect.mins.y == -BALL_SIZE / 2,
            r.ball_rect.maxs.x == BALL_SIZE / 2 && r.ball_rect.maxs.y == BALL_SIZE / 2,
    {
        let paddle_rect = Rect::new(V2 { x: -PADDLE_W / 2, y: -600 }, V2 { x: PADDLE_W / 2, y: 0 });
        let ball_rect = Rect::new(
            V2 { x: -BALL_SIZE / 2, y: -BALL_SIZE / 2 },
            V2 { x: BALL_SIZE / 2, y: BALL_SIZE / 2 },
        );

        let split_draws = root_flip_stream(seed, SPLIT_CHANCE, CHANCE_OUT_OF, ROWS * INNER_SPLITS);
        let rows = split_rows(&split_draws);
        let layout = level_blocks(&rows);
        let keep = child_flip_stream(seed, KEEP_CHANCE, CHANCE_OUT_OF, layout.len());
        let blocks = kept_blocks(&layout, &keep);
        proof {
            lemma_kept_ok(layout@, keep@);
        }

        State {
            paddle_rect,
            paddle_x: 0,
            paddle_prev_x: 0,
            paddle_vel: 0,
            ball_rect,
            ball: Ball::Serving,
            blocks,
            pickups: Pickups::new(seed),
            scoring: Scoring::new(),
        }
    }

    /// The arena.
    pub fn rect(&self) -> (r: Rect)
        ensures
            r == arena(),
    {
        Rect::new_with_dims(V2 { x: GAME_LEFT, y: GAME_BOTTOM }, V2 { x: GAME_WIDTH, y: GAME_HEIGHT })
    }

    pub fn width(&self) -> (r: i64)
        ensures
            r == GAME_WIDTH,
    {
        GAME_WIDTH
    }

    pub fn height(&self) -> (r: i64)
        ensures
            r == GAME_HEIGHT,
    {
        GAME_HEIGHT
    }

    pub fn left(&self) -> (r: i64)
        ensures
            r == GAME_LEFT,
    {
        GAME_LEFT
    }

    pub fn top(&self) -> (r: i64)
        ensures
            r == GAME_TOP,
    {
        GAME_TOP
    }

    /// What to draw at fraction `alpha` of the last tick: the paddle and
    /// the ball between their previous and current positions (the ball
    /// just above the paddle while serving), the blocks, the pickups and
    /// the score.
    pub fn frame<'a>(&'a self, alpha: i64) -> (r: Frame<'a>)
        requires
            self.wf(),
            0 <= alpha <= PARAM_ONE,
        ensures
            r.rect == arena(),
            r.paddle_rect == self.paddle_rect,
            r.paddle_pos.x == at_coord(self.paddle_prev_x as int, self.paddle_x - self.paddle_prev_x, alpha as int),
            r.paddle_pos.y == PADDLE_Y,
            r.ball_rect == self.ball_rect,
            match self.ball {
                Ball::Flying(b) => r.ball_pos.x == at_coord(
                    b.prev_pos.x as int,
                    b.pos.x - b.prev_pos.x,
                    alpha as int,
                ) && r.ball_pos.y == at_coord(b.prev_pos.y as int, b.pos.y - b.prev_pos.y, alpha as int),
                Ball::Serving => r.ball_pos.x == r.paddle_pos.x && r.ball_pos.y == PADDLE_Y + 1000,
            },
            r.blocks == &self.blocks,
            r.pickups == &self.pickups,
            r.scoring == self.scoring,
    {
        let paddle_x = lerp(self.paddle_prev_x, self.paddle_x, alpha);
        let paddle_pos = V2 { x: paddle_x, y: PADDLE_Y };
        let ball_pos = match self.ball.position(alpha) {
            Some(p) => p,
            None => V2 { x: paddle_pos.x, y: paddle_pos.y + 1000 },
        };
        Frame {
            rect: self.rect(),
            paddle_rect: self.paddle_rect,
            paddle_pos,
            ball_rect: self.ball_rect,
            ball_pos,
            blocks: &self.blocks,
            pickups: &self.pickups,
            scoring: self.scoring,
        }
    }

}

} // verus!
