//! Pickups that a broken block may drop, falling toward the paddle.

use vstd::prelude::*;
use pcg_rand::Pcg32Basic;
use crate::block::Block;
use crate::dilate::Dilate;
use crate::game::{BLOCK_LIMIT, TIME_ONE};
use crate::math::{P2, V2};
use crate::rect::{shifted, Rect};
use crate::rng::{below, seeded};

verus! {

/// Falling speed, in units per second.
pub const DROP_SPEED: i64 = 30000;
/// Half the size of a pickup's catch box.
pub const DROP_HALF_SIZE: i64 = 800;

#[derive(Clone, Copy, Debug, PartialEq, Eq, Structural)]
pub enum PickupKind {
    Bonus(i32),
    ExtraBall,
    Detonator,
    MultiBall,
}

#[derive(Clone, Copy, Debug, PartialEq, Eq, Structural)]
pub struct Pickup {
    pub position: P2,
    pub kind: PickupKind,
}

/// The falling pickups and the generator that decides the drops.
pub struct Pickups {
    pub rng: Pcg32Basic,
    pub pickups: Vec<Pickup>,
}

/// Bound on a pickup's coordinates.
pub open spec fn pickup_in_limit(p: Pickup) -> bool {
    -BLOCK_LIMIT <= p.position.x <= BLOCK_LIMIT && -BLOCK_LIMIT <= p.position.y <= BLOCK_LIMIT
}

/// The pickup moved down by `d`.
pub open spec fn fallen(p: Pickup, d: int) -> Pickup {
    Pickup { position: V2 { x: p.position.x, y: (p.position.y - d) as i64 }, ..p }
}

/// Whether `r` holds `p` (low edges in, high edges out).
pub open spec fn rect_holds(r: Rect, p: P2) -> bool {
    r.mins.x <= p.x < r.maxs.x && r.mins.y <= p.y < r.maxs.y
}

/// How far a pickup falls in `dt`.
pub open spec fn fall_distance(dt: int) -> int {
    dt * DROP_SPEED / TIME_ONE as int
}

/// The paddle's rectangle grown by half a pickup's size.
pub open spec fn catch_box(paddle_rect: Rect) -> Rect {
    shifted(paddle_rect, -DROP_HALF_SIZE, -DROP_HALF_SIZE, DROP_HALF_SIZE as int, DROP_HALF_SIZE as int)
}

/// The kinds of the pickups of `ps` that `catch` holds after falling `d`.
pub open spec fn caught(ps: Seq<Pickup>, d: int, catch: Rect) -> Seq<PickupKind>
    decreases ps.len(),
{
    if ps.len() == 0 {
        Seq::empty()
    } else {
        let p = fallen(ps.last(), d);
        let rest = caught(ps.drop_last(), d, catch);
        if rect_holds(catch, p.position) {
            rest.push(p.kind)
        } else {
            rest
        }
    }
}

/// The pickups of `ps`, fallen by `d`, that `catch` does not hold and that
/// are still above `floor`.
pub open spec fn still_falling(ps: Seq<Pickup>, d: int, catch: Rect, floor: int) -> Seq<Pickup>
    decreases ps.len(),
{
    if ps.len() == 0 {
        Seq::empty()
    } else {
        let p = fallen(ps.last(), d);
        let rest = still_falling(ps.drop_last(), d, catch, floor);
        if !rect_holds(catch, p.position) && p.position.y > floor {
            rest.push(p)
        } else {
            rest
        }
    }
}

/// The kind that a roll below 10 and a roll below 100 give.
pub open spec fn kind_of_rolls(kind_roll: int, amount_roll: int) -> PickupKind {
    if kind_roll < 7 {
        PickupKind::Bonus((amount_roll * 10) as i32)
    } else if kind_roll == 7 {
        PickupKind::ExtraBall
    } else if kind_roll == 8 {
        PickupKind::Detonator
    } else {
        PickupKind::MultiBall
    }
}

/// The centre of `r`, rounded toward its low corner.
pub open spec fn centre(r: Rect) -> P2 {
    V2 {
        x: (r.mins.x + (r.maxs.x - r.mins.x) / 2) as i64,
        y: (r.mins.y + (r.maxs.y - r.mins.y) / 2) as i64,
    }
}

/// The drop that three rolls give for a block at `r`: none when the first
/// roll is 1, else a pickup at the centre of `r` of the kind of the other
/// two rolls.
pub open spec fn dropped(drop_roll: int, kind_roll: int, amount_roll: int, r: Rect) -> Option<Pickup> {
    if drop_roll == 0 {
        Some(Pickup { position: centre(r), kind: kind_of_rolls(kind_roll, amount_roll) })
    } else {
        None
    }
}

/// The pickups that an optional drop adds.
pub open spec fn option_seq(o: Option<Pickup>) -> Seq<Pickup> {
    match o {
        Some(p) => seq![p],
        None => Seq::empty(),
    }
}

/// The drop for a block at `rect` from a roll below 2 (0 drops), a roll
/// below 10 and a roll below 100.
pub fn pickup_drop(drop_roll: u32, kind_roll: u32, amount_roll: u32, rect: Rect) -> (r: Option<Pickup>)
    requires
        drop_roll < 2,
        kind_roll < 10,
        amount_roll < 100,
        rect.wf(),
        rect.within(BLOCK_LIMIT as int),
    ensures
        r == dropped(drop_roll as int, kind_roll as int, amount_roll as int, rect),
        r matches Some(p) ==> pickup_in_limit(p),
{
    if drop_roll != 0 {
        return None;
    }
    let kind = pickup_kind(kind_roll, amount_roll);
    let position = V2 {
        x: rect.mins.x + (rect.maxs.x - rect.mins.x) / 2,
        y: rect.mins.y + (rect.maxs.y - rect.mins.y) / 2,
    };
    Some(Pickup { position, kind })
}

/// The kind of a drop from a roll below 10 and a roll below 100: seven in
/// ten are a bonus of ten times the second roll, and one in ten each is an
/// extra ball, a detonator or a multi-ball.
pub fn pickup_kind(kind_roll: u32, amount_roll: u32) -> (r: PickupKind)
    requires
        kind_roll < 10,
        amount_roll < 100,
    ensures
        r == kind_of_rolls(kind_roll as int, amount_roll as int),
{
    if kind_roll < 7 {
        PickupKind::Bonus((amount_roll * 10) as i32)
    } else if kind_roll == 7 {
        PickupKind::ExtraBall
    } else if kind_roll == 8 {
        PickupKind::Detonator
    } else {
        PickupKind::MultiBall
    }
}

impl Pickups {
    /// Every pickup is within the bound.
    pub open spec fn wf(&self) -> bool {
        forall|i: int| 0 <= i < self.pickups@.len() ==> pickup_in_limit(#[trigger] self.pickups@[i])
    }

    /// No pickups, and a generator seeded with `seed`.
    pub fn new(seed: u64) -> (r: Pickups)
        ensures
            r.pickups@.len() == 0,
            r.wf(),
    {
        let rng = seeded(seed);
        let pickups = Vec::new();
        Pickups { rng, pickups }
    }

    /// One time in two, drops a pickup at the centre of the broken block:
    /// a first roll below 2 decides the drop, and two more rolls, below 10
    /// and below 100, its kind (see `pickup_drop`).
    pub fn block_broken(&mut self, block: Block)
        requires
            old(self).wf(),
            block.rect.wf(),
            block.rect.within(BLOCK_LIMIT as int),
        ensures
            final(self).wf(),
            exists|d: int, k: int, a: int|
                0 <= d < 2 && 0 <= k < 10 && 0 <= a < 100 && final(self).pickups@ == old(self).pickups@
                    + option_seq(#[trigger] dropped(d, k, a, block.rect)),
    {
        let drop_roll = below(&mut self.rng, 2);
        if drop_roll != 0 {
            proof {
                assert(old(self).pickups@ + option_seq(dropped(1, 0, 0, block.rect)) =~= old(self).pickups@);
            }
            return;
        }
        let kind_roll = below(&mut self.rng, 10);
        let amount_roll = below(&mut self.rng, 100);
        let ghost before = self.pickups@;
        match pickup_drop(drop_roll, kind_roll, amount_roll, block.rect) {
            Some(pickup) => {
                self.pickups.push(pickup);
            },
            None => {},
        }
        proof {
            assert(self.pickups@ =~= before + option_seq(
                dropped(drop_roll as int, kind_roll as int, amount_roll as int, block.rect),
            ));
        }
    }

    /// Lets every pickup fall for `dt`; returns the kinds of those that the
    /// paddle, grown by half a pickup's size, now holds, and keeps those
    /// that it does not hold and that are still above `floor_level`.
    pub fn update(&mut self, dt: i64, paddle_rect: Rect, floor_level: i64) -> (r: Vec<PickupKind>)
        requires
            old(self).wf(),
            0 <= dt <= TIME_ONE,
            paddle_rect.wf(),
            paddle_rect.within(BLOCK_LIMIT as int),
            -BLOCK_LIMIT <= floor_level <= BLOCK_LIMIT,
        ensures
            final(self).wf(),
            r@ == caught(
                old(self).pickups@,
                fall_distance(dt as int),
                catch_box(paddle_rect),
            ),
            final(self).pickups@ == still_falling(
                old(self).pickups@,
                fall_distance(dt as int),
                catch_box(paddle_rect),
                floor_level as int,
            ),
    {
        let drop_rect = Rect::new(V2 { x: -DROP_HALF_SIZE, y: -DROP_HALF_SIZE }, V2 { x: DROP_HALF_SIZE, y: DROP_HALF_SIZE });
        let catch = paddle_rect.expand(drop_rect);
        let d: i64 = dt * DROP_SPEED / TIME_ONE;
        proof {
            assert(0 <= d <= DROP_SPEED) by (nonlinear_arith)
                requires
                    0 <= dt <= TIME_ONE,
                    d == fall_distance(dt as int),
            ;
        }
        let ghost ps = self.pickups@;
        let mut kept: Vec<Pickup> = Vec::new();
        let mut collected: Vec<PickupKind> = Vec::new();
        let mut i: usize = 0;
        while i < self.pickups.len()
            invariant
                0 <= i <= ps.len(),
                self.pickups@ == ps,
                forall|j: int| 0 <= j < ps.len() ==> pickup_in_limit(#[trigger] ps[j]),
                0 <= d <= DROP_SPEED,
                -BLOCK_LIMIT <= floor_level <= BLOCK_LIMIT,
                d == fall_distance(dt as int),
                catch == catch_box(paddle_rect),
                kept@ == still_falling(ps.take(i as int), d as int, catch, floor_level as int),
                collected@ == caught(ps.take(i as int), d as int, catch),
                forall|j: int| 0 <= j < kept@.len() ==> pickup_in_limit(#[trigger] kept@[j]),
            decreases ps.len() - i,
        {
            let p = self.pickups[i];
            assert(pickup_in_limit(ps[i as int]));
            let moved = Pickup { position: V2 { x: p.position.x, y: p.position.y - d }, kind: p.kind };
            let hit = catch.contains(moved.position);
            proof {
                assert(ps.take(i + 1).drop_last() == ps.take(i as int));
                assert(ps.take(i + 1).last() == ps[i as int]);
            }
            if hit {
                collected.push(moved.kind);
            } else if moved.position.y > floor_level {
                kept.push(moved);
            }
            i += 1;
        }
        proof {
            assert(ps.take(ps.len() as int) == ps);
        }
        self.pickups = kept;
        collected
    }
}

} // verus!
