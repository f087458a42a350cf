//! Blocks of the playfield and what a hit does to them.

use vstd::prelude::*;
use crate::rect::Rect;

verus! {

/// What a block is made of.
#[derive(Clone, Copy, Debug, PartialEq, Eq, Structural)]
pub enum Kind {
    /// Never damaged.
    Invulnerable,
    /// Worth `score` points once its `hp` hit points are used up.
    Scoring { score: i32, hp: i32 },
}

#[derive(Clone, Copy, Debug, PartialEq, Eq, Structural)]
pub struct Block {
    pub rect: Rect,
    pub kind: Kind,
}

/// The outcome of one hit on a block.
#[derive(Clone, Copy, Debug, PartialEq, Eq, Structural)]
pub enum Hit {
    /// The last hit point went: the block is worth its score.
    Broken(i32),
    /// A hit point went and some are left.
    Damaged,
    /// The block took no damage.
    Invulnerable,
}

impl Block {
    /// A scoring block has hit points left.
    pub open spec fn wf(&self) -> bool {
        match self.kind {
            Kind::Scoring { hp, .. } => hp > 0,
            Kind::Invulnerable => true,
        }
    }

    /// Takes one hit: a scoring block loses a hit point and reports
    /// whether that broke it; an invulnerable one is left as it is.
    pub fn hit(&mut self) -> (r: Hit)
        requires
            old(self).wf(),
        ensures
            final(self).rect == old(self).rect,
            match old(self).kind {
                Kind::Invulnerable => r == Hit::Invulnerable && *final(self) == *old(self),
                Kind::Scoring { score, hp } => {
                    &&& final(self).kind == (Kind::Scoring { score, hp: (hp - 1) as i32 })
                    &&& r == if hp == 1 { Hit::Broken(score) } else { Hit::Damaged }
                },
            },
            r is Damaged ==> final(self).wf(),
    {
        match &mut self.kind {
            Kind::Scoring { score, hp } => {
                *hp = *hp - 1;
                if *hp == 0 {
                    Hit::Broken(*score)
                } else {
                    Hit::Damaged
                }
            },
            Kind::Invulnerable => Hit::Invulnerable,
        }
    }

    /// The hit points left, for a scoring block.
    pub fn hp(&self) -> (r: Option<i32>)
        ensures
            r == match self.kind {
                Kind::Scoring { hp, .. } => Some(hp),
                Kind::Invulnerable => None::<i32>,
            },
    {
        match self.kind {
            Kind::Scoring { hp, .. } => Some(hp),
            Kind::Invulnerable => None,
        }
    }

    pub fn is_scoring(&self) -> (r: bool)
        ensures
            r == (self.kind is Scoring),
    {
        self.hp().is_some()
    }
}

} // verus!
