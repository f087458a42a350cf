//! The combo scoring engine. A combo is a pot of points that grows with
//! each block hit, under a multiplier that grows too; the paddle banks it
//! and the floor forfeits it as a penalty.

use vstd::prelude::*;
use crate::arith::trunc_div;

verus! {

/// The multiplier is kept in tenths: this value stands for 1.
pub const MULTIPLIER_ONE: i64 = 10;

#[derive(Clone, Copy, Debug, PartialEq, Eq, Structural)]
pub struct Scoring {
    pub score: i64,
    /// The pot of the combo in flight.
    pub combo_score: i64,
    /// The combo multiplier, in tenths.
    pub combo_multiplier: i64,
    /// The largest pot ever banked or forfeited.
    pub combo_max: i64,
    pub penalties: i64,
}

/// The letter grade of a finished game, `F` lowest and `S` highest.
#[derive(Clone, Copy, Debug, PartialEq, Eq, Structural, PartialOrd, Ord, Hash)]
pub enum Rank {
    F,
    E,
    D,
    C,
    B,
    A,
    S,
}

/// Nothing scored, no combo, multiplier 1.
pub open spec fn initial_scoring() -> Scoring {
    Scoring { score: 0, combo_score: 0, combo_multiplier: MULTIPLIER_ONE, combo_max: 0, penalties: 0 }
}

/// `m` tenths times `points`, rounded to the nearest integer, halves away
/// from zero.
pub open spec fn combo_points(m: int, points: int) -> int {
    let p = m * points;
    if p >= 0 {
        (p + 5) / 10
    } else {
        -((-p + 5) / 10)
    }
}

pub open spec fn fits_i64(v: int) -> bool {
    i64::MIN <= v <= i64::MAX
}

/// The state after the combo ends: pot emptied, multiplier reset, the
/// largest pot updated.
pub open spec fn ended(s: Scoring) -> Scoring {
    Scoring {
        combo_score: 0,
        combo_multiplier: MULTIPLIER_ONE,
        combo_max: if s.combo_max >= s.combo_score { s.combo_max } else { s.combo_score },
        ..s
    }
}

/// The state after the ball reaches the floor.
pub open spec fn after_floor(s: Scoring) -> Scoring {
    Scoring {
        score: (s.score - s.combo_score) as i64,
        penalties: (s.penalties + s.combo_score) as i64,
        ..ended(s)
    }
}

/// The state after the ball reaches the paddle.
pub open spec fn after_paddle(s: Scoring) -> Scoring {
    Scoring { score: (s.score + s.combo_score) as i64, ..ended(s) }
}

/// The state after a block worth `points` breaks.
pub open spec fn after_broken(s: Scoring, points: int) -> Scoring {
    Scoring {
        combo_score: (s.combo_score + combo_points(s.combo_multiplier as int, points)) as i64,
        combo_multiplier: (s.combo_multiplier + MULTIPLIER_ONE) as i64,
        ..s
    }
}

/// The state after a block is damaged without breaking.
pub open spec fn after_damaged(s: Scoring) -> Scoring {
    Scoring { combo_multiplier: (s.combo_multiplier + 1) as i64, ..s }
}

/// Penalties per thousand points of score, truncated toward zero.
pub open spec fn per_mille(penalties: int, score: int) -> int {
    trunc_div(penalties * 1000, score)
}

/// The grade for `penalties` against `score`.
pub open spec fn rank_of(penalties: int, score: int) -> Rank {
    if score <= 0 {
        Rank::F
    } else {
        let r = per_mille(penalties, score);
        if 0 <= r <= 5 {
            Rank::S
        } else if 6 <= r <= 25 {
            Rank::A
        } else if 26 <= r <= 50 {
            Rank::B
        } else if 51 <= r <= 100 {
            Rank::C
        } else if 101 <= r <= 150 {
            Rank::D
        } else if 151 <= r <= 250 {
            Rank::E
        } else {
            Rank::F
        }
    }
}

/// Banking an empty pot leaves the score where it was.
pub proof fn lemma_bank_empty_keeps_score(s: Scoring)
    requires
        s.combo_score == 0,
    ensures
        after_paddle(s).score == s.score,
        after_paddle(s).combo_score == 0,
{
}

impl Scoring {
    /// Nothing scored, no combo, multiplier 1.
    pub fn new() -> (r: Scoring)
        ensures
            r == initial_scoring(),
    {
        Scoring { score: 0, combo_score: 0, combo_multiplier: MULTIPLIER_ONE, combo_max: 0, penalties: 0 }
    }

    /// Ends the combo and returns its pot.
    fn end_combo(&mut self) -> (r: i64)
        ensures
            r == old(self).combo_score,
            *final(self) == ended(*old(self)),
    {
        let combo = self.combo_score;
        self.combo_score = 0;
        if combo > self.combo_max {
            self.combo_max = combo;
        }
        self.combo_multiplier = MULTIPLIER_ONE;
        combo
    }

    /// `hit_floor` can be applied without leaving `i64`.
    pub open spec fn can_hit_floor(&self) -> bool {
        fits_i64(self.score - self.combo_score) && fits_i64(self.penalties + self.combo_score)
    }

    /// `hit_paddle` can be applied without leaving `i64`.
    pub open spec fn can_hit_paddle(&self) -> bool {
        fits_i64(self.score + self.combo_score)
    }

    /// `block_broken(points)` can be applied without leaving `i64`.
    pub open spec fn can_block_broken(&self, points: int) -> bool {
        &&& fits_i64(self.combo_score + combo_points(self.combo_multiplier as int, points))
        &&& fits_i64(self.combo_multiplier + MULTIPLIER_ONE)
    }

    /// `block_damaged` can be applied without leaving `i64`.
    pub open spec fn can_block_damaged(&self) -> bool {
        fits_i64(self.combo_multiplier + 1)
    }

    /// Whether `hit_floor` may be applied.
    pub fn fits_hit_floor(&self) -> (r: bool)
        ensures
            r == self.can_hit_floor(),
    {
        let s: i128 = self.score as i128 - self.combo_score as i128;
        let p: i128 = self.penalties as i128 + self.combo_score as i128;
        i64::MIN as i128 <= s && s <= i64::MAX as i128 && i64::MIN as i128 <= p && p <= i64::MAX as i128
    }

    /// Whether `hit_paddle` may be applied.
    pub fn fits_hit_paddle(&self) -> (r: bool)
        ensures
            r == self.can_hit_paddle(),
    {
        let s: i128 = self.score as i128 + self.combo_score as i128;
        i64::MIN as i128 <= s && s <= i64::MAX as i128
    }

    /// Whether `block_broken(points)` may be applied.
    pub fn fits_block_broken(&self, points: i64) -> (r: bool)
        ensures
            r == self.can_block_broken(points as int),
    {
        proof {
            let m = self.combo_multiplier as int;
            let b = points as int;
            assert(-0x4000_0000_0000_0000_0000_0000_0000_0000 <= m * b <= 0x4000_0000_0000_0000_0000_0000_0000_0000)
                by (nonlinear_arith)
                requires
                    i64::MIN <= m <= i64::MAX,
                    i64::MIN <= b <= i64::MAX,
            ;
        }
        let p: i128 = (self.combo_multiplier as i128) * (points as i128);
        let gain: i128 = if p >= 0 { (p + 5) / 10 } else { -((-p + 5) / 10) };
        let c: i128 = self.combo_score as i128 + gain;
        i64::MIN as i128 <= c && c <= i64::MAX as i128 && self.combo_multiplier <= i64::MAX - MULTIPLIER_ONE
    }

    /// Whether `block_damaged` may be applied.
    pub fn fits_block_damaged(&self) -> (r: bool)
        ensures
            r == self.can_block_damaged(),
    {
        self.combo_multiplier < i64::MAX
    }

    /// Forfeits the combo: its pot leaves the score and joins the penalties.
    pub fn hit_floor(&mut self)
        requires
            old(self).can_hit_floor(),
        ensures
            *final(self) == after_floor(*old(self)),
    {
        let combo = self.end_combo();
        self.score = self.score - combo;
        self.penalties = self.penalties + combo;
    }

    /// Banks the combo: its pot joins the score.
    pub fn hit_paddle(&mut self)
        requires
            old(self).can_hit_paddle(),
        ensures
            *final(self) == after_paddle(*old(self)),
    {
        let combo = self.end_combo();
        self.score = self.score + combo;
    }

    /// A block worth `block_score` broke: the pot grows by the points times
    /// the multiplier, rounded, and the multiplier grows by 1.
    pub fn block_broken(&mut self, block_score: i64)
        requires
            old(self).can_block_broken(block_score as int),
        ensures
            *final(self) == after_broken(*old(self), block_score as int),
    {
        let p: i128 = (self.combo_multiplier as i128) * (block_score as i128);
        proof {
            assert(-0x4000_0000_0000_0000_0000_0000_0000_0000 <= p <= 0x4000_0000_0000_0000_0000_0000_0000_0000)
                by (nonlinear_arith)
                requires
                    p == self.combo_multiplier * block_score,
                    i64::MIN <= self.combo_multiplier <= i64::MAX,
                    i64::MIN <= block_score <= i64::MAX,
            ;
        }
        let points: i128 = if p >= 0 { (p + 5) / 10 } else { -((-p + 5) / 10) };
        self.combo_score = (self.combo_score as i128 + points) as i64;
        self.combo_multiplier = self.combo_multiplier + MULTIPLIER_ONE;
    }

    /// A block was damaged without breaking: the multiplier grows by a
    /// tenth.
    pub fn block_damaged(&mut self)
        requires
            old(self).can_block_damaged(),
        ensures
            *final(self) == after_damaged(*old(self)),
    {
        self.combo_multiplier = self.combo_multiplier + 1;
    }

    /// No combo is in flight.
    pub fn no_combo(&self) -> (r: bool)
        ensures
            r == (self.combo_score == 0),
    {
        self.combo_score == 0
    }

    /// The grade: penalties per thousand points of score give `S` up to 5,
    /// `A` up to 25, `B` up to 50, `C` up to 100, `D` up to 150, `E` up to
    /// 250, and `F` above that, below 0, or when the score is not positive.
    pub fn rank(&self) -> (r: Rank)
        ensures
            r == rank_of(self.penalties as int, self.score as int),
    {
        if self.score <= 0 {
            return Rank::F;
        }
        let p: i128 = (self.penalties as i128) * 1000;
        let s: i128 = self.score as i128;
        let up: i128 = if p < 0 { -p } else { p };
        let q: i128 = up / s;
        let ratio: i128 = if p < 0 { -q } else { q };
        if 0 <= ratio && ratio <= 5 {
            Rank::S
        } else if 6 <= ratio && ratio <= 25 {
            Rank::A
        } else if 26 <= ratio && ratio <= 50 {
            Rank::B
        } else if 51 <= ratio && ratio <= 100 {
            Rank::C
        } else if 101 <= ratio && ratio <= 150 {
            Rank::D
        } else if 151 <= ratio && ratio <= 250 {
            Rank::E
        } else {
            Rank::F
        }
    }
}

impl Rank {
    /// The grade's letter.
    pub fn letter(&self) -> (r: char)
        ensures
            r == match *self {
                Rank::F => 'F',
                Rank::E => 'E',
                Rank::D => 'D',
                Rank::C => 'C',
                Rank::B => 'B',
                Rank::A => 'A',
                Rank::S => 'S',
            },
    {
        match *self {
            Rank::F => 'F',
            Rank::E => 'E',
            Rank::D => 'D',
            Rank::C => 'C',
            Rank::B => 'B',
            Rank::A => 'A',
            Rank::S => 'S',
        }
    }
}

} // verus!
