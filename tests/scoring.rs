use breakout::block::{Block, Hit, Kind};
use breakout::math::V2;
use breakout::rect::Rect;
use breakout::scoring::{Rank, Scoring};

fn state(score: i64, combo_score: i64, combo_multiplier: i64, penalties: i64) -> Scoring {
    Scoring { score, combo_score, combo_multiplier, combo_max: 0, penalties }
}

#[test]
fn empty_bank_keeps_score() {
    let mut s = Scoring::new();
    s.hit_paddle();
    assert_eq!(s.score, 0);
    let mut s = state(420, 0, 10, 3);
    s.hit_paddle();
    assert_eq!(s.score, 420);
    assert!(s.no_combo());
}

#[test]
fn floor_breach_forfeits_combo() {
    let mut s = state(1000, 150, 10, 0);
    s.hit_floor();
    assert_eq!(s.score, 850);
    assert_eq!(s.penalties, 150);
    assert_eq!(s.combo_score, 0);
    assert_eq!(s.combo_multiplier, 10);
    assert!(s.combo_max >= 150);
}

#[test]
fn combo_grows_then_banks() {
    let mut s = Scoring::new();
    s.block_broken(10);
    assert_eq!(s.combo_score, 10);
    assert_eq!(s.combo_multiplier, 20);
    s.block_broken(10);
    assert_eq!(s.combo_score, 30);
    assert_eq!(s.combo_multiplier, 30);
    s.hit_paddle();
    assert_eq!(s.score, 30);
    assert_eq!(s.combo_score, 0);
    assert_eq!(s.combo_multiplier, 10);
    assert_eq!(s.combo_max, 30);
}

#[test]
fn damage_raises_multiplier_by_a_tenth_and_rounds_half_up() {
    let mut s = Scoring::new();
    s.block_damaged();
    assert_eq!(s.combo_multiplier, 11);
    assert_eq!(s.combo_score, 0);
    s.block_broken(5);
    // 1.1 * 5 = 5.5, rounded away from zero.
    assert_eq!(s.combo_score, 6);
    assert_eq!(s.combo_multiplier, 21);
}

#[test]
fn rank_boundaries() {
    assert_eq!(state(1000, 0, 10, 5).rank(), Rank::S);
    assert_eq!(state(1000, 0, 10, 6).rank(), Rank::A);
    assert_eq!(state(1000, 0, 10, 25).rank(), Rank::A);
    assert_eq!(state(1000, 0, 10, 26).rank(), Rank::B);
    assert_eq!(state(1000, 0, 10, 100).rank(), Rank::C);
    assert_eq!(state(1000, 0, 10, 150).rank(), Rank::D);
    assert_eq!(state(1000, 0, 10, 250).rank(), Rank::E);
    assert_eq!(state(1000, 0, 10, 251).rank(), Rank::F);
    assert_eq!(state(0, 0, 10, 0).rank(), Rank::F);
    assert_eq!(state(-50, 0, 10, 10).rank(), Rank::F);
    assert_eq!(Rank::S.letter(), 'S');
    assert_eq!(Rank::F.letter(), 'F');
    assert!(Rank::F < Rank::S);
}

#[test]
fn blocks_take_hits() {
    let rect = Rect::new(V2::new(0, 0), V2::new(10, 10));
    let mut b = Block { rect, kind: Kind::Scoring { score: 20, hp: 2 } };
    assert!(b.is_scoring());
    assert_eq!(b.hit(), Hit::Damaged);
    assert_eq!(b.hp(), Some(1));
    assert_eq!(b.hit(), Hit::Broken(20));
    assert_eq!(b.hp(), Some(0));
    let mut wall = Block { rect, kind: Kind::Invulnerable };
    assert!(!wall.is_scoring());
    assert_eq!(wall.hit(), Hit::Invulnerable);
    assert_eq!(wall.hp(), None);
}
