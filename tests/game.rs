use breakout::block::{Block, Kind};
use breakout::game::{
    get_collision, serve_velocity, Ball, EntityID, Input, SolidEntity, State, BALL_SERVE_SPEED, GAME_LEFT, GAME_TOP,
    TIME_ONE,
};
use breakout::level::{kept_blocks, level_blocks, split_rows, INNER_SPLITS, LAST_SPLIT, ROWS};
use breakout::math::{Segment, PARAM_ONE, V2};
use breakout::pickups::{pickup_drop, pickup_kind, Pickup, PickupKind, Pickups};
use breakout::rect::{CollideFrom, Rect};

const DT: i64 = TIME_ONE / 180;

fn blocks_of(state: &State) -> Vec<(i64, i64, i64, i64, bool)> {
    state
        .blocks
        .iter()
        .map(|b| (b.rect.mins.x, b.rect.mins.y, b.rect.maxs.x, b.rect.maxs.y, b.is_scoring()))
        .collect()
}

#[test]
fn same_seed_same_level() {
    let a = State::new(7);
    let b = State::new(7);
    assert_eq!(blocks_of(&a), blocks_of(&b));
    assert!(!a.blocks.is_empty());
    assert_eq!(a.ball, Ball::Serving);
    assert_eq!(a.scoring.score, 0);
}

#[test]
fn layout_cuts_rows_into_blocks() {
    let rows = vec![vec![3, 15, LAST_SPLIT]];
    let blocks = level_blocks(&rows);
    assert_eq!(blocks.len(), 3);
    let y0 = GAME_TOP - 2 * 3000;
    assert_eq!(blocks[0].rect, Rect::new(V2::new(GAME_LEFT, y0), V2::new(GAME_LEFT + 3 * 1500, y0 + 3000)));
    assert_eq!(blocks[0].kind, Kind::Scoring { score: 30, hp: 3 });
    // Twelve columns wide: invulnerable and shrunk.
    assert_eq!(blocks[1].kind, Kind::Invulnerable);
    assert_eq!(blocks[1].rect.mins, V2::new(GAME_LEFT + 3 * 1500 + 800, y0 + 800));
    assert_eq!(blocks[2].kind, Kind::Invulnerable);
    let rows = vec![vec![LAST_SPLIT], vec![8, LAST_SPLIT]];
    let blocks = level_blocks(&rows);
    assert_eq!(blocks.len(), 3);
    assert_eq!(blocks[1].kind, Kind::Scoring { score: 80, hp: 8 });
    assert_eq!(blocks[1].rect.mins.y, GAME_TOP - 3 * 3000);
}

#[test]
fn nearest_solid_wins() {
    let low = Rect::new(V2::new(-100, 50), V2::new(100, 60)).to_collider(CollideFrom::Outside);
    let high = Rect::new(V2::new(-100, 80), V2::new(100, 90)).to_collider(CollideFrom::Outside);
    let solids = vec![SolidEntity::new(high, EntityID::Block(0)), SolidEntity::new(low, EntityID::Block(1))];
    let hit = get_collision(&solids, Segment::new(V2::new(0, 0), V2::new(0, 100))).unwrap();
    assert_eq!(hit.id, EntityID::Block(1));
    assert_eq!(hit.collision.point, V2::new(0, 50));
    assert!(get_collision(&solids, Segment::new(V2::new(0, 0), V2::new(0, 10))).is_none());
}

#[test]
fn serve_launches_the_ball() {
    let mut state = State::new(3);
    assert!(state.update(DT, Input { paddle_dir: 0, serve: true }));
    match state.ball {
        Ball::Flying(b) => {
            assert_eq!(b.vel, V2::new(0, BALL_SERVE_SPEED));
            assert_eq!(b.pos.x, 0);
        },
        Ball::Serving => panic!("the ball was not served"),
    }
    assert_eq!(serve_velocity(1000).y, serve_velocity(-1000).y);
    assert_eq!(serve_velocity(1000).x, -serve_velocity(-1000).x);
}

#[test]
fn paddle_accelerates_and_stays_in_the_arena() {
    let mut state = State::new(11);
    state.update(DT, Input { paddle_dir: 1, serve: false });
    assert!(state.paddle_x > 0);
    assert!(state.paddle_vel > 0);
    for _ in 0..2000 {
        state.update(DT, Input { paddle_dir: 1, serve: false });
    }
    assert_eq!(state.paddle_x, 28000);
    assert_eq!(state.paddle_vel, 0);
}

#[test]
fn many_ticks_of_play_end() {
    for seed in 0..4u64 {
        let mut state = State::new(seed);
        for tick in 0..3000 {
            let dir = if (tick / 200) % 2 == 0 { 1 } else { -1 };
            state.update(DT, Input { paddle_dir: dir, serve: true });
        }
        assert!(state.blocks.len() <= State::new(seed).blocks.len());
    }
}

#[test]
fn ball_bounces_off_a_block() {
    let mut state = State::new(5);
    state.blocks = vec![Block {
        rect: Rect::new(V2::new(-1000, 10000), V2::new(1000, 11000)),
        kind: Kind::Scoring { score: 10, hp: 2 },
    }];
    state.ball.serve(V2::new(0, 9000), V2::new(0, 40000));
    // The ball's half size is 600: it meets the block when its centre
    // reaches 9400, after 400 of the 222 units a tick covers... so within
    // two ticks.
    state.update(DT, Input { paddle_dir: 0, serve: false });
    state.update(DT, Input { paddle_dir: 0, serve: false });
    match state.ball {
        Ball::Flying(b) => assert!(b.vel.y < 0),
        Ball::Serving => panic!("the ball left play"),
    }
    assert_eq!(state.blocks[0].hp(), Some(1));
    assert_eq!(state.scoring.combo_multiplier, 11);
}

#[test]
fn floor_takes_the_ball() {
    let mut state = State::new(5);
    state.scoring.combo_score = 40;
    state.scoring.score = 100;
    state.ball.serve(V2::new(20000, 1000), V2::new(0, -40000));
    for _ in 0..10 {
        state.update(DT, Input { paddle_dir: 0, serve: false });
    }
    assert_eq!(state.ball, Ball::Serving);
    assert_eq!(state.scoring.score, 60);
    assert_eq!(state.scoring.penalties, 40);
}

#[test]
fn cleared_level_stops_the_game() {
    let mut state = State::new(9);
    state.blocks = vec![Block { rect: Rect::new(V2::new(0, 30000), V2::new(100, 30100)), kind: Kind::Invulnerable }];
    assert!(!state.update(DT, Input { paddle_dir: 0, serve: false }));
}

#[test]
fn pickup_kinds_follow_the_rolls() {
    assert_eq!(pickup_kind(0, 42), PickupKind::Bonus(420));
    assert_eq!(pickup_kind(6, 0), PickupKind::Bonus(0));
    assert_eq!(pickup_kind(7, 5), PickupKind::ExtraBall);
    assert_eq!(pickup_kind(8, 5), PickupKind::Detonator);
    assert_eq!(pickup_kind(9, 5), PickupKind::MultiBall);
}

#[test]
fn pickups_fall_and_are_caught() {
    let mut pickups = Pickups::new(1);
    let block = Block { rect: Rect::new(V2::new(-100, 1000), V2::new(100, 1200)), kind: Kind::Invulnerable };
    let mut dropped = 0;
    for _ in 0..40 {
        pickups.block_broken(block);
    }
    dropped += pickups.pickups.len();
    assert!(dropped > 0 && dropped < 40);
    assert_eq!(pickups.pickups[0].position, V2::new(0, 1100));
    let paddle = Rect::new(V2::new(-4000, -600), V2::new(4000, 0));
    // 300 units fall in a hundredth of a second; the catch box reaches up to 800, its edge left out.
    let caught = pickups.update(TIME_ONE / 100, paddle, 0);
    assert!(caught.is_empty());
    assert_eq!(pickups.pickups[0].position, V2::new(0, 800));
    let caught = pickups.update(TIME_ONE / 100, paddle, 0);
    assert_eq!(caught.len(), dropped);
    assert!(pickups.pickups.is_empty());
}

fn flying(pos: V2, vel: V2) -> breakout::game::FlyingBall {
    breakout::game::FlyingBall { pos, prev_pos: pos, vel, prev_collision: None }
}

fn hit_at(point: V2, normal: V2, id: EntityID) -> breakout::game::Hit {
    let normal = V2::new(normal.x * PARAM_ONE, normal.y * PARAM_ONE);
    breakout::game::Hit { collision: breakout::collider::Collision { param: TIME_ONE / 2, point, normal }, id }
}

#[test]
fn collision_with_a_block_damages_it() {
    let mut state = State::new(2);
    state.blocks = vec![Block { rect: Rect::new(V2::new(-1000, 10000), V2::new(1000, 11000)), kind: Kind::Scoring { score: 10, hp: 2 } }];
    let mut ball = flying(V2::new(0, 9000), V2::new(300, 4000));
    let alive = state.handle_collision(&mut ball, hit_at(V2::new(0, 9400), V2::new(0, -1), EntityID::Block(0)));
    assert!(alive);
    assert_eq!(ball.pos, V2::new(0, 9400));
    assert_eq!(ball.vel, V2::new(300, -4000));
    assert_eq!(ball.prev_collision, Some((EntityID::Block(0), V2::new(0, -PARAM_ONE))));
    assert_eq!(state.blocks[0].hp(), Some(1));
    assert_eq!(state.scoring.combo_multiplier, 11);
    let alive = state.handle_collision(&mut ball, hit_at(V2::new(0, 9400), V2::new(0, -1), EntityID::Block(0)));
    assert!(alive);
    assert!(state.blocks.is_empty());
    // 1.1 times 10 points.
    assert_eq!(state.scoring.combo_score, 11);
    assert_eq!(state.scoring.combo_multiplier, 21);
}

#[test]
fn collision_with_the_floor_ends_the_flight() {
    let mut state = State::new(2);
    state.scoring.combo_score = 70;
    let mut ball = flying(V2::new(0, 1000), V2::new(0, -4000));
    let alive = state.handle_collision(&mut ball, hit_at(V2::new(0, 600), V2::new(0, 1), EntityID::Walls));
    assert!(!alive);
    assert_eq!(state.scoring.score, -70);
    assert_eq!(state.scoring.penalties, 70);
    // A side wall only bounces.
    let mut ball = flying(V2::new(0, 1000), V2::new(-4000, 100));
    assert!(state.handle_collision(&mut ball, hit_at(V2::new(-29000, 1000), V2::new(1, 0), EntityID::Walls)));
    assert_eq!(ball.vel, V2::new(4000, 100));
    assert_eq!(state.scoring.penalties, 70);
}

#[test]
fn moving_paddle_steers_the_ball() {
    let mut state = State::new(2);
    state.scoring.combo_score = 25;
    state.paddle_vel = -2000;
    let mut ball = flying(V2::new(0, 5000), V2::new(3000, -4000));
    assert!(state.handle_collision(&mut ball, hit_at(V2::new(0, 4600), V2::new(0, 1), EntityID::Paddle)));
    assert_eq!(ball.vel, V2::new(-3000, 4000));
    assert_eq!(state.scoring.score, 25);
    assert_eq!(state.scoring.combo_score, 0);
    state.paddle_vel = 0;
    let mut ball = flying(V2::new(0, 5000), V2::new(3000, -4000));
    assert!(state.handle_collision(&mut ball, hit_at(V2::new(0, 4600), V2::new(0, 1), EntityID::Paddle)));
    assert_eq!(ball.vel, V2::new(3000, 4000));
}

#[test]
fn draws_cut_rows_and_keep_blocks() {
    let mut draws = vec![false; ROWS * INNER_SPLITS];
    draws[2] = true; // row 0, column 3
    draws[INNER_SPLITS + 0] = true; // row 1, column 1
    draws[INNER_SPLITS + 38] = true; // row 1, column 39
    let rows = split_rows(&draws);
    assert_eq!(rows.len(), ROWS);
    assert_eq!(rows[0], vec![3, LAST_SPLIT]);
    assert_eq!(rows[1], vec![1, 39, LAST_SPLIT]);
    assert_eq!(rows[8], vec![LAST_SPLIT]);
    let layout = level_blocks(&rows);
    assert_eq!(layout.len(), 2 + 3 + 7);
    let keep: Vec<bool> = (0..layout.len()).map(|i| i % 3 != 1).collect();
    let kept = kept_blocks(&layout, &keep);
    assert_eq!(kept.len(), 8);
    assert_eq!(kept[0], layout[0]);
    assert_eq!(kept[1], layout[2]);
    assert_eq!(kept[2], layout[3]);
}

#[test]
fn first_roll_decides_the_drop() {
    let rect = Rect::new(V2::new(-100, 1000), V2::new(101, 1201));
    assert_eq!(pickup_drop(1, 0, 42, rect), None);
    assert_eq!(
        pickup_drop(0, 0, 42, rect),
        Some(Pickup { position: V2::new(0, 1100), kind: PickupKind::Bonus(420) })
    );
    assert_eq!(pickup_drop(0, 9, 0, rect).unwrap().kind, PickupKind::MultiBall);
}

#[test]
fn sweep_sub_steps_are_bounded() {
    let mut state = State::new(5);
    state.blocks = vec![];
    state.ball.serve(V2::new(0, 9000), V2::new(0, 40000));
    let steps = state.update_ball(DT);
    assert_eq!(steps, 1);
    assert!(2 * steps as i64 <= DT + 3);
    match state.ball {
        Ball::Flying(b) => assert_eq!(b.pos, V2::new(0, 9000 + 40000 * DT / TIME_ONE)),
        Ball::Serving => panic!("the ball left play"),
    }
}

#[test]
fn different_seeds_usually_differ_and_equal_seeds_agree() {
    let a = State::new(1234);
    let b = State::new(1234);
    assert_eq!(a.blocks, b.blocks);
    assert_eq!(a.paddle_rect, b.paddle_rect);
    assert_eq!(a.ball_rect, b.ball_rect);
    let others = (0..5u64).filter(|s| State::new(*s).blocks != a.blocks).count();
    assert!(others > 0);
}
