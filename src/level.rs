//! The block layout of a level. Each row of the arena is cut at chosen
//! split columns; the pieces between cuts become blocks, wide ones
//! invulnerable and narrow ones worth points.

use vstd::prelude::*;
use crate::block::{Block, Kind};
use crate::dilate::Dilate;
use crate::game::{BLOCK_LIMIT, GAME_LEFT, GAME_TOP};
use crate::math::V2;
use crate::rect::{grown, Rect};

verus! {

/// Number of rows plus one: rows are laid out below the top row, which
/// stays empty.
pub const BLOCKS_VERT: i32 = 10;
pub const BLOCK_H: i64 = 3000;
/// Width of one split column.
pub const SPLIT_STEP: i64 = 1500;
/// The right edge of a row, in split columns.
pub const LAST_SPLIT: i32 = 40;
/// Blocks wider than this many columns are invulnerable.
pub const INVULNERABLE_WIDTH: i32 = 8;
/// How far an invulnerable block is shrunk on each side.
pub const INVULNERABLE_INSET: i64 = 800;

/// The cuts of one row: strictly increasing columns above 0, the last one
/// at the right edge.
pub open spec fn row_wf(row: Seq<i32>) -> bool {
    &&& row.len() > 0
    &&& row.last() == LAST_SPLIT
    &&& forall|k: int| 0 <= k < row.len() ==> 0 < #[trigger] row[k] <= LAST_SPLIT
    &&& forall|k: int| 0 < k < row.len() ==> row[k - 1] < #[trigger] row[k]
}

/// The rectangle of row `y` from column `l` to column `r`.
pub open spec fn cell_rect(y: int, l: int, r: int) -> Rect {
    let y0 = GAME_TOP - (y + 2) * BLOCK_H;
    Rect {
        mins: V2 { x: (GAME_LEFT + l * SPLIT_STEP) as i64, y: y0 as i64 },
        maxs: V2 { x: (GAME_LEFT + r * SPLIT_STEP) as i64, y: (y0 + BLOCK_H) as i64 },
    }
}

/// The block of row `y` from column `l` to column `r`: invulnerable and
/// shrunk when wider than `INVULNERABLE_WIDTH` columns, else worth ten
/// points a column with a hit point a column.
pub open spec fn level_block(y: int, l: int, r: int) -> Block {
    if r - l > INVULNERABLE_WIDTH {
        Block { rect: grown(cell_rect(y, l, r), -INVULNERABLE_INSET), kind: Kind::Invulnerable }
    } else {
        Block { rect: cell_rect(y, l, r), kind: Kind::Scoring { score: ((r - l) * 10) as i32, hp: (r - l) as i32 } }
    }
}

/// The blocks of row `y`, cut at `row`, left to right.
pub open spec fn row_blocks(y: int, row: Seq<i32>) -> Seq<Block> {
    Seq::new(row.len(), |k: int| level_block(y, if k == 0 { 0 } else { row[k - 1] as int }, row[k] as int))
}

/// The blocks of all rows, top row first.
pub open spec fn level_layout(rows: Seq<Seq<i32>>) -> Seq<Block>
    decreases rows.len(),
{
    if rows.len() == 0 {
        Seq::empty()
    } else {
        level_layout(rows.drop_last()) + row_blocks(rows.len() - 1, rows.last())
    }
}

/// The rows as sequences of cuts.
pub open spec fn rows_view(rows: Seq<Vec<i32>>) -> Seq<Seq<i32>> {
    rows.map_values(|v: Vec<i32>| v@)
}

/// Inner columns per row that may be cut.
pub const INNER_SPLITS: usize = 39;

/// Rows of cuts below the empty top row.
pub const ROWS: usize = 9;

/// The cuts among the first `n` inner columns of row `y`: column `c` is cut
/// when draw `y * INNER_SPLITS + c - 1` is set.
pub open spec fn row_cuts(draws: Seq<bool>, y: int, n: int) -> Seq<i32>
    decreases n,
{
    if n <= 0 {
        Seq::empty()
    } else {
        let prev = row_cuts(draws, y, n - 1);
        if draws[y * INNER_SPLITS + n - 1] {
            prev.push(n as i32)
        } else {
            prev
        }
    }
}

/// The cuts of row `y` from `draws`, closed by the right edge.
pub open spec fn row_of(draws: Seq<bool>, y: int) -> Seq<i32> {
    row_cuts(draws, y, INNER_SPLITS as int).push(LAST_SPLIT)
}

/// The rows of cuts that `draws` give.
pub open spec fn rows_of(draws: Seq<bool>) -> Seq<Seq<i32>> {
    Seq::new(ROWS as nat, |y: int| row_of(draws, y))
}

/// The blocks of `blocks` whose draw in `keep` is set, in order.
pub open spec fn kept(blocks: Seq<Block>, keep: Seq<bool>) -> Seq<Block>
    decreases blocks.len(),
{
    if blocks.len() == 0 {
        Seq::empty()
    } else {
        let prev = kept(blocks.drop_last(), keep);
        if keep[blocks.len() - 1] {
            prev.push(blocks.last())
        } else {
            prev
        }
    }
}

/// The blocks of the level that `split_draws` cut and `keep_draws` keep.
pub open spec fn layout_from_draws(split_draws: Seq<bool>, keep_draws: Seq<bool>) -> Seq<Block> {
    kept(level_layout(rows_of(split_draws)), keep_draws)
}

/// Every block that `kept` keeps is one of `blocks`.
pub proof fn lemma_kept_ok(blocks: Seq<Block>, keep: Seq<bool>)
    requires
        forall|i: int| 0 <= i < blocks.len() ==> block_ok(#[trigger] blocks[i]),
    ensures
        forall|i: int| 0 <= i < kept(blocks, keep).len() ==> block_ok(#[trigger] kept(blocks, keep)[i]),
    decreases blocks.len(),
{
    if blocks.len() > 0 {
        let rest = blocks.drop_last();
        assert forall|i: int| 0 <= i < rest.len() implies block_ok(#[trigger] rest[i]) by {
            assert(rest[i] == blocks[i]);
        }
        lemma_kept_ok(rest, keep);
        assert(block_ok(blocks[blocks.len() - 1]));
        let prev = kept(rest, keep);
        assert forall|i: int| 0 <= i < kept(blocks, keep).len() implies block_ok(#[trigger] kept(blocks, keep)[i]) by {
            if i < prev.len() {
                assert(block_ok(prev[i]));
            }
        }
    }
}

/// The rows of cuts from one draw per inner column, row after row.
pub fn split_rows(draws: &Vec<bool>) -> (rows: Vec<Vec<i32>>)
    requires
        draws@.len() == ROWS * INNER_SPLITS,
    ensures
        rows_view(rows@) == rows_of(draws@),
        rows@.len() == ROWS,
        forall|y: int| 0 <= y < rows@.len() ==> row_wf(#[trigger] rows@[y]@),
{
    let mut rows: Vec<Vec<i32>> = Vec::new();
    let mut y: usize = 0;
    while y < ROWS
        invariant
            0 <= y <= ROWS,
            draws@.len() == ROWS * INNER_SPLITS,
            rows@.len() == y,
            forall|j: int| 0 <= j < y ==> (#[trigger] rows@[j])@ == row_of(draws@, j),
            forall|j: int| 0 <= j < y ==> row_wf(#[trigger] rows@[j]@),
        decreases ROWS - y,
    {
        let mut row: Vec<i32> = Vec::new();
        let mut c: usize = 1;
        while c <= INNER_SPLITS
            invariant
                1 <= c <= INNER_SPLITS + 1,
                0 <= y < ROWS,
                draws@.len() == ROWS * INNER_SPLITS,
                row@ == row_cuts(draws@, y as int, c - 1),
                forall|k: int| 0 <= k < row@.len() ==> 0 < #[trigger] row@[k] < c,
                forall|k: int| 0 < k < row@.len() ==> row@[k - 1] < #[trigger] row@[k],
            decreases INNER_SPLITS + 1 - c,
        {
            assert(y * INNER_SPLITS + c - 1 < ROWS * INNER_SPLITS) by (nonlinear_arith)
                requires
                    0 <= y < ROWS,
                    1 <= c <= INNER_SPLITS,
            ;
            if draws[y * INNER_SPLITS + c - 1] {
                row.push(c as i32);
            }
            c += 1;
        }
        row.push(LAST_SPLIT);
        rows.push(row);
        y += 1;
    }
    proof {
        assert(rows_view(rows@) =~= rows_of(draws@));
    }
    rows
}

/// The blocks of `blocks` whose draw in `keep` is set, in order.
pub fn kept_blocks(blocks: &Vec<Block>, keep: &Vec<bool>) -> (r: Vec<Block>)
    requires
        keep@.len() == blocks@.len(),
    ensures
        r@ == kept(blocks@, keep@),
{
    let mut out: Vec<Block> = Vec::new();
    let mut i: usize = 0;
    while i < blocks.len()
        invariant
            0 <= i <= blocks@.len(),
            keep@.len() == blocks@.len(),
            out@ == kept(blocks@.take(i as int), keep@),
        decreases blocks@.len() - i,
    {
        proof {
            assert(blocks@.take(i + 1).drop_last() == blocks@.take(i as int));
        }
        if keep[i] {
            out.push(blocks[i]);
        }
        i += 1;
    }
    proof {
        assert(blocks@.take(blocks@.len() as int) == blocks@);
    }
    out
}

/// A block within the arena, valid, with a valid rectangle.
pub open spec fn block_ok(b: Block) -> bool {
    b.wf() && b.rect.wf() && b.rect.within(BLOCK_LIMIT as int)
}

/// The blocks of a level cut at `rows`, row by row.
pub fn level_blocks(rows: &Vec<Vec<i32>>) -> (r: Vec<Block>)
    requires
        rows@.len() < BLOCKS_VERT,
        forall|y: int| 0 <= y < rows@.len() ==> row_wf(#[trigger] rows@[y]@),
    ensures
        r@ == level_layout(rows_view(rows@)),
        forall|i: int| 0 <= i < r@.len() ==> block_ok(#[trigger] r@[i]),
{
    let mut out: Vec<Block> = Vec::new();
    let mut y: usize = 0;
    while y < rows.len()
        invariant
            0 <= y <= rows@.len(),
            rows@.len() < BLOCKS_VERT,
            forall|j: int| 0 <= j < rows@.len() ==> row_wf(#[trigger] rows@[j]@),
            out@ == level_layout(rows_view(rows@.take(y as int))),
            forall|i: int| 0 <= i < out@.len() ==> block_ok(#[trigger] out@[i]),
        decreases rows@.len() - y,
    {
        let row = &rows[y];
        assert(row_wf(rows@[y as int]@));
        let ghost before = out@;
        let mut l: i32 = 0;
        let mut k: usize = 0;
        while k < row.len()
            invariant
                0 <= y < rows@.len(),
                rows@.len() < BLOCKS_VERT,
                row@ == rows@[y as int]@,
                row_wf(row@),
                0 <= k <= row@.len(),
                l == if k == 0 { 0 } else { row@[k - 1] as int },
                out@ == before + row_blocks(y as int, row@).take(k as int),
                forall|i: int| 0 <= i < out@.len() ==> block_ok(#[trigger] out@[i]),
            decreases row@.len() - k,
        {
            let r = row[k];
            assert(0 < row@[k as int] <= LAST_SPLIT);
            if k > 0 {
                assert(row@[k - 1] < row@[k as int]);
            }
            let block = cell_block(y, l, r);
            out.push(block);
            proof {
                assert(row_blocks(y as int, row@).take(k + 1) == row_blocks(y as int, row@).take(k as int).push(block));
            }
            l = r;
            k += 1;
        }
        proof {
            assert(row_blocks(y as int, row@).take(row@.len() as int) == row_blocks(y as int, row@));
            assert(rows_view(rows@.take(y + 1)).drop_last() =~= rows_view(rows@.take(y as int)));
            assert(rows_view(rows@.take(y + 1)).last() == row@);
        }
        y += 1;
    }
    proof {
        assert(rows@.take(rows@.len() as int) == rows@);
    }
    out
}

/// The block of row `y` between columns `l` and `r`.
fn cell_block(y: usize, l: i32, r: i32) -> (b: Block)
    requires
        y < BLOCKS_VERT,
        0 <= l < r <= LAST_SPLIT,
    ensures
        b == level_block(y as int, l as int, r as int),
        block_ok(b),
{
    let y0: i64 = GAME_TOP - (y as i64 + 2) * BLOCK_H;
    let rect = Rect::new(
        V2 { x: GAME_LEFT + l as i64 * SPLIT_STEP, y: y0 },
        V2 { x: GAME_LEFT + r as i64 * SPLIT_STEP, y: y0 + BLOCK_H },
    );
    let w: i32 = r - l;
    if w > INVULNERABLE_WIDTH {
        Block { kind: Kind::Invulnerable, rect: rect.contract(INVULNERABLE_INSET) }
    } else {
        Block { kind: Kind::Scoring { score: w * 10, hp: w }, rect }
    }
}

} // verus!
