use vstd::prelude::*;

use crate::grid::{layout_spec, picture_cell, Event, Grid, GridView};
use crate::math::{best_fit_inside, best_fit_spec};
use crate::shapes::{Draw, Point, Rect};

verus! {

/// The number of columns of the game's grid.
pub const GRID_COLS: usize = 20;

/// The number of rows of the game's grid.
pub const GRID_ROWS: usize = 10;

/// The margin around the grid, as a fraction of the largest square that fits in
/// the window: `GRID_MARGIN_NUMERATOR / GRID_MARGIN_DENOMINATOR` on each side.
pub const GRID_MARGIN_NUMERATOR: u128 = 1;
pub const GRID_MARGIN_DENOMINATOR: u128 = 10;

/// The square that the grid is laid out in: the largest square that fits in the
/// bounding box less the margin on each side, in whole pixels, centered in the box.
pub open spec fn grid_rect_spec(bounding_box: Rect) -> Rect {
    let fit = best_fit_spec(bounding_box.width as int, bounding_box.height as int, 1, 1);
    let d = GRID_MARGIN_DENOMINATOR * fit.denominator;
    let side = (GRID_MARGIN_DENOMINATOR - 2 * GRID_MARGIN_NUMERATOR) * fit.scale / d;
    Rect {
        x: (bounding_box.x + (bounding_box.width - side) / 2) as i32,
        y: (bounding_box.y + (bounding_box.height - side) / 2) as i32,
        width: side as u32,
        height: side as u32,
    }
}

/// The game: one grid, laid out in a square inside the window.
pub struct Game {
    grid: Grid,
    grid_rect: Rect,
}

/// The state of a game, as plain values.
pub struct GameView {
    pub grid: GridView,
    pub grid_rect: Rect,
}

impl View for Game {
    type V = GameView;

    closed spec fn view(&self) -> GameView {
        GameView { grid: self.grid@, grid_rect: self.grid_rect }
    }
}

impl Game {
    pub closed spec fn wf(&self) -> bool {
        &&& self.grid.wf()
        &&& self.grid@.cols == GRID_COLS
        &&& self.grid@.rows == GRID_ROWS
    }

    /// A game on a grid of `GRID_COLS` by `GRID_ROWS` slots holding the starting
    /// picture, not laid out yet.
    pub fn new() -> (game: Game)
        ensures
            game.wf(),
            game@.grid.wf(),
            game@.grid_rect == (Rect { x: 0, y: 0, width: 0, height: 0 }),
            game@.grid.cols == GRID_COLS,
            game@.grid.rows == GRID_ROWS,
            game@.grid.cells_rect == (Rect { x: 0, y: 0, width: 0, height: 0 }),
            game@.grid.cell_size == 0,
            game@.grid.held is None,
            game@.grid.cursor == (Point { x: 0, y: 0 }),
            forall|col: int, row: int|
                0 <= col < GRID_COLS && 0 <= row < GRID_ROWS ==> #[trigger] game@.grid.cells[row
                    * GRID_COLS + col] == picture_cell(col, row),
    {
        Game { grid: Grid::new(GRID_COLS, GRID_ROWS), grid_rect: Rect { x: 0, y: 0, width: 0, height: 0 } }
    }

    /// Lays the game out inside the bounding box: the grid goes in the largest
    /// centered square that fits, less the margin.
    pub fn calculate_layout(&mut self, bounding_box: Rect)
        requires
            old(self).wf(),
            bounding_box.wf(),
        ensures
            final(self).wf(),
            final(self)@.grid_rect == grid_rect_spec(bounding_box),
            final(self)@.grid == (GridView {
                cells_rect: layout_spec(
                    GRID_COLS as int,
                    GRID_ROWS as int,
                    grid_rect_spec(bounding_box),
                ).0,
                cell_size: layout_spec(GRID_COLS as int, GRID_ROWS as int, grid_rect_spec(bounding_box)).1,
                ..old(self)@.grid
            }),
            final(self)@.grid.wf(),
            // the square lies in the box, centered to the pixel
            final(self)@.grid_rect.width == final(self)@.grid_rect.height,
            final(self)@.grid_rect.x >= bounding_box.x,
            final(self)@.grid_rect.y >= bounding_box.y,
            final(self)@.grid_rect.x + final(self)@.grid_rect.width <= bounding_box.x
                + bounding_box.width,
            final(self)@.grid_rect.y + final(self)@.grid_rect.height <= bounding_box.y
                + bounding_box.height,
            2 * (final(self)@.grid_rect.x - bounding_box.x) + final(self)@.grid_rect.width
                == bounding_box.width || 2 * (final(self)@.grid_rect.x - bounding_box.x)
                + final(self)@.grid_rect.width == bounding_box.width - 1,
            2 * (final(self)@.grid_rect.y - bounding_box.y) + final(self)@.grid_rect.height
                == bounding_box.height || 2 * (final(self)@.grid_rect.y - bounding_box.y)
                + final(self)@.grid_rect.height == bounding_box.height - 1,
    {
        let fit = best_fit_inside(bounding_box.width, bounding_box.height, 1, 1);
        let d = GRID_MARGIN_DENOMINATOR * fit.denominator;
        assert(fit.scale <= 2 * u32::MAX && d > 0);
        let kept = GRID_MARGIN_DENOMINATOR - 2 * GRID_MARGIN_NUMERATOR;
        assert(kept == 8);
        let side = kept * fit.scale / d;
        proof {
            let (w, h, s, den) = (
                bounding_box.width as int,
                bounding_box.height as int,
                fit.scale as int,
                fit.denominator as int,
            );
            assert(8 * s <= w * (10 * den) && 8 * s <= h * (10 * den)) by (nonlinear_arith)
                requires
                    s <= w * den,
                    s <= h * den,
                    s >= 0,
            ;
            crate::grid::lemma_floor_sum(0, 8 * s, 1, d as int, w);
            crate::grid::lemma_floor_sum(0, 8 * s, 1, d as int, h);
            crate::grid::lemma_centered(w, side as int);
            crate::grid::lemma_centered(h, side as int);
        }
        self.grid_rect = Rect {
            x: (bounding_box.x as i64 + ((bounding_box.width as u128 - side) / 2) as i64) as i32,
            y: (bounding_box.y as i64 + ((bounding_box.height as u128 - side) / 2) as i64) as i32,
            width: side as u32,
            height: side as u32,
        };
        self.grid.calculate_layout(self.grid_rect);
    }

    /// The drawing of one frame: the grid's.
    pub fn render(&self) -> (r: Vec<Draw>)
        requires
            self.wf(),
        ensures
            r@ == self@.grid.frame(),
    {
        self.grid.render()
    }

    /// Hands the event to the grid.
    pub fn handle_event(&mut self, event: Event)
        requires
            old(self).wf(),
        ensures
            final(self).wf(),
            final(self)@.grid.wf(),
            final(self)@.grid == old(self)@.grid.step(event),
            final(self)@.grid_rect == old(self)@.grid_rect,
    {
        self.grid.handle_event(event);
    }
}

} // verus!
