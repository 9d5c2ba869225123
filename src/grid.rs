use vstd::prelude::*;

use vstd::string::StringSliceAdditionalSpecFns;

use crate::math::{best_fit_inside, best_fit_spec};
use crate::shapes::{Color, Draw, Point, Rect, Square};

verus! {

/// The number of colors in the cell palette.
pub const PALETTE_SIZE: u8 = 12;

/// The column of the grid where the starting picture's left edge is drawn.
pub const PICTURE_LEFT: usize = 5;

/// The row of the grid where the starting picture's top line is drawn.
pub const PICTURE_TOP: usize = 5;

/// The starting picture, one line per grid row: a digit `0`-`9` or a letter
/// `A`-`B` is a cell of that palette color, any other character an empty slot.
pub const PICTURE: &'static str = " 0  1\n00001\n22111\n2233\n 23       B\n 43      BB\n 4377777BB\n 44668999\n 5468889AA\n555668 9A\n5      AA";

/// The bytes of the picture's line break, digits and letters.
pub const NEWLINE: u8 = 0x0a;
pub const DIGIT_ZERO: u8 = 0x30;
pub const DIGIT_NINE: u8 = 0x39;
pub const LETTER_A: u8 = 0x41;
pub const LETTER_B: u8 = 0x42;

/// The largest offset, along either axis, of a held cell.
pub const OFFSET_LIMIT: i64 = 0x1_0000_0000;

/// The color of an empty slot's border.
pub open spec fn border_color_spec() -> Color {
    Color { r: 167, g: 172, b: 216 }
}

/// The color of an empty slot's border.
pub fn border_color() -> (c: Color)
    ensures
        c == border_color_spec(),
{
    Color { r: 167, g: 172, b: 216 }
}

/// The color of each palette index.
pub open spec fn palette_spec(index: u8) -> Color {
    if index == 0 {
        Color { r: 244, g: 67, b: 54 }
    } else if index == 1 {
        Color { r: 255, g: 152, b: 0 }
    } else if index == 2 {
        Color { r: 255, g: 193, b: 7 }
    } else if index == 3 {
        Color { r: 205, g: 220, b: 57 }
    } else if index == 4 {
        Color { r: 139, g: 195, b: 74 }
    } else if index == 5 {
        Color { r: 76, g: 175, b: 80 }
    } else if index == 6 {
        Color { r: 0, g: 150, b: 136 }
    } else if index == 7 {
        Color { r: 33, g: 150, b: 243 }
    } else if index == 8 {
        Color { r: 63, g: 81, b: 181 }
    } else if index == 9 {
        Color { r: 103, g: 58, b: 183 }
    } else if index == 10 {
        Color { r: 156, g: 39, b: 176 }
    } else {
        Color { r: 96, g: 125, b: 139 }
    }
}

/// The color of a palette index.
pub fn palette(index: u8) -> (c: Color)
    requires
        index < PALETTE_SIZE,
    ensures
        c == palette_spec(index),
{
    if index == 0 {
        Color { r: 244, g: 67, b: 54 }
    } else if index == 1 {
        Color { r: 255, g: 152, b: 0 }
    } else if index == 2 {
        Color { r: 255, g: 193, b: 7 }
    } else if index == 3 {
        Color { r: 205, g: 220, b: 57 }
    } else if index == 4 {
        Color { r: 139, g: 195, b: 74 }
    } else if index == 5 {
        Color { r: 76, g: 175, b: 80 }
    } else if index == 6 {
        Color { r: 0, g: 150, b: 136 }
    } else if index == 7 {
        Color { r: 33, g: 150, b: 243 }
    } else if index == 8 {
        Color { r: 63, g: 81, b: 181 }
    } else if index == 9 {
        Color { r: 103, g: 58, b: 183 }
    } else if index == 10 {
        Color { r: 156, g: 39, b: 176 }
    } else {
        Color { r: 96, g: 125, b: 139 }
    }
}

/// Where `cols` by `rows` slots go inside the bounding box: the side of a slot is
/// the whole pixels of the exact fit's scale, the largest whole side at which all
/// the slots fit, and the slots are centered in the box, to the pixel.
pub open spec fn layout_spec(cols: int, rows: int, bounding_box: Rect) -> (Rect, int) {
    let fit = best_fit_spec(
        bounding_box.width as int,
        bounding_box.height as int,
        cols,
        rows,
    );
    let size = fit.scale / fit.denominator;
    let width = cols * size;
    let height = rows * size;
    (
        Rect {
            x: (bounding_box.x + (bounding_box.width - width) / 2) as i32,
            y: (bounding_box.y + (bounding_box.height - height) / 2) as i32,
            width: width as u32,
            height: height as u32,
        },
        size as int,
    )
}

/// The margins of a length centered in a span differ by at most one pixel.
pub proof fn lemma_centered(span: int, length: int)
    requires
        0 <= length <= span,
    ensures
        0 <= (span - length) / 2,
        (span - length) / 2 + length <= span,
        2 * ((span - length) / 2) + length == span || 2 * ((span - length) / 2) + length == span
            - 1,
{
    vstd::arithmetic::div_mod::lemma_fundamental_div_mod(span - length, 2);
    vstd::arithmetic::div_mod::lemma_mod_pos_bound(span - length, 2);
}

/// Whole parts add up to no more than the whole part of the sum.
pub proof fn lemma_floor_sum(a: int, b: int, m: int, d: int, bound: int)
    requires
        a >= 0,
        b >= 0,
        m >= 0,
        d > 0,
        a + m * b <= bound * d,
    ensures
        a / d + m * (b / d) <= bound,
        a / d >= 0,
        b / d >= 0,
{
    vstd::arithmetic::div_mod::lemma_fundamental_div_mod(a, d);
    vstd::arithmetic::div_mod::lemma_fundamental_div_mod(b, d);
    vstd::arithmetic::div_mod::lemma_mod_pos_bound(a, d);
    vstd::arithmetic::div_mod::lemma_mod_pos_bound(b, d);
    vstd::arithmetic::div_mod::lemma_div_pos_is_pos(a, d);
    vstd::arithmetic::div_mod::lemma_div_pos_is_pos(b, d);
    let qa = a / d;
    let qb = b / d;
    assert(qa + m * qb <= bound) by (nonlinear_arith)
        requires
            a == d * qa + a % d,
            b == d * qb + b % d,
            a % d >= 0,
            b % d >= 0,
            m >= 0,
            d > 0,
            a + m * b <= bound * d,
    ;
}

/// A colored cell: an index into the palette.
#[derive(Clone, Copy, Debug, PartialEq, Eq, Structural)]
pub struct Cell {
    pub color: u8,
}

/// A mouse button.
#[derive(Clone, Copy, Debug, PartialEq, Eq, Structural)]
pub enum MouseButton {
    Left,
    Other,
}

/// A key of the keyboard, as far as the grid tells keys apart.
#[derive(Clone, Copy, Debug, PartialEq, Eq, Structural)]
pub enum Key {
    R,
    V,
    H,
    Other,
}

/// The modifier bits of a key press: none held, left shift, right shift.
pub const NO_MODIFIERS: u16 = 0x0000;
pub const LEFT_SHIFT: u16 = 0x0001;
pub const RIGHT_SHIFT: u16 = 0x0002;

/// An input event, as far as the grid reads it.
#[derive(Clone, Copy, Debug, PartialEq, Eq, Structural)]
pub enum Event {
    /// A mouse button went down with the cursor at `x`, `y`.
    MouseButtonDown { button: MouseButton, x: i32, y: i32 },
    /// The cursor moved to `x`, `y`.
    MouseMotion { x: i32, y: i32 },
    /// A key went down while the `modifiers` were held.
    KeyDown { key: Key, modifiers: u16 },
    /// Any other event.
    Other,
}

/// The board: a fixed number of slots, each empty or holding a cell, laid out on
/// the screen, and the cells that the player holds under the cursor.
pub struct Grid {
    cols: usize,
    rows: usize,
    /// The slots, row by row.
    cells: Vec<Option<Cell>>,
    /// Where the slots are drawn on the screen.
    cells_rect: Rect,
    /// The side of one slot on the screen, in pixels.
    cell_size: u32,
    /// The held cells, each with its offset from the click that picked it up. It
    /// is drawn at that offset from the cursor and put down at that offset from
    /// the click that places it.
    current_cells: Option<Vec<(Cell, Point)>>,
    cursor_pos: Point,
}

/// The state of a grid, as plain values.
pub struct GridView {
    pub cols: int,
    pub rows: int,
    pub cells: Seq<Option<Cell>>,
    pub cells_rect: Rect,
    pub cell_size: int,
    pub held: Option<Seq<(Cell, Point)>>,
    pub cursor: Point,
}

pub open spec fn in_i32(v: int) -> bool {
    i32::MIN <= v <= i32::MAX
}

pub open spec fn offset_in_range(p: Point) -> bool {
    -OFFSET_LIMIT <= p.x <= OFFSET_LIMIT && -OFFSET_LIMIT <= p.y <= OFFSET_LIMIT
}

impl GridView {
    pub open spec fn wf(self) -> bool {
        &&& 1 <= self.cols <= u32::MAX
        &&& 1 <= self.rows <= u32::MAX
        &&& self.cols * self.rows <= usize::MAX
        &&& self.cells.len() == self.cols * self.rows
        &&& self.cells_rect.wf()
        &&& 0 <= self.cell_size <= u32::MAX
        &&& self.cells_rect.width == self.cols * self.cell_size
        &&& self.cells_rect.height == self.rows * self.cell_size
        &&& forall|k: int|
            0 <= k < self.cells.len() && #[trigger] self.cells[k] is Some ==> self.cells[k].unwrap().color
                < PALETTE_SIZE
        &&& in_i32(self.cursor.x as int) && in_i32(self.cursor.y as int)
        &&& self.held is Some ==> forall|i: int|
            0 <= i < self.held.unwrap().len() ==> {
                &&& (#[trigger] self.held.unwrap()[i]).0.color < PALETTE_SIZE
                &&& offset_in_range(self.held.unwrap()[i].1)
            }
    }
}

/// Where a held cell's offset from the cursor goes when a key is pressed: `R`
/// turns it a quarter clockwise on the screen, `R` with one shift key a quarter
/// back, `V` mirrors it left to right and `H` top to bottom.
pub open spec fn turned(key: Key, modifiers: u16, p: Point) -> Point {
    if key == Key::R && modifiers == NO_MODIFIERS {
        Point { x: (-p.y) as i64, y: p.x }
    } else if key == Key::R && (modifiers == LEFT_SHIFT || modifiers == RIGHT_SHIFT) {
        Point { x: p.y, y: (-p.x) as i64 }
    } else if key == Key::V && modifiers == NO_MODIFIERS {
        Point { x: (-p.x) as i64, y: p.y }
    } else if key == Key::H && modifiers == NO_MODIFIERS {
        Point { x: p.x, y: (-p.y) as i64 }
    } else {
        p
    }
}

impl GridView {
    /// The column of the slot under the point.
    pub open spec fn col_at(self, p: Point) -> int {
        (p.x - self.cells_rect.x) / self.cell_size
    }

    /// The row of the slot under the point.
    pub open spec fn row_at(self, p: Point) -> int {
        (p.y - self.cells_rect.y) / self.cell_size
    }

    /// The index of the slot under the point.
    pub open spec fn slot_at(self, p: Point) -> int {
        self.row_at(p) * self.cols + self.col_at(p)
    }

    /// The center on the screen of the slot with index `k`.
    pub open spec fn center(self, k: int) -> Point {
        Point {
            x: (self.cells_rect.x + (k % self.cols) * self.cell_size + self.cell_size / 2) as i64,
            y: (self.cells_rect.y + (k / self.cols) * self.cell_size + self.cell_size / 2) as i64,
        }
    }

    /// The point at the given offset from `anchor`.
    pub open spec fn target(self, anchor: Point, offset: Point) -> Point {
        Point { x: (anchor.x + offset.x) as i64, y: (anchor.y + offset.y) as i64 }
    }

    /// The index of the slot at the given offset from `anchor`.
    pub open spec fn target_slot(self, anchor: Point, offset: Point) -> int {
        self.slot_at(self.target(anchor, offset))
    }

    /// The cells of the given color among the first `n` slots, in slot order, each
    /// with the offset of its slot's center from the click point `p`.
    pub open spec fn picked(self, color: u8, n: int, p: Point) -> Seq<(Cell, Point)>
        decreases n,
    {
        if n <= 0 {
            Seq::empty()
        } else {
            let before = self.picked(color, n - 1, p);
            let c = self.cells[n - 1];
            if c is Some && c.unwrap().color == color {
                let center = self.center(n - 1);
                before.push(
                    (
                        c.unwrap(),
                        Point { x: (center.x - p.x) as i64, y: (center.y - p.y) as i64 },
                    ),
                )
            } else {
                before
            }
        }
    }

    /// The slots with the cells of the given color taken out.
    pub open spec fn cleared(self, color: u8) -> Seq<Option<Cell>> {
        self.cells.map_values(
            |c: Option<Cell>|
                if c is Some && c.unwrap().color == color {
                    None
                } else {
                    c
                },
        )
    }

    /// Every one of the cells, put at its offset from the click point `p`, lands
    /// inside the grid on an empty slot, and no two of them land on the same slot.
    pub open spec fn can_place(self, held: Seq<(Cell, Point)>, p: Point) -> bool {
        &&& forall|i: int|
            0 <= i < held.len() ==> {
                &&& self.cells_rect.contains_spec(self.target(p, #[trigger] held[i].1))
                &&& self.cells[self.target_slot(p, held[i].1)] is None
            }
        &&& forall|i: int, j: int|
            0 <= i < j < held.len() ==> self.target_slot(p, #[trigger] held[i].1)
                != self.target_slot(p, #[trigger] held[j].1)
    }

    /// The slots after putting each of the cells, in order, at its offset from the
    /// click point `p`.
    pub open spec fn placed(self, held: Seq<(Cell, Point)>, p: Point) -> Seq<Option<Cell>>
        decreases held.len(),
    {
        if held.len() == 0 {
            self.cells
        } else {
            self.placed(held.drop_last(), p).update(
                self.target_slot(p, held.last().1),
                Some(held.last().0),
            )
        }
    }

    /// A left click at `p`. On an occupied slot with nothing held, it picks up all
    /// cells of that slot's color, each keeping its offset from `p`; on an empty
    /// slot while holding, it puts the held cells down at their offsets from `p` if
    /// they all can be placed. Anything else changes nothing.
    pub open spec fn click(self, p: Point) -> GridView {
        if !self.cells_rect.contains_spec(p) {
            self
        } else {
            let clicked = self.cells[self.slot_at(p)];
            if clicked is Some && self.held is None {
                let color = clicked.unwrap().color;
                GridView {
                    cells: self.cleared(color),
                    held: Some(self.picked(color, self.cells.len() as int, p)),
                    ..self
                }
            } else if clicked is None && self.held is Some && self.can_place(
                self.held.unwrap(),
                p,
            ) {
                GridView { cells: self.placed(self.held.unwrap(), p), held: None, ..self }
            } else {
                self
            }
        }
    }

    /// The square of the slot with index `k` on the screen.
    pub open spec fn slot_square(self, k: int) -> Square {
        Square {
            x: (self.cells_rect.x + (k % self.cols) * self.cell_size) as i64,
            y: (self.cells_rect.y + (k / self.cols) * self.cell_size) as i64,
            size: self.cell_size as u32,
        }
    }

    /// How the slot with index `k` is drawn: filled with its cell's color, or as
    /// a border when empty.
    pub open spec fn slot_draw(self, k: int) -> Draw {
        if self.cells[k] is Some {
            Draw::Fill(self.slot_square(k), palette_spec(self.cells[k].unwrap().color))
        } else {
            Draw::Outline(self.slot_square(k), border_color_spec())
        }
    }

    /// How a held cell is drawn: a slot-sized square of its color centered at its
    /// offset from the cursor.
    pub open spec fn held_draw(self, h: (Cell, Point)) -> Draw {
        let center = self.target(self.cursor, h.1);
        Draw::Fill(
            Square {
                x: (center.x - self.cell_size / 2) as i64,
                y: (center.y - self.cell_size / 2) as i64,
                size: self.cell_size as u32,
            },
            palette_spec(h.0.color),
        )
    }

    /// The drawing of one frame: every slot in slot order, then every held cell in
    /// the order it was picked up.
    pub open spec fn frame(self) -> Seq<Draw> {
        let held = self.held.unwrap_or(Seq::empty());
        Seq::new(
            (self.cells.len() + held.len()) as nat,
            |i: int|
                if i < self.cells.len() {
                    self.slot_draw(i)
                } else {
                    self.held_draw(held[i - self.cells.len()])
                },
        )
    }

    /// The state after the event.
    pub open spec fn step(self, e: Event) -> GridView {
        match e {
            Event::MouseButtonDown { button, x, y } => {
                if button == MouseButton::Left {
                    self.click(Point { x: x as i64, y: y as i64 })
                } else {
                    self
                }
            },
            Event::MouseMotion { x, y } => GridView {
                cursor: Point { x: x as i64, y: y as i64 },
                ..self
            },
            Event::KeyDown { key, modifiers } => {
                if self.held is Some {
                    GridView {
                        held: Some(
                            self.held.unwrap().map_values(
                                |h: (Cell, Point)| (h.0, turned(key, modifiers, h.1)),
                            ),
                        ),
                        ..self
                    }
                } else {
                    self
                }
            },
            Event::Other => self,
        }
    }
}

impl View for Grid {
    type V = GridView;

    closed spec fn view(&self) -> GridView {
        GridView {
            cols: self.cols as int,
            rows: self.rows as int,
            cells: self.cells@,
            cells_rect: self.cells_rect,
            cell_size: self.cell_size as int,
            held: match self.current_cells {
                Some(v) => Some(v@),
                None => None,
            },
            cursor: self.cursor_pos,
        }
    }
}

/// The palette color of a character of the picture, if it stands for a cell.
pub open spec fn color_of_byte(b: u8) -> Option<u8> {
    if DIGIT_ZERO <= b <= DIGIT_NINE {
        Some((b - DIGIT_ZERO) as u8)
    } else if b == LETTER_A {
        Some(10)
    } else if b == LETTER_B {
        Some(11)
    } else {
        None
    }
}

/// The column and line, inside the picture, of its character at index `i`.
pub open spec fn picture_position(b: Seq<u8>, i: int) -> (int, int)
    decreases i,
{
    if i <= 0 {
        (0, 0)
    } else {
        let (col, line) = picture_position(b, i - 1);
        if b[i - 1] == NEWLINE {
            (0, line + 1)
        } else {
            (col + 1, line)
        }
    }
}

/// The color of the cell that the first `n` characters of the picture put at
/// column `col` and line `line` of the picture, if any.
pub open spec fn painted(b: Seq<u8>, n: int, col: int, line: int) -> Option<u8>
    decreases n,
{
    if n <= 0 {
        None
    } else if picture_position(b, n - 1) == (col, line) && color_of_byte(b[n - 1]) is Some {
        color_of_byte(b[n - 1])
    } else {
        painted(b, n - 1, col, line)
    }
}

/// What the starting picture puts in the slot at `col`, `row` of the grid.
pub open spec fn picture_cell(col: int, row: int) -> Option<Cell> {
    let b = PICTURE.spec_bytes();
    match painted(b, b.len() as int, col - PICTURE_LEFT, row - PICTURE_TOP) {
        Some(color) => Some(Cell { color }),
        None => None,
    }
}

/// The index of the slot at `col`, `row` is `row * cols + col`.
pub proof fn lemma_slot(cols: int, rows: int, col: int, row: int)
    requires
        0 <= col < cols,
        0 <= row < rows,
    ensures
        0 <= row * cols + col < cols * rows,
        (row * cols + col) % cols == col,
        (row * cols + col) / cols == row,
{
    assert(0 <= row * cols + col < cols * rows) by (nonlinear_arith)
        requires
            0 <= col < cols,
            0 <= row < rows,
    ;
    vstd::arithmetic::div_mod::lemma_fundamental_div_mod_converse(row * cols + col, cols, row, col);
}

/// Every slot index splits into its row and column.
pub proof fn lemma_slot_split(cols: int, rows: int, k: int)
    requires
        cols >= 1,
        0 <= k < cols * rows,
    ensures
        0 <= k % cols < cols,
        0 <= k / cols < rows,
        k == (k / cols) * cols + k % cols,
{
    vstd::arithmetic::div_mod::lemma_fundamental_div_mod(k, cols);
    vstd::arithmetic::div_mod::lemma_mod_pos_bound(k, cols);
    vstd::arithmetic::div_mod::lemma_div_pos_is_pos(k, cols);
    let q = k / cols;
    let r = k % cols;
    assert(k == q * cols + r && q < rows) by (nonlinear_arith)
        requires
            k == cols * q + r,
            0 <= r < cols,
            k < cols * rows,
            cols >= 1,
    ;
}

/// A quotient by `d` of a value below `n * d` is below `n`.
pub proof fn lemma_div_below(x: int, n: int, d: int)
    requires
        0 <= x < n * d,
        d > 0,
    ensures
        0 <= x / d < n,
{
    vstd::arithmetic::div_mod::lemma_fundamental_div_mod(x, d);
    vstd::arithmetic::div_mod::lemma_mod_pos_bound(x, d);
    vstd::arithmetic::div_mod::lemma_div_pos_is_pos(x, d);
    let q = x / d;
    assert(q < n) by (nonlinear_arith)
        requires
            x == d * q + x % d,
            0 <= x % d,
            x < n * d,
            d > 0,
    ;
}

/// The center of the `col`-th of `n` slots of side `size` lies inside the row of
/// slots, and in the `col`-th slot.
pub proof fn lemma_center(n: int, size: int, col: int)
    requires
        0 <= col < n,
        size >= 0,
    ensures
        0 <= col * size + size / 2 <= n * size,
        size > 0 ==> col * size + size / 2 < n * size,
        size > 0 ==> (col * size + size / 2) / size == col,
{
    let h = size / 2;
    assert(0 <= h && (size > 0 ==> h < size) && (size == 0 ==> h == 0));
    assert(0 <= col * size + h <= n * size && (size > 0 ==> col * size + h < n * size))
        by (nonlinear_arith)
        requires
            0 <= col < n,
            size >= 0,
            0 <= h,
            size > 0 ==> h < size,
            size == 0 ==> h == 0,
    ;
    if size > 0 {
        vstd::arithmetic::div_mod::lemma_fundamental_div_mod_converse(
            col * size + h,
            size,
            col,
            h,
        );
    }
}

/// The slots after placing depend on the slots and the layout alone.
proof fn lemma_placed_same(a: GridView, b: GridView, held: Seq<(Cell, Point)>, p: Point)
    requires
        a.cols == b.cols,
        a.cells == b.cells,
        a.cells_rect == b.cells_rect,
        a.cell_size == b.cell_size,
    ensures
        a.placed(held, p) == b.placed(held, p),
    decreases held.len(),
{
    if held.len() > 0 {
        lemma_placed_same(a, b, held.drop_last(), p);
    }
}

/// A point inside the grid lies on one of its slots.
proof fn lemma_point_on_slot(v: GridView, q: Point)
    requires
        v.wf(),
        v.cells_rect.contains_spec(q),
    ensures
        v.cell_size > 0,
        0 <= v.col_at(q) < v.cols,
        0 <= v.row_at(q) < v.rows,
        0 <= v.slot_at(q) < v.cells.len(),
{
    assert(v.cell_size > 0) by (nonlinear_arith)
        requires
            v.cells_rect.width == v.cols * v.cell_size,
            v.cells_rect.width > 0,
            v.cell_size >= 0,
    ;
    lemma_div_below(q.x - v.cells_rect.x, v.cols, v.cell_size);
    lemma_div_below(q.y - v.cells_rect.y, v.rows, v.cell_size);
    lemma_slot(v.cols, v.rows, v.col_at(q), v.row_at(q));
}

/// Placing the cells picked up from the first `n` slots by a click at `p`, with
/// another click at `p`, is possible and puts each back into its own slot.
proof fn lemma_picked_fit_back(v: GridView, color: u8, n: int, p: Point)
    requires
        v.wf(),
        v.cell_size > 0,
        0 <= n <= v.cells.len(),
        in_i32(p.x as int),
        in_i32(p.y as int),
    ensures
        (GridView { cells: v.cleared(color), ..v }).can_place(v.picked(color, n, p), p),
        forall|i: int|
            0 <= i < v.picked(color, n, p).len() ==> 0 <= v.target_slot(
                p,
                #[trigger] v.picked(color, n, p)[i].1,
            ) < n,
        (GridView { cells: v.cleared(color), ..v }).placed(v.picked(color, n, p), p).len()
            == v.cells.len(),
        forall|j: int|
            0 <= j < v.cells.len() ==> #[trigger] (GridView {
                cells: v.cleared(color),
                ..v
            }).placed(v.picked(color, n, p), p)[j] == if j < n && v.cells[j] is Some
                && v.cells[j].unwrap().color == color {
                v.cells[j]
            } else {
                v.cleared(color)[j]
            },
    decreases n,
{
    let w = GridView { cells: v.cleared(color), ..v };
    if n > 0 {
        lemma_picked_fit_back(v, color, n - 1, p);
        let k = n - 1;
        let c = v.cells[k];
        if c is Some && c.unwrap().color == color {
            let before = v.picked(color, k, p);
            let after = v.picked(color, n, p);
            let center = v.center(k);
            let last = after.last();
            lemma_slot_split(v.cols, v.rows, k);
            lemma_center(v.cols, v.cell_size, k % v.cols);
            lemma_center(v.rows, v.cell_size, k / v.cols);
            assert(w.cells_rect.contains_spec(center)) by (nonlinear_arith)
                requires
                    center.x == v.cells_rect.x + (k % v.cols) * v.cell_size + v.cell_size / 2,
                    center.y == v.cells_rect.y + (k / v.cols) * v.cell_size + v.cell_size / 2,
                    0 <= (k % v.cols) * v.cell_size + v.cell_size / 2 < v.cols * v.cell_size,
                    0 <= (k / v.cols) * v.cell_size + v.cell_size / 2 < v.rows * v.cell_size,
                    w.cells_rect.width == v.cols * v.cell_size,
                    w.cells_rect.height == v.rows * v.cell_size,
                    w.cells_rect == v.cells_rect,
            ;
            assert(w.target(p, last.1) == center);
            assert(w.slot_at(center) == k);
            assert(after.drop_last() =~= before);
            assert forall|i: int| 0 <= i < after.len() implies {
                &&& w.cells_rect.contains_spec(w.target(p, #[trigger] after[i].1))
                &&& w.cells[w.target_slot(p, after[i].1)] is None
                &&& 0 <= v.target_slot(p, after[i].1) < n
            } by {
                if i < before.len() {
                    assert(after[i] == before[i]);
                }
            }
            assert forall|i: int, j: int| 0 <= i < j < after.len() implies w.target_slot(
                p,
                #[trigger] after[i].1,
            ) != w.target_slot(p, #[trigger] after[j].1) by {
                assert(after[i] == before[i]);
                if j < before.len() {
                    assert(after[j] == before[j]);
                }
            }
        } else {
            assert(v.picked(color, n, p) == v.picked(color, k, p));
        }
    }
}

/// Picking up a cell and putting it back where it was restores the grid: with
/// nothing held, a left click on an occupied slot followed by a left click at
/// the same point leaves every slot, the layout and the cursor as they were, and
/// nothing held.
pub proof fn lemma_pick_place_round_trip(v: GridView, x: i32, y: i32)
    requires
        v.wf(),
        v.held is None,
        v.cells_rect.contains_spec(Point { x: x as i64, y: y as i64 }),
        v.cells[v.slot_at(Point { x: x as i64, y: y as i64 })] is Some,
    ensures
        v.step(Event::MouseButtonDown { button: MouseButton::Left, x, y }).step(
            Event::MouseButtonDown { button: MouseButton::Left, x, y },
        ) == v,
{
    let p = Point { x: x as i64, y: y as i64 };
    lemma_point_on_slot(v, p);
    let color = v.cells[v.slot_at(p)].unwrap().color;
    let n = v.cells.len() as int;
    let v1 = v.click(p);
    let w = GridView { cells: v.cleared(color), ..v };
    assert(v1 == GridView { held: Some(v.picked(color, n, p)), ..w });
    lemma_picked_fit_back(v, color, n, p);
    lemma_placed_same(v1, w, v.picked(color, n, p), p);
    let v2 = v1.click(p);
    assert(v1.cells[v1.slot_at(p)] is None);
    assert(v2.cells =~= v.cells);
}

/// A left click at `(x, y)` that would put a held cell outside the grid or onto
/// an occupied slot changes nothing: the slots, the layout and the cursor stay as
/// they were, and the cells stay held.
pub proof fn lemma_rejected_placement(v: GridView, x: i32, y: i32, i: int)
    requires
        v.wf(),
        v.held is Some,
        0 <= i < v.held.unwrap().len(),
        !v.cells_rect.contains_spec(v.target(Point { x: x as i64, y: y as i64 }, v.held.unwrap()[i].1))
            || v.cells[v.target_slot(Point { x: x as i64, y: y as i64 }, v.held.unwrap()[i].1)] is Some,
    ensures
        v.step(Event::MouseButtonDown { button: MouseButton::Left, x, y }) == v,
{
    assert(!v.can_place(v.held.unwrap(), Point { x: x as i64, y: y as i64 }));
}

/// A left click at `(x, y)` that would put two held cells onto the same slot
/// changes nothing either.
pub proof fn lemma_colliding_placement(v: GridView, x: i32, y: i32, i: int, j: int)
    requires
        v.wf(),
        v.held is Some,
        0 <= i < j < v.held.unwrap().len(),
        v.target_slot(Point { x: x as i64, y: y as i64 }, v.held.unwrap()[i].1) == v.target_slot(
            Point { x: x as i64, y: y as i64 },
            v.held.unwrap()[j].1,
        ),
    ensures
        v.step(Event::MouseButtonDown { button: MouseButton::Left, x, y }) == v,
{
    let h = v.held.unwrap();
    assert(!v.can_place(h, Point { x: x as i64, y: y as i64 })) by {
        let p = Point { x: x as i64, y: y as i64 };
        assert(v.target_slot(p, h[i].1) == v.target_slot(p, h[j].1));
    }
}

/// Whether the slot holds a cell of the given color, as 1 or 0.
pub open spec fn holds_color(slot: Option<Cell>, color: u8) -> nat {
    if slot == Some(Cell { color }) {
        1
    } else {
        0
    }
}

/// The number of cells of the given color among the slots.
pub open spec fn count_on_grid(cells: Seq<Option<Cell>>, color: u8) -> nat
    decreases cells.len(),
{
    if cells.len() == 0 {
        0
    } else {
        count_on_grid(cells.drop_last(), color) + holds_color(cells.last(), color)
    }
}

/// The number of cells of the given color among the held cells.
pub open spec fn count_held(held: Seq<(Cell, Point)>, color: u8) -> nat
    decreases held.len(),
{
    if held.len() == 0 {
        0
    } else {
        count_held(held.drop_last(), color) + holds_color(Some(held.last().0), color)
    }
}

impl GridView {
    /// The number of cells of the given color, on the grid and held together.
    pub open spec fn count(self, color: u8) -> nat {
        count_on_grid(self.cells, color) + match self.held {
            Some(h) => count_held(h, color),
            None => 0,
        }
    }
}

proof fn lemma_count_update(cells: Seq<Option<Cell>>, k: int, slot: Option<Cell>, color: u8)
    requires
        0 <= k < cells.len(),
    ensures
        count_on_grid(cells.update(k, slot), color) + holds_color(cells[k], color)
            == count_on_grid(cells, color) + holds_color(slot, color),
    decreases cells.len(),
{
    let u = cells.update(k, slot);
    if k == cells.len() - 1 {
        assert(u.drop_last() =~= cells.drop_last());
    } else {
        assert(u.drop_last() =~= cells.drop_last().update(k, slot));
        lemma_count_update(cells.drop_last(), k, slot, color);
    }
}

/// Picking up moves every cell of the picked color from the grid into the hand.
proof fn lemma_count_pick_up(v: GridView, picked: u8, n: int, p: Point, color: u8)
    requires
        0 <= n <= v.cells.len(),
    ensures
        count_on_grid(v.cleared(picked).take(n), color) + count_held(v.picked(picked, n, p), color)
            == count_on_grid(v.cells.take(n), color),
    decreases n,
{
    if n > 0 {
        lemma_count_pick_up(v, picked, n - 1, p, color);
        assert(v.cleared(picked).take(n).drop_last() =~= v.cleared(picked).take(n - 1));
        assert(v.cells.take(n).drop_last() =~= v.cells.take(n - 1));
        let c = v.cells[n - 1];
        if c is Some && c.unwrap().color == picked {
            assert(v.picked(picked, n, p).drop_last() =~= v.picked(picked, n - 1, p));
        }
    }
}

/// Placing the held cells on empty, distinct slots moves every one of them from
/// the hand onto the grid; the slots that no held cell targets keep their cells.
proof fn lemma_count_place(v: GridView, held: Seq<(Cell, Point)>, p: Point, color: u8)
    requires
        v.wf(),
        v.can_place(held, p),
    ensures
        v.placed(held, p).len() == v.cells.len(),
        forall|k: int|
            0 <= k < v.cells.len() && (forall|i: int|
                0 <= i < held.len() ==> v.target_slot(p, #[trigger] held[i].1) != k)
                ==> #[trigger] v.placed(held, p)[k] == v.cells[k],
        count_on_grid(v.placed(held, p), color) == count_on_grid(v.cells, color) + count_held(
            held,
            color,
        ),
    decreases held.len(),
{
    if held.len() > 0 {
        let rest = held.drop_last();
        let last = held.last();
        assert(v.can_place(rest, p)) by {
            assert forall|i: int| 0 <= i < rest.len() implies {
                &&& v.cells_rect.contains_spec(v.target(p, #[trigger] rest[i].1))
                &&& v.cells[v.target_slot(p, rest[i].1)] is None
            } by {
                assert(rest[i] == held[i]);
            }
            assert forall|i: int, j: int| 0 <= i < j < rest.len() implies v.target_slot(
                p,
                #[trigger] rest[i].1,
            ) != v.target_slot(p, #[trigger] rest[j].1) by {
                assert(rest[i] == held[i] && rest[j] == held[j]);
            }
        }
        lemma_count_place(v, rest, p, color);
        let k = v.target_slot(p, last.1);
        assert(v.cells_rect.contains_spec(v.target(p, held[held.len() - 1].1)));
        lemma_point_on_slot(v, v.target(p, last.1));
        assert forall|i: int| 0 <= i < rest.len() implies v.target_slot(p, #[trigger] rest[i].1)
            != k by {
            assert(rest[i] == held[i]);
            assert(v.target_slot(p, held[i].1) != v.target_slot(p, held[held.len() - 1].1));
        }
        assert(v.placed(rest, p)[k] == v.cells[k]);
        lemma_count_update(v.placed(rest, p), k, Some(last.0), color);
        assert forall|m: int|
            0 <= m < v.cells.len() && (forall|i: int|
                0 <= i < held.len() ==> v.target_slot(p, #[trigger] held[i].1) != m)
                implies #[trigger] v.placed(held, p)[m] == v.cells[m] by {
            assert(v.target_slot(p, held[held.len() - 1].1) != m);
            assert forall|i: int| 0 <= i < rest.len() implies v.target_slot(
                p,
                #[trigger] rest[i].1,
            ) != m by {
                assert(rest[i] == held[i]);
                assert(v.target_slot(p, held[i].1) != m);
            }
        }
    }
}

proof fn lemma_count_turned(held: Seq<(Cell, Point)>, key: Key, modifiers: u16, color: u8)
    ensures
        count_held(
            held.map_values(|h: (Cell, Point)| (h.0, turned(key, modifiers, h.1))),
            color,
        ) == count_held(held, color),
    decreases held.len(),
{
    if held.len() > 0 {
        let f = |h: (Cell, Point)| (h.0, turned(key, modifiers, h.1));
        assert(held.map_values(f).drop_last() =~= held.drop_last().map_values(f));
        lemma_count_turned(held.drop_last(), key, modifiers, color);
    }
}

/// No event creates, loses or duplicates a cell: for every color, the number of
/// cells of that color on the grid and held together stays the same.
pub proof fn lemma_cells_conserved(v: GridView, e: Event, color: u8)
    requires
        v.wf(),
    ensures
        v.step(e).count(color) == v.count(color),
{
    match e {
        Event::MouseButtonDown { button, x, y } => {
            let p = Point { x: x as i64, y: y as i64 };
            if button == MouseButton::Left && v.cells_rect.contains_spec(p) {
                lemma_point_on_slot(v, p);
                let clicked = v.cells[v.slot_at(p)];
                if clicked is Some && v.held is None {
                    let c = clicked.unwrap().color;
                    let n = v.cells.len() as int;
                    lemma_count_pick_up(v, c, n, p, color);
                    assert(v.cleared(c).take(n) =~= v.cleared(c));
                    assert(v.cells.take(n) =~= v.cells);
                } else if clicked is None && v.held is Some && v.can_place(v.held.unwrap(), p) {
                    lemma_count_place(v, v.held.unwrap(), p, color);
                }
            }
        },
        Event::KeyDown { key, modifiers } => {
            if v.held is Some {
                lemma_count_turned(v.held.unwrap(), key, modifiers, color);
            }
        },
        _ => {},
    }
}

fn turn_offset(key: Key, modifiers: u16, p: Point) -> (r: Point)
    requires
        offset_in_range(p),
    ensures
        r == turned(key, modifiers, p),
        offset_in_range(r),
{
    match key {
        Key::R => {
            if modifiers == NO_MODIFIERS {
                Point { x: -p.y, y: p.x }
            } else if modifiers == LEFT_SHIFT || modifiers == RIGHT_SHIFT {
                Point { x: p.y, y: -p.x }
            } else {
                p
            }
        },
        Key::V => {
            if modifiers == NO_MODIFIERS {
                Point { x: -p.x, y: p.y }
            } else {
                p
            }
        },
        Key::H => {
            if modifiers == NO_MODIFIERS {
                Point { x: p.x, y: -p.y }
            } else {
                p
            }
        },
        Key::Other => p,
    }
}

fn color_of_byte_exec(b: u8) -> (r: Option<u8>)
    ensures
        r == color_of_byte(b),
{
    if DIGIT_ZERO <= b && b <= DIGIT_NINE {
        Some(b - DIGIT_ZERO)
    } else if b == LETTER_A {
        Some(10)
    } else if b == LETTER_B {
        Some(11)
    } else {
        None
    }
}

impl Grid {
    pub open spec fn wf(&self) -> bool {
        self@.wf()
    }

    /// Makes a grid of `cols` by `rows` slots holding the starting picture, whose
    /// top-left corner lies at column `PICTURE_LEFT`, row `PICTURE_TOP`; the parts
    /// of the picture that fall outside the grid are left out. No cell is held and
    /// the grid has no place on the screen yet.
    pub fn new(cols: usize, rows: usize) -> (grid: Grid)
        requires
            1 <= cols <= u32::MAX,
            1 <= rows <= u32::MAX,
            cols * rows <= usize::MAX,
        ensures
            grid.wf(),
            grid@.cols == cols,
            grid@.rows == rows,
            grid@.cells_rect == (Rect { x: 0, y: 0, width: 0, height: 0 }),
            grid@.cell_size == 0,
            grid@.held is None,
            grid@.cursor == (Point { x: 0, y: 0 }),
            forall|col: int, row: int|
                0 <= col < cols && 0 <= row < rows ==> #[trigger] grid@.cells[row * cols + col]
                    == picture_cell(col, row),
    {
        let total = cols * rows;
        let mut cells: Vec<Option<Cell>> = Vec::new();
        let mut k: usize = 0;
        while k < total
            invariant
                k <= total,
                cells@.len() == k,
                forall|j: int| 0 <= j < k ==> cells@[j] is None,
            decreases total - k,
        {
            cells.push(None);
            k += 1;
        }
        let bytes = PICTURE.as_bytes();
        let ghost b = PICTURE.spec_bytes();
        let left: usize = if PICTURE_LEFT < cols {
            PICTURE_LEFT
        } else {
            cols
        };
        let mut col: usize = left;
        let mut row: usize = if PICTURE_TOP < rows {
            PICTURE_TOP
        } else {
            rows
        };
        let mut i: usize = 0;
        proof {
            assert(rows * cols == total) by (nonlinear_arith)
                requires
                    total == cols * rows,
            ;
        }
        while i < bytes.len()
            invariant
                b == bytes@,
                i <= bytes@.len(),
                cells@.len() == total,
                total == cols * rows,
                cols >= 1,
                left == if PICTURE_LEFT < cols {
                    PICTURE_LEFT as int
                } else {
                    cols as int
                },
                picture_position(b, i as int).0 >= 0,
                picture_position(b, i as int).1 >= 0,
                col == if PICTURE_LEFT + picture_position(b, i as int).0 < cols {
                    PICTURE_LEFT + picture_position(b, i as int).0
                } else {
                    cols as int
                },
                row == if PICTURE_TOP + picture_position(b, i as int).1 < rows {
                    PICTURE_TOP + picture_position(b, i as int).1
                } else {
                    rows as int
                },
                forall|j: int|
                    0 <= j < total ==> #[trigger] cells@[j] == match painted(
                        b,
                        i as int,
                        j % cols as int - PICTURE_LEFT,
                        j / cols as int - PICTURE_TOP,
                    ) {
                        Some(color) => Some(Cell { color }),
                        None => None,
                    },
                forall|j: int|
                    0 <= j < total && #[trigger] cells@[j] is Some ==> cells@[j].unwrap().color
                        < PALETTE_SIZE,
            decreases bytes@.len() - i,
        {
            let byte = bytes[i];
            let ghost old_cells = cells@;
            let ghost pos = picture_position(b, i as int);
            if byte == NEWLINE {
                col = left;
                if row < rows {
                    row += 1;
                }
                assert forall|j: int| 0 <= j < total implies #[trigger] cells@[j] == match painted(
                    b,
                    i + 1,
                    j % cols as int - PICTURE_LEFT,
                    j / cols as int - PICTURE_TOP,
                ) {
                    Some(color) => Some(Cell { color }),
                    None => None,
                } by {
                    assert(color_of_byte(byte) is None);
                }
            } else {
                let c = color_of_byte_exec(byte);
                if let Some(color) = c {
                    if col < cols && row < rows {
                        proof {
                            lemma_slot(cols as int, rows as int, col as int, row as int);
                        }
                        cells[row * cols + col] = Some(Cell { color });
                    }
                }
                proof {
                    assert forall|j: int| 0 <= j < total implies #[trigger] cells@[j] == match painted(
                        b,
                        i + 1,
                        j % cols as int - PICTURE_LEFT,
                        j / cols as int - PICTURE_TOP,
                    ) {
                        Some(color) => Some(Cell { color }),
                        None => None,
                    } by {
                        lemma_slot_split(cols as int, rows as int, j);
                        if c is Some && col < cols && row < rows {
                            lemma_slot(cols as int, rows as int, col as int, row as int);
                            if j != row * cols + col {
                                assert(cells@[j] == old_cells[j]);
                                if (j % cols as int - PICTURE_LEFT, j / cols as int - PICTURE_TOP)
                                    == pos {
                                    assert(j == row * cols + col);
                                }
                            }
                        }
                    }
                }
                if col < cols {
                    col += 1;
                }
            }
            i += 1;
        }
        assert forall|c: int, r: int| 0 <= c < cols && 0 <= r < rows implies #[trigger] cells@[r
            * cols + c] == picture_cell(c, r) by {
            lemma_slot(cols as int, rows as int, c, r);
        }
        Grid {
            cols,
            rows,
            cells,
            cells_rect: Rect { x: 0, y: 0, width: 0, height: 0 },
            cell_size: 0,
            current_cells: None,
            cursor_pos: Point { x: 0, y: 0 },
        }
    }

    /// Handles one input event: a left click picks up or puts down cells, a
    /// motion moves the cursor, and a key press turns or mirrors the held cells
    /// around the cursor.
    pub fn handle_event(&mut self, event: Event)
        requires
            old(self).wf(),
        ensures
            final(self).wf(),
            final(self)@ == old(self)@.step(event),
    {
        match event {
            Event::MouseButtonDown { button, x, y } => {
                if button == MouseButton::Left {
                    self.click(Point { x: x as i64, y: y as i64 });
                }
            },
            Event::MouseMotion { x, y } => {
                self.cursor_pos = Point { x: x as i64, y: y as i64 };
            },
            Event::KeyDown { key, modifiers } => {
                self.turn_held(key, modifiers);
            },
            Event::Other => {},
        }
    }

    fn click(&mut self, p: Point)
        requires
            old(self).wf(),
            in_i32(p.x as int),
            in_i32(p.y as int),
        ensures
            final(self).wf(),
            final(self)@ == old(self)@.click(p),
    {
        if self.cells_rect.contains_point(p) {
            let (col, row) = self.screen_to_grid_coords(p);
            let clicked = self.cell(col, row);
            if clicked.is_some() && self.current_cells.is_none() {
                self.pick_up(clicked.unwrap().color, p);
            } else if clicked.is_none() && self.current_cells.is_some() {
                let can_place = match &self.current_cells {
                    Some(held) => self.can_place(held, p),
                    None => false,
                };
                if can_place {
                    let ghost g = self@;
                    let held = self.current_cells.take().unwrap();
                    proof {
                        lemma_placed_same(self@, g, held@, p);
                    }
                    self.place(held, p);
                }
            }
        }
    }

    fn cell(&self, col: usize, row: usize) -> (r: Option<Cell>)
        requires
            self.wf(),
            col < self@.cols,
            row < self@.rows,
        ensures
            r == self@.cells[row * self@.cols + col],
    {
        proof {
            lemma_slot(self.cols as int, self.rows as int, col as int, row as int);
        }
        self.cells[row * self.cols + col]
    }

    fn screen_to_grid_coords(&self, p: Point) -> (r: (usize, usize))
        requires
            self.wf(),
            self@.cells_rect.contains_spec(p),
        ensures
            self@.cell_size > 0,
            r.0 == self@.col_at(p),
            r.1 == self@.row_at(p),
            r.0 < self@.cols,
            r.1 < self@.rows,
    {
        proof {
            assert(self.cell_size > 0) by (nonlinear_arith)
                requires
                    self.cells_rect.width == self.cols * self.cell_size,
                    self.cells_rect.width > 0,
                    self.cell_size >= 0,
            ;
            lemma_div_below(p.x - self.cells_rect.x, self.cols as int, self.cell_size as int);
            lemma_div_below(p.y - self.cells_rect.y, self.rows as int, self.cell_size as int);
        }
        let dx = (p.x - self.cells_rect.x as i64) as u64;
        let dy = (p.y - self.cells_rect.y as i64) as u64;
        let size = self.cell_size as u64;
        ((dx / size) as usize, (dy / size) as usize)
    }

    fn pick_up(&mut self, color: u8, p: Point)
        requires
            old(self).wf(),
            old(self)@.held is None,
            in_i32(p.x as int),
            in_i32(p.y as int),
        ensures
            final(self).wf(),
            final(self)@ == (GridView {
                cells: old(self)@.cleared(color),
                held: Some(old(self)@.picked(color, old(self)@.cells.len() as int, p)),
                ..old(self)@
            }),
    {
        let ghost g = self@;
        let total = self.cells.len();
        let size = self.cell_size as i64;
        let half = (self.cell_size / 2) as i64;
        let mut held: Vec<(Cell, Point)> = Vec::new();
        let mut k: usize = 0;
        let mut col: usize = 0;
        let mut row: usize = 0;
        while k < total
            invariant
                g.wf(),
                self@ == (GridView { cells: self@.cells, ..g }),
                self.cols == g.cols,
                self.cells_rect == g.cells_rect,
                self.cell_size == g.cell_size,
                self.cursor_pos == g.cursor,
                in_i32(p.x as int),
                in_i32(p.y as int),
                size == g.cell_size,
                half == g.cell_size / 2,
                total == g.cells.len(),
                self@.cells.len() == total,
                k <= total,
                col < g.cols,
                k == row * g.cols + col,
                k < total ==> row < g.rows,
                held@ == g.picked(color, k as int, p),
                forall|j: int| 0 <= j < k ==> #[trigger] self@.cells[j] == g.cleared(color)[j],
                forall|j: int| k <= j < total ==> #[trigger] self@.cells[j] == g.cells[j],
                forall|i: int|
                    0 <= i < held@.len() ==> {
                        &&& (#[trigger] held@[i]).0.color < PALETTE_SIZE
                        &&& offset_in_range(held@[i].1)
                    },
            decreases total - k,
        {
            proof {
                lemma_slot(g.cols, g.rows, col as int, row as int);
                lemma_center(g.cols, g.cell_size, col as int);
                lemma_center(g.rows, g.cell_size, row as int);
            }
            let center_x = self.cells_rect.x as i64 + col as i64 * size + half;
            let center_y = self.cells_rect.y as i64 + row as i64 * size + half;
            let offset = Point { x: center_x - p.x, y: center_y - p.y };
            let c = self.cells[k];
            if c.is_some() && c.unwrap().color == color {
                held.push((c.unwrap(), offset));
                self.cells[k] = None;
            }
            proof {
                assert(g.cleared(color)[k as int] == self@.cells[k as int]);
            }
            let ghost (k0, col0, row0) = (k as int, col as int, row as int);
            k += 1;
            col += 1;
            if col == self.cols {
                col = 0;
                row += 1;
            }
            proof {
                assert(k == row * g.cols + col && (k < total ==> row < g.rows)) by (nonlinear_arith)
                    requires
                        k0 == row0 * g.cols + col0,
                        k == k0 + 1,
                        col0 < g.cols,
                        row0 < g.rows,
                        k0 < total,
                        total == g.cols * g.rows,
                        col0 + 1 < g.cols ==> (col == col0 + 1 && row == row0),
                        col0 + 1 == g.cols ==> (col == 0 && row == row0 + 1),
                ;
            }
        }
        proof {
            assert(self@.cells =~= g.cleared(color));
        }
        self.current_cells = Some(held);
        proof {
            assert forall|j: int| 0 <= j < self@.cells.len() && #[trigger] self@.cells[j] is Some
                implies self@.cells[j].unwrap().color < PALETTE_SIZE by {
                assert(self@.cells[j] == g.cells[j]);
            }
        }
    }

    fn target_slot_of(&self, p: Point, offset: Point) -> (r: Option<usize>)
        requires
            self.wf(),
            in_i32(p.x as int),
            in_i32(p.y as int),
            offset_in_range(offset),
        ensures
            r is Some <==> self@.cells_rect.contains_spec(self@.target(p, offset)),
            r is Some ==> r.unwrap() == self@.target_slot(p, offset),
            r is Some ==> r.unwrap() < self@.cells.len(),
    {
        let target = Point { x: p.x + offset.x, y: p.y + offset.y };
        if !self.cells_rect.contains_point(target) {
            return None;
        }
        let (col, row) = self.screen_to_grid_coords(target);
        proof {
            lemma_slot(self@.cols, self@.rows, col as int, row as int);
        }
        Some(row * self.cols + col)
    }

    fn can_place(&self, held: &Vec<(Cell, Point)>, p: Point) -> (r: bool)
        requires
            self.wf(),
            in_i32(p.x as int),
            in_i32(p.y as int),
            forall|i: int| 0 <= i < held@.len() ==> offset_in_range(#[trigger] held@[i].1),
        ensures
            r == self@.can_place(held@, p),
    {
        let mut i: usize = 0;
        while i < held.len()
            invariant
                self.wf(),
                in_i32(p.x as int),
                in_i32(p.y as int),
                i <= held@.len(),
                forall|i: int| 0 <= i < held@.len() ==> offset_in_range(#[trigger] held@[i].1),
                forall|j: int|
                    0 <= j < i ==> {
                        &&& self@.cells_rect.contains_spec(self@.target(p, #[trigger] held@[j].1))
                        &&& self@.cells[self@.target_slot(p, held@[j].1)] is None
                    },
                forall|a: int, b: int|
                    0 <= a < b < i ==> self@.target_slot(p, #[trigger] held@[a].1)
                        != self@.target_slot(p, #[trigger] held@[b].1),
            decreases held@.len() - i,
        {
            let k = match self.target_slot_of(p, held[i].1) {
                Some(k) => k,
                None => {
                    return false;
                },
            };
            if self.cells[k].is_some() {
                return false;
            }
            let mut j: usize = 0;
            while j < i
                invariant
                    self.wf(),
                    in_i32(p.x as int),
                    in_i32(p.y as int),
                    j <= i,
                    i < held@.len(),
                    k == self@.target_slot(p, held@[i as int].1),
                    forall|i: int| 0 <= i < held@.len() ==> offset_in_range(#[trigger] held@[i].1),
                    forall|j: int|
                        0 <= j < i ==> {
                            &&& self@.cells_rect.contains_spec(
                                self@.target(p, #[trigger] held@[j].1),
                            )
                            &&& self@.cells[self@.target_slot(p, held@[j].1)] is None
                        },
                    forall|b: int| 0 <= b < j ==> self@.target_slot(p, #[trigger] held@[b].1) != k,
                decreases i - j,
            {
                match self.target_slot_of(p, held[j].1) {
                    Some(other) => {
                        if other == k {
                            proof {
                                assert(self@.target_slot(p, held@[j as int].1) == self@.target_slot(
                                    p,
                                    held@[i as int].1,
                                ));
                            }
                            return false;
                        }
                    },
                    None => {},
                }
                j += 1;
            }
            proof {
                assert forall|a: int, b: int| 0 <= a < b < i + 1 implies self@.target_slot(
                    p,
                    #[trigger] held@[a].1,
                ) != self@.target_slot(p, #[trigger] held@[b].1) by {
                    if b == i {
                        assert(self@.target_slot(p, held@[a].1) != k);
                    }
                }
            }
            i += 1;
        }
        true
    }

    fn place(&mut self, held: Vec<(Cell, Point)>, p: Point)
        requires
            old(self).wf(),
            old(self)@.held is None,
            in_i32(p.x as int),
            in_i32(p.y as int),
            forall|i: int|
                0 <= i < held@.len() ==> {
                    &&& (#[trigger] held@[i]).0.color < PALETTE_SIZE
                    &&& offset_in_range(held@[i].1)
                    &&& old(self)@.cells_rect.contains_spec(old(self)@.target(p, held@[i].1))
                },
        ensures
            final(self).wf(),
            final(self)@ == (GridView { cells: old(self)@.placed(held@, p), ..old(self)@ }),
    {
        let ghost g = self@;
        let mut i: usize = 0;
        while i < held.len()
            invariant
                g.wf(),
                self.wf(),
                self@ == (GridView { cells: self@.cells, ..g }),
                i <= held@.len(),
                in_i32(p.x as int),
                in_i32(p.y as int),
                self@.cells == g.placed(held@.take(i as int), p),
                forall|i: int|
                    0 <= i < held@.len() ==> {
                        &&& (#[trigger] held@[i]).0.color < PALETTE_SIZE
                        &&& offset_in_range(held@[i].1)
                        &&& g.cells_rect.contains_spec(g.target(p, held@[i].1))
                    },
            decreases held@.len() - i,
        {
            let (cell, offset) = held[i];
            let target = Point { x: p.x + offset.x, y: p.y + offset.y };
            let (col, row) = self.screen_to_grid_coords(target);
            proof {
                lemma_slot(g.cols, g.rows, col as int, row as int);
                assert(held@.take(i + 1).drop_last() =~= held@.take(i as int));
            }
            self.cells[row * self.cols + col] = Some(cell);
            i += 1;
        }
        proof {
            assert(held@.take(held@.len() as int) =~= held@);
        }
    }

    fn turn_held(&mut self, key: Key, modifiers: u16)
        requires
            old(self).wf(),
        ensures
            final(self).wf(),
            final(self)@ == old(self)@.step(Event::KeyDown { key, modifiers }),
    {
        let ghost g = self@;
        if let Some(held) = self.current_cells.take() {
            let mut turned_cells: Vec<(Cell, Point)> = Vec::new();
            let mut i: usize = 0;
            while i < held.len()
                invariant
                    g.wf(),
                    g.held == Some(held@),
                    i <= held@.len(),
                    turned_cells@ == held@.take(i as int).map_values(
                        |h: (Cell, Point)| (h.0, turned(key, modifiers, h.1)),
                    ),
                decreases held@.len() - i,
            {
                let (cell, offset) = held[i];
                proof {
                    assert(g.held.unwrap()[i as int] == held@[i as int]);
                }
                turned_cells.push((cell, turn_offset(key, modifiers, offset)));
                proof {
                    assert(held@.take(i + 1) =~= held@.take(i as int).push(held@[i as int]));
                    assert(turned_cells@ =~= held@.take(i + 1).map_values(
                        |h: (Cell, Point)| (h.0, turned(key, modifiers, h.1)),
                    ));
                }
                i += 1;
            }
            proof {
                assert(held@.take(held@.len() as int) =~= held@);
            }
            self.current_cells = Some(turned_cells);
        }
    }

    /// Lays the slots out inside the bounding box: the largest slot side, in whole
    /// pixels, at which all the slots fit, with the slots centered in the box.
    pub fn calculate_layout(&mut self, bounding_box: Rect)
        requires
            old(self).wf(),
            bounding_box.wf(),
        ensures
            final(self).wf(),
            final(self)@ == (GridView {
                cells_rect: layout_spec(old(self)@.cols, old(self)@.rows, bounding_box).0,
                cell_size: layout_spec(old(self)@.cols, old(self)@.rows, bounding_box).1,
                ..old(self)@
            }),
            // inside the box
            final(self)@.cells_rect.x >= bounding_box.x,
            final(self)@.cells_rect.y >= bounding_box.y,
            final(self)@.cells_rect.x + final(self)@.cells_rect.width <= bounding_box.x
                + bounding_box.width,
            final(self)@.cells_rect.y + final(self)@.cells_rect.height <= bounding_box.y
                + bounding_box.height,
            // centered, the two margins differing by at most one pixel
            2 * (final(self)@.cells_rect.x - bounding_box.x) + final(self)@.cells_rect.width
                == bounding_box.width || 2 * (final(self)@.cells_rect.x - bounding_box.x)
                + final(self)@.cells_rect.width == bounding_box.width - 1,
            2 * (final(self)@.cells_rect.y - bounding_box.y) + final(self)@.cells_rect.height
                == bounding_box.height || 2 * (final(self)@.cells_rect.y - bounding_box.y)
                + final(self)@.cells_rect.height == bounding_box.height - 1,
            // with one slot side for both directions, the largest whole one that fits
            final(self)@.cells_rect.width == old(self)@.cols * final(self)@.cell_size,
            final(self)@.cells_rect.height == old(self)@.rows * final(self)@.cell_size,
            (final(self)@.cell_size + 1) * old(self)@.cols > bounding_box.width
                || (final(self)@.cell_size + 1) * old(self)@.rows > bounding_box.height,
    {
        let fit = best_fit_inside(
            bounding_box.width,
            bounding_box.height,
            self.cols as u32,
            self.rows as u32,
        );
        let ghost q = fit.scale / fit.denominator;
        proof {
            lemma_floor_sum(
                0,
                fit.scale as int,
                self.cols as int,
                fit.denominator as int,
                bounding_box.width as int,
            );
            lemma_floor_sum(
                0,
                fit.scale as int,
                self.rows as int,
                fit.denominator as int,
                bounding_box.height as int,
            );
            assert(q <= self.cols * q) by (nonlinear_arith)
                requires
                    self.cols >= 1,
                    q >= 0,
            ;
            assert(q <= self.rows * q) by (nonlinear_arith)
                requires
                    self.rows >= 1,
                    q >= 0,
            ;
            lemma_centered(bounding_box.width as int, self.cols * q);
            lemma_centered(bounding_box.height as int, self.rows * q);
            vstd::arithmetic::div_mod::lemma_fundamental_div_mod(
                fit.scale as int,
                fit.denominator as int,
            );
            vstd::arithmetic::div_mod::lemma_mod_pos_bound(fit.scale as int, fit.denominator as int);
            let r = fit.scale % fit.denominator;
            let (aw, ah, bw, bh) = (
                bounding_box.width as int,
                bounding_box.height as int,
                self.cols as int,
                self.rows as int,
            );
            if crate::math::fits_by_height(aw, ah, bw, bh) {
                assert((q + 1) * bh > ah) by (nonlinear_arith)
                    requires
                        fit.scale == 2 * ah,
                        fit.denominator == 2 * bh,
                        fit.scale == fit.denominator * q + r,
                        r < fit.denominator,
                ;
            } else {
                assert((q + 1) * bw > aw) by (nonlinear_arith)
                    requires
                        fit.scale == 2 * aw,
                        fit.denominator == 2 * bw,
                        fit.scale == fit.denominator * q + r,
                        r < fit.denominator,
                ;
            }
        }
        let size = fit.scale / fit.denominator;
        let width = self.cols as u128 * size;
        let height = self.rows as u128 * size;
        self.cell_size = size as u32;
        self.cells_rect = Rect {
            x: (bounding_box.x as i64 + ((bounding_box.width as u128 - width) / 2) as i64) as i32,
            y: (bounding_box.y as i64 + ((bounding_box.height as u128 - height) / 2) as i64) as i32,
            width: width as u32,
            height: height as u32,
        };
    }

    /// The drawing of one frame: every slot in slot order, then every held cell in
    /// the order it was picked up.
    pub fn render(&self) -> (r: Vec<Draw>)
        requires
            self.wf(),
        ensures
            r@ == self@.frame(),
    {
        let ghost g = self@;
        let total = self.cells.len();
        let size = self.cell_size as i64;
        let mut out: Vec<Draw> = Vec::new();
        let mut k: usize = 0;
        let mut col: usize = 0;
        let mut row: usize = 0;
        while k < total
            invariant
                g == self@,
                g.wf(),
                size == g.cell_size,
                total == g.cells.len(),
                k <= total,
                col < g.cols,
                k == row * g.cols + col,
                k < total ==> row < g.rows,
                out@.len() == k,
                forall|j: int| 0 <= j < k ==> #[trigger] out@[j] == g.slot_draw(j),
            decreases total - k,
        {
            proof {
                lemma_slot(g.cols, g.rows, col as int, row as int);
                lemma_center(g.cols, g.cell_size, col as int);
                lemma_center(g.rows, g.cell_size, row as int);
            }
            let square = Square {
                x: self.cells_rect.x as i64 + col as i64 * size,
                y: self.cells_rect.y as i64 + row as i64 * size,
                size: self.cell_size,
            };
            let draw = match self.cells[k] {
                Some(c) => Draw::Fill(square, palette(c.color)),
                None => Draw::Outline(square, border_color()),
            };
            out.push(draw);
            let ghost (k0, col0, row0) = (k as int, col as int, row as int);
            k += 1;
            col += 1;
            if col == self.cols {
                col = 0;
                row += 1;
            }
            proof {
                assert(k == row * g.cols + col && (k < total ==> row < g.rows)) by (nonlinear_arith)
                    requires
                        k0 == row0 * g.cols + col0,
                        k == k0 + 1,
                        col0 < g.cols,
                        row0 < g.rows,
                        k0 < total,
                        total == g.cols * g.rows,
                        col0 + 1 < g.cols ==> (col == col0 + 1 && row == row0),
                        col0 + 1 == g.cols ==> (col == 0 && row == row0 + 1),
                ;
            }
        }
        match &self.current_cells {
            Some(held) => {
                let half = (self.cell_size / 2) as i64;
                let mut i: usize = 0;
                while i < held.len()
                    invariant
                        g == self@,
                        g.wf(),
                        g.held == Some(held@),
                        half == g.cell_size / 2,
                        i <= held@.len(),
                        out@.len() == total + i,
                        total == g.cells.len(),
                        forall|j: int| 0 <= j < total ==> #[trigger] out@[j] == g.slot_draw(j),
                        forall|j: int|
                            0 <= j < i ==> #[trigger] out@[total + j] == g.held_draw(held@[j]),
                    decreases held@.len() - i,
                {
                    let (cell, offset) = held[i];
                    proof {
                        assert(g.held.unwrap()[i as int] == held@[i as int]);
                    }
                    let square = Square {
                        x: self.cursor_pos.x + offset.x - half,
                        y: self.cursor_pos.y + offset.y - half,
                        size: self.cell_size,
                    };
                    let ghost before = out@;
                    out.push(Draw::Fill(square, palette(cell.color)));
                    proof {
                        assert forall|j: int| 0 <= j < i + 1 implies #[trigger] out@[total + j]
                            == g.held_draw(held@[j]) by {
                            if j < i {
                                assert(out@[total + j] == before[total + j]);
                            }
                        }
                    }
                    i += 1;
                }
                proof {
                    assert forall|n: int| 0 <= n < out@.len() implies out@[n] == g.frame()[n] by {
                        if n >= total {
                            assert(out@[total + (n - total)] == g.held_draw(held@[n - total]));
                        }
                    }
                    assert(out@ =~= g.frame());
                }
            },
            None => {
                proof {
                    assert(out@ =~= g.frame());
                }
            },
        }
        out
    }
}

} // verus!
