use grid_puzzle::game::Game;
use grid_puzzle::grid::{palette, border_color, Event, Grid, Key, MouseButton, LEFT_SHIFT, NO_MODIFIERS};
use grid_puzzle::shapes::{Color, Draw, Rect, Square};

const WINDOW: Rect = Rect { x: 0, y: 0, width: 800, height: 600 };

fn laid_out_grid() -> Grid {
    let mut grid = Grid::new(20, 10);
    grid.calculate_layout(WINDOW);
    grid
}

fn click(x: i32, y: i32) -> Event {
    Event::MouseButtonDown { button: MouseButton::Left, x, y }
}

fn slot_center(col: i32, row: i32) -> (i32, i32) {
    // slots of 40 pixels, starting at (0, 100)
    (col * 40 + 20, 100 + row * 40 + 20)
}

fn fill_color(d: &Draw) -> Option<Color> {
    match d {
        Draw::Fill(_, c) => Some(*c),
        Draw::Outline(_, _) => None,
    }
}

#[test]
fn new_grid_holds_picture() {
    let grid = Grid::new(20, 10);
    let frame = grid.render();
    assert_eq!(frame.len(), 200);
    // first picture line " 0  1" starts at column 5, row 5
    assert_eq!(fill_color(&frame[5 * 20 + 5]), None);
    assert_eq!(fill_color(&frame[5 * 20 + 6]), Some(palette(0)));
    assert_eq!(fill_color(&frame[5 * 20 + 9]), Some(palette(1)));
    // second line "00001"
    assert_eq!(fill_color(&frame[6 * 20 + 5]), Some(palette(0)));
    assert_eq!(fill_color(&frame[6 * 20 + 9]), Some(palette(1)));
    // fifth line " 23       B": the B at column 15
    assert_eq!(fill_color(&frame[9 * 20 + 15]), Some(palette(11)));
    // nothing above or left of the picture
    assert_eq!(fill_color(&frame[0]), None);
    assert_eq!(fill_color(&frame[4 * 20 + 6]), None);
}

#[test]
fn picture_is_cut_at_grid_edge() {
    let grid = Grid::new(7, 6);
    let frame = grid.render();
    assert_eq!(frame.len(), 42);
    assert_eq!(fill_color(&frame[5 * 7 + 6]), Some(palette(0)));
    assert_eq!(fill_color(&frame[5 * 7 + 5]), None);
}

#[test]
fn tiny_grid_outside_picture_is_empty() {
    let grid = Grid::new(1, 1);
    let frame = grid.render();
    assert_eq!(frame.len(), 1);
    assert_eq!(frame[0], Draw::Outline(Square { x: 0, y: 0, size: 0 }, border_color()));
}

#[test]
fn layout_fits_grid_in_window() {
    let grid = laid_out_grid();
    let frame = grid.render();
    assert_eq!(frame[0], Draw::Outline(Square { x: 0, y: 100, size: 40 }, border_color()));
    assert_eq!(frame[199], Draw::Outline(Square { x: 760, y: 460, size: 40 }, border_color()));
    assert_eq!(frame[5 * 20 + 6], Draw::Fill(Square { x: 240, y: 300, size: 40 }, palette(0)));
}

#[test]
fn palette_colors() {
    assert_eq!(palette(0), Color { r: 244, g: 67, b: 54 });
    assert_eq!(palette(7), Color { r: 33, g: 150, b: 243 });
    assert_eq!(palette(11), Color { r: 96, g: 125, b: 139 });
    assert_eq!(border_color(), Color { r: 167, g: 172, b: 216 });
}

#[test]
fn pick_up_takes_every_cell_of_the_color() {
    let mut grid = laid_out_grid();
    let before = grid.render();
    let zeros = before.iter().filter(|d| fill_color(d) == Some(palette(0))).count();
    let (x, y) = slot_center(6, 5);
    grid.handle_event(Event::MouseMotion { x, y });
    grid.handle_event(click(x, y));
    let frame = grid.render();
    assert_eq!(frame.len(), 200 + zeros);
    assert!(frame[..200].iter().all(|d| fill_color(d) != Some(palette(0))));
    // the clicked cell is drawn under the cursor
    assert!(frame[200..].contains(&Draw::Fill(Square { x: 240, y: 300, size: 40 }, palette(0))));
}

#[test]
fn pick_then_place_restores_grid() {
    let mut grid = laid_out_grid();
    let (x, y) = slot_center(6, 5);
    grid.handle_event(Event::MouseMotion { x, y });
    let before = grid.render();
    grid.handle_event(click(x, y));
    assert_ne!(grid.render(), before);
    grid.handle_event(click(x, y));
    assert_eq!(grid.render(), before);
}

#[test]
fn place_moves_cells_by_cursor_shift() {
    let mut grid = laid_out_grid();
    let (x, y) = slot_center(15, 9);
    grid.handle_event(Event::MouseMotion { x, y });
    grid.handle_event(click(x, y));
    // of the picture's B cells only the one at (15, 9) lies inside ten rows
    let (nx, ny) = slot_center(15, 0);
    grid.handle_event(Event::MouseMotion { x: nx, y: ny });
    grid.handle_event(click(nx, ny));
    let frame = grid.render();
    assert_eq!(frame.len(), 200);
    assert_eq!(fill_color(&frame[15]), Some(palette(11)));
    assert_eq!(fill_color(&frame[9 * 20 + 15]), None);
}

#[test]
fn placement_outside_grid_is_rejected() {
    let mut grid = laid_out_grid();
    let (x, y) = slot_center(6, 5);
    grid.handle_event(Event::MouseMotion { x, y });
    grid.handle_event(click(x, y));
    // the zeros reach 1 column left of the clicked one: at column 0 that is outside
    let (nx, ny) = slot_center(0, 1);
    grid.handle_event(Event::MouseMotion { x: nx, y: ny });
    let held = grid.render();
    grid.handle_event(click(nx, ny));
    assert_eq!(grid.render(), held);
}

#[test]
fn placement_onto_occupied_slot_is_rejected() {
    let mut grid = laid_out_grid();
    let (x, y) = slot_center(6, 5);
    grid.handle_event(Event::MouseMotion { x, y });
    grid.handle_event(click(x, y));
    // one row down, the zero at (5,6) would land on the 2 at (5,7)
    let (nx, ny) = slot_center(6, 6);
    grid.handle_event(Event::MouseMotion { x: nx, y: ny });
    let held = grid.render();
    grid.handle_event(click(nx, ny));
    assert_eq!(grid.render(), held);
}

#[test]
fn click_outside_grid_changes_nothing() {
    let mut grid = laid_out_grid();
    let before = grid.render();
    grid.handle_event(click(10, 10));
    grid.handle_event(click(800, 300));
    assert_eq!(grid.render(), before);
}

#[test]
fn click_on_empty_slot_with_nothing_held_changes_nothing() {
    let mut grid = laid_out_grid();
    let before = grid.render();
    let (x, y) = slot_center(0, 0);
    grid.handle_event(click(x, y));
    assert_eq!(grid.render(), before);
}

#[test]
fn other_buttons_and_events_are_ignored() {
    let mut grid = laid_out_grid();
    let before = grid.render();
    let (x, y) = slot_center(6, 5);
    grid.handle_event(Event::MouseButtonDown { button: MouseButton::Other, x, y });
    grid.handle_event(Event::Other);
    grid.handle_event(Event::KeyDown { key: Key::R, modifiers: NO_MODIFIERS });
    assert_eq!(grid.render(), before);
}

fn held_squares(grid: &Grid) -> Vec<(i64, i64)> {
    grid.render()[200..]
        .iter()
        .map(|d| match d {
            Draw::Fill(s, _) => (s.x, s.y),
            Draw::Outline(s, _) => (s.x, s.y),
        })
        .collect()
}

#[test]
fn keys_turn_and_mirror_held_cells() {
    let mut grid = laid_out_grid();
    let (x, y) = slot_center(9, 5);
    grid.handle_event(Event::MouseMotion { x, y });
    grid.handle_event(click(x, y));
    // color 1: (9, 5), (9, 6), (7, 7), (8, 7), (9, 7)
    let start = held_squares(&grid);
    assert_eq!(start[0], (360, 300));
    assert_eq!(start[1], (360, 340));
    let (cx, cy) = (x as i64, y as i64);
    grid.handle_event(Event::KeyDown { key: Key::R, modifiers: NO_MODIFIERS });
    // (0, 40) below the cursor turns to (-40, 0)
    assert_eq!(held_squares(&grid)[1], (cx - 40 - 20, cy - 20));
    grid.handle_event(Event::KeyDown { key: Key::R, modifiers: LEFT_SHIFT });
    assert_eq!(held_squares(&grid), start);
    grid.handle_event(Event::KeyDown { key: Key::H, modifiers: NO_MODIFIERS });
    assert_eq!(held_squares(&grid)[1], (cx - 20, cy - 40 - 20));
    grid.handle_event(Event::KeyDown { key: Key::H, modifiers: NO_MODIFIERS });
    grid.handle_event(Event::KeyDown { key: Key::V, modifiers: NO_MODIFIERS });
    // the cell at (7, 7) sits at (-80, 80) from the cursor and mirrors to (80, 80)
    assert_eq!(held_squares(&grid)[2], (cx + 80 - 20, cy + 80 - 20));
    grid.handle_event(Event::KeyDown { key: Key::V, modifiers: LEFT_SHIFT });
    assert_eq!(held_squares(&grid)[2], (cx + 80 - 20, cy + 80 - 20));
}

#[test]
fn game_lays_grid_out_in_margin_square() {
    let mut game = Game::new();
    game.calculate_layout(WINDOW);
    let frame = game.render();
    assert_eq!(frame.len(), 200);
    // square of 480 at (160, 60); slots of 24 from (160, 180)
    assert_eq!(frame[0], Draw::Outline(Square { x: 160, y: 180, size: 24 }, border_color()));
    assert_eq!(frame[5 * 20 + 6], Draw::Fill(Square { x: 160 + 6 * 24, y: 180 + 5 * 24, size: 24 }, palette(0)));
}

#[test]
fn game_passes_events_to_grid() {
    let mut game = Game::new();
    game.calculate_layout(WINDOW);
    let x = 160 + 6 * 24 + 12;
    let y = 180 + 5 * 24 + 12;
    game.handle_event(Event::MouseMotion { x, y });
    game.handle_event(click(x, y));
    assert!(game.render().len() > 200);
    game.handle_event(click(x, y));
    assert_eq!(game.render().len(), 200);
}

#[test]
fn layout_centers_whole_pixel_grid() {
    let mut grid = Grid::new(20, 10);
    grid.calculate_layout(Rect { x: 0, y: 0, width: 25, height: 25 });
    let frame = grid.render();
    // side 1: 20 by 10 pixels, margins 2 and 3 across, 7 and 8 down
    assert_eq!(frame[0], Draw::Outline(Square { x: 2, y: 7, size: 1 }, border_color()));
    assert_eq!(frame[199], Draw::Outline(Square { x: 21, y: 16, size: 1 }, border_color()));
}

#[test]
fn layout_centers_in_offset_box() {
    let mut grid = Grid::new(20, 10);
    grid.calculate_layout(Rect { x: 10, y: -5, width: 101, height: 30 });
    let frame = grid.render();
    // side 3: 60 by 30 pixels, (101 - 60) / 2 = 20 to the left
    assert_eq!(frame[0], Draw::Outline(Square { x: 30, y: -5, size: 3 }, border_color()));
}

#[test]
fn offsets_are_kept_from_click_point() {
    let mut grid = laid_out_grid();
    // no motion first: the cursor is still at (0, 0)
    let (x, y) = slot_center(6, 5);
    grid.handle_event(click(x, y));
    let frame = grid.render();
    assert!(frame[200..].contains(&Draw::Fill(Square { x: -20, y: -20, size: 40 }, palette(0))));
    // putting them back at the same point restores the picture
    grid.handle_event(click(x, y));
    assert_eq!(grid.render(), laid_out_grid().render());
}

#[test]
fn placement_onto_one_slot_twice_is_rejected() {
    let mut grid = Grid::new(20, 10);
    grid.calculate_layout(Rect { x: 0, y: 0, width: 480, height: 480 });
    // slots of 24 from (0, 120): pick up the zeros at (6, 5)
    let (x, y) = (6 * 24 + 12, 120 + 5 * 24 + 12);
    grid.handle_event(Event::MouseMotion { x, y });
    grid.handle_event(click(x, y));
    // with slots of 40 the offsets (24, 24) and (48, 24) fall into one slot
    grid.calculate_layout(WINDOW);
    let (nx, ny) = slot_center(10, 2);
    grid.handle_event(Event::MouseMotion { x: nx, y: ny });
    let held = grid.render();
    assert_eq!(held.len(), 205);
    grid.handle_event(click(nx, ny));
    assert_eq!(grid.render(), held);
}
