use grid_puzzle::math::{best_fit_inside, Fit};
use grid_puzzle::shapes::{Point, Rect};

fn check_fit_laws(fit: &Fit, a_width: u32, a_height: u32, b_width: u32, b_height: u32) {
    let aw = a_width as u128;
    let ah = a_height as u128;
    let bw = b_width as u128;
    let bh = b_height as u128;
    assert!(fit.denominator > 0);
    assert_eq!(fit.width, bw * fit.scale);
    assert_eq!(fit.height, bh * fit.scale);
    assert_eq!(fit.width * bh, fit.height * bw);
    assert_eq!(2 * fit.offset_x + fit.width, aw * fit.denominator);
    assert_eq!(2 * fit.offset_y + fit.height, ah * fit.denominator);
    assert!(fit.offset_x + fit.width <= aw * fit.denominator);
    assert!(fit.offset_y + fit.height <= ah * fit.denominator);
}

#[test]
fn fit_wide_box_fills_height() {
    let fit = best_fit_inside(800, 600, 1, 1);
    assert_eq!(
        fit,
        Fit { offset_x: 200, offset_y: 0, width: 1200, height: 1200, scale: 1200, denominator: 2 }
    );
    check_fit_laws(&fit, 800, 600, 1, 1);
}

#[test]
fn fit_tall_box_fills_width() {
    let fit = best_fit_inside(600, 800, 1, 1);
    assert_eq!(
        fit,
        Fit { offset_x: 0, offset_y: 200, width: 1200, height: 1200, scale: 1200, denominator: 2 }
    );
    check_fit_laws(&fit, 600, 800, 1, 1);
}

#[test]
fn fit_equal_ratios_fit_by_height() {
    let fit = best_fit_inside(800, 400, 2, 1);
    assert_eq!(fit.denominator, 2);
    assert_eq!(fit.scale, 800);
    assert_eq!(fit.offset_x, 0);
    assert_eq!(fit.offset_y, 0);
    assert_eq!(fit.height, 400 * fit.denominator);
    assert_eq!(fit.width, 800 * fit.denominator);
    check_fit_laws(&fit, 800, 400, 2, 1);
}

#[test]
fn fit_grid_ratio_in_window() {
    let fit = best_fit_inside(800, 600, 20, 10);
    assert_eq!(fit.denominator, 40);
    assert_eq!(fit.scale, 1600);
    assert_eq!(fit.offset_x, 0);
    assert_eq!(fit.offset_y, 4000);
    check_fit_laws(&fit, 800, 600, 20, 10);
}

#[test]
fn fit_odd_sizes_stay_exact() {
    let fit = best_fit_inside(7, 5, 3, 2);
    // 7 * 2 >= 3 * 5 is false: the width decides
    assert_eq!(fit.denominator, 6);
    assert_eq!(fit.scale, 14);
    assert_eq!(fit.offset_y, 5 * 3 - 2 * 7);
    check_fit_laws(&fit, 7, 5, 3, 2);
}

#[test]
fn fit_empty_box() {
    let fit = best_fit_inside(0, 0, 3, 2);
    assert_eq!(fit.width, 0);
    assert_eq!(fit.height, 0);
    assert_eq!(fit.offset_x, 0);
    assert_eq!(fit.offset_y, 0);
    check_fit_laws(&fit, 0, 0, 3, 2);
}

#[test]
fn fit_largest_sizes() {
    let fit = best_fit_inside(u32::MAX, u32::MAX - 1, u32::MAX, 1);
    check_fit_laws(&fit, u32::MAX, u32::MAX - 1, u32::MAX, 1);
    assert_eq!(fit.width, u32::MAX as u128 * fit.denominator);
}

#[test]
fn rect_contains_edges() {
    let r = Rect { x: 1, y: 2, width: 3, height: 4 };
    assert!(r.contains_point(Point { x: 1, y: 2 }));
    assert!(!r.contains_point(Point { x: 0, y: 1 }));
    assert!(r.contains_point(Point { x: 3, y: 5 }));
    assert!(!r.contains_point(Point { x: 4, y: 6 }));
    assert!(!r.contains_point(Point { x: 4, y: 5 }));
    assert!(!r.contains_point(Point { x: 3, y: 6 }));
    let empty = Rect { x: 0, y: 0, width: 0, height: 0 };
    assert!(!empty.contains_point(Point { x: 0, y: 0 }));
}
