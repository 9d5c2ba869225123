use vstd::prelude::*;

verus! {

/// The largest rectangle of a given aspect ratio that fits, centered, inside a box.
///
/// Every length is a numerator over `denominator`, so that the fit is exact:
/// the rectangle starts at `(offset_x, offset_y) / denominator` inside the box,
/// measures `(width, height) / denominator`, and one unit of the aspect ratio
/// measures `scale / denominator`.
#[derive(Clone, Copy, Debug, PartialEq, Eq, Structural)]
pub struct Fit {
    pub offset_x: u128,
    pub offset_y: u128,
    pub width: u128,
    pub height: u128,
    pub scale: u128,
    pub denominator: u128,
}

/// Whether a box of `a_width` by `a_height` is at least as wide, relative to its
/// height, as the ratio `b_width : b_height`; the fit is then decided by height.
pub open spec fn fits_by_height(a_width: int, a_height: int, b_width: int, b_height: int) -> bool {
    a_width * b_height >= b_width * a_height
}

/// The exact fit of the ratio `b_width : b_height` inside a box of `a_width` by `a_height`.
pub open spec fn best_fit_spec(a_width: int, a_height: int, b_width: int, b_height: int) -> Fit {
    if fits_by_height(a_width, a_height, b_width, b_height) {
        Fit {
            offset_x: (a_width * b_height - b_width * a_height) as u128,
            offset_y: 0,
            width: (2 * b_width * a_height) as u128,
            height: (2 * b_height * a_height) as u128,
            scale: (2 * a_height) as u128,
            denominator: (2 * b_height) as u128,
        }
    } else {
        Fit {
            offset_x: 0,
            offset_y: (a_height * b_width - b_height * a_width) as u128,
            width: (2 * b_width * a_width) as u128,
            height: (2 * b_height * a_width) as u128,
            scale: (2 * a_width) as u128,
            denominator: (2 * b_width) as u128,
        }
    }
}

/// Finds the largest rectangle with the aspect ratio `b_width : b_height` that fits
/// inside a box of `a_width` by `a_height`, centered in it.
///
/// When the box is at least as wide as the ratio, the rectangle fills the box's
/// height and is centered horizontally; otherwise it fills the width and is
/// centered vertically.
pub fn best_fit_inside(a_width: u32, a_height: u32, b_width: u32, b_height: u32) -> (fit: Fit)
    requires
        b_width > 0,
        b_height > 0,
    ensures
        fit == best_fit_spec(a_width as int, a_height as int, b_width as int, b_height as int),
        fit.denominator > 0,
        // the rectangle is one scale applied to both sides of the ratio
        fit.width == b_width * fit.scale,
        fit.height == b_height * fit.scale,
        fit.width * b_height == fit.height * b_width,
        // it is centered in the box
        2 * fit.offset_x + fit.width == a_width * fit.denominator,
        2 * fit.offset_y + fit.height == a_height * fit.denominator,
        // it lies inside the box
        fit.offset_x + fit.width <= a_width * fit.denominator,
        fit.offset_y + fit.height <= a_height * fit.denominator,
        // and it touches two opposite sides of the box
        fits_by_height(a_width as int, a_height as int, b_width as int, b_height as int)
            ==> fit.height == a_height * fit.denominator,
        !fits_by_height(a_width as int, a_height as int, b_width as int, b_height as int)
            ==> fit.width == a_width * fit.denominator,
{
    let aw = a_width as u128;
    let ah = a_height as u128;
    let bw = b_width as u128;
    let bh = b_height as u128;
    assert(aw * bh <= u32::MAX * u32::MAX && bw * ah <= u32::MAX * u32::MAX) by (nonlinear_arith)
        requires
            aw <= u32::MAX,
            ah <= u32::MAX,
            bw <= u32::MAX,
            bh <= u32::MAX,
    ;
    assert(2 * bw * ah <= 2 * (u32::MAX * u32::MAX) && 2 * bh * ah <= 2 * (u32::MAX * u32::MAX)
        && 2 * bw * aw <= 2 * (u32::MAX * u32::MAX) && 2 * bh * aw <= 2 * (u32::MAX
        * u32::MAX)) by (nonlinear_arith)
        requires
            aw <= u32::MAX,
            ah <= u32::MAX,
            bw <= u32::MAX,
            bh <= u32::MAX,
    ;
    if aw * bh >= bw * ah {
        let fit = Fit {
            offset_x: aw * bh - bw * ah,
            offset_y: 0,
            width: 2 * bw * ah,
            height: 2 * bh * ah,
            scale: 2 * ah,
            denominator: 2 * bh,
        };
        assert(fit.width == bw * fit.scale && fit.height == bh * fit.scale
            && fit.width * bh == fit.height * bw && fit.height == ah * fit.denominator
            && 2 * fit.offset_x + fit.width == aw * fit.denominator) by (nonlinear_arith)
            requires
                fit.offset_x == aw * bh - bw * ah,
                fit.width == 2 * bw * ah,
                fit.height == 2 * bh * ah,
                fit.scale == 2 * ah,
                fit.denominator == 2 * bh,
        ;
        fit
    } else {
        let fit = Fit {
            offset_x: 0,
            offset_y: ah * bw - bh * aw,
            width: 2 * bw * aw,
            height: 2 * bh * aw,
            scale: 2 * aw,
            denominator: 2 * bw,
        };
        assert(fit.width == bw * fit.scale && fit.height == bh * fit.scale
            && fit.width * bh == fit.height * bw && fit.width == aw * fit.denominator
            && 2 * fit.offset_y + fit.height == ah * fit.denominator) by (nonlinear_arith)
            requires
                fit.offset_y == ah * bw - bh * aw,
                fit.width == 2 * bw * aw,
                fit.height == 2 * bh * aw,
                fit.scale == 2 * aw,
                fit.denominator == 2 * bw,
        ;
        fit
    }
}

} // verus!
