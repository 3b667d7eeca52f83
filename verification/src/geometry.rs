use vstd::prelude::*;

verus! {

/// An axis-aligned rectangle in screen coordinates.
#[derive(Debug, Clone, Copy, PartialEq, Eq, Structural)]
pub struct Rect {
    pub x: i32,
    pub y: i32,
    pub width: i32,
    pub height: i32,
}

/// Gaps between tiled windows (`inner_*`) and between windows and the screen edge.
#[derive(Debug, Clone, Copy, PartialEq, Eq, Structural)]
pub struct Gaps {
    pub inner_h: i32,
    pub inner_v: i32,
    pub outer_left: i32,
    pub outer_right: i32,
    pub outer_top: i32,
    pub outer_bottom: i32,
}

/// Whether an integer lies in the range of `i32`.
pub open spec fn in_i32(v: int) -> bool {
    i32::MIN <= v <= i32::MAX
}

/// Integer division rounding toward zero, as Rust's `/` does, for a positive divisor.
pub open spec fn div_trunc(a: int, b: int) -> int {
    if a >= 0 {
        a / b
    } else {
        -((-a) / b)
    }
}

/// The rectangle with the given coordinates, which must lie in the `i32` range.
pub open spec fn rect_of(x: int, y: int, width: int, height: int) -> Rect {
    Rect { x: x as i32, y: y as i32, width: width as i32, height: height as i32 }
}

impl Gaps {
    /// The rectangle `area` with the outer gaps taken off each side, in unbounded
    /// arithmetic.
    pub open spec fn shrunk(self, area: Rect) -> (int, int, int, int) {
        (
            area.x + self.outer_left,
            area.y + self.outer_top,
            area.width - self.outer_left - self.outer_right,
            area.height - self.outer_top - self.outer_bottom,
        )
    }

    /// The rectangle that `shrink` returns.
    pub open spec fn spec_shrink(self, area: Rect) -> Rect {
        let (x, y, w, h) = self.shrunk(area);
        rect_of(x, y, w, h)
    }

    /// Whether every step of `shrink` stays in the range of `i32`.
    pub open spec fn shrink_fits(self, area: Rect) -> bool {
        &&& in_i32(area.x + self.outer_left)
        &&& in_i32(area.y + self.outer_top)
        &&& in_i32(area.width - self.outer_left)
        &&& in_i32(area.width - self.outer_left - self.outer_right)
        &&& in_i32(area.height - self.outer_top)
        &&& in_i32(area.height - self.outer_top - self.outer_bottom)
    }

    /// Whether every step of `shrink` stays in the range of `i32`.
    pub fn shrink_fits_exec(&self, area: Rect) -> (r: bool)
        ensures
            r == self.shrink_fits(area),
    {
        let x = area.x as i64 + self.outer_left as i64;
        let y = area.y as i64 + self.outer_top as i64;
        let w1 = area.width as i64 - self.outer_left as i64;
        let w2 = w1 - self.outer_right as i64;
        let h1 = area.height as i64 - self.outer_top as i64;
        let h2 = h1 - self.outer_bottom as i64;
        let lo = i32::MIN as i64;
        let hi = i32::MAX as i64;
        lo <= x && x <= hi && lo <= y && y <= hi && lo <= w1 && w1 <= hi && lo <= w2 && w2 <= hi
            && lo <= h1 && h1 <= hi && lo <= h2 && h2 <= hi
    }

    /// The area left inside the outer gaps.
    pub fn shrink(&self, area: Rect) -> (r: Rect)
        requires
            self.shrink_fits(area),
        ensures
            r.x == area.x + self.outer_left,
            r.y == area.y + self.outer_top,
            r.width == area.width - self.outer_left - self.outer_right,
            r.height == area.height - self.outer_top - self.outer_bottom,
            r == self.spec_shrink(area),
    {
        Rect {
            x: area.x + self.outer_left,
            y: area.y + self.outer_top,
            width: area.width - self.outer_left - self.outer_right,
            height: area.height - self.outer_top - self.outer_bottom,
        }
    }
}

} // verus!
