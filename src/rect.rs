use vstd::prelude::*;

verus! {

/// Number of the east-north quadrant.
pub const EAST_NORTH: i64 = 0;

/// Number of the west-north quadrant.
pub const WEST_NORTH: i64 = 1;

/// Number of the west-south quadrant.
pub const WEST_SOUTH: i64 = 2;

/// Number of the east-south quadrant.
pub const EAST_SOUTH: i64 = 3;

/// Returned by classification when no single quadrant holds the rectangle.
pub const NO_QUADRANT: i64 = -1;

/// An axis-aligned rectangle: top-left corner `(x, y)`, width `w`, height `h`.
#[derive(Debug, Clone, Copy, PartialEq, Eq, Structural, Hash)]
pub struct Rect {
    pub x: i64,
    pub y: i64,
    pub w: i64,
    pub h: i64,
}

/// Half of `v`, rounded toward zero as integer division does.
pub open spec fn half(v: int) -> int {
    if v >= 0 {
        v / 2
    } else {
        -((-v) / 2)
    }
}

/// The vertical midline of `b`.
pub open spec fn mid_x(b: Rect) -> int {
    b.x + half(b.w as int)
}

/// The horizontal midline of `b`.
pub open spec fn mid_y(b: Rect) -> int {
    b.y + half(b.h as int)
}

/// `o` lies strictly left of the vertical midline of `b`.
pub open spec fn is_west(b: Rect, o: Rect) -> bool {
    o.x < mid_x(b) && o.x + o.w < mid_x(b)
}

/// `o` starts strictly right of the vertical midline of `b`.
pub open spec fn is_east(b: Rect, o: Rect) -> bool {
    o.x > mid_x(b)
}

/// `o` lies strictly above the horizontal midline of `b`.
pub open spec fn is_north(b: Rect, o: Rect) -> bool {
    o.y < mid_y(b) && o.y + o.h < mid_y(b)
}

/// `o` starts strictly below the horizontal midline of `b`.
pub open spec fn is_south(b: Rect, o: Rect) -> bool {
    o.y > mid_y(b)
}

/// The quadrant of `b` that holds `o` entirely, or `NO_QUADRANT` when `o`
/// crosses or touches a midline.
pub open spec fn quadrant_of(b: Rect, o: Rect) -> int {
    if is_west(b, o) && is_north(b, o) {
        WEST_NORTH as int
    } else if is_west(b, o) && is_south(b, o) {
        WEST_SOUTH as int
    } else if is_east(b, o) && is_north(b, o) {
        EAST_NORTH as int
    } else if is_east(b, o) && is_south(b, o) {
        EAST_SOUTH as int
    } else {
        NO_QUADRANT as int
    }
}

/// The bounds of quadrant `i` of `b`: each quadrant has the halved size and
/// sits at the corner or at the midpoint offset that its name gives.
pub open spec fn quadrant_bounds(b: Rect, i: int) -> Rect {
    let hw = half(b.w as int) as i64;
    let hh = half(b.h as int) as i64;
    let x = b.x;
    let y = b.y;
    if i == EAST_NORTH as int {
        Rect { x: (x + hw) as i64, y, w: hw, h: hh }
    } else if i == WEST_NORTH as int {
        Rect { x, y, w: hw, h: hh }
    } else if i == WEST_SOUTH as int {
        Rect { x, y: (y + hh) as i64, w: hw, h: hh }
    } else {
        Rect { x: (x + hw) as i64, y: (y + hh) as i64, w: hw, h: hh }
    }
}

impl Rect {
    pub fn new(x: i64, y: i64, w: i64, h: i64) -> (r: Rect)
        ensures
            r == (Rect { x, y, w, h }),
    {
        Rect { x, y, w, h }
    }

    /// Half the width and half the height, rounded toward zero.
    pub fn get_sub_dimensions(&self) -> (r: (i64, i64))
        ensures
            r.0 as int == half(self.w as int),
            r.1 as int == half(self.h as int),
    {
        (self.w / 2, self.h / 2)
    }

    /// The top-left corner.
    pub fn get_x_and_y(&self) -> (r: (i64, i64))
        ensures
            r == (self.x, self.y),
    {
        (self.x, self.y)
    }

    /// Which quadrant of `self` holds `n_rect` entirely: `EAST_NORTH`,
    /// `WEST_NORTH`, `WEST_SOUTH` or `EAST_SOUTH`, else `NO_QUADRANT`.
    pub fn contains_rect(&self, n_rect: &Rect) -> (r: i64)
        ensures
            r as int == quadrant_of(*self, *n_rect),
    {
        let vertical_mid_point: i128 = self.x as i128 + (self.w / 2) as i128;
        let horizontal_mid_point: i128 = self.y as i128 + (self.h / 2) as i128;
        let left: i128 = n_rect.x as i128;
        let top: i128 = n_rect.y as i128;
        let right: i128 = left + n_rect.w as i128;
        let bottom: i128 = top + n_rect.h as i128;

        let end_is_west = left < vertical_mid_point && right < vertical_mid_point;
        let end_is_east = left > vertical_mid_point;
        let start_is_north = top < horizontal_mid_point && bottom < horizontal_mid_point;
        let start_is_south = top > horizontal_mid_point;

        if end_is_west && start_is_north {
            WEST_NORTH
        } else if end_is_west && start_is_south {
            WEST_SOUTH
        } else if end_is_east && start_is_north {
            EAST_NORTH
        } else if end_is_east && start_is_south {
            EAST_SOUTH
        } else {
            NO_QUADRANT
        }
    }
}

impl Default for Rect {
    fn default() -> (r: Rect)
        ensures
            r == (Rect { x: 0, y: 0, w: 0, h: 0 }),
    {
        Rect { x: 0, y: 0, w: 0, h: 0 }
    }
}

} // verus!
