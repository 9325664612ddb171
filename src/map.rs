use vstd::prelude::*;
use crate::tile_type::{TileType, walkable, adjustment};

verus! {

/// A point in world space, in world units.
#[derive(Debug, Clone, Copy, PartialEq, Eq, Structural)]
pub struct WorldPos {
    pub x: i32,
    pub y: i32,
}

/// A cell coordinate on the grid.
#[derive(Debug, Clone, Copy, PartialEq, Eq, Structural)]
pub struct GridPos {
    pub x: i32,
    pub y: i32,
}

/// Mathematical model of a collision map.
pub ghost struct GridView {
    pub width: int,
    pub height: int,
    pub tile_size: int,
    pub origin_x: int,
    pub origin_y: int,
    /// Row-major cells: cell (x, y) sits at `y * width + x`.
    pub cells: Seq<TileType>,
}

/// `v` saturated into the range of `i32`.
pub open spec fn saturate_i32(v: int) -> int {
    if v < i32::MIN {
        i32::MIN as int
    } else if v > i32::MAX {
        i32::MAX as int
    } else {
        v
    }
}

impl GridView {
    /// Well-formed: positive tile size, one cell per grid position, and the
    /// whole grid lies inside the `i32` world coordinate range.
    pub open spec fn wf(self) -> bool {
        &&& 0 <= self.width <= i32::MAX
        &&& 0 <= self.height <= i32::MAX
        &&& 1 <= self.tile_size <= i32::MAX
        &&& i32::MIN <= self.origin_x
        &&& i32::MIN <= self.origin_y
        &&& self.origin_x + self.width * self.tile_size <= i32::MAX
        &&& self.origin_y + self.height * self.tile_size <= i32::MAX
        &&& self.cells.len() == self.width * self.height
        &&& self.width * self.height <= usize::MAX
    }

    pub open spec fn in_bounds(self, x: int, y: int) -> bool {
        0 <= x < self.width && 0 <= y < self.height
    }

    pub open spec fn index(self, x: int, y: int) -> int {
        y * self.width + x
    }

    pub open spec fn tile(self, x: int, y: int) -> TileType {
        self.cells[self.index(x, y)]
    }

    /// The cell's category, or `None` off the grid.
    pub open spec fn get(self, x: int, y: int) -> Option<TileType> {
        if self.in_bounds(x, y) {
            Some(self.tile(x, y))
        } else {
            None
        }
    }

    /// On the grid and of a walkable category.
    pub open spec fn walkable_at(self, x: int, y: int) -> bool {
        self.in_bounds(x, y) && walkable(self.tile(x, y))
    }

    /// The map with cell (x, y) set to `t`; unchanged off the grid.
    pub open spec fn with_tile(self, x: int, y: int, t: TileType) -> GridView {
        if self.in_bounds(x, y) {
            GridView { cells: self.cells.update(self.index(x, y), t), ..self }
        } else {
            self
        }
    }

    /// Column holding world x-coordinate `px` (floor division).
    pub open spec fn column_of(self, px: int) -> int {
        (px - self.origin_x) / self.tile_size
    }

    /// Row holding world y-coordinate `py` (floor division).
    pub open spec fn row_of(self, py: int) -> int {
        (py - self.origin_y) / self.tile_size
    }

    /// World x-coordinate of the centre of column `gx`.
    pub open spec fn center_x(self, gx: int) -> int {
        self.origin_x + gx * self.tile_size + self.tile_size / 2
    }

    /// World y-coordinate of the centre of row `gy`.
    pub open spec fn center_y(self, gy: int) -> int {
        self.origin_y + gy * self.tile_size + self.tile_size / 2
    }

    /// The circle's bounding square lies inside the grid's world rectangle.
    pub open spec fn within_bounds(self, cx: int, cy: int, r: int) -> bool {
        &&& cx - r >= self.origin_x
        &&& cx + r <= self.origin_x + self.width * self.tile_size
        &&& cy - r >= self.origin_y
        &&& cy + r <= self.origin_y + self.height * self.tile_size
    }

    /// The circle around (cx, cy), its radius `r` changed by the category
    /// adjustment of cell (gx, gy), reaches that cell's square: the square's
    /// point nearest the centre is at most the adjusted radius away. Lengths
    /// are compared in hundredths of a world unit.
    pub open spec fn touches_tile(self, cx: int, cy: int, r: int, gx: int, gy: int) -> bool {
        let t = self.tile_size;
        let lo_x = self.origin_x + gx * t;
        let lo_y = self.origin_y + gy * t;
        let dx = cx - clamp(cx, lo_x, lo_x + t);
        let dy = cy - clamp(cy, lo_y, lo_y + t);
        let reach = 100 * r + adjustment(self.tile(gx, gy)) * t;
        10000 * (dx * dx + dy * dy) <= reach * reach
    }

    /// Cell (gx, gy) lets the circle through: it is on the grid, and it is
    /// walkable or out of the circle's reach.
    pub open spec fn cell_allows(self, cx: int, cy: int, r: int, gx: int, gy: int) -> bool {
        self.in_bounds(gx, gy) && (walkable(self.tile(gx, gy)) || !self.touches_tile(
            cx,
            cy,
            r,
            gx,
            gy,
        ))
    }

    /// A circle of radius `r` at (cx, cy) overlaps nothing that blocks. A
    /// radius of zero or less checks the centre's cell only; otherwise every
    /// cell that meets the circle's bounding square must let it through.
    pub open spec fn circle_clear(self, cx: int, cy: int, r: int) -> bool {
        &&& self.within_bounds(cx, cy, r)
        &&& if r <= 0 {
            self.walkable_at(self.column_of(cx), self.row_of(cy))
        } else {
            forall|gx: int, gy: int|
                self.column_of(cx - r) <= gx <= self.column_of(cx + r) && self.row_of(cy - r) <= gy
                    <= self.row_of(cy + r) ==> #[trigger] self.cell_allows(cx, cy, r, gx, gy)
        }
    }

    /// Where a sweep cut into `n` steps ends, continuing from (px, py) after
    /// step `k`. Each step tries the full step, then the step's x part alone,
    /// then its y part alone, and takes the first whose circle is clear; when
    /// none is, the walk stops where it stands.
    pub open spec fn walk(self, px: int, py: int, dx: int, dy: int, n: int, k: int, r: int) -> (
        int,
        int,
    )
        decreases n - k,
    {
        if k >= n {
            (px, py)
        } else {
            let cx = px + waypoint(dx, k + 1, n) - waypoint(dx, k, n);
            let cy = py + waypoint(dy, k + 1, n) - waypoint(dy, k, n);
            if self.circle_clear(cx, cy, r) {
                self.walk(cx, cy, dx, dy, n, k + 1, r)
            } else if self.circle_clear(cx, py, r) {
                self.walk(cx, py, dx, dy, n, k + 1, r)
            } else if self.circle_clear(px, cy, r) {
                self.walk(px, cy, dx, dy, n, k + 1, r)
            } else {
                (px, py)
            }
        }
    }

    /// Where a circle of radius `r` moving from (sx, sy) towards (ex, ey)
    /// comes to rest. No displacement leaves it where it is.
    pub open spec fn sweep(self, sx: int, sy: int, ex: int, ey: int, r: int) -> (int, int) {
        if sx == ex && sy == ey {
            (sx, sy)
        } else {
            let n = step_count(ex - sx, ey - sy, self.tile_size);
            self.walk(sx, sy, ex - sx, ey - sy, n, 0, r)
        }
    }
}

/// `n` steps of a quarter tile `t` each cover a displacement (dx, dy), and
/// `n` is the least positive count that does.
pub open spec fn is_step_count(n: int, dx: int, dy: int, t: int) -> bool {
    &&& n >= 1
    &&& 16 * (dx * dx + dy * dy) <= (n * t) * (n * t)
    &&& (n == 1 || ((n - 1) * t) * ((n - 1) * t) < 16 * (dx * dx + dy * dy))
}

/// The number of steps a sweep of displacement (dx, dy) is cut into: the
/// length divided by a quarter tile, rounded up, and at least one.
pub open spec fn step_count(dx: int, dy: int, t: int) -> int {
    choose|n: int| is_step_count(n, dx, dy, t)
}

/// Offset of waypoint `k` of `n` along a displacement `d`, rounded down.
pub open spec fn waypoint(d: int, k: int, n: int) -> int {
    (d * k) / n
}

/// `v` limited to the interval [lo, hi].
pub open spec fn clamp(v: int, lo: int, hi: int) -> int {
    if v < lo {
        lo
    } else if v > hi {
        hi
    } else {
        v
    }
}

/// Grid of tile categories used for collision queries.
pub struct CollisionMap {
    tiles: Vec<TileType>,
    width: i32,
    height: i32,
    tile_size: i32,
    origin_x: i32,
    origin_y: i32,
}

impl View for CollisionMap {
    type V = GridView;

    closed spec fn view(&self) -> GridView {
        GridView {
            width: self.width as int,
            height: self.height as int,
            tile_size: self.tile_size as int,
            origin_x: self.origin_x as int,
            origin_y: self.origin_y as int,
            cells: self.tiles@,
        }
    }
}

/// `a / b` rounded towards negative infinity.
pub(crate) fn floor_div(a: i128, b: i128) -> (r: i128)
    requires
        b > 0,
        a > i128::MIN,
    ensures
        r == a as int / b as int,
{
    if a >= 0 {
        let q = (a as u128 / b as u128) as i128;
        proof {
            vstd::arithmetic::div_mod::lemma_div_is_ordered_by_denominator(a as int, 1, b as int);
        }
        q
    } else {
        let m = (-a - 1) as u128;
        let q = (m / b as u128) as i128;
        proof {
            let bi = b as int;
            let mi = m as int;
            let qi = q as int;
            vstd::arithmetic::div_mod::lemma_fundamental_div_mod(mi, bi);
            vstd::arithmetic::div_mod::lemma_mod_pos_bound(mi, bi);
            vstd::arithmetic::div_mod::lemma_div_is_ordered_by_denominator(mi, 1, bi);
            let rm = mi % bi;
            assert(a == (-qi - 1) * bi + (bi - 1 - rm)) by (nonlinear_arith)
                requires
                    mi == bi * qi + rm,
                    mi == -a - 1,
            ;
            vstd::arithmetic::div_mod::lemma_fundamental_div_mod_converse(
                a as int,
                bi,
                -qi - 1,
                bi - 1 - rm,
            );
        }
        -q - 1
    }
}

impl CollisionMap {
    /// A `width` × `height` map whose cells are all `Empty`.
    pub fn new(width: i32, height: i32, tile_size: i32, origin_x: i32, origin_y: i32) -> (r:
        CollisionMap)
        requires
            width >= 0,
            height >= 0,
            tile_size >= 1,
            origin_x + width * tile_size <= i32::MAX,
            origin_y + height * tile_size <= i32::MAX,
            width * height <= usize::MAX,
        ensures
            r@.wf(),
            r@.width == width,
            r@.height == height,
            r@.tile_size == tile_size,
            r@.origin_x == origin_x,
            r@.origin_y == origin_y,
            forall|i: int| 0 <= i < r@.cells.len() ==> r@.cells[i] == TileType::Empty,
    {
        let size = (width as usize) * (height as usize);
        let mut tiles: Vec<TileType> = Vec::new();
        let mut i: usize = 0;
        while i < size
            invariant
                i <= size,
                tiles@.len() == i,
                forall|j: int| 0 <= j < i ==> tiles@[j] == TileType::Empty,
            decreases size - i,
        {
            tiles.push(TileType::Empty);
            i = i + 1;
        }
        CollisionMap { tiles, width, height, tile_size, origin_x, origin_y }
    }

    fn xy_to_idx(&self, x: i32, y: i32) -> (r: usize)
        requires
            self@.wf(),
            self@.in_bounds(x as int, y as int),
        ensures
            r == self@.index(x as int, y as int),
            r < self@.cells.len(),
    {
        proof {
            let w = self.width as int;
            let h = self.height as int;
            assert(0 <= y * w && 0 <= y * w + x < w * h) by (nonlinear_arith)
                requires
                    0 <= x < w,
                    0 <= y < h,
            ;
        }
        (y as usize) * (self.width as usize) + (x as usize)
    }

    pub fn in_bounds(&self, x: i32, y: i32) -> (r: bool)
        ensures
            r == self@.in_bounds(x as int, y as int),
    {
        x >= 0 && x < self.width && y >= 0 && y < self.height
    }

    /// The cell holding a world position. A coordinate beyond the `i32`
    /// range saturates, which keeps it off the grid.
    pub fn world_to_grid(&self, world_pos: WorldPos) -> (r: GridPos)
        requires
            self@.wf(),
        ensures
            r.x == saturate_i32(self@.column_of(world_pos.x as int)),
            r.y == saturate_i32(self@.row_of(world_pos.y as int)),
            self@.in_bounds(r.x as int, r.y as int) <==> self@.in_bounds(
                self@.column_of(world_pos.x as int),
                self@.row_of(world_pos.y as int),
            ),
    {
        let gx = floor_div(world_pos.x as i128 - self.origin_x as i128, self.tile_size as i128);
        let gy = floor_div(world_pos.y as i128 - self.origin_y as i128, self.tile_size as i128);
        GridPos { x: saturate(gx), y: saturate(gy) }
    }

    /// Centre of cell (grid_x, grid_y) in world space.
    pub fn grid_to_world(&self, grid_x: i32, grid_y: i32) -> (r: WorldPos)
        requires
            self@.wf(),
            i32::MIN <= self@.center_x(grid_x as int) <= i32::MAX,
            i32::MIN <= self@.center_y(grid_y as int) <= i32::MAX,
        ensures
            r.x == self@.center_x(grid_x as int),
            r.y == self@.center_y(grid_y as int),
    {
        let t = self.tile_size as i64;
        proof {
            let g = grid_x as int;
            let ti = t as int;
            assert(-0x8000_0000 * 0x8000_0000 <= g * ti <= 0x8000_0000 * 0x8000_0000)
                by (nonlinear_arith)
                requires
                    -0x8000_0000 <= g < 0x8000_0000,
                    1 <= ti < 0x8000_0000,
            ;
            let gy = grid_y as int;
            assert(-0x8000_0000 * 0x8000_0000 <= gy * ti <= 0x8000_0000 * 0x8000_0000)
                by (nonlinear_arith)
                requires
                    -0x8000_0000 <= gy < 0x8000_0000,
                    1 <= ti < 0x8000_0000,
            ;
        }
        let x = self.origin_x as i64 + grid_x as i64 * t + t / 2;
        let y = self.origin_y as i64 + grid_y as i64 * t + t / 2;
        WorldPos { x: x as i32, y: y as i32 }
    }

    pub fn get_tile(&self, x: i32, y: i32) -> (r: Option<TileType>)
        requires
            self@.wf(),
        ensures
            r == self@.get(x as int, y as int),
    {
        if self.in_bounds(x, y) {
            Some(self.tiles[self.xy_to_idx(x, y)])
        } else {
            None
        }
    }

    /// Sets cell (x, y); does nothing off the grid.
    pub fn set_tile(&mut self, x: i32, y: i32, tile: TileType)
        requires
            old(self)@.wf(),
        ensures
            final(self)@ == old(self)@.with_tile(x as int, y as int, tile),
            final(self)@.wf(),
    {
        if self.in_bounds(x, y) {
            let idx = self.xy_to_idx(x, y);
            self.tiles.set(idx, tile);
        }
    }

    pub fn is_walkable(&self, x: i32, y: i32) -> (r: bool)
        requires
            self@.wf(),
        ensures
            r == self@.walkable_at(x as int, y as int),
    {
        match self.get_tile(x, y) {
            Some(tile) => tile.is_walkable(),
            None => false,
        }
    }

    /// Whether the cell holding a world position is walkable.
    pub fn is_world_pos_walkable(&self, world_pos: WorldPos) -> (r: bool)
        requires
            self@.wf(),
        ensures
            r == self@.walkable_at(
                self@.column_of(world_pos.x as int),
                self@.row_of(world_pos.y as int),
            ),
    {
        let g = self.world_to_grid(world_pos);
        self.is_walkable(g.x, g.y)
    }

    /// Whether a circle of `radius` at `center`, with the radius adjusted for
    /// the category `tile` of cell (gx, gy), reaches that cell's square.
    fn circle_intersects_tile(&self, center: WorldPos, radius: i32, tile: TileType, gx: i32, gy: i32) -> (r: bool)
        requires
            self@.wf(),
            self@.in_bounds(gx as int, gy as int),
            tile == self@.tile(gx as int, gy as int),
        ensures
            r == self@.touches_tile(center.x as int, center.y as int, radius as int, gx as int, gy as int),
    {
        let t = self.tile_size as i64;
        proof {
            let ti = t as int;
            let w = self.width as int;
            let h = self.height as int;
            assert(0 <= gx * ti && gx * ti + ti <= w * ti) by (nonlinear_arith)
                requires 0 <= gx < w, 1 <= ti;
            assert(0 <= gy * ti && gy * ti + ti <= h * ti) by (nonlinear_arith)
                requires 0 <= gy < h, 1 <= ti;
        }
        let lo_x = self.origin_x as i64 + gx as i64 * t;
        let lo_y = self.origin_y as i64 + gy as i64 * t;
        let qx = clamp_i64(center.x as i64, lo_x, lo_x + t);
        let qy = clamp_i64(center.y as i64, lo_y, lo_y + t);
        let dx = (center.x as i64 - qx) as i128;
        let dy = (center.y as i64 - qy) as i128;
        let adj = tile.collision_adjustment() as i64;
        proof {
            assert(-20 * t <= adj * t <= 0) by (nonlinear_arith)
                requires -20 <= adj <= 0, 1 <= t;
        }
        let reach = 100 * radius as i64 + adj * t;
        proof {
            let b: int = 0x1_0000_0000;
            assert(dx * dx <= b * b && dy * dy <= b * b && dx * dx >= 0 && dy * dy >= 0) by (nonlinear_arith)
                requires -b <= dx <= b, -b <= dy <= b;
            let c: int = 0x100_0000_0000;
            assert(0 <= reach * reach <= c * c) by (nonlinear_arith)
                requires -c <= reach <= c;
        }
        let dist = dx * dx + dy * dy;
        let rr = reach as i128;
        10000 * dist <= rr * rr
    }

    fn is_within_bounds(&self, center: WorldPos, radius: i32) -> (r: bool)
        requires
            self@.wf(),
        ensures
            r == self@.within_bounds(center.x as int, center.y as int, radius as int),
    {
        let right = self.origin_x as i64 + self.width as i64 * self.tile_size as i64;
        let top = self.origin_y as i64 + self.height as i64 * self.tile_size as i64;
        let cx = center.x as i64;
        let cy = center.y as i64;
        let r = radius as i64;
        cx - r >= self.origin_x as i64 && cx + r <= right && cy - r >= self.origin_y as i64 && cy + r
            <= top
    }

    /// Whether a circle of `radius` at `center` is free of blocking tiles.
    /// A circle whose bounding square leaves the grid is never clear. The
    /// cells examined are those under the bounding square of the unadjusted
    /// radius; no category adjustment is positive, so no cell that an
    /// adjusted circle could reach is left out.
    pub fn is_circle_clear(&self, center: WorldPos, radius: i32) -> (r: bool)
        requires
            self@.wf(),
        ensures
            r == self@.circle_clear(center.x as int, center.y as int, radius as int),
    {
        if !self.is_within_bounds(center, radius) {
            return false;
        }
        if radius <= 0 {
            return self.is_world_pos_walkable(center);
        }
        let ghost v = self@;
        let ghost cxi = center.x as int;
        let ghost cyi = center.y as int;
        let ghost ri = radius as int;
        let t = self.tile_size as i64;
        let ox = self.origin_x as i64;
        let oy = self.origin_y as i64;
        let cx = center.x as i64;
        let cy = center.y as i64;
        let rad = radius as i64;
        let min_gx = floor_div((cx - rad - ox) as i128, t as i128) as i64;
        let max_gx = floor_div((cx + rad - ox) as i128, t as i128) as i64;
        let min_gy = floor_div((cy - rad - oy) as i128, t as i128) as i64;
        let max_gy = floor_div((cy + rad - oy) as i128, t as i128) as i64;
        proof {
            lemma_column_range(cxi - ri - ox, v.width, t as int);
            lemma_column_range(cxi + ri - ox, v.width, t as int);
            lemma_column_range(cyi - ri - oy, v.height, t as int);
            lemma_column_range(cyi + ri - oy, v.height, t as int);
            vstd::arithmetic::div_mod::lemma_div_is_ordered(cxi - ri - ox, cxi + ri - ox, t as int);
            vstd::arithmetic::div_mod::lemma_div_is_ordered(cyi - ri - oy, cyi + ri - oy, t as int);
        }
        let mut gy: i64 = min_gy;
        while gy <= max_gy
            invariant
                v == self@,
                v.wf(),
                ri > 0,
                v.within_bounds(cxi, cyi, ri),
                cxi == center.x,
                cyi == center.y,
                ri == radius,
                min_gx == v.column_of(cxi - ri),
                max_gx == v.column_of(cxi + ri),
                min_gy == v.row_of(cyi - ri),
                max_gy == v.row_of(cyi + ri),
                0 <= min_gx <= max_gx,
                max_gx <= v.width,
                0 <= min_gy <= gy,
                max_gy <= v.height,
                gy <= max_gy + 1,
                forall|a: int, b: int|
                    min_gx <= a <= max_gx && min_gy <= b < gy ==> #[trigger] v.cell_allows(
                        cxi,
                        cyi,
                        ri,
                        a,
                        b,
                    ),
            decreases max_gy + 1 - gy,
        {
            let mut gx: i64 = min_gx;
            while gx <= max_gx
                invariant
                    v == self@,
                    v.wf(),
                    cxi == center.x,
                    cyi == center.y,
                    ri == radius,
                    ri > 0,
                    min_gx == v.column_of(cxi - ri),
                    max_gx == v.column_of(cxi + ri),
                    min_gy == v.row_of(cyi - ri),
                    max_gy == v.row_of(cyi + ri),
                    0 <= min_gx <= gx,
                    max_gx <= v.width,
                    gx <= max_gx + 1,
                    0 <= min_gy <= gy <= max_gy,
                    max_gy <= v.height,
                    forall|a: int| min_gx <= a < gx ==> #[trigger] v.cell_allows(cxi, cyi, ri, a, gy as int),
                    forall|a: int, b: int|
                        min_gx <= a <= max_gx && min_gy <= b < gy ==> #[trigger] v.cell_allows(
                            cxi,
                            cyi,
                            ri,
                            a,
                            b,
                        ),
                decreases max_gx + 1 - gx,
            {
                let xi = gx as i32;
                let yi = gy as i32;
                if !self.in_bounds(xi, yi) {
                    assert(!v.cell_allows(cxi, cyi, ri, gx as int, gy as int));
                    return false;
                }
                let tile = self.tiles[self.xy_to_idx(xi, yi)];
                if !tile.is_walkable() {
                    if self.circle_intersects_tile(center, radius, tile, xi, yi) {
                        assert(!v.cell_allows(cxi, cyi, ri, gx as int, gy as int));
                        return false;
                    }
                }
                gx = gx + 1;
            }
            gy = gy + 1;
        }
        true
    }

    /// `circle_clear` at a point that may lie beyond the `i32` range.
    fn clear_at(&self, cx: i64, cy: i64, radius: i32) -> (r: bool)
        requires
            self@.wf(),
        ensures
            r == self@.circle_clear(cx as int, cy as int, radius as int),
            r ==> i32::MIN <= cx <= i32::MAX && i32::MIN <= cy <= i32::MAX,
    {
        proof {
            lemma_clear_inside(self@, cx as int, cy as int, radius as int);
        }
        if cx < i32::MIN as i64 || cx > i32::MAX as i64 || cy < i32::MIN as i64 || cy > i32::MAX as i64 {
            false
        } else {
            self.is_circle_clear(WorldPos { x: cx as i32, y: cy as i32 }, radius)
        }
    }

    /// Moves a circle of `radius` from `start` towards `end` in steps of at
    /// most a quarter tile, sliding along walls, and returns where it comes
    /// to rest. Every position it moves through is clear.
    pub fn sweep_circle(&self, start: WorldPos, end: WorldPos, radius: i32) -> (r: WorldPos)
        requires
            self@.wf(),
        ensures
            (r.x as int, r.y as int) == self@.sweep(
                start.x as int,
                start.y as int,
                end.x as int,
                end.y as int,
                radius as int,
            ),
    {
        if start.x == end.x && start.y == end.y {
            return start;
        }
        let ghost v = self@;
        let dx = end.x as i64 - start.x as i64;
        let dy = end.y as i64 - start.y as i64;
        let n = steps_for(dx, dy, self.tile_size as i64);
        proof {
            lemma_step_count_is(n as int, dx as int, dy as int, v.tile_size);
        }
        let ghost total = v.walk(start.x as int, start.y as int, dx as int, dy as int, n as int, 0, radius as int);
        let mut px: i32 = start.x;
        let mut py: i32 = start.y;
        let mut k: i64 = 0;
        while k < n
            invariant
                v == self@,
                v.wf(),
                0 <= k <= n,
                1 <= n <= 0x10_0000_0000,
                -0x1_0000_0000 <= dx <= 0x1_0000_0000,
                -0x1_0000_0000 <= dy <= 0x1_0000_0000,
                v.walk(px as int, py as int, dx as int, dy as int, n as int, k as int, radius as int)
                    == total,
            decreases n - k,
        {
            let ghost (opx, opy) = (px as int, py as int);
            proof {
                lemma_waypoint_bounds(dx as int, k as int, n as int);
                lemma_waypoint_bounds(dx as int, k as int + 1, n as int);
                lemma_waypoint_bounds(dy as int, k as int, n as int);
                lemma_waypoint_bounds(dy as int, k as int + 1, n as int);
                lemma_mul_bound(dx as int, k as int + 1, 0x1_0000_0000, 0x10_0000_0000);
                lemma_mul_bound(dx as int, k as int, 0x1_0000_0000, 0x10_0000_0000);
                lemma_mul_bound(dy as int, k as int + 1, 0x1_0000_0000, 0x10_0000_0000);
                lemma_mul_bound(dy as int, k as int, 0x1_0000_0000, 0x10_0000_0000);
            }
            let step_x = floor_div(dx as i128 * (k + 1) as i128, n as i128) - floor_div(
                dx as i128 * k as i128,
                n as i128,
            );
            let step_y = floor_div(dy as i128 * (k + 1) as i128, n as i128) - floor_div(
                dy as i128 * k as i128,
                n as i128,
            );
            let cx = px as i64 + step_x as i64;
            let cy = py as i64 + step_y as i64;
            if self.clear_at(cx, cy, radius) {
                px = cx as i32;
                py = cy as i32;
                k = k + 1;
            } else if self.clear_at(cx, py as i64, radius) {
                px = cx as i32;
                k = k + 1;
            } else if self.clear_at(px as i64, cy, radius) {
                py = cy as i32;
                k = k + 1;
            } else {
                k = n;
            }
        }
        WorldPos { x: px, y: py }
    }

    pub fn width(&self) -> (r: i32)
        ensures
            r == self@.width,
    {
        self.width
    }

    pub fn height(&self) -> (r: i32)
        ensures
            r == self@.height,
    {
        self.height
    }

    pub fn tile_size(&self) -> (r: i32)
        ensures
            r == self@.tile_size,
    {
        self.tile_size
    }

    pub fn origin(&self) -> (r: WorldPos)
        ensures
            r.x == self@.origin_x,
            r.y == self@.origin_y,
    {
        WorldPos { x: self.origin_x, y: self.origin_y }
    }
}

/// `v` saturated into the range of `i32`.
fn saturate(v: i128) -> (r: i32)
    ensures
        r == saturate_i32(v as int),
{
    if v < i32::MIN as i128 {
        i32::MIN
    } else if v > i32::MAX as i128 {
        i32::MAX
    } else {
        v as i32
    }
}

/// `v` limited to the interval [lo, hi].
fn clamp_i64(v: i64, lo: i64, hi: i64) -> (r: i64)
    requires
        lo <= hi,
    ensures
        r == clamp(v as int, lo as int, hi as int),
{
    if v < lo {
        lo
    } else if v > hi {
        hi
    } else {
        v
    }
}

/// An offset between 0 and `n` tiles falls in a column between 0 and `n`.
proof fn lemma_column_range(a: int, n: int, t: int)
    requires
        1 <= t,
        0 <= n,
        0 <= a <= n * t,
    ensures
        0 <= a / t <= n,
{
    vstd::arithmetic::div_mod::lemma_div_pos_is_pos(a, t);
    vstd::arithmetic::div_mod::lemma_div_is_ordered(a, n * t, t);
    vstd::arithmetic::div_mod::lemma_div_by_multiple(n, t);
}

/// Whether `n` steps of a quarter tile `t` cover a displacement whose
/// squared length is `len_sq`; `reach` bounds the length from above.
fn steps_cover(n: i64, t: i64, len_sq: i128, reach: i64) -> (r: bool)
    requires
        1 <= n <= 0x10_0000_0000,
        1 <= t <= i32::MAX,
        0 <= reach <= 0x10_0000_0000,
        0 <= len_sq,
        16 * len_sq <= reach * reach,
    ensures
        r == (16 * len_sq <= (n * t) * (n * t)),
{
    proof {
        lemma_mul_bound(n as int, t as int, 0x10_0000_0000, 0x8000_0000);
        lemma_mul_bound(reach as int, reach as int, 0x10_0000_0000, 0x10_0000_0000);
    }
    let nt = n as i128 * t as i128;
    if nt > reach as i128 {
        proof {
            assert(reach * reach <= nt * nt) by (nonlinear_arith)
                requires 0 <= reach < nt;
        }
        true
    } else {
        proof {
            assert(nt * nt <= 0x10_0000_0000 * 0x10_0000_0000) by (nonlinear_arith)
                requires 0 <= nt <= 0x10_0000_0000;
        }
        16 * len_sq <= nt * nt
    }
}

/// The step count of a sweep of displacement (dx, dy) over tiles of size `t`.
fn steps_for(dx: i64, dy: i64, t: i64) -> (n: i64)
    requires
        -0x1_0000_0000 <= dx <= 0x1_0000_0000,
        -0x1_0000_0000 <= dy <= 0x1_0000_0000,
        1 <= t <= i32::MAX,
    ensures
        is_step_count(n as int, dx as int, dy as int, t as int),
        n <= 0x10_0000_0000,
{
    let ax = if dx < 0 { -dx } else { dx };
    let ay = if dy < 0 { -dy } else { dy };
    proof {
        assert(ax * ax == dx * dx) by (nonlinear_arith) requires ax == dx || ax == -dx;
        assert(ay * ay == dy * dy) by (nonlinear_arith) requires ay == dy || ay == -dy;
    }
    let reach = 4 * (ax + ay);
    proof {
        lemma_mul_bound(dx as int, dx as int, 0x1_0000_0000, 0x1_0000_0000);
        lemma_mul_bound(dy as int, dy as int, 0x1_0000_0000, 0x1_0000_0000);
    }
    let len_sq = dx as i128 * dx as i128 + dy as i128 * dy as i128;
    proof {
        assert(0 <= len_sq && 16 * len_sq <= reach * reach) by (nonlinear_arith)
            requires
                len_sq == dx * dx + dy * dy,
                ax >= 0,
                ax * ax == dx * dx,
                ay >= 0,
                ay * ay == dy * dy,
                reach == 4 * (ax + ay),
        ;
    }
    let mut n: i64 = 1;
    while !steps_cover(n, t, len_sq, reach)
        invariant
            1 <= n <= reach + 1,
            0 <= reach <= 0x8_0000_0000,
            1 <= t <= i32::MAX,
            0 <= len_sq,
            16 * len_sq <= reach * reach,
            len_sq == dx * dx + dy * dy,
            n == 1 || ((n - 1) * t) * ((n - 1) * t) < 16 * len_sq,
        decreases reach + 1 - n,
    {
        proof {
            if n == reach + 1 {
                assert(reach * reach <= (n * t) * (n * t)) by (nonlinear_arith)
                    requires 0 <= reach < n, 1 <= t;
            }
        }
        n = n + 1;
    }
    n
}

/// A product of two bounded factors is bounded by the product of the bounds.
proof fn lemma_mul_bound(a: int, b: int, ba: int, bb: int)
    requires
        -ba <= a <= ba,
        -bb <= b <= bb,
    ensures
        -(ba * bb) <= a * b <= ba * bb,
{
    if a >= 0 && b >= 0 {
        assert(a * b <= ba * bb) by (nonlinear_arith) requires 0 <= a <= ba, 0 <= b <= bb;
        assert(0 <= a * b) by (nonlinear_arith) requires 0 <= a, 0 <= b;
    } else if a >= 0 {
        assert(-(ba * bb) <= a * b) by (nonlinear_arith) requires 0 <= a <= ba, -bb <= b < 0;
        assert(a * b <= 0) by (nonlinear_arith) requires 0 <= a, b < 0;
    } else if b >= 0 {
        assert(-(ba * bb) <= a * b) by (nonlinear_arith) requires -ba <= a < 0, 0 <= b <= bb;
        assert(a * b <= 0) by (nonlinear_arith) requires a < 0, 0 <= b;
    } else {
        assert(a * b <= ba * bb) by (nonlinear_arith) requires -ba <= a < 0, -bb <= b < 0;
        assert(0 <= a * b) by (nonlinear_arith) requires a < 0, b < 0;
    }
}

/// Two step counts of the same displacement agree.
proof fn lemma_step_count_unique(a: int, b: int, dx: int, dy: int, t: int)
    requires
        t >= 1,
        is_step_count(a, dx, dy, t),
        is_step_count(b, dx, dy, t),
    ensures
        a == b,
{
    if a < b {
        assert((a * t) * (a * t) <= ((b - 1) * t) * ((b - 1) * t)) by (nonlinear_arith)
            requires 1 <= a <= b - 1, t >= 1;
    } else if b < a {
        assert((b * t) * (b * t) <= ((a - 1) * t) * ((a - 1) * t)) by (nonlinear_arith)
            requires 1 <= b <= a - 1, t >= 1;
    }
}

proof fn lemma_step_count_is(n: int, dx: int, dy: int, t: int)
    requires
        t >= 1,
        is_step_count(n, dx, dy, t),
    ensures
        step_count(dx, dy, t) == n,
{
    let m = step_count(dx, dy, t);
    lemma_step_count_unique(m, n, dx, dy, t);
}

/// A waypoint never lies beyond the displacement it divides.
proof fn lemma_waypoint_bounds(d: int, k: int, n: int)
    requires
        1 <= n,
        0 <= k <= n,
    ensures
        d >= 0 ==> 0 <= waypoint(d, k, n) <= d,
        d < 0 ==> d <= waypoint(d, k, n) <= 0,
{
    if d >= 0 {
        assert(0 <= d * k <= d * n) by (nonlinear_arith)
            requires d >= 0, 0 <= k <= n;
        vstd::arithmetic::div_mod::lemma_div_pos_is_pos(d * k, n);
        vstd::arithmetic::div_mod::lemma_div_is_ordered(d * k, d * n, n);
    } else {
        assert(d * n <= d * k <= 0) by (nonlinear_arith)
            requires d < 0, 0 <= k <= n;
        vstd::arithmetic::div_mod::lemma_div_is_ordered(d * n, d * k, n);
        vstd::arithmetic::div_mod::lemma_div_is_ordered(d * k, 0, n);
    }
    vstd::arithmetic::div_mod::lemma_fundamental_div_mod_converse(d * n, n, d, 0);
}

/// A non-negative offset whose column is below `n` lies within `n` tiles.
proof fn lemma_in_column(a: int, t: int, n: int)
    requires
        1 <= t,
        0 <= a / t < n,
    ensures
        0 <= a < n * t,
{
    vstd::arithmetic::div_mod::lemma_fundamental_div_mod(a, t);
    vstd::arithmetic::div_mod::lemma_mod_pos_bound(a, t);
    let q = a / t;
    let m = a % t;
    assert(0 <= a < n * t) by (nonlinear_arith)
        requires a == t * q + m, 0 <= m < t, 0 <= q < n;
}

/// A clear circle's centre lies on the grid's world rectangle, and so in the
/// `i32` range.
proof fn lemma_clear_inside(v: GridView, cx: int, cy: int, r: int)
    requires
        v.wf(),
    ensures
        v.circle_clear(cx, cy, r) ==> i32::MIN <= cx <= i32::MAX && i32::MIN <= cy <= i32::MAX,
{
    if v.circle_clear(cx, cy, r) && r <= 0 {
        lemma_in_column(cx - v.origin_x, v.tile_size, v.width);
        lemma_in_column(cy - v.origin_y, v.tile_size, v.height);
    }
}

/// Converting a cell to its world-space centre and back yields the same
/// cell, and the centre of a cell on the grid lies in the `i32` range.
pub proof fn lemma_grid_world_round_trip(v: GridView, x: int, y: int)
    requires
        v.wf(),
        v.in_bounds(x, y),
    ensures
        i32::MIN <= v.center_x(x) <= i32::MAX,
        i32::MIN <= v.center_y(y) <= i32::MAX,
        v.column_of(v.center_x(x)) == x,
        v.row_of(v.center_y(y)) == y,
        saturate_i32(v.column_of(v.center_x(x))) == x,
        saturate_i32(v.row_of(v.center_y(y))) == y,
{
    let t = v.tile_size;
    assert(0 <= x * t && x * t + t <= v.width * t) by (nonlinear_arith)
        requires 0 <= x < v.width, 1 <= t;
    assert(0 <= y * t && y * t + t <= v.height * t) by (nonlinear_arith)
        requires 0 <= y < v.height, 1 <= t;
    assert(v.center_x(x) - v.origin_x == x * t + t / 2);
    assert(v.center_y(y) - v.origin_y == y * t + t / 2);
    vstd::arithmetic::div_mod::lemma_fundamental_div_mod_converse(x * t + t / 2, t, x, t / 2);
    vstd::arithmetic::div_mod::lemma_fundamental_div_mod_converse(y * t + t / 2, t, y, t / 2);
}

/// Off the grid nothing is walkable and no category is stored.
pub proof fn lemma_out_of_bounds_blocked(v: GridView, x: int, y: int)
    requires
        !v.in_bounds(x, y),
    ensures
        !v.walkable_at(x, y),
        v.get(x, y) == None::<TileType>,
{
}

/// A sweep without displacement leaves the circle where it is.
pub proof fn lemma_sweep_without_displacement(v: GridView, x: int, y: int, r: int)
    ensures
        v.sweep(x, y, x, y, r) == (x, y),
{
}

/// A walk ends where it began or on a position whose circle is clear.
pub proof fn lemma_walk_ends_clear(
    v: GridView,
    px: int,
    py: int,
    dx: int,
    dy: int,
    n: int,
    k: int,
    r: int,
)
    ensures
        v.walk(px, py, dx, dy, n, k, r) == (px, py) || v.circle_clear(
            v.walk(px, py, dx, dy, n, k, r).0,
            v.walk(px, py, dx, dy, n, k, r).1,
            r,
        ),
    decreases n - k,
{
    if k < n {
        let cx = px + waypoint(dx, k + 1, n) - waypoint(dx, k, n);
        let cy = py + waypoint(dy, k + 1, n) - waypoint(dy, k, n);
        lemma_walk_ends_clear(v, cx, cy, dx, dy, n, k + 1, r);
        lemma_walk_ends_clear(v, cx, py, dx, dy, n, k + 1, r);
        lemma_walk_ends_clear(v, px, cy, dx, dy, n, k + 1, r);
    }
}

/// A sweep comes to rest at its start or on a position whose circle is
/// clear: it never passes through unchecked ground.
pub proof fn lemma_sweep_ends_clear(v: GridView, sx: int, sy: int, ex: int, ey: int, r: int)
    ensures
        v.sweep(sx, sy, ex, ey, r) == (sx, sy) || v.circle_clear(
            v.sweep(sx, sy, ex, ey, r).0,
            v.sweep(sx, sy, ex, ey, r).1,
            r,
        ),
{
    if !(sx == ex && sy == ey) {
        let n = step_count(ex - sx, ey - sy, v.tile_size);
        lemma_walk_ends_clear(v, sx, sy, ex - sx, ey - sy, n, 0, r);
    }
}

} // verus!
