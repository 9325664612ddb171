use vstd::prelude::*;
use crate::map::{CollisionMap, GridView, floor_div};
use crate::tile_type::{TileType, walkable};

verus! {

/// Size of one tile in world units.
pub const TILE_SIZE: i32 = 64;

/// Expected map width, in tiles.
pub const GRID_X: i32 = 25;

/// Expected map height, in tiles.
pub const GRID_Y: i32 = 18;

/// World x-coordinate of the grid's corner: half the expected map width
/// (`GRID_X` tiles of `TILE_SIZE`) left of zero.
pub const GRID_ORIGIN_X: i32 = -800;

/// World y-coordinate of the grid's corner: half the expected map height
/// (`GRID_Y` tiles of `TILE_SIZE`) below zero.
pub const GRID_ORIGIN_Y: i32 = -576;

/// A spawned tile: its world position, with `z` its layer height, and its
/// terrain category.
#[derive(Debug, Clone, Copy, PartialEq, Eq, Structural)]
pub struct TilePlacement {
    pub x: i32,
    pub y: i32,
    pub z: i32,
    pub tile_type: TileType,
}

/// Grid column of a placement, counted from the fixed grid origin.
pub open spec fn placement_col(p: TilePlacement) -> int {
    (p.x - GRID_ORIGIN_X) / (TILE_SIZE as int)
}

/// Grid row of a placement, counted from the fixed grid origin.
pub open spec fn placement_row(p: TilePlacement) -> int {
    (p.y - GRID_ORIGIN_Y) / (TILE_SIZE as int)
}

pub open spec fn min_col(ps: Seq<TilePlacement>) -> int
    decreases ps.len(),
{
    if ps.len() <= 1 {
        placement_col(ps[0])
    } else {
        let m = min_col(ps.drop_last());
        let c = placement_col(ps.last());
        if c < m {
            c
        } else {
            m
        }
    }
}

pub open spec fn max_col(ps: Seq<TilePlacement>) -> int
    decreases ps.len(),
{
    if ps.len() <= 1 {
        placement_col(ps[0])
    } else {
        let m = max_col(ps.drop_last());
        let c = placement_col(ps.last());
        if c > m {
            c
        } else {
            m
        }
    }
}

pub open spec fn min_row(ps: Seq<TilePlacement>) -> int
    decreases ps.len(),
{
    if ps.len() <= 1 {
        placement_row(ps[0])
    } else {
        let m = min_row(ps.drop_last());
        let c = placement_row(ps.last());
        if c < m {
            c
        } else {
            m
        }
    }
}

pub open spec fn max_row(ps: Seq<TilePlacement>) -> int
    decreases ps.len(),
{
    if ps.len() <= 1 {
        placement_row(ps[0])
    } else {
        let m = max_row(ps.drop_last());
        let c = placement_row(ps.last());
        if c > m {
            c
        } else {
            m
        }
    }
}

/// The category and height of the uppermost placement at cell (gx, gy):
/// a later placement replaces an earlier one only when strictly higher.
pub open spec fn top_layer(ps: Seq<TilePlacement>, gx: int, gy: int) -> Option<(TileType, int)>
    decreases ps.len(),
{
    if ps.len() == 0 {
        None
    } else {
        let prev = top_layer(ps.drop_last(), gx, gy);
        let p = ps.last();
        if placement_col(p) == gx && placement_row(p) == gy {
            match prev {
                None => Some((p.tile_type, p.z as int)),
                Some(q) => if p.z > q.1 {
                    Some((p.tile_type, p.z as int))
                } else {
                    prev
                },
            }
        } else {
            prev
        }
    }
}

/// Category of cell (gx, gy) after layering; `Empty` where nothing was placed.
pub open spec fn layer_tile(ps: Seq<TilePlacement>, gx: int, gy: int) -> TileType {
    match top_layer(ps, gx, gy) {
        Some(q) => q.0,
        None => TileType::Empty,
    }
}

/// Height of the uppermost placement at cell (gx, gy), if any.
pub open spec fn layer_height(ps: Seq<TilePlacement>, gx: int, gy: int) -> Option<int> {
    match top_layer(ps, gx, gy) {
        Some(q) => Some(q.1),
        None => None,
    }
}

pub open spec fn extent_width(ps: Seq<TilePlacement>) -> int {
    max_col(ps) - min_col(ps) + 1
}

pub open spec fn extent_height(ps: Seq<TilePlacement>) -> int {
    max_row(ps) - min_row(ps) + 1
}

/// The placements' bounding box fits a collision map.
pub open spec fn extent_fits(ps: Seq<TilePlacement>) -> bool {
    &&& GRID_ORIGIN_X + extent_width(ps) * TILE_SIZE <= i32::MAX
    &&& GRID_ORIGIN_Y + extent_height(ps) * TILE_SIZE <= i32::MAX
    &&& extent_width(ps) * extent_height(ps) <= usize::MAX
}

/// The map over the placements' bounding box, cell (0, 0) at the box's
/// lowest column and row, each cell holding its uppermost category. The
/// origin stays the fixed grid origin.
pub open spec fn layered_view(ps: Seq<TilePlacement>) -> GridView {
    let w = extent_width(ps);
    let h = extent_height(ps);
    GridView {
        width: w,
        height: h,
        tile_size: TILE_SIZE as int,
        origin_x: GRID_ORIGIN_X as int,
        origin_y: GRID_ORIGIN_Y as int,
        cells: Seq::new(
            (w * h) as nat,
            |i: int| layer_tile(ps, i % w + min_col(ps), i / w + min_row(ps)),
        ),
    }
}

/// One of the eight cells around (x, y) is walkable.
pub open spec fn has_walkable_neighbor(v: GridView, x: int, y: int) -> bool {
    ||| v.walkable_at(x - 1, y)
    ||| v.walkable_at(x + 1, y)
    ||| v.walkable_at(x, y - 1)
    ||| v.walkable_at(x, y + 1)
    ||| v.walkable_at(x - 1, y - 1)
    ||| v.walkable_at(x + 1, y - 1)
    ||| v.walkable_at(x - 1, y + 1)
    ||| v.walkable_at(x + 1, y + 1)
}

/// Category of cell (x, y) after shoreline derivation: water next to
/// walkable ground becomes shore; every other cell keeps its category.
pub open spec fn shore_tile(v: GridView, x: int, y: int) -> TileType {
    if v.tile(x, y) == TileType::Water && has_walkable_neighbor(v, x, y) {
        TileType::Shore
    } else {
        v.tile(x, y)
    }
}

/// The map after shoreline derivation, every cell judged on the map as it
/// was before.
pub open spec fn shoreline(v: GridView) -> GridView {
    GridView {
        cells: Seq::new(v.cells.len(), |i: int| shore_tile(v, i % v.width, i / v.width)),
        ..v
    }
}

/// Cell `i` of a row-major `w` × `h` grid is (i % w, i / w).
proof fn lemma_linear_cell(w: int, h: int, i: int)
    requires
        0 <= w,
        0 <= h,
        0 <= i < w * h,
    ensures
        0 < w,
        0 <= i % w < w,
        0 <= i / w < h,
        (i / w) * w + i % w == i,
{
    assert(w > 0) by (nonlinear_arith)
        requires 0 <= w, 0 <= h, 0 <= i < w * h;
    vstd::arithmetic::div_mod::lemma_fundamental_div_mod(i, w);
    vstd::arithmetic::div_mod::lemma_mod_pos_bound(i, w);
    vstd::arithmetic::div_mod::lemma_div_pos_is_pos(i, w);
    let q = i / w;
    let m = i % w;
    assert(q < h) by (nonlinear_arith)
        requires i == w * q + m, 0 <= m, i < w * h, 0 < w;
    assert(q * w == w * q) by (nonlinear_arith);
}

/// The row-major index of (x, y) falls in the grid and leads back to (x, y).
proof fn lemma_cell_linear(w: int, h: int, x: int, y: int)
    requires
        0 <= x < w,
        0 <= y < h,
    ensures
        0 <= y * w + x < w * h,
        (y * w + x) % w == x,
        (y * w + x) / w == y,
{
    assert(0 <= y * w + x < w * h) by (nonlinear_arith)
        requires 0 <= x < w, 0 <= y < h;
    vstd::arithmetic::div_mod::lemma_fundamental_div_mod_converse(y * w + x, w, y, x);
}

/// Category of cell (x, y) after shoreline derivation, read from `map`.
fn shore_cell(map: &CollisionMap, x: i32, y: i32) -> (r: TileType)
    requires
        map@.wf(),
        map@.in_bounds(x as int, y as int),
    ensures
        r == shore_tile(map@, x as int, y as int),
{
    let tile = match map.get_tile(x, y) {
        Some(t) => t,
        None => TileType::Empty,
    };
    if tile != TileType::Water {
        return tile;
    }
    if map.is_walkable(x - 1, y) || map.is_walkable(x + 1, y) || map.is_walkable(x, y - 1)
        || map.is_walkable(x, y + 1) || map.is_walkable(x - 1, y - 1) || map.is_walkable(
        x + 1,
        y - 1,
    ) || map.is_walkable(x - 1, y + 1) || map.is_walkable(x + 1, y + 1) {
        TileType::Shore
    } else {
        tile
    }
}

/// Turns every water cell with a walkable neighbour into shore. All cells
/// are judged before any is changed, so the order of the scan does not
/// matter.
pub fn convert_water_edges_to_shore(map: &mut CollisionMap)
    requires
        old(map)@.wf(),
    ensures
        final(map)@ == shoreline(old(map)@),
        final(map)@.wf(),
{
    let ghost v = map@;
    let w = map.width();
    let h = map.height();
    let n = (w as usize) * (h as usize);
    let mut derived: Vec<TileType> = Vec::new();
    let mut i: usize = 0;
    while i < n
        invariant
            v == map@,
            v.wf(),
            w == v.width,
            h == v.height,
            n == v.width * v.height,
            i <= n,
            derived@.len() == i,
            forall|j: int|
                0 <= j < i ==> derived@[j] == shore_tile(v, j % v.width, j / v.width),
        decreases n - i,
    {
        proof {
            lemma_linear_cell(w as int, h as int, i as int);
        }
        let x = (i % (w as usize)) as i32;
        let y = (i / (w as usize)) as i32;
        derived.push(shore_cell(map, x, y));
        i = i + 1;
    }
    let mut i: usize = 0;
    while i < n
        invariant
            map@.wf(),
            map@.width == v.width,
            map@.height == v.height,
            map@.tile_size == v.tile_size,
            map@.origin_x == v.origin_x,
            map@.origin_y == v.origin_y,
            w == v.width,
            h == v.height,
            n == v.width * v.height,
            n == v.cells.len(),
            map@.cells.len() == n,
            derived@.len() == n,
            forall|j: int|
                0 <= j < n ==> derived@[j] == shore_tile(v, j % v.width, j / v.width),
            i <= n,
            forall|j: int| 0 <= j < i ==> map@.cells[j] == derived@[j],
            forall|j: int| i <= j < n ==> map@.cells[j] == v.cells[j],
        decreases n - i,
    {
        proof {
            lemma_linear_cell(w as int, h as int, i as int);
        }
        let x = (i % (w as usize)) as i32;
        let y = (i / (w as usize)) as i32;
        proof {
            assert(map@.index(x as int, y as int) == i);
        }
        map.set_tile(x, y, derived[i]);
        i = i + 1;
    }
    proof {
        let s = shoreline(v);
        assert(s.cells.len() == n);
        assert forall|j: int| 0 <= j < n implies map@.cells[j] == s.cells[j] by {
            assert(map@.cells[j] == derived@[j]);
        }
        assert(map@.cells =~= s.cells);
    }
}

spec fn as_height(o: Option<i32>) -> Option<int> {
    match o {
        Some(z) => Some(z as int),
        None => None,
    }
}

/// Every placement's cell lies inside the placements' bounding box.
pub proof fn lemma_extent_bounds(ps: Seq<TilePlacement>, i: int)
    requires
        0 <= i < ps.len(),
    ensures
        min_col(ps) <= placement_col(ps[i]) <= max_col(ps),
        min_row(ps) <= placement_row(ps[i]) <= max_row(ps),
    decreases ps.len(),
{
    if ps.len() > 1 && i < ps.len() - 1 {
        lemma_extent_bounds(ps.drop_last(), i);
    }
}

/// The uppermost layer at a cell comes from a placement at that cell.
proof fn lemma_top_layer_source(ps: Seq<TilePlacement>, gx: int, gy: int)
    ensures
        top_layer(ps, gx, gy) matches Some(q) ==> exists|j: int|
            0 <= j < ps.len() && placement_col(#[trigger] ps[j]) == gx && placement_row(ps[j]) == gy
                && q.1 == ps[j].z,
    decreases ps.len(),
{
    if ps.len() > 0 {
        let q = ps.drop_last();
        lemma_top_layer_source(q, gx, gy);
        if let Some(t) = top_layer(q, gx, gy) {
            let j = choose|j: int|
                0 <= j < q.len() && placement_col(#[trigger] q[j]) == gx && placement_row(q[j]) == gy
                    && t.1 == q[j].z;
            assert(ps[j] == q[j]);
        }
    }
}

/// The placement at a cell that is strictly higher than every other
/// placement there decides the cell's category, wherever it stands in the
/// input. Its category survives shoreline derivation unless it is water.
pub proof fn lemma_top_layer_wins(ps: Seq<TilePlacement>, i: int)
    requires
        0 <= i < ps.len(),
        forall|j: int|
            0 <= j < ps.len() && j != i && placement_col(#[trigger] ps[j]) == placement_col(ps[i])
                && placement_row(ps[j]) == placement_row(ps[i]) ==> ps[j].z < ps[i].z,
    ensures
        top_layer(ps, placement_col(ps[i]), placement_row(ps[i])) == Some(
            (ps[i].tile_type, ps[i].z as int),
        ),
        layered_view(ps).tile(
            placement_col(ps[i]) - min_col(ps),
            placement_row(ps[i]) - min_row(ps),
        ) == ps[i].tile_type,
        ps[i].tile_type != TileType::Water ==> shoreline(layered_view(ps)).tile(
            placement_col(ps[i]) - min_col(ps),
            placement_row(ps[i]) - min_row(ps),
        ) == ps[i].tile_type,
    decreases ps.len(),
{
    let gx = placement_col(ps[i]);
    let gy = placement_row(ps[i]);
    let q = ps.drop_last();
    if i == ps.len() - 1 {
        lemma_top_layer_source(q, gx, gy);
        if let Some(t) = top_layer(q, gx, gy) {
            let j = choose|j: int|
                0 <= j < q.len() && placement_col(#[trigger] q[j]) == gx && placement_row(q[j]) == gy
                    && t.1 == q[j].z;
            assert(ps[j] == q[j]);
        }
    } else {
        assert forall|j: int|
            0 <= j < q.len() && j != i && placement_col(#[trigger] q[j]) == placement_col(q[i])
                && placement_row(q[j]) == placement_row(q[i]) implies q[j].z < q[i].z by {
            assert(q[j] == ps[j]);
        }
        lemma_top_layer_wins(q, i);
        assert(ps.last() == ps[ps.len() - 1]);
    }
    lemma_extent_bounds(ps, i);
    let v = layered_view(ps);
    let x = gx - min_col(ps);
    let y = gy - min_row(ps);
    lemma_cell_linear(v.width, v.height, x, y);
    assert(v.tile(x, y) == layer_tile(ps, gx, gy));
    lemma_cell_linear(shoreline(v).width, shoreline(v).height, x, y);
    assert(shoreline(v).tile(x, y) == shore_tile(v, x, y));
}

/// Water whose eight neighbours are all water stays water; water with a
/// walkable neighbour becomes shore.
pub proof fn lemma_shoreline_water(v: GridView, x: int, y: int)
    requires
        v.wf(),
        v.in_bounds(x, y),
        v.tile(x, y) == TileType::Water,
    ensures
        surrounded_by_water(v, x, y) ==> shoreline(v).tile(x, y) == TileType::Water,
        has_walkable_neighbor(v, x, y) ==> shoreline(v).tile(x, y) == TileType::Shore,
{
    lemma_cell_linear(v.width, v.height, x, y);
    assert(shoreline(v).tile(x, y) == shore_tile(v, x, y));
}

/// All eight neighbours of (x, y) are on the grid and water.
pub open spec fn surrounded_by_water(v: GridView, x: int, y: int) -> bool {
    &&& v.get(x - 1, y) == Some(TileType::Water)
    &&& v.get(x + 1, y) == Some(TileType::Water)
    &&& v.get(x, y - 1) == Some(TileType::Water)
    &&& v.get(x, y + 1) == Some(TileType::Water)
    &&& v.get(x - 1, y - 1) == Some(TileType::Water)
    &&& v.get(x + 1, y - 1) == Some(TileType::Water)
    &&& v.get(x - 1, y + 1) == Some(TileType::Water)
    &&& v.get(x + 1, y + 1) == Some(TileType::Water)
}

/// Grid column and row of a placement.
fn placement_cell(p: &TilePlacement) -> (r: (i64, i64))
    ensures
        r.0 == placement_col(*p),
        r.1 == placement_row(*p),
        -0x400_0000 <= r.0 <= 0x400_0000,
        -0x400_0000 <= r.1 <= 0x400_0000,
{
    let c = floor_div(p.x as i128 - GRID_ORIGIN_X as i128, TILE_SIZE as i128);
    let r = floor_div(p.y as i128 - GRID_ORIGIN_Y as i128, TILE_SIZE as i128);
    proof {
        let a = p.x - GRID_ORIGIN_X;
        let b = p.y - GRID_ORIGIN_Y;
        vstd::arithmetic::div_mod::lemma_div_is_ordered(-0x1_0000_0000, a, 64);
        vstd::arithmetic::div_mod::lemma_div_is_ordered(a, 0x1_0000_0000, 64);
        vstd::arithmetic::div_mod::lemma_div_is_ordered(-0x1_0000_0000, b, 64);
        vstd::arithmetic::div_mod::lemma_div_is_ordered(b, 0x1_0000_0000, 64);
        vstd::arithmetic::div_mod::lemma_fundamental_div_mod_converse(-0x1_0000_0000, 64, -0x400_0000, 0);
        vstd::arithmetic::div_mod::lemma_fundamental_div_mod_converse(0x1_0000_0000, 64, 0x400_0000, 0);
    }
    (c as i64, r as i64)
}

/// Builds the collision map from tile placements. Each placement falls in
/// the cell of the fixed grid that holds its position; where several share
/// a cell the highest wins (the first of equally high ones). The map covers
/// the placements' bounding box, its cell (0, 0) at the box's lowest column
/// and row, and shoreline derivation runs on it last. Returns `None` when
/// there are no placements, or when their bounding box is too large for a
/// map.
pub fn build_collision_map(placements: &Vec<TilePlacement>) -> (r: Option<CollisionMap>)
    ensures
        r.is_none() <==> (placements@.len() == 0 || !extent_fits(placements@)),
        r.is_some() ==> r.unwrap()@.wf(),
        r.is_some() ==> r.unwrap()@ == shoreline(layered_view(placements@)),
{
    let ghost ps = placements@;
    let len = placements.len();
    if len == 0 {
        return None;
    }
    let first = placement_cell(&placements[0]);
    let mut min_x: i64 = first.0;
    let mut max_x: i64 = first.0;
    let mut min_y: i64 = first.1;
    let mut max_y: i64 = first.1;
    let mut i: usize = 1;
    proof {
        assert(ps.take(1)[0] == ps[0]);
    }
    while i < len
        invariant
            ps == placements@,
            len == ps.len(),
            1 <= i <= len,
            min_x == min_col(ps.take(i as int)),
            max_x == max_col(ps.take(i as int)),
            min_y == min_row(ps.take(i as int)),
            max_y == max_row(ps.take(i as int)),
            -0x400_0000 <= min_x <= 0x400_0000,
            -0x400_0000 <= max_x <= 0x400_0000,
            -0x400_0000 <= min_y <= 0x400_0000,
            -0x400_0000 <= max_y <= 0x400_0000,
        decreases len - i,
    {
        let cell = placement_cell(&placements[i]);
        proof {
            assert(ps.take(i + 1).drop_last() =~= ps.take(i as int));
            assert(ps.take(i + 1).last() == ps[i as int]);
        }
        if cell.0 < min_x {
            min_x = cell.0;
        }
        if cell.0 > max_x {
            max_x = cell.0;
        }
        if cell.1 < min_y {
            min_y = cell.1;
        }
        if cell.1 > max_y {
            max_y = cell.1;
        }
        i = i + 1;
    }
    proof {
        assert(ps.take(len as int) =~= ps);
        lemma_extent_bounds(ps, 0);
    }
    let w = max_x - min_x + 1;
    let h = max_y - min_y + 1;
    proof {
        assert(0 <= w * h <= 0x800_0001 * 0x800_0001) by (nonlinear_arith)
            requires 1 <= w <= 0x800_0001, 1 <= h <= 0x800_0001;
    }
    let t = TILE_SIZE as i64;
    if GRID_ORIGIN_X as i64 + w * t > i32::MAX as i64 || GRID_ORIGIN_Y as i64 + h * t
        > i32::MAX as i64 || (w as u128) * (h as u128) > usize::MAX as u128 {
        return None;
    }
    let mut map = CollisionMap::new(w as i32, h as i32, TILE_SIZE, GRID_ORIGIN_X, GRID_ORIGIN_Y);
    let n = (w as usize) * (h as usize);
    let mut heights: Vec<Option<i32>> = Vec::new();
    let mut k: usize = 0;
    while k < n
        invariant
            k <= n,
            heights@.len() == k,
            forall|j: int| 0 <= j < k ==> heights@[j] == None::<i32>,
        decreases n - k,
    {
        heights.push(None);
        k = k + 1;
    }
    proof {
        assert forall|x: int, y: int| 0 <= x < w && 0 <= y < h implies #[trigger] map@.tile(x, y)
            == layer_tile(ps.take(0), x + min_x, y + min_y) && as_height(heights@[y * w + x])
            == layer_height(ps.take(0), x + min_x, y + min_y) by {
            lemma_cell_linear(w as int, h as int, x, y);
        }
    }
    let mut i: usize = 0;
    while i < len
        invariant
            ps == placements@,
            len == ps.len(),
            i <= len,
            map@.wf(),
            map@.width == w,
            map@.height == h,
            map@.tile_size == TILE_SIZE,
            map@.origin_x == GRID_ORIGIN_X,
            map@.origin_y == GRID_ORIGIN_Y,
            w == extent_width(ps),
            h == extent_height(ps),
            min_x == min_col(ps),
            min_y == min_row(ps),
            1 <= w <= 0x800_0001,
            1 <= h <= 0x800_0001,
            n == w * h,
            heights@.len() == n,
            forall|x: int, y: int|
                0 <= x < w && 0 <= y < h ==> #[trigger] map@.tile(x, y) == layer_tile(
                    ps.take(i as int),
                    x + min_x,
                    y + min_y,
                ) && as_height(heights@[y * w + x]) == layer_height(
                    ps.take(i as int),
                    x + min_x,
                    y + min_y,
                ),
        decreases len - i,
    {
        let p = placements[i];
        let cell = placement_cell(&p);
        proof {
            lemma_extent_bounds(ps, i as int);
        }
        let lx = (cell.0 - min_x) as i32;
        let ly = (cell.1 - min_y) as i32;
        proof {
            lemma_cell_linear(w as int, h as int, lx as int, ly as int);
            assert(ps.take(i + 1).drop_last() =~= ps.take(i as int));
            assert(ps.take(i + 1).last() == ps[i as int]);
        }
        let idx = (ly as usize) * (w as usize) + (lx as usize);
        let higher = match heights[idx] {
            None => true,
            Some(z) => p.z > z,
        };
        let ghost prev_map = map@;
        let ghost prev_heights = heights@;
        if higher {
            heights.set(idx, Some(p.z));
            map.set_tile(lx, ly, p.tile_type);
        }
        proof {
            assert forall|x: int, y: int| 0 <= x < w && 0 <= y < h implies #[trigger] map@.tile(x, y)
                == layer_tile(ps.take(i + 1), x + min_x, y + min_y) && as_height(heights@[y * w + x])
                == layer_height(ps.take(i + 1), x + min_x, y + min_y) by {
                lemma_cell_linear(w as int, h as int, x, y);
                assert(prev_map.tile(x, y) == layer_tile(ps.take(i as int), x + min_x, y + min_y));
            }
        }
        i = i + 1;
    }
    proof {
        assert(ps.take(len as int) =~= ps);
        let lv = layered_view(ps);
        assert forall|j: int| 0 <= j < n implies map@.cells[j] == lv.cells[j] by {
            lemma_linear_cell(w as int, h as int, j);
            let x = j % (w as int);
            let y = j / (w as int);
            assert(map@.tile(x, y) == layer_tile(ps, x + min_x, y + min_y));
        }
        assert(map@.cells =~= lv.cells);
        assert(map@ == lv);
    }
    convert_water_edges_to_shore(&mut map);
    Some(map)
}

} // verus!
