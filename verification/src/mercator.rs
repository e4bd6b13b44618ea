//! Tile addresses of the XYZ scheme on the Web Mercator square.
//!
//! - `(0, 0)` is the top-left (north-west) tile; `y` grows southwards.
//! - MBTiles uses the TMS scheme (`y` grows northwards): see
//!   [`TileCoord::tms_row`].

use vstd::arithmetic::power2::{
    lemma2_to64, lemma_pow2_pos, lemma_pow2_strictly_increases, pow2,
};
use vstd::bits::lemma_u32_shl_is_mul;
use vstd::prelude::*;

use crate::grid::{lemma_position, lemma_row_col};

verus! {

/// A tile address in the XYZ scheme.
#[derive(Debug, Clone, Copy, PartialEq, Eq, Hash, Structural)]
pub struct TileCoord {
    /// Zoom level (0 = single world tile).
    pub z: u8,
    /// Column, west to east, in `0..2^z`.
    pub x: u32,
    /// Row, north to south, in `0..2^z`.
    pub y: u32,
}

proof fn lemma_axis(z: u8)
    requires
        z < 32,
    ensures
        1 <= pow2(z as nat) <= 0x8000_0000,
{
    lemma_pow2_pos(z as nat);
    lemma2_to64();
    if z < 31 {
        lemma_pow2_strictly_increases(z as nat, 31);
    }
}

impl TileCoord {
    /// The address lies in the world.
    pub open spec fn valid(&self) -> bool {
        &&& self.z < 32
        &&& self.x < pow2(self.z as nat)
        &&& self.y < pow2(self.z as nat)
    }

    /// Number of tiles per axis at this zoom (`2^z`).
    pub fn tiles_per_axis(z: u8) -> (n: u32)
        requires
            z < 32,
        ensures
            n == pow2(z as nat),
    {
        proof {
            lemma_axis(z);
            lemma_u32_shl_is_mul(1, z as u32);
        }
        1u32 << (z as u32)
    }

    /// Row index in the TMS scheme (used by MBTiles): `2^z - 1 - y`.
    pub fn tms_row(&self) -> (row: u32)
        requires
            self.z < 32,
            self.y < pow2(self.z as nat),
        ensures
            row == pow2(self.z as nat) - 1 - self.y,
    {
        TileCoord::tiles_per_axis(self.z) - 1 - self.y
    }
}

/// Turning a row into the TMS scheme stays in the world, and turning it again
/// gives the row back.
pub proof fn tms_flip_is_an_involution(z: u8, y: u32)
    requires
        z < 32,
        y < pow2(z as nat),
    ensures
        0 <= pow2(z as nat) - 1 - y < pow2(z as nat),
        pow2(z as nat) - 1 - (pow2(z as nat) - 1 - y) == y,
{
}

/// Inclusive range of tiles at one zoom level.
#[derive(Debug, Clone, Copy, PartialEq, Eq, Structural)]
pub struct TileRange {
    pub z: u8,
    pub x_min: u32,
    pub x_max: u32,
    pub y_min: u32,
    pub y_max: u32,
}

/// `v`, brought into `0..=max`.
pub open spec fn clamped(v: int, max: int) -> int {
    if v < 0 {
        0
    } else if v > max {
        max
    } else {
        v
    }
}

fn clamp_index(v: i64, n: u32) -> (index: u32)
    requires
        n > 0,
    ensures
        index == clamped(v as int, n - 1),
{
    if v < 0 {
        0
    } else if v > (n - 1) as i64 {
        n - 1
    } else {
        v as u32
    }
}

/// The larger of two numbers.
pub open spec fn larger(a: int, b: int) -> int {
    if a < b {
        b
    } else {
        a
    }
}

fn larger_index(a: u32, b: u32) -> (index: u32)
    ensures
        index == larger(a as int, b as int),
{
    if a < b {
        b
    } else {
        a
    }
}

/// `range` covers, at zoom `z`, the box with these edges, which are clamped to
/// the world. It never is empty: a box whose far edge falls on a tile boundary
/// before its near edge has one column, or one row.
pub open spec fn covers_box(
    west: int,
    south: int,
    east: int,
    north: int,
    z: u8,
    range: TileRange,
) -> bool {
    let last = pow2(z as nat) - 1;
    &&& range.z == z
    &&& range.x_min == clamped(west, last)
    &&& range.x_max == larger(clamped(east, last), clamped(west, last))
    &&& range.y_min == clamped(north, last)
    &&& range.y_max == larger(clamped(south, last), clamped(north, last))
}

impl TileRange {
    /// The range lies in the world and holds a tile.
    pub open spec fn valid(&self) -> bool {
        &&& self.z < 32
        &&& self.x_min <= self.x_max < pow2(self.z as nat)
        &&& self.y_min <= self.y_max < pow2(self.z as nat)
    }

    /// The number of columns.
    pub open spec fn width(&self) -> int {
        if self.x_min <= self.x_max {
            self.x_max - self.x_min + 1
        } else {
            0
        }
    }

    /// The number of rows.
    pub open spec fn height(&self) -> int {
        if self.y_min <= self.y_max {
            self.y_max - self.y_min + 1
        } else {
            0
        }
    }

    /// The tiles of the range, row by row.
    pub open spec fn tiles(&self) -> Seq<TileCoord> {
        Seq::new(
            (self.width() * self.height()) as nat,
            |k: int|
                TileCoord {
                    z: self.z,
                    x: (self.x_min + k % self.width()) as u32,
                    y: (self.y_min + k / self.width()) as u32,
                },
        )
    }

    /// The tile is in the range.
    pub open spec fn has(&self, tile: TileCoord) -> bool {
        &&& tile.z == self.z
        &&& self.x_min <= tile.x <= self.x_max
        &&& self.y_min <= tile.y <= self.y_max
    }

    /// Tiles covering a box at zoom `z`.
    ///
    /// The box is given by the columns of its `west` and `east` edges and the
    /// rows of its `north` and `south` edges, which may lie outside the world:
    /// they are clamped to it. The range holds one tile at least.
    pub fn for_bounds(west: i64, south: i64, east: i64, north: i64, z: u8) -> (range: TileRange)
        requires
            z < 32,
        ensures
            range.valid(),
            covers_box(west as int, south as int, east as int, north as int, z, range),
    {
        proof {
            lemma_axis(z);
        }
        let n: u32 = TileCoord::tiles_per_axis(z);
        let x_min: u32 = clamp_index(west, n);
        let y_min: u32 = clamp_index(north, n);
        TileRange {
            z,
            x_min,
            x_max: larger_index(clamp_index(east, n), x_min),
            y_min,
            y_max: larger_index(clamp_index(south, n), y_min),
        }
    }

    /// Number of tiles in the range.
    pub fn count(&self) -> (n: u64)
        requires
            self.x_min <= self.x_max,
            self.y_min <= self.y_max,
            self.width() <= u32::MAX,
            self.height() <= u32::MAX,
        ensures
            n == self.tiles().len(),
            n == self.width() * self.height(),
    {
        let w: u64 = (self.x_max - self.x_min + 1) as u64;
        let h: u64 = (self.y_max - self.y_min + 1) as u64;
        assert(0 <= w * h <= u64::MAX) by (nonlinear_arith)
            requires
                0 <= w <= u32::MAX,
                0 <= h <= u32::MAX,
        ;
        w * h
    }

    /// All tile coordinates in the range, row by row.
    pub fn iter(&self) -> (tiles: Vec<TileCoord>)
        ensures
            tiles@ == self.tiles(),
    {
        let mut out: Vec<TileCoord> = Vec::new();
        if self.x_min > self.x_max || self.y_min > self.y_max {
            assert(self.width() * self.height() == 0) by (nonlinear_arith)
                requires
                    self.width() == 0 || self.height() == 0,
            ;
            assert(out@ =~= self.tiles());
            return out;
        }
        let w: u128 = (self.x_max - self.x_min) as u128 + 1;
        let h: u128 = (self.y_max - self.y_min) as u128 + 1;
        assert(0 <= w * h <= 0x1_0000_0000 * 0x1_0000_0000) by (nonlinear_arith)
            requires
                0 <= w <= 0x1_0000_0000,
                0 <= h <= 0x1_0000_0000,
        ;
        let n: u128 = w * h;
        let mut k: u128 = 0;
        while k < n
            invariant
                k <= n,
                n == w * h,
                w == self.width(),
                h == self.height(),
                self.x_min <= self.x_max,
                self.y_min <= self.y_max,
                out@ == self.tiles().take(k as int),
            decreases n - k,
        {
            proof {
                lemma_row_col(k as int, h as int, w as int);
                assert(n == h * w) by (nonlinear_arith)
                    requires
                        n == w * h,
                ;
            }
            out.push(
                TileCoord {
                    z: self.z,
                    x: self.x_min + (k % w) as u32,
                    y: self.y_min + (k / w) as u32,
                },
            );
            k = k + 1;
            assert(out@ =~= self.tiles().take(k as int));
        }
        assert(out@ =~= self.tiles());
        out
    }
}

/// A range lists each of its tiles, and nothing else.
pub proof fn range_lists_its_tiles(range: TileRange, tile: TileCoord)
    ensures
        range.tiles().contains(tile) <==> range.has(tile),
{
    let w = range.width();
    let h = range.height();
    let tiles = range.tiles();
    assert(w * h == h * w) by (nonlinear_arith);
    if tiles.contains(tile) {
        let k = choose|k: int| 0 <= k < tiles.len() && tiles[k] == tile;
        lemma_row_col(k, h, w);
    }
    if range.has(tile) {
        let k = (tile.y - range.y_min) * w + (tile.x - range.x_min);
        lemma_position(tile.y - range.y_min, tile.x - range.x_min, h, w);
        assert(tiles[k] == tile);
    }
}

/// A range lists no tile twice.
pub proof fn range_lists_no_tile_twice(range: TileRange, i: int, j: int)
    requires
        0 <= i < j < range.tiles().len(),
    ensures
        range.tiles()[i] != range.tiles()[j],
{
    let w = range.width();
    let h = range.height();
    assert(w * h == h * w) by (nonlinear_arith);
    lemma_row_col(i, h, w);
    lemma_row_col(j, h, w);
}

/// Every tile of a range in the world is in the world.
pub proof fn range_tiles_are_valid(range: TileRange, i: int)
    requires
        range.valid(),
        0 <= i < range.tiles().len(),
    ensures
        range.tiles()[i].valid(),
{
    let w = range.width();
    let h = range.height();
    assert(w * h == h * w) by (nonlinear_arith);
    lemma_row_col(i, h, w);
}

/// The smallest zoom level, 30 at most, that is fine enough.
///
/// This is the natural maximum zoom of a raster when `fine_enough` compares a
/// zoom's resolution with the native one: tiling deeper adds no information.
pub fn zoom_for_resolution<F: Fn(u8) -> bool>(fine_enough: F) -> (zoom: u8)
    requires
        forall|z: u8| z <= 30 ==> call_requires(fine_enough, (z,)),
    ensures
        zoom <= 30,
        zoom < 30 ==> call_ensures(fine_enough, (zoom,), true),
        forall|z: u8| z < zoom ==> call_ensures(fine_enough, (z,), false),
{
    let mut z: u8 = 0;
    while z < 30
        invariant
            z <= 30,
            forall|y: u8| y <= 30 ==> call_requires(fine_enough, (y,)),
            forall|y: u8| y < z ==> call_ensures(fine_enough, (y,), false),
        decreases 30 - z,
    {
        if fine_enough(z) {
            return z;
        }
        z = z + 1;
    }
    30
}

/// The tiles of a range come row by row from the north, and in a row from the
/// west: behind the tile in column `x` and row `y` comes the one in the next
/// column, and behind the last of a row the first of the next row.
pub proof fn range_tiles_come_row_by_row(range: TileRange, x: u32, y: u32)
    requires
        range.x_min <= x <= range.x_max,
        range.y_min <= y <= range.y_max,
    ensures
        ({
            let across = range.x_max - range.x_min + 1;
            let k = (y - range.y_min) * across + (x - range.x_min);
            &&& range.tiles().len() == across * (range.y_max - range.y_min + 1)
            &&& 0 <= k < range.tiles().len()
            &&& range.tiles()[k] == (TileCoord { z: range.z, x, y })
        }),
{
    let w = range.width();
    let h = range.height();
    assert(w * h == h * w) by (nonlinear_arith);
    assert(w * h >= 0) by (nonlinear_arith)
        requires
            w > 0,
            h > 0,
    ;
    lemma_position(y - range.y_min, x - range.x_min, h, w);
}

/// The range of a box that meets the world holds just the tiles of the world
/// between its edges, ends included: columns from its west to its east, rows from
/// its north to its south.
pub proof fn ranges_hold_the_tiles_of_their_box(
    west: int,
    south: int,
    east: int,
    north: int,
    z: u8,
    range: TileRange,
    tile: TileCoord,
)
    requires
        z < 32,
        covers_box(west, south, east, north, z, range),
        tile.valid(),
        tile.z == z,
        west <= east,
        north <= south,
        0 <= east,
        west < pow2(z as nat),
        0 <= south,
        north < pow2(z as nat),
    ensures
        range.valid(),
        range.has(tile) <==> west <= tile.x <= east && north <= tile.y <= south,
{
    lemma_axis(z);
}

/// The range of a box that lies outside the world is the nearest column, or the
/// nearest row. One whose edges are the wrong way round has a single column, or a
/// single row, that of its first edge.
pub proof fn ranges_outside_the_world_are_at_its_edge(
    west: int,
    south: int,
    east: int,
    north: int,
    z: u8,
    range: TileRange,
)
    requires
        z < 32,
        covers_box(west, south, east, north, z, range),
    ensures
        range.valid(),
        range.z == z,
        west < 0 && east < 0 ==> range.x_min == 0 && range.x_max == 0,
        west >= pow2(z as nat) ==> range.x_min == pow2(z as nat) - 1 && range.x_max == pow2(
            z as nat,
        ) - 1,
        0 <= west < pow2(z as nat) && east < west ==> range.x_min == west && range.x_max == west,
        north < 0 && south < 0 ==> range.y_min == 0 && range.y_max == 0,
        north >= pow2(z as nat) ==> range.y_min == pow2(z as nat) - 1 && range.y_max == pow2(
            z as nat,
        ) - 1,
        0 <= north < pow2(z as nat) && south < north ==> range.y_min == north && range.y_max
            == north,
{
    lemma_axis(z);
}

/// A tile's row in the TMS scheme and its own count from opposite ends: together
/// they are the last row, and the row of the row is the tile's own again.
pub proof fn tms_rows_count_from_the_south(tile: TileCoord, row: u32, back: u32)
    requires
        tile.valid(),
        call_ensures(TileCoord::tms_row, (&tile,), row),
        call_ensures(TileCoord::tms_row, (&TileCoord { z: tile.z, x: tile.x, y: row },), back),
    ensures
        row + tile.y == pow2(tile.z as nat) - 1,
        back == tile.y,
{
}

} // verus!
