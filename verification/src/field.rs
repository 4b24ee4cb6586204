//! The rectangular field and its grid of square tiles.
//!
//! The field is centred on the origin. Tile `(ix, iy)` is the square whose
//! lower left corner lies `ix` tiles right of and `iy` tiles above the lower
//! left corner of the field. Tiles are numbered column by column, so that
//! ascending numbers are ascending `(ix, iy)` pairs.

use crate::geometry::{Aabb, Vector, LIMIT};
use vstd::prelude::*;

verus! {

/// The largest number of tiles a field may have (2^24).
pub const MAX_TILES: u64 = 0x100_0000;

/// The grid coordinates of a tile, which identify it for the whole run.
#[derive(Clone, Copy, Debug, PartialEq, Eq, Structural)]
pub struct TileId {
    pub ix: u32,
    pub iy: u32,
}

/// The extent of the grid: its size in tiles and the side of one tile.
#[derive(Clone, Copy, Debug, PartialEq, Eq, Structural)]
pub struct Field {
    pub grid_width: u32,
    pub grid_height: u32,
    pub tile_size: i64,
}

impl Field {
    /// The grid has at least one tile each way and stays within the machine limits.
    pub open spec fn wf(self) -> bool {
        &&& 1 <= self.grid_width
        &&& 1 <= self.grid_height
        &&& 1 <= self.tile_size
        &&& self.grid_width * self.tile_size <= LIMIT
        &&& self.grid_height * self.tile_size <= LIMIT
        &&& self.grid_width * self.grid_height <= MAX_TILES
    }

    /// The width of the field: columns times tile size.
    pub open spec fn spec_width(self) -> i64 {
        (self.grid_width * self.tile_size) as i64
    }

    /// The height of the field: rows times tile size.
    pub open spec fn spec_height(self) -> i64 {
        (self.grid_height * self.tile_size) as i64
    }

    /// The x coordinate of the left wall: half the width left of the
    /// origin, rounded down to a whole step.
    pub open spec fn spec_left(self) -> i64 {
        (-(self.grid_width * self.tile_size / 2)) as i64
    }

    /// The x coordinate of the right wall: the width right of the left wall.
    pub open spec fn spec_right(self) -> i64 {
        (self.left() + self.width()) as i64
    }

    /// The y coordinate of the bottom wall: half the height below the
    /// origin, rounded down to a whole step.
    pub open spec fn spec_bottom(self) -> i64 {
        (-(self.grid_height * self.tile_size / 2)) as i64
    }

    /// The y coordinate of the top wall: the height above the bottom wall.
    pub open spec fn spec_top(self) -> i64 {
        (self.bottom() + self.height()) as i64
    }

    /// The rectangle enclosed by the outer wall.
    pub open spec fn spec_bounds(self) -> Aabb {
        Aabb {
            min: Vector { x: self.left(), y: self.bottom() },
            max: Vector { x: self.right(), y: self.top() },
        }
    }

    /// The number of tiles: columns times rows.
    pub open spec fn spec_tile_count(self) -> usize {
        (self.grid_width * self.grid_height) as usize
    }

    /// The grid has a tile with these coordinates.
    pub open spec fn spec_holds(self, id: TileId) -> bool {
        id.ix < self.grid_width && id.iy < self.grid_height
    }

    /// The number of a tile: its column times the number of rows, plus its row.
    pub open spec fn spec_index(self, id: TileId) -> usize {
        (id.ix * self.grid_height + id.iy) as usize
    }

    /// The coordinates of the tile with the given number.
    pub open spec fn spec_id_at(self, index: usize) -> TileId {
        TileId {
            ix: (index as int / self.grid_height as int) as u32,
            iy: (index as int % self.grid_height as int) as u32,
        }
    }

    /// The square a tile covers: `ix` and `iy` tile sizes from the lower
    /// left corner of the field, one tile size wide and high.
    pub open spec fn spec_tile_bounds(self, id: TileId) -> Aabb {
        Aabb {
            min: Vector {
                x: (self.left() + id.ix * self.tile_size) as i64,
                y: (self.bottom() + id.iy * self.tile_size) as i64,
            },
            max: Vector {
                x: (self.left() + id.ix * self.tile_size + self.tile_size) as i64,
                y: (self.bottom() + id.iy * self.tile_size + self.tile_size) as i64,
            },
        }
    }

    /// The column whose tiles lie at `x`: the distance from the left wall
    /// in whole tiles, kept within the grid.
    pub open spec fn spec_column_of(self, x: i64) -> u32 {
        if x <= self.left() {
            0
        } else if x >= self.right() {
            (self.grid_width - 1) as u32
        } else {
            ((x - self.left()) / (self.tile_size as int)) as u32
        }
    }

    /// The row whose tiles lie at `y`: the distance from the bottom wall in
    /// whole tiles, kept within the grid.
    pub open spec fn spec_row_of(self, y: i64) -> u32 {
        if y <= self.bottom() {
            0
        } else if y >= self.top() {
            (self.grid_height - 1) as u32
        } else {
            ((y - self.bottom()) / (self.tile_size as int)) as u32
        }
    }

    /// The extent of a well-formed field: it straddles the origin and stays within the limit.
    pub proof fn lemma_extent(self)
        requires
            self.wf(),
        ensures
            self.width() == self.grid_width * self.tile_size,
            self.height() == self.grid_height * self.tile_size,
            1 <= self.width() <= LIMIT,
            1 <= self.height() <= LIMIT,
            self.left() == -(self.width() / 2),
            self.bottom() == -(self.height() / 2),
            self.right() == self.left() + self.width(),
            self.top() == self.bottom() + self.height(),
            -LIMIT <= self.left() <= 0 < self.right() <= LIMIT,
            -LIMIT <= self.bottom() <= 0 < self.top() <= LIMIT,
            1 <= self.tile_count() <= MAX_TILES,
            self.tile_count() == self.grid_width * self.grid_height,
    {
        let w = self.grid_width as int;
        let h = self.grid_height as int;
        let s = self.tile_size as int;
        assert(w * s >= 1 && h * s >= 1 && w * h >= 1) by (nonlinear_arith)
            requires
                w >= 1,
                h >= 1,
                s >= 1,
        ;
    }

    /// Where a tile of the grid lies, and how its number and its coordinates correspond.
    pub proof fn lemma_tile(self, id: TileId)
        requires
            self.wf(),
            self.holds(id),
        ensures
            self.index(id) == id.ix * self.grid_height + id.iy,
            self.index(id) < self.tile_count(),
            self.id_at(self.index(id)) == id,
            self.tile_bounds(id).min.x == self.left() + id.ix * self.tile_size,
            self.tile_bounds(id).min.y == self.bottom() + id.iy * self.tile_size,
            self.tile_bounds(id).max.x == self.tile_bounds(id).min.x + self.tile_size,
            self.tile_bounds(id).max.y == self.tile_bounds(id).min.y + self.tile_size,
            self.left() <= self.tile_bounds(id).min.x,
            self.tile_bounds(id).max.x <= self.right(),
            self.bottom() <= self.tile_bounds(id).min.y,
            self.tile_bounds(id).max.y <= self.top(),
    {
        self.lemma_extent();
        let w = self.grid_width as int;
        let h = self.grid_height as int;
        let s = self.tile_size as int;
        let ix = id.ix as int;
        let iy = id.iy as int;
        assert(0 <= ix * h && ix * h + iy < w * h && ix * h + h <= w * h) by (nonlinear_arith)
            requires
                0 <= ix < w,
                0 <= iy < h,
        ;
        assert(0 <= ix * s && ix * s + s <= w * s) by (nonlinear_arith)
            requires
                0 <= ix < w,
                s >= 1,
        ;
        assert(0 <= iy * s && iy * s + s <= h * s) by (nonlinear_arith)
            requires
                0 <= iy < h,
                s >= 1,
        ;
        assert((ix * h + iy) / h == ix && (ix * h + iy) % h == iy) by (nonlinear_arith)
            requires
                0 <= iy < h,
                0 <= ix,
        ;
    }

    /// Every number below the tile count names a tile of the grid.
    pub proof fn lemma_id_at(self, index: usize)
        requires
            self.wf(),
            index < self.tile_count(),
        ensures
            self.holds(self.id_at(index)),
            self.index(self.id_at(index)) == index,
            self.id_at(index).ix == index as int / self.grid_height as int,
            self.id_at(index).iy == index as int % self.grid_height as int,
    {
        self.lemma_extent();
        let w = self.grid_width as int;
        let h = self.grid_height as int;
        let i = index as int;
        assert(0 <= i / h < w && 0 <= i % h < h && (i / h) * h + i % h == i) by (nonlinear_arith)
            requires
                0 <= i < w * h,
                h >= 1,
        ;
    }

    /// The columns and rows that `column_of` and `row_of` name lie in the grid,
    /// and they do not decrease as the coordinate grows.
    pub proof fn lemma_cells(self, lo: i64, hi: i64)
        requires
            self.wf(),
            lo <= hi,
        ensures
            self.column_of(lo) <= self.column_of(hi) < self.grid_width,
            self.row_of(lo) <= self.row_of(hi) < self.grid_height,
    {
        self.lemma_extent();
        self.lemma_cell_order(self.left(), self.width(), self.grid_width, lo, hi);
        self.lemma_cell_order(self.bottom(), self.height(), self.grid_height, lo, hi);
    }

    /// The order of cells along one axis, for `lemma_cells`.
    proof fn lemma_cell_order(self, start: i64, extent: i64, count: u32, lo: i64, hi: i64)
        requires
            self.tile_size >= 1,
            count >= 1,
            extent == count * self.tile_size,
            lo <= hi,
        ensures
            ({
                let s = self.tile_size as int;
                let a = if lo <= start {
                    0
                } else if lo >= start + extent {
                    count - 1
                } else {
                    (lo - start) / s
                };
                let b = if hi <= start {
                    0
                } else if hi >= start + extent {
                    count - 1
                } else {
                    (hi - start) / s
                };
                0 <= a <= b < count
            }),
    {
        let s = self.tile_size as int;
        let n = count as int;
        if start < lo < start + extent {
            let d = lo - start;
            assert(0 <= d / s < n) by (nonlinear_arith)
                requires
                    0 < d < n * s,
                    s >= 1,
            ;
        }
        if start < hi < start + extent {
            let d = hi - start;
            assert(0 <= d / s < n) by (nonlinear_arith)
                requires
                    0 < d < n * s,
                    s >= 1,
            ;
        }
        if start < lo && hi < start + extent {
            let d = lo - start;
            let e = hi - start;
            assert(d / s <= e / s) by (nonlinear_arith)
                requires
                    0 < d <= e,
                    s >= 1,
            ;
        }
    }

    /// The width of the field.
    #[verifier::when_used_as_spec(spec_width)]
    pub fn width(self) -> (w: i64)
        requires
            self.wf(),
        ensures
            w == self.spec_width(),
            w == self.grid_width * self.tile_size,
    {
        (self.grid_width as i64) * self.tile_size
    }

    /// The height of the field.
    #[verifier::when_used_as_spec(spec_height)]
    pub fn height(self) -> (h: i64)
        requires
            self.wf(),
        ensures
            h == self.spec_height(),
            h == self.grid_height * self.tile_size,
    {
        (self.grid_height as i64) * self.tile_size
    }

    /// The x coordinate of the left wall.
    #[verifier::when_used_as_spec(spec_left)]
    pub fn left(self) -> (x: i64)
        requires
            self.wf(),
        ensures
            x == self.spec_left(),
    {
        proof {
            self.lemma_extent();
        }
        let half: i64 = self.width() / 2;
        -half
    }

    /// The x coordinate of the right wall.
    #[verifier::when_used_as_spec(spec_right)]
    pub fn right(self) -> (x: i64)
        requires
            self.wf(),
        ensures
            x == self.spec_right(),
    {
        proof {
            self.lemma_extent();
        }
        self.left() + self.width()
    }

    /// The y coordinate of the bottom wall.
    #[verifier::when_used_as_spec(spec_bottom)]
    pub fn bottom(self) -> (y: i64)
        requires
            self.wf(),
        ensures
            y == self.spec_bottom(),
    {
        proof {
            self.lemma_extent();
        }
        let half: i64 = self.height() / 2;
        -half
    }

    /// The y coordinate of the top wall.
    #[verifier::when_used_as_spec(spec_top)]
    pub fn top(self) -> (y: i64)
        requires
            self.wf(),
        ensures
            y == self.spec_top(),
    {
        proof {
            self.lemma_extent();
        }
        self.bottom() + self.height()
    }

    /// The rectangle enclosed by the outer wall.
    #[verifier::when_used_as_spec(spec_bounds)]
    pub fn bounds(self) -> (b: Aabb)
        requires
            self.wf(),
        ensures
            b == self.spec_bounds(),
    {
        Aabb {
            min: Vector { x: self.left(), y: self.bottom() },
            max: Vector { x: self.right(), y: self.top() },
        }
    }

    /// The number of tiles of the grid.
    #[verifier::when_used_as_spec(spec_tile_count)]
    pub fn tile_count(self) -> (n: usize)
        requires
            self.wf(),
        ensures
            n == self.spec_tile_count(),
            n == self.grid_width * self.grid_height,
    {
        proof {
            self.lemma_extent();
        }
        let n: u64 = (self.grid_width as u64) * (self.grid_height as u64);
        n as usize
    }

    /// Whether the grid has a tile with these coordinates.
    #[verifier::when_used_as_spec(spec_holds)]
    pub fn holds(self, id: TileId) -> (b: bool)
        ensures
            b == self.spec_holds(id),
    {
        id.ix < self.grid_width && id.iy < self.grid_height
    }

    /// The number of a tile: columns first, so that numbers ascend with `(ix, iy)`.
    #[verifier::when_used_as_spec(spec_index)]
    pub fn index(self, id: TileId) -> (i: usize)
        requires
            self.wf(),
            self.holds(id),
        ensures
            i == self.spec_index(id),
            i < self.tile_count(),
    {
        proof {
            self.lemma_tile(id);
            self.lemma_extent();
        }
        let i: u64 = (id.ix as u64) * (self.grid_height as u64) + (id.iy as u64);
        i as usize
    }

    /// The coordinates of the tile with the given number.
    #[verifier::when_used_as_spec(spec_id_at)]
    pub fn id_at(self, index: usize) -> (id: TileId)
        requires
            self.wf(),
            index < self.tile_count(),
        ensures
            id == self.spec_id_at(index),
            self.holds(id),
    {
        proof {
            self.lemma_id_at(index);
            self.lemma_extent();
        }
        let h: u64 = self.grid_height as u64;
        let i: u64 = index as u64;
        TileId { ix: (i / h) as u32, iy: (i % h) as u32 }
    }

    /// The square a tile covers.
    #[verifier::when_used_as_spec(spec_tile_bounds)]
    pub fn tile_bounds(self, id: TileId) -> (b: Aabb)
        requires
            self.wf(),
            self.holds(id),
        ensures
            b == self.spec_tile_bounds(id),
    {
        proof {
            self.lemma_tile(id);
            self.lemma_extent();
        }
        let x: i64 = self.left() + (id.ix as i64) * self.tile_size;
        let y: i64 = self.bottom() + (id.iy as i64) * self.tile_size;
        Aabb {
            min: Vector { x, y },
            max: Vector { x: x + self.tile_size, y: y + self.tile_size },
        }
    }

    /// The column whose tiles lie at `x`; the first or last column where `x` is
    /// on or beyond the wall.
    #[verifier::when_used_as_spec(spec_column_of)]
    pub fn column_of(self, x: i64) -> (ix: u32)
        requires
            self.wf(),
        ensures
            ix == self.spec_column_of(x),
            ix < self.grid_width,
    {
        proof {
            self.lemma_extent();
            self.lemma_cells(x, x);
        }
        if x <= self.left() {
            0
        } else if x >= self.right() {
            self.grid_width - 1
        } else {
            let offset: u64 = (x - self.left()) as u64;
            (offset / (self.tile_size as u64)) as u32
        }
    }

    /// The row whose tiles lie at `y`; the first or last row where `y` is on or
    /// beyond the wall.
    #[verifier::when_used_as_spec(spec_row_of)]
    pub fn row_of(self, y: i64) -> (iy: u32)
        requires
            self.wf(),
        ensures
            iy == self.spec_row_of(y),
            iy < self.grid_height,
    {
        proof {
            self.lemma_extent();
            self.lemma_cells(y, y);
        }
        if y <= self.bottom() {
            0
        } else if y >= self.top() {
            self.grid_height - 1
        } else {
            let offset: u64 = (y - self.bottom()) as u64;
            (offset / (self.tile_size as u64)) as u32
        }
    }
}

} // verus!
