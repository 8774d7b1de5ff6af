//! The tile grid: a flat row-major array of tiles, the single source of
//! truth for terrain state, together with its mutation queue.
//!
//! Every mutation that changes a cell's kind appends the coordinate to
//! `changed_tiles` instead of touching drawables directly; the redraw step
//! in `stream` drains that queue once per frame.

use vstd::prelude::*;

use crate::tile::{
    compute_rgb, is_solid_kind, kind_mine_time, make_tile, mine_time_of, fresh_tile, rgb_of,
    solid_kind, tile_wf, Rgb, Tile, TileKind, COLOR_LEVELS,
};

verus! {

/// Squared Euclidean distance between two tile coordinates.
pub open spec fn dist2(ax: int, ay: int, bx: int, by: int) -> int {
    (ax - bx) * (ax - bx) + (ay - by) * (ay - by)
}

/// A row-major flat index stays inside the grid.
pub proof fn lemma_idx_bounds(x: int, y: int, w: int, h: int)
    requires
        0 <= x < w,
        0 <= y < h,
    ensures
        0 <= y * w + x < w * h,
{
    assert(0 <= y * w + x < w * h) by (nonlinear_arith)
        requires 0 <= x < w && 0 <= y < h;
}

/// Distinct in-bounds coordinates have distinct flat indices.
pub proof fn lemma_idx_injective(x1: int, y1: int, x2: int, y2: int, w: int)
    requires
        0 <= x1 < w,
        0 <= x2 < w,
        0 <= y1,
        0 <= y2,
        y1 * w + x1 == y2 * w + x2,
    ensures
        x1 == x2 && y1 == y2,
{
    assert(x1 == x2 && y1 == y2) by (nonlinear_arith)
        requires
            0 <= x1 < w && 0 <= x2 < w && 0 <= y1 && 0 <= y2 && y1 * w + x1 == y2 * w + x2;
}

/// The tile grid with its parallel bookkeeping: fixed dimensions, a
/// per-column surface height map, and the FIFO mutation queue.
pub struct Terrain {
    /// Row-major tiles; index of `(x, y)` is `y * width + x`.
    pub tiles: Vec<Tile>,
    pub width: usize,
    pub height: usize,
    /// `height_map[x]` is the surface row (topmost solid row) of column `x`.
    pub height_map: Vec<usize>,
    /// Coordinates whose terrain state changed and await redraw, in FIFO
    /// order; duplicates are tolerated and handled idempotently.
    pub changed_tiles: Vec<(usize, usize)>,
}

impl Terrain {
    pub open spec fn in_bounds(self, x: int, y: int) -> bool {
        0 <= x < self.width && 0 <= y < self.height
    }

    pub open spec fn tile_at(self, x: int, y: int) -> Tile {
        self.tiles@[y * self.width + x]
    }

    pub open spec fn kind_at(self, x: int, y: int) -> TileKind {
        self.tile_at(x, y).kind
    }

    /// Out-of-bounds coordinates count as solid, so callers never need to
    /// pre-validate bounds.
    pub open spec fn spec_solid(self, x: int, y: int) -> bool {
        !self.in_bounds(x, y) || is_solid_kind(self.kind_at(x, y))
    }

    /// Grid invariant: dimensions are bounded (so index arithmetic cannot
    /// overflow), the arrays have matching lengths, the surface rows are in
    /// range, every tile is well-formed — in particular, `Air` and `Sky`
    /// cells carry `mine_time == 0` — and every queued coordinate is in
    /// bounds.
    pub open spec fn wf(self) -> bool {
        &&& 1 <= self.width <= 32768
        &&& 1 <= self.height <= 32768
        &&& self.tiles@.len() == self.width * self.height
        &&& self.height_map@.len() == self.width
        &&& forall|x: int| 0 <= x < self.width ==> (#[trigger] self.height_map@[x]) < self.height
        &&& forall|i: int| 0 <= i < self.tiles@.len() ==> tile_wf(#[trigger] self.tiles@[i])
        &&& forall|k: int| 0 <= k < self.changed_tiles@.len() ==> {
                let c = #[trigger] self.changed_tiles@[k];
                c.0 < self.width && c.1 < self.height
            }
    }

    /// Flat index of an in-bounds coordinate.
    pub fn idx(&self, x: usize, y: usize) -> (i: usize)
        requires
            self.wf(),
            x < self.width,
            y < self.height,
        ensures
            i == y * self.width + x,
            i < self.tiles@.len(),
    {
        proof {
            lemma_idx_bounds(x as int, y as int, self.width as int, self.height as int);
            assert(self.width * self.height <= 32768 * 32768) by (nonlinear_arith)
                requires self.width <= 32768 && self.height <= 32768;
        }
        y * self.width + x
    }

    /// Read one tile.
    pub fn get_tile(&self, x: usize, y: usize) -> (t: Tile)
        requires
            self.wf(),
            x < self.width,
            y < self.height,
        ensures
            t == self.tile_at(x as int, y as int),
    {
        let i = self.idx(x, y);
        self.tiles[i]
    }

    /// The surface row of a column.
    pub fn surface(&self, x: usize) -> (row: usize)
        requires
            self.wf(),
            x < self.width,
        ensures
            row == self.height_map@[x as int],
            row < self.height,
    {
        self.height_map[x]
    }

    /// A grid filled uniformly with fresh tiles of one kind, with a flat
    /// surface height map and an empty mutation queue.
    pub fn new_uniform(width: usize, height: usize, k: TileKind, surface: usize) -> (t: Terrain)
        requires
            1 <= width <= 32768,
            1 <= height <= 32768,
            surface < height,
        ensures
            t.wf(),
            t.width == width,
            t.height == height,
            forall|x: int| 0 <= x < width ==> (#[trigger] t.height_map@[x]) == surface,
            forall|i: int, j: int|
                0 <= i < width && 0 <= j < height ==> #[trigger] t.tile_at(i, j) == fresh_tile(
                    k,
                    0,
                ),
            t.changed_tiles@ =~= Seq::<(usize, usize)>::empty(),
    {
        proof {
            assert(width * height <= 32768 * 32768) by (nonlinear_arith)
                requires width <= 32768 && height <= 32768;
            assert(width * height >= 1) by (nonlinear_arith)
                requires width >= 1 && height >= 1;
        }
        let n: usize = width * height;
        let proto = make_tile(k, 0);
        let mut tiles: Vec<Tile> = Vec::new();
        let mut i: usize = 0;
        while i < n
            invariant
                i <= n,
                tiles@.len() == i,
                forall|j: int| 0 <= j < i ==> (#[trigger] tiles@[j]) == fresh_tile(k, 0),
                proto == fresh_tile(k, 0),
            decreases n - i,
        {
            tiles.push(proto);
            i = i + 1;
        }
        let mut height_map: Vec<usize> = Vec::new();
        let mut x: usize = 0;
        while x < width
            invariant
                x <= width,
                height_map@.len() == x,
                forall|j: int| 0 <= j < x ==> (#[trigger] height_map@[j]) == surface,
            decreases width - x,
        {
            height_map.push(surface);
            x = x + 1;
        }
        let t = Terrain { tiles, width, height, height_map, changed_tiles: Vec::new() };
        proof {
            assert forall|i2: int, j2: int| 0 <= i2 < width && 0 <= j2 < height implies #[trigger] t.tile_at(
                i2,
                j2,
            ) == fresh_tile(k, 0) by {
                lemma_idx_bounds(i2, j2, width as int, height as int);
            }
        }
        t
    }
}

/// Grid invariant: a cell whose kind is not solid — `Air` or `Sky` —
/// carries no remaining mining work.
pub proof fn lemma_nonsolid_no_mine_time(t: Terrain, x: int, y: int)
    requires
        t.wf(),
        t.in_bounds(x, y),
        !is_solid_kind(t.kind_at(x, y)),
    ensures
        t.tile_at(x, y).mine_time == 0,
{
    lemma_idx_bounds(x, y, t.width as int, t.height as int);
}

/// Dimensions and the height map are unchanged between two grid states.
pub open spec fn same_dims(a: Terrain, b: Terrain) -> bool {
    &&& b.width == a.width
    &&& b.height == a.height
    &&& b.height_map@ == a.height_map@
}

/// Every cell except `(x, y)` holds the same tile in both grid states.
pub open spec fn tiles_unchanged_except(a: Terrain, b: Terrain, x: int, y: int) -> bool {
    forall|i: int, j: int|
        0 <= i < a.width && 0 <= j < a.height && !(i == x && j == y) ==> #[trigger] b.tile_at(i, j)
            == a.tile_at(i, j)
}

/// Collision query: is the tile at `(tx, ty)` solid?  Out-of-bounds
/// coordinates are solid by convention.
pub fn solid(terrain: &Terrain, tx: i32, ty: i32) -> (r: bool)
    requires
        terrain.wf(),
    ensures
        r == terrain.spec_solid(tx as int, ty as int),
{
    if tx < 0 || ty < 0 || tx >= terrain.width as i32 || ty >= terrain.height as i32 {
        return true;
    }
    let t = terrain.get_tile(tx as usize, ty as usize);
    solid_kind(t.kind)
}

impl Terrain {
    /// Set one cell to a fresh state of the given kind, keeping its
    /// visibility flags and brightness band, and queue it for redraw.
    pub fn set_tile_kind(&mut self, x: usize, y: usize, k: TileKind)
        requires
            old(self).wf(),
            x < old(self).width,
            y < old(self).height,
        ensures
            final(self).wf(),
            same_dims(*old(self), *final(self)),
            tiles_unchanged_except(*old(self), *final(self), x as int, y as int),
            final(self).tile_at(x as int, y as int) == ({
                let t = old(self).tile_at(x as int, y as int);
                Tile {
                    kind: k,
                    visible: t.visible,
                    explored: t.explored,
                    mine_time: kind_mine_time(k),
                    shade: t.shade,
                    base_rgb: rgb_of(k, t.shade),
                }
            }),
            final(self).changed_tiles@ == old(self).changed_tiles@.push((x, y)),
    {
        let i = self.idx(x, y);
        let t = self.tiles[i];
        let nt = Tile {
            kind: k,
            visible: t.visible,
            explored: t.explored,
            mine_time: mine_time_of(k),
            shade: t.shade,
            base_rgb: compute_rgb(k, t.shade),
        };
        self.tiles.set(i, nt);
        self.changed_tiles.push((x, y));
        proof {
            self.lemma_one_cell_update(*old(self), x as int, y as int);
        }
    }

    /// After updating the flat index of `(x, y)` only, every other cell
    /// reads back unchanged.
    pub proof fn lemma_one_cell_update(self, prev: Terrain, x: int, y: int)
        requires
            prev.wf(),
            0 <= x < prev.width,
            0 <= y < prev.height,
            self.width == prev.width,
            self.height == prev.height,
            self.tiles@.len() == prev.tiles@.len(),
            forall|n: int|
                0 <= n < prev.tiles@.len() && n != y * prev.width + x ==> #[trigger] self.tiles@[n]
                    == prev.tiles@[n],
        ensures
            tiles_unchanged_except(prev, self, x, y),
    {
        assert forall|i: int, j: int|
            0 <= i < prev.width && 0 <= j < prev.height && !(i == x && j == y) implies #[trigger] self.tile_at(
            i,
            j,
        ) == prev.tile_at(i, j) by {
            lemma_idx_bounds(i, j, prev.width as int, prev.height as int);
            if j * prev.width + i == y * prev.width + x {
                lemma_idx_injective(i, j, x, y, prev.width as int);
            }
        }
    }

    /// Overwrite one cell with a fresh tile of the given kind, keeping its
    /// visibility flags and brightness band.  Unlike `set_tile_kind` this
    /// does not queue a redraw: it is meant for generation, which runs
    /// before any drawable exists.
    pub fn write_kind(&mut self, x: usize, y: usize, k: TileKind)
        requires
            old(self).wf(),
            x < old(self).width,
            y < old(self).height,
        ensures
            final(self).wf(),
            same_dims(*old(self), *final(self)),
            tiles_unchanged_except(*old(self), *final(self), x as int, y as int),
            final(self).tile_at(x as int, y as int) == ({
                let t = old(self).tile_at(x as int, y as int);
                Tile {
                    kind: k,
                    visible: t.visible,
                    explored: t.explored,
                    mine_time: kind_mine_time(k),
                    shade: t.shade,
                    base_rgb: rgb_of(k, t.shade),
                }
            }),
            final(self).changed_tiles@ == old(self).changed_tiles@,
    {
        let i = self.idx(x, y);
        let t = self.tiles[i];
        let nt = Tile {
            kind: k,
            visible: t.visible,
            explored: t.explored,
            mine_time: mine_time_of(k),
            shade: t.shade,
            base_rgb: compute_rgb(k, t.shade),
        };
        self.tiles.set(i, nt);
        proof {
            self.lemma_one_cell_update(*old(self), x as int, y as int);
        }
    }

    /// Set one cell's visibility flags, leaving everything else — the
    /// mutation queue included — untouched.
    pub fn set_visibility(&mut self, x: usize, y: usize, vis: bool, expl: bool)
        requires
            old(self).wf(),
            x < old(self).width,
            y < old(self).height,
        ensures
            final(self).wf(),
            same_dims(*old(self), *final(self)),
            tiles_unchanged_except(*old(self), *final(self), x as int, y as int),
            final(self).tile_at(x as int, y as int) == ({
                let t = old(self).tile_at(x as int, y as int);
                Tile {
                    kind: t.kind,
                    visible: vis,
                    explored: expl,
                    mine_time: t.mine_time,
                    shade: t.shade,
                    base_rgb: t.base_rgb,
                }
            }),
            final(self).changed_tiles@ == old(self).changed_tiles@,
    {
        let i = self.idx(x, y);
        let t = self.tiles[i];
        let nt = Tile {
            kind: t.kind,
            visible: vis,
            explored: expl,
            mine_time: t.mine_time,
            shade: t.shade,
            base_rgb: t.base_rgb,
        };
        self.tiles.set(i, nt);
        proof {
            self.lemma_one_cell_update(*old(self), x as int, y as int);
        }
    }

    /// Apply `amount` units of mining work to a cell.  Non-solid cells are
    /// untouched; a solid cell whose remaining work exceeds `amount` keeps
    /// its kind with the work reduced; otherwise the tile breaks: its kind
    /// flips to `Air`, and its coordinate is queued exactly once.
    pub fn mine_tile(&mut self, x: usize, y: usize, amount: u32) -> (broke: bool)
        requires
            old(self).wf(),
            x < old(self).width,
            y < old(self).height,
            1 <= amount,
        ensures
            final(self).wf(),
            same_dims(*old(self), *final(self)),
            tiles_unchanged_except(*old(self), *final(self), x as int, y as int),
            ({
                let t = old(self).tile_at(x as int, y as int);
                let t2 = final(self).tile_at(x as int, y as int);
                if !is_solid_kind(t.kind) {
                    !broke && t2 == t && final(self).changed_tiles@ == old(self).changed_tiles@
                } else if t.mine_time > amount {
                    &&& !broke
                    &&& t2 == (Tile {
                        kind: t.kind,
                        visible: t.visible,
                        explored: t.explored,
                        mine_time: (t.mine_time - amount) as u32,
                        shade: t.shade,
                        base_rgb: t.base_rgb,
                    })
                    &&& final(self).changed_tiles@ == old(self).changed_tiles@
                } else {
                    &&& broke
                    &&& t2 == (Tile {
                        kind: TileKind::Air,
                        visible: t.visible,
                        explored: t.explored,
                        mine_time: 0,
                        shade: t.shade,
                        base_rgb: rgb_of(TileKind::Air, t.shade),
                    })
                    &&& final(self).changed_tiles@ == old(self).changed_tiles@.push((x, y))
                }
            }),
    {
        let i = self.idx(x, y);
        let t = self.tiles[i];
        if !solid_kind(t.kind) {
            proof {
                self.lemma_one_cell_update(*old(self), x as int, y as int);
            }
            return false;
        }
        if t.mine_time > amount {
            let nt = Tile {
                kind: t.kind,
                visible: t.visible,
                explored: t.explored,
                mine_time: t.mine_time - amount,
                shade: t.shade,
                base_rgb: t.base_rgb,
            };
            self.tiles.set(i, nt);
            proof {
                self.lemma_one_cell_update(*old(self), x as int, y as int);
            }
            false
        } else {
            let nt = Tile {
                kind: TileKind::Air,
                visible: t.visible,
                explored: t.explored,
                mine_time: 0,
                shade: t.shade,
                base_rgb: compute_rgb(TileKind::Air, t.shade),
            };
            self.tiles.set(i, nt);
            self.changed_tiles.push((x, y));
            proof {
                self.lemma_one_cell_update(*old(self), x as int, y as int);
            }
            true
        }
    }

    /// A block can be placed on an `Air` or `Sky` cell that touches at
    /// least one solid neighbour (out-of-bounds neighbours count as solid).
    pub open spec fn can_place_spec(self, x: int, y: int) -> bool {
        &&& self.in_bounds(x, y)
        &&& (self.kind_at(x, y) == TileKind::Air || self.kind_at(x, y) == TileKind::Sky)
        &&& (self.spec_solid(x - 1, y) || self.spec_solid(x + 1, y) || self.spec_solid(x, y - 1)
            || self.spec_solid(x, y + 1))
    }

    /// Executable twin of `can_place_spec`.
    pub fn can_place(&self, x: i32, y: i32) -> (r: bool)
        requires
            self.wf(),
        ensures
            r == self.can_place_spec(x as int, y as int),
    {
        if x < 0 || y < 0 || x >= self.width as i32 || y >= self.height as i32 {
            return false;
        }
        let t = self.get_tile(x as usize, y as usize);
        if !(matches!(t.kind, TileKind::Air | TileKind::Sky)) {
            return false;
        }
        solid(self, x - 1, y) || solid(self, x + 1, y) || solid(self, x, y - 1) || solid(
            self,
            x,
            y + 1,
        )
    }

    /// The tile that results from digging or carving a cell open.
    pub open spec fn dug_tile(t: Tile) -> Tile {
        Tile {
            kind: TileKind::Air,
            visible: t.visible,
            explored: t.explored,
            mine_time: 0,
            shade: t.shade,
            base_rgb: rgb_of(TileKind::Air, t.shade),
        }
    }

    /// A cell the circular dig affects: in bounds, inside the disc, and
    /// currently solid.
    pub open spec fn in_dig_region(self, cx: int, cy: int, r: int, i: int, j: int) -> bool {
        &&& self.in_bounds(i, j)
        &&& dist2(i, j, cx, cy) <= r * r
        &&& is_solid_kind(self.kind_at(i, j))
    }

    /// Dig every solid tile within Euclidean distance `r` of `(cx, cy)`
    /// open to `Air`, queueing each dug coordinate exactly once; all other
    /// cells are untouched.
    pub fn dig_disc(&mut self, cx: i32, cy: i32, r: i32)
        requires
            old(self).wf(),
            0 <= r <= 1024,
            -2000000 <= cx <= 2000000,
            -2000000 <= cy <= 2000000,
        ensures
            final(self).wf(),
            same_dims(*old(self), *final(self)),
            forall|i: int, j: int|
                old(self).in_dig_region(cx as int, cy as int, r as int, i, j)
                    ==> #[trigger] final(self).tile_at(i, j) == Terrain::dug_tile(
                    old(self).tile_at(i, j),
                ),
            forall|i: int, j: int|
                old(self).in_bounds(i, j) && !old(self).in_dig_region(
                    cx as int,
                    cy as int,
                    r as int,
                    i,
                    j,
                ) ==> #[trigger] final(self).tile_at(i, j) == old(self).tile_at(i, j),
            final(self).changed_tiles@.len() >= old(self).changed_tiles@.len(),
            forall|k: int|
                0 <= k < old(self).changed_tiles@.len()
                    ==> #[trigger] final(self).changed_tiles@[k] == old(self).changed_tiles@[k],
            forall|k: int|
                old(self).changed_tiles@.len() <= k < final(self).changed_tiles@.len() ==> {
                    let c = #[trigger] final(self).changed_tiles@[k];
                    old(self).in_dig_region(cx as int, cy as int, r as int, c.0 as int, c.1 as int)
                },
            forall|i: int, j: int|
                old(self).in_dig_region(cx as int, cy as int, r as int, i, j) ==> exists|k: int|
                    old(self).changed_tiles@.len() <= k < final(self).changed_tiles@.len()
                        && #[trigger] final(self).changed_tiles@[k] == ((i as usize), (j as usize)),
            forall|k: int, l: int|
                old(self).changed_tiles@.len() <= k < l < final(self).changed_tiles@.len()
                    ==> #[trigger] final(self).changed_tiles@[k]
                    != #[trigger] final(self).changed_tiles@[l],
    {
        let w = self.width;
        let h = self.height;
        let ghost orig = *self;
        let ghost q0 = self.changed_tiles@.len() as int;
        let y_lo: i32 = if cy - r < 0 {
            0
        } else {
            cy - r
        };
        let y_hi: i32 = if cy + r >= h as i32 {
            h as i32 - 1
        } else {
            cy + r
        };
        let x_lo: i32 = if cx - r < 0 {
            0
        } else {
            cx - r
        };
        let x_hi: i32 = if cx + r >= w as i32 {
            w as i32 - 1
        } else {
            cx + r
        };
        proof {
            assert forall|i: int, j: int|
                orig.in_dig_region(cx as int, cy as int, r as int, i, j) implies x_lo <= i <= x_hi
                && y_lo <= j <= y_hi by {
                assert((i - cx) * (i - cx) >= 0 && (j - cy) * (j - cy) >= 0) by (nonlinear_arith);
                if j < cy - r || j > cy + r {
                    assert((j - cy) * (j - cy) > r * r) by (nonlinear_arith)
                        requires j < cy - r || j > cy + r, r >= 0;
                }
                if i < cx - r || i > cx + r {
                    assert((i - cx) * (i - cx) > r * r) by (nonlinear_arith)
                        requires i < cx - r || i > cx + r, r >= 0;
                }
            }
        }
        if y_lo > y_hi || x_lo > x_hi {
            return;
        }
        let mut ty: i32 = y_lo;
        while ty <= y_hi
            invariant
                self.wf(),
                orig.wf(),
                same_dims(orig, *self),
                y_lo <= ty <= y_hi + 1,
                0 <= y_lo,
                y_hi < self.height,
                0 <= x_lo <= x_hi < self.width,
                cy - r <= y_lo,
                y_hi <= cy + r,
                cx - r <= x_lo,
                x_hi <= cx + r,
                0 <= r <= 1024,
                -2000000 <= cx <= 2000000,
                -2000000 <= cy <= 2000000,
                forall|i: int, j: int|
                    orig.in_dig_region(cx as int, cy as int, r as int, i, j) ==> x_lo <= i <= x_hi
                        && y_lo <= j <= y_hi,
                forall|i: int, j: int|
                    orig.in_dig_region(cx as int, cy as int, r as int, i, j) && j < ty
                        ==> #[trigger] self.tile_at(i, j) == Terrain::dug_tile(orig.tile_at(i, j)),
                forall|i: int, j: int|
                    orig.in_bounds(i, j) && !(orig.in_dig_region(cx as int, cy as int, r as int, i, j)
                        && j < ty) ==> #[trigger] self.tile_at(i, j) == orig.tile_at(i, j),
                q0 == orig.changed_tiles@.len(),
                self.changed_tiles@.len() >= q0,
                forall|k: int| 0 <= k < q0 ==> #[trigger] self.changed_tiles@[k]
                    == orig.changed_tiles@[k],
                forall|k: int|
                    q0 <= k < self.changed_tiles@.len() ==> {
                        let c = #[trigger] self.changed_tiles@[k];
                        orig.in_dig_region(cx as int, cy as int, r as int, c.0 as int, c.1 as int)
                            && (c.1 as int) < ty
                    },
                forall|i: int, j: int|
                    orig.in_dig_region(cx as int, cy as int, r as int, i, j) && j < ty
                        ==> exists|k: int|
                        q0 <= k < self.changed_tiles@.len() && #[trigger] self.changed_tiles@[k]
                            == ((i as usize), (j as usize)),
                forall|k: int, l: int|
                    q0 <= k < l < self.changed_tiles@.len() ==> #[trigger] self.changed_tiles@[k]
                        != #[trigger] self.changed_tiles@[l],
            decreases y_hi + 1 - ty,
        {
            let mut tx: i32 = x_lo;
            while tx <= x_hi
                invariant
                    self.wf(),
                    orig.wf(),
                    same_dims(orig, *self),
                    y_lo <= ty <= y_hi,
                    x_lo <= tx <= x_hi + 1,
                    0 <= y_lo,
                    y_hi < self.height,
                    0 <= x_lo <= x_hi < self.width,
                    cy - r <= y_lo,
                    y_hi <= cy + r,
                    cx - r <= x_lo,
                    x_hi <= cx + r,
                    0 <= r <= 1024,
                    -2000000 <= cx <= 2000000,
                    -2000000 <= cy <= 2000000,
                    forall|i: int, j: int|
                        orig.in_dig_region(cx as int, cy as int, r as int, i, j) ==> x_lo <= i
                            <= x_hi && y_lo <= j <= y_hi,
                    forall|i: int, j: int|
                        orig.in_dig_region(cx as int, cy as int, r as int, i, j) && (j < ty || (j
                            == ty && i < tx)) ==> #[trigger] self.tile_at(i, j)
                            == Terrain::dug_tile(orig.tile_at(i, j)),
                    forall|i: int, j: int|
                        orig.in_bounds(i, j) && !(orig.in_dig_region(
                            cx as int,
                            cy as int,
                            r as int,
                            i,
                            j,
                        ) && (j < ty || (j == ty && i < tx))) ==> #[trigger] self.tile_at(i, j)
                            == orig.tile_at(i, j),
                    q0 == orig.changed_tiles@.len(),
                    self.changed_tiles@.len() >= q0,
                    forall|k: int| 0 <= k < q0 ==> #[trigger] self.changed_tiles@[k]
                        == orig.changed_tiles@[k],
                    forall|k: int|
                        q0 <= k < self.changed_tiles@.len() ==> {
                            let c = #[trigger] self.changed_tiles@[k];
                            orig.in_dig_region(
                                cx as int,
                                cy as int,
                                r as int,
                                c.0 as int,
                                c.1 as int,
                            ) && ((c.1 as int) < ty || ((c.1 as int) == ty && (c.0 as int) < tx))
                        },
                    forall|i: int, j: int|
                        orig.in_dig_region(cx as int, cy as int, r as int, i, j) && (j < ty || (j
                            == ty && i < tx)) ==> exists|k: int|
                            q0 <= k < self.changed_tiles@.len() && #[trigger] self.changed_tiles@[k]
                                == ((i as usize), (j as usize)),
                    forall|k: int, l: int|
                        q0 <= k < l < self.changed_tiles@.len() ==> #[trigger] self.changed_tiles@[k]
                            != #[trigger] self.changed_tiles@[l],
                decreases x_hi + 1 - tx,
            {
                let ghost qpre = self.changed_tiles@;
                let dx: i64 = (tx - cx) as i64;
                let dy: i64 = (ty - cy) as i64;
                proof {
                    assert(dx * dx <= 1024 * 1024 && dx * dx >= 0 && dy * dy <= 1024 * 1024
                        && dy * dy >= 0) by (nonlinear_arith)
                        requires -1024 <= dx <= 1024 && -1024 <= dy <= 1024;
                }
                let d2: i64 = dx * dx + dy * dy;
                proof {
                    assert(0 <= (r as i64) * (r as i64) <= 1024 * 1024) by (nonlinear_arith)
                        requires 0 <= r <= 1024;
                }
                let r2: i64 = (r as i64) * (r as i64);
                if d2 <= r2 {
                    let ux = tx as usize;
                    let uy = ty as usize;
                    let i = self.idx(ux, uy);
                    let t = self.tiles[i];
                    if solid_kind(t.kind) {
                        let ghost before = *self;
                        let nt = Tile {
                            kind: TileKind::Air,
                            visible: t.visible,
                            explored: t.explored,
                            mine_time: 0,
                            shade: t.shade,
                            base_rgb: compute_rgb(TileKind::Air, t.shade),
                        };
                        self.tiles.set(i, nt);
                        self.changed_tiles.push((ux, uy));
                        proof {
                            self.lemma_one_cell_update(before, tx as int, ty as int);
                            assert(before.tile_at(tx as int, ty as int) == orig.tile_at(
                                tx as int,
                                ty as int,
                            ));
                            assert(self.tile_at(tx as int, ty as int) == nt);
                            let kk = self.changed_tiles@.len() - 1;
                            assert(q0 <= kk && self.changed_tiles@[kk] == (ux, uy));
                        }
                    }
                }
                proof {
                    assert forall|k: int|
                        q0 <= k < self.changed_tiles@.len() implies {
                        let c = #[trigger] self.changed_tiles@[k];
                        orig.in_dig_region(cx as int, cy as int, r as int, c.0 as int, c.1 as int)
                            && ((c.1 as int) < ty || ((c.1 as int) == ty && (c.0 as int) <= tx))
                    } by {
                        if k < qpre.len() {
                            assert(self.changed_tiles@[k] == qpre[k]);
                        }
                    }
                    assert forall|i: int, j: int|
                        orig.in_dig_region(cx as int, cy as int, r as int, i, j) && (j < ty || (j
                            == ty && i <= tx)) implies exists|k: int|
                        q0 <= k < self.changed_tiles@.len() && #[trigger] self.changed_tiles@[k]
                            == ((i as usize), (j as usize)) by {
                        if j == ty && i == tx {
                            let kk = self.changed_tiles@.len() - 1;
                            assert(self.changed_tiles@[kk] == ((i as usize), (j as usize)));
                        } else {
                            let k = choose|k: int|
                                q0 <= k < qpre.len() && #[trigger] qpre[k]
                                    == ((i as usize), (j as usize));
                            assert(self.changed_tiles@[k] == ((i as usize), (j as usize)));
                        }
                    }
                }
                tx = tx + 1;
            }
            ty = ty + 1;
        }
    }

    /// Place a `Stone` block at `(x, y)` if `can_place_spec` allows it,
    /// queueing the coordinate; otherwise leave the grid untouched.
    pub fn place_stone(&mut self, x: i32, y: i32) -> (placed: bool)
        requires
            old(self).wf(),
        ensures
            final(self).wf(),
            same_dims(*old(self), *final(self)),
            placed == old(self).can_place_spec(x as int, y as int),
            !placed ==> *final(self) == *old(self),
            placed ==> {
                &&& tiles_unchanged_except(*old(self), *final(self), x as int, y as int)
                &&& final(self).tile_at(x as int, y as int) == ({
                    let t = old(self).tile_at(x as int, y as int);
                    Tile {
                        kind: TileKind::Stone,
                        visible: t.visible,
                        explored: t.explored,
                        mine_time: kind_mine_time(TileKind::Stone),
                        shade: t.shade,
                        base_rgb: rgb_of(TileKind::Stone, t.shade),
                    }
                })
                &&& final(self).changed_tiles@ == old(self).changed_tiles@.push(
                    ((x as usize), (y as usize)),
                )
            },
    {
        if !self.can_place(x, y) {
            return false;
        }
        self.set_tile_kind(x as usize, y as usize, TileKind::Stone);
        true
    }
}

} // verus!
