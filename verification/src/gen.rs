//! One-shot world generation: height-map synthesis, column fill, mountain
//! ridges, floating sky islands, and random-walk cavern carving.
//!
//! Coherent-noise samples enter as integer arrays in per-mille units
//! (1000 = 1.0); uniform random draws come from the `rng` doorway.  Every
//! stage preserves the grid invariant: in particular `Air` and `Sky`
//! cells never carry mining work.

use vstd::prelude::*;

use crate::grid::{dist2, lemma_idx_bounds, same_dims, Terrain};
use crate::rng::rand_range;
use crate::tile::{
    compute_rgb, is_solid_kind, kind_mine_time, make_tile, rgb_of, shade_band, shade_band_of,
    solid_kind, tile_wf, Tile, TileKind,
};

verus! {

/// Carving may not reach closer to the surface than this depth.
pub const MIN_CAVE_DEPTH: usize = 8;

/// Per-mille rift-noise threshold above which a column is torn open.
pub const RIFT_THRESH: i16 = 750;

/// Per-mille probability that a buried dirt cell leaks to stone.
pub const DIRT_TO_STONE: i64 = 100;

/// Per-mille probability that a buried stone cell leaks to obsidian.
pub const STONE_TO_OBSID: i64 = 50;

/// Per-mille probability that a surface cell grows grass.
pub const GRASS_RATIO: i64 = 850;

/// The surface row of a column, synthesized from one low-frequency hills
/// sample and one sparse cliff sample (both per-mille), clamped away from
/// the grid edges.  Valleys (positive samples dig down by up to 12 rows)
/// are steeper than rises (up to 5 rows); a cliff sample beyond 850
/// per-mille shifts the surface by a further 18 rows.
pub open spec fn spec_surface(h: int, n: int, c: int) -> int {
    let base = h * 35 / 100;
    let e0 = if n >= 0 {
        base - (n * 12) / 1000
    } else {
        base + ((-n) * 5) / 1000
    };
    let e1 = if c > 850 {
        e0 - 18
    } else if c < -850 {
        e0 + 18
    } else {
        e0
    };
    if e1 < 4 {
        4
    } else if e1 > h - 10 {
        h - 10
    } else {
        e1
    }
}

/// Synthesize the height map: one surface row per column.
pub fn synth_height_map(w: usize, h: usize, hills: &Vec<i16>, cliffs: &Vec<i16>) -> (hm: Vec<usize>)
    requires
        1 <= w <= 32768,
        15 <= h <= 32768,
        hills@.len() == w,
        cliffs@.len() == w,
        forall|k: int| 0 <= k < w ==> -1000 <= #[trigger] hills@[k] <= 1000,
        forall|k: int| 0 <= k < w ==> -1000 <= #[trigger] cliffs@[k] <= 1000,
    ensures
        hm@.len() == w,
        forall|x: int|
            0 <= x < w ==> (#[trigger] hm@[x]) == spec_surface(
                h as int,
                hills@[x] as int,
                cliffs@[x] as int,
            ),
        forall|x: int| 0 <= x < w ==> 4 <= (#[trigger] hm@[x]) <= h - 10,
{
    let mut hm: Vec<usize> = Vec::new();
    let mut x: usize = 0;
    while x < w
        invariant
            x <= w,
            1 <= w <= 32768,
            15 <= h <= 32768,
            hills@.len() == w,
            cliffs@.len() == w,
            forall|k: int| 0 <= k < w ==> -1000 <= #[trigger] hills@[k] <= 1000,
            forall|k: int| 0 <= k < w ==> -1000 <= #[trigger] cliffs@[k] <= 1000,
            hm@.len() == x,
            forall|k: int|
                0 <= k < x ==> (#[trigger] hm@[k]) == spec_surface(
                    h as int,
                    hills@[k] as int,
                    cliffs@[k] as int,
                ),
            forall|k: int| 0 <= k < x ==> 4 <= (#[trigger] hm@[k]) <= h - 10,
        decreases w - x,
    {
        let base: i64 = (h as i64) * 35 / 100;
        let n: i64 = hills[x] as i64;
        let e0: i64 = if n >= 0 {
            base - (n * 12) / 1000
        } else {
            base + ((-n) * 5) / 1000
        };
        let c: i64 = cliffs[x] as i64;
        let e1: i64 = if c > 850 {
            e0 - 18
        } else if c < -850 {
            e0 + 18
        } else {
            e0
        };
        let row: i64 = if e1 < 4 {
            4
        } else if e1 > h as i64 - 10 {
            h as i64 - 10
        } else {
            e1
        };
        hm.push(row as usize);
        x = x + 1;
    }
    hm
}

/// What the column-fill stage may leave in a cell: `Sky` above the
/// surface; grass or dirt on the surface row; only solid, non-vegetation
/// kinds in the guaranteed shallow band; a rift column of `Air` at depth
/// where the rift sample exceeds the threshold; and dirt, stone or
/// obsidian otherwise (the exact choice depends on depth bands and on the
/// probabilistic leaks).
pub open spec fn column_kind_ok(k: TileKind, surface: int, y: int, rift: int) -> bool {
    let depth = y - surface;
    if y < surface {
        k == TileKind::Sky
    } else if depth == 0 {
        k == TileKind::Grass || k == TileKind::Dirt
    } else if depth < MIN_CAVE_DEPTH {
        k == TileKind::Dirt || k == TileKind::Stone || k == TileKind::Obsidian
    } else if rift > RIFT_THRESH {
        k == TileKind::Air
    } else {
        k == TileKind::Dirt || k == TileKind::Stone || k == TileKind::Obsidian
    }
}

/// Fill a fresh grid column by column from the height map, the rift
/// samples (per column) and the colour-noise samples (per cell, row-major
/// like the tile array).  Every cell starts unseen, with full mining work
/// and a cached tint from its quantized brightness band.
pub fn fill_columns(
    width: usize,
    height: usize,
    height_map: Vec<usize>,
    rift: &Vec<i16>,
    color: &Vec<i16>,
) -> (t: Terrain)
    requires
        1 <= width <= 32768,
        15 <= height <= 32768,
        height_map@.len() == width,
        forall|x: int| 0 <= x < width ==> 4 <= #[trigger] height_map@[x] <= height - 10,
        rift@.len() == width,
        forall|k: int| 0 <= k < width ==> -1000 <= #[trigger] rift@[k] <= 1000,
        color@.len() == width * height,
        forall|k: int| 0 <= k < width * height ==> -1000 <= #[trigger] color@[k] <= 1000,
    ensures
        t.wf(),
        t.width == width,
        t.height == height,
        t.height_map@ == height_map@,
        t.changed_tiles@.len() == 0,
        forall|i: int, j: int|
            t.in_bounds(i, j) ==> column_kind_ok(
                #[trigger] t.kind_at(i, j),
                height_map@[i] as int,
                j,
                rift@[i] as int,
            ),
        forall|i: int, j: int|
            t.in_bounds(i, j) ==> {
                let tl = #[trigger] t.tile_at(i, j);
                !tl.visible && !tl.explored && tl.mine_time == kind_mine_time(tl.kind) && tl.shade
                    == shade_band(color@[j * width + i] as int) && tl.base_rgb == rgb_of(
                    tl.kind,
                    tl.shade,
                )
            },
{
    proof {
        assert(width * height <= 32768 * 32768 && width * height >= 1) by (nonlinear_arith)
            requires 1 <= width <= 32768 && 1 <= height <= 32768;
    }
    let mut tiles: Vec<Tile> = Vec::new();
    let mut y: usize = 0;
    while y < height
        invariant
            y <= height,
            1 <= width <= 32768,
            15 <= height <= 32768,
            height_map@.len() == width,
            forall|x: int| 0 <= x < width ==> 4 <= #[trigger] height_map@[x] <= height - 10,
            rift@.len() == width,
            forall|k: int| 0 <= k < width ==> -1000 <= #[trigger] rift@[k] <= 1000,
            color@.len() == width * height,
            forall|k: int| 0 <= k < width * height ==> -1000 <= #[trigger] color@[k] <= 1000,
            tiles@.len() == y * width,
            forall|m: int| 0 <= m < tiles@.len() ==> tile_wf(#[trigger] tiles@[m]),
            forall|i: int, j: int|
                0 <= i < width && 0 <= j < y ==> column_kind_ok(
                    (#[trigger] tiles@[j * width + i]).kind,
                    height_map@[i] as int,
                    j,
                    rift@[i] as int,
                ),
            forall|i: int, j: int|
                0 <= i < width && 0 <= j < y ==> {
                    let tl = #[trigger] tiles@[j * width + i];
                    !tl.visible && !tl.explored && tl.mine_time == kind_mine_time(tl.kind)
                        && tl.shade == shade_band(color@[j * width + i] as int) && tl.base_rgb
                        == rgb_of(tl.kind, tl.shade)
                },
        decreases height - y,
    {
        let mut x: usize = 0;
        while x < width
            invariant
                x <= width,
                y < height,
                1 <= width <= 32768,
                15 <= height <= 32768,
                height_map@.len() == width,
                forall|x2: int| 0 <= x2 < width ==> 4 <= #[trigger] height_map@[x2] <= height - 10,
                rift@.len() == width,
                forall|k: int| 0 <= k < width ==> -1000 <= #[trigger] rift@[k] <= 1000,
                color@.len() == width * height,
                forall|k: int| 0 <= k < width * height ==> -1000 <= #[trigger] color@[k] <= 1000,
                tiles@.len() == y * width + x,
                forall|m: int| 0 <= m < tiles@.len() ==> tile_wf(#[trigger] tiles@[m]),
                forall|i: int, j: int|
                    0 <= i < width && 0 <= j < y ==> column_kind_ok(
                        (#[trigger] tiles@[j * width + i]).kind,
                        height_map@[i] as int,
                        j,
                        rift@[i] as int,
                    ),
                forall|i: int|
                    0 <= i < x ==> column_kind_ok(
                        (#[trigger] tiles@[y * width + i]).kind,
                        height_map@[i] as int,
                        y as int,
                        rift@[i] as int,
                    ),
                forall|i: int, j: int|
                    0 <= i < width && 0 <= j < y ==> {
                        let tl = #[trigger] tiles@[j * width + i];
                        !tl.visible && !tl.explored && tl.mine_time == kind_mine_time(tl.kind)
                            && tl.shade == shade_band(color@[j * width + i] as int) && tl.base_rgb
                            == rgb_of(tl.kind, tl.shade)
                    },
                forall|i: int|
                    0 <= i < x ==> {
                        let tl = #[trigger] tiles@[y * width + i];
                        !tl.visible && !tl.explored && tl.mine_time == kind_mine_time(tl.kind)
                            && tl.shade == shade_band(color@[y * width + i] as int) && tl.base_rgb
                            == rgb_of(tl.kind, tl.shade)
                    },
            decreases width - x,
        {
            proof {
                lemma_idx_bounds(x as int, y as int, width as int, height as int);
                assert(width * height <= 32768 * 32768) by (nonlinear_arith)
                    requires width <= 32768 && height <= 32768;
            }
            let surface = height_map[x];
            let kind: TileKind;
            if y < surface {
                kind = TileKind::Sky;
            } else if y == surface {
                // surface row: mostly grass
                kind = if rand_range(0, 1000) < GRASS_RATIO {
                    TileKind::Grass
                } else {
                    TileKind::Dirt
                };
            } else {
                let depth = y - surface;
                let base: TileKind;
                if depth < MIN_CAVE_DEPTH {
                    base = if depth > height / 4 {
                        TileKind::Stone
                    } else {
                        TileKind::Dirt
                    };
                } else if rift[x] > RIFT_THRESH {
                    base = TileKind::Air;
                } else if y >= (height * 4) / 5 {
                    base = TileKind::Obsidian;
                } else if depth > height / 4 {
                    base = TileKind::Stone;
                } else {
                    base = TileKind::Dirt;
                }
                // probabilistic lower-layer leaks for textural variety
                kind = match base {
                    TileKind::Dirt => {
                        if rand_range(0, 1000) < DIRT_TO_STONE {
                            TileKind::Stone
                        } else {
                            TileKind::Dirt
                        }
                    },
                    TileKind::Stone => {
                        if rand_range(0, 1000) < STONE_TO_OBSID {
                            TileKind::Obsidian
                        } else {
                            TileKind::Stone
                        }
                    },
                    _ => base,
                };
            }
            let band = shade_band_of(color[y * width + x]);
            let ghost tpre = tiles@;
            tiles.push(make_tile(kind, band));
            proof {
                assert forall|i: int, j: int| 0 <= i < width && 0 <= j < y implies column_kind_ok(
                    (#[trigger] tiles@[j * width + i]).kind,
                    height_map@[i] as int,
                    j,
                    rift@[i] as int,
                ) by {
                    lemma_idx_bounds(i, j, width as int, y as int);
                    assert(tiles@[j * width + i] == tpre[j * width + i]);
                }
                assert forall|i: int, j: int| 0 <= i < width && 0 <= j < y implies {
                    let tl = #[trigger] tiles@[j * width + i];
                    !tl.visible && !tl.explored && tl.mine_time == kind_mine_time(tl.kind)
                        && tl.shade == shade_band(color@[j * width + i] as int) && tl.base_rgb
                        == rgb_of(tl.kind, tl.shade)
                } by {
                    lemma_idx_bounds(i, j, width as int, y as int);
                    assert(tiles@[j * width + i] == tpre[j * width + i]);
                }
            }
            x = x + 1;
        }
        y = y + 1;
        proof {
            assert(tiles@.len() == y * width) by (nonlinear_arith)
                requires tiles@.len() == (y - 1) * width + width;
            assert forall|i: int, j: int| 0 <= i < width && 0 <= j < y implies column_kind_ok(
                (#[trigger] tiles@[j * width + i]).kind,
                height_map@[i] as int,
                j,
                rift@[i] as int,
            ) by {
                lemma_idx_bounds(i, j, width as int, y as int);
                if j == y - 1 {
                    assert(tiles@[(y - 1) * width + i].kind == tiles@[j * width + i].kind);
                }
            }
            assert forall|i: int, j: int| 0 <= i < width && 0 <= j < y implies {
                let tl = #[trigger] tiles@[j * width + i];
                !tl.visible && !tl.explored && tl.mine_time == kind_mine_time(tl.kind) && tl.shade
                    == shade_band(color@[j * width + i] as int) && tl.base_rgb == rgb_of(
                    tl.kind,
                    tl.shade,
                )
            } by {
                lemma_idx_bounds(i, j, width as int, y as int);
                if j == y - 1 {
                    assert(tiles@[(y - 1) * width + i] == tiles@[j * width + i]);
                }
            }
        }
    }
    let t = Terrain { tiles, width, height, height_map, changed_tiles: Vec::new() };
    proof {
        assert(t.tiles@.len() == t.width * t.height) by (nonlinear_arith)
            requires t.tiles@.len() == height * width && t.width == width && t.height == height;
        assert forall|i: int, j: int| t.in_bounds(i, j) implies column_kind_ok(
            #[trigger] t.kind_at(i, j),
            t.height_map@[i] as int,
            j,
            rift@[i] as int,
        ) && {
            let tl = t.tile_at(i, j);
            !tl.visible && !tl.explored && tl.mine_time == kind_mine_time(tl.kind) && tl.shade
                == shade_band(color@[j * width + i] as int) && tl.base_rgb == rgb_of(
                tl.kind,
                tl.shade,
            )
        } by {
            lemma_idx_bounds(i, j, width as int, height as int);
        }
    }
    t
}

/// Carve a disc of `Air` of radius `r` around `(cx, cy)`: every non-`Sky`
/// cell within the disc is opened (visibility flags and brightness band
/// kept); `Sky` cells and cells outside the disc are untouched.  Used by
/// the random-walk carvers; unlike digging it does not queue redraws,
/// since generation runs before any drawable exists.
pub fn carve_disc(t: &mut Terrain, cx: i32, cy: i32, r: i32)
    requires
        old(t).wf(),
        0 <= r <= 1024,
        -2000000 <= cx <= 2000000,
        -2000000 <= cy <= 2000000,
    ensures
        final(t).wf(),
        same_dims(*old(t), *final(t)),
        final(t).changed_tiles@ == old(t).changed_tiles@,
        forall|i: int, j: int|
            old(t).in_bounds(i, j) && dist2(i, j, cx as int, cy as int) <= r * r && old(t).kind_at(
                i,
                j,
            ) != TileKind::Sky ==> #[trigger] final(t).tile_at(i, j) == Terrain::dug_tile(
                old(t).tile_at(i, j),
            ),
        forall|i: int, j: int|
            old(t).in_bounds(i, j) && !(dist2(i, j, cx as int, cy as int) <= r * r && old(
                t,
            ).kind_at(i, j) != TileKind::Sky) ==> #[trigger] final(t).tile_at(i, j) == old(
                t,
            ).tile_at(i, j),
{
    let w = t.width;
    let h = t.height;
    let ghost orig = *t;
    let y_lo: i32 = if cy - r < 0 {
        0
    } else {
        cy - r
    };
    let y_hi: i32 = if cy + r >= h as i32 {
        h as i32 - 1
    } else {
        cy + r
    };
    let x_lo: i32 = if cx - r < 0 {
        0
    } else {
        cx - r
    };
    let x_hi: i32 = if cx + r >= w as i32 {
        w as i32 - 1
    } else {
        cx + r
    };
    proof {
        assert forall|i: int, j: int|
            orig.in_bounds(i, j) && dist2(i, j, cx as int, cy as int) <= r * r implies x_lo <= i
            <= x_hi && y_lo <= j <= y_hi by {
            assert((i - cx) * (i - cx) >= 0 && (j - cy) * (j - cy) >= 0) by (nonlinear_arith);
            if j < cy - r || j > cy + r {
                assert((j - cy) * (j - cy) > r * r) by (nonlinear_arith)
                    requires j < cy - r || j > cy + r, r >= 0;
            }
            if i < cx - r || i > cx + r {
                assert((i - cx) * (i - cx) > r * r) by (nonlinear_arith)
                    requires i < cx - r || i > cx + r, r >= 0;
            }
        }
    }
    if y_lo > y_hi || x_lo > x_hi {
        return;
    }
    let mut ty: i32 = y_lo;
    while ty <= y_hi
        invariant
            t.wf(),
            orig.wf(),
            same_dims(orig, *t),
            t.changed_tiles@ == orig.changed_tiles@,
            y_lo <= ty <= y_hi + 1,
            0 <= y_lo,
            y_hi < t.height,
            0 <= x_lo <= x_hi < t.width,
            cy - r <= y_lo,
            y_hi <= cy + r,
            cx - r <= x_lo,
            x_hi <= cx + r,
            0 <= r <= 1024,
            -2000000 <= cx <= 2000000,
            -2000000 <= cy <= 2000000,
            forall|i: int, j: int|
                orig.in_bounds(i, j) && dist2(i, j, cx as int, cy as int) <= r * r ==> x_lo <= i
                    <= x_hi && y_lo <= j <= y_hi,
            forall|i: int, j: int|
                orig.in_bounds(i, j) && dist2(i, j, cx as int, cy as int) <= r * r && orig.kind_at(
                    i,
                    j,
                ) != TileKind::Sky && j < ty ==> #[trigger] t.tile_at(i, j) == Terrain::dug_tile(
                    orig.tile_at(i, j),
                ),
            forall|i: int, j: int|
                orig.in_bounds(i, j) && !(dist2(i, j, cx as int, cy as int) <= r * r && orig.kind_at(
                    i,
                    j,
                ) != TileKind::Sky && j < ty) ==> #[trigger] t.tile_at(i, j) == orig.tile_at(i, j),
        decreases y_hi + 1 - ty,
    {
        let mut tx: i32 = x_lo;
        while tx <= x_hi
            invariant
                t.wf(),
                orig.wf(),
                same_dims(orig, *t),
                t.changed_tiles@ == orig.changed_tiles@,
                y_lo <= ty <= y_hi,
                x_lo <= tx <= x_hi + 1,
                0 <= y_lo,
                y_hi < t.height,
                0 <= x_lo <= x_hi < t.width,
                cy - r <= y_lo,
                y_hi <= cy + r,
                cx - r <= x_lo,
                x_hi <= cx + r,
                0 <= r <= 1024,
                -2000000 <= cx <= 2000000,
                -2000000 <= cy <= 2000000,
                forall|i: int, j: int|
                    orig.in_bounds(i, j) && dist2(i, j, cx as int, cy as int) <= r * r ==> x_lo <= i
                        <= x_hi && y_lo <= j <= y_hi,
                forall|i: int, j: int|
                    orig.in_bounds(i, j) && dist2(i, j, cx as int, cy as int) <= r * r
                        && orig.kind_at(i, j) != TileKind::Sky && (j < ty || (j == ty && i < tx))
                        ==> #[trigger] t.tile_at(i, j) == Terrain::dug_tile(orig.tile_at(i, j)),
                forall|i: int, j: int|
                    orig.in_bounds(i, j) && !(dist2(i, j, cx as int, cy as int) <= r * r
                        && orig.kind_at(i, j) != TileKind::Sky && (j < ty || (j == ty && i < tx)))
                        ==> #[trigger] t.tile_at(i, j) == orig.tile_at(i, j),
            decreases x_hi + 1 - tx,
        {
            let dx: i64 = (tx - cx) as i64;
            let dy: i64 = (ty - cy) as i64;
            proof {
                assert(dx * dx <= 1024 * 1024 && dx * dx >= 0 && dy * dy <= 1024 * 1024 && dy * dy
                    >= 0) by (nonlinear_arith)
                    requires -1024 <= dx <= 1024 && -1024 <= dy <= 1024;
                assert(0 <= (r as i64) * (r as i64) <= 1024 * 1024) by (nonlinear_arith)
                    requires 0 <= r <= 1024;
            }
            let d2: i64 = dx * dx + dy * dy;
            let r2: i64 = (r as i64) * (r as i64);
            if d2 <= r2 {
                let ux = tx as usize;
                let uy = ty as usize;
                let i = t.idx(ux, uy);
                let tl = t.tiles[i];
                if !(matches!(tl.kind, TileKind::Sky)) {
                    let ghost before = *t;
                    let nt = Tile {
                        kind: TileKind::Air,
                        visible: tl.visible,
                        explored: tl.explored,
                        mine_time: 0,
                        shade: tl.shade,
                        base_rgb: compute_rgb(TileKind::Air, tl.shade),
                    };
                    t.tiles.set(i, nt);
                    proof {
                        t.lemma_one_cell_update(before, tx as int, ty as int);
                        assert(before.tile_at(tx as int, ty as int) == orig.tile_at(
                            tx as int,
                            ty as int,
                        ));
                        assert(t.tile_at(tx as int, ty as int) == nt);
                    }
                }
            }
            tx = tx + 1;
        }
        ty = ty + 1;
    }
}

/// The one cell-write shape generation uses: a fresh tile of kind `k`
/// with the old cell's visibility flags and brightness band.
pub open spec fn written_as(a: Tile, b: Tile, k: TileKind) -> bool {
    b == (Tile {
        kind: k,
        visible: a.visible,
        explored: a.explored,
        mine_time: kind_mine_time(k),
        shade: a.shade,
        base_rgb: rgb_of(k, a.shade),
    })
}

/// What mountain placement may do to the grid: leave a cell alone, or —
/// at least `MOUNTAIN_KEEP_AWAY` columns from the spawn column — rewrite
/// it as snow, stone or dirt, keeping its flags and band.  Below the
/// surface row only grass, dirt or stone cells are ever overwritten, so
/// ridge roots never refill carved `Air` or the obsidian floor.
pub open spec fn mountains_only(orig: Terrain, cur: Terrain, spawn_x: int) -> bool {
    &&& cur.wf()
    &&& same_dims(orig, cur)
    &&& cur.changed_tiles@ == orig.changed_tiles@
    &&& forall|i: int, j: int|
        orig.in_bounds(i, j) ==> {
            let a = orig.tile_at(i, j);
            let b = #[trigger] cur.tile_at(i, j);
            b == a || ((i <= spawn_x - MOUNTAIN_KEEP_AWAY || i >= spawn_x + MOUNTAIN_KEEP_AWAY) && (
            written_as(a, b, TileKind::Snow) || written_as(a, b, TileKind::Stone) || written_as(
                a,
                b,
                TileKind::Dirt,
            )) && (j > orig.height_map@[i] ==> (a.kind == TileKind::Grass || a.kind
                == TileKind::Dirt || a.kind == TileKind::Stone)))
        }
}

/// Minimum distance, in columns, between a mountain and the spawn column.
pub const MOUNTAIN_KEEP_AWAY: i64 = 200;

/// The left of the spawn column has room for a minimum-width ridge band
/// clear of the keep-away zone.
pub open spec fn mountain_room_left(spawn_x: int) -> bool {
    spawn_x >= 457
}

/// The right of the spawn column has room for a minimum-width ridge band
/// clear of the keep-away zone.
pub open spec fn mountain_room_right(w: int, spawn_x: int) -> bool {
    w >= spawn_x + 458
}

/// One mountain cell write, re-establishing `mountains_only`.
fn mountain_write(t: &mut Terrain, x: usize, y: usize, k: TileKind, spawn_x: usize, Ghost(orig): Ghost<Terrain>)
    requires
        old(t).wf(),
        x < old(t).width,
        y < old(t).height,
        k == TileKind::Snow || k == TileKind::Stone || k == TileKind::Dirt,
        x <= spawn_x - MOUNTAIN_KEEP_AWAY || x >= spawn_x + MOUNTAIN_KEEP_AWAY,
        y > orig.height_map@[x as int] ==> {
            let c = old(t).tile_at(x as int, y as int).kind;
            c == TileKind::Grass || c == TileKind::Dirt || c == TileKind::Stone
        },
        mountains_only(orig, *old(t), spawn_x as int),
    ensures
        mountains_only(orig, *final(t), spawn_x as int),
        same_dims(*old(t), *final(t)),
{
    t.write_kind(x, y, k);
    proof {
        assert forall|i: int, j: int| orig.in_bounds(i, j) implies {
            let a = orig.tile_at(i, j);
            let b = #[trigger] t.tile_at(i, j);
            b == a || ((i <= spawn_x - MOUNTAIN_KEEP_AWAY || i >= spawn_x + MOUNTAIN_KEEP_AWAY) && (
            written_as(a, b, TileKind::Snow) || written_as(a, b, TileKind::Stone) || written_as(
                a,
                b,
                TileKind::Dirt,
            )) && (j > orig.height_map@[i] ==> (a.kind == TileKind::Grass || a.kind
                == TileKind::Dirt || a.kind == TileKind::Stone)))
        } by {
            if i == x && j == y {
                assert(old(t).tile_at(i, j).shade == orig.tile_at(i, j).shade && old(t).tile_at(
                    i,
                    j,
                ).visible == orig.tile_at(i, j).visible && old(t).tile_at(i, j).explored
                    == orig.tile_at(i, j).explored);
            } else {
                assert(t.tile_at(i, j) == old(t).tile_at(i, j));
            }
        }
    }
}

/// Place up to three mountain ridges on each side of the spawn column by
/// rejection-sampled non-overlapping horizontal bands, each sculpted by a
/// falloff profile modulated by the per-column ridge sample: snow near
/// the crest, stone through the body, and dirt-and-stone roots below the
/// original surface.  Columns within `MOUNTAIN_KEEP_AWAY` of the spawn
/// column are never touched.  The half-width is drawn from the range that
/// fits the side, so a side with room for the minimum width always
/// receives at least one band; a side without such room is skipped.
/// Returns the number of bands placed, at most three per side.
pub fn generate_mountains(t: &mut Terrain, ridge: &Vec<i16>, spawn_x: usize) -> (bands: usize)
    requires
        old(t).wf(),
        ridge@.len() == old(t).width,
        forall|k: int| 0 <= k < old(t).width ==> -1000 <= #[trigger] ridge@[k] <= 1000,
        spawn_x < old(t).width,
    ensures
        mountains_only(*old(t), *final(t), spawn_x as int),
        bands <= 6,
        mountain_room_left(spawn_x as int) ==> bands >= 1,
        mountain_room_right(old(t).width as int, spawn_x as int) ==> bands >= 1,
        mountain_room_left(spawn_x as int) && mountain_room_right(
            old(t).width as int,
            spawn_x as int,
        ) ==> bands >= 2,
{
    let ghost orig = *t;
    let w = t.width;
    let h = t.height;
    let mut placed_l: Vec<i64> = Vec::new();
    let mut placed_r: Vec<i64> = Vec::new();
    let mut bands: usize = 0;
    let mut side: usize = 0;
    while side < 2
        invariant
            mountains_only(orig, *t, spawn_x as int),
            orig.wf(),
            w == t.width,
            h == t.height,
            spawn_x < w,
            ridge@.len() == w,
            forall|k: int| 0 <= k < w ==> -1000 <= #[trigger] ridge@[k] <= 1000,
            placed_l@.len() == placed_r@.len(),
            side <= 2,
            bands <= 3 * side,
            side == 0 ==> placed_l@.len() == 0,
            side <= 1 ==> forall|q: int|
                0 <= q < placed_r@.len() ==> #[trigger] placed_r@[q] <= spawn_x - 201,
            side >= 1 ==> (mountain_room_left(spawn_x as int) ==> bands >= 1),
            side >= 2 ==> (mountain_room_right(w as int, spawn_x as int) ==> bands >= 1),
            side >= 2 ==> (mountain_room_left(spawn_x as int) && mountain_room_right(
                w as int,
                spawn_x as int,
            ) ==> bands >= 2),
        decreases 2 - side,
    {
        let ghost gl0 = placed_l@;
        let ghost gr0 = placed_r@;
        // the widest half-ridge that fits on this side of the keep-away zone
        let avail: i64;
        if side == 0 {
            let span = spawn_x as i64 - 201;
            let a = if span >= 0 {
                span / 2
            } else {
                0
            };
            avail = if a > 384 {
                384
            } else {
                a
            };
        } else {
            let span = w as i64 - spawn_x as i64 - 202;
            let a = if span >= 0 {
                span / 2
            } else {
                0
            };
            avail = if a > 384 {
                384
            } else {
                a
            };
        }
        let mut made: u32 = 0;
        if avail >= 128 {
            let mut attempts: u32 = 0;
            while made < 3 && attempts < 5000
                invariant
                    mountains_only(orig, *t, spawn_x as int),
                    orig.wf(),
                    w == t.width,
                    h == t.height,
                    spawn_x < w,
                    ridge@.len() == w,
                    forall|k: int| 0 <= k < w ==> -1000 <= #[trigger] ridge@[k] <= 1000,
                    attempts <= 5000,
                    made <= 3,
                    placed_l@.len() == placed_r@.len(),
                    side <= 1,
                    128 <= avail <= 384,
                    side == 0 ==> 2 * avail <= spawn_x - 201,
                    side == 1 ==> 2 * avail <= w - spawn_x - 202,
                    side == 0 ==> gl0.len() == 0,
                    side == 1 ==> forall|q: int|
                        0 <= q < gr0.len() ==> #[trigger] gr0[q] <= spawn_x - 201,
                    made == 0 ==> placed_l@ == gl0 && placed_r@ == gr0,
                    attempts >= 1 ==> made >= 1,
                    side == 0 ==> forall|q: int|
                        0 <= q < placed_r@.len() ==> #[trigger] placed_r@[q] <= spawn_x - 201,
                decreases 5000 - attempts,
            {
                attempts = attempts + 1;
                let half: i64 = rand_range(128, avail + 1);
                let hmt: i64 = rand_range(128, 257);
                let cx: i64;
                if side == 0 {
                    cx = rand_range(half, spawn_x as i64 - 200 - half);
                } else {
                    cx = rand_range(spawn_x as i64 + 200 + half, w as i64 - half - 1);
                }
                // reject bands that come within 120 columns of one placed
                let mut overlaps = false;
                let mut pi: usize = 0;
                while pi < placed_l.len()
                    invariant
                        pi <= placed_l@.len(),
                        placed_l@.len() == placed_r@.len(),
                        128 <= half <= 384,
                        -100000 <= cx <= 100000,
                        spawn_x < w <= 32768,
                        side <= 1,
                        0 <= cx - half && cx + half < w,
                        cx + half <= spawn_x - MOUNTAIN_KEEP_AWAY || cx - half >= spawn_x
                            + MOUNTAIN_KEEP_AWAY,
                        side == 1 ==> cx - half >= spawn_x + 200,
                        made == 0 ==> placed_l@ == gl0 && placed_r@ == gr0,
                        side == 0 ==> gl0.len() == 0,
                        side == 1 ==> forall|q: int|
                            0 <= q < gr0.len() ==> #[trigger] gr0[q] <= spawn_x - 201,
                        made == 0 ==> !overlaps,
                    decreases placed_l@.len() - pi,
                {
                    if placed_r[pi] >= cx - half - 120 && placed_l[pi] <= cx + half + 120 {
                        overlaps = true;
                        proof {
                            if made == 0 {
                                assert(placed_r@[pi as int] == gr0[pi as int]);
                                assert(false);
                            }
                        }
                    }
                    pi = pi + 1;
                }
                if !overlaps {
                    placed_l.push(cx - half);
                    placed_r.push(cx + half);
                    made = made + 1;
                    // sculpt every column of the ridge
                    let mut dx: i64 = -half;
                    while dx <= half
                        invariant
                            mountains_only(orig, *t, spawn_x as int),
                            orig.wf(),
                            w == t.width,
                            h == t.height,
                            spawn_x < w,
                            ridge@.len() == w,
                            forall|k: int| 0 <= k < w ==> -1000 <= #[trigger] ridge@[k] <= 1000,
                            128 <= half <= 384,
                            128 <= hmt <= 256,
                            -half <= dx <= half + 1,
                            cx + half <= spawn_x - MOUNTAIN_KEEP_AWAY || cx - half >= spawn_x
                                + MOUNTAIN_KEEP_AWAY,
                            0 <= cx - half,
                            cx + half < w,
                        decreases half + 1 - dx,
                    {
                        let x: i64 = cx + dx;
                        let adx: i64 = if dx >= 0 {
                            dx
                        } else {
                            -dx
                        };
                        let profile: i64 = 1000 - adx * 1000 / half;
                        let rr: i64 = ridge[x as usize] as i64 + 1000;
                        let factor: i64 = 780 + rr * 220 / 1000;
                        proof {
                            assert(0 <= (adx as int) * 1000 / (half as int) <= 1000)
                                by (nonlinear_arith)
                                requires 0 <= adx <= half && 128 <= half;
                            assert(0 <= (rr as int) * 220 / 1000 <= 440) by (nonlinear_arith)
                                requires 0 <= rr <= 2000;
                        }
                        proof {
                            assert(0 <= (hmt as int) * (profile as int) <= 256000 && 0 <= (
                            hmt as int) * (profile as int) / 1000 <= 256) by (nonlinear_arith)
                                requires 0 <= profile <= 1000 && 128 <= hmt <= 256;
                        }
                        let p1: i64 = hmt * profile / 1000;
                        proof {
                            assert(0 <= (p1 as int) * (factor as int) <= 313000 && 0 <= (p1 as int)
                                * (factor as int) / 1000 <= 313) by (nonlinear_arith)
                                requires 0 <= p1 <= 256 && 780 <= factor <= 1220;
                        }
                        let peak: i64 = p1 * factor / 1000;
                        let surface: i64 = t.surface(x as usize) as i64;
                        let top: i64 = if surface - peak < 0 {
                            0
                        } else {
                            surface - peak
                        };
                        // snow and stone above the original ground
                        let mut yy: i64 = top;
                        while yy <= surface
                            invariant
                                mountains_only(orig, *t, spawn_x as int),
                                orig.wf(),
                                w == t.width,
                                h == t.height,
                                spawn_x < w,
                                0 <= top <= yy,
                                yy <= surface + 1,
                                surface < h,
                                surface == orig.height_map@[x as int],
                                0 <= x < w,
                                x <= spawn_x - MOUNTAIN_KEEP_AWAY || x >= spawn_x
                                    + MOUNTAIN_KEEP_AWAY,
                            decreases surface + 1 - yy,
                        {
                            let above_ground = surface - yy;
                            let kind: TileKind;
                            if above_ground <= 1 {
                                kind = TileKind::Stone;
                            } else {
                                let d = yy - top;
                                if d <= 2 {
                                    kind = TileKind::Snow;
                                } else if d <= 6 {
                                    kind = if rand_range(0, 1000) < 400 {
                                        TileKind::Snow
                                    } else {
                                        TileKind::Stone
                                    };
                                } else {
                                    kind = TileKind::Stone;
                                }
                            }
                            mountain_write(t, x as usize, yy as usize, kind, spawn_x, Ghost(orig));
                            yy = yy + 1;
                        }
                        // roots fading from stone into dirt below the surface
                        let base_depth: i64 = (peak + 1) / 2;
                        let mut d: i64 = 1;
                        while d <= base_depth
                            invariant
                                mountains_only(orig, *t, spawn_x as int),
                                orig.wf(),
                                w == t.width,
                                h == t.height,
                                spawn_x < w,
                                1 <= d,
                                0 <= base_depth <= 160,
                                0 <= surface < h,
                                surface == orig.height_map@[x as int],
                                0 <= x < w,
                                x <= spawn_x - MOUNTAIN_KEEP_AWAY || x >= spawn_x
                                    + MOUNTAIN_KEEP_AWAY,
                            decreases base_depth + 1 - d,
                        {
                            let yr = surface + d;
                            if yr >= h as i64 {
                                d = base_depth + 1;
                            } else {
                                let kind = if d <= base_depth / 3 {
                                    TileKind::Stone
                                } else {
                                    TileKind::Dirt
                                };
                                let cur = t.get_tile(x as usize, yr as usize);
                                if matches!(cur.kind, TileKind::Grass | TileKind::Dirt | TileKind::Stone) {
                                    mountain_write(
                                        t,
                                        x as usize,
                                        yr as usize,
                                        kind,
                                        spawn_x,
                                        Ghost(orig),
                                    );
                                }
                                d = d + 1;
                            }
                        }
                        dx = dx + 1;
                    }
                }
            }
        }
        proof {
            if side == 0 {
                assert(mountain_room_left(spawn_x as int) ==> avail >= 128);
            } else {
                assert(mountain_room_right(w as int, spawn_x as int) ==> avail >= 128);
            }
        }
        bands = bands + (made as usize);
        side = side + 1;
    }
    bands
}

/// What a random-walk carver may do to the grid: leave a cell alone or
/// open a non-`Sky` cell to `Air`, keeping its flags and band.  `Sky`
/// cells are never touched.
pub open spec fn carved_only(orig: Terrain, cur: Terrain) -> bool {
    &&& cur.wf()
    &&& same_dims(orig, cur)
    &&& cur.changed_tiles@ == orig.changed_tiles@
    &&& forall|i: int, j: int|
        orig.in_bounds(i, j) ==> {
            let a = orig.tile_at(i, j);
            let b = #[trigger] cur.tile_at(i, j);
            b == a || (a.kind != TileKind::Sky && b == Terrain::dug_tile(a))
        }
}

/// Unit step of one of the eight compass directions.
fn dir_delta(d: i64) -> (r: (i32, i32))
    requires
        0 <= d < 8,
    ensures
        -1 <= r.0 <= 1,
        -1 <= r.1 <= 1,
{
    if d == 0 {
        (1, 0)
    } else if d == 1 {
        (1, 1)
    } else if d == 2 {
        (0, 1)
    } else if d == 3 {
        (-1, 1)
    } else if d == 4 {
        (-1, 0)
    } else if d == 5 {
        (-1, -1)
    } else if d == 6 {
        (0, -1)
    } else {
        (1, -1)
    }
}

/// Carve a disc and re-establish `carved_only` against the original grid.
fn carver_step(t: &mut Terrain, px: i32, py: i32, r: i32, Ghost(orig): Ghost<Terrain>)
    requires
        old(t).wf(),
        0 <= r <= 1024,
        -2000000 <= px <= 2000000,
        -2000000 <= py <= 2000000,
        carved_only(orig, *old(t)),
    ensures
        carved_only(orig, *final(t)),
        same_dims(*old(t), *final(t)),
        forall|i: int, j: int|
            old(t).in_bounds(i, j) ==> (#[trigger] final(t).tile_at(i, j) == old(t).tile_at(i, j)
                || final(t).tile_at(i, j) == Terrain::dug_tile(old(t).tile_at(i, j))),
        (old(t).in_bounds(px as int, py as int) && old(t).kind_at(px as int, py as int)
            != TileKind::Sky && 1 <= r) ==> final(t).tile_at(px as int, py as int)
            == Terrain::dug_tile(old(t).tile_at(px as int, py as int)),
{
    let ghost pre = *t;
    carve_disc(t, px, py, r);
    proof {
        assert(r * r >= 0) by (nonlinear_arith);
        assert(dist2(px as int, py as int, px as int, py as int) == 0);
        assert forall|i: int, j: int| orig.in_bounds(i, j) implies {
            let a = orig.tile_at(i, j);
            let b = #[trigger] t.tile_at(i, j);
            b == a || b == Terrain::dug_tile(a)
        } by {
            let a = orig.tile_at(i, j);
            if dist2(i, j, px as int, py as int) <= r * r && pre.kind_at(i, j) != TileKind::Sky {
                assert(t.tile_at(i, j) == Terrain::dug_tile(pre.tile_at(i, j)));
                assert(Terrain::dug_tile(Terrain::dug_tile(a)) == Terrain::dug_tile(a));
                assert(a.kind != TileKind::Sky);
            } else {
                assert(t.tile_at(i, j) == pre.tile_at(i, j));
            }
        }
    }
}

/// The map admits a cavern-walker seed everywhere: below every column's
/// guaranteed solid band there is room above the obsidian floor, and no
/// `Sky` cell sits at those depths.
pub open spec fn cavern_seed_room(t: Terrain) -> bool {
    &&& 9 <= t.width
    &&& forall|x: int|
        0 <= x < t.width ==> #[trigger] t.height_map@[x] + MIN_CAVE_DEPTH < (t.height * 4) / 5 - 4
    &&& forall|i: int, j: int|
        t.in_bounds(i, j) && j >= t.height_map@[i] + MIN_CAVE_DEPTH ==> #[trigger] t.kind_at(i, j)
            != TileKind::Sky
}

/// Some cell below the guaranteed solid band has been carved open.
pub open spec fn some_cavern_open(orig: Terrain, cur: Terrain) -> bool {
    exists|i: int, j: int|
        orig.in_bounds(i, j) && j >= orig.height_map@[i] + MIN_CAVE_DEPTH && orig.kind_at(i, j)
            != TileKind::Sky && #[trigger] cur.tile_at(i, j) == Terrain::dug_tile(
            orig.tile_at(i, j),
        )
}

/// Carve organic tunnel networks through the deep game area: independent
/// walkers seeded below the surface carve a disc of `Air` at each step
/// (tunnel-sized mostly, room-sized occasionally), take a small random
/// turn with fixed probability, advance one tile, and stop on reaching
/// the map margin.  Only opens cells; never touches `Sky` — and whenever
/// the map admits a seed at every column, at least one cell below the
/// solid band really is opened to `Air`, on every random outcome.
pub fn carve_underground_caverns(t: &mut Terrain)
    requires
        old(t).wf(),
    ensures
        carved_only(*old(t), *final(t)),
        cavern_seed_room(*old(t)) ==> exists|i: int, j: int|
            final(t).in_bounds(i, j) && j >= final(t).height_map@[i] + MIN_CAVE_DEPTH
                && #[trigger] final(t).kind_at(i, j) == TileKind::Air,
{
    let ghost orig = *t;
    let w = t.width;
    let h = t.height;
    if w < 9 {
        return;
    }
    let walker_count: usize = if w / 32 > 10 {
        w / 32
    } else {
        10
    };
    let mut widx: usize = 0;
    while widx < walker_count
        invariant
            carved_only(orig, *t),
            orig.wf(),
            w == t.width,
            h == t.height,
            9 <= w,
            cavern_seed_room(orig) && widx >= 1 ==> some_cavern_open(orig, *t),
        decreases walker_count - widx,
    {
        let x0 = rand_range(4, w as i64 - 4);
        let surface = t.surface(x0 as usize) as i64;
        proof {
            assert(surface == orig.height_map@[x0 as int]);
        }
        let y_min = surface + MIN_CAVE_DEPTH as i64;
        let y_max = (h as i64) * 4 / 5 - 4;
        if y_min < y_max {
            let y0 = rand_range(y_min, y_max);
            let mut px: i32 = x0 as i32;
            let mut py: i32 = y0 as i32;
            let mut d: i64 = rand_range(0, 8);
            let steps = rand_range(400, 701);
            let mut s: i64 = 0;
            let mut stopped = false;
            while s < steps && !stopped
                invariant
                    carved_only(orig, *t),
                    orig.wf(),
                    w == t.width,
                    h == t.height,
                    0 <= s <= steps <= 700,
                    0 <= d < 8,
                    -2000 <= px <= 40000,
                    -2000 <= py <= 40000,
                    !stopped ==> 2 <= px <= w as i32 - 2 && 2 <= py <= h as i32 - 2,
                    stopped ==> s >= 1,
                    4 <= x0 <= w - 5,
                    y_min <= y0 < y_max,
                    y_min == orig.height_map@[x0 as int] + MIN_CAVE_DEPTH,
                    y_max == (h as i64) * 4 / 5 - 4,
                    s == 0 ==> px == x0 as i32 && py == y0 as i32,
                    cavern_seed_room(orig) && (widx >= 1 || s >= 1) ==> some_cavern_open(
                        orig,
                        *t,
                    ),
                decreases steps - s,
            {
                let radius: i64 = if rand_range(0, 1000) < 150 {
                    rand_range(6, 11)
                } else {
                    rand_range(2, 5)
                };
                let ghost tpre = *t;
                carver_step(t, px, py, radius as i32, Ghost(orig));
                proof {
                    if cavern_seed_room(orig) {
                        if widx >= 1 || s >= 1 {
                            let (i, j) = choose|i: int, j: int|
                                orig.in_bounds(i, j) && j >= orig.height_map@[i] + MIN_CAVE_DEPTH
                                    && orig.kind_at(i, j) != TileKind::Sky
                                    && #[trigger] tpre.tile_at(i, j) == Terrain::dug_tile(
                                    orig.tile_at(i, j),
                                );
                            assert(t.tile_at(i, j) == Terrain::dug_tile(orig.tile_at(i, j)));
                            assert(some_cavern_open(orig, *t));
                        } else {
                            // the first carve of the first walker opens its seed cell
                            assert(orig.in_bounds(x0 as int, y0 as int));
                            assert(orig.kind_at(x0 as int, y0 as int) != TileKind::Sky);
                            assert(tpre.kind_at(x0 as int, y0 as int) != TileKind::Sky);
                            assert(t.tile_at(x0 as int, y0 as int) == Terrain::dug_tile(
                                orig.tile_at(x0 as int, y0 as int),
                            ));
                            assert(some_cavern_open(orig, *t));
                        }
                    }
                }
                if rand_range(0, 1000) < 250 {
                    if rand_range(0, 2) == 0 {
                        d = (d + 1) % 8;
                    } else {
                        d = (d + 7) % 8;
                    }
                }
                let delta = dir_delta(d);
                px = px + delta.0;
                py = py + delta.1;
                if px < 2 || px > w as i32 - 2 || py < 2 || py > h as i32 - 2 {
                    stopped = true;
                }
                s = s + 1;
            }
        } else {
            proof {
                if cavern_seed_room(orig) {
                    assert(y_min < y_max);
                    assert(false);
                }
            }
        }
        widx = widx + 1;
    }
    proof {
        if cavern_seed_room(orig) {
            assert(walker_count >= 10);
            let (i, j) = choose|i: int, j: int|
                orig.in_bounds(i, j) && j >= orig.height_map@[i] + MIN_CAVE_DEPTH && orig.kind_at(
                    i,
                    j,
                ) != TileKind::Sky && #[trigger] t.tile_at(i, j) == Terrain::dug_tile(
                    orig.tile_at(i, j),
                );
            assert(t.kind_at(i, j) == TileKind::Air);
            assert(t.height_map@[i] == orig.height_map@[i]);
        }
    }
}

/// What sky-island placement may do to the grid: leave a cell alone,
/// rewrite it as island terrain (grass cap, dirt, stone underside), or
/// open it to `Air` (the branch carvers), always keeping flags and band.
pub open spec fn islands_only(orig: Terrain, cur: Terrain) -> bool {
    &&& cur.wf()
    &&& same_dims(orig, cur)
    &&& cur.changed_tiles@ == orig.changed_tiles@
    &&& forall|i: int, j: int|
        orig.in_bounds(i, j) ==> {
            let a = orig.tile_at(i, j);
            let b = #[trigger] cur.tile_at(i, j);
            b == a || written_as(a, b, TileKind::Grass) || written_as(a, b, TileKind::Dirt)
                || written_as(a, b, TileKind::Stone) || written_as(a, b, TileKind::Air)
        }
}

/// One island cell write, re-establishing `islands_only`.
fn island_write(t: &mut Terrain, x: usize, y: usize, k: TileKind, Ghost(orig): Ghost<Terrain>)
    requires
        old(t).wf(),
        x < old(t).width,
        y < old(t).height,
        k == TileKind::Grass || k == TileKind::Dirt || k == TileKind::Stone,
        islands_only(orig, *old(t)),
    ensures
        islands_only(orig, *final(t)),
        same_dims(*old(t), *final(t)),
{
    t.write_kind(x, y, k);
    proof {
        assert forall|i: int, j: int| orig.in_bounds(i, j) implies {
            let a = orig.tile_at(i, j);
            let b = #[trigger] t.tile_at(i, j);
            b == a || written_as(a, b, TileKind::Grass) || written_as(a, b, TileKind::Dirt)
                || written_as(a, b, TileKind::Stone) || written_as(a, b, TileKind::Air)
        } by {
            if i == x && j == y {
                assert(old(t).tile_at(i, j).shade == orig.tile_at(i, j).shade && old(t).tile_at(
                    i,
                    j,
                ).visible == orig.tile_at(i, j).visible && old(t).tile_at(i, j).explored
                    == orig.tile_at(i, j).explored);
            } else {
                assert(t.tile_at(i, j) == old(t).tile_at(i, j));
            }
        }
    }
}

/// Carve a disc and re-establish `islands_only` against the original grid.
fn island_carve(t: &mut Terrain, px: i32, py: i32, r: i32, Ghost(orig): Ghost<Terrain>)
    requires
        old(t).wf(),
        0 <= r <= 1024,
        -2000000 <= px <= 2000000,
        -2000000 <= py <= 2000000,
        islands_only(orig, *old(t)),
    ensures
        islands_only(orig, *final(t)),
        same_dims(*old(t), *final(t)),
{
    let ghost pre = *t;
    carve_disc(t, px, py, r);
    proof {
        assert forall|i: int, j: int| orig.in_bounds(i, j) implies {
            let a = orig.tile_at(i, j);
            let b = #[trigger] t.tile_at(i, j);
            b == a || written_as(a, b, TileKind::Grass) || written_as(a, b, TileKind::Dirt)
                || written_as(a, b, TileKind::Stone) || written_as(a, b, TileKind::Air)
        } by {
            let a = orig.tile_at(i, j);
            if dist2(i, j, px as int, py as int) <= r * r && pre.kind_at(i, j) != TileKind::Sky {
                assert(t.tile_at(i, j) == Terrain::dug_tile(pre.tile_at(i, j)));
            } else {
                assert(t.tile_at(i, j) == pre.tile_at(i, j));
            }
        }
    }
}

/// Integer square root: the greatest `r` with `r * r <= n`.
pub fn isqrt(n: u64) -> (r: u64)
    requires
        n <= 0x100000000,
    ensures
        r * r <= n,
        (r + 1) * (r + 1) > n,
{
    let mut r: u64 = 0;
    while (r + 1) * (r + 1) <= n
        invariant
            n <= 0x100000000,
            r * r <= n,
            r <= 0x10000,
            (r + 1) * (r + 1) <= 0x200000000,
        decreases n - r,
    {
        proof {
            assert((r + 1) * (r + 1) <= 0x100000000 ==> r + 1 <= 0x10000) by (nonlinear_arith);
            assert(r + 1 <= (r + 1) * (r + 1)) by (nonlinear_arith)
                requires r >= 0;
            assert(r + 1 <= 0x10000 ==> (r + 2) * (r + 2) <= 0x200000000) by (nonlinear_arith);
        }
        r = r + 1;
    }
    proof {
        assert(r <= n) by (nonlinear_arith)
            requires r * r <= n, 0 <= r;
    }
    r
}

/// Every column's surface lies deep enough (row 8 or below) that an
/// island footprint fits in the sky above it.
pub open spec fn island_room(t: Terrain) -> bool {
    270 <= t.width && forall|x: int| 0 <= x < t.width ==> #[trigger] t.height_map@[x] >= 8
}

/// Place floating sky islands by rejection-sampling disjoint elliptical
/// footprints above the surface: each is carved as a grass-and-dirt cap
/// over a tapering stone underside (its rim jittered by the edge noise),
/// then perforated by one or two random-walk branch carvers.  An island
/// whose footprint cannot be placed within the attempt budget is skipped;
/// the number actually placed is returned so the caller can report a
/// shortfall.
pub fn place_sky_islands(t: &mut Terrain, surf: &Vec<i16>, edge: &Vec<i16>) -> (placed: usize)
    requires
        old(t).wf(),
        surf@.len() == old(t).width,
        forall|k: int| 0 <= k < old(t).width ==> -1000 <= #[trigger] surf@[k] <= 1000,
        edge@.len() == old(t).width * old(t).height,
        forall|k: int|
            0 <= k < old(t).width * old(t).height ==> -1000 <= #[trigger] edge@[k] <= 1000,
    ensures
        islands_only(*old(t), *final(t)),
        placed <= 32,
        island_room(*old(t)) ==> placed >= 1,
{
    let ghost orig = *t;
    let w = t.width;
    let h = t.height;
    let mut count: usize = 0;
    if w < 270 {
        return 0;
    }
    let target: usize = if w / 170 > 32 {
        32
    } else if w / 170 < 1 {
        1
    } else {
        w / 170
    };
    let mut rl: Vec<i64> = Vec::new();
    let mut rr_: Vec<i64> = Vec::new();
    let mut rt: Vec<i64> = Vec::new();
    let mut rb: Vec<i64> = Vec::new();
    let mut isl: usize = 0;
    while isl < target
        invariant
            islands_only(orig, *t),
            orig.wf(),
            w == t.width,
            h == t.height,
            270 <= w,
            surf@.len() == w,
            forall|k: int| 0 <= k < w ==> -1000 <= #[trigger] surf@[k] <= 1000,
            edge@.len() == w * h,
            forall|k: int| 0 <= k < w * h ==> -1000 <= #[trigger] edge@[k] <= 1000,
            isl <= target <= 32,
            count <= isl,
            rl@.len() == rr_@.len() && rl@.len() == rt@.len() && rl@.len() == rb@.len(),
            isl == 0 ==> rl@.len() == 0,
            island_room(orig) && isl >= 1 ==> count >= 1,
        decreases target - isl,
    {
        // rejection-sample a footprint disjoint from the placed ones
        let ghost grl = rl@;
        let mut tries: u32 = 0;
        let mut found = false;
        let mut cx: i64 = 0;
        let mut cy: i64 = 0;
        let mut rx: i64 = 0;
        while tries < 3000 && !found
            invariant
                islands_only(orig, *t),
                orig.wf(),
                w == t.width,
                h == t.height,
                270 <= w,
                tries <= 3000,
                rl@.len() == rr_@.len() && rl@.len() == rt@.len() && rl@.len() == rb@.len(),
                found ==> 80 <= rx <= 128 && rx + 4 <= cx && cx < w - rx - 4 && 3 <= cy
                    && cy < h,
                !found ==> rl@ == grl,
                isl == 0 ==> grl.len() == 0,
                island_room(orig) && isl == 0 ==> (tries >= 1 ==> found),
            decreases 3000 - tries,
        {
            tries = tries + 1;
            let rx_c: i64 = rand_range(80, 129);
            let cx_c: i64 = rand_range(rx_c + 4, w as i64 - rx_c - 4);
            let sfc = t.surface(cx_c as usize) as i64;
            if sfc / 2 > 3 {
                let cy_c: i64 = rand_range(3, sfc / 2);
                let ry_bottom: i64 = rx_c / 2;
                let lo_x = cx_c - rx_c - 10;
                let hi_x = cx_c + rx_c + 10;
                let lo_y = cy_c - 2;
                let hi_y = cy_c + ry_bottom + 2;
                let mut overlaps = false;
                let mut pi: usize = 0;
                while pi < rl.len()
                    invariant
                        pi <= rl@.len(),
                        rl@.len() == rr_@.len() && rl@.len() == rt@.len() && rl@.len() == rb@.len(),
                        rl@.len() == 0 ==> !overlaps,
                    decreases rl@.len() - pi,
                {
                    if hi_x >= rl[pi] && lo_x <= rr_[pi] && hi_y >= rt[pi] && lo_y <= rb[pi] {
                        overlaps = true;
                    }
                    pi = pi + 1;
                }
                if !overlaps {
                    found = true;
                    cx = cx_c;
                    cy = cy_c;
                    rx = rx_c;
                    rl.push(lo_x);
                    rr_.push(hi_x);
                    rt.push(lo_y);
                    rb.push(hi_y);
                }
            }
        }
        if found {
            count = count + 1;
            let ry_bottom: i64 = rx / 2;
            let ry_top: i64 = if rx * 30 / 100 > 8 {
                rx * 30 / 100
            } else {
                8
            };
            // solid cap with a wavy grass line over a tapering underside
            let mut dx: i64 = -rx;
            while dx <= rx
                invariant
                    islands_only(orig, *t),
                    orig.wf(),
                    w == t.width,
                    h == t.height,
                    270 <= w,
                    surf@.len() == w,
                    forall|k: int| 0 <= k < w ==> -1000 <= #[trigger] surf@[k] <= 1000,
                    edge@.len() == w * h,
                    forall|k: int| 0 <= k < w * h ==> -1000 <= #[trigger] edge@[k] <= 1000,
                    80 <= rx <= 128,
                    20 <= ry_bottom <= 64,
                    rx + 4 <= cx && cx < w - rx - 4,
                    3 <= cy < h,
                    -rx <= dx <= rx + 1,
                decreases rx + 1 - dx,
            {
                let x: i64 = cx + dx;
                let und: i64 = (surf[x as usize] as i64 + 1000) / 500 - 2;
                let y_top: i64 = cy + und;
                // grass cap plus two dirt rows
                let mut dd: i64 = 0;
                while dd <= 2
                    invariant
                        islands_only(orig, *t),
                        orig.wf(),
                        w == t.width,
                        h == t.height,
                        h <= 32768,
                        0 <= x < w,
                        0 <= dd <= 3,
                        1 <= cy < h,
                        -2 <= und <= 2,
                        y_top == cy + und,
                    decreases 3 - dd,
                {
                    let yy = y_top + dd;
                    if yy >= 0 && yy < h as i64 {
                        let k = if dd == 0 {
                            TileKind::Grass
                        } else {
                            TileKind::Dirt
                        };
                        island_write(t, x as usize, yy as usize, k, Ghost(orig));
                    }
                    dd = dd + 1;
                }
                // stone-and-dirt underside, tapered by the ellipse
                proof {
                    assert(0 <= rx * rx - dx * dx <= 16384 && rx * rx <= 16384)
                        by (nonlinear_arith)
                        requires -rx <= dx <= rx && 80 <= rx <= 128;
                }
                let tap: u64 = isqrt((rx * rx - dx * dx) as u64);
                proof {
                    assert(tap * tap <= 16384 ==> tap <= 128) by (nonlinear_arith);
                    assert(dx * dx >= 0) by (nonlinear_arith);
                    assert(tap * tap <= (rx as int) * (rx as int));
                    assert(tap * tap <= (rx as int) * (rx as int) ==> tap <= rx)
                        by (nonlinear_arith)
                        requires 0 <= rx;
                    assert(0 <= (ry_bottom as int) * (tap as int) / (rx as int) <= 64 && 0 <= (
                    ry_bottom as int) * (tap as int) <= 8192) by (nonlinear_arith)
                        requires
                            20 <= ry_bottom <= 64 && 0 <= tap <= 128 && 80 <= rx <= 128 && tap
                                <= rx;
                }
                let depth: i64 = ry_bottom * (tap as i64) / rx;
                let mut d3: i64 = 3;
                while d3 <= depth
                    invariant
                        islands_only(orig, *t),
                        orig.wf(),
                        w == t.width,
                        h == t.height,
                        h <= 32768,
                        0 <= x < w,
                        3 <= d3,
                        0 <= depth <= 64,
                        1 <= cy < h,
                        -2 <= und <= 2,
                        y_top == cy + und,
                        edge@.len() == w * h,
                        forall|k: int| 0 <= k < w * h ==> -1000 <= #[trigger] edge@[k] <= 1000,
                    decreases depth + 1 - d3,
                {
                    let yy = y_top + d3;
                    if yy >= 0 && yy < h as i64 {
                        proof {
                            lemma_idx_bounds(x as int, yy as int, w as int, h as int);
                            assert(w * h <= 32768 * 32768) by (nonlinear_arith)
                                requires w <= 32768 && h <= 32768;
                        }
                        let e = edge[(yy as usize) * w + (x as usize)];
                        if !(d3 == depth && e < -150) {
                            let k = if d3 < 7 {
                                TileKind::Dirt
                            } else {
                                TileKind::Stone
                            };
                            island_write(t, x as usize, yy as usize, k, Ghost(orig));
                        }
                    }
                    d3 = d3 + 1;
                }
                dx = dx + 1;
            }
            // branching cavern system inside the island
            let seeds = rand_range(1, 3);
            let mut sidx: i64 = 0;
            while sidx < seeds
                invariant
                    islands_only(orig, *t),
                    orig.wf(),
                    w == t.width,
                    h == t.height,
                    80 <= rx <= 128,
                    20 <= ry_bottom <= 64,
                    8 <= ry_top <= 38,
                    rx + 4 <= cx && cx < w - rx - 4,
                    3 <= cy < h,
                    0 <= sidx <= seeds <= 2,
                decreases seeds - sidx,
            {
                let span = rx * 30 / 100;
                let wdx = rand_range(-span, span + 1);
                if ry_top + 4 < ry_bottom - 6 {
                    let wdy = rand_range(ry_top + 4, ry_bottom - 6);
                    let mut px: i64 = cx + wdx;
                    let mut py: i64 = cy + wdy;
                    let mut d: i64 = rand_range(0, 8);
                    let steps = rand_range(150, 261);
                    let mut s: i64 = 0;
                    while s < steps
                        invariant
                            islands_only(orig, *t),
                            orig.wf(),
                            w == t.width,
                            h == t.height,
                            80 <= rx <= 128,
                            20 <= ry_bottom <= 64,
                            rx + 4 <= cx && cx < w - rx - 4,
                            3 <= cy < h,
                            0 <= s <= steps <= 260,
                            0 <= d < 8,
                            cx - 60 - 3 * s <= px <= cx + 60 + 3 * s,
                            cy - 60 - 3 * s <= py <= cy + 60 + 3 * s,
                        decreases steps - s,
                    {
                        let r: i64 = if rand_range(0, 1000) < 70 {
                            rand_range(4, 7)
                        } else {
                            rand_range(1, 3)
                        };
                        island_carve(t, px as i32, py as i32, r as i32, Ghost(orig));
                        if rand_range(0, 1000) < 150 {
                            if rand_range(0, 2) == 0 {
                                d = (d + 1) % 8;
                            } else {
                                d = (d + 7) % 8;
                            }
                        }
                        let delta = dir_delta(d);
                        px = px + delta.0 as i64;
                        py = py + delta.1 as i64;
                        // bounce off the island shell
                        let relx = px - cx;
                        let rely = py - cy;
                        proof {
                            assert(0 <= relx * relx <= 900 * 900 && 0 <= rely * rely <= 900 * 900
                                && 0 <= ry_bottom * ry_bottom <= 4096 && 0 <= rx * rx <= 16384)
                                by (nonlinear_arith)
                                requires
                                    -900 <= relx <= 900,
                                    -900 <= rely <= 900,
                                    20 <= ry_bottom <= 64,
                                    80 <= rx <= 128;
                            assert(0 <= (relx * relx) * (ry_bottom * ry_bottom) <= 900 * 900 * 4096
                                && 0 <= (rely * rely) * (rx * rx) <= 900 * 900 * 16384 && 0 <= (rx
                                * rx) * (ry_bottom * ry_bottom) <= 16384 * 4096)
                                by (nonlinear_arith)
                                requires
                                    0 <= relx * relx <= 900 * 900,
                                    0 <= rely * rely <= 900 * 900,
                                    0 <= ry_bottom * ry_bottom <= 4096,
                                    0 <= rx * rx <= 16384;
                        }
                        let lhs: i64 = (relx * relx) * (ry_bottom * ry_bottom) + (rely * rely) * (rx
                            * rx);
                        let rhs: i64 = (rx * rx) * (ry_bottom * ry_bottom);
                        if lhs * 10 > rhs * 8 || py - cy < 3 || cy + ry_bottom - py < 3 {
                            d = (d + 4) % 8;
                            let delta2 = dir_delta(d);
                            px = px + 2 * delta2.0 as i64;
                            py = py + 2 * delta2.1 as i64;
                        }
                        s = s + 1;
                    }
                }
                sidx = sidx + 1;
            }
        }
        isl = isl + 1;
    }
    count
}

/// Generate a whole world: synthesize the height map, fill every column,
/// place mountains either side of the spawn column, place sky islands,
/// and carve the underground cavern network — in that fixed order, so
/// later passes never refill earlier structural carving below ground.
/// Returns the populated grid, the number of mountain ridge bands placed,
/// and the number of sky islands placed: a shortfall against either
/// feature's target is a soft condition the caller may report, never an
/// error — and on a map with room, neither count can be zero.
pub fn generate_world(
    width: usize,
    height: usize,
    hills: &Vec<i16>,
    cliffs: &Vec<i16>,
    rift: &Vec<i16>,
    ridge: &Vec<i16>,
    surf: &Vec<i16>,
    color: &Vec<i16>,
    edge: &Vec<i16>,
) -> (res: (Terrain, usize, usize))
    requires
        1 <= width <= 32768,
        15 <= height <= 32768,
        hills@.len() == width,
        cliffs@.len() == width,
        rift@.len() == width,
        ridge@.len() == width,
        surf@.len() == width,
        color@.len() == width * height,
        edge@.len() == width * height,
        forall|k: int| 0 <= k < width ==> -1000 <= #[trigger] hills@[k] <= 1000,
        forall|k: int| 0 <= k < width ==> -1000 <= #[trigger] cliffs@[k] <= 1000,
        forall|k: int| 0 <= k < width ==> -1000 <= #[trigger] rift@[k] <= 1000,
        forall|k: int| 0 <= k < width ==> -1000 <= #[trigger] ridge@[k] <= 1000,
        forall|k: int| 0 <= k < width ==> -1000 <= #[trigger] surf@[k] <= 1000,
        forall|k: int| 0 <= k < width * height ==> -1000 <= #[trigger] color@[k] <= 1000,
        forall|k: int| 0 <= k < width * height ==> -1000 <= #[trigger] edge@[k] <= 1000,
    ensures
        res.0.wf(),
        res.0.width == width,
        res.0.height == height,
        res.0.changed_tiles@.len() == 0,
        forall|x: int|
            0 <= x < width ==> (#[trigger] res.0.height_map@[x]) == spec_surface(
                height as int,
                hills@[x] as int,
                cliffs@[x] as int,
            ),
        forall|i: int, j: int|
            res.0.in_bounds(i, j) ==> !(#[trigger] res.0.tile_at(i, j)).visible && !res.0.tile_at(
                i,
                j,
            ).explored,
        forall|i: int, j: int|
            res.0.in_bounds(i, j) ==> {
                let tl = #[trigger] res.0.tile_at(i, j);
                tl.mine_time == kind_mine_time(tl.kind) && tl.shade == shade_band(
                    color@[j * width + i] as int,
                ) && tl.base_rgb == rgb_of(tl.kind, tl.shade)
            },
        forall|i: int, j: int|
            res.0.in_bounds(i, j) && is_solid_kind((#[trigger] res.0.tile_at(i, j)).kind)
                ==> res.0.tile_at(i, j).mine_time > 0,
        forall|i: int, j: int|
            res.0.in_bounds(i, j) && #[trigger] res.0.kind_at(i, j) == TileKind::Sky ==> j
                < res.0.height_map@[i],
        res.1 <= 6,
        mountain_room_left((width / 2) as int) ==> res.1 >= 1,
        mountain_room_right(width as int, (width / 2) as int) ==> res.1 >= 1,
        res.2 <= 32,
        (270 <= width && forall|x: int|
            0 <= x < width ==> spec_surface(height as int, hills@[x] as int, cliffs@[x] as int)
                >= 8) ==> res.2 >= 1,
{
    let hm = synth_height_map(width, height, hills, cliffs);
    let t1 = fill_columns(width, height, hm, rift, color);
    let mut t = t1;
    let ghost g1 = t;
    let spawn_x = width / 2;
    let bands = generate_mountains(&mut t, ridge, spawn_x);
    let ghost g2 = t;
    let placed = place_sky_islands(&mut t, surf, edge);
    let ghost g3 = t;
    carve_underground_caverns(&mut t);
    proof {
        assert forall|i: int, j: int| t.in_bounds(i, j) implies {
            let tl = #[trigger] t.tile_at(i, j);
            &&& tl.mine_time == kind_mine_time(tl.kind)
            &&& tl.shade == shade_band(color@[j * width + i] as int)
            &&& tl.base_rgb == rgb_of(tl.kind, tl.shade)
            &&& !tl.visible
            &&& !tl.explored
            &&& (tl.kind == TileKind::Sky ==> j < t.height_map@[i])
        } by {
            let a1 = g1.tile_at(i, j);
            let a2 = g2.tile_at(i, j);
            let a3 = g3.tile_at(i, j);
            assert(g1.in_bounds(i, j) && g2.in_bounds(i, j) && g3.in_bounds(i, j));
            // each later pass either keeps the cell or rewrites it as a
            // fresh tile of a non-Sky kind, preserving band and flags
            assert(a2 == a1 || written_as(a1, a2, TileKind::Snow) || written_as(
                a1,
                a2,
                TileKind::Stone,
            ) || written_as(a1, a2, TileKind::Dirt));
            assert(a3 == a2 || written_as(a2, a3, TileKind::Grass) || written_as(
                a2,
                a3,
                TileKind::Dirt,
            ) || written_as(a2, a3, TileKind::Stone) || written_as(a2, a3, TileKind::Air));
            assert(t.tile_at(i, j) == a3 || t.tile_at(i, j) == Terrain::dug_tile(a3));
            if t.tile_at(i, j).kind == TileKind::Sky {
                assert(a1.kind == TileKind::Sky);
                assert(column_kind_ok(g1.kind_at(i, j), g1.height_map@[i] as int, j, rift@[i] as int));
                assert(j < g1.height_map@[i]);
            }
        }
    }
    (t, bands, placed)
}

} // verus!
