//! Per-cell tile model: kinds, mining work, and the cached banded tint.
//!
//! All colour arithmetic is carried out in integer per-mille units
//! (1000 = 1.0) so that tint computation is exact and repeatable.

use vstd::prelude::*;

verus! {

/// The terrain of one grid cell.
#[derive(Clone, Copy, PartialEq, Eq, Structural, Debug)]
pub enum TileKind {
    Air,
    Sky,
    Grass,
    Dirt,
    Stone,
    Obsidian,
    Snow,
}

/// Number of discrete brightness bands used for terrain tinting.
pub const COLOR_LEVELS: u8 = 4;

/// Brightness (per-mille) of a tile that was explored but is not in view.
pub const EXPLORED_BRIGHTNESS: u32 = 250;

/// True of the kinds that block movement and sight.
pub open spec fn is_solid_kind(k: TileKind) -> bool {
    k == TileKind::Grass || k == TileKind::Dirt || k == TileKind::Stone
        || k == TileKind::Obsidian || k == TileKind::Snow
}

/// Executable twin of `is_solid_kind`.
pub fn solid_kind(k: TileKind) -> (r: bool)
    ensures
        r == is_solid_kind(k),
{
    match k {
        TileKind::Grass | TileKind::Dirt | TileKind::Stone | TileKind::Obsidian
            | TileKind::Snow => true,
        TileKind::Air | TileKind::Sky => false,
    }
}

/// Every kind except `Sky` is rendered with a drawable (solid terrain in
/// front, `Air` as the dark cave background); `Sky` cells never get one.
pub open spec fn is_drawable_kind(k: TileKind) -> bool {
    k != TileKind::Sky
}

/// Work (in hundredths of a second of mining) needed to break a fresh tile
/// of the given kind; zero for the non-solid kinds.
pub open spec fn kind_mine_time(k: TileKind) -> u32 {
    match k {
        TileKind::Grass => 10,
        TileKind::Snow => 15,
        TileKind::Dirt => 25,
        TileKind::Stone => 50,
        TileKind::Obsidian => 100,
        TileKind::Air => 0,
        TileKind::Sky => 0,
    }
}

/// Executable twin of `kind_mine_time`.
pub fn mine_time_of(k: TileKind) -> (t: u32)
    ensures
        t == kind_mine_time(k),
{
    match k {
        TileKind::Grass => 10,
        TileKind::Snow => 15,
        TileKind::Dirt => 25,
        TileKind::Stone => 50,
        TileKind::Obsidian => 100,
        TileKind::Air => 0,
        TileKind::Sky => 0,
    }
}

/// A colour with per-mille components (1000 = full intensity; values may
/// exceed 1000 slightly for brightened bands).
#[derive(Clone, Copy, PartialEq, Eq, Structural, Debug)]
pub struct Rgb {
    pub r: u16,
    pub g: u16,
    pub b: u16,
}

/// Base colour of each kind, per-mille.
pub open spec fn kind_base_color(k: TileKind) -> (int, int, int) {
    match k {
        TileKind::Grass => (130, 700, 80),
        TileKind::Snow => (950, 950, 950),
        TileKind::Dirt => (550, 270, 70),
        TileKind::Stone => (500, 500, 500),
        TileKind::Obsidian => (200, 50, 350),
        TileKind::Air => (200, 100, 50),
        TileKind::Sky => (0, 0, 0),
    }
}

/// Quantize a coherent-noise sample (per-mille, in [-1000, 1000]) into one
/// of `COLOR_LEVELS` discrete brightness bands.
pub open spec fn shade_band(s: int) -> u8 {
    let t = (s + 1000) / 500;
    if t >= 3 {
        3u8
    } else if t <= 0 {
        0u8
    } else {
        t as u8
    }
}

/// Executable twin of `shade_band`.
pub fn shade_band_of(s: i16) -> (band: u8)
    requires
        -1000 <= s <= 1000,
    ensures
        band == shade_band(s as int),
        band < COLOR_LEVELS,
{
    let t: i32 = (s as i32 + 1000) / 500;
    if t >= 3 {
        3
    } else {
        t as u8
    }
}

/// Per-mille brightness multiplier of each band: band 0 darkens by 20%,
/// band 3 brightens by 20%.
pub open spec fn shade_factor(band: u8) -> int {
    if band == 0 {
        800
    } else if band == 1 {
        933
    } else if band == 2 {
        1066
    } else {
        1200
    }
}

/// The cached tint of a tile: the kind's base colour scaled by the band's
/// brightness multiplier.
pub open spec fn rgb_of(k: TileKind, band: u8) -> Rgb {
    let (br, bg, bb) = kind_base_color(k);
    let f = shade_factor(band);
    Rgb { r: (br * f / 1000) as u16, g: (bg * f / 1000) as u16, b: (bb * f / 1000) as u16 }
}

/// Executable twin of `rgb_of`.
pub fn compute_rgb(k: TileKind, band: u8) -> (c: Rgb)
    ensures
        c == rgb_of(k, band),
{
    let (br, bg, bb): (u32, u32, u32) = match k {
        TileKind::Grass => (130, 700, 80),
        TileKind::Snow => (950, 950, 950),
        TileKind::Dirt => (550, 270, 70),
        TileKind::Stone => (500, 500, 500),
        TileKind::Obsidian => (200, 50, 350),
        TileKind::Air => (200, 100, 50),
        TileKind::Sky => (0, 0, 0),
    };
    let f: u32 = if band == 0 {
        800
    } else if band == 1 {
        933
    } else if band == 2 {
        1066
    } else {
        1200
    };
    assert(br * f <= 950 * 1200 && bg * f <= 950 * 1200 && bb * f <= 950 * 1200)
        by (nonlinear_arith)
        requires br <= 950 && bg <= 950 && bb <= 950 && f <= 1200;
    Rgb { r: (br * f / 1000) as u16, g: (bg * f / 1000) as u16, b: (bb * f / 1000) as u16 }
}

/// One cell of the tile grid.
#[derive(Clone, Copy, PartialEq, Eq, Structural, Debug)]
pub struct Tile {
    pub kind: TileKind,
    /// In the current field of view.
    pub visible: bool,
    /// Ever seen; monotonic once set.
    pub explored: bool,
    /// Remaining mining work; zero for non-solid kinds.
    pub mine_time: u32,
    /// Brightness band fixed at generation time from a noise sample.
    pub shade: u8,
    /// Cached tint, kept equal to `rgb_of(kind, shade)` by every mutation.
    pub base_rgb: Rgb,
}

/// Well-formedness of a single tile: non-solid kinds carry no mining work,
/// remaining work never exceeds a fresh tile's, and the cached tint matches
/// the kind and band.
pub open spec fn tile_wf(t: Tile) -> bool {
    &&& !is_solid_kind(t.kind) ==> t.mine_time == 0
    &&& t.mine_time <= kind_mine_time(t.kind)
    &&& t.shade < COLOR_LEVELS
    &&& t.base_rgb == rgb_of(t.kind, t.shade)
}

/// A fresh, unexplored tile of the given kind and brightness band.
pub open spec fn fresh_tile(k: TileKind, band: u8) -> Tile {
    Tile {
        kind: k,
        visible: false,
        explored: false,
        mine_time: kind_mine_time(k),
        shade: band,
        base_rgb: rgb_of(k, band),
    }
}

/// Executable twin of `fresh_tile`.
pub fn make_tile(k: TileKind, band: u8) -> (t: Tile)
    requires
        band < COLOR_LEVELS,
    ensures
        t == fresh_tile(k, band),
        tile_wf(t),
{
    Tile {
        kind: k,
        visible: false,
        explored: false,
        mine_time: mine_time_of(k),
        shade: band,
        base_rgb: compute_rgb(k, band),
    }
}

/// Brightness (per-mille) at which a tile is drawn: full when in view,
/// dim when merely explored, black when never seen.
pub open spec fn brightness(t: Tile) -> u32 {
    if t.visible {
        1000
    } else if t.explored {
        EXPLORED_BRIGHTNESS
    } else {
        0
    }
}

/// The colour a tile is drawn with: its cached tint scaled by the
/// visibility brightness.
pub open spec fn lit_rgb(t: Tile) -> Rgb {
    let b = brightness(t);
    Rgb {
        r: (t.base_rgb.r * b / 1000) as u16,
        g: (t.base_rgb.g * b / 1000) as u16,
        b: (t.base_rgb.b * b / 1000) as u16,
    }
}

/// Executable twin of `lit_rgb`.
pub fn tile_color(t: &Tile) -> (c: Rgb)
    ensures
        c == lit_rgb(*t),
{
    let b: u32 = if t.visible {
        1000
    } else if t.explored {
        EXPLORED_BRIGHTNESS
    } else {
        0
    };
    let r: u32 = t.base_rgb.r as u32;
    let g: u32 = t.base_rgb.g as u32;
    let bl: u32 = t.base_rgb.b as u32;
    assert(r * b <= 65535 * 1000 && g * b <= 65535 * 1000 && bl * b <= 65535 * 1000)
        by (nonlinear_arith)
        requires r <= 65535 && g <= 65535 && bl <= 65535 && b <= 1000;
    Rgb { r: (r * b / 1000) as u16, g: (g * b / 1000) as u16, b: (bl * b / 1000) as u16 }
}

/// Depth layer a tile's drawable is placed on: `Air` backgrounds sit behind
/// the solid terrain.
pub open spec fn layer_of(k: TileKind) -> i32 {
    if k == TileKind::Air {
        -1i32
    } else {
        0i32
    }
}

/// Executable twin of `layer_of`.
pub fn tile_layer(k: TileKind) -> (z: i32)
    ensures
        z == layer_of(k),
{
    if k == TileKind::Air {
        -1
    } else {
        0
    }
}

} // verus!
