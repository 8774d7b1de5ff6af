//! Generation: height-map formula, column structure, and the grid
//! invariant over whole generated worlds.

use tileworld::gen::{
    carve_disc, fill_columns, generate_world, isqrt, synth_height_map, MIN_CAVE_DEPTH,
};
use tileworld::grid::Terrain;
use tileworld::tile::{compute_rgb, make_tile, mine_time_of, shade_band_of, tile_color, TileKind};

fn flat(v: i16, n: usize) -> Vec<i16> {
    vec![v; n]
}

/// Pseudo-noise in [-1000, 1000] for deterministic fixtures.
fn wavy(n: usize, seed: i64) -> Vec<i16> {
    let mut v = Vec::with_capacity(n);
    let mut s = seed;
    for _ in 0..n {
        s = (s * 31 + 17) % 2001;
        v.push((s - 1000) as i16);
    }
    v
}

#[test]
fn height_map_formula_exact() {
    // h = 100: base row = 35; a positive sample digs 12 rows per unit,
    // a negative one rises 5 rows per unit; cliffs shift by 18.
    let hills = vec![500i16, -1000, 0, 0];
    let cliffs = vec![0i16, 0, 900, -900];
    let hm = synth_height_map(4, 100, &hills, &cliffs);
    assert_eq!(hm[0], 35 - 6); // 500 * 12 / 1000 = 6
    assert_eq!(hm[1], 35 + 5);
    assert_eq!(hm[2], 35 - 18);
    assert_eq!(hm[3], 35 + 18);
}

#[test]
fn height_map_clamped_to_safe_range() {
    let w = 32;
    let hills = wavy(w, 3);
    let cliffs = wavy(w, 7);
    let hm = synth_height_map(w, 15, &hills, &cliffs);
    for x in 0..w {
        assert!(hm[x] >= 4 && hm[x] <= 5);
    }
}

#[test]
fn columns_have_sky_surface_and_guaranteed_solid_band() {
    let w = 48;
    let h = 64;
    let hills = wavy(w, 11);
    let cliffs = flat(0, w);
    let hm = synth_height_map(w, h, &hills, &cliffs);
    let rift = flat(0, w);
    let color = wavy(w * h, 13);
    let t = fill_columns(w, h, hm.clone(), &rift, &color);
    for x in 0..w {
        let surface = hm[x];
        for y in 0..h {
            let tile = t.get_tile(x, y);
            if y < surface {
                assert_eq!(tile.kind, TileKind::Sky);
            } else if y == surface {
                assert!(matches!(tile.kind, TileKind::Grass | TileKind::Dirt));
            } else if y - surface < MIN_CAVE_DEPTH {
                // guaranteed minimum solid depth before any carving
                assert!(matches!(
                    tile.kind,
                    TileKind::Dirt | TileKind::Stone | TileKind::Obsidian
                ));
            }
            assert!(!tile.visible && !tile.explored);
        }
    }
}

#[test]
fn rift_column_is_torn_open_below_the_solid_band() {
    let w = 8;
    let h = 64;
    let hm = vec![10usize; w];
    let mut rift = flat(0, w);
    rift[3] = 900; // above the 750 per-mille threshold
    let color = flat(0, w * h);
    let t = fill_columns(w, h, hm, &rift, &color);
    for y in 18..h {
        // depth >= MIN_CAVE_DEPTH in the rift column is all Air
        assert_eq!(t.get_tile(3, y).kind, TileKind::Air);
        assert_eq!(t.get_tile(3, y).mine_time, 0);
    }
    for y in 11..18 {
        assert!(matches!(
            t.get_tile(3, y).kind,
            TileKind::Dirt | TileKind::Stone | TileKind::Obsidian
        ));
    }
}

/// For all cells, a non-solid kind carries no mining work — checked
/// over a fully generated world, features and carving included.
#[test]
fn grid_invariant_after_full_generation() {
    let w = 300;
    let h = 80;
    let (t, bands, islands) = generate_world(
        w,
        h,
        &wavy(w, 1),
        &wavy(w, 2),
        &wavy(w, 3),
        &wavy(w, 4),
        &wavy(w, 5),
        &wavy(w * h, 6),
        &wavy(w * h, 7),
    );
    assert!(bands <= 6);
    assert!(islands <= 32);
    assert_eq!(t.width, w);
    assert_eq!(t.height, h);
    for x in 0..w {
        assert!(t.height_map[x] < h);
        for y in 0..h {
            let tile = t.get_tile(x, y);
            let solid = matches!(
                tile.kind,
                TileKind::Grass | TileKind::Dirt | TileKind::Stone | TileKind::Obsidian
                    | TileKind::Snow
            );
            if !solid {
                assert_eq!(tile.mine_time, 0);
            }
            assert!(tile.mine_time <= mine_time_of(tile.kind));
            assert!(!tile.visible && !tile.explored);
        }
    }
}

#[test]
fn carve_disc_opens_exactly_the_disc_and_spares_sky() {
    let w = 21;
    let h = 21;
    let mut t = Terrain::new_uniform(w, h, TileKind::Stone, 2);
    // a band of sky at the top
    for x in 0..w {
        for y in 0..2 {
            t.set_tile_kind(x, y, TileKind::Sky);
        }
    }
    t.changed_tiles.clear();
    carve_disc(&mut t, 10, 10, 4);
    for x in 0..w {
        for y in 0..h {
            let dx = x as i32 - 10;
            let dy = y as i32 - 10;
            let tile = t.get_tile(x, y);
            if y < 2 {
                assert_eq!(tile.kind, TileKind::Sky);
            } else if dx * dx + dy * dy <= 16 {
                assert_eq!(tile.kind, TileKind::Air);
                assert_eq!(tile.mine_time, 0);
            } else {
                assert_eq!(tile.kind, TileKind::Stone);
            }
        }
    }
    assert_eq!(t.changed_tiles.len(), 0);
}

#[test]
fn isqrt_exact_values() {
    assert_eq!(isqrt(0), 0);
    assert_eq!(isqrt(1), 1);
    assert_eq!(isqrt(3), 1);
    assert_eq!(isqrt(4), 2);
    assert_eq!(isqrt(16383), 127);
    assert_eq!(isqrt(16384), 128);
    assert_eq!(isqrt(4294967296), 65536);
}

#[test]
fn shade_bands_quantize_into_four_steps() {
    assert_eq!(shade_band_of(-1000), 0);
    assert_eq!(shade_band_of(-501), 0);
    assert_eq!(shade_band_of(-500), 1);
    assert_eq!(shade_band_of(-1), 1);
    assert_eq!(shade_band_of(0), 2);
    assert_eq!(shade_band_of(499), 2);
    assert_eq!(shade_band_of(500), 3);
    assert_eq!(shade_band_of(1000), 3);
}

#[test]
fn tile_color_applies_band_and_visibility_brightness() {
    // Stone base is (500, 500, 500); band 3 brightens by 20%.
    let c = compute_rgb(TileKind::Stone, 3);
    assert_eq!((c.r, c.g, c.b), (600, 600, 600));
    let mut tile = make_tile(TileKind::Stone, 3);
    // never seen: drawn black
    let dark = tile_color(&tile);
    assert_eq!((dark.r, dark.g, dark.b), (0, 0, 0));
    // explored but out of view: a quarter brightness
    tile.explored = true;
    let dim = tile_color(&tile);
    assert_eq!((dim.r, dim.g, dim.b), (150, 150, 150));
    // in view: full brightness
    tile.visible = true;
    let lit = tile_color(&tile);
    assert_eq!((lit.r, lit.g, lit.b), (600, 600, 600));
}

#[test]
fn mining_decrements_then_breaks_exactly_once() {
    let mut t = Terrain::new_uniform(8, 8, TileKind::Stone, 1);
    // stone takes 50 units of work
    assert!(!t.mine_tile(4, 4, 20));
    assert_eq!(t.get_tile(4, 4).kind, TileKind::Stone);
    assert_eq!(t.get_tile(4, 4).mine_time, 30);
    assert_eq!(t.changed_tiles.len(), 0);
    assert!(!t.mine_tile(4, 4, 20));
    assert_eq!(t.get_tile(4, 4).mine_time, 10);
    assert!(t.mine_tile(4, 4, 20));
    assert_eq!(t.get_tile(4, 4).kind, TileKind::Air);
    assert_eq!(t.get_tile(4, 4).mine_time, 0);
    // the coordinate is queued exactly once per mutation
    assert_eq!(t.changed_tiles, vec![(4, 4)]);
    // mining air does nothing
    assert!(!t.mine_tile(4, 4, 20));
    assert_eq!(t.changed_tiles, vec![(4, 4)]);
}

#[test]
fn placing_needs_air_and_a_solid_neighbour() {
    let mut t = Terrain::new_uniform(8, 8, TileKind::Air, 1);
    t.set_tile_kind(4, 4, TileKind::Stone);
    t.changed_tiles.clear();
    // next to the stone block: allowed
    assert!(t.can_place(4, 3));
    assert!(t.place_stone(4, 3));
    assert_eq!(t.get_tile(4, 3).kind, TileKind::Stone);
    assert_eq!(t.changed_tiles, vec![(4, 3)]);
    // mid-air, no solid neighbour: refused
    assert!(!t.can_place(2, 2));
    assert!(!t.place_stone(2, 2));
    // occupied: refused
    assert!(!t.place_stone(4, 4));
    // at the map edge, out-of-bounds neighbours count as solid
    assert!(t.can_place(7, 0));
    assert_eq!(t.changed_tiles, vec![(4, 3)]);
}

#[test]
fn dig_disc_digs_solids_in_radius_and_queues_each_once() {
    let mut t = Terrain::new_uniform(16, 16, TileKind::Dirt, 1);
    t.dig_disc(8, 8, 3);
    let mut dug = 0;
    for x in 0..16 {
        for y in 0..16 {
            let dx = x as i32 - 8;
            let dy = y as i32 - 8;
            if dx * dx + dy * dy <= 9 {
                assert_eq!(t.get_tile(x, y).kind, TileKind::Air);
                dug += 1;
            } else {
                assert_eq!(t.get_tile(x, y).kind, TileKind::Dirt);
            }
        }
    }
    assert_eq!(t.changed_tiles.len(), dug);
    let mut seen = t.changed_tiles.clone();
    seen.sort();
    seen.dedup();
    assert_eq!(seen.len(), dug);
}

/// On a map with room on both sides of the spawn column and a deep
/// enough surface everywhere, the feature passes cannot come up empty:
/// ridge bands and at least one sky island are placed, and the cavern
/// walkers open real tunnels below the solid band, on every outcome.
#[test]
fn features_are_placed_when_there_is_room() {
    let w = 2048;
    let h = 120;
    let (t, bands, islands) = generate_world(
        w,
        h,
        &flat(0, w),
        &flat(0, w),
        &flat(0, w),
        &wavy(w, 9),
        &wavy(w, 10),
        &wavy(w * h, 11),
        &wavy(w * h, 12),
    );
    // both sides clear the spawn keep-away with minimum-width room
    assert!(bands >= 2);
    // every surface row is 42, deep enough for island footprints
    assert!(islands >= 1);
    // the cavern walkers really carved below the guaranteed solid band
    let mut deep_air = false;
    for x in 0..w {
        for y in t.height_map[x] + MIN_CAVE_DEPTH..h {
            if t.get_tile(x, y).kind == TileKind::Air {
                deep_air = true;
            }
        }
    }
    assert!(deep_air);
}
