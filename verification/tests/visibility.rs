//! Visibility: shadowcasting scenarios, the radius bound, symmetry on
//! hand-built fixtures, explored monotonicity, and the recompute guard.

use tileworld::grid::Terrain;
use tileworld::rect::ActiveRect;
use tileworld::stream::DrawCmd;
use tileworld::tile::TileKind;
use tileworld::visibility::{shadowcast, VisibleTiles, ALWAYS_VISIBLE_DEPTH};
use tileworld::world::World;

fn full_rect(w: usize, h: usize) -> ActiveRect {
    ActiveRect { min_x: 0, max_x: w as i32 - 1, min_y: 0, max_y: h as i32 - 1 }
}

fn open_grid(w: usize, h: usize) -> Terrain {
    let mut t = Terrain::new_uniform(w, h, TileKind::Air, 0);
    t.changed_tiles.clear();
    t
}

fn cast_from(t: &Terrain, px: i32, py: i32, radius: i32) -> VisibleTiles {
    let mut out = VisibleTiles::new(t.width, t.height);
    shadowcast(t, &mut out, full_rect(t.width, t.height), px, py, radius);
    out
}

/// A flat open 64x1 row seen from x = 32 lights exactly
/// the tiles within the radius, with no gaps.
#[test]
fn open_row_is_lit_contiguously() {
    let t = open_grid(64, 1);
    let r = 8;
    let out = cast_from(&t, 32, 0, r);
    for x in 0..64i32 {
        let expect = (32 - r..=32 + r).contains(&x);
        assert_eq!(out.contains(x, 0), expect, "column {}", x);
    }
}

/// A single solid tile five tiles below the viewer fully
/// shadows the tiles strictly behind it on the same line, while tiles
/// off to the side stay lit.
#[test]
fn single_wall_casts_a_shadow() {
    let mut t = open_grid(17, 17);
    t.set_tile_kind(8, 8, TileKind::Stone);
    let out = cast_from(&t, 8, 3, 12);
    // the occluder itself is visible
    assert!(out.contains(8, 8));
    // strictly behind it on the same line: shadowed
    assert!(!out.contains(8, 9));
    assert!(!out.contains(8, 10));
    assert!(!out.contains(8, 12));
    // off to the side on the same rows: still lit
    assert!(out.contains(5, 9));
    assert!(out.contains(11, 9));
    assert!(out.contains(4, 12));
}

/// Every tile the shadowcast pass lights is within the squared
/// radius of the viewer.
#[test]
fn radius_bound_holds_in_open_terrain() {
    let t = open_grid(41, 41);
    let r = 9;
    let out = cast_from(&t, 20, 20, r);
    for x in 0..41i32 {
        for y in 0..41i32 {
            if out.contains(x, y) {
                let dx = x - 20;
                let dy = y - 20;
                assert!(dx * dx + dy * dy <= r * r, "({}, {}) beyond radius", x, y);
            }
        }
    }
    // and the disc is full: open terrain hides nothing within range
    for x in 0..41i32 {
        for y in 0..41i32 {
            let dx = x - 20;
            let dy = y - 20;
            if dx * dx + dy * dy <= r * r {
                assert!(out.contains(x, y), "({}, {}) missing", x, y);
            }
        }
    }
}

/// On fixtures with a single wall, visibility is reciprocal — if B
/// is lit from A then A is lit from B, whether the pair is in the open
/// or separated by the wall.
#[test]
fn shadowcasting_is_symmetric_on_wall_fixtures() {
    let mut t = open_grid(21, 21);
    for y in 5..=15 {
        t.set_tile_kind(10, y, TileKind::Stone);
    }
    let pairs = [
        ((5, 10), (15, 10)), // blocked by the wall
        ((5, 10), (5, 14)),  // open, same side
        ((4, 4), (12, 6)),   // crosses the wall diagonally
        ((3, 10), (9, 10)),  // open, wall-adjacent
        ((5, 3), (15, 3)),   // open, above the wall
    ];
    for &((ax, ay), (bx, by)) in pairs.iter() {
        let from_a = cast_from(&t, ax, ay, 14).contains(bx, by);
        let from_b = cast_from(&t, bx, by, 14).contains(ax, ay);
        assert_eq!(
            from_a, from_b,
            "asymmetric between ({}, {}) and ({}, {})",
            ax, ay, bx, by
        );
    }
}

fn fov_world(w: usize, h: usize, surface: usize) -> World {
    let mut t = Terrain::new_uniform(w, h, TileKind::Air, surface);
    for x in 0..w {
        for y in 0..surface {
            t.set_tile_kind(x, y, TileKind::Sky);
        }
        t.set_tile_kind(x, surface, TileKind::Grass);
        for y in surface + 1..h {
            t.set_tile_kind(x, y, TileKind::Stone);
        }
    }
    t.changed_tiles.clear();
    World::new_world(t)
}

/// Once a cell is explored, no sequence of visibility recomputations
/// clears it again; and the visible flags always mirror the current set.
#[test]
fn explored_is_monotonic_across_recomputations() {
    let mut w = fov_world(48, 32, 8);
    let mut cmds: Vec<DrawCmd> = Vec::new();
    let mut explored_before: Vec<bool> = vec![false; 48 * 32];
    let stops = [(10, 10), (30, 24), (5, 28), (40, 9), (12, 20)];
    for &(px, py) in stops.iter() {
        w.update_camera(px, py, 8, 8, &mut cmds);
        w.move_player(px, py);
        w.refresh_fov(6);
        w.redraw(&mut cmds);
        for i in 0..48 * 32 {
            if explored_before[i] {
                assert!(w.terrain.tiles[i].explored, "explored reverted at {}", i);
            }
            explored_before[i] = w.terrain.tiles[i].explored;
        }
        for x in 0..48 {
            for y in 0..32 {
                let tile = w.terrain.tiles[y * 48 + x];
                assert_eq!(tile.visible, w.vis.contains(x as i32, y as i32));
                if tile.visible {
                    assert!(tile.explored);
                }
            }
        }
    }
}

/// The visible set stays inside the active window, and within the bled
/// radius unless the cell sits in the always-lit surface band.
#[test]
fn visible_set_is_window_and_radius_bounded() {
    let mut w = fov_world(64, 48, 10);
    let mut cmds: Vec<DrawCmd> = Vec::new();
    w.update_camera(32, 30, 10, 10, &mut cmds);
    w.move_player(32, 30);
    w.refresh_fov(7);
    let n = w.vis.len();
    assert!(n > 0);
    for k in 0..n {
        let (x, y) = w.vis.coord(k);
        assert!((22..=42).contains(&(x as i32)));
        assert!((20..=40).contains(&(y as i32)));
        let dx = x as i32 - 32;
        let dy = y as i32 - 30;
        let in_radius = dx * dx + dy * dy <= 10 * 10;
        let in_band = y <= w.terrain.height_map[x] + ALWAYS_VISIBLE_DEPTH;
        assert!(in_radius || in_band, "({}, {}) out of bounds", x, y);
    }
}

/// A viewer standing still triggers no recomputation after the first
/// frame — the change check reports nothing to do.
#[test]
fn standing_still_skips_recomputation() {
    let mut w = fov_world(32, 32, 8);
    let mut cmds: Vec<DrawCmd> = Vec::new();
    w.update_camera(16, 16, 6, 6, &mut cmds);
    assert!(w.move_player(16, 16));
    w.refresh_fov(6);
    let marked_before = w.vis.len();
    for _ in 0..10 {
        // sub-tile movement maps to the same tile: nothing to recompute
        assert!(!w.move_player(16, 16));
    }
    assert_eq!(w.vis.len(), marked_before);
}

/// The diff between consecutive sets is queued for redraw: dropped tiles
/// go dark, newly lit tiles become visible and explored.
#[test]
fn recompute_diffs_into_the_mutation_queue() {
    let mut w = fov_world(64, 32, 6);
    let mut cmds: Vec<DrawCmd> = Vec::new();
    w.update_camera(20, 20, 10, 10, &mut cmds);
    w.move_player(20, 20);
    w.refresh_fov(5);
    w.redraw(&mut cmds);
    assert!(w.terrain.tiles[20 * 64 + 20].visible);
    w.move_player(26, 20);
    w.refresh_fov(5);
    // every queued coordinate is one whose membership changed
    assert!(!w.terrain.changed_tiles.is_empty());
    w.redraw(&mut cmds);
    assert!(w.terrain.tiles[20 * 64 + 26].visible);
    // the old viewer tile is out of range now (distance 6 > radius 5)
    // and lies below the surface band, so it went dark but stays explored
    let old_tile = w.terrain.tiles[20 * 64 + 20];
    assert!(!old_tile.visible);
    assert!(old_tile.explored);
}

#[test]
fn visible_tiles_set_insert_contains_clear() {
    let mut v = VisibleTiles::new(16, 16);
    assert!(!v.contains(3, 4));
    v.insert(3, 4);
    v.insert(3, 4);
    v.insert(0, 0);
    assert!(v.contains(3, 4));
    assert!(v.contains(0, 0));
    assert!(!v.contains(4, 3));
    assert!(!v.contains(-1, 0));
    assert_eq!(v.len(), 2);
    v.clear();
    assert_eq!(v.len(), 0);
    assert!(!v.contains(3, 4));
}

/// The fixed-depth band under the surface stays lit across the active
/// window regardless of line of sight — the overworld needs no torch.
#[test]
fn surface_band_is_always_lit_across_the_window() {
    let mut w = fov_world(96, 64, 10);
    let mut cmds: Vec<DrawCmd> = Vec::new();
    w.update_camera(80, 40, 30, 30, &mut cmds);
    w.move_player(80, 40);
    w.refresh_fov(6);
    // far from the viewer but inside the window: rows down to
    // surface + ALWAYS_VISIBLE_DEPTH are lit, the row below is not
    for x in [55i32, 60, 70, 95] {
        assert!(w.vis.contains(x, 10));
        assert!(w.vis.contains(x, 10 + ALWAYS_VISIBLE_DEPTH as i32));
        assert!(!w.vis.contains(x, 11 + ALWAYS_VISIBLE_DEPTH as i32));
    }
}
