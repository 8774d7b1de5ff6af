//! Streaming: active-rectangle clamping, stripe differencing against a
//! naive re-scan, pool exclusivity, and pan-cost accounting.

use tileworld::gen::{fill_columns, synth_height_map};
use tileworld::grid::Terrain;
use tileworld::rect::{compute_active_rect, ActiveRect};
use tileworld::stream::DrawCmd;
use tileworld::tile::TileKind;
use tileworld::world::World;

fn small_world(w: usize, h: usize) -> World {
    let hills = vec![0i16; w];
    let cliffs = vec![0i16; w];
    let hm = synth_height_map(w, h, &hills, &cliffs);
    let rift = vec![0i16; w];
    let color = vec![0i16; w * h];
    let t = fill_columns(w, h, hm, &rift, &color);
    World::new_world(t)
}

fn live_cells(w: &World) -> Vec<(usize, usize)> {
    let mut v = Vec::new();
    for y in 0..w.terrain.height {
        for x in 0..w.terrain.width {
            if w.store.slots[y * w.terrain.width + x].is_some() {
                v.push((x, y));
            }
        }
    }
    v
}

/// The set a naive full re-scan of the rectangle would produce.
fn naive_scan(w: &World, r: &ActiveRect) -> Vec<(usize, usize)> {
    let mut v = Vec::new();
    for y in 0..w.terrain.height {
        for x in 0..w.terrain.width {
            let inside = (r.min_x..=r.max_x).contains(&(x as i32))
                && (r.min_y..=r.max_y).contains(&(y as i32));
            if inside && w.terrain.tiles[y * w.terrain.width + x].kind != TileKind::Sky {
                v.push((x, y));
            }
        }
    }
    v
}

#[test]
fn active_rect_is_clamped_to_the_grid() {
    let r = compute_active_rect(5, 5, 10, 10, 64, 32);
    assert_eq!((r.min_x, r.max_x, r.min_y, r.max_y), (0, 15, 0, 15));
    let r2 = compute_active_rect(60, 30, 10, 4, 64, 32);
    assert_eq!((r2.min_x, r2.max_x, r2.min_y, r2.max_y), (50, 63, 26, 31));
}

/// Over any sequence of rectangle transitions, the live-drawable set
/// after stripe differencing equals the naive from-scratch scan.
#[test]
fn stripe_diff_matches_naive_rescan() {
    let mut w = small_world(48, 40);
    let mut cmds: Vec<DrawCmd> = Vec::new();
    let moves = [
        (10, 10),
        (12, 10),
        (12, 14),
        (30, 30),
        (29, 29),
        (5, 35),
        (5, 35),
        (40, 8),
    ];
    for &(px, py) in moves.iter() {
        w.update_camera(px, py, 6, 5, &mut cmds);
        let r = compute_active_rect(px, py, 6, 5, 48, 40);
        let live = live_cells(&w);
        let naive = naive_scan(&w, &r);
        assert_eq!(live, naive);
    }
}

/// A handle is owned by at most one cell, and pooled handles are
/// owned by none; every handle ever created is accounted for.
#[test]
fn pool_exclusivity_is_maintained() {
    let mut w = small_world(40, 40);
    let mut cmds: Vec<DrawCmd> = Vec::new();
    let moves = [(8, 8), (30, 30), (8, 30), (30, 8), (20, 20)];
    for &(px, py) in moves.iter() {
        w.update_camera(px, py, 5, 5, &mut cmds);
        let mut owned: Vec<u64> = live_cells(&w)
            .iter()
            .map(|&(x, y)| w.store.slots[y * w.terrain.width + x].unwrap())
            .collect();
        let mut pooled = w.store.free.clone();
        let total = owned.len() + pooled.len();
        assert_eq!(total as u64, w.store.next_handle);
        owned.append(&mut pooled);
        owned.sort();
        owned.dedup();
        // no handle twice, whether owned or pooled
        assert_eq!(owned.len(), total);
    }
}

/// Panning one tile per frame across a corridor issues
/// exactly one entering stripe of materialize commands per frame, never
/// a full-window re-scan; leaving stripes are hidden, not destroyed.
#[test]
fn pan_cost_is_one_stripe_per_frame() {
    // all-dirt world: every cell of the window gets a drawable
    let t = Terrain::new_uniform(64, 16, TileKind::Dirt, 1);
    let mut w = World::new_world(t);
    let mut cmds: Vec<DrawCmd> = Vec::new();
    w.update_camera(8, 8, 3, 3, &mut cmds);
    // first populate: the full 7x7 window
    let makes = cmds
        .iter()
        .filter(|c| matches!(c, DrawCmd::Create { .. } | DrawCmd::Update { .. }))
        .count();
    assert_eq!(makes, 49);
    let mut total_new = 0;
    for k in 0..5 {
        let before = cmds.len();
        w.update_camera(9 + k, 8, 3, 3, &mut cmds);
        let frame: Vec<_> = cmds[before..].to_vec();
        let makes = frame
            .iter()
            .filter(|c| matches!(c, DrawCmd::Create { .. } | DrawCmd::Update { .. }))
            .count();
        let hides = frame
            .iter()
            .filter(|c| matches!(c, DrawCmd::Hide { .. }))
            .count();
        // exactly the newly entered column, and the column that left
        assert_eq!(makes, 7);
        assert_eq!(hides, 7);
        total_new += makes;
    }
    assert_eq!(total_new, 35);
    // pooling: the first pan has an empty pool (entering stripes are
    // filled before leaving ones are recycled), every later pan reuses
    // the handles the previous frame freed
    let creates = cmds
        .iter()
        .filter(|c| matches!(c, DrawCmd::Create { .. }))
        .count();
    assert_eq!(creates as u64, w.store.next_handle);
    assert_eq!(creates, 49 + 7);
}

/// An unchanged rectangle is a no-op frame.
#[test]
fn unchanged_rect_issues_no_commands() {
    let mut w = small_world(32, 32);
    let mut cmds: Vec<DrawCmd> = Vec::new();
    w.update_camera(16, 16, 4, 4, &mut cmds);
    let n = cmds.len();
    w.update_camera(16, 16, 4, 4, &mut cmds);
    assert_eq!(cmds.len(), n);
}

/// Mining a stone tile flips it to air, queues the
/// coordinate exactly once, and redraw re-parameterizes its drawable in
/// place — the handle is reused, never destroyed.
#[test]
fn mining_then_redraw_updates_in_place() {
    let t = Terrain::new_uniform(32, 32, TileKind::Stone, 1);
    let mut w = World::new_world(t);
    let mut cmds: Vec<DrawCmd> = Vec::new();
    w.update_camera(16, 16, 6, 6, &mut cmds);
    let idx = 16 * 32 + 16;
    let handle = w.store.slots[idx].unwrap();
    assert!(w.mine(16, 16, 50));
    assert_eq!(w.terrain.changed_tiles, vec![(16, 16)]);
    assert_eq!(w.terrain.tiles[idx].kind, TileKind::Air);
    let before = cmds.len();
    w.redraw(&mut cmds);
    assert_eq!(w.terrain.changed_tiles.len(), 0);
    // the same handle, retinted as cave background; not hidden, not new
    assert_eq!(w.store.slots[idx], Some(handle));
    let frame: Vec<_> = cmds[before..].to_vec();
    assert_eq!(frame.len(), 1);
    match frame[0] {
        DrawCmd::Update { handle: h, x, y, layer, .. } => {
            assert_eq!(h, handle);
            assert_eq!((x, y), (16, 16));
            assert_eq!(layer, -1);
        }
        _ => panic!("expected an update of the existing drawable"),
    }
}

/// A queued cell that has left the window is recycled on redraw.
#[test]
fn redraw_recycles_cells_outside_the_window() {
    let t = Terrain::new_uniform(64, 16, TileKind::Stone, 1);
    let mut w = World::new_world(t);
    let mut cmds: Vec<DrawCmd> = Vec::new();
    w.update_camera(8, 8, 3, 3, &mut cmds);
    assert!(w.mine(8, 8, 50));
    // the window moves away before the redraw drains the queue
    w.update_camera(50, 8, 3, 3, &mut cmds);
    let before = cmds.len();
    w.redraw(&mut cmds);
    assert_eq!(w.terrain.changed_tiles.len(), 0);
    assert!(w.store.slots[8 * 64 + 8].is_none());
    // nothing to draw: the cell is out of range (its drawable was already
    // recycled by the leaving stripe), so redraw issues nothing for it
    assert_eq!(cmds.len(), before);
}

/// The collision query treats out-of-bounds coordinates as solid.
#[test]
fn solidity_query_with_boundary_convention() {
    let t = Terrain::new_uniform(8, 8, TileKind::Air, 1);
    let mut w = World::new_world(t);
    assert!(!w.is_solid(4, 4));
    assert!(w.is_solid(-1, 4));
    assert!(w.is_solid(4, -1));
    assert!(w.is_solid(8, 4));
    assert!(w.is_solid(4, 8));
    // placing against the boundary is allowed: the out-of-bounds
    // neighbour counts as solid
    assert!(w.place(4, 0));
    assert!(w.is_solid(4, 0));
}
