//! The whole engine state and its per-frame steps, bundled so that the
//! frame invariant — grid well-formedness, pool exclusivity, the
//! streaming synchronization, and the agreement between tile visibility
//! flags and the visible-tile set — is established once and preserved by
//! every operation.  A host only performs the returned draw commands and
//! feeds camera, cursor and clock values back in.

use vstd::prelude::*;

use crate::grid::{same_dims, Terrain};
use crate::rect::{compute_active_rect, spec_active_rect, ActiveRect};
use crate::stream::{
    covered, flat_idx, lemma_mutation_synced, queued, redraw_changed_tiles, stream_tiles, synced,
    DrawCmd, SpriteStore,
};
use crate::tile::{is_solid_kind, TileKind};
use crate::visibility::{open_around, recompute_fov, within_surface_band, PlayerTile, VisibleTiles};
use crate::grid::dist2;

verus! {

/// The engine state: the tile grid, the drawable pool, the last-streamed
/// rectangle, the visible-tile set with its reusable scratch buffer, and
/// the viewer's tile.
pub struct World {
    pub terrain: Terrain,
    pub store: SpriteStore,
    pub last_rect: Option<ActiveRect>,
    pub vis: VisibleTiles,
    pub scratch: VisibleTiles,
    pub player: PlayerTile,
}

impl World {
    /// The frame invariant, preserved by every step.
    pub open spec fn inv(self) -> bool {
        &&& self.terrain.wf()
        &&& self.store.wf(self.terrain.width * self.terrain.height)
        &&& match self.last_rect {
            Option::Some(r) => r.wf(self.terrain.width as int, self.terrain.height as int),
            Option::None => true,
        }
        &&& synced(self.terrain, self.store, self.last_rect)
        &&& self.vis.wf()
        &&& self.vis.width == self.terrain.width
        &&& self.vis.height == self.terrain.height
        &&& self.scratch.wf()
        &&& self.scratch.width == self.terrain.width
        &&& self.scratch.height == self.terrain.height
        &&& forall|i: int, j: int|
            self.terrain.in_bounds(i, j) ==> (#[trigger] self.terrain.tile_at(i, j)).visible
                == self.vis.marked(i, j)
        &&& forall|i: int, j: int|
            self.terrain.in_bounds(i, j) && self.vis.marked(i, j)
                ==> (#[trigger] self.terrain.tile_at(i, j)).explored
    }

    /// Wrap a freshly generated grid: nothing streamed, nothing visible,
    /// the viewer's tile not yet meaningful.
    pub fn new_world(t: Terrain) -> (w: World)
        requires
            t.wf(),
            forall|i: int, j: int|
                t.in_bounds(i, j) ==> !(#[trigger] t.tile_at(i, j)).visible,
        ensures
            w.inv(),
            w.terrain == t,
            w.last_rect is None,
            forall|m: int| 0 <= m < t.width * t.height ==> !w.store.live(m),
            w.store.free@.len() == 0,
            w.store.next_handle == 0,
            w.vis.coords@.len() == 0,
    {
        proof {
            assert(t.width * t.height <= 32768 * 32768) by (nonlinear_arith)
                requires t.width <= 32768 && t.height <= 32768;
        }
        let n: usize = t.width * t.height;
        let store = SpriteStore::new_store(n);
        let vis = VisibleTiles::new(t.width, t.height);
        let scratch = VisibleTiles::new(t.width, t.height);
        let w = World {
            terrain: t,
            store,
            last_rect: None,
            vis,
            scratch,
            player: PlayerTile { x: 0, y: 0 },
        };
        w
    }

    /// Collision query for the external physics system: out-of-bounds
    /// tiles are solid.
    pub fn is_solid(&self, x: i32, y: i32) -> (r: bool)
        requires
            self.inv(),
        ensures
            r == self.terrain.spec_solid(x as int, y as int),
    {
        crate::grid::solid(&self.terrain, x, y)
    }

    /// Frame step: derive the active rectangle from the camera tile and
    /// padding, and reconcile the drawable set against it by stripe
    /// differencing (a no-op when the rectangle is unchanged).
    pub fn update_camera(
        &mut self,
        px: i32,
        py: i32,
        pad_x: i32,
        pad_y: i32,
        cmds: &mut Vec<DrawCmd>,
    )
        requires
            old(self).inv(),
            0 <= pad_x <= 100000,
            0 <= pad_y <= 100000,
            -1000000 <= px <= 1000000,
            -1000000 <= py <= 1000000,
        ensures
            final(self).inv(),
            final(self).terrain == old(self).terrain,
            final(self).vis == old(self).vis,
            final(self).player == old(self).player,
            final(self).last_rect == Some(
                spec_active_rect(
                    px as int,
                    py as int,
                    pad_x as int,
                    pad_y as int,
                    old(self).terrain.width as int,
                    old(self).terrain.height as int,
                ),
            ),
            old(cmds)@.is_prefix_of(final(cmds)@),
            old(self).last_rect == final(self).last_rect ==> *final(self) == *old(self)
                && final(cmds)@ == old(cmds)@,
            old(self).last_rect matches Some(prev) ==> forall|i: int, j: int|
                #![trigger flat_idx(old(self).terrain, i, j)]
                old(self).terrain.in_bounds(i, j) && prev.contains(i, j) && spec_active_rect(
                    px as int,
                    py as int,
                    pad_x as int,
                    pad_y as int,
                    old(self).terrain.width as int,
                    old(self).terrain.height as int,
                ).contains(i, j) ==> final(self).store.slots@[flat_idx(old(self).terrain, i, j)]
                    == old(self).store.slots@[flat_idx(old(self).terrain, i, j)],
    {
        let r = compute_active_rect(px, py, pad_x, pad_y, self.terrain.width, self.terrain.height);
        stream_tiles(&self.terrain, &mut self.store, &mut self.last_rect, r, cmds);
    }

    /// Frame step: record the viewer's tile, reporting whether it changed;
    /// visibility needs recomputing only when it did.
    pub fn move_player(&mut self, tx: i32, ty: i32) -> (changed: bool)
        requires
            old(self).inv(),
        ensures
            final(self).inv(),
            final(self).player.x == tx,
            final(self).player.y == ty,
            changed == !(old(self).player.x == tx && old(self).player.y == ty),
            final(self).terrain == old(self).terrain,
            final(self).store == old(self).store,
            final(self).vis == old(self).vis,
            final(self).scratch == old(self).scratch,
            final(self).last_rect == old(self).last_rect,
    {
        self.player.update(tx, ty)
    }

    /// Frame step: recompute the field of view around the viewer's tile.
    /// Skipped silently when nothing has been streamed yet.  Afterwards
    /// every visible tile lies in the active rectangle and within the
    /// bled radius or the surface band; every explored cell stays
    /// explored, forever.
    pub fn refresh_fov(&mut self, radius: i32)
        requires
            old(self).inv(),
            1 <= radius <= 1024,
            -2000000 <= old(self).player.x <= 2000000,
            -2000000 <= old(self).player.y <= 2000000,
        ensures
            final(self).inv(),
            final(self).last_rect == old(self).last_rect,
            final(self).player == old(self).player,
            same_dims(old(self).terrain, final(self).terrain),
            forall|i: int, j: int|
                old(self).terrain.in_bounds(i, j) && (#[trigger] old(self).terrain.tile_at(
                    i,
                    j,
                )).explored ==> final(self).terrain.tile_at(i, j).explored,
            forall|i: int, j: int|
                old(self).terrain.in_bounds(i, j) ==> (#[trigger] final(self).terrain.tile_at(
                    i,
                    j,
                )).kind == old(self).terrain.tile_at(i, j).kind,
            old(self).last_rect matches Some(r) ==> forall|a: int, b: int|
                #![trigger final(self).vis.marked(a, b)]
                final(self).vis.marked(a, b) ==> r.contains(a, b) && (dist2(
                    a,
                    b,
                    old(self).player.x as int,
                    old(self).player.y as int,
                ) <= (radius + 3) * (radius + 3) || within_surface_band(old(self).terrain, a, b)),
            old(self).last_rect matches Some(r) ==> (r.contains(
                old(self).player.x as int,
                old(self).player.y as int,
            ) ==> final(self).vis.marked(old(self).player.x as int, old(self).player.y as int)),
            old(self).last_rect matches Some(r) ==> forall|a: int, b: int|
                #![trigger final(self).vis.marked(a, b)]
                old(self).terrain.in_bounds(a, b) && r.contains(a, b) && within_surface_band(
                    old(self).terrain,
                    a,
                    b,
                ) ==> final(self).vis.marked(a, b),
            old(self).last_rect matches Some(r) ==> open_around(
                old(self).terrain,
                old(self).player.x as int,
                old(self).player.y as int,
                radius as int,
            ) ==> forall|a: int, b: int|
                #![trigger final(self).vis.marked(a, b)]
                old(self).terrain.in_bounds(a, b) && r.contains(a, b) && dist2(
                    a,
                    b,
                    old(self).player.x as int,
                    old(self).player.y as int,
                ) <= radius * radius ==> final(self).vis.marked(a, b),
    {
        let r = match self.last_rect {
            Option::Some(r) => r,
            Option::None => {
                return ;
            },
        };
        let ghost pre = *self;
        recompute_fov(
            &mut self.terrain,
            &mut self.vis,
            &mut self.scratch,
            r,
            self.player.x,
            self.player.y,
            radius,
        );
        proof {
            lemma_mutation_synced(pre.terrain, self.terrain, self.store, self.last_rect);
        }
    }

    /// Frame step: drain the mutation queue, retinting, materializing or
    /// recycling the drawable of each queued cell.
    pub fn redraw(&mut self, cmds: &mut Vec<DrawCmd>)
        requires
            old(self).inv(),
        ensures
            final(self).inv(),
            final(self).terrain.changed_tiles@.len() == 0,
            final(self).terrain.tiles@ == old(self).terrain.tiles@,
            same_dims(old(self).terrain, final(self).terrain),
            final(self).last_rect == old(self).last_rect,
            final(self).vis == old(self).vis,
            final(self).player == old(self).player,
            old(cmds)@.is_prefix_of(final(cmds)@),
    {
        let ghost pre = *self;
        redraw_changed_tiles(&mut self.terrain, &mut self.store, self.last_rect, cmds);
        proof {
            assert forall|i: int, j: int|
                self.terrain.in_bounds(i, j) implies (#[trigger] self.terrain.tile_at(i, j)).visible
                == self.vis.marked(i, j) && (self.vis.marked(i, j)
                ==> self.terrain.tile_at(i, j).explored) by {
                assert(self.terrain.tile_at(i, j) == pre.terrain.tile_at(i, j));
            }
        }
    }

    /// Gameplay step: apply mining work to one tile; when it breaks, its
    /// kind flips to `Air` and its coordinate is queued exactly once.
    pub fn mine(&mut self, x: usize, y: usize, amount: u32) -> (broke: bool)
        requires
            old(self).inv(),
            x < old(self).terrain.width,
            y < old(self).terrain.height,
            1 <= amount,
        ensures
            final(self).inv(),
            same_dims(old(self).terrain, final(self).terrain),
            final(self).last_rect == old(self).last_rect,
            final(self).vis == old(self).vis,
            final(self).store == old(self).store,
            broke == (is_solid_kind(old(self).terrain.kind_at(x as int, y as int)) && old(
                self,
            ).terrain.tile_at(x as int, y as int).mine_time <= amount),
            broke ==> final(self).terrain.kind_at(x as int, y as int) == TileKind::Air
                && final(self).terrain.changed_tiles@ == old(self).terrain.changed_tiles@.push(
                (x, y),
            ),
            !broke ==> final(self).terrain.changed_tiles@ == old(self).terrain.changed_tiles@,
            forall|i: int, j: int|
                old(self).terrain.in_bounds(i, j) && !(i == x && j == y)
                    ==> #[trigger] final(self).terrain.tile_at(i, j) == old(self).terrain.tile_at(
                    i,
                    j,
                ),
    {
        let ghost pre = *self;
        let broke = self.terrain.mine_tile(x, y, amount);
        proof {
            if broke {
                assert(queued(self.terrain, x as int, y as int)) by {
                    let kk = self.terrain.changed_tiles@.len() - 1;
                    assert(self.terrain.changed_tiles@[kk] == (x, y));
                }
            }
            lemma_mutation_synced(pre.terrain, self.terrain, self.store, self.last_rect);
        }
        broke
    }

    /// Gameplay step: dig every solid tile within Euclidean distance `r`
    /// of `(cx, cy)` open, queueing each exactly once.
    pub fn dig(&mut self, cx: i32, cy: i32, r: i32)
        requires
            old(self).inv(),
            0 <= r <= 1024,
            -2000000 <= cx <= 2000000,
            -2000000 <= cy <= 2000000,
        ensures
            final(self).inv(),
            same_dims(old(self).terrain, final(self).terrain),
            final(self).last_rect == old(self).last_rect,
            final(self).vis == old(self).vis,
            final(self).store == old(self).store,
            forall|i: int, j: int|
                old(self).terrain.in_dig_region(cx as int, cy as int, r as int, i, j)
                    ==> #[trigger] final(self).terrain.kind_at(i, j) == TileKind::Air,
            forall|i: int, j: int|
                old(self).terrain.in_bounds(i, j) && !old(self).terrain.in_dig_region(
                    cx as int,
                    cy as int,
                    r as int,
                    i,
                    j,
                ) ==> #[trigger] final(self).terrain.tile_at(i, j) == old(self).terrain.tile_at(
                    i,
                    j,
                ),
    {
        let ghost pre = *self;
        self.terrain.dig_disc(cx, cy, r);
        proof {
            assert forall|i: int, j: int|
                self.terrain.in_bounds(i, j) && !queued(self.terrain, i, j)
                    implies #[trigger] self.terrain.kind_at(i, j) == pre.terrain.kind_at(i, j) by {
                if pre.terrain.in_dig_region(cx as int, cy as int, r as int, i, j) {
                    let kk = choose|kk: int|
                        pre.terrain.changed_tiles@.len() <= kk < self.terrain.changed_tiles@.len()
                            && #[trigger] self.terrain.changed_tiles@[kk] == (
                        (i as usize),
                        (j as usize),
                        );
                    assert(queued(self.terrain, i, j));
                }
            }
            lemma_mutation_synced(pre.terrain, self.terrain, self.store, self.last_rect);
        }
    }

    /// Whether a block could be placed at `(x, y)`: an `Air` or `Sky`
    /// cell with at least one solid neighbour.  Used for cursor feedback.
    pub fn can_place(&self, x: i32, y: i32) -> (r: bool)
        requires
            self.inv(),
        ensures
            r == self.terrain.can_place_spec(x as int, y as int),
    {
        self.terrain.can_place(x, y)
    }

    /// Gameplay step: place a `Stone` block at `(x, y)` if allowed,
    /// queueing the coordinate; reports whether a block was placed.
    pub fn place(&mut self, x: i32, y: i32) -> (placed: bool)
        requires
            old(self).inv(),
        ensures
            final(self).inv(),
            same_dims(old(self).terrain, final(self).terrain),
            final(self).last_rect == old(self).last_rect,
            final(self).vis == old(self).vis,
            final(self).store == old(self).store,
            placed == old(self).terrain.can_place_spec(x as int, y as int),
            placed ==> final(self).terrain.kind_at(x as int, y as int) == TileKind::Stone,
            !placed ==> final(self).terrain == old(self).terrain,
    {
        let ghost pre = *self;
        let placed = self.terrain.place_stone(x, y);
        proof {
            if placed {
                assert(queued(self.terrain, x as int, y as int)) by {
                    let kk = self.terrain.changed_tiles@.len() - 1;
                    assert(self.terrain.changed_tiles@[kk] == ((x as usize), (y as usize)));
                }
            }
            lemma_mutation_synced(pre.terrain, self.terrain, self.store, self.last_rect);
        }
        placed
    }
}

} // verus!
