//! Streaming window manager and drawable pool.
//!
//! The grid owns one optional drawable handle per cell.  Handles that
//! scroll out of the active rectangle are never destroyed: they are hidden
//! and pushed onto a free pool, and reused for cells that scroll in.
//! Reconciliation against the previous rectangle is done by stripe
//! differencing, so a frame's work is proportional to the perimeter of the
//! change rather than the window area.
//!
//! The library does not draw; it emits `DrawCmd` values that the host
//! render system applies.

use vstd::prelude::*;

use crate::grid::{lemma_idx_bounds, lemma_idx_injective, Terrain};
use crate::rect::ActiveRect;
use crate::tile::{is_drawable_kind, layer_of, lit_rgb, tile_color, tile_layer, Rgb, TileKind};

verus! {

/// A drawing instruction for the host render system.  Handles identify
/// drawables; the host creates one on `Create` and thereafter only
/// re-parameterizes (`Update`) or hides (`Hide`) it.
#[derive(Clone, Copy, PartialEq, Eq, Structural, Debug)]
pub enum DrawCmd {
    Create { handle: u64, x: usize, y: usize, color: Rgb, layer: i32 },
    Update { handle: u64, x: usize, y: usize, color: Rgb, layer: i32 },
    Hide { handle: u64 },
}

/// Number of `Some` entries in a slot sequence.
pub open spec fn live_count(s: Seq<Option<u64>>) -> int
    decreases s.len(),
{
    if s.len() == 0 {
        0
    } else {
        live_count(s.drop_last()) + if s.last() is Some {
            1int
        } else {
            0int
        }
    }
}

/// `live_count` never exceeds the sequence length.
pub proof fn lemma_live_count_bound(s: Seq<Option<u64>>)
    ensures
        0 <= live_count(s) <= s.len(),
    decreases s.len(),
{
    if s.len() > 0 {
        lemma_live_count_bound(s.drop_last());
    }
}

/// How `live_count` changes when one entry is overwritten.
pub proof fn lemma_live_count_update(s: Seq<Option<u64>>, i: int, v: Option<u64>)
    requires
        0 <= i < s.len(),
    ensures
        live_count(s.update(i, v)) == live_count(s) + (if v is Some {
            1int
        } else {
            0int
        }) - (if s[i] is Some {
            1int
        } else {
            0int
        }),
    decreases s.len(),
{
    let s2 = s.update(i, v);
    if i == s.len() - 1 {
        assert(s2.drop_last() =~= s.drop_last());
    } else {
        assert(s2.drop_last() =~= s.drop_last().update(i, v));
        lemma_live_count_update(s.drop_last(), i, v);
    }
}

/// The drawable pool and the per-cell handle slots.
///
/// Handles are dense: every handle ever created is below `next_handle`,
/// and each one is at any time either owned by exactly one cell (a `Some`
/// slot) or parked in the free pool — never both, never twice.
pub struct SpriteStore {
    /// One optional handle per grid cell, indexed like the tile array.
    pub slots: Vec<Option<u64>>,
    /// Handles without an owning cell, available for reuse.
    pub free: Vec<u64>,
    /// Next never-used handle; also the count of handles ever created.
    pub next_handle: u64,
}

impl SpriteStore {
    /// The cell with flat index `i` currently owns a drawable.
    pub open spec fn live(self, i: int) -> bool {
        self.slots@[i] is Some
    }

    pub open spec fn handle_at(self, i: int) -> u64 {
        self.slots@[i]->Some_0
    }

    /// Pool exclusivity invariant: slots and the free pool hold handles
    /// below `next_handle`, no handle appears in two slots, in the pool
    /// twice, or both in a slot and in the pool; and handle conservation:
    /// every created handle is in exactly one of the two places.
    pub open spec fn wf(self, n: int) -> bool {
        &&& self.slots@.len() == n
        &&& forall|i: int| 0 <= i < n && self.live(i) ==> #[trigger] self.handle_at(i)
            < self.next_handle
        &&& forall|k: int| 0 <= k < self.free@.len() ==> #[trigger] self.free@[k]
            < self.next_handle
        &&& forall|i: int, j: int|
            0 <= i < n && 0 <= j < n && self.live(i) && self.live(j) && #[trigger] self.handle_at(i)
                == #[trigger] self.handle_at(j) ==> i == j
        &&& forall|i: int, k: int|
            0 <= i < n && self.live(i) && 0 <= k < self.free@.len() ==> #[trigger] self.free@[k]
                != #[trigger] self.handle_at(i)
        &&& forall|k: int, l: int|
            0 <= k < l < self.free@.len() ==> #[trigger] self.free@[k] != #[trigger] self.free@[l]
        &&& self.free@.len() + live_count(self.slots@) == self.next_handle
    }

    /// A store with no drawables at all, for a grid of `n` cells.
    pub fn new_store(n: usize) -> (s: SpriteStore)
        ensures
            s.wf(n as int),
            forall|i: int| 0 <= i < n ==> !s.live(i),
            s.free@.len() == 0,
            s.next_handle == 0,
    {
        let mut slots: Vec<Option<u64>> = Vec::new();
        let mut i: usize = 0;
        while i < n
            invariant
                i <= n,
                slots@.len() == i,
                forall|j: int| 0 <= j < i ==> (#[trigger] slots@[j]) is None,
                live_count(slots@) == 0,
            decreases n - i,
        {
            let ghost prev = slots@;
            slots.push(None);
            proof {
                assert(slots@.drop_last() =~= prev);
            }
            i = i + 1;
        }
        SpriteStore { slots, free: Vec::new(), next_handle: 0 }
    }
}

/// A cell that must have a live drawable whenever it is inside the active
/// rectangle: every kind but `Sky` is drawn.
pub open spec fn eligible(t: Terrain, x: int, y: int) -> bool {
    t.in_bounds(x, y) && is_drawable_kind(t.kind_at(x, y))
}

/// Give the cell `(x, y)` a live drawable if it is eligible and has none:
/// pop a pooled handle and re-parameterize it, or create a fresh one if
/// the pool is empty.  Cells that are out of bounds, `Sky`, or already
/// live are left untouched.
pub fn ensure_drawable(t: &Terrain, s: &mut SpriteStore, cmds: &mut Vec<DrawCmd>, x: i32, y: i32)
    requires
        t.wf(),
        old(s).wf(t.width * t.height),
    ensures
        final(s).wf(t.width * t.height),
        old(cmds)@.is_prefix_of(final(cmds)@),
        !eligible(*t, x as int, y as int) ==> *final(s) == *old(s) && final(cmds)@ == old(cmds)@,
        eligible(*t, x as int, y as int) ==> ({
            let i = y * t.width + x;
            if old(s).live(i) {
                *final(s) == *old(s) && final(cmds)@ == old(cmds)@
            } else {
                &&& final(s).live(i)
                &&& final(s).slots@ == old(s).slots@.update(i, final(s).slots@[i])
                &&& if old(s).free@.len() > 0 {
                    &&& final(s).handle_at(i) == old(s).free@.last()
                    &&& final(s).free@ == old(s).free@.drop_last()
                    &&& final(s).next_handle == old(s).next_handle
                    &&& final(cmds)@ == old(cmds)@.push(
                        DrawCmd::Update {
                            handle: final(s).handle_at(i),
                            x: x as usize,
                            y: y as usize,
                            color: lit_rgb(t.tile_at(x as int, y as int)),
                            layer: layer_of(t.kind_at(x as int, y as int)),
                        },
                    )
                } else {
                    &&& final(s).handle_at(i) == old(s).next_handle
                    &&& final(s).free@ == old(s).free@
                    &&& final(s).next_handle == old(s).next_handle + 1
                    &&& final(cmds)@ == old(cmds)@.push(
                        DrawCmd::Create {
                            handle: final(s).handle_at(i),
                            x: x as usize,
                            y: y as usize,
                            color: lit_rgb(t.tile_at(x as int, y as int)),
                            layer: layer_of(t.kind_at(x as int, y as int)),
                        },
                    )
                }
            }
        }),
        forall|m: int|
            0 <= m < t.width * t.height ==> (#[trigger] final(s).slots@[m] == old(s).slots@[m] || (
            eligible(*t, x as int, y as int) && m == y * t.width + x)),
{
    if x < 0 || y < 0 || x >= t.width as i32 || y >= t.height as i32 {
        return;
    }
    let ux = x as usize;
    let uy = y as usize;
    let tl = t.get_tile(ux, uy);
    if matches!(tl.kind, TileKind::Sky) {
        return;
    }
    let i = t.idx(ux, uy);
    proof {
        assert(s.slots@.len() == t.width * t.height);
        lemma_idx_bounds(ux as int, uy as int, t.width as int, t.height as int);
    }
    if s.slots[i].is_some() {
        return;
    }
    let color = tile_color(&tl);
    let layer = tile_layer(tl.kind);
    let ghost pre = *s;
    let h: u64;
    if s.free.len() > 0 {
        h = s.free[s.free.len() - 1];
        s.free.pop();
        cmds.push(DrawCmd::Update { handle: h, x: ux, y: uy, color, layer });
    } else {
        proof {
            lemma_live_count_bound(s.slots@);
            assert(t.width * t.height <= 32768 * 32768) by (nonlinear_arith)
                requires t.width <= 32768 && t.height <= 32768;
        }
        h = s.next_handle;
        s.next_handle = s.next_handle + 1;
        cmds.push(DrawCmd::Create { handle: h, x: ux, y: uy, color, layer });
    }
    s.slots.set(i, Some(h));
    proof {
        let n = t.width * t.height;
        lemma_live_count_update(pre.slots@, i as int, Some(h));
        assert(s.slots@ == pre.slots@.update(i as int, Some(h)));
        assert(s.handle_at(i as int) == h);
        assert forall|a: int, b: int|
            0 <= a < n && 0 <= b < n && s.live(a) && s.live(b) && #[trigger] s.handle_at(a)
                == #[trigger] s.handle_at(b) implies a == b by {
            if a != i as int && b != i as int {
                assert(pre.live(a) && pre.live(b));
                assert(pre.handle_at(a) == s.handle_at(a) && pre.handle_at(b) == s.handle_at(b));
            } else if a == i as int && b != i as int {
                assert(pre.live(b) && pre.handle_at(b) == h);
                if pre.free@.len() > 0 {
                    assert(pre.free@[pre.free@.len() - 1] == h);
                    assert(false);
                } else {
                    assert(pre.handle_at(b) < pre.next_handle);
                    assert(false);
                }
            } else if a != i as int && b == i as int {
                assert(pre.live(a) && pre.handle_at(a) == h);
                if pre.free@.len() > 0 {
                    assert(pre.free@[pre.free@.len() - 1] == h);
                    assert(false);
                } else {
                    assert(pre.handle_at(a) < pre.next_handle);
                    assert(false);
                }
            }
        }
        assert forall|a: int, k: int|
            0 <= a < n && s.live(a) && 0 <= k < s.free@.len() implies #[trigger] s.free@[k]
            != #[trigger] s.handle_at(a) by {
            assert(pre.free@.len() > 0);
            assert(s.free@ == pre.free@.drop_last());
            assert(s.free@[k] == pre.free@[k]);
            if a != i as int {
                assert(pre.live(a));
                assert(s.handle_at(a) == pre.handle_at(a));
            } else {
                assert(s.handle_at(a) == pre.free@[pre.free@.len() - 1]);
            }
        }
        assert forall|a: int| 0 <= a < n && s.live(a) implies #[trigger] s.handle_at(a)
            < s.next_handle by {
            if a != i as int {
                assert(pre.live(a));
                assert(s.handle_at(a) == pre.handle_at(a));
            }
        }
        assert forall|k: int| 0 <= k < s.free@.len() implies #[trigger] s.free@[k]
            < s.next_handle by {
            assert(s.free@[k] == pre.free@[k]);
        }
        assert forall|k: int, l: int|
            0 <= k < l < s.free@.len() implies #[trigger] s.free@[k] != #[trigger] s.free@[l] by {
            assert(s.free@[k] == pre.free@[k] && s.free@[l] == pre.free@[l]);
        }
        assert(s.free@.len() + live_count(s.slots@) == s.next_handle);
    }
}

/// Recycle the drawable of cell `(x, y)`, if it has one: hide it, park
/// its handle in the free pool, and clear the slot.
pub fn recycle_cell(t: &Terrain, s: &mut SpriteStore, cmds: &mut Vec<DrawCmd>, x: usize, y: usize)
    requires
        t.wf(),
        old(s).wf(t.width * t.height),
        x < t.width,
        y < t.height,
    ensures
        final(s).wf(t.width * t.height),
        old(cmds)@.is_prefix_of(final(cmds)@),
        ({
            let i = y * t.width + x;
            if old(s).live(i) {
                &&& !final(s).live(i)
                &&& final(s).slots@ == old(s).slots@.update(i, None)
                &&& final(s).free@ == old(s).free@.push(old(s).handle_at(i))
                &&& final(s).next_handle == old(s).next_handle
                &&& final(cmds)@ == old(cmds)@.push(
                    DrawCmd::Hide { handle: old(s).handle_at(i) },
                )
            } else {
                *final(s) == *old(s) && final(cmds)@ == old(cmds)@
            }
        }),
        forall|m: int|
            0 <= m < t.width * t.height ==> (#[trigger] final(s).slots@[m] == old(s).slots@[m] || m
                == y * t.width + x),
{
    let i = t.idx(x, y);
    proof {
        assert(s.slots@.len() == t.width * t.height);
    }
    if let Some(h) = s.slots[i] {
        let ghost pre = *s;
        s.slots.set(i, None);
        s.free.push(h);
        cmds.push(DrawCmd::Hide { handle: h });
        proof {
            let n = t.width * t.height;
            lemma_live_count_update(pre.slots@, i as int, None);
            assert(s.slots@ == pre.slots@.update(i as int, None));
            assert(s.free@ == pre.free@.push(h));
            assert(pre.live(i as int) && pre.handle_at(i as int) == h);
            assert forall|a: int, k: int|
                0 <= a < n && s.live(a) && 0 <= k < s.free@.len() implies #[trigger] s.free@[k]
                != #[trigger] s.handle_at(a) by {
                assert(a != i as int);
                assert(pre.live(a));
                assert(s.handle_at(a) == pre.handle_at(a));
                if k < pre.free@.len() {
                    assert(s.free@[k] == pre.free@[k]);
                } else {
                    assert(s.free@[k] == h);
                    assert(pre.handle_at(a) != pre.handle_at(i as int));
                }
            }
            assert forall|k: int, l: int|
                0 <= k < l < s.free@.len() implies #[trigger] s.free@[k] != #[trigger] s.free@[l] by {
                if l < pre.free@.len() {
                    assert(s.free@[k] == pre.free@[k] && s.free@[l] == pre.free@[l]);
                } else {
                    assert(s.free@[l] == h);
                    assert(s.free@[k] == pre.free@[k]);
                }
            }
            assert forall|a: int| 0 <= a < n && s.live(a) implies #[trigger] s.handle_at(a)
                < s.next_handle by {
                assert(a != i as int);
                assert(pre.live(a));
                assert(s.handle_at(a) == pre.handle_at(a));
            }
            assert forall|k: int| 0 <= k < s.free@.len() implies #[trigger] s.free@[k]
                < s.next_handle by {
                if k < pre.free@.len() {
                    assert(s.free@[k] == pre.free@[k]);
                } else {
                    assert(s.free@[k] == h);
                }
            }
            assert forall|a: int, b: int|
                0 <= a < n && 0 <= b < n && s.live(a) && s.live(b) && #[trigger] s.handle_at(a)
                    == #[trigger] s.handle_at(b) implies a == b by {
                assert(a != i as int && b != i as int);
                assert(pre.live(a) && pre.live(b));
                assert(s.handle_at(a) == pre.handle_at(a) && s.handle_at(b) == pre.handle_at(b));
            }
            assert(s.free@.len() + live_count(s.slots@) == s.next_handle);
        }
    }
}

/// Flat slot index of a cell, shared between grid and store.
pub open spec fn flat_idx(t: Terrain, x: int, y: int) -> int {
    y * t.width + x
}

/// A cell the rectangle `r` obliges to have a live drawable: inside `r`
/// and of a drawable kind.
pub open spec fn covered(t: Terrain, r: ActiveRect, x: int, y: int) -> bool {
    r.contains(x, y) && is_drawable_kind(t.kind_at(x, y))
}

/// The cell `(x, y)` awaits redraw in the grid's mutation queue.
pub open spec fn queued(t: Terrain, x: int, y: int) -> bool {
    exists|k: int|
        0 <= k < t.changed_tiles@.len() && (#[trigger] t.changed_tiles@[k]) == (
        (x as usize),
        (y as usize),
        )
}

/// The streaming invariant tying grid, store and the last-streamed
/// rectangle together.  Before the first pass no cell has a drawable.
/// Afterwards every live drawable lies inside the rectangle, and every
/// cell not awaiting redraw is live exactly when the rectangle obliges it
/// to be — cells in the mutation queue may lag until the next redraw.
pub open spec fn synced(t: Terrain, s: SpriteStore, last: Option<ActiveRect>) -> bool {
    match last {
        Option::None => forall|m: int| 0 <= m < t.width * t.height ==> !s.live(m),
        Option::Some(r) => forall|x: int, y: int|
            #![trigger flat_idx(t, x, y)]
            t.in_bounds(x, y) ==> {
                &&& (s.live(flat_idx(t, x, y)) ==> r.contains(x, y))
                &&& (!queued(t, x, y) ==> (s.live(flat_idx(t, x, y)) <==> covered(t, r, x, y)))
            },
    }
}

/// Materialize a vertical stripe: ensure a drawable for every cell of
/// column `x` with `y0 <= y <= y1`.
fn fill_col(t: &Terrain, s: &mut SpriteStore, cmds: &mut Vec<DrawCmd>, x: i32, y0: i32, y1: i32)
    requires
        t.wf(),
        old(s).wf(t.width * t.height),
        -100000 <= y0,
        y1 <= 100000,
    ensures
        final(s).wf(t.width * t.height),
        old(cmds)@.is_prefix_of(final(cmds)@),
        forall|i: int, j: int|
            #![trigger flat_idx(*t, i, j)]
            t.in_bounds(i, j) ==> final(s).live(flat_idx(*t, i, j)) == (old(s).live(
                flat_idx(*t, i, j),
            ) || (i == x && y0 <= j <= y1 && eligible(*t, i, j))),
        forall|i: int, j: int|
            #![trigger flat_idx(*t, i, j)]
            t.in_bounds(i, j) && !(i == x && y0 <= j <= y1) ==> final(s).slots@[flat_idx(*t, i, j)]
                == old(s).slots@[flat_idx(*t, i, j)],
{
    if y0 > y1 {
        return;
    }
    let ghost s0 = *s;
    let mut y: i32 = y0;
    while y <= y1
        invariant
            t.wf(),
            s.wf(t.width * t.height),
            s0.wf(t.width * t.height),
            y0 <= y <= y1 + 1,
            y1 <= 100000,
            old(cmds)@.is_prefix_of(cmds@),
            forall|i: int, j: int|
                #![trigger flat_idx(*t, i, j)]
                t.in_bounds(i, j) ==> s.live(flat_idx(*t, i, j)) == (s0.live(flat_idx(*t, i, j))
                    || (i == x && y0 <= j < y && eligible(*t, i, j))),
            forall|i: int, j: int|
                #![trigger flat_idx(*t, i, j)]
                t.in_bounds(i, j) && !(i == x && y0 <= j <= y1) ==> s.slots@[flat_idx(*t, i, j)]
                    == s0.slots@[flat_idx(*t, i, j)],
        decreases y1 + 1 - y,
    {
        let ghost spre = *s;
        ensure_drawable(t, s, cmds, x, y);
        proof {
            assert forall|i: int, j: int|
                #![trigger flat_idx(*t, i, j)]
                t.in_bounds(i, j) implies s.live(flat_idx(*t, i, j)) == (s0.live(
                flat_idx(*t, i, j),
            ) || (i == x && y0 <= j < y + 1 && eligible(*t, i, j))) by {
                lemma_idx_bounds(i, j, t.width as int, t.height as int);
                if i == x && j == y {
                    lemma_idx_bounds(i, j, t.width as int, t.height as int);
                } else {
                    if t.in_bounds(x as int, y as int) && flat_idx(*t, i, j) == flat_idx(
                        *t,
                        x as int,
                        y as int,
                    ) {
                        lemma_idx_injective(i, j, x as int, y as int, t.width as int);
                    }
                    assert(s.slots@[flat_idx(*t, i, j)] == spre.slots@[flat_idx(*t, i, j)]);
                }
            }
            assert forall|i: int, j: int|
                #![trigger flat_idx(*t, i, j)]
                t.in_bounds(i, j) && !(i == x && y0 <= j <= y1) implies s.slots@[flat_idx(*t, i, j)]
                == s0.slots@[flat_idx(*t, i, j)] by {
                lemma_idx_bounds(i, j, t.width as int, t.height as int);
                if t.in_bounds(x as int, y as int) && flat_idx(*t, i, j) == flat_idx(
                    *t,
                    x as int,
                    y as int,
                ) {
                    lemma_idx_injective(i, j, x as int, y as int, t.width as int);
                }
                assert(s.slots@[flat_idx(*t, i, j)] == spre.slots@[flat_idx(*t, i, j)]);
            }
        }
        y = y + 1;
    }
}

/// Materialize a horizontal stripe: ensure a drawable for every cell of
/// row `y` with `x0 <= x <= x1`.
fn fill_row(t: &Terrain, s: &mut SpriteStore, cmds: &mut Vec<DrawCmd>, y: i32, x0: i32, x1: i32)
    requires
        t.wf(),
        old(s).wf(t.width * t.height),
        -100000 <= x0,
        x1 <= 100000,
    ensures
        final(s).wf(t.width * t.height),
        old(cmds)@.is_prefix_of(final(cmds)@),
        forall|i: int, j: int|
            #![trigger flat_idx(*t, i, j)]
            t.in_bounds(i, j) ==> final(s).live(flat_idx(*t, i, j)) == (old(s).live(
                flat_idx(*t, i, j),
            ) || (j == y && x0 <= i <= x1 && eligible(*t, i, j))),
        forall|i: int, j: int|
            #![trigger flat_idx(*t, i, j)]
            t.in_bounds(i, j) && !(j == y && x0 <= i <= x1) ==> final(s).slots@[flat_idx(*t, i, j)]
                == old(s).slots@[flat_idx(*t, i, j)],
{
    if x0 > x1 {
        return;
    }
    let ghost s0 = *s;
    let mut x: i32 = x0;
    while x <= x1
        invariant
            t.wf(),
            s.wf(t.width * t.height),
            s0.wf(t.width * t.height),
            x0 <= x <= x1 + 1,
            x1 <= 100000,
            old(cmds)@.is_prefix_of(cmds@),
            forall|i: int, j: int|
                #![trigger flat_idx(*t, i, j)]
                t.in_bounds(i, j) ==> s.live(flat_idx(*t, i, j)) == (s0.live(flat_idx(*t, i, j))
                    || (j == y && x0 <= i < x && eligible(*t, i, j))),
            forall|i: int, j: int|
                #![trigger flat_idx(*t, i, j)]
                t.in_bounds(i, j) && !(j == y && x0 <= i <= x1) ==> s.slots@[flat_idx(*t, i, j)]
                    == s0.slots@[flat_idx(*t, i, j)],
        decreases x1 + 1 - x,
    {
        let ghost spre = *s;
        ensure_drawable(t, s, cmds, x, y);
        proof {
            assert forall|i: int, j: int|
                #![trigger flat_idx(*t, i, j)]
                t.in_bounds(i, j) implies s.live(flat_idx(*t, i, j)) == (s0.live(
                flat_idx(*t, i, j),
            ) || (j == y && x0 <= i < x + 1 && eligible(*t, i, j))) by {
                lemma_idx_bounds(i, j, t.width as int, t.height as int);
                if i == x && j == y {
                } else {
                    if t.in_bounds(x as int, y as int) && flat_idx(*t, i, j) == flat_idx(
                        *t,
                        x as int,
                        y as int,
                    ) {
                        lemma_idx_injective(i, j, x as int, y as int, t.width as int);
                    }
                    assert(s.slots@[flat_idx(*t, i, j)] == spre.slots@[flat_idx(*t, i, j)]);
                }
            }
            assert forall|i: int, j: int|
                #![trigger flat_idx(*t, i, j)]
                t.in_bounds(i, j) && !(j == y && x0 <= i <= x1) implies s.slots@[flat_idx(*t, i, j)]
                == s0.slots@[flat_idx(*t, i, j)] by {
                lemma_idx_bounds(i, j, t.width as int, t.height as int);
                if t.in_bounds(x as int, y as int) && flat_idx(*t, i, j) == flat_idx(
                    *t,
                    x as int,
                    y as int,
                ) {
                    lemma_idx_injective(i, j, x as int, y as int, t.width as int);
                }
                assert(s.slots@[flat_idx(*t, i, j)] == spre.slots@[flat_idx(*t, i, j)]);
            }
        }
        x = x + 1;
    }
}

/// Recycle a vertical stripe: pool the drawable of every cell of column
/// `x` with `y0 <= y <= y1`.
fn hide_col(t: &Terrain, s: &mut SpriteStore, cmds: &mut Vec<DrawCmd>, x: i32, y0: i32, y1: i32)
    requires
        t.wf(),
        old(s).wf(t.width * t.height),
        0 <= x < t.width,
        0 <= y0,
        y1 < t.height,
    ensures
        final(s).wf(t.width * t.height),
        old(cmds)@.is_prefix_of(final(cmds)@),
        forall|i: int, j: int|
            #![trigger flat_idx(*t, i, j)]
            t.in_bounds(i, j) ==> final(s).live(flat_idx(*t, i, j)) == (old(s).live(
                flat_idx(*t, i, j),
            ) && !(i == x && y0 <= j <= y1)),
        forall|i: int, j: int|
            #![trigger flat_idx(*t, i, j)]
            t.in_bounds(i, j) && !(i == x && y0 <= j <= y1) ==> final(s).slots@[flat_idx(*t, i, j)]
                == old(s).slots@[flat_idx(*t, i, j)],
{
    if y0 > y1 {
        return;
    }
    let ghost s0 = *s;
    let mut y: i32 = y0;
    while y <= y1
        invariant
            t.wf(),
            s.wf(t.width * t.height),
            s0.wf(t.width * t.height),
            y0 <= y <= y1 + 1,
            0 <= x < t.width,
            0 <= y0,
            y1 < t.height,
            old(cmds)@.is_prefix_of(cmds@),
            forall|i: int, j: int|
                #![trigger flat_idx(*t, i, j)]
                t.in_bounds(i, j) ==> s.live(flat_idx(*t, i, j)) == (s0.live(flat_idx(*t, i, j))
                    && !(i == x && y0 <= j < y)),
            forall|i: int, j: int|
                #![trigger flat_idx(*t, i, j)]
                t.in_bounds(i, j) && !(i == x && y0 <= j <= y1) ==> s.slots@[flat_idx(*t, i, j)]
                    == s0.slots@[flat_idx(*t, i, j)],
        decreases y1 + 1 - y,
    {
        let ghost spre = *s;
        recycle_cell(t, s, cmds, x as usize, y as usize);
        proof {
            assert forall|i: int, j: int|
                #![trigger flat_idx(*t, i, j)]
                t.in_bounds(i, j) implies s.live(flat_idx(*t, i, j)) == (s0.live(
                flat_idx(*t, i, j),
            ) && !(i == x && y0 <= j < y + 1)) by {
                lemma_idx_bounds(i, j, t.width as int, t.height as int);
                if i == x && j == y {
                    assert(!s.live(flat_idx(*t, i, j)));
                } else {
                    if flat_idx(*t, i, j) == flat_idx(*t, x as int, y as int) {
                        lemma_idx_injective(i, j, x as int, y as int, t.width as int);
                    }
                    assert(s.slots@[flat_idx(*t, i, j)] == spre.slots@[flat_idx(*t, i, j)]);
                }
            }
            assert forall|i: int, j: int|
                #![trigger flat_idx(*t, i, j)]
                t.in_bounds(i, j) && !(i == x && y0 <= j <= y1) implies s.slots@[flat_idx(*t, i, j)]
                == s0.slots@[flat_idx(*t, i, j)] by {
                lemma_idx_bounds(i, j, t.width as int, t.height as int);
                if flat_idx(*t, i, j) == flat_idx(*t, x as int, y as int) {
                    lemma_idx_injective(i, j, x as int, y as int, t.width as int);
                }
                assert(s.slots@[flat_idx(*t, i, j)] == spre.slots@[flat_idx(*t, i, j)]);
            }
        }
        y = y + 1;
    }
}

/// Recycle a horizontal stripe: pool the drawable of every cell of row
/// `y` with `x0 <= x <= x1`.
fn hide_row(t: &Terrain, s: &mut SpriteStore, cmds: &mut Vec<DrawCmd>, y: i32, x0: i32, x1: i32)
    requires
        t.wf(),
        old(s).wf(t.width * t.height),
        0 <= y < t.height,
        0 <= x0,
        x1 < t.width,
    ensures
        final(s).wf(t.width * t.height),
        old(cmds)@.is_prefix_of(final(cmds)@),
        forall|i: int, j: int|
            #![trigger flat_idx(*t, i, j)]
            t.in_bounds(i, j) ==> final(s).live(flat_idx(*t, i, j)) == (old(s).live(
                flat_idx(*t, i, j),
            ) && !(j == y && x0 <= i <= x1)),
        forall|i: int, j: int|
            #![trigger flat_idx(*t, i, j)]
            t.in_bounds(i, j) && !(j == y && x0 <= i <= x1) ==> final(s).slots@[flat_idx(*t, i, j)]
                == old(s).slots@[flat_idx(*t, i, j)],
{
    if x0 > x1 {
        return;
    }
    let ghost s0 = *s;
    let mut x: i32 = x0;
    while x <= x1
        invariant
            t.wf(),
            s.wf(t.width * t.height),
            s0.wf(t.width * t.height),
            x0 <= x <= x1 + 1,
            0 <= y < t.height,
            0 <= x0,
            x1 < t.width,
            old(cmds)@.is_prefix_of(cmds@),
            forall|i: int, j: int|
                #![trigger flat_idx(*t, i, j)]
                t.in_bounds(i, j) ==> s.live(flat_idx(*t, i, j)) == (s0.live(flat_idx(*t, i, j))
                    && !(j == y && x0 <= i < x)),
            forall|i: int, j: int|
                #![trigger flat_idx(*t, i, j)]
                t.in_bounds(i, j) && !(j == y && x0 <= i <= x1) ==> s.slots@[flat_idx(*t, i, j)]
                    == s0.slots@[flat_idx(*t, i, j)],
        decreases x1 + 1 - x,
    {
        let ghost spre = *s;
        recycle_cell(t, s, cmds, x as usize, y as usize);
        proof {
            assert forall|i: int, j: int|
                #![trigger flat_idx(*t, i, j)]
                t.in_bounds(i, j) implies s.live(flat_idx(*t, i, j)) == (s0.live(
                flat_idx(*t, i, j),
            ) && !(j == y && x0 <= i < x + 1)) by {
                lemma_idx_bounds(i, j, t.width as int, t.height as int);
                if i == x && j == y {
                    assert(!s.live(flat_idx(*t, i, j)));
                } else {
                    if flat_idx(*t, i, j) == flat_idx(*t, x as int, y as int) {
                        lemma_idx_injective(i, j, x as int, y as int, t.width as int);
                    }
                    assert(s.slots@[flat_idx(*t, i, j)] == spre.slots@[flat_idx(*t, i, j)]);
                }
            }
            assert forall|i: int, j: int|
                #![trigger flat_idx(*t, i, j)]
                t.in_bounds(i, j) && !(j == y && x0 <= i <= x1) implies s.slots@[flat_idx(*t, i, j)]
                == s0.slots@[flat_idx(*t, i, j)] by {
                lemma_idx_bounds(i, j, t.width as int, t.height as int);
                if flat_idx(*t, i, j) == flat_idx(*t, x as int, y as int) {
                    lemma_idx_injective(i, j, x as int, y as int, t.width as int);
                }
                assert(s.slots@[flat_idx(*t, i, j)] == spre.slots@[flat_idx(*t, i, j)]);
            }
        }
        x = x + 1;
    }
}

/// `is_prefix_of` is transitive.
pub proof fn lemma_prefix_trans<A>(a: Seq<A>, b: Seq<A>, c: Seq<A>)
    requires
        a.is_prefix_of(b),
        b.is_prefix_of(c),
    ensures
        a.is_prefix_of(c),
{
    assert forall|i: int| 0 <= i < a.len() implies a[i] == #[trigger] c.subrange(
        0,
        a.len() as int,
    )[i] by {
        assert(a[i] == b.subrange(0, a.len() as int)[i]);
        assert(b[i] == c.subrange(0, b.len() as int)[i]);
    }
    assert(a =~= c.subrange(0, a.len() as int));
}

/// Reconcile the drawable set with a new active rectangle.
///
/// On the very first call every cell of the rectangle is materialized.
/// On later calls only the stripes entering and leaving the rectangle are
/// touched (an unchanged rectangle is a no-op), yet afterwards the cells
/// with live drawables are exactly those a naive full re-scan of the new
/// rectangle would produce, cells awaiting redraw excepted — see
/// `lemma_stripe_equivalence`.
pub fn stream_tiles(
    t: &Terrain,
    s: &mut SpriteStore,
    last: &mut Option<ActiveRect>,
    new_rect: ActiveRect,
    cmds: &mut Vec<DrawCmd>,
)
    requires
        t.wf(),
        old(s).wf(t.width * t.height),
        new_rect.wf(t.width as int, t.height as int),
        match *old(last) {
            Option::Some(p) => p.wf(t.width as int, t.height as int),
            Option::None => true,
        },
        synced(*t, *old(s), *old(last)),
    ensures
        final(s).wf(t.width * t.height),
        *final(last) == Some(new_rect),
        synced(*t, *final(s), Some(new_rect)),
        old(cmds)@.is_prefix_of(final(cmds)@),
        *old(last) == Some(new_rect) ==> *final(s) == *old(s) && final(cmds)@ == old(cmds)@,
        match *old(last) {
            Option::Some(prev) => forall|i: int, j: int|
                #![trigger flat_idx(*t, i, j)]
                t.in_bounds(i, j) && prev.contains(i, j) && new_rect.contains(i, j)
                    ==> final(s).slots@[flat_idx(*t, i, j)] == old(s).slots@[flat_idx(*t, i, j)],
            Option::None => true,
        },
{
    let lr = *last;
    match lr {
        Option::None => {
            let ghost s0 = *s;
            let ghost c0 = cmds@;
            proof {
                assert forall|i: int, j: int|
                    #![trigger flat_idx(*t, i, j)]
                    t.in_bounds(i, j) implies !s.live(flat_idx(*t, i, j)) by {
                    lemma_idx_bounds(i, j, t.width as int, t.height as int);
                }
            }
            let mut y: i32 = new_rect.min_y;
            while y <= new_rect.max_y
                invariant
                    t.wf(),
                    s.wf(t.width * t.height),
                    new_rect.wf(t.width as int, t.height as int),
                    new_rect.min_y <= y <= new_rect.max_y + 1,
                    c0.is_prefix_of(cmds@),
                    forall|m: int| 0 <= m < t.width * t.height ==> !s0.live(m),
                    forall|i: int, j: int|
                        #![trigger flat_idx(*t, i, j)]
                        t.in_bounds(i, j) ==> s.live(flat_idx(*t, i, j)) == (new_rect.min_x <= i
                            <= new_rect.max_x && new_rect.min_y <= j < y && eligible(*t, i, j)),
                decreases new_rect.max_y + 1 - y,
            {
                let ghost cpre = cmds@;
                let ghost spre = *s;
                fill_row(t, s, cmds, y, new_rect.min_x, new_rect.max_x);
                proof {
                    lemma_prefix_trans(c0, cpre, cmds@);
                    assert forall|i: int, j: int|
                        #![trigger flat_idx(*t, i, j)]
                        t.in_bounds(i, j) implies s.live(flat_idx(*t, i, j)) == (new_rect.min_x <= i
                        <= new_rect.max_x && new_rect.min_y <= j < y + 1 && eligible(
                        *t,
                        i,
                        j,
                    )) by {
                        lemma_idx_bounds(i, j, t.width as int, t.height as int);
                    }
                }
                y = y + 1;
            }
            *last = Some(new_rect);
            proof {
                assert forall|x: int, y2: int|
                    #![trigger flat_idx(*t, x, y2)]
                    t.in_bounds(x, y2) implies {
                    &&& (s.live(flat_idx(*t, x, y2)) ==> new_rect.contains(x, y2))
                    &&& (!queued(*t, x, y2) ==> (s.live(flat_idx(*t, x, y2)) <==> covered(
                        *t,
                        new_rect,
                        x,
                        y2,
                    )))
                } by {
                    lemma_idx_bounds(x, y2, t.width as int, t.height as int);
                }
            }
        },
        Option::Some(prev) => {
            if prev == new_rect {
                return;
            }
            let ghost s0 = *s;
            let ghost c0 = cmds@;
            // stripes of columns entering the rectangle
            let mut x: i32 = new_rect.min_x;
            while x <= new_rect.max_x
                invariant
                    t.wf(),
                    s.wf(t.width * t.height),
                    s0.wf(t.width * t.height),
                    new_rect.wf(t.width as int, t.height as int),
                    prev.wf(t.width as int, t.height as int),
                    new_rect.min_x <= x <= new_rect.max_x + 1,
                    c0.is_prefix_of(cmds@),
                    forall|i: int, j: int|
                        #![trigger flat_idx(*t, i, j)]
                        t.in_bounds(i, j) ==> s.live(flat_idx(*t, i, j)) == (s0.live(
                            flat_idx(*t, i, j),
                        ) || (new_rect.min_x <= i < x && !(prev.min_x <= i <= prev.max_x)
                            && new_rect.min_y <= j <= new_rect.max_y && eligible(*t, i, j))),
                    forall|i: int, j: int|
                        #![trigger flat_idx(*t, i, j)]
                        t.in_bounds(i, j) && prev.contains(i, j) && new_rect.contains(i, j)
                            ==> s.slots@[flat_idx(*t, i, j)] == s0.slots@[flat_idx(*t, i, j)],
                decreases new_rect.max_x + 1 - x,
            {
                let ghost cpre = cmds@;
                if x < prev.min_x || x > prev.max_x {
                    fill_col(t, s, cmds, x, new_rect.min_y, new_rect.max_y);
                }
                proof {
                    lemma_prefix_trans(c0, cpre, cmds@);
                }
                x = x + 1;
            }
            let ghost sa = *s;
            // stripes of rows entering the rectangle
            let mut y: i32 = new_rect.min_y;
            while y <= new_rect.max_y
                invariant
                    t.wf(),
                    s.wf(t.width * t.height),
                    sa.wf(t.width * t.height),
                    new_rect.wf(t.width as int, t.height as int),
                    prev.wf(t.width as int, t.height as int),
                    new_rect.min_y <= y <= new_rect.max_y + 1,
                    c0.is_prefix_of(cmds@),
                    forall|i: int, j: int|
                        #![trigger flat_idx(*t, i, j)]
                        t.in_bounds(i, j) ==> s.live(flat_idx(*t, i, j)) == (sa.live(
                            flat_idx(*t, i, j),
                        ) || (new_rect.min_y <= j < y && !(prev.min_y <= j <= prev.max_y)
                            && new_rect.min_x <= i <= new_rect.max_x && eligible(*t, i, j))),
                    forall|i: int, j: int|
                        #![trigger flat_idx(*t, i, j)]
                        t.in_bounds(i, j) && prev.contains(i, j) && new_rect.contains(i, j)
                            ==> s.slots@[flat_idx(*t, i, j)] == s0.slots@[flat_idx(*t, i, j)],
                decreases new_rect.max_y + 1 - y,
            {
                let ghost cpre = cmds@;
                if y < prev.min_y || y > prev.max_y {
                    fill_row(t, s, cmds, y, new_rect.min_x, new_rect.max_x);
                }
                proof {
                    lemma_prefix_trans(c0, cpre, cmds@);
                }
                y = y + 1;
            }
            let ghost sb = *s;
            // stripes of columns that left the rectangle
            let mut x2: i32 = prev.min_x;
            while x2 <= prev.max_x
                invariant
                    t.wf(),
                    s.wf(t.width * t.height),
                    sb.wf(t.width * t.height),
                    new_rect.wf(t.width as int, t.height as int),
                    prev.wf(t.width as int, t.height as int),
                    prev.min_x <= x2 <= prev.max_x + 1,
                    c0.is_prefix_of(cmds@),
                    forall|i: int, j: int|
                        #![trigger flat_idx(*t, i, j)]
                        t.in_bounds(i, j) ==> s.live(flat_idx(*t, i, j)) == (sb.live(
                            flat_idx(*t, i, j),
                        ) && !(prev.min_x <= i < x2 && !(new_rect.min_x <= i <= new_rect.max_x)
                            && prev.min_y <= j <= prev.max_y)),
                    forall|i: int, j: int|
                        #![trigger flat_idx(*t, i, j)]
                        t.in_bounds(i, j) && prev.contains(i, j) && new_rect.contains(i, j)
                            ==> s.slots@[flat_idx(*t, i, j)] == s0.slots@[flat_idx(*t, i, j)],
                decreases prev.max_x + 1 - x2,
            {
                let ghost cpre = cmds@;
                if x2 < new_rect.min_x || x2 > new_rect.max_x {
                    hide_col(t, s, cmds, x2, prev.min_y, prev.max_y);
                }
                proof {
                    lemma_prefix_trans(c0, cpre, cmds@);
                }
                x2 = x2 + 1;
            }
            let ghost sc = *s;
            // stripes of rows that left, restricted to columns still in range
            let lo: i32 = if prev.min_x < new_rect.min_x {
                new_rect.min_x
            } else {
                prev.min_x
            };
            let hi: i32 = if prev.max_x > new_rect.max_x {
                new_rect.max_x
            } else {
                prev.max_x
            };
            let mut y2: i32 = prev.min_y;
            while y2 <= prev.max_y
                invariant
                    t.wf(),
                    s.wf(t.width * t.height),
                    sc.wf(t.width * t.height),
                    new_rect.wf(t.width as int, t.height as int),
                    prev.wf(t.width as int, t.height as int),
                    prev.min_y <= y2 <= prev.max_y + 1,
                    lo == (if prev.min_x < new_rect.min_x {
                        new_rect.min_x
                    } else {
                        prev.min_x
                    }),
                    hi == (if prev.max_x > new_rect.max_x {
                        new_rect.max_x
                    } else {
                        prev.max_x
                    }),
                    c0.is_prefix_of(cmds@),
                    forall|i: int, j: int|
                        #![trigger flat_idx(*t, i, j)]
                        t.in_bounds(i, j) ==> s.live(flat_idx(*t, i, j)) == (sc.live(
                            flat_idx(*t, i, j),
                        ) && !(prev.min_y <= j < y2 && !(new_rect.min_y <= j <= new_rect.max_y)
                            && lo <= i <= hi)),
                    forall|i: int, j: int|
                        #![trigger flat_idx(*t, i, j)]
                        t.in_bounds(i, j) && prev.contains(i, j) && new_rect.contains(i, j)
                            ==> s.slots@[flat_idx(*t, i, j)] == s0.slots@[flat_idx(*t, i, j)],
                decreases prev.max_y + 1 - y2,
            {
                let ghost cpre = cmds@;
                if y2 < new_rect.min_y || y2 > new_rect.max_y {
                    if lo <= hi {
                        hide_row(t, s, cmds, y2, lo, hi);
                    }
                }
                proof {
                    lemma_prefix_trans(c0, cpre, cmds@);
                }
                y2 = y2 + 1;
            }
            *last = Some(new_rect);
            proof {
                assert forall|i: int, j: int|
                    #![trigger flat_idx(*t, i, j)]
                    t.in_bounds(i, j) implies {
                    &&& (s.live(flat_idx(*t, i, j)) ==> new_rect.contains(i, j))
                    &&& (!queued(*t, i, j) ==> (s.live(flat_idx(*t, i, j)) <==> covered(
                        *t,
                        new_rect,
                        i,
                        j,
                    )))
                } by {
                    lemma_idx_bounds(i, j, t.width as int, t.height as int);
                    assert(s0.live(flat_idx(*t, i, j)) ==> prev.contains(i, j));
                }
            }
        },
    }
}

/// The coordinate `(x, y)` occurs in `q` at or after position `k`.
spec fn queued_from(q: Seq<(usize, usize)>, k: int, x: int, y: int) -> bool {
    exists|m: int| k <= m < q.len() && (#[trigger] q[m]) == ((x as usize), (y as usize))
}

/// Drain the mutation queue in FIFO order and reconcile each queued cell
/// with its drawable: inside the active rectangle a non-`Sky` cell gets a
/// retinted drawable (reusing the pool before creating), and every other
/// queued cell has its drawable hidden and recycled — never destroyed.
/// Duplicate queue entries are handled idempotently.
pub fn redraw_changed_tiles(
    t: &mut Terrain,
    s: &mut SpriteStore,
    last: Option<ActiveRect>,
    cmds: &mut Vec<DrawCmd>,
)
    requires
        old(t).wf(),
        old(s).wf(old(t).width * old(t).height),
        match last {
            Option::Some(r) => r.wf(old(t).width as int, old(t).height as int),
            Option::None => true,
        },
        synced(*old(t), *old(s), last),
    ensures
        final(t).wf(),
        final(t).tiles@ == old(t).tiles@,
        final(t).width == old(t).width,
        final(t).height == old(t).height,
        final(t).height_map@ == old(t).height_map@,
        final(t).changed_tiles@.len() == 0,
        final(s).wf(final(t).width * final(t).height),
        synced(*final(t), *final(s), last),
        old(cmds)@.is_prefix_of(final(cmds)@),
{
    let ghost t0 = *t;
    let ghost c0 = cmds@;
    let n_q = t.changed_tiles.len();
    let mut k: usize = 0;
    while k < n_q
        invariant
            *t == t0,
            t0.wf(),
            s.wf(t0.width * t0.height),
            match last {
                Option::Some(r) => r.wf(t0.width as int, t0.height as int),
                Option::None => true,
            },
            c0.is_prefix_of(cmds@),
            n_q == t0.changed_tiles@.len(),
            k <= n_q,
            match last {
                Option::None => forall|m: int| 0 <= m < t0.width * t0.height ==> !s.live(m),
                Option::Some(r) => forall|i: int, j: int|
                    #![trigger flat_idx(t0, i, j)]
                    t0.in_bounds(i, j) ==> {
                        &&& (s.live(flat_idx(t0, i, j)) ==> r.contains(i, j))
                        &&& (!queued_from(t0.changed_tiles@, k as int, i, j) ==> (s.live(
                            flat_idx(t0, i, j),
                        ) <==> covered(t0, r, i, j)))
                    },
            },
        decreases n_q - k,
    {
        let c = t.changed_tiles[k];
        let cx = c.0;
        let cy = c.1;
        let ghost spre = *s;
        let ghost cpre = cmds@;
        let mut cov: bool = false;
        match last {
            Option::None => {},
            Option::Some(r) => {
                if r.contains_tile(cx as i32, cy as i32) {
                    let tl = t.get_tile(cx, cy);
                    if !(matches!(tl.kind, TileKind::Sky)) {
                        cov = true;
                    }
                }
            },
        }
        let i = t.idx(cx, cy);
        if cov {
            if let Some(h) = s.slots[i] {
                let tl = t.get_tile(cx, cy);
                let color = tile_color(&tl);
                let layer = tile_layer(tl.kind);
                cmds.push(DrawCmd::Update { handle: h, x: cx, y: cy, color, layer });
            } else {
                ensure_drawable(t, s, cmds, cx as i32, cy as i32);
            }
        } else {
            recycle_cell(t, s, cmds, cx, cy);
        }
        proof {
            lemma_prefix_trans(c0, cpre, cmds@);
        }
        proof {
            let q = t0.changed_tiles@;
            if let Option::Some(r) = last {
                assert forall|i2: int, j2: int|
                    #![trigger flat_idx(t0, i2, j2)]
                    t0.in_bounds(i2, j2) implies {
                    &&& (s.live(flat_idx(t0, i2, j2)) ==> r.contains(i2, j2))
                    &&& (!queued_from(q, k + 1, i2, j2) ==> (s.live(flat_idx(t0, i2, j2)) <==> covered(
                        t0,
                        r,
                        i2,
                        j2,
                    )))
                } by {
                    lemma_idx_bounds(i2, j2, t0.width as int, t0.height as int);
                    lemma_idx_bounds(cx as int, cy as int, t0.width as int, t0.height as int);
                    if i2 == cx && j2 == cy {
                    } else {
                        if flat_idx(t0, i2, j2) == flat_idx(t0, cx as int, cy as int) {
                            lemma_idx_injective(i2, j2, cx as int, cy as int, t0.width as int);
                        }
                        assert(s.slots@[flat_idx(t0, i2, j2)] == spre.slots@[flat_idx(t0, i2, j2)]);
                        if !queued_from(q, k + 1, i2, j2) {
                            if queued_from(q, k as int, i2, j2) {
                                let m = choose|m: int|
                                    k <= m < q.len() && (#[trigger] q[m]) == (
                                    (i2 as usize),
                                    (j2 as usize),
                                    );
                                if m == k {
                                    assert(false);
                                } else {
                                    assert(k + 1 <= m < q.len() && q[m] == (
                                        (i2 as usize),
                                        (j2 as usize),
                                    ));
                                    assert(false);
                                }
                            }
                        }
                    }
                }
            }
        }
        k = k + 1;
    }
    t.changed_tiles.clear();
    proof {
        if let Option::Some(r) = last {
            assert forall|i2: int, j2: int|
                #![trigger flat_idx(*t, i2, j2)]
                t.in_bounds(i2, j2) implies {
                &&& (s.live(flat_idx(*t, i2, j2)) ==> r.contains(i2, j2))
                &&& (!queued(*t, i2, j2) ==> (s.live(flat_idx(*t, i2, j2)) <==> covered(
                    *t,
                    r,
                    i2,
                    j2,
                )))
            } by {
                assert(!queued_from(t0.changed_tiles@, n_q as int, i2, j2));
                assert(flat_idx(*t, i2, j2) == flat_idx(t0, i2, j2));
                assert(covered(*t, r, i2, j2) == covered(t0, r, i2, j2));
            }
        }
    }
}

/// `synced` survives a terrain mutation, provided every cell whose kind
/// changed was appended to the mutation queue.
pub proof fn lemma_mutation_synced(t1: Terrain, t2: Terrain, s: SpriteStore, last: Option<ActiveRect>)
    requires
        synced(t1, s, last),
        t2.width == t1.width,
        t2.height == t1.height,
        t1.changed_tiles@.is_prefix_of(t2.changed_tiles@),
        forall|i: int, j: int|
            t2.in_bounds(i, j) && !queued(t2, i, j) ==> #[trigger] t2.kind_at(i, j) == t1.kind_at(
                i,
                j,
            ),
    ensures
        synced(t2, s, last),
{
    match last {
        Option::None => {
            assert(t2.width * t2.height == t1.width * t1.height);
        },
        Option::Some(r) => {
            assert forall|x: int, y: int|
                #![trigger flat_idx(t2, x, y)]
                t2.in_bounds(x, y) implies {
                &&& (s.live(flat_idx(t2, x, y)) ==> r.contains(x, y))
                &&& (!queued(t2, x, y) ==> (s.live(flat_idx(t2, x, y)) <==> covered(t2, r, x, y)))
            } by {
                assert(flat_idx(t2, x, y) == flat_idx(t1, x, y));
                if !queued(t2, x, y) {
                    assert(!queued(t1, x, y)) by {
                        if queued(t1, x, y) {
                            let k = choose|k: int|
                                0 <= k < t1.changed_tiles@.len() && (#[trigger] t1.changed_tiles@[k])
                                    == ((x as usize), (y as usize));
                            assert(t2.changed_tiles@[k] == ((x as usize), (y as usize)));
                        }
                    }
                    assert(t2.kind_at(x, y) == t1.kind_at(x, y));
                }
            }
        },
    }
}

/// Stripe differencing agrees with a naive full re-scan: once the
/// mutation queue has been drained, the cells with live drawables are
/// exactly the cells of the last-streamed rectangle whose kind is
/// drawable — the set a from-scratch scan of that rectangle would build.
pub proof fn lemma_stripe_equivalence(t: Terrain, s: SpriteStore, r: ActiveRect)
    requires
        t.wf(),
        s.wf(t.width * t.height),
        synced(t, s, Some(r)),
        t.changed_tiles@.len() == 0,
    ensures
        forall|x: int, y: int|
            #![trigger flat_idx(t, x, y)]
            t.in_bounds(x, y) ==> (s.live(flat_idx(t, x, y)) <==> covered(t, r, x, y)),
{
    assert forall|x: int, y: int|
        #![trigger flat_idx(t, x, y)]
        t.in_bounds(x, y) implies (s.live(flat_idx(t, x, y)) <==> covered(t, r, x, y)) by {
        assert(!queued(t, x, y));
    }
}

/// Pool exclusivity: a drawable handle is owned by at most one grid cell.
pub proof fn lemma_handle_exclusive(s: SpriteStore, n: int, i: int, j: int)
    requires
        s.wf(n),
        0 <= i < n,
        0 <= j < n,
        s.live(i),
        s.live(j),
        s.handle_at(i) == s.handle_at(j),
    ensures
        i == j,
{
}

/// Pool exclusivity: a handle parked in the free pool is owned by no cell.
pub proof fn lemma_free_unreferenced(s: SpriteStore, n: int, k: int, i: int)
    requires
        s.wf(n),
        0 <= k < s.free@.len(),
        0 <= i < n,
        s.live(i),
    ensures
        s.free@[k] != s.handle_at(i),
{
}

} // verus!
