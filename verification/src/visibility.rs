//! Field of view: the visible-tile set, recursive shadowcasting over
//! eight octants, and the per-frame recomputation that diffs the new set
//! against the old one into the mutation queue.

use vstd::prelude::*;

use crate::grid::{dist2, lemma_idx_bounds, lemma_idx_injective, same_dims, Terrain};
use crate::rect::ActiveRect;
use crate::stream::lemma_prefix_trans;
use crate::tile::{is_solid_kind, solid_kind, Tile};

verus! {

/// Field-of-view radius used by the game, in tiles.
pub const FOV_RADIUS: i32 = 48;

/// Chebyshev radius of the soft light bleed around visible tiles.
pub const LIGHT_BLEED_RADIUS: i32 = 2;

/// Rows below the surface that stay lit across the active window.
pub const ALWAYS_VISIBLE_DEPTH: usize = 4;

/// The viewer's discrete tile coordinate; visibility is recomputed only
/// when it changes.
#[derive(Clone, Copy, PartialEq, Eq, Structural, Debug)]
pub struct PlayerTile {
    pub x: i32,
    pub y: i32,
}

impl PlayerTile {
    /// Record the viewer's tile, reporting whether it changed — the check
    /// that keeps sub-tile movement from triggering any recomputation.
    pub fn update(&mut self, nx: i32, ny: i32) -> (changed: bool)
        ensures
            final(self).x == nx,
            final(self).y == ny,
            changed == !(old(self).x == nx && old(self).y == ny),
    {
        let changed = !(self.x == nx && self.y == ny);
        self.x = nx;
        self.y = ny;
        changed
    }
}

/// A set of in-bounds tile coordinates, held as a boolean mask over the
/// grid plus the list of members (for iteration without allocation).
pub struct VisibleTiles {
    /// `mask[y * width + x]` — membership of `(x, y)`.
    pub mask: Vec<bool>,
    /// The members, each exactly once, in insertion order.
    pub coords: Vec<(usize, usize)>,
    pub width: usize,
    pub height: usize,
}

impl VisibleTiles {
    /// `(x, y)` is a member.
    pub open spec fn marked(self, x: int, y: int) -> bool {
        0 <= x < self.width && 0 <= y < self.height && self.mask@[y * self.width + x]
    }

    /// The mask and the member list agree, and members are unique.
    pub open spec fn wf(self) -> bool {
        &&& 1 <= self.width <= 32768
        &&& 1 <= self.height <= 32768
        &&& self.mask@.len() == self.width * self.height
        &&& forall|k: int|
            0 <= k < self.coords@.len() ==> {
                let c = #[trigger] self.coords@[k];
                self.marked(c.0 as int, c.1 as int)
            }
        &&& forall|x: int, y: int|
            #![trigger self.marked(x, y)]
            self.marked(x, y) ==> exists|k: int|
                0 <= k < self.coords@.len() && #[trigger] self.coords@[k] == (
                (x as usize),
                (y as usize),
                )
        &&& forall|k: int, l: int|
            0 <= k < l < self.coords@.len() ==> #[trigger] self.coords@[k]
                != #[trigger] self.coords@[l]
    }

    /// An empty set over a `width` by `height` grid.
    pub fn new(width: usize, height: usize) -> (v: VisibleTiles)
        requires
            1 <= width <= 32768,
            1 <= height <= 32768,
        ensures
            v.wf(),
            v.width == width,
            v.height == height,
            forall|x: int, y: int| !v.marked(x, y),
            v.coords@.len() == 0,
    {
        proof {
            assert(width * height <= 32768 * 32768) by (nonlinear_arith)
                requires width <= 32768 && height <= 32768;
        }
        let n: usize = width * height;
        let mut mask: Vec<bool> = Vec::new();
        let mut i: usize = 0;
        while i < n
            invariant
                i <= n,
                mask@.len() == i,
                forall|j: int| 0 <= j < i ==> !(#[trigger] mask@[j]),
            decreases n - i,
        {
            mask.push(false);
            i = i + 1;
        }
        let v = VisibleTiles { mask, coords: Vec::new(), width, height };
        proof {
            assert forall|x: int, y: int| !v.marked(x, y) by {
                if 0 <= x < v.width && 0 <= y < v.height {
                    lemma_idx_bounds(x, y, v.width as int, v.height as int);
                }
            }
        }
        v
    }

    /// Number of members.
    pub fn len(&self) -> (n: usize)
        ensures
            n == self.coords@.len(),
    {
        self.coords.len()
    }

    /// The `k`-th member, in insertion order.
    pub fn coord(&self, k: usize) -> (c: (usize, usize))
        requires
            self.wf(),
            k < self.coords@.len(),
        ensures
            c == self.coords@[k as int],
            self.marked(c.0 as int, c.1 as int),
    {
        self.coords[k]
    }

    /// Executable twin of `marked`; out-of-bounds coordinates are not
    /// members.
    pub fn contains(&self, x: i32, y: i32) -> (r: bool)
        requires
            self.wf(),
        ensures
            r == self.marked(x as int, y as int),
    {
        if x < 0 || y < 0 || x >= self.width as i32 || y >= self.height as i32 {
            return false;
        }
        proof {
            lemma_idx_bounds(x as int, y as int, self.width as int, self.height as int);
            assert(self.width * self.height <= 32768 * 32768) by (nonlinear_arith)
                requires self.width <= 32768 && self.height <= 32768;
        }
        let i: usize = (y as usize) * self.width + (x as usize);
        self.mask[i]
    }

    /// Add `(x, y)` to the set (a no-op when already a member).
    pub fn insert(&mut self, x: usize, y: usize)
        requires
            old(self).wf(),
            x < old(self).width,
            y < old(self).height,
        ensures
            final(self).wf(),
            final(self).width == old(self).width,
            final(self).height == old(self).height,
            forall|a: int, b: int| #![trigger final(self).marked(a, b)]
                final(self).marked(a, b) == (old(self).marked(a, b) || (a == x && b == y)),
            old(self).coords@.is_prefix_of(final(self).coords@),
            old(self).marked(x as int, y as int) ==> final(self).coords@ == old(self).coords@,
            !old(self).marked(x as int, y as int) ==> final(self).coords@ == old(
                self,
            ).coords@.push((x, y)),
    {
        proof {
            lemma_idx_bounds(x as int, y as int, self.width as int, self.height as int);
            assert(self.width * self.height <= 32768 * 32768) by (nonlinear_arith)
                requires self.width <= 32768 && self.height <= 32768;
        }
        let i: usize = y * self.width + x;
        if self.mask[i] {
            proof {
                assert(old(self).coords@.is_prefix_of(self.coords@));
            }
            return;
        }
        self.mask.set(i, true);
        self.coords.push((x, y));
        proof {
            let w = self.width as int;
            let h = self.height as int;
            assert forall|a: int, b: int| #![trigger self.marked(a, b)]
                self.marked(a, b) == (old(self).marked(a, b) || (a == x && b == y)) by {
                if 0 <= a < w && 0 <= b < h {
                    lemma_idx_bounds(a, b, w, h);
                    if b * w + a == i as int {
                        lemma_idx_injective(a, b, x as int, y as int, w);
                    }
                }
            }
            assert forall|a: int, b: int|
                #![trigger self.marked(a, b)]
                self.marked(a, b) implies exists|k: int|
                0 <= k < self.coords@.len() && #[trigger] self.coords@[k] == (
                (a as usize),
                (b as usize),
                ) by {
                if old(self).marked(a, b) {
                    let k = choose|k: int|
                        0 <= k < old(self).coords@.len() && #[trigger] old(self).coords@[k] == (
                        (a as usize),
                        (b as usize),
                        );
                    assert(self.coords@[k] == ((a as usize), (b as usize)));
                } else {
                    assert(self.coords@[self.coords@.len() - 1] == ((a as usize), (b as usize)));
                }
            }
            assert forall|k: int, l: int|
                0 <= k < l < self.coords@.len() implies #[trigger] self.coords@[k]
                != #[trigger] self.coords@[l] by {
                if l == self.coords@.len() - 1 {
                    let c = self.coords@[k];
                    assert(c == old(self).coords@[k]);
                    assert(old(self).marked(c.0 as int, c.1 as int));
                }
            }
        }
    }

    /// Remove every member, leaving an empty set with the same dimensions.
    pub fn clear(&mut self)
        requires
            old(self).wf(),
        ensures
            final(self).wf(),
            final(self).width == old(self).width,
            final(self).height == old(self).height,
            forall|a: int, b: int| !final(self).marked(a, b),
            final(self).coords@.len() == 0,
    {
        let n = self.coords.len();
        let mut k: usize = 0;
        while k < n
            invariant
                self.width == old(self).width,
                self.height == old(self).height,
                1 <= self.width <= 32768,
                1 <= self.height <= 32768,
                self.mask@.len() == self.width * self.height,
                self.coords@ == old(self).coords@,
                n == self.coords@.len(),
                k <= n,
                forall|c: int|
                    0 <= c < self.coords@.len() ==> {
                        let cc = #[trigger] self.coords@[c];
                        cc.0 < self.width && cc.1 < self.height
                    },
                forall|x: int, y: int|
                    #![trigger self.marked(x, y)]
                    self.marked(x, y) ==> exists|c: int|
                        k <= c < self.coords@.len() && #[trigger] self.coords@[c] == (
                        (x as usize),
                        (y as usize),
                        ),
            decreases n - k,
        {
            let c = self.coords[k];
            proof {
                lemma_idx_bounds(c.0 as int, c.1 as int, self.width as int, self.height as int);
                assert(self.width * self.height <= 32768 * 32768) by (nonlinear_arith)
                    requires self.width <= 32768 && self.height <= 32768;
            }
            let i: usize = c.1 * self.width + c.0;
            let ghost pre = *self;
            self.mask.set(i, false);
            proof {
                assert forall|x: int, y: int|
                    #![trigger self.marked(x, y)]
                    self.marked(x, y) implies exists|c2: int|
                    k + 1 <= c2 < self.coords@.len() && #[trigger] self.coords@[c2] == (
                    (x as usize),
                    (y as usize),
                    ) by {
                    lemma_idx_bounds(x, y, self.width as int, self.height as int);
                    assert(y * self.width + x != i as int);
                    assert(pre.marked(x, y));
                    let c2 = choose|c2: int|
                        k <= c2 < pre.coords@.len() && #[trigger] pre.coords@[c2] == (
                        (x as usize),
                        (y as usize),
                        );
                    assert(self.coords@[c2] == ((x as usize), (y as usize)));
                    if c2 == k {
                        assert(false);
                    }
                }
            }
            k = k + 1;
        }
        let ghost fin = *self;
        self.coords.clear();
        proof {
            assert forall|a: int, b: int| !self.marked(a, b) by {
                if 0 <= a < self.width && 0 <= b < self.height {
                    lemma_idx_bounds(a, b, self.width as int, self.height as int);
                    if self.marked(a, b) {
                        assert(fin.marked(a, b));
                        assert(false);
                    }
                }
            }
        }
    }
}

/// Strict comparison `a/b > c/d` of two slopes with positive denominators,
/// by cross-multiplication.
fn slope_gt(an: i32, ad: i32, cn: i32, cd: i32) -> (r: bool)
    requires
        ad >= 1,
        cd >= 1,
    ensures
        r == ((an as int) * (cd as int) > (cn as int) * (ad as int)),
{
    proof {
        assert((an as i64) * (cd as i64) <= 0x7fffffffi64 * 0x7fffffffi64 && (an as i64) * (
        cd as i64) >= -0x7fffffffi64 * 0x80000000i64 && (cn as i64) * (ad as i64)
            <= 0x7fffffffi64 * 0x7fffffffi64 && (cn as i64) * (ad as i64) >= -0x7fffffffi64
            * 0x80000000i64) by (nonlinear_arith)
            requires
                -0x80000000 <= an <= 0x7fffffff,
                1 <= ad <= 0x7fffffff,
                -0x80000000 <= cn <= 0x7fffffff,
                1 <= cd <= 0x7fffffff;
    }
    (an as i64) * (cd as i64) > (cn as i64) * (ad as i64)
}

/// Strict comparison `a/b < c/d` of two slopes with positive denominators.
fn slope_lt(an: i32, ad: i32, cn: i32, cd: i32) -> (r: bool)
    requires
        ad >= 1,
        cd >= 1,
    ensures
        r == ((an as int) * (cd as int) < (cn as int) * (ad as int)),
{
    slope_gt(cn, cd, an, ad)
}

/// No solid tile stands within Chebyshev distance `radius` of the
/// viewer — the whole square the octant scans is see-through.
pub open spec fn open_around(t: Terrain, cx: int, cy: int, radius: int) -> bool {
    forall|i: int, j: int|
        t.in_bounds(i, j) && cx - radius <= i <= cx + radius && cy - radius <= j <= cy + radius
            ==> !is_solid_kind(#[trigger] t.kind_at(i, j))
}

/// The octant scan with matrix `(xx, xy, yx, yy)` visits the cell at
/// offset `(ox, oy)` from the viewer within `radius`: pulling the offset
/// back through the transform lands in the scanned triangle and inside
/// the radius disc.
pub open spec fn octant_reaches(
    ox: int,
    oy: int,
    xx: int,
    xy: int,
    yx: int,
    yy: int,
    radius: int,
) -> bool {
    let du = ox * xx + oy * yx;
    let dv = -(ox * xy + oy * yy);
    1 <= dv <= radius && -dv <= du <= 0 && du * du + dv * dv <= radius * radius
}

/// One octant of recursive symmetric shadowcasting.
///
/// Scans the octant mapped by the signed-permutation matrix
/// `(xx, xy, yx, yy)` outward from row `row` up to `radius`, inserting
/// every tile between the start and end slopes (held as exact rationals)
/// whose squared distance is within `radius * radius` and which lies in
/// the active rectangle.  An opaque run narrows the slope window and
/// spawns a recursive continuation for the still-unblocked portion.
///
/// Whatever the slopes, the set only grows, and every tile added lies in
/// the rectangle and within the radius — the radius bound of the engine.
/// Conversely, when the whole scanned square is see-through and the scan
/// starts from the full slope window, every in-rectangle tile the octant
/// visits within the radius is marked: nothing is missed on open terrain.
pub fn cast_light(
    t: &Terrain,
    out: &mut VisibleTiles,
    rect: ActiveRect,
    cx: i32,
    cy: i32,
    row: i32,
    start_num: i32,
    start_den: i32,
    end_num: i32,
    end_den: i32,
    radius: i32,
    xx: i32,
    xy: i32,
    yx: i32,
    yy: i32,
)
    requires
        t.wf(),
        old(out).wf(),
        old(out).width == t.width,
        old(out).height == t.height,
        rect.wf(t.width as int, t.height as int),
        1 <= radius <= 1024,
        1 <= row <= radius + 1,
        -2000000 <= cx <= 2000000,
        -2000000 <= cy <= 2000000,
        -4000 <= start_num <= 4000,
        1 <= start_den <= 4000,
        -4000 <= end_num <= 4000,
        1 <= end_den <= 4000,
        -1 <= xx <= 1,
        -1 <= xy <= 1,
        -1 <= yx <= 1,
        -1 <= yy <= 1,
        xx * xy == 0,
        yx * yy == 0,
        xx * xx + xy * xy == 1,
        yx * yx + yy * yy == 1,
        xx * yx == 0,
        xy * yy == 0,
    ensures
        final(out).wf(),
        final(out).width == old(out).width,
        final(out).height == old(out).height,
        forall|a: int, b: int|
            #![trigger final(out).marked(a, b)]
            old(out).marked(a, b) ==> final(out).marked(a, b),
        forall|a: int, b: int|
            #![trigger final(out).marked(a, b)]
            final(out).marked(a, b) ==> (old(out).marked(a, b) || (rect.contains(a, b) && dist2(
                a,
                b,
                cx as int,
                cy as int,
            ) <= radius * radius)),
        (row == 1 && start_num == 1 && start_den == 1 && end_num == 0 && end_den == 1
            && open_around(*t, cx as int, cy as int, radius as int)) ==> forall|a: int, b: int|
            #![trigger final(out).marked(a, b)]
            t.in_bounds(a, b) && rect.contains(a, b) && octant_reaches(
                a - cx,
                b - cy,
                xx as int,
                xy as int,
                yx as int,
                yy as int,
                radius as int,
            ) ==> final(out).marked(a, b),
    decreases radius + 1 - row,
{
    let ghost out0 = *out;
    let ghost hyp = row == 1 && start_num == 1 && start_den == 1 && end_num == 0 && end_den == 1
        && open_around(*t, cx as int, cy as int, radius as int);
    if slope_lt(start_num, start_den, end_num, end_den) {
        return;
    }
    let mut start_n = start_num;
    let mut start_d = start_den;
    let mut new_start_n: i32 = 0;
    let mut new_start_d: i32 = 1;
    let mut blocked = false;
    let mut dist = row;
    while dist <= radius && !blocked
        invariant
            t.wf(),
            out.wf(),
            out.width == t.width,
            out.height == t.height,
            rect.wf(t.width as int, t.height as int),
            1 <= radius <= 1024,
            1 <= row <= radius + 1,
            row <= dist <= radius + 1,
            -2000000 <= cx <= 2000000,
            -2000000 <= cy <= 2000000,
            -4000 <= start_n <= 4000,
            1 <= start_d <= 4000,
            -4000 <= new_start_n <= 4000,
            1 <= new_start_d <= 4000,
            -4000 <= end_num <= 4000,
            1 <= end_den <= 4000,
            -1 <= xx <= 1,
            -1 <= xy <= 1,
            -1 <= yx <= 1,
            -1 <= yy <= 1,
            xx * xy == 0,
            yx * yy == 0,
            xx * xx + xy * xy == 1,
            yx * yx + yy * yy == 1,
            xx * yx == 0,
            xy * yy == 0,
            hyp == (row == 1 && start_num == 1 && start_den == 1 && end_num == 0 && end_den == 1
                && open_around(*t, cx as int, cy as int, radius as int)),
            hyp ==> !blocked && start_n == 1 && start_d == 1,
            hyp ==> forall|a: int, b: int|
                #![trigger out.marked(a, b)]
                t.in_bounds(a, b) && rect.contains(a, b) && octant_reaches(
                    a - cx,
                    b - cy,
                    xx as int,
                    xy as int,
                    yx as int,
                    yy as int,
                    radius as int,
                ) && -((a - cx) * xy + (b - cy) * yy) < dist ==> out.marked(a, b),
            forall|a: int, b: int|
                #![trigger out.marked(a, b)]
                out0.marked(a, b) ==> out.marked(a, b),
            forall|a: int, b: int|
                #![trigger out.marked(a, b)]
                out.marked(a, b) ==> (out0.marked(a, b) || (rect.contains(a, b) && dist2(
                    a,
                    b,
                    cx as int,
                    cy as int,
                ) <= radius * radius)),
        decreases radius + 1 - dist,
    {
        let dy: i32 = -dist;
        let mut dx: i32 = -dist;
        let mut span_done = false;
        while dx <= 0 && !span_done
            invariant
                t.wf(),
                out.wf(),
                out.width == t.width,
                out.height == t.height,
                rect.wf(t.width as int, t.height as int),
                1 <= radius <= 1024,
                1 <= row <= radius + 1,
                row <= dist <= radius,
                dy == -dist,
                -dist <= dx <= 1,
                -2000000 <= cx <= 2000000,
                -2000000 <= cy <= 2000000,
                -4000 <= start_n <= 4000,
                1 <= start_d <= 4000,
                -4000 <= new_start_n <= 4000,
                1 <= new_start_d <= 4000,
                -4000 <= end_num <= 4000,
                1 <= end_den <= 4000,
                -1 <= xx <= 1,
                -1 <= xy <= 1,
                -1 <= yx <= 1,
                -1 <= yy <= 1,
                xx * xy == 0,
                yx * yy == 0,
                xx * xx + xy * xy == 1,
                yx * yx + yy * yy == 1,
                xx * yx == 0,
                xy * yy == 0,
                hyp == (row == 1 && start_num == 1 && start_den == 1 && end_num == 0 && end_den
                    == 1 && open_around(*t, cx as int, cy as int, radius as int)),
                hyp ==> !blocked && start_n == 1 && start_d == 1 && !span_done,
                hyp ==> forall|a: int, b: int|
                    #![trigger out.marked(a, b)]
                    t.in_bounds(a, b) && rect.contains(a, b) && octant_reaches(
                        a - cx,
                        b - cy,
                        xx as int,
                        xy as int,
                        yx as int,
                        yy as int,
                        radius as int,
                    ) && ({
                        let duu = (a - cx) * xx + (b - cy) * yx;
                        let dvv = -((a - cx) * xy + (b - cy) * yy);
                        dvv < dist || (dvv == dist && duu < dx)
                    }) ==> out.marked(a, b),
                forall|a: int, b: int|
                    #![trigger out.marked(a, b)]
                    out0.marked(a, b) ==> out.marked(a, b),
                forall|a: int, b: int|
                    #![trigger out.marked(a, b)]
                    out.marked(a, b) ==> (out0.marked(a, b) || (rect.contains(a, b) && dist2(
                        a,
                        b,
                        cx as int,
                        cy as int,
                    ) <= radius * radius)),
            decreases (if span_done { 0int } else { 1int }), 1 - dx,
        {
            let ghost opre = *out;
            proof {
                assert(-1024 <= dx * xx <= 1024 && -1024 <= dy * xy <= 1024 && -1024 <= dx * yx
                    <= 1024 && -1024 <= dy * yy <= 1024) by (nonlinear_arith)
                    requires
                        -1024 <= dx <= 1024,
                        -1024 <= dy <= 1024,
                        -1 <= xx <= 1,
                        -1 <= xy <= 1,
                        -1 <= yx <= 1,
                        -1 <= yy <= 1;
            }
            let tx = cx + dx * xx + dy * xy;
            let ty = cy + dx * yx + dy * yy;
            proof {
                // the scanned cell stays inside the Chebyshev square
                assert(-dist <= dx * xx + dy * xy <= dist && -dist <= dx * yx + dy * yy <= dist)
                    by (nonlinear_arith)
                    requires
                        -dist <= dx <= 0,
                        dy == -dist,
                        0 <= dist,
                        -1 <= xx <= 1,
                        -1 <= xy <= 1,
                        -1 <= yx <= 1,
                        -1 <= yy <= 1,
                        xx * xy == 0,
                        yx * yy == 0,
                        xx * xx + xy * xy == 1,
                        yx * yx + yy * yy == 1;
            }
            let l_num = 1 - 2 * dx;
            let l_den = 2 * dist - 1;
            let r_num = (0 - 2 * dx) - 1;
            let r_den = 2 * dist + 1;
            if slope_gt(r_num, r_den, start_n, start_d) {
                // the tile lies strictly right of the start slope
                proof {
                    if hyp {
                        assert(false);
                    }
                }
            } else if slope_lt(l_num, l_den, end_num, end_den) {
                // the tile lies strictly left of the end slope: span over
                span_done = true;
            } else {
                if tx >= 0 && ty >= 0 && tx < t.width as i32 && ty < t.height as i32 {
                    proof {
                        assert(0 <= dx * dx <= 1024 * 1024 && 0 <= dy * dy <= 1024 * 1024)
                            by (nonlinear_arith)
                            requires -1024 <= dx <= 1024 && -1024 <= dy <= 1024;
                        assert(radius * radius <= 1024 * 1024) by (nonlinear_arith)
                            requires 0 <= radius <= 1024;
                        assert((dx * xx + dy * xy) * (dx * xx + dy * xy) + (dx * yx + dy * yy) * (dx
                            * yx + dy * yy) == dx * dx + dy * dy) by (nonlinear_arith)
                            requires
                                xx * xy == 0,
                                yx * yy == 0,
                                xx * xx + xy * xy == 1,
                                yx * yx + yy * yy == 1,
                                xx * yx == 0,
                                xy * yy == 0;
                    }
                    if dx * dx + dy * dy <= radius * radius && rect.contains_tile(tx, ty) {
                        out.insert(tx as usize, ty as usize);
                        proof {
                            assert(dist2(tx as int, ty as int, cx as int, cy as int) == dx * dx + dy
                                * dy);
                        }
                    }
                    let tl = t.get_tile(tx as usize, ty as usize);
                    let opaque = solid_kind(tl.kind);
                    proof {
                        if hyp {
                            assert(t.kind_at(tx as int, ty as int) == tl.kind);
                            assert(!is_solid_kind(t.kind_at(tx as int, ty as int)));
                            assert(!opaque);
                        }
                    }
                    if blocked {
                        proof {
                            if hyp {
                                assert(false);
                            }
                        }
                        if opaque {
                            new_start_n = r_num;
                            new_start_d = r_den;
                        } else {
                            blocked = false;
                            start_n = new_start_n;
                            start_d = new_start_d;
                        }
                    } else if opaque {
                        blocked = true;
                        cast_light(
                            t,
                            out,
                            rect,
                            cx,
                            cy,
                            dist + 1,
                            start_n,
                            start_d,
                            l_num,
                            l_den,
                            radius,
                            xx,
                            xy,
                            yx,
                            yy,
                        );
                        new_start_n = r_num;
                        new_start_d = r_den;
                    }
                }
            }
            proof {
                if hyp {
                    assert forall|a: int, b: int|
                        #![trigger out.marked(a, b)]
                        t.in_bounds(a, b) && rect.contains(a, b) && octant_reaches(
                            a - cx,
                            b - cy,
                            xx as int,
                            xy as int,
                            yx as int,
                            yy as int,
                            radius as int,
                        ) && ({
                            let duu = (a - cx) * xx + (b - cy) * yx;
                            let dvv = -((a - cx) * xy + (b - cy) * yy);
                            dvv < dist || (dvv == dist && duu <= dx)
                        }) implies out.marked(a, b) by {
                        let duu = (a - cx) * xx + (b - cy) * yx;
                        let dvv = -((a - cx) * xy + (b - cy) * yy);
                        if dvv == dist && duu == dx {
                            assert(a - cx == duu * xx - dvv * xy && b - cy == duu * yx - dvv * yy)
                                by (nonlinear_arith)
                                requires
                                    duu == (a - cx) * xx + (b - cy) * yx,
                                    dvv == -((a - cx) * xy + (b - cy) * yy),
                                    xx * xy == 0,
                                    yx * yy == 0,
                                    xx * xx + xy * xy == 1,
                                    yx * yx + yy * yy == 1,
                                    xx * yx == 0,
                                    xy * yy == 0;
                            assert(a - cx == dx * xx + dy * xy && b - cy == dx * yx + dy * yy)
                                by (nonlinear_arith)
                                requires
                                    duu == dx,
                                    dvv == dist,
                                    dy == -dist,
                                    a - cx == duu * xx - dvv * xy,
                                    b - cy == duu * yx - dvv * yy;
                            assert(a == tx && b == ty);
                            assert(duu * duu + dvv * dvv <= radius * radius);
                            assert(dx * dx + dy * dy == duu * duu + dvv * dvv)
                                by (nonlinear_arith)
                                requires duu == dx, dvv == dist, dy == -dist;
                            assert(out.marked(a, b));
                        } else {
                            assert(opre.marked(a, b));
                        }
                    }
                }
            }
            if !span_done {
                dx = dx + 1;
            }
        }
        proof {
            if hyp {
                assert forall|a: int, b: int|
                    #![trigger out.marked(a, b)]
                    t.in_bounds(a, b) && rect.contains(a, b) && octant_reaches(
                        a - cx,
                        b - cy,
                        xx as int,
                        xy as int,
                        yx as int,
                        yy as int,
                        radius as int,
                    ) && -((a - cx) * xy + (b - cy) * yy) < dist + 1 implies out.marked(a, b) by {
                    let duu = (a - cx) * xx + (b - cy) * yx;
                    let dvv = -((a - cx) * xy + (b - cy) * yy);
                    assert(duu <= 0);
                }
            }
        }
        dist = dist + 1;
    }
    proof {
        if hyp {
            assert(dist == radius + 1);
        }
    }
}

/// Run shadowcasting over all eight octants around the viewer and insert
/// the viewer's own tile: afterwards every newly lit tile lies in the
/// active rectangle and within squared distance `radius * radius` of the
/// viewer — the radius bound of the visibility engine.
pub fn shadowcast(
    t: &Terrain,
    out: &mut VisibleTiles,
    rect: ActiveRect,
    px: i32,
    py: i32,
    radius: i32,
)
    requires
        t.wf(),
        old(out).wf(),
        old(out).width == t.width,
        old(out).height == t.height,
        rect.wf(t.width as int, t.height as int),
        1 <= radius <= 1024,
        -2000000 <= px <= 2000000,
        -2000000 <= py <= 2000000,
    ensures
        final(out).wf(),
        final(out).width == old(out).width,
        final(out).height == old(out).height,
        forall|a: int, b: int|
            #![trigger final(out).marked(a, b)]
            old(out).marked(a, b) ==> final(out).marked(a, b),
        forall|a: int, b: int|
            #![trigger final(out).marked(a, b)]
            final(out).marked(a, b) ==> (old(out).marked(a, b) || (rect.contains(a, b) && dist2(
                a,
                b,
                px as int,
                py as int,
            ) <= radius * radius)),
        rect.contains(px as int, py as int) ==> final(out).marked(px as int, py as int),
        open_around(*t, px as int, py as int, radius as int) ==> forall|a: int, b: int|
            #![trigger final(out).marked(a, b)]
            t.in_bounds(a, b) && rect.contains(a, b) && dist2(a, b, px as int, py as int) <= radius
                * radius ==> final(out).marked(a, b),
{
    cast_light(t, out, rect, px, py, 1, 1, 1, 0, 1, radius, 1, 0, 0, 1);
    let ghost o1 = *out;
    cast_light(t, out, rect, px, py, 1, 1, 1, 0, 1, radius, 0, 1, 1, 0);
    let ghost o2 = *out;
    cast_light(t, out, rect, px, py, 1, 1, 1, 0, 1, radius, 0, -1, 1, 0);
    let ghost o3 = *out;
    cast_light(t, out, rect, px, py, 1, 1, 1, 0, 1, radius, -1, 0, 0, 1);
    let ghost o4 = *out;
    cast_light(t, out, rect, px, py, 1, 1, 1, 0, 1, radius, -1, 0, 0, -1);
    let ghost o5 = *out;
    cast_light(t, out, rect, px, py, 1, 1, 1, 0, 1, radius, 0, -1, -1, 0);
    let ghost o6 = *out;
    cast_light(t, out, rect, px, py, 1, 1, 1, 0, 1, radius, 0, 1, -1, 0);
    let ghost o7 = *out;
    cast_light(t, out, rect, px, py, 1, 1, 1, 0, 1, radius, 1, 0, 0, -1);
    let ghost o8 = *out;
    if rect.contains_tile(px, py) {
        out.insert(px as usize, py as usize);
        proof {
            assert(dist2(px as int, py as int, px as int, py as int) == 0);
        }
    }
    proof {
        if open_around(*t, px as int, py as int, radius as int) {
            assert forall|a: int, b: int|
                #![trigger out.marked(a, b)]
                t.in_bounds(a, b) && rect.contains(a, b) && dist2(a, b, px as int, py as int)
                    <= radius * radius implies out.marked(a, b) by {
                let ox = a - px;
                let oy = b - py;
                assert(ox * ox + oy * oy <= radius * radius);
                assert(-radius <= ox <= radius && -radius <= oy <= radius) by (nonlinear_arith)
                    requires ox * ox + oy * oy <= radius * radius && 0 <= radius;
                assert((-ox) * (-ox) == ox * ox && (-oy) * (-oy) == oy * oy) by (nonlinear_arith);
                if ox == 0 && oy == 0 {
                    assert(out.marked(px as int, py as int));
                } else if oy < 0 && ox <= 0 && ox >= oy {
                    assert(octant_reaches(ox, oy, 1, 0, 0, 1, radius as int));
                    assert(o1.marked(a, b));
                } else if oy < 0 && ox >= 0 && ox <= -oy {
                    assert(octant_reaches(ox, oy, -1, 0, 0, 1, radius as int));
                    assert(o4.marked(a, b));
                } else if ox < 0 && oy <= 0 && oy >= ox {
                    assert(octant_reaches(ox, oy, 0, 1, 1, 0, radius as int));
                    assert(o2.marked(a, b));
                } else if ox < 0 && oy >= 0 && oy <= -ox {
                    assert(octant_reaches(ox, oy, 0, 1, -1, 0, radius as int));
                    assert(o7.marked(a, b));
                } else if ox > 0 && oy <= 0 && oy >= -ox {
                    assert(octant_reaches(ox, oy, 0, -1, 1, 0, radius as int));
                    assert(o3.marked(a, b));
                } else if ox > 0 && oy >= 0 && oy <= ox {
                    assert(octant_reaches(ox, oy, 0, -1, -1, 0, radius as int));
                    assert(o6.marked(a, b));
                } else if oy > 0 && ox <= 0 && ox >= -oy {
                    assert(octant_reaches(ox, oy, 1, 0, 0, -1, radius as int));
                    assert(o8.marked(a, b));
                } else {
                    assert(oy > 0 && ox >= 0 && ox <= oy);
                    assert(octant_reaches(ox, oy, -1, 0, 0, -1, radius as int));
                    assert(o5.marked(a, b));
                }
                if o1.marked(a, b) {
                    assert(o2.marked(a, b));
                }
                if o2.marked(a, b) {
                    assert(o3.marked(a, b));
                }
                if o3.marked(a, b) {
                    assert(o4.marked(a, b));
                }
                if o4.marked(a, b) {
                    assert(o5.marked(a, b));
                }
                if o5.marked(a, b) {
                    assert(o6.marked(a, b));
                }
                if o6.marked(a, b) {
                    assert(o7.marked(a, b));
                }
                if o7.marked(a, b) {
                    assert(o8.marked(a, b));
                }
                if o8.marked(a, b) {
                    assert(out.marked(a, b));
                }
            }
        }
    }
}

/// `(x, y)` occurs in `q` at a position in `[lo, hi)`.
pub open spec fn coords_has(q: Seq<(usize, usize)>, lo: int, hi: int, x: int, y: int) -> bool {
    exists|k: int| lo <= k < hi && (#[trigger] q[k]) == ((x as usize), (y as usize))
}

/// `(x, y)` lies in the always-lit band of rows at or above the surface
/// of its column, extended `ALWAYS_VISIBLE_DEPTH` rows down.
pub open spec fn within_surface_band(t: Terrain, x: int, y: int) -> bool {
    0 <= x < t.width && 0 <= y <= t.height_map@[x] + ALWAYS_VISIBLE_DEPTH
}

/// Moving at most 2 tiles on each axis from a point within radius `r`
/// stays within radius `r + 3`.
proof fn lemma_bleed_bound(u: int, v: int, bx: int, by: int, r: int)
    requires
        u * u + v * v <= r * r,
        -2 <= bx <= 2,
        -2 <= by <= 2,
        1 <= r,
    ensures
        (u + bx) * (u + bx) + (v + by) * (v + by) <= (r + 3) * (r + 3),
{
    let su = if u >= 0 { u } else { -u };
    let sv = if v >= 0 { v } else { -v };
    assert((su + sv) * (su + sv) <= 2 * (r * r)) by (nonlinear_arith)
        requires
            u * u + v * v <= r * r,
            su == (if u >= 0 { u } else { -u }),
            sv == (if v >= 0 { v } else { -v });
    assert(2 * (su + sv) <= 3 * r) by (nonlinear_arith)
        requires
            (su + sv) * (su + sv) <= 2 * (r * r),
            0 <= su,
            0 <= sv,
            1 <= r;
    assert((u + bx) * (u + bx) == u * u + 2 * u * bx + bx * bx && (v + by) * (v + by) == v * v + 2
        * v * by + by * by && (r + 3) * (r + 3) == r * r + 6 * r + 9) by (nonlinear_arith);
    assert(2 * u * bx <= 4 * su && 2 * v * by <= 4 * sv && bx * bx <= 4 && by * by <= 4)
        by (nonlinear_arith)
        requires
            su == (if u >= 0 { u } else { -u }),
            sv == (if v >= 0 { v } else { -v }),
            -2 <= bx <= 2,
            -2 <= by <= 2;
}

/// Recompute the visible-tile set for a viewer at tile `(px, py)`.
///
/// Runs eight-octant shadowcasting into the scratch set, applies the
/// soft light bleed, force-includes the surface band across the active
/// rectangle, clamps everything to that rectangle, then diffs the new
/// set against the old one: each dropped tile has `visible` cleared,
/// each newly lit tile has `visible` set and `explored` permanently set,
/// and both kinds of change are queued for redraw.  The old set's
/// storage is kept as the next call's scratch buffer.
///
/// `explored` never reverts: every cell explored before stays explored.
pub fn recompute_fov(
    t: &mut Terrain,
    vis: &mut VisibleTiles,
    scratch: &mut VisibleTiles,
    rect: ActiveRect,
    px: i32,
    py: i32,
    radius: i32,
)
    requires
        old(t).wf(),
        old(vis).wf(),
        old(vis).width == old(t).width,
        old(vis).height == old(t).height,
        old(scratch).wf(),
        old(scratch).width == old(t).width,
        old(scratch).height == old(t).height,
        rect.wf(old(t).width as int, old(t).height as int),
        1 <= radius <= 1024,
        -2000000 <= px <= 2000000,
        -2000000 <= py <= 2000000,
        forall|i: int, j: int|
            old(t).in_bounds(i, j) ==> (#[trigger] old(t).tile_at(i, j)).visible == old(
                vis,
            ).marked(i, j),
        forall|i: int, j: int|
            old(t).in_bounds(i, j) && old(vis).marked(i, j) ==> (#[trigger] old(t).tile_at(
                i,
                j,
            )).explored,
    ensures
        final(t).wf(),
        same_dims(*old(t), *final(t)),
        final(vis).wf(),
        final(vis).width == final(t).width,
        final(vis).height == final(t).height,
        final(scratch).wf(),
        final(scratch).width == final(t).width,
        final(scratch).height == final(t).height,
        final(scratch).coords@.len() == 0,
        forall|i: int, j: int|
            old(t).in_bounds(i, j) ==> #[trigger] final(t).tile_at(i, j) == ({
                let tl = old(t).tile_at(i, j);
                Tile {
                    kind: tl.kind,
                    visible: final(vis).marked(i, j),
                    explored: tl.explored || final(vis).marked(i, j),
                    mine_time: tl.mine_time,
                    shade: tl.shade,
                    base_rgb: tl.base_rgb,
                }
            }),
        forall|i: int, j: int|
            old(t).in_bounds(i, j) && (#[trigger] old(t).tile_at(i, j)).explored
                ==> final(t).tile_at(i, j).explored,
        forall|a: int, b: int|
            #![trigger final(vis).marked(a, b)]
            final(vis).marked(a, b) ==> rect.contains(a, b),
        forall|a: int, b: int|
            #![trigger final(vis).marked(a, b)]
            final(vis).marked(a, b) ==> (dist2(a, b, px as int, py as int) <= (radius + 3) * (radius
                + 3) || within_surface_band(*old(t), a, b)),
        rect.contains(px as int, py as int) ==> final(vis).marked(px as int, py as int),
        forall|a: int, b: int|
            #![trigger final(vis).marked(a, b)]
            old(t).in_bounds(a, b) && rect.contains(a, b) && within_surface_band(*old(t), a, b)
                ==> final(vis).marked(a, b),
        open_around(*old(t), px as int, py as int, radius as int) ==> forall|a: int, b: int|
            #![trigger final(vis).marked(a, b)]
            old(t).in_bounds(a, b) && rect.contains(a, b) && dist2(a, b, px as int, py as int)
                <= radius * radius ==> final(vis).marked(a, b),
        old(t).changed_tiles@.is_prefix_of(final(t).changed_tiles@),
        forall|k: int|
            old(t).changed_tiles@.len() <= k < final(t).changed_tiles@.len() ==> {
                let c = #[trigger] final(t).changed_tiles@[k];
                old(vis).marked(c.0 as int, c.1 as int) != final(vis).marked(c.0 as int, c.1 as int)
            },
        forall|i: int, j: int|
            #![trigger old(vis).marked(i, j), final(vis).marked(i, j)]
            old(t).in_bounds(i, j) && old(vis).marked(i, j) != final(vis).marked(i, j)
                ==> coords_has(
                final(t).changed_tiles@,
                old(t).changed_tiles@.len() as int,
                final(t).changed_tiles@.len() as int,
                i,
                j,
            ),
        forall|k: int, l: int|
            old(t).changed_tiles@.len() <= k < l < final(t).changed_tiles@.len()
                ==> #[trigger] final(t).changed_tiles@[k] != #[trigger] final(t).changed_tiles@[l],
{
    let ghost t0 = *t;
    let ghost vis0 = *vis;
    let ghost q0 = t0.changed_tiles@.len() as int;
    scratch.clear();
    shadowcast(t, scratch, rect, px, py, radius);
    let ghost score = *scratch;
    proof {
        assert(radius * radius <= (radius + 3) * (radius + 3)) by (nonlinear_arith)
            requires 1 <= radius;
        assert forall|a: int, b: int|
            #![trigger score.marked(a, b)]
            score.marked(a, b) implies rect.contains(a, b) && dist2(a, b, px as int, py as int)
            <= radius * radius by {}
        assert forall|a: int, b: int|
            #![trigger scratch.marked(a, b)]
            scratch.marked(a, b) implies rect.contains(a, b) && dist2(a, b, px as int, py as int)
            <= (radius + 3) * (radius + 3) by {
            assert(score.marked(a, b));
        }
    }
    // soft light bleed around every core-visible tile
    let n0 = scratch.len();
    let mut k: usize = 0;
    while k < n0
        invariant
            *t == t0,
            t0.wf(),
            scratch.wf(),
            scratch.width == t0.width,
            scratch.height == t0.height,
            rect.wf(t0.width as int, t0.height as int),
            1 <= radius <= 1024,
            -2000000 <= px <= 2000000,
            -2000000 <= py <= 2000000,
            k <= n0,
            n0 == score.coords@.len(),
            n0 <= scratch.coords@.len(),
            score.wf(),
            score.coords@.is_prefix_of(scratch.coords@),
            forall|a: int, b: int|
                #![trigger score.marked(a, b)]
                score.marked(a, b) ==> rect.contains(a, b) && dist2(a, b, px as int, py as int)
                    <= radius * radius,
            forall|a: int, b: int|
                #![trigger scratch.marked(a, b)]
                scratch.marked(a, b) ==> rect.contains(a, b) && dist2(a, b, px as int, py as int)
                    <= (radius + 3) * (radius + 3),
        decreases n0 - k,
    {
        let c = scratch.coord(k);
        proof {
            assert(scratch.coords@[k as int] == score.coords@[k as int]);
            assert(score.marked(c.0 as int, c.1 as int));
        }
        let sx = c.0 as i32;
        let sy = c.1 as i32;
        let mut by: i32 = -LIGHT_BLEED_RADIUS;
        while by <= LIGHT_BLEED_RADIUS
            invariant
                *t == t0,
                t0.wf(),
                scratch.wf(),
                scratch.width == t0.width,
                scratch.height == t0.height,
                rect.wf(t0.width as int, t0.height as int),
                1 <= radius <= 1024,
                -2000000 <= px <= 2000000,
                -2000000 <= py <= 2000000,
                -LIGHT_BLEED_RADIUS <= by <= LIGHT_BLEED_RADIUS + 1,
                0 <= sx < t0.width,
                0 <= sy < t0.height,
                rect.contains(sx as int, sy as int),
                dist2(sx as int, sy as int, px as int, py as int) <= radius * radius,
                n0 == score.coords@.len(),
                n0 <= scratch.coords@.len(),
                score.wf(),
                score.coords@.is_prefix_of(scratch.coords@),
                forall|a: int, b: int|
                    #![trigger score.marked(a, b)]
                    score.marked(a, b) ==> rect.contains(a, b) && dist2(a, b, px as int, py as int)
                        <= radius * radius,
                forall|a: int, b: int|
                    #![trigger scratch.marked(a, b)]
                    scratch.marked(a, b) ==> rect.contains(a, b) && dist2(
                        a,
                        b,
                        px as int,
                        py as int,
                    ) <= (radius + 3) * (radius + 3),
            decreases LIGHT_BLEED_RADIUS + 1 - by,
        {
            let mut bx: i32 = -LIGHT_BLEED_RADIUS;
            while bx <= LIGHT_BLEED_RADIUS
                invariant
                    *t == t0,
                    t0.wf(),
                    scratch.wf(),
                    scratch.width == t0.width,
                    scratch.height == t0.height,
                    rect.wf(t0.width as int, t0.height as int),
                    1 <= radius <= 1024,
                    -2000000 <= px <= 2000000,
                    -2000000 <= py <= 2000000,
                    -LIGHT_BLEED_RADIUS <= by <= LIGHT_BLEED_RADIUS,
                    -LIGHT_BLEED_RADIUS <= bx <= LIGHT_BLEED_RADIUS + 1,
                    0 <= sx < t0.width,
                    0 <= sy < t0.height,
                    rect.contains(sx as int, sy as int),
                    dist2(sx as int, sy as int, px as int, py as int) <= radius * radius,
                    n0 == score.coords@.len(),
                    n0 <= scratch.coords@.len(),
                    score.wf(),
                    score.coords@.is_prefix_of(scratch.coords@),
                    forall|a: int, b: int|
                        #![trigger score.marked(a, b)]
                        score.marked(a, b) ==> rect.contains(a, b) && dist2(
                            a,
                            b,
                            px as int,
                            py as int,
                        ) <= radius * radius,
                    forall|a: int, b: int|
                        #![trigger scratch.marked(a, b)]
                        scratch.marked(a, b) ==> rect.contains(a, b) && dist2(
                            a,
                            b,
                            px as int,
                            py as int,
                        ) <= (radius + 3) * (radius + 3),
                decreases LIGHT_BLEED_RADIUS + 1 - bx,
            {
                let nx = sx + bx;
                let ny = sy + by;
                if rect.contains_tile(nx, ny) {
                    let ghost spre = scratch.coords@;
                    proof {
                        lemma_bleed_bound(
                            sx - px as int,
                            sy - py as int,
                            bx as int,
                            by as int,
                            radius as int,
                        );
                    }
                    scratch.insert(nx as usize, ny as usize);
                    proof {
                        lemma_prefix_trans(score.coords@, spre, scratch.coords@);
                    }
                }
                bx = bx + 1;
            }
            by = by + 1;
        }
        k = k + 1;
    }
    // the always-lit surface band across the active window
    proof {
        assert forall|a: int, b: int|
            #![trigger scratch.marked(a, b)]
            score.marked(a, b) implies scratch.marked(a, b) by {
            let k = choose|k: int|
                0 <= k < score.coords@.len() && #[trigger] score.coords@[k] == (
                (a as usize),
                (b as usize),
                );
            assert(scratch.coords@[k] == ((a as usize), (b as usize)));
        }
    }
    let mut bandx: i32 = rect.min_x;
    while bandx <= rect.max_x
        invariant
            *t == t0,
            t0.wf(),
            scratch.wf(),
            scratch.width == t0.width,
            scratch.height == t0.height,
            rect.wf(t0.width as int, t0.height as int),
            1 <= radius <= 1024,
            -2000000 <= px <= 2000000,
            -2000000 <= py <= 2000000,
            rect.min_x <= bandx <= rect.max_x + 1,
            forall|a: int, b: int|
                #![trigger scratch.marked(a, b)]
                scratch.marked(a, b) ==> rect.contains(a, b) && (dist2(a, b, px as int, py as int)
                    <= (radius + 3) * (radius + 3) || within_surface_band(t0, a, b)),
            forall|a: int, b: int|
                #![trigger scratch.marked(a, b)]
                score.marked(a, b) ==> scratch.marked(a, b),
            forall|a: int, b: int|
                #![trigger scratch.marked(a, b)]
                rect.contains(a, b) && within_surface_band(t0, a, b) && t0.in_bounds(a, b) && a
                    < bandx ==> scratch.marked(a, b),
        decreases rect.max_x + 1 - bandx,
    {
        let ground = t.height_map[bandx as usize];
        let max_surf: usize = if ground + ALWAYS_VISIBLE_DEPTH >= t.height {
            t.height - 1
        } else {
            ground + ALWAYS_VISIBLE_DEPTH
        };
        let y_hi: i32 = if max_surf as i32 > rect.max_y {
            rect.max_y
        } else {
            max_surf as i32
        };
        let mut yb: i32 = rect.min_y;
        while yb <= y_hi
            invariant
                *t == t0,
                t0.wf(),
                scratch.wf(),
                scratch.width == t0.width,
                scratch.height == t0.height,
                rect.wf(t0.width as int, t0.height as int),
                1 <= radius <= 1024,
                -2000000 <= px <= 2000000,
                -2000000 <= py <= 2000000,
                rect.min_x <= bandx <= rect.max_x,
                rect.min_y <= yb,
                y_hi <= rect.max_y,
                y_hi <= t0.height_map@[bandx as int] + ALWAYS_VISIBLE_DEPTH,
                y_hi == rect.max_y || y_hi == t0.height_map@[bandx as int] + ALWAYS_VISIBLE_DEPTH
                    || y_hi == t0.height - 1,
                forall|a: int, b: int|
                    #![trigger scratch.marked(a, b)]
                    scratch.marked(a, b) ==> rect.contains(a, b) && (dist2(
                        a,
                        b,
                        px as int,
                        py as int,
                    ) <= (radius + 3) * (radius + 3) || within_surface_band(t0, a, b)),
                forall|a: int, b: int|
                    #![trigger scratch.marked(a, b)]
                    score.marked(a, b) ==> scratch.marked(a, b),
                forall|a: int, b: int|
                    #![trigger scratch.marked(a, b)]
                    rect.contains(a, b) && within_surface_band(t0, a, b) && t0.in_bounds(a, b) && a
                        < bandx ==> scratch.marked(a, b),
                forall|b: int|
                    #![trigger scratch.marked(bandx as int, b)]
                    rect.min_y <= b < yb ==> scratch.marked(bandx as int, b),
            decreases y_hi + 1 - yb,
        {
            scratch.insert(bandx as usize, yb as usize);
            yb = yb + 1;
        }
        proof {
            assert forall|a: int, b: int|
                #![trigger scratch.marked(a, b)]
                rect.contains(a, b) && within_surface_band(t0, a, b) && t0.in_bounds(a, b) && a
                    < bandx + 1 implies scratch.marked(a, b) by {
                if a == bandx as int {
                    assert(b <= y_hi);
                    assert(scratch.marked(bandx as int, b));
                }
            }
        }
        bandx = bandx + 1;
    }
    let ghost snew = *scratch;
    proof {
        assert forall|a: int, b: int|
            #![trigger snew.marked(a, b)]
            t0.in_bounds(a, b) && rect.contains(a, b) && within_surface_band(t0, a, b)
                implies snew.marked(a, b) by {}
        if rect.contains(px as int, py as int) {
            assert(score.marked(px as int, py as int));
            assert(snew.marked(px as int, py as int));
        }
        if open_around(t0, px as int, py as int, radius as int) {
            assert forall|a: int, b: int|
                #![trigger snew.marked(a, b)]
                t0.in_bounds(a, b) && rect.contains(a, b) && dist2(a, b, px as int, py as int)
                    <= radius * radius implies snew.marked(a, b) by {
                assert(score.marked(a, b));
            }
        }
    }
    // diff: tiles that dropped out of view
    let m0 = vis.len();
    let mut k2: usize = 0;
    while k2 < m0
        invariant
            t.wf(),
            same_dims(t0, *t),
            t0.wf(),
            *scratch == snew,
            *vis == vis0,
            vis0.wf(),
            snew.wf(),
            vis0.width == t0.width,
            vis0.height == t0.height,
            snew.width == t0.width,
            snew.height == t0.height,
            k2 <= m0,
            m0 == vis0.coords@.len(),
            q0 == t0.changed_tiles@.len(),
            t0.changed_tiles@.is_prefix_of(t.changed_tiles@),
            forall|i: int, j: int|
                t0.in_bounds(i, j) ==> (#[trigger] t0.tile_at(i, j)).visible == vis0.marked(i, j),
            forall|i: int, j: int|
                t0.in_bounds(i, j) && vis0.marked(i, j) ==> (#[trigger] t0.tile_at(i, j)).explored,
            forall|i: int, j: int|
                #![trigger t.tile_at(i, j)]
                t0.in_bounds(i, j) ==> {
                    if coords_has(vis0.coords@, 0, k2 as int, i, j) {
                        t.tile_at(i, j) == ({
                            let tl = t0.tile_at(i, j);
                            Tile {
                                kind: tl.kind,
                                visible: vis0.marked(i, j) && snew.marked(i, j),
                                explored: tl.explored,
                                mine_time: tl.mine_time,
                                shade: tl.shade,
                                base_rgb: tl.base_rgb,
                            }
                        })
                    } else {
                        t.tile_at(i, j) == t0.tile_at(i, j)
                    }
                },
            forall|k3: int|
                q0 <= k3 < t.changed_tiles@.len() ==> {
                    let c = #[trigger] t.changed_tiles@[k3];
                    vis0.marked(c.0 as int, c.1 as int) && !snew.marked(c.0 as int, c.1 as int)
                },
            forall|i: int, j: int|
                #![trigger vis0.marked(i, j), snew.marked(i, j)]
                t0.in_bounds(i, j) && coords_has(vis0.coords@, 0, k2 as int, i, j) && vis0.marked(
                    i,
                    j,
                ) && !snew.marked(i, j) ==> coords_has(
                    t.changed_tiles@,
                    q0,
                    t.changed_tiles@.len() as int,
                    i,
                    j,
                ),
            forall|m: int|
                #![trigger t.changed_tiles@[m]]
                q0 <= m < t.changed_tiles@.len() ==> exists|kk: int|
                    0 <= kk < k2 && #[trigger] vis0.coords@[kk] == t.changed_tiles@[m],
            forall|m: int, m2: int|
                q0 <= m < m2 < t.changed_tiles@.len() ==> #[trigger] t.changed_tiles@[m]
                    != #[trigger] t.changed_tiles@[m2],
        decreases m0 - k2,
    {
        let c = vis.coord(k2);
        let ghost tpre = *t;
        if !scratch.contains(c.0 as i32, c.1 as i32) {
            let tl = t.get_tile(c.0, c.1);
            t.changed_tiles.push((c.0, c.1));
            t.set_visibility(c.0, c.1, false, tl.explored);
        }
        proof {
            let cc = vis0.coords@[k2 as int];
            assert(vis0.marked(cc.0 as int, cc.1 as int));
            assert forall|i: int, j: int|
                #![trigger t.tile_at(i, j)]
                t0.in_bounds(i, j) implies {
                if coords_has(vis0.coords@, 0, k2 + 1, i, j) {
                    t.tile_at(i, j) == ({
                        let tl = t0.tile_at(i, j);
                        Tile {
                            kind: tl.kind,
                            visible: vis0.marked(i, j) && snew.marked(i, j),
                            explored: tl.explored,
                            mine_time: tl.mine_time,
                            shade: tl.shade,
                            base_rgb: tl.base_rgb,
                        }
                    })
                } else {
                    t.tile_at(i, j) == t0.tile_at(i, j)
                }
            } by {
                if i == cc.0 as int && j == cc.1 as int {
                    assert(coords_has(vis0.coords@, 0, k2 + 1, i, j)) by {
                        assert(vis0.coords@[k2 as int] == ((i as usize), (j as usize)));
                    }
                    assert(!coords_has(vis0.coords@, 0, k2 as int, i, j)) by {
                        if coords_has(vis0.coords@, 0, k2 as int, i, j) {
                            let kw = choose|kw: int|
                                0 <= kw < k2 && (#[trigger] vis0.coords@[kw]) == (
                                (i as usize),
                                (j as usize),
                                );
                            assert(vis0.coords@[kw] == vis0.coords@[k2 as int]);
                            assert(false);
                        }
                    }
                } else {
                    if coords_has(vis0.coords@, 0, k2 + 1, i, j) {
                        let kw = choose|kw: int|
                            0 <= kw < k2 + 1 && (#[trigger] vis0.coords@[kw]) == (
                            (i as usize),
                            (j as usize),
                            );
                        if kw == k2 as int {
                            assert(false);
                        }
                        assert(coords_has(vis0.coords@, 0, k2 as int, i, j));
                    }
                    assert(t.tile_at(i, j) == tpre.tile_at(i, j));
                }
            }
            assert forall|i: int, j: int|
                #![trigger vis0.marked(i, j), snew.marked(i, j)]
                t0.in_bounds(i, j) && coords_has(vis0.coords@, 0, k2 + 1, i, j) && vis0.marked(i, j)
                    && !snew.marked(i, j) implies coords_has(
                t.changed_tiles@,
                q0,
                t.changed_tiles@.len() as int,
                i,
                j,
            ) by {
                if i == cc.0 as int && j == cc.1 as int {
                    assert(t.changed_tiles@[t.changed_tiles@.len() - 1] == (
                        (i as usize),
                        (j as usize),
                    ));
                } else {
                    let kw = choose|kw: int|
                        0 <= kw < k2 + 1 && (#[trigger] vis0.coords@[kw]) == (
                        (i as usize),
                        (j as usize),
                        );
                    if kw == k2 as int {
                        assert(false);
                    }
                    assert(coords_has(vis0.coords@, 0, k2 as int, i, j));
                    let kq = choose|kq: int|
                        q0 <= kq < tpre.changed_tiles@.len() && (#[trigger] tpre.changed_tiles@[kq])
                            == ((i as usize), (j as usize));
                    assert(t.changed_tiles@[kq] == ((i as usize), (j as usize)));
                }
            }
            assert forall|m: int|
                #![trigger t.changed_tiles@[m]]
                q0 <= m < t.changed_tiles@.len() implies exists|kk: int|
                0 <= kk < k2 + 1 && #[trigger] vis0.coords@[kk] == t.changed_tiles@[m] by {
                if m < tpre.changed_tiles@.len() {
                    let kk = choose|kk: int|
                        0 <= kk < k2 && #[trigger] vis0.coords@[kk] == tpre.changed_tiles@[m];
                    assert(t.changed_tiles@[m] == tpre.changed_tiles@[m]);
                    assert(vis0.coords@[kk] == t.changed_tiles@[m]);
                } else {
                    assert(t.changed_tiles@[m] == cc);
                    assert(vis0.coords@[k2 as int] == t.changed_tiles@[m]);
                }
            }
            assert forall|m: int, m2: int|
                q0 <= m < m2 < t.changed_tiles@.len() implies #[trigger] t.changed_tiles@[m]
                != #[trigger] t.changed_tiles@[m2] by {
                if m2 < tpre.changed_tiles@.len() {
                    assert(t.changed_tiles@[m] == tpre.changed_tiles@[m] && t.changed_tiles@[m2]
                        == tpre.changed_tiles@[m2]);
                } else {
                    let kk = choose|kk: int|
                        0 <= kk < k2 && #[trigger] vis0.coords@[kk] == tpre.changed_tiles@[m];
                    assert(t.changed_tiles@[m] == tpre.changed_tiles@[m]);
                    assert(t.changed_tiles@[m2] == vis0.coords@[k2 as int]);
                    assert(vis0.coords@[kk] != vis0.coords@[k2 as int]);
                }
            }
        }
        k2 = k2 + 1;
    }
    let ghost tmid = *t;
    proof {
        assert forall|i: int, j: int|
            #![trigger t.tile_at(i, j)]
            t0.in_bounds(i, j) implies t.tile_at(i, j) == ({
            let tl = t0.tile_at(i, j);
            Tile {
                kind: tl.kind,
                visible: vis0.marked(i, j) && snew.marked(i, j),
                explored: tl.explored,
                mine_time: tl.mine_time,
                shade: tl.shade,
                base_rgb: tl.base_rgb,
            }
        }) by {
            if vis0.marked(i, j) {
                assert(coords_has(vis0.coords@, 0, m0 as int, i, j));
            } else {
                if coords_has(vis0.coords@, 0, m0 as int, i, j) {
                    let kw = choose|kw: int|
                        0 <= kw < m0 && (#[trigger] vis0.coords@[kw]) == ((i as usize), (j as usize));
                    assert(vis0.marked(i, j));
                    assert(false);
                }
            }
        }
    }
    // diff: tiles newly in view
    let m1 = scratch.len();
    let mut k4: usize = 0;
    while k4 < m1
        invariant
            t.wf(),
            same_dims(t0, *t),
            t0.wf(),
            *scratch == snew,
            *vis == vis0,
            vis0.wf(),
            snew.wf(),
            vis0.width == t0.width,
            vis0.height == t0.height,
            snew.width == t0.width,
            snew.height == t0.height,
            k4 <= m1,
            m1 == snew.coords@.len(),
            q0 == t0.changed_tiles@.len(),
            t0.changed_tiles@.is_prefix_of(t.changed_tiles@),
            tmid.changed_tiles@.is_prefix_of(t.changed_tiles@),
            forall|i: int, j: int|
                t0.in_bounds(i, j) ==> (#[trigger] t0.tile_at(i, j)).visible == vis0.marked(i, j),
            forall|i: int, j: int|
                t0.in_bounds(i, j) && vis0.marked(i, j) ==> (#[trigger] t0.tile_at(i, j)).explored,
            forall|i: int, j: int|
                #![trigger t.tile_at(i, j)]
                t0.in_bounds(i, j) ==> {
                    if coords_has(snew.coords@, 0, k4 as int, i, j) {
                        t.tile_at(i, j) == ({
                            let tl = t0.tile_at(i, j);
                            Tile {
                                kind: tl.kind,
                                visible: snew.marked(i, j),
                                explored: tl.explored || snew.marked(i, j),
                                mine_time: tl.mine_time,
                                shade: tl.shade,
                                base_rgb: tl.base_rgb,
                            }
                        })
                    } else {
                        t.tile_at(i, j) == ({
                            let tl = t0.tile_at(i, j);
                            Tile {
                                kind: tl.kind,
                                visible: vis0.marked(i, j) && snew.marked(i, j),
                                explored: tl.explored,
                                mine_time: tl.mine_time,
                                shade: tl.shade,
                                base_rgb: tl.base_rgb,
                            }
                        })
                    }
                },
            forall|k3: int|
                q0 <= k3 < t.changed_tiles@.len() ==> {
                    let c = #[trigger] t.changed_tiles@[k3];
                    vis0.marked(c.0 as int, c.1 as int) != snew.marked(c.0 as int, c.1 as int)
                },
            forall|i: int, j: int|
                #![trigger vis0.marked(i, j), snew.marked(i, j)]
                t0.in_bounds(i, j) && vis0.marked(i, j) && !snew.marked(i, j) ==> coords_has(
                    t.changed_tiles@,
                    q0,
                    t.changed_tiles@.len() as int,
                    i,
                    j,
                ),
            forall|i: int, j: int|
                #![trigger vis0.marked(i, j), snew.marked(i, j)]
                t0.in_bounds(i, j) && coords_has(snew.coords@, 0, k4 as int, i, j) && !vis0.marked(
                    i,
                    j,
                ) && snew.marked(i, j) ==> coords_has(
                    t.changed_tiles@,
                    q0,
                    t.changed_tiles@.len() as int,
                    i,
                    j,
                ),
            forall|m: int|
                q0 <= m < t.changed_tiles@.len() ==> {
                    let c = #[trigger] t.changed_tiles@[m];
                    (vis0.marked(c.0 as int, c.1 as int) && !snew.marked(c.0 as int, c.1 as int))
                        || exists|kk: int| 0 <= kk < k4 && #[trigger] snew.coords@[kk] == c
                },
            forall|m: int, m2: int|
                q0 <= m < m2 < t.changed_tiles@.len() ==> #[trigger] t.changed_tiles@[m]
                    != #[trigger] t.changed_tiles@[m2],
        decreases m1 - k4,
    {
        let c = scratch.coord(k4);
        let ghost tpre = *t;
        if !vis.contains(c.0 as i32, c.1 as i32) {
            t.changed_tiles.push((c.0, c.1));
            t.set_visibility(c.0, c.1, true, true);
        }
        proof {
            let cc = snew.coords@[k4 as int];
            assert(snew.marked(cc.0 as int, cc.1 as int));
            lemma_prefix_trans(tmid.changed_tiles@, tpre.changed_tiles@, t.changed_tiles@);
            lemma_prefix_trans(t0.changed_tiles@, tpre.changed_tiles@, t.changed_tiles@);
            assert forall|i: int, j: int|
                #![trigger t.tile_at(i, j)]
                t0.in_bounds(i, j) implies {
                if coords_has(snew.coords@, 0, k4 + 1, i, j) {
                    t.tile_at(i, j) == ({
                        let tl = t0.tile_at(i, j);
                        Tile {
                            kind: tl.kind,
                            visible: snew.marked(i, j),
                            explored: tl.explored || snew.marked(i, j),
                            mine_time: tl.mine_time,
                            shade: tl.shade,
                            base_rgb: tl.base_rgb,
                        }
                    })
                } else {
                    t.tile_at(i, j) == ({
                        let tl = t0.tile_at(i, j);
                        Tile {
                            kind: tl.kind,
                            visible: vis0.marked(i, j) && snew.marked(i, j),
                            explored: tl.explored,
                            mine_time: tl.mine_time,
                            shade: tl.shade,
                            base_rgb: tl.base_rgb,
                        }
                    })
                }
            } by {
                if i == cc.0 as int && j == cc.1 as int {
                    assert(coords_has(snew.coords@, 0, k4 + 1, i, j)) by {
                        assert(snew.coords@[k4 as int] == ((i as usize), (j as usize)));
                    }
                } else {
                    if coords_has(snew.coords@, 0, k4 + 1, i, j) {
                        let kw = choose|kw: int|
                            0 <= kw < k4 + 1 && (#[trigger] snew.coords@[kw]) == (
                            (i as usize),
                            (j as usize),
                            );
                        if kw == k4 as int {
                            assert(false);
                        }
                        assert(coords_has(snew.coords@, 0, k4 as int, i, j));
                    }
                    assert(t.tile_at(i, j) == tpre.tile_at(i, j));
                }
            }
            assert forall|i: int, j: int|
                #![trigger vis0.marked(i, j), snew.marked(i, j)]
                t0.in_bounds(i, j) && vis0.marked(i, j) && !snew.marked(i, j) implies coords_has(
                t.changed_tiles@,
                q0,
                t.changed_tiles@.len() as int,
                i,
                j,
            ) by {
                let kq = choose|kq: int|
                    q0 <= kq < tpre.changed_tiles@.len() && (#[trigger] tpre.changed_tiles@[kq]) == (
                    (i as usize),
                    (j as usize),
                    );
                assert(t.changed_tiles@[kq] == ((i as usize), (j as usize)));
            }
            assert forall|i: int, j: int|
                #![trigger vis0.marked(i, j), snew.marked(i, j)]
                t0.in_bounds(i, j) && coords_has(snew.coords@, 0, k4 + 1, i, j) && !vis0.marked(
                i,
                j,
            ) && snew.marked(i, j) implies coords_has(
                t.changed_tiles@,
                q0,
                t.changed_tiles@.len() as int,
                i,
                j,
            ) by {
                if i == cc.0 as int && j == cc.1 as int {
                    assert(t.changed_tiles@[t.changed_tiles@.len() - 1] == (
                        (i as usize),
                        (j as usize),
                    ));
                } else {
                    let kw = choose|kw: int|
                        0 <= kw < k4 + 1 && (#[trigger] snew.coords@[kw]) == (
                        (i as usize),
                        (j as usize),
                        );
                    if kw == k4 as int {
                        assert(false);
                    }
                    assert(coords_has(snew.coords@, 0, k4 as int, i, j));
                    let kq = choose|kq: int|
                        q0 <= kq < tpre.changed_tiles@.len() && (#[trigger] tpre.changed_tiles@[kq])
                            == ((i as usize), (j as usize));
                    assert(t.changed_tiles@[kq] == ((i as usize), (j as usize)));
                }
            }
            assert forall|m: int|
                #![trigger t.changed_tiles@[m]]
                q0 <= m < t.changed_tiles@.len() implies {
                let c = t.changed_tiles@[m];
                (vis0.marked(c.0 as int, c.1 as int) && !snew.marked(c.0 as int, c.1 as int))
                    || exists|kk: int| 0 <= kk < k4 + 1 && #[trigger] snew.coords@[kk] == c
            } by {
                if m < tpre.changed_tiles@.len() {
                    assert(t.changed_tiles@[m] == tpre.changed_tiles@[m]);
                    let c = tpre.changed_tiles@[m];
                    if !(vis0.marked(c.0 as int, c.1 as int) && !snew.marked(
                        c.0 as int,
                        c.1 as int,
                    )) {
                        let kk = choose|kk: int|
                            0 <= kk < k4 && #[trigger] snew.coords@[kk] == c;
                        assert(snew.coords@[kk] == t.changed_tiles@[m]);
                    }
                } else {
                    assert(t.changed_tiles@[m] == cc);
                    assert(snew.coords@[k4 as int] == t.changed_tiles@[m]);
                }
            }
            assert forall|m: int, m2: int|
                q0 <= m < m2 < t.changed_tiles@.len() implies #[trigger] t.changed_tiles@[m]
                != #[trigger] t.changed_tiles@[m2] by {
                if m2 < tpre.changed_tiles@.len() {
                    assert(t.changed_tiles@[m] == tpre.changed_tiles@[m] && t.changed_tiles@[m2]
                        == tpre.changed_tiles@[m2]);
                } else {
                    // the new entry was not previously in the old set, while
                    // earlier entries either were, or are earlier members of
                    // the new set
                    let c = tpre.changed_tiles@[m];
                    assert(t.changed_tiles@[m] == c);
                    assert(t.changed_tiles@[m2] == cc);
                    assert(!vis0.marked(cc.0 as int, cc.1 as int) && snew.marked(
                        cc.0 as int,
                        cc.1 as int,
                    ));
                    if vis0.marked(c.0 as int, c.1 as int) && !snew.marked(c.0 as int, c.1 as int) {
                        if c == cc {
                            assert(false);
                        }
                    } else {
                        let kk = choose|kk: int|
                            0 <= kk < k4 && #[trigger] snew.coords@[kk] == c;
                        assert(snew.coords@[kk] != snew.coords@[k4 as int]);
                        assert(snew.coords@[k4 as int] == cc);
                    }
                }
            }
        }
        k4 = k4 + 1;
    }
    proof {
        assert forall|i: int, j: int|
            #![trigger t.tile_at(i, j)]
            t0.in_bounds(i, j) implies t.tile_at(i, j) == ({
            let tl = t0.tile_at(i, j);
            Tile {
                kind: tl.kind,
                visible: snew.marked(i, j),
                explored: tl.explored || snew.marked(i, j),
                mine_time: tl.mine_time,
                shade: tl.shade,
                base_rgb: tl.base_rgb,
            }
        }) by {
            if snew.marked(i, j) {
                assert(coords_has(snew.coords@, 0, m1 as int, i, j));
            } else {
                if coords_has(snew.coords@, 0, m1 as int, i, j) {
                    let kw = choose|kw: int|
                        0 <= kw < m1 && (#[trigger] snew.coords@[kw]) == ((i as usize), (j as usize));
                    assert(snew.marked(i, j));
                    assert(false);
                }
            }
        }
    }
    core::mem::swap(vis, scratch);
    scratch.clear();
}

} // verus!
