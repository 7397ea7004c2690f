//! The timed entity lifecycle manager: spawns one entity per spawn
//! interval, expires entities whose age reaches the time-to-live, and
//! renders the surviving entities into a frame.
//!
//! Timestamps are milliseconds from a monotonic clock owned by the host.
//! Randomness is likewise host-supplied: the spawn call takes raw random
//! words and reduces them onto the allowed position range itself.

use crate::grid::{blit, lemma_pix_bounds, lemma_pixelwise_eq, pix};
use crate::raster::{
    babel_text, draw_line_at_y, draw_text, lemma_text_covers_min_x, line_covers, text_covers,
};
use vstd::arithmetic::div_mod::{lemma_fundamental_div_mod, lemma_mod_bound};
use vstd::prelude::*;

verus! {

/// Which layout the manager animates.
#[derive(Clone, Copy, PartialEq, Eq, Structural, Debug)]
pub enum LayoutMode {
    /// Entities sit at independent random positions.
    Scatter,
    /// Entities form ordered rows that scroll upward, newest at the bottom.
    Scroll,
}

/// One timed on-screen text instance.
#[derive(Clone, Copy, PartialEq, Eq, Structural, Debug)]
pub struct Entity {
    /// Monotonic timestamp (milliseconds) at which the entity was spawned.
    pub created: u64,
    /// Left edge in pixels; used by the scatter layout only.
    pub x: usize,
    /// Top edge in pixels; used by the scatter layout only.
    pub y: usize,
}

/// Milliseconds of `now` elapsed since `past`; zero when `past` lies
/// ahead, as a monotonic clock read twice can stand still but not go back.
pub open spec fn elapsed_since(now: u64, past: u64) -> int {
    if now >= past {
        now - past
    } else {
        0
    }
}

/// Whether a spawn is due: strictly more than one spawn interval has
/// passed since the last spawn.
pub open spec fn spawn_due(last_spawn: u64, interval: u64, now: u64) -> bool {
    elapsed_since(now, last_spawn) > interval
}

/// Whether an entity has outlived `ttl` at `now`; entities die the moment
/// their age reaches `ttl`.
pub open spec fn alive(e: Entity, now: u64, ttl: u64) -> bool {
    elapsed_since(now, e.created) < ttl
}

/// The survivors of a prune at `now`: exactly the entities still alive,
/// in their original order.
pub open spec fn pruned_seq(s: Seq<Entity>, now: u64, ttl: u64) -> Seq<Entity> {
    s.filter(|e: Entity| alive(e, now, ttl))
}

/// Entities ordered by creation time, oldest first.
pub open spec fn sorted_by_created(s: Seq<Entity>) -> bool {
    forall|i: int, j: int|
        #![trigger s[i].created, s[j].created]
        0 <= i <= j < s.len() ==> s[i].created <= s[j].created
}

fn elapsed_ms(now: u64, past: u64) -> (e: u64)
    ensures
        e as int == elapsed_since(now, past),
{
    if now >= past {
        now - past
    } else {
        0
    }
}

/// A coordinate drawn from a raw random word: reduced onto
/// `[0, extent - reserved)` when the screen has room for the reserved
/// span, floored at 0 otherwise (a degenerate range never fails).
pub open spec fn spawn_coord(rand: u64, extent: int, reserved: int) -> int {
    if extent > reserved {
        rand as int % (extent - reserved)
    } else {
        0
    }
}

fn coord_from_rand(rand: u64, extent: usize, reserved: usize) -> (c: usize)
    requires
        extent <= 0x7fff_ffff,
    ensures
        c as int == spawn_coord(rand, extent as int, reserved as int),
        c <= 0x7fff_ffff,
{
    if extent > reserved {
        let span = (extent - reserved) as u64;
        (rand % span) as usize
    } else {
        0
    }
}

/// Owns the entity collection and the spawn clock; configured once by the
/// host and driven with plain timestamps each frame.
pub struct EntityManager {
    /// Live entities, oldest first.
    pub entities: Vec<Entity>,
    /// Timestamp of the most recent spawn (or of construction).
    pub last_spawn: u64,
    /// Milliseconds that must strictly pass between spawns.
    pub spawn_interval: u64,
    /// Milliseconds an entity lives before it is pruned.
    pub ttl: u64,
    /// Stroke thickness handed to the rasterizer.
    pub thickness: usize,
    /// Color painted for lit pixels.
    pub color: u32,
    /// Scatter or scroll layout.
    pub mode: LayoutMode,
}

/// The entity a spawn at `now` creates: scroll rows are implicit in the
/// insertion order; scatter instances take a random position clamped so
/// the full text fits on a `width x height` screen.
pub open spec fn spawned_entity(
    m: EntityManager,
    now: u64,
    rand_x: u64,
    rand_y: u64,
    width: int,
    height: int,
) -> Entity {
    match m.mode {
        LayoutMode::Scroll => Entity { created: now, x: 0, y: 0 },
        LayoutMode::Scatter => Entity {
            created: now,
            x: spawn_coord(rand_x, width, 48 * m.thickness as int) as usize,
            y: spawn_coord(rand_y, height, 16 * m.thickness as int) as usize,
        },
    }
}

impl EntityManager {
    /// Internal invariant: a sane stroke thickness, entities ordered by
    /// creation time and none created after the spawn clock, positions
    /// representable as screen coordinates.
    pub open spec fn wf(self) -> bool {
        &&& 1 <= self.thickness
        &&& 48 * self.thickness <= 0x7fff_ffff
        &&& sorted_by_created(self.entities@)
        &&& forall|i: int|
            0 <= i < self.entities@.len() ==> (#[trigger] self.entities@[i]).created
                <= self.last_spawn
        &&& forall|i: int|
            0 <= i < self.entities@.len() ==> (#[trigger] self.entities@[i]).x <= 0x7fff_ffff && self.entities@[i].y <= 0x7fff_ffff
    }

    /// A fresh manager: no entities, spawn clock set to `start`.
    pub fn new(
        spawn_interval: u64,
        ttl: u64,
        thickness: usize,
        color: u32,
        mode: LayoutMode,
        start: u64,
    ) -> (m: EntityManager)
        requires
            1 <= thickness,
            48 * thickness <= 0x7fff_ffff,
        ensures
            m.wf(),
            m.entities@ =~= Seq::<Entity>::empty(),
            m.last_spawn == start,
            m.spawn_interval == spawn_interval,
            m.ttl == ttl,
            m.thickness == thickness,
            m.color == color,
            m.mode == mode,
    {
        EntityManager {
            entities: Vec::new(),
            last_spawn: start,
            spawn_interval,
            ttl,
            thickness,
            color,
            mode,
        }
    }

    /// Unconditionally spawns one entity at `now` and resets the spawn
    /// clock; `maybe_spawn` is this behind the interval check.
    pub fn spawn_now(
        &mut self,
        now: u64,
        rand_x: u64,
        rand_y: u64,
        width: usize,
        height: usize,
    ) -> (e: Entity)
        requires
            old(self).wf(),
            now >= old(self).last_spawn,
            width <= 0x7fff_ffff,
            height <= 0x7fff_ffff,
        ensures
            final(self).wf(),
            e == spawned_entity(*old(self), now, rand_x, rand_y, width as int, height as int),
            final(self).entities@ == old(self).entities@.push(e),
            final(self).last_spawn == now,
            final(self).spawn_interval == old(self).spawn_interval,
            final(self).ttl == old(self).ttl,
            final(self).thickness == old(self).thickness,
            final(self).color == old(self).color,
            final(self).mode == old(self).mode,
    {
        let e = match self.mode {
            LayoutMode::Scroll => Entity { created: now, x: 0, y: 0 },
            LayoutMode::Scatter => {
                let reserved_x = 48 * self.thickness;
                let reserved_y = 16 * self.thickness;
                Entity {
                    created: now,
                    x: coord_from_rand(rand_x, width, reserved_x),
                    y: coord_from_rand(rand_y, height, reserved_y),
                }
            },
        };
        self.entities.push(e);
        self.last_spawn = now;
        proof {
            let s = self.entities@;
            assert forall|i: int, j: int|
                #![trigger s[i].created, s[j].created]
                0 <= i <= j < s.len() implies s[i].created <= s[j].created by {
                if j < s.len() - 1 {
                    assert(old(self).entities@[i].created <= old(self).entities@[j].created);
                } else if i < s.len() - 1 {
                    assert(old(self).entities@[i].created <= old(self).last_spawn);
                }
            }
        }
        e
    }

    /// Spawns a new entity exactly when more than one spawn interval has
    /// passed since the last spawn; otherwise leaves everything untouched.
    pub fn maybe_spawn(
        &mut self,
        now: u64,
        rand_x: u64,
        rand_y: u64,
        width: usize,
        height: usize,
    ) -> (spawned: Option<Entity>)
        requires
            old(self).wf(),
            now >= old(self).last_spawn,
            width <= 0x7fff_ffff,
            height <= 0x7fff_ffff,
        ensures
            final(self).wf(),
            spawn_due(old(self).last_spawn, old(self).spawn_interval, now) ==> {
                &&& spawned == Some(
                    spawned_entity(*old(self), now, rand_x, rand_y, width as int, height as int),
                )
                &&& final(self).entities@ == old(self).entities@.push(spawned->Some_0)
                &&& final(self).last_spawn == now
                &&& final(self).spawn_interval == old(self).spawn_interval
                &&& final(self).ttl == old(self).ttl
                &&& final(self).thickness == old(self).thickness
                &&& final(self).color == old(self).color
                &&& final(self).mode == old(self).mode
            },
            !spawn_due(old(self).last_spawn, old(self).spawn_interval, now) ==> {
                &&& spawned is None
                &&& *final(self) == *old(self)
            },
    {
        let e = elapsed_ms(now, self.last_spawn);
        if e > self.spawn_interval {
            Some(self.spawn_now(now, rand_x, rand_y, width, height))
        } else {
            None
        }
    }

    /// Removes exactly the entities whose age has reached the
    /// time-to-live; the survivors keep their order.
    #[verifier::loop_isolation(false)]
    pub fn prune(&mut self, now: u64)
        requires
            old(self).wf(),
        ensures
            final(self).wf(),
            final(self).entities@ == pruned_seq(old(self).entities@, now, old(self).ttl),
            final(self).last_spawn == old(self).last_spawn,
            final(self).spawn_interval == old(self).spawn_interval,
            final(self).ttl == old(self).ttl,
            final(self).thickness == old(self).thickness,
            final(self).color == old(self).color,
            final(self).mode == old(self).mode,
    {
        let ghost s = self.entities@;
        let ghost ttl_g = self.ttl;
        let ghost p = |e: Entity| alive(e, now, ttl_g);
        let mut kept: Vec<Entity> = Vec::new();
        let mut idx: usize = 0;
        proof {
            reveal(Seq::filter);
            assert(s.subrange(0, 0) =~= Seq::<Entity>::empty());
            assert(s.subrange(0, 0).filter(p) =~= Seq::<Entity>::empty());
        }
        while idx < self.entities.len()
            invariant
                idx <= self.entities.len(),
                s == self.entities@,
                ttl_g == self.ttl,
                old(self).wf(),
                *self == *old(self),
                kept@ == s.subrange(0, idx as int).filter(p),
            decreases self.entities.len() - idx,
        {
            let e = self.entities[idx];
            let ghost sub = s.subrange(0, idx as int);
            let keep = elapsed_ms(now, e.created) < self.ttl;
            proof {
                assert(keep == p(e));
            }
            if keep {
                kept.push(e);
            }
            proof {
                assert(s.subrange(0, idx as int + 1) =~= sub.push(e));
                sub.lemma_filter_push(e, p);
            }
            idx = idx + 1;
        }
        proof {
            assert(s.subrange(0, s.len() as int) =~= s);
        }
        self.entities = kept;
        proof {
            lemma_filter_sorted(s, p);
            assert forall|i: int| 0 <= i < self.entities@.len() implies (
            #[trigger] self.entities@[i]).created <= self.last_spawn && self.entities@[i].x
                <= 0x7fff_ffff && self.entities@[i].y <= 0x7fff_ffff by {
                lemma_filter_elem_of(s, p, i);
            }
        }
    }
}

/// Every element of a filtered sequence is an element of the original.
proof fn lemma_filter_elem_of(s: Seq<Entity>, p: spec_fn(Entity) -> bool, i: int)
    requires
        0 <= i < s.filter(p).len(),
    ensures
        exists|j: int| 0 <= j < s.len() && s[j] == s.filter(p)[i],
    decreases s.len(),
{
    reveal(Seq::filter);
    if s.len() == 0 {
    } else {
        let s0 = s.drop_last();
        if p(s.last()) {
            if i < s0.filter(p).len() {
                lemma_filter_elem_of(s0, p, i);
                let j = choose|j: int| 0 <= j < s0.len() && s0[j] == s0.filter(p)[i];
                assert(s[j] == s0[j]);
                assert(s[j] == s.filter(p)[i]);
            } else {
                assert(s.filter(p)[i] == s.last());
                assert(s[s.len() - 1] == s.filter(p)[i]);
            }
        } else {
            lemma_filter_elem_of(s0, p, i);
            let j = choose|j: int| 0 <= j < s0.len() && s0[j] == s0.filter(p)[i];
            assert(s[j] == s0[j]);
            assert(s[j] == s.filter(p)[i]);
        }
    }
}

/// Filtering preserves the creation-time order.
proof fn lemma_filter_sorted(s: Seq<Entity>, p: spec_fn(Entity) -> bool)
    requires
        sorted_by_created(s),
    ensures
        sorted_by_created(s.filter(p)),
    decreases s.len(),
{
    reveal(Seq::filter);
    if s.len() == 0 {
    } else {
        let s0 = s.drop_last();
        assert(sorted_by_created(s0)) by {
            assert forall|i: int, j: int|
                #![trigger s0[i].created, s0[j].created]
                0 <= i <= j < s0.len() implies s0[i].created <= s0[j].created by {
                assert(s[i].created <= s[j].created);
            }
        }
        lemma_filter_sorted(s0, p);
        if p(s.last()) {
            let f0 = s0.filter(p);
            let f = s.filter(p);
            assert(f == f0.push(s.last()));
            assert forall|i: int, j: int|
                #![trigger f[i].created, f[j].created]
                0 <= i <= j < f.len() implies f[i].created <= f[j].created by {
                if j < f.len() - 1 {
                    assert(f0[i].created <= f0[j].created);
                } else if i < f.len() - 1 {
                    lemma_filter_elem_of(s0, p, i);
                    let j0 = choose|j0: int| 0 <= j0 < s0.len() && s0[j0] == s0.filter(p)[i];
                    assert(s[j0].created <= s[s.len() - 1].created);
                }
            }
        }
    }
}

/// The scroll offset: the elapsed share of the current spawn interval,
/// scaled to one line height, in pixels (saturating only at `u64::MAX`).
pub open spec fn spec_scroll_offset(
    now: u64,
    last_spawn: u64,
    spawn_interval: u64,
    line_height: u64,
) -> int {
    if spawn_interval == 0 {
        0
    } else {
        let raw = elapsed_since(now, last_spawn) * line_height / spawn_interval as int;
        if raw > u64::MAX {
            u64::MAX as int
        } else {
            raw
        }
    }
}

/// Vertical offset for continuous scrolling: rows shift up by the part of
/// a line height matching the elapsed part of the current spawn interval.
pub fn compute_scroll_offset(
    now: u64,
    last_spawn: u64,
    spawn_interval: u64,
    line_height: u64,
) -> (off: u64)
    ensures
        off as int == spec_scroll_offset(now, last_spawn, spawn_interval, line_height),
{
    if spawn_interval == 0 {
        return 0;
    }
    let e = elapsed_ms(now, last_spawn);
    proof {
        assert((e as int) * (line_height as int) < 0x1_0000_0000_0000_0000_0000_0000_0000_0000)
            by (nonlinear_arith)
            requires
                0 <= (e as int) && (e as int) < 0x1_0000_0000_0000_0000,
                0 <= (line_height as int) && (line_height as int) < 0x1_0000_0000_0000_0000,
        ;
    }
    let raw = (e as u128) * (line_height as u128) / (spawn_interval as u128);
    if raw > u64::MAX as u128 {
        u64::MAX
    } else {
        raw as u64
    }
}

/// Scaled height of one text line, in pixels.
pub open spec fn line_height_of(m: EntityManager) -> int {
    16 * m.thickness as int
}

/// Number of whole text rows that fit on a screen of height `height`.
pub open spec fn max_rows_of(m: EntityManager, height: int) -> int {
    height / line_height_of(m)
}

/// The scroll offset of the frame at `now`.
pub open spec fn scroll_offset_of(m: EntityManager, now: u64) -> int {
    spec_scroll_offset(now, m.last_spawn, m.spawn_interval, (16 * m.thickness as int) as u64)
}

/// Screen y of the line of entity `i` in the scroll layout: rows are
/// counted from the bottom of the screen, newest entity lowest, and the
/// whole stack is shifted up by the scroll offset.
pub open spec fn scroll_row_y(m: EntityManager, now: u64, height: int, i: int) -> int {
    let lh = line_height_of(m);
    let rfb = m.entities@.len() - 1 - i;
    (max_rows_of(m, height) - 1 - rfb) * lh - scroll_offset_of(m, now)
}

/// Whether the line of entity `i` appears on a screen of height
/// `height`: its row must fit on screen and its shifted y must still be
/// in the visible band.
pub open spec fn scroll_line_drawn(m: EntityManager, now: u64, height: int, i: int) -> bool {
    let lh = line_height_of(m);
    let rfb = m.entities@.len() - 1 - i;
    &&& rfb < max_rows_of(m, height)
    &&& -lh <= scroll_row_y(m, now, height, i)
    &&& scroll_row_y(m, now, height, i) < height
}

/// Pixels lit by the first `upto` entities of the frame of `m` at `now`.
pub open spec fn frame_covers_upto(
    m: EntityManager,
    now: u64,
    width: int,
    height: int,
    upto: int,
    qx: int,
    qy: int,
) -> bool {
    match m.mode {
        LayoutMode::Scroll => exists|i: int|
            #![trigger scroll_line_drawn(m, now, height, i)]
            0 <= i < upto && i < m.entities@.len() && scroll_line_drawn(m, now, height, i)
                && line_covers(width, scroll_row_y(m, now, height, i), m.thickness as int, qx, qy),
        LayoutMode::Scatter => exists|i: int|
            #![trigger m.entities@[i]]
            0 <= i < upto && i < m.entities@.len() && text_covers(
                babel_text(),
                m.entities@[i].x as int,
                m.entities@[i].y as int,
                m.thickness as int,
                qx,
                qy,
            ),
    }
}

/// Pixels lit by the frame of `m` at `now` on a `width x height` screen.
pub open spec fn frame_covers(
    m: EntityManager,
    now: u64,
    width: int,
    height: int,
    qx: int,
    qy: int,
) -> bool {
    frame_covers_upto(m, now, width, height, m.entities@.len() as int, qx, qy)
}

/// What the frame through entity `upto` shows: the draw color on every
/// covered pixel, black everywhere else.
pub open spec fn frame_shows_upto(
    m: EntityManager,
    now: u64,
    width: int,
    height: int,
    upto: int,
    buf: Seq<u32>,
) -> bool {
    forall|qx: int, qy: int|
        #![trigger pix(width, qx, qy)]
        0 <= qx < width && 0 <= qy < height ==> buf[pix(width, qx, qy)] == (if frame_covers_upto(
            m,
            now,
            width,
            height,
            upto,
            qx,
            qy,
        ) {
            m.color
        } else {
            0u32
        })
}

/// What one full frame shows: the draw color on every pixel covered by a
/// visible line, black everywhere else.
pub open spec fn frame_shows(
    m: EntityManager,
    now: u64,
    width: int,
    height: int,
    buf: Seq<u32>,
) -> bool {
    frame_shows_upto(m, now, width, height, m.entities@.len() as int, buf)
}

impl EntityManager {
    /// Renders the frame at `now`: clears the buffer to black, lays the
    /// surviving entities out by the configured mode, and paints each
    /// visible line. The result depends only on the manager state, the
    /// timestamp and the screen shape — not on the old buffer contents.
    #[verifier::loop_isolation(false)]
    pub fn render_frame(&self, now: u64, buffer: &mut Vec<u32>, width: usize, height: usize)
        requires
            self.wf(),
            old(buffer).len() == width * height,
            width <= 0x7fff_ffff,
            height <= 0x7fff_ffff,
            width as int + 48 * (self.thickness as int) <= 0x7fff_ffff,
        ensures
            final(buffer).len() == old(buffer).len(),
            frame_shows(*self, now, width as int, height as int, final(buffer)@),
    {
        let ghost w = width as int;
        let ghost h = height as int;
        let ghost m = *self;
        let mut j: usize = 0;
        while j < buffer.len()
            invariant
                j <= buffer.len(),
                buffer.len() == old(buffer).len(),
                forall|q: int| 0 <= q < j ==> buffer@[q] == 0u32,
            decreases buffer.len() - j,
        {
            buffer.set(j, 0u32);
            j = j + 1;
        }
        proof {
            assert forall|qx: int, qy: int|
                #![trigger pix(w, qx, qy)]
                0 <= qx < w && 0 <= qy < h implies buffer@[pix(w, qx, qy)] == (
            if frame_covers_upto(m, now, w, h, 0, qx, qy) {
                m.color
            } else {
                0u32
            }) by {
                lemma_pix_bounds(w, h, qx, qy);
            }
        }
        let n = self.entities.len();
        let line_height = 16 * self.thickness;
        let max_rows = height / line_height;
        let offset = compute_scroll_offset(
            now,
            self.last_spawn,
            self.spawn_interval,
            line_height as u64,
        );
        proof {
            assert(offset as int == scroll_offset_of(m, now));
            assert(max_rows as int == max_rows_of(m, h));
            lemma_fundamental_div_mod(h, line_height as int);
            lemma_mod_bound(h, line_height as int);
            assert((max_rows as int) * (line_height as int) <= h) by (nonlinear_arith)
                requires
                    h == (line_height as int) * (max_rows as int) + h % (line_height as int),
                    0 <= h % (line_height as int),
            ;
        }
        let mut i: usize = 0;
        while i < n
            invariant
                i <= n,
                buffer.len() == old(buffer).len(),
                frame_shows_upto(m, now, w, h, i as int, buffer@),
            decreases n - i,
        {
            let ghost prevcov = |qx: int, qy: int| frame_covers_upto(m, now, w, h, i as int, qx, qy);
            let ghost nextcov = |qx: int, qy: int|
                frame_covers_upto(m, now, w, h, i as int + 1, qx, qy);
            let ghost mid = buffer@;
            match self.mode {
                LayoutMode::Scroll => {
                    let rfb = n - 1 - i;
                    let mut drawn = false;
                    let ghost mut lcov = prevcov;
                    if rfb < max_rows {
                        let base_row = max_rows - 1 - rfb;
                        proof {
                            assert((base_row as int) * (line_height as int) + (line_height as int)
                                <= (max_rows as int) * (line_height as int)) by (nonlinear_arith)
                                requires
                                    base_row as int + 1 <= max_rows as int,
                                    0 < line_height as int,
                            ;
                        }
                        let row_px = base_row * line_height;
                        let yv: i128 = row_px as i128 - offset as i128;
                        proof {
                            assert(yv as int == scroll_row_y(m, now, h, i as int));
                        }
                        if yv >= -(line_height as i128) && yv < height as i128 {
                            draw_line_at_y(
                                buffer,
                                width,
                                height,
                                yv as i32,
                                self.color,
                                self.thickness,
                            );
                            drawn = true;
                            proof {
                                lcov = |qx: int, qy: int|
                                    line_covers(w, yv as int, m.thickness as int, qx, qy);
                                assert(scroll_line_drawn(m, now, h, i as int));
                            }
                        }
                    }
                    proof {
                        if drawn {
                            assert(blit(mid, buffer@, w, h, m.color, lcov));
                        } else {
                            assert(buffer@ == mid);
                            assert(!scroll_line_drawn(m, now, h, i as int));
                        }
                        assert forall|qx: int, qy: int|
                            #![trigger pix(w, qx, qy)]
                            0 <= qx < w && 0 <= qy < h implies buffer@[pix(w, qx, qy)] == (
                        if nextcov(qx, qy) {
                            m.color
                        } else {
                            0u32
                        }) by {
                            lemma_pix_bounds(w, h, qx, qy);
                            assert(mid[pix(w, qx, qy)] == (if prevcov(qx, qy) {
                                m.color
                            } else {
                                0u32
                            }));
                            if drawn {
                                assert(buffer@[pix(w, qx, qy)] == (if lcov(qx, qy) {
                                    m.color
                                } else {
                                    mid[pix(w, qx, qy)]
                                }));
                            }
                            assert(nextcov(qx, qy) <==> prevcov(qx, qy) || (scroll_line_drawn(
                                m,
                                now,
                                h,
                                i as int,
                            ) && line_covers(
                                w,
                                scroll_row_y(m, now, h, i as int),
                                m.thickness as int,
                                qx,
                                qy,
                            ))) by {
                                if nextcov(qx, qy) {
                                    let i2 = choose|i2: int|
                                        0 <= i2 < i as int + 1 && i2 < m.entities@.len()
                                            && #[trigger] scroll_line_drawn(m, now, h, i2)
                                            && line_covers(
                                            w,
                                            scroll_row_y(m, now, h, i2),
                                            m.thickness as int,
                                            qx,
                                            qy,
                                        );
                                    if i2 < i as int {
                                        assert(prevcov(qx, qy));
                                    }
                                }
                                if prevcov(qx, qy) {
                                    let i2 = choose|i2: int|
                                        0 <= i2 < i as int && i2 < m.entities@.len() && #[trigger]
                                        scroll_line_drawn(m, now, h, i2) && line_covers(
                                            w,
                                            scroll_row_y(m, now, h, i2),
                                            m.thickness as int,
                                            qx,
                                            qy,
                                        );
                                    assert(scroll_line_drawn(m, now, h, i2));
                                    assert(nextcov(qx, qy));
                                }
                                if scroll_line_drawn(m, now, h, i as int) && line_covers(
                                    w,
                                    scroll_row_y(m, now, h, i as int),
                                    m.thickness as int,
                                    qx,
                                    qy,
                                ) {
                                    assert(nextcov(qx, qy));
                                }
                            }
                        }
                    }
                },
                LayoutMode::Scatter => {
                    let e = self.entities[i];
                    let mut drawn = false;
                    if e.x < width {
                        proof {
                            reveal_strlit("BABEL ");
                        }
                        draw_text(
                            buffer,
                            width,
                            height,
                            e.x as i32,
                            e.y as i32,
                            "BABEL ",
                            self.color,
                            self.thickness,
                        );
                        drawn = true;
                    }
                    proof {
                        reveal_strlit("BABEL ");
                        assert("BABEL "@ =~= babel_text());
                        let tcov = |qx: int, qy: int|
                            text_covers(babel_text(), e.x as int, e.y as int, m.thickness as int, qx, qy);
                        assert forall|qx: int, qy: int|
                            #![trigger pix(w, qx, qy)]
                            0 <= qx < w && 0 <= qy < h implies buffer@[pix(w, qx, qy)] == (
                        if nextcov(qx, qy) {
                            m.color
                        } else {
                            0u32
                        }) by {
                            lemma_pix_bounds(w, h, qx, qy);
                            assert(mid[pix(w, qx, qy)] == (if prevcov(qx, qy) {
                                m.color
                            } else {
                                0u32
                            }));
                            if drawn {
                                assert(buffer@[pix(w, qx, qy)] == (if tcov(qx, qy) {
                                    m.color
                                } else {
                                    mid[pix(w, qx, qy)]
                                }));
                            } else {
                                assert(buffer@ == mid);
                                if tcov(qx, qy) {
                                    lemma_text_covers_min_x(
                                        babel_text(),
                                        e.x as int,
                                        e.y as int,
                                        m.thickness as int,
                                        qx,
                                        qy,
                                    );
                                    assert(false);
                                }
                            }
                            assert(nextcov(qx, qy) <==> prevcov(qx, qy) || tcov(qx, qy)) by {
                                assert(e == m.entities@[i as int]);
                                if nextcov(qx, qy) {
                                    let i2 = choose|i2: int|
                                        0 <= i2 < i as int + 1 && i2 < m.entities@.len()
                                            && text_covers(
                                            babel_text(),
                                            (#[trigger] m.entities@[i2]).x as int,
                                            m.entities@[i2].y as int,
                                            m.thickness as int,
                                            qx,
                                            qy,
                                        );
                                    if i2 < i as int {
                                        assert(prevcov(qx, qy));
                                    } else {
                                        assert(tcov(qx, qy));
                                    }
                                }
                                if prevcov(qx, qy) {
                                    let i2 = choose|i2: int|
                                        0 <= i2 < i as int && i2 < m.entities@.len() && text_covers(
                                            babel_text(),
                                            (#[trigger] m.entities@[i2]).x as int,
                                            m.entities@[i2].y as int,
                                            m.thickness as int,
                                            qx,
                                            qy,
                                        );
                                    assert(m.entities@[i2] == m.entities@[i2]);
                                    assert(nextcov(qx, qy));
                                }
                                if tcov(qx, qy) {
                                    assert(nextcov(qx, qy));
                                }
                            }
                        }
                    }
                },
            }
            i = i + 1;
        }
    }
}

/// Law: one frame is a function of the manager state, the timestamp and
/// the screen shape alone — two buffers showing the same frame are equal
/// pixel for pixel.
pub proof fn lemma_render_deterministic(
    m: EntityManager,
    now: u64,
    width: int,
    height: int,
    b1: Seq<u32>,
    b2: Seq<u32>,
)
    requires
        0 <= width,
        0 <= height,
        b1.len() == width * height,
        b2.len() == width * height,
        frame_shows(m, now, width, height, b1),
        frame_shows(m, now, width, height, b2),
    ensures
        b1 == b2,
{
    assert forall|qx: int, qy: int|
        #![trigger pix(width, qx, qy)]
        0 <= qx < width && 0 <= qy < height implies b1[pix(width, qx, qy)] == b2[pix(
        width,
        qx,
        qy,
    )] by {
        let n = m.entities@.len() as int;
        if frame_covers_upto(m, now, width, height, n, qx, qy) {
            assert(b1[pix(width, qx, qy)] == m.color);
            assert(b2[pix(width, qx, qy)] == m.color);
        } else {
            assert(b1[pix(width, qx, qy)] == 0u32);
            assert(b2[pix(width, qx, qy)] == 0u32);
        }
    }
    lemma_pixelwise_eq(b1, b2, width, height);
}

/// Law: at most one entity per interval. After a spawn at `now1`, a
/// second check at any `now2` not more than one interval later is not
/// due, so it spawns nothing.
pub proof fn lemma_no_double_spawn(interval: u64, now1: u64, now2: u64)
    requires
        now1 <= now2,
        now2 - now1 <= interval,
    ensures
        !spawn_due(now1, interval, now2),
{
}

} // verus!
