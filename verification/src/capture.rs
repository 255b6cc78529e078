//! What of each desktop frame is copied into the picture of the background: all
//! that changed, except where windows of this application stand.

use vstd::prelude::*;
use crate::geometry::clamp_to;
use crate::geometry::clamped;
use crate::geometry::greater;
use crate::geometry::held;
use crate::geometry::lemma_times_push;
use crate::geometry::lesser;
use crate::geometry::max_of;
use crate::geometry::min_of;
use crate::geometry::on_desktop;
use crate::geometry::times;
use crate::geometry::Rect;
use crate::geometry::REACH;

verus! {

/// None of the rectangles reaches beyond `b`.
pub open spec fn all_within(ps: Seq<Rect>, b: Rect) -> bool {
    forall|i: int| 0 <= i < ps.len() ==> (#[trigger] ps[i]).within(b)
}

/// The piece of `p` in one of the four directions is added where it has an
/// inside.
fn push_piece(out: &mut Vec<Rect>, p: Rect)
    ensures
        forall|x: int, y: int| #[trigger]
            times(final(out)@, x, y) == times(old(out)@, x, y) + if p.holds(x, y) {
                1nat
            } else {
                0
            },
        forall|b: Rect|
            (p.is_empty() || p.within(b)) && #[trigger] all_within(old(out)@, b) ==> all_within(
                final(out)@,
                b,
            ),
{
    if p.right > p.left && p.bottom > p.top {
        let ghost before = out@;
        out.push(p);
        assert forall|x: int, y: int| #[trigger]
            times(out@, x, y) == times(before, x, y) + if p.holds(x, y) {
                1nat
            } else {
                0
            } by {
            lemma_times_push(before, p, x, y);
        }
    }
}

/// Adds `p` without the hole `h`.
fn push_cut(out: &mut Vec<Rect>, p: Rect, h: Rect)
    ensures
        forall|x: int, y: int| #[trigger]
            times(final(out)@, x, y) == times(old(out)@, x, y) + if p.holds(x, y) && !h.holds(
                x,
                y,
            ) {
                1nat
            } else {
                0
            },
        forall|b: Rect|
            p.within(b) && #[trigger] all_within(old(out)@, b) ==> all_within(final(out)@, b),
{
    let left: i32 = max_of(p.left, h.left);
    let top: i32 = max_of(p.top, h.top);
    let right: i32 = min_of(p.right, h.right);
    let bottom: i32 = min_of(p.bottom, h.bottom);
    if right <= left || bottom <= top {
        let ghost before = out@;
        out.push(p);
        assert forall|x: int, y: int| #[trigger]
            times(out@, x, y) == times(before, x, y) + if p.holds(x, y) && !h.holds(x, y) {
                1nat
            } else {
                0
            } by {
            lemma_times_push(before, p, x, y);
        }
    } else {
        push_piece(out, Rect { left: p.left, top: p.top, right: p.right, bottom: top });
        push_piece(out, Rect { left: p.left, top: bottom, right: p.right, bottom: p.bottom });
        push_piece(out, Rect { left: p.left, top, right: left, bottom });
        push_piece(out, Rect { left: right, top, right: p.right, bottom });
    }
}

/// `r` without all `holes`, as rectangles that share no pixel: a pixel of `r`
/// outside the holes is in one of them, and any other in none.
pub fn subtract_rect(r: Rect, holes: &Vec<Rect>) -> (pieces: Vec<Rect>)
    ensures
        forall|x: int, y: int| #[trigger]
            times(pieces@, x, y) == if r.holds(x, y) && !held(holes@, x, y) {
                1nat
            } else {
                0
            },
        all_within(pieces@, r),
{
    let mut pieces: Vec<Rect> = Vec::new();
    let ghost none = pieces@;
    pieces.push(r);
    assert forall|x: int, y: int| #[trigger]
        times(pieces@, x, y) == if r.holds(x, y) {
            1nat
        } else {
            0
        } by {
        lemma_times_push(none, r, x, y);
    }
    let mut i: usize = 0;
    while i < holes.len()
        invariant
            i <= holes@.len(),
            forall|x: int, y: int| #[trigger]
                times(pieces@, x, y) == if r.holds(x, y) && !held(holes@.take(i as int), x, y) {
                    1nat
                } else {
                    0
                },
            all_within(pieces@, r),
        decreases holes@.len() - i,
    {
        let h = holes[i];
        let ghost old_pieces = pieces@;
        let mut next: Vec<Rect> = Vec::new();
        let mut k: usize = 0;
        while k < pieces.len()
            invariant
                k <= pieces@.len(),
                pieces@ == old_pieces,
                forall|x: int, y: int| #[trigger]
                    times(next@, x, y) == if h.holds(x, y) {
                        0
                    } else {
                        times(old_pieces.take(k as int), x, y)
                    },
                all_within(old_pieces, r),
                all_within(next@, r),
            decreases pieces@.len() - k,
        {
            let p = pieces[k];
            push_cut(&mut next, p, h);
            proof {
                let t = old_pieces.take(k + 1);
                assert(t.drop_last() == old_pieces.take(k as int));
                assert(t.last() == p);
            }
            k = k + 1;
        }
        proof {
            assert(old_pieces.take(old_pieces.len() as int) == old_pieces);
            let seen = holes@.take(i as int);
            let more = holes@.take(i + 1);
            assert(more == seen.push(h));
            assert forall|x: int, y: int| #[trigger]
                times(next@, x, y) == if r.holds(x, y) && !held(more, x, y) {
                    1nat
                } else {
                    0
                } by {
                lemma_held_push(seen, h, x, y);
                assert(times(old_pieces, x, y) == times(old_pieces, x, y));
            }
        }
        pieces = next;
        i = i + 1;
    }
    assert(holes@.take(holes@.len() as int) == holes@);
    pieces
}

proof fn lemma_held_push(ps: Seq<Rect>, h: Rect, x: int, y: int)
    ensures
        held(ps.push(h), x, y) == (held(ps, x, y) || h.holds(x, y)),
{
    let q = ps.push(h);
    if held(ps, x, y) {
        let i = choose|i: int| 0 <= i < ps.len() && (#[trigger] ps[i]).holds(x, y);
        assert(q[i].holds(x, y));
    }
    if h.holds(x, y) {
        assert(q[ps.len() as int].holds(x, y));
    }
    if held(q, x, y) {
        let i = choose|i: int| 0 <= i < q.len() && (#[trigger] q[i]).holds(x, y);
        if i < ps.len() {
            assert(ps[i].holds(x, y));
        }
    }
}

/// The state of the capture.
pub struct Capture {
    pub width: i32,
    pub height: i32,
    /// Where the output's first pixel lies on the desktop.
    pub origin: (i32, i32),
    /// The duplication of the output is at hand.
    pub live: bool,
    /// The background holds a whole picture.
    pub seeded: bool,
    pub cursor_size: (u32, u32),
    pub cursor_pos: (i32, i32),
    pub cursor_visible: bool,
    /// The least box round all that was copied in this tick, on the desktop; none
    /// where nothing was copied.
    pub dirty_bounds: Option<Rect>,
}

/// A rectangle moved by an offset.
pub open spec fn shifted(r: Rect, dx: int, dy: int) -> Rect {
    Rect {
        left: (r.left + dx) as i32,
        top: (r.top + dy) as i32,
        right: (r.right + dx) as i32,
        bottom: (r.bottom + dy) as i32,
    }
}

/// The least box round two rectangles.
pub open spec fn joined(a: Rect, b: Rect) -> Rect {
    Rect {
        left: lesser(a.left as int, b.left as int) as i32,
        top: lesser(a.top as int, b.top as int) as i32,
        right: greater(a.right as int, b.right as int) as i32,
        bottom: greater(a.bottom as int, b.bottom as int) as i32,
    }
}

/// A box grown by a piece.
pub open spec fn grown(bounds: Option<Rect>, piece: Rect) -> Option<Rect> {
    Some(
        match bounds {
            None => piece,
            Some(b) => joined(b, piece),
        },
    )
}

/// A box grown by pieces, each moved by an offset.
pub open spec fn grown_all(bounds: Option<Rect>, ps: Seq<Rect>, origin: (i32, i32)) -> Option<Rect>
    decreases ps.len(),
{
    if ps.len() == 0 {
        bounds
    } else {
        grown(
            grown_all(bounds, ps.drop_last(), origin),
            shifted(ps.last(), origin.0 as int, origin.1 as int),
        )
    }
}

/// A grown box holds every pixel of its pieces.
pub proof fn bounds_hold_pieces(bounds: Option<Rect>, ps: Seq<Rect>, origin: (i32, i32))
    requires
        forall|i: int| 0 <= i < ps.len() ==> (#[trigger] ps[i]).wf(),
        on_desktop(origin.0 as int),
        on_desktop(origin.1 as int),
    ensures
        forall|i: int, x: int, y: int|
            0 <= i < ps.len() && #[trigger] ps[i].holds(x, y) ==> grown_all(bounds, ps, origin)
                is Some && grown_all(bounds, ps, origin)->Some_0.holds(
                x + origin.0,
                y + origin.1,
            ),
    decreases ps.len(),
{
    if ps.len() > 0 {
        let t = ps.drop_last();
        assert forall|i: int| 0 <= i < t.len() implies (#[trigger] t[i]).wf() by {
            assert(t[i] == ps[i]);
        }
        bounds_hold_pieces(bounds, t, origin);
        assert forall|i: int, x: int, y: int|
            0 <= i < ps.len() && #[trigger] ps[i].holds(x, y) implies grown_all(bounds, ps, origin)
            is Some && grown_all(bounds, ps, origin)->Some_0.holds(x + origin.0, y + origin.1) by {
            if i < t.len() {
                assert(t[i].holds(x, y));
            }
            assert(ps[ps.len() - 1].wf());
        }
    }
}

/// A box that grows from nothing is the least one: any box that the pieces do not
/// reach beyond holds it too. It is there just where there are pieces.
pub proof fn bounds_are_least(ps: Seq<Rect>, origin: (i32, i32), b: Rect)
    requires
        forall|i: int|
            0 <= i < ps.len() ==> shifted(
                #[trigger] ps[i],
                origin.0 as int,
                origin.1 as int,
            ).within(b),
    ensures
        grown_all(None, ps, origin) is Some <==> ps.len() > 0,
        ps.len() > 0 ==> grown_all(None, ps, origin)->Some_0.within(b),
    decreases ps.len(),
{
    if ps.len() > 0 {
        let t = ps.drop_last();
        assert forall|i: int| 0 <= i < t.len() implies shifted(
            #[trigger] t[i],
            origin.0 as int,
            origin.1 as int,
        ).within(b) by {
            assert(t[i] == ps[i]);
        }
        bounds_are_least(t, origin, b);
        assert(shifted(ps[ps.len() - 1], origin.0 as int, origin.1 as int).within(b));
    }
}

/// Growing a box by the pieces of one frame and then of the next is growing it by
/// all of them: over a tick it is the least box round everything that was copied.
pub proof fn bounds_add_up(bounds: Option<Rect>, ps: Seq<Rect>, qs: Seq<Rect>, origin: (i32, i32))
    ensures
        grown_all(grown_all(bounds, ps, origin), qs, origin) == grown_all(bounds, ps + qs, origin),
    decreases qs.len(),
{
    if qs.len() > 0 {
        bounds_add_up(bounds, ps, qs.drop_last(), origin);
        assert((ps + qs).drop_last() =~= ps + qs.drop_last());
        assert((ps + qs).last() == qs.last());
    } else {
        assert(ps + qs =~= ps);
    }
}

proof fn lemma_grown_all(bounds: Option<Rect>, ps: Seq<Rect>, origin: (i32, i32))
    ensures
        grown_all(bounds, ps, origin) is Some <==> bounds is Some || ps.len() > 0,
    decreases ps.len(),
{
    if ps.len() > 0 {
        lemma_grown_all(bounds, ps.drop_last(), origin);
    }
}

impl Capture {
    /// Sizes and origin lie on the desktop.
    pub open spec fn wf(self) -> bool {
        &&& 0 <= self.width <= REACH
        &&& 0 <= self.height <= REACH
        &&& on_desktop(self.origin.0 as int)
        &&& on_desktop(self.origin.1 as int)
    }

    /// The whole output.
    pub open spec fn full(self) -> Rect {
        Rect { left: 0, top: 0, right: self.width, bottom: self.height }
    }

    /// A capture of an output of this size, with nothing in the picture yet.
    pub fn new(width: i32, height: i32, origin: (i32, i32)) -> (c: Capture)
        requires
            0 <= width <= REACH,
            0 <= height <= REACH,
            on_desktop(origin.0 as int),
            on_desktop(origin.1 as int),
        ensures
            c.wf(),
            c == (Capture {
                width,
                height,
                origin,
                live: true,
                seeded: false,
                cursor_size: (32, 32),
                cursor_pos: (0, 0),
                cursor_visible: false,
                dirty_bounds: None,
            }),
    {
        Capture {
            width,
            height,
            origin,
            live: true,
            seeded: false,
            cursor_size: (32, 32),
            cursor_pos: (0, 0),
            cursor_visible: false,
            dirty_bounds: None,
        }
    }

    /// Whether the background holds a whole picture.
    pub fn seeded(&self) -> (r: bool)
        ensures
            r == self.seeded,
    {
        self.seeded
    }

    /// The windows to leave out, in pixels of the output: a pixel of the output
    /// is in one of them if it is in one of the windows.
    pub fn holes(&self, exclude: &Vec<Rect>) -> (holes: Vec<Rect>)
        requires
            self.wf(),
            forall|i: int| 0 <= i < exclude@.len() ==> (#[trigger] exclude@[i]).wf(),
        ensures
            forall|x: int, y: int| #[trigger]
                held(holes@, x, y) <==> self.full().holds(x, y) && held(
                    exclude@,
                    x + self.origin.0,
                    y + self.origin.1,
                ),
            forall|i: int|
                0 <= i < holes@.len() ==> !(#[trigger] holes@[i]).is_empty() && holes@[i].within(
                    self.full(),
                ),
    {
        let mut holes: Vec<Rect> = Vec::new();
        let mut i: usize = 0;
        while i < exclude.len()
            invariant
                self.wf(),
                i <= exclude@.len(),
                forall|i: int| 0 <= i < exclude@.len() ==> (#[trigger] exclude@[i]).wf(),
                forall|x: int, y: int| #[trigger]
                    held(holes@, x, y) <==> self.full().holds(x, y) && held(
                        exclude@.take(i as int),
                        x + self.origin.0,
                        y + self.origin.1,
                    ),
                forall|i: int|
                    0 <= i < holes@.len() ==> !(#[trigger] holes@[i]).is_empty()
                        && holes@[i].within(self.full()),
            decreases exclude@.len() - i,
        {
            let r = exclude[i];
            assert(exclude@[i as int].wf());
            let h = Rect {
                left: clamp_to(r.left - self.origin.0, 0, self.width),
                top: clamp_to(r.top - self.origin.1, 0, self.height),
                right: clamp_to(r.right - self.origin.0, 0, self.width),
                bottom: clamp_to(r.bottom - self.origin.1, 0, self.height),
            };
            let ghost before = holes@;
            if h.right > h.left && h.bottom > h.top {
                holes.push(h);
            }
            proof {
                let seen = exclude@.take(i as int);
                assert(exclude@.take(i + 1) == seen.push(r));
                assert forall|x: int, y: int| #[trigger]
                    held(holes@, x, y) <==> self.full().holds(x, y) && held(
                        exclude@.take(i + 1),
                        x + self.origin.0,
                        y + self.origin.1,
                    ) by {
                    lemma_held_push(seen, r, x + self.origin.0, y + self.origin.1);
                    lemma_held_push(before, h, x, y);
                    assert(held(before, x, y) == held(before, x, y));
                }
            }
            i = i + 1;
        }
        assert(exclude@.take(exclude@.len() as int) == exclude@);
        holes
    }
}

/// What a frame says of the pointer.
#[derive(Clone, Copy, Debug)]
pub struct Pointer {
    /// Whether it shows, and where, if that changed.
    pub place: Option<(bool, i32, i32)>,
    /// Its size, if that changed.
    pub shape: Option<(u32, u32)>,
}

/// What asking for the next frame gave.
pub enum Acquired {
    /// There is none yet.
    Timeout,
    /// The duplication was lost.
    Lost,
    /// A frame without a picture.
    PointerOnly(Pointer),
    /// A frame whose picture cannot be had.
    NoImage(Pointer),
    /// A frame, and the rectangles in which it differs from the one before.
    Image(Pointer, Vec<Rect>),
}

/// What is to be done about a frame.
pub struct FrameWork {
    /// The pieces of the picture to copy.
    pub copy: Vec<Rect>,
    /// The frame is to be released.
    pub release: bool,
    /// No further frame is asked for in this tick.
    pub done: bool,
}

/// One tick: how many frames may still be asked for, and whether anything was
/// copied.
#[derive(Clone, Copy, Debug, PartialEq, Eq, Structural)]
pub struct Tick {
    pub left: u8,
    pub updated: bool,
}

/// How many frames one tick takes at most.
pub const FRAMES_PER_TICK: u8 = 8;

impl Capture {
    /// The capture after what a frame says of the pointer. A shape without an
    /// inside is not taken.
    pub open spec fn pointed(self, p: Pointer) -> Capture {
        Capture {
            cursor_visible: match p.place {
                Some((v, _, _)) => v,
                None => self.cursor_visible,
            },
            cursor_pos: match p.place {
                Some((_, x, y)) => (x, y),
                None => self.cursor_pos,
            },
            cursor_size: match p.shape {
                Some((w, h)) => if w > 0 && h > 0 {
                    (w, h)
                } else {
                    self.cursor_size
                },
                None => self.cursor_size,
            },
            ..self
        }
    }

    fn set_pointer(&mut self, p: Pointer)
        ensures
            *final(self) == old(self).pointed(p),
    {
        if let Some((v, x, y)) = p.place {
            self.cursor_visible = v;
            self.cursor_pos = (x, y);
        }
        if let Some((w, h)) = p.shape {
            if w > 0 && h > 0 {
                self.cursor_size = (w, h);
            }
        }
    }

    /// Starts a tick. Where the duplication was lost, `again` says whether it
    /// could be had again; without it there is no tick. Either way nothing has
    /// been copied yet.
    pub fn begin_tick(&mut self, again: bool) -> (r: Option<Tick>)
        ensures
            r is Some <==> old(self).live || again,
            r matches Some(t) ==> t == (Tick { left: FRAMES_PER_TICK, updated: false }),
            *final(self) == (Capture { live: r is Some, dirty_bounds: None, ..*old(self) }),
            r is Some ==> r->Some_0.left == 8 && !r->Some_0.updated,
            final(self).dirty_bounds is None && final(self).seeded == old(self).seeded,
            final(self).live ==> old(self).live || again,
            again ==> final(self).live,
    {
        self.dirty_bounds = None;
        if !self.live && !again {
            return None;
        }
        self.live = true;
        Some(Tick { left: FRAMES_PER_TICK, updated: false })
    }

    /// Grows the box of what was copied by a piece.
    fn grow_dirty(&mut self, piece: Rect)
        requires
            old(self).wf(),
            piece.wf(),
        ensures
            *final(self) == (Capture {
                dirty_bounds: grown(
                    old(self).dirty_bounds,
                    shifted(piece, old(self).origin.0 as int, old(self).origin.1 as int),
                ),
                ..*old(self)
            }),
    {
        let db = Rect {
            left: piece.left + self.origin.0,
            top: piece.top + self.origin.1,
            right: piece.right + self.origin.0,
            bottom: piece.bottom + self.origin.1,
        };
        self.dirty_bounds = Some(
            match self.dirty_bounds {
                None => db,
                Some(b) => Rect {
                    left: min_of(b.left, db.left),
                    top: min_of(b.top, db.top),
                    right: max_of(b.right, db.right),
                    bottom: max_of(b.bottom, db.bottom),
                },
            },
        );
    }

    /// The pieces of the changed rectangles that are to be copied, each with an
    /// inside, with the box grown by each.
    fn copy_pieces(&mut self, dirty: &Vec<Rect>, holes: &Vec<Rect>) -> (copy: Vec<Rect>)
        requires
            old(self).wf(),
            forall|i: int| 0 <= i < dirty@.len() ==> (#[trigger] dirty@[i]).wf(),
        ensures
            forall|x: int, y: int| #[trigger]
                held(copy@, x, y) <==> held(dirty@, x, y) && !held(holes@, x, y),
            forall|i: int|
                0 <= i < copy@.len() ==> (#[trigger] copy@[i]).wf() && !copy@[i].is_empty(),
            *final(self) == (Capture {
                dirty_bounds: grown_all(old(self).dirty_bounds, copy@, old(self).origin),
                ..*old(self)
            }),
    {
        let mut copy: Vec<Rect> = Vec::new();
        let mut i: usize = 0;
        while i < dirty.len()
            invariant
                i <= dirty@.len(),
                old(self).wf(),
                forall|i: int| 0 <= i < dirty@.len() ==> (#[trigger] dirty@[i]).wf(),
                forall|x: int, y: int| #[trigger]
                    held(copy@, x, y) <==> held(dirty@.take(i as int), x, y) && !held(
                        holes@,
                        x,
                        y,
                    ),
                forall|i: int|
                    0 <= i < copy@.len() ==> (#[trigger] copy@[i]).wf() && !copy@[i].is_empty(),
                *self == (Capture {
                    dirty_bounds: grown_all(old(self).dirty_bounds, copy@, old(self).origin),
                    ..*old(self)
                }),
            decreases dirty@.len() - i,
        {
            let r = dirty[i];
            assert(dirty@[i as int].wf());
            let pieces = subtract_rect(r, holes);
            let ghost before = copy@;
            let mut k: usize = 0;
            while k < pieces.len()
                invariant
                    k <= pieces@.len(),
                    old(self).wf(),
                    r.wf(),
                    all_within(pieces@, r),
                    forall|x: int, y: int| #[trigger]
                        held(copy@, x, y) <==> held(before, x, y) || held(
                            pieces@.take(k as int),
                            x,
                            y,
                        ),
                    forall|i: int|
                        0 <= i < copy@.len() ==> (#[trigger] copy@[i]).wf()
                            && !copy@[i].is_empty(),
                    *self == (Capture {
                        dirty_bounds: grown_all(old(self).dirty_bounds, copy@, old(self).origin),
                        ..*old(self)
                    }),
                decreases pieces@.len() - k,
            {
                let piece = pieces[k];
                assert(pieces@[k as int].within(r));
                let ghost had = copy@;
                if piece.right > piece.left && piece.bottom > piece.top {
                    proof {
                        assert(copy@.push(piece).drop_last() == copy@);
                    }
                    self.grow_dirty(piece);
                    copy.push(piece);
                }
                proof {
                    let seen = pieces@.take(k as int);
                    assert(pieces@.take(k + 1) == seen.push(piece));
                    assert forall|x: int, y: int| #[trigger]
                        held(copy@, x, y) <==> held(before, x, y) || held(
                            pieces@.take(k + 1),
                            x,
                            y,
                        ) by {
                        lemma_held_push(seen, piece, x, y);
                        lemma_held_push(had, piece, x, y);
                        assert(held(had, x, y) == (held(before, x, y) || held(seen, x, y)));
                    }
                }
                k = k + 1;
            }
            proof {
                assert(pieces@.take(pieces@.len() as int) == pieces@);
                let seen = dirty@.take(i as int);
                assert(dirty@.take(i + 1) == seen.push(r));
                assert forall|x: int, y: int| #[trigger]
                    held(copy@, x, y) <==> held(dirty@.take(i + 1), x, y) && !held(
                        holes@,
                        x,
                        y,
                    ) by {
                    lemma_held_push(seen, r, x, y);
                    lemma_held_times(pieces@, x, y);
                    assert(held(before, x, y) == held(before, x, y));
                }
            }
            i = i + 1;
        }
        assert(dirty@.take(dirty@.len() as int) == dirty@);
        copy
    }
}

proof fn lemma_held_times(ps: Seq<Rect>, x: int, y: int)
    ensures
        held(ps, x, y) <==> times(ps, x, y) > 0,
    decreases ps.len(),
{
    if ps.len() > 0 {
        let t = ps.drop_last();
        lemma_held_times(t, x, y);
        lemma_held_push(t, ps.last(), x, y);
        assert(t.push(ps.last()) == ps);
    }
}

/// What changed in a frame: all of it where there is no picture yet, and the
/// rectangles that it names otherwise.
pub open spec fn changed(c: Capture, rects: Seq<Rect>) -> Seq<Rect> {
    if c.seeded {
        rects
    } else {
        seq![c.full()]
    }
}

impl Acquired {
    /// The rectangles that a frame names lie on the desktop.
    pub open spec fn wf(self) -> bool {
        self matches Acquired::Image(_, rects) ==> forall|i: int|
            0 <= i < rects@.len() ==> (#[trigger] rects@[i]).wf()
    }
}

impl Capture {
    /// Takes in what asking for a frame gave. After a timeout, a loss or a
    /// frame whose picture cannot be had the tick is over; a frame with a
    /// picture is copied, without the holes, and the tick goes on until it has
    /// taken its share of frames. The tick has an update just where a piece was
    /// copied.
    pub fn on_acquired(&mut self, tick: &mut Tick, got: &Acquired, holes: &Vec<Rect>) -> (r:
        FrameWork)
        requires
            old(self).wf(),
            got.wf(),
            old(tick).left > 0,
        ensures
            final(self).wf(),
            match *got {
                Acquired::Timeout => {
                    &&& *final(self) == *old(self)
                    &&& *final(tick) == *old(tick)
                    &&& r.copy@.len() == 0 && !r.release && r.done
                },
                Acquired::Lost => {
                    &&& *final(self) == (Capture { live: false, ..*old(self) })
                    &&& *final(tick) == *old(tick)
                    &&& r.copy@.len() == 0 && !r.release && r.done
                },
                Acquired::PointerOnly(p) => {
                    &&& *final(self) == old(self).pointed(p)
                    &&& *final(tick) == (Tick { left: (old(tick).left - 1) as u8, ..*old(tick) })
                    &&& r.copy@.len() == 0 && r.release && r.done == (old(tick).left == 1)
                },
                Acquired::NoImage(p) => {
                    &&& *final(self) == old(self).pointed(p)
                    &&& *final(tick) == *old(tick)
                    &&& r.copy@.len() == 0 && r.release && r.done
                },
                Acquired::Image(p, rects) => {
                    let dirty = changed(*old(self), rects@);
                    &&& forall|x: int, y: int| #[trigger]
                        held(r.copy@, x, y) <==> held(dirty, x, y) && !held(holes@, x, y)
                    &&& forall|i: int| 0 <= i < r.copy@.len() ==> !(#[trigger] r.copy@[i]).is_empty()
                    &&& *final(self) == (Capture {
                        dirty_bounds: grown_all(
                            old(self).dirty_bounds,
                            r.copy@,
                            old(self).origin,
                        ),
                        seeded: old(self).seeded || dirty.len() > 0,
                        ..old(self).pointed(p)
                    })
                    &&& *final(tick) == (Tick {
                        left: (old(tick).left - 1) as u8,
                        updated: old(tick).updated || r.copy@.len() > 0,
                    })
                    &&& r.release && r.done == (old(tick).left == 1)
                },
            },
            old(tick).updated == (old(self).dirty_bounds is Some) ==> (final(tick).updated
                == (final(self).dirty_bounds is Some)),
            *got is Lost ==> !final(self).live,
            !(*got is Lost) ==> final(self).live == old(self).live,
            r.release <==> !(*got is Timeout || *got is Lost),
            r.copy@.len() > 0 ==> *got is Image && final(tick).updated,
            final(tick).left <= old(tick).left,
            final(tick).left == 0 ==> r.done,
            !r.done ==> *got is Image || *got is PointerOnly,
            !r.done ==> 0 < final(tick).left < old(tick).left,
            old(self).seeded ==> final(self).seeded,
            !(*got is Image) ==> final(self).dirty_bounds == old(self).dirty_bounds && final(self).seeded == old(
                self,
            ).seeded,
    {
        match got {
            Acquired::Timeout => FrameWork { copy: Vec::new(), release: false, done: true },
            Acquired::Lost => {
                self.live = false;
                FrameWork { copy: Vec::new(), release: false, done: true }
            },
            Acquired::PointerOnly(p) => {
                self.set_pointer(*p);
                tick.left = tick.left - 1;
                FrameWork { copy: Vec::new(), release: true, done: tick.left == 0 }
            },
            Acquired::NoImage(p) => {
                self.set_pointer(*p);
                FrameWork { copy: Vec::new(), release: true, done: true }
            },
            Acquired::Image(p, rects) => {
                self.set_pointer(*p);
                let copy: Vec<Rect>;
                if self.seeded {
                    copy = self.copy_pieces(rects, holes);
                } else {
                    let mut all: Vec<Rect> = Vec::new();
                    all.push(Rect { left: 0, top: 0, right: self.width, bottom: self.height });
                    assert(all@ == seq![self.full()]);
                    copy = self.copy_pieces(&all, holes);
                    self.seeded = true;
                }
                proof {
                    lemma_grown_all(old(self).dirty_bounds, copy@, old(self).origin);
                }
                if copy.len() > 0 {
                    tick.updated = true;
                }
                tick.left = tick.left - 1;
                FrameWork { copy, release: true, done: tick.left == 0 }
            },
        }
    }

    /// The pointer's rectangle on the output, with room for its shadow.
    pub open spec fn pointer_box(self) -> Rect {
        let (x, y) = self.cursor_pos;
        let (w, h) = self.cursor_size;
        Rect {
            left: clamped(x - 3, 0, self.width as int) as i32,
            top: clamped(y - 3, 0, self.height as int) as i32,
            right: clamped(x + greater(w as int, 1) + 20, 0, self.width as int) as i32,
            bottom: clamped(y + greater(h as int, 1) + 20, 0, self.height as int) as i32,
        }
    }

    /// The pointer's rectangle on the output; none where it does not show or
    /// lies elsewhere.
    pub fn cursor_rect(&self) -> (r: Option<Rect>)
        requires
            self.wf(),
            on_desktop(self.cursor_pos.0 as int),
            on_desktop(self.cursor_pos.1 as int),
            self.cursor_size.0 <= REACH,
            self.cursor_size.1 <= REACH,
        ensures
            r == if self.cursor_visible && !self.pointer_box().is_empty() {
                Some(self.pointer_box())
            } else {
                None
            },
            !self.cursor_visible ==> r is None,
            r is Some ==> r->Some_0.left < r->Some_0.right && r->Some_0.top < r->Some_0.bottom,
    {
        if !self.cursor_visible {
            return None;
        }
        let cw: i32 = max_of(self.cursor_size.0 as i32, 1);
        let ch: i32 = max_of(self.cursor_size.1 as i32, 1);
        let (cx, cy) = self.cursor_pos;
        let r = Rect {
            left: clamp_to(cx - 3, 0, self.width),
            top: clamp_to(cy - 3, 0, self.height),
            right: clamp_to(cx + cw + 20, 0, self.width),
            bottom: clamp_to(cy + ch + 20, 0, self.height),
        };
        if r.right > r.left && r.bottom > r.top {
            Some(r)
        } else {
            None
        }
    }
}

/// How far beyond its own rectangle the glass samples the background.
pub const SAMPLE_MARGIN: i32 = 128;

/// What a window shows depends on the changed box.
pub open spec fn depends_on(r: Rect, b: Rect) -> bool {
    r.left - SAMPLE_MARGIN < b.right && r.right + SAMPLE_MARGIN > b.left && r.top - SAMPLE_MARGIN
        < b.bottom && r.bottom + SAMPLE_MARGIN > b.top
}

/// The windows to draw again after a tick: all of them where that is forced,
/// and otherwise those whose background changed, if anything did.
pub fn to_redraw(rects: &Vec<Rect>, updated: bool, force: bool, bounds: Option<Rect>) -> (out: Vec<
    usize,
>)
    requires
        forall|i: int| 0 <= i < rects@.len() ==> (#[trigger] rects@[i]).wf(),
    ensures
        forall|k: int| 0 <= k < out@.len() ==> (#[trigger] out@[k]) < rects@.len(),
        forall|a: int, b: int| 0 <= a < b < out@.len() ==> out@[a] < out@[b],
        forall|i: usize|
            i < rects@.len() ==> (#[trigger] out@.contains(i) <==> force || (updated && match bounds {
                Some(b) => depends_on(rects@[i as int], b),
                None => true,
            })),
        forall|i: usize, x: int, y: int|
            i < rects@.len() && updated && bounds is Some && #[trigger] bounds->Some_0.holds(x, y)
                && rects@[i as int].left - 128 <= x < rects@[i as int].right + 128
                && rects@[i as int].top - 128 <= y < rects@[i as int].bottom + 128
                ==> #[trigger] out@.contains(i),
{
    let mut out: Vec<usize> = Vec::new();
    if !updated && !force {
        return out;
    }
    let mut i: usize = 0;
    while i < rects.len()
        invariant
            i <= rects@.len(),
            updated || force,
            forall|i: int| 0 <= i < rects@.len() ==> (#[trigger] rects@[i]).wf(),
            forall|k: int| 0 <= k < out@.len() ==> (#[trigger] out@[k]) < i,
            forall|a: int, b: int| 0 <= a < b < out@.len() ==> out@[a] < out@[b],
            forall|j: usize|
                j < i ==> (#[trigger] out@.contains(j) <==> force || (updated && match bounds {
                    Some(b) => depends_on(rects@[j as int], b),
                    None => true,
                })),
        decreases rects@.len() - i,
    {
        let r = rects[i];
        assert(rects@[i as int].wf());
        let hit = force || match bounds {
            Some(b) => r.left - SAMPLE_MARGIN < b.right && r.right + SAMPLE_MARGIN > b.left
                && r.top - SAMPLE_MARGIN < b.bottom && r.bottom + SAMPLE_MARGIN > b.top,
            None => true,
        };
        let ghost before = out@;
        if hit {
            out.push(i);
            assert(out@[before.len() as int] == i);
        }
        proof {
            assert forall|j: usize| j < i implies (#[trigger] out@.contains(j) == before.contains(
                j,
            )) by {
                if before.contains(j) {
                    let k = choose|k: int| 0 <= k < before.len() && before[k] == j;
                    assert(out@[k] == j);
                }
            }
            if !hit {
                assert(!out@.contains(i));
            }
        }
        i = i + 1;
    }
    out
}

/// A changed pixel that lies in a window, or within 128 pixels of it, changes what
/// the window shows; and what a window shows changes only where there is such a
/// pixel.
pub proof fn windows_near_a_change_depend_on_it(r: Rect, b: Rect)
    requires
        r.left - 128 < r.right + 128,
        r.top - 128 < r.bottom + 128,
        b.left < b.right,
        b.top < b.bottom,
    ensures
        depends_on(r, b) <==> exists|x: int, y: int|
            #![trigger b.holds(x, y)]
            b.holds(x, y) && r.left - 128 <= x < r.right + 128 && r.top - 128 <= y < r.bottom + 128,
        forall|x: int, y: int| #[trigger] b.holds(x, y) && r.holds(x, y) ==> depends_on(r, b),
{
    if depends_on(r, b) {
        let x: int = if r.left - 128 > b.left {
            r.left - 128
        } else {
            b.left as int
        };
        let y: int = if r.top - 128 > b.top {
            r.top - 128
        } else {
            b.top as int
        };
        assert(b.holds(x, y));
    }
}

/// The pointer's box is that part of the output which lies no more than three
/// pixels above and left of the pointer's shape, and no more than twenty below and
/// right of it. So all of the pointer that is on the output is in it.
pub proof fn the_pointer_lies_in_its_box(c: Capture, x: int, y: int)
    requires
        c.wf(),
        on_desktop(c.cursor_pos.0 as int),
        on_desktop(c.cursor_pos.1 as int),
        c.cursor_size.0 <= REACH,
        c.cursor_size.1 <= REACH,
    ensures
        c.cursor_size.0 > 0 && c.cursor_size.1 > 0 ==> (c.pointer_box().holds(x, y) <==> 0 <= x
            < c.width && 0 <= y < c.height && c.cursor_pos.0 - 3 <= x < c.cursor_pos.0
            + c.cursor_size.0 + 20 && c.cursor_pos.1 - 3 <= y < c.cursor_pos.1 + c.cursor_size.1
            + 20),
        c.pointer_box().holds(x, y) ==> !c.pointer_box().is_empty(),
        c.cursor_pos.0 == x && c.cursor_pos.1 == y && 0 <= x < c.width && 0 <= y < c.height
            ==> c.pointer_box().holds(x, y),
{
}

/// What a frame says of the pointer is taken, and nothing else: a place moves it
/// and shows or hides it, a shape with an inside sizes it, and what the frame
/// leaves out stays.
pub proof fn the_pointer_follows_the_frames(c: Capture, p: Pointer)
    ensures
        p.place is None ==> c.pointed(p).cursor_pos == c.cursor_pos && c.pointed(p).cursor_visible
            == c.cursor_visible,
        p.place matches Some((v, x, y)) ==> c.pointed(p).cursor_pos.0 == x && c.pointed(
            p,
        ).cursor_pos.1 == y && c.pointed(p).cursor_visible == v,
        p.shape is None ==> c.pointed(p).cursor_size == c.cursor_size,
        p.shape matches Some((w, h)) ==> (w > 0 && h > 0 ==> c.pointed(p).cursor_size.0 == w
            && c.pointed(p).cursor_size.1 == h) && (w == 0 || h == 0 ==> c.pointed(p).cursor_size
            == c.cursor_size),
        c.pointed(p).seeded == c.seeded && c.pointed(p).live == c.live,
        c.pointed(p).width == c.width && c.pointed(p).height == c.height,
        c.pointed(p).origin == c.origin && c.pointed(p).dirty_bounds == c.dirty_bounds,
        c.pointed(p).pointed(p) == c.pointed(p),
{
}

/// The first picture is the whole output; after that only what the frame names is
/// new.
pub proof fn the_first_picture_is_whole(c: Capture, rects: Seq<Rect>, x: int, y: int)
    requires
        c.wf(),
    ensures
        !c.seeded ==> (held(changed(c, rects), x, y) <==> 0 <= x < c.width && 0 <= y < c.height),
        c.seeded ==> (held(changed(c, rects), x, y) <==> exists|i: int|
            0 <= i < rects.len() && #[trigger] rects[i].holds(x, y)),
        changed(c, rects).len() == 0 ==> c.seeded && rects.len() == 0,
{
    if !c.seeded {
        let s = changed(c, rects);
        lemma_held_times(s, x, y);
        assert(s =~= Seq::<Rect>::empty().push(c.full()));
        lemma_held_push(Seq::<Rect>::empty(), c.full(), x, y);
        assert(s[0].holds(x, y) == (0 <= x < c.width && 0 <= y < c.height));
    }
}

} // verus!
