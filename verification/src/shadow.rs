//! The shadow window behind each window.

use vstd::prelude::*;
use crate::card::Card;
use crate::geometry::Rect;
use crate::menu::casts;
use crate::menu::shadow_rect;
use crate::metrics::modest;

verus! {

/// The shadow window of a window.
#[derive(Clone, Copy, Debug, PartialEq, Eq, Structural)]
pub struct Shadow {
    pub exists: bool,
    pub shown: bool,
    /// Where it was put last.
    pub place: Option<Rect>,
    /// The size of its picture.
    pub w: i32,
    pub h: i32,
}

/// What is to be done about a shadow.
#[derive(Clone, Copy, Debug, PartialEq, Eq, Structural)]
pub struct ShadowWork {
    pub hide: bool,
    /// The picture is drawn anew, in the size of the new place.
    pub redraw: bool,
    /// The window goes there, behind its own window.
    pub put: Option<Rect>,
    pub show: bool,
}

/// Where the shadow lies, if the window casts one.
pub open spec fn lies(c: Card, margin: int) -> Rect {
    Rect {
        left: (c.rect.left - margin) as i32,
        top: (c.rect.top - margin) as i32,
        right: (c.rect.left - margin + crate::geometry::greater(c.rect.w() + 2 * margin, 8)) as i32,
        bottom: (c.rect.top - margin + crate::geometry::greater(c.rect.h() + 2 * margin, 8)) as i32,
    }
}

/// Keeps a shadow in step with its window. `created` says whether a shadow
/// window is there or could be made; without one nothing is done. One that is
/// no longer cast is hidden, one whose size changed is drawn anew, and one that
/// moved or was hidden is put in its place.
pub fn update_shadow(c: Card, margin: i32, s: Shadow, created: bool) -> (r: (Shadow, ShadowWork))
    requires
        c.wf(),
        modest(margin as int),
        s.exists ==> created,
    ensures
        ({
            let p = lies(c, margin as int);
            if !casts(c) {
                &&& r.0 == (Shadow { shown: false, ..s })
                &&& r.1 == (ShadowWork {
                    hide: s.exists && s.shown,
                    redraw: false,
                    put: None,
                    show: false,
                })
            } else if !created {
                &&& r.0 == s
                &&& r.1 == (ShadowWork { hide: false, redraw: false, put: None, show: false })
            } else {
                &&& r.0 == (Shadow {
                    exists: true,
                    shown: true,
                    place: Some(p),
                    w: p.w() as i32,
                    h: p.h() as i32,
                })
                &&& r.1.hide == false
                &&& r.1.redraw == (s.w != p.w() || s.h != p.h())
                &&& r.1.put == if s.place != Some(p) || !s.shown {
                    Some(p)
                } else {
                    None
                }
                &&& r.1.show == !s.shown
            }
        }),
        r.1.hide ==> s.shown && !r.0.shown,
        r.1.show ==> !s.shown && r.0.shown,
        s.shown && !r.0.shown && s.exists ==> r.1.hide,
        !s.shown && r.0.shown ==> r.1.show && r.1.put is Some,
        r.1.put is Some ==> r.0.place == r.1.put,
        r.0.place != s.place ==> r.1.put is Some,
        r.0.w != s.w || r.0.h != s.h ==> r.1.redraw,
        r.1.redraw ==> r.0.w != s.w || r.0.h != s.h,
        c.closing || c.dying || c.flung || !c.shown || c.docked != 0 ==> !r.0.shown,
{
    match shadow_rect(c, margin) {
        None => {
            let mut n: Shadow = s;
            n.shown = false;
            (n, ShadowWork { hide: s.exists && s.shown, redraw: false, put: None, show: false })
        },
        Some(p) => {
            if !created {
                return (s, ShadowWork { hide: false, redraw: false, put: None, show: false });
            }
            let w: i32 = p.right - p.left;
            let h: i32 = p.bottom - p.top;
            let same = match s.place {
                Some(q) => q.left == p.left && q.top == p.top && q.right == p.right && q.bottom
                    == p.bottom,
                None => false,
            };
            let put = if !same || !s.shown {
                Some(p)
            } else {
                None
            };
            (
                Shadow { exists: true, shown: true, place: Some(p), w, h },
                ShadowWork {
                    hide: false,
                    redraw: s.w != w || s.h != h,
                    put,
                    show: !s.shown,
                },
            )
        },
    }
}

/// What a window asks for that was moved or resized.
#[derive(Clone, Copy, Debug)]
pub struct MoveWork {
    /// The new size of its picture, and its content to be drawn anew.
    pub resize: Option<(u32, u32)>,
    /// The stack is to be laid out anew.
    pub relayout: bool,
}

/// What a window asks for whose picture was `w` by `h` pixels and that was
/// moved or resized: a new picture where the size differs, and a new layout
/// where the window is in the stack.
pub fn on_moved_or_resized(c: Card, w: u32, h: u32) -> (r: MoveWork)
    requires
        c.wf(),
    ensures
        ({
            let nw = crate::geometry::greater(c.rect.w(), 1);
            let nh = crate::geometry::greater(c.rect.h(), 1);
            if nw == w && nh == h {
                r.resize is None && !r.relayout
            } else {
                r.resize == Some((nw as u32, nh as u32)) && r.relayout == c.stacked()
            }
        }),
        r.resize is Some ==> (r.resize->Some_0.0 == c.rect.w() || c.rect.w() < 1) && (r.resize->Some_0.1
            == c.rect.h() || c.rect.h() < 1),
        r.resize is Some ==> r.resize->Some_0.0 >= 1 && r.resize->Some_0.1 >= 1 && r.resize->Some_0 != (w, h),
        c.rect.w() == w && c.rect.h() == h && w >= 1 && h >= 1 ==> r.resize is None,
        r.relayout <==> r.resize is Some && c.note() && !c.free && c.docked == 0,
{
    let nw: u32 = crate::geometry::max_of(c.rect.width(), 1) as u32;
    let nh: u32 = crate::geometry::max_of(c.rect.height(), 1) as u32;
    if nw == w && nh == h {
        MoveWork { resize: None, relayout: false }
    } else {
        MoveWork { resize: Some((nw, nh)), relayout: c.is_stacked() }
    }
}

/// The rectangles of all windows, with those of the shadows that show: what a
/// capture has to leave out.
pub open spec fn own_rects(cards: Seq<Card>, shadows: Seq<Shadow>, n: int) -> Seq<Rect>
    decreases n,
{
    if n <= 0 {
        Seq::empty()
    } else {
        let with_card = own_rects(cards, shadows, n - 1).push(cards[n - 1].rect);
        match shadows[n - 1].place {
            Some(p) => if shadows[n - 1].shown {
                with_card.push(p)
            } else {
                with_card
            },
            None => with_card,
        }
    }
}

/// The rectangles of all windows and of the shadows that show.
pub fn window_rects(cards: &Vec<Card>, shadows: &Vec<Shadow>) -> (out: Vec<Rect>)
    requires
        shadows@.len() == cards@.len(),
    ensures
        out@ == own_rects(cards@, shadows@, cards@.len() as int),
{
    let mut out: Vec<Rect> = Vec::new();
    let mut i: usize = 0;
    while i < cards.len()
        invariant
            i <= cards@.len(),
            shadows@.len() == cards@.len(),
            out@ == own_rects(cards@, shadows@, i as int),
        decreases cards@.len() - i,
    {
        out.push(cards[i].rect);
        if let Some(p) = shadows[i].place {
            if shadows[i].shown {
                out.push(p);
            }
        }
        i = i + 1;
    }
    out
}

/// A shadow reaches a margin beyond its window on every side, and is eight pixels wide and
/// tall at least.
pub proof fn shadows_surround_their_windows(c: Card, margin: int)
    requires
        c.wf(),
        modest(margin),
        c.rect.w() + 2 * margin >= 8,
        c.rect.h() + 2 * margin >= 8,
    ensures
        ({
            let s = lies(c, margin);
            &&& c.rect.left - s.left == margin && c.rect.top - s.top == margin
            &&& s.right - c.rect.right == margin && s.bottom - c.rect.bottom == margin
        }),
{
}

/// No shadow is less than eight pixels wide or tall.
pub proof fn shadows_have_a_least_size(c: Card, margin: int)
    requires
        c.wf(),
        modest(margin),
    ensures
        lies(c, margin).right - lies(c, margin).left >= 8,
        lies(c, margin).bottom - lies(c, margin).top >= 8,
{
}

/// What a capture leaves out is every window and every shadow that shows, and nothing else.
pub proof fn own_windows_are_all_left_out(cards: Seq<Card>, shadows: Seq<Shadow>, n: int)
    requires
        0 <= n <= cards.len(),
        shadows.len() == cards.len(),
    ensures
        forall|i: int|
            0 <= i < n ==> own_rects(cards, shadows, n).contains((#[trigger] cards[i]).rect),
        forall|i: int|
            0 <= i < n && (#[trigger] shadows[i]).shown && shadows[i].place is Some ==> own_rects(
                cards,
                shadows,
                n,
            ).contains(shadows[i].place->Some_0),
        forall|r: Rect| #[trigger]
            own_rects(cards, shadows, n).contains(r) ==> exists|i: int|
                0 <= i < n && ((#[trigger] cards[i]).rect == r || (shadows[i].shown
                    && shadows[i].place == Some(r))),
    decreases n,
{
    if n > 0 {
        own_windows_are_all_left_out(cards, shadows, n - 1);
        let a = own_rects(cards, shadows, n - 1);
        let b = own_rects(cards, shadows, n);
        let c = a.push(cards[n - 1].rect);
        assert(c[a.len() as int] == cards[n - 1].rect);
        assert(b[a.len() as int] == cards[n - 1].rect);
        assert forall|r: Rect| a.contains(r) implies #[trigger] b.contains(r) by {
            let k = choose|k: int| 0 <= k < a.len() && a[k] == r;
            assert(b[k] == r);
        }
        if shadows[n - 1].shown && shadows[n - 1].place is Some {
            assert(b[a.len() as int + 1] == shadows[n - 1].place->Some_0);
        }
        assert forall|i: int| 0 <= i < n implies b.contains((#[trigger] cards[i]).rect) by {
            if i < n - 1 {
                assert(a.contains(cards[i].rect));
            }
        }
        assert forall|i: int|
            0 <= i < n && (#[trigger] shadows[i]).shown && shadows[i].place is Some implies
            b.contains(shadows[i].place->Some_0) by {
            if i < n - 1 {
                assert(a.contains(shadows[i].place->Some_0));
            }
        }
        assert forall|r: Rect| #[trigger] b.contains(r) implies exists|i: int|
            0 <= i < n && ((#[trigger] cards[i]).rect == r || (shadows[i].shown && shadows[i].place
                == Some(r))) by {
            let k = choose|k: int| 0 <= k < b.len() && b[k] == r;
            if k < a.len() {
                assert(a[k] == r);
                assert(a.contains(r));
                let i = choose|i: int|
                    0 <= i < n - 1 && ((#[trigger] cards[i]).rect == r || (shadows[i].shown
                        && shadows[i].place == Some(r)));
                assert(cards[i].rect == cards[i].rect);
            } else {
                assert(cards[n - 1].rect == r || (shadows[n - 1].shown && shadows[n - 1].place
                    == Some(r)));
            }
        }
    }
}

} // verus!
