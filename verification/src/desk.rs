//! The desk: all windows with their texts, and what happens to them.

use vstd::prelude::*;
use crate::actions::closing_card;
use crate::actions::flung_card;
use crate::card::cards_ok;
use crate::card::fresh_card;
use crate::card::reachable;
use crate::card::window_rect;
use crate::card::Card;
use crate::card::Role;
use crate::card::MAX_CARDS;
use crate::editor::Edit;
use crate::editor::Editor;
use crate::editor::EditorValue;
use crate::geometry::Point;
use crate::geometry::Rect;
use crate::html::markup;
use crate::html::markup_round_trip;
use crate::html::markup_text;
use crate::html::note_html;
use crate::html::parse_html;
use crate::html::styled;
use crate::metrics::modest;
use crate::prox::Tuck;
use crate::stack::all_sent;
use crate::stack::lemma_moved_only;
use crate::stack::lemma_sent_only;
use crate::stack::only_sent;
use crate::stack::relayout_stack;
use crate::stack::stack_targets;
use crate::store::loaded_store;
use crate::store::note_views;
use crate::store::note_survives;
use crate::store::saved_store_is_loaded;
use crate::store::store_text;
use crate::store::store_written;
use crate::store::survives;
use crate::store::NoteData;
use crate::store::NoteValue;
use crate::store::Store;
use crate::store::StoreValue;

verus! {

/// The text of a window; that of the button and of the pills is never used.
pub struct Content {
    pub editor: Editor,
    /// The size of the letters as a decimal number.
    pub font_size: String,
}

/// A note under the hand.
#[derive(Clone, Copy, Debug, PartialEq, Eq, Structural)]
pub struct Drag {
    pub idx: usize,
    /// Where the note was grabbed, from its top left corner.
    pub grab: Point,
    /// The hand has left the spot.
    pub moved: bool,
    /// Where the cursor was last.
    pub last: Point,
    /// Where the note was.
    pub from: Rect,
    /// The note was out of the stack.
    pub free: bool,
}

/// A deleted note.
pub struct Deleted {
    /// The number of its deletion.
    pub stamp: u64,
    pub note: NoteData,
}

/// What a deleted note says.
pub ghost struct DeletedValue {
    pub stamp: u64,
    pub note: NoteValue,
}

impl View for Deleted {
    type V = DeletedValue;

    open spec fn view(&self) -> DeletedValue {
        DeletedValue { stamp: self.stamp, note: self.note@ }
    }
}

/// The views of deleted notes.
pub open spec fn pile_view(v: Seq<Deleted>) -> Seq<DeletedValue> {
    v.map_values(|n: Deleted| n@)
}

/// How many deleted notes can be brought back.
pub const MAX_TRASH: usize = 20;

/// The desk.
pub struct Desk {
    pub cards: Vec<Card>,
    pub contents: Vec<Content>,
    /// The note that the keyboard writes to.
    pub focused: Option<usize>,
    pub drag: Option<Drag>,
    /// The mouse selects text.
    pub selecting: bool,
    /// The caret shows in this phase of its blinking.
    pub caret_on: bool,
    /// Deleted notes, in the order in which their deletions began.
    pub trash: Vec<Deleted>,
    /// The greatest number that a deletion was given.
    pub deletions: u64,
    pub next_id: u64,
    /// There is something to save.
    pub dirty: bool,
    pub menu_open: bool,
    /// The cluster has made room for the menu.
    pub slid: bool,
    pub tuck: Tuck,
    /// The windows are kept out of screen captures.
    pub live: bool,
    /// Docked notes slide out under the mouse.
    pub slide_out: bool,
}

/// The rectangle of a saved note.
pub open spec fn saved_rect(n: NoteValue) -> Rect {
    Rect { left: n.x, top: n.y, right: (n.x + n.w) as i32, bottom: (n.y + n.h) as i32 }
}

/// A deleted note can be put back.
pub open spec fn restorable(n: NoteValue) -> bool {
    0 <= n.w <= 0x20000 && 0 <= n.h <= 0x20000 && window_rect(saved_rect(n))
}

/// No deletion has a number beyond `n`.
pub open spec fn stamped(cards: Seq<Card>, n: u64) -> bool {
    forall|i: int| 0 <= i < cards.len() ==> (#[trigger] cards[i]).stamp() <= n
}

/// What was deleted can be put back, the pile is in the order of the deletions,
/// and none has a number beyond `n`.
pub open spec fn pile_ok(t: Seq<Deleted>, n: u64) -> bool {
    &&& t.len() <= MAX_TRASH
    &&& forall|i: int, j: int| 0 <= i < j < t.len() ==> t[i].stamp <= t[j].stamp
    &&& forall|i: int|
        0 <= i < t.len() ==> restorable((#[trigger] t[i]).note@) && t[i].stamp <= n
}

/// Every text is sound.
pub open spec fn contents_ok(v: Seq<Content>) -> bool {
    forall|i: int| 0 <= i < v.len() ==> (#[trigger] v[i]).editor.wf()
}

impl Desk {
    /// There is a text for each window, the note with the keyboard is a note,
    /// the dragged window is there, what was deleted can be put back, and no
    /// deletion has a number beyond those that have begun.
    pub open spec fn wf(self) -> bool {
        &&& cards_ok(self.cards@)
        &&& self.contents@.len() == self.cards@.len()
        &&& contents_ok(self.contents@)
        &&& self.focused matches Some(i) ==> i < self.cards@.len() && self.cards@[i as int].note()
        &&& self.drag matches Some(d) ==> d.idx < self.cards@.len() && window_rect(d.from)
            && self.cards@[d.idx as int].note() && d.last.wf() && reachable(d.grab)
        &&& pile_ok(self.trash@, self.deletions)
        &&& stamped(self.cards@, self.deletions)
    }
}

/// The window at `r`.
fn standing_at(c: Card, r: Rect) -> (d: Card)
    requires
        c.wf(),
        window_rect(r),
    ensures
        d == (Card { rect: r, ..c }),
        d.wf(),
{
    let mut d: Card = c;
    d.rect = r;
    d
}

impl Desk {
    /// A desk with nothing on it but the button.
    pub fn new(button: Rect, live: bool) -> (d: Desk)
        requires
            window_rect(button),
        ensures
            d.wf(),
            d.cards@ == seq![fresh_card(Role::Button, 0, button)],
            reads(d.contents@[0], ""@, "16.0"@),
            d.focused is None,
            d.drag is None,
            !d.selecting,
            d.caret_on,
            d.trash@.len() == 0,
            d.deletions == 0,
            d.next_id == 1,
            !d.dirty,
            !d.menu_open,
            !d.slid,
            d.tuck == (Tuck { tucked: false, idle_ms: 0 }),
            d.live == live,
            !d.slide_out,
    {
        let mut cards: Vec<Card> = Vec::new();
        cards.push(Card::new(Role::Button, 0, button));
        let mut contents: Vec<Content> = Vec::new();
        contents.push(content_of("", "16.0".to_owned()));
        assert(cards@ =~= seq![fresh_card(Role::Button, 0, button)]);
        Desk {
            cards,
            contents,
            focused: None,
            drag: None,
            selecting: false,
            caret_on: true,
            trash: Vec::new(),
            deletions: 0,
            next_id: 1,
            dirty: false,
            menu_open: false,
            slid: false,
            tuck: Tuck { tucked: false, idle_ms: 0 },
            live,
            slide_out: false,
        }
    }

    /// A window is at `r` now.
    pub fn place(&mut self, i: usize, r: Rect)
        requires
            old(self).wf(),
            i < old(self).cards@.len(),
            window_rect(r),
        ensures
            final(self).wf(),
            final(self).cards@ == old(self).cards@.update(
                i as int,
                Card { rect: r, ..old(self).cards@[i as int] },
            ),
            *final(self) == (Desk { cards: final(self).cards, ..*old(self) }),
            final(self).cards@[i as int].rect == r,
            forall|j: int|
                0 <= j < old(self).cards@.len() && j != i ==> #[trigger] final(self).cards@[j] == old(
                    self,
                ).cards@[j],
    {
        assert(self.cards@[i as int].wf());
        let c: Card = standing_at(self.cards[i], r);
        self.set_card(i, c);
    }

    /// The letters of a note have this size now.
    pub fn set_font(&mut self, i: usize, font_size: String)
        requires
            old(self).wf(),
            i < old(self).cards@.len(),
        ensures
            final(self).wf(),
            final(self).contents@ == old(self).contents@.update(
                i as int,
                Content { font_size, ..old(self).contents@[i as int] },
            ),
            *final(self) == (Desk { contents: final(self).contents, ..*old(self) }),
            final(self).contents@[i as int].editor == old(self).contents@[i as int].editor,
            final(self).contents@[i as int].font_size == font_size,
    {
        let ghost before = self.contents@;
        self.contents[i].font_size = font_size;
        assert(self.contents@ =~= before.update(
            i as int,
            Content { font_size, ..before[i as int] },
        ));
    }
}

/// What is kept of a note that stands at `r`.
pub open spec fn record(c: Card, x: Content, r: Rect) -> NoteValue {
    NoteValue {
        id: c.id,
        text: markup_text(styled(x.editor.text@, x.editor.attrs@), 0),
        x: r.left,
        y: r.top,
        w: r.w() as i32,
        h: r.h() as i32,
        free: c.free,
        docked: c.docked,
        color: c.color,
        font_size: x.font_size@,
    }
}

/// What is kept of a note that stands at `r`.
fn record_of(c: Card, x: &Content, r: Rect) -> (n: NoteData)
    requires
        window_rect(r),
    ensures
        n@ == record(c, *x, r),
{
    NoteData {
        id: c.id,
        text: note_html(&x.editor.text, &x.editor.attrs),
        x: r.left,
        y: r.top,
        w: r.width(),
        h: r.height(),
        free: c.free,
        docked: c.docked,
        color: c.color,
        font_size: x.font_size.clone(),
    }
}

/// What is kept of the notes among the first `n` windows.
pub open spec fn records(cards: Seq<Card>, contents: Seq<Content>, n: int) -> Seq<NoteValue>
    decreases n,
{
    if n <= 0 {
        Seq::empty()
    } else if cards[n - 1].note() {
        records(cards, contents, n - 1).push(
            record(cards[n - 1], contents[n - 1], cards[n - 1].rect),
        )
    } else {
        records(cards, contents, n - 1)
    }
}

impl Desk {
    /// What is to be saved: every note, and nothing of the button and the
    /// pills.
    pub fn snapshot(&self) -> (s: Store)
        requires
            self.wf(),
        ensures
            s@ == (StoreValue {
                version: 1,
                next_id: self.next_id,
                notes: records(self.cards@, self.contents@, self.cards@.len() as int),
            }),
    {
        let mut notes: Vec<NoteData> = Vec::new();
        let mut i: usize = 0;
        assert(note_views(notes@) =~= Seq::<NoteValue>::empty());
        while i < self.cards.len()
            invariant
                self.wf(),
                i <= self.cards@.len(),
                note_views(notes@) == records(self.cards@, self.contents@, i as int),
            decreases self.cards@.len() - i,
        {
            let c: Card = self.cards[i];
            assert(self.cards@[i as int].wf());
            if c.is_note() {
                let ghost before = note_views(notes@);
                let n = record_of(c, &self.contents[i], c.rect);
                let ghost v = n@;
                notes.push(n);
                assert(note_views(notes@) =~= before.push(v));
            }
            i = i + 1;
        }
        Store { version: 1, next_id: self.next_id, notes }
    }
}

/// The window is to be destroyed.
pub open spec fn doomed(c: Card) -> bool {
    c.dying && c.role != Role::Button
}

/// The first `n` windows without those to be destroyed.
pub open spec fn alive(cards: Seq<Card>, n: int) -> Seq<Card>
    decreases n,
{
    if n <= 0 {
        Seq::empty()
    } else if doomed(cards[n - 1]) {
        alive(cards, n - 1)
    } else {
        alive(cards, n - 1).push(cards[n - 1])
    }
}

/// The texts of the first `n` windows without those to be destroyed.
pub open spec fn alive_texts(cards: Seq<Card>, contents: Seq<Content>, n: int) -> Seq<Content>
    decreases n,
{
    if n <= 0 {
        Seq::empty()
    } else if doomed(cards[n - 1]) {
        alive_texts(cards, contents, n - 1)
    } else {
        alive_texts(cards, contents, n - 1).push(contents[n - 1])
    }
}

/// The number of a window after those to be destroyed are gone.
pub open spec fn renumbered(cards: Seq<Card>, i: Option<usize>) -> Option<usize> {
    match i {
        Some(j) => if doomed(cards[j as int]) {
            None
        } else {
            Some(alive(cards, j as int).len() as usize)
        },
        None => None,
    }
}

/// The drag after the windows to be destroyed are gone.
pub open spec fn redragged(cards: Seq<Card>, d: Option<Drag>) -> Option<Drag> {
    match d {
        Some(d) => match renumbered(cards, Some(d.idx)) {
            Some(k) => Some(Drag { idx: k, ..d }),
            None => None,
        },
        None => None,
    }
}

/// What a note leaves behind: what is kept of it as it was before its deletion
/// began.
pub open spec fn remains(c: Card, x: Content) -> DeletedValue {
    DeletedValue {
        stamp: c.stamp(),
        note: record(c.before_leaving(), x, c.before_leaving().rect),
    }
}

/// A deleted note put into its place on the pile, by the number of its deletion.
pub open spec fn stowed(t: Seq<DeletedValue>, r: DeletedValue) -> Seq<DeletedValue>
    decreases t.len(),
{
    if t.len() == 0 || t.last().stamp <= r.stamp {
        t.push(r)
    } else {
        stowed(t.drop_last(), r).push(t.last())
    }
}

/// The newest of the deleted notes.
pub open spec fn newest(t: Seq<DeletedValue>) -> Seq<DeletedValue> {
    if t.len() <= MAX_TRASH {
        t
    } else {
        t.skip(t.len() - MAX_TRASH)
    }
}

/// The window is a note that is to be destroyed.
pub open spec fn doomed_note(c: Card) -> bool {
    doomed(c) && c.note()
}

/// The pile `t` after the notes to be destroyed went on it, from window `n - 1`
/// down to `from`.
pub open spec fn piled(
    t: Seq<DeletedValue>,
    cards: Seq<Card>,
    contents: Seq<Content>,
    n: int,
    from: int,
) -> Seq<DeletedValue>
    decreases n - from,
{
    if n <= from {
        t
    } else {
        let p = piled(t, cards, contents, n, from + 1);
        if doomed_note(cards[from]) {
            newest(stowed(p, remains(cards[from], contents[from])))
        } else {
            p
        }
    }
}

/// There is a note to be destroyed among the windows from `from` up to `n`.
pub open spec fn any_doomed(cards: Seq<Card>, n: int, from: int) -> bool {
    exists|i: int| from <= i < n && doomed_note(#[trigger] cards[i])
}

/// The surviving windows are sound, and each is found under its new number.
proof fn lemma_alive(cards: Seq<Card>, n: int, j: int)
    requires
        cards_ok(cards),
        0 < n <= cards.len(),
        0 <= j < n,
    ensures
        0 < alive(cards, n).len() <= n,
        alive(cards, n)[0] == cards[0],
        forall|i: int| 0 < i < alive(cards, n).len() ==> (#[trigger] alive(cards, n)[i]).role
            != Role::Button,
        forall|i: int| 0 <= i < alive(cards, n).len() ==> (#[trigger] alive(cards, n)[i]).wf(),
        forall|m: u64| #[trigger] stamped(cards, m) ==> stamped(alive(cards, n), m),
        !doomed(cards[j]) ==> alive(cards, j).len() < alive(cards, n).len() && alive(
            cards,
            n,
        )[alive(cards, j).len() as int] == cards[j],
    decreases n,
{
    assert(cards[n - 1].wf());
    if n > 1 {
        if j < n - 1 {
            lemma_alive(cards, n - 1, j);
        } else {
            lemma_alive(cards, n - 1, 0);
        }
        assert(cards[n - 1].role != Role::Button);
    } else {
        assert(alive(cards, 0) =~= Seq::<Card>::empty());
    }
}

proof fn lemma_alive_texts(cards: Seq<Card>, contents: Seq<Content>, n: int)
    requires
        0 <= n <= cards.len(),
        contents.len() == cards.len(),
        contents_ok(contents),
    ensures
        alive_texts(cards, contents, n).len() == alive(cards, n).len(),
        contents_ok(alive_texts(cards, contents, n)),
    decreases n,
{
    if n > 0 {
        lemma_alive_texts(cards, contents, n - 1);
    }
}

proof fn lemma_reverse_push<A>(a: Seq<A>, v: A, k: Seq<A>)
    ensures
        a.push(v) + k.reverse() == a + k.push(v).reverse(),
{
    assert(a.push(v) + k.reverse() =~= a + k.push(v).reverse());
}

/// How many of the first `j` windows survive.
fn rank(cards: &Vec<Card>, j: usize) -> (r: usize)
    requires
        j <= cards@.len(),
    ensures
        r == alive(cards@, j as int).len(),
        r <= j,
{
    let mut r: usize = 0;
    let mut i: usize = 0;
    while i < j
        invariant
            i <= j <= cards@.len(),
            r == alive(cards@, i as int).len(),
            r <= i,
        decreases j - i,
    {
        if !is_doomed(cards[i]) {
            r = r + 1;
        }
        i = i + 1;
    }
    r
}

/// Whether the window is to be destroyed.
fn is_doomed(c: Card) -> (r: bool)
    ensures
        r == doomed(c),
{
    c.dying && !matches!(c.role, Role::Button)
}

/// Putting a deleted note before all later ones is putting it into its place.
proof fn lemma_stowed(t: Seq<DeletedValue>, k: int, r: DeletedValue)
    requires
        0 <= k <= t.len(),
        forall|j: int| k <= j < t.len() ==> (#[trigger] t[j]).stamp > r.stamp,
        k > 0 ==> t[k - 1].stamp <= r.stamp,
    ensures
        t.insert(k, r) == stowed(t, r),
    decreases t.len(),
{
    if k == t.len() {
        assert(t.insert(k, r) =~= t.push(r));
    } else {
        let d = t.drop_last();
        assert(t[t.len() - 1].stamp > r.stamp);
        assert forall|j: int| k <= j < d.len() implies (#[trigger] d[j]).stamp > r.stamp by {
            assert(d[j] == t[j]);
        }
        lemma_stowed(d, k, r);
        assert(t.insert(k, r) =~= d.insert(k, r).push(t.last()));
    }
}

/// A pile stays in order where a deleted note goes into its place.
proof fn lemma_in_order(t: Seq<Deleted>, k: int, d: Deleted, i: int, j: int)
    requires
        0 <= k <= t.len(),
        forall|a: int, b: int| 0 <= a < b < t.len() ==> t[a].stamp <= t[b].stamp,
        forall|a: int| k <= a < t.len() ==> pile_view(t)[a].stamp > d.stamp,
        k > 0 ==> t[k - 1].stamp <= d.stamp,
        0 <= i < j <= t.len(),
    ensures
        t.insert(k, d)[i].stamp <= t.insert(k, d)[j].stamp,
{
    let u = t.insert(k, d);
    if j < k {
        assert(u[i] == t[i] && u[j] == t[j]);
    } else if j == k {
        assert(u[i] == t[i] && u[j] == d);
        if i < k - 1 {
            assert(t[i].stamp <= t[k - 1].stamp);
        }
    } else {
        assert(u[j] == t[j - 1]);
        assert(pile_view(t)[j - 1].stamp == t[j - 1].stamp);
        if i < k {
            assert(u[i] == t[i]);
            assert(t[i].stamp <= t[j - 1].stamp || i == j - 1);
        } else if i > k {
            assert(u[i] == t[i - 1]);
            assert(t[i - 1].stamp <= t[j - 1].stamp);
        }
    }
}

/// Puts a deleted note on the pile, from which the oldest falls when it is too
/// high.
fn discard(trash: &mut Vec<Deleted>, d: Deleted, Ghost(n): Ghost<u64>)
    requires
        pile_ok(old(trash)@, n),
        restorable(d.note@),
        d.stamp <= n,
    ensures
        pile_view(final(trash)@) == newest(stowed(pile_view(old(trash)@), d@)),
        pile_ok(final(trash)@, n),
{
    let ghost t = pile_view(trash@);
    let ghost v = d@;
    let mut k: usize = trash.len();
    while k > 0 && trash[k - 1].stamp > d.stamp
        invariant
            k <= trash@.len(),
            trash@ == old(trash)@,
            t == pile_view(trash@),
            v == d@,
            forall|j: int| k <= j < t.len() ==> (#[trigger] t[j]).stamp > v.stamp,
        decreases k,
    {
        k = k - 1;
    }
    proof {
        lemma_stowed(t, k as int, v);
    }
    let ghost before = trash@;
    trash.insert(k, d);
    assert(pile_view(trash@) =~= t.insert(k as int, v));
    assert forall|i: int| 0 <= i < trash@.len() implies restorable((#[trigger] trash@[i]).note@)
        && trash@[i].stamp <= n by {
        if i < k {
            assert(trash@[i] == before[i]);
        } else if i > k {
            assert(trash@[i] == before[i - 1]);
        }
    }
    assert forall|i: int, j: int| 0 <= i < j < trash@.len() implies trash@[i].stamp
        <= trash@[j].stamp by {
        lemma_in_order(before, k as int, d, i, j);
    }
    if trash.len() > MAX_TRASH {
        let ghost full = trash@;
        trash.remove(0);
        assert(pile_view(trash@) =~= pile_view(full).skip(1));
        assert forall|i: int| 0 <= i < trash@.len() implies restorable((#[trigger] trash@[i]).note@)
            && trash@[i].stamp <= n by {
            assert(trash@[i] == full[i + 1]);
        }
    }
}

/// The windows that were destroyed, the last first.
pub open spec fn reaped_list(cards: Seq<Card>, gone: Seq<usize>) -> bool {
    &&& forall|a: int, b: int| 0 <= a < b < gone.len() ==> gone[a] > gone[b]
    &&& forall|i: usize|
        #[trigger] gone.contains(i) <==> i < cards.len() && doomed(cards[i as int])
}

impl Desk {
    /// Takes the windows to be destroyed out, from the last down.
    fn take_out(&mut self) -> (r: (Vec<usize>, bool))
        requires
            old(self).wf(),
        ensures
            final(self).cards@ == alive(old(self).cards@, old(self).cards@.len() as int),
            final(self).contents@ == alive_texts(
                old(self).cards@,
                old(self).contents@,
                old(self).cards@.len() as int,
            ),
            pile_view(final(self).trash@) == piled(
                pile_view(old(self).trash@),
                old(self).cards@,
                old(self).contents@,
                old(self).cards@.len() as int,
                0,
            ),
            pile_ok(final(self).trash@, old(self).deletions),
            *final(self) == (Desk {
                cards: final(self).cards,
                contents: final(self).contents,
                trash: final(self).trash,
                ..*old(self)
            }),
            reaped_list(old(self).cards@, r.0@),
            r.1 == any_doomed(old(self).cards@, old(self).cards@.len() as int, 0),
    {
        let ghost c0 = self.cards@;
        let ghost x0 = self.contents@;
        let ghost t0 = pile_view(self.trash@);
        let n: usize = self.cards.len();
        let mut keep: Vec<Card> = Vec::new();
        let mut keep_texts: Vec<Content> = Vec::new();
        let mut gone: Vec<usize> = Vec::new();
        let mut any = false;
        let mut i: usize = n;
        proof {
            assert(c0.take(n as int) == c0);
            assert(x0.take(n as int) == x0);
            assert(alive(c0, n as int) + keep@.reverse() =~= alive(c0, n as int));
            assert(alive_texts(c0, x0, n as int) + keep_texts@.reverse() =~= alive_texts(
                c0,
                x0,
                n as int,
            ));
        }
        while i > 0
            invariant
                i <= n,
                n == c0.len(),
                x0.len() == n,
                cards_ok(c0),
                self.cards@ == c0.take(i as int),
                self.contents@ == x0.take(i as int),
                alive(c0, i as int) + keep@.reverse() == alive(c0, n as int),
                alive_texts(c0, x0, i as int) + keep_texts@.reverse() == alive_texts(
                    c0,
                    x0,
                    n as int,
                ),
                pile_view(self.trash@) == piled(t0, c0, x0, n as int, i as int),
                pile_ok(self.trash@, old(self).deletions),
                stamped(c0, old(self).deletions),
                *self == (Desk {
                    cards: self.cards,
                    contents: self.contents,
                    trash: self.trash,
                    ..*old(self)
                }),
                forall|a: int, b: int| 0 <= a < b < gone@.len() ==> gone@[a] > gone@[b],
                forall|k: usize|
                    #[trigger] gone@.contains(k) <==> i <= k < n && doomed(c0[k as int]),
                any == any_doomed(c0, n as int, i as int),
            decreases i,
        {
            i = i - 1;
            assert(any_doomed(c0, n as int, i as int) == (doomed_note(c0[i as int]) || any_doomed(
                c0,
                n as int,
                i + 1,
            )));
            let popped = self.cards.pop();
            let popped_text = self.contents.pop();
            proof {
                assert(c0.take(i + 1).drop_last() =~= c0.take(i as int));
                assert(x0.take(i + 1).drop_last() =~= x0.take(i as int));
            }
            if let (Some(c), Some(x)) = (popped, popped_text) {
                assert(c == c0[i as int]);
                assert(x == x0[i as int]);
                assert(c0[i as int].wf());
                if is_doomed(c) {
                    let ghost seen = gone@;
                    gone.push(i);
                    proof {
                        lemma_gone(seen, i);
                        assert forall|a: int| 0 <= a < seen.len() implies #[trigger] seen[a] > i by {
                            assert(seen.contains(seen[a]));
                        }
                    }
                    if c.is_note() {
                        let (was, stamp) = c.at_leaving();
                        let note = record_of(was, &x, was.rect);
                        assert(restorable(note@));
                        discard(
                            &mut self.trash,
                            Deleted { stamp, note },
                            Ghost(old(self).deletions),
                        );
                        any = true;
                    }
                } else {
                    proof {
                        lemma_reverse_push(alive(c0, i as int), c, keep@);
                        lemma_reverse_push(alive_texts(c0, x0, i as int), x, keep_texts@);
                    }
                    keep.push(c);
                    keep_texts.push(x);
                }
            }
        }
        proof {
            assert(alive(c0, 0) =~= Seq::<Card>::empty());
            assert(alive_texts(c0, x0, 0) =~= Seq::<Content>::empty());
            assert(self.cards@ + keep@.reverse() =~= alive(c0, n as int));
            assert(self.contents@ + keep_texts@.reverse() =~= alive_texts(c0, x0, n as int));
        }
        self.put_back(keep, keep_texts);
        (gone, any)
    }

    /// Puts windows back, the last of them first.
    fn put_back(&mut self, keep: Vec<Card>, keep_texts: Vec<Content>)
        ensures
            final(self).cards@ == old(self).cards@ + keep@.reverse(),
            final(self).contents@ == old(self).contents@ + keep_texts@.reverse(),
            *final(self) == (Desk {
                cards: final(self).cards,
                contents: final(self).contents,
                ..*old(self)
            }),
    {
        let mut k = keep;
        let mut x = keep_texts;
        while k.len() > 0
            invariant
                self.cards@ + k@.reverse() == old(self).cards@ + keep@.reverse(),
                *self == (Desk { cards: self.cards, ..*old(self) }),
            decreases k@.len(),
        {
            let ghost before = k@;
            let ghost had = self.cards@;
            if let Some(c) = k.pop() {
                self.cards.push(c);
                proof {
                    assert(before =~= k@.push(c));
                    lemma_reverse_push(had, c, k@);
                }
            }
        }
        assert(self.cards@ + k@.reverse() =~= self.cards@);
        while x.len() > 0
            invariant
                self.contents@ + x@.reverse() == old(self).contents@ + keep_texts@.reverse(),
                *self == (Desk { cards: self.cards, contents: self.contents, ..*old(self) }),
                self.cards@ == old(self).cards@ + keep@.reverse(),
            decreases x@.len(),
        {
            let ghost before = x@;
            let ghost had = self.contents@;
            if let Some(c) = x.pop() {
                self.contents.push(c);
                proof {
                    assert(before =~= x@.push(c));
                    lemma_reverse_push(had, c, x@);
                }
            }
        }
        assert(self.contents@ + x@.reverse() =~= self.contents@);
    }
}

proof fn lemma_gone(seen: Seq<usize>, i: usize)
    ensures
        forall|k: usize| #[trigger] seen.push(i).contains(k) <==> seen.contains(k) || k == i,
{
    let g = seen.push(i);
    assert forall|k: usize| #[trigger] g.contains(k) <==> seen.contains(k) || k == i by {
        assert(g[seen.len() as int] == i);
        if seen.contains(k) {
            let m = choose|m: int| 0 <= m < seen.len() && seen[m] == k;
            assert(g[m] == k);
        }
        if g.contains(k) && k != i {
            let m = choose|m: int| 0 <= m < g.len() && g[m] == k;
            assert(seen[m] == k);
        }
    }
}

/// The windows after a reaping: where a note went, the stack closes the gap.
pub open spec fn reaped_cards(cards: Seq<Card>, gap: int) -> Seq<Card> {
    let n = cards.len() as int;
    let left = alive(cards, n);
    if any_doomed(cards, n, 0) {
        all_sent(left, stack_targets(left, gap), true)
    } else {
        left
    }
}

impl Desk {
    /// Takes every window out that is to be destroyed. Notes among them can be
    /// brought back, the newest of them; the numbers of the others move up. The
    /// result names the windows, the last first.
    pub fn reap_dying(&mut self, gap: i32) -> (gone: Vec<usize>)
        requires
            old(self).wf(),
            modest(gap as int),
        ensures
            final(self).wf(),
            reaped_list(old(self).cards@, gone@),
            final(self).cards@ == reaped_cards(old(self).cards@, gap as int),
            final(self).contents@ == alive_texts(
                old(self).cards@,
                old(self).contents@,
                old(self).cards@.len() as int,
            ),
            pile_view(final(self).trash@) == piled(
                pile_view(old(self).trash@),
                old(self).cards@,
                old(self).contents@,
                old(self).cards@.len() as int,
                0,
            ),
            *final(self) == (Desk {
                cards: final(self).cards,
                contents: final(self).contents,
                trash: final(self).trash,
                focused: renumbered(old(self).cards@, old(self).focused),
                drag: redragged(old(self).cards@, old(self).drag),
                dirty: old(self).dirty || any_doomed(
                    old(self).cards@,
                    old(self).cards@.len() as int,
                    0,
                ),
                ..*old(self)
            }),
    {
        let ghost c0 = self.cards@;
        let ghost x0 = self.contents@;
        let ghost n = c0.len() as int;
        proof {
            lemma_alive(c0, n, 0);
            lemma_alive_texts(c0, x0, n);
            if let Some(j) = self.focused {
                lemma_alive(c0, n, j as int);
            }
            if let Some(d) = self.drag {
                lemma_alive(c0, n, d.idx as int);
            }
        }
        let focused = match self.focused {
            Some(j) => if is_doomed(self.cards[j]) {
                None
            } else {
                Some(rank(&self.cards, j))
            },
            None => None,
        };
        let drag = match self.drag {
            Some(d) => if is_doomed(self.cards[d.idx]) {
                None
            } else {
                Some(
                    Drag {
                        idx: rank(&self.cards, d.idx),
                        grab: d.grab,
                        moved: d.moved,
                        last: d.last,
                        from: d.from,
                        free: d.free,
                    },
                )
            },
            None => None,
        };
        let (gone, any) = self.take_out();
        self.focused = focused;
        self.drag = drag;
        assert(cards_ok(self.cards@));
        assert(self.wf());
        if any {
            let ghost left = self.cards@;
            relayout_stack(&mut self.cards, gap, true);
            self.dirty = true;
            proof {
                lemma_still(left, self.cards@, self.focused, self.drag);
            }
        }
        gone
    }
}

/// Notes stay notes where windows are only sent elsewhere.
pub proof fn lemma_still(a: Seq<Card>, b: Seq<Card>, focused: Option<usize>, drag: Option<Drag>)
    requires
        only_sent(a, b),
        focused matches Some(i) ==> i < a.len() && a[i as int].note(),
        drag matches Some(d) ==> d.idx < a.len() && a[d.idx as int].note(),
    ensures
        focused matches Some(i) ==> b[i as int].note(),
        drag matches Some(d) ==> b[d.idx as int].note(),
        forall|n: u64| #[trigger] stamped(a, n) ==> stamped(b, n),
{
    assert forall|n: u64| #[trigger] stamped(a, n) implies stamped(b, n) by {
        assert forall|i: int| 0 <= i < b.len() implies (#[trigger] b[i]).stamp() <= n by {
            lemma_moved_only(a[i], b[i]);
            assert(a[i].stamp() <= n);
        }
    }
    if let Some(i) = focused {
        lemma_moved_only(a[i as int], b[i as int]);
    }
    if let Some(d) = drag {
        lemma_moved_only(a[d.idx as int], b[d.idx as int]);
    }
}

/// A note that comes back from the pile.
pub open spec fn restored_card(n: NoteValue) -> Card {
    Card {
        free: n.free,
        docked: n.docked,
        color: n.color,
        ..fresh_card(Role::Note, n.id, saved_rect(n))
    }
}

/// A text that was read from markup, with nothing to undo.
pub open spec fn reads(x: Content, text: Seq<char>, font_size: Seq<char>) -> bool {
    &&& x.editor.wf()
    &&& styled(x.editor.text@, x.editor.attrs@) == markup(text, 0)
    &&& x.editor.attrs@.len() == x.editor.text@.len()
    &&& x.editor@ == (EditorValue {
        text: x.editor.text@,
        attrs: x.editor.attrs@,
        caret: 0,
        sel: None,
        undo: Seq::empty(),
        redo: Seq::empty(),
        kind: Edit::Fresh,
    })
    &&& x.font_size@ == font_size
}

/// The text of a saved note.
pub(crate) fn content_of(text: &str, font_size: String) -> (x: Content)
    ensures
        reads(x, text@, font_size@),
{
    let (chars, attrs) = parse_html(text);
    Content { editor: Editor::new(chars, attrs), font_size }
}

impl Desk {
    /// Adds a window.
    pub(crate) fn push_window(&mut self, c: Card, x: Content)
        requires
            old(self).wf(),
            old(self).cards@.len() < MAX_CARDS,
            c.wf(),
            c.role != Role::Button,
            c.stamp() <= old(self).deletions,
            x.editor.wf(),
        ensures
            final(self).wf(),
            final(self).cards@ == old(self).cards@.push(c),
            final(self).contents@ == old(self).contents@.push(x),
            *final(self) == (Desk {
                cards: final(self).cards,
                contents: final(self).contents,
                ..*old(self)
            }),
    {
        self.cards.push(c);
        self.contents.push(x);
    }

    /// Where the last deleted note was.
    pub fn deleted_rect(&self) -> (r: Option<Rect>)
        requires
            self.wf(),
        ensures
            r == if self.trash@.len() > 0 {
                Some(saved_rect(self.trash@[self.trash@.len() - 1].note@))
            } else {
                None
            },
    {
        let n: usize = self.trash.len();
        if n == 0 {
            return None;
        }
        let d = &self.trash[n - 1].note;
        assert(restorable(self.trash@[n - 1].note@));
        Some(Rect { left: d.x, top: d.y, right: d.x + d.w, bottom: d.y + d.h })
    }

    /// Brings the last deleted note back, where a window for it was created,
    /// and fades it in. It is off the pile either way. True where a note came
    /// back.
    pub fn undo_delete(&mut self, created: bool, gap: i32) -> (r: bool)
        requires
            old(self).wf(),
            old(self).cards@.len() < MAX_CARDS,
            modest(gap as int),
        ensures
            final(self).wf(),
            r == (created && old(self).trash@.len() > 0),
            final(self).trash@ == if old(self).trash@.len() > 0 {
                old(self).trash@.drop_last()
            } else {
                old(self).trash@
            },
            r ==> ({
                let n = old(self).trash@.last().note@;
                let added = old(self).cards@.push(restored_card(n));
                &&& final(self).cards@ == if n.free {
                    added
                } else {
                    all_sent(added, stack_targets(added, gap as int), true)
                }
                &&& final(self).contents@.drop_last() == old(self).contents@
                &&& final(self).contents@.len() == old(self).contents@.len() + 1
                &&& reads(final(self).contents@.last(), n.text, n.font_size)
            }),
            !r ==> final(self).cards@ == old(self).cards@ && final(self).contents@ == old(
                self,
            ).contents@,
            *final(self) == (Desk {
                cards: final(self).cards,
                contents: final(self).contents,
                trash: final(self).trash,
                dirty: old(self).dirty || r,
                ..*old(self)
            }),
            r ==> final(self).cards@.len() == old(self).cards@.len() + 1 && final(self).dirty,
            old(self).trash@.len() > 0 ==> final(self).trash@.len() == old(self).trash@.len() - 1,
    {
        let ghost t0 = self.trash@;
        match self.trash.pop() {
            None => false,
            Some(d) => {
                let n = d.note;
                assert(restorable(t0[t0.len() - 1].note@));
                assert(self.trash@ =~= t0.drop_last());
                if !created {
                    return false;
                }
                let rect = Rect { left: n.x, top: n.y, right: n.x + n.w, bottom: n.y + n.h };
                let mut c: Card = Card::new(Role::Note, n.id, rect);
                c.free = n.free;
                c.docked = n.docked;
                c.color = n.color;
                let free = n.free;
                let x = content_of(n.text.as_str(), n.font_size);
                let ghost x0 = self.contents@;
                self.push_window(c, x);
                assert(self.contents@.drop_last() =~= x0);
                if !free {
                    let ghost added = self.cards@;
                    relayout_stack(&mut self.cards, gap, true);
                    proof {
                        lemma_still(added, self.cards@, self.focused, self.drag);
                    }
                }
                self.dirty = true;
                true
            },
        }
    }
}

/// What a deleted note leaves behind brings it back: the same identity, place,
/// size, text, styles, colour and size of letters, and it is free, stacked or
/// docked as it was.
pub proof fn deleted_note_comes_back(c: Card, x: Content)
    requires
        c.wf(),
        c.note(),
        x.editor.wf(),
    ensures
        ({
            let was = c.before_leaving();
            let n = record(was, x, was.rect);
            &&& restored_card(n) == (Card {
                free: was.free,
                docked: c.docked,
                color: c.color,
                ..fresh_card(Role::Note, c.id, was.rect)
            })
            &&& markup(n.text, 0) == styled(x.editor.text@, x.editor.attrs@)
            &&& n.font_size == x.font_size@
            &&& restorable(n)
        }),
{
    markup_round_trip(x.editor.text@, x.editor.attrs@);
}

/// Every deletion on the pile has a number below `s`.
pub open spec fn below(t: Seq<DeletedValue>, s: int) -> bool {
    forall|k: int| 0 <= k < t.len() ==> (#[trigger] t[k]).stamp < s
}

proof fn lemma_stowed_below(t: Seq<DeletedValue>, r: DeletedValue, s: int)
    requires
        below(t, s),
        r.stamp < s,
    ensures
        below(stowed(t, r), s),
        below(newest(stowed(t, r)), s),
        newest(stowed(t, r)).len() > 0,
    decreases t.len(),
{
    if !(t.len() == 0 || t.last().stamp <= r.stamp) {
        let d = t.drop_last();
        assert forall|k: int| 0 <= k < d.len() implies (#[trigger] d[k]).stamp < s by {
            assert(d[k] == t[k]);
        }
        lemma_stowed_below(d, r, s);
        assert(t[t.len() - 1].stamp < s);
    }
    let p = stowed(t, r);
    assert forall|k: int| 0 <= k < p.len() implies (#[trigger] p[k]).stamp < s by {
        if t.len() == 0 || t.last().stamp <= r.stamp {
            if k < t.len() {
                assert(p[k] == t[k]);
            }
        } else {
            let q = stowed(t.drop_last(), r);
            if k < q.len() {
                assert(p[k] == q[k]);
            } else {
                assert(p[k] == t[t.len() - 1]);
            }
        }
    }
    let m = newest(p);
    assert forall|k: int| 0 <= k < m.len() implies (#[trigger] m[k]).stamp < s by {
        assert(m[k] == p[k + p.len() - m.len()]);
    }
}

/// The note that was deleted last ends up on top of the pile.
proof fn lemma_piled_last(
    t: Seq<DeletedValue>,
    cards: Seq<Card>,
    contents: Seq<Content>,
    n: int,
    from: int,
    i: int,
)
    requires
        0 <= from <= n <= cards.len(),
        0 <= i < n,
        doomed_note(cards[i]),
        below(t, cards[i].stamp() as int),
        forall|j: int|
            0 <= j < n && j != i && doomed_note(#[trigger] cards[j]) ==> cards[j].stamp()
                < cards[i].stamp(),
    ensures
        from > i ==> below(piled(t, cards, contents, n, from), cards[i].stamp() as int),
        from <= i ==> {
            let p = piled(t, cards, contents, n, from);
            p.len() > 0 && p.last() == remains(cards[i], contents[i])
        },
    decreases n - from,
{
    if from < n {
        lemma_piled_last(t, cards, contents, n, from + 1, i);
        let s = cards[i].stamp() as int;
        let p = piled(t, cards, contents, n, from + 1);
        if doomed_note(cards[from]) {
            let r = remains(cards[from], contents[from]);
            if from > i {
                lemma_stowed_below(p, r, s);
            } else {
                if from == i && p.len() > 0 {
                    assert(p[p.len() - 1].stamp < s);
                }
                assert(stowed(p, r).len() > 0);
                assert(newest(stowed(p, r)).last() == stowed(p, r).last());
            }
        }
    }
}

/// Without a note to be destroyed the pile stays as it is.
proof fn lemma_piled_none(
    t: Seq<DeletedValue>,
    cards: Seq<Card>,
    contents: Seq<Content>,
    n: int,
    from: int,
)
    requires
        forall|j: int| from <= j < n ==> !doomed_note(#[trigger] cards[j]),
    ensures
        piled(t, cards, contents, n, from) == t,
    decreases n - from,
{
    if from < n {
        lemma_piled_none(t, cards, contents, n, from + 1);
    }
}

/// Where one note is destroyed alone, it goes on top of the pile as it was.
proof fn lemma_piled_one(
    t: Seq<DeletedValue>,
    cards: Seq<Card>,
    contents: Seq<Content>,
    n: int,
    from: int,
    i: int,
)
    requires
        0 <= from <= i < n <= cards.len(),
        doomed_note(cards[i]),
        below(t, cards[i].stamp() as int),
        forall|j: int| from <= j < n && j != i ==> !doomed_note(#[trigger] cards[j]),
    ensures
        piled(t, cards, contents, n, from) == newest(t.push(remains(cards[i], contents[i]))),
    decreases i - from,
{
    if from < i {
        lemma_piled_one(t, cards, contents, n, from + 1, i);
    } else {
        lemma_piled_none(t, cards, contents, n, from + 1);
        if t.len() > 0 {
            assert(t[t.len() - 1].stamp < cards[i].stamp());
        }
    }
}

/// The note is the one of that deletion still: what is kept of it has not
/// changed.
pub open spec fn same_deletion(a: Card, b: Card) -> bool {
    &&& a.role == b.role
    &&& a.id == b.id
    &&& a.docked == b.docked
    &&& a.color == b.color
    &&& a.left == b.left
}

/// A deletion that begins is later than all that have begun, on the desk and on
/// the pile.
pub proof fn deletions_are_numbered_in_order(d: Desk)
    requires
        d.wf(),
    ensures
        forall|j: int|
            0 <= j < d.cards@.len() ==> (#[trigger] d.cards@[j]).stamp() < d.deletions + 1,
        below(pile_view(d.trash@), d.deletions + 1),
{
    let t = pile_view(d.trash@);
    assert forall|k: int| 0 <= k < t.len() implies (#[trigger] t[k]).stamp < d.deletions + 1 by {
        assert(t[k] == d.trash@[k]@);
        assert(d.trash@[k].stamp <= d.deletions);
    }
}

/// The note that was deleted last is the first to come back, right where it was.
///
/// Note `c` is closed, or hurled away after the hand had grabbed it at `place`,
/// `free` or in the stack; its deletion had not begun before. On the desk `d` it is to be
/// destroyed, and no other note that is, and none on the pile, was deleted later;
/// `reaped` is the desk after that, and `back` the desk once the note was brought
/// back. It is the last window, at the place where it stood when its deletion
/// began, with its identity, text, styles, colour and size of letters, and free,
/// stacked or docked as it was. It is off the pile. Where it was destroyed alone,
/// the pile is what it was, but for the oldest note of a full one.
pub proof fn last_deleted_note_is_back(
    c: Card,
    place: Rect,
    free: bool,
    stamp: u64,
    d: Desk,
    i: int,
    reaped: Desk,
    back: Desk,
    gap: int,
)
    requires
        d.wf(),
        modest(gap),
        0 <= i < d.cards@.len(),
        c.note(),
        c.left is None,
        same_deletion(d.cards@[i], closing_card(c, stamp)) && place == c.rect && free == c.free
            || same_deletion(d.cards@[i], flung_card(c, place, free, stamp)),
        doomed(d.cards@[i]),
        forall|j: int|
            0 <= j < d.cards@.len() && j != i && doomed_note(#[trigger] d.cards@[j])
                ==> d.cards@[j].stamp() < stamp,
        below(pile_view(d.trash@), stamp as int),
        reaped.cards@ == reaped_cards(d.cards@, gap),
        pile_view(reaped.trash@) == piled(
            pile_view(d.trash@),
            d.cards@,
            d.contents@,
            d.cards@.len() as int,
            0,
        ),
        reaped.trash@.len() > 0 ==> ({
            let n = reaped.trash@.last().note@;
            let added = reaped.cards@.push(restored_card(n));
            &&& back.cards@ == if n.free {
                added
            } else {
                all_sent(added, stack_targets(added, gap), true)
            }
            &&& back.contents@.len() > 0
            &&& reads(back.contents@.last(), n.text, n.font_size)
            &&& back.trash@ == reaped.trash@.drop_last()
        }),
        cards_ok(reaped.cards@),
        reaped.cards@.len() < MAX_CARDS,
    ensures
        reaped.trash@.len() > 0,
        back.cards@.len() == reaped.cards@.len() + 1,
        back.cards@.last() == (Card {
            free,
            docked: c.docked,
            color: c.color,
            pos_to: back.cards@.last().pos_to,
            ..fresh_card(Role::Note, c.id, place)
        }),
        free ==> back.cards@.last().pos_to is None,
        styled(back.contents@.last().editor.text@, back.contents@.last().editor.attrs@) == styled(
            d.contents@[i].editor.text@,
            d.contents@[i].editor.attrs@,
        ),
        back.contents@.last().font_size@ == d.contents@[i].font_size@,
        back.trash@ == reaped.trash@.drop_last(),
        (forall|j: int| 0 <= j < d.cards@.len() && j != i ==> !doomed_note(#[trigger] d.cards@[j]))
            ==> pile_view(back.trash@) == if d.trash@.len() >= MAX_TRASH {
            pile_view(d.trash@).skip(1)
        } else {
            pile_view(d.trash@)
        },
{
    let n = d.cards@.len() as int;
    let t = pile_view(d.trash@);
    let top = remains(d.cards@[i], d.contents@[i]);
    lemma_piled_last(t, d.cards@, d.contents@, n, 0, i);
    assert(d.cards@[i].wf());
    assert(d.contents@[i].editor.wf());
    deleted_note_comes_back(d.cards@[i], d.contents@[i]);
    assert(pile_view(reaped.trash@).last() == reaped.trash@.last()@);
    assert(reaped.trash@.last()@ == top);
    let added = reaped.cards@.push(restored_card(top.note));
    if !top.note.free {
        lemma_restored_ok(reaped.cards@, top.note);
        lemma_sent_only(added, gap);
        lemma_moved_only(added[added.len() - 1], back.cards@[added.len() - 1]);
    }
    if forall|j: int| 0 <= j < n && j != i ==> !doomed_note(#[trigger] d.cards@[j]) {
        lemma_piled_one(t, d.cards@, d.contents@, n, 0, i);
        let p = pile_view(reaped.trash@);
        assert(pile_view(back.trash@) =~= p.drop_last());
        assert(p.drop_last() =~= if t.len() >= MAX_TRASH {
            t.skip(1)
        } else {
            t
        });
    }
}

/// A desk with a note put back is sound.
proof fn lemma_restored_ok(cards: Seq<Card>, n: NoteValue)
    requires
        cards_ok(cards),
        cards.len() < MAX_CARDS,
        restorable(n),
    ensures
        cards_ok(cards.push(restored_card(n))),
{
    let added = cards.push(restored_card(n));
    assert forall|k: int| 0 <= k < added.len() implies (#[trigger] added[k]).wf() by {
        if k < cards.len() {
            assert(cards[k].wf());
        }
    }
    assert forall|k: int| 0 < k < added.len() implies (#[trigger] added[k]).role != Role::Button by {
        if k < cards.len() {
            assert(cards[k].role != Role::Button);
        }
    }
}

/// A window that survives is found under its new number, and so is its text:
/// the keyboard and the hand stay with their notes.
pub proof fn numbers_follow_their_windows(cards: Seq<Card>, contents: Seq<Content>, j: int)
    requires
        cards_ok(cards),
        contents.len() == cards.len(),
        0 <= j < cards.len(),
        !doomed(cards[j]),
    ensures
        ({
            let n = cards.len() as int;
            let k = alive(cards, j).len() as int;
            &&& renumbered(cards, Some(j as usize)) == Some(k as usize)
            &&& k < alive(cards, n).len()
            &&& alive(cards, n)[k] == cards[j]
            &&& alive_texts(cards, contents, n)[k] == contents[j]
        }),
{
    lemma_alive(cards, cards.len() as int, j);
    lemma_alive_text_at(cards, contents, cards.len() as int, j);
}

proof fn lemma_alive_text_at(cards: Seq<Card>, contents: Seq<Content>, n: int, j: int)
    requires
        0 <= j < n <= cards.len(),
        contents.len() == cards.len(),
        !doomed(cards[j]),
    ensures
        alive_texts(cards, contents, n).len() == alive(cards, n).len(),
        alive(cards, j).len() < alive(cards, n).len(),
        alive_texts(cards, contents, n)[alive(cards, j).len() as int] == contents[j],
    decreases n,
{
    lemma_alive_lens(cards, contents, n);
    lemma_alive_lens(cards, contents, n - 1);
    if j < n - 1 {
        lemma_alive_text_at(cards, contents, n - 1, j);
    }
}

proof fn lemma_alive_lens(cards: Seq<Card>, contents: Seq<Content>, n: int)
    ensures
        alive_texts(cards, contents, n).len() == alive(cards, n).len(),
    decreases n,
{
    if n > 0 {
        lemma_alive_lens(cards, contents, n - 1);
    }
}

/// What is saved of a desk is read back note for note, and the text of each
/// note style for style. The sizes of the letters come back as they are written.
pub proof fn saved_desk_reads_back(d: Desk)
    requires
        d.wf(),
        survives(d.next_id as int),
        forall|i: int|
            0 <= i < d.cards@.len() && (#[trigger] d.cards@[i]).note() ==> survives(
                d.cards@[i].id as int,
            ) && d.cards@[i].rect.w() > 0 && d.cards@[i].rect.h() > 0,
    ensures
        ({
            let st = StoreValue {
                version: 1,
                next_id: d.next_id,
                notes: records(d.cards@, d.contents@, d.cards@.len() as int),
            };
            &&& loaded_store(Some(store_text(st))) == store_written(st)
            &&& forall|i: int|
                0 <= i < d.cards@.len() && (#[trigger] d.cards@[i]).note() ==> {
                    let n = record(d.cards@[i], d.contents@[i], d.cards@[i].rect);
                    &&& st.notes.contains(n)
                    &&& markup(n.text, 0) == styled(
                        d.contents@[i].editor.text@,
                        d.contents@[i].editor.attrs@,
                    )
                }
        }),
{
    let n = d.cards@.len() as int;
    let st = StoreValue {
        version: 1,
        next_id: d.next_id,
        notes: records(d.cards@, d.contents@, n),
    };
    lemma_records(d.cards@, d.contents@, n);
    saved_store_is_loaded(st);
    assert forall|i: int| 0 <= i < d.cards@.len() && (#[trigger] d.cards@[i]).note() implies ({
        let r = record(d.cards@[i], d.contents@[i], d.cards@[i].rect);
        st.notes.contains(r) && markup(r.text, 0) == styled(
            d.contents@[i].editor.text@,
            d.contents@[i].editor.attrs@,
        )
    }) by {
        lemma_record_in(d.cards@, d.contents@, n, i);
        assert(d.contents@[i].editor.wf());
        markup_round_trip(d.contents@[i].editor.text@, d.contents@[i].editor.attrs@);
    }
}

proof fn lemma_records(cards: Seq<Card>, contents: Seq<Content>, n: int)
    requires
        cards_ok(cards),
        contents.len() == cards.len(),
        0 <= n <= cards.len(),
        forall|i: int|
            0 <= i < cards.len() && (#[trigger] cards[i]).note() ==> survives(cards[i].id as int)
                && cards[i].rect.w() > 0 && cards[i].rect.h() > 0,
    ensures
        forall|k: int|
            0 <= k < records(cards, contents, n).len() ==> note_survives(
                #[trigger] records(cards, contents, n)[k],
            ),
    decreases n,
{
    if n > 0 {
        lemma_records(cards, contents, n - 1);
        assert(cards[n - 1].wf());
        let before = records(cards, contents, n - 1);
        let all = records(cards, contents, n);
        assert forall|k: int| 0 <= k < all.len() implies note_survives(#[trigger] all[k]) by {
            if k < before.len() {
                assert(all[k] == before[k]);
            } else {
                assert(cards[n - 1].note());
            }
        }
    }
}

proof fn lemma_record_in(cards: Seq<Card>, contents: Seq<Content>, n: int, i: int)
    requires
        0 <= i < n <= cards.len(),
        contents.len() == cards.len(),
        cards[i].note(),
    ensures
        records(cards, contents, n).contains(record(cards[i], contents[i], cards[i].rect)),
    decreases n,
{
    let r = record(cards[i], contents[i], cards[i].rect);
    let all = records(cards, contents, n);
    if i == n - 1 {
        assert(all[all.len() - 1] == r);
    } else {
        lemma_record_in(cards, contents, n - 1, i);
        let before = records(cards, contents, n - 1);
        let k = choose|k: int| 0 <= k < before.len() && before[k] == r;
        assert(all[k] == r);
    }
}

/// What is kept of a note is where it stands and how large it is, with its identity, colour
/// and size of letters, and whether it is free, stacked or docked: from that its rectangle is
/// the same again.
pub proof fn what_is_kept_of_a_note(c: Card, x: Content, r: Rect)
    requires
        window_rect(r),
    ensures
        ({
            let n = record(c, x, r);
            &&& saved_rect(n) == r
            &&& n.x == r.left && n.y == r.top && n.x + n.w == r.right && n.y + n.h == r.bottom
            &&& n.id == c.id && n.color == c.color && n.free == c.free && n.docked == c.docked
            &&& n.font_size == x.font_size@
        }),
{
}

/// The windows that survive are those that are not dying, and the button; none of the others
/// is left, each that survives is there, and none comes from elsewhere.
pub proof fn only_the_living_survive(cards: Seq<Card>, n: int)
    requires
        0 <= n <= cards.len(),
    ensures
        forall|k: int|
            0 <= k < alive(cards, n).len() ==> !(#[trigger] alive(cards, n)[k]).dying || alive(
                cards,
                n,
            )[k].role == Role::Button,
        forall|j: int|
            0 <= j < n && (!(#[trigger] cards[j]).dying || cards[j].role == Role::Button) ==> alive(
                cards,
                n,
            ).contains(cards[j]),
        forall|k: int|
            0 <= k < alive(cards, n).len() ==> cards.take(n).contains(#[trigger] alive(cards, n)[k]),
        alive(cards, n).len() <= n,
        (forall|j: int| 0 <= j < n ==> !(#[trigger] cards[j]).dying) ==> alive(cards, n)
            == cards.take(n),
    decreases n,
{
    if n > 0 {
        only_the_living_survive(cards, n - 1);
        let a = alive(cards, n - 1);
        let b = alive(cards, n);
        let t = cards.take(n);
        let s = cards.take(n - 1);
        assert(t[n - 1] == cards[n - 1]);
        assert forall|k: int| 0 <= k < b.len() implies !(#[trigger] b[k]).dying || b[k].role
            == Role::Button by {
            if k < a.len() {
                assert(b[k] == a[k]);
            }
        }
        assert forall|j: int|
            0 <= j < n && (!(#[trigger] cards[j]).dying || cards[j].role
                == Role::Button) implies b.contains(cards[j]) by {
            if j < n - 1 {
                assert(a.contains(cards[j]));
                let k = choose|k: int| 0 <= k < a.len() && a[k] == cards[j];
                assert(b[k] == cards[j]);
            } else {
                assert(b[b.len() - 1] == cards[j]);
            }
        }
        assert forall|k: int| 0 <= k < b.len() implies t.contains(#[trigger] b[k]) by {
            if k < a.len() {
                assert(b[k] == a[k]);
                assert(s.contains(a[k]));
                let i = choose|i: int| 0 <= i < s.len() && s[i] == a[k];
                assert(t[i] == a[k]);
            }
        }
        if forall|j: int| 0 <= j < n ==> !(#[trigger] cards[j]).dying {
            assert(!cards[n - 1].dying);
            assert(b =~= t);
        }
    }
}

/// A window keeps its place among those that survive: the numbers of two keep their order.
pub proof fn survivors_keep_their_order(cards: Seq<Card>, i: int, j: int)
    requires
        0 <= i < j <= cards.len(),
    ensures
        alive(cards, i).len() <= alive(cards, j).len(),
        !doomed(cards[i]) ==> alive(cards, i).len() < alive(cards, j).len(),
    decreases j,
{
    if i < j - 1 {
        survivors_keep_their_order(cards, i, j - 1);
    }
}

/// A deleted note that goes on the pile joins those that are there, which keep their order: it
/// comes behind all that were deleted before it, and before the first that was deleted later.
pub proof fn the_pile_goes_by_the_deletions(t: Seq<DeletedValue>, r: DeletedValue) -> (k: int)
    ensures
        0 <= k <= t.len(),
        stowed(t, r) == t.insert(k, r),
        k > 0 ==> t[k - 1].stamp <= r.stamp,
        forall|j: int| k <= j < t.len() ==> (#[trigger] t[j]).stamp > r.stamp,
    decreases t.len(),
{
    if t.len() == 0 || t.last().stamp <= r.stamp {
        assert(t.insert(t.len() as int, r) =~= t.push(r));
        t.len() as int
    } else {
        let d = t.drop_last();
        let k = the_pile_goes_by_the_deletions(d, r);
        assert(t.insert(k, r) =~= d.insert(k, r).push(t.last()));
        assert forall|j: int| k <= j < t.len() implies (#[trigger] t[j]).stamp > r.stamp by {
            if j < d.len() {
                assert(d[j] == t[j]);
            }
        }
        k
    }
}

/// The pile holds twenty notes at most: the newest stay, and the oldest go.
pub proof fn the_newest_twenty_stay(t: Seq<DeletedValue>)
    ensures
        newest(t).len() <= 20,
        t.len() <= 20 ==> newest(t) == t,
        t.len() > 20 ==> newest(t).len() == 20,
        forall|k: int|
            0 <= k < newest(t).len() ==> #[trigger] newest(t)[k] == t[k + t.len()
                - newest(t).len()],
{
}

/// What is saved of a desk is one record for each note, in the order of the windows, with the
/// place where it stands; the button and the pills are not saved.
pub proof fn every_note_is_saved_once(cards: Seq<Card>, contents: Seq<Content>, n: int)
    requires
        0 <= n <= cards.len(),
        contents.len() == cards.len(),
    ensures
        n > 0 && cards[n - 1].role == Role::Note ==> records(cards, contents, n) == records(
            cards,
            contents,
            n - 1,
        ).push(record(cards[n - 1], contents[n - 1], cards[n - 1].rect)),
        n > 0 && cards[n - 1].role != Role::Note ==> records(cards, contents, n) == records(
            cards,
            contents,
            n - 1,
        ),
        n == 0 ==> records(cards, contents, n).len() == 0,
        forall|i: int|
            0 <= i < n && (#[trigger] cards[i]).role == Role::Note ==> records(
                cards,
                contents,
                n,
            ).contains(record(cards[i], contents[i], cards[i].rect)),
        records(cards, contents, n).len() <= n,
    decreases n,
{
    if n > 0 {
        every_note_is_saved_once(cards, contents, n - 1);
        assert forall|i: int|
            0 <= i < n && (#[trigger] cards[i]).role == Role::Note implies records(
            cards,
            contents,
            n,
        ).contains(record(cards[i], contents[i], cards[i].rect)) by {
            lemma_record_in(cards, contents, n, i);
        }
    }
}

/// The keyboard and the hand lose a window that is destroyed, and follow one that is not.
pub proof fn the_hand_follows_its_note(cards: Seq<Card>, d: Drag)
    requires
        d.idx < cards.len(),
    ensures
        cards[d.idx as int].dying && cards[d.idx as int].role == Role::Note ==> redragged(
            cards,
            Some(d),
        ) is None && renumbered(cards, Some(d.idx)) is None,
        !cards[d.idx as int].dying ==> {
            let r = redragged(cards, Some(d));
            &&& r is Some
            &&& r->Some_0.idx == renumbered(cards, Some(d.idx))->Some_0
            &&& r->Some_0.grab == d.grab && r->Some_0.moved == d.moved && r->Some_0.last == d.last
            &&& r->Some_0.from == d.from && r->Some_0.free == d.free
        },
        redragged(cards, None) is None,
        renumbered(cards, None) is None,
{
}

/// When deleted notes are gone the stack closes over the gaps that they leave:
/// every note that is left of it glides to the column. While nothing goes, nothing
/// is sent anywhere.
pub proof fn the_stack_closes_over_what_is_gone(cards: Seq<Card>, gap: int, j: int)
    requires
        cards_ok(cards),
        modest(gap),
        0 <= j < alive(cards, cards.len() as int).len(),
    ensures
        ({
            let left = alive(cards, cards.len() as int);
            let a = reaped_cards(cards, gap);
            let goes = exists|i: int|
                0 <= i < cards.len() && (#[trigger] cards[i]).note() && cards[i].dying;
            &&& a.len() == left.len()
            &&& goes && left[j].stacked() ==> crate::stack::heads_for_column(a[j], left[0].rect)
            &&& goes && !left[j].stacked() ==> a[j].pos_to == left[j].pos_to
            &&& !goes ==> a == left
        }),
{
    let n = cards.len() as int;
    lemma_alive(cards, n, 0);
    let left = alive(cards, n);
    assert(cards_ok(left));
    crate::stack::stacked_notes_head_for_the_column(left, gap, j);
    if exists|i: int| 0 <= i < cards.len() && (#[trigger] cards[i]).note() && cards[i].dying {
        let i = choose|i: int| 0 <= i < cards.len() && (#[trigger] cards[i]).note() && cards[i].dying;
        assert(doomed_note(cards[i]));
    }
}

} // verus!
