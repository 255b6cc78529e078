//! The text editor of a note: styled text, a caret, a selection, and undo and
//! redo histories.

use vstd::prelude::*;
use crate::geometry::lesser;
use crate::html::has_bit;
use crate::html::style_mask;
use crate::html::with_bit;
use crate::html::A_BOLD;
use crate::html::A_ITALIC;
use crate::html::A_STRIKE;
use crate::strings::chars_of;
use crate::strings::is_space;
use crate::strings::is_whitespace;
use crate::strings::is_boundary;
use crate::strings::scalar;
use crate::strings::string_of;
use crate::strings::u16_to_chars;

verus! {

/// What the last edit was. A run of insertions, or of deletions, collapses into
/// one undo step; a discrete action always starts a fresh one, and so does
/// whatever comes next after `Fresh`.
#[derive(Clone, Copy, Debug, PartialEq, Eq, Structural)]
pub enum Edit {
    Fresh,
    Insert,
    Delete,
    Discrete,
}

/// How many undo steps are kept.
pub const MAX_UNDO: usize = 200;

/// A state of the text that undo or redo leads back to.
pub struct EditSnap {
    pub text: Vec<char>,
    pub attrs: Vec<u8>,
    pub caret: usize,
}

/// What a snapshot holds.
pub ghost struct SnapValue {
    pub text: Seq<char>,
    pub attrs: Seq<u8>,
    pub caret: int,
}

impl View for EditSnap {
    type V = SnapValue;

    open spec fn view(&self) -> SnapValue {
        SnapValue { text: self.text@, attrs: self.attrs@, caret: self.caret as int }
    }
}

impl SnapValue {
    /// One mask for each character, and the caret inside the text.
    pub open spec fn ok(self) -> bool {
        &&& self.attrs.len() == self.text.len()
        &&& 0 <= self.caret <= self.text.len()
        &&& forall|i: int| 0 <= i < self.attrs.len() ==> style_mask(#[trigger] self.attrs[i])
    }
}

/// The editor of one note.
pub struct Editor {
    pub text: Vec<char>,
    /// Style masks, one for each character.
    pub attrs: Vec<u8>,
    pub caret: usize,
    /// The other end of the selection.
    pub sel: Option<usize>,
    pub undo: Vec<EditSnap>,
    pub redo: Vec<EditSnap>,
    pub kind: Edit,
}

/// What an editor holds.
pub ghost struct EditorValue {
    pub text: Seq<char>,
    pub attrs: Seq<u8>,
    pub caret: int,
    pub sel: Option<int>,
    pub undo: Seq<SnapValue>,
    pub redo: Seq<SnapValue>,
    pub kind: Edit,
}

/// The views of snapshots.
pub open spec fn snaps(v: Seq<EditSnap>) -> Seq<SnapValue> {
    v.map_values(|s: EditSnap| s@)
}

impl View for Editor {
    type V = EditorValue;

    open spec fn view(&self) -> EditorValue {
        EditorValue {
            text: self.text@,
            attrs: self.attrs@,
            caret: self.caret as int,
            sel: match self.sel {
                Some(a) => Some(a as int),
                None => None,
            },
            undo: snaps(self.undo@),
            redo: snaps(self.redo@),
            kind: self.kind,
        }
    }
}

/// All of them are sound.
pub open spec fn snaps_ok(v: Seq<SnapValue>) -> bool {
    forall|i: int| 0 <= i < v.len() ==> (#[trigger] v[i]).ok()
}

impl EditorValue {
    /// The text as a snapshot.
    pub open spec fn snap(self) -> SnapValue {
        SnapValue { text: self.text, attrs: self.attrs, caret: self.caret }
    }

    /// The styles run parallel to the text, caret and selection lie inside it,
    /// so do those of the histories, and the histories hold `MAX_UNDO` steps at
    /// most. While a run of edits goes on there is nothing to redo.
    pub open spec fn ok(self) -> bool {
        &&& self.snap().ok()
        &&& self.sel matches Some(a) ==> 0 <= a <= self.text.len()
        &&& snaps_ok(self.undo)
        &&& snaps_ok(self.redo)
        &&& self.undo.len() + self.redo.len() <= MAX_UNDO
        &&& self.kind != Edit::Fresh ==> self.redo.len() == 0
    }

    /// The lower end of the selection.
    pub open spec fn lo(self) -> int {
        match self.sel {
            Some(a) => if a < self.caret {
                a
            } else {
                self.caret
            },
            None => self.caret,
        }
    }

    /// The upper end of the selection.
    pub open spec fn hi(self) -> int {
        match self.sel {
            Some(a) => if a > self.caret {
                a
            } else {
                self.caret
            },
            None => self.caret,
        }
    }

    /// Something is selected.
    pub open spec fn selects(self) -> bool {
        self.lo() < self.hi()
    }

    /// The editor with this text.
    pub open spec fn with_snap(self, s: SnapValue) -> EditorValue {
        EditorValue { text: s.text, attrs: s.attrs, caret: s.caret, ..self }
    }

    /// The state before an edit of this kind goes on record, unless the edit
    /// continues a run. Nothing can be redone after it.
    pub open spec fn recorded(self, kind: Edit) -> EditorValue {
        if kind != Edit::Discrete && kind == self.kind {
            self
        } else {
            let u = self.undo.push(self.snap());
            EditorValue {
                undo: if u.len() > MAX_UNDO {
                    u.skip(1)
                } else {
                    u
                },
                redo: Seq::empty(),
                kind,
                ..self
            }
        }
    }

    /// Without the characters from `lo` up to `hi`; the caret stands there.
    pub open spec fn without(self, lo: int, hi: int) -> EditorValue {
        EditorValue {
            text: self.text.take(lo) + self.text.skip(hi),
            attrs: self.attrs.take(lo) + self.attrs.skip(hi),
            caret: lo,
            ..self
        }
    }

    /// Without what is selected, and with no selection.
    pub open spec fn dropped(self) -> EditorValue {
        EditorValue { sel: None, ..self.without(self.lo(), self.hi()) }
    }

    /// The style that typing continues: that of the character before the caret.
    pub open spec fn typing_attr(self) -> u8 {
        if self.caret > 0 {
            self.attrs[self.caret - 1]
        } else {
            0
        }
    }

    /// With characters of one style put in at the caret, which then stands
    /// behind them.
    pub open spec fn inserted_as(self, s: Seq<char>, a: u8) -> EditorValue {
        EditorValue {
            text: self.text.take(self.caret) + s + self.text.skip(self.caret),
            attrs: self.attrs.take(self.caret) + Seq::new(s.len(), |i: int| a) + self.attrs.skip(
                self.caret,
            ),
            caret: self.caret + s.len(),
            ..self
        }
    }

    /// With characters put in that continue the style of the text before them.
    pub open spec fn inserted(self, s: Seq<char>) -> EditorValue {
        self.inserted_as(s, self.typing_attr())
    }

    /// With plain characters put in.
    pub open spec fn pasted(self, s: Seq<char>) -> EditorValue {
        self.inserted_as(s, 0)
    }
}

impl EditorValue {
    /// One step back in the history.
    pub open spec fn undone(self) -> EditorValue {
        EditorValue {
            sel: None,
            undo: self.undo.drop_last(),
            redo: self.redo.push(self.snap()),
            kind: Edit::Fresh,
            ..self.with_snap(self.undo.last())
        }
    }

    /// One step forward again.
    pub open spec fn redone(self) -> EditorValue {
        EditorValue {
            sel: None,
            undo: self.undo.push(self.snap()),
            redo: self.redo.drop_last(),
            kind: Edit::Fresh,
            ..self.with_snap(self.redo.last())
        }
    }
}

/// A step back and one forward lead to the same text, styles, caret and
/// histories.
pub proof fn undo_then_redo(e: EditorValue)
    requires
        e.ok(),
        e.undo.len() > 0,
    ensures
        e.undone().redone() == (EditorValue { sel: None, kind: Edit::Fresh, ..e }),
{
    let u = e.undone();
    assert(u.undo.push(u.snap()) == e.undo);
    assert(u.redo.drop_last() == e.redo);
}

/// A step forward and one back lead to the same text, styles, caret and
/// histories.
pub proof fn redo_then_undo(e: EditorValue)
    requires
        e.ok(),
        e.redo.len() > 0,
    ensures
        e.redone().undone() == (EditorValue { sel: None, kind: Edit::Fresh, ..e }),
{
    let u = e.redone();
    assert(u.redo.push(u.snap()) == e.redo);
    assert(u.undo.drop_last() == e.undo);
}

/// Whatever an edit does after it was put on record as a fresh step, one step
/// back leads to the text, the styles and the caret before it.
pub proof fn undo_of_recorded_edit(e: EditorValue, kind: Edit, after: EditorValue)
    requires
        e.ok(),
        kind == Edit::Discrete || kind != e.kind,
        after.undo == e.recorded(kind).undo,
    ensures
        after.undone().snap() == e.snap(),
{
}

proof fn lemma_dropped_ok(e: EditorValue)
    requires
        e.ok(),
    ensures
        e.dropped().ok(),
        !e.selects() ==> e.dropped() == (EditorValue { sel: None, ..e }),
{
    let d = e.dropped();
    assert forall|i: int| 0 <= i < d.attrs.len() implies style_mask(#[trigger] d.attrs[i]) by {
        if i < e.lo() {
            assert(d.attrs[i] == e.attrs[i]);
        } else {
            assert(d.attrs[i] == e.attrs[i - e.lo() + e.hi()]);
        }
    }
    if !e.selects() {
        assert(d.text == e.text);
        assert(d.attrs == e.attrs);
    }
}

proof fn lemma_inserted_ok(e: EditorValue, s: Seq<char>, a: u8)
    requires
        e.ok(),
        style_mask(a),
    ensures
        e.inserted_as(s, a).ok(),
{
    let d = e.inserted_as(s, a);
    assert forall|i: int| 0 <= i < d.attrs.len() implies style_mask(#[trigger] d.attrs[i]) by {
        if i < e.caret {
            assert(d.attrs[i] == e.attrs[i]);
        } else if i < e.caret + s.len() {
            assert(d.attrs[i] == a);
        } else {
            assert(d.attrs[i] == e.attrs[i - s.len()]);
        }
    }
}

/// Recording keeps an editor sound.
proof fn lemma_recorded_ok(e: EditorValue, kind: Edit)
    requires
        e.ok(),
    ensures
        e.recorded(kind).ok(),
{
    let r = e.recorded(kind);
    let u = e.undo.push(e.snap());
    assert(snaps_ok(u));
    assert(snaps_ok(u.skip(1)));
}

impl Editor {
    /// The editor is sound.
    pub open spec fn wf(self) -> bool {
        self@.ok()
    }

    /// An editor for styled text, with the caret at its start.
    pub fn new(text: Vec<char>, attrs: Vec<u8>) -> (r: Editor)
        requires
            attrs@.len() == text@.len(),
            forall|i: int| 0 <= i < attrs@.len() ==> style_mask(#[trigger] attrs@[i]),
        ensures
            r.wf(),
            r@ == (EditorValue {
                text: text@,
                attrs: attrs@,
                caret: 0,
                sel: None,
                undo: Seq::empty(),
                redo: Seq::empty(),
                kind: Edit::Fresh,
            }),
    {
        let undo: Vec<EditSnap> = Vec::new();
        let redo: Vec<EditSnap> = Vec::new();
        assert(snaps(undo@) == Seq::<SnapValue>::empty());
        assert(snaps(redo@) == Seq::<SnapValue>::empty());
        Editor { text, attrs, caret: 0, sel: None, undo, redo, kind: Edit::Fresh }
    }

    /// The ends of the selection.
    fn range(&self) -> (r: (usize, usize))
        requires
            self.wf(),
        ensures
            r.0 == self@.lo(),
            r.1 == self@.hi(),
            r.0 <= r.1 <= self.text@.len(),
    {
        match self.sel {
            Some(a) => if a < self.caret {
                (a, self.caret)
            } else {
                (self.caret, a)
            },
            None => (self.caret, self.caret),
        }
    }

    /// Takes the characters from `lo` up to `hi` out.
    fn remove_range(&mut self, lo: usize, hi: usize)
        requires
            lo <= hi <= old(self).text@.len(),
            old(self).attrs@.len() == old(self).text@.len(),
        ensures
            final(self)@ == old(self)@.without(lo as int, hi as int),
    {
        let ghost t = self.text@;
        let ghost a = self.attrs@;
        let mut k: usize = lo;
        assert(t.take(lo as int) + t.skip(lo as int) == t);
        assert(a.take(lo as int) + a.skip(lo as int) == a);
        while k < hi
            invariant
                lo <= k <= hi <= t.len(),
                a.len() == t.len(),
                self.text@ == t.take(lo as int) + t.skip(k as int),
                self.attrs@ == a.take(lo as int) + a.skip(k as int),
                self.caret == old(self).caret,
                self.sel == old(self).sel,
                self.undo == old(self).undo,
                self.redo == old(self).redo,
                self.kind == old(self).kind,
            decreases hi - k,
        {
            self.text.remove(lo);
            self.attrs.remove(lo);
            k = k + 1;
            assert(self.text@ == t.take(lo as int) + t.skip(k as int));
            assert(self.attrs@ == a.take(lo as int) + a.skip(k as int));
        }
        self.caret = lo;
    }

    /// Takes out what is selected; the caret lands at its start and the
    /// selection ends. False where nothing was selected.
    pub fn delete_selection(&mut self) -> (r: bool)
        requires
            old(self).wf(),
        ensures
            final(self).wf(),
            final(self)@ == old(self)@.dropped(),
            r == old(self)@.selects(),
    {
        let (lo, hi) = self.range();
        proof {
            lemma_dropped_ok(self@);
        }
        self.sel = None;
        if lo == hi {
            return false;
        }
        self.remove_range(lo, hi);
        true
    }
}

/// The same snapshots without the first.
proof fn lemma_snaps_tail(v: Seq<EditSnap>)
    requires
        v.len() > 0,
    ensures
        snaps(v.remove(0)) == snaps(v).skip(1),
        snaps(v.drop_last()) == snaps(v).drop_last(),
{
    assert(snaps(v.remove(0)) =~= snaps(v).skip(1));
    assert(snaps(v.drop_last()) =~= snaps(v).drop_last());
}

impl Editor {
    /// The text as a snapshot.
    fn edit_snap(&self) -> (r: EditSnap)
        ensures
            r@ == self@.snap(),
    {
        EditSnap { text: self.text.clone(), attrs: self.attrs.clone(), caret: self.caret }
    }

    /// Puts the state before an edit of this kind on record, unless the edit
    /// continues a run.
    pub fn record_edit(&mut self, kind: Edit)
        requires
            old(self).wf(),
        ensures
            final(self).wf(),
            final(self)@ == old(self)@.recorded(kind),
    {
        proof {
            lemma_recorded_ok(self@, kind);
        }
        let continues = kind != Edit::Discrete && kind == self.kind;
        if !continues {
            let ghost u = self@.undo.push(self@.snap());
            let snap = self.edit_snap();
            self.undo.push(snap);
            assert(snaps(self.undo@) =~= u);
            if self.undo.len() > MAX_UNDO {
                proof {
                    lemma_snaps_tail(self.undo@);
                }
                self.undo.remove(0);
            }
            self.redo = Vec::new();
            assert(snaps(self.redo@) =~= Seq::<SnapValue>::empty());
            self.kind = kind;
        }
    }

    /// Takes the last edit back. False where there is none.
    pub fn text_undo(&mut self) -> (r: bool)
        requires
            old(self).wf(),
        ensures
            final(self).wf(),
            r == (old(self)@.undo.len() > 0),
            r ==> final(self)@ == old(self)@.undone(),
            !r ==> final(self)@ == old(self)@,
    {
        let ghost before = self@;
        let ghost v = self.undo@;
        let cur = self.edit_snap();
        match self.undo.pop() {
            None => false,
            Some(prev) => {
                proof {
                    lemma_snaps_tail(v);
                    assert(prev@ == before.undo.last());
                    assert(before.undo[before.undo.len() - 1].ok());
                }
                self.redo.push(cur);
                assert(snaps(self.redo@) =~= before.redo.push(before.snap()));
                self.text = prev.text;
                self.attrs = prev.attrs;
                self.caret = prev.caret;
                self.sel = None;
                self.kind = Edit::Fresh;
                proof {
                    assert(self@ == before.undone());
                    assert(snaps_ok(before.undo.drop_last()));
                }
                true
            },
        }
    }

    /// Puts the last edit that was taken back in again. False where there is
    /// none.
    pub fn text_redo(&mut self) -> (r: bool)
        requires
            old(self).wf(),
        ensures
            final(self).wf(),
            r == (old(self)@.redo.len() > 0),
            r ==> final(self)@ == old(self)@.redone(),
            !r ==> final(self)@ == old(self)@,
    {
        let ghost before = self@;
        let ghost v = self.redo@;
        let cur = self.edit_snap();
        match self.redo.pop() {
            None => false,
            Some(next) => {
                proof {
                    lemma_snaps_tail(v);
                    assert(next@ == before.redo.last());
                    assert(before.redo[before.redo.len() - 1].ok());
                }
                self.undo.push(cur);
                assert(snaps(self.undo@) =~= before.undo.push(before.snap()));
                self.text = next.text;
                self.attrs = next.attrs;
                self.caret = next.caret;
                self.sel = None;
                self.kind = Edit::Fresh;
                proof {
                    assert(self@ == before.redone());
                    assert(snaps_ok(before.redo.drop_last()));
                }
                true
            },
        }
    }

    /// The style that typing continues.
    fn typing_style(&self) -> (a: u8)
        requires
            self.wf(),
        ensures
            a == self@.typing_attr(),
            style_mask(a),
    {
        if self.caret > 0 {
            self.attrs[self.caret - 1]
        } else {
            0
        }
    }

    /// Puts characters of one style in at the caret.
    fn insert_chars(&mut self, chars: &Vec<char>, a: u8)
        requires
            old(self).wf(),
            style_mask(a),
        ensures
            final(self).wf(),
            final(self)@ == old(self)@.inserted_as(chars@, a),
    {
        proof {
            lemma_inserted_ok(self@, chars@, a);
        }
        let at: usize = self.caret;
        let ghost t = self.text@;
        let ghost s = self.attrs@;
        let mut k: usize = 0;
        assert(t.take(at as int) + chars@.take(0) + t.skip(at as int) == t);
        assert(s.take(at as int) + Seq::new(0, |i: int| a) + s.skip(at as int) == s);
        while k < chars.len()
            invariant
                k <= chars@.len(),
                at <= t.len(),
                s.len() == t.len(),
                self.text@ == t.take(at as int) + chars@.take(k as int) + t.skip(at as int),
                self.attrs@ == s.take(at as int) + Seq::new(k as nat, |i: int| a) + s.skip(
                    at as int,
                ),
                self.caret == old(self).caret,
                self.sel == old(self).sel,
                self.undo == old(self).undo,
                self.redo == old(self).redo,
                self.kind == old(self).kind,
            decreases chars@.len() - k,
        {
            let n: usize = self.text.len();
            self.text.insert(at + k, chars[k]);
            self.attrs.insert(at + k, a);
            k = k + 1;
            assert(self.text@ == t.take(at as int) + chars@.take(k as int) + t.skip(at as int));
            assert(self.attrs@ == s.take(at as int) + Seq::new(k as nat, |i: int| a) + s.skip(
                at as int,
            ));
        }
        assert(chars@.take(chars@.len() as int) == chars@);
        let n: usize = self.text.len();
        self.caret = at + chars.len();
    }
}

/// One of the three styles.
pub open spec fn style_bit(bit: u8) -> bool {
    bit == A_BOLD || bit == A_ITALIC || bit == A_STRIKE
}

impl EditorValue {
    /// Everything that is selected has the style.
    pub open spec fn all_have(self, bit: u8) -> bool {
        forall|i: int| self.lo() <= i < self.hi() ==> has_bit(#[trigger] self.attrs[i], bit)
    }

    /// The style is taken off the selection where all of it has it, and put on
    /// all of it otherwise.
    pub open spec fn toggled(self, bit: u8) -> EditorValue {
        let on = !self.all_have(bit);
        EditorValue {
            attrs: Seq::new(
                self.attrs.len(),
                |i: int|
                    if self.lo() <= i < self.hi() {
                        with_bit(self.attrs[i], bit, on)
                    } else {
                        self.attrs[i]
                    },
            ),
            ..self
        }
    }
}

proof fn lemma_bits(m: u8, bit: u8)
    requires
        style_mask(m),
        style_bit(bit),
    ensures
        style_mask(m | bit),
        style_mask(m & !bit),
        has_bit(m | bit, bit),
        !has_bit(m & !bit, bit),
        has_bit(m, bit) ==> (m & !bit) | bit == m,
        !has_bit(m, bit) ==> (m | bit) & !bit == m,
{
    assert((m | bit) < 8 && (m & !bit) < 8 && (m | bit) & bit != 0 && (m & !bit) & bit == 0)
        by (bit_vector)
        requires
            m < 8,
            bit == 1 || bit == 2 || bit == 4,
    ;
    assert(m & bit != 0 ==> (m & !bit) | bit == m) by (bit_vector)
        requires
            bit == 1 || bit == 2 || bit == 4,
    ;
    assert(m & bit == 0 ==> (m | bit) & !bit == m) by (bit_vector)
        requires
            bit == 1 || bit == 2 || bit == 4,
    ;
}

/// After toggling a style all of the selection has it where not all had it, and
/// none has it where all had it. Where all or none had it, toggling it again
/// brings the styles back.
pub proof fn toggle_is_uniform(e: EditorValue, bit: u8)
    requires
        e.ok(),
        style_bit(bit),
        e.selects(),
    ensures
        e.toggled(bit).ok(),
        forall|i: int|
            e.lo() <= i < e.hi() ==> has_bit(#[trigger] e.toggled(bit).attrs[i], bit) == !e.all_have(
                bit,
            ),
        (e.all_have(bit) || forall|i: int|
            e.lo() <= i < e.hi() ==> !has_bit(#[trigger] e.attrs[i], bit)) ==> e.toggled(
            bit,
        ).toggled(bit) == e,
{
    let t = e.toggled(bit);
    assert forall|i: int| 0 <= i < t.attrs.len() implies style_mask(#[trigger] t.attrs[i]) by {
        assert(style_mask(e.attrs[i]));
        lemma_bits(e.attrs[i], bit);
    }
    assert forall|i: int| e.lo() <= i < e.hi() implies has_bit(#[trigger] t.attrs[i], bit)
        == !e.all_have(bit) by {
        assert(style_mask(e.attrs[i]));
        lemma_bits(e.attrs[i], bit);
    }
    assert(t.ok());
    assert(t.lo() == e.lo() && t.hi() == e.hi());
    assert(has_bit(t.attrs[e.lo()], bit) == !e.all_have(bit));
    if e.all_have(bit) || forall|i: int|
        e.lo() <= i < e.hi() ==> !has_bit(#[trigger] e.attrs[i], bit) {
        assert(t.all_have(bit) == !e.all_have(bit));
        assert forall|i: int| 0 <= i < e.attrs.len() implies t.toggled(bit).attrs[i]
            == e.attrs[i] by {
            assert(style_mask(e.attrs[i]));
            lemma_bits(e.attrs[i], bit);
        }
        assert(t.toggled(bit).attrs =~= e.attrs);
    }
}

impl Editor {
    /// Toggles a style across the selection. False where nothing is selected.
    pub fn toggle_attr(&mut self, bit: u8) -> (r: bool)
        requires
            old(self).wf(),
            style_bit(bit),
        ensures
            final(self).wf(),
            r == old(self)@.selects(),
            final(self)@ == if r {
                old(self)@.toggled(bit)
            } else {
                old(self)@
            },
    {
        let (lo, hi) = self.range();
        if lo == hi {
            return false;
        }
        let ghost e = self@;
        let mut all = true;
        let mut k: usize = lo;
        while k < hi
            invariant
                lo <= k <= hi <= self.attrs@.len(),
                e == self@,
                lo == e.lo(),
                hi == e.hi(),
                all == forall|i: int| lo <= i < k ==> has_bit(#[trigger] e.attrs[i], bit),
            decreases hi - k,
        {
            if self.attrs[k] & bit == 0 {
                all = false;
                assert(!has_bit(e.attrs[k as int], bit));
            }
            k = k + 1;
        }
        assert(all == e.all_have(bit));
        let mut j: usize = lo;
        while j < hi
            invariant
                lo <= j <= hi <= self.attrs@.len(),
                self.attrs@.len() == e.attrs.len(),
                self@ == (EditorValue { attrs: self.attrs@, ..e }),
                lo == e.lo(),
                hi == e.hi(),
                forall|i: int|
                    0 <= i < e.attrs.len() ==> #[trigger] self.attrs@[i] == if lo <= i < j {
                        with_bit(e.attrs[i], bit, !all)
                    } else {
                        e.attrs[i]
                    },
            decreases hi - j,
        {
            let m: u8 = self.attrs[j];
            let v: u8 = if all {
                m & !bit
            } else {
                m | bit
            };
            self.attrs.set(j, v);
            j = j + 1;
        }
        proof {
            toggle_is_uniform(e, bit);
            assert(self.attrs@ =~= e.toggled(bit).attrs);
        }
        true
    }
}

/// Back over white space, or over what is none, from `i`.
pub open spec fn back_over(text: Seq<char>, i: int, space: bool) -> int
    decreases i,
{
    if 0 < i <= text.len() && is_space(text[i - 1]) == space {
        back_over(text, i - 1, space)
    } else {
        i
    }
}

/// Forward over white space, or over what is none, from `i`.
pub open spec fn forth_over(text: Seq<char>, i: int, space: bool) -> int
    decreases text.len() - i,
{
    if 0 <= i < text.len() && is_space(text[i]) == space {
        forth_over(text, i + 1, space)
    } else {
        i
    }
}

/// The start of the word to the left.
pub open spec fn prev_word(text: Seq<char>, caret: int) -> int {
    back_over(text, back_over(text, caret, true), false)
}

/// The end of the word to the right.
pub open spec fn next_word(text: Seq<char>, caret: int) -> int {
    forth_over(text, forth_over(text, caret, true), false)
}

/// What lies between a position and where `back_over` leads is all of one sort,
/// and what comes before it is not.
pub proof fn lemma_back_over(text: Seq<char>, i: int, space: bool)
    requires
        0 <= i <= text.len(),
    ensures
        0 <= back_over(text, i, space) <= i,
        forall|k: int|
            back_over(text, i, space) <= k < i ==> is_space(#[trigger] text[k]) == space,
        back_over(text, i, space) > 0 ==> is_space(text[back_over(text, i, space) - 1]) != space,
    decreases i,
{
    if i > 0 && is_space(text[i - 1]) == space {
        lemma_back_over(text, i - 1, space);
    }
}

/// What lies between a position and where `forth_over` leads is all of one
/// sort, and what comes after it is not.
pub proof fn lemma_forth_over(text: Seq<char>, i: int, space: bool)
    requires
        0 <= i <= text.len(),
    ensures
        i <= forth_over(text, i, space) <= text.len(),
        forall|k: int|
            i <= k < forth_over(text, i, space) ==> is_space(#[trigger] text[k]) == space,
        forth_over(text, i, space) < text.len() ==> is_space(text[forth_over(text, i, space)])
            != space,
    decreases text.len() - i,
{
    if i < text.len() && is_space(text[i]) == space {
        lemma_forth_over(text, i + 1, space);
    }
}

/// The start of the word to the left of `caret`, past white space.
pub fn prev_word_boundary(text: &Vec<char>, caret: usize) -> (r: usize)
    ensures
        r == prev_word(
            text@,
            if caret < text@.len() {
                caret as int
            } else {
                text@.len() as int
            },
        ),
        r <= caret,
        r <= text@.len(),
{
    let start: usize = if caret < text.len() {
        caret
    } else {
        text.len()
    };
    let mut i: usize = start;
    while i > 0 && is_whitespace(text[i - 1])
        invariant
            i <= start <= text@.len(),
            back_over(text@, i as int, true) == back_over(text@, start as int, true),
        decreases i,
    {
        i = i - 1;
    }
    let mid: usize = i;
    assert(mid == back_over(text@, start as int, true));
    while i > 0 && !is_whitespace(text[i - 1])
        invariant
            i <= mid <= text@.len(),
            back_over(text@, i as int, false) == back_over(text@, mid as int, false),
        decreases i,
    {
        i = i - 1;
    }
    i
}

/// The end of the word to the right of `caret`, past white space.
pub fn next_word_boundary(text: &Vec<char>, caret: usize) -> (r: usize)
    ensures
        r == next_word(
            text@,
            if caret < text@.len() {
                caret as int
            } else {
                text@.len() as int
            },
        ),
        r <= text@.len(),
        caret <= text@.len() ==> r >= caret,
{
    let n: usize = text.len();
    let start: usize = if caret < n {
        caret
    } else {
        n
    };
    let mut i: usize = start;
    while i < n && is_whitespace(text[i])
        invariant
            start <= i <= n,
            n == text@.len(),
            forth_over(text@, i as int, true) == forth_over(text@, start as int, true),
        decreases n - i,
    {
        i = i + 1;
    }
    let mid: usize = i;
    assert(mid == forth_over(text@, start as int, true));
    while i < n && !is_whitespace(text[i])
        invariant
            mid <= i <= n,
            n == text@.len(),
            forth_over(text@, i as int, false) == forth_over(text@, mid as int, false),
        decreases n - i,
    {
        i = i + 1;
    }
    i
}

/// The character of a code point.
pub open spec fn scalar_value(code: u32) -> Option<char> {
    if code < 0xD800 || 0xE000 <= code <= 0x10FFFF {
        Some(code as char)
    } else {
        None
    }
}

impl EditorValue {
    /// Backspace: the selection, or else the character before the caret.
    pub open spec fn backspaced(self) -> EditorValue {
        if self.sel is Some {
            self.recorded(Edit::Discrete).dropped()
        } else if self.caret > 0 {
            self.recorded(Edit::Delete).without(self.caret - 1, self.caret)
        } else {
            self
        }
    }

    /// Backspace by words: the selection, or else back to the start of a word.
    pub open spec fn word_backspaced(self) -> EditorValue {
        let r = self.recorded(Edit::Discrete);
        if self.selects() {
            r.dropped()
        } else if self.sel is Some || self.caret > 0 {
            (EditorValue { sel: None, ..r }).without(prev_word(self.text, self.caret), self.caret)
        } else {
            self
        }
    }

    /// A character typed in place of the selection. White space ends the run of
    /// typing, so that undo goes word by word.
    pub open spec fn typed(self, c: char) -> EditorValue {
        let kind = if self.sel is Some {
            Edit::Discrete
        } else {
            Edit::Insert
        };
        let e = self.recorded(kind).dropped().inserted(seq![c]);
        if is_space(c) {
            EditorValue { kind: Edit::Fresh, ..e }
        } else {
            e
        }
    }

    /// What a character code from the keyboard does.
    pub open spec fn after_char(self, code: u32) -> EditorValue {
        if code == 0x08 {
            self.backspaced()
        } else if code == 0x0D {
            self.recorded(Edit::Discrete).dropped().inserted(seq!['\n'])
        } else if code == 0x7F {
            self.word_backspaced()
        } else if code >= 0x20 {
            match scalar_value(code) {
                Some(c) => self.typed(c),
                None => self,
            }
        } else {
            self
        }
    }
}

proof fn lemma_without_ok(e: EditorValue, lo: int, hi: int)
    requires
        e.ok(),
        e.sel is None,
        0 <= lo <= hi <= e.text.len(),
    ensures
        e.without(lo, hi).ok(),
{
    let d = e.without(lo, hi);
    assert forall|i: int| 0 <= i < d.attrs.len() implies style_mask(#[trigger] d.attrs[i]) by {
        if i < lo {
            assert(d.attrs[i] == e.attrs[i]);
        } else {
            assert(d.attrs[i] == e.attrs[i - lo + hi]);
        }
    }
}

impl Editor {
    /// Puts one character in at the caret.
    fn insert_char(&mut self, c: char)
        requires
            old(self).wf(),
        ensures
            final(self).wf(),
            final(self)@ == old(self)@.inserted(seq![c]),
    {
        let mut one: Vec<char> = Vec::new();
        one.push(c);
        assert(one@ == seq![c]);
        let a: u8 = self.typing_style();
        self.insert_chars(&one, a);
    }

    fn backspace(&mut self)
        requires
            old(self).wf(),
        ensures
            final(self).wf(),
            final(self)@ == old(self)@.backspaced(),
    {
        if self.sel.is_some() {
            self.record_edit(Edit::Discrete);
            self.delete_selection();
        } else if self.caret > 0 {
            self.record_edit(Edit::Delete);
            proof {
                lemma_without_ok(self@, self@.caret - 1, self@.caret);
            }
            let c: usize = self.caret;
            self.remove_range(c - 1, c);
        }
    }

    fn word_backspace(&mut self)
        requires
            old(self).wf(),
        ensures
            final(self).wf(),
            final(self)@ == old(self)@.word_backspaced(),
    {
        if self.sel.is_some() || self.caret > 0 {
            self.record_edit(Edit::Discrete);
            proof {
                lemma_dropped_ok(self@);
            }
            if !self.delete_selection() {
                let c: usize = self.caret;
                let b: usize = prev_word_boundary(&self.text, c);
                proof {
                    lemma_without_ok(self@, b as int, c as int);
                }
                self.remove_range(b, c);
            }
        }
    }

    fn type_char(&mut self, c: char)
        requires
            old(self).wf(),
        ensures
            final(self).wf(),
            final(self)@ == old(self)@.typed(c),
    {
        if self.sel.is_some() {
            self.record_edit(Edit::Discrete);
        } else {
            self.record_edit(Edit::Insert);
        }
        self.delete_selection();
        self.insert_char(c);
        if is_whitespace(c) {
            self.kind = Edit::Fresh;
        }
    }

    /// A character code from the keyboard: backspace, Enter, backspace by words
    /// or a character to type. Tab, Escape and the other control codes do
    /// nothing.
    pub fn on_char(&mut self, code: u32)
        requires
            old(self).wf(),
        ensures
            final(self).wf(),
            final(self)@ == old(self)@.after_char(code),
    {
        if code == 0x08 {
            self.backspace();
        } else if code == 0x0D {
            self.record_edit(Edit::Discrete);
            self.delete_selection();
            self.insert_char('\n');
        } else if code == 0x7F {
            self.word_backspace();
        } else if code >= 0x20 {
            if let Some(c) = scalar(code) {
                self.type_char(c);
            }
        }
    }
}

/// The keys that move the caret.
#[derive(Clone, Copy, Debug, PartialEq, Eq, Structural)]
pub enum Key {
    Left,
    Right,
    Up,
    Down,
    Home,
    End,
}

impl EditorValue {
    /// Where a key leads the caret. With Ctrl, Left and Right go by words and
    /// Home and End to the ends of the text; where the layout of the lines
    /// decides, its answer is `line`.
    pub open spec fn target(self, key: Key, ctrl: bool, line: int) -> int {
        match key {
            Key::Left => if ctrl {
                prev_word(self.text, self.caret)
            } else if self.caret > 0 {
                self.caret - 1
            } else {
                0
            },
            Key::Right => if ctrl {
                next_word(self.text, self.caret)
            } else if self.caret < self.text.len() {
                self.caret + 1
            } else {
                self.caret
            },
            Key::Up => line,
            Key::Down => line,
            Key::Home => if ctrl {
                0
            } else {
                line
            },
            Key::End => if ctrl {
                self.text.len() as int
            } else {
                line
            },
        }
    }

    /// With Shift the selection grows or shrinks. Without it, plain Left and
    /// Right collapse a selection to its edge, and any other move drops it.
    pub open spec fn moved(self, key: Key, ctrl: bool, shift: bool, line: int) -> EditorValue {
        let t = self.target(key, ctrl, line);
        if shift {
            let a = match self.sel {
                Some(a) => a,
                None => self.caret,
            };
            EditorValue {
                caret: t,
                sel: if a == t {
                    None
                } else {
                    Some(a)
                },
                kind: Edit::Fresh,
                ..self
            }
        } else if (key == Key::Left || key == Key::Right) && !ctrl && self.sel is Some {
            EditorValue {
                caret: if key == Key::Left {
                    self.lo()
                } else {
                    self.hi()
                },
                sel: None,
                kind: Edit::Fresh,
                ..self
            }
        } else {
            EditorValue { caret: t, sel: None, kind: Edit::Fresh, ..self }
        }
    }

    /// How far Delete reaches without a selection: the next word with Ctrl, one
    /// character without.
    pub open spec fn delete_end(self, ctrl: bool) -> int {
        if ctrl {
            next_word(self.text, self.caret)
        } else if self.caret < self.text.len() {
            self.caret + 1
        } else {
            self.caret
        }
    }

    /// Delete takes something out.
    pub open spec fn deletes(self, ctrl: bool) -> bool {
        self.selects() || self.delete_end(ctrl) > self.caret
    }

    /// Delete: the selection, or else what follows the caret. Where there is
    /// nothing to take out, the run of edits ends.
    pub open spec fn deleted(self, ctrl: bool) -> EditorValue {
        let r = if self.sel is Some || self.deletes(ctrl) {
            self.recorded(Edit::Discrete)
        } else {
            self
        };
        if self.selects() {
            r.dropped()
        } else if self.deletes(ctrl) {
            (EditorValue { sel: None, ..r }).without(self.caret, self.delete_end(ctrl))
        } else {
            EditorValue { sel: None, kind: Edit::Fresh, ..r }
        }
    }

    /// What is selected.
    pub open spec fn selection(self) -> Seq<char> {
        self.text.subrange(self.lo(), self.hi())
    }
}

impl Editor {
    /// Moves the caret.
    pub fn move_caret(&mut self, key: Key, ctrl: bool, shift: bool, line: usize)
        requires
            old(self).wf(),
            line <= old(self).text@.len(),
        ensures
            final(self).wf(),
            final(self)@ == old(self)@.moved(key, ctrl, shift, line as int),
    {
        let ghost e = self@;
        let len: usize = self.text.len();
        let cur: usize = self.caret;
        proof {
            lemma_back_over(e.text, e.caret, true);
            lemma_back_over(e.text, back_over(e.text, e.caret, true), false);
            lemma_forth_over(e.text, e.caret, true);
            lemma_forth_over(e.text, forth_over(e.text, e.caret, true), false);
        }
        let target: usize = match key {
            Key::Left => if ctrl {
                prev_word_boundary(&self.text, cur)
            } else if cur > 0 {
                cur - 1
            } else {
                0
            },
            Key::Right => if ctrl {
                next_word_boundary(&self.text, cur)
            } else if cur < len {
                cur + 1
            } else {
                cur
            },
            Key::Up => line,
            Key::Down => line,
            Key::Home => if ctrl {
                0
            } else {
                line
            },
            Key::End => if ctrl {
                len
            } else {
                line
            },
        };
        self.kind = Edit::Fresh;
        if shift {
            let a: usize = match self.sel {
                Some(a) => a,
                None => cur,
            };
            self.caret = target;
            self.sel = if a == target {
                None
            } else {
                Some(a)
            };
        } else if (key == Key::Left || key == Key::Right) && !ctrl && self.sel.is_some() {
            let (lo, hi) = self.range();
            self.caret = if key == Key::Left {
                lo
            } else {
                hi
            };
            self.sel = None;
        } else {
            self.caret = target;
            self.sel = None;
        }
    }

    /// Delete, by words with Ctrl. True where something was taken out.
    pub fn delete_key(&mut self, ctrl: bool) -> (r: bool)
        requires
            old(self).wf(),
        ensures
            final(self).wf(),
            r == old(self)@.deletes(ctrl),
            final(self)@ == old(self)@.deleted(ctrl),
    {
        let ghost e = self@;
        let cur: usize = self.caret;
        let len: usize = self.text.len();
        proof {
            lemma_forth_over(e.text, e.caret, true);
            lemma_forth_over(e.text, forth_over(e.text, e.caret, true), false);
        }
        let end: usize = if ctrl {
            next_word_boundary(&self.text, cur)
        } else if cur < len {
            cur + 1
        } else {
            cur
        };
        if self.sel.is_some() || end > cur {
            self.record_edit(Edit::Discrete);
        }
        proof {
            lemma_dropped_ok(self@);
        }
        if self.delete_selection() {
            true
        } else if end > cur {
            proof {
                lemma_without_ok(self@, cur as int, end as int);
            }
            self.remove_range(cur, end);
            true
        } else {
            self.kind = Edit::Fresh;
            false
        }
    }

    /// Selects all of the text.
    pub fn select_all(&mut self)
        requires
            old(self).wf(),
        ensures
            final(self).wf(),
            final(self)@ == (EditorValue {
                sel: Some(0),
                caret: old(self)@.text.len() as int,
                ..old(self)@
            }),
            final(self)@.lo() == 0 && final(self)@.hi() == old(self)@.text.len(),
            final(self)@.selection() == old(self)@.text,
            final(self)@.text == old(self)@.text && final(self)@.attrs == old(self)@.attrs,
            final(self)@.undo == old(self)@.undo && final(self)@.redo == old(self)@.redo,
    {
        self.sel = Some(0);
        self.caret = self.text.len();
    }

    /// What is selected, where something is.
    pub fn copy_selection(&self) -> (r: Option<String>)
        requires
            self.wf(),
        ensures
            r is Some <==> self@.selects(),
            r matches Some(s) ==> s@ == self@.selection(),
    {
        let (lo, hi) = self.range();
        if lo == hi {
            return None;
        }
        Some(string_of(&self.text, lo, hi))
    }

    /// Takes out what is selected and hands it over.
    pub fn cut_selection(&mut self) -> (r: Option<String>)
        requires
            old(self).wf(),
        ensures
            final(self).wf(),
            r is Some <==> old(self)@.selects(),
            r matches Some(s) ==> s@ == old(self)@.selection(),
            final(self)@ == if old(self)@.selects() {
                old(self)@.recorded(Edit::Discrete).dropped()
            } else {
                old(self)@
            },
            !final(self)@.selects(),
            final(self)@.text.len() + old(self)@.selection().len() == old(self)@.text.len(),
    {
        let r = self.copy_selection();
        if r.is_some() {
            self.record_edit(Edit::Discrete);
            self.delete_selection();
        }
        r
    }

    /// Puts a text in place of the selection, in plain letters whatever the style
    /// around them. False where the text is empty.
    pub fn paste(&mut self, text: &str) -> (r: bool)
        requires
            old(self).wf(),
        ensures
            final(self).wf(),
            r == (text@.len() > 0),
            final(self)@ == if r {
                old(self)@.recorded(Edit::Discrete).dropped().pasted(text@)
            } else {
                old(self)@
            },
            r ==> !final(self)@.selects(),
            r ==> final(self)@.undo.len() > 0 && final(self)@.redo.len() == 0,
    {
        let chars = chars_of(text);
        if chars.len() == 0 {
            return false;
        }
        self.record_edit(Edit::Discrete);
        self.delete_selection();
        self.insert_chars(&chars, 0);
        true
    }

    /// A click into the text: the caret goes there, and a selection with the
    /// mouse may start there.
    pub fn click(&mut self, pos: usize)
        requires
            old(self).wf(),
            pos <= old(self).text@.len(),
        ensures
            final(self).wf(),
            final(self)@ == (EditorValue {
                caret: pos as int,
                sel: Some(pos as int),
                kind: Edit::Fresh,
                ..old(self)@
            }),
            final(self)@.caret == pos && !final(self)@.selects(),
            final(self)@.text == old(self)@.text && final(self)@.attrs == old(self)@.attrs,
            final(self)@.undo == old(self)@.undo && final(self)@.redo == old(self)@.redo,
    {
        self.caret = pos;
        self.sel = Some(pos);
        self.kind = Edit::Fresh;
    }

    /// The mouse selects up to `pos`. True where the caret moved.
    pub fn select_to(&mut self, pos: usize) -> (r: bool)
        requires
            old(self).wf(),
            pos <= old(self).text@.len(),
        ensures
            final(self).wf(),
            r == (pos != old(self)@.caret),
            final(self)@ == (EditorValue { caret: pos as int, ..old(self)@ }),
            final(self)@.caret == pos && final(self)@.sel == old(self)@.sel,
            r ==> final(self)@.caret != old(self)@.caret,
            final(self)@.text == old(self)@.text && final(self)@.attrs == old(self)@.attrs,
            final(self)@.undo == old(self)@.undo && final(self)@.redo == old(self)@.redo,
    {
        let moved = pos != self.caret;
        self.caret = pos;
        moved
    }

    /// The mouse button was let go: a plain click leaves no selection.
    pub fn end_select(&mut self)
        requires
            old(self).wf(),
        ensures
            final(self).wf(),
            final(self)@ == if old(self)@.sel == Some(old(self)@.caret) {
                EditorValue { sel: None, ..old(self)@ }
            } else {
                old(self)@
            },
            final(self)@.selects() == old(self)@.selects() && final(self)@.caret == old(self)@.caret,
            final(self)@.sel is Some ==> final(self)@.selects(),
            final(self)@.text == old(self)@.text && final(self)@.attrs == old(self)@.attrs,
            final(self)@.undo == old(self)@.undo && final(self)@.redo == old(self)@.redo,
    {
        if let Some(a) = self.sel {
            if a == self.caret {
                self.sel = None;
            }
        }
    }

    /// Nothing is selected any more.
    pub fn deselect(&mut self)
        requires
            old(self).wf(),
        ensures
            final(self).wf(),
            final(self)@ == (EditorValue { sel: None, ..old(self)@ }),
            !final(self)@.selects() && final(self)@.caret == old(self)@.caret,
            final(self)@.text == old(self)@.text && final(self)@.attrs == old(self)@.attrs,
            final(self)@.undo == old(self)@.undo && final(self)@.redo == old(self)@.redo,
    {
        self.sel = None;
    }

    /// The character that a hit in the layout, in UTF-16 units, belongs to.
    pub fn hit_test_char(&self, hit: u32) -> (r: usize)
        ensures
            is_boundary(self.text@, hit as nat, r as int),
            r <= self.text@.len(),
    {
        u16_to_chars(&self.text, hit)
    }

    /// The caret one line up or down, from where the layout was hit; it stays
    /// where there is no layout.
    pub fn caret_line_move(&self, hit: Option<u32>) -> (r: usize)
        requires
            self.wf(),
        ensures
            match hit {
                Some(u) => is_boundary(self.text@, u as nat, r as int),
                None => r == self.caret,
            },
            r <= self.text@.len(),
            hit is None ==> r == self@.caret,
    {
        match hit {
            Some(u) => u16_to_chars(&self.text, u),
            None => self.caret,
        }
    }

    /// The ends of the caret's line, from where the layout was hit; those of
    /// the text where there is no layout.
    pub fn caret_line_bounds(&self, hits: Option<(u32, u32)>) -> (r: (usize, usize))
        requires
            self.wf(),
        ensures
            match hits {
                Some((a, b)) => is_boundary(self.text@, a as nat, r.0 as int) && is_boundary(
                    self.text@,
                    b as nat,
                    r.1 as int,
                ),
                None => r.0 == 0 && r.1 == self.text@.len(),
            },
            r.0 <= self.text@.len(),
            r.1 <= self.text@.len(),
    {
        match hits {
            Some((a, b)) => (u16_to_chars(&self.text, a), u16_to_chars(&self.text, b)),
            None => (0, self.text.len()),
        }
    }
}

impl EditorValue {
    /// Characters typed one after the other.
    pub open spec fn typed_all(self, s: Seq<char>) -> EditorValue
        decreases s.len(),
    {
        if s.len() == 0 {
            self
        } else {
            self.typed_all(s.drop_last()).typed(s.last())
        }
    }
}

/// Whatever a key from the keyboard did to the text, from a fresh state one
/// step back takes it back.
pub proof fn typed_key_can_be_undone(e: EditorValue, code: u32)
    requires
        e.ok(),
        e.kind == Edit::Fresh,
        e.after_char(code).snap() != e.snap(),
    ensures
        e.after_char(code).undo.len() > 0,
        e.after_char(code).undone().snap() == e.snap(),
{
    lemma_recorded_undo(e, Edit::Discrete);
    lemma_recorded_undo(e, Edit::Delete);
    lemma_recorded_undo(e, Edit::Insert);
}

/// Whatever Delete took out, one step back brings it back.
pub proof fn delete_can_be_undone(e: EditorValue, ctrl: bool)
    requires
        e.ok(),
        e.deletes(ctrl),
    ensures
        e.deleted(ctrl).undo.len() > 0,
        e.deleted(ctrl).undone().snap() == e.snap(),
{
    lemma_recorded_undo(e, Edit::Discrete);
}

proof fn lemma_recorded_undo(e: EditorValue, kind: Edit)
    requires
        kind == Edit::Discrete || kind != e.kind,
    ensures
        e.recorded(kind).undo.len() > 0,
        e.recorded(kind).undo.last() == e.snap(),
{
    let u = e.undo.push(e.snap());
    assert(u.last() == e.snap());
}

/// A run of typing without white space is one step: one step back takes all of
/// it back.
pub proof fn a_word_is_one_step(e: EditorValue, s: Seq<char>)
    requires
        e.ok(),
        e.kind == Edit::Fresh,
        e.sel is None,
        s.len() > 0,
        forall|i: int| 0 <= i < s.len() ==> !is_space(#[trigger] s[i]),
    ensures
        e.typed_all(s).undone().snap() == e.snap(),
        e.typed_all(s).kind == Edit::Insert,
        e.typed_all(s).sel is None,
        e.typed_all(s).undo == e.recorded(Edit::Insert).undo,
    decreases s.len(),
{
    lemma_recorded_undo(e, Edit::Insert);
    let t = s.drop_last();
    assert(!is_space(s[s.len() - 1]));
    if t.len() > 0 {
        assert forall|i: int| 0 <= i < t.len() implies !is_space(#[trigger] t[i]) by {
            assert(t[i] == s[i]);
        }
        a_word_is_one_step(e, t);
    } else {
        assert(e.typed_all(t) == e);
    }
}

impl EditorValue {
    /// Backspace, `n` times.
    pub open spec fn backspaced_all(self, n: nat) -> EditorValue
        decreases n,
    {
        if n == 0 {
            self
        } else {
            self.backspaced_all((n - 1) as nat).backspaced()
        }
    }
}

/// A run of backspaces is one step: one step back brings all of it back.
pub proof fn a_run_of_backspaces_is_one_step(e: EditorValue, n: nat)
    requires
        e.ok(),
        e.kind == Edit::Fresh,
        e.sel is None,
        0 < n <= e.caret,
    ensures
        e.backspaced_all(n).undone().snap() == e.snap(),
        e.backspaced_all(n).kind == Edit::Delete,
        e.backspaced_all(n).sel is None,
        e.backspaced_all(n).caret == e.caret - n,
        e.backspaced_all(n).undo == e.recorded(Edit::Delete).undo,
    decreases n,
{
    lemma_recorded_undo(e, Edit::Delete);
    if n > 1 {
        a_run_of_backspaces_is_one_step(e, (n - 1) as nat);
    } else {
        assert(e.backspaced_all(0) == e);
    }
}

/// The run of white space, or of anything else, that the character at `pos`
/// belongs to; the last run where `pos` is the end of the text.
pub open spec fn word_span(text: Seq<char>, pos: int) -> (int, int) {
    if text.len() == 0 {
        (0, 0)
    } else {
        let at = if pos < text.len() {
            pos
        } else {
            text.len() - 1
        };
        let space = is_space(text[at]);
        (back_over(text, at, space), forth_over(text, at, space))
    }
}

/// A character that ends a sentence.
pub open spec fn ends_sentence(c: char) -> bool {
    c == '.' || c == '!' || c == '?' || c == '\n'
}

/// Back to just behind the last end of a sentence before `i`.
pub open spec fn sentence_start(text: Seq<char>, i: int) -> int
    decreases i,
{
    if 0 < i <= text.len() && !ends_sentence(text[i - 1]) {
        sentence_start(text, i - 1)
    } else {
        i
    }
}

/// Forward to the first end of a sentence from `i` on.
pub open spec fn sentence_stop(text: Seq<char>, i: int) -> int
    decreases text.len() - i,
{
    if 0 <= i < text.len() && !ends_sentence(text[i]) {
        sentence_stop(text, i + 1)
    } else {
        i
    }
}

/// The sentence round `pos`: without white space in front, and with the mark
/// that ends it, unless a line feed does.
pub open spec fn sentence_span(text: Seq<char>, pos: int) -> (int, int) {
    let from = sentence_start(text, pos);
    let lo = lesser(forth_over(text, from, true), pos);
    let stop = sentence_stop(text, pos);
    let hi = if stop < text.len() && text[stop] != '\n' {
        stop + 1
    } else {
        stop
    };
    (lo, hi)
}

proof fn lemma_sentence(text: Seq<char>, i: int)
    requires
        0 <= i <= text.len(),
    ensures
        0 <= sentence_start(text, i) <= i,
        i <= sentence_stop(text, i) <= text.len(),
    decreases text.len(),
{
    lemma_sentence_start(text, i);
    lemma_sentence_stop(text, i);
}

proof fn lemma_sentence_start(text: Seq<char>, i: int)
    requires
        0 <= i <= text.len(),
    ensures
        0 <= sentence_start(text, i) <= i,
    decreases i,
{
    if i > 0 && !ends_sentence(text[i - 1]) {
        lemma_sentence_start(text, i - 1);
    }
}

proof fn lemma_sentence_stop(text: Seq<char>, i: int)
    requires
        0 <= i <= text.len(),
    ensures
        i <= sentence_stop(text, i) <= text.len(),
    decreases text.len() - i,
{
    if i < text.len() && !ends_sentence(text[i]) {
        lemma_sentence_stop(text, i + 1);
    }
}

impl EditorValue {
    /// With a span selected, the caret at its end; an empty span selects
    /// nothing.
    pub open spec fn spanning(self, span: (int, int)) -> EditorValue {
        EditorValue {
            caret: span.1,
            sel: if span.0 < span.1 {
                Some(span.0)
            } else {
                None
            },
            kind: Edit::Fresh,
            ..self
        }
    }
}

impl Editor {
    fn select_span(&mut self, lo: usize, hi: usize)
        requires
            old(self).wf(),
            lo <= hi <= old(self).text@.len(),
        ensures
            final(self).wf(),
            final(self)@ == old(self)@.spanning((lo as int, hi as int)),
    {
        self.caret = hi;
        self.sel = if lo < hi {
            Some(lo)
        } else {
            None
        };
        self.kind = Edit::Fresh;
    }

    /// Selects the word at `pos`.
    pub fn select_word(&mut self, pos: usize)
        requires
            old(self).wf(),
            pos <= old(self).text@.len(),
        ensures
            final(self).wf(),
            final(self)@ == old(self)@.spanning(word_span(old(self)@.text, pos as int)),
    {
        let n: usize = self.text.len();
        if n == 0 {
            self.select_span(0, 0);
            return;
        }
        let at: usize = if pos < n {
            pos
        } else {
            n - 1
        };
        let space = is_whitespace(self.text[at]);
        let mut lo: usize = at;
        while lo > 0 && is_whitespace(self.text[lo - 1]) == space
            invariant
                *self == *old(self),
                lo <= at < self.text@.len(),
                back_over(self.text@, lo as int, space) == back_over(
                    self.text@,
                    at as int,
                    space,
                ),
            decreases lo,
        {
            lo = lo - 1;
        }
        let mut hi: usize = at;
        while hi < n && is_whitespace(self.text[hi]) == space
            invariant
                *self == *old(self),
                n == self.text@.len(),
                at <= hi <= n,
                forth_over(self.text@, hi as int, space) == forth_over(
                    self.text@,
                    at as int,
                    space,
                ),
            decreases n - hi,
        {
            hi = hi + 1;
        }
        self.select_span(lo, hi);
    }

    /// Selects the sentence at `pos`.
    pub fn select_sentence(&mut self, pos: usize)
        requires
            old(self).wf(),
            pos <= old(self).text@.len(),
        ensures
            final(self).wf(),
            final(self)@ == old(self)@.spanning(sentence_span(old(self)@.text, pos as int)),
    {
        let n: usize = self.text.len();
        proof {
            lemma_sentence(self.text@, pos as int);
        }
        let mut from: usize = pos;
        while from > 0 && !is_sentence_end(self.text[from - 1])
            invariant
                *self == *old(self),
                from <= pos <= self.text@.len(),
                sentence_start(self.text@, from as int) == sentence_start(
                    self.text@,
                    pos as int,
                ),
            decreases from,
        {
            from = from - 1;
        }
        let mut lo: usize = from;
        while lo < n && is_whitespace(self.text[lo])
            invariant
                *self == *old(self),
                n == self.text@.len(),
                from <= lo <= n,
                forth_over(self.text@, lo as int, true) == forth_over(
                    self.text@,
                    from as int,
                    true,
                ),
            decreases n - lo,
        {
            lo = lo + 1;
        }
        if lo > pos {
            lo = pos;
        }
        let mut hi: usize = pos;
        while hi < n && !is_sentence_end(self.text[hi])
            invariant
                *self == *old(self),
                n == self.text@.len(),
                pos <= hi <= n,
                sentence_stop(self.text@, hi as int) == sentence_stop(self.text@, pos as int),
            decreases n - hi,
        {
            hi = hi + 1;
        }
        if hi < n && self.text[hi] != '\n' {
            hi = hi + 1;
        }
        self.select_span(lo, hi);
    }
}

/// Whether a character ends a sentence.
fn is_sentence_end(c: char) -> (r: bool)
    ensures
        r == ends_sentence(c),
{
    c == '.' || c == '!' || c == '?' || c == '\n'
}

} // verus!
