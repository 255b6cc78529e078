//! The keyboard: what each key asks for, and what it does to the desk.

use vstd::prelude::*;
use crate::actions::closing_card;
use crate::card::Card;
use crate::desk::Content;
use crate::desk::Desk;
use crate::editor::Edit;
use crate::editor::Editor;
use crate::editor::EditorValue;
use crate::editor::sentence_span;
use crate::editor::word_span;
use crate::editor::Key;
use crate::html::A_BOLD;
use crate::html::A_ITALIC;
use crate::html::A_STRIKE;

verus! {

/// Only the editor of one text has changed.
pub open spec fn edited(before: Seq<Content>, after: Seq<Content>, i: int, e: EditorValue) -> bool {
    &&& after.len() == before.len()
    &&& forall|k: int| 0 <= k < before.len() && k != i ==> #[trigger] after[k] == before[k]
    &&& after[i].font_size == before[i].font_size
    &&& after[i].editor@ == e
}

impl Desk {
    /// The keyboard writes to window `i`.
    pub open spec fn writes_to(self, i: int) -> bool {
        0 <= i < self.cards@.len() && self.cards@[i].note() && self.focused == Some(i as usize)
    }

    /// A character code from the keyboard.
    pub fn char_typed(&mut self, i: usize, code: u32) -> (r: bool)
        requires
            old(self).wf(),
        ensures
            final(self).wf(),
            r == old(self).writes_to(i as int),
            r ==> edited(
                old(self).contents@,
                final(self).contents@,
                i as int,
                old(self).contents@[i as int].editor@.after_char(code),
            ),
            !r ==> final(self).contents@ == old(self).contents@,
            *final(self) == (Desk {
                contents: final(self).contents,
                caret_on: old(self).caret_on || r,
                dirty: old(self).dirty || r,
                ..*old(self)
            }),
            r ==> final(self).dirty && final(self).caret_on,
            r ==> old(self).focused == Some(i),
            forall|k: int|
                0 <= k < old(self).contents@.len() && k != i ==> #[trigger] final(self).contents@[k] == old(
                    self,
                ).contents@[k],
    {
        let here = match self.focused {
            Some(f) => f == i,
            None => false,
        };
        if !here {
            return false;
        }
        self.contents[i].editor.on_char(code);
        self.caret_on = true;
        self.dirty = true;
        true
    }
}

/// What a key asks for.
#[derive(Clone, Copy, Debug, PartialEq, Eq, Structural)]
pub enum Command {
    /// Take the last edit back, or bring a deleted note back where there is
    /// none.
    Undo,
    Redo,
    /// Bring the last deleted note back.
    Restore,
    Close,
    /// Strike the selection through, or save where there is none.
    Strike,
    SelectAll,
    Copy,
    Cut,
    Paste,
    Bold,
    Italic,
    /// Larger and smaller letters.
    Grow,
    Shrink,
    Move(Key),
    Delete,
    Other,
}

/// What a key asks for, by its virtual key code.
pub open spec fn command(vk: u16, ctrl: bool, shift: bool) -> Command {
    if ctrl && vk == 0x5A {
        if shift {
            Command::Restore
        } else {
            Command::Undo
        }
    } else if ctrl && vk == 0x59 {
        Command::Redo
    } else if ctrl && vk == 0x57 {
        Command::Close
    } else if ctrl && vk == 0x53 {
        Command::Strike
    } else if ctrl && vk == 0x41 {
        Command::SelectAll
    } else if ctrl && vk == 0x43 {
        Command::Copy
    } else if ctrl && vk == 0x58 {
        Command::Cut
    } else if ctrl && vk == 0x56 {
        Command::Paste
    } else if ctrl && vk == 0x42 {
        Command::Bold
    } else if ctrl && vk == 0x49 {
        Command::Italic
    } else if ctrl && vk == 0xBB {
        Command::Grow
    } else if ctrl && vk == 0xBD {
        Command::Shrink
    } else if vk == 0x25 {
        Command::Move(Key::Left)
    } else if vk == 0x26 {
        Command::Move(Key::Up)
    } else if vk == 0x27 {
        Command::Move(Key::Right)
    } else if vk == 0x28 {
        Command::Move(Key::Down)
    } else if vk == 0x24 {
        Command::Move(Key::Home)
    } else if vk == 0x23 {
        Command::Move(Key::End)
    } else if vk == 0x2E {
        Command::Delete
    } else {
        Command::Other
    }
}

/// What a key asks for.
pub fn command_for(vk: u16, ctrl: bool, shift: bool) -> (c: Command)
    ensures
        c == command(vk, ctrl, shift),
{
    if ctrl {
        match vk {
            0x5A => {
                return if shift {
                    Command::Restore
                } else {
                    Command::Undo
                };
            },
            0x59 => {
                return Command::Redo;
            },
            0x57 => {
                return Command::Close;
            },
            0x53 => {
                return Command::Strike;
            },
            0x41 => {
                return Command::SelectAll;
            },
            0x43 => {
                return Command::Copy;
            },
            0x58 => {
                return Command::Cut;
            },
            0x56 => {
                return Command::Paste;
            },
            0x42 => {
                return Command::Bold;
            },
            0x49 => {
                return Command::Italic;
            },
            0xBB => {
                return Command::Grow;
            },
            0xBD => {
                return Command::Shrink;
            },
            _ => {},
        }
    }
    match vk {
        0x25 => Command::Move(Key::Left),
        0x26 => Command::Move(Key::Up),
        0x27 => Command::Move(Key::Right),
        0x28 => Command::Move(Key::Down),
        0x24 => Command::Move(Key::Home),
        0x23 => Command::Move(Key::End),
        0x2E => Command::Delete,
        _ => Command::Other,
    }
}

impl EditorValue {
    /// A style key: the state goes on record where there is a selection, even
    /// an empty one.
    pub open spec fn styled_by(self, bit: u8) -> EditorValue {
        let r = if self.sel is Some {
            self.recorded(Edit::Discrete)
        } else {
            self
        };
        if self.selects() {
            r.toggled(bit)
        } else {
            r
        }
    }

    /// What a command does to the text. `line` is the layout's answer, where a
    /// move needs one, and `clip` the text to paste.
    pub open spec fn commanded(
        self,
        c: Command,
        ctrl: bool,
        shift: bool,
        line: int,
        clip: Seq<char>,
    ) -> EditorValue {
        match c {
            Command::Undo => if self.undo.len() > 0 {
                self.undone()
            } else {
                self
            },
            Command::Redo => if self.redo.len() > 0 {
                self.redone()
            } else {
                self
            },
            Command::Strike => self.styled_by(A_STRIKE),
            Command::Bold => self.styled_by(A_BOLD),
            Command::Italic => self.styled_by(A_ITALIC),
            Command::SelectAll => EditorValue {
                sel: Some(0),
                caret: self.text.len() as int,
                ..self
            },
            Command::Cut => if self.selects() {
                self.recorded(Edit::Discrete).dropped()
            } else {
                self
            },
            Command::Paste => if clip.len() > 0 {
                self.recorded(Edit::Discrete).dropped().pasted(clip)
            } else {
                self
            },
            Command::Move(k) => self.moved(k, ctrl, shift, line),
            Command::Delete => self.deleted(ctrl),
            _ => self,
        }
    }

    /// What is written anew has to be drawn and saved.
    pub open spec fn commands(self, c: Command, clip: Seq<char>) -> bool {
        match c {
            Command::Undo => self.undo.len() > 0,
            Command::Redo => self.redo.len() > 0,
            Command::Strike => self.selects(),
            Command::Bold => self.selects(),
            Command::Italic => self.selects(),
            Command::Cut => self.selects(),
            Command::Paste => clip.len() > 0,
            Command::Move(_) => true,
            Command::Delete => true,
            _ => false,
        }
    }

    /// The height of the note may no longer fit its text.
    pub open spec fn refits(self, c: Command, ctrl: bool, clip: Seq<char>) -> bool {
        match c {
            Command::Undo => self.undo.len() > 0,
            Command::Redo => self.redo.len() > 0,
            Command::Cut => self.selects(),
            Command::Paste => clip.len() > 0,
            Command::Delete => self.deletes(ctrl),
            _ => false,
        }
    }
}

/// What a command on a text asks of its surroundings.
#[derive(Debug)]
pub struct TextOutcome {
    /// The text is to be saved.
    pub changed: bool,
    /// The height is to be fitted.
    pub refit: bool,
    /// What goes to the clipboard.
    pub copied: Option<String>,
}

impl Editor {
    /// A style key. True where styles changed.
    fn style_key(&mut self, bit: u8) -> (r: bool)
        requires
            old(self).wf(),
            crate::editor::style_bit(bit),
        ensures
            final(self).wf(),
            final(self)@ == old(self)@.styled_by(bit),
            r == old(self)@.selects(),
    {
        if self.sel.is_some() {
            self.record_edit(Edit::Discrete);
        }
        self.toggle_attr(bit)
    }

    /// A command on the text.
    pub fn run(&mut self, c: Command, ctrl: bool, shift: bool, line: usize, clip: &str) -> (r:
        TextOutcome)
        requires
            old(self).wf(),
            line <= old(self).text@.len(),
        ensures
            final(self).wf(),
            final(self)@ == old(self)@.commanded(c, ctrl, shift, line as int, clip@),
            r.changed == old(self)@.commands(c, clip@),
            r.refit == old(self)@.refits(c, ctrl, clip@),
            r.copied is Some <==> (c == Command::Copy || c == Command::Cut) && old(
                self,
            )@.selects(),
            r.copied matches Some(s) ==> s@ == old(self)@.selection(),
    {
        let mut copied: Option<String> = None;
        let mut changed = false;
        let mut refit = false;
        match c {
            Command::Undo => {
                changed = self.text_undo();
                refit = changed;
            },
            Command::Redo => {
                changed = self.text_redo();
                refit = changed;
            },
            Command::Strike => {
                changed = self.style_key(A_STRIKE);
            },
            Command::Bold => {
                changed = self.style_key(A_BOLD);
            },
            Command::Italic => {
                changed = self.style_key(A_ITALIC);
            },
            Command::SelectAll => self.select_all(),
            Command::Copy => {
                copied = self.copy_selection();
            },
            Command::Cut => {
                copied = self.cut_selection();
                changed = copied.is_some();
                refit = changed;
            },
            Command::Paste => {
                changed = self.paste(clip);
                refit = changed;
            },
            Command::Move(k) => {
                self.move_caret(k, ctrl, shift, line);
                changed = true;
            },
            Command::Delete => {
                refit = self.delete_key(ctrl);
                changed = true;
            },
            _ => {},
        }
        TextOutcome { changed, refit, copied }
    }
}

/// What a key asks of the surroundings.
#[derive(Debug)]
pub struct KeyOutcome {
    /// The key meant something here.
    pub handled: bool,
    /// The text to draw again.
    pub redraw: Option<usize>,
    /// There is something to save, once the typing pauses.
    pub changed: bool,
    /// The height of the note is to be fitted.
    pub refit: bool,
    /// What goes to the clipboard.
    pub copied: Option<String>,
    /// A deleted note is to be brought back.
    pub restore: bool,
    /// Everything is to be saved now.
    pub save: bool,
    /// The letters grow (1) or shrink (-1).
    pub font: i8,
}

/// The command restyles the text only.
pub open spec fn restyles(c: Command) -> bool {
    c == Command::Strike || c == Command::Bold || c == Command::Italic
}

/// The command closes the note.
pub open spec fn closes(c: Command, card: Card) -> bool {
    c == Command::Close && !card.closing && !card.dying
}

impl Desk {
    /// The text that a command is for: undo and redo go to the text that has
    /// the keyboard, any other command only if it came to that very window.
    pub open spec fn acts_on(self, here: Option<usize>, c: Command) -> Option<int> {
        match self.focused {
            Some(f) => if c == Command::Undo || c == Command::Redo || here == Some(f) {
                Some(f as int)
            } else {
                None
            },
            None => None,
        }
    }

    /// Whether the command is to be run there.
    fn text_for(&self, here: Option<usize>, c: Command) -> (r: Option<usize>)
        requires
            self.wf(),
        ensures
            match r {
                Some(i) => self.acts_on(here, c) == Some(i as int) && i < self.cards@.len()
                    && self.cards@[i as int].note(),
                None => self.acts_on(here, c) is None,
            },
    {
        match self.focused {
            Some(f) => {
                let everywhere = matches!(c, Command::Undo) || matches!(c, Command::Redo);
                let at_home = match here {
                    Some(h) => h == f,
                    None => false,
                };
                if everywhere || at_home {
                    Some(f)
                } else {
                    None
                }
            },
            None => None,
        }
    }

    /// A key with its command, at the window `here`.
    pub fn key_down(
        &mut self,
        here: Option<usize>,
        c: Command,
        ctrl: bool,
        shift: bool,
        line: usize,
        clip: &str,
    ) -> (r: KeyOutcome)
        requires
            old(self).wf(),
            old(self).acts_on(here, c) matches Some(i) ==> line <= old(
                self,
            ).contents@[i].editor.text@.len(),
            old(self).deletions < u64::MAX,
        ensures
            final(self).wf(),
            match old(self).acts_on(here, c) {
                Some(i) => {
                    let e = old(self).contents@[i].editor@;
                    let card = old(self).cards@[i];
                    &&& edited(
                        old(self).contents@,
                        final(self).contents@,
                        i,
                        e.commanded(c, ctrl, shift, line as int, clip@),
                    )
                    &&& final(self).cards@ == if closes(c, card) {
                        old(self).cards@.update(
                            i,
                            closing_card(card, (old(self).deletions + 1) as u64),
                        )
                    } else {
                        old(self).cards@
                    }
                    &&& final(self).deletions == if closes(c, card) {
                        (old(self).deletions + 1) as u64
                    } else {
                        old(self).deletions
                    }
                    &&& r.handled == (c != Command::Other)
                    &&& r.changed == e.commands(c, clip@)
                    &&& r.refit == e.refits(c, ctrl, clip@)
                    &&& r.redraw == if r.changed || c == Command::SelectAll {
                        Some(i as usize)
                    } else {
                        None
                    }
                    &&& r.copied is Some <==> (c == Command::Copy || c == Command::Cut)
                        && e.selects()
                    &&& r.copied matches Some(s) ==> s@ == e.selection()
                    &&& r.restore == (c == Command::Restore || (c == Command::Undo && !r.changed))
                    &&& r.save == (c == Command::Strike && !r.changed)
                    &&& r.font == if c == Command::Grow {
                        1int
                    } else if c == Command::Shrink {
                        -1
                    } else {
                        0
                    }
                    &&& final(self).caret_on == (old(self).caret_on || (r.redraw is Some
                        && !restyles(c)))
                },
                None => {
                    &&& final(self).contents@ == old(self).contents@
                    &&& final(self).cards@ == old(self).cards@
                    &&& final(self).deletions == old(self).deletions
                    &&& r.handled == (c == Command::Undo || c == Command::Redo || c
                        == Command::Restore || c == Command::Strike)
                    &&& !r.changed && !r.refit && r.redraw is None && r.copied is None && r.font
                        == 0
                    &&& r.restore == (c == Command::Undo || c == Command::Restore)
                    &&& r.save == (c == Command::Strike)
                    &&& final(self).caret_on == old(self).caret_on
                },
            },
            *final(self) == (Desk {
                cards: final(self).cards,
                contents: final(self).contents,
                caret_on: final(self).caret_on,
                dirty: old(self).dirty || r.changed,
                deletions: final(self).deletions,
                ..*old(self)
            }),
            final(self).dirty == (old(self).dirty || r.changed),
            r.font > 0 ==> c == Command::Grow,
            r.font < 0 ==> c == Command::Shrink,
            r.copied is Some ==> c == Command::Copy || c == Command::Cut,
            r.save ==> c == Command::Strike && !r.changed,
            r.restore ==> c == Command::Restore || c == Command::Undo,
            c == Command::Restore ==> r.restore,
            c != Command::Close ==> final(self).cards@ == old(self).cards@,
            final(self).cards@.len() == old(self).cards@.len(),
    {
        let is_undo = matches!(c, Command::Undo);
        let is_redo = matches!(c, Command::Redo);
        let is_restore = matches!(c, Command::Restore);
        let is_strike = matches!(c, Command::Strike);
        match self.text_for(here, c) {
            None => KeyOutcome {
                handled: is_undo || is_redo || is_restore || is_strike,
                redraw: None,
                changed: false,
                refit: false,
                copied: None,
                restore: is_undo || is_restore,
                save: is_strike,
                font: 0,
            },
            Some(i) => {
                let out = self.run_on(i, c, ctrl, shift, line, clip);
                self.close_if(matches!(c, Command::Close), i);
                let r = meant(c, i, out);
                self.note_key(r.changed, r.redraw.is_some() && !is_restyling(c));
                r
            },
        }
    }

    /// Closes a note where that is asked for.
    fn close_if(&mut self, wanted: bool, i: usize)
        requires
            old(self).wf(),
            i < old(self).cards@.len(),
            old(self).cards@[i as int].note(),
            old(self).deletions < u64::MAX,
        ensures
            final(self).wf(),
            ({
                let card = old(self).cards@[i as int];
                let goes = wanted && !card.closing && !card.dying;
                let stamp = (old(self).deletions + 1) as u64;
                &&& final(self).cards@ == if goes {
                    old(self).cards@.update(i as int, closing_card(card, stamp))
                } else {
                    old(self).cards@
                }
                &&& *final(self) == (Desk {
                    cards: final(self).cards,
                    deletions: if goes {
                        stamp
                    } else {
                        old(self).deletions
                    },
                    ..*old(self)
                })
            }),
    {
        if wanted {
            self.close_note(i);
        }
    }

    /// Runs a command on one text.
    fn run_on(
        &mut self,
        i: usize,
        c: Command,
        ctrl: bool,
        shift: bool,
        line: usize,
        clip: &str,
    ) -> (r: TextOutcome)
        requires
            old(self).wf(),
            i < old(self).cards@.len(),
            line <= old(self).contents@[i as int].editor.text@.len(),
        ensures
            final(self).wf(),
            ({
                let e = old(self).contents@[i as int].editor@;
                &&& edited(
                    old(self).contents@,
                    final(self).contents@,
                    i as int,
                    e.commanded(c, ctrl, shift, line as int, clip@),
                )
                &&& r.changed == e.commands(c, clip@)
                &&& r.refit == e.refits(c, ctrl, clip@)
                &&& r.copied is Some <==> (c == Command::Copy || c == Command::Cut) && e.selects()
                &&& r.copied matches Some(s) ==> s@ == e.selection()
            }),
            *final(self) == (Desk { contents: final(self).contents, ..*old(self) }),
    {
        self.contents[i].editor.run(c, ctrl, shift, line, clip)
    }

    /// Something was typed: it is to be saved, and the caret shows.
    fn note_key(&mut self, changed: bool, caret: bool)
        requires
            old(self).wf(),
        ensures
            final(self).wf(),
            *final(self) == (Desk {
                caret_on: old(self).caret_on || caret,
                dirty: old(self).dirty || changed,
                ..*old(self)
            }),
    {
        if caret {
            self.caret_on = true;
        }
        if changed {
            self.dirty = true;
        }
    }
}

/// Whether the command restyles the text only.
fn is_restyling(c: Command) -> (r: bool)
    ensures
        r == restyles(c),
{
    matches!(c, Command::Strike) || matches!(c, Command::Bold) || matches!(c, Command::Italic)
}

/// What a command that ran on text `i` asks of the surroundings.
fn meant(c: Command, i: usize, out: TextOutcome) -> (r: KeyOutcome)
    ensures
        r.handled == (c != Command::Other),
        r.changed == out.changed,
        r.refit == out.refit,
        r.copied == out.copied,
        r.redraw == if r.changed || c == Command::SelectAll {
            Some(i)
        } else {
            None
        },
        r.restore == (c == Command::Restore || (c == Command::Undo && !r.changed)),
        r.save == (c == Command::Strike && !r.changed),
        r.font == if c == Command::Grow {
            1int
        } else if c == Command::Shrink {
            -1
        } else {
            0
        },
{
    let draws = out.changed || matches!(c, Command::SelectAll);
    let still = !out.changed;
    KeyOutcome {
        handled: !matches!(c, Command::Other),
        redraw: if draws {
            Some(i)
        } else {
            None
        },
        changed: out.changed,
        refit: out.refit,
        copied: out.copied,
        restore: matches!(c, Command::Restore) || (matches!(c, Command::Undo) && still),
        save: matches!(c, Command::Strike) && still,
        font: if matches!(c, Command::Grow) {
            1
        } else if matches!(c, Command::Shrink) {
            -1
        } else {
            0
        },
    }
}

impl Desk {
    /// A click into the text of a note: the caret goes there and the mouse may
    /// select from there on.
    pub fn begin_select(&mut self, i: usize, pos: usize)
        requires
            old(self).wf(),
            i < old(self).cards@.len(),
            pos <= old(self).contents@[i as int].editor.text@.len(),
        ensures
            final(self).wf(),
            edited(
                old(self).contents@,
                final(self).contents@,
                i as int,
                EditorValue {
                    caret: pos as int,
                    sel: Some(pos as int),
                    kind: Edit::Fresh,
                    ..old(self).contents@[i as int].editor@
                },
            ),
            *final(self) == (Desk {
                contents: final(self).contents,
                selecting: true,
                caret_on: true,
                ..*old(self)
            }),
            final(self).selecting && final(self).caret_on,
            final(self).contents@[i as int].editor@.caret == pos,
            !final(self).contents@[i as int].editor@.selects(),
            final(self).contents@[i as int].editor@.text == old(self).contents@[i as int].editor@.text,
    {
        self.contents[i].editor.click(pos);
        self.selecting = true;
        self.caret_on = true;
    }

    /// A second click on one spot selects the word there, a third one the
    /// sentence.
    pub fn select_more(&mut self, i: usize, pos: usize, sentence: bool)
        requires
            old(self).wf(),
            i < old(self).cards@.len(),
            pos <= old(self).contents@[i as int].editor.text@.len(),
        ensures
            final(self).wf(),
            ({
                let e = old(self).contents@[i as int].editor@;
                edited(
                    old(self).contents@,
                    final(self).contents@,
                    i as int,
                    e.spanning(
                        if sentence {
                            sentence_span(e.text, pos as int)
                        } else {
                            word_span(e.text, pos as int)
                        },
                    ),
                )
            }),
            *final(self) == (Desk {
                contents: final(self).contents,
                caret_on: true,
                ..*old(self)
            }),
    {
        if sentence {
            self.contents[i].editor.select_sentence(pos);
        } else {
            self.contents[i].editor.select_word(pos);
        }
        self.caret_on = true;
    }

    /// The mouse selects up to `pos`. True where the text is to be drawn again.
    pub fn extend_select(&mut self, i: usize, pos: usize) -> (r: bool)
        requires
            old(self).wf(),
            i < old(self).cards@.len(),
            pos <= old(self).contents@[i as int].editor.text@.len(),
        ensures
            final(self).wf(),
            r == (pos != old(self).contents@[i as int].editor@.caret),
            edited(
                old(self).contents@,
                final(self).contents@,
                i as int,
                EditorValue { caret: pos as int, ..old(self).contents@[i as int].editor@ },
            ),
            *final(self) == (Desk {
                contents: final(self).contents,
                caret_on: old(self).caret_on || r,
                ..*old(self)
            }),
            final(self).contents@[i as int].editor@.caret == pos,
            final(self).contents@[i as int].editor@.sel == old(self).contents@[i as int].editor@.sel,
            final(self).contents@[i as int].editor@.text == old(self).contents@[i as int].editor@.text,
    {
        let r = self.contents[i].editor.select_to(pos);
        if r {
            self.caret_on = true;
        }
        r
    }

    /// The mouse button was let go: a plain click leaves no selection.
    pub fn finish_select(&mut self, i: usize)
        requires
            old(self).wf(),
            i < old(self).cards@.len(),
        ensures
            final(self).wf(),
            ({
                let e = old(self).contents@[i as int].editor@;
                edited(
                    old(self).contents@,
                    final(self).contents@,
                    i as int,
                    if e.sel == Some(e.caret) {
                        EditorValue { sel: None, ..e }
                    } else {
                        e
                    },
                )
            }),
            *final(self) == (Desk {
                contents: final(self).contents,
                selecting: false,
                ..*old(self)
            }),
            !final(self).selecting,
            final(self).contents@[i as int].editor@.selects() == old(self).contents@[i as int].editor@.selects(),
            final(self).contents@[i as int].editor@.sel is Some ==> final(self).contents@[i as int].editor@.selects(),
            final(self).contents@[i as int].editor@.text == old(self).contents@[i as int].editor@.text,
    {
        self.contents[i].editor.end_select();
        self.selecting = false;
    }

    /// A window loses the keyboard. What is selected there is selected no more,
    /// unless the mouse is still selecting.
    pub fn lose_focus(&mut self, i: usize)
        requires
            old(self).wf(),
            i < old(self).cards@.len(),
        ensures
            final(self).wf(),
            ({
                let e = old(self).contents@[i as int].editor@;
                edited(
                    old(self).contents@,
                    final(self).contents@,
                    i as int,
                    if old(self).selecting {
                        e
                    } else {
                        EditorValue { sel: None, ..e }
                    },
                )
            }),
            *final(self) == (Desk {
                contents: final(self).contents,
                focused: if old(self).focused == Some(i) {
                    None
                } else {
                    old(self).focused
                },
                ..*old(self)
            }),
            final(self).focused != Some(i),
            !old(self).selecting ==> !final(self).contents@[i as int].editor@.selects(),
            final(self).contents@[i as int].editor@.text == old(self).contents@[i as int].editor@.text,
            old(self).focused != Some(i) ==> final(self).focused == old(self).focused,
    {
        if let Some(f) = self.focused {
            if f == i {
                self.focused = None;
            }
        }
        if !self.selecting {
            self.contents[i].editor.deselect();
        }
    }
}

/// With Ctrl the letters ask for what they stand for; without it they ask for nothing, and
/// are typed. Only Z heeds Shift. The arrows, Home, End and Delete ask for the same with
/// Ctrl and without.
pub proof fn keys_ask_for_what_they_stand_for(vk: u16, ctrl: bool, shift: bool)
    ensures
        command('Z' as u16, true, false) == Command::Undo,
        command('Z' as u16, true, true) == Command::Restore,
        command('Y' as u16, true, shift) == Command::Redo,
        command('W' as u16, true, shift) == Command::Close,
        command('S' as u16, true, shift) == Command::Strike,
        command('A' as u16, true, shift) == Command::SelectAll,
        command('C' as u16, true, shift) == Command::Copy,
        command('X' as u16, true, shift) == Command::Cut,
        command('V' as u16, true, shift) == Command::Paste,
        command('B' as u16, true, shift) == Command::Bold,
        command('I' as u16, true, shift) == Command::Italic,
        'A' as u16 <= vk <= 'Z' as u16 ==> command(vk, false, shift) == Command::Other,
        command(0x25, ctrl, shift) == Command::Move(Key::Left),
        command(0x27, ctrl, shift) == Command::Move(Key::Right),
        command(0x26, ctrl, shift) == Command::Move(Key::Up),
        command(0x28, ctrl, shift) == Command::Move(Key::Down),
        command(0x24, ctrl, shift) == Command::Move(Key::Home),
        command(0x23, ctrl, shift) == Command::Move(Key::End),
        command(0x2E, ctrl, shift) == Command::Delete,
        vk != 'Z' as u16 ==> command(vk, ctrl, true) == command(vk, ctrl, false),
{
}

/// A command that changes the text has the note fitted to it, and one that changes the text
/// or its styles has it saved. Where a command says that nothing changed, nothing did.
pub proof fn changes_are_saved_and_fitted(
    e: EditorValue,
    c: Command,
    ctrl: bool,
    shift: bool,
    line: int,
    clip: Seq<char>,
)
    requires
        e.ok(),
        0 <= line <= e.text.len(),
    ensures
        e.commanded(c, ctrl, shift, line, clip).text != e.text ==> e.refits(c, ctrl, clip)
            && e.commands(c, clip),
        e.commanded(c, ctrl, shift, line, clip).attrs != e.attrs ==> e.commands(c, clip),
        e.refits(c, ctrl, clip) ==> e.commands(c, clip),
{
    crate::editing::delete_takes_out_what_follows_when_nothing_is_selected(e, ctrl);
}

/// Copying, closing, bringing a note back and changing the size of the letters leave the
/// text and its history alone; so do cutting and undoing where there is nothing to cut or to
/// undo, and pasting nothing.
pub proof fn some_commands_leave_the_text_alone(
    e: EditorValue,
    ctrl: bool,
    shift: bool,
    line: int,
    clip: Seq<char>,
)
    ensures
        e.commanded(Command::Copy, ctrl, shift, line, clip) == e,
        e.commanded(Command::Close, ctrl, shift, line, clip) == e,
        e.commanded(Command::Restore, ctrl, shift, line, clip) == e,
        e.commanded(Command::Grow, ctrl, shift, line, clip) == e,
        e.commanded(Command::Shrink, ctrl, shift, line, clip) == e,
        e.commanded(Command::Other, ctrl, shift, line, clip) == e,
        !e.selects() ==> e.commanded(Command::Cut, ctrl, shift, line, clip) == e,
        e.undo.len() == 0 ==> e.commanded(Command::Undo, ctrl, shift, line, clip) == e,
        e.redo.len() == 0 ==> e.commanded(Command::Redo, ctrl, shift, line, clip) == e,
        clip.len() == 0 ==> e.commanded(Command::Paste, ctrl, shift, line, clip) == e,
{
}

/// Cutting takes out just what is selected, and pasting puts the clipboard in its place.
/// Selecting all selects all. Undo leads back to the last state on record, and redo forward
/// again.
pub proof fn commands_do_what_they_say(
    e: EditorValue,
    ctrl: bool,
    shift: bool,
    line: int,
    clip: Seq<char>,
)
    requires
        e.ok(),
    ensures
        e.selects() ==> crate::editing::lost(
            e,
            e.commanded(Command::Cut, ctrl, shift, line, clip),
            e.lo(),
            e.hi(),
        ),
        clip.len() > 0 ==> crate::editing::replaced(
            e,
            e.commanded(Command::Paste, ctrl, shift, line, clip),
            e.lo(),
            e.hi(),
            clip,
            0,
        ),
        e.commanded(Command::SelectAll, ctrl, shift, line, clip).selection() == e.text,
        e.commanded(Command::SelectAll, ctrl, shift, line, clip).text == e.text,
        e.undo.len() > 0 ==> e.commanded(Command::Undo, ctrl, shift, line, clip).snap()
            == e.undo.last(),
        e.redo.len() > 0 ==> e.commanded(Command::Redo, ctrl, shift, line, clip).snap()
            == e.redo.last(),
        e.selects() ==> crate::editing::lost(
            e,
            e.commanded(Command::Delete, ctrl, shift, line, clip),
            e.lo(),
            e.hi(),
        ),
{
    if e.selects() {
        crate::editing::what_is_selected_is_taken_out(e, ctrl);
    }
    crate::editing::pasting_replaces_the_selection(e, clip);
    assert(e.text.subrange(0, e.text.len() as int) =~= e.text);
}

/// A style key gives all of the selection its style, or takes it off all of it where all
/// had it; the text stays, and so does every other style.
pub proof fn style_keys_toggle_their_style(
    e: EditorValue,
    ctrl: bool,
    shift: bool,
    line: int,
    clip: Seq<char>,
    i: int,
)
    requires
        e.ok(),
        e.lo() <= i < e.hi(),
    ensures
        ({
            let b = e.commanded(Command::Bold, ctrl, shift, line, clip);
            let t = e.commanded(Command::Italic, ctrl, shift, line, clip);
            let s = e.commanded(Command::Strike, ctrl, shift, line, clip);
            &&& crate::html::has_bit(b.attrs[i], A_BOLD) == !e.all_have(A_BOLD)
            &&& crate::html::has_bit(t.attrs[i], A_ITALIC) == !e.all_have(A_ITALIC)
            &&& crate::html::has_bit(s.attrs[i], A_STRIKE) == !e.all_have(A_STRIKE)
            &&& crate::html::has_bit(b.attrs[i], A_ITALIC) == crate::html::has_bit(
                e.attrs[i],
                A_ITALIC,
            )
            &&& crate::html::has_bit(b.attrs[i], A_STRIKE) == crate::html::has_bit(
                e.attrs[i],
                A_STRIKE,
            )
            &&& crate::html::has_bit(t.attrs[i], A_BOLD) == crate::html::has_bit(e.attrs[i], A_BOLD)
            &&& crate::html::has_bit(s.attrs[i], A_BOLD) == crate::html::has_bit(e.attrs[i], A_BOLD)
            &&& b.text == e.text && t.text == e.text && s.text == e.text
            &&& b.undo.last() == e.snap()
        }),
{
    let r = e.recorded(Edit::Discrete);
    crate::editing::recording_adds_one_step(e, Edit::Discrete);
    let u = e.undo.push(e.snap());
    assert(r.ok()) by {
        assert forall|k: int| 0 <= k < r.undo.len() implies (#[trigger] r.undo[k]).ok() by {
            if e.undo.len() < 200 {
                if k < e.undo.len() {
                    assert(r.undo[k] == e.undo[k]);
                }
            } else {
                if k < e.undo.len() - 1 {
                    assert(r.undo[k] == e.undo[k + 1]);
                }
            }
        }
    }
    crate::editor::toggle_is_uniform(r, A_BOLD);
    crate::editor::toggle_is_uniform(r, A_ITALIC);
    crate::editor::toggle_is_uniform(r, A_STRIKE);
    crate::editing::toggling_touches_one_style(r, A_BOLD, A_ITALIC);
    crate::editing::toggling_touches_one_style(r, A_BOLD, A_STRIKE);
    crate::editing::toggling_touches_one_style(r, A_ITALIC, A_BOLD);
    crate::editing::toggling_touches_one_style(r, A_STRIKE, A_BOLD);
}

/// Keys are for the text that has the keyboard. Undo and redo reach it from any window, all
/// else only from its own; without a text that has the keyboard no key reaches one.
pub proof fn keys_go_to_the_text_with_the_keyboard(d: Desk, here: Option<usize>, c: Command)
    requires
        d.wf(),
    ensures
        d.focused is None ==> d.acts_on(here, c) is None,
        d.acts_on(here, c) is Some ==> d.focused is Some && d.acts_on(here, c)->Some_0
            == d.focused->Some_0,
        here is Some && here == d.focused ==> d.acts_on(here, c) is Some,
        d.focused is Some && (c == Command::Undo || c == Command::Redo) ==> d.acts_on(
            here,
            c,
        ) is Some,
        here != d.focused && c != Command::Undo && c != Command::Redo ==> d.acts_on(
            here,
            c,
        ) is None,
        forall|i: int|
            #[trigger] d.writes_to(i) ==> d.focused is Some && d.focused->Some_0 == i
                && d.cards@[i].role == crate::card::Role::Note,
{
}

} // verus!
