//! What editing does to a note's text, styles, caret and selection.

use vstd::prelude::*;
use crate::editor::back_over;
use crate::editor::forth_over;
use crate::editor::lemma_back_over;
use crate::editor::lemma_forth_over;
use crate::editor::next_word;
use crate::editor::prev_word;
use crate::editor::sentence_span;
use crate::editor::sentence_start;
use crate::editor::sentence_stop;
use crate::editor::style_bit;
use crate::editor::word_span;
use crate::editor::Edit;
use crate::editor::EditorValue;
use crate::editor::Key;
use crate::html::has_bit;
use crate::html::style_mask;
use crate::strings::is_space;

verus! {

/// The selection lies between its two ends, whichever of them the caret is; without a
/// selection both are the caret.
pub proof fn the_selection_lies_between_its_ends(e: EditorValue)
    ensures
        e.lo() <= e.caret <= e.hi(),
        e.sel matches Some(a) ==> e.lo() <= a <= e.hi(),
        e.sel matches Some(a) ==> (e.lo() == a && e.hi() == e.caret) || (e.lo() == e.caret && e.hi()
            == a),
        e.sel is None ==> e.lo() == e.caret && e.hi() == e.caret,
        e.selects() <==> e.sel is Some && e.sel != Some(e.caret),
{
}

/// The editor has lost just what lay between `lo` and `hi`: the text and the styles
/// before it are followed by those after it, the caret stands between them, and nothing is
/// selected.
pub open spec fn lost(e: EditorValue, d: EditorValue, lo: int, hi: int) -> bool {
    &&& d.text == e.text.take(lo) + e.text.skip(hi)
    &&& d.attrs == e.attrs.take(lo) + e.attrs.skip(hi)
    &&& d.caret == lo
    &&& d.sel is None
}

/// The editor has `s` in all of the styles `a` between what lay before `lo` and what lay
/// after `hi`; the caret stands behind it, and nothing is selected.
pub open spec fn replaced(
    e: EditorValue,
    d: EditorValue,
    lo: int,
    hi: int,
    s: Seq<char>,
    a: u8,
) -> bool {
    &&& d.text == e.text.take(lo) + s + e.text.skip(hi)
    &&& d.attrs.len() == d.text.len()
    &&& forall|i: int| 0 <= i < lo ==> #[trigger] d.attrs[i] == e.attrs[i]
    &&& forall|i: int| lo <= i < lo + s.len() ==> #[trigger] d.attrs[i] == a
    &&& forall|i: int|
        lo + s.len() <= i < d.attrs.len() ==> #[trigger] d.attrs[i] == e.attrs[i - lo - s.len()
            + hi]
    &&& d.caret == lo + s.len()
    &&& d.sel is None
}

/// Delete, Backspace and cutting take out all that is selected, and nothing else.
pub proof fn what_is_selected_is_taken_out(e: EditorValue, ctrl: bool)
    requires
        e.ok(),
        e.selects(),
    ensures
        lost(e, e.deleted(ctrl), e.lo(), e.hi()),
        lost(e, e.backspaced(), e.lo(), e.hi()),
        lost(e, e.word_backspaced(), e.lo(), e.hi()),
        lost(e, e.recorded(Edit::Discrete).dropped(), e.lo(), e.hi()),
        lost(e, e.dropped(), e.lo(), e.hi()),
        e.deletes(ctrl),
        e.deleted(ctrl).text.len() == e.text.len() - e.selection().len(),
{
}

/// Without a selection, Delete takes out the one character behind the caret, or with
/// Ctrl all up to the end of the next word; at the end of the text it takes out nothing.
pub proof fn delete_takes_out_what_follows(e: EditorValue)
    requires
        e.ok(),
        !e.selects(),
    ensures
        e.caret < e.text.len() ==> lost(e, e.deleted(false), e.caret, e.caret + 1) && e.deleted(
            false,
        ).text == e.text.remove(e.caret) && e.deletes(false),
        lost(e, e.deleted(true), e.caret, next_word(e.text, e.caret)),
        e.caret == e.text.len() ==> e.deleted(false).text == e.text && e.deleted(true).text
            == e.text && e.deleted(true).attrs == e.attrs && !e.deletes(false) && !e.deletes(true)
            && e.deleted(false).undo == (if e.sel is Some {
            e.recorded(Edit::Discrete).undo
        } else {
            e.undo
        }),
        e.deleted(false).caret == e.caret && e.deleted(true).caret == e.caret,
        e.deleted(false).sel is None && e.deleted(true).sel is None,
        e.caret < e.text.len() ==> e.deletes(true),
{
    lemma_forth_over(e.text, e.caret, true);
    lemma_forth_over(e.text, forth_over(e.text, e.caret, true), false);
    let n = next_word(e.text, e.caret);
    if e.caret < e.text.len() {
        assert(e.text.remove(e.caret) =~= e.text.take(e.caret) + e.text.skip(e.caret + 1));
        if is_space(e.text[e.caret]) {
            assert(forth_over(e.text, e.caret, true) > e.caret);
        } else {
            assert(forth_over(e.text, e.caret, true) == e.caret);
        }
    } else {
        assert(e.text.take(e.caret) + e.text.skip(n) =~= e.text);
        assert(e.attrs.take(e.caret) + e.attrs.skip(n) =~= e.attrs);
    }
}

/// Where Delete says that it takes out nothing, the text and the styles stay.
pub proof fn delete_takes_out_what_follows_when_nothing_is_selected(e: EditorValue, ctrl: bool)
    requires
        e.ok(),
    ensures
        e.deleted(ctrl).text != e.text ==> e.deletes(ctrl),
        e.deleted(ctrl).attrs != e.attrs ==> e.deletes(ctrl),
{
}

/// Without a selection, Backspace takes out the one character before the caret, and by
/// words all back to the start of the word; at the start of the text it does nothing.
pub proof fn backspace_takes_out_what_comes_before(e: EditorValue)
    requires
        e.ok(),
        e.sel is None,
    ensures
        e.caret > 0 ==> lost(e, e.backspaced(), e.caret - 1, e.caret) && e.backspaced().text
            == e.text.remove(e.caret - 1),
        e.caret > 0 ==> lost(e, e.word_backspaced(), prev_word(e.text, e.caret), e.caret),
        e.caret == 0 ==> e.backspaced() == e && e.word_backspaced() == e,
{
    if e.caret > 0 {
        assert(e.text.remove(e.caret - 1) =~= e.text.take(e.caret - 1) + e.text.skip(e.caret));
    }
}

/// The end of the next word: white space and then no white space lie before it, and behind
/// it comes white space or the end of the text. It lies ahead wherever there is text ahead.
pub proof fn the_next_word_ends_there(text: Seq<char>, i: int) -> (m: int)
    requires
        0 <= i <= text.len(),
    ensures
        i <= m <= next_word(text, i) <= text.len(),
        forall|k: int| i <= k < m ==> is_space(#[trigger] text[k]),
        forall|k: int| m <= k < next_word(text, i) ==> !is_space(#[trigger] text[k]),
        next_word(text, i) < text.len() ==> is_space(text[next_word(text, i)]),
        m == next_word(text, i) ==> m == text.len(),
        i < text.len() ==> next_word(text, i) > i,
{
    let m = forth_over(text, i, true);
    lemma_forth_over(text, i, true);
    lemma_forth_over(text, m, false);
    if m < text.len() {
        assert(forth_over(text, m, false) > m) by {
            lemma_forth_over(text, m + 1, false);
        }
    }
    if i < text.len() && is_space(text[i]) {
        lemma_forth_over(text, i + 1, true);
    }
    m
}

/// The start of the word before: no white space and then white space lie behind it, and
/// before it comes white space or the start of the text.
pub proof fn the_word_before_starts_there(text: Seq<char>, i: int) -> (m: int)
    requires
        0 <= i <= text.len(),
    ensures
        0 <= prev_word(text, i) <= m <= i,
        forall|k: int| m <= k < i ==> is_space(#[trigger] text[k]),
        forall|k: int| prev_word(text, i) <= k < m ==> !is_space(#[trigger] text[k]),
        prev_word(text, i) > 0 ==> is_space(text[prev_word(text, i) - 1]),
        m == prev_word(text, i) ==> m == 0,
        i > 0 ==> prev_word(text, i) < i,
{
    let m = back_over(text, i, true);
    lemma_back_over(text, i, true);
    lemma_back_over(text, m, false);
    if m > 0 {
        assert(back_over(text, m, false) < m) by {
            lemma_back_over(text, m - 1, false);
        }
    }
    if i > 0 && is_space(text[i - 1]) {
        lemma_back_over(text, i - 1, true);
    }
    m
}

/// A typed character takes the place of the selection, in the style of the character
/// before it, or plain at the start of the text; the caret stands behind it. Enter puts a
/// line feed in the same way.
pub proof fn typing_replaces_the_selection(e: EditorValue, c: char)
    requires
        e.ok(),
    ensures
        ({
            let a = if e.lo() > 0 {
                e.attrs[e.lo() - 1]
            } else {
                0
            };
            &&& replaced(e, e.typed(c), e.lo(), e.hi(), seq![c], a)
            &&& replaced(e, e.after_char(0x0D), e.lo(), e.hi(), seq!['\n'], a)
            &&& e.typed(c).redo.len() == 0
        }),
{
    let a = if e.lo() > 0 {
        e.attrs[e.lo() - 1]
    } else {
        0
    };
    let kind = if e.sel is Some {
        Edit::Discrete
    } else {
        Edit::Insert
    };
    lemma_put_in(e, e.recorded(kind), seq![c], a);
    lemma_put_in(e, e.recorded(Edit::Discrete), seq!['\n'], a);
    assert(e.recorded(kind).dropped().typing_attr() == a);
    assert(e.recorded(Edit::Discrete).dropped().typing_attr() == a);
}

proof fn lemma_put_in(e: EditorValue, r: EditorValue, s: Seq<char>, a: u8)
    requires
        e.ok(),
        r.text == e.text,
        r.attrs == e.attrs,
        r.caret == e.caret,
        r.sel == e.sel,
    ensures
        replaced(e, r.dropped().inserted_as(s, a), e.lo(), e.hi(), s, a),
{
    let d = r.dropped();
    assert(d.text.take(d.caret) =~= e.text.take(e.lo()));
    assert(d.text.skip(d.caret) =~= e.text.skip(e.hi()));
}

/// Pasted text takes the place of the selection as it is, in plain letters.
pub proof fn pasting_replaces_the_selection(e: EditorValue, s: Seq<char>)
    requires
        e.ok(),
    ensures
        replaced(e, e.recorded(Edit::Discrete).dropped().pasted(s), e.lo(), e.hi(), s, 0),
{
    lemma_put_in(e, e.recorded(Edit::Discrete), s, 0);
}

/// What was cut and is pasted again stands where it stood.
pub proof fn cut_and_paste_bring_the_text_back(e: EditorValue)
    requires
        e.ok(),
    ensures
        e.dropped().pasted(e.selection()).text == e.text,
        e.dropped().pasted(e.selection()).caret == e.hi(),
        e.text.take(e.lo()) + e.selection() + e.text.skip(e.hi()) == e.text,
        e.selection().len() == e.hi() - e.lo(),
{
    lemma_put_in(e, e, e.selection(), 0);
    assert(e.text.take(e.lo()) + e.selection() + e.text.skip(e.hi()) =~= e.text);
}

/// Typed characters stand in the text in the order in which they were typed.
pub proof fn typed_text_stands_in_order(e: EditorValue, s: Seq<char>)
    requires
        e.ok(),
        e.sel is None,
    ensures
        e.typed_all(s).text == e.text.take(e.caret) + s + e.text.skip(e.caret),
        e.typed_all(s).caret == e.caret + s.len(),
        e.typed_all(s).sel is None,
    decreases s.len(),
{
    if s.len() > 0 {
        let t = s.drop_last();
        let d = e.typed_all(t);
        typed_text_stands_in_order(e, t);
        let n = d.typed(s.last());
        assert(n.text == d.text.take(d.caret) + seq![s.last()] + d.text.skip(d.caret)) by {
            let kind = Edit::Insert;
            let r = d.recorded(kind).dropped();
            assert(r.text =~= d.text);
            assert(r.caret == d.caret);
        }
        assert(d.text.take(d.caret) =~= e.text.take(e.caret) + t);
        assert(d.text.skip(d.caret) =~= e.text.skip(e.caret));
        assert(t + seq![s.last()] =~= s);
        assert(n.text =~= e.text.take(e.caret) + s + e.text.skip(e.caret));
    } else {
        assert(e.text.take(e.caret) + s + e.text.skip(e.caret) =~= e.text);
    }
}

/// A code of the keyboard types the character of that code. Backspace, Enter and
/// backspace by words have codes of their own; Tab, Escape and the other control codes,
/// and what is no character, do nothing.
pub proof fn codes_type_their_characters(e: EditorValue, c: char, code: u32)
    requires
        e.ok(),
    ensures
        c as u32 >= 32 && c as u32 != 127 ==> e.after_char(c as u32) == e.typed(c),
        e.after_char(8) == e.backspaced(),
        e.after_char(127) == e.word_backspaced(),
        code < 32 && code != 8 && code != 13 ==> e.after_char(code) == e,
        0xD800 <= code < 0xE000 || code > 0x10FFFF ==> e.after_char(code) == e,
{
}

/// Moving the caret changes neither the text nor the histories, and ends the run of edits.
/// Without Shift nothing is selected afterwards; with it the selection keeps the end that
/// it had, or begins where the caret was.
pub proof fn moving_keeps_the_text(e: EditorValue, key: Key, ctrl: bool, shift: bool, line: int)
    requires
        e.ok(),
        0 <= line <= e.text.len(),
    ensures
        ({
            let m = e.moved(key, ctrl, shift, line);
            &&& m.text == e.text && m.attrs == e.attrs && m.undo == e.undo && m.redo == e.redo
            &&& m.kind == Edit::Fresh
            &&& 0 <= m.caret <= e.text.len()
            &&& !shift ==> m.sel is None
            &&& shift ==> {
                let anchor = if e.sel is Some {
                    e.sel->Some_0
                } else {
                    e.caret
                };
                &&& m.caret != anchor ==> m.sel == Some(anchor)
                &&& m.caret == anchor ==> m.sel is None
            }
        }),
{
    let a = the_next_word_ends_there(e.text, e.caret);
    let b = the_word_before_starts_there(e.text, e.caret);
}

/// Left and Right move the caret by one character, as far as the text goes; with Ctrl they
/// move it by a word. Without Shift they only drop a selection: Left goes to its lower end,
/// Right to its upper one.
pub proof fn left_and_right_move_by_one(e: EditorValue, shift: bool, line: int)
    requires
        e.ok(),
    ensures
        (shift || e.sel is None) && e.caret > 0 ==> e.moved(Key::Left, false, shift, line).caret
            == e.caret - 1,
        (shift || e.sel is None) && e.caret == 0 ==> e.moved(Key::Left, false, shift, line).caret
            == 0,
        (shift || e.sel is None) && e.caret < e.text.len() ==> e.moved(
            Key::Right,
            false,
            shift,
            line,
        ).caret == e.caret + 1,
        (shift || e.sel is None) && e.caret == e.text.len() ==> e.moved(
            Key::Right,
            false,
            shift,
            line,
        ).caret == e.caret,
        !shift && e.sel is Some ==> {
            let l = e.moved(Key::Left, false, shift, line).caret;
            let r = e.moved(Key::Right, false, shift, line).caret;
            &&& l <= e.caret && l <= e.sel->Some_0 && (l == e.caret || l == e.sel->Some_0)
            &&& r >= e.caret && r >= e.sel->Some_0 && (r == e.caret || r == e.sel->Some_0)
        },
        e.moved(Key::Left, true, shift, line).caret == prev_word(e.text, e.caret),
        e.moved(Key::Right, true, shift, line).caret == next_word(e.text, e.caret),
{
}

/// Home and End lead to the ends of the line, and with Ctrl to those of the text; Up and
/// Down lead to where the layout says.
pub proof fn the_other_keys_follow_the_lines(e: EditorValue, ctrl: bool, shift: bool, line: int)
    requires
        e.ok(),
    ensures
        e.moved(Key::Up, ctrl, shift, line).caret == line,
        e.moved(Key::Down, ctrl, shift, line).caret == line,
        e.moved(Key::Home, false, shift, line).caret == line,
        e.moved(Key::End, false, shift, line).caret == line,
        e.moved(Key::Home, true, shift, line).caret == 0,
        e.moved(Key::End, true, shift, line).caret == e.text.len(),
{
}

/// An edit that starts a new step puts the state before it on top of the history, keeps the
/// steps below it, of which the oldest goes once there are more than two hundred, and leaves
/// nothing to redo. One that continues a run leaves the history alone.
pub proof fn recording_adds_one_step(e: EditorValue, kind: Edit)
    requires
        e.ok(),
    ensures
        kind == Edit::Discrete || kind != e.kind ==> {
            let r = e.recorded(kind);
            &&& r.undo.len() > 0 && r.undo.last() == e.snap()
            &&& e.undo.len() < 200 ==> r.undo.drop_last() == e.undo
            &&& e.undo.len() == 200 ==> r.undo.len() == 200 && r.undo.drop_last() == e.undo.skip(1)
            &&& r.redo.len() == 0
            &&& r.kind == kind
        },
        kind != Edit::Discrete && kind == e.kind ==> e.recorded(kind) == e,
        e.recorded(kind).text == e.text && e.recorded(kind).attrs == e.attrs,
        e.recorded(kind).caret == e.caret && e.recorded(kind).sel == e.sel,
{
    let u = e.undo.push(e.snap());
    assert(u.drop_last() =~= e.undo);
    if e.undo.len() == 200 {
        assert(u.skip(1).drop_last() =~= e.undo.skip(1));
    }
}

/// Undo leads to the text, the styles and the caret on top of the history, and redo to those
/// on top of what was undone; either selects nothing.
pub proof fn history_leads_to_its_top(e: EditorValue)
    ensures
        e.undo.len() > 0 ==> e.undone().snap() == e.undo.last() && e.undone().sel is None
            && e.undone().redo.last() == e.snap() && e.undone().undo.len() == e.undo.len() - 1,
        e.redo.len() > 0 ==> e.redone().snap() == e.redo.last() && e.redone().sel is None
            && e.redone().undo.last() == e.snap() && e.redone().redo.len() == e.redo.len() - 1,
{
}

/// Toggling a style touches neither the text, nor the other styles, nor what is not selected.
pub proof fn toggling_touches_one_style(e: EditorValue, bit: u8, other: u8)
    requires
        e.ok(),
        style_bit(bit),
        style_bit(other),
        bit != other,
    ensures
        e.toggled(bit).text == e.text && e.toggled(bit).caret == e.caret && e.toggled(bit).sel
            == e.sel,
        e.toggled(bit).attrs.len() == e.attrs.len(),
        forall|i: int|
            0 <= i < e.attrs.len() ==> has_bit(#[trigger] e.toggled(bit).attrs[i], other)
                == has_bit(e.attrs[i], other),
        forall|i: int|
            0 <= i < e.attrs.len() && !(e.lo() <= i < e.hi()) ==> #[trigger] e.toggled(bit).attrs[i]
                == e.attrs[i],
{
    assert forall|i: int| 0 <= i < e.attrs.len() implies has_bit(
        #[trigger] e.toggled(bit).attrs[i],
        other,
    ) == has_bit(e.attrs[i], other) by {
        let m = e.attrs[i];
        assert((m | bit) & other == m & other && (m & !bit) & other == m & other) by (bit_vector)
            requires
                bit == 1 || bit == 2 || bit == 4,
                other == 1 || other == 2 || other == 4,
                bit != other,
        ;
    }
}

/// The word at a position is the run of white space, or of what is none, that the position
/// lies in: all of it is of one sort, and what comes before it and behind it is of the other.
pub proof fn a_word_is_a_whole_run(text: Seq<char>, pos: int)
    requires
        0 <= pos < text.len(),
    ensures
        ({
            let (lo, hi) = word_span(text, pos);
            &&& 0 <= lo <= pos < hi <= text.len()
            &&& forall|k: int| lo <= k < hi ==> is_space(#[trigger] text[k]) == is_space(text[pos])
            &&& lo > 0 ==> is_space(text[lo - 1]) != is_space(text[pos])
            &&& hi < text.len() ==> is_space(text[hi]) != is_space(text[pos])
        }),
        word_span(text, text.len() as int) == word_span(text, text.len() - 1),
{
    let sp = is_space(text[pos]);
    lemma_back_over(text, pos, sp);
    lemma_forth_over(text, pos, sp);
    lemma_forth_over(text, pos + 1, sp);
}

/// The character ends a sentence.
spec fn stops(c: char) -> bool {
    c == '.' || c == '!' || c == '?' || c == '\n'
}

proof fn lemma_from(text: Seq<char>, i: int)
    requires
        0 <= i <= text.len(),
    ensures
        0 <= sentence_start(text, i) <= i,
        forall|k: int| sentence_start(text, i) <= k < i ==> !stops(#[trigger] text[k]),
        sentence_start(text, i) > 0 ==> stops(text[sentence_start(text, i) - 1]),
    decreases i,
{
    if i > 0 && !stops(text[i - 1]) {
        lemma_from(text, i - 1);
    }
}

proof fn lemma_to(text: Seq<char>, i: int)
    requires
        0 <= i <= text.len(),
    ensures
        i <= sentence_stop(text, i) <= text.len(),
        forall|k: int| i <= k < sentence_stop(text, i) ==> !stops(#[trigger] text[k]),
        sentence_stop(text, i) < text.len() ==> stops(text[sentence_stop(text, i)]),
    decreases text.len() - i,
{
    if i < text.len() && !stops(text[i]) {
        lemma_to(text, i + 1);
    }
}

/// The sentence at a position begins behind the mark or the line feed that ends the one
/// before, or at the start of the text, past white space; `from` is that place. It reaches
/// up to the first mark from the position on, which belongs to it, or up to a line feed or
/// the end of the text, which do not.
pub proof fn a_sentence_ends_with_its_mark(text: Seq<char>, pos: int) -> (from: int)
    requires
        0 <= pos <= text.len(),
    ensures
        ({
            let (lo, hi) = sentence_span(text, pos);
            &&& 0 <= from <= lo <= pos <= hi <= text.len()
            &&& from == 0 || text[from - 1] == '.' || text[from - 1] == '!' || text[from - 1] == '?'
                || text[from - 1] == '\n'
            &&& forall|k: int|
                from <= k < pos ==> (#[trigger] text[k]) != '.' && text[k] != '!' && text[k] != '?'
                    && text[k] != '\n'
            &&& forall|k: int| from <= k < lo ==> is_space(#[trigger] text[k])
            &&& lo == pos || !is_space(text[lo])
            &&& forall|k: int|
                pos <= k < hi - 1 ==> (#[trigger] text[k]) != '.' && text[k] != '!' && text[k] != '?'
                    && text[k] != '\n'
            &&& hi == text.len() || text[hi] == '\n' || (hi > pos && (text[hi - 1] == '.'
                || text[hi - 1] == '!' || text[hi - 1] == '?'))
            &&& hi > pos ==> text[hi - 1] != '\n'
        }),
{
    lemma_from(text, pos);
    lemma_to(text, pos);
    let from = sentence_start(text, pos);
    lemma_forth_over(text, from, true);
    from
}

/// Selecting a span selects all of it, and leaves the caret at its end and the text alone.
pub proof fn a_span_is_selected_whole(e: EditorValue, lo: int, hi: int)
    requires
        0 <= lo <= hi <= e.text.len(),
    ensures
        e.spanning((lo, hi)).lo() == lo && e.spanning((lo, hi)).hi() == hi || lo == hi,
        e.spanning((lo, hi)).selection() == e.text.subrange(lo, hi) || lo == hi,
        e.spanning((lo, hi)).selects() <==> lo < hi,
        e.spanning((lo, hi)).caret == hi,
        e.spanning((lo, hi)).text == e.text && e.spanning((lo, hi)).attrs == e.attrs,
        e.spanning((lo, hi)).undo == e.undo && e.spanning((lo, hi)).redo == e.redo,
{
}

} // verus!
