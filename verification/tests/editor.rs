use liquidnotes::editor::{next_word_boundary, prev_word_boundary, Edit, Editor, Key};
use liquidnotes::html::{A_BOLD, A_ITALIC};
use liquidnotes::text::text_marks;

fn editor(s: &str) -> Editor {
    let t: Vec<char> = s.chars().collect();
    let n = t.len();
    Editor::new(t, vec![0; n])
}

fn text(e: &Editor) -> String {
    e.text.iter().collect()
}

fn type_all(e: &mut Editor, s: &str) {
    for c in s.chars() {
        e.on_char(c as u32);
    }
}

#[test]
fn typing_runs_undo_word_by_word() {
    let mut e = editor("");
    type_all(&mut e, "one two");
    assert_eq!(text(&e), "one two");
    assert!(e.text_undo());
    assert_eq!(text(&e), "one ");
    assert!(e.text_undo());
    assert_eq!(text(&e), "");
    assert!(!e.text_undo());
    assert!(e.text_redo());
    assert!(e.text_redo());
    assert_eq!(text(&e), "one two");
    assert_eq!(e.caret, 7);
    assert!(!e.text_redo());
}

#[test]
fn an_edit_forks_history() {
    let mut e = editor("");
    type_all(&mut e, "ab");
    assert!(e.text_undo());
    type_all(&mut e, "c");
    assert!(!e.text_redo());
    assert_eq!(text(&e), "c");
}

#[test]
fn backspace_and_enter() {
    let mut e = editor("abc def");
    e.move_caret(Key::End, true, false, 0);
    e.on_char(0x08);
    e.on_char(0x08);
    assert_eq!(text(&e), "abc d");
    assert!(e.text_undo());
    assert_eq!(text(&e), "abc def");
    e.on_char(0x7f);
    assert_eq!(text(&e), "abc ");
    e.on_char(0x7f);
    assert_eq!(text(&e), "");
    e.on_char(0x08);
    e.on_char(0x7f);
    assert_eq!(text(&e), "");
    e.on_char(0x0d);
    assert_eq!(text(&e), "\n");
    e.on_char(0x09);
    e.on_char(0x1b);
    e.on_char(0x03);
    e.on_char(0xd800);
    assert_eq!(text(&e), "\n");
    e.on_char(0x1f642);
    assert_eq!(text(&e), "\n🙂");
}

#[test]
fn typing_replaces_the_selection_and_continues_the_style() {
    let mut e = editor("abcd");
    e.move_caret(Key::Right, false, false, 0);
    e.move_caret(Key::Right, false, true, 0);
    e.move_caret(Key::Right, false, true, 0);
    assert_eq!(e.copy_selection().unwrap(), "bc");
    assert!(e.toggle_attr(A_BOLD));
    assert_eq!(e.attrs, vec![0, 1, 1, 0]);
    assert!(e.toggle_attr(A_ITALIC));
    assert!(e.toggle_attr(A_BOLD));
    assert_eq!(e.attrs, vec![0, 2, 2, 0]);
    e.move_caret(Key::Right, false, false, 0);
    assert_eq!((e.caret, e.sel), (3, None));
    e.on_char('x' as u32);
    assert_eq!(e.attrs, vec![0, 2, 2, 2, 0]);
    e.select_all();
    e.on_char('y' as u32);
    assert_eq!(text(&e), "y");
    assert_eq!(e.attrs, vec![0]);
    assert!(e.text_undo());
    assert_eq!(text(&e), "abcxd");
    assert_eq!(e.attrs, vec![0, 2, 2, 2, 0]);
}

#[test]
fn cut_copy_paste() {
    let mut e = editor("hello world");
    assert!(e.copy_selection().is_none());
    assert!(e.cut_selection().is_none());
    assert!(!e.paste(""));
    e.click(5);
    assert!(e.select_to(11));
    assert!(!e.select_to(11));
    assert_eq!(e.cut_selection().unwrap(), " world");
    assert_eq!(text(&e), "hello");
    e.move_caret(Key::Home, true, false, 3);
    assert!(e.paste(" w\n"));
    assert_eq!(text(&e), " w\nhello");
    assert_eq!(e.caret, 3);
    assert!(e.text_undo());
    assert!(e.text_undo());
    assert_eq!(text(&e), "hello world");
    assert_eq!(e.caret, 11);
}

#[test]
fn pasted_text_is_plain() {
    let mut e = editor("abcd");
    e.click(0);
    e.select_to(2);
    assert!(e.toggle_attr(1));
    // The caret stands behind bold letters; typing goes on in bold.
    e.click(2);
    e.on_char('x' as u32);
    assert_eq!(e.attrs, vec![1, 1, 1, 0, 0]);
    assert!(e.paste("yz"));
    assert_eq!(text(&e), "abxyzcd");
    assert_eq!(e.attrs, vec![1, 1, 1, 0, 0, 0, 0]);
    assert_eq!(e.caret, 5);
    assert!(e.text_undo());
    assert_eq!((text(&e).as_str(), e.caret), ("abxcd", 3));
    assert_eq!(e.attrs, vec![1, 1, 1, 0, 0]);
}

#[test]
fn delete_forward() {
    let mut e = editor("ab  cd");
    assert!(e.delete_key(false));
    assert_eq!(text(&e), "b  cd");
    assert!(e.delete_key(true));
    assert_eq!(text(&e), "  cd");
    assert!(e.delete_key(true));
    assert_eq!(text(&e), "");
    assert!(!e.delete_key(true));
    assert!(!e.delete_key(false));
    assert_eq!(e.kind, Edit::Fresh);
    assert_eq!(e.undo.len(), 3);
}

#[test]
fn moves() {
    let mut e = editor("one  two");
    e.move_caret(Key::Right, true, false, 0);
    assert_eq!(e.caret, 3);
    e.move_caret(Key::Right, true, true, 0);
    assert_eq!((e.caret, e.sel), (8, Some(3)));
    e.move_caret(Key::Left, true, true, 0);
    assert_eq!((e.caret, e.sel), (5, Some(3)));
    e.move_caret(Key::Left, false, false, 0);
    assert_eq!((e.caret, e.sel), (3, None));
    e.move_caret(Key::Down, false, false, 7);
    assert_eq!(e.caret, 7);
    e.move_caret(Key::Home, false, true, 0);
    assert_eq!((e.caret, e.sel), (0, Some(7)));
    e.move_caret(Key::End, false, true, 7);
    assert_eq!((e.caret, e.sel), (7, None));
    e.move_caret(Key::Up, false, false, 1);
    e.move_caret(Key::Left, false, false, 0);
    e.move_caret(Key::Left, false, false, 0);
    assert_eq!(e.caret, 0);
}

#[test]
fn word_boundaries() {
    let t: Vec<char> = " ab\u{3000}c ".chars().collect();
    assert_eq!(prev_word_boundary(&t, 6), 4);
    assert_eq!(prev_word_boundary(&t, 99), 4);
    assert_eq!(prev_word_boundary(&t, 4), 1);
    assert_eq!(prev_word_boundary(&t, 1), 0);
    assert_eq!(next_word_boundary(&t, 0), 3);
    assert_eq!(next_word_boundary(&t, 3), 5);
    assert_eq!(next_word_boundary(&t, 5), 6);
    assert_eq!(next_word_boundary(&t, 99), 6);
}

#[test]
fn clicks_and_layout_answers() {
    let mut e = editor("a🙂b");
    e.click(2);
    e.end_select();
    assert_eq!(e.sel, None);
    e.click(0);
    e.select_to(3);
    e.end_select();
    assert_eq!(e.sel, Some(0));
    e.deselect();
    assert_eq!(e.sel, None);
    assert_eq!(e.hit_test_char(2), 2);
    assert_eq!(e.caret_line_move(None), 3);
    assert_eq!(e.caret_line_move(Some(1)), 1);
    assert_eq!(e.caret_line_bounds(None), (0, 3));
    assert_eq!(e.caret_line_bounds(Some((1, 3))), (1, 2));
}

#[test]
fn history_is_bounded() {
    let mut e = editor("");
    for _ in 0..250 {
        e.on_char(0x0d);
    }
    assert_eq!(e.undo.len(), 200);
    let mut n = 0;
    while e.text_undo() {
        n += 1;
    }
    assert_eq!(n, 200);
    assert_eq!(e.text.len(), 50);
    assert_eq!(e.redo.len(), 200);
}

#[test]
fn toggling_twice_brings_styles_back() {
    let mut e = editor("abc");
    e.select_all();
    assert!(e.toggle_attr(A_BOLD));
    assert!(e.toggle_attr(A_BOLD));
    assert_eq!(e.attrs, vec![0, 0, 0]);
    e.deselect();
    assert!(!e.toggle_attr(A_BOLD));
}

#[test]
fn marks_show_only_in_the_focused_note() {
    let mut e = editor("a🙂b");
    e.click(1);
    e.select_to(2);
    let m = text_marks(&e, true, true);
    assert_eq!((m.caret, m.show_caret, m.sel), (3, true, Some((1, 3))));
    let m = text_marks(&e, true, false);
    assert!(!m.show_caret);
    let m = text_marks(&e, false, true);
    assert_eq!((m.show_caret, m.sel), (false, None));
    e.select_to(1);
    assert_eq!(text_marks(&e, true, true).sel, None);
}

#[test]
fn runs_are_one_step() {
    let mut e = editor("hello");
    e.move_caret(Key::End, true, false, 0);
    for _ in 0..3 {
        e.on_char(0x08);
    }
    assert_eq!(text(&e), "he");
    assert_eq!(e.undo.len(), 1);
    assert!(e.text_undo());
    assert_eq!(text(&e), "hello");
    assert_eq!(e.caret, 5);
    type_all(&mut e, "abc");
    assert_eq!(e.undo.len(), 1);
    assert!(e.text_undo());
    assert_eq!(text(&e), "hello");
}

#[test]
fn words_and_sentences() {
    let mut e = editor("One two.  Is it? Yes\nno end");
    e.select_word(5);
    assert_eq!(e.copy_selection().unwrap(), "two.");
    e.select_word(8);
    assert_eq!(e.copy_selection().unwrap(), "  ");
    e.select_word(27);
    assert_eq!(e.copy_selection().unwrap(), "end");
    e.select_sentence(2);
    assert_eq!(e.copy_selection().unwrap(), "One two.");
    e.select_sentence(12);
    assert_eq!(e.copy_selection().unwrap(), "Is it?");
    e.select_sentence(18);
    assert_eq!(e.copy_selection().unwrap(), "Yes");
    e.select_sentence(22);
    assert_eq!(e.copy_selection().unwrap(), "no end");
    assert_eq!(e.caret, 27);
    let mut e = editor("");
    e.select_word(0);
    e.select_sentence(0);
    assert!(e.copy_selection().is_none());
}
