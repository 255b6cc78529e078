use liquidnotes::actions::Dropped;
use liquidnotes::anim::{anim_step, any_animating, hold_step, Eased, Motion};
use liquidnotes::card::{is_window_rect, within_reach, Card, Role};
use liquidnotes::desk::{Content, Desk};
use liquidnotes::dock::dock_note;
use liquidnotes::editor::{Editor, Key};
use liquidnotes::geometry::{Point, Rect};
use liquidnotes::keys::{command_for, Command};
use liquidnotes::menu::{button_place, load_place, shadow_rect};
use liquidnotes::metrics::{metrics, Metrics};
use liquidnotes::prox::{proximity_tick, tuck_tick, Tuck};
use liquidnotes::resolve::{parties, share, Share};
use liquidnotes::scale::{set_ui_scale, UNIT_SCALE};
use liquidnotes::shadow::{on_moved_or_resized, update_shadow, window_rects, Shadow};
use liquidnotes::stack::{compute_stack_targets, over_stack, relayout_stack, stacked_indices};
use liquidnotes::store::{parse, to_json, NoteData};
use liquidnotes::widgets::{click_on, Click};
use liquidnotes::zones::{
    auto_height, count_clicks, hit_zone, press_on, sized, surface_of, Press, Surface, Zone,
};

fn m() -> Metrics {
    metrics(set_ui_scale(UNIT_SCALE as u64))
}

fn r(left: i32, top: i32, w: i32, h: i32) -> Rect {
    Rect {
        left,
        top,
        right: left + w,
        bottom: top + h,
    }
}

fn wa() -> Rect {
    r(0, 0, 1920, 1040)
}

fn p(x: i32, y: i32) -> Point {
    Point { x, y }
}

fn content(s: &str) -> Content {
    let t: Vec<char> = s.chars().collect();
    let n = t.len();
    Content {
        editor: Editor::new(t, vec![0; n]),
        font_size: "16.0".to_string(),
    }
}

fn desk() -> Desk {
    Desk::new(r(1832, 952, 64, 64), true)
}

fn add(d: &mut Desk, id: u64, rect: Rect, free: bool, text: &str) -> usize {
    let mut c = Card::new(Role::Note, id, rect);
    c.free = free;
    d.cards.push(c);
    d.contents.push(content(text));
    d.cards.len() - 1
}

fn eased(changed: bool, faded: bool, step: Point) -> Eased {
    Eased {
        changed,
        faded,
        step,
    }
}

#[test]
fn fresh_notes_stack_above_the_button() {
    let mut d = desk();
    assert_eq!(d.spawn_rect(m()), r(1556, 874, 340, 66));
    d.spawn_note(m(), "16.0".to_string(), true);
    assert_eq!((d.cards[1].id, d.next_id, d.dirty), (1, 2, true));
    assert!(!d.cards[1].shown && d.cards[1].hold_us == 120_000 && !d.cards[1].free);
    assert_eq!(d.cards[1].pos_to, Some(p(1556, 874)));
    d.spawn_note(m(), "16.0".to_string(), true);
    assert_eq!(d.cards[1].pos_to, Some(p(1556, 796)));
    assert_eq!(d.cards[2].pos_to, Some(p(1556, 874)));
    d.spawn_note(m(), "16.0".to_string(), false);
    assert_eq!((d.cards.len(), d.next_id), (3, 4));
}

#[test]
fn the_stack_keeps_its_order_and_gaps() {
    let mut d = desk();
    add(&mut d, 1, r(100, 500, 340, 100), false, "");
    add(&mut d, 2, r(100, 300, 200, 66), false, "");
    add(&mut d, 3, r(100, 300, 300, 50), false, "");
    add(&mut d, 4, r(100, 0, 300, 50), true, "");
    assert_eq!(stacked_indices(&d.cards), vec![2, 3, 1]);
    let t = compute_stack_targets(&d.cards, 12);
    assert_eq!(t, vec![(1, p(1556, 840)), (3, p(1596, 778)), (2, p(1696, 700))]);
    // The lowest note ends a gap above the button.
    assert_eq!(t[0].1.y + 100, d.cards[0].rect.top - 12);
    assert!(t.iter().all(|&(i, q)| q.x + d.cards[i].rect.width() == d.cards[0].rect.right));
    let moves = relayout_stack(&mut d.cards, 12, false);
    assert_eq!(moves.len(), 3);
    assert!(d.cards[1].pos_to.is_none());
    let moves = d.relayout(12, true);
    assert!(moves.is_empty());
    assert_eq!(d.cards[3].pos_to, Some(p(1596, 778)));
    assert_eq!(d.cards[4].pos_to, None);
}

#[test]
fn dropping_over_the_stack() {
    let mut d = desk();
    let f = add(&mut d, 9, r(1400, 900, 340, 66), true, "");
    assert!(over_stack(&d.cards, f, 12));
    d.cards[f].rect = r(1400, 800, 340, 66);
    assert!(!over_stack(&d.cards, f, 12));
    add(&mut d, 1, r(1556, 870, 340, 66), false, "");
    assert!(over_stack(&d.cards, f, 12));
    d.cards[f].rect = r(1400, 738, 340, 66);
    assert!(!over_stack(&d.cards, f, 12));
    d.cards[f].rect = r(1217, 900, 340, 66);
    assert!(over_stack(&d.cards, f, 12));
    d.cards[f].rect = r(1216, 900, 340, 66);
    assert!(!over_stack(&d.cards, f, 12));
    // Below the foot of the stack there is only the button.
    d.cards[f].rect = r(1556, 940, 340, 66);
    assert!(!over_stack(&d.cards, f, 12));
    assert!(!over_stack(&d.cards, 99, 12));
}

#[test]
fn docked_notes_slide_past_each_other() {
    let mut d = desk();
    let a = add(&mut d, 1, r(10, 100, 340, 66), true, "");
    let b = add(&mut d, 2, r(10, 150, 340, 66), true, "");
    let c = add(&mut d, 3, r(10, 120, 340, 66), true, "");
    assert!(dock_note(&mut d.cards, a, -1, wa(), 6));
    assert_eq!(d.cards[a].pos_to, Some(p(-306, 100)));
    assert_eq!((d.cards[a].docked, d.cards[a].free), (-1, true));
    assert!(dock_note(&mut d.cards, b, -1, wa(), 6));
    assert_eq!(d.cards[b].pos_to, Some(p(-306, 172)));
    assert!(dock_note(&mut d.cards, c, -1, wa(), 6));
    assert_eq!(d.cards[c].pos_to, Some(p(-306, 244)));
    assert!(dock_note(&mut d.cards, c, 1, wa(), 6));
    assert_eq!(d.cards[c].pos_to, Some(p(1886, 120)));
    assert!(!dock_note(&mut d.cards, c, 0, wa(), 6));
    assert!(!dock_note(&mut d.cards, 0, 1, wa(), 6));
    d.cards[c].rect = r(10, 5000, 340, 66);
    assert!(dock_note(&mut d.cards, c, 1, wa(), 6));
    assert_eq!(d.cards[c].pos_to, Some(p(1886, 974)));
}

#[test]
fn docked_notes_never_overlap_where_there_is_room() {
    let area = r(0, 0, 1920, 1000);
    let mut d = desk();
    let a = add(&mut d, 1, r(0, 850, 340, 100), true, "");
    let b = add(&mut d, 2, r(0, 860, 340, 100), true, "");
    dock_note(&mut d.cards, a, 1, area, 6);
    // No room below: the note goes up past the other.
    assert!(dock_note(&mut d.cards, b, 1, area, 6));
    assert_eq!(d.cards[b].pos_to.unwrap().y, 744);
    // With a gap below there would be just too little room.
    d.cards[a].pos_to = Some(p(0, 800));
    d.cards[b].rect = r(0, 850, 340, 100);
    dock_note(&mut d.cards, b, 1, area, 6);
    assert_eq!(d.cards[b].pos_to.unwrap().y, 694);
    // The only free row is one without gaps.
    let low = add(&mut d, 3, r(0, 0, 340, 400), true, "");
    let top = add(&mut d, 4, r(0, 500, 340, 500), true, "");
    d.cards[low].docked = 1;
    d.cards[top].docked = 1;
    d.cards[a].docked = 0;
    d.cards[b].rect = r(0, 450, 340, 100);
    dock_note(&mut d.cards, b, 1, area, 6);
    assert_eq!(d.cards[b].pos_to.unwrap().y, 400);
    // A full edge: the note keeps its row.
    d.cards[low].rect = r(0, 0, 340, 450);
    dock_note(&mut d.cards, b, 1, area, 6);
    assert_eq!(d.cards[b].pos_to.unwrap().y, 450);
}

#[test]
fn dragging_detaches_and_snaps_back() {
    let mut d = desk();
    let a = add(&mut d, 1, r(1556, 796, 340, 66), false, "");
    let b = add(&mut d, 2, r(1556, 874, 340, 66), false, "");
    d.grab(b, p(1576, 879));
    assert_eq!(d.drag_move(p(1578, 881), 12), None);
    assert!(!d.cards[b].free);
    assert_eq!(d.drag_move(p(1579, 881), 12), Some(p(1559, 876)));
    assert!(d.cards[b].free);
    assert_eq!(d.cards[a].pos_to, Some(p(1556, 874)));
    d.drag_glow(12);
    assert!(d.cards[b].glow);
    d.cards[b].rect = r(300, 300, 340, 66);
    assert_eq!(d.drag_move(p(320, 305), 12), Some(p(300, 300)));
    d.drag_glow(12);
    assert!(!d.cards[b].glow);
    d.cards[b].rect = r(1526, 784, 340, 66);
    let out = d.release(p(1546, 789), false, wa(), m());
    assert_eq!(out, Some(Dropped::Stacked(p(1526, 789))));
    assert!(!d.cards[b].free && d.drag.is_none() && d.dirty);
    assert_eq!(d.cards[b].pos_to, Some(p(1556, 796)));
    assert_eq!(d.cards[a].pos_to, Some(p(1556, 874)));
    assert_eq!(d.release(p(0, 0), false, wa(), m()), None);
}

#[test]
fn dropping_elsewhere() {
    let mut d = desk();
    let a = add(&mut d, 1, r(100, 100, 340, 66), true, "");
    d.grab(a, p(110, 105));
    assert_eq!(
        d.release(p(110, 105), false, wa(), m()),
        Some(Dropped::Nothing)
    );
    d.grab(a, p(110, 105));
    d.drag_move(p(14, 105), 12);
    assert_eq!(d.release(p(14, 105), false, wa(), m()), Some(Dropped::Docked));
    assert_eq!(d.cards[a].docked, -1);
    d.grab(a, p(110, 105));
    d.drag_move(p(1906, 105), 12);
    assert_eq!(
        d.release(p(1906, 105), false, wa(), m()),
        Some(Dropped::Docked)
    );
    assert_eq!(d.cards[a].docked, 1);
    d.grab(a, p(110, 105));
    d.drag_move(p(500, 105), 12);
    assert_eq!(d.release(p(500, 105), false, wa(), m()), Some(Dropped::Loose));
    assert_eq!(d.cards[a].docked, 0);
}

#[test]
fn a_flicked_note_comes_back_where_it_was() {
    let mut d = desk();
    let a = add(&mut d, 7, r(100, 100, 340, 66), true, "<hello> & more");
    d.contents[a].editor.select_all();
    d.contents[a].editor.toggle_attr(4);
    d.contents[a].font_size = "18.5".to_string();
    d.cards[a].color = 3;
    d.focused = Some(a);
    d.grab(a, p(110, 105));
    d.drag_move(p(600, 105), 12);
    d.cards[a].rect = r(590, 100, 340, 66);
    d.dirty = false;
    assert_eq!(d.release(p(600, 105), true, wa(), m()), Some(Dropped::Flung));
    assert!(d.cards[a].flung && !d.cards[a].shown && !d.dirty);
    d.cards[a].rect = r(9000, 100, 340, 66);
    let e = vec![eased(true, false, p(0, 0)), eased(true, false, p(40, -3))];
    let motions = anim_step(&mut d.cards, None, &e, wa());
    assert_eq!(motions[1], Motion::Fly(p(9040, 97)));
    assert!(d.cards[a].dying);
    assert_eq!(d.reap_dying(12), vec![a]);
    assert_eq!((d.cards.len(), d.contents.len(), d.trash.len()), (1, 1, 1));
    assert_eq!(d.focused, None);
    assert!(d.dirty);
    assert_eq!(d.deleted_rect(), Some(r(100, 100, 340, 66)));
    assert!(d.undo_delete(true, 12));
    assert_eq!(d.trash.len(), 0);
    assert_eq!(d.deleted_rect(), None);
    let c = d.cards[1];
    assert_eq!((c.id, c.rect, c.free, c.color), (7, r(100, 100, 340, 66), true, 3));
    let t: String = d.contents[1].editor.text.iter().collect();
    assert_eq!(t, "<hello> & more");
    assert!(d.contents[1].editor.attrs.iter().all(|&a| a == 4));
    assert_eq!(d.contents[1].font_size, "18.5");
    assert!(!d.undo_delete(true, 12));
}

#[test]
fn closing_fades_and_the_pile_is_bounded() {
    let mut d = desk();
    for k in 0..25 {
        add(&mut d, 100 + k, r(10, 10, 340, 66), true, "x");
    }
    assert!(d.close_note(3));
    assert!(!d.close_note(3));
    assert!(!d.close_note(0));
    assert!(!d.close_note(99));
    assert_eq!(d.cards[3].pos_to, Some(p(10, -24)));
    let mut e = vec![eased(false, false, p(0, 0)); 26];
    e[3].faded = true;
    anim_step(&mut d.cards, None, &e, wa());
    d.focused = Some(5);
    assert_eq!(d.reap_dying(12), vec![3]);
    assert_eq!(d.focused, Some(4));
    assert_eq!(d.cards[4].id, 104);
    for c in d.cards.iter_mut() {
        c.dying = true;
    }
    let gone = d.reap_dying(12);
    assert_eq!(gone.len(), 24);
    assert_eq!((gone[0], gone[23]), (24, 1));
    assert_eq!(d.cards.len(), 1);
    assert_eq!(d.trash.len(), 20);
    // The one that was closed goes on top, though it was there before.
    assert_eq!((d.trash[19].note.id, d.trash[19].stamp), (102, 1));
    assert_eq!(d.trash[18].note.id, 100);
    assert_eq!(d.trash[0].note.id, 119);
    assert!(!d.undo_delete(false, 12));
    assert_eq!(d.trash.len(), 19);
}

#[test]
fn a_flicked_note_comes_back_to_the_stack() {
    let mut d = desk();
    let a = add(&mut d, 1, r(1500, 800, 340, 66), false, "a");
    let b = add(&mut d, 2, r(1500, 700, 340, 66), false, "b");
    d.grab(b, p(1510, 705));
    assert!(!d.drag.unwrap().free);
    d.drag_move(p(900, 300), 12);
    assert!(d.cards[b].free);
    d.cards[b].rect = r(890, 295, 340, 66);
    assert_eq!(d.release(p(900, 300), true, wa(), m()), Some(Dropped::Flung));
    // It flies free of the stack.
    assert_eq!(stacked_indices(&d.cards), vec![a]);
    d.cards[b].dying = true;
    assert_eq!(d.reap_dying(12), vec![b]);
    assert_eq!((d.trash[0].note.x, d.trash[0].note.y), (1500, 700));
    assert!(!d.trash[0].note.free);
    assert!(d.undo_delete(true, 12));
    let back = d.cards[2];
    assert_eq!((back.id, back.rect, back.free), (2, r(1500, 700, 340, 66), false));
    assert_eq!(stacked_indices(&d.cards).len(), 2);
    assert!(back.pos_to.is_some());
}

#[test]
fn a_deletion_begins_once() {
    let mut d = desk();
    let a = add(&mut d, 1, r(1500, 800, 340, 66), false, "a");
    let b = add(&mut d, 2, r(30, 40, 340, 66), true, "b");
    // Hurled away, and closed in flight.
    d.grab(a, p(1510, 805));
    d.drag_move(p(900, 300), 12);
    d.cards[a].rect = r(890, 295, 340, 66);
    assert_eq!(d.release(p(900, 300), true, wa(), m()), Some(Dropped::Flung));
    let flight = d.cards[a].left;
    assert_eq!(flight.map(|l| (l.from, l.free, l.stamp)), Some((r(1500, 800, 340, 66), false, 1)));
    // Closed, and hurled away while it fades.
    assert!(d.close_note(b));
    let fading = d.cards[b].left;
    assert_eq!(fading.map(|l| (l.from, l.free, l.stamp)), Some((r(30, 40, 340, 66), true, 2)));
    d.grab(b, p(40, 45));
    d.drag_move(p(400, 45), 12);
    d.cards[b].rect = r(390, 40, 340, 66);
    assert_eq!(d.release(p(400, 45), true, wa(), m()), Some(Dropped::Flung));
    assert_eq!(d.cards[b].left, fading);
    d.cards[a].rect = r(100, 100, 340, 66);
    assert!(d.close_note(a));
    assert!(d.cards[a].closing);
    assert_eq!(d.cards[a].left, flight);
    d.cards[a].dying = true;
    d.cards[b].dying = true;
    assert_eq!(d.reap_dying(12), vec![b, a]);
    let kept: Vec<(u64, i32, bool)> =
        d.trash.iter().map(|t| (t.note.id, t.note.x, t.note.free)).collect();
    assert_eq!(kept, vec![(1, 1500, false), (2, 30, true)]);
}

#[test]
fn the_note_deleted_last_comes_back_first() {
    let mut d = desk();
    let a = add(&mut d, 1, r(10, 20, 340, 66), true, "a");
    let b = add(&mut d, 2, r(30, 40, 340, 66), true, "b");
    let c = add(&mut d, 3, r(50, 60, 340, 66), true, "c");
    // Three deletions, which end in another order than they began.
    assert!(d.close_note(b));
    d.grab(c, p(60, 65));
    d.drag_move(p(400, 65), 12);
    d.cards[c].rect = r(390, 60, 340, 66);
    assert_eq!(d.release(p(400, 65), true, wa(), m()), Some(Dropped::Flung));
    assert!(d.close_note(a));
    assert_eq!(d.deletions, 3);
    d.cards[a].dying = true;
    d.cards[a].rect = r(10, -14, 340, 66);
    assert_eq!(d.reap_dying(12), vec![a]);
    d.cards[1].dying = true;
    d.cards[2].dying = true;
    assert_eq!(d.reap_dying(12), vec![2, 1]);
    let ids: Vec<u64> = d.trash.iter().map(|t| t.note.id).collect();
    assert_eq!(ids, vec![2, 3, 1]);
    assert!(d.undo_delete(true, 12));
    assert_eq!((d.cards[1].id, d.cards[1].rect), (1, r(10, 20, 340, 66)));
    assert!(d.undo_delete(true, 12));
    assert_eq!((d.cards[2].id, d.cards[2].rect), (3, r(50, 60, 340, 66)));
    assert!(d.undo_delete(true, 12));
    assert_eq!((d.cards[3].id, d.cards[3].rect), (2, r(30, 40, 340, 66)));
    assert!(d.trash.is_empty());
}

#[test]
fn saving_and_reading_the_desk() {
    let mut d = desk();
    add(&mut d, 4, r(-20, 30, 340, 66), true, "a<b\n\"q\"");
    add(&mut d, 5, r(10, 10, 200, 90), false, "");
    d.add_pill(m(), 0, true);
    d.next_id = 6;
    let s = d.snapshot();
    assert_eq!((s.version, s.next_id, s.notes.len()), (1, 6, 2));
    assert_eq!(s.notes[0].text, "a&lt;b\n\"q\"");
    assert_eq!(parse(&to_json(&s)).unwrap(), s);
    let n: NoteData = s.notes[0].clone();
    let at = load_place(&n, r(0, 0, 1920, 1080), wa());
    assert_eq!(at, (-20, 30));
    let mut far = n.clone();
    far.x = 4000;
    assert_eq!(load_place(&far, r(0, 0, 1920, 1080), wa()), (1580, 30));
    far.docked = 1;
    assert_eq!(load_place(&far, r(0, 0, 1920, 1080), wa()), (1886, 30));
    far.y = 5000;
    assert_eq!(load_place(&far, r(0, 0, 1920, 1080), wa()), (1886, 974));
    far.docked = 0;
    far.x = i32::MIN;
    far.y = i32::MAX;
    assert_eq!(load_place(&far, r(0, 0, 1920, 1080), wa()), (0, 1014));
    let mut e = desk();
    e.load_note(n, r(-20, 30, 340, 66));
    assert_eq!(e.cards[1].id, 4);
    let t: String = e.contents[1].editor.text.iter().collect();
    assert_eq!(t, "a<b\n\"q\"");
}

#[test]
fn the_menu_fans_out_and_folds() {
    let mut d = desk();
    assert_eq!(d.pill_rect(m(), 0), r(1556, 950, 340, 66));
    assert_eq!(d.pill_rect(m(), 4), r(1556, 638, 340, 66));
    d.slide_out = true;
    for k in 0..5 {
        d.add_pill(m(), k, true);
    }
    d.menu_opened();
    assert!(d.menu_open && d.slid);
    let roles: Vec<Role> = d.cards.iter().map(|c| c.role).collect();
    assert_eq!(
        roles,
        vec![
            Role::Button,
            Role::Quit,
            Role::Startup,
            Role::SlideOut,
            Role::Opacity,
            Role::Size
        ]
    );
    let on: Vec<bool> = d.cards.iter().map(|c| c.pill_on).collect();
    assert_eq!(on, vec![false, false, true, true, false, false]);
    assert_eq!(d.cards[5].hold_us, 460_000);
    assert!(!d.toggle_startup(2));
    assert!(!d.toggle_slide_out(3));
    assert!(!d.slide_out && !d.cards[3].pill_on);
    assert!(d.toggle_slide_out(3));
    assert!(d.slide_out && d.cards[3].pill_on);
    d.cards[4].dying = true;
    d.close_pill_menu(wa(), m());
    assert!(!d.menu_open && !d.slid);
    assert_eq!(d.cards[1].pos_to, Some(p(1556, 950)));
    assert!(d.cards[1].closing && d.cards[1].hold_us == 0);
    assert!(!d.cards[4].closing && !d.cards[0].closing);
    d.cards[1].dying = true;
    d.cards[2].dying = true;
    assert_eq!(d.reap_dying(12), vec![4, 2, 1]);
    assert_eq!(d.trash.len(), 0);
    assert!(!d.dirty);
    assert_eq!(button_place(wa(), m(), 56, 0), p(1888, 952));
    assert_eq!(button_place(wa(), m(), 0, 352), p(1480, 952));
}

#[test]
fn holding_back_and_gliding() {
    let mut d = desk();
    let a = add(&mut d, 1, r(100, 100, 340, 66), true, "");
    d.cards[a].shown = false;
    d.cards[a].hold_us = 100;
    hold_step(&mut d.cards, 99);
    assert_eq!((d.cards[a].hold_us, d.cards[a].shown), (1, false));
    hold_step(&mut d.cards, 1);
    assert_eq!((d.cards[a].hold_us, d.cards[a].shown), (0, true));
    d.cards[a].pos_to = Some(p(103, 100));
    let e = vec![eased(false, false, p(0, 0)); 2];
    assert_eq!(
        anim_step(&mut d.cards, None, &e, wa())[1],
        Motion::Move(p(101, 100))
    );
    assert_eq!(anim_step(&mut d.cards, Some(a), &e, wa())[1], Motion::Still);
    d.cards[a].rect = r(102, 100, 340, 66);
    assert_eq!(
        anim_step(&mut d.cards, None, &e, wa())[1],
        Motion::Move(p(103, 100))
    );
    assert_eq!(d.cards[a].pos_to, None);
    let e = vec![eased(true, false, p(0, 0)); 2];
    let motions = anim_step(&mut d.cards, None, &e, wa());
    assert_eq!(motions, vec![Motion::Redraw, Motion::Redraw]);
    let still = vec![false, false];
    assert!(!any_animating(&d.cards, &still, &still, false));
    assert!(any_animating(&d.cards, &still, &still, true));
    assert!(!any_animating(&d.cards, &vec![true, false], &still, false));
    assert!(any_animating(&d.cards, &vec![false, true], &still, false));
    assert!(any_animating(&d.cards, &still, &vec![true, false], false));
    d.cards[a].hold_us = 1;
    assert!(any_animating(&d.cards, &still, &still, false));
}

#[test]
fn the_nearest_note_is_active() {
    let mut d = desk();
    let a = add(&mut d, 1, r(100, 100, 100, 50), true, "");
    let b = add(&mut d, 2, r(300, 100, 100, 50), true, "");
    let lum = vec![500_000; 3];
    let first = proximity_tick(&mut d.cards, None, p(240, 120), &lum);
    assert_eq!(first, vec![0, 1, 2]);
    assert!(d.cards[a].active && !d.cards[b].active);
    let again = proximity_tick(&mut d.cards, Some(a), p(260, 120), &lum);
    assert!(again.is_empty());
    assert!(d.cards[a].active && d.cards[b].active);
    proximity_tick(&mut d.cards, None, p(236, 198), &lum);
    assert!(d.cards[a].active);
    proximity_tick(&mut d.cards, None, p(237, 198), &lum);
    assert!(!d.cards[a].active && !d.cards[b].active);
}

#[test]
fn schemes_stick_and_groups_agree() {
    let mut d = desk();
    let a = add(&mut d, 1, r(100, 100, 100, 50), true, "");
    let far = p(-5000, -5000);
    proximity_tick(&mut d.cards, None, far, &vec![0, 600_000]);
    assert!(d.cards[a].light && !d.cards[0].light);
    for _ in 0..5 {
        proximity_tick(&mut d.cards, None, far, &vec![0, 310_000]);
    }
    assert!(d.cards[a].light);
    proximity_tick(&mut d.cards, None, far, &vec![0, 290_000]);
    proximity_tick(&mut d.cards, None, far, &vec![0, 290_000]);
    assert!(d.cards[a].light);
    proximity_tick(&mut d.cards, None, far, &vec![0, 290_000]);
    assert!(!d.cards[a].light);
    // A neighbour in reach makes a group, over a chain of notes.
    let b = add(&mut d, 2, r(260, 100, 100, 50), true, "");
    let c = add(&mut d, 3, r(260, 210, 100, 50), true, "");
    for _ in 0..4 {
        proximity_tick(&mut d.cards, None, far, &vec![0, 950_000, 200_000, 200_000]);
    }
    assert!(d.cards[a].light && d.cards[b].light && d.cards[c].light);
    for _ in 0..4 {
        proximity_tick(&mut d.cards, None, far, &vec![0, 90_000, 300_000, 300_000]);
    }
    assert!(!d.cards[a].light && d.cards[b].light && d.cards[c].light);
    d.cards[c].rect = r(260, 211, 100, 50);
    for _ in 0..4 {
        proximity_tick(&mut d.cards, None, far, &vec![0, 250_000, 250_000, 290_000]);
    }
    assert!(!d.cards[c].light);
}

#[test]
fn the_idle_cluster_tucks() {
    let button = r(1832, 952, 64, 64);
    let mut t = Tuck {
        tucked: false,
        idle_ms: 0,
    };
    for _ in 0..55 {
        t = tuck_tick(t, button, p(0, 0), false);
    }
    assert!(!t.tucked);
    t = tuck_tick(t, button, p(0, 0), false);
    assert!(t.tucked);
    assert!(!tuck_tick(t, button, p(0, 0), true).tucked);
    assert!(!tuck_tick(t, button, p(1752, 960), false).tucked);
    assert!(tuck_tick(t, button, p(1751, 960), false).tucked);
}

#[test]
fn who_pushes_whom() {
    let mut d = desk();
    let a = add(&mut d, 1, r(100, 100, 340, 66), true, "");
    let s = add(&mut d, 2, r(200, 100, 340, 66), false, "");
    let g = add(&mut d, 3, r(300, 100, 340, 66), true, "");
    d.cards[g].closing = true;
    d.cards[a].pos_to = Some(p(50, 60));
    let (mv, fixed) = parties(&d.cards, wa(), 12);
    assert_eq!(mv.len(), 1);
    assert_eq!((mv[0].idx, mv[0].at, mv[0].w, mv[0].h), (a, p(50, 60), 340, 66));
    assert_eq!((mv[0].min, mv[0].max), (p(12, 12), p(1568, 962)));
    assert_eq!(fixed, vec![(p(200, 100), 340, 66)]);
    d.push_to(mv[0], p(-80, 5000));
    assert_eq!(d.cards[a].pos_to, Some(p(12, 962)));
    assert!(!d.cards[s].free);
    assert_eq!(share(true, true), Share::Neither);
    assert_eq!(share(true, false), Share::Second);
    assert_eq!(share(false, true), Share::First);
    assert_eq!(share(false, false), Share::ByMass);
}

#[test]
fn peeking_out_and_coming_back() {
    let mut d = desk();
    let a = add(&mut d, 1, r(-306, 100, 340, 66), true, "");
    d.slide_out = true;
    assert!(!d.peek(a, wa()));
    d.cards[a].docked = -1;
    d.slide_out = false;
    assert!(!d.peek(a, wa()));
    assert_eq!((d.cards[a].pos_to, d.cards[a].revealed), (None, false));
    d.slide_out = true;
    assert!(d.peek(a, wa()));
    assert!(!d.peek(a, wa()));
    assert_eq!(d.cards[a].pos_to, Some(p(-272, 100)));
    assert!(d.cards[a].revealed && d.cards[a].docked == -1);
    // On the border of the note the mouse is still on it.
    d.cards[a].rect = r(-272, 100, 340, 66);
    d.unpeek(a, p(67, 100), wa());
    assert_eq!(d.cards[a].pos_to, Some(p(-272, 100)));
    assert!(!d.cards[a].tracking && d.cards[a].revealed);
    d.settle(a, p(67, 100), wa());
    assert!(d.cards[a].revealed);
    d.settle(a, p(68, 100), wa());
    assert_eq!(d.cards[a].pos_to, Some(p(-306, 100)));
    assert!(!d.cards[a].revealed);
    assert!(d.peek(a, wa()));
    d.unpeek(a, p(500, 500), wa());
    assert_eq!(d.cards[a].pos_to, Some(p(-306, 100)));
    assert!(!d.cards[a].tracking && !d.cards[a].revealed);
    d.undock_note(a, wa());
    assert_eq!((d.cards[a].docked, d.cards[a].pos_to), (0, Some(p(8, 100))));
    assert!(d.dirty);
}

#[test]
fn a_revealed_note_is_edited_and_resized_at_its_edge() {
    let mut d = desk();
    let a = add(&mut d, 1, r(1886, 100, 340, 66), true, "");
    d.cards[a].docked = 1;
    d.slide_out = true;
    let inside = p(1900, 130);
    assert_eq!(surface_of(d.cards[a]), Surface::Plain);
    assert_eq!(press_on(d.cards[a].is_hidden(), d.cards[a].rect, inside), Press::Undock);
    d.peek(a, wa());
    assert_eq!(d.cards[a].pos_to, Some(p(1852, 100)));
    assert_eq!(surface_of(d.cards[a]), Surface::Resizable);
    assert_eq!(press_on(d.cards[a].is_hidden(), d.cards[a].rect, inside), Press::Edit);
    // With the keyboard it comes out as a whole and stays out.
    assert!(d.gain_focus(a, wa()));
    assert_eq!(d.cards[a].pos_to, Some(p(1580, 100)));
    d.cards[a].rect = r(1580, 100, 340, 66);
    d.unpeek(a, p(0, 0), wa());
    assert!(d.cards[a].revealed && d.cards[a].docked == 1);
    assert_eq!(d.cards[a].pos_to, Some(p(1580, 100)));
    assert!(d.peek(a, wa()));
    assert_eq!(d.cards[a].pos_to, Some(p(1580, 100)));
    d.unpeek(a, p(0, 0), wa());
    // The user makes it wider; it is docked still.
    d.cards[a].rect = r(1520, 100, 400, 90);
    d.resized(a);
    assert_eq!((d.cards[a].manual_h, d.cards[a].docked), (90, 1));
    d.settle(a, p(0, 0), wa());
    assert!(d.cards[a].revealed);
    d.lose_focus(a);
    d.settle(a, p(0, 0), wa());
    assert_eq!(d.cards[a].pos_to, Some(p(1880, 100)));
    assert!(d.cards[a].is_hidden() && d.cards[a].docked == 1);
    assert_eq!(surface_of(d.cards[0]), Surface::Plain);
}

#[test]
fn shadows_follow_their_windows() {
    let mut c = Card::new(Role::Note, 1, r(100, 100, 340, 66));
    assert_eq!(shadow_rect(c, 8), Some(r(92, 92, 356, 82)));
    let none = Shadow {
        exists: false,
        shown: false,
        place: None,
        w: 8,
        h: 8,
    };
    let (s, w) = update_shadow(c, 8, none, false);
    assert_eq!((s, w.show), (none, false));
    let (s, w) = update_shadow(c, 8, none, true);
    assert!(w.redraw && w.show && w.put == Some(r(92, 92, 356, 82)));
    let (s2, w) = update_shadow(c, 8, s, true);
    assert_eq!(s2, s);
    assert!(!w.redraw && !w.show && w.put.is_none() && !w.hide);
    assert_eq!(
        window_rects(&vec![c], &vec![s]),
        vec![r(100, 100, 340, 66), r(92, 92, 356, 82)]
    );
    c.docked = 1;
    let (s3, w) = update_shadow(c, 8, s, true);
    assert!(w.hide && !s3.shown);
    assert_eq!(window_rects(&vec![c], &vec![s3]).len(), 1);
    c.docked = 0;
    c.free = false;
    let w = on_moved_or_resized(c, 340, 66);
    assert!(w.resize.is_none() && !w.relayout);
    let w = on_moved_or_resized(c, 340, 60);
    assert_eq!((w.resize, w.relayout), (Some((340, 66)), true));
}

#[test]
fn zones_of_a_note() {
    let n = r(100, 100, 340, 66);
    let z = |x, y| hit_zone(Surface::Resizable, n, p(x, y));
    assert_eq!(z(108, 108), Zone::TopLeft);
    assert_eq!(z(431, 108), Zone::TopRight);
    assert_eq!(z(108, 157), Zone::BottomLeft);
    assert_eq!(z(431, 157), Zone::BottomRight);
    assert_eq!(z(100, 130), Zone::Left);
    assert_eq!(z(439, 130), Zone::Right);
    assert_eq!(z(200, 100), Zone::Top);
    assert_eq!(z(200, 160), Zone::Bottom);
    assert_eq!(z(200, 130), Zone::Client);
    assert_eq!(hit_zone(Surface::Plain, n, p(100, 100)), Zone::Client);
    assert_eq!(hit_zone(Surface::Shadow, n, p(200, 130)), Zone::Transparent);
    assert_eq!(press_on(true, n, p(420, 110)), Press::Undock);
    assert_eq!(press_on(false, n, p(420, 110)), Press::Close);
    assert_eq!(press_on(false, n, p(409, 110)), Press::Drag);
    assert_eq!(press_on(false, n, p(200, 125)), Press::Drag);
    assert_eq!(press_on(false, n, p(200, 126)), Press::Edit);
}

#[test]
fn presses_in_a_row() {
    assert_eq!(count_clicks(0, true, true), 1);
    assert_eq!(count_clicks(1, true, true), 2);
    assert_eq!(count_clicks(2, true, true), 3);
    assert_eq!(count_clicks(3, true, true), 1);
    assert_eq!(count_clicks(2, false, true), 1);
    assert_eq!(count_clicks(2, true, false), 1);
}

#[test]
fn heights_fit_the_text() {
    let n = r(100, 100, 340, 66);
    assert_eq!(sized(n, 20, 22, 66, 6), n);
    assert_eq!(sized(n, 60, 22, 66, 6), r(100, 100, 340, 104));
    assert_eq!(sized(n, 60, 22, 66, 4), r(100, 62, 340, 104));
    assert_eq!(auto_height(66, 20, 22, 66, 0), None);
    assert_eq!(auto_height(66, 23, 22, 66, 0), None);
    assert_eq!(auto_height(66, 24, 22, 66, 0), Some(68));
    assert_eq!(auto_height(200, 20, 22, 66, 150), Some(150));
}

#[test]
fn clicks_on_the_menu() {
    assert_eq!(click_on(Role::Button), Click::Spawn);
    assert_eq!(click_on(Role::Quit), Click::Quit);
    assert_eq!(click_on(Role::Startup), Click::ToggleStartup);
    assert_eq!(click_on(Role::SlideOut), Click::ToggleSlideOut);
    assert_eq!(click_on(Role::Opacity), Click::PickOpacity);
    assert_eq!(click_on(Role::Size), Click::PickSize);
    assert_eq!(click_on(Role::Note), Click::Nothing);
}

#[test]
fn keyboard_shortcuts() {
    assert_eq!(command_for(0x5a, true, false), Command::Undo);
    assert_eq!(command_for(0x5a, true, true), Command::Restore);
    assert_eq!(command_for(0x5a, false, false), Command::Other);
    assert_eq!(command_for(0x59, true, false), Command::Redo);
    assert_eq!(command_for(0x57, true, false), Command::Close);
    assert_eq!(command_for(0x53, true, false), Command::Strike);
    assert_eq!(command_for(0x41, true, false), Command::SelectAll);
    assert_eq!(command_for(0x43, true, false), Command::Copy);
    assert_eq!(command_for(0x58, true, false), Command::Cut);
    assert_eq!(command_for(0x56, true, false), Command::Paste);
    assert_eq!(command_for(0x42, true, false), Command::Bold);
    assert_eq!(command_for(0x49, true, false), Command::Italic);
    assert_eq!(command_for(0xbb, true, false), Command::Grow);
    assert_eq!(command_for(0xbd, true, false), Command::Shrink);
    assert_eq!(command_for(0x25, false, false), Command::Move(Key::Left));
    assert_eq!(command_for(0x28, true, true), Command::Move(Key::Down));
    assert_eq!(command_for(0x2e, true, false), Command::Delete);
}

#[test]
fn keys_reach_the_focused_note() {
    let mut d = desk();
    let a = add(&mut d, 1, r(0, 0, 340, 66), true, "ab");
    let b = add(&mut d, 2, r(0, 300, 340, 66), true, "cd");
    assert!(!d.char_typed(a, 'x' as u32));
    assert!(!d.gain_focus(0, wa()));
    assert!(d.gain_focus(a, wa()));
    d.dirty = false;
    assert!(d.char_typed(a, 'x' as u32));
    assert!(d.dirty);
    let k = d.key_down(Some(b), Command::SelectAll, true, false, 0, "");
    assert!(!k.handled);
    let k = d.key_down(Some(a), Command::SelectAll, true, false, 0, "");
    assert!(k.handled && !k.changed && k.redraw == Some(a));
    let k = d.key_down(Some(a), Command::Strike, true, false, 0, "");
    assert!(k.changed && !k.save);
    assert_eq!(d.contents[a].editor.attrs, vec![4, 4, 4]);
    let k = d.key_down(Some(a), Command::Cut, true, false, 0, "");
    assert_eq!(k.copied.unwrap(), "xab");
    assert!(k.refit);
    let k = d.key_down(Some(a), Command::Strike, true, false, 0, "");
    assert!(k.save && !k.changed);
    let k = d.key_down(Some(b), Command::Undo, true, false, 0, "");
    assert!(k.handled && k.changed && !k.restore && k.redraw == Some(a));
    let k = d.key_down(None, Command::Redo, true, false, 0, "");
    assert!(k.handled && k.changed);
    let k = d.key_down(Some(a), Command::Paste, true, false, 0, "pq");
    assert!(k.changed && k.refit);
    let k = d.key_down(Some(a), Command::Move(Key::Left), false, true, 0, "");
    assert!(k.changed && !k.refit);
    assert_eq!(d.contents[a].editor.sel, Some(2));
    assert_eq!(d.key_down(Some(a), Command::Grow, true, false, 0, "").font, 1);
    assert_eq!(d.key_down(Some(a), Command::Shrink, true, false, 0, "").font, -1);
    let k = d.key_down(Some(a), Command::Close, true, false, 0, "");
    assert!(k.handled && d.cards[a].closing);
    let k = d.key_down(Some(a), Command::Restore, true, true, 0, "");
    assert!(k.handled && k.restore);
    let k = d.key_down(Some(a), Command::Other, false, false, 0, "");
    assert!(!k.handled);
    d.lose_focus(a);
    assert_eq!((d.focused, d.contents[a].editor.sel), (None, None));
    let k = d.key_down(Some(a), Command::Undo, true, false, 0, "");
    assert!(k.handled && k.restore);
    let k = d.key_down(Some(a), Command::Strike, true, false, 0, "");
    assert!(k.handled && k.save);
}

#[test]
fn the_mouse_selects_text() {
    let mut d = desk();
    let a = add(&mut d, 1, r(0, 0, 340, 66), true, "abcd");
    d.gain_focus(a, wa());
    d.begin_select(a, 1);
    assert!(d.selecting);
    assert!(d.extend_select(a, 3));
    assert!(!d.extend_select(a, 3));
    d.lose_focus(a);
    assert_eq!(d.contents[a].editor.sel, Some(1));
    d.finish_select(a);
    assert!(!d.selecting);
    d.begin_select(a, 2);
    d.finish_select(a);
    assert_eq!(d.contents[a].editor.sel, None);
    d.select_more(a, 2, false);
    assert_eq!(d.contents[a].editor.sel, Some(0));
    d.select_more(a, 2, true);
    assert_eq!(d.contents[a].editor.caret, 4);
    d.set_font(a, "20.0".to_string());
    assert_eq!(d.contents[a].font_size, "20.0");
    d.place(a, r(5, 6, 70, 80));
    assert_eq!(d.cards[a].rect, r(5, 6, 70, 80));
    d.place(a, r(0, 0, 340, 66));
    let was = d.caret_on;
    d.blink();
    assert_eq!(d.caret_on, !was);
    d.resized(a);
    assert_eq!(d.cards[a].manual_h, 66);
}

#[test]
fn rectangles_within_reach() {
    assert!(is_window_rect(r(0, 0, 0, 0)));
    assert!(is_window_rect(r(-5, 7, 131_072, 1)));
    assert!(!is_window_rect(r(0, 0, 131_073, 1)));
    assert!(!is_window_rect(r(0, 0, -1, 1)));
    assert!(!is_window_rect(r(268_435_450, 0, 10, 1)));
    assert!(r(268_435_450, 0, 5, 1).is_near());
    assert!(p(134_217_728, -134_217_728).is_near());
    assert!(!p(134_217_729, 0).is_near());
    assert_eq!(within_reach(r(5, 6, 7, 8)), r(5, 6, 7, 8));
    assert_eq!(within_reach(r(300_000_000, 6, 7, 200_000)), r(268_304_384, 6, 7, 131_072));
}

#[test]
fn the_keyboard_stays_with_its_note() {
    let mut d = desk();
    for k in 0..4 {
        add(&mut d, k, r(0, 0, 100, 50), true, "");
    }
    d.focused = Some(3);
    d.grab(4, p(10, 10));
    d.cards[1].dying = true;
    d.cards[2].dying = true;
    assert_eq!(d.reap_dying(12), vec![2, 1]);
    assert_eq!(d.focused, Some(1));
    assert_eq!(d.drag.unwrap().idx, 2);
    assert_eq!((d.cards[1].id, d.cards[2].id), (2, 3));
    d.cards[2].dying = true;
    d.reap_dying(12);
    assert!(d.drag.is_none());
}
