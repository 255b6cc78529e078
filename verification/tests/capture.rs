use liquidnotes::capture::{
    subtract_rect, to_redraw, Acquired, Capture, Pointer, Tick, FRAMES_PER_TICK,
};
use liquidnotes::geometry::Rect;

fn r(left: i32, top: i32, right: i32, bottom: i32) -> Rect {
    Rect {
        left,
        top,
        right,
        bottom,
    }
}

fn inside(p: &Rect, x: i32, y: i32) -> bool {
    p.left <= x && x < p.right && p.top <= y && y < p.bottom
}

fn capture() -> Capture {
    Capture::new(100, 80, (10, 20))
}

fn no_pointer() -> Pointer {
    Pointer {
        place: None,
        shape: None,
    }
}

#[test]
fn subtraction_covers_each_pixel_once() {
    let holes = vec![r(2, 2, 5, 5), r(4, 4, 9, 6), r(20, 0, 30, 30), r(3, 3, 3, 9), r(0, 7, 12, 8)];
    let whole = r(0, 0, 12, 10);
    let pieces = subtract_rect(whole, &holes);
    for x in -1..13 {
        for y in -1..11 {
            let n = pieces.iter().filter(|p| inside(p, x, y)).count();
            let want = inside(&whole, x, y) && !holes.iter().any(|h| inside(h, x, y));
            assert_eq!(n, want as usize, "{x},{y}");
        }
    }
    assert_eq!(subtract_rect(whole, &vec![]), vec![whole]);
    assert!(subtract_rect(whole, &vec![r(-5, -5, 50, 50)]).is_empty());
}

#[test]
fn holes_are_clipped_to_the_output() {
    let c = capture();
    let holes = c.holes(&vec![r(0, 0, 30, 40), r(200, 0, 300, 40), r(100, 90, 200, 200)]);
    assert_eq!(holes, vec![r(0, 0, 20, 20), r(90, 70, 100, 80)]);
}

#[test]
fn the_first_picture_is_taken_whole() {
    let mut c = capture();
    let mut t = c.begin_tick(false).unwrap();
    assert_eq!(
        t,
        Tick {
            left: FRAMES_PER_TICK,
            updated: false
        }
    );
    let holes = vec![r(0, 0, 50, 80)];
    let w = c.on_acquired(&mut t, &Acquired::Image(no_pointer(), vec![]), &holes);
    assert_eq!(w.copy, vec![r(50, 0, 100, 80)]);
    assert!(w.release && !w.done);
    assert!(c.seeded() && t.updated);
    assert_eq!(c.dirty_bounds, Some(r(60, 20, 110, 100)));
    let w = c.on_acquired(
        &mut t,
        &Acquired::Image(no_pointer(), vec![r(40, 10, 60, 20), r(0, 70, 10, 80)]),
        &holes,
    );
    assert_eq!(w.copy, vec![r(50, 10, 60, 20)]);
    assert_eq!(t.left, FRAMES_PER_TICK - 2);
}

#[test]
fn a_tick_without_a_copy_has_no_update() {
    let mut c = capture();
    let mut t = c.begin_tick(false).unwrap();
    c.on_acquired(&mut t, &Acquired::Image(no_pointer(), vec![]), &vec![]);
    assert!(t.updated && c.dirty_bounds.is_some());
    // The holes swallow all that changed, and an empty rectangle is nothing.
    let mut t = c.begin_tick(false).unwrap();
    assert_eq!(c.dirty_bounds, None);
    let dirty = vec![r(10, 10, 20, 20), r(60, 60, 60, 70)];
    let holes = vec![r(0, 0, 50, 50)];
    let w = c.on_acquired(&mut t, &Acquired::Image(no_pointer(), dirty), &holes);
    assert!(w.copy.is_empty() && w.release && !w.done);
    assert!(!t.updated);
    assert_eq!(c.dirty_bounds, None);
    let dirty = vec![r(45, 45, 55, 55), r(70, 10, 80, 20)];
    let w = c.on_acquired(&mut t, &Acquired::Image(no_pointer(), dirty), &holes);
    assert!(t.updated && !w.copy.is_empty());
    assert_eq!(c.dirty_bounds, Some(r(55, 30, 90, 75)));
    // The box of a tick grows over its frames.
    let dirty = vec![r(95, 75, 100, 80)];
    c.on_acquired(&mut t, &Acquired::Image(no_pointer(), dirty), &holes);
    assert_eq!(c.dirty_bounds, Some(r(55, 30, 110, 100)));
    // A lost duplication leaves nothing of the last tick either.
    c.on_acquired(&mut t, &Acquired::Lost, &holes);
    assert!(c.begin_tick(false).is_none());
    assert_eq!(c.dirty_bounds, None);
}

#[test]
fn a_tick_ends() {
    let mut c = capture();
    let mut t = c.begin_tick(false).unwrap();
    let w = c.on_acquired(&mut t, &Acquired::Timeout, &vec![]);
    assert!(w.done && !w.release);
    for k in 0..8 {
        let w = c.on_acquired(&mut t, &Acquired::PointerOnly(no_pointer()), &vec![]);
        assert_eq!((w.release, w.done), (true, k == 7));
    }
    assert!(!t.updated);
    let mut t = c.begin_tick(false).unwrap();
    let w = c.on_acquired(&mut t, &Acquired::NoImage(no_pointer()), &vec![]);
    assert!(w.done && w.release && !c.seeded);
    let w = c.on_acquired(&mut t, &Acquired::Lost, &vec![]);
    assert!(w.done && !c.live);
    assert!(c.begin_tick(false).is_none());
    assert!(c.begin_tick(true).is_some());
    assert!(c.live);
}

#[test]
fn the_pointer_is_followed() {
    let mut c = capture();
    assert_eq!(c.cursor_rect(), None);
    let mut t = c.begin_tick(false).unwrap();
    let p = Pointer {
        place: Some((true, 10, 60)),
        shape: Some((16, 20)),
    };
    c.on_acquired(&mut t, &Acquired::PointerOnly(p), &vec![]);
    assert_eq!(c.cursor_rect(), Some(r(7, 57, 46, 80)));
    let p = Pointer {
        place: Some((true, 500, 60)),
        shape: Some((0, 20)),
    };
    c.on_acquired(&mut t, &Acquired::PointerOnly(p), &vec![]);
    assert_eq!(c.cursor_size, (16, 20));
    assert_eq!(c.cursor_rect(), None);
}

#[test]
fn only_what_changed_is_redrawn() {
    let rects = vec![r(0, 0, 100, 100), r(500, 0, 600, 100), r(0, 500, 100, 600)];
    let b = Some(r(200, 0, 300, 50));
    assert_eq!(to_redraw(&rects, true, false, b), vec![0]);
    assert_eq!(to_redraw(&rects, true, false, Some(r(227, 0, 373, 50))), vec![0, 1]);
    assert_eq!(to_redraw(&rects, true, false, Some(r(228, 0, 372, 50))), vec![]);
    assert_eq!(to_redraw(&rects, false, false, None), vec![]);
    assert_eq!(to_redraw(&rects, true, false, None), vec![0, 1, 2]);
    assert_eq!(to_redraw(&rects, false, true, b), vec![0, 1, 2]);
}
