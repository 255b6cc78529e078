//! What the text layer of a note shows: its text or a hint, runs of styles,
//! the selection and the caret.

use vstd::prelude::*;
use crate::editor::Editor;
use crate::strings::chars_to_u16;
use crate::strings::lemma_units_bounds;
use crate::strings::string_of;
use crate::strings::units;

verus! {

/// The faint hint in a note without text.
pub open spec fn placeholder() -> Seq<char> {
    "Type a note…"@
}

/// The text that is laid out: the note's own, or the hint.
pub fn shown_text(text: &Vec<char>) -> (s: String)
    ensures
        s@ == if text@.len() == 0 {
            placeholder()
        } else {
            text@
        },
{
    if text.len() == 0 {
        "Type a note…".to_owned()
    } else {
        let s = string_of(text, 0, text.len());
        assert(text@.subrange(0, text@.len() as int) == text@);
        s
    }
}

/// A run of characters in one style, in UTF-16 units.
#[derive(Clone, Copy, Debug, PartialEq, Eq, Structural)]
pub struct StyleRun {
    pub start: u32,
    pub len: u32,
    pub mask: u8,
}

/// Where the run ends that starts at `i`: the masks are equal up to there.
pub open spec fn run_end(attrs: Seq<u8>, i: int, j: int) -> int
    decreases attrs.len() - j,
{
    if i <= j < attrs.len() && attrs[j] == attrs[i] {
        run_end(attrs, i, j + 1)
    } else {
        j
    }
}

/// The runs from character `i` on that have a style.
pub open spec fn runs_from(text: Seq<char>, attrs: Seq<u8>, i: int) -> Seq<StyleRun>
    decreases attrs.len() - i,
{
    if !(0 <= i < attrs.len()) {
        Seq::empty()
    } else {
        let j = run_end(attrs, i, i + 1);
        let rest = if i < j <= attrs.len() {
            runs_from(text, attrs, j)
        } else {
            Seq::empty()
        };
        if attrs[i] == 0 {
            rest
        } else {
            seq![
                StyleRun {
                    start: units(text.take(i)) as u32,
                    len: (units(text.take(j)) - units(text.take(i))) as u32,
                    mask: attrs[i],
                },
            ] + rest
        }
    }
}

proof fn lemma_run_end(attrs: Seq<u8>, i: int, j: int)
    requires
        0 <= i < j <= attrs.len(),
    ensures
        j <= run_end(attrs, i, j) <= attrs.len(),
        forall|k: int| j <= k < run_end(attrs, i, j) ==> #[trigger] attrs[k] == attrs[i],
        run_end(attrs, i, j) < attrs.len() ==> attrs[run_end(attrs, i, j)] != attrs[i],
    decreases attrs.len() - j,
{
    if j < attrs.len() && attrs[j] == attrs[i] {
        lemma_run_end(attrs, i, j + 1);
    }
}

/// The masks that belong to characters.
pub open spec fn kept_attrs(text: Seq<char>, attrs: Seq<u8>) -> Seq<u8> {
    attrs.take(
        if attrs.len() < text.len() {
            attrs.len() as int
        } else {
            text.len() as int
        },
    )
}

/// The runs of equal masks that have a style, in order. Masks beyond the end of
/// the text are passed over.
pub fn style_runs(text: &Vec<char>, attrs: &Vec<u8>) -> (out: Vec<StyleRun>)
    requires
        units(text@) <= u32::MAX,
    ensures
        out@ == runs_from(text@, kept_attrs(text@, attrs@), 0),
{
    let n: usize = if attrs.len() < text.len() {
        attrs.len()
    } else {
        text.len()
    };
    let ghost a = kept_attrs(text@, attrs@);
    let mut out: Vec<StyleRun> = Vec::new();
    let mut i: usize = 0;
    assert(out@ + runs_from(text@, a, 0) =~= runs_from(text@, a, 0));
    while i < n
        invariant
            i <= n,
            n == a.len(),
            n <= text@.len(),
            n <= attrs@.len(),
            a == attrs@.take(n as int),
            units(text@) <= u32::MAX,
            out@ + runs_from(text@, a, i as int) == runs_from(text@, a, 0),
        decreases n - i,
    {
        let mask: u8 = attrs[i];
        let mut j: usize = i + 1;
        while j < n && attrs[j] == mask
            invariant
                i < j <= n,
                n == a.len(),
                n <= attrs@.len(),
                a == attrs@.take(n as int),
                mask == a[i as int],
                run_end(a, i as int, j as int) == run_end(a, i as int, i + 1),
            decreases n - j,
        {
            assert(a[j as int] == attrs@[j as int]);
            j = j + 1;
        }
        proof {
            if j < n {
                assert(a[j as int] == attrs@[j as int]);
            }
            assert(j == run_end(a, i as int, i + 1));
        }
        let ghost before = out@;
        if mask != 0 {
            let start: u32 = chars_to_u16(text, i);
            let end: u32 = chars_to_u16(text, j);
            proof {
                lemma_units_bounds(text@.take(j as int), i as int);
                assert(text@.take(j as int).take(i as int) == text@.take(i as int));
            }
            out.push(StyleRun { start, len: end - start, mask });
            proof {
                let r = out@.last();
                let rest = runs_from(text@, a, j as int);
                assert(before + (seq![r] + rest) =~= before.push(r) + rest);
            }
        }
        i = j;
    }
    assert(out@ + runs_from(text@, a, n as int) =~= out@);
    out
}

/// Every character with a style lies in a run of just that style.
pub proof fn runs_cover_styles(text: Seq<char>, attrs: Seq<u8>, i: int, k: int)
    requires
        0 <= i <= k < attrs.len(),
        attrs.len() <= text.len(),
        units(text) <= u32::MAX,
        attrs[k] != 0,
    ensures
        exists|r: int|
            0 <= r < runs_from(text, attrs, i).len() && (#[trigger] runs_from(text, attrs, i)[r]).mask
                == attrs[k] && runs_from(text, attrs, i)[r].start <= units(text.take(k)) && units(
                text.take(k + 1),
            ) <= runs_from(text, attrs, i)[r].start + runs_from(text, attrs, i)[r].len,
    decreases attrs.len() - i,
{
    let j = run_end(attrs, i, i + 1);
    lemma_run_end(attrs, i, i + 1);
    let all = runs_from(text, attrs, i);
    if k < j {
        lemma_units_bounds(text, j);
        lemma_units_bounds(text.take(j), i);
        lemma_units_bounds(text.take(j), k);
        lemma_units_bounds(text.take(j), k + 1);
        lemma_units_bounds(text.take(k), i);
        assert(text.take(j).take(i) == text.take(i));
        assert(text.take(j).take(k) == text.take(k));
        assert(text.take(j).take(k + 1) == text.take(k + 1));
        assert(text.take(k).take(i) == text.take(i));
        assert(attrs[k] == attrs[i]) by {
            if k > i {
                assert(attrs[k] == attrs[i]);
            }
        }
        assert(all[0].mask == attrs[k]);
    } else {
        runs_cover_styles(text, attrs, j, k);
        let rest = runs_from(text, attrs, j);
        let r = choose|r: int|
            0 <= r < rest.len() && (#[trigger] rest[r]).mask == attrs[k] && rest[r].start <= units(
                text.take(k),
            ) && units(text.take(k + 1)) <= rest[r].start + rest[r].len;
        if attrs[i] == 0 {
            assert(all[r] == rest[r]);
        } else {
            assert(all[r + 1] == rest[r]);
        }
    }
}

/// What is drawn over the text, in UTF-16 units.
#[derive(Clone, Copy, Debug)]
pub struct TextMarks {
    pub caret: u32,
    pub show_caret: bool,
    /// The selection, where there is one.
    pub sel: Option<(u32, u32)>,
}

/// What is drawn over the text of a note. Caret and selection show only in the
/// note that has the keyboard.
pub fn text_marks(e: &Editor, focused: bool, caret_on: bool) -> (m: TextMarks)
    requires
        e.wf(),
        units(e.text@) <= u32::MAX,
    ensures
        m.caret == units(e.text@.take(e@.caret)),
        m.show_caret == (focused && caret_on),
        m.sel is Some <==> focused && e@.selects(),
        m.sel matches Some((a, b)) ==> a == units(e.text@.take(e@.lo())) && b == units(
            e.text@.take(e@.hi()),
        ) && a < b,
{
    let caret: u32 = chars_to_u16(&e.text, e.caret);
    let mut sel: Option<(u32, u32)> = None;
    if focused {
        if let Some(a) = e.sel {
            let lo: usize = if a < e.caret {
                a
            } else {
                e.caret
            };
            let hi: usize = if a > e.caret {
                a
            } else {
                e.caret
            };
            if lo < hi {
                proof {
                    lemma_units_bounds(e.text@.take(hi as int), lo as int);
                    assert(e.text@.take(hi as int).take(lo as int) == e.text@.take(lo as int));
                }
                sel = Some((chars_to_u16(&e.text, lo), chars_to_u16(&e.text, hi)));
            }
        }
    }
    TextMarks { caret, show_caret: focused && caret_on, sel }
}

/// Text with every line end, of whatever kind, as one line feed.
pub open spec fn line_feeds(s: Seq<char>) -> Seq<char>
    decreases s.len(),
{
    if s.len() == 0 {
        Seq::empty()
    } else if s[0] == '\r' {
        if s.len() > 1 && s[1] == '\n' {
            seq!['\n'] + line_feeds(s.skip(2))
        } else {
            seq!['\n'] + line_feeds(s.skip(1))
        }
    } else {
        seq![s[0]] + line_feeds(s.skip(1))
    }
}

/// Text from the clipboard with every line end as one line feed.
pub fn normalize_newlines(text: &str) -> (out: String)
    ensures
        out@ == line_feeds(text@),
{
    let b = crate::strings::chars_of(text);
    let mut out = String::new();
    let mut i: usize = 0;
    assert(b@.skip(0) == b@);
    assert(out@ + line_feeds(b@) =~= line_feeds(b@));
    while i < b.len()
        invariant
            i <= b@.len(),
            b@ == text@,
            out@ + line_feeds(b@.skip(i as int)) == line_feeds(text@),
        decreases b@.len() - i,
    {
        let ghost before = out@;
        let ghost t = b@.skip(i as int);
        let c: char = b[i];
        if c == '\r' {
            out.push('\n');
            if b.len() - i > 1 && b[i + 1] == '\n' {
                assert(t.skip(2) == b@.skip(i + 2));
                assert(before + (seq!['\n'] + line_feeds(t.skip(2))) =~= out@ + line_feeds(
                    t.skip(2),
                ));
                i = i + 2;
            } else {
                assert(t.skip(1) == b@.skip(i + 1));
                assert(before + (seq!['\n'] + line_feeds(t.skip(1))) =~= out@ + line_feeds(
                    t.skip(1),
                ));
                i = i + 1;
            }
        } else {
            out.push(c);
            assert(t.skip(1) == b@.skip(i + 1));
            assert(before + (seq![c] + line_feeds(t.skip(1))) =~= out@ + line_feeds(t.skip(1)));
            i = i + 1;
        }
    }
    assert(out@ + line_feeds(b@.skip(i as int)) =~= out@);
    out
}

/// No carriage return is left.
pub proof fn no_carriage_return_is_left(s: Seq<char>)
    ensures
        forall|i: int| 0 <= i < line_feeds(s).len() ==> #[trigger] line_feeds(s)[i] != '\r',
    decreases s.len(),
{
    if s.len() > 0 {
        let rest = if s[0] == '\r' && s.len() > 1 && s[1] == '\n' {
            s.skip(2)
        } else {
            s.skip(1)
        };
        no_carriage_return_is_left(rest);
        assert forall|i: int| 0 <= i < line_feeds(s).len() implies #[trigger] line_feeds(s)[i]
            != '\r' by {
            if i > 0 {
                assert(line_feeds(s)[i] == line_feeds(rest)[i - 1]);
            }
        }
    }
}

/// A run of a style is there for characters that all have it: it begins and ends with
/// characters `i` and `j`, and each between them has its mask.
pub proof fn runs_are_uniform(text: Seq<char>, attrs: Seq<u8>, from: int, r: int) -> (ij: (
    int,
    int,
))
    requires
        0 <= from <= attrs.len(),
        attrs.len() <= text.len(),
        units(text) <= u32::MAX,
        0 <= r < runs_from(text, attrs, from).len(),
    ensures
        from <= ij.0 < ij.1 <= attrs.len(),
        runs_from(text, attrs, from)[r].start == units(text.take(ij.0)),
        runs_from(text, attrs, from)[r].start + runs_from(text, attrs, from)[r].len == units(
            text.take(ij.1),
        ),
        runs_from(text, attrs, from)[r].mask != 0,
        forall|k: int|
            ij.0 <= k < ij.1 ==> #[trigger] attrs[k] == runs_from(text, attrs, from)[r].mask,
    decreases attrs.len() - from,
{
    let j = run_end(attrs, from, from + 1);
    lemma_run_end(attrs, from, from + 1);
    let rest = runs_from(text, attrs, j);
    if attrs[from] == 0 {
        runs_are_uniform(text, attrs, j, r)
    } else if r > 0 {
        assert(runs_from(text, attrs, from)[r] == rest[r - 1]);
        runs_are_uniform(text, attrs, j, r - 1)
    } else {
        lemma_units_bounds(text, j);
        lemma_units_bounds(text.take(j), from);
        assert(text.take(j).take(from) == text.take(from));
        (from, j)
    }
}

/// Line ends are mended one by one: mending two texts in turn is mending both together,
/// unless a line end is cut in two between them. A text without carriage returns stays as
/// it is, and each kind of line end becomes one line feed.
pub proof fn line_ends_are_mended_one_by_one(s: Seq<char>, t: Seq<char>)
    requires
        !(s.len() > 0 && s.last() == '\r' && t.len() > 0 && t[0] == '\n'),
    ensures
        line_feeds(s + t) == line_feeds(s) + line_feeds(t),
        line_feeds(seq!['\r', '\n']) == seq!['\n'],
        line_feeds(seq!['\r']) == seq!['\n'],
        (forall|i: int| 0 <= i < s.len() ==> #[trigger] s[i] != '\r') ==> line_feeds(s) == s,
    decreases s.len(),
{
    reveal_with_fuel(line_feeds, 2);
    assert(seq!['\r', '\n'].skip(2) =~= Seq::<char>::empty());
    assert(seq!['\r'].skip(1) =~= Seq::<char>::empty());
    assert(line_feeds(seq!['\r', '\n']) =~= seq!['\n']);
    assert(line_feeds(seq!['\r']) =~= seq!['\n']);
    let a = s + t;
    if s.len() == 0 {
        assert(a =~= t);
        assert(line_feeds(s) + line_feeds(t) =~= line_feeds(t));
        assert(line_feeds(s) =~= s);
    } else if s[0] == '\r' && s.len() > 1 && s[1] == '\n' {
        let u = s.skip(2);
        if u.len() > 0 {
            assert(u.last() == s.last());
        }
        assert(a.skip(2) =~= u + t);
        line_ends_are_mended_one_by_one(u, t);
        assert(line_feeds(a) =~= line_feeds(s) + line_feeds(t));
    } else {
        let u = s.skip(1);
        if u.len() > 0 {
            assert(u.last() == s.last());
        }
        assert(a.skip(1) =~= u + t);
        line_ends_are_mended_one_by_one(u, t);
        if a.len() > 1 && s[0] == '\r' {
            if s.len() > 1 {
                assert(a[1] == s[1]);
            } else {
                assert(a[1] == t[0]);
            }
        }
        assert(line_feeds(a) =~= line_feeds(s) + line_feeds(t));
        if forall|i: int| 0 <= i < s.len() ==> #[trigger] s[i] != '\r' {
            assert forall|i: int| 0 <= i < u.len() implies #[trigger] u[i] != '\r' by {
                assert(u[i] == s[i + 1]);
            }
            assert(seq![s[0]] + u =~= s);
        }
    }
}

} // verus!
