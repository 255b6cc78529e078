//! Styled text, and the markup that keeps it on disk: `<b>`, `<i>` and `<s>`
//! with their closing tags, and `&amp;`, `&lt;` and `&gt;`.

use vstd::prelude::*;
use crate::number::at;
use crate::strings::chars_of;

verus! {

/// Style bits, one mask per character.
pub const A_BOLD: u8 = 1;

pub const A_ITALIC: u8 = 2;

pub const A_STRIKE: u8 = 4;

/// Characters, each with its style mask.
pub type Styled = Seq<(char, u8)>;

/// A tag at the start of `s`: its style bit, whether it opens, and its length.
pub open spec fn tag_at(s: Seq<char>) -> Option<(u8, bool, int)> {
    if at(s, 0, '<') && at(s, 1, 'b') && at(s, 2, '>') {
        Some((A_BOLD, true, 3))
    } else if at(s, 0, '<') && at(s, 1, 'i') && at(s, 2, '>') {
        Some((A_ITALIC, true, 3))
    } else if at(s, 0, '<') && at(s, 1, 's') && at(s, 2, '>') {
        Some((A_STRIKE, true, 3))
    } else if at(s, 0, '<') && at(s, 1, '/') && at(s, 2, 'b') && at(s, 3, '>') {
        Some((A_BOLD, false, 4))
    } else if at(s, 0, '<') && at(s, 1, '/') && at(s, 2, 'i') && at(s, 3, '>') {
        Some((A_ITALIC, false, 4))
    } else if at(s, 0, '<') && at(s, 1, '/') && at(s, 2, 's') && at(s, 3, '>') {
        Some((A_STRIKE, false, 4))
    } else {
        None
    }
}

/// An escaped character at the start of `s`, and the length of the escape.
pub open spec fn entity_at(s: Seq<char>) -> Option<(char, int)> {
    if at(s, 0, '&') && at(s, 1, 'a') && at(s, 2, 'm') && at(s, 3, 'p') && at(s, 4, ';') {
        Some(('&', 5))
    } else if at(s, 0, '&') && at(s, 1, 'l') && at(s, 2, 't') && at(s, 3, ';') {
        Some(('<', 4))
    } else if at(s, 0, '&') && at(s, 1, 'g') && at(s, 2, 't') && at(s, 3, ';') {
        Some(('>', 4))
    } else {
        None
    }
}

/// A mask with a style bit set or cleared.
pub open spec fn with_bit(mask: u8, bit: u8, on: bool) -> u8 {
    if on {
        mask | bit
    } else {
        mask & !bit
    }
}

/// What markup says, the style `mask` being in force at its start. What is no
/// tag and no escape stands for itself.
pub open spec fn markup(s: Seq<char>, mask: u8) -> Styled
    decreases s.len(),
{
    if s.len() == 0 {
        Seq::empty()
    } else {
        match tag_at(s) {
            Some((bit, on, n)) => markup(s.skip(n), with_bit(mask, bit, on)),
            None => match entity_at(s) {
                Some((c, n)) => seq![(c, mask)] + markup(s.skip(n), mask),
                None => seq![(s[0], mask)] + markup(s.skip(1), mask),
            },
        }
    }
}

/// A character as markup writes it.
pub open spec fn entity(c: char) -> Seq<char> {
    if c == '&' {
        seq!['&', 'a', 'm', 'p', ';']
    } else if c == '<' {
        seq!['&', 'l', 't', ';']
    } else if c == '>' {
        seq!['&', 'g', 't', ';']
    } else {
        seq![c]
    }
}

/// The mask has the style.
pub open spec fn has_bit(mask: u8, bit: u8) -> bool {
    mask & bit != 0
}

/// The outermost of the nested styles (bold, italic, strike) in which two masks
/// differ.
pub open spec fn outermost(a: u8, b: u8) -> int {
    if has_bit(a, A_BOLD) != has_bit(b, A_BOLD) {
        0
    } else if has_bit(a, A_ITALIC) != has_bit(b, A_ITALIC) {
        1
    } else if has_bit(a, A_STRIKE) != has_bit(b, A_STRIKE) {
        2
    } else {
        3
    }
}

/// An opening tag, where it is wanted.
pub open spec fn opener(wanted: bool, c: char) -> Seq<char> {
    if wanted {
        seq!['<', c, '>']
    } else {
        Seq::empty()
    }
}

/// A closing tag, where it is wanted.
pub open spec fn closer(wanted: bool, c: char) -> Seq<char> {
    if wanted {
        seq!['<', '/', c, '>']
    } else {
        Seq::empty()
    }
}

/// The closing tags of `mask`, innermost first, out to the style `from`.
pub open spec fn closers(mask: u8, from: int) -> Seq<char> {
    closer(from <= 2 && has_bit(mask, A_STRIKE), 's') + (closer(from <= 1 && has_bit(mask, A_ITALIC), 'i')
        + closer(from <= 0 && has_bit(mask, A_BOLD), 'b'))
}

/// The opening tags of `mask`, outermost first, from the style `from` in.
pub open spec fn openers(mask: u8, from: int) -> Seq<char> {
    opener(from <= 0 && has_bit(mask, A_BOLD), 'b') + (opener(from <= 1 && has_bit(mask, A_ITALIC), 'i')
        + opener(from <= 2 && has_bit(mask, A_STRIKE), 's'))
}

/// The markup of styled text, the style `cur` being in force at its start.
/// Where the style changes, the tags are closed out to the outermost change and
/// what is needed is opened again, so that they nest.
pub open spec fn markup_text(t: Styled, cur: u8) -> Seq<char>
    decreases t.len(),
{
    if t.len() == 0 {
        closers(cur, 0)
    } else {
        let m = t[0].1;
        let f = outermost(cur, m);
        closers(cur, f) + (openers(m, f) + (entity(t[0].0) + markup_text(t.skip(1), m)))
    }
}

/// Text with style masks; a character without a mask is plain.
pub open spec fn styled(text: Seq<char>, attrs: Seq<u8>) -> Styled {
    Seq::new(
        text.len(),
        |k: int|
            (
                text[k],
                if k < attrs.len() {
                    attrs[k]
                } else {
                    0
                },
            ),
    )
}

/// The mask has no bits but the three styles.
pub open spec fn style_mask(m: u8) -> bool {
    m < 8
}

proof fn lemma_opener(wanted: bool, c: char, bit: u8, rest: Seq<char>, mask: u8)
    requires
        (c == 'b' && bit == A_BOLD) || (c == 'i' && bit == A_ITALIC) || (c == 's' && bit
            == A_STRIKE),
    ensures
        markup(opener(wanted, c) + rest, mask) == markup(
            rest,
            if wanted {
                mask | bit
            } else {
                mask
            },
        ),
{
    let s = opener(wanted, c) + rest;
    if wanted {
        assert(s[0] == '<' && s[1] == c && s[2] == '>');
        assert(s.skip(3) == rest);
    } else {
        assert(s == rest);
    }
}

proof fn lemma_closer(wanted: bool, c: char, bit: u8, rest: Seq<char>, mask: u8)
    requires
        (c == 'b' && bit == A_BOLD) || (c == 'i' && bit == A_ITALIC) || (c == 's' && bit
            == A_STRIKE),
    ensures
        markup(closer(wanted, c) + rest, mask) == markup(
            rest,
            if wanted {
                mask & !bit
            } else {
                mask
            },
        ),
{
    let s = closer(wanted, c) + rest;
    if wanted {
        assert(s[0] == '<' && s[1] == '/' && s[2] == c && s[3] == '>');
        assert(s.skip(4) == rest);
    } else {
        assert(s == rest);
    }
}

/// The mask after the closing tags out to `f`.
spec fn closed(mask: u8, f: int) -> u8 {
    let a = if f <= 2 && has_bit(mask, A_STRIKE) {
        mask & !A_STRIKE
    } else {
        mask
    };
    let b = if f <= 1 && has_bit(mask, A_ITALIC) {
        a & !A_ITALIC
    } else {
        a
    };
    if f <= 0 && has_bit(mask, A_BOLD) {
        b & !A_BOLD
    } else {
        b
    }
}

/// The mask after opening the tags of `mask` from `f` in.
spec fn opened(start: u8, mask: u8, f: int) -> u8 {
    let a = if f <= 0 && has_bit(mask, A_BOLD) {
        start | A_BOLD
    } else {
        start
    };
    let b = if f <= 1 && has_bit(mask, A_ITALIC) {
        a | A_ITALIC
    } else {
        a
    };
    if f <= 2 && has_bit(mask, A_STRIKE) {
        b | A_STRIKE
    } else {
        b
    }
}

proof fn lemma_closers(cur: u8, f: int, rest: Seq<char>)
    ensures
        markup(closers(cur, f) + rest, cur) == markup(rest, closed(cur, f)),
{
    let s = closer(f <= 2 && has_bit(cur, A_STRIKE), 's');
    let i = closer(f <= 1 && has_bit(cur, A_ITALIC), 'i');
    let b = closer(f <= 0 && has_bit(cur, A_BOLD), 'b');
    assert(closers(cur, f) + rest == s + (i + (b + rest)));
    lemma_closer(f <= 2 && has_bit(cur, A_STRIKE), 's', A_STRIKE, i + (b + rest), cur);
    let m1 = if f <= 2 && has_bit(cur, A_STRIKE) {
        cur & !A_STRIKE
    } else {
        cur
    };
    lemma_closer(f <= 1 && has_bit(cur, A_ITALIC), 'i', A_ITALIC, b + rest, m1);
    let m2 = if f <= 1 && has_bit(cur, A_ITALIC) {
        m1 & !A_ITALIC
    } else {
        m1
    };
    lemma_closer(f <= 0 && has_bit(cur, A_BOLD), 'b', A_BOLD, rest, m2);
}

proof fn lemma_openers(start: u8, m: u8, f: int, rest: Seq<char>)
    ensures
        markup(openers(m, f) + rest, start) == markup(rest, opened(start, m, f)),
{
    let b = opener(f <= 0 && has_bit(m, A_BOLD), 'b');
    let i = opener(f <= 1 && has_bit(m, A_ITALIC), 'i');
    let s = opener(f <= 2 && has_bit(m, A_STRIKE), 's');
    assert(openers(m, f) + rest == b + (i + (s + rest)));
    lemma_opener(f <= 0 && has_bit(m, A_BOLD), 'b', A_BOLD, i + (s + rest), start);
    let m1 = if f <= 0 && has_bit(m, A_BOLD) {
        start | A_BOLD
    } else {
        start
    };
    lemma_opener(f <= 1 && has_bit(m, A_ITALIC), 'i', A_ITALIC, s + rest, m1);
    let m2 = if f <= 1 && has_bit(m, A_ITALIC) {
        m1 | A_ITALIC
    } else {
        m1
    };
    lemma_opener(f <= 2 && has_bit(m, A_STRIKE), 's', A_STRIKE, rest, m2);
}

/// Closing out to the outermost change and opening again leads from one mask to
/// the other.
proof fn lemma_switch(cur: u8, m: u8)
    requires
        style_mask(cur),
        style_mask(m),
    ensures
        opened(closed(cur, outermost(cur, m)), m, outermost(cur, m)) == m,
        closed(cur, 0) == 0,
{
    assert(({
        let a = if cur & 4 != 0 {
            cur & !4u8
        } else {
            cur
        };
        let b = if cur & 2 != 0 {
            a & !2u8
        } else {
            a
        };
        let c = if cur & 1 != 0 {
            b & !1u8
        } else {
            b
        };
        c == 0
    })) by (bit_vector)
        requires
            cur < 8,
    ;
    assert(({
        let b = if m & 1 != 0 {
            0 | 1u8
        } else {
            0u8
        };
        let i = if m & 2 != 0 {
            b | 2u8
        } else {
            b
        };
        let s = if m & 4 != 0 {
            i | 4u8
        } else {
            i
        };
        s == m
    })) by (bit_vector)
        requires
            m < 8,
    ;
    assert(((cur & 1 != 0) == (m & 1 != 0)) ==> ({
        let a = if cur & 4 != 0 {
            cur & !4u8
        } else {
            cur
        };
        let b = if cur & 2 != 0 {
            a & !2u8
        } else {
            a
        };
        let i = if m & 2 != 0 {
            b | 2u8
        } else {
            b
        };
        let s = if m & 4 != 0 {
            i | 4u8
        } else {
            i
        };
        s == m
    })) by (bit_vector)
        requires
            m < 8,
            cur < 8,
    ;
    assert((((cur & 1 != 0) == (m & 1 != 0)) && ((cur & 2 != 0) == (m & 2 != 0))) ==> ({
        let a = if cur & 4 != 0 {
            cur & !4u8
        } else {
            cur
        };
        let s = if m & 4 != 0 {
            a | 4u8
        } else {
            a
        };
        s == m
    })) by (bit_vector)
        requires
            m < 8,
            cur < 8,
    ;
    assert((((cur & 1 != 0) == (m & 1 != 0)) && ((cur & 2 != 0) == (m & 2 != 0)) && ((cur & 4 != 0)
        == (m & 4 != 0))) ==> cur == m) by (bit_vector)
        requires
            m < 8,
            cur < 8,
    ;
}

proof fn lemma_entity(c: char, rest: Seq<char>, m: u8)
    ensures
        markup(entity(c) + rest, m) == seq![(c, m)] + markup(rest, m),
{
    let e = entity(c);
    let s = e + rest;
    assert(s[0] == e[0]);
    assert(s.skip(e.len() as int) == rest);
    if e.len() > 1 {
        assert(s[1] == e[1] && s[2] == e[2] && s[3] == e[3]);
        if e.len() == 5 {
            assert(s[4] == e[4]);
        }
        assert(entity_at(s) == Some((c, e.len() as int)));
    } else {
        assert(entity_at(s) is None);
    }
    assert(tag_at(s) is None);
}

proof fn lemma_markup_read_back(t: Styled, cur: u8)
    requires
        style_mask(cur),
        forall|i: int| 0 <= i < t.len() ==> style_mask((#[trigger] t[i]).1),
    ensures
        markup(markup_text(t, cur), cur) == t,
    decreases t.len(),
{
    if t.len() == 0 {
        let e = Seq::<char>::empty();
        assert(closers(cur, 0) + e == closers(cur, 0));
        lemma_closers(cur, 0, e);
        assert(t == Seq::<(char, u8)>::empty());
    } else {
        let m = t[0].1;
        let f = outermost(cur, m);
        let u = t.skip(1);
        assert forall|i: int| 0 <= i < u.len() implies style_mask((#[trigger] u[i]).1) by {
            assert(u[i] == t[i + 1]);
        }
        let rest = markup_text(u, m);
        let body = entity(t[0].0) + rest;
        lemma_closers(cur, f, openers(m, f) + body);
        lemma_openers(closed(cur, f), m, f, body);
        lemma_switch(cur, m);
        lemma_entity(t[0].0, rest, m);
        lemma_markup_read_back(u, m);
        assert(seq![t[0]] + u == t);
    }
    if t.len() == 0 {
        lemma_switch(cur, cur);
    }
}

/// Styled text is read back from its markup, character for character and style
/// for style.
pub proof fn markup_round_trip(text: Seq<char>, attrs: Seq<u8>)
    requires
        attrs.len() == text.len(),
        forall|i: int| 0 <= i < attrs.len() ==> style_mask(#[trigger] attrs[i]),
    ensures
        markup(markup_text(styled(text, attrs), 0), 0) == styled(text, attrs),
{
    let t = styled(text, attrs);
    assert forall|i: int| 0 <= i < t.len() implies style_mask((#[trigger] t[i]).1) by {
        assert(t[i].1 == attrs[i]);
    }
    lemma_markup_read_back(t, 0);
}

/// Text in which nothing is a tag or an escape is plain text.
pub proof fn untagged_is_plain(s: Seq<char>)
    requires
        forall|i: int|
            0 <= i < s.len() ==> tag_at(#[trigger] s.skip(i)) is None && entity_at(s.skip(i)) is None,
    ensures
        markup(s, 0) == styled(s, Seq::empty()),
    decreases s.len(),
{
    if s.len() > 0 {
        let u = s.skip(1);
        assert(s.skip(0) == s);
        assert forall|i: int| 0 <= i < u.len() implies tag_at(#[trigger] u.skip(i)) is None
            && entity_at(u.skip(i)) is None by {
            assert(u.skip(i) == s.skip(i + 1));
        }
        untagged_is_plain(u);
        assert(styled(s, Seq::empty()) == seq![(s[0], 0u8)] + styled(u, Seq::empty()));
    } else {
        assert(styled(s, Seq::empty()) == Seq::<(char, u8)>::empty());
    }
}

/// Plain text without the three special characters is its own markup.
pub proof fn plain_stays_plain(s: Seq<char>)
    requires
        forall|i: int|
            0 <= i < s.len() ==> #[trigger] s[i] != '&' && s[i] != '<' && s[i] != '>',
    ensures
        markup_text(styled(s, Seq::empty()), 0) == s,
    decreases s.len(),
{
    let t = styled(s, Seq::empty());
    assert(!has_bit(0, A_BOLD) && !has_bit(0, A_ITALIC) && !has_bit(0, A_STRIKE)) by {
        assert(0u8 & 1 == 0 && 0u8 & 2 == 0 && 0u8 & 4 == 0) by (bit_vector);
    }
    assert(closers(0, 0) == Seq::<char>::empty());
    assert(closers(0, 3) == Seq::<char>::empty());
    assert(openers(0, 3) == Seq::<char>::empty());
    if s.len() > 0 {
        let u = s.skip(1);
        assert forall|i: int| 0 <= i < u.len() implies #[trigger] u[i] != '&' && u[i] != '<'
            && u[i] != '>' by {
            assert(u[i] == s[i + 1]);
        }
        plain_stays_plain(u);
        assert(t.skip(1) == styled(u, Seq::empty()));
        assert(s[0] == s[0]);
        assert(markup_text(t, 0) == seq![s[0]] + u);
        assert(seq![s[0]] + u == s);
    } else {
        assert(s == Seq::<char>::empty());
    }
}

/// Whether `b` holds `c` at `i`.
fn holds(b: &Vec<char>, i: usize, k: usize, c: char) -> (r: bool)
    requires
        i <= b@.len(),
    ensures
        r == at(b@.skip(i as int), k as int, c),
        r ==> i + k < b@.len(),
{
    k < b.len() - i && b[i + k] == c
}

/// The tag at `i`.
fn read_tag(b: &Vec<char>, i: usize) -> (r: Option<(u8, bool, usize)>)
    requires
        i <= b@.len(),
    ensures
        match r {
            Some((bit, on, n)) => tag_at(b@.skip(i as int)) == Some((bit, on, n as int)) && n > 0
                && i + n <= b@.len(),
            None => tag_at(b@.skip(i as int)) is None,
        },
{
    if !holds(b, i, 0, '<') {
        return None;
    }
    if holds(b, i, 2, '>') {
        if holds(b, i, 1, 'b') {
            return Some((A_BOLD, true, 3));
        }
        if holds(b, i, 1, 'i') {
            return Some((A_ITALIC, true, 3));
        }
        if holds(b, i, 1, 's') {
            return Some((A_STRIKE, true, 3));
        }
    }
    if holds(b, i, 1, '/') && holds(b, i, 3, '>') {
        if holds(b, i, 2, 'b') {
            return Some((A_BOLD, false, 4));
        }
        if holds(b, i, 2, 'i') {
            return Some((A_ITALIC, false, 4));
        }
        if holds(b, i, 2, 's') {
            return Some((A_STRIKE, false, 4));
        }
    }
    None
}

/// The escaped character at `i`.
fn read_entity(b: &Vec<char>, i: usize) -> (r: Option<(char, usize)>)
    requires
        i <= b@.len(),
    ensures
        match r {
            Some((c, n)) => entity_at(b@.skip(i as int)) == Some((c, n as int)) && n > 0 && i + n
                <= b@.len(),
            None => entity_at(b@.skip(i as int)) is None,
        },
{
    if !holds(b, i, 0, '&') {
        return None;
    }
    if holds(b, i, 1, 'a') && holds(b, i, 2, 'm') && holds(b, i, 3, 'p') && holds(b, i, 4, ';') {
        return Some(('&', 5));
    }
    if holds(b, i, 2, 't') && holds(b, i, 3, ';') {
        if holds(b, i, 1, 'l') {
            return Some(('<', 4));
        }
        if holds(b, i, 1, 'g') {
            return Some(('>', 4));
        }
    }
    None
}

/// Reads markup into characters and their style masks.
pub fn parse_html(s: &str) -> (r: (Vec<char>, Vec<u8>))
    ensures
        r.0@.len() == r.1@.len(),
        styled(r.0@, r.1@) == markup(s@, 0),
        forall|k: int| 0 <= k < r.1@.len() ==> style_mask(#[trigger] r.1@[k]),
{
    let b = chars_of(s);
    let mut text: Vec<char> = Vec::new();
    let mut attrs: Vec<u8> = Vec::new();
    let mut mask: u8 = 0;
    let mut i: usize = 0;
    proof {
        assert(b@.skip(0) == b@);
        assert(styled(text@, attrs@) + markup(b@, 0) == markup(b@, 0));
    }
    while i < b.len()
        invariant
            i <= b@.len(),
            b@ == s@,
            style_mask(mask),
            text@.len() == attrs@.len(),
            forall|k: int| 0 <= k < attrs@.len() ==> style_mask(#[trigger] attrs@[k]),
            styled(text@, attrs@) + markup(b@.skip(i as int), mask) == markup(s@, 0),
        decreases b@.len() - i,
    {
        let ghost before = styled(text@, attrs@);
        let ghost rest = b@.skip(i as int);
        if let Some((bit, on, n)) = read_tag(&b, i) {
            assert(rest.skip(n as int) == b@.skip(i + n));
            let next: u8 = if on {
                mask | bit
            } else {
                mask & !bit
            };
            assert((mask | bit) < 8 && (mask & !bit) < 8) by (bit_vector)
                requires
                    mask < 8,
                    bit == 1 || bit == 2 || bit == 4,
            ;
            mask = next;
            i = i + n;
            continue;
        }
        let (c, n) = match read_entity(&b, i) {
            Some(e) => e,
            None => (b[i], 1),
        };
        assert(rest.skip(n as int) == b@.skip(i + n));
        text.push(c);
        attrs.push(mask);
        proof {
            assert(styled(text@, attrs@) =~= before.push((c, mask)));
            let more = markup(rest.skip(n as int), mask);
            assert(before.push((c, mask)) + more == before + (seq![(c, mask)] + more));
        }
        i = i + n;
    }
    assert(styled(text@, attrs@) + Seq::<(char, u8)>::empty() == styled(text@, attrs@));
    (text, attrs)
}

/// Appends an opening tag, where it is wanted.
fn push_opener(out: &mut String, wanted: bool, c: char)
    ensures
        final(out)@ == old(out)@ + opener(wanted, c),
{
    let ghost w = out@;
    if wanted {
        out.push('<');
        out.push(c);
        out.push('>');
    }
    assert(out@ == w + opener(wanted, c));
}

/// Appends a closing tag, where it is wanted.
fn push_closer(out: &mut String, wanted: bool, c: char)
    ensures
        final(out)@ == old(out)@ + closer(wanted, c),
{
    let ghost w = out@;
    if wanted {
        out.push('<');
        out.push('/');
        out.push(c);
        out.push('>');
    }
    assert(out@ == w + closer(wanted, c));
}

/// Appends the closing tags of a mask out to a style.
fn push_closers(out: &mut String, mask: u8, from: u8)
    ensures
        final(out)@ == old(out)@ + closers(mask, from as int),
{
    let ghost w = out@;
    push_closer(out, from <= 2 && mask & A_STRIKE != 0, 's');
    push_closer(out, from <= 1 && mask & A_ITALIC != 0, 'i');
    push_closer(out, from == 0 && mask & A_BOLD != 0, 'b');
    assert(out@ == w + closers(mask, from as int));
}

/// Appends the opening tags of a mask from a style in.
fn push_openers(out: &mut String, mask: u8, from: u8)
    ensures
        final(out)@ == old(out)@ + openers(mask, from as int),
{
    let ghost w = out@;
    push_opener(out, from == 0 && mask & A_BOLD != 0, 'b');
    push_opener(out, from <= 1 && mask & A_ITALIC != 0, 'i');
    push_opener(out, from <= 2 && mask & A_STRIKE != 0, 's');
    assert(out@ == w + openers(mask, from as int));
}

/// Appends a character as markup writes it.
fn push_entity(out: &mut String, c: char)
    ensures
        final(out)@ == old(out)@ + entity(c),
{
    let ghost w = out@;
    if c == '&' {
        out.append("&amp;");
        proof {
            reveal_strlit("&amp;");
        }
    } else if c == '<' {
        out.append("&lt;");
        proof {
            reveal_strlit("&lt;");
        }
    } else if c == '>' {
        out.append("&gt;");
        proof {
            reveal_strlit("&gt;");
        }
    } else {
        out.push(c);
    }
    assert(out@ =~= w + entity(c));
}

/// Appends the tags that lead from one mask to another.
fn push_change(out: &mut String, cur: u8, m: u8)
    ensures
        final(out)@ == old(out)@ + closers(cur, outermost(cur, m)) + openers(
            m,
            outermost(cur, m),
        ),
{
    let f: u8 = if (cur & A_BOLD != 0) != (m & A_BOLD != 0) {
        0
    } else if (cur & A_ITALIC != 0) != (m & A_ITALIC != 0) {
        1
    } else if (cur & A_STRIKE != 0) != (m & A_STRIKE != 0) {
        2
    } else {
        3
    };
    push_closers(out, cur, f);
    push_openers(out, m, f);
}

proof fn lemma_regroup(w: Seq<char>, c: Seq<char>, o: Seq<char>, e: Seq<char>, more: Seq<char>)
    ensures
        w + (c + (o + (e + more))) == w + c + o + e + more,
{
    assert(w + (c + (o + (e + more))) =~= w + c + o + e + more);
}

/// The markup of styled text.
pub fn note_html(text: &Vec<char>, attrs: &Vec<u8>) -> (out: String)
    ensures
        out@ == markup_text(styled(text@, attrs@), 0),
{
    let ghost t = styled(text@, attrs@);
    let mut out = String::new();
    let mut cur: u8 = 0;
    let mut k: usize = 0;
    assert(t.skip(0) == t);
    assert(out@ + markup_text(t, 0) == markup_text(t, 0));
    while k < text.len()
        invariant
            k <= text@.len(),
            t == styled(text@, attrs@),
            out@ + markup_text(t.skip(k as int), cur) == markup_text(t, 0),
        decreases text@.len() - k,
    {
        let ghost before = out@;
        let ghost u = t.skip(k as int);
        let m: u8 = if k < attrs.len() {
            attrs[k]
        } else {
            0
        };
        assert(u[0] == (text@[k as int], m));
        assert(u.skip(1) == t.skip(k + 1));
        push_change(&mut out, cur, m);
        push_entity(&mut out, text[k]);
        proof {
            let more = markup_text(u.skip(1), m);
            let f = outermost(cur, m);
            let c = closers(cur, f);
            let o = openers(m, f);
            let e = entity(u[0].0);
            assert(markup_text(u, cur) == c + (o + (e + more)));
            lemma_regroup(before, c, o, e, more);
        }
        cur = m;
        k = k + 1;
    }
    push_closers(&mut out, cur, 0);
    out
}

/// The tags in `s` nest, `open` being open at its start: italic stands inside
/// bold and strike inside both, each tag closes the innermost open one, and all
/// are closed at the end.
pub open spec fn nested(s: Seq<char>, open: Seq<u8>) -> bool
    decreases s.len(),
{
    if s.len() == 0 {
        open.len() == 0
    } else {
        match tag_at(s) {
            Some((bit, on, n)) => if on {
                (open.len() > 0 ==> open.last() < bit) && nested(s.skip(n), open.push(bit))
            } else {
                open.len() > 0 && open.last() == bit && nested(s.skip(n), open.drop_last())
            },
            None => nested(s.skip(1), open),
        }
    }
}

/// The bit of a style, where the mask has it and it lies outside the style
/// `upto`.
spec fn one_open(mask: u8, bit: u8, within: bool) -> Seq<u8> {
    if within && has_bit(mask, bit) {
        seq![bit]
    } else {
        Seq::empty()
    }
}

/// The tags of a mask that are open outside the style `upto`.
spec fn outer(mask: u8, upto: int) -> Seq<u8> {
    one_open(mask, A_BOLD, upto > 0) + one_open(mask, A_ITALIC, upto > 1) + one_open(
        mask,
        A_STRIKE,
        upto > 2,
    )
}

/// The bit of the style at a level of nesting, and its letter.
spec fn level_bit(level: int) -> u8 {
    if level == 0 {
        A_BOLD
    } else if level == 1 {
        A_ITALIC
    } else {
        A_STRIKE
    }
}

spec fn level_char(level: int) -> char {
    if level == 0 {
        'b'
    } else if level == 1 {
        'i'
    } else {
        's'
    }
}

proof fn lemma_outer(mask: u8, level: int)
    requires
        0 <= level <= 2,
    ensures
        outer(mask, level + 1) == if has_bit(mask, level_bit(level)) {
            outer(mask, level).push(level_bit(level))
        } else {
            outer(mask, level)
        },
        outer(mask, level).len() > 0 ==> outer(mask, level).last() < level_bit(level),
{
    let a = outer(mask, level);
    let b = outer(mask, level + 1);
    if has_bit(mask, level_bit(level)) {
        assert(b =~= a.push(level_bit(level)));
    } else {
        assert(b =~= a);
    }
}

proof fn lemma_nested_closer(mask: u8, level: int, rest: Seq<char>)
    requires
        0 <= level <= 2,
        nested(rest, outer(mask, level)),
    ensures
        nested(
            closer(has_bit(mask, level_bit(level)), level_char(level)) + rest,
            outer(mask, level + 1),
        ),
{
    let w = closer(has_bit(mask, level_bit(level)), level_char(level));
    let s = w + rest;
    lemma_outer(mask, level);
    if has_bit(mask, level_bit(level)) {
        assert(s[0] == '<' && s[1] == '/' && s[2] == level_char(level) && s[3] == '>');
        assert(s.skip(4) == rest);
        assert(tag_at(s) == Some((level_bit(level), false, 4int)));
        assert(outer(mask, level + 1).drop_last() == outer(mask, level));
    } else {
        assert(s == rest);
    }
}

proof fn lemma_nested_opener(mask: u8, level: int, rest: Seq<char>)
    requires
        0 <= level <= 2,
        nested(rest, outer(mask, level + 1)),
    ensures
        nested(
            opener(has_bit(mask, level_bit(level)), level_char(level)) + rest,
            outer(mask, level),
        ),
{
    let w = opener(has_bit(mask, level_bit(level)), level_char(level));
    let s = w + rest;
    lemma_outer(mask, level);
    if has_bit(mask, level_bit(level)) {
        assert(s[0] == '<' && s[1] == level_char(level) && s[2] == '>');
        assert(s.skip(3) == rest);
        assert(tag_at(s) == Some((level_bit(level), true, 3int)));
    } else {
        assert(s == rest);
    }
}

proof fn lemma_nested_closers(mask: u8, f: int, rest: Seq<char>)
    requires
        0 <= f <= 3,
        nested(rest, outer(mask, f)),
    ensures
        nested(closers(mask, f) + rest, outer(mask, 3)),
{
    let s = closer(f <= 2 && has_bit(mask, A_STRIKE), 's');
    let i = closer(f <= 1 && has_bit(mask, A_ITALIC), 'i');
    let b = closer(f <= 0 && has_bit(mask, A_BOLD), 'b');
    assert(closers(mask, f) + rest == s + (i + (b + rest)));
    if f <= 0 {
        lemma_nested_closer(mask, 0, rest);
    } else {
        assert(b + rest == rest);
    }
    if f <= 1 {
        lemma_nested_closer(mask, 1, b + rest);
    } else {
        assert(i + (b + rest) == rest);
    }
    if f <= 2 {
        lemma_nested_closer(mask, 2, i + (b + rest));
    } else {
        assert(s + (i + (b + rest)) == rest);
    }
}

proof fn lemma_nested_openers(mask: u8, f: int, rest: Seq<char>)
    requires
        0 <= f <= 3,
        nested(rest, outer(mask, 3)),
    ensures
        nested(openers(mask, f) + rest, outer(mask, f)),
{
    let b = opener(f <= 0 && has_bit(mask, A_BOLD), 'b');
    let i = opener(f <= 1 && has_bit(mask, A_ITALIC), 'i');
    let s = opener(f <= 2 && has_bit(mask, A_STRIKE), 's');
    assert(openers(mask, f) + rest == b + (i + (s + rest)));
    if f <= 2 {
        lemma_nested_opener(mask, 2, rest);
    } else {
        assert(s + rest == rest);
    }
    if f <= 1 {
        lemma_nested_opener(mask, 1, s + rest);
    } else {
        assert(i + (s + rest) == s + rest);
    }
    if f <= 0 {
        lemma_nested_opener(mask, 0, i + (s + rest));
    } else {
        assert(b + (i + (s + rest)) == i + (s + rest));
    }
}

proof fn lemma_nested_text(w: Seq<char>, rest: Seq<char>, open: Seq<u8>)
    requires
        forall|i: int| 0 <= i < w.len() ==> #[trigger] w[i] != '<',
        nested(rest, open),
    ensures
        nested(w + rest, open),
    decreases w.len(),
{
    let s = w + rest;
    if w.len() == 0 {
        assert(s == rest);
    } else {
        let v = w.skip(1);
        assert(w[0] != '<');
        assert forall|i: int| 0 <= i < v.len() implies #[trigger] v[i] != '<' by {
            assert(v[i] == w[i + 1]);
        }
        lemma_nested_text(v, rest, open);
        assert(s[0] == w[0]);
        assert(s.skip(1) == v + rest);
    }
}

proof fn lemma_markup_nests(t: Styled, cur: u8)
    ensures
        nested(markup_text(t, cur), outer(cur, 3)),
    decreases t.len(),
{
    if t.len() == 0 {
        let e = Seq::<char>::empty();
        assert(closers(cur, 0) + e == closers(cur, 0));
        assert(outer(cur, 0) =~= Seq::<u8>::empty());
        lemma_nested_closers(cur, 0, e);
    } else {
        let m = t[0].1;
        let f = outermost(cur, m);
        let rest = markup_text(t.skip(1), m);
        let e = entity(t[0].0);
        lemma_markup_nests(t.skip(1), m);
        lemma_nested_text(e, rest, outer(m, 3));
        lemma_nested_openers(m, f, e + rest);
        assert(outer(m, f) =~= outer(cur, f));
        lemma_nested_closers(cur, f, openers(m, f) + (e + rest));
    }
}

/// The tags of the markup of any text nest, bold outside italic outside strike,
/// and all are closed at its end.
pub proof fn markup_is_well_formed(t: Styled)
    ensures
        nested(markup_text(t, 0), Seq::empty()),
{
    lemma_markup_nests(t, 0);
    assert(0u8 & 1 == 0 && 0u8 & 2 == 0 && 0u8 & 4 == 0) by (bit_vector);
    assert(outer(0, 3) =~= Seq::<u8>::empty());
}

/// A tag turns one style on or off for what follows it, and shows nothing itself:
/// `b` is bold, `i` italic and `s` struck through.
pub proof fn tags_turn_styles_on_and_off(s: Seq<char>, mask: u8)
    ensures
        markup(seq!['<', 'b', '>'] + s, mask) == markup(s, mask | 1),
        markup(seq!['<', 'i', '>'] + s, mask) == markup(s, mask | 2),
        markup(seq!['<', 's', '>'] + s, mask) == markup(s, mask | 4),
        markup(seq!['<', '/', 'b', '>'] + s, mask) == markup(s, mask & !1u8),
        markup(seq!['<', '/', 'i', '>'] + s, mask) == markup(s, mask & !2u8),
        markup(seq!['<', '/', 's', '>'] + s, mask) == markup(s, mask & !4u8),
{
    assert((seq!['<', 'b', '>'] + s).skip(3) == s);
    assert((seq!['<', 'i', '>'] + s).skip(3) == s);
    assert((seq!['<', 's', '>'] + s).skip(3) == s);
    assert((seq!['<', '/', 'b', '>'] + s).skip(4) == s);
    assert((seq!['<', '/', 'i', '>'] + s).skip(4) == s);
    assert((seq!['<', '/', 's', '>'] + s).skip(4) == s);
}

/// An escape stands for one character, in the style that is in force.
pub proof fn escapes_stand_for_one_character(s: Seq<char>, mask: u8)
    ensures
        markup(seq!['&', 'a', 'm', 'p', ';'] + s, mask) == seq![('&', mask)] + markup(s, mask),
        markup(seq!['&', 'l', 't', ';'] + s, mask) == seq![('<', mask)] + markup(s, mask),
        markup(seq!['&', 'g', 't', ';'] + s, mask) == seq![('>', mask)] + markup(s, mask),
{
    assert((seq!['&', 'a', 'm', 'p', ';'] + s).skip(5) == s);
    assert((seq!['&', 'l', 't', ';'] + s).skip(4) == s);
    assert((seq!['&', 'g', 't', ';'] + s).skip(4) == s);
}

/// Any other character stands for itself, in the style that is in force: the
/// signs that open a tag or an escape too, where none follows.
pub proof fn other_characters_stand_for_themselves(c: char, s: Seq<char>, mask: u8)
    requires
        c == '<' ==> s.len() == 0 || (s[0] != 'b' && s[0] != 'i' && s[0] != 's' && s[0] != '/') || (
        s[0] != '/' && (s.len() == 1 || s[1] != '>')) || (s[0] == '/' && (s.len() < 3 || s[2] != '>'
            || (s[1] != 'b' && s[1] != 'i' && s[1] != 's'))),
        c == '&' ==> s.len() == 0 || (s[0] != 'a' && s[0] != 'l' && s[0] != 'g') || (forall|i: int|
            0 <= i < s.len() ==> #[trigger] s[i] != ';'),
    ensures
        markup(seq![c] + s, mask) == seq![(c, mask)] + markup(s, mask),
{
    let t = seq![c] + s;
    assert(t.skip(1) == s);
    assert(t[0] == c);
    assert(forall|i: int| 0 <= i < s.len() ==> #[trigger] t[i + 1] == s[i]);
    if c == '&' && s.len() > 0 {
        assert(t[1] == s[0]);
        if s.len() > 2 {
            assert(t[3] == s[2]);
        }
        if s.len() > 3 {
            assert(t[4] == s[3]);
        }
    }
    if c == '<' && s.len() > 0 {
        assert(t[1] == s[0]);
        if s.len() > 1 {
            assert(t[2] == s[1]);
        }
        if s.len() > 2 {
            assert(t[3] == s[2]);
        }
    }
}

} // verus!
