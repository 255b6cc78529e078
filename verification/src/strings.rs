//! Small helpers on strings.

use vstd::prelude::*;

verus! {

/// `String::push` appends one character.
pub assume_specification[ String::push ](s: &mut String, c: char)
    ensures
        final(s)@ == old(s)@.push(c),
;

/// `char::from_u32` gives the character of a code point, and none for a
/// surrogate or a number beyond the last code point.
#[verifier::external_body]
pub(crate) fn scalar(v: u32) -> (r: Option<char>)
    ensures
        r == if v < 0xD800 || 0xE000 <= v <= 0x10FFFF {
            Some(v as char)
        } else {
            None
        },
{
    char::from_u32(v)
}

/// The characters of a string.
pub fn chars_of(s: &str) -> (out: Vec<char>)
    ensures
        out@ == s@,
{
    let mut out: Vec<char> = Vec::new();
    for c in it: s.chars()
        invariant
            out@ == s@.take(it.index() as int),
            it.seq() == s@,
    {
        proof {
            assert(s@.take(it.index() as int + 1) == s@.take(it.index() as int).push(c));
        }
        out.push(c);
    }
    proof {
        assert(s@.take(s@.len() as int) == s@);
    }
    out
}

/// Whether two texts are equal.
pub fn is_text(a: &str, b: &str) -> (r: bool)
    ensures
        r == (a@ == b@),
{
    let x: String = a.to_owned();
    let y: String = b.to_owned();
    x == y
}

/// The string of the characters from `from` up to `to`.
pub fn string_of(b: &Vec<char>, from: usize, to: usize) -> (out: String)
    requires
        from <= to <= b@.len(),
    ensures
        out@ == b@.subrange(from as int, to as int),
{
    let mut out = String::new();
    let mut i: usize = from;
    proof {
        assert(b@.subrange(from as int, from as int) == out@);
    }
    while i < to
        invariant
            from <= i <= to <= b@.len(),
            out@ == b@.subrange(from as int, i as int),
        decreases to - i,
    {
        proof {
            assert(b@.subrange(from as int, i + 1) == b@.subrange(from as int, i as int).push(
                b@[i as int],
            ));
        }
        out.push(b[i]);
        i = i + 1;
    }
    out
}

/// A character that counts as white space.
pub open spec fn is_space(c: char) -> bool {
    ||| '\u{9}' <= c <= '\u{d}'
    ||| c == ' '
    ||| c == '\u{85}'
    ||| c == '\u{a0}'
    ||| c == '\u{1680}'
    ||| '\u{2000}' <= c <= '\u{200a}'
    ||| c == '\u{2028}'
    ||| c == '\u{2029}'
    ||| c == '\u{202f}'
    ||| c == '\u{205f}'
    ||| c == '\u{3000}'
}

/// Whether a character counts as white space.
pub fn is_whitespace(c: char) -> (r: bool)
    ensures
        r == is_space(c),
{
    let ascii = ('\u{9}' <= c && c <= '\u{d}') || c == ' ';
    let latin = c == '\u{85}' || c == '\u{a0}' || c == '\u{1680}';
    let general = ('\u{2000}' <= c && c <= '\u{200a}') || c == '\u{2028}' || c == '\u{2029}';
    ascii || latin || general || c == '\u{202f}' || c == '\u{205f}' || c == '\u{3000}'
}

/// How many UTF-16 code units a character takes.
pub open spec fn unit_len(c: char) -> nat {
    if c <= '\u{ffff}' {
        1
    } else {
        2
    }
}

/// How many UTF-16 code units a text takes.
pub open spec fn units(s: Seq<char>) -> nat
    decreases s.len(),
{
    if s.len() == 0 {
        0
    } else {
        units(s.drop_last()) + unit_len(s.last())
    }
}

/// How many UTF-16 code units a character takes.
fn len_utf16(c: char) -> (r: u32)
    ensures
        r == unit_len(c),
{
    if c <= '\u{ffff}' {
        1
    } else {
        2
    }
}

pub proof fn lemma_units_bounds(s: Seq<char>, i: int)
    requires
        0 <= i <= s.len(),
    ensures
        i <= units(s.take(i)) <= units(s),
        i < s.len() ==> units(s.take(i)) < units(s),
        i < s.len() ==> units(s.take(i + 1)) == units(s.take(i)) + unit_len(s[i]),
    decreases s.len(),
{
    if i < s.len() {
        assert(s.take(i + 1).drop_last() == s.take(i));
    }
    if i == s.len() {
        assert(s.take(i) == s);
        if i > 0 {
            lemma_units_bounds(s.drop_last(), i - 1);
            assert(s.drop_last().take(i - 1) == s.drop_last());
        }
    } else {
        lemma_units_bounds(s.drop_last(), i);
        assert(s.drop_last().take(i) == s.take(i));
    }
}

/// The UTF-16 offset of the `c`th character, or of the end.
pub fn chars_to_u16(text: &Vec<char>, c: usize) -> (r: u32)
    requires
        units(text@) <= u32::MAX,
    ensures
        r == units(
            text@.take(
                if c < text@.len() {
                    c as int
                } else {
                    text@.len() as int
                },
            ),
        ),
{
    let n: usize = if c < text.len() {
        c
    } else {
        text.len()
    };
    let mut acc: u32 = 0;
    let mut k: usize = 0;
    while k < n
        invariant
            k <= n <= text@.len(),
            units(text@) <= u32::MAX,
            acc == units(text@.take(k as int)),
        decreases n - k,
    {
        proof {
            lemma_units_bounds(text@, k as int);
            lemma_units_bounds(text@, k + 1);
        }
        acc = acc + len_utf16(text[k]);
        k = k + 1;
    }
    acc
}

/// `k` is the first character boundary at or behind the UTF-16 offset `u`, or
/// the end where there is none.
pub open spec fn is_boundary(text: Seq<char>, u: nat, k: int) -> bool {
    &&& 0 <= k <= text.len()
    &&& k < text.len() ==> units(text.take(k)) >= u
    &&& forall|j: int| 0 <= j < k ==> units(#[trigger] text.take(j)) < u
}

/// The character index of a UTF-16 offset; inside a surrogate pair it is the
/// one behind the character.
pub fn u16_to_chars(text: &Vec<char>, u: u32) -> (r: usize)
    ensures
        is_boundary(text@, u as nat, r as int),
{
    let mut acc: u64 = 0;
    let mut k: usize = 0;
    while k < text.len()
        invariant
            k <= text@.len(),
            acc == units(text@.take(k as int)),
            k > 0 ==> acc < u + 2,
            forall|j: int| 0 <= j < k ==> units(#[trigger] text@.take(j)) < u,
        decreases text@.len() - k,
    {
        if acc >= u as u64 {
            return k;
        }
        proof {
            lemma_units_bounds(text@, k as int);
        }
        acc = acc + len_utf16(text[k]) as u64;
        k = k + 1;
    }
    k
}

/// The offset of a character leads back to that character.
pub proof fn offset_round_trip(text: Seq<char>, k: int, r: int)
    requires
        0 <= k <= text.len(),
        is_boundary(text, units(text.take(k)), r),
    ensures
        r == k,
{
    if r < k {
        lemma_units_bounds(text.take(k), r);
        assert(text.take(k).take(r) == text.take(r));
        assert(text.take(k).take(k) == text.take(k));
    } else if r > k {
        assert(units(text.take(k)) < units(text.take(k)));
    }
}

/// The space, the tab and the ends of lines are white space; letters, digits and the other
/// visible characters of ASCII are none.
pub proof fn visible_characters_are_no_white_space(c: char)
    ensures
        c == ' ' || c == '\t' || c == '\n' || c == '\r' ==> is_space(c),
        '!' <= c <= '~' ==> !is_space(c),
        c < '\t' ==> !is_space(c),
        c == '\u{a0}' || c == '\u{3000}' ==> is_space(c),
{
}

/// The UTF-16 units of two texts add up; a character takes one, or two where it lies beyond
/// the first 2^16 code points.
pub proof fn units_add_up(s: Seq<char>, t: Seq<char>)
    ensures
        units(s + t) == units(s) + units(t),
        s.len() <= units(s) <= 2 * s.len(),
        (forall|i: int| 0 <= i < s.len() ==> #[trigger] s[i] <= '\u{ffff}') ==> units(s) == s.len(),
        (forall|i: int| 0 <= i < s.len() ==> #[trigger] s[i] > '\u{ffff}') ==> units(s) == 2
            * s.len(),
    decreases s.len() + t.len(),
{
    if t.len() > 0 {
        assert((s + t).drop_last() =~= s + t.drop_last());
        units_add_up(s, t.drop_last());
    } else {
        assert(s + t =~= s);
        if s.len() > 0 {
            units_add_up(s.drop_last(), t);
            let d = s.drop_last();
            if forall|i: int| 0 <= i < s.len() ==> #[trigger] s[i] <= '\u{ffff}' {
                assert forall|i: int| 0 <= i < d.len() implies #[trigger] d[i] <= '\u{ffff}' by {
                    assert(d[i] == s[i]);
                }
                assert(s[s.len() - 1] <= '\u{ffff}');
            }
            if forall|i: int| 0 <= i < s.len() ==> #[trigger] s[i] > '\u{ffff}' {
                assert forall|i: int| 0 <= i < d.len() implies #[trigger] d[i] > '\u{ffff}' by {
                    assert(d[i] == s[i]);
                }
                assert(s[s.len() - 1] > '\u{ffff}');
            }
        }
    }
}

} // verus!
