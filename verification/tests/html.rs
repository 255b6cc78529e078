use liquidnotes::html::{note_html, parse_html, A_BOLD, A_ITALIC, A_STRIKE};
use liquidnotes::strings::{chars_to_u16, is_whitespace, u16_to_chars};
use liquidnotes::text::{normalize_newlines, shown_text, style_runs, StyleRun};

fn chars(s: &str) -> Vec<char> {
    s.chars().collect()
}

#[test]
fn markup_nests_and_escapes() {
    let text = chars("a<b&c>");
    let attrs = vec![0, A_BOLD, A_BOLD | A_ITALIC, A_ITALIC, A_STRIKE, 0];
    assert_eq!(
        note_html(&text, &attrs),
        "a<b>&lt;<i>b</i></b><i>&amp;</i><s>c</s>&gt;"
    );
    assert_eq!(note_html(&chars("plain\ntext"), &vec![0; 10]), "plain\ntext");
    assert_eq!(
        note_html(&chars("xy"), &vec![A_BOLD | A_ITALIC | A_STRIKE]),
        "<b><i><s>x</s></i></b>y"
    );
}

#[test]
fn every_change_of_style_reads_back() {
    for a in 0..8u8 {
        for b in 0..8u8 {
            for c in 0..8u8 {
                let text = chars("<&>");
                let attrs = vec![a, b, c];
                let html = note_html(&text, &attrs);
                assert_eq!(parse_html(&html), (text, attrs), "{html}");
            }
        }
    }
}

#[test]
fn what_is_no_tag_is_text() {
    let (t, a) = parse_html("a <u>b</u> &nbsp; <b & <B> </ b>");
    assert_eq!(t, chars("a <u>b</u> &nbsp; <b & <B> </ b>"));
    assert!(a.iter().all(|&m| m == 0));
    let (t, a) = parse_html("</b>x<b>y<b>z</b>w&amp;lt;");
    assert_eq!(t, chars("xyzw&lt;"));
    assert_eq!(a, vec![0, 1, 1, 0, 0, 0, 0, 0]);
    assert_eq!(parse_html(""), (vec![], vec![]));
}

#[test]
fn white_space_is_that_of_unicode() {
    for c in '\0'..=char::MAX {
        assert_eq!(is_whitespace(c), c.is_whitespace(), "{c:?}");
    }
}

#[test]
fn utf16_offsets() {
    let t = chars("a🙂é🙂");
    assert_eq!(chars_to_u16(&t, 0), 0);
    assert_eq!(chars_to_u16(&t, 2), 3);
    assert_eq!(chars_to_u16(&t, 4), 6);
    assert_eq!(chars_to_u16(&t, 99), 6);
    assert_eq!(u16_to_chars(&t, 0), 0);
    assert_eq!(u16_to_chars(&t, 1), 1);
    assert_eq!(u16_to_chars(&t, 2), 2);
    assert_eq!(u16_to_chars(&t, 3), 2);
    assert_eq!(u16_to_chars(&t, 5), 4);
    assert_eq!(u16_to_chars(&t, u32::MAX), 4);
    for k in 0..=t.len() {
        assert_eq!(u16_to_chars(&t, chars_to_u16(&t, k)), k);
        let s: String = t[..k].iter().collect();
        assert_eq!(chars_to_u16(&t, k) as usize, s.encode_utf16().count());
    }
}

#[test]
fn runs_of_styles() {
    let t = chars("ab🙂cd");
    let runs = style_runs(&t, &vec![1, 1, 1, 0, 4]);
    assert_eq!(
        runs,
        vec![
            StyleRun {
                start: 0,
                len: 4,
                mask: 1
            },
            StyleRun {
                start: 5,
                len: 1,
                mask: 4
            },
        ]
    );
    assert_eq!(style_runs(&chars("a"), &vec![2, 2, 3]).len(), 1);
    assert!(style_runs(&t, &vec![]).is_empty());
    assert!(style_runs(&vec![], &vec![1]).is_empty());
}

#[test]
fn an_empty_note_shows_a_hint() {
    assert_eq!(shown_text(&vec![]), "Type a note…");
    assert_eq!(shown_text(&chars("x y")), "x y");
}

#[test]
fn line_ends_of_the_clipboard() {
    for s in ["a\r\nb\rc\nd", "\r\r\n\n\r", "", "plain"] {
        assert_eq!(
            normalize_newlines(s),
            s.replace("\r\n", "\n").replace('\r', "\n")
        );
    }
}
