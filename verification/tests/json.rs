use liquidnotes::json::{parse_document, Json, Parser};
use liquidnotes::json_text::{escape, push_pretty, push_value};

fn text(j: &Json) -> String {
    let mut s = String::new();
    push_value(&mut s, j);
    s
}

#[test]
fn values_of_every_kind() {
    let doc = " { \"a\" : [ null , true,false, -1.5E+3, \"x\" ] , \"b\" : { } , \"c\":[] } ";
    let j = parse_document(doc).unwrap();
    assert_eq!(
        text(&j),
        "{\"a\":[null,true,false,-1.5E+3,\"x\"],\"b\":{},\"c\":[]}"
    );
    assert!(matches!(j.get("b"), Some(Json::Obj(_))));
    assert!(j.get("d").is_none());
    assert!(j.get("c").unwrap().get("x").is_none());
}

#[test]
fn malformed_documents() {
    for s in [
        "", "nul", "tru", "{", "[", "[1,]", "[1 2]", "{\"a\"}", "{\"a\":}", "{\"a\":1,}", "{a:1}",
        "\"abc", "\"\\x\"", "\"\\u12\"", "\"\\u12g4\"", "\"\n\"", "-", ".5", "1e", "1e+", "- 1",
        "\"\\udc00\"", "\"\\ud800\\u0041\"", "+1", "1 1", "01", "-01", "00", "1.", "-.5", "0.e1", "1.e5",
        "{\"next_id\":01}", "[1.]", "[-]", "0x1", "1e5.0",
    ] {
        assert!(parse_document(s).is_none(), "{s}");
    }
}

#[test]
fn numbers_are_kept_as_they_are_written() {
    for s in ["0", "-0", "0.50", "10", "-12.0", "1e5", "1E-5", "0e+1", "120.5e-07"] {
        match parse_document(s) {
            Some(Json::Num(t)) => assert_eq!(t, s),
            other => panic!("{s}: {other:?}"),
        }
        assert!(s.parse::<f64>().is_ok());
    }
}

#[test]
fn every_escape() {
    let j = parse_document("\"\\\"\\\\\\/\\b\\f\\n\\r\\t\\u00e9\\uD83D\\uDE42\"").unwrap();
    match j {
        Json::Str(s) => assert_eq!(s, "\"\\/\u{8}\u{c}\n\r\té🙂"),
        _ => panic!("no string"),
    }
    assert_eq!(
        escape("\"\\\n\r\t\u{0}\u{1f} é🙂"),
        "\\\"\\\\\\n\\r\\t\\u0000\\u001f é🙂"
    );
}

#[test]
fn integers_and_numbers() {
    let j = parse_document("[12, 1.5, 1e400, \"1\", -0.0]").unwrap();
    let items = match j {
        Json::Arr(v) => v,
        _ => panic!("no array"),
    };
    assert_eq!(items[0].integer(), Some(12));
    assert_eq!(items[1].integer(), None);
    assert_eq!(items[1].num().unwrap(), "1.5");
    assert_eq!(items[2].integer(), None);
    assert_eq!(items[3].integer(), None);
    assert!(items[3].num().is_none());
    assert_eq!(items[4].integer(), Some(0));
}

#[test]
fn reading_step_by_step() {
    let mut p = Parser::new(" \t\r\n{x");
    p.skip_ws();
    assert_eq!(p.peek(), Some('{'));
    assert!(!p.eat('['));
    assert!(p.eat('{'));
    assert!(p.expect_lit("xy").is_none());
    assert!(p.expect_lit("x").is_some());
    assert_eq!(p.peek(), None);
    let mut h = Parser::new("00fF1");
    assert_eq!(h.hex4(), Some(0xff));
    assert_eq!(h.hex4(), None);
    let mut s = Parser::new("\"ab\"c");
    assert_eq!(s.string().unwrap(), "ab");
    assert_eq!(s.peek(), Some('c'));
    // Where no string begins, the reader stays where it is.
    assert!(s.string().is_none());
    assert_eq!((s.i, s.peek()), (4, Some('c')));
}

#[test]
fn pretty_text_reads_back() {
    let j = parse_document("{\"a\":1,\"b\":{\"c\":\"x\",\"d\":[1,2]},\"e\":{}}").unwrap();
    let mut s = String::new();
    push_pretty(&mut s, &j, 0);
    assert_eq!(
        s,
        "{\n  \"a\": 1,\n  \"b\": {\n    \"c\": \"x\",\n    \"d\": [1,2]\n  },\n  \"e\": {}\n}"
    );
    assert_eq!(text(&parse_document(&s).unwrap()), text(&j));
}
