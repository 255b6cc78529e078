use liquidnotes::store::{
    load, parse, parse_number_fields, save_atomic, store_dir, store_path, temp_name, to_json,
    NoteData, SaveStep, Store,
};

fn sample_store() -> Store {
    Store {
        version: 1,
        next_id: 7,
        notes: vec![
            NoteData {
                id: 1,
                text: "plain \"quotes\" and back\\slash".to_string(),
                x: 10,
                y: 20,
                w: 340,
                h: 260,
                free: true,
                docked: 0,
                color: 0,
                font_size: "16.0".to_string(),
            },
            NoteData {
                id: 3,
                text: "line one\nline two\twith tab\rand cr\u{0001}ctl".to_string(),
                x: -50,
                y: 0,
                w: 200,
                h: 150,
                free: false,
                docked: -1,
                color: 4,
                font_size: "13.5".to_string(),
            },
            NoteData {
                id: 6,
                text: "café … 你好 🙂".to_string(),
                x: 999,
                y: 888,
                w: 150,
                h: 120,
                free: true,
                docked: 1,
                color: 255,
                font_size: "22.25".to_string(),
            },
        ],
    }
}

#[test]
fn round_trip() {
    let original = sample_store();
    let json = to_json(&original);
    let parsed = parse(&json).expect("round-trip parse failed");
    assert_eq!(parsed, original);
}

#[test]
fn document_text_is_compact() {
    let store = Store {
        version: 1,
        next_id: 2,
        notes: vec![NoteData {
            id: 1,
            text: "a\u{1f}b".to_string(),
            x: -5,
            y: 6,
            w: 7,
            h: 8,
            free: false,
            docked: -1,
            color: 3,
            font_size: "16.0".to_string(),
        }],
    };
    assert_eq!(
        to_json(&store),
        "{\"version\":1,\"next_id\":2,\"notes\":[{\"id\":1,\"text\":\"a\\u001fb\",\"x\":-5,\
         \"y\":6,\"w\":7,\"h\":8,\"free\":false,\"docked\":-1,\"color\":3,\"font_size\":16.0}]}"
    );
    assert_eq!(
        to_json(&Store::default()),
        "{\"version\":1,\"next_id\":1,\"notes\":[]}"
    );
}

#[test]
fn garbage_and_missing_file_default() {
    assert!(parse("").is_none());
    assert!(parse("not json at all").is_none());
    assert!(parse("{\"version\":1,").is_none());
    assert!(parse("[1,2,3]").is_none());
    assert_eq!(load(None), Store::default());
}

#[test]
fn load_reads_what_was_saved() {
    let original = sample_store();
    assert_eq!(load(Some(to_json(&original))), original);
    assert_eq!(load(Some("{".to_string())), Store::default());
}

#[test]
fn missing_optional_fields_get_defaults() {
    let json = r#"{"version":1,"next_id":9,"notes":[
            {"h":260,"w":340,"y":20,"x":10,"text":"hi","id":2}
        ]}"#;
    let store = parse(json).expect("parse failed");
    assert_eq!(store.next_id, 9);
    assert_eq!(store.notes.len(), 1);
    let n = &store.notes[0];
    assert_eq!(n.id, 2);
    assert_eq!(n.text, "hi");
    assert_eq!((n.x, n.y, n.w, n.h), (10, 20, 340, 260));
    assert!(n.free);
    assert_eq!(n.docked, 0);
    assert_eq!(n.color, 0);
    assert_eq!(n.font_size, "16.0");
    assert_eq!(n.font_size.parse::<f32>().unwrap(), 16.0);
}

#[test]
fn skips_invalid_notes() {
    let json = r#"{"version":1,"next_id":5,"notes":[
            {"text":"no id","x":1,"y":2,"w":10,"h":10},
            {"id":1,"text":"bad geom","x":1,"y":2,"w":0,"h":10},
            {"id":2,"text":"ok","x":1,"y":2,"w":10,"h":10}
        ]}"#;
    let store = parse(json).expect("parse failed");
    assert_eq!(store.notes.len(), 1);
    assert_eq!(store.notes[0].id, 2);
}

#[test]
fn unicode_escapes_unescape() {
    // Verbatim multibyte UTF-8 plus a \t escape pass through unchanged.
    let json = r#"{"version":1,"next_id":2,"notes":[
            {"id":1,"text":"aAé你🙂\tb","x":0,"y":0,"w":10,"h":10}
        ]}"#;
    let store = parse(json).expect("parse failed");
    assert_eq!(store.notes[0].text, "aAé你🙂\tb");

    // \uXXXX escapes: BMP chars and a surrogate pair (U+1F642).
    let json2 = "{\"version\":1,\"next_id\":2,\"notes\":[{\"id\":1,\
            \"text\":\"a\\u0041 \\u00e9 \\u4f60 \\ud83d\\ude42\",\
            \"x\":0,\"y\":0,\"w\":10,\"h\":10}]}";
    let store2 = parse(json2).expect("parse2 failed");
    assert_eq!(store2.notes[0].text, "aA \u{e9} \u{4f60} \u{1f642}");

    // Lone/mismatched surrogates are rejected.
    assert!(parse(
        "{\"version\":1,\"next_id\":1,\"notes\":[{\"id\":1,\
            \"text\":\"x\\ud83dx\",\"x\":0,\"y\":0,\"w\":1,\"h\":1}]}"
    )
    .is_none());
}

#[test]
fn numbers_of_a_note_are_read_as_doubles() {
    let json = r#"{"notes":[{"id":1e2,"x":1,"y":-2.0,"w":1.5e1,"h":10,
        "docked":200,"color":-1,"free":0,"font_size":"big"}]}"#;
    let store = parse(json).expect("parse failed");
    let n = &store.notes[0];
    assert_eq!((n.id, n.x, n.y, n.w, n.h), (100, 1, -2, 15, 10));
    assert_eq!((n.docked, n.color, n.free), (0, 0, true));
    assert_eq!(n.font_size, "16.0");
    assert_eq!((store.version, store.next_id), (1, 1));
}

#[test]
fn places_and_sizes_that_no_coordinate_holds() {
    for (key, value) in [
        ("x", "2147483648"),
        ("x", "-2147483649"),
        ("y", "4294967297"),
        ("w", "4294967306"),
        ("h", "1e10"),
        ("h", "-4294967286"),
        ("w", "-1"),
        ("id", "-1"),
        ("id", "1e19"),
    ] {
        let mut doc = String::from("{\"notes\":[{");
        for (k, v) in [("id", "7"), ("x", "1"), ("y", "2"), ("w", "3"), ("h", "4")] {
            let v = if k == key { value } else { v };
            doc.push_str(&format!("\"{k}\":{v},"));
        }
        doc.push_str("\"text\":\"t\"}]}");
        assert!(parse(&doc).unwrap().notes.is_empty(), "{doc}");
    }
    let edge = r#"{"notes":[{"id":9223372036854775807,"x":-2147483648,"y":2147483647,
        "w":2147483647,"h":1}]}"#;
    let n = &parse(edge).unwrap().notes[0];
    assert_eq!((n.id, n.x, n.y, n.w), (i64::MAX as u64, i32::MIN, i32::MAX, i32::MAX));
}

#[test]
fn wrong_types_load_the_empty_store() {
    for doc in [
        r#"{"version":1,"next_id":7,"notes":5}"#,
        r#"{"version":"1","next_id":7,"notes":[]}"#,
        r#"{"version":1,"next_id":true,"notes":[]}"#,
        r#"{"next_id":7,"notes":[{"id":1,"x":1,"y":2,"w":3,"h":4,"text":5}]}"#,
        r#"{"next_id":7,"notes":[{"id":1,"x":1,"y":2,"w":3,"h":4,"free":0}]}"#,
        r#"{"next_id":7,"notes":[{"id":1,"x":1,"y":2,"w":3,"h":4,"font_size":"big"}]}"#,
        "[1]",
        "{",
        "",
    ] {
        assert_eq!(load(Some(doc.to_string())), Store::default(), "{doc}");
    }
    // A note without an identity is skipped, whatever stands in its place.
    let doc = r#"{"next_id":7,"notes":[3,{"id":"a","x":1,"y":2,"w":3,"h":4}]}"#;
    let st = load(Some(doc.to_string()));
    assert_eq!((st.next_id, st.notes.len()), (7, 0));
    let st = sample_store();
    assert_eq!(load(Some(to_json(&st))), st);
}

#[test]
fn sizes_are_written_with_a_point() {
    let mut store = sample_store();
    for (read, written) in [
        ("16", "16.0"),
        ("1.50", "1.5"),
        ("-3.00", "-3.0"),
        ("0", "0.0"),
        ("12.25", "12.25"),
        ("100", "100.0"),
        ("1e1", "10.0"),
        ("1E+1", "10.0"),
        ("2.50e0", "2.5"),
        ("1e16", "10000000000000000.0"),
        ("1e-7", "0.0000001"),
        ("-12.5e-3", "-0.0125"),
        ("0.00125e4", "12.5"),
        ("1.5e38", "150000000000000000000000000000000000000.0"),
        ("0e5", "0.0"),
        ("-0", "-0.0"),
        ("1e-400", "0.0"),
        ("-1e-400", "-0.0"),
        ("7e-46", "0.0"),
        ("1e-99999999999999999999999999999", "0.0"),
    ] {
        let doc = format!("{{\"notes\":[{{\"id\":1,\"x\":0,\"y\":0,\"w\":1,\"h\":1,\"font_size\":{read}}}]}}");
        assert_eq!(parse(&doc).unwrap().notes[0].font_size, written);
        store.notes[0].font_size = read.to_string();
        assert_eq!(parse(&to_json(&store)).unwrap().notes[0].font_size, written);
        let plain = format!("{}", read.parse::<f64>().unwrap() as f32);
        let point = if plain.contains('.') { "" } else { ".0" };
        assert_eq!(format!("{plain}{point}"), written);
    }
}

#[test]
fn digits_beyond_single_precision_stay() {
    let mut store = sample_store();
    for (given, written) in [
        ("16.123456789012345", "16.123456789012345"),
        ("1.00000000000000000001e0", "1.00000000000000000001"),
        ("1e-45", "0.000000000000000000000000000000000000000000001"),
    ] {
        store.notes[0].font_size = given.to_string();
        let note = parse(&to_json(&store)).unwrap().notes[0].clone();
        assert_eq!(note.font_size, written);
        let single = |t: &str| t.parse::<f64>().unwrap() as f32;
        assert_eq!(single(&note.font_size), single(given));
    }
}

#[test]
fn sizes_that_are_no_numbers_are_written_as_zero() {
    let mut store = sample_store();
    store.notes[0].font_size = "inf".to_string();
    store.notes[1].font_size = "1e39".to_string();
    store.notes[2].font_size = ".5".to_string();
    let parsed = parse(&to_json(&store)).expect("parse failed");
    for n in &parsed.notes {
        assert_eq!(n.font_size, "0.0");
    }
}

#[test]
fn the_first_of_two_fields_counts() {
    let store = parse(r#"{"next_id":4,"next_id":5}"#).expect("parse failed");
    assert_eq!(store.next_id, 4);
    assert!(parse("{} x").is_none());
    assert!(parse(" {} ").is_some());
}

#[test]
fn directories_and_names() {
    let strs = |v: Vec<String>| v.join("/");
    assert_eq!(
        strs(store_dir(Some("A".to_string()), "T".to_string())),
        "A/liquidnotes"
    );
    assert_eq!(
        strs(store_dir(Some(String::new()), "T".to_string())),
        "T/liquidnotes"
    );
    assert_eq!(
        strs(store_path(None, "T".to_string())),
        "T/liquidnotes/notes.json"
    );
    assert_eq!(temp_name(&"notes.json".to_string()), "notes.json.tmp");
}

#[test]
fn saving_renames_only_what_was_written() {
    assert_eq!(save_atomic(SaveStep::WriteTemp, true), SaveStep::Rename);
    assert_eq!(save_atomic(SaveStep::WriteTemp, false), SaveStep::Failed);
    assert_eq!(save_atomic(SaveStep::Rename, true), SaveStep::Saved);
    assert_eq!(save_atomic(SaveStep::Rename, false), SaveStep::RemoveTemp);
    assert_eq!(save_atomic(SaveStep::RemoveTemp, true), SaveStep::Failed);
    assert_eq!(save_atomic(SaveStep::Saved, false), SaveStep::Saved);
    assert_eq!(save_atomic(SaveStep::Failed, true), SaveStep::Failed);
}

#[test]
fn number_fields_keep_their_order() {
    let f = parse_number_fields(r#"{"a":1,"b":"x","c":-2.5e1,"a":3}"#).unwrap();
    let f: Vec<(&str, &str)> = f.iter().map(|(k, v)| (k.as_str(), v.as_str())).collect();
    assert_eq!(f, vec![("a", "1"), ("c", "-2.5e1"), ("a", "3")]);
    assert!(parse_number_fields("[1]").is_none());
    assert!(parse_number_fields("{\"a\":1").is_none());
}

#[test]
fn rewriting_a_document_changes_nothing() {
    let doc = r#" {"notes":[{"font_size":15e-1,"id":9223372036854775807,"x":1e2,"y":-0.0,
        "w":10,"h":7,"text":"\u00e9"},7,{}],"next_id":9007199254740993,"version":3} "#;
    let once = parse(doc).unwrap();
    assert_eq!(once.next_id, 9007199254740992);
    assert_eq!(once.notes.len(), 1);
    assert_eq!(once.notes[0].id, i64::MAX as u64);
    assert_eq!((once.notes[0].w, once.notes[0].font_size.as_str()), (10, "1.5"));
    assert_eq!(parse(&to_json(&once)).unwrap(), once);
}

#[test]
fn field_order_is_free() {
    let a = parse(r#"{"version":2,"next_id":3,"notes":[{"id":1,"x":2,"y":3,"w":4,"h":5}]}"#);
    let b = parse(r#"{"notes":[{"h":5,"w":4,"y":3,"x":2,"id":1}],"next_id":3,"version":2}"#);
    assert_eq!(a.unwrap(), b.unwrap());
    let doc = r#"{"notes":[{"text":"t","h":5,"free":false,"w":4,"y":3,"x":2,"id":1}],"next_id":3}"#;
    let same = r#"{"next_id":3,"notes":[{"id":1,"x":2,"y":3,"w":4,"h":5,"free":false,"text":"t"}]}"#;
    assert_eq!(load(Some(doc.to_string())), load(Some(same.to_string())));
    assert_eq!(parse(doc).unwrap().notes[0].text, "t");
}
