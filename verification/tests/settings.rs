use liquidnotes::settings::{load_settings, settings_json, settings_path, Settings};

#[test]
fn settings_are_read_back() {
    let s = Settings {
        user_scale: 0x133_3333,
        layout_scale: 0x200_0000,
        slide_out: true,
    };
    let text = settings_json(s);
    assert_eq!(
        text,
        "{\"user_scale\":20132659,\"layout_scale\":33554432,\"slide_out\":true}"
    );
    assert_eq!(load_settings(Some(text)), s);
    let first = Settings::default();
    assert_eq!(
        (first.user_scale, first.layout_scale, first.slide_out),
        (0x100_0000, 0x100_0000, false)
    );
    assert_eq!(load_settings(Some(settings_json(first))), first);
}

#[test]
fn settings_that_are_missing_are_as_at_first() {
    let first = Settings::default();
    assert_eq!(load_settings(None), first);
    for doc in [
        "",
        "{",
        "[]",
        "{}",
        "{\"user_scale\":1,\"layout_scale\":99999999}",
        "{\"user_scale\":\"x\",\"slide_out\":1}",
    ] {
        assert_eq!(load_settings(Some(doc.to_string())), first, "{doc}");
    }
    let only = load_settings(Some("{\"slide_out\":true}".to_string()));
    assert!(only.slide_out && only.user_scale == 0x100_0000);
}

#[test]
fn settings_lie_beside_the_notes() {
    let p = settings_path(Some("A".to_string()), "T".to_string());
    assert_eq!(p.join("/"), "A/liquidnotes/settings.json");
    let p = settings_path(None, "T".to_string());
    assert_eq!(p.join("/"), "T/liquidnotes/settings.json");
}
