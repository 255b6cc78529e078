use liquidnotes::material::{config_json, config_path, ConfigRead, GlassMaterial, Overrides};

fn no_overrides() -> Overrides {
    Overrides {
        refraction: None,
        depth: None,
        frost: None,
        corner_radius: None,
        border_thickness: None,
        border_refract: None,
        lighting: None,
        light_angle: None,
        opacity: None,
    }
}

fn value(s: &str) -> f32 {
    s.parse::<f32>().unwrap()
}

#[test]
fn material_json_is_partial_alias_aware_and_bounded() {
    let material = GlassMaterial::from_json(
        r#"{
                "blur": 2.25,
                "refraction": 999,
                "rim_width": -5,
                "opacity": 0.0,
                "unknown_future_control": 12
            }"#,
    )
    .unwrap();
    assert_eq!(value(&material.frost), 2.25);
    assert_eq!(value(&material.refraction), 160.0);
    assert_eq!(value(&material.border_thickness), 0.0);
    assert_eq!(material.opacity, GlassMaterial::default().opacity);
    assert_eq!(material.depth, GlassMaterial::default().depth);
}

#[test]
fn generated_material_config_round_trips_defaults() {
    let defaults = GlassMaterial::default();
    let parsed = GlassMaterial::from_json(&config_json(&defaults)).unwrap();
    assert_eq!(parsed, defaults);
}

#[test]
fn the_document_shows_plain_numbers() {
    let mut given = GlassMaterial::from_json(
        r#"{"refraction":1.5e2,"depth":5e-1,"blur":12e0,"rim_width":1e-7,"lighting":1e-400,
            "light_angle":90.0}"#,
    )
    .unwrap();
    given.opacity = "2.50e-1".to_string();
    let text = config_json(&given);
    for line in [
        "\"refraction\": 150,",
        "\"depth\": 0.5,",
        "\"blur\": 12,",
        "\"rim_width\": 0.0000001,",
        "\"lighting\": 0,",
        "\"light_angle\": 90\n",
    ] {
        assert!(text.contains(line), "{line}");
    }
    let parsed = GlassMaterial::from_json(&text).unwrap();
    assert_eq!(parsed.refraction, "150");
    assert_eq!(parsed.border_thickness, "0.0000001");
    assert_eq!(parsed.opacity, GlassMaterial::default().opacity);
    assert_eq!(config_json(&parsed), text);
}

#[test]
fn invalid_material_json_fails_cleanly() {
    assert!(GlassMaterial::from_json("not json").is_none());
    assert!(GlassMaterial::from_json("[]").is_none());
}

#[test]
fn generated_config_explains_itself() {
    let text = config_json(&GlassMaterial::default());
    assert_eq!(
        text,
        r#"{
  "_instructions": "Edit the numeric values, save, then restart LiquidNotes.",
  "_ranges": {
    "refraction": "0..160 px; 0 disables backdrop bending",
    "depth": "0..1; how far the curved dome reaches into the note",
    "blur": "0..12 px Gaussian sigma; 0 disables both blur passes",
    "corner_radius": "0..128 px",
    "rim_width": "0..20 px",
    "rim_refraction": "0..3; extra bending at the edge",
    "lighting": "0..2; rim and highlight strength",
    "light_angle": "0..360 degrees"
  },
  "refraction": 60,
  "depth": 0.5,
  "blur": 1,
  "corner_radius": 32,
  "rim_width": 2.7,
  "rim_refraction": 0.7,
  "lighting": 0.35,
  "light_angle": 135
}
"#
    );
}

#[test]
fn later_names_override_and_aliases_count() {
    let m = GlassMaterial::from_json(
        r#"{"frost":3,"blur":4,"border_refract":1e1,"rim_refraction":2.5,"lighting":1e99,
            "light_angle":-1e-9,"depth":1.0}"#,
    )
    .unwrap();
    assert_eq!(m.frost, "4");
    assert_eq!(m.border_refract, "2.5");
    assert_eq!(m.lighting, "0.35");
    assert_eq!(m.light_angle, "0");
    assert_eq!(m.depth, "1");
}

#[test]
fn sanitizing_twice_changes_nothing() {
    let wild = GlassMaterial {
        refraction: "1e3".to_string(),
        depth: "NaN".to_string(),
        frost: "-0.0".to_string(),
        corner_radius: "127.9".to_string(),
        border_thickness: "20".to_string(),
        border_refract: "3.0000001".to_string(),
        lighting: "inf".to_string(),
        light_angle: "359".to_string(),
        opacity: "0.75".to_string(),
    };
    let once = wild.sanitized();
    assert_eq!(once.refraction, "160");
    assert_eq!(once.depth, "0.5");
    assert_eq!(once.frost, "0");
    assert_eq!(once.corner_radius, "127.9");
    assert_eq!(once.border_thickness, "20");
    assert_eq!(once.border_refract, "3");
    assert_eq!(once.lighting, "0.35");
    assert_eq!(once.light_angle, "359");
    assert_eq!(once.opacity, "0.75");
    let twice = once.clone().sanitized();
    assert_eq!(once, twice);
}

#[test]
fn environment_has_the_last_word() {
    let mut o = no_overrides();
    o.frost = Some("20".to_string());
    o.opacity = Some("0.5".to_string());
    let m = GlassMaterial::from_env(o);
    assert_eq!(m.frost, "12");
    assert_eq!(m.opacity, "0.5");
    assert_eq!(m.refraction, "60");

    let (m, template) = GlassMaterial::load(ConfigRead::Missing, no_overrides());
    assert_eq!(m, GlassMaterial::default());
    assert_eq!(template.unwrap(), config_json(&GlassMaterial::default()));

    let mut o = no_overrides();
    o.refraction = Some("5".to_string());
    let (m, template) = GlassMaterial::load(
        ConfigRead::Text("{\"refraction\":7,\"depth\":0.25}".to_string()),
        o,
    );
    assert_eq!(m.refraction, "5");
    assert_eq!(m.depth, "0.25");
    assert!(template.is_none());

    let (m, template) = GlassMaterial::load(ConfigRead::Text("?".to_string()), no_overrides());
    assert_eq!(m, GlassMaterial::default());
    assert!(template.is_none());
    let (m, template) = GlassMaterial::load(ConfigRead::Failed, no_overrides());
    assert_eq!(m, GlassMaterial::default());
    assert!(template.is_none());
}

#[test]
fn clear_glass() {
    let z = GlassMaterial::zero();
    assert_eq!(z.refraction, "0");
    assert_eq!(z.lighting, "0");
    assert_eq!(z.corner_radius, "32");
    assert_eq!(z.opacity, "0.25");
}

#[test]
fn config_lies_beside_the_notes() {
    assert_eq!(
        config_path(Some("A".to_string()), "T".to_string()),
        vec!["A", "liquidnotes", "material.json"]
    );
}
