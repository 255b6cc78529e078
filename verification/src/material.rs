//! The glass material: its controls, their ranges, and the document that the
//! user edits them in.
//!
//! A control is a decimal number, kept as its text. A control of zero disables
//! the optical effect it belongs to.

use vstd::prelude::*;
use crate::double::digits_number;
use crate::double::p10;
use crate::json::document;
use crate::json::lemma_object_view;
use crate::json::members_view;
use crate::json::Json;
use crate::json::Value;
use crate::json_text::depth;
use crate::json_text::lemma_pretty_read_back;
use crate::json_text::number_text;
use crate::json_text::pretty_text;
use crate::json_text::printable;
use crate::json_text::push_pretty;
use crate::number::at_least;
use crate::number::check_number;
use crate::number::decimal;
use crate::number::digit_value;
use crate::number::int_text;
use crate::number::is_number;
use crate::number::lemma_int_text;
use crate::number::lemma_scan_point;
use crate::number::number_at_least;
use crate::number::scan;
use crate::number::SINGLE_LIMIT;
use crate::plain::before_point;
use crate::plain::behind_point;
use crate::plain::lemma_shown;
use crate::plain::lemma_shown_at_least;
use crate::plain::lemma_shown_placed;
use crate::plain::lemma_tidy_integer;
use crate::plain::point_text;
use crate::plain::shown;
use crate::plain::shown_number;
use crate::store::dir_of;
use crate::store::field_views;
use crate::store::number_fields;
use crate::store::number_members;
use crate::store::parse_number_fields;
use crate::store::path_view;
use crate::store::store_dir;
use crate::store::text_view;
use crate::strings::chars_of;
use crate::strings::is_text;

verus! {

/// The controls of the glass.
#[derive(Clone, Debug, PartialEq)]
pub struct GlassMaterial {
    /// How strongly the backdrop warps, in pixels of displacement.
    pub refraction: String,
    /// Dome control: 0 hugs the border, 1 reaches the centre of the note.
    pub depth: String,
    /// Gaussian sigma in pixels. 0 skips both frost passes.
    pub frost: String,
    pub corner_radius: String,
    /// Width of the refractive rim zone, in pixels.
    pub border_thickness: String,
    /// Additional displacement at the rim.
    pub border_refract: String,
    /// Rim and highlight intensity.
    pub lighting: String,
    /// Direction of the highlight, in degrees.
    pub light_angle: String,
    /// Adaptive tint, from clear (0) to solid (1).
    pub opacity: String,
}

/// What the controls say.
pub ghost struct MaterialValue {
    pub refraction: Seq<char>,
    pub depth: Seq<char>,
    pub frost: Seq<char>,
    pub corner_radius: Seq<char>,
    pub border_thickness: Seq<char>,
    pub border_refract: Seq<char>,
    pub lighting: Seq<char>,
    pub light_angle: Seq<char>,
    pub opacity: Seq<char>,
}

impl View for GlassMaterial {
    type V = MaterialValue;

    open spec fn view(&self) -> MaterialValue {
        MaterialValue {
            refraction: self.refraction@,
            depth: self.depth@,
            frost: self.frost@,
            corner_radius: self.corner_radius@,
            border_thickness: self.border_thickness@,
            border_refract: self.border_refract@,
            lighting: self.lighting@,
            light_angle: self.light_angle@,
            opacity: self.opacity@,
        }
    }
}

/// The material of a first start.
pub open spec fn default_material() -> MaterialValue {
    MaterialValue {
        refraction: "60"@,
        depth: "0.5"@,
        frost: "1"@,
        corner_radius: "32"@,
        border_thickness: "2.7"@,
        border_refract: "0.7"@,
        lighting: "0.35"@,
        light_angle: "135"@,
        opacity: "0.25"@,
    }
}

impl Default for GlassMaterial {
    fn default() -> (r: Self)
        ensures
            r@ == default_material(),
    {
        GlassMaterial {
            refraction: "60".to_owned(),
            depth: "0.5".to_owned(),
            frost: "1".to_owned(),
            corner_radius: "32".to_owned(),
            border_thickness: "2.7".to_owned(),
            border_refract: "0.7".to_owned(),
            lighting: "0.35".to_owned(),
            light_angle: "135".to_owned(),
            opacity: "0.25".to_owned(),
        }
    }
}

/// A control brought into the range from 0 to `max`, whose text is `max_text`.
/// What single precision cannot hold becomes `fallback`.
pub open spec fn bounded_text(
    t: Seq<char>,
    fallback: Seq<char>,
    max: nat,
    max_text: Seq<char>,
) -> Seq<char> {
    if !is_number(t) || at_least(t, SINGLE_LIMIT as nat) {
        fallback
    } else if scan(t).neg {
        "0"@
    } else if at_least(t, max) {
        max_text
    } else {
        t
    }
}

/// Every control brought into its range.
pub open spec fn sanitized_material(m: MaterialValue) -> MaterialValue {
    let d = default_material();
    MaterialValue {
        refraction: bounded_text(m.refraction, d.refraction, 160, "160"@),
        depth: bounded_text(m.depth, d.depth, 1, "1"@),
        frost: bounded_text(m.frost, d.frost, 12, "12"@),
        corner_radius: bounded_text(m.corner_radius, d.corner_radius, 128, "128"@),
        border_thickness: bounded_text(m.border_thickness, d.border_thickness, 20, "20"@),
        border_refract: bounded_text(m.border_refract, d.border_refract, 3, "3"@),
        lighting: bounded_text(m.lighting, d.lighting, 2, "2"@),
        light_angle: bounded_text(m.light_angle, d.light_angle, 360, "360"@),
        opacity: bounded_text(m.opacity, d.opacity, 1, "1"@),
    }
}

/// The material with one control set by its name in the document. The opacity
/// belongs to the slider in the application, so its name sets nothing, nor does
/// any other name.
pub open spec fn with_field(m: MaterialValue, key: Seq<char>, t: Seq<char>) -> MaterialValue {
    if key == "refraction"@ {
        MaterialValue { refraction: t, ..m }
    } else if key == "depth"@ {
        MaterialValue { depth: t, ..m }
    } else if key == "blur"@ || key == "frost"@ {
        MaterialValue { frost: t, ..m }
    } else if key == "corner_radius"@ {
        MaterialValue { corner_radius: t, ..m }
    } else if key == "rim_width"@ || key == "border_thickness"@ {
        MaterialValue { border_thickness: t, ..m }
    } else if key == "rim_refraction"@ || key == "border_refract"@ {
        MaterialValue { border_refract: t, ..m }
    } else if key == "lighting"@ {
        MaterialValue { lighting: t, ..m }
    } else if key == "light_angle"@ {
        MaterialValue { light_angle: t, ..m }
    } else {
        m
    }
}

/// The material with controls set in order; a later one overrides an earlier.
pub open spec fn with_fields(m: MaterialValue, f: Seq<(Seq<char>, Seq<char>)>) -> MaterialValue
    decreases f.len(),
{
    if f.len() == 0 {
        m
    } else {
        with_fields(with_field(m, f[0].0, f[0].1), f.skip(1))
    }
}

/// The material that a document describes.
pub open spec fn material_in(s: Seq<char>) -> Option<MaterialValue> {
    match number_fields(s) {
        Some(f) => Some(sanitized_material(with_fields(default_material(), f))),
        None => None,
    }
}

/// A control brought into its range.
fn bounded(value: String, fallback: String, max: u128, max_text: &str) -> (r: String)
    ensures
        r@ == bounded_text(value@, fallback@, max as nat, max_text@),
{
    let b = chars_of(value.as_str());
    if !check_number(&b) || number_at_least(&b, SINGLE_LIMIT) {
        return fallback;
    }
    if b.len() > 0 && b[0] == '-' {
        "0".to_owned()
    } else if number_at_least(&b, max) {
        max_text.to_owned()
    } else {
        value
    }
}

impl GlassMaterial {
    /// Every control brought into its range; what is no finite number gets the
    /// default of its control.
    pub fn sanitized(self) -> (r: Self)
        ensures
            r@ == sanitized_material(self@),
    {
        let d = GlassMaterial::default();
        GlassMaterial {
            refraction: bounded(self.refraction, d.refraction, 160, "160"),
            depth: bounded(self.depth, d.depth, 1, "1"),
            frost: bounded(self.frost, d.frost, 12, "12"),
            corner_radius: bounded(self.corner_radius, d.corner_radius, 128, "128"),
            border_thickness: bounded(self.border_thickness, d.border_thickness, 20, "20"),
            border_refract: bounded(self.border_refract, d.border_refract, 3, "3"),
            lighting: bounded(self.lighting, d.lighting, 2, "2"),
            light_angle: bounded(self.light_angle, d.light_angle, 360, "360"),
            opacity: bounded(self.opacity, d.opacity, 1, "1"),
        }
    }

    /// Sets one control by its name in the document.
    fn set_field(&mut self, key: &String, value: String)
        ensures
            final(self)@ == with_field(old(self)@, key@, value@),
    {
        if is_text(key.as_str(), "refraction") {
            self.refraction = value;
        } else if is_text(key.as_str(), "depth") {
            self.depth = value;
        } else if is_text(key.as_str(), "blur") || is_text(key.as_str(), "frost") {
            self.frost = value;
        } else if is_text(key.as_str(), "corner_radius") {
            self.corner_radius = value;
        } else if is_text(key.as_str(), "rim_width") || is_text(key.as_str(), "border_thickness") {
            self.border_thickness = value;
        } else if is_text(key.as_str(), "rim_refraction") || is_text(key.as_str(), "border_refract") {
            self.border_refract = value;
        } else if is_text(key.as_str(), "lighting") {
            self.lighting = value;
        } else if is_text(key.as_str(), "light_angle") {
            self.light_angle = value;
        }
    }

    /// The material that a document describes; none where the document is not
    /// one JSON object.
    pub fn from_json(json: &str) -> (r: Option<Self>)
        ensures
            match r {
                Some(m) => material_in(json@) == Some(m@),
                None => material_in(json@) is None,
            },
    {
        let fields = parse_number_fields(json)?;
        let ghost f = field_views(fields@);
        let mut m = GlassMaterial::default();
        let mut i: usize = 0;
        assert(f.skip(0) == f);
        while i < fields.len()
            invariant
                i <= fields@.len(),
                f == field_views(fields@),
                with_fields(m@, f.skip(i as int)) == with_fields(default_material(), f),
            decreases fields@.len() - i,
        {
            let ghost t = f.skip(i as int);
            assert(t[0] == (fields@[i as int].0@, fields@[i as int].1@));
            assert(t.skip(1) == f.skip(i + 1));
            m.set_field(&fields[i].0, fields[i].1.clone());
            i = i + 1;
        }
        Some(m.sanitized())
    }
}

/// Controls that the environment overrides.
pub struct Overrides {
    pub refraction: Option<String>,
    pub depth: Option<String>,
    pub frost: Option<String>,
    pub corner_radius: Option<String>,
    pub border_thickness: Option<String>,
    pub border_refract: Option<String>,
    pub lighting: Option<String>,
    pub light_angle: Option<String>,
    pub opacity: Option<String>,
}

/// The overriding text where there is one.
pub open spec fn overridden(t: Seq<char>, by: Option<String>) -> Seq<char> {
    match by {
        Some(s) => s@,
        None => t,
    }
}

/// The material with the overrides in place.
pub open spec fn with_overrides(m: MaterialValue, o: Overrides) -> MaterialValue {
    MaterialValue {
        refraction: overridden(m.refraction, o.refraction),
        depth: overridden(m.depth, o.depth),
        frost: overridden(m.frost, o.frost),
        corner_radius: overridden(m.corner_radius, o.corner_radius),
        border_thickness: overridden(m.border_thickness, o.border_thickness),
        border_refract: overridden(m.border_refract, o.border_refract),
        lighting: overridden(m.lighting, o.lighting),
        light_angle: overridden(m.light_angle, o.light_angle),
        opacity: overridden(m.opacity, o.opacity),
    }
}

fn chosen(t: String, by: Option<String>) -> (r: String)
    ensures
        r@ == overridden(t@, by),
{
    match by {
        Some(s) => s,
        None => t,
    }
}

/// What reading the document gave.
pub enum ConfigRead {
    Text(String),
    Missing,
    Failed,
}

/// The material before the overrides.
pub open spec fn configured(read: ConfigRead) -> MaterialValue {
    match read {
        ConfigRead::Text(s) => match material_in(s@) {
            Some(m) => m,
            None => default_material(),
        },
        _ => default_material(),
    }
}

impl GlassMaterial {
    /// Puts the overrides in place.
    fn apply_env(self, o: Overrides) -> (r: Self)
        ensures
            r@ == with_overrides(self@, o),
    {
        GlassMaterial {
            refraction: chosen(self.refraction, o.refraction),
            depth: chosen(self.depth, o.depth),
            frost: chosen(self.frost, o.frost),
            corner_radius: chosen(self.corner_radius, o.corner_radius),
            border_thickness: chosen(self.border_thickness, o.border_thickness),
            border_refract: chosen(self.border_refract, o.border_refract),
            lighting: chosen(self.lighting, o.lighting),
            light_angle: chosen(self.light_angle, o.light_angle),
            opacity: chosen(self.opacity, o.opacity),
        }
    }

    /// The defaults with the overrides.
    pub fn from_env(o: Overrides) -> (r: Self)
        ensures
            r@ == sanitized_material(with_overrides(default_material(), o)),
    {
        GlassMaterial::default().apply_env(o).sanitized()
    }

    /// The material that the document and the environment give, the latter
    /// having the last word. Where there is no document, a template to write
    /// comes along.
    pub fn load(read: ConfigRead, o: Overrides) -> (r: (Self, Option<String>))
        ensures
            r.0@ == sanitized_material(with_overrides(configured(read), o)),
            match read {
                ConfigRead::Missing => text_view(r.1) == Some(config_text(default_material())),
                _ => r.1 is None,
            },
    {
        let mut template: Option<String> = None;
        let m = match read {
            ConfigRead::Text(s) => match GlassMaterial::from_json(s.as_str()) {
                Some(m) => m,
                None => GlassMaterial::default(),
            },
            ConfigRead::Missing => {
                template = Some(config_json(&GlassMaterial::default()));
                GlassMaterial::default()
            },
            ConfigRead::Failed => GlassMaterial::default(),
        };
        (m.apply_env(o).sanitized(), template)
    }

    /// Clear glass: no bending, no frost, no light.
    pub fn zero() -> (r: Self)
        ensures
            r@ == (MaterialValue {
                refraction: "0"@,
                depth: "0"@,
                frost: "0"@,
                border_refract: "0"@,
                lighting: "0"@,
                ..default_material()
            }),
    {
        let d = GlassMaterial::default();
        GlassMaterial {
            refraction: "0".to_owned(),
            depth: "0".to_owned(),
            frost: "0".to_owned(),
            corner_radius: d.corner_radius,
            border_thickness: d.border_thickness,
            border_refract: "0".to_owned(),
            lighting: "0".to_owned(),
            light_angle: d.light_angle,
            opacity: d.opacity,
        }
    }
}

/// The document that the user edits, beside that of the notes, as path
/// components.
pub fn config_path(appdata: Option<String>, temp: String) -> (path: Vec<String>)
    ensures
        path_view(path@) == dir_of(text_view(appdata), temp@).push("material.json"@),
{
    let mut path = store_dir(appdata, temp);
    let ghost before = path_view(path@);
    path.push("material.json".to_owned());
    assert(path_view(path@) =~= before.push("material.json"@));
    path
}

/// What the document says of the ranges.
pub open spec fn ranges_value() -> Value {
    Value::Obj(
        seq![
            ("refraction"@, Value::Str("0..160 px; 0 disables backdrop bending"@)),
            ("depth"@, Value::Str("0..1; how far the curved dome reaches into the note"@)),
            ("blur"@, Value::Str("0..12 px Gaussian sigma; 0 disables both blur passes"@)),
            ("corner_radius"@, Value::Str("0..128 px"@)),
            ("rim_width"@, Value::Str("0..20 px"@)),
            ("rim_refraction"@, Value::Str("0..3; extra bending at the edge"@)),
            ("lighting"@, Value::Str("0..2; rim and highlight strength"@)),
            ("light_angle"@, Value::Str("0..360 degrees"@)),
        ],
    )
}

/// A material with the controls that the document holds as they are shown in it.
pub open spec fn shown_material(m: MaterialValue) -> MaterialValue {
    MaterialValue {
        refraction: shown(m.refraction),
        depth: shown(m.depth),
        frost: shown(m.frost),
        corner_radius: shown(m.corner_radius),
        border_thickness: shown(m.border_thickness),
        border_refract: shown(m.border_refract),
        lighting: shown(m.lighting),
        light_angle: shown(m.light_angle),
        opacity: m.opacity,
    }
}

/// The object of a material's controls, as they are.
pub open spec fn config_value(m: MaterialValue) -> Value {
    Value::Obj(
        seq![
            (
                "_instructions"@,
                Value::Str("Edit the numeric values, save, then restart LiquidNotes."@),
            ),
            ("_ranges"@, ranges_value()),
            ("refraction"@, Value::Num(m.refraction)),
            ("depth"@, Value::Num(m.depth)),
            ("blur"@, Value::Num(m.frost)),
            ("corner_radius"@, Value::Num(m.corner_radius)),
            ("rim_width"@, Value::Num(m.border_thickness)),
            ("rim_refraction"@, Value::Num(m.border_refract)),
            ("lighting"@, Value::Num(m.lighting)),
            ("light_angle"@, Value::Num(m.light_angle)),
        ],
    )
}

/// The document that describes a material to the user. Its numbers have no
/// exponent; digits that single precision cannot hold stay as they are.
pub open spec fn config_text(m: MaterialValue) -> Seq<char> {
    pretty_text(config_value(shown_material(m)), 0).push('\n')
}

/// A named text as JSON.
fn text_pair(key: &str, t: &str) -> (r: (String, Json))
    ensures
        r.0@ == key@,
        r.1@ == Value::Str(t@),
        depth(r.1) == 0,
{
    (key.to_owned(), Json::Str(t.to_owned()))
}

/// A named number as JSON, as it is shown.
fn number_pair(key: &str, t: &String) -> (r: (String, Json))
    ensures
        r.0@ == key@,
        r.1@ == Value::Num(shown(t@)),
        depth(r.1) == 0,
{
    (key.to_owned(), Json::Num(shown_number(t)))
}

/// What the document says of the ranges.
fn ranges_json() -> (j: Json)
    ensures
        j@ == ranges_value(),
        depth(j) <= 1,
{
    let mut m: Vec<(String, Json)> = Vec::new();
    m.push(text_pair("refraction", "0..160 px; 0 disables backdrop bending"));
    m.push(text_pair("depth", "0..1; how far the curved dome reaches into the note"));
    m.push(text_pair("blur", "0..12 px Gaussian sigma; 0 disables both blur passes"));
    m.push(text_pair("corner_radius", "0..128 px"));
    m.push(text_pair("rim_width", "0..20 px"));
    m.push(text_pair("rim_refraction", "0..3; extra bending at the edge"));
    m.push(text_pair("lighting", "0..2; rim and highlight strength"));
    m.push(text_pair("light_angle", "0..360 degrees"));
    proof {
        lemma_object_view(m);
        assert(members_view(m@) =~= ranges_value()->Obj_0);
        lemma_shallow(m@, 0);
    }
    Json::Obj(m)
}

proof fn lemma_shallow(m: Seq<(String, Json)>, d: nat)
    requires
        forall|i: int| 0 <= i < m.len() ==> depth((#[trigger] m[i]).1) <= d,
    ensures
        crate::json_text::deepest(m) <= d,
    decreases m.len(),
{
    if m.len() > 0 {
        assert(depth(m[0].1) <= d);
        let t = m.skip(1);
        assert forall|i: int| 0 <= i < t.len() implies depth((#[trigger] t[i]).1) <= d by {
            assert(t[i] == m[i + 1]);
        }
        lemma_shallow(t, d);
    }
}

/// The document that describes a material to the user.
pub fn config_json(m: &GlassMaterial) -> (s: String)
    ensures
        s@ == config_text(m@),
{
    let mut p: Vec<(String, Json)> = Vec::new();
    p.push(
        text_pair("_instructions", "Edit the numeric values, save, then restart LiquidNotes."),
    );
    p.push(("_ranges".to_owned(), ranges_json()));
    p.push(number_pair("refraction", &m.refraction));
    p.push(number_pair("depth", &m.depth));
    p.push(number_pair("blur", &m.frost));
    p.push(number_pair("corner_radius", &m.corner_radius));
    p.push(number_pair("rim_width", &m.border_thickness));
    p.push(number_pair("rim_refraction", &m.border_refract));
    p.push(number_pair("lighting", &m.lighting));
    p.push(number_pair("light_angle", &m.light_angle));
    proof {
        lemma_object_view(p);
        assert(members_view(p@) =~= config_value(shown_material(m@))->Obj_0);
        lemma_shallow(p@, 1);
    }
    let root = Json::Obj(p);
    let mut out = String::new();
    let ghost w = out@;
    push_pretty(&mut out, &root, 0);
    assert(w + pretty_text(root@, 0) == pretty_text(root@, 0));
    out.push('\n');
    out
}

/// A number from 0 to `max`.
pub open spec fn within(t: Seq<char>, max: nat) -> bool {
    is_number(t) && !scan(t).neg && scan(t).numer() <= max * scan(t).denom()
}

/// Every control is a number in its range.
pub open spec fn in_ranges(m: MaterialValue) -> bool {
    &&& within(m.refraction, 160)
    &&& within(m.depth, 1)
    &&& within(m.frost, 12)
    &&& within(m.corner_radius, 128)
    &&& within(m.border_thickness, 20)
    &&& within(m.border_refract, 3)
    &&& within(m.lighting, 2)
    &&& within(m.light_angle, 360)
    &&& within(m.opacity, 1)
}

proof fn lemma_whole_within(n: nat, max: nat)
    requires
        n <= max,
    ensures
        within(int_text(n as int), max),
        at_least(int_text(n as int), n),
{
    lemma_int_text(n as int);
    let s = scan(int_text(n as int));
    assert(p10(0) == 1);
    assert(s.numer() == n * 1);
}

/// The literals of the ranges' ends and of whole defaults.
proof fn lemma_whole_literals()
    ensures
        "0"@ == int_text(0),
        "1"@ == int_text(1),
        "2"@ == int_text(2),
        "3"@ == int_text(3),
        "12"@ == int_text(12),
        "20"@ == int_text(20),
        "32"@ == int_text(32),
        "60"@ == int_text(60),
        "128"@ == int_text(128),
        "135"@ == int_text(135),
        "160"@ == int_text(160),
        "360"@ == int_text(360),
{
    reveal_with_fuel(decimal, 3);
    reveal_strlit("0");
    reveal_strlit("1");
    reveal_strlit("2");
    reveal_strlit("3");
    reveal_strlit("12");
    reveal_strlit("20");
    reveal_strlit("32");
    reveal_strlit("60");
    reveal_strlit("128");
    reveal_strlit("135");
    reveal_strlit("160");
    reveal_strlit("360");
    assert("0"@ =~= int_text(0));
    assert("1"@ =~= int_text(1));
    assert("2"@ =~= int_text(2));
    assert("3"@ =~= int_text(3));
    assert("12"@ =~= int_text(12));
    assert("20"@ =~= int_text(20));
    assert("32"@ =~= int_text(32));
    assert("60"@ =~= int_text(60));
    assert("128"@ =~= int_text(128));
    assert("135"@ =~= int_text(135));
    assert("160"@ =~= int_text(160));
    assert("360"@ =~= int_text(360));
}

proof fn lemma_point_within(t: Seq<char>, max: nat)
    requires
        t.len() == 3 || t.len() == 4,
        t[1] == '.',
        '0' <= t[0] <= '9',
        '0' <= t[2] <= '9',
        t.len() == 4 ==> '0' <= t[3] <= '9',
        digit_value(t[0]) < max,
    ensures
        within(t, max),
        !at_least(t, max),
{
    lemma_scan_point(t, 1);
    let r = t.remove(1).map_values(|c: char| digit_value(c));
    reveal_with_fuel(digits_number, 4);
    reveal_with_fuel(p10, 4);
    let a = digit_value(t[0]) as nat;
    let b = digit_value(t[2]) as nat;
    assert(r[0] == a);
    assert(r[1] == b);
    if t.len() == 3 {
        assert(r.drop_last().drop_last() =~= Seq::<u8>::empty());
        assert(digits_number(r) == 10 * a + b);
        assert(p10(1) == 10);
        assert(scan(t).denom() == 10);
        assert(scan(t).numer() < max * 10);
    } else {
        let c = digit_value(t[3]) as nat;
        assert(r[2] == c);
        assert(r.drop_last().drop_last().drop_last() =~= Seq::<u8>::empty());
        assert(digits_number(r) == 100 * a + 10 * b + c);
        assert(p10(2) == 100);
        assert(scan(t).denom() == 100);
        assert(scan(t).numer() < max * 100);
    }
}

/// Every default is in its range, and short of its end.
proof fn lemma_defaults()
    ensures
        in_ranges(default_material()),
{
    lemma_whole_literals();
    lemma_whole_within(60, 160);
    lemma_whole_within(1, 12);
    lemma_whole_within(32, 128);
    lemma_whole_within(135, 360);
    reveal_strlit("0.5");
    reveal_strlit("2.7");
    reveal_strlit("0.7");
    reveal_strlit("0.35");
    reveal_strlit("0.25");
    lemma_point_within("0.5"@, 1);
    lemma_point_within("2.7"@, 20);
    lemma_point_within("0.7"@, 3);
    lemma_point_within("0.35"@, 2);
    lemma_point_within("0.25"@, 1);
}

proof fn lemma_bounded_within(t: Seq<char>, fallback: Seq<char>, max: nat)
    requires
        within(fallback, max),
    ensures
        within(bounded_text(t, fallback, max, int_text(max as int)), max),
{
    lemma_whole_literals();
    lemma_whole_within(max, max);
    lemma_whole_within(0, max);
}

/// Whatever the controls were, every one of a sanitized material is a number in
/// its range.
pub proof fn sanitized_is_in_ranges(m: MaterialValue)
    ensures
        in_ranges(sanitized_material(m)),
{
    let d = default_material();
    lemma_defaults();
    lemma_whole_literals();
    lemma_bounded_within(m.refraction, d.refraction, 160);
    lemma_bounded_within(m.depth, d.depth, 1);
    lemma_bounded_within(m.frost, d.frost, 12);
    lemma_bounded_within(m.corner_radius, d.corner_radius, 128);
    lemma_bounded_within(m.border_thickness, d.border_thickness, 20);
    lemma_bounded_within(m.border_refract, d.border_refract, 3);
    lemma_bounded_within(m.lighting, d.lighting, 2);
    lemma_bounded_within(m.light_angle, d.light_angle, 360);
    lemma_bounded_within(m.opacity, d.opacity, 1);
}

/// Each number that the document shows is written as JSON may write it.
pub open spec fn shows_numbers(m: MaterialValue) -> bool {
    &&& number_text(m.refraction)
    &&& number_text(m.depth)
    &&& number_text(m.frost)
    &&& number_text(m.corner_radius)
    &&& number_text(m.border_thickness)
    &&& number_text(m.border_refract)
    &&& number_text(m.lighting)
    &&& number_text(m.light_angle)
}

proof fn lemma_strings_printable(m: Seq<(Seq<char>, Value)>)
    requires
        forall|k: int| 0 <= k < m.len() ==> printable((#[trigger] m[k]).1),
    ensures
        crate::json_text::printable_members(m),
    decreases m.len(),
{
    if m.len() > 0 {
        assert(printable(m[0].1));
        let t = m.skip(1);
        assert forall|k: int| 0 <= k < t.len() implies printable((#[trigger] t[k]).1) by {
            assert(t[k] == m[k + 1]);
        }
        lemma_strings_printable(t);
    }
}

proof fn lemma_config_printable(m: MaterialValue)
    requires
        shows_numbers(m),
    ensures
        printable(config_value(m)),
{
    lemma_strings_printable(ranges_value()->Obj_0);
    assert(printable(ranges_value()));
    lemma_strings_printable(config_value(m)->Obj_0);
}

proof fn lemma_config_members(m: MaterialValue)
    ensures
        number_members(config_value(m)->Obj_0) == seq![
            ("refraction"@, m.refraction),
            ("depth"@, m.depth),
            ("blur"@, m.frost),
            ("corner_radius"@, m.corner_radius),
            ("rim_width"@, m.border_thickness),
            ("rim_refraction"@, m.border_refract),
            ("lighting"@, m.lighting),
            ("light_angle"@, m.light_angle),
        ],
{
    let p = config_value(m)->Obj_0;
    lemma_members_from(p, 10);
    lemma_members_from(p, 9);
    lemma_members_from(p, 8);
    lemma_members_from(p, 7);
    lemma_members_from(p, 6);
    lemma_members_from(p, 5);
    lemma_members_from(p, 4);
    lemma_members_from(p, 3);
    lemma_members_from(p, 2);
    lemma_members_from(p, 1);
    lemma_members_from(p, 0);
    assert(p.skip(0) == p);
    assert(number_members(p) =~= seq![
        ("refraction"@, m.refraction),
        ("depth"@, m.depth),
        ("blur"@, m.frost),
        ("corner_radius"@, m.corner_radius),
        ("rim_width"@, m.border_thickness),
        ("rim_refraction"@, m.border_refract),
        ("lighting"@, m.lighting),
        ("light_angle"@, m.light_angle),
    ]);
}

proof fn lemma_members_from(p: Seq<(Seq<char>, Value)>, i: int)
    requires
        0 <= i <= p.len(),
    ensures
        number_members(p.skip(i)) == if i == p.len() {
            Seq::empty()
        } else {
            match p[i].1 {
                Value::Num(t) => seq![(p[i].0, t)] + number_members(p.skip(i + 1)),
                _ => number_members(p.skip(i + 1)),
            }
        },
{
    if i < p.len() {
        assert(p.skip(i).skip(1) == p.skip(i + 1));
    }
}

/// The names of the controls are told apart by their lengths and first
/// characters.
proof fn lemma_names()
    ensures
        "refraction"@ != "depth"@,
        "refraction"@ != "blur"@,
        "depth"@ != "blur"@,
        "corner_radius"@ != "refraction"@ && "corner_radius"@ != "depth"@ && "corner_radius"@
            != "blur"@ && "corner_radius"@ != "frost"@,
        "rim_width"@ != "refraction"@ && "rim_width"@ != "depth"@ && "rim_width"@ != "blur"@
            && "rim_width"@ != "frost"@ && "rim_width"@ != "corner_radius"@,
        "rim_refraction"@ != "refraction"@ && "rim_refraction"@ != "depth"@ && "rim_refraction"@
            != "blur"@ && "rim_refraction"@ != "frost"@ && "rim_refraction"@ != "corner_radius"@
            && "rim_refraction"@ != "rim_width"@ && "rim_refraction"@ != "border_thickness"@,
        "lighting"@ != "refraction"@ && "lighting"@ != "depth"@ && "lighting"@ != "blur"@
            && "lighting"@ != "frost"@ && "lighting"@ != "corner_radius"@ && "lighting"@
            != "rim_width"@ && "lighting"@ != "border_thickness"@ && "lighting"@
            != "rim_refraction"@ && "lighting"@ != "border_refract"@,
        "light_angle"@ != "refraction"@ && "light_angle"@ != "depth"@ && "light_angle"@ != "blur"@
            && "light_angle"@ != "frost"@ && "light_angle"@ != "corner_radius"@ && "light_angle"@
            != "rim_width"@ && "light_angle"@ != "border_thickness"@ && "light_angle"@
            != "rim_refraction"@ && "light_angle"@ != "border_refract"@ && "light_angle"@
            != "lighting"@,
{
    reveal_strlit("refraction");
    reveal_strlit("depth");
    reveal_strlit("blur");
    reveal_strlit("frost");
    reveal_strlit("corner_radius");
    reveal_strlit("rim_width");
    reveal_strlit("border_thickness");
    reveal_strlit("rim_refraction");
    reveal_strlit("border_refract");
    reveal_strlit("lighting");
    reveal_strlit("light_angle");
    assert("refraction"@.len() == 10);
    assert("depth"@.len() == 5);
    assert("blur"@.len() == 4);
    assert("frost"@.len() == 5);
    assert("corner_radius"@.len() == 13);
    assert("rim_width"@.len() == 9);
    assert("border_thickness"@.len() == 16);
    assert("rim_refraction"@.len() == 14);
    assert("border_refract"@.len() == 14);
    assert("lighting"@.len() == 8);
    assert("light_angle"@.len() == 11);
    assert("rim_refraction"@[0] != "border_refract"@[0]);
}

/// A control in its range is shown as a number in its range.
proof fn lemma_shown_kept(t: Seq<char>, fallback: Seq<char>, max: nat)
    requires
        bounded_text(t, fallback, max, int_text(max as int)) == t,
        within(fallback, max),
        0 < max < SINGLE_LIMIT,
    ensures
        number_text(shown(t)),
        bounded_text(shown(t), fallback, max, int_text(max as int)) == shown(t),
{
    let lim = SINGLE_LIMIT as nat;
    let q = scan(t).denom();
    lemma_bounded_within(t, fallback, max);
    crate::double::lemma_p10_pos((-scan(t).exponent()) as nat);
    assert(max * q < lim * q) by (nonlinear_arith)
        requires
            max < lim,
            q > 0,
    ;
    lemma_shown(t);
    lemma_shown_at_least(t, lim);
    if at_least(t, max) {
        lemma_tidy_integer(max);
    } else {
        lemma_shown_at_least(t, max);
    }
}

/// What is shown of a material in its ranges is a material in its ranges.
proof fn lemma_shown_material(m: MaterialValue)
    requires
        sanitized_material(m) == m,
    ensures
        shows_numbers(shown_material(m)),
        sanitized_material(shown_material(m)) == shown_material(m),
{
    let d = default_material();
    lemma_defaults();
    lemma_whole_literals();
    lemma_shown_kept(m.refraction, d.refraction, 160);
    lemma_shown_kept(m.depth, d.depth, 1);
    lemma_shown_kept(m.frost, d.frost, 12);
    lemma_shown_kept(m.corner_radius, d.corner_radius, 128);
    lemma_shown_kept(m.border_thickness, d.border_thickness, 20);
    lemma_shown_kept(m.border_refract, d.border_refract, 3);
    lemma_shown_kept(m.lighting, d.lighting, 2);
    lemma_shown_kept(m.light_angle, d.light_angle, 360);
}

/// A material in its ranges is read back from the document that describes it,
/// each control as it is shown; the opacity, which the document leaves out, is
/// the default one.
pub proof fn config_round_trip(m: MaterialValue)
    requires
        sanitized_material(m) == m,
    ensures
        material_in(config_text(m)) == Some(
            MaterialValue { opacity: default_material().opacity, ..shown_material(m) },
        ),
{
    let s = shown_material(m);
    let v = config_value(s);
    let nl = seq!['\n'];
    lemma_shown_material(m);
    lemma_config_printable(s);
    lemma_pretty_read_back(v, 0, nl);
    assert(config_text(m) == pretty_text(v, 0) + nl);
    assert(crate::json::skip_ws(nl) == Seq::<char>::empty()) by {
        reveal_with_fuel(crate::json::skip_ws, 2);
        assert(nl.skip(1) == Seq::<char>::empty());
    }
    assert(document(config_text(m)) == Some(v));
    lemma_config_members(s);
    lemma_names();
    let f = number_members(v->Obj_0);
    let d = default_material();
    lemma_fields_applied(f, s);
    lemma_defaults();
    lemma_defaults_short();
    lemma_whole_literals();
    lemma_kept(d.opacity, d.opacity, 1);
}

proof fn lemma_shown_fraction(t: Seq<char>, d: Seq<u8>, p: int)
    requires
        t == point_text(false, before_point(d, p), behind_point(d, p)),
        d.len() == 1 || d.len() == 2,
        0 <= p < d.len(),
        0 < d[0] <= 9,
        0 < d.last() <= 9,
    ensures
        shown(t) == t,
{
    lemma_shown_placed(d, p);
}

/// The default controls are shown as they are.
proof fn lemma_defaults_shown()
    ensures
        shown_material(default_material()) == default_material(),
{
    lemma_whole_literals();
    lemma_tidy_integer(60);
    lemma_tidy_integer(1);
    lemma_tidy_integer(32);
    lemma_tidy_integer(135);
    reveal_strlit("0.5");
    reveal_strlit("2.7");
    reveal_strlit("0.7");
    reveal_strlit("0.35");
    assert("0.5"@ =~= point_text(false, before_point(seq![5u8], 0), behind_point(seq![5u8], 0)));
    lemma_shown_fraction("0.5"@, seq![5u8], 0);
    assert("2.7"@ =~= point_text(
        false,
        before_point(seq![2u8, 7], 1),
        behind_point(seq![2u8, 7], 1),
    ));
    lemma_shown_fraction("2.7"@, seq![2u8, 7], 1);
    assert("0.7"@ =~= point_text(false, before_point(seq![7u8], 0), behind_point(seq![7u8], 0)));
    lemma_shown_fraction("0.7"@, seq![7u8], 0);
    assert("0.35"@ =~= point_text(
        false,
        before_point(seq![3u8, 5], 0),
        behind_point(seq![3u8, 5], 0),
    ));
    lemma_shown_fraction("0.35"@, seq![3u8, 5], 0);
}

/// The default material is read back as it is from the document that describes
/// it.
pub proof fn default_config_reads_back()
    ensures
        material_in(config_text(default_material())) == Some(default_material()),
{
    let d = default_material();
    lemma_defaults();
    lemma_defaults_short();
    lemma_whole_literals();
    lemma_kept(d.refraction, d.refraction, 160);
    lemma_kept(d.depth, d.depth, 1);
    lemma_kept(d.frost, d.frost, 12);
    lemma_kept(d.corner_radius, d.corner_radius, 128);
    lemma_kept(d.border_thickness, d.border_thickness, 20);
    lemma_kept(d.border_refract, d.border_refract, 3);
    lemma_kept(d.lighting, d.lighting, 2);
    lemma_kept(d.light_angle, d.light_angle, 360);
    lemma_kept(d.opacity, d.opacity, 1);
    lemma_defaults_shown();
    config_round_trip(d);
}

proof fn lemma_fields_applied(f: Seq<(Seq<char>, Seq<char>)>, m: MaterialValue)
    requires
        f == seq![
            ("refraction"@, m.refraction),
            ("depth"@, m.depth),
            ("blur"@, m.frost),
            ("corner_radius"@, m.corner_radius),
            ("rim_width"@, m.border_thickness),
            ("rim_refraction"@, m.border_refract),
            ("lighting"@, m.lighting),
            ("light_angle"@, m.light_angle),
        ],
    ensures
        with_fields(default_material(), f) == (MaterialValue {
            opacity: default_material().opacity,
            ..m
        }),
{
    lemma_names();
    let d = default_material();
    assert(f.skip(0) == f);
    lemma_fields_from(d, f, 0);
    let d1 = MaterialValue { refraction: m.refraction, ..d };
    lemma_fields_from(d1, f, 1);
    let d2 = MaterialValue { depth: m.depth, ..d1 };
    lemma_fields_from(d2, f, 2);
    let d3 = MaterialValue { frost: m.frost, ..d2 };
    lemma_fields_from(d3, f, 3);
    let d4 = MaterialValue { corner_radius: m.corner_radius, ..d3 };
    lemma_fields_from(d4, f, 4);
    let d5 = MaterialValue { border_thickness: m.border_thickness, ..d4 };
    lemma_fields_from(d5, f, 5);
    let d6 = MaterialValue { border_refract: m.border_refract, ..d5 };
    lemma_fields_from(d6, f, 6);
    let d7 = MaterialValue { lighting: m.lighting, ..d6 };
    lemma_fields_from(d7, f, 7);
    let d8 = MaterialValue { light_angle: m.light_angle, ..d7 };
    lemma_fields_from(d8, f, 8);
}

proof fn lemma_fields_from(m: MaterialValue, f: Seq<(Seq<char>, Seq<char>)>, i: int)
    requires
        0 <= i <= f.len(),
    ensures
        with_fields(m, f.skip(i)) == if i == f.len() {
            m
        } else {
            with_fields(with_field(m, f[i].0, f[i].1), f.skip(i + 1))
        },
{
    if i < f.len() {
        assert(f.skip(i).skip(1) == f.skip(i + 1));
    }
}

/// A number in its range, and not replaced by the range's end, is left as it
/// is.
proof fn lemma_kept(t: Seq<char>, fallback: Seq<char>, max: nat)
    requires
        within(t, max),
        !at_least(t, max) || t == int_text(max as int),
        max < SINGLE_LIMIT,
    ensures
        bounded_text(t, fallback, max, int_text(max as int)) == t,
{
    let q = scan(t).denom();
    crate::double::lemma_p10_pos((-scan(t).exponent()) as nat);
    let lim = SINGLE_LIMIT as nat;
    assert(max * q < lim * q) by (nonlinear_arith)
        requires
            max < lim,
            q > 0,
    ;
}

proof fn lemma_bounded_twice(t: Seq<char>, fallback: Seq<char>, max: nat)
    requires
        within(fallback, max),
        !at_least(fallback, max),
        0 < max < SINGLE_LIMIT,
    ensures
        ({
            let m = int_text(max as int);
            let once = bounded_text(t, fallback, max, m);
            bounded_text(once, fallback, max, m) == once
        }),
{
    let m = int_text(max as int);
    let once = bounded_text(t, fallback, max, m);
    lemma_bounded_within(t, fallback, max);
    lemma_whole_literals();
    if once == "0"@ {
        lemma_int_text(0);
        assert(p10(0) == 1);
        assert(scan(once).numer() == 0 * 1);
        assert(scan(once).denom() == 1);
        assert(max * 1 == max);
        lemma_kept(once, fallback, max);
    } else {
        lemma_kept(once, fallback, max);
    }
}

/// No default is at the end of its range.
proof fn lemma_defaults_short()
    ensures
        !at_least("60"@, 160),
        !at_least("0.5"@, 1),
        !at_least("1"@, 12),
        !at_least("32"@, 128),
        !at_least("2.7"@, 20),
        !at_least("0.7"@, 3),
        !at_least("0.35"@, 2),
        !at_least("135"@, 360),
        !at_least("0.25"@, 1),
{
    lemma_whole_literals();
    lemma_int_text(60);
    lemma_int_text(1);
    lemma_int_text(32);
    lemma_int_text(135);
    assert(p10(0) == 1);
    assert(scan("60"@).numer() == 60 * 1);
    assert(scan("1"@).numer() == 1 * 1);
    assert(scan("32"@).numer() == 32 * 1);
    assert(scan("135"@).numer() == 135 * 1);
    reveal_strlit("0.5");
    reveal_strlit("2.7");
    reveal_strlit("0.7");
    reveal_strlit("0.35");
    reveal_strlit("0.25");
    lemma_point_within("0.5"@, 1);
    lemma_point_within("2.7"@, 20);
    lemma_point_within("0.7"@, 3);
    lemma_point_within("0.35"@, 2);
    lemma_point_within("0.25"@, 1);
}

/// Sanitizing a material again changes nothing.
pub proof fn sanitized_twice(m: MaterialValue)
    ensures
        sanitized_material(sanitized_material(m)) == sanitized_material(m),
{
    let d = default_material();
    lemma_defaults();
    lemma_defaults_short();
    lemma_whole_literals();
    lemma_bounded_twice(m.refraction, d.refraction, 160);
    lemma_bounded_twice(m.depth, d.depth, 1);
    lemma_bounded_twice(m.frost, d.frost, 12);
    lemma_bounded_twice(m.corner_radius, d.corner_radius, 128);
    lemma_bounded_twice(m.border_thickness, d.border_thickness, 20);
    lemma_bounded_twice(m.border_refract, d.border_refract, 3);
    lemma_bounded_twice(m.lighting, d.lighting, 2);
    lemma_bounded_twice(m.light_angle, d.light_angle, 360);
    lemma_bounded_twice(m.opacity, d.opacity, 1);
}

/// A control `r` of the range from 0 to `max` that was given as `t`: what is no finite number
/// is the default, what is below zero is zero, what is beyond the range is its end, and all
/// else is as it was given.
pub open spec fn taken_or_bounded(
    t: Seq<char>,
    r: Seq<char>,
    default: Seq<char>,
    max: nat,
    max_text: Seq<char>,
) -> bool {
    let finite = is_number(t) && scan(t).numer() < SINGLE_LIMIT * scan(t).denom();
    &&& !finite ==> r == default
    &&& finite && scan(t).neg ==> r == "0"@
    &&& finite && !scan(t).neg && scan(t).numer() >= max * scan(t).denom() ==> r == max_text
    &&& finite && !scan(t).neg && scan(t).numer() < max * scan(t).denom() ==> r == t
}

/// Every control that lies in its range is taken as it was given, and every other one is
/// bounded by its range.
pub proof fn controls_are_taken_or_bounded(m: MaterialValue)
    ensures
        ({
            let s = sanitized_material(m);
            &&& taken_or_bounded(m.refraction, s.refraction, "60"@, 160, "160"@)
            &&& taken_or_bounded(m.depth, s.depth, "0.5"@, 1, "1"@)
            &&& taken_or_bounded(m.frost, s.frost, "1"@, 12, "12"@)
            &&& taken_or_bounded(m.corner_radius, s.corner_radius, "32"@, 128, "128"@)
            &&& taken_or_bounded(m.border_thickness, s.border_thickness, "2.7"@, 20, "20"@)
            &&& taken_or_bounded(m.border_refract, s.border_refract, "0.7"@, 3, "3"@)
            &&& taken_or_bounded(m.lighting, s.lighting, "0.35"@, 2, "2"@)
            &&& taken_or_bounded(m.light_angle, s.light_angle, "135"@, 360, "360"@)
            &&& taken_or_bounded(m.opacity, s.opacity, "0.25"@, 1, "1"@)
        }),
{
}

/// Controls are set in the order of the document: the last one of a name has the last word.
pub proof fn the_last_control_of_a_name_counts(
    m: MaterialValue,
    f: Seq<(Seq<char>, Seq<char>)>,
    key: Seq<char>,
    t: Seq<char>,
)
    ensures
        with_fields(m, f.push((key, t))) == with_field(with_fields(m, f), key, t),
    decreases f.len(),
{
    let g = f.push((key, t));
    if f.len() > 0 {
        assert(g.skip(1) =~= f.skip(1).push((key, t)));
        the_last_control_of_a_name_counts(with_field(m, f[0].0, f[0].1), f.skip(1), key, t);
    } else {
        assert(g.skip(1) =~= Seq::<(Seq<char>, Seq<char>)>::empty());
        assert(with_fields(with_field(m, key, t), g.skip(1)) == with_field(m, key, t));
    }
}

/// A name sets the control that it names, by either of its names where it has two, and no
/// other. The opacity is set by no name.
pub proof fn names_set_their_controls(m: MaterialValue, key: Seq<char>, t: Seq<char>)
    ensures
        with_field(m, "refraction"@, t) == (MaterialValue { refraction: t, ..m }),
        with_field(m, "depth"@, t) == (MaterialValue { depth: t, ..m }),
        with_field(m, "blur"@, t) == (MaterialValue { frost: t, ..m }),
        with_field(m, "frost"@, t) == (MaterialValue { frost: t, ..m }),
        with_field(m, "corner_radius"@, t) == (MaterialValue { corner_radius: t, ..m }),
        with_field(m, "rim_width"@, t) == (MaterialValue { border_thickness: t, ..m }),
        with_field(m, "rim_refraction"@, t) == (MaterialValue { border_refract: t, ..m }),
        with_field(m, "lighting"@, t) == (MaterialValue { lighting: t, ..m }),
        with_field(m, "light_angle"@, t) == (MaterialValue { light_angle: t, ..m }),
        with_field(m, key, t).opacity == m.opacity,
{
    lemma_names();
    reveal_strlit("refraction");
    reveal_strlit("depth");
    reveal_strlit("blur");
    reveal_strlit("frost");
    assert("depth"@[0] != "frost"@[0]);
    assert("frost"@.len() != "refraction"@.len());
}

/// What the environment gives has the last word, and what it leaves out stays as it is.
pub proof fn the_environment_has_the_last_word(m: MaterialValue, o: Overrides)
    ensures
        o.refraction matches Some(s) ==> with_overrides(m, o).refraction == s@,
        o.refraction is None ==> with_overrides(m, o).refraction == m.refraction,
        o.depth matches Some(s) ==> with_overrides(m, o).depth == s@,
        o.depth is None ==> with_overrides(m, o).depth == m.depth,
        o.frost matches Some(s) ==> with_overrides(m, o).frost == s@,
        o.frost is None ==> with_overrides(m, o).frost == m.frost,
        o.corner_radius matches Some(s) ==> with_overrides(m, o).corner_radius == s@,
        o.corner_radius is None ==> with_overrides(m, o).corner_radius == m.corner_radius,
        o.border_thickness matches Some(s) ==> with_overrides(m, o).border_thickness == s@,
        o.border_thickness is None ==> with_overrides(m, o).border_thickness == m.border_thickness,
        o.border_refract matches Some(s) ==> with_overrides(m, o).border_refract == s@,
        o.border_refract is None ==> with_overrides(m, o).border_refract == m.border_refract,
        o.lighting matches Some(s) ==> with_overrides(m, o).lighting == s@,
        o.lighting is None ==> with_overrides(m, o).lighting == m.lighting,
        o.light_angle matches Some(s) ==> with_overrides(m, o).light_angle == s@,
        o.light_angle is None ==> with_overrides(m, o).light_angle == m.light_angle,
        o.opacity matches Some(s) ==> with_overrides(m, o).opacity == s@,
        o.opacity is None ==> with_overrides(m, o).opacity == m.opacity,
{
}

/// Without a readable document the material is the default one, and with one it is what the
/// document says.
pub proof fn the_document_decides_where_it_can(read: ConfigRead)
    ensures
        read is Missing || read is Failed ==> configured(read) == default_material(),
        read matches ConfigRead::Text(s) ==> (material_in(s@) matches Some(m) ==> configured(read)
            == m) && (material_in(s@) is None ==> configured(read) == default_material()),
{
}

} // verus!
