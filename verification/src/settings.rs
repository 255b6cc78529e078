//! The settings that outlast a run: the user's size multiplier, the scale that
//! the notes on disk were laid out at, and whether docked notes slide out.

use vstd::prelude::*;
use crate::json::document;
use crate::json::lemma_object_view;
use crate::json::members_view;
use crate::json::parse_document;
use crate::json::Json;
use crate::json::Value;
use crate::json_text::lemma_document_read_back;
use crate::json_text::push_value;
use crate::json_text::value_text;
use crate::number::int_text;
use crate::number::lemma_int_text;
use crate::number::lemma_int_value_small;
use crate::scale::MAX_SCALE;
use crate::scale::MIN_SCALE;
use crate::scale::UNIT_SCALE;
use crate::store::dir_of;
use crate::store::in_range;
use crate::store::int_field;
use crate::store::integer_field;
use crate::store::lemma_lookup;
use crate::store::lemma_members_printable;
use crate::store::path_view;
use crate::store::ranged;
use crate::store::store_dir;
use crate::store::text_view;
use crate::store::unsigned;

verus! {

/// The settings. Scales are in units of 2^-24.
#[derive(Clone, Copy, Debug, PartialEq, Eq, Structural)]
pub struct Settings {
    /// The user's size multiplier.
    pub user_scale: u32,
    /// The scale that the notes on disk were laid out at.
    pub layout_scale: u32,
    /// Docked notes slide out under the mouse.
    pub slide_out: bool,
}

impl Settings {
    /// The scales are in the range of scales.
    pub open spec fn wf(self) -> bool {
        MIN_SCALE <= self.user_scale <= MAX_SCALE && MIN_SCALE <= self.layout_scale <= MAX_SCALE
    }
}

/// The settings of a first start.
pub open spec fn first_settings() -> Settings {
    Settings { user_scale: UNIT_SCALE, layout_scale: UNIT_SCALE, slide_out: false }
}

impl Default for Settings {
    fn default() -> (r: Self)
        ensures
            r == first_settings(),
    {
        Settings { user_scale: UNIT_SCALE, layout_scale: UNIT_SCALE, slide_out: false }
    }
}

/// A scale that a field denotes; one where it denotes none.
pub open spec fn scale_field(v: Value, key: Seq<char>) -> u32 {
    ranged(int_field(v, key), MIN_SCALE as int, MAX_SCALE as int, UNIT_SCALE as int) as u32
}

/// The settings that a document stands for. What is missing or is none is as on
/// a first start.
pub open spec fn settings_in(contents: Option<Seq<char>>) -> Settings {
    match contents {
        Some(s) => match document(s) {
            Some(v) => Settings {
                user_scale: scale_field(v, "user_scale"@),
                layout_scale: scale_field(v, "layout_scale"@),
                slide_out: match v.field("slide_out"@) {
                    Some(Value::Bool(b)) => b,
                    _ => false,
                },
            },
            None => first_settings(),
        },
        None => first_settings(),
    }
}

/// The object that stands for settings.
pub open spec fn settings_value(s: Settings) -> Value {
    Value::Obj(
        seq![
            ("user_scale"@, Value::Num(int_text(s.user_scale as int))),
            ("layout_scale"@, Value::Num(int_text(s.layout_scale as int))),
            ("slide_out"@, Value::Bool(s.slide_out)),
        ],
    )
}

/// A scale that a field denotes.
fn read_scale(v: &Json, key: &str) -> (r: u32)
    ensures
        r == scale_field(v@, key@),
{
    let n: i64 = in_range(
        integer_field(v, key),
        MIN_SCALE as i64,
        MAX_SCALE as i64,
        UNIT_SCALE as i64,
    );
    n as u32
}

/// The settings that the contents of their document stand for.
pub fn load_settings(contents: Option<String>) -> (s: Settings)
    ensures
        s == settings_in(text_view(contents)),
        s.wf(),
{
    match contents {
        Some(t) => match parse_document(t.as_str()) {
            Some(v) => {
                let slide_out = match v.get("slide_out") {
                    Some(Json::Bool(b)) => *b,
                    _ => false,
                };
                Settings {
                    user_scale: read_scale(&v, "user_scale"),
                    layout_scale: read_scale(&v, "layout_scale"),
                    slide_out,
                }
            },
            None => Settings::default(),
        },
        None => Settings::default(),
    }
}

/// The document of settings.
pub fn settings_json(s: Settings) -> (t: String)
    ensures
        t@ == value_text(settings_value(s)),
{
    let mut m: Vec<(String, Json)> = Vec::new();
    m.push(("user_scale".to_owned(), unsigned(s.user_scale as u64)));
    m.push(("layout_scale".to_owned(), unsigned(s.layout_scale as u64)));
    m.push(("slide_out".to_owned(), Json::Bool(s.slide_out)));
    proof {
        lemma_object_view(m);
        assert(members_view(m@) =~= settings_value(s)->Obj_0);
    }
    let root = Json::Obj(m);
    let mut out = String::new();
    let ghost w = out@;
    push_value(&mut out, &root);
    assert(w + value_text(settings_value(s)) == value_text(settings_value(s)));
    out
}

/// Settings are read back as they were written.
pub proof fn saved_settings_are_loaded(s: Settings)
    requires
        s.wf(),
    ensures
        settings_in(Some(value_text(settings_value(s)))) == s,
{
    let v = settings_value(s);
    let m = v->Obj_0;
    lemma_int_text(s.user_scale as int);
    lemma_int_text(s.layout_scale as int);
    lemma_members_printable(m);
    lemma_document_read_back(v);
    reveal_strlit("user_scale");
    reveal_strlit("layout_scale");
    reveal_strlit("slide_out");
    assert("user_scale"@.len() != "layout_scale"@.len());
    assert("slide_out"@.len() != "user_scale"@.len());
    assert("slide_out"@.len() != "layout_scale"@.len());
    lemma_lookup(m, 0);
    lemma_lookup(m, 1);
    lemma_lookup(m, 2);
    lemma_int_value_small(s.user_scale as int);
    lemma_int_value_small(s.layout_scale as int);
}

/// The document of the settings, as path components.
pub fn settings_path(appdata: Option<String>, temp: String) -> (path: Vec<String>)
    ensures
        path_view(path@) == dir_of(text_view(appdata), temp@).push("settings.json"@),
{
    let mut path = store_dir(appdata, temp);
    let ghost before = path_view(path@);
    path.push("settings.json".to_owned());
    assert(path_view(path@) =~= before.push("settings.json"@));
    path
}

/// Without a document, or with one that is none, the settings are those of a first start: no
/// multiplier, and notes stay in. Whatever a document says, its scales lie between one half
/// and four.
pub proof fn settings_are_always_sound(s: Seq<char>)
    ensures
        settings_in(None) == first_settings(),
        document(s) is None ==> settings_in(Some(s)) == first_settings(),
        first_settings().user_scale == 0x100_0000 && first_settings().layout_scale == 0x100_0000,
        !first_settings().slide_out,
        0x80_0000 <= settings_in(Some(s)).user_scale <= 0x400_0000,
        0x80_0000 <= settings_in(Some(s)).layout_scale <= 0x400_0000,
{
}

/// A scale in its range is taken as it is; one beyond it, and none at all, is one.
pub proof fn scales_are_taken_or_are_one(v: Value, key: Seq<char>)
    ensures
        int_field(v, key) matches Some(n) ==> (0x80_0000 <= n <= 0x400_0000 ==> scale_field(v, key)
            == n) && (n < 0x80_0000 || n > 0x400_0000 ==> scale_field(v, key) == 0x100_0000),
        int_field(v, key) is None ==> scale_field(v, key) == 0x100_0000,
{
}

/// Docked notes slide out where the document says so; where it says nothing of it,
/// or something that is neither yes nor no, and where there is no document, they do
/// not.
pub proof fn notes_slide_out_only_where_it_is_said(contents: Option<Seq<char>>)
    ensures
        contents is None ==> !settings_in(contents).slide_out,
        contents is Some && document(contents->Some_0) is None ==> !settings_in(contents).slide_out,
        contents is Some && document(contents->Some_0) is Some ==> (settings_in(contents).slide_out
            <==> document(contents->Some_0)->Some_0.field("slide_out"@) == Some(Value::Bool(true))),
{
}

} // verus!
