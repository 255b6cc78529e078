//! Versioned JSON persistence for notes: which document stands for which
//! notes, and where the documents lie.

use vstd::prelude::*;
use crate::json::document;
use crate::json::items_view;
use crate::json::lemma_array_view;
use crate::json::lemma_object_view;
use crate::json::lookup;
use crate::json::members_view;
use crate::json::parse_document;
use crate::json::Json;
use crate::json::Value;
use crate::json_text::lemma_document_read_back;
use crate::json_text::number_text;
use crate::json_text::printable;
use crate::json_text::printable_items;
use crate::json_text::printable_members;
use crate::json_text::push_value;
use crate::json_text::rewritten_document_says_the_same;
use crate::json_text::value_text;
use crate::number::at_least;
use crate::number::check_number;
use crate::number::decimal;
use crate::number::int_text;
use crate::number::int_value;
use crate::number::is_number;
use crate::number::lemma_int_text;
use crate::number::lemma_int_value_small;
use crate::number::lemma_read_integer;
use crate::number::number_at_least;
use crate::number::push_decimal;
use crate::number::push_int;
use crate::number::scan;
use crate::number::SINGLE_LIMIT;
use crate::plain::lemma_placed_zero;
use crate::plain::lemma_tidy;
use crate::plain::lemma_tidy_integer;
use crate::plain::point_text;
use crate::plain::tidy;
use crate::plain::tidy_number;
use crate::plain::vanishes;
use crate::strings::chars_of;

verus! {

/// One note as it is kept on disk.
#[derive(Clone, Debug, PartialEq)]
pub struct NoteData {
    pub id: u64,
    pub text: String,
    pub x: i32,
    pub y: i32,
    pub w: i32,
    pub h: i32,
    /// Floating, in place of stacked.
    pub free: bool,
    /// 0 for none, -1 for the left edge, 1 for the right one.
    pub docked: i8,
    /// Palette index.
    pub color: u8,
    /// The size as a decimal number, with all the digits that it was given.
    pub font_size: String,
}

/// What a note on disk says.
pub ghost struct NoteValue {
    pub id: u64,
    pub text: Seq<char>,
    pub x: i32,
    pub y: i32,
    pub w: i32,
    pub h: i32,
    pub free: bool,
    pub docked: i8,
    pub color: u8,
    pub font_size: Seq<char>,
}

impl View for NoteData {
    type V = NoteValue;

    open spec fn view(&self) -> NoteValue {
        NoteValue {
            id: self.id,
            text: self.text@,
            x: self.x,
            y: self.y,
            w: self.w,
            h: self.h,
            free: self.free,
            docked: self.docked,
            color: self.color,
            font_size: self.font_size@,
        }
    }
}

/// Every note on disk.
#[derive(Clone, Debug, PartialEq)]
pub struct Store {
    pub version: u32,
    pub next_id: u64,
    pub notes: Vec<NoteData>,
}

/// What a store says.
pub ghost struct StoreValue {
    pub version: u32,
    pub next_id: u64,
    pub notes: Seq<NoteValue>,
}

impl View for Store {
    type V = StoreValue;

    open spec fn view(&self) -> StoreValue {
        StoreValue {
            version: self.version,
            next_id: self.next_id,
            notes: note_views(self.notes@),
        }
    }
}

/// The store of a first start.
pub open spec fn empty_store() -> StoreValue {
    StoreValue { version: 1, next_id: 1, notes: Seq::empty() }
}

impl Default for Store {
    fn default() -> (r: Self)
        ensures
            r@ == empty_store(),
    {
        let r = Store { version: 1, next_id: 1, notes: Vec::new() };
        assert(r@.notes == Seq::<NoteValue>::empty());
        r
    }
}

/// The integer that a field denotes.
pub open spec fn int_field(v: Value, key: Seq<char>) -> Option<int> {
    match v.field(key) {
        Some(f) => f.integer(),
        None => None,
    }
}

/// An integer from a range, and otherwise a default.
pub open spec fn ranged(v: Option<int>, lo: int, hi: int, default: int) -> int {
    match v {
        Some(n) => if lo <= n <= hi {
            n
        } else {
            default
        },
        None => default,
    }
}

/// An integer that a coordinate holds.
pub open spec fn coordinate(v: int) -> bool {
    i32::MIN <= v <= i32::MAX
}

/// The note that a value stands for: an identity and a rectangle that
/// coordinates hold, with an inside, are required, everything else has a
/// default.
pub open spec fn note_of(v: Value) -> Option<NoteValue> {
    match (
        int_field(v, "id"@),
        int_field(v, "x"@),
        int_field(v, "y"@),
        int_field(v, "w"@),
        int_field(v, "h"@),
    ) {
        (Some(id), Some(x), Some(y), Some(w), Some(h)) => if id < 0 || !coordinate(x)
            || !coordinate(y) || !coordinate(w) || !coordinate(h) || w <= 0 || h <= 0 {
            None
        } else {
            Some(
                NoteValue {
                    id: id as u64,
                    text: match v.field("text"@) {
                        Some(Value::Str(t)) => t,
                        _ => Seq::empty(),
                    },
                    x: x as i32,
                    y: y as i32,
                    w: w as i32,
                    h: h as i32,
                    free: match v.field("free"@) {
                        Some(Value::Bool(b)) => b,
                        _ => true,
                    },
                    docked: ranged(int_field(v, "docked"@), -128, 127, 0) as i8,
                    color: ranged(int_field(v, "color"@), 0, 255, 0) as u8,
                    font_size: match v.field("font_size"@) {
                        Some(Value::Num(t)) => tidy(t),
                        _ => "16.0"@,
                    },
                },
            )
        },
        _ => None,
    }
}

/// The notes that the items of a list stand for; the other items are skipped.
pub open spec fn notes_of(items: Seq<Value>) -> Seq<NoteValue>
    decreases items.len(),
{
    if items.len() == 0 {
        Seq::empty()
    } else {
        match note_of(items[0]) {
            Some(n) => seq![n] + notes_of(items.skip(1)),
            None => notes_of(items.skip(1)),
        }
    }
}

/// The store that an object stands for.
pub open spec fn store_of(v: Value) -> Option<StoreValue> {
    match v {
        Value::Obj(_) => Some(
            StoreValue {
                version: ranged(int_field(v, "version"@), 0, u32::MAX as int, 1) as u32,
                next_id: ranged(int_field(v, "next_id"@), 0, u64::MAX as int, 1) as u64,
                notes: match v.field("notes"@) {
                    Some(Value::Arr(items)) => notes_of(items),
                    _ => Seq::empty(),
                },
            },
        ),
        _ => None,
    }
}

/// The store that a text stands for: the text is one JSON object.
pub open spec fn store_in(s: Seq<char>) -> Option<StoreValue> {
    match document(s) {
        Some(v) => store_of(v),
        None => None,
    }
}

/// The integer that a field denotes.
pub(crate) fn integer_field(v: &Json, key: &str) -> (r: Option<i64>)
    ensures
        match int_field(v@, key@) {
            Some(n) => r == Some(n as i64) && i64::MIN <= n <= i64::MAX,
            None => r is None,
        },
{
    match v.get(key) {
        Some(f) => f.integer(),
        None => None,
    }
}

/// An integer from a range, and otherwise a default.
pub(crate) fn in_range(v: Option<i64>, lo: i64, hi: i64, default: i64) -> (r: i64)
    ensures
        r == ranged(
            match v {
                Some(n) => Some(n as int),
                None => None,
            },
            lo as int,
            hi as int,
            default as int,
        ),
{
    match v {
        Some(n) => if lo <= n && n <= hi {
            n
        } else {
            default
        },
        None => default,
    }
}

/// A coordinate, where it holds the integer.
fn as_coordinate(v: i64) -> (r: Option<i32>)
    ensures
        r == if coordinate(v as int) {
            Some(v as i32)
        } else {
            None
        },
{
    if -0x8000_0000 <= v && v <= 0x7fff_ffff {
        Some(v as i32)
    } else {
        None
    }
}

/// The note that a value stands for.
pub fn note_from(v: &Json) -> (r: Option<NoteData>)
    ensures
        match r {
            Some(n) => note_of(v@) == Some(n@),
            None => note_of(v@) is None,
        },
{
    let id: i64 = integer_field(v, "id")?;
    let x: i64 = integer_field(v, "x")?;
    let y: i64 = integer_field(v, "y")?;
    let w: i64 = integer_field(v, "w")?;
    let h: i64 = integer_field(v, "h")?;
    if id < 0 || w <= 0 || h <= 0 {
        return None;
    }
    let x: i32 = as_coordinate(x)?;
    let y: i32 = as_coordinate(y)?;
    let w: i32 = as_coordinate(w)?;
    let h: i32 = as_coordinate(h)?;
    let text = match v.get("text") {
        Some(Json::Str(t)) => t.clone(),
        _ => String::new(),
    };
    let free = match v.get("free") {
        Some(Json::Bool(b)) => *b,
        _ => true,
    };
    let docked: i64 = in_range(integer_field(v, "docked"), -128, 127, 0);
    let color: i64 = in_range(integer_field(v, "color"), 0, 255, 0);
    let font_size = match v.get("font_size") {
        Some(Json::Num(t)) => tidy_number(t),
        _ => "16.0".to_owned(),
    };
    Some(
        NoteData {
            id: id as u64,
            text,
            x,
            y,
            w,
            h,
            free,
            docked: docked as i8,
            color: color as u8,
            font_size,
        },
    )
}

/// Reads a store. Missing optional fields get their defaults and notes without
/// an identity or a valid rectangle are skipped; the order of the fields does
/// not matter. There is none where the text is not one JSON object.
pub fn parse(s: &str) -> (r: Option<Store>)
    ensures
        match r {
            Some(st) => store_in(s@) == Some(st@),
            None => store_in(s@) is None,
        },
{
    let root = parse_document(s)?;
    store_from(&root)
}

/// The store that a value stands for.
fn store_from(root: &Json) -> (r: Option<Store>)
    ensures
        match r {
            Some(st) => store_of(root@) == Some(st@),
            None => store_of(root@) is None,
        },
{
    let is_object = matches!(root, Json::Obj(_));
    if !is_object {
        return None;
    }
    assert(root@ is Obj) by {
        lemma_object_view(root->Obj_0);
    }
    let version: i64 = in_range(integer_field(root, "version"), 0, 0xffff_ffff, 1);
    let next_id: i64 = in_range(integer_field(root, "next_id"), 0, i64::MAX, 1);
    let notes: Vec<NoteData> = match root.get("notes") {
        Some(Json::Arr(items)) => notes_from(items),
        _ => Vec::new(),
    };
    let st = Store { version: version as u32, next_id: next_id as u64, notes };
    assert(st@ == store_of(root@)->Some_0) by {
        match root@.field("notes"@) {
            Some(Value::Arr(items)) => {},
            _ => {
                assert(st@.notes == Seq::<NoteValue>::empty());
            },
        }
    }
    Some(st)
}

/// The views of notes.
pub open spec fn note_views(v: Seq<NoteData>) -> Seq<NoteValue> {
    v.map_values(|n: NoteData| n@)
}

/// The notes among the items of a list.
fn notes_from(items: &Vec<Json>) -> (notes: Vec<NoteData>)
    ensures
        note_views(notes@) == notes_of(items_view(items@)),
        Json::Arr(*items)@ == Value::Arr(items_view(items@)),
{
    proof {
        lemma_array_view(*items);
    }
    let ghost m = items_view(items@);
    let mut notes: Vec<NoteData> = Vec::new();
    let mut i: usize = 0;
    assert(m.skip(0) == m);
    assert(note_views(notes@) + notes_of(m) == notes_of(m));
    while i < items.len()
        invariant
            i <= items@.len(),
            m == items_view(items@),
            note_views(notes@) + notes_of(m.skip(i as int)) == notes_of(m),
        decreases items@.len() - i,
    {
        let ghost before = note_views(notes@);
        let ghost t = m.skip(i as int);
        assert(t[0] == items@[i as int]@);
        assert(t.skip(1) == m.skip(i + 1));
        if let Some(n) = note_from(&items[i]) {
            let ghost nv = n@;
            notes.push(n);
            assert(note_views(notes@) == before.push(nv));
            assert(before.push(nv) + notes_of(t.skip(1)) == before + (seq![nv] + notes_of(
                t.skip(1),
            )));
        }
        i = i + 1;
    }
    assert(note_views(notes@) + notes_of(m.skip(i as int)) == note_views(notes@));
    notes
}

/// A size that single precision can hold, written as a document may hold it.
pub open spec fn finite_number(t: Seq<char>) -> bool {
    number_text(t) && !at_least(t, SINGLE_LIMIT as nat)
}

/// A size as it is written: with a point and without an exponent. What single
/// precision rounds to zero, and what no finite number is, becomes zero. Digits
/// that single precision cannot hold stay as they are.
pub open spec fn size_text(t: Seq<char>) -> Seq<char> {
    if finite_number(t) {
        tidy(t)
    } else {
        "0.0"@
    }
}

/// The value that stands for a note.
pub open spec fn note_value(n: NoteValue) -> Value {
    Value::Obj(
        seq![
            ("id"@, Value::Num(int_text(n.id as int))),
            ("text"@, Value::Str(n.text)),
            ("x"@, Value::Num(int_text(n.x as int))),
            ("y"@, Value::Num(int_text(n.y as int))),
            ("w"@, Value::Num(int_text(n.w as int))),
            ("h"@, Value::Num(int_text(n.h as int))),
            ("free"@, Value::Bool(n.free)),
            ("docked"@, Value::Num(int_text(n.docked as int))),
            ("color"@, Value::Num(int_text(n.color as int))),
            ("font_size"@, Value::Num(size_text(n.font_size))),
        ],
    )
}

/// The object that stands for a store.
pub open spec fn store_value(st: StoreValue) -> Value {
    Value::Obj(
        seq![
            ("version"@, Value::Num(int_text(st.version as int))),
            ("next_id"@, Value::Num(int_text(st.next_id as int))),
            ("notes"@, Value::Arr(st.notes.map_values(|n: NoteValue| note_value(n)))),
        ],
    )
}

/// The document of a store.
pub open spec fn store_text(st: StoreValue) -> Seq<char> {
    value_text(store_value(st))
}

/// A number as JSON.
pub(crate) fn unsigned(v: u64) -> (j: Json)
    ensures
        j@ == Value::Num(int_text(v as int)),
{
    let mut t = String::new();
    let ghost w = t@;
    push_decimal(&mut t, v);
    assert(w + int_text(v as int) == int_text(v as int));
    Json::Num(t)
}

/// A number as JSON.
fn signed(v: i64) -> (j: Json)
    ensures
        j@ == Value::Num(int_text(v as int)),
{
    let mut t = String::new();
    let ghost w = t@;
    push_int(&mut t, v);
    assert(w + int_text(v as int) == int_text(v as int));
    Json::Num(t)
}

/// A size as it is written.
fn written_size(t: &String) -> (r: String)
    ensures
        r@ == size_text(t@),
{
    let b = chars_of(t.as_str());
    if check_number(&b) && (b[0] == '-' || ('0' <= b[0] && b[0] <= '9')) && !number_at_least(
        &b,
        SINGLE_LIMIT,
    ) {
        tidy_number(t)
    } else {
        "0.0".to_owned()
    }
}

/// The value that stands for a note.
fn note_json(n: &NoteData) -> (j: Json)
    ensures
        j@ == note_value(n@),
{
    let mut m: Vec<(String, Json)> = Vec::new();
    m.push(("id".to_owned(), unsigned(n.id)));
    m.push(("text".to_owned(), Json::Str(n.text.clone())));
    m.push(("x".to_owned(), signed(n.x as i64)));
    m.push(("y".to_owned(), signed(n.y as i64)));
    m.push(("w".to_owned(), signed(n.w as i64)));
    m.push(("h".to_owned(), signed(n.h as i64)));
    m.push(("free".to_owned(), Json::Bool(n.free)));
    m.push(("docked".to_owned(), signed(n.docked as i64)));
    m.push(("color".to_owned(), signed(n.color as i64)));
    m.push(("font_size".to_owned(), Json::Num(written_size(&n.font_size))));
    proof {
        lemma_object_view(m);
        assert(members_view(m@) =~= note_value(n@)->Obj_0);
    }
    Json::Obj(m)
}

/// The document of a store.
pub fn to_json(store: &Store) -> (s: String)
    ensures
        s@ == store_text(store@),
{
    let mut items: Vec<Json> = Vec::new();
    let mut i: usize = 0;
    while i < store.notes.len()
        invariant
            i <= store.notes@.len(),
            items@.len() == i,
            forall|k: int| 0 <= k < i ==> (#[trigger] items@[k])@ == note_value(store.notes@[k]@),
        decreases store.notes@.len() - i,
    {
        items.push(note_json(&store.notes[i]));
        i = i + 1;
    }
    proof {
        lemma_array_view(items);
        assert(items_view(items@) =~= store@.notes.map_values(|n: NoteValue| note_value(n)));
    }
    let mut m: Vec<(String, Json)> = Vec::new();
    m.push(("version".to_owned(), unsigned(store.version as u64)));
    m.push(("next_id".to_owned(), unsigned(store.next_id)));
    m.push(("notes".to_owned(), Json::Arr(items)));
    proof {
        lemma_object_view(m);
        assert(members_view(m@) =~= store_value(store@)->Obj_0);
    }
    let root = Json::Obj(m);
    let mut out = String::new();
    let ghost w = out@;
    push_value(&mut out, &root);
    assert(w + store_text(store@) == store_text(store@));
    out
}

/// The integer is read back from its decimal text. That holds of all up to 2^53
/// and of those beyond that a double holds.
pub open spec fn survives(v: int) -> bool {
    int_value(int_text(v)) == Some(v)
}

/// A note that reading gives back as it was written.
pub open spec fn note_survives(n: NoteValue) -> bool {
    survives(n.id as int) && n.w > 0 && n.h > 0
}

/// A note with its size as it is written.
pub open spec fn note_written(n: NoteValue) -> NoteValue {
    NoteValue { font_size: size_text(n.font_size), ..n }
}

/// A store with every size as it is written.
pub open spec fn store_written(st: StoreValue) -> StoreValue {
    StoreValue { notes: st.notes.map_values(|n: NoteValue| note_written(n)), ..st }
}

/// A store that reading gives back as it was written.
pub open spec fn store_survives(st: StoreValue) -> bool {
    survives(st.next_id as int) && forall|i: int|
        0 <= i < st.notes.len() ==> note_survives(#[trigger] st.notes[i])
}

proof fn lemma_zero_size()
    ensures
        number_text("0.0"@),
        scan("0.0"@).dot,
        scan("0.0"@).exp is None,
        scan("0.0"@).numer() == 0,
        tidy("0.0"@) == "0.0"@,
        finite_number("0.0"@),
{
    reveal_strlit("0.0");
    lemma_placed_zero(false);
    assert("0.0"@ == point_text(false, seq![0u8], seq![0u8]));
}

proof fn lemma_usual_size()
    ensures
        number_text("16.0"@),
        tidy("16.0"@) == "16.0"@,
{
    reveal_strlit("16.0");
    reveal_with_fuel(decimal, 2);
    assert("16.0"@ == int_text(16) + seq!['.', '0']);
    lemma_tidy_integer(16);
    lemma_int_text(16);
    lemma_tidy(int_text(16));
}

/// Every size is written with a point and without an exponent. One that is
/// finite in single precision keeps its sign and, where it is not zero there,
/// its value; every other one is written as zero.
pub proof fn sizes_have_a_point(t: Seq<char>)
    ensures
        is_number(size_text(t)) && scan(size_text(t)).dot && scan(size_text(t)).exp is None,
        finite_number(t) ==> scan(size_text(t)).neg == scan(t).neg,
        finite_number(t) && !vanishes(t) ==> scan(size_text(t)).numer() * scan(t).denom() == scan(
            t,
        ).numer() * scan(size_text(t)).denom(),
        !finite_number(t) || vanishes(t) ==> scan(size_text(t)).numer() == 0,
{
    if finite_number(t) {
        lemma_tidy(t);
    } else {
        lemma_zero_size();
    }
}

proof fn lemma_note_printable(n: NoteValue)
    ensures
        printable(note_value(n)),
{
    lemma_zero_size();
    if finite_number(n.font_size) {
        lemma_tidy(n.font_size);
    }
    lemma_int_text(n.id as int);
    lemma_int_text(n.x as int);
    lemma_int_text(n.y as int);
    lemma_int_text(n.w as int);
    lemma_int_text(n.h as int);
    lemma_int_text(n.docked as int);
    lemma_int_text(n.color as int);
    let m = note_value(n)->Obj_0;
    lemma_members_printable(m);
}

pub proof fn lemma_members_printable(m: Seq<(Seq<char>, Value)>)
    requires
        forall|k: int| 0 <= k < m.len() ==> printable((#[trigger] m[k]).1),
    ensures
        printable_members(m),
    decreases m.len(),
{
    if m.len() > 0 {
        assert(m[0].1 == m[0].1);
        let t = m.skip(1);
        assert forall|k: int| 0 <= k < t.len() implies printable((#[trigger] t[k]).1) by {
            assert(t[k] == m[k + 1]);
        }
        lemma_members_printable(t);
    }
}

proof fn lemma_items_printable(m: Seq<Value>)
    requires
        forall|k: int| 0 <= k < m.len() ==> printable(#[trigger] m[k]),
    ensures
        printable_items(m),
    decreases m.len(),
{
    if m.len() > 0 {
        assert(m[0] == m[0]);
        let t = m.skip(1);
        assert forall|k: int| 0 <= k < t.len() implies printable(#[trigger] t[k]) by {
            assert(t[k] == m[k + 1]);
        }
        lemma_items_printable(t);
    }
}

/// The first member with a key is found by it.
pub proof fn lemma_lookup(m: Seq<(Seq<char>, Value)>, i: int)
    requires
        0 <= i < m.len(),
        forall|k: int| 0 <= k < i ==> (#[trigger] m[k]).0 != m[i].0,
    ensures
        lookup(m, m[i].0) == Some(m[i].1),
    decreases i,
{
    if i > 0 {
        let t = m.skip(1);
        assert(m[0].0 != m[i].0);
        assert(t[i - 1] == m[i]);
        assert forall|k: int| 0 <= k < i - 1 implies (#[trigger] t[k]).0 != t[i - 1].0 by {
            assert(t[k] == m[k + 1]);
        }
        lemma_lookup(t, i - 1);
    }
}

/// The keys of a note's members are distinct.
proof fn lemma_note_keys(n: NoteValue)
    ensures
        ({
            let m = note_value(n)->Obj_0;
            forall|i: int, k: int|
                0 <= k < i < m.len() ==> (#[trigger] m[k]).0 != (#[trigger] m[i]).0
        }),
{
    reveal_strlit("id");
    reveal_strlit("text");
    reveal_strlit("x");
    reveal_strlit("y");
    reveal_strlit("w");
    reveal_strlit("h");
    reveal_strlit("free");
    reveal_strlit("docked");
    reveal_strlit("color");
    reveal_strlit("font_size");
    let m = note_value(n)->Obj_0;
    assert forall|i: int, k: int| 0 <= k < i < m.len() implies (#[trigger] m[k]).0 != (
    #[trigger] m[i]).0 by {
        let a = m[k].0;
        let b = m[i].0;
        assert(a.len() != b.len() || a[0] != b[0]);
    }
}

proof fn lemma_note_field(n: NoteValue, i: int)
    requires
        0 <= i < 10,
    ensures
        ({
            let m = note_value(n)->Obj_0;
            note_value(n).field(m[i].0) == Some(m[i].1)
        }),
{
    lemma_note_keys(n);
    lemma_lookup(note_value(n)->Obj_0, i);
}

proof fn lemma_note_fields(n: NoteValue)
    ensures
        int_field(note_value(n), "id"@) == int_value(int_text(n.id as int)),
        int_field(note_value(n), "x"@) == Some(n.x as int),
        int_field(note_value(n), "y"@) == Some(n.y as int),
        int_field(note_value(n), "w"@) == Some(n.w as int),
        int_field(note_value(n), "h"@) == Some(n.h as int),
        int_field(note_value(n), "docked"@) == Some(n.docked as int),
        int_field(note_value(n), "color"@) == Some(n.color as int),
        note_value(n).field("text"@) == Some(Value::Str(n.text)),
        note_value(n).field("free"@) == Some(Value::Bool(n.free)),
        note_value(n).field("font_size"@) == Some(Value::Num(size_text(n.font_size))),
{
    lemma_note_field(n, 0);
    lemma_note_field(n, 1);
    lemma_note_field(n, 2);
    lemma_note_field(n, 3);
    lemma_note_field(n, 4);
    lemma_note_field(n, 5);
    lemma_note_field(n, 6);
    lemma_note_field(n, 7);
    lemma_note_field(n, 8);
    lemma_note_field(n, 9);
    lemma_int_value_small(n.x as int);
    lemma_int_value_small(n.y as int);
    lemma_int_value_small(n.w as int);
    lemma_int_value_small(n.h as int);
    lemma_int_value_small(n.docked as int);
    lemma_int_value_small(n.color as int);
}

/// What is written of a size is written as it is.
proof fn lemma_written_twice(t: Seq<char>)
    ensures
        tidy(size_text(t)) == size_text(t),
        finite_number(size_text(t)),
{
    lemma_zero_size();
    if finite_number(t) {
        lemma_tidy(t);
    }
}

/// A note is read back from the value that stands for it.
proof fn lemma_note_read_back(n: NoteValue)
    requires
        note_survives(n),
    ensures
        note_of(note_value(n)) == Some(note_written(n)),
{
    lemma_note_fields(n);
    lemma_written_twice(n.font_size);
}

proof fn lemma_notes_read_back(items: Seq<Value>, notes: Seq<NoteValue>)
    requires
        items.len() == notes.len(),
        forall|i: int| 0 <= i < notes.len() ==> note_of(#[trigger] items[i]) == Some(notes[i]),
    ensures
        notes_of(items) == notes,
    decreases notes.len(),
{
    if notes.len() > 0 {
        let s = items.skip(1);
        let t = notes.skip(1);
        assert forall|i: int| 0 <= i < t.len() implies note_of(#[trigger] s[i]) == Some(t[i]) by {
            assert(s[i] == items[i + 1]);
        }
        lemma_notes_read_back(s, t);
        assert(note_of(items[0]) == Some(notes[0]));
        assert(seq![notes[0]] + t == notes);
    } else {
        assert(notes == Seq::<NoteValue>::empty());
    }
}

/// The document of a store is read as the object that stands for it.
proof fn lemma_store_document(st: StoreValue)
    ensures
        document(store_text(st)) == Some(store_value(st)),
        store_value(st).field("version"@) == Some(Value::Num(int_text(st.version as int))),
        store_value(st).field("next_id"@) == Some(Value::Num(int_text(st.next_id as int))),
        store_value(st).field("notes"@) == Some(
            Value::Arr(st.notes.map_values(|n: NoteValue| note_value(n))),
        ),
{
    let items = st.notes.map_values(|n: NoteValue| note_value(n));
    assert forall|i: int| 0 <= i < items.len() implies printable(#[trigger] items[i]) by {
        lemma_note_printable(st.notes[i]);
    }
    lemma_items_printable(items);
    lemma_int_text(st.version as int);
    lemma_int_text(st.next_id as int);
    let v = store_value(st);
    let m = v->Obj_0;
    assert(printable(Value::Arr(items)));
    lemma_members_printable(m);
    lemma_document_read_back(v);
    reveal_strlit("version");
    reveal_strlit("next_id");
    reveal_strlit("notes");
    assert("version"@[0] != "next_id"@[0]);
    assert("notes"@.len() != "version"@.len());
    assert("notes"@.len() != "next_id"@.len());
    lemma_lookup(m, 0);
    lemma_lookup(m, 1);
    lemma_lookup(m, 2);
}

/// A store is read back from its document as it was written, field for field
/// and note for note. Sizes that are written as they are come back as they are.
pub proof fn store_round_trip(st: StoreValue)
    requires
        store_survives(st),
    ensures
        store_in(store_text(st)) == Some(store_written(st)),
        (forall|i: int|
            0 <= i < st.notes.len() ==> size_text((#[trigger] st.notes[i]).font_size)
                == st.notes[i].font_size) ==> store_written(st) == st,
{
    lemma_store_document(st);
    lemma_int_value_small(st.version as int);
    let items = st.notes.map_values(|n: NoteValue| note_value(n));
    let notes = store_written(st).notes;
    assert forall|i: int| 0 <= i < notes.len() implies note_of(#[trigger] items[i]) == Some(
        notes[i],
    ) by {
        lemma_note_read_back(st.notes[i]);
    }
    lemma_notes_read_back(items, notes);
    if forall|i: int|
        0 <= i < st.notes.len() ==> size_text((#[trigger] st.notes[i]).font_size)
            == st.notes[i].font_size {
        assert(notes =~= st.notes);
    }
}

/// The integer that a field denotes survives.
proof fn lemma_field_survives(v: Value, key: Seq<char>)
    requires
        int_field(v, key) is Some,
    ensures
        survives(int_field(v, key)->Some_0),
        i64::MIN <= int_field(v, key)->Some_0 <= i64::MAX,
{
    let f = v.field(key)->Some_0;
    lemma_read_integer(f->Num_0);
}

proof fn lemma_lookup_printable(m: Seq<(Seq<char>, Value)>, key: Seq<char>)
    requires
        printable_members(m),
    ensures
        lookup(m, key) matches Some(v) ==> printable(v),
    decreases m.len(),
{
    if m.len() > 0 {
        lemma_lookup_printable(m.skip(1), key);
    }
}

proof fn lemma_field_printable(v: Value, key: Seq<char>)
    requires
        printable(v),
    ensures
        v.field(key) matches Some(f) ==> printable(f),
{
    if let Value::Obj(m) = v {
        lemma_lookup_printable(m, key);
    }
}

proof fn lemma_notes_survive(items: Seq<Value>, k: int)
    requires
        0 <= k < notes_of(items).len(),
        printable_items(items),
    ensures
        survives(notes_of(items)[k].id as int),
        notes_of(items)[k].w > 0,
        notes_of(items)[k].h > 0,
        number_text(notes_of(items)[k].font_size),
        tidy(notes_of(items)[k].font_size) == notes_of(items)[k].font_size,
    decreases items.len(),
{
    let rest = notes_of(items.skip(1));
    match note_of(items[0]) {
        Some(n) => {
            if k == 0 {
                lemma_field_survives(items[0], "id"@);
                lemma_field_printable(items[0], "font_size"@);
                lemma_usual_size();
                match items[0].field("font_size"@) {
                    Some(Value::Num(t)) => {
                        lemma_tidy(t);
                    },
                    _ => {},
                }
            } else {
                assert(notes_of(items)[k] == rest[k - 1]);
                lemma_notes_survive(items.skip(1), k - 1);
            }
        },
        None => {
            lemma_notes_survive(items.skip(1), k);
        },
    }
}

/// What was read and is written again is read as the same, as long as single
/// precision can hold the sizes of the letters.
pub proof fn rewriting_changes_nothing(s: Seq<char>)
    requires
        store_in(s) is Some,
        forall|i: int|
            0 <= i < store_in(s)->Some_0.notes.len() ==> !at_least(
                (#[trigger] store_in(s)->Some_0.notes[i]).font_size,
                SINGLE_LIMIT as nat,
            ),
    ensures
        store_in(store_text(store_in(s)->Some_0)) == store_in(s),
{
    let st = store_in(s)->Some_0;
    let v = document(s)->Some_0;
    rewritten_document_says_the_same(s);
    lemma_int_value_small(1);
    if int_field(v, "next_id"@) is Some {
        lemma_field_survives(v, "next_id"@);
    }
    lemma_field_printable(v, "notes"@);
    assert forall|i: int| 0 <= i < st.notes.len() implies note_survives(#[trigger] st.notes[i])
        && size_text(st.notes[i].font_size) == st.notes[i].font_size by {
        let items = v.field("notes"@)->Some_0->Arr_0;
        lemma_notes_survive(items, i);
    }
    store_round_trip(st);
}

/// No two members have one key.
pub open spec fn keys_differ(m: Seq<(Seq<char>, Value)>) -> bool {
    forall|i: int, j: int| 0 <= i < j < m.len() ==> (#[trigger] m[i]).0 != (#[trigger] m[j]).0
}

/// Where no two members have one key, a key leads to the member that has it.
proof fn lemma_lookup_contains(m: Seq<(Seq<char>, Value)>, key: Seq<char>)
    requires
        keys_differ(m),
    ensures
        match lookup(m, key) {
            Some(v) => m.contains((key, v)),
            None => forall|v: Value| !m.contains((key, v)),
        },
        forall|v: Value| m.contains((key, v)) ==> lookup(m, key) == Some(v),
    decreases m.len(),
{
    if m.len() > 0 {
        let t = m.skip(1);
        assert forall|i: int, j: int| 0 <= i < j < t.len() implies (#[trigger] t[i]).0 != (
        #[trigger] t[j]).0 by {
            assert(m[i + 1].0 != m[j + 1].0);
        }
        lemma_lookup_contains(t, key);
        assert forall|v: Value| m.contains((key, v)) implies lookup(m, key) == Some(v) by {
            let i = choose|i: int| 0 <= i < m.len() && m[i] == (key, v);
            if i > 0 {
                assert(m[0].0 != m[i].0);
                assert(t[i - 1] == (key, v));
                assert(t.contains((key, v)));
                assert(lookup(t, key) == Some(v));
            } else {
                assert(m[0] == (key, v));
            }
        }
        if let Some(v) = lookup(m, key) {
            if m[0].0 == key {
                assert(m[0] == (key, v));
            } else {
                let i = choose|i: int| 0 <= i < t.len() && t[i] == (key, v);
                assert(m[i + 1] == (key, v));
            }
        }
    }
}

/// The two values say the same, but for the order of the members of the objects
/// in them, which have no key twice.
pub open spec fn reordered(a: Value, b: Value) -> bool
    decreases a,
{
    match (a, b) {
        (Value::Arr(x), Value::Arr(y)) => {
            &&& x.len() == y.len()
            &&& forall|i: int| 0 <= i < x.len() ==> reordered(#[trigger] x[i], y[i])
        },
        (Value::Obj(x), Value::Obj(y)) => {
            &&& keys_differ(x)
            &&& keys_differ(y)
            &&& forall|i: int|
                0 <= i < x.len() ==> exists|j: int|
                    0 <= j < y.len() && (#[trigger] y[j]).0 == (#[trigger] x[i]).0 && reordered(
                        x[i].1,
                        y[j].1,
                    )
            &&& forall|j: int|
                0 <= j < y.len() ==> exists|i: int|
                    0 <= i < x.len() && (#[trigger] x[i]).0 == (#[trigger] y[j]).0
        },
        _ => a == b,
    }
}

/// The fields with one key of two such values are there both or neither, and
/// say the same.
pub open spec fn same_field(a: Value, b: Value, key: Seq<char>) -> bool {
    match (a.field(key), b.field(key)) {
        (Some(x), Some(y)) => reordered(x, y),
        (None, None) => true,
        _ => false,
    }
}

proof fn lemma_same_field(a: Value, b: Value, key: Seq<char>)
    requires
        reordered(a, b),
    ensures
        same_field(a, b, key),
        int_field(a, key) == int_field(b, key),
{
    match (a, b) {
        (Value::Obj(x), Value::Obj(y)) => {
            lemma_lookup_contains(x, key);
            lemma_lookup_contains(y, key);
            match lookup(x, key) {
                Some(v) => {
                    let i = choose|i: int| 0 <= i < x.len() && x[i] == (key, v);
                    let j = choose|j: int|
                        0 <= j < y.len() && (#[trigger] y[j]).0 == x[i].0 && reordered(
                            x[i].1,
                            y[j].1,
                        );
                    assert(y[j] == (key, y[j].1));
                    assert(y.contains((key, y[j].1)));
                },
                None => {
                    if let Some(w) = lookup(y, key) {
                        let j = choose|j: int| 0 <= j < y.len() && y[j] == (key, w);
                        let i = choose|i: int| 0 <= i < x.len() && (#[trigger] x[i]).0 == y[j].0;
                        assert(x[i] == (key, x[i].1));
                        assert(x.contains((key, x[i].1)));
                    }
                },
            }
        },
        _ => {},
    }
}

/// The two fields are one, or both are lists or both objects.
pub open spec fn alike(x: Option<Value>, y: Option<Value>) -> bool {
    x == y || (x is Some && y is Some && (x->Some_0 is Arr && y->Some_0 is Arr || x->Some_0 is Obj
        && y->Some_0 is Obj))
}

proof fn lemma_alike(a: Value, b: Value, key: Seq<char>)
    requires
        reordered(a, b),
    ensures
        alike(a.field(key), b.field(key)),
        int_field(a, key) == int_field(b, key),
{
    lemma_same_field(a, b, key);
}

proof fn lemma_note_alike(a: Value, b: Value)
    requires
        int_field(a, "id"@) == int_field(b, "id"@),
        int_field(a, "x"@) == int_field(b, "x"@),
        int_field(a, "y"@) == int_field(b, "y"@),
        int_field(a, "w"@) == int_field(b, "w"@),
        int_field(a, "h"@) == int_field(b, "h"@),
        int_field(a, "docked"@) == int_field(b, "docked"@),
        int_field(a, "color"@) == int_field(b, "color"@),
        alike(a.field("docked"@), b.field("docked"@)),
        alike(a.field("color"@), b.field("color"@)),
        alike(a.field("text"@), b.field("text"@)),
        alike(a.field("free"@), b.field("free"@)),
        alike(a.field("font_size"@), b.field("font_size"@)),
    ensures
        note_of(a) == note_of(b),
        note_typed(a) == note_typed(b),
{
}

proof fn lemma_note_reordered(a: Value, b: Value)
    requires
        reordered(a, b),
    ensures
        note_of(a) == note_of(b),
        note_typed(a) == note_typed(b),
{
    lemma_alike(a, b, "id"@);
    lemma_alike(a, b, "x"@);
    lemma_alike(a, b, "y"@);
    lemma_alike(a, b, "w"@);
    lemma_alike(a, b, "h"@);
    lemma_alike(a, b, "docked"@);
    lemma_alike(a, b, "color"@);
    lemma_alike(a, b, "text"@);
    lemma_alike(a, b, "free"@);
    lemma_alike(a, b, "font_size"@);
    lemma_note_alike(a, b);
}

proof fn lemma_notes_reordered(x: Seq<Value>, y: Seq<Value>)
    requires
        x.len() == y.len(),
        forall|i: int| 0 <= i < x.len() ==> reordered(#[trigger] x[i], y[i]),
    ensures
        notes_of(x) == notes_of(y),
    decreases x.len(),
{
    if x.len() > 0 {
        lemma_note_reordered(x[0], y[0]);
        assert forall|i: int| 0 <= i < x.skip(1).len() implies reordered(
            #[trigger] x.skip(1)[i],
            y.skip(1)[i],
        ) by {
            assert(reordered(x[i + 1], y[i + 1]));
        }
        lemma_notes_reordered(x.skip(1), y.skip(1));
    }
}

/// The order of the fields does not matter, neither in the notes nor in the
/// document: two documents that differ in it alone are read as one store.
pub proof fn field_order_does_not_matter(s: Seq<char>, t: Seq<char>)
    requires
        document(s) is Some,
        document(t) is Some,
        reordered(document(s)->Some_0, document(t)->Some_0),
    ensures
        store_in(s) == store_in(t),
        loaded_store(Some(s)) == loaded_store(Some(t)),
{
    let a = document(s)->Some_0;
    let b = document(t)->Some_0;
    lemma_same_field(a, b, "version"@);
    lemma_same_field(a, b, "next_id"@);
    lemma_same_field(a, b, "notes"@);
    match (a.field("notes"@), b.field("notes"@)) {
        (Some(Value::Arr(x)), Some(Value::Arr(y))) => {
            lemma_notes_reordered(x, y);
            assert forall|i: int| 0 <= i < x.len() implies note_typed(#[trigger] x[i])
                == note_typed(y[i]) by {
                lemma_note_reordered(x[i], y[i]);
            }
            assert(notes_typed(x) == notes_typed(y)) by {
                if notes_typed(x) {
                    assert forall|i: int| 0 <= i < y.len() implies note_typed(#[trigger] y[i]) by {
                        assert(note_typed(x[i]));
                    }
                }
                if notes_typed(y) {
                    assert forall|i: int| 0 <= i < x.len() implies note_typed(#[trigger] x[i]) by {
                        assert(note_typed(y[i]));
                    }
                }
            }
        },
        _ => {},
    }
}

/// Every integer up to 2^53 survives.
pub proof fn small_integers_survive(v: int)
    requires
        -0x20_0000_0000_0000 <= v <= 0x20_0000_0000_0000,
    ensures
        survives(v),
{
    lemma_int_value_small(v);
}

/// The name of the directory that holds the documents.
pub open spec fn dir_of(appdata: Option<Seq<char>>, temp: Seq<char>) -> Seq<Seq<char>> {
    let base = match appdata {
        Some(a) => if a.len() > 0 {
            a
        } else {
            temp
        },
        None => temp,
    };
    seq![base, "liquidnotes"@]
}

/// The views of path components.
pub open spec fn path_view(p: Seq<String>) -> Seq<Seq<char>> {
    p.map_values(|c: String| c@)
}

/// An optional text.
pub open spec fn text_view(t: Option<String>) -> Option<Seq<char>> {
    match t {
        Some(s) => Some(s@),
        None => None,
    }
}

/// The directory of the documents, as path components: `liquidnotes` under the
/// user's application data, or under the directory for temporary files where
/// there is none.
pub fn store_dir(appdata: Option<String>, temp: String) -> (dir: Vec<String>)
    ensures
        path_view(dir@) == dir_of(text_view(appdata), temp@),
{
    let base: String = match appdata {
        Some(a) => if a.as_str().unicode_len() > 0 {
            a
        } else {
            temp
        },
        None => temp,
    };
    let mut dir: Vec<String> = Vec::new();
    dir.push(base);
    dir.push("liquidnotes".to_owned());
    assert(path_view(dir@) =~= dir_of(text_view(appdata), temp@));
    dir
}

/// The document of the notes, as path components.
pub fn store_path(appdata: Option<String>, temp: String) -> (path: Vec<String>)
    ensures
        path_view(path@) == dir_of(text_view(appdata), temp@).push("notes.json"@),
{
    let mut path = store_dir(appdata, temp);
    let ghost before = path_view(path@);
    path.push("notes.json".to_owned());
    assert(path_view(path@) =~= before.push("notes.json"@));
    path
}

/// The file beside a document that a new version of it is first written to.
pub fn temp_name(name: &String) -> (r: String)
    ensures
        r@ == name@ + ".tmp"@,
{
    let mut r = name.clone();
    r.append(".tmp");
    r
}

/// A field that is there is of its type.
pub open spec fn is_text(f: Option<Value>) -> bool {
    f is None || f->Some_0 is Str
}

pub open spec fn is_flag(f: Option<Value>) -> bool {
    f is None || f->Some_0 is Bool
}

pub open spec fn is_count(f: Option<Value>) -> bool {
    f is None || f->Some_0 is Num
}

/// The optional fields of a note are of their types.
pub open spec fn note_typed(v: Value) -> bool {
    &&& is_text(v.field("text"@))
    &&& is_flag(v.field("free"@))
    &&& is_count(v.field("docked"@))
    &&& is_count(v.field("color"@))
    &&& is_count(v.field("font_size"@))
}

pub open spec fn notes_typed(items: Seq<Value>) -> bool {
    forall|i: int| 0 <= i < items.len() ==> note_typed(#[trigger] items[i])
}

/// The optional fields of a document and of its notes are of their types.
pub open spec fn store_typed(v: Value) -> bool {
    &&& is_count(v.field("version"@))
    &&& is_count(v.field("next_id"@))
    &&& match v.field("notes"@) {
        Some(Value::Arr(items)) => notes_typed(items),
        Some(_) => false,
        None => true,
    }
}

/// The store that the contents of its document stand for. A document that is
/// missing, unreadable or malformed, or that holds a value of a wrong type in an
/// optional field, stands for an empty store.
pub open spec fn loaded_store(contents: Option<Seq<char>>) -> StoreValue {
    match contents {
        Some(s) => match document(s) {
            Some(v) => if store_of(v) is Some && store_typed(v) {
                store_of(v)->Some_0
            } else {
                empty_store()
            },
            None => empty_store(),
        },
        None => empty_store(),
    }
}

fn check_text(v: &Json, key: &str) -> (r: bool)
    ensures
        r == is_text(v@.field(key@)),
{
    match v.get(key) {
        Some(f) => matches!(f, Json::Str(_)),
        None => true,
    }
}

fn check_flag(v: &Json, key: &str) -> (r: bool)
    ensures
        r == is_flag(v@.field(key@)),
{
    match v.get(key) {
        Some(f) => matches!(f, Json::Bool(_)),
        None => true,
    }
}

fn check_count(v: &Json, key: &str) -> (r: bool)
    ensures
        r == is_count(v@.field(key@)),
{
    match v.get(key) {
        Some(f) => matches!(f, Json::Num(_)),
        None => true,
    }
}

fn check_note(v: &Json) -> (r: bool)
    ensures
        r == note_typed(v@),
{
    check_text(v, "text") && check_flag(v, "free") && check_count(v, "docked") && check_count(
        v,
        "color",
    ) && check_count(v, "font_size")
}

fn check_notes(items: &Vec<Json>) -> (r: bool)
    ensures
        r == notes_typed(items_view(items@)),
{
    let ghost m = items_view(items@);
    let mut i: usize = 0;
    while i < items.len()
        invariant
            i <= items@.len(),
            m == items_view(items@),
            forall|k: int| 0 <= k < i ==> note_typed(#[trigger] m[k]),
        decreases items@.len() - i,
    {
        assert(m[i as int] == items@[i as int]@);
        if !check_note(&items[i]) {
            return false;
        }
        i = i + 1;
    }
    true
}

/// Whether the optional fields of a document are of their types.
fn check_store(v: &Json) -> (r: bool)
    ensures
        r == store_typed(v@),
{
    let notes_ok = match v.get("notes") {
        Some(f) => match f {
            Json::Arr(items) => {
                proof {
                    lemma_array_view(*items);
                }
                check_notes(items)
            },
            _ => false,
        },
        None => true,
    };
    check_count(v, "version") && check_count(v, "next_id") && notes_ok
}

/// The store that the contents of its document stand for.
pub fn load(contents: Option<String>) -> (st: Store)
    ensures
        st@ == loaded_store(text_view(contents)),
{
    match contents {
        Some(s) => match parse_document(s.as_str()) {
            Some(root) => if check_store(&root) {
                match store_from(&root) {
                    Some(st) => st,
                    None => Store::default(),
                }
            } else {
                Store::default()
            },
            None => Store::default(),
        },
        None => Store::default(),
    }
}

/// Loading gives back the store whose document was saved, as it was written.
pub proof fn saved_store_is_loaded(st: StoreValue)
    requires
        store_survives(st),
    ensures
        loaded_store(Some(store_text(st))) == store_written(st),
{
    store_round_trip(st);
    lemma_store_document(st);
    let v = store_value(st);
    let items = st.notes.map_values(|n: NoteValue| note_value(n));
    assert forall|i: int| 0 <= i < items.len() implies note_typed(#[trigger] items[i]) by {
        let n = st.notes[i];
        lemma_note_fields(n);
        lemma_note_field(n, 7);
        lemma_note_field(n, 8);
    }
}

/// The steps of replacing a document: its new version is written to a file
/// beside it, which then takes its name.
#[derive(Clone, Copy, Debug, PartialEq, Eq, Structural)]
pub enum SaveStep {
    WriteTemp,
    Rename,
    RemoveTemp,
    Saved,
    Failed,
}

/// The step that comes after `done`, which went well or not.
pub open spec fn next_step(done: SaveStep, ok: bool) -> SaveStep {
    match done {
        SaveStep::WriteTemp => if ok {
            SaveStep::Rename
        } else {
            SaveStep::Failed
        },
        SaveStep::Rename => if ok {
            SaveStep::Saved
        } else {
            SaveStep::RemoveTemp
        },
        SaveStep::RemoveTemp => SaveStep::Failed,
        SaveStep::Saved => SaveStep::Saved,
        SaveStep::Failed => SaveStep::Failed,
    }
}

/// The step that comes after `done`, which went well or not.
pub fn save_atomic(done: SaveStep, ok: bool) -> (next: SaveStep)
    ensures
        next == next_step(done, ok),
{
    match done {
        SaveStep::WriteTemp => if ok {
            SaveStep::Rename
        } else {
            SaveStep::Failed
        },
        SaveStep::Rename => if ok {
            SaveStep::Saved
        } else {
            SaveStep::RemoveTemp
        },
        SaveStep::RemoveTemp => SaveStep::Failed,
        SaveStep::Saved => SaveStep::Saved,
        SaveStep::Failed => SaveStep::Failed,
    }
}

/// The document is replaced only by a new version that was written in full, and
/// counts as saved only once it was replaced.
pub proof fn only_whole_versions_replace(done: SaveStep, ok: bool)
    ensures
        next_step(done, ok) == SaveStep::Rename ==> done == SaveStep::WriteTemp && ok,
        next_step(done, ok) == SaveStep::Saved ==> done == SaveStep::Saved || (done
            == SaveStep::Rename && ok),
{
}

/// What the number-valued members say, in order.
pub open spec fn number_members(m: Seq<(Seq<char>, Value)>) -> Seq<(Seq<char>, Seq<char>)>
    decreases m.len(),
{
    if m.len() == 0 {
        Seq::empty()
    } else {
        match m[0].1 {
            Value::Num(t) => seq![(m[0].0, t)] + number_members(m.skip(1)),
            _ => number_members(m.skip(1)),
        }
    }
}

/// The number-valued fields of the object that a text is.
pub open spec fn number_fields(s: Seq<char>) -> Option<Seq<(Seq<char>, Seq<char>)>> {
    match document(s) {
        Some(Value::Obj(m)) => Some(number_members(m)),
        _ => None,
    }
}

/// The views of named numbers.
pub open spec fn field_views(v: Seq<(String, String)>) -> Seq<(Seq<char>, Seq<char>)> {
    v.map_values(|f: (String, String)| (f.0@, f.1@))
}

/// The number-valued fields of the object that a text is, in order; none where
/// it is not one JSON object.
pub fn parse_number_fields(s: &str) -> (r: Option<Vec<(String, String)>>)
    ensures
        match r {
            Some(f) => number_fields(s@) == Some(field_views(f@)),
            None => number_fields(s@) is None,
        },
{
    match parse_document(s)? {
        Json::Obj(pairs) => {
            proof {
                lemma_object_view(pairs);
            }
            let ghost m = members_view(pairs@);
            let mut out: Vec<(String, String)> = Vec::new();
            let mut i: usize = 0;
            assert(m.skip(0) == m);
            assert(field_views(out@) + number_members(m) == number_members(m));
            while i < pairs.len()
                invariant
                    i <= pairs@.len(),
                    m == members_view(pairs@),
                    field_views(out@) + number_members(m.skip(i as int)) == number_members(m),
                decreases pairs@.len() - i,
            {
                let ghost before = field_views(out@);
                let ghost t = m.skip(i as int);
                assert(t[0] == (pairs@[i as int].0@, pairs@[i as int].1@));
                assert(t.skip(1) == m.skip(i + 1));
                if let Json::Num(n) = &pairs[i].1 {
                    out.push((pairs[i].0.clone(), n.clone()));
                    let ghost f = (t[0].0, n@);
                    assert(field_views(out@) == before.push(f));
                    assert(before.push(f) + number_members(t.skip(1)) == before + (seq![f]
                        + number_members(t.skip(1))));
                }
                i = i + 1;
            }
            assert(field_views(out@) + number_members(m.skip(i as int)) == field_views(out@));
            Some(out)
        },
        _ => None,
    }
}

/// A value is a note just where it has an identity that is not negative, and a rectangle of
/// coordinates with a width and a height above zero; the note has these.
pub proof fn a_note_has_an_identity_and_a_rectangle(v: Value)
    ensures
        note_of(v) is Some <==> {
            &&& int_field(v, "id"@) is Some && int_field(v, "id"@)->Some_0 >= 0
            &&& int_field(v, "x"@) is Some && -0x8000_0000 <= int_field(v, "x"@)->Some_0
                <= 0x7fff_ffff
            &&& int_field(v, "y"@) is Some && -0x8000_0000 <= int_field(v, "y"@)->Some_0
                <= 0x7fff_ffff
            &&& int_field(v, "w"@) is Some && 0 < int_field(v, "w"@)->Some_0 <= 0x7fff_ffff
            &&& int_field(v, "h"@) is Some && 0 < int_field(v, "h"@)->Some_0 <= 0x7fff_ffff
        },
        note_of(v) matches Some(n) ==> {
            &&& n.x == int_field(v, "x"@)->Some_0 && n.y == int_field(v, "y"@)->Some_0
            &&& n.w == int_field(v, "w"@)->Some_0 && n.h == int_field(v, "h"@)->Some_0
            &&& int_field(v, "id"@)->Some_0 <= u64::MAX ==> n.id == int_field(v, "id"@)->Some_0
        },
{
}

/// What a note leaves out is as in a fresh one: no text, free, not docked, of the first
/// colour, in letters of 16. What it says is taken, where it is of its kind and in its range.
pub proof fn what_a_note_leaves_out_has_a_default(v: Value, n: NoteValue)
    requires
        note_of(v) == Some(n),
    ensures
        v.field("text"@) is None ==> n.text.len() == 0,
        v.field("text"@) matches Some(Value::Str(t)) ==> n.text == t,
        v.field("free"@) is None ==> n.free,
        v.field("free"@) matches Some(Value::Bool(b)) ==> n.free == b,
        int_field(v, "docked"@) is None ==> n.docked == 0,
        int_field(v, "docked"@) matches Some(d) ==> (-128 <= d <= 127 ==> n.docked == d) && (d < -128
            || d > 127 ==> n.docked == 0),
        int_field(v, "color"@) is None ==> n.color == 0,
        int_field(v, "color"@) matches Some(c) ==> (0 <= c <= 255 ==> n.color == c) && (c < 0 || c
            > 255 ==> n.color == 0),
        v.field("font_size"@) is None ==> n.font_size == "16.0"@,
        v.field("font_size"@) matches Some(Value::Num(t)) ==> n.font_size == tidy(t),
{
}

/// The notes of a list are those of its parts in turn: every item that is a note is there, in
/// its place, and the others leave no trace.
pub proof fn notes_are_read_item_by_item(a: Seq<Value>, b: Seq<Value>)
    ensures
        notes_of(a + b) == notes_of(a) + notes_of(b),
        a.len() == 1 && note_of(a[0]) is Some ==> notes_of(a) == seq![note_of(a[0])->Some_0],
        a.len() == 1 && note_of(a[0]) is None ==> notes_of(a).len() == 0,
        notes_of(a).len() <= a.len(),
    decreases a.len(),
{
    if a.len() == 0 {
        assert(a + b =~= b);
        assert(notes_of(a) + notes_of(b) =~= notes_of(b));
    } else {
        let t = a.skip(1);
        notes_are_read_item_by_item(t, b);
        assert((a + b).skip(1) =~= t + b);
        assert((a + b)[0] == a[0]);
        assert(notes_of(a + b) =~= notes_of(a) + notes_of(b));
        if a.len() == 1 {
            assert(t =~= Seq::<Value>::empty());
            assert(notes_of(t) =~= Seq::<NoteValue>::empty());
        }
    }
}

/// A store has the numbers that its object says, where they are in their ranges, and one
/// where they are not; what is no object is no store.
pub proof fn a_store_is_an_object(v: Value)
    ensures
        store_of(v) is Some <==> v is Obj,
        store_of(v) matches Some(st) ==> {
            &&& int_field(v, "version"@) is None ==> st.version == 1
            &&& int_field(v, "version"@) matches Some(n) ==> (0 <= n <= u32::MAX ==> st.version == n)
                && (n < 0 || n > u32::MAX ==> st.version == 1)
            &&& int_field(v, "next_id"@) is None ==> st.next_id == 1
            &&& int_field(v, "next_id"@) matches Some(n) ==> (0 <= n <= u64::MAX ==> st.next_id == n)
                && (n < 0 || n > u64::MAX ==> st.next_id == 1)
            &&& v.field("notes"@) is None ==> st.notes.len() == 0
            &&& v.field("notes"@) matches Some(Value::Arr(items)) ==> st.notes == notes_of(items)
        },
{
}

/// Without a document, with one that is no JSON, and with one whose optional fields are not
/// of their kinds, there are no notes; otherwise the document decides.
pub proof fn a_bad_document_stands_for_nothing(s: Seq<char>)
    ensures
        loaded_store(None) == empty_store(),
        document(s) is None ==> loaded_store(Some(s)) == empty_store(),
        document(s) matches Some(v) ==> (!(v is Obj) || !store_typed(v)) ==> loaded_store(Some(s))
            == empty_store(),
        document(s) matches Some(v) ==> v is Obj && store_typed(v) ==> Some(loaded_store(Some(s)))
            == store_in(s),
        empty_store().notes.len() == 0 && empty_store().next_id == 1 && empty_store().version == 1,
{
}

/// Saving ends: where writing and then renaming go well it is saved, and where either goes
/// wrong it has failed, once a file that was left over is removed.
pub proof fn saving_ends_saved_or_failed(a: bool, b: bool, c: bool)
    ensures
        next_step(next_step(SaveStep::WriteTemp, true), true) == SaveStep::Saved,
        next_step(SaveStep::WriteTemp, false) == SaveStep::Failed,
        next_step(next_step(SaveStep::WriteTemp, true), false) == SaveStep::RemoveTemp,
        next_step(SaveStep::RemoveTemp, c) == SaveStep::Failed,
        ({
            let end = next_step(next_step(next_step(SaveStep::WriteTemp, a), b), c);
            &&& end == SaveStep::Saved || end == SaveStep::Failed
            &&& end == SaveStep::Saved <==> a && b
        }),
        next_step(SaveStep::Saved, a) == SaveStep::Saved,
        next_step(SaveStep::Failed, a) == SaveStep::Failed,
{
}

/// The documents lie in a directory of their own, under the user's application data where
/// that has a name, and else under the one for temporary files.
pub proof fn documents_have_a_directory(appdata: Option<Seq<char>>, temp: Seq<char>)
    ensures
        dir_of(appdata, temp).len() == 2,
        dir_of(appdata, temp)[1] == "liquidnotes"@,
        appdata matches Some(a) ==> (a.len() > 0 ==> dir_of(appdata, temp)[0] == a) && (a.len() == 0
            ==> dir_of(appdata, temp)[0] == temp),
        appdata is None ==> dir_of(appdata, temp)[0] == temp,
{
}

/// The numbers of an object are those of its members in turn: each that is a number is there
/// under its name, and the others leave no trace.
pub proof fn numbers_are_read_member_by_member(
    a: Seq<(Seq<char>, Value)>,
    b: Seq<(Seq<char>, Value)>,
)
    ensures
        number_members(a + b) == number_members(a) + number_members(b),
        a.len() == 1 ==> match a[0].1 {
            Value::Num(t) => number_members(a) == seq![(a[0].0, t)],
            _ => number_members(a).len() == 0,
        },
    decreases a.len(),
{
    if a.len() == 0 {
        assert(a + b =~= b);
        assert(number_members(a) + number_members(b) =~= number_members(b));
    } else {
        let t = a.skip(1);
        numbers_are_read_member_by_member(t, b);
        assert((a + b).skip(1) =~= t + b);
        assert((a + b)[0] == a[0]);
        assert(number_members(a + b) =~= number_members(a) + number_members(b));
        if a.len() == 1 {
            assert(t =~= Seq::<(Seq<char>, Value)>::empty());
            assert(number_members(t) =~= Seq::<(Seq<char>, Seq<char>)>::empty());
        }
    }
}

} // verus!
