//! JSON documents.

use vstd::prelude::*;
use crate::number::at;
use crate::number::int_value;
use crate::number::is_digit;
use crate::number::number_int;
use crate::number::scan;
use crate::number::scan_number;
use crate::strings::chars_of;
use crate::strings::scalar;
use crate::strings::string_of;

verus! {

/// What a JSON document says; a number is kept as its text.
pub ghost enum Value {
    Null,
    Bool(bool),
    Num(Seq<char>),
    Str(Seq<char>),
    Arr(Seq<Value>),
    Obj(Seq<(Seq<char>, Value)>),
}

/// A parsed JSON value.
#[derive(Debug)]
pub enum Json {
    Null,
    Bool(bool),
    Num(String),
    Str(String),
    Arr(Vec<Json>),
    Obj(Vec<(String, Json)>),
}

impl View for Json {
    type V = Value;

    open spec fn view(&self) -> Value
        decreases self,
    {
        match self {
            Json::Null => Value::Null,
            Json::Bool(b) => Value::Bool(*b),
            Json::Num(t) => Value::Num(t@),
            Json::Str(t) => Value::Str(t@),
            Json::Arr(v) => Value::Arr(
                Seq::new(
                    v@.len(),
                    |i: int|
                        if 0 <= i < v@.len() {
                            v@[i].view()
                        } else {
                            Value::Null
                        },
                ),
            ),
            Json::Obj(v) => Value::Obj(
                Seq::new(
                    v@.len(),
                    |i: int|
                        (
                            v@[i].0@,
                            if 0 <= i < v@.len() {
                                v@[i].1.view()
                            } else {
                                Value::Null
                            },
                        ),
                ),
            ),
        }
    }
}

/// A character that may stand between two tokens.
pub open spec fn is_ws(c: char) -> bool {
    c == ' ' || c == '\t' || c == '\n' || c == '\r'
}

/// `s` from its first character on that is no white space.
pub open spec fn skip_ws(s: Seq<char>) -> Seq<char>
    decreases s.len(),
{
    if s.len() > 0 && is_ws(s[0]) {
        skip_ws(s.skip(1))
    } else {
        s
    }
}

/// What a hexadecimal digit counts.
pub open spec fn hex_value(c: char) -> Option<int> {
    if '0' <= c <= '9' {
        Some(c as int - '0' as int)
    } else if 'a' <= c <= 'f' {
        Some(c as int - 'a' as int + 10)
    } else if 'A' <= c <= 'F' {
        Some(c as int - 'A' as int + 10)
    } else {
        None
    }
}

/// The number that four hexadecimal digits at the start of `s` denote.
pub open spec fn hex4(s: Seq<char>) -> Option<int> {
    if s.len() < 4 {
        None
    } else {
        match (hex_value(s[0]), hex_value(s[1]), hex_value(s[2]), hex_value(s[3])) {
            (Some(a), Some(b), Some(c), Some(d)) => Some(4096 * a + 256 * b + 16 * c + d),
            _ => None,
        }
    }
}

/// What the escape behind a backslash stands for, and how many characters it
/// takes. A character beyond the basic plane is a pair of surrogates.
pub open spec fn escape_at(s: Seq<char>) -> Option<(char, int)> {
    if s.len() == 0 {
        None
    } else if s[0] == '"' || s[0] == '\\' || s[0] == '/' {
        Some((s[0], 1))
    } else if s[0] == 'b' {
        Some(('\u{8}', 1))
    } else if s[0] == 'f' {
        Some(('\u{c}', 1))
    } else if s[0] == 'n' {
        Some(('\n', 1))
    } else if s[0] == 'r' {
        Some(('\r', 1))
    } else if s[0] == 't' {
        Some(('\t', 1))
    } else if s[0] == 'u' {
        match hex4(s.skip(1)) {
            None => None,
            Some(hi) => if 0xD800 <= hi < 0xDC00 {
                if at(s, 5, '\\') && at(s, 6, 'u') {
                    match hex4(s.skip(7)) {
                        Some(lo) => if 0xDC00 <= lo < 0xE000 {
                            Some(
                                ((0x10000 + 1024 * (hi - 0xD800) + (lo - 0xDC00)) as char, 11),
                            )
                        } else {
                            None
                        },
                        None => None,
                    }
                } else {
                    None
                }
            } else if 0xDC00 <= hi < 0xE000 {
                None
            } else {
                Some((hi as char, 5))
            },
        }
    } else {
        None
    }
}

/// A character that a string may not hold as it is.
pub open spec fn is_control(c: char) -> bool {
    c <= '\u{1f}'
}

/// A character inside a string, plain or escaped, and how many characters it
/// takes.
pub open spec fn char_at(s: Seq<char>) -> Option<(char, int)> {
    if s.len() == 0 || is_control(s[0]) {
        None
    } else if s[0] == '\\' {
        match escape_at(s.skip(1)) {
            Some((c, n)) => Some((c, 1 + n)),
            None => None,
        }
    } else {
        Some((s[0], 1))
    }
}

/// What a string holds from here up to its closing quote, and what follows the
/// quote.
pub open spec fn string_body(s: Seq<char>) -> Option<(Seq<char>, Seq<char>)>
    decreases s.len(),
{
    if at(s, 0, '"') {
        Some((Seq::empty(), s.skip(1)))
    } else {
        match char_at(s) {
            Some((c, n)) => prefixed(c, string_body(s.skip(n))),
            None => None,
        }
    }
}

/// One more character in front of what a string holds.
pub open spec fn prefixed(c: char, r: Option<(Seq<char>, Seq<char>)>) -> Option<
    (Seq<char>, Seq<char>),
> {
    match r {
        Some((t, rest)) => Some((seq![c] + t, rest)),
        None => None,
    }
}

/// A string in quotes, and what follows it.
pub open spec fn string_at(s: Seq<char>) -> Option<(Seq<char>, Seq<char>)> {
    if at(s, 0, '"') {
        string_body(s.skip(1))
    } else {
        None
    }
}

/// A word of the language, and what follows it.
pub open spec fn literal_at(s: Seq<char>, lit: Seq<char>, v: Value) -> Option<(Value, Seq<char>)> {
    if lit.is_prefix_of(s) {
        Some((v, s.skip(lit.len() as int)))
    } else {
        None
    }
}

/// A number, and what follows it.
pub open spec fn number_at(s: Seq<char>) -> Option<(Value, Seq<char>)> {
    let n = scan(s);
    if n.valid() {
        Some((Value::Num(s.take(n.len)), s.skip(n.len)))
    } else {
        None
    }
}

/// A value, after white space, and what follows it.
pub open spec fn value_at(s: Seq<char>) -> Option<(Value, Seq<char>)>
    decreases s.len(), 2int,
{
    let t = skip_ws(s);
    if t.len() == 0 || t.len() > s.len() {
        None
    } else if t[0] == '{' {
        object_at(t)
    } else if t[0] == '[' {
        array_at(t)
    } else if t[0] == '"' {
        match string_at(t) {
            Some((c, rest)) => Some((Value::Str(c), rest)),
            None => None,
        }
    } else if t[0] == 't' {
        literal_at(t, "true"@, Value::Bool(true))
    } else if t[0] == 'f' {
        literal_at(t, "false"@, Value::Bool(false))
    } else if t[0] == 'n' {
        literal_at(t, "null"@, Value::Null)
    } else if t[0] == '-' || is_digit(t[0]) {
        number_at(t)
    } else {
        None
    }
}

/// An object in braces, and what follows it.
pub open spec fn object_at(s: Seq<char>) -> Option<(Value, Seq<char>)>
    decreases s.len(), 1int,
{
    let u = skip_ws(s.skip(1));
    if !at(s, 0, '{') || u.len() >= s.len() {
        None
    } else if at(u, 0, '}') {
        Some((Value::Obj(Seq::empty()), u.skip(1)))
    } else {
        match members_at(u) {
            Some((m, rest)) => Some((Value::Obj(m), rest)),
            None => None,
        }
    }
}

/// An array in brackets, and what follows it.
pub open spec fn array_at(s: Seq<char>) -> Option<(Value, Seq<char>)>
    decreases s.len(), 1int,
{
    let u = skip_ws(s.skip(1));
    if !at(s, 0, '[') || u.len() >= s.len() {
        None
    } else if at(u, 0, ']') {
        Some((Value::Arr(Seq::empty()), u.skip(1)))
    } else {
        match items_at(u) {
            Some((m, rest)) => Some((Value::Arr(m), rest)),
            None => None,
        }
    }
}

/// A key, a colon and a value, and what follows them.
pub open spec fn member_at(s: Seq<char>) -> Option<((Seq<char>, Value), Seq<char>)>
    decreases s.len(), 3int,
{
    match string_at(skip_ws(s)) {
        None => None,
        Some((k, r)) => {
            let r1 = skip_ws(r);
            if !at(r1, 0, ':') || r1.len() > s.len() {
                None
            } else {
                match value_at(r1.skip(1)) {
                    Some((v, rest)) => Some(((k, v), rest)),
                    None => None,
                }
            }
        },
    }
}

/// The members of an object up to its closing brace, at least one, and what
/// follows the brace.
pub open spec fn members_at(s: Seq<char>) -> Option<(Seq<(Seq<char>, Value)>, Seq<char>)>
    decreases s.len(), 4int,
{
    match member_at(s) {
        None => None,
        Some((kv, r)) => {
            let r1 = skip_ws(r);
            if at(r1, 0, ',') && r1.len() <= s.len() {
                more_members(seq![kv], members_at(r1.skip(1)))
            } else if at(r1, 0, '}') {
                Some((seq![kv], r1.skip(1)))
            } else {
                None
            }
        },
    }
}

/// Members in front of others.
pub open spec fn more_members(
    acc: Seq<(Seq<char>, Value)>,
    r: Option<(Seq<(Seq<char>, Value)>, Seq<char>)>,
) -> Option<(Seq<(Seq<char>, Value)>, Seq<char>)> {
    match r {
        Some((m, rest)) => Some((acc + m, rest)),
        None => None,
    }
}

/// The items of an array up to its closing bracket, at least one, and what
/// follows the bracket.
pub open spec fn items_at(s: Seq<char>) -> Option<(Seq<Value>, Seq<char>)>
    decreases s.len(), 4int,
{
    match value_at(s) {
        None => None,
        Some((v, r)) => {
            let r1 = skip_ws(r);
            if at(r1, 0, ',') && r1.len() <= s.len() {
                more_items(seq![v], items_at(r1.skip(1)))
            } else if at(r1, 0, ']') {
                Some((seq![v], r1.skip(1)))
            } else {
                None
            }
        },
    }
}

/// Items in front of others.
pub open spec fn more_items(acc: Seq<Value>, r: Option<(Seq<Value>, Seq<char>)>) -> Option<
    (Seq<Value>, Seq<char>),
> {
    match r {
        Some((m, rest)) => Some((acc + m, rest)),
        None => None,
    }
}

/// What the first member with this key holds.
pub open spec fn lookup(m: Seq<(Seq<char>, Value)>, key: Seq<char>) -> Option<Value>
    decreases m.len(),
{
    if m.len() == 0 {
        None
    } else if m[0].0 == key {
        Some(m[0].1)
    } else {
        lookup(m.skip(1), key)
    }
}

impl Value {
    /// The field of an object.
    pub open spec fn field(self, key: Seq<char>) -> Option<Value> {
        match self {
            Value::Obj(m) => lookup(m, key),
            _ => None,
        }
    }

    /// The integer that a number denotes.
    pub open spec fn integer(self) -> Option<int> {
        match self {
            Value::Num(t) => int_value(t),
            _ => None,
        }
    }
}

/// What a document says: one value, with nothing but white space round it.
pub open spec fn document(s: Seq<char>) -> Option<Value> {
    match value_at(s) {
        Some((v, rest)) => if skip_ws(rest).len() == 0 {
            Some(v)
        } else {
            None
        },
        None => None,
    }
}

impl Json {
    /// The first field of this name, where the value is an object.
    pub fn get<'a>(&'a self, key: &str) -> (r: Option<&'a Json>)
        ensures
            match r {
                Some(j) => self@.field(key@) == Some(j@),
                None => self@.field(key@) is None,
            },
    {
        match self {
            Json::Obj(pairs) => {
                proof {
                    lemma_object_view(*pairs);
                }
                let ghost m = members_view(pairs@);
                let wanted: String = key.to_owned();
                let mut i: usize = 0;
                assert(m.skip(0) == m);
                while i < pairs.len()
                    invariant
                        i <= pairs@.len(),
                        m == members_view(pairs@),
                        wanted@ == key@,
                        self@.field(key@) == lookup(m, key@),
                        lookup(m, key@) == lookup(m.skip(i as int), key@),
                    decreases pairs@.len() - i,
                {
                    assert(m.skip(i as int)[0] == (pairs@[i as int].0@, pairs@[i as int].1@));
                    if pairs[i].0 == wanted {
                        return Some(&pairs[i].1);
                    }
                    assert(m.skip(i as int).skip(1) == m.skip(i + 1));
                    i = i + 1;
                }
                None
            },
            _ => None,
        }
    }

    /// The text of a number.
    pub fn num(&self) -> (r: Option<String>)
        ensures
            match self@ {
                Value::Num(t) => r matches Some(u) && u@ == t,
                _ => r is None,
            },
    {
        match self {
            Json::Num(t) => Some(t.clone()),
            _ => None,
        }
    }

    /// The integer that a number denotes.
    pub fn integer(&self) -> (r: Option<i64>)
        ensures
            match self@.integer() {
                Some(v) => r == Some(v as i64) && i64::MIN <= v <= i64::MAX,
                None => r is None,
            },
    {
        match self {
            Json::Num(t) => number_int(&chars_of(t.as_str())),
            _ => None,
        }
    }
}

/// Reads a whole document.
pub fn parse_document(s: &str) -> (r: Option<Json>)
    ensures
        match r {
            Some(j) => document(s@) == Some(j@),
            None => document(s@) is None,
        },
{
    let mut p = Parser::new(s);
    let root = p.value()?;
    p.skip_ws();
    if p.i != p.b.len() {
        return None;
    }
    Some(root)
}

/// The views of parsed items.
pub open spec fn items_view(v: Seq<Json>) -> Seq<Value> {
    v.map_values(|j: Json| j@)
}

/// The views of parsed members.
pub open spec fn members_view(v: Seq<(String, Json)>) -> Seq<(Seq<char>, Value)> {
    v.map_values(|m: (String, Json)| (m.0@, m.1@))
}

pub proof fn lemma_array_view(v: Vec<Json>)
    ensures
        Json::Arr(v)@ == Value::Arr(items_view(v@)),
{
    assert(Json::Arr(v)@->Arr_0 =~= items_view(v@));
}

pub proof fn lemma_object_view(v: Vec<(String, Json)>)
    ensures
        Json::Obj(v)@ == Value::Obj(members_view(v@)),
{
    assert(Json::Obj(v)@->Obj_0 =~= members_view(v@));
}

pub proof fn lemma_skip_ws(s: Seq<char>)
    ensures
        skip_ws(s).len() <= s.len(),
        skip_ws(skip_ws(s)) == skip_ws(s),
        s.len() > 0 && !is_ws(s[0]) ==> skip_ws(s) == s,
        skip_ws(s).len() > 0 ==> !is_ws(skip_ws(s)[0]),
    decreases s.len(),
{
    if s.len() > 0 && is_ws(s[0]) {
        lemma_skip_ws(s.skip(1));
    }
}

/// A reader of JSON text.
pub struct Parser {
    pub b: Vec<char>,
    pub i: usize,
}

/// An escape lies within its text and holds no control character.
proof fn lemma_escape_plain(s: Seq<char>)
    ensures
        escape_at(s) matches Some((_, n)) ==> 0 < n <= s.len() && forall|k: int|
            0 <= k < n ==> ' ' <= #[trigger] s[k],
{
    if s.len() > 0 && s[0] == 'u' && escape_at(s) is Some {
        let t = s.skip(1);
        assert(hex4(t) is Some);
        assert(t[0] == s[1] && t[1] == s[2] && t[2] == s[3] && t[3] == s[4]);
        if escape_at(s)->Some_0.1 == 11 {
            let u = s.skip(7);
            assert(u[0] == s[7] && u[1] == s[8] && u[2] == s[9] && u[3] == s[10]);
        }
    }
}

impl Parser {
    /// The position is inside the text.
    pub open spec fn wf(self) -> bool {
        self.i <= self.b@.len()
    }

    /// What is still to be read.
    pub open spec fn rest(self) -> Seq<char> {
        self.b@.skip(self.i as int)
    }

    /// The same text, read on.
    pub open spec fn after(self, before: Parser) -> bool {
        &&& self.wf()
        &&& self.b@ == before.b@
        &&& self.i >= before.i
    }

    /// A reader at the start of a text.
    pub fn new(s: &str) -> (r: Parser)
        ensures
            r.wf(),
            r.i == 0,
            r.b@ == s@,
            r.rest() == s@,
    {
        let b = chars_of(s);
        assert(b@.skip(0) == b@);
        Parser { b, i: 0 }
    }

    /// Goes on by `n` characters.
    fn advance(&mut self, n: usize)
        requires
            old(self).wf(),
            n <= old(self).rest().len(),
        ensures
            final(self).after(*old(self)),
            final(self).i == old(self).i + n,
            final(self).rest() == old(self).rest().skip(n as int),
    {
        let len: usize = self.b.len();
        self.i = self.i + n;
        assert(self.rest() == old(self).rest().skip(n as int));
    }

    /// Goes on to the next character that is no white space.
    pub fn skip_ws(&mut self)
        requires
            old(self).wf(),
        ensures
            final(self).after(*old(self)),
            final(self).rest() == skip_ws(old(self).rest()),
    {
        while self.i < self.b.len() && (self.b[self.i] == ' ' || self.b[self.i] == '\t'
            || self.b[self.i] == '\n' || self.b[self.i] == '\r')
            invariant
                self.after(*old(self)),
                skip_ws(self.rest()) == skip_ws(old(self).rest()),
            decreases self.b@.len() - self.i,
        {
            assert(self.rest()[0] == self.b@[self.i as int]);
            self.advance(1);
        }
        if self.i < self.b.len() {
            assert(self.rest()[0] == self.b@[self.i as int]);
        }
    }

    /// The next character.
    pub fn peek(&self) -> (r: Option<char>)
        requires
            self.wf(),
        ensures
            match r {
                Some(c) => self.rest().len() > 0 && c == self.rest()[0],
                None => self.rest().len() == 0,
            },
    {
        if self.i < self.b.len() {
            Some(self.b[self.i])
        } else {
            None
        }
    }

    /// Reads `c` where it comes next.
    pub fn eat(&mut self, c: char) -> (r: bool)
        requires
            old(self).wf(),
        ensures
            r == at(old(self).rest(), 0, c),
            final(self).after(*old(self)),
            r ==> final(self).rest() == old(self).rest().skip(1),
            r ==> final(self).i == old(self).i + 1,
            !r ==> *final(self) == *old(self),
    {
        match self.peek() {
            Some(d) => if d == c {
                self.advance(1);
                true
            } else {
                false
            },
            None => false,
        }
    }

    /// Reads a word where it comes next; otherwise nothing is read.
    pub fn expect_lit(&mut self, lit: &str) -> (r: Option<()>)
        requires
            old(self).wf(),
        ensures
            r is Some <==> lit@.is_prefix_of(old(self).rest()),
            final(self).after(*old(self)),
            r is Some ==> final(self).rest() == old(self).rest().skip(lit@.len() as int),
            r is Some ==> final(self).i == old(self).i + lit@.len(),
            r is None ==> *final(self) == *old(self),
    {
        let l = chars_of(lit);
        let n: usize = self.b.len();
        if n - self.i < l.len() {
            return None;
        }
        let mut k: usize = 0;
        while k < l.len()
            invariant
                *self == *old(self),
                self.wf(),
                l@ == lit@,
                n == self.b@.len(),
                k <= l@.len(),
                l@.len() <= self.rest().len(),
                forall|j: int| 0 <= j < k ==> #[trigger] l@[j] == self.rest()[j],
            decreases l@.len() - k,
        {
            assert(self.rest()[k as int] == self.b@[self.i + k]);
            if self.b[self.i + k] != l[k] {
                return None;
            }
            k = k + 1;
        }
        self.advance(k);
        Some(())
    }

    /// A number.
    pub fn number(&mut self) -> (r: Option<Json>)
        requires
            old(self).wf(),
        ensures
            final(self).after(*old(self)),
            match r {
                Some(v) => {
                    &&& number_at(old(self).rest()) == Some((v@, final(self).rest()))
                    &&& final(self).i > old(self).i
                },
                None => number_at(old(self).rest()) is None,
            },
    {
        let from: usize = self.i;
        let len: usize = self.b.len();
        let n = scan_number(&self.b, from);
        if !n.is_valid() {
            return None;
        }
        let text = string_of(&self.b, from, from + n.len);
        assert(text@ == self.rest().take(n.len as int));
        self.advance(n.len);
        Some(Json::Num(text))
    }

    /// A value, after white space.
    pub fn value(&mut self) -> (r: Option<Json>)
        requires
            old(self).wf(),
        ensures
            final(self).after(*old(self)),
            match r {
                Some(v) => {
                    &&& value_at(old(self).rest()) == Some((v@, final(self).rest()))
                    &&& final(self).i > old(self).i
                },
                None => value_at(old(self).rest()) is None,
            },
        decreases old(self).b@.len() - old(self).i, 2int,
    {
        self.skip_ws();
        let c: char = self.peek()?;
        proof {
            reveal_strlit("true");
            reveal_strlit("false");
            reveal_strlit("null");
        }
        if c == '{' {
            self.object()
        } else if c == '[' {
            self.array()
        } else if c == '"' {
            let text = self.string()?;
            Some(Json::Str(text))
        } else if c == 't' {
            self.expect_lit("true")?;
            Some(Json::Bool(true))
        } else if c == 'f' {
            self.expect_lit("false")?;
            Some(Json::Bool(false))
        } else if c == 'n' {
            self.expect_lit("null")?;
            Some(Json::Null)
        } else if c == '-' || ('0' <= c && c <= '9') {
            self.number()
        } else {
            None
        }
    }

    /// An object.
    pub fn object(&mut self) -> (r: Option<Json>)
        requires
            old(self).wf(),
        ensures
            final(self).after(*old(self)),
            match r {
                Some(v) => {
                    &&& object_at(old(self).rest()) == Some((v@, final(self).rest()))
                    &&& final(self).i > old(self).i
                },
                None => object_at(old(self).rest()) is None,
            },
        decreases old(self).b@.len() - old(self).i, 1int,
    {
        if !self.eat('{') {
            return None;
        }
        let mut pairs: Vec<(String, Json)> = Vec::new();
        self.skip_ws();
        let ghost u = self.rest();
        proof {
            lemma_object_view(pairs);
            assert(members_view(pairs@) == Seq::<(Seq<char>, Value)>::empty());
        }
        if self.eat('}') {
            return Some(Json::Obj(pairs));
        }
        assert(more_members(members_view(pairs@), members_at(u)) == members_at(u)) by {
            if let Some((m, rest)) = members_at(u) {
                assert(members_view(pairs@) + m == m);
            }
        }
        loop
            invariant
                self.after(*old(self)),
                self.i > old(self).i,
                object_at(old(self).rest()) == match members_at(u) {
                    Some((m, rest)) => Some((Value::Obj(m), rest)),
                    None => None,
                },
                more_members(members_view(pairs@), members_at(self.rest())) == members_at(u),
            decreases self.b@.len() - self.i,
        {
            let ghost before = members_view(pairs@);
            let (key, val) = self.member()?;
            let ghost kv = (key@, val@);
            pairs.push((key, val));
            self.skip_ws();
            assert(members_view(pairs@) == before + seq![kv]);
            if self.eat(',') {
                proof {
                    if let Some((m, rest)) = members_at(self.rest()) {
                        assert(before + (seq![kv] + m) == members_view(pairs@) + m);
                    }
                }
                continue;
            }
            if self.eat('}') {
                proof {
                    lemma_object_view(pairs);
                }
                return Some(Json::Obj(pairs));
            }
            return None;
        }
    }

    /// A key, a colon and a value.
    fn member(&mut self) -> (r: Option<(String, Json)>)
        requires
            old(self).wf(),
        ensures
            final(self).after(*old(self)),
            match r {
                Some(kv) => {
                    &&& member_at(old(self).rest()) == Some(((kv.0@, kv.1@), final(self).rest()))
                    &&& final(self).i > old(self).i
                },
                None => member_at(old(self).rest()) is None,
            },
        decreases old(self).b@.len() - old(self).i, 3int,
    {
        self.skip_ws();
        let key = self.string()?;
        self.skip_ws();
        if !self.eat(':') {
            return None;
        }
        let val = self.value()?;
        Some((key, val))
    }

    /// An array.
    pub fn array(&mut self) -> (r: Option<Json>)
        requires
            old(self).wf(),
        ensures
            final(self).after(*old(self)),
            match r {
                Some(v) => {
                    &&& array_at(old(self).rest()) == Some((v@, final(self).rest()))
                    &&& final(self).i > old(self).i
                },
                None => array_at(old(self).rest()) is None,
            },
        decreases old(self).b@.len() - old(self).i, 1int,
    {
        if !self.eat('[') {
            return None;
        }
        let mut items: Vec<Json> = Vec::new();
        self.skip_ws();
        let ghost u = self.rest();
        proof {
            lemma_array_view(items);
            assert(items_view(items@) == Seq::<Value>::empty());
        }
        if self.eat(']') {
            return Some(Json::Arr(items));
        }
        assert(more_items(items_view(items@), items_at(u)) == items_at(u)) by {
            if let Some((m, rest)) = items_at(u) {
                assert(items_view(items@) + m == m);
            }
        }
        loop
            invariant
                self.after(*old(self)),
                self.i > old(self).i,
                array_at(old(self).rest()) == match items_at(u) {
                    Some((m, rest)) => Some((Value::Arr(m), rest)),
                    None => None,
                },
                more_items(items_view(items@), items_at(self.rest())) == items_at(u),
            decreases self.b@.len() - self.i,
        {
            let ghost before = items_view(items@);
            let val = self.value()?;
            let ghost v = val@;
            items.push(val);
            self.skip_ws();
            assert(items_view(items@) == before + seq![v]);
            if self.eat(',') {
                proof {
                    if let Some((m, rest)) = items_at(self.rest()) {
                        assert(before + (seq![v] + m) == items_view(items@) + m);
                    }
                }
                continue;
            }
            if self.eat(']') {
                proof {
                    lemma_array_view(items);
                }
                return Some(Json::Arr(items));
            }
            return None;
        }
    }

    /// The escape behind a backslash.
    fn escape(&mut self) -> (r: Option<char>)
        requires
            old(self).wf(),
        ensures
            final(self).after(*old(self)),
            match r {
                Some(c) => {
                    &&& escape_at(old(self).rest()) matches Some((d, n)) && d == c
                        && final(self).rest() == old(self).rest().skip(n)
                },
                None => escape_at(old(self).rest()) is None,
            },
    {
        let ghost s = self.rest();
        let e: char = self.peek()?;
        self.advance(1);
        if e == '"' || e == '\\' || e == '/' {
            Some(e)
        } else if e == 'b' {
            Some('\u{8}')
        } else if e == 'f' {
            Some('\u{c}')
        } else if e == 'n' {
            Some('\n')
        } else if e == 'r' {
            Some('\r')
        } else if e == 't' {
            Some('\t')
        } else if e == 'u' {
            let hi: u32 = self.hex4()?;
            assert(s.skip(1).skip(4) == s.skip(5));
            if 0xD800 <= hi && hi < 0xDC00 {
                if !self.eat('\\') {
                    return None;
                }
                assert(s.skip(5).skip(1) == s.skip(6));
                if !self.eat('u') {
                    return None;
                }
                assert(s.skip(6).skip(1) == s.skip(7));
                let lo: u32 = self.hex4()?;
                assert(s.skip(7).skip(4) == s.skip(11));
                if lo < 0xDC00 || 0xE000 <= lo {
                    return None;
                }
                scalar(0x10000 + 1024 * (hi - 0xD800) + (lo - 0xDC00))
            } else {
                scalar(hi)
            }
        } else {
            None
        }
    }

    /// A character inside a string.
    fn string_char(&mut self) -> (r: Option<char>)
        requires
            old(self).wf(),
        ensures
            final(self).after(*old(self)),
            match r {
                Some(c) => {
                    &&& char_at(old(self).rest()) matches Some((d, n)) && d == c
                        && final(self).rest() == old(self).rest().skip(n)
                    &&& final(self).i > old(self).i
                    &&& forall|k: int|
                        old(self).i <= k < final(self).i ==> ' ' <= #[trigger] final(self).b@[k]
                },
                None => char_at(old(self).rest()) is None,
            },
    {
        let ghost s = self.rest();
        let c: char = self.peek()?;
        if c <= '\u{1f}' {
            return None;
        }
        self.advance(1);
        if c == '\\' {
            let e: char = self.escape()?;
            proof {
                let n = escape_at(s.skip(1))->Some_0.1;
                assert(s.skip(1).skip(n) == s.skip(1 + n));
                lemma_escape_plain(s.skip(1));
                assert(self.i == old(self).i + 1 + n);
                assert forall|k: int| old(self).i <= k < self.i implies ' ' <= #[trigger] self.b@[k] by {
                    if k > old(self).i {
                        assert(self.b@[k] == s.skip(1)[k - old(self).i - 1]);
                    }
                }
            }
            Some(e)
        } else {
            Some(c)
        }
    }

    /// A string in quotes.
    pub fn string(&mut self) -> (r: Option<String>)
        requires
            old(self).wf(),
        ensures
            final(self).after(*old(self)),
            match r {
                Some(t) => {
                    &&& string_at(old(self).rest()) == Some((t@, final(self).rest()))
                    &&& final(self).i >= old(self).i + 2
                    &&& final(self).b@[final(self).i - 1] == '"'
                    &&& forall|k: int|
                        old(self).i <= k < final(self).i ==> ' ' <= #[trigger] final(self).b@[k]
                },
                None => string_at(old(self).rest()) is None,
            },
            !at(old(self).rest(), 0, '"') ==> *final(self) == *old(self),
    {
        if !self.eat('"') {
            return None;
        }
        let ghost body = self.rest();
        let mut out = String::new();
        assert(joined(out@, string_body(self.rest())) == string_body(body)) by {
            lemma_joined_empty(string_body(body));
        }
        loop
            invariant
                self.after(*old(self)),
                self.i > old(self).i,
                at(old(self).rest(), 0, '"'),
                body == old(self).rest().skip(1),
                forall|k: int| old(self).i <= k < self.i ==> ' ' <= #[trigger] self.b@[k],
                joined(out@, string_body(self.rest())) == string_body(body),
            decreases self.b@.len() - self.i,
        {
            let ghost s = self.rest();
            if self.eat('"') {
                assert(out@ + Seq::<char>::empty() == out@);
                return Some(out);
            }
            let c: char = self.string_char()?;
            proof {
                lemma_joined_step(out@, c, string_body(self.rest()));
            }
            out.push(c);
        }
    }

    /// Four hexadecimal digits.
    pub fn hex4(&mut self) -> (r: Option<u32>)
        requires
            old(self).wf(),
        ensures
            final(self).after(*old(self)),
            match r {
                Some(v) => {
                    &&& hex4(old(self).rest()) == Some(v as int)
                    &&& final(self).rest() == old(self).rest().skip(4)
                    &&& final(self).i == old(self).i + 4
                    &&& v <= 0xffff
                },
                None => hex4(old(self).rest()) is None,
            },
    {
        if self.b.len() - self.i < 4 {
            return None;
        }
        let a: u32 = hex_digit(self.b[self.i])?;
        let b: u32 = hex_digit(self.b[self.i + 1])?;
        let c: u32 = hex_digit(self.b[self.i + 2])?;
        let d: u32 = hex_digit(self.b[self.i + 3])?;
        self.advance(4);
        Some(4096 * a + 256 * b + 16 * c + d)
    }
}

/// `acc` in front of what a string holds.
spec fn joined(acc: Seq<char>, r: Option<(Seq<char>, Seq<char>)>) -> Option<
    (Seq<char>, Seq<char>),
> {
    match r {
        Some((t, rest)) => Some((acc + t, rest)),
        None => None,
    }
}

proof fn lemma_joined_empty(r: Option<(Seq<char>, Seq<char>)>)
    ensures
        joined(Seq::empty(), r) == r,
{
    if let Some((t, rest)) = r {
        assert(Seq::<char>::empty() + t == t);
    }
}

proof fn lemma_joined_step(acc: Seq<char>, c: char, r: Option<(Seq<char>, Seq<char>)>)
    ensures
        joined(acc, prefixed(c, r)) == joined(acc.push(c), r),
{
    if let Some((t, rest)) = r {
        assert(acc + (seq![c] + t) == acc.push(c) + t);
    }
}

/// What a hexadecimal digit counts.
fn hex_digit(c: char) -> (r: Option<u32>)
    ensures
        match r {
            Some(v) => hex_value(c) == Some(v as int) && v < 16,
            None => hex_value(c) is None,
        },
{
    if '0' <= c && c <= '9' {
        Some(c as u32 - '0' as u32)
    } else if 'a' <= c && c <= 'f' {
        Some(c as u32 - 'a' as u32 + 10)
    } else if 'A' <= c && c <= 'F' {
        Some(c as u32 - 'A' as u32 + 10)
    } else {
        None
    }
}

} // verus!
