use vstd::prelude::*;
use crate::shape::SetOperation;

verus! {

/// A JSON number as a scene description holds it: a sign, a decimal mantissa and a decimal
/// exponent, so that its value is `mantissa * 10^exponent`, negated unless `positive`.
#[derive(Clone, Copy, Debug, PartialEq, Eq, Structural)]
pub struct JsonNumber {
    pub positive: bool,
    pub mantissa: u64,
    pub exponent: i16,
}

/// A parsed JSON document.
#[derive(Debug)]
pub enum Json {
    Null,
    Str(String),
    Number(JsonNumber),
    Boolean(bool),
    /// The entries of an object, in the order in which the document lists them.
    Object(Vec<(String, Json)>),
    Array(Vec<Json>),
}

/// A JSON document as a mathematical value.
pub enum JsonTree {
    Null,
    Str(Seq<char>),
    Number(JsonNumber),
    Boolean(bool),
    Object(Seq<(Seq<char>, JsonTree)>),
    Array(Seq<JsonTree>),
}

/// The document that `json` holds, as a mathematical value.
pub open spec fn tree(json: Json) -> JsonTree
    decreases json,
{
    match json {
        Json::Null => JsonTree::Null,
        Json::Str(s) => JsonTree::Str(s@),
        Json::Number(n) => JsonTree::Number(n),
        Json::Boolean(b) => JsonTree::Boolean(b),
        Json::Object(entries) => JsonTree::Object(
            Seq::new(
                entries@.len(),
                |i: int|
                    if 0 <= i < entries@.len() {
                        (entries@[i].0@, tree(entries@[i].1))
                    } else {
                        (Seq::empty(), JsonTree::Null)
                    },
            ),
        ),
        Json::Array(items) => JsonTree::Array(
            Seq::new(
                items@.len(),
                |i: int|
                    if 0 <= i < items@.len() {
                        tree(items@[i])
                    } else {
                        JsonTree::Null
                    },
            ),
        ),
    }
}

/// The value stored under `name` among `entries`: that of the first entry with that key.
pub open spec fn object_lookup(entries: Seq<(String, Json)>, name: Seq<char>) -> Option<Json>
    decreases entries.len(),
{
    if entries.len() == 0 {
        None
    } else if entries[0].0@ == name {
        Some(entries[0].1)
    } else {
        object_lookup(entries.drop_first(), name)
    }
}

/// The integer that `n` stands for, when it stands for one: a non-negative number with no
/// decimal exponent.
pub open spec fn unsigned_value(n: JsonNumber) -> Option<nat> {
    if n.positive && n.exponent == 0 {
        Some(n.mantissa as nat)
    } else {
        None
    }
}

/// The unsigned integer that `json` stands for, if it is a number that `unsigned_value` accepts
/// and that is at most `max`.
pub open spec fn unsigned_of(json: Json, max: nat) -> Option<nat> {
    match json {
        Json::Number(n) => match unsigned_value(n) {
            Some(v) => if v <= max {
                Some(v)
            } else {
                None
            },
            None => None,
        },
        _ => None,
    }
}

/// `x` brought into the range of `i64` by two's complement wrapping.
pub open spec fn wrapped_i64(x: int) -> int {
    (x + 0x8000_0000_0000_0000) % 0x1_0000_0000_0000_0000 - 0x8000_0000_0000_0000
}

/// The `i64` that `n` is read as when it has no decimal exponent: its signed mantissa,
/// wrapped into the range of `i64`.
pub open spec fn integer_value(n: JsonNumber) -> Option<int> {
    if n.exponent == 0 {
        Some(
            wrapped_i64(
                if n.positive {
                    n.mantissa as int
                } else {
                    -(n.mantissa as int)
                },
            ),
        )
    } else {
        None
    }
}

/// The signed integer that `json` stands for, if it is a number that `integer_value` accepts
/// and that lies between `min` and `max`.
pub open spec fn signed_of(json: Json, min: int, max: int) -> Option<int> {
    match json {
        Json::Number(n) => match integer_value(n) {
            Some(v) => if min <= v <= max {
                Some(v)
            } else {
                None
            },
            None => None,
        },
        _ => None,
    }
}

impl Json {
    /// The members of an array; any other value has none.
    pub open spec fn members(self) -> Seq<Json> {
        match self {
            Json::Array(items) => items@,
            _ => Seq::empty(),
        }
    }

    /// A copy of the value, member by member.
    pub fn duplicate(&self) -> (c: Json)
        ensures
            tree(c) == tree(*self),
        decreases self,
    {
        match self {
            Json::Null => Json::Null,
            Json::Str(s) => Json::Str(s.clone()),
            Json::Number(n) => Json::Number(*n),
            Json::Boolean(b) => Json::Boolean(*b),
            Json::Object(entries) => {
                let mut copied: Vec<(String, Json)> = Vec::new();
                let mut k: usize = 0;
                while k < entries.len()
                    invariant
                        k <= entries.len(),
                        *self == Json::Object(*entries),
                        copied@.len() == k,
                        forall|i: int|
                            0 <= i < k ==> (#[trigger] copied@[i]).0@ == entries@[i].0@ && tree(
                                copied@[i].1,
                            ) == tree(entries@[i].1),
                    decreases entries.len() - k,
                {
                    proof {
                        assert(decreases_to!(*self => (*self)->Object_0));
                        assert(decreases_to!((*self)->Object_0 => entries@));
                        assert(decreases_to!(entries@ => entries@[k as int]));
                        assert(decreases_to!(entries@[k as int] => entries@[k as int].1));
                    }
                    let value = entries[k].1.duplicate();
                    let key = entries[k].0.clone();
                    copied.push((key, value));
                    k = k + 1;
                }
                let c = Json::Object(copied);
                proof {
                    assert(tree(c)->Object_0 =~= tree(*self)->Object_0);
                }
                c
            },
            Json::Array(items) => {
                let mut copied: Vec<Json> = Vec::new();
                let mut k: usize = 0;
                while k < items.len()
                    invariant
                        k <= items.len(),
                        *self == Json::Array(*items),
                        copied@.len() == k,
                        forall|i: int| 0 <= i < k ==> tree(#[trigger] copied@[i]) == tree(items@[i]),
                    decreases items.len() - k,
                {
                    proof {
                        assert(decreases_to!(*self => (*self)->Array_0));
                        assert(decreases_to!((*self)->Array_0 => items@));
                        assert(decreases_to!(items@ => items@[k as int]));
                    }
                    let value = items[k].duplicate();
                    copied.push(value);
                    k = k + 1;
                }
                let c = Json::Array(copied);
                proof {
                    assert(tree(c)->Array_0 =~= tree(*self)->Array_0);
                }
                c
            },
        }
    }

    /// The string held by a string value.
    pub fn as_str(&self) -> (s: Option<&String>)
        ensures
            match *self {
                Json::Str(t) => s == Some(&t),
                _ => s is None,
            },
    {
        match self {
            Json::Str(s) => Some(s),
            _ => None,
        }
    }

    /// The number held by a number value.
    pub fn as_number(&self) -> (n: Option<JsonNumber>)
        ensures
            match *self {
                Json::Number(m) => n == Some(m),
                _ => n is None,
            },
    {
        match self {
            Json::Number(n) => Some(*n),
            _ => None,
        }
    }

    /// The truth value held by a boolean value.
    pub fn as_bool(&self) -> (b: Option<bool>)
        ensures
            match *self {
                Json::Boolean(c) => b == Some(c),
                _ => b is None,
            },
    {
        match self {
            Json::Boolean(b) => Some(*b),
            _ => None,
        }
    }

    /// The value as a `u64`: a non-negative number without decimal exponent.
    pub fn as_u64(&self) -> (v: Option<u64>)
        ensures
            match unsigned_of(*self, u64::MAX as nat) {
                Some(w) => v == Some(w as u64),
                None => v is None,
            },
    {
        match self {
            Json::Number(n) => if n.positive && n.exponent == 0 {
                Some(n.mantissa)
            } else {
                None
            },
            _ => None,
        }
    }

    /// The value as a `u32`, when `as_u64` gives one that fits.
    pub fn as_u32(&self) -> (v: Option<u32>)
        ensures
            match unsigned_of(*self, u32::MAX as nat) {
                Some(w) => v == Some(w as u32),
                None => v is None,
            },
    {
        match self.as_u64() {
            Some(w) => if w <= u32::MAX as u64 {
                Some(w as u32)
            } else {
                None
            },
            None => None,
        }
    }

    /// The value as a `u16`, when `as_u64` gives one that fits.
    pub fn as_u16(&self) -> (v: Option<u16>)
        ensures
            match unsigned_of(*self, u16::MAX as nat) {
                Some(w) => v == Some(w as u16),
                None => v is None,
            },
    {
        match self.as_u64() {
            Some(w) => if w <= u16::MAX as u64 {
                Some(w as u16)
            } else {
                None
            },
            None => None,
        }
    }

    /// The value as a `u8`, when `as_u64` gives one that fits.
    pub fn as_u8(&self) -> (v: Option<u8>)
        ensures
            match unsigned_of(*self, u8::MAX as nat) {
                Some(w) => v == Some(w as u8),
                None => v is None,
            },
    {
        match self.as_u64() {
            Some(w) => if w <= u8::MAX as u64 {
                Some(w as u8)
            } else {
                None
            },
            None => None,
        }
    }

    /// The value as a `usize`, when `as_u64` gives one that fits.
    pub fn as_usize(&self) -> (v: Option<usize>)
        ensures
            match unsigned_of(*self, usize::MAX as nat) {
                Some(w) => v == Some(w as usize),
                None => v is None,
            },
    {
        match self.as_u64() {
            Some(w) => if w <= usize::MAX as u64 {
                Some(w as usize)
            } else {
                None
            },
            None => None,
        }
    }

    /// The value as an `i64`: a number without decimal exponent, its signed mantissa wrapped
    /// into the range of `i64`.
    pub fn as_i64(&self) -> (v: Option<i64>)
        ensures
            match signed_of(*self, i64::MIN as int, i64::MAX as int) {
                Some(w) => v == Some(w as i64),
                None => v is None,
            },
    {
        match self {
            Json::Number(n) => if n.exponent != 0 {
                None
            } else if n.positive {
                if n.mantissa <= i64::MAX as u64 {
                    Some(n.mantissa as i64)
                } else {
                    let above = n.mantissa - 0x8000_0000_0000_0000u64;
                    Some(above as i64 + i64::MIN)
                }
            } else if n.mantissa <= i64::MAX as u64 {
                Some(-(n.mantissa as i64))
            } else if n.mantissa == 0x8000_0000_0000_0000u64 {
                Some(i64::MIN)
            } else {
                let rest = u64::MAX - n.mantissa + 1;
                Some(rest as i64)
            },
            _ => None,
        }
    }

    /// The value as an `i32`, when `as_i64` gives one that fits.
    pub fn as_i32(&self) -> (v: Option<i32>)
        ensures
            match signed_of(*self, i32::MIN as int, i32::MAX as int) {
                Some(w) => v == Some(w as i32),
                None => v is None,
            },
    {
        match self.as_i64() {
            Some(w) => if i32::MIN as i64 <= w && w <= i32::MAX as i64 {
                Some(w as i32)
            } else {
                None
            },
            None => None,
        }
    }

    /// The value as an `i16`, when `as_i64` gives one that fits.
    pub fn as_i16(&self) -> (v: Option<i16>)
        ensures
            match signed_of(*self, i16::MIN as int, i16::MAX as int) {
                Some(w) => v == Some(w as i16),
                None => v is None,
            },
    {
        match self.as_i64() {
            Some(w) => if i16::MIN as i64 <= w && w <= i16::MAX as i64 {
                Some(w as i16)
            } else {
                None
            },
            None => None,
        }
    }

    /// The value as an `i8`, when `as_i64` gives one that fits.
    pub fn as_i8(&self) -> (v: Option<i8>)
        ensures
            match signed_of(*self, i8::MIN as int, i8::MAX as int) {
                Some(w) => v == Some(w as i8),
                None => v is None,
            },
    {
        match self.as_i64() {
            Some(w) => if i8::MIN as i64 <= w && w <= i8::MAX as i64 {
                Some(w as i8)
            } else {
                None
            },
            None => None,
        }
    }

    /// The value as an `isize`, when `as_i64` gives one that fits.
    pub fn as_isize(&self) -> (v: Option<isize>)
        ensures
            match signed_of(*self, isize::MIN as int, isize::MAX as int) {
                Some(w) => v == Some(w as isize),
                None => v is None,
            },
    {
        match self.as_i64() {
            Some(w) => if isize::MIN as i64 <= w && w <= isize::MAX as i64 {
                Some(w as isize)
            } else {
                None
            },
            None => None,
        }
    }

    /// How many members an array has; any other value has none.
    pub fn member_count(&self) -> (n: usize)
        ensures
            n == self.members().len(),
    {
        match self {
            Json::Array(items) => items.len(),
            _ => 0,
        }
    }

    /// The member of an array at `index`.
    pub fn member(&self, index: usize) -> (m: &Json)
        requires
            index < self.members().len(),
        ensures
            *m == self.members()[index as int],
    {
        match self {
            Json::Array(items) => &items[index],
            _ => {
                proof {
                    assert(false);
                }
                self
            },
        }
    }

    /// The value stored under `name` in an object: that of its first entry with that key.
    pub fn get(&self, name: &str) -> (v: Option<&Json>)
        ensures
            match *self {
                Json::Object(entries) => match object_lookup(entries@, name@) {
                    Some(w) => v == Some(&w),
                    None => v is None,
                },
                _ => v is None,
            },
    {
        match self {
            Json::Object(entries) => {
                let wanted = String::from_str(name);
                let mut k: usize = 0;
                assert(entries@.skip(0) =~= entries@);
                while k < entries.len()
                    invariant
                        k <= entries.len(),
                        *self == Json::Object(*entries),
                        wanted@ == name@,
                        object_lookup(entries@, name@) == object_lookup(
                            entries@.skip(k as int),
                            name@,
                        ),
                    decreases entries.len() - k,
                {
                    proof {
                        assert(entries@.skip(k as int).drop_first() =~= entries@.skip(k + 1));
                        assert(entries@.skip(k as int)[0] == entries@[k as int]);
                    }
                    if entries[k].0 == wanted {
                        assert(object_lookup(entries@.skip(k as int), name@) == Some(
                            entries@[k as int].1,
                        ));
                        return Some(&entries[k].1);
                    }
                    k = k + 1;
                }
                None
            },
            _ => None,
        }
    }
}

#[verifier::external_type_specification]
#[verifier::external_body]
pub struct ExJsonValue(json::JsonValue);

#[verifier::external_type_specification]
#[verifier::external_body]
pub struct ExJsonError(json::Error);

/// What `json::parse` reads from `text`, as a `Json`: `None` where it refuses the text.
pub uninterp spec fn json_read(text: Seq<char>) -> Option<Json>;

/// Calls `json::parse` and converts what it read with `document_of`. Claimed: the outcome is
/// the one that `json_read` names for the text, the same on every call; nothing is claimed
/// of the error.
#[verifier::external_body]
fn parse_document(text: &str) -> (r: Result<Json, json::Error>)
    ensures
        match r {
            Ok(d) => json_read(text@) == Some(d),
            Err(_) => json_read(text@) is None,
        },
{
    json::parse(text).map(|value| document_of(&value))
}

/// Converts a value that `json::parse` read into a `Json`, variant by variant; a number is
/// taken apart by `Number::as_parts`. What it gives is claimed only through `parse_document`.
#[verifier::external_body]
fn document_of(value: &json::JsonValue) -> Json {
    match value {
        json::JsonValue::Null => Json::Null,
        json::JsonValue::Short(s) => Json::Str(s.as_str().to_string()),
        json::JsonValue::String(s) => Json::Str(s.clone()),
        json::JsonValue::Number(n) => {
            let (positive, mantissa, exponent) = n.as_parts();
            Json::Number(JsonNumber { positive, mantissa, exponent })
        },
        json::JsonValue::Boolean(b) => Json::Boolean(*b),
        json::JsonValue::Object(o) => Json::Object(o.iter().map(|(k, v)| (k.to_string(), document_of(v))).collect()),
        json::JsonValue::Array(a) => Json::Array(a.iter().map(document_of).collect()),
    }
}

/// The message of a `json::Error`, as its `Display` writes it. Nothing is claimed of it.
#[verifier::external_body]
fn error_message(error: &json::Error) -> String {
    error.to_string()
}

/// Reads a scene description: the document that the JSON text holds, or what the JSON reader
/// said of its syntax.
pub fn read_document(text: &str) -> (document: Result<Json, String>)
    ensures
        match document {
            Ok(d) => json_read(text@) == Some(d),
            Err(_) => json_read(text@) is None,
        },
{
    match parse_document(text) {
        Ok(d) => Ok(d),
        Err(error) => Err(error_message(&error)),
    }
}

/// The kind of value that a constructor's field asked for.
#[derive(Clone, Copy, Debug, PartialEq, Eq, Structural)]
pub enum ValueKind {
    Number,
    Str,
    Bool,
    U64,
    U32,
    U16,
    U8,
    Usize,
    I64,
    I32,
    I16,
    I8,
    Isize,
    /// A value that a nested constructor makes, of the type that the field holds.
    Constructed,
}

/// What a `NoDeserializer` error says of the key `key`.
pub open spec fn no_deserializer_description(key: Seq<char>) -> Seq<char> {
    "No deserializer registered for key `"@ + key + "`."@
}

/// Why a scene description could not be read.
#[derive(Debug)]
pub enum ParserError {
    /// No deserializer is registered under the constructor's key.
    NoDeserializer { description: String, key: String },
    /// The text is not JSON; `error` is what the JSON reader said of it.
    SyntaxError { description: String, error: String },
    /// A type that no deserializer produces was asked for.
    MissingType { type_str: String },
    /// A constructor is not an object with a single entry, or its data is neither an array
    /// nor an object; `parent_json` is the constructor.
    InvalidConstructor { parent_json: Json },
    /// A field that the constructor `parent_json` needs is absent.
    MissingField { name: String, position: usize, parent_json: Json },
    /// A field of the constructor `parent_json` holds a value of another kind than the one
    /// asked for.
    TypeMismatch { expected: ValueKind, parent_json: Json },
    /// A deserializer refused the value it was given.
    CustomError { description: String },
}

/// The deserializers that `entries` registers, a later entry replacing an earlier one with
/// the same key.
pub open spec fn registered<D>(entries: Seq<(String, D)>) -> Map<Seq<char>, D>
    decreases entries.len(),
{
    if entries.len() == 0 {
        Map::empty()
    } else {
        registered(entries.drop_last()).insert(entries.last().0@, entries.last().1)
    }
}

/// Turns scene descriptions into constructor calls, by the deserializer registered under each
/// constructor's key.
pub struct Parser<D> {
    entries: Vec<(String, D)>,
}

/// A constructor of a scene description: its key, the deserializer registered under it, and
/// the data that the deserializer is to read.
pub struct Constructor<'a, D> {
    pub key: &'a String,
    pub deserializer: &'a D,
    pub arguments: &'a Json,
    /// The whole constructor: the object whose single entry gave the key and the data.
    pub parent: &'a Json,
}

/// The key and the data of a constructor: the single entry of an object.
pub open spec fn single_entry(json: Json) -> Option<(String, Json)> {
    match json {
        Json::Object(entries) => if entries.len() == 1 {
            Some(entries@[0])
        } else {
            None
        },
        _ => None,
    }
}

/// Whether `c` is what a parser with `deserializers` makes of the constructor `json`: the
/// deserializer registered under the key of its single entry, with that entry's value as
/// data; `InvalidConstructor` where `json` is not an object with a single entry;
/// `NoDeserializer` where the key names none.
pub open spec fn constructor_found<'a, D>(
    deserializers: Map<Seq<char>, D>,
    json: Json,
    c: Result<Constructor<'a, D>, ParserError>,
) -> bool {
    match single_entry(json) {
        None => c matches Err(ParserError::InvalidConstructor { parent_json: p }) && tree(p)
            == tree(json),
        Some(entry) => match c {
            Ok(found) => {
                &&& deserializers.contains_key(entry.0@)
                &&& *found.key == entry.0
                &&& *found.arguments == entry.1
                &&& *found.parent == json
                &&& *found.deserializer == deserializers[entry.0@]
            },
            Err(e) => {
                &&& !deserializers.contains_key(entry.0@)
                &&& e matches ParserError::NoDeserializer { description: d, key: k } && k@
                    == entry.0@ && d@ == no_deserializer_description(entry.0@)
            },
        },
    }
}

impl<D> Parser<D> {
    /// The deserializers, by key.
    pub closed spec fn deserializers(&self) -> Map<Seq<char>, D> {
        registered(self.entries@)
    }

    /// A parser with no deserializers.
    pub fn empty() -> (parser: Self)
        ensures
            parser.deserializers() == Map::<Seq<char>, D>::empty(),
    {
        Parser { entries: Vec::new() }
    }

    /// Registers `deserializer` under `key`, in place of any registered there before.
    pub fn insert(&mut self, key: &str, deserializer: D)
        ensures
            final(self).deserializers() == old(self).deserializers().insert(key@, deserializer),
    {
        let ghost before = self.entries@;
        let key = String::from_str(key);
        self.entries.push((key, deserializer));
        assert(self.entries@.drop_last() =~= before);
    }

    /// The deserializer registered under `key`.
    pub fn deserializer(&self, key: &str) -> (found: Result<&D, ParserError>)
        ensures
            self.deserializers().contains_key(key@) <==> found is Ok,
            found matches Ok(d) ==> *d == self.deserializers()[key@],
            found matches Err(e) ==> (e matches ParserError::NoDeserializer { description: d, key: k }
                && k@ == key@ && d@ == no_deserializer_description(key@)),
    {
        let wanted = String::from_str(key);
        let mut k: usize = self.entries.len();
        assert(self.entries@.take(k as int) =~= self.entries@);
        while k > 0
            invariant
                k <= self.entries.len(),
                wanted@ == key@,
                registered(self.entries@).contains_key(key@) == registered(
                    self.entries@.take(k as int),
                ).contains_key(key@),
                registered(self.entries@.take(k as int)).contains_key(key@) ==> registered(
                    self.entries@,
                )[key@] == registered(self.entries@.take(k as int))[key@],
            decreases k,
        {
            let ghost prefix = self.entries@.take(k as int);
            assert(prefix.drop_last() =~= self.entries@.take(k - 1));
            assert(prefix.last() == self.entries@[k - 1]);
            if self.entries[k - 1].0 == wanted {
                return Ok(&self.entries[k - 1].1);
            }
            k = k - 1;
        }
        let description = String::from_str("No deserializer registered for key `").concat(
            key,
        ).concat("`.");
        Err(ParserError::NoDeserializer { description, key: wanted })
    }

    /// The constructor that `json` describes: an object with a single entry, whose key names
    /// a registered deserializer and whose value is the data for it.
    pub fn deserialize_constructor<'a>(&'a self, json: &'a Json) -> (c: Result<
        Constructor<'a, D>,
        ParserError,
    >)
        ensures
            constructor_found(self.deserializers(), *json, c),
    {
        match json {
            Json::Object(entries) => {
                if entries.len() == 1 {
                    let key = &entries[0].0;
                    match self.deserializer(key.as_str()) {
                        Ok(deserializer) => Ok(
                            Constructor {
                                key,
                                deserializer,
                                arguments: &entries[0].1,
                                parent: json,
                            },
                        ),
                        Err(e) => Err(e),
                    }
                } else {
                    Err(ParserError::InvalidConstructor { parent_json: json.duplicate() })
                }
            },
            _ => Err(ParserError::InvalidConstructor { parent_json: json.duplicate() }),
        }
    }

    /// The constructor that a whole scene description describes; `document` is what
    /// `read_document` made of the text: the document, or what the JSON reader said of the
    /// text's syntax.
    pub fn parse<'a>(&'a self, document: &'a Result<Json, String>) -> (c: Result<
        Constructor<'a, D>,
        ParserError,
    >)
        ensures
            match document {
                Err(message) => c matches Err(ParserError::SyntaxError { description: d, error: e })
                    && d@ == "Invalid JSON file. Please, check the syntax."@ && e == message,
                Ok(json) => constructor_found(self.deserializers(), *json, c),
            },
    {
        match document {
            Ok(json) => self.deserialize_constructor(json),
            Err(message) => Err(
                ParserError::SyntaxError {
                    description: String::from_str("Invalid JSON file. Please, check the syntax."),
                    error: message.clone(),
                },
            ),
        }
    }
}

/// The field of constructor data `arguments` at `position` of an array, or under `name` in an
/// object: `None` where the data is neither, `Some(None)` where the field is absent.
pub open spec fn argument(arguments: Json, position: int, name: Seq<char>) -> Option<Option<Json>> {
    match arguments {
        Json::Array(items) => if 0 <= position < items.len() {
            Some(Some(items@[position]))
        } else {
            Some(None)
        },
        Json::Object(entries) => Some(object_lookup(entries@, name)),
        _ => None,
    }
}

impl<'a, D> Constructor<'a, D> {
    /// The field that a deserializer lists at `position` under `name`: taken by position from
    /// array data, by name from object data.
    pub fn field(&self, position: usize, name: &str) -> (f: Result<&'a Json, ParserError>)
        ensures
            match argument(*self.arguments, position as int, name@) {
                None => f matches Err(ParserError::InvalidConstructor { parent_json: j }) && tree(j)
                    == tree(*self.parent),
                Some(None) => f matches Err(
                    ParserError::MissingField { name: n, position: p, parent_json: j },
                ) && n@ == name@ && p == position && tree(j) == tree(*self.parent),
                Some(Some(v)) => f matches Ok(w) && *w == v,
            },
    {
        let arguments: &'a Json = self.arguments;
        match arguments {
            Json::Array(items) => {
                if position < items.len() {
                    Ok(&items[position])
                } else {
                    Err(
                        ParserError::MissingField {
                            name: String::from_str(name),
                            position,
                            parent_json: self.parent.duplicate(),
                        },
                    )
                }
            },
            Json::Object(_) => match arguments.get(name) {
                Some(v) => Ok(v),
                None => Err(
                    ParserError::MissingField {
                        name: String::from_str(name),
                        position,
                        parent_json: self.parent.duplicate(),
                    },
                ),
            },
            _ => Err(ParserError::InvalidConstructor { parent_json: self.parent.duplicate() }),
        }
    }
}

/// The number that a field holds.
/// `parent` is the constructor that the field belongs to, which a `TypeMismatch` names.
pub fn expect_number(json: &Json, parent: &Json) -> (r: Result<JsonNumber, ParserError>)
    ensures
        match *json {
            Json::Number(n) => r == Ok::<JsonNumber, ParserError>(n),
            _ => r matches Err(ParserError::TypeMismatch { expected: ValueKind::Number, parent_json: p }) && tree(p) == tree(
                *parent,
            ),
        },
{
    match json.as_number() {
        Some(n) => Ok(n),
        None => Err(ParserError::TypeMismatch { expected: ValueKind::Number, parent_json: parent.duplicate() }),
    }
}

/// The string that a field holds.
/// `parent` is the constructor that the field belongs to, which a `TypeMismatch` names.
pub fn expect_str<'a>(json: &'a Json, parent: &Json) -> (r: Result<&'a String, ParserError>)
    ensures
        match *json {
            Json::Str(t) => r matches Ok(s) && *s == t,
            _ => r matches Err(ParserError::TypeMismatch { expected: ValueKind::Str, parent_json: p }) && tree(p) == tree(*parent),
        },
{
    match json.as_str() {
        Some(s) => Ok(s),
        None => Err(ParserError::TypeMismatch { expected: ValueKind::Str, parent_json: parent.duplicate() }),
    }
}

/// The truth value that a field holds.
/// `parent` is the constructor that the field belongs to, which a `TypeMismatch` names.
pub fn expect_bool(json: &Json, parent: &Json) -> (r: Result<bool, ParserError>)
    ensures
        match *json {
            Json::Boolean(b) => r == Ok::<bool, ParserError>(b),
            _ => r matches Err(ParserError::TypeMismatch { expected: ValueKind::Bool, parent_json: p }) && tree(p) == tree(
                *parent,
            ),
        },
{
    match json.as_bool() {
        Some(b) => Ok(b),
        None => Err(ParserError::TypeMismatch { expected: ValueKind::Bool, parent_json: parent.duplicate() }),
    }
}

/// The `u64` that a field holds.
/// `parent` is the constructor that the field belongs to, which a `TypeMismatch` names.
pub fn expect_u64(json: &Json, parent: &Json) -> (r: Result<u64, ParserError>)
    ensures
        match unsigned_of(*json, u64::MAX as nat) {
            Some(w) => r == Ok::<u64, ParserError>(w as u64),
            None => r matches Err(ParserError::TypeMismatch { expected: ValueKind::U64, parent_json: p }) && tree(p) == tree(
                *parent,
            ),
        },
{
    match json.as_u64() {
        Some(v) => Ok(v),
        None => Err(ParserError::TypeMismatch { expected: ValueKind::U64, parent_json: parent.duplicate() }),
    }
}

/// The `u32` that a field holds.
/// `parent` is the constructor that the field belongs to, which a `TypeMismatch` names.
pub fn expect_u32(json: &Json, parent: &Json) -> (r: Result<u32, ParserError>)
    ensures
        match unsigned_of(*json, u32::MAX as nat) {
            Some(w) => r == Ok::<u32, ParserError>(w as u32),
            None => r matches Err(ParserError::TypeMismatch { expected: ValueKind::U32, parent_json: p }) && tree(p) == tree(
                *parent,
            ),
        },
{
    match json.as_u32() {
        Some(v) => Ok(v),
        None => Err(ParserError::TypeMismatch { expected: ValueKind::U32, parent_json: parent.duplicate() }),
    }
}

/// The `u16` that a field holds.
/// `parent` is the constructor that the field belongs to, which a `TypeMismatch` names.
pub fn expect_u16(json: &Json, parent: &Json) -> (r: Result<u16, ParserError>)
    ensures
        match unsigned_of(*json, u16::MAX as nat) {
            Some(w) => r == Ok::<u16, ParserError>(w as u16),
            None => r matches Err(ParserError::TypeMismatch { expected: ValueKind::U16, parent_json: p }) && tree(p) == tree(
                *parent,
            ),
        },
{
    match json.as_u16() {
        Some(v) => Ok(v),
        None => Err(ParserError::TypeMismatch { expected: ValueKind::U16, parent_json: parent.duplicate() }),
    }
}

/// The `u8` that a field holds.
/// `parent` is the constructor that the field belongs to, which a `TypeMismatch` names.
pub fn expect_u8(json: &Json, parent: &Json) -> (r: Result<u8, ParserError>)
    ensures
        match unsigned_of(*json, u8::MAX as nat) {
            Some(w) => r == Ok::<u8, ParserError>(w as u8),
            None => r matches Err(ParserError::TypeMismatch { expected: ValueKind::U8, parent_json: p }) && tree(p) == tree(
                *parent,
            ),
        },
{
    match json.as_u8() {
        Some(v) => Ok(v),
        None => Err(ParserError::TypeMismatch { expected: ValueKind::U8, parent_json: parent.duplicate() }),
    }
}

/// The `usize` that a field holds.
/// `parent` is the constructor that the field belongs to, which a `TypeMismatch` names.
pub fn expect_usize(json: &Json, parent: &Json) -> (r: Result<usize, ParserError>)
    ensures
        match unsigned_of(*json, usize::MAX as nat) {
            Some(w) => r == Ok::<usize, ParserError>(w as usize),
            None => r matches Err(ParserError::TypeMismatch { expected: ValueKind::Usize, parent_json: p }) && tree(p) == tree(
                *parent,
            ),
        },
{
    match json.as_usize() {
        Some(v) => Ok(v),
        None => Err(ParserError::TypeMismatch { expected: ValueKind::Usize, parent_json: parent.duplicate() }),
    }
}

/// The `i64` that a field holds.
/// `parent` is the constructor that the field belongs to, which a `TypeMismatch` names.
pub fn expect_i64(json: &Json, parent: &Json) -> (r: Result<i64, ParserError>)
    ensures
        match signed_of(*json, i64::MIN as int, i64::MAX as int) {
            Some(w) => r == Ok::<i64, ParserError>(w as i64),
            None => r matches Err(ParserError::TypeMismatch { expected: ValueKind::I64, parent_json: p }) && tree(p) == tree(
                *parent,
            ),
        },
{
    match json.as_i64() {
        Some(v) => Ok(v),
        None => Err(ParserError::TypeMismatch { expected: ValueKind::I64, parent_json: parent.duplicate() }),
    }
}

/// The `i32` that a field holds.
/// `parent` is the constructor that the field belongs to, which a `TypeMismatch` names.
pub fn expect_i32(json: &Json, parent: &Json) -> (r: Result<i32, ParserError>)
    ensures
        match signed_of(*json, i32::MIN as int, i32::MAX as int) {
            Some(w) => r == Ok::<i32, ParserError>(w as i32),
            None => r matches Err(ParserError::TypeMismatch { expected: ValueKind::I32, parent_json: p }) && tree(p) == tree(
                *parent,
            ),
        },
{
    match json.as_i32() {
        Some(v) => Ok(v),
        None => Err(ParserError::TypeMismatch { expected: ValueKind::I32, parent_json: parent.duplicate() }),
    }
}

/// The `i16` that a field holds.
/// `parent` is the constructor that the field belongs to, which a `TypeMismatch` names.
pub fn expect_i16(json: &Json, parent: &Json) -> (r: Result<i16, ParserError>)
    ensures
        match signed_of(*json, i16::MIN as int, i16::MAX as int) {
            Some(w) => r == Ok::<i16, ParserError>(w as i16),
            None => r matches Err(ParserError::TypeMismatch { expected: ValueKind::I16, parent_json: p }) && tree(p) == tree(
                *parent,
            ),
        },
{
    match json.as_i16() {
        Some(v) => Ok(v),
        None => Err(ParserError::TypeMismatch { expected: ValueKind::I16, parent_json: parent.duplicate() }),
    }
}

/// The `i8` that a field holds.
/// `parent` is the constructor that the field belongs to, which a `TypeMismatch` names.
pub fn expect_i8(json: &Json, parent: &Json) -> (r: Result<i8, ParserError>)
    ensures
        match signed_of(*json, i8::MIN as int, i8::MAX as int) {
            Some(w) => r == Ok::<i8, ParserError>(w as i8),
            None => r matches Err(ParserError::TypeMismatch { expected: ValueKind::I8, parent_json: p }) && tree(p) == tree(
                *parent,
            ),
        },
{
    match json.as_i8() {
        Some(v) => Ok(v),
        None => Err(ParserError::TypeMismatch { expected: ValueKind::I8, parent_json: parent.duplicate() }),
    }
}

/// The `isize` that a field holds.
/// `parent` is the constructor that the field belongs to, which a `TypeMismatch` names.
pub fn expect_isize(json: &Json, parent: &Json) -> (r: Result<isize, ParserError>)
    ensures
        match signed_of(*json, isize::MIN as int, isize::MAX as int) {
            Some(w) => r == Ok::<isize, ParserError>(w as isize),
            None => r matches Err(ParserError::TypeMismatch { expected: ValueKind::Isize, parent_json: p }) && tree(p) == tree(
                *parent,
            ),
        },
{
    match json.as_isize() {
        Some(v) => Ok(v),
        None => Err(ParserError::TypeMismatch { expected: ValueKind::Isize, parent_json: parent.duplicate() }),
    }
}

/// The name under which a scene description gives a set operation.
pub open spec fn operation_name(operation: SetOperation) -> Seq<char> {
    match operation {
        SetOperation::Union => "Union"@,
        SetOperation::Intersection => "Intersection"@,
        SetOperation::Complement => "Complement"@,
        SetOperation::SymmetricDifference => "SymmetricDifference"@,
    }
}

/// The set operation that `name` names, if any.
pub open spec fn operation_named(name: Seq<char>) -> Option<SetOperation> {
    if name == "Union"@ {
        Some(SetOperation::Union)
    } else if name == "Intersection"@ {
        Some(SetOperation::Intersection)
    } else if name == "Complement"@ {
        Some(SetOperation::Complement)
    } else if name == "SymmetricDifference"@ {
        Some(SetOperation::SymmetricDifference)
    } else {
        None
    }
}

/// The set operation named `name`; any other name is refused with a description that quotes
/// it.
pub fn set_operation(name: &str) -> (r: Result<SetOperation, ParserError>)
    ensures
        match operation_named(name@) {
            Some(operation) => r == Ok::<SetOperation, ParserError>(operation),
            None => r matches Err(ParserError::CustomError { description: d }) && d@
                == "Invalid `SetOperation`: \""@ + name@ + "\""@,
        },
{
    let given = String::from_str(name);
    if given == String::from_str("Union") {
        Ok(SetOperation::Union)
    } else if given == String::from_str("Intersection") {
        Ok(SetOperation::Intersection)
    } else if given == String::from_str("Complement") {
        Ok(SetOperation::Complement)
    } else if given == String::from_str("SymmetricDifference") {
        Ok(SetOperation::SymmetricDifference)
    } else {
        let mut description = String::from_str("Invalid `SetOperation`: \"");
        description.append(name);
        description.append("\"");
        Err(ParserError::CustomError { description })
    }
}

/// Each set operation is read back from its own name, and only from it.
pub proof fn lemma_operation_names_round_trip(operation: SetOperation, name: Seq<char>)
    ensures
        operation_named(operation_name(operation)) == Some(operation),
        operation_named(name) == Some(operation) ==> name == operation_name(operation),
{
    reveal_strlit("Union");
    reveal_strlit("Intersection");
    reveal_strlit("Complement");
    reveal_strlit("SymmetricDifference");
    assert("Union"@.len() == 5);
    assert("Intersection"@.len() == 12);
    assert("Complement"@.len() == 10);
    assert("SymmetricDifference"@.len() == 19);
}

/// Registering a deserializer under a key makes it the one found under that key, and leaves
/// the one found under every other key as it was.
pub proof fn lemma_registered_deserializer_is_found<D>(
    deserializers: Map<Seq<char>, D>,
    key: Seq<char>,
    deserializer: D,
    other: Seq<char>,
)
    ensures
        deserializers.insert(key, deserializer).contains_key(key),
        deserializers.insert(key, deserializer)[key] == deserializer,
        other != key ==> (deserializers.insert(key, deserializer).contains_key(other)
            == deserializers.contains_key(other)),
        other != key && deserializers.contains_key(other) ==> deserializers.insert(
            key,
            deserializer,
        )[other] == deserializers[other],
{
}

/// Every value of an unsigned type is read back: a number without sign, fraction or exponent
/// whose mantissa is at most `max` reads as its mantissa, and only such numbers read at all.
/// Reading with a larger `max` reads the same value.
pub proof fn lemma_unsigned_reads_every_value_in_range(n: JsonNumber, json: Json, max: nat, larger: nat)
    requires
        max <= larger,
    ensures
        n.positive && n.exponent == 0 && n.mantissa <= max ==> unsigned_of(Json::Number(n), max)
            == Some(n.mantissa as nat),
        unsigned_of(json, max) matches Some(v) ==> {
            &&& v <= max
            &&& json matches Json::Number(m)
            &&& m.positive
            &&& m.exponent == 0
            &&& m.mantissa == v
            &&& unsigned_of(json, larger) == Some(v)
        },
{
}

/// Every value of a signed type is read back: a number without exponent whose signed
/// mantissa lies between `min` and `max`, inside the range of `i64`, reads as that value, and
/// whatever is read lies between `min` and `max`.
pub proof fn lemma_signed_reads_every_value_in_range(n: JsonNumber, json: Json, min: int, max: int)
    requires
        i64::MIN <= min,
        max <= i64::MAX,
    ensures
        ({
            let v = if n.positive {
                n.mantissa as int
            } else {
                -(n.mantissa as int)
            };
            n.exponent == 0 && min <= v <= max ==> signed_of(Json::Number(n), min, max) == Some(v)
        }),
        signed_of(json, min, max) matches Some(v) ==> min <= v <= max && json is Number,
{
}

} // verus!
