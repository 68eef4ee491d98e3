use euclider::scene::{
    expect_bool, expect_i16, expect_i32, expect_i64, expect_i8, expect_isize, expect_number,
    expect_str, expect_u16, expect_u32, expect_u64, expect_u8, expect_usize, read_document,
    set_operation, Json, JsonNumber, Parser, ParserError, ValueKind,
};
use euclider::shape::SetOperation;

fn document(text: &str) -> Result<Json, String> {
    read_document(text)
}

fn float_of<F: From<json::number::Number>>(n: JsonNumber) -> F {
    F::from(json::number::Number::from_parts(n.positive, n.mantissa, n.exponent))
}

fn parse_float_internal<F: From<json::number::Number>>() -> F {
    let mut parser: Parser<&str> = Parser::empty();
    parser.insert("item", "component");
    let doc = document(r##"{"item": [ 42 ]}"##);
    let constructor = match parser.parse(&doc) {
        Ok(c) => c,
        Err(e) => panic!("{:?}", e),
    };
    let component = constructor.field(0, "component").unwrap();
    float_of::<F>(expect_number(component, constructor.parent).unwrap())
}

#[test]
fn parse_float() {
    assert_eq!(parse_float_internal::<f32>(), 42_f32);
    assert_eq!(parse_float_internal::<f64>(), 42_f64);
}

#[test]
fn parse_str() {
    let mut parser: Parser<()> = Parser::empty();
    parser.insert("item", ());
    let doc = document(r##"{"item": [ "42" ]}"##);
    let constructor = parser.parse(&doc).ok().unwrap();
    let component = constructor.field(0, "component").unwrap();
    assert_eq!(expect_str(component, constructor.parent).unwrap(), "42");
}

/// The first field of the single `item` constructor of `text`.
fn with_item_component<R>(text: &str, read: impl Fn(&Json, &Json) -> R) -> R {
    let mut parser: Parser<()> = Parser::empty();
    parser.insert("item", ());
    let doc = document(text);
    let constructor = parser.parse(&doc).ok().unwrap();
    read(constructor.field(0, "component").unwrap(), constructor.parent)
}

#[test]
fn parse_string() {
    let s = with_item_component(r##"{"item": [ "42" ]}"##, |j, p| expect_str(j, p).unwrap().clone());
    assert_eq!(s, "42".to_string());
}

#[test]
fn parse_f32() {
    let f: f32 = with_item_component(r##"{"item": [ 42 ]}"##, |j, p| float_of(expect_number(j, p).unwrap()));
    assert_eq!(f, 42_f32);
}

#[test]
fn parse_f64() {
    let f: f64 = with_item_component(r##"{"item": [ 42 ]}"##, |j, p| float_of(expect_number(j, p).unwrap()));
    assert_eq!(f, 42_f64);
}

#[test]
fn parse_u32() {
    assert_eq!(with_item_component(r##"{"item": [ 42 ]}"##, |j, p| expect_u32(j, p).unwrap()), 42_u32);
}

#[test]
fn parse_u64() {
    assert_eq!(with_item_component(r##"{"item": [ 42 ]}"##, |j, p| expect_u64(j, p).unwrap()), 42_u64);
}

#[test]
fn parse_u16() {
    assert_eq!(with_item_component(r##"{"item": [ 42 ]}"##, |j, p| expect_u16(j, p).unwrap()), 42_u16);
}

#[test]
fn parse_u8() {
    assert_eq!(with_item_component(r##"{"item": [ 42 ]}"##, |j, p| expect_u8(j, p).unwrap()), 42_u8);
}

#[test]
fn parse_usize() {
    assert_eq!(
        with_item_component(r##"{"item": [ 42 ]}"##, |j, p| expect_usize(j, p).unwrap()),
        42_usize
    );
}

#[test]
fn parse_i32() {
    assert_eq!(with_item_component(r##"{"item": [ 42 ]}"##, |j, p| expect_i32(j, p).unwrap()), 42_i32);
}

#[test]
fn parse_i64() {
    assert_eq!(with_item_component(r##"{"item": [ 42 ]}"##, |j, p| expect_i64(j, p).unwrap()), 42_i64);
}

#[test]
fn parse_i16() {
    assert_eq!(with_item_component(r##"{"item": [ 42 ]}"##, |j, p| expect_i16(j, p).unwrap()), 42_i16);
}

#[test]
fn parse_i8() {
    assert_eq!(with_item_component(r##"{"item": [ 42 ]}"##, |j, p| expect_i8(j, p).unwrap()), 42_i8);
}

#[test]
fn parse_isize() {
    assert_eq!(
        with_item_component(r##"{"item": [ 42 ]}"##, |j, p| expect_isize(j, p).unwrap()),
        42_isize
    );
}

#[test]
fn parse_vec() {
    let v: Vec<f32> = with_item_component(r##"{"item": [ [ 42, 84 ] ]}"##, |j, p| {
        (0..j.member_count()).map(|i| float_of(expect_number(j.member(i), p).unwrap())).collect()
    });
    assert_eq!(v, vec!(42_f32, 84_f32));
}

#[test]
fn parse_negative_integers() {
    let doc = document(r##"[ -42, -200, -9223372036854775808, 9223372036854775808 ]"##).unwrap();
    assert_eq!(expect_i64(doc.member(0), &doc).unwrap(), -42);
    assert_eq!(expect_i8(doc.member(0), &doc).unwrap(), -42);
    assert!(matches!(
        expect_i8(doc.member(1), &doc),
        Err(ParserError::TypeMismatch { expected: ValueKind::I8, .. })
    ));
    assert_eq!(expect_i16(doc.member(1), &doc).unwrap(), -200);
    assert_eq!(expect_i64(doc.member(2), &doc).unwrap(), i64::MIN);
    assert_eq!(expect_i64(doc.member(3), &doc).unwrap(), i64::MIN);
    assert_eq!(expect_u64(doc.member(3), &doc).unwrap(), 9223372036854775808);
}

#[test]
fn signed_reading_wraps_like_the_json_reader() {
    let doc = document(r##"[ 18446744073709551615, -18446744073709551615, 4.5 ]"##).unwrap();
    assert_eq!(expect_i64(doc.member(0), &doc).unwrap(), -1);
    assert_eq!(expect_i8(doc.member(0), &doc).unwrap(), -1);
    assert_eq!(expect_i64(doc.member(1), &doc).unwrap(), 1);
    assert!(expect_i64(doc.member(2), &doc).is_err());
}

#[test]
fn parse_u8_and_friends() {
    let doc = document(r##"[ 42, 300, 70000, -1, 2.5, 5000000000 ]"##).unwrap();
    assert_eq!(doc.member_count(), 6);
    assert_eq!(expect_u8(doc.member(0), &doc).unwrap(), 42);
    assert!(matches!(
        expect_u8(doc.member(1), &doc),
        Err(ParserError::TypeMismatch { expected: ValueKind::U8, .. })
    ));
    assert_eq!(expect_u16(doc.member(1), &doc).unwrap(), 300);
    assert!(expect_u16(doc.member(2), &doc).is_err());
    assert_eq!(expect_u32(doc.member(2), &doc).unwrap(), 70000);
    assert!(expect_u64(doc.member(3), &doc).is_err());
    assert!(expect_u64(doc.member(4), &doc).is_err());
    assert!(expect_u32(doc.member(5), &doc).is_err());
    assert_eq!(expect_u64(doc.member(5), &doc).unwrap(), 5000000000);
    assert_eq!(expect_usize(doc.member(0), &doc).unwrap(), 42);
}

#[test]
fn parse_bool() {
    let doc = document(r##"{"item": [ true ]}"##).unwrap();
    let mut parser: Parser<u8> = Parser::empty();
    parser.insert("item", 7);
    let constructor = parser.deserialize_constructor(&doc).ok().unwrap();
    assert_eq!(*constructor.deserializer, 7);
    assert_eq!(constructor.key, "item");
    assert_eq!(expect_bool(constructor.field(0, "value").unwrap(), constructor.parent).unwrap(), true);
    assert!(matches!(
        expect_number(constructor.field(0, "value").unwrap(), constructor.parent),
        Err(ParserError::TypeMismatch { expected: ValueKind::Number, .. })
    ));
}

#[test]
fn type_mismatch_names_the_constructor() {
    let doc = document(r##"{"item": [ "text", 3 ]}"##);
    let mut parser: Parser<()> = Parser::empty();
    parser.insert("item", ());
    let constructor = parser.parse(&doc).ok().unwrap();
    match expect_u8(constructor.field(0, "value").unwrap(), constructor.parent) {
        Err(ParserError::TypeMismatch { expected: ValueKind::U8, parent_json }) => {
            assert_eq!(parent_json.get("item").unwrap().member_count(), 2);
        }
        _ => panic!("a string is no u8"),
    }
    assert_eq!(expect_u8(constructor.field(1, "other").unwrap(), constructor.parent).unwrap(), 3);
}

#[test]
fn parse_constructor() {
    let mut parser: Parser<u8> = Parser::empty();
    parser.insert("item", 1);
    parser.insert("inner_item", 2);
    let doc = document(r##"{"item": [ { "inner_item": [ 42 ] } ]}"##);
    let outer = parser.parse(&doc).ok().unwrap();
    assert_eq!(*outer.deserializer, 1);
    let inner = parser
        .deserialize_constructor(outer.field(0, "component").unwrap())
        .ok()
        .unwrap();
    assert_eq!(*inner.deserializer, 2);
    let value: f32 = float_of(expect_number(inner.field(0, "component").unwrap(), inner.parent).unwrap());
    assert_eq!(value, 42_f32);
}

#[test]
fn fields_by_name_in_objects() {
    let mut parser: Parser<()> = Parser::empty();
    parser.insert("Point3", ());
    let doc = document(r##"{"Point3": { "x": 1, "y": 2.5, "z": -3 }}"##);
    let constructor = parser.parse(&doc).ok().unwrap();
    let y: f64 = float_of(expect_number(constructor.field(1, "y").unwrap(), constructor.parent).unwrap());
    assert_eq!(y, 2.5);
    let z: f64 = float_of(expect_number(constructor.field(7, "z").unwrap(), constructor.parent).unwrap());
    assert_eq!(z, -3.0);
    match constructor.field(3, "w") {
        Err(ParserError::MissingField { name, position, parent_json }) => {
            assert_eq!(name, "w");
            assert_eq!(position, 3);
            assert!(parent_json.get("Point3").is_some());
        }
        _ => panic!("a missing field must be reported"),
    }
}

#[test]
fn missing_positional_field() {
    let mut parser: Parser<()> = Parser::empty();
    parser.insert("Vector3", ());
    let doc = document(r##"{"Vector3": [ 1, 2 ]}"##);
    let constructor = parser.parse(&doc).ok().unwrap();
    assert!(constructor.field(1, "y").is_ok());
    match constructor.field(2, "z") {
        Err(ParserError::MissingField { name, position, parent_json }) => {
            assert_eq!(name, "z");
            assert_eq!(position, 2);
            assert_eq!(parent_json.get("Vector3").unwrap().member_count(), 2);
        }
        _ => panic!("a missing field must be reported"),
    }
}

#[test]
fn constructor_data_must_be_array_or_object() {
    let mut parser: Parser<()> = Parser::empty();
    parser.insert("item", ());
    let doc = document(r##"{"item": 42}"##);
    let constructor = parser.parse(&doc).ok().unwrap();
    match constructor.field(0, "x") {
        Err(ParserError::InvalidConstructor { parent_json }) => {
            let data = parent_json.get("item").unwrap();
            assert_eq!(expect_u64(data, &parent_json).unwrap(), 42);
        }
        _ => panic!("data that is neither an array nor an object must be refused"),
    }
}

#[test]
fn constructor_needs_exactly_one_entry() {
    let mut parser: Parser<()> = Parser::empty();
    parser.insert("a", ());
    parser.insert("b", ());
    for (text, members) in
        [(r##"{"a": [], "b": []}"##, 0), (r##"{}"##, 0), (r##"[ {"a": []} ]"##, 1), (r##"42"##, 0)]
    {
        let doc = document(text);
        match parser.parse(&doc) {
            Err(ParserError::InvalidConstructor { parent_json }) => {
                assert_eq!(parent_json.member_count(), members);
                assert_eq!(parent_json.get("a").is_some(), text.starts_with("{\"a\""));
            }
            _ => panic!("a constructor must be an object with one entry"),
        }
    }
    let doc = document(r##"42"##);
    match parser.parse(&doc) {
        Err(ParserError::InvalidConstructor { parent_json }) => {
            assert_eq!(expect_u64(&parent_json, &parent_json).unwrap(), 42)
        }
        _ => panic!("a number is no constructor"),
    }
}

#[test]
fn unknown_constructor_key() {
    let parser: Parser<()> = Parser::empty();
    let doc = document(r##"{"Sphere3": [ ]}"##);
    match parser.parse(&doc) {
        Err(ParserError::NoDeserializer { key, description }) => {
            assert_eq!(key, "Sphere3");
            assert_eq!(description, "No deserializer registered for key `Sphere3`.");
        }
        _ => panic!("an unknown key must be reported"),
    }
    assert!(matches!(parser.deserializer("Sphere3"), Err(ParserError::NoDeserializer { .. })));
}

#[test]
fn syntax_error_is_reported() {
    let parser: Parser<()> = Parser::empty();
    let doc = document(r##"{"item": [ 42 "##);
    let message = doc.as_ref().err().unwrap().clone();
    match parser.parse(&doc) {
        Err(ParserError::SyntaxError { description, error }) => {
            assert_eq!(description, "Invalid JSON file. Please, check the syntax.");
            assert_eq!(error, message);
            assert!(!error.is_empty());
        }
        _ => panic!("a syntax error must be reported"),
    }
}

#[test]
fn later_registration_replaces_earlier() {
    let mut parser: Parser<u32> = Parser::empty();
    parser.insert("item", 1);
    parser.insert("other", 2);
    parser.insert("item", 3);
    assert_eq!(*parser.deserializer("item").ok().unwrap(), 3);
    assert_eq!(*parser.deserializer("other").ok().unwrap(), 2);
}

#[test]
fn set_operations_by_name() {
    assert_eq!(set_operation("Union").ok(), Some(SetOperation::Union));
    assert_eq!(set_operation("Intersection").ok(), Some(SetOperation::Intersection));
    assert_eq!(set_operation("Complement").ok(), Some(SetOperation::Complement));
    assert_eq!(
        set_operation("SymmetricDifference").ok(),
        Some(SetOperation::SymmetricDifference)
    );
    match set_operation("Xor") {
        Err(ParserError::CustomError { description }) => {
            assert_eq!(description, "Invalid `SetOperation`: \"Xor\"")
        }
        _ => panic!("an unknown operation must be refused"),
    }
}

#[test]
fn json_accessors() {
    let doc = document(r##"{"a": "text", "b": null, "c": [1, 2]}"##).unwrap();
    assert_eq!(doc.get("a").unwrap().as_str().unwrap(), "text");
    assert!(matches!(doc.get("b"), Some(Json::Null)));
    assert_eq!(doc.get("c").unwrap().member_count(), 2);
    assert!(doc.get("d").is_none());
    assert_eq!(doc.member_count(), 0);
    assert!(doc.as_bool().is_none());
    assert_eq!(
        doc.get("c").unwrap().member(1).as_number(),
        Some(JsonNumber { positive: true, mantissa: 2, exponent: 0 })
    );
}

#[test]
fn read_document_keeps_the_structure() {
    let doc = read_document(r##"{"a": [1, "two", true, null, {"b": -2.5}], "c": "three"}"##).unwrap();
    let a = doc.get("a").unwrap();
    assert_eq!(a.member_count(), 5);
    assert_eq!(
        a.member(0).as_number(),
        Some(JsonNumber { positive: true, mantissa: 1, exponent: 0 })
    );
    assert_eq!(a.member(1).as_str().unwrap(), "two");
    assert_eq!(a.member(2).as_bool(), Some(true));
    assert!(matches!(a.member(3), Json::Null));
    assert_eq!(
        a.member(4).get("b").unwrap().as_number(),
        Some(JsonNumber { positive: false, mantissa: 25, exponent: -1 })
    );
    assert_eq!(doc.get("c").unwrap().as_str().unwrap(), "three");
    assert!(read_document("{ nope").is_err());
    assert!(read_document("").is_err());
}
