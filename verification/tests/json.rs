//! Simple JSON: the mapping between values and JSON documents, read and written
//! through `serde_json` text.

use bond::simple_json::{from_json, from_json_with_schema, parse_u16, struct_to_json, Json, JsonNumber, JsonOut};
use bond::{simple, BondDataType, Error, Field, FieldDef, ListSubType, SchemaDef, Struct, StructDef, TypeDef, Value, V1, V2};
use serde_json::Value as JsonText;

fn document(v: &JsonText) -> Json {
    match v {
        JsonText::Null => Json::Null,
        JsonText::Bool(b) => Json::Bool(*b),
        JsonText::Number(n) => {
            let f = n.as_f64().unwrap_or(0.0);
            Json::Number(JsonNumber {
                as_u64: n.as_u64(),
                as_i64: n.as_i64(),
                f64_bits: f.to_bits(),
                f32_bits: (f as f32).to_bits(),
            })
        }
        JsonText::String(s) => Json::Str(s.clone()),
        JsonText::Array(items) => Json::Array(items.iter().map(document).collect()),
        JsonText::Object(m) => Json::Object(m.iter().map(|(k, v)| (k.clone(), document(v))).collect()),
    }
}

fn number_f64(v: f64) -> JsonText {
    serde_json::Number::from_f64(v).map_or(JsonText::Null, JsonText::Number)
}

fn text(out: JsonOut) -> JsonText {
    match out {
        JsonOut::Null => JsonText::Null,
        JsonOut::Bool(b) => JsonText::Bool(b),
        JsonOut::UInt(u) => JsonText::Number(u.into()),
        JsonOut::Int(i) => JsonText::Number(i.into()),
        JsonOut::Single(bits) => number_f64(f32::from_bits(bits) as f64),
        JsonOut::Double(bits) => number_f64(f64::from_bits(bits)),
        JsonOut::Str(s) => JsonText::String(s),
        JsonOut::Array(items) => JsonText::Array(items.into_iter().map(text).collect()),
        JsonOut::Object(members) => {
            let mut map = serde_json::Map::new();
            for (k, v) in members {
                map.insert(k, text(v));
            }
            JsonText::Object(map)
        }
    }
}

fn write(value: &Struct, pretty: bool) -> Result<Vec<u8>, Error> {
    let json = text(struct_to_json(value)?);
    let s = if pretty { serde_json::to_string_pretty(&json) } else { serde_json::to_string(&json) }
        .map_err(|e| Error::Json(e.to_string()))?;
    Ok(s.into_bytes())
}

fn parse(bytes: &[u8]) -> Result<Struct, Error> {
    let json: JsonText = serde_json::from_slice(bytes).map_err(|e| Error::Json(e.to_string()))?;
    from_json(&document(&json))
}

fn parse_with_schema(bytes: &[u8], schema: &SchemaDef) -> Result<Struct, Error> {
    let json: JsonText = serde_json::from_slice(bytes).map_err(|e| Error::Json(e.to_string()))?;
    from_json_with_schema(&document(&json), schema)
}

#[test]
fn schemaless_json_parses_losslessly() {
    let json = br#"{"a": 1, "b": "x", "c": [1, 2, 3], "d": true, "e": null, "f": -9}"#;
    let s = parse(json).unwrap();
    assert_eq!(s.get_by_name("a"), Some(&Value::Int64(1)));
    assert_eq!(s.get_by_name("b"), Some(&Value::Str("x".into())));
    assert_eq!(s.get_by_name("d"), Some(&Value::Bool(true)));
    assert_eq!(s.get_by_name("f"), Some(&Value::Int64(-9)));
    match s.get_by_name("c").unwrap() {
        Value::List { items, .. } => assert_eq!(items.len(), 3),
        other => panic!("expected list, got {other:?}"),
    }
    match s.get_by_name("e").unwrap() {
        Value::Nullable { value: None, .. } => {}
        other => panic!("expected null, got {other:?}"),
    }
}

#[test]
fn simple_binary_and_json_inheritance() {
    // Base { 0: int32 base_a; 1: string base_b }
    // Derived : Base { 2: bool d; 3: int64 e }   (distinct ids across the chain)
    let base = StructDef::new(
        "Base",
        vec![
            FieldDef::new(0, "base_a", TypeDef::scalar(BondDataType::Int32)),
            FieldDef::new(1, "base_b", TypeDef::scalar(BondDataType::String)),
        ],
    );
    let mut derived = StructDef::new(
        "Derived",
        vec![
            FieldDef::new(2, "d", TypeDef::scalar(BondDataType::Bool)),
            FieldDef::new(3, "e", TypeDef::scalar(BondDataType::Int64)),
        ],
    );
    derived.base_def = Some(TypeDef::struct_ref(0));
    let schema = SchemaDef::with_root_struct(vec![base, derived], 1);

    // The DOM is flat: base fields first, then derived (the read order).
    let value = Struct {
        fields: vec![
            Field::named(0, "base_a", Value::Int32(-7)),
            Field::named(1, "base_b", Value::Str("hi".into())),
            Field::named(2, "d", Value::Bool(true)),
            Field::named(3, "e", Value::Int64(123_456_789)),
        ],
    };

    for ver in [V1, V2] {
        let bytes = simple::write(&value, &schema, ver).unwrap();
        let parsed = simple::parse(&bytes, &schema, ver).unwrap();
        assert_eq!(parsed, value, "simple v{ver} inheritance");
    }
    let jbytes = write(&value, false).unwrap();
    let jparsed = parse_with_schema(&jbytes, &schema).unwrap();
    assert_eq!(jparsed, value, "json inheritance");
}

fn rich_schema() -> SchemaDef {
    let inner = StructDef::new("Inner", vec![FieldDef::new(0, "x", TypeDef::scalar(BondDataType::Int16))]);
    let outer = StructDef::new(
        "Outer",
        vec![
            FieldDef::new(0, "u8", TypeDef::scalar(BondDataType::UInt8)),
            FieldDef::new(1, "u64", TypeDef::scalar(BondDataType::UInt64)),
            FieldDef::new(2, "i8", TypeDef::scalar(BondDataType::Int8)),
            FieldDef::new(3, "f", TypeDef::scalar(BondDataType::Float)),
            FieldDef::new(4, "d", TypeDef::scalar(BondDataType::Double)),
            FieldDef::new(5, "w", TypeDef::scalar(BondDataType::WString)),
            FieldDef::new(6, "inner", TypeDef::struct_ref(0)),
            FieldDef::new(7, "list", TypeDef::list(TypeDef::scalar(BondDataType::Int32))),
            FieldDef::new(8, "set", TypeDef::set(TypeDef::scalar(BondDataType::String))),
            FieldDef::new(
                9,
                "map",
                TypeDef::map(TypeDef::scalar(BondDataType::String), TypeDef::scalar(BondDataType::Bool)),
            ),
            FieldDef::new(10, "none", TypeDef::nullable(TypeDef::scalar(BondDataType::Int32))),
            FieldDef::new(11, "some", TypeDef::nullable(TypeDef::scalar(BondDataType::Int32))),
            FieldDef::new(12, "blob", TypeDef::blob()),
        ],
    );
    SchemaDef::with_root_struct(vec![inner, outer], 1)
}

fn rich_value() -> Struct {
    Struct {
        fields: vec![
            Field::named(0, "u8", Value::UInt8(200)),
            Field::named(1, "u64", Value::UInt64(u64::MAX)),
            Field::named(2, "i8", Value::Int8(-128)),
            Field::named(3, "f", Value::Float(1.5f32.to_bits())),
            Field::named(4, "d", Value::Double((-0.25f64).to_bits())),
            Field::named(5, "w", Value::WStr("wide 🦀".into())),
            Field::named(6, "inner", Value::Struct(Struct { fields: vec![Field::named(0, "x", Value::Int16(-3))] })),
            Field::named(
                7,
                "list",
                Value::List { element: BondDataType::Int32, items: vec![Value::Int32(1), Value::Int32(-2)] },
            ),
            Field::named(
                8,
                "set",
                Value::SetOf { element: BondDataType::String, items: vec![Value::Str("s".into())] },
            ),
            Field::named(
                9,
                "map",
                Value::MapOf {
                    key: BondDataType::String,
                    value: BondDataType::Bool,
                    entries: vec![(Value::Str("k".into()), Value::Bool(false))],
                },
            ),
            Field::named(10, "none", Value::Nullable { element: BondDataType::Int32, value: None }),
            Field::named(
                11,
                "some",
                Value::Nullable { element: BondDataType::Int32, value: Some(Box::new(Value::Int32(9))) },
            ),
            Field::named(12, "blob", Value::Blob(vec![0, 127, 128, 255])),
        ],
    }
}

#[test]
fn typed_json_roundtrips_every_kind() {
    let schema = rich_schema();
    let value = rich_value();
    for pretty in [false, true] {
        let bytes = write(&value, pretty).unwrap();
        // Object keys come out in serde_json's (sorted) order; the schema puts
        // the fields back in definition order.
        assert_eq!(parse_with_schema(&bytes, &schema).unwrap(), value);
    }
}

fn from_text(t: &str) -> JsonText {
    serde_json::from_str(t).unwrap()
}

#[test]
fn written_document_shapes() {
    let json: JsonText = serde_json::from_slice(&write(&rich_value(), false).unwrap()).unwrap();
    assert_eq!(json["u8"], from_text("200"));
    assert_eq!(json["u64"], from_text("18446744073709551615"));
    assert_eq!(json["i8"], from_text("-128"));
    assert_eq!(json["f"], from_text("1.5"));
    assert_eq!(json["d"], from_text("-0.25"));
    assert_eq!(json["inner"], from_text(r#"{"x": -3}"#));
    assert_eq!(json["list"], from_text("[1, -2]"));
    assert_eq!(json["set"], from_text(r#"["s"]"#));
    // A map is one flat array: key, value, key, value, ...
    assert_eq!(json["map"], from_text(r#"["k", false]"#));
    assert_eq!(json["none"], JsonText::Null);
    assert_eq!(json["some"], from_text("[9]"));
    // Blob bytes are written as int8.
    assert_eq!(json["blob"], from_text("[0, 127, -128, -1]"));
}

#[test]
fn unnamed_fields_are_keyed_by_id() {
    let value = Struct { fields: vec![Field::new(7, Value::Bool(true)), Field::named(8, "n", Value::UInt16(5))] };
    match struct_to_json(&value).unwrap() {
        JsonOut::Object(members) => {
            assert_eq!(members.len(), 2);
            assert_eq!(members[0].0, "7");
            assert!(matches!(members[0].1, JsonOut::Bool(true)));
            assert_eq!(members[1].0, "n");
            assert!(matches!(members[1].1, JsonOut::UInt(5)));
        }
        other => panic!("expected an object, got {other:?}"),
    }
}

#[test]
fn non_finite_numbers_are_written_as_null() {
    let value = Struct {
        fields: vec![
            Field::named(0, "a", Value::Double(f64::NAN.to_bits())),
            Field::named(1, "b", Value::Float(f32::INFINITY.to_bits())),
            Field::named(2, "c", Value::Double(f64::NEG_INFINITY.to_bits())),
            Field::named(3, "d", Value::Float(f32::MIN_POSITIVE.to_bits())),
        ],
    };
    let out = struct_to_json(&value).unwrap();
    match out {
        JsonOut::Object(m) => {
            assert!(matches!(m[0].1, JsonOut::Null));
            assert!(matches!(m[1].1, JsonOut::Null));
            assert!(matches!(m[2].1, JsonOut::Null));
            assert!(matches!(m[3].1, JsonOut::Single(b) if b == f32::MIN_POSITIVE.to_bits()));
        }
        other => panic!("expected an object, got {other:?}"),
    }
    // Read back with a schema, a null float is 0.0.
    let schema = SchemaDef::with_root_struct(
        vec![StructDef::new("S", vec![FieldDef::new(0, "a", TypeDef::scalar(BondDataType::Double))])],
        0,
    );
    let parsed = parse_with_schema(&write(&value, false).unwrap(), &schema).unwrap();
    assert_eq!(parsed.get(0), Some(&Value::Double(0)));
}

#[test]
fn bonded_cannot_be_written() {
    let nested = Struct {
        fields: vec![Field::named(
            0,
            "l",
            Value::List { element: BondDataType::Struct, items: vec![Value::Bonded(vec![1, 2])] },
        )],
    };
    let err = Error::Json("cannot serialize bonded<T> to Simple JSON without a schema".into());
    assert_eq!(struct_to_json(&nested).unwrap_err(), err);
    assert_eq!(write(&nested, false).unwrap_err(), err);
}

#[test]
fn schemaless_numbers_and_keys() {
    let s = parse(br#"{"+12": 18446744073709551615, "3": 2.5, "x": [], "07": {"k": [true]}}"#).unwrap();
    // serde_json keeps object keys sorted.
    let names: Vec<_> = s.fields.iter().map(|f| f.name.clone().unwrap()).collect();
    assert_eq!(names, vec!["+12", "07", "3", "x"]);
    assert_eq!(s.fields[0].id, 12);
    assert_eq!(s.fields[0].value, Value::UInt64(u64::MAX));
    assert_eq!(s.fields[1].id, 7);
    assert_eq!(s.fields[2].id, 3);
    assert_eq!(s.fields[2].value, Value::Double(2.5f64.to_bits()));
    assert_eq!(s.fields[3].id, 0);
    assert_eq!(s.fields[3].value, Value::List { element: BondDataType::Unavailable, items: vec![] });
    match &s.fields[1].value {
        Value::Struct(inner) => assert_eq!(
            inner.get_by_name("k"),
            Some(&Value::List { element: BondDataType::Bool, items: vec![Value::Bool(true)] })
        ),
        other => panic!("expected a struct, got {other:?}"),
    }
}

#[test]
fn top_level_must_be_an_object() {
    let err = Error::Json("top-level Simple JSON value must be an object".into());
    assert_eq!(parse(b"[1, 2]"), Err(err.clone()));
    assert_eq!(parse(b"3"), Err(err));
    assert!(matches!(parse(b"{"), Err(Error::Json(_))));
}

#[test]
fn decimal_keys_read_like_str_parse() {
    for s in ["0", "7", "+7", "65535", "65536", "", "+", "-", "-0", "++1", "1+", " 1", "00042", "٣", "99999999999999999999"] {
        assert_eq!(parse_u16(s), s.parse::<u16>().ok(), "{s:?}");
    }
}

fn one_field_schema(td: TypeDef) -> SchemaDef {
    SchemaDef::with_root_struct(vec![StructDef::new("S", vec![FieldDef::new(0, "v", td)])], 0)
}

fn typed_err(td: TypeDef, member: &str) -> Error {
    let text = format!(r#"{{"v": {member}}}"#);
    parse_with_schema(text.as_bytes(), &one_field_schema(td)).unwrap_err()
}

#[test]
fn typed_json_errors() {
    let j = |m: &str| Error::Json(m.into());
    assert_eq!(typed_err(TypeDef::scalar(BondDataType::Bool), "1"), j("expected bool"));
    assert_eq!(typed_err(TypeDef::scalar(BondDataType::UInt8), "-1"), j("expected JSON number for uint8"));
    assert_eq!(typed_err(TypeDef::scalar(BondDataType::UInt64), "1.5"), j("expected JSON number for uint64"));
    assert_eq!(typed_err(TypeDef::scalar(BondDataType::Int32), "\"1\""), j("expected JSON number for int32"));
    assert_eq!(typed_err(TypeDef::scalar(BondDataType::String), "1"), j("expected string"));
    assert_eq!(typed_err(TypeDef::scalar(BondDataType::WString), "null"), j("expected wstring"));
    assert_eq!(typed_err(TypeDef::struct_ref(0), "[]"), j("expected JSON object for struct"));
    let nullable = TypeDef::nullable(TypeDef::scalar(BondDataType::Int8));
    assert_eq!(typed_err(nullable.clone(), "[1, 2]"), j("nullable must be null or a single-element array"));
    assert_eq!(typed_err(nullable, "5"), j("nullable must be null or a single-element array"));
    assert_eq!(typed_err(TypeDef::blob(), "{}"), j("expected array for blob"));
    assert_eq!(typed_err(TypeDef::blob(), "[1, \"a\"]"), j("expected JSON number for blob byte"));
    let list = TypeDef::list(TypeDef::scalar(BondDataType::Int8));
    assert_eq!(typed_err(list, "{}"), j("expected array"));
    assert_eq!(typed_err(TypeDef::set(TypeDef::scalar(BondDataType::Int8)), "1"), j("expected array"));
    let map = TypeDef::map(TypeDef::scalar(BondDataType::Int8), TypeDef::scalar(BondDataType::Int8));
    assert_eq!(typed_err(map.clone(), "{}"), j("expected flat array for map"));
    assert_eq!(typed_err(map, "[1, 2, 3]"), j("map array must have an even length"));
    assert_eq!(
        typed_err(TypeDef::scalar(BondDataType::Stop), "1"),
        Error::SchemaError("unsupported type Stop in Simple JSON schema".into())
    );
    let bare_list = TypeDef { sub_type: ListSubType::Plain, ..TypeDef::scalar(BondDataType::List) };
    assert_eq!(typed_err(bare_list, "[]"), Error::SchemaError("container is missing its element type".into()));
    let keyless = TypeDef { element: Some(Box::new(TypeDef::scalar(BondDataType::Bool))), ..TypeDef::scalar(BondDataType::MapType) };
    assert_eq!(typed_err(keyless, "[]"), Error::SchemaError("map is missing its key type".into()));
    assert_eq!(
        parse_with_schema(b"{}", &SchemaDef { structs: vec![], root: TypeDef::scalar(BondDataType::Int32) }),
        Err(Error::SchemaError("Simple JSON root must be a struct".into()))
    );
    assert_eq!(
        parse_with_schema(b"{}", &SchemaDef { structs: vec![], root: TypeDef::struct_ref(2) }),
        Err(Error::SchemaError("no struct at index 2".into()))
    );
}

#[test]
fn typed_json_conversions() {
    let schema = SchemaDef::with_root_struct(
        vec![StructDef::new(
            "S",
            vec![
                FieldDef::new(0, "u8", TypeDef::scalar(BondDataType::UInt8)),
                FieldDef::new(1, "i16", TypeDef::scalar(BondDataType::Int16)),
                FieldDef::new(2, "f", TypeDef::scalar(BondDataType::Float)),
                FieldDef::new(3, "d", TypeDef::scalar(BondDataType::Double)),
                FieldDef::new(4, "missing", TypeDef::scalar(BondDataType::Bool)),
                FieldDef::new(5, "by_id", TypeDef::scalar(BondDataType::Int64)),
                FieldDef::new(6, "blob", TypeDef::blob()),
                FieldDef::new(7, "fnull", TypeDef::scalar(BondDataType::Float)),
            ],
        )],
        0,
    );
    let s = parse_with_schema(
        br#"{"u8": 300, "i16": -70000, "f": 0.1, "d": 3, "5": -4, "blob": [-1, 256, 127], "fnull": "x"}"#,
        &schema,
    )
    .unwrap();
    // Integers are truncated to the field's width, as `as` casts do.
    assert_eq!(s.get(0), Some(&Value::UInt8(300u64 as u8)));
    assert_eq!(s.get(1), Some(&Value::Int16(-70000i64 as i16)));
    assert_eq!(s.get(2), Some(&Value::Float(0.1f32.to_bits())));
    assert_eq!(s.get(3), Some(&Value::Double(3.0f64.to_bits())));
    // A field the document lacks is left out; one keyed by its id is found.
    assert_eq!(s.get(4), None);
    assert_eq!(s.get(5), Some(&Value::Int64(-4)));
    assert_eq!(s.fields[4].name.as_deref(), Some("by_id"));
    assert_eq!(s.get(6), Some(&Value::Blob(vec![255, 0, 127])));
    // A non-number read as a float is 0.0.
    assert_eq!(s.get(7), Some(&Value::Float(0)));
    assert_eq!(s.fields.len(), 7);
}

#[test]
fn schemaless_reading_tells_documents_apart() {
    let docs: [&[u8]; 8] = [
        br#"{"a": 1}"#,
        br#"{"a": 1.0}"#,
        br#"{"a": "1"}"#,
        br#"{"a": [1]}"#,
        br#"{"a": null}"#,
        br#"{"a": {"b": 1}}"#,
        br#"{"b": 1}"#,
        br#"{"a": 18446744073709551615}"#,
    ];
    let values: Vec<Struct> = docs.iter().map(|d| parse(d).unwrap()).collect();
    for i in 0..values.len() {
        for j in 0..values.len() {
            assert_eq!(values[i] == values[j], i == j, "{} vs {}", i, j);
        }
    }
    // Documents that differ only in how a number is spelled read alike.
    assert_eq!(parse(br#"{"a": 1e1}"#).unwrap(), parse(br#"{"a": 10.0}"#).unwrap());
}
