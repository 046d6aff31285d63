//! Simple Binary: schema-driven layout, inheritance, `bonded<T>`, and the
//! schema errors.

use bond::{simple, BondDataType, Error, Field, FieldDef, Metadata, SchemaDef, Struct, StructDef, TypeDef, Value, V1, V2};

fn inheritance_schema() -> SchemaDef {
    let base = StructDef::new(
        "Base",
        vec![
            FieldDef::new(0, "base_a", TypeDef::scalar(BondDataType::Int32)),
            FieldDef::new(1, "base_b", TypeDef::scalar(BondDataType::String)),
        ],
    );
    let mut derived = StructDef::new(
        "Derived",
        vec![
            FieldDef::new(2, "d", TypeDef::scalar(BondDataType::Bool)),
            FieldDef::new(3, "e", TypeDef::scalar(BondDataType::Int64)),
        ],
    );
    derived.base_def = Some(TypeDef::struct_ref(0));
    SchemaDef::with_root_struct(vec![base, derived], 1)
}

fn inheritance_value() -> Struct {
    Struct {
        fields: vec![
            Field::named(0, "base_a", Value::Int32(-7)),
            Field::named(1, "base_b", Value::Str("hi".into())),
            Field::named(2, "d", Value::Bool(true)),
            Field::named(3, "e", Value::Int64(123_456_789)),
        ],
    }
}

#[test]
fn simple_binary_inheritance() {
    let schema = inheritance_schema();
    let value = inheritance_value();
    for ver in [V1, V2] {
        let bytes = simple::write(&value, &schema, ver).unwrap();
        let parsed = simple::parse(&bytes, &schema, ver).unwrap();
        assert_eq!(parsed, value, "simple v{ver} inheritance");
    }
}

#[test]
fn simple_binary_layout_bytes() {
    let schema = inheritance_schema();
    let value = inheritance_value();
    // Fields positionally: int32 -7 LE, string "hi" (v1: u32 length), bool, int64 LE.
    let v1 = simple::write(&value, &schema, V1).unwrap();
    assert_eq!(
        v1,
        vec![
            0xF9, 0xFF, 0xFF, 0xFF, 0x02, 0x00, 0x00, 0x00, 0x68, 0x69, 0x01, 0x15, 0xCD, 0x5B, 0x07, 0x00, 0x00, 0x00,
            0x00,
        ]
    );
    let v2 = simple::write(&value, &schema, V2).unwrap();
    assert_eq!(
        v2,
        vec![0xF9, 0xFF, 0xFF, 0xFF, 0x02, 0x68, 0x69, 0x01, 0x15, 0xCD, 0x5B, 0x07, 0x00, 0x00, 0x00, 0x00]
    );
}

#[test]
fn bonded_field_roundtrips_in_simple() {
    let inner = StructDef::new("Inner", vec![FieldDef::new(0, "x", TypeDef::scalar(BondDataType::Int32))]);
    let outer = StructDef::new(
        "Outer",
        vec![FieldDef { metadata: Metadata::named("b"), id: 0, type_def: TypeDef::bonded_ref(0) }],
    );
    let schema = SchemaDef::with_root_struct(vec![inner, outer], 1);
    let payload = vec![0x43u8, 0x42, 0x02, 0x00, 0x01, 0x00];
    let value = Struct { fields: vec![Field::named(0, "b", Value::Bonded(payload.clone()))] };
    for ver in [V1, V2] {
        let bytes = simple::write(&value, &schema, ver).unwrap();
        let parsed = simple::parse(&bytes, &schema, ver).unwrap();
        assert_eq!(parsed, value, "bonded simple v{ver}");
    }
}

fn container_schema() -> SchemaDef {
    let inner = StructDef::new("Inner", vec![FieldDef::new(0, "x", TypeDef::scalar(BondDataType::UInt16))]);
    let root = StructDef::new(
        "Root",
        vec![
            FieldDef::new(0, "list", TypeDef::list(TypeDef::scalar(BondDataType::Int16))),
            FieldDef::new(1, "set", TypeDef::set(TypeDef::scalar(BondDataType::String))),
            FieldDef::new(
                2,
                "map",
                TypeDef::map(TypeDef::scalar(BondDataType::UInt32), TypeDef::scalar(BondDataType::WString)),
            ),
            FieldDef::new(3, "none", TypeDef::nullable(TypeDef::scalar(BondDataType::Double))),
            FieldDef::new(4, "some", TypeDef::nullable(TypeDef::struct_ref(0))),
            FieldDef::new(5, "blob", TypeDef::blob()),
            FieldDef::new(6, "float", TypeDef::scalar(BondDataType::Float)),
        ],
    );
    SchemaDef::with_root_struct(vec![inner, root], 1)
}

fn container_value() -> Struct {
    let inner = Struct { fields: vec![Field::named(0, "x", Value::UInt16(513))] };
    Struct {
        fields: vec![
            Field::named(
                0,
                "list",
                Value::List { element: BondDataType::Int16, items: vec![Value::Int16(-1), Value::Int16(300)] },
            ),
            Field::named(
                1,
                "set",
                Value::SetOf { element: BondDataType::String, items: vec![Value::Str("a".into())] },
            ),
            Field::named(
                2,
                "map",
                Value::MapOf {
                    key: BondDataType::UInt32,
                    value: BondDataType::WString,
                    entries: vec![(Value::UInt32(9), Value::WStr("ω".into()))],
                },
            ),
            Field::named(3, "none", Value::Nullable { element: BondDataType::Double, value: None }),
            Field::named(
                4,
                "some",
                Value::Nullable { element: BondDataType::Struct, value: Some(Box::new(Value::Struct(inner))) },
            ),
            Field::named(5, "blob", Value::Blob(vec![0, 255, 7])),
            Field::named(6, "float", Value::Float(1.5f32.to_bits())),
        ],
    }
}

#[test]
fn simple_containers_roundtrip() {
    let schema = container_schema();
    let value = container_value();
    for ver in [V1, V2] {
        let bytes = simple::write(&value, &schema, ver).unwrap();
        assert_eq!(simple::parse(&bytes, &schema, ver).unwrap(), value, "v{ver}");
    }
}

#[test]
fn nullable_keeps_the_last_of_several() {
    let schema = SchemaDef::with_root_struct(
        vec![StructDef::new("R", vec![FieldDef::new(0, "n", TypeDef::nullable(TypeDef::scalar(BondDataType::UInt8)))])],
        0,
    );
    // v2: count 3 as a varint, then three uint8 values; the last one is kept.
    let bytes = [0x03u8, 10, 20, 30];
    let parsed = simple::parse(&bytes, &schema, V2).unwrap();
    assert_eq!(
        parsed,
        Struct {
            fields: vec![Field::named(
                0,
                "n",
                Value::Nullable { element: BondDataType::UInt8, value: Some(Box::new(Value::UInt8(30))) }
            )]
        }
    );
}

#[test]
fn simple_schema_errors() {
    let schema = inheritance_schema();
    // Root that is not a struct.
    let bad_root = SchemaDef { structs: vec![], root: TypeDef::scalar(BondDataType::Int32) };
    assert_eq!(
        simple::parse(&[], &bad_root, V1),
        Err(Error::SchemaError("Simple Binary root must be a struct".into()))
    );
    assert_eq!(
        simple::write(&Struct::new(), &bad_root, V1),
        Err(Error::SchemaError("Simple Binary root must be a struct".into()))
    );
    // A missing field.
    let partial = Struct { fields: vec![Field::named(0, "base_a", Value::Int32(1))] };
    assert_eq!(
        simple::write(&partial, &schema, V1),
        Err(Error::SchemaError("value is missing field id 1 (base_b)".into()))
    );
    // A value of the wrong type.
    let wrong = Struct {
        fields: vec![
            Field::named(0, "base_a", Value::Bool(true)),
            Field::named(1, "base_b", Value::Str("x".into())),
            Field::named(2, "d", Value::Bool(true)),
            Field::named(3, "e", Value::Int64(0)),
        ],
    };
    assert_eq!(
        simple::write(&wrong, &schema, V1),
        Err(Error::SchemaError("Simple Binary value/type mismatch: schema says Int32, value is Bool".into()))
    );
    // Sets and maps are named `Set` and `Map` in the message.
    let set_schema = SchemaDef::with_root_struct(
        vec![StructDef::new("R", vec![FieldDef::new(0, "s", TypeDef::set(TypeDef::scalar(BondDataType::Int8)))])],
        0,
    );
    let map_value = Struct {
        fields: vec![Field::named(
            0,
            "s",
            Value::MapOf { key: BondDataType::Int8, value: BondDataType::Int8, entries: vec![] },
        )],
    };
    assert_eq!(
        simple::write(&map_value, &set_schema, V2),
        Err(Error::SchemaError("Simple Binary value/type mismatch: schema says Set, value is Map".into()))
    );
    // A struct index the schema does not have.
    let dangling = SchemaDef::with_root_struct(vec![], 4);
    assert_eq!(simple::parse(&[], &dangling, V1), Err(Error::SchemaError("no struct at index 4".into())));
    // A type Simple Binary cannot carry.
    let odd = SchemaDef::with_root_struct(
        vec![StructDef::new("R", vec![FieldDef::new(0, "u", TypeDef::scalar(BondDataType::Unavailable))])],
        0,
    );
    assert_eq!(
        simple::parse(&[0, 0, 0, 0], &odd, V1),
        Err(Error::SchemaError("unsupported type Unavailable in Simple Binary schema".into()))
    );
    // An unknown version.
    assert_eq!(
        simple::parse(&[], &schema, 5),
        Err(Error::UnsupportedVersion { protocol: bond::ProtocolType::Simple, version: 5 })
    );
    // A container type without its element type.
    let mut list = TypeDef::list(TypeDef::scalar(BondDataType::Int8));
    list.element = None;
    let no_element = SchemaDef::with_root_struct(vec![StructDef::new("R", vec![FieldDef::new(0, "l", list)])], 0);
    assert_eq!(
        simple::parse(&[0, 0, 0, 0], &no_element, V1),
        Err(Error::SchemaError("container is missing its element type".into()))
    );
}

#[test]
fn simple_truncation_is_eof() {
    let schema = inheritance_schema();
    let bytes = simple::write(&inheritance_value(), &schema, V1).unwrap();
    assert!(matches!(
        simple::parse(&bytes[..bytes.len() - 1], &schema, V1),
        Err(Error::UnexpectedEof { .. })
    ));
}

#[test]
fn marshal_unmarshal_simple_inheritance() {
    let schema = container_schema();
    let value = container_value();
    for &ver in &[V1, V2] {
        let bytes = bond::marshal_with_schema(&value, bond::ProtocolType::Simple, ver, &schema).unwrap();
        assert_eq!(&bytes[0..4], &[0x53, 0x50, ver as u8, 0x00]);
        let out = bond::unmarshal_with_schema(&bytes, &schema).unwrap();
        assert_eq!(out.protocol, bond::ProtocolType::Simple);
        assert_eq!(out.version, ver);
        assert_eq!(out.value, value, "simple v{ver}");
        let any = bond::parse_any(&bytes, Some(&schema)).unwrap();
        assert_eq!(any.value, value);
    }
}
