//! Round trips over seeded random (schema, value) pairs, which cover every Bond
//! type: each protocol's parse reproduces what its writer wrote.
//!
//! Tagged protocols (Compact, Fast) cannot recover field names or the
//! `nullable`/`blob` sub-kinds (all `BT_LIST` on the wire), so the expected
//! value is normalized for those comparisons. Schema-driven protocols (Simple
//! Binary, Simple JSON) recover the exact types and compare directly.

use rand::Rng;
use rand_chacha::rand_core::SeedableRng;
use rand_chacha::ChaCha8Rng;

use bond::gen::GenConfig;
use bond::simple_json::{from_json_with_schema, struct_to_json, Json, JsonNumber, JsonOut};
use bond::{compact, fast, simple};
use bond::{
    detect, marshal, marshal_with_schema, parse_any, transcode_tagged, unmarshal, unmarshal_with_schema,
    BondDataType, Error, Field, FieldDef, ListSubType, ProtocolType, SchemaDef, Struct, StructDef, TypeDef,
    Value, V1, V2,
};
use serde_json::Value as JsonText;

// ---------------------------------------------------------------------------
// Seeded data
// ---------------------------------------------------------------------------

/// A seeded generator of Bond schemas and values.
struct Generator {
    rng: ChaCha8Rng,
    cfg: GenConfig,
    structs: Vec<StructDef>,
}

const UNICODE_POOL: &[char] = &['a', 'Z', '0', ' ', '_', '\n', '"', '\\', 'é', 'ß', 'Ω', '中', '文', '🦀', '😀', '𝄞'];

impl Generator {
    /// Creates a generator with the default configuration and the given seed.
    fn new(seed: u64) -> Self {
        Self::with_config(seed, GenConfig::default())
    }

    /// Creates a generator with an explicit configuration.
    fn with_config(seed: u64, cfg: GenConfig) -> Self {
        Generator { rng: ChaCha8Rng::seed_from_u64(seed), cfg, structs: Vec::new() }
    }

    /// Generates a random schema together with a conforming value.
    fn generate(&mut self) -> (SchemaDef, Struct) {
        self.structs.clear();
        let root_idx = self.gen_struct_def(0);
        let schema = SchemaDef { structs: std::mem::take(&mut self.structs), root: TypeDef::struct_ref(root_idx) };
        let value = self.gen_struct_value(&schema, root_idx, 0);
        (schema, value)
    }

    // --- schema generation ---

    fn gen_struct_def(&mut self, depth: usize) -> u16 {
        let nfields = self.rng.gen_range(1..=self.cfg.max_fields.max(1));
        let mut fields = Vec::with_capacity(nfields);
        for i in 0..nfields {
            let td = self.gen_type_def(depth + 1);
            fields.push(FieldDef::new(i as u16, &format!("f{i}"), td));
        }
        let idx = self.structs.len() as u16;
        self.structs.push(StructDef::new(&format!("S{idx}"), fields));
        idx
    }

    fn gen_type_def(&mut self, depth: usize) -> TypeDef {
        // Near the depth limit, only emit leaf types.
        let complex_ok = self.cfg.allow_complex && depth < self.cfg.max_depth;
        let n = if complex_ok { 18 } else { 12 };
        match self.rng.gen_range(0..n) {
            0 => TypeDef::scalar(BondDataType::Bool),
            1 => TypeDef::scalar(BondDataType::UInt8),
            2 => TypeDef::scalar(BondDataType::UInt16),
            3 => TypeDef::scalar(BondDataType::UInt32),
            4 => TypeDef::scalar(BondDataType::UInt64),
            5 => TypeDef::scalar(BondDataType::Int8),
            6 => TypeDef::scalar(BondDataType::Int16),
            7 => TypeDef::scalar(BondDataType::Int32),
            8 => TypeDef::scalar(BondDataType::Int64),
            9 => TypeDef::scalar(BondDataType::Float),
            10 => TypeDef::scalar(BondDataType::Double),
            11 => {
                if self.cfg.allow_wstring && self.rng.gen_bool(0.5) {
                    TypeDef::scalar(BondDataType::WString)
                } else {
                    TypeDef::scalar(BondDataType::String)
                }
            }
            12 => TypeDef::struct_ref(self.gen_struct_def(depth + 1)),
            13 => TypeDef::list(self.gen_type_def(depth + 1)),
            14 => TypeDef::set(self.gen_basic_type_def()),
            15 => {
                let key = self.gen_basic_type_def();
                TypeDef::map(key, self.gen_type_def(depth + 1))
            }
            16 => TypeDef::nullable(self.gen_type_def(depth + 1)),
            _ => TypeDef::blob(),
        }
    }

    /// A scalar or string type, suitable for set elements and map keys.
    fn gen_basic_type_def(&mut self) -> TypeDef {
        match self.rng.gen_range(0..12) {
            0 => TypeDef::scalar(BondDataType::Bool),
            1 => TypeDef::scalar(BondDataType::UInt8),
            2 => TypeDef::scalar(BondDataType::UInt16),
            3 => TypeDef::scalar(BondDataType::UInt32),
            4 => TypeDef::scalar(BondDataType::UInt64),
            5 => TypeDef::scalar(BondDataType::Int8),
            6 => TypeDef::scalar(BondDataType::Int16),
            7 => TypeDef::scalar(BondDataType::Int32),
            8 => TypeDef::scalar(BondDataType::Int64),
            9 => TypeDef::scalar(BondDataType::Float),
            10 => TypeDef::scalar(BondDataType::Double),
            _ => TypeDef::scalar(BondDataType::String),
        }
    }

    // --- value generation conforming to a TypeDef ---

    fn gen_struct_value(&mut self, schema: &SchemaDef, index: u16, depth: usize) -> Struct {
        let sd = schema.structs[index as usize].clone();
        let mut fields = Vec::with_capacity(sd.fields.len());
        for fd in &sd.fields {
            let value = self.gen_value(schema, &fd.type_def, depth + 1);
            fields.push(Field { id: fd.id, name: Some(fd.metadata.name.clone()), value });
        }
        Struct { fields }
    }

    fn gen_value(&mut self, schema: &SchemaDef, td: &TypeDef, depth: usize) -> Value {
        match td.id {
            BondDataType::Bool => Value::Bool(self.rng.gen()),
            BondDataType::UInt8 => Value::UInt8(self.rng.gen()),
            BondDataType::UInt16 => Value::UInt16(self.rng.gen()),
            BondDataType::UInt32 => Value::UInt32(self.rng.gen()),
            BondDataType::UInt64 => Value::UInt64(self.rng.gen()),
            BondDataType::Int8 => Value::Int8(self.rng.gen()),
            BondDataType::Int16 => Value::Int16(self.rng.gen()),
            BondDataType::Int32 => Value::Int32(self.rng.gen()),
            BondDataType::Int64 => Value::Int64(self.rng.gen()),
            BondDataType::Float => Value::Float((self.gen_f64() as f32).to_bits()),
            BondDataType::Double => Value::Double(self.gen_f64().to_bits()),
            BondDataType::String => Value::Str(self.gen_string()),
            BondDataType::WString => Value::WStr(self.gen_string()),
            BondDataType::Struct => Value::Struct(self.gen_struct_value(schema, td.struct_def, depth)),
            BondDataType::List => self.gen_list_value(schema, td, depth),
            BondDataType::SetType => {
                let element = td.element.as_deref().unwrap();
                let len = self.rng.gen_range(0..=self.cfg.max_container_len);
                let items = (0..len).map(|_| self.gen_value(schema, element, depth + 1)).collect();
                Value::SetOf { element: element.id, items }
            }
            BondDataType::MapType => {
                let key_td = td.key.as_deref().unwrap();
                let val_td = td.element.as_deref().unwrap();
                let len = self.rng.gen_range(0..=self.cfg.max_container_len);
                let entries = (0..len)
                    .map(|_| (self.gen_value(schema, key_td, depth + 1), self.gen_value(schema, val_td, depth + 1)))
                    .collect();
                Value::MapOf { key: key_td.id, value: val_td.id, entries }
            }
            other => panic!("generator does not handle type {other:?}"),
        }
    }

    fn gen_list_value(&mut self, schema: &SchemaDef, td: &TypeDef, depth: usize) -> Value {
        let element = td.element.as_deref().unwrap();
        match td.sub_type {
            ListSubType::Blob => {
                let len = self.rng.gen_range(0..=self.cfg.max_container_len * 2);
                let mut bytes = vec![0u8; len];
                self.rng.fill(bytes.as_mut_slice());
                Value::Blob(bytes)
            }
            ListSubType::Nullable => {
                if self.rng.gen_bool(0.5) {
                    Value::Nullable { element: element.id, value: None }
                } else {
                    Value::Nullable {
                        element: element.id,
                        value: Some(Box::new(self.gen_value(schema, element, depth + 1))),
                    }
                }
            }
            ListSubType::Plain => {
                let len = self.rng.gen_range(0..=self.cfg.max_container_len);
                let items = (0..len).map(|_| self.gen_value(schema, element, depth + 1)).collect();
                Value::List { element: element.id, items }
            }
        }
    }

    // --- leaf value helpers ---

    fn gen_string(&mut self) -> String {
        let len = self.rng.gen_range(0..=self.cfg.max_string_len);
        (0..len).map(|_| UNICODE_POOL[self.rng.gen_range(0..UNICODE_POOL.len())]).collect()
    }

    /// A finite `f64` (no NaN/Inf, so values compare equal and survive JSON).
    fn gen_f64(&mut self) -> f64 {
        // Mix of "nice" integers and arbitrary finite reals.
        if self.rng.gen_bool(0.3) {
            self.rng.gen_range(-1_000_000i64..1_000_000) as f64
        } else {
            // Uniform in a wide finite range.
            (self.rng.gen::<f64>() - 0.5) * 1e9
        }
    }
}

// ---------------------------------------------------------------------------
// Simple JSON text
// ---------------------------------------------------------------------------

fn document(v: &JsonText) -> Json {
    match v {
        JsonText::Null => Json::Null,
        JsonText::Bool(b) => Json::Bool(*b),
        JsonText::Number(n) => {
            let f = n.as_f64().unwrap_or(0.0);
            Json::Number(JsonNumber {
                as_u64: n.as_u64(),
                as_i64: n.as_i64(),
                f64_bits: f.to_bits(),
                f32_bits: (f as f32).to_bits(),
            })
        }
        JsonText::String(s) => Json::Str(s.clone()),
        JsonText::Array(items) => Json::Array(items.iter().map(document).collect()),
        JsonText::Object(m) => Json::Object(m.iter().map(|(k, v)| (k.clone(), document(v))).collect()),
    }
}

fn number_f64(v: f64) -> JsonText {
    serde_json::Number::from_f64(v).map_or(JsonText::Null, JsonText::Number)
}

fn text(out: JsonOut) -> JsonText {
    match out {
        JsonOut::Null => JsonText::Null,
        JsonOut::Bool(b) => JsonText::Bool(b),
        JsonOut::UInt(u) => JsonText::Number(u.into()),
        JsonOut::Int(i) => JsonText::Number(i.into()),
        JsonOut::Single(bits) => number_f64(f32::from_bits(bits) as f64),
        JsonOut::Double(bits) => number_f64(f64::from_bits(bits)),
        JsonOut::Str(s) => JsonText::String(s),
        JsonOut::Array(items) => JsonText::Array(items.into_iter().map(text).collect()),
        JsonOut::Object(members) => {
            let mut map = serde_json::Map::new();
            for (k, v) in members {
                map.insert(k, text(v));
            }
            JsonText::Object(map)
        }
    }
}

fn json_write(value: &Struct, pretty: bool) -> Result<Vec<u8>, Error> {
    let json = text(struct_to_json(value)?);
    let s = if pretty { serde_json::to_string_pretty(&json) } else { serde_json::to_string(&json) }
        .map_err(|e| Error::Json(e.to_string()))?;
    Ok(s.into_bytes())
}

fn json_parse_with_schema(bytes: &[u8], schema: &SchemaDef) -> Result<Struct, Error> {
    let json: JsonText = serde_json::from_slice(bytes).map_err(|e| Error::Json(e.to_string()))?;
    from_json_with_schema(&document(&json), schema)
}

// ---------------------------------------------------------------------------
// What a tagged reader gives back
// ---------------------------------------------------------------------------

/// Lowers a value to the form a tagged reader will produce: no field names,
/// `nullable`/`blob` collapsed to `list`.
fn normalize_tagged(v: &Value) -> Value {
    match v {
        Value::Struct(s) => Value::Struct(normalize_struct(s)),
        Value::List { element, items } => {
            Value::List { element: *element, items: items.iter().map(normalize_tagged).collect() }
        }
        Value::SetOf { element, items } => {
            Value::SetOf { element: *element, items: items.iter().map(normalize_tagged).collect() }
        }
        Value::MapOf { key, value, entries } => Value::MapOf {
            key: *key,
            value: *value,
            entries: entries.iter().map(|(k, v)| (normalize_tagged(k), normalize_tagged(v))).collect(),
        },
        Value::Nullable { element, value } => Value::List {
            element: *element,
            items: value.as_ref().map(|b| vec![normalize_tagged(b)]).unwrap_or_default(),
        },
        Value::Blob(bytes) => {
            Value::List { element: BondDataType::Int8, items: bytes.iter().map(|&b| Value::Int8(b as i8)).collect() }
        }
        other => other.clone(),
    }
}

fn normalize_struct(s: &Struct) -> Struct {
    Struct {
        fields: s.fields.iter().map(|f| Field { id: f.id, name: None, value: normalize_tagged(&f.value) }).collect(),
    }
}

// ---------------------------------------------------------------------------
// Tests
// ---------------------------------------------------------------------------

#[test]
fn roundtrip_all_protocols_many_seeds() {
    for seed in 0..300u64 {
        let (schema, value) = Generator::new(seed).generate();
        let expected_tagged = normalize_struct(&value);

        // Compact Binary v1 and v2.
        for &ver in &[V1, V2] {
            let bytes = compact::write(&value, ver).unwrap();
            let parsed =
                compact::parse(&bytes, ver).unwrap_or_else(|e| panic!("compact v{ver} seed {seed}: {e:?}"));
            assert_eq!(parsed, expected_tagged, "compact v{ver} seed {seed}");
        }

        // Fast Binary.
        let bytes = fast::write(&value).unwrap();
        let parsed = fast::parse(&bytes).unwrap_or_else(|e| panic!("fast seed {seed}: {e:?}"));
        assert_eq!(parsed, expected_tagged, "fast seed {seed}");

        // Simple Binary v1 and v2 (schema-driven, exact recovery).
        for &ver in &[V1, V2] {
            let bytes = simple::write(&value, &schema, ver)
                .unwrap_or_else(|e| panic!("simple v{ver} write seed {seed}: {e:?}"));
            let parsed = simple::parse(&bytes, &schema, ver)
                .unwrap_or_else(|e| panic!("simple v{ver} parse seed {seed}: {e:?}"));
            assert_eq!(parsed, value, "simple v{ver} seed {seed}");
        }

        // Simple JSON (schema-driven, exact recovery).
        let bytes = json_write(&value, false).unwrap_or_else(|e| panic!("json write seed {seed}: {e:?}"));
        let parsed =
            json_parse_with_schema(&bytes, &schema).unwrap_or_else(|e| panic!("json parse seed {seed}: {e:?}"));
        assert_eq!(parsed, value, "simple json seed {seed}");
    }
}

#[test]
fn roundtrip_pretty_json() {
    let (schema, value) = Generator::new(42).generate();
    let bytes = json_write(&value, true).unwrap();
    let parsed = json_parse_with_schema(&bytes, &schema).unwrap();
    assert_eq!(parsed, value);
}

#[test]
fn marshal_unmarshal_tagged() {
    let (_schema, value) = Generator::new(7).generate();
    let expected = normalize_struct(&value);

    for (proto, ver) in [(ProtocolType::Compact, V1), (ProtocolType::Compact, V2), (ProtocolType::Fast, V1)] {
        let bytes = marshal(&value, proto, ver).unwrap();
        let out = unmarshal(&bytes).unwrap();
        assert_eq!(out.protocol, proto);
        assert_eq!(out.version, ver);
        assert_eq!(out.value, expected, "{proto:?} v{ver}");
    }
}

#[test]
fn marshal_unmarshal_simple_with_schema() {
    let (schema, value) = Generator::new(11).generate();

    for &ver in &[V1, V2] {
        let bytes = marshal_with_schema(&value, ProtocolType::Simple, ver, &schema).unwrap();
        let out = unmarshal_with_schema(&bytes, &schema).unwrap();
        assert_eq!(out.protocol, ProtocolType::Simple);
        assert_eq!(out.version, ver);
        assert_eq!(out.value, value, "simple v{ver}");
    }
}

#[test]
fn transcode_compact_to_fast() {
    let (_schema, value) = Generator::new(99).generate();
    let compact_bytes = compact::write(&value, V2).unwrap();
    let fast_bytes = transcode_tagged(&compact_bytes, ProtocolType::Compact, V2, ProtocolType::Fast, V1).unwrap();
    let from_fast = fast::parse(&fast_bytes).unwrap();
    let from_compact = compact::parse(&compact_bytes, V2).unwrap();
    assert_eq!(from_fast, from_compact);
}

#[test]
fn validate_agrees_with_parse() {
    let (_schema, value) = Generator::new(123).generate();
    let bytes = compact::write(&value, V2).unwrap();
    assert!(compact::validate(&bytes, V2).is_ok());
    // A truncated payload must fail validation rather than panic.
    assert!(compact::validate(&bytes[..bytes.len() - 1], V2).is_err());

    let fast_bytes = fast::write(&value).unwrap();
    assert!(fast::validate(&fast_bytes).is_ok());
}

#[test]
fn unmarshal_detects_headerless_json() {
    let (schema, value) = Generator::new(5).generate();
    let jbytes = json_write(&value, false).unwrap();
    // No binary header is recognized, so the payload is read as Simple JSON.
    assert_eq!(detect(&jbytes), None);
    assert_eq!(json_parse_with_schema(&jbytes, &schema).unwrap(), value);
}

#[test]
fn parse_any_convenience() {
    let (_schema, value) = Generator::new(8).generate();
    let bytes = marshal(&value, ProtocolType::Compact, V2).unwrap();
    let out = parse_any(&bytes, None).unwrap();
    assert_eq!(out.protocol, ProtocolType::Compact);
}

#[test]
fn gen_config_defaults() {
    let cfg = GenConfig::default();
    assert_eq!(
        (cfg.max_depth, cfg.max_fields, cfg.max_container_len, cfg.max_string_len, cfg.allow_wstring, cfg.allow_complex),
        (4, 6, 8, 16, true, true)
    );
}
