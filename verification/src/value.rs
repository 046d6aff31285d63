//! The dynamic value model (DOM): a protocol-independent in-memory
//! representation of any Bond value, and its mathematical model.
//!
//! `float` and `double` values are held as their IEEE-754 bit patterns.

use vstd::prelude::*;
use crate::constants::BondDataType;

verus! {

/// Any Bond value.
///
/// Containers carry their element type(s) so that empty containers can still be
/// re-serialized into the tagged protocols, which require a type tag.
///
/// Equality (`==`) compares `Float` and `Double` by bit pattern, not by IEEE-754
/// value: `+0.0` and `-0.0` are unequal, and two NaNs with the same bits are
/// equal. A caller that wants IEEE-754 comparison converts the bits with
/// `f32::from_bits` / `f64::from_bits` and compares those.
#[derive(Debug, PartialEq)]
pub enum Value {
    /// `bool`.
    Bool(bool),
    /// `uint8`.
    UInt8(u8),
    /// `uint16`.
    UInt16(u16),
    /// `uint32`.
    UInt32(u32),
    /// `uint64`.
    UInt64(u64),
    /// `int8`.
    Int8(i8),
    /// `int16`.
    Int16(i16),
    /// `int32`.
    Int32(i32),
    /// `int64`.
    Int64(i64),
    /// `float`, as its IEEE-754 bit pattern.
    Float(u32),
    /// `double`, as its IEEE-754 bit pattern.
    Double(u64),
    /// `string` (UTF-8).
    Str(String),
    /// `wstring` (UTF-16).
    WStr(String),
    /// A (possibly nested) struct.
    Struct(Struct),
    /// `list<T>` / `vector<T>`.
    List {
        /// Element type tag.
        element: BondDataType,
        /// The elements.
        items: Vec<Value>,
    },
    /// `set<T>`.
    SetOf {
        /// Element type tag.
        element: BondDataType,
        /// The elements.
        items: Vec<Value>,
    },
    /// `map<K, V>`.
    MapOf {
        /// Key type tag.
        key: BondDataType,
        /// Value type tag.
        value: BondDataType,
        /// The entries.
        entries: Vec<(Value, Value)>,
    },
    /// `nullable<T>` (a `list` of length 0 or 1 on the wire).
    Nullable {
        /// Element type tag.
        element: BondDataType,
        /// The contained value, if present.
        value: Option<Box<Value>>,
    },
    /// `blob` (a `list<int8>` on the wire).
    Blob(Vec<u8>),
    /// `bonded<T>`: an opaque marshaled payload.
    Bonded(Vec<u8>),
}

/// A struct value: an ordered collection of fields.
#[derive(Debug, Default, PartialEq)]
pub struct Struct {
    /// The fields, in serialization order.
    pub fields: Vec<Field>,
}

/// A single field within a [`Struct`].
#[derive(Debug, PartialEq)]
pub struct Field {
    /// The field ordinal.
    pub id: u16,
    /// The field name, when known (Simple JSON, or schema-driven parsing).
    pub name: Option<String>,
    /// The field's value.
    pub value: Value,
}

/// The mathematical model of a [`Value`]: sequences in place of vectors, character
/// sequences in place of strings.
pub enum ValueV {
    Bool(bool),
    UInt8(u8),
    UInt16(u16),
    UInt32(u32),
    UInt64(u64),
    Int8(i8),
    Int16(i16),
    Int32(i32),
    Int64(i64),
    Float(u32),
    Double(u64),
    Str(Seq<char>),
    WStr(Seq<char>),
    Struct(StructV),
    List { element: BondDataType, items: Seq<ValueV> },
    SetOf { element: BondDataType, items: Seq<ValueV> },
    MapOf { key: BondDataType, value: BondDataType, entries: Seq<(ValueV, ValueV)> },
    Nullable { element: BondDataType, value: Option<Box<ValueV>> },
    Blob(Seq<u8>),
    Bonded(Seq<u8>),
}

/// The model of a [`Struct`].
pub struct StructV {
    pub fields: Seq<FieldV>,
}

/// The model of a [`Field`].
pub struct FieldV {
    pub id: u16,
    pub name: Option<Seq<char>>,
    pub value: ValueV,
}

/// The model of an optional name.
pub open spec fn name_view(n: Option<String>) -> Option<Seq<char>> {
    match n {
        Some(s) => Some(s@),
        None => None,
    }
}

/// The model of a value.
pub open spec fn value_view(v: Value) -> ValueV
    decreases v,
{
    match v {
        Value::Bool(b) => ValueV::Bool(b),
        Value::UInt8(x) => ValueV::UInt8(x),
        Value::UInt16(x) => ValueV::UInt16(x),
        Value::UInt32(x) => ValueV::UInt32(x),
        Value::UInt64(x) => ValueV::UInt64(x),
        Value::Int8(x) => ValueV::Int8(x),
        Value::Int16(x) => ValueV::Int16(x),
        Value::Int32(x) => ValueV::Int32(x),
        Value::Int64(x) => ValueV::Int64(x),
        Value::Float(x) => ValueV::Float(x),
        Value::Double(x) => ValueV::Double(x),
        Value::Str(s) => ValueV::Str(s@),
        Value::WStr(s) => ValueV::WStr(s@),
        Value::Struct(s) => ValueV::Struct(StructV {
            fields: Seq::new(
                s.fields@.len(),
                |i: int|
                    if 0 <= i < s.fields@.len() {
                        FieldV {
                            id: s.fields@[i].id,
                            name: name_view(s.fields@[i].name),
                            value: value_view(s.fields@[i].value),
                        }
                    } else {
                        FieldV { id: 0, name: None, value: ValueV::Bool(false) }
                    },
            ),
        }),
        Value::List { element, items } => ValueV::List {
            element,
            items: Seq::new(
                items@.len(),
                |i: int|
                    if 0 <= i < items@.len() {
                        value_view(items@[i])
                    } else {
                        ValueV::Bool(false)
                    },
            ),
        },
        Value::SetOf { element, items } => ValueV::SetOf {
            element,
            items: Seq::new(
                items@.len(),
                |i: int|
                    if 0 <= i < items@.len() {
                        value_view(items@[i])
                    } else {
                        ValueV::Bool(false)
                    },
            ),
        },
        Value::MapOf { key, value, entries } => ValueV::MapOf {
            key,
            value,
            entries: Seq::new(
                entries@.len(),
                |i: int|
                    if 0 <= i < entries@.len() {
                        (value_view(entries@[i].0), value_view(entries@[i].1))
                    } else {
                        (ValueV::Bool(false), ValueV::Bool(false))
                    },
            ),
        },
        Value::Nullable { element, value } => ValueV::Nullable {
            element,
            value: match value {
                Some(b) => Some(Box::new(value_view(*b))),
                None => None,
            },
        },
        Value::Blob(b) => ValueV::Blob(b@),
        Value::Bonded(b) => ValueV::Bonded(b@),
    }
}

impl View for Value {
    type V = ValueV;

    open spec fn view(&self) -> ValueV {
        value_view(*self)
    }
}

impl View for Field {
    type V = FieldV;

    open spec fn view(&self) -> FieldV {
        FieldV { id: self.id, name: name_view(self.name), value: self.value@ }
    }
}

impl View for Struct {
    type V = StructV;

    open spec fn view(&self) -> StructV {
        StructV { fields: self.fields@.map_values(|f: Field| f@) }
    }
}

/// The models of a sequence of values.
pub open spec fn values_view(s: Seq<Value>) -> Seq<ValueV> {
    s.map_values(|v: Value| v@)
}

/// The models of a sequence of fields.
pub open spec fn fields_view(s: Seq<Field>) -> Seq<FieldV> {
    s.map_values(|f: Field| f@)
}

/// The model of a value's fields matches [`Struct`]'s view.
pub proof fn lemma_struct_value_view(s: Struct)
    ensures
        Value::Struct(s)@ == ValueV::Struct(s@),
{
    assert(s@.fields =~= value_view(Value::Struct(s))->Struct_0.fields);
}

/// The wire type tag of a modelled value.
pub open spec fn type_of_v(v: ValueV) -> BondDataType {
    match v {
        ValueV::Bool(_) => BondDataType::Bool,
        ValueV::UInt8(_) => BondDataType::UInt8,
        ValueV::UInt16(_) => BondDataType::UInt16,
        ValueV::UInt32(_) => BondDataType::UInt32,
        ValueV::UInt64(_) => BondDataType::UInt64,
        ValueV::Int8(_) => BondDataType::Int8,
        ValueV::Int16(_) => BondDataType::Int16,
        ValueV::Int32(_) => BondDataType::Int32,
        ValueV::Int64(_) => BondDataType::Int64,
        ValueV::Float(_) => BondDataType::Float,
        ValueV::Double(_) => BondDataType::Double,
        ValueV::Str(_) => BondDataType::String,
        ValueV::WStr(_) => BondDataType::WString,
        ValueV::Struct(_) | ValueV::Bonded(_) => BondDataType::Struct,
        ValueV::List { .. } | ValueV::Nullable { .. } | ValueV::Blob(_) => BondDataType::List,
        ValueV::SetOf { .. } => BondDataType::SetType,
        ValueV::MapOf { .. } => BondDataType::MapType,
    }
}

impl Value {
    /// The wire type tag for this value.
    pub fn type_of(&self) -> (r: BondDataType)
        ensures
            r == type_of_v(self@),
    {
        match self {
            Value::Bool(_) => BondDataType::Bool,
            Value::UInt8(_) => BondDataType::UInt8,
            Value::UInt16(_) => BondDataType::UInt16,
            Value::UInt32(_) => BondDataType::UInt32,
            Value::UInt64(_) => BondDataType::UInt64,
            Value::Int8(_) => BondDataType::Int8,
            Value::Int16(_) => BondDataType::Int16,
            Value::Int32(_) => BondDataType::Int32,
            Value::Int64(_) => BondDataType::Int64,
            Value::Float(_) => BondDataType::Float,
            Value::Double(_) => BondDataType::Double,
            Value::Str(_) => BondDataType::String,
            Value::WStr(_) => BondDataType::WString,
            Value::Struct(_) | Value::Bonded(_) => BondDataType::Struct,
            Value::List { .. } | Value::Nullable { .. } | Value::Blob(_) => BondDataType::List,
            Value::SetOf { .. } => BondDataType::SetType,
            Value::MapOf { .. } => BondDataType::MapType,
        }
    }
}

/// The index of the first field of `fields` with ordinal `id`, if any.
pub open spec fn first_with_id(fields: Seq<FieldV>, id: u16) -> Option<int>
    decreases fields.len(),
{
    if fields.len() == 0 {
        None
    } else if fields[0].id == id {
        Some(0)
    } else {
        match first_with_id(fields.drop_first(), id) {
            Some(i) => Some(i + 1),
            None => None,
        }
    }
}

/// The index of the first field of `fields` named `name`, if any.
pub open spec fn first_with_name(fields: Seq<FieldV>, name: Seq<char>) -> Option<int>
    decreases fields.len(),
{
    if fields.len() == 0 {
        None
    } else if fields[0].name == Some(name) {
        Some(0)
    } else {
        match first_with_name(fields.drop_first(), name) {
            Some(i) => Some(i + 1),
            None => None,
        }
    }
}

/// The index of the first field with an id lies within the fields.
pub proof fn lemma_first_with_id_range(fields: Seq<FieldV>, id: u16)
    ensures
        first_with_id(fields, id) matches Some(i) ==> 0 <= i < fields.len() && fields[i].id == id,
    decreases fields.len(),
{
    if fields.len() > 0 && fields[0].id != id {
        lemma_first_with_id_range(fields.drop_first(), id);
    }
}

proof fn lemma_first_with_id_step(fields: Seq<FieldV>, id: u16, i: int)
    requires
        0 <= i < fields.len(),
        forall|j: int| 0 <= j < i ==> fields[j].id != id,
    ensures
        first_with_id(fields, id) == (if fields[i].id == id {
            Some(i)
        } else {
            match first_with_id(fields.subrange(i + 1, fields.len() as int), id) {
                Some(k) => Some(k + i + 1),
                None => None,
            }
        }),
    decreases i,
{
    if i > 0 {
        let t = fields.drop_first();
        lemma_first_with_id_step(t, id, i - 1);
        assert(t.subrange(i, t.len() as int) =~= fields.subrange(i + 1, fields.len() as int));
    }
}

proof fn lemma_first_with_name_step(fields: Seq<FieldV>, name: Seq<char>, i: int)
    requires
        0 <= i < fields.len(),
        forall|j: int| 0 <= j < i ==> fields[j].name != Some(name),
    ensures
        first_with_name(fields, name) == (if fields[i].name == Some(name) {
            Some(i)
        } else {
            match first_with_name(fields.subrange(i + 1, fields.len() as int), name) {
                Some(k) => Some(k + i + 1),
                None => None,
            }
        }),
    decreases i,
{
    if i > 0 {
        let t = fields.drop_first();
        lemma_first_with_name_step(t, name, i - 1);
        assert(t.subrange(i, t.len() as int) =~= fields.subrange(i + 1, fields.len() as int));
    }
}

impl Struct {
    /// Creates an empty struct.
    pub fn new() -> (r: Self)
        ensures
            r@.fields.len() == 0,
    {
        Struct { fields: Vec::new() }
    }

    /// Appends a field with the given id and value and no name.
    pub fn with_field(self, id: u16, value: Value) -> (r: Self)
        ensures
            r@.fields == self@.fields.push(FieldV { id, name: None, value: value@ }),
    {
        let mut s = self;
        s.fields.push(Field { id, name: None, value });
        proof {
            assert(s@.fields =~= self@.fields.push(FieldV { id, name: None, value: value@ }));
        }
        s
    }

    /// Returns the value of the first field with the given id, if present.
    pub fn get(&self, id: u16) -> (r: Option<&Value>)
        ensures
            match first_with_id(self@.fields, id) {
                Some(i) => r matches Some(v) && *v == self.fields@[i].value,
                None => r is None,
            },
    {
        let mut i: usize = 0;
        while i < self.fields.len()
            invariant
                i <= self.fields@.len(),
                forall|j: int| 0 <= j < i ==> self@.fields[j].id != id,
            decreases self.fields@.len() - i,
        {
            proof { lemma_first_with_id_step(self@.fields, id, i as int); }
            if self.fields[i].id == id {
                return Some(&self.fields[i].value);
            }
            i = i + 1;
        }
        proof { lemma_none_with_id(self@.fields, id); }
        None
    }

    /// Returns the value of the first field with the given name, if present.
    pub fn get_by_name(&self, name: &str) -> (r: Option<&Value>)
        ensures
            match first_with_name(self@.fields, name@) {
                Some(i) => r matches Some(v) && *v == self.fields@[i].value,
                None => r is None,
            },
    {
        let wanted = name.to_owned();
        let mut i: usize = 0;
        while i < self.fields.len()
            invariant
                i <= self.fields@.len(),
                wanted@ == name@,
                forall|j: int| 0 <= j < i ==> self@.fields[j].name != Some(name@),
            decreases self.fields@.len() - i,
        {
            proof { lemma_first_with_name_step(self@.fields, name@, i as int); }
            match &self.fields[i].name {
                Some(n) => {
                    if *n == wanted {
                        return Some(&self.fields[i].value);
                    }
                },
                None => {},
            }
            i = i + 1;
        }
        proof { lemma_none_with_name(self@.fields, name@); }
        None
    }
}

proof fn lemma_none_with_id(fields: Seq<FieldV>, id: u16)
    requires
        forall|j: int| 0 <= j < fields.len() ==> fields[j].id != id,
    ensures
        first_with_id(fields, id) is None,
    decreases fields.len(),
{
    if fields.len() > 0 {
        lemma_none_with_id(fields.drop_first(), id);
    }
}

proof fn lemma_none_with_name(fields: Seq<FieldV>, name: Seq<char>)
    requires
        forall|j: int| 0 <= j < fields.len() ==> fields[j].name != Some(name),
    ensures
        first_with_name(fields, name) is None,
    decreases fields.len(),
{
    if fields.len() > 0 {
        lemma_none_with_name(fields.drop_first(), name);
    }
}

impl Field {
    /// Creates an unnamed field from an id and value.
    pub fn new(id: u16, value: Value) -> (r: Self)
        ensures
            r@ == (FieldV { id, name: None, value: value@ }),
    {
        Field { id, name: None, value }
    }

    /// Creates a named field from an id, name and value.
    pub fn named(id: u16, name: &str, value: Value) -> (r: Self)
        ensures
            r@ == (FieldV { id, name: Some(name@), value: value@ }),
    {
        Field { id, name: Some(name.to_owned()), value }
    }
}

/// A copy of `v` with the same model.
pub fn clone_value(v: &Value) -> (r: Value)
    ensures
        r@ == v@,
    decreases v,
{
    match v {
        Value::Bool(b) => Value::Bool(*b),
        Value::UInt8(x) => Value::UInt8(*x),
        Value::UInt16(x) => Value::UInt16(*x),
        Value::UInt32(x) => Value::UInt32(*x),
        Value::UInt64(x) => Value::UInt64(*x),
        Value::Int8(x) => Value::Int8(*x),
        Value::Int16(x) => Value::Int16(*x),
        Value::Int32(x) => Value::Int32(*x),
        Value::Int64(x) => Value::Int64(*x),
        Value::Float(x) => Value::Float(*x),
        Value::Double(x) => Value::Double(*x),
        Value::Str(s) => Value::Str(s.clone()),
        Value::WStr(s) => Value::WStr(s.clone()),
        Value::Struct(s) => {
            let fields = clone_fields(&s.fields);
            let r = Value::Struct(Struct { fields });
            proof {
                let a = value_view(r)->Struct_0.fields;
                let b = value_view(*v)->Struct_0.fields;
                assert forall|j: int| 0 <= j < a.len() implies a[j] == b[j] by {
                    assert(fields@[j]@ == s.fields@[j]@);
                }
                assert(a =~= b);
            }
            r
        },
        Value::List { element, items } => {
            let out = clone_values(items);
            let r = Value::List { element: *element, items: out };
            proof {
                let a = value_view(r)->List_items;
                let b = value_view(*v)->List_items;
                assert forall|j: int| 0 <= j < a.len() implies a[j] == b[j] by {
                    assert(out@[j]@ == items@[j]@);
                }
                assert(a =~= b);
            }
            r
        },
        Value::SetOf { element, items } => {
            let out = clone_values(items);
            let r = Value::SetOf { element: *element, items: out };
            proof {
                let a = value_view(r)->SetOf_items;
                let b = value_view(*v)->SetOf_items;
                assert forall|j: int| 0 <= j < a.len() implies a[j] == b[j] by {
                    assert(out@[j]@ == items@[j]@);
                }
                assert(a =~= b);
            }
            r
        },
        Value::MapOf { key, value, entries } => {
            let out = clone_entries(entries);
            let r = Value::MapOf { key: *key, value: *value, entries: out };
            proof {
                let a = value_view(r)->MapOf_entries;
                let b = value_view(*v)->MapOf_entries;
                assert forall|j: int| 0 <= j < a.len() implies a[j] == b[j] by {
                    assert(out@[j].0@ == entries@[j].0@);
                    assert(out@[j].1@ == entries@[j].1@);
                }
                assert(a =~= b);
            }
            r
        },
        Value::Nullable { element, value } => {
            let inner = match value {
                Some(b) => Some(Box::new(clone_value(&**b))),
                None => None,
            };
            Value::Nullable { element: *element, value: inner }
        },
        Value::Blob(b) => Value::Blob(clone_bytes(b)),
        Value::Bonded(b) => Value::Bonded(clone_bytes(b)),
    }
}

fn clone_fields(fields: &Vec<Field>) -> (r: Vec<Field>)
    ensures
        r@.len() == fields@.len(),
        forall|j: int| 0 <= j < fields@.len() ==> #[trigger] r@[j]@ == fields@[j]@,
    decreases fields,
{
    let mut out: Vec<Field> = Vec::new();
    let mut i: usize = 0;
    while i < fields.len()
        invariant
            i <= fields@.len(),
            out@.len() == i,
            forall|j: int| 0 <= j < i ==> #[trigger] out@[j]@ == fields@[j]@,
        decreases fields@.len() - i,
    {
        let f = &fields[i];
        let name = match &f.name {
            Some(n) => Some(n.clone()),
            None => None,
        };
        out.push(Field { id: f.id, name, value: clone_value(&f.value) });
        i = i + 1;
    }
    out
}

fn clone_entries(entries: &Vec<(Value, Value)>) -> (r: Vec<(Value, Value)>)
    ensures
        r@.len() == entries@.len(),
        forall|j: int| 0 <= j < entries@.len() ==> (#[trigger] r@[j]).0@ == entries@[j].0@
            && r@[j].1@ == entries@[j].1@,
    decreases entries,
{
    let mut out: Vec<(Value, Value)> = Vec::new();
    let mut i: usize = 0;
    while i < entries.len()
        invariant
            i <= entries@.len(),
            out@.len() == i,
            forall|j: int| 0 <= j < i ==> (#[trigger] out@[j]).0@ == entries@[j].0@
                && out@[j].1@ == entries@[j].1@,
        decreases entries@.len() - i,
    {
        let k = clone_value(&entries[i].0);
        let x = clone_value(&entries[i].1);
        out.push((k, x));
        i = i + 1;
    }
    out
}

fn clone_values(items: &Vec<Value>) -> (r: Vec<Value>)
    ensures
        r@.len() == items@.len(),
        forall|j: int| 0 <= j < items@.len() ==> #[trigger] r@[j]@ == items@[j]@,
    decreases items,
{
    let mut out: Vec<Value> = Vec::new();
    let mut i: usize = 0;
    while i < items.len()
        invariant
            i <= items@.len(),
            out@.len() == i,
            forall|j: int| 0 <= j < i ==> #[trigger] out@[j]@ == items@[j]@,
        decreases items@.len() - i,
    {
        out.push(clone_value(&items[i]));
        i = i + 1;
    }
    out
}

fn clone_bytes(b: &Vec<u8>) -> (r: Vec<u8>)
    ensures
        r@ == b@,
{
    let mut out: Vec<u8> = Vec::new();
    let mut i: usize = 0;
    while i < b.len()
        invariant
            i <= b@.len(),
            out@ == b@.subrange(0, i as int),
        decreases b@.len() - i,
    {
        out.push(b[i]);
        i = i + 1;
        assert(out@ =~= b@.subrange(0, i as int));
    }
    assert(b@.subrange(0, b@.len() as int) =~= b@);
    out
}

impl Clone for Value {
    fn clone(&self) -> (r: Self)
        ensures
            r@ == self@,
    {
        clone_value(self)
    }
}

impl Clone for Field {
    fn clone(&self) -> (r: Self)
        ensures
            r@ == self@,
    {
        let name = match &self.name {
            Some(n) => Some(n.clone()),
            None => None,
        };
        Field { id: self.id, name, value: clone_value(&self.value) }
    }
}

impl Clone for Struct {
    fn clone(&self) -> (r: Self)
        ensures
            r@ == self@,
    {
        let fields = clone_fields(&self.fields);
        let r = Struct { fields };
        assert(r@.fields =~= self@.fields);
        r
    }
}

} // verus!

verus! {

/// The models of a sequence of map entries.
pub open spec fn entries_view(s: Seq<(Value, Value)>) -> Seq<(ValueV, ValueV)> {
    s.map_values(|e: (Value, Value)| (e.0@, e.1@))
}

/// The model of a list is the list of its items' models.
pub proof fn lemma_list_view(element: BondDataType, items: Vec<Value>)
    ensures
        (Value::List { element, items })@ == (ValueV::List { element, items: values_view(items@) }),
        (Value::SetOf { element, items })@ == (ValueV::SetOf { element, items: values_view(items@) }),
{
    assert(value_view(Value::List { element, items })->List_items =~= values_view(items@));
    assert(value_view(Value::SetOf { element, items })->SetOf_items =~= values_view(items@));
}

/// The model of a map is the sequence of its entries' models.
pub proof fn lemma_map_view(key: BondDataType, value: BondDataType, entries: Vec<(Value, Value)>)
    ensures
        (Value::MapOf { key, value, entries })@ == (ValueV::MapOf {
            key,
            value,
            entries: entries_view(entries@),
        }),
{
    assert(value_view(Value::MapOf { key, value, entries })->MapOf_entries =~= entries_view(entries@));
}

} // verus!
