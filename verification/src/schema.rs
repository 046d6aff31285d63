//! Runtime schema types describing the layout of Bond structs.
//!
//! A [`SchemaDef`] is required to parse the untagged Simple Binary protocol and
//! to map Simple JSON field names to ordinals.

use vstd::prelude::*;
use crate::constants::{BondDataType, ListSubType};
use crate::error::{Error, ErrorV};

verus! {

/// Field modifier.
#[derive(Clone, Copy, PartialEq, Eq, Debug, Default, Structural)]
pub enum Modifier {
    /// `optional` (the default).
    #[default]
    Optional,
    /// `required`.
    Required,
    /// `required_optional`.
    RequiredOptional,
}

/// A tagged-union default value.
#[derive(Clone, Debug, Default, PartialEq)]
pub struct Variant {
    /// Unsigned default.
    pub uint_value: u64,
    /// Signed default.
    pub int_value: i64,
    /// Floating default, as its IEEE-754 bit pattern.
    pub double_value: u64,
    /// String default.
    pub string_value: String,
    /// Wstring default.
    pub wstring_value: String,
    /// Set when the field's default is "nothing".
    pub nothing: bool,
}

/// Metadata attached to a struct or field.
#[derive(Clone, Debug, Default, PartialEq)]
pub struct Metadata {
    /// Name of the field or struct.
    pub name: String,
    /// Fully-qualified name (structs only).
    pub qualified_name: String,
    /// Arbitrary attributes.
    pub attributes: Vec<(String, String)>,
    /// Field modifier (unused for structs).
    pub modifier: Modifier,
    /// Default value (unused for structs).
    pub default_value: Variant,
}

impl Metadata {
    /// Metadata carrying only a name.
    pub fn named(name: &str) -> (r: Self)
        ensures
            r.name@ == name@,
            r.qualified_name@.len() == 0,
            r.attributes@.len() == 0,
            r.modifier == Modifier::Optional,
    {
        Metadata {
            name: name.to_owned(),
            qualified_name: String::new(),
            attributes: Vec::new(),
            modifier: Modifier::Optional,
            default_value: Variant {
                uint_value: 0,
                int_value: 0,
                double_value: 0,
                string_value: String::new(),
                wstring_value: String::new(),
                nothing: false,
            },
        }
    }
}

/// A type definition.
#[derive(Debug, PartialEq)]
pub struct TypeDef {
    /// The type tag.
    pub id: BondDataType,
    /// Index into [`SchemaDef::structs`] when `id` is `Struct`.
    pub struct_def: u16,
    /// Element type for `list`/`set`/`nullable`, or value type for `map`.
    pub element: Option<Box<TypeDef>>,
    /// Key type for `map`.
    pub key: Option<Box<TypeDef>>,
    /// True when the type is `bonded<T>`.
    pub bonded_type: bool,
    /// Distinguishes `list` / `nullable` / `blob` (all lists on the wire).
    pub sub_type: ListSubType,
}

/// A type definition with the given tag and nothing else set.
pub open spec fn plain_type_def(id: BondDataType) -> TypeDef {
    TypeDef {
        id,
        struct_def: 0,
        element: None,
        key: None,
        bonded_type: false,
        sub_type: ListSubType::Plain,
    }
}

/// A copy of a type definition.
pub fn clone_type_def(t: &TypeDef) -> (r: TypeDef)
    ensures
        r == *t,
    decreases t,
{
    let element = match &t.element {
        Some(e) => Some(Box::new(clone_type_def(&**e))),
        None => None,
    };
    let key = match &t.key {
        Some(k) => Some(Box::new(clone_type_def(&**k))),
        None => None,
    };
    TypeDef {
        id: t.id,
        struct_def: t.struct_def,
        element,
        key,
        bonded_type: t.bonded_type,
        sub_type: t.sub_type,
    }
}

impl Clone for TypeDef {
    fn clone(&self) -> (r: Self)
        ensures
            r == *self,
    {
        clone_type_def(self)
    }
}

impl Default for TypeDef {
    fn default() -> (r: Self)
        ensures
            r == plain_type_def(BondDataType::Struct),
    {
        TypeDef {
            id: BondDataType::Struct,
            struct_def: 0,
            element: None,
            key: None,
            bonded_type: false,
            sub_type: ListSubType::Plain,
        }
    }
}

impl TypeDef {
    /// A scalar or string type.
    pub fn scalar(id: BondDataType) -> (r: Self)
        ensures
            r == plain_type_def(id),
    {
        TypeDef { id, struct_def: 0, element: None, key: None, bonded_type: false, sub_type: ListSubType::Plain }
    }

    /// A reference to the struct at `index` in [`SchemaDef::structs`].
    pub fn struct_ref(index: u16) -> (r: Self)
        ensures
            r == (TypeDef { struct_def: index, ..plain_type_def(BondDataType::Struct) }),
    {
        TypeDef {
            id: BondDataType::Struct,
            struct_def: index,
            element: None,
            key: None,
            bonded_type: false,
            sub_type: ListSubType::Plain,
        }
    }

    /// A `bonded<T>` reference to the struct at `index`.
    pub fn bonded_ref(index: u16) -> (r: Self)
        ensures
            r == (TypeDef { struct_def: index, bonded_type: true, ..plain_type_def(BondDataType::Struct) }),
    {
        TypeDef {
            id: BondDataType::Struct,
            struct_def: index,
            element: None,
            key: None,
            bonded_type: true,
            sub_type: ListSubType::Plain,
        }
    }

    /// A `list<element>`.
    pub fn list(element: TypeDef) -> (r: Self)
        ensures
            r == (TypeDef { element: Some(Box::new(element)), ..plain_type_def(BondDataType::List) }),
    {
        TypeDef {
            id: BondDataType::List,
            struct_def: 0,
            element: Some(Box::new(element)),
            key: None,
            bonded_type: false,
            sub_type: ListSubType::Plain,
        }
    }

    /// A `set<element>`.
    pub fn set(element: TypeDef) -> (r: Self)
        ensures
            r == (TypeDef { element: Some(Box::new(element)), ..plain_type_def(BondDataType::SetType) }),
    {
        TypeDef {
            id: BondDataType::SetType,
            struct_def: 0,
            element: Some(Box::new(element)),
            key: None,
            bonded_type: false,
            sub_type: ListSubType::Plain,
        }
    }

    /// A `map<key, value>`.
    pub fn map(key: TypeDef, value: TypeDef) -> (r: Self)
        ensures
            r == (TypeDef {
                element: Some(Box::new(value)),
                key: Some(Box::new(key)),
                ..plain_type_def(BondDataType::MapType)
            }),
    {
        TypeDef {
            id: BondDataType::MapType,
            struct_def: 0,
            element: Some(Box::new(value)),
            key: Some(Box::new(key)),
            bonded_type: false,
            sub_type: ListSubType::Plain,
        }
    }

    /// A `nullable<element>`.
    pub fn nullable(element: TypeDef) -> (r: Self)
        ensures
            r == (TypeDef {
                element: Some(Box::new(element)),
                sub_type: ListSubType::Nullable,
                ..plain_type_def(BondDataType::List)
            }),
    {
        TypeDef {
            id: BondDataType::List,
            struct_def: 0,
            element: Some(Box::new(element)),
            key: None,
            bonded_type: false,
            sub_type: ListSubType::Nullable,
        }
    }

    /// A `blob`.
    pub fn blob() -> (r: Self)
        ensures
            r == (TypeDef {
                element: Some(Box::new(plain_type_def(BondDataType::Int8))),
                sub_type: ListSubType::Blob,
                ..plain_type_def(BondDataType::List)
            }),
    {
        TypeDef {
            id: BondDataType::List,
            struct_def: 0,
            element: Some(Box::new(TypeDef::scalar(BondDataType::Int8))),
            key: None,
            bonded_type: false,
            sub_type: ListSubType::Blob,
        }
    }

    /// The element type of a `list`/`set`/`nullable`, or the value type of a
    /// `map`; a [`Error::SchemaError`] if absent.
    pub fn element_type(&self) -> (r: Result<&TypeDef, Error>)
        ensures
            match self.element {
                Some(b) => r matches Ok(t) && *t == *b,
                None => r matches Err(e) && e@ == missing_element_error(),
            },
    {
        match &self.element {
            Some(b) => Ok(&**b),
            None => Err(Error::SchemaError("container is missing its element type".to_owned())),
        }
    }

    /// The key type of a `map`; a [`Error::SchemaError`] if absent.
    pub fn key_type(&self) -> (r: Result<&TypeDef, Error>)
        ensures
            match self.key {
                Some(b) => r matches Ok(t) && *t == *b,
                None => r matches Err(e) && e@ == missing_key_error(),
            },
    {
        match &self.key {
            Some(b) => Ok(&**b),
            None => Err(Error::SchemaError("map is missing its key type".to_owned())),
        }
    }
}

/// The error for a container type without an element type.
pub open spec fn missing_element_error() -> ErrorV {
    ErrorV::SchemaError("container is missing its element type"@)
}

/// The error for a map type without a key type.
pub open spec fn missing_key_error() -> ErrorV {
    ErrorV::SchemaError("map is missing its key type"@)
}

/// A field definition.
#[derive(Clone, Debug, PartialEq)]
pub struct FieldDef {
    /// Field metadata.
    pub metadata: Metadata,
    /// The field ordinal.
    pub id: u16,
    /// The field's type.
    pub type_def: TypeDef,
}

impl FieldDef {
    /// A field with the given id, name and type.
    pub fn new(id: u16, name: &str, type_def: TypeDef) -> (r: Self)
        ensures
            r.id == id,
            r.metadata.name@ == name@,
            r.type_def == type_def,
    {
        FieldDef { metadata: Metadata::named(name), id, type_def }
    }
}

/// A struct definition.
#[derive(Clone, Debug, Default, PartialEq)]
pub struct StructDef {
    /// Struct metadata.
    pub metadata: Metadata,
    /// The base struct, if any.
    pub base_def: Option<TypeDef>,
    /// The fields.
    pub fields: Vec<FieldDef>,
}

impl StructDef {
    /// A struct with the given name and fields and no base.
    pub fn new(name: &str, fields: Vec<FieldDef>) -> (r: Self)
        ensures
            r.metadata.name@ == name@,
            r.base_def is None,
            r.fields == fields,
    {
        StructDef { metadata: Metadata::named(name), base_def: None, fields }
    }
}

/// A complete schema.
#[derive(Clone, Debug, Default, PartialEq)]
pub struct SchemaDef {
    /// All struct definitions referenced by the schema.
    pub structs: Vec<StructDef>,
    /// The root type.
    pub root: TypeDef,
}

impl SchemaDef {
    /// Builds a schema whose root is the struct at `structs[root_index]`.
    pub fn with_root_struct(structs: Vec<StructDef>, root_index: u16) -> (r: Self)
        ensures
            r.structs == structs,
            r.root == (TypeDef { struct_def: root_index, ..plain_type_def(BondDataType::Struct) }),
    {
        SchemaDef { structs, root: TypeDef::struct_ref(root_index) }
    }

    /// Looks up a struct definition by index.
    pub fn struct_def(&self, index: u16) -> (r: Option<&StructDef>)
        ensures
            index < self.structs@.len() ==> (r matches Some(s) && *s == self.structs@[index as int]),
            index >= self.structs@.len() ==> r is None,
    {
        if (index as usize) < self.structs.len() {
            Some(&self.structs[index as usize])
        } else {
            None
        }
    }
}

} // verus!
