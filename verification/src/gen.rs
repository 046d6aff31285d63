//! Limits for generated Bond data.

use vstd::prelude::*;

verus! {

/// Tunable limits controlling generated shapes.
#[derive(Clone, Debug)]
pub struct GenConfig {
    /// Maximum nesting depth for structs and containers.
    pub max_depth: usize,
    /// Maximum number of fields per struct.
    pub max_fields: usize,
    /// Maximum number of elements per container.
    pub max_container_len: usize,
    /// Maximum length of generated strings (in characters).
    pub max_string_len: usize,
    /// Whether to include `wstring` fields (UTF-16).
    pub allow_wstring: bool,
    /// Whether to include `nullable`, `blob` and non-scalar containers.
    pub allow_complex: bool,
}

impl Default for GenConfig {
    /// Depth 4, up to 6 fields, 8 elements and 16 characters, with `wstring`
    /// and the complex kinds allowed.
    fn default() -> (r: Self)
        ensures
            r.max_depth == 4,
            r.max_fields == 6,
            r.max_container_len == 8,
            r.max_string_len == 16,
            r.allow_wstring,
            r.allow_complex,
    {
        GenConfig {
            max_depth: 4,
            max_fields: 6,
            max_container_len: 8,
            max_string_len: 16,
            allow_wstring: true,
            allow_complex: true,
        }
    }
}

} // verus!
