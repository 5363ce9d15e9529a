//! A parser and in-memory data model for a compact, schema-less,
//! human-writable data-interchange format with nested objects, arrays,
//! scalars, and intra-document references (aliases).
//!
//! A document is an object `{ name: value, ... }`; values are `nil`, booleans,
//! integers, decimal literals, double-quoted strings, nested objects `{...}`,
//! arrays `[...]`, or references `@name` to a top-level field. Fields are
//! separated by commas or whitespace. All parsed data lives in a single
//! arena owned by the [`Mocha`] root; accessors hand out borrowed views that
//! are valid only while the root is alive.

use vstd::prelude::*;

mod grammar;
mod laws;
mod lexer;
mod model;
mod parser;
mod read;
mod resolve;

pub use lexer::{
    bad_byte, digit_run_end, digits_val, escape_val, exp_end, float_token, frac_end, ident_end,
    int_fits, int_lit_end, int_lit_value, int_literal_at, is_digit, is_escape, is_ident_char,
    is_ident_start, is_ws, keyword_token, number_token, reject_kind, spec_next_token, str_body_ok,
    str_end, string_token, unescaped, ws_end, Lexeme,
};
pub use laws::{
    chain_step, lemma_chain_traversal, lemma_document_chain_traversal, lemma_occs_props, occs,
};
pub use grammar::{
    all_refs_resolve, fs_has_ref, names_of_fields, spec_fields, spec_items, spec_parse,
    spec_value, v_has_ref, vrep, vs_has_ref, SpecField, SpecVal,
};
pub use parser::MAX_DEPTH;
pub use model::{
    chains_wf, distinct_names, field_wf, has_occ, name_of, next_wf, path_of, ref_spans_wf,
    refs_wf, runs_distinct, seq_extends, store_wf, unresolvable, value_wf, FieldRec, Mocha,
    RawValue, RefRec,
};
pub use read::{ref_name_of, sub_views_ok, value_matches, Array, Field, Object, Reference, Value};

verus! {

/// Every way a parse can fail. Accessors never fail: an out-of-range index
/// yields an absent result, not an error.
#[derive(Debug, Clone, Copy, PartialEq, Eq, Structural)]
pub enum MochaError {
    /// A reference names a field that does not exist at the top level.
    MissingField,
    /// Two fields of the same object share a name.
    DuplicateField,
    /// A reference names the document root instead of an interior node.
    RootReference,
    /// The arena could not grow. Rust's allocator aborts rather than
    /// reporting failure, so parsing never returns this kind itself; it is
    /// kept for the numeric status-code mapping.
    OutOfMemory,
    /// A byte outside the format's allowed character classes.
    InvalidCharacter,
    /// A numeric literal exceeds the signed 64-bit range, or containers
    /// nest deeper than the explicit depth bound.
    Overflow,
    /// Input ended before a structurally required token.
    EndOfStream,
    /// A well-formed token appeared where the grammar does not permit it.
    UnexpectedToken,
    /// A character was seen but rejected by the current lexical state.
    UnexpectedCharacter,
}

/// Maps a numeric status code, as a C-compatible boundary would report it,
/// to the corresponding error kind; code `0` and unknown codes mean no error.
#[inline(always)]
pub fn handle_mocha_error(err: u32) -> (r: Option<MochaError>)
    ensures
        r == (match err {
            1u32 => Some(MochaError::MissingField),
            2u32 => Some(MochaError::DuplicateField),
            3u32 => Some(MochaError::RootReference),
            4u32 => Some(MochaError::OutOfMemory),
            5u32 => Some(MochaError::InvalidCharacter),
            6u32 => Some(MochaError::Overflow),
            7u32 => Some(MochaError::EndOfStream),
            8u32 => Some(MochaError::UnexpectedToken),
            9u32 => Some(MochaError::UnexpectedCharacter),
            _ => None::<MochaError>,
        }),
{
    match err {
        1u32 => Some(MochaError::MissingField),
        2u32 => Some(MochaError::DuplicateField),
        3u32 => Some(MochaError::RootReference),
        4u32 => Some(MochaError::OutOfMemory),
        5u32 => Some(MochaError::InvalidCharacter),
        6u32 => Some(MochaError::Overflow),
        7u32 => Some(MochaError::EndOfStream),
        8u32 => Some(MochaError::UnexpectedToken),
        9u32 => Some(MochaError::UnexpectedCharacter),
        _ => None,
    }
}

} // verus!
