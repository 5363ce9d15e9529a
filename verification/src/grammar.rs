//! The grammar, stated: a denotation of documents as trees of mathematical
//! values, defined by recursion over the proven token function
//! [`spec_next_token`]. `Mocha::parse_bytes` is proved against
//! [`spec_parse`]: it returns `Ok` exactly when the input derives a
//! document under this grammar whose references all resolve, it returns
//! the grammar's first failure otherwise, and on success the root run
//! stores exactly the denoted fields in source order.
//!
//! The recursive cases guard on strict progress of the token position;
//! the lexer's proven contract shows every non-`Eof` token makes progress,
//! so the guards' fallback branches are never the ones an execution meets.

use vstd::prelude::*;

use crate::lexer::{spec_next_token, Lexeme};
use crate::model::{name_of, path_of, FieldRec, RawValue, RefRec};
use crate::parser::MAX_DEPTH;
use crate::MochaError;

verus! {

/// A denoted value: what one parsed value means. A reference denotes the
/// target name it was written with.
pub enum SpecVal {
    Nil,
    Bool(bool),
    Int(int),
    Float(Seq<u8>),
    Str(Seq<u8>),
    Obj(Seq<SpecField>),
    Arr(Seq<SpecVal>),
    Ref(Seq<u8>),
}

/// A denoted field: its name bytes and its denoted value.
pub struct SpecField {
    pub name: Seq<u8>,
    pub value: SpecVal,
}

/// The denoted value whose first token stands at or after `pos`.
pub open spec fn spec_value(s: Seq<u8>, pos: int, depth: int) -> Result<
    (SpecVal, int),
    MochaError,
>
    decreases s.len() - pos, 1int,
{
    match spec_next_token(s, pos) {
        Err(e) => Err(e),
        Ok((t, p)) => match t {
            Lexeme::Nil => Ok((SpecVal::Nil, p)),
            Lexeme::True => Ok((SpecVal::Bool(true), p)),
            Lexeme::False => Ok((SpecVal::Bool(false), p)),
            Lexeme::Int { v } => Ok((SpecVal::Int(v), p)),
            Lexeme::FloatLit { start, len } => Ok(
                (SpecVal::Float(s.subrange(start, start + len)), p),
            ),
            Lexeme::Str { bytes } => Ok((SpecVal::Str(bytes), p)),
            Lexeme::LBrace => if depth >= MAX_DEPTH {
                Err(MochaError::Overflow)
            } else if pos < p <= s.len() {
                match spec_fields(s, p, depth + 1, Seq::empty(), false) {
                    Err(e) => Err(e),
                    Ok((fs, p2)) => Ok((SpecVal::Obj(fs), p2)),
                }
            } else {
                Err(MochaError::UnexpectedToken)
            },
            Lexeme::LBrack => if depth >= MAX_DEPTH {
                Err(MochaError::Overflow)
            } else if pos < p <= s.len() {
                match spec_items(s, p, depth + 1, false) {
                    Err(e) => Err(e),
                    Ok((vs, p2)) => Ok((SpecVal::Arr(vs), p2)),
                }
            } else {
                Err(MochaError::UnexpectedToken)
            },
            Lexeme::At => match spec_next_token(s, p) {
                Err(e) => Err(e),
                Ok((t2, p2)) => match t2 {
                    Lexeme::Ident { start, len } => Ok(
                        (SpecVal::Ref(s.subrange(start, start + len)), p2),
                    ),
                    Lexeme::Eof => Err(MochaError::EndOfStream),
                    _ => Err(MochaError::RootReference),
                },
            },
            Lexeme::Eof => Err(MochaError::EndOfStream),
            _ => Err(MochaError::UnexpectedToken),
        },
    }
}

/// The remaining fields of an object body starting at `pos`, given the
/// names already taken and whether a separating comma may come next.
pub open spec fn spec_fields(
    s: Seq<u8>,
    pos: int,
    depth: int,
    seen: Seq<Seq<u8>>,
    sep_ok: bool,
) -> Result<(Seq<SpecField>, int), MochaError>
    decreases s.len() - pos, 2int,
{
    match spec_next_token(s, pos) {
        Err(e) => Err(e),
        Ok((t, p)) => match t {
            Lexeme::RBrace => Ok((Seq::empty(), p)),
            Lexeme::Eof => Err(MochaError::EndOfStream),
            Lexeme::Comma => if !sep_ok {
                Err(MochaError::UnexpectedToken)
            } else if pos < p <= s.len() {
                spec_fields(s, p, depth, seen, false)
            } else {
                Err(MochaError::UnexpectedToken)
            },
            Lexeme::Ident { start, len } => {
                let name = s.subrange(start, start + len);
                if seen.contains(name) {
                    Err(MochaError::DuplicateField)
                } else {
                    match spec_next_token(s, p) {
                        Err(e) => Err(e),
                        Ok((t2, p2)) => match t2 {
                            Lexeme::Colon => if pos < p2 <= s.len() {
                                match spec_value(s, p2, depth) {
                                    Err(e) => Err(e),
                                    Ok((v, p3)) => if pos < p3 <= s.len() {
                                        match spec_fields(s, p3, depth, seen.push(name), true) {
                                            Err(e) => Err(e),
                                            Ok((rest, p4)) => Ok(
                                                (seq![SpecField { name, value: v }] + rest, p4),
                                            ),
                                        }
                                    } else {
                                        Err(MochaError::UnexpectedToken)
                                    },
                                }
                            } else {
                                Err(MochaError::UnexpectedToken)
                            },
                            Lexeme::Eof => Err(MochaError::EndOfStream),
                            _ => Err(MochaError::UnexpectedToken),
                        },
                    }
                }
            },
            _ => Err(MochaError::UnexpectedToken),
        },
    }
}

/// The remaining items of an array body starting at `pos`.
pub open spec fn spec_items(s: Seq<u8>, pos: int, depth: int, sep_ok: bool) -> Result<
    (Seq<SpecVal>, int),
    MochaError,
>
    decreases s.len() - pos, 2int,
{
    match spec_next_token(s, pos) {
        Err(e) => Err(e),
        Ok((t, p)) => match t {
            Lexeme::RBrack => Ok((Seq::empty(), p)),
            Lexeme::Eof => Err(MochaError::EndOfStream),
            Lexeme::Comma => if !sep_ok {
                Err(MochaError::UnexpectedToken)
            } else if pos < p <= s.len() {
                spec_items(s, p, depth, false)
            } else {
                Err(MochaError::UnexpectedToken)
            },
            _ => match spec_value(s, pos, depth) {
                Err(e) => Err(e),
                Ok((v, p3)) => if pos < p3 <= s.len() {
                    match spec_items(s, p3, depth, true) {
                        Err(e) => Err(e),
                        Ok((rest, p4)) => Ok((seq![v] + rest, p4)),
                    }
                } else {
                    Err(MochaError::UnexpectedToken)
                },
            },
        },
    }
}

/// The names of a field list, in source order.
pub open spec fn names_of_fields(fs: Seq<SpecField>) -> Seq<Seq<u8>> {
    fs.map_values(|f: SpecField| f.name)
}

/// Some value under `v` is a reference written with target name `n`.
pub open spec fn v_has_ref(v: SpecVal, n: Seq<u8>) -> bool
    decreases v,
{
    match v {
        SpecVal::Ref(m) => m == n,
        SpecVal::Obj(fs) => fs_has_ref(fs, n),
        SpecVal::Arr(vs) => vs_has_ref(vs, n),
        _ => false,
    }
}

/// Some value under the field list is a reference with target name `n`.
pub open spec fn fs_has_ref(fs: Seq<SpecField>, n: Seq<u8>) -> bool
    decreases fs,
{
    exists|i: int| 0 <= i < fs.len() && v_has_ref((#[trigger] fs[i]).value, n)
}

/// Some value under the item list is a reference with target name `n`.
pub open spec fn vs_has_ref(vs: Seq<SpecVal>, n: Seq<u8>) -> bool
    decreases vs,
{
    exists|i: int| 0 <= i < vs.len() && v_has_ref(#[trigger] vs[i], n)
}

/// Every reference in the document names a top-level field.
pub open spec fn all_refs_resolve(fs: Seq<SpecField>) -> bool {
    forall|n: Seq<u8>| #[trigger] fs_has_ref(fs, n) ==> names_of_fields(fs).contains(n)
}

/// The document's denotation: its top-level fields when the input derives
/// a document under the grammar and every reference resolves; otherwise
/// the first failure, with its exact error kind.
pub open spec fn spec_parse(s: Seq<u8>) -> Result<Seq<SpecField>, MochaError> {
    match spec_next_token(s, 0) {
        Err(e) => Err(e),
        Ok((t, p)) => match t {
            Lexeme::LBrace => if 0 < p <= s.len() {
                match spec_fields(s, p, 1, Seq::empty(), false) {
                    Err(e) => Err(e),
                    Ok((fs, p2)) => match spec_next_token(s, p2) {
                        Err(e) => Err(e),
                        Ok((t3, p3)) => if !(t3 is Eof) {
                            Err(MochaError::UnexpectedToken)
                        } else if all_refs_resolve(fs) {
                            Ok(fs)
                        } else {
                            Err(MochaError::MissingField)
                        },
                    },
                }
            } else {
                Err(MochaError::UnexpectedToken)
            },
            Lexeme::Eof => Err(MochaError::EndOfStream),
            _ => Err(MochaError::UnexpectedToken),
        },
    }
}

/// The stored value `rv` represents the denoted value `v` in an arena with
/// the given field records, item slots, reference table and text buffer.
pub open spec fn vrep(
    fields: Seq<FieldRec>,
    items: Seq<RawValue>,
    refs: Seq<RefRec>,
    text: Seq<u8>,
    rv: RawValue,
    v: SpecVal,
) -> bool
    decreases v,
{
    match v {
        SpecVal::Nil => rv is Nil,
        SpecVal::Bool(x) => (rv matches RawValue::Bool(y) && y == x),
        SpecVal::Int(x) => (rv matches RawValue::Int(y) && y as int == x),
        SpecVal::Float(bs) => (rv matches RawValue::Float { start, len } && start + len
            <= text.len() && text.subrange(start as int, start + len) == bs),
        SpecVal::Str(bs) => (rv matches RawValue::Str { start, len } && start + len <= text.len()
            && text.subrange(start as int, start + len) == bs),
        SpecVal::Obj(fs) => (rv matches RawValue::Object { start, len } && len == fs.len() && start
            + len <= fields.len() && (forall|i: int|
            0 <= i < fs.len() ==> name_of(fields, text, start + i) == (#[trigger] fs[i]).name
                && vrep(fields, items, refs, text, fields[start + i].value, fs[i].value))),
        SpecVal::Arr(vs) => (rv matches RawValue::Array { start, len } && len == vs.len() && start
            + len <= items.len() && (forall|i: int|
            0 <= i < vs.len() ==> vrep(fields, items, refs, text, items[start + i], #[trigger] vs[i]))),
        SpecVal::Ref(n) => (rv matches RawValue::Ref { occ } && occ < refs.len() && path_of(
            refs,
            text,
            occ as int,
        ) == n),
    }
}

} // verus!
