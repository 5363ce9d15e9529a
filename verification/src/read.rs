//! Read-only views into a parsed document.
//!
//! [`Object`], [`Array`] and [`Reference`] are transient (index, length)
//! projections into the arena of a [`Mocha`] root; they borrow the root and
//! are valid exactly as long as it lives, which Rust enforces statically.
//! Indexed accessors never fail: an index past the end yields `None`.

use vstd::prelude::*;
use vstd::slice::slice_subrange;

use crate::model::{name_of, value_wf, Mocha, RawValue};

verus! {

/// A caller-visible value. String and decimal-literal payloads are borrowed
/// byte slices into the arena's text buffer; a decimal literal is handed out
/// as the exact bytes it was written with, for the caller to convert.
#[derive(Debug, Clone, Copy)]
pub enum Value<'a> {
    String(&'a [u8]),
    Ref(Reference<'a>),
    Bool(bool),
    Object(Object<'a>),
    Array(Array<'a>),
    Float(&'a [u8]),
    Int(i64),
    Nil,
}

/// One alias occurrence. `name` is the field name (empty for an array slot)
/// and `index` the position under which this occurrence appears in its
/// container; `next` walks the chain of all occurrences sharing the target.
#[derive(Debug, Clone, Copy)]
pub struct Reference<'a> {
    pub(crate) doc: &'a Mocha,
    pub(crate) occ: usize,
    pub(crate) origin: usize,
    pub name: &'a [u8],
    pub index: usize,
}

/// A field of an object: its name bytes and its value.
#[derive(Debug, Clone, Copy)]
pub struct Field<'a> {
    pub name: &'a [u8],
    pub value: Value<'a>,
}

/// A view of an array: a run of `len` value slots in the arena.
#[derive(Debug, Clone, Copy)]
pub struct Array<'a> {
    pub(crate) doc: &'a Mocha,
    pub(crate) start: usize,
    pub len: usize,
}

/// A view of an object: a run of `len` field records in the arena.
#[derive(Debug, Clone, Copy)]
pub struct Object<'a> {
    pub(crate) doc: &'a Mocha,
    pub(crate) start: usize,
    pub len: usize,
}

/// The bytes of the name under which reference occurrence `j` appears.
pub open spec fn ref_name_of(doc: Mocha, j: int) -> Seq<u8> {
    doc.spec_text().subrange(
        doc.spec_refs()[j].name_start as int,
        doc.spec_refs()[j].name_start + doc.spec_refs()[j].name_len,
    )
}

/// The view `v` projects exactly the stored value `raw` of document `doc`.
pub open spec fn value_matches<'a>(doc: Mocha, raw: RawValue, v: Value<'a>) -> bool {
    match raw {
        RawValue::Nil => (v matches Value::Nil),
        RawValue::Bool(b) => (v matches Value::Bool(x) && x == b),
        RawValue::Int(i) => (v matches Value::Int(x) && x == i),
        RawValue::Float { start, len } => (v matches Value::Float(s) && s@
            == doc.spec_text().subrange(start as int, start + len)),
        RawValue::Str { start, len } => (v matches Value::String(s) && s@
            == doc.spec_text().subrange(start as int, start + len)),
        RawValue::Object { start, len } => (v matches Value::Object(o) && o.spec_doc() == doc
            && o.spec_start() == start && o.spec_len() == len),
        RawValue::Array { start, len } => (v matches Value::Array(a) && a.spec_doc() == doc
            && a.spec_start() == start && a.spec_len() == len),
        RawValue::Ref { occ } => (v matches Value::Ref(r) && r.spec_doc() == doc && r.spec_occ()
            == occ && r.spec_origin() == occ && r.spec_name() == ref_name_of(doc, occ as int)
            && r.spec_index() == doc.spec_refs()[occ as int].index),
    }
}

/// All invariants a well-formed view hands to its own accessors.
pub open spec fn sub_views_ok<'a>(v: Value<'a>) -> bool {
    &&& (v matches Value::Object(o) ==> o.inv())
    &&& (v matches Value::Array(a) ==> a.inv())
    &&& (v matches Value::Ref(r) ==> r.inv())
}

impl<'a> Object<'a> {
    /// The document this view borrows from.
    pub open(crate) spec fn spec_doc(self) -> Mocha {
        *self.doc
    }

    /// Start of this object's run in the document's field records.
    pub open(crate) spec fn spec_start(self) -> int {
        self.start as int
    }

    /// Number of fields (the value of the public `len` field).
    pub open(crate) spec fn spec_len(self) -> usize {
        self.len
    }

    /// Validity: the document is well-formed and the run is in bounds.
    pub open spec fn inv(self) -> bool {
        &&& self.spec_doc().wf()
        &&& self.spec_start() + self.spec_len() <= self.spec_doc().spec_fields().len()
    }

    /// The i-th field of this object, in source order; `None` iff `index`
    /// is past the end.
    pub fn get(&self, index: usize) -> (r: Option<Field<'a>>)
        requires
            self.inv(),
        ensures
            index >= self.spec_len() ==> r is None,
            index < self.spec_len() ==> (r matches Some(f) && f.name@ == self.spec_doc().spec_name(
                self.spec_start() + index,
            ) && value_matches(
                self.spec_doc(),
                self.spec_doc().spec_fields()[self.spec_start() + index].value,
                f.value,
            ) && sub_views_ok(f.value)),
    {
        if index >= self.len {
            return None;
        }
        let _nf = self.doc.fields.len();
        Some(field_view(self.doc, self.start + index))
    }
}

impl<'a> Array<'a> {
    /// The document this view borrows from.
    pub open(crate) spec fn spec_doc(self) -> Mocha {
        *self.doc
    }

    /// Start of this array's run in the document's value slots.
    pub open(crate) spec fn spec_start(self) -> int {
        self.start as int
    }

    /// Number of items (the value of the public `len` field).
    pub open(crate) spec fn spec_len(self) -> usize {
        self.len
    }

    /// Validity: the document is well-formed and the run is in bounds.
    pub open spec fn inv(self) -> bool {
        &&& self.spec_doc().wf()
        &&& self.spec_start() + self.spec_len() <= self.spec_doc().spec_items().len()
    }

    /// The i-th item of this array, in source order; `None` iff `index` is
    /// past the end.
    pub fn get(&self, index: usize) -> (r: Option<Value<'a>>)
        requires
            self.inv(),
        ensures
            index >= self.spec_len() ==> r is None,
            index < self.spec_len() ==> (r matches Some(v) && value_matches(
                self.spec_doc(),
                self.spec_doc().spec_items()[self.spec_start() + index],
                v,
            ) && sub_views_ok(v)),
    {
        if index >= self.len {
            return None;
        }
        let _ni = self.doc.items.len();
        let raw = self.doc.items[self.start + index];
        Some(view_value(self.doc, raw))
    }
}

impl<'a> Reference<'a> {
    /// The document this view borrows from.
    pub open(crate) spec fn spec_doc(self) -> Mocha {
        *self.doc
    }

    /// The occurrence this view stands at.
    pub open(crate) spec fn spec_occ(self) -> usize {
        self.occ
    }

    /// The occurrence the running traversal started from.
    pub open(crate) spec fn spec_origin(self) -> usize {
        self.origin
    }

    /// The bytes of the public `name` field.
    pub open(crate) spec fn spec_name(self) -> Seq<u8> {
        self.name@
    }

    /// The value of the public `index` field.
    pub open(crate) spec fn spec_index(self) -> usize {
        self.index
    }

    /// Validity: the document is well-formed, this occurrence and the one
    /// the traversal started from exist and share a target, and the public
    /// fields describe this occurrence.
    pub open spec fn inv(self) -> bool {
        &&& self.spec_doc().wf()
        &&& self.spec_occ() < self.spec_doc().spec_refs().len()
        &&& self.spec_origin() < self.spec_doc().spec_refs().len()
        &&& self.spec_doc().spec_refs()[self.spec_origin() as int].child
            == self.spec_doc().spec_refs()[self.spec_occ() as int].child
        &&& self.spec_name() == ref_name_of(self.spec_doc(), self.spec_occ() as int)
        &&& self.spec_index() == self.spec_doc().spec_refs()[self.spec_occ() as int].index
    }

    /// The next occurrence that aliases the same target, in source order,
    /// wrapping past the last occurrence; `None` once the traversal is back
    /// where it started, so every other occurrence is visited exactly once.
    /// End of chain is a normal terminal state, not a failure.
    pub fn next(&self) -> (r: Option<Reference<'a>>)
        requires
            self.inv(),
        ensures
            ({
                let n = self.spec_doc().spec_refs()[self.spec_occ() as int].next;
                &&& (n == self.spec_origin() ==> r is None)
                &&& (n != self.spec_origin() ==> (r matches Some(x) && x.spec_doc()
                    == self.spec_doc() && x.spec_occ() == n && x.spec_origin()
                    == self.spec_origin() && x.spec_name() == ref_name_of(self.spec_doc(), n as int)
                    && x.spec_index() == self.spec_doc().spec_refs()[n as int].index && x.inv()))
            }),
    {
        proof {
            assert(crate::model::next_wf(self.doc.refs@, self.occ as int));
        }
        let _nt = self.doc.text.len();
        let n = self.doc.refs[self.occ].next;
        if n == self.origin {
            None
        } else {
            let rec = &self.doc.refs[n];
            Some(
                Reference {
                    doc: self.doc,
                    occ: n,
                    origin: self.origin,
                    name: slice_subrange(
                        self.doc.text.as_slice(),
                        rec.name_start,
                        rec.name_start + rec.name_len,
                    ),
                    index: rec.index,
                },
            )
        }
    }
}

impl Mocha {
    /// The i-th top-level field of the document, in source order; `None`
    /// iff `index` is past the end.
    pub fn get(&self, index: usize) -> (r: Option<Field>)
        requires
            self.wf(),
        ensures
            index >= self.spec_len() ==> r is None,
            index < self.spec_len() ==> (r matches Some(f) && f.name@ == self.spec_name(
                self.spec_root_start() + index,
            ) && value_matches(
                *self,
                self.spec_fields()[self.spec_root_start() + index].value,
                f.value,
            ) && sub_views_ok(f.value)),
    {
        if index >= self.len {
            return None;
        }
        let _nf = self.fields.len();
        Some(field_view(self, self.root_start + index))
    }
}

/// Builds the view of field record `i`.
fn field_view<'a>(doc: &'a Mocha, i: usize) -> (f: Field<'a>)
    requires
        doc.wf(),
        i < doc.spec_fields().len(),
    ensures
        f.name@ == name_of(doc.spec_fields(), doc.spec_text(), i as int),
        value_matches(*doc, doc.spec_fields()[i as int].value, f.value),
        sub_views_ok(f.value),
{
    let _nt = doc.text.len();
    let rec = &doc.fields[i];
    let name = slice_subrange(doc.text.as_slice(), rec.name_start, rec.name_start + rec.name_len);
    Field { name, value: view_value(doc, rec.value) }
}

/// Builds the view of one stored value.
fn view_value<'a>(doc: &'a Mocha, raw: RawValue) -> (v: Value<'a>)
    requires
        doc.wf(),
        value_wf(
            raw,
            doc.spec_fields().len() as int,
            doc.spec_items().len() as int,
            doc.spec_refs().len() as int,
            doc.spec_text().len() as int,
        ),
    ensures
        value_matches(*doc, raw, v),
        sub_views_ok(v),
{
    let _nt = doc.text.len();
    match raw {
        RawValue::Nil => Value::Nil,
        RawValue::Bool(b) => Value::Bool(b),
        RawValue::Int(i) => Value::Int(i),
        RawValue::Float { start, len } => Value::Float(
            slice_subrange(doc.text.as_slice(), start, start + len),
        ),
        RawValue::Str { start, len } => Value::String(
            slice_subrange(doc.text.as_slice(), start, start + len),
        ),
        RawValue::Object { start, len } => Value::Object(Object { doc, start, len }),
        RawValue::Array { start, len } => Value::Array(Array { doc, start, len }),
        RawValue::Ref { occ } => {
            let rec = &doc.refs[occ];
            Value::Ref(
                Reference {
                    doc,
                    occ,
                    origin: occ,
                    name: slice_subrange(
                        doc.text.as_slice(),
                        rec.name_start,
                        rec.name_start + rec.name_len,
                    ),
                    index: rec.index,
                },
            )
        },
    }
}

} // verus!
