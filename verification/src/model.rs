//! Arena storage for a parsed document.
//!
//! All parsed data lives in four flat, append-only vectors owned by [`Mocha`]:
//! field records, array slots, reference occurrences, and raw text bytes
//! (names, string payloads, decimal literals). Objects and arrays are
//! non-owning (start, len) runs into `fields` / `items`; nodes never point at
//! each other with owning references, so teardown is a single drop of the
//! vectors however many aliases target one node.
//!
//! The record types are public so that contracts can speak about the stored
//! document; only this crate can reach the vectors that hold them.

use vstd::prelude::*;
use vstd::string::StringSliceAdditionalSpecFns;

use crate::MochaError;

verus! {

/// A value as stored in the arena: scalars inline, strings and decimal
/// literals as spans of the text buffer, containers as runs, references as
/// an index into the occurrence table.
#[derive(Debug, Clone, Copy)]
pub enum RawValue {
    Nil,
    Bool(bool),
    Int(i64),
    Float { start: usize, len: usize },
    Str { start: usize, len: usize },
    Object { start: usize, len: usize },
    Array { start: usize, len: usize },
    Ref { occ: usize },
}

/// One field record: a name span in the text buffer plus a stored value.
#[derive(Debug, Clone, Copy)]
pub struct FieldRec {
    pub name_start: usize,
    pub name_len: usize,
    pub value: RawValue,
}

/// One reference occurrence: the target name it was written with (`path`),
/// the name or slot index under which the occurrence itself appears, the
/// resolved target field (`child`), and the next occurrence in the circular
/// chain of all occurrences sharing that target.
#[derive(Debug, Clone, Copy)]
pub struct RefRec {
    pub path_start: usize,
    pub path_len: usize,
    pub name_start: usize,
    pub name_len: usize,
    pub index: usize,
    pub child: usize,
    pub next: usize,
}

/// A stored value only mentions arena regions that exist.
pub open spec fn value_wf(v: RawValue, nf: int, ni: int, nr: int, nt: int) -> bool {
    match v {
        RawValue::Nil => true,
        RawValue::Bool(_) => true,
        RawValue::Int(_) => true,
        RawValue::Float { start, len } => start + len <= nt,
        RawValue::Str { start, len } => start + len <= nt,
        RawValue::Object { start, len } => start + len <= nf,
        RawValue::Array { start, len } => start + len <= ni,
        RawValue::Ref { occ } => occ < nr,
    }
}

pub open spec fn field_wf(f: FieldRec, nf: int, ni: int, nr: int, nt: int) -> bool {
    &&& f.name_start + f.name_len <= nt
    &&& value_wf(f.value, nf, ni, nr, nt)
}

/// Every record and every array slot is in bounds.
pub open spec fn store_wf(
    fields: Seq<FieldRec>,
    items: Seq<RawValue>,
    nr: int,
    text: Seq<u8>,
) -> bool {
    &&& forall|i: int|
        0 <= i < fields.len() ==> field_wf(
            #[trigger] fields[i],
            fields.len() as int,
            items.len() as int,
            nr,
            text.len() as int,
        )
    &&& forall|i: int|
        0 <= i < items.len() ==> value_wf(
            #[trigger] items[i],
            fields.len() as int,
            items.len() as int,
            nr,
            text.len() as int,
        )
}

/// The name bytes of field record `i`.
pub open spec fn name_of(fields: Seq<FieldRec>, text: Seq<u8>, i: int) -> Seq<u8> {
    text.subrange(fields[i].name_start as int, fields[i].name_start + fields[i].name_len)
}

/// No two fields of the run `[start, start + len)` share a name.
pub open spec fn distinct_names(
    fields: Seq<FieldRec>,
    text: Seq<u8>,
    start: int,
    len: int,
) -> bool {
    forall|i: int, j: int|
        start <= i < j < start + len ==> name_of(fields, text, i) != name_of(fields, text, j)
}

/// Every stored object run has pairwise-distinct field names.
pub open spec fn runs_distinct(
    fields: Seq<FieldRec>,
    items: Seq<RawValue>,
    text: Seq<u8>,
) -> bool {
    &&& forall|i: int|
        0 <= i < fields.len() ==> ((#[trigger] fields[i]).value matches RawValue::Object {
            start,
            len,
        } ==> distinct_names(fields, text, start as int, len as int))
    &&& forall|i: int|
        0 <= i < items.len() ==> ((#[trigger] items[i]) matches RawValue::Object {
            start,
            len,
        } ==> distinct_names(fields, text, start as int, len as int))
}

pub open spec fn ref_spans_wf(r: RefRec, nt: int) -> bool {
    &&& r.path_start + r.path_len <= nt
    &&& r.name_start + r.name_len <= nt
}

/// The target-name bytes that reference occurrence `j` was written with.
pub open spec fn path_of(refs: Seq<RefRec>, text: Seq<u8>, j: int) -> Seq<u8> {
    text.subrange(refs[j].path_start as int, refs[j].path_start + refs[j].path_len)
}

/// No top-level field name matches the target name of occurrence `j`.
pub open spec fn unresolvable(
    fields: Seq<FieldRec>,
    text: Seq<u8>,
    refs: Seq<RefRec>,
    root_start: int,
    root_len: int,
    j: int,
) -> bool {
    forall|k: int|
        root_start <= k < root_start + root_len ==> name_of(fields, text, k) != path_of(
            refs,
            text,
            j,
        )
}

/// Some occurrence in `[a, b)` targets field `c`.
pub open spec fn has_occ(refs: Seq<RefRec>, c: int, a: int, b: int) -> bool {
    exists|k: int| a <= k < b && (#[trigger] refs[k]).child == c
}

/// `refs[j].next` is the cyclic successor of `j` among the occurrences that
/// share `j`'s target: the next such occurrence in source order, wrapping
/// around to the first one after the last.
pub open spec fn next_wf(refs: Seq<RefRec>, j: int) -> bool {
    let c = refs[j].child as int;
    let n = refs[j].next as int;
    &&& 0 <= n < refs.len()
    &&& refs[n].child == c
    &&& (n > j ==> !has_occ(refs, c, j + 1, n))
    &&& (n <= j ==> !has_occ(refs, c, j + 1, refs.len() as int) && !has_occ(refs, c, 0, n))
}

pub open spec fn chains_wf(refs: Seq<RefRec>) -> bool {
    forall|j: int| 0 <= j < refs.len() ==> #[trigger] next_wf(refs, j)
}

pub open spec fn refs_wf(refs: Seq<RefRec>, nf: int, nt: int) -> bool {
    &&& forall|j: int| 0 <= j < refs.len() ==> ref_spans_wf(#[trigger] refs[j], nt)
    &&& forall|j: int| 0 <= j < refs.len() ==> (#[trigger] refs[j]).child < nf
    &&& chains_wf(refs)
}

/// The root of a parsed document: sole owner of the arena. The root object
/// is the run `[root_start, root_start + len)` of `fields`; `len` is the
/// number of top-level fields. Dropping the `Mocha` releases every parsed
/// byte at once, which is what makes multiply-referenced and cyclically
/// referenced targets safe to tear down; Rust's borrow checker keeps every
/// view from outliving the root.
#[derive(Debug)]
pub struct Mocha {
    pub(crate) fields: Vec<FieldRec>,
    pub(crate) items: Vec<RawValue>,
    pub(crate) refs: Vec<RefRec>,
    pub(crate) text: Vec<u8>,
    pub(crate) root_start: usize,
    /// Number of top-level fields.
    pub len: usize,
}

impl Mocha {
    /// The field records of the arena.
    pub open(crate) spec fn spec_fields(self) -> Seq<FieldRec> {
        self.fields@
    }

    /// The array slots of the arena.
    pub open(crate) spec fn spec_items(self) -> Seq<RawValue> {
        self.items@
    }

    /// The reference occurrences, in source order.
    pub open(crate) spec fn spec_refs(self) -> Seq<RefRec> {
        self.refs@
    }

    /// The text buffer holding all names, strings and decimal literals.
    pub open(crate) spec fn spec_text(self) -> Seq<u8> {
        self.text@
    }

    /// Start of the root object's run in the field records.
    pub open(crate) spec fn spec_root_start(self) -> int {
        self.root_start as int
    }

    /// Number of top-level fields (the value of the public `len` field).
    pub open(crate) spec fn spec_len(self) -> usize {
        self.len
    }

    /// Well-formedness: every span and run in bounds, every reference
    /// resolved to an existing field and linked into the circular chain of
    /// occurrences sharing its target, and every object's field names
    /// pairwise distinct.
    pub open spec fn wf(self) -> bool {
        &&& self.spec_root_start() + self.spec_len() <= self.spec_fields().len()
        &&& store_wf(
            self.spec_fields(),
            self.spec_items(),
            self.spec_refs().len() as int,
            self.spec_text(),
        )
        &&& refs_wf(
            self.spec_refs(),
            self.spec_fields().len() as int,
            self.spec_text().len() as int,
        )
        &&& runs_distinct(self.spec_fields(), self.spec_items(), self.spec_text())
        &&& distinct_names(
            self.spec_fields(),
            self.spec_text(),
            self.spec_root_start(),
            self.spec_len() as int,
        )
    }

    /// The name bytes of the document's field record `i`.
    pub open spec fn spec_name(self, i: int) -> Seq<u8> {
        name_of(self.spec_fields(), self.spec_text(), i)
    }

    /// Parses a document from a byte buffer: the single entry point, proved
    /// equal to the grammar: the result is `Ok` exactly when `spec_parse`
    /// derives the input, the error is the grammar's first failure with its
    /// exact kind (repeated key: `DuplicateField`; out-of-range integer
    /// literal: `Overflow`, at the lexical stage; a bare reference marker:
    /// `RootReference`; an unresolvable target name: `MissingField`; input
    /// exhausted mid-construct: `EndOfStream`; and so on), and on success
    /// the root run stores, in source order, exactly the denoted fields —
    /// names, scalar values, container contents and reference targets. The
    /// root is well-formed (`wf`), so every accessor contract applies, and
    /// every reference occurrence is resolved to the top-level field whose
    /// name it was written with. On failure nothing is handed out: no
    /// partially built document exists, and the arena built so far is
    /// discarded entirely. The clauses over `spec_next_token` restate the
    /// opening layer directly where a reader needs it.
    pub fn parse_bytes(src: &[u8]) -> (r: Result<Mocha, MochaError>)
        ensures
            (r matches Ok(doc) ==> doc.wf()),
            src@.len() == 0 ==> (r matches Err(e) && e == MochaError::EndOfStream),
            (r matches Err(e) && e == MochaError::InvalidCharacter ==> crate::lexer::bad_byte(
                src@,
                0,
                src@.len() as int,
            )),
            (r matches Err(e) && e == MochaError::Overflow ==> (exists|a: int|
                0 <= a < src@.len() && #[trigger] crate::lexer::int_literal_at(src@, a)
                    && !crate::lexer::int_fits(src@, a)) || src@.len()
                >= crate::parser::MAX_DEPTH),
            (crate::lexer::spec_next_token(src@, 0) matches Err(e2) ==> r == Err::<
                Mocha,
                MochaError,
            >(e2)),
            (crate::lexer::spec_next_token(src@, 0) matches Ok(tp) ==> {
                &&& (tp.0 is Eof ==> r == Err::<Mocha, MochaError>(MochaError::EndOfStream))
                &&& (!(tp.0 is Eof) && !(tp.0 is LBrace) ==> r == Err::<Mocha, MochaError>(
                    MochaError::UnexpectedToken,
                ))
                &&& (tp.0 is LBrace ==> (crate::lexer::spec_next_token(src@, tp.1) matches Ok(
                    tp2,
                ) && tp2.0 is Eof ==> r == Err::<Mocha, MochaError>(MochaError::EndOfStream)))
                &&& (tp.0 is LBrace ==> (crate::lexer::spec_next_token(src@, tp.1) matches Ok(
                    tp2,
                ) ==> (tp2.0 is RBrace ==> (crate::lexer::spec_next_token(src@, tp2.1) matches Ok(
                    tp3,
                ) ==> ((tp3.0 is Eof ==> (r matches Ok(doc) && doc.spec_len() == 0)) && (!(tp3.0
                    is Eof) ==> r == Err::<Mocha, MochaError>(MochaError::UnexpectedToken)))))))
                &&& (tp.0 is LBrace ==> (crate::lexer::spec_next_token(src@, tp.1) matches Ok(
                    tp2,
                ) ==> (tp2.0 is RBrace ==> (crate::lexer::spec_next_token(src@, tp2.1) matches Err(
                    e4,
                ) ==> r == Err::<Mocha, MochaError>(e4)))))
            }),
            (r matches Ok(doc) ==> forall|j: int|
                0 <= j < doc.spec_refs().len() ==> doc.spec_root_start()
                    <= (#[trigger] doc.spec_refs()[j]).child < doc.spec_root_start()
                    + doc.spec_len() && name_of(
                    doc.spec_fields(),
                    doc.spec_text(),
                    doc.spec_refs()[j].child as int,
                ) == path_of(doc.spec_refs(), doc.spec_text(), j)),
            (match crate::grammar::spec_parse(src@) {
                Err(e) => r == Err::<Mocha, MochaError>(e),
                Ok(fs) => (r matches Ok(doc) && doc.spec_len() == fs.len() && (forall|i: int|
                    0 <= i < fs.len() ==> doc.spec_name(doc.spec_root_start() + i) == (
                    #[trigger] fs[i]).name && crate::grammar::vrep(
                        doc.spec_fields(),
                        doc.spec_items(),
                        doc.spec_refs(),
                        doc.spec_text(),
                        doc.spec_fields()[doc.spec_root_start() + i].value,
                        fs[i].value,
                    ))),
            }),
    {
        let mut b = Builder {
            fields: Vec::new(),
            items: Vec::new(),
            refs: Vec::new(),
            text: Vec::new(),
        };
        let (t, p) = match crate::lexer::next_token(src, 0) {
            Ok(tp) => tp,
            Err(e) => {
                return Err(e);
            },
        };
        match t {
            crate::lexer::Token::LBrace => {},
            crate::lexer::Token::Eof => {
                return Err(MochaError::EndOfStream);
            },
            _ => {
                return Err(MochaError::UnexpectedToken);
            },
        }
        let (start, len, p2) = match crate::parser::parse_object(src, p, 1, &mut b) {
            Ok(x) => x,
            Err(e) => {
                return Err(e);
            },
        };
        let (t3, _p3) = match crate::lexer::next_token(src, p2) {
            Ok(tp) => tp,
            Err(e) => {
                return Err(e);
            },
        };
        match t3 {
            crate::lexer::Token::Eof => {},
            _ => {
                return Err(MochaError::UnexpectedToken);
            },
        }
        let ghost b_po = b;
        proof {
            // the resolution condition of the grammar matches the resolver's
            if let Ok(fsp) = crate::grammar::spec_fields(
                src@,
                p as int,
                1int,
                Seq::<Seq<u8>>::empty(),
                false,
            ) {
                assert forall|n: Seq<u8>|
                    crate::grammar::names_of_fields(fsp.0).contains(n) <==> (exists|k: int|
                    start <= k < start + len && #[trigger] name_of(b.fields@, b.text@, k)
                        == n) by {
                    if crate::grammar::names_of_fields(fsp.0).contains(n) {
                        let i = choose|i: int|
                            0 <= i < crate::grammar::names_of_fields(fsp.0).len()
                                && crate::grammar::names_of_fields(fsp.0)[i] == n;
                        assert(name_of(b.fields@, b.text@, start + i) == n);
                    }
                    if exists|k: int|
                        start <= k < start + len && #[trigger] name_of(b.fields@, b.text@, k)
                            == n {
                        let k = choose|k: int|
                            start <= k < start + len && #[trigger] name_of(b.fields@, b.text@, k)
                                == n;
                        assert((#[trigger] fsp.0[k - start]).name == n);
                        assert(crate::grammar::names_of_fields(fsp.0)[k - start] == n);
                    }
                }
            }
        }
        match crate::resolve::resolve(&mut b, start, len) {
            Ok(u) => u,
            Err(e) => {
                proof {
                    if let Ok(fsp) = crate::grammar::spec_fields(
                        src@,
                        p as int,
                        1int,
                        Seq::<Seq<u8>>::empty(),
                        false,
                    ) {
                        let j = choose|j: int|
                            0 <= j < b_po.refs@.len() && #[trigger] crate::model::unresolvable(
                                b_po.fields@,
                                b_po.text@,
                                b_po.refs@,
                                start as int,
                                len as int,
                                j,
                            );
                        let n = path_of(b_po.refs@, b_po.text@, j);
                        assert(crate::grammar::fs_has_ref(fsp.0, n));
                        assert(!crate::grammar::names_of_fields(fsp.0).contains(n));
                        assert(!crate::grammar::all_refs_resolve(fsp.0));
                    }
                }
                return Err(e);
            },
        };
        proof {
            assert forall|j: int| 0 <= j < b.refs@.len() implies path_of(b.refs@, b.text@, j)
                == path_of(b_po.refs@, b_po.text@, j) by {
                assert(crate::resolve::same_occ(b.refs@[j], b_po.refs@[j]));
            }
            if let Ok(fsp) = crate::grammar::spec_fields(
                src@,
                p as int,
                1int,
                Seq::<Seq<u8>>::empty(),
                false,
            ) {
                assert forall|n: Seq<u8>| #[trigger] crate::grammar::fs_has_ref(
                    fsp.0,
                    n,
                ) implies crate::grammar::names_of_fields(fsp.0).contains(n) by {
                    let j = choose|j: int|
                        0 <= j < b_po.refs@.len() && path_of(b_po.refs@, b_po.text@, j) == n;
                    assert(name_of(b.fields@, b.text@, b.refs@[j].child as int) == n);
                }
                assert(crate::grammar::all_refs_resolve(fsp.0));
                assert forall|i: int| 0 <= i < fsp.0.len() implies name_of(
                    b.fields@,
                    b.text@,
                    start + i,
                ) == (#[trigger] fsp.0[i]).name && crate::grammar::vrep(
                    b.fields@,
                    b.items@,
                    b.refs@,
                    b.text@,
                    b.fields@[start + i].value,
                    fsp.0[i].value,
                ) by {
                    crate::parser::lemma_vrep_same_refs(
                        b.fields@,
                        b.items@,
                        b_po.refs@,
                        b.refs@,
                        b.text@,
                        b.fields@[start + i].value,
                        fsp.0[i].value,
                    );
                }
            }
        }
        let doc = Mocha {
            fields: b.fields,
            items: b.items,
            refs: b.refs,
            text: b.text,
            root_start: start,
            len,
        };
        Ok(doc)
    }

    /// Parses a document from a string slice: its UTF-8 bytes are handed to
    /// the byte-level entry point.
    pub fn parse(src: &str) -> (r: Result<Mocha, MochaError>)
        ensures
            (r matches Ok(doc) ==> doc.wf()),
            src.spec_bytes().len() == 0 ==> (r matches Err(e) && e == MochaError::EndOfStream),
            (crate::lexer::spec_next_token(src.spec_bytes(), 0) matches Err(e2) ==> r == Err::<
                Mocha,
                MochaError,
            >(e2)),
            (crate::lexer::spec_next_token(src.spec_bytes(), 0) matches Ok(tp) ==> {
                &&& (tp.0 is Eof ==> r == Err::<Mocha, MochaError>(MochaError::EndOfStream))
                &&& (!(tp.0 is Eof) && !(tp.0 is LBrace) ==> r == Err::<Mocha, MochaError>(
                    MochaError::UnexpectedToken,
                ))
                &&& (tp.0 is LBrace ==> (crate::lexer::spec_next_token(
                    src.spec_bytes(),
                    tp.1,
                ) matches Ok(tp2) && tp2.0 is Eof ==> r == Err::<Mocha, MochaError>(
                    MochaError::EndOfStream,
                )))
                &&& (tp.0 is LBrace ==> (crate::lexer::spec_next_token(
                    src.spec_bytes(),
                    tp.1,
                ) matches Ok(tp2) ==> (tp2.0 is RBrace ==> (crate::lexer::spec_next_token(
                    src.spec_bytes(),
                    tp2.1,
                ) matches Ok(tp3) ==> ((tp3.0 is Eof ==> (r matches Ok(doc) && doc.spec_len()
                    == 0)) && (!(tp3.0 is Eof) ==> r == Err::<Mocha, MochaError>(
                    MochaError::UnexpectedToken,
                )))))))
                &&& (tp.0 is LBrace ==> (crate::lexer::spec_next_token(
                    src.spec_bytes(),
                    tp.1,
                ) matches Ok(tp2) ==> (tp2.0 is RBrace ==> (crate::lexer::spec_next_token(
                    src.spec_bytes(),
                    tp2.1,
                ) matches Err(e4) ==> r == Err::<Mocha, MochaError>(e4)))))
            }),
            (r matches Err(e) && e == MochaError::InvalidCharacter ==> crate::lexer::bad_byte(
                src.spec_bytes(),
                0,
                src.spec_bytes().len() as int,
            )),
            (r matches Err(e) && e == MochaError::Overflow ==> (exists|a: int|
                0 <= a < src.spec_bytes().len() && #[trigger] crate::lexer::int_literal_at(
                    src.spec_bytes(),
                    a,
                ) && !crate::lexer::int_fits(src.spec_bytes(), a)) || src.spec_bytes().len()
                >= crate::parser::MAX_DEPTH),
            (r matches Ok(doc) ==> forall|j: int|
                0 <= j < doc.spec_refs().len() ==> doc.spec_root_start()
                    <= (#[trigger] doc.spec_refs()[j]).child < doc.spec_root_start()
                    + doc.spec_len() && name_of(
                    doc.spec_fields(),
                    doc.spec_text(),
                    doc.spec_refs()[j].child as int,
                ) == path_of(doc.spec_refs(), doc.spec_text(), j)),
            (match crate::grammar::spec_parse(src.spec_bytes()) {
                Err(e) => r == Err::<Mocha, MochaError>(e),
                Ok(fs) => (r matches Ok(doc) && doc.spec_len() == fs.len() && (forall|i: int|
                    0 <= i < fs.len() ==> doc.spec_name(doc.spec_root_start() + i) == (
                    #[trigger] fs[i]).name && crate::grammar::vrep(
                        doc.spec_fields(),
                        doc.spec_items(),
                        doc.spec_refs(),
                        doc.spec_text(),
                        doc.spec_fields()[doc.spec_root_start() + i].value,
                        fs[i].value,
                    ))),
            }),
    {
        Mocha::parse_bytes(src.as_bytes())
    }
}

/// `s1` is an unchanged initial segment of `s2`.
pub open spec fn seq_extends<T>(s1: Seq<T>, s2: Seq<T>) -> bool {
    &&& s1.len() <= s2.len()
    &&& forall|i: int| 0 <= i < s1.len() ==> s1[i] == #[trigger] s2[i]
}

/// Growing arena shared by the parser; the reference table still carries
/// placeholder `child`/`next` links until resolution.
pub(crate) struct Builder {
    pub(crate) fields: Vec<FieldRec>,
    pub(crate) items: Vec<RawValue>,
    pub(crate) refs: Vec<RefRec>,
    pub(crate) text: Vec<u8>,
}

impl Builder {
    pub(crate) open spec fn wf(self) -> bool {
        &&& store_wf(self.fields@, self.items@, self.refs@.len() as int, self.text@)
        &&& forall|j: int|
            0 <= j < self.refs@.len() ==> ref_spans_wf(
                #[trigger] self.refs@[j],
                self.text@.len() as int,
            )
        &&& runs_distinct(self.fields@, self.items@, self.text@)
    }

    /// The arena only ever grows, so previously recorded spans stay valid.
    pub(crate) open spec fn extends(self, prev: Builder) -> bool {
        &&& seq_extends(prev.fields@, self.fields@)
        &&& seq_extends(prev.items@, self.items@)
        &&& seq_extends(prev.refs@, self.refs@)
        &&& seq_extends(prev.text@, self.text@)
    }
}

/// A subrange that lies within a prefix reads the same bytes from the
/// extended sequence.
pub proof fn lemma_prefix_subrange(s1: Seq<u8>, s2: Seq<u8>, a: int, b: int)
    requires
        seq_extends(s1, s2),
        0 <= a <= b <= s1.len(),
    ensures
        s1.subrange(a, b) == s2.subrange(a, b),
{
    assert(s1.subrange(a, b) =~= s2.subrange(a, b));
}

/// Name distinctness of a run survives appending to the arena.
pub proof fn lemma_distinct_names_prefix(
    f1: Seq<FieldRec>,
    t1: Seq<u8>,
    f2: Seq<FieldRec>,
    t2: Seq<u8>,
    start: int,
    len: int,
)
    requires
        seq_extends(f1, f2),
        seq_extends(t1, t2),
        0 <= start,
        0 <= len,
        start + len <= f1.len(),
        forall|i: int|
            start <= i < start + len ==> (#[trigger] f1[i]).name_start + f1[i].name_len
                <= t1.len(),
        distinct_names(f1, t1, start, len),
    ensures
        distinct_names(f2, t2, start, len),
{
    assert forall|i: int| start <= i < start + len implies name_of(f2, t2, i) == name_of(
        f1,
        t1,
        i,
    ) by {
        assert(f2[i] == f1[i]);
        lemma_prefix_subrange(t1, t2, f1[i].name_start as int, f1[i].name_start + f1[i].name_len);
    }
}

} // verus!
