//! The recursive-descent parser.
//!
//! A document is an object `{ name: value ... }`; fields and array items are
//! separated by commas or plain whitespace, and a trailing comma before the
//! closing bracket is allowed. Values are `nil`, `true`, `false`, integers,
//! decimal literals, strings, nested objects, arrays, and references
//! `@name`; a bare `@` (one not followed by a name) denotes the document
//! root and is rejected with `RootReference` at parse time. Nesting depth is
//! bounded by an explicit counter, failing with `Overflow` rather than
//! exhausting the call stack. Every structural error aborts the whole parse;
//! no partially built document is ever handed out.

use vstd::prelude::*;

use crate::lexer::{
    bad_byte, int_fits, int_literal_at, next_token, spec_next_token, Lexeme, Token,
};
use crate::model::{
    distinct_names, field_wf, lemma_distinct_names_prefix, lemma_prefix_subrange, name_of,
    path_of, ref_spans_wf, seq_extends, value_wf, Builder, FieldRec, RawValue, RefRec,
};
use crate::grammar::{
    fs_has_ref, names_of_fields, spec_fields, spec_items, spec_value, v_has_ref, vrep,
    vs_has_ref, SpecField, SpecVal,
};
use crate::MochaError;

verus! {

/// Deepest allowed container nesting.
pub const MAX_DEPTH: usize = 128;

/// The token standing at `pos` is an identifier (a field name may begin).
pub(crate) open spec fn tok_at_is_ident(s: Seq<u8>, pos: int) -> bool {
    spec_next_token(s, pos) matches Ok(tp) && tp.0 is Ident
}

/// The token standing at `pos` may start an array item (a value follows).
pub(crate) open spec fn tok_at_starts_item(s: Seq<u8>, pos: int) -> bool {
    spec_next_token(s, pos) matches Ok(tp) && !(tp.0 is RBrack) && !(tp.0 is Eof) && !(tp.0
        is Comma)
}

/// A value is well-formed against the builder's current arena sizes.
pub(crate) open spec fn bval_wf(b: Builder, v: RawValue) -> bool {
    value_wf(
        v,
        b.fields@.len() as int,
        b.items@.len() as int,
        b.refs@.len() as int,
        b.text@.len() as int,
    )
}

pub(crate) open spec fn bfield_wf(b: Builder, f: FieldRec) -> bool {
    field_wf(
        f,
        b.fields@.len() as int,
        b.items@.len() as int,
        b.refs@.len() as int,
        b.text@.len() as int,
    )
}

/// If the value is an object run, that run's field names are distinct.
pub(crate) open spec fn bval_distinct(b: Builder, v: RawValue) -> bool {
    v matches RawValue::Object { start, len } ==> distinct_names(
        b.fields@,
        b.text@,
        start as int,
        len as int,
    )
}

/// The run starting at `start` stores exactly the denoted fields.
pub(crate) open spec fn obj_rep(b: Builder, start: int, fs: Seq<SpecField>) -> bool {
    &&& start + fs.len() <= b.fields@.len()
    &&& forall|i: int|
        0 <= i < fs.len() ==> name_of(b.fields@, b.text@, start + i) == (#[trigger] fs[i]).name
            && vrep(b.fields@, b.items@, b.refs@, b.text@, b.fields@[start + i].value, fs[i].value)
}

/// The run starting at `start` stores exactly the denoted items.
pub(crate) open spec fn arr_rep(b: Builder, start: int, vs: Seq<SpecVal>) -> bool {
    &&& start + vs.len() <= b.items@.len()
    &&& forall|i: int|
        0 <= i < vs.len() ==> vrep(
            b.fields@,
            b.items@,
            b.refs@,
            b.text@,
            b.items@[start + i],
            #[trigger] vs[i],
        )
}

/// The reference records from `n0` on carry exactly the target names of
/// the references under `v`, each recorded name occurring in `v` and each
/// reference of `v` recorded.
pub(crate) open spec fn v_refs_bridge(n0: int, refs: Seq<RefRec>, text: Seq<u8>, v: SpecVal) -> bool {
    &&& (forall|j: int| n0 <= j < refs.len() ==> v_has_ref(v, #[trigger] path_of(refs, text, j)))
    &&& (forall|n: Seq<u8>| #[trigger] v_has_ref(v, n) ==> exists|j: int|
        n0 <= j < refs.len() && path_of(refs, text, j) == n)
}

/// The same bridge for a field list.
pub(crate) open spec fn fs_refs_bridge(
    n0: int,
    refs: Seq<RefRec>,
    text: Seq<u8>,
    fs: Seq<SpecField>,
) -> bool {
    &&& (forall|j: int| n0 <= j < refs.len() ==> fs_has_ref(fs, #[trigger] path_of(refs, text, j)))
    &&& (forall|n: Seq<u8>| #[trigger] fs_has_ref(fs, n) ==> exists|j: int|
        n0 <= j < refs.len() && path_of(refs, text, j) == n)
}

/// The same bridge for an item list.
pub(crate) open spec fn vs_refs_bridge(
    n0: int,
    refs: Seq<RefRec>,
    text: Seq<u8>,
    vs: Seq<SpecVal>,
) -> bool {
    &&& (forall|j: int| n0 <= j < refs.len() ==> vs_has_ref(vs, #[trigger] path_of(refs, text, j)))
    &&& (forall|n: Seq<u8>| #[trigger] vs_has_ref(vs, n) ==> exists|j: int|
        n0 <= j < refs.len() && path_of(refs, text, j) == n)
}

/// Recorded target names survive growing the arena.
proof fn lemma_paths_stable(b1: Builder, b2: Builder)
    requires
        b1.wf(),
        b2.extends(b1),
    ensures
        forall|j: int|
            0 <= j < b1.refs@.len() ==> #[trigger] path_of(b2.refs@, b2.text@, j) == path_of(
                b1.refs@,
                b1.text@,
                j,
            ),
{
    assert forall|j: int|
        0 <= j < b1.refs@.len() implies #[trigger] path_of(b2.refs@, b2.text@, j) == path_of(
        b1.refs@,
        b1.text@,
        j,
    ) by {
        assert(ref_spans_wf(b1.refs@[j], b1.text@.len() as int));
        assert(b2.refs@[j] == b1.refs@[j]);
        lemma_prefix_subrange(
            b1.text@,
            b2.text@,
            b1.refs@[j].path_start as int,
            b1.refs@[j].path_start + b1.refs@[j].path_len,
        );
    }
}

/// A stored value's representation survives growing the arena.
proof fn lemma_vrep_grow(b1: Builder, b2: Builder, rv: RawValue, v: SpecVal)
    requires
        b1.wf(),
        b2.extends(b1),
        vrep(b1.fields@, b1.items@, b1.refs@, b1.text@, rv, v),
    ensures
        vrep(b2.fields@, b2.items@, b2.refs@, b2.text@, rv, v),
    decreases v,
{
    lemma_names_in_bounds(b1);
    match v {
        SpecVal::Float(bs) => {
            if let RawValue::Float { start, len } = rv {
                lemma_prefix_subrange(b1.text@, b2.text@, start as int, start + len);
            }
        },
        SpecVal::Str(bs) => {
            if let RawValue::Str { start, len } = rv {
                lemma_prefix_subrange(b1.text@, b2.text@, start as int, start + len);
            }
        },
        SpecVal::Obj(fs) => {
            if let RawValue::Object { start, len } = rv {
                assert forall|i: int| 0 <= i < fs.len() implies name_of(
                    b2.fields@,
                    b2.text@,
                    start + i,
                ) == (#[trigger] fs[i]).name && vrep(
                    b2.fields@,
                    b2.items@,
                    b2.refs@,
                    b2.text@,
                    b2.fields@[start + i].value,
                    fs[i].value,
                ) by {
                    assert(b2.fields@[start + i] == b1.fields@[start + i]);
                    lemma_prefix_subrange(
                        b1.text@,
                        b2.text@,
                        b1.fields@[start + i].name_start as int,
                        b1.fields@[start + i].name_start + b1.fields@[start + i].name_len,
                    );
                    lemma_vrep_grow(b1, b2, b1.fields@[start + i].value, fs[i].value);
                }
            }
        },
        SpecVal::Arr(vs) => {
            if let RawValue::Array { start, len } = rv {
                assert forall|i: int| 0 <= i < vs.len() implies vrep(
                    b2.fields@,
                    b2.items@,
                    b2.refs@,
                    b2.text@,
                    b2.items@[start + i],
                    #[trigger] vs[i],
                ) by {
                    assert(b2.items@[start + i] == b1.items@[start + i]);
                    lemma_vrep_grow(b1, b2, b1.items@[start + i], vs[i]);
                }
            }
        },
        SpecVal::Ref(n) => {
            if let RawValue::Ref { occ } = rv {
                assert(ref_spans_wf(b1.refs@[occ as int], b1.text@.len() as int));
                assert(b2.refs@[occ as int] == b1.refs@[occ as int]);
                lemma_prefix_subrange(
                    b1.text@,
                    b2.text@,
                    b1.refs@[occ as int].path_start as int,
                    b1.refs@[occ as int].path_start + b1.refs@[occ as int].path_len,
                );
            }
        },
        _ => {},
    }
}

/// Every field record's name span lies within the text buffer.
proof fn lemma_names_in_bounds(b: Builder)
    requires
        b.wf(),
    ensures
        forall|k: int|
            0 <= k < b.fields@.len() ==> (#[trigger] b.fields@[k]).name_start
                + b.fields@[k].name_len <= b.text@.len(),
{
    assert forall|k: int|
        0 <= k < b.fields@.len() implies (#[trigger] b.fields@[k]).name_start
        + b.fields@[k].name_len <= b.text@.len() by {
        assert(field_wf(
            b.fields@[k],
            b.fields@.len() as int,
            b.items@.len() as int,
            b.refs@.len() as int,
            b.text@.len() as int,
        ));
    }
}

/// An object run with distinct names keeps them when the arena grows.
proof fn lemma_one_obj_distinct(
    f1: Seq<FieldRec>,
    t1: Seq<u8>,
    f2: Seq<FieldRec>,
    t2: Seq<u8>,
    v: RawValue,
)
    requires
        seq_extends(f1, f2),
        seq_extends(t1, t2),
        forall|k: int|
            0 <= k < f1.len() ==> (#[trigger] f1[k]).name_start + f1[k].name_len <= t1.len(),
        (v matches RawValue::Object { start, len } ==> start + len <= f1.len() && distinct_names(
            f1,
            t1,
            start as int,
            len as int,
        )),
    ensures
        (v matches RawValue::Object { start, len } ==> distinct_names(
            f2,
            t2,
            start as int,
            len as int,
        )),
{
    if let RawValue::Object { start, len } = v {
        lemma_distinct_names_prefix(f1, t1, f2, t2, start as int, len as int);
    }
}

/// Growing the arena (text and reference table only) keeps the builder
/// invariant.
proof fn lemma_wf_grow(b1: Builder, b2: Builder)
    requires
        b1.wf(),
        b2.fields@ == b1.fields@,
        b2.items@ == b1.items@,
        seq_extends(b1.refs@, b2.refs@),
        seq_extends(b1.text@, b2.text@),
        forall|j: int|
            b1.refs@.len() <= j < b2.refs@.len() ==> ref_spans_wf(
                #[trigger] b2.refs@[j],
                b2.text@.len() as int,
            ),
    ensures
        b2.wf(),
{
    lemma_names_in_bounds(b1);
    assert forall|i: int| 0 <= i < b2.fields@.len() implies field_wf(
        #[trigger] b2.fields@[i],
        b2.fields@.len() as int,
        b2.items@.len() as int,
        b2.refs@.len() as int,
        b2.text@.len() as int,
    ) by {
        assert(field_wf(
            b1.fields@[i],
            b1.fields@.len() as int,
            b1.items@.len() as int,
            b1.refs@.len() as int,
            b1.text@.len() as int,
        ));
    }
    assert forall|i: int| 0 <= i < b2.items@.len() implies value_wf(
        #[trigger] b2.items@[i],
        b2.fields@.len() as int,
        b2.items@.len() as int,
        b2.refs@.len() as int,
        b2.text@.len() as int,
    ) by {
        assert(value_wf(
            b1.items@[i],
            b1.fields@.len() as int,
            b1.items@.len() as int,
            b1.refs@.len() as int,
            b1.text@.len() as int,
        ));
    }
    assert forall|i: int|
        0 <= i < b2.fields@.len() implies ((#[trigger] b2.fields@[i]).value
        matches RawValue::Object { start, len } ==> distinct_names(
        b2.fields@,
        b2.text@,
        start as int,
        len as int,
    )) by {
        assert(b2.fields@[i] == b1.fields@[i]);
        assert(field_wf(
            b1.fields@[i],
            b1.fields@.len() as int,
            b1.items@.len() as int,
            b1.refs@.len() as int,
            b1.text@.len() as int,
        ));
        lemma_one_obj_distinct(b1.fields@, b1.text@, b2.fields@, b2.text@, b2.fields@[i].value);
    }
    assert forall|i: int|
        0 <= i < b2.items@.len() implies ((#[trigger] b2.items@[i]) matches RawValue::Object {
        start,
        len,
    } ==> distinct_names(b2.fields@, b2.text@, start as int, len as int)) by {
        assert(b2.items@[i] == b1.items@[i]);
        assert(value_wf(
            b1.items@[i],
            b1.fields@.len() as int,
            b1.items@.len() as int,
            b1.refs@.len() as int,
            b1.text@.len() as int,
        ));
        lemma_one_obj_distinct(b1.fields@, b1.text@, b2.fields@, b2.text@, b2.items@[i]);
    }
}

/// Copies `src[start..start + len]` to the end of the text buffer and
/// returns the span it now occupies.
fn push_span(b: &mut Builder, src: &[u8], start: usize, len: usize) -> (r: (usize, usize))
    requires
        start + len <= src@.len(),
        old(b).wf(),
    ensures
        final(b).wf(),
        final(b).extends(*old(b)),
        final(b).fields@ == old(b).fields@,
        final(b).items@ == old(b).items@,
        final(b).refs@ == old(b).refs@,
        final(b).text@ == old(b).text@ + src@.subrange(start as int, start + len),
        r.0 == old(b).text@.len(),
        r.1 == len,
{
    let _n = src.len();
    let s = b.text.len();
    let mut k: usize = 0;
    while k < len
        invariant
            k <= len,
            start + len <= src@.len(),
            src@.len() <= usize::MAX,
            b.text@ == old(b).text@ + src@.subrange(start as int, start + k),
            b.fields@ == old(b).fields@,
            b.items@ == old(b).items@,
            b.refs@ == old(b).refs@,
        decreases len - k,
    {
        let byte = src[start + k];
        b.text.push(byte);
        proof {
            assert(old(b).text@ + src@.subrange(start as int, start + k + 1) =~= (old(b).text@
                + src@.subrange(start as int, start + k as int)).push(byte));
        }
        k = k + 1;
    }
    proof {
        lemma_wf_grow(*old(b), *b);
    }
    (s, len)
}

/// Appends already-unescaped string bytes to the text buffer and returns
/// the span they now occupy.
fn push_bytes(b: &mut Builder, bytes: &Vec<u8>) -> (r: (usize, usize))
    requires
        old(b).wf(),
    ensures
        final(b).wf(),
        final(b).extends(*old(b)),
        final(b).fields@ == old(b).fields@,
        final(b).items@ == old(b).items@,
        final(b).refs@ == old(b).refs@,
        final(b).text@ == old(b).text@ + bytes@,
        r.0 == old(b).text@.len(),
        r.1 == bytes@.len(),
{
    let s = b.text.len();
    let mut k: usize = 0;
    while k < bytes.len()
        invariant
            k <= bytes@.len(),
            b.text@ == old(b).text@ + bytes@.subrange(0, k as int),
            b.fields@ == old(b).fields@,
            b.items@ == old(b).items@,
            b.refs@ == old(b).refs@,
        decreases bytes@.len() - k,
    {
        let byte = bytes[k];
        b.text.push(byte);
        proof {
            assert(old(b).text@ + bytes@.subrange(0, k + 1) =~= (old(b).text@ + bytes@.subrange(
                0,
                k as int,
            )).push(byte));
        }
        k = k + 1;
    }
    proof {
        assert(bytes@.subrange(0, bytes@.len() as int) =~= bytes@);
        lemma_wf_grow(*old(b), *b);
    }
    (s, bytes.len())
}

/// Compares two spans of the text buffer for byte equality.
pub(crate) fn span_eq(text: &Vec<u8>, a: usize, al: usize, c: usize, cl: usize) -> (r: bool)
    requires
        a + al <= text@.len(),
        c + cl <= text@.len(),
    ensures
        r == (text@.subrange(a as int, a + al) == text@.subrange(c as int, c + cl)),
{
    let _n = text.len();
    if al != cl {
        proof {
            assert(text@.subrange(a as int, a + al).len() != text@.subrange(c as int, c + cl).len());
        }
        return false;
    }
    let mut k: usize = 0;
    while k < al
        invariant
            k <= al,
            al == cl,
            a + al <= text@.len(),
            c + cl <= text@.len(),
            text@.len() <= usize::MAX,
            forall|m: int| 0 <= m < k ==> #[trigger] text@[a + m] == text@[c + m],
        decreases al - k,
    {
        if text[a + k] != text[c + k] {
            proof {
                assert(text@.subrange(a as int, a + al)[k as int] != text@.subrange(
                    c as int,
                    c + cl,
                )[k as int]);
            }
            return false;
        }
        k = k + 1;
    }
    proof {
        assert forall|m: int| 0 <= m < al implies #[trigger] text@.subrange(a as int, a + al)[m]
            == text@.subrange(c as int, c + cl)[m] by {
            assert(text@[a + m] == text@[c + m]);
        }
        assert(text@.subrange(a as int, a + al) =~= text@.subrange(c as int, c + cl));
    }
    true
}

/// Does any field of the run share the name held at the given text span?
fn run_has_name(text: &Vec<u8>, run: &Vec<FieldRec>, ns: usize, nl: usize) -> (r: bool)
    requires
        ns + nl <= text@.len(),
        forall|i: int|
            0 <= i < run@.len() ==> (#[trigger] run@[i]).name_start + run@[i].name_len
                <= text@.len(),
    ensures
        r == (exists|i: int|
            0 <= i < run@.len() && name_of(run@, text@, i) == text@.subrange(
                ns as int,
                ns + nl,
            )),
{
    let mut i: usize = 0;
    while i < run.len()
        invariant
            i <= run@.len(),
            ns + nl <= text@.len(),
            forall|m: int|
                0 <= m < run@.len() ==> (#[trigger] run@[m]).name_start + run@[m].name_len
                    <= text@.len(),
            forall|m: int|
                0 <= m < i ==> name_of(run@, text@, m) != text@.subrange(ns as int, ns + nl),
        decreases run@.len() - i,
    {
        let f = &run[i];
        if span_eq(text, f.name_start, f.name_len, ns, nl) {
            proof {
                assert(name_of(run@, text@, i as int) == text@.subrange(ns as int, ns + nl));
            }
            return true;
        }
        i = i + 1;
    }
    false
}

/// Representation survives replacing the reference table by one with the
/// same length and the same recorded target names (as resolution does).
pub(crate) proof fn lemma_vrep_same_refs(
    fields: Seq<FieldRec>,
    items: Seq<RawValue>,
    r1: Seq<RefRec>,
    r2: Seq<RefRec>,
    text: Seq<u8>,
    rv: RawValue,
    v: SpecVal,
)
    requires
        r1.len() == r2.len(),
        forall|j: int|
            0 <= j < r1.len() ==> #[trigger] path_of(r2, text, j) == path_of(r1, text, j),
        vrep(fields, items, r1, text, rv, v),
    ensures
        vrep(fields, items, r2, text, rv, v),
    decreases v,
{
    match v {
        SpecVal::Obj(fs) => {
            if let RawValue::Object { start, len } = rv {
                assert forall|i: int| 0 <= i < fs.len() implies name_of(fields, text, start + i)
                    == (#[trigger] fs[i]).name && vrep(
                    fields,
                    items,
                    r2,
                    text,
                    fields[start + i].value,
                    fs[i].value,
                ) by {
                    lemma_vrep_same_refs(
                        fields,
                        items,
                        r1,
                        r2,
                        text,
                        fields[start + i].value,
                        fs[i].value,
                    );
                }
            }
        },
        SpecVal::Arr(vs) => {
            if let RawValue::Array { start, len } = rv {
                assert forall|i: int| 0 <= i < vs.len() implies vrep(
                    fields,
                    items,
                    r2,
                    text,
                    items[start + i],
                    #[trigger] vs[i],
                ) by {
                    lemma_vrep_same_refs(fields, items, r1, r2, text, items[start + i], vs[i]);
                }
            }
        },
        SpecVal::Ref(n) => {
            if let RawValue::Ref { occ } = rv {
                assert(path_of(r2, text, occ as int) == path_of(r1, text, occ as int));
            }
        },
        _ => {},
    }
}

/// A scalar denotation holds no reference.
proof fn lemma_scalar_no_refs(v: SpecVal)
    requires
        !(v is Obj),
        !(v is Arr),
        !(v is Ref),
    ensures
        forall|n: Seq<u8>| !#[trigger] v_has_ref(v, n),
{
    assert forall|n: Seq<u8>| !(#[trigger] v_has_ref(v, n)) by {}
}

/// Names and representations of a pending run survive growing the arena.
proof fn lemma_done_stable(b1: Builder, b2: Builder, run: Seq<FieldRec>, done: Seq<SpecField>)
    requires
        b1.wf(),
        b2.extends(b1),
        done.len() == run.len(),
        forall|i: int| 0 <= i < run.len() ==> bfield_wf(b1, #[trigger] run[i]),
        forall|i: int|
            0 <= i < done.len() ==> name_of(run, b1.text@, i) == (#[trigger] done[i]).name,
        forall|i: int|
            0 <= i < done.len() ==> vrep(
                b1.fields@,
                b1.items@,
                b1.refs@,
                b1.text@,
                run[i].value,
                (#[trigger] done[i]).value,
            ),
    ensures
        forall|i: int|
            0 <= i < done.len() ==> name_of(run, b2.text@, i) == (#[trigger] done[i]).name,
        forall|i: int|
            0 <= i < done.len() ==> vrep(
                b2.fields@,
                b2.items@,
                b2.refs@,
                b2.text@,
                run[i].value,
                (#[trigger] done[i]).value,
            ),
{
    assert forall|i: int|
        0 <= i < done.len() implies name_of(run, b2.text@, i) == (#[trigger] done[i]).name && vrep(
        b2.fields@,
        b2.items@,
        b2.refs@,
        b2.text@,
        run[i].value,
        done[i].value,
    ) by {
        assert(bfield_wf(b1, run[i]));
        lemma_prefix_subrange(
            b1.text@,
            b2.text@,
            run[i].name_start as int,
            run[i].name_start + run[i].name_len,
        );
        assert(name_of(run, b1.text@, i) == done[i].name);
        lemma_vrep_grow(b1, b2, run[i].value, done[i].value);
    }
}

/// Representations of pending items survive growing the arena.
proof fn lemma_ditems_stable(b1: Builder, b2: Builder, vals: Seq<RawValue>, ditems: Seq<SpecVal>)
    requires
        b1.wf(),
        b2.extends(b1),
        ditems.len() == vals.len(),
        forall|i: int|
            0 <= i < ditems.len() ==> vrep(
                b1.fields@,
                b1.items@,
                b1.refs@,
                b1.text@,
                vals[i],
                #[trigger] ditems[i],
            ),
    ensures
        forall|i: int|
            0 <= i < ditems.len() ==> vrep(
                b2.fields@,
                b2.items@,
                b2.refs@,
                b2.text@,
                vals[i],
                #[trigger] ditems[i],
            ),
{
    assert forall|i: int|
        0 <= i < ditems.len() implies vrep(
        b2.fields@,
        b2.items@,
        b2.refs@,
        b2.text@,
        vals[i],
        #[trigger] ditems[i],
    ) by {
        lemma_vrep_grow(b1, b2, vals[i], ditems[i]);
    }
}

/// A field-list bridge survives growth that records no new reference.
proof fn lemma_fs_bridge_stable(b1: Builder, b2: Builder, done: Seq<SpecField>, n0: int)
    requires
        b1.wf(),
        b2.extends(b1),
        b2.refs@.len() == b1.refs@.len(),
        0 <= n0 <= b1.refs@.len(),
        fs_refs_bridge(n0, b1.refs@, b1.text@, done),
    ensures
        fs_refs_bridge(n0, b2.refs@, b2.text@, done),
{
    lemma_paths_stable(b1, b2);
    assert forall|j: int|
        n0 <= j < b2.refs@.len() implies fs_has_ref(done, #[trigger] path_of(
        b2.refs@,
        b2.text@,
        j,
    )) by {
        assert(path_of(b2.refs@, b2.text@, j) == path_of(b1.refs@, b1.text@, j));
    }
    assert forall|n: Seq<u8>| #[trigger] fs_has_ref(done, n) implies exists|j: int|
        n0 <= j < b2.refs@.len() && path_of(b2.refs@, b2.text@, j) == n by {
        let j = choose|j: int|
            n0 <= j < b1.refs@.len() && #[trigger] path_of(b1.refs@, b1.text@, j) == n;
        assert(path_of(b2.refs@, b2.text@, j) == n);
    }
}

/// Appending a parsed field extends the bridge by the value's references.
proof fn lemma_fs_bridge_push(
    bv: Builder,
    bn: Builder,
    done: Seq<SpecField>,
    f: SpecField,
    n0: int,
)
    requires
        bv.wf(),
        bn.extends(bv),
        0 <= n0 <= bv.refs@.len(),
        fs_refs_bridge(n0, bv.refs@, bv.text@, done),
        v_refs_bridge(bv.refs@.len() as int, bn.refs@, bn.text@, f.value),
    ensures
        fs_refs_bridge(n0, bn.refs@, bn.text@, done.push(f)),
{
    lemma_paths_stable(bv, bn);
    let done2 = done.push(f);
    assert(done2.len() == done.len() + 1);
    assert forall|i: int| 0 <= i < done.len() implies #[trigger] done2[i] == done[i] by {}
    assert forall|j: int|
        n0 <= j < bn.refs@.len() implies fs_has_ref(done2, #[trigger] path_of(
        bn.refs@,
        bn.text@,
        j,
    )) by {
        if j < bv.refs@.len() {
            assert(path_of(bn.refs@, bn.text@, j) == path_of(bv.refs@, bv.text@, j));
            assert(fs_has_ref(done, path_of(bv.refs@, bv.text@, j)));
            let i = choose|i: int|
                0 <= i < done.len() && v_has_ref(
                    (#[trigger] done[i]).value,
                    path_of(bv.refs@, bv.text@, j),
                );
            assert(done2[i] == done[i]);
            assert(v_has_ref(done2[i].value, path_of(bn.refs@, bn.text@, j)));
        } else {
            assert(v_has_ref(f.value, path_of(bn.refs@, bn.text@, j)));
            assert(done2[done.len() as int] == f);
            assert(v_has_ref(done2[done.len() as int].value, path_of(bn.refs@, bn.text@, j)));
        }
    }
    assert forall|n: Seq<u8>| #[trigger] fs_has_ref(done2, n) implies exists|j: int|
        n0 <= j < bn.refs@.len() && path_of(bn.refs@, bn.text@, j) == n by {
        let i = choose|i: int| 0 <= i < done2.len() && v_has_ref((#[trigger] done2[i]).value, n);
        if i < done.len() {
            assert(done2[i] == done[i]);
            assert(v_has_ref(done[i].value, n));
            assert(fs_has_ref(done, n));
            let j = choose|j: int|
                n0 <= j < bv.refs@.len() && #[trigger] path_of(bv.refs@, bv.text@, j) == n;
            assert(path_of(bn.refs@, bn.text@, j) == n);
        } else {
            assert(done2[i] == f);
            assert(v_has_ref(f.value, n));
            let j = choose|j: int|
                bv.refs@.len() <= j < bn.refs@.len() && path_of(bn.refs@, bn.text@, j) == n;
            assert(path_of(bn.refs@, bn.text@, j) == n);
        }
    }
}

/// An item-list bridge survives growth that records no new reference, and
/// extends by a parsed item's references.
proof fn lemma_vs_bridge_push(bv: Builder, bn: Builder, ditems: Seq<SpecVal>, v: SpecVal, n0: int)
    requires
        bv.wf(),
        bn.extends(bv),
        0 <= n0 <= bv.refs@.len(),
        vs_refs_bridge(n0, bv.refs@, bv.text@, ditems),
        v_refs_bridge(bv.refs@.len() as int, bn.refs@, bn.text@, v),
    ensures
        vs_refs_bridge(n0, bn.refs@, bn.text@, ditems.push(v)),
{
    lemma_paths_stable(bv, bn);
    let d2 = ditems.push(v);
    assert(d2.len() == ditems.len() + 1);
    assert forall|i: int| 0 <= i < ditems.len() implies #[trigger] d2[i] == ditems[i] by {}
    assert forall|j: int|
        n0 <= j < bn.refs@.len() implies vs_has_ref(d2, #[trigger] path_of(
        bn.refs@,
        bn.text@,
        j,
    )) by {
        if j < bv.refs@.len() {
            assert(path_of(bn.refs@, bn.text@, j) == path_of(bv.refs@, bv.text@, j));
            assert(vs_has_ref(ditems, path_of(bv.refs@, bv.text@, j)));
            let i = choose|i: int|
                0 <= i < ditems.len() && v_has_ref(
                    #[trigger] ditems[i],
                    path_of(bv.refs@, bv.text@, j),
                );
            assert(d2[i] == ditems[i]);
            assert(v_has_ref(d2[i], path_of(bn.refs@, bn.text@, j)));
        } else {
            assert(v_has_ref(v, path_of(bn.refs@, bn.text@, j)));
            assert(d2[ditems.len() as int] == v);
            assert(v_has_ref(d2[ditems.len() as int], path_of(bn.refs@, bn.text@, j)));
        }
    }
    assert forall|n: Seq<u8>| #[trigger] vs_has_ref(d2, n) implies exists|j: int|
        n0 <= j < bn.refs@.len() && path_of(bn.refs@, bn.text@, j) == n by {
        let i = choose|i: int| 0 <= i < d2.len() && v_has_ref(#[trigger] d2[i], n);
        if i < ditems.len() {
            assert(d2[i] == ditems[i]);
            assert(v_has_ref(ditems[i], n));
            assert(vs_has_ref(ditems, n));
            let j = choose|j: int|
                n0 <= j < bv.refs@.len() && #[trigger] path_of(bv.refs@, bv.text@, j) == n;
            assert(path_of(bn.refs@, bn.text@, j) == n);
        } else {
            assert(d2[i] == v);
            assert(v_has_ref(v, n));
            let j = choose|j: int|
                bv.refs@.len() <= j < bn.refs@.len() && path_of(bn.refs@, bn.text@, j) == n;
            assert(path_of(bn.refs@, bn.text@, j) == n);
        }
    }
}

/// Parses one value whose first token starts at or after `pos`. The
/// occurrence identity (`oname_*`, `oindex`) is recorded for a reference
/// value: the name and position under which the value sits in its container.
/// The contract pins the outcome completely for every token that does not
/// open a container — scalars with their exact values and payload bytes,
/// references with the recorded target name, and each error with its kind —
/// and pins a container's depth bound and its empty and truncated openings.
#[verifier::rlimit(100)]
pub(crate) fn parse_value(
    src: &[u8],
    pos: usize,
    depth: usize,
    oname_start: usize,
    oname_len: usize,
    oindex: usize,
    b: &mut Builder,
) -> (r: Result<(RawValue, usize), MochaError>)
    requires
        pos <= src@.len(),
        depth <= pos,
        old(b).wf(),
        oname_start + oname_len <= old(b).text@.len(),
    ensures
        final(b).wf(),
        final(b).extends(*old(b)),
        (r matches Ok(vp) ==> pos < vp.1 <= src@.len() && bval_wf(*final(b), vp.0)
            && bval_distinct(*final(b), vp.0)),
        (r matches Err(e) && e == MochaError::Overflow ==> (exists|a: int|
            0 <= a < src@.len() && #[trigger] int_literal_at(src@, a) && !int_fits(src@, a))
            || src@.len() >= MAX_DEPTH),
        (r matches Err(e) && e == MochaError::InvalidCharacter ==> bad_byte(
            src@,
            pos as int,
            src@.len() as int,
        )),
        (spec_next_token(src@, pos as int) matches Err(e2) ==> r == Err::<
            (RawValue, usize),
            MochaError,
        >(e2)),
        (spec_next_token(src@, pos as int) matches Ok(tp) ==> {
            &&& (tp.0 is Nil ==> (r matches Ok(vp) && vp.0 is Nil && vp.1 == tp.1))
            &&& (tp.0 is True ==> (r matches Ok(vp) && (vp.0 matches RawValue::Bool(x) && x
                == true) && vp.1 == tp.1))
            &&& (tp.0 is False ==> (r matches Ok(vp) && (vp.0 matches RawValue::Bool(x) && x
                == false) && vp.1 == tp.1))
            &&& (tp.0 matches Lexeme::Int { v } ==> (r matches Ok(vp) && (vp.0
                matches RawValue::Int(w) && w as int == v) && vp.1 == tp.1))
            &&& (tp.0 matches Lexeme::FloatLit { start, len } ==> (r matches Ok(vp) && (vp.0
                matches RawValue::Float { start: fs, len: fl } && final(b).text@.subrange(
                fs as int,
                fs + fl,
            ) == src@.subrange(start, start + len)) && vp.1 == tp.1))
            &&& (tp.0 matches Lexeme::Str { bytes } ==> (r matches Ok(vp) && (vp.0
                matches RawValue::Str { start: ss, len: sl } && final(b).text@.subrange(
                ss as int,
                ss + sl,
            ) == bytes) && vp.1 == tp.1))
            &&& (tp.0 is Eof ==> r == Err::<(RawValue, usize), MochaError>(
                MochaError::EndOfStream,
            ))
            &&& (tp.0 is RBrace || tp.0 is RBrack || tp.0 is Colon || tp.0 is Comma ==> r
                == Err::<(RawValue, usize), MochaError>(MochaError::UnexpectedToken))
            &&& (tp.0 is At ==> (spec_next_token(src@, tp.1) matches Err(e3) ==> r == Err::<
                (RawValue, usize),
                MochaError,
            >(e3)))
            &&& (tp.0 is At ==> (spec_next_token(src@, tp.1) matches Ok(tp2) ==> {
                &&& (tp2.0 matches Lexeme::Ident { start, len } ==> (r matches Ok(vp) && (vp.0
                    matches RawValue::Ref { occ } && occ == old(b).refs@.len()
                    && final(b).refs@.len() == old(b).refs@.len() + 1 && path_of(
                    final(b).refs@,
                    final(b).text@,
                    occ as int,
                ) == src@.subrange(start, start + len) && final(b).refs@[occ as int].index
                    == oindex) && vp.1 == tp2.1))
                &&& (tp2.0 is Eof ==> r == Err::<(RawValue, usize), MochaError>(
                    MochaError::EndOfStream,
                ))
                &&& (!(tp2.0 is Ident) && !(tp2.0 is Eof) ==> r == Err::<
                    (RawValue, usize),
                    MochaError,
                >(MochaError::RootReference))
            }))
            &&& (tp.0 is LBrace || tp.0 is LBrack ==> (depth >= MAX_DEPTH ==> r == Err::<
                (RawValue, usize),
                MochaError,
            >(MochaError::Overflow)))
            &&& (tp.0 is LBrace ==> (depth < MAX_DEPTH ==> (spec_next_token(
                src@,
                tp.1,
            ) matches Ok(tp2) ==> {
                &&& (tp2.0 is Eof ==> r == Err::<(RawValue, usize), MochaError>(
                    MochaError::EndOfStream,
                ))
                &&& (tp2.0 is RBrace ==> (r matches Ok(vp) && (vp.0 matches RawValue::Object {
                    start: os,
                    len: ol,
                } && ol == 0) && vp.1 == tp2.1))
            })))
            &&& (tp.0 is LBrack ==> (depth < MAX_DEPTH ==> (spec_next_token(
                src@,
                tp.1,
            ) matches Ok(tp2) ==> {
                &&& (tp2.0 is Eof ==> r == Err::<(RawValue, usize), MochaError>(
                    MochaError::EndOfStream,
                ))
                &&& (tp2.0 is RBrack ==> (r matches Ok(vp) && (vp.0 matches RawValue::Array {
                    start: as_,
                    len: al,
                } && al == 0) && vp.1 == tp2.1))
            })))
        }),
        (match spec_value(src@, pos as int, depth as int) {
            Err(e) => r == Err::<(RawValue, usize), MochaError>(e),
            Ok(svp) => (r matches Ok(vp) && vp.1 == svp.1 && vrep(
                final(b).fields@,
                final(b).items@,
                final(b).refs@,
                final(b).text@,
                vp.0,
                svp.0,
            ) && v_refs_bridge(
                old(b).refs@.len() as int,
                final(b).refs@,
                final(b).text@,
                svp.0,
            )),
        }),
    decreases src@.len() - pos, 1int,
{
    let _n = src.len();
    let (t, p) = match next_token(src, pos) {
        Ok(tp) => tp,
        Err(e) => {
            return Err(e);
        },
    };
    match t {
        Token::Nil => {
            proof {
                lemma_scalar_no_refs(SpecVal::Nil);
            }
            Ok((RawValue::Nil, p))
        },
        Token::True => {
            proof {
                lemma_scalar_no_refs(SpecVal::Bool(true));
            }
            Ok((RawValue::Bool(true), p))
        },
        Token::False => {
            proof {
                lemma_scalar_no_refs(SpecVal::Bool(false));
            }
            Ok((RawValue::Bool(false), p))
        },
        Token::Int { v } => {
            proof {
                lemma_scalar_no_refs(SpecVal::Int(v as int));
            }
            Ok((RawValue::Int(v), p))
        },
        Token::FloatLit { start, len } => {
            let (s, l) = push_span(b, src, start, len);
            proof {
                assert(b.text@.subrange(s as int, s + l) =~= src@.subrange(
                    start as int,
                    start + len,
                ));
                lemma_scalar_no_refs(SpecVal::Float(src@.subrange(start as int, start + len)));
                if let Ok(svp) = spec_value(src@, pos as int, depth as int) {
                    assert(svp.0 == SpecVal::Float(src@.subrange(start as int, start + len)));
                }
            }
            Ok((RawValue::Float { start: s, len: l }, p))
        },
        Token::Str { bytes } => {
            let (s, l) = push_bytes(b, &bytes);
            proof {
                assert(b.text@.subrange(s as int, s + l) =~= bytes@);
                lemma_scalar_no_refs(SpecVal::Str(bytes@));
                if let Ok(svp) = spec_value(src@, pos as int, depth as int) {
                    assert(svp.0 == SpecVal::Str(bytes@));
                }
            }
            Ok((RawValue::Str { start: s, len: l }, p))
        },
        Token::LBrace => {
            if depth >= MAX_DEPTH {
                return Err(MochaError::Overflow);
            }
            match parse_object(src, p, depth + 1, b) {
                Ok((s, l, p2)) => {
                    proof {
                        if let Ok(fsp) = spec_fields(
                            src@,
                            p as int,
                            depth as int + 1,
                            Seq::<Seq<u8>>::empty(),
                            false,
                        ) {
                            assert forall|n: Seq<u8>| #[trigger] v_has_ref(
                                SpecVal::Obj(fsp.0),
                                n,
                            ) implies exists|j: int|
                                old(b).refs@.len() <= j < b.refs@.len() && path_of(
                                    b.refs@,
                                    b.text@,
                                    j,
                                ) == n by {
                                assert(fs_has_ref(fsp.0, n));
                            }
                            assert forall|j: int|
                                old(b).refs@.len() <= j < b.refs@.len() implies v_has_ref(
                                SpecVal::Obj(fsp.0),
                                #[trigger] path_of(b.refs@, b.text@, j),
                            ) by {
                                assert(fs_has_ref(fsp.0, path_of(b.refs@, b.text@, j)));
                            }
                            assert(vrep(
                                b.fields@,
                                b.items@,
                                b.refs@,
                                b.text@,
                                RawValue::Object { start: s, len: l },
                                SpecVal::Obj(fsp.0),
                            ));
                        }
                    }
                    Ok((RawValue::Object { start: s, len: l }, p2))
                },
                Err(e) => Err(e),
            }
        },
        Token::LBrack => {
            if depth >= MAX_DEPTH {
                return Err(MochaError::Overflow);
            }
            match parse_array(src, p, depth + 1, b) {
                Ok((s, l, p2)) => {
                    proof {
                        if let Ok(vsp) = spec_items(src@, p as int, depth as int + 1, false) {
                            assert forall|n: Seq<u8>| #[trigger] v_has_ref(
                                SpecVal::Arr(vsp.0),
                                n,
                            ) implies exists|j: int|
                                old(b).refs@.len() <= j < b.refs@.len() && path_of(
                                    b.refs@,
                                    b.text@,
                                    j,
                                ) == n by {
                                assert(vs_has_ref(vsp.0, n));
                            }
                            assert forall|j: int|
                                old(b).refs@.len() <= j < b.refs@.len() implies v_has_ref(
                                SpecVal::Arr(vsp.0),
                                #[trigger] path_of(b.refs@, b.text@, j),
                            ) by {
                                assert(vs_has_ref(vsp.0, path_of(b.refs@, b.text@, j)));
                            }
                            assert(vrep(
                                b.fields@,
                                b.items@,
                                b.refs@,
                                b.text@,
                                RawValue::Array { start: s, len: l },
                                SpecVal::Arr(vsp.0),
                            ));
                        }
                    }
                    Ok((RawValue::Array { start: s, len: l }, p2))
                },
                Err(e) => Err(e),
            }
        },
        Token::At => {
            let (t2, p2) = match next_token(src, p) {
                Ok(tp) => tp,
                Err(e) => {
                    return Err(e);
                },
            };
            match t2 {
                Token::Ident { start, len } => {
                    let (ps, pl) = push_span(b, src, start, len);
                    let occ = b.refs.len();
                    let rec = RefRec {
                        path_start: ps,
                        path_len: pl,
                        name_start: oname_start,
                        name_len: oname_len,
                        index: oindex,
                        child: 0,
                        next: 0,
                    };
                    let ghost b1 = *b;
                    b.refs.push(rec);
                    proof {
                        lemma_wf_grow(b1, *b);
                        assert(b.text@.subrange(ps as int, ps + pl) =~= src@.subrange(
                            start as int,
                            start + len,
                        ));
                        assert(path_of(b.refs@, b.text@, occ as int) == b.text@.subrange(
                            ps as int,
                            ps + pl,
                        ));
                        let ghost spath = src@.subrange(start as int, start + len as int);
                        assert forall|n: Seq<u8>| #[trigger] v_has_ref(
                            SpecVal::Ref(spath),
                            n,
                        ) implies exists|j: int|
                            old(b).refs@.len() <= j < b.refs@.len() && path_of(
                                b.refs@,
                                b.text@,
                                j,
                            ) == n by {
                            assert(n == spath);
                            assert(path_of(b.refs@, b.text@, occ as int) == n);
                        }
                        assert forall|j: int|
                            old(b).refs@.len() <= j < b.refs@.len() implies v_has_ref(
                            SpecVal::Ref(spath),
                            #[trigger] path_of(b.refs@, b.text@, j),
                        ) by {
                            assert(j == occ as int);
                        }
                    }
                    Ok((RawValue::Ref { occ }, p2))
                },
                Token::Eof => Err(MochaError::EndOfStream),
                _ => Err(MochaError::RootReference),
            }
        },
        Token::Eof => Err(MochaError::EndOfStream),
        _ => Err(MochaError::UnexpectedToken),
    }
}

/// Parses an object body after its opening brace; on success returns the
/// run of its fields, appended to the arena as one contiguous block, with
/// pairwise-distinct names, and the position after the closing brace.
/// A repeated field name fails with `DuplicateField`; input ending before
/// the closing brace fails with `EndOfStream`.
#[verifier::rlimit(100)]
pub(crate) fn parse_object(src: &[u8], pos: usize, depth: usize, b: &mut Builder) -> (r: Result<
    (usize, usize, usize),
    MochaError,
>)
    requires
        pos <= src@.len(),
        depth <= pos,
        old(b).wf(),
    ensures
        final(b).wf(),
        final(b).extends(*old(b)),
        (r matches Ok(slp) ==> pos < slp.2 <= src@.len() && slp.0 + slp.1
            <= final(b).fields@.len() && distinct_names(
            final(b).fields@,
            final(b).text@,
            slp.0 as int,
            slp.1 as int,
        )),
        (r matches Err(e) && e == MochaError::Overflow ==> (exists|a: int|
            0 <= a < src@.len() && #[trigger] int_literal_at(src@, a) && !int_fits(src@, a))
            || src@.len() >= MAX_DEPTH),
        (r matches Err(e) && e == MochaError::InvalidCharacter ==> bad_byte(
            src@,
            pos as int,
            src@.len() as int,
        )),
        (spec_next_token(src@, pos as int) matches Ok(tp) && tp.0 is Eof ==> r == Err::<
            (usize, usize, usize),
            MochaError,
        >(MochaError::EndOfStream)),
        (spec_next_token(src@, pos as int) matches Ok(tp) ==> (tp.0 is RBrace ==> (r matches Ok(
            slp,
        ) && slp.1 == 0 && slp.2 == tp.1 && final(b).fields@ == old(b).fields@ && final(b).items@
            == old(b).items@ && final(b).refs@ == old(b).refs@ && final(b).text@
            == old(b).text@))),
        (spec_next_token(src@, pos as int) matches Ok(tp) ==> (!(tp.0 is RBrace) && !(tp.0 is Eof)
            && !(tp.0 is Ident) ==> r == Err::<(usize, usize, usize), MochaError>(
            MochaError::UnexpectedToken,
        ))),
        (match spec_fields(src@, pos as int, depth as int, Seq::<Seq<u8>>::empty(), false) {
            Err(e) => r == Err::<(usize, usize, usize), MochaError>(e),
            Ok(fsp) => (r matches Ok(slp) && slp.2 == fsp.1 && slp.1 == fsp.0.len() && obj_rep(
                *final(b),
                slp.0 as int,
                fsp.0,
            ) && fs_refs_bridge(
                old(b).refs@.len() as int,
                final(b).refs@,
                final(b).text@,
                fsp.0,
            )),
        }),
    decreases src@.len() - pos, 2int,
{
    let _n = src.len();
    let mut run: Vec<FieldRec> = Vec::new();
    let mut cur = pos;
    let mut sep_ok = false;
    let ghost mut done: Seq<SpecField> = Seq::empty();
    proof {
        assert(names_of_fields(done) =~= Seq::<Seq<u8>>::empty());
        if let Ok(rp) = spec_fields(src@, pos as int, depth as int, Seq::<Seq<u8>>::empty(), false) {
            assert(done + rp.0 =~= rp.0);
        }
    }
    loop
        invariant
            pos <= cur <= src@.len(),
            depth <= pos,
            b.wf(),
            b.extends(*old(b)),
            forall|i: int| 0 <= i < run@.len() ==> bfield_wf(*b, #[trigger] run@[i]),
            forall|i: int| 0 <= i < run@.len() ==> bval_distinct(*b, (#[trigger] run@[i]).value),
            distinct_names(run@, b.text@, 0, run@.len() as int),
            !tok_at_is_ident(src@, pos as int) ==> cur == pos,
            cur == pos ==> run@.len() == 0 && *b == *old(b) && sep_ok == false,
            done.len() == run@.len(),
            forall|i: int|
                0 <= i < done.len() ==> name_of(run@, b.text@, i) == (#[trigger] done[i]).name,
            forall|i: int|
                0 <= i < done.len() ==> vrep(
                    b.fields@,
                    b.items@,
                    b.refs@,
                    b.text@,
                    run@[i].value,
                    (#[trigger] done[i]).value,
                ),
            fs_refs_bridge(old(b).refs@.len() as int, b.refs@, b.text@, done),
            spec_fields(src@, pos as int, depth as int, Seq::<Seq<u8>>::empty(), false) == (
            match spec_fields(src@, cur as int, depth as int, names_of_fields(done), sep_ok) {
                Err(e) => Err::<(Seq<SpecField>, int), MochaError>(e),
                Ok(rp) => Ok::<(Seq<SpecField>, int), MochaError>((done + rp.0, rp.1)),
            }),
        decreases src@.len() - cur,
    {
        let (t, p) = match next_token(src, cur) {
            Ok(tp) => tp,
            Err(e) => {
                return Err(e);
            },
        };
        match t {
            Token::RBrace => {
                let start = b.fields.len();
                let ghost b1 = *b;
                let mut i: usize = 0;
                while i < run.len()
                    invariant
                        i <= run@.len(),
                        b.fields@ == b1.fields@ + run@.subrange(0, i as int),
                        b.items@ == b1.items@,
                        b.refs@ == b1.refs@,
                        b.text@ == b1.text@,
                        b1.wf(),
                        forall|m: int| 0 <= m < run@.len() ==> bfield_wf(b1, #[trigger] run@[m]),
                        forall|m: int|
                            0 <= m < run@.len() ==> bval_distinct(b1, (#[trigger] run@[m]).value),
                        distinct_names(run@, b1.text@, 0, run@.len() as int),
                        start == b1.fields@.len(),
                    decreases run@.len() - i,
                {
                    let rec = run[i];
                    b.fields.push(rec);
                    proof {
                        assert(b1.fields@ + run@.subrange(0, i + 1) =~= (b1.fields@
                            + run@.subrange(0, i as int)).push(rec));
                    }
                    i = i + 1;
                }
                proof {
                    assert(b.fields@ == b1.fields@ + run@.subrange(0, run@.len() as int));
                    assert(run@.subrange(0, run@.len() as int) =~= run@);
                    lemma_append_run(b1, *b, run@);
                    if cur == pos {
                        assert(b.fields@ =~= b1.fields@);
                    }
                    assert(done + Seq::<SpecField>::empty() =~= done);
                    assert forall|i2: int| 0 <= i2 < done.len() implies name_of(
                        b.fields@,
                        b.text@,
                        start + i2,
                    ) == (#[trigger] done[i2]).name && vrep(
                        b.fields@,
                        b.items@,
                        b.refs@,
                        b.text@,
                        b.fields@[start + i2].value,
                        done[i2].value,
                    ) by {
                        assert(b.fields@[start + i2] == run@[i2]);
                        assert(name_of(run@, b1.text@, i2) == done[i2].name);
                        lemma_vrep_grow(b1, *b, run@[i2].value, done[i2].value);
                    }
                }
                return Ok((start, run.len(), p));
            },
            Token::Eof => {
                return Err(MochaError::EndOfStream);
            },
            Token::Comma => {
                if sep_ok {
                    proof {
                        assert(spec_fields(
                            src@,
                            cur as int,
                            depth as int,
                            names_of_fields(done),
                            true,
                        ) == spec_fields(src@, p as int, depth as int, names_of_fields(done), false));
                    }
                    sep_ok = false;
                    cur = p;
                } else {
                    return Err(MochaError::UnexpectedToken);
                }
            },
            Token::Ident { start, len } => {
                let ghost b0 = *b;
                let ghost n0 = old(b).refs@.len() as int;
                let ghost specname = src@.subrange(start as int, start + len as int);
                let (ns, nl) = push_span(b, src, start, len);
                proof {
                    lemma_run_stable(b0, *b, run@);
                    lemma_done_stable(b0, *b, run@, done);
                    lemma_fs_bridge_stable(b0, *b, done, n0);
                    assert(b.text@.subrange(ns as int, ns + nl) =~= specname);
                }
                let dup = run_has_name(&b.text, &run, ns, nl);
                proof {
                    if dup {
                        let i = choose|i: int|
                            0 <= i < run@.len() && name_of(run@, b.text@, i) == b.text@.subrange(
                                ns as int,
                                ns + nl,
                            );
                        assert(names_of_fields(done)[i] == done[i].name);
                        assert(names_of_fields(done).contains(specname));
                    }
                    if names_of_fields(done).contains(specname) {
                        let i = choose|i: int|
                            0 <= i < names_of_fields(done).len() && names_of_fields(done)[i]
                                == specname;
                        assert(done[i].name == specname);
                        assert(name_of(run@, b.text@, i) == b.text@.subrange(ns as int, ns + nl));
                    }
                    assert(dup == names_of_fields(done).contains(specname));
                }
                if dup {
                    return Err(MochaError::DuplicateField);
                }
                let (t2, p2) = match next_token(src, p) {
                    Ok(tp) => tp,
                    Err(e) => {
                        return Err(e);
                    },
                };
                match t2 {
                    Token::Colon => {},
                    Token::Eof => {
                        return Err(MochaError::EndOfStream);
                    },
                    _ => {
                        return Err(MochaError::UnexpectedToken);
                    },
                }
                let ghost b2 = *b;
                let vp = match parse_value(src, p2, depth, ns, nl, run.len(), b) {
                    Ok(vp) => vp,
                    Err(e) => {
                        return Err(e);
                    },
                };
                let ghost sv = spec_value(src@, p2 as int, depth as int)->Ok_0.0;
                proof {
                    lemma_run_stable(b2, *b, run@);
                    lemma_done_stable(b2, *b, run@, done);
                    lemma_prefix_subrange(b2.text@, b.text@, ns as int, ns + nl);
                    assert forall|m: int| 0 <= m < run@.len() implies name_of(run@, b.text@, m)
                        != b.text@.subrange(ns as int, ns + nl) by {
                        assert(bfield_wf(b2, run@[m]));
                        lemma_prefix_subrange(
                            b2.text@,
                            b.text@,
                            run@[m].name_start as int,
                            run@[m].name_start + run@[m].name_len,
                        );
                        assert(name_of(run@, b2.text@, m) != b2.text@.subrange(ns as int, ns + nl));
                    }
                    lemma_fs_bridge_push(
                        b2,
                        *b,
                        done,
                        SpecField { name: specname, value: sv },
                        n0,
                    );
                }
                let ghost old_run = run@;
                let ghost old_done = done;
                run.push(FieldRec { name_start: ns, name_len: nl, value: vp.0 });
                proof {
                    lemma_run_push(old_run, b.text@, ns as int, nl as int);
                    done = old_done.push(SpecField { name: specname, value: sv });
                    assert(names_of_fields(done) =~= names_of_fields(old_done).push(specname));
                    if let Ok(rp) = spec_fields(
                        src@,
                        vp.1 as int,
                        depth as int,
                        names_of_fields(old_done).push(specname),
                        true,
                    ) {
                        assert(old_done + (seq![SpecField { name: specname, value: sv }] + rp.0)
                            =~= done + rp.0);
                    }
                    assert(run@[old_done.len() as int].name_start == ns);
                    assert(name_of(run@, b.text@, old_done.len() as int) == specname);
                }
                sep_ok = true;
                cur = vp.1;
            },
            _ => {
                return Err(MochaError::UnexpectedToken);
            },
        }
    }
}

/// Parses an array body after its opening bracket; on success returns the
/// run of its items, appended to the arena as one contiguous block, and the
/// position after the closing bracket.
#[verifier::rlimit(100)]
pub(crate) fn parse_array(src: &[u8], pos: usize, depth: usize, b: &mut Builder) -> (r: Result<
    (usize, usize, usize),
    MochaError,
>)
    requires
        pos <= src@.len(),
        depth <= pos,
        old(b).wf(),
    ensures
        final(b).wf(),
        final(b).extends(*old(b)),
        (r matches Ok(slp) ==> pos < slp.2 <= src@.len() && slp.0 + slp.1
            <= final(b).items@.len()),
        (r matches Err(e) && e == MochaError::Overflow ==> (exists|a: int|
            0 <= a < src@.len() && #[trigger] int_literal_at(src@, a) && !int_fits(src@, a))
            || src@.len() >= MAX_DEPTH),
        (r matches Err(e) && e == MochaError::InvalidCharacter ==> bad_byte(
            src@,
            pos as int,
            src@.len() as int,
        )),
        (spec_next_token(src@, pos as int) matches Ok(tp) && tp.0 is Eof ==> r == Err::<
            (usize, usize, usize),
            MochaError,
        >(MochaError::EndOfStream)),
        (spec_next_token(src@, pos as int) matches Ok(tp) ==> (tp.0 is RBrack ==> (r matches Ok(
            slp,
        ) && slp.1 == 0 && slp.2 == tp.1 && final(b).fields@ == old(b).fields@ && final(b).items@
            == old(b).items@ && final(b).refs@ == old(b).refs@ && final(b).text@
            == old(b).text@))),
        (spec_next_token(src@, pos as int) matches Ok(tp) ==> (tp.0 is Comma ==> r == Err::<
            (usize, usize, usize),
            MochaError,
        >(MochaError::UnexpectedToken))),
        (match spec_items(src@, pos as int, depth as int, false) {
            Err(e) => r == Err::<(usize, usize, usize), MochaError>(e),
            Ok(vsp) => (r matches Ok(slp) && slp.2 == vsp.1 && slp.1 == vsp.0.len() && arr_rep(
                *final(b),
                slp.0 as int,
                vsp.0,
            ) && vs_refs_bridge(
                old(b).refs@.len() as int,
                final(b).refs@,
                final(b).text@,
                vsp.0,
            )),
        }),
    decreases src@.len() - pos, 2int,
{
    let _n = src.len();
    let mut vals: Vec<RawValue> = Vec::new();
    let mut cur = pos;
    let mut sep_ok = false;
    let ghost mut ditems: Seq<SpecVal> = Seq::empty();
    proof {
        if let Ok(rp) = spec_items(src@, pos as int, depth as int, false) {
            assert(ditems + rp.0 =~= rp.0);
        }
    }
    loop
        invariant
            pos <= cur <= src@.len(),
            depth <= pos,
            b.wf(),
            b.extends(*old(b)),
            forall|i: int| 0 <= i < vals@.len() ==> bval_wf(*b, #[trigger] vals@[i]),
            forall|i: int| 0 <= i < vals@.len() ==> bval_distinct(*b, #[trigger] vals@[i]),
            !tok_at_starts_item(src@, pos as int) ==> cur == pos,
            cur == pos ==> vals@.len() == 0 && *b == *old(b) && sep_ok == false,
            ditems.len() == vals@.len(),
            forall|i: int|
                0 <= i < ditems.len() ==> vrep(
                    b.fields@,
                    b.items@,
                    b.refs@,
                    b.text@,
                    vals@[i],
                    #[trigger] ditems[i],
                ),
            vs_refs_bridge(old(b).refs@.len() as int, b.refs@, b.text@, ditems),
            spec_items(src@, pos as int, depth as int, false) == (match spec_items(
                src@,
                cur as int,
                depth as int,
                sep_ok,
            ) {
                Err(e) => Err::<(Seq<SpecVal>, int), MochaError>(e),
                Ok(rp) => Ok::<(Seq<SpecVal>, int), MochaError>((ditems + rp.0, rp.1)),
            }),
        decreases src@.len() - cur,
    {
        let (t, p) = match next_token(src, cur) {
            Ok(tp) => tp,
            Err(e) => {
                return Err(e);
            },
        };
        match t {
            Token::RBrack => {
                let start = b.items.len();
                let ghost b1 = *b;
                let mut i: usize = 0;
                while i < vals.len()
                    invariant
                        i <= vals@.len(),
                        b.items@ == b1.items@ + vals@.subrange(0, i as int),
                        b.fields@ == b1.fields@,
                        b.refs@ == b1.refs@,
                        b.text@ == b1.text@,
                        b1.wf(),
                        forall|m: int| 0 <= m < vals@.len() ==> bval_wf(b1, #[trigger] vals@[m]),
                        forall|m: int|
                            0 <= m < vals@.len() ==> bval_distinct(b1, #[trigger] vals@[m]),
                        start == b1.items@.len(),
                    decreases vals@.len() - i,
                {
                    let v = vals[i];
                    b.items.push(v);
                    proof {
                        assert(b1.items@ + vals@.subrange(0, i + 1) =~= (b1.items@
                            + vals@.subrange(0, i as int)).push(v));
                    }
                    i = i + 1;
                }
                proof {
                    assert(vals@.subrange(0, vals@.len() as int) =~= vals@);
                    lemma_append_items(b1, *b, vals@);
                    if cur == pos {
                        assert(b.items@ =~= b1.items@);
                    }
                    assert(ditems + Seq::<SpecVal>::empty() =~= ditems);
                    assert forall|i2: int| 0 <= i2 < ditems.len() implies vrep(
                        b.fields@,
                        b.items@,
                        b.refs@,
                        b.text@,
                        b.items@[start + i2],
                        #[trigger] ditems[i2],
                    ) by {
                        assert(b.items@[start + i2] == vals@[i2]);
                        lemma_vrep_grow(b1, *b, vals@[i2], ditems[i2]);
                    }
                }
                return Ok((start, vals.len(), p));
            },
            Token::Eof => {
                return Err(MochaError::EndOfStream);
            },
            Token::Comma => {
                if sep_ok {
                    proof {
                        assert(spec_items(src@, cur as int, depth as int, true) == spec_items(
                            src@,
                            p as int,
                            depth as int,
                            false,
                        ));
                    }
                    sep_ok = false;
                    cur = p;
                } else {
                    return Err(MochaError::UnexpectedToken);
                }
            },
            _ => {
                let ghost b2 = *b;
                let ghost n0 = old(b).refs@.len() as int;
                let vp = match parse_value(src, cur, depth, 0, 0, vals.len(), b) {
                    Ok(vp) => vp,
                    Err(e) => {
                        return Err(e);
                    },
                };
                let ghost sv = spec_value(src@, cur as int, depth as int)->Ok_0.0;
                proof {
                    lemma_vals_stable(b2, *b, vals@);
                    lemma_ditems_stable(b2, *b, vals@, ditems);
                    lemma_vs_bridge_push(b2, *b, ditems, sv, n0);
                }
                let ghost old_ditems = ditems;
                vals.push(vp.0);
                proof {
                    ditems = old_ditems.push(sv);
                    if let Ok(rp) = spec_items(src@, vp.1 as int, depth as int, true) {
                        assert(old_ditems + (seq![sv] + rp.0) =~= ditems + rp.0);
                    }
                }
                sep_ok = true;
                cur = vp.1;
            },
        }
    }
}

/// Facts recorded of a pending run survive growing the arena.
proof fn lemma_run_stable(b1: Builder, b2: Builder, run: Seq<FieldRec>)
    requires
        b1.wf(),
        b2.wf(),
        b2.extends(b1),
        forall|i: int| 0 <= i < run.len() ==> bfield_wf(b1, #[trigger] run[i]),
        forall|i: int| 0 <= i < run.len() ==> bval_distinct(b1, (#[trigger] run[i]).value),
        distinct_names(run, b1.text@, 0, run.len() as int),
    ensures
        forall|i: int| 0 <= i < run.len() ==> bfield_wf(b2, #[trigger] run[i]),
        forall|i: int| 0 <= i < run.len() ==> bval_distinct(b2, (#[trigger] run[i]).value),
        distinct_names(run, b2.text@, 0, run.len() as int),
{
    lemma_names_in_bounds(b1);
    assert forall|i: int| 0 <= i < run.len() implies bfield_wf(b2, #[trigger] run[i]) by {
        assert(bfield_wf(b1, run[i]));
    }
    assert forall|i: int| 0 <= i < run.len() implies bval_distinct(
        b2,
        (#[trigger] run[i]).value,
    ) by {
        assert(bfield_wf(b1, run[i]));
        assert(bval_distinct(b1, run[i].value));
        lemma_one_obj_distinct(b1.fields@, b1.text@, b2.fields@, b2.text@, run[i].value);
    }
    assert forall|i: int|
        0 <= i < run.len() implies (#[trigger] run[i]).name_start + run[i].name_len
        <= b1.text@.len() by {
        assert(bfield_wf(b1, run[i]));
    }
    lemma_distinct_names_prefix(run, b1.text@, run, b2.text@, 0, run.len() as int);
}

/// Facts recorded of pending array items survive growing the arena.
proof fn lemma_vals_stable(b1: Builder, b2: Builder, vals: Seq<RawValue>)
    requires
        b1.wf(),
        b2.wf(),
        b2.extends(b1),
        forall|i: int| 0 <= i < vals.len() ==> bval_wf(b1, #[trigger] vals[i]),
        forall|i: int| 0 <= i < vals.len() ==> bval_distinct(b1, #[trigger] vals[i]),
    ensures
        forall|i: int| 0 <= i < vals.len() ==> bval_wf(b2, #[trigger] vals[i]),
        forall|i: int| 0 <= i < vals.len() ==> bval_distinct(b2, #[trigger] vals[i]),
{
    lemma_names_in_bounds(b1);
    assert forall|i: int| 0 <= i < vals.len() implies bval_wf(b2, #[trigger] vals[i]) by {
        assert(bval_wf(b1, vals[i]));
    }
    assert forall|i: int| 0 <= i < vals.len() implies bval_distinct(b2, #[trigger] vals[i]) by {
        assert(bval_wf(b1, vals[i]));
        assert(bval_distinct(b1, vals[i]));
        lemma_one_obj_distinct(b1.fields@, b1.text@, b2.fields@, b2.text@, vals[i]);
    }
}

/// Pushing a fresh, unseen name onto a run keeps its names distinct.
proof fn lemma_run_push(run: Seq<FieldRec>, text: Seq<u8>, ns: int, nl: int)
    requires
        0 <= ns,
        0 <= nl,
        ns + nl <= text.len(),
        forall|i: int|
            0 <= i < run.len() ==> (#[trigger] run[i]).name_start + run[i].name_len <= text.len(),
        distinct_names(run, text, 0, run.len() as int),
        forall|i: int| 0 <= i < run.len() ==> name_of(run, text, i) != text.subrange(ns, ns + nl),
    ensures
        forall|rec: FieldRec|
            rec.name_start == ns && rec.name_len == nl ==> distinct_names(
                #[trigger] run.push(rec),
                text,
                0,
                run.len() as int + 1,
            ),
{
    assert forall|rec: FieldRec|
        rec.name_start == ns && rec.name_len == nl implies distinct_names(
        #[trigger] run.push(rec),
        text,
        0,
        run.len() as int + 1,
    ) by {
        let run2 = run.push(rec);
        assert forall|i: int, j: int|
            0 <= i < j < run.len() + 1 implies name_of(run2, text, i) != name_of(
            run2,
            text,
            j,
        ) by {
            assert(run2[i] == run[i]);
            if j < run.len() {
                assert(run2[j] == run[j]);
                assert(name_of(run, text, i) != name_of(run, text, j));
            } else {
                assert(run2[j] == rec);
                assert(name_of(run2, text, j) == text.subrange(ns, ns + nl));
                assert(name_of(run, text, i) != text.subrange(ns, ns + nl));
            }
        }
    }
}

/// Appending a finished run of fields to the arena preserves the builder
/// invariant and yields a distinct-named run in place.
proof fn lemma_append_run(b1: Builder, b2: Builder, run: Seq<FieldRec>)
    requires
        b1.wf(),
        b2.fields@ == b1.fields@ + run,
        b2.items@ == b1.items@,
        b2.refs@ == b1.refs@,
        b2.text@ == b1.text@,
        forall|m: int| 0 <= m < run.len() ==> bfield_wf(b1, #[trigger] run[m]),
        forall|m: int| 0 <= m < run.len() ==> bval_distinct(b1, (#[trigger] run[m]).value),
        distinct_names(run, b1.text@, 0, run.len() as int),
    ensures
        b2.wf(),
        b2.extends(b1),
        distinct_names(b2.fields@, b2.text@, b1.fields@.len() as int, run.len() as int),
{
    let nf1 = b1.fields@.len() as int;
    lemma_names_in_bounds(b1);
    assert forall|i: int| 0 <= i < b2.fields@.len() implies field_wf(
        #[trigger] b2.fields@[i],
        b2.fields@.len() as int,
        b2.items@.len() as int,
        b2.refs@.len() as int,
        b2.text@.len() as int,
    ) by {
        if i < nf1 {
            assert(b2.fields@[i] == b1.fields@[i]);
            assert(field_wf(
                b1.fields@[i],
                b1.fields@.len() as int,
                b1.items@.len() as int,
                b1.refs@.len() as int,
                b1.text@.len() as int,
            ));
        } else {
            assert(b2.fields@[i] == run[i - nf1]);
            assert(bfield_wf(b1, run[i - nf1]));
        }
    }
    assert forall|i: int| 0 <= i < b2.items@.len() implies value_wf(
        #[trigger] b2.items@[i],
        b2.fields@.len() as int,
        b2.items@.len() as int,
        b2.refs@.len() as int,
        b2.text@.len() as int,
    ) by {
        assert(value_wf(
            b1.items@[i],
            b1.fields@.len() as int,
            b1.items@.len() as int,
            b1.refs@.len() as int,
            b1.text@.len() as int,
        ));
    }
    assert forall|i: int|
        0 <= i < b2.fields@.len() implies ((#[trigger] b2.fields@[i]).value
        matches RawValue::Object { start, len } ==> distinct_names(
        b2.fields@,
        b2.text@,
        start as int,
        len as int,
    )) by {
        if i < nf1 {
            assert(b2.fields@[i] == b1.fields@[i]);
            assert(field_wf(
                b1.fields@[i],
                b1.fields@.len() as int,
                b1.items@.len() as int,
                b1.refs@.len() as int,
                b1.text@.len() as int,
            ));
        } else {
            assert(b2.fields@[i] == run[i - nf1]);
            assert(bfield_wf(b1, run[i - nf1]));
            assert(bval_distinct(b1, run[i - nf1].value));
        }
        lemma_one_obj_distinct(b1.fields@, b1.text@, b2.fields@, b2.text@, b2.fields@[i].value);
    }
    assert forall|i: int|
        0 <= i < b2.items@.len() implies ((#[trigger] b2.items@[i]) matches RawValue::Object {
        start,
        len,
    } ==> distinct_names(b2.fields@, b2.text@, start as int, len as int)) by {
        assert(b2.items@[i] == b1.items@[i]);
        assert(value_wf(
            b1.items@[i],
            b1.fields@.len() as int,
            b1.items@.len() as int,
            b1.refs@.len() as int,
            b1.text@.len() as int,
        ));
        lemma_one_obj_distinct(b1.fields@, b1.text@, b2.fields@, b2.text@, b2.items@[i]);
    }
    assert forall|i: int, j: int|
        nf1 <= i < j < nf1 + run.len() implies name_of(b2.fields@, b2.text@, i) != name_of(
        b2.fields@,
        b2.text@,
        j,
    ) by {
        assert(b2.fields@[i] == run[i - nf1]);
        assert(b2.fields@[j] == run[j - nf1]);
        assert(name_of(run, b1.text@, i - nf1) != name_of(run, b1.text@, j - nf1));
    }
}

/// Appending a finished run of items to the arena preserves the builder
/// invariant.
proof fn lemma_append_items(b1: Builder, b2: Builder, vals: Seq<RawValue>)
    requires
        b1.wf(),
        b2.items@ == b1.items@ + vals,
        b2.fields@ == b1.fields@,
        b2.refs@ == b1.refs@,
        b2.text@ == b1.text@,
        forall|m: int| 0 <= m < vals.len() ==> bval_wf(b1, #[trigger] vals[m]),
        forall|m: int| 0 <= m < vals.len() ==> bval_distinct(b1, #[trigger] vals[m]),
    ensures
        b2.wf(),
        b2.extends(b1),
{
    let ni1 = b1.items@.len() as int;
    lemma_names_in_bounds(b1);
    assert forall|i: int| 0 <= i < b2.fields@.len() implies field_wf(
        #[trigger] b2.fields@[i],
        b2.fields@.len() as int,
        b2.items@.len() as int,
        b2.refs@.len() as int,
        b2.text@.len() as int,
    ) by {
        assert(field_wf(
            b1.fields@[i],
            b1.fields@.len() as int,
            b1.items@.len() as int,
            b1.refs@.len() as int,
            b1.text@.len() as int,
        ));
    }
    assert forall|i: int| 0 <= i < b2.items@.len() implies value_wf(
        #[trigger] b2.items@[i],
        b2.fields@.len() as int,
        b2.items@.len() as int,
        b2.refs@.len() as int,
        b2.text@.len() as int,
    ) by {
        if i < ni1 {
            assert(b2.items@[i] == b1.items@[i]);
            assert(value_wf(
                b1.items@[i],
                b1.fields@.len() as int,
                b1.items@.len() as int,
                b1.refs@.len() as int,
                b1.text@.len() as int,
            ));
        } else {
            assert(b2.items@[i] == vals[i - ni1]);
            assert(bval_wf(b1, vals[i - ni1]));
        }
    }
    assert forall|i: int|
        0 <= i < b2.fields@.len() implies ((#[trigger] b2.fields@[i]).value
        matches RawValue::Object { start, len } ==> distinct_names(
        b2.fields@,
        b2.text@,
        start as int,
        len as int,
    )) by {
        assert(b2.fields@[i] == b1.fields@[i]);
        assert(field_wf(
            b1.fields@[i],
            b1.fields@.len() as int,
            b1.items@.len() as int,
            b1.refs@.len() as int,
            b1.text@.len() as int,
        ));
        lemma_one_obj_distinct(b1.fields@, b1.text@, b2.fields@, b2.text@, b2.fields@[i].value);
    }
    assert forall|i: int|
        0 <= i < b2.items@.len() implies ((#[trigger] b2.items@[i]) matches RawValue::Object {
        start,
        len,
    } ==> distinct_names(b2.fields@, b2.text@, start as int, len as int)) by {
        if i < ni1 {
            assert(b2.items@[i] == b1.items@[i]);
            assert(value_wf(
                b1.items@[i],
                b1.fields@.len() as int,
                b1.items@.len() as int,
                b1.refs@.len() as int,
                b1.text@.len() as int,
            ));
        } else {
            assert(b2.items@[i] == vals[i - ni1]);
            assert(bval_wf(b1, vals[i - ni1]));
            assert(bval_distinct(b1, vals[i - ni1]));
        }
        lemma_one_obj_distinct(b1.fields@, b1.text@, b2.fields@, b2.text@, b2.items@[i]);
    }
}

} // verus!
