//! The reference resolver: a second pass after parsing.
//!
//! Each occurrence's target name is looked up among the top-level field
//! names (references may point forward as well as backward: resolution
//! happens only after the whole document is read). A name that matches no
//! top-level field fails the parse with `MissingField`. All occurrences
//! that resolve to the same field are then linked into one circular chain
//! in source order: each occurrence points at the next one, and the last
//! points back at the first.

use vstd::prelude::*;

use crate::model::{
    field_wf, has_occ, name_of, next_wf, path_of, ref_spans_wf, unresolvable, value_wf, Builder,
    FieldRec, RefRec,
};
use crate::MochaError;
use crate::parser::span_eq;

verus! {

/// `l` records the same occurrence as `r` (kept visible to the parse entry
/// point, which carries target-name equality across resolution): same target name, same own name
/// and position (the resolved target and chain link may differ).
pub(crate) open spec fn same_occ(l: RefRec, r: RefRec) -> bool {
    &&& l.path_start == r.path_start
    &&& l.path_len == r.path_len
    &&& l.name_start == r.name_start
    &&& l.name_len == r.name_len
    &&& l.index == r.index
}

/// The linked record carries `nx` as its `next` and is otherwise `r`.
pub(crate) open spec fn linked_from(l: RefRec, r: RefRec, nx: int) -> bool {
    &&& same_occ(l, r)
    &&& l.child == r.child
    &&& l.next == nx
}

/// `nx` is the cyclic successor of `j` among occurrences sharing its target.
pub(crate) open spec fn link_ok(rs: Seq<RefRec>, j: int, nx: int) -> bool {
    let c = rs[j].child as int;
    &&& 0 <= nx < rs.len()
    &&& rs[nx].child == c
    &&& (nx > j ==> !has_occ(rs, c, j + 1, nx))
    &&& (nx <= j ==> !has_occ(rs, c, j + 1, rs.len() as int) && !has_occ(rs, c, 0, nx))
}

/// Two reference tables with the same targets see the same occurrences.
proof fn lemma_has_occ_same(r1: Seq<RefRec>, r2: Seq<RefRec>, c: int, a: int, b: int)
    requires
        r1.len() == r2.len(),
        0 <= a,
        b <= r1.len(),
        forall|i: int| 0 <= i < r1.len() ==> (#[trigger] r1[i]).child == r2[i].child,
    ensures
        has_occ(r1, c, a, b) == has_occ(r2, c, a, b),
{
    if has_occ(r1, c, a, b) {
        assert(exists|k: int| a <= k < b && (#[trigger] r1[k]).child == c);
        let k = choose|k: int| a <= k < b && (#[trigger] r1[k]).child == c;
        assert(r2[k].child == c);
        assert(has_occ(r2, c, a, b));
    }
    if has_occ(r2, c, a, b) {
        assert(exists|k: int| a <= k < b && (#[trigger] r2[k]).child == c);
        let k = choose|k: int| a <= k < b && (#[trigger] r2[k]).child == c;
        assert(r1[k].child == c);
        assert(has_occ(r1, c, a, b));
    }
}

/// Finds the top-level field whose name equals the given text span.
fn find_target(
    fields: &Vec<FieldRec>,
    text: &Vec<u8>,
    root_start: usize,
    root_len: usize,
    ps: usize,
    pl: usize,
) -> (r: Option<usize>)
    requires
        root_start + root_len <= fields@.len(),
        ps + pl <= text@.len(),
        forall|i: int|
            0 <= i < fields@.len() ==> (#[trigger] fields@[i]).name_start + fields@[i].name_len
                <= text@.len(),
    ensures
        (r matches Some(c) ==> root_start <= c < root_start + root_len && name_of(
            fields@,
            text@,
            c as int,
        ) == text@.subrange(ps as int, ps + pl)),
        (r is None ==> forall|k: int|
            root_start <= k < root_start + root_len ==> name_of(fields@, text@, k)
                != text@.subrange(ps as int, ps + pl)),
{
    let _nf = fields.len();
    let mut k: usize = 0;
    while k < root_len
        invariant
            k <= root_len,
            root_start + root_len <= fields@.len(),
            fields@.len() <= usize::MAX,
            ps + pl <= text@.len(),
            forall|i: int|
                0 <= i < fields@.len() ==> (#[trigger] fields@[i]).name_start
                    + fields@[i].name_len <= text@.len(),
            forall|m: int|
                root_start <= m < root_start + k ==> name_of(fields@, text@, m) != text@.subrange(
                    ps as int,
                    ps + pl,
                ),
        decreases root_len - k,
    {
        let f = &fields[root_start + k];
        if span_eq(text, f.name_start, f.name_len, ps, pl) {
            proof {
                assert(name_of(fields@, text@, root_start + k) == text@.subrange(
                    ps as int,
                    ps + pl,
                ));
            }
            return Some(root_start + k);
        }
        k = k + 1;
    }
    None
}

/// The next occurrence after `j` with `j`'s target, if any.
fn find_forward(rs: &Vec<RefRec>, j: usize) -> (r: Option<usize>)
    requires
        j < rs@.len(),
    ensures
        (r matches Some(k) ==> j < k < rs@.len() && rs@[k as int].child == rs@[j as int].child
            && !has_occ(rs@, rs@[j as int].child as int, j + 1, k as int)),
        (r is None ==> !has_occ(rs@, rs@[j as int].child as int, j + 1, rs@.len() as int)),
{
    let _n = rs.len();
    let c = rs[j].child;
    let mut k: usize = j + 1;
    while k < rs.len()
        invariant
            j < k <= rs@.len(),
            c == rs@[j as int].child,
            !has_occ(rs@, c as int, j + 1, k as int),
        decreases rs@.len() - k,
    {
        if rs[k].child == c {
            return Some(k);
        }
        k = k + 1;
    }
    None
}

/// The first occurrence overall with `j`'s target (at latest `j` itself).
fn find_first(rs: &Vec<RefRec>, j: usize) -> (r: usize)
    requires
        j < rs@.len(),
    ensures
        r <= j,
        rs@[r as int].child == rs@[j as int].child,
        !has_occ(rs@, rs@[j as int].child as int, 0, r as int),
{
    let c = rs[j].child;
    let mut k: usize = 0;
    while k < j
        invariant
            k <= j < rs@.len(),
            c == rs@[j as int].child,
            !has_occ(rs@, c as int, 0, k as int),
        decreases j - k,
    {
        if rs[k].child == c {
            return k;
        }
        k = k + 1;
    }
    k
}

/// Resolves every reference against the top-level field names and links
/// the circular occurrence chains. Fails with `MissingField` when and only
/// when some reference's target name matches no top-level field; nothing
/// else fails.
pub(crate) fn resolve(b: &mut Builder, root_start: usize, root_len: usize) -> (r: Result<
    (),
    MochaError,
>)
    requires
        old(b).wf(),
        root_start + root_len <= old(b).fields@.len(),
    ensures
        final(b).fields@ == old(b).fields@,
        final(b).items@ == old(b).items@,
        final(b).text@ == old(b).text@,
        final(b).refs@.len() == old(b).refs@.len(),
        final(b).wf(),
        (r matches Ok(u) ==> {
            &&& forall|j: int|
                0 <= j < final(b).refs@.len() ==> root_start
                    <= (#[trigger] final(b).refs@[j]).child < root_start + root_len
            &&& forall|j: int|
                0 <= j < final(b).refs@.len() ==> name_of(
                    final(b).fields@,
                    final(b).text@,
                    (#[trigger] final(b).refs@[j]).child as int,
                ) == path_of(old(b).refs@, old(b).text@, j)
            &&& forall|j: int|
                0 <= j < final(b).refs@.len() ==> next_wf(final(b).refs@, j)
            &&& forall|j: int|
                0 <= j < final(b).refs@.len() ==> same_occ(
                    #[trigger] final(b).refs@[j],
                    old(b).refs@[j],
                )
        }),
        (r matches Err(e) ==> e == MochaError::MissingField && final(b).refs@ == old(b).refs@
            && (exists|j: int|
            0 <= j < old(b).refs@.len() && #[trigger] unresolvable(
                old(b).fields@,
                old(b).text@,
                old(b).refs@,
                root_start as int,
                root_len as int,
                j,
            ))),
{
    let _n = b.refs.len();
    proof {
        assert forall|i: int|
            0 <= i < b.fields@.len() implies (#[trigger] b.fields@[i]).name_start
            + b.fields@[i].name_len <= b.text@.len() by {
            assert(field_wf(
                b.fields@[i],
                b.fields@.len() as int,
                b.items@.len() as int,
                b.refs@.len() as int,
                b.text@.len() as int,
            ));
        }
    }
    // first pass: resolve each target name to a top-level field
    let mut resolved: Vec<RefRec> = Vec::new();
    let mut j: usize = 0;
    while j < b.refs.len()
        invariant
            j == resolved@.len(),
            j <= b.refs@.len(),
            *b == *old(b),
            b.wf(),
            root_start + root_len <= b.fields@.len(),
            forall|i: int|
                0 <= i < b.fields@.len() ==> (#[trigger] b.fields@[i]).name_start
                    + b.fields@[i].name_len <= b.text@.len(),
            forall|m: int|
                0 <= m < j ==> same_occ(#[trigger] resolved@[m], b.refs@[m]) && (
                #[trigger] resolved@[m]).next == 0,
            forall|m: int|
                0 <= m < j ==> root_start <= (#[trigger] resolved@[m]).child < root_start
                    + root_len,
            forall|m: int|
                0 <= m < j ==> name_of(b.fields@, b.text@, (#[trigger] resolved@[m]).child as int)
                    == path_of(b.refs@, b.text@, m),
        decreases b.refs@.len() - j,
    {
        let rec = b.refs[j];
        proof {
            assert(ref_spans_wf(b.refs@[j as int], b.text@.len() as int));
        }
        match find_target(&b.fields, &b.text, root_start, root_len, rec.path_start, rec.path_len) {
            Some(c) => {
                resolved.push(
                    RefRec {
                        path_start: rec.path_start,
                        path_len: rec.path_len,
                        name_start: rec.name_start,
                        name_len: rec.name_len,
                        index: rec.index,
                        child: c,
                        next: 0,
                    },
                );
            },
            None => {
                proof {
                    assert(unresolvable(
                        b.fields@,
                        b.text@,
                        b.refs@,
                        root_start as int,
                        root_len as int,
                        j as int,
                    ));
                }
                return Err(MochaError::MissingField);
            },
        }
        j = j + 1;
    }
    // second pass: link each occurrence to its cyclic successor
    let mut linked: Vec<RefRec> = Vec::new();
    let mut m: usize = 0;
    while m < resolved.len()
        invariant
            m == linked@.len(),
            m <= resolved@.len(),
            forall|i: int|
                0 <= i < m ==> linked_from(
                    #[trigger] linked@[i],
                    resolved@[i],
                    linked@[i].next as int,
                ),
            forall|i: int| 0 <= i < m ==> link_ok(resolved@, i, (#[trigger] linked@[i]).next as int),
        decreases resolved@.len() - m,
    {
        let rec = resolved[m];
        let nx = match find_forward(&resolved, m) {
            Some(k) => k,
            None => find_first(&resolved, m),
        };
        linked.push(
            RefRec {
                path_start: rec.path_start,
                path_len: rec.path_len,
                name_start: rec.name_start,
                name_len: rec.name_len,
                index: rec.index,
                child: rec.child,
                next: nx,
            },
        );
        m = m + 1;
    }
    proof {
        assert forall|i: int| 0 <= i < linked@.len() implies next_wf(linked@, i) by {
            assert(link_ok(resolved@, i, linked@[i].next as int));
            let c = resolved@[i].child as int;
            let nx = linked@[i].next as int;
            lemma_has_occ_same(resolved@, linked@, c, i + 1, nx);
            lemma_has_occ_same(resolved@, linked@, c, i + 1, linked@.len() as int);
            lemma_has_occ_same(resolved@, linked@, c, 0, nx);
        }
    }
    b.refs = linked;
    proof {
        assert forall|i: int|
            0 <= i < b.fields@.len() implies field_wf(
            #[trigger] b.fields@[i],
            b.fields@.len() as int,
            b.items@.len() as int,
            b.refs@.len() as int,
            b.text@.len() as int,
        ) by {
            assert(field_wf(
                old(b).fields@[i],
                old(b).fields@.len() as int,
                old(b).items@.len() as int,
                old(b).refs@.len() as int,
                old(b).text@.len() as int,
            ));
        }
        assert forall|i: int|
            0 <= i < b.items@.len() implies value_wf(
            #[trigger] b.items@[i],
            b.fields@.len() as int,
            b.items@.len() as int,
            b.refs@.len() as int,
            b.text@.len() as int,
        ) by {
            assert(value_wf(
                old(b).items@[i],
                old(b).fields@.len() as int,
                old(b).items@.len() as int,
                old(b).refs@.len() as int,
                old(b).text@.len() as int,
            ));
        }
        assert forall|i: int|
            0 <= i < b.refs@.len() implies ref_spans_wf(
            #[trigger] b.refs@[i],
            b.text@.len() as int,
        ) by {
            assert(linked_from(linked@[i], resolved@[i], linked@[i].next as int));
            assert(same_occ(resolved@[i], old(b).refs@[i]));
            assert(ref_spans_wf(old(b).refs@[i], old(b).text@.len() as int));
        }
    }
    Ok(())
}

} // verus!
