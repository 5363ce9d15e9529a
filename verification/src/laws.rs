//! Proved laws of the reference-occurrence chains.
//!
//! For one target, the occurrences that alias it form a circular chain in
//! source order. The theorem at the end states the traversal contract of
//! `Reference::next`: starting anywhere in the chain and following `next`,
//! the walk returns to its start after exactly as many steps as there are
//! occurrences of that target, visiting every one of them exactly once —
//! finite and cycle-free until the wrap, wherever it starts.

use vstd::prelude::*;

use crate::model::{chains_wf, has_occ, next_wf, Mocha, RefRec};

verus! {

/// The occurrence reached after `k` steps of `next` from occurrence `o`.
pub open spec fn chain_step(refs: Seq<RefRec>, o: int, k: nat) -> int
    decreases k,
{
    if k == 0 {
        o
    } else {
        refs[chain_step(refs, o, (k - 1) as nat)].next as int
    }
}

/// The occurrences in `[0, n)` whose target is field `c`, in source order.
pub open spec fn occs(refs: Seq<RefRec>, c: int, n: int) -> Seq<int>
    decreases n,
{
    if n <= 0 {
        Seq::empty()
    } else if refs[n - 1].child == c {
        occs(refs, c, n - 1).push(n - 1)
    } else {
        occs(refs, c, n - 1)
    }
}

/// The occurrence list is strictly increasing, lists exactly the
/// occurrences with target `c`, and is complete.
pub proof fn lemma_occs_props(refs: Seq<RefRec>, c: int, n: int)
    requires
        0 <= n <= refs.len(),
    ensures
        forall|p: int|
            0 <= p < occs(refs, c, n).len() ==> 0 <= #[trigger] occs(refs, c, n)[p] < n
                && refs[occs(refs, c, n)[p]].child == c,
        forall|p: int, q: int|
            0 <= p < q < occs(refs, c, n).len() ==> occs(refs, c, n)[p] < occs(refs, c, n)[q],
        forall|m: int|
            0 <= m < n && (#[trigger] refs[m]).child == c ==> exists|p: int|
                0 <= p < occs(refs, c, n).len() && #[trigger] occs(refs, c, n)[p] == m,
    decreases n,
{
    if n > 0 {
        lemma_occs_props(refs, c, n - 1);
        let prev = occs(refs, c, n - 1);
        assert forall|m: int|
            0 <= m < n && (#[trigger] refs[m]).child == c implies exists|p: int|
            0 <= p < occs(refs, c, n).len() && #[trigger] occs(refs, c, n)[p] == m by {
            if m < n - 1 {
                let p = choose|p: int| 0 <= p < prev.len() && #[trigger] prev[p] == m;
                assert(occs(refs, c, n)[p] == m);
            } else {
                assert(refs[n - 1].child == c);
                assert(occs(refs, c, n)[occs(refs, c, n).len() - 1] == m);
            }
        }
    }
}

/// In a well-formed chain, `next` of the occurrence at position `p` of the
/// occurrence list is the occurrence at the cyclically following position.
proof fn lemma_chain_succ(refs: Seq<RefRec>, c: int, p: int)
    requires
        chains_wf(refs),
        0 <= p < occs(refs, c, refs.len() as int).len(),
    ensures
        ({
            let ch = occs(refs, c, refs.len() as int);
            refs[ch[p]].next as int == (if p + 1 < ch.len() {
                ch[p + 1]
            } else {
                ch[0]
            })
        }),
{
    let ch = occs(refs, c, refs.len() as int);
    let ln = refs.len() as int;
    lemma_occs_props(refs, c, ln);
    let j = ch[p];
    assert(next_wf(refs, j));
    let n = refs[j].next as int;
    assert(refs[n].child == c);
    let q = choose|q: int| 0 <= q < ch.len() && #[trigger] ch[q] == n;
    if n > j {
        assert(!has_occ(refs, c, j + 1, n));
        // n sits later in the list than j
        assert(q > p);
        if p + 1 < q {
            // an occurrence would lie strictly between j and n
            assert(j < ch[p + 1] < n);
            assert(refs[ch[p + 1]].child == c);
            assert(has_occ(refs, c, j + 1, n));
            assert(false);
        }
        assert(q == p + 1);
    } else {
        assert(!has_occ(refs, c, j + 1, ln));
        assert(!has_occ(refs, c, 0, n));
        // j is the last occurrence
        if p + 1 < ch.len() {
            assert(ch[p + 1] > j);
            assert(refs[ch[p + 1]].child == c);
            assert(has_occ(refs, c, j + 1, ln));
            assert(false);
        }
        // n is the first occurrence
        if q > 0 {
            assert(ch[0] < n);
            assert(refs[ch[0]].child == c);
            assert(has_occ(refs, c, 0, n));
            assert(false);
        }
        assert(q == 0);
    }
}

/// Walking `k` steps from the occurrence at position `p0` lands at position
/// `p0 + k`, wrapped once past the end of the occurrence list.
proof fn lemma_chain_pos(refs: Seq<RefRec>, c: int, p0: int, k: nat)
    requires
        chains_wf(refs),
        0 <= p0 < occs(refs, c, refs.len() as int).len(),
        k <= occs(refs, c, refs.len() as int).len(),
    ensures
        ({
            let ch = occs(refs, c, refs.len() as int);
            chain_step(refs, ch[p0], k) == (if p0 + k < ch.len() {
                ch[p0 + k]
            } else {
                ch[p0 + k - ch.len()]
            })
        }),
    decreases k,
{
    let ch = occs(refs, c, refs.len() as int);
    if k > 0 {
        lemma_chain_pos(refs, c, p0, (k - 1) as nat);
        let q = if p0 + k - 1 < ch.len() {
            p0 + k - 1
        } else {
            p0 + k - 1 - ch.len()
        };
        lemma_chain_succ(refs, c, q);
    }
}

/// Theorem: from any occurrence `o`, following `next` returns to `o` after
/// exactly `k` steps, where `k` is the number of occurrences sharing `o`'s
/// target; the occurrences seen before the wrap are pairwise distinct; and
/// every occurrence of that target is seen. So a traversal that stops on
/// returning to its start — as `Reference::next` signals by exhaustion —
/// visits every other occurrence of the target exactly once, whichever
/// occurrence it starts from, and cannot cycle.
pub proof fn lemma_chain_traversal(refs: Seq<RefRec>, o: int)
    requires
        chains_wf(refs),
        0 <= o < refs.len(),
    ensures
        ({
            let c = refs[o].child as int;
            let k = occs(refs, c, refs.len() as int).len() as nat;
            &&& k >= 1
            &&& chain_step(refs, o, k) == o
            &&& forall|i: nat, j: nat|
                i < j < k ==> #[trigger] chain_step(refs, o, i) != #[trigger] chain_step(
                    refs,
                    o,
                    j,
                )
            &&& forall|m: int|
                0 <= m < refs.len() && (#[trigger] refs[m]).child == c ==> exists|i: nat|
                    i < k && chain_step(refs, o, i) == m
        }),
{
    let c = refs[o].child as int;
    let ln = refs.len() as int;
    let ch = occs(refs, c, ln);
    let k = ch.len() as nat;
    lemma_occs_props(refs, c, ln);
    let p0 = choose|p: int| 0 <= p < ch.len() && #[trigger] ch[p] == o;
    assert(k >= 1);
    lemma_chain_pos(refs, c, p0, k);
    assert(chain_step(refs, ch[p0], k) == ch[p0 + k - ch.len()]);
    assert(chain_step(refs, o, k) == o);
    assert forall|i: nat, j: nat|
        i < j < k implies #[trigger] chain_step(refs, o, i) != #[trigger] chain_step(
        refs,
        o,
        j,
    ) by {
        lemma_chain_pos(refs, c, p0, i);
        lemma_chain_pos(refs, c, p0, j);
        let pi = if p0 + i < ch.len() {
            p0 + i
        } else {
            p0 + i - ch.len()
        };
        let pj = if p0 + j < ch.len() {
            p0 + j
        } else {
            p0 + j - ch.len()
        };
        assert(pi != pj);
        if pi < pj {
            assert(ch[pi] < ch[pj]);
        } else {
            assert(ch[pj] < ch[pi]);
        }
    }
    assert forall|m: int|
        0 <= m < refs.len() && (#[trigger] refs[m]).child == c implies exists|i: nat|
        i < k && chain_step(refs, o, i) == m by {
        let p = choose|p: int| 0 <= p < ch.len() && #[trigger] ch[p] == m;
        let i: int = if p >= p0 {
            p - p0
        } else {
            p - p0 + ch.len()
        };
        lemma_chain_pos(refs, c, p0, i as nat);
        assert(chain_step(refs, o, i as nat) == m);
    }
}

/// The traversal theorem holds of every well-formed document's reference
/// table: well-formedness carries the chain invariant.
pub proof fn lemma_document_chain_traversal(doc: Mocha, o: int)
    requires
        doc.wf(),
        0 <= o < doc.spec_refs().len(),
    ensures
        ({
            let refs = doc.spec_refs();
            let c = refs[o].child as int;
            let k = occs(refs, c, refs.len() as int).len() as nat;
            &&& k >= 1
            &&& chain_step(refs, o, k) == o
            &&& forall|i: nat, j: nat|
                i < j < k ==> #[trigger] chain_step(refs, o, i) != #[trigger] chain_step(
                    refs,
                    o,
                    j,
                )
            &&& forall|m: int|
                0 <= m < refs.len() && (#[trigger] refs[m]).child == c ==> exists|i: nat|
                    i < k && chain_step(refs, o, i) == m
        }),
{
    lemma_chain_traversal(doc.spec_refs(), o);
}

} // verus!
