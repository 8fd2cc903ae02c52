//! The engine's algebraic laws, stated and proved over the document model:
//! confluence of the applied arena, commutativity and idempotence of change
//! application, convergence of reads, and causal safety.

use vstd::prelude::*;
use crate::chat::{
    chat_change, collect_msgs, entry_msg, lemma_ts_pos, messages_spec, sort_by_ts, ts_insert,
    ts_insert_pos, MsgV,
};
use crate::doc::{apply_outcome, overlapping, DocV};
use crate::resolve::{
    beats, canon_entries, entry_at, has_winner, is_winner, lemma_map_range_equiv,
    lemma_resolved_equiv, map_range_spec, op_in, resolved, winner, writes_key, EntryV,
};
use crate::sync::dep_closed;
use crate::types::{
    cid_v, compat, deps_in, has_cid, wf_change, ApplyError, ChangeId, ChangeV, KeyV, ObjectId,
    OpV, ValueV,
};

verus! {

/// Confluence: two well-formed documents holding the same set of changes
/// (applied or buffered) have applied exactly the same changes — the
/// resolved state is a function of the set of changes held, not of arrival
/// order.
///
/// This rests on two facts the invariant maintains: the applied arena is
/// causally closed, and the buffer is saturated (nothing applicable is left
/// buffered).
pub proof fn lemma_confluence(d1: DocV, d2: DocV)
    requires
        d1.wf(),
        d2.wf(),
        forall|x: ChangeV| #[trigger] d1.total_has(x) <==> #[trigger] d2.total_has(x),
    ensures
        forall|x: ChangeV| #[trigger] d1.applied.contains(x) <==> #[trigger] d2.applied.contains(x),
        forall|x: ChangeV| #[trigger] d1.pending.contains(x) <==> #[trigger] d2.pending.contains(x),
{
    lemma_applied_prefix_sub(d1, d2, d2.applied.len() as int);
    lemma_applied_prefix_sub(d2, d1, d1.applied.len() as int);
    assert forall|x: ChangeV| #[trigger] d1.applied.contains(x) implies d2.applied.contains(x) by {
        let w = choose|w: int| 0 <= w < d1.applied.len() && d1.applied[w] == x;
    }
    assert forall|x: ChangeV| #[trigger] d2.applied.contains(x) implies d1.applied.contains(x) by {
        let w = choose|w: int| 0 <= w < d2.applied.len() && d2.applied[w] == x;
    }
    assert forall|x: ChangeV| #[trigger] d1.pending.contains(x) implies d2.pending.contains(x) by {
        assert(d1.total_has(x));
        assert(d2.total_has(x));
        if d2.applied.contains(x) {
            assert(d1.applied.contains(x));
            lemma_not_both(d1, x);
        }
    }
    assert forall|x: ChangeV| #[trigger] d2.pending.contains(x) implies d1.pending.contains(x) by {
        assert(d2.total_has(x));
        assert(d1.total_has(x));
        if d1.applied.contains(x) {
            assert(d2.applied.contains(x));
            lemma_not_both(d2, x);
        }
    }
}

/// A change is never both applied and buffered.
proof fn lemma_not_both(d: DocV, x: ChangeV)
    requires
        d.wf_core(),
        d.applied.contains(x),
    ensures
        !d.pending.contains(x),
{
    if d.pending.contains(x) {
        let i = choose|i: int| 0 <= i < d.applied.len() && d.applied[i] == x;
        let j = choose|j: int| 0 <= j < d.pending.len() && d.pending[j] == x;
        assert(cid_v(d.applied[i]) != cid_v(d.pending[j]));
    }
}

/// Every change applied by `d2` up to index `i` is applied by `d1`.
proof fn lemma_applied_prefix_sub(d1: DocV, d2: DocV, i: int)
    requires
        d1.wf(),
        d2.wf(),
        forall|x: ChangeV| #[trigger] d1.total_has(x) <==> #[trigger] d2.total_has(x),
        0 <= i <= d2.applied.len(),
    ensures
        forall|k: int| 0 <= k < i ==> d1.applied.contains(#[trigger] d2.applied[k]),
    decreases i,
{
    if i > 0 {
        lemma_applied_prefix_sub(d1, d2, i - 1);
        let c = d2.applied[i - 1];
        assert(d2.applied.contains(c));
        assert(d2.total_has(c));
        assert(d1.total_has(c));
        if !d1.applied.contains(c) {
            assert(d1.pending.contains(c));
            let w = choose|w: int| 0 <= w < d1.pending.len() && d1.pending[w] == c;
            // saturation: some dependency of c is missing from d1's arena
            assert(!deps_in(d1.pending[w], d1.applied));
            // yet every dependency of c is applied by d1, via d2's topology
            assert forall|j: int| 0 <= j < c.deps.len() implies has_cid(
                d1.applied,
                #[trigger] c.deps[j],
            ) by {
                assert(deps_in(c, d2.applied.take(i - 1)));
                assert(has_cid(d2.applied.take(i - 1), c.deps[j]));
                let w2 = choose|w2: int|
                    0 <= w2 < d2.applied.take(i - 1).len() && cid_v(#[trigger] d2.applied.take(
                        i - 1,
                    )[w2]) == c.deps[j];
                let z = d2.applied[w2];
                assert(d1.applied.contains(z));
                let w3 = choose|w3: int| 0 <= w3 < d1.applied.len() && d1.applied[w3] == z;
                assert(cid_v(d1.applied[w3]) == c.deps[j]);
            }
            assert(false);
        }
    }
}

/// Whether a document would absorb `c` as new content: well formed, not a
/// duplicate, no counter collision.
pub open spec fn accepts(d: DocV, c: ChangeV) -> bool {
    &&& wf_change(c)
    &&& !d.has_id(cid_v(c))
    &&& !(exists|x: ChangeV| #[trigger] d.total_has(x) && overlapping(x, c))
}

/// One application step either leaves the document unchanged (rejection or
/// duplicate) or adds exactly `c` to the set of changes held.
proof fn lemma_step_total(pre: DocV, c: ChangeV, post: DocV, r: Result<(), ApplyError>)
    requires
        apply_outcome(pre, c, post, r),
    ensures
        forall|x: ChangeV|
            #[trigger] post.total_has(x) <==> pre.total_has(x) || (accepts(pre, c) && x == c),
{
    if !wf_change(c) || pre.has_id(cid_v(c)) || (exists|x: ChangeV|
        #[trigger] pre.total_has(x) && overlapping(x, c)) {
        assert(post == pre);
    }
}

/// A held id means a held change with that id.
proof fn lemma_has_id_total(d: DocV, h: ChangeId)
    ensures
        d.has_id(h) <==> exists|x: ChangeV| #[trigger] d.total_has(x) && cid_v(x) == h,
{
    if d.has_id(h) {
        if has_cid(d.applied, h) {
            let w = choose|w: int| 0 <= w < d.applied.len() && cid_v(#[trigger] d.applied[w]) == h;
            assert(d.total_has(d.applied[w]) && cid_v(d.applied[w]) == h);
        } else {
            let w = choose|w: int| 0 <= w < d.pending.len() && cid_v(#[trigger] d.pending[w]) == h;
            assert(d.total_has(d.pending[w]) && cid_v(d.pending[w]) == h);
        }
    }
    if exists|x: ChangeV| #[trigger] d.total_has(x) && cid_v(x) == h {
        let x = choose|x: ChangeV| #[trigger] d.total_has(x) && cid_v(x) == h;
        if d.applied.contains(x) {
            let w = choose|w: int| 0 <= w < d.applied.len() && d.applied[w] == x;
            assert(has_cid(d.applied, h));
        } else {
            let w = choose|w: int| 0 <= w < d.pending.len() && d.pending[w] == x;
            assert(has_cid(d.pending, h));
        }
    }
}

/// Commutativity: applying two compatible changes to one document in either
/// order leaves the two replicas applying — and buffering — exactly the same
/// changes, and therefore resolving every slot identically.
///
/// `compat` asks only what honest histories guarantee: equal ids mean equal
/// content, and counter ranges of one actor do not overlap.  Causal
/// independence is not needed: a change arriving before its dependency is
/// buffered and released when the dependency lands.
pub proof fn lemma_commutativity(
    d0: DocV,
    c1: ChangeV,
    c2: ChangeV,
    d1: DocV,
    d12: DocV,
    d2: DocV,
    d21: DocV,
    r1: Result<(), ApplyError>,
    r2: Result<(), ApplyError>,
    r3: Result<(), ApplyError>,
    r4: Result<(), ApplyError>,
)
    requires
        d0.wf(),
        d1.wf(),
        d12.wf(),
        d2.wf(),
        d21.wf(),
        apply_outcome(d0, c1, d1, r1),
        apply_outcome(d1, c2, d12, r2),
        apply_outcome(d0, c2, d2, r3),
        apply_outcome(d2, c1, d21, r4),
        compat(c1, c2),
    ensures
        forall|x: ChangeV|
            #[trigger] d12.applied.contains(x) <==> #[trigger] d21.applied.contains(x),
        forall|x: ChangeV|
            #[trigger] d12.pending.contains(x) <==> #[trigger] d21.pending.contains(x),
        forall|t: ObjectId, k: KeyV|
            #[trigger] resolved(d12.applied, t, k) == #[trigger] resolved(d21.applied, t, k),
{
    lemma_step_total(d0, c1, d1, r1);
    lemma_step_total(d1, c2, d12, r2);
    lemma_step_total(d0, c2, d2, r3);
    lemma_step_total(d2, c1, d21, r4);
    assert forall|x: ChangeV| #[trigger] d12.total_has(x) <==> #[trigger] d21.total_has(x) by {
        lemma_accept_stable(d0, c1, c2, d1);
        lemma_accept_stable(d0, c2, c1, d2);
    }
    lemma_confluence(d12, d21);
    assert forall|t: ObjectId, k: KeyV|
        #[trigger] resolved(d12.applied, t, k) == #[trigger] resolved(d21.applied, t, k) by {
        lemma_resolved_equiv(d12.applied, d21.applied, t, k);
    }
}

/// Whether a compatible sibling was absorbed first does not affect whether
/// `c` is absorbed.
proof fn lemma_accept_stable(d0: DocV, ca: ChangeV, cb: ChangeV, da: DocV)
    requires
        compat(ca, cb),
        forall|x: ChangeV|
            #[trigger] da.total_has(x) <==> d0.total_has(x) || (accepts(d0, ca) && x == ca),
    ensures
        ca != cb ==> accepts(da, cb) == accepts(d0, cb),
        ca == cb ==> (da.total_has(ca) <==> d0.total_has(ca) || accepts(d0, ca)),
{
    if ca != cb {
        assert(cid_v(ca) != cid_v(cb));
        lemma_has_id_total(da, cid_v(cb));
        lemma_has_id_total(d0, cid_v(cb));
        if accepts(d0, ca) {
            assert(!overlapping(ca, cb)) by {
                if ca.actor == cb.actor {
                    assert(ca.start + ca.ops.len() <= cb.start || cb.start + cb.ops.len()
                        <= ca.start);
                }
            }
            assert((exists|x: ChangeV| #[trigger] da.total_has(x) && overlapping(x, cb)) == (
            exists|x: ChangeV| #[trigger] d0.total_has(x) && overlapping(x, cb))) by {
                if exists|x: ChangeV| #[trigger] da.total_has(x) && overlapping(x, cb) {
                    let x = choose|x: ChangeV| #[trigger] da.total_has(x) && overlapping(x, cb);
                    if x != ca {
                        assert(d0.total_has(x) && overlapping(x, cb));
                    }
                }
                if exists|x: ChangeV| #[trigger] d0.total_has(x) && overlapping(x, cb) {
                    let x = choose|x: ChangeV| #[trigger] d0.total_has(x) && overlapping(x, cb);
                    assert(da.total_has(x));
                }
            }
            assert(da.has_id(cid_v(cb)) == d0.has_id(cid_v(cb))) by {
                lemma_has_id_total(da, cid_v(cb));
                lemma_has_id_total(d0, cid_v(cb));
                if exists|x: ChangeV| #[trigger] da.total_has(x) && cid_v(x) == cid_v(cb) {
                    let x = choose|x: ChangeV| #[trigger] da.total_has(x) && cid_v(x) == cid_v(cb);
                    if x != ca {
                        assert(d0.total_has(x) && cid_v(x) == cid_v(cb));
                    }
                }
                if exists|x: ChangeV| #[trigger] d0.total_has(x) && cid_v(x) == cid_v(cb) {
                    let x = choose|x: ChangeV| #[trigger] d0.total_has(x) && cid_v(x) == cid_v(cb);
                    assert(da.total_has(x) && cid_v(x) == cid_v(cb));
                }
            }
        } else {
            assert forall|x: ChangeV| #[trigger] da.total_has(x) implies d0.total_has(x) by {}
            assert forall|x: ChangeV| d0.total_has(x) implies #[trigger] da.total_has(x) by {}
            assert(da.has_id(cid_v(cb)) == d0.has_id(cid_v(cb))) by {
                lemma_has_id_total(da, cid_v(cb));
                lemma_has_id_total(d0, cid_v(cb));
                if exists|x: ChangeV| #[trigger] da.total_has(x) && cid_v(x) == cid_v(cb) {
                    let x = choose|x: ChangeV| #[trigger] da.total_has(x) && cid_v(x) == cid_v(cb);
                    assert(d0.total_has(x) && cid_v(x) == cid_v(cb));
                }
                if exists|x: ChangeV| #[trigger] d0.total_has(x) && cid_v(x) == cid_v(cb) {
                    let x = choose|x: ChangeV| #[trigger] d0.total_has(x) && cid_v(x) == cid_v(cb);
                    assert(da.total_has(x) && cid_v(x) == cid_v(cb));
                }
            }
            assert((exists|x: ChangeV| #[trigger] da.total_has(x) && overlapping(x, cb)) == (
            exists|x: ChangeV| #[trigger] d0.total_has(x) && overlapping(x, cb))) by {
                if exists|x: ChangeV| #[trigger] da.total_has(x) && overlapping(x, cb) {
                    let x = choose|x: ChangeV| #[trigger] da.total_has(x) && overlapping(x, cb);
                    assert(d0.total_has(x) && overlapping(x, cb));
                }
                if exists|x: ChangeV| #[trigger] d0.total_has(x) && overlapping(x, cb) {
                    let x = choose|x: ChangeV| #[trigger] d0.total_has(x) && overlapping(x, cb);
                    assert(da.total_has(x) && overlapping(x, cb));
                }
            }
        }
    }
}

/// Idempotence: applying a change twice leaves the document exactly as
/// applying it once did — the second application is a successful no-op.
pub proof fn lemma_idempotence(
    d0: DocV,
    c: ChangeV,
    da: DocV,
    db: DocV,
    ra: Result<(), ApplyError>,
    rb: Result<(), ApplyError>,
)
    requires
        d0.wf(),
        da.wf(),
        apply_outcome(d0, c, da, ra),
        apply_outcome(da, c, db, rb),
    ensures
        db == da,
        wf_change(c) && !(exists|x: ChangeV|
            #[trigger] d0.total_has(x) && overlapping(x, c)) ==> rb is Ok,
{
    lemma_step_total(d0, c, da, ra);
    if !wf_change(c) {
    } else if d0.has_id(cid_v(c)) {
        assert(da == d0);
    } else if exists|x: ChangeV| #[trigger] d0.total_has(x) && overlapping(x, c) {
        assert(da == d0);
        let x = choose|x: ChangeV| #[trigger] d0.total_has(x) && overlapping(x, c);
        assert(da.total_has(x) && overlapping(x, c));
        if da.has_id(cid_v(c)) {
        }
    } else {
        // c was absorbed; the second application finds its id present
        assert(da.total_has(c));
        lemma_has_id_total(da, cid_v(c));
        assert(da.has_id(cid_v(c)));
    }
}

/// Convergence of reads: documents holding the same set of changes read the
/// same chat history, entry for entry and in the same order.
///
/// The existence hypotheses are discharged by `map_range`, whose result
/// witnesses the canonical enumeration of its document.
pub proof fn lemma_convergent_reads(s1: Seq<ChangeV>, s2: Seq<ChangeV>)
    requires
        forall|x: ChangeV| s1.contains(x) <==> s2.contains(x),
        exists|es: Seq<EntryV>| canon_entries(s1, ObjectId::Root, es),
        exists|es: Seq<EntryV>| canon_entries(s2, ObjectId::Root, es),
    ensures
        messages_spec(s1) == messages_spec(s2),
{
    let es1 = map_range_spec(s1, ObjectId::Root);
    let es2 = map_range_spec(s2, ObjectId::Root);
    assert(canon_entries(s1, ObjectId::Root, es1)) by {
        let es = choose|es: Seq<EntryV>| canon_entries(s1, ObjectId::Root, es);
    }
    assert(canon_entries(s2, ObjectId::Root, es2)) by {
        let es = choose|es: Seq<EntryV>| canon_entries(s2, ObjectId::Root, es);
    }
    lemma_map_range_equiv(s1, s2, ObjectId::Root, es1, es2);
    lemma_collect_equiv(s1, s2, es1);
}

/// Histories with the same changes extract the same message from every
/// entry.
proof fn lemma_collect_equiv(s1: Seq<ChangeV>, s2: Seq<ChangeV>, es: Seq<EntryV>)
    requires
        forall|x: ChangeV| s1.contains(x) <==> s2.contains(x),
    ensures
        collect_msgs(s1, es) == collect_msgs(s2, es),
    decreases es.len(),
{
    if es.len() > 0 {
        lemma_collect_equiv(s1, s2, es.drop_last());
        assert(entry_msg(s1, es.last()) == entry_msg(s2, es.last())) by {
            match es.last().value {
                ValueV::Object(o) => {
                    lemma_resolved_equiv(s1, s2, o, KeyV::Field("user_id"@));
                    lemma_resolved_equiv(s1, s2, o, KeyV::Field("content"@));
                    lemma_resolved_equiv(s1, s2, o, KeyV::Field("timestamp"@));
                },
                _ => {},
            }
        }
    }
}

/// Causal safety: every dependency of every applied change is itself
/// applied.  All reads — `get`, `map_range`, `get_messages` — are specified
/// over the applied arena alone, so no change is ever reflected in a result
/// before all of its declared dependencies are.
pub proof fn lemma_causal_safety(d: DocV)
    requires
        d.wf(),
    ensures
        dep_closed(d.applied),
{
    assert forall|i: int, j: int|
        0 <= i < d.applied.len() && 0 <= j < (#[trigger] d.applied[i]).deps.len() implies has_cid(
        d.applied,
        #[trigger] d.applied[i].deps[j],
    ) by {
        assert(deps_in(d.applied[i], d.applied.take(i)));
        assert(has_cid(d.applied.take(i), d.applied[i].deps[j]));
        crate::types::lemma_has_cid_take(d.applied, i, d.applied[i].deps[j]);
    }
}


/// Stable insertion adds exactly one member.
proof fn lemma_insert_membership(s: Seq<MsgV>, m: MsgV)
    ensures
        forall|x: MsgV| #[trigger] ts_insert(s, m).contains(x) <==> s.contains(x) || x == m,
{
    lemma_ts_pos(s, m);
    let p = ts_insert_pos(s, m);
    let t = ts_insert(s, m);
    assert forall|x: MsgV| #[trigger] t.contains(x) implies s.contains(x) || x == m by {
        let k = choose|k: int| 0 <= k < t.len() && t[k] == x;
        if k < p {
            assert(s[k] == x);
        } else if k > p {
            assert(s[k - 1] == x);
        }
    }
    assert forall|x: MsgV| s.contains(x) || x == m implies #[trigger] t.contains(x) by {
        if x == m {
            assert(t[p] == x);
        } else {
            let k = choose|k: int| 0 <= k < s.len() && s[k] == x;
            if k < p {
                assert(t[k] == x);
            } else {
                assert(t[k + 1] == x);
            }
        }
    }
}

/// The stable sort is a permutation: membership is unchanged.
pub proof fn lemma_sort_membership(s: Seq<MsgV>)
    ensures
        forall|x: MsgV| #[trigger] sort_by_ts(s).contains(x) <==> s.contains(x),
    decreases s.len(),
{
    if s.len() > 0 {
        lemma_sort_membership(s.drop_last());
        lemma_insert_membership(sort_by_ts(s.drop_last()), s.last());
        assert forall|x: MsgV| s.contains(x) implies #[trigger] sort_by_ts(s).contains(x) by {
            let k = choose|k: int| 0 <= k < s.len() && s[k] == x;
            if k < s.len() - 1 {
                assert(s.drop_last()[k] == x);
                assert(s.drop_last().contains(x));
            } else {
                assert(x == s.last());
            }
        }
        assert forall|x: MsgV| #[trigger] sort_by_ts(s).contains(x) implies s.contains(x) by {
            if s.drop_last().contains(x) {
                let k = choose|k: int| 0 <= k < s.drop_last().len() && s.drop_last()[k] == x;
                assert(s[k] == x);
            } else {
                assert(x == s.last());
                assert(s[s.len() - 1] == x);
            }
        }
    }
}

/// A message is read exactly when some enumerated entry yields it.
pub proof fn lemma_collect_membership(s: Seq<ChangeV>, es: Seq<EntryV>)
    ensures
        forall|m: MsgV|
            #[trigger] collect_msgs(s, es).contains(m) <==> exists|e: EntryV|
                #[trigger] es.contains(e) && entry_msg(s, e) == Some(m),
    decreases es.len(),
{
    if es.len() == 0 {
        assert forall|m: MsgV| #[trigger] collect_msgs(s, es).contains(m) implies false by {}
    } else {
        lemma_collect_membership(s, es.drop_last());
        let col = collect_msgs(s, es);
        let pre = collect_msgs(s, es.drop_last());
        assert forall|m: MsgV| #[trigger] col.contains(m) implies exists|e: EntryV|
            #[trigger] es.contains(e) && entry_msg(s, e) == Some(m) by {
            let inpre = {
                if entry_msg(s, es.last()) is Some {
                    let k = choose|k: int| 0 <= k < col.len() && col[k] == m;
                    k < pre.len()
                } else {
                    true
                }
            };
            if inpre {
                if entry_msg(s, es.last()) is Some {
                    let k = choose|k: int| 0 <= k < col.len() && col[k] == m;
                    assert(pre[k] == m);
                    assert(pre.contains(m));
                } else {
                    assert(pre.contains(m));
                }
                let e = choose|e: EntryV|
                    #[trigger] es.drop_last().contains(e) && entry_msg(s, e) == Some(m);
                let w = choose|w: int| 0 <= w < es.drop_last().len() && es.drop_last()[w] == e;
                assert(es[w] == e);
                assert(es.contains(e) && entry_msg(s, e) == Some(m));
            } else {
                let k = choose|k: int| 0 <= k < col.len() && col[k] == m;
                assert(m == col.last());
                assert(entry_msg(s, es.last()) == Some(m));
                assert(es[es.len() - 1] == es.last());
                assert(es.contains(es.last()) && entry_msg(s, es.last()) == Some(m));
            }
        }
        assert forall|m: MsgV|
            (exists|e: EntryV| #[trigger] es.contains(e) && entry_msg(s, e) == Some(m)) implies
            #[trigger] col.contains(m) by {
            let e = choose|e: EntryV| #[trigger] es.contains(e) && entry_msg(s, e) == Some(m);
            let k = choose|k: int| 0 <= k < es.len() && es[k] == e;
            if k < es.len() - 1 {
                assert(es.drop_last()[k] == e);
                assert(es.drop_last().contains(e));
                assert(pre.contains(m));
                let w = choose|w: int| 0 <= w < pre.len() && pre[w] == m;
                assert(col[w] == m);
            } else {
                assert(e == es.last());
                assert(col.last() == m);
                assert(col[col.len() - 1] == m);
            }
        }
    }
}

/// Histories with the same operations on a slot resolve it the same way.
proof fn lemma_resolved_equal_on_slot(s1: Seq<ChangeV>, s2: Seq<ChangeV>, t: ObjectId, k: KeyV)
    requires
        forall|o: OpV|
            (#[trigger] op_in(s1, o) && writes_key(o, t, k)) <==> (#[trigger] op_in(s2, o)
                && writes_key(o, t, k)),
    ensures
        resolved(s1, t, k) == resolved(s2, t, k),
        has_winner(s1, t, k) ==> winner(s1, t, k) == winner(s2, t, k),
{
    if has_winner(s1, t, k) {
        let w1 = winner(s1, t, k);
        assert(is_winner(w1, s1, t, k));
        assert(op_in(s2, w1));
        assert forall|p: OpV| #[trigger] op_in(s2, p) && writes_key(p, t, k) && p != w1 implies beats(
            w1,
            p,
        ) by {
            assert(op_in(s1, p) && writes_key(p, t, k));
        }
        assert(is_winner(w1, s2, t, k));
        let w2 = winner(s2, t, k);
        assert(is_winner(w2, s2, t, k));
        crate::resolve::lemma_winner_unique(s2, t, k, w1, w2);
    } else if has_winner(s2, t, k) {
        let w2 = winner(s2, t, k);
        assert(is_winner(w2, s2, t, k));
        assert(op_in(s1, w2));
        assert forall|p: OpV| #[trigger] op_in(s1, p) && writes_key(p, t, k) && p != w2 implies beats(
            w2,
            p,
        ) by {
            assert(op_in(s2, p) && writes_key(p, t, k));
        }
        assert(is_winner(w2, s1, t, k));
        assert(has_winner(s1, t, k));
    }
}

/// Monotonicity: once a message is readable on a replica, merging any
/// further chat history never removes it.
///
/// The law holds of histories whose changes all come from `add_message`
/// (each message under its own logical key, written once by its creator).
/// It cannot hold of arbitrary histories: a change carrying a deletion of a
/// message's root key, or a later write to the same slot, removes the entry
/// by design.
pub proof fn lemma_monotonicity(s1: Seq<ChangeV>, s2: Seq<ChangeV>, m: MsgV)
    requires
        forall|x: ChangeV| s1.contains(x) ==> s2.contains(x),
        forall|x: ChangeV| #[trigger] s2.contains(x) ==> chat_change(x),
        forall|x: ChangeV, y: ChangeV| s2.contains(x) && s2.contains(y) ==> compat(x, y),
        exists|es: Seq<EntryV>| canon_entries(s1, ObjectId::Root, es),
        exists|es: Seq<EntryV>| canon_entries(s2, ObjectId::Root, es),
        messages_spec(s1).contains(m),
    ensures
        messages_spec(s2).contains(m),
{
    let es1 = map_range_spec(s1, ObjectId::Root);
    let es2 = map_range_spec(s2, ObjectId::Root);
    assert(canon_entries(s1, ObjectId::Root, es1)) by {
        let es = choose|es: Seq<EntryV>| canon_entries(s1, ObjectId::Root, es);
    }
    assert(canon_entries(s2, ObjectId::Root, es2)) by {
        let es = choose|es: Seq<EntryV>| canon_entries(s2, ObjectId::Root, es);
    }
    lemma_sort_membership(collect_msgs(s1, es1));
    lemma_sort_membership(collect_msgs(s2, es2));
    lemma_collect_membership(s1, es1);
    lemma_collect_membership(s2, es2);
    let e = choose|e: EntryV| #[trigger] es1.contains(e) && entry_msg(s1, e) == Some(m);
    assert(entry_at(s1, ObjectId::Root, e));
    assert(has_winner(s1, ObjectId::Root, e.key));
    let w = winner(s1, ObjectId::Root, e.key);
    assert(is_winner(w, s1, ObjectId::Root, e.key));
    let i = choose|i: int| 0 <= i < s1.len() && (#[trigger] s1[i]).ops.contains(w);
    let c = s1[i];
    assert(s1.contains(c));
    assert(s2.contains(c));
    assert(chat_change(c));
    let b = choose|b: int| 0 <= b < c.ops.len() && c.ops[b] == w;
    assert(b == 0) by {
        if b >= 1 {
            assert(c.ops[b].target == (ObjectId::Obj { actor: c.actor, counter: c.start }));
        }
    }
    assert(w == c.ops[0]);
    assert(w.actor == c.actor && w.counter == c.start);
    assert(e.key == (KeyV::Logical { counter: c.start, actor: c.actor }));
    let obj = ObjectId::Obj { actor: c.actor, counter: c.start };
    assert(e.value == ValueV::Object(obj));
    // the root slot of this message holds the same operations in s2
    assert forall|o: OpV|
        (#[trigger] op_in(s1, o) && writes_key(o, ObjectId::Root, e.key)) <==> (#[trigger] op_in(
            s2,
            o,
        ) && writes_key(o, ObjectId::Root, e.key)) by {
        if op_in(s1, o) && writes_key(o, ObjectId::Root, e.key) {
            lemma_op_transfer(s1, s2, o);
        }
        if op_in(s2, o) && writes_key(o, ObjectId::Root, e.key) {
            lemma_chat_root_op(s1, s2, c, o, e.key);
        }
    }
    lemma_resolved_equal_on_slot(s1, s2, ObjectId::Root, e.key);
    assert(entry_at(s2, ObjectId::Root, e));
    assert(es2.contains(e));
    // the message's fields live on its own object, written only by c
    assert(entry_msg(s2, e) == Some(m)) by {
        lemma_chat_obj_slot(s1, s2, c, KeyV::Field("user_id"@));
        lemma_chat_obj_slot(s1, s2, c, KeyV::Field("content"@));
        lemma_chat_obj_slot(s1, s2, c, KeyV::Field("timestamp"@));
    }
    assert(exists|e2: EntryV| #[trigger] es2.contains(e2) && entry_msg(s2, e2) == Some(m)) by {
        assert(es2.contains(e) && entry_msg(s2, e) == Some(m));
    }
}

/// An operation of a change in `s1` is an operation of `s2 ⊇ s1`.
proof fn lemma_op_transfer(s1: Seq<ChangeV>, s2: Seq<ChangeV>, o: OpV)
    requires
        forall|x: ChangeV| s1.contains(x) ==> s2.contains(x),
        op_in(s1, o),
    ensures
        op_in(s2, o),
{
    let i = choose|i: int| 0 <= i < s1.len() && (#[trigger] s1[i]).ops.contains(o);
    assert(s1.contains(s1[i]));
    assert(s2.contains(s1[i]));
    let j = choose|j: int| 0 <= j < s2.len() && s2[j] == s1[i];
    assert(s2[j].ops.contains(o));
}

/// In an all-chat history, the only operation on the root at `c`'s logical
/// key is `c`'s own creation operation — so it is present wherever `c` is.
proof fn lemma_chat_root_op(s1: Seq<ChangeV>, s2: Seq<ChangeV>, c: ChangeV, o: OpV, k: KeyV)
    requires
        forall|x: ChangeV| s1.contains(x) ==> s2.contains(x),
        forall|x: ChangeV| #[trigger] s2.contains(x) ==> chat_change(x),
        forall|x: ChangeV, y: ChangeV| s2.contains(x) && s2.contains(y) ==> compat(x, y),
        s1.contains(c),
        chat_change(c),
        k == (KeyV::Logical { counter: c.start, actor: c.actor }),
        op_in(s2, o),
        writes_key(o, ObjectId::Root, k),
    ensures
        op_in(s1, o),
{
    let i2 = choose|i2: int| 0 <= i2 < s2.len() && (#[trigger] s2[i2]).ops.contains(o);
    let c2 = s2[i2];
    assert(s2.contains(c2));
    assert(chat_change(c2));
    let b2 = choose|b2: int| 0 <= b2 < c2.ops.len() && c2.ops[b2] == o;
    assert(b2 == 0) by {
        if b2 >= 1 {
            assert(c2.ops[b2].target == (ObjectId::Obj { actor: c2.actor, counter: c2.start }));
        }
    }
    assert(o.key == (KeyV::Logical { counter: c2.start, actor: c2.actor }));
    assert(c2.start == c.start && c2.actor == c.actor);
    assert(cid_v(c2) == cid_v(c));
    assert(s2.contains(c));
    assert(compat(c2, c));
    assert(c2 == c);
    let w1 = choose|w1: int| 0 <= w1 < s1.len() && s1[w1] == c;
    assert(s1[w1].ops.contains(o));
}

/// In an all-chat history, only `c` itself writes fields of `c`'s message
/// object, so every field slot of that object resolves alike in any larger
/// history.
proof fn lemma_chat_obj_slot(s1: Seq<ChangeV>, s2: Seq<ChangeV>, c: ChangeV, fk: KeyV)
    requires
        forall|x: ChangeV| s1.contains(x) ==> s2.contains(x),
        forall|x: ChangeV| #[trigger] s2.contains(x) ==> chat_change(x),
        forall|x: ChangeV, y: ChangeV| s2.contains(x) && s2.contains(y) ==> compat(x, y),
        s1.contains(c),
        chat_change(c),
    ensures
        resolved(s1, ObjectId::Obj { actor: c.actor, counter: c.start }, fk) == resolved(
            s2,
            ObjectId::Obj { actor: c.actor, counter: c.start },
            fk,
        ),
{
    let obj = ObjectId::Obj { actor: c.actor, counter: c.start };
    assert forall|o: OpV|
        (#[trigger] op_in(s1, o) && writes_key(o, obj, fk)) <==> (#[trigger] op_in(s2, o)
            && writes_key(o, obj, fk)) by {
        if op_in(s1, o) && writes_key(o, obj, fk) {
            lemma_op_transfer(s1, s2, o);
        }
        if op_in(s2, o) && writes_key(o, obj, fk) {
            let i2 = choose|i2: int| 0 <= i2 < s2.len() && (#[trigger] s2[i2]).ops.contains(o);
            let c2 = s2[i2];
            assert(s2.contains(c2));
            assert(chat_change(c2));
            let b2 = choose|b2: int| 0 <= b2 < c2.ops.len() && c2.ops[b2] == o;
            assert(b2 >= 1) by {
                if b2 == 0 {
                    assert(c2.ops[0].target == ObjectId::Root);
                }
            }
            assert(o.target == (ObjectId::Obj { actor: c2.actor, counter: c2.start }));
            assert(c2.start == c.start && c2.actor == c.actor);
            assert(cid_v(c2) == cid_v(c));
            assert(s2.contains(c));
            assert(compat(c2, c));
            assert(c2 == c);
            let w1 = choose|w1: int| 0 <= w1 < s1.len() && s1[w1] == c;
            assert(s1[w1].ops.contains(o));
        }
    }
    lemma_resolved_equal_on_slot(s1, s2, obj, fk);
}
} // verus!
