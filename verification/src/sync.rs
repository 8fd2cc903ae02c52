//! The pairwise sync protocol.
//!
//! Per ordered peer pair, a replica keeps a [`PeerState`]: the peer's last
//! announced frontier, and the set of change ids the peer is known to hold
//! (announced by the peer, or sent to it).  [`generate_sync_message`]
//! returns nothing exactly when the local frontier is already covered by
//! that record — the termination signal of the driving loop; otherwise it
//! sends the local frontier, a summary of all held ids, and every applied
//! change the peer is not known to hold, in causal order.
//! [`receive_sync_message`] applies the received changes (buffering those
//! with missing dependencies) and updates the record.

use vstd::prelude::*;
use crate::doc::{change_views, Document, DocV};
use crate::types::{
    cid_v, compat, deps_in, dup_change, has_cid, is_head, ranges_ok, wf_change, ApplyError, Change,
    ChangeId, ChangeV,
};

verus! {

/// Per-remote-replica bookkeeping.
pub struct PeerState {
    peer_heads: Vec<ChangeId>,
    peer_has: Vec<ChangeId>,
}

/// View of the peer bookkeeping.
#[verifier::ext_equal]
pub struct PeerStateV {
    pub peer_heads: Seq<ChangeId>,
    pub peer_has: Seq<ChangeId>,
}

impl View for PeerState {
    type V = PeerStateV;

    closed spec fn view(&self) -> PeerStateV {
        PeerStateV { peer_heads: self.peer_heads@, peer_has: self.peer_has@ }
    }
}

impl PeerState {
    /// Fresh bookkeeping for a peer nothing is known about.
    pub fn new() -> (r: PeerState)
        ensures
            r@.peer_heads.len() == 0,
            r@.peer_has.len() == 0,
    {
        PeerState { peer_heads: Vec::new(), peer_has: Vec::new() }
    }
}

/// One protocol unit: the sender's frontier, a summary of every change id
/// the sender holds, and the changes the sender determined the peer needs.
pub struct SyncMessage {
    pub heads: Vec<ChangeId>,
    pub have: Vec<ChangeId>,
    pub changes: Vec<Change>,
}

/// The ids of a sequence of changes.
pub open spec fn cids_of(s: Seq<ChangeV>) -> Seq<ChangeId> {
    Seq::new(s.len(), |i: int| cid_v(s[i]))
}

/// The subsequence of `s` whose ids are not in `known`, in order.
pub open spec fn missing_from(s: Seq<ChangeV>, known: Seq<ChangeId>) -> Seq<ChangeV>
    decreases s.len(),
{
    if s.len() == 0 {
        Seq::empty()
    } else {
        let prefix = missing_from(s.drop_last(), known);
        if known.contains(cid_v(s.last())) {
            prefix
        } else {
            prefix.push(s.last())
        }
    }
}

/// The local frontier is covered by what the peer is known to hold: the
/// condition under which nothing needs to be said.
pub open spec fn frontier_covered(d: DocV, st: PeerStateV) -> bool {
    forall|j: int| 0 <= j < d.heads.len() ==> st.peer_has.contains(#[trigger] d.heads[j])
}

/// Membership in the filtered subsequence.
pub proof fn lemma_missing_membership(s: Seq<ChangeV>, known: Seq<ChangeId>)
    ensures
        forall|x: ChangeV|
            #[trigger] missing_from(s, known).contains(x) <==> (s.contains(x) && !known.contains(
                cid_v(x),
            )),
    decreases s.len(),
{
    if s.len() == 0 {
        assert forall|x: ChangeV| #[trigger] missing_from(s, known).contains(x) implies false by {}
    } else {
        lemma_missing_membership(s.drop_last(), known);
        let ms = missing_from(s, known);
        let prefix = missing_from(s.drop_last(), known);
        assert forall|x: ChangeV| #[trigger] ms.contains(x) implies (s.contains(x)
            && !known.contains(cid_v(x))) by {
            let m = choose|m: int| 0 <= m < ms.len() && ms[m] == x;
            if m < prefix.len() {
                assert(prefix[m] == x);
                assert(prefix.contains(x));
                assert(s.drop_last().contains(x));
                let w = choose|w: int| 0 <= w < s.len() - 1 && s.drop_last()[w] == x;
                assert(s[w] == x);
            } else {
                assert(x == s.last());
                assert(s[s.len() - 1] == x);
            }
        }
        assert forall|x: ChangeV| s.contains(x) && !known.contains(cid_v(x)) implies
            #[trigger] ms.contains(x) by {
            let w = choose|w: int| 0 <= w < s.len() && s[w] == x;
            if w < s.len() - 1 {
                assert(s.drop_last()[w] == x);
                assert(s.drop_last().contains(x));
                assert(prefix.contains(x));
                let m = choose|m: int| 0 <= m < prefix.len() && prefix[m] == x;
                assert(ms[m] == x);
            } else {
                assert(x == s.last());
                assert(ms[ms.len() - 1] == x);
            }
        }
    }
}

/// In a topologically ordered arena with distinct ids, every dependency of
/// a filtered change is either known or supplied earlier in the filtered
/// sequence.
pub proof fn lemma_missing_deps(s: Seq<ChangeV>, known: Seq<ChangeId>)
    requires
        forall|i: int|
            0 <= i < s.len() ==> wf_change(#[trigger] s[i]) && deps_in(s[i], s.take(i)),
    ensures
        forall|i: int, j: int|
            0 <= i < missing_from(s, known).len() && 0 <= j < (#[trigger] missing_from(
                s,
                known,
            )[i]).deps.len() ==> known.contains(#[trigger] missing_from(s, known)[i].deps[j])
                || has_cid(missing_from(s, known).take(i), missing_from(s, known)[i].deps[j]),
    decreases s.len(),
{
    if s.len() == 0 {
    } else {
        let butlast = s.drop_last();
        assert forall|i: int| 0 <= i < butlast.len() implies wf_change(#[trigger] butlast[i])
            && deps_in(butlast[i], butlast.take(i)) by {
            assert(butlast[i] == s[i]);
            assert(butlast.take(i) =~= s.take(i));
        }
        lemma_missing_deps(butlast, known);
        lemma_missing_membership(butlast, known);
        let ms = missing_from(s, known);
        let prefix = missing_from(butlast, known);
        assert forall|i: int, j: int|
            0 <= i < ms.len() && 0 <= j < (#[trigger] ms[i]).deps.len() implies known.contains(
            #[trigger] ms[i].deps[j],
        ) || has_cid(ms.take(i), ms[i].deps[j]) by {
            if i < prefix.len() {
                assert(ms[i] == prefix[i]);
                assert(ms.take(i) =~= prefix.take(i));
                assert(known.contains(prefix[i].deps[j]) || has_cid(
                    prefix.take(i),
                    prefix[i].deps[j],
                ));
            } else {
                // ms[i] is s.last(); its dependencies live in s.drop_last()
                assert(ms[i] == s.last());
                let c = s.last();
                let h = c.deps[j];
                assert(deps_in(c, s.take(s.len() - 1)));
                assert(has_cid(s.take(s.len() - 1), h));
                let w = choose|w: int|
                    0 <= w < s.take(s.len() - 1).len() && cid_v(#[trigger] s.take(
                        s.len() - 1,
                    )[w]) == h;
                let z = s.take(s.len() - 1)[w];
                assert(z == butlast[w]);
                assert(butlast.contains(z));
                if !known.contains(h) {
                    assert(prefix.contains(z));
                    let m = choose|m: int| 0 <= m < prefix.len() && prefix[m] == z;
                    assert(ms.take(i) =~= prefix);
                    assert(has_cid(ms.take(i), h));
                }
            }
        }
    }
}

/// Whether a batch of changes can be absorbed cleanly by a document in
/// state `d`: each change well formed, compatible with everything held and
/// with each other, and with every dependency either already applied or
/// supplied earlier in the batch.
pub open spec fn good_msg(d: DocV, cs: Seq<ChangeV>) -> bool {
    forall|i: int|
        0 <= i < cs.len() ==> {
            &&& wf_change(#[trigger] cs[i])
            &&& (forall|x: ChangeV| #[trigger] d.total_has(x) ==> compat(cs[i], x))
            &&& (forall|j: int| 0 <= j < cs.len() ==> compat(cs[i], #[trigger] cs[j]))
            &&& (forall|j: int|
                0 <= j < cs[i].deps.len() ==> has_cid(d.applied, #[trigger] cs[i].deps[j])
                    || has_cid(cs.take(i), cs[i].deps[j]))
        }
}

/// Compare the local history against what the peer is known to hold and
/// produce the next message, or nothing exactly when the peer's record
/// already covers the local frontier.
#[verifier::loop_isolation(false)]
pub fn generate_sync_message(doc: &Document, st: &mut PeerState) -> (r: Option<SyncMessage>)
    requires
        doc@.wf(),
    ensures
        match r {
            None => frontier_covered(doc@, old(st)@) && final(st)@ == old(st)@,
            Some(m) => {
                &&& !frontier_covered(doc@, old(st)@)
                &&& m.heads@ == doc@.heads
                &&& m.have@ == cids_of(doc@.applied)
                &&& change_views(m.changes@) == missing_from(doc@.applied, old(st)@.peer_has)
                &&& final(st)@.peer_heads == old(st)@.peer_heads
                &&& final(st)@.peer_has == old(st)@.peer_has + cids_of(
                    change_views(m.changes@),
                )
            },
        },
{
    let ghost s = doc@.applied;
    let ghost known = st@.peer_has;
    let heads = doc.heads();
    let mut covered = true;
    let mut j: usize = 0;
    while j < heads.len()
        invariant
            j <= heads.len(),
            heads@ == doc@.heads,
            covered == forall|k: int|
                0 <= k < j ==> st@.peer_has.contains(#[trigger] doc@.heads[k]),
            st@ == old(st)@,
        decreases heads.len() - j,
    {
        if !crate::doc::cids_contains(&st.peer_has, heads[j]) {
            covered = false;
        }
        j = j + 1;
    }
    if covered {
        return None;
    }
    let applied = doc.borrow_applied();
    // the summary of everything held
    let mut have: Vec<ChangeId> = Vec::new();
    let mut i: usize = 0;
    while i < applied.len()
        invariant
            i <= applied.len(),
            change_views(applied@) == s,
            have@ == cids_of(s.take(i as int)),
            st@ == old(st)@,
        decreases applied.len() - i,
    {
        have.push(ChangeId { actor: applied[i].actor, counter: applied[i].start });
        proof {
            assert(have@ =~= cids_of(s.take(i + 1 as int))) by {
                assert(cid_v(s[i as int]) == (ChangeId {
                    actor: applied@[i as int].actor,
                    counter: applied@[i as int].start,
                }));
                assert(forall|k: int|
                    0 <= k < i ==> cids_of(s.take(i + 1 as int))[k] == cids_of(
                        s.take(i as int),
                    )[k]);
            }
        }
        i = i + 1;
    }
    proof {
        assert(s.take(s.len() as int) =~= s);
    }
    // the changes the peer is not known to hold, in causal order
    let mut changes: Vec<Change> = Vec::new();
    let mut i2: usize = 0;
    while i2 < applied.len()
        invariant
            i2 <= applied.len(),
            change_views(applied@) == s,
            known == st@.peer_has,
            change_views(changes@) == missing_from(s.take(i2 as int), known),
            st@ == old(st)@,
        decreases applied.len() - i2,
    {
        proof {
            assert(s.take(i2 + 1 as int).drop_last() =~= s.take(i2 as int));
            assert(s.take(i2 + 1 as int).last() == s[i2 as int]);
            assert(cid_v(s[i2 as int]) == (ChangeId {
                actor: applied@[i2 as int].actor,
                counter: applied@[i2 as int].start,
            }));
        }
        let id = ChangeId { actor: applied[i2].actor, counter: applied[i2].start };
        if !crate::doc::cids_contains(&st.peer_has, id) {
            let c = dup_change(&applied[i2]);
            changes.push(c);
            proof {
                assert(change_views(changes@) =~= missing_from(s.take(i2 + 1 as int), known));
            }
        } else {
            proof {
                assert(change_views(changes@) =~= missing_from(s.take(i2 + 1 as int), known));
            }
        }
        i2 = i2 + 1;
    }
    // record what was sent as confirmed held by the peer
    let ghost sent = change_views(changes@);
    let mut i3: usize = 0;
    while i3 < changes.len()
        invariant
            i3 <= changes.len(),
            change_views(changes@) == sent,
            st@.peer_heads == old(st)@.peer_heads,
            st@.peer_has == old(st)@.peer_has + cids_of(sent).take(i3 as int),
        decreases changes.len() - i3,
    {
        proof {
            assert(cid_v(sent[i3 as int]) == (ChangeId {
                actor: changes@[i3 as int].actor,
                counter: changes@[i3 as int].start,
            }));
        }
        st.peer_has.push(ChangeId { actor: changes[i3].actor, counter: changes[i3].start });
        proof {
            assert(st@.peer_has =~= old(st)@.peer_has + cids_of(sent).take(i3 + 1 as int));
        }
        i3 = i3 + 1;
    }
    proof {
        assert(cids_of(sent).take(cids_of(sent).len() as int) =~= cids_of(sent));
        assert(st@.peer_has =~= old(st)@.peer_has + cids_of(sent));
    }
    Some(SyncMessage { heads, have, changes })
}

/// Absorb a sync message: apply its changes in order (buffering any whose
/// dependencies are missing), then record the peer's announced frontier and
/// extend the record of what the peer holds by its announced summary.
///
/// When the message is clean for this document (`good_msg`) and nothing was
/// buffered locally, every carried change ends up applied and the call
/// cannot fail.
#[verifier::loop_isolation(false)]
pub fn receive_sync_message(doc: &mut Document, st: &mut PeerState, m: &SyncMessage) -> (r: Result<
    (),
    ApplyError,
>)
    requires
        old(doc)@.wf(),
    ensures
        final(doc)@.wf(),
        final(st)@.peer_heads == m.heads@,
        final(st)@.peer_has == old(st)@.peer_has + m.have@,
        final(doc)@.actor == old(doc)@.actor,
        final(doc)@.last_local == old(doc)@.last_local,
        forall|x: ChangeV|
            old(doc)@.applied.contains(x) ==> final(doc)@.applied.contains(x),
        forall|x: ChangeV|
            #[trigger] final(doc)@.total_has(x) ==> old(doc)@.total_has(x) || change_views(
                m.changes@,
            ).contains(x),
        (good_msg(old(doc)@, change_views(m.changes@)) && old(doc)@.pending.len() == 0) ==> {
            &&& r is Ok
            &&& final(doc)@.pending.len() == 0
            &&& forall|x: ChangeV|
                #[trigger] final(doc)@.applied.contains(x) <==> old(doc)@.applied.contains(x)
                    || change_views(m.changes@).contains(x)
        },
{
    let ghost pre = old(doc)@;
    let ghost cs = change_views(m.changes@);
    st.peer_heads = crate::doc::dup_cids(&m.heads);
    let mut h: usize = 0;
    while h < m.have.len()
        invariant
            h <= m.have.len(),
            st@.peer_heads == m.heads@,
            st@.peer_has == old(st)@.peer_has + m.have@.take(h as int),
        decreases m.have.len() - h,
    {
        st.peer_has.push(m.have[h]);
        proof {
            assert(st@.peer_has =~= old(st)@.peer_has + m.have@.take(h + 1 as int));
        }
        h = h + 1;
    }
    proof {
        assert(m.have@.take(m.have@.len() as int) =~= m.have@);
    }
    let ghost good = good_msg(pre, cs) && pre.pending.len() == 0;
    let mut i: usize = 0;
    while i < m.changes.len()
        invariant
            i <= m.changes.len(),
            cs == change_views(m.changes@),
            doc@.wf(),
            doc@.actor == pre.actor,
            doc@.last_local == pre.last_local,
            forall|x: ChangeV| pre.applied.contains(x) ==> doc@.applied.contains(x),
            forall|x: ChangeV|
                #[trigger] doc@.total_has(x) ==> pre.total_has(x) || cs.contains(x),
            good ==> {
                &&& doc@.pending.len() == 0
                &&& forall|x: ChangeV|
                    #[trigger] doc@.applied.contains(x) <==> pre.applied.contains(x)
                        || cs.take(i as int).contains(x)
            },
        decreases m.changes.len() - i,
    {
        let ghost cur = doc@;
        let ghost cvi = cs[i as int];
        proof {
            assert(cvi == m.changes@[i as int]@);
            assert(cs.take(i + 1 as int) =~= cs.take(i as int).push(cvi));
        }
        let res = doc.apply_change(&m.changes[i]);
        proof {
            let post = doc@;
            // general conservation
            assert(crate::doc::apply_outcome(cur, cvi, post, res));
            assert forall|x: ChangeV| #[trigger] post.total_has(x) implies pre.total_has(x)
                || cs.contains(x) by {
                if !wf_change(cvi) || cur.has_id(cid_v(cvi)) || (exists|y: ChangeV|
                    #[trigger] cur.total_has(y) && crate::doc::overlapping(y, cvi)) {
                    assert(post == cur);
                    assert(cur.total_has(x));
                } else {
                    if x != cvi {
                        assert(cur.total_has(x));
                    } else {
                        assert(cs.contains(cvi)) by {
                            assert(cs[i as int] == cvi);
                        }
                    }
                }
            }
            assert forall|x: ChangeV| pre.applied.contains(x) implies post.applied.contains(
                x,
            ) by {
                if !wf_change(cvi) || cur.has_id(cid_v(cvi)) || (exists|y: ChangeV|
                    #[trigger] cur.total_has(y) && crate::doc::overlapping(y, cvi)) {
                    assert(post == cur);
                } else {
                    assert(cur.applied.contains(x));
                    let w = choose|w: int| 0 <= w < cur.applied.len() && cur.applied[w] == x;
                    assert(post.applied.take(cur.applied.len() as int) == cur.applied);
                    assert(post.applied.take(cur.applied.len() as int)[w] == x);
                    assert(post.applied[w] == x);
                }
            }
        }
        proof {
            if good {
                let post = doc@;
                assert(wf_change(cvi));
                // no held change overlaps cvi, and a held change with its id is cvi itself
                assert forall|y: ChangeV| #[trigger] cur.total_has(y) implies compat(cvi, y) by {
                    if pre.total_has(y) {
                    } else {
                        assert(cs.contains(y));
                        let jj = choose|jj: int| 0 <= jj < cs.len() && cs[jj] == y;
                        assert(compat(cs[i as int], cs[jj]));
                    }
                }
                if cur.has_id(cid_v(cvi)) {
                    // the duplicate is cvi itself, already applied
                    assert(post == cur);
                    assert(cur.pending.len() == 0);
                    assert(has_cid(cur.applied, cid_v(cvi)));
                    let w = choose|w: int|
                        0 <= w < cur.applied.len() && cid_v(#[trigger] cur.applied[w]) == cid_v(
                            cvi,
                        );
                    assert(cur.total_has(cur.applied[w]));
                    assert(compat(cvi, cur.applied[w]));
                    assert(cur.applied[w] == cvi);
                    assert(cur.applied.contains(cvi));
                } else {
                    assert(!(exists|y: ChangeV|
                        #[trigger] cur.total_has(y) && crate::doc::overlapping(y, cvi))) by {
                        if exists|y: ChangeV|
                            #[trigger] cur.total_has(y) && crate::doc::overlapping(y, cvi) {
                            let y = choose|y: ChangeV|
                                #[trigger] cur.total_has(y) && crate::doc::overlapping(y, cvi);
                            assert(compat(cvi, y));
                            assert(y != cvi) by {
                                if y == cvi {
                                    if cur.applied.contains(y) {
                                        let w = choose|w: int|
                                            0 <= w < cur.applied.len() && cur.applied[w] == y;
                                        assert(has_cid(cur.applied, cid_v(cvi)));
                                    } else {
                                        let w = choose|w: int|
                                            0 <= w < cur.pending.len() && cur.pending[w] == y;
                                        assert(has_cid(cur.pending, cid_v(cvi)));
                                    }
                                }
                            }
                            assert(crate::types::ranges_ok(y, cvi));
                            assert(wf_change(y)) by {
                                if cur.applied.contains(y) {
                                    let w = choose|w: int|
                                        0 <= w < cur.applied.len() && cur.applied[w] == y;
                                } else {
                                    let w = choose|w: int|
                                        0 <= w < cur.pending.len() && cur.pending[w] == y;
                                }
                            }
                            assert(false);
                        }
                    }
                    // dependencies are all applied by now
                    assert(deps_in(cvi, cur.applied)) by {
                        assert forall|jj: int| 0 <= jj < cvi.deps.len() implies has_cid(
                            cur.applied,
                            #[trigger] cvi.deps[jj],
                        ) by {
                            assert(has_cid(pre.applied, cvi.deps[jj]) || has_cid(
                                cs.take(i as int),
                                cvi.deps[jj],
                            ));
                            if has_cid(pre.applied, cvi.deps[jj]) {
                                let w = choose|w: int|
                                    0 <= w < pre.applied.len() && cid_v(
                                        #[trigger] pre.applied[w],
                                    ) == cvi.deps[jj];
                                assert(pre.applied.contains(pre.applied[w]));
                                assert(cur.applied.contains(pre.applied[w]));
                                let w2 = choose|w2: int|
                                    0 <= w2 < cur.applied.len() && cur.applied[w2]
                                        == pre.applied[w];
                                assert(cid_v(cur.applied[w2]) == cvi.deps[jj]);
                            } else {
                                let w = choose|w: int|
                                    0 <= w < cs.take(i as int).len() && cid_v(
                                        #[trigger] cs.take(i as int)[w],
                                    ) == cvi.deps[jj];
                                let z = cs.take(i as int)[w];
                                assert(cs.take(i as int).contains(z));
                                assert(cur.applied.contains(z));
                                let w2 = choose|w2: int|
                                    0 <= w2 < cur.applied.len() && cur.applied[w2] == z;
                                assert(cid_v(cur.applied[w2]) == cvi.deps[jj]);
                            }
                        }
                    }
                    assert(res is Ok);
                    assert(post.applied.contains(cvi));
                    // the buffer stays empty
                    assert(post.pending.len() == 0) by {
                        if post.pending.len() > 0 {
                            let p = post.pending[0];
                            assert(post.pending.contains(p));
                            assert(post.total_has(p));
                            assert(pre.total_has(p) || p == cvi);
                            assert(pre.pending.len() == 0);
                            if p == cvi || pre.applied.contains(p) {
                                assert(post.applied.contains(p));
                                let wa = choose|wa: int|
                                    0 <= wa < post.applied.len() && post.applied[wa] == p;
                                let wp = choose|wp: int|
                                    0 <= wp < post.pending.len() && post.pending[wp] == p;
                                assert(cid_v(post.applied[wa]) != cid_v(post.pending[wp]));
                            }
                        }
                    }
                }
                // applied set after this step
                assert forall|x: ChangeV| #[trigger] post.applied.contains(x) implies pre.applied.contains(
                    x,
                ) || cs.take(i + 1 as int).contains(x) by {
                    if !cur.has_id(cid_v(cvi)) {
                        assert(pre.applied.contains(x) || cur.pending.contains(x) || x == cvi
                            || cur.applied.contains(x));
                        if cur.applied.contains(x) {
                            assert(pre.applied.contains(x) || cs.take(i as int).contains(x));
                            if cs.take(i as int).contains(x) {
                                let w = choose|w: int|
                                    0 <= w < i && (#[trigger] cs.take(i as int)[w]) == x;
                                assert(cs.take(i + 1 as int)[w] == x);
                            }
                        } else if x == cvi {
                            assert(cs.take(i + 1 as int)[i as int] == cvi);
                        }
                    } else {
                        assert(post == cur);
                        if cs.take(i as int).contains(x) {
                            let w = choose|w: int|
                                0 <= w < i && (#[trigger] cs.take(i as int)[w]) == x;
                            assert(cs.take(i + 1 as int)[w] == x);
                        }
                    }
                }
                assert forall|x: ChangeV| pre.applied.contains(x) || cs.take(
                    i + 1 as int,
                ).contains(x) implies #[trigger] post.applied.contains(x) by {
                    if cs.take(i + 1 as int).contains(x) {
                        let w = choose|w: int|
                            0 <= w < i + 1 && (#[trigger] cs.take(i + 1 as int)[w]) == x;
                        if w < i {
                            assert(cs.take(i as int)[w] == x);
                            assert(cur.applied.contains(x));
                        } else {
                            assert(x == cvi);
                        }
                    } else {
                        assert(cur.applied.contains(x));
                    }
                }
            }
        }
        match res {
            Ok(_) => {},
            Err(e) => {
                return Err(e);
            },
        }
        i = i + 1;
    }
    proof {
        assert(cs.take(cs.len() as int) =~= cs);
    }
    Ok(())
}


/// A non-empty applied arena has a frontier element: the last applied
/// change, which nothing applied can depend on.
pub proof fn lemma_nonempty_has_head(d: DocV)
    requires
        d.wf_core(),
        d.applied.len() > 0,
    ensures
        d.heads.len() > 0,
{
    let n = d.applied.len() as int;
    let last = d.applied[n - 1];
    let h = cid_v(last);
    assert(has_cid(d.applied, h));
    assert forall|k: int| 0 <= k < n implies !(#[trigger] d.applied[k]).deps.contains(h) by {
        if d.applied[k].deps.contains(h) {
            let j = choose|j: int|
                0 <= j < d.applied[k].deps.len() && d.applied[k].deps[j] == h;
            assert(has_cid(d.applied.take(k), h));
            let w = choose|w: int|
                0 <= w < d.applied.take(k).len() && cid_v(#[trigger] d.applied.take(k)[w]) == h;
            assert(cid_v(d.applied[w]) == cid_v(d.applied[n - 1]));
            assert(w == n - 1);
        }
    }
    assert(is_head(d.applied, h));
    assert(d.heads.contains(h));
}

/// Whether every dependency of every change in `s` is present in `s`.
pub open spec fn dep_closed(s: Seq<ChangeV>) -> bool {
    forall|i: int, j: int|
        0 <= i < s.len() && 0 <= j < (#[trigger] s[i]).deps.len() ==> has_cid(s, #[trigger] s[i].deps[j])
}

/// The frontier summarizes the whole history: if every head of `d` is
/// present (by id) in a dependency-closed, compatible set of changes, then
/// everything applied in `d` is in that set.
pub proof fn lemma_covered_subset(d: DocV, s2: Seq<ChangeV>)
    requires
        d.wf_core(),
        dep_closed(s2),
        forall|h: ChangeId| #[trigger] is_head(d.applied, h) ==> has_cid(s2, h),
        forall|x: ChangeV, y: ChangeV|
            d.applied.contains(x) && s2.contains(y) ==> compat(x, y),
    ensures
        forall|x: ChangeV| d.applied.contains(x) ==> s2.contains(x),
{
    assert forall|x: ChangeV| d.applied.contains(x) implies s2.contains(x) by {
        let w = choose|w: int| 0 <= w < d.applied.len() && d.applied[w] == x;
        lemma_covered_at(d, s2, w);
    }
}

/// Downward induction for [`lemma_covered_subset`]: the applied change at
/// index `w` is in the covering set.
proof fn lemma_covered_at(d: DocV, s2: Seq<ChangeV>, w: int)
    requires
        d.wf_core(),
        dep_closed(s2),
        forall|h: ChangeId| #[trigger] is_head(d.applied, h) ==> has_cid(s2, h),
        forall|x: ChangeV, y: ChangeV|
            d.applied.contains(x) && s2.contains(y) ==> compat(x, y),
        0 <= w < d.applied.len(),
    ensures
        s2.contains(d.applied[w]),
    decreases d.applied.len() - w,
{
    let x = d.applied[w];
    let h = cid_v(x);
    assert(d.applied.contains(x));
    assert(has_cid(d.applied, h));
    if is_head(d.applied, h) {
        assert(has_cid(s2, h));
        let m = choose|m: int| 0 <= m < s2.len() && cid_v(#[trigger] s2[m]) == h;
        assert(s2.contains(s2[m]));
        assert(compat(x, s2[m]));
        assert(s2[m] == x);
    } else {
        // some applied change depends on x; it comes strictly later
        let k = choose|k: int| 0 <= k < d.applied.len() && (#[trigger] d.applied[k]).deps.contains(h);
        assert(has_cid(d.applied.take(k), h)) by {
            let j = choose|j: int|
                0 <= j < d.applied[k].deps.len() && d.applied[k].deps[j] == h;
        }
        let w2 = choose|w2: int|
            0 <= w2 < d.applied.take(k).len() && cid_v(#[trigger] d.applied.take(k)[w2]) == h;
        assert(cid_v(d.applied[w2]) == h);
        assert(w2 == w);
        assert(w < k);
        lemma_covered_at(d, s2, k);
        // the dependent is in s2, which is closed, so x's id is in s2
        let m = choose|m: int| 0 <= m < s2.len() && s2[m] == d.applied[k];
        assert(has_cid(s2, h)) by {
            let j = choose|j: int|
                0 <= j < d.applied[k].deps.len() && d.applied[k].deps[j] == h;
            assert(has_cid(s2, s2[m].deps[j]));
        }
        let m2 = choose|m2: int| 0 <= m2 < s2.len() && cid_v(#[trigger] s2[m2]) == h;
        assert(s2.contains(s2[m2]));
        assert(compat(x, s2[m2]));
        assert(s2[m2] == x);
    }
}

/// Run the sync loop between two replicas to termination.
///
/// Starting from fresh peer states and empty buffers, the replicas
/// alternate generate / receive until both directions go silent — which
/// happens within the first two rounds of this protocol.  Afterwards both
/// hold exactly the union of the two histories, and a further
/// [`generate_sync_message`] on either side returns nothing.
pub fn run_sync(a: &mut Document, b: &mut Document, sa: &mut PeerState, sb: &mut PeerState)
    requires
        old(a)@.wf(),
        old(b)@.wf(),
        old(a)@.pending.len() == 0,
        old(b)@.pending.len() == 0,
        old(sa)@.peer_has.len() == 0,
        old(sb)@.peer_has.len() == 0,
        forall|x: ChangeV, y: ChangeV|
            old(a)@.total_has(x) && old(b)@.total_has(y) ==> compat(x, y),
    ensures
        final(a)@.wf(),
        final(b)@.wf(),
        final(a)@.pending.len() == 0,
        final(b)@.pending.len() == 0,
        forall|x: ChangeV|
            #[trigger] final(a)@.applied.contains(x) <==> old(a)@.applied.contains(x) || old(
                b,
            )@.applied.contains(x),
        forall|x: ChangeV|
            #[trigger] final(b)@.applied.contains(x) <==> old(a)@.applied.contains(x) || old(
                b,
            )@.applied.contains(x),
        frontier_covered(final(a)@, final(sa)@),
        frontier_covered(final(b)@, final(sb)@),
{
    let ghost a0 = a@;
    let ghost b0 = b@;
    proof {
        // compatibility within each replica, from its own invariant
        assert forall|x: ChangeV, y: ChangeV|
            a0.total_has(x) && a0.total_has(y) implies compat(x, y) by {
            lemma_doc_compat(a0, x, y);
        }
        assert forall|x: ChangeV, y: ChangeV|
            b0.total_has(x) && b0.total_has(y) implies compat(x, y) by {
            lemma_doc_compat(b0, x, y);
        }
    }
    let m1 = generate_sync_message(a, sa);
    match m1 {
        Some(msg1) => {
            let ghost cs1 = change_views(msg1.changes@);
            proof {
                lemma_missing_membership(a0.applied, old(sa)@.peer_has);
                assert forall|x: ChangeV| #[trigger] cs1.contains(x) implies a0.applied.contains(
                    x,
                ) by {}
                assert forall|x: ChangeV| a0.applied.contains(x) implies #[trigger] cs1.contains(
                    x,
                ) by {
                    assert(!old(sa)@.peer_has.contains(cid_v(x)));
                }
                lemma_missing_deps(a0.applied, old(sa)@.peer_has);
                assert(good_msg(b0, cs1)) by {
                    assert forall|i: int| 0 <= i < cs1.len() implies {
                        &&& wf_change(#[trigger] cs1[i])
                        &&& (forall|x: ChangeV| #[trigger] b0.total_has(x) ==> compat(cs1[i], x))
                        &&& (forall|j: int| 0 <= j < cs1.len() ==> compat(cs1[i], #[trigger] cs1[j]))
                        &&& (forall|j: int|
                            0 <= j < cs1[i].deps.len() ==> has_cid(
                                b0.applied,
                                #[trigger] cs1[i].deps[j],
                            ) || has_cid(cs1.take(i), cs1[i].deps[j]))
                    } by {
                        assert(cs1.contains(cs1[i]));
                        assert(a0.applied.contains(cs1[i]));
                        assert(a0.total_has(cs1[i]));
                        assert(wf_change(cs1[i]));
                        assert forall|x: ChangeV| #[trigger] b0.total_has(x) implies compat(
                            cs1[i],
                            x,
                        ) by {
                            assert(compat(cs1[i], x)) by {
                                assert(a0.total_has(cs1[i]) && b0.total_has(x));
                            }
                        }
                        assert forall|j: int| 0 <= j < cs1.len() implies compat(
                            cs1[i],
                            #[trigger] cs1[j],
                        ) by {
                            assert(cs1.contains(cs1[j]));
                            assert(a0.total_has(cs1[j]));
                        }
                    }
                }
            }
            let r1 = receive_sync_message(b, sb, &msg1);
            match r1 {
                Ok(_) => {},
                Err(_) => {
                    proof {
                        assert(false);
                    }
                    return ;
                },
            }
            let ghost b1 = b@;
            proof {
                assert forall|x: ChangeV| #[trigger] b1.applied.contains(x) implies a0.applied.contains(
                    x,
                ) || b0.applied.contains(x) by {}
                assert forall|x: ChangeV| a0.applied.contains(x) || b0.applied.contains(x) implies
                    #[trigger] b1.applied.contains(x) by {}
            }
            let m2 = generate_sync_message(b, sb);
            match m2 {
                Some(msg2) => {
                    let ghost cs2 = change_views(msg2.changes@);
                    let ghost known2 = old(sb)@.peer_has + msg1.have@;
                    proof {
                        lemma_missing_membership(b1.applied, known2);
                        // cs2 holds exactly what b gained beyond what a holds
                        assert forall|x: ChangeV| #[trigger] cs2.contains(x) implies b1.applied.contains(
                            x,
                        ) && !a0.applied.contains(x) by {
                            if a0.applied.contains(x) {
                                let w = choose|w: int|
                                    0 <= w < a0.applied.len() && a0.applied[w] == x;
                                assert(msg1.have@[w] == cid_v(x));
                                assert(known2[old(sb)@.peer_has.len() + w] == cid_v(x));
                                assert(known2.contains(cid_v(x)));
                            }
                        }
                        assert forall|x: ChangeV|
                            b1.applied.contains(x) && !a0.applied.contains(x) implies
                            #[trigger] cs2.contains(x) by {
                            if known2.contains(cid_v(x)) {
                                let w = choose|w: int|
                                    0 <= w < known2.len() && known2[w] == cid_v(x);
                                assert(known2[w] == msg1.have@[w - old(sb)@.peer_has.len()]);
                                let w2 = w - old(sb)@.peer_has.len();
                                assert(cid_v(a0.applied[w2]) == cid_v(x));
                                assert(a0.applied.contains(a0.applied[w2]));
                                assert(b1.applied.contains(a0.applied[w2]));
                                lemma_doc_compat(b1, a0.applied[w2], x);
                                assert(a0.applied[w2] == x);
                            }
                        }
                        lemma_missing_deps(b1.applied, known2);
                        assert(good_msg(a0, cs2)) by {
                            assert forall|i: int| 0 <= i < cs2.len() implies {
                                &&& wf_change(#[trigger] cs2[i])
                                &&& (forall|x: ChangeV|
                                    #[trigger] a0.total_has(x) ==> compat(cs2[i], x))
                                &&& (forall|j: int|
                                    0 <= j < cs2.len() ==> compat(cs2[i], #[trigger] cs2[j]))
                                &&& (forall|j: int|
                                    0 <= j < cs2[i].deps.len() ==> has_cid(
                                        a0.applied,
                                        #[trigger] cs2[i].deps[j],
                                    ) || has_cid(cs2.take(i), cs2[i].deps[j]))
                            } by {
                                assert(cs2.contains(cs2[i]));
                                assert(b1.applied.contains(cs2[i]));
                                assert(b1.total_has(cs2[i]));
                                assert(wf_change(cs2[i]));
                                assert forall|x: ChangeV| #[trigger] a0.total_has(x) implies compat(
                                    cs2[i],
                                    x,
                                ) by {
                                    assert(a0.applied.contains(x) || a0.pending.contains(x));
                                    assert(b1.applied.contains(x));
                                    lemma_doc_compat(b1, cs2[i], x);
                                }
                                assert forall|j: int| 0 <= j < cs2.len() implies compat(
                                    cs2[i],
                                    #[trigger] cs2[j],
                                ) by {
                                    assert(cs2.contains(cs2[j]));
                                    assert(b1.total_has(cs2[j]));
                                    lemma_doc_compat(b1, cs2[i], cs2[j]);
                                }
                                assert forall|j: int| 0 <= j < cs2[i].deps.len() implies has_cid(
                                    a0.applied,
                                    #[trigger] cs2[i].deps[j],
                                ) || has_cid(cs2.take(i), cs2[i].deps[j]) by {
                                    if known2.contains(cs2[i].deps[j]) {
                                        let w = choose|w: int|
                                            0 <= w < known2.len() && known2[w] == cs2[i].deps[j];
                                        let w2 = w - old(sb)@.peer_has.len();
                                        assert(known2[w] == msg1.have@[w2]);
                                        assert(cid_v(a0.applied[w2]) == cs2[i].deps[j]);
                                        assert(has_cid(a0.applied, cs2[i].deps[j]));
                                    }
                                }
                            }
                        }
                    }
                    let r2 = receive_sync_message(a, sa, &msg2);
                    match r2 {
                        Ok(_) => {},
                        Err(_) => {
                            proof {
                                assert(false);
                            }
                            return ;
                        },
                    }
                    proof {
                        let af = a@;
                        let bf = b@;
                        assert forall|x: ChangeV| #[trigger] af.applied.contains(x) implies a0.applied.contains(
                            x,
                        ) || b0.applied.contains(x) by {
                            if cs2.contains(x) {
                                assert(b1.applied.contains(x));
                            }
                        }
                        assert forall|x: ChangeV|
                            a0.applied.contains(x) || b0.applied.contains(x) implies
                            #[trigger] af.applied.contains(x) by {
                            if !a0.applied.contains(x) {
                                assert(b1.applied.contains(x));
                                assert(cs2.contains(x));
                            }
                        }
                        // the frontier of each side is covered by its record
                        assert(frontier_covered(af, sa@)) by {
                            lemma_covered_coverage(af, sa@, a0, b0, b1, msg2.have@, cs2, old(sa)@);
                        }
                        assert(frontier_covered(bf, sb@)) by {
                            lemma_covered_coverage_b(bf, sb@, a0, b1, cs1, old(sb)@, msg1.have@);
                        }
                    }
                },
                None => {
                    proof {
                        let bf = b@;
                        // b's frontier is covered by a's ids: b holds nothing
                        // beyond a
                        let known2 = old(sb)@.peer_has + msg1.have@;
                        assert forall|h: ChangeId| #[trigger] is_head(b1.applied, h) implies has_cid(
                            a0.applied,
                            h,
                        ) by {
                            assert(b1.heads.contains(h));
                            let w = choose|w: int| 0 <= w < b1.heads.len() && b1.heads[w] == h;
                            assert(known2.contains(h));
                            let m = choose|m: int| 0 <= m < known2.len() && known2[m] == h;
                            let m2 = m - old(sb)@.peer_has.len();
                            assert(known2[m] == msg1.have@[m2]);
                            assert(cid_v(a0.applied[m2]) == h);
                        }
                        assert(dep_closed(a0.applied)) by {
                            assert forall|i: int, j: int|
                                0 <= i < a0.applied.len() && 0 <= j < (
                                #[trigger] a0.applied[i]).deps.len() implies has_cid(
                                a0.applied,
                                #[trigger] a0.applied[i].deps[j],
                            ) by {
                                assert(has_cid(a0.applied.take(i), a0.applied[i].deps[j]));
                                crate::types::lemma_has_cid_take(
                                    a0.applied,
                                    i,
                                    a0.applied[i].deps[j],
                                );
                            }
                        }
                        assert forall|x: ChangeV, y: ChangeV|
                            b1.applied.contains(x) && a0.applied.contains(y) implies compat(
                            x,
                            y,
                        ) by {
                            assert(b1.applied.contains(y));
                            lemma_doc_compat(b1, x, y);
                        }
                        lemma_covered_subset(b1, a0.applied);
                        assert forall|x: ChangeV| #[trigger] a@.applied.contains(x) implies a0.applied.contains(
                            x,
                        ) || b0.applied.contains(x) by {}
                        assert forall|x: ChangeV|
                            a0.applied.contains(x) || b0.applied.contains(x) implies
                            #[trigger] a@.applied.contains(x) by {
                            if b0.applied.contains(x) {
                                assert(b1.applied.contains(x));
                                assert(a0.applied.contains(x));
                            }
                        }
                        assert forall|x: ChangeV| #[trigger] b@.applied.contains(x) implies a0.applied.contains(
                            x,
                        ) || b0.applied.contains(x) by {}
                        assert forall|x: ChangeV|
                            a0.applied.contains(x) || b0.applied.contains(x) implies
                            #[trigger] b@.applied.contains(x) by {}
                        // a sent everything it has, so its own frontier is
                        // covered by its record of the peer
                        assert(frontier_covered(a@, sa@)) by {
                            assert forall|j: int| 0 <= j < a@.heads.len() implies sa@.peer_has.contains(
                                #[trigger] a@.heads[j],
                            ) by {
                                let h = a@.heads[j];
                                assert(is_head(a@.applied, h));
                                let w = choose|w: int|
                                    0 <= w < a@.applied.len() && cid_v(
                                        #[trigger] a@.applied[w],
                                    ) == h;
                                let x = a@.applied[w];
                                assert(a@.applied.contains(x));
                                assert(a0.applied.contains(x));
                                assert(cs1.contains(x));
                                let m = choose|m: int| 0 <= m < cs1.len() && cs1[m] == x;
                                assert(sa@.peer_has == old(sa)@.peer_has + cids_of(cs1));
                                assert(sa@.peer_has[old(sa)@.peer_has.len() + m] == cid_v(x));
                                assert(sa@.peer_has.contains(h));
                            }
                        }
                    }
                },
            }
        },
        None => {
            proof {
                // an empty frontier with nothing recorded means an empty
                // history
                assert(a0.heads.len() == 0) by {
                    if a0.heads.len() > 0 {
                        assert(old(sa)@.peer_has.contains(a0.heads[0]));
                    }
                }
                if a0.applied.len() > 0 {
                    lemma_nonempty_has_head(a0);
                }
                assert(a0.applied.len() == 0);
            }
            let m2 = generate_sync_message(b, sb);
            match m2 {
                Some(msg2) => {
                    let ghost cs2 = change_views(msg2.changes@);
                    proof {
                        lemma_missing_membership(b0.applied, old(sb)@.peer_has);
                        lemma_missing_deps(b0.applied, old(sb)@.peer_has);
                        assert(good_msg(a0, cs2)) by {
                            assert forall|i: int| 0 <= i < cs2.len() implies {
                                &&& wf_change(#[trigger] cs2[i])
                                &&& (forall|x: ChangeV|
                                    #[trigger] a0.total_has(x) ==> compat(cs2[i], x))
                                &&& (forall|j: int|
                                    0 <= j < cs2.len() ==> compat(cs2[i], #[trigger] cs2[j]))
                                &&& (forall|j: int|
                                    0 <= j < cs2[i].deps.len() ==> has_cid(
                                        a0.applied,
                                        #[trigger] cs2[i].deps[j],
                                    ) || has_cid(cs2.take(i), cs2[i].deps[j]))
                            } by {
                                assert(cs2.contains(cs2[i]));
                                assert(b0.applied.contains(cs2[i]));
                                assert(b0.total_has(cs2[i]));
                                assert forall|j: int| 0 <= j < cs2.len() implies compat(
                                    cs2[i],
                                    #[trigger] cs2[j],
                                ) by {
                                    assert(cs2.contains(cs2[j]));
                                    assert(b0.total_has(cs2[j]));
                                    lemma_doc_compat(b0, cs2[i], cs2[j]);
                                }
                            }
                        }
                    }
                    let r2 = receive_sync_message(a, sa, &msg2);
                    match r2 {
                        Ok(_) => {},
                        Err(_) => {
                            proof {
                                assert(false);
                            }
                            return ;
                        },
                    }
                    proof {
                        assert forall|x: ChangeV| #[trigger] a@.applied.contains(x) implies a0.applied.contains(
                            x,
                        ) || b0.applied.contains(x) by {
                            if cs2.contains(x) {
                                assert(b0.applied.contains(x));
                            }
                        }
                        assert forall|x: ChangeV|
                            a0.applied.contains(x) || b0.applied.contains(x) implies
                            #[trigger] a@.applied.contains(x) by {
                            if b0.applied.contains(x) {
                                assert(!old(sb)@.peer_has.contains(cid_v(x)));
                                assert(cs2.contains(x));
                            }
                        }
                        // coverage on both sides
                        assert(frontier_covered(a@, sa@)) by {
                            assert forall|j: int| 0 <= j < a@.heads.len() implies sa@.peer_has.contains(
                                #[trigger] a@.heads[j],
                            ) by {
                                let h = a@.heads[j];
                                assert(is_head(a@.applied, h));
                                let w = choose|w: int|
                                    0 <= w < a@.applied.len() && cid_v(
                                        #[trigger] a@.applied[w],
                                    ) == h;
                                let x = a@.applied[w];
                                assert(a@.applied.contains(x));
                                assert(b0.applied.contains(x));
                                let m = choose|m: int|
                                    0 <= m < b0.applied.len() && b0.applied[m] == x;
                                assert(sa@.peer_has == old(sa)@.peer_has + msg2.have@);
                                assert(msg2.have@[m] == cid_v(x));
                                assert(sa@.peer_has[old(sa)@.peer_has.len() + m] == cid_v(x));
                                assert(sa@.peer_has.contains(h));
                            }
                        }
                        assert(frontier_covered(b@, sb@)) by {
                            assert forall|j: int| 0 <= j < b@.heads.len() implies sb@.peer_has.contains(
                                #[trigger] b@.heads[j],
                            ) by {
                                let h = b@.heads[j];
                                assert(is_head(b@.applied, h));
                                let w = choose|w: int|
                                    0 <= w < b@.applied.len() && cid_v(
                                        #[trigger] b@.applied[w],
                                    ) == h;
                                let x = b@.applied[w];
                                assert(b@.applied.contains(x));
                                assert(!old(sb)@.peer_has.contains(cid_v(x)));
                                assert(cs2.contains(x));
                                let m = choose|m: int| 0 <= m < cs2.len() && cs2[m] == x;
                                assert(sb@.peer_has == old(sb)@.peer_has + cids_of(cs2));
                                assert(sb@.peer_has[old(sb)@.peer_has.len() + m] == cid_v(x));
                                assert(sb@.peer_has.contains(h));
                            }
                        }
                    }
                },
                None => {
                    proof {
                        assert(b0.heads.len() == 0) by {
                            if b0.heads.len() > 0 {
                                assert(old(sb)@.peer_has.contains(b0.heads[0]));
                            }
                        }
                        if b0.applied.len() > 0 {
                            lemma_nonempty_has_head(b0);
                        }
                        assert(b0.applied.len() == 0);
                        assert forall|x: ChangeV| #[trigger] a@.applied.contains(x) implies false by {
                            assert(a0.applied.contains(x));
                        }
                        assert forall|x: ChangeV| #[trigger] b@.applied.contains(x) implies false by {
                            assert(b0.applied.contains(x));
                        }
                    }
                },
            }
        },
    }
}

/// Changes held by one well-formed document are mutually compatible.
proof fn lemma_doc_compat(d: DocV, x: ChangeV, y: ChangeV)
    requires
        d.wf_core(),
        d.applied.contains(x) || d.pending.contains(x),
        d.applied.contains(y) || d.pending.contains(y),
    ensures
        compat(x, y),
{
    assert(d.total_has(x) && d.total_has(y));
    assert(ranges_ok(x, y));
    if cid_v(x) == cid_v(y) && x != y {
        if d.applied.contains(x) && d.applied.contains(y) {
            let i = choose|i: int| 0 <= i < d.applied.len() && d.applied[i] == x;
            let j = choose|j: int| 0 <= j < d.applied.len() && d.applied[j] == y;
            assert(cid_v(d.applied[i]) != cid_v(d.applied[j]));
        } else if d.applied.contains(x) && d.pending.contains(y) {
            let i = choose|i: int| 0 <= i < d.applied.len() && d.applied[i] == x;
            let j = choose|j: int| 0 <= j < d.pending.len() && d.pending[j] == y;
            assert(cid_v(d.applied[i]) != cid_v(d.pending[j]));
        } else if d.pending.contains(x) && d.applied.contains(y) {
            let i = choose|i: int| 0 <= i < d.applied.len() && d.applied[i] == y;
            let j = choose|j: int| 0 <= j < d.pending.len() && d.pending[j] == x;
            assert(cid_v(d.applied[i]) != cid_v(d.pending[j]));
        } else {
            let i = choose|i: int| 0 <= i < d.pending.len() && d.pending[i] == x;
            let j = choose|j: int| 0 <= j < d.pending.len() && d.pending[j] == y;
            assert(cid_v(d.pending[i]) != cid_v(d.pending[j]));
        }
    }
}

/// Coverage of a's frontier after the second round.
proof fn lemma_covered_coverage(
    af: DocV,
    sav: PeerStateV,
    a0: DocV,
    b0: DocV,
    b1: DocV,
    have2: Seq<ChangeId>,
    cs2: Seq<ChangeV>,
    sa0: PeerStateV,
)
    requires
        af.wf_core(),
        sa0.peer_has.len() == 0,
        sav.peer_has == sa0.peer_has + cids_of(missing_from(a0.applied, sa0.peer_has)) + have2,
        have2 == cids_of(b1.applied),
        forall|x: ChangeV|
            #[trigger] af.applied.contains(x) ==> a0.applied.contains(x) || b0.applied.contains(x),
        forall|x: ChangeV| b0.applied.contains(x) ==> b1.applied.contains(x),
        forall|x: ChangeV| a0.applied.contains(x) ==> b1.applied.contains(x),
    ensures
        frontier_covered(af, sav),
{
    assert forall|j: int| 0 <= j < af.heads.len() implies sav.peer_has.contains(
        #[trigger] af.heads[j],
    ) by {
        let h = af.heads[j];
        assert(is_head(af.applied, h));
        let w = choose|w: int|
            0 <= w < af.applied.len() && cid_v(#[trigger] af.applied[w]) == h;
        let x = af.applied[w];
        assert(af.applied.contains(x));
        assert(b1.applied.contains(x));
        let m = choose|m: int| 0 <= m < b1.applied.len() && b1.applied[m] == x;
        assert(have2[m] == cid_v(x));
        let base = (sa0.peer_has + cids_of(missing_from(a0.applied, sa0.peer_has))).len() as int;
        assert(sav.peer_has[base + m] == cid_v(x));
        assert(sav.peer_has.contains(h));
    }
}

/// Coverage of b's frontier after the second round.
proof fn lemma_covered_coverage_b(
    bf: DocV,
    sbv: PeerStateV,
    a0: DocV,
    b1: DocV,
    cs1: Seq<ChangeV>,
    sb0: PeerStateV,
    have1: Seq<ChangeId>,
)
    requires
        bf.wf_core(),
        sb0.peer_has.len() == 0,
        sbv.peer_has == (sb0.peer_has + have1) + cids_of(
            missing_from(b1.applied, sb0.peer_has + have1),
        ),
        have1 == cids_of(a0.applied),
        bf == b1,
        forall|x: ChangeV|
            #[trigger] bf.applied.contains(x) ==> b1.applied.contains(x),
    ensures
        frontier_covered(bf, sbv),
{
    let known = sb0.peer_has + have1;
    lemma_missing_membership(b1.applied, known);
    assert forall|j: int| 0 <= j < bf.heads.len() implies sbv.peer_has.contains(
        #[trigger] bf.heads[j],
    ) by {
        let h = bf.heads[j];
        assert(is_head(bf.applied, h));
        let w = choose|w: int|
            0 <= w < bf.applied.len() && cid_v(#[trigger] bf.applied[w]) == h;
        let x = bf.applied[w];
        assert(bf.applied.contains(x));
        assert(b1.applied.contains(x));
        if known.contains(h) {
            let m = choose|m: int| 0 <= m < known.len() && known[m] == h;
            assert(sbv.peer_has[m] == h);
            assert(sbv.peer_has.contains(h));
        } else {
            let ms = missing_from(b1.applied, known);
            assert(ms.contains(x));
            let m = choose|m: int| 0 <= m < ms.len() && ms[m] == x;
            assert(cids_of(ms)[m] == cid_v(x));
            assert(sbv.peer_has[known.len() + m] == cid_v(x));
            assert(sbv.peer_has.contains(h));
        }
    }
}

} // verus!
