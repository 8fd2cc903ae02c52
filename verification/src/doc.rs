//! The per-replica document store.
//!
//! A [`Document`] holds an arena of applied changes (in a causally valid
//! order), a buffer of changes whose dependencies have not yet arrived, the
//! frontier of the applied history, and the replica's logical clock.  All
//! reads resolve against the applied arena only, so a change is never
//! reflected before its dependencies.

use vstd::prelude::*;
use crate::resolve::{
    beats, entry_at, entry_views, canon_entries, has_winner, is_winner, lemma_winner_unique,
    map_range_spec, obj_created, op_in, resolved, strict_sorted, winner, writes_key, Entry, EntryV,
};
use crate::order::{key_eq, key_lt, key_lt_exec, lemma_key_trans, lemma_key_trichotomy};
use crate::types::{
    cid_v, deps_in, distinct_cids, dup_change, dup_key, dup_scalar, has_cid, is_head,
    lemma_has_cid_take, op_views, ranges_ok, wf_change, ApplyError, Change, ChangeId, ChangeV, Key,
    KeyV, ObjKind, ObjectId, OpAction, OpActionV, Operation, OpV, Scalar, Value, ValueV,
};

verus! {

/// The views of a sequence of changes.
pub open spec fn change_views(s: Seq<Change>) -> Seq<ChangeV> {
    Seq::new(s.len(), |i: int| s[i]@)
}

/// View of an optional change.
pub open spec fn opt_change_view(c: Option<Change>) -> Option<ChangeV> {
    match c {
        Some(c) => Some(c@),
        None => None,
    }
}

/// Mathematical view of a document: the applied arena, the buffer of pending
/// changes, the frontier, and the replica identity and clock.
#[verifier::ext_equal]
pub struct DocV {
    pub actor: u64,
    pub applied: Seq<ChangeV>,
    pub pending: Seq<ChangeV>,
    pub heads: Seq<ChangeId>,
    pub max_counter: u64,
    pub last_local: Option<ChangeV>,
}

impl DocV {
    /// Whether `x` is held by this document, applied or buffered.
    pub open spec fn total_has(self, x: ChangeV) -> bool {
        self.applied.contains(x) || self.pending.contains(x)
    }

    /// Whether a change with id `h` is held, applied or buffered.
    pub open spec fn has_id(self, h: ChangeId) -> bool {
        has_cid(self.applied, h) || has_cid(self.pending, h)
    }

    /// Structural invariant of a document, except saturation of the buffer.
    ///
    /// The applied arena is well formed and topologically ordered (every
    /// dependency precedes its dependent), ids are unique across arena and
    /// buffer, counter ranges of one actor never overlap, the stored frontier
    /// is exactly the set of applied changes nothing applied depends on, and
    /// the clock bounds every counter held.
    pub open spec fn wf_core(self) -> bool {
        &&& forall|i: int|
            0 <= i < self.applied.len() ==> wf_change(#[trigger] self.applied[i]) && deps_in(
                self.applied[i],
                self.applied.take(i),
            )
        &&& forall|i: int| 0 <= i < self.pending.len() ==> wf_change(#[trigger] self.pending[i])
        &&& distinct_cids(self.applied)
        &&& distinct_cids(self.pending)
        &&& forall|i: int, j: int|
            0 <= i < self.applied.len() && 0 <= j < self.pending.len() ==> cid_v(
                #[trigger] self.applied[i],
            ) != cid_v(#[trigger] self.pending[j])
        &&& forall|x: ChangeV, y: ChangeV|
            #[trigger] self.total_has(x) && #[trigger] self.total_has(y) ==> ranges_ok(x, y)
        &&& forall|j: int|
            0 <= j < self.heads.len() ==> is_head(self.applied, #[trigger] self.heads[j])
        &&& forall|h: ChangeId| #[trigger] is_head(self.applied, h) ==> self.heads.contains(h)
        &&& forall|x: ChangeV|
            #[trigger] self.total_has(x) ==> x.start + x.ops.len() <= self.max_counter + 1
    }

    /// The buffer is saturated: nothing buffered has all its dependencies
    /// applied (otherwise it would have been applied already).
    pub open spec fn saturated(self) -> bool {
        forall|i: int|
            0 <= i < self.pending.len() ==> !deps_in(#[trigger] self.pending[i], self.applied)
    }

    /// Full invariant of a document.
    pub open spec fn wf(self) -> bool {
        self.wf_core() && self.saturated()
    }
}

/// Per-replica document state.
pub struct Document {
    actor: u64,
    applied: Vec<Change>,
    pending: Vec<Change>,
    heads: Vec<ChangeId>,
    max_counter: u64,
    last_local: Option<Change>,
}

impl View for Document {
    type V = DocV;

    closed spec fn view(&self) -> DocV {
        DocV {
            actor: self.actor,
            applied: change_views(self.applied@),
            pending: change_views(self.pending@),
            heads: self.heads@,
            max_counter: self.max_counter,
            last_local: opt_change_view(self.last_local),
        }
    }
}

// ---------------------------------------------------------------------------
// Scanning helpers
// ---------------------------------------------------------------------------

/// Whether `v` holds the id `h`.
pub(crate) fn cids_contains(v: &Vec<ChangeId>, h: ChangeId) -> (r: bool)
    ensures
        r == v@.contains(h),
{
    let mut i: usize = 0;
    while i < v.len()
        invariant
            i <= v.len(),
            forall|k: int| 0 <= k < i ==> v@[k] != h,
        decreases v.len() - i,
    {
        if v[i].actor == h.actor && v[i].counter == h.counter {
            return true;
        }
        i = i + 1;
    }
    false
}

/// Whether some change in `v` has id `h`.
fn vec_has_cid(v: &Vec<Change>, h: ChangeId) -> (r: bool)
    ensures
        r == has_cid(change_views(v@), h),
{
    let mut i: usize = 0;
    while i < v.len()
        invariant
            i <= v.len(),
            forall|k: int| 0 <= k < i ==> cid_v(change_views(v@)[k]) != h,
        decreases v.len() - i,
    {
        if v[i].actor == h.actor && v[i].start == h.counter {
            assert(cid_v(change_views(v@)[i as int]) == h);
            return true;
        }
        i = i + 1;
    }
    false
}

/// Whether every dependency of `c` is present in `applied`.
fn deps_present(applied: &Vec<Change>, c: &Change) -> (r: bool)
    ensures
        r == deps_in(c@, change_views(applied@)),
{
    let mut j: usize = 0;
    while j < c.deps.len()
        invariant
            j <= c.deps.len(),
            forall|k: int| 0 <= k < j ==> has_cid(change_views(applied@), #[trigger] c.deps@[k]),
        decreases c.deps.len() - j,
    {
        if !vec_has_cid(applied, c.deps[j]) {
            assert(!has_cid(change_views(applied@), c@.deps[j as int]));
            return false;
        }
        j = j + 1;
    }
    true
}

/// Whether `x` and `c` are issued by one actor with overlapping counter
/// ranges.
pub open spec fn overlapping(x: ChangeV, c: ChangeV) -> bool {
    x.actor == c.actor && !(x.start + x.ops.len() <= c.start || c.start + c.ops.len() <= x.start)
}

/// Whether some change in `v` overlaps `c`'s counter range.
fn range_clash(v: &Vec<Change>, c: &Change) -> (r: bool)
    requires
        wf_change(c@),
        forall|i: int| 0 <= i < v@.len() ==> wf_change(#[trigger] change_views(v@)[i]),
    ensures
        r == exists|i: int| 0 <= i < v@.len() && overlapping(#[trigger] change_views(v@)[i], c@),
{
    let mut i: usize = 0;
    while i < v.len()
        invariant
            i <= v.len(),
            wf_change(c@),
            forall|k: int| 0 <= k < v@.len() ==> wf_change(#[trigger] change_views(v@)[k]),
            forall|k: int| 0 <= k < i ==> !overlapping(#[trigger] change_views(v@)[k], c@),
        decreases v.len() - i,
    {
        if v[i].actor == c.actor {
            assert(wf_change(change_views(v@)[i as int]));
            let vend = v[i].start + (v[i].ops.len() as u64);
            let cend = c.start + (c.ops.len() as u64);
            if !(vend <= c.start || cend <= v[i].start) {
                assert(overlapping(change_views(v@)[i as int], c@));
                return true;
            }
        }
        i = i + 1;
    }
    false
}

/// Whether `c` is structurally well formed.
fn check_wf(c: &Change) -> (r: bool)
    ensures
        r == wf_change(c@),
{
    if c.ops.len() == 0 {
        return false;
    }
    if c.start > u64::MAX - (c.ops.len() as u64) {
        return false;
    }
    let mut i: usize = 0;
    while i < c.ops.len()
        invariant
            i <= c.ops.len(),
            c.start + c.ops.len() <= u64::MAX,
            forall|k: int|
                0 <= k < i ==> (#[trigger] c@.ops[k]).actor == c@.actor && c@.ops[k].counter
                    == c@.start + k,
        decreases c.ops.len() - i,
    {
        assert(c@.ops[i as int] == c.ops@[i as int]@);
        if !(c.ops[i].actor == c.actor && c.ops[i].counter == c.start + (i as u64)) {
            return false;
        }
        i = i + 1;
    }
    let own = ChangeId { actor: c.actor, counter: c.start };
    if cids_contains(&c.deps, own) {
        return false;
    }
    assert(own == cid_v(c@));
    true
}

/// Copy a vector of change ids.
pub(crate) fn dup_cids(v: &Vec<ChangeId>) -> (r: Vec<ChangeId>)
    ensures
        r@ == v@,
{
    let mut r: Vec<ChangeId> = Vec::new();
    let mut i: usize = 0;
    while i < v.len()
        invariant
            i <= v.len(),
            r@ == v@.take(i as int),
        decreases v.len() - i,
    {
        r.push(v[i]);
        assert(v@.take(i + 1 as int) =~= v@.take(i as int).push(v@[i as int]));
        i = i + 1;
    }
    assert(r@ =~= v@);
    r
}

/// Copy a vector of changes.
fn dup_changes(v: &Vec<Change>) -> (r: Vec<Change>)
    ensures
        change_views(r@) == change_views(v@),
{
    let mut r: Vec<Change> = Vec::new();
    let mut i: usize = 0;
    while i < v.len()
        invariant
            i <= v.len(),
            r.len() == i,
            change_views(r@) == change_views(v@).take(i as int),
        decreases v.len() - i,
    {
        let c = dup_change(&v[i]);
        r.push(c);
        assert(change_views(r@) =~= change_views(v@).take(i + 1 as int));
        i = i + 1;
    }
    assert(change_views(r@) =~= change_views(v@));
    r
}

/// The structural invariant depends only on the arena, buffer, frontier and
/// clock, and survives a clock increase.
proof fn lemma_wf_core_frame(a: DocV, b: DocV)
    requires
        a.wf_core(),
        b.applied == a.applied,
        b.pending == a.pending,
        b.heads == a.heads,
        b.max_counter >= a.max_counter,
    ensures
        b.wf_core(),
        a.saturated() ==> b.saturated(),
{
    assert forall|x: ChangeV, y: ChangeV|
        #[trigger] b.total_has(x) && #[trigger] b.total_has(y) implies ranges_ok(x, y) by {
        assert(a.total_has(x) && a.total_has(y));
    }
    assert forall|x: ChangeV| #[trigger] b.total_has(x) implies x.start + x.ops.len()
        <= b.max_counter + 1 by {
        assert(a.total_has(x));
    }
    assert forall|i: int| 0 <= i < b.applied.len() implies wf_change(#[trigger] b.applied[i])
        && deps_in(b.applied[i], b.applied.take(i)) by {
        assert(wf_change(a.applied[i]) && deps_in(a.applied[i], a.applied.take(i)));
    }
    assert forall|i: int| 0 <= i < b.pending.len() implies wf_change(#[trigger] b.pending[i]) by {
        assert(wf_change(a.pending[i]));
    }
    assert forall|j: int| 0 <= j < b.heads.len() implies is_head(
        b.applied,
        #[trigger] b.heads[j],
    ) by {
        assert(is_head(a.applied, a.heads[j]));
    }
    assert forall|h: ChangeId| #[trigger] is_head(b.applied, h) implies b.heads.contains(h) by {
        assert(is_head(a.applied, h));
        assert(a.heads.contains(h));
    }
    if a.saturated() {
        assert forall|i: int| 0 <= i < b.pending.len() implies !deps_in(
            #[trigger] b.pending[i],
            b.applied,
        ) by {
            assert(!deps_in(a.pending[i], a.applied));
        }
    }
}

impl Document {
    /// Create a fresh, empty document owned by the replica `actor`.
    ///
    /// Actor ids are assigned externally; replicas must use distinct ids.
    pub fn create(actor: u64) -> (d: Document)
        ensures
            d@.wf(),
            d@.actor == actor,
            d@.applied.len() == 0,
            d@.pending.len() == 0,
            d@.heads.len() == 0,
            d@.max_counter == 0,
            d@.last_local is None,
    {
        let d = Document {
            actor,
            applied: Vec::new(),
            pending: Vec::new(),
            heads: Vec::new(),
            max_counter: 0,
            last_local: None,
        };
        proof {
            assert forall|h: ChangeId| #[trigger] is_head(d@.applied, h) implies d@.heads.contains(
                h,
            ) by {
                assert(!has_cid(d@.applied, h));
            }
        }
        d
    }

    /// Create an independent replica sharing all currently held history.
    ///
    /// The fork's initial frontier equals the parent's frontier at fork time;
    /// the new replica writes under its own (externally assigned) actor id.
    pub fn fork(&self, new_actor: u64) -> (d: Document)
        requires
            self@.wf(),
        ensures
            d@.wf(),
            d@.actor == new_actor,
            d@.applied == self@.applied,
            d@.pending == self@.pending,
            d@.heads == self@.heads,
            d@.max_counter == self@.max_counter,
            d@.last_local is None,
    {
        let d = Document {
            actor: new_actor,
            applied: dup_changes(&self.applied),
            pending: dup_changes(&self.pending),
            heads: dup_cids(&self.heads),
            max_counter: self.max_counter,
            last_local: None,
        };
        proof {
            let dv = d@;
            let sv = self@;
            assert forall|x: ChangeV, y: ChangeV|
                #[trigger] dv.total_has(x) && #[trigger] dv.total_has(y) implies ranges_ok(
                x,
                y,
            ) by {
                assert(sv.total_has(x) && sv.total_has(y));
            }
            assert forall|x: ChangeV| #[trigger] dv.total_has(x) implies x.start + x.ops.len()
                <= dv.max_counter + 1 by {
                assert(sv.total_has(x));
            }
            assert forall|i: int| 0 <= i < dv.applied.len() implies wf_change(
                #[trigger] dv.applied[i],
            ) && deps_in(dv.applied[i], dv.applied.take(i)) by {
                assert(wf_change(sv.applied[i]) && deps_in(sv.applied[i], sv.applied.take(i)));
            }
            assert forall|i: int| 0 <= i < dv.pending.len() implies wf_change(
                #[trigger] dv.pending[i],
            ) by {
                assert(wf_change(sv.pending[i]));
            }
            assert forall|j: int| 0 <= j < dv.heads.len() implies is_head(
                dv.applied,
                #[trigger] dv.heads[j],
            ) by {
                assert(is_head(sv.applied, sv.heads[j]));
            }
            assert forall|h: ChangeId| #[trigger] is_head(dv.applied, h) implies dv.heads.contains(
                h,
            ) by {
                assert(is_head(sv.applied, h));
                assert(sv.heads.contains(h));
            }
            assert forall|i: int| 0 <= i < dv.pending.len() implies !deps_in(
                #[trigger] dv.pending[i],
                dv.applied,
            ) by {
                assert(!deps_in(sv.pending[i], sv.applied));
            }
            assert(dv.wf());
        }
        d
    }

    /// The current frontier ("heads") of the applied history.
    pub fn heads(&self) -> (r: Vec<ChangeId>)
        ensures
            r@ == self@.heads,
    {
        dup_cids(&self.heads)
    }

    /// The replica's actor id.
    pub fn actor_id(&self) -> (r: u64)
        ensures
            r == self@.actor,
    {
        self.actor
    }

    /// The replica's logical clock: the highest operation counter held.
    pub fn clock(&self) -> (r: u64)
        ensures
            r == self@.max_counter,
    {
        self.max_counter
    }

    /// The applied arena, for the sync engine to walk.
    pub(crate) fn borrow_applied(&self) -> (r: &Vec<Change>)
        ensures
            change_views(r@) == self@.applied,
    {
        &self.applied
    }

    /// Append a change whose dependencies are all applied.
    fn apply_ready(&mut self, c: Change)
        requires
            old(self)@.wf_core(),
            wf_change(c@),
            deps_in(c@, old(self)@.applied),
            !old(self)@.has_id(cid_v(c@)),
            forall|x: ChangeV| #[trigger] old(self)@.total_has(x) ==> ranges_ok(x, c@),
            c@.start + c@.ops.len() <= old(self)@.max_counter + 1,
        ensures
            final(self)@.wf_core(),
            final(self)@.applied == old(self)@.applied.push(c@),
            final(self)@.pending == old(self)@.pending,
            final(self)@.actor == old(self)@.actor,
            final(self)@.max_counter == old(self)@.max_counter,
            final(self)@.last_local == old(self)@.last_local,
            final(self)@.applied.contains(c@),
            forall|x: ChangeV|
                #[trigger] final(self)@.total_has(x) <==> old(self)@.total_has(x) || x == c@,
    {
        let ghost pre = old(self)@;
        let ghost cv = c@;
        let cid = ChangeId { actor: c.actor, counter: c.start };
        proof {
            assert(cid == cid_v(cv));
        }
        let mut new_heads: Vec<ChangeId> = Vec::new();
        let mut i: usize = 0;
        while i < self.heads.len()
            invariant
                i <= self.heads.len(),
                self@ == pre,
                cv == c@,
                forall|k: int|
                    0 <= k < new_heads@.len() ==> pre.heads.contains(#[trigger] new_heads@[k])
                        && !cv.deps.contains(new_heads@[k]),
                forall|k: int|
                    0 <= k < i && !cv.deps.contains(#[trigger] pre.heads[k])
                        ==> new_heads@.contains(pre.heads[k]),
            decreases self.heads.len() - i,
        {
            let h = self.heads[i];
            if !cids_contains(&c.deps, h) {
                let ghost prev = new_heads@;
                new_heads.push(h);
                proof {
                    assert(pre.heads.contains(pre.heads[i as int]));
                    assert forall|k: int|
                        0 <= k < i + 1 && !cv.deps.contains(#[trigger] pre.heads[k])
                            implies new_heads@.contains(pre.heads[k]) by {
                        if k < i {
                            assert(prev.contains(pre.heads[k]));
                            let w = choose|w: int| 0 <= w < prev.len() && prev[w] == pre.heads[k];
                            assert(new_heads@[w] == pre.heads[k]);
                        } else {
                            assert(new_heads@[new_heads@.len() - 1] == pre.heads[i as int]);
                        }
                    }
                }
            }
            i = i + 1;
        }
        let ghost kept = new_heads@;
        new_heads.push(cid);
        self.heads = new_heads;
        self.applied.push(c);
        proof {
            assert(self@.heads =~= kept.push(cid));
            let post = self@;
            let applied2 = post.applied;
            assert(applied2 =~= pre.applied.push(cv));
            assert(post.pending =~= pre.pending);
            let n = pre.applied.len() as int;

            // Nothing already applied depends on the new id, which is fresh.
            assert forall|k: int| 0 <= k < n implies !(#[trigger] pre.applied[k]).deps.contains(
                cid,
            ) by {
                if pre.applied[k].deps.contains(cid) {
                    let j = choose|j: int|
                        0 <= j < pre.applied[k].deps.len() && pre.applied[k].deps[j] == cid;
                    assert(has_cid(pre.applied.take(k), cid));
                    lemma_has_cid_take(pre.applied, k, cid);
                }
            }

            // Topological order is preserved.
            assert forall|k: int| 0 <= k < applied2.len() implies wf_change(
                #[trigger] applied2[k],
            ) && deps_in(applied2[k], applied2.take(k)) by {
                if k < n {
                    assert(applied2[k] == pre.applied[k]);
                    assert(applied2.take(k) =~= pre.applied.take(k));
                } else {
                    assert(applied2[k] == cv);
                    assert(applied2.take(k) =~= pre.applied);
                }
            }

            // Ids stay pairwise distinct.
            assert forall|k: int| 0 <= k < n implies cid_v(#[trigger] pre.applied[k]) != cid by {
                if cid_v(pre.applied[k]) == cid {
                    assert(has_cid(pre.applied, cid));
                }
            }
            assert(distinct_cids(applied2));
            assert forall|j: int| 0 <= j < post.pending.len() implies cid_v(
                #[trigger] post.pending[j],
            ) != cid by {
                if cid_v(post.pending[j]) == cid {
                    assert(has_cid(pre.pending, cid));
                }
            }

            // Membership in the new total.
            assert forall|x: ChangeV| #[trigger] post.total_has(x) implies pre.total_has(x) || x
                == cv by {
                if applied2.contains(x) {
                    let k = choose|k: int| 0 <= k < applied2.len() && applied2[k] == x;
                    if k < n {
                        assert(pre.applied[k] == x);
                        assert(pre.applied.contains(x));
                    }
                }
            }
            assert forall|x: ChangeV, y: ChangeV|
                #[trigger] post.total_has(x) && #[trigger] post.total_has(y) implies ranges_ok(
                x,
                y,
            ) by {
                if x == cv && y == cv {
                } else if x == cv {
                    assert(pre.total_has(y));
                    assert(ranges_ok(y, x));
                } else if y == cv {
                    assert(pre.total_has(x));
                    assert(ranges_ok(x, y));
                } else {
                    assert(pre.total_has(x) && pre.total_has(y));
                }
            }

            // The stored frontier matches the new applied arena.
            assert forall|j: int| 0 <= j < post.heads.len() implies is_head(
                applied2,
                #[trigger] post.heads[j],
            ) by {
                let h = post.heads[j];
                if j < post.heads.len() - 1 {
                    assert(h == kept[j]);
                    assert(pre.heads.contains(h) && !cv.deps.contains(h));
                    let m = choose|m: int| 0 <= m < pre.heads.len() && pre.heads[m] == h;
                    assert(is_head(pre.applied, h));
                    let w = choose|w: int| 0 <= w < pre.applied.len() && cid_v(pre.applied[w]) == h;
                    assert(cid_v(applied2[w]) == h);
                    assert(has_cid(applied2, h));
                    assert forall|k: int| 0 <= k < applied2.len() implies !(
                    #[trigger] applied2[k]).deps.contains(h) by {
                        if k < n {
                            assert(applied2[k] == pre.applied[k]);
                        } else {
                            assert(applied2[k] == cv);
                        }
                    }
                } else {
                    assert(h == cid);
                    assert(cid_v(applied2[n]) == cid);
                    assert(has_cid(applied2, cid));
                    assert forall|k: int| 0 <= k < applied2.len() implies !(
                    #[trigger] applied2[k]).deps.contains(cid) by {
                        if k < n {
                            assert(applied2[k] == pre.applied[k]);
                        } else {
                            assert(applied2[k] == cv);
                            assert(!cv.deps.contains(cid_v(cv)));
                        }
                    }
                }
            }
            assert forall|h: ChangeId| #[trigger] is_head(applied2, h) implies post.heads.contains(
                h,
            ) by {
                if h == cid {
                    assert(post.heads[post.heads.len() - 1] == cid);
                } else {
                    let k = choose|k: int| 0 <= k < applied2.len() && cid_v(applied2[k]) == h;
                    assert(k < n) by {
                        if k == n {
                            assert(cid_v(applied2[k]) == cid);
                        }
                    }
                    assert(cid_v(pre.applied[k]) == h);
                    assert(has_cid(pre.applied, h));
                    assert forall|m: int| 0 <= m < pre.applied.len() implies !(
                    #[trigger] pre.applied[m]).deps.contains(h) by {
                        assert(applied2[m] == pre.applied[m]);
                        assert(!applied2[m].deps.contains(h));
                    }
                    assert(is_head(pre.applied, h));
                    assert(pre.heads.contains(h));
                    let m = choose|m: int| 0 <= m < pre.heads.len() && pre.heads[m] == h;
                    assert(!cv.deps.contains(h)) by {
                        assert(applied2[n] == cv);
                        assert(!applied2[n].deps.contains(h));
                    }
                    assert(kept.contains(h)) by {
                        assert(pre.heads[m] == h);
                    }
                    let w = choose|w: int| 0 <= w < kept.len() && kept[w] == h;
                    assert(post.heads[w] == h);
                }
            }

            // The clock still bounds every counter held.
            assert forall|x: ChangeV| #[trigger] post.total_has(x) implies x.start + x.ops.len()
                <= post.max_counter + 1 by {
                if x != cv {
                    assert(pre.total_has(x));
                }
            }

            // Membership in the new total, in both directions.
            assert(applied2[n] == cv);
            assert(applied2.contains(cv));
            assert forall|x: ChangeV| pre.total_has(x) || x == cv implies #[trigger] post.total_has(
                x,
            ) by {
                if x == cv {
                } else if pre.applied.contains(x) {
                    let k = choose|k: int| 0 <= k < pre.applied.len() && pre.applied[k] == x;
                    assert(applied2[k] == x);
                } else {
                    assert(pre.pending.contains(x));
                }
            }
        }
    }
}


/// What one call of [`Document::apply_change`] does, as a relation between
/// the document's views before and after and the returned result.
///
/// An ill-formed change is rejected; a change whose id is already held is a
/// successful no-op (idempotence); a change whose counters collide with held
/// operations of the same actor is rejected; otherwise the change enters the
/// document — applied if its dependencies are present (possibly releasing
/// buffered changes), buffered otherwise — and nothing already applied is
/// ever removed.
pub open spec fn apply_outcome(
    pre: DocV,
    c: ChangeV,
    post: DocV,
    r: Result<(), ApplyError>,
) -> bool {
    if !wf_change(c) {
        r == Result::<(), ApplyError>::Err(ApplyError::MalformedOperation) && post == pre
    } else if pre.has_id(cid_v(c)) {
        r == Result::<(), ApplyError>::Ok(()) && post == pre
    } else if exists|x: ChangeV| #[trigger] pre.total_has(x) && overlapping(x, c) {
        r == Result::<(), ApplyError>::Err(ApplyError::MalformedOperation) && post == pre
    } else {
        &&& r == Result::<(), ApplyError>::Ok(())
        &&& post.actor == pre.actor
        &&& post.last_local == pre.last_local
        &&& pre.applied.len() <= post.applied.len()
        &&& post.applied.take(pre.applied.len() as int) == pre.applied
        &&& forall|x: ChangeV| #[trigger] post.total_has(x) <==> pre.total_has(x) || x == c
        &&& forall|x: ChangeV|
            #[trigger] post.applied.contains(x) ==> pre.applied.contains(x)
                || pre.pending.contains(x) || x == c
        &&& (deps_in(c, pre.applied) ==> post.applied.contains(c))
        &&& post.max_counter >= pre.max_counter
    }
}

impl Document {
    /// Move every buffered change whose dependencies have become applied
    /// into the arena, until the buffer is saturated again.
    #[verifier::loop_isolation(false)]
    fn flush(&mut self)
        requires
            old(self)@.wf_core(),
        ensures
            final(self)@.wf(),
            old(self)@.applied.len() <= final(self)@.applied.len(),
            final(self)@.actor == old(self)@.actor,
            final(self)@.last_local == old(self)@.last_local,
            final(self)@.max_counter == old(self)@.max_counter,
            final(self)@.applied.take(old(self)@.applied.len() as int) == old(self)@.applied,
            forall|x: ChangeV| #[trigger] final(self)@.total_has(x) <==> old(self)@.total_has(x),
            forall|x: ChangeV|
                #[trigger] final(self)@.applied.contains(x) ==> old(self)@.applied.contains(x)
                    || old(self)@.pending.contains(x),
    {
        let ghost pre = old(self)@;
        proof {
            assert(pre.applied.take(pre.applied.len() as int) =~= pre.applied);
        }
        let mut k: usize = 0;
        loop
            invariant
                k <= self.pending.len(),
                self@.wf_core(),
                self@.actor == pre.actor,
                self@.last_local == pre.last_local,
                self@.max_counter == pre.max_counter,
                pre.applied.len() <= self@.applied.len(),
                self@.applied.take(pre.applied.len() as int) == pre.applied,
                forall|x: ChangeV| #[trigger] self@.total_has(x) <==> pre.total_has(x),
                forall|x: ChangeV|
                    #[trigger] self@.applied.contains(x) ==> pre.applied.contains(x)
                        || pre.pending.contains(x),
                forall|m: int|
                    0 <= m < k ==> !deps_in(#[trigger] self@.pending[m], self@.applied),
            decreases self.pending.len(), self.pending.len() - k,
        {
            if k >= self.pending.len() {
                return ;
            }
            let ready = deps_present(&self.applied, &self.pending[k]);
            if !ready {
                k = k + 1;
            } else {
                let ghost dv = self@;
                let c = self.pending.swap_remove(k);
                let ghost cv = c@;
                let ghost p = dv.pending;
                let ghost p2 = self@.pending;
                proof {
                    let kk = k as int;
                    let n = p.len() as int;
                    assert(cv == p[kk]);
                    assert(p2.len() == n - 1);
                    assert forall|m: int| 0 <= m < n - 1 implies p2[m] == (if m == kk {
                        p[n - 1]
                    } else {
                        p[m]
                    }) by {}
                    let mid = self@;
                    assert(mid.applied == dv.applied && mid.heads == dv.heads);
                    // every change still held was held before
                    assert forall|x: ChangeV| #[trigger] mid.total_has(x) implies dv.total_has(
                        x,
                    ) by {
                        if mid.pending.contains(x) {
                            let m = choose|m: int| 0 <= m < p2.len() && p2[m] == x;
                            assert(p.contains(if m == kk {
                                p[n - 1]
                            } else {
                                p[m]
                            }));
                        }
                    }
                    assert(dv.total_has(cv)) by {
                        assert(p[kk] == cv);
                    }
                    // the invariant survives dropping a buffered change
                    assert forall|x: ChangeV, y: ChangeV|
                        #[trigger] mid.total_has(x) && #[trigger] mid.total_has(y) implies ranges_ok(
                        x,
                        y,
                    ) by {
                        assert(dv.total_has(x) && dv.total_has(y));
                    }
                    assert forall|x: ChangeV| #[trigger] mid.total_has(x) implies x.start
                        + x.ops.len() <= mid.max_counter + 1 by {
                        assert(dv.total_has(x));
                    }
                    assert forall|i: int| 0 <= i < mid.pending.len() implies wf_change(
                        #[trigger] mid.pending[i],
                    ) by {
                        assert(mid.pending[i] == (if i == kk {
                            p[n - 1]
                        } else {
                            p[i]
                        }));
                    }
                    assert forall|i: int, j: int|
                        0 <= i < mid.pending.len() && 0 <= j < mid.pending.len() && i != j implies cid_v(
                        #[trigger] mid.pending[i],
                    ) != cid_v(#[trigger] mid.pending[j]) by {
                        let i2: int = if i == kk { n - 1 } else { i };
                        let j2: int = if j == kk { n - 1 } else { j };
                        assert(mid.pending[i] == p[i2] && mid.pending[j] == p[j2]);
                        assert(i2 != j2);
                    }
                    assert forall|i: int, j: int|
                        0 <= i < mid.applied.len() && 0 <= j < mid.pending.len() implies cid_v(
                        #[trigger] mid.applied[i],
                    ) != cid_v(#[trigger] mid.pending[j]) by {
                        let j2: int = if j == kk { n - 1 } else { j };
                        assert(mid.pending[j] == p[j2]);
                        assert(cid_v(dv.applied[i]) != cid_v(dv.pending[j2]));
                    }
                    assert(mid.wf_core());
                    // preconditions of apply_ready
                    assert(wf_change(cv)) by {
                        assert(dv.pending[kk] == cv);
                    }
                    assert(!mid.has_id(cid_v(cv))) by {
                        if has_cid(mid.applied, cid_v(cv)) {
                            let i = choose|i: int|
                                0 <= i < mid.applied.len() && cid_v(mid.applied[i]) == cid_v(cv);
                            assert(cid_v(dv.applied[i]) != cid_v(dv.pending[kk]));
                        }
                        if has_cid(mid.pending, cid_v(cv)) {
                            let m = choose|m: int|
                                0 <= m < p2.len() && cid_v(p2[m]) == cid_v(cv);
                            let m2: int = if m == kk { n - 1 } else { m };
                            assert(p2[m] == p[m2]);
                            assert(m2 != kk);
                            assert(cid_v(p[m2]) != cid_v(p[kk]));
                        }
                    }
                    assert forall|x: ChangeV| #[trigger] mid.total_has(x) implies ranges_ok(
                        x,
                        cv,
                    ) by {
                        assert(dv.total_has(x) && dv.total_has(cv));
                    }
                    assert(cv.start + cv.ops.len() <= mid.max_counter + 1) by {
                        assert(dv.total_has(cv));
                    }
                }
                self.apply_ready(c);
                proof {
                    let post = self@;
                    let mid_applied = dv.applied;
                    assert(post.applied == mid_applied.push(cv));
                    assert(pre.applied.len() <= mid_applied.len());
                    assert(post.applied.take(pre.applied.len() as int) =~= mid_applied.take(
                        pre.applied.len() as int,
                    ));
                    assert forall|x: ChangeV| #[trigger] post.total_has(x) implies pre.total_has(
                        x,
                    ) by {
                        if x != cv {
                            let mid2 = DocV { pending: p2, ..dv };
                            assert(dv.total_has(cv));
                        }
                        assert(dv.total_has(x) || x == cv);
                    }
                    assert forall|x: ChangeV| pre.total_has(x) implies #[trigger] post.total_has(
                        x,
                    ) by {
                        assert(dv.total_has(x));
                        if dv.applied.contains(x) {
                        } else {
                            assert(p.contains(x));
                            let m = choose|m: int| 0 <= m < p.len() && p[m] == x;
                            if m == k as int {
                                assert(x == cv);
                            } else if m == p.len() - 1 {
                                if k as int == p.len() - 1 {
                                    assert(x == cv);
                                } else {
                                    assert(p2[k as int] == x);
                                    assert(p2.contains(x));
                                }
                            } else {
                                assert(p2[m] == x);
                                assert(p2.contains(x));
                            }
                        }
                    }
                    assert forall|x: ChangeV| #[trigger] post.applied.contains(x) implies pre.applied.contains(
                        x,
                    ) || pre.pending.contains(x) by {
                        let i = choose|i: int| 0 <= i < post.applied.len() && post.applied[i] == x;
                        if i < mid_applied.len() {
                            assert(mid_applied[i] == x);
                            assert(mid_applied.contains(x));
                        } else {
                            assert(x == cv);
                            assert(pre.total_has(cv));
                        }
                    }
                }
                k = 0;
            }
        }
    }

    /// Hand a change (local or remote) to the document.
    ///
    /// Ill-formed changes and counter collisions are rejected with
    /// `MalformedOperation`; a change already held is a successful no-op;
    /// a change with missing dependencies is buffered (never an error) and
    /// becomes applied as soon as the missing history arrives; everything
    /// else is applied at once, together with any buffered changes it
    /// releases.
    pub fn apply_change(&mut self, c: &Change) -> (r: Result<(), ApplyError>)
        requires
            old(self)@.wf(),
        ensures
            final(self)@.wf(),
            apply_outcome(old(self)@, c@, final(self)@, r),
    {
        let ghost pre = old(self)@;
        let ghost cv = c@;
        if !check_wf(c) {
            return Err(ApplyError::MalformedOperation);
        }
        let cid = ChangeId { actor: c.actor, counter: c.start };
        proof {
            assert(cid == cid_v(cv));
        }
        if vec_has_cid(&self.applied, cid) {
            return Ok(());
        }
        if vec_has_cid(&self.pending, cid) {
            return Ok(());
        }
        assert(!pre.has_id(cid_v(cv)));
        let clash_a = range_clash(&self.applied, c);
        let clash_p = range_clash(&self.pending, c);
        proof {
            assert((clash_a || clash_p) == exists|x: ChangeV|
                #[trigger] pre.total_has(x) && overlapping(x, cv)) by {
                if clash_a {
                    let i = choose|i: int|
                        0 <= i < pre.applied.len() && overlapping(pre.applied[i], cv);
                    assert(pre.total_has(pre.applied[i]));
                } else if clash_p {
                    let i = choose|i: int|
                        0 <= i < pre.pending.len() && overlapping(pre.pending[i], cv);
                    assert(pre.total_has(pre.pending[i]));
                } else {
                    if exists|x: ChangeV| #[trigger] pre.total_has(x) && overlapping(x, cv) {
                        let x = choose|x: ChangeV| #[trigger] pre.total_has(x) && overlapping(x, cv);
                        if pre.applied.contains(x) {
                            let i = choose|i: int|
                                0 <= i < pre.applied.len() && pre.applied[i] == x;
                        } else {
                            let i = choose|i: int|
                                0 <= i < pre.pending.len() && pre.pending[i] == x;
                        }
                    }
                }
            }
        }
        if clash_a || clash_p {
            return Err(ApplyError::MalformedOperation);
        }
        // no held change overlaps c, and none has its id: ranges are compatible
        proof {
            assert forall|x: ChangeV| #[trigger] pre.total_has(x) implies ranges_ok(x, cv) by {
                if x == cv {
                    if pre.applied.contains(x) {
                        let i = choose|i: int| 0 <= i < pre.applied.len() && pre.applied[i] == x;
                        assert(has_cid(pre.applied, cid_v(cv)));
                    } else {
                        let i = choose|i: int| 0 <= i < pre.pending.len() && pre.pending[i] == x;
                        assert(has_cid(pre.pending, cid_v(cv)));
                    }
                }
            }
        }
        // advance the logical clock over the change's counters
        let end = c.start + (c.ops.len() as u64) - 1;
        if end > self.max_counter {
            self.max_counter = end;
        }
        let ghost mid = self@;
        proof {
            lemma_wf_core_frame(pre, mid);
        }
        let ready = deps_present(&self.applied, c);
        let c2 = dup_change(c);
        if ready {
            self.apply_ready(c2);
            self.flush();
            proof {
                let post = self@;
                let sa = mid.applied.push(cv);
                let sn = sa.len() as int;
                // after apply_ready the arena was mid.applied.push(cv); flush
                // only appended further
                assert(post.applied.take(sn) == sa);
                assert(sn <= post.applied.len());
                assert forall|i: int| 0 <= i < sn implies post.applied[i] == sa[i] by {
                    assert(post.applied.take(sn)[i] == sa[i]);
                }
                assert(post.applied.take(pre.applied.len() as int) =~= pre.applied) by {
                    assert(forall|i: int|
                        0 <= i < pre.applied.len() ==> post.applied.take(
                            pre.applied.len() as int,
                        )[i] == post.applied[i] && sa[i] == mid.applied[i]);
                }
                assert forall|x: ChangeV| #[trigger] post.total_has(x) implies pre.total_has(x)
                    || x == cv by {}
                assert forall|x: ChangeV| pre.total_has(x) || x == cv implies
                    #[trigger] post.total_has(x) by {}
                assert(post.applied.contains(cv)) by {
                    assert(sa[sn - 1] == cv);
                    assert(post.applied[sn - 1] == cv);
                }
                assert forall|x: ChangeV| #[trigger] post.applied.contains(x) implies pre.applied.contains(
                    x,
                ) || pre.pending.contains(x) || x == cv by {
                    if sa.contains(x) {
                        let i = choose|i: int| 0 <= i < sa.len() && sa[i] == x;
                        if i < mid.applied.len() {
                            assert(mid.applied[i] == x);
                            assert(mid.applied.contains(x));
                        }
                    }
                }
                assert(apply_outcome(pre, cv, post, Result::<(), ApplyError>::Ok(())));
            }
            Ok(())
        } else {
            let ghost p = self@.pending;
            self.pending.push(c2);
            proof {
                let post = self@;
                assert(post.pending =~= p.push(cv));
                assert(post.applied == mid.applied && post.heads == mid.heads);
                assert forall|x: ChangeV| #[trigger] post.total_has(x) implies mid.total_has(x)
                    || x == cv by {
                    if post.pending.contains(x) {
                        let m = choose|m: int| 0 <= m < post.pending.len() && post.pending[m] == x;
                        if m < p.len() {
                            assert(p[m] == x);
                            assert(p.contains(x));
                        }
                    }
                }
                assert forall|x: ChangeV| mid.total_has(x) || x == cv implies
                    #[trigger] post.total_has(x) by {
                    if x == cv {
                        assert(post.pending[p.len() as int] == cv);
                    } else if p.contains(x) {
                        let m = choose|m: int| 0 <= m < p.len() && p[m] == x;
                        assert(post.pending[m] == x);
                    }
                }
                assert forall|x: ChangeV, y: ChangeV|
                    #[trigger] post.total_has(x) && #[trigger] post.total_has(y) implies ranges_ok(
                    x,
                    y,
                ) by {
                    if x == cv && y == cv {
                    } else if x == cv {
                        assert(mid.total_has(y));
                        assert(ranges_ok(y, x));
                    } else if y == cv {
                        assert(mid.total_has(x));
                    } else {
                        assert(mid.total_has(x) && mid.total_has(y));
                    }
                }
                assert forall|x: ChangeV| #[trigger] post.total_has(x) implies x.start
                    + x.ops.len() <= post.max_counter + 1 by {
                    if x != cv {
                        assert(mid.total_has(x));
                    }
                }
                assert forall|i: int| 0 <= i < post.pending.len() implies wf_change(
                    #[trigger] post.pending[i],
                ) by {
                    if i < p.len() {
                        assert(post.pending[i] == p[i]);
                    } else {
                        assert(post.pending[i] == cv);
                    }
                }
                assert forall|i: int, j: int|
                    0 <= i < post.pending.len() && 0 <= j < post.pending.len() && i != j implies cid_v(
                    #[trigger] post.pending[i],
                ) != cid_v(#[trigger] post.pending[j]) by {
                    if i < p.len() && j < p.len() {
                        assert(post.pending[i] == p[i] && post.pending[j] == p[j]);
                    } else if i < p.len() {
                        assert(post.pending[j] == cv && post.pending[i] == p[i]);
                        if cid_v(p[i]) == cid_v(cv) {
                            assert(has_cid(mid.pending, cid_v(cv)));
                        }
                    } else {
                        assert(post.pending[i] == cv && post.pending[j] == p[j]);
                        if cid_v(p[j]) == cid_v(cv) {
                            assert(has_cid(mid.pending, cid_v(cv)));
                        }
                    }
                }
                assert forall|i: int, j: int|
                    0 <= i < post.applied.len() && 0 <= j < post.pending.len() implies cid_v(
                    #[trigger] post.applied[i],
                ) != cid_v(#[trigger] post.pending[j]) by {
                    if j < p.len() {
                        assert(post.pending[j] == p[j]);
                        assert(cid_v(mid.applied[i]) != cid_v(mid.pending[j]));
                    } else {
                        assert(post.pending[j] == cv);
                        if cid_v(post.applied[i]) == cid_v(cv) {
                            assert(has_cid(mid.applied, cid_v(cv)));
                        }
                    }
                }
                assert forall|i: int| 0 <= i < post.pending.len() implies !deps_in(
                    #[trigger] post.pending[i],
                    post.applied,
                ) by {
                    if i < p.len() {
                        assert(post.pending[i] == p[i]);
                        assert(!deps_in(mid.pending[i], mid.applied));
                    } else {
                        assert(post.pending[i] == cv);
                    }
                }
                assert(post.applied.take(pre.applied.len() as int) =~= pre.applied);
                assert(post.wf());
                assert(apply_outcome(pre, cv, post, Result::<(), ApplyError>::Ok(())));
            }
            Ok(())
        }
    }
}

/// Deliver a change to a replica: the simulated transport of the
/// application layer.  Exactly [`Document::apply_change`].
pub fn deliver(target: &mut Document, change: &Change) -> (r: Result<(), ApplyError>)
    requires
        old(target)@.wf(),
    ensures
        final(target)@.wf(),
        apply_outcome(old(target)@, change@, final(target)@, r),
{
    target.apply_change(change)
}


/// View of an optional value.
pub open spec fn opt_value_view(r: Option<Value>) -> Option<ValueV> {
    match r {
        Some(v) => Some(v@),
        None => None,
    }
}

/// The change that a local commit of `ops` produces on a document in state
/// `pre`: counters start right above the clock, and the dependencies are the
/// current frontier.
pub open spec fn commit_change_v(pre: DocV, ops: Seq<OpV>) -> ChangeV {
    ChangeV { actor: pre.actor, start: (pre.max_counter + 1) as u64, deps: pre.heads, ops }
}

/// The single operation a local write commits.
pub open spec fn single_op_v(pre: DocV, target: ObjectId, key: KeyV, action: OpActionV) -> OpV {
    OpV {
        actor: pre.actor,
        counter: (pre.max_counter + 1) as u64,
        target,
        key,
        action,
    }
}

/// State relation of a successful local commit of `ops`.
pub open spec fn local_commit_rel(pre: DocV, ops: Seq<OpV>, post: DocV) -> bool {
    let c = commit_change_v(pre, ops);
    &&& post.actor == pre.actor
    &&& post.last_local == Some(c)
    &&& post.applied.take(pre.applied.len() as int) == pre.applied
    &&& pre.applied.len() < post.applied.len()
    &&& forall|x: ChangeV| #[trigger] post.total_has(x) <==> pre.total_has(x) || x == c
    &&& post.applied.contains(c)
    &&& forall|x: ChangeV|
        #[trigger] post.applied.contains(x) ==> pre.applied.contains(x) || pre.pending.contains(x)
            || x == c
}

/// What one local write (`put`, `put_object`, `delete`) does: it fails with
/// `ObjectNotFound` exactly when the target container was never created,
/// with `CounterExhausted` exactly when the logical clock has no room left,
/// and otherwise commits one change holding the single operation.
pub open spec fn local_write_outcome(
    pre: DocV,
    target: ObjectId,
    key: KeyV,
    action: OpActionV,
    post: DocV,
    ok: bool,
    err: ApplyError,
) -> bool {
    if !obj_created(pre.applied, target) {
        !ok && err == ApplyError::ObjectNotFound && post == pre
    } else if pre.max_counter + 2 > u64::MAX {
        !ok && err == ApplyError::CounterExhausted && post == pre
    } else {
        ok && local_commit_rel(pre, seq![single_op_v(pre, target, key, action)], post)
    }
}

/// Operations in the applied arena carry pairwise distinct `(actor,
/// counter)` pairs.
pub proof fn lemma_ops_unique(d: DocV)
    requires
        d.wf_core(),
    ensures
        forall|o1: OpV, o2: OpV|
            #[trigger] op_in(d.applied, o1) && #[trigger] op_in(d.applied, o2) && o1.actor
                == o2.actor && o1.counter == o2.counter ==> o1 == o2,
{
    let s = d.applied;
    assert forall|o1: OpV, o2: OpV|
        #[trigger] op_in(s, o1) && #[trigger] op_in(s, o2) && o1.actor == o2.actor && o1.counter
            == o2.counter implies o1 == o2 by {
        let i1 = choose|i: int| 0 <= i < s.len() && s[i].ops.contains(o1);
        let i2 = choose|i: int| 0 <= i < s.len() && s[i].ops.contains(o2);
        let c1 = s[i1];
        let c2 = s[i2];
        let b1 = choose|b: int| 0 <= b < c1.ops.len() && c1.ops[b] == o1;
        let b2 = choose|b: int| 0 <= b < c2.ops.len() && c2.ops[b] == o2;
        assert(wf_change(c1) && wf_change(c2));
        assert(o1.counter == c1.start + b1 && o1.actor == c1.actor);
        assert(o2.counter == c2.start + b2 && o2.actor == c2.actor);
        if i1 == i2 {
            assert(b1 == b2);
        } else {
            assert(cid_v(c1) != cid_v(c2));
            assert(s.contains(c1) && s.contains(c2));
            assert(d.total_has(c1) && d.total_has(c2));
            assert(ranges_ok(c1, c2));
            assert(false);
        }
    }
}

impl Document {
    /// Whether the container `target` exists in this document.
    fn obj_exists(&self, target: ObjectId) -> (r: bool)
        ensures
            r == obj_created(self@.applied, target),
    {
        let (ta, tc) = match target {
            ObjectId::Root => {
                return true;
            },
            ObjectId::Obj { actor, counter } => (actor, counter),
        };
        let ghost s = self@.applied;
        let mut i: usize = 0;
        while i < self.applied.len()
            invariant
                i <= self.applied.len(),
                s == self@.applied,
                target == (ObjectId::Obj { actor: ta, counter: tc }),
                forall|o: OpV|
                    #[trigger] op_in(s.take(i as int), o) ==> !((o.action == OpActionV::MakeMap
                        || o.action == OpActionV::MakeList) && target == (ObjectId::Obj {
                        actor: o.actor,
                        counter: o.counter,
                    })),
            decreases self.applied.len() - i,
        {
            let ops_len = self.applied[i].ops.len();
            let mut j: usize = 0;
            while j < ops_len
                invariant
                    j <= ops_len,
                    i < self.applied.len(),
                    ops_len == self.applied@[i as int].ops.len(),
                    s == self@.applied,
                    target == (ObjectId::Obj { actor: ta, counter: tc }),
                    forall|b: int|
                        0 <= b < j ==> !(((#[trigger] s[i as int].ops[b]).action
                            == OpActionV::MakeMap || s[i as int].ops[b].action
                            == OpActionV::MakeList) && target == (ObjectId::Obj {
                            actor: s[i as int].ops[b].actor,
                            counter: s[i as int].ops[b].counter,
                        })),
                decreases ops_len - j,
            {
                let op = &self.applied[i].ops[j];
                let creates = match op.action {
                    OpAction::MakeMap => true,
                    OpAction::MakeList => true,
                    _ => false,
                };
                proof {
                    assert(s[i as int].ops[j as int] == op@);
                }
                if creates && op.actor == ta && op.counter == tc {
                    assert(op_in(s, op@)) by {
                        assert(s[i as int].ops.contains(op@));
                    }
                    return true;
                }
                j = j + 1;
            }
            proof {
                assert forall|o: OpV| #[trigger] op_in(s.take(i + 1 as int), o) implies !((
                o.action == OpActionV::MakeMap || o.action == OpActionV::MakeList) && target
                    == (ObjectId::Obj { actor: o.actor, counter: o.counter })) by {
                    let w = choose|w: int|
                        0 <= w < s.take(i + 1 as int).len() && (#[trigger] s.take(
                            i + 1 as int,
                        )[w]).ops.contains(o);
                    if w < i {
                        assert(s.take(i as int)[w].ops.contains(o));
                        assert(op_in(s.take(i as int), o));
                    } else {
                        assert(s[i as int].ops.contains(o));
                        let b = choose|b: int|
                            0 <= b < s[i as int].ops.len() && s[i as int].ops[b] == o;
                    }
                }
            }
            i = i + 1;
        }
        proof {
            assert(s.take(s.len() as int) =~= s);
            if obj_created(s, target) {
                let o = choose|o: OpV|
                    #[trigger] op_in(s, o) && (o.action == OpActionV::MakeMap || o.action
                        == OpActionV::MakeList) && target == (ObjectId::Obj {
                        actor: o.actor,
                        counter: o.counter,
                    });
                assert(op_in(s.take(s.len() as int), o));
            }
        }
        false
    }

    /// Commit a batch of operations as one new local change: the change's
    /// dependencies are the current frontier, and it is applied at once.
    pub(crate) fn commit_ops(&mut self, ops: Vec<Operation>) -> (c: Change)
        requires
            old(self)@.wf(),
            ops@.len() >= 1,
            old(self)@.max_counter + 1 + ops@.len() <= u64::MAX,
            forall|i: int|
                0 <= i < ops@.len() ==> (#[trigger] op_views(ops@)[i]).actor == old(self)@.actor
                    && op_views(ops@)[i].counter == old(self)@.max_counter + 1 + i,
        ensures
            final(self)@.wf(),
            c@ == commit_change_v(old(self)@, op_views(ops@)),
            local_commit_rel(old(self)@, op_views(ops@), final(self)@),
    {
        let ghost pre = old(self)@;
        let start = self.max_counter + 1;
        let deps = dup_cids(&self.heads);
        let c = Change { actor: self.actor, start, deps, ops };
        let ghost cv = c@;
        proof {
            assert(cv == commit_change_v(pre, op_views(c.ops@)));
            // every held change sits at or below the clock
            assert forall|x: ChangeV| #[trigger] pre.total_has(x) implies x.start
                < start by {
                if pre.applied.contains(x) {
                    let i = choose|i: int| 0 <= i < pre.applied.len() && pre.applied[i] == x;
                    assert(wf_change(x));
                } else {
                    let i = choose|i: int| 0 <= i < pre.pending.len() && pre.pending[i] == x;
                    assert(wf_change(x));
                }
            }
            // the new change is well formed
            assert(wf_change(cv)) by {
                assert forall|j: int| 0 <= j < cv.deps.len() implies cv.deps[j] != cid_v(cv) by {
                    assert(is_head(pre.applied, pre.heads[j]));
                    let w = choose|w: int|
                        0 <= w < pre.applied.len() && cid_v(pre.applied[w]) == pre.heads[j];
                    assert(pre.applied.contains(pre.applied[w]));
                    assert(pre.total_has(pre.applied[w]));
                    assert(pre.heads[j].counter < start);
                }
                if cv.deps.contains(cid_v(cv)) {
                    let j = choose|j: int| 0 <= j < cv.deps.len() && cv.deps[j] == cid_v(cv);
                }
            }
            // its dependencies (the frontier) are applied
            assert(deps_in(cv, pre.applied)) by {
                assert forall|j: int| 0 <= j < cv.deps.len() implies has_cid(
                    pre.applied,
                    #[trigger] cv.deps[j],
                ) by {
                    assert(is_head(pre.applied, pre.heads[j]));
                }
            }
            // its id is fresh and its counters are above everything held
            assert(!pre.has_id(cid_v(cv))) by {
                if has_cid(pre.applied, cid_v(cv)) {
                    let i = choose|i: int|
                        0 <= i < pre.applied.len() && cid_v(pre.applied[i]) == cid_v(cv);
                    assert(pre.total_has(pre.applied[i]));
                }
                if has_cid(pre.pending, cid_v(cv)) {
                    let i = choose|i: int|
                        0 <= i < pre.pending.len() && cid_v(pre.pending[i]) == cid_v(cv);
                    assert(pre.total_has(pre.pending[i]));
                }
            }
            assert forall|x: ChangeV| #[trigger] pre.total_has(x) implies ranges_ok(x, cv) by {}
        }
        let end = start + (c.ops.len() as u64) - 1;
        self.max_counter = end;
        proof {
            lemma_wf_core_frame(pre, self@);
            let mid = self@;
            assert(mid.applied == pre.applied && mid.pending == pre.pending);
            assert forall|x: ChangeV| #[trigger] mid.total_has(x) implies ranges_ok(x, cv) by {
                assert(pre.total_has(x));
            }
            assert(!mid.has_id(cid_v(cv)));
        }
        let ghost mid = self@;
        let c2 = dup_change(&c);
        self.apply_ready(c2);
        let ghost stepped = self@;
        self.flush();
        let ghost flushed = self@;
        proof {
            assert forall|x: ChangeV| #[trigger] self@.total_has(x) implies pre.total_has(x) || x
                == cv by {
                assert(stepped.total_has(x));
                if x != cv {
                    assert(mid.total_has(x));
                    assert(pre.total_has(x));
                }
            }
            assert forall|x: ChangeV| pre.total_has(x) || x == cv implies
                #[trigger] self@.total_has(x) by {
                if x != cv {
                    assert(mid.total_has(x));
                }
                assert(stepped.total_has(x));
            }
        }
        let c3 = dup_change(&c);
        self.last_local = Some(c3);
        proof {
            let post = self@;
            let ghost unlabeled = DocV { last_local: pre.last_local, ..post };
            lemma_wf_core_frame(unlabeled, post);
            assert(post.wf());
            // only the recorded last change differs from the flushed state
            assert(post.applied == flushed.applied && post.pending == flushed.pending);
            assert forall|x: ChangeV| #[trigger] post.total_has(x) implies pre.total_has(x) || x
                == cv by {
                assert(flushed.total_has(x));
            }
            assert forall|x: ChangeV| pre.total_has(x) || x == cv implies
                #[trigger] post.total_has(x) by {
                assert(flushed.total_has(x));
            }
            // the commit relation, mirroring apply_change's applied case
            assert(mid.applied == pre.applied);
            let sa = pre.applied.push(cv);
            let sn = sa.len() as int;
            assert(post.applied.take(sn) == sa);
            assert(sn <= post.applied.len());
            assert forall|i: int| 0 <= i < sn implies post.applied[i] == sa[i] by {
                assert(post.applied.take(sn)[i] == sa[i]);
            }
            assert(post.applied.take(pre.applied.len() as int) =~= pre.applied) by {
                assert(forall|i: int|
                    0 <= i < pre.applied.len() ==> post.applied.take(pre.applied.len() as int)[i]
                        == post.applied[i] && sa[i] == pre.applied[i]);
            }
            assert(post.applied.contains(cv)) by {
                assert(sa[sn - 1] == cv);
                assert(post.applied[sn - 1] == cv);
            }
            assert forall|x: ChangeV| #[trigger] post.applied.contains(x) implies pre.applied.contains(
                x,
            ) || pre.pending.contains(x) || x == cv by {
                if sa.contains(x) {
                    let i = choose|i: int| 0 <= i < sa.len() && sa[i] == x;
                    if i < pre.applied.len() {
                        assert(pre.applied[i] == x);
                        assert(pre.applied.contains(x));
                    }
                }
            }
            assert(local_commit_rel(pre, op_views(c.ops@), post));
        }
        c
    }

    /// Record a local scalar write to `(target, key)`.
    pub fn put(&mut self, target: ObjectId, key: Key, value: Scalar) -> (r: Result<
        (),
        ApplyError,
    >)
        requires
            old(self)@.wf(),
        ensures
            final(self)@.wf(),
            match r {
                Ok(_) => local_write_outcome(
                    old(self)@,
                    target,
                    key@,
                    OpActionV::Put(value@),
                    final(self)@,
                    true,
                    ApplyError::ObjectNotFound,
                ),
                Err(e) => local_write_outcome(
                    old(self)@,
                    target,
                    key@,
                    OpActionV::Put(value@),
                    final(self)@,
                    false,
                    e,
                ),
            },
    {
        let action = OpAction::Put(value);
        self.local_write(target, key, action)
    }

    /// Create a new nested container (map or list) under `(parent, key)` and
    /// return its id.
    pub fn put_object(&mut self, parent: ObjectId, key: Key, kind: ObjKind) -> (r: Result<
        ObjectId,
        ApplyError,
    >)
        requires
            old(self)@.wf(),
        ensures
            final(self)@.wf(),
            match r {
                Ok(o) => {
                    &&& local_write_outcome(
                        old(self)@,
                        parent,
                        key@,
                        if kind == ObjKind::MapObj {
                            OpActionV::MakeMap
                        } else {
                            OpActionV::MakeList
                        },
                        final(self)@,
                        true,
                        ApplyError::ObjectNotFound,
                    )
                    &&& o == (ObjectId::Obj {
                        actor: old(self)@.actor,
                        counter: (old(self)@.max_counter + 1) as u64,
                    })
                },
                Err(e) => local_write_outcome(
                    old(self)@,
                    parent,
                    key@,
                    if kind == ObjKind::MapObj {
                        OpActionV::MakeMap
                    } else {
                        OpActionV::MakeList
                    },
                    final(self)@,
                    false,
                    e,
                ),
            },
    {
        let action = match kind {
            ObjKind::MapObj => OpAction::MakeMap,
            ObjKind::ListObj => OpAction::MakeList,
        };
        let before = self.max_counter;
        match self.local_write(parent, key, action) {
            Ok(_) => Ok(ObjectId::Obj { actor: self.actor, counter: before + 1 }),
            Err(e) => Err(e),
        }
    }

    /// Record a local deletion of `(target, key)`.
    pub fn delete(&mut self, target: ObjectId, key: Key) -> (r: Result<(), ApplyError>)
        requires
            old(self)@.wf(),
        ensures
            final(self)@.wf(),
            match r {
                Ok(_) => local_write_outcome(
                    old(self)@,
                    target,
                    key@,
                    OpActionV::Delete,
                    final(self)@,
                    true,
                    ApplyError::ObjectNotFound,
                ),
                Err(e) => local_write_outcome(
                    old(self)@,
                    target,
                    key@,
                    OpActionV::Delete,
                    final(self)@,
                    false,
                    e,
                ),
            },
    {
        self.local_write(target, key, OpAction::Delete)
    }

    /// Shared body of the single-operation local writes.
    fn local_write(&mut self, target: ObjectId, key: Key, action: OpAction) -> (r: Result<
        (),
        ApplyError,
    >)
        requires
            old(self)@.wf(),
        ensures
            final(self)@.wf(),
            match r {
                Ok(_) => local_write_outcome(
                    old(self)@,
                    target,
                    key@,
                    action@,
                    final(self)@,
                    true,
                    ApplyError::ObjectNotFound,
                ),
                Err(e) => local_write_outcome(
                    old(self)@,
                    target,
                    key@,
                    action@,
                    final(self)@,
                    false,
                    e,
                ),
            },
    {
        if !self.obj_exists(target) {
            return Err(ApplyError::ObjectNotFound);
        }
        if self.max_counter > u64::MAX - 2 {
            return Err(ApplyError::CounterExhausted);
        }
        let ghost pre = self@;
        let op = Operation {
            actor: self.actor,
            counter: self.max_counter + 1,
            target,
            key,
            action,
        };
        let ghost opv = op@;
        let mut ops: Vec<Operation> = Vec::new();
        ops.push(op);
        proof {
            assert(op_views(ops@) =~= seq![opv]);
            assert(opv == single_op_v(pre, target, opv.key, opv.action));
        }
        let _c = self.commit_ops(ops);
        Ok(())
    }

    /// The most recently committed local change, handed out once: a second
    /// call returns nothing until the next local commit.
    pub fn last_local_change(&mut self) -> (r: Option<Change>)
        requires
            old(self)@.wf(),
        ensures
            final(self)@.wf(),
            opt_change_view(r) == old(self)@.last_local,
            final(self)@ == (DocV { last_local: None, ..old(self)@ }),
    {
        let r = match &self.last_local {
            Some(c) => Some(dup_change(c)),
            None => None,
        };
        self.last_local = None;
        proof {
            lemma_wf_core_frame(old(self)@, self@);
        }
        r
    }
}


/// Operations seen by a scan that has processed all changes before `i` and
/// the first `j` operations of change `i`.
pub open spec fn op_in_prefix(s: Seq<ChangeV>, i: int, j: int, o: OpV) -> bool {
    op_in(s.take(i), o) || (0 <= i < s.len() && exists|b: int| 0 <= b < j && s[i].ops[b] == o)
}

/// The resolved value a winning non-deletion operation contributes.
pub open spec fn value_of_op(w: OpV) -> ValueV {
    match w.action {
        OpActionV::Put(sc) => ValueV::Scalar(sc),
        _ => ValueV::Object(ObjectId::Obj { actor: w.actor, counter: w.counter }),
    }
}

/// Whether a winning operation yields a live entry.
pub open spec fn op_makes_entry(w: OpV) -> bool {
    w.action != OpActionV::Delete
}

/// The entry a winning non-deletion operation yields.
pub open spec fn entry_of(w: OpV) -> EntryV {
    EntryV { key: w.key, value: value_of_op(w) }
}

/// A scan that saw everything saw exactly the applied operations.
proof fn lemma_prefix_complete(s: Seq<ChangeV>)
    ensures
        forall|o: OpV| #[trigger] op_in_prefix(s, s.len() as int, 0, o) <==> op_in(s, o),
{
    assert(s.take(s.len() as int) =~= s);
}

/// Insert an entry with a fresh key into a sorted entry list, keeping it
/// sorted.
#[verifier::loop_isolation(false)]
fn insert_entry_sorted(list: &mut Vec<Entry>, e: Entry)
    requires
        strict_sorted(entry_views(old(list)@)),
        forall|m: int|
            0 <= m < old(list)@.len() ==> (#[trigger] entry_views(old(list)@)[m]).key != e@.key,
    ensures
        strict_sorted(entry_views(final(list)@)),
        forall|x: EntryV|
            #[trigger] entry_views(final(list)@).contains(x) <==> entry_views(
                old(list)@,
            ).contains(x) || x == e@,
{
    let ghost pre = entry_views(list@);
    let mut pos: usize = 0;
    while pos < list.len()
        invariant
            pos <= list.len(),
            forall|m: int| 0 <= m < pos ==> key_lt((#[trigger] pre[m]).key, e@.key),
        decreases list.len() - pos,
    {
        if key_lt_exec(&e.key, &list[pos].key) {
            break ;
        }
        proof {
            lemma_key_trichotomy(pre[pos as int].key, e@.key);
        }
        pos = pos + 1;
    }
    let ghost p = pos as int;
    proof {
        assert(p < pre.len() ==> key_lt(e@.key, pre[p].key));
    }
    list.insert(pos, e);
    proof {
        let post = entry_views(list@);
        assert(post.len() == pre.len() + 1);
        assert forall|m: int| 0 <= m < post.len() implies post[m] == (if m < p {
            pre[m]
        } else if m == p {
            e@
        } else {
            pre[m - 1]
        }) by {
            assert(list@[m] == (if m < p {
                old(list)@[m]
            } else if m == p {
                e
            } else {
                old(list)@[m - 1]
            }));
        }
        assert forall|i: int, j: int| 0 <= i < j < post.len() implies key_lt(
            (#[trigger] post[i]).key,
            (#[trigger] post[j]).key,
        ) by {
            if i < p && j < p {
            } else if i < p && j == p {
                assert(key_lt(pre[i].key, e@.key));
            } else if i < p && j > p {
                assert(key_lt(pre[i].key, pre[j - 1].key));
            } else if i == p {
                // j > p: e sorts before pre[p], which sorts up to pre[j-1]
                assert(key_lt(e@.key, pre[p].key));
                if j - 1 > p {
                    lemma_key_trans(e@.key, pre[p].key, pre[j - 1].key);
                }
            } else {
                assert(key_lt(pre[i - 1].key, pre[j - 1].key));
            }
        }
        assert forall|x: EntryV| #[trigger] post.contains(x) implies pre.contains(x) || x
            == e@ by {
            let m = choose|m: int| 0 <= m < post.len() && post[m] == x;
            if m < p {
                assert(pre[m] == x);
            } else if m > p {
                assert(pre[m - 1] == x);
            }
        }
        assert forall|x: EntryV| pre.contains(x) || x == e@ implies #[trigger] post.contains(
            x,
        ) by {
            if x == e@ {
                assert(post[p] == x);
            } else {
                let m = choose|m: int| 0 <= m < pre.len() && pre[m] == x;
                if m < p {
                    assert(post[m] == x);
                } else {
                    assert(post[m + 1] == x);
                }
            }
        }
    }
}

impl Document {
    /// Read the resolved value of `(target, key)` after conflict
    /// resolution: the value of the winning write, or nothing if the slot
    /// was never written or the winner is a deletion.
    #[verifier::loop_isolation(false)]
    pub fn get(&self, target: ObjectId, key: &Key) -> (r: Option<Value>)
        requires
            self@.wf(),
        ensures
            opt_value_view(r) == resolved(self@.applied, target, key@),
    {
        let ghost s = self@.applied;
        proof {
            lemma_ops_unique(self@);
        }
        let mut found: bool = false;
        let mut bi: usize = 0;
        let mut bj: usize = 0;
        let mut i: usize = 0;
        while i < self.applied.len()
            invariant
                i <= self.applied.len(),
                found ==> bi < i && bj < s[bi as int].ops.len(),
                found ==> {
                    let b = s[bi as int].ops[bj as int];
                    &&& writes_key(b, target, key@)
                    &&& forall|p: OpV|
                        #[trigger] op_in_prefix(s, i as int, 0, p) && writes_key(p, target, key@)
                            && p != b ==> beats(b, p)
                },
                !found ==> forall|p: OpV|
                    #[trigger] op_in_prefix(s, i as int, 0, p) ==> !writes_key(p, target, key@),
            decreases self.applied.len() - i,
        {
            let ops_len = self.applied[i].ops.len();
            let mut j: usize = 0;
            while j < ops_len
                invariant
                    j <= ops_len,
                    i < self.applied.len(),
                    ops_len == s[i as int].ops.len(),
                    found ==> (bi < i || (bi == i && bj < j)) && bi <= i && bj < s[bi as int].ops.len(),
                    found ==> {
                        let b = s[bi as int].ops[bj as int];
                        &&& writes_key(b, target, key@)
                        &&& forall|p: OpV|
                            #[trigger] op_in_prefix(s, i as int, j as int, p) && writes_key(
                                p,
                                target,
                                key@,
                            ) && p != b ==> beats(b, p)
                    },
                    !found ==> forall|p: OpV|
                        #[trigger] op_in_prefix(s, i as int, j as int, p) ==> !writes_key(
                            p,
                            target,
                            key@,
                        ),
                decreases ops_len - j,
            {
                let matches_slot = {
                    let op = &self.applied[i].ops[j];
                    op.target == target && key_eq(&op.key, key)
                };
                proof {
                    assert(s[i as int].ops[j as int] == self.applied@[i as int].ops@[j as int]@);
                }
                let ghost cur = s[i as int].ops[j as int];
                proof {
                    assert(op_in_prefix(s, i as int, j + 1 as int, cur)) by {
                        assert(s[i as int].ops[j as int] == cur);
                    }
                    assert(op_in(s, cur)) by {
                        assert(s[i as int].ops.contains(cur));
                    }
                }
                if matches_slot {
                    if !found {
                        found = true;
                        bi = i;
                        bj = j;
                    } else {
                        let better = {
                            let op = &self.applied[i].ops[j];
                            let b = &self.applied[bi].ops[bj];
                            op.counter > b.counter || (op.counter == b.counter && op.actor
                                > b.actor)
                        };
                        proof {
                            let b = s[bi as int].ops[bj as int];
                            assert(op_in(s, b)) by {
                                assert(s[bi as int].ops.contains(b));
                            }
                            if !better && cur != b {
                                // cur does not beat b; their pairs differ, so b beats cur
                                assert(cur.counter != b.counter || cur.actor != b.actor);
                                assert(beats(b, cur));
                            }
                        }
                        if better {
                            bi = i;
                            bj = j;
                        }
                    }
                }
                proof {
                    let b2 = s[bi as int].ops[bj as int];
                    assert forall|p: OpV|
                        #[trigger] op_in_prefix(s, i as int, j + 1 as int, p) && p != cur implies op_in_prefix(
                        s,
                        i as int,
                        j as int,
                        p,
                    ) by {
                        if !op_in(s.take(i as int), p) {
                            let b = choose|b: int|
                                0 <= b < j + 1 && s[i as int].ops[b] == p;
                            assert(b < j);
                        }
                    }
                }
                j = j + 1;
            }
            proof {
                assert forall|p: OpV| #[trigger] op_in_prefix(s, i + 1 as int, 0, p) implies op_in_prefix(
                    s,
                    i as int,
                    ops_len as int,
                    p,
                ) by {
                    let w = choose|w: int|
                        0 <= w < s.take(i + 1 as int).len() && (#[trigger] s.take(
                            i + 1 as int,
                        )[w]).ops.contains(p);
                    if w < i {
                        assert(s.take(i as int)[w].ops.contains(p));
                        assert(op_in(s.take(i as int), p));
                    } else {
                        assert(s[i as int].ops.contains(p));
                        let b = choose|b: int|
                            0 <= b < s[i as int].ops.len() && s[i as int].ops[b] == p;
                    }
                }
            }
            i = i + 1;
        }
        proof {
            lemma_prefix_complete(s);
        }
        if !found {
            proof {
                if has_winner(s, target, key@) {
                    let w = winner(s, target, key@);
                    assert(is_winner(w, s, target, key@));
                    assert(op_in_prefix(s, s.len() as int, 0, w));
                }
            }
            return None;
        }
        let ghost b = s[bi as int].ops[bj as int];
        proof {
            assert(op_in(s, b)) by {
                assert(s[bi as int].ops.contains(b));
            }
            assert forall|p: OpV| #[trigger] op_in(s, p) && writes_key(p, target, key@) && p != b
                implies beats(b, p) by {
                assert(op_in_prefix(s, s.len() as int, 0, p));
            }
            assert(is_winner(b, s, target, key@));
            let w = winner(s, target, key@);
            assert(is_winner(w, s, target, key@));
            lemma_winner_unique(s, target, key@, b, w);
        }
        let op = &self.applied[bi].ops[bj];
        proof {
            assert(op@ == b);
        }
        match &op.action {
            OpAction::Put(sc) => Some(Value::Scalar(dup_scalar(sc))),
            OpAction::MakeMap => Some(
                Value::Object(ObjectId::Obj { actor: op.actor, counter: op.counter }),
            ),
            OpAction::MakeList => Some(
                Value::Object(ObjectId::Obj { actor: op.actor, counter: op.counter }),
            ),
            OpAction::Delete => None,
        }
    }
}


/// The views of a sequence of operations held in a vector.
pub open spec fn op_views_vec(s: Seq<Operation>) -> Seq<OpV> {
    Seq::new(s.len(), |i: int| s[i]@)
}

impl Document {
    /// Enumerate the live entries of container `target`, ordered by key.
    ///
    /// The result is the canonical enumeration: strictly sorted in the key
    /// order, holding exactly the keys whose winning write is not a
    /// deletion, each with its resolved value.  It is a pure function of the
    /// set of applied changes.
    #[verifier::loop_isolation(false)]
    pub fn map_range(&self, target: ObjectId) -> (r: Vec<Entry>)
        requires
            self@.wf(),
        ensures
            canon_entries(self@.applied, target, entry_views(r@)),
            entry_views(r@) == map_range_spec(self@.applied, target),
    {
        let ghost s = self@.applied;
        proof {
            lemma_ops_unique(self@);
        }
        // Phase one: the winning operation of every key written on target.
        let mut winners: Vec<Operation> = Vec::new();
        let mut i: usize = 0;
        while i < self.applied.len()
            invariant
                i <= self.applied.len(),
                forall|m: int, m2: int|
                    0 <= m < m2 < winners@.len() ==> (#[trigger] op_views_vec(winners@)[m]).key
                        != (#[trigger] op_views_vec(winners@)[m2]).key,
                forall|m: int|
                    0 <= m < winners@.len() ==> op_in(s, #[trigger] op_views_vec(winners@)[m])
                        && (op_views_vec(winners@)[m]).target == target,
                forall|m: int, p: OpV|
                    0 <= m < winners@.len() && #[trigger] op_in_prefix(s, i as int, 0, p)
                        && writes_key(p, target, (#[trigger] op_views_vec(winners@)[m]).key) && p
                        != op_views_vec(winners@)[m] ==> beats(op_views_vec(winners@)[m], p),
                forall|p: OpV|
                    #[trigger] op_in_prefix(s, i as int, 0, p) && p.target == target ==> exists|
                        m: int,
                    |
                        0 <= m < winners@.len() && (#[trigger] op_views_vec(winners@)[m]).key
                            == p.key,
            decreases self.applied.len() - i,
        {
            let ops_len = self.applied[i].ops.len();
            let mut j: usize = 0;
            while j < ops_len
                invariant
                    j <= ops_len,
                    i < self.applied.len(),
                    ops_len == s[i as int].ops.len(),
                    forall|m: int, m2: int|
                        0 <= m < m2 < winners@.len() ==> (#[trigger] op_views_vec(winners@)[m]).key
                            != (#[trigger] op_views_vec(winners@)[m2]).key,
                    forall|m: int|
                        0 <= m < winners@.len() ==> op_in(s, #[trigger] op_views_vec(winners@)[m])
                            && (op_views_vec(winners@)[m]).target == target,
                    forall|m: int, p: OpV|
                        0 <= m < winners@.len() && #[trigger] op_in_prefix(s, i as int, j as int, p)
                            && writes_key(p, target, (#[trigger] op_views_vec(winners@)[m]).key)
                            && p != op_views_vec(winners@)[m] ==> beats(
                            op_views_vec(winners@)[m],
                            p,
                        ),
                    forall|p: OpV|
                        #[trigger] op_in_prefix(s, i as int, j as int, p) && p.target == target
                            ==> exists|m: int|
                            0 <= m < winners@.len() && (#[trigger] op_views_vec(winners@)[m]).key
                                == p.key,
                decreases ops_len - j,
            {
                proof {
                    assert(s[i as int].ops[j as int] == self.applied@[i as int].ops@[j as int]@);
                }
                let ghost cur = s[i as int].ops[j as int];
                proof {
                    assert(op_in_prefix(s, i as int, j + 1 as int, cur)) by {
                        assert(s[i as int].ops[j as int] == cur);
                    }
                    assert(op_in(s, cur)) by {
                        assert(s[i as int].ops.contains(cur));
                    }
                    assert forall|p: OpV|
                        #[trigger] op_in_prefix(s, i as int, j + 1 as int, p) && p != cur implies op_in_prefix(
                        s,
                        i as int,
                        j as int,
                        p,
                    ) by {
                        if !op_in(s.take(i as int), p) {
                            let b = choose|b: int| 0 <= b < j + 1 && s[i as int].ops[b] == p;
                            assert(b < j);
                        }
                    }
                }
                let ghost basew = op_views_vec(winners@);
                let hit = {
                    let op = &self.applied[i].ops[j];
                    op.target == target
                };
                if hit {
                    // look for an existing winner with this key
                    let mut m: usize = 0;
                    let mut slot: usize = winners.len();
                    while m < winners.len()
                        invariant
                            m <= winners@.len(),
                            slot == winners@.len() || (slot < m && (op_views_vec(
                                winners@,
                            )[slot as int]).key == cur.key),
                            slot == winners@.len() ==> forall|m2: int|
                                0 <= m2 < m ==> (#[trigger] op_views_vec(winners@)[m2]).key
                                    != cur.key,
                        decreases winners@.len() - m,
                    {
                        if slot == winners.len() {
                            let same = {
                                let op = &self.applied[i].ops[j];
                                key_eq(&winners[m].key, &op.key)
                            };
                            if same {
                                slot = m;
                            }
                        }
                        m = m + 1;
                    }
                    if slot == winners.len() {
                        let op2 = {
                            let op = &self.applied[i].ops[j];
                            crate::types::dup_op(op)
                        };
                        let ghost prevw = op_views_vec(winners@);
                        winners.push(op2);
                        proof {
                            let noww = op_views_vec(winners@);
                            assert(noww =~= prevw.push(cur));
                            assert forall|m2: int| 0 <= m2 < noww.len() implies noww[m2] == (
                            if m2 < prevw.len() {
                                prevw[m2]
                            } else {
                                cur
                            }) by {}
                            assert forall|p: OpV|
                                #[trigger] op_in_prefix(s, i as int, j + 1 as int, p) && p.target
                                    == target implies exists|m2: int|
                                0 <= m2 < winners@.len() && (#[trigger] op_views_vec(
                                    winners@,
                                )[m2]).key == p.key by {
                                if p == cur {
                                    assert((op_views_vec(winners@)[prevw.len() as int]).key
                                        == cur.key);
                                } else {
                                    assert(op_in_prefix(s, i as int, j as int, p));
                                    let m3 = choose|m3: int|
                                        0 <= m3 < basew.len() && (#[trigger] basew[m3]).key
                                            == p.key;
                                    assert((op_views_vec(winners@)[m3]).key == p.key);
                                }
                            }
                        }
                    } else {
                        let better = {
                            let op = &self.applied[i].ops[j];
                            let b = &winners[slot];
                            op.counter > b.counter || (op.counter == b.counter && op.actor
                                > b.actor)
                        };
                        let ghost bold = op_views_vec(winners@)[slot as int];
                        proof {
                            if !better && cur != bold {
                                assert(op_in(s, bold));
                                assert(cur.counter != bold.counter || cur.actor != bold.actor);
                                assert(beats(bold, cur));
                            }
                        }
                        if better {
                            let op2 = {
                                let op = &self.applied[i].ops[j];
                                crate::types::dup_op(op)
                            };
                            let ghost prevw = op_views_vec(winners@);
                            winners.set(slot, op2);
                            proof {
                                let noww = op_views_vec(winners@);
                                assert forall|m2: int| 0 <= m2 < noww.len() implies noww[m2] == (
                                if m2 == slot as int {
                                    cur
                                } else {
                                    prevw[m2]
                                }) by {}
                                // the replaced winner loses to the new one,
                                // so the new one beats everything scanned
                                assert forall|p: OpV|
                                    #[trigger] op_in_prefix(s, i as int, j + 1 as int, p)
                                        && writes_key(p, target, cur.key) && p != cur implies beats(
                                    cur,
                                    p,
                                ) by {
                                    if p == bold {
                                    } else {
                                        assert(op_in_prefix(s, i as int, j as int, p));
                                        assert(beats(bold, p));
                                    }
                                }
                                assert(bold.key == cur.key);
                                assert forall|m2: int| 0 <= m2 < noww.len() implies (
                                #[trigger] noww[m2]).key == basew[m2].key by {}
                                assert forall|p: OpV|
                                    #[trigger] op_in_prefix(s, i as int, j + 1 as int, p)
                                        && p.target == target implies exists|m2: int|
                                    0 <= m2 < winners@.len() && (#[trigger] op_views_vec(
                                        winners@,
                                    )[m2]).key == p.key by {
                                    if p == cur {
                                        assert((op_views_vec(winners@)[slot as int]).key
                                            == cur.key);
                                    } else {
                                        assert(op_in_prefix(s, i as int, j as int, p));
                                        let m3 = choose|m3: int|
                                            0 <= m3 < basew.len() && (#[trigger] basew[m3]).key
                                                == p.key;
                                        assert((op_views_vec(winners@)[m3]).key == p.key);
                                    }
                                }
                            }
                        }
                    }
                }
                proof {
                    if op_views_vec(winners@) == basew {
                        // the winner table did not change in this step
                        assert forall|p: OpV|
                            #[trigger] op_in_prefix(s, i as int, j + 1 as int, p) && p.target
                                == target implies exists|m2: int|
                            0 <= m2 < winners@.len() && (#[trigger] op_views_vec(winners@)[m2]).key
                                == p.key by {
                            if p == cur {
                                assert(hit);
                                let m3 = choose|m3: int|
                                    0 <= m3 < basew.len() && (#[trigger] basew[m3]).key == cur.key;
                                assert((op_views_vec(winners@)[m3]).key == p.key);
                            } else {
                                assert(op_in_prefix(s, i as int, j as int, p));
                                let m3 = choose|m3: int|
                                    0 <= m3 < basew.len() && (#[trigger] basew[m3]).key == p.key;
                                assert((op_views_vec(winners@)[m3]).key == p.key);
                            }
                        }
                    }
                }
                j = j + 1;
            }
            proof {
                assert forall|p: OpV| #[trigger] op_in_prefix(s, i + 1 as int, 0, p) implies op_in_prefix(
                    s,
                    i as int,
                    ops_len as int,
                    p,
                ) by {
                    let w = choose|w: int|
                        0 <= w < s.take(i + 1 as int).len() && (#[trigger] s.take(
                            i + 1 as int,
                        )[w]).ops.contains(p);
                    if w < i {
                        assert(s.take(i as int)[w].ops.contains(p));
                        assert(op_in(s.take(i as int), p));
                    } else {
                        assert(s[i as int].ops.contains(p));
                        let b = choose|b: int|
                            0 <= b < s[i as int].ops.len() && s[i as int].ops[b] == p;
                    }
                }
            }
            i = i + 1;
        }
        proof {
            lemma_prefix_complete(s);
            // every collected operation is the winner of its key
            assert forall|m: int| 0 <= m < winners@.len() implies is_winner(
                op_views_vec(winners@)[m],
                s,
                target,
                (#[trigger] op_views_vec(winners@)[m]).key,
            ) by {
                let w = op_views_vec(winners@)[m];
                assert forall|p: OpV| #[trigger] op_in(s, p) && writes_key(p, target, w.key) && p
                    != w implies beats(w, p) by {
                    assert(op_in_prefix(s, s.len() as int, 0, p));
                }
            }
        }
        // Phase two: keep the non-deletion winners, sorted by key.
        let mut out: Vec<Entry> = Vec::new();
        let mut m: usize = 0;
        while m < winners.len()
            invariant
                m <= winners@.len(),
                strict_sorted(entry_views(out@)),
                forall|x: EntryV|
                    #[trigger] entry_views(out@).contains(x) <==> exists|m2: int|
                        0 <= m2 < m && op_makes_entry(#[trigger] op_views_vec(winners@)[m2]) && x
                            == entry_of(op_views_vec(winners@)[m2]),
            decreases winners@.len() - m,
        {
            proof {
                assert(op_views_vec(winners@)[m as int] == winners@[m as int]@);
            }
            let ghost w = op_views_vec(winners@)[m as int];
            let keep = {
                let op = &winners[m];
                match op.action {
                    OpAction::Delete => false,
                    _ => true,
                }
            };
            if keep {
                let e = {
                    let op = &winners[m];
                    let value = match &op.action {
                        OpAction::Put(sc) => Value::Scalar(dup_scalar(sc)),
                        _ => Value::Object(
                            ObjectId::Obj { actor: op.actor, counter: op.counter },
                        ),
                    };
                    Entry { key: dup_key(&op.key), value }
                };
                proof {
                    assert(e@ == entry_of(w));
                    // no existing output entry carries this key
                    assert forall|m2: int| 0 <= m2 < out@.len() implies (
                    #[trigger] entry_views(out@)[m2]).key != e@.key by {
                        let x = entry_views(out@)[m2];
                        assert(entry_views(out@).contains(x));
                        let m3 = choose|m3: int|
                            0 <= m3 < m && op_makes_entry(#[trigger] op_views_vec(winners@)[m3])
                                && x == entry_of(op_views_vec(winners@)[m3]);
                        assert((op_views_vec(winners@)[m3]).key != w.key);
                    }
                }
                let ghost preout = entry_views(out@);
                insert_entry_sorted(&mut out, e);
                proof {
                    assert forall|x: EntryV| #[trigger] entry_views(out@).contains(x) implies exists|
                        m2: int,
                    |
                        0 <= m2 < m + 1 && op_makes_entry(#[trigger] op_views_vec(winners@)[m2])
                            && x == entry_of(op_views_vec(winners@)[m2]) by {
                        if x == e@ {
                            assert(op_makes_entry(op_views_vec(winners@)[m as int]) && x
                                == entry_of(op_views_vec(winners@)[m as int]));
                        } else {
                            assert(preout.contains(x));
                        }
                    }
                    assert forall|x: EntryV|
                        (exists|m2: int|
                            0 <= m2 < m + 1 && op_makes_entry(
                                #[trigger] op_views_vec(winners@)[m2],
                            ) && x == entry_of(op_views_vec(winners@)[m2])) implies
                        #[trigger] entry_views(out@).contains(x) by {
                        let m2 = choose|m2: int|
                            0 <= m2 < m + 1 && op_makes_entry(
                                #[trigger] op_views_vec(winners@)[m2],
                            ) && x == entry_of(op_views_vec(winners@)[m2]);
                        if m2 < m {
                            assert(preout.contains(x));
                        }
                    }
                }
            } else {
                proof {
                    assert forall|x: EntryV|
                        (exists|m2: int|
                            0 <= m2 < m + 1 && op_makes_entry(
                                #[trigger] op_views_vec(winners@)[m2],
                            ) && x == entry_of(op_views_vec(winners@)[m2])) implies
                        #[trigger] entry_views(out@).contains(x) by {
                        let m2 = choose|m2: int|
                            0 <= m2 < m + 1 && op_makes_entry(
                                #[trigger] op_views_vec(winners@)[m2],
                            ) && x == entry_of(op_views_vec(winners@)[m2]);
                        assert(m2 < m);
                    }
                }
            }
            m = m + 1;
        }
        // The enumeration is canonical.
        proof {
            let es = entry_views(out@);
            assert forall|e: EntryV| #[trigger] es.contains(e) implies entry_at(s, target, e) by {
                let m2 = choose|m2: int|
                    0 <= m2 < winners@.len() && op_makes_entry(#[trigger] op_views_vec(winners@)[m2])
                        && e == entry_of(op_views_vec(winners@)[m2]);
                let w = op_views_vec(winners@)[m2];
                assert(is_winner(w, s, target, w.key));
                let w2 = winner(s, target, w.key);
                assert(is_winner(w2, s, target, w.key));
                lemma_winner_unique(s, target, w.key, w, w2);
                assert(resolved(s, target, e.key) == Some(e.value));
            }
            assert forall|e: EntryV| entry_at(s, target, e) implies #[trigger] es.contains(e) by {
                assert(has_winner(s, target, e.key));
                let w0 = winner(s, target, e.key);
                assert(is_winner(w0, s, target, e.key));
                assert(op_in_prefix(s, s.len() as int, 0, w0));
                assert(w0.target == target);
                let m2 = choose|m2: int|
                    0 <= m2 < winners@.len() && (#[trigger] op_views_vec(winners@)[m2]).key
                        == w0.key;
                let w = op_views_vec(winners@)[m2];
                assert(is_winner(w, s, target, w.key));
                lemma_winner_unique(s, target, e.key, w, w0);
                assert(op_makes_entry(w)) by {
                    if w.action == OpActionV::Delete {
                        assert(resolved(s, target, e.key) is None);
                    }
                }
                assert(e == entry_of(w)) by {
                    assert(resolved(s, target, e.key) == Some(value_of_op(w)));
                }
            }
            assert(canon_entries(s, target, es));
            let canon = map_range_spec(s, target);
            assert(canon_entries(s, target, canon));
            crate::resolve::lemma_sorted_unique(es, canon);
        }
        out
    }
}

} // verus!
