//! Deterministic conflict resolution.
//!
//! The resolved value of every `(target, key)` slot is a pure function of the
//! *set* of applied changes: among all operations writing the slot, the winner
//! is the one with the highest `(counter, actor)` pair.  Because local commits
//! always pick counters above everything already seen, an operation that
//! causally follows another on the same slot also beats it, so this rule
//! implements last-writer-wins at the register granularity while staying
//! independent of arrival order.

use vstd::prelude::*;
use crate::order::{key_lt, lemma_key_irrefl, lemma_key_trans};
use crate::types::{ChangeV, Key, KeyV, ObjectId, OpActionV, OpV, Value, ValueV};

verus! {

/// Whether the operation `o` occurs in some change of `s`.
pub open spec fn op_in(s: Seq<ChangeV>, o: OpV) -> bool {
    exists|i: int| 0 <= i < s.len() && (#[trigger] s[i]).ops.contains(o)
}

/// Whether `o` writes the slot `(t, k)`.
pub open spec fn writes_key(o: OpV, t: ObjectId, k: KeyV) -> bool {
    o.target == t && o.key == k
}

/// The strict priority order on operations: higher counter wins, ties broken
/// by higher actor id.
pub open spec fn beats(a: OpV, b: OpV) -> bool {
    a.counter > b.counter || (a.counter == b.counter && a.actor > b.actor)
}

/// `o` is the winning write of slot `(t, k)` among the changes `s`.
pub open spec fn is_winner(o: OpV, s: Seq<ChangeV>, t: ObjectId, k: KeyV) -> bool {
    &&& op_in(s, o)
    &&& writes_key(o, t, k)
    &&& forall|p: OpV| #[trigger] op_in(s, p) && writes_key(p, t, k) && p != o ==> beats(o, p)
}

/// Whether any operation writes the slot.
pub open spec fn has_winner(s: Seq<ChangeV>, t: ObjectId, k: KeyV) -> bool {
    exists|o: OpV| is_winner(o, s, t, k)
}

/// The winning write of the slot.
pub open spec fn winner(s: Seq<ChangeV>, t: ObjectId, k: KeyV) -> OpV {
    choose|o: OpV| is_winner(o, s, t, k)
}

/// The resolved value of the slot `(t, k)`: the winner's scalar or created
/// child object, or nothing if the slot was never written or the winner is a
/// deletion.
pub open spec fn resolved(s: Seq<ChangeV>, t: ObjectId, k: KeyV) -> Option<ValueV> {
    if has_winner(s, t, k) {
        let w = winner(s, t, k);
        match w.action {
            OpActionV::Put(sc) => Some(ValueV::Scalar(sc)),
            OpActionV::MakeMap => Some(ValueV::Object(ObjectId::Obj { actor: w.actor, counter: w.counter })),
            OpActionV::MakeList => Some(ValueV::Object(ObjectId::Obj { actor: w.actor, counter: w.counter })),
            OpActionV::Delete => None,
        }
    } else {
        None
    }
}

/// Whether the container `t` has been created by some applied operation (the
/// root always exists).
pub open spec fn obj_created(s: Seq<ChangeV>, t: ObjectId) -> bool {
    ||| t == ObjectId::Root
    ||| exists|o: OpV| #[trigger] op_in(s, o) && (o.action == OpActionV::MakeMap || o.action
        == OpActionV::MakeList) && t == (ObjectId::Obj { actor: o.actor, counter: o.counter })
}

/// A slot has at most one winner.
pub proof fn lemma_winner_unique(s: Seq<ChangeV>, t: ObjectId, k: KeyV, o1: OpV, o2: OpV)
    requires
        is_winner(o1, s, t, k),
        is_winner(o2, s, t, k),
    ensures
        o1 == o2,
{
    if o1 != o2 {
        assert(beats(o1, o2) && beats(o2, o1));
    }
}

/// Sequences holding the same changes hold the same operations.
pub proof fn lemma_op_in_equiv(s1: Seq<ChangeV>, s2: Seq<ChangeV>)
    requires
        forall|x: ChangeV| s1.contains(x) <==> s2.contains(x),
    ensures
        forall|o: OpV| #[trigger] op_in(s1, o) <==> #[trigger] op_in(s2, o),
{
    assert forall|o: OpV| op_in(s1, o) implies op_in(s2, o) by {
        let i = choose|i: int| 0 <= i < s1.len() && s1[i].ops.contains(o);
        assert(s1.contains(s1[i]));
        assert(s2.contains(s1[i]));
        let j = choose|j: int| 0 <= j < s2.len() && s2[j] == s1[i];
        assert(s2[j].ops.contains(o));
    }
    assert forall|o: OpV| op_in(s2, o) implies op_in(s1, o) by {
        let i = choose|i: int| 0 <= i < s2.len() && s2[i].ops.contains(o);
        assert(s2.contains(s2[i]));
        assert(s1.contains(s2[i]));
        let j = choose|j: int| 0 <= j < s1.len() && s1[j] == s2[i];
        assert(s1[j].ops.contains(o));
    }
}

/// Confluence of reads: two histories holding the same set of changes
/// resolve every slot to the same value, and agree on which containers
/// exist.
pub proof fn lemma_resolved_equiv(s1: Seq<ChangeV>, s2: Seq<ChangeV>, t: ObjectId, k: KeyV)
    requires
        forall|x: ChangeV| s1.contains(x) <==> s2.contains(x),
    ensures
        has_winner(s1, t, k) == has_winner(s2, t, k),
        has_winner(s1, t, k) ==> winner(s1, t, k) == winner(s2, t, k),
        resolved(s1, t, k) == resolved(s2, t, k),
        obj_created(s1, t) == obj_created(s2, t),
{
    lemma_op_in_equiv(s1, s2);
    if has_winner(s1, t, k) {
        let w1 = winner(s1, t, k);
        assert(is_winner(w1, s1, t, k));
        assert(op_in(s2, w1));
        assert forall|p: OpV| #[trigger] op_in(s2, p) && writes_key(p, t, k) && p != w1 implies beats(
            w1,
            p,
        ) by {
            assert(op_in(s1, p));
        }
        assert(is_winner(w1, s2, t, k));
        let w2 = winner(s2, t, k);
        assert(is_winner(w2, s2, t, k));
        lemma_winner_unique(s2, t, k, w1, w2);
    } else if has_winner(s2, t, k) {
        let w2 = winner(s2, t, k);
        assert(is_winner(w2, s2, t, k));
        assert(op_in(s1, w2));
        assert forall|p: OpV| #[trigger] op_in(s1, p) && writes_key(p, t, k) && p != w2 implies beats(
            w2,
            p,
        ) by {
            assert(op_in(s2, p));
        }
        assert(is_winner(w2, s1, t, k));
        assert(has_winner(s1, t, k));
    }
    if obj_created(s1, t) && t != ObjectId::Root {
        let o = choose|o: OpV|
            #[trigger] op_in(s1, o) && (o.action == OpActionV::MakeMap || o.action
                == OpActionV::MakeList) && t == (ObjectId::Obj { actor: o.actor, counter: o.counter });
        assert(op_in(s2, o));
        assert(obj_created(s2, t));
    }
    if obj_created(s2, t) && t != ObjectId::Root {
        let o = choose|o: OpV|
            #[trigger] op_in(s2, o) && (o.action == OpActionV::MakeMap || o.action
                == OpActionV::MakeList) && t == (ObjectId::Obj { actor: o.actor, counter: o.counter });
        assert(op_in(s1, o));
        assert(obj_created(s1, t));
    }
}

// ---------------------------------------------------------------------------
// Enumerating a container
// ---------------------------------------------------------------------------

/// One resolved entry of a container: a key together with its resolved value.
#[derive(Debug)]
pub struct Entry {
    pub key: Key,
    pub value: Value,
}

/// View of an entry.
#[verifier::ext_equal]
pub struct EntryV {
    pub key: KeyV,
    pub value: ValueV,
}

impl View for Entry {
    type V = EntryV;

    open spec fn view(&self) -> EntryV {
        EntryV { key: self.key@, value: self.value@ }
    }
}

/// The views of a sequence of entries.
pub open spec fn entry_views(s: Seq<Entry>) -> Seq<EntryV> {
    Seq::new(s.len(), |i: int| s[i]@)
}

/// `e` is a live entry of container `t`: its key resolves to its value (a
/// deletion winner resolves to nothing, so deleted keys yield no entry).
pub open spec fn entry_at(s: Seq<ChangeV>, t: ObjectId, e: EntryV) -> bool {
    resolved(s, t, e.key) == Some(e.value)
}

/// The entries are strictly sorted by key.
pub open spec fn strict_sorted(es: Seq<EntryV>) -> bool {
    forall|i: int, j: int| 0 <= i < j < es.len() ==> key_lt(#[trigger] es[i].key, #[trigger] es[j].key)
}

/// `es` is the canonical enumeration of container `t`: strictly sorted by
/// key, containing exactly the live entries.
pub open spec fn canon_entries(s: Seq<ChangeV>, t: ObjectId, es: Seq<EntryV>) -> bool {
    &&& strict_sorted(es)
    &&& forall|e: EntryV| #[trigger] es.contains(e) <==> entry_at(s, t, e)
}

/// The canonical enumeration of container `t` (meaningful whenever one
/// exists; it is then unique).
pub open spec fn map_range_spec(s: Seq<ChangeV>, t: ObjectId) -> Seq<EntryV> {
    choose|es: Seq<EntryV>| canon_entries(s, t, es)
}

/// Two strictly sorted sequences with the same members are equal.
pub proof fn lemma_sorted_unique(s1: Seq<EntryV>, s2: Seq<EntryV>)
    requires
        strict_sorted(s1),
        strict_sorted(s2),
        forall|e: EntryV| s1.contains(e) <==> s2.contains(e),
    ensures
        s1 == s2,
    decreases s1.len(),
{
    if s1.len() == 0 {
        if s2.len() > 0 {
            assert(s2.contains(s2[0]));
            assert(s1.contains(s2[0]));
        }
        assert(s1 =~= s2);
    } else {
        assert(s1.contains(s1[0]));
        assert(s2.contains(s1[0]));
        let j = choose|j: int| 0 <= j < s2.len() && s2[j] == s1[0];
        if j != 0 {
            assert(s2.contains(s2[0]));
            assert(s1.contains(s2[0]));
            let i = choose|i: int| 0 <= i < s1.len() && s1[i] == s2[0];
            if i == 0 {
                assert(key_lt(s2[0].key, s2[j].key));
                lemma_key_irrefl(s1[0].key);
            } else {
                assert(key_lt(s1[0].key, s1[i].key));
                assert(key_lt(s2[0].key, s2[j].key));
                lemma_key_trans(s1[0].key, s2[0].key, s1[0].key);
                lemma_key_irrefl(s1[0].key);
            }
            assert(false);
        }
        let t1 = s1.skip(1);
        let t2 = s2.skip(1);
        assert forall|e: EntryV| t1.contains(e) implies t2.contains(e) by {
            let k = choose|k: int| 0 <= k < t1.len() && t1[k] == e;
            assert(s1[k + 1] == e);
            assert(s1.contains(e));
            assert(s2.contains(e));
            let m = choose|m: int| 0 <= m < s2.len() && s2[m] == e;
            if m == 0 {
                // e would equal s2[0] == s1[0], yet key_lt(s1[0].key, e.key).
                assert(key_lt(s1[0].key, s1[k + 1].key));
                lemma_key_irrefl(s1[0].key);
            }
            assert(t2[m - 1] == e);
            assert(t2.contains(e));
        }
        assert forall|e: EntryV| t2.contains(e) implies t1.contains(e) by {
            let k = choose|k: int| 0 <= k < t2.len() && t2[k] == e;
            assert(s2[k + 1] == e);
            assert(s2.contains(e));
            assert(s1.contains(e));
            let m = choose|m: int| 0 <= m < s1.len() && s1[m] == e;
            if m == 0 {
                assert(key_lt(s2[0].key, s2[k + 1].key));
                lemma_key_irrefl(s2[0].key);
            }
            assert(t1[m - 1] == e);
            assert(t1.contains(e));
        }
        assert(strict_sorted(t1)) by {
            assert(forall|i: int, j: int|
                0 <= i < j < t1.len() ==> key_lt(#[trigger] t1[i].key, #[trigger] t1[j].key))
                by {
                assert(forall|i: int, j: int|
                    0 <= i < j < t1.len() ==> t1[i] == s1[i + 1] && t1[j] == s1[j + 1]);
            }
        }
        assert(strict_sorted(t2)) by {
            assert(forall|i: int, j: int|
                0 <= i < j < t2.len() ==> t2[i] == s2[i + 1] && t2[j] == s2[j + 1]);
        }
        lemma_sorted_unique(t1, t2);
        assert(s1 =~= s2) by {
            assert(forall|i: int| 1 <= i < s1.len() ==> s1[i] == t1[i - 1] && s2[i] == t2[i - 1]);
        }
    }
}

/// The canonical enumerations of histories holding the same changes are
/// equal, provided either exists.
pub proof fn lemma_map_range_equiv(
    s1: Seq<ChangeV>,
    s2: Seq<ChangeV>,
    t: ObjectId,
    es1: Seq<EntryV>,
    es2: Seq<EntryV>,
)
    requires
        forall|x: ChangeV| s1.contains(x) <==> s2.contains(x),
        canon_entries(s1, t, es1),
        canon_entries(s2, t, es2),
    ensures
        es1 == es2,
{
    assert forall|e: EntryV| es1.contains(e) <==> es2.contains(e) by {
        lemma_resolved_equiv(s1, s2, t, e.key);
    }
    lemma_sorted_unique(es1, es2);
}

} // verus!
