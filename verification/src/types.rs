//! The operation / change model: the atomic, content-determined unit of
//! mutation and its causal metadata, together with the mathematical views
//! that the contracts of the whole crate are stated over.

use vstd::prelude::*;

verus! {

/// Identity of a change: the issuing actor paired with the logical counter of
/// its first operation.  `(actor, counter)` pairs never repeat within a
/// document's lifetime, so the pair identifies a change the way a content
/// hash would, and deduplication goes by it.
#[derive(Clone, Copy, PartialEq, Eq, Structural, Debug)]
pub struct ChangeId {
    pub actor: u64,
    pub counter: u64,
}

/// Identity of a container (map or list).  The root map is a well-known id;
/// every other container is identified by the `(actor, counter)` of the
/// operation that created it.
#[derive(Clone, Copy, PartialEq, Eq, Structural, Debug)]
pub enum ObjectId {
    Root,
    Obj { actor: u64, counter: u64 },
}

/// The kind of container a creation operation makes.
#[derive(Clone, Copy, PartialEq, Eq, Structural, Debug)]
pub enum ObjKind {
    MapObj,
    ListObj,
}

/// A key within a container: either a plain string field, or a dedicated
/// ordering key combining a logical counter and an actor id.  Logical keys
/// give entries (such as chat messages) an identity that does not rely on
/// wall-clock uniqueness.
#[derive(Debug)]
pub enum Key {
    Logical { counter: u64, actor: u64 },
    Field(String),
}

/// A scalar register value: an explicit tagged union checked exhaustively at
/// read time.
#[derive(Debug)]
pub enum Scalar {
    Str(String),
    Uint(u64),
    Bool(bool),
}

/// A resolved value under a key: a scalar, or a reference to a child
/// container.
#[derive(Debug)]
pub enum Value {
    Scalar(Scalar),
    Object(ObjectId),
}

/// What an operation does to its `(target, key)` slot: a register write,
/// the creation of a child container, or a deletion.
#[derive(Debug)]
pub enum OpAction {
    Put(Scalar),
    MakeMap,
    MakeList,
    Delete,
}

/// One atomic mutation.  `(actor, counter)` is globally unique and increases
/// monotonically per actor: the Lamport-style logical clock that conflict
/// resolution orders concurrent writes by.
#[derive(Debug)]
pub struct Operation {
    pub actor: u64,
    pub counter: u64,
    pub target: ObjectId,
    pub key: Key,
    pub action: OpAction,
}

/// An ordered batch of operations produced by one local commit.  The
/// operations carry counters `start, start + 1, ...`; `deps` names the
/// immediate causal predecessors.  A change is immutable once created and
/// propagates by value across replicas.
#[derive(Debug)]
pub struct Change {
    pub actor: u64,
    pub start: u64,
    pub deps: Vec<ChangeId>,
    pub ops: Vec<Operation>,
}

/// Errors surfaced by the document store.
///
/// Concurrent writes to the same key are *not* an error: they are resolved
/// deterministically.  A change whose dependencies are missing is *not* an
/// error either: it is buffered until they arrive.
#[derive(Clone, Copy, PartialEq, Eq, Structural, Debug)]
pub enum ApplyError {
    /// A write or create targets a container id absent from the document.
    ObjectNotFound,
    /// A change is structurally ill-formed, or its counters collide with
    /// operations already present.
    MalformedOperation,
    /// The logical counter space of this replica is exhausted.
    CounterExhausted,
}

// ---------------------------------------------------------------------------
// Mathematical views
// ---------------------------------------------------------------------------

/// View of a key.
#[verifier::ext_equal]
pub enum KeyV {
    Logical { counter: u64, actor: u64 },
    Field(Seq<char>),
}

/// View of a scalar.
#[verifier::ext_equal]
pub enum ScalarV {
    Str(Seq<char>),
    Uint(u64),
    Bool(bool),
}

/// View of a resolved value.
#[verifier::ext_equal]
pub enum ValueV {
    Scalar(ScalarV),
    Object(ObjectId),
}

/// View of an operation's action.
#[verifier::ext_equal]
pub enum OpActionV {
    Put(ScalarV),
    MakeMap,
    MakeList,
    Delete,
}

/// View of an operation.
#[verifier::ext_equal]
pub struct OpV {
    pub actor: u64,
    pub counter: u64,
    pub target: ObjectId,
    pub key: KeyV,
    pub action: OpActionV,
}

/// The views of a sequence of operations.
pub open spec fn op_views(s: Seq<Operation>) -> Seq<OpV> {
    Seq::new(s.len(), |i: int| s[i]@)
}

/// View of a change.
#[verifier::ext_equal]
pub struct ChangeV {
    pub actor: u64,
    pub start: u64,
    pub deps: Seq<ChangeId>,
    pub ops: Seq<OpV>,
}

impl View for Key {
    type V = KeyV;

    open spec fn view(&self) -> KeyV {
        match self {
            Key::Logical { counter, actor } => KeyV::Logical { counter: *counter, actor: *actor },
            Key::Field(s) => KeyV::Field(s@),
        }
    }
}

impl View for Scalar {
    type V = ScalarV;

    open spec fn view(&self) -> ScalarV {
        match self {
            Scalar::Str(s) => ScalarV::Str(s@),
            Scalar::Uint(n) => ScalarV::Uint(*n),
            Scalar::Bool(b) => ScalarV::Bool(*b),
        }
    }
}

impl View for Value {
    type V = ValueV;

    open spec fn view(&self) -> ValueV {
        match self {
            Value::Scalar(s) => ValueV::Scalar(s@),
            Value::Object(o) => ValueV::Object(*o),
        }
    }
}

impl View for OpAction {
    type V = OpActionV;

    open spec fn view(&self) -> OpActionV {
        match self {
            OpAction::Put(s) => OpActionV::Put(s@),
            OpAction::MakeMap => OpActionV::MakeMap,
            OpAction::MakeList => OpActionV::MakeList,
            OpAction::Delete => OpActionV::Delete,
        }
    }
}

impl View for Operation {
    type V = OpV;

    open spec fn view(&self) -> OpV {
        OpV {
            actor: self.actor,
            counter: self.counter,
            target: self.target,
            key: self.key@,
            action: self.action@,
        }
    }
}

impl View for Change {
    type V = ChangeV;

    open spec fn view(&self) -> ChangeV {
        ChangeV {
            actor: self.actor,
            start: self.start,
            deps: self.deps@,
            ops: op_views(self.ops@),
        }
    }
}

/// The identity of a change: its actor and the counter of its first
/// operation.
pub open spec fn cid_v(c: ChangeV) -> ChangeId {
    ChangeId { actor: c.actor, counter: c.start }
}

/// Structural well-formedness of a change: at least one operation, counters
/// consecutive from `start` without overflowing, every operation issued by
/// the change's own actor, and no dependency on itself.
pub open spec fn wf_change(c: ChangeV) -> bool {
    &&& c.ops.len() >= 1
    &&& c.start + c.ops.len() <= u64::MAX
    &&& forall|i: int|
        0 <= i < c.ops.len() ==> (#[trigger] c.ops[i]).actor == c.actor && c.ops[i].counter
            == c.start + i
    &&& !c.deps.contains(cid_v(c))
}

/// Two changes are range-compatible when, if issued by the same actor, their
/// operation counter ranges do not overlap (or they are the same change).
pub open spec fn ranges_ok(c1: ChangeV, c2: ChangeV) -> bool {
    c1.actor == c2.actor ==> (c1 == c2 || c1.start + c1.ops.len() <= c2.start || c2.start
        + c2.ops.len() <= c1.start)
}

/// Compatibility of two changes drawn from honest histories: equal ids imply
/// equal content (ids stand in for content hashes), and counter ranges of one
/// actor never overlap.
pub open spec fn compat(c1: ChangeV, c2: ChangeV) -> bool {
    &&& cid_v(c1) == cid_v(c2) ==> c1 == c2
    &&& ranges_ok(c1, c2)
}

/// Whether some change in `s` has identity `h`.
pub open spec fn has_cid(s: Seq<ChangeV>, h: ChangeId) -> bool {
    exists|i: int| 0 <= i < s.len() && cid_v(#[trigger] s[i]) == h
}

/// Whether every dependency of `c` is present in `s`.
pub open spec fn deps_in(c: ChangeV, s: Seq<ChangeV>) -> bool {
    forall|j: int| 0 <= j < c.deps.len() ==> has_cid(s, #[trigger] c.deps[j])
}

/// `h` is a frontier element ("head") of the applied sequence `s`: it names
/// an applied change that no applied change depends on.
pub open spec fn is_head(s: Seq<ChangeV>, h: ChangeId) -> bool {
    has_cid(s, h) && forall|i: int| 0 <= i < s.len() ==> !(#[trigger] s[i]).deps.contains(h)
}

/// All change ids in `s` are pairwise distinct.
pub open spec fn distinct_cids(s: Seq<ChangeV>) -> bool {
    forall|i: int, j: int|
        0 <= i < s.len() && 0 <= j < s.len() && i != j ==> cid_v(#[trigger] s[i]) != cid_v(
            #[trigger] s[j],
        )
}

/// A change present in a prefix is present in the whole sequence.
pub proof fn lemma_has_cid_take(s: Seq<ChangeV>, i: int, h: ChangeId)
    requires
        0 <= i <= s.len(),
        has_cid(s.take(i), h),
    ensures
        has_cid(s, h),
{
    let j = choose|j: int| 0 <= j < s.take(i).len() && cid_v(s.take(i)[j]) == h;
    assert(s.take(i)[j] == s[j]);
}

// ---------------------------------------------------------------------------
// Explicit duplication of change values
// ---------------------------------------------------------------------------
//
// Changes propagate by value across replicas.  These functions produce a
// structurally identical copy, with the copy's view proved equal to the
// original's.

/// Copy a key.
pub fn dup_key(k: &Key) -> (r: Key)
    ensures
        r@ == k@,
{
    match k {
        Key::Logical { counter, actor } => Key::Logical { counter: *counter, actor: *actor },
        Key::Field(s) => Key::Field(s.clone()),
    }
}

/// Copy a scalar.
pub fn dup_scalar(s: &Scalar) -> (r: Scalar)
    ensures
        r@ == s@,
{
    match s {
        Scalar::Str(t) => Scalar::Str(t.clone()),
        Scalar::Uint(n) => Scalar::Uint(*n),
        Scalar::Bool(b) => Scalar::Bool(*b),
    }
}

/// Copy an action.
pub fn dup_action(a: &OpAction) -> (r: OpAction)
    ensures
        r@ == a@,
{
    match a {
        OpAction::Put(s) => OpAction::Put(dup_scalar(s)),
        OpAction::MakeMap => OpAction::MakeMap,
        OpAction::MakeList => OpAction::MakeList,
        OpAction::Delete => OpAction::Delete,
    }
}

/// Copy an operation.
pub fn dup_op(o: &Operation) -> (r: Operation)
    ensures
        r@ == o@,
{
    Operation {
        actor: o.actor,
        counter: o.counter,
        target: o.target,
        key: dup_key(&o.key),
        action: dup_action(&o.action),
    }
}

/// Copy a change.
pub fn dup_change(c: &Change) -> (r: Change)
    ensures
        r@ == c@,
{
    let mut deps: Vec<ChangeId> = Vec::new();
    let mut i: usize = 0;
    while i < c.deps.len()
        invariant
            i <= c.deps.len(),
            deps@ == c.deps@.take(i as int),
        decreases c.deps.len() - i,
    {
        deps.push(c.deps[i]);
        assert(c.deps@.take(i + 1 as int) =~= c.deps@.take(i as int).push(c.deps@[i as int]));
        i = i + 1;
    }
    assert(deps@ =~= c.deps@);
    let mut ops: Vec<Operation> = Vec::new();
    let mut j: usize = 0;
    while j < c.ops.len()
        invariant
            j <= c.ops.len(),
            ops.len() == j,
            op_views(ops@) == op_views(c.ops@).take(j as int),
        decreases c.ops.len() - j,
    {
        let o = dup_op(&c.ops[j]);
        ops.push(o);
        proof {
            assert(ops@.len() == j + 1);
            assert forall|k: int| 0 <= k < j + 1 implies op_views(ops@)[k] == op_views(
                c.ops@,
            ).take(j + 1 as int)[k] by {
                if k < j {
                    assert(op_views(ops@)[k] == ops@[k]@);
                }
            }
            assert(op_views(ops@) =~= op_views(c.ops@).take(j + 1 as int));
        }
        j = j + 1;
    }
    assert(op_views(ops@) =~= op_views(c.ops@));
    let r = Change { actor: c.actor, start: c.start, deps, ops };
    assert(r@ =~= c@);
    r
}

} // verus!
