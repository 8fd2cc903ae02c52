//! The chat mapping: each message is one nested map under the root,
//! created by a single local commit, keyed by a logical ordering key so
//! that identity never relies on wall-clock uniqueness.

use vstd::prelude::*;
use crate::doc::{
    commit_change_v, local_commit_rel, opt_value_view, DocV, Document,
};
use crate::resolve::{entry_views, map_range_spec, resolved, EntryV};
use crate::types::{
    op_views, ApplyError, Change, ChangeV, Key, KeyV, ObjectId, OpAction, OpActionV, Operation,
    OpV, Scalar, ScalarV, Value, ValueV,
};

verus! {

/// One chat message as read back from a document.
#[derive(Debug)]
pub struct ChatMessage {
    pub user_id: String,
    pub content: String,
    pub timestamp: u64,
}

/// View of a chat message.
#[verifier::ext_equal]
pub struct MsgV {
    pub user_id: Seq<char>,
    pub content: Seq<char>,
    pub timestamp: u64,
}

impl View for ChatMessage {
    type V = MsgV;

    open spec fn view(&self) -> MsgV {
        MsgV { user_id: self.user_id@, content: self.content@, timestamp: self.timestamp }
    }
}

/// The views of a sequence of messages.
pub open spec fn msg_views(s: Seq<ChatMessage>) -> Seq<MsgV> {
    Seq::new(s.len(), |i: int| s[i]@)
}

/// The field key holding a message's author.
pub fn user_field() -> (k: Key)
    ensures
        k@ == KeyV::Field("user_id"@),
{
    Key::Field("user_id".to_owned())
}

/// The field key holding a message's text.
pub fn content_field() -> (k: Key)
    ensures
        k@ == KeyV::Field("content"@),
{
    Key::Field("content".to_owned())
}

/// The field key holding a message's display timestamp.
pub fn timestamp_field() -> (k: Key)
    ensures
        k@ == KeyV::Field("timestamp"@),
{
    Key::Field("timestamp".to_owned())
}

/// The operations one message commit produces: a new map under the root at
/// the message's logical key, then its three fields.
pub open spec fn msg_ops_v(pre: DocV, user: Seq<char>, content: Seq<char>, ts: u64) -> Seq<OpV> {
    let start = (pre.max_counter + 1) as u64;
    let obj = ObjectId::Obj { actor: pre.actor, counter: start };
    seq![
        OpV {
            actor: pre.actor,
            counter: start,
            target: ObjectId::Root,
            key: KeyV::Logical { counter: start, actor: pre.actor },
            action: OpActionV::MakeMap,
        },
        OpV {
            actor: pre.actor,
            counter: (start + 1) as u64,
            target: obj,
            key: KeyV::Field("user_id"@),
            action: OpActionV::Put(ScalarV::Str(user)),
        },
        OpV {
            actor: pre.actor,
            counter: (start + 2) as u64,
            target: obj,
            key: KeyV::Field("content"@),
            action: OpActionV::Put(ScalarV::Str(content)),
        },
        OpV {
            actor: pre.actor,
            counter: (start + 3) as u64,
            target: obj,
            key: KeyV::Field("timestamp"@),
            action: OpActionV::Put(ScalarV::Uint(ts)),
        },
    ]
}

/// The change one message commit produces.
pub open spec fn msg_change_v(pre: DocV, user: Seq<char>, content: Seq<char>, ts: u64) -> ChangeV {
    commit_change_v(pre, msg_ops_v(pre, user, content, ts))
}

/// Commit a chat message to the local document and return the produced
/// change, for the caller to hand to a transport.
///
/// The timestamp is a display value supplied by the caller; message identity
/// and ordering ties rest on the logical key, never on the clock.  Fails
/// only when the replica's logical counter space is exhausted.
pub fn add_message(doc: &mut Document, user_id: &str, content: &str, timestamp: u64) -> (r: Result<
    Change,
    ApplyError,
>)
    requires
        old(doc)@.wf(),
    ensures
        final(doc)@.wf(),
        match r {
            Ok(c) => {
                &&& old(doc)@.max_counter + 5 <= u64::MAX
                &&& c@ == msg_change_v(old(doc)@, user_id@, content@, timestamp)
                &&& local_commit_rel(
                    old(doc)@,
                    msg_ops_v(old(doc)@, user_id@, content@, timestamp),
                    final(doc)@,
                )
            },
            Err(e) => {
                &&& e == ApplyError::CounterExhausted
                &&& old(doc)@.max_counter + 5 > u64::MAX
                &&& final(doc)@ == old(doc)@
            },
        },
{
    let before = doc.clock();
    if before > u64::MAX - 5 {
        return Err(ApplyError::CounterExhausted);
    }
    let actor = doc.actor_id();
    let start = before + 1;
    let obj = ObjectId::Obj { actor, counter: start };
    let mut ops: Vec<Operation> = Vec::new();
    ops.push(
        Operation {
            actor,
            counter: start,
            target: ObjectId::Root,
            key: Key::Logical { counter: start, actor },
            action: OpAction::MakeMap,
        },
    );
    ops.push(
        Operation {
            actor,
            counter: start + 1,
            target: obj,
            key: user_field(),
            action: OpAction::Put(Scalar::Str(user_id.to_owned())),
        },
    );
    ops.push(
        Operation {
            actor,
            counter: start + 2,
            target: obj,
            key: content_field(),
            action: OpAction::Put(Scalar::Str(content.to_owned())),
        },
    );
    ops.push(
        Operation {
            actor,
            counter: start + 3,
            target: obj,
            key: timestamp_field(),
            action: OpAction::Put(Scalar::Uint(timestamp)),
        },
    );
    proof {
        assert(op_views(ops@) =~= msg_ops_v(doc@, user_id@, content@, timestamp));
    }
    let c = doc.commit_ops(ops);
    Ok(c)
}

/// The message a root entry yields: the entry must reference a child
/// object whose three fields resolve to the expected kinds; anything
/// incomplete or of the wrong kind yields nothing (and is skipped, not an
/// error).
pub open spec fn entry_msg(s: Seq<ChangeV>, e: EntryV) -> Option<MsgV> {
    match e.value {
        ValueV::Object(o) => {
            let u = resolved(s, o, KeyV::Field("user_id"@));
            let c = resolved(s, o, KeyV::Field("content"@));
            let t = resolved(s, o, KeyV::Field("timestamp"@));
            match (u, c, t) {
                (
                    Some(ValueV::Scalar(ScalarV::Str(uu))),
                    Some(ValueV::Scalar(ScalarV::Str(cc))),
                    Some(ValueV::Scalar(ScalarV::Uint(tt))),
                ) => Some(MsgV { user_id: uu, content: cc, timestamp: tt }),
                _ => None,
            }
        },
        _ => None,
    }
}

/// The messages yielded by a sequence of root entries, in entry order.
pub open spec fn collect_msgs(s: Seq<ChangeV>, es: Seq<EntryV>) -> Seq<MsgV>
    decreases es.len(),
{
    if es.len() == 0 {
        Seq::empty()
    } else {
        let prefix = collect_msgs(s, es.drop_last());
        match entry_msg(s, es.last()) {
            Some(m) => prefix.push(m),
            None => prefix,
        }
    }
}

/// Where a stable timestamp sort places `m` in `s`: after every element
/// whose timestamp does not exceed `m`'s, so equal timestamps keep their
/// relative (key) order.
pub open spec fn ts_insert_pos(s: Seq<MsgV>, m: MsgV) -> int
    decreases s.len(),
{
    if s.len() == 0 {
        0
    } else if s[0].timestamp > m.timestamp {
        0
    } else {
        1 + ts_insert_pos(s.skip(1), m)
    }
}

/// Stable insertion of `m` into `s` by timestamp.
pub open spec fn ts_insert(s: Seq<MsgV>, m: MsgV) -> Seq<MsgV> {
    s.insert(ts_insert_pos(s, m), m)
}

/// Stable sort by ascending timestamp.
pub open spec fn sort_by_ts(s: Seq<MsgV>) -> Seq<MsgV>
    decreases s.len(),
{
    if s.len() == 0 {
        s
    } else {
        ts_insert(sort_by_ts(s.drop_last()), s.last())
    }
}

/// The messages of a document: the complete entries of the root container
/// in key order, stably sorted by timestamp.  A pure function of the set of
/// applied changes.
pub open spec fn messages_spec(s: Seq<ChangeV>) -> Seq<MsgV> {
    sort_by_ts(collect_msgs(s, map_range_spec(s, ObjectId::Root)))
}

/// Non-decreasing timestamps.
pub open spec fn sorted_ts(s: Seq<MsgV>) -> bool {
    forall|i: int, j: int| 0 <= i < j < s.len() ==> s[i].timestamp <= s[j].timestamp
}

/// The characterisation of the stable insertion point.
pub proof fn lemma_ts_pos(s: Seq<MsgV>, m: MsgV)
    ensures
        0 <= ts_insert_pos(s, m) <= s.len(),
        forall|k: int| 0 <= k < ts_insert_pos(s, m) ==> (#[trigger] s[k]).timestamp <= m.timestamp,
        ts_insert_pos(s, m) < s.len() ==> s[ts_insert_pos(s, m)].timestamp > m.timestamp,
    decreases s.len(),
{
    if s.len() == 0 {
    } else if s[0].timestamp > m.timestamp {
    } else {
        lemma_ts_pos(s.skip(1), m);
        let p = ts_insert_pos(s, m);
        assert forall|k: int| 0 <= k < p implies (#[trigger] s[k]).timestamp <= m.timestamp by {
            if k > 0 {
                assert(s.skip(1)[k - 1] == s[k]);
            }
        }
        if p < s.len() {
            assert(s.skip(1)[p - 1] == s[p]);
        }
    }
}

/// Any index satisfying the insertion-point characterisation is the
/// insertion point.
proof fn lemma_ts_pos_unique(s: Seq<MsgV>, m: MsgV, p: int)
    requires
        0 <= p <= s.len(),
        forall|k: int| 0 <= k < p ==> (#[trigger] s[k]).timestamp <= m.timestamp,
        p < s.len() ==> s[p].timestamp > m.timestamp,
    ensures
        p == ts_insert_pos(s, m),
    decreases s.len(),
{
    if s.len() == 0 {
    } else if s[0].timestamp > m.timestamp {
        assert(p == 0);
    } else {
        assert(p >= 1);
        lemma_ts_pos_unique(s.skip(1), m, p - 1);
        assert(forall|k: int| 0 <= k < p - 1 ==> s.skip(1)[k] == s[k + 1]);
        if p - 1 < s.skip(1).len() {
            assert(s.skip(1)[p - 1] == s[p]);
        }
    }
}

/// Stable insertion keeps timestamps sorted.
proof fn lemma_ts_insert_sorted(s: Seq<MsgV>, m: MsgV)
    requires
        sorted_ts(s),
    ensures
        sorted_ts(ts_insert(s, m)),
{
    lemma_ts_pos(s, m);
    let p = ts_insert_pos(s, m);
    let t = ts_insert(s, m);
    assert forall|i: int, j: int| 0 <= i < j < t.len() implies t[i].timestamp
        <= t[j].timestamp by {
        assert(t[i] == (if i < p {
            s[i]
        } else if i == p {
            m
        } else {
            s[i - 1]
        }));
        assert(t[j] == (if j < p {
            s[j]
        } else if j == p {
            m
        } else {
            s[j - 1]
        }));
        if i < p && j == p {
        } else if i == p && j > p {
            assert(s[p].timestamp > m.timestamp);
            assert(s[p].timestamp <= s[j - 1].timestamp);
        }
    }
}

/// The stable sort is sorted by timestamp.
pub proof fn lemma_sort_by_ts_sorted(s: Seq<MsgV>)
    ensures
        sorted_ts(sort_by_ts(s)),
    decreases s.len(),
{
    if s.len() > 0 {
        lemma_sort_by_ts_sorted(s.drop_last());
        lemma_ts_insert_sorted(sort_by_ts(s.drop_last()), s.last());
    }
}

/// Copy a message.
fn dup_msg(m: &ChatMessage) -> (r: ChatMessage)
    ensures
        r@ == m@,
{
    ChatMessage {
        user_id: m.user_id.clone(),
        content: m.content.clone(),
        timestamp: m.timestamp,
    }
}

/// The stable insertion point, computed.
fn ts_pos_exec(list: &Vec<ChatMessage>, m: &ChatMessage) -> (p: usize)
    ensures
        p as int == ts_insert_pos(msg_views(list@), m@),
{
    let ghost s = msg_views(list@);
    let mut pos: usize = 0;
    while pos < list.len()
        invariant
            pos <= list.len(),
            s == msg_views(list@),
            forall|k: int| 0 <= k < pos ==> (#[trigger] s[k]).timestamp <= m@.timestamp,
        decreases list.len() - pos,
    {
        proof {
            assert(s[pos as int] == list@[pos as int]@);
        }
        if list[pos].timestamp > m.timestamp {
            proof {
                lemma_ts_pos_unique(s, m@, pos as int);
            }
            return pos;
        }
        pos = pos + 1;
    }
    proof {
        lemma_ts_pos_unique(s, m@, pos as int);
    }
    pos
}

/// Read the chat history: every complete message entry of the root
/// container, sorted by ascending timestamp, with equal timestamps in key
/// order.  Entries missing a field, or holding one of an unexpected kind,
/// are skipped, never an error.
#[verifier::loop_isolation(false)]
pub fn get_messages(doc: &Document) -> (r: Vec<ChatMessage>)
    requires
        doc@.wf(),
    ensures
        msg_views(r@) == messages_spec(doc@.applied),
        sorted_ts(msg_views(r@)),
{
    let ghost s = doc@.applied;
    let entries = doc.map_range(ObjectId::Root);
    let ghost esv = entry_views(entries@);
    let mut collected: Vec<ChatMessage> = Vec::new();
    let mut i: usize = 0;
    while i < entries.len()
        invariant
            i <= entries.len(),
            msg_views(collected@) == collect_msgs(s, esv.take(i as int)),
        decreases entries.len() - i,
    {
        proof {
            assert(esv[i as int] == entries@[i as int]@);
            assert(esv.take(i + 1 as int).drop_last() =~= esv.take(i as int));
            assert(esv.take(i + 1 as int).last() == esv[i as int]);
        }
        let ghost prev = msg_views(collected@);
        let e = &entries[i];
        match &e.value {
            Value::Object(o) => {
                let u = doc.get(*o, &user_field());
                let c = doc.get(*o, &content_field());
                let t = doc.get(*o, &timestamp_field());
                match (u, c, t) {
                    (
                        Some(Value::Scalar(Scalar::Str(us))),
                        Some(Value::Scalar(Scalar::Str(cs))),
                        Some(Value::Scalar(Scalar::Uint(ts))),
                    ) => {
                        let msg = ChatMessage { user_id: us, content: cs, timestamp: ts };
                        proof {
                            assert(entry_msg(s, esv[i as int]) == Some(msg@));
                        }
                        collected.push(msg);
                        proof {
                            assert(msg_views(collected@) =~= collect_msgs(
                                s,
                                esv.take(i + 1 as int),
                            ));
                        }
                    },
                    _ => {
                        proof {
                            assert(entry_msg(s, esv[i as int]) is None);
                            assert(msg_views(collected@) =~= collect_msgs(
                                s,
                                esv.take(i + 1 as int),
                            ));
                        }
                    },
                }
            },
            _ => {
                proof {
                    assert(entry_msg(s, esv[i as int]) is None);
                    assert(msg_views(collected@) =~= collect_msgs(s, esv.take(i + 1 as int)));
                }
            },
        }
        i = i + 1;
    }
    proof {
        assert(esv.take(esv.len() as int) =~= esv);
    }
    let ghost base = msg_views(collected@);
    let mut out: Vec<ChatMessage> = Vec::new();
    let mut i2: usize = 0;
    while i2 < collected.len()
        invariant
            i2 <= collected.len(),
            base == msg_views(collected@),
            msg_views(out@) == sort_by_ts(base.take(i2 as int)),
        decreases collected.len() - i2,
    {
        proof {
            assert(base[i2 as int] == collected@[i2 as int]@);
            assert(base.take(i2 + 1 as int).drop_last() =~= base.take(i2 as int));
            assert(base.take(i2 + 1 as int).last() == base[i2 as int]);
        }
        let m = dup_msg(&collected[i2]);
        let pos = ts_pos_exec(&out, &m);
        let ghost prevout = msg_views(out@);
        proof {
            lemma_ts_pos(prevout, m@);
        }
        out.insert(pos, m);
        proof {
            assert(msg_views(out@) =~= prevout.insert(pos as int, m@));
            assert(msg_views(out@) =~= sort_by_ts(base.take(i2 + 1 as int)));
        }
        i2 = i2 + 1;
    }
    proof {
        assert(base.take(base.len() as int) =~= base);
        lemma_sort_by_ts_sorted(base);
    }
    out
}


/// The shape of every change that `add_message` commits: one new map under
/// the root at the change's own logical key, and three field writes into
/// that map.
pub open spec fn chat_change(c: ChangeV) -> bool {
    &&& crate::types::wf_change(c)
    &&& c.ops.len() == 4
    &&& c.ops[0].target == ObjectId::Root
    &&& c.ops[0].key == (KeyV::Logical { counter: c.start, actor: c.actor })
    &&& c.ops[0].action == OpActionV::MakeMap
    &&& forall|i: int|
        1 <= i < 4 ==> (#[trigger] c.ops[i]).target == (ObjectId::Obj {
            actor: c.actor,
            counter: c.start,
        })
}

/// What `add_message` commits has the chat shape.
pub proof fn lemma_msg_change_shape(pre: DocV, user: Seq<char>, content: Seq<char>, ts: u64)
    requires
        pre.max_counter + 5 <= u64::MAX,
        forall|j: int| 0 <= j < pre.heads.len() ==> (#[trigger] pre.heads[j]).counter <= pre.max_counter,
    ensures
        chat_change(msg_change_v(pre, user, content, ts)),
{
    let c = msg_change_v(pre, user, content, ts);
    assert(c.ops.len() == 4);
    assert forall|i: int| 0 <= i < c.ops.len() implies (#[trigger] c.ops[i]).actor == c.actor
        && c.ops[i].counter == c.start + i by {}
    if c.deps.contains(crate::types::cid_v(c)) {
        let j = choose|j: int| 0 <= j < c.deps.len() && c.deps[j] == crate::types::cid_v(c);
        assert(pre.heads[j].counter <= pre.max_counter);
    }
}
} // verus!
