use vstd::prelude::*;

use crate::assoc::{find_last, lemma_lookup_push, lemma_lookup_update, lookup};
use crate::init::Init;
use crate::message::{Body, Message};
use crate::node::Node;

verus! {

/// The payloads of the replicated-log protocol.
#[derive(Debug, Clone)]
pub enum KafkaPayload {
    Send { key: String, msg: usize },
    SendOk { offset: usize },
    /// For each log, the offset to read from.
    Poll { offsets: Vec<(String, usize)> },
    /// For each polled log, its `(offset, value)` entries from the offset asked for.
    PollOk { msgs: Vec<(String, Vec<(usize, usize)>)> },
    CommitOffsets { offsets: Vec<(String, usize)> },
    CommitOffsetsOk,
    ListCommittedOffsets { keys: Vec<String> },
    ListCommittedOffsetsOk { offsets: Vec<(String, usize)> },
}

/// One entry of a log.
#[derive(Debug, Clone, Copy, PartialEq, Eq)]
pub struct LogMessage {
    pub offset: usize,
    pub value: usize,
}

/// One log: its entries in order of offset, and the last offset it handed out.
#[derive(Debug, Clone)]
pub struct Log {
    pub latest: usize,
    pub messages: Vec<LogMessage>,
}

/// A single node holding append-only logs by key, and the offsets its clients committed.
pub struct KafkaNode {
    /// The message id of the next reply.
    pub id: usize,
    pub node_id: String,
    pub logs: Vec<(String, Log)>,
    pub committed: Vec<(String, usize)>,
}

/// The entries of log `k`, empty where there is no such log.
pub open spec fn log_of(logs: Seq<(String, Log)>, k: Seq<char>) -> Seq<LogMessage> {
    match lookup(logs, k) {
        Some(log) => log.messages@,
        None => Seq::empty(),
    }
}

/// The last offset log `k` handed out, 0 where there is no such log.
pub open spec fn latest_of(logs: Seq<(String, Log)>, k: Seq<char>) -> nat {
    match lookup(logs, k) {
        Some(log) => log.latest as nat,
        None => 0,
    }
}

/// The `(offset, value)` pairs of the entries of `log` whose offset is at least `from`.
pub open spec fn poll_of(log: Seq<LogMessage>, from: usize) -> Seq<(usize, usize)>
    decreases log.len(),
{
    if log.len() == 0 {
        Seq::empty()
    } else if log.last().offset >= from {
        poll_of(log.drop_last(), from).push((log.last().offset, log.last().value))
    } else {
        poll_of(log.drop_last(), from)
    }
}

/// The offset committed for log `k`, 0 where none was.
pub open spec fn committed_of(committed: Seq<(String, usize)>, k: Seq<char>) -> usize {
    match lookup(committed, k) {
        Some(o) => o,
        None => 0,
    }
}

/// Whether the entries of `log` are in increasing order of offset, none past `latest`.
pub open spec fn log_ordered(log: Log) -> bool {
    &&& forall|i: int, j: int|
        0 <= i < j < log.messages.len() ==> (#[trigger] log.messages@[i]).offset < (
        #[trigger] log.messages@[j]).offset
    &&& forall|i: int| 0 <= i < log.messages.len() ==> (#[trigger] log.messages@[i]).offset <= log.latest
}

/// The `(offset, value)` pairs of the entries of `log` from offset `from` on.
fn poll_log(log: &Vec<LogMessage>, from: usize) -> (r: Vec<(usize, usize)>)
    ensures
        r@ == poll_of(log@, from),
{
    let mut r: Vec<(usize, usize)> = Vec::new();
    let mut i: usize = 0;
    while i < log.len()
        invariant
            i <= log.len(),
            r@ == poll_of(log@.take(i as int), from),
        decreases log.len() - i,
    {
        assert(log@.take(i + 1).drop_last() =~= log@.take(i as int));
        let m = log[i];
        if m.offset >= from {
            r.push((m.offset, m.value));
        }
        i += 1;
    }
    assert(log@.take(i as int) =~= log@);
    r
}

/// Whether every log of `logs` is in order of offset.
pub open spec fn logs_ordered(logs: Seq<(String, Log)>) -> bool {
    forall|i: int| 0 <= i < logs.len() ==> log_ordered(#[trigger] logs[i].1)
}

/// Appends `value` to log `key` under the offset after the last one it handed out, creating
/// the log where there is none. Where the log's offsets are used up nothing changes.
fn append(logs: &mut Vec<(String, Log)>, key: String, value: usize) -> (r: Option<usize>)
    requires
        logs_ordered(old(logs)@),
    ensures
        logs_ordered(final(logs)@),
        match r {
            Some(offset) => {
                &&& offset == latest_of(old(logs)@, key@) + 1
                &&& latest_of(final(logs)@, key@) == offset
                &&& log_of(final(logs)@, key@) == log_of(old(logs)@, key@).push(
                    LogMessage { offset, value },
                )
                &&& forall|k: Seq<char>| k != key@ ==> #[trigger] lookup(final(logs)@, k) == lookup(old(logs)@, k)
            },
            None => latest_of(old(logs)@, key@) == usize::MAX && *final(logs) == *old(logs),
        },
{
    let ghost before = logs@;
    match find_last(logs, &key) {
        Some(j) => {
            let latest = logs[j].1.latest;
            if latest == usize::MAX {
                return None;
            }
            let offset = latest + 1;
            let message = LogMessage { offset, value };
            logs[j].1.latest = offset;
            logs[j].1.messages.push(message);
            proof {
                let log = Log { latest: offset, messages: logs@[j as int].1.messages };
                assert(logs@ =~= before.update(j as int, (before[j as int].0, log)));
                lemma_lookup_update(before, j as int, log);
                assert forall|i: int| 0 <= i < logs@.len() implies log_ordered(#[trigger] logs@[i].1) by {
                    if i != j {
                        assert(logs@[i] == before[i]);
                    }
                }
            }
            Some(offset)
        },
        None => {
            let mut messages: Vec<LogMessage> = Vec::new();
            messages.push(LogMessage { offset: 1, value });
            let entry = (key, Log { latest: 1, messages });
            proof {
                lemma_lookup_push(before, entry);
                assert(entry.1.messages@ =~= Seq::<LogMessage>::empty().push(LogMessage { offset: 1, value }));
            }
            logs.push(entry);
            proof {
                assert forall|i: int| 0 <= i < logs@.len() implies log_ordered(#[trigger] logs@[i].1) by {
                    if i < before.len() {
                        assert(logs@[i] == before[i]);
                    }
                }
            }
            Some(1)
        },
    }
}

/// Records each committed offset of `offsets`, a later one for a key replacing an earlier one.
fn commit(committed: &mut Vec<(String, usize)>, offsets: &Vec<(String, usize)>)
    ensures
        forall|k: Seq<char>| #[trigger] lookup(final(committed)@, k) == lookup(old(committed)@ + offsets@, k),
{
    let ghost start = committed@;
    let mut i: usize = 0;
    while i < offsets.len()
        invariant
            i <= offsets.len(),
            forall|k: Seq<char>| #[trigger] lookup(committed@, k) == lookup(start + offsets@.take(i as int), k),
        decreases offsets.len() - i,
    {
        let ghost before = committed@;
        let ghost now = start + offsets@.take(i + 1);
        assert(now.drop_last() =~= start + offsets@.take(i as int));
        assert(now.last() == offsets@[i as int]);
        let key = &offsets[i].0;
        let offset = offsets[i].1;
        match find_last(committed, key) {
            Some(j) => {
                committed[j].1 = offset;
                proof {
                    assert(committed@ == before.update(j as int, (before[j as int].0, offset)));
                    lemma_lookup_update(before, j as int, offset);
                }
            },
            None => {
                proof {
                    lemma_lookup_push(before, (*key, offset));
                }
                committed.push((key.clone(), offset));
            },
        }
        i += 1;
    }
    assert(offsets@.take(i as int) =~= offsets@);
}

/// For each key of `keys`, in order, the offset committed for it.
fn list_committed(committed: &Vec<(String, usize)>, keys: &Vec<String>) -> (r: Vec<(String, usize)>)
    ensures
        r.len() == keys.len(),
        forall|i: int|
            0 <= i < r.len() ==> (#[trigger] r[i]).0 == keys[i] && r[i].1 == committed_of(committed@, keys[i]@),
{
    let mut r: Vec<(String, usize)> = Vec::new();
    let mut i: usize = 0;
    while i < keys.len()
        invariant
            i <= keys.len(),
            r.len() == i,
            forall|a: int|
                0 <= a < i ==> (#[trigger] r[a]).0 == keys[a] && r[a].1 == committed_of(committed@, keys[a]@),
        decreases keys.len() - i,
    {
        let offset = match find_last(committed, &keys[i]) {
            Some(j) => committed[j].1,
            None => 0,
        };
        r.push((keys[i].clone(), offset));
        i += 1;
    }
    r
}

impl KafkaNode {
    /// For each requested log, in order, its entries from the offset asked for; a log that
    /// does not exist has none.
    pub fn get_poll_msgs(&self, offsets: Vec<(String, usize)>) -> (r: Vec<(String, Vec<(usize, usize)>)>)
        ensures
            r.len() == offsets.len(),
            forall|i: int|
                0 <= i < r.len() ==> {
                    &&& (#[trigger] r[i]).0 == offsets[i].0
                    &&& r[i].1@ == poll_of(log_of(self.logs@, offsets[i].0@), offsets[i].1)
                },
    {
        let mut r: Vec<(String, Vec<(usize, usize)>)> = Vec::new();
        let mut i: usize = 0;
        while i < offsets.len()
            invariant
                i <= offsets.len(),
                r.len() == i,
                forall|a: int|
                    0 <= a < i ==> {
                        &&& (#[trigger] r[a]).0 == offsets[a].0
                        &&& r[a].1@ == poll_of(log_of(self.logs@, offsets[a].0@), offsets[a].1)
                    },
            decreases offsets.len() - i,
        {
            let key = &offsets[i].0;
            let msgs = match find_last(&self.logs, key) {
                Some(j) => poll_log(&self.logs[j].1.messages, offsets[i].1),
                None => Vec::new(),
            };
            assert(msgs@ == poll_of(log_of(self.logs@, key@), offsets@[i as int].1));
            r.push((key.clone(), msgs));
            i += 1;
        }
        r
    }
}

impl Node<KafkaPayload> for KafkaNode {
    open spec fn wf(&self) -> bool {
        logs_ordered(self.logs@)
    }

    open spec fn next_id(&self) -> usize {
        self.id
    }

    fn next_message_id(&self) -> (r: usize) {
        self.id
    }

    /// Starts with no logs and no committed offsets.
    fn new(id: usize, init: Init) -> (r: Self)
        ensures
            r.node_id == init.node_id,
            r.logs@.len() == 0,
            r.committed@.len() == 0,
    {
        Self { id, node_id: init.node_id, logs: Vec::new(), committed: Vec::new() }
    }

    /// A send appends to its log and answers with the new entry's offset; a poll answers with
    /// the entries from the offsets asked for; a commit records offsets; a listing answers with
    /// the committed offsets; acknowledgements are ignored. A send to a log whose offsets are
    /// used up is not answered.
    open spec fn handled(
        before: Self,
        input: Message<KafkaPayload>,
        after: Self,
        r: Option<Message<KafkaPayload>>,
    ) -> bool {
        &&& after.node_id == before.node_id
        &&& match input.body.payload {
            KafkaPayload::Send { key, msg } => match r {
                Some(m) => match m.body.payload {
                    KafkaPayload::SendOk { offset } => {
                        &&& offset == latest_of(before.logs@, key@) + 1
                        &&& log_of(after.logs@, key@) == log_of(before.logs@, key@).push(
                            LogMessage { offset, value: msg },
                        )
                        &&& latest_of(after.logs@, key@) == offset
                        &&& forall|k: Seq<char>|
                            k != key@ ==> #[trigger] lookup(after.logs@, k) == lookup(before.logs@, k)
                        &&& after.committed == before.committed
                    },
                    _ => false,
                },
                None => latest_of(before.logs@, key@) == usize::MAX && after == before,
            },
            KafkaPayload::Poll { offsets } => {
                &&& after.logs == before.logs
                &&& after.committed == before.committed
                &&& match r {
                    Some(m) => match m.body.payload {
                        KafkaPayload::PollOk { msgs } => {
                            &&& msgs.len() == offsets.len()
                            &&& forall|i: int|
                                0 <= i < msgs.len() ==> {
                                    &&& (#[trigger] msgs[i]).0 == offsets[i].0
                                    &&& msgs[i].1@ == poll_of(log_of(before.logs@, offsets[i].0@), offsets[i].1)
                                }
                        },
                        _ => false,
                    },
                    None => false,
                }
            },
            KafkaPayload::CommitOffsets { offsets } => {
                &&& after.logs == before.logs
                &&& forall|k: Seq<char>|
                    #[trigger] lookup(after.committed@, k) == lookup(before.committed@ + offsets@, k)
                &&& match r {
                    Some(m) => m.body.payload is CommitOffsetsOk,
                    None => false,
                }
            },
            KafkaPayload::ListCommittedOffsets { keys } => {
                &&& after.logs == before.logs
                &&& after.committed == before.committed
                &&& match r {
                    Some(m) => match m.body.payload {
                        KafkaPayload::ListCommittedOffsetsOk { offsets } => {
                            &&& offsets.len() == keys.len()
                            &&& forall|i: int|
                                0 <= i < offsets.len() ==> (#[trigger] offsets[i]).0 == keys[i]
                                    && offsets[i].1 == committed_of(before.committed@, keys[i]@)
                        },
                        _ => false,
                    },
                    None => false,
                }
            },
            _ => r is None && after == before,
        }
    }

    open spec fn replies(&self, input: Message<KafkaPayload>) -> bool {
        match input.body.payload {
            KafkaPayload::Send { key, .. } => latest_of(self.logs@, key@) < usize::MAX,
            KafkaPayload::Poll { .. }
            | KafkaPayload::CommitOffsets { .. }
            | KafkaPayload::ListCommittedOffsets { .. } => true,
            _ => false,
        }
    }

    /// The log node keeps everything on one node and has nothing to gossip.
    open spec fn gossips_as(&self, out: Seq<Message<KafkaPayload>>) -> bool {
        out.len() == 0
    }

    fn handle(&mut self, input: Message<KafkaPayload>) -> (r: Option<Message<KafkaPayload>>)
    {
        let id = self.id;
        let Message { src, dest, body } = input.into_reply(Some(id));
        let payload = match body.payload {
            KafkaPayload::Send { key, msg } => match append(&mut self.logs, key, msg) {
                Some(offset) => KafkaPayload::SendOk { offset },
                None => {
                    return None;
                },
            },
            KafkaPayload::Poll { offsets } => KafkaPayload::PollOk { msgs: self.get_poll_msgs(offsets) },
            KafkaPayload::CommitOffsets { offsets } => {
                commit(&mut self.committed, &offsets);
                KafkaPayload::CommitOffsetsOk
            },
            KafkaPayload::ListCommittedOffsets { keys } => {
                KafkaPayload::ListCommittedOffsetsOk { offsets: list_committed(&self.committed, &keys) }
            },
            KafkaPayload::SendOk { .. }
            | KafkaPayload::PollOk { .. }
            | KafkaPayload::CommitOffsetsOk
            | KafkaPayload::ListCommittedOffsetsOk { .. } => {
                return None;
            },
        };
        self.id = id + 1;
        Some(Message { src, dest, body: Body { id: body.id, in_reply_to: body.in_reply_to, payload } })
    }

    fn handle_gossip(&self) -> (r: Vec<Message<KafkaPayload>>) {
        Vec::new()
    }
}

} // verus!
