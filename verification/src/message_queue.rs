//! An ordered, append-only, multi-subscriber log of patch sets. A single
//! writer appends; any number of subscribers read from their own cursors.
//! Retention is bounded by count; a cursor that has fallen behind the
//! retained window is told to resynchronize instead of being handed a
//! gapped history.

use vstd::prelude::*;
use crate::instance_tree::{PatchSet, PatchOp, OpView, op_views, lemma_op_views_index, lemma_op_views_len};
use crate::snapshot::clone_props;

verus! {

/// One retained log entry; immutable once appended.
pub struct QueueMessage {
    pub sequence_number: u64,
    pub patch_set: PatchSet,
    pub timestamp: u64,
}

/// The mathematical value of a log entry.
pub struct MsgView {
    pub sequence_number: u64,
    pub ops: Seq<OpView>,
    pub timestamp: u64,
}

impl View for QueueMessage {
    type V = MsgView;

    open spec fn view(&self) -> MsgView {
        MsgView {
            sequence_number: self.sequence_number,
            ops: self.patch_set@,
            timestamp: self.timestamp,
        }
    }
}

impl Clone for PatchOp {
    fn clone(&self) -> (r: PatchOp)
        ensures
            r@ == self@,
    {
        match self {
            PatchOp::Add { parent, subtree } => PatchOp::Add {
                parent: *parent,
                subtree: subtree.clone(),
            },
            PatchOp::Remove { id } => PatchOp::Remove { id: *id },
            PatchOp::Update { id, properties } => PatchOp::Update {
                id: *id,
                properties: clone_props(properties),
            },
        }
    }
}

impl Clone for PatchSet {
    fn clone(&self) -> (r: PatchSet)
        ensures
            r@ == self@,
    {
        let mut ops: Vec<PatchOp> = Vec::new();
        let n = self.ops.len();
        proof {
            lemma_op_views_len(self.ops@);
        }
        for i in 0..n
            invariant
                n == self.ops@.len(),
                op_views(ops@).len() == i,
                forall|j: int| 0 <= j < i ==> op_views(ops@)[j] == op_views(self.ops@)[j],
        {
            let op = self.ops[i].clone();
            let ghost prev = ops@;
            ops.push(op);
            proof {
                assert(ops@.drop_last() =~= prev);
                lemma_op_views_len(prev);
                lemma_op_views_len(ops@);
                lemma_op_views_index(self.ops@, i as int);
                assert forall|j: int| 0 <= j < i + 1 implies op_views(ops@)[j] == op_views(
                    self.ops@,
                )[j] by {
                    lemma_op_views_index(ops@, j);
                    if j < i {
                        lemma_op_views_index(prev, j);
                        assert(ops@[j] == prev[j]);
                    }
                }
            }
        }
        proof {
            assert(op_views(ops@) =~= op_views(self.ops@));
        }
        PatchSet { ops }
    }
}

impl Clone for QueueMessage {
    fn clone(&self) -> (r: QueueMessage)
        ensures
            r@ == self@,
    {
        QueueMessage {
            sequence_number: self.sequence_number,
            patch_set: self.patch_set.clone(),
            timestamp: self.timestamp,
        }
    }
}

/// The answer to a cursor read: either every retained message past the
/// cursor, in order (possibly none, when the caller is current and should
/// wait), or the demand to resynchronize because part of the history the
/// cursor still needs has been pruned.
pub enum ReadResult {
    Messages(Vec<QueueMessage>),
    ResyncRequired,
}

/// The ordered multi-subscriber log.
pub struct ChangeBroadcaster {
    pub messages: Vec<QueueMessage>,
    pub next_seq: u64,
    pub retain_limit: usize,
}

impl ChangeBroadcaster {
    /// Retained entries carry contiguous sequence numbers ending just below
    /// `next_seq`, and never more of them than the retention bound.
    pub open spec fn wf(&self) -> bool {
        &&& self.retain_limit >= 1
        &&& self.messages@.len() <= self.retain_limit
        &&& self.messages@.len() <= self.next_seq
        &&& forall|i: int| 0 <= i < self.messages@.len()
            ==> #[trigger] self.messages@[i]@.sequence_number == self.next_seq
                - self.messages@.len() + i
    }

    /// The sequence number of the oldest retained message.
    pub open spec fn first_retained(&self) -> int {
        self.next_seq - self.messages@.len()
    }

    pub fn new(retain_limit: usize) -> (r: ChangeBroadcaster)
        requires
            retain_limit >= 1,
        ensures
            r.wf(),
            r.next_seq == 0,
            r.messages@.len() == 0,
            r.retain_limit == retain_limit,
    {
        ChangeBroadcaster { messages: Vec::new(), next_seq: 0, retain_limit }
    }

    /// Append one patch set; it gets the next sequence number. The oldest
    /// entry is pruned when the retention bound is reached. Never prunes
    /// anything else, and never renumbers.
    pub fn append(&mut self, patch_set: PatchSet, timestamp: u64) -> (seq: u64)
        requires
            old(self).wf(),
            old(self).next_seq < u64::MAX,
        ensures
            final(self).wf(),
            seq == old(self).next_seq,
            final(self).next_seq == old(self).next_seq + 1,
            final(self).retain_limit == old(self).retain_limit,
            final(self).messages@.last()@ == (MsgView {
                sequence_number: seq,
                ops: patch_set@,
                timestamp,
            }),
            final(self).messages@.len() == if old(self).messages@.len()
                == old(self).retain_limit {
                old(self).messages@.len() as int
            } else {
                old(self).messages@.len() + 1 as int
            },
            // What is retained afterwards is a suffix of the old log plus the
            // new message: nothing is reordered or rewritten.
            forall|i: int| 0 <= i < final(self).messages@.len() - 1
                ==> #[trigger] final(self).messages@[i]@ == old(self).messages@[i + (
                old(self).messages@.len() - (final(self).messages@.len() - 1))]@,
    {
        let seq = self.next_seq;
        if self.messages.len() == self.retain_limit {
            let _dropped = self.messages.remove(0);
        }
        let msg = QueueMessage { sequence_number: seq, patch_set, timestamp };
        self.messages.push(msg);
        self.next_seq = seq + 1;
        seq
    }

    /// Every retained message with a sequence number past `cursor`, in
    /// order: the numbers come back strictly increasing and gapless,
    /// starting at `cursor + 1`. If part of that range has already been
    /// pruned, the subscriber must resynchronize and no partial history is
    /// handed out. An empty answer means the cursor is current: the caller
    /// blocks until the next append.
    pub fn read_since(&self, cursor: u64) -> (r: ReadResult)
        requires
            self.wf(),
        ensures
            match r {
                ReadResult::ResyncRequired => cursor + 1 < self.first_retained(),
                ReadResult::Messages(msgs) => {
                    &&& cursor + 1 >= self.first_retained()
                    &&& forall|i: int| 0 <= i < msgs@.len()
                        ==> #[trigger] msgs@[i]@.sequence_number == cursor + 1 + i
                    &&& forall|i: int| 0 <= i < msgs@.len() ==> #[trigger] msgs@[i]@
                        == self.messages@[i + (cursor + 1 - self.first_retained())]@
                    &&& msgs@.len() == if self.next_seq > cursor {
                        (self.next_seq - cursor - 1) as int
                    } else {
                        0
                    }
                },
            },
    {
        if cursor < u64::MAX && cursor + 1 < self.seq_of_first() {
            return ReadResult::ResyncRequired;
        }
        let ghost k = cursor + 1 - self.first_retained();
        let mut out: Vec<QueueMessage> = Vec::new();
        let n = self.messages.len();
        for i in 0..n
            invariant
                self.wf(),
                n == self.messages@.len(),
                cursor + 1 >= self.first_retained(),
                k == cursor + 1 - self.first_retained(),
                out@.len() == if i as int > k {
                    i - k
                } else {
                    0
                },
                forall|j: int| 0 <= j < out@.len() ==> #[trigger] out@[j]@.sequence_number
                    == cursor + 1 + j,
                forall|j: int| 0 <= j < out@.len() ==> #[trigger] out@[j]@ == self.messages@[j
                    + k]@,
        {
            proof {
                assert(self.messages@[i as int]@.sequence_number == self.first_retained() + i);
            }
            if self.messages[i].sequence_number > cursor {
                let ghost prev = out@;
                out.push(self.messages[i].clone());
                proof {
                    assert(out@[prev.len() as int]@ == self.messages@[i as int]@);
                    assert((i as int) >= k);
                }
            } else {
                proof {
                    assert((i as int) < k);
                }
            }
        }
        ReadResult::Messages(out)
    }

    fn seq_of_first(&self) -> (r: u64)
        requires
            self.wf(),
        ensures
            self.messages@.len() > 0 ==> r == self.first_retained(),
            self.messages@.len() == 0 ==> r == self.next_seq,
    {
        if self.messages.len() == 0 {
            self.next_seq
        } else {
            proof {
                assert(self.messages@[0]@.sequence_number == self.first_retained());
            }
            self.messages[0].sequence_number
        }
    }
}

} // verus!
