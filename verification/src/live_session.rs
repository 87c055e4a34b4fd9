//! The orchestrator: one serialized pipeline from a dirty-path observation
//! to an atomically applied, broadcast patch set. It owns the mirror, the
//! live tree and the change log, and carries the ghost history that ties
//! them together: the live tree always equals the initial tree with every
//! broadcast patch set replayed over it, which is what lets a subscriber
//! bootstrap from `full_snapshot` and stay current from the log alone.

use vstd::prelude::*;
use crate::path::FsPath;
use crate::path_table::{PathTable, binding_of, without_binding};
use crate::imfs::{Imfs, FsObservation, keep_outside, mirror_of};
use crate::instance_tree::{InstanceTree, Instance, TreeView, OpView, apply_ops, node_views};
use crate::message_queue::{ChangeBroadcaster, ReadResult};
use crate::project::Project;
use crate::snapshot_builder::{BuildConfig, BuildError, build_node};
use crate::reconciler::diff;
use crate::session_id::SessionId;

verus! {

/// The tree a history of patch sets grows from an initial tree.
pub open spec fn replay(t0: TreeView, hist: Seq<Seq<OpView>>) -> TreeView
    decreases hist.len(),
{
    if hist.len() == 0 {
        t0
    } else {
        apply_ops(replay(t0, hist.drop_last()), hist.last())
    }
}

/// Replaying splits: the tree after the whole history is the tree after a
/// prefix, with the remaining patch sets replayed over it. A subscriber
/// that takes a full snapshot at any point and then applies every later
/// patch set in order reconstructs the live tree exactly.
pub proof fn lemma_replay_split(t0: TreeView, hist: Seq<Seq<OpView>>, k: int)
    requires
        0 <= k <= hist.len(),
    ensures
        replay(t0, hist) == replay(replay(t0, hist.take(k)), hist.skip(k)),
    decreases hist.len() - k,
{
    if k == hist.len() {
        assert(hist.take(k) =~= hist);
        assert(hist.skip(k) =~= Seq::<Seq<OpView>>::empty());
    } else {
        lemma_replay_split(t0, hist, k + 1);
        assert(hist.take(k + 1).drop_last() =~= hist.take(k));
        assert(hist.take(k + 1).last() == hist[k]);
        assert(replay(t0, hist.take(k + 1)) == apply_ops(replay(t0, hist.take(k)), hist[k]));
        lemma_replay_cons(replay(t0, hist.take(k)), hist[k], hist.skip(k + 1));
        assert(hist.skip(k).drop_first() =~= hist.skip(k + 1));
        assert(hist.skip(k)[0] == hist[k]);
        lemma_replay_first(replay(t0, hist.take(k)), hist.skip(k));
    }
}

/// Replaying from the front: the first patch set applies first.
pub proof fn lemma_replay_first(t0: TreeView, hist: Seq<Seq<OpView>>)
    requires
        hist.len() > 0,
    ensures
        replay(t0, hist) == replay(apply_ops(t0, hist.first()), hist.drop_first()),
    decreases hist.len(),
{
    reveal_with_fuel(replay, 3);
    if hist.len() == 1 {
        assert(hist.drop_last() =~= Seq::<Seq<OpView>>::empty());
        assert(hist.drop_first() =~= Seq::<Seq<OpView>>::empty());
        assert(hist.last() == hist.first());
    } else {
        lemma_replay_first(t0, hist.drop_last());
        assert(hist.drop_last().first() == hist.first());
        assert(hist.drop_last().drop_first() =~= hist.drop_first().drop_last());
        assert(hist.drop_first().last() == hist.last());
    }
}

proof fn lemma_replay_cons(t0: TreeView, ps: Seq<OpView>, rest: Seq<Seq<OpView>>)
    ensures
        replay(apply_ops(t0, ps), rest) == replay(t0, seq![ps] + rest),
    decreases rest.len(),
{
    lemma_replay_first(t0, seq![ps] + rest);
    assert((seq![ps] + rest).first() == ps);
    assert((seq![ps] + rest).drop_first() =~= rest);
}

/// The path bindings a tree induces: walking the entries in storage order,
/// each instance with a source path binds that path to its id, displacing
/// any earlier binding of the same path. A removed instance's binding is
/// gone, because the bindings are exactly what the live entries induce.
pub open spec fn path_bindings(nodes: Seq<(u64, crate::instance_tree::InstView)>) -> Seq<
    (Seq<Seq<char>>, u64),
>
    decreases nodes.len(),
{
    if nodes.len() == 0 {
        Seq::empty()
    } else {
        let acc = path_bindings(nodes.drop_last());
        match nodes.last().1.source_path {
            Some(p) => without_binding(acc, p).push((p, nodes.last().0)),
            None => acc,
        }
    }
}

/// One running pipeline: project description, mirror, live tree, path
/// table, change log, and the session token that marks this process run.
pub struct LiveSession {
    pub project: Project,
    pub config: BuildConfig,
    pub imfs: Imfs,
    pub tree: InstanceTree,
    pub path_table: PathTable,
    pub messages: ChangeBroadcaster,
    pub session_id: SessionId,
    pub initial_tree: Ghost<TreeView>,
    pub history: Ghost<Seq<Seq<OpView>>>,
}

impl LiveSession {
    /// The pipeline's standing invariant: the log is well formed, its
    /// sequence numbers index the ghost history, every retained message
    /// carries the history entry of its number, and the live tree is the
    /// initial tree with the whole history replayed.
    pub open spec fn wf(&self) -> bool {
        &&& self.path_table@ == path_bindings(self.tree@.nodes)
        &&& self.messages.wf()
        &&& self.history@.len() == self.messages.next_seq
        &&& forall|i: int| 0 <= i < self.messages.messages@.len()
            ==> #[trigger] self.messages.messages@[i]@.ops == self.history@[i
            + self.messages.first_retained()]
        &&& self.tree@ == replay(self.initial_tree@, self.history@)
    }

    /// Start a session: an empty mirror, a tree holding one root instance
    /// named after the project, an empty log, and the given session token.
    pub fn new(
        project: Project,
        config: BuildConfig,
        retain_limit: usize,
        session_token: u64,
    ) -> (r: LiveSession)
        requires
            retain_limit >= 1,
        ensures
            r.wf(),
            r.session_id.token == session_token,
            r.history@ == Seq::<Seq<OpView>>::empty(),
            r.messages.next_seq == 0,
            r.messages.messages@.len() == 0,
            r.messages.retain_limit == retain_limit,
            r.tree@ == r.initial_tree@,
            r.tree@.nodes.len() == 1,
            r.tree@.root == 0 && r.tree@.nodes[0].0 == 0,
            r.tree@.nodes[0].1.name == r.project.name@,
            r.tree@.nodes[0].1.class_name == "Folder"@,
            r.tree@.nodes[0].1.children == Seq::<u64>::empty(),
            crate::instance_tree::tree_wf(r.tree@),
            r.imfs@.roots == Seq::<Seq<Seq<char>>>::empty(),
            r.imfs@.items == Seq::<(Seq<Seq<char>>, crate::imfs::IView)>::empty(),
            r.project == project,
            r.config == config,
    {
        let root_class = crate::snapshot_builder::folder_class();
        let root_name = project.name.clone();
        let tree = InstanceTree::new(root_class, root_name);
        let r = LiveSession {
            project,
            config,
            imfs: Imfs::new(),
            tree,
            path_table: PathTable::new(),
            messages: ChangeBroadcaster::new(retain_limit),
            session_id: SessionId::new(session_token),
            initial_tree: Ghost(tree@),
            history: Ghost(Seq::empty()),
        };
        proof {
            assert(r.tree@.nodes.drop_last() =~= Seq::<
                (u64, crate::instance_tree::InstView),
            >::empty());
            assert(path_bindings(Seq::<(u64, crate::instance_tree::InstView)>::empty()) =~= Seq::<
                (Seq<Seq<char>>, u64),
            >::empty());
            assert(path_bindings(r.tree@.nodes) =~= Seq::<(Seq<Seq<char>>, u64)>::empty());
        }
        r
    }

    /// Rebuild the path table from the live tree: afterwards it holds
    /// exactly the bindings the tree's entries induce, so paths of removed
    /// instances are unbound and fresh instances are bound.
    fn rebind_paths(&mut self)
        ensures
            final(self).path_table@ == path_bindings(final(self).tree@.nodes),
            final(self).tree == old(self).tree,
            final(self).imfs == old(self).imfs,
            final(self).messages == old(self).messages,
            final(self).project == old(self).project,
            final(self).config == old(self).config,
            final(self).session_id == old(self).session_id,
            final(self).initial_tree == old(self).initial_tree,
            final(self).history == old(self).history,
    {
        self.path_table = PathTable::new();
        let n = self.tree.nodes.len();
        proof {
            crate::instance_tree::lemma_node_views_len(self.tree.nodes@);
            assert(self.tree@.nodes.take(0) =~= Seq::<
                (u64, crate::instance_tree::InstView),
            >::empty());
        }
        for i in 0..n
            invariant
                n == self.tree.nodes@.len(),
                self.tree == old(self).tree,
                self.imfs == old(self).imfs,
                self.messages == old(self).messages,
                self.project == old(self).project,
                self.config == old(self).config,
                self.session_id == old(self).session_id,
                self.initial_tree == old(self).initial_tree,
                self.history == old(self).history,
                self.tree@.nodes.len() == n,
                self.path_table@ =~= path_bindings(self.tree@.nodes.take(i as int)),
        {
            proof {
                crate::instance_tree::lemma_node_views_index(self.tree.nodes@, i as int);
                assert(self.tree@.nodes.take(i + 1).drop_last() =~= self.tree@.nodes.take(
                    i as int,
                ));
                assert(self.tree@.nodes.take(i + 1).last() == self.tree@.nodes[i as int]);
            }
            let id = self.tree.nodes[i].0;
            match &self.tree.nodes[i].1.source_path {
                Some(p) => {
                    self.path_table.bind(p, id);
                },
                None => {},
            }
        }
        proof {
            assert(self.tree@.nodes.take(n as int) =~= self.tree@.nodes);
        }
    }

    /// The id of the instance a filesystem path materialized, if any: the
    /// path-identity bridge serving identity continuity queries.
    pub fn instance_at_path(&self, path: &FsPath) -> (r: Option<u64>)
        ensures
            r == binding_of(self.path_table@, path@),
    {
        self.path_table.lookup(path)
    }

    /// The token identifying this process run.
    pub fn current_session_id(&self) -> (r: u64)
        ensures
            r == self.session_id.token,
    {
        self.session_id.value()
    }

    /// One serialized pass: fold the observation into the mirror, rebuild
    /// the snapshot, diff it against the live tree, apply the patch set
    /// atomically, and broadcast it — only when it is non-empty. A build
    /// failure skips the pass after the mirror update: the tree, the log
    /// and the history stay exactly as they were, and the next dirty event
    /// touching the path retries.
    pub fn process_pass(&mut self, path: &FsPath, observed: &FsObservation, timestamp: u64) -> (r:
        Result<bool, BuildError>)
        requires
            old(self).wf(),
            old(self).messages.next_seq < u64::MAX,
        ensures
            final(self).wf(),
            final(self).initial_tree == old(self).initial_tree,
            final(self).session_id == old(self).session_id,
            final(self).project == old(self).project,
            final(self).config == old(self).config,
            // Whatever else the pass decides, the observation is folded into
            // the mirror exactly as `apply_event` states it.
            final(self).imfs@.items == keep_outside(old(self).imfs@.items, path@) + mirror_of(
                path@,
                observed@,
            ),
            final(self).imfs@.roots == old(self).imfs@.roots,
            r is Err ==> final(self).tree@ == old(self).tree@ && final(self).history
                == old(self).history && final(self).messages == old(self).messages,
            r == Result::<bool, BuildError>::Ok(false) ==> final(self).tree@ == old(self).tree@
                && final(self).history == old(self).history && final(self).messages == old(
                self,
            ).messages,
            // A pass that did broadcast appended exactly one non-empty patch
            // set, and the live tree is the old tree with it applied.
            r == Result::<bool, BuildError>::Ok(true) ==> {
                &&& final(self).history@.len() == old(self).history@.len() + 1
                &&& final(self).history@.drop_last() == old(self).history@
                &&& final(self).history@.last().len() > 0
                &&& final(self).tree@ == apply_ops(old(self).tree@, final(self).history@.last())
                &&& final(self).messages.next_seq == old(self).messages.next_seq + 1
            },
    {
        let _affected = self.imfs.apply_event(path, observed);
        let mut conflicts: Vec<String> = Vec::new();
        let built = build_node(
            &self.imfs,
            &self.project.tree,
            &self.project.name,
            &self.config,
            u64::MAX,
            &mut conflicts,
        );
        let snapshot = match built {
            Ok(snapshot) => snapshot,
            Err(e) => {
                return Err(e);
            },
        };
        let patch = diff(&self.tree, &snapshot);
        if patch.ops.len() == 0 {
            return Ok(false);
        }
        let ghost ops = patch@;
        let for_log = patch.clone();
        self.tree.apply(patch);
        self.rebind_paths();
        let _seq = self.messages.append(for_log, timestamp);
        proof {
            self.history@ = self.history@.push(ops);
        }
        proof {
            assert(self.history@.drop_last() =~= old(self).history@);
            assert(self.tree@ == replay(self.initial_tree@, self.history@));
            assert forall|i: int| 0 <= i < self.messages.messages@.len()
                implies #[trigger] self.messages.messages@[i]@.ops == self.history@[i
                + self.messages.first_retained()] by {
                if i < self.messages.messages@.len() - 1 {
                    let shift = old(self).messages.messages@.len() - (
                    self.messages.messages@.len() - 1);
                    assert(self.messages.messages@[i]@ == old(self).messages.messages@[i
                        + shift]@);
                    assert(old(self).messages.messages@[i + shift]@.ops == old(self).history@[i
                        + shift + old(self).messages.first_retained()]);
                    assert(self.history@[i + self.messages.first_retained()] == old(
                        self,
                    ).history@[i + shift + old(self).messages.first_retained()]);
                } else {
                    assert(self.messages.messages@.last()@.ops == ops);
                    assert(self.history@.last() == ops);
                }
            }
        }
        Ok(true)
    }

    /// The whole current tree plus the log position it corresponds to: a
    /// fresh subscriber takes this and then reads the log from that cursor,
    /// and replaying what it reads keeps its copy equal to the live tree.
    pub fn full_snapshot(&self) -> (r: (Vec<(u64, Instance)>, u64))
        requires
            self.wf(),
        ensures
            node_views(r.0@) == self.tree@.nodes,
            r.1 == self.messages.next_seq,
            r.1 == self.history@.len(),
            self.tree@ == replay(self.initial_tree@, self.history@),
    {
        (self.tree.export_nodes(), self.messages.next_seq)
    }

    /// Read every broadcast patch set past `cursor`, or learn that the
    /// history needed has been pruned and a resynchronization is due.
    pub fn subscribe(&self, cursor: u64) -> (r: ReadResult)
        requires
            self.wf(),
        ensures
            match r {
                ReadResult::ResyncRequired => cursor + 1 < self.messages.first_retained(),
                ReadResult::Messages(msgs) => {
                    &&& cursor + 1 >= self.messages.first_retained()
                    &&& msgs@.len() == if self.messages.next_seq > cursor {
                        (self.messages.next_seq - cursor - 1) as int
                    } else {
                        0
                    }
                    &&& forall|i: int| 0 <= i < msgs@.len()
                        ==> #[trigger] msgs@[i]@.sequence_number == cursor + 1 + i
                    &&& forall|i: int| 0 <= i < msgs@.len() ==> #[trigger] msgs@[i]@.ops
                        == self.history@[cursor + 1 + i]
                },
            },
    {
        let r = self.messages.read_since(cursor);
        proof {
            match &r {
                ReadResult::Messages(msgs) => {
                    assert forall|i: int| 0 <= i < msgs@.len() implies #[trigger] msgs@[i]@.ops
                        == self.history@[cursor + 1 + i] by {
                        let k = i + (cursor + 1 - self.messages.first_retained());
                        assert(msgs@[i]@ == self.messages.messages@[k]@);
                        assert(self.messages.messages@[k]@.ops == self.history@[k
                            + self.messages.first_retained()]);
                    }
                },
                ReadResult::ResyncRequired => {},
            }
        }
        r
    }
}

} // verus!
