//! The authoritative, identity-stable live tree. Instances are created,
//! mutated and removed exclusively by applying patch sets; an instance's id
//! persists across passes that do not structurally displace it.
//!
//! The tree is an arena: a list of `(id, Instance)` entries kept in strictly
//! ascending id order. A child's id is always greater than its parent's,
//! because ids are allocated from a counter that only grows and a node is
//! always created after its parent.

use vstd::prelude::*;
use crate::path::FsPath;
use crate::snapshot::{SnapshotNode, SnapView, snap_view, snap_views, clone_props, clone_source_path};
use crate::snapshot::lemma_snap_views_index;

verus! {

broadcast use vstd::std_specs::vec::vec_clone_deep_view_proof;

/// A node of the live tree. `class_name` is immutable after creation;
/// a class change forces a new identity.
pub struct Instance {
    pub id: u64,
    pub parent: u64,
    pub class_name: String,
    pub name: String,
    pub properties: Vec<(String, String)>,
    pub children: Vec<u64>,
    pub source_path: Option<FsPath>,
    pub ignore_unknown: bool,
}

/// Metadata attached to an instance, read by diagnostic exporters.
pub struct InstanceMetadata {
    pub source_path: Option<FsPath>,
    pub ignore_unknown: bool,
}

/// The mathematical value of one instance.
pub struct InstView {
    pub parent: u64,
    pub class_name: Seq<char>,
    pub name: Seq<char>,
    pub properties: Seq<(Seq<char>, Seq<char>)>,
    pub children: Seq<u64>,
    pub source_path: Option<Seq<Seq<char>>>,
    pub ignore_unknown: bool,
}

pub open spec fn inst_view(i: Instance) -> InstView {
    InstView {
        parent: i.parent,
        class_name: i.class_name@,
        name: i.name@,
        properties: i.properties.deep_view(),
        children: i.children@,
        source_path: i.source_path.deep_view(),
        ignore_unknown: i.ignore_unknown,
    }
}

impl View for Instance {
    type V = InstView;

    open spec fn view(&self) -> InstView {
        inst_view(*self)
    }
}

/// The mathematical value of the whole tree: the entries in storage order
/// (strictly ascending by id), the root id, and the allocation counter.
pub struct TreeView {
    pub nodes: Seq<(u64, InstView)>,
    pub root: u64,
    pub next_id: u64,
}

/// The first entry bound to `id`, if any.
pub open spec fn lookup(nodes: Seq<(u64, InstView)>, id: u64) -> Option<InstView>
    decreases nodes.len(),
{
    if nodes.len() == 0 {
        None
    } else if nodes[0].0 == id {
        Some(nodes[0].1)
    } else {
        lookup(nodes.drop_first(), id)
    }
}

pub open spec fn contains_id(nodes: Seq<(u64, InstView)>, id: u64) -> bool {
    lookup(nodes, id) is Some
}

/// The live tree.
pub struct InstanceTree {
    pub nodes: Vec<(u64, Instance)>,
    pub root: u64,
    pub next_id: u64,
}

impl View for InstanceTree {
    type V = TreeView;

    open spec fn view(&self) -> TreeView {
        TreeView { nodes: node_views(self.nodes@), root: self.root, next_id: self.next_id }
    }
}

pub open spec fn node_views(nodes: Seq<(u64, Instance)>) -> Seq<(u64, InstView)>
    decreases nodes,
{
    if nodes.len() == 0 {
        Seq::empty()
    } else {
        node_views(nodes.drop_last()).push((nodes.last().0, nodes.last().1@))
    }
}

pub proof fn lemma_node_views_index(nodes: Seq<(u64, Instance)>, i: int)
    requires
        0 <= i < nodes.len(),
    ensures
        node_views(nodes).len() == nodes.len(),
        node_views(nodes)[i] == (nodes[i].0, nodes[i].1@),
    decreases nodes,
{
    if nodes.len() > 0 {
        lemma_node_views_len(nodes.drop_last());
        if i < nodes.len() - 1 {
            lemma_node_views_index(nodes.drop_last(), i);
            assert(nodes.drop_last()[i] == nodes[i]);
        }
    }
}

pub proof fn lemma_node_views_len(nodes: Seq<(u64, Instance)>)
    ensures
        node_views(nodes).len() == nodes.len(),
    decreases nodes,
{
    if nodes.len() > 0 {
        lemma_node_views_len(nodes.drop_last());
    }
}

/// Looking an id up goes by the first matching entry, so it is determined
/// by the entries alone.
pub proof fn lemma_lookup_index(nodes: Seq<(u64, InstView)>, id: u64)
    ensures
        lookup(nodes, id) is Some <==> exists|i: int| 0 <= i < nodes.len() && nodes[i].0 == id,
        lookup(nodes, id) is None <==> forall|i: int| 0 <= i < nodes.len() ==> nodes[i].0 != id,
    decreases nodes.len(),
{
    if nodes.len() > 0 {
        lemma_lookup_index(nodes.drop_first(), id);
        if nodes[0].0 != id {
            assert forall|i: int| 0 <= i < nodes.len() && nodes[i].0 == id
                implies lookup(nodes, id) is Some by {
                assert(nodes.drop_first()[i - 1] == nodes[i]);
            }
        }
    }
}

pub open spec fn ids_unique(nodes: Seq<(u64, InstView)>) -> bool {
    forall|i: int, j: int| 0 <= i < j < nodes.len() ==> nodes[i].0 != nodes[j].0
}

/// Well-formedness of a tree value: entries strictly ascending by id, every
/// id below the allocation counter, and the root present and its own parent.
pub open spec fn tree_wf(t: TreeView) -> bool {
    &&& forall|i: int, j: int| 0 <= i < j < t.nodes.len() ==> t.nodes[i].0 < t.nodes[j].0
    &&& forall|i: int| 0 <= i < t.nodes.len() ==> #[trigger] t.nodes[i].0 < t.next_id
    &&& contains_id(t.nodes, t.root)
    &&& lookup(t.nodes, t.root).unwrap().parent == t.root
}

impl InstanceTree {
    /// A tree holding one root instance.
    pub fn new(class_name: String, name: String) -> (r: InstanceTree)
        ensures
            r@.root == 0,
            r@.next_id == 1,
            r@.nodes.len() == 1,
            r@.nodes[0].0 == 0,
            r@.nodes[0].1.class_name == class_name@,
            r@.nodes[0].1.name == name@,
            r@.nodes[0].1.children == Seq::<u64>::empty(),
            r@.nodes[0].1.properties == Seq::<(Seq<char>, Seq<char>)>::empty(),
            r@.nodes[0].1.source_path is None,
            tree_wf(r@),
    {
        let root = Instance {
            id: 0,
            parent: 0,
            class_name,
            name,
            properties: Vec::new(),
            children: Vec::new(),
            source_path: None,
            ignore_unknown: false,
        };
        let mut nodes: Vec<(u64, Instance)> = Vec::new();
        nodes.push((0, root));
        let r = InstanceTree { nodes, root: 0, next_id: 1 };
        proof {
            lemma_node_views_index(r.nodes@, 0);
            assert(r@.nodes.len() == 1);
            assert(r@.nodes[0].1.properties =~= Seq::<(Seq<char>, Seq<char>)>::empty());
        }
        r
    }

    /// The root's id; stable for the tree's whole lifetime.
    pub fn root_id(&self) -> (r: u64)
        ensures
            r == self@.root,
    {
        self.root
    }

    /// The instance bound to `id`, if it is live.
    pub fn get(&self, id: u64) -> (r: Option<&Instance>)
        ensures
            match r {
                Some(inst) => lookup(self@.nodes, id) == Some(inst@),
                None => lookup(self@.nodes, id) is None,
            },
    {
        let n = self.nodes.len();
        proof {
            lemma_node_views_len(self.nodes@);
        }
        for i in 0..n
            invariant
                n == self.nodes.len(),
                self@.nodes.len() == n,
                forall|j: int| 0 <= j < i ==> self@.nodes[j].0 != id,
        {
            proof {
                lemma_node_views_index(self.nodes@, i as int);
            }
            if self.nodes[i].0 == id {
                proof {
                    lemma_lookup_first(self@.nodes, id, i as int);
                }
                return Some(&self.nodes[i].1);
            }
        }
        proof {
            lemma_lookup_index(self@.nodes, id);
        }
        None
    }
}

/// One mutation of the live tree. `Add` grafts an id-less subtree under an
/// existing parent, allocating fresh ids; `Remove` deletes a node and all of
/// its descendants; `Update` replaces a node's properties, keeping its id.
pub enum PatchOp {
    Add { parent: u64, subtree: SnapshotNode },
    Remove { id: u64 },
    Update { id: u64, properties: Vec<(String, String)> },
}

/// An ordered batch of mutations, applied as one atomic unit.
pub struct PatchSet {
    pub ops: Vec<PatchOp>,
}

pub enum OpView {
    Add { parent: u64, subtree: SnapView },
    Remove { id: u64 },
    Update { id: u64, properties: Seq<(Seq<char>, Seq<char>)> },
}

pub open spec fn op_view(op: PatchOp) -> OpView {
    match op {
        PatchOp::Add { parent, subtree } => OpView::Add { parent, subtree: snap_view(subtree) },
        PatchOp::Remove { id } => OpView::Remove { id },
        PatchOp::Update { id, properties } => OpView::Update {
            id,
            properties: properties.deep_view(),
        },
    }
}

pub open spec fn op_views(ops: Seq<PatchOp>) -> Seq<OpView>
    decreases ops,
{
    if ops.len() == 0 {
        Seq::empty()
    } else {
        op_views(ops.drop_last()).push(op_view(ops.last()))
    }
}

pub proof fn lemma_op_views_index(ops: Seq<PatchOp>, i: int)
    requires
        0 <= i < ops.len(),
    ensures
        op_views(ops).len() == ops.len(),
        op_views(ops)[i] == op_view(ops[i]),
    decreases ops,
{
    if ops.len() > 0 {
        lemma_op_views_len(ops.drop_last());
        if i < ops.len() - 1 {
            lemma_op_views_index(ops.drop_last(), i);
            assert(ops.drop_last()[i] == ops[i]);
        }
    }
}

pub proof fn lemma_op_views_len(ops: Seq<PatchOp>)
    ensures
        op_views(ops).len() == ops.len(),
    decreases ops,
{
    if ops.len() > 0 {
        lemma_op_views_len(ops.drop_last());
    }
}

impl View for PatchOp {
    type V = OpView;

    open spec fn view(&self) -> OpView {
        op_view(*self)
    }
}

impl View for PatchSet {
    type V = Seq<OpView>;

    open spec fn view(&self) -> Seq<OpView> {
        op_views(self.ops@)
    }
}

/// Transform the first entry bound to `id` by `f`; leave everything else.
pub open spec fn map_first(
    nodes: Seq<(u64, InstView)>,
    id: u64,
    f: spec_fn(InstView) -> InstView,
) -> Seq<(u64, InstView)>
    decreases nodes.len(),
{
    if nodes.len() == 0 {
        nodes
    } else if nodes[0].0 == id {
        seq![(id, f(nodes[0].1))] + nodes.drop_first()
    } else {
        seq![nodes[0]] + map_first(nodes.drop_first(), id, f)
    }
}

pub proof fn lemma_map_first_hit(
    nodes: Seq<(u64, InstView)>,
    id: u64,
    f: spec_fn(InstView) -> InstView,
    i: int,
)
    requires
        0 <= i < nodes.len(),
        nodes[i].0 == id,
        forall|j: int| 0 <= j < i ==> nodes[j].0 != id,
    ensures
        map_first(nodes, id, f) =~= nodes.update(i, (id, f(nodes[i].1))),
    decreases nodes.len(),
{
    if i == 0 {
        assert(seq![(id, f(nodes[0].1))] + nodes.drop_first() =~= nodes.update(
            0,
            (id, f(nodes[0].1)),
        ));
    } else {
        assert forall|j: int| 0 <= j < i - 1 implies nodes.drop_first()[j].0 != id by {
            assert(nodes.drop_first()[j] == nodes[j + 1]);
        }
        assert(nodes.drop_first()[i - 1] == nodes[i]);
        lemma_map_first_hit(nodes.drop_first(), id, f, i - 1);
    }
}

pub proof fn lemma_map_first_miss(
    nodes: Seq<(u64, InstView)>,
    id: u64,
    f: spec_fn(InstView) -> InstView,
)
    requires
        forall|j: int| 0 <= j < nodes.len() ==> nodes[j].0 != id,
    ensures
        map_first(nodes, id, f) =~= nodes,
    decreases nodes.len(),
{
    if nodes.len() > 0 {
        assert forall|j: int| 0 <= j < nodes.len() - 1 implies nodes.drop_first()[j].0 != id by {
            assert(nodes.drop_first()[j] == nodes[j + 1]);
        }
        lemma_map_first_miss(nodes.drop_first(), id, f);
    }
}

/// `s` with every occurrence of `v` removed, order otherwise kept.
pub open spec fn remove_val(s: Seq<u64>, v: u64) -> Seq<u64>
    decreases s.len(),
{
    if s.len() == 0 {
        s
    } else if s.last() == v {
        remove_val(s.drop_last(), v)
    } else {
        remove_val(s.drop_last(), v).push(s.last())
    }
}

pub open spec fn attach_child_f(cid: u64) -> spec_fn(InstView) -> InstView {
    |v: InstView| InstView { children: v.children.push(cid), ..v }
}

pub open spec fn detach_child_f(cid: u64) -> spec_fn(InstView) -> InstView {
    |v: InstView| InstView { children: remove_val(v.children, cid), ..v }
}

pub open spec fn set_props_f(props: Seq<(Seq<char>, Seq<char>)>) -> spec_fn(InstView) -> InstView {
    |v: InstView| InstView { properties: props, ..v }
}

/// Adding a subtree: allocate the next id for its top node, attach it to the
/// parent, then graft the snapshot children under the new node in order.
/// A missing parent, or an exhausted id counter, leaves the tree unchanged.
pub open spec fn tree_add(t: TreeView, parent: u64, s: SnapView) -> TreeView
    decreases s,
{
    if lookup(t.nodes, parent) is None || t.next_id == u64::MAX {
        t
    } else {
        let id = t.next_id;
        let node = InstView {
            parent,
            class_name: s.class_name,
            name: s.name,
            properties: s.properties,
            children: Seq::empty(),
            source_path: s.source_path,
            ignore_unknown: false,
        };
        let t1 = TreeView {
            nodes: map_first(t.nodes, parent, attach_child_f(id)).push((id, node)),
            root: t.root,
            next_id: (id + 1) as u64,
        };
        tree_add_list(t1, id, s.children)
    }
}

pub open spec fn tree_add_list(t: TreeView, parent: u64, cs: Seq<SnapView>) -> TreeView
    decreases cs,
{
    if cs.len() == 0 {
        t
    } else {
        tree_add_list(tree_add(t, parent, cs.first()), parent, cs.drop_first())
    }
}

pub proof fn lemma_tree_add_list_snoc(t: TreeView, parent: u64, cs: Seq<SnapView>, c: SnapView)
    ensures
        tree_add_list(t, parent, cs.push(c)) == tree_add(tree_add_list(t, parent, cs), parent, c),
    decreases cs.len(),
{
    reveal_with_fuel(tree_add_list, 3);
    if cs.len() == 0 {
        assert(cs.push(c).drop_first() =~= Seq::<SnapView>::empty());
        assert(cs.push(c).first() == c);
    } else {
        assert(cs.push(c).first() == cs.first());
        assert(cs.push(c).drop_first() =~= cs.drop_first().push(c));
        lemma_tree_add_list_snoc(tree_add(t, parent, cs.first()), parent, cs.drop_first(), c);
    }
}

/// Which entries survive a removal: the removed node itself goes, and so,
/// scanning in ascending id order, does every entry whose parent has already
/// gone. Children always carry larger ids than their parents, so one forward
/// pass catches the whole subtree.
pub open spec fn purge(nodes: Seq<(u64, InstView)>, removed: Seq<u64>) -> Seq<(u64, InstView)>
    decreases nodes.len(),
{
    if nodes.len() == 0 {
        nodes
    } else if removed.contains(nodes[0].0) || removed.contains(nodes[0].1.parent) {
        purge(nodes.drop_first(), removed.push(nodes[0].0))
    } else {
        seq![nodes[0]] + purge(nodes.drop_first(), removed)
    }
}

/// Removing: never the root; a missing id is a no-op; otherwise the node
/// leaves its parent's child list and the purge pass deletes its subtree.
pub open spec fn tree_remove(t: TreeView, id: u64) -> TreeView {
    if id == t.root || lookup(t.nodes, id) is None {
        t
    } else {
        let p = lookup(t.nodes, id).unwrap().parent;
        let detached = map_first(t.nodes, p, detach_child_f(id));
        TreeView { nodes: purge(detached, seq![id]), root: t.root, next_id: t.next_id }
    }
}

/// Updating: the first entry bound to `id` gets the new properties; its id,
/// class, name, children and metadata are untouched. A missing id is a no-op.
pub open spec fn tree_update(
    t: TreeView,
    id: u64,
    props: Seq<(Seq<char>, Seq<char>)>,
) -> TreeView {
    TreeView { nodes: map_first(t.nodes, id, set_props_f(props)), root: t.root, next_id: t.next_id }
}

pub open spec fn apply_op(t: TreeView, op: OpView) -> TreeView {
    match op {
        OpView::Add { parent, subtree } => tree_add(t, parent, subtree),
        OpView::Remove { id } => tree_remove(t, id),
        OpView::Update { id, properties } => tree_update(t, id, properties),
    }
}

/// The whole meaning of `InstanceTree::apply`: the ops of a patch set, folded
/// over the tree in order. Replaying equal patch sets from equal trees yields
/// equal trees.
pub open spec fn apply_ops(t: TreeView, ops: Seq<OpView>) -> TreeView
    decreases ops.len(),
{
    if ops.len() == 0 {
        t
    } else {
        apply_ops(apply_op(t, ops.first()), ops.drop_first())
    }
}

pub proof fn lemma_apply_ops_snoc(t: TreeView, ops: Seq<OpView>, op: OpView)
    ensures
        apply_ops(t, ops.push(op)) == apply_op(apply_ops(t, ops), op),
    decreases ops.len(),
{
    reveal_with_fuel(apply_ops, 3);
    if ops.len() == 0 {
        assert(ops.push(op).drop_first() =~= Seq::<OpView>::empty());
        assert(ops.push(op).first() == op);
    } else {
        assert(ops.push(op).first() == ops.first());
        assert(ops.push(op).drop_first() =~= ops.drop_first().push(op));
        lemma_apply_ops_snoc(apply_op(t, ops.first()), ops.drop_first(), op);
    }
}

pub fn clone_ids(a: &Vec<u64>) -> (r: Vec<u64>)
    ensures
        r@ == a@,
{
    let mut r: Vec<u64> = Vec::new();
    let n = a.len();
    for i in 0..n
        invariant
            n == a.len(),
            r@ =~= a@.take(i as int),
    {
        r.push(a[i]);
        assert(r@ =~= a@.take(i + 1));
    }
    assert(r@ =~= a@);
    r
}

impl InstanceTree {
    /// The index of the first entry bound to `id`, if any.
    fn find_index(&self, id: u64) -> (r: Option<usize>)
        ensures
            self@.nodes.len() == self.nodes@.len(),
            match r {
                Some(i) => {
                    &&& i < self.nodes@.len()
                    &&& self@.nodes[i as int].0 == id
                    &&& lookup(self@.nodes, id) == Some(self@.nodes[i as int].1)
                    &&& forall|j: int| 0 <= j < i ==> self@.nodes[j].0 != id
                },
                None => lookup(self@.nodes, id) is None,
            },
    {
        let n = self.nodes.len();
        proof {
            lemma_node_views_len(self.nodes@);
        }
        for i in 0..n
            invariant
                n == self.nodes.len(),
                self@.nodes.len() == n,
                forall|j: int| 0 <= j < i ==> self@.nodes[j].0 != id,
        {
            proof {
                lemma_node_views_index(self.nodes@, i as int);
            }
            if self.nodes[i].0 == id {
                proof {
                    lemma_lookup_first(self@.nodes, id, i as int);
                }
                return Some(i);
            }
        }
        proof {
            lemma_lookup_index(self@.nodes, id);
        }
        None
    }

    /// Graft `subtree` under `parent`, allocating fresh ids.
    pub fn add_subtree(&mut self, parent: u64, subtree: &SnapshotNode)
        ensures
            final(self)@ == tree_add(old(self)@, parent, subtree@),
        decreases *subtree,
    {
        if self.next_id == u64::MAX {
            return;
        }
        let idx = match self.find_index(parent) {
            None => {
                return;
            },
            Some(i) => i,
        };
        let ghost t0 = self@;
        let id = self.next_id;
        self.nodes[idx].1.children.push(id);
        proof {
            lemma_node_views_len(old(self).nodes@);
            assert forall|k: int| 0 <= k < self.nodes@.len() implies self@.nodes[k]
                == map_first(t0.nodes, parent, attach_child_f(id))[k] by {
                lemma_node_views_index(self.nodes@, k);
                lemma_node_views_index(old(self).nodes@, k);
                lemma_map_first_hit(t0.nodes, parent, attach_child_f(id), idx as int);
                if k == idx {
                    assert(self.nodes@[k].1@ == attach_child_f(id)(t0.nodes[k].1));
                }
            }
            lemma_map_first_hit(t0.nodes, parent, attach_child_f(id), idx as int);
            lemma_node_views_len(self.nodes@);
            assert(self@.nodes =~= map_first(t0.nodes, parent, attach_child_f(id)));
        }
        let inst = Instance {
            id,
            parent,
            class_name: subtree.class_name.clone(),
            name: subtree.name.clone(),
            properties: clone_props(&subtree.properties),
            children: Vec::new(),
            source_path: clone_source_path(&subtree.source_path),
            ignore_unknown: false,
        };
        let ghost attached = self@.nodes;
        self.nodes.push((id, inst));
        self.next_id = id + 1;
        proof {
            assert(self.nodes@.drop_last() =~= old(self).nodes@.update(
                idx as int,
                self.nodes@[idx as int],
            ));
        }
        let ghost t1 = TreeView {
            nodes: attached.push(
                (
                    id,
                    InstView {
                        parent,
                        class_name: subtree@.class_name,
                        name: subtree@.name,
                        properties: subtree@.properties,
                        children: Seq::empty(),
                        source_path: subtree@.source_path,
                        ignore_unknown: false,
                    },
                ),
            ),
            root: self.root,
            next_id: (id + 1) as u64,
        };
        proof {
            assert(node_views(self.nodes@) == node_views(self.nodes@.drop_last()).push(
                (self.nodes@.last().0, self.nodes@.last().1@),
            ));
            assert forall|k: int| 0 <= k < self.nodes@.len() - 1 implies node_views(
                self.nodes@,
            )[k] == attached[k] by {
                lemma_node_views_index(self.nodes@, k);
                lemma_node_views_index(self.nodes@.drop_last(), k);
                lemma_node_views_len(self.nodes@.drop_last());
                assert(self.nodes@.drop_last()[k] == self.nodes@[k]);
            }
            lemma_node_views_len(self.nodes@);
            assert(self.nodes@[self.nodes@.len() - 1].1@.children
                =~= Seq::<u64>::empty());
            assert(self@.nodes =~= t1.nodes);
            assert(self@ == t1);
        }
        let n = subtree.children.len();
        for i in 0..n
            invariant
                n == subtree.children.len(),
                self@ == tree_add_list(t1, id, snap_views(subtree.children@).take(i as int)),
            decreases n - i,
        {
            let ghost before = snap_views(subtree.children@).take(i as int);
            self.add_subtree(id, &subtree.children[i]);
            proof {
                lemma_snap_views_index(subtree.children@, i as int);
                lemma_tree_add_list_snoc(t1, id, before, snap_view(subtree.children@[i as int]));
                assert(before.push(snap_view(subtree.children@[i as int])) =~= snap_views(
                    subtree.children@,
                ).take(i + 1));
            }
        }
        proof {
            crate::snapshot::lemma_snap_views_len(subtree.children@);
            assert(snap_views(subtree.children@).take(n as int) =~= snap_views(
                subtree.children@,
            ));
            assert(tree_add(t0, parent, subtree@) == tree_add_list(t1, id, subtree@.children));
        }
    }

    /// Remove the node bound to `id` and all of its descendants, and unlink
    /// it from its parent's child list. The root cannot be removed.
    pub fn remove_subtree(&mut self, id: u64)
        ensures
            final(self)@ == tree_remove(old(self)@, id),
    {
        if id == self.root {
            return;
        }
        let idx = match self.find_index(id) {
            None => {
                return;
            },
            Some(i) => i,
        };
        let ghost t0 = self@;
        let p = self.nodes[idx].1.parent;
        proof {
            lemma_node_views_index(self.nodes@, idx as int);
            assert(lookup(t0.nodes, id).unwrap().parent == p);
        }
        // Unlink from the parent's child list.
        match self.find_index(p) {
            None => {
                proof {
                    lemma_lookup_index(t0.nodes, p);
                    lemma_map_first_miss(t0.nodes, p, detach_child_f(id));
                }
            },
            Some(pi) => {
                let mut kept: Vec<u64> = Vec::new();
                let m = self.nodes[pi].1.children.len();
                let ghost cs = self.nodes@[pi as int].1.children@;
                for j in 0..m
                    invariant
                        m == self.nodes@[pi as int].1.children@.len(),
                        pi < self.nodes@.len(),
                        cs == self.nodes@[pi as int].1.children@,
                        kept@ =~= remove_val(cs.take(j as int), id),
                {
                    let c = self.nodes[pi].1.children[j];
                    if c != id {
                        kept.push(c);
                    }
                    proof {
                        assert(cs.take(j + 1).drop_last() =~= cs.take(j as int));
                    }
                }
                proof {
                    assert(cs.take(m as int) =~= cs);
                }
                self.nodes[pi].1.children = kept;
                proof {
                    lemma_map_first_hit(t0.nodes, p, detach_child_f(id), pi as int);
                    assert forall|k: int| 0 <= k < self.nodes@.len() implies node_views(
                        self.nodes@,
                    )[k] == map_first(t0.nodes, p, detach_child_f(id))[k] by {
                        lemma_node_views_index(self.nodes@, k);
                        lemma_node_views_index(old(self).nodes@, k);
                    }
                    lemma_node_views_len(self.nodes@);
                    lemma_node_views_len(old(self).nodes@);
                    assert(self@.nodes =~= map_first(t0.nodes, p, detach_child_f(id)));
                }
            },
        }
        let ghost detached = map_first(t0.nodes, p, detach_child_f(id));
        assert(self@.nodes == detached);
        // Purge the subtree in one ascending pass.
        let mut out: Vec<(u64, Instance)> = Vec::new();
        let mut removed: Vec<u64> = Vec::new();
        removed.push(id);
        let n = self.nodes.len();
        proof {
            lemma_node_views_len(self.nodes@);
            assert(removed@ =~= seq![id]);
            assert(detached.skip(0) =~= detached);
        }
        for i in 0..n
            invariant
                n == self.nodes@.len(),
                self@.nodes == detached,
                detached.len() == n,
                purge(detached, seq![id]) =~= node_views(out@) + purge(
                    detached.skip(i as int),
                    removed@,
                ),
        {
            proof {
                lemma_node_views_index(self.nodes@, i as int);
                assert(detached.skip(i as int)[0] == detached[i as int]);
            }
            let here_id = self.nodes[i].0;
            let here_parent = self.nodes[i].1.parent;
            let in_removed_id = contains_u64(&removed, here_id);
            let in_removed_parent = contains_u64(&removed, here_parent);
            if in_removed_id || in_removed_parent {
                removed.push(here_id);
                proof {
                    assert(detached.skip(i as int).drop_first() =~= detached.skip(i + 1));
                }
            } else {
                let ghost prev_out = out@;
                let entry_id = self.nodes[i].0;
                let inst = clone_instance(&self.nodes[i].1);
                out.push((entry_id, inst));
                proof {
                    assert(out@.drop_last() =~= prev_out);
                    assert(node_views(out@) =~= node_views(prev_out).push(
                        (detached[i as int].0, detached[i as int].1),
                    ));
                    assert(detached.skip(i as int).drop_first() =~= detached.skip(i + 1));
                    assert(seq![detached[i as int]] + purge(detached.skip(i + 1), removed@)
                        =~= purge(detached.skip(i as int), removed@).take(1) + purge(
                        detached.skip(i + 1),
                        removed@,
                    ));
                    assert(node_views(out@) + purge(detached.skip(i + 1), removed@) =~= (
                    node_views(prev_out) + purge(detached.skip(i as int), removed@)));
                }
            }
        }
        proof {
            assert(detached.skip(n as int) =~= Seq::<(u64, InstView)>::empty());
            assert(purge(detached, seq![id]) =~= node_views(out@));
        }
        self.nodes = out;
        proof {
            assert(self@.nodes =~= purge(detached, seq![id]));
            assert(self@ == tree_remove(t0, id));
        }
    }

    /// Replace the properties of the node bound to `id`.
    pub fn update_properties(&mut self, id: u64, properties: Vec<(String, String)>)
        ensures
            final(self)@ == tree_update(old(self)@, id, properties.deep_view()),
    {
        let ghost t0 = self@;
        match self.find_index(id) {
            None => {
                proof {
                    lemma_lookup_index(t0.nodes, id);
                    lemma_map_first_miss(t0.nodes, id, set_props_f(properties.deep_view()));
                    assert(self@.nodes =~= map_first(
                        t0.nodes,
                        id,
                        set_props_f(properties.deep_view()),
                    ));
                }
            },
            Some(i) => {
                self.nodes[i].1.properties = properties;
                proof {
                    lemma_map_first_hit(t0.nodes, id, set_props_f(properties.deep_view()), i as int);
                    assert forall|k: int| 0 <= k < self.nodes@.len() implies node_views(
                        self.nodes@,
                    )[k] == map_first(t0.nodes, id, set_props_f(properties.deep_view()))[k] by {
                        lemma_node_views_index(self.nodes@, k);
                        lemma_node_views_index(old(self).nodes@, k);
                    }
                    lemma_node_views_len(self.nodes@);
                    lemma_node_views_len(old(self).nodes@);
                    assert(self@.nodes =~= map_first(
                        t0.nodes,
                        id,
                        set_props_f(properties.deep_view()),
                    ));
                }
            },
        }
    }

    /// Apply a whole patch set, op by op, in order. Readers of `&self`
    /// never see a partially applied batch, since `apply` holds the one
    /// exclusive borrow until every op is in.
    pub fn apply(&mut self, patch: PatchSet)
        ensures
            final(self)@ == apply_ops(old(self)@, patch@),
    {
        let ghost t0 = self@;
        let ghost ops = patch@;
        proof {
            lemma_op_views_len(patch.ops@);
        }
        let mut i: usize = 0;
        let n = patch.ops.len();
        let mut patch = patch;
        for i in 0..n
            invariant
                n == patch.ops@.len(),
                ops == op_views(patch.ops@),
                ops.len() == n,
                self@ == apply_ops(t0, ops.take(i as int)),
        {
            proof {
                lemma_op_views_index(patch.ops@, i as int);
            }
            let ghost before = ops.take(i as int);
            match &patch.ops[i] {
                PatchOp::Add { parent, subtree } => {
                    let p = *parent;
                    self.add_subtree(p, subtree);
                },
                PatchOp::Remove { id } => {
                    let r = *id;
                    self.remove_subtree(r);
                },
                PatchOp::Update { id, properties } => {
                    let u = *id;
                    let props = clone_props(properties);
                    self.update_properties(u, props);
                },
            }
            proof {
                lemma_apply_ops_snoc(t0, before, ops[i as int]);
                assert(before.push(ops[i as int]) =~= ops.take(i + 1));
                assert(self@ == apply_op(apply_ops(t0, before), ops[i as int]));
            }
        }
        proof {
            assert(ops.take(n as int) =~= ops);
        }
    }
}

impl InstanceTree {
    /// The child ids of the instance bound to `id`, if it is live.
    pub fn children_of(&self, id: u64) -> (r: Option<&Vec<u64>>)
        ensures
            match r {
                Some(cs) => lookup(self@.nodes, id) is Some && lookup(
                    self@.nodes,
                    id,
                ).unwrap().children == cs@,
                None => lookup(self@.nodes, id) is None,
            },
    {
        match self.get(id) {
            Some(inst) => Some(&inst.children),
            None => None,
        }
    }

    /// The metadata of the instance bound to `id`, if it is live.
    pub fn metadata_of(&self, id: u64) -> (r: Option<InstanceMetadata>)
        ensures
            match r {
                Some(m) => lookup(self@.nodes, id) is Some && m.source_path.deep_view()
                    == lookup(self@.nodes, id).unwrap().source_path && m.ignore_unknown == lookup(
                    self@.nodes,
                    id,
                ).unwrap().ignore_unknown,
                None => lookup(self@.nodes, id) is None,
            },
    {
        match self.get(id) {
            Some(inst) => Some(
                InstanceMetadata {
                    source_path: clone_source_path(&inst.source_path),
                    ignore_unknown: inst.ignore_unknown,
                },
            ),
            None => None,
        }
    }

    /// A faithful copy of every entry, for a subscriber bootstrap.
    pub fn export_nodes(&self) -> (r: Vec<(u64, Instance)>)
        ensures
            node_views(r@) == self@.nodes,
    {
        let mut out: Vec<(u64, Instance)> = Vec::new();
        let n = self.nodes.len();
        proof {
            lemma_node_views_len(self.nodes@);
        }
        for i in 0..n
            invariant
                n == self.nodes@.len(),
                node_views(out@) =~= node_views(self.nodes@).take(i as int),
        {
            proof {
                lemma_node_views_index(self.nodes@, i as int);
            }
            let ghost prev = out@;
            out.push((self.nodes[i].0, clone_instance(&self.nodes[i].1)));
            proof {
                assert(out@.drop_last() =~= prev);
                assert(node_views(out@) =~= node_views(prev).push(
                    node_views(self.nodes@)[i as int],
                ));
                assert(node_views(self.nodes@).take(i + 1).drop_last() =~= node_views(
                    self.nodes@,
                ).take(i as int));
            }
        }
        proof {
            assert(node_views(self.nodes@).take(n as int) =~= node_views(self.nodes@));
        }
        out
    }
}

/// Whether `v` occurs in `s`.
pub fn contains_u64(s: &Vec<u64>, v: u64) -> (r: bool)
    ensures
        r == s@.contains(v),
{
    let n = s.len();
    for i in 0..n
        invariant
            n == s.len(),
            forall|j: int| 0 <= j < i ==> s@[j] != v,
    {
        if s[i] == v {
            return true;
        }
    }
    false
}

pub fn clone_instance(a: &Instance) -> (r: Instance)
    ensures
        r@ == a@,
        r.id == a.id,
{
    Instance {
        id: a.id,
        parent: a.parent,
        class_name: a.class_name.clone(),
        name: a.name.clone(),
        properties: clone_props(&a.properties),
        children: clone_ids(&a.children),
        source_path: clone_source_path(&a.source_path),
        ignore_unknown: a.ignore_unknown,
    }
}

/// `map_first` leaves every other id's binding alone, and applies `f` to
/// the target's.
pub proof fn lemma_lookup_map_first(
    nodes: Seq<(u64, InstView)>,
    id: u64,
    f: spec_fn(InstView) -> InstView,
    x: u64,
)
    ensures
        x != id ==> lookup(map_first(nodes, id, f), x) == lookup(nodes, x),
        x == id ==> lookup(map_first(nodes, id, f), x) == (match lookup(nodes, x) {
            Some(v) => Some(f(v)),
            None => None,
        }),
    decreases nodes.len(),
{
    if nodes.len() > 0 {
        if nodes[0].0 == id {
            let m = seq![(id, f(nodes[0].1))] + nodes.drop_first();
            assert(m[0] == (id, f(nodes[0].1)));
            assert(m.drop_first() =~= nodes.drop_first());
        } else {
            lemma_lookup_map_first(nodes.drop_first(), id, f, x);
            let m = seq![nodes[0]] + map_first(nodes.drop_first(), id, f);
            assert(m[0] == nodes[0]);
            assert(m.drop_first() =~= map_first(nodes.drop_first(), id, f));
        }
    }
}

/// Under unique ids, whatever the purge pass keeps it keeps verbatim: a
/// surviving id is still bound to the very same instance value.
pub proof fn lemma_purge_preserves(
    nodes: Seq<(u64, InstView)>,
    removed: Seq<u64>,
    x: u64,
)
    requires
        ids_unique(nodes),
    ensures
        lookup(purge(nodes, removed), x) is Some ==> lookup(purge(nodes, removed), x) == lookup(
            nodes,
            x,
        ),
    decreases nodes.len(),
{
    if nodes.len() > 0 {
        assert forall|i: int, j: int| 0 <= i < j < nodes.drop_first().len()
            implies nodes.drop_first()[i].0 != nodes.drop_first()[j].0 by {
            assert(nodes.drop_first()[i] == nodes[i + 1]);
            assert(nodes.drop_first()[j] == nodes[j + 1]);
        }
        if removed.contains(nodes[0].0) || removed.contains(nodes[0].1.parent) {
            lemma_purge_preserves(nodes.drop_first(), removed.push(nodes[0].0), x);
            if lookup(purge(nodes, removed), x) is Some {
                lemma_lookup_in_entries(nodes.drop_first(), x);
                if nodes[0].0 == x {
                    let w = choose|w: int| 0 <= w < nodes.drop_first().len()
                        && nodes.drop_first()[w].0 == x;
                    assert(nodes[0].0 == nodes[w + 1].0);
                    assert(false);
                }
            }
        } else {
            lemma_purge_preserves(nodes.drop_first(), removed, x);
            let m = seq![nodes[0]] + purge(nodes.drop_first(), removed);
            assert(m[0] == nodes[0]);
            assert(m.drop_first() =~= purge(nodes.drop_first(), removed));
        }
    }
}

/// A bound id names some entry.
pub proof fn lemma_lookup_in_entries(nodes: Seq<(u64, InstView)>, x: u64)
    ensures
        lookup(nodes, x) is Some ==> exists|w: int| 0 <= w < nodes.len() && nodes[w].0 == x,
    decreases nodes.len(),
{
    if nodes.len() > 0 && nodes[0].0 != x {
        lemma_lookup_in_entries(nodes.drop_first(), x);
        if lookup(nodes, x) is Some {
            let w = choose|w: int| 0 <= w < nodes.drop_first().len() && nodes.drop_first()[w].0
                == x;
            assert(nodes[w + 1].0 == x);
        }
    }
}

pub open spec fn keys_bounded(nodes: Seq<(u64, InstView)>, bound: u64) -> bool {
    forall|i: int| 0 <= i < nodes.len() ==> #[trigger] nodes[i].0 < bound
}

/// Appending an entry never disturbs an id that is already bound.
pub proof fn lemma_lookup_push(nodes: Seq<(u64, InstView)>, e: (u64, InstView), x: u64)
    ensures
        lookup(nodes, x) is Some ==> lookup(nodes.push(e), x) == lookup(nodes, x),
        lookup(nodes, x) is None ==> lookup(nodes.push(e), x) == (if e.0 == x {
            Some(e.1)
        } else {
            None
        }),
    decreases nodes.len(),
{
    reveal_with_fuel(lookup, 3);
    if nodes.len() == 0 {
        assert(nodes.push(e)[0] == e);
        assert(nodes.push(e).drop_first() =~= Seq::<(u64, InstView)>::empty());
    } else {
        assert(nodes.push(e)[0] == nodes[0]);
        assert(nodes.push(e).drop_first() =~= nodes.drop_first().push(e));
        lemma_lookup_push(nodes.drop_first(), e, x);
    }
}

/// Grafting a subtree touches nothing that already exists, except that the
/// named parent gains child ids: every pre-existing instance keeps its id,
/// class, name, parent and properties, and every instance other than the
/// graft parent keeps its child list too. The fresh ids stay above every
/// pre-existing id.
pub proof fn lemma_add_preserves_existing(t: TreeView, parent: u64, s: SnapView, x: u64)
    requires
        keys_bounded(t.nodes, t.next_id),
        lookup(t.nodes, x) is Some,
    ensures
        ({
            let r = tree_add(t, parent, s);
            let before = lookup(t.nodes, x).unwrap();
            let after = lookup(r.nodes, x);
            &&& after is Some
            &&& after.unwrap().class_name == before.class_name
            &&& after.unwrap().name == before.name
            &&& after.unwrap().parent == before.parent
            &&& after.unwrap().properties == before.properties
            &&& after.unwrap().source_path == before.source_path
            &&& after.unwrap().ignore_unknown == before.ignore_unknown
            &&& (x != parent ==> after.unwrap().children == before.children)
            &&& keys_bounded(r.nodes, r.next_id)
            &&& r.next_id >= t.next_id
            &&& r.root == t.root
        }),
    decreases s, 0nat, 0nat,
{
    if !(lookup(t.nodes, parent) is None || t.next_id == u64::MAX) {
        let id = t.next_id;
        lemma_lookup_in_entries(t.nodes, x);
        let w = choose|w: int| 0 <= w < t.nodes.len() && t.nodes[w].0 == x;
        assert(x < t.next_id);
        let m1 = map_first(t.nodes, parent, attach_child_f(id));
        lemma_lookup_map_first(t.nodes, parent, attach_child_f(id), x);
        lemma_map_first_keys(t.nodes, parent, attach_child_f(id), 0);
        assert forall|i: int| 0 <= i < m1.len() implies #[trigger] m1[i].0 < t.next_id by {
            lemma_map_first_keys(t.nodes, parent, attach_child_f(id), i);
        }
        let node = InstView {
            parent,
            class_name: s.class_name,
            name: s.name,
            properties: s.properties,
            children: Seq::empty(),
            source_path: s.source_path,
            ignore_unknown: false,
        };
        lemma_lookup_push(m1, (id, node), x);
        let t1 = TreeView { nodes: m1.push((id, node)), root: t.root, next_id: (id + 1) as u64 };
        assert(keys_bounded(t1.nodes, t1.next_id));
        assert(lookup(t1.nodes, x) is Some);
        lemma_add_list_preserves_existing(t1, id, s.children, x);
    }
}

pub proof fn lemma_add_list_preserves_existing(
    t: TreeView,
    parent: u64,
    cs: Seq<SnapView>,
    x: u64,
)
    requires
        keys_bounded(t.nodes, t.next_id),
        lookup(t.nodes, x) is Some,
    ensures
        ({
            let r = tree_add_list(t, parent, cs);
            let before = lookup(t.nodes, x).unwrap();
            let after = lookup(r.nodes, x);
            &&& after is Some
            &&& after.unwrap().class_name == before.class_name
            &&& after.unwrap().name == before.name
            &&& after.unwrap().parent == before.parent
            &&& after.unwrap().properties == before.properties
            &&& after.unwrap().source_path == before.source_path
            &&& after.unwrap().ignore_unknown == before.ignore_unknown
            &&& (x != parent ==> after.unwrap().children == before.children)
            &&& keys_bounded(r.nodes, r.next_id)
            &&& r.next_id >= t.next_id
            &&& r.root == t.root
        }),
    decreases cs, 0nat, 0nat,
{
    if cs.len() > 0 {
        lemma_add_preserves_existing(t, parent, cs.first(), x);
        lemma_add_list_preserves_existing(tree_add(t, parent, cs.first()), parent, cs.drop_first(), x);
    }
}

/// Identity stability under one mutation: an instance that a patch op
/// leaves in the tree keeps its id bound to a node with the same class,
/// name, parent and (except an update's own target) properties. Adding or
/// removing unrelated siblings never reassigns or reshapes a surviving
/// instance; only the graft or removal point's parent sees its child list
/// change, and only an update's own target sees new properties.
pub proof fn lemma_identity_stable(t: TreeView, op: OpView, x: u64)
    requires
        ids_unique(t.nodes),
        keys_bounded(t.nodes, t.next_id),
        lookup(t.nodes, x) is Some,
    ensures
        op matches OpView::Add { parent, subtree } ==> {
            let before = lookup(t.nodes, x).unwrap();
            let after = lookup(apply_op(t, op).nodes, x);
            &&& after is Some
            &&& after.unwrap().class_name == before.class_name
            &&& after.unwrap().name == before.name
            &&& after.unwrap().parent == before.parent
            &&& after.unwrap().properties == before.properties
            &&& after.unwrap().source_path == before.source_path
            &&& after.unwrap().ignore_unknown == before.ignore_unknown
            &&& (x != parent ==> after.unwrap().children == before.children)
        },
        op matches OpView::Remove { id } ==> (lookup(apply_op(t, op).nodes, x) is Some ==> {
            let before = lookup(t.nodes, x).unwrap();
            let after = lookup(apply_op(t, op).nodes, x).unwrap();
            &&& after.class_name == before.class_name
            &&& after.name == before.name
            &&& after.parent == before.parent
            &&& after.properties == before.properties
            &&& after.source_path == before.source_path
            &&& after.ignore_unknown == before.ignore_unknown
        }),
        op matches OpView::Update { id, properties } ==> {
            let before = lookup(t.nodes, x).unwrap();
            let after = lookup(apply_op(t, op).nodes, x).unwrap();
            &&& lookup(apply_op(t, op).nodes, x) is Some
            &&& after.class_name == before.class_name
            &&& after.name == before.name
            &&& after.parent == before.parent
            &&& after.children == before.children
            &&& after.source_path == before.source_path
            &&& after.ignore_unknown == before.ignore_unknown
            &&& (x != id ==> after.properties == before.properties)
            &&& (x == id ==> after.properties == properties)
        },
{
    match op {
        OpView::Remove { id } => {
            if !(id == t.root || lookup(t.nodes, id) is None) {
                let p = lookup(t.nodes, id).unwrap().parent;
                let detached = map_first(t.nodes, p, detach_child_f(id));
                lemma_lookup_map_first(t.nodes, p, detach_child_f(id), x);
                lemma_map_first_keys(t.nodes, p, detach_child_f(id), 0);
                assert forall|i: int, j: int| 0 <= i < j < detached.len()
                    implies detached[i].0 != detached[j].0 by {
                    lemma_map_first_keys(t.nodes, p, detach_child_f(id), i);
                    lemma_map_first_keys(t.nodes, p, detach_child_f(id), j);
                }
                lemma_purge_preserves(detached, seq![id], x);
            }
        },
        OpView::Update { id, properties } => {
            lemma_lookup_map_first(t.nodes, id, set_props_f(properties), x);
        },
        OpView::Add { parent, subtree } => {
            lemma_add_preserves_existing(t, parent, subtree, x);
        },
    }
}

/// `map_first` keeps every key in place.
pub proof fn lemma_map_first_keys(
    nodes: Seq<(u64, InstView)>,
    id: u64,
    f: spec_fn(InstView) -> InstView,
    i: int,
)
    requires
        0 <= i < nodes.len(),
    ensures
        map_first(nodes, id, f).len() == nodes.len(),
        map_first(nodes, id, f)[i].0 == nodes[i].0,
    decreases nodes.len(),
{
    if nodes.len() > 0 {
        if nodes[0].0 == id {
            let m = seq![(id, f(nodes[0].1))] + nodes.drop_first();
            if i > 0 {
                assert(m[i] == nodes.drop_first()[i - 1]);
            } else {
                assert(m[0] == (id, f(nodes[0].1)));
            }
        } else {
            let m = seq![nodes[0]] + map_first(nodes.drop_first(), id, f);
            if nodes.len() > 1 {
                lemma_map_first_keys(nodes.drop_first(), id, f, if i > 0 { i - 1 } else { 0 });
            }
            if i > 0 {
                assert(m[i] == map_first(nodes.drop_first(), id, f)[i - 1]);
            } else {
                assert(m[0] == nodes[0]);
            }
        }
    }
}

/// If every earlier entry misses, the entry at `i` is the lookup result.
pub proof fn lemma_lookup_first(nodes: Seq<(u64, InstView)>, id: u64, i: int)
    requires
        0 <= i < nodes.len(),
        nodes[i].0 == id,
        forall|j: int| 0 <= j < i ==> nodes[j].0 != id,
    ensures
        lookup(nodes, id) == Some(nodes[i].1),
    decreases nodes.len(),
{
    if i > 0 {
        lemma_lookup_first(nodes.drop_first(), id, i - 1);
        assert(nodes.drop_first()[i - 1] == nodes[i]);
        assert forall|j: int| 0 <= j < i - 1 implies nodes.drop_first()[j].0 != id by {
            assert(nodes.drop_first()[j] == nodes[j + 1]);
        }
    }
}

} // verus!
