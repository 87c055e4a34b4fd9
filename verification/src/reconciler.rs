//! The tree diff engine: compares a fresh snapshot against the live tree and
//! produces the minimal patch set that brings the tree in line.
//!
//! Matching is structural: a snapshot node carries no id, so it is matched to
//! the existing child of the same parent with the same name. A matched pair
//! whose class agrees diffs by properties and recurses; a class change cannot
//! preserve identity, so it becomes a remove plus an add. Within one parent,
//! removes are sequenced before adds.

use vstd::prelude::*;
use crate::instance_tree::{InstanceTree, PatchOp, PatchSet, lookup, InstView, op_views};
use crate::snapshot::{SnapshotNode, SnapView, snap_view, snap_views, props_eq, lemma_snap_views_index, lemma_snap_views_len};

verus! {

/// The live tree already realizes the snapshot at `id`: the node exists with
/// the snapshot's class, name and properties, and its children correspond
/// one to one, in order, to the snapshot's children, recursively.
pub open spec fn realizes(nodes: Seq<(u64, InstView)>, id: u64, s: SnapView) -> bool
    decreases s,
{
    match lookup(nodes, id) {
        None => false,
        Some(v) => {
            &&& v.class_name == s.class_name
            &&& v.name == s.name
            &&& v.properties == s.properties
            &&& v.children.len() == s.children.len()
            &&& forall|i: int| 0 <= i < s.children.len()
                ==> realizes(nodes, v.children[i], #[trigger] s.children[i])
        },
    }
}

/// Sibling names are unique throughout the snapshot. The snapshot builder
/// derives children from name-keyed maps and directory listings, so what it
/// hands the reconciler has this shape.
pub open spec fn snap_unique_names(s: SnapView) -> bool
    decreases s,
{
    &&& forall|i: int, j: int| 0 <= i < j < s.children.len()
        ==> s.children[i].name != s.children[j].name
    &&& forall|i: int| 0 <= i < s.children.len()
        ==> snap_unique_names(#[trigger] s.children[i])
}

/// The live child at position `k` (if it resolves) carries a name that some
/// snapshot child also carries, so the diff has nothing to remove for it.
pub open spec fn live_child_named_in(
    nodes: Seq<(u64, InstView)>,
    v: InstView,
    s: SnapView,
    k: int,
) -> bool {
    lookup(nodes, v.children[k]) matches Some(c) ==> exists|w: int| 0 <= w < s.children.len()
        && (#[trigger] s.children[w]).name == c.name
}

/// The snapshot child at position `w` is matched by some live child of the
/// same name and class, so the diff has nothing to add or replace for it.
pub open spec fn snap_child_matched(
    nodes: Seq<(u64, InstView)>,
    v: InstView,
    s: SnapView,
    w: int,
) -> bool {
    exists|i: int| 0 <= i < v.children.len() && ((#[trigger] lookup(nodes, v.children[i]))
        matches Some(c) && c.name == s.children[w].name && c.class_name
        == s.children[w].class_name)
}

/// What an empty diff certifies of one level: the node's properties equal
/// the snapshot's, every resolving live child is named in the snapshot, and
/// every snapshot child is matched by a live child of the same name and
/// class. A diff that emits nothing guarantees this at the node it visited.
pub open spec fn level_agrees(nodes: Seq<(u64, InstView)>, id: u64, s: SnapView) -> bool {
    match lookup(nodes, id) {
        None => true,
        Some(v) => {
            &&& v.properties == s.properties
            &&& forall|k: int| 0 <= k < v.children.len() ==> live_child_named_in(nodes, v, s, k)
            &&& forall|w: int| 0 <= w < s.children.len() ==> snap_child_matched(nodes, v, s, w)
        },
    }
}

/// Find the child of `inst_children` whose name equals `name`.
fn find_child_by_name(tree: &InstanceTree, children: &Vec<u64>, name: &String) -> (r: Option<u64>)
    ensures
        match r {
            Some(cid) => {
                &&& children@.contains(cid)
                &&& lookup(tree@.nodes, cid) is Some
                &&& lookup(tree@.nodes, cid).unwrap().name == name@
            },
            None => forall|i: int| 0 <= i < children@.len()
                ==> !(lookup(tree@.nodes, #[trigger] children@[i]) is Some
                && lookup(tree@.nodes, children@[i]).unwrap().name == name@),
        },
{
    let n = children.len();
    for i in 0..n
        invariant
            n == children@.len(),
            forall|j: int| 0 <= j < i ==> !(lookup(tree@.nodes, #[trigger] children@[j]) is Some
                && lookup(tree@.nodes, children@[j]).unwrap().name == name@),
    {
        let cid = children[i];
        match tree.get(cid) {
            Some(inst) => {
                if inst.name == *name {
                    proof {
                        assert(children@[i as int] == cid);
                        assert(children@.contains(cid));
                    }
                    return Some(cid);
                }
            },
            None => {},
        }
    }
    None
}

/// Whether some snapshot child carries `name`.
fn snap_has_child(snap: &SnapshotNode, name: &String) -> (r: bool)
    ensures
        r <==> exists|i: int| 0 <= i < snap@.children.len()
            && (#[trigger] snap@.children[i]).name == name@,
{
    let n = snap.children.len();
    proof {
        lemma_snap_views_len(snap.children@);
    }
    for i in 0..n
        invariant
            n == snap.children@.len(),
            snap@.children.len() == n,
            forall|j: int| 0 <= j < i ==> (#[trigger] snap@.children[j]).name != name@,
    {
        proof {
            lemma_snap_views_index(snap.children@, i as int);
        }
        if snap.children[i].name == *name {
            proof {
                assert(snap@.children[i as int].name == name@);
            }
            return true;
        }
    }
    false
}

/// Diff the subtree rooted at the live instance `id` against the snapshot
/// node `snap`, appending the needed ops to `out`. The caller has already
/// matched `id` to `snap` (same name, same class). On a subtree the tree
/// already realizes, nothing at all is appended: a no-op pass produces an
/// empty patch set.
pub fn diff_subtree(tree: &InstanceTree, id: u64, snap: &SnapshotNode, out: &mut Vec<PatchOp>)
    ensures
        final(out)@.len() >= old(out)@.len(),
        forall|i: int| 0 <= i < old(out)@.len() ==> final(out)@[i] == old(out)@[i],
        realizes(tree@.nodes, id, snap@) && snap_unique_names(snap@) ==> final(out)@ == old(
            out,
        )@,
        // An empty diff is never a silent refusal: emitting nothing
        // certifies that this level already agrees with the snapshot.
        final(out)@ == old(out)@ ==> level_agrees(tree@.nodes, id, snap@),
    decreases *snap,
{
    let inst = match tree.get(id) {
        Some(inst) => inst,
        None => {
            return;
        },
    };
    let ghost rz = realizes(tree@.nodes, id, snap@) && snap_unique_names(snap@);
    proof {
        lemma_snap_views_len(snap.children@);
    }
    // Properties: a matched node whose values differ gets one update.
    if !props_eq(&inst.properties, &snap.properties) {
        out.push(
            PatchOp::Update { id, properties: crate::snapshot::clone_props(&snap.properties) },
        );
        proof {
            assert(!rz);
            assert(out@.len() > old(out)@.len());
        }
    } else {
        proof {
            assert(inst@.properties == snap@.properties);
        }
    }
    // Removes first: an existing child whose name is gone from the snapshot
    // leaves, with its whole subtree.
    let n = inst.children.len();
    for i in 0..n
        invariant
            n == inst.children@.len(),
            inst@ == lookup(tree@.nodes, id).unwrap(),
            lookup(tree@.nodes, id) is Some,
            snap@ == snap_view(*snap),
            out@.len() >= old(out)@.len(),
            forall|k: int| 0 <= k < old(out)@.len() ==> out@[k] == old(out)@[k],
            rz == (realizes(tree@.nodes, id, snap@) && snap_unique_names(snap@)),
            rz ==> out@ == old(out)@,
            out@ == old(out)@ ==> inst@.properties == snap@.properties,
            out@ == old(out)@ ==> forall|k: int| 0 <= k < i ==> live_child_named_in(
                tree@.nodes,
                inst@,
                snap@,
                k,
            ),
    {
        let cid = inst.children[i];
        proof {
            assert(inst@.children[i as int] == cid);
        }
        match tree.get(cid) {
            Some(child) => {
                if !snap_has_child(snap, &child.name) {
                    out.push(PatchOp::Remove { id: cid });
                    proof {
                        if rz {
                            assert(inst@.children[i as int] == cid);
                            assert(realizes(tree@.nodes, cid, snap@.children[i as int]));
                            assert(lookup(tree@.nodes, cid).unwrap().name
                                == snap@.children[i as int].name);
                            assert(exists|w: int| 0 <= w < snap@.children.len()
                                && (#[trigger] snap@.children[w]).name == child@.name);
                        }
                    }
                } else {
                    proof {
                        assert(lookup(tree@.nodes, cid) == Some(child@));
                        assert(live_child_named_in(tree@.nodes, inst@, snap@, i as int));
                    }
                }
            },
            None => {
                proof {
                    assert(live_child_named_in(tree@.nodes, inst@, snap@, i as int));
                }
            },
        }
    }
    // Then adds and matched recursions, in snapshot order.
    let m = snap.children.len();
    for j in 0..m
        invariant
            m == snap.children@.len(),
            snap@.children.len() == m,
            inst@ == lookup(tree@.nodes, id).unwrap(),
            lookup(tree@.nodes, id) is Some,
            snap@ == snap_view(*snap),
            out@.len() >= old(out)@.len(),
            forall|k: int| 0 <= k < old(out)@.len() ==> out@[k] == old(out)@[k],
            rz == (realizes(tree@.nodes, id, snap@) && snap_unique_names(snap@)),
            rz ==> out@ == old(out)@,
            out@ == old(out)@ ==> inst@.properties == snap@.properties,
            out@ == old(out)@ ==> forall|k: int| 0 <= k < inst@.children.len()
                ==> live_child_named_in(tree@.nodes, inst@, snap@, k),
            out@ == old(out)@ ==> forall|w: int| 0 <= w < j ==> snap_child_matched(
                tree@.nodes,
                inst@,
                snap@,
                w,
            ),
        decreases m - j,
    {
        let ghost out_at_start = out@;
        proof {
            lemma_snap_views_index(snap.children@, j as int);
        }
        let sc = &snap.children[j];
        match find_child_by_name(tree, &inst.children, &sc.name) {
            Some(cid) => {
                let child = match tree.get(cid) {
                    Some(child) => child,
                    None => {
                        proof {
                            assert(false);
                        }
                        return;
                    },
                };
                proof {
                    if rz {
                        let w = choose|w: int| 0 <= w < inst@.children.len() && inst@.children[w]
                            == cid;
                        assert(realizes(tree@.nodes, cid, snap@.children[w]));
                        assert(snap@.children[w].name == child@.name);
                        assert(snap@.children[j as int].name == child@.name);
                        assert(w == j as int);
                        assert(realizes(tree@.nodes, cid, snap@.children[j as int]));
                        assert(child@.class_name == snap@.children[j as int].class_name);
                    }
                }
                if child.class_name == sc.class_name {
                    let ghost out_before = out@;
                    diff_subtree(tree, cid, sc, out);
                    proof {
                        if rz {
                            assert(snap_unique_names(snap@.children[j as int]));
                            assert(out@ == out_before);
                        }
                        if out@ == old(out)@ {
                            assert(out_before =~= old(out)@);
                            let i = choose|i: int| 0 <= i < inst@.children.len()
                                && inst@.children[i] == cid;
                            assert(lookup(tree@.nodes, inst@.children[i]) == Some(child@));
                            assert(snap_child_matched(tree@.nodes, inst@, snap@, j as int));
                        }
                    }
                } else {
                    out.push(PatchOp::Remove { id: cid });
                    out.push(PatchOp::Add { parent: id, subtree: sc.clone() });
                    proof {
                        assert(!rz);
                    }
                }
            },
            None => {
                out.push(PatchOp::Add { parent: id, subtree: sc.clone() });
                proof {
                    if rz {
                        assert(realizes(
                            tree@.nodes,
                            inst@.children[j as int],
                            snap@.children[j as int],
                        ));
                        assert(lookup(tree@.nodes, inst@.children[j as int]).unwrap().name
                            == snap@.children[j as int].name);
                    }
                }
            },
        }
        proof {
            if out@ == old(out)@ {
                assert(out_at_start =~= old(out)@);
            }
        }
    }
}

/// Diff the whole tree against a fresh snapshot of its root. The root's own
/// identity is never in question: only its properties and its descendants
/// can change. A tree that already realizes the snapshot yields the empty
/// patch set.
pub fn diff(tree: &InstanceTree, snap: &SnapshotNode) -> (r: PatchSet)
    ensures
        realizes(tree@.nodes, tree@.root, snap@) && snap_unique_names(snap@) ==> r@ == Seq::<
            crate::instance_tree::OpView,
        >::empty(),
        // Conversely, an empty patch set is never a silent refusal: the
        // root's properties and both child name sets already agree.
        r@ == Seq::<crate::instance_tree::OpView>::empty() ==> level_agrees(
            tree@.nodes,
            tree@.root,
            snap@,
        ),
{
    let mut ops: Vec<PatchOp> = Vec::new();
    let root = tree.root_id();
    diff_subtree(tree, root, snap, &mut ops);
    proof {
        crate::instance_tree::lemma_op_views_len(ops@);
        if op_views(ops@) == Seq::<crate::instance_tree::OpView>::empty() {
            assert(ops@ =~= Seq::<PatchOp>::empty());
        }
    }
    proof {
        if realizes(tree@.nodes, tree@.root, snap@) && snap_unique_names(snap@) {
            assert(ops@ =~= Seq::<PatchOp>::empty());
        }
    }
    let r = PatchSet { ops };
    proof {
        if realizes(tree@.nodes, tree@.root, snap@) && snap_unique_names(snap@) {
            assert(r@ =~= Seq::<crate::instance_tree::OpView>::empty());
        }
    }
    r
}

} // verus!
