//! Ephemeral, id-less instance-shaped trees. A snapshot is produced from the
//! project description and the filesystem mirror within one reconciliation
//! pass and discarded afterwards; it never carries identities.

use vstd::prelude::*;
use crate::path::FsPath;

verus! {

broadcast use vstd::std_specs::vec::vec_clone_deep_view_proof;

/// One node of a snapshot: what an instance should look like, before any
/// identity has been assigned.
pub struct SnapshotNode {
    pub class_name: String,
    pub name: String,
    pub properties: Vec<(String, String)>,
    pub children: Vec<SnapshotNode>,
    pub source_path: Option<FsPath>,
}

/// The mathematical value of a snapshot node.
pub struct SnapView {
    pub class_name: Seq<char>,
    pub name: Seq<char>,
    pub properties: Seq<(Seq<char>, Seq<char>)>,
    pub children: Seq<SnapView>,
    pub source_path: Option<Seq<Seq<char>>>,
}

pub open spec fn snap_view(n: SnapshotNode) -> SnapView
    decreases n,
{
    SnapView {
        class_name: n.class_name@,
        name: n.name@,
        properties: n.properties.deep_view(),
        children: snap_views(n.children@),
        source_path: n.source_path.deep_view(),
    }
}

pub open spec fn snap_views(cs: Seq<SnapshotNode>) -> Seq<SnapView>
    decreases cs,
{
    if cs.len() == 0 {
        Seq::empty()
    } else {
        snap_views(cs.drop_last()).push(snap_view(cs.last()))
    }
}

/// Each node of `cs` views to the node of `snap_views(cs)` at the same index.
pub proof fn lemma_snap_views_index(cs: Seq<SnapshotNode>, i: int)
    requires
        0 <= i < cs.len(),
    ensures
        snap_views(cs).len() == cs.len(),
        snap_views(cs)[i] == snap_view(cs[i]),
    decreases cs,
{
    if cs.len() > 0 {
        lemma_snap_views_len(cs.drop_last());
        if i < cs.len() - 1 {
            lemma_snap_views_index(cs.drop_last(), i);
            assert(cs.drop_last()[i] == cs[i]);
        }
    }
}

pub proof fn lemma_snap_views_len(cs: Seq<SnapshotNode>)
    ensures
        snap_views(cs).len() == cs.len(),
    decreases cs,
{
    if cs.len() > 0 {
        lemma_snap_views_len(cs.drop_last());
    }
}

impl View for SnapshotNode {
    type V = SnapView;

    open spec fn view(&self) -> SnapView {
        snap_view(*self)
    }
}

/// Property lists compare by their mathematical value, pair for pair.
pub fn props_eq(a: &Vec<(String, String)>, b: &Vec<(String, String)>) -> (r: bool)
    ensures
        r <==> a.deep_view() == b.deep_view(),
{
    if a.len() != b.len() {
        assert(a.deep_view().len() != b.deep_view().len());
        return false;
    }
    let n = a.len();
    for i in 0..n
        invariant
            n == a.len() == b.len(),
            forall|j: int| 0 <= j < i ==> a.deep_view()[j] == b.deep_view()[j],
    {
        let ka = &a[i].0;
        let kb = &b[i].0;
        let va = &a[i].1;
        let vb = &b[i].1;
        proof {
            assert(a.deep_view()[i as int] == a@[i as int].deep_view());
            assert(a@[i as int].deep_view() == (a@[i as int].0.deep_view(), a@[i as int].1.deep_view()));
            assert(b.deep_view()[i as int] == (b@[i as int].0@, b@[i as int].1@));
        }
        if *ka != *kb || *va != *vb {
            assert(a.deep_view()[i as int] != b.deep_view()[i as int]);
            return false;
        }
        assert(a.deep_view()[i as int] == b.deep_view()[i as int]);
    }
    assert(a.deep_view() =~= b.deep_view());
    true
}

pub fn clone_props(a: &Vec<(String, String)>) -> (r: Vec<(String, String)>)
    ensures
        r.deep_view() == a.deep_view(),
{
    let mut r: Vec<(String, String)> = Vec::new();
    let n = a.len();
    for i in 0..n
        invariant
            n == a.len(),
            r.deep_view().len() == i,
            forall|j: int| 0 <= j < i ==> r.deep_view()[j] == a.deep_view()[j],
    {
        r.push((a[i].0.clone(), a[i].1.clone()));
        assert(r.deep_view().last() == a.deep_view()[i as int]);
    }
    assert(r.deep_view() =~= a.deep_view());
    r
}

pub fn clone_source_path(p: &Option<FsPath>) -> (r: Option<FsPath>)
    ensures
        r.deep_view() == p.deep_view(),
{
    match p {
        Some(q) => Some(q.clone()),
        None => None,
    }
}

impl Clone for SnapshotNode {
    fn clone(&self) -> (r: SnapshotNode)
        ensures
            r@ == self@,
        decreases *self,
    {
        let mut children: Vec<SnapshotNode> = Vec::new();
        let n = self.children.len();
        for i in 0..n
            invariant
                n == self.children.len(),
                snap_views(children@).len() == i,
                forall|j: int| 0 <= j < i
                    ==> snap_views(children@)[j] == snap_views(self.children@)[j],
            decreases n - i,
        {
            let c = self.children[i].clone();
            let ghost prev = children@;
            proof {
                lemma_snap_views_index(self.children@, i as int);
            }
            children.push(c);
            proof {
                assert(children@.drop_last() =~= prev);
                assert(snap_views(children@) == snap_views(prev).push(snap_view(children@.last())));
                lemma_snap_views_len(prev);
                assert forall|j: int| 0 <= j < i + 1
                    implies snap_views(children@)[j] == snap_views(self.children@)[j] by {
                    if j < i {
                        assert(snap_views(children@)[j] == snap_views(prev)[j]);
                    }
                }
                lemma_snap_views_len(children@);
            }
        }
        proof {
            lemma_snap_views_len(self.children@);
            assert(snap_views(children@) =~= snap_views(self.children@));
        }
        SnapshotNode {
            class_name: self.class_name.clone(),
            name: self.name.clone(),
            properties: clone_props(&self.properties),
            children,
            source_path: clone_source_path(&self.source_path),
        }
    }
}

} // verus!
