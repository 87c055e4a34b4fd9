//! The static project description: the already-parsed input that directs the
//! snapshot builder. An `Instance` node declares a subtree verbatim; a
//! `SyncPoint` directs the builder to materialize the filesystem mirror at a
//! path, with optionally declared extra siblings.

use vstd::prelude::*;
use crate::path::FsPath;

verus! {

pub enum ProjectNode {
    Instance {
        class_name: String,
        properties: Vec<(String, String)>,
        children: Vec<(String, ProjectNode)>,
    },
    SyncPoint { path: FsPath, children: Vec<(String, ProjectNode)> },
}

/// The number of project nodes, used as a termination measure.
pub open spec fn pnode_size(n: ProjectNode) -> nat
    decreases n,
{
    match n {
        ProjectNode::Instance { class_name, properties, children } => 1 + pnode_list_size(
            children@,
        ),
        ProjectNode::SyncPoint { path, children } => 1 + pnode_list_size(children@),
    }
}

pub open spec fn pnode_list_size(cs: Seq<(String, ProjectNode)>) -> nat
    decreases cs,
{
    if cs.len() == 0 {
        0
    } else {
        pnode_list_size(cs.drop_last()) + pnode_size(cs.last().1)
    }
}

pub proof fn lemma_pnode_list_size_ge(cs: Seq<(String, ProjectNode)>, j: int)
    requires
        0 <= j < cs.len(),
    ensures
        pnode_size(cs[j].1) <= pnode_list_size(cs),
    decreases cs,
{
    if j < cs.len() - 1 {
        lemma_pnode_list_size_ge(cs.drop_last(), j);
        assert(cs.drop_last()[j] == cs[j]);
    }
}

/// A loaded project: name, tree, and where it came from. Serving options
/// are carried through untouched for the transport layer.
pub struct Project {
    pub name: String,
    pub tree: ProjectNode,
    pub serve_port: Option<u16>,
    pub serve_place_ids: Option<Vec<u64>>,
    pub file_location: FsPath,
}

} // verus!
