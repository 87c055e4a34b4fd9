//! The snapshot builder: a pure function from the project description and
//! the filesystem mirror to an ephemeral, id-less snapshot tree. File
//! classification is data driven: a table maps file-name suffixes to class
//! names; what matches no rule becomes a generic opaque instance, or fails
//! under strict mode.

use vstd::prelude::*;
use vstd::string::*;
use vstd::utf8::is_ascii_chars;
use crate::path::FsPath;
use crate::imfs::{Imfs, ImfsItem, IView, lookup_path};
use crate::project::{ProjectNode, pnode_size, pnode_list_size, lemma_pnode_list_size_ge};
use crate::snapshot::{SnapshotNode, clone_props};

verus! {

/// One classification rule: a file whose name ends in `suffix` becomes an
/// instance of `class_name`, named by the stem before the suffix.
pub struct ClassRule {
    pub suffix: String,
    pub class_name: String,
}

/// The builder's configuration: the classification table and the policy for
/// files no rule matches.
pub struct BuildConfig {
    pub rules: Vec<ClassRule>,
    pub strict: bool,
}

/// Why a build could not produce a snapshot.
#[derive(Debug)]
pub enum BuildError {
    /// The mirror holds nothing at a sync point's path: the subtree is
    /// skipped for this pass and retried when the path turns dirty again.
    PathNotFound(FsPath),
    /// Strict mode only: a file under a sync point matched no rule.
    UnknownFileType(FsPath),
}

/// `n` ends with `s`.
pub open spec fn ends_with(n: Seq<char>, s: Seq<char>) -> bool {
    n.len() >= s.len() && n.subrange(n.len() - s.len(), n.len() as int) == s
}

/// The stem before a matched suffix, or nothing. Matching is exact on the
/// trailing characters; a non-ascii name matches no rule.
pub fn split_suffix(name: &String, suffix: &String) -> (r: Option<String>)
    ensures
        match r {
            Some(stem) => {
                &&& is_ascii_chars(name@)
                &&& ends_with(name@, suffix@)
                &&& stem@ == name@.subrange(0, name@.len() - suffix@.len())
            },
            None => !ends_with(name@, suffix@) || !is_ascii_chars(name@),
        },
{
    if !name.is_ascii() {
        return None;
    }
    let nl = name.as_str().unicode_len();
    let sl = suffix.as_str().unicode_len();
    if nl < sl {
        return None;
    }
    let start = nl - sl;
    for i in 0..sl
        invariant
            nl == name@.len(),
            sl == suffix@.len(),
            start == nl - sl,
            is_ascii_chars(name@),
            forall|j: int| 0 <= j < i ==> name@[start + j] == suffix@[j],
    {
        let a = name.as_str().get_char(start + i);
        let b = suffix.as_str().get_char(i);
        if a != b {
            proof {
                assert(name@[start + i] != suffix@[i as int]);
                assert(!ends_with(name@, suffix@)) by {
                    if ends_with(name@, suffix@) {
                        assert(name@.subrange(start as int, nl as int)[i as int] == suffix@[
                        i as int]);
                    }
                }
            }
            return None;
        }
    }
    let stem = name.as_str().substring_ascii(0, start).to_owned();
    proof {
        assert(name@.subrange(start as int, nl as int) =~= suffix@);
    }
    Some(stem)
}

/// What the table makes of a file name: the first rule whose suffix matches
/// wins, yielding the class and the stem before the suffix. A name that is
/// not ascii, or that no rule matches, classifies to nothing.
pub open spec fn classification(rules: Seq<ClassRule>, name: Seq<char>) -> Option<
    (Seq<char>, Seq<char>),
>
    decreases rules.len(),
{
    if !is_ascii_chars(name) {
        None
    } else if rules.len() == 0 {
        None
    } else if ends_with(name, rules[0].suffix@) {
        Some((rules[0].class_name@, name.subrange(0, name.len() - rules[0].suffix@.len())))
    } else {
        classification(rules.drop_first(), name)
    }
}

/// The last path component, which names a filesystem-derived entry.
pub open spec fn base_name_of(p: Seq<Seq<char>>) -> Seq<char> {
    if p.len() == 0 {
        Seq::empty()
    } else {
        p.last()
    }
}

/// The class a classified file gets: the matched rule's class, or the
/// opaque fallback.
pub open spec fn file_class(rules: Seq<ClassRule>, name: Seq<char>) -> Seq<char> {
    match classification(rules, name) {
        Some(pair) => pair.0,
        None => "Opaque"@,
    }
}

/// The name a filesystem entry contributes: a classified file's stem,
/// otherwise its last path component.
pub open spec fn derived_name(
    items: Seq<(Seq<Seq<char>>, IView)>,
    p: Seq<Seq<char>>,
    rules: Seq<ClassRule>,
) -> Seq<char> {
    match lookup_path(items, p) {
        Some(IView::File(b)) => match classification(rules, base_name_of(p)) {
            Some(pair) => pair.1,
            None => base_name_of(p),
        },
        _ => base_name_of(p),
    }
}

/// Classify a file name against the table.
pub fn classify(config: &BuildConfig, name: &String) -> (r: Option<(String, String)>)
    ensures
        r.deep_view() == classification(config.rules@, name@),
{
    let n = config.rules.len();
    proof {
        assert(config.rules@.skip(0) =~= config.rules@);
    }
    for i in 0..n
        invariant
            n == config.rules@.len(),
            classification(config.rules@, name@) == classification(
                config.rules@.skip(i as int),
                name@,
            ),
    {
        proof {
            assert(config.rules@.skip(i as int)[0] == config.rules@[i as int]);
            assert(config.rules@.skip(i as int).drop_first() =~= config.rules@.skip(i + 1));
        }
        match split_suffix(name, &config.rules[i].suffix) {
            Some(stem) => {
                let r = Some((config.rules[i].class_name.clone(), stem));
                proof {
                    assert(is_ascii_chars(name@));
                    assert(r.deep_view() == classification(config.rules@, name@));
                }
                return r;
            },
            None => {},
        }
    }
    proof {
        assert(config.rules@.skip(n as int) =~= Seq::<ClassRule>::empty());
    }
    None
}

/// `props` with the binding for `k` replaced by `v`: the first pair keyed
/// `k` takes the new value, or the pair is appended when the key is new.
pub open spec fn set_prop(
    props: Seq<(Seq<char>, Seq<char>)>,
    k: Seq<char>,
    v: Seq<char>,
) -> Seq<(Seq<char>, Seq<char>)>
    decreases props.len(),
{
    if props.len() == 0 {
        seq![(k, v)]
    } else if props[0].0 == k {
        seq![(k, v)] + props.drop_first()
    } else {
        seq![props[0]] + set_prop(props.drop_first(), k, v)
    }
}

/// `base` with every pair of `extra` folded in by `set_prop`: an explicit
/// project property always overrides a filesystem-inferred one.
pub open spec fn merged_props(
    base: Seq<(Seq<char>, Seq<char>)>,
    extra: Seq<(Seq<char>, Seq<char>)>,
) -> Seq<(Seq<char>, Seq<char>)>
    decreases extra.len(),
{
    if extra.len() == 0 {
        base
    } else {
        merged_props(set_prop(base, extra[0].0, extra[0].1), extra.drop_first())
    }
}

pub proof fn lemma_set_prop_hit(
    props: Seq<(Seq<char>, Seq<char>)>,
    k: Seq<char>,
    v: Seq<char>,
    i: int,
)
    requires
        0 <= i < props.len(),
        props[i].0 == k,
        forall|j: int| 0 <= j < i ==> props[j].0 != k,
    ensures
        set_prop(props, k, v) =~= props.update(i, (k, v)),
    decreases props.len(),
{
    if i == 0 {
        assert(seq![(k, v)] + props.drop_first() =~= props.update(0, (k, v)));
    } else {
        assert forall|j: int| 0 <= j < i - 1 implies props.drop_first()[j].0 != k by {
            assert(props.drop_first()[j] == props[j + 1]);
        }
        assert(props.drop_first()[i - 1] == props[i]);
        lemma_set_prop_hit(props.drop_first(), k, v, i - 1);
    }
}

pub proof fn lemma_set_prop_miss(props: Seq<(Seq<char>, Seq<char>)>, k: Seq<char>, v: Seq<char>)
    requires
        forall|j: int| 0 <= j < props.len() ==> props[j].0 != k,
    ensures
        set_prop(props, k, v) =~= props.push((k, v)),
    decreases props.len(),
{
    if props.len() > 0 {
        assert forall|j: int| 0 <= j < props.len() - 1 implies props.drop_first()[j].0 != k by {
            assert(props.drop_first()[j] == props[j + 1]);
        }
        lemma_set_prop_miss(props.drop_first(), k, v);
    }
}

/// Write one property, replacing the first pair with the same key or
/// appending a new pair.
pub fn set_prop_exec(props: &mut Vec<(String, String)>, key: &String, value: &String)
    ensures
        final(props).deep_view() == set_prop(old(props).deep_view(), key@, value@),
{
    let n = props.len();
    for i in 0..n
        invariant
            n == props@.len(),
            props@ == old(props)@,
            forall|j: int| 0 <= j < i ==> old(props).deep_view()[j].0 != key@,
    {
        proof {
            assert(props.deep_view()[i as int] == (props@[i as int].0@, props@[i as int].1@));
        }
        if props[i].0 == *key {
            props[i] = (key.clone(), value.clone());
            proof {
                lemma_set_prop_hit(old(props).deep_view(), key@, value@, i as int);
                assert(props.deep_view() =~= old(props).deep_view().update(
                    i as int,
                    (key@, value@),
                ));
            }
            return;
        }
    }
    props.push((key.clone(), value.clone()));
    proof {
        lemma_set_prop_miss(old(props).deep_view(), key@, value@);
        assert(props@.drop_last() =~= old(props)@);
        assert(props.deep_view() =~= old(props).deep_view().push((key@, value@)));
    }
}

/// Build the snapshot node a project node denotes. For an `Instance` the
/// declared shape is emitted verbatim; for a `SyncPoint` the mirror at its
/// path is materialized. `fuel` bounds the mirror descent; the orchestrator
/// passes one more than the mirror's entry count, which no acyclic mirror
/// exceeds. A declared child whose name collides with a filesystem-derived
/// one of a different kind is skipped and its name reported through
/// `conflicts`; sibling processing continues.
pub fn build_node(
    imfs: &Imfs,
    node: &ProjectNode,
    name: &String,
    config: &BuildConfig,
    fuel: u64,
    conflicts: &mut Vec<String>,
) -> (r: Result<SnapshotNode, BuildError>)
    ensures
        r matches Ok(out) ==> out@.name == name@,
        r matches Err(BuildError::UnknownFileType(p)) ==> config.strict,
        // A declared instance keeps its declared class and properties, with
        // one built child per declared child, and carries no source path.
        r matches Ok(out) ==> (node matches ProjectNode::Instance {
            class_name,
            properties,
            children,
        } ==> {
            &&& out@.class_name == class_name@
            &&& out@.properties == properties.deep_view()
            &&& out@.children.len() == children@.len()
            &&& out@.source_path is None
        }),
        // A childless declared instance always builds.
        (node matches ProjectNode::Instance { class_name, properties, children }
            && children@.len() == 0) ==> r is Ok,
    decreases fuel, pnode_size(*node), 0nat,
{
    match node {
        ProjectNode::Instance { class_name, properties, children } => {
            let mut out_children: Vec<SnapshotNode> = Vec::new();
            let m = children.len();
            for j in 0..m
                invariant
                    m == children@.len(),
                    out_children@.len() == j,
                    *node == (ProjectNode::Instance {
                        class_name: *class_name,
                        properties: *properties,
                        children: *children,
                    }),
                decreases m - j,
            {
                proof {
                    lemma_pnode_list_size_ge(children@, j as int);
                }
                let built = build_node(imfs, &children[j].1, &children[j].0, config, fuel, conflicts);
                match built {
                    Ok(c) => {
                        out_children.push(c);
                    },
                    Err(e) => {
                        return Err(e);
                    },
                }
            }
            proof {
                crate::snapshot::lemma_snap_views_len(out_children@);
            }
            Ok(
                SnapshotNode {
                    class_name: class_name.clone(),
                    name: name.clone(),
                    properties: clone_props(properties),
                    children: out_children,
                    source_path: None,
                },
            )
        },
        ProjectNode::SyncPoint { path, children } => {
            proof {
                assert(pnode_list_size(children@) < pnode_size(*node));
            }
            build_from_path(imfs, path, name, children, config, fuel, conflicts)
        },
    }
}

/// Materialize the mirror at `path` as a snapshot node named `name`, then
/// merge the declared children in by name. Every entry of the mirrored
/// directory yields exactly one child, in listing order, carrying that
/// entry's path. A declared instance whose name a filesystem-derived child
/// already took merges into it: each explicitly declared property
/// overrides the filesystem-inferred one for the same key. A declared sync
/// point colliding with a derived child is a kind conflict: that one child
/// is skipped and its name reported through `conflicts`, and the siblings
/// proceed. Declared names the filesystem did not produce build as fresh
/// children after the derived ones.
pub fn build_from_path(
    imfs: &Imfs,
    path: &FsPath,
    name: &String,
    declared: &Vec<(String, ProjectNode)>,
    config: &BuildConfig,
    fuel: u64,
    conflicts: &mut Vec<String>,
) -> (r: Result<SnapshotNode, BuildError>)
    ensures
        r matches Ok(node) ==> node@.name == name@,
        r matches Ok(node) ==> node@.source_path == Some(path@),
        r is Ok ==> lookup_path(imfs@.items, path@) is Some,
        r matches Err(BuildError::UnknownFileType(p)) ==> config.strict,
        // A mirrored file always builds outside strict mode, and its shape
        // is exactly what the classification table says for `name`.
        (lookup_path(imfs@.items, path@) matches Some(IView::File(b)) && !config.strict) ==> r
            is Ok,
        r matches Ok(node) ==> (lookup_path(imfs@.items, path@) matches Some(IView::File(b))
            ==> {
            &&& node@.class_name == file_class(config.rules@, name@)
            &&& node@.children == Seq::<crate::snapshot::SnapView>::empty()
            &&& node@.properties == Seq::<(Seq<char>, Seq<char>)>::empty()
        }),
        r matches Ok(node) ==> (lookup_path(imfs@.items, path@) matches Some(
            IView::Directory(cks),
        ) ==> {
            &&& node@.class_name == "Folder"@
            &&& node@.children.len() >= cks.len()
            &&& node@.children.len() <= cks.len() + declared@.len()
            &&& forall|i: int| 0 <= i < cks.len()
                ==> (#[trigger] node@.children[i]).source_path == Some(cks[i])
        }),
    decreases fuel, pnode_list_size(declared@), 1nat,
{
    let item = match imfs.get(path) {
        Some(item) => item,
        None => {
            return Err(BuildError::PathNotFound(path.clone()));
        },
    };
    match item {
        ImfsItem::File { contents } => {
            match classify(config, name) {
                Some(pair) => Ok(
                    SnapshotNode {
                        class_name: pair.0,
                        name: name.clone(),
                        properties: Vec::new(),
                        children: Vec::new(),
                        source_path: Some(path.clone()),
                    },
                ),
                None => {
                    if config.strict {
                        Err(BuildError::UnknownFileType(path.clone()))
                    } else {
                        Ok(
                            SnapshotNode {
                                class_name: opaque_class(),
                                name: name.clone(),
                                properties: Vec::new(),
                                children: Vec::new(),
                                source_path: Some(path.clone()),
                            },
                        )
                    }
                },
            }
        },
        ImfsItem::Directory { children } => {
            if fuel == 0 {
                return Err(BuildError::PathNotFound(path.clone()));
            }
            let ghost cks = children.deep_view();
            let mut out_children: Vec<SnapshotNode> = Vec::new();
            let m = children.len();
            for j in 0..m
                invariant
                    fuel >= 1,
                    m == children@.len(),
                    cks.len() == m,
                    cks == children.deep_view(),
                    lookup_path(imfs@.items, path@) == Some(IView::Directory(cks)),
                    out_children@.len() == j,
                    forall|i: int| 0 <= i < j ==> crate::snapshot::snap_view(
                        #[trigger] out_children@[i],
                    ).source_path == Some(cks[i]),
                decreases m - j,
            {
                let cp = &children[j];
                let built = build_fs_entry(imfs, cp, config, fuel - 1, conflicts);
                let ghost prev = out_children@;
                match built {
                    Ok(c) => {
                        out_children.push(c);
                    },
                    Err(e) => {
                        return Err(e);
                    },
                }
                proof {
                    assert(out_children@.drop_last() =~= prev);
                    assert(forall|i: int| 0 <= i < j ==> out_children@[i] == prev[i]);
                }
            }
            // Merge the declared children in, by name; a name the filesystem
            // already produced is a conflict: skip and report that child.
            let d = declared.len();
            for k in 0..d
                invariant
                    d == declared@.len(),
                    lookup_path(imfs@.items, path@) == Some(IView::Directory(cks)),
                    cks.len() == m,
                    m <= out_children@.len() <= m + k,
                    forall|i: int| 0 <= i < m ==> crate::snapshot::snap_view(
                        #[trigger] out_children@[i],
                    ).source_path == Some(cks[i]),
                decreases d - k,
            {
                let cname = &declared[k].0;
                match find_child_index_by_name(&out_children, cname) {
                    Some(idx) => {
                        match &declared[k].1 {
                            ProjectNode::Instance { class_name: _, properties, children: _ } => {
                                let ghost pre = out_children@;
                                let pn = properties.len();
                                for q in 0..pn
                                    invariant
                                        pn == properties@.len(),
                                        idx < out_children@.len(),
                                        out_children@.len() == pre.len(),
                                        forall|i: int| 0 <= i < pre.len() && i != idx
                                            ==> out_children@[i] == pre[i],
                                        crate::snapshot::snap_view(
                                            out_children@[idx as int],
                                        ).source_path == crate::snapshot::snap_view(
                                            pre[idx as int],
                                        ).source_path,
                                    decreases pn - q,
                                {
                                    set_prop_exec(
                                        &mut out_children[idx].properties,
                                        &properties[q].0,
                                        &properties[q].1,
                                    );
                                }
                                proof {
                                    assert forall|i: int| 0 <= i < m
                                        implies crate::snapshot::snap_view(
                                        #[trigger] out_children@[i],
                                    ).source_path == Some(cks[i]) by {
                                        if i != idx {
                                            assert(out_children@[i] == pre[i]);
                                        }
                                    }
                                }
                            },
                            ProjectNode::SyncPoint { path: _, children: _ } => {
                                conflicts.push(cname.clone());
                            },
                        }
                    },
                    None => {
                        proof {
                            lemma_pnode_list_size_ge(declared@, k as int);
                        }
                        let built = build_node(imfs, &declared[k].1, cname, config, fuel, conflicts);
                        let ghost prev = out_children@;
                        match built {
                            Ok(c) => {
                                out_children.push(c);
                            },
                            Err(e) => {
                                return Err(e);
                            },
                        }
                        proof {
                            assert(forall|i: int| 0 <= i < m ==> out_children@[i] == prev[i]);
                        }
                    },
                }
            }
            proof {
                crate::snapshot::lemma_snap_views_len(out_children@);
                assert forall|i: int| 0 <= i < out_children@.len()
                    implies crate::snapshot::snap_views(out_children@)[i]
                    == crate::snapshot::snap_view(out_children@[i]) by {
                    crate::snapshot::lemma_snap_views_index(out_children@, i);
                }
            }
            Ok(
                SnapshotNode {
                    class_name: folder_class(),
                    name: name.clone(),
                    properties: Vec::new(),
                    children: out_children,
                    source_path: Some(path.clone()),
                },
            )
        },
    }
}

/// One filesystem entry under a sync point becomes one snapshot node: a
/// directory recurses as a folder named by its last path component; a file
/// goes through the classification table.
pub fn build_fs_entry(
    imfs: &Imfs,
    path: &FsPath,
    config: &BuildConfig,
    fuel: u64,
    conflicts: &mut Vec<String>,
) -> (r: Result<SnapshotNode, BuildError>)
    ensures
        r matches Ok(node) ==> node@.source_path == Some(path@),
        r matches Ok(node) ==> node@.name == derived_name(imfs@.items, path@, config.rules@),
        r matches Err(BuildError::UnknownFileType(p)) ==> config.strict,
        // A missing entry keeps its slot; a file outside strict mode always
        // builds, shaped by the classification table.
        lookup_path(imfs@.items, path@) is None ==> r is Ok,
        (lookup_path(imfs@.items, path@) matches Some(IView::File(b)) && !config.strict) ==> r
            is Ok,
        r matches Ok(node) ==> (lookup_path(imfs@.items, path@) matches Some(IView::File(b))
            ==> node@.class_name == file_class(config.rules@, base_name_of(path@))),
    decreases fuel, 0nat, 2nat,
{
    let base_name = if path.components.len() == 0 {
        String::new()
    } else {
        path.file_name().clone()
    };
    let item = match imfs.get(path) {
        Some(item) => item,
        None => {
            // The mirror names a child it holds no entry for (a race the
            // watcher will repair): keep the slot as an opaque instance.
            return Ok(
                SnapshotNode {
                    class_name: opaque_class(),
                    name: base_name,
                    properties: Vec::new(),
                    children: Vec::new(),
                    source_path: Some(path.clone()),
                },
            );
        },
    };
    match item {
        ImfsItem::File { contents } => {
            match classify(config, &base_name) {
                Some(pair) => Ok(
                    SnapshotNode {
                        class_name: pair.0,
                        name: pair.1,
                        properties: Vec::new(),
                        children: Vec::new(),
                        source_path: Some(path.clone()),
                    },
                ),
                None => {
                    if config.strict {
                        Err(BuildError::UnknownFileType(path.clone()))
                    } else {
                        Ok(
                            SnapshotNode {
                                class_name: opaque_class(),
                                name: base_name,
                                properties: Vec::new(),
                                children: Vec::new(),
                                source_path: Some(path.clone()),
                            },
                        )
                    }
                },
            }
        },
        ImfsItem::Directory { children } => {
            let empty: Vec<(String, ProjectNode)> = Vec::new();
            if fuel == 0 {
                return Err(BuildError::PathNotFound(path.clone()));
            }
            build_from_path(imfs, path, &base_name, &empty, config, fuel, conflicts)
        },
    }
}

/// The position of the built child carrying `name`, if any.
fn find_child_index_by_name(children: &Vec<SnapshotNode>, name: &String) -> (r: Option<usize>)
    ensures
        match r {
            Some(i) => i < children@.len() && crate::snapshot::snap_view(
                children@[i as int],
            ).name == name@,
            None => forall|j: int| 0 <= j < children@.len() ==> crate::snapshot::snap_view(
                #[trigger] children@[j],
            ).name != name@,
        },
{
    let n = children.len();
    for i in 0..n
        invariant
            n == children@.len(),
            forall|j: int| 0 <= j < i ==> crate::snapshot::snap_view(
                #[trigger] children@[j],
            ).name != name@,
    {
        if children[i].name == *name {
            proof {
                assert(crate::snapshot::snap_view(children@[i as int]).name == name@);
            }
            return Some(i);
        }
    }
    None
}

pub fn folder_class() -> (r: String)
    ensures
        r@ == "Folder"@,
{
    String::from_str("Folder")
}

pub fn opaque_class() -> (r: String)
    ensures
        r@ == "Opaque"@,
{
    String::from_str("Opaque")
}

} // verus!
