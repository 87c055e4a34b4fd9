//! Read-only diagnostic exporters: render the live tree and the filesystem
//! mirror as GraphViz DOT source. Side-effect free; they never mutate core
//! state. Compiling the DOT text to SVG is an external concern.

use vstd::prelude::*;
use vstd::string::*;
use vstd::utf8::is_ascii_chars;
use crate::path::FsPath;
use crate::imfs::{Imfs, ImfsItem, IView, ImfsView, lookup_path};
use crate::instance_tree::{InstanceTree, TreeView, InstView, lookup};

verus! {

/// The path's components joined by `/`: one canonical display form on
/// every platform.
pub open spec fn joined(ps: Seq<Seq<char>>) -> Seq<char>
    decreases ps.len(),
{
    if ps.len() == 0 {
        Seq::empty()
    } else if ps.len() == 1 {
        ps[0]
    } else {
        joined(ps.drop_last()) + "/"@ + ps.last()
    }
}

/// The platform-independent display name of a path.
pub fn normalize_name(path: &FsPath) -> (r: String)
    ensures
        r@ == joined(path@),
{
    let mut out = String::new();
    let n = path.components.len();
    for i in 0..n
        invariant
            n == path.components.len(),
            path@.len() == n,
            out@ =~= joined(path@.take(i as int)),
    {
        proof {
            assert(path@.take(i + 1).drop_last() =~= path@.take(i as int));
            assert(path@.take(i + 1).last() == path@[i as int]);
        }
        if i > 0 {
            out.append("/");
        }
        out.append(path.components[i].as_str());
        proof {
            if i == 0 {
                assert(out@ =~= path@.take(1)[0]);
            }
        }
    }
    proof {
        assert(path@.take(n as int) =~= path@);
    }
    out
}

/// The decimal digits of `n`.
pub open spec fn dec_str(n: u64) -> Seq<char>
    decreases n,
{
    if n < 10 {
        seq![digit_char(n)]
    } else {
        dec_str(n / 10).push(digit_char(n % 10))
    }
}

pub open spec fn digit_char(d: u64) -> char {
    "0123456789"@[d as int]
}

pub fn u64_to_string(n: u64) -> (r: String)
    ensures
        r@ == dec_str(n),
    decreases n,
{
    proof {
        reveal_strlit("0123456789");
    }
    let digits = "0123456789";
    if n < 10 {
        let d = digits.substring_ascii((n as usize), (n as usize) + 1);
        let r = d.to_owned();
        proof {
            assert(r@ =~= seq![digit_char(n)]);
        }
        r
    } else {
        let mut r = u64_to_string(n / 10);
        let d = digits.substring_ascii(((n % 10) as usize), ((n % 10) as usize) + 1);
        r.append(d);
        proof {
            assert(r@ =~= dec_str(n));
        }
        r
    }
}

/// What one character contributes to a DOT-escaped label: quotes and braces
/// are escaped, everything else passes through.
pub open spec fn esc_char(c: char) -> Seq<char> {
    if c == '"' {
        "&quot;"@
    } else if c == '{' {
        "\\{"@
    } else if c == '}' {
        "\\}"@
    } else {
        seq![c]
    }
}

pub open spec fn escaped(s: Seq<char>) -> Seq<char>
    decreases s.len(),
{
    if s.len() == 0 {
        s
    } else {
        escaped(s.drop_last()) + esc_char(s.last())
    }
}

/// Escape a label for DOT. A label that is not ascii is passed through
/// unescaped rather than risking a mid-character split.
pub fn escape_label(s: &String) -> (r: String)
    ensures
        is_ascii_chars(s@) ==> r@ == escaped(s@),
        !is_ascii_chars(s@) ==> r@ == s@,
{
    if !s.is_ascii() {
        return s.clone();
    }
    let mut out = String::new();
    let n = s.as_str().unicode_len();
    for i in 0..n
        invariant
            n == s@.len(),
            is_ascii_chars(s@),
            out@ =~= escaped(s@.take(i as int)),
    {
        proof {
            assert(s@.take(i + 1).drop_last() =~= s@.take(i as int));
            assert(s@.take(i + 1).last() == s@[i as int]);
        }
        let c = s.as_str().get_char(i);
        if c == '"' {
            out.append("&quot;");
        } else if c == '{' {
            out.append("\\{");
        } else if c == '}' {
            out.append("\\}");
        } else {
            let piece = s.as_str().substring_ascii(i, i + 1);
            out.append(piece);
            proof {
                assert(piece@ =~= seq![s@[i as int]]);
            }
        }
    }
    proof {
        assert(s@.take(n as int) =~= s@);
    }
    out
}

pub open spec fn graphviz_header() -> Seq<char> {
    "digraph RojoTree {\n    rankdir = \"LR\";\n    graph [\n        ranksep = \"0.7\",\n        nodesep = \"0.5\",\n    ];\n    node [\n        fontname = \"Hack\",\n        shape = \"record\",\n    ];\n"@
}

/// The metadata of an instance as one small JSON object, embedded in its
/// label the way the diagnostic consumers expect it.
pub open spec fn meta_json(source_path: Option<Seq<Seq<char>>>, ignore_unknown: bool) -> Seq<
    char,
> {
    "{\"source_path\":"@ + (match source_path {
        Some(p) => "\""@ + joined(p) + "\""@,
        None => "null"@,
    }) + ",\"ignore_unknown\":"@ + (if ignore_unknown {
        "true"@
    } else {
        "false"@
    }) + "}"@
}

pub fn meta_json_exec(source_path: &Option<FsPath>, ignore_unknown: bool) -> (r: String)
    ensures
        r@ == meta_json(source_path.deep_view(), ignore_unknown),
{
    let mut out = String::from_str("{\"source_path\":");
    match source_path {
        Some(p) => {
            out.append("\"");
            let name = normalize_name(p);
            out.append(name.as_str());
            out.append("\"");
        },
        None => {
            out.append("null");
        },
    }
    out.append(",\"ignore_unknown\":");
    if ignore_unknown {
        out.append("true");
    } else {
        out.append("false");
    }
    out.append("}");
    proof {
        assert(out@ =~= meta_json(source_path.deep_view(), ignore_unknown));
    }
    out
}

/// Append the DOT lines for the subtree at `id`. The label escaping covers
/// ascii labels; what the escape pass leaves alone is appended as it is.
#[verifier::rlimit(100)]
pub fn visualize_rbx_node(tree: &InstanceTree, id: u64, output: &mut String, fuel: u64)
    ensures
        final(output)@ == old(output)@ + rbx_node_dot(tree@.nodes, id, fuel as nat),
    decreases fuel, 1nat, 0nat,
{
    let inst = match tree.get(id) {
        Some(inst) => inst,
        None => {
            proof {
                assert(old(output)@ + rbx_node_dot(tree@.nodes, id, fuel as nat) =~= output@);
            }
            return;
        },
    };
    let mut label = inst.name.clone();
    label.append("|");
    label.append(inst.class_name.as_str());
    label.append("|");
    let id_str = u64_to_string(id);
    label.append(id_str.as_str());
    label.append("|");
    let mj = meta_json_exec(&inst.source_path, inst.ignore_unknown);
    label.append(mj.as_str());
    output.append("    \"");
    output.append(id_str.as_str());
    output.append("\" [label=\"");
    let esc = escape_label(&label);
    output.append(esc.as_str());
    output.append("\"]\n");
    let ghost after_node = output@;
    if fuel == 0 {
        proof {
            assert(output@ =~= old(output)@ + rbx_node_dot(tree@.nodes, id, fuel as nat));
        }
        return;
    }
    let m = inst.children.len();
    for j in 0..m
        invariant
            m == inst.children@.len(),
            lookup(tree@.nodes, id) == Some(inst@),
            fuel >= 1,
            id_str@ == dec_str(id),
            old(output)@ + rbx_node_dot(tree@.nodes, id, fuel as nat) == after_node
                + rbx_children_dot(
                tree@.nodes,
                id,
                inst.children@,
                (fuel - 1) as nat,
            ),
            output@ =~= after_node + rbx_children_dot(
                tree@.nodes,
                id,
                inst.children@.take(j as int),
                (fuel - 1) as nat,
            ),
        decreases m - j,
    {
        proof {
            assert(inst.children@.take(j + 1).drop_last() =~= inst.children@.take(j as int));
            assert(inst.children@.take(j + 1).last() == inst.children@[j as int]);
        }
        let cid = inst.children[j];
        output.append("    \"");
        output.append(id_str.as_str());
        output.append("\" -> \"");
        let cid_str = u64_to_string(cid);
        output.append(cid_str.as_str());
        output.append("\"\n");
        visualize_rbx_node(tree, cid, output, fuel - 1);
    }
    proof {
        assert(inst.children@.take(m as int) =~= inst.children@);
    }
}

/// The DOT lines for the live node `id` and, recursively, its children:
/// one node statement whose label carries name, class, id and metadata
/// (escaped when the label is ascii, as the escape pass leaves it
/// otherwise), then one edge statement per child followed by that child's
/// own lines. `fuel` bounds the descent; a missing id yields nothing.
pub open spec fn rbx_node_dot(nodes: Seq<(u64, InstView)>, id: u64, fuel: nat) -> Seq<
    char,
>
    decreases fuel, 0nat, 0nat,
{
    match lookup(nodes, id) {
        None => Seq::empty(),
        Some(v) => {
            let label = v.name + "|"@ + v.class_name + "|"@ + dec_str(id) + "|"@ + meta_json(
                v.source_path,
                v.ignore_unknown,
            );
            let shown = if is_ascii_chars(label) {
                escaped(label)
            } else {
                label
            };
            "    \""@ + dec_str(id) + "\" [label=\""@ + shown + "\"]\n"@ + (
            if fuel == 0 {
                Seq::<char>::empty()
            } else {
                rbx_children_dot(nodes, id, v.children, (fuel - 1) as nat)
            })
        },
    }
}

pub open spec fn rbx_children_dot(
    nodes: Seq<(u64, InstView)>,
    id: u64,
    cs: Seq<u64>,
    fuel: nat,
) -> Seq<char>
    decreases fuel, 1nat, cs.len(),
{
    if cs.len() == 0 {
        Seq::empty()
    } else {
        rbx_children_dot(nodes, id, cs.drop_last(), fuel) + "    \""@ + dec_str(id)
            + "\" -> \""@ + dec_str(cs.last()) + "\"\n"@ + rbx_node_dot(
            nodes,
            cs.last(),
            fuel,
        )
    }
}

/// Renders a live tree as DOT source.
pub struct VisualizeRbxSession<'a>(pub &'a InstanceTree);

impl<'a> VisualizeRbxSession<'a> {
    /// The whole graph: header, the root's subtree, closing brace.
    pub fn to_dot_source(&self) -> (r: String)
        requires
            self.0.nodes@.len() < usize::MAX,
        ensures
            r@ == graphviz_header() + "\n"@ + rbx_node_dot(
                self.0@.nodes,
                self.0@.root,
                (self.0@.nodes.len() + 1) as nat,
            ) + "}\n"@,
    {
        let mut out = String::from_str(
            "digraph RojoTree {\n    rankdir = \"LR\";\n    graph [\n        ranksep = \"0.7\",\n        nodesep = \"0.5\",\n    ];\n    node [\n        fontname = \"Hack\",\n        shape = \"record\",\n    ];\n",
        );
        out.append("\n");
        let root = self.0.root_id();
        let fuel = if self.0.nodes.len() < usize::MAX {
            self.0.nodes.len() + 1
        } else {
            usize::MAX
        };
        proof {
            crate::instance_tree::lemma_node_views_len(self.0.nodes@);
        }
        visualize_rbx_node(self.0, root, &mut out, fuel as u64);
        out.append("}\n");
        out
    }
}

/// The DOT lines for the mirror entry at `path`: its node statement (roots
/// carry no label, inner paths are labelled with their last component),
/// then, for a directory, an edge per child followed by the child's lines.
pub open spec fn path_dot(items: Seq<(Seq<Seq<char>>, IView)>, p: Seq<Seq<char>>, fuel: nat) -> Seq<
    char,
>
    decreases fuel, 0nat, 0nat,
{
    match lookup_path(items, p) {
        None => Seq::empty(),
        Some(item) => {
            let short = if p.len() == 0 {
                Seq::<char>::empty()
            } else {
                p.last()
            };
            "    \""@ + joined(p) + "\" [label = \""@ + short + "\"]\n"@ + (match item {
                IView::File(b) => Seq::<char>::empty(),
                IView::Directory(cs) => if fuel == 0 {
                    Seq::<char>::empty()
                } else {
                    path_dot_list(items, p, cs, (fuel - 1) as nat)
                },
            })
        },
    }
}

pub open spec fn path_dot_list(
    items: Seq<(Seq<Seq<char>>, IView)>,
    p: Seq<Seq<char>>,
    cs: Seq<Seq<Seq<char>>>,
    fuel: nat,
) -> Seq<char>
    decreases fuel, 1nat, cs.len(),
{
    if cs.len() == 0 {
        Seq::empty()
    } else {
        path_dot_list(items, p, cs.drop_last(), fuel) + "    \""@ + joined(p) + "\" -> \""@
            + joined(cs.last()) + "\"\n"@ + path_dot(items, cs.last(), fuel)
    }
}

/// A watched root's section: its node statement without a label, then its
/// children as `path_dot` lines.
pub open spec fn root_path_dot(
    items: Seq<(Seq<Seq<char>>, IView)>,
    p: Seq<Seq<char>>,
    fuel: nat,
) -> Seq<char> {
    match lookup_path(items, p) {
        None => Seq::empty(),
        Some(item) => "    \""@ + joined(p) + "\"\n"@ + (match item {
            IView::File(b) => Seq::<char>::empty(),
            IView::Directory(cs) => path_dot_list(items, p, cs, fuel),
        }),
    }
}

/// Append the DOT lines of the mirror subtree at `path`.
pub fn visualize_path(imfs: &Imfs, path: &FsPath, output: &mut String, fuel: u64)
    ensures
        final(output)@ == old(output)@ + path_dot(imfs@.items, path@, fuel as nat),
    decreases fuel, 1nat, 0nat,
{
    let item = match imfs.get(path) {
        Some(item) => item,
        None => {
            proof {
                assert(old(output)@ + path_dot(imfs@.items, path@, fuel as nat) =~= output@);
            }
            return;
        },
    };
    let normalized = normalize_name(path);
    output.append("    \"");
    output.append(normalized.as_str());
    output.append("\" [label = \"");
    if path.components.len() > 0 {
        output.append(path.file_name().as_str());
    }
    output.append("\"]\n");
    let ghost after_node = output@;
    match item {
        ImfsItem::File { contents } => {
            proof {
                assert(output@ =~= old(output)@ + path_dot(imfs@.items, path@, fuel as nat));
            }
        },
        ImfsItem::Directory { children } => {
            if fuel == 0 {
                proof {
                    assert(output@ =~= old(output)@ + path_dot(imfs@.items, path@, fuel as nat));
                }
                return;
            }
            let m = children.len();
            let ghost cks = children.deep_view();
            for j in 0..m
                invariant
                    m == children@.len(),
                    cks.len() == m,
                    cks == children.deep_view(),
                    fuel >= 1,
                    lookup_path(imfs@.items, path@) == Some(IView::Directory(cks)),
                    normalized@ == joined(path@),
                    output@ =~= after_node + path_dot_list(
                        imfs@.items,
                        path@,
                        cks.take(j as int),
                        (fuel - 1) as nat,
                    ),
                decreases m - j,
            {
                proof {
                    assert(cks.take(j + 1).drop_last() =~= cks.take(j as int));
                    assert(cks.take(j + 1).last() == cks[j as int]);
                }
                output.append("    \"");
                output.append(normalized.as_str());
                output.append("\" -> \"");
                let child_name = normalize_name(&children[j]);
                output.append(child_name.as_str());
                output.append("\"\n");
                visualize_path(imfs, &children[j], output, fuel - 1);
            }
            proof {
                assert(cks.take(m as int) =~= cks);
                assert(output@ =~= old(output)@ + path_dot(imfs@.items, path@, fuel as nat));
            }
        },
    }
}

/// Append a watched root's DOT section.
pub fn visualize_root_path(imfs: &Imfs, path: &FsPath, output: &mut String, fuel: u64)
    ensures
        final(output)@ == old(output)@ + root_path_dot(imfs@.items, path@, fuel as nat),
{
    let item = match imfs.get(path) {
        Some(item) => item,
        None => {
            proof {
                assert(old(output)@ + root_path_dot(imfs@.items, path@, fuel as nat) =~= output@);
            }
            return;
        },
    };
    let normalized = normalize_name(path);
    output.append("    \"");
    output.append(normalized.as_str());
    output.append("\"\n");
    let ghost after_node = output@;
    match item {
        ImfsItem::File { contents } => {
            proof {
                assert(output@ =~= old(output)@ + root_path_dot(imfs@.items, path@, fuel as nat));
            }
        },
        ImfsItem::Directory { children } => {
            let m = children.len();
            let ghost cks = children.deep_view();
            for j in 0..m
                invariant
                    m == children@.len(),
                    cks.len() == m,
                    cks == children.deep_view(),
                    lookup_path(imfs@.items, path@) == Some(IView::Directory(cks)),
                    normalized@ == joined(path@),
                    output@ =~= after_node + path_dot_list(
                        imfs@.items,
                        path@,
                        cks.take(j as int),
                        fuel as nat,
                    ),
                decreases m - j,
            {
                proof {
                    assert(cks.take(j + 1).drop_last() =~= cks.take(j as int));
                    assert(cks.take(j + 1).last() == cks[j as int]);
                }
                output.append("    \"");
                output.append(normalized.as_str());
                output.append("\" -> \"");
                let child_name = normalize_name(&children[j]);
                output.append(child_name.as_str());
                output.append("\"\n");
                visualize_path(imfs, &children[j], output, fuel);
            }
            proof {
                assert(cks.take(m as int) =~= cks);
                assert(output@ =~= old(output)@ + root_path_dot(imfs@.items, path@, fuel as nat));
            }
        },
    }
}

/// Renders the filesystem mirror as DOT source.
pub struct VisualizeImfs<'a>(pub &'a Imfs);

pub open spec fn imfs_roots_dot(v: ImfsView, roots: Seq<Seq<Seq<char>>>, fuel: nat) -> Seq<char>
    decreases roots.len(),
{
    if roots.len() == 0 {
        Seq::empty()
    } else {
        imfs_roots_dot(v, roots.drop_last(), fuel) + root_path_dot(v.items, roots.last(), fuel)
    }
}

impl<'a> VisualizeImfs<'a> {
    /// The whole graph: header, a section per watched root, closing brace.
    pub fn to_dot_source(&self) -> (r: String)
        requires
            self.0.items@.len() < usize::MAX,
        ensures
            r@ == graphviz_header() + "\n"@ + imfs_roots_dot(
                self.0@,
                self.0@.roots,
                (self.0@.items.len() + 1) as nat,
            ) + "}\n"@,
    {
        let mut out = String::from_str(
            "digraph RojoTree {\n    rankdir = \"LR\";\n    graph [\n        ranksep = \"0.7\",\n        nodesep = \"0.5\",\n    ];\n    node [\n        fontname = \"Hack\",\n        shape = \"record\",\n    ];\n",
        );
        out.append("\n");
        let ghost header_done = out@;
        let fuel = if self.0.items.len() < usize::MAX {
            self.0.items.len() + 1
        } else {
            usize::MAX
        };
        proof {
            crate::imfs::lemma_entry_views_len(self.0.items@);
        }
        let n = self.0.roots.len();
        for i in 0..n
            invariant
                n == self.0.roots@.len(),
                self.0@.roots.len() == n,
                fuel as nat == (self.0@.items.len() + 1) as nat,
                out@ =~= header_done + imfs_roots_dot(
                    self.0@,
                    self.0@.roots.take(i as int),
                    fuel as nat,
                ),
            decreases n - i,
        {
            proof {
                assert(self.0@.roots.take(i + 1).drop_last() =~= self.0@.roots.take(i as int));
                assert(self.0@.roots.take(i + 1).last() == self.0@.roots[i as int]);
                assert(self.0@.roots[i as int] == self.0.roots@[i as int]@);
            }
            visualize_root_path(self.0, &self.0.roots[i], &mut out, fuel as u64);
        }
        proof {
            assert(self.0@.roots.take(n as int) =~= self.0@.roots);
        }
        out.append("}\n");
        out
    }
}

} // verus!
