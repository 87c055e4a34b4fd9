use rojo::imfs::{FsObservation, Imfs};
use rojo::instance_tree::InstanceTree;
use rojo::path::FsPath;
use rojo::path_table::PathTable;
use rojo::project::{Project, ProjectNode};
use rojo::session_id::SessionId;
use rojo::snapshot_builder::{split_suffix, BuildConfig, ClassRule};
use rojo::ui::render;
use rojo::live_session::LiveSession;
use rojo::visualize::{normalize_name, u64_to_string, VisualizeImfs, VisualizeRbxSession};

fn path(parts: &[&str]) -> FsPath {
    FsPath { components: parts.iter().map(|p| p.to_string()).collect() }
}

#[test]
fn path_identity_and_prefixes() {
    let a = path(&["lib", "Bar.lua"]);
    let b = path(&["lib", "Bar.lua"]);
    let c = path(&["lib"]);
    assert!(a.path_eq(&b));
    assert!(!a.path_eq(&c));
    assert!(a.starts_with(&c));
    assert!(!c.starts_with(&a));
    assert_eq!(c.join(&"Bar.lua".to_string()).components, a.components);
}

#[test]
fn path_table_binds_one_id_per_path() {
    let mut table = PathTable::new();
    let p = path(&["lib", "Bar.lua"]);
    assert_eq!(table.lookup(&p), None);
    table.bind(&p, 4);
    assert_eq!(table.lookup(&p), Some(4));
    table.bind(&p, 9);
    assert_eq!(table.lookup(&p), Some(9));
    table.unbind(&p);
    assert_eq!(table.lookup(&p), None);
}

#[test]
fn session_token_matches_only_itself() {
    let id = SessionId::new(42);
    assert!(id.matches(42));
    assert!(!id.matches(41));
    assert_eq!(id.value(), 42);
}

#[test]
fn suffix_splitting_gives_the_stem() {
    assert_eq!(
        split_suffix(&"Bar.lua".to_string(), &".lua".to_string()),
        Some("Bar".to_string())
    );
    assert_eq!(split_suffix(&"Bar.txt".to_string(), &".lua".to_string()), None);
    assert_eq!(split_suffix(&"a".to_string(), &".lua".to_string()), None);
}

#[test]
fn decimal_rendering() {
    assert_eq!(u64_to_string(0), "0");
    assert_eq!(u64_to_string(7), "7");
    assert_eq!(u64_to_string(90210), "90210");
    assert_eq!(u64_to_string(u64::MAX), "18446744073709551615");
}

#[test]
fn normalized_names_use_forward_slashes() {
    assert_eq!(normalize_name(&path(&["a", "b", "c.lua"])), "a/b/c.lua");
    assert_eq!(normalize_name(&path(&["a"])), "a");
    assert_eq!(normalize_name(&path(&[])), "");
}

#[test]
fn render_emits_the_status_page() {
    let project = Project {
        name: "empty".to_string(),
        tree: ProjectNode::Instance {
            class_name: "Folder".to_string(),
            properties: Vec::new(),
            children: Vec::new(),
        },
        serve_port: None,
        serve_place_ids: None,
        file_location: path(&["project.json"]),
    };
    let config = BuildConfig { rules: Vec::new(), strict: false };
    let session = LiveSession::new(project, config, 16, 7);
    let page = render(&session);
    assert_eq!(
        page,
        "<!doctype html>\n<html><head><title>Rojo Live Session</title><style>body { font-family: sans-serif; margin: 2em; } h1 { color: #e13835; }</style></head><body><h1>Hello, world!</h1></body></html>"
    );
}

#[test]
fn tree_dot_source_names_nodes_and_edges() {
    let tree = InstanceTree::new("Folder".to_string(), "root".to_string());
    let viz = VisualizeRbxSession(&tree);
    let dot = viz.to_dot_source();
    assert!(dot.starts_with("digraph RojoTree {"));
    assert!(dot.contains("\"0\" [label=\"root|Folder|0|"));
    // The metadata JSON's braces are escaped for the record label.
    assert!(dot.contains("\\{&quot;source_path&quot;:null,&quot;ignore_unknown&quot;:false\\}"));
    assert!(dot.ends_with("}\n"));
}

#[test]
fn mirror_dot_source_draws_the_subtree() {
    let mut imfs = Imfs::new();
    let lib = path(&["lib"]);
    imfs.add_root(&lib);
    let obs = FsObservation::Directory {
        children: vec![(
            "Bar.lua".to_string(),
            FsObservation::File { contents: b"x".to_vec() },
        )],
    };
    let _ = imfs.apply_event(&lib, &obs);
    let viz = VisualizeImfs(&imfs);
    let dot = viz.to_dot_source();
    assert!(dot.contains("    \"lib\"\n"));
    assert!(dot.contains("    \"lib\" -> \"lib/Bar.lua\"\n"));
    assert!(dot.contains("    \"lib/Bar.lua\" [label = \"Bar.lua\"]\n"));
    assert!(dot.ends_with("}\n"));
}
