use rojo::fs_watcher::{FilesystemWatcher, RawEvent};
use rojo::imfs::{FsObservation, Imfs, ImfsItem};
use rojo::instance_tree::{InstanceTree, PatchOp};
use rojo::live_session::LiveSession;
use rojo::message_queue::ReadResult;
use rojo::path::FsPath;
use rojo::project::{Project, ProjectNode};
use rojo::snapshot_builder::{build_node, BuildConfig, BuildError, ClassRule};

fn path(parts: &[&str]) -> FsPath {
    FsPath { components: parts.iter().map(|p| p.to_string()).collect() }
}

fn lua_config() -> BuildConfig {
    BuildConfig {
        rules: vec![ClassRule { suffix: ".lua".to_string(), class_name: "ModuleScript".to_string() }],
        strict: false,
    }
}

fn empty_project(name: &str) -> Project {
    Project {
        name: name.to_string(),
        tree: ProjectNode::Instance {
            class_name: "Folder".to_string(),
            properties: Vec::new(),
            children: Vec::new(),
        },
        serve_port: None,
        serve_place_ids: None,
        file_location: path(&["project.json"]),
    }
}

fn foo_lib_project() -> Project {
    Project {
        name: "single-sync-point".to_string(),
        tree: ProjectNode::Instance {
            class_name: "Folder".to_string(),
            properties: Vec::new(),
            children: vec![(
                "Foo".to_string(),
                ProjectNode::SyncPoint { path: path(&["lib"]), children: Vec::new() },
            )],
        },
        serve_port: None,
        serve_place_ids: None,
        file_location: path(&["project.json"]),
    }
}

fn lib_with(files: &[(&str, &[u8])]) -> FsObservation {
    FsObservation::Directory {
        children: files
            .iter()
            .map(|(n, c)| (n.to_string(), FsObservation::File { contents: c.to_vec() }))
            .collect(),
    }
}

fn find_by_name(session: &LiveSession, name: &str) -> Option<u64> {
    let snapshot = session.tree.export_nodes();
    for (id, inst) in &snapshot {
        if inst.name == name {
            return Some(*id);
        }
    }
    None
}

#[test]
fn empty_project_yields_named_root() {
    let session = LiveSession::new(empty_project("empty"), lua_config(), 16, 7);
    let (nodes, cursor) = session.full_snapshot();
    assert_eq!(nodes.len(), 1);
    assert_eq!(nodes[0].1.name, "empty");
    assert!(nodes[0].1.children.is_empty());
    assert_eq!(cursor, 0);
}

#[test]
fn sync_point_materializes_file() {
    let mut session = LiveSession::new(foo_lib_project(), lua_config(), 16, 7);
    let changed = session
        .process_pass(&path(&["lib"]), &lib_with(&[("Bar.lua", b"return 1")]), 0)
        .unwrap();
    assert!(changed);
    let foo = find_by_name(&session, "Foo").expect("Foo exists");
    let bar = find_by_name(&session, "Bar").expect("Bar exists");
    let nodes = session.tree.export_nodes();
    let foo_inst = &nodes.iter().find(|(id, _)| *id == foo).unwrap().1;
    let bar_inst = &nodes.iter().find(|(id, _)| *id == bar).unwrap().1;
    assert_eq!(foo_inst.class_name, "Folder");
    assert_eq!(bar_inst.class_name, "ModuleScript");
    assert!(foo_inst.children.contains(&bar));
}

#[test]
fn deleting_file_removes_exactly_that_instance() {
    let mut session = LiveSession::new(foo_lib_project(), lua_config(), 16, 7);
    session
        .process_pass(&path(&["lib"]), &lib_with(&[("Bar.lua", b"return 1")]), 0)
        .unwrap();
    let root = session.tree.root_id();
    let foo = find_by_name(&session, "Foo").unwrap();
    let bar = find_by_name(&session, "Bar").unwrap();
    let (_, cursor) = session.full_snapshot();
    let changed = session.process_pass(&path(&["lib"]), &lib_with(&[]), 1).unwrap();
    assert!(changed);
    // The pass produced exactly one patch set holding exactly Remove(bar).
    match session.subscribe(cursor - 1) {
        ReadResult::Messages(msgs) => {
            assert_eq!(msgs.len(), 1);
            assert_eq!(msgs[0].sequence_number, cursor);
            let last = &msgs[0].patch_set.ops;
            assert_eq!(last.len(), 1);
            assert!(matches!(last[0], PatchOp::Remove { id } if id == bar));
        }
        ReadResult::ResyncRequired => panic!("history should be retained"),
    }
    // Identity stability: root and Foo keep their ids; Bar is gone.
    assert_eq!(session.tree.root_id(), root);
    assert_eq!(find_by_name(&session, "Foo"), Some(foo));
    assert_eq!(find_by_name(&session, "Bar"), None);
}

#[test]
fn same_event_twice_is_idempotent() {
    let mut session = LiveSession::new(foo_lib_project(), lua_config(), 16, 7);
    let obs = lib_with(&[("Bar.lua", b"return 1")]);
    let first = session.process_pass(&path(&["lib"]), &obs, 0).unwrap();
    assert!(first);
    let before = session.tree.export_nodes();
    let second = session.process_pass(&path(&["lib"]), &obs, 1).unwrap();
    // The second pass found nothing to change: no patch, no broadcast.
    assert!(!second);
    let after = session.tree.export_nodes();
    assert_eq!(before.len(), after.len());
    for ((ida, a), (idb, b)) in before.iter().zip(after.iter()) {
        assert_eq!(ida, idb);
        assert_eq!(a.name, b.name);
        assert_eq!(a.class_name, b.class_name);
        assert_eq!(a.children, b.children);
    }
}

#[test]
fn rename_coalesces_into_one_pass() {
    // A fast delete+create pair arrives as one debounced batch: the watcher
    // hands over one dirty set, and one pass yields one patch set holding
    // the remove and the add together.
    let watcher = FilesystemWatcher::new(100);
    let events = vec![
        RawEvent { path: path(&["lib", "A.lua"]), timestamp: 10 },
        RawEvent { path: path(&["lib", "B.lua"]), timestamp: 12 },
        RawEvent { path: path(&["lib", "A.lua"]), timestamp: 13 },
    ];
    let dirty = watcher.coalesce(&events, false, &Vec::new());
    assert_eq!(dirty.len(), 2);
    assert_eq!(dirty[0].components, vec!["lib".to_string(), "A.lua".to_string()]);
    assert_eq!(dirty[1].components, vec!["lib".to_string(), "B.lua".to_string()]);

    let mut session = LiveSession::new(foo_lib_project(), lua_config(), 16, 7);
    session
        .process_pass(&path(&["lib"]), &lib_with(&[("A.lua", b"x")]), 0)
        .unwrap();
    let (_, cursor) = session.full_snapshot();
    let a = find_by_name(&session, "A").unwrap();
    session
        .process_pass(&path(&["lib"]), &lib_with(&[("B.lua", b"x")]), 1)
        .unwrap();
    match session.subscribe(cursor - 1) {
        ReadResult::Messages(msgs) => {
            assert_eq!(msgs.len(), 1);
            let ops = &msgs[0].patch_set.ops;
            assert_eq!(ops.len(), 2);
            assert!(matches!(ops[0], PatchOp::Remove { id } if id == a));
            assert!(matches!(&ops[1], PatchOp::Add { subtree, .. } if subtree.name == "B"));
        }
        ReadResult::ResyncRequired => panic!("history should be retained"),
    }
    assert_eq!(find_by_name(&session, "A"), None);
    assert!(find_by_name(&session, "B").is_some());
}

#[test]
fn overflow_marks_all_roots_dirty() {
    let watcher = FilesystemWatcher::new(100);
    let roots = vec![path(&["src"]), path(&["lib"])];
    let events = vec![RawEvent { path: path(&["src", "a.lua"]), timestamp: 1 }];
    let dirty = watcher.coalesce(&events, true, &roots);
    assert_eq!(dirty.len(), 2);
    assert_eq!(dirty[0].components, vec!["src".to_string()]);
    assert_eq!(dirty[1].components, vec!["lib".to_string()]);
}

#[test]
fn stale_cursor_gets_resync_not_gaps() {
    let mut session = LiveSession::new(foo_lib_project(), lua_config(), 2, 7);
    session.process_pass(&path(&["lib"]), &lib_with(&[("A.lua", b"1")]), 0).unwrap();
    session.process_pass(&path(&["lib"]), &lib_with(&[("B.lua", b"1")]), 1).unwrap();
    session.process_pass(&path(&["lib"]), &lib_with(&[("C.lua", b"1")]), 2).unwrap();
    session.process_pass(&path(&["lib"]), &lib_with(&[("D.lua", b"1")]), 3).unwrap();
    // Only the last two patch sets are retained: a subscriber at the very
    // beginning must resynchronize, never receive a gapped history.
    assert!(matches!(session.subscribe(0), ReadResult::ResyncRequired));
    // A current cursor still reads cleanly, in order, gapless.
    match session.subscribe(2) {
        ReadResult::Messages(msgs) => {
            assert_eq!(msgs.len(), 1);
            assert_eq!(msgs[0].sequence_number, 3);
        }
        ReadResult::ResyncRequired => panic!("cursor 2 is inside the window"),
    }
}

#[test]
fn sequence_numbers_increase_without_gaps() {
    let mut session = LiveSession::new(foo_lib_project(), lua_config(), 16, 7);
    session.process_pass(&path(&["lib"]), &lib_with(&[("A.lua", b"1")]), 0).unwrap();
    session.process_pass(&path(&["lib"]), &lib_with(&[("B.lua", b"1")]), 1).unwrap();
    session.process_pass(&path(&["lib"]), &lib_with(&[("C.lua", b"1")]), 2).unwrap();
    match session.subscribe(0) {
        ReadResult::Messages(msgs) => {
            assert_eq!(msgs.len(), 2);
            assert_eq!(msgs[0].sequence_number, 1);
            assert_eq!(msgs[1].sequence_number, 2);
        }
        ReadResult::ResyncRequired => panic!("nothing was pruned"),
    }
}

#[test]
fn full_snapshot_plus_replay_reconstructs_tree() {
    let mut session = LiveSession::new(foo_lib_project(), lua_config(), 16, 7);
    session.process_pass(&path(&["lib"]), &lib_with(&[("A.lua", b"1")]), 0).unwrap();
    let (nodes, cursor) = session.full_snapshot();
    let mut replica = InstanceTree {
        nodes,
        root: session.tree.root,
        next_id: session.tree.next_id,
    };
    session
        .process_pass(&path(&["lib"]), &lib_with(&[("A.lua", b"2"), ("B.lua", b"1")]), 1)
        .unwrap();
    session.process_pass(&path(&["lib"]), &lib_with(&[("B.lua", b"1")]), 2).unwrap();
    match session.subscribe(cursor - 1) {
        ReadResult::Messages(msgs) => {
            for m in msgs {
                assert!(m.sequence_number >= cursor);
                replica.apply(m.patch_set);
            }
        }
        ReadResult::ResyncRequired => panic!("history should be retained"),
    }
    let live = session.tree.export_nodes();
    let copy = replica.export_nodes();
    assert_eq!(live.len(), copy.len());
    for ((ida, a), (idb, b)) in live.iter().zip(copy.iter()) {
        assert_eq!(ida, idb);
        assert_eq!(a.name, b.name);
        assert_eq!(a.class_name, b.class_name);
        assert_eq!(a.properties, b.properties);
        assert_eq!(a.children, b.children);
    }
}

#[test]
fn strict_mode_rejects_unknown_file_type() {
    let mut config = lua_config();
    config.strict = true;
    let mut session = LiveSession::new(foo_lib_project(), config, 16, 7);
    let r = session.process_pass(&path(&["lib"]), &lib_with(&[("notes.txt", b"hi")]), 0);
    assert!(matches!(r, Err(BuildError::UnknownFileType(_))));
}

#[test]
fn missing_sync_point_path_skips_pass() {
    let mut session = LiveSession::new(foo_lib_project(), lua_config(), 16, 7);
    // The observation touches another path; "lib" itself never appeared.
    let r = session.process_pass(&path(&["elsewhere"]), &FsObservation::Absent, 0);
    assert!(matches!(r, Err(BuildError::PathNotFound(_))));
}

#[test]
fn mirror_reads_back_what_an_event_wrote() {
    let mut imfs = Imfs::new();
    imfs.add_root(&path(&["lib"]));
    let _ = imfs.apply_event(&path(&["lib"]), &lib_with(&[("Bar.lua", b"return 1")]));
    match imfs.get(&path(&["lib"])) {
        Some(ImfsItem::Directory { children }) => {
            assert_eq!(children.len(), 1);
            assert_eq!(children[0].components, vec!["lib".to_string(), "Bar.lua".to_string()]);
        }
        _ => panic!("lib should be a directory"),
    }
    match imfs.get(&path(&["lib", "Bar.lua"])) {
        Some(ImfsItem::File { contents }) => assert_eq!(contents, b"return 1"),
        _ => panic!("Bar.lua should be a file"),
    }
    // A vanished subtree is fully purged, descendants included.
    let affected = imfs.apply_event(&path(&["lib"]), &FsObservation::Absent);
    assert!(imfs.get(&path(&["lib"])).is_none());
    assert!(imfs.get(&path(&["lib", "Bar.lua"])).is_none());
    assert_eq!(affected.len(), 2);
}

#[test]
fn declared_child_merges_properties_over_derived() {
    let mut imfs = Imfs::new();
    let _ = imfs.apply_event(&path(&["lib"]), &lib_with(&[("Bar.lua", b"return 1")]));
    let node = ProjectNode::SyncPoint {
        path: path(&["lib"]),
        children: vec![(
            "Bar".to_string(),
            ProjectNode::Instance {
                class_name: "ModuleScript".to_string(),
                properties: vec![("Source".to_string(), "declared".to_string())],
                children: Vec::new(),
            },
        )],
    };
    let mut conflicts: Vec<String> = Vec::new();
    let snap = build_node(&imfs, &node, &"Foo".to_string(), &lua_config(), 64, &mut conflicts)
        .unwrap();
    // The declared instance merged into the derived child: one child, with
    // the declared property written over the (absent) inferred one.
    assert_eq!(snap.children.len(), 1);
    assert_eq!(snap.children[0].name, "Bar");
    assert_eq!(snap.children[0].class_name, "ModuleScript");
    assert_eq!(
        snap.children[0].properties,
        vec![("Source".to_string(), "declared".to_string())]
    );
    assert!(conflicts.is_empty());
}

#[test]
fn declared_sync_point_colliding_with_file_is_a_conflict() {
    let mut imfs = Imfs::new();
    let _ = imfs.apply_event(&path(&["lib"]), &lib_with(&[("Bar.lua", b"return 1")]));
    let node = ProjectNode::SyncPoint {
        path: path(&["lib"]),
        children: vec![(
            "Bar".to_string(),
            ProjectNode::SyncPoint { path: path(&["other"]), children: Vec::new() },
        )],
    };
    let mut conflicts: Vec<String> = Vec::new();
    let snap = build_node(&imfs, &node, &"Foo".to_string(), &lua_config(), 64, &mut conflicts)
        .unwrap();
    // The conflicting declared child is skipped and reported; the derived
    // child stands untouched and the build completes.
    assert_eq!(snap.children.len(), 1);
    assert_eq!(snap.children[0].class_name, "ModuleScript");
    assert_eq!(conflicts, vec!["Bar".to_string()]);
}

#[test]
fn path_table_tracks_live_instances() {
    let mut session = LiveSession::new(foo_lib_project(), lua_config(), 16, 7);
    session
        .process_pass(&path(&["lib"]), &lib_with(&[("Bar.lua", b"return 1")]), 0)
        .unwrap();
    let bar = find_by_name(&session, "Bar").unwrap();
    // The file's path is bound to the instance it materialized.
    assert_eq!(session.instance_at_path(&path(&["lib", "Bar.lua"])), Some(bar));
    // Removing the node unbinds its path.
    session.process_pass(&path(&["lib"]), &lib_with(&[]), 1).unwrap();
    assert_eq!(session.instance_at_path(&path(&["lib", "Bar.lua"])), None);
}
