use koto::kotofs::{KotoFS, UgAction};
use koto::kotonode::{KotoNode, SyncPlan, UgSource};
use koto::ugdump::{DumpSlot, DumpValue, UgDump};

/// The filesystem of the configuration `(out 0 0)`: an `out` unit with a
/// volume and one source.
fn started() -> KotoFS {
    let out = UgDump::UgRest(
        "out".to_string(),
        vec![DumpSlot { ug: 2, name: "vol".to_string(), value: DumpValue::Number(b"0".to_vec()) }],
        "src".to_string(),
        vec![DumpValue::Number(b"0".to_vec())],
    );
    KotoFS::init(1, &out, &vec![])
}

fn names(fs: &KotoFS, ino: u64) -> Vec<String> {
    fs.readdir(ino, 0).into_iter().skip(2).map(|e| e.name).collect()
}

#[test]
fn mounted_tree_shows_the_parameters() {
    let fs = started();
    let mut listed = names(&fs, 1);
    listed.sort();
    assert_eq!(listed, vec!["src0.val", "vol.val"]);
    let src = fs.lookup(1, &"src0.val".to_string()).unwrap();
    assert_eq!(fs.read(src.ino, 0, 4096), Some(b"0".to_vec()));
    let vol = fs.lookup(1, &"vol.val".to_string()).unwrap();
    assert_eq!(fs.read(vol.ino, 0, 4096), Some(b"0".to_vec()));
}

#[test]
fn writing_a_value_changes_it() {
    let mut fs = started();
    let vol = fs.lookup(1, &"vol.val".to_string()).unwrap().ino;
    let (n, actions) = fs.write(vol, 0, b"0.3\n");
    assert_eq!(n, 4);
    assert_eq!(fs.read(vol, 0, 4096), Some(b"0.3\n".to_vec()));
    let node = match &actions[..] {
        [UgAction::SyncFile { node, oldname }] if oldname.is_empty() => *node,
        _ => panic!("one file to bring in line"),
    };
    assert_eq!(
        KotoNode::sync_file(&fs.nodes, node, &String::new()),
        SyncPlan::SetText { parent: 1, param: "vol".to_string(), text: "0.3".to_string() }
    );
}

#[test]
fn replacing_a_value_by_a_sine() {
    let mut fs = started();
    let (found, actions) = fs.unlink(1, "src0.val".to_string());
    assert!(found);
    assert_eq!(actions, vec![UgAction::Clear { ug: 1, param: "src0".to_string() }]);

    let dir = fs.mkdir(1, "src0.sine".to_string()).unwrap().ino;
    let freq = fs.create(dir, "freq.val".to_string()).unwrap().ino;
    let (_, file_actions) = fs.write(freq, 0, b"440\n");
    let freq_node = match &file_actions[..] {
        [UgAction::SyncFile { node, .. }] => *node,
        _ => panic!("one file to bring in line"),
    };
    assert_eq!(KotoNode::sync_file(&fs.nodes, freq_node, &String::new()), SyncPlan::Nothing);

    let (attr, touched) = fs.setattr(dir);
    assert_eq!(attr.map(|a| a.ino), Some(dir));
    let dir_node = match &touched[..] {
        [UgAction::Sync { node, .. }] => *node,
        _ => panic!("one directory to bring in line"),
    };
    let types = vec!["sine".to_string(), "out".to_string()];
    assert_eq!(
        KotoNode::sync_ug(&fs.nodes, dir_node, &String::new(), &types),
        SyncPlan::Build { typename: "sine".to_string(), param: "src0".to_string(), parent_ug: Some(1) }
    );
    assert_eq!(
        KotoNode::build_ug_from_node(&fs.nodes, dir_node),
        UgSource::Form("(sine 0 0)".to_string())
    );
    assert_eq!(
        KotoNode::slot_settings(&fs.nodes, dir_node, &None),
        vec![("freq".to_string(), freq_node)]
    );
}

#[test]
fn node_names_split_and_join() {
    for (p, t) in [("vol", "val"), ("src0", "sine"), ("", "x"), ("a", "")] {
        let name = format!("{}.{}", p, t);
        assert_eq!(KotoNode::parse_nodename(name), Some((p.to_string(), t.to_string())));
    }
}
