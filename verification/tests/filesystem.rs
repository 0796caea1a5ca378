use std::collections::HashMap;

use koto::kotofs::{DirEntry, KotoFS, UgAction};
use koto::kotonode::{create_file, FileKind, KotoNode, NodeAttr, Ugen};

/// A filesystem holding only its root directory, inode number 1.
fn root_only() -> KotoFS {
    let root = KotoNode::create_node(1, String::new(), vec![], FileKind::Directory);
    let mut inodes = HashMap::new();
    inodes.insert(1u64, 0usize);
    KotoFS { root: 0, nodes: vec![root], inodes: inodes, augs: HashMap::new(), inode_count: 151 }
}

fn attr(ino: u64, size: u64, kind: FileKind, perm: u16) -> NodeAttr {
    NodeAttr { ino: ino, size: size, blocks: 0, kind: kind, perm: perm, nlink: 2, rdev: 0, flags: 0 }
}

#[test]
fn new_attributes_depend_on_kind() {
    assert_eq!(create_file(5, 12, FileKind::RegularFile), attr(5, 12, FileKind::RegularFile, 0o644));
    assert_eq!(create_file(6, 0, FileKind::Directory), attr(6, 0, FileKind::Directory, 0o775));
    assert_eq!(create_file(7, 0, FileKind::Symlink), attr(7, 0, FileKind::Symlink, 0o644));
}

#[test]
fn new_node_is_as_large_as_its_data_only_when_regular() {
    let f = KotoNode::create_node(3, "x.val".to_string(), b"0.5".to_vec(), FileKind::RegularFile);
    assert_eq!(f.attr.size, 3);
    assert_eq!(f.ug, Ugen::NotMapped);
    assert_eq!(f.parent, None);
    assert!(f.children.is_empty());
    assert_eq!(f.name, "x.val");
    let d = KotoNode::create_node(4, "d".to_string(), b"abc".to_vec(), FileKind::Directory);
    assert_eq!(d.attr.size, 0);
    assert_eq!(d.data, b"abc".to_vec());
}

#[test]
fn create_then_lookup() {
    let mut fs = root_only();
    let a = fs.create(1, "freq.val".to_string());
    assert_eq!(a, Some(attr(151, 0, FileKind::RegularFile, 0o644)));
    assert_eq!(fs.inode_count, 152);
    assert_eq!(fs.lookup(1, &"freq.val".to_string()), a);
    assert_eq!(fs.getattr(151), a);
    assert_eq!(fs.lookup(1, &"amp.val".to_string()), None);
    assert_eq!(fs.nodes[1].parent, Some(0));
}

#[test]
fn create_without_parent_uses_up_an_inode() {
    let mut fs = root_only();
    assert_eq!(fs.create(99, "x".to_string()), None);
    assert_eq!(fs.inode_count, 152);
    assert_eq!(fs.nodes.len(), 1);
    assert_eq!(fs.mkdir(99, "d".to_string()), None);
    assert_eq!(fs.inode_count, 153);
}

#[test]
fn lookup_finds_the_first_entry_of_a_name() {
    let mut fs = root_only();
    let first = fs.create(1, "a".to_string());
    let _ = fs.mkdir(1, "a".to_string());
    assert_eq!(fs.lookup(1, &"a".to_string()), first);
}

#[test]
fn mkdir_makes_a_directory() {
    let mut fs = root_only();
    let d = fs.mkdir(1, "osc.sine".to_string());
    assert_eq!(d, Some(attr(151, 0, FileKind::Directory, 0o775)));
    let f = fs.create(151, "freq.val".to_string());
    assert_eq!(f, Some(attr(152, 0, FileKind::RegularFile, 0o644)));
    assert_eq!(fs.lookup(151, &"freq.val".to_string()), f);
}

#[test]
fn write_then_read() {
    let mut fs = root_only();
    let _ = fs.create(1, "freq.val".to_string());
    let (n, actions) = fs.write(151, 0, b"440\n");
    assert_eq!(n, 4);
    assert_eq!(actions, vec![UgAction::SyncFile { node: 1, oldname: String::new() }]);
    assert_eq!(fs.read(151, 0, 100), Some(b"440\n".to_vec()));
    assert_eq!(fs.read(151, 1, 2), Some(b"40".to_vec()));
    assert_eq!(fs.read(151, 4, 10), Some(vec![]));
    assert_eq!(fs.getattr(151).map(|a| a.size), Some(4));
    let (m, _) = fs.write(151, 4, b"x");
    assert_eq!(m, 1);
    assert_eq!(fs.read(151, 0, 100), Some(b"440\nx".to_vec()));
    assert_eq!(fs.getattr(151).map(|a| a.size), Some(5));
    let (_, _) = fs.write(151, 0, b"1");
    assert_eq!(fs.read(151, 0, 100), Some(b"1".to_vec()));
}

#[test]
fn write_and_read_of_unknown_inode() {
    let mut fs = root_only();
    let (n, actions) = fs.write(500, 0, b"abc");
    assert_eq!(n, 3);
    assert!(actions.is_empty());
    assert_eq!(fs.read(500, 0, 3), None);
}

#[test]
fn readdir_lists_dot_dotdot_and_entries() {
    let mut fs = root_only();
    let _ = fs.mkdir(1, "osc.sine".to_string());
    let _ = fs.create(1, "amp.val".to_string());
    let listing = fs.readdir(1, 0);
    assert_eq!(
        listing,
        vec![
            DirEntry { ino: 1, offset: 0, kind: FileKind::Directory, name: ".".to_string() },
            DirEntry { ino: 1, offset: 1, kind: FileKind::Directory, name: "..".to_string() },
            DirEntry { ino: 151, offset: 2, kind: FileKind::Directory, name: "osc.sine".to_string() },
            DirEntry { ino: 152, offset: 3, kind: FileKind::RegularFile, name: "amp.val".to_string() },
        ]
    );
    assert!(fs.readdir(1, 1).is_empty());
    assert!(fs.readdir(42, 0).is_empty());
    let sub = fs.readdir(151, 0);
    assert_eq!(sub.len(), 2);
    assert_eq!(sub[1], DirEntry { ino: 151, offset: 1, kind: FileKind::Directory, name: "..".to_string() });
}

#[test]
fn unlink_removes_the_entry() {
    let mut fs = root_only();
    let _ = fs.create(1, "freq.val".to_string());
    let (found, actions) = fs.unlink(1, "freq.val".to_string());
    assert!(found);
    assert!(actions.is_empty());
    assert_eq!(fs.lookup(1, &"freq.val".to_string()), None);
    assert_eq!(fs.getattr(151), None);
    let (again, _) = fs.unlink(1, "freq.val".to_string());
    assert!(!again);
    let (none, none_actions) = fs.unlink(77, "x".to_string());
    assert!(!none);
    assert!(none_actions.is_empty());
}

#[test]
fn removing_from_a_mapped_directory_clears_the_parameter() {
    let mut fs = root_only();
    let _ = fs.mkdir(1, "osc.sine".to_string());
    let _ = fs.create(151, "freq.val".to_string());
    fs.nodes[1].ug = Ugen::Mapped(7);
    let (found, actions) = fs.unlink(151, "freq.val".to_string());
    assert!(found);
    assert_eq!(actions, vec![UgAction::Clear { ug: 7, param: "freq".to_string() }]);
    let actions = fs.rmdir(151, "missing.sine".to_string());
    assert_eq!(actions, vec![UgAction::Clear { ug: 7, param: "missing".to_string() }]);
    let actions = fs.rmdir(151, "plain".to_string());
    assert!(actions.is_empty());
}

#[test]
fn rmdir_removes_the_directory() {
    let mut fs = root_only();
    let _ = fs.mkdir(1, "d".to_string());
    let actions = fs.rmdir(1, "d".to_string());
    assert!(actions.is_empty());
    assert_eq!(fs.lookup(1, &"d".to_string()), None);
    assert_eq!(fs.getattr(151), None);
}

#[test]
fn rename_within_a_directory() {
    let mut fs = root_only();
    let _ = fs.create(1, "freq.val".to_string());
    let actions = fs.rename(1, "freq.val".to_string(), 1, "amp.val".to_string());
    assert_eq!(actions, vec![UgAction::Sync { node: 1, oldname: "freq.val".to_string() }]);
    assert_eq!(fs.lookup(1, &"freq.val".to_string()), None);
    assert_eq!(fs.lookup(1, &"amp.val".to_string()).map(|a| a.ino), Some(151));
    assert_eq!(fs.nodes[1].name, "amp.val");
    let back = fs.rename(1, "amp.val".to_string(), 1, "freq.val".to_string());
    assert_eq!(back, vec![UgAction::Sync { node: 1, oldname: "amp.val".to_string() }]);
    assert_eq!(fs.nodes[0].children, vec![("freq.val".to_string(), 1)]);
}

#[test]
fn rename_of_a_missing_entry_changes_nothing() {
    let mut fs = root_only();
    let actions = fs.rename(1, "nothing".to_string(), 1, "other".to_string());
    assert!(actions.is_empty());
    assert!(fs.nodes[0].children.is_empty());
}

#[test]
fn rename_across_directories() {
    let mut fs = root_only();
    let _ = fs.mkdir(1, "osc.sine".to_string());
    let _ = fs.mkdir(1, "lfo.sine".to_string());
    let _ = fs.create(151, "freq.val".to_string());
    fs.nodes[1].ug = Ugen::Mapped(10);
    fs.nodes[2].ug = Ugen::Mapped(20);
    let actions = fs.rename(151, "freq.val".to_string(), 152, "freq.val".to_string());
    assert_eq!(
        actions,
        vec![
            UgAction::Clear { ug: 10, param: "freq".to_string() },
            UgAction::Clear { ug: 20, param: "lfo".to_string() },
            UgAction::Sync { node: 3, oldname: "freq.val".to_string() },
        ]
    );
    assert_eq!(fs.lookup(151, &"freq.val".to_string()), None);
    assert_eq!(fs.lookup(152, &"freq.val".to_string()).map(|a| a.ino), Some(153));
    assert_eq!(fs.nodes[3].parent, Some(2));
    assert_eq!(fs.nodes[3].name, "freq.val");
}

#[test]
fn rename_into_a_missing_directory_drops_the_entry() {
    let mut fs = root_only();
    let _ = fs.create(1, "a".to_string());
    let actions = fs.rename(1, "a".to_string(), 9, "b".to_string());
    assert!(actions.is_empty());
    assert_eq!(fs.lookup(1, &"a".to_string()), None);
    assert_eq!(fs.getattr(151).map(|a| a.ino), Some(151));
}

#[test]
fn symlink_and_readlink() {
    let mut fs = root_only();
    let (a, actions) = fs.symlink(1, "freq.shared".to_string(), "../osc.sine".to_string());
    assert_eq!(a, Some(attr(151, 0, FileKind::Symlink, 0o644)));
    assert_eq!(actions, vec![UgAction::Sync { node: 1, oldname: String::new() }]);
    assert_eq!(fs.readlink(151), Some("../osc.sine".to_string()));
    assert_eq!(fs.readlink(1), None);
    assert_eq!(fs.readlink(9), None);
    let (none, no_actions) = fs.symlink(9, "x".to_string(), "y".to_string());
    assert_eq!(none, None);
    assert!(no_actions.is_empty());
}

#[test]
fn setattr_asks_for_a_sync() {
    let mut fs = root_only();
    let _ = fs.create(1, "f".to_string());
    let (a, actions) = fs.setattr(151);
    assert_eq!(a.map(|x| x.ino), Some(151));
    assert_eq!(actions, vec![UgAction::Sync { node: 1, oldname: String::new() }]);
    let (none, no_actions) = fs.setattr(3);
    assert_eq!(none, None);
    assert!(no_actions.is_empty());
}

#[test]
fn node_names_come_from_the_parent() {
    let mut fs = root_only();
    let _ = fs.mkdir(1, "osc.sine".to_string());
    let _ = fs.create(151, "val".to_string());
    assert_eq!(
        KotoNode::get_nodename(&fs.nodes, 1),
        Some(("osc".to_string(), "sine".to_string()))
    );
    assert_eq!(KotoNode::get_nodename(&fs.nodes, 2), None);
    assert_eq!(KotoNode::get_nodename(&fs.nodes, 0), None);
    assert_eq!(KotoNode::get_children(&fs.nodes, 1), vec![("val".to_string(), 2)]);
}

#[test]
fn symlinks_resolve_along_the_tree() {
    let mut fs = root_only();
    let _ = fs.mkdir(1, "out.out".to_string());
    let _ = fs.mkdir(151, "src.sine".to_string());
    let _ = fs.mkdir(1, "lfo.sine".to_string());
    let _ = fs.symlink(152, "freq.shared".to_string(), "../../lfo.sine/".to_string());
    let _ = fs.symlink(152, "bad.shared".to_string(), "../nothing".to_string());
    let _ = fs.symlink(152, "up.shared".to_string(), "..".to_string());
    assert_eq!(KotoNode::resolve_symlink(&fs.nodes, 4), Some(3));
    assert_eq!(KotoNode::resolve_symlink(&fs.nodes, 5), None);
    assert_eq!(KotoNode::resolve_symlink(&fs.nodes, 6), Some(1));
}

use koto::ugdump::{DumpSlot, DumpValue, UgDump};

fn number(text: &str) -> DumpValue {
    DumpValue::Number(text.as_bytes().to_vec())
}

fn slot(ug: u64, name: &str, value: DumpValue) -> DumpSlot {
    DumpSlot { ug: ug, name: name.to_string(), value: value }
}

#[test]
fn init_builds_the_tree_of_a_unit_graph() {
    let sine = UgDump::Ug(
        "sine".to_string(),
        vec![slot(4, "freq", number("440")), slot(5, "ph", number("0"))],
    );
    let out = UgDump::Ug(
        "out".to_string(),
        vec![slot(2, "amp", number("0.25")), slot(3, "src", DumpValue::Ug(3, Box::new(sine)))],
    );
    let fs = KotoFS::init(1, &out, &vec![]);
    assert_eq!(fs.root, 1);
    assert_eq!(fs.inode_count, 156);
    assert!(fs.augs.is_empty());
    assert_eq!(fs.nodes[1].name, "out");
    assert_eq!(fs.getattr(1), Some(attr(1, 0, FileKind::Directory, 0o775)));
    assert_eq!(
        fs.nodes[1].children,
        vec![("amp.val".to_string(), 2), ("src.sine".to_string(), 3)]
    );
    assert_eq!(fs.nodes[2].ug, Ugen::Mapped(2));
    assert_eq!(fs.nodes[3].ug, Ugen::Mapped(3));
    assert_eq!(fs.lookup(1, &"amp.val".to_string()), Some(attr(152, 4, FileKind::RegularFile, 0o644)));
    assert_eq!(fs.read(152, 0, 100), Some(b"0.25".to_vec()));
    assert_eq!(fs.lookup(1, &"src.sine".to_string()), Some(attr(153, 0, FileKind::Directory, 0o775)));
    assert_eq!(fs.lookup(153, &"freq.val".to_string()).map(|a| a.ino), Some(154));
    assert_eq!(fs.read(154, 0, 100), Some(b"440".to_vec()));
    assert_eq!(fs.nodes[4].parent, Some(3));
    let listing: Vec<String> = fs.readdir(153, 0).into_iter().map(|e| e.name).collect();
    assert_eq!(listing, vec![".", "..", "freq.val", "ph.val"]);
}

#[test]
fn init_links_a_shared_unit_generator() {
    let sine = || UgDump::Ug("sine".to_string(), vec![slot(9, "freq", number("1"))]);
    let add = UgDump::Ug(
        "+".to_string(),
        vec![
            slot(7, "a", DumpValue::Shared(7, Box::new(sine()))),
            slot(7, "b", DumpValue::Shared(7, Box::new(sine()))),
        ],
    );
    let fs = KotoFS::init(1, &add, &vec![7]);
    assert_eq!(
        fs.nodes[1].children,
        vec![("a.sine".to_string(), 2), ("b.shared".to_string(), 4)]
    );
    assert_eq!(fs.nodes[4].attr.kind, FileKind::Symlink);
    assert_eq!(fs.nodes[4].ug, Ugen::Mapped(7));
    assert_eq!(fs.readlink(fs.nodes[4].attr.ino), Some("a.sine".to_string()));
    assert_eq!(KotoNode::resolve_symlink(&fs.nodes, 4), Some(2));
}

#[test]
fn init_links_reach_up_from_deeper_nodes() {
    let lfo = || UgDump::Ug("sine".to_string(), vec![slot(9, "freq", number("1"))]);
    let osc = UgDump::Ug(
        "sine".to_string(),
        vec![slot(7, "freq", DumpValue::Shared(7, Box::new(lfo())))],
    );
    let add = UgDump::Ug(
        "+".to_string(),
        vec![
            slot(7, "lfo", DumpValue::Shared(7, Box::new(lfo()))),
            slot(3, "osc", DumpValue::Ug(3, Box::new(osc))),
        ],
    );
    let fs = KotoFS::init(1, &add, &vec![7]);
    let link = fs.nodes.iter().position(|n| n.attr.kind == FileKind::Symlink).unwrap();
    assert_eq!(fs.nodes[link].link, Some("../lfo.sine".to_string()));
    assert_eq!(KotoNode::resolve_symlink(&fs.nodes, link), Some(2));
}

#[test]
fn init_numbers_the_rest_values() {
    let seq = UgDump::UgRest(
        "seq".to_string(),
        vec![slot(2, "amp", number("1"))],
        "pat".to_string(),
        vec![
            DumpValue::Pattern(vec![b"c4".to_vec(), b"d4".to_vec()]),
            DumpValue::Table(vec![b"1".to_vec(), b"0.5".to_vec()]),
        ],
    );
    let fs = KotoFS::init(1, &seq, &vec![]);
    assert_eq!(
        fs.nodes[1].children,
        vec![
            ("amp.val".to_string(), 2),
            ("pat0.pat".to_string(), 3),
            ("pat1.tab".to_string(), 4),
        ]
    );
    assert_eq!(fs.nodes[3].name, "pat0");
    assert_eq!(fs.nodes[3].data, b"c4 d4 \n".to_vec());
    assert_eq!(fs.nodes[4].data, b"1 0.5 \n".to_vec());
    assert_eq!(fs.nodes[4].attr.size, 7);
    assert_eq!(fs.nodes[3].ug, Ugen::Mapped(1));
}

#[test]
fn path_map_lists_nodes_below_in_order() {
    let sine = UgDump::Ug("sine".to_string(), vec![slot(4, "freq", number("440"))]);
    let out = UgDump::Ug(
        "out".to_string(),
        vec![slot(3, "src", DumpValue::Ug(3, Box::new(sine))), slot(2, "amp", number("1"))],
    );
    let fs = KotoFS::init(1, &out, &vec![]);
    let mut pathmap = Vec::new();
    KotoNode::build_pathmap(&fs.nodes, 1, &String::new(), &mut pathmap);
    assert_eq!(
        pathmap,
        vec![
            (2, "/src.sine".to_string()),
            (3, "/src.sine/freq.val".to_string()),
            (4, "/amp.val".to_string()),
        ]
    );
}

use koto::kotonode::{SyncPlan, UgSource};

fn type_names() -> Vec<String> {
    vec!["sine".to_string(), "out".to_string()]
}

#[test]
fn file_in_a_mapped_directory_sets_its_parameter() {
    let mut fs = root_only();
    let _ = fs.mkdir(1, "osc.sine".to_string());
    let _ = fs.create(151, "freq.val".to_string());
    let _ = fs.write(152, 0, b"440\n");
    fs.set_ug(1, 30);
    assert_eq!(fs.nodes[1].ug, Ugen::Mapped(30));
    let plan = KotoNode::sync_ug(&fs.nodes, 2, &String::new(), &type_names());
    assert_eq!(
        plan,
        SyncPlan::SetText { parent: 30, param: "freq".to_string(), text: "440".to_string() }
    );
    assert_eq!(KotoNode::sync_file(&fs.nodes, 2, &String::new()), plan);
}

#[test]
fn file_that_is_not_text() {
    let mut fs = root_only();
    let _ = fs.create(1, "freq.val".to_string());
    let _ = fs.write(151, 0, &[0xff, 0xfe]);
    assert_eq!(KotoNode::sync_file(&fs.nodes, 1, &String::new()), SyncPlan::NotText);
}

#[test]
fn file_that_lost_its_name_clears_the_old_parameter() {
    let mut fs = root_only();
    let _ = fs.mkdir(1, "osc.sine".to_string());
    let _ = fs.create(151, "plain".to_string());
    fs.set_ug(1, 30);
    assert_eq!(
        KotoNode::sync_file(&fs.nodes, 2, &"freq.val".to_string()),
        SyncPlan::Clear { parent: 30, param: "freq".to_string() }
    );
    assert_eq!(KotoNode::sync_file(&fs.nodes, 2, &"plain".to_string()), SyncPlan::Nothing);
}

#[test]
fn directory_plans_follow_the_type() {
    let mut fs = root_only();
    let _ = fs.mkdir(1, "osc.sine".to_string());
    let _ = fs.mkdir(151, "freq.sine".to_string());
    let _ = fs.mkdir(151, "amp.shared".to_string());
    let _ = fs.mkdir(151, "ph.noise".to_string());
    fs.set_ug(1, 30);
    fs.set_ug(3, 44);
    let names = type_names();
    assert_eq!(
        KotoNode::sync_directory(&fs.nodes, 2, &String::new(), &names),
        SyncPlan::Build { typename: "sine".to_string(), param: "freq".to_string(), parent_ug: Some(30) }
    );
    assert_eq!(
        KotoNode::sync_directory(&fs.nodes, 3, &String::new(), &names),
        SyncPlan::SetUg { parent: 30, param: "amp".to_string(), ug: 44, node: None }
    );
    assert_eq!(
        KotoNode::sync_directory(&fs.nodes, 4, &String::new(), &names),
        SyncPlan::Clear { parent: 30, param: "ph".to_string() }
    );
    assert_eq!(
        KotoNode::sync_directory(&fs.nodes, 1, &String::new(), &names),
        SyncPlan::Build { typename: "sine".to_string(), param: "osc".to_string(), parent_ug: None }
    );
}

#[test]
fn link_sets_the_parameter_to_its_target() {
    let mut fs = root_only();
    let _ = fs.mkdir(1, "osc.sine".to_string());
    let _ = fs.mkdir(1, "lfo.sine".to_string());
    let _ = fs.symlink(151, "freq.shared".to_string(), "../lfo.sine".to_string());
    fs.set_ug(1, 30);
    fs.set_ug(2, 55);
    assert_eq!(
        KotoNode::sync_ug(&fs.nodes, 3, &String::new(), &type_names()),
        SyncPlan::SetUg { parent: 30, param: "freq".to_string(), ug: 55, node: Some(3) }
    );
    let _ = fs.symlink(151, "amp.shared".to_string(), "../nothing".to_string());
    assert_eq!(KotoNode::sync_symlink(&fs.nodes, 4), SyncPlan::Nothing);
}

#[test]
fn forms_of_new_unit_generators() {
    assert_eq!(KotoNode::default_form(&"sine".to_string()), "(sine 0 0)");
    assert_eq!(KotoNode::default_form(&"wavetable".to_string()), "(wavetable (table -1 -1 -1 1 1 1) 0)");
    assert_eq!(KotoNode::default_form(&"+".to_string()), "(+)");
    assert_eq!(KotoNode::default_form(&"adsr".to_string()), "(adsr 0 0 0 0)");
    assert_eq!(KotoNode::default_form(&"nothing".to_string()), "0");
    let mut fs = root_only();
    let _ = fs.mkdir(1, "osc.sine".to_string());
    fs.nodes[1].name = "osc.lpf".to_string();
    assert_eq!(KotoNode::build_ug_from_node(&fs.nodes, 1), UgSource::Form("(lpf 0 0 0)".to_string()));
    fs.set_ug(1, 3);
    assert_eq!(KotoNode::build_ug_from_node(&fs.nodes, 1), UgSource::Mapped(3));
}

#[test]
fn slot_settings_in_order() {
    let mut fs = root_only();
    let _ = fs.mkdir(1, "seq.seq".to_string());
    let _ = fs.create(151, "amp.val".to_string());
    let _ = fs.create(151, "pat0.pat".to_string());
    let _ = fs.create(151, "junk".to_string());
    let _ = fs.create(151, "pat1.pat".to_string());
    assert_eq!(
        KotoNode::slot_settings(&fs.nodes, 1, &None),
        vec![("amp".to_string(), 2), ("pat0".to_string(), 3), ("pat1".to_string(), 5)]
    );
    assert_eq!(
        KotoNode::slot_settings(&fs.nodes, 1, &Some("pat".to_string())),
        vec![
            ("amp".to_string(), 2),
            ("pat0".to_string(), 3),
            ("pat1".to_string(), 5),
            ("pat".to_string(), 3),
            ("pat".to_string(), 5),
        ]
    );
}

#[test]
fn links_that_can_be_followed() {
    let mut n = KotoNode::create_node(5, "x.shared".to_string(), vec![], FileKind::Symlink);
    assert!(!n.link_followable());
    n.link = Some(String::new());
    assert!(!n.link_followable());
    n.link = Some("../a.sine".to_string());
    assert!(n.link_followable());
    n.link = Some("../é".to_string());
    assert!(!n.link_followable());
}

#[test]
fn unlink_undoes_create() {
    let mut fs = root_only();
    let _ = fs.mkdir(1, "osc.sine".to_string());
    let before = fs.nodes[0].children.clone();
    let inodes_before = fs.inodes.clone();
    let _ = fs.create(1, "freq.val".to_string());
    let (found, _) = fs.unlink(1, "freq.val".to_string());
    assert!(found);
    assert_eq!(fs.nodes[0].children, before);
    assert_eq!(fs.inodes, inodes_before);
}
