//! The filesystem: a tree of nodes that the kernel sees through its
//! requests.
//!
//! Each request of the kernel is a method of `KotoFS` that changes the tree
//! and answers the request. What a request asks of the unit generators (to
//! rebuild one from the tree, or to clear one of its parameters) is handed
//! back as a list of `UgAction`s, to be done in order by the caller.

use std::collections::HashMap;

use vstd::prelude::*;

use crate::text::push_char;
use crate::kotonode::{
    arena_closed, entries_view, file_attr, find_named, lemma_entries_push, lemma_entries_remove,
    lemma_entries_update, lemma_find_named, lemma_nodes_push, nodename_of, nodename_parts,
    lemma_nodes_update, nodes_view, position_named, text_opt, FileKind, KotoNode, NodeAttr,
    NodeModel, Ugen,
};

pub mod from_dump;
pub mod laws;
pub mod links;

verus! {

broadcast use vstd::std_specs::hash::group_hash_axioms;

/// The filesystem: the arena of nodes, the root, the nodes by inode number,
/// and the next inode number to hand out.
pub struct KotoFS {
    pub root: usize,
    pub nodes: Vec<KotoNode>,
    pub inodes: HashMap<u64, usize>,
    /// The node built for each unit generator, while the tree is built.
    pub augs: HashMap<u64, usize>,
    pub inode_count: u64,
}

/// The filesystem as a mathematical value.
#[verifier::ext_equal]
pub struct FsModel {
    pub root: usize,
    pub nodes: Seq<NodeModel>,
    pub inodes: Map<u64, usize>,
    pub augs: Map<u64, usize>,
    pub inode_count: u64,
}

impl View for KotoFS {
    type V = FsModel;

    open spec fn view(&self) -> FsModel {
        FsModel {
            root: self.root,
            nodes: nodes_view(self.nodes@),
            inodes: self.inodes@,
            augs: self.augs@,
            inode_count: self.inode_count,
        }
    }
}

/// What a request asks of the unit generators.
#[derive(Debug, PartialEq, Eq)]
pub enum UgAction {
    /// Bring the unit generator of node `node` in line with the tree, as
    /// its kind asks; `oldname` is the name the node had before a rename,
    /// else empty.
    Sync { node: usize, oldname: String },
    /// Set the parameter that the regular file `node` stands for from its
    /// data; `oldname` as for `Sync`.
    SyncFile { node: usize, oldname: String },
    /// Clear the parameter `param` of the unit generator `ug`.
    Clear { ug: u64, param: String },
}

/// An action as a mathematical value.
pub enum ActionModel {
    Sync(usize, Seq<char>),
    SyncFile(usize, Seq<char>),
    Clear(u64, Seq<char>),
}

impl View for UgAction {
    type V = ActionModel;

    open spec fn view(&self) -> ActionModel {
        match self {
            UgAction::Sync { node, oldname } => ActionModel::Sync(*node, oldname@),
            UgAction::SyncFile { node, oldname } => ActionModel::SyncFile(*node, oldname@),
            UgAction::Clear { ug, param } => ActionModel::Clear(*ug, param@),
        }
    }
}

/// A list of actions as mathematical values.
pub open spec fn actions_view(v: Seq<UgAction>) -> Seq<ActionModel> {
    v.map_values(|a: UgAction| a@)
}

/// Appending an action appends its view.
proof fn lemma_actions_push(v: Seq<UgAction>, a: UgAction)
    ensures
        actions_view(v.push(a)) == actions_view(v).push(a@),
{
    assert(actions_view(v.push(a)) =~= actions_view(v).push(a@));
}

/// A directory entry as the kernel sees it.
#[derive(Debug, PartialEq, Eq)]
pub struct DirEntry {
    pub ino: u64,
    pub offset: i64,
    pub kind: FileKind,
    pub name: String,
}

/// A directory entry as a mathematical value.
pub open spec fn dir_entry_view(e: DirEntry) -> (u64, i64, FileKind, Seq<char>) {
    (e.ino, e.offset, e.kind, e.name@)
}

/// A new node under parent `p`.
pub open spec fn fresh_node(
    ino: u64,
    name: Seq<char>,
    kind: FileKind,
    p: usize,
    link: Option<Seq<char>>,
) -> NodeModel {
    NodeModel {
        ug: Ugen::NotMapped,
        parent: Some(p),
        children: Seq::empty(),
        name: name,
        data: Seq::empty(),
        link: link,
        attr: file_attr(ino, 0, kind),
    }
}

impl FsModel {
    /// The root, the nodes by inode number or by unit generator, and all
    /// entries and parents lie in the arena, and every inode number in use
    /// was handed out before.
    pub open spec fn wf(self) -> bool {
        &&& self.root < self.nodes.len()
        &&& forall|ino: u64| #[trigger]
            self.inodes.contains_key(ino) ==> self.inodes[ino] < self.nodes.len() && ino
                < self.inode_count
        &&& forall|ug: u64| #[trigger] self.augs.contains_key(ug) ==> self.augs[ug] < self.nodes.len()
        &&& forall|i: int| 0 <= i < self.nodes.len() ==> #[trigger] self.nodes[i].attr.ino < self.inode_count
        &&& arena_closed(self.nodes)
    }

    /// The filesystem with node `i` replaced by `n`.
    pub open spec fn with_node(self, i: usize, n: NodeModel) -> FsModel {
        FsModel { nodes: self.nodes.update(i as int, n), ..self }
    }

    /// The node of inode number `ino`.
    pub open spec fn node_of(self, ino: u64) -> Option<usize> {
        if self.inodes.contains_key(ino) {
            Some(self.inodes[ino])
        } else {
            None
        }
    }

    /// The attributes of the node of inode number `ino`.
    pub open spec fn attr_of(self, ino: u64) -> Option<NodeAttr> {
        match self.node_of(ino) {
            Some(i) => Some(self.nodes[i as int].attr),
            None => None,
        }
    }

    /// The node that entry `name` of the node of inode number `parent`
    /// leads to: the first entry of that name.
    pub open spec fn child_named(self, parent: u64, name: Seq<char>) -> Option<usize> {
        match self.node_of(parent) {
            Some(p) => match find_named(self.nodes[p as int].children, name, 0) {
                Some(j) => Some(self.nodes[p as int].children[j].1),
                None => None,
            },
            None => None,
        }
    }

    /// What the kernel lists of directory `ino` from `offset` on: nothing
    /// after the first call (`offset > 0`), else `.`, `..` and the entries
    /// in order. `..` names the directory itself, at the offset of the
    /// parent's inode number (1 for a node without a parent).
    pub open spec fn dir_listing(self, ino: u64, offset: i64) -> Seq<(u64, i64, FileKind, Seq<char>)> {
        if offset > 0 {
            Seq::empty()
        } else {
            match self.node_of(ino) {
                Some(d) => {
                    let dn = self.nodes[d as int];
                    let parent_ino: i64 = match dn.parent {
                        Some(q) => self.nodes[q as int].attr.ino as i64,
                        None => 1,
                    };
                    seq![
                        (ino, 0i64, FileKind::Directory, seq!['.']),
                        (dn.attr.ino, parent_ino, FileKind::Directory, seq!['.', '.']),
                    ] + dn.children.map(
                        |k: int, e: (Seq<char>, usize)|
                            (
                                self.nodes[e.1 as int].attr.ino,
                                (k + 2) as i64,
                                self.nodes[e.1 as int].attr.kind,
                                e.0,
                            ),
                    )
                },
                None => Seq::empty(),
            }
        }
    }

    /// What a read of at most `size` bytes from `offset` of the node of
    /// inode number `ino` gives.
    pub open spec fn read_result(self, ino: u64, offset: i64, size: u32) -> Option<Seq<u8>> {
        match self.node_of(ino) {
            Some(i) => {
                let data = self.nodes[i as int].data;
                let rest = data.subrange(offset as int, data.len() as int);
                Some(
                    if rest.len() >= size {
                        rest.subrange(0, size as int)
                    } else {
                        rest
                    },
                )
            },
            None => None,
        }
    }

    /// The filesystem after the first entry `name` of directory `parent`
    /// is removed, and the node it led to is forgotten by inode number.
    pub open spec fn without_entry(self, parent: u64, name: Seq<char>) -> FsModel {
        match self.node_of(parent) {
            Some(p) => match find_named(self.nodes[p as int].children, name, 0) {
                Some(j) => {
                    let c = self.nodes[p as int].children[j].1;
                    FsModel {
                        nodes: self.nodes.update(p as int, self.nodes[p as int].remove_entry(j)),
                        inodes: self.inodes.remove(self.nodes[c as int].attr.ino),
                        ..self
                    }
                },
                None => self,
            },
            None => self,
        }
    }

    /// Clearing the parameter that `name` names, of the unit generator of
    /// node `p`, where it has one and `name` is a node name.
    pub open spec fn clear_param(self, p: usize, name: Seq<char>) -> Seq<ActionModel> {
        match (self.nodes[p as int].ug, nodename_parts(name)) {
            (Ugen::Mapped(a), Some((param, _))) => seq![ActionModel::Clear(a, param)],
            _ => Seq::empty(),
        }
    }

    /// The actions of removing entry `name` of directory `parent`.
    pub open spec fn removal_actions(self, parent: u64, name: Seq<char>) -> Seq<ActionModel> {
        match self.node_of(parent) {
            Some(p) => self.clear_param(p, name),
            None => Seq::empty(),
        }
    }

    /// The filesystem after `data` is written to the node of inode number
    /// `ino` at `offset`: from the start it replaces the data, elsewhere it
    /// is appended; the size follows.
    pub open spec fn written(self, ino: u64, offset: i64, data: Seq<u8>) -> FsModel {
        match self.node_of(ino) {
            Some(i) => {
                let n = self.nodes[i as int];
                if offset == 0 {
                    self.with_node(
                        i,
                        NodeModel { data: data, attr: NodeAttr { size: data.len() as u64, ..n.attr }, ..n },
                    )
                } else {
                    self.with_node(
                        i,
                        NodeModel {
                            data: n.data + data,
                            attr: NodeAttr { size: (n.attr.size + data.len()) as u64, ..n.attr },
                            ..n
                        },
                    )
                }
            },
            None => self,
        }
    }

    /// The filesystem after the first entry `name` of directory `parent` is
    /// renamed `newname` within the directory; the node takes the new name.
    pub open spec fn renamed_in_place(self, parent: u64, name: Seq<char>, newname: Seq<char>) -> FsModel {
        match self.node_of(parent) {
            Some(p) => match find_named(self.nodes[p as int].children, name, 0) {
                Some(j) => {
                    let c = self.nodes[p as int].children[j].1;
                    let s1 = self.with_node(p, self.nodes[p as int].rename_entry(j, newname));
                    s1.with_node(c, s1.nodes[c as int].with_name(newname))
                },
                None => self,
            },
            None => self,
        }
    }

    /// Taking the first entry `name` out of directory `parent`: the
    /// filesystem after, the node it led to, and the clearing, in `parent`,
    /// of the parameter that `newname` names.
    pub open spec fn detached(self, parent: u64, name: Seq<char>, newname: Seq<char>) -> (
        FsModel,
        Option<usize>,
        Seq<ActionModel>,
    ) {
        match self.node_of(parent) {
            Some(p) => match find_named(self.nodes[p as int].children, name, 0) {
                Some(j) => (
                    self.with_node(p, self.nodes[p as int].remove_entry(j)),
                    Some(self.nodes[p as int].children[j].1),
                    self.clear_param(p, newname),
                ),
                None => (self, None, Seq::empty()),
            },
            None => (self, None, Seq::empty()),
        }
    }

    /// Clearing the parameter that directory `q` stands for in its parent's
    /// unit generator, where `q` has a unit generator and a node name.
    pub open spec fn clear_nodename(self, q: usize) -> Seq<ActionModel> {
        match (self.nodes[q as int].ug, nodename_of(self.nodes, q as int)) {
            (Ugen::Mapped(a), Some((param, _))) => seq![ActionModel::Clear(a, param)],
            _ => Seq::empty(),
        }
    }

    /// Putting node `c` into directory `newparent` as entry `newname`: the
    /// filesystem after, and the clearing of what that directory stands
    /// for.
    pub open spec fn attached(self, c: usize, newparent: u64, newname: Seq<char>) -> (
        FsModel,
        Seq<ActionModel>,
    ) {
        match self.node_of(newparent) {
            Some(q) => {
                let s1 = self.with_node(c, self.nodes[c as int].with_parent(q));
                let s2 = s1.with_node(q, s1.nodes[q as int].add_entry(newname, c));
                (s2, s2.clear_nodename(q))
            },
            None => (self, Seq::empty()),
        }
    }

    /// Renaming: within one directory the entry is renamed; across two, the
    /// node is taken out of the first and put into the second (where the
    /// second does not exist, it is left out of both). The filesystem after,
    /// and the clearings on the way.
    pub open spec fn renamed(
        self,
        parent: u64,
        name: Seq<char>,
        newparent: u64,
        newname: Seq<char>,
    ) -> (FsModel, Seq<ActionModel>) {
        if parent == newparent {
            (self.renamed_in_place(parent, name, newname), Seq::empty())
        } else {
            let (s1, moved, a1) = self.detached(parent, name, newname);
            match moved {
                Some(c) => {
                    let (s2, a2) = s1.attached(c, newparent, newname);
                    (s2, a1 + a2)
                },
                None => (s1, a1),
            }
        }
    }

    /// All that a rename asks of the unit generators: the clearings, then
    /// bringing the node found under the new name in line, with the old
    /// name.
    pub open spec fn rename_actions(
        self,
        parent: u64,
        name: Seq<char>,
        newparent: u64,
        newname: Seq<char>,
    ) -> Seq<ActionModel> {
        let (fin, a) = self.renamed(parent, name, newparent, newname);
        a + match fin.child_named(newparent, newname) {
            Some(c) => seq![ActionModel::Sync(c, name)],
            None => Seq::empty(),
        }
    }

    /// The filesystem after a new node of kind `kind`, named `name`, is made
    /// an entry of the node of inode number `parent`. The next inode number
    /// is taken whether or not that node exists.
    pub open spec fn with_new_child(
        self,
        parent: u64,
        name: Seq<char>,
        kind: FileKind,
        link: Option<Seq<char>>,
    ) -> FsModel {
        let ino = self.inode_count;
        let counted = FsModel { inode_count: (ino + 1) as u64, ..self };
        match self.node_of(parent) {
            Some(p) => {
                let idx = self.nodes.len() as usize;
                FsModel {
                    nodes: self.nodes.push(fresh_node(ino, name, kind, p, link)).update(
                        p as int,
                        self.nodes[p as int].add_entry(name, idx),
                    ),
                    inodes: self.inodes.insert(ino, idx),
                    ..counted
                }
            },
            None => counted,
        }
    }
}

impl KotoFS {
    /// Hands out the next inode number.
    fn inode(&mut self) -> (ino: u64)
        requires
            old(self).inode_count < u64::MAX,
        ensures
            ino == old(self).inode_count,
            final(self)@ == (FsModel { inode_count: (ino + 1) as u64, ..old(self)@ }),
    {
        let ino = self.inode_count;
        self.inode_count += 1;
        ino
    }

    /// Adds the entry `name` for node `c` to node `p`.
    fn push_entry(&mut self, p: usize, name: String, c: usize)
        requires
            old(self)@.wf(),
            p < old(self).nodes.len(),
            c < old(self).nodes.len(),
        ensures
            final(self)@ == old(self)@.with_node(p, old(self)@.nodes[p as int].add_entry(name@, c)),
            final(self)@.wf(),
    {
        let ghost old_model = self@;
        let ghost before = self.nodes@;
        assert(before[p as int]@ == old_model.nodes[p as int]);
        proof {
            lemma_entries_push(before[p as int].children@, (name, c));
        }
        self.nodes[p].children.push((name, c));
        proof {
            lemma_nodes_update(before, p as int, self.nodes@[p as int]);
            assert(self.nodes@ == before.update(p as int, self.nodes@[p as int]));
        }
        assert(self@ =~= old_model.with_node(p, old_model.nodes[p as int].add_entry(name@, c)));
        proof {
            let r = self@;
            assert forall|i: int, j: int|
                0 <= i < r.nodes.len() && 0 <= j < r.nodes[i].children.len() implies #[trigger] r.nodes[i].children[j].1
                < r.nodes.len() by {
                if i != p {
                    assert(r.nodes[i] == old_model.nodes[i]);
                } else if j < old_model.nodes[i].children.len() {
                    assert(r.nodes[i].children[j] == old_model.nodes[i].children[j]);
                }
            }
            assert forall|i: int| 0 <= i < r.nodes.len() implies (#[trigger] r.nodes[i].parent matches Some(
                q,
            ) ==> q < r.nodes.len()) by {
                assert(r.nodes[i].parent == old_model.nodes[i].parent);
            }
        }
    }

    /// Removes the entry at position `j` of node `p`.
    fn remove_entry(&mut self, p: usize, j: usize)
        requires
            old(self)@.wf(),
            p < old(self).nodes.len(),
            j < old(self)@.nodes[p as int].children.len(),
        ensures
            final(self)@ == old(self)@.with_node(p, old(self)@.nodes[p as int].remove_entry(j as int)),
            final(self)@.wf(),
    {
        let ghost old_model = self@;
        let ghost before = self.nodes@;
        assert(before[p as int]@ == old_model.nodes[p as int]);
        proof {
            lemma_entries_remove(before[p as int].children@, j as int);
        }
        self.nodes[p].children.remove(j);
        proof {
            lemma_nodes_update(before, p as int, self.nodes@[p as int]);
            assert(self.nodes@ == before.update(p as int, self.nodes@[p as int]));
        }
        assert(self@ =~= old_model.with_node(p, old_model.nodes[p as int].remove_entry(j as int)));
        proof {
            let r = self@;
            assert forall|i: int, k: int|
                0 <= i < r.nodes.len() && 0 <= k < r.nodes[i].children.len() implies #[trigger] r.nodes[i].children[k].1
                < r.nodes.len() by {
                if i != p {
                    assert(r.nodes[i] == old_model.nodes[i]);
                } else if k < j {
                    assert(r.nodes[i].children[k] == old_model.nodes[i].children[k]);
                } else {
                    assert(r.nodes[i].children[k] == old_model.nodes[i].children[k + 1]);
                }
            }
            assert forall|i: int| 0 <= i < r.nodes.len() implies (#[trigger] r.nodes[i].parent matches Some(
                q,
            ) ==> q < r.nodes.len()) by {
                assert(r.nodes[i].parent == old_model.nodes[i].parent);
            }
        }
    }

    /// Names the entry at position `j` of node `p` `name`.
    fn rename_entry(&mut self, p: usize, j: usize, name: String)
        requires
            old(self)@.wf(),
            p < old(self).nodes.len(),
            j < old(self)@.nodes[p as int].children.len(),
        ensures
            final(self)@ == old(self)@.with_node(
                p,
                old(self)@.nodes[p as int].rename_entry(j as int, name@),
            ),
            final(self)@.wf(),
    {
        let ghost old_model = self@;
        let ghost before = self.nodes@;
        assert(before[p as int]@ == old_model.nodes[p as int]);
        let c = self.nodes[p].children[j].1;
        assert(old_model.nodes[p as int].children[j as int].1 == c);
        proof {
            lemma_entries_update(before[p as int].children@, j as int, (name, c));
        }
        self.nodes[p].children.set(j, (name, c));
        proof {
            lemma_nodes_update(before, p as int, self.nodes@[p as int]);
            assert(self.nodes@ == before.update(p as int, self.nodes@[p as int]));
        }
        assert(self@ =~= old_model.with_node(
            p,
            old_model.nodes[p as int].rename_entry(j as int, name@),
        ));
        proof {
            let r = self@;
            assert forall|i: int, k: int|
                0 <= i < r.nodes.len() && 0 <= k < r.nodes[i].children.len() implies #[trigger] r.nodes[i].children[k].1
                < r.nodes.len() by {
                if i != p {
                    assert(r.nodes[i] == old_model.nodes[i]);
                } else if k != j {
                    assert(r.nodes[i].children[k] == old_model.nodes[i].children[k]);
                }
            }
            assert forall|i: int| 0 <= i < r.nodes.len() implies (#[trigger] r.nodes[i].parent matches Some(
                q,
            ) ==> q < r.nodes.len()) by {
                assert(r.nodes[i].parent == old_model.nodes[i].parent);
            }
        }
    }

    /// Names node `c` `name`.
    fn set_name(&mut self, c: usize, name: String)
        requires
            old(self)@.wf(),
            c < old(self).nodes.len(),
        ensures
            final(self)@ == old(self)@.with_node(c, old(self)@.nodes[c as int].with_name(name@)),
            final(self)@.wf(),
    {
        let ghost old_model = self@;
        let ghost before = self.nodes@;
        assert(before[c as int]@ == old_model.nodes[c as int]);
        self.nodes[c].name = name;
        proof {
            lemma_nodes_update(before, c as int, self.nodes@[c as int]);
            assert(self.nodes@ == before.update(c as int, self.nodes@[c as int]));
        }
        assert(self@ =~= old_model.with_node(c, old_model.nodes[c as int].with_name(name@)));
        proof {
            let r = self@;
            assert forall|i: int, k: int|
                0 <= i < r.nodes.len() && 0 <= k < r.nodes[i].children.len() implies #[trigger] r.nodes[i].children[k].1
                < r.nodes.len() by {
                assert(r.nodes[i].children == old_model.nodes[i].children);
            }
            assert forall|i: int| 0 <= i < r.nodes.len() implies (#[trigger] r.nodes[i].parent matches Some(
                q,
            ) ==> q < r.nodes.len()) by {
                assert(r.nodes[i].parent == old_model.nodes[i].parent);
            }
        }
    }

    /// Makes node `q` the parent of node `c`.
    fn set_parent(&mut self, c: usize, q: usize)
        requires
            old(self)@.wf(),
            c < old(self).nodes.len(),
            q < old(self).nodes.len(),
        ensures
            final(self)@ == old(self)@.with_node(c, old(self)@.nodes[c as int].with_parent(q)),
            final(self)@.wf(),
    {
        let ghost old_model = self@;
        let ghost before = self.nodes@;
        assert(before[c as int]@ == old_model.nodes[c as int]);
        self.nodes[c].parent = Some(q);
        proof {
            lemma_nodes_update(before, c as int, self.nodes@[c as int]);
            assert(self.nodes@ == before.update(c as int, self.nodes@[c as int]));
        }
        assert(self@ =~= old_model.with_node(c, old_model.nodes[c as int].with_parent(q)));
        proof {
            let r = self@;
            assert forall|i: int, k: int|
                0 <= i < r.nodes.len() && 0 <= k < r.nodes[i].children.len() implies #[trigger] r.nodes[i].children[k].1
                < r.nodes.len() by {
                assert(r.nodes[i].children == old_model.nodes[i].children);
            }
            assert forall|i: int| 0 <= i < r.nodes.len() implies (#[trigger] r.nodes[i].parent matches Some(
                x,
            ) ==> x < r.nodes.len()) by {
                if i != c {
                    assert(r.nodes[i].parent == old_model.nodes[i].parent);
                }
            }
        }
    }

    /// The node of inode number `ino`.
    fn node(&self, ino: u64) -> (r: Option<usize>)
        requires
            self@.wf(),
        ensures
            r == self@.node_of(ino),
            r matches Some(i) ==> i < self.nodes.len(),
    {
        match self.inodes.get(&ino) {
            Some(i) => Some(*i),
            None => None,
        }
    }

    /// The attributes of the node of inode number `ino`; `None` answers
    /// that there is no such entry.
    pub fn getattr(&self, ino: u64) -> (r: Option<NodeAttr>)
        requires
            self@.wf(),
        ensures
            r == self@.attr_of(ino),
    {
        match self.node(ino) {
            Some(i) => {
                assert(self@.nodes[i as int] == self.nodes@[i as int]@);
                Some(self.nodes[i].attr)
            },
            None => None,
        }
    }

    /// The attributes of the node that entry `name` of directory `parent`
    /// leads to; `None` answers that there is no such entry.
    pub fn lookup(&self, parent: u64, name: &String) -> (r: Option<NodeAttr>)
        requires
            self@.wf(),
        ensures
            r == match self@.child_named(parent, name@) {
                Some(c) => Some(self@.nodes[c as int].attr),
                None => None,
            },
    {
        match self.node(parent) {
            Some(p) => {
                let ghost model = self@.nodes;
                assert(model[p as int] == self.nodes@[p as int]@);
                proof {
                    lemma_find_named(model[p as int].children, name@, 0);
                }
                match position_named(&self.nodes[p].children, name) {
                    Some(j) => {
                        let c = self.nodes[p].children[j].1;
                        assert(model[p as int].children[j as int].1 == c);
                        assert(model[c as int] == self.nodes@[c as int]@);
                        Some(self.nodes[c].attr)
                    },
                    None => None,
                }
            },
            None => None,
        }
    }

    /// Makes a new node an entry `name` of directory `parent`; its index and
    /// attributes, or `None` where there is no such directory.
    fn add_child(&mut self, parent: u64, name: String, kind: FileKind, link: Option<String>) -> (r:
        Option<(usize, NodeAttr)>)
        requires
            old(self)@.wf(),
            old(self).inode_count < u64::MAX,
        ensures
            final(self)@ == old(self)@.with_new_child(
                parent,
                name@,
                kind,
                text_opt(link),
            ),
            final(self)@.wf(),
            r == match old(self)@.node_of(parent) {
                Some(_) => Some(
                    (old(self).nodes.len(), file_attr(old(self).inode_count, 0, kind)),
                ),
                None => None,
            },
    {
        let ghost old_model = self@;
        let ghost link_model = text_opt(link);
        let ino = self.inode();
        match self.node(parent) {
            Some(p) => {
                let mut node = KotoNode::create_node(ino, name.clone(), Vec::new(), kind);
                node.parent = Some(p);
                node.link = link;
                let attr = node.attr;
                let idx = self.nodes.len();
                assert(node@ == fresh_node(ino, name@, kind, p, link_model));
                proof {
                    lemma_nodes_push(self.nodes@, node);
                }
                self.nodes.push(node);
                let ghost pushed = self.nodes@;
                assert(nodes_view(pushed)[p as int] == old_model.nodes[p as int]);
                assert(pushed[p as int]@ == old_model.nodes[p as int]);
                proof {
                    lemma_entries_push(pushed[p as int].children@, (name, idx));
                }
                self.nodes[p].children.push((name, idx));
                proof {
                    lemma_nodes_update(pushed, p as int, self.nodes@[p as int]);
                    assert(self.nodes@ == pushed.update(p as int, self.nodes@[p as int]));
                }
                self.inodes.insert(ino, idx);
                assert(self@ =~= old_model.with_new_child(parent, name@, kind, link_model));
                assert(self.nodes.len() == idx + 1);
                assert(old_model.nodes.len() == idx);
                proof {
                    lemma_new_child_wf(old_model, parent, name@, kind, link_model);
                }
                Some((idx, attr))
            },
            None => {
                assert(self@ =~= old_model.with_new_child(parent, name@, kind, link_model));
                None
            },
        }
    }

    /// Creates an empty regular file as entry `name` of directory `parent`;
    /// its attributes, or `None` where there is no such directory (the
    /// request then goes unanswered).
    pub fn create(&mut self, parent: u64, name: String) -> (r: Option<NodeAttr>)
        requires
            old(self)@.wf(),
            old(self).inode_count < u64::MAX,
        ensures
            final(self)@ == old(self)@.with_new_child(parent, name@, FileKind::RegularFile, None),
            final(self)@.wf(),
            r == match old(self)@.node_of(parent) {
                Some(_) => Some(file_attr(old(self).inode_count, 0, FileKind::RegularFile)),
                None => None,
            },
    {
        match self.add_child(parent, name, FileKind::RegularFile, None) {
            Some((_, attr)) => Some(attr),
            None => None,
        }
    }

    /// Creates an empty directory as entry `name` of directory `parent`; its
    /// attributes, or `None` (no such entry) where there is no such
    /// directory.
    pub fn mkdir(&mut self, parent: u64, name: String) -> (r: Option<NodeAttr>)
        requires
            old(self)@.wf(),
            old(self).inode_count < u64::MAX,
        ensures
            final(self)@ == old(self)@.with_new_child(parent, name@, FileKind::Directory, None),
            final(self)@.wf(),
            r == match old(self)@.node_of(parent) {
                Some(_) => Some(file_attr(old(self).inode_count, 0, FileKind::Directory)),
                None => None,
            },
    {
        match self.add_child(parent, name, FileKind::Directory, None) {
            Some((_, attr)) => Some(attr),
            None => None,
        }
    }

    /// Creates a symbolic link to `link` as entry `name` of directory
    /// `parent`, and asks for the unit generator of the link to be brought
    /// in line; its attributes, or `None` (no access) where there is no such
    /// directory.
    pub fn symlink(&mut self, parent: u64, name: String, link: String) -> (r: (
        Option<NodeAttr>,
        Vec<UgAction>,
    ))
        requires
            old(self)@.wf(),
            old(self).inode_count < u64::MAX,
        ensures
            final(self)@ == old(self)@.with_new_child(
                parent,
                name@,
                FileKind::Symlink,
                Some(link@),
            ),
            final(self)@.wf(),
            match old(self)@.node_of(parent) {
                Some(_) => {
                    &&& r.0 == Some(file_attr(old(self).inode_count, 0, FileKind::Symlink))
                    &&& actions_view(r.1@) == seq![
                        ActionModel::Sync(old(self).nodes.len() as usize, Seq::empty()),
                    ]
                },
                None => r.0 is None && r.1@.len() == 0,
            },
    {
        let mut actions: Vec<UgAction> = Vec::new();
        match self.add_child(parent, name, FileKind::Symlink, Some(link)) {
            Some((idx, attr)) => {
                let a = UgAction::Sync { node: idx, oldname: String::new() };
                proof {
                    lemma_actions_push(actions@, a);
                }
                actions.push(a);
                assert(actions_view(actions@) =~= seq![ActionModel::Sync(idx, Seq::empty())]);
                (Some(attr), actions)
            },
            None => (None, actions),
        }
    }

    /// Makes node `node` stand for unit generator `ug`.
    pub fn set_ug(&mut self, node: usize, ug: u64)
        requires
            old(self)@.wf(),
            node < old(self).nodes.len(),
        ensures
            final(self)@ == old(self)@.with_node(
                node,
                NodeModel { ug: Ugen::Mapped(ug), ..old(self)@.nodes[node as int] },
            ),
            final(self)@.wf(),
    {
        let ghost old_model = self@;
        let ghost before = self.nodes@;
        assert(before[node as int]@ == old_model.nodes[node as int]);
        self.nodes[node].ug = Ugen::Mapped(ug);
        proof {
            lemma_nodes_update(before, node as int, self.nodes@[node as int]);
            assert(self.nodes@ == before.update(node as int, self.nodes@[node as int]));
        }
        assert(self@ =~= old_model.with_node(
            node,
            NodeModel { ug: Ugen::Mapped(ug), ..old_model.nodes[node as int] },
        ));
        proof {
            let r = self@;
            assert forall|a: int, k: int|
                0 <= a < r.nodes.len() && 0 <= k < r.nodes[a].children.len() implies #[trigger] r.nodes[a].children[k].1
                < r.nodes.len() by {
                assert(r.nodes[a].children == old_model.nodes[a].children);
            }
            assert forall|a: int| 0 <= a < r.nodes.len() implies (#[trigger] r.nodes[a].parent matches Some(
                q,
            ) ==> q < r.nodes.len()) by {
                assert(r.nodes[a].parent == old_model.nodes[a].parent);
            }
            assert forall|a: int| 0 <= a < r.nodes.len() implies #[trigger] r.nodes[a].attr.ino
                < r.inode_count by {
                assert(r.nodes[a].attr == old_model.nodes[a].attr);
            }
        }
    }

    /// Lists directory `ino` from `offset` on, as `dir_listing` says.
    pub fn readdir(&self, ino: u64, offset: i64) -> (r: Vec<DirEntry>)
        requires
            self@.wf(),
            self@.node_of(ino) matches Some(d) ==> self@.nodes[d as int].children.len() + 2
                <= i64::MAX,
        ensures
            r@.map_values(|e: DirEntry| dir_entry_view(e)) == self@.dir_listing(ino, offset),
    {
        let mut r: Vec<DirEntry> = Vec::new();
        if offset > 0 {
            assert(r@.map_values(|e: DirEntry| dir_entry_view(e)) =~= self@.dir_listing(ino, offset));
            return r;
        }
        let ghost model = self@;
        match self.node(ino) {
            Some(d) => {
                assert(model.nodes[d as int] == self.nodes@[d as int]@);
                let mut dot = String::new();
                push_char(&mut dot, '.');
                r.push(DirEntry { ino: ino, offset: 0, kind: FileKind::Directory, name: dot });
                let parent_ino: i64 = match self.nodes[d].parent {
                    Some(q) => {
                        assert(model.nodes[d as int].parent == Some(q));
                        assert(model.nodes[q as int] == self.nodes@[q as int]@);
                        #[verifier::truncate]
                        (self.nodes[q].attr.ino as i64)
                    },
                    None => 1,
                };
                let mut dotdot = String::new();
                push_char(&mut dotdot, '.');
                push_char(&mut dotdot, '.');
                r.push(
                    DirEntry {
                        ino: self.nodes[d].attr.ino,
                        offset: parent_ino,
                        kind: FileKind::Directory,
                        name: dotdot,
                    },
                );
                let ghost listing = model.dir_listing(ino, offset);
                let ghost cs = model.nodes[d as int].children;
                assert(cs == entries_view(self.nodes@[d as int].children@));
                let mut k: usize = 0;
                while k < self.nodes[d].children.len()
                    invariant
                        self@ == model,
                        model.wf(),
                        d < self.nodes.len(),
                        cs == entries_view(self.nodes@[d as int].children@),
                        cs.len() + 2 <= i64::MAX,
                        k <= cs.len(),
                        offset <= 0,
                        model.node_of(ino) == Some(d),
                        listing == model.dir_listing(ino, offset),
                        listing.len() == cs.len() + 2,
                        r.len() == k + 2,
                        forall|m: int|
                            0 <= m < k + 2 ==> #[trigger] dir_entry_view(r@[m]) == listing[m],
                    decreases cs.len() - k,
                {
                    let c = self.nodes[d].children[k].1;
                    assert(model.nodes[d as int].children[k as int].1 == c);
                    assert(c < self.nodes.len());
                    assert(model.nodes[c as int] == self.nodes@[c as int]@);
                    let name = self.nodes[d].children[k].0.clone();
                    let off: i64 = k as i64 + 2;
                    let e = DirEntry {
                        ino: self.nodes[c].attr.ino,
                        offset: off,
                        kind: self.nodes[c].attr.kind,
                        name: name,
                    };
                    r.push(e);
                    assert(listing[k + 2] == (
                        model.nodes[c as int].attr.ino,
                        (k + 2) as i64,
                        model.nodes[c as int].attr.kind,
                        cs[k as int].0,
                    ));
                    assert(dir_entry_view(r@[k + 2]) == listing[k + 2]);
                    k = k + 1;
                }
                assert(r@.map_values(|e: DirEntry| dir_entry_view(e)) =~= listing);
                r
            },
            None => {
                assert(r@.map_values(|e: DirEntry| dir_entry_view(e)) =~= self@.dir_listing(ino, offset));
                r
            },
        }
    }

    /// Removes the first entry `name` of directory `parent` and forgets the
    /// node it led to; whether there was one, and the clearing it asks for.
    fn remove_named(&mut self, parent: u64, name: String) -> (r: (bool, Vec<UgAction>))
        requires
            old(self)@.wf(),
        ensures
            final(self)@ == old(self)@.without_entry(parent, name@),
            final(self)@.wf(),
            r.0 == old(self)@.child_named(parent, name@) is Some,
            actions_view(r.1@) == old(self)@.removal_actions(parent, name@),
    {
        let ghost old_model = self@;
        let mut actions: Vec<UgAction> = Vec::new();
        let mut inode: Option<u64> = None;
        match self.node(parent) {
            Some(p) => {
                assert(old_model.nodes[p as int] == self.nodes@[p as int]@);
                proof {
                    lemma_find_named(old_model.nodes[p as int].children, name@, 0);
                }
                match position_named(&self.nodes[p].children, &name) {
                    Some(j) => {
                        let c = self.nodes[p].children[j].1;
                        assert(old_model.nodes[p as int].children[j as int].1 == c);
                        self.remove_entry(p, j);
                        assert(self@.nodes[c as int].attr == old_model.nodes[c as int].attr);
                        assert(self@.nodes[c as int] == self.nodes@[c as int]@);
                        inode = Some(self.nodes[c].attr.ino);
                    },
                    None => {},
                }
                assert(self@.nodes[p as int].ug == old_model.nodes[p as int].ug);
                assert(self@.nodes[p as int] == self.nodes@[p as int]@);
                match self.nodes[p].ug {
                    Ugen::Mapped(a) => match KotoNode::parse_nodename(name.clone()) {
                        Some((param, _)) => {
                            let act = UgAction::Clear { ug: a, param: param };
                            proof {
                                lemma_actions_push(actions@, act);
                            }
                            actions.push(act);
                        },
                        None => {},
                    },
                    Ugen::NotMapped => {},
                }
                assert(actions_view(actions@) =~= old_model.removal_actions(parent, name@));
            },
            None => {
                assert(actions_view(actions@) =~= old_model.removal_actions(parent, name@));
            },
        }
        let ghost before = self@;
        match inode {
            Some(ino) => {
                self.inodes.remove(&ino);
                assert(self@ =~= old_model.without_entry(parent, name@));
                proof {
                    assert forall|k: u64| #[trigger]
                        self@.inodes.contains_key(k) implies self@.inodes[k] < self@.nodes.len() by {
                        assert(before.inodes.contains_key(k));
                    }
                }
                (true, actions)
            },
            None => {
                assert(self@ =~= old_model.without_entry(parent, name@));
                (false, actions)
            },
        }
    }

    /// Removes directory `name` from directory `parent`, and asks for the
    /// parameter it stood for to be cleared. The request is always answered
    /// as done.
    pub fn rmdir(&mut self, parent: u64, name: String) -> (r: Vec<UgAction>)
        requires
            old(self)@.wf(),
        ensures
            final(self)@ == old(self)@.without_entry(parent, name@),
            final(self)@.wf(),
            actions_view(r@) == old(self)@.removal_actions(parent, name@),
    {
        let (_, actions) = self.remove_named(parent, name);
        actions
    }

    /// Removes entry `name` from directory `parent`, and asks for the
    /// parameter it stood for to be cleared; whether there was such an
    /// entry (else the answer is that there is none).
    pub fn unlink(&mut self, parent: u64, name: String) -> (r: (bool, Vec<UgAction>))
        requires
            old(self)@.wf(),
        ensures
            final(self)@ == old(self)@.without_entry(parent, name@),
            final(self)@.wf(),
            r.0 == old(self)@.child_named(parent, name@) is Some,
            actions_view(r.1@) == old(self)@.removal_actions(parent, name@),
    {
        self.remove_named(parent, name)
    }

    /// The attributes of the node of inode number `ino`, after asking for
    /// its unit generator to be brought in line; `None` answers no access.
    pub fn setattr(&self, ino: u64) -> (r: (Option<NodeAttr>, Vec<UgAction>))
        requires
            self@.wf(),
        ensures
            r.0 == self@.attr_of(ino),
            actions_view(r.1@) == match self@.node_of(ino) {
                Some(i) => seq![ActionModel::Sync(i, Seq::empty())],
                None => Seq::empty(),
            },
    {
        let mut actions: Vec<UgAction> = Vec::new();
        match self.node(ino) {
            Some(i) => {
                let a = UgAction::Sync { node: i, oldname: String::new() };
                proof {
                    lemma_actions_push(actions@, a);
                }
                actions.push(a);
                assert(actions_view(actions@) =~= seq![ActionModel::Sync(i, Seq::empty())]);
                assert(self@.nodes[i as int] == self.nodes@[i as int]@);
                (Some(self.nodes[i].attr), actions)
            },
            None => {
                assert(actions_view(actions@) =~= Seq::empty());
                (None, actions)
            },
        }
    }

    /// Writes `data` to the node of inode number `ino`, as `written` says,
    /// and asks for the parameter the file stands for to be set from it;
    /// the number of bytes taken, as the kernel counts them.
    pub fn write(&mut self, ino: u64, offset: i64, data: &[u8]) -> (r: (u32, Vec<UgAction>))
        requires
            old(self)@.wf(),
            old(self)@.node_of(ino) matches Some(i) ==> offset != 0 ==> old(self)@.nodes[i as int].attr.size
                + data@.len() <= u64::MAX,
        ensures
            final(self)@ == old(self)@.written(ino, offset, data@),
            final(self)@.wf(),
            r.0 == data@.len() as u32,
            actions_view(r.1@) == match old(self)@.node_of(ino) {
                Some(i) => seq![ActionModel::SyncFile(i, Seq::empty())],
                None => Seq::empty(),
            },
    {
        let ghost old_model = self@;
        let length = data.len();
        let mut actions: Vec<UgAction> = Vec::new();
        match self.node(ino) {
            Some(i) => {
                let ghost before = self.nodes@;
                assert(before[i as int]@ == old_model.nodes[i as int]);
                let mut bytes = vstd::slice::slice_to_vec(data);
                if offset == 0 {
                    self.nodes[i].attr.size = length as u64;
                    self.nodes[i].data = bytes;
                } else {
                    self.nodes[i].attr.size = self.nodes[i].attr.size + length as u64;
                    self.nodes[i].data.append(&mut bytes);
                }
                proof {
                    lemma_nodes_update(before, i as int, self.nodes@[i as int]);
                    assert(self.nodes@ == before.update(i as int, self.nodes@[i as int]));
                }
                assert(self@ =~= old_model.written(ino, offset, data@));
                proof {
                    let r = self@;
                    assert forall|a: int, k: int|
                        0 <= a < r.nodes.len() && 0 <= k < r.nodes[a].children.len() implies #[trigger] r.nodes[a].children[k].1
                        < r.nodes.len() by {
                        assert(r.nodes[a].children == old_model.nodes[a].children);
                    }
                    assert forall|a: int| 0 <= a < r.nodes.len() implies (#[trigger] r.nodes[a].parent matches Some(
                        q,
                    ) ==> q < r.nodes.len()) by {
                        assert(r.nodes[a].parent == old_model.nodes[a].parent);
                    }
                }
                let act = UgAction::SyncFile { node: i, oldname: String::new() };
                proof {
                    lemma_actions_push(actions@, act);
                }
                actions.push(act);
                assert(actions_view(actions@) =~= seq![ActionModel::SyncFile(i, Seq::empty())]);
            },
            None => {
                assert(self@ =~= old_model.written(ino, offset, data@));
                assert(actions_view(actions@) =~= Seq::empty());
            },
        }
        (length as u32, actions)
    }

    /// At most `size` bytes of the data of the node of inode number `ino`,
    /// from `offset` on; `None` answers that there is no such entry.
    pub fn read(&self, ino: u64, offset: i64, size: u32) -> (r: Option<Vec<u8>>)
        requires
            self@.wf(),
            self@.node_of(ino) matches Some(i) ==> 0 <= offset <= self@.nodes[i as int].data.len(),
        ensures
            match self@.read_result(ino, offset, size) {
                Some(d) => r matches Some(v) && v@ == d,
                None => r is None,
            },
    {
        match self.node(ino) {
            Some(i) => {
                assert(self@.nodes[i as int] == self.nodes@[i as int]@);
                let data = &self.nodes[i].data;
                let start = offset as usize;
                let end = if data.len() - start >= size as usize {
                    start + size as usize
                } else {
                    data.len()
                };
                let mut v: Vec<u8> = Vec::new();
                let mut p = start;
                while p < end
                    invariant
                        start <= p <= end <= data.len(),
                        v@ == data@.subrange(start as int, p as int),
                    decreases end - p,
                {
                    v.push(data[p]);
                    p = p + 1;
                    assert(v@ =~= data@.subrange(start as int, p as int));
                }
                assert(v@ =~= (if data@.len() - start >= size {
                    data@.subrange(start as int, data@.len() as int).subrange(0, size as int)
                } else {
                    data@.subrange(start as int, data@.len() as int)
                }));
                Some(v)
            },
            None => None,
        }
    }

    /// Renames entry `name` of directory `parent` to `newname` in directory
    /// `newparent`, as `renamed` says; what it asks of the unit generators,
    /// as `rename_actions` says. The request is always answered as done.
    pub fn rename(&mut self, parent: u64, name: String, newparent: u64, newname: String) -> (r: Vec<
        UgAction,
    >)
        requires
            old(self)@.wf(),
        ensures
            final(self)@ == old(self)@.renamed(parent, name@, newparent, newname@).0,
            final(self)@.wf(),
            actions_view(r@) == old(self)@.rename_actions(parent, name@, newparent, newname@),
    {
        let ghost old_model = self@;
        let mut actions: Vec<UgAction> = Vec::new();
        if parent == newparent {
            match self.node(parent) {
                Some(p) => {
                    assert(old_model.nodes[p as int] == self.nodes@[p as int]@);
                    proof {
                        lemma_find_named(old_model.nodes[p as int].children, name@, 0);
                    }
                    match position_named(&self.nodes[p].children, &name) {
                        Some(j) => {
                            let c = self.nodes[p].children[j].1;
                            assert(old_model.nodes[p as int].children[j as int].1 == c);
                            self.rename_entry(p, j, newname.clone());
                            self.set_name(c, newname.clone());
                        },
                        None => {},
                    }
                },
                None => {},
            }
            assert(self@ == old_model.renamed(parent, name@, newparent, newname@).0);
        } else {
            let mut moved: Option<usize> = None;
            match self.node(parent) {
                Some(p) => {
                    assert(old_model.nodes[p as int] == self.nodes@[p as int]@);
                    proof {
                        lemma_find_named(old_model.nodes[p as int].children, name@, 0);
                    }
                    match position_named(&self.nodes[p].children, &name) {
                        Some(j) => {
                            let c = self.nodes[p].children[j].1;
                            assert(old_model.nodes[p as int].children[j as int].1 == c);
                            moved = Some(c);
                            self.remove_entry(p, j);
                            assert(self@.nodes[p as int] == self.nodes@[p as int]@);
                            match KotoNode::parse_nodename(newname.clone()) {
                                Some((param, _)) => match self.nodes[p].ug {
                                    Ugen::Mapped(a) => {
                                        let act = UgAction::Clear { ug: a, param: param };
                                        proof {
                                            lemma_actions_push(actions@, act);
                                        }
                                        actions.push(act);
                                    },
                                    Ugen::NotMapped => {},
                                },
                                None => {},
                            }
                        },
                        None => {},
                    }
                },
                None => {},
            }
            let ghost d = old_model.detached(parent, name@, newname@);
            assert(self@ == d.0);
            assert(moved == d.1);
            assert(actions_view(actions@) =~= d.2);
            match moved {
                Some(c) => match self.node(newparent) {
                    Some(q) => {
                        self.set_parent(c, q);
                        self.push_entry(q, newname.clone(), c);
                        let nodename = KotoNode::get_nodename(&self.nodes, q);
                        assert(self@.nodes[q as int] == self.nodes@[q as int]@);
                        match nodename {
                            Some((param, _)) => match self.nodes[q].ug {
                                Ugen::Mapped(a) => {
                                    let act = UgAction::Clear { ug: a, param: param };
                                    proof {
                                        lemma_actions_push(actions@, act);
                                    }
                                    actions.push(act);
                                },
                                Ugen::NotMapped => {},
                            },
                            None => {},
                        }
                    },
                    None => {},
                },
                None => {},
            }
            assert(self@ == old_model.renamed(parent, name@, newparent, newname@).0);
            assert(actions_view(actions@) =~= old_model.renamed(parent, name@, newparent, newname@).1);
        }
        let ghost fin = self@;
        let ghost before_sync = actions_view(actions@);
        match self.node(newparent) {
            Some(q) => {
                assert(fin.nodes[q as int] == self.nodes@[q as int]@);
                proof {
                    lemma_find_named(fin.nodes[q as int].children, newname@, 0);
                }
                match position_named(&self.nodes[q].children, &newname) {
                    Some(k) => {
                        let c = self.nodes[q].children[k].1;
                        assert(fin.nodes[q as int].children[k as int].1 == c);
                        let act = UgAction::Sync { node: c, oldname: name };
                        proof {
                            lemma_actions_push(actions@, act);
                        }
                        actions.push(act);
                    },
                    None => {},
                }
            },
            None => {},
        }
        assert(actions_view(actions@) =~= old_model.rename_actions(parent, name@, newparent, newname@));
        actions
    }

    /// The target of the symbolic link of inode number `ino`; `None`
    /// answers that there is no such link.
    pub fn readlink(&self, ino: u64) -> (r: Option<String>)
        requires
            self@.wf(),
        ensures
            match self@.node_of(ino) {
                Some(i) => {
                    let n = self@.nodes[i as int];
                    if n.attr.kind == FileKind::Symlink && n.link is Some {
                        r matches Some(l) && l@ == n.link->0
                    } else {
                        r is None
                    }
                },
                None => r is None,
            },
    {
        match self.node(ino) {
            Some(i) => {
                assert(self@.nodes[i as int] == self.nodes@[i as int]@);
                match self.nodes[i].attr.kind {
                    FileKind::Symlink => match &self.nodes[i].link {
                        Some(l) => Some(l.clone()),
                        None => None,
                    },
                    _ => None,
                }
            },
            None => None,
        }
    }
}

/// The first entry of a name is at `j` when `j` holds it and no entry
/// before does.
proof fn lemma_find_named_unique(cs: Seq<(Seq<char>, usize)>, name: Seq<char>, j: int)
    requires
        0 <= j < cs.len(),
        cs[j].0 == name,
        forall|k: int| 0 <= k < j ==> cs[k].0 != name,
    ensures
        find_named(cs, name, 0) == Some(j),
{
    lemma_find_named(cs, name, 0);
}

/// Adding a node keeps the filesystem well formed.
proof fn lemma_new_child_wf(
    fs: FsModel,
    parent: u64,
    name: Seq<char>,
    kind: FileKind,
    link: Option<Seq<char>>,
)
    requires
        fs.wf(),
        fs.inode_count < u64::MAX,
        fs.nodes.len() < usize::MAX,
    ensures
        fs.with_new_child(parent, name, kind, link).wf(),
{
    let r = fs.with_new_child(parent, name, kind, link);
    if let Some(p) = fs.node_of(parent) {
        assert(r.inodes == fs.inodes.insert(fs.inode_count, fs.nodes.len() as usize));
        assert forall|ino: u64| #[trigger]
            r.inodes.contains_key(ino) implies r.inodes[ino] < r.nodes.len() && ino
            < r.inode_count by {
            if ino != fs.inode_count {
                assert(fs.inodes.contains_key(ino));
            }
        }
        assert forall|i: int, j: int|
            0 <= i < r.nodes.len() && 0 <= j < r.nodes[i].children.len() implies #[trigger] r.nodes[i].children[j].1
            < r.nodes.len() by {
            if i != p && i < fs.nodes.len() {
                assert(r.nodes[i] == fs.nodes[i]);
            } else if i == p {
                if j < fs.nodes[i].children.len() {
                    assert(r.nodes[i].children[j] == fs.nodes[i].children[j]);
                }
            }
        }
        assert forall|i: int| 0 <= i < r.nodes.len() implies (#[trigger] r.nodes[i].parent matches Some(
            q,
        ) ==> q < r.nodes.len()) by {
            if i < fs.nodes.len() {
                assert(r.nodes[i].parent == fs.nodes[i].parent);
            }
        }
    }
}

} // verus!
