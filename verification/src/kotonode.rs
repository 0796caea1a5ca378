//! The nodes of the filesystem interface.
//!
//! Each node of the mounted tree stands for a unit generator or for a value
//! of one. A node is named `param.type`: the parameter of its parent that it
//! sets, and the kind of unit generator (or value) that it holds. The nodes
//! live in one arena, a `Vec<KotoNode>`, and refer to each other by their
//! index in it.

use vstd::prelude::*;

use crate::text::{
    chars_of, concat_text, push_char, strip_newlines, text_between, text_of_str, utf8_text,
    without_newlines,
};

verus! {

/// The kind of a node, as the filesystem reports it.
#[derive(Debug, Clone, Copy, PartialEq, Eq, Structural)]
pub enum FileKind {
    RegularFile,
    Directory,
    Symlink,
}

/// The attributes of a node that the filesystem decides. The times and the
/// owner are added where the attributes are handed to the kernel.
#[derive(Debug, Clone, Copy, PartialEq, Eq, Structural)]
pub struct NodeAttr {
    pub ino: u64,
    pub size: u64,
    pub blocks: u64,
    pub kind: FileKind,
    pub perm: u16,
    pub nlink: u32,
    pub rdev: u32,
    pub flags: u32,
}

/// The unit generator that a node stands for, by its handle, if it has one.
#[derive(Debug, Clone, Copy, PartialEq, Eq, Structural)]
pub enum Ugen {
    NotMapped,
    Mapped(u64),
}

/// A node of the tree.
#[derive(Debug)]
pub struct KotoNode {
    pub ug: Ugen,
    /// The index of the parent node, if any.
    pub parent: Option<usize>,
    /// The entries of a directory: a name and the index of the node.
    pub children: Vec<(String, usize)>,
    pub name: String,
    pub data: Vec<u8>,
    /// The target of a symbolic link.
    pub link: Option<String>,
    pub attr: NodeAttr,
}

/// A node as a mathematical value.
#[verifier::ext_equal]
pub struct NodeModel {
    pub ug: Ugen,
    pub parent: Option<usize>,
    pub children: Seq<(Seq<char>, usize)>,
    pub name: Seq<char>,
    pub data: Seq<u8>,
    pub link: Option<Seq<char>>,
    pub attr: NodeAttr,
}

/// A directory entry as a mathematical value.
pub open spec fn entry_view(e: (String, usize)) -> (Seq<char>, usize) {
    (e.0@, e.1)
}

/// The entries of a directory as mathematical values.
pub open spec fn entries_view(cs: Seq<(String, usize)>) -> Seq<(Seq<char>, usize)> {
    cs.map_values(|e: (String, usize)| entry_view(e))
}

/// An optional text as a mathematical value.
pub open spec fn text_opt(o: Option<String>) -> Option<Seq<char>> {
    match o {
        Some(l) => Some(l@),
        None => None,
    }
}

impl View for KotoNode {
    type V = NodeModel;

    open spec fn view(&self) -> NodeModel {
        NodeModel {
            ug: self.ug,
            parent: self.parent,
            children: entries_view(self.children@),
            name: self.name@,
            data: self.data@,
            link: text_opt(self.link),
            attr: self.attr,
        }
    }
}

impl NodeModel {
    /// The node with one more entry, named `name`, for node `idx`.
    pub open spec fn add_entry(self, name: Seq<char>, idx: usize) -> NodeModel {
        NodeModel { children: self.children.push((name, idx)), ..self }
    }

    /// The node without its entry at position `j`.
    pub open spec fn remove_entry(self, j: int) -> NodeModel {
        NodeModel { children: self.children.remove(j), ..self }
    }

    /// The node with its entry at position `j` named `name`.
    pub open spec fn rename_entry(self, j: int, name: Seq<char>) -> NodeModel {
        NodeModel { children: self.children.update(j, (name, self.children[j].1)), ..self }
    }

    /// The node named `name`.
    pub open spec fn with_name(self, name: Seq<char>) -> NodeModel {
        NodeModel { name: name, ..self }
    }

    /// The node with parent `p`.
    pub open spec fn with_parent(self, p: usize) -> NodeModel {
        NodeModel { parent: Some(p), ..self }
    }
}

/// Appending an entry appends its view.
pub proof fn lemma_entries_push(cs: Seq<(String, usize)>, e: (String, usize))
    ensures
        entries_view(cs.push(e)) == entries_view(cs).push(entry_view(e)),
{
    assert(entries_view(cs.push(e)) =~= entries_view(cs).push(entry_view(e)));
}

/// Removing an entry removes its view.
pub proof fn lemma_entries_remove(cs: Seq<(String, usize)>, j: int)
    requires
        0 <= j < cs.len(),
    ensures
        entries_view(cs.remove(j)) == entries_view(cs).remove(j),
{
    assert(entries_view(cs.remove(j)) =~= entries_view(cs).remove(j));
}

/// Replacing an entry replaces its view.
pub proof fn lemma_entries_update(cs: Seq<(String, usize)>, j: int, e: (String, usize))
    requires
        0 <= j < cs.len(),
    ensures
        entries_view(cs.update(j, e)) == entries_view(cs).update(j, entry_view(e)),
{
    assert(entries_view(cs.update(j, e)) =~= entries_view(cs).update(j, entry_view(e)));
}

/// The nodes of an arena as mathematical values.
pub open spec fn nodes_view(nodes: Seq<KotoNode>) -> Seq<NodeModel> {
    nodes.map_values(|n: KotoNode| n@)
}

/// Appending a node appends its view.
pub proof fn lemma_nodes_push(nodes: Seq<KotoNode>, n: KotoNode)
    ensures
        nodes_view(nodes.push(n)) == nodes_view(nodes).push(n@),
{
    assert(nodes_view(nodes.push(n)) =~= nodes_view(nodes).push(n@));
}

/// Replacing a node replaces its view.
pub proof fn lemma_nodes_update(nodes: Seq<KotoNode>, i: int, n: KotoNode)
    requires
        0 <= i < nodes.len(),
    ensures
        nodes_view(nodes.update(i, n)) == nodes_view(nodes).update(i, n@),
{
    assert(nodes_view(nodes.update(i, n)) =~= nodes_view(nodes).update(i, n@));
}

/// The attributes of a new node: directories may be written by the group,
/// other nodes only by their owner.
pub open spec fn file_attr(ino: u64, size: u64, kind: FileKind) -> NodeAttr {
    NodeAttr {
        ino: ino,
        size: size,
        blocks: 0,
        kind: kind,
        perm: if kind == FileKind::Directory { 0o775 } else { 0o644 },
        nlink: 2,
        rdev: 0,
        flags: 0,
    }
}

/// The attributes of a new node of `size` bytes.
pub fn create_file(ino: u64, size: u64, ftype: FileKind) -> (attr: NodeAttr)
    ensures
        attr == file_attr(ino, size, ftype),
{
    let perm: u16 = match ftype {
        FileKind::Directory => 0o775,
        _ => 0o644,
    };
    NodeAttr { ino: ino, size: size, blocks: 0, kind: ftype, perm: perm, nlink: 2, rdev: 0, flags: 0 }
}

/// The index of the first `c` of `s` at or after `i`, or `s.len()`.
pub open spec fn char_index(s: Seq<char>, c: char, i: int) -> int
    decreases s.len() - i,
{
    if i >= s.len() {
        s.len() as int
    } else if s[i] == c {
        i
    } else {
        char_index(s, c, i + 1)
    }
}

/// The two parts of a name that holds exactly one `.`: the part before it
/// and the part after it; `None` for any other name.
pub open spec fn nodename_parts(s: Seq<char>) -> Option<(Seq<char>, Seq<char>)> {
    let d = char_index(s, '.', 0);
    if d < s.len() && char_index(s, '.', d + 1) == s.len() {
        Some((s.subrange(0, d), s.subrange(d + 1, s.len() as int)))
    } else {
        None
    }
}

/// The position of the first entry named `name` at or after `from`.
pub open spec fn find_named(cs: Seq<(Seq<char>, usize)>, name: Seq<char>, from: int) -> Option<int>
    decreases cs.len() - from,
{
    if from >= cs.len() {
        None
    } else if cs[from].0 == name {
        Some(from)
    } else {
        find_named(cs, name, from + 1)
    }
}

/// The position of the first entry for node `node` at or after `from`.
pub open spec fn find_node(cs: Seq<(Seq<char>, usize)>, node: usize, from: int) -> Option<int>
    decreases cs.len() - from,
{
    if from >= cs.len() {
        None
    } else if cs[from].1 == node {
        Some(from)
    } else {
        find_node(cs, node, from + 1)
    }
}

/// A found position lies in range and holds the name; none before it does.
pub proof fn lemma_find_named(cs: Seq<(Seq<char>, usize)>, name: Seq<char>, from: int)
    requires
        0 <= from,
    ensures
        find_named(cs, name, from) matches Some(j) ==> from <= j < cs.len() && cs[j].0 == name
            && forall|k: int| from <= k < j ==> cs[k].0 != name,
        find_named(cs, name, from) is None ==> forall|k: int| from <= k < cs.len() ==> cs[k].0
            != name,
    decreases cs.len() - from,
{
    if from < cs.len() && cs[from].0 != name {
        lemma_find_named(cs, name, from + 1);
    }
}

/// A found position lies in range and refers to the node.
pub proof fn lemma_find_node(cs: Seq<(Seq<char>, usize)>, node: usize, from: int)
    requires
        0 <= from,
    ensures
        find_node(cs, node, from) matches Some(j) ==> from <= j < cs.len() && cs[j].1 == node,
    decreases cs.len() - from,
{
    if from < cs.len() && cs[from].1 != node {
        lemma_find_node(cs, node, from + 1);
    }
}

/// The name of the node at `node`, split as a node name, as its parent lists
/// it: the name of the first entry of the parent that refers to `node`.
pub open spec fn nodename_of(nodes: Seq<NodeModel>, node: int) -> Option<(Seq<char>, Seq<char>)> {
    match nodes[node].parent {
        Some(p) => match find_node(nodes[p as int].children, node as usize, 0) {
            Some(k) => nodename_parts(nodes[p as int].children[k].0),
            None => None,
        },
        None => None,
    }
}

/// The node reached from `node` by one step named `name`: `..` goes to the
/// parent, any other name to the first entry of that name.
pub open spec fn path_step(nodes: Seq<NodeModel>, node: int, name: Seq<char>) -> Option<usize> {
    if name == seq!['.', '.'] {
        nodes[node].parent
    } else {
        match find_named(nodes[node].children, name, 0) {
            Some(k) => Some(nodes[node].children[k].1),
            None => None,
        }
    }
}

/// The node reached from `node` along the `/`-separated path that starts
/// at `from` in `path`: one step per part, each part ending at the next `/`.
pub open spec fn resolve_from(nodes: Seq<NodeModel>, node: int, path: Seq<char>, from: int) -> Option<
    usize,
>
    decreases path.len() - from,
{
    let d = char_index(path, '/', from);
    let step = path_step(nodes, node, path.subrange(from, d));
    if d >= path.len() {
        step
    } else {
        match step {
            Some(next) => if from <= d {
                resolve_from(nodes, next as int, path, d + 1)
            } else {
                None
            },
            None => None,
        }
    }
}

/// The node that the link of node `node` leads to, followed from its
/// parent.
pub open spec fn symlink_target(nodes: Seq<NodeModel>, node: int) -> Option<usize> {
    match nodes[node].parent {
        Some(p) => resolve_from(nodes, p as int, link_path(nodes[node].link->0), 0),
        None => None,
    }
}

/// A link target as it is followed: without one trailing `/`.
pub open spec fn link_path(link: Seq<char>) -> Seq<char> {
    if link.len() > 0 && link.last() == '/' {
        link.drop_last()
    } else {
        link
    }
}

/// The characters are all ASCII.
pub open spec fn is_ascii_text(s: Seq<char>) -> bool {
    forall|i: int| 0 <= i < s.len() ==> (#[trigger] s[i] as u32) < 128
}

/// `names` holds `t`.
fn contains_text(names: &Vec<String>, t: &String) -> (r: bool)
    ensures
        r == names@.map_values(|n: String| n@).contains(t@),
{
    let ghost views = names@.map_values(|n: String| n@);
    let mut i: usize = 0;
    while i < names.len()
        invariant
            i <= names.len(),
            views == names@.map_values(|n: String| n@),
            forall|k: int| 0 <= k < i ==> views[k] != t@,
        decreases names.len() - i,
    {
        assert(views[i as int] == names@[i as int]@);
        if names[i] == *t {
            return true;
        }
        i = i + 1;
    }
    false
}

/// `p` starts with `r`.
fn text_starts_with(p: &String, r: &String) -> (b: bool)
    ensures
        b == starts_with(p@, r@),
{
    let pc = chars_of(p.as_str());
    let rc = chars_of(r.as_str());
    if rc.len() > pc.len() {
        return false;
    }
    let mut i: usize = 0;
    while i < rc.len()
        invariant
            i <= rc.len() <= pc.len(),
            pc@ == p@,
            rc@ == r@,
            forall|k: int| 0 <= k < i ==> pc@[k] == rc@[k],
        decreases rc.len() - i,
    {
        if pc[i] != rc[i] {
            assert(p@.subrange(0, r@.len() as int)[i as int] != r@[i as int]);
            return false;
        }
        i = i + 1;
    }
    assert(p@.subrange(0, r@.len() as int) =~= r@);
    true
}

/// The index of the first `c` at or after `from`, or the length.
fn find_char(chars: &Vec<char>, c: char, from: usize) -> (r: usize)
    requires
        from <= chars.len(),
    ensures
        r == char_index(chars@, c, from as int),
        from <= r <= chars.len(),
{
    let mut p = from;
    while p < chars.len() && chars[p] != c
        invariant
            from <= p <= chars.len(),
            char_index(chars@, c, from as int) == char_index(chars@, c, p as int),
        decreases chars.len() - p,
    {
        p = p + 1;
    }
    p
}

/// The first `c` at or after `i` is at `char_index(s, c, i)`: no `c` lies
/// between.
pub proof fn lemma_char_index(s: Seq<char>, c: char, i: int)
    requires
        0 <= i <= s.len(),
    ensures
        i <= char_index(s, c, i) <= s.len(),
        char_index(s, c, i) < s.len() ==> s[char_index(s, c, i)] == c,
        forall|k: int| i <= k < char_index(s, c, i) ==> s[k] != c,
    decreases s.len() - i,
{
    if i < s.len() && s[i] != c {
        lemma_char_index(s, c, i + 1);
    }
}

/// A node name splits at its one `.` into two parts without one, which
/// join back into the name with a `.`; and two such parts joined with a
/// `.` split back into them.
pub proof fn lemma_nodename_roundtrip(s: Seq<char>, p: Seq<char>, t: Seq<char>)
    ensures
        nodename_parts(s) matches Some((a, b)) ==> s == a + seq!['.'] + b && !a.contains('.')
            && !b.contains('.'),
        !p.contains('.') && !t.contains('.') ==> nodename_parts(p + seq!['.'] + t) == Some((p, t)),
{
    lemma_char_index(s, '.', 0);
    let d = char_index(s, '.', 0);
    if d < s.len() {
        lemma_char_index(s, '.', d + 1);
        if nodename_parts(s) is Some {
            let a = s.subrange(0, d);
            let b = s.subrange(d + 1, s.len() as int);
            assert(s =~= a + seq!['.'] + b);
            assert forall|k: int| 0 <= k < a.len() implies a[k] != '.' by {
                assert(a[k] == s[k]);
            }
            assert forall|k: int| 0 <= k < b.len() implies b[k] != '.' by {
                assert(b[k] == s[d + 1 + k]);
            }
        }
    }
    let j = p + seq!['.'] + t;
    if !p.contains('.') && !t.contains('.') {
        lemma_char_index(j, '.', 0);
        assert(j[p.len() as int] == '.');
        assert forall|k: int| 0 <= k < p.len() implies j[k] != '.' by {
            assert(j[k] == p[k]);
        }
        assert(char_index(j, '.', 0) == p.len());
        lemma_char_index(j, '.', p.len() + 1int);
        if char_index(j, '.', p.len() + 1int) < j.len() {
            let e = char_index(j, '.', p.len() + 1int);
            assert(j[e] == t[e - p.len() - 1]);
        }
        assert(j.subrange(0, p.len() as int) =~= p);
        assert(j.subrange(p.len() + 1int, j.len() as int) =~= t);
    }
}

/// The position of the first entry named `name`.
pub(crate) fn position_named(cs: &Vec<(String, usize)>, name: &String) -> (r: Option<usize>)
    ensures
        match r {
            Some(j) => find_named(entries_view(cs@), name@, 0) == Some(j as int),
            None => find_named(entries_view(cs@), name@, 0) is None,
        },
{
    let mut j: usize = 0;
    while j < cs.len()
        invariant
            j <= cs.len(),
            find_named(entries_view(cs@), name@, 0) == find_named(entries_view(cs@), name@, j as int),
        decreases cs.len() - j,
    {
        if cs[j].0 == *name {
            return Some(j);
        }
        j = j + 1;
    }
    None
}

/// The position of the first entry that refers to node `node`.
fn position_of_node(cs: &Vec<(String, usize)>, node: usize) -> (r: Option<usize>)
    ensures
        match r {
            Some(j) => find_node(entries_view(cs@), node, 0) == Some(j as int),
            None => find_node(entries_view(cs@), node, 0) is None,
        },
{
    let mut j: usize = 0;
    while j < cs.len()
        invariant
            j <= cs.len(),
            find_node(entries_view(cs@), node, 0) == find_node(entries_view(cs@), node, j as int),
        decreases cs.len() - j,
    {
        if cs[j].1 == node {
            return Some(j);
        }
        j = j + 1;
    }
    None
}

/// Every entry of a node leads to a node after it in the arena, as in a
/// tree built from the root down.
pub open spec fn forward(nodes: Seq<NodeModel>) -> bool {
    forall|i: int, j: int|
        0 <= i < nodes.len() && 0 <= j < nodes[i].children.len() ==> #[trigger] nodes[i].children[j].1
            > i
}

/// Each entry of a node leads to a node whose parent it is.
pub open spec fn parents_match(nodes: Seq<NodeModel>) -> bool {
    forall|i: int, j: int|
        0 <= i < nodes.len() && 0 <= j < nodes[i].children.len() ==> nodes[
            #[trigger] nodes[i].children[j].1 as int
        ].parent == Some(i as usize)
}

/// The nodes below node `node`, from its `j`-th entry on, each with its
/// path: the path of its parent, a `/`, and its entry name. Each node comes
/// right before the nodes below it.
pub open spec fn pathmap_from(nodes: Seq<NodeModel>, node: int, path: Seq<char>, j: int) -> Seq<
    (usize, Seq<char>),
>
    decreases nodes.len() - node, nodes[node].children.len() - j,
{
    if 0 <= node < nodes.len() && 0 <= j < nodes[node].children.len() {
        let e = nodes[node].children[j];
        let p = path + seq!['/'] + e.0;
        if node < e.1 < nodes.len() {
            seq![(e.1, p)] + pathmap_from(nodes, e.1 as int, p, 0) + pathmap_from(
                nodes,
                node,
                path,
                j + 1,
            )
        } else {
            Seq::empty()
        }
    } else {
        Seq::empty()
    }
}

/// A path map as mathematical values.
pub open spec fn pathmap_view(pm: Seq<(usize, String)>) -> Seq<(usize, Seq<char>)> {
    pm.map_values(|e: (usize, String)| (e.0, e.1@))
}

/// What bringing the unit generator of a node in line with the tree asks of
/// the unit generators.
#[derive(Debug, PartialEq, Eq)]
pub enum SyncPlan {
    /// Nothing.
    Nothing,
    /// Nothing: the data of the file is not UTF-8 text.
    NotText,
    /// Set parameter `param` of unit generator `parent` from `text`; the
    /// file then stands for what that parameter holds.
    SetText { parent: u64, param: String, text: String },
    /// Build the unit generator of the directory, of type `typename`; where
    /// one comes out and the parent has a unit generator `parent_ug`, set
    /// its parameter `param` to it.
    Build { typename: String, param: String, parent_ug: Option<u64> },
    /// Set parameter `param` of unit generator `parent` to unit generator
    /// `ug`; node `node`, where given, then stands for `ug`.
    SetUg { parent: u64, param: String, ug: u64, node: Option<usize> },
    /// Clear parameter `param` of unit generator `parent`.
    Clear { parent: u64, param: String },
}

/// A plan as a mathematical value.
pub enum PlanModel {
    Nothing,
    NotText,
    SetText(u64, Seq<char>, Seq<char>),
    Build(Seq<char>, Seq<char>, Option<u64>),
    SetUg(u64, Seq<char>, u64, Option<usize>),
    Clear(u64, Seq<char>),
}

impl View for SyncPlan {
    type V = PlanModel;

    open spec fn view(&self) -> PlanModel {
        match self {
            SyncPlan::Nothing => PlanModel::Nothing,
            SyncPlan::NotText => PlanModel::NotText,
            SyncPlan::SetText { parent, param, text } => PlanModel::SetText(*parent, param@, text@),
            SyncPlan::Build { typename, param, parent_ug } => PlanModel::Build(typename@, param@, *parent_ug),
            SyncPlan::SetUg { parent, param, ug, node } => PlanModel::SetUg(*parent, param@, *ug, *node),
            SyncPlan::Clear { parent, param } => PlanModel::Clear(*parent, param@),
        }
    }
}

/// The unit generator of the parent of node `node`, if it has both.
pub open spec fn parent_ug(nodes: Seq<NodeModel>, node: int) -> Option<u64> {
    match nodes[node].parent {
        Some(p) => match nodes[p as int].ug {
            Ugen::Mapped(a) => Some(a),
            Ugen::NotMapped => None,
        },
        None => None,
    }
}

/// Clearing, in the parent's unit generator, the parameter that the old name
/// `oldname` named, where it names one and there is such a unit generator.
pub open spec fn clear_old(nodes: Seq<NodeModel>, node: int, oldname: Seq<char>) -> PlanModel {
    match (nodename_parts(oldname), parent_ug(nodes, node)) {
        (Some((param, _)), Some(a)) => PlanModel::Clear(a, param),
        _ => PlanModel::Nothing,
    }
}

/// The plan for a regular file: a file named `param.type` sets that
/// parameter of the parent's unit generator from its text, newlines left
/// out; a file that lost such a name clears the parameter its old name
/// named.
pub open spec fn file_plan(nodes: Seq<NodeModel>, node: int, oldname: Seq<char>) -> PlanModel {
    let data = nodes[node].data;
    if !vstd::utf8::valid_utf8(data) {
        PlanModel::NotText
    } else {
        match nodename_of(nodes, node) {
            Some((param, _)) => match parent_ug(nodes, node) {
                Some(a) => PlanModel::SetText(
                    a,
                    param,
                    without_newlines(vstd::utf8::decode_utf8(data)),
                ),
                None => PlanModel::Nothing,
            },
            None => clear_old(nodes, node, oldname),
        }
    }
}

/// The plan for a directory named `param.type`: a known type builds the
/// unit generator; `shared` sets the parameter to the unit generator the
/// directory stands for; any other type clears the parameter. A directory
/// that lost such a name clears the parameter its old name named.
pub open spec fn directory_plan(
    nodes: Seq<NodeModel>,
    node: int,
    oldname: Seq<char>,
    type_names: Seq<Seq<char>>,
) -> PlanModel {
    match nodename_of(nodes, node) {
        Some((param, t)) => if type_names.contains(t) {
            PlanModel::Build(t, param, parent_ug(nodes, node))
        } else if t == "shared"@ {
            match (nodes[node].ug, parent_ug(nodes, node)) {
                (Ugen::Mapped(u), Some(a)) => PlanModel::SetUg(a, param, u, None),
                _ => PlanModel::Nothing,
            }
        } else {
            match parent_ug(nodes, node) {
                Some(a) => PlanModel::Clear(a, param),
                None => PlanModel::Nothing,
            }
        },
        None => clear_old(nodes, node, oldname),
    }
}

/// The plan for a link named `param.type`: where its target stands for a
/// unit generator, set the parameter to it, and the link stands for it
/// too.
pub open spec fn link_plan(nodes: Seq<NodeModel>, node: int) -> PlanModel {
    match nodename_of(nodes, node) {
        Some((param, _)) => match symlink_target(nodes, node) {
            Some(t) => match (nodes[t as int].ug, parent_ug(nodes, node)) {
                (Ugen::Mapped(u), Some(a)) => PlanModel::SetUg(a, param, u, Some(node as usize)),
                _ => PlanModel::Nothing,
            },
            None => PlanModel::Nothing,
        },
        None => PlanModel::Nothing,
    }
}

/// The plan for a node, by its kind.
pub open spec fn sync_plan(
    nodes: Seq<NodeModel>,
    node: int,
    oldname: Seq<char>,
    type_names: Seq<Seq<char>>,
) -> PlanModel {
    match nodes[node].attr.kind {
        FileKind::RegularFile => file_plan(nodes, node, oldname),
        FileKind::Directory => directory_plan(nodes, node, oldname, type_names),
        FileKind::Symlink => link_plan(nodes, node),
    }
}

/// A file or a directory whose own name is not `param.type` (it lost such
/// a name in a rename) asks to clear, in the unit generator of its parent,
/// the parameter that its old name named: where the old name is
/// `param.type` and the parent stands for unit generator `a`, the plan is
/// to clear `param` of `a`; where the old name names no parameter, there is
/// nothing to do. Files and directories are treated alike.
pub proof fn lemma_renamed_away_clears(
    nodes: Seq<NodeModel>,
    node: int,
    oldname: Seq<char>,
    type_names: Seq<Seq<char>>,
)
    requires
        0 <= node < nodes.len(),
        nodes[node].attr.kind == FileKind::Directory || (nodes[node].attr.kind
            == FileKind::RegularFile && vstd::utf8::valid_utf8(nodes[node].data)),
        nodename_of(nodes, node) is None,
    ensures
        match (nodename_parts(oldname), nodes[node].parent) {
            (Some((param, _)), Some(q)) => match nodes[q as int].ug {
                Ugen::Mapped(a) => sync_plan(nodes, node, oldname, type_names) == PlanModel::Clear(
                    a,
                    param,
                ),
                Ugen::NotMapped => sync_plan(nodes, node, oldname, type_names) == PlanModel::Nothing,
            },
            _ => sync_plan(nodes, node, oldname, type_names) == PlanModel::Nothing,
        },
{
}

/// A directory named `param.type` of a type in `type_names` asks to build
/// a unit generator of that very type and to set it as parameter `param`
/// of the unit generator its parent stands for (if any); a file named
/// `param.type` with text asks to set `param` of its parent's unit
/// generator from that text with its newlines left out. A directory named
/// `param.shared` that stands for a unit generator sets `param` to it; a
/// directory of any other unknown type clears `param`. A link named
/// `param.type` whose target stands for a unit generator sets `param` to it
/// and records the link as standing for it too.
pub proof fn lemma_named_nodes_set_their_param(
    nodes: Seq<NodeModel>,
    node: int,
    oldname: Seq<char>,
    type_names: Seq<Seq<char>>,
    param: Seq<char>,
    t: Seq<char>,
)
    requires
        0 <= node < nodes.len(),
        nodename_of(nodes, node) == Some((param, t)),
    ensures
        nodes[node].attr.kind == FileKind::Directory && type_names.contains(t) ==> sync_plan(
            nodes,
            node,
            oldname,
            type_names,
        ) == PlanModel::Build(
            t,
            param,
            match nodes[node].parent {
                Some(q) => match nodes[q as int].ug {
                    Ugen::Mapped(a) => Some(a),
                    Ugen::NotMapped => None,
                },
                None => None,
            },
        ),
        nodes[node].attr.kind == FileKind::RegularFile && vstd::utf8::valid_utf8(nodes[node].data)
            ==> match nodes[node].parent {
            Some(q) => match nodes[q as int].ug {
                Ugen::Mapped(a) => sync_plan(nodes, node, oldname, type_names) == PlanModel::SetText(
                    a,
                    param,
                    without_newlines(vstd::utf8::decode_utf8(nodes[node].data)),
                ),
                Ugen::NotMapped => sync_plan(nodes, node, oldname, type_names) == PlanModel::Nothing,
            },
            None => sync_plan(nodes, node, oldname, type_names) == PlanModel::Nothing,
        },
        nodes[node].attr.kind == FileKind::RegularFile && !vstd::utf8::valid_utf8(nodes[node].data)
            ==> sync_plan(nodes, node, oldname, type_names) == PlanModel::NotText,
        nodes[node].attr.kind == FileKind::Directory && !type_names.contains(t) && t == "shared"@
            ==> match (nodes[node].ug, nodes[node].parent) {
            (Ugen::Mapped(u), Some(q)) => match nodes[q as int].ug {
                Ugen::Mapped(a) => sync_plan(nodes, node, oldname, type_names) == PlanModel::SetUg(
                    a,
                    param,
                    u,
                    None,
                ),
                Ugen::NotMapped => sync_plan(nodes, node, oldname, type_names) == PlanModel::Nothing,
            },
            _ => sync_plan(nodes, node, oldname, type_names) == PlanModel::Nothing,
        },
        nodes[node].attr.kind == FileKind::Symlink ==> match (symlink_target(nodes, node), nodes[node].parent) {
            (Some(target), Some(q)) => match (nodes[target as int].ug, nodes[q as int].ug) {
                (Ugen::Mapped(u), Ugen::Mapped(a)) => sync_plan(nodes, node, oldname, type_names)
                    == PlanModel::SetUg(a, param, u, Some(node as usize)),
                _ => sync_plan(nodes, node, oldname, type_names) == PlanModel::Nothing,
            },
            _ => sync_plan(nodes, node, oldname, type_names) == PlanModel::Nothing,
        },
        nodes[node].attr.kind == FileKind::Directory && !type_names.contains(t) && t != "shared"@
            ==> match nodes[node].parent {
            Some(q) => match nodes[q as int].ug {
                Ugen::Mapped(a) => sync_plan(nodes, node, oldname, type_names) == PlanModel::Clear(
                    a,
                    param,
                ),
                Ugen::NotMapped => sync_plan(nodes, node, oldname, type_names) == PlanModel::Nothing,
            },
            None => sync_plan(nodes, node, oldname, type_names) == PlanModel::Nothing,
        },
{
}

/// Where the unit generator of a directory comes from: the one it stands
/// for, or the Tapir Lisp form of a new one of its type.
#[derive(Debug, PartialEq, Eq)]
pub enum UgSource {
    Mapped(u64),
    Form(String),
}

/// The Tapir Lisp form of a new unit generator of type `t`, its parameters
/// zero; `0` for an unknown type.
pub open spec fn default_form(t: Seq<char>) -> Seq<char> {
    if t == "pan"@ {
        "(pan 0 0)"@
    } else if t == "clip"@ {
        "(clip 0 0 0)"@
    } else if t == "offset"@ {
        "(offset 0 0)"@
    } else if t == "gain"@ {
        "(gain 0 0)"@
    } else if t == "+"@ {
        "(+)"@
    } else if t == "*"@ {
        "(*)"@
    } else if t == "oneshot"@ {
        "(oneshot 0 0)"@
    } else if t == "rand"@ {
        "(rand 0)"@
    } else if t == "sine"@ {
        "(sine 0 0)"@
    } else if t == "tri"@ {
        "(tri 0 0)"@
    } else if t == "saw"@ {
        "(saw 0 0)"@
    } else if t == "pulse"@ {
        "(pulse 0 0 0)"@
    } else if t == "table"@ {
        "(table 0 0)"@
    } else if t == "phase"@ {
        "(phase 0)"@
    } else if t == "wavetable"@ {
        "(wavetable (table -1 -1 -1 1 1 1) 0)"@
    } else if t == "pat"@ {
        "(pat)"@
    } else if t == "trig"@ {
        "(trig 0 0)"@
    } else if t == "adsr"@ {
        "(adsr 0 0 0 0)"@
    } else if t == "seq"@ {
        "(seq 0 0 0 0)"@
    } else if t == "lpf"@ {
        "(lpf 0 0 0)"@
    } else if t == "delay"@ {
        "(delay 0 0 0 0)"@
    } else if t == "out"@ {
        "(out 0 0)"@
    } else {
        "0"@
    }
}

/// The types of unit generator that a directory can be made as.
pub open spec fn known_type_names() -> Seq<Seq<char>> {
    seq![
        "pan"@,
        "clip"@,
        "offset"@,
        "gain"@,
        "+"@,
        "*"@,
        "oneshot"@,
        "rand"@,
        "sine"@,
        "tri"@,
        "saw"@,
        "pulse"@,
        "table"@,
        "phase"@,
        "wavetable"@,
        "pat"@,
        "trig"@,
        "adsr"@,
        "seq"@,
        "lpf"@,
        "delay"@,
        "out"@,
    ]
}

/// The default form of every known type is a list whose head is the name
/// of that very type, `(t` followed by a space or the closing parenthesis,
/// so that a new unit generator is of the type its directory names; an
/// unknown type gives the number `0`.
pub proof fn lemma_default_form_head(t: Seq<char>)
    ensures
        known_type_names().contains(t) <==> default_form(t) != "0"@,
        default_form(t) != "0"@ ==> starts_with(default_form(t), seq!['('] + t) && (default_form(
            t,
        )[t.len() as int + 1] == ' ' || default_form(t)[t.len() as int + 1] == ')'),
{
    reveal_strlit("0");
    assert("0"@.len() == 1);
    let known = known_type_names();
    if t == "pan"@ {
        reveal_strlit("pan");
        reveal_strlit("(pan 0 0)");
        assert(known[0] == t);
        assert(known.contains(t));
        assert(default_form(t).len() > 1);
        assert(default_form(t) != "0"@);
        assert(default_form(t).subrange(0, t.len() as int + 1) =~= seq!['('] + t);
    } else if t == "clip"@ {
        reveal_strlit("clip");
        reveal_strlit("(clip 0 0 0)");
        assert(known[1] == t);
        assert(known.contains(t));
        assert(default_form(t).len() > 1);
        assert(default_form(t) != "0"@);
        assert(default_form(t).subrange(0, t.len() as int + 1) =~= seq!['('] + t);
    } else if t == "offset"@ {
        reveal_strlit("offset");
        reveal_strlit("(offset 0 0)");
        assert(known[2] == t);
        assert(known.contains(t));
        assert(default_form(t).len() > 1);
        assert(default_form(t) != "0"@);
        assert(default_form(t).subrange(0, t.len() as int + 1) =~= seq!['('] + t);
    } else if t == "gain"@ {
        reveal_strlit("gain");
        reveal_strlit("(gain 0 0)");
        assert(known[3] == t);
        assert(known.contains(t));
        assert(default_form(t).len() > 1);
        assert(default_form(t) != "0"@);
        assert(default_form(t).subrange(0, t.len() as int + 1) =~= seq!['('] + t);
    } else if t == "+"@ {
        reveal_strlit("+");
        reveal_strlit("(+)");
        assert(known[4] == t);
        assert(known.contains(t));
        assert(default_form(t).len() > 1);
        assert(default_form(t) != "0"@);
        assert(default_form(t).subrange(0, t.len() as int + 1) =~= seq!['('] + t);
    } else if t == "*"@ {
        reveal_strlit("*");
        reveal_strlit("(*)");
        assert(known[5] == t);
        assert(known.contains(t));
        assert(default_form(t).len() > 1);
        assert(default_form(t) != "0"@);
        assert(default_form(t).subrange(0, t.len() as int + 1) =~= seq!['('] + t);
    } else if t == "oneshot"@ {
        reveal_strlit("oneshot");
        reveal_strlit("(oneshot 0 0)");
        assert(known[6] == t);
        assert(known.contains(t));
        assert(default_form(t).len() > 1);
        assert(default_form(t) != "0"@);
        assert(default_form(t).subrange(0, t.len() as int + 1) =~= seq!['('] + t);
    } else if t == "rand"@ {
        reveal_strlit("rand");
        reveal_strlit("(rand 0)");
        assert(known[7] == t);
        assert(known.contains(t));
        assert(default_form(t).len() > 1);
        assert(default_form(t) != "0"@);
        assert(default_form(t).subrange(0, t.len() as int + 1) =~= seq!['('] + t);
    } else if t == "sine"@ {
        reveal_strlit("sine");
        reveal_strlit("(sine 0 0)");
        assert(known[8] == t);
        assert(known.contains(t));
        assert(default_form(t).len() > 1);
        assert(default_form(t) != "0"@);
        assert(default_form(t).subrange(0, t.len() as int + 1) =~= seq!['('] + t);
    } else if t == "tri"@ {
        reveal_strlit("tri");
        reveal_strlit("(tri 0 0)");
        assert(known[9] == t);
        assert(known.contains(t));
        assert(default_form(t).len() > 1);
        assert(default_form(t) != "0"@);
        assert(default_form(t).subrange(0, t.len() as int + 1) =~= seq!['('] + t);
    } else if t == "saw"@ {
        reveal_strlit("saw");
        reveal_strlit("(saw 0 0)");
        assert(known[10] == t);
        assert(known.contains(t));
        assert(default_form(t).len() > 1);
        assert(default_form(t) != "0"@);
        assert(default_form(t).subrange(0, t.len() as int + 1) =~= seq!['('] + t);
    } else if t == "pulse"@ {
        reveal_strlit("pulse");
        reveal_strlit("(pulse 0 0 0)");
        assert(known[11] == t);
        assert(known.contains(t));
        assert(default_form(t).len() > 1);
        assert(default_form(t) != "0"@);
        assert(default_form(t).subrange(0, t.len() as int + 1) =~= seq!['('] + t);
    } else if t == "table"@ {
        reveal_strlit("table");
        reveal_strlit("(table 0 0)");
        assert(known[12] == t);
        assert(known.contains(t));
        assert(default_form(t).len() > 1);
        assert(default_form(t) != "0"@);
        assert(default_form(t).subrange(0, t.len() as int + 1) =~= seq!['('] + t);
    } else if t == "phase"@ {
        reveal_strlit("phase");
        reveal_strlit("(phase 0)");
        assert(known[13] == t);
        assert(known.contains(t));
        assert(default_form(t).len() > 1);
        assert(default_form(t) != "0"@);
        assert(default_form(t).subrange(0, t.len() as int + 1) =~= seq!['('] + t);
    } else if t == "wavetable"@ {
        reveal_strlit("wavetable");
        reveal_strlit("(wavetable (table -1 -1 -1 1 1 1) 0)");
        assert(known[14] == t);
        assert(known.contains(t));
        assert(default_form(t).len() > 1);
        assert(default_form(t) != "0"@);
        assert(default_form(t).subrange(0, t.len() as int + 1) =~= seq!['('] + t);
    } else if t == "pat"@ {
        reveal_strlit("pat");
        reveal_strlit("(pat)");
        assert(known[15] == t);
        assert(known.contains(t));
        assert(default_form(t).len() > 1);
        assert(default_form(t) != "0"@);
        assert(default_form(t).subrange(0, t.len() as int + 1) =~= seq!['('] + t);
    } else if t == "trig"@ {
        reveal_strlit("trig");
        reveal_strlit("(trig 0 0)");
        assert(known[16] == t);
        assert(known.contains(t));
        assert(default_form(t).len() > 1);
        assert(default_form(t) != "0"@);
        assert(default_form(t).subrange(0, t.len() as int + 1) =~= seq!['('] + t);
    } else if t == "adsr"@ {
        reveal_strlit("adsr");
        reveal_strlit("(adsr 0 0 0 0)");
        assert(known[17] == t);
        assert(known.contains(t));
        assert(default_form(t).len() > 1);
        assert(default_form(t) != "0"@);
        assert(default_form(t).subrange(0, t.len() as int + 1) =~= seq!['('] + t);
    } else if t == "seq"@ {
        reveal_strlit("seq");
        reveal_strlit("(seq 0 0 0 0)");
        assert(known[18] == t);
        assert(known.contains(t));
        assert(default_form(t).len() > 1);
        assert(default_form(t) != "0"@);
        assert(default_form(t).subrange(0, t.len() as int + 1) =~= seq!['('] + t);
    } else if t == "lpf"@ {
        reveal_strlit("lpf");
        reveal_strlit("(lpf 0 0 0)");
        assert(known[19] == t);
        assert(known.contains(t));
        assert(default_form(t).len() > 1);
        assert(default_form(t) != "0"@);
        assert(default_form(t).subrange(0, t.len() as int + 1) =~= seq!['('] + t);
    } else if t == "delay"@ {
        reveal_strlit("delay");
        reveal_strlit("(delay 0 0 0 0)");
        assert(known[20] == t);
        assert(known.contains(t));
        assert(default_form(t).len() > 1);
        assert(default_form(t) != "0"@);
        assert(default_form(t).subrange(0, t.len() as int + 1) =~= seq!['('] + t);
    } else if t == "out"@ {
        reveal_strlit("out");
        reveal_strlit("(out 0 0)");
        assert(known[21] == t);
        assert(known.contains(t));
        assert(default_form(t).len() > 1);
        assert(default_form(t) != "0"@);
        assert(default_form(t).subrange(0, t.len() as int + 1) =~= seq!['('] + t);
    } else {
        reveal_strlit("pan");
        reveal_strlit("clip");
        reveal_strlit("offset");
        reveal_strlit("gain");
        reveal_strlit("+");
        reveal_strlit("*");
        reveal_strlit("oneshot");
        reveal_strlit("rand");
        reveal_strlit("sine");
        reveal_strlit("tri");
        reveal_strlit("saw");
        reveal_strlit("pulse");
        reveal_strlit("table");
        reveal_strlit("phase");
        reveal_strlit("wavetable");
        reveal_strlit("pat");
        reveal_strlit("trig");
        reveal_strlit("adsr");
        reveal_strlit("seq");
        reveal_strlit("lpf");
        reveal_strlit("delay");
        reveal_strlit("out");
        assert(!known.contains(t));
    }
}

/// `p` starts with `r`.
pub open spec fn starts_with(p: Seq<char>, r: Seq<char>) -> bool {
    r.len() <= p.len() && p.subrange(0, r.len() as int) == r
}

/// The parameters that the entries from `j` on set: for each entry named
/// `param.type`, in order, its parameter and its node.
pub open spec fn named_params(cs: Seq<(Seq<char>, usize)>, j: int) -> Seq<(Seq<char>, usize)>
    decreases cs.len() - j,
{
    if 0 <= j < cs.len() {
        match nodename_parts(cs[j].0) {
            Some((param, _)) => seq![(param, cs[j].1)] + named_params(cs, j + 1),
            None => named_params(cs, j + 1),
        }
    } else {
        Seq::empty()
    }
}

/// For each entry from `j` on named `param.type` with `param` starting with
/// `rest`, in order: `rest` and its node.
pub open spec fn rest_params(cs: Seq<(Seq<char>, usize)>, rest: Seq<char>, j: int) -> Seq<
    (Seq<char>, usize),
>
    decreases cs.len() - j,
{
    if 0 <= j < cs.len() {
        match nodename_parts(cs[j].0) {
            Some((param, _)) => if starts_with(param, rest) {
                seq![(rest, cs[j].1)] + rest_params(cs, rest, j + 1)
            } else {
                rest_params(cs, rest, j + 1)
            },
            None => rest_params(cs, rest, j + 1),
        }
    } else {
        Seq::empty()
    }
}

/// The parameter that an entry named `param.type` sets.
pub open spec fn entry_param(name: Seq<char>) -> Seq<char> {
    match nodename_parts(name) {
        Some((param, _)) => param,
        None => Seq::empty(),
    }
}

/// Some entry from `j` on is named `param.type` for the parameter `s.0` and
/// is the node `s.1`.
pub open spec fn set_by_entry(cs: Seq<(Seq<char>, usize)>, j: int, s: (Seq<char>, usize)) -> bool {
    exists|k: int|
        j <= k < cs.len() && cs[k].1 == s.1 && nodename_parts(#[trigger] cs[k].0) is Some
            && entry_param(cs[k].0) == s.0
}

/// Some entry from `j` on is named `param.type` with `param` starting with
/// `rest`, and is the node `node`.
pub open spec fn rest_entry(cs: Seq<(Seq<char>, usize)>, j: int, rest: Seq<char>, node: usize) -> bool {
    exists|k: int|
        j <= k < cs.len() && cs[k].1 == node && nodename_parts(#[trigger] cs[k].0) is Some
            && starts_with(entry_param(cs[k].0), rest)
}

/// The settings of a new unit generator come from its entries: each is the
/// parameter of an entry named `param.type` (from `j` on) with that entry's
/// node, every such entry gives one, and an entry whose name is not
/// `param.type` gives none. The settings of the numbered values all set the
/// base name `rest`, each from an entry whose parameter starts with it.
pub proof fn lemma_settings_from_entries(cs: Seq<(Seq<char>, usize)>, rest: Seq<char>, j: int)
    requires
        0 <= j,
    ensures
        forall|i: int|
            0 <= i < named_params(cs, j).len() ==> set_by_entry(cs, j, #[trigger] named_params(cs, j)[i]),
        forall|k: int|
            j <= k < cs.len() && (#[trigger] nodename_parts(cs[k].0)) is Some
                ==> named_params(cs, j).contains((entry_param(cs[k].0), cs[k].1)),
        forall|i: int|
            0 <= i < rest_params(cs, rest, j).len() ==> (#[trigger] rest_params(cs, rest, j)[i]).0
                == rest && rest_entry(cs, j, rest, rest_params(cs, rest, j)[i].1),
    decreases cs.len() - j,
{
    if j < cs.len() {
        lemma_settings_from_entries(cs, rest, j + 1);
        let tail = named_params(cs, j + 1);
        let rtail = rest_params(cs, rest, j + 1);
        assert forall|x: (Seq<char>, usize)| set_by_entry(cs, j + 1, x) implies set_by_entry(cs, j, x) by {
            let k = choose|k: int|
                j + 1 <= k < cs.len() && cs[k].1 == x.1 && nodename_parts(#[trigger] cs[k].0) is Some
                    && entry_param(cs[k].0) == x.0;
            assert(nodename_parts(cs[k].0) is Some);
        }
        assert forall|n: usize| rest_entry(cs, j + 1, rest, n) implies rest_entry(cs, j, rest, n) by {
            let k = choose|k: int|
                j + 1 <= k < cs.len() && cs[k].1 == n && nodename_parts(#[trigger] cs[k].0) is Some
                    && starts_with(entry_param(cs[k].0), rest);
            assert(nodename_parts(cs[k].0) is Some);
        }
        match nodename_parts(cs[j].0) {
            Some((param, _)) => {
                assert(named_params(cs, j) == seq![(param, cs[j].1)] + tail);
                assert forall|i: int| 0 <= i < named_params(cs, j).len() implies set_by_entry(
                    cs,
                    j,
                    #[trigger] named_params(cs, j)[i],
                ) by {
                    if i == 0 {
                        assert(named_params(cs, j)[0] == (param, cs[j].1));
                        assert(nodename_parts(cs[j].0) is Some);
                    } else {
                        assert(named_params(cs, j)[i] == tail[i - 1]);
                    }
                }
                assert forall|k: int|
                    j <= k < cs.len() && (#[trigger] nodename_parts(cs[k].0)) is Some
                        implies named_params(cs, j).contains((entry_param(cs[k].0), cs[k].1)) by {
                    if k == j {
                        assert(named_params(cs, j)[0] == (param, cs[j].1));
                    } else {
                        let e = (entry_param(cs[k].0), cs[k].1);
                        assert(tail.contains(e));
                        let m = choose|m: int| 0 <= m < tail.len() && tail[m] == e;
                        assert(named_params(cs, j)[m + 1] == tail[m]);
                    }
                }
                if starts_with(param, rest) {
                    assert(rest_params(cs, rest, j) == seq![(rest, cs[j].1)] + rtail);
                    assert forall|i: int| 0 <= i < rest_params(cs, rest, j).len() implies (#[trigger] rest_params(
                        cs,
                        rest,
                        j,
                    )[i]).0 == rest && rest_entry(cs, j, rest, rest_params(cs, rest, j)[i].1) by {
                        if i == 0 {
                            assert(rest_params(cs, rest, j)[0] == (rest, cs[j].1));
                            assert(nodename_parts(cs[j].0) is Some);
                        } else {
                            assert(rest_params(cs, rest, j)[i] == rtail[i - 1]);
                        }
                    }
                } else {
                    assert(rest_params(cs, rest, j) == rtail);
                }
            },
            None => {
                assert(named_params(cs, j) == tail);
                assert(rest_params(cs, rest, j) == rtail);
            },
        }
    }
}

/// The nodes of the arena refer only to nodes in it.
pub open spec fn arena_closed(nodes: Seq<NodeModel>) -> bool {
    &&& forall|i: int, j: int|
        0 <= i < nodes.len() && 0 <= j < nodes[i].children.len() ==> #[trigger] nodes[i].children[j].1
            < nodes.len()
    &&& forall|i: int|
        0 <= i < nodes.len() ==> (#[trigger] nodes[i].parent matches Some(p) ==> p < nodes.len())
}

impl KotoNode {
    /// A node that stands for no unit generator yet, with no parent and no
    /// entries. A regular file is as large as its data; other nodes have
    /// size 0.
    pub fn create_node(ino: u64, name: String, data: Vec<u8>, ftype: FileKind) -> (node: KotoNode)
        ensures
            node@ == (NodeModel {
                ug: Ugen::NotMapped,
                parent: None,
                children: Seq::empty(),
                name: name@,
                data: data@,
                link: None,
                attr: file_attr(
                    ino,
                    if ftype == FileKind::RegularFile { data@.len() as u64 } else { 0 },
                    ftype,
                ),
            }),
    {
        let size: u64 = match ftype {
            FileKind::RegularFile => data.len() as u64,
            _ => 0,
        };
        let attr = create_file(ino, size, ftype);
        let node = KotoNode {
            ug: Ugen::NotMapped,
            parent: None,
            children: Vec::new(),
            name: name,
            data: data,
            link: None,
            attr: attr,
        };
        assert(entries_view(node.children@) =~= Seq::empty());
        node
    }

    /// The link of this node can be followed: it has one, not empty, all
    /// of ASCII chars.
    pub fn link_followable(&self) -> (b: bool)
        ensures
            b == (self@.link matches Some(l) && l.len() > 0 && is_ascii_text(l)),
    {
        match &self.link {
            Some(l) => {
                let cs = chars_of(l.as_str());
                assert(self@.link == Some(l@));
                if cs.len() == 0 {
                    return false;
                }
                let mut i: usize = 0;
                while i < cs.len()
                    invariant
                        i <= cs.len(),
                        cs@ == l@,
                        self@.link == Some(l@),
                        forall|k: int| 0 <= k < i ==> (#[trigger] cs@[k] as u32) < 128,
                    decreases cs.len() - i,
                {
                    if (cs[i] as u32) >= 128 {
                        assert(!is_ascii_text(l@)) by {
                            assert(l@[i as int] == cs@[i as int]);
                        }
                        return false;
                    }
                    i = i + 1;
                }
                assert(is_ascii_text(l@)) by {
                    assert forall|k: int| 0 <= k < l@.len() implies (#[trigger] l@[k] as u32) < 128 by {
                        assert(l@[k] == cs@[k]);
                    }
                }
                true
            },
            None => {
                assert(self@.link is None);
                false
            },
        }
    }

    /// Splits a node name `param.type` into the parameter name and the type
    /// name; `None` where the name does not hold exactly one `.`.
    pub fn parse_nodename(name: String) -> (r: Option<(String, String)>)
        ensures
            match nodename_parts(name@) {
                Some((p, t)) => r matches Some((p2, t2)) && p2@ == p && t2@ == t,
                None => r is None,
            },
    {
        let chars = chars_of(name.as_str());
        let d = find_char(&chars, '.', 0);
        if d < chars.len() {
            let e = find_char(&chars, '.', d + 1);
            if e == chars.len() {
                let paramname = text_between(&chars, 0, d);
                let typename = text_between(&chars, d + 1, chars.len());
                return Some((paramname, typename));
            }
        }
        None
    }

    /// The name of node `node` split as a node name, as its parent lists it;
    /// `None` for a node without a parent, one its parent does not list, or
    /// one whose name is not of the form `param.type`.
    pub fn get_nodename(nodes: &Vec<KotoNode>, node: usize) -> (r: Option<(String, String)>)
        requires
            node < nodes.len(),
            arena_closed(nodes_view(nodes@)),
        ensures
            match nodename_of(nodes_view(nodes@), node as int) {
                Some((p, t)) => r matches Some((p2, t2)) && p2@ == p && t2@ == t,
                None => r is None,
            },
    {
        let ghost model = nodes_view(nodes@);
        assert(model[node as int] == nodes@[node as int]@);
        assert(model[node as int].parent == nodes@[node as int].parent);
        match nodes[node].parent {
            Some(p) => {
                assert(model[p as int] == nodes@[p as int]@);
                assert(model[p as int].children == entries_view(nodes@[p as int].children@));
                proof {
                    lemma_find_node(model[p as int].children, node, 0);
                }
                match position_of_node(&nodes[p].children, node) {
                    Some(k) => {
                        let name = nodes[p].children[k].0.clone();
                        assert(model[p as int].children[k as int].0 == name@);
                        assert(nodename_of(model, node as int) == nodename_parts(name@));
                        KotoNode::parse_nodename(name)
                    },
                    None => None,
                }
            },
            None => None,
        }
    }

    /// The node reached from `node` along the part of `path` that starts at
    /// `from`.
    fn resolve_symlink_1(nodes: &Vec<KotoNode>, path: &Vec<char>, from: usize, node: usize) -> (r:
        Option<usize>)
        requires
            from <= path.len(),
            node < nodes.len(),
            arena_closed(nodes_view(nodes@)),
        ensures
            r == resolve_from(nodes_view(nodes@), node as int, path@, from as int),
            r matches Some(n) ==> n < nodes.len(),
        decreases path.len() - from,
    {
        let ghost model = nodes_view(nodes@);
        let d = find_char(path, '/', from);
        let part = text_between(path, from, d);
        assert(model[node as int] == nodes@[node as int]@);
        let step = if d - from == 2 && path[from] == '.' && path[from + 1] == '.' {
            assert(part@ =~= seq!['.', '.']);
            assert(model[node as int].parent == nodes@[node as int].parent);
            nodes[node].parent
        } else {
            assert(part@ != seq!['.', '.']) by {
                assert(part@ == path@.subrange(from as int, d as int));
                if part@ == seq!['.', '.'] {
                    assert(part@.len() == 2);
                    assert(d - from == 2);
                    assert(part@[0] == path@[from as int]);
                    assert(part@[1] == path@[from + 1]);
                }
            }
            assert(model[node as int].children == entries_view(nodes@[node as int].children@));
            proof {
                lemma_find_named(model[node as int].children, part@, 0);
            }
            match position_named(&nodes[node].children, &part) {
                Some(k) => Some(nodes[node].children[k].1),
                None => None,
            }
        };
        assert(step == path_step(model, node as int, path@.subrange(from as int, d as int)));
        if d >= path.len() {
            step
        } else {
            match step {
                Some(next) => KotoNode::resolve_symlink_1(nodes, path, d + 1, next),
                None => None,
            }
        }
    }

    /// The node that the link of node `node` leads to: its target, without
    /// one trailing `/`, is followed part by part from the parent of `node`;
    /// `..` goes up, any other part to the first entry of that name. `None`
    /// where a part leads nowhere or `node` has no parent.
    pub fn resolve_symlink(nodes: &Vec<KotoNode>, node: usize) -> (r: Option<usize>)
        requires
            node < nodes.len(),
            arena_closed(nodes_view(nodes@)),
            nodes_view(nodes@)[node as int].link matches Some(l) && l.len() > 0 && is_ascii_text(l),
        ensures
            r == symlink_target(nodes_view(nodes@), node as int),
            r matches Some(n) ==> n < nodes.len(),
    {
        let ghost model = nodes_view(nodes@);
        assert(model[node as int] == nodes@[node as int]@);
        let link = match &nodes[node].link {
            Some(l) => l,
            None => {
                return None;
            },
        };
        let chars = chars_of(link.as_str());
        let len = if chars[chars.len() - 1] == '/' {
            chars.len() - 1
        } else {
            chars.len()
        };
        let path = chars_of(text_between(&chars, 0, len).as_str());
        assert(path@ =~= link_path(link@));
        match nodes[node].parent {
            Some(p) => {
                assert(model[node as int].parent == nodes@[node as int].parent);
                KotoNode::resolve_symlink_1(nodes, &path, 0, p)
            },
            None => None,
        }
    }

    /// Appends to `pathmap` every node below node `node`, with its path,
    /// as `pathmap_from` says; `path` is the path of `node`.
    pub fn build_pathmap(
        nodes: &Vec<KotoNode>,
        node: usize,
        path: &String,
        pathmap: &mut Vec<(usize, String)>,
    )
        requires
            node < nodes.len(),
            arena_closed(nodes_view(nodes@)),
            forward(nodes_view(nodes@)),
        ensures
            pathmap_view(final(pathmap)@) == pathmap_view(old(pathmap)@) + pathmap_from(
                nodes_view(nodes@),
                node as int,
                path@,
                0,
            ),
        decreases nodes.len() - node,
    {
        let ghost model = nodes_view(nodes@);
        let ghost start = pathmap_view(pathmap@);
        assert(model[node as int] == nodes@[node as int]@);
        let cs = &nodes[node].children;
        assert(model[node as int].children == entries_view(cs@));
        let mut j: usize = 0;
        while j < cs.len()
            invariant
                node < nodes.len(),
                model == nodes_view(nodes@),
                arena_closed(model),
                forward(model),
                model[node as int].children == entries_view(cs@),
                j <= cs.len(),
                pathmap_view(pathmap@) + pathmap_from(model, node as int, path@, j as int) == start
                    + pathmap_from(model, node as int, path@, 0),
            decreases cs.len() - j,
        {
            let c = cs[j].1;
            assert(model[node as int].children[j as int].1 == c);
            assert(model[node as int].children[j as int].0 == cs@[j as int].0@);
            let mut slash = path.clone();
            push_char(&mut slash, '/');
            let child_path = concat_text(&slash, &cs[j].0);
            assert(model[node as int].children[j as int].1 > node);
            assert(c < model.len());
            assert(child_path@ =~= path@ + seq!['/'] + model[node as int].children[j as int].0);
            let ghost before = pathmap_view(pathmap@);
            let entry = (c, child_path.clone());
            pathmap.push(entry);
            assert(pathmap_view(pathmap@) =~= before.push((c, child_path@)));
            KotoNode::build_pathmap(nodes, c, &child_path, pathmap);
            assert(pathmap_from(model, node as int, path@, j as int) == seq![(c, child_path@)]
                + pathmap_from(model, c as int, child_path@, 0) + pathmap_from(
                model,
                node as int,
                path@,
                j + 1,
            ));
            assert(pathmap_view(pathmap@) + pathmap_from(model, node as int, path@, j + 1) =~= before
                + pathmap_from(model, node as int, path@, j as int));
            j = j + 1;
        }
        assert(pathmap_from(model, node as int, path@, j as int) == Seq::<(usize, Seq<char>)>::empty());
        assert(pathmap_view(pathmap@) =~= start + pathmap_from(model, node as int, path@, 0));
    }

    /// The unit generator of the parent of node `node`, if it has both.
    fn parent_ug_of(nodes: &Vec<KotoNode>, node: usize) -> (r: Option<u64>)
        requires
            node < nodes.len(),
            arena_closed(nodes_view(nodes@)),
        ensures
            r == parent_ug(nodes_view(nodes@), node as int),
    {
        let ghost model = nodes_view(nodes@);
        assert(model[node as int] == nodes@[node as int]@);
        assert(model[node as int].parent == nodes@[node as int].parent);
        match nodes[node].parent {
            Some(p) => {
                assert(model[p as int] == nodes@[p as int]@);
                match nodes[p].ug {
                    Ugen::Mapped(a) => Some(a),
                    Ugen::NotMapped => None,
                }
            },
            None => None,
        }
    }

    /// The plan `clear_old` says.
    fn clear_old_plan(nodes: &Vec<KotoNode>, node: usize, oldname: &String) -> (r: SyncPlan)
        requires
            node < nodes.len(),
            arena_closed(nodes_view(nodes@)),
        ensures
            r@ == clear_old(nodes_view(nodes@), node as int, oldname@),
    {
        match KotoNode::parse_nodename(oldname.clone()) {
            Some((param, _)) => match KotoNode::parent_ug_of(nodes, node) {
                Some(a) => SyncPlan::Clear { parent: a, param: param },
                None => SyncPlan::Nothing,
            },
            None => SyncPlan::Nothing,
        }
    }

    /// What bringing regular file `node` in line asks, as `file_plan`
    /// says; `oldname` is its name before a rename, else empty.
    pub fn sync_file(nodes: &Vec<KotoNode>, node: usize, oldname: &String) -> (r: SyncPlan)
        requires
            node < nodes.len(),
            arena_closed(nodes_view(nodes@)),
        ensures
            r@ == file_plan(nodes_view(nodes@), node as int, oldname@),
    {
        let ghost model = nodes_view(nodes@);
        assert(model[node as int] == nodes@[node as int]@);
        match utf8_text(&nodes[node].data) {
            None => SyncPlan::NotText,
            Some(text) => match KotoNode::get_nodename(nodes, node) {
                Some((param, _)) => match KotoNode::parent_ug_of(nodes, node) {
                    Some(a) => SyncPlan::SetText { parent: a, param: param, text: strip_newlines(&text) },
                    None => SyncPlan::Nothing,
                },
                None => KotoNode::clear_old_plan(nodes, node, oldname),
            },
        }
    }

    /// What bringing directory `node` in line asks, as `directory_plan`
    /// says; `type_names` are the types of unit generator there are.
    pub fn sync_directory(
        nodes: &Vec<KotoNode>,
        node: usize,
        oldname: &String,
        type_names: &Vec<String>,
    ) -> (r: SyncPlan)
        requires
            node < nodes.len(),
            arena_closed(nodes_view(nodes@)),
        ensures
            r@ == directory_plan(
                nodes_view(nodes@),
                node as int,
                oldname@,
                type_names@.map_values(|t: String| t@),
            ),
    {
        let ghost model = nodes_view(nodes@);
        assert(model[node as int] == nodes@[node as int]@);
        match KotoNode::get_nodename(nodes, node) {
            Some((param, t)) => {
                if contains_text(type_names, &t) {
                    SyncPlan::Build {
                        typename: t,
                        param: param,
                        parent_ug: KotoNode::parent_ug_of(nodes, node),
                    }
                } else if t == text_of_str("shared") {
                    match (nodes[node].ug, KotoNode::parent_ug_of(nodes, node)) {
                        (Ugen::Mapped(u), Some(a)) => SyncPlan::SetUg { parent: a, param: param, ug: u, node: None },
                        _ => SyncPlan::Nothing,
                    }
                } else {
                    match KotoNode::parent_ug_of(nodes, node) {
                        Some(a) => SyncPlan::Clear { parent: a, param: param },
                        None => SyncPlan::Nothing,
                    }
                }
            },
            None => KotoNode::clear_old_plan(nodes, node, oldname),
        }
    }

    /// What bringing link `node` in line asks, as `link_plan` says.
    pub fn sync_symlink(nodes: &Vec<KotoNode>, node: usize) -> (r: SyncPlan)
        requires
            node < nodes.len(),
            arena_closed(nodes_view(nodes@)),
            nodes_view(nodes@)[node as int].link matches Some(l) && l.len() > 0 && is_ascii_text(l),
        ensures
            r@ == link_plan(nodes_view(nodes@), node as int),
    {
        let ghost model = nodes_view(nodes@);
        let target = KotoNode::resolve_symlink(nodes, node);
        match KotoNode::get_nodename(nodes, node) {
            Some((param, _)) => match target {
                Some(t) => {
                    assert(model[t as int] == nodes@[t as int]@);
                    match (nodes[t].ug, KotoNode::parent_ug_of(nodes, node)) {
                        (Ugen::Mapped(u), Some(a)) => SyncPlan::SetUg {
                            parent: a,
                            param: param,
                            ug: u,
                            node: Some(node),
                        },
                        _ => SyncPlan::Nothing,
                    }
                },
                None => SyncPlan::Nothing,
            },
            None => SyncPlan::Nothing,
        }
    }

    /// What bringing node `node` in line with the tree asks, as
    /// `sync_plan` says.
    pub fn sync_ug(nodes: &Vec<KotoNode>, node: usize, oldname: &String, type_names: &Vec<String>) -> (r:
        SyncPlan)
        requires
            node < nodes.len(),
            arena_closed(nodes_view(nodes@)),
            nodes_view(nodes@)[node as int].attr.kind == FileKind::Symlink ==> (
            nodes_view(nodes@)[node as int].link matches Some(l) && l.len() > 0 && is_ascii_text(l)),
        ensures
            r@ == sync_plan(
                nodes_view(nodes@),
                node as int,
                oldname@,
                type_names@.map_values(|t: String| t@),
            ),
    {
        let ghost model = nodes_view(nodes@);
        assert(model[node as int] == nodes@[node as int]@);
        match nodes[node].attr.kind {
            FileKind::RegularFile => KotoNode::sync_file(nodes, node, oldname),
            FileKind::Directory => KotoNode::sync_directory(nodes, node, oldname, type_names),
            FileKind::Symlink => KotoNode::sync_symlink(nodes, node),
        }
    }

    /// Where the unit generator of directory `node` comes from: the one it
    /// stands for, else a new one of the type its own name `param.type`
    /// gives, from the form `default_form` says.
    pub fn build_ug_from_node(nodes: &Vec<KotoNode>, node: usize) -> (r: UgSource)
        requires
            node < nodes.len(),
            nodes_view(nodes@)[node as int].ug is NotMapped ==> nodename_parts(
                nodes_view(nodes@)[node as int].name,
            ) is Some,
        ensures
            match nodes_view(nodes@)[node as int].ug {
                Ugen::Mapped(a) => r == UgSource::Mapped(a),
                Ugen::NotMapped => (r matches UgSource::Form(f) && match nodename_parts(
                    nodes_view(nodes@)[node as int].name,
                ) {
                    Some((_, t)) => f@ == default_form(t),
                    None => false,
                }),
            },
    {
        let ghost model = nodes_view(nodes@);
        assert(model[node as int] == nodes@[node as int]@);
        let name = nodes[node].name.clone();
        match nodes[node].ug {
            Ugen::Mapped(a) => UgSource::Mapped(a),
            Ugen::NotMapped => match KotoNode::parse_nodename(name) {
                Some((_, t)) => UgSource::Form(KotoNode::default_form(&t)),
                None => UgSource::Form(text_of_str("0")),
            },
        }
    }

    /// The form `default_form` says.
    pub fn default_form(t: &String) -> (r: String)
        ensures
            r@ == default_form(t@),
    {
        if *t == text_of_str("pan") {
            text_of_str("(pan 0 0)")
        } else if *t == text_of_str("clip") {
            text_of_str("(clip 0 0 0)")
        } else if *t == text_of_str("offset") {
            text_of_str("(offset 0 0)")
        } else if *t == text_of_str("gain") {
            text_of_str("(gain 0 0)")
        } else if *t == text_of_str("+") {
            text_of_str("(+)")
        } else if *t == text_of_str("*") {
            text_of_str("(*)")
        } else if *t == text_of_str("oneshot") {
            text_of_str("(oneshot 0 0)")
        } else if *t == text_of_str("rand") {
            text_of_str("(rand 0)")
        } else if *t == text_of_str("sine") {
            text_of_str("(sine 0 0)")
        } else if *t == text_of_str("tri") {
            text_of_str("(tri 0 0)")
        } else if *t == text_of_str("saw") {
            text_of_str("(saw 0 0)")
        } else if *t == text_of_str("pulse") {
            text_of_str("(pulse 0 0 0)")
        } else if *t == text_of_str("table") {
            text_of_str("(table 0 0)")
        } else if *t == text_of_str("phase") {
            text_of_str("(phase 0)")
        } else if *t == text_of_str("wavetable") {
            text_of_str("(wavetable (table -1 -1 -1 1 1 1) 0)")
        } else if *t == text_of_str("pat") {
            text_of_str("(pat)")
        } else if *t == text_of_str("trig") {
            text_of_str("(trig 0 0)")
        } else if *t == text_of_str("adsr") {
            text_of_str("(adsr 0 0 0 0)")
        } else if *t == text_of_str("seq") {
            text_of_str("(seq 0 0 0 0)")
        } else if *t == text_of_str("lpf") {
            text_of_str("(lpf 0 0 0)")
        } else if *t == text_of_str("delay") {
            text_of_str("(delay 0 0 0 0)")
        } else if *t == text_of_str("out") {
            text_of_str("(out 0 0)")
        } else {
            text_of_str("0")
        }
    }

    /// The parameters to set on a new unit generator of directory `node`,
    /// in order, each with the node whose unit generator it is set to: for
    /// every entry named `param.type`, `param`; then, for a unit generator
    /// with numbered values under base name `rest`, `rest` again for every
    /// entry whose parameter starts with it.
    pub fn slot_settings(nodes: &Vec<KotoNode>, node: usize, rest: &Option<String>) -> (r: Vec<
        (String, usize),
    >)
        requires
            node < nodes.len(),
        ensures
            entries_view(r@) == named_params(nodes_view(nodes@)[node as int].children, 0) + match rest {
                Some(b) => rest_params(nodes_view(nodes@)[node as int].children, b@, 0),
                None => Seq::empty(),
            },
    {
        let ghost model = nodes_view(nodes@);
        assert(model[node as int] == nodes@[node as int]@);
        let cs = &nodes[node].children;
        let ghost csv = entries_view(cs@);
        assert(model[node as int].children == csv);
        let mut r: Vec<(String, usize)> = Vec::new();
        let mut j: usize = 0;
        while j < cs.len()
            invariant
                j <= cs.len(),
                csv == entries_view(cs@),
                entries_view(r@) + named_params(csv, j as int) == named_params(csv, 0),
            decreases cs.len() - j,
        {
            assert(csv[j as int] == (cs@[j as int].0@, cs@[j as int].1));
            let ghost before = entries_view(r@);
            match KotoNode::parse_nodename(cs[j].0.clone()) {
                Some((param, _)) => {
                    proof {
                        lemma_entries_push(r@, (param, cs@[j as int].1));
                    }
                    r.push((param, cs[j].1));
                    assert(entries_view(r@) + named_params(csv, j + 1) =~= before + named_params(
                        csv,
                        j as int,
                    ));
                },
                None => {},
            }
            j = j + 1;
        }
        assert(named_params(csv, j as int) == Seq::<(Seq<char>, usize)>::empty());
        assert(entries_view(r@) =~= named_params(csv, 0));
        match rest {
            Some(b) => {
                let ghost start = entries_view(r@);
                let mut k: usize = 0;
                while k < cs.len()
                    invariant
                        k <= cs.len(),
                        csv == entries_view(cs@),
                        entries_view(r@) + rest_params(csv, b@, k as int) == start + rest_params(
                            csv,
                            b@,
                            0,
                        ),
                    decreases cs.len() - k,
                {
                    assert(csv[k as int] == (cs@[k as int].0@, cs@[k as int].1));
                    let ghost before = entries_view(r@);
                    match KotoNode::parse_nodename(cs[k].0.clone()) {
                        Some((param, _)) => {
                            if text_starts_with(&param, b) {
                                proof {
                                    lemma_entries_push(r@, (*b, cs@[k as int].1));
                                }
                                r.push((b.clone(), cs[k].1));
                                assert(entries_view(r@) + rest_params(csv, b@, k + 1) =~= before
                                    + rest_params(csv, b@, k as int));
                            }
                        },
                        None => {},
                    }
                    k = k + 1;
                }
                assert(rest_params(csv, b@, k as int) == Seq::<(Seq<char>, usize)>::empty());
                assert(entries_view(r@) =~= start + rest_params(csv, b@, 0));
            },
            None => {
                assert(entries_view(r@) =~= named_params(csv, 0) + Seq::<(Seq<char>, usize)>::empty());
            },
        }
        r
    }

    /// A copy of the entries of node `node`.
    pub fn get_children(nodes: &Vec<KotoNode>, node: usize) -> (r: Vec<(String, usize)>)
        requires
            node < nodes.len(),
        ensures
            entries_view(r@) == nodes@[node as int]@.children,
    {
        let cs = &nodes[node].children;
        let mut r: Vec<(String, usize)> = Vec::new();
        let mut j: usize = 0;
        while j < cs.len()
            invariant
                j <= cs.len(),
                r.len() == j,
                entries_view(r@) =~= entries_view(cs@).subrange(0, j as int),
            decreases cs.len() - j,
        {
            let name = cs[j].0.clone();
            r.push((name, cs[j].1));
            assert(entries_view(r@)[j as int] == entries_view(cs@)[j as int]);
            j = j + 1;
            assert(entries_view(r@) =~= entries_view(cs@).subrange(0, j as int));
        }
        r
    }
}

} // verus!
