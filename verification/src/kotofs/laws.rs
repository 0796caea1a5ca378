//! What holds of the requests across calls: what a read gives back of a
//! write, what a lookup finds after a node is made or removed, and what a
//! rename keeps.

use vstd::prelude::*;

use super::{lemma_find_named_unique, FsModel};
use crate::kotonode::{
    file_attr, file_plan, find_named, lemma_find_named, nodename_of, parent_ug, FileKind, PlanModel,
};
use crate::text::without_newlines;

verus! {

/// A write from the start replaces the data of the file: a read of at
/// least as many bytes from the start gives back what was written, and the
/// size is the number of bytes written. A write elsewhere appends.
pub proof fn lemma_read_after_write(fs: FsModel, ino: u64, offset: i64, data: Seq<u8>, size: u32)
    requires
        fs.wf(),
        fs.node_of(ino) is Some,
        data.len() <= u64::MAX,
    ensures
        offset == 0 && size >= data.len() ==> fs.written(ino, 0, data).read_result(ino, 0, size)
            == Some(data),
        offset == 0 ==> fs.written(ino, 0, data).attr_of(ino)->0.size == data.len(),
        offset != 0 ==> fs.written(ino, offset, data).nodes[fs.node_of(ino)->0 as int].data
            == fs.nodes[fs.node_of(ino)->0 as int].data + data,
        fs.written(ino, offset, data).node_of(ino) == fs.node_of(ino),
{
    let i = fs.node_of(ino)->0;
    if offset == 0 {
        let w = fs.written(ino, 0, data);
        assert(w.nodes[i as int].data == data);
        assert(data.subrange(0, data.len() as int) =~= data);
        if size >= data.len() {
            if data.len() >= size {
                assert(data.subrange(0, size as int) =~= data);
            }
        }
    }
}

/// Writing text to a file named `param.type` from the start asks for the
/// file to be brought in line, and that sets the parameter `param` of the
/// parent's unit generator from the text written, newlines left out.
pub proof fn lemma_write_then_sync(fs: FsModel, ino: u64, data: Seq<u8>, oldname: Seq<char>)
    requires
        fs.wf(),
        fs.node_of(ino) matches Some(i) && fs.nodes[i as int].attr.kind == FileKind::RegularFile
            && nodename_of(fs.nodes, i as int) is Some && parent_ug(fs.nodes, i as int) is Some,
        vstd::utf8::valid_utf8(data),
        data.len() <= u64::MAX,
    ensures
        ({
            let i = fs.node_of(ino)->0;
            let w = fs.written(ino, 0, data);
            match (nodename_of(fs.nodes, i as int), parent_ug(fs.nodes, i as int)) {
                (Some((param, _)), Some(a)) => file_plan(w.nodes, i as int, oldname)
                    == PlanModel::SetText(a, param, without_newlines(vstd::utf8::decode_utf8(data))),
                _ => false,
            }
        }),
{
    let i = fs.node_of(ino)->0;
    let w = fs.written(ino, 0, data);
    let n = fs.nodes[i as int];
    assert(w.nodes[i as int].data == data);
    assert(w.nodes[i as int].parent == n.parent);
    assert(w.nodes[i as int].attr.kind == n.attr.kind);
    if let Some(p) = n.parent {
        if p != i {
            assert(w.nodes[p as int] == fs.nodes[p as int]);
        }
        assert(w.nodes[p as int].children == fs.nodes[p as int].children);
        assert(w.nodes[p as int].ug == fs.nodes[p as int].ug);
    }
    assert(nodename_of(w.nodes, i as int) == nodename_of(fs.nodes, i as int));
    assert(parent_ug(w.nodes, i as int) == parent_ug(fs.nodes, i as int));
}

/// A new entry is found by its name unless the directory already had an
/// entry of that name (the first one found stays first); the new node has
/// a fresh inode number, by which its attributes are found, and the
/// directory as its parent. Where there is no such directory, only the
/// inode number is used up.
pub proof fn lemma_lookup_after_new_child(
    fs: FsModel,
    parent: u64,
    name: Seq<char>,
    kind: FileKind,
    link: Option<Seq<char>>,
)
    requires
        fs.wf(),
        fs.inode_count < u64::MAX,
        fs.nodes.len() < usize::MAX,
    ensures
        !fs.inodes.contains_key(fs.inode_count),
        ({
            let r = fs.with_new_child(parent, name, kind, link);
            &&& r.inode_count == fs.inode_count + 1
            &&& r.node_of(parent) == fs.node_of(parent)
            &&& match fs.node_of(parent) {
                Some(p) => {
                    &&& r.child_named(parent, name) == match fs.child_named(parent, name) {
                        Some(c) => Some(c),
                        None => Some(fs.nodes.len() as usize),
                    }
                    &&& r.attr_of(fs.inode_count) == Some(file_attr(fs.inode_count, 0, kind))
                    &&& r.nodes[fs.nodes.len() as int].parent == Some(p)
                    &&& r.nodes[fs.nodes.len() as int].link == link
                },
                None => r == (FsModel { inode_count: (fs.inode_count + 1) as u64, ..fs }),
            }
        }),
{
    let r = fs.with_new_child(parent, name, kind, link);
    if let Some(p) = fs.node_of(parent) {
        let cs = fs.nodes[p as int].children;
        let idx = fs.nodes.len() as usize;
        assert(r.nodes[p as int].children == cs.push((name, idx)));
        lemma_find_named(cs, name, 0);
        lemma_find_named(cs.push((name, idx)), name, 0);
        match find_named(cs, name, 0) {
            Some(j) => {
                assert(cs.push((name, idx))[j] == cs[j]);
                lemma_find_named_unique(cs.push((name, idx)), name, j);
            },
            None => {
                assert(cs.push((name, idx))[cs.len() as int] == (name, idx));
                lemma_find_named_unique(cs.push((name, idx)), name, cs.len() as int);
            },
        }
    }
}

/// Removing the only entry of a name leaves the directory without one, and
/// the inode number of the node it led to is no longer in use.
pub proof fn lemma_unlink_then_lookup(fs: FsModel, parent: u64, name: Seq<char>)
    requires
        fs.wf(),
        fs.child_named(parent, name) matches Some(c) && fs.nodes[c as int].attr.ino != parent,
        forall|k: int|
            #![trigger fs.nodes[fs.node_of(parent)->0 as int].children[k]]
            0 <= k < fs.nodes[fs.node_of(parent)->0 as int].children.len()
                && fs.nodes[fs.node_of(parent)->0 as int].children[k].0 == name
                ==> k == find_named(fs.nodes[fs.node_of(parent)->0 as int].children, name, 0)->0,
    ensures
        fs.without_entry(parent, name).child_named(parent, name) is None,
        !fs.without_entry(parent, name).inodes.contains_key(
            fs.nodes[fs.child_named(parent, name)->0 as int].attr.ino,
        ),
        fs.without_entry(parent, name).nodes[fs.node_of(parent)->0 as int].children.len() + 1
            == fs.nodes[fs.node_of(parent)->0 as int].children.len(),
{
    let p = fs.node_of(parent)->0;
    let cs = fs.nodes[p as int].children;
    lemma_find_named(cs, name, 0);
    let j = find_named(cs, name, 0)->0;
    let r = fs.without_entry(parent, name);
    let rs = cs.remove(j);
    assert(r.nodes[p as int].children == rs);
    assert(r.node_of(parent) == Some(p));
    assert forall|k: int| 0 <= k < rs.len() implies rs[k].0 != name by {
        if k < j {
            assert(rs[k] == cs[k]);
        } else {
            assert(rs[k] == cs[k + 1]);
        }
    }
    lemma_find_named(rs, name, 0);
}

/// Removing an entry just made, under a name the directory did not hold,
/// gives the directory its entries back and forgets the new inode number.
pub proof fn lemma_unlink_undoes_create(
    fs: FsModel,
    parent: u64,
    name: Seq<char>,
    kind: FileKind,
    link: Option<Seq<char>>,
)
    requires
        fs.wf(),
        fs.inode_count < u64::MAX,
        fs.nodes.len() < usize::MAX,
        fs.node_of(parent) is Some,
        fs.child_named(parent, name) is None,
    ensures
        ({
            let r = fs.with_new_child(parent, name, kind, link).without_entry(parent, name);
            &&& r.nodes[fs.node_of(parent)->0 as int].children == fs.nodes[fs.node_of(
                parent,
            )->0 as int].children
            &&& r.inodes == fs.inodes
        }),
{
    let p = fs.node_of(parent)->0;
    let cs = fs.nodes[p as int].children;
    let idx = fs.nodes.len() as usize;
    let c = fs.with_new_child(parent, name, kind, link);
    lemma_find_named(cs, name, 0);
    let ps = cs.push((name, idx));
    assert(c.nodes[p as int].children == ps);
    assert(c.node_of(parent) == Some(p));
    assert forall|k: int| 0 <= k < cs.len() implies ps[k].0 != name by {
        assert(ps[k] == cs[k]);
    }
    lemma_find_named_unique(ps, name, cs.len() as int);
    assert(c.nodes[idx as int].attr.ino == fs.inode_count);
    let r = c.without_entry(parent, name);
    assert(r.nodes[p as int].children =~= cs);
    assert(!fs.inodes.contains_key(fs.inode_count));
    assert(r.inodes =~= fs.inodes);
}

/// Renaming an entry within a directory, to a name it does not hold yet,
/// makes the node found by the new name, and names the node so; renaming
/// it back restores the entries of the directory.
pub proof fn lemma_rename_in_place(fs: FsModel, parent: u64, name: Seq<char>, newname: Seq<char>)
    requires
        fs.wf(),
        fs.child_named(parent, name) is Some,
        fs.child_named(parent, newname) is None,
    ensures
        ({
            let r = fs.renamed(parent, name, parent, newname).0;
            &&& r.child_named(parent, newname) == fs.child_named(parent, name)
            &&& r.nodes[fs.child_named(parent, name)->0 as int].name == newname
            &&& r.renamed(parent, newname, parent, name).0.nodes[fs.node_of(parent)->0 as int].children
                == fs.nodes[fs.node_of(parent)->0 as int].children
        }),
{
    let p = fs.node_of(parent)->0;
    let cs = fs.nodes[p as int].children;
    lemma_find_named(cs, name, 0);
    lemma_find_named(cs, newname, 0);
    let j = find_named(cs, name, 0)->0;
    let c = cs[j].1;
    let r = fs.renamed(parent, name, parent, newname).0;
    let s1 = fs.with_node(p, fs.nodes[p as int].rename_entry(j, newname));
    assert(r == s1.with_node(c, s1.nodes[c as int].with_name(newname)));
    let rs = cs.update(j, (newname, c));
    assert(r.nodes[p as int].children == rs);
    assert(r.node_of(parent) == Some(p));
    assert forall|k: int| 0 <= k < j implies rs[k].0 != newname by {
        assert(rs[k] == cs[k]);
    }
    lemma_find_named_unique(rs, newname, j);
    assert(r.child_named(parent, newname) == Some(c));
    assert(rs.update(j, (name, c)) =~= cs);
}

/// Renaming an entry into another directory, under a name that directory
/// does not hold yet, makes the node found there by the new name, with that
/// directory as its parent; where the old name was the only entry of its
/// name, it is found no more in the old directory.
pub proof fn lemma_rename_across(
    fs: FsModel,
    parent: u64,
    name: Seq<char>,
    newparent: u64,
    newname: Seq<char>,
)
    requires
        fs.wf(),
        parent != newparent,
        fs.child_named(parent, name) is Some,
        fs.node_of(newparent) is Some,
        fs.node_of(newparent) != fs.node_of(parent),
        fs.child_named(newparent, newname) is None,
    ensures
        ({
            let r = fs.renamed(parent, name, newparent, newname).0;
            let c = fs.child_named(parent, name)->0;
            &&& r.child_named(newparent, newname) == Some(c)
            &&& r.nodes[c as int].parent == fs.node_of(newparent)
            &&& r.node_of(parent) == fs.node_of(parent)
            &&& r.nodes[fs.node_of(parent)->0 as int].children.len() + 1 == fs.nodes[fs.node_of(
                parent,
            )->0 as int].children.len()
        }),
{
    let p = fs.node_of(parent)->0;
    let q = fs.node_of(newparent)->0;
    let cs = fs.nodes[p as int].children;
    lemma_find_named(cs, name, 0);
    let j = find_named(cs, name, 0)->0;
    let c = cs[j].1;
    let (s1, moved, a1) = fs.detached(parent, name, newname);
    assert(moved == Some(c));
    assert(s1.nodes[q as int] == fs.nodes[q as int]);
    let t1 = s1.with_node(c, s1.nodes[c as int].with_parent(q));
    let t2 = t1.with_node(q, t1.nodes[q as int].add_entry(newname, c));
    let r = fs.renamed(parent, name, newparent, newname).0;
    assert(r == t2);
    let qs = fs.nodes[q as int].children;
    lemma_find_named(qs, newname, 0);
    if c == q {
        assert(t1.nodes[q as int].children == qs);
    } else {
        assert(t1.nodes[q as int] == fs.nodes[q as int]);
    }
    let rq = qs.push((newname, c));
    assert(r.nodes[q as int].children == rq);
    assert(r.node_of(newparent) == Some(q));
    assert forall|k: int| 0 <= k < qs.len() implies rq[k].0 != newname by {
        assert(rq[k] == qs[k]);
    }
    lemma_find_named_unique(rq, newname, qs.len() as int);
}

} // verus!
