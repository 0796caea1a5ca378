//! Building the tree from the dump of a unit graph, and the links between
//! the nodes of shared unit generators.
//!
//! Each unit generator becomes a directory named after it, holding a file
//! for each of its named parameters and a directory or a file for each of
//! its other parameters. A unit generator that is used more than once is
//! built the first time; later uses become links to that first directory.

use std::collections::HashMap;

use vstd::prelude::*;

use super::{FsModel, KotoFS};
use crate::text::{chars_of, text_between, concat_text, decimal, decimal_text, dotted, push_char};
use crate::ugdump::{
    dump_known, dump_size, line_of, line_text, slots_known, slots_size, value_known, value_size,
    values_known, values_size, DumpSlot, DumpValue, UgDump,
};
use crate::kotonode::{
    arena_closed, create_file, entries_view, file_attr, forward, parents_match, pathmap_from,
    pathmap_view, lemma_nodes_push, lemma_nodes_update, FileKind, KotoNode, NodeAttr, NodeModel,
    Ugen,
};

verus! {

broadcast use vstd::std_specs::hash::group_hash_axioms;

/// The first position of `a` in `shared` at or after `from`, or the length.
pub open spec fn shared_index(shared: Seq<u64>, a: u64, from: int) -> int
    decreases shared.len() - from,
{
    if from >= shared.len() {
        shared.len() as int
    } else if shared[from] == a {
        from
    } else {
        shared_index(shared, a, from + 1)
    }
}

/// The links made from node `from` on are links of shared unit generators
/// whose flag of use is set.
pub open spec fn links_pending(fs: FsModel, from: int, shared: Seq<u64>, used: Seq<bool>) -> bool {
    forall|i: int|
        from <= i < fs.nodes.len() && (#[trigger] fs.nodes[i]).attr.kind == FileKind::Symlink
            ==> (fs.nodes[i].ug matches Ugen::Mapped(a) && shared.contains(a) && used[shared_index(
            shared,
            a,
            0,
        )])
}

/// Flags of use only get set.
pub open spec fn used_grows(before: Seq<bool>, after: Seq<bool>) -> bool {
    &&& after.len() == before.len()
    &&& forall|k: int| 0 <= k < before.len() && #[trigger] before[k] ==> after[k]
}

/// Every shared unit generator whose flag got set is registered.
pub open spec fn newly_used_registered(
    fs: FsModel,
    shared: Seq<u64>,
    before: Seq<bool>,
    after: Seq<bool>,
) -> bool {
    forall|k: int|
        0 <= k < shared.len() && #[trigger] after[k] && !before[k] ==> fs.augs.contains_key(shared[k])
}

/// Registrations by unit generator only get added.
pub open spec fn augs_grow(before: FsModel, after: FsModel) -> bool {
    forall|a: u64| #[trigger] before.augs.contains_key(a) ==> after.augs.contains_key(a)
}

/// The kinds and unit generators of the first `len` nodes stay.
pub open spec fn kinds_kept(before: FsModel, after: FsModel, len: int) -> bool {
    forall|k: int|
        0 <= k < len ==> (#[trigger] after.nodes[k]).attr == before.nodes[k].attr && after.nodes[k].ug
            == before.nodes[k].ug
}

/// The filesystem and the flags of use of the shared unit generators after
/// the node for value `v` of unit generator `ug` is built under node
/// `parent`, and the index of that node.
///
/// A number becomes a regular file `val` holding its text; a table `tab` and
/// a pattern `pat` hold their items, each followed by a space, then a
/// newline. A unit generator becomes the node its dump makes. A shared unit
/// generator does so the first time it is met; after that it becomes a
/// symbolic link `shared`, to be pointed at its first node later. Each node
/// takes the next inode number and is registered by its inode number and,
/// but for the links, by its unit generator.
pub open spec fn value_built(
    fs: FsModel,
    used: Seq<bool>,
    v: DumpValue,
    ug: u64,
    parent: usize,
    shared: Seq<u64>,
) -> (FsModel, Seq<bool>, usize)
    decreases v, 0int,
{
    let i = fs.nodes.len() as usize;
    match v {
        DumpValue::Number(t) => (
            fs.add_node(Ugen::Mapped(ug), Some(parent), seq!['v', 'a', 'l'], t@, FileKind::RegularFile).register(
                ug,
                i,
            ),
            used,
            i,
        ),
        DumpValue::Table(items) => (
            fs.add_node(
                Ugen::Mapped(ug),
                Some(parent),
                seq!['t', 'a', 'b'],
                line_of(items@),
                FileKind::RegularFile,
            ).register(ug, i),
            used,
            i,
        ),
        DumpValue::Pattern(items) => (
            fs.add_node(
                Ugen::Mapped(ug),
                Some(parent),
                seq!['p', 'a', 't'],
                line_of(items@),
                FileKind::RegularFile,
            ).register(ug, i),
            used,
            i,
        ),
        DumpValue::Ug(a, d) => {
            let (f1, u1, n) = dump_built(fs, used, a, *d, Some(parent), shared);
            (f1.register(ug, n), u1, n)
        },
        DumpValue::Shared(a, d) => {
            let k = shared_index(shared, a, 0);
            if !used[k] {
                let (f1, u1, n) = dump_built(fs, used.update(k, true), a, *d, Some(parent), shared);
                (f1.register(a, n), u1, n)
            } else {
                (
                    fs.add_node(
                        Ugen::Mapped(a),
                        Some(parent),
                        seq!['s', 'h', 'a', 'r', 'e', 'd'],
                        Seq::empty(),
                        FileKind::Symlink,
                    ).register_ino(i),
                    used,
                    i,
                )
            }
        },
    }
}

/// The filesystem and the flags of use after the node for the dump `d` of
/// unit generator `ug` is built under `parent`, and the index of that node.
///
/// A value becomes its node, as `value_built` says. A unit generator becomes
/// a directory of its name, registered by inode number and unit generator,
/// with an entry `slot.type` for the node of each slot, in order. One with
/// numbered values has, after those, an entry `baseN.type` for the node of
/// its N-th value, which is named `baseN`; this directory is not
/// registered.
pub open spec fn dump_built(
    fs: FsModel,
    used: Seq<bool>,
    ug: u64,
    d: UgDump,
    parent: Option<usize>,
    shared: Seq<u64>,
) -> (FsModel, Seq<bool>, usize)
    decreases d, 0int,
{
    let n = fs.nodes.len() as usize;
    match d {
        UgDump::Val(v) => {
            let (f1, u1, c) = value_built(fs, used, v, ug, parent->0, shared);
            (f1.register(ug, c), u1, c)
        },
        UgDump::Ug(name, slots) => {
            let f0 = fs.add_node(Ugen::Mapped(ug), parent, name@, Seq::empty(), FileKind::Directory).register(
                ug,
                n,
            );
            let (f1, u1) = slots_built(f0, used, slots@, 0, n, shared);
            (f1, u1, n)
        },
        UgDump::UgRest(name, slots, base, values) => {
            let f0 = fs.add_node(Ugen::Mapped(ug), parent, name@, Seq::empty(), FileKind::Directory);
            let (f1, u1) = slots_built(f0, used, slots@, 0, n, shared);
            let (f2, u2) = rest_built(f1, u1, values@, 0, n, ug, base@, shared);
            (f2, u2, n)
        },
    }
}

/// The filesystem and the flags of use after the slots from `i` on are
/// built as entries of directory `n`.
pub open spec fn slots_built(
    fs: FsModel,
    used: Seq<bool>,
    slots: Seq<DumpSlot>,
    i: int,
    n: usize,
    shared: Seq<u64>,
) -> (FsModel, Seq<bool>)
    decreases slots, slots.len() - i,
{
    if 0 <= i < slots.len() {
        let s = slots[i];
        let (f1, u1, c) = value_built(fs, used, s.value, s.ug, n, shared);
        let f2 = f1.with_node(n, f1.nodes[n as int].add_entry(s.name@ + seq!['.'] + f1.nodes[c as int].name, c));
        slots_built(f2, u1, slots, i + 1, n, shared)
    } else {
        (fs, used)
    }
}

/// The filesystem and the flags of use after the values from `i` on of unit
/// generator `ug` are built as numbered entries of directory `n`.
pub open spec fn rest_built(
    fs: FsModel,
    used: Seq<bool>,
    values: Seq<DumpValue>,
    i: int,
    n: usize,
    ug: u64,
    base: Seq<char>,
    shared: Seq<u64>,
) -> (FsModel, Seq<bool>)
    decreases values, values.len() - i,
{
    if 0 <= i < values.len() {
        let (f1, u1, c) = value_built(fs, used, values[i], ug, n, shared);
        let typename = f1.nodes[c as int].name;
        let newname = base + decimal(i as nat);
        let f2 = f1.with_node(c, f1.nodes[c as int].with_name(newname));
        let f3 = f2.with_node(n, f2.nodes[n as int].add_entry(newname + seq!['.'] + typename, c));
        rest_built(f3, u1, values, i + 1, n, ug, base, shared)
    } else {
        (fs, used)
    }
}

/// The number of `/` in `s`.
pub open spec fn slash_count(s: Seq<char>) -> nat
    decreases s.len(),
{
    if s.len() == 0 {
        0
    } else {
        slash_count(s.drop_last()) + if s.last() == '/' {
            1nat
        } else {
            0nat
        }
    }
}

/// `../`, `n` times.
pub open spec fn up_path(n: nat) -> Seq<char>
    decreases n,
{
    if n == 0 {
        Seq::empty()
    } else {
        up_path((n - 1) as nat) + seq!['.', '.', '/']
    }
}

/// The link from the node at `path` to the node at `target`, both paths
/// from the root and starting with `/`: up once for each part of `path`
/// but the last, then down along `target`.
pub open spec fn relative_link(path: Seq<char>, target: Seq<char>) -> Seq<char> {
    up_path((slash_count(path) - 1) as nat) + target.subrange(1, target.len() as int)
}

/// The position of the first entry of the path map for node `t`, at or
/// after `from`.
pub open spec fn first_with_node(pm: Seq<(usize, Seq<char>)>, t: usize, from: int) -> Option<int>
    decreases pm.len() - from,
{
    if from < 0 || from >= pm.len() {
        None
    } else if pm[from].0 == t {
        Some(from)
    } else {
        first_with_node(pm, t, from + 1)
    }
}

/// Every link that stands for a unit generator names one that is
/// registered.
pub open spec fn links_registered(fs: FsModel) -> bool {
    forall|i: int|
        0 <= i < fs.nodes.len() && (#[trigger] fs.nodes[i]).attr.kind == FileKind::Symlink ==> (
        fs.nodes[i].ug matches Ugen::Mapped(a) ==> fs.augs.contains_key(a))
}

/// The filesystem after the links of the path map, from its `k`-th entry
/// on, are pointed at the first node built for their unit generator, as
/// `relative_link` says; a link whose unit generator has no node in the map
/// stays as it is.
pub open spec fn links_fixed(fs: FsModel, pm: Seq<(usize, Seq<char>)>, k: int) -> FsModel
    decreases pm.len() - k,
{
    if 0 <= k < pm.len() {
        let n = pm[k].0;
        let node = fs.nodes[n as int];
        let fs2 = match node.ug {
            Ugen::Mapped(a) => if node.attr.kind == FileKind::Symlink {
                match first_with_node(pm, fs.augs[a], 0) {
                    Some(m) => fs.with_node(
                        n,
                        NodeModel { link: Some(relative_link(pm[k].1, pm[m].1)), ..node },
                    ),
                    None => fs,
                }
            } else {
                fs
            },
            Ugen::NotMapped => fs,
        };
        links_fixed(fs2, pm, k + 1)
    } else {
        fs
    }
}

/// The filesystem before the tree is built: one placeholder node.
pub open spec fn initial_fs() -> FsModel {
    FsModel {
        root: 0,
        nodes: seq![
            NodeModel {
                ug: Ugen::NotMapped,
                parent: None,
                children: Seq::empty(),
                name: Seq::empty(),
                data: Seq::empty(),
                link: None,
                attr: file_attr(0, 0, FileKind::RegularFile),
            },
        ],
        inodes: Map::empty(),
        augs: Map::empty(),
        inode_count: 151,
    }
}

/// The filesystem for the unit graph whose root unit generator `ug` dumps
/// as `d`: the tree that `dump_built` builds, with no parent for its root
/// and no shared unit generator met yet; its links pointed at their
/// targets along the paths from the root; no registration by unit
/// generator kept; and the root known by inode number 1.
pub open spec fn init_model(ug: u64, d: UgDump, shared: Seq<u64>) -> FsModel {
    let (f1, u1, r) = dump_built(
        initial_fs(),
        Seq::new(shared.len(), |k: int| false),
        ug,
        d,
        None,
        shared,
    );
    let f2 = links_fixed(f1, pathmap_from(f1.nodes, r as int, Seq::empty(), 0), 0);
    let f3 = FsModel { augs: Map::empty(), root: r, ..f2 };
    let rn = f3.nodes[r as int];
    let f4 = f3.with_node(r, NodeModel { attr: NodeAttr { ino: 1, ..rn.attr }, ..rn });
    FsModel { inodes: f4.inodes.insert(1, r), ..f4 }
}

/// The position of the first entry of the path map for node `t`.
fn first_node_position(pathmap: &Vec<(usize, String)>, t: usize) -> (r: Option<usize>)
    ensures
        match r {
            Some(m) => first_with_node(pathmap_view(pathmap@), t, 0) == Some(m as int),
            None => first_with_node(pathmap_view(pathmap@), t, 0) is None,
        },
{
    let ghost pm = pathmap_view(pathmap@);
    let mut m: usize = 0;
    while m < pathmap.len()
        invariant
            pm == pathmap_view(pathmap@),
            m <= pathmap.len(),
            first_with_node(pm, t, 0) == first_with_node(pm, t, m as int),
        decreases pathmap.len() - m,
    {
        assert(pm[m as int].0 == pathmap@[m as int].0);
        if pathmap[m].0 == t {
            return Some(m);
        }
        m = m + 1;
    }
    None
}

/// A found entry lies in range and is for the node.
proof fn lemma_first_with_node(pm: Seq<(usize, Seq<char>)>, t: usize, from: int)
    requires
        0 <= from,
    ensures
        first_with_node(pm, t, from) matches Some(m) ==> from <= m < pm.len() && pm[m].0 == t,
    decreases pm.len() - from,
{
    if from < pm.len() && pm[from].0 != t {
        lemma_first_with_node(pm, t, from + 1);
    }
}

/// The number of `/` in `s`.
fn count_slashes(s: &String) -> (n: usize)
    ensures
        n == slash_count(s@),
{
    let cs = chars_of(s.as_str());
    let mut n: usize = 0;
    let mut i: usize = 0;
    while i < cs.len()
        invariant
            i <= cs.len(),
            cs@ == s@,
            n == slash_count(cs@.subrange(0, i as int)),
            n <= i,
        decreases cs.len() - i,
    {
        assert(cs@.subrange(0, i + 1).drop_last() =~= cs@.subrange(0, i as int));
        if cs[i] == '/' {
            n = n + 1;
        }
        i = i + 1;
    }
    assert(cs@.subrange(0, cs@.len() as int) =~= cs@);
    n
}

/// The text of `relative_link(path, target)`.
fn relative_link_text(path: &String, target: &String) -> (r: String)
    requires
        path@.len() > 0 && path@[0] == '/',
        target@.len() > 0,
    ensures
        r@ == relative_link(path@, target@),
{
    let n = count_slashes(path);
    proof {
        lemma_slash_count_first(path@);
    }
    let mut up = String::new();
    let mut j: usize = 0;
    while j < n - 1
        invariant
            j <= n - 1,
            n >= 1,
            up@ == up_path(j as nat),
        decreases n - 1 - j,
    {
        push_char(&mut up, '.');
        push_char(&mut up, '.');
        push_char(&mut up, '/');
        j = j + 1;
        assert(up@ =~= up_path(j as nat));
    }
    let tc = chars_of(target.as_str());
    let down = text_between(&tc, 1, tc.len());
    concat_text(&up, &down)
}

/// A text that starts with `/` holds at least one.
proof fn lemma_slash_count_first(s: Seq<char>)
    requires
        s.len() > 0 && s[0] == '/',
    ensures
        slash_count(s) >= 1,
    decreases s.len(),
{
    if s.len() > 1 {
        assert(s.drop_last()[0] == '/');
        lemma_slash_count_first(s.drop_last());
    }
}

/// The path map of a subtree lists nodes of the arena, at paths that start
/// with `/`, when the path of its root is empty or starts with `/`.
proof fn lemma_pathmap_paths(nodes: Seq<NodeModel>, node: int, path: Seq<char>, j: int)
    requires
        path.len() == 0 || path[0] == '/',
    ensures
        forall|k: int|
            0 <= k < pathmap_from(nodes, node, path, j).len() ==> {
                let e = #[trigger] pathmap_from(nodes, node, path, j)[k];
                &&& e.0 < nodes.len()
                &&& e.1.len() > 0
                &&& e.1[0] == '/'
            },
    decreases nodes.len() - node, nodes[node].children.len() - j,
{
    if 0 <= node < nodes.len() && 0 <= j < nodes[node].children.len() {
        let e = nodes[node].children[j];
        let p = path + seq!['/'] + e.0;
        if node < e.1 < nodes.len() {
            assert(p[0] == '/');
            lemma_pathmap_paths(nodes, e.1 as int, p, 0);
            lemma_pathmap_paths(nodes, node, path, j + 1);
            let a = seq![(e.1, p)];
            let b = pathmap_from(nodes, e.1 as int, p, 0);
            let c = pathmap_from(nodes, node, path, j + 1);
            assert(pathmap_from(nodes, node, path, j) == a + b + c);
            assert forall|k: int| 0 <= k < (a + b + c).len() implies {
                let x = #[trigger] (a + b + c)[k];
                &&& x.0 < nodes.len()
                &&& x.1.len() > 0
                &&& x.1[0] == '/'
            } by {
                if k == 0 {
                } else if k < 1 + b.len() {
                    assert((a + b + c)[k] == b[k - 1]);
                } else {
                    assert((a + b + c)[k] == c[k - 1 - b.len()]);
                }
            }
        }
    }
}

/// The text `val`.
fn text_val() -> (s: String)
    ensures
        s@ == seq!['v', 'a', 'l'],
{
    let mut s = String::new();
    push_char(&mut s, 'v');
    push_char(&mut s, 'a');
    push_char(&mut s, 'l');
    s
}

/// The text `tab`.
fn text_tab() -> (s: String)
    ensures
        s@ == seq!['t', 'a', 'b'],
{
    let mut s = String::new();
    push_char(&mut s, 't');
    push_char(&mut s, 'a');
    push_char(&mut s, 'b');
    s
}

/// The text `pat`.
fn text_pat() -> (s: String)
    ensures
        s@ == seq!['p', 'a', 't'],
{
    let mut s = String::new();
    push_char(&mut s, 'p');
    push_char(&mut s, 'a');
    push_char(&mut s, 't');
    s
}

/// The text `shared`.
fn text_shared() -> (s: String)
    ensures
        s@ == seq!['s', 'h', 'a', 'r', 'e', 'd'],
{
    let mut s = String::new();
    push_char(&mut s, 's');
    push_char(&mut s, 'h');
    push_char(&mut s, 'a');
    push_char(&mut s, 'r');
    push_char(&mut s, 'e');
    push_char(&mut s, 'd');
    s
}

/// A copy of `bytes`.
fn copy_bytes(bytes: &Vec<u8>) -> (r: Vec<u8>)
    ensures
        r@ == bytes@,
{
    let mut r: Vec<u8> = Vec::new();
    let mut k: usize = 0;
    while k < bytes.len()
        invariant
            k <= bytes.len(),
            r@ == bytes@.subrange(0, k as int),
        decreases bytes.len() - k,
    {
        r.push(bytes[k]);
        k = k + 1;
        assert(r@ =~= bytes@.subrange(0, k as int));
    }
    assert(bytes@.subrange(0, bytes@.len() as int) =~= bytes@);
    r
}

/// The first position of `a` in `shared`.
fn position_of_handle(shared: &Vec<u64>, a: u64) -> (k: usize)
    requires
        shared@.contains(a),
    ensures
        k == shared_index(shared@, a, 0),
        k < shared.len(),
{
    let mut k: usize = 0;
    while k < shared.len() && shared[k] != a
        invariant
            k <= shared.len(),
            shared_index(shared@, a, 0) == shared_index(shared@, a, k as int),
            forall|j: int| 0 <= j < k ==> shared@[j] != a,
        decreases shared.len() - k,
    {
        k = k + 1;
    }
    if k == shared.len() {
        proof {
            let j = choose|j: int| 0 <= j < shared@.len() && shared@[j] == a;
            assert(shared@[j] != a);
        }
    }
    k
}

/// The first position of a handle in `shared` holds it.
proof fn lemma_shared_index(shared: Seq<u64>, a: u64, from: int)
    requires
        0 <= from,
        exists|j: int| from <= j < shared.len() && shared[j] == a,
    ensures
        from <= shared_index(shared, a, from) < shared.len(),
        shared[shared_index(shared, a, from)] == a,
    decreases shared.len() - from,
{
    if from < shared.len() && shared[from] != a {
        let j = choose|j: int| from <= j < shared.len() && shared[j] == a;
        assert(from + 1 <= j);
        lemma_shared_index(shared, a, from + 1);
    }
}

/// Nothing built: every relation of a build holds of a state and itself.
proof fn lemma_build_refl(f: FsModel, u: Seq<bool>, shared: Seq<u64>)
    ensures
        links_pending(f, f.nodes.len() as int, shared, u),
        used_grows(u, u),
        newly_used_registered(f, shared, u, u),
        augs_grow(f, f),
        kinds_kept(f, f, f.nodes.len() as int),
{
}

/// Two builds one after the other.
proof fn lemma_build_chain(
    f0: FsModel,
    f1: FsModel,
    f2: FsModel,
    u0: Seq<bool>,
    u1: Seq<bool>,
    u2: Seq<bool>,
    shared: Seq<u64>,
    len0: int,
    len1: int,
)
    requires
        0 <= len0 <= len1,
        u0.len() == shared.len(),
        links_pending(f1, len0, shared, u1),
        links_pending(f2, len1, shared, u2),
        used_grows(u0, u1),
        used_grows(u1, u2),
        newly_used_registered(f1, shared, u0, u1),
        newly_used_registered(f2, shared, u1, u2),
        augs_grow(f0, f1),
        augs_grow(f1, f2),
        kinds_kept(f0, f1, len0),
        kinds_kept(f1, f2, len1),
        len1 <= f1.nodes.len() <= f2.nodes.len(),
    ensures
        links_pending(f2, len0, shared, u2),
        used_grows(u0, u2),
        newly_used_registered(f2, shared, u0, u2),
        augs_grow(f0, f2),
        kinds_kept(f0, f2, len0),
{
    assert forall|i: int|
        len0 <= i < f2.nodes.len() && (#[trigger] f2.nodes[i]).attr.kind == FileKind::Symlink
            implies (f2.nodes[i].ug matches Ugen::Mapped(a) && shared.contains(a) && u2[shared_index(
        shared,
        a,
        0,
    )]) by {
        if i < len1 {
            assert(f2.nodes[i].attr == f1.nodes[i].attr);
            assert(f2.nodes[i].ug == f1.nodes[i].ug);
            let a = f1.nodes[i].ug->0;
            lemma_shared_index(shared, a, 0);
            assert(u1[shared_index(shared, a, 0)]);
        }
    }
    assert forall|k: int| 0 <= k < shared.len() && #[trigger] u2[k] && !u0[k] implies f2.augs.contains_key(
        shared[k],
    ) by {
        if u1[k] {
            assert(f1.augs.contains_key(shared[k]));
        }
    }
    assert forall|k: int| 0 <= k < len0 implies (#[trigger] f2.nodes[k]).attr == f0.nodes[k].attr
        && f2.nodes[k].ug == f0.nodes[k].ug by {
        assert(f1.nodes[k].attr == f0.nodes[k].attr);
    }
}

/// Replacing a node by one of the same attributes and unit generator.
proof fn lemma_build_same_kind(f: FsModel, i: usize, n: NodeModel, u: Seq<bool>, shared: Seq<u64>)
    requires
        i < f.nodes.len(),
        n.attr == f.nodes[i as int].attr,
        n.ug == f.nodes[i as int].ug,
    ensures
        links_pending(f.with_node(i, n), f.nodes.len() as int, shared, u),
        forall|from: int|
            0 <= from && links_pending(f, from, shared, u) ==> #[trigger] links_pending(
                f.with_node(i, n),
                from,
                shared,
                u,
            ),
        augs_grow(f, f.with_node(i, n)),
        kinds_kept(f, f.with_node(i, n), f.nodes.len() as int),
        newly_used_registered(f.with_node(i, n), shared, u, u),
        used_grows(u, u),
{
    let g = f.with_node(i, n);
    assert forall|from: int| 0 <= from && links_pending(f, from, shared, u) implies #[trigger] links_pending(
        g,
        from,
        shared,
        u,
    ) by {
        assert forall|k: int|
            from <= k < g.nodes.len() && (#[trigger] g.nodes[k]).attr.kind == FileKind::Symlink
                implies (g.nodes[k].ug matches Ugen::Mapped(a) && shared.contains(a) && u[shared_index(
            shared,
            a,
            0,
        )]) by {
            assert(g.nodes.len() == f.nodes.len());
            if k == i as int {
                assert(g.nodes[k] == n);
            } else {
                assert(g.nodes[k] == f.nodes[k]);
            }
        }
    }
    assert forall|k: int| 0 <= k < f.nodes.len() implies (#[trigger] g.nodes[k]).attr == f.nodes[k].attr
        && g.nodes[k].ug == f.nodes[k].ug by {
        if k == i as int {
            assert(g.nodes[k] == n);
        } else {
            assert(g.nodes[k] == f.nodes[k]);
        }
    }
}

/// A new node, and registering a node, as steps of a build.
proof fn lemma_build_add_node(
    f: FsModel,
    ug: Ugen,
    parent: Option<usize>,
    name: Seq<char>,
    data: Seq<u8>,
    kind: FileKind,
    u: Seq<bool>,
    shared: Seq<u64>,
)
    requires
        kind == FileKind::Symlink ==> (ug matches Ugen::Mapped(a) && shared.contains(a) && u[shared_index(
            shared,
            a,
            0,
        )]),
    ensures
        ({
            let g = f.add_node(ug, parent, name, data, kind);
            &&& links_pending(g, f.nodes.len() as int, shared, u)
            &&& augs_grow(f, g)
            &&& kinds_kept(f, g, f.nodes.len() as int)
            &&& g.nodes.len() == f.nodes.len() + 1
            &&& forall|a: u64, j: usize|
                #![trigger g.register(a, j)]
                j < g.nodes.len() ==> links_pending(g.register(a, j), f.nodes.len() as int, shared, u)
                    && augs_grow(f, g.register(a, j)) && kinds_kept(
                    f,
                    g.register(a, j),
                    f.nodes.len() as int,
                ) && g.register(a, j).augs.contains_key(a)
            &&& forall|j: usize|
                #![trigger g.register_ino(j)]
                j < g.nodes.len() ==> links_pending(g.register_ino(j), f.nodes.len() as int, shared, u)
                    && augs_grow(f, g.register_ino(j)) && kinds_kept(
                    f,
                    g.register_ino(j),
                    f.nodes.len() as int,
                )
        }),
{
    let g = f.add_node(ug, parent, name, data, kind);
    assert forall|k: int| 0 <= k < f.nodes.len() implies (#[trigger] g.nodes[k]).attr == f.nodes[k].attr
        && g.nodes[k].ug == f.nodes[k].ug by {
        assert(g.nodes[k] == f.nodes[k]);
    }
}

/// Registering a node as a step of a build.
proof fn lemma_build_register(f: FsModel, a: u64, j: usize, u: Seq<bool>, shared: Seq<u64>)
    ensures
        forall|from: int|
            0 <= from && links_pending(f, from, shared, u) ==> #[trigger] links_pending(
                f.register(a, j),
                from,
                shared,
                u,
            ),
        augs_grow(f, f.register(a, j)),
        kinds_kept(f, f.register(a, j), f.nodes.len() as int),
        f.register(a, j).augs.contains_key(a),
        f.register(a, j).nodes == f.nodes,
{
}

/// Replacing a node by one with the same parent and entries keeps entries
/// pointing forward and every entry's parent right.
proof fn lemma_parents_same_links(fs: FsModel, i: usize, node: NodeModel)
    requires
        i < fs.nodes.len(),
        arena_closed(fs.nodes),
        node.parent == fs.nodes[i as int].parent,
        node.children == fs.nodes[i as int].children,
    ensures
        parents_match(fs.nodes) ==> parents_match(fs.with_node(i, node).nodes),
        forward(fs.nodes) ==> forward(fs.with_node(i, node).nodes),
{
    let r = fs.with_node(i, node);
    assert forall|a: int| 0 <= a < r.nodes.len() implies (#[trigger] r.nodes[a]).children
        == fs.nodes[a].children && r.nodes[a].parent == fs.nodes[a].parent by {
        if a == i as int {
            assert(r.nodes[a] == node);
        } else {
            assert(r.nodes[a] == fs.nodes[a]);
        }
    }
    if parents_match(fs.nodes) {
        assert forall|a: int, j: int|
            0 <= a < r.nodes.len() && 0 <= j < r.nodes[a].children.len() implies r.nodes[
            #[trigger] r.nodes[a].children[j].1 as int
        ].parent == Some(a as usize) by {
            assert(r.nodes[a].children == fs.nodes[a].children);
            let t = fs.nodes[a].children[j].1;
            assert(fs.nodes[t as int].parent == Some(a as usize));
            assert(t < fs.nodes.len());
            assert(r.nodes[t as int].parent == fs.nodes[t as int].parent);
        }
    }
    if forward(fs.nodes) {
        assert forall|a: int, j: int|
            0 <= a < r.nodes.len() && 0 <= j < r.nodes[a].children.len() implies #[trigger] r.nodes[a].children[j].1
            > a by {
            assert(r.nodes[a].children == fs.nodes[a].children);
        }
    }
}

/// A new node without entries keeps entries pointing forward.
proof fn lemma_forward_add_node(
    fs: FsModel,
    ug: Ugen,
    parent: Option<usize>,
    name: Seq<char>,
    data: Seq<u8>,
    kind: FileKind,
)
    requires
        forward(fs.nodes),
    ensures
        forward(fs.add_node(ug, parent, name, data, kind).nodes),
        forward(fs.add_node(ug, parent, name, data, kind).register_ino((fs.nodes.len()) as usize).nodes),
{
    let r = fs.add_node(ug, parent, name, data, kind);
    assert forall|i: int, j: int|
        0 <= i < r.nodes.len() && 0 <= j < r.nodes[i].children.len() implies #[trigger] r.nodes[i].children[j].1
        > i by {
        assert(r.nodes[i] == fs.nodes[i]);
    }
}

/// An entry for a later node keeps entries pointing forward.
proof fn lemma_forward_push_entry(fs: FsModel, n: usize, name: Seq<char>, c: usize)
    requires
        forward(fs.nodes),
        n < c,
        n < fs.nodes.len(),
    ensures
        forward(fs.with_node(n, fs.nodes[n as int].add_entry(name, c)).nodes),
{
    let r = fs.with_node(n, fs.nodes[n as int].add_entry(name, c));
    assert forall|i: int, j: int|
        0 <= i < r.nodes.len() && 0 <= j < r.nodes[i].children.len() implies #[trigger] r.nodes[i].children[j].1
        > i by {
        if i != n {
            assert(r.nodes[i] == fs.nodes[i]);
        } else if j < fs.nodes[i].children.len() {
            assert(r.nodes[i].children[j] == fs.nodes[i].children[j]);
        }
    }
}

/// Renaming a node keeps entries pointing forward.
proof fn lemma_forward_set_name(fs: FsModel, c: usize, name: Seq<char>)
    requires
        forward(fs.nodes),
        c < fs.nodes.len(),
    ensures
        forward(fs.with_node(c, fs.nodes[c as int].with_name(name)).nodes),
{
    let r = fs.with_node(c, fs.nodes[c as int].with_name(name));
    assert forall|i: int, j: int|
        0 <= i < r.nodes.len() && 0 <= j < r.nodes[i].children.len() implies #[trigger] r.nodes[i].children[j].1
        > i by {
        assert(r.nodes[i].children == fs.nodes[i].children);
    }
}

impl FsModel {
    /// The filesystem with a new node at the end: no entries, the next
    /// inode number, and the size of its data.
    pub open spec fn add_node(
        self,
        ug: Ugen,
        parent: Option<usize>,
        name: Seq<char>,
        data: Seq<u8>,
        kind: FileKind,
    ) -> FsModel {
        FsModel {
            nodes: self.nodes.push(
                NodeModel {
                    ug: ug,
                    parent: parent,
                    children: Seq::empty(),
                    name: name,
                    data: data,
                    link: None,
                    attr: file_attr(self.inode_count, data.len() as u64, kind),
                },
            ),
            inode_count: (self.inode_count + 1) as u64,
            ..self
        }
    }

    /// The filesystem with node `i` registered by unit generator `ug` and by
    /// its inode number.
    pub open spec fn register(self, ug: u64, i: usize) -> FsModel {
        FsModel {
            augs: self.augs.insert(ug, i),
            inodes: self.inodes.insert(self.nodes[i as int].attr.ino, i),
            ..self
        }
    }

    /// The filesystem with node `i` registered by its inode number.
    pub open spec fn register_ino(self, i: usize) -> FsModel {
        FsModel { inodes: self.inodes.insert(self.nodes[i as int].attr.ino, i), ..self }
    }
}

impl KotoFS {
    /// Appends a node with no entries and the next inode number; its index.
    fn add_node(
        &mut self,
        ug: Ugen,
        parent: Option<usize>,
        name: String,
        data: Vec<u8>,
        kind: FileKind,
    ) -> (i: usize)
        requires
            old(self)@.wf(),
            old(self).inode_count < u64::MAX,
            parent matches Some(p) ==> p < old(self).nodes.len(),
        ensures
            final(self)@ == old(self)@.add_node(ug, parent, name@, data@, kind),
            i == old(self).nodes.len(),
            final(self)@.wf(),
    {
        let ghost old_model = self@;
        let ino = self.inode();
        let size = data.len() as u64;
        let node = KotoNode {
            ug: ug,
            parent: parent,
            children: Vec::new(),
            name: name,
            data: data,
            link: None,
            attr: create_file(ino, size, kind),
        };
        let i = self.nodes.len();
        assert(entries_view(node.children@) =~= Seq::<(Seq<char>, usize)>::empty());
        proof {
            lemma_nodes_push(self.nodes@, node);
        }
        self.nodes.push(node);
        assert(self@ =~= old_model.add_node(ug, parent, name@, data@, kind));
        proof {
            let r = self@;
            assert forall|a: int, k: int|
                0 <= a < r.nodes.len() && 0 <= k < r.nodes[a].children.len() implies #[trigger] r.nodes[a].children[k].1
                < r.nodes.len() by {
                assert(r.nodes[a] == old_model.nodes[a]);
            }
            assert forall|a: int| 0 <= a < r.nodes.len() implies (#[trigger] r.nodes[a].parent matches Some(
                q,
            ) ==> q < r.nodes.len()) by {
                if a < old_model.nodes.len() {
                    assert(r.nodes[a] == old_model.nodes[a]);
                }
            }
            assert forall|a: int| 0 <= a < r.nodes.len() implies #[trigger] r.nodes[a].attr.ino
                < r.inode_count by {
                if a < old_model.nodes.len() {
                    assert(r.nodes[a] == old_model.nodes[a]);
                }
            }
        }
        i
    }

    /// Registers node `i` by unit generator `ug` and by its inode number.
    fn register(&mut self, ug: u64, i: usize)
        requires
            old(self)@.wf(),
            i < old(self).nodes.len(),
        ensures
            final(self)@ == old(self)@.register(ug, i),
            final(self)@.wf(),
    {
        let ghost old_model = self@;
        assert(old_model.nodes[i as int] == self.nodes@[i as int]@);
        let ino = self.nodes[i].attr.ino;
        self.augs.insert(ug, i);
        self.inodes.insert(ino, i);
        assert(self@ =~= old_model.register(ug, i));
        proof {
            let r = self@;
            assert forall|k: u64| #[trigger] r.inodes.contains_key(k) implies r.inodes[k]
                < r.nodes.len() && k < r.inode_count by {
                if k != ino {
                    assert(old_model.inodes.contains_key(k));
                }
            }
            assert forall|k: u64| #[trigger] r.augs.contains_key(k) implies r.augs[k] < r.nodes.len() by {
                if k != ug {
                    assert(old_model.augs.contains_key(k));
                }
            }
        }
    }

    /// Registers node `i` by its inode number.
    fn register_ino(&mut self, i: usize)
        requires
            old(self)@.wf(),
            i < old(self).nodes.len(),
        ensures
            final(self)@ == old(self)@.register_ino(i),
            final(self)@.wf(),
    {
        let ghost old_model = self@;
        assert(old_model.nodes[i as int] == self.nodes@[i as int]@);
        let ino = self.nodes[i].attr.ino;
        self.inodes.insert(ino, i);
        assert(self@ =~= old_model.register_ino(i));
        proof {
            let r = self@;
            assert forall|k: u64| #[trigger] r.inodes.contains_key(k) implies r.inodes[k]
                < r.nodes.len() && k < r.inode_count by {
                if k != ino {
                    assert(old_model.inodes.contains_key(k));
                }
            }
        }
    }

    /// Builds the node for value `v` of unit generator `ug` under node
    /// `parent`, as `value_built` says; its index.
    fn build_node_from_value(
        &mut self,
        v: &DumpValue,
        ug: u64,
        parent: usize,
        shared: &Vec<u64>,
        shared_used: &mut Vec<bool>,
    ) -> (node: usize)
        requires
            old(self)@.wf(),
            forward(old(self)@.nodes),
            parents_match(old(self)@.nodes),
            parent < old(self).nodes.len(),
            old(shared_used)@.len() == shared@.len(),
            value_known(*v, shared@),
            old(self).inode_count + value_size(*v) <= u64::MAX,
        ensures
            (final(self)@, final(shared_used)@, node) == value_built(
                old(self)@,
                old(shared_used)@,
                *v,
                ug,
                parent,
                shared@,
            ),
            final(self)@.wf(),
            forward(final(self)@.nodes),
            parents_match(final(self)@.nodes),
            final(self)@.nodes[node as int].parent == Some(parent),
            old(self).nodes.len() <= node < final(self).nodes.len(),
            final(self).inode_count <= old(self).inode_count + value_size(*v),
            old(self).inode_count <= final(self).inode_count,
            forall|k: int|
                0 <= k < old(self).nodes.len() ==> #[trigger] final(self)@.nodes[k] == old(self)@.nodes[k],
            final(shared_used)@.len() == shared@.len(),
            links_pending(final(self)@, old(self).nodes.len() as int, shared@, final(shared_used)@),
            used_grows(old(shared_used)@, final(shared_used)@),
            newly_used_registered(final(self)@, shared@, old(shared_used)@, final(shared_used)@),
            augs_grow(old(self)@, final(self)@),
            kinds_kept(old(self)@, final(self)@, old(self).nodes.len() as int),
        decreases *v, 0int,
    {
        let ghost f0 = self@;
        let ghost u0 = shared_used@;
        match v {
            DumpValue::Number(t) => {
                let n = self.add_node(
                    Ugen::Mapped(ug),
                    Some(parent),
                    text_val(),
                    copy_bytes(t),
                    FileKind::RegularFile,
                );
                self.register(ug, n);
                proof {
                    lemma_forward_add_node(f0, Ugen::Mapped(ug), Some(parent), seq!['v', 'a', 'l'], t@, FileKind::RegularFile);
                    lemma_build_add_node(f0, Ugen::Mapped(ug), Some(parent), seq!['v', 'a', 'l'], t@, FileKind::RegularFile, u0, shared@);
                    lemma_build_refl(self@, u0, shared@);
                }
                n
            },
            DumpValue::Table(items) => {
                let n = self.add_node(
                    Ugen::Mapped(ug),
                    Some(parent),
                    text_tab(),
                    line_text(items),
                    FileKind::RegularFile,
                );
                self.register(ug, n);
                proof {
                    lemma_forward_add_node(f0, Ugen::Mapped(ug), Some(parent), seq!['t', 'a', 'b'], line_of(items@), FileKind::RegularFile);
                    lemma_build_add_node(f0, Ugen::Mapped(ug), Some(parent), seq!['t', 'a', 'b'], line_of(items@), FileKind::RegularFile, u0, shared@);
                    lemma_build_refl(self@, u0, shared@);
                }
                n
            },
            DumpValue::Pattern(items) => {
                let n = self.add_node(
                    Ugen::Mapped(ug),
                    Some(parent),
                    text_pat(),
                    line_text(items),
                    FileKind::RegularFile,
                );
                self.register(ug, n);
                proof {
                    lemma_forward_add_node(f0, Ugen::Mapped(ug), Some(parent), seq!['p', 'a', 't'], line_of(items@), FileKind::RegularFile);
                    lemma_build_add_node(f0, Ugen::Mapped(ug), Some(parent), seq!['p', 'a', 't'], line_of(items@), FileKind::RegularFile, u0, shared@);
                    lemma_build_refl(self@, u0, shared@);
                }
                n
            },
            DumpValue::Ug(a, d) => {
                let n = self.build_node(*a, d, Some(parent), shared, shared_used);
                let ghost f1 = self@;
                let ghost u1 = shared_used@;
                self.register(ug, n);
                proof {
                    lemma_build_register(f1, ug, n, u1, shared@);
                    lemma_build_refl(self@, u1, shared@);
                    lemma_build_chain(f0, f1, self@, u0, u1, u1, shared@, f0.nodes.len() as int, f1.nodes.len() as int);
                }
                n
            },
            DumpValue::Shared(a, d) => {
                proof {
                    lemma_shared_index(shared@, *a, 0);
                }
                let k = position_of_handle(shared, *a);
                if !shared_used[k] {
                    shared_used.set(k, true);
                    let ghost u0k = shared_used@;
                    let n = self.build_node(*a, d, Some(parent), shared, shared_used);
                    let ghost f1 = self@;
                    let ghost u1 = shared_used@;
                    self.register(*a, n);
                    proof {
                        lemma_build_register(f1, *a, n, u1, shared@);
                        lemma_build_refl(self@, u1, shared@);
                        lemma_build_chain(f0, f1, self@, u0k, u1, u1, shared@, f0.nodes.len() as int, f1.nodes.len() as int);
                        assert forall|j: int| 0 <= j < u0.len() && #[trigger] u0[j] implies u1[j] by {
                            assert(u0k[j]);
                        }
                        assert forall|j: int| 0 <= j < shared@.len() && #[trigger] u1[j] && !u0[j] implies self@.augs.contains_key(
                            shared@[j],
                        ) by {
                            if j != k {
                                assert(!u0k[j]);
                            }
                        }
                    }
                    n
                } else {
                    let n = self.add_node(
                        Ugen::Mapped(*a),
                        Some(parent),
                        text_shared(),
                        Vec::new(),
                        FileKind::Symlink,
                    );
                    self.register_ino(n);
                    proof {
                        lemma_forward_add_node(f0, Ugen::Mapped(*a), Some(parent), seq!['s', 'h', 'a', 'r', 'e', 'd'], Seq::empty(), FileKind::Symlink);
                        lemma_build_add_node(f0, Ugen::Mapped(*a), Some(parent), seq!['s', 'h', 'a', 'r', 'e', 'd'], Seq::empty(), FileKind::Symlink, u0, shared@);
                        lemma_build_refl(self@, u0, shared@);
                    }
                    n
                }
            },
        }
    }

    /// Builds the node for the dump `d` of unit generator `ug` under
    /// `parent`, as `dump_built` says; its index.
    fn build_node(
        &mut self,
        ug: u64,
        d: &UgDump,
        parent: Option<usize>,
        shared: &Vec<u64>,
        shared_used: &mut Vec<bool>,
    ) -> (node: usize)
        requires
            old(self)@.wf(),
            forward(old(self)@.nodes),
            parents_match(old(self)@.nodes),
            parent matches Some(p) ==> p < old(self).nodes.len(),
            *d is Val ==> parent is Some,
            old(shared_used)@.len() == shared@.len(),
            dump_known(*d, shared@),
            old(self).inode_count + dump_size(*d) <= u64::MAX,
        ensures
            (final(self)@, final(shared_used)@, node) == dump_built(
                old(self)@,
                old(shared_used)@,
                ug,
                *d,
                parent,
                shared@,
            ),
            final(self)@.wf(),
            forward(final(self)@.nodes),
            parents_match(final(self)@.nodes),
            final(self)@.nodes[node as int].parent == parent,
            old(self).nodes.len() <= node < final(self).nodes.len(),
            final(self).inode_count <= old(self).inode_count + dump_size(*d),
            old(self).inode_count <= final(self).inode_count,
            forall|k: int|
                0 <= k < old(self).nodes.len() ==> #[trigger] final(self)@.nodes[k] == old(self)@.nodes[k],
            final(shared_used)@.len() == shared@.len(),
            links_pending(final(self)@, old(self).nodes.len() as int, shared@, final(shared_used)@),
            used_grows(old(shared_used)@, final(shared_used)@),
            newly_used_registered(final(self)@, shared@, old(shared_used)@, final(shared_used)@),
            augs_grow(old(self)@, final(self)@),
            kinds_kept(old(self)@, final(self)@, old(self).nodes.len() as int),
        decreases *d, 0int,
    {
        let ghost f0 = self@;
        let ghost u0 = shared_used@;
        match d {
            UgDump::Val(v) => {
                let p = match parent {
                    Some(p) => p,
                    None => 0,
                };
                let c = self.build_node_from_value(v, ug, p, shared, shared_used);
                let ghost f1 = self@;
                let ghost u1 = shared_used@;
                self.register(ug, c);
                proof {
                    lemma_build_register(f1, ug, c, u1, shared@);
                    lemma_build_refl(self@, u1, shared@);
                    lemma_build_chain(f0, f1, self@, u0, u1, u1, shared@, f0.nodes.len() as int, f1.nodes.len() as int);
                }
                c
            },
            UgDump::Ug(name, slots) => {
                let n = self.add_node(
                    Ugen::Mapped(ug),
                    parent,
                    name.clone(),
                    Vec::new(),
                    FileKind::Directory,
                );
                proof {
                    lemma_forward_add_node(f0, Ugen::Mapped(ug), parent, name@, Seq::empty(), FileKind::Directory);
                    lemma_build_add_node(f0, Ugen::Mapped(ug), parent, name@, Seq::empty(), FileKind::Directory, u0, shared@);
                }
                self.register(ug, n);
                let ghost f1 = self@;
                proof {
                    lemma_build_refl(f1, u0, shared@);
                }
                self.build_slots(slots, 0, n, shared, shared_used);
                proof {
                    lemma_build_chain(f0, f1, self@, u0, u0, shared_used@, shared@, f0.nodes.len() as int, f1.nodes.len() as int);
                }
                n
            },
            UgDump::UgRest(name, slots, base, values) => {
                let n = self.add_node(
                    Ugen::Mapped(ug),
                    parent,
                    name.clone(),
                    Vec::new(),
                    FileKind::Directory,
                );
                proof {
                    lemma_forward_add_node(f0, Ugen::Mapped(ug), parent, name@, Seq::empty(), FileKind::Directory);
                    lemma_build_add_node(f0, Ugen::Mapped(ug), parent, name@, Seq::empty(), FileKind::Directory, u0, shared@);
                }
                let ghost f1 = self@;
                proof {
                    lemma_build_refl(f1, u0, shared@);
                }
                self.build_slots(slots, 0, n, shared, shared_used);
                let ghost f2 = self@;
                let ghost u2 = shared_used@;
                proof {
                    lemma_build_chain(f0, f1, f2, u0, u0, u2, shared@, f0.nodes.len() as int, f1.nodes.len() as int);
                }
                self.build_rest(values, 0, n, ug, base, shared, shared_used);
                proof {
                    lemma_build_chain(f0, f2, self@, u0, u2, shared_used@, shared@, f0.nodes.len() as int, f2.nodes.len() as int);
                }
                n
            },
        }
    }

    /// Builds the slots from `i` on as entries of directory `n`, as
    /// `slots_built` says.
    fn build_slots(
        &mut self,
        slots: &Vec<DumpSlot>,
        i: usize,
        n: usize,
        shared: &Vec<u64>,
        shared_used: &mut Vec<bool>,
    )
        requires
            old(self)@.wf(),
            forward(old(self)@.nodes),
            parents_match(old(self)@.nodes),
            n < old(self).nodes.len(),
            i <= slots.len(),
            old(shared_used)@.len() == shared@.len(),
            slots_known(slots@, i as int, shared@),
            old(self).inode_count + slots_size(slots@, i as int) <= u64::MAX,
        ensures
            (final(self)@, final(shared_used)@) == slots_built(
                old(self)@,
                old(shared_used)@,
                slots@,
                i as int,
                n,
                shared@,
            ),
            final(self)@.wf(),
            forward(final(self)@.nodes),
            parents_match(final(self)@.nodes),
            final(self)@.nodes[n as int].parent == old(self)@.nodes[n as int].parent,
            old(self).nodes.len() <= final(self).nodes.len(),
            final(self).inode_count <= old(self).inode_count + slots_size(slots@, i as int),
            old(self).inode_count <= final(self).inode_count,
            forall|k: int|
                0 <= k < old(self).nodes.len() && k != n ==> #[trigger] final(self)@.nodes[k]
                    == old(self)@.nodes[k],
            final(shared_used)@.len() == shared@.len(),
            links_pending(final(self)@, old(self).nodes.len() as int, shared@, final(shared_used)@),
            used_grows(old(shared_used)@, final(shared_used)@),
            newly_used_registered(final(self)@, shared@, old(shared_used)@, final(shared_used)@),
            augs_grow(old(self)@, final(self)@),
            kinds_kept(old(self)@, final(self)@, old(self).nodes.len() as int),
        decreases slots@, slots.len() - i,
    {
        let ghost f0 = self@;
        let ghost u0 = shared_used@;
        if i < slots.len() {
            let slot = &slots[i];
            let c = self.build_node_from_value(&slot.value, slot.ug, n, shared, shared_used);
            let ghost f1 = self@;
            let ghost u1 = shared_used@;
            assert(self@.nodes[c as int] == self.nodes@[c as int]@);
            let entry = dotted(&slot.name, &self.nodes[c].name);
            self.push_entry(n, entry, c);
            let ghost f2 = self@;
            proof {
                lemma_forward_push_entry(f1, n, entry@, c);
                lemma_build_same_kind(f1, n, f1.nodes[n as int].add_entry(entry@, c), u1, shared@);
                lemma_build_chain(f0, f1, f2, u0, u1, u1, shared@, f0.nodes.len() as int, f1.nodes.len() as int);
            }
            self.build_slots(slots, i + 1, n, shared, shared_used);
            proof {
                lemma_build_chain(f0, f2, self@, u0, u1, shared_used@, shared@, f0.nodes.len() as int, f2.nodes.len() as int);
            }
        } else {
            proof {
                lemma_build_refl(f0, u0, shared@);
            }
        }
    }

    /// Builds the values from `i` on of unit generator `ug` as numbered
    /// entries of directory `n`, as `rest_built` says.
    fn build_rest(
        &mut self,
        values: &Vec<DumpValue>,
        i: usize,
        n: usize,
        ug: u64,
        base: &String,
        shared: &Vec<u64>,
        shared_used: &mut Vec<bool>,
    )
        requires
            old(self)@.wf(),
            forward(old(self)@.nodes),
            parents_match(old(self)@.nodes),
            n < old(self).nodes.len(),
            i <= values.len(),
            old(shared_used)@.len() == shared@.len(),
            values_known(values@, i as int, shared@),
            old(self).inode_count + values_size(values@, i as int) <= u64::MAX,
        ensures
            (final(self)@, final(shared_used)@) == rest_built(
                old(self)@,
                old(shared_used)@,
                values@,
                i as int,
                n,
                ug,
                base@,
                shared@,
            ),
            final(self)@.wf(),
            forward(final(self)@.nodes),
            parents_match(final(self)@.nodes),
            final(self)@.nodes[n as int].parent == old(self)@.nodes[n as int].parent,
            old(self).nodes.len() <= final(self).nodes.len(),
            final(self).inode_count <= old(self).inode_count + values_size(values@, i as int),
            old(self).inode_count <= final(self).inode_count,
            forall|k: int|
                0 <= k < old(self).nodes.len() && k != n ==> #[trigger] final(self)@.nodes[k]
                    == old(self)@.nodes[k],
            final(shared_used)@.len() == shared@.len(),
            links_pending(final(self)@, old(self).nodes.len() as int, shared@, final(shared_used)@),
            used_grows(old(shared_used)@, final(shared_used)@),
            newly_used_registered(final(self)@, shared@, old(shared_used)@, final(shared_used)@),
            augs_grow(old(self)@, final(self)@),
            kinds_kept(old(self)@, final(self)@, old(self).nodes.len() as int),
        decreases values@, values.len() - i,
    {
        let ghost f0 = self@;
        let ghost u0 = shared_used@;
        if i < values.len() {
            let c = self.build_node_from_value(&values[i], ug, n, shared, shared_used);
            let ghost f1 = self@;
            let ghost u1 = shared_used@;
            assert(self@.nodes[c as int] == self.nodes@[c as int]@);
            let typename = self.nodes[c].name.clone();
            let newname = concat_text(base, &decimal_text(i as u64));
            self.set_name(c, newname.clone());
            let ghost f2 = self@;
            proof {
                lemma_forward_set_name(f1, c, newname@);
                lemma_build_same_kind(f1, c, f1.nodes[c as int].with_name(newname@), u1, shared@);
                lemma_build_chain(f0, f1, f2, u0, u1, u1, shared@, f0.nodes.len() as int, f1.nodes.len() as int);
            }
            let entry = dotted(&newname, &typename);
            self.push_entry(n, entry, c);
            let ghost f3 = self@;
            proof {
                lemma_forward_push_entry(f2, n, entry@, c);
                lemma_build_same_kind(f2, n, f2.nodes[n as int].add_entry(entry@, c), u1, shared@);
                lemma_build_chain(f0, f2, f3, u0, u1, u1, shared@, f0.nodes.len() as int, f2.nodes.len() as int);
            }
            self.build_rest(values, i + 1, n, ug, base, shared, shared_used);
            proof {
                lemma_build_chain(f0, f3, self@, u0, u1, shared_used@, shared@, f0.nodes.len() as int, f3.nodes.len() as int);
            }
        } else {
            proof {
                lemma_build_refl(f0, u0, shared@);
            }
        }
    }

    /// Points link `i` at `link`.
    fn set_link(&mut self, i: usize, link: String)
        requires
            old(self)@.wf(),
            i < old(self).nodes.len(),
        ensures
            final(self)@ == old(self)@.with_node(
                i,
                NodeModel { link: Some(link@), ..old(self)@.nodes[i as int] },
            ),
            final(self)@.wf(),
            final(self).nodes.len() == old(self).nodes.len(),
    {
        let ghost old_model = self@;
        let ghost before = self.nodes@;
        assert(before[i as int]@ == old_model.nodes[i as int]);
        self.nodes[i].link = Some(link);
        proof {
            lemma_nodes_update(before, i as int, self.nodes@[i as int]);
            assert(self.nodes@ == before.update(i as int, self.nodes@[i as int]));
        }
        assert(self@ =~= old_model.with_node(
            i,
            NodeModel { link: Some(link@), ..old_model.nodes[i as int] },
        ));
        proof {
            let r = self@;
            assert forall|a: int, k: int|
                0 <= a < r.nodes.len() && 0 <= k < r.nodes[a].children.len() implies #[trigger] r.nodes[a].children[k].1
                < r.nodes.len() by {
                assert(r.nodes[a].children == old_model.nodes[a].children);
            }
            assert forall|a: int| 0 <= a < r.nodes.len() implies (#[trigger] r.nodes[a].parent matches Some(
                q,
            ) ==> q < r.nodes.len()) by {
                assert(r.nodes[a].parent == old_model.nodes[a].parent);
            }
            assert forall|a: int| 0 <= a < r.nodes.len() implies #[trigger] r.nodes[a].attr.ino
                < r.inode_count by {
                assert(r.nodes[a].attr == old_model.nodes[a].attr);
            }
        }
    }

    /// Points each link of the path map at the first node built for its
    /// unit generator, as `links_fixed` says.
    fn modify_symlink(&mut self, pathmap: &Vec<(usize, String)>)
        requires
            old(self)@.wf(),
            links_registered(old(self)@),
            forall|k: int|
                0 <= k < pathmap@.len() ==> #[trigger] pathmap@[k].0 < old(self).nodes.len()
                    && pathmap@[k].1@.len() > 0 && pathmap@[k].1@[0] == '/',
        ensures
            final(self)@ == links_fixed(old(self)@, pathmap_view(pathmap@), 0),
            final(self)@.wf(),
            final(self).nodes.len() == old(self).nodes.len(),
            final(self).inode_count == old(self).inode_count,
            forward(old(self)@.nodes) ==> forward(final(self)@.nodes),
            parents_match(old(self)@.nodes) ==> parents_match(final(self)@.nodes),
    {
        let ghost pm = pathmap_view(pathmap@);
        let ghost start = self@;
        let mut k: usize = 0;
        while k < pathmap.len()
            invariant
                pm == pathmap_view(pathmap@),
                k <= pathmap.len(),
                self@.wf(),
                links_registered(self@),
                self@.nodes.len() == start.nodes.len(),
                self.inode_count == start.inode_count,
                forward(start.nodes) ==> forward(self@.nodes),
                parents_match(start.nodes) ==> parents_match(self@.nodes),
                forall|j: int|
                    0 <= j < pathmap@.len() ==> #[trigger] pathmap@[j].0 < self.nodes.len()
                        && pathmap@[j].1@.len() > 0 && pathmap@[j].1@[0] == '/',
                links_fixed(start, pm, 0) == links_fixed(self@, pm, k as int),
            decreases pathmap.len() - k,
        {
            let n = pathmap[k].0;
            assert(pm[k as int] == (n, pathmap@[k as int].1@));
            let ghost before = self@;
            assert(before.nodes[n as int] == self.nodes@[n as int]@);
            let is_link = match self.nodes[n].attr.kind {
                FileKind::Symlink => true,
                _ => false,
            };
            if is_link {
                match self.nodes[n].ug {
                    Ugen::Mapped(a) => {
                        let target = match self.augs.get(&a) {
                            Some(t) => *t,
                            None => n,
                        };
                        proof {
                            lemma_first_with_node(pm, target, 0);
                        }
                        match first_node_position(pathmap, target) {
                            Some(m) => {
                                assert(pm[m as int] == (pathmap@[m as int].0, pathmap@[m as int].1@));
                                let link = relative_link_text(&pathmap[k].1, &pathmap[m].1);
                                proof {
                                    lemma_parents_same_links(
                                        before,
                                        n,
                                        NodeModel { link: Some(link@), ..before.nodes[n as int] },
                                    );
                                }
                                self.set_link(n, link);
                                proof {
                                    let r = self@;
                                    assert forall|i: int|
                                        0 <= i < r.nodes.len() && (#[trigger] r.nodes[i]).attr.kind
                                            == FileKind::Symlink implies (r.nodes[i].ug matches Ugen::Mapped(
                                        b,
                                    ) ==> r.augs.contains_key(b)) by {
                                        assert(r.nodes[i].attr == before.nodes[i].attr);
                                        assert(r.nodes[i].ug == before.nodes[i].ug);
                                    }
                                }
                            },
                            None => {},
                        }
                    },
                    Ugen::NotMapped => {},
                }
            }
            k = k + 1;
        }
    }

    /// The filesystem of the unit graph whose root unit generator `ug`
    /// dumps as `dump`, with `shared` the unit generators that more than one
    /// parameter holds, as `init_model` says.
    pub fn init(ug: u64, dump: &UgDump, shared: &Vec<u64>) -> (fs: KotoFS)
        requires
            !(*dump is Val),
            dump_known(*dump, shared@),
            151 + dump_size(*dump) <= u64::MAX,
        ensures
            fs@ == init_model(ug, *dump, shared@),
            fs@.wf(),
            forward(fs@.nodes),
            parents_match(fs@.nodes),
    {
        let placeholder = KotoNode {
            ug: Ugen::NotMapped,
            parent: None,
            children: Vec::new(),
            name: String::new(),
            data: Vec::new(),
            link: None,
            attr: create_file(0, 0, FileKind::RegularFile),
        };
        let mut nodes: Vec<KotoNode> = Vec::new();
        nodes.push(placeholder);
        let mut fs = KotoFS {
            root: 0,
            nodes: nodes,
            inodes: HashMap::new(),
            augs: HashMap::new(),
            inode_count: 151,
        };
        assert(entries_view(fs.nodes@[0].children@) =~= Seq::<(Seq<char>, usize)>::empty());
        assert(fs@ =~= initial_fs());
        let mut shared_used: Vec<bool> = Vec::new();
        let mut k: usize = 0;
        while k < shared.len()
            invariant
                k <= shared.len(),
                shared_used@ == Seq::new(k as nat, |j: int| false),
            decreases shared.len() - k,
        {
            shared_used.push(false);
            k = k + 1;
            assert(shared_used@ =~= Seq::new(k as nat, |j: int| false));
        }
        let ghost u0 = shared_used@;
        assert(u0 =~= Seq::new(shared@.len(), |j: int| false));
        let root = fs.build_node(ug, dump, None, shared, &mut shared_used);
        let ghost f1 = fs@;
        proof {
            assert forall|i: int|
                0 <= i < f1.nodes.len() && (#[trigger] f1.nodes[i]).attr.kind == FileKind::Symlink implies (
            f1.nodes[i].ug matches Ugen::Mapped(a) ==> f1.augs.contains_key(a)) by {
                if i >= 1 {
                    let a = f1.nodes[i].ug->0;
                    lemma_shared_index(shared@, a, 0);
                    let j = shared_index(shared@, a, 0);
                    assert(shared_used@[j]);
                    assert(!u0[j]);
                } else {
                    assert(f1.nodes[0] == initial_fs().nodes[0]);
                }
            }
        }
        let mut pathmap: Vec<(usize, String)> = Vec::new();
        let empty_path = String::new();
        KotoNode::build_pathmap(&fs.nodes, root, &empty_path, &mut pathmap);
        assert(pathmap_view(pathmap@) =~= pathmap_from(f1.nodes, root as int, Seq::empty(), 0));
        proof {
            lemma_pathmap_paths(f1.nodes, root as int, Seq::empty(), 0);
            assert forall|j: int| 0 <= j < pathmap@.len() implies #[trigger] pathmap@[j].0
                < fs.nodes.len() && pathmap@[j].1@.len() > 0 && pathmap@[j].1@[0] == '/' by {
                assert(pathmap_view(pathmap@)[j] == (pathmap@[j].0, pathmap@[j].1@));
            }
        }
        fs.modify_symlink(&pathmap);
        let ghost f2 = fs@;
        fs.augs.clear();
        fs.root = root;
        let ghost f3 = fs@;
        assert(f3.nodes == f2.nodes && f3.inodes == f2.inodes && f3.inode_count == f2.inode_count);
        let ghost before = fs.nodes@;
        assert(before[root as int]@ == f3.nodes[root as int]);
        proof {
            let rn = f3.nodes[root as int];
            lemma_parents_same_links(f3, root, NodeModel { attr: NodeAttr { ino: 1, ..rn.attr }, ..rn });
        }
        fs.nodes[root].attr.ino = 1;
        proof {
            lemma_nodes_update(before, root as int, fs.nodes@[root as int]);
            assert(fs.nodes@ == before.update(root as int, fs.nodes@[root as int]));
        }
        fs.inodes.insert(1, root);
        assert(fs@ =~= init_model(ug, *dump, shared@));
        proof {
            let r = fs@;
            assert forall|a: int, j: int|
                0 <= a < r.nodes.len() && 0 <= j < r.nodes[a].children.len() implies #[trigger] r.nodes[a].children[j].1
                < r.nodes.len() by {
                assert(r.nodes[a].children == f3.nodes[a].children);
            }
            assert forall|a: int| 0 <= a < r.nodes.len() implies (#[trigger] r.nodes[a].parent matches Some(
                q,
            ) ==> q < r.nodes.len()) by {
                assert(r.nodes[a].parent == f3.nodes[a].parent);
            }
            assert forall|a: int| 0 <= a < r.nodes.len() implies #[trigger] r.nodes[a].attr.ino
                < r.inode_count by {
                if a != root as int {
                    assert(r.nodes[a].attr == f2.nodes[a].attr);
                }
            }
            assert forall|ino: u64| #[trigger] r.inodes.contains_key(ino) implies r.inodes[ino]
                < r.nodes.len() && ino < r.inode_count by {
                if ino != 1 {
                    assert(f2.inodes.contains_key(ino));
                }
            }
        }
        fs
    }
}

} // verus!
