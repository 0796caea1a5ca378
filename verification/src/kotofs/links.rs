//! Why the links made when the tree is built lead where they should.
//!
//! A link is made from the path map of the tree: from the node at path `P`
//! to the node at path `Q` it goes up once for each part of `P` but the
//! last, then down along `Q`. Followed from the parent of its node, it
//! reaches the node at `Q`, in a tree whose entries lead to later nodes
//! whose parent they name, where no directory holds a name twice and every
//! name is a plain part of a path.

use vstd::prelude::*;

use super::from_dump::{relative_link, slash_count, up_path};
use crate::kotonode::{
    char_index, find_named, forward, lemma_find_named, link_path, parents_match, path_step, pathmap_from,
    resolve_from, NodeModel,
};

verus! {

/// No directory holds a name twice.
pub open spec fn names_unique(nodes: Seq<NodeModel>) -> bool {
    forall|i: int, j: int, k: int|
        0 <= i < nodes.len() && 0 <= j < k < nodes[i].children.len() ==> #[trigger] nodes[i].children[j].0
            != #[trigger] nodes[i].children[k].0
}

/// Every name is a plain part of a path: not empty, without `/`, not
/// `..`.
pub open spec fn names_plain(nodes: Seq<NodeModel>) -> bool {
    forall|i: int, j: int|
        0 <= i < nodes.len() && 0 <= j < nodes[i].children.len() ==> plain_part(
            #[trigger] nodes[i].children[j].0,
        )
}

/// A plain part of a path.
pub open spec fn plain_part(s: Seq<char>) -> bool {
    s.len() > 0 && !s.contains('/') && s != seq!['.', '.']
}

/// The node `m` parents up from node `x`.
pub open spec fn ancestor(nodes: Seq<NodeModel>, x: int, m: nat) -> Option<usize>
    decreases m,
{
    if m == 0 {
        Some(x as usize)
    } else {
        match nodes[x].parent {
            Some(p) => ancestor(nodes, p as int, (m - 1) as nat),
            None => None,
        }
    }
}

/// The first `c` after a prefix is found in the rest.
proof fn lemma_char_index_shift(s: Seq<char>, c: char, i: int, k: int)
    requires
        0 <= i <= s.len(),
        0 <= k <= s.len() - i,
    ensures
        char_index(s, c, i + k) == i + char_index(s.subrange(i, s.len() as int), c, k),
    decreases s.len() - i - k,
{
    let t = s.subrange(i, s.len() as int);
    if i + k < s.len() {
        assert(s[i + k] == t[k]);
        if s[i + k] != c {
            lemma_char_index_shift(s, c, i, k + 1);
        }
    }
}

/// Following a path from position `i` is following what follows `i`.
proof fn lemma_resolve_shift(nodes: Seq<NodeModel>, n: int, s: Seq<char>, i: int)
    requires
        0 <= i <= s.len(),
    ensures
        resolve_from(nodes, n, s, i) == resolve_from(nodes, n, s.subrange(i, s.len() as int), 0),
    decreases s.len() - i,
{
    let t = s.subrange(i, s.len() as int);
    lemma_char_index_shift(s, '/', i, 0);
    lemma_char_index_bounds(t, '/', 0);
    let d = char_index(s, '/', i);
    let e = char_index(t, '/', 0);
    assert(d == i + e);
    assert(s.subrange(i, d) =~= t.subrange(0, e));
    if d < s.len() {
        let step = path_step(nodes, n, s.subrange(i, d));
        if let Some(next) = step {
            lemma_resolve_shift(nodes, next as int, s, d + 1);
            lemma_resolve_shift(nodes, next as int, t, e + 1);
            assert(s.subrange(d + 1, s.len() as int) =~= t.subrange(e + 1, t.len() as int));
        }
    }
}

/// Bounds of `char_index`.
proof fn lemma_char_index_bounds(s: Seq<char>, c: char, i: int)
    requires
        0 <= i <= s.len(),
    ensures
        i <= char_index(s, c, i) <= s.len(),
        char_index(s, c, i) < s.len() ==> s[char_index(s, c, i)] == c,
        forall|k: int| i <= k < char_index(s, c, i) ==> s[k] != c,
    decreases s.len() - i,
{
    if i < s.len() && s[i] != c {
        lemma_char_index_bounds(s, c, i + 1);
    }
}

/// A path that starts with a part takes one step along it, then follows
/// the rest.
proof fn lemma_resolve_part(nodes: Seq<NodeModel>, x: int, a: Seq<char>, r: Seq<char>)
    requires
        !a.contains('/'),
    ensures
        resolve_from(nodes, x, a + seq!['/'] + r, 0) == match path_step(nodes, x, a) {
            Some(y) => resolve_from(nodes, y as int, r, 0),
            None => None,
        },
{
    let s = a + seq!['/'] + r;
    lemma_char_index_bounds(s, '/', 0);
    assert forall|k: int| 0 <= k < a.len() implies s[k] != '/' by {
        assert(s[k] == a[k]);
        if a[k] == '/' {
            assert(a.contains('/'));
        }
    }
    assert(s[a.len() as int] == '/');
    assert(char_index(s, '/', 0) == a.len());
    assert(s.subrange(0, a.len() as int) =~= a);
    if let Some(y) = path_step(nodes, x, a) {
        lemma_resolve_shift(nodes, y as int, s, a.len() + 1int);
        assert(s.subrange(a.len() + 1int, s.len() as int) =~= r);
    }
}

/// A path of one part is one step.
proof fn lemma_resolve_single(nodes: Seq<NodeModel>, x: int, a: Seq<char>)
    requires
        !a.contains('/'),
    ensures
        resolve_from(nodes, x, a, 0) == path_step(nodes, x, a),
{
    lemma_char_index_bounds(a, '/', 0);
    if char_index(a, '/', 0) < a.len() {
        assert(a.contains('/'));
    }
    assert(a.subrange(0, a.len() as int) =~= a);
}

/// `../`, `m` times, is `../` then `m - 1` times.
proof fn lemma_up_path_front(m: nat)
    requires
        m > 0,
    ensures
        up_path(m) == seq!['.', '.', '/'] + up_path((m - 1) as nat),
    decreases m,
{
    if m > 1 {
        lemma_up_path_front((m - 1) as nat);
        assert(up_path(m) =~= seq!['.', '.', '/'] + up_path((m - 1) as nat));
    } else {
        assert(up_path(m) =~= seq!['.', '.', '/'] + up_path((m - 1) as nat));
    }
}

/// Going up `m` times, then following `r`.
proof fn lemma_resolve_up(nodes: Seq<NodeModel>, x: usize, m: nat, r: Seq<char>)
    ensures
        resolve_from(nodes, x as int, up_path(m) + r, 0) == match ancestor(nodes, x as int, m) {
            Some(y) => resolve_from(nodes, y as int, r, 0),
            None => None,
        },
    decreases m,
{
    if m > 0 {
        lemma_up_path_front(m);
        let a = seq!['.', '.'];
        assert(!a.contains('/')) by {
            if a.contains('/') {
                let k = choose|k: int| 0 <= k < a.len() && a[k] == '/';
                assert(a[k] == '.');
            }
        }
        assert(up_path(m) + r =~= a + seq!['/'] + (up_path((m - 1) as nat) + r));
        lemma_resolve_part(nodes, x as int, a, up_path((m - 1) as nat) + r);
        assert(path_step(nodes, x as int, a) == nodes[x as int].parent);
        if let Some(p) = nodes[x as int].parent {
            lemma_resolve_up(nodes, p, (m - 1) as nat, r);
        }
    } else {
        assert(up_path(m) + r =~= r);
    }
}

/// The number of `/` of a concatenation.
proof fn lemma_slash_count_concat(a: Seq<char>, b: Seq<char>)
    ensures
        slash_count(a + b) == slash_count(a) + slash_count(b),
    decreases b.len(),
{
    if b.len() > 0 {
        lemma_slash_count_concat(a, b.drop_last());
        assert((a + b).drop_last() =~= a + b.drop_last());
        assert((a + b).last() == b.last());
    } else {
        assert(a + b =~= a);
    }
}

/// A lone `/` is one.
proof fn lemma_slash_one()
    ensures
        slash_count(seq!['/']) == 1,
{
    let s = seq!['/'];
    assert(s.drop_last() =~= Seq::<char>::empty());
    assert(slash_count(s.drop_last()) == 0);
    assert(s.last() == '/');
}

/// A text without `/` holds none.
proof fn lemma_slash_count_none(a: Seq<char>)
    requires
        !a.contains('/'),
    ensures
        slash_count(a) == 0,
    decreases a.len(),
{
    if a.len() > 0 {
        assert(!a.drop_last().contains('/')) by {
            if a.drop_last().contains('/') {
                let k = choose|k: int| 0 <= k < a.drop_last().len() && a.drop_last()[k] == '/';
                assert(a[k] == '/');
            }
        }
        lemma_slash_count_none(a.drop_last());
        assert(a.last() == a[a.len() - 1]);
    }
}

/// One parent more up is one step up from the node reached.
proof fn lemma_ancestor_step(nodes: Seq<NodeModel>, x: usize, m: nat)
    ensures
        ancestor(nodes, x as int, m + 1) == match ancestor(nodes, x as int, m) {
            Some(y) => nodes[y as int].parent,
            None => None,
        },
    decreases m,
{
    if m > 0 {
        if let Some(p) = nodes[x as int].parent {
            lemma_ancestor_step(nodes, p, (m - 1) as nat);
        }
    } else {
        assert(ancestor(nodes, x as int, 0) == Some(x));
        if let Some(p) = nodes[x as int].parent {
            assert(ancestor(nodes, p as int, 0) == Some(p));
        }
    }
}

/// Each node of the path map of the subtree of `n`, whose path is `path`,
/// lies at `path`, a `/`, and a path `rel` that leads to it from `n`; and
/// going up from its parent once for each `/` of `rel` reaches `n`.
proof fn lemma_pathmap_entries(nodes: Seq<NodeModel>, n: int, path: Seq<char>, j: int)
    requires
        0 <= n < nodes.len(),
        0 <= j,
        forward(nodes),
        parents_match(nodes),
        names_unique(nodes),
        names_plain(nodes),
    ensures
        forall|k: int|
            0 <= k < pathmap_from(nodes, n, path, j).len() ==> #[trigger] entry_ok(
                nodes,
                n,
                path,
                pathmap_from(nodes, n, path, j)[k],
            ),
    decreases nodes.len() - n, nodes[n].children.len() - j,
{
    if j < nodes[n].children.len() {
        let e = nodes[n].children[j];
        let p = path + seq!['/'] + e.0;
        if n < e.1 < nodes.len() {
            let c = e.1;
            lemma_pathmap_entries(nodes, c as int, p, 0);
            lemma_pathmap_entries(nodes, n, path, j + 1);
            let head = seq![(c, p)];
            let mid = pathmap_from(nodes, c as int, p, 0);
            let tail = pathmap_from(nodes, n, path, j + 1);
            assert(pathmap_from(nodes, n, path, j) == head + mid + tail);
            assert(plain_part(e.0));
            lemma_resolve_single(nodes, n, e.0);
            lemma_find_named(nodes[n].children, e.0, 0);
            lemma_named_is_unique(nodes, n, j);
            assert(path_step(nodes, n, e.0) == Some(c));
            assert(nodes[c as int].parent == Some(n as usize));
            lemma_slash_count_none(e.0);
            assert(entry_ok(nodes, n, path, (c, p))) by {
                assert(p == path + seq!['/'] + e.0);
                assert(e.0.last() != '/') by {
                    if e.0.last() == '/' {
                        assert(e.0.contains('/'));
                    }
                }
            }
            assert forall|k: int| 0 <= k < (head + mid + tail).len() implies #[trigger] entry_ok(
                nodes,
                n,
                path,
                (head + mid + tail)[k],
            ) by {
                if k == 0 {
                    assert((head + mid + tail)[k] == (c, p));
                } else if k < 1 + mid.len() {
                    let x = mid[k - 1];
                    assert((head + mid + tail)[k] == x);
                    assert(entry_ok(nodes, c as int, p, x));
                    lemma_entry_lift(nodes, n, path, c, e.0, x);
                } else {
                    assert((head + mid + tail)[k] == tail[k - 1 - mid.len()]);
                }
            }
        }
    }
}

/// The node `x.0` lies at `path`, a `/`, and a path from `n` to it, and
/// its parent is as many parents below `n` as that path has `/`.
pub open spec fn entry_ok(nodes: Seq<NodeModel>, n: int, path: Seq<char>, x: (usize, Seq<char>)) -> bool {
    exists|rel: Seq<char>|
        #![trigger path + seq!['/'] + rel]
        x.1 == path + seq!['/'] + rel && rel.len() > 0 && rel.last() != '/' && resolve_from(
            nodes,
            n,
            rel,
            0,
        ) == Some(x.0) && match nodes[x.0 as int].parent {
            Some(q) => ancestor(nodes, q as int, slash_count(rel)) == Some(n as usize),
            None => false,
        }
}

/// The entry at `j` is the first of its name.
proof fn lemma_named_is_unique(nodes: Seq<NodeModel>, n: int, j: int)
    requires
        0 <= n < nodes.len(),
        0 <= j < nodes[n].children.len(),
        names_unique(nodes),
    ensures
        find_named(nodes[n].children, nodes[n].children[j].0, 0) == Some(j),
{
    let cs = nodes[n].children;
    lemma_find_named(cs, cs[j].0, 0);
    if let Some(f) = find_named(cs, cs[j].0, 0) {
        if f < j {
            assert(cs[f].0 != cs[j].0);
        }
    }
}

/// An entry of the subtree of child `c` (entry `name` of `n`) is an entry
/// of the subtree of `n`.
proof fn lemma_entry_lift(
    nodes: Seq<NodeModel>,
    n: int,
    path: Seq<char>,
    c: usize,
    name: Seq<char>,
    x: (usize, Seq<char>),
)
    requires
        plain_part(name),
        path_step(nodes, n, name) == Some(c),
        nodes[c as int].parent == Some(n as usize),
        entry_ok(nodes, c as int, path + seq!['/'] + name, x),
    ensures
        entry_ok(nodes, n, path, x),
{
    let p = path + seq!['/'] + name;
    let rel = choose|rel: Seq<char>|
        #![trigger p + seq!['/'] + rel]
        x.1 == p + seq!['/'] + rel && rel.len() > 0 && rel.last() != '/' && resolve_from(
            nodes,
            c as int,
            rel,
            0,
        ) == Some(x.0) && match nodes[x.0 as int].parent {
            Some(q) => ancestor(nodes, q as int, slash_count(rel)) == Some(c),
            None => false,
        };
    let rel2 = name + seq!['/'] + rel;
    assert(x.1 =~= path + seq!['/'] + rel2);
    assert(rel2.last() == rel.last());
    lemma_resolve_part(nodes, n, name, rel);
    lemma_slash_count_concat(name, seq!['/'] + rel);
    lemma_slash_count_concat(seq!['/'], rel);
    lemma_slash_one();
    lemma_slash_count_none(name);
    assert(name + seq!['/'] + rel =~= name + (seq!['/'] + rel));
    let q = nodes[x.0 as int].parent->0;
    lemma_ancestor_step(nodes, q, slash_count(rel));
    assert(slash_count(rel2) == slash_count(rel) + 1);
}

/// A link made from the path map of a tree built from the root down,
/// whose directories hold each name once and whose names are plain parts
/// of paths, leads from the parent of the node at one path of the map to
/// the node at any other.
pub proof fn lemma_links_lead_to_targets(nodes: Seq<NodeModel>, root: int, s: int, t: int)
    requires
        0 <= root < nodes.len(),
        forward(nodes),
        parents_match(nodes),
        names_unique(nodes),
        names_plain(nodes),
        0 <= s < pathmap_from(nodes, root, Seq::empty(), 0).len(),
        0 <= t < pathmap_from(nodes, root, Seq::empty(), 0).len(),
    ensures
        ({
            let pm = pathmap_from(nodes, root, Seq::empty(), 0);
            let link = relative_link(pm[s].1, pm[t].1);
            &&& nodes[pm[s].0 as int].parent is Some
            &&& link_path(link) == link
            &&& resolve_from(nodes, nodes[pm[s].0 as int].parent->0 as int, link, 0) == Some(pm[t].0)
        }),
{
    let pm = pathmap_from(nodes, root, Seq::empty(), 0);
    lemma_pathmap_entries(nodes, root, Seq::empty(), 0);
    assert(entry_ok(nodes, root, Seq::empty(), pm[s]));
    assert(entry_ok(nodes, root, Seq::empty(), pm[t]));
    let e = Seq::<char>::empty();
    let rs = choose|rel: Seq<char>|
        #![trigger e + seq!['/'] + rel]
        pm[s].1 == e + seq!['/'] + rel && rel.len() > 0 && rel.last() != '/' && resolve_from(
            nodes,
            root,
            rel,
            0,
        ) == Some(pm[s].0) && match nodes[pm[s].0 as int].parent {
            Some(q) => ancestor(nodes, q as int, slash_count(rel)) == Some(root as usize),
            None => false,
        };
    let rt = choose|rel: Seq<char>|
        #![trigger e + seq!['/'] + rel]
        pm[t].1 == e + seq!['/'] + rel && rel.len() > 0 && rel.last() != '/' && resolve_from(
            nodes,
            root,
            rel,
            0,
        ) == Some(pm[t].0) && match nodes[pm[t].0 as int].parent {
            Some(q) => ancestor(nodes, q as int, slash_count(rel)) == Some(root as usize),
            None => false,
        };
    assert(pm[s].1 =~= seq!['/'] + rs);
    assert(pm[t].1 =~= seq!['/'] + rt);
    lemma_slash_count_concat(seq!['/'], rs);
    lemma_slash_one();
    assert(pm[t].1.subrange(1, pm[t].1.len() as int) =~= rt);
    let q = nodes[pm[s].0 as int].parent->0;
    let link = relative_link(pm[s].1, pm[t].1);
    assert(link == up_path(slash_count(rs)) + rt);
    lemma_resolve_up(nodes, q, slash_count(rs), rt);
    assert(link.last() == rt.last());
}

} // verus!
