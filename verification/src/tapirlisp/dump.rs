//! Dumping a unit graph as Tapir Lisp text.

use vstd::prelude::*;
use crate::text::{concat_text, decimal, decimal_text, push_char, text_of_str};
use crate::mtime::Measure;
use vstd::string::StringExecFns;

use crate::ugen::ugcore::Parameter;

verus! {

/// The texts of `items`, each followed by a space but the last.
pub open spec fn joined(items: Seq<Seq<char>>, k: int) -> Seq<char>
    decreases k,
{
    if k <= 0 || k > items.len() {
        Seq::empty()
    } else {
        joined(items, k - 1) + items[k - 1] + if k - 1 != items.len() - 1 {
            seq![' ']
        } else {
            Seq::empty()
        }
    }
}

/// The form `(name item item ...)`; there is a space after the name even
/// where there are no items.
pub open spec fn list_text(name: Seq<char>, items: Seq<Seq<char>>) -> Seq<char> {
    seq!['('] + name + seq![' '] + joined(items, items.len() as int) + seq![')']
}

/// The texts of a `Vec<String>`.
pub open spec fn texts(v: Seq<String>) -> Seq<Seq<char>> {
    v.map_values(|s: String| s@)
}

/// The Tapir Lisp text of a dumped unit generator.
pub open spec fn dump_text(p: Parameter) -> Seq<char>
    decreases p, 1int, 0int,
{
    match p {
        Parameter::Value(s) => s@,
        Parameter::Table(vals) => list_text(seq!['t', 'a', 'b', 'l', 'e'], texts(vals@)),
        Parameter::Pattern(pat) => list_text(seq!['p', 'a', 't'], texts(pat@)),
        Parameter::UG(name, _, vvec) => seq!['('] + name@ + seq![' '] + op_joined(
            vvec@,
            vvec@.len() as int,
        ) + seq![')'],
    }
}

/// The texts of the first `k` parameters of a unit, each followed by a space
/// when it is not empty and not the last.
pub open spec fn op_joined(vvec: Seq<Box<Parameter>>, k: int) -> Seq<char>
    decreases vvec, 0int, k,
{
    if k <= 0 || k > vvec.len() {
        Seq::empty()
    } else {
        let d = dump_text(*vvec[k - 1]);
        op_joined(vvec, k - 1) + d + if d.len() != 0 && k - 1 != vvec.len() - 1 {
            seq![' ']
        } else {
            Seq::empty()
        }
    }
}

/// The definitions of the shared unit generators, the first `k` of them:
/// `(def shared-N dump)` and a newline each.
pub open spec fn shared_defs(shared: Seq<Parameter>, k: int) -> Seq<char>
    decreases k,
{
    if k <= 0 || k > shared.len() {
        Seq::empty()
    } else {
        shared_defs(shared, k - 1) + "(def shared-"@ + decimal((k - 1) as nat) + seq![' ']
            + dump_text(shared[k - 1]) + seq![')', '\n']
    }
}

/// The Tapir Lisp text of a configuration: the environment (tempo `bpm`,
/// as written, and the measure), the definitions of the shared unit
/// generators, and the unit graph, each part under a comment line.
pub open spec fn config_text(bpm: Seq<char>, m: Measure, shared: Seq<Parameter>, graph: Parameter) -> Seq<
    char,
> {
    ";; environment\n"@ + "(bpm "@ + bpm + ")\n"@ + "(measure "@ + decimal(m.beat as nat) + seq![' ']
        + decimal(m.note as nat) + ")\n"@ + "\n;; shared units\n"@ + shared_defs(
        shared,
        shared.len() as int,
    ) + "\n;; unit graph\n"@ + dump_text(graph) + seq!['\n']
}

/// The dump of a unit generator is a list: a value is its own numeral; a
/// unit is `(name` and a space, then the dumps of its parameters in order,
/// separated by single spaces, and a closing parenthesis; a table or a
/// pattern lists its items the same way under `table` or `pat`.
pub proof fn lemma_dump_text_shape(p: Parameter)
    ensures
        p matches Parameter::Value(v) ==> dump_text(p) == v@,
        p matches Parameter::UG(name, _, vvec) ==> {
            &&& starts_with_text(dump_text(p), seq!['('] + name@ + seq![' '])
            &&& dump_text(p).last() == ')'
            &&& vvec.len() == 1 ==> dump_text(p) == seq!['('] + name@ + seq![' '] + dump_text(*vvec[0])
                + seq![')']
            &&& (vvec.len() == 2 && dump_text(*vvec[0]).len() > 0) ==> dump_text(p) == seq!['(']
                + name@ + seq![' '] + dump_text(*vvec[0]) + seq![' '] + dump_text(*vvec[1]) + seq![')']
        },
        p matches Parameter::Table(vals) ==> (vals.len() == 2 ==> dump_text(p) == seq![
            '(',
            't',
            'a',
            'b',
            'l',
            'e',
            ' ',
        ] + vals[0]@ + seq![' '] + vals[1]@ + seq![')']),
{
    match p {
        Parameter::UG(name, _, vvec) => {
            let pre = seq!['('] + name@ + seq![' '];
            let body = op_joined(vvec@, vvec@.len() as int);
            assert(dump_text(p) == pre + body + seq![')']);
            assert((pre + body + seq![')']).subrange(0, pre.len() as int) =~= pre);
            if vvec.len() == 1 {
                assert(op_joined(vvec@, 0) == Seq::<char>::empty());
                assert(body =~= dump_text(*vvec[0]));
            }
            if vvec.len() == 2 && dump_text(*vvec[0]).len() > 0 {
                assert(op_joined(vvec@, 0) == Seq::<char>::empty());
                assert(op_joined(vvec@, 1) =~= dump_text(*vvec[0]) + seq![' ']);
                assert(body =~= dump_text(*vvec[0]) + seq![' '] + dump_text(*vvec[1]));
            }
        },
        Parameter::Table(vals) => {
            if vals.len() == 2 {
                let items = texts(vals@);
                assert(items[0] == vals[0]@ && items[1] == vals[1]@);
                assert(joined(items, 0) == Seq::<char>::empty());
                assert(joined(items, 1) =~= vals[0]@ + seq![' ']);
                assert(joined(items, 2) =~= vals[0]@ + seq![' '] + vals[1]@);
                assert(dump_text(p) =~= seq!['(', 't', 'a', 'b', 'l', 'e', ' '] + vals[0]@ + seq![' ']
                    + vals[1]@ + seq![')']);
            }
        },
        _ => {},
    }
}

/// `p` starts with `r`.
pub open spec fn starts_with_text(p: Seq<char>, r: Seq<char>) -> bool {
    r.len() <= p.len() && p.subrange(0, r.len() as int) == r
}

/// The text of a configuration before its shared units: the environment
/// and the heading of the shared units.
pub open spec fn config_head(bpm: Seq<char>, m: Measure) -> Seq<char> {
    ";; environment\n"@ + "(bpm "@ + bpm + ")\n"@ + "(measure "@ + decimal(m.beat as nat) + seq![' ']
        + decimal(m.note as nat) + ")\n"@ + "\n;; shared units\n"@
}

/// The definitions of fewer shared units begin the definitions of more.
proof fn lemma_shared_defs_prefix(shared: Seq<Parameter>, i: int, j: int)
    requires
        0 <= i <= j <= shared.len(),
    ensures
        shared_defs(shared, i).len() <= shared_defs(shared, j).len(),
        shared_defs(shared, j).subrange(0, shared_defs(shared, i).len() as int) == shared_defs(
            shared,
            i,
        ),
    decreases j - i,
{
    if i < j {
        lemma_shared_defs_prefix(shared, i, j - 1);
        assert(shared_defs(shared, j).subrange(0, shared_defs(shared, i).len() as int)
            =~= shared_defs(shared, j - 1).subrange(0, shared_defs(shared, i).len() as int));
    }
}

/// In the dump of a configuration, the shared units are defined in the
/// order of the list, one line each, and the `k`-th of them (from 0) is
/// bound to the name `shared-k`: after the environment and the
/// definitions of the units before it comes the line
/// `(def shared-k dump)` for the `k`-th unit, so that `shared-k` in the
/// unit graph names the `k`-th shared unit. The environment (`(bpm ..)`
/// and `(measure beat note)`) comes first, the unit graph last.
pub proof fn lemma_shared_units_numbered(
    bpm: Seq<char>,
    m: Measure,
    shared: Seq<Parameter>,
    graph: Parameter,
    k: int,
)
    requires
        0 <= k < shared.len(),
    ensures
        ({
            let line = "(def shared-"@ + decimal(k as nat) + seq![' '] + dump_text(shared[k]) + seq![
                ')',
                '\n',
            ];
            let off = (config_head(bpm, m).len() + shared_defs(shared, k).len()) as int;
            &&& config_text(bpm, m, shared, graph) == config_head(bpm, m) + shared_defs(
                shared,
                shared.len() as int,
            ) + "\n;; unit graph\n"@ + dump_text(graph) + seq!['\n']
            &&& off + line.len() <= config_text(bpm, m, shared, graph).len()
            &&& config_text(bpm, m, shared, graph).subrange(off, off + line.len() as int) == line
        }),
{
    let line = "(def shared-"@ + decimal(k as nat) + seq![' '] + dump_text(shared[k]) + seq![')', '\n'];
    let h = config_head(bpm, m);
    let all = shared_defs(shared, shared.len() as int);
    let before = shared_defs(shared, k);
    assert(shared_defs(shared, k + 1) =~= before + line);
    lemma_shared_defs_prefix(shared, k + 1, shared.len() as int);
    assert(all.subrange(before.len() as int, (before.len() + line.len()) as int) =~= line) by {
        assert(all.subrange(0, (before.len() + line.len()) as int) == before + line);
        assert forall|i: int| 0 <= i < line.len() implies all.subrange(
            before.len() as int,
            (before.len() + line.len()) as int,
        )[i] == line[i] by {
            assert(all.subrange(0, (before.len() + line.len()) as int)[before.len() as int + i] == (before
                + line)[before.len() as int + i]);
        }
    }
    let tail = "\n;; unit graph\n"@ + dump_text(graph) + seq!['\n'];
    assert(config_text(bpm, m, shared, graph) =~= h + all + tail);
    let off = (h.len() + before.len()) as int;
    assert forall|i: int| 0 <= i < line.len() implies config_text(bpm, m, shared, graph).subrange(
        off,
        off + line.len() as int,
    )[i] == line[i] by {
        assert((h + all + tail)[off + i] == all[before.len() as int + i]);
        assert(all.subrange(before.len() as int, (before.len() + line.len()) as int)[i] == all[before.len() as int + i]);
    }
    assert(config_text(bpm, m, shared, graph).subrange(off, off + line.len() as int) =~= line);
}

/// Appends `(name ` to `s`.
fn open_form(s: &mut String, name: &String)
    ensures
        final(s)@ == old(s)@ + seq!['('] + name@ + seq![' '],
{
    let ghost before = s@;
    push_char(s, '(');
    s.append(name.as_str());
    push_char(s, ' ');
    assert(s@ =~= before + seq!['('] + name@ + seq![' ']);
}

/// The form `(name v v ...)` of a list of texts.
fn dump_list(name: &String, vec: &Vec<String>) -> (s: String)
    ensures
        s@ == list_text(name@, texts(vec@)),
{
    let mut s = String::new();
    open_form(&mut s, name);
    let ghost head = s@;
    let ghost items = texts(vec@);
    let mut i: usize = 0;
    while i < vec.len()
        invariant
            i <= vec.len(),
            items == texts(vec@),
            s@ == head + joined(items, i as int),
        decreases vec.len() - i,
    {
        let ghost before = s@;
        s.append(vec[i].as_str());
        if i != vec.len() - 1 {
            push_char(&mut s, ' ');
        }
        i = i + 1;
        assert(s@ =~= head + joined(items, i as int));
    }
    push_char(&mut s, ')');
    assert(s@ =~= list_text(name@, items));
    s
}

/// The form `(name v v ...)` of a wave table whose values are given as
/// numerals.
fn dump_table(name: &String, vec: &Vec<String>) -> (s: String)
    ensures
        s@ == list_text(name@, texts(vec@)),
{
    dump_list(name, vec)
}

/// The form `(name p p ...)` of a unit whose parameters are dumped in turn.
fn dump_op(name: &String, vvec: &Vec<Box<Parameter>>) -> (s: String)
    ensures
        s@ == seq!['('] + name@ + seq![' '] + op_joined(vvec@, vvec@.len() as int) + seq![')'],
    decreases vvec@, 0int, vvec@.len() + 1,
{
    let mut s = String::new();
    open_form(&mut s, name);
    let ghost head = s@;
    let mut i: usize = 0;
    while i < vvec.len()
        invariant
            i <= vvec.len(),
            s@ == head + op_joined(vvec@, i as int),
        decreases vvec.len() - i,
    {
        let dump = dump_unit(&*vvec[i]);
        s.append(dump.as_str());
        if dump.unicode_len() != 0 && i != vvec.len() - 1 {
            push_char(&mut s, ' ');
        }
        i = i + 1;
        assert(s@ =~= head + op_joined(vvec@, i as int));
    }
    push_char(&mut s, ')');
    assert(s@ =~= seq!['('] + name@ + seq![' '] + op_joined(vvec@, vvec@.len() as int) + seq![
        ')',
    ]);
    s
}

/// The Tapir Lisp text of a dumped unit generator: a value is its numeral, a
/// table is `(table v ...)`, a pattern is `(pat e ...)`, and a unit is
/// `(name p ...)` with its parameters dumped in turn.
pub fn dump_unit(dump: &Parameter) -> (s: String)
    ensures
        s@ == dump_text(*dump),
    decreases dump, 1int, 0int,
{
    match dump {
        Parameter::Value(s) => s.clone(),
        Parameter::Table(vals) => {
            let mut name = String::new();
            push_char(&mut name, 't');
            push_char(&mut name, 'a');
            push_char(&mut name, 'b');
            push_char(&mut name, 'l');
            push_char(&mut name, 'e');
            assert(name@ =~= seq!['t', 'a', 'b', 'l', 'e']);
            dump_table(&name, vals)
        },
        Parameter::Pattern(pat) => {
            let mut name = String::new();
            push_char(&mut name, 'p');
            push_char(&mut name, 'a');
            push_char(&mut name, 't');
            assert(name@ =~= seq!['p', 'a', 't']);
            dump_list(&name, pat)
        },
        Parameter::UG(name, _, vvec) => dump_op(name, vvec),
    }
}


/// The Tapir Lisp text of a configuration, as `config_text` says: `bpm` is
/// the tempo as written, `shared` the dumps of the shared unit generators,
/// `graph` the dump of the unit graph.
pub fn dump(bpm: &String, measure: &Measure, shared: &Vec<Parameter>, graph: &Parameter) -> (s:
    String)
    ensures
        s@ == config_text(bpm@, *measure, shared@, *graph),
{
    let mut s = text_of_str(";; environment\n");
    s = concat_text(&s, &text_of_str("(bpm "));
    s = concat_text(&s, bpm);
    s = concat_text(&s, &text_of_str(")\n"));
    s = concat_text(&s, &text_of_str("(measure "));
    s = concat_text(&s, &decimal_text(measure.beat));
    push_char(&mut s, ' ');
    s = concat_text(&s, &decimal_text(measure.note));
    s = concat_text(&s, &text_of_str(")\n"));
    s = concat_text(&s, &text_of_str("\n;; shared units\n"));
    let ghost head = s@;
    let mut k: usize = 0;
    while k < shared.len()
        invariant
            k <= shared.len(),
            s@ == head + shared_defs(shared@, k as int),
        decreases shared.len() - k,
    {
        s = concat_text(&s, &text_of_str("(def shared-"));
        s = concat_text(&s, &decimal_text(k as u64));
        push_char(&mut s, ' ');
        s = concat_text(&s, &dump_unit(&shared[k]));
        push_char(&mut s, ')');
        push_char(&mut s, '\n');
        k = k + 1;
        assert(s@ =~= head + shared_defs(shared@, k as int));
    }
    s = concat_text(&s, &text_of_str("\n;; unit graph\n"));
    s = concat_text(&s, &dump_unit(graph));
    push_char(&mut s, '\n');
    assert(s@ =~= config_text(bpm@, *measure, shared@, *graph));
    s
}

} // verus!
