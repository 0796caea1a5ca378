//! The dump of a unit graph: what the filesystem tree is built from.
//!
//! A unit generator dumps itself as a value, or as a named unit generator
//! with named slots (and, for some, a list of further values). Numbers are
//! held as the bytes of their text, unit generators by a handle.

use vstd::prelude::*;

verus! {

/// A value held by a unit generator.
pub enum DumpValue {
    /// A number, by the bytes of its text.
    Number(Vec<u8>),
    /// A table of numbers, by the bytes of their texts.
    Table(Vec<Vec<u8>>),
    /// A pattern of notes, by the bytes of their texts.
    Pattern(Vec<Vec<u8>>),
    /// A unit generator, by its handle, with its own dump.
    Ug(u64, Box<UgDump>),
    /// A unit generator that more than one parameter holds, by its handle,
    /// with its own dump.
    Shared(u64, Box<UgDump>),
}

/// A named parameter of a unit generator: the handle of the unit generator
/// it holds, its name, and its value.
pub struct DumpSlot {
    pub ug: u64,
    pub name: String,
    pub value: DumpValue,
}

/// The dump of a unit generator.
pub enum UgDump {
    /// A plain value.
    Val(DumpValue),
    /// A unit generator of the given name, with its slots.
    Ug(String, Vec<DumpSlot>),
    /// A unit generator of the given name, with its slots, and values
    /// numbered under a base name.
    UgRest(String, Vec<DumpSlot>, String, Vec<DumpValue>),
}

/// The texts, each followed by a space.
pub open spec fn spaced(items: Seq<Seq<u8>>) -> Seq<u8>
    decreases items.len(),
{
    if items.len() == 0 {
        Seq::empty()
    } else {
        spaced(items.drop_last()) + items.last() + seq![32u8]
    }
}

/// The text of a table or a pattern: each item followed by a space, then a
/// newline.
pub open spec fn line_of(items: Seq<Vec<u8>>) -> Seq<u8> {
    spaced(items.map_values(|x: Vec<u8>| x@)) + seq![10u8]
}

/// An upper bound of the number of nodes that the value makes.
pub open spec fn value_size(v: DumpValue) -> nat
    decreases v, 0int,
{
    match v {
        DumpValue::Ug(_, d) => 1 + dump_size(*d),
        DumpValue::Shared(_, d) => 1 + dump_size(*d),
        _ => 1,
    }
}

/// An upper bound of the number of nodes that the dump makes.
pub open spec fn dump_size(d: UgDump) -> nat
    decreases d, 0int,
{
    match d {
        UgDump::Val(v) => 1 + value_size(v),
        UgDump::Ug(_, slots) => 1 + slots_size(slots@, 0),
        UgDump::UgRest(_, slots, _, values) => 1 + slots_size(slots@, 0) + values_size(values@, 0),
    }
}

/// An upper bound of the number of nodes that the slots from `i` on make.
pub open spec fn slots_size(slots: Seq<DumpSlot>, i: int) -> nat
    decreases slots, slots.len() - i,
{
    if 0 <= i < slots.len() {
        value_size(slots[i].value) + slots_size(slots, i + 1)
    } else {
        0
    }
}

/// An upper bound of the number of nodes that the values from `i` on make.
pub open spec fn values_size(values: Seq<DumpValue>, i: int) -> nat
    decreases values, values.len() - i,
{
    if 0 <= i < values.len() {
        value_size(values[i]) + values_size(values, i + 1)
    } else {
        0
    }
}

/// Every shared unit generator of the value is one of `shared`.
pub open spec fn value_known(v: DumpValue, shared: Seq<u64>) -> bool
    decreases v, 0int,
{
    match v {
        DumpValue::Ug(_, d) => dump_known(*d, shared),
        DumpValue::Shared(a, d) => shared.contains(a) && dump_known(*d, shared),
        _ => true,
    }
}

/// Every shared unit generator of the dump is one of `shared`.
pub open spec fn dump_known(d: UgDump, shared: Seq<u64>) -> bool
    decreases d, 0int,
{
    match d {
        UgDump::Val(v) => value_known(v, shared),
        UgDump::Ug(_, slots) => slots_known(slots@, 0, shared),
        UgDump::UgRest(_, slots, _, values) => slots_known(slots@, 0, shared) && values_known(
            values@,
            0,
            shared,
        ),
    }
}

/// Every shared unit generator of the slots from `i` on is one of `shared`.
pub open spec fn slots_known(slots: Seq<DumpSlot>, i: int, shared: Seq<u64>) -> bool
    decreases slots, slots.len() - i,
{
    if 0 <= i < slots.len() {
        value_known(slots[i].value, shared) && slots_known(slots, i + 1, shared)
    } else {
        true
    }
}

/// Every shared unit generator of the values from `i` on is one of
/// `shared`.
pub open spec fn values_known(values: Seq<DumpValue>, i: int, shared: Seq<u64>) -> bool
    decreases values, values.len() - i,
{
    if 0 <= i < values.len() {
        value_known(values[i], shared) && values_known(values, i + 1, shared)
    } else {
        true
    }
}

/// The text of a table or a pattern, as `line_of` says.
pub fn line_text(items: &Vec<Vec<u8>>) -> (r: Vec<u8>)
    ensures
        r@ == line_of(items@),
{
    let ghost views = items@.map_values(|x: Vec<u8>| x@);
    let mut r: Vec<u8> = Vec::new();
    let mut i: usize = 0;
    while i < items.len()
        invariant
            i <= items.len(),
            views == items@.map_values(|x: Vec<u8>| x@),
            r@ == spaced(views.subrange(0, i as int)),
        decreases items.len() - i,
    {
        let item = &items[i];
        let ghost before = r@;
        let mut k: usize = 0;
        while k < item.len()
            invariant
                k <= item.len(),
                r@ == before + item@.subrange(0, k as int),
            decreases item.len() - k,
        {
            r.push(item[k]);
            k = k + 1;
            assert(r@ =~= before + item@.subrange(0, k as int));
        }
        r.push(32u8);
        assert(views.subrange(0, i + 1).drop_last() =~= views.subrange(0, i as int));
        assert(views.subrange(0, i + 1).last() == item@);
        assert(item@.subrange(0, item@.len() as int) =~= item@);
        assert(r@ =~= spaced(views.subrange(0, i + 1)));
        i = i + 1;
    }
    assert(views.subrange(0, items@.len() as int) =~= views);
    r.push(10u8);
    r
}

} // verus!
