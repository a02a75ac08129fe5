use vstd::prelude::*;
use vstd::string::StringExecFns;

use crate::blob::{compatible, DeviceTreeBlob};
use crate::encode::{blob_of, names_of, total_size, DtbError, HEADER_SIZE};
use crate::laws::lemma_round_trip;
use crate::property::{pairs_bytes, DeviceTreeProperty};
use crate::tree::{items_of, prop_items, children_items, ItemView, Node, Property, DeviceTree, StructItem};

verus! {

/// Wraps `blob` for reading once its header has passed the check.
pub fn parse(blob: &[u8]) -> (r: Result<DeviceTreeBlob, DtbError>)
    ensures
        r is Ok <==> blob@.len() >= HEADER_SIZE && compatible(blob@),
        r is Ok ==> r->Ok_0@ == blob@ && r->Ok_0.wf(),
        r is Err ==> (r->Err_0 == DtbError::TooShort <==> blob@.len() < HEADER_SIZE),
        r is Err ==> (r->Err_0 == DtbError::TooShort || r->Err_0 == DtbError::NotCompatible),
{
    let b = DeviceTreeBlob::from_slice(blob)?;
    b.compatibility_check()?;
    Ok(b)
}

/// Nesting depth before item `i`: beginnings minus ends among the items before it.
pub open spec fn depth(items: Seq<ItemView>, i: int) -> int
    decreases i,
{
    if i <= 0 {
        0
    } else {
        depth(items, i - 1) + match items[i - 1] {
            ItemView::Begin(_) => 1int,
            ItemView::End => -1int,
            ItemView::Prop(_, _) => 0int,
        }
    }
}

/// Indentation for item `i` of a listing: two columns per enclosing node, an end standing
/// level with its beginning.
pub open spec fn indent_of(items: Seq<ItemView>, i: int) -> int {
    match items[i] {
        ItemView::End => 2 * (depth(items, i) - 1),
        _ => 2 * depth(items, i),
    }
}

/// No end comes before its beginning.
pub open spec fn never_closes_unopened(items: Seq<ItemView>) -> bool {
    forall|i: int| 0 <= i <= items.len() ==> depth(items, i) >= 0
}

/// The indentation of each item of a listing of the walk `items`.
pub fn read(items: &Vec<StructItem>) -> (r: Vec<usize>)
    requires
        never_closes_unopened(crate::tree::items_view(items@)),
        items@.len() <= usize::MAX / 2,
    ensures
        r@.len() == items@.len(),
        forall|i: int| 0 <= i < r@.len() ==> r@[i] == indent_of(crate::tree::items_view(items@), i),
{
    let ghost iv = crate::tree::items_view(items@);
    let mut out: Vec<usize> = Vec::new();
    let mut indent: usize = 0;
    let mut i: usize = 0;
    while i < items.len()
        invariant
            iv == crate::tree::items_view(items@),
            never_closes_unopened(iv),
            items@.len() <= usize::MAX / 2,
            i <= items@.len(),
            indent == 2 * depth(iv, i as int),
            depth(iv, i as int) <= i,
            out@.len() == i,
            forall|j: int| 0 <= j < i ==> out@[j] == indent_of(iv, j),
        decreases items@.len() - i,
    {
        assert(iv[i as int] == items@[i as int].view());
        assert(depth(iv, i + 1) >= 0);
        match &items[i] {
            StructItem::BeginNode { .. } => {
                out.push(indent);
                indent = indent + 2;
            },
            StructItem::EndNode => {
                indent = indent - 2;
                out.push(indent);
            },
            StructItem::Property { .. } => {
                out.push(indent);
            },
        }
        i = i + 1;
    }
    out
}

pub open spec fn memory_name() -> Seq<char> {
    seq!['m', 'e', 'm', 'o', 'r', 'y']
}

pub open spec fn reg_name() -> Seq<char> {
    seq!['r', 'e', 'g']
}

/// A region fits a one-cell `reg` entry.
pub open spec fn fits_cell(m: (u64, u64)) -> bool {
    m.0 <= u32::MAX && m.1 <= u32::MAX
}

/// The `reg` cells of the regions.
pub open spec fn cells(regions: Seq<(u64, u64)>) -> Seq<(u32, u32)> {
    regions.map_values(|m: (u64, u64)| (m.0 as u32, m.1 as u32))
}

/// The walk of a tree whose only node below the root is `memory`, holding `reg`.
pub open spec fn memory_items(p: Seq<(u32, u32)>) -> Seq<ItemView> {
    seq![
        ItemView::Begin(Seq::empty()),
        ItemView::Begin(memory_name()),
        ItemView::Prop(reg_name(), pairs_bytes(p)),
        ItemView::End,
        ItemView::End,
    ]
}

/// The blob that describes physical memory as the regions (base, length): a `memory` node
/// whose `reg` holds one (address, size) cell pair per region, in order. A region whose
/// base or length does not fit a 32-bit cell is refused, not cut short.
pub fn memory_map_blob(regions: &Vec<(u64, u64)>) -> (r: Result<Vec<u8>, DtbError>)
    ensures
        r is Ok <==> (forall|i: int| 0 <= i < regions@.len() ==> fits_cell(#[trigger] regions@[i]))
            && total_size(memory_items(cells(regions@)), Seq::empty()) <= u32::MAX,
        r is Ok ==> r->Ok_0@ == blob_of(memory_items(cells(regions@)), Seq::empty()),
        r is Err ==> (r->Err_0 == DtbError::RegionTooWide <==> exists|i: int|
            0 <= i < regions@.len() && !fits_cell(#[trigger] regions@[i])),
        r is Err ==> (r->Err_0 == DtbError::RegionTooWide || r->Err_0 == DtbError::TooLarge),
{
    let mut reg: Vec<(u32, u32)> = Vec::new();
    let mut i: usize = 0;
    while i < regions.len()
        invariant
            i <= regions@.len(),
            reg@ == cells(regions@.subrange(0, i as int)),
            forall|j: int| 0 <= j < i ==> fits_cell(#[trigger] regions@[j]),
        decreases regions@.len() - i,
    {
        let (base, len) = regions[i];
        if base > 0xffff_ffffu64 || len > 0xffff_ffffu64 {
            assert(!fits_cell(regions@[i as int]));
            return Err(DtbError::RegionTooWide);
        }
        reg.push((base as u32, len as u32));
        i = i + 1;
        assert(reg@ =~= cells(regions@.subrange(0, i as int)));
    }
    assert(regions@.subrange(0, i as int) =~= regions@);
    let ghost p = reg@;
    let reg_prop = Property {
        name: String::from_str("reg"),
        value: DeviceTreeProperty::MultipleUnsignedInt32_32(reg),
    };
    let mut props: Vec<Property> = Vec::new();
    props.push(reg_prop);
    let memory = Node { name: String::from_str("memory"), properties: props, children: Vec::new() };
    let mut children: Vec<Node> = Vec::new();
    children.push(memory);
    let mut dt = DeviceTree::new();
    dt.root.children = children;
    proof {
        reveal_strlit("memory");
        reveal_strlit("reg");
        let m = dt.root.children@[0];
        assert(m.name@ =~= memory_name());
        assert(m.properties@[0].name@ =~= reg_name());
        assert(prop_items(m.properties@) =~= seq![ItemView::Prop(reg_name(), pairs_bytes(p))]);
        assert(children_items(m, 0) =~= Seq::empty());
        assert(children_items(dt.root, 1) =~= Seq::empty());
        assert(children_items(dt.root, 0) =~= items_of(m));
        assert(prop_items(dt.root.properties@) =~= Seq::empty());
        assert(items_of(dt.root) =~= memory_items(p));
    }
    let blob = dt.to_blob()?;
    proof {
        let items = memory_items(p);
        let s0 = items.subrange(0, 0);
        let s1 = items.subrange(0, 1);
        let s2 = items.subrange(0, 2);
        let s3 = items.subrange(0, 3);
        let s4 = items.subrange(0, 4);
        assert(s1.drop_last() =~= s0);
        assert(s2.drop_last() =~= s1);
        assert(s3.drop_last() =~= s2);
        assert(s4.drop_last() =~= s3);
        assert(items.drop_last() =~= s4);
        assert(names_of(s0).len() == 0);
        assert(names_of(s1).len() == 0);
        assert(names_of(s2).len() == 0);
        assert(names_of(s3).len() == 1);
        assert(names_of(s4).len() == 1);
        assert(names_of(items).len() == 1);
        lemma_round_trip(items, Seq::empty());
    }
    let checked = DeviceTreeBlob::from_slice(blob.as_slice());
    match checked {
        Ok(b) => {
            if b.compatibility_check().is_err() {
                return Err(DtbError::NotCompatible);
            }
        },
        Err(_) => {
            return Err(DtbError::NotCompatible);
        },
    }
    Ok(blob)
}

} // verus!
