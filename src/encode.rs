use vstd::prelude::*;

use crate::property::{append_bytes, be32, be64, push_be32, push_be64};
use crate::tree::{items_of, items_view, DeviceTree, ItemView, StructItem};

verus! {

pub const FDT_MAGIC: u32 = 0xd00dfeed;
/// The revision of the format this library writes.
pub const FDT_VERSION: u32 = 17;
/// The oldest revision that can read what this library writes.
pub const FDT_LAST_COMP_VERSION: u32 = 16;
pub const FDT_BEGIN_NODE: u32 = 1;
pub const FDT_END_NODE: u32 = 2;
pub const FDT_PROP: u32 = 3;
pub const FDT_NOP: u32 = 4;
pub const FDT_END: u32 = 9;
/// Bytes in the header: ten 32-bit words.
pub const HEADER_SIZE: u32 = 40;

/// `b` followed by zero bytes up to the next multiple of four.
pub open spec fn pad4(b: Seq<u8>) -> Seq<u8> {
    b + Seq::new(((4 - b.len() % 4) % 4) as nat, |i: int| 0u8)
}

/// Position of the first `b` in `t`, or `t.len()` when there is none.
pub open spec fn index_of(t: Seq<Seq<u8>>, b: Seq<u8>) -> int
    decreases t.len(),
{
    if t.len() == 0 {
        0
    } else if t[0] == b {
        0
    } else {
        1 + index_of(t.drop_first(), b)
    }
}

pub proof fn lemma_index_of(t: Seq<Seq<u8>>, b: Seq<u8>)
    ensures
        0 <= index_of(t, b) <= t.len(),
        forall|j: int| 0 <= j < index_of(t, b) ==> t[j] != b,
        index_of(t, b) < t.len() ==> t[index_of(t, b)] == b,
    decreases t.len(),
{
    if t.len() > 0 && t[0] != b {
        lemma_index_of(t.drop_first(), b);
        assert forall|j: int| 0 <= j < index_of(t, b) implies t[j] != b by {
            if j > 0 {
                assert(t[j] == t.drop_first()[j - 1]);
            }
        }
    }
}

/// The strings block before padding: each name followed by a NUL byte.
pub open spec fn table_bytes(t: Seq<Seq<u8>>) -> Seq<u8>
    decreases t.len(),
{
    if t.len() == 0 {
        Seq::empty()
    } else {
        table_bytes(t.drop_last()) + t.last() + seq![0u8]
    }
}

/// The property names of `items` as UTF-8, each once, in order of first use.
pub open spec fn names_of(items: Seq<ItemView>) -> Seq<Seq<u8>>
    decreases items.len(),
{
    if items.len() == 0 {
        Seq::empty()
    } else {
        let t = names_of(items.drop_last());
        match items.last() {
            ItemView::Prop(n, _) => {
                let b = vstd::utf8::encode_utf8(n);
                if index_of(t, b) < t.len() {
                    t
                } else {
                    t.push(b)
                }
            },
            _ => t,
        }
    }
}

/// Offset in the strings block of name `b`.
pub open spec fn name_off(t: Seq<Seq<u8>>, b: Seq<u8>) -> int {
    table_bytes(t.subrange(0, index_of(t, b))).len() as int
}

/// The bytes of one item, with property names looked up in `t`.
pub open spec fn item_bytes(it: ItemView, t: Seq<Seq<u8>>) -> Seq<u8> {
    match it {
        ItemView::Begin(n) => be32(FDT_BEGIN_NODE) + pad4(vstd::utf8::encode_utf8(n) + seq![0u8]),
        ItemView::End => be32(FDT_END_NODE),
        ItemView::Prop(n, v) => be32(FDT_PROP) + be32(v.len() as u32) + be32(
            name_off(t, vstd::utf8::encode_utf8(n)) as u32,
        ) + pad4(v),
    }
}

/// The structure block before its end token: each item in turn, its name looked up in the
/// table as it stands once the item is reached.
pub open spec fn items_bytes(items: Seq<ItemView>) -> Seq<u8>
    decreases items.len(),
{
    if items.len() == 0 {
        Seq::empty()
    } else {
        items_bytes(items.drop_last()) + item_bytes(items.last(), names_of(items))
    }
}

/// The structure block.
pub open spec fn struct_block(items: Seq<ItemView>) -> Seq<u8> {
    items_bytes(items) + be32(FDT_END)
}

/// The strings block.
pub open spec fn strings_block(items: Seq<ItemView>) -> Seq<u8> {
    pad4(table_bytes(names_of(items)))
}

/// The reservation entries, without the terminator.
pub open spec fn rsv_bytes(r: Seq<(u64, u64)>) -> Seq<u8>
    decreases r.len(),
{
    if r.len() == 0 {
        Seq::empty()
    } else {
        rsv_bytes(r.drop_last()) + be64(r.last().0) + be64(r.last().1)
    }
}

/// The memory-reservation block: the entries, then a (0, 0) terminator.
pub open spec fn rsv_block(r: Seq<(u64, u64)>) -> Seq<u8> {
    rsv_bytes(r) + be64(0) + be64(0)
}

pub open spec fn off_struct(items: Seq<ItemView>, r: Seq<(u64, u64)>) -> int {
    HEADER_SIZE + rsv_block(r).len()
}

pub open spec fn off_strings(items: Seq<ItemView>, r: Seq<(u64, u64)>) -> int {
    off_struct(items, r) + struct_block(items).len()
}

pub open spec fn total_size(items: Seq<ItemView>, r: Seq<(u64, u64)>) -> int {
    off_strings(items, r) + strings_block(items).len()
}

/// The big-endian words of `s`, one after the other.
pub open spec fn words(s: Seq<u32>) -> Seq<u8>
    decreases s.len(),
{
    if s.len() == 0 {
        Seq::empty()
    } else {
        words(s.drop_last()) + be32(s.last())
    }
}

/// The header fields, in the order they are stored.
pub open spec fn header_fields(items: Seq<ItemView>, r: Seq<(u64, u64)>) -> Seq<u32> {
    seq![
        FDT_MAGIC,
        total_size(items, r) as u32,
        off_struct(items, r) as u32,
        off_strings(items, r) as u32,
        HEADER_SIZE,
        FDT_VERSION,
        FDT_LAST_COMP_VERSION,
        0u32,
        strings_block(items).len() as u32,
        struct_block(items).len() as u32,
    ]
}

/// The blob for a walk `items` and reservations `r`: header, reservation block, structure
/// block, strings block.
pub open spec fn blob_of(items: Seq<ItemView>, r: Seq<(u64, u64)>) -> Seq<u8> {
    words(header_fields(items, r)) + rsv_block(r) + struct_block(items) + strings_block(items)
}

pub open spec fn table_view(t: Seq<Vec<u8>>) -> Seq<Seq<u8>> {
    t.map_values(|v: Vec<u8>| v@)
}

fn bytes_eq(a: &[u8], b: &[u8]) -> (r: bool)
    ensures
        r == (a@ == b@),
{
    if a.len() != b.len() {
        return false;
    }
    let mut i: usize = 0;
    while i < a.len()
        invariant
            i <= a@.len(),
            a@.len() == b@.len(),
            forall|j: int| 0 <= j < i ==> a@[j] == b@[j],
        decreases a@.len() - i,
    {
        if a[i] != b[i] {
            return false;
        }
        i = i + 1;
    }
    assert(a@ =~= b@);
    true
}

fn lookup(t: &Vec<Vec<u8>>, b: &[u8]) -> (r: usize)
    ensures
        r == index_of(table_view(t@), b@),
{
    let ghost tv = table_view(t@);
    proof {
        lemma_index_of(tv, b@);
    }
    let mut i: usize = 0;
    while i < t.len()
        invariant
            tv == table_view(t@),
            i <= t@.len(),
            forall|j: int| 0 <= j < i ==> tv[j] != b@,
            index_of(tv, b@) >= i,
        decreases t@.len() - i,
    {
        proof {
            lemma_index_of(tv, b@);
        }
        assert(tv[i as int] == t@[i as int]@);
        if bytes_eq(t[i].as_slice(), b) {
            return i;
        }
        i = i + 1;
    }
    proof {
        lemma_index_of(tv, b@);
    }
    i
}

/// Appends zero bytes until the bytes after `start` fill whole 32-bit words.
fn pad_from(out: &mut Vec<u8>, start: usize)
    requires
        start <= old(out)@.len(),
    ensures
        final(out)@ == old(out)@ + Seq::new(
            ((4 - (old(out)@.len() - start) % 4) % 4) as nat,
            |i: int| 0u8,
        ),
{
    let ghost n = ((4 - (out@.len() - start) % 4) % 4) as nat;
    let mut k: usize = 0;
    while (out.len() - start) % 4 != 0
        invariant
            start <= out@.len(),
            k <= n,
            out@.len() == old(out)@.len() + k,
            n == ((4 - (old(out)@.len() - start) % 4) % 4) as nat,
            (out@.len() - start) % 4 == 0 ==> k == n,
            out@ == old(out)@ + Seq::new(k as nat, |i: int| 0u8),
        decreases n - k,
    {
        out.push(0u8);
        k = k + 1;
        assert(out@ =~= old(out)@ + Seq::new(k as nat, |i: int| 0u8));
    }
}

/// Appends `b`, then padding to a whole number of words counted from `start`.
fn append_padded(out: &mut Vec<u8>, b: &[u8], nul: bool)
    requires
        old(out)@.len() % 4 == 0,
    ensures
        final(out)@ == old(out)@ + pad4(if nul { b@ + seq![0u8] } else { b@ }),
{
    let start = out.len();
    append_bytes(out, b);
    if nul {
        out.push(0u8);
    }
    let ghost s = if nul { b@ + seq![0u8] } else { b@ };
    assert(out@ =~= old(out)@ + s);
    pad_from(out, start);
    assert(final(out)@ =~= old(out)@ + pad4(s));
}

pub proof fn lemma_pad4_len(b: Seq<u8>)
    ensures
        pad4(b).len() % 4 == 0,
        b.len() <= pad4(b).len() < b.len() + 4,
        pad4(b).subrange(0, b.len() as int) == b,
{
    assert(pad4(b).subrange(0, b.len() as int) =~= b);
}

/// The bytes of each item in turn, and the strings block before padding.
fn encode_items(items: &Vec<StructItem>) -> (r: (Vec<u8>, Vec<u8>))
    ensures
        r.0@ == items_bytes(items_view(items@)),
        r.1@ == table_bytes(names_of(items_view(items@))),
{
    let ghost iv = items_view(items@);
    let mut st: Vec<u8> = Vec::new();
    let mut strings: Vec<u8> = Vec::new();
    let mut table: Vec<Vec<u8>> = Vec::new();
    let mut offs: Vec<usize> = Vec::new();
    let mut i: usize = 0;
    assert(iv.subrange(0, 0) =~= Seq::<ItemView>::empty());
    assert(table_view(table@) =~= Seq::<Seq<u8>>::empty());
    while i < items.len()
        invariant
            iv == items_view(items@),
            i <= items@.len(),
            st@ == items_bytes(iv.subrange(0, i as int)),
            st@.len() % 4 == 0,
            table_view(table@) == names_of(iv.subrange(0, i as int)),
            strings@ == table_bytes(table_view(table@)),
            offs@.len() == table@.len(),
            forall|k: int|
                0 <= k < offs@.len() ==> offs@[k] == table_bytes(
                    table_view(table@).subrange(0, k),
                ).len(),
        decreases items@.len() - i,
    {
        let ghost pre = iv.subrange(0, i as int);
        let ghost next = iv.subrange(0, i + 1);
        let ghost st0 = st@;
        assert(next.drop_last() =~= pre);
        assert(next.last() == items@[i as int].view());
        match &items[i] {
            StructItem::BeginNode { name } => {
                push_be32(&mut st, FDT_BEGIN_NODE);
                append_padded(&mut st, name.as_str().as_bytes(), true);
            },
            StructItem::EndNode => {
                push_be32(&mut st, FDT_END_NODE);
            },
            StructItem::Property { name, value } => {
                let b = name.as_str().as_bytes();
                let ghost tv0 = table_view(table@);
                let k = lookup(&table, b);
                proof {
                    lemma_index_of(tv0, b@);
                }
                let off = if k < table.len() {
                    assert(tv0.subrange(0, k as int) == table_view(table@).subrange(0, k as int));
                    offs[k]
                } else {
                    let o = strings.len();
                    let mut nb: Vec<u8> = Vec::new();
                    append_bytes(&mut nb, b);
                    append_bytes(&mut strings, b);
                    strings.push(0u8);
                    table.push(nb);
                    offs.push(o);
                    proof {
                        let tv1 = table_view(table@);
                        assert(tv1 =~= tv0.push(b@));
                        assert(tv1.drop_last() =~= tv0);
                        assert(strings@ =~= table_bytes(tv1));
                        lemma_index_of(tv1, b@);
                        assert(index_of(tv1, b@) == k);
                        assert(tv1.subrange(0, k as int) =~= tv0);
                        assert forall|j: int| 0 <= j < offs@.len() implies offs@[j] == table_bytes(
                            tv1.subrange(0, j),
                        ).len() by {
                            if j < k {
                                assert(tv1.subrange(0, j) =~= tv0.subrange(0, j));
                            }
                        }
                    }
                    o
                };
                proof {
                    assert(table_view(table@) == names_of(next));
                    assert(off == name_off(names_of(next), b@));
                }
                push_be32(&mut st, FDT_PROP);
                push_be32(&mut st, value.len() as u32);
                push_be32(&mut st, off as u32);
                append_padded(&mut st, value.as_slice(), false);
            },
        }
        proof {
            lemma_pad4_len(Seq::empty());
        }
        assert(st@ =~= st0 + item_bytes(next.last(), names_of(next)));
        i = i + 1;
    }
    assert(iv.subrange(0, i as int) =~= iv);
    (st, strings)
}

fn push_words(out: &mut Vec<u8>, w: &Vec<u32>)
    ensures
        final(out)@ == old(out)@ + words(w@),
{
    let mut i: usize = 0;
    while i < w.len()
        invariant
            i <= w@.len(),
            out@ == old(out)@ + words(w@.subrange(0, i as int)),
        decreases w@.len() - i,
    {
        assert(w@.subrange(0, i + 1).drop_last() =~= w@.subrange(0, i as int));
        push_be32(out, w[i]);
        i = i + 1;
        assert(out@ =~= old(out)@ + words(w@.subrange(0, i as int)));
    }
    assert(w@.subrange(0, i as int) =~= w@);
}

fn rsv_into(out: &mut Vec<u8>, r: &Vec<(u64, u64)>)
    ensures
        final(out)@ == old(out)@ + rsv_block(r@),
{
    let mut i: usize = 0;
    while i < r.len()
        invariant
            i <= r@.len(),
            out@ == old(out)@ + rsv_bytes(r@.subrange(0, i as int)),
        decreases r@.len() - i,
    {
        assert(r@.subrange(0, i + 1).drop_last() =~= r@.subrange(0, i as int));
        push_be64(out, r[i].0);
        push_be64(out, r[i].1);
        i = i + 1;
        assert(out@ =~= old(out)@ + rsv_bytes(r@.subrange(0, i as int)));
    }
    assert(r@.subrange(0, i as int) =~= r@);
    push_be64(out, 0);
    push_be64(out, 0);
    assert(final(out)@ =~= old(out)@ + rsv_block(r@));
}

/// Encodes the walk `items` and the reservations `reserved` as a blob. Fails only where the
/// blob would be longer than its 32-bit size field can say.
pub fn encode(items: &Vec<StructItem>, reserved: &Vec<(u64, u64)>) -> (r: Result<Vec<u8>, DtbError>)
    ensures
        r is Ok <==> total_size(items_view(items@), reserved@) <= u32::MAX,
        r is Ok ==> r->Ok_0@ == blob_of(items_view(items@), reserved@),
        r is Err ==> r->Err_0 == DtbError::TooLarge,
{
    let ghost iv = items_view(items@);
    let mut rsv: Vec<u8> = Vec::new();
    rsv_into(&mut rsv, reserved);
    assert(rsv@ =~= rsv_block(reserved@));
    let (mut st, mut strings) = encode_items(items);
    push_be32(&mut st, FDT_END);
    proof {
        lemma_pad4_len(strings@);
    }
    pad_from(&mut strings, 0);
    assert(strings@ =~= strings_block(iv));
    if rsv.len() > 0xffff_ffffusize || st.len() > 0xffff_ffffusize || strings.len() > 0xffff_ffffusize {
        return Err(DtbError::TooLarge);
    }
    let total: u64 = HEADER_SIZE as u64 + rsv.len() as u64 + st.len() as u64 + strings.len() as u64;
    if total > 0xffff_ffffu64 {
        return Err(DtbError::TooLarge);
    }
    let off_st = HEADER_SIZE as u64 + rsv.len() as u64;
    let off_str = off_st + st.len() as u64;
    let header: Vec<u32> = vec![
        FDT_MAGIC,
        total as u32,
        off_st as u32,
        off_str as u32,
        HEADER_SIZE,
        FDT_VERSION,
        FDT_LAST_COMP_VERSION,
        0u32,
        strings.len() as u32,
        st.len() as u32,
    ];
    assert(header@ =~= header_fields(iv, reserved@));
    let mut out: Vec<u8> = Vec::new();
    push_words(&mut out, &header);
    append_bytes(&mut out, rsv.as_slice());
    append_bytes(&mut out, st.as_slice());
    append_bytes(&mut out, strings.as_slice());
    assert(out@ =~= blob_of(iv, reserved@));
    Ok(out)
}

/// Errors of the encoder and of the validator.
#[derive(PartialEq, Eq, Structural, Debug, Clone, Copy)]
pub enum DtbError {
    /// A block of the blob would not fit the header's 32-bit fields.
    TooLarge,
    /// The buffer is shorter than a header.
    TooShort,
    /// The header does not describe a blob this library can read.
    NotCompatible,
    /// A memory region does not fit a 32-bit address or size cell.
    RegionTooWide,
}

impl DtbError {
    pub fn message(&self) -> (r: &'static str) {
        match self {
            DtbError::TooLarge => "device tree too large",
            DtbError::TooShort => "device tree too short",
            DtbError::NotCompatible => "not compatible",
            DtbError::RegionTooWide => "memory region above 4 GiB",
        }
    }
}

} // verus!
