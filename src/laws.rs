use vstd::prelude::*;

use crate::blob::compatible;
use crate::encode::{
    blob_of, header_fields, item_bytes, items_bytes, lemma_pad4_len, names_of, off_strings,
    off_struct, pad4, rsv_block, rsv_bytes, strings_block, struct_block, table_bytes, total_size,
    words, FDT_BEGIN_NODE, FDT_END, FDT_END_NODE, FDT_MAGIC, HEADER_SIZE,
};
use crate::property::{be32, be64, lemma_be32_read, read_be32};
use crate::tree::{children_items, items_of, prop_items, DeviceTree, ItemView};

verus! {

pub proof fn lemma_words_len(s: Seq<u32>)
    ensures
        words(s).len() == 4 * s.len(),
    decreases s.len(),
{
    if s.len() > 0 {
        lemma_words_len(s.drop_last());
    }
}

pub proof fn lemma_words_read(s: Seq<u32>, k: int)
    requires
        0 <= k < s.len(),
    ensures
        read_be32(words(s), 4 * k) == s[k],
    decreases s.len(),
{
    let w = words(s);
    let d = words(s.drop_last());
    lemma_words_len(s.drop_last());
    if k == s.len() - 1 {
        lemma_be32_read(s.last());
        let e = be32(s.last());
        assert(w == d + e);
        assert(w[4 * k] == e[0]);
        assert(w[4 * k + 1] == e[1]);
        assert(w[4 * k + 2] == e[2]);
        assert(w[4 * k + 3] == e[3]);
    } else {
        lemma_words_read(s.drop_last(), k);
        assert(w[4 * k] == d[4 * k]);
        assert(w[4 * k + 1] == d[4 * k + 1]);
        assert(w[4 * k + 2] == d[4 * k + 2]);
        assert(w[4 * k + 3] == d[4 * k + 3]);
    }
}

pub proof fn lemma_rsv_len(r: Seq<(u64, u64)>)
    ensures
        rsv_bytes(r).len() == 16 * r.len(),
    decreases r.len(),
{
    if r.len() > 0 {
        lemma_rsv_len(r.drop_last());
    }
}

/// Every item takes a whole number of 32-bit words.
pub proof fn lemma_items_aligned(items: Seq<ItemView>)
    ensures
        items_bytes(items).len() % 4 == 0,
    decreases items.len(),
{
    if items.len() > 0 {
        lemma_items_aligned(items.drop_last());
        match items.last() {
            ItemView::Begin(n) => lemma_pad4_len(vstd::utf8::encode_utf8(n) + seq![0u8]),
            ItemView::End => {},
            ItemView::Prop(_, v) => lemma_pad4_len(v),
        }
    }
}

/// The structure block of every encoded walk is a whole number of 32-bit words.
pub proof fn lemma_struct_block_aligned(items: Seq<ItemView>)
    ensures
        struct_block(items).len() % 4 == 0,
        struct_block(items).len() >= 4,
{
    lemma_items_aligned(items);
}

/// Where each block stands in an encoded blob.
pub proof fn lemma_blob_layout(items: Seq<ItemView>, r: Seq<(u64, u64)>)
    ensures
        blob_of(items, r).len() == total_size(items, r),
        off_struct(items, r) == HEADER_SIZE + 16 * r.len() + 16,
        blob_of(items, r).subrange(HEADER_SIZE as int, off_struct(items, r)) == rsv_block(r),
        blob_of(items, r).subrange(off_struct(items, r), off_strings(items, r)) == struct_block(
            items,
        ),
        blob_of(items, r).subrange(off_strings(items, r), total_size(items, r)) == strings_block(
            items,
        ),
{
    let h = words(header_fields(items, r));
    lemma_words_len(header_fields(items, r));
    lemma_rsv_len(r);
    let b = blob_of(items, r);
    assert(b.subrange(HEADER_SIZE as int, off_struct(items, r)) =~= rsv_block(r));
    assert(b.subrange(off_struct(items, r), off_strings(items, r)) =~= struct_block(items));
    assert(b.subrange(off_strings(items, r), total_size(items, r)) =~= strings_block(items));
}

/// The reservation block of an encoded blob ends with an all-zero (0, 0) entry, also when
/// nothing is reserved.
pub proof fn lemma_sentinel(items: Seq<ItemView>, r: Seq<(u64, u64)>)
    ensures
        rsv_block(r).len() == 16 * r.len() + 16,
        blob_of(items, r).subrange(off_struct(items, r) - 16, off_struct(items, r)) == Seq::new(
            16,
            |i: int| 0u8,
        ),
{
    lemma_blob_layout(items, r);
    lemma_rsv_len(r);
    assert((0u64 >> 56u64) as u8 == 0 && (0u64 >> 48u64) as u8 == 0 && (0u64 >> 40u64) as u8 == 0
        && (0u64 >> 32u64) as u8 == 0 && (0u64 >> 24u64) as u8 == 0 && (0u64 >> 16u64) as u8 == 0
        && (0u64 >> 8u64) as u8 == 0 && 0u64 as u8 == 0) by (bit_vector);
    let b = blob_of(items, r);
    let o = off_struct(items, r);
    assert(b.subrange(o - 16, o) =~= rsv_block(r).subrange(16 * r.len() as int, 16 * r.len() + 16int));
    assert(b.subrange(o - 16, o) =~= Seq::new(16, |i: int| 0u8));
}

/// The structure block of an encoded blob is a whole number of 32-bit words.
pub proof fn lemma_alignment(items: Seq<ItemView>, r: Seq<(u64, u64)>)
    ensures
        (off_strings(items, r) - off_struct(items, r)) % 4 == 0,
        off_struct(items, r) % 4 == 0,
        off_strings(items, r) % 4 == 0,
{
    lemma_struct_block_aligned(items);
    lemma_rsv_len(r);
}

/// An encoded blob that names at least one property passes the header check, and its header
/// gives its exact length.
pub proof fn lemma_round_trip(items: Seq<ItemView>, r: Seq<(u64, u64)>)
    requires
        total_size(items, r) <= u32::MAX,
        names_of(items).len() > 0,
    ensures
        compatible(blob_of(items, r)),
        read_be32(blob_of(items, r), 4) == blob_of(items, r).len(),
{
    let hf = header_fields(items, r);
    let h = words(hf);
    let b = blob_of(items, r);
    lemma_words_len(hf);
    lemma_blob_layout(items, r);
    lemma_alignment(items, r);
    lemma_struct_block_aligned(items);
    let t = names_of(items);
    assert(table_bytes(t).len() > 0);
    lemma_pad4_len(table_bytes(t));
    assert forall|k: int| 0 <= k < 10 implies read_be32(b, 4 * k) == hf[k] by {
        lemma_words_read(hf, k);
        assert(b[4 * k] == h[4 * k]);
        assert(b[4 * k + 1] == h[4 * k + 1]);
        assert(b[4 * k + 2] == h[4 * k + 2]);
        assert(b[4 * k + 3] == h[4 * k + 3]);
    }
    assert(read_be32(b, 0) == hf[0]);
    assert(read_be32(b, 4) == hf[1]);
    assert(read_be32(b, 8) == hf[2]);
    assert(read_be32(b, 12) == hf[3]);
    assert(read_be32(b, 16) == hf[4]);
    assert(read_be32(b, 20) == hf[5]);
    assert(read_be32(b, 24) == hf[6]);
    assert(read_be32(b, 32) == hf[8]);
    assert(read_be32(b, 36) == hf[9]);
}

/// A buffer that does not start with the magic number fails the header check.
pub proof fn lemma_foreign_rejected(b: Seq<u8>)
    requires
        b.len() >= 4,
        b.subrange(0, 4) != be32(FDT_MAGIC),
    ensures
        !compatible(b),
{
    if compatible(b) {
        let m = read_be32(b, 0);
        assert(m == FDT_MAGIC);
        let b0 = b[0];
        let b1 = b[1];
        let b2 = b[2];
        let b3 = b[3];
        assert(b0 == 0xd0 && b1 == 0x0d && b2 == 0xfe && b3 == 0xed) by (bit_vector)
            requires
                ((b0 as u32) << 24u32) | ((b1 as u32) << 16u32) | ((b2 as u32) << 8u32) | (b3 as u32)
                    == 0xd00dfeedu32,
        ;
        assert((0xd00dfeedu32 >> 24u32) as u8 == 0xd0 && (0xd00dfeedu32 >> 16u32) as u8 == 0x0d
            && (0xd00dfeedu32 >> 8u32) as u8 == 0xfe && 0xd00dfeedu32 as u8 == 0xed) by (bit_vector);
        assert(b.subrange(0, 4) =~= be32(FDT_MAGIC));
    }
}

/// The tree that [`DeviceTree::new`] makes encodes to a structure block of the root's
/// beginning, its end and the end token, an empty strings block, and the terminator alone in
/// the reservation block; its blob passes the size limit.
pub proof fn lemma_empty_tree(t: DeviceTree)
    requires
        t.root.name@.len() == 0,
        t.root.properties@.len() == 0,
        t.root.children@.len() == 0,
        t.reserved@.len() == 0,
    ensures
        items_of(t.root) == seq![ItemView::Begin(Seq::empty()), ItemView::End],
        struct_block(items_of(t.root)) == be32(FDT_BEGIN_NODE) + seq![0u8, 0u8, 0u8, 0u8] + be32(
            FDT_END_NODE,
        ) + be32(FDT_END),
        strings_block(items_of(t.root)).len() == 0,
        rsv_block(t.reserved@) == Seq::new(16, |i: int| 0u8),
        total_size(items_of(t.root), t.reserved@) == 72,
{
    let n = t.root;
    let items = items_of(n);
    assert(prop_items(n.properties@) =~= Seq::empty());
    assert(children_items(n, 0) =~= Seq::empty());
    assert(n.name@ =~= Seq::<char>::empty());
    assert(items =~= seq![ItemView::Begin(Seq::empty()), ItemView::End]);
    assert(vstd::utf8::encode_utf8(Seq::empty()) =~= Seq::<u8>::empty());
    assert(pad4(seq![0u8]) =~= seq![0u8, 0u8, 0u8, 0u8]);
    let one = items.drop_last();
    assert(one =~= seq![ItemView::Begin(Seq::empty())]);
    assert(one.drop_last() =~= Seq::<ItemView>::empty());
    assert(names_of(one.drop_last()) =~= Seq::<Seq<u8>>::empty());
    assert(items_bytes(one.drop_last()) =~= Seq::<u8>::empty());
    assert(names_of(one) =~= Seq::<Seq<u8>>::empty());
    assert(names_of(items) =~= Seq::<Seq<u8>>::empty());
    assert(items_bytes(one) =~= item_bytes(ItemView::Begin(Seq::empty()), names_of(one)));
    assert(struct_block(items) =~= be32(FDT_BEGIN_NODE) + seq![0u8, 0u8, 0u8, 0u8] + be32(
        FDT_END_NODE,
    ) + be32(FDT_END));
    assert(strings_block(items) =~= Seq::empty());
    lemma_sentinel(items, t.reserved@);
    lemma_blob_layout(items, t.reserved@);
    assert(rsv_block(t.reserved@) =~= Seq::new(16, |i: int| 0u8)) by {
        let b = blob_of(items, t.reserved@);
        assert(b.subrange(HEADER_SIZE as int, off_struct(items, t.reserved@)) == rsv_block(t.reserved@));
        assert(b.subrange(off_struct(items, t.reserved@) - 16, off_struct(items, t.reserved@)) =~= b.subrange(HEADER_SIZE as int, off_struct(items, t.reserved@)));
    }
}

} // verus!
