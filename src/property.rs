use vstd::prelude::*;

verus! {

/// Big-endian bytes of a 32-bit word.
pub open spec fn be32(x: u32) -> Seq<u8> {
    seq![(x >> 24u32) as u8, (x >> 16u32) as u8, (x >> 8u32) as u8, x as u8]
}

/// Big-endian bytes of a 64-bit word.
pub open spec fn be64(x: u64) -> Seq<u8> {
    seq![
        (x >> 56u64) as u8, (x >> 48u64) as u8, (x >> 40u64) as u8, (x >> 32u64) as u8,
        (x >> 24u64) as u8, (x >> 16u64) as u8, (x >> 8u64) as u8, x as u8,
    ]
}

/// The 32-bit big-endian word stored at `i` in `b`.
pub open spec fn read_be32(b: Seq<u8>, i: int) -> u32 {
    ((b[i] as u32) << 24u32) | ((b[i + 1] as u32) << 16u32) | ((b[i + 2] as u32) << 8u32) | (
    b[i + 3] as u32)
}

pub proof fn lemma_be32_read(x: u32)
    ensures
        read_be32(be32(x), 0) == x,
{
    let b0 = (x >> 24u32) as u8;
    let b1 = (x >> 16u32) as u8;
    let b2 = (x >> 8u32) as u8;
    let b3 = x as u8;
    assert(((b0 as u32) << 24u32) | ((b1 as u32) << 16u32) | ((b2 as u32) << 8u32) | (b3 as u32)
        == x) by (bit_vector)
        requires
            b0 == (x >> 24u32) as u8,
            b1 == (x >> 16u32) as u8,
            b2 == (x >> 8u32) as u8,
            b3 == x as u8,
    ;
}

pub fn push_be32(out: &mut Vec<u8>, x: u32)
    ensures
        final(out)@ == old(out)@ + be32(x),
{
    out.push((x >> 24u32) as u8);
    out.push((x >> 16u32) as u8);
    out.push((x >> 8u32) as u8);
    out.push(x as u8);
    assert(final(out)@ =~= old(out)@ + be32(x));
}


/// The typed payload of a device-tree property.
pub enum DeviceTreeProperty {
    Empty,
    UnsignedInt32(u32),
    UnsignedInt64(u64),
    Text(String),
    Bytes(Vec<u8>),
    /// A `reg`-style list of (address, size) pairs, one cell each.
    MultipleUnsignedInt32_32(Vec<(u32, u32)>),
}

/// The bytes of a list of (address, size) pairs, each cell big-endian.
pub open spec fn pairs_bytes(p: Seq<(u32, u32)>) -> Seq<u8>
    decreases p.len(),
{
    if p.len() == 0 {
        Seq::empty()
    } else {
        pairs_bytes(p.drop_last()) + be32(p.last().0) + be32(p.last().1)
    }
}

pub proof fn lemma_pairs_bytes_len(p: Seq<(u32, u32)>)
    ensures
        pairs_bytes(p).len() == 8 * p.len(),
    decreases p.len(),
{
    if p.len() > 0 {
        lemma_pairs_bytes_len(p.drop_last());
    }
}

impl DeviceTreeProperty {
    /// The encoded value of the property, as it stands in the structure block.
    pub open spec fn encoded(&self) -> Seq<u8> {
        match self {
            DeviceTreeProperty::Empty => Seq::empty(),
            DeviceTreeProperty::UnsignedInt32(x) => be32(*x),
            DeviceTreeProperty::UnsignedInt64(x) => be64(*x),
            DeviceTreeProperty::Text(s) => vstd::utf8::encode_utf8(s@) + seq![0u8],
            DeviceTreeProperty::Bytes(b) => b@,
            DeviceTreeProperty::MultipleUnsignedInt32_32(p) => pairs_bytes(p@),
        }
    }

    /// Appends the encoded value to `out`.
    pub fn encode_into(&self, out: &mut Vec<u8>)
        ensures
            final(out)@ == old(out)@ + self.encoded(),
    {
        match self {
            DeviceTreeProperty::Empty => {
                assert(final(out)@ =~= old(out)@ + self.encoded());
            },
            DeviceTreeProperty::UnsignedInt32(x) => push_be32(out, *x),
            DeviceTreeProperty::UnsignedInt64(x) => push_be64(out, *x),
            DeviceTreeProperty::Text(s) => {
                let b = s.as_str().as_bytes();
                append_bytes(out, b);
                out.push(0u8);
                assert(final(out)@ =~= old(out)@ + self.encoded());
            },
            DeviceTreeProperty::Bytes(b) => append_bytes(out, b.as_slice()),
            DeviceTreeProperty::MultipleUnsignedInt32_32(p) => {
                let mut i: usize = 0;
                while i < p.len()
                    invariant
                        i <= p@.len(),
                        out@ == old(out)@ + pairs_bytes(p@.subrange(0, i as int)),
                    decreases p@.len() - i,
                {
                    assert(p@.subrange(0, i + 1).drop_last() =~= p@.subrange(0, i as int));
                    push_be32(out, p[i].0);
                    push_be32(out, p[i].1);
                    i = i + 1;
                    assert(out@ =~= old(out)@ + pairs_bytes(p@.subrange(0, i as int)));
                }
                assert(p@.subrange(0, i as int) =~= p@);
            },
        }
    }
}

pub fn push_be64(out: &mut Vec<u8>, x: u64)
    ensures
        final(out)@ == old(out)@ + be64(x),
{
    push_be32(out, (x >> 32u64) as u32);
    push_be32(out, x as u32);
    assert(be32((x >> 32u64) as u32) + be32(x as u32) =~= be64(x)) by {
        assert(((x >> 32u64) as u32 >> 24u32) as u8 == (x >> 56u64) as u8) by (bit_vector);
        assert(((x >> 32u64) as u32 >> 16u32) as u8 == (x >> 48u64) as u8) by (bit_vector);
        assert(((x >> 32u64) as u32 >> 8u32) as u8 == (x >> 40u64) as u8) by (bit_vector);
        assert(((x >> 32u64) as u32) as u8 == (x >> 32u64) as u8) by (bit_vector);
        assert((x as u32 >> 24u32) as u8 == (x >> 24u64) as u8) by (bit_vector);
        assert((x as u32 >> 16u32) as u8 == (x >> 16u64) as u8) by (bit_vector);
        assert((x as u32 >> 8u32) as u8 == (x >> 8u64) as u8) by (bit_vector);
        assert((x as u32) as u8 == x as u8) by (bit_vector);
    }
    assert(final(out)@ =~= old(out)@ + be64(x));
}

/// Appends every byte of `b` to `out`.
pub fn append_bytes(out: &mut Vec<u8>, b: &[u8])
    ensures
        final(out)@ == old(out)@ + b@,
{
    let mut i: usize = 0;
    while i < b.len()
        invariant
            i <= b@.len(),
            out@ == old(out)@ + b@.subrange(0, i as int),
        decreases b@.len() - i,
    {
        out.push(b[i]);
        i = i + 1;
        assert(out@ =~= old(out)@ + b@.subrange(0, i as int));
    }
    assert(b@.subrange(0, i as int) =~= b@);
}

} // verus!
