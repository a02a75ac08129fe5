use vstd::prelude::*;

use crate::encode::{DtbError, FDT_LAST_COMP_VERSION, FDT_MAGIC, FDT_VERSION, HEADER_SIZE};
use crate::property::read_be32;

verus! {

/// The header of `b` describes a blob of this revision laid out within `b`: the magic
/// number, a compatible revision, the exact length, the three blocks after the header in
/// increasing, aligned order, and sizes that stay inside the blob.
pub open spec fn compatible(b: Seq<u8>) -> bool {
    let magic = read_be32(b, 0);
    let total = read_be32(b, 4);
    let off_struct = read_be32(b, 8);
    let off_strings = read_be32(b, 12);
    let off_rsv = read_be32(b, 16);
    let version = read_be32(b, 20);
    let last_comp = read_be32(b, 24);
    let size_strings = read_be32(b, 32);
    let size_struct = read_be32(b, 36);
    &&& b.len() >= HEADER_SIZE
    &&& magic == FDT_MAGIC
    &&& last_comp <= FDT_VERSION
    &&& version >= last_comp
    &&& total == b.len()
    &&& HEADER_SIZE <= off_rsv
    &&& off_rsv < off_struct
    &&& off_struct < off_strings
    &&& off_strings < total
    &&& off_rsv % 4 == 0
    &&& off_struct % 4 == 0
    &&& off_strings % 4 == 0
    &&& off_strings + size_strings <= total
    &&& off_struct + size_struct <= off_strings
}

/// A byte buffer with the header fields read from it.
pub struct DeviceTreeBlob {
    data: Vec<u8>,
    magic: u32,
    totalsize: u32,
    off_dt_struct: u32,
    off_dt_strings: u32,
    off_mem_rsvmap: u32,
    version: u32,
    last_comp_version: u32,
    boot_cpuid_phys: u32,
    size_dt_strings: u32,
    size_dt_struct: u32,
}

fn get_be32(b: &[u8], i: usize) -> (r: u32)
    requires
        i + 4 <= b@.len(),
    ensures
        r == read_be32(b@, i as int),
{
    ((b[i] as u32) << 24u32) | ((b[i + 1] as u32) << 16u32) | ((b[i + 2] as u32) << 8u32) | (b[i
        + 3] as u32)
}

impl DeviceTreeBlob {
    /// The bytes of the blob.
    pub closed spec fn view(&self) -> Seq<u8> {
        self.data@
    }

    /// The header fields are those stored at the start of the bytes.
    pub closed spec fn wf(&self) -> bool {
        &&& self.data@.len() >= HEADER_SIZE
        &&& self.magic == read_be32(self.data@, 0)
        &&& self.totalsize == read_be32(self.data@, 4)
        &&& self.off_dt_struct == read_be32(self.data@, 8)
        &&& self.off_dt_strings == read_be32(self.data@, 12)
        &&& self.off_mem_rsvmap == read_be32(self.data@, 16)
        &&& self.version == read_be32(self.data@, 20)
        &&& self.last_comp_version == read_be32(self.data@, 24)
        &&& self.boot_cpuid_phys == read_be32(self.data@, 28)
        &&& self.size_dt_strings == read_be32(self.data@, 32)
        &&& self.size_dt_struct == read_be32(self.data@, 36)
    }

    /// Copies `b` and reads its header. Fails where `b` is shorter than a header.
    pub fn from_slice(b: &[u8]) -> (r: Result<DeviceTreeBlob, DtbError>)
        ensures
            r is Ok <==> b@.len() >= HEADER_SIZE,
            r is Ok ==> r->Ok_0@ == b@ && r->Ok_0.wf(),
            r is Err ==> r->Err_0 == DtbError::TooShort,
    {
        if b.len() < HEADER_SIZE as usize {
            return Err(DtbError::TooShort);
        }
        let mut data: Vec<u8> = Vec::new();
        crate::property::append_bytes(&mut data, b);
        assert(data@ =~= b@);
        Ok(DeviceTreeBlob {
            magic: get_be32(b, 0),
            totalsize: get_be32(b, 4),
            off_dt_struct: get_be32(b, 8),
            off_dt_strings: get_be32(b, 12),
            off_mem_rsvmap: get_be32(b, 16),
            version: get_be32(b, 20),
            last_comp_version: get_be32(b, 24),
            boot_cpuid_phys: get_be32(b, 28),
            size_dt_strings: get_be32(b, 32),
            size_dt_struct: get_be32(b, 36),
            data,
        })
    }

    /// Checks the header against the bytes. Looks no further than the header.
    pub fn compatibility_check(&self) -> (r: Result<(), DtbError>)
        requires
            self.wf(),
        ensures
            r is Ok <==> compatible(self@),
            r is Err ==> r->Err_0 == DtbError::NotCompatible,
    {
        let total = self.totalsize as u64;
        let ok = self.magic == FDT_MAGIC && self.last_comp_version <= FDT_VERSION
            && self.version >= self.last_comp_version && total == self.data.len() as u64
            && HEADER_SIZE <= self.off_mem_rsvmap && self.off_mem_rsvmap < self.off_dt_struct
            && self.off_dt_struct < self.off_dt_strings && (self.off_dt_strings as u64) < total
            && self.off_mem_rsvmap % 4 == 0 && self.off_dt_struct % 4 == 0 && self.off_dt_strings
            % 4 == 0 && self.off_dt_strings as u64 + self.size_dt_strings as u64 <= total
            && self.off_dt_struct as u64 + self.size_dt_struct as u64 <= self.off_dt_strings as u64;
        if ok {
            Ok(())
        } else {
            Err(DtbError::NotCompatible)
        }
    }

    pub fn as_slice(&self) -> (r: &[u8])
        ensures
            r@ == self@,
    {
        self.data.as_slice()
    }

    pub fn magic(&self) -> (r: u32)
        requires
            self.wf(),
        ensures
            r == read_be32(self@, 0),
    {
        self.magic
    }

    pub fn totalsize(&self) -> (r: u32)
        requires
            self.wf(),
        ensures
            r == read_be32(self@, 4),
    {
        self.totalsize
    }

    pub fn version(&self) -> (r: u32)
        requires
            self.wf(),
        ensures
            r == read_be32(self@, 20),
    {
        self.version
    }

    pub fn boot_cpuid_phys(&self) -> (r: u32)
        requires
            self.wf(),
        ensures
            r == read_be32(self@, 28),
    {
        self.boot_cpuid_phys
    }
}

} // verus!
