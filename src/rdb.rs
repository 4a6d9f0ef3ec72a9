use vstd::prelude::*;

use crate::bytes::{align4, le32, le64, pad4, push_all, push_u32_le, push_u64_le, push_zeros, zeros};

verus! {

/// The `version` field of every header and entry.
pub const RDB_VERSION: u32 = 0x3030_3030;

/// Size of the fixed part of an entry record, before its opaque tail and name.
pub const ENTRY_FIXED_SIZE: u32 = 0x30;

/// Size of the fixed part of a header, before its path.
pub const HEADER_FIXED_SIZE: usize = 24;

// ---------------------------------------------------------------------------
// Flags word
// ---------------------------------------------------------------------------

pub const EXTERNAL_BIT: u32 = 0x1_0000;
pub const INTERNAL_BIT: u32 = 0x2_0000;
pub const ZLIB_BIT: u32 = 0x10_0000;
pub const LZ4_BIT: u32 = 0x20_0000;

/// The 32-bit flags word of an entry. Bits 0..15 `unk`, 16 `external`,
/// 17 `internal`, 18..19 `unk2`, 20 `zlib_compressed`, 21 `lz4_compressed`,
/// 22..31 `unk3`.
#[derive(Debug, Clone, Copy, PartialEq, Eq, Structural)]
pub struct RdbFlags {
    pub bits: u32,
}

pub open spec fn flag_unk(x: u32) -> u32 {
    x & 0xffff
}

pub open spec fn flag_external(x: u32) -> bool {
    x & EXTERNAL_BIT != 0
}

pub open spec fn flag_internal(x: u32) -> bool {
    x & INTERNAL_BIT != 0
}

pub open spec fn flag_unk2(x: u32) -> u32 {
    (x >> 18) & 3
}

pub open spec fn flag_zlib(x: u32) -> bool {
    x & ZLIB_BIT != 0
}

pub open spec fn flag_lz4(x: u32) -> bool {
    x & LZ4_BIT != 0
}

pub open spec fn flag_unk3(x: u32) -> u32 {
    x >> 22
}

/// The flags word built from its seven fields.
pub open spec fn compose_flags(
    unk: u32,
    external: bool,
    internal: bool,
    unk2: u32,
    zlib: bool,
    lz4: bool,
    unk3: u32,
) -> u32 {
    (unk & 0xffff) | (if external {
        EXTERNAL_BIT
    } else {
        0
    }) | (if internal {
        INTERNAL_BIT
    } else {
        0
    }) | ((unk2 & 3) << 18) | (if zlib {
        ZLIB_BIT
    } else {
        0
    }) | (if lz4 {
        LZ4_BIT
    } else {
        0
    }) | ((unk3 & 0x3ff) << 22)
}

/// `x` with the bit `mask` set or cleared.
pub open spec fn with_flag(x: u32, mask: u32, on: bool) -> u32 {
    if on {
        x | mask
    } else {
        x & !mask
    }
}

/// Any flags word splits into its seven fields and is rebuilt from them bit for bit.
pub proof fn lemma_flags_fields_round_trip(x: u32)
    by (bit_vector)
    ensures
        compose_flags(
            flag_unk(x),
            flag_external(x),
            flag_internal(x),
            flag_unk2(x),
            flag_zlib(x),
            flag_lz4(x),
            flag_unk3(x),
        ) == x,
{
}

impl RdbFlags {
    /// All bits clear.
    pub fn new() -> (r: RdbFlags)
        ensures
            r.bits == 0,
    {
        RdbFlags { bits: 0 }
    }

    pub fn from_u32(bits: u32) -> (r: RdbFlags)
        ensures
            r.bits == bits,
    {
        RdbFlags { bits }
    }

    pub fn to_u32(&self) -> (r: u32)
        ensures
            r == self.bits,
    {
        self.bits
    }

    pub fn unk(&self) -> (r: u32)
        ensures
            r == flag_unk(self.bits),
    {
        self.bits & 0xffff
    }

    pub fn external(&self) -> (r: bool)
        ensures
            r == flag_external(self.bits),
    {
        self.bits & EXTERNAL_BIT != 0
    }

    pub fn internal(&self) -> (r: bool)
        ensures
            r == flag_internal(self.bits),
    {
        self.bits & INTERNAL_BIT != 0
    }

    pub fn unk2(&self) -> (r: u32)
        ensures
            r == flag_unk2(self.bits),
    {
        (self.bits >> 18) & 3
    }

    pub fn zlib_compressed(&self) -> (r: bool)
        ensures
            r == flag_zlib(self.bits),
    {
        self.bits & ZLIB_BIT != 0
    }

    pub fn lz4_compressed(&self) -> (r: bool)
        ensures
            r == flag_lz4(self.bits),
    {
        self.bits & LZ4_BIT != 0
    }

    pub fn unk3(&self) -> (r: u32)
        ensures
            r == flag_unk3(self.bits),
    {
        self.bits >> 22
    }

    fn set_bit(&mut self, mask: u32, on: bool)
        ensures
            final(self).bits == with_flag(old(self).bits, mask, on),
    {
        if on {
            self.bits = self.bits | mask;
        } else {
            self.bits = self.bits & !mask;
        }
    }

    pub fn set_external(&mut self, on: bool)
        ensures
            final(self).bits == with_flag(old(self).bits, EXTERNAL_BIT, on),
    {
        self.set_bit(EXTERNAL_BIT, on);
    }

    pub fn set_internal(&mut self, on: bool)
        ensures
            final(self).bits == with_flag(old(self).bits, INTERNAL_BIT, on),
    {
        self.set_bit(INTERNAL_BIT, on);
    }

    pub fn set_zlib_compressed(&mut self, on: bool)
        ensures
            final(self).bits == with_flag(old(self).bits, ZLIB_BIT, on),
    {
        self.set_bit(ZLIB_BIT, on);
    }

    pub fn set_lz4_compressed(&mut self, on: bool)
        ensures
            final(self).bits == with_flag(old(self).bits, LZ4_BIT, on),
    {
        self.set_bit(LZ4_BIT, on);
    }
}

// ---------------------------------------------------------------------------
// Records
// ---------------------------------------------------------------------------

/// The fixed prefix of an RDB file, followed by a NUL-terminated path.
#[derive(Debug, Clone)]
pub struct RdbHeader {
    pub magic: u32,
    pub version: u32,
    pub header_size: u32,
    pub system_id: u32,
    pub file_count: u32,
    pub ktid: u32,
    /// The path bytes, without the terminating NUL.
    pub path: Vec<u8>,
}

/// One variable-length entry record.
#[derive(Debug, Clone)]
pub struct RdbEntry {
    pub magic: u32,
    pub version: u32,
    pub entry_size: u32,
    pub unk: u32,
    pub string_size: u32,
    pub unk2: u32,
    pub file_size: u64,
    pub entry_type: u32,
    pub file_ktid: u32,
    pub type_info_ktid: u32,
    pub flags: RdbFlags,
    pub unk_content: Vec<u8>,
    pub name: Vec<u8>,
}

/// An RDB archive index: header and entries.
#[derive(Debug, Clone)]
pub struct Rdb {
    pub header: RdbHeader,
    pub entries: Vec<RdbEntry>,
}

/// Mathematical value of a header.
pub struct HeaderView {
    pub magic: u32,
    pub version: u32,
    pub header_size: u32,
    pub system_id: u32,
    pub file_count: u32,
    pub ktid: u32,
    pub path: Seq<u8>,
}

/// Mathematical value of an entry record.
pub struct EntryView {
    pub magic: u32,
    pub version: u32,
    pub entry_size: u32,
    pub unk: u32,
    pub string_size: u32,
    pub unk2: u32,
    pub file_size: u64,
    pub entry_type: u32,
    pub file_ktid: u32,
    pub type_info_ktid: u32,
    pub flags: u32,
    pub unk_content: Seq<u8>,
    pub name: Seq<u8>,
}

/// Mathematical value of an RDB.
pub struct RdbView {
    pub header: HeaderView,
    pub entries: Seq<EntryView>,
}

impl View for RdbHeader {
    type V = HeaderView;

    open spec fn view(&self) -> HeaderView {
        HeaderView {
            magic: self.magic,
            version: self.version,
            header_size: self.header_size,
            system_id: self.system_id,
            file_count: self.file_count,
            ktid: self.ktid,
            path: self.path@,
        }
    }
}

impl View for RdbEntry {
    type V = EntryView;

    open spec fn view(&self) -> EntryView {
        EntryView {
            magic: self.magic,
            version: self.version,
            entry_size: self.entry_size,
            unk: self.unk,
            string_size: self.string_size,
            unk2: self.unk2,
            file_size: self.file_size,
            entry_type: self.entry_type,
            file_ktid: self.file_ktid,
            type_info_ktid: self.type_info_ktid,
            flags: self.flags.bits,
            unk_content: self.unk_content@,
            name: self.name@,
        }
    }
}

pub open spec fn view_entries(es: Seq<RdbEntry>) -> Seq<EntryView> {
    es.map_values(|e: RdbEntry| e@)
}

impl View for Rdb {
    type V = RdbView;

    open spec fn view(&self) -> RdbView {
        RdbView { header: self.header@, entries: view_entries(self.entries@) }
    }
}

// ---------------------------------------------------------------------------
// Well-formedness
// ---------------------------------------------------------------------------

/// Invariant of an entry: the declared sizes match its tail and name.
pub open spec fn entry_wf(e: EntryView) -> bool {
    &&& e.version == RDB_VERSION
    &&& e.string_size == e.name.len()
    &&& e.entry_size == ENTRY_FIXED_SIZE + e.unk_content.len() + e.string_size
}

/// Length of the serialised header: fixed part, path and NUL.
pub open spec fn header_len(h: HeaderView) -> int {
    HEADER_FIXED_SIZE + h.path.len() + 1
}

pub open spec fn header_wf(h: HeaderView) -> bool {
    &&& h.version == RDB_VERSION
    &&& !h.path.contains(0u8)
    &&& header_len(h) <= h.header_size
}

pub open spec fn rdb_wf(r: RdbView) -> bool {
    &&& header_wf(r.header)
    &&& r.header.file_count == r.entries.len()
    &&& forall|i: int| 0 <= i < r.entries.len() ==> entry_wf(#[trigger] r.entries[i])
}

// ---------------------------------------------------------------------------
// Serialised form
// ---------------------------------------------------------------------------

pub open spec fn header_bytes(h: HeaderView) -> Seq<u8> {
    le32(h.magic) + le32(h.version) + le32(h.header_size) + le32(h.system_id) + le32(h.file_count)
        + le32(h.ktid) + h.path + seq![0u8]
}

/// The fixed 0x30-byte part of an entry record.
pub open spec fn entry_fixed_bytes(e: EntryView) -> Seq<u8> {
    le32(e.magic) + le32(e.version) + le32(e.entry_size) + le32(e.unk) + le32(e.string_size)
        + le32(e.unk2) + le64(e.file_size) + le32(e.entry_type) + le32(e.file_ktid) + le32(
        e.type_info_ktid,
    ) + le32(e.flags)
}

/// An entry record without its alignment padding.
pub open spec fn entry_bytes(e: EntryView) -> Seq<u8> {
    entry_fixed_bytes(e) + e.unk_content + e.name
}

/// `out` followed by `rec` and the zero bytes that align the end to four.
pub open spec fn append_aligned(out: Seq<u8>, rec: Seq<u8>) -> Seq<u8> {
    let end = out.len() + rec.len() as int;
    out + rec + zeros((align4(end) - end) as nat)
}

/// `base` followed by the entries, each padded so that the next starts at a
/// multiple of four.
pub open spec fn entries_bytes(base: Seq<u8>, es: Seq<EntryView>) -> Seq<u8>
    decreases es.len(),
{
    if es.len() == 0 {
        base
    } else {
        append_aligned(entries_bytes(base, es.drop_last()), entry_bytes(es.last()))
    }
}

/// The header followed by zero bytes up to `header_size`.
pub open spec fn header_block(h: HeaderView) -> Seq<u8> {
    let hb = header_bytes(h);
    if hb.len() < h.header_size {
        hb + zeros((h.header_size - hb.len()) as nat)
    } else {
        hb
    }
}

/// The serialised RDB.
pub open spec fn rdb_bytes(r: RdbView) -> Seq<u8> {
    entries_bytes(header_block(r.header), r.entries)
}

pub open spec fn write_fits(r: RdbView) -> bool {
    rdb_bytes(r).len() <= usize::MAX
}

proof fn lemma_entries_bytes_grows(base: Seq<u8>, es: Seq<EntryView>, i: int)
    requires
        0 <= i <= es.len(),
    ensures
        entries_bytes(base, es.subrange(0, i)).len() <= entries_bytes(base, es).len(),
    decreases es.len() - i,
{
    if i < es.len() {
        lemma_entries_bytes_grows(base, es, i + 1);
        assert(es.subrange(0, i + 1).drop_last() =~= es.subrange(0, i));
    } else {
        assert(es.subrange(0, i) =~= es);
    }
}

impl RdbEntry {
    /// Appends this record and its alignment padding to `out`.
    pub fn write_to(&self, out: &mut Vec<u8>)
        requires
            append_aligned(old(out)@, entry_bytes(self@)).len() <= usize::MAX,
        ensures
            final(out)@ == append_aligned(old(out)@, entry_bytes(self@)),
    {
        push_u32_le(out, self.magic);
        push_u32_le(out, self.version);
        push_u32_le(out, self.entry_size);
        push_u32_le(out, self.unk);
        push_u32_le(out, self.string_size);
        push_u32_le(out, self.unk2);
        push_u64_le(out, self.file_size);
        push_u32_le(out, self.entry_type);
        push_u32_le(out, self.file_ktid);
        push_u32_le(out, self.type_info_ktid);
        push_u32_le(out, self.flags.bits);
        push_all(out, self.unk_content.as_slice());
        push_all(out, self.name.as_slice());
        let pad = pad4(out.len());
        push_zeros(out, pad);
        assert(final(out)@ =~= append_aligned(old(out)@, entry_bytes(self@)));
    }
}

impl RdbHeader {
    /// The header, then zero bytes up to `header_size`.
    pub fn to_bytes(&self) -> (r: Vec<u8>)
        requires
            header_block(self@).len() <= usize::MAX,
        ensures
            r@ == header_block(self@),
    {
        let mut out: Vec<u8> = Vec::new();
        push_u32_le(&mut out, self.magic);
        push_u32_le(&mut out, self.version);
        push_u32_le(&mut out, self.header_size);
        push_u32_le(&mut out, self.system_id);
        push_u32_le(&mut out, self.file_count);
        push_u32_le(&mut out, self.ktid);
        push_all(&mut out, self.path.as_slice());
        out.push(0u8);
        assert(out@ =~= header_bytes(self@));
        if out.len() < self.header_size as usize {
            let gap = self.header_size as usize - out.len();
            push_zeros(&mut out, gap);
        }
        out
    }
}

impl Rdb {
    /// Serialises the header, the gap up to `header_size`, and every entry padded
    /// to a four-byte boundary.
    pub fn to_bytes(&self) -> (r: Vec<u8>)
        requires
            write_fits(self@),
        ensures
            r@ == rdb_bytes(self@),
    {
        let ghost es = view_entries(self.entries@);
        proof {
            lemma_entries_bytes_grows(header_block(self.header@), es, 0);
            assert(es.subrange(0, 0) =~= Seq::<EntryView>::empty());
        }
        let mut out = self.header.to_bytes();
        let mut i: usize = 0;
        while i < self.entries.len()
            invariant
                i <= self.entries@.len(),
                es == view_entries(self.entries@),
                write_fits(self@),
                out@ == entries_bytes(header_block(self.header@), es.subrange(0, i as int)),
            decreases self.entries@.len() - i,
        {
            proof {
                lemma_entries_bytes_grows(header_block(self.header@), es, i + 1);
                assert(es.subrange(0, i + 1).drop_last() =~= es.subrange(0, i as int));
                assert(es.subrange(0, i + 1).last() == self.entries@[i as int]@);
            }
            self.entries[i].write_to(&mut out);
            i = i + 1;
        }
        proof {
            assert(es.subrange(0, i as int) =~= es);
        }
        out
    }
}

} // verus!
