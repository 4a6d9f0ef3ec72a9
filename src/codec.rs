use vstd::prelude::*;
use vstd::slice::{slice_subrange, slice_to_vec};

use crate::bytes::{
    align4, le32, le64, lemma_read_le32_of, lemma_read_le64_of, pad4, read_le32, read_le64,
    read_u32_le, read_u64_le,
};
use crate::rdb::{
    entries_bytes, entry_bytes, entry_wf, header_block, header_bytes, rdb_bytes, rdb_wf,
    view_entries, EntryView, HeaderView, Rdb, RdbEntry, RdbFlags, RdbHeader, RdbView,
    ENTRY_FIXED_SIZE, HEADER_FIXED_SIZE, RDB_VERSION,
};

verus! {

/// Why a byte string is not an RDB.
#[derive(Debug, Clone, Copy, PartialEq, Eq, Structural)]
pub enum ParseError {
    /// The input ends inside a record.
    UnexpectedEof,
    /// A `version` field is not the expected constant.
    BadVersion,
    /// A declared size is impossible (`entry_size < string_size + 0x30`, or
    /// `header_size` shorter than the header itself).
    BadSize,
}

// ---------------------------------------------------------------------------
// What the bytes denote
// ---------------------------------------------------------------------------

/// The entry record that starts at `off`.
pub open spec fn parse_entry_at(b: Seq<u8>, off: int) -> Result<EntryView, ParseError> {
    if off + ENTRY_FIXED_SIZE > b.len() {
        Err(ParseError::UnexpectedEof)
    } else if read_le32(b, off + 4) != RDB_VERSION {
        Err(ParseError::BadVersion)
    } else {
        let es = read_le32(b, off + 8);
        let ss = read_le32(b, off + 16);
        if es < ss + ENTRY_FIXED_SIZE {
            Err(ParseError::BadSize)
        } else if off + es > b.len() {
            Err(ParseError::UnexpectedEof)
        } else {
            Ok(
                EntryView {
                    magic: read_le32(b, off),
                    version: read_le32(b, off + 4),
                    entry_size: es,
                    unk: read_le32(b, off + 12),
                    string_size: ss,
                    unk2: read_le32(b, off + 20),
                    file_size: read_le64(b, off + 24),
                    entry_type: read_le32(b, off + 32),
                    file_ktid: read_le32(b, off + 36),
                    type_info_ktid: read_le32(b, off + 40),
                    flags: read_le32(b, off + 44),
                    unk_content: b.subrange(off + ENTRY_FIXED_SIZE, off + es - ss),
                    name: b.subrange(off + es - ss, off + es),
                },
            )
        }
    }
}

/// The first `n` entries from `start`, each beginning at the four-byte boundary
/// after the previous one, with the offset that follows the last.
pub open spec fn parse_entries(b: Seq<u8>, start: int, n: nat) -> Result<
    (Seq<EntryView>, int),
    ParseError,
>
    decreases n,
{
    if n == 0 {
        Ok((Seq::empty(), start))
    } else {
        match parse_entries(b, start, (n - 1) as nat) {
            Err(e) => Err(e),
            Ok((es, off)) => match parse_entry_at(b, off) {
                Err(e) => Err(e),
                Ok(e) => Ok((es.push(e), align4(off + e.entry_size))),
            },
        }
    }
}

/// Index of the first NUL byte at or after `i`.
pub open spec fn nul_index(b: Seq<u8>, i: int) -> Option<int>
    decreases b.len() - i,
{
    if i < 0 || i >= b.len() {
        None
    } else if b[i] == 0 {
        Some(i)
    } else {
        nul_index(b, i + 1)
    }
}

pub open spec fn parse_header(b: Seq<u8>) -> Result<HeaderView, ParseError> {
    if b.len() < HEADER_FIXED_SIZE {
        Err(ParseError::UnexpectedEof)
    } else if read_le32(b, 4) != RDB_VERSION {
        Err(ParseError::BadVersion)
    } else {
        match nul_index(b, HEADER_FIXED_SIZE as int) {
            None => Err(ParseError::UnexpectedEof),
            Some(z) => if read_le32(b, 8) < z + 1 {
                Err(ParseError::BadSize)
            } else {
                Ok(
                    HeaderView {
                        magic: read_le32(b, 0),
                        version: read_le32(b, 4),
                        header_size: read_le32(b, 8),
                        system_id: read_le32(b, 12),
                        file_count: read_le32(b, 16),
                        ktid: read_le32(b, 20),
                        path: b.subrange(HEADER_FIXED_SIZE as int, z),
                    },
                )
            },
        }
    }
}

/// The RDB that the bytes hold: the header, then `file_count` entries from
/// `header_size`.
pub open spec fn parse_rdb(b: Seq<u8>) -> Result<RdbView, ParseError> {
    match parse_header(b) {
        Err(e) => Err(e),
        Ok(h) => match parse_entries(b, h.header_size as int, h.file_count as nat) {
            Err(e) => Err(e),
            Ok((es, _)) => Ok(RdbView { header: h, entries: es }),
        },
    }
}

proof fn lemma_parse_entries_err_stays(b: Seq<u8>, start: int, i: nat, n: nat)
    requires
        i <= n,
        parse_entries(b, start, i) is Err,
    ensures
        parse_entries(b, start, n) == parse_entries(b, start, i),
    decreases n - i,
{
    if i < n {
        lemma_parse_entries_err_stays(b, start, i, (n - 1) as nat);
    }
}

proof fn lemma_parse_entries_offsets(b: Seq<u8>, start: int, n: nat)
    requires
        parse_entries(b, start, n) is Ok,
    ensures
        start <= parse_entries(b, start, n)->Ok_0.1,
        n > 0 ==> parse_entries(b, start, n)->Ok_0.1 <= align4(b.len() as int),
        parse_entries(b, start, n)->Ok_0.0.len() == n,
    decreases n,
{
    if n > 0 {
        lemma_parse_entries_offsets(b, start, (n - 1) as nat);
    }
}

// ---------------------------------------------------------------------------
// Reading
// ---------------------------------------------------------------------------

fn bytes_between(b: &[u8], from: usize, to: usize) -> (r: Vec<u8>)
    requires
        from <= to <= b@.len(),
    ensures
        r@ == b@.subrange(from as int, to as int),
{
    slice_to_vec(slice_subrange(b, from, to))
}

impl RdbEntry {
    /// Reads the entry record at `off`.
    pub fn parse_at(b: &[u8], off: usize) -> (r: Result<RdbEntry, ParseError>)
        ensures
            match (r, parse_entry_at(b@, off as int)) {
                (Ok(e), Ok(v)) => e@ == v,
                (Err(e), Err(f)) => e == f,
                _ => false,
            },
    {
        let n = b.len();
        if off > n || n - off < 0x30 {
            return Err(ParseError::UnexpectedEof);
        }
        let version = read_u32_le(b, off + 4);
        if version != RDB_VERSION {
            return Err(ParseError::BadVersion);
        }
        let entry_size = read_u32_le(b, off + 8);
        let string_size = read_u32_le(b, off + 16);
        if (entry_size as u64) < (string_size as u64) + 0x30 {
            return Err(ParseError::BadSize);
        }
        if entry_size as usize > n - off {
            return Err(ParseError::UnexpectedEof);
        }
        let tail_start = off + 0x30;
        let name_start = off + (entry_size - string_size) as usize;
        let end = off + entry_size as usize;
        Ok(
            RdbEntry {
                magic: read_u32_le(b, off),
                version,
                entry_size,
                unk: read_u32_le(b, off + 12),
                string_size,
                unk2: read_u32_le(b, off + 20),
                file_size: read_u64_le(b, off + 24),
                entry_type: read_u32_le(b, off + 32),
                file_ktid: read_u32_le(b, off + 36),
                type_info_ktid: read_u32_le(b, off + 40),
                flags: RdbFlags { bits: read_u32_le(b, off + 44) },
                unk_content: bytes_between(b, tail_start, name_start),
                name: bytes_between(b, name_start, end),
            },
        )
    }
}

impl RdbHeader {
    /// Reads the header at the start of `b`.
    pub fn parse(b: &[u8]) -> (r: Result<RdbHeader, ParseError>)
        ensures
            match (r, parse_header(b@)) {
                (Ok(h), Ok(v)) => h@ == v,
                (Err(e), Err(f)) => e == f,
                _ => false,
            },
    {
        let n = b.len();
        if n < HEADER_FIXED_SIZE {
            return Err(ParseError::UnexpectedEof);
        }
        let version = read_u32_le(b, 4);
        if version != RDB_VERSION {
            return Err(ParseError::BadVersion);
        }
        let mut z: usize = HEADER_FIXED_SIZE;
        while z < n && b[z] != 0
            invariant
                HEADER_FIXED_SIZE <= z <= n,
                n == b@.len(),
                nul_index(b@, HEADER_FIXED_SIZE as int) == nul_index(b@, z as int),
            decreases n - z,
        {
            z = z + 1;
        }
        if z >= n {
            return Err(ParseError::UnexpectedEof);
        }
        let header_size = read_u32_le(b, 8);
        if (header_size as u64) < (z as u64) + 1 {
            return Err(ParseError::BadSize);
        }
        Ok(
            RdbHeader {
                magic: read_u32_le(b, 0),
                version,
                header_size,
                system_id: read_u32_le(b, 12),
                file_count: read_u32_le(b, 16),
                ktid: read_u32_le(b, 20),
                path: bytes_between(b, HEADER_FIXED_SIZE, z),
            },
        )
    }
}

impl Rdb {
    /// Reads an RDB: the header, then `file_count` entries starting at
    /// `header_size`, each following entry at the next four-byte boundary.
    #[verifier::rlimit(40)]
    pub fn from_bytes(b: &[u8]) -> (r: Result<Rdb, ParseError>)
        requires
            b@.len() + 4 <= usize::MAX,
        ensures
            match (r, parse_rdb(b@)) {
                (Ok(x), Ok(v)) => x@ == v,
                (Err(e), Err(f)) => e == f,
                _ => false,
            },
    {
        let header = match RdbHeader::parse(b) {
            Ok(h) => h,
            Err(e) => return Err(e),
        };
        assert(parse_header(b@) == Ok::<HeaderView, ParseError>(header@));
        let count = header.file_count;
        let mut off: usize = header.header_size as usize;
        let mut entries: Vec<RdbEntry> = Vec::new();
        let ghost start = header.header_size as int;
        let mut i: u32 = 0;
        assert(view_entries(entries@) =~= Seq::<EntryView>::empty());
        while i < count
            invariant
                i <= count,
                count == header.file_count,
                start == header.header_size as int,
                parse_header(b@) == Ok::<HeaderView, ParseError>(header@),
                b@.len() + 4 <= usize::MAX,
                parse_entries(b@, start, i as nat) == Ok::<(Seq<EntryView>, int), ParseError>(
                    (view_entries(entries@), off as int),
                ),
            decreases count - i,
        {
            let e = match RdbEntry::parse_at(b, off) {
                Ok(e) => e,
                Err(err) => {
                    proof {
                        assert(parse_entries(b@, start, (i + 1) as nat) == Err::<
                            (Seq<EntryView>, int),
                            ParseError,
                        >(err));
                        lemma_parse_entries_err_stays(b@, start, (i + 1) as nat, count as nat);
                    }
                    return Err(err);
                },
            };
            assert(parse_entry_at(b@, off as int) == Ok::<EntryView, ParseError>(e@));
            let end = off + e.entry_size as usize;
            let next = end + pad4(end);
            proof {
                assert(view_entries(entries@.push(e)) =~= view_entries(entries@).push(e@));
            }
            entries.push(e);
            off = next;
            i = i + 1;
        }
        Ok(Rdb { header, entries })
    }
}

} // verus!

verus! {

// ---------------------------------------------------------------------------
// Round trips
// ---------------------------------------------------------------------------

proof fn lemma_sub_of(b: Seq<u8>, off: int, rec: Seq<u8>, a: int, c: int)
    requires
        0 <= off,
        off + rec.len() <= b.len(),
        b.subrange(off, off + rec.len()) == rec,
        0 <= a <= c <= rec.len(),
    ensures
        b.subrange(off + a, off + c) == rec.subrange(a, c),
{
    assert(b.subrange(off + a, off + c) =~= rec.subrange(a, c));
}

proof fn lemma_field32(b: Seq<u8>, off: int, rec: Seq<u8>, a: int, v: u32)
    requires
        0 <= off,
        off + rec.len() <= b.len(),
        b.subrange(off, off + rec.len()) == rec,
        0 <= a,
        a + 4 <= rec.len(),
        rec.subrange(a, a + 4) == le32(v),
    ensures
        read_le32(b, off + a) == v,
{
    lemma_sub_of(b, off, rec, a, a + 4);
    lemma_read_le32_of(b, off + a, v);
}

/// A well-formed entry, written at `off`, reads back as itself.
#[verifier::rlimit(50)]
proof fn lemma_parse_entry_of_bytes(b: Seq<u8>, off: int, e: EntryView)
    requires
        entry_wf(e),
        0 <= off,
        off + entry_bytes(e).len() <= b.len(),
        b.subrange(off, off + entry_bytes(e).len()) == entry_bytes(e),
    ensures
        parse_entry_at(b, off) == Ok::<EntryView, ParseError>(e),
{
    let rec = entry_bytes(e);
    let u = e.unk_content.len() as int;
    assert(rec.subrange(0, 4) =~= le32(e.magic));
    assert(rec.subrange(4, 8) =~= le32(e.version));
    assert(rec.subrange(8, 12) =~= le32(e.entry_size));
    assert(rec.subrange(12, 16) =~= le32(e.unk));
    assert(rec.subrange(16, 20) =~= le32(e.string_size));
    assert(rec.subrange(20, 24) =~= le32(e.unk2));
    assert(rec.subrange(24, 32) =~= le64(e.file_size));
    assert(rec.subrange(32, 36) =~= le32(e.entry_type));
    assert(rec.subrange(36, 40) =~= le32(e.file_ktid));
    assert(rec.subrange(40, 44) =~= le32(e.type_info_ktid));
    assert(rec.subrange(44, 48) =~= le32(e.flags));
    assert(rec.subrange(48, 48 + u) =~= e.unk_content);
    assert(rec.subrange(48 + u, rec.len() as int) =~= e.name);
    lemma_field32(b, off, rec, 0, e.magic);
    lemma_field32(b, off, rec, 4, e.version);
    lemma_field32(b, off, rec, 8, e.entry_size);
    lemma_field32(b, off, rec, 12, e.unk);
    lemma_field32(b, off, rec, 16, e.string_size);
    lemma_field32(b, off, rec, 20, e.unk2);
    lemma_sub_of(b, off, rec, 24, 32);
    lemma_read_le64_of(b, off + 24, e.file_size);
    lemma_field32(b, off, rec, 32, e.entry_type);
    lemma_field32(b, off, rec, 36, e.file_ktid);
    lemma_field32(b, off, rec, 40, e.type_info_ktid);
    lemma_field32(b, off, rec, 44, e.flags);
    lemma_sub_of(b, off, rec, 48, 48 + u);
    lemma_sub_of(b, off, rec, 48 + u, rec.len() as int);
}

proof fn lemma_nul_index_at(b: Seq<u8>, i: int, j: int)
    requires
        0 <= i <= j < b.len(),
        b[j] == 0,
        forall|k: int| i <= k < j ==> b[k] != 0,
    ensures
        nul_index(b, i) == Some(j),
    decreases j - i,
{
    if i < j {
        lemma_nul_index_at(b, i + 1, j);
    }
}

proof fn lemma_entries_bytes_prefix(base: Seq<u8>, es: Seq<EntryView>, i: int)
    requires
        0 <= i <= es.len(),
    ensures
        entries_bytes(base, es.subrange(0, i)).len() <= entries_bytes(base, es).len(),
        entries_bytes(base, es).subrange(0, entries_bytes(base, es.subrange(0, i)).len() as int)
            == entries_bytes(base, es.subrange(0, i)),
    decreases es.len() - i,
{
    if i < es.len() {
        lemma_entries_bytes_prefix(base, es, i + 1);
        assert(es.subrange(0, i + 1).drop_last() =~= es.subrange(0, i));
        let p = entries_bytes(base, es.subrange(0, i));
        let q = entries_bytes(base, es.subrange(0, i + 1));
        let full = entries_bytes(base, es);
        assert(q.subrange(0, p.len() as int) =~= p);
        assert(full.subrange(0, p.len() as int) =~= q.subrange(0, p.len() as int));
    } else {
        assert(es.subrange(0, i) =~= es);
        assert(entries_bytes(base, es).subrange(0, entries_bytes(base, es).len() as int)
            =~= entries_bytes(base, es));
    }
}

proof fn lemma_entries_bytes_base(base: Seq<u8>, es: Seq<EntryView>)
    ensures
        base.len() <= entries_bytes(base, es).len(),
        entries_bytes(base, es).subrange(0, base.len() as int) == base,
{
    lemma_entries_bytes_prefix(base, es, 0);
    assert(es.subrange(0, 0) =~= Seq::<EntryView>::empty());
}

proof fn lemma_parse_header_of_bytes(b: Seq<u8>, h: HeaderView)
    requires
        crate::rdb::header_wf(h),
        header_bytes(h).len() <= b.len(),
        b.subrange(0, header_bytes(h).len() as int) == header_bytes(h),
    ensures
        parse_header(b) == Ok::<HeaderView, ParseError>(h),
{
    let hb = header_bytes(h);
    let pl = h.path.len() as int;
    assert(hb.subrange(0, 4) =~= le32(h.magic));
    assert(hb.subrange(4, 8) =~= le32(h.version));
    assert(hb.subrange(8, 12) =~= le32(h.header_size));
    assert(hb.subrange(12, 16) =~= le32(h.system_id));
    assert(hb.subrange(16, 20) =~= le32(h.file_count));
    assert(hb.subrange(20, 24) =~= le32(h.ktid));
    lemma_field32(b, 0, hb, 0, h.magic);
    lemma_field32(b, 0, hb, 4, h.version);
    lemma_field32(b, 0, hb, 8, h.header_size);
    lemma_field32(b, 0, hb, 12, h.system_id);
    lemma_field32(b, 0, hb, 16, h.file_count);
    lemma_field32(b, 0, hb, 20, h.ktid);
    assert(hb.subrange(24, 24 + pl) =~= h.path);
    lemma_sub_of(b, 0, hb, 24, 24 + pl);
    assert forall|k: int| 24 <= k < 24 + pl implies b[k] != 0 by {
        assert(b[k] == b.subrange(24, 24 + pl)[k - 24]);
        assert(h.path[k - 24] != 0u8 || h.path.contains(0u8));
    }
    assert(b[24 + pl] == b.subrange(0, hb.len() as int)[24 + pl]);
    lemma_nul_index_at(b, 24, 24 + pl);
}

/// Writing a well-formed RDB and parsing the bytes gives back the same RDB.
pub proof fn lemma_parse_of_write(r: RdbView)
    requires
        rdb_wf(r),
    ensures
        parse_rdb(rdb_bytes(r)) == Ok::<RdbView, ParseError>(r),
{
    let h = r.header;
    let es = r.entries;
    let hb = header_bytes(h);
    let hblk = header_block(h);
    let b = rdb_bytes(r);
    lemma_entries_bytes_base(hblk, es);
    assert(hblk.subrange(0, hb.len() as int) =~= hb);
    assert(b.subrange(0, hb.len() as int) =~= hb);
    lemma_parse_header_of_bytes(b, h);
    assert(hblk.len() == h.header_size);
    lemma_parse_entries_of_write(b, hblk, es, es.len());
    assert(es.subrange(0, es.len() as int) =~= es);
}

/// Where the `i`-th entry record sits in the written bytes.
proof fn lemma_entry_in_write(b: Seq<u8>, hblk: Seq<u8>, es: Seq<EntryView>, i: int)
    requires
        entry_wf(es[i]),
        0 <= i < es.len(),
        b == entries_bytes(hblk, es),
    ensures
        ({
            let p = entries_bytes(hblk, es.subrange(0, i));
            let rec = entry_bytes(es[i]);
            &&& p.len() + rec.len() <= b.len()
            &&& b.subrange(p.len() as int, p.len() + rec.len() as int) == rec
            &&& entries_bytes(hblk, es.subrange(0, i + 1)).len() == align4(
                p.len() + es[i].entry_size,
            )
        }),
{
    let p = entries_bytes(hblk, es.subrange(0, i));
    let q = entries_bytes(hblk, es.subrange(0, i + 1));
    let e = es[i];
    let rec = entry_bytes(e);
    assert(es.subrange(0, i + 1).drop_last() =~= es.subrange(0, i));
    assert(es.subrange(0, i + 1).last() == e);
    assert(q == p + rec + crate::bytes::zeros(
        (align4(p.len() + rec.len() as int) - (p.len() + rec.len())) as nat,
    ));
    lemma_entries_bytes_prefix(hblk, es, i + 1);
    assert(b.subrange(0, q.len() as int) == q);
    assert forall|k: int| 0 <= k < rec.len() implies b.subrange(
        p.len() as int,
        p.len() + rec.len() as int,
    )[k] == rec[k] by {
        assert(b[p.len() + k] == q[p.len() + k]);
    }
    assert(b.subrange(p.len() as int, p.len() + rec.len() as int) =~= rec);
}

proof fn lemma_parse_entries_of_write(b: Seq<u8>, hblk: Seq<u8>, es: Seq<EntryView>, i: nat)
    requires
        forall|k: int| 0 <= k < es.len() ==> entry_wf(#[trigger] es[k]),
        i <= es.len(),
        b == entries_bytes(hblk, es),
    ensures
        parse_entries(b, hblk.len() as int, i) == Ok::<(Seq<EntryView>, int), ParseError>(
            (es.subrange(0, i as int), entries_bytes(hblk, es.subrange(0, i as int)).len() as int),
        ),
    decreases i,
{
    if i == 0 {
        assert(es.subrange(0, 0) =~= Seq::<EntryView>::empty());
    } else {
        let j = (i - 1) as nat;
        lemma_parse_entries_of_write(b, hblk, es, j);
        let e = es[j as int];
        assert(entry_wf(e));
        lemma_entry_in_write(b, hblk, es, j as int);
        let p = entries_bytes(hblk, es.subrange(0, j as int));
        lemma_parse_entry_of_bytes(b, p.len() as int, e);
        assert(es.subrange(0, j as int).push(e) =~= es.subrange(0, i as int));
    }
}

/// Offset at which the `i`-th entry starts (for `i` up to the entry count, the
/// offset after the last one).
pub open spec fn entry_start(b: Seq<u8>, i: nat) -> int {
    parse_entries(b, parse_header(b)->Ok_0.header_size as int, i)->Ok_0.1
}

/// The alignment padding after a record that ends at `end` holds only zeros.
pub open spec fn pad_is_zero(b: Seq<u8>, end: int) -> bool {
    forall|k: int| end <= k < align4(end) ==> b[k] == 0
}

/// `b` parses, every byte that parsing skips (between the header and
/// `header_size`, and after each entry up to the next four-byte boundary) is
/// zero, and nothing follows the padding of the last entry.
pub open spec fn zero_padded(b: Seq<u8>) -> bool {
    match parse_rdb(b) {
        Err(_) => false,
        Ok(r) => {
            &&& forall|k: int|
                crate::rdb::header_len(r.header) <= k < r.header.header_size ==> b[k] == 0
            &&& forall|i: int|
                0 <= i < r.entries.len() ==> pad_is_zero(
                    b,
                    entry_start(b, i as nat) + (#[trigger] r.entries[i]).entry_size,
                )
            &&& b.len() == entry_start(b, r.entries.len())
        },
    }
}

proof fn lemma_parse_entries_prefix(b: Seq<u8>, s: int, i: nat, n: nat)
    requires
        i <= n,
        parse_entries(b, s, n) is Ok,
    ensures
        parse_entries(b, s, i) is Ok,
        parse_entries(b, s, i)->Ok_0.0 == parse_entries(b, s, n)->Ok_0.0.subrange(0, i as int),
        parse_entries(b, s, i)->Ok_0.1 <= parse_entries(b, s, n)->Ok_0.1,
    decreases n,
{
    lemma_parse_entries_offsets(b, s, n);
    if i == n {
        assert(parse_entries(b, s, n)->Ok_0.0.subrange(0, n as int) =~= parse_entries(
            b,
            s,
            n,
        )->Ok_0.0);
    } else {
        let m = (n - 1) as nat;
        if parse_entries(b, s, m) is Err {
            assert(parse_entries(b, s, n) is Err);
        }
        lemma_parse_entries_prefix(b, s, i, m);
        let prev = parse_entries(b, s, m)->Ok_0;
        let e = parse_entry_at(b, prev.1)->Ok_0;
        lemma_parse_entries_offsets(b, s, m);
        assert(parse_entries(b, s, n)->Ok_0.0 == prev.0.push(e));
        assert(prev.0.push(e).subrange(0, i as int) =~= prev.0.subrange(0, i as int));
    }
}

proof fn lemma_entry_bytes_of_parse(b: Seq<u8>, off: int)
    requires
        0 <= off,
        parse_entry_at(b, off) is Ok,
    ensures
        ({
            let e = parse_entry_at(b, off)->Ok_0;
            &&& off + e.entry_size <= b.len()
            &&& entry_bytes(e).len() == e.entry_size
            &&& b.subrange(off, off + e.entry_size) == entry_bytes(e)
        }),
{
    let e = parse_entry_at(b, off)->Ok_0;
    crate::bytes::lemma_le32_of_read(b, off);
    crate::bytes::lemma_le32_of_read(b, off + 4);
    crate::bytes::lemma_le32_of_read(b, off + 8);
    crate::bytes::lemma_le32_of_read(b, off + 12);
    crate::bytes::lemma_le32_of_read(b, off + 16);
    crate::bytes::lemma_le32_of_read(b, off + 20);
    crate::bytes::lemma_le64_of_read(b, off + 24);
    crate::bytes::lemma_le32_of_read(b, off + 32);
    crate::bytes::lemma_le32_of_read(b, off + 36);
    crate::bytes::lemma_le32_of_read(b, off + 40);
    crate::bytes::lemma_le32_of_read(b, off + 44);
    assert(b.subrange(off, off + e.entry_size) =~= entry_bytes(e));
}

proof fn lemma_header_block_of_parse(b: Seq<u8>)
    requires
        zero_padded(b),
    ensures
        ({
            let h = parse_header(b)->Ok_0;
            &&& h.header_size <= b.len()
            &&& b.subrange(0, h.header_size as int) == header_block(h)
        }),
{
    let h = parse_header(b)->Ok_0;
    let r = parse_rdb(b)->Ok_0;
    lemma_parse_entries_offsets(b, h.header_size as int, h.file_count as nat);
    let z = nul_index(b, 24).unwrap();
    lemma_nul_index_props(b, 24);
    crate::bytes::lemma_le32_of_read(b, 0);
    crate::bytes::lemma_le32_of_read(b, 4);
    crate::bytes::lemma_le32_of_read(b, 8);
    crate::bytes::lemma_le32_of_read(b, 12);
    crate::bytes::lemma_le32_of_read(b, 16);
    crate::bytes::lemma_le32_of_read(b, 20);
    assert(b.subrange(0, z + 1) =~= header_bytes(h));
    assert(b.subrange(0, h.header_size as int) =~= header_block(h));
}

proof fn lemma_nul_index_props(b: Seq<u8>, i: int)
    requires
        nul_index(b, i) is Some,
    ensures
        i <= nul_index(b, i).unwrap() < b.len(),
        b[nul_index(b, i).unwrap()] == 0,
    decreases b.len() - i,
{
    if 0 <= i < b.len() && b[i] != 0 {
        lemma_nul_index_props(b, i + 1);
    }
}

#[verifier::rlimit(80)]
proof fn lemma_write_prefix_of_parse(b: Seq<u8>, i: nat)
    requires
        zero_padded(b),
        i <= parse_rdb(b)->Ok_0.entries.len(),
    ensures
        entry_start(b, i) <= b.len(),
        b.subrange(0, entry_start(b, i)) == entries_bytes(
            header_block(parse_rdb(b)->Ok_0.header),
            parse_rdb(b)->Ok_0.entries.subrange(0, i as int),
        ),
    decreases i,
{
    let r = parse_rdb(b)->Ok_0;
    let h = r.header;
    let hs = h.header_size as int;
    let n = h.file_count as nat;
    lemma_parse_entries_offsets(b, hs, n);
    lemma_parse_entries_prefix(b, hs, i, n);
    if i == 0 {
        lemma_header_block_of_parse(b);
        assert(r.entries.subrange(0, 0) =~= Seq::<EntryView>::empty());
    } else {
        let j = (i - 1) as nat;
        lemma_write_prefix_of_parse(b, j);
        lemma_parse_entries_prefix(b, hs, j, n);
        lemma_parse_entries_offsets(b, hs, j);
        let off = entry_start(b, j);
        let e = parse_entry_at(b, off)->Ok_0;
        assert(parse_entries(b, hs, i)->Ok_0.0 == parse_entries(b, hs, j)->Ok_0.0.push(e));
        assert(r.entries[j as int] == e) by {
            assert(r.entries.subrange(0, i as int)[j as int] == r.entries[j as int]);
        }
        lemma_entry_bytes_of_parse(b, off);
        let end = off + e.entry_size;
        assert(pad_is_zero(b, end));
        let p = b.subrange(0, off);
        let es_i = r.entries.subrange(0, i as int);
        assert(es_i.drop_last() =~= r.entries.subrange(0, j as int));
        assert(es_i.last() == e);
        assert(b.subrange(0, align4(end)) =~= p + entry_bytes(e) + crate::bytes::zeros(
            (align4(end) - end) as nat,
        ));
    }
}

/// Parsing bytes whose skipped bytes are zero and writing the result gives back
/// the same bytes.
pub proof fn lemma_write_of_parse(b: Seq<u8>)
    requires
        zero_padded(b),
    ensures
        rdb_bytes(parse_rdb(b)->Ok_0) == b,
{
    let r = parse_rdb(b)->Ok_0;
    lemma_parse_entries_offsets(b, r.header.header_size as int, r.header.file_count as nat);
    lemma_write_prefix_of_parse(b, r.entries.len());
    assert(r.entries.subrange(0, r.entries.len() as int) =~= r.entries);
    assert(b.subrange(0, b.len() as int) =~= b);
}

proof fn lemma_parse_entries_wf(b: Seq<u8>, s: int, n: nat)
    requires
        0 <= s,
        parse_entries(b, s, n) is Ok,
    ensures
        forall|k: int|
            0 <= k < n ==> entry_wf(#[trigger] parse_entries(b, s, n)->Ok_0.0[k]),
    decreases n,
{
    if n > 0 {
        let m = (n - 1) as nat;
        if parse_entries(b, s, m) is Err {
            assert(parse_entries(b, s, n) is Err);
        }
        lemma_parse_entries_wf(b, s, m);
        lemma_parse_entries_offsets(b, s, m);
        let prev = parse_entries(b, s, m)->Ok_0;
        assert(parse_entry_at(b, prev.1) is Ok);
        assert(0 <= prev.1);
        let e = parse_entry_at(b, prev.1)->Ok_0;
        assert(e.name.len() == e.string_size);
        assert(e.unk_content.len() == e.entry_size - e.string_size - ENTRY_FIXED_SIZE);
        assert(entry_wf(e));
        assert forall|k: int| 0 <= k < n implies entry_wf(
            #[trigger] parse_entries(b, s, n)->Ok_0.0[k],
        ) by {
            assert(parse_entries(b, s, n)->Ok_0.0 == prev.0.push(e));
            if k < m {
                assert(prev.0.push(e)[k] == prev.0[k]);
            }
        }
    }
}

/// Whatever parses is well formed: in particular every entry has
/// `entry_size == 0x30 + len(unk_content) + string_size` and
/// `string_size == len(name)`.
pub proof fn lemma_parsed_rdb_wf(b: Seq<u8>)
    requires
        parse_rdb(b) is Ok,
    ensures
        rdb_wf(parse_rdb(b)->Ok_0),
{
    let h = parse_header(b)->Ok_0;
    let z = nul_index(b, 24).unwrap();
    lemma_nul_index_props(b, 24);
    lemma_nul_index_first(b, 24);
    assert(!h.path.contains(0u8)) by {
        if h.path.contains(0u8) {
            let k = choose|k: int| 0 <= k < h.path.len() && h.path[k] == 0u8;
            assert(b[24 + k] == 0);
        }
    }
    lemma_parse_entries_wf(b, h.header_size as int, h.file_count as nat);
    lemma_parse_entries_offsets(b, h.header_size as int, h.file_count as nat);
}

proof fn lemma_nul_index_first(b: Seq<u8>, i: int)
    requires
        nul_index(b, i) is Some,
    ensures
        forall|k: int| i <= k < nul_index(b, i).unwrap() ==> b[k] != 0,
    decreases b.len() - i,
{
    if 0 <= i < b.len() && b[i] != 0 {
        lemma_nul_index_first(b, i + 1);
    }
}

} // verus!
