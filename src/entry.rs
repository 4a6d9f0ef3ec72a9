use vstd::prelude::*;
use vstd::slice::{slice_subrange, slice_to_vec};
use vstd::utf8::valid_utf8;

use crate::bytes::{
    align4, le32, le64, lemma_read_le32_of, lemma_read_le64_of, push_all, read_le32, read_le64,
};
use crate::codec::{lemma_parse_of_write, parse_rdb, ParseError};
use crate::rdb::{
    append_aligned, entry_bytes, entry_wf, flag_external, flag_internal, flag_lz4, flag_unk,
    flag_unk2, flag_unk3, flag_zlib, rdb_bytes, rdb_wf, with_flag, EntryView, RdbEntry, RdbFlags,
    RdbView,
    ENTRY_FIXED_SIZE, EXTERNAL_BIT, INTERNAL_BIT, LZ4_BIT, ZLIB_BIT,
};

verus! {

/// The first four bytes of a payload that already carries its external header.
pub const IDRK_SIGNATURE: [u8; 4] = [0x49, 0x44, 0x52, 0x4b];

/// Why an entry could not be given an external payload.
#[derive(Debug, Clone, Copy, PartialEq, Eq, Structural)]
pub enum EntryError {
    /// The replacement file already starts with `IDRK`: it is to be copied as it is.
    AlreadyPatched,
    /// No external header size is known for this `entry_type`.
    UnknownEntryType(u32),
    /// The new sizes do not fit in their 32-bit fields.
    TooLarge,
}

// ---------------------------------------------------------------------------
// Names
// ---------------------------------------------------------------------------

/// ASCII code of a lower-case hexadecimal digit.
pub open spec fn hex_digit_byte(d: nat) -> u8 {
    if d < 10 {
        (0x30 + d) as u8
    } else {
        (0x61 + d - 10) as u8
    }
}

/// Lower-case hexadecimal digits of `n`, most significant first, without leading zeros.
pub open spec fn lower_hex(n: nat) -> Seq<u8>
    decreases n,
{
    if n < 16 {
        seq![hex_digit_byte(n)]
    } else {
        lower_hex(n / 16) + seq![hex_digit_byte(n % 16)]
    }
}

/// Index of the first byte `c` at or after `i`.
pub open spec fn first_index(b: Seq<u8>, c: u8, i: int) -> Option<int>
    decreases b.len() - i,
{
    if i < 0 || i >= b.len() {
        None
    } else if b[i] == c {
        Some(i)
    } else {
        first_index(b, c, i + 1)
    }
}

proof fn lemma_first_index_props(b: Seq<u8>, c: u8, i: int)
    requires
        first_index(b, c, i) is Some,
    ensures
        i <= first_index(b, c, i).unwrap() < b.len(),
        b[first_index(b, c, i).unwrap()] == c,
        forall|k: int| i <= k < first_index(b, c, i).unwrap() ==> b[k] != c,
    decreases b.len() - i,
{
    if 0 <= i < b.len() && b[i] != c {
        lemma_first_index_props(b, c, i + 1);
    }
}

/// The `@` byte.
pub const AT_SIGN_BYTE: u8 = 0x40;

/// The name as text: the bytes if they are UTF-8, else empty.
pub open spec fn name_text(name: Seq<u8>) -> Seq<u8> {
    if valid_utf8(name) {
        name
    } else {
        Seq::empty()
    }
}

/// The name with everything from its first `@` replaced by `@` and the
/// lower-case hexadecimal `size`; a name without `@` is kept.
pub open spec fn resized_name(name: Seq<u8>, size: u64) -> Seq<u8> {
    let t = name_text(name);
    match first_index(t, AT_SIGN_BYTE, 0) {
        None => t,
        Some(p) => t.subrange(0, p) + seq![AT_SIGN_BYTE] + lower_hex(size as nat),
    }
}

/// Relies on `std::str::from_utf8`: it succeeds exactly on well-formed UTF-8.
#[verifier::external_body]
fn is_utf8(b: &[u8]) -> (r: bool)
    ensures
        r == valid_utf8(b@),
{
    std::str::from_utf8(b).is_ok()
}

fn push_lower_hex(out: &mut Vec<u8>, n: u64)
    ensures
        final(out)@ == old(out)@ + lower_hex(n as nat),
    decreases n,
{
    if n >= 16 {
        push_lower_hex(out, n / 16);
    }
    let d = n % 16;
    let c: u8 = if d < 10 {
        0x30 + d as u8
    } else {
        0x61 + (d - 10) as u8
    };
    out.push(c);
    assert(final(out)@ =~= old(out)@ + lower_hex(n as nat));
}

fn find_byte(b: &[u8], c: u8) -> (r: Option<usize>)
    ensures
        match r {
            Some(p) => first_index(b@, c, 0) == Some(p as int),
            None => first_index(b@, c, 0) is None,
        },
{
    let mut i: usize = 0;
    while i < b.len()
        invariant
            i <= b@.len(),
            first_index(b@, c, 0) == first_index(b@, c, i as int),
        decreases b@.len() - i,
    {
        if b[i] == c {
            return Some(i);
        }
        i = i + 1;
    }
    None
}

/// The entry name after its payload becomes `size` bytes long.
pub fn resize_name(name: &[u8], size: u64) -> (r: Vec<u8>)
    ensures
        r@ == resized_name(name@, size),
{
    if !is_utf8(name) {
        return Vec::new();
    }
    match find_byte(name, AT_SIGN_BYTE) {
        None => slice_to_vec(name),
        Some(p) => {
            proof {
                lemma_first_index_props(name@, AT_SIGN_BYTE, 0);
            }
            let mut v = slice_to_vec(slice_subrange(name, 0, p));
            v.push(AT_SIGN_BYTE);
            push_lower_hex(&mut v, size);
            assert(v@ =~= resized_name(name@, size));
            v
        },
    }
}

// ---------------------------------------------------------------------------
// The mutation
// ---------------------------------------------------------------------------

/// Size of the external header for an entry type.
pub open spec fn external_header_size(entry_type: u32) -> Option<u32> {
    if entry_type == 0 {
        Some(0x38)
    } else if entry_type == 1 || entry_type == 4 {
        Some(0x48)
    } else if entry_type == 8 {
        Some(0x58)
    } else if entry_type == 12 {
        Some(0x68)
    } else {
        None
    }
}

/// Flags after the entry is made external and uncompressed.
pub open spec fn patched_flags(x: u32) -> u32 {
    with_flag(
        with_flag(with_flag(with_flag(x, EXTERNAL_BIT, true), INTERNAL_BIT, false), ZLIB_BIT, false),
        LZ4_BIT,
        false,
    )
}

/// The entry after its payload becomes `size` bytes: new file size, resized
/// name, and `entry_size` / `string_size` following the name.
pub open spec fn resized_entry(e: EntryView, size: u64) -> EntryView {
    let n = resized_name(e.name, size);
    EntryView {
        file_size: size,
        entry_size: (e.entry_size - e.string_size + n.len()) as u32,
        string_size: n.len() as u32,
        name: n,
        ..e
    }
}

/// What `set_external_file` needs: the new sizes fit in 32 bits.
pub open spec fn resize_fits(e: EntryView, size: u64) -> bool {
    &&& e.string_size <= e.entry_size
    &&& e.entry_size - e.string_size + resized_name(e.name, size).len() <= u32::MAX
}

pub open spec fn is_idrk(payload: Seq<u8>) -> bool {
    payload.len() >= 4 && payload.subrange(0, 4) == IDRK_SIGNATURE@
}

/// The header put in front of a payload of `len` bytes: the record with no name,
/// no flags, `file_size == len`, `string_size == len` and
/// `entry_size == hs + len`.
pub open spec fn external_header(e: EntryView, len: nat, hs: u32) -> EntryView {
    EntryView {
        entry_size: (hs + len) as u32,
        file_size: len as u64,
        string_size: len as u32,
        flags: 0,
        name: Seq::empty(),
        ..e
    }
}

/// The external file for the (already resized) entry `e` and a payload: the
/// header of the type's size, its alignment padding, then the payload.
pub open spec fn external_file(e: EntryView, payload: Seq<u8>) -> Result<Seq<u8>, EntryError> {
    if is_idrk(payload) {
        Err(EntryError::AlreadyPatched)
    } else {
        match external_header_size(e.entry_type) {
            None => Err(EntryError::UnknownEntryType(e.entry_type)),
            Some(hs) => Ok(
                append_aligned(Seq::empty(), entry_bytes(external_header(e, payload.len(), hs)))
                    + payload,
            ),
        }
    }
}

pub open spec fn payload_fits(e: EntryView, payload: Seq<u8>) -> bool {
    &&& payload.len() + 0x68 <= u32::MAX
    &&& ENTRY_FIXED_SIZE + e.unk_content.len() + 3 + payload.len() <= usize::MAX
}

fn is_idrk_payload(payload: &[u8]) -> (r: bool)
    ensures
        r == is_idrk(payload@),
{
    if payload.len() < 4 {
        return false;
    }
    let r = payload[0] == 0x49 && payload[1] == 0x44 && payload[2] == 0x52 && payload[3] == 0x4b;
    assert(r == (payload@.subrange(0, 4) =~= IDRK_SIGNATURE@));
    r
}

fn header_size_for(entry_type: u32) -> (r: Option<u32>)
    ensures
        r == external_header_size(entry_type),
{
    if entry_type == 0 {
        Some(0x38)
    } else if entry_type == 1 || entry_type == 4 {
        Some(0x48)
    } else if entry_type == 8 {
        Some(0x58)
    } else if entry_type == 12 {
        Some(0x68)
    } else {
        None
    }
}

impl RdbEntry {
    /// Marks the entry as stored in an external file.
    pub fn make_external(&mut self)
        ensures
            final(self)@ == (EntryView {
                flags: with_flag(with_flag(old(self)@.flags, EXTERNAL_BIT, true), INTERNAL_BIT, false),
                ..old(self)@
            }),
    {
        self.flags.set_external(true);
        self.flags.set_internal(false);
    }

    /// Marks the entry as not compressed.
    pub fn make_uncompressed(&mut self)
        ensures
            final(self)@ == (EntryView {
                flags: with_flag(with_flag(old(self)@.flags, ZLIB_BIT, false), LZ4_BIT, false),
                ..old(self)@
            }),
    {
        self.flags.set_zlib_compressed(false);
        self.flags.set_lz4_compressed(false);
    }

    /// The entry name bytes.
    pub fn get_name(&self) -> (r: &[u8])
        ensures
            r@ == self.name@,
    {
        self.name.as_slice()
    }

    /// Points the entry at a replacement payload: the file size becomes the
    /// payload's length, a `@size` marker in the name is rewritten, and the
    /// declared sizes follow the name. Returns the external file to write: the
    /// entry's header for its type followed by the payload; or `AlreadyPatched`
    /// when the payload already starts with `IDRK`; or `UnknownEntryType`. When
    /// the new sizes do not fit their fields the entry is left as it is and
    /// `TooLarge` comes back.
    pub fn set_external_file(&mut self, payload: &[u8]) -> (r: Result<Vec<u8>, EntryError>)
        ensures
            !(resize_fits(old(self)@, payload@.len() as u64) && payload_fits(old(self)@, payload@))
                ==> r == Err::<Vec<u8>, EntryError>(EntryError::TooLarge) && final(self)@ == old(
                self,
            )@,
            resize_fits(old(self)@, payload@.len() as u64) && payload_fits(old(self)@, payload@)
                ==> {
                &&& final(self)@ == resized_entry(old(self)@, payload@.len() as u64)
                &&& match (r, external_file(final(self)@, payload@)) {
                    (Ok(x), Ok(y)) => x@ == y,
                    (Err(x), Err(y)) => x == y,
                    _ => false,
                }
            },
    {
        let plen = payload.len();
        let size = plen as u64;
        let name = resize_name(self.name.as_slice(), size);
        let ulen = self.unk_content.len();
        if self.entry_size < self.string_size || name.len() as u64 > 0xffff_ffff - (
        self.entry_size - self.string_size) as u64 || plen > 0xffff_ffff - 0x68 || ulen > usize::MAX
            - 0x33 || plen > usize::MAX - 0x33 - ulen {
            return Err(EntryError::TooLarge);
        }
        self.file_size = size;
        self.entry_size = self.entry_size - self.string_size + name.len() as u32;
        self.string_size = name.len() as u32;
        self.name = name;
        if is_idrk_payload(payload) {
            return Err(EntryError::AlreadyPatched);
        }
        let hs = match header_size_for(self.entry_type) {
            Some(hs) => hs,
            None => return Err(EntryError::UnknownEntryType(self.entry_type)),
        };
        let len = plen as u32;
        let ext = RdbEntry {
            magic: self.magic,
            version: self.version,
            entry_size: hs + len,
            unk: self.unk,
            string_size: len,
            unk2: self.unk2,
            file_size: size,
            entry_type: self.entry_type,
            file_ktid: self.file_ktid,
            type_info_ktid: self.type_info_ktid,
            flags: RdbFlags::new(),
            unk_content: slice_to_vec(self.unk_content.as_slice()),
            name: Vec::new(),
        };
        assert(ext@ == external_header(self@, payload@.len(), hs));
        let mut out: Vec<u8> = Vec::new();
        ext.write_to(&mut out);
        push_all(&mut out, payload);
        Ok(out)
    }

    /// Makes the entry external and uncompressed, then points it at the payload
    /// (see `set_external_file`).
    pub fn apply_replacement(&mut self, payload: &[u8]) -> (r: Result<Vec<u8>, EntryError>)
        ensures
            !(resize_fits(old(self)@, payload@.len() as u64) && payload_fits(old(self)@, payload@))
                ==> r == Err::<Vec<u8>, EntryError>(EntryError::TooLarge) && final(self)@ == (
            EntryView { flags: patched_flags(old(self)@.flags), ..old(self)@ }),
            resize_fits(old(self)@, payload@.len() as u64) && payload_fits(old(self)@, payload@)
                ==> {
                &&& final(self)@ == replaced_entry(old(self)@, payload@.len() as u64)
                &&& match (r, external_file(final(self)@, payload@)) {
                    (Ok(x), Ok(y)) => x@ == y,
                    (Err(x), Err(y)) => x == y,
                    _ => false,
                }
            },
    {
        self.make_external();
        self.make_uncompressed();
        self.set_external_file(payload)
    }
}

// ---------------------------------------------------------------------------
// Laws
// ---------------------------------------------------------------------------

pub open spec fn is_lower_hex_digit(c: u8) -> bool {
    (0x30 <= c <= 0x39) || (0x61 <= c <= 0x66)
}

pub open spec fn hex_digit_byte_value(c: u8) -> nat {
    if c <= 0x39 {
        (c - 0x30) as nat
    } else {
        (c - 0x61 + 10) as nat
    }
}

/// The number that a string of lower-case hex digit bytes denotes.
pub open spec fn hex_bytes_value(s: Seq<u8>) -> nat
    decreases s.len(),
{
    if s.len() == 0 {
        0
    } else {
        hex_bytes_value(s.drop_last()) * 16 + hex_digit_byte_value(s.last())
    }
}

/// `lower_hex(n)` is a non-empty string of lower-case hex digits that denotes `n`.
pub proof fn lemma_lower_hex(n: nat)
    ensures
        lower_hex(n).len() > 0,
        forall|k: int| 0 <= k < lower_hex(n).len() ==> is_lower_hex_digit(#[trigger] lower_hex(n)[k]),
        hex_bytes_value(lower_hex(n)) == n,
    decreases n,
{
    assert(hex_digit_byte_value(hex_digit_byte(n % 16)) == n % 16);
    if n < 16 {
        assert(n % 16 == n);
        assert(lower_hex(n).drop_last() =~= Seq::<u8>::empty());
        assert(hex_bytes_value(lower_hex(n)) == hex_bytes_value(Seq::<u8>::empty()) * 16
            + hex_digit_byte_value(hex_digit_byte(n)));
    } else {
        lemma_lower_hex(n / 16);
        let s = lower_hex(n);
        assert(s.drop_last() =~= lower_hex(n / 16));
        assert(n / 16 * 16 + n % 16 == n) by (nonlinear_arith);
        assert(s.last() == hex_digit_byte(n % 16));
        assert(hex_bytes_value(s) == hex_bytes_value(lower_hex(n / 16)) * 16 + n % 16);
        assert forall|k: int| 0 <= k < s.len() implies is_lower_hex_digit(#[trigger] s[k]) by {
            if k < s.len() - 1 {
                assert(s[k] == lower_hex(n / 16)[k]);
            }
        }
    }
}

proof fn lemma_first_index_some(b: Seq<u8>, c: u8, i: int, k: int)
    requires
        0 <= i <= k < b.len(),
        b[k] == c,
    ensures
        first_index(b, c, i) is Some,
    decreases k - i,
{
    if b[i] != c {
        lemma_first_index_some(b, c, i + 1, k);
    }
}

/// A UTF-8 name holding `@` becomes: the text before its first `@` (which holds
/// no `@`), then `@`, then the lower-case hexadecimal digits of the new size.
pub proof fn lemma_resized_name_shape(name: Seq<u8>, size: u64)
    requires
        valid_utf8(name),
        name.contains(AT_SIGN_BYTE),
    ensures
        ({
            let p = first_index(name, AT_SIGN_BYTE, 0).unwrap();
            let digits = lower_hex(size as nat);
            &&& resized_name(name, size) == name.subrange(0, p) + seq![AT_SIGN_BYTE] + digits
            &&& !name.subrange(0, p).contains(AT_SIGN_BYTE)
            &&& digits.len() > 0
            &&& forall|k: int| 0 <= k < digits.len() ==> is_lower_hex_digit(#[trigger] digits[k])
            &&& hex_bytes_value(digits) == size
        }),
{
    let k = choose|k: int| 0 <= k < name.len() && name[k] == AT_SIGN_BYTE;
    lemma_first_index_some(name, AT_SIGN_BYTE, 0, k);
    lemma_first_index_props(name, AT_SIGN_BYTE, 0);
    let p = first_index(name, AT_SIGN_BYTE, 0).unwrap();
    assert(!name.subrange(0, p).contains(AT_SIGN_BYTE)) by {
        if name.subrange(0, p).contains(AT_SIGN_BYTE) {
            let j = choose|j: int| 0 <= j < p && name.subrange(0, p)[j] == AT_SIGN_BYTE;
            assert(name[j] == AT_SIGN_BYTE);
        }
    }
    lemma_lower_hex(size as nat);
}

/// The flag fixup sets `external`, clears `internal` and both compression bits,
/// and keeps every other bit.
pub proof fn lemma_patched_flags(x: u32)
    by (bit_vector)
    ensures
        flag_external(patched_flags(x)),
        !flag_internal(patched_flags(x)),
        !flag_zlib(patched_flags(x)),
        !flag_lz4(patched_flags(x)),
        flag_unk(patched_flags(x)) == flag_unk(x),
        flag_unk2(patched_flags(x)) == flag_unk2(x),
        flag_unk3(patched_flags(x)) == flag_unk3(x),
{
}

/// The entry as `apply_replacement` leaves it for a payload of `size` bytes.
pub open spec fn replaced_entry(e: EntryView, size: u64) -> EntryView {
    EntryView { flags: patched_flags(e.flags), ..resized_entry(e, size) }
}

/// Replacing the `i`-th entry of a well-formed RDB keeps the RDB well formed;
/// its bytes parse back to it; and the entry read back is external, not
/// internal, not compressed, with all other flag bits as before.
pub proof fn lemma_replaced_rdb_reparses(r: RdbView, i: int, size: u64)
    requires
        rdb_wf(r),
        0 <= i < r.entries.len(),
        resize_fits(r.entries[i], size),
    ensures
        ({
            let r2 = RdbView {
                entries: r.entries.update(i, replaced_entry(r.entries[i], size)),
                ..r
            };
            let f = parse_rdb(rdb_bytes(r2))->Ok_0.entries[i].flags;
            &&& rdb_wf(r2)
            &&& parse_rdb(rdb_bytes(r2)) == Ok::<RdbView, ParseError>(r2)
            &&& flag_external(f) && !flag_internal(f) && !flag_zlib(f) && !flag_lz4(f)
            &&& flag_unk(f) == flag_unk(r.entries[i].flags)
            &&& flag_unk2(f) == flag_unk2(r.entries[i].flags)
            &&& flag_unk3(f) == flag_unk3(r.entries[i].flags)
        }),
{
    let e = r.entries[i];
    let p = replaced_entry(e, size);
    let r2 = RdbView { entries: r.entries.update(i, p), ..r };
    assert(entry_wf(e));
    assert(entry_wf(p));
    assert forall|k: int| 0 <= k < r2.entries.len() implies entry_wf(#[trigger] r2.entries[k]) by {
        if k != i {
            assert(r2.entries[k] == r.entries[k]);
        }
    }
    assert(rdb_wf(r2));
    lemma_parse_of_write(r2);
    lemma_patched_flags(e.flags);
}

/// The external file is the header block (the record of `0x30 + len(unk_content)`
/// bytes, padded to four) followed by the payload verbatim; in the header,
/// `entry_size` is the type's header size plus the payload length, `file_size`
/// is the payload length, and the flags are clear.
pub proof fn lemma_external_file_layout(e: EntryView, payload: Seq<u8>)
    requires
        external_file(e, payload) is Ok,
        payload_fits(e, payload),
    ensures
        ({
            let out = external_file(e, payload)->Ok_0;
            let hs = external_header_size(e.entry_type).unwrap();
            let h = align4(ENTRY_FIXED_SIZE + e.unk_content.len());
            &&& out.len() == h + payload.len()
            &&& out.subrange(h, out.len() as int) == payload
            &&& read_le32(out, 8) == hs + payload.len()
            &&& read_le64(out, 24) == payload.len()
            &&& read_le32(out, 44) == 0
        }),
{
    let out = external_file(e, payload)->Ok_0;
    let hs = external_header_size(e.entry_type).unwrap();
    let x = external_header(e, payload.len(), hs);
    let rec = entry_bytes(x);
    let blk = append_aligned(Seq::empty(), rec);
    assert(out == blk + payload);
    assert(rec.len() == ENTRY_FIXED_SIZE + e.unk_content.len());
    assert(out.subrange(blk.len() as int, out.len() as int) =~= payload);
    assert(out.subrange(8, 12) =~= le32(x.entry_size));
    assert(out.subrange(24, 32) =~= le64(x.file_size));
    assert(out.subrange(44, 48) =~= le32(0));
    lemma_read_le32_of(out, 8, x.entry_size);
    lemma_read_le64_of(out, 24, x.file_size);
    lemma_read_le32_of(out, 44, 0);
}

} // verus!
