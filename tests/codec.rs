use rdb_merger::codec::ParseError;
use rdb_merger::entry::{resize_name, EntryError};
use rdb_merger::ktid::KTID;
use rdb_merger::rdb::{Rdb, RdbEntry, RdbFlags, RdbHeader};

fn le32(out: &mut Vec<u8>, v: u32) {
    out.extend_from_slice(&v.to_le_bytes());
}

fn pad(out: &mut Vec<u8>) {
    while out.len() % 4 != 0 {
        out.push(0);
    }
}

struct E {
    entry_type: u32,
    ktid: u32,
    flags: u32,
    unk_content: Vec<u8>,
    name: Vec<u8>,
    file_size: u64,
}

fn entry_bytes(out: &mut Vec<u8>, e: &E) {
    le32(out, 0x4b52_4449);
    le32(out, 0x3030_3030);
    le32(out, 0x30 + e.unk_content.len() as u32 + e.name.len() as u32);
    le32(out, 7);
    le32(out, e.name.len() as u32);
    le32(out, 9);
    out.extend_from_slice(&e.file_size.to_le_bytes());
    le32(out, e.entry_type);
    le32(out, e.ktid);
    le32(out, 0xabcd_0001);
    le32(out, e.flags);
    out.extend_from_slice(&e.unk_content);
    out.extend_from_slice(&e.name);
    pad(out);
}

fn rdb_bytes(entries: &[E]) -> Vec<u8> {
    let mut out = Vec::new();
    let path = b"system";
    let header_len = 24 + path.len() + 1;
    let header_size = (header_len + 3) / 4 * 4;
    le32(&mut out, 0x5f42_4452);
    le32(&mut out, 0x3030_3030);
    le32(&mut out, header_size as u32);
    le32(&mut out, 3);
    le32(&mut out, entries.len() as u32);
    le32(&mut out, 0x1122_3344);
    out.extend_from_slice(path);
    out.push(0);
    pad(&mut out);
    for e in entries {
        entry_bytes(&mut out, e);
    }
    out
}

fn sample() -> Vec<u8> {
    rdb_bytes(&[
        E {
            entry_type: 8,
            ktid: 0x1234_5678,
            flags: 0x0031_00ff,
            unk_content: vec![1; 0x28],
            name: b"chr@2a0".to_vec(),
            file_size: 0x2a0,
        },
        E {
            entry_type: 0,
            ktid: 0xaaaa_0001,
            flags: 0x0002_0000,
            unk_content: vec![2; 5],
            name: b"plain".to_vec(),
            file_size: 3,
        },
    ])
}

#[test]
fn write_of_parse_gives_back_the_bytes() {
    let bytes = sample();
    let rdb = Rdb::from_bytes(&bytes).unwrap();
    assert_eq!(rdb.entries.len(), 2);
    assert_eq!(rdb.header.path, b"system".to_vec());
    assert_eq!(rdb.entries[1].name, b"plain".to_vec());
    assert_eq!(rdb.to_bytes(), bytes);
}

#[test]
fn parsed_entries_keep_their_sizes() {
    let rdb = Rdb::from_bytes(&sample()).unwrap();
    for e in &rdb.entries {
        assert_eq!(e.entry_size, 0x30 + e.unk_content.len() as u32 + e.string_size);
        assert_eq!(e.string_size as usize, e.name.len());
    }
    assert_eq!(rdb.entries[0].unk_content.len(), 0x28);
    assert_eq!(rdb.entries[0].file_size, 0x2a0);
}

#[test]
fn empty_rdb_round_trips() {
    let bytes = rdb_bytes(&[]);
    let rdb = Rdb::from_bytes(&bytes).unwrap();
    assert_eq!(rdb.entries.len(), 0);
    assert_eq!(rdb.to_bytes(), bytes);
}

#[test]
fn header_gap_is_written_as_zeros() {
    let mut bytes = sample();
    // header_size 36 instead of 32: four more bytes before the entries
    bytes[8] = 36;
    bytes.splice(32..32, [0u8; 4]);
    let rdb = Rdb::from_bytes(&bytes).unwrap();
    assert_eq!(rdb.header.header_size, 36);
    assert_eq!(rdb.to_bytes(), bytes);
}

#[test]
fn short_input_is_eof() {
    let bytes = sample();
    assert!(matches!(Rdb::from_bytes(&bytes[..10]), Err(ParseError::UnexpectedEof)));
    assert!(matches!(Rdb::from_bytes(&bytes[..bytes.len() - 8]), Err(ParseError::UnexpectedEof)));
}

#[test]
fn missing_path_terminator_is_eof() {
    let mut bytes = Vec::new();
    le32(&mut bytes, 1);
    le32(&mut bytes, 0x3030_3030);
    le32(&mut bytes, 32);
    le32(&mut bytes, 0);
    le32(&mut bytes, 0);
    le32(&mut bytes, 0);
    bytes.extend_from_slice(b"abc");
    assert!(matches!(Rdb::from_bytes(&bytes), Err(ParseError::UnexpectedEof)));
}

#[test]
fn wrong_versions_are_rejected() {
    let mut bytes = sample();
    bytes[4] = 0x31;
    assert!(matches!(Rdb::from_bytes(&bytes), Err(ParseError::BadVersion)));
    let mut bytes = sample();
    bytes[32 + 4] = 0x31;
    assert!(matches!(Rdb::from_bytes(&bytes), Err(ParseError::BadVersion)));
}

#[test]
fn impossible_sizes_are_rejected() {
    let mut bytes = sample();
    // entry_size below string_size + 0x30
    bytes[32 + 8..32 + 12].copy_from_slice(&0x20u32.to_le_bytes());
    assert!(matches!(Rdb::from_bytes(&bytes), Err(ParseError::BadSize)));
    let mut bytes = sample();
    // header_size inside the header
    bytes[8] = 8;
    assert!(matches!(Rdb::from_bytes(&bytes), Err(ParseError::BadSize)));
}

#[test]
fn flags_round_trip_bit_for_bit() {
    for x in [0u32, 1, 0xffff_ffff, 0x0031_00ff, 0x8000_0000, 0x0003_0000, 0x00c0_0000, 0xdead_beef] {
        let f = RdbFlags::from_u32(x);
        assert_eq!(f.to_u32(), x);
        let rebuilt = f.unk()
            | (f.external() as u32) << 16
            | (f.internal() as u32) << 17
            | f.unk2() << 18
            | (f.zlib_compressed() as u32) << 20
            | (f.lz4_compressed() as u32) << 21
            | f.unk3() << 22;
        assert_eq!(rebuilt, x);
    }
    let f = RdbFlags::from_u32(0x0031_00ff);
    assert_eq!(f.unk(), 0xff);
    assert!(f.external());
    assert!(!f.internal());
    assert!(f.zlib_compressed());
    assert!(f.lz4_compressed());
}

#[test]
fn flag_setters_touch_one_bit() {
    let mut f = RdbFlags::new();
    f.set_external(true);
    assert_eq!(f.to_u32(), 0x1_0000);
    f.set_internal(true);
    f.set_zlib_compressed(true);
    f.set_lz4_compressed(true);
    assert_eq!(f.to_u32(), 0x33_0000);
    f.set_internal(false);
    assert_eq!(f.to_u32(), 0x31_0000);
}

fn first_entry() -> RdbEntry {
    Rdb::from_bytes(&sample()).unwrap().entries.remove(0)
}

#[test]
fn replacement_sets_flags_and_keeps_other_bits() {
    let mut rdb = Rdb::from_bytes(&sample()).unwrap();
    let payload = vec![9u8; 0x1f];
    assert!(rdb.entries[0].apply_replacement(&payload).is_ok());
    let back = Rdb::from_bytes(&rdb.to_bytes()).unwrap();
    let f = back.entries[0].flags;
    assert!(f.external());
    assert!(!f.internal());
    assert!(!f.zlib_compressed());
    assert!(!f.lz4_compressed());
    assert_eq!(f.unk(), 0xff);
    assert_eq!(f.unk2(), 0);
    assert_eq!(f.unk3(), 0);
    assert_eq!(back.entries[1].name, b"plain".to_vec());
}

#[test]
fn size_marker_in_name_is_rewritten() {
    let mut e = first_entry();
    let payload = vec![0u8; 0x1f];
    e.apply_replacement(&payload).unwrap();
    assert_eq!(e.name, b"chr@1f".to_vec());
    assert_eq!(e.string_size, 6);
    assert_eq!(e.entry_size, 0x30 + 0x28 + 6);
    assert_eq!(e.file_size, 0x1f);
}

#[test]
fn name_without_marker_is_kept() {
    assert_eq!(resize_name(b"plain", 300), b"plain".to_vec());
    assert_eq!(resize_name(b"a@b@c", 4096), b"a@1000".to_vec());
    assert_eq!(resize_name(b"@", 0), b"@0".to_vec());
}

#[test]
fn name_that_is_not_utf8_becomes_empty() {
    assert_eq!(resize_name(&[0x61, 0xff, 0x40, 0x31], 5), Vec::<u8>::new());
}

#[test]
fn external_payload_has_header_then_payload() {
    let mut e = first_entry();
    let payload: Vec<u8> = (0..40u8).collect();
    let out = e.set_external_file(&payload).unwrap();
    // fixed part 0x30 and 0x28 bytes of tail: the type 8 header size 0x58
    assert_eq!(out.len(), 0x58 + payload.len());
    assert_eq!(&out[0x58..], &payload[..]);
    assert_eq!(u32::from_le_bytes(out[8..12].try_into().unwrap()), 0x58 + 40);
    assert_eq!(u64::from_le_bytes(out[24..32].try_into().unwrap()), 40);
    assert_eq!(u32::from_le_bytes(out[16..20].try_into().unwrap()), 40);
    assert_eq!(u32::from_le_bytes(out[44..48].try_into().unwrap()), 0);
    assert_eq!(&out[0..4], b"IDRK");
}

#[test]
fn idrk_payload_is_already_patched() {
    let mut e = first_entry();
    let payload = b"IDRK0000rest".to_vec();
    assert_eq!(e.set_external_file(&payload), Err(EntryError::AlreadyPatched));
    assert_eq!(e.file_size, payload.len() as u64);
}

#[test]
fn unknown_entry_type_is_reported() {
    let mut e = first_entry();
    e.entry_type = 5;
    assert_eq!(e.set_external_file(&[1, 2, 3]), Err(EntryError::UnknownEntryType(5)));
}

#[test]
fn header_sizes_per_type() {
    for (t, hs) in [(0u32, 0x38u32), (1, 0x48), (4, 0x48), (8, 0x58), (12, 0x68)] {
        let mut e = first_entry();
        e.entry_type = t;
        let out = e.set_external_file(&[7u8; 10]).unwrap();
        assert_eq!(u32::from_le_bytes(out[8..12].try_into().unwrap()), hs + 10);
    }
}

#[test]
fn header_parse_alone() {
    let bytes = sample();
    let h = RdbHeader::parse(&bytes).unwrap();
    assert_eq!(h.file_count, 2);
    assert_eq!(h.ktid, 0x1122_3344);
    let e = RdbEntry::parse_at(&bytes, 32).unwrap();
    assert_eq!(e.file_ktid, 0x1234_5678);
}

#[test]
fn patch_texternal() {
    let mut rdb = Rdb::from_bytes(&sample()).unwrap();
    let e = &mut rdb.entries[1];
    e.make_external();
    e.make_uncompressed();
    assert!(e.flags.external());
    assert!(!e.flags.internal());
    let out = e.set_external_file(b"xyz").unwrap();
    assert_eq!(out.len(), 0x30 + 8 + 3);
    assert_eq!(&out[out.len() - 3..], b"xyz");
}

#[test]
fn entries_found_by_identifier() {
    let mut rdb = Rdb::from_bytes(&sample()).unwrap();
    assert_eq!(rdb.get_entry_by_ktid(&KTID(0xaaaa_0001)).unwrap().name, b"plain".to_vec());
    assert!(rdb.get_entry_by_ktid(&KTID(0x0bad_0bad)).is_none());
    assert_eq!(rdb.find_entry(0x1234_5678), Some(0));
    let e = rdb.get_entry_by_ktid_mut(KTID(0xaaaa_0001)).unwrap();
    e.make_external();
    assert!(rdb.entries[1].flags.external());
    assert!(!rdb.entries[1].flags.internal());
    assert!(rdb.get_entry_by_ktid_mut(KTID(7)).is_none());
}
