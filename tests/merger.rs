use rdb_merger::config::AocConfig;
use rdb_merger::emulator::{is_emulator_dir, is_ryu_dir, is_yuzu_dir};
use rdb_merger::merger::{AocHash, ModDir, ModMerger};
use rdb_merger::patch::{patch_rdb_entries, PatchOutcome};
use rdb_merger::paths::{normalize_path, Pathlib};
use rdb_merger::rdb::Rdb;

fn le32(out: &mut Vec<u8>, v: u32) {
    out.extend_from_slice(&v.to_le_bytes());
}

/// An RDB whose entries have the given identifiers, type 0 and 5 tail bytes.
fn table(ktids: &[u32]) -> Vec<u8> {
    let mut out = Vec::new();
    le32(&mut out, 0x5f42_4452);
    le32(&mut out, 0x3030_3030);
    le32(&mut out, 32);
    le32(&mut out, 0);
    le32(&mut out, ktids.len() as u32);
    le32(&mut out, 0);
    out.extend_from_slice(b"SomeTab");
    out.push(0);
    for &k in ktids {
        le32(&mut out, 0x4b52_4449);
        le32(&mut out, 0x3030_3030);
        le32(&mut out, 0x30 + 5 + 4);
        le32(&mut out, 0);
        le32(&mut out, 4);
        le32(&mut out, 0);
        out.extend_from_slice(&100u64.to_le_bytes());
        le32(&mut out, 0);
        le32(&mut out, k);
        le32(&mut out, 0);
        le32(&mut out, 0x0010_0000 | 0x0002_0000);
        out.extend_from_slice(&[0u8; 5]);
        out.extend_from_slice(b"n@64");
        while out.len() % 4 != 0 {
            out.push(0);
        }
    }
    out
}

fn config() -> AocConfig {
    AocConfig::from_parts(
        "/game/romfs".to_string(),
        vec![
            ("SomeTable.rdb".to_string(), vec![0x1234_5678, 0xaaaa_0001]),
            ("Other.rdb".to_string(), vec![0x0000_0042]),
        ],
    )
}

fn merger_with(mods: &[&str]) -> ModMerger {
    let mut m = ModMerger::new("/work", config());
    for p in mods {
        m.add_mod_dir(p);
    }
    m.sort_mod_dirs();
    m
}

#[test]
fn empty_working_directory() {
    let m = merger_with(&[]);
    assert!(m.mods_dirs.is_empty());
    assert!(m.aoc_hashes.is_empty());
    assert_eq!(m.root_dir.path, "/work/000_AOC_MERGED_MODS");
    assert_eq!(m.root_dir.data_path, "/work/000_AOC_MERGED_MODS/romfs/asset/data");
    assert_eq!(m.root_dir.patch_path, "/work/000_AOC_MERGED_MODS/romfs/asset/patch");
    assert_eq!(
        m.root_dir.add_paths,
        vec![
            "/work/000_AOC_MERGED_MODS/exefs".to_string(),
            "/work/000_AOC_MERGED_MODS/romfs/movie_logo".to_string()
        ]
    );
}

#[test]
fn single_mod_one_replacement() {
    let mut m = merger_with(&["/work/modA"]);
    let h = AocHash::new("/work/modA/romfs/asset/data/0x12345678.file", &m.config);
    assert_eq!(h.hash, "12345678");
    assert_eq!(h.rdb_name.as_deref(), Some("SomeTable.rdb"));
    assert!(m.add_aoc_hash(h));
    assert_eq!(m.aoc_hashes.len(), 1);
    let (name, bucket) = &m.aoc_hashes[0];
    assert_eq!(name, "SomeTable.rdb");
    let mut rdb = Rdb::from_bytes(&table(&[0xaaaa_0001, 0x1234_5678])).unwrap();
    let outcomes = patch_rdb_entries(&mut rdb, bucket, &vec![vec![5u8; 3]]);
    assert!(matches!(outcomes[0], PatchOutcome::Converted(_)));
    let back = Rdb::from_bytes(&rdb.to_bytes()).unwrap();
    let e = &back.entries[1];
    assert_eq!(e.file_ktid, 0x1234_5678);
    assert!(e.flags.external());
    assert!(!e.flags.internal());
    assert!(!e.flags.zlib_compressed());
    assert_eq!(e.name, b"n@3".to_vec());
    assert!(!back.entries[0].flags.external());
}

#[test]
fn last_mod_wins() {
    let mut m = merger_with(&["/work/modB", "/work/modA"]);
    assert_eq!(m.mods_dirs[0].path, "/work/modA");
    assert_eq!(m.mods_dirs[1].path, "/work/modB");
    // later mods first, as the merger walks them
    let files: Vec<(String, u8)> = m
        .mods_dirs
        .iter()
        .rev()
        .map(|d| {
            let byte = if d.path.ends_with("modB") { 0x02 } else { 0x01 };
            (format!("{}/romfs/asset/data/0xAAAA0001.file", d.path), byte)
        })
        .collect();
    let mut payloads = Vec::new();
    for (file, byte) in files {
        let h = AocHash::new(&file, &m.config);
        assert_eq!(h.hash, "aaaa0001");
        assert!(m.add_aoc_hash(h));
        payloads.push(vec![byte]);
    }
    let bucket = &m.aoc_hashes[0].1;
    assert_eq!(bucket.len(), 2);
    assert!(bucket[0].path.full_path.starts_with("/work/modB"));
    let mut rdb = Rdb::from_bytes(&table(&[0xaaaa_0001])).unwrap();
    let outcomes = patch_rdb_entries(&mut rdb, bucket, &payloads);
    match &outcomes[0] {
        PatchOutcome::Converted(b) => assert_eq!(*b.last().unwrap(), 0x02),
        other => panic!("unexpected {:?}", other),
    }
    assert!(matches!(outcomes[1], PatchOutcome::Duplicate));
}

#[test]
fn mods_are_ordered_case_insensitively() {
    let m = merger_with(&["/w/b", "/w/C", "/w/a"]);
    let paths: Vec<&str> = m.mods_dirs.iter().map(|d| d.path.as_str()).collect();
    assert_eq!(paths, vec!["/w/a", "/w/b", "/w/C"]);
}

#[test]
fn hidden_mod_is_skipped() {
    let m = merger_with(&[]);
    assert!(!m.is_valid_mod_dir("/work/#draft", true, true));
    assert!(m.is_valid_mod_dir("/work/draft", true, true));
    assert!(!m.is_valid_mod_dir("/work/000_AOC_MERGED_MODS", true, true));
    assert!(!m.is_valid_mod_dir("/work/notes.txt", false, false));
    assert!(!m.is_valid_mod_dir("/work/empty", true, false));
}

#[test]
fn unknown_hash_is_dropped() {
    let mut m = merger_with(&["/work/modA"]);
    let h = AocHash::new("/work/modA/romfs/asset/data/0xDEADBEEF.file", &m.config);
    assert_eq!(h.hash, "deadbeef");
    assert!(h.rdb_name.is_none());
    assert!(!h.is_valid());
    assert!(!m.add_aoc_hash(h));
    assert!(m.aoc_hashes.is_empty());
}

#[test]
fn already_patched_payload_is_copied() {
    let mut m = merger_with(&["/work/modA"]);
    let h = AocHash::new("/work/modA/romfs/asset/data/0x12345678.file", &m.config);
    assert!(m.add_aoc_hash(h));
    let mut rdb = Rdb::from_bytes(&table(&[0x1234_5678])).unwrap();
    let outcomes = patch_rdb_entries(&mut rdb, &m.aoc_hashes[0].1, &vec![b"IDRKpayload".to_vec()]);
    assert!(matches!(outcomes[0], PatchOutcome::CopyAsIs));
}

#[test]
fn entry_missing_from_rdb() {
    let mut m = merger_with(&["/work/modA"]);
    let h = AocHash::new("/work/modA/romfs/asset/data/0x12345678.file", &m.config);
    assert!(m.add_aoc_hash(h));
    let mut rdb = Rdb::from_bytes(&table(&[0x1111_1111])).unwrap();
    let outcomes = patch_rdb_entries(&mut rdb, &m.aoc_hashes[0].1, &vec![vec![1]]);
    assert!(matches!(outcomes[0], PatchOutcome::NotFound));
}

#[test]
fn buckets_group_by_rdb_in_order() {
    let mut m = merger_with(&["/work/modA"]);
    for f in ["0x12345678.file", "0x00000042.file", "0xaaaa0001.file"] {
        let h = AocHash::new(&format!("/work/modA/romfs/asset/data/{}", f), &m.config);
        assert!(m.add_aoc_hash(h));
    }
    assert_eq!(m.aoc_hashes.len(), 2);
    assert_eq!(m.aoc_hashes[0].0, "SomeTable.rdb");
    assert_eq!(m.aoc_hashes[0].1.len(), 2);
    assert_eq!(m.aoc_hashes[1].0, "Other.rdb");
}

#[test]
fn reverse_index_and_lookup() {
    let c = AocConfig::from_parts(
        "/r".to_string(),
        vec![("A.rdb".to_string(), vec![1, 2]), ("B.rdb".to_string(), vec![2, 3])],
    );
    assert_eq!(c.hashes_rev.get(&1).map(|s| s.as_str()), Some("A.rdb"));
    assert_eq!(c.hashes_rev.get(&2).map(|s| s.as_str()), Some("B.rdb"));
    assert_eq!(c.hashes_rev.len(), 3);
    let m = ModMerger::new("/w", c);
    let h = AocHash::new("/x/0x00000002.file", &m.config);
    assert_eq!(m.get_rdb_name(&h).as_deref(), Some("A.rdb"));
    let h = AocHash::new("/x/0x2.file", &m.config);
    assert_eq!(m.get_rdb_name(&h), None);
}

#[test]
fn rdb_paths() {
    let c = config();
    assert_eq!(c.get_path("asset/x"), "/game/romfs/asset/x");
    assert_eq!(c.get_rdb_path("SomeTable.RDB"), "/game/romfs/asset/SomeTable.RDB");
    assert_eq!(c.get_rdb_path("SomeTable"), "/game/romfs/asset/SomeTable.rdb");
}

#[test]
fn aoc_hash_forms() {
    let c = config();
    let h = AocHash::new("/d/0x00000042.FILE", &c);
    assert_eq!(h.hash, "00000042");
    assert_eq!(h.as_hex_str(), "0x00000042");
    assert_eq!(h.as_u32(), Some(0x42));
    assert!(h.is_valid());
    assert_eq!(h.rdb_name.as_deref(), Some("Other.rdb"));
    let h = AocHash::new("/d/0xABCDEF01.file", &c);
    assert_eq!(h.hash, "abcdef01");
}

#[test]
fn aux_dirs_pair_mod_and_output() {
    let m = merger_with(&["/work/modA"]);
    let pairs = m.aux_dirs(&m.mods_dirs[0]);
    assert_eq!(
        pairs,
        vec![
            ("/work/modA/exefs".to_string(), "/work/000_AOC_MERGED_MODS/exefs".to_string()),
            (
                "/work/modA/romfs/movie_logo".to_string(),
                "/work/000_AOC_MERGED_MODS/romfs/movie_logo".to_string()
            ),
        ]
    );
    let d = ModDir::new("/m", &vec!["exefs".to_string()]);
    assert_eq!(d.rdb_path, "/m/romfs/asset");
}

#[test]
fn path_parts() {
    let p = Pathlib::new("/a/b/foo.bar.g1t");
    assert_eq!(p.parent, "/a/b");
    assert_eq!(p.name, "foo.bar.g1t");
    assert_eq!(p.stem, "foo");
    assert_eq!(p.extension, "bar.g1t");
    assert_eq!(p.ext_last, "g1t");
    let p = Pathlib::new("/a/b/0x12.file");
    assert_eq!(p.extension, "file");
    assert_eq!(p.ext_last, "");
    let p = Pathlib::new("noext");
    assert_eq!(p.parent, "");
    assert_eq!(p.extension, "");
}

#[test]
fn long_path_prefix_is_removed() {
    assert_eq!(normalize_path("\\\\?\\C:\\games"), "C:\\games");
    assert_eq!(normalize_path("/plain"), "/plain");
}

#[test]
fn emulator_directories() {
    assert!(is_yuzu_dir("/home/u/yuzu/load/01002b00111a2000", true));
    assert!(!is_yuzu_dir("/home/u/yuzu/load/01002b00111a2000", false));
    assert!(!is_yuzu_dir("/home/u/yuzu/other/01002B00111A2000", true));
    assert!(is_ryu_dir("/c/Ryujinx/mods/contents/01002B00111A2000", true));
    assert!(!is_ryu_dir("/c/ryujinx/mods/contents/01002B00111A2000", true));
    assert_eq!(is_emulator_dir("/home/u/yuzu/load/01002B00111A2000", true), "Yuzu");
    assert_eq!(is_emulator_dir("/c/Ryujinx/a/b/01002B00111A2000", true), "Ryujinx");
    assert_eq!(is_emulator_dir("/c/mods", true), "");
}
