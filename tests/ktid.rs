use rdb_merger::ktid::{ktid, ktid_hash, parse_hex_u32, KTID};

fn reference_hash(bytes: &[u8]) -> u32 {
    let mut iv: i32 = bytes[0] as i32 * 31;
    let mut key: i32 = 31;
    for &c in &bytes[1..] {
        iv = iv.wrapping_add(31i32.wrapping_mul(key.wrapping_mul(c as i8 as i32)));
        key = key.wrapping_mul(31);
    }
    iv as u32
}

#[test]
fn literal_form_is_parsed() {
    assert_eq!(ktid("0x1a2b3c4d").as_u32(), 0x1a2b_3c4d);
    assert_eq!(ktid("0xFFFFFFFF").as_u32(), 0xffff_ffff);
    assert_eq!(ktid("0x0").as_u32(), 0);
}

#[test]
fn two_byte_trace() {
    // iv0 = 0x41 * 31; then iv1 = iv0 + 31 * 31 * 0x42 = 0x07df + 0xf7c2
    assert_eq!(0x41 * 31, 0x07df);
    assert_eq!(31 * 31 * 0x42, 0xf7c2);
    assert_eq!(ktid_hash(b"AB", 31), 0x0000_ffa1);
    assert_eq!(ktid("AB").as_u32(), 0x0000_ffa1);
}

#[test]
fn single_byte() {
    assert_eq!(ktid_hash(b"A", 31), 0x41 * 31);
    assert_eq!(ktid_hash(&[0xff], 31), 0xff * 31);
}

#[test]
fn high_bytes_count_negatively() {
    let bytes = [0x41u8, 0x80, 0xff, 0x7f];
    assert_eq!(ktid_hash(&bytes, 31), reference_hash(&bytes));
    // 0x41*31 + 31*31*(-128) + 31*961*(-1) + 31*29791*127
    let expected = (0x41i64 * 31 - 31 * 31 * 128 - 31 * 961 + 31 * 29791 * 127) as i32 as u32;
    assert_eq!(ktid_hash(&bytes, 31), expected);
}

#[test]
fn long_names_wrap() {
    let name = "TypeInfo::Object::3D::Displayset::TrianglesEx";
    assert_eq!(ktid(name).as_u32(), reference_hash(name.as_bytes()));
}

#[test]
fn flipping_a_bit_changes_the_hash() {
    let base = b"R_g1m\xef\xbc\xbbfoo\xef\xbc\xbd".to_vec();
    let h = ktid_hash(&base, 31);
    for i in 0..base.len() {
        for bit in 0..8 {
            let mut b = base.clone();
            b[i] ^= 1 << bit;
            assert_ne!(ktid_hash(&b, 31), h, "byte {} bit {}", i, bit);
        }
    }
}

#[test]
fn path_form_uses_extension_and_stem() {
    let expected = ktid_hash("R_g1m［foo］".as_bytes(), 31);
    assert_eq!(KTID::new("foo.g1m").as_u32(), expected);
    assert_eq!(KTID::new("some/dir/foo.g1m"), KTID(expected));
    assert_eq!(
        KTID::new("a/foo.bar.g1t").as_u32(),
        ktid_hash("R_g1t［foo］".as_bytes(), 31)
    );
}

#[test]
fn hex_parsing() {
    assert_eq!(parse_hex_u32("1a2B"), Some(0x1a2b));
    assert_eq!(parse_hex_u32("+ff"), Some(0xff));
    assert_eq!(parse_hex_u32(""), None);
    assert_eq!(parse_hex_u32("+"), None);
    assert_eq!(parse_hex_u32("12g"), None);
    assert_eq!(parse_hex_u32("100000000"), None);
    assert_eq!(parse_hex_u32("00000000ffffffff"), Some(0xffff_ffff));
}

#[test]
fn test() {
    let id = ktid("TypeInfo::Object::Sound::Bank");
    assert_eq!(id, KTID(ktid_hash(b"TypeInfo::Object::Sound::Bank", 31)));
}
