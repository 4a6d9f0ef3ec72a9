use vstd::prelude::*;
use vstd::string::*;
use vstd::utf8::encode_utf8;
use vstd::wrapping::i32_specs;

use crate::bytes::push_all;
use crate::paths::{last_extension_of, stem_of, Pathlib};

verus! {

/// A 32-bit asset identifier.
#[derive(Debug, PartialEq, Eq, Structural, Clone, Copy)]
pub struct KTID(pub u32);

// ---------------------------------------------------------------------------
// Hexadecimal text
// ---------------------------------------------------------------------------

/// Value of a single hexadecimal digit (either case).
pub open spec fn hex_digit_value(c: char) -> Option<nat> {
    if '0' <= c && c <= '9' {
        Some((c as nat - '0' as nat) as nat)
    } else if 'a' <= c && c <= 'f' {
        Some((c as nat - 'a' as nat + 10) as nat)
    } else if 'A' <= c && c <= 'F' {
        Some((c as nat - 'A' as nat + 10) as nat)
    } else {
        None
    }
}

pub open spec fn all_hex_digits(s: Seq<char>) -> bool {
    forall|i: int| 0 <= i < s.len() ==> (#[trigger] hex_digit_value(s[i])).is_some()
}

/// The number written by a string of hexadecimal digits, most significant first.
pub open spec fn hex_value(s: Seq<char>) -> nat
    decreases s.len(),
{
    if s.len() == 0 {
        0
    } else {
        hex_value(s.drop_last()) * 16 + hex_digit_value(s.last()).unwrap_or(0)
    }
}

/// The digits of a radix-16 integer literal: an optional leading `+`, then the digits.
pub open spec fn hex_body(s: Seq<char>) -> Seq<char> {
    if s.len() > 0 && s[0] == '+' {
        s.subrange(1, s.len() as int)
    } else {
        s
    }
}

/// The `u32` that `s` denotes in radix 16, if any: at least one hex digit after an
/// optional `+`, and a value below 2^32.
pub open spec fn hex_u32(s: Seq<char>) -> Option<u32> {
    let d = hex_body(s);
    if d.len() > 0 && all_hex_digits(d) && hex_value(d) <= u32::MAX {
        Some(hex_value(d) as u32)
    } else {
        None
    }
}

proof fn lemma_hex_value_prefix_le(s: Seq<char>, i: int)
    requires
        0 <= i <= s.len(),
    ensures
        hex_value(s.subrange(0, i)) <= hex_value(s),
    decreases s.len() - i,
{
    if i < s.len() {
        lemma_hex_value_prefix_le(s, i + 1);
        let p = s.subrange(0, i + 1);
        assert(p.drop_last() =~= s.subrange(0, i));
    } else {
        assert(s.subrange(0, i) =~= s);
    }
}

/// Parses a radix-16 `u32` the way integer parsing in radix 16 does: an optional `+`
/// followed by one or more digits of either case, with a value that fits in 32 bits.
pub fn parse_hex_u32(s: &str) -> (r: Option<u32>)
    ensures
        r == hex_u32(s@),
{
    let n = s.unicode_len();
    let mut start: usize = 0;
    if n > 0 && s.get_char(0) == '+' {
        start = 1;
    }
    let ghost d = hex_body(s@);
    assert(d =~= s@.subrange(start as int, n as int));
    if start >= n {
        return None;
    }
    let mut acc: u64 = 0;
    let mut i: usize = start;
    while i < n
        invariant
            start <= i <= n,
            n == s@.len(),
            d =~= s@.subrange(start as int, n as int),
            d == hex_body(s@),
            all_hex_digits(d.subrange(0, i - start)),
            acc == hex_value(d.subrange(0, i - start)),
            acc <= u32::MAX,
        decreases n - i,
    {
        let c = s.get_char(i);
        let v: u64 = if '0' <= c && c <= '9' {
            (c as u64) - ('0' as u64)
        } else if 'a' <= c && c <= 'f' {
            (c as u64) - ('a' as u64) + 10
        } else if 'A' <= c && c <= 'F' {
            (c as u64) - ('A' as u64) + 10
        } else {
            assert(d[i - start] == c);
            assert(hex_digit_value(d[i - start]).is_none());
            return None;
        };
        let ghost p = d.subrange(0, i - start + 1);
        assert(p.drop_last() =~= d.subrange(0, i - start));
        assert(p.last() == c);
        assert(hex_digit_value(c) == Some(v as nat));
        assert(hex_value(p) == hex_value(d.subrange(0, i - start)) * 16 + v);
        acc = acc * 16 + v;
        i = i + 1;
        if acc > 0xFFFF_FFFF {
            proof {
                lemma_hex_value_prefix_le(d, i - start);
            }
            return None;
        }
    }
    assert(d.subrange(0, i - start) =~= d);
    Some(acc as u32)
}

// ---------------------------------------------------------------------------
// The hash
// ---------------------------------------------------------------------------

/// Accumulator and key after the first `n` bytes (`n >= 1`): the first byte enters
/// unsigned times 31; each later byte enters sign-extended, scaled by 31 and by the
/// current key, which is then multiplied by 31. All arithmetic wraps at 32 bits.
pub open spec fn hash_state(bytes: Seq<u8>, key: i32, n: nat) -> (i32, i32)
    decreases n,
{
    if n <= 1 {
        ((bytes[0] as int * 31) as i32, key)
    } else {
        let prev = hash_state(bytes, key, (n - 1) as nat);
        let c = (bytes[n - 1] as i8) as i32;
        (
            i32_specs::wrapping_add(
                prev.0,
                i32_specs::wrapping_mul(31, i32_specs::wrapping_mul(prev.1, c)),
            ),
            i32_specs::wrapping_mul(prev.1, 31),
        )
    }
}

pub open spec fn ktid_hash_spec(bytes: Seq<u8>, key: i32) -> u32 {
    hash_state(bytes, key, bytes.len()).0 as u32
}

/// The 32-bit hash of a non-empty byte string with the given initial key.
pub fn ktid_hash(text: &[u8], key: i32) -> (r: u32)
    requires
        text@.len() >= 1,
    ensures
        r == ktid_hash_spec(text@, key),
{
    let n = text.len();
    let mut iv: i32 = (text[0] as i32) * 31;
    let mut k: i32 = key;
    let mut i: usize = 1;
    while i < n
        invariant
            1 <= i <= n,
            n == text@.len(),
            (iv, k) == hash_state(text@, key, i as nat),
        decreases n - i,
    {
        let c: i32 = (text[i] as i8) as i32;
        iv = iv.wrapping_add(31i32.wrapping_mul(k.wrapping_mul(c)));
        k = k.wrapping_mul(31);
        i = i + 1;
    }
    iv as u32
}

// ---------------------------------------------------------------------------
// Names
// ---------------------------------------------------------------------------

pub open spec fn starts_with_0x(s: Seq<char>) -> bool {
    s.len() >= 2 && s[0] == '0' && s[1] == 'x'
}

/// What `ktid` needs of its argument: a literal whose hex part parses, or a
/// non-empty name to hash.
pub open spec fn ktid_input_ok(s: &str) -> bool {
    if starts_with_0x(s@) {
        hex_u32(s@.subrange(2, s@.len() as int)).is_some()
    } else {
        s@.len() > 0
    }
}

/// The identifier a name denotes: the literal value of `0x...`, else the hash
/// of the name's UTF-8 bytes with key 31.
pub open spec fn ktid_spec(s: &str) -> u32 {
    if starts_with_0x(s@) {
        hex_u32(s@.subrange(2, s@.len() as int)).unwrap()
    } else {
        ktid_hash_spec(s.spec_bytes(), 31)
    }
}

fn has_0x_prefix(s: &str) -> (r: bool)
    ensures
        r == starts_with_0x(s@),
{
    let n = s.unicode_len();
    n >= 2 && s.get_char(0) == '0' && s.get_char(1) == 'x'
}

/// Identifier of a name: a `0x`-prefixed hexadecimal literal, or the hash of the name.
pub fn ktid(string: &str) -> (r: KTID)
    requires
        ktid_input_ok(string),
    ensures
        r.0 == ktid_spec(string),
{
    if has_0x_prefix(string) {
        let n = string.unicode_len();
        let rest = string.substring_char(2, n);
        let v = parse_hex_u32(rest);
        KTID(v.unwrap())
    } else {
        let bytes = string.as_bytes();
        proof {
            vstd::utf8::encode_utf8_first_scalar(string@);
        }
        KTID(ktid_hash(bytes, 31))
    }
}

/// The byte string whose hash identifies a file: `R_`, the file's last
/// extension, the full-width `［` (UTF-8 `EF BC BB`), the stem, and the
/// full-width `］` (UTF-8 `EF BC BD`).
pub open spec fn canonical_name_bytes(path: Seq<char>) -> Seq<u8> {
    seq![0x52u8, 0x5fu8] + encode_utf8(last_extension_of(path).unwrap()) + seq![
        0xefu8,
        0xbcu8,
        0xbbu8,
    ] + encode_utf8(stem_of(path)) + seq![0xefu8, 0xbcu8, 0xbdu8]
}

impl KTID {
    pub fn as_u32(&self) -> (r: u32)
        ensures
            r == self.0,
    {
        self.0
    }

    /// Identifier of a file path, from its extension and stem.
    pub fn new(path: &str) -> (r: KTID)
        requires
            last_extension_of(path@) is Some,
        ensures
            r.0 == ktid_hash_spec(canonical_name_bytes(path@), 31),
    {
        let ext = Pathlib::get_last_extension(path).unwrap();
        let stem = Pathlib::get_stem(path);
        let mut buf: Vec<u8> = Vec::new();
        buf.push(0x52);
        buf.push(0x5f);
        push_all(&mut buf, ext.as_str().as_bytes());
        buf.push(0xef);
        buf.push(0xbc);
        buf.push(0xbb);
        push_all(&mut buf, stem.as_str().as_bytes());
        buf.push(0xef);
        buf.push(0xbc);
        buf.push(0xbd);
        assert(buf@ =~= canonical_name_bytes(path@));
        KTID(ktid_hash(buf.as_slice(), 31))
    }
}

} // verus!
