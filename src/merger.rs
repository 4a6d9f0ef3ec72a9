use vstd::prelude::*;
use vstd::string::*;

use crate::config::{concat, copy_string, join, join_path, lower_of, lowercase, AocConfig};
use crate::ktid::{hex_u32, parse_hex_u32, starts_with_0x};
use crate::paths::{file_name_of, parent_of, stem_of, Pathlib};

verus! {

broadcast use vstd::std_specs::hash::group_hash_axioms;

/// Name of the merged output mod, inside the working directory.
pub open spec fn root_mod_name_spec() -> Seq<char> {
    seq!['0', '0', '0', '_', 'A', 'O', 'C', '_', 'M', 'E', 'R', 'G', 'E', 'D', '_', 'M', 'O', 'D', 'S']
}

// ---------------------------------------------------------------------------
// Mod directories
// ---------------------------------------------------------------------------

/// A mod root and the subpaths the merger reads or writes under it.
#[derive(Debug)]
pub struct ModDir {
    pub path: String,
    /// `romfs/asset`: where RDBs go.
    pub rdb_path: String,
    /// `romfs/asset/data`: replacement payloads.
    pub data_path: String,
    /// `romfs/asset/patch`.
    pub patch_path: String,
    /// The auxiliary trees mirrored verbatim.
    pub add_paths: Vec<String>,
}

impl ModDir {
    /// The mod rooted at `path`, with `add_paths` taken relative to it.
    pub fn new(path: &str, add_paths: &Vec<String>) -> (r: ModDir)
        ensures
            r.path@ == path@,
            r.rdb_path@ == join_path(path@, "romfs/asset"@),
            r.data_path@ == join_path(path@, "romfs/asset/data"@),
            r.patch_path@ == join_path(path@, "romfs/asset/patch"@),
            r.add_paths@.len() == add_paths@.len(),
            forall|i: int|
                0 <= i < add_paths@.len() ==> (#[trigger] r.add_paths@[i])@ == join_path(
                    path@,
                    add_paths@[i]@,
                ),
    {
        let mut adds: Vec<String> = Vec::new();
        let mut i: usize = 0;
        while i < add_paths.len()
            invariant
                i <= add_paths@.len(),
                adds@.len() == i,
                forall|k: int|
                    0 <= k < i ==> (#[trigger] adds@[k])@ == join_path(path@, add_paths@[k]@),
            decreases add_paths@.len() - i,
        {
            adds.push(join(path, add_paths[i].as_str()));
            i = i + 1;
        }
        ModDir {
            path: path.to_owned(),
            rdb_path: join(path, "romfs/asset"),
            data_path: join(path, "romfs/asset/data"),
            patch_path: join(path, "romfs/asset/patch"),
            add_paths: adds,
        }
    }
}

// ---------------------------------------------------------------------------
// Replacement files
// ---------------------------------------------------------------------------

/// `s` without one leading `0x`.
pub open spec fn strip_0x(s: Seq<char>) -> Seq<char> {
    if starts_with_0x(s) {
        s.subrange(2, s.len() as int)
    } else {
        s
    }
}

pub open spec fn is_lower_hex_char(c: char) -> bool {
    ('0' <= c && c <= '9') || ('a' <= c && c <= 'f')
}

/// The reverse index is keyed by eight lower-case hex digits; this is the
/// identifier a hash string is looked up as, if it has that shape.
pub open spec fn hash_key(s: Seq<char>) -> Option<u32> {
    if s.len() == 8 && forall|i: int| 0 <= i < 8 ==> is_lower_hex_char(#[trigger] s[i]) {
        hex_u32(s)
    } else {
        None
    }
}

/// The identifier a hash string stands for, as `ktid` reads its `0x` form.
pub open spec fn hash_value(s: Seq<char>) -> Option<u32> {
    hex_u32(strip_0x(s))
}

/// A replacement file: its path, the lower-case hash taken from its stem, and
/// the RDB that holds that hash, if the reverse index knows one.
#[derive(Debug)]
pub struct AocHash {
    pub path: Pathlib,
    pub hash: String,
    pub rdb_name: Option<String>,
}

pub open spec fn rdb_name_for(rev: Map<u32, String>, hash: Seq<char>) -> Option<Seq<char>> {
    match hash_key(hash) {
        Some(k) => if rev.contains_key(k) {
            Some(rev[k]@)
        } else {
            None
        },
        None => None,
    }
}

pub open spec fn opt_view(o: Option<String>) -> Option<Seq<char>> {
    match o {
        Some(s) => Some(s@),
        None => None,
    }
}

fn has_0x(s: &str) -> (r: bool)
    ensures
        r == starts_with_0x(s@),
{
    let n = s.unicode_len();
    n >= 2 && s.get_char(0) == '0' && s.get_char(1) == 'x'
}

fn strip_0x_exec(s: &str) -> (r: String)
    ensures
        r@ == strip_0x(s@),
{
    if has_0x(s) {
        let n = s.unicode_len();
        s.substring_char(2, n).to_owned()
    } else {
        s.to_owned()
    }
}

fn hash_key_exec(s: &str) -> (r: Option<u32>)
    ensures
        r == hash_key(s@),
{
    let n = s.unicode_len();
    if n != 8 {
        return None;
    }
    let mut i: usize = 0;
    while i < 8
        invariant
            i <= 8,
            n == s@.len(),
            n == 8,
            forall|k: int| 0 <= k < i ==> is_lower_hex_char(#[trigger] s@[k]),
        decreases 8 - i,
    {
        let c = s.get_char(i);
        if !(('0' <= c && c <= '9') || ('a' <= c && c <= 'f')) {
            return None;
        }
        i = i + 1;
    }
    parse_hex_u32(s)
}

impl AocHash {
    /// The replacement at `path`, given its stem in lower case: the hash is the
    /// lowered stem without a leading `0x`, and the RDB is what the reverse index
    /// gives for it.
    pub fn with_lowered_stem(path: &str, lowered_stem: &str, config: &AocConfig) -> (r: AocHash)
        ensures
            r.path.full_path@ == path@,
            r.path.stem@ == stem_of(path@),
            r.path.name@ == file_name_of(path@),
            r.path.parent@ == parent_of(path@),
            r.hash@ == strip_0x(lowered_stem@),
            opt_view(r.rdb_name) == rdb_name_for(config.hashes_rev@, r.hash@),
    {
        let p = Pathlib::new(path);
        let hash = strip_0x_exec(lowered_stem);
        let rdb_name = match hash_key_exec(hash.as_str()) {
            Some(k) => match config.hashes_rev.get(&k) {
                Some(n) => Some(copy_string(n)),
                None => None,
            },
            None => None,
        };
        AocHash { path: p, hash, rdb_name }
    }

    /// The replacement at `path`, with its hash from the lower-case stem.
    pub fn new(path: &str, config: &AocConfig) -> (r: AocHash)
        ensures
            r.path.full_path@ == path@,
            r.path.stem@ == stem_of(path@),
            r.hash@ == strip_0x(lower_of(stem_of(path@))),
            opt_view(r.rdb_name) == rdb_name_for(config.hashes_rev@, r.hash@),
    {
        let stem = Pathlib::get_stem(path);
        let lowered = lowercase(stem.as_str());
        AocHash::with_lowered_stem(path, lowered.as_str(), config)
    }

    /// The RDB is known and the hash reads as a 32-bit hexadecimal number.
    pub fn is_valid(&self) -> (r: bool)
        ensures
            r == (self.rdb_name is Some && hash_value(self.hash@) is Some),
    {
        if self.rdb_name.is_none() {
            return false;
        }
        let h = strip_0x_exec(self.hash.as_str());
        parse_hex_u32(h.as_str()).is_some()
    }

    /// The hash read as a hexadecimal number.
    pub fn as_u32(&self) -> (r: Option<u32>)
        ensures
            r == hex_u32(self.hash@),
    {
        parse_hex_u32(self.hash.as_str())
    }

    /// The hash with a `0x` prefix.
    pub fn as_hex_str(&self) -> (r: String)
        ensures
            starts_with_0x(self.hash@) ==> r@ == self.hash@,
            !starts_with_0x(self.hash@) ==> r@ == seq!['0', 'x'] + self.hash@,
    {
        if has_0x(self.hash.as_str()) {
            copy_string(&self.hash)
        } else {
            proof {
                reveal_strlit("0x");
            }
            concat("0x", self.hash.as_str())
        }
    }
}

// ---------------------------------------------------------------------------
// Ordering of mods
// ---------------------------------------------------------------------------

/// Lexicographic order on byte strings (a proper prefix comes first).
pub open spec fn bytes_lt(a: Seq<u8>, b: Seq<u8>) -> bool
    decreases a.len(),
{
    if a.len() == 0 {
        b.len() > 0
    } else if b.len() == 0 {
        false
    } else if a[0] != b[0] {
        a[0] < b[0]
    } else {
        bytes_lt(a.drop_first(), b.drop_first())
    }
}

proof fn lemma_bytes_lt_asym(a: Seq<u8>, b: Seq<u8>)
    ensures
        bytes_lt(a, b) ==> !bytes_lt(b, a),
    decreases a.len(),
{
    if a.len() > 0 && b.len() > 0 && a[0] == b[0] {
        lemma_bytes_lt_asym(a.drop_first(), b.drop_first());
    }
}

fn bytes_less(a: &[u8], b: &[u8]) -> (r: bool)
    ensures
        r == bytes_lt(a@, b@),
{
    let mut i: usize = 0;
    assert(a@.subrange(0, a@.len() as int) =~= a@);
    assert(b@.subrange(0, b@.len() as int) =~= b@);
    while i < a.len() && i < b.len() && a[i] == b[i]
        invariant
            i <= a@.len(),
            i <= b@.len(),
            bytes_lt(a@, b@) == bytes_lt(
                a@.subrange(i as int, a@.len() as int),
                b@.subrange(i as int, b@.len() as int),
            ),
        decreases a@.len() - i,
    {
        proof {
            let sa = a@.subrange(i as int, a@.len() as int);
            let sb = b@.subrange(i as int, b@.len() as int);
            assert(sa.drop_first() =~= a@.subrange(i + 1, a@.len() as int));
            assert(sb.drop_first() =~= b@.subrange(i + 1, b@.len() as int));
        }
        i = i + 1;
    }
    proof {
        assert(a@.subrange(0, a@.len() as int) =~= a@);
        assert(b@.subrange(0, b@.len() as int) =~= b@);
    }
    if i == a.len() {
        i < b.len()
    } else if i == b.len() {
        false
    } else {
        a[i] < b[i]
    }
}

/// Sort key of a mod: its path in lower case, as UTF-8 bytes.
pub open spec fn mod_key(m: ModDir) -> Seq<u8> {
    vstd::utf8::encode_utf8(lower_of(m.path@))
}

fn mod_key_exec(m: &ModDir) -> (r: Vec<u8>)
    ensures
        r@ == mod_key(*m),
{
    let l = lowercase(m.path.as_str());
    vstd::slice::slice_to_vec(l.as_str().as_bytes())
}

/// Each mod's key is not below the one before it.
pub open spec fn mods_sorted(ms: Seq<ModDir>) -> bool {
    forall|i: int| 0 <= i < ms.len() - 1 ==> !bytes_lt(mod_key(ms[i + 1]), #[trigger] mod_key(ms[i]))
}

// ---------------------------------------------------------------------------
// The merger
// ---------------------------------------------------------------------------

/// State of one merge: the configuration, the output mod, the mods found, and
/// the replacement files grouped by the RDB they target, in the order added.
pub struct ModMerger {
    pub config: AocConfig,
    pub root_mod_name: String,
    pub cwd_dir: String,
    pub root_dir: ModDir,
    pub mods_dirs: Vec<ModDir>,
    pub add_paths: Vec<String>,
    pub aoc_hashes: Vec<(String, Vec<AocHash>)>,
}

/// Index of the bucket for an RDB name.
pub open spec fn bucket_index(b: Seq<(String, Vec<AocHash>)>, name: Seq<char>) -> Option<int>
    decreases b.len(),
{
    if b.len() == 0 {
        None
    } else if b.last().0@ == name {
        Some(b.len() - 1)
    } else {
        bucket_index(b.drop_last(), name)
    }
}

/// No two buckets share a name.
pub open spec fn buckets_wf(b: Seq<(String, Vec<AocHash>)>) -> bool {
    forall|i: int, j: int| 0 <= i < j < b.len() ==> (#[trigger] b[i]).0@ != (#[trigger] b[j]).0@
}

proof fn lemma_bucket_index(b: Seq<(String, Vec<AocHash>)>, name: Seq<char>)
    ensures
        bucket_index(b, name) is Some ==> {
            let x = bucket_index(b, name).unwrap();
            0 <= x < b.len() && b[x].0@ == name
        },
        bucket_index(b, name) is None ==> forall|i: int| 0 <= i < b.len() ==> (#[trigger] b[i]).0@ != name,
    decreases b.len(),
{
    if b.len() > 0 && b.last().0@ != name {
        lemma_bucket_index(b.drop_last(), name);
        assert forall|i: int| 0 <= i < b.len() - 1 implies b[i] == b.drop_last()[i] by {}
    }
}

/// What `is_valid_mod_dir` accepts: a directory holding `romfs/asset/data`, not
/// the output mod, and not hidden by a leading `#`.
pub open spec fn is_mod_candidate(
    name: Seq<char>,
    root_name: Seq<char>,
    is_dir: bool,
    has_data_dir: bool,
) -> bool {
    &&& is_dir
    &&& has_data_dir
    &&& name != root_name
    &&& !(name.len() > 0 && name[0] == '#')
}

impl ModMerger {
    /// A merger working in `cwd_dir`, writing to `<cwd_dir>/000_AOC_MERGED_MODS`
    /// and mirroring `exefs` and `romfs/movie_logo`.
    pub fn new(cwd_dir: &str, config: AocConfig) -> (r: ModMerger)
        ensures
            r.root_mod_name@ == root_mod_name_spec(),
            r.cwd_dir@ == cwd_dir@,
            r.root_dir.path@ == join_path(cwd_dir@, root_mod_name_spec()),
            r.add_paths@.len() == 2,
            r.add_paths@[0]@ == "exefs"@,
            r.add_paths@[1]@ == "romfs/movie_logo"@,
            r.root_dir.add_paths@.len() == 2,
            r.mods_dirs@.len() == 0,
            r.aoc_hashes@.len() == 0,
            r.config == config,
    {
        proof {
            reveal_strlit("000_AOC_MERGED_MODS");
        }
        let root_mod_name = "000_AOC_MERGED_MODS".to_owned();
        assert(root_mod_name@ =~= root_mod_name_spec());
        let mut add_paths: Vec<String> = Vec::new();
        add_paths.push("exefs".to_owned());
        add_paths.push("romfs/movie_logo".to_owned());
        let root_path = join(cwd_dir, root_mod_name.as_str());
        let root_dir = ModDir::new(root_path.as_str(), &add_paths);
        ModMerger {
            config,
            root_mod_name,
            cwd_dir: cwd_dir.to_owned(),
            root_dir,
            mods_dirs: Vec::new(),
            add_paths,
            aoc_hashes: Vec::new(),
        }
    }

    /// Whether a child of the working directory is a mod to merge.
    pub fn is_valid_mod_dir(&self, path: &str, is_dir: bool, has_data_dir: bool) -> (r: bool)
        ensures
            r == is_mod_candidate(file_name_of(path@), self.root_mod_name@, is_dir, has_data_dir),
    {
        let name = Pathlib::get_name(path);
        if !is_dir || !has_data_dir {
            return false;
        }
        if name == self.root_mod_name {
            return false;
        }
        let n = name.as_str().unicode_len();
        !(n > 0 && name.as_str().get_char(0) == '#')
    }

    /// Records a mod found in the working directory.
    pub fn add_mod_dir(&mut self, path: &str)
        ensures
            final(self).mods_dirs@.len() == old(self).mods_dirs@.len() + 1,
            final(self).mods_dirs@.drop_last() == old(self).mods_dirs@,
            final(self).mods_dirs@.last().path@ == path@,
            final(self).mods_dirs@.last().add_paths@.len() == old(self).add_paths@.len(),
            final(self).aoc_hashes == old(self).aoc_hashes,
            final(self).config == old(self).config,
    {
        let m = ModDir::new(path, &self.add_paths);
        self.mods_dirs.push(m);
        assert(self.mods_dirs@.drop_last() =~= old(self).mods_dirs@);
    }

    /// Orders the mods by their lower-case path, ascending; mods with equal keys
    /// keep their order.
    pub fn sort_mod_dirs(&mut self)
        ensures
            final(self).mods_dirs@.to_multiset() == old(self).mods_dirs@.to_multiset(),
            final(self).mods_dirs@.len() == old(self).mods_dirs@.len(),
            mods_sorted(final(self).mods_dirs@),
            final(self).aoc_hashes == old(self).aoc_hashes,
            final(self).config == old(self).config,
    {
        broadcast use vstd::seq_lib::group_to_multiset_ensures;
        broadcast use vstd::multiset::group_multiset_axioms;

        let n = self.mods_dirs.len();
        let mut i: usize = 1;
        if n == 0 {
            return;
        }
        while i < n
            invariant
                1 <= i <= n,
                n == self.mods_dirs@.len(),
                self.mods_dirs@.to_multiset() == old(self).mods_dirs@.to_multiset(),
                mods_sorted(self.mods_dirs@.subrange(0, i as int)),
                self.aoc_hashes == old(self).aoc_hashes,
                self.config == old(self).config,
            decreases n - i,
        {
            let ghost before = self.mods_dirs@;
            let x = self.mods_dirs.remove(i);
            let kx = mod_key_exec(&x);
            let mut p: usize = 0;
            while p < i && !bytes_less(kx.as_slice(), mod_key_exec(&self.mods_dirs[p]).as_slice())
                invariant
                    p <= i,
                    i < n,
                    self.mods_dirs@ == before.remove(i as int),
                    before.len() == n,
                    kx@ == mod_key(x),
                    forall|q: int| 0 <= q < p ==> !bytes_lt(mod_key(x), #[trigger] mod_key(self.mods_dirs@[q])),
                decreases i - p,
            {
                p = p + 1;
            }
            proof {
                if p < i {
                    lemma_bytes_lt_asym(mod_key(x), mod_key(self.mods_dirs@[p as int]));
                }
            }
            let ghost mid = self.mods_dirs@;
            self.mods_dirs.insert(p, x);
            proof {
                let w = self.mods_dirs@;
                assert(w == mid.insert(p as int, x));
                assert(before.remove(i as int).insert(p as int, x).to_multiset() =~= before.to_multiset()) by {
                    vstd::seq_lib::to_multiset_remove(before, i as int);
                    vstd::seq_lib::to_multiset_insert(before.remove(i as int), p as int, x);
                    assert(before[i as int] == x);
                    vstd::seq_lib::to_multiset_contains(before, x);
                    assert(before.to_multiset().count(x) > 0);
                    assert(before.to_multiset().remove(x).insert(x) =~= before.to_multiset());
                }
                let ws = w.subrange(0, i + 1);
                let old_s = before.subrange(0, i as int);
                assert forall|q: int| 0 <= q < ws.len() - 1 implies !bytes_lt(
                    mod_key(ws[q + 1]),
                    #[trigger] mod_key(ws[q]),
                ) by {
                    if q + 1 < p {
                        assert(ws[q] == old_s[q] && ws[q + 1] == old_s[q + 1]);
                    } else if q + 1 == p {
                        assert(ws[q] == mid[q]);
                        assert(ws[q + 1] == x);
                    } else if q == p {
                        assert(ws[q] == x);
                        assert(ws[q + 1] == mid[q]);
                    } else {
                        assert(ws[q] == old_s[q - 1] && ws[q + 1] == old_s[q]);
                    }
                }
            }
            i = i + 1;
        }
        proof {
            assert(self.mods_dirs@.subrange(0, n as int) =~= self.mods_dirs@);
        }
    }
}

fn contains_u32(v: &Vec<u32>, k: u32) -> (r: bool)
    ensures
        r == v@.contains(k),
{
    let mut i: usize = 0;
    while i < v.len()
        invariant
            i <= v@.len(),
            forall|j: int| 0 <= j < i ==> v@[j] != k,
        decreases v@.len() - i,
    {
        if v[i] == k {
            return true;
        }
        i = i + 1;
    }
    false
}

pub open spec fn rdb_name_listing(h: Seq<(String, Vec<u32>)>, hash: Seq<char>) -> Option<Seq<char>> {
    match hash_key(hash) {
        Some(k) => crate::config::owner_first(h, k),
        None => None,
    }
}

impl ModMerger {
    /// The first RDB in the configuration's lists that holds the replacement's hash.
    pub fn get_rdb_name(&self, hash: &AocHash) -> (r: Option<String>)
        ensures
            opt_view(r) == rdb_name_listing(self.config.hashes@, hash.hash@),
    {
        let k = match hash_key_exec(hash.hash.as_str()) {
            Some(k) => k,
            None => return None,
        };
        let ghost h = self.config.hashes@;
        let mut i: usize = 0;
        assert(h.subrange(0, h.len() as int) =~= h);
        while i < self.config.hashes.len()
            invariant
                i <= h.len(),
                h == self.config.hashes@,
                hash_key(hash.hash@) == Some(k),
                crate::config::owner_first(h, k) == crate::config::owner_first(
                    h.subrange(i as int, h.len() as int),
                    k,
                ),
            decreases h.len() - i,
        {
            proof {
                let t = h.subrange(i as int, h.len() as int);
                assert(t.drop_first() =~= h.subrange(i + 1, h.len() as int));
                assert(t[0] == h[i as int]);
            }
            if contains_u32(&self.config.hashes[i].1, k) {
                assert(crate::config::owner_first(h.subrange(i as int, h.len() as int), k) == Some(
                    h[i as int].0@,
                ));
                let r = copy_string(&self.config.hashes[i].0);
                assert(r@ == h[i as int].0@);
                assert(opt_view(Some(r)) == rdb_name_listing(h, hash.hash@));
                return Some(r);
            }
            i = i + 1;
        }
        None
    }

    /// Adds a replacement to the bucket of its RDB, making the bucket if needed.
    /// A replacement with no known RDB is dropped and `false` comes back.
    pub fn add_aoc_hash(&mut self, h: AocHash) -> (r: bool)
        requires
            buckets_wf(old(self).aoc_hashes@),
        ensures
            buckets_wf(final(self).aoc_hashes@),
            final(self).config == old(self).config,
            final(self).mods_dirs == old(self).mods_dirs,
            r == h.rdb_name is Some,
            h.rdb_name is None ==> final(self).aoc_hashes == old(self).aoc_hashes,
            h.rdb_name is Some ==> {
                let name = h.rdb_name.unwrap()@;
                let old_b = old(self).aoc_hashes@;
                let new_b = final(self).aoc_hashes@;
                match bucket_index(old_b, name) {
                    Some(x) => {
                        &&& new_b.len() == old_b.len()
                        &&& new_b[x].0 == old_b[x].0
                        &&& new_b[x].1@ == old_b[x].1@.push(h)
                        &&& forall|j: int| 0 <= j < old_b.len() && j != x ==> new_b[j] == old_b[j]
                    },
                    None => {
                        &&& new_b.len() == old_b.len() + 1
                        &&& new_b.drop_last() == old_b
                        &&& new_b.last().0@ == name
                        &&& new_b.last().1@ == seq![h]
                    },
                }
            },
    {
        let ghost h0 = h;
        let name = match &h.rdb_name {
            Some(n) => copy_string(n),
            None => return false,
        };
        proof {
            lemma_bucket_index(self.aoc_hashes@, name@);
        }
        let ghost old_b = self.aoc_hashes@;
        let mut i: usize = self.aoc_hashes.len();
        assert(old_b.subrange(0, old_b.len() as int) =~= old_b);
        while i > 0
            invariant
                i <= old_b.len(),
                self.config == old(self).config,
                self.mods_dirs == old(self).mods_dirs,
                buckets_wf(old_b),
                h0.rdb_name is Some,
                h == h0,
                name@ == h0.rdb_name.unwrap()@,
                old_b == old(self).aoc_hashes@,
                old_b == self.aoc_hashes@,
                bucket_index(old_b, name@) == bucket_index(old_b.subrange(0, i as int), name@),
            decreases i,
        {
            proof {
                let t = old_b.subrange(0, i as int);
                assert(t.drop_last() =~= old_b.subrange(0, i - 1));
            }
            if self.aoc_hashes[i - 1].0 == name {
                let mut v: Vec<AocHash> = Vec::new();
                let mut entry = (name, v);
                self.aoc_hashes.set_and_swap(i - 1, &mut entry);
                assert(entry == old_b[i - 1]);
                let ghost mid = self.aoc_hashes@;
                entry.1.push(h);
                self.aoc_hashes.set_and_swap(i - 1, &mut entry);
                proof {
                    let x = (i - 1) as int;
                    let new_b = self.aoc_hashes@;
                    assert(new_b == mid.update(x, (old_b[x].0, new_b[x].1)));
                    assert(new_b.len() == old_b.len());
                    assert(new_b[x].0 == old_b[x].0);
                    assert(new_b[x].1@ == old_b[x].1@.push(h0));
                    assert(bucket_index(old(self).aoc_hashes@, h0.rdb_name.unwrap()@) == Some(x));
                    assert(forall|j: int| 0 <= j < old_b.len() && j != x ==> new_b[j] == old_b[j]);
                    assert(bucket_index(old_b, name@) == Some((i - 1) as int));
                    assert forall|a: int, b: int|
                        0 <= a < b < self.aoc_hashes@.len() implies (#[trigger] self.aoc_hashes@[a]).0@
                        != (#[trigger] self.aoc_hashes@[b]).0@ by {
                        assert(self.aoc_hashes@[a].0 == old_b[a].0);
                        assert(self.aoc_hashes@[b].0 == old_b[b].0);
                    }
                }
                return true;
            }
            i = i - 1;
        }
        proof {
            assert(old_b.subrange(0, 0) =~= Seq::<(String, Vec<AocHash>)>::empty());
        }
        let mut v: Vec<AocHash> = Vec::new();
        v.push(h);
        self.aoc_hashes.push((name, v));
        proof {
            assert(self.aoc_hashes@.drop_last() =~= old_b);
            assert forall|a: int, b: int|
                0 <= a < b < self.aoc_hashes@.len() implies (#[trigger] self.aoc_hashes@[a]).0@
                != (#[trigger] self.aoc_hashes@[b]).0@ by {
                if b == old_b.len() {
                    assert(self.aoc_hashes@[a] == old_b[a]);
                } else {
                    assert(self.aoc_hashes@[a] == old_b[a]);
                    assert(self.aoc_hashes@[b] == old_b[b]);
                }
            }
        }
        true
    }

    /// For each auxiliary tree: its directory in the mod and in the output.
    pub fn aux_dirs(&self, mod_dir: &ModDir) -> (r: Vec<(String, String)>)
        ensures
            r@.len() == self.add_paths@.len(),
            forall|i: int|
                0 <= i < r@.len() ==> (#[trigger] r@[i]).0@ == join_path(
                    mod_dir.path@,
                    self.add_paths@[i]@,
                ) && r@[i].1@ == join_path(self.root_dir.path@, self.add_paths@[i]@),
    {
        let mut out: Vec<(String, String)> = Vec::new();
        let mut i: usize = 0;
        while i < self.add_paths.len()
            invariant
                i <= self.add_paths@.len(),
                out@.len() == i,
                forall|k: int|
                    0 <= k < i ==> (#[trigger] out@[k]).0@ == join_path(
                        mod_dir.path@,
                        self.add_paths@[k]@,
                    ) && out@[k].1@ == join_path(self.root_dir.path@, self.add_paths@[k]@),
            decreases self.add_paths@.len() - i,
        {
            let a = self.add_paths[i].as_str();
            out.push((join(mod_dir.path.as_str(), a), join(self.root_dir.path.as_str(), a)));
            i = i + 1;
        }
        out
    }
}

} // verus!
