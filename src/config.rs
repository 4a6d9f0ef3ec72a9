use std::collections::HashMap;
use vstd::prelude::*;
use vstd::string::*;

verus! {

broadcast use vstd::std_specs::hash::group_hash_axioms;

/// What `str::to_lowercase` makes of a text.
pub uninterp spec fn lower_of(s: Seq<char>) -> Seq<char>;

/// Relies on `str::to_lowercase`: the result depends on the characters alone.
#[verifier::external_body]
pub(crate) fn lowercase(s: &str) -> (r: String)
    ensures
        r@ == lower_of(s@),
{
    s.to_lowercase()
}

/// Copies a string.
pub(crate) fn copy_string(s: &String) -> (r: String)
    ensures
        r@ == s@,
{
    s.as_str().to_owned()
}

/// `a` followed by `b`.
pub(crate) fn concat(a: &str, b: &str) -> (r: String)
    ensures
        r@ == a@ + b@,
{
    let mut s = a.to_owned();
    s.append(b);
    s
}

/// `b` appended to the path `a` with one `/` between them; an absolute `b`
/// replaces `a`.
pub open spec fn join_path(a: Seq<char>, b: Seq<char>) -> Seq<char> {
    if b.len() > 0 && b[0] == '/' {
        b
    } else if a.len() == 0 || a.last() == '/' {
        a + b
    } else {
        a + seq!['/'] + b
    }
}

pub fn join(a: &str, b: &str) -> (r: String)
    ensures
        r@ == join_path(a@, b@),
{
    let nb = b.unicode_len();
    if nb > 0 && b.get_char(0) == '/' {
        return b.to_owned();
    }
    let na = a.unicode_len();
    if na == 0 || a.get_char(na - 1) == '/' {
        return concat(a, b);
    }
    let mut s = a.to_owned();
    proof {
        reveal_strlit("/");
    }
    s.append("/");
    s.append(b);
    s
}

/// The name of the last RDB in `h` whose list holds `k`.
pub open spec fn owner_last(h: Seq<(String, Vec<u32>)>, k: u32) -> Option<Seq<char>>
    decreases h.len(),
{
    if h.len() == 0 {
        None
    } else if h.last().1@.contains(k) {
        Some(h.last().0@)
    } else {
        owner_last(h.drop_last(), k)
    }
}

/// The name of the first RDB in `h` whose list holds `k`.
pub open spec fn owner_first(h: Seq<(String, Vec<u32>)>, k: u32) -> Option<Seq<char>>
    decreases h.len(),
{
    if h.len() == 0 {
        None
    } else if h[0].1@.contains(k) {
        Some(h[0].0@)
    } else {
        owner_first(h.drop_first(), k)
    }
}

/// `m` maps each identifier to the last RDB of `h` that lists it, and holds no other key.
pub open spec fn is_reverse_index(m: Map<u32, String>, h: Seq<(String, Vec<u32>)>) -> bool {
    forall|k: u32|
        (#[trigger] m.contains_key(k) <==> owner_last(h, k) is Some) && (m.contains_key(k)
            ==> owner_last(h, k) == Some(m[k]@))
}

/// What the merger takes from the tool's configuration: the game's romfs root
/// and, for each RDB file name, the identifiers of the entries it holds.
pub struct AocConfig {
    pub romfs: String,
    pub hashes: Vec<(String, Vec<u32>)>,
    /// Identifier to the name of the RDB that holds it.
    pub hashes_rev: HashMap<u32, String>,
}

/// `s` ends with `.rdb`.
pub open spec fn ends_with_rdb(s: Seq<char>) -> bool {
    s.len() >= 4 && s.subrange(s.len() - 4, s.len() as int) == seq!['.', 'r', 'd', 'b']
}

/// The path of an RDB under the romfs, given the name and its lower-case form:
/// `asset/<name>`, with `.rdb` appended unless the lower-case name ends with it.
pub open spec fn rdb_path_of(romfs: Seq<char>, name: Seq<char>, lowered: Seq<char>) -> Seq<char> {
    let asset = seq!['a', 's', 's', 'e', 't', '/'];
    if ends_with_rdb(lowered) {
        join_path(romfs, asset + name)
    } else {
        join_path(romfs, asset + name + seq!['.', 'r', 'd', 'b'])
    }
}

fn has_rdb_suffix(s: &str) -> (r: bool)
    ensures
        r == ends_with_rdb(s@),
{
    let n = s.unicode_len();
    if n < 4 {
        return false;
    }
    let r = s.get_char(n - 4) == '.' && s.get_char(n - 3) == 'r' && s.get_char(n - 2) == 'd'
        && s.get_char(n - 1) == 'b';
    assert(r == (s@.subrange(n - 4, n as int) =~= seq!['.', 'r', 'd', 'b']));
    r
}

impl AocConfig {
    /// A configuration from the romfs root and the RDB lists, with its reverse index built.
    pub fn from_parts(romfs: String, hashes: Vec<(String, Vec<u32>)>) -> (r: AocConfig)
        ensures
            r.romfs@ == romfs@,
            r.hashes@ == hashes@,
            is_reverse_index(r.hashes_rev@, r.hashes@),
    {
        let mut c = AocConfig { romfs, hashes, hashes_rev: HashMap::new() };
        c.get_rev_hashes();
        c
    }

    /// Path of a file under the romfs root.
    pub fn get_path(&self, pack_local_path: &str) -> (r: String)
        ensures
            r@ == join_path(self.romfs@, pack_local_path@),
    {
        join(self.romfs.as_str(), pack_local_path)
    }

    /// Path of an RDB under the romfs, given its name and the name in lower case.
    pub fn rdb_path_with(&self, name: &str, lowered: &str) -> (r: String)
        ensures
            r@ == rdb_path_of(self.romfs@, name@, lowered@),
    {
        proof {
            reveal_strlit("asset/");
            reveal_strlit(".rdb");
        }
        let local = concat("asset/", name);
        if has_rdb_suffix(lowered) {
            self.get_path(local.as_str())
        } else {
            let local = concat(local.as_str(), ".rdb");
            self.get_path(local.as_str())
        }
    }

    /// Path of an RDB under the romfs: `asset/<name>`, adding `.rdb` unless the
    /// name already ends with it in any case.
    pub fn get_rdb_path(&self, name: &str) -> (r: String)
        ensures
            r@ == rdb_path_of(self.romfs@, name@, lower_of(name@)),
    {
        let lowered = lowercase(name);
        self.rdb_path_with(name, lowered.as_str())
    }

    /// Fills the reverse index from the RDB lists, if it is empty: each
    /// identifier maps to the last RDB that lists it.
    pub fn get_rev_hashes(&mut self)
        ensures
            final(self).romfs == old(self).romfs,
            final(self).hashes == old(self).hashes,
            old(self).hashes_rev@.is_empty() ==> is_reverse_index(
                final(self).hashes_rev@,
                final(self).hashes@,
            ),
            !old(self).hashes_rev@.is_empty() ==> final(self).hashes_rev@ == old(
                self,
            ).hashes_rev@,
    {
        if self.hashes_rev.is_empty() {
            let ghost h = self.hashes@;
            proof {
                assert(h.subrange(0, 0) =~= Seq::<(String, Vec<u32>)>::empty());
            }
            let mut i: usize = 0;
            while i < self.hashes.len()
                invariant
                    i <= h.len(),
                    h == self.hashes@,
                    self.romfs == old(self).romfs,
                    self.hashes == old(self).hashes,
                    is_reverse_index(self.hashes_rev@, h.subrange(0, i as int)),
                decreases h.len() - i,
            {
                let ghost before = self.hashes_rev@;
                let n = self.hashes[i].1.len();
                let mut j: usize = 0;
                while j < n
                    invariant
                        i < h.len(),
                        j <= n,
                        n == h[i as int].1@.len(),
                        h == self.hashes@,
                        self.romfs == old(self).romfs,
                        self.hashes == old(self).hashes,
                        is_reverse_index(before, h.subrange(0, i as int)),
                        forall|k: u32|
                            #![trigger self.hashes_rev@.contains_key(k)]
                            h[i as int].1@.subrange(0, j as int).contains(k) ==> (
                            self.hashes_rev@.contains_key(k) && self.hashes_rev@[k]@ == h[i as int].0@),
                        forall|k: u32|
                            #![trigger self.hashes_rev@.contains_key(k)]
                            !h[i as int].1@.subrange(0, j as int).contains(k) ==> (
                            self.hashes_rev@.contains_key(k) == before.contains_key(k) && (
                            before.contains_key(k) ==> self.hashes_rev@[k] == before[k])),
                    decreases n - j,
                {
                    let key = self.hashes[i].1[j];
                    let name = copy_string(&self.hashes[i].0);
                    self.hashes_rev.insert(key, name);
                    proof {
                        let s = h[i as int].1@;
                        assert forall|k: u32| s.subrange(0, j + 1).contains(k) <==> (
                        s.subrange(0, j as int).contains(k) || k == key) by {
                            if s.subrange(0, j + 1).contains(k) {
                                let x = choose|x: int|
                                    0 <= x < j + 1 && #[trigger] s.subrange(0, j + 1)[x] == k;
                                if x < j {
                                    assert(s.subrange(0, j as int)[x] == k);
                                }
                            }
                            if k == key {
                                assert(s.subrange(0, j + 1)[j as int] == k);
                            }
                            if s.subrange(0, j as int).contains(k) {
                                let x = choose|x: int|
                                    0 <= x < j && #[trigger] s.subrange(0, j as int)[x] == k;
                                assert(s.subrange(0, j + 1)[x] == k);
                            }
                        }
                    }
                    j = j + 1;
                }
                proof {
                    let hi = h.subrange(0, i + 1);
                    assert(hi.drop_last() =~= h.subrange(0, i as int));
                    assert(hi.last() == h[i as int]);
                    assert(h[i as int].1@.subrange(0, n as int) =~= h[i as int].1@);
                    assert forall|k: u32| #[trigger]
                        self.hashes_rev@.contains_key(k) <==> owner_last(hi, k) is Some by {}
                    assert forall|k: u32| #[trigger]
                        self.hashes_rev@.contains_key(k) implies owner_last(hi, k) == Some(
                        self.hashes_rev@[k]@,
                    ) by {}
                }
                i = i + 1;
            }
            proof {
                assert(h.subrange(0, h.len() as int) =~= h);
            }
        }
    }
}

} // verus!
