use vstd::prelude::*;
use vstd::string::*;

verus! {

// ---------------------------------------------------------------------------
// Text helpers
// ---------------------------------------------------------------------------

/// Index of the first `c` in `s`.
pub open spec fn first_char(s: Seq<char>, c: char) -> Option<int>
    decreases s.len(),
{
    if s.len() == 0 {
        None
    } else if s[0] == c {
        Some(0)
    } else {
        match first_char(s.drop_first(), c) {
            None => None,
            Some(i) => Some(i + 1),
        }
    }
}

/// Index of the last `c` in `s`.
pub open spec fn last_char(s: Seq<char>, c: char) -> Option<int>
    decreases s.len(),
{
    if s.len() == 0 {
        None
    } else if s.last() == c {
        Some(s.len() - 1)
    } else {
        last_char(s.drop_last(), c)
    }
}

/// Number of occurrences of `c` in `s`.
pub open spec fn count_char(s: Seq<char>, c: char) -> nat
    decreases s.len(),
{
    if s.len() == 0 {
        0
    } else {
        count_char(s.drop_last(), c) + if s.last() == c {
            1nat
        } else {
            0nat
        }
    }
}

proof fn lemma_first_char_prefix(s: Seq<char>, c: char, i: int)
    requires
        0 <= i <= s.len(),
        forall|k: int| 0 <= k < i ==> s[k] != c,
    ensures
        i < s.len() && s[i] == c ==> first_char(s, c) == Some(i),
        i == s.len() ==> first_char(s, c) is None,
    decreases i,
{
    if i > 0 && s.len() > 0 {
        lemma_first_char_prefix(s.drop_first(), c, i - 1);
    } else if s.len() > 0 && i == 0 {
    }
}

proof fn lemma_first_char_range(s: Seq<char>, c: char)
    ensures
        first_char(s, c) is Some ==> 0 <= first_char(s, c).unwrap() < s.len() && s[first_char(
            s,
            c,
        ).unwrap()] == c,
    decreases s.len(),
{
    if s.len() > 0 && s[0] != c {
        lemma_first_char_range(s.drop_first(), c);
    }
}

proof fn lemma_last_char_range(s: Seq<char>, c: char)
    ensures
        last_char(s, c) is Some ==> 0 <= last_char(s, c).unwrap() < s.len(),
    decreases s.len(),
{
    if s.len() > 0 && s.last() != c {
        lemma_last_char_range(s.drop_last(), c);
    }
}

/// Position of the first `c` in `s`.
pub fn find_char(s: &str, c: char) -> (r: Option<usize>)
    ensures
        match r {
            Some(i) => first_char(s@, c) == Some(i as int),
            None => first_char(s@, c) is None,
        },
{
    let n = s.unicode_len();
    let mut i: usize = 0;
    while i < n
        invariant
            i <= n,
            n == s@.len(),
            forall|k: int| 0 <= k < i ==> s@[k] != c,
        decreases n - i,
    {
        if s.get_char(i) == c {
            proof {
                lemma_first_char_prefix(s@, c, i as int);
            }
            return Some(i);
        }
        i = i + 1;
    }
    proof {
        lemma_first_char_prefix(s@, c, i as int);
    }
    None
}

proof fn lemma_last_char_suffix(s: Seq<char>, c: char, i: int)
    requires
        0 <= i <= s.len(),
        forall|k: int| i <= k < s.len() ==> s[k] != c,
    ensures
        last_char(s, c) == last_char(s.subrange(0, i), c),
    decreases s.len() - i,
{
    if i < s.len() {
        assert(s.drop_last() =~= s.subrange(0, s.len() - 1));
        lemma_last_char_suffix(s.drop_last(), c, i);
        assert(s.drop_last().subrange(0, i) =~= s.subrange(0, i));
    } else {
        assert(s.subrange(0, i) =~= s);
    }
}

/// Position of the last `c` in `s`.
pub fn rfind_char(s: &str, c: char) -> (r: Option<usize>)
    ensures
        match r {
            Some(i) => last_char(s@, c) == Some(i as int),
            None => last_char(s@, c) is None,
        },
{
    let n = s.unicode_len();
    let mut i: usize = n;
    while i > 0
        invariant
            i <= n,
            n == s@.len(),
            forall|k: int| i <= k < n ==> s@[k] != c,
        decreases i,
    {
        if s.get_char(i - 1) == c {
            proof {
                lemma_last_char_suffix(s@, c, i as int);
                assert(s@.subrange(0, i as int).last() == c);
            }
            return Some(i - 1);
        }
        i = i - 1;
    }
    proof {
        lemma_last_char_suffix(s@, c, 0);
        assert(s@.subrange(0, 0) =~= Seq::<char>::empty());
    }
    None
}

/// Number of `c` in `s`.
pub fn count_chars(s: &str, c: char) -> (r: usize)
    ensures
        r == count_char(s@, c),
{
    let n = s.unicode_len();
    let mut i: usize = 0;
    let mut k: usize = 0;
    while i < n
        invariant
            i <= n,
            n == s@.len(),
            k == count_char(s@.subrange(0, i as int), c),
            k <= i,
        decreases n - i,
    {
        assert(s@.subrange(0, i + 1).drop_last() =~= s@.subrange(0, i as int));
        if s.get_char(i) == c {
            k = k + 1;
        }
        i = i + 1;
    }
    assert(s@.subrange(0, n as int) =~= s@);
    k
}

/// The characters `from..to` of `s` as a new string.
pub fn substring(s: &str, from: usize, to: usize) -> (r: String)
    requires
        from <= to <= s@.len(),
    ensures
        r@ == s@.subrange(from as int, to as int),
{
    s.substring_char(from, to).to_owned()
}

// ---------------------------------------------------------------------------
// Path components ('/'-separated)
// ---------------------------------------------------------------------------

/// The last component: everything after the last `/`.
pub open spec fn file_name_of(p: Seq<char>) -> Seq<char> {
    match last_char(p, '/') {
        None => p,
        Some(i) => p.subrange(i + 1, p.len() as int),
    }
}

/// Everything before the last `/` (empty when there is none).
pub open spec fn parent_of(p: Seq<char>) -> Seq<char> {
    match last_char(p, '/') {
        None => Seq::empty(),
        Some(i) => p.subrange(0, i),
    }
}

/// The file name up to its first dot.
pub open spec fn stem_of(p: Seq<char>) -> Seq<char> {
    let n = file_name_of(p);
    match first_char(n, '.') {
        None => n,
        Some(i) => n.subrange(0, i),
    }
}

/// The file name after its last dot, when that dot is not its first character.
pub open spec fn last_extension_of(p: Seq<char>) -> Option<Seq<char>> {
    let n = file_name_of(p);
    match last_char(n, '.') {
        Some(i) if i > 0 => Some(n.subrange(i + 1, n.len() as int)),
        _ => None,
    }
}

/// The extension as a path's text gives it: empty without a dot; everything
/// after the first dot when the text holds several; else the file name's
/// extension (empty if it has none).
pub open spec fn extension_of(p: Seq<char>) -> Seq<char> {
    let dots = count_char(p, '.');
    if dots == 0 {
        Seq::empty()
    } else if dots > 1 {
        p.subrange(first_char(p, '.').unwrap() + 1, p.len() as int)
    } else {
        match last_extension_of(p) {
            None => Seq::empty(),
            Some(e) => e,
        }
    }
}

/// The part of the extension after its last dot; empty when the extension is a
/// single part.
pub open spec fn ext_last_of(p: Seq<char>) -> Seq<char> {
    let e = extension_of(p);
    match last_char(e, '.') {
        None => Seq::empty(),
        Some(i) => e.subrange(i + 1, e.len() as int),
    }
}

/// The parts of a path that the merger reads, split once.
#[derive(Debug, Clone)]
pub struct Pathlib {
    pub parent: String,
    pub name: String,
    pub stem: String,
    pub extension: String,
    pub ext_last: String,
    pub full_path: String,
}

impl Pathlib {
    pub fn new(path: &str) -> (r: Pathlib)
        ensures
            r.parent@ == parent_of(path@),
            r.name@ == file_name_of(path@),
            r.stem@ == stem_of(path@),
            r.extension@ == extension_of(path@),
            r.ext_last@ == ext_last_of(path@),
            r.full_path@ == path@,
    {
        Pathlib {
            parent: Pathlib::get_parent(path),
            name: Pathlib::get_name(path),
            stem: Pathlib::get_stem(path),
            extension: Pathlib::get_extension(path),
            ext_last: Pathlib::get_ext_last(path),
            full_path: path.to_owned(),
        }
    }

    pub fn get_parent(path: &str) -> (r: String)
        ensures
            r@ == parent_of(path@),
    {
        proof {
            lemma_last_char_range(path@, '/');
        }
        match rfind_char(path, '/') {
            None => String::new(),
            Some(i) => substring(path, 0, i),
        }
    }

    pub fn get_name(path: &str) -> (r: String)
        ensures
            r@ == file_name_of(path@),
    {
        proof {
            lemma_last_char_range(path@, '/');
        }
        let n = path.unicode_len();
        match rfind_char(path, '/') {
            None => path.to_owned(),
            Some(i) => substring(path, i + 1, n),
        }
    }

    pub fn get_stem(path: &str) -> (r: String)
        ensures
            r@ == stem_of(path@),
    {
        let name = Pathlib::get_name(path);
        let s = name.as_str();
        proof {
            lemma_first_char_range(s@, '.');
        }
        match find_char(s, '.') {
            None => name,
            Some(i) => substring(s, 0, i),
        }
    }

    /// The file name's last extension, if it has one.
    pub fn get_last_extension(path: &str) -> (r: Option<String>)
        ensures
            match r {
                Some(e) => last_extension_of(path@) == Some(e@),
                None => last_extension_of(path@) is None,
            },
    {
        let name = Pathlib::get_name(path);
        let s = name.as_str();
        proof {
            lemma_last_char_range(s@, '.');
        }
        let n = s.unicode_len();
        match rfind_char(s, '.') {
            Some(i) => if i > 0 {
                Some(substring(s, i + 1, n))
            } else {
                None
            },
            None => None,
        }
    }

    pub fn get_extension(path: &str) -> (r: String)
        ensures
            r@ == extension_of(path@),
    {
        let dots = count_chars(path, '.');
        if dots == 0 {
            return String::new();
        }
        if dots > 1 {
            proof {
                lemma_first_char_range(path@, '.');
                lemma_count_some(path@, '.');
            }
            let n = path.unicode_len();
            return match find_char(path, '.') {
                Some(i) => substring(path, i + 1, n),
                None => String::new(),
            };
        }
        match Pathlib::get_last_extension(path) {
            Some(e) => e,
            None => String::new(),
        }
    }

    pub fn get_ext_last(path: &str) -> (r: String)
        ensures
            r@ == ext_last_of(path@),
    {
        let ext = Pathlib::get_extension(path);
        let s = ext.as_str();
        proof {
            lemma_last_char_range(s@, '.');
        }
        let n = s.unicode_len();
        match rfind_char(s, '.') {
            None => String::new(),
            Some(i) => substring(s, i + 1, n),
        }
    }
}

proof fn lemma_count_some(s: Seq<char>, c: char)
    ensures
        count_char(s, c) > 0 ==> first_char(s, c) is Some,
    decreases s.len(),
{
    if s.len() > 0 {
        lemma_count_some(s.drop_last(), c);
        if count_char(s, c) > 0 && s[0] != c {
            if s.last() == c {
                assert(s.drop_first().last() == c);
                lemma_last_some(s.drop_first(), c);
                lemma_count_some(s.drop_first(), c);
            } else {
                lemma_count_drop_first(s, c);
                lemma_count_some(s.drop_first(), c);
            }
        }
    }
}

proof fn lemma_last_some(s: Seq<char>, c: char)
    requires
        s.len() > 0,
        s.last() == c,
    ensures
        count_char(s, c) > 0,
{
}

proof fn lemma_count_drop_first(s: Seq<char>, c: char)
    requires
        s.len() > 0,
        s[0] != c,
    ensures
        count_char(s.drop_first(), c) == count_char(s, c),
    decreases s.len(),
{
    if s.len() > 1 {
        assert(s.drop_last().drop_first() =~= s.drop_first().drop_last());
        lemma_count_drop_first(s.drop_last(), c);
    } else {
        assert(s.drop_first() =~= Seq::<char>::empty());
        assert(s.drop_last() =~= Seq::<char>::empty());
    }
}

// ---------------------------------------------------------------------------
// Long-path prefix
// ---------------------------------------------------------------------------

/// The extended-length path prefix `\\?\`.
pub open spec fn long_prefix() -> Seq<char> {
    seq!['\\', '\\', '?', '\\']
}

/// The path with every leading `\\?\` removed.
pub open spec fn normalized(p: Seq<char>) -> Seq<char>
    decreases p.len(),
{
    if p.len() >= 4 && p.subrange(0, 4) == long_prefix() {
        normalized(p.subrange(4, p.len() as int))
    } else {
        p
    }
}

fn has_long_prefix(s: &str) -> (r: bool)
    ensures
        r == (s@.len() >= 4 && s@.subrange(0, 4) == long_prefix()),
{
    let n = s.unicode_len();
    if n < 4 {
        return false;
    }
    let r = s.get_char(0) == '\\' && s.get_char(1) == '\\' && s.get_char(2) == '?' && s.get_char(3)
        == '\\';
    assert(r == (s@.subrange(0, 4) =~= long_prefix()));
    r
}

/// Strips the extended-length prefix `\\?\` from a path.
pub fn normalize_path(path: &str) -> (r: String)
    ensures
        r@ == normalized(path@),
{
    let mut cur = path.to_owned();
    while has_long_prefix(cur.as_str())
        invariant
            normalized(cur@) == normalized(path@),
        decreases cur@.len(),
    {
        let n = cur.as_str().unicode_len();
        cur = substring(cur.as_str(), 4, n);
    }
    cur
}

} // verus!
