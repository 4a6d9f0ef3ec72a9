use vstd::prelude::*;
use vstd::string::*;

use crate::paths::{file_name_of, last_char, parent_of, Pathlib};

verus! {

/// What `str::to_uppercase` makes of a text.
pub uninterp spec fn upper_of(s: Seq<char>) -> Seq<char>;

/// Relies on `str::to_uppercase`: the result depends on the characters alone.
#[verifier::external_body]
fn uppercase(s: &str) -> (r: String)
    ensures
        r@ == upper_of(s@),
{
    s.to_uppercase()
}

/// The game's title identifier, as emulators name its mod directory.
pub open spec fn game_id() -> Seq<char> {
    seq!['0', '1', '0', '0', '2', 'B', '0', '0', '1', '1', '1', 'A', '2', '0', '0', '0']
}

/// The path with its last `n` components removed, if it has that many parents.
pub open spec fn ancestor(p: Seq<char>, n: nat) -> Option<Seq<char>>
    decreases n,
{
    if n == 0 {
        Some(p)
    } else {
        match ancestor(p, (n - 1) as nat) {
            None => None,
            Some(q) => if last_char(q, '/') is Some {
                Some(parent_of(q))
            } else {
                None
            },
        }
    }
}

/// The file name of the `n`-th ancestor is `name`.
pub open spec fn ancestor_named(p: Seq<char>, n: nat, name: Seq<char>) -> bool {
    ancestor(p, n) is Some && file_name_of(ancestor(p, n).unwrap()) == name
}

/// A yuzu load directory: `.../yuzu/load/<game id>`, with `upper_name` the last
/// component in upper case.
pub open spec fn is_yuzu_layout(p: Seq<char>, is_dir: bool, upper_name: Seq<char>) -> bool {
    is_dir && upper_name == game_id() && ancestor_named(p, 1, seq!['l', 'o', 'a', 'd'])
        && ancestor_named(p, 2, seq!['y', 'u', 'z', 'u'])
}

/// A Ryujinx mod directory: `.../Ryujinx/<a>/<b>/<game id>`.
pub open spec fn is_ryu_layout(p: Seq<char>, is_dir: bool, upper_name: Seq<char>) -> bool {
    is_dir && upper_name == game_id() && ancestor_named(
        p,
        3,
        seq!['R', 'y', 'u', 'j', 'i', 'n', 'x'],
    )
}

fn pop_path(p: &str) -> (r: Option<String>)
    ensures
        match r {
            Some(q) => last_char(p@, '/') is Some && q@ == parent_of(p@),
            None => last_char(p@, '/') is None,
        },
{
    match crate::paths::rfind_char(p, '/') {
        Some(_) => Some(Pathlib::get_parent(p)),
        None => None,
    }
}

/// The `n`-th ancestor of `p`.
fn ancestor_exec(p: &str, n: usize) -> (r: Option<String>)
    ensures
        match r {
            Some(q) => ancestor(p@, n as nat) == Some(q@),
            None => ancestor(p@, n as nat) is None,
        },
{
    let mut cur = p.to_owned();
    let mut i: usize = 0;
    while i < n
        invariant
            i <= n,
            ancestor(p@, i as nat) == Some(cur@),
        decreases n - i,
    {
        match pop_path(cur.as_str()) {
            Some(q) => {
                cur = q;
            },
            None => {
                proof {
                    lemma_ancestor_none_stays(p@, (i + 1) as nat, n as nat);
                }
                return None;
            },
        }
        i = i + 1;
    }
    Some(cur)
}

proof fn lemma_ancestor_none_stays(p: Seq<char>, i: nat, n: nat)
    requires
        i <= n,
        ancestor(p, i) is None,
    ensures
        ancestor(p, n) is None,
    decreases n - i,
{
    if i < n {
        lemma_ancestor_none_stays(p, i, (n - 1) as nat);
    }
}

fn ancestor_named_exec(p: &str, n: usize, name: &str) -> (r: bool)
    ensures
        r == ancestor_named(p@, n as nat, name@),
{
    match ancestor_exec(p, n) {
        Some(q) => Pathlib::get_name(q.as_str()) == name.to_owned(),
        None => false,
    }
}

fn is_game_id(s: &str) -> (r: bool)
    ensures
        r == (s@ == game_id()),
{
    proof {
        reveal_strlit("01002B00111A2000");
    }
    let id = "01002B00111A2000".to_owned();
    assert(id@ =~= game_id());
    s.to_owned() == id
}

/// Whether `path` has the layout of a yuzu load directory, given its last
/// component in upper case.
pub fn yuzu_layout(path: &str, is_dir: bool, upper_name: &str) -> (r: bool)
    ensures
        r == is_yuzu_layout(path@, is_dir, upper_name@),
{
    proof {
        reveal_strlit("load");
        reveal_strlit("yuzu");
        assert("load"@ =~= seq!['l', 'o', 'a', 'd']);
        assert("yuzu"@ =~= seq!['y', 'u', 'z', 'u']);
    }
    is_dir && is_game_id(upper_name) && ancestor_named_exec(path, 1, "load")
        && ancestor_named_exec(path, 2, "yuzu")
}

/// Whether `path` has the layout of a Ryujinx mod directory, given its last
/// component in upper case.
pub fn ryu_layout(path: &str, is_dir: bool, upper_name: &str) -> (r: bool)
    ensures
        r == is_ryu_layout(path@, is_dir, upper_name@),
{
    proof {
        reveal_strlit("Ryujinx");
        assert("Ryujinx"@ =~= seq!['R', 'y', 'u', 'j', 'i', 'n', 'x']);
    }
    is_dir && is_game_id(upper_name) && ancestor_named_exec(path, 3, "Ryujinx")
}

/// Whether the directory at `path` is yuzu's load directory for the game.
pub fn is_yuzu_dir(path: &str, is_dir: bool) -> (r: bool)
    ensures
        r == is_yuzu_layout(path@, is_dir, upper_of(file_name_of(path@))),
{
    let name = Pathlib::get_name(path);
    let upper = uppercase(name.as_str());
    yuzu_layout(path, is_dir, upper.as_str())
}

/// Whether the directory at `path` is a Ryujinx mod directory for the game.
pub fn is_ryu_dir(path: &str, is_dir: bool) -> (r: bool)
    ensures
        r == is_ryu_layout(path@, is_dir, upper_of(file_name_of(path@))),
{
    let name = Pathlib::get_name(path);
    let upper = uppercase(name.as_str());
    ryu_layout(path, is_dir, upper.as_str())
}

/// The emulator whose mod directory `path` is (`Yuzu` or `Ryujinx`), or empty.
pub fn is_emulator_dir(path: &str, is_dir: bool) -> (r: String)
    ensures
        is_yuzu_layout(path@, is_dir, upper_of(file_name_of(path@))) ==> r@ == "Yuzu"@,
        !is_yuzu_layout(path@, is_dir, upper_of(file_name_of(path@))) && is_ryu_layout(
            path@,
            is_dir,
            upper_of(file_name_of(path@)),
        ) ==> r@ == "Ryujinx"@,
        !is_yuzu_layout(path@, is_dir, upper_of(file_name_of(path@))) && !is_ryu_layout(
            path@,
            is_dir,
            upper_of(file_name_of(path@)),
        ) ==> r@.len() == 0,
{
    if is_yuzu_dir(path, is_dir) {
        return "Yuzu".to_owned();
    }
    if is_ryu_dir(path, is_dir) {
        return "Ryujinx".to_owned();
    }
    String::new()
}

} // verus!
