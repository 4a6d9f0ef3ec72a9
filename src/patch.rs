use vstd::prelude::*;

use crate::entry::{
    external_file, patched_flags, payload_fits, replaced_entry, resize_fits, EntryError,
};
use crate::ktid::{ktid, ktid_input_ok, starts_with_0x};
use crate::merger::{hash_value, AocHash};
use crate::rdb::{view_entries, EntryView, Rdb, RdbEntry};

verus! {

/// What became of one replacement file when its RDB was patched.
#[derive(Debug)]
pub enum PatchOutcome {
    /// An earlier replacement (a later mod) already had this hash.
    Duplicate,
    /// The RDB holds no entry with this identifier.
    NotFound,
    /// The entry now points at this external file, to be written as `0x<hash>.file`.
    Converted(Vec<u8>),
    /// The replacement already starts with `IDRK`: copy it unchanged.
    CopyAsIs,
    /// The entry could not be converted.
    Failed(EntryError),
}

pub enum OutcomeView {
    Duplicate,
    NotFound,
    Converted(Seq<u8>),
    CopyAsIs,
    Failed(EntryError),
}

impl View for PatchOutcome {
    type V = OutcomeView;

    open spec fn view(&self) -> OutcomeView {
        match self {
            PatchOutcome::Duplicate => OutcomeView::Duplicate,
            PatchOutcome::NotFound => OutcomeView::NotFound,
            PatchOutcome::Converted(b) => OutcomeView::Converted(b@),
            PatchOutcome::CopyAsIs => OutcomeView::CopyAsIs,
            PatchOutcome::Failed(e) => OutcomeView::Failed(*e),
        }
    }
}

/// Index of the first entry at or after `i` whose `file_ktid` is `k`.
pub open spec fn entry_index(es: Seq<EntryView>, k: u32, i: int) -> Option<int>
    decreases es.len() - i,
{
    if i < 0 || i >= es.len() {
        None
    } else if es[i].file_ktid == k {
        Some(i)
    } else {
        entry_index(es, k, i + 1)
    }
}

/// Some earlier replacement has the same hash.
pub open spec fn seen_before(hs: Seq<AocHash>, i: int) -> bool {
    exists|j: int| 0 <= j < i && (#[trigger] hs[j]).hash@ == hs[i].hash@
}

/// One replacement applied to the entries: skipped when `dup`; else the first
/// entry with its identifier is made external, uncompressed and resized, and the
/// external file (or the reason there is none) comes out.
pub open spec fn patch_step(es: Seq<EntryView>, h: AocHash, dup: bool, payload: Seq<u8>) -> (
    Seq<EntryView>,
    OutcomeView,
) {
    if dup {
        (es, OutcomeView::Duplicate)
    } else {
        match entry_index(es, hash_value(h.hash@).unwrap(), 0) {
            None => (es, OutcomeView::NotFound),
            Some(x) => {
                let e = es[x];
                let size = payload.len() as u64;
                if !(resize_fits(e, size) && payload_fits(e, payload)) {
                    (
                        es.update(x, EntryView { flags: patched_flags(e.flags), ..e }),
                        OutcomeView::Failed(EntryError::TooLarge),
                    )
                } else {
                    let e2 = replaced_entry(e, size);
                    (
                        es.update(x, e2),
                        match external_file(e2, payload) {
                            Ok(b) => OutcomeView::Converted(b),
                            Err(EntryError::AlreadyPatched) => OutcomeView::CopyAsIs,
                            Err(err) => OutcomeView::Failed(err),
                        },
                    )
                }
            },
        }
    }
}

/// The first `n` replacements applied in order.
pub open spec fn patch_run(
    es: Seq<EntryView>,
    hs: Seq<AocHash>,
    ps: Seq<Vec<u8>>,
    n: nat,
) -> (Seq<EntryView>, Seq<OutcomeView>)
    decreases n,
{
    if n == 0 {
        (es, Seq::empty())
    } else {
        let prev = patch_run(es, hs, ps, (n - 1) as nat);
        let step = patch_step(prev.0, hs[n - 1], seen_before(hs, n - 1), ps[n - 1]@);
        (step.0, prev.1.push(step.1))
    }
}

pub open spec fn outcome_views(os: Seq<PatchOutcome>) -> Seq<OutcomeView> {
    os.map_values(|o: PatchOutcome| o@)
}

/// The identifier of a replacement, read from its `0x` form.
fn replacement_ktid(h: &AocHash) -> (r: u32)
    requires
        hash_value(h.hash@) is Some,
    ensures
        r == hash_value(h.hash@).unwrap(),
{
    let s = h.as_hex_str();
    let t = s.as_str();
    proof {
        assert(starts_with_0x(s@));
        if starts_with_0x(h.hash@) {
        } else {
            assert(s@.subrange(2, s@.len() as int) =~= h.hash@);
        }
        assert(ktid_input_ok(t));
    }
    ktid(t).0
}

fn seen_earlier(hashes: &Vec<AocHash>, i: usize) -> (r: bool)
    requires
        i < hashes@.len(),
    ensures
        r == seen_before(hashes@, i as int),
{
    let mut j: usize = 0;
    while j < i
        invariant
            j <= i,
            i < hashes@.len(),
            forall|q: int| 0 <= q < j ==> (#[trigger] hashes@[q]).hash@ != hashes@[i as int].hash@,
        decreases i - j,
    {
        if hashes[j].hash == hashes[i].hash {
            return true;
        }
        j = j + 1;
    }
    false
}

impl Rdb {
    /// Index of the first entry whose `file_ktid` is `k`.
    pub fn find_entry(&self, k: u32) -> (r: Option<usize>)
        ensures
            match r {
                Some(x) => entry_index(self@.entries, k, 0) == Some(x as int),
                None => entry_index(self@.entries, k, 0) is None,
            },
    {
        let mut i: usize = 0;
        while i < self.entries.len()
            invariant
                i <= self.entries@.len(),
                entry_index(self@.entries, k, 0) == entry_index(self@.entries, k, i as int),
            decreases self.entries@.len() - i,
        {
            if self.entries[i].file_ktid == k {
                return Some(i);
            }
            i = i + 1;
        }
        None
    }

    /// The first entry whose `file_ktid` is the identifier, to change in place.
    pub fn get_entry_by_ktid_mut(&mut self, ktid: crate::ktid::KTID) -> (r: Option<&mut RdbEntry>)
        ensures
            match r {
                Some(e) => exists|x: int|
                    {
                        &&& entry_index(old(self)@.entries, ktid.0, 0) == Some(x)
                        &&& *e == old(self).entries@[x]
                        &&& final(self).entries@ == old(self).entries@.update(x, *final(e))
                        &&& final(self).header == old(self).header
                    },
                None => entry_index(old(self)@.entries, ktid.0, 0) is None && *final(self) == *old(
                    self,
                ),
            },
    {
        match self.find_entry(ktid.0) {
            Some(x) => {
                proof {
                    lemma_entry_index_range(self@.entries, ktid.0, 0);
                }
                Some(&mut self.entries[x])
            },
            None => None,
        }
    }

    /// The first entry whose `file_ktid` is the identifier.
    pub fn get_entry_by_ktid(&self, ktid: &crate::ktid::KTID) -> (r: Option<&RdbEntry>)
        ensures
            match r {
                Some(e) => exists|x: int|
                    entry_index(self@.entries, ktid.0, 0) == Some(x) && e@ == self@.entries[x],
                None => entry_index(self@.entries, ktid.0, 0) is None,
            },
    {
        match self.find_entry(ktid.0) {
            Some(x) => {
                proof {
                    lemma_entry_index_range(self@.entries, ktid.0, 0);
                    assert(self.entries@[x as int]@ == self@.entries[x as int]);
                }
                Some(&self.entries[x])
            },
            None => None,
        }
    }
}

proof fn lemma_entry_index_range(es: Seq<EntryView>, k: u32, i: int)
    ensures
        entry_index(es, k, i) is Some ==> i <= entry_index(es, k, i).unwrap() < es.len(),
    decreases es.len() - i,
{
    if 0 <= i < es.len() && es[i].file_ktid != k {
        lemma_entry_index_range(es, k, i + 1);
    }
}

/// Applies the replacements of one RDB in order. A hash already applied is
/// skipped, so the first replacement of each hash wins; the others are
/// reported as `Duplicate`.
pub fn patch_rdb_entries(rdb: &mut Rdb, hashes: &Vec<AocHash>, payloads: &Vec<Vec<u8>>) -> (r: Vec<
    PatchOutcome,
>)
    requires
        payloads@.len() == hashes@.len(),
        forall|i: int| 0 <= i < hashes@.len() ==> hash_value((#[trigger] hashes@[i]).hash@) is Some,
    ensures
        final(rdb)@.header == old(rdb)@.header,
        patch_run(old(rdb)@.entries, hashes@, payloads@, hashes@.len()) == (
            final(rdb)@.entries,
            outcome_views(r@),
        ),
{
    let mut out: Vec<PatchOutcome> = Vec::new();
    let mut i: usize = 0;
    while i < hashes.len()
        invariant
            i <= hashes@.len(),
            payloads@.len() == hashes@.len(),
            forall|q: int| 0 <= q < hashes@.len() ==> hash_value((#[trigger] hashes@[q]).hash@) is Some,
            rdb@.header == old(rdb)@.header,
            patch_run(old(rdb)@.entries, hashes@, payloads@, i as nat) == (
                rdb@.entries,
                outcome_views(out@),
            ),
        decreases hashes@.len() - i,
    {
        let ghost es = rdb@.entries;
        let ghost outs = outcome_views(out@);
        let o: PatchOutcome;
        if seen_earlier(hashes, i) {
            o = PatchOutcome::Duplicate;
        } else {
            let k = replacement_ktid(&hashes[i]);
            match rdb.find_entry(k) {
                None => {
                    o = PatchOutcome::NotFound;
                },
                Some(x) => {
                    proof {
                        lemma_entry_index_range(es, k, 0);
                    }
                    let ghost before = rdb.entries@;
                    let res = rdb.entries[x].apply_replacement(payloads[i].as_slice());
                    proof {
                        assert(view_entries(rdb.entries@) =~= es.update(
                            x as int,
                            rdb.entries@[x as int]@,
                        ));
                    }
                    o = match res {
                        Ok(b) => PatchOutcome::Converted(b),
                        Err(EntryError::AlreadyPatched) => PatchOutcome::CopyAsIs,
                        Err(e) => PatchOutcome::Failed(e),
                    };
                },
            }
        }
        out.push(o);
        proof {
            assert(outcome_views(out@) =~= outs.push(out@.last()@));
        }
        i = i + 1;
    }
    out
}

/// In a patch run each replacement is reported `Duplicate` exactly when an
/// earlier replacement has the same hash: every hash is applied at most once,
/// and by the first replacement that carries it.
pub proof fn lemma_first_replacement_wins(
    es: Seq<EntryView>,
    hs: Seq<AocHash>,
    ps: Seq<Vec<u8>>,
    n: nat,
)
    requires
        n <= hs.len(),
        n <= ps.len(),
    ensures
        patch_run(es, hs, ps, n).1.len() == n,
        forall|i: int|
            0 <= i < n ==> ((#[trigger] patch_run(es, hs, ps, n).1[i]) is Duplicate <==> seen_before(
                hs,
                i,
            )),
    decreases n,
{
    if n > 0 {
        let m = (n - 1) as nat;
        lemma_first_replacement_wins(es, hs, ps, m);
        let prev = patch_run(es, hs, ps, m);
        let step = patch_step(prev.0, hs[m as int], seen_before(hs, m as int), ps[m as int]@);
        assert(patch_run(es, hs, ps, n).1 == prev.1.push(step.1));
        assert forall|i: int| 0 <= i < n implies ((#[trigger] patch_run(es, hs, ps, n).1[i]) is Duplicate
            <==> seen_before(hs, i)) by {
            if i < m {
                assert(patch_run(es, hs, ps, n).1[i] == prev.1[i]);
            }
        }
    }
}

} // verus!
