//! A wallet on an Annulet net: which chain the endpoint serves, which notes are
//! this wallet's, and the balance of each asset.
//!
//! A figure exists only where both the outputs and the nullifiers are known.
use crate::annulet_send::{AssetIndex, AssetNotes, OwnedL2Note};
use crate::bytes32::{eq32, lanes_eq};
use crate::paging::widest_range;
#[allow(unused_imports)]
use crate::paging::{contains_range, lemma_widest_covered, widest};
use crate::scan::{coverage_of, SpentCoverage};
#[allow(unused_imports)]
use crate::scan::is_coverage;
use crate::spent::{fetch_spent, NullifierSource, SpentRefusal, SpentSet};
#[allow(unused_imports)]
use crate::spent::spent_read;
use crate::text::{
    chars_of, debug_of, hex_of, push_dec, push_dec_wide, push_hex, string_of, trim, unhex_bytes,
};
#[allow(unused_imports)]
use crate::text::{
    debug_text, dec, hex_text, holds_text, lemma_holds, lemma_holds_through, trim_of, unhex_text,
};
use vstd::prelude::*;

verus! {

/// Why an Annulet scan did not start.
#[derive(Debug, PartialEq, Eq)]
pub enum AnnuletRefusal {
    /// `/v1/genesis/notes` did not answer as an Annulet node answers it.
    NotAnnulet { why: String },
    /// The endpoint's genesis is not the pinned one.
    GenesisMismatch { pinned: [u8; 32], served: [u8; 32] },
}

impl AnnuletRefusal {
    /// The sentence that a person is shown.
    pub open spec fn text(&self) -> Seq<char> {
        match self {
            AnnuletRefusal::NotAnnulet { why } => "--net annulet, but this endpoint does not serve an Annulet chain: /v1/genesis/notes answered "@ + why@ + ". An L1 node refuses that route; point --url at an Annulet node or drop --net annulet"@,
            AnnuletRefusal::GenesisMismatch { pinned, served } => "the endpoint serves genesis "@ + hex_text(served@) + " but --genesis-hash pins "@ + hex_text(pinned@) + " — refusing to report balances of a different chain"@,
        }
    }

    /// The sentence that a person is shown.
    pub fn message(&self) -> (r: String)
        ensures
            r@ == self.text(),
    {
        let mut s: String = String::new();
        match self {
            AnnuletRefusal::NotAnnulet { why } => {
                s.append("--net annulet, but this endpoint does not serve an Annulet chain: /v1/genesis/notes answered ");
                s.append(why.as_str());
                s.append(". An L1 node refuses that route; point --url at an Annulet node or drop --net annulet");
            },
            AnnuletRefusal::GenesisMismatch { pinned, served } => {
                s.append("the endpoint serves genesis ");
                push_hex(&mut s, served);
                s.append(" but --genesis-hash pins ");
                push_hex(&mut s, pinned);
                s.append(" — refusing to report balances of a different chain");
            },
        }
        assert(s@ =~= self.text());
        s
    }
}

/// Bytes in lowercase hexadecimal.
pub fn hex(b: &[u8]) -> (r: String)
    ensures
        r@ == hex_text(b@),
{
    hex_of(b)
}

/// What `--genesis-hash` means: 64 hexadecimal characters, white space around
/// them left out.
pub open spec fn genesis_hash_text(s: Seq<char>) -> Option<Seq<u8>> {
    if trim_of(s).len() == 64 {
        unhex_text(trim_of(s))
    } else {
        None
    }
}

/// Reads a `--genesis-hash` value.
pub fn parse_genesis_hash(s: &str) -> (r: Result<[u8; 32], String>)
    ensures
        match r {
            Ok(h) => genesis_hash_text(s@) == Some(h@),
            Err(e) => genesis_hash_text(s@) is None && e@
                == "--genesis-hash must be 64 hex characters, got "@ + debug_text(trim_of(s@)),
        },
{
    let all = chars_of(s);
    let t = trim(&all);
    if t.len() == 64 {
        if let Some(bytes) = unhex_bytes(&t) {
            let mut out: [u8; 32] = [0; 32];
            let mut i: usize = 0;
            while i < 32
                invariant
                    i <= 32,
                    bytes@.len() == 32,
                    forall|j: int| 0 <= j < i ==> out@[j] == bytes@[j],
                decreases 32 - i,
            {
                out[i] = bytes[i];
                i += 1;
            }
            assert(out@ =~= bytes@);
            return Ok(out);
        }
    }
    let shown = string_of(&t);
    let quoted = debug_of(shown.as_str());
    let mut e: String = "--genesis-hash must be 64 hex characters, got ".to_owned();
    e.append(quoted.as_str());
    Err(e)
}

/// The chain that an endpoint serves: its genesis hash, held to the pin where
/// there is one.
pub fn check_genesis(served: [u8; 32], pin: Option<[u8; 32]>) -> (r: Result<(), AnnuletRefusal>)
    ensures
        match (r, pin) {
            (Ok(_), Some(p)) => p@ == served@,
            (Ok(_), None) => true,
            (Err(e), Some(p)) => p@ != served@ && e == (AnnuletRefusal::GenesisMismatch {
                pinned: p,
                served,
            }),
            (Err(_), None) => false,
        },
{
    match pin {
        Some(pinned) => {
            if eq32(&pinned, &served) {
                Ok(())
            } else {
                Err(AnnuletRefusal::GenesisMismatch { pinned, served })
            }
        },
        None => Ok(()),
    }
}

/// The genesis notes of the first `n` that pay one of the wallet's addresses,
/// each with the index of the address.
pub open spec fn genesis_matches(
    notes: Seq<[u64; 4]>,
    mine: Seq<(u64, [u64; 4])>,
    n: int,
) -> Seq<(usize, u64)>
    decreases n,
{
    if n <= 0 {
        Seq::empty()
    } else {
        genesis_matches(notes, mine, n - 1) + payees(
            notes[n - 1]@,
            (n - 1) as usize,
            mine,
            mine.len() as int,
        )
    }
}

/// The addresses among the first `k` that have this key.
pub open spec fn payees(rkm: Seq<u64>, at: usize, mine: Seq<(u64, [u64; 4])>, k: int) -> Seq<
    (usize, u64),
>
    decreases k,
{
    if k <= 0 {
        Seq::empty()
    } else if mine[k - 1].1@ == rkm {
        payees(rkm, at, mine, k - 1).push((at, mine[k - 1].0))
    } else {
        payees(rkm, at, mine, k - 1)
    }
}

/// Whether the address `index` of `mine` is one that the key `rkm` pays.
pub open spec fn is_payee(rkm: Seq<u64>, mine: Seq<(u64, [u64; 4])>, k: int, index: u64) -> bool {
    exists|j: int| 0 <= j < k && (#[trigger] mine[j]).1@ == rkm && mine[j].0 == index
}

proof fn lemma_payees(rkm: Seq<u64>, at: usize, mine: Seq<(u64, [u64; 4])>, k: int)
    requires
        0 <= k <= mine.len(),
    ensures
        forall|m: (usize, u64)| #[trigger]
            payees(rkm, at, mine, k).contains(m) <==> m.0 == at && is_payee(rkm, mine, k, m.1),
    decreases k,
{
    if k > 0 {
        lemma_payees(rkm, at, mine, k - 1);
        let front = payees(rkm, at, mine, k - 1);
        let all = payees(rkm, at, mine, k);
        assert forall|m: (usize, u64)| #[trigger] all.contains(m) <==> m.0 == at && is_payee(
            rkm,
            mine,
            k,
            m.1,
        ) by {
            assert(front.contains(m) <==> m.0 == at && is_payee(rkm, mine, k - 1, m.1));
            if is_payee(rkm, mine, k - 1, m.1) {
                let j = choose|j: int|
                    0 <= j < k - 1 && (#[trigger] mine[j]).1@ == rkm && mine[j].0 == m.1;
                assert(mine[j].1@ == rkm);
            }
            if mine[k - 1].1@ == rkm {
                let last = (at, mine[k - 1].0);
                assert(all[front.len() as int] == last);
                if all.contains(m) {
                    let i = choose|i: int| 0 <= i < all.len() && all[i] == m;
                    if i < front.len() {
                        assert(front[i] == m);
                    }
                }
                if front.contains(m) {
                    let i = choose|i: int| 0 <= i < front.len() && front[i] == m;
                    assert(all[i] == m);
                }
            }
        }
    }
}

/// A genesis note is matched to an address exactly if the note pays that
/// address's key: none is left out, and none is claimed that pays another. The
/// matches come in the order of the notes.
pub proof fn law_genesis_matches_are_the_owned(
    notes: Seq<[u64; 4]>,
    mine: Seq<(u64, [u64; 4])>,
    n: int,
)
    requires
        0 <= n <= notes.len() <= usize::MAX,
    ensures
        forall|m: (usize, u64)| #[trigger]
            genesis_matches(notes, mine, n).contains(m) <==> m.0 < n && (exists|j: int|
                0 <= j < mine.len() && (#[trigger] mine[j]).1@ == notes[m.0 as int]@ && mine[j].0
                    == m.1),
        forall|i: int, j: int|
            0 <= i < j < genesis_matches(notes, mine, n).len() ==> (#[trigger] genesis_matches(
                notes,
                mine,
                n,
            )[i]).0 <= (#[trigger] genesis_matches(notes, mine, n)[j]).0,
    decreases n,
{
    if n > 0 {
        law_genesis_matches_are_the_owned(notes, mine, n - 1);
        let front = genesis_matches(notes, mine, n - 1);
        let at = (n - 1) as usize;
        let last = payees(notes[n - 1]@, at, mine, mine.len() as int);
        let all = genesis_matches(notes, mine, n);
        lemma_payees(notes[n - 1]@, at, mine, mine.len() as int);
        assert forall|m: (usize, u64)| #[trigger] all.contains(m) <==> m.0 < n && (exists|j: int|
            0 <= j < mine.len() && (#[trigger] mine[j]).1@ == notes[m.0 as int]@ && mine[j].0
                == m.1) by {
            assert(front.contains(m) <==> m.0 < n - 1 && (exists|j: int|
                0 <= j < mine.len() && (#[trigger] mine[j]).1@ == notes[m.0 as int]@ && mine[j].0
                    == m.1));
            assert(last.contains(m) <==> m.0 == at && is_payee(
                notes[n - 1]@,
                mine,
                mine.len() as int,
                m.1,
            ));
            assert(all.contains(m) <==> front.contains(m) || last.contains(m)) by {
                if all.contains(m) {
                    let i = choose|i: int| 0 <= i < all.len() && all[i] == m;
                    if i < front.len() {
                        assert(front[i] == m);
                    } else {
                        assert(last[i - front.len()] == m);
                    }
                }
                if front.contains(m) {
                    let i = choose|i: int| 0 <= i < front.len() && front[i] == m;
                    assert(all[i] == m);
                }
                if last.contains(m) {
                    let i = choose|i: int| 0 <= i < last.len() && last[i] == m;
                    assert(all[front.len() + i] == m);
                }
            }
        }
        assert forall|i: int, j: int| 0 <= i < j < all.len() implies (#[trigger] all[i]).0 <= (
        #[trigger] all[j]).0 by {
            if i < front.len() {
                assert(front.contains(all[i])) by {
                    assert(front[i] == all[i]);
                }
            } else {
                assert(last[i - front.len()] == all[i]);
                assert(last.contains(all[i]));
            }
            if j >= front.len() {
                assert(last[j - front.len()] == all[j]);
                assert(last.contains(all[j]));
            }
        }
    }
}

/// Which genesis notes are this wallet's: the place of each, by its key, and
/// the index of the address that it pays.
pub fn match_genesis(notes: &[[u64; 4]], mine: &[(u64, [u64; 4])]) -> (r: Vec<(usize, u64)>)
    ensures
        r@ == genesis_matches(notes@, mine@, notes@.len() as int),
{
    let mut r: Vec<(usize, u64)> = Vec::new();
    let mut i: usize = 0;
    assert(r@ =~= genesis_matches(notes@, mine@, 0));
    while i < notes.len()
        invariant
            i <= notes@.len(),
            r@ == genesis_matches(notes@, mine@, i as int),
        decreases notes@.len() - i,
    {
        let ghost before = r@;
        let mut k: usize = 0;
        assert(r@ =~= before + payees(notes@[i as int]@, i, mine@, 0));
        while k < mine.len()
            invariant
                k <= mine@.len(),
                i < notes@.len(),
                r@ == before + payees(notes@[i as int]@, i, mine@, k as int),
            decreases mine@.len() - k,
        {
            if lanes_eq(&mine[k].1, &notes[i]) {
                r.push((i, mine[k].0));
            }
            k += 1;
            assert(r@ =~= before + payees(notes@[i as int]@, i, mine@, k as int));
        }
        i += 1;
    }
    r
}

/// One address's scan on an Annulet net: the heights it reached, or why it
/// never started.
#[derive(Debug)]
pub struct AnnuletRow {
    pub index: u64,
    pub short: String,
    pub scan: Result<Option<(u64, u64)>, String>,
}

/// Everything an Annulet scan read, and the index of each asset where both
/// halves are known.
#[derive(Debug)]
pub struct AnnuletReport {
    pub genesis_hash: [u8; 32],
    pub rows: Vec<AnnuletRow>,
    /// Genesis notes that pay one of this wallet's addresses.
    pub genesis_owned: usize,
    pub spent: SpentCoverage,
    pub index: Option<AssetIndex>,
    /// Notes that a scan opened and that did not become this wallet's, and why.
    pub refused: Vec<String>,
}

pub open spec fn row_range(row: AnnuletRow) -> Option<(u64, u64)> {
    match row.scan {
        Ok(r) => r,
        Err(_) => None,
    }
}

/// The heights that the scans reached, and the first block where a genesis note
/// is owned.
pub open spec fn annulet_ranges(rows: Seq<AnnuletRow>, genesis_owned: nat) -> Seq<
    Option<(u64, u64)>,
> {
    Seq::new(rows.len(), |i: int| row_range(rows[i])).push(
        if genesis_owned > 0 {
            Some((1u64, 1u64))
        } else {
            None
        },
    )
}

pub open spec fn all_started(rows: Seq<AnnuletRow>) -> bool {
    forall|i: int| 0 <= i < rows.len() ==> (#[trigger] rows[i]).scan is Ok
}

/// Where the spends of the owned notes can begin: a genesis note can be spent
/// from the first block on.
pub open spec fn spends_from(from: u64, genesis_owned: nat) -> u64 {
    if genesis_owned > 0 && from > 1 {
        1
    } else {
        from
    }
}

/// How far a reading of the spends may be subtracted from the owned notes: it is
/// judged against all that was reached, and held only where every scan started.
pub open spec fn is_annulet_coverage(
    rows: Seq<AnnuletRow>,
    genesis_owned: nat,
    fetched: Result<SpentSet, SpentRefusal>,
    r: (SpentCoverage, Option<SpentSet>),
) -> bool {
    exists|set: Option<SpentSet>| #[trigger]
        is_coverage(fetched, widest(annulet_ranges(rows, genesis_owned)), r.0, set) && r.1 == (
        if all_started(rows) {
            set
        } else {
            None
        })
}

/// The spends are held exactly where they were read, every scan started, and they
/// cover both ends of every range that a scan reached, and the first block where
/// a genesis note is owned; what is held is what was read.
pub proof fn law_spends_are_held_only_in_full(
    rows: Seq<AnnuletRow>,
    genesis_owned: nat,
    fetched: Result<SpentSet, SpentRefusal>,
    r: (SpentCoverage, Option<SpentSet>),
)
    requires
        is_annulet_coverage(rows, genesis_owned, fetched, r),
    ensures
        r.1 matches Some(set) ==> fetched == Ok::<SpentSet, SpentRefusal>(set),
        r.1 is Some <==> fetched is Ok && {
            let covered = (fetched->Ok_0).covered;
            &&& forall|i: int| 0 <= i < rows.len() ==> (#[trigger] rows[i]).scan is Ok
            &&& forall|i: int|
                0 <= i < rows.len() && row_range(#[trigger] rows[i]) is Some ==> covered is Some && (
                covered->0).0 <= (row_range(rows[i])->0).0 && (row_range(rows[i])->0).1 <= (
                covered->0).1
            &&& genesis_owned > 0 ==> covered is Some && (covered->0).0 <= 1 <= (covered->0).1
        },
{
    let ranges = annulet_ranges(rows, genesis_owned);
    assert(ranges.last() == ranges[rows.len() as int]);
    assert(forall|i: int| 0 <= i < rows.len() ==> ranges[i] == row_range(#[trigger] rows[i]));
    if fetched is Ok {
        let covered = (fetched->Ok_0).covered;
        lemma_widest_covered(covered, ranges);
        let own: Option<(u64, u64)> = if genesis_owned > 0 {
            Some((1u64, 1u64))
        } else {
            None
        };
        assert(ranges[rows.len() as int] == own);
        if forall|i: int|
            0 <= i < ranges.len() && (#[trigger] ranges[i]) is Some ==> contains_range(
                covered,
                ranges[i]->0,
            ) {
            assert forall|i: int| 0 <= i < rows.len() && row_range(#[trigger] rows[i]) is Some implies
                covered is Some && (covered->0).0 <= (row_range(rows[i])->0).0 && (row_range(
                rows[i],
            )->0).1 <= (covered->0).1 by {
                assert(ranges[i] == row_range(rows[i]));
            }
        } else {
            let i = choose|i: int|
                0 <= i < ranges.len() && (#[trigger] ranges[i]) is Some && !contains_range(
                    covered,
                    ranges[i]->0,
                );
            if i < rows.len() {
                assert(ranges[i] == row_range(rows[i]));
            }
        }
    }
}

/// What a reading of the spends is worth over the owned notes: they are held only
/// where every scan started and they cover all that was reached.
pub fn annulet_coverage(
    rows: &Vec<AnnuletRow>,
    genesis_owned: usize,
    fetched: Result<SpentSet, SpentRefusal>,
) -> (r: (SpentCoverage, Option<SpentSet>))
    ensures
        is_annulet_coverage(rows@, genesis_owned as nat, fetched, r),
{
    let mut ranges: Vec<Option<(u64, u64)>> = Vec::new();
    let mut started = true;
    let mut i: usize = 0;
    while i < rows.len()
        invariant
            i <= rows@.len(),
            ranges@.len() == i,
            forall|k: int| 0 <= k < i ==> #[trigger] ranges@[k] == row_range(rows@[k]),
            started <==> (forall|k: int| 0 <= k < i ==> (#[trigger] rows@[k]).scan is Ok),
        decreases rows@.len() - i,
    {
        match &rows[i].scan {
            Ok(r) => ranges.push(*r),
            Err(_) => {
                ranges.push(None);
                started = false;
            },
        }
        i += 1;
    }
    ranges.push(
        if genesis_owned > 0 {
            Some((1u64, 1u64))
        } else {
            None
        },
    );
    assert(ranges@ =~= annulet_ranges(rows@, genesis_owned as nat));
    let outputs = widest_range(&ranges);
    let (coverage, set) = coverage_of(fetched, outputs);
    let ghost held = set;
    let r = if started {
        (coverage, set)
    } else {
        (coverage, None)
    };
    assert(started == all_started(rows@));
    assert(is_coverage(
        fetched,
        widest(annulet_ranges(rows@, genesis_owned as nat)),
        r.0,
        held,
    ));
    r
}

/// Reads the spends over everything that the owned notes could have been spent
/// in, and says how far they may be subtracted.
pub fn annulet_spends<N: NullifierSource>(
    rows: &Vec<AnnuletRow>,
    genesis_owned: usize,
    source: &N,
    from: u64,
    to: u64,
) -> (r: (SpentCoverage, Option<SpentSet>))
    ensures
        exists|s: Result<SpentSet, SpentRefusal>|
            spent_read(source, spends_from(from, genesis_owned as nat), to, s)
                && #[trigger] is_annulet_coverage(rows@, genesis_owned as nat, s, r),
        r.1 matches Some(set) ==> {
            let outputs = widest(annulet_ranges(rows@, genesis_owned as nat));
            &&& set.wf() && all_started(rows@)
            &&& r.0 == (SpentCoverage::Covered { range: set.covered })
            &&& outputs is None || contains_range(set.covered, outputs->0)
        },
        r.1 is None ==> r.0 is Unavailable || !all_started(rows@),
{
    let start: u64 = nullifiers_from(from, genesis_owned);
    annulet_coverage(rows, genesis_owned, fetch_spent(source, start, to))
}

/// The height from which the spends are read.
pub fn nullifiers_from(from: u64, genesis_owned: usize) -> (r: u64)
    ensures
        r == spends_from(from, genesis_owned as nat),
        r <= from,
        genesis_owned == 0 ==> r == from,
        genesis_owned > 0 ==> r <= 1,
        from <= 1 ==> r == from,
{
    if genesis_owned > 0 && from > 1 {
        1
    } else {
        from
    }
}

/// What notes are worth together.
pub open spec fn worth_of(notes: Seq<OwnedL2Note>) -> nat
    decreases notes.len(),
{
    if notes.len() == 0 {
        0
    } else {
        worth_of(notes.drop_last()) + notes.last().value as nat
    }
}

/// No notes are worth nothing, one is worth its value, and two rows of notes are
/// worth what each of them is.
pub proof fn law_worth_adds_up(a: Seq<OwnedL2Note>, b: Seq<OwnedL2Note>, n: OwnedL2Note)
    ensures
        worth_of(Seq::empty()) == 0,
        worth_of(seq![n]) == n.value,
        worth_of(a + b) == worth_of(a) + worth_of(b),
    decreases b.len(),
{
    assert(seq![n].drop_last() =~= Seq::empty());
    if b.len() == 0 {
        assert(a + b =~= a);
    } else {
        law_worth_adds_up(a, b.drop_last(), n);
        assert((a + b).drop_last() =~= a + b.drop_last());
    }
}

impl AssetNotes {
    /// What the spendable notes are worth together.
    pub fn spendable_value(&self) -> (r: u128)
        ensures
            r == worth_of(self.spendable@),
    {
        let mut r: u128 = 0;
        let mut i: usize = 0;
        assert(self.spendable@.take(0) =~= Seq::empty());
        while i < self.spendable.len()
            invariant
                i <= self.spendable@.len(),
                r == worth_of(self.spendable@.take(i as int)),
                r <= i * u64::MAX,
            decreases self.spendable@.len() - i,
        {
            assert(self.spendable@.take(i + 1).drop_last() =~= self.spendable@.take(i as int));
            r += self.spendable[i].value as u128;
            i += 1;
        }
        assert(self.spendable@.take(i as int) =~= self.spendable@);
        r
    }
}

pub open spec fn spends_line(c: SpentCoverage) -> Seq<char> {
    match c {
        SpentCoverage::Covered { range: Some((a, b)) } => "spends:   subtracted over "@ + dec(
            a as nat,
        ) + "..="@ + dec(b as nat) + "\n"@,
        SpentCoverage::Covered { range: None } => "spends:   the endpoint held no block in range\n"@,
        SpentCoverage::Unavailable { why } => "spends:   UNAVAILABLE ("@ + why@ + ")\n"@,
    }
}

fn push_spends_line(t: &mut String, c: &SpentCoverage)
    ensures
        final(t)@ == old(t)@ + spends_line(*c),
{
    let ghost t0 = t@;
    match c {
        SpentCoverage::Covered { range: Some((a, b)) } => {
            t.append("spends:   subtracted over ");
            push_dec(t, *a);
            t.append("..=");
            push_dec(t, *b);
            t.append("\n");
        },
        SpentCoverage::Covered { range: None } => {
            t.append("spends:   the endpoint held no block in range\n");
        },
        SpentCoverage::Unavailable { why } => {
            t.append("spends:   UNAVAILABLE (");
            t.append(why.as_str());
            t.append(")\n");
        },
    }
    assert(t@ =~= t0 + spends_line(*c));
}

/// The line of a scan that never started; nothing for one that did.
pub open spec fn row_line(row: AnnuletRow) -> Seq<char> {
    match row.scan {
        Err(why) => "address "@ + dec(row.index as nat) + " ("@ + row.short@
            + "): UNAVAILABLE — the scan never started: "@ + why@ + "\n"@,
        Ok(_) => Seq::empty(),
    }
}

pub open spec fn rows_text(rows: Seq<AnnuletRow>, n: int) -> Seq<char>
    decreases n,
{
    if n <= 0 {
        Seq::empty()
    } else {
        rows_text(rows, n - 1) + row_line(rows[n - 1])
    }
}

fn push_rows(t: &mut String, rows: &Vec<AnnuletRow>)
    ensures
        final(t)@ == old(t)@ + rows_text(rows@, rows@.len() as int),
{
    let ghost t0 = t@;
    let mut i: usize = 0;
    assert(t@ =~= t0 + rows_text(rows@, 0));
    while i < rows.len()
        invariant
            i <= rows@.len(),
            t@ == t0 + rows_text(rows@, i as int),
        decreases rows@.len() - i,
    {
        if let Err(why) = &rows[i].scan {
            t.append("address ");
            push_dec(t, rows[i].index);
            t.append(" (");
            t.append(rows[i].short.as_str());
            t.append("): UNAVAILABLE — the scan never started: ");
            t.append(why.as_str());
            t.append("\n");
        }
        i += 1;
        assert(t@ =~= t0 + rows_text(rows@, i as int));
    }
}

pub open spec fn asset_line(n: AssetNotes) -> Seq<char> {
    "asset "@ + dec(n.asset as nat) + (if n.asset == 0 {
        " (fee units)"@
    } else {
        ""@
    }) + ": "@ + dec(worth_of(n.spendable@)) + " spendable in "@ + dec(n.spendable@.len())
        + " note(s); "@ + dec(n.spent@.len()) + " spent\n"@
}

pub open spec fn assets_text(entries: Seq<AssetNotes>, n: int) -> Seq<char>
    decreases n,
{
    if n <= 0 {
        Seq::empty()
    } else {
        assets_text(entries, n - 1) + asset_line(entries[n - 1])
    }
}

/// The balance: a line for each asset, and no figure without both halves.
pub open spec fn balance_text(index: Option<AssetIndex>) -> Seq<char> {
    match index {
        None => "balance:  UNAVAILABLE — no figure without both the outputs and the spends\n"@,
        Some(ix) => if ix.by_asset@.len() == 0 {
            "balance:  no notes in range\n"@
        } else {
            assets_text(ix.by_asset@, ix.by_asset@.len() as int)
        },
    }
}

fn push_asset_line(t: &mut String, n: &AssetNotes)
    ensures
        final(t)@ == old(t)@ + asset_line(*n),
{
    let ghost t0 = t@;
    t.append("asset ");
    push_dec(t, n.asset as u64);
    if n.asset == 0 {
        t.append(" (fee units)");
    } else {
        t.append("");
    }
    t.append(": ");
    push_dec_wide(t, n.spendable_value());
    t.append(" spendable in ");
    push_dec(t, n.spendable.len() as u64);
    t.append(" note(s); ");
    push_dec(t, n.spent.len() as u64);
    t.append(" spent\n");
    assert(t@ =~= t0 + asset_line(*n));
}

fn push_balance(t: &mut String, index: &Option<AssetIndex>)
    ensures
        final(t)@ == old(t)@ + balance_text(*index),
{
    let ghost t0 = t@;
    match index {
        None => t.append(
            "balance:  UNAVAILABLE — no figure without both the outputs and the spends\n",
        ),
        Some(ix) => {
            if ix.by_asset.len() == 0 {
                t.append("balance:  no notes in range\n");
            } else {
                let mut i: usize = 0;
                assert(t@ =~= t0 + assets_text(ix.by_asset@, 0));
                while i < ix.by_asset.len()
                    invariant
                        i <= ix.by_asset@.len(),
                        t@ == t0 + assets_text(ix.by_asset@, i as int),
                    decreases ix.by_asset@.len() - i,
                {
                    push_asset_line(t, &ix.by_asset[i]);
                    i += 1;
                    assert(t@ =~= t0 + assets_text(ix.by_asset@, i as int));
                }
            }
        },
    }
}

pub open spec fn refused_text(refused: Seq<String>, n: int) -> Seq<char>
    decreases n,
{
    if n <= 0 {
        Seq::empty()
    } else {
        refused_text(refused, n - 1) + "refused:  "@ + refused[n - 1]@ + "\n"@
    }
}

fn push_refused(t: &mut String, refused: &Vec<String>)
    ensures
        final(t)@ == old(t)@ + refused_text(refused@, refused@.len() as int),
{
    let ghost t0 = t@;
    let mut i: usize = 0;
    assert(t@ =~= t0 + refused_text(refused@, 0));
    while i < refused.len()
        invariant
            i <= refused@.len(),
            t@ == t0 + refused_text(refused@, i as int),
        decreases refused@.len() - i,
    {
        t.append("refused:  ");
        t.append(refused[i].as_str());
        t.append("\n");
        i += 1;
        assert(t@ =~= t0 + refused_text(refused@, i as int));
    }
}

/// The report as a person is shown it.
pub open spec fn report_text(r: AnnuletReport, url: Seq<char>, range: (u64, u64)) -> Seq<char> {
    "net:      annulet — genesis "@ + hex_text(r.genesis_hash@) + " (verified against "@ + url
        + ")\n"@ + "range:    "@ + dec(range.0 as nat) + "..="@ + dec(range.1 as nat) + "\n"@
        + "coinbase: none on a sequencer net (not fetched)\n"@ + spends_line(r.spent) + rows_text(
        r.rows@,
        r.rows@.len() as int,
    ) + balance_text(r.index) + refused_text(r.refused@, r.refused@.len() as int)
}

/// The report as a person is shown it: the verified genesis, a line for each
/// asset, the coverage, and every row that could not be read.
pub fn render(report: &AnnuletReport, url: &str, range: (u64, u64)) -> (r: String)
    ensures
        r@ == report_text(*report, url@, range),
{
    let mut t: String = String::new();
    t.append("net:      annulet — genesis ");
    push_hex(&mut t, &report.genesis_hash);
    t.append(" (verified against ");
    t.append(url);
    t.append(")\n");
    t.append("range:    ");
    push_dec(&mut t, range.0);
    t.append("..=");
    push_dec(&mut t, range.1);
    t.append("\n");
    t.append("coinbase: none on a sequencer net (not fetched)\n");
    push_spends_line(&mut t, &report.spent);
    push_rows(&mut t, &report.rows);
    push_balance(&mut t, &report.index);
    push_refused(&mut t, &report.refused);
    assert(t@ =~= report_text(*report, url@, range));
    t
}

/// What a report shows. Without both halves it has no figure and says so; with them
/// every asset has its line, with what its spendable notes are worth and how many
/// notes are spendable and spent. Every scan that never started is named with the
/// reason, and so is every note that was refused.
pub proof fn law_a_report_shows_every_asset(
    r: AnnuletReport,
    url: Seq<char>,
    range: (u64, u64),
    k: int,
)
    ensures
        r.index is None ==> holds_text(
            report_text(r, url, range),
            "balance:  UNAVAILABLE — no figure without both the outputs and the spends\n"@,
        ),
        r.index is Some && 0 <= k < (r.index->0).by_asset@.len() ==> {
            let n = (r.index->0).by_asset@[k];
            holds_text(
                report_text(r, url, range),
                ": "@ + dec(worth_of(n.spendable@)) + " spendable in "@ + dec(n.spendable@.len())
                    + " note(s); "@ + dec(n.spent@.len()) + " spent\n"@,
            ) && holds_text(report_text(r, url, range), "asset "@ + dec(n.asset as nat))
        },
        0 <= k < r.rows@.len() && r.rows@[k].scan is Err ==> holds_text(
            report_text(r, url, range),
            "address "@ + dec(r.rows@[k].index as nat) + " ("@ + r.rows@[k].short@
                + "): UNAVAILABLE — the scan never started: "@ + (r.rows@[k].scan->Err_0)@ + "\n"@,
        ),
        0 <= k < r.refused@.len() ==> holds_text(
            report_text(r, url, range),
            "refused:  "@ + r.refused@[k]@ + "\n"@,
        ),
        holds_text(report_text(r, url, range), "genesis "@ + hex_text(r.genesis_hash@)),
{
    let balance = balance_text(r.index);
    let rows = rows_text(r.rows@, r.rows@.len() as int);
    let refused = refused_text(r.refused@, r.refused@.len() as int);
    if r.index is None {
        lemma_holds(Seq::empty(), balance, Seq::empty());
        assert(Seq::<char>::empty() + balance + Seq::<char>::empty() =~= balance);
        lemma_report_parts(r, url, range, balance);
    }
    if r.index is Some && 0 <= k < (r.index->0).by_asset@.len() {
        let entries = (r.index->0).by_asset@;
        let n = entries[k];
        let figures = ": "@ + dec(worth_of(n.spendable@)) + " spendable in "@ + dec(
            n.spendable@.len(),
        ) + " note(s); "@ + dec(n.spent@.len()) + " spent\n"@;
        let name = "asset "@ + dec(n.asset as nat);
        lemma_asset_figures(n);
        let (a, b) = lemma_asset_lines(entries, entries.len() as int, k);
        lemma_holds_through(a, asset_line(n), b, figures);
        lemma_holds_through(a, asset_line(n), b, name);
        lemma_report_parts(r, url, range, figures);
        lemma_report_parts(r, url, range, name);
    }
    if 0 <= k < r.rows@.len() && r.rows@[k].scan is Err {
        let (a, b) = lemma_row_lines(r.rows@, r.rows@.len() as int, k);
        lemma_holds(a, row_line(r.rows@[k]), b);
        lemma_report_parts(r, url, range, row_line(r.rows@[k]));
    }
    if 0 <= k < r.refused@.len() {
        let (a, b) = lemma_refused_lines(r.refused@, r.refused@.len() as int, k);
        let line = "refused:  "@ + r.refused@[k]@ + "\n"@;
        lemma_holds(a, line, b);
        lemma_report_parts(r, url, range, line);
    }
    lemma_report_names_genesis(r, url, range);
}

proof fn lemma_asset_figures(n: AssetNotes)
    ensures
        holds_text(
            asset_line(n),
            ": "@ + dec(worth_of(n.spendable@)) + " spendable in "@ + dec(n.spendable@.len())
                + " note(s); "@ + dec(n.spent@.len()) + " spent\n"@,
        ),
        holds_text(asset_line(n), "asset "@ + dec(n.asset as nat)),
{
    let unit = if n.asset == 0 {
        " (fee units)"@
    } else {
        ""@
    };
    let figures = ": "@ + dec(worth_of(n.spendable@)) + " spendable in "@ + dec(n.spendable@.len())
        + " note(s); "@ + dec(n.spent@.len()) + " spent\n"@;
    let name = "asset "@ + dec(n.asset as nat);
    assert(asset_line(n) =~= (name + unit) + figures + Seq::<char>::empty());
    lemma_holds(name + unit, figures, Seq::empty());
    assert(asset_line(n) =~= Seq::<char>::empty() + name + (unit + figures));
    lemma_holds(Seq::empty(), name, unit + figures);
}

/// What stands in a part of the report stands in the report.
proof fn lemma_report_parts(r: AnnuletReport, url: Seq<char>, range: (u64, u64), p: Seq<char>)
    requires
        holds_text(rows_text(r.rows@, r.rows@.len() as int), p) || holds_text(
            balance_text(r.index),
            p,
        ) || holds_text(refused_text(r.refused@, r.refused@.len() as int), p),
    ensures
        holds_text(report_text(r, url, range), p),
{
    let rows = rows_text(r.rows@, r.rows@.len() as int);
    let balance = balance_text(r.index);
    let refused = refused_text(r.refused@, r.refused@.len() as int);
    let top = "net:      annulet — genesis "@ + hex_text(r.genesis_hash@) + " (verified against "@
        + url + ")\n"@ + "range:    "@ + dec(range.0 as nat) + "..="@ + dec(range.1 as nat) + "\n"@
        + "coinbase: none on a sequencer net (not fetched)\n"@ + spends_line(r.spent);
    let all = report_text(r, url, range);
    assert(all == top + rows + balance + refused);
    if holds_text(rows, p) {
        lemma_holds_through(top, rows, balance + refused, p);
        assert(all =~= top + rows + (balance + refused));
    } else if holds_text(balance, p) {
        lemma_holds_through(top + rows, balance, refused, p);
    } else {
        lemma_holds_through(top + rows + balance, refused, Seq::empty(), p);
        assert(all =~= top + rows + balance + refused + Seq::<char>::empty());
    }
}

proof fn lemma_report_names_genesis(r: AnnuletReport, url: Seq<char>, range: (u64, u64))
    ensures
        holds_text(report_text(r, url, range), "genesis "@ + hex_text(r.genesis_hash@)),
{
    reveal_strlit("net:      annulet — genesis ");
    reveal_strlit("genesis ");
    let head = "net:      annulet — genesis "@;
    let hash = hex_text(r.genesis_hash@);
    let named = "genesis "@ + hash;
    let front = head.take(head.len() - 8);
    assert(head =~= front + "genesis "@);
    let all = report_text(r, url, range);
    let start = head + hash;
    assert(all.take(start.len() as int) =~= start);
    let rest = all.skip(start.len() as int);
    assert(all =~= start + rest);
    assert(start =~= front + named);
    assert(all =~= front + named + rest);
    lemma_holds(front, named, rest);
}

proof fn lemma_asset_lines(entries: Seq<AssetNotes>, n: int, k: int) -> (r: (Seq<char>, Seq<char>))
    requires
        0 <= k < n <= entries.len(),
    ensures
        assets_text(entries, n) == r.0 + asset_line(entries[k]) + r.1,
    decreases n,
{
    if k == n - 1 {
        let a = assets_text(entries, n - 1);
        assert(assets_text(entries, n) =~= a + asset_line(entries[k]) + Seq::<char>::empty());
        (a, Seq::empty())
    } else {
        let (a, b) = lemma_asset_lines(entries, n - 1, k);
        assert(assets_text(entries, n) =~= a + asset_line(entries[k]) + (b + asset_line(
            entries[n - 1],
        )));
        (a, b + asset_line(entries[n - 1]))
    }
}

proof fn lemma_row_lines(rows: Seq<AnnuletRow>, n: int, k: int) -> (r: (Seq<char>, Seq<char>))
    requires
        0 <= k < n <= rows.len(),
    ensures
        rows_text(rows, n) == r.0 + row_line(rows[k]) + r.1,
    decreases n,
{
    if k == n - 1 {
        let a = rows_text(rows, n - 1);
        assert(rows_text(rows, n) =~= a + row_line(rows[k]) + Seq::<char>::empty());
        (a, Seq::empty())
    } else {
        let (a, b) = lemma_row_lines(rows, n - 1, k);
        assert(rows_text(rows, n) =~= a + row_line(rows[k]) + (b + row_line(rows[n - 1])));
        (a, b + row_line(rows[n - 1]))
    }
}

proof fn lemma_refused_lines(refused: Seq<String>, n: int, k: int) -> (r: (Seq<char>, Seq<char>))
    requires
        0 <= k < n <= refused.len(),
    ensures
        refused_text(refused, n) == r.0 + ("refused:  "@ + refused[k]@ + "\n"@) + r.1,
    decreases n,
{
    if k == n - 1 {
        let a = refused_text(refused, n - 1);
        assert(refused_text(refused, n) =~= a + ("refused:  "@ + refused[k]@ + "\n"@)
            + Seq::<char>::empty());
        (a, Seq::empty())
    } else {
        let (a, b) = lemma_refused_lines(refused, n - 1, k);
        let last = "refused:  "@ + refused[n - 1]@ + "\n"@;
        assert(refused_text(refused, n) =~= a + ("refused:  "@ + refused[k]@ + "\n"@) + (b + last));
        (a, b + last)
    }
}

} // verus!
