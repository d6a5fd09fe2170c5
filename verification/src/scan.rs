//! What is read off the chain before anything may be quoted, and the rule that
//! binds the streams together: a figure exists only where both the outputs and
//! the spends are known over the same heights.
use crate::coinbase::{
    fetch_coinbase, match_mined, CoinbaseRefusal, CoinbaseSource, MinedChain, MinedReport,
};
#[allow(unused_imports)]
use crate::coinbase::{all_mined, coinbase_read, in_state, tip_of, MinedState};
use crate::driver::ScanVerdict;
use crate::note::LocatedNote;
#[allow(unused_imports)]
use crate::paging::{contains_range, lemma_widest_covered, widest};
use crate::paging::widest_range;
use crate::spent::{
    fetch_spent, subtract_spent, NullifierSource, SpentRefusal, SpentReport, SpentSet,
};
#[allow(unused_imports)]
use crate::spent::{
    already_spent, law_subtraction_parts_the_notes, spent_read, spent_value_of, unspent, value_of,
};
use vstd::prelude::*;

verus! {

/// How far the spends were subtracted, or why they could not be.
#[derive(Debug)]
pub enum SpentCoverage {
    Covered { range: Option<(u64, u64)> },
    Unavailable { why: String },
}

/// How far the coinbase stream reached, or why it could not be read.
#[derive(Debug)]
pub enum CoinbaseCoverage {
    Covered { range: Option<(u64, u64)> },
    Unavailable { why: String },
}

/// What scanning one address found.
#[derive(Debug)]
pub struct ScanOutcome {
    pub verdict: ScanVerdict,
    /// The heights that the outputs came from.
    pub served: Option<(u64, u64)>,
    pub notes: Vec<LocatedNote>,
}

/// One address's scan, or why it never started.
#[derive(Debug)]
pub struct AddressOutcome {
    pub div_index: u64,
    pub short: String,
    pub scan: Result<ScanOutcome, String>,
}

/// The heights that a scan reached; none where it never started.
pub open spec fn reached(o: AddressOutcome) -> Option<(u64, u64)> {
    match o.scan {
        Ok(s) => s.served,
        Err(_) => None,
    }
}

/// The heights that each scan reached, then those of the coinbase stream.
pub open spec fn ranges_of(outcomes: Seq<AddressOutcome>, mined: Option<(u64, u64)>) -> Seq<
    Option<(u64, u64)>,
> {
    Seq::new(outcomes.len(), |i: int| reached(outcomes[i])).push(mined)
}

/// The heights over which the spends have to be known: all that the scans and
/// the coinbase stream reached.
pub fn outputs_range(outcomes: &Vec<AddressOutcome>, mined: Option<(u64, u64)>) -> (r: Option<
    (u64, u64),
>)
    ensures
        r == widest(ranges_of(outcomes@, mined)),
{
    let mut ranges: Vec<Option<(u64, u64)>> = Vec::new();
    let mut i: usize = 0;
    while i < outcomes.len()
        invariant
            i <= outcomes@.len(),
            ranges@.len() == i,
            forall|k: int| 0 <= k < i ==> #[trigger] ranges@[k] == reached(outcomes@[k]),
        decreases outcomes@.len() - i,
    {
        match &outcomes[i].scan {
            Ok(s) => ranges.push(s.served),
            Err(_) => ranges.push(None),
        }
        i += 1;
    }
    ranges.push(mined);
    assert(ranges@ =~= ranges_of(outcomes@, mined));
    widest_range(&ranges)
}

/// What a reading of the spends is worth over the outputs: not at all where the
/// stream could not be read or does not cover what they came from.
pub open spec fn is_coverage(
    fetched: Result<SpentSet, SpentRefusal>,
    outputs: Option<(u64, u64)>,
    coverage: SpentCoverage,
    held: Option<SpentSet>,
) -> bool {
    match fetched {
        Err(e) => held is None && (coverage matches SpentCoverage::Unavailable { why } && why@
            == e.text()),
        Ok(set) => if outputs is None || contains_range(set.covered, outputs->0) {
            held == Some(set) && coverage == (SpentCoverage::Covered { range: set.covered })
        } else {
            let fault = SpentRefusal::NotCovered { covered: set.covered, outputs: outputs->0 };
            held is None && (coverage matches SpentCoverage::Unavailable { why } && why@
                == fault.text())
        },
    }
}

/// How far the spends that were read may be subtracted from the outputs.
pub fn coverage_of(
    fetched: Result<SpentSet, SpentRefusal>,
    outputs: Option<(u64, u64)>,
) -> (r: (SpentCoverage, Option<SpentSet>))
    ensures
        is_coverage(fetched, outputs, r.0, r.1),
{
    match fetched {
        Err(e) => (SpentCoverage::Unavailable { why: e.message() }, None),
        Ok(set) => match set.covers_outputs(outputs) {
            Err(e) => (SpentCoverage::Unavailable { why: e.message() }, None),
            Ok(_) => (SpentCoverage::Covered { range: set.covered }, Some(set)),
        },
    }
}

/// Everything that is read off the chain: the scans, how far the spends and the
/// coinbase reached, and what they hold.
#[derive(Debug)]
pub struct Gathered {
    pub outcomes: Vec<AddressOutcome>,
    pub coverage: SpentCoverage,
    pub set: Option<SpentSet>,
    pub coinbase_coverage: CoinbaseCoverage,
    pub mined: Option<MinedChain>,
}

/// The heights that a coinbase stream covers; none where it could not be read.
pub open spec fn mined_range(mined: Option<MinedChain>) -> Option<(u64, u64)> {
    match mined {
        Some(chain) => chain.covered,
        None => None,
    }
}

impl Gathered {
    /// A stream is held exactly where its coverage says so, and the spends
    /// reach over all that the outputs and the coinbase came from.
    pub open spec fn wf(&self) -> bool {
        &&& match self.mined {
            Some(chain) => chain.wf() && self.coinbase_coverage == (CoinbaseCoverage::Covered {
                range: chain.covered,
            }),
            None => self.coinbase_coverage is Unavailable,
        }
        &&& match self.set {
            Some(set) => set.wf() && self.coverage == (SpentCoverage::Covered {
                range: set.covered,
            }) && {
                let outputs = widest(ranges_of(self.outcomes@, mined_range(self.mined)));
                outputs is None || contains_range(set.covered, outputs->0)
            },
            None => self.coverage is Unavailable,
        }
    }
}

/// What the two readings make of the scans.
pub open spec fn is_gathered(
    g: Gathered,
    coinbase: Result<MinedChain, CoinbaseRefusal>,
    spent: Result<SpentSet, SpentRefusal>,
) -> bool {
    &&& match coinbase {
        Err(e) => g.mined is None && (g.coinbase_coverage matches CoinbaseCoverage::Unavailable {
            why,
        } && why@ == e.text()),
        Ok(chain) => g.mined == Some(chain) && g.coinbase_coverage == (CoinbaseCoverage::Covered {
            range: chain.covered,
        }),
    }
    &&& is_coverage(
        spent,
        widest(ranges_of(g.outcomes@, mined_range(g.mined))),
        g.coverage,
        g.set,
    )
}

/// The scans with the coinbase and the spends that were read behind them.
pub fn gathered(
    outcomes: Vec<AddressOutcome>,
    coinbase: Result<MinedChain, CoinbaseRefusal>,
    spent: Result<SpentSet, SpentRefusal>,
) -> (r: Gathered)
    ensures
        r.outcomes@ == outcomes@,
        is_gathered(r, coinbase, spent),
{
    let (coinbase_coverage, mined) = match coinbase {
        Err(e) => (CoinbaseCoverage::Unavailable { why: e.message() }, None),
        Ok(chain) => (CoinbaseCoverage::Covered { range: chain.covered }, Some(chain)),
    };
    let covered = match &mined {
        Some(chain) => chain.covered,
        None => None,
    };
    let outputs = outputs_range(&outcomes, covered);
    let (coverage, set) = coverage_of(spent, outputs);
    Gathered { outcomes, coverage, set, coinbase_coverage, mined }
}

/// Reads the coinbase and then the spends behind the scans. The spends come
/// last: the chain only grows, so they cover at least what the others reached.
/// What is gathered is made of just those two readings.
pub fn gather<C: CoinbaseSource, N: NullifierSource>(
    outcomes: Vec<AddressOutcome>,
    coinbase: &C,
    spends: &N,
    from: u64,
    to: u64,
) -> (r: Gathered)
    ensures
        r.outcomes@ == outcomes@,
        r.wf(),
        exists|c: Result<MinedChain, CoinbaseRefusal>, s: Result<SpentSet, SpentRefusal>|
            coinbase_read(coinbase, from, to, c) && spent_read(spends, from, to, s)
                && #[trigger] is_gathered(r, c, s),
{
    let mined = fetch_coinbase(coinbase, from, to);
    let spent = fetch_spent(spends, from, to);
    gathered(outcomes, mined, spent)
}

/// One address's row: its figures where both halves are known, and otherwise
/// why there are none.
#[derive(Debug)]
pub struct DivScan {
    pub div_index: u64,
    pub short: String,
    pub verdict: ScanVerdict,
    pub spendable_bessel: Option<u128>,
    pub report: Option<SpentReport>,
    pub never_started: Option<String>,
}

/// The row that a scan and the spends make.
pub open spec fn is_row(row: DivScan, o: AddressOutcome, set: Option<SpentSet>) -> bool {
    &&& row.div_index == o.div_index && row.short@ == o.short@
    &&& match (o.scan, set) {
        (Ok(s), Some(set)) => {
            &&& row.verdict == s.verdict
            &&& row.report matches Some(report) && report.spendable@ == unspent(s.notes@, set)
                && report.spent@ == already_spent(s.notes@, set)
            &&& row.spendable_bessel matches Some(v) && v == value_of(unspent(s.notes@, set))
            &&& row.never_started is None
        },
        (Ok(s), None) => {
            &&& row.verdict == s.verdict
            &&& row.report is None && row.spendable_bessel is None && row.never_started is None
        },
        (Err(e), _) => {
            &&& row.verdict is Complete
            &&& row.report is None && row.spendable_bessel is None
            &&& row.never_started matches Some(why) && why@ == e@
        },
    }
}

fn row_of(o: AddressOutcome, set: &Option<SpentSet>) -> (r: DivScan)
    ensures
        is_row(r, o, *set),
{
    match o.scan {
        Ok(s) => match set {
            Some(set) => {
                let report = subtract_spent(&s.notes, set);
                let spendable: u128 = report.spendable_value();
                DivScan {
                    div_index: o.div_index,
                    short: o.short,
                    verdict: s.verdict,
                    spendable_bessel: Some(spendable),
                    report: Some(report),
                    never_started: None,
                }
            },
            None => DivScan {
                div_index: o.div_index,
                short: o.short,
                verdict: s.verdict,
                spendable_bessel: None,
                report: None,
                never_started: None,
            },
        },
        Err(e) => DivScan {
            div_index: o.div_index,
            short: o.short,
            verdict: ScanVerdict::Complete,
            spendable_bessel: None,
            report: None,
            never_started: Some(e),
        },
    }
}

/// The balance view: the rows, the mined notes, and the coverage that makes the
/// figures true.
#[derive(Debug)]
pub struct ScanReport {
    pub scans: Vec<DivScan>,
    pub spent: SpentCoverage,
    /// `None` where the mined notes could not be established, which is not the
    /// same as an empty report.
    pub coinbase: Option<MinedReport>,
    pub coinbase_coverage: CoinbaseCoverage,
}

/// The report over what was gathered; `mine` are this wallet's addresses with
/// their keys.
pub fn scan_report(g: Gathered, mine: &[(u64, [u64; 4])]) -> (r: ScanReport)
    ensures
        r.scans@.len() == g.outcomes@.len(),
        forall|i: int|
            0 <= i < r.scans@.len() ==> is_row(#[trigger] r.scans@[i], g.outcomes@[i], g.set),
        r.spent == g.coverage,
        r.coinbase_coverage == g.coinbase_coverage,
        match (g.mined, g.set) {
            (Some(chain), Some(set)) => r.coinbase matches Some(m) && m.as_of == tip_of(chain) && {
                let all = all_mined(mine@, chain.blocks@, set, tip_of(chain));
                &&& m.spendable@ == in_state(all, MinedState::Spendable)
                &&& m.maturing@ == in_state(all, MinedState::Maturing)
                &&& m.spent@ == in_state(all, MinedState::Spent)
            },
            _ => r.coinbase is None,
        },
{
    let coinbase = match (&g.mined, &g.set) {
        (Some(chain), Some(set)) => Some(match_mined(mine, chain, set)),
        _ => None,
    };
    let ghost all = g.outcomes@;
    let mut left = g.outcomes;
    let mut rows: Vec<DivScan> = Vec::new();
    let mut i: usize = 0;
    let n: usize = left.len();
    while i < n
        invariant
            i <= n,
            n == all.len(),
            left@ == all.skip(i as int),
            rows@.len() == i,
            forall|k: int| 0 <= k < i ==> is_row(#[trigger] rows@[k], all[k], g.set),
        decreases n - i,
    {
        let o = left.remove(0);
        rows.push(row_of(o, &g.set));
        i += 1;
        assert(left@ =~= all.skip(i as int));
    }
    ScanReport {
        scans: rows,
        spent: g.coverage,
        coinbase,
        coinbase_coverage: g.coinbase_coverage,
    }
}

/// No figure stands in a report without the spends that were subtracted from
/// it, nor one of a scan that never started. Where both halves are known there is
/// one: what is left of the scan's notes without those that the chain has
/// published, and each of the notes stands in just one of the two lists.
pub proof fn law_no_figure_without_both_halves(g: Gathered, r: ScanReport, i: int)
    requires
        g.wf(),
        r.scans@.len() == g.outcomes@.len(),
        0 <= i < r.scans@.len(),
        is_row(r.scans@[i], g.outcomes@[i], g.set),
    ensures
        g.coverage is Unavailable ==> r.scans@[i].spendable_bessel is None,
        g.outcomes@[i].scan is Err ==> r.scans@[i].spendable_bessel is None
            && r.scans@[i].never_started is Some,
        r.scans@[i].spendable_bessel is Some ==> g.set is Some && {
            let outputs = widest(ranges_of(g.outcomes@, mined_range(g.mined)));
            outputs is None || contains_range(g.set->0.covered, outputs->0)
        },
        r.scans@[i].div_index == g.outcomes@[i].div_index,
        r.scans@[i].short@ == g.outcomes@[i].short@,
        g.outcomes@[i].scan matches Ok(s) ==> r.scans@[i].verdict == s.verdict
            && r.scans@[i].never_started is None,
        g.outcomes@[i].scan matches Err(why) ==> r.scans@[i].never_started matches Some(said)
            && said@ == why@,
        r.scans@[i].report is Some <==> g.outcomes@[i].scan is Ok && g.set is Some,
        r.scans@[i].report is Some ==> {
            let notes = (g.outcomes@[i].scan->Ok_0).notes@;
            let set = g.set->0;
            let report = r.scans@[i].report->0;
            &&& r.scans@[i].spendable_bessel == Some(value_of(report.spendable@) as u128)
            &&& value_of(report.spendable@) + spent_value_of(report.spent@) == value_of(notes)
            &&& report.spendable@.len() + report.spent@.len() == notes.len()
            &&& forall|n: LocatedNote| #[trigger]
                report.spendable@.contains(n) <==> notes.contains(n) && set.height(n.nullifier@) is None
            &&& forall|k: int|
                0 <= k < report.spent@.len() ==> {
                    let s = #[trigger] report.spent@[k];
                    notes.contains(s.note) && set.height(s.note.nullifier@) == Some(s.spent_height)
                }
        },
{
    match g.outcomes@[i].scan {
        Ok(s) => match g.set {
            Some(set) => {
                law_subtraction_parts_the_notes(s.notes@, set);
            },
            None => {},
        },
        Err(_) => {},
    }
}

/// The spends are held exactly where they were read and reach over both ends of
/// every range that a scan or the coinbase stream reached; a stream that could not
/// be read is never held, and what is held is what was read.
pub proof fn law_streams_are_held_only_in_full(
    g: Gathered,
    coinbase: Result<MinedChain, CoinbaseRefusal>,
    spent: Result<SpentSet, SpentRefusal>,
)
    requires
        is_gathered(g, coinbase, spent),
    ensures
        g.mined is Some <==> coinbase is Ok,
        g.mined matches Some(chain) ==> coinbase == Ok::<MinedChain, CoinbaseRefusal>(chain)
            && g.coinbase_coverage == (CoinbaseCoverage::Covered { range: chain.covered }),
        g.mined is None ==> g.coinbase_coverage is Unavailable,
        g.set matches Some(set) ==> spent == Ok::<SpentSet, SpentRefusal>(set) && g.coverage == (
        SpentCoverage::Covered { range: set.covered }),
        g.set is None ==> g.coverage is Unavailable,
        g.set is Some <==> spent is Ok && {
            let covered = (spent->Ok_0).covered;
            &&& forall|i: int|
                0 <= i < g.outcomes@.len() && reached(#[trigger] g.outcomes@[i]) is Some
                    ==> covered is Some && (covered->0).0 <= (reached(g.outcomes@[i])->0).0 && (
                reached(g.outcomes@[i])->0).1 <= (covered->0).1
            &&& g.mined is Some && (g.mined->0).covered is Some ==> covered is Some && (
            covered->0).0 <= ((g.mined->0).covered->0).0 && ((g.mined->0).covered->0).1 <= (
            covered->0).1
        },
{
    let ranges = ranges_of(g.outcomes@, mined_range(g.mined));
    let n = g.outcomes@.len() as int;
    assert(forall|i: int| 0 <= i < n ==> ranges[i] == reached(#[trigger] g.outcomes@[i]));
    assert(ranges[n] == mined_range(g.mined));
    if spent is Ok {
        let covered = (spent->Ok_0).covered;
        lemma_widest_covered(covered, ranges);
        if forall|i: int|
            0 <= i < ranges.len() && (#[trigger] ranges[i]) is Some ==> contains_range(
                covered,
                ranges[i]->0,
            ) {
            assert forall|i: int| 0 <= i < n && reached(#[trigger] g.outcomes@[i]) is Some implies
                covered is Some && (covered->0).0 <= (reached(g.outcomes@[i])->0).0 && (reached(
                g.outcomes@[i],
            )->0).1 <= (covered->0).1 by {
                assert(ranges[i] == reached(g.outcomes@[i]));
            }
            if g.mined is Some && (g.mined->0).covered is Some {
                assert(contains_range(covered, ranges[n]->0));
            }
        } else {
            let i = choose|i: int|
                0 <= i < ranges.len() && (#[trigger] ranges[i]) is Some && !contains_range(
                    covered,
                    ranges[i]->0,
                );
            if i < n {
                assert(ranges[i] == reached(g.outcomes@[i]));
            }
        }
    }
}

} // verus!
