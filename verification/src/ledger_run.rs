//! The ledger of a wallet: what is said beside it, and which heights burned a
//! name's fee.
//!
//! The local log of sends is an addition to what the chain shows and never stops
//! a ledger: where it is missing or unreadable, that is said, because every
//! recipient is then unknown.
use crate::coinbase::{BlockCoinbase, MinedChain};
use crate::sends::{SendLog, SendLogError, SENDS_FILE};
use vstd::prelude::*;

verus! {

/// A rendered ledger and what has to be shown beside it.
#[derive(Clone, Debug, PartialEq, Eq)]
pub struct HistoryReport {
    pub text: String,
    /// Each says why a recipient is not shown.
    pub notes: Vec<String>,
}

/// What is said of a log that cannot be read.
pub open spec fn unreadable_note(e: SendLogError) -> Seq<char> {
    e.text()
        + " — the ledger below is chain-only, so every `recipient:` line reads `not recorded`."@
}

/// What is said where there is no log.
pub open spec fn absent_note() -> Seq<char> {
    "no "@ + SENDS_FILE@
        + " in this wallet dir, so recipients are not shown. That file is written by `send` on this machine and is NEVER recoverable from a mnemonic; everything else below comes from the chain."@
}

fn absent() -> (r: String)
    ensures
        r@ == absent_note(),
{
    let mut s: String = "no ".to_owned();
    s.append(SENDS_FILE);
    s.append(
        " in this wallet dir, so recipients are not shown. That file is written by `send` on this machine and is NEVER recoverable from a mnemonic; everything else below comes from the chain.",
    );
    s
}

/// The log that a ledger joins with, and what is said of it: one that cannot be
/// read becomes a note, and one that is not there another; a file that is there
/// is never said to be missing.
pub fn log_notes(log: Result<Option<SendLog>, SendLogError>) -> (r: (Option<SendLog>, Vec<String>))
    ensures
        match log {
            Ok(Some(l)) => r.0 == Some(l) && r.1@.len() == 0,
            Ok(None) => r.0 is None && r.1@.len() == 1 && r.1@[0]@ == absent_note(),
            Err(e) => r.0 is None && r.1@.len() == 1 && r.1@[0]@ == unreadable_note(e),
        },
{
    let mut notes: Vec<String> = Vec::new();
    match log {
        Ok(Some(l)) => (Some(l), notes),
        Ok(None) => {
            notes.push(absent());
            (None, notes)
        },
        Err(e) => {
            let mut s = e.message();
            s.append(
                " — the ledger below is chain-only, so every `recipient:` line reads `not recorded`.",
            );
            notes.push(s);
            (None, notes)
        },
    }
}

/// The heights of the first `n` blocks that burned a name's fee, with the fee.
pub open spec fn burns_to(blocks: Seq<BlockCoinbase>, n: int) -> Seq<(u64, u64)>
    decreases n,
{
    if n <= 0 {
        Seq::empty()
    } else if blocks[n - 1].name_burn > 0 {
        burns_to(blocks, n - 1).push((blocks[n - 1].height, blocks[n - 1].name_burn))
    } else {
        burns_to(blocks, n - 1)
    }
}

/// The heights that burned a name's fee; none where the blocks were not read,
/// which is not the same as no burn.
pub fn name_burns(mined: Option<&MinedChain>) -> (r: Option<Vec<(u64, u64)>>)
    ensures
        match mined {
            None => r is None,
            Some(m) => r matches Some(v) && v@ == burns_to(m.blocks@, m.blocks@.len() as int),
        },
{
    match mined {
        None => None,
        Some(m) => {
            let mut out: Vec<(u64, u64)> = Vec::new();
            let mut i: usize = 0;
            while i < m.blocks.len()
                invariant
                    i <= m.blocks@.len(),
                    out@ == burns_to(m.blocks@, i as int),
                decreases m.blocks@.len() - i,
            {
                let b = &m.blocks[i];
                if b.name_burn > 0 {
                    out.push((b.height, b.name_burn));
                }
                i += 1;
            }
            Some(out)
        },
    }
}

proof fn lemma_burns(blocks: Seq<BlockCoinbase>, n: int, a: u64)
    requires
        0 <= n <= blocks.len(),
        forall|i: int| 0 <= i < blocks.len() ==> (#[trigger] blocks[i]).height == a + i,
    ensures
        forall|k: int|
            0 <= k < burns_to(blocks, n).len() ==> a <= (#[trigger] burns_to(blocks, n)[k]).0 < a
                + n && blocks[burns_to(blocks, n)[k].0 - a].name_burn == burns_to(blocks, n)[k].1
                && burns_to(blocks, n)[k].1 > 0,
        forall|k: int, l: int|
            0 <= k < l < burns_to(blocks, n).len() ==> (#[trigger] burns_to(blocks, n)[k]).0 < (
            #[trigger] burns_to(blocks, n)[l]).0,
        forall|i: int|
            0 <= i < n && (#[trigger] blocks[i]).name_burn > 0 ==> burns_to(blocks, n).contains(
                (blocks[i].height, blocks[i].name_burn),
            ),
    decreases n,
{
    if n > 0 {
        lemma_burns(blocks, n - 1, a);
        let was = burns_to(blocks, n - 1);
        let now = burns_to(blocks, n);
        let b = blocks[n - 1];
        assert(b.height == a + n - 1);
        assert forall|i: int| 0 <= i < n && (#[trigger] blocks[i]).name_burn > 0 implies now.contains(
            (blocks[i].height, blocks[i].name_burn),
        ) by {
            if i < n - 1 {
                assert(was.contains((blocks[i].height, blocks[i].name_burn)));
                let k = choose|k: int|
                    0 <= k < was.len() && was[k] == (blocks[i].height, blocks[i].name_burn);
                assert(now[k] == was[k]);
            } else {
                assert(now[now.len() - 1] == (b.height, b.name_burn));
            }
        }
        assert forall|k: int| 0 <= k < now.len() implies a <= (#[trigger] now[k]).0 < a + n
            && blocks[now[k].0 - a].name_burn == now[k].1 && now[k].1 > 0 by {
            if k < was.len() {
                assert(now[k] == was[k]);
            }
        }
        assert forall|k: int, l: int| 0 <= k < l < now.len() implies (#[trigger] now[k]).0 < (
        #[trigger] now[l]).0 by {
            assert(now[k] == was[k]);
            if l < was.len() {
                assert(now[l] == was[l]);
            }
        }
    }
}

/// The heights of the burns are those of the blocks that burned something, once
/// each, ascending.
pub proof fn law_burns_are_the_burning_blocks(m: MinedChain)
    requires
        m.wf(),
        m.covered is Some,
    ensures
        ({
            let v = burns_to(m.blocks@, m.blocks@.len() as int);
            let a = (m.covered->0).0;
            &&& forall|k: int, l: int|
                0 <= k < l < v.len() ==> (#[trigger] v[k]).0 < (#[trigger] v[l]).0
            &&& forall|i: int|
                0 <= i < m.blocks@.len() && (#[trigger] m.blocks@[i]).name_burn > 0 ==> v.contains(
                    (m.blocks@[i].height, m.blocks@[i].name_burn),
                )
            &&& forall|k: int|
                0 <= k < v.len() ==> m.blocks@[(#[trigger] v[k]).0 - a].name_burn == v[k].1 && v[k].1
                    > 0
        }),
{
    lemma_burns(m.blocks@, m.blocks@.len() as int, (m.covered->0).0);
}

} // verus!
