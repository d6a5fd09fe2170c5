//! What the chain has already spent.
//!
//! A scan reads outputs, and an output stays an output after it has been
//! spent. The node serves the nullifiers that each block published; a note
//! whose nullifier is among them is gone. A balance that could not subtract
//! them is not a balance, so the set carries the range that it covers and
//! every way of falling short of it has a name.
use crate::bytes32::eq32;
use crate::note::LocatedNote;
use crate::paging::{check_height, extend, range_contains, HeightFault};
#[allow(unused_imports)]
use crate::paging::{
    contains_range, law_a_contiguous_page_is_taken, law_faultless_page_is_contiguous, walk,
};
use crate::text::push_dec;
#[allow(unused_imports)]
use crate::text::dec;
use vstd::prelude::*;

verus! {

/// One bounded page of the nullifier stream.
#[derive(Clone, Debug)]
pub struct NullifierChunk {
    /// The server's echo of the requested `from`.
    pub from: u64,
    /// The server's echo of the requested `to`.
    pub to: u64,
    /// Height and nullifiers of each block that the server holds in the
    /// range, ascending. A block that spends nothing is there with an empty
    /// list.
    pub blocks: Vec<(u64, Vec<[u8; 32]>)>,
}

/// Where the pages of the nullifier stream come from.
pub trait NullifierSource {
    /// One bounded page for `from..=to`, or why there is none.
    fn fetch_range(&self, from: u64, to: u64) -> Result<NullifierChunk, String>;
}

/// Every way in which the subtraction of spends refuses.
#[allow(inconsistent_fields)]
#[derive(Debug, PartialEq, Eq)]
pub enum SpentRefusal {
    /// The endpoint could not be reached, or its answer did not decode.
    Endpoint { why: String },
    /// The page answers a range that was not asked for.
    RangeMismatch { asked: (u64, u64), got: (u64, u64) },
    /// A page carries a height outside the range that it answers.
    OutOfRange { height: u64, asked: (u64, u64) },
    /// Heights arrived out of order or twice.
    NotAscending { previous: u64, height: u64 },
    /// A height is missing from the middle of the stream.
    Gap { expected: u64, got: u64 },
    /// The stream does not cover the heights that the outputs came from.
    NotCovered { covered: Option<(u64, u64)>, outputs: (u64, u64) },
}

/// `a..=b`.
pub open spec fn span_text(r: (u64, u64)) -> Seq<char> {
    dec(r.0 as nat) + "..="@ + dec(r.1 as nat)
}

/// Appends `a..=b`.
pub(crate) fn push_span(s: &mut String, r: (u64, u64))
    ensures
        final(s)@ == old(s)@ + span_text(r),
{
    let ghost s0 = s@;
    push_dec(s, r.0);
    s.append("..=");
    push_dec(s, r.1);
    assert(s@ =~= s0 + span_text(r));
}

/// `a..=b`, or `nothing`.
pub open spec fn covered_text(r: Option<(u64, u64)>) -> Seq<char> {
    match r {
        Some(r) => span_text(r),
        None => "nothing"@,
    }
}

/// Appends `a..=b`, or `nothing`.
pub(crate) fn push_covered(s: &mut String, r: Option<(u64, u64)>)
    ensures
        final(s)@ == old(s)@ + covered_text(r),
{
    match r {
        Some(r) => push_span(s, r),
        None => s.append("nothing"),
    }
}

/// The sentence about a nullifier stream that could not be read.
pub open spec fn unreadable_text(why: Seq<char>) -> Seq<char> {
    "the nullifier stream could not be read ("@ + why
        + "). A balance that cannot subtract spends is not quotable — a note this wallet already spent would still be counted"@
}

impl SpentRefusal {
    /// The sentence that a person is shown.
    pub open spec fn text(&self) -> Seq<char> {
        match self {
            SpentRefusal::Endpoint { why } => unreadable_text(why@),
            SpentRefusal::RangeMismatch { asked, got } => "nullifier page refused: asked for heights "@
                + span_text(*asked) + " and it answered for "@ + span_text(*got)
                + ". The wire echoes both bounds so a page cannot be misattributed"@,
            SpentRefusal::OutOfRange { height, asked } => "nullifier page refused: it carries height "@
                + dec(*height as nat) + ", outside the "@ + span_text(*asked) + " it answers"@,
            SpentRefusal::NotAscending { previous, height } => "nullifier page refused: height "@
                + dec(*height as nat) + " follows "@ + dec(*previous as nat)
                + " — the stream must be ascending, or 'covered up to N' means nothing"@,
            SpentRefusal::Gap { expected, got } => "nullifier stream refused: height "@ + dec(
                *expected as nat,
            ) + " is missing (the next height served was "@ + dec(*got as nat)
                + "). A hole is not an empty block — refusing to treat 'I was not told' as 'nothing was spent there'"@,
            SpentRefusal::NotCovered { covered, outputs } => "nullifier stream refused: it covers "@
                + covered_text(*covered) + " but this scan's outputs came from "@ + span_text(
                *outputs,
            )
                + ". A note could have been spent in the uncovered blocks, so spendable cannot be quoted for this range"@,
        }
    }

    /// The sentence that a person is shown.
    pub fn message(&self) -> (r: String)
        ensures
            r@ == self.text(),
    {
        let mut s: String = String::new();
        match self {
            SpentRefusal::Endpoint { why } => {
                s.append("the nullifier stream could not be read (");
                s.append(why.as_str());
                s.append(
                    "). A balance that cannot subtract spends is not quotable — a note this wallet already spent would still be counted",
                );
            },
            SpentRefusal::RangeMismatch { asked, got } => {
                s.append("nullifier page refused: asked for heights ");
                push_span(&mut s, *asked);
                s.append(" and it answered for ");
                push_span(&mut s, *got);
                s.append(". The wire echoes both bounds so a page cannot be misattributed");
            },
            SpentRefusal::OutOfRange { height, asked } => {
                s.append("nullifier page refused: it carries height ");
                push_dec(&mut s, *height);
                s.append(", outside the ");
                push_span(&mut s, *asked);
                s.append(" it answers");
            },
            SpentRefusal::NotAscending { previous, height } => {
                s.append("nullifier page refused: height ");
                push_dec(&mut s, *height);
                s.append(" follows ");
                push_dec(&mut s, *previous);
                s.append(" — the stream must be ascending, or 'covered up to N' means nothing");
            },
            SpentRefusal::Gap { expected, got } => {
                s.append("nullifier stream refused: height ");
                push_dec(&mut s, *expected);
                s.append(" is missing (the next height served was ");
                push_dec(&mut s, *got);
                s.append(
                    "). A hole is not an empty block — refusing to treat 'I was not told' as 'nothing was spent there'",
                );
            },
            SpentRefusal::NotCovered { covered, outputs } => {
                s.append("nullifier stream refused: it covers ");
                push_covered(&mut s, *covered);
                s.append(" but this scan's outputs came from ");
                push_span(&mut s, *outputs);
                s.append(
                    ". A note could have been spent in the uncovered blocks, so spendable cannot be quoted for this range",
                );
            },
        }
        assert(s@ =~= self.text());
        s
    }
}

/// The height that a row of heights and nullifiers gives `nf` first.
pub open spec fn first_height(pairs: Seq<(u64, [u8; 32])>, nf: Seq<u8>) -> Option<u64>
    decreases pairs.len(),
{
    if pairs.len() == 0 {
        None
    } else {
        match first_height(pairs.drop_last(), nf) {
            Some(h) => Some(h),
            None => if pairs.last().1@ == nf {
                Some(pairs.last().0)
            } else {
                None
            },
        }
    }
}

/// The nullifiers that the chain published over a range, the height of the
/// block that published each, and how much of the range was served.
#[derive(Clone, Debug)]
pub struct SpentSet {
    /// The contiguous range that was served; `None` if no block was.
    pub covered: Option<(u64, u64)>,
    /// Each nullifier once, with the height of the block that published it.
    pub nullifiers: Vec<(u64, [u8; 32])>,
}

impl SpentSet {
    /// The height that first published `nf`.
    pub open spec fn height(&self, nf: Seq<u8>) -> Option<u64> {
        first_height(self.nullifiers@, nf)
    }

    /// No nullifier is held twice.
    pub open spec fn wf(&self) -> bool {
        forall|i: int, j: int|
            0 <= i < j < self.nullifiers@.len() ==> (#[trigger] self.nullifiers@[i]).1@ != (
            #[trigger] self.nullifiers@[j]).1@
    }

    /// The nullifiers that the set holds.
    pub open spec fn dom(&self) -> Set<Seq<u8>> {
        Set::new(|nf: Seq<u8>| self.height(nf) is Some)
    }

    /// The set that holds nothing and covers nothing.
    pub fn empty() -> (r: SpentSet)
        ensures
            r.wf(),
            r.covered is None,
            forall|nf: Seq<u8>| (#[trigger] r.height(nf)) is None,
    {
        SpentSet { covered: None, nullifiers: Vec::new() }
    }

    /// A set made of heights and nullifiers that the caller has from
    /// elsewhere. `covered` is the caller's claim.
    pub fn from_parts(covered: Option<(u64, u64)>, nullifiers: Vec<(u64, [u8; 32])>) -> (r: SpentSet)
        ensures
            r.wf(),
            r.covered == covered,
            forall|nf: Seq<u8>| #[trigger] r.height(nf) == first_height(nullifiers@, nf),
            forall|i: int|
                0 <= i < nullifiers@.len() ==> r.height((#[trigger] nullifiers@[i]).1@) is Some,
    {
        let mut r = SpentSet { covered, nullifiers: Vec::new() };
        let mut i: usize = 0;
        assert(nullifiers@.take(0) =~= Seq::empty());
        while i < nullifiers.len()
            invariant
                i <= nullifiers@.len(),
                r.wf(),
                r.covered == covered,
                forall|nf: Seq<u8>| #[trigger] r.height(nf) == first_height(nullifiers@.take(i as int), nf),
            decreases nullifiers@.len() - i,
        {
            let (h, nf) = nullifiers[i];
            r.insert(h, &nf);
            assert(nullifiers@.take(i + 1).drop_last() =~= nullifiers@.take(i as int));
            i += 1;
        }
        assert(nullifiers@.take(nullifiers@.len() as int) =~= nullifiers@);
        assert forall|k: int| 0 <= k < nullifiers@.len() implies r.height(
            (#[trigger] nullifiers@[k]).1@,
        ) is Some by {
            if first_height(nullifiers@, nullifiers@[k].1@) is None {
                lemma_first_height_none(nullifiers@, nullifiers@[k].1@);
            }
        }
        r
    }

    /// Records that `nf` was published at `height`, unless it is recorded
    /// already: a nullifier is on a chain once, so the earlier height is the
    /// one that can be true.
    fn insert(&mut self, height: u64, nf: &[u8; 32])
        requires
            old(self).wf(),
        ensures
            final(self).wf(),
            final(self).covered == old(self).covered,
            forall|n: Seq<u8>| #[trigger]
                final(self).height(n) == (match old(self).height(n) {
                    Some(h) => Some(h),
                    None => if n == nf@ {
                        Some(height)
                    } else {
                        None
                    },
                }),
    {
        let ghost before = self.nullifiers@;
        if self.height_of(nf).is_none() {
            proof {
                lemma_first_height_none(before, nf@);
            }
            self.nullifiers.push((height, *nf));
            assert(self.nullifiers@.drop_last() =~= before);
        }
    }

    /// Whether the chain published `nf` in the covered range.
    pub fn contains(&self, nf: &[u8; 32]) -> (r: bool)
        ensures
            r == self.dom().contains(nf@),
            r == self.height(nf@) is Some,
    {
        self.height_of(nf).is_some()
    }

    /// The height of the block that published `nf`.
    pub fn height_of(&self, nf: &[u8; 32]) -> (r: Option<u64>)
        ensures
            r == self.height(nf@),
            match r {
                Some(h) => exists|i: int|
                    {
                        &&& 0 <= i < self.nullifiers@.len()
                        &&& (#[trigger] self.nullifiers@[i]).0 == h
                        &&& self.nullifiers@[i].1@ == nf@
                    },
                None => forall|i: int|
                    0 <= i < self.nullifiers@.len() ==> (#[trigger] self.nullifiers@[i]).1@ != nf@,
            },
    {
        let mut i: usize = 0;
        assert(self.nullifiers@.take(0) =~= Seq::empty());
        while i < self.nullifiers.len()
            invariant
                i <= self.nullifiers@.len(),
                forall|k: int| 0 <= k < i ==> (#[trigger] self.nullifiers@[k]).1@ != nf@,
                first_height(self.nullifiers@.take(i as int), nf@) is None,
            decreases self.nullifiers@.len() - i,
        {
            assert(self.nullifiers@.take(i + 1).drop_last() =~= self.nullifiers@.take(i as int));
            if eq32(&self.nullifiers[i].1, nf) {
                proof {
                    lemma_first_height_prefix(self.nullifiers@, i + 1, nf@);
                }
                return Some(self.nullifiers[i].0);
            }
            i += 1;
        }
        assert(self.nullifiers@.take(self.nullifiers@.len() as int) =~= self.nullifiers@);
        None
    }

    /// How many nullifiers the covered range published.
    pub fn len(&self) -> (r: usize)
        requires
            self.wf(),
        ensures
            self.dom().finite(),
            r as nat == self.dom().len(),
    {
        proof {
            lemma_dom_len(self.nullifiers@);
            assert(self.dom() =~= nullifier_set(self.nullifiers@));
        }
        self.nullifiers.len()
    }

    /// Whether the covered range published no nullifier.
    pub fn is_empty(&self) -> (r: bool)
        ensures
            r == (self.dom() == Set::<Seq<u8>>::empty()),
    {
        let r = self.nullifiers.len() == 0;
        proof {
            if r {
                assert(self.dom() =~= Set::empty());
            } else {
                let nf = self.nullifiers@[0].1@;
                if self.height(nf) is None {
                    lemma_first_height_none(self.nullifiers@, nf);
                }
                assert(self.dom().contains(nf));
            }
        }
        r
    }

    /// Whether this set covers every height in which an output could have
    /// been spent. `outputs` is the range that the scanned outputs came from;
    /// with no outputs there is nothing to cover.
    pub fn covers_outputs(&self, outputs: Option<(u64, u64)>) -> (r: Result<(), SpentRefusal>)
        ensures
            r is Ok <==> (outputs is None || contains_range(self.covered, outputs->0)),
            r is Ok <==> (outputs is None || self.covered is Some && (self.covered->0).0 <= (
            outputs->0).0 && (outputs->0).1 <= (self.covered->0).1),
            r matches Err(e) ==> e == (SpentRefusal::NotCovered {
                covered: self.covered,
                outputs: outputs->0,
            }),
    {
        match outputs {
            None => Ok(()),
            Some(outputs) => {
                if range_contains(self.covered, outputs) {
                    Ok(())
                } else {
                    Err(SpentRefusal::NotCovered { covered: self.covered, outputs })
                }
            },
        }
    }
}

proof fn lemma_first_height_none(pairs: Seq<(u64, [u8; 32])>, nf: Seq<u8>)
    requires
        first_height(pairs, nf) is None,
    ensures
        forall|i: int| 0 <= i < pairs.len() ==> (#[trigger] pairs[i]).1@ != nf,
    decreases pairs.len(),
{
    if pairs.len() > 0 {
        lemma_first_height_none(pairs.drop_last(), nf);
        assert forall|i: int| 0 <= i < pairs.len() implies (#[trigger] pairs[i]).1@ != nf by {
            if i < pairs.len() - 1 {
                assert(pairs[i] == pairs.drop_last()[i]);
            }
        }
    }
}

proof fn lemma_first_height_prefix(pairs: Seq<(u64, [u8; 32])>, k: int, nf: Seq<u8>)
    requires
        0 <= k <= pairs.len(),
        first_height(pairs.take(k), nf) is Some,
    ensures
        first_height(pairs, nf) == first_height(pairs.take(k), nf),
    decreases pairs.len(),
{
    if k == pairs.len() {
        assert(pairs.take(k) =~= pairs);
    } else {
        assert(pairs.drop_last().take(k) =~= pairs.take(k));
        lemma_first_height_prefix(pairs.drop_last(), k, nf);
    }
}

spec fn nullifier_set(pairs: Seq<(u64, [u8; 32])>) -> Set<Seq<u8>> {
    Set::new(|nf: Seq<u8>| first_height(pairs, nf) is Some)
}

proof fn lemma_dom_len(pairs: Seq<(u64, [u8; 32])>)
    requires
        forall|i: int, j: int|
            0 <= i < j < pairs.len() ==> (#[trigger] pairs[i]).1@ != (#[trigger] pairs[j]).1@,
    ensures
        nullifier_set(pairs).finite(),
        nullifier_set(pairs).len() == pairs.len(),
    decreases pairs.len(),
{
    if pairs.len() == 0 {
        assert(nullifier_set(pairs) =~= Set::empty());
    } else {
        let front = pairs.drop_last();
        lemma_dom_len(front);
        let nf = pairs.last().1@;
        if first_height(front, nf) is Some {
            lemma_first_height_some(front, nf);
            let i = choose|i: int| 0 <= i < front.len() && (#[trigger] front[i]).1@ == nf;
            assert(pairs[i] == front[i]);
            assert(pairs[i].1@ != pairs[pairs.len() - 1].1@);
        }
        assert(nullifier_set(pairs) =~= nullifier_set(front).insert(nf));
    }
}

proof fn lemma_first_height_some(pairs: Seq<(u64, [u8; 32])>, nf: Seq<u8>)
    requires
        first_height(pairs, nf) is Some,
    ensures
        exists|i: int| 0 <= i < pairs.len() && (#[trigger] pairs[i]).1@ == nf,
    decreases pairs.len(),
{
    if first_height(pairs.drop_last(), nf) is Some {
        lemma_first_height_some(pairs.drop_last(), nf);
        let i = choose|i: int|
            0 <= i < pairs.drop_last().len() && (#[trigger] pairs.drop_last()[i]).1@ == nf;
        assert(pairs[i].1@ == nf);
    } else {
        assert(pairs[pairs.len() - 1].1@ == nf);
    }
}

/// The heights of a page's blocks.
pub open spec fn heights_of(blocks: Seq<(u64, Vec<[u8; 32]>)>) -> Seq<u64> {
    Seq::new(blocks.len(), |i: int| blocks[i].0)
}

/// The first `k` nullifiers of a block, each with the block's height.
pub open spec fn block_pairs(block: (u64, Vec<[u8; 32]>), k: nat) -> Seq<(u64, [u8; 32])> {
    Seq::new(k, |i: int| (block.0, block.1@[i]))
}

/// The nullifiers that a row of blocks published, in order, each with the
/// height of its block.
pub open spec fn pairs_of(blocks: Seq<(u64, Vec<[u8; 32]>)>) -> Seq<(u64, [u8; 32])>
    decreases blocks.len(),
{
    if blocks.len() == 0 {
        Seq::empty()
    } else {
        pairs_of(blocks.drop_last()) + block_pairs(blocks.last(), blocks.last().1@.len())
    }
}

/// `a` if it is there, else `b`.
pub open spec fn earlier(a: Option<u64>, b: Option<u64>) -> Option<u64> {
    match a {
        Some(h) => Some(h),
        None => b,
    }
}

proof fn lemma_first_height_concat(a: Seq<(u64, [u8; 32])>, b: Seq<(u64, [u8; 32])>, nf: Seq<u8>)
    ensures
        first_height(a + b, nf) == earlier(first_height(a, nf), first_height(b, nf)),
    decreases b.len(),
{
    if b.len() == 0 {
        assert(a + b =~= a);
    } else {
        assert((a + b).drop_last() =~= a + b.drop_last());
        lemma_first_height_concat(a, b.drop_last(), nf);
    }
}

/// A block publishes a nullifier.
pub open spec fn publishes(block: (u64, Vec<[u8; 32]>), nf: Seq<u8>) -> bool {
    exists|k: int| 0 <= k < block.1@.len() && (#[trigger] block.1@[k])@ == nf
}

proof fn lemma_block_publishes(block: (u64, Vec<[u8; 32]>), k: nat, nf: Seq<u8>)
    requires
        k <= block.1@.len(),
    ensures
        first_height(block_pairs(block, k), nf) is Some <==> exists|x: int|
            0 <= x < k && (#[trigger] block.1@[x])@ == nf,
    decreases k,
{
    if k > 0 {
        let shorter = block_pairs(block, (k - 1) as nat);
        assert(block_pairs(block, k).drop_last() =~= shorter);
        lemma_block_publishes(block, (k - 1) as nat, nf);
        assert(block_pairs(block, k).last().1@ == block.1@[k - 1]@);
    }
}

/// What a row of blocks published stands in one of them, at its height.
proof fn lemma_published_where(blocks: Seq<(u64, Vec<[u8; 32]>)>, nf: Seq<u8>)
    requires
        first_height(pairs_of(blocks), nf) is Some,
    ensures
        exists|i: int|
            0 <= i < blocks.len() && (#[trigger] blocks[i]).0 == first_height(pairs_of(blocks), nf)->0
                && publishes(blocks[i], nf),
    decreases blocks.len(),
{
    if blocks.len() > 0 {
        let front = blocks.drop_last();
        let last = blocks.last();
        lemma_first_height_concat(pairs_of(front), block_pairs(last, last.1@.len()), nf);
        if first_height(pairs_of(front), nf) is Some {
            lemma_published_where(front, nf);
            let i = choose|i: int|
                0 <= i < front.len() && (#[trigger] front[i]).0 == first_height(pairs_of(front), nf)->0
                    && publishes(front[i], nf);
            assert(blocks[i] == front[i]);
        } else {
            lemma_block_height(last, last.1@.len(), nf);
            lemma_block_publishes(last, last.1@.len(), nf);
            assert(blocks[blocks.len() - 1] == last);
        }
    }
}

/// What a block published is known from no later a block, where the heights of
/// the blocks rise.
proof fn lemma_published_first(blocks: Seq<(u64, Vec<[u8; 32]>)>, i: int, nf: Seq<u8>)
    requires
        0 <= i < blocks.len(),
        publishes(blocks[i], nf),
        forall|a: int, b: int|
            0 <= a < b < blocks.len() ==> (#[trigger] blocks[a]).0 <= (#[trigger] blocks[b]).0,
    ensures
        first_height(pairs_of(blocks), nf) matches Some(h) && h <= blocks[i].0,
    decreases blocks.len(),
{
    let front = blocks.drop_last();
    let last = blocks.last();
    lemma_first_height_concat(pairs_of(front), block_pairs(last, last.1@.len()), nf);
    if i < front.len() {
        assert(front[i] == blocks[i]);
        lemma_published_first(front, i, nf);
    } else {
        lemma_block_publishes(last, last.1@.len(), nf);
        lemma_block_height(last, last.1@.len(), nf);
        if first_height(pairs_of(front), nf) is Some {
            lemma_published_where(front, nf);
            let k = choose|k: int|
                0 <= k < front.len() && (#[trigger] front[k]).0 == first_height(pairs_of(front), nf)->0
                    && publishes(front[k], nf);
            assert(blocks[k] == front[k]);
        }
    }
}

proof fn lemma_pairs_concat(a: Seq<(u64, Vec<[u8; 32]>)>, b: Seq<(u64, Vec<[u8; 32]>)>)
    ensures
        pairs_of(a + b) == pairs_of(a) + pairs_of(b),
    decreases b.len(),
{
    if b.len() == 0 {
        assert(a + b =~= a);
        assert(pairs_of(a) + pairs_of(b) =~= pairs_of(a));
    } else {
        assert((a + b).drop_last() =~= a + b.drop_last());
        assert((a + b).last() == b.last());
        lemma_pairs_concat(a, b.drop_last());
        assert(pairs_of(a + b) =~= pairs_of(a) + pairs_of(b));
    }
}

proof fn lemma_block_height(block: (u64, Vec<[u8; 32]>), k: nat, nf: Seq<u8>)
    requires
        first_height(block_pairs(block, k), nf) is Some,
    ensures
        first_height(block_pairs(block, k), nf) == Some(block.0),
    decreases k,
{
    if k > 0 {
        let shorter = block_pairs(block, (k - 1) as nat);
        assert(block_pairs(block, k).drop_last() =~= shorter);
        if first_height(shorter, nf) is Some {
            lemma_block_height(block, (k - 1) as nat, nf);
        }
    }
}

/// The refusal for a height fault in a page that answers `asked`.
pub open spec fn refusal_of(fault: HeightFault, asked: (u64, u64)) -> SpentRefusal {
    match fault {
        HeightFault::OutOfRange { height } => SpentRefusal::OutOfRange { height, asked },
        HeightFault::NotAscending { previous, height } => SpentRefusal::NotAscending {
            previous,
            height,
        },
        HeightFault::Gap { expected, got } => SpentRefusal::Gap { expected, got },
    }
}

/// The nullifier stream over a range, taken in page by page. The caller
/// fetches the pages; the checks are all here.
pub struct SpentCatchUp {
    pub set: SpentSet,
    pub from: u64,
    pub cursor: u64,
    pub to: u64,
    pub done: bool,
}

/// How taking in a page goes: what of it is taken, and what is refused.
pub open spec fn nullifiers_taken(
    before: SpentCatchUp,
    page: NullifierChunk,
    now: SpentCatchUp,
    r: Result<(), SpentRefusal>,
) -> bool {
    &&& now.wf()
    &&& now.from == before.from && now.to == before.to
    &&& (before.done ==> {
        &&& r matches Err(SpentRefusal::Endpoint { why })
        &&& why@ == "a page was supplied after the stream completed"@
        &&& now == before
    })
    &&& (!before.done && (page.from, page.to) != (before.cursor, before.to) ==> {
        &&& r == Err::<(), SpentRefusal>(
            SpentRefusal::RangeMismatch {
                asked: (before.cursor, before.to),
                got: (page.from, page.to),
            },
        )
        &&& now == before
    })
    &&& (!before.done && (page.from, page.to) == (before.cursor, before.to)
        && page.blocks@.len() == 0 ==> {
        &&& r is Ok
        &&& now.done
        &&& now.set == before.set
        &&& now.cursor == before.cursor
    })
    &&& (!before.done && (page.from, page.to) == (before.cursor, before.to)
        && page.blocks@.len() > 0 ==> {
        let w = walk(
            before.set.covered,
            before.cursor,
            before.to,
            heights_of(page.blocks@),
        );
        &&& now.set.covered == w.covered
        &&& forall|nf: Seq<u8>| #[trigger]
            now.set.height(nf) == earlier(
                before.set.height(nf),
                first_height(pairs_of(page.blocks@.take(w.taken as int)), nf),
            )
        &&& w.fault matches Some(fault) ==> {
            &&& r == Err::<(), SpentRefusal>(
                refusal_of(fault, (before.cursor, before.to)),
            )
            &&& now.done == before.done
            &&& now.cursor == before.cursor
        }
        &&& w.fault is None ==> {
            let last = page.blocks@.last().0;
            &&& r is Ok
            &&& now.done == (last >= before.to)
            &&& !now.done ==> now.cursor == last + 1
            &&& last >= before.cursor
        }
    })
}

impl SpentCatchUp {
    /// The covered range lies in the requested one, and every nullifier held
    /// was published inside it.
    pub open spec fn wf(&self) -> bool {
        &&& self.set.wf()
        &&& self.from <= self.cursor
        &&& match self.set.covered {
            Some((a, b)) => self.from <= a <= b <= self.to,
            None => true,
        }
        &&& forall|nf: Seq<u8>| (#[trigger] self.set.height(nf)) matches Some(h) ==> contains_range(
            self.set.covered,
            (h, h),
        )
    }

    /// A stream over `from..=to` of which nothing has been served.
    pub fn new(from: u64, to: u64) -> (r: SpentCatchUp)
        ensures
            r.wf(),
            r.from == from && r.cursor == from && r.to == to && !r.done,
            r.set.covered is None,
            forall|nf: Seq<u8>| (#[trigger] r.set.height(nf)) is None,
    {
        SpentCatchUp { set: SpentSet::empty(), from, cursor: from, to, done: false }
    }

    /// The range to ask the endpoint for next; `None` once the stream is
    /// complete.
    pub fn want(&self) -> (r: Option<(u64, u64)>)
        ensures
            r == (if self.done {
                None
            } else {
                Some((self.cursor, self.to))
            }),
    {
        if self.done {
            None
        } else {
            Some((self.cursor, self.to))
        }
    }

    /// Takes one page in: its echo of the range, then every height.
    pub fn supply(&mut self, page: NullifierChunk) -> (r: Result<(), SpentRefusal>)
        requires
            old(self).wf(),
        ensures
            nullifiers_taken(*old(self), page, *final(self), r),
    {
        if self.done {
            return Err(
                SpentRefusal::Endpoint {
                    why: "a page was supplied after the stream completed".to_owned(),
                },
            );
        }
        let asked = (self.cursor, self.to);
        if page.from != self.cursor || page.to != self.to {
            return Err(SpentRefusal::RangeMismatch { asked, got: (page.from, page.to) });
        }
        let blocks = &page.blocks;
        if blocks.len() == 0 {
            self.done = true;
            return Ok(());
        }
        let ghost hs = heights_of(blocks@);
        let ghost w0 = walk(self.set.covered, self.cursor, self.to, hs);
        let mut i: usize = 0;
        assert(hs.skip(0) =~= hs);
        assert(pairs_of(blocks@.take(0)) =~= Seq::empty());
        while i < blocks.len()
            invariant
                i <= blocks@.len(),
                hs == heights_of(blocks@),
                blocks@ == page.blocks@ && blocks@.len() > 0,
                page.from == asked.0 && page.to == asked.1,
                !self.done,
                self.from == old(self).from && self.to == old(self).to,
                old(self).wf(),
                old(self).cursor == asked.0 && old(self).to == asked.1,
                !old(self).done,
                self.set.wf(),
                self.from <= asked.0,
                w0 == walk(old(self).set.covered, asked.0, asked.1, hs),
                ({
                    let w = walk(self.set.covered, asked.0, asked.1, hs.skip(i as int));
                    &&& w.covered == w0.covered
                    &&& w.fault == w0.fault
                    &&& w.taken + i == w0.taken
                }),
                i == 0 ==> self.set.covered == old(self).set.covered,
                self.cursor == asked.0,
                i > 0 ==> asked.0 <= blocks@[i - 1].0,
                match self.set.covered {
                    Some((a, b)) => self.from <= a <= b <= self.to,
                    None => i == 0,
                },
                i > 0 ==> (self.set.covered matches Some((_, b)) && b == blocks@[i - 1].0),
                forall|nf: Seq<u8>| #[trigger]
                    self.set.height(nf) == earlier(
                        old(self).set.height(nf),
                        first_height(pairs_of(blocks@.take(i as int)), nf),
                    ),
                forall|nf: Seq<u8>| (#[trigger] self.set.height(nf)) matches Some(h)
                    ==> contains_range(self.set.covered, (h, h)),
            decreases blocks@.len() - i,
        {
            let height: u64 = blocks[i].0;
            assert(hs.skip(i as int)[0] == height);
            assert(hs.skip(i as int).skip(1) =~= hs.skip(i + 1));
            match check_height(self.set.covered, asked.0, asked.1, height) {
                Some(HeightFault::OutOfRange { height }) => {
                    return Err(SpentRefusal::OutOfRange { height, asked });
                },
                Some(HeightFault::NotAscending { previous, height }) => {
                    return Err(SpentRefusal::NotAscending { previous, height });
                },
                Some(HeightFault::Gap { expected, got }) => {
                    return Err(SpentRefusal::Gap { expected, got });
                },
                None => {},
            }
            let ghost covered0 = self.set.covered;
            let ghost set1 = self.set;
            let nfs = &blocks[i].1;
            let mut k: usize = 0;
            proof {
                assert(block_pairs(blocks@[i as int], 0) =~= Seq::empty());
            }
            while k < nfs.len()
                invariant
                    k <= nfs@.len(),
                    i < blocks@.len(),
                    nfs@ == blocks@[i as int].1@,
                    height == blocks@[i as int].0,
                    self.set.wf(),
                    self.set.covered == covered0,
                    self.from == old(self).from && self.to == old(self).to,
                    self.cursor == asked.0,
                    !self.done,
                    forall|nf: Seq<u8>| #[trigger]
                        self.set.height(nf) == earlier(
                            set1.height(nf),
                            first_height(block_pairs(blocks@[i as int], k as nat), nf),
                        ),
                decreases nfs@.len() - k,
            {
                self.set.insert(height, &nfs[k]);
                assert(block_pairs(blocks@[i as int], (k + 1) as nat).drop_last() =~= block_pairs(
                    blocks@[i as int],
                    k as nat,
                ));
                k += 1;
            }
            let ghost set2 = self.set;
            self.set.covered = extend(self.set.covered, height);
            proof {
                let b = blocks@[i as int];
                let p = blocks@.take(i as int);
                assert(blocks@.take(i + 1).drop_last() =~= p);
                assert(blocks@.take(i + 1).last() == b);
                assert forall|nf: Seq<u8>| #[trigger]
                    self.set.height(nf) == earlier(
                        old(self).set.height(nf),
                        first_height(pairs_of(blocks@.take(i + 1)), nf),
                    ) by {
                    lemma_first_height_concat(pairs_of(p), block_pairs(b, b.1@.len()), nf);
                    assert(self.set.height(nf) == set2.height(nf));
                    assert(set1.height(nf) == earlier(
                        old(self).set.height(nf),
                        first_height(pairs_of(p), nf),
                    ));
                }
                assert forall|nf: Seq<u8>| (#[trigger] self.set.height(nf)) is Some
                    implies contains_range(
                    self.set.covered,
                    (self.set.height(nf)->0, self.set.height(nf)->0),
                ) by {
                    assert(self.set.height(nf) == set2.height(nf));
                    if set1.height(nf) is None {
                        lemma_block_height(b, b.1@.len(), nf);
                    }
                }
            }
            i += 1;
        }
        proof {
            assert(hs.skip(i as int) =~= Seq::empty());
            assert(blocks@.take(i as int) =~= blocks@);
        }
        let last: u64 = blocks[blocks.len() - 1].0;
        if last >= self.to {
            self.done = true;
        } else {
            self.cursor = last + 1;
        }
        Ok(())
    }

    /// The set that the pages came to.
    pub fn finish(self) -> (r: SpentSet)
        ensures
            r == self.set,
    {
        self.set
    }
}

/// A stream of which nothing has been served.
pub open spec fn unread(c: SpentCatchUp, from: u64, to: u64) -> bool {
    &&& c.wf()
    &&& c.from == from && c.cursor == from && c.to == to && !c.done
    &&& c.set.covered is None
    &&& forall|nf: Seq<u8>| (#[trigger] c.set.height(nf)) is None
}

/// What a source may answer a stream that asks for its next page.
pub open spec fn answers<S: NullifierSource>(
    source: &S,
    c: SpentCatchUp,
    answer: Result<NullifierChunk, String>,
) -> bool {
    !c.done && call_ensures(S::fetch_range, (source, c.cursor, c.to), answer)
}

/// Page `i` is the source's answer to what was wanted then, and was taken in
/// without a refusal.
pub open spec fn page_taken<S: NullifierSource>(
    source: &S,
    states: Seq<SpentCatchUp>,
    pages: Seq<NullifierChunk>,
    i: int,
) -> bool {
    &&& answers(source, states[i], Ok(pages[i]))
    &&& nullifiers_taken(states[i], pages[i], states[i + 1], Ok(()))
}

/// The states of a stream over `from..=to` as it takes in page after page of a
/// source.
pub open spec fn paged<S: NullifierSource>(
    source: &S,
    from: u64,
    to: u64,
    states: Seq<SpentCatchUp>,
    pages: Seq<NullifierChunk>,
) -> bool {
    &&& states.len() == pages.len() + 1
    &&& unread(states[0], from, to)
    &&& forall|i: int| 0 <= i < pages.len() ==> #[trigger] page_taken(source, states, pages, i)
}

/// How a reading ends: with the set once the stream is complete, and before that
/// with the source's own failure or with the refusal of the page that it gave.
pub open spec fn ended<S: NullifierSource>(
    source: &S,
    c: SpentCatchUp,
    r: Result<SpentSet, SpentRefusal>,
) -> bool {
    match r {
        Ok(set) => c.done && set == c.set,
        Err(e) => {
            ||| exists|why: String| #[trigger]
                answers(source, c, Err(why)) && e == (SpentRefusal::Endpoint { why })
            ||| exists|page: NullifierChunk, now: SpentCatchUp|
                answers(source, c, Ok(page)) && #[trigger] nullifiers_taken(c, page, now, Err(e))
        },
    }
}

/// What reading the stream of a source over `from..=to` can come to.
pub open spec fn spent_read<S: NullifierSource>(
    source: &S,
    from: u64,
    to: u64,
    r: Result<SpentSet, SpentRefusal>,
) -> bool {
    exists|states: Seq<SpentCatchUp>, pages: Seq<NullifierChunk>| #[trigger]
        paged(source, from, to, states, pages) && ended(source, states.last(), r)
}

/// Pages the nullifier stream over `from..=to`: from the last served height
/// on, until `to` is reached or the endpoint serves nothing further.
///
/// What comes back is what the source's own pages come to, each of them asked
/// for from where the one before it ended; the first failure of the source and
/// the first page that is refused end the reading. Whatever the source answers,
/// a set that comes back covers a contiguous part of the range, and holds only
/// nullifiers published inside that part.
pub fn fetch_spent<S: NullifierSource>(source: &S, from: u64, to: u64) -> (r: Result<
    SpentSet,
    SpentRefusal,
>)
    ensures
        spent_read(source, from, to, r),
        r matches Ok(set) ==> {
            &&& set.wf()
            &&& set.covered matches Some((a, b)) ==> from <= a <= b <= to
            &&& forall|nf: Seq<u8>| (#[trigger] set.height(nf)) matches Some(h) ==> contains_range(
                set.covered,
                (h, h),
            )
        },
        r matches Err(e) ==> e !is NotCovered,
{
    let mut catch = SpentCatchUp::new(from, to);
    let ghost mut states: Seq<SpentCatchUp> = seq![catch];
    let ghost mut pages: Seq<NullifierChunk> = Seq::empty();
    while !catch.done
        invariant
            catch.wf(),
            catch.from == from && catch.to == to,
            paged(source, from, to, states, pages),
            states.last() == catch,
        decreases
                if catch.done {
                    0int
                } else if catch.cursor <= to {
                    to - catch.cursor + 2
                } else {
                    1int
                },
    {
        let ghost before = catch;
        let answer = source.fetch_range(catch.cursor, to);
        assert(answers(source, before, answer));
        let page = match answer {
            Ok(page) => page,
            Err(why) => {
                return Err(SpentRefusal::Endpoint { why });
            },
        };
        let supplied = catch.supply(page);
        assert(nullifiers_taken(before, page, catch, supplied));
        match supplied {
            Ok(()) => {},
            Err(e) => {
                return Err(e);
            },
        }
        proof {
            let s = states.push(catch);
            let p = pages.push(page);
            assert forall|i: int| 0 <= i < p.len() implies #[trigger] page_taken(
                source,
                s,
                p,
                i,
            ) by {
                if i < pages.len() {
                    assert(page_taken(source, states, pages, i));
                }
            }
            states = s;
            pages = p;
        }
    }
    Ok(catch.finish())
}

/// The blocks of a row of pages, in order.
pub open spec fn blocks_of(pages: Seq<NullifierChunk>) -> Seq<(u64, Vec<[u8; 32]>)>
    decreases pages.len(),
{
    if pages.len() == 0 {
        Seq::empty()
    } else {
        blocks_of(pages.drop_last()) + pages.last().blocks@
    }
}

/// The states of a stream over `from..=to` as it takes in page after page,
/// wherever they come from.
pub open spec fn taken_in(
    from: u64,
    to: u64,
    states: Seq<SpentCatchUp>,
    pages: Seq<NullifierChunk>,
) -> bool {
    &&& states.len() == pages.len() + 1
    &&& unread(states[0], from, to)
    &&& forall|i: int|
        0 <= i < pages.len() ==> nullifiers_taken(
            states[i],
            #[trigger] pages[i],
            states[i + 1],
            Ok(()),
        )
}

/// The set is what a row of blocks comes to. The blocks follow one another
/// without a hole; the set covers them from the first to the last, and nothing
/// exactly where there is none. It holds what they publish and nothing else,
/// each nullifier at the height of the first block that publishes it.
pub open spec fn comes_to(set: SpentSet, blocks: Seq<(u64, Vec<[u8; 32]>)>) -> bool {
    &&& forall|i: int| 0 <= i < blocks.len() ==> (#[trigger] blocks[i]).0 == blocks[0].0 + i
    &&& set.covered is None <==> blocks.len() == 0
    &&& blocks.len() > 0 ==> set.covered == Some((blocks[0].0, blocks.last().0))
    &&& forall|nf: Seq<u8>| (#[trigger] set.height(nf)) is Some ==> exists|i: int|
        0 <= i < blocks.len() && (#[trigger] blocks[i]).0 == set.height(nf)->0 && publishes(
            blocks[i],
            nf,
        )
    &&& forall|i: int, nf: Seq<u8>|
        0 <= i < blocks.len() && #[trigger] publishes(blocks[i], nf) ==> (set.height(nf) matches Some(h)
            && h <= blocks[i].0)
}

/// However a stream was cut into pages, what was taken in is what their blocks
/// come to.
pub proof fn law_a_stream_comes_to_its_blocks(
    from: u64,
    to: u64,
    states: Seq<SpentCatchUp>,
    pages: Seq<NullifierChunk>,
)
    requires
        taken_in(from, to, states, pages),
    ensures
        comes_to(states.last().set, blocks_of(pages)),
        forall|i: int|
            0 <= i < blocks_of(pages).len() ==> from <= (#[trigger] blocks_of(pages)[i]).0 <= to,
{
    lemma_taken_in(from, to, states, pages);
    let blocks = blocks_of(pages);
    let set = states.last().set;
    assert forall|nf: Seq<u8>| (#[trigger] set.height(nf)) is Some implies exists|i: int|
        0 <= i < blocks.len() && (#[trigger] blocks[i]).0 == set.height(nf)->0 && publishes(
            blocks[i],
            nf,
        ) by {
        lemma_published_where(blocks, nf);
    }
    assert forall|i: int, nf: Seq<u8>|
        0 <= i < blocks.len() && #[trigger] publishes(blocks[i], nf) implies (set.height(
        nf,
    ) matches Some(h) && h <= blocks[i].0) by {
        lemma_published_first(blocks, i, nf);
    }
}

proof fn lemma_taken_in(
    from: u64,
    to: u64,
    states: Seq<SpentCatchUp>,
    pages: Seq<NullifierChunk>,
)
    requires
        taken_in(from, to, states, pages),
    ensures
        ({
            let blocks = blocks_of(pages);
            let c = states.last();
            &&& c.wf() && c.from == from && c.to == to
            &&& forall|i: int| 0 <= i < blocks.len() ==> (#[trigger] blocks[i]).0 == blocks[0].0 + i
            &&& forall|i: int| 0 <= i < blocks.len() ==> from <= (#[trigger] blocks[i]).0 <= to
            &&& c.set.covered is None <==> blocks.len() == 0
            &&& blocks.len() > 0 ==> c.set.covered == Some((blocks[0].0, blocks.last().0))
            &&& forall|nf: Seq<u8>| #[trigger]
                c.set.height(nf) == first_height(pairs_of(blocks), nf)
        }),
    decreases pages.len(),
{
    let n = pages.len() as int;
    if n > 0 {
        let front = pages.drop_last();
        let before = states[n - 1];
        let page = pages[n - 1];
        assert forall|i: int| 0 <= i < front.len() implies nullifiers_taken(
            states.drop_last()[i],
            #[trigger] front[i],
            states.drop_last()[i + 1],
            Ok(()),
        ) by {
            assert(front[i] == pages[i]);
        }
        lemma_taken_in(from, to, states.drop_last(), front);
        assert(states.drop_last().last() == before);
        assert(nullifiers_taken(before, page, states[n], Ok(())));
        let old_blocks = blocks_of(front);
        let more = page.blocks@;
        let blocks = blocks_of(pages);
        assert(blocks == old_blocks + more);
        lemma_pairs_concat(old_blocks, more);
        if more.len() == 0 {
            assert(blocks =~= old_blocks);
        } else {
            let hs = heights_of(more);
            crate::paging::law_faultless_page_is_contiguous(
                before.set.covered,
                before.cursor,
                before.to,
                hs,
            );
            assert(more.take(more.len() as int) =~= more);
            assert forall|nf: Seq<u8>| #[trigger]
                states[n].set.height(nf) == first_height(pairs_of(blocks), nf) by {
                lemma_first_height_concat(pairs_of(old_blocks), pairs_of(more), nf);
            }
            assert forall|i: int| 0 <= i < blocks.len() implies (#[trigger] blocks[i]).0
                == blocks[0].0 + i && from <= blocks[i].0 <= to by {
                if i < old_blocks.len() {
                    assert(blocks[i] == old_blocks[i]);
                } else {
                    let k = i - old_blocks.len();
                    assert(blocks[i] == more[k]);
                    assert(hs[k] == hs[0] + k);
                    assert(hs[k] <= to);
                }
            }
            assert(blocks.last() == more.last());
            assert(hs.last() == more.last().0);
        }
    }
}

/// A set that was read off a source is what the blocks of the source's pages
/// come to: up to the end of the range, or to a page that serves nothing
/// further.
pub proof fn law_a_read_set_is_its_pages<S: NullifierSource>(
    source: &S,
    from: u64,
    to: u64,
    set: SpentSet,
)
    requires
        spent_read(source, from, to, Ok(set)),
    ensures
        exists|states: Seq<SpentCatchUp>, pages: Seq<NullifierChunk>| #[trigger]
            paged(source, from, to, states, pages) && comes_to(set, blocks_of(pages))
                && pages.len() > 0 && (pages.last().blocks@.len() == 0 || (set.covered->0).1 == to),
{
    let (states, pages) = choose|states: Seq<SpentCatchUp>, pages: Seq<NullifierChunk>| #[trigger]
        paged(source, from, to, states, pages) && ended(
            source,
            states.last(),
            Ok::<SpentSet, SpentRefusal>(set),
        );
    assert forall|i: int| 0 <= i < pages.len() implies nullifiers_taken(
        states[i],
        #[trigger] pages[i],
        states[i + 1],
        Ok(()),
    ) by {
        assert(page_taken(source, states, pages, i));
    }
    law_a_stream_comes_to_its_blocks(from, to, states, pages);
    let blocks = blocks_of(pages);
    if pages.last().blocks@.len() > 0 {
        assert(nullifiers_taken(
            states[pages.len() - 1],
            pages[pages.len() - 1],
            states.last(),
            Ok(()),
        ));
        assert(blocks.last() == pages.last().blocks@.last());
        assert(blocks[blocks.len() - 1].0 <= to);
        lemma_taken_in(from, to, states, pages);
    }
}

/// A note of this wallet whose nullifier is on the chain.
#[derive(Clone, Copy, Debug)]
pub struct SpentNote {
    pub note: LocatedNote,
    /// The nullifier that matched.
    pub nullifier: [u8; 32],
    /// The height of the block that published it: the chain's own date for
    /// the spend.
    pub spent_height: u64,
}

/// Notes parted by whether the chain has seen their nullifiers.
#[derive(Clone, Debug)]
pub struct SpentReport {
    /// What a balance sums.
    pub spendable: Vec<LocatedNote>,
    /// Opened and already spent: reported, never summed, never dropped.
    pub spent: Vec<SpentNote>,
}

/// The notes whose nullifiers the chain has not published, in order.
pub open spec fn unspent(notes: Seq<LocatedNote>, set: SpentSet) -> Seq<LocatedNote>
    decreases notes.len(),
{
    if notes.len() == 0 {
        Seq::empty()
    } else {
        let front = unspent(notes.drop_last(), set);
        if set.height(notes.last().nullifier@) is None {
            front.push(notes.last())
        } else {
            front
        }
    }
}

/// The notes whose nullifiers the chain has published, in order, each with
/// the height that did.
pub open spec fn already_spent(notes: Seq<LocatedNote>, set: SpentSet) -> Seq<SpentNote>
    decreases notes.len(),
{
    if notes.len() == 0 {
        Seq::empty()
    } else {
        let front = already_spent(notes.drop_last(), set);
        match set.height(notes.last().nullifier@) {
            Some(h) => front.push(
                SpentNote {
                    note: notes.last(),
                    nullifier: notes.last().nullifier,
                    spent_height: h,
                },
            ),
            None => front,
        }
    }
}

/// The value of the notes together.
pub open spec fn value_of(notes: Seq<LocatedNote>) -> nat
    decreases notes.len(),
{
    if notes.len() == 0 {
        0
    } else {
        value_of(notes.drop_last()) + notes.last().note.value as nat
    }
}

/// The value of the spent notes together.
pub open spec fn spent_value_of(notes: Seq<SpentNote>) -> nat
    decreases notes.len(),
{
    if notes.len() == 0 {
        0
    } else {
        spent_value_of(notes.drop_last()) + notes.last().note.note.value as nat
    }
}

impl SpentReport {
    /// The value that may be credited.
    pub fn spendable_value(&self) -> (r: u128)
        ensures
            r as nat == value_of(self.spendable@),
    {
        let mut sum: u128 = 0;
        let mut i: usize = 0;
        assert(self.spendable@.take(0) =~= Seq::empty());
        while i < self.spendable.len()
            invariant
                i <= self.spendable@.len(),
                sum as nat == value_of(self.spendable@.take(i as int)),
                sum <= i * 0xffff_ffff_ffff_ffff,
            decreases self.spendable@.len() - i,
        {
            assert(self.spendable@.take(i + 1).drop_last() =~= self.spendable@.take(i as int));
            assert(i * 0xffff_ffff_ffff_ffff + 0xffff_ffff_ffff_ffff <= u128::MAX) by (nonlinear_arith)
                requires
                    i < 0xffff_ffff_ffff_ffff,
            ;
            sum += self.spendable[i].note.value as u128;
            i += 1;
            assert(i * 0xffff_ffff_ffff_ffff == (i - 1) * 0xffff_ffff_ffff_ffff
                + 0xffff_ffff_ffff_ffff) by (nonlinear_arith);
        }
        assert(self.spendable@.take(self.spendable@.len() as int) =~= self.spendable@);
        sum
    }

    /// The value already spent out of this range: reported, never credited.
    pub fn spent_value(&self) -> (r: u128)
        ensures
            r as nat == spent_value_of(self.spent@),
    {
        let mut sum: u128 = 0;
        let mut i: usize = 0;
        assert(self.spent@.take(0) =~= Seq::empty());
        while i < self.spent.len()
            invariant
                i <= self.spent@.len(),
                sum as nat == spent_value_of(self.spent@.take(i as int)),
                sum <= i * 0xffff_ffff_ffff_ffff,
            decreases self.spent@.len() - i,
        {
            assert(self.spent@.take(i + 1).drop_last() =~= self.spent@.take(i as int));
            assert(i * 0xffff_ffff_ffff_ffff + 0xffff_ffff_ffff_ffff <= u128::MAX) by (nonlinear_arith)
                requires
                    i < 0xffff_ffff_ffff_ffff,
            ;
            sum += self.spent[i].note.note.value as u128;
            i += 1;
            assert(i * 0xffff_ffff_ffff_ffff == (i - 1) * 0xffff_ffff_ffff_ffff
                + 0xffff_ffff_ffff_ffff) by (nonlinear_arith);
        }
        assert(self.spent@.take(self.spent@.len() as int) =~= self.spent@);
        sum
    }
}

/// Parts `notes` by the chain's published nullifiers. The order is kept in
/// each list.
pub fn subtract_spent(notes: &[LocatedNote], spent: &SpentSet) -> (r: SpentReport)
    ensures
        r.spendable@ == unspent(notes@, *spent),
        r.spent@ == already_spent(notes@, *spent),
{
    let mut r = SpentReport { spendable: Vec::new(), spent: Vec::new() };
    let mut i: usize = 0;
    assert(notes@.take(0) =~= Seq::empty());
    while i < notes.len()
        invariant
            i <= notes@.len(),
            r.spendable@ == unspent(notes@.take(i as int), *spent),
            r.spent@ == already_spent(notes@.take(i as int), *spent),
        decreases notes@.len() - i,
    {
        let note = notes[i];
        assert(notes@.take(i + 1).drop_last() =~= notes@.take(i as int));
        match spent.height_of(&note.nullifier) {
            Some(spent_height) => {
                r.spent.push(SpentNote { note, nullifier: note.nullifier, spent_height });
            },
            None => {
                r.spendable.push(note);
            },
        }
        i += 1;
    }
    assert(notes@.take(notes@.len() as int) =~= notes@);
    r
}

/// Every note is in exactly one of the two lists: a note is spendable exactly
/// if it is one of the notes and the chain has not published its nullifier,
/// nothing spent is spendable, and no value is lost between them.
pub proof fn law_subtraction_parts_the_notes(notes: Seq<LocatedNote>, set: SpentSet)
    ensures
        unspent(notes, set).len() + already_spent(notes, set).len() == notes.len(),
        value_of(unspent(notes, set)) + spent_value_of(already_spent(notes, set)) == value_of(notes),
        forall|n: LocatedNote| #[trigger]
            unspent(notes, set).contains(n) <==> notes.contains(n) && set.height(n.nullifier@) is None,
        forall|i: int|
            0 <= i < already_spent(notes, set).len() ==> {
                let s = #[trigger] already_spent(notes, set)[i];
                &&& notes.contains(s.note)
                &&& set.height(s.note.nullifier@) == Some(s.spent_height)
                &&& s.nullifier == s.note.nullifier
            },
        forall|i: int|
            0 <= i < notes.len() && set.height((#[trigger] notes[i]).nullifier@) is Some
                ==> already_spent(notes, set).contains(
                SpentNote {
                    note: notes[i],
                    nullifier: notes[i].nullifier,
                    spent_height: set.height(notes[i].nullifier@)->0,
                },
            ),
    decreases notes.len(),
{
    if notes.len() > 0 {
        let front = notes.drop_last();
        let last = notes.last();
        law_subtraction_parts_the_notes(front, set);
        let u0 = unspent(front, set);
        let s0 = already_spent(front, set);
        assert(notes =~= front.push(last));
        if set.height(last.nullifier@) is None {
            assert(unspent(notes, set).drop_last() =~= u0);
        } else {
            assert(already_spent(notes, set).drop_last() =~= s0);
        }
        assert forall|n: LocatedNote| #[trigger]
            unspent(notes, set).contains(n) <==> notes.contains(n) && set.height(n.nullifier@) is None by {
            lemma_contains_push(front, last, n);
            lemma_contains_push(u0, last, n);
            assert(u0.contains(n) <==> front.contains(n) && set.height(n.nullifier@) is None);
        }
        assert forall|i: int| 0 <= i < already_spent(notes, set).len() implies {
            let s = #[trigger] already_spent(notes, set)[i];
            &&& notes.contains(s.note)
            &&& set.height(s.note.nullifier@) == Some(s.spent_height)
            &&& s.nullifier == s.note.nullifier
        } by {
            lemma_contains_push(front, last, already_spent(notes, set)[i].note);
            if i < s0.len() {
                assert(already_spent(notes, set)[i] == s0[i]);
            }
        }
        assert forall|i: int|
            0 <= i < notes.len() && set.height((#[trigger] notes[i]).nullifier@) is Some implies already_spent(
            notes,
            set,
        ).contains(
            SpentNote {
                note: notes[i],
                nullifier: notes[i].nullifier,
                spent_height: set.height(notes[i].nullifier@)->0,
            },
        ) by {
            let s = SpentNote {
                note: notes[i],
                nullifier: notes[i].nullifier,
                spent_height: set.height(notes[i].nullifier@)->0,
            };
            if i < front.len() {
                assert(front[i] == notes[i]);
            }
            if set.height(last.nullifier@) is Some {
                lemma_contains_push(s0, already_spent(notes, set).last(), s);
                assert(already_spent(notes, set) =~= s0.push(already_spent(notes, set).last()));
            }
        }
    }
}

/// The value of no notes is nothing, that of one is its own, and that of two
/// rows of notes is theirs together.
pub proof fn law_values_add_up(a: Seq<LocatedNote>, b: Seq<LocatedNote>, n: LocatedNote)
    ensures
        value_of(Seq::empty()) == 0,
        value_of(seq![n]) == n.note.value,
        value_of(a + b) == value_of(a) + value_of(b),
    decreases b.len(),
{
    assert(seq![n].drop_last() =~= Seq::empty());
    if b.len() == 0 {
        assert(a + b =~= a);
    } else {
        law_values_add_up(a, b.drop_last(), n);
        assert((a + b).drop_last() =~= a + b.drop_last());
    }
}

/// The same of spent notes: each counts with the value of the note it was.
pub proof fn law_spent_values_add_up(a: Seq<SpentNote>, b: Seq<SpentNote>, n: SpentNote)
    ensures
        spent_value_of(Seq::empty()) == 0,
        spent_value_of(seq![n]) == n.note.note.value,
        spent_value_of(a + b) == spent_value_of(a) + spent_value_of(b),
    decreases b.len(),
{
    assert(seq![n].drop_last() =~= Seq::empty());
    if b.len() == 0 {
        assert(a + b =~= a);
    } else {
        law_spent_values_add_up(a, b.drop_last(), n);
        assert((a + b).drop_last() =~= a + b.drop_last());
    }
}

/// A nullifier stands at the height that gives it first, and at none where no
/// pair gives it.
pub proof fn law_the_first_height_counts(pairs: Seq<(u64, [u8; 32])>, nf: Seq<u8>)
    ensures
        match first_height(pairs, nf) {
            Some(h) => exists|i: int|
                {
                    &&& 0 <= i < pairs.len()
                    &&& (#[trigger] pairs[i]).1@ == nf
                    &&& pairs[i].0 == h
                    &&& forall|j: int| 0 <= j < i ==> (#[trigger] pairs[j]).1@ != nf
                },
            None => forall|i: int| 0 <= i < pairs.len() ==> (#[trigger] pairs[i]).1@ != nf,
        },
    decreases pairs.len(),
{
    if first_height(pairs, nf) is None {
        lemma_first_height_none(pairs, nf);
    } else {
        let front = pairs.drop_last();
        law_the_first_height_counts(front, nf);
        if first_height(front, nf) is Some {
            let i = choose|i: int|
                {
                    &&& 0 <= i < front.len()
                    &&& (#[trigger] front[i]).1@ == nf
                    &&& front[i].0 == first_height(front, nf)->0
                    &&& forall|j: int| 0 <= j < i ==> (#[trigger] front[j]).1@ != nf
                };
            assert(pairs[i] == front[i]);
            assert forall|j: int| 0 <= j < i implies (#[trigger] pairs[j]).1@ != nf by {
                assert(pairs[j] == front[j]);
            }
        } else {
            let i = pairs.len() - 1;
            assert forall|j: int| 0 <= j < i implies (#[trigger] pairs[j]).1@ != nf by {
                assert(pairs[j] == front[j]);
            }
            assert(pairs[i].1@ == nf);
        }
    }
}

proof fn lemma_contains_push<A>(s: Seq<A>, last: A, x: A)
    ensures
        s.push(last).contains(x) <==> s.contains(x) || x == last,
{
    if s.contains(x) {
        let i = choose|i: int| 0 <= i < s.len() && s[i] == x;
        assert(s.push(last)[i] == x);
    }
    if x == last {
        assert(s.push(last)[s.len() as int] == x);
    }
    if s.push(last).contains(x) && x != last {
        let i = choose|i: int| 0 <= i < s.push(last).len() && s.push(last)[i] == x;
        assert(s[i] == x);
    }
}

/// A page of the nullifiers is taken exactly where the stream is not over, it answers for
/// what was asked, and its blocks continue what was read without a hole and inside
/// the range. The stream is then over exactly where the page has no block or ends at
/// the range's end, and goes on right behind it otherwise. What answers for another
/// range, or comes once the stream is over, changes nothing.
pub proof fn law_a_nullifier_page_is_taken_as_asked(
    before: SpentCatchUp,
    page: NullifierChunk,
    now: SpentCatchUp,
    r: Result<(), SpentRefusal>,
)
    requires
        nullifiers_taken(before, page, now, r),
    ensures
        r is Ok <==> {
            let h = heights_of(page.blocks@);
            &&& !before.done
            &&& page.from == before.cursor && page.to == before.to
            &&& forall|i: int| 0 <= i < h.len() ==> #[trigger] h[i] == h[0] + i
            &&& forall|i: int| 0 <= i < h.len() ==> before.cursor <= #[trigger] h[i] <= before.to
            &&& h.len() > 0 && before.set.covered is Some ==> h[0] == (before.set.covered->0).1 + 1
        },
        r is Ok ==> (now.done <==> page.blocks@.len() == 0 || page.blocks@.last().0 >= before.to),
        r is Ok && !now.done ==> now.cursor == page.blocks@.last().0 + 1,
        before.done || page.from != before.cursor || page.to != before.to ==> r is Err && now
            == before,
        now.from == before.from && now.to == before.to,
{
    let h = heights_of(page.blocks@);
    if !before.done && page.from == before.cursor && page.to == before.to && h.len() > 0 {
        if r is Ok {
            law_faultless_page_is_contiguous(before.set.covered, before.cursor, before.to, h);
        }
        if (forall|i: int| 0 <= i < h.len() ==> #[trigger] h[i] == h[0] + i) && (forall|i: int|
            0 <= i < h.len() ==> before.cursor <= #[trigger] h[i] <= before.to) && (before.set.covered is Some
            ==> h[0] == (before.set.covered->0).1 + 1) {
            law_a_contiguous_page_is_taken(before.set.covered, before.cursor, before.to, h);
        }
        assert(h.last() == page.blocks@.last().0);
    }
}

} // verus!
