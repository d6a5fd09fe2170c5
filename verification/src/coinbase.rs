//! What this wallet mined.
//!
//! A coinbase note has no transaction, so no scan of transaction outputs finds
//! it. The node serves the coinbase facts of every block in bulk; the wallet
//! matches the payees against its own keys, and parts what it mined by what
//! can be done with it.
use crate::bytes32::lanes_eq;
use crate::note::Note;
use crate::paging::{check_height, extend, range_contains, HeightFault};
#[allow(unused_imports)]
use crate::paging::{
    contains_range, law_a_contiguous_page_is_taken, law_faultless_page_is_contiguous, walk,
};
use crate::spent::{push_covered, push_span, SpentSet};
#[allow(unused_imports)]
use crate::spent::{covered_text, span_text};
use crate::text::push_dec;
#[allow(unused_imports)]
use crate::text::dec;
use vstd::prelude::*;

verus! {

/// The token that every surface prints where mined coins could not be seen.
pub const TRANSACTIONS_ONLY: &'static str = "TRANSACTIONS ONLY";

/// The note that a block's coinbase minted, as the chain derives it.
#[derive(Clone, Copy, Debug, PartialEq, Eq)]
pub struct Minted {
    pub note: Note,
    /// The nullifier that this wallet's spend of the note publishes.
    pub nullifier: [u8; 32],
    /// The tip height at which the note's leaf is in the commitment tree.
    pub leaf_at: u64,
}

/// The coinbase facts of one block.
#[derive(Clone, Copy, Debug, PartialEq, Eq)]
pub struct BlockCoinbase {
    pub height: u64,
    /// The key that the block pays; all zero in a block that pays nobody.
    pub coinbase_rkm: [u64; 4],
    pub coinbase: u64,
    pub fees: u64,
    pub name_burn: u64,
    /// The note that the block minted; `None` if it minted nothing.
    pub minted: Option<Minted>,
}

/// One bounded page of the coinbase stream.
#[derive(Clone, Debug)]
pub struct CoinbaseChunk {
    /// The server's echo of the requested `from`.
    pub from: u64,
    /// The server's echo of the requested `to`.
    pub to: u64,
    /// Every block that the server holds in the range, ascending.
    pub blocks: Vec<BlockCoinbase>,
}

/// Where the pages of the coinbase stream come from.
pub trait CoinbaseSource {
    /// One bounded page for `from..=to`, or why there is none.
    fn fetch_range(&self, from: u64, to: u64) -> Result<CoinbaseChunk, String>;
}

/// Every way in which coinbase detection refuses.
#[allow(inconsistent_fields)]
#[derive(Debug, PartialEq, Eq)]
pub enum CoinbaseRefusal {
    /// The endpoint could not be reached, or its answer did not decode.
    Endpoint { why: String },
    /// The page answers a range that was not asked for.
    RangeMismatch { asked: (u64, u64), got: (u64, u64) },
    /// A page carries a height outside the range that it answers.
    OutOfRange { height: u64, asked: (u64, u64) },
    /// Heights arrived out of order or twice.
    NotAscending { previous: u64, height: u64 },
    /// A height is missing from the middle of the stream.
    Gap { expected: u64, got: u64 },
    /// The stream does not cover the heights that a report is about.
    NotCovered { covered: Option<(u64, u64)>, wanted: (u64, u64) },
}

/// The sentence about a coinbase stream that could not be read.
pub open spec fn coinbase_unreadable_text(why: Seq<char>) -> Seq<char> {
    "the coinbase stream could not be read ("@ + why
        + "). This scan cannot see mined coins — if this wallet mines, its balance below is "@
        + TRANSACTIONS_ONLY@
}

impl CoinbaseRefusal {
    /// The sentence that a person is shown.
    pub open spec fn text(&self) -> Seq<char> {
        match self {
            CoinbaseRefusal::Endpoint { why } => coinbase_unreadable_text(why@),
            CoinbaseRefusal::RangeMismatch { asked, got } => "coinbase page refused: asked for heights "@
                + span_text(*asked) + " and it answered for "@ + span_text(*got)
                + ". The wire echoes both bounds so a page cannot be misattributed"@,
            CoinbaseRefusal::OutOfRange { height, asked } => "coinbase page refused: it carries height "@
                + dec(*height as nat) + ", outside the "@ + span_text(*asked) + " it answers"@,
            CoinbaseRefusal::NotAscending { previous, height } => "coinbase page refused: height "@
                + dec(*height as nat) + " follows "@ + dec(*previous as nat)
                + " — the stream must be ascending, or 'covered up to N' means nothing"@,
            CoinbaseRefusal::Gap { expected, got } => "coinbase stream refused: height "@ + dec(
                *expected as nat,
            ) + " is missing (the next height served was "@ + dec(*got as nat)
                + "). A hole is not somebody else's block — refusing to treat 'I was not told' as 'you did not mine that one'"@,
            CoinbaseRefusal::NotCovered { covered, wanted } => "coinbase stream refused: it covers "@
                + covered_text(*covered) + " but this scan asked about "@ + span_text(*wanted)
                + ". Blocks in the uncovered span may have paid this wallet, so a mined figure cannot be quoted for this range"@,
        }
    }

    /// The sentence that a person is shown.
    pub fn message(&self) -> (r: String)
        ensures
            r@ == self.text(),
    {
        let mut s: String = String::new();
        match self {
            CoinbaseRefusal::Endpoint { why } => {
                s.append("the coinbase stream could not be read (");
                s.append(why.as_str());
                s.append(
                    "). This scan cannot see mined coins — if this wallet mines, its balance below is ",
                );
                s.append(TRANSACTIONS_ONLY);
            },
            CoinbaseRefusal::RangeMismatch { asked, got } => {
                s.append("coinbase page refused: asked for heights ");
                push_span(&mut s, *asked);
                s.append(" and it answered for ");
                push_span(&mut s, *got);
                s.append(". The wire echoes both bounds so a page cannot be misattributed");
            },
            CoinbaseRefusal::OutOfRange { height, asked } => {
                s.append("coinbase page refused: it carries height ");
                push_dec(&mut s, *height);
                s.append(", outside the ");
                push_span(&mut s, *asked);
                s.append(" it answers");
            },
            CoinbaseRefusal::NotAscending { previous, height } => {
                s.append("coinbase page refused: height ");
                push_dec(&mut s, *height);
                s.append(" follows ");
                push_dec(&mut s, *previous);
                s.append(" — the stream must be ascending, or 'covered up to N' means nothing");
            },
            CoinbaseRefusal::Gap { expected, got } => {
                s.append("coinbase stream refused: height ");
                push_dec(&mut s, *expected);
                s.append(" is missing (the next height served was ");
                push_dec(&mut s, *got);
                s.append(
                    "). A hole is not somebody else's block — refusing to treat 'I was not told' as 'you did not mine that one'",
                );
            },
            CoinbaseRefusal::NotCovered { covered, wanted } => {
                s.append("coinbase stream refused: it covers ");
                push_covered(&mut s, *covered);
                s.append(" but this scan asked about ");
                push_span(&mut s, *wanted);
                s.append(
                    ". Blocks in the uncovered span may have paid this wallet, so a mined figure cannot be quoted for this range",
                );
            },
        }
        assert(s@ =~= self.text());
        s
    }
}

/// The heights of a row of blocks.
pub open spec fn block_heights(blocks: Seq<BlockCoinbase>) -> Seq<u64> {
    Seq::new(blocks.len(), |i: int| blocks[i].height)
}

/// The chain's coinbase facts over a range, and how much of it was served.
#[derive(Clone, Debug)]
pub struct MinedChain {
    /// The contiguous range that was served; `None` if no block was.
    pub covered: Option<(u64, u64)>,
    /// Every block in `covered`, ascending, one per height.
    pub blocks: Vec<BlockCoinbase>,
}

impl MinedChain {
    /// There is exactly one block for each covered height.
    pub open spec fn wf(&self) -> bool {
        match self.covered {
            Some((a, b)) => {
                &&& a <= b
                &&& self.blocks@.len() == b - a + 1
                &&& forall|i: int| 0 <= i < self.blocks@.len() ==> (#[trigger] self.blocks@[i]).height == a + i
            },
            None => self.blocks@.len() == 0,
        }
    }

    /// The chain of which nothing was served.
    pub fn empty() -> (r: MinedChain)
        ensures
            r.wf(),
            r.covered is None,
            r.blocks@.len() == 0,
    {
        MinedChain { covered: None, blocks: Vec::new() }
    }

    /// Whether the stream covers every height of `wanted`; with nothing
    /// wanted there is nothing to cover.
    pub fn covers(&self, wanted: Option<(u64, u64)>) -> (r: Result<(), CoinbaseRefusal>)
        ensures
            r is Ok <==> (wanted is None || contains_range(self.covered, wanted->0)),
            r matches Err(e) ==> e == (CoinbaseRefusal::NotCovered {
                covered: self.covered,
                wanted: wanted->0,
            }),
    {
        match wanted {
            None => Ok(()),
            Some(wanted) => {
                if range_contains(self.covered, wanted) {
                    Ok(())
                } else {
                    Err(CoinbaseRefusal::NotCovered { covered: self.covered, wanted })
                }
            },
        }
    }

    /// The highest height covered: the tip that the maturity split is stated
    /// as of.
    pub fn as_of(&self) -> (r: Option<u64>)
        ensures
            r == (match self.covered {
                Some((_, to)) => Some(to),
                None => None,
            }),
    {
        match self.covered {
            Some((_, to)) => Some(to),
            None => None,
        }
    }
}

/// The refusal for a height fault in a page that answers `asked`.
pub open spec fn coinbase_refusal_of(fault: HeightFault, asked: (u64, u64)) -> CoinbaseRefusal {
    match fault {
        HeightFault::OutOfRange { height } => CoinbaseRefusal::OutOfRange { height, asked },
        HeightFault::NotAscending { previous, height } => CoinbaseRefusal::NotAscending {
            previous,
            height,
        },
        HeightFault::Gap { expected, got } => CoinbaseRefusal::Gap { expected, got },
    }
}

/// The coinbase stream over a range, taken in page by page. The caller
/// fetches the pages; the checks are all here.
pub struct CoinbaseCatchUp {
    pub chain: MinedChain,
    pub from: u64,
    pub cursor: u64,
    pub to: u64,
    pub done: bool,
}

/// How taking in a page goes: what of it is taken, and what is refused.
pub open spec fn coinbase_taken(
    before: CoinbaseCatchUp,
    page: CoinbaseChunk,
    now: CoinbaseCatchUp,
    r: Result<(), CoinbaseRefusal>,
) -> bool {
    &&& now.wf()
    &&& now.from == before.from && now.to == before.to
    &&& (before.done ==> {
        &&& r matches Err(CoinbaseRefusal::Endpoint { why })
        &&& why@ == "a page was supplied after the stream completed"@
        &&& now == before
    })
    &&& (!before.done && (page.from, page.to) != (before.cursor, before.to) ==> {
        &&& r == Err::<(), CoinbaseRefusal>(
            CoinbaseRefusal::RangeMismatch {
                asked: (before.cursor, before.to),
                got: (page.from, page.to),
            },
        )
        &&& now == before
    })
    &&& (!before.done && (page.from, page.to) == (before.cursor, before.to)
        && page.blocks@.len() == 0 ==> {
        &&& r is Ok
        &&& now.done
        &&& now.chain == before.chain
        &&& now.cursor == before.cursor
    })
    &&& (!before.done && (page.from, page.to) == (before.cursor, before.to)
        && page.blocks@.len() > 0 ==> {
        let w = walk(
            before.chain.covered,
            before.cursor,
            before.to,
            block_heights(page.blocks@),
        );
        &&& now.chain.covered == w.covered
        &&& now.chain.blocks@ == before.chain.blocks@ + page.blocks@.take(
            w.taken as int,
        )
        &&& w.fault matches Some(fault) ==> {
            &&& r == Err::<(), CoinbaseRefusal>(
                coinbase_refusal_of(fault, (before.cursor, before.to)),
            )
            &&& now.done == before.done
            &&& now.cursor == before.cursor
        }
        &&& w.fault is None ==> {
            let last = page.blocks@.last().height;
            &&& r is Ok
            &&& now.done == (last >= before.to)
            &&& !now.done ==> now.cursor == last + 1
            &&& last >= before.cursor
        }
    })
}

impl CoinbaseCatchUp {
    /// The covered range lies in the requested one, with one block for each
    /// of its heights.
    pub open spec fn wf(&self) -> bool {
        &&& self.chain.wf()
        &&& self.from <= self.cursor
        &&& self.chain.covered matches Some((a, b)) ==> self.from <= a <= b <= self.to
    }

    /// A stream over `from..=to` of which nothing has been served.
    pub fn new(from: u64, to: u64) -> (r: CoinbaseCatchUp)
        ensures
            r.wf(),
            r.from == from && r.cursor == from && r.to == to && !r.done,
            r.chain.covered is None,
            r.chain.blocks@.len() == 0,
    {
        CoinbaseCatchUp { chain: MinedChain::empty(), from, cursor: from, to, done: false }
    }

    /// The range to ask the endpoint for next; `None` once the stream is
    /// complete.
    pub fn want(&self) -> (r: Option<(u64, u64)>)
        ensures
            r == (if self.done {
                None
            } else {
                Some((self.cursor, self.to))
            }),
    {
        if self.done {
            None
        } else {
            Some((self.cursor, self.to))
        }
    }

    /// Takes one page in: its echo of the range, then every height.
    pub fn supply(&mut self, page: CoinbaseChunk) -> (r: Result<(), CoinbaseRefusal>)
        requires
            old(self).wf(),
        ensures
            coinbase_taken(*old(self), page, *final(self), r),
    {
        if self.done {
            return Err(
                CoinbaseRefusal::Endpoint {
                    why: "a page was supplied after the stream completed".to_owned(),
                },
            );
        }
        let asked = (self.cursor, self.to);
        if page.from != self.cursor || page.to != self.to {
            return Err(CoinbaseRefusal::RangeMismatch { asked, got: (page.from, page.to) });
        }
        let blocks = &page.blocks;
        if blocks.len() == 0 {
            self.done = true;
            return Ok(());
        }
        let ghost hs = block_heights(blocks@);
        let ghost w0 = walk(self.chain.covered, self.cursor, self.to, hs);
        let mut i: usize = 0;
        assert(hs.skip(0) =~= hs);
        assert(old(self).chain.blocks@ + blocks@.take(0) =~= self.chain.blocks@);
        while i < blocks.len()
            invariant
                i <= blocks@.len(),
                hs == block_heights(blocks@),
                blocks@ == page.blocks@ && blocks@.len() > 0,
                page.from == asked.0 && page.to == asked.1,
                old(self).wf(),
                old(self).cursor == asked.0 && old(self).to == asked.1,
                !old(self).done,
                self.from == old(self).from && self.to == old(self).to,
                self.cursor == asked.0,
                !self.done,
                self.chain.wf(),
                self.chain.covered matches Some((a, b)) ==> self.from <= a <= b <= self.to,
                w0 == walk(old(self).chain.covered, asked.0, asked.1, hs),
                ({
                    let w = walk(self.chain.covered, asked.0, asked.1, hs.skip(i as int));
                    &&& w.covered == w0.covered
                    &&& w.fault == w0.fault
                    &&& w.taken + i == w0.taken
                }),
                self.chain.blocks@ == old(self).chain.blocks@ + blocks@.take(i as int),
                i > 0 ==> asked.0 <= blocks@[i - 1].height,
            decreases blocks@.len() - i,
        {
            let block = blocks[i];
            let height: u64 = block.height;
            assert(hs.skip(i as int)[0] == height);
            assert(hs.skip(i as int).skip(1) =~= hs.skip(i + 1));
            match check_height(self.chain.covered, asked.0, asked.1, height) {
                Some(HeightFault::OutOfRange { height }) => {
                    return Err(CoinbaseRefusal::OutOfRange { height, asked });
                },
                Some(HeightFault::NotAscending { previous, height }) => {
                    return Err(CoinbaseRefusal::NotAscending { previous, height });
                },
                Some(HeightFault::Gap { expected, got }) => {
                    return Err(CoinbaseRefusal::Gap { expected, got });
                },
                None => {},
            }
            self.chain.covered = extend(self.chain.covered, height);
            self.chain.blocks.push(block);
            assert(old(self).chain.blocks@ + blocks@.take(i + 1) =~= self.chain.blocks@);
            i += 1;
        }
        proof {
            assert(hs.skip(i as int) =~= Seq::empty());
            assert(blocks@.take(i as int) =~= blocks@);
        }
        let last: u64 = blocks[blocks.len() - 1].height;
        if last >= self.to {
            self.done = true;
        } else {
            self.cursor = last + 1;
        }
        Ok(())
    }

    /// The chain that the pages came to.
    pub fn finish(self) -> (r: MinedChain)
        ensures
            r == self.chain,
    {
        self.chain
    }
}

/// A coinbase stream of which nothing has been served.
pub open spec fn coinbase_unread(c: CoinbaseCatchUp, from: u64, to: u64) -> bool {
    &&& c.wf()
    &&& c.from == from && c.cursor == from && c.to == to && !c.done
    &&& c.chain.covered is None
    &&& c.chain.blocks@.len() == 0
}

/// What a source may answer a stream that asks for its next page.
pub open spec fn coinbase_answers<S: CoinbaseSource>(
    source: &S,
    c: CoinbaseCatchUp,
    answer: Result<CoinbaseChunk, String>,
) -> bool {
    !c.done && call_ensures(S::fetch_range, (source, c.cursor, c.to), answer)
}

/// Page `i` is the source's answer to what was wanted then, and was taken in
/// without a refusal.
pub open spec fn coinbase_page_taken<S: CoinbaseSource>(
    source: &S,
    states: Seq<CoinbaseCatchUp>,
    pages: Seq<CoinbaseChunk>,
    i: int,
) -> bool {
    &&& coinbase_answers(source, states[i], Ok(pages[i]))
    &&& coinbase_taken(states[i], pages[i], states[i + 1], Ok(()))
}

/// The states of a stream over `from..=to` as it takes in page after page of a
/// source.
pub open spec fn coinbase_paged<S: CoinbaseSource>(
    source: &S,
    from: u64,
    to: u64,
    states: Seq<CoinbaseCatchUp>,
    pages: Seq<CoinbaseChunk>,
) -> bool {
    &&& states.len() == pages.len() + 1
    &&& coinbase_unread(states[0], from, to)
    &&& forall|i: int|
        0 <= i < pages.len() ==> #[trigger] coinbase_page_taken(source, states, pages, i)
}

/// How a reading ends: with the chain once the stream is complete, and before
/// that with the source's own failure or with the refusal of the page that it
/// gave.
pub open spec fn coinbase_ended<S: CoinbaseSource>(
    source: &S,
    c: CoinbaseCatchUp,
    r: Result<MinedChain, CoinbaseRefusal>,
) -> bool {
    match r {
        Ok(chain) => c.done && chain == c.chain,
        Err(e) => {
            ||| exists|why: String| #[trigger]
                coinbase_answers(source, c, Err(why)) && e == (CoinbaseRefusal::Endpoint { why })
            ||| exists|page: CoinbaseChunk, now: CoinbaseCatchUp|
                coinbase_answers(source, c, Ok(page)) && #[trigger] coinbase_taken(
                    c,
                    page,
                    now,
                    Err(e),
                )
        },
    }
}

/// What reading the stream of a source over `from..=to` can come to.
pub open spec fn coinbase_read<S: CoinbaseSource>(
    source: &S,
    from: u64,
    to: u64,
    r: Result<MinedChain, CoinbaseRefusal>,
) -> bool {
    exists|states: Seq<CoinbaseCatchUp>, pages: Seq<CoinbaseChunk>| #[trigger]
        coinbase_paged(source, from, to, states, pages) && coinbase_ended(
            source,
            states.last(),
            r,
        )
}

/// Pages the coinbase stream over `from..=to`.
///
/// What comes back is what the source's own pages come to, each of them asked
/// for from where the one before it ended; the first failure of the source and
/// the first page that is refused end the reading. Whatever the source answers,
/// a chain that comes back covers a contiguous part of the range with one block
/// for each height of it.
pub fn fetch_coinbase<S: CoinbaseSource>(source: &S, from: u64, to: u64) -> (r: Result<
    MinedChain,
    CoinbaseRefusal,
>)
    ensures
        coinbase_read(source, from, to, r),
        r matches Ok(chain) ==> {
            &&& chain.wf()
            &&& chain.covered matches Some((a, b)) ==> from <= a <= b <= to
        },
        r matches Err(e) ==> e !is NotCovered,
{
    let mut catch = CoinbaseCatchUp::new(from, to);
    let ghost mut states: Seq<CoinbaseCatchUp> = seq![catch];
    let ghost mut pages: Seq<CoinbaseChunk> = Seq::empty();
    while !catch.done
        invariant
            catch.wf(),
            catch.from == from && catch.to == to,
            coinbase_paged(source, from, to, states, pages),
            states.last() == catch,
        decreases
                if catch.done {
                    0int
                } else if catch.cursor <= to {
                    to - catch.cursor + 2
                } else {
                    1int
                },
    {
        let ghost before = catch;
        let answer = source.fetch_range(catch.cursor, to);
        assert(coinbase_answers(source, before, answer));
        let page = match answer {
            Ok(page) => page,
            Err(why) => {
                return Err(CoinbaseRefusal::Endpoint { why });
            },
        };
        let supplied = catch.supply(page);
        assert(coinbase_taken(before, page, catch, supplied));
        match supplied {
            Ok(()) => {},
            Err(e) => {
                return Err(e);
            },
        }
        proof {
            let s = states.push(catch);
            let p = pages.push(page);
            assert forall|i: int| 0 <= i < p.len() implies #[trigger] coinbase_page_taken(
                source,
                s,
                p,
                i,
            ) by {
                if i < pages.len() {
                    assert(coinbase_page_taken(source, states, pages, i));
                }
            }
            states = s;
            pages = p;
        }
    }
    Ok(catch.finish())
}

/// The blocks of a row of pages, in order.
pub open spec fn coinbase_blocks(pages: Seq<CoinbaseChunk>) -> Seq<BlockCoinbase>
    decreases pages.len(),
{
    if pages.len() == 0 {
        Seq::empty()
    } else {
        coinbase_blocks(pages.drop_last()) + pages.last().blocks@
    }
}

/// The states of a stream over `from..=to` as it takes in page after page,
/// wherever they come from.
pub open spec fn coinbase_taken_in(
    from: u64,
    to: u64,
    states: Seq<CoinbaseCatchUp>,
    pages: Seq<CoinbaseChunk>,
) -> bool {
    &&& states.len() == pages.len() + 1
    &&& coinbase_unread(states[0], from, to)
    &&& forall|i: int|
        0 <= i < pages.len() ==> coinbase_taken(
            states[i],
            #[trigger] pages[i],
            states[i + 1],
            Ok(()),
        )
}

/// The chain is a row of blocks that follow one another without a hole: it
/// covers them from the first to the last, and nothing exactly where there is
/// none.
pub open spec fn chain_of(chain: MinedChain, blocks: Seq<BlockCoinbase>) -> bool {
    &&& chain.blocks@ == blocks
    &&& forall|i: int|
        0 <= i < blocks.len() ==> (#[trigger] blocks[i]).height == blocks[0].height + i
    &&& chain.covered is None <==> blocks.len() == 0
    &&& blocks.len() > 0 ==> chain.covered == Some((blocks[0].height, blocks.last().height))
}

/// However a coinbase stream was cut into pages, what was taken in is their
/// blocks, one after the other.
pub proof fn law_a_coinbase_stream_is_its_blocks(
    from: u64,
    to: u64,
    states: Seq<CoinbaseCatchUp>,
    pages: Seq<CoinbaseChunk>,
)
    requires
        coinbase_taken_in(from, to, states, pages),
    ensures
        chain_of(states.last().chain, coinbase_blocks(pages)),
        forall|i: int|
            0 <= i < coinbase_blocks(pages).len() ==> from <= (#[trigger] coinbase_blocks(
                pages,
            )[i]).height <= to,
        states.last().wf() && states.last().from == from && states.last().to == to,
    decreases pages.len(),
{
    let n = pages.len() as int;
    let c = states.last();
    let blocks = coinbase_blocks(pages);
    if n > 0 {
        let front = pages.drop_last();
        assert forall|i: int| 0 <= i < front.len() implies coinbase_taken(
            states.drop_last()[i],
            #[trigger] front[i],
            states.drop_last()[i + 1],
            Ok(()),
        ) by {
            assert(front[i] == pages[i]);
        }
        law_a_coinbase_stream_is_its_blocks(from, to, states.drop_last(), front);
        let before = states[n - 1];
        let more = pages[n - 1].blocks@;
        assert(states.drop_last().last() == before);
        assert(coinbase_taken(before, pages[n - 1], c, Ok(())));
        assert(more.take(more.len() as int) =~= more);
        if more.len() > 0 {
            crate::paging::law_faultless_page_is_contiguous(
                before.chain.covered,
                before.cursor,
                before.to,
                block_heights(more),
            );
        }
        assert(c.chain.blocks@ =~= blocks);
    } else {
        assert(c.chain.blocks@ =~= blocks);
    }
}

/// A chain that was read off a source is the blocks of the source's pages: up to
/// the end of the range, or to a page that serves nothing further.
pub proof fn law_a_read_chain_is_its_pages<S: CoinbaseSource>(
    source: &S,
    from: u64,
    to: u64,
    chain: MinedChain,
)
    requires
        coinbase_read(source, from, to, Ok(chain)),
    ensures
        exists|states: Seq<CoinbaseCatchUp>, pages: Seq<CoinbaseChunk>| #[trigger]
            coinbase_paged(source, from, to, states, pages) && chain_of(
                chain,
                coinbase_blocks(pages),
            ) && pages.len() > 0 && (pages.last().blocks@.len() == 0 || (chain.covered->0).1 == to),
{
    let (states, pages) = choose|states: Seq<CoinbaseCatchUp>, pages: Seq<CoinbaseChunk>| #[trigger]
        coinbase_paged(source, from, to, states, pages) && coinbase_ended(
            source,
            states.last(),
            Ok::<MinedChain, CoinbaseRefusal>(chain),
        );
    assert forall|i: int| 0 <= i < pages.len() implies coinbase_taken(
        states[i],
        #[trigger] pages[i],
        states[i + 1],
        Ok(()),
    ) by {
        assert(coinbase_page_taken(source, states, pages, i));
    }
    law_a_coinbase_stream_is_its_blocks(from, to, states, pages);
    if pages.last().blocks@.len() > 0 {
        assert(coinbase_taken(
            states[pages.len() - 1],
            pages[pages.len() - 1],
            states.last(),
            Ok(()),
        ));
        let blocks = coinbase_blocks(pages);
        assert(blocks.last() == pages.last().blocks@.last());
        assert(blocks[blocks.len() - 1].height <= to);
    }
}

/// Whether a mined note's leaf is in the commitment tree yet.
#[derive(Clone, Copy, Debug, PartialEq, Eq)]
pub enum CoinbaseMaturity {
    Matured { leaf_at: u64 },
    Immature { leaf_at: u64, blocks_remaining: u64 },
}

/// How a note whose leaf appears at `leaf_at` stands at the height `tip`.
pub open spec fn maturity_at(leaf_at: u64, tip: u64) -> CoinbaseMaturity {
    if tip >= leaf_at {
        CoinbaseMaturity::Matured { leaf_at }
    } else {
        CoinbaseMaturity::Immature { leaf_at, blocks_remaining: (leaf_at - tip) as u64 }
    }
}

/// How a note whose leaf appears at `leaf_at` stands at the height `tip`.
pub fn coinbase_maturity(leaf_at: u64, tip: u64) -> (r: CoinbaseMaturity)
    ensures
        r == maturity_at(leaf_at, tip),
        match r {
            CoinbaseMaturity::Matured { leaf_at: at } => at == leaf_at && tip >= at,
            CoinbaseMaturity::Immature { leaf_at: at, blocks_remaining } => at == leaf_at
                && blocks_remaining > 0 && tip + blocks_remaining == at,
        },
{
    if tip >= leaf_at {
        CoinbaseMaturity::Matured { leaf_at }
    } else {
        CoinbaseMaturity::Immature { leaf_at, blocks_remaining: leaf_at - tip }
    }
}

/// One coinbase note that this wallet mined, and how it stands.
#[derive(Clone, Copy, Debug, PartialEq, Eq)]
pub struct MinedNote {
    /// The height whose block minted it.
    pub minted_height: u64,
    /// The index of the address that the block paid.
    pub div_index: u64,
    pub note: Note,
    pub maturity: CoinbaseMaturity,
    /// The height that published the note's nullifier, if one did.
    pub spent_height: Option<u64>,
}

impl MinedNote {
    /// Matured and unspent.
    pub open spec fn spendable(&self) -> bool {
        self.spent_height is None && self.maturity is Matured
    }

    /// Spendable as far as the tree is concerned: matured and unspent.
    pub fn is_spendable(&self) -> (r: bool)
        ensures
            r == self.spendable(),
    {
        match (self.spent_height, self.maturity) {
            (None, CoinbaseMaturity::Matured { .. }) => true,
            _ => false,
        }
    }
}

/// The value of mined notes together.
pub open spec fn mined_value(notes: Seq<MinedNote>) -> nat
    decreases notes.len(),
{
    if notes.len() == 0 {
        0
    } else {
        mined_value(notes.drop_last()) + notes.last().note.value as nat
    }
}

fn sum_mined(notes: &[MinedNote]) -> (r: u128)
    ensures
        r as nat == mined_value(notes@),
{
    let mut sum: u128 = 0;
    let mut i: usize = 0;
    assert(notes@.take(0) =~= Seq::empty());
    while i < notes.len()
        invariant
            i <= notes@.len(),
            sum as nat == mined_value(notes@.take(i as int)),
            sum <= i * 0xffff_ffff_ffff_ffff,
        decreases notes@.len() - i,
    {
        assert(notes@.take(i + 1).drop_last() =~= notes@.take(i as int));
        assert(i * 0xffff_ffff_ffff_ffff + 0xffff_ffff_ffff_ffff <= u128::MAX) by (nonlinear_arith)
            requires
                i < 0xffff_ffff_ffff_ffff,
        ;
        sum += notes[i].note.value as u128;
        i += 1;
        assert(i * 0xffff_ffff_ffff_ffff == (i - 1) * 0xffff_ffff_ffff_ffff
            + 0xffff_ffff_ffff_ffff) by (nonlinear_arith);
    }
    assert(notes@.take(notes@.len() as int) =~= notes@);
    sum
}

/// The height at which a mined note's leaf appears.
pub open spec fn leaf_height(n: MinedNote) -> u64 {
    match n.maturity {
        CoinbaseMaturity::Matured { leaf_at } => leaf_at,
        CoinbaseMaturity::Immature { leaf_at, .. } => leaf_at,
    }
}

/// The least height at which a leaf of the notes appears.
pub open spec fn earliest_leaf(notes: Seq<MinedNote>) -> Option<u64>
    decreases notes.len(),
{
    if notes.len() == 0 {
        None
    } else {
        let at = leaf_height(notes.last());
        match earliest_leaf(notes.drop_last()) {
            Some(h) => Some(
                if h <= at {
                    h
                } else {
                    at
                },
            ),
            None => Some(at),
        }
    }
}

/// This wallet's mined notes over a covered range, parted by what can be done
/// with them.
#[derive(Clone, Debug)]
pub struct MinedReport {
    /// Matured and unspent: what a balance adds.
    pub spendable: Vec<MinedNote>,
    /// Mined and not yet matured: never folded into the spendable figure.
    pub maturing: Vec<MinedNote>,
    /// Mined and already spent.
    pub spent: Vec<MinedNote>,
    /// The tip height that the split is stated as of.
    pub as_of: u64,
}

impl MinedReport {
    /// The value that may be credited.
    pub fn spendable_value(&self) -> (r: u128)
        ensures
            r as nat == mined_value(self.spendable@),
    {
        sum_mined(&self.spendable)
    }

    /// The value that exists and cannot be spent yet.
    pub fn maturing_value(&self) -> (r: u128)
        ensures
            r as nat == mined_value(self.maturing@),
    {
        sum_mined(&self.maturing)
    }

    /// The value already spent: reported, never credited.
    pub fn spent_value(&self) -> (r: u128)
        ensures
            r as nat == mined_value(self.spent@),
    {
        sum_mined(&self.spent)
    }

    /// The tip height at which the earliest maturing note becomes spendable.
    pub fn next_maturity(&self) -> (r: Option<u64>)
        ensures
            r == earliest_leaf(self.maturing@),
            r is None <==> self.maturing@.len() == 0,
            r matches Some(h) ==> {
                &&& exists|i: int|
                    0 <= i < self.maturing@.len() && leaf_height(#[trigger] self.maturing@[i]) == h
                &&& forall|i: int|
                    0 <= i < self.maturing@.len() ==> h <= leaf_height(#[trigger] self.maturing@[i])
            },
    {
        let mut r: Option<u64> = None;
        let mut i: usize = 0;
        assert(self.maturing@.take(0) =~= Seq::empty());
        while i < self.maturing.len()
            invariant
                i <= self.maturing@.len(),
                r == earliest_leaf(self.maturing@.take(i as int)),
                r is None <==> i == 0,
                r matches Some(h) ==> {
                    &&& exists|j: int|
                        0 <= j < i && leaf_height(#[trigger] self.maturing@[j]) == h
                    &&& forall|j: int|
                        0 <= j < i ==> h <= leaf_height(#[trigger] self.maturing@[j])
                },
            decreases self.maturing@.len() - i,
        {
            let at: u64 = match self.maturing[i].maturity {
                CoinbaseMaturity::Matured { leaf_at } => leaf_at,
                CoinbaseMaturity::Immature { leaf_at, .. } => leaf_at,
            };
            assert(leaf_height(self.maturing@[i as int]) == at);
            assert(self.maturing@.take(i + 1).drop_last() =~= self.maturing@.take(i as int));
            r = match r {
                Some(h) => if h <= at {
                    Some(h)
                } else {
                    Some(at)
                },
                None => Some(at),
            };
            i += 1;
        }
        assert(self.maturing@.take(self.maturing@.len() as int) =~= self.maturing@);
        r
    }

    /// How many blocks this wallet mined in the covered range.
    pub fn blocks_mined(&self) -> (r: usize)
        requires
            self.spendable@.len() + self.maturing@.len() + self.spent@.len() <= usize::MAX,
        ensures
            r == self.spendable@.len() + self.maturing@.len() + self.spent@.len(),
    {
        self.spendable.len() + self.maturing.len() + self.spent.len()
    }
}

/// The first of this wallet's addresses that has the key `rkm`.
pub open spec fn owner_of(mine: Seq<(u64, [u64; 4])>, rkm: Seq<u64>) -> Option<u64>
    decreases mine.len(),
{
    if mine.len() == 0 {
        None
    } else if mine[0].1@ == rkm {
        Some(mine[0].0)
    } else {
        owner_of(mine.skip(1), rkm)
    }
}

fn find_owner(mine: &[(u64, [u64; 4])], rkm: &[u64; 4]) -> (r: Option<u64>)
    ensures
        r == owner_of(mine@, rkm@),
{
    let mut i: usize = 0;
    assert(mine@.skip(0) =~= mine@);
    while i < mine.len()
        invariant
            i <= mine@.len(),
            owner_of(mine@.skip(i as int), rkm@) == owner_of(mine@, rkm@),
        decreases mine@.len() - i,
    {
        assert(mine@.skip(i as int)[0] == mine@[i as int]);
        assert(mine@.skip(i as int).skip(1) =~= mine@.skip(i + 1));
        if lanes_eq(&mine[i].1, rkm) {
            return Some(mine[i].0);
        }
        i += 1;
    }
    None
}

/// Whether a key is the one that no one owns.
pub open spec fn no_payee(rkm: Seq<u64>) -> bool {
    rkm == seq![0u64, 0u64, 0u64, 0u64]
}

/// What a block is to this wallet at the height `tip`: the note that it mined
/// for one of the addresses `mine`, or nothing.
pub open spec fn mined_by(
    mine: Seq<(u64, [u64; 4])>,
    block: BlockCoinbase,
    spent: SpentSet,
    tip: u64,
) -> Option<MinedNote> {
    if no_payee(block.coinbase_rkm@) {
        None
    } else {
        match (owner_of(mine, block.coinbase_rkm@), block.minted) {
            (Some(div_index), Some(minted)) => Some(
                MinedNote {
                    minted_height: block.height,
                    div_index,
                    note: minted.note,
                    maturity: maturity_at(minted.leaf_at, tip),
                    spent_height: spent.height(minted.nullifier@),
                },
            ),
            _ => None,
        }
    }
}

/// The notes that this wallet mined in a row of blocks, in order.
pub open spec fn all_mined(
    mine: Seq<(u64, [u64; 4])>,
    blocks: Seq<BlockCoinbase>,
    spent: SpentSet,
    tip: u64,
) -> Seq<MinedNote>
    decreases blocks.len(),
{
    if blocks.len() == 0 {
        Seq::empty()
    } else {
        let front = all_mined(mine, blocks.drop_last(), spent, tip);
        match mined_by(mine, blocks.last(), spent, tip) {
            Some(n) => front.push(n),
            None => front,
        }
    }
}

/// Where a mined note belongs.
#[derive(Clone, Copy, Debug, PartialEq, Eq)]
pub enum MinedState {
    Spendable,
    Maturing,
    Spent,
}

/// Spent if its nullifier is on the chain, else by its maturity.
pub open spec fn state_of(n: MinedNote) -> MinedState {
    if n.spent_height is Some {
        MinedState::Spent
    } else if n.maturity is Matured {
        MinedState::Spendable
    } else {
        MinedState::Maturing
    }
}

/// The notes that stand as `state` says, in order.
pub open spec fn in_state(notes: Seq<MinedNote>, state: MinedState) -> Seq<MinedNote>
    decreases notes.len(),
{
    if notes.len() == 0 {
        Seq::empty()
    } else {
        let front = in_state(notes.drop_last(), state);
        if state_of(notes.last()) == state {
            front.push(notes.last())
        } else {
            front
        }
    }
}

/// The tip that a chain's figures are stated as of.
pub open spec fn tip_of(chain: MinedChain) -> u64 {
    match chain.covered {
        Some((_, to)) => to,
        None => 0,
    }
}

/// Matches the chain's payees against this wallet's keys, `mine`, and parts
/// what it mined. The key that no one owns is never matched, whatever this
/// wallet's keys are.
pub fn match_mined(mine: &[(u64, [u64; 4])], chain: &MinedChain, spent: &SpentSet) -> (r: MinedReport)
    ensures
        r.as_of == tip_of(*chain),
        chain.covered is None ==> r.as_of == 0,
        chain.covered is Some ==> r.as_of == (chain.covered->0).1,
        ({
            let all = all_mined(mine@, chain.blocks@, *spent, tip_of(*chain));
            &&& r.spendable@ == in_state(all, MinedState::Spendable)
            &&& r.maturing@ == in_state(all, MinedState::Maturing)
            &&& r.spent@ == in_state(all, MinedState::Spent)
        }),
{
    let tip: u64 = match chain.as_of() {
        Some(tip) => tip,
        None => 0,
    };
    let mut r = MinedReport {
        spendable: Vec::new(),
        maturing: Vec::new(),
        spent: Vec::new(),
        as_of: tip,
    };
    let zero: [u64; 4] = [0, 0, 0, 0];
    assert(zero@ =~= seq![0u64, 0u64, 0u64, 0u64]);
    let mut i: usize = 0;
    assert(chain.blocks@.take(0) =~= Seq::empty());
    while i < chain.blocks.len()
        invariant
            i <= chain.blocks@.len(),
            tip == tip_of(*chain),
            r.as_of == tip,
            zero@ == seq![0u64, 0u64, 0u64, 0u64],
            ({
                let all = all_mined(mine@, chain.blocks@.take(i as int), *spent, tip);
                &&& r.spendable@ == in_state(all, MinedState::Spendable)
                &&& r.maturing@ == in_state(all, MinedState::Maturing)
                &&& r.spent@ == in_state(all, MinedState::Spent)
            }),
        decreases chain.blocks@.len() - i,
    {
        let block = chain.blocks[i];
        let ghost front = all_mined(mine@, chain.blocks@.take(i as int), *spent, tip);
        assert(chain.blocks@.take(i + 1).drop_last() =~= chain.blocks@.take(i as int));
        i += 1;
        if lanes_eq(&block.coinbase_rkm, &zero) {
            continue ;
        }
        let owner = find_owner(mine, &block.coinbase_rkm);
        match (owner, block.minted) {
            (Some(div_index), Some(minted)) => {
                let spent_height = spent.height_of(&minted.nullifier);
                let maturity = coinbase_maturity(minted.leaf_at, tip);
                let mined = MinedNote {
                    minted_height: block.height,
                    div_index,
                    note: minted.note,
                    maturity,
                    spent_height,
                };
                assert(front.push(mined).drop_last() =~= front);
                match (spent_height, maturity) {
                    (Some(_), _) => {
                        r.spent.push(mined);
                    },
                    (None, CoinbaseMaturity::Matured { .. }) => {
                        r.spendable.push(mined);
                    },
                    (None, CoinbaseMaturity::Immature { .. }) => {
                        r.maturing.push(mined);
                    },
                }
            },
            _ => {},
        }
    }
    assert(chain.blocks@.take(chain.blocks@.len() as int) =~= chain.blocks@);
    r
}

/// The block pays one of the addresses `mine` and minted a note: its key is one
/// of theirs, and not the one that no one owns.
pub open spec fn pays_mine(mine: Seq<(u64, [u64; 4])>, block: BlockCoinbase) -> bool {
    &&& block.minted is Some
    &&& exists|z: int| 0 <= z < 4 && #[trigger] block.coinbase_rkm@[z] != 0
    &&& exists|k: int| 0 <= k < mine.len() && (#[trigger] mine[k]).1@ == block.coinbase_rkm@
}

/// An entry says of a block that pays this wallet what the block, the keys and
/// the chain say: its height and its note, the first address that has its key,
/// when its leaf appears as seen from `tip`, and the height that spent it.
pub open spec fn tells_of(
    n: MinedNote,
    mine: Seq<(u64, [u64; 4])>,
    block: BlockCoinbase,
    spent: SpentSet,
    tip: u64,
) -> bool {
    &&& block.minted matches Some(m) && n.note == m.note && n.spent_height == spent.height(
        m.nullifier@,
    ) && match n.maturity {
        CoinbaseMaturity::Matured { leaf_at } => leaf_at == m.leaf_at && leaf_at <= tip,
        CoinbaseMaturity::Immature { leaf_at, blocks_remaining } => leaf_at == m.leaf_at && tip
            + blocks_remaining == leaf_at && blocks_remaining > 0,
    }
    &&& n.minted_height == block.height
    &&& exists|k: int|
        0 <= k < mine.len() && (#[trigger] mine[k]).1@ == block.coinbase_rkm@ && mine[k].0
            == n.div_index && forall|j: int| 0 <= j < k ==> (#[trigger] mine[j]).1@
            != block.coinbase_rkm@
}

/// The places of blocks, each once and in order.
pub open spec fn are_places(at: Seq<int>, blocks: Seq<BlockCoinbase>) -> bool {
    &&& forall|i: int| 0 <= i < at.len() ==> 0 <= #[trigger] at[i] < blocks.len()
    &&& forall|i: int, j: int| 0 <= i < j < at.len() ==> #[trigger] at[i] < #[trigger] at[j]
}

proof fn lemma_owner(mine: Seq<(u64, [u64; 4])>, rkm: Seq<u64>)
    ensures
        match owner_of(mine, rkm) {
            Some(index) => exists|k: int|
                0 <= k < mine.len() && (#[trigger] mine[k]).1@ == rkm && mine[k].0 == index
                    && forall|j: int| 0 <= j < k ==> (#[trigger] mine[j]).1@ != rkm,
            None => forall|j: int| 0 <= j < mine.len() ==> (#[trigger] mine[j]).1@ != rkm,
        },
    decreases mine.len(),
{
    if mine.len() > 0 && mine[0].1@ != rkm {
        let rest = mine.skip(1);
        lemma_owner(rest, rkm);
        match owner_of(rest, rkm) {
            Some(index) => {
                let k = choose|k: int|
                    0 <= k < rest.len() && (#[trigger] rest[k]).1@ == rkm && rest[k].0 == index
                        && forall|j: int| 0 <= j < k ==> (#[trigger] rest[j]).1@ != rkm;
                assert(mine[k + 1] == rest[k]);
                assert forall|j: int| 0 <= j < k + 1 implies (#[trigger] mine[j]).1@ != rkm by {
                    if j > 0 {
                        assert(rest[j - 1] == mine[j]);
                    }
                }
            },
            None => {
                assert forall|j: int| 0 <= j < mine.len() implies (#[trigger] mine[j]).1@ != rkm by {
                    if j > 0 {
                        assert(rest[j - 1] == mine[j]);
                    }
                }
            },
        }
    }
}

proof fn lemma_mined_by(
    mine: Seq<(u64, [u64; 4])>,
    block: BlockCoinbase,
    spent: SpentSet,
    tip: u64,
)
    ensures
        match mined_by(mine, block, spent, tip) {
            Some(n) => pays_mine(mine, block) && tells_of(n, mine, block, spent, tip),
            None => !pays_mine(mine, block),
        },
{
    let rkm = block.coinbase_rkm@;
    lemma_owner(mine, rkm);
    let zero = seq![0u64, 0u64, 0u64, 0u64];
    if no_payee(rkm) {
        assert forall|z: int| 0 <= z < 4 implies #[trigger] rkm[z] == 0 by {}
    } else if forall|z: int| 0 <= z < 4 ==> #[trigger] rkm[z] == 0 {
        assert(rkm =~= zero);
    }
}

/// The entries of a state among the mined notes of some blocks stand for blocks
/// that pay this wallet, each for one and in order, and every such block whose
/// note stands so has one.
proof fn lemma_entries(
    mine: Seq<(u64, [u64; 4])>,
    blocks: Seq<BlockCoinbase>,
    spent: SpentSet,
    tip: u64,
    state: MinedState,
) -> (at: Seq<int>)
    ensures
        ({
            let list = in_state(all_mined(mine, blocks, spent, tip), state);
            &&& at.len() == list.len()
            &&& are_places(at, blocks)
            &&& forall|i: int|
                0 <= i < list.len() ==> pays_mine(mine, blocks[at[i]]) && tells_of(
                    #[trigger] list[i],
                    mine,
                    blocks[at[i]],
                    spent,
                    tip,
                ) && state_of(list[i]) == state
            &&& forall|b: int|
                0 <= b < blocks.len() && pays_mine(mine, #[trigger] blocks[b]) && state_of(
                    mined_by(mine, blocks[b], spent, tip)->0,
                ) == state ==> at.contains(b)
        }),
    decreases blocks.len(),
{
    if blocks.len() == 0 {
        Seq::empty()
    } else {
        let front = blocks.drop_last();
        let last = blocks.last();
        let was = lemma_entries(mine, front, spent, tip, state);
        let before = all_mined(mine, front, spent, tip);
        let list0 = in_state(before, state);
        let list = in_state(all_mined(mine, blocks, spent, tip), state);
        lemma_mined_by(mine, last, spent, tip);
        let more = match mined_by(mine, last, spent, tip) {
            Some(n) => state_of(n) == state,
            None => false,
        };
        let at = if more {
            was.push(blocks.len() - 1)
        } else {
            was
        };
        if let Some(n) = mined_by(mine, last, spent, tip) {
            assert(before.push(n).drop_last() =~= before);
        }
        assert(list =~= if more {
            list0.push(mined_by(mine, last, spent, tip)->0)
        } else {
            list0
        });
        assert forall|i: int| 0 <= i < list.len() implies pays_mine(mine, blocks[at[i]])
            && tells_of(#[trigger] list[i], mine, blocks[at[i]], spent, tip) && state_of(list[i])
            == state by {
            if i < list0.len() {
                assert(list[i] == list0[i]);
                assert(at[i] == was[i]);
                assert(front[was[i]] == blocks[at[i]]);
            } else {
                assert(blocks[at[i]] == last);
            }
        }
        assert forall|b: int|
            0 <= b < blocks.len() && pays_mine(mine, #[trigger] blocks[b]) && state_of(
                mined_by(mine, blocks[b], spent, tip)->0,
            ) == state implies at.contains(b) by {
            if b < front.len() {
                assert(front[b] == blocks[b]);
                let i = choose|i: int| 0 <= i < was.len() && was[i] == b;
                assert(at[i] == b);
            } else {
                assert(at[at.len() - 1] == b);
            }
        }
        at
    }
}

/// A mined report is complete and exact. Each of its entries stands for one
/// block that pays one of the addresses and minted a note, and says what the
/// block and the chain say of it; no two stand for the same block, and each such
/// block has one: among the spent where its nullifier was published, else among
/// the spendable where its leaf is in the tree, and else among the maturing. What
/// else a block holds does not matter. The three results are the places of the
/// blocks that the three lists stand for.
pub proof fn law_a_mined_report_is_complete_and_exact(
    mine: Seq<(u64, [u64; 4])>,
    blocks: Seq<BlockCoinbase>,
    spent: SpentSet,
    tip: u64,
    spendable: Seq<MinedNote>,
    maturing: Seq<MinedNote>,
    gone: Seq<MinedNote>,
) -> (at: (Seq<int>, Seq<int>, Seq<int>))
    requires
        spendable == in_state(all_mined(mine, blocks, spent, tip), MinedState::Spendable),
        maturing == in_state(all_mined(mine, blocks, spent, tip), MinedState::Maturing),
        gone == in_state(all_mined(mine, blocks, spent, tip), MinedState::Spent),
    ensures
        at.0.len() == spendable.len() && at.1.len() == maturing.len() && at.2.len() == gone.len(),
        are_places(at.0, blocks) && are_places(at.1, blocks) && are_places(at.2, blocks),
        forall|i: int|
            0 <= i < spendable.len() ==> tells_of(
                #[trigger] spendable[i],
                mine,
                blocks[at.0[i]],
                spent,
                tip,
            ),
        forall|i: int|
            0 <= i < maturing.len() ==> tells_of(
                #[trigger] maturing[i],
                mine,
                blocks[at.1[i]],
                spent,
                tip,
            ),
        forall|i: int|
            0 <= i < gone.len() ==> tells_of(#[trigger] gone[i], mine, blocks[at.2[i]], spent, tip),
        forall|b: int|
            0 <= b < blocks.len() ==> ({
                let block = #[trigger] blocks[b];
                let m = block.minted->0;
                let seen = spent.height(m.nullifier@) is Some;
                &&& at.0.contains(b) <==> pays_mine(mine, block) && !seen && m.leaf_at <= tip
                &&& at.1.contains(b) <==> pays_mine(mine, block) && !seen && m.leaf_at > tip
                &&& at.2.contains(b) <==> pays_mine(mine, block) && seen
            }),
{
    let a = lemma_entries(mine, blocks, spent, tip, MinedState::Spendable);
    let b = lemma_entries(mine, blocks, spent, tip, MinedState::Maturing);
    let c = lemma_entries(mine, blocks, spent, tip, MinedState::Spent);
    assert forall|x: int| 0 <= x < blocks.len() implies ({
        let block = #[trigger] blocks[x];
        let m = block.minted->0;
        let seen = spent.height(m.nullifier@) is Some;
        &&& a.contains(x) <==> pays_mine(mine, block) && !seen && m.leaf_at <= tip
        &&& b.contains(x) <==> pays_mine(mine, block) && !seen && m.leaf_at > tip
        &&& c.contains(x) <==> pays_mine(mine, block) && seen
    }) by {
        lemma_mined_by(mine, blocks[x], spent, tip);
        if a.contains(x) {
            let i = choose|i: int| 0 <= i < a.len() && a[i] == x;
            assert(tells_of(spendable[i], mine, blocks[a[i]], spent, tip));
        }
        if b.contains(x) {
            let i = choose|i: int| 0 <= i < b.len() && b[i] == x;
            assert(tells_of(maturing[i], mine, blocks[b[i]], spent, tip));
        }
        if c.contains(x) {
            let i = choose|i: int| 0 <= i < c.len() && c[i] == x;
            assert(tells_of(gone[i], mine, blocks[c[i]], spent, tip));
        }
    }
    (a, b, c)
}

/// The value of no mined notes is nothing, that of one is its own, and that of
/// two rows of them is theirs together.
pub proof fn law_mined_values_add_up(a: Seq<MinedNote>, b: Seq<MinedNote>, n: MinedNote)
    ensures
        mined_value(Seq::empty()) == 0,
        mined_value(seq![n]) == n.note.value,
        mined_value(a + b) == mined_value(a) + mined_value(b),
    decreases b.len(),
{
    assert(seq![n].drop_last() =~= Seq::empty());
    if b.len() == 0 {
        assert(a + b =~= a);
    } else {
        law_mined_values_add_up(a, b.drop_last(), n);
        assert((a + b).drop_last() =~= a + b.drop_last());
    }
}

/// Every mined note is in exactly one of the three states; what is spendable
/// is matured and unspent, and a maturing note is never spendable.
pub proof fn law_mined_notes_are_parted(notes: Seq<MinedNote>)
    ensures
        in_state(notes, MinedState::Spendable).len() + in_state(notes, MinedState::Maturing).len()
            + in_state(notes, MinedState::Spent).len() == notes.len(),
        mined_value(in_state(notes, MinedState::Spendable)) + mined_value(
            in_state(notes, MinedState::Maturing),
        ) + mined_value(in_state(notes, MinedState::Spent)) == mined_value(notes),
        forall|i: int|
            0 <= i < in_state(notes, MinedState::Spendable).len() ==> (#[trigger] in_state(
                notes,
                MinedState::Spendable,
            )[i]).spendable(),
        forall|i: int|
            0 <= i < in_state(notes, MinedState::Maturing).len() ==> !(#[trigger] in_state(
                notes,
                MinedState::Maturing,
            )[i]).spendable(),
        forall|i: int|
            0 <= i < in_state(notes, MinedState::Spent).len() ==> !(#[trigger] in_state(
                notes,
                MinedState::Spent,
            )[i]).spendable(),
    decreases notes.len(),
{
    if notes.len() > 0 {
        let front = notes.drop_last();
        law_mined_notes_are_parted(front);
        let s = in_state(notes, state_of(notes.last()));
        assert(s.drop_last() =~= in_state(front, state_of(notes.last())));
        assert forall|state: MinedState, i: int|
            0 <= i < in_state(notes, state).len() implies state_of(#[trigger] in_state(notes, state)[i]) == state by {
            lemma_in_state(notes, state, i);
        }
    }
}

proof fn lemma_in_state(notes: Seq<MinedNote>, state: MinedState, i: int)
    requires
        0 <= i < in_state(notes, state).len(),
    ensures
        state_of(in_state(notes, state)[i]) == state,
    decreases notes.len(),
{
    if notes.len() > 0 {
        let front = in_state(notes.drop_last(), state);
        if i < front.len() {
            lemma_in_state(notes.drop_last(), state, i);
        }
    }
}

/// Every one of the notes is among those of its own state.
pub proof fn lemma_in_state_all(notes: Seq<MinedNote>, n: MinedNote)
    requires
        notes.contains(n),
    ensures
        in_state(notes, state_of(n)).contains(n),
    decreases notes.len(),
{
    let front = notes.drop_last();
    let s = in_state(front, state_of(n));
    let all = in_state(notes, state_of(n));
    let k = choose|k: int| 0 <= k < notes.len() && notes[k] == n;
    if k < front.len() {
        assert(front[k] == n);
        lemma_in_state_all(front, n);
        let i = choose|i: int| 0 <= i < s.len() && s[i] == n;
        assert(all[i] == n);
    } else {
        assert(all[s.len() as int] == n);
    }
}

/// A note in a state is one of the notes.
pub proof fn lemma_in_state_member(notes: Seq<MinedNote>, state: MinedState, i: int)
    requires
        0 <= i < in_state(notes, state).len(),
    ensures
        notes.contains(in_state(notes, state)[i]),
    decreases notes.len(),
{
    if notes.len() > 0 {
        let front = notes.drop_last();
        let n = in_state(notes, state)[i];
        if i < in_state(front, state).len() {
            lemma_in_state_member(front, state, i);
            let k = choose|k: int| 0 <= k < front.len() && front[k] == n;
            assert(notes[k] == n);
        } else {
            assert(notes[notes.len() - 1] == n);
        }
    }
}

/// A page of the coinbase is taken exactly where the stream is not over, it answers for
/// what was asked, and its blocks continue what was read without a hole and inside
/// the range. The stream is then over exactly where the page has no block or ends at
/// the range's end, and goes on right behind it otherwise. What answers for another
/// range, or comes once the stream is over, changes nothing.
pub proof fn law_a_coinbase_page_is_taken_as_asked(
    before: CoinbaseCatchUp,
    page: CoinbaseChunk,
    now: CoinbaseCatchUp,
    r: Result<(), CoinbaseRefusal>,
)
    requires
        coinbase_taken(before, page, now, r),
    ensures
        r is Ok <==> {
            let h = block_heights(page.blocks@);
            &&& !before.done
            &&& page.from == before.cursor && page.to == before.to
            &&& forall|i: int| 0 <= i < h.len() ==> #[trigger] h[i] == h[0] + i
            &&& forall|i: int| 0 <= i < h.len() ==> before.cursor <= #[trigger] h[i] <= before.to
            &&& h.len() > 0 && before.chain.covered is Some ==> h[0] == (before.chain.covered->0).1 + 1
        },
        r is Ok ==> (now.done <==> page.blocks@.len() == 0 || page.blocks@.last().height >= before.to),
        r is Ok && !now.done ==> now.cursor == page.blocks@.last().height + 1,
        before.done || page.from != before.cursor || page.to != before.to ==> r is Err && now
            == before,
        now.from == before.from && now.to == before.to,
{
    let h = block_heights(page.blocks@);
    if !before.done && page.from == before.cursor && page.to == before.to && h.len() > 0 {
        if r is Ok {
            law_faultless_page_is_contiguous(before.chain.covered, before.cursor, before.to, h);
        }
        if (forall|i: int| 0 <= i < h.len() ==> #[trigger] h[i] == h[0] + i) && (forall|i: int|
            0 <= i < h.len() ==> before.cursor <= #[trigger] h[i] <= before.to) && (before.chain.covered is Some
            ==> h[0] == (before.chain.covered->0).1 + 1) {
            law_a_contiguous_page_is_taken(before.chain.covered, before.cursor, before.to, h);
        }
        assert(h.last() == page.blocks@.last().height);
    }
}

} // verus!
