//! The local commitment tree's leaves, kept up with the leaf stream, and the
//! anchor that a spend may be built against.
//!
//! The stream carries no root, so a downloaded tree is not a checked one: what
//! checks it is that some number of its leaves hashes to a root that the node
//! serves as an anchor. The largest such number is the one to build at.
use crate::bytes32::contains32;
#[allow(unused_imports)]
use crate::bytes32::holds32;
use crate::text::{hex_of, push_dec};
#[allow(unused_imports)]
use crate::text::{dec, hex_text};
use vstd::prelude::*;

verus! {

/// The leaf cache inside the wallet directory.
pub const LEAVES_FILE: &'static str = "tree-leaves.v1";

/// The cache format that is read and written: one byte, first in the file.
pub const LEAVES_FILE_VERSION: u8 = 1;

/// One bounded page of the leaf stream.
#[derive(Clone, Debug)]
pub struct LeafChunk {
    /// The index of the first leaf: the server's echo of the requested `from`.
    pub from: u64,
    /// How many leaves the serving tree held when it answered.
    pub total: u64,
    /// Commitments in the order of the tree, starting at `from`.
    pub leaves: Vec<[u8; 32]>,
}

/// Where leaves come from.
pub trait LeafSource {
    /// One bounded page from the leaf index `from`, or why there is none.
    fn fetch_from(&self, from: u64) -> Result<LeafChunk, String>;
}

/// The node's valid anchors.
#[derive(Clone, Debug, Default)]
pub struct Anchors {
    pub tip_height: u64,
    /// The finalized height, if anything is finalized.
    pub finalized_height: Option<u64>,
    /// How far below the tip an anchor may be.
    pub max_age_blocks: u64,
    /// The roots that are valid anchors, newest first.
    pub roots: Vec<[u8; 32]>,
}

/// Where the valid anchors come from.
pub trait AnchorSource {
    fn anchors(&self) -> Result<Anchors, String>;
}

/// Every way in which a sync or the choice of an anchor refuses.
#[derive(Debug, PartialEq, Eq)]
pub enum SyncRefusal {
    /// The endpoint could not be reached, or its answer did not decode.
    Endpoint { why: String },
    /// The page answers an offset that was not asked for.
    FromMismatch { asked: u64, got: u64 },
    /// The endpoint serves fewer leaves than are held.
    StreamBehindLocal { served: u64, local: u64 },
    /// The endpoint claims more leaves than it returns.
    NoProgress { at: u64, claimed: u64 },
    /// The node serves no anchor: nothing is finalized.
    NoAnchorsYet { tip_height: u64 },
    /// No number of local leaves hashes to a root that the node serves.
    NoVerifiedAnchor {
        local_count: u64,
        served_roots: usize,
        tip_height: u64,
        finalized_height: Option<u64>,
    },
    /// A cache file that is not understood.
    BadCache { path: String, why: String },
    /// The cache could not be read or written.
    Io { why: String },
}

/// A height, or `none`.
pub open spec fn height_text(h: Option<u64>) -> Seq<char> {
    match h {
        Some(h) => dec(h as nat),
        None => "none"@,
    }
}

/// The sentence about a leaf or anchor endpoint that did not answer.
pub open spec fn unreachable_text(why: Seq<char>) -> Seq<char> {
    "tree sync never completed: the leaf endpoint refused or was unreachable ("@ + why + ")"@
}

impl SyncRefusal {
    /// The sentence that a person is shown.
    pub open spec fn text(&self) -> Seq<char> {
        match self {
            SyncRefusal::Endpoint { why } => unreachable_text(why@),
            SyncRefusal::FromMismatch { asked, got } => "tree sync refused: asked the leaf stream for offset "@
                + dec(*asked as nat) + " and it answered for "@ + dec(*got as nat)
                + ". The wire echoes `from` so a page cannot be misattributed; refusing to append leaves at an offset nobody claimed"@,
            SyncRefusal::StreamBehindLocal { served, local } => "tree sync refused: the endpoint serves "@
                + dec(*served as nat) + " leaves but the local cache already holds "@ + dec(
                *local as nat,
            )
                + ". An append-only tree never rewinds — either this endpoint is behind (retry, or use another node) or the cache was synced against a different net; refusing to guess which"@,
            SyncRefusal::NoProgress { at, claimed } => "tree sync refused: the endpoint claims "@
                + dec(*claimed as nat) + " leaves but returned none past "@ + dec(*at as nat)
                + " — refusing to poll it forever"@,
            SyncRefusal::NoAnchorsYet { tip_height } => "no spend is possible yet: the node is at tip "@
                + dec(*tip_height as nat)
                + " with nothing finalized, so it serves no valid anchors. A witness must be built against a FINALIZED root; wait for the first checkpoint"@,
            SyncRefusal::NoVerifiedAnchor {
                local_count,
                served_roots,
                tip_height,
                finalized_height,
            } => "tree sync refused: no leaf count from 0..="@ + dec(*local_count as nat)
                + " reconstructs any of the "@ + dec(*served_roots as nat)
                + " anchor(s) this node serves (tip "@ + dec(*tip_height as nat) + ", finalized "@
                + height_text(*finalized_height)
                + "). The leaf stream and the node's own anchors disagree — a lying stream is censorship, not forgery: nothing was persisted as verified, no witness will be built against it, and no proof was spent. If the node is honest and merely far ahead, delete "@
                + LEAVES_FILE@ + " and re-sync"@,
            SyncRefusal::BadCache { path, why } => "unreadable leaf cache "@ + path@ + ": "@ + why@
                + ". It caches PUBLIC chain data only — delete it and re-sync (a full re-download; no key material, no funds at stake)"@,
            SyncRefusal::Io { why } => "leaf cache I/O: "@ + why@,
        }
    }

    /// The sentence that a person is shown.
    pub fn message(&self) -> (r: String)
        ensures
            r@ == self.text(),
    {
        let mut s: String = String::new();
        match self {
            SyncRefusal::Endpoint { why } => {
                s.append(
                    "tree sync never completed: the leaf endpoint refused or was unreachable (",
                );
                s.append(why.as_str());
                s.append(")");
            },
            SyncRefusal::FromMismatch { asked, got } => {
                s.append("tree sync refused: asked the leaf stream for offset ");
                push_dec(&mut s, *asked);
                s.append(" and it answered for ");
                push_dec(&mut s, *got);
                s.append(
                    ". The wire echoes `from` so a page cannot be misattributed; refusing to append leaves at an offset nobody claimed",
                );
            },
            SyncRefusal::StreamBehindLocal { served, local } => {
                s.append("tree sync refused: the endpoint serves ");
                push_dec(&mut s, *served);
                s.append(" leaves but the local cache already holds ");
                push_dec(&mut s, *local);
                s.append(
                    ". An append-only tree never rewinds — either this endpoint is behind (retry, or use another node) or the cache was synced against a different net; refusing to guess which",
                );
            },
            SyncRefusal::NoProgress { at, claimed } => {
                s.append("tree sync refused: the endpoint claims ");
                push_dec(&mut s, *claimed);
                s.append(" leaves but returned none past ");
                push_dec(&mut s, *at);
                s.append(" — refusing to poll it forever");
            },
            SyncRefusal::NoAnchorsYet { tip_height } => {
                s.append("no spend is possible yet: the node is at tip ");
                push_dec(&mut s, *tip_height);
                s.append(
                    " with nothing finalized, so it serves no valid anchors. A witness must be built against a FINALIZED root; wait for the first checkpoint",
                );
            },
            SyncRefusal::NoVerifiedAnchor {
                local_count,
                served_roots,
                tip_height,
                finalized_height,
            } => {
                s.append("tree sync refused: no leaf count from 0..=");
                push_dec(&mut s, *local_count);
                s.append(" reconstructs any of the ");
                push_dec(&mut s, *served_roots as u64);
                s.append(" anchor(s) this node serves (tip ");
                push_dec(&mut s, *tip_height);
                s.append(", finalized ");
                match finalized_height {
                    Some(h) => push_dec(&mut s, *h),
                    None => s.append("none"),
                }
                s.append(
                    "). The leaf stream and the node's own anchors disagree — a lying stream is censorship, not forgery: nothing was persisted as verified, no witness will be built against it, and no proof was spent. If the node is honest and merely far ahead, delete ",
                );
                s.append(LEAVES_FILE);
                s.append(" and re-sync");
            },
            SyncRefusal::BadCache { path, why } => {
                s.append("unreadable leaf cache ");
                s.append(path.as_str());
                s.append(": ");
                s.append(why.as_str());
                s.append(
                    ". It caches PUBLIC chain data only — delete it and re-sync (a full re-download; no key material, no funds at stake)",
                );
            },
            SyncRefusal::Io { why } => {
                s.append("leaf cache I/O: ");
                s.append(why.as_str());
            },
        }
        assert(s@ =~= self.text());
        s
    }
}

/// A root in lowercase hexadecimal: how an anchor is shown to a person.
pub fn hex32(b: &[u8; 32]) -> (r: String)
    ensures
        r@ == hex_text(b@),
{
    hex_of(b)
}

/// The local tree as the stream left it: downloaded, not checked.
#[derive(Debug)]
pub struct SyncedTree {
    pub leaves: Vec<[u8; 32]>,
    /// How many leaves are held.
    pub count: u64,
    /// How many of them this sync fetched.
    pub fetched: u64,
}

/// A number of leaves whose root the node serves as a valid anchor.
#[derive(Clone, Copy, Debug, PartialEq, Eq)]
pub struct VerifiedAnchor {
    /// How many leaves to build the witness at.
    pub count: u64,
    pub root: [u8; 32],
    /// How far below the local tip the anchor is, in leaves.
    pub leaves_behind_local: u64,
    pub tip_height: u64,
    pub finalized_height: Option<u64>,
}

/// The leaf stream, taken in chunk by chunk. The caller fetches the chunks;
/// the checks are all here.
pub struct TreeCatchUp {
    pub leaves: Vec<[u8; 32]>,
    pub start: u64,
    pub done: bool,
}

/// How taking in a page goes: what of it is taken, and what is refused.
pub open spec fn leaves_taken(
    before: TreeCatchUp,
    chunk: LeafChunk,
    now: TreeCatchUp,
    r: Result<(), SyncRefusal>,
) -> bool {
    &&& now.wf()
    &&& now.start == before.start
    &&& ({
        let held = before.leaves@.len();
        let n = chunk.leaves@.len();
        if before.done {
            &&& r matches Err(SyncRefusal::Endpoint { why })
            &&& why@ == "a chunk was supplied after the catch-up completed"@
            &&& now == before
        } else if chunk.from != held {
            &&& r == Err::<(), SyncRefusal>(
                SyncRefusal::FromMismatch { asked: held as u64, got: chunk.from },
            )
            &&& now == before
        } else if chunk.total < held {
            &&& r == Err::<(), SyncRefusal>(
                SyncRefusal::StreamBehindLocal { served: chunk.total, local: held as u64 },
            )
            &&& now == before
        } else if held + n > chunk.total {
            &&& r matches Err(SyncRefusal::Endpoint { why })
            &&& why@ == "chunk of "@ + dec(n) + " leaves from "@ + dec(held)
                + " overshoots the endpoint's own claimed size "@ + dec(chunk.total as nat)
            &&& now == before
        } else {
            &&& now.leaves@ == before.leaves@ + chunk.leaves@
            &&& now.done == (held + n == chunk.total)
            &&& held + n < chunk.total && n == 0 ==> r == Err::<(), SyncRefusal>(
                SyncRefusal::NoProgress { at: held as u64, claimed: chunk.total },
            )
            &&& held + n == chunk.total || n > 0 ==> r is Ok
        }
    })
}

impl TreeCatchUp {
    /// The leaves held at the start are still there.
    pub open spec fn wf(&self) -> bool {
        self.start <= self.leaves@.len()
    }

    /// Continues from the leaves that the caller holds.
    pub fn new(leaves: Vec<[u8; 32]>) -> (r: TreeCatchUp)
        ensures
            r.wf(),
            r.leaves@ == leaves@,
            r.start == leaves@.len(),
            !r.done,
    {
        let start = leaves.len() as u64;
        TreeCatchUp { leaves, start, done: false }
    }

    /// The leaf index to ask the endpoint for next; `None` once caught up.
    pub fn want_from(&self) -> (r: Option<u64>)
        ensures
            r is None <==> self.done,
            r matches Some(from) ==> from == self.leaves@.len(),
    {
        if self.done {
            None
        } else {
            Some(self.leaves.len() as u64)
        }
    }

    /// Takes one chunk in. A chunk that is refused for what it claims leaves
    /// no leaf behind.
    pub fn supply(&mut self, chunk: LeafChunk) -> (r: Result<(), SyncRefusal>)
        requires
            old(self).wf(),
        ensures
            leaves_taken(*old(self), chunk, *final(self), r),
    {
        if self.done {
            return Err(
                SyncRefusal::Endpoint {
                    why: "a chunk was supplied after the catch-up completed".to_owned(),
                },
            );
        }
        let held = self.leaves.len() as u64;
        if chunk.from != held {
            return Err(SyncRefusal::FromMismatch { asked: held, got: chunk.from });
        }
        if chunk.total < held {
            return Err(SyncRefusal::StreamBehindLocal { served: chunk.total, local: held });
        }
        let n = chunk.leaves.len() as u64;
        if n > chunk.total - held {
            let mut why: String = String::new();
            why.append("chunk of ");
            push_dec(&mut why, n);
            why.append(" leaves from ");
            push_dec(&mut why, held);
            why.append(" overshoots the endpoint's own claimed size ");
            push_dec(&mut why, chunk.total);
            assert(why@ =~= "chunk of "@ + dec(n as nat) + " leaves from "@ + dec(held as nat)
                + " overshoots the endpoint's own claimed size "@ + dec(chunk.total as nat));
            return Err(SyncRefusal::Endpoint { why });
        }
        let mut i: usize = 0;
        assert(self.leaves@ + chunk.leaves@.take(0) =~= self.leaves@);
        while i < chunk.leaves.len()
            invariant
                i <= chunk.leaves@.len(),
                self.leaves@ == old(self).leaves@ + chunk.leaves@.take(i as int),
                self.start == old(self).start,
                !self.done,
            decreases chunk.leaves@.len() - i,
        {
            self.leaves.push(chunk.leaves[i]);
            assert(old(self).leaves@ + chunk.leaves@.take(i + 1) =~= self.leaves@);
            i += 1;
        }
        assert(chunk.leaves@.take(chunk.leaves@.len() as int) =~= chunk.leaves@);
        if n == chunk.total - held {
            self.done = true;
        } else if n == 0 {
            return Err(SyncRefusal::NoProgress { at: held, claimed: chunk.total });
        }
        Ok(())
    }

    /// The tree that the chunks came to.
    pub fn finish(self) -> (r: SyncedTree)
        requires
            self.wf(),
        ensures
            r.leaves@ == self.leaves@,
            r.count == self.leaves@.len(),
            r.fetched == self.leaves@.len() - self.start,
    {
        let count = self.leaves.len() as u64;
        SyncedTree { leaves: self.leaves, count, fetched: count - self.start }
    }
}

/// A chunk is taken exactly where it begins behind the leaves that are held, goes
/// no further than the size it claims, and gets on or ends there; its leaves then
/// stand behind the others. The catch-up is over exactly once as many leaves are
/// held as the chunk claims there are. Whatever the chunk, the leaves that are held
/// stay in front.
pub proof fn law_a_chunk_continues_the_tree(
    before: TreeCatchUp,
    chunk: LeafChunk,
    now: TreeCatchUp,
    r: Result<(), SyncRefusal>,
)
    requires
        leaves_taken(before, chunk, now, r),
    ensures
        r is Ok <==> {
            &&& !before.done
            &&& chunk.from == before.leaves@.len()
            &&& before.leaves@.len() + chunk.leaves@.len() <= chunk.total
            &&& chunk.leaves@.len() > 0 || before.leaves@.len() == chunk.total
        },
        r is Ok ==> now.leaves@ == before.leaves@ + chunk.leaves@,
        r is Ok ==> (now.done <==> now.leaves@.len() == chunk.total),
        r is Err ==> now.leaves@ == before.leaves@ && now.done == before.done,
        now.start == before.start,
{
    if r is Err {
        assert(before.leaves@ + Seq::<[u8; 32]>::empty() =~= before.leaves@);
        if chunk.leaves@.len() == 0 {
            assert(before.leaves@ + chunk.leaves@ =~= before.leaves@);
        }
    }
}

/// A catch-up that has taken nothing in yet.
pub open spec fn unsynced(c: TreeCatchUp, held: Seq<[u8; 32]>) -> bool {
    c.wf() && c.leaves@ == held && c.start == held.len() && !c.done
}

/// What a source may answer a catch-up that asks for its next chunk.
pub open spec fn leaf_answers<S: LeafSource>(
    source: &S,
    c: TreeCatchUp,
    answer: Result<LeafChunk, String>,
) -> bool {
    !c.done && call_ensures(S::fetch_from, (source, c.leaves@.len() as u64), answer)
}

/// Chunk `i` is the source's answer to what was wanted then, and was taken in
/// without a refusal.
pub open spec fn chunk_taken<S: LeafSource>(
    source: &S,
    states: Seq<TreeCatchUp>,
    chunks: Seq<LeafChunk>,
    i: int,
) -> bool {
    &&& leaf_answers(source, states[i], Ok(chunks[i]))
    &&& leaves_taken(states[i], chunks[i], states[i + 1], Ok(()))
}

/// The states of a catch-up from the held leaves as it takes in chunk after
/// chunk of a source.
pub open spec fn caught_up<S: LeafSource>(
    source: &S,
    held: Seq<[u8; 32]>,
    states: Seq<TreeCatchUp>,
    chunks: Seq<LeafChunk>,
) -> bool {
    &&& states.len() == chunks.len() + 1
    &&& unsynced(states[0], held)
    &&& forall|i: int| 0 <= i < chunks.len() ==> #[trigger] chunk_taken(source, states, chunks, i)
}

/// How a catch-up ends: with the tree once the claimed size is reached, and
/// before that with the source's own failure or with the refusal of the chunk
/// that it gave.
pub open spec fn synced<S: LeafSource>(
    source: &S,
    c: TreeCatchUp,
    r: Result<SyncedTree, SyncRefusal>,
) -> bool {
    match r {
        Ok(tree) => c.done && tree.leaves@ == c.leaves@ && tree.count == c.leaves@.len()
            && tree.fetched == c.leaves@.len() - c.start,
        Err(e) => {
            ||| exists|why: String| #[trigger]
                leaf_answers(source, c, Err(why)) && e == (SyncRefusal::Endpoint { why })
            ||| exists|chunk: LeafChunk, now: TreeCatchUp|
                leaf_answers(source, c, Ok(chunk)) && #[trigger] leaves_taken(c, chunk, now, Err(e))
        },
    }
}

/// What continuing the held leaves from a source can come to.
pub open spec fn leaves_read<S: LeafSource>(
    source: &S,
    held: Seq<[u8; 32]>,
    r: Result<SyncedTree, SyncRefusal>,
) -> bool {
    exists|states: Seq<TreeCatchUp>, chunks: Seq<LeafChunk>| #[trigger]
        caught_up(source, held, states, chunks) && synced(source, states.last(), r)
}

/// The leaves of a row of chunks, in order.
pub open spec fn leaves_of(chunks: Seq<LeafChunk>) -> Seq<[u8; 32]>
    decreases chunks.len(),
{
    if chunks.len() == 0 {
        Seq::empty()
    } else {
        leaves_of(chunks.drop_last()) + chunks.last().leaves@
    }
}

proof fn lemma_caught_up<S: LeafSource>(
    source: &S,
    held: Seq<[u8; 32]>,
    states: Seq<TreeCatchUp>,
    chunks: Seq<LeafChunk>,
)
    requires
        caught_up(source, held, states, chunks),
    ensures
        states.last().leaves@ == held + leaves_of(chunks),
    decreases chunks.len(),
{
    if chunks.len() == 0 {
        assert(held + leaves_of(chunks) =~= held);
    } else {
        let n = chunks.len() - 1;
        let front = chunks.drop_last();
        assert forall|i: int| 0 <= i < front.len() implies #[trigger] chunk_taken(
            source,
            states.drop_last(),
            front,
            i,
        ) by {
            assert(chunk_taken(source, states, chunks, i));
        }
        lemma_caught_up(source, held, states.drop_last(), front);
        assert(chunk_taken(source, states, chunks, n));
        assert(held + leaves_of(chunks) =~= held + leaves_of(front) + chunks[n].leaves@);
    }
}

/// A tree that was synced is the held leaves and then those of the source's
/// chunks, as many as the last of them claims there are.
pub proof fn law_a_synced_tree_is_its_chunks<S: LeafSource>(
    source: &S,
    held: Seq<[u8; 32]>,
    tree: SyncedTree,
)
    requires
        leaves_read(source, held, Ok(tree)),
    ensures
        exists|states: Seq<TreeCatchUp>, chunks: Seq<LeafChunk>| #[trigger]
            caught_up(source, held, states, chunks) && tree.leaves@ == held + leaves_of(chunks)
                && chunks.len() > 0 && tree.count == chunks.last().total,
{
    let (states, chunks) = choose|states: Seq<TreeCatchUp>, chunks: Seq<LeafChunk>| #[trigger]
        caught_up(source, held, states, chunks) && synced(
            source,
            states.last(),
            Ok::<SyncedTree, SyncRefusal>(tree),
        );
    lemma_caught_up(source, held, states, chunks);
    if chunks.len() > 0 {
        assert(chunk_taken(source, states, chunks, chunks.len() - 1));
    }
}

/// Continues the held leaves from the stream until the endpoint's claimed size
/// is reached.
///
/// What comes back is what the source's own chunks come to, each of them asked
/// for from where the leaves ended then; the first failure of the source and the
/// first chunk that is refused end the sync. Whatever the source answers, the
/// leaves held before stay in front: a sync only appends.
pub fn sync_tree<S: LeafSource>(held: Vec<[u8; 32]>, source: &S) -> (r: Result<
    SyncedTree,
    SyncRefusal,
>)
    ensures
        leaves_read(source, held@, r),
        r matches Ok(tree) ==> {
            &&& tree.count == tree.leaves@.len()
            &&& tree.fetched == tree.leaves@.len() - held@.len()
            &&& tree.leaves@.take(held@.len() as int) == held@
        },
        r matches Err(e) ==> e is Endpoint || e is FromMismatch || e is StreamBehindLocal
            || e is NoProgress,
{
    let ghost held0 = held@;
    let mut catch = TreeCatchUp::new(held);
    let ghost mut states: Seq<TreeCatchUp> = seq![catch];
    let ghost mut chunks: Seq<LeafChunk> = Seq::empty();
    assert(catch.leaves@.take(held0.len() as int) =~= held0);
    while !catch.done
        invariant
            catch.wf(),
            catch.start == held0.len(),
            held@ == held0,
            catch.leaves@.take(held0.len() as int) == held0,
            caught_up(source, held0, states, chunks),
            states.last() == catch,
        decreases (if catch.done { 0int } else { 1int }), u64::MAX - catch.leaves@.len(),
    {
        let ghost before = catch;
        let from = catch.leaves.len() as u64;
        let answer = source.fetch_from(from);
        assert(leaf_answers(source, before, answer));
        let chunk = match answer {
            Ok(chunk) => chunk,
            Err(why) => {
                return Err(SyncRefusal::Endpoint { why });
            },
        };
        let supplied = catch.supply(chunk);
        assert(leaves_taken(before, chunk, catch, supplied));
        match supplied {
            Ok(()) => {},
            Err(e) => {
                return Err(e);
            },
        }
        assert(catch.leaves@.take(held0.len() as int) =~= before.leaves@.take(held0.len() as int));
        proof {
            let s = states.push(catch);
            let c = chunks.push(chunk);
            assert forall|i: int| 0 <= i < c.len() implies #[trigger] chunk_taken(
                source,
                s,
                c,
                i,
            ) by {
                if i < chunks.len() {
                    assert(chunk_taken(source, states, chunks, i));
                }
            }
            states = s;
            chunks = c;
        }
    }
    Ok(catch.finish())
}

/// The walk down from the local tip to an anchor: the root of ever fewer
/// leaves is asked for, until it is one that the node serves.
pub struct AnchorWalk {
    pub anchors: Anchors,
    /// How many leaves are held.
    pub local: u64,
    /// How many leaves the next root is of.
    pub next: u64,
}

impl AnchorWalk {
    pub open spec fn wf(&self) -> bool {
        self.next <= self.local && self.anchors.roots@.len() > 0
    }

    /// The anchor at `next` leaves, whose root is `root`.
    pub open spec fn anchor(&self, root: [u8; 32]) -> VerifiedAnchor {
        VerifiedAnchor {
            count: self.next,
            root,
            leaves_behind_local: (self.local - self.next) as u64,
            tip_height: self.anchors.tip_height,
            finalized_height: self.anchors.finalized_height,
        }
    }

    /// The refusal of a walk that found nothing.
    pub open spec fn exhausted(&self) -> SyncRefusal {
        SyncRefusal::NoVerifiedAnchor {
            local_count: self.local,
            served_roots: self.anchors.roots@.len() as usize,
            tip_height: self.anchors.tip_height,
            finalized_height: self.anchors.finalized_height,
        }
    }

    /// Starts at the local tip; refused if the node serves no anchor.
    pub fn new(anchors: Anchors, local: u64) -> (r: Result<AnchorWalk, SyncRefusal>)
        ensures
            anchors.roots@.len() == 0 <==> r is Err,
            r matches Err(e) ==> e == (SyncRefusal::NoAnchorsYet { tip_height: anchors.tip_height }),
            r matches Ok(w) ==> w.wf() && w.anchors == anchors && w.local == local && w.next == local,
    {
        if anchors.roots.len() == 0 {
            return Err(SyncRefusal::NoAnchorsYet { tip_height: anchors.tip_height });
        }
        Ok(AnchorWalk { anchors, local, next: local })
    }

    /// Takes in the root at `next` leaves: the anchor if the node serves it,
    /// the refusal if no fewer leaves are left, else one step further down.
    pub fn supply(&mut self, root: &[u8; 32]) -> (r: Option<Result<VerifiedAnchor, SyncRefusal>>)
        requires
            old(self).wf(),
        ensures
            final(self).wf(),
            final(self).anchors == old(self).anchors && final(self).local == old(self).local,
            if holds32(old(self).anchors.roots@, root@) {
                &&& r == Some(Ok::<VerifiedAnchor, SyncRefusal>(old(self).anchor(*root)))
                &&& final(self).next == old(self).next
            } else if old(self).next == 0 {
                &&& r == Some(Err::<VerifiedAnchor, SyncRefusal>(old(self).exhausted()))
                &&& final(self).next == 0
            } else {
                &&& r is None
                &&& final(self).next == old(self).next - 1
            },
    {
        if contains32(&self.anchors.roots, root) {
            return Some(
                Ok(
                    VerifiedAnchor {
                        count: self.next,
                        root: *root,
                        leaves_behind_local: self.local - self.next,
                        tip_height: self.anchors.tip_height,
                        finalized_height: self.anchors.finalized_height,
                    },
                ),
            );
        }
        if self.next == 0 {
            return Some(
                Err(
                    SyncRefusal::NoVerifiedAnchor {
                        local_count: self.local,
                        served_roots: self.anchors.roots.len(),
                        tip_height: self.anchors.tip_height,
                        finalized_height: self.anchors.finalized_height,
                    },
                ),
            );
        }
        self.next = self.next - 1;
        None
    }
}

/// What reading the anchors of a source comes to over a tree of `local` leaves:
/// the walk from its tip over just those anchors, or why there is none.
pub open spec fn walk_read<A: AnchorSource>(
    source: &A,
    local: u64,
    walk: Result<AnchorWalk, SyncRefusal>,
) -> bool {
    exists|a: Result<Anchors, String>| #[trigger]
        call_ensures(A::anchors, (source,), a) && match a {
            Err(why) => walk == Err::<AnchorWalk, SyncRefusal>(SyncRefusal::Endpoint { why }),
            Ok(x) => if x.roots@.len() == 0 {
                walk == Err::<AnchorWalk, SyncRefusal>(
                    SyncRefusal::NoAnchorsYet { tip_height: x.tip_height },
                )
            } else {
                walk == Ok::<AnchorWalk, SyncRefusal>(
                    AnchorWalk { anchors: x, local, next: local },
                )
            },
        }
}

/// Syncs the held leaves and reads the node's anchors: the tree, and the walk
/// that its roots are supplied to. The tree comes first, so that it is kept
/// whatever the anchors are.
pub fn sync_and_select<L: LeafSource, A: AnchorSource>(
    held: Vec<[u8; 32]>,
    leaves: &L,
    anchors: &A,
) -> (r: Result<(SyncedTree, Result<AnchorWalk, SyncRefusal>), SyncRefusal>)
    ensures
        match r {
            Ok((tree, walk)) => leaves_read(leaves, held@, Ok(tree)) && walk_read(
                anchors,
                tree.count,
                walk,
            ),
            Err(e) => leaves_read(leaves, held@, Err(e)),
        },
        r matches Ok((tree, walk)) ==> {
            &&& tree.count == tree.leaves@.len()
            &&& tree.leaves@.take(held@.len() as int) == held@
            &&& match walk {
                Ok(w) => w.wf() && w.local == tree.count && w.next == tree.count,
                Err(e) => e is Endpoint || e is NoAnchorsYet,
            }
        },
        r matches Err(e) ==> e is Endpoint || e is FromMismatch || e is StreamBehindLocal
            || e is NoProgress,
{
    match sync_tree(held, leaves) {
        Err(e) => Err(e),
        Ok(tree) => {
            let answer = anchors.anchors();
            assert(call_ensures(A::anchors, (anchors,), answer));
            let walk = match answer {
                Err(why) => Err(SyncRefusal::Endpoint { why }),
                Ok(a) => AnchorWalk::new(a, tree.count),
            };
            Ok((tree, walk))
        },
    }
}

/// Finds the largest number of leaves whose root the node serves as a valid
/// anchor. `roots[n]` is the root of the first `n` local leaves.
pub fn select_anchor(roots: &[[u8; 32]], anchors: Anchors) -> (r: Result<
    VerifiedAnchor,
    SyncRefusal,
>)
    requires
        0 < roots@.len() <= u64::MAX,
    ensures
        anchors.roots@.len() == 0 ==> r == Err::<VerifiedAnchor, SyncRefusal>(
            SyncRefusal::NoAnchorsYet { tip_height: anchors.tip_height },
        ),
        r matches Ok(a) ==> {
            &&& a.count < roots@.len()
            &&& a.root == roots@[a.count as int]
            &&& holds32(anchors.roots@, a.root@)
            &&& forall|n: int|
                a.count < n < roots@.len() ==> !holds32(anchors.roots@, (#[trigger] roots@[n])@)
            &&& a.leaves_behind_local == roots@.len() - 1 - a.count
            &&& a.tip_height == anchors.tip_height
            &&& a.finalized_height == anchors.finalized_height
        },
        anchors.roots@.len() > 0 ==> (r is Err <==> forall|n: int|
            0 <= n < roots@.len() ==> !holds32(anchors.roots@, (#[trigger] roots@[n])@)),
        anchors.roots@.len() > 0 && r is Err ==> r == Err::<VerifiedAnchor, SyncRefusal>(
            SyncRefusal::NoVerifiedAnchor {
                local_count: (roots@.len() - 1) as u64,
                served_roots: anchors.roots@.len() as usize,
                tip_height: anchors.tip_height,
                finalized_height: anchors.finalized_height,
            },
        ),
{
    let ghost served = anchors;
    let mut walk = match AnchorWalk::new(anchors, (roots.len() - 1) as u64) {
        Ok(walk) => walk,
        Err(e) => {
            return Err(e);
        },
    };
    loop
        invariant
            walk.wf(),
            walk.anchors == served,
            anchors == served,
            walk.local == roots@.len() - 1,
            served.roots@.len() > 0,
            roots@.len() <= u64::MAX,
            forall|m: int|
                walk.next < m < roots@.len() ==> !holds32(served.roots@, (#[trigger] roots@[m])@),
        decreases walk.next,
    {
        let at: usize = walk.next as usize;
        match walk.supply(&roots[at]) {
            Some(r) => {
                return r;
            },
            None => {},
        }
    }
}

/// The bytes of the leaves, one after the other.
pub open spec fn leaf_bytes(leaves: Seq<[u8; 32]>) -> Seq<u8> {
    Seq::new(32 * leaves.len(), |i: int| leaves[i / 32]@[i % 32])
}

/// The cache file: the version, then the leaves.
pub open spec fn cache_of(leaves: Seq<[u8; 32]>) -> Seq<u8> {
    seq![LEAVES_FILE_VERSION] + leaf_bytes(leaves)
}

/// What is wrong with a cache file; `None` if it is well formed.
pub open spec fn cache_fault(bytes: Seq<u8>) -> Option<Seq<char>> {
    if bytes.len() == 0 {
        Some("empty file"@)
    } else if bytes[0] != LEAVES_FILE_VERSION {
        Some(
            "version "@ + dec(bytes[0] as nat) + "; this binary knows version "@ + dec(
                LEAVES_FILE_VERSION as nat,
            ) + " only"@,
        )
    } else if (bytes.len() - 1) % 32 != 0 {
        Some(
            dec((bytes.len() - 1) as nat)
                + " leaf bytes is not a whole number of 32-byte commitments (torn write?)"@,
        )
    } else {
        None
    }
}

/// Writes the cache file.
pub fn cache_bytes(leaves: &[[u8; 32]]) -> (r: Vec<u8>)
    ensures
        r@ == cache_of(leaves@),
{
    let mut out: Vec<u8> = Vec::new();
    out.push(LEAVES_FILE_VERSION);
    let mut i: usize = 0;
    assert(out@ =~= cache_of(leaves@.take(0)));
    while i < leaves.len()
        invariant
            i <= leaves@.len(),
            out@ == cache_of(leaves@.take(i as int)),
        decreases leaves@.len() - i,
    {
        let leaf = leaves[i];
        let ghost before = out@;
        let mut k: usize = 0;
        while k < 32
            invariant
                k <= 32,
                out@ == before + leaf@.take(k as int),
            decreases 32 - k,
        {
            out.push(leaf[k]);
            assert(before + leaf@.take(k + 1) =~= out@);
            k += 1;
        }
        assert(out@ =~= cache_of(leaves@.take(i + 1)));
        i += 1;
    }
    assert(leaves@.take(leaves@.len() as int) =~= leaves@);
    out
}

/// Reads the cache file.
pub fn parse_cache(bytes: &[u8]) -> (r: Result<Vec<[u8; 32]>, String>)
    ensures
        match r {
            Ok(leaves) => cache_fault(bytes@) is None && cache_of(leaves@) == bytes@,
            Err(why) => cache_fault(bytes@) == Some(why@),
        },
{
    if bytes.len() == 0 {
        return Err("empty file".to_owned());
    }
    let version: u8 = bytes[0];
    if version != LEAVES_FILE_VERSION {
        let mut s: String = String::new();
        s.append("version ");
        push_dec(&mut s, version as u64);
        s.append("; this binary knows version ");
        push_dec(&mut s, LEAVES_FILE_VERSION as u64);
        s.append(" only");
        assert(s@ =~= cache_fault(bytes@)->0);
        return Err(s);
    }
    let total: usize = bytes.len();
    let n: usize = total - 1;
    if n % 32 != 0 {
        let mut s: String = String::new();
        push_dec(&mut s, n as u64);
        s.append(" leaf bytes is not a whole number of 32-byte commitments (torn write?)");
        assert(s@ =~= cache_fault(bytes@)->0);
        return Err(s);
    }
    let mut leaves: Vec<[u8; 32]> = Vec::new();
    let mut at: usize = 1;
    while at < total
        invariant
            1 <= at <= total,
            total == bytes@.len(),
            (bytes@.len() - 1) % 32 == 0,
            at - 1 == 32 * leaves@.len(),
            leaf_bytes(leaves@) == bytes@.subrange(1, at as int),
        decreases bytes@.len() - at,
    {
        let mut leaf: [u8; 32] = [0;32];
        let mut k: usize = 0;
        while k < 32
            invariant
                k <= 32,
                at + 32 <= total,
                total == bytes@.len(),
                forall|j: int| 0 <= j < k ==> leaf@[j] == bytes@[at + j],
            decreases 32 - k,
        {
            leaf[k] = bytes[at + k];
            k += 1;
        }
        let ghost before = leaves@;
        leaves.push(leaf);
        at += 32;
        proof {
            assert forall|i: int| 0 <= i < 32 * leaves@.len() implies #[trigger] leaf_bytes(leaves@)[i]
                == bytes@.subrange(1, at as int)[i] by {
                if i < 32 * before.len() {
                    assert(leaf_bytes(before)[i] == bytes@.subrange(1, at - 32)[i]);
                    assert(i / 32 < before.len());
                } else {
                    assert(i / 32 == before.len());
                    assert(leaf@[i % 32] == bytes@[at - 32 + i % 32]);
                }
            }
            assert(leaf_bytes(leaves@) =~= bytes@.subrange(1, at as int));
        }
    }
    assert(cache_of(leaves@) =~= bytes@);
    Ok(leaves)
}

/// The cache that was written for some leaves is well formed, and is written
/// for no others: reading it gives back exactly those leaves.
pub proof fn law_cache_reads_back(leaves: Seq<[u8; 32]>, other: Seq<[u8; 32]>)
    ensures
        cache_fault(cache_of(leaves)) is None,
        cache_of(other) == cache_of(leaves) ==> other == leaves,
{
    if cache_of(other) == cache_of(leaves) {
        let a = leaf_bytes(leaves);
        let b = leaf_bytes(other);
        assert(a =~= cache_of(leaves).skip(1));
        assert(b =~= cache_of(other).skip(1));
        assert(leaves.len() == other.len());
        assert forall|i: int| 0 <= i < leaves.len() implies leaves[i] == other[i] by {
            assert forall|j: int| 0 <= j < 32 implies leaves[i]@[j] == other[i]@[j] by {
                let k = 32 * i + j;
                assert(k / 32 == i && k % 32 == j);
                assert(a[k] == b[k]);
            }
            assert(leaves[i]@ =~= other[i]@);
            crate::bytes32::lemma_eq32(leaves[i], other[i]);
        }
        assert(other =~= leaves);
    }
}

} // verus!
