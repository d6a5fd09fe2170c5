//! Names: the registry that is synced in bulk and resolved locally, the
//! fingerprints that were confirmed, and a registration that can be resumed.
//!
//! A name saves typing and verifies nothing. A binding that changed since its
//! fingerprint was confirmed is an alarm, never taken silently. A name past its
//! term still resolves while it is in grace, and is flagged.
use crate::bytes32::copied;
use crate::table::NameTable;
#[allow(unused_imports)]
use crate::table::{before, lemma_named, named_to};
use crate::text::{
    chars_of, copy_range, ends_with, lines, pairs_bytes, parse_number, parse_u64, push_dec,
    push_hex, split, starts_with, str_eq, string_of, text_is, utf8_string,
};
#[allow(unused_imports)]
use crate::text::{
    begins, dec, finishes, hex_text, lacks, lemma_dec_digits, lemma_dec_lacks, lemma_hex_lacks,
    lemma_lines_of_first, lemma_number_text_of_dec, lemma_pairs_of_hex, lemma_parted,
    lemma_split_first, lemma_split_none, line_safe, lines_of, number_text, pairs_text, parted_at,
    split_on, texts,
};
use vstd::prelude::*;
#[allow(unused_imports)]
use vstd::utf8::{decode_utf8, valid_utf8};

verus! {

pub const REGISTRY_FILE: &'static str = "names-registry.v1";

pub const REGISTRY_HEADER: &'static str = "qumbra-wallet names-registry v1";

pub const PINS_FILE: &'static str = "names-pins.v1";

pub const PINS_HEADER: &'static str = "qumbra-wallet names-pins v1";

/// The chain's terms for names, in blocks.
#[derive(Clone, Copy, Debug, PartialEq, Eq)]
pub struct NameRules {
    /// How long a registration lasts.
    pub term: u64,
    /// How long a lapsed one is kept for its holder.
    pub grace: u64,
    /// How old a commit has to be before it is revealed.
    pub commit_min_age: u64,
    /// How old it may be at most.
    pub commit_max_age: u64,
}

/// One registration, as the chain published it.
#[derive(Clone, Debug, PartialEq, Eq)]
pub struct NameEntry {
    pub kind: u8,
    pub address: Vec<u8>,
    pub registered: u64,
    pub expiry: u64,
}

/// What a name is bound to.
#[derive(Clone, Debug, PartialEq, Eq)]
pub struct NameRecord {
    pub kind: u8,
    pub name: Vec<u8>,
    pub address: Vec<u8>,
}

/// What a block did about names.
#[derive(Clone, Debug, PartialEq, Eq)]
#[allow(inconsistent_fields)]
pub enum NameOp {
    Commit { commit: [u8; 32] },
    Reveal { record: NameRecord, salt: [u8; 32] },
    Renew { name: Vec<u8> },
}

/// The names that a block touched.
#[derive(Clone, Debug)]
pub struct BlockNames {
    pub height: u64,
    pub ops: Vec<NameOp>,
}

/// A page of the name stream.
#[derive(Clone, Debug)]
pub struct NamesPage {
    pub from: u64,
    pub to: u64,
    pub blocks: Vec<BlockNames>,
}

/// A [`NameEntry`] as a value.
#[verifier::ext_equal]
pub struct EntryModel {
    pub kind: u8,
    pub address: Seq<u8>,
    pub registered: u64,
    pub expiry: u64,
}

impl NameEntry {
    pub open spec fn view(&self) -> EntryModel {
        EntryModel {
            kind: self.kind,
            address: self.address@,
            registered: self.registered,
            expiry: self.expiry,
        }
    }

    fn copy(&self) -> (r: NameEntry)
        ensures
            r@ == self@,
    {
        NameEntry {
            kind: self.kind,
            address: copied(&self.address),
            registered: self.registered,
            expiry: self.expiry,
        }
    }
}

/// The registry as it was replayed, and how far.
#[derive(Clone, Debug)]
pub struct WalletRegistry {
    pub names: NameTable<NameEntry>,
    /// The greatest height that was folded in.
    pub synced_to: u64,
}

/// A name's local resolution.
#[derive(Clone, Debug)]
#[allow(inconsistent_fields)]
pub enum Resolution {
    /// Registered and inside its term.
    Active(NameEntry),
    /// Past its term and inside grace: it resolves, and is flagged.
    Expiring { entry: NameEntry, reopens_at: u64 },
    /// Not known, or past grace.
    Unknown,
}

/// A [`Resolution`] as a value.
#[allow(inconsistent_fields)]
pub enum ResolutionModel {
    Active(EntryModel),
    Expiring { entry: EntryModel, reopens_at: u64 },
    Unknown,
}

impl Resolution {
    pub open spec fn view(&self) -> ResolutionModel {
        match self {
            Resolution::Active(e) => ResolutionModel::Active(e@),
            Resolution::Expiring { entry, reopens_at } => ResolutionModel::Expiring {
                entry: entry@,
                reopens_at: *reopens_at,
            },
            Resolution::Unknown => ResolutionModel::Unknown,
        }
    }
}

/// A sum of heights that stops at the greatest one.
pub open spec fn height_after(h: u64, blocks: u64) -> u64 {
    if h + blocks > u64::MAX {
        u64::MAX
    } else {
        (h + blocks) as u64
    }
}

/// A name without the `.qmb` that it is shown with.
pub open spec fn bare_of(name: Seq<char>) -> Seq<char> {
    if finishes(name, ".qmb"@) {
        name.take(name.len() - ".qmb"@.len())
    } else {
        name
    }
}

/// A name without the `.qmb` that it is shown with.
pub fn bare_name(name: &str) -> (r: String)
    ensures
        r@ == bare_of(name@),
{
    let v = chars_of(name);
    let tail = chars_of(".qmb");
    if ends_with(&v, &tail) {
        let b = copy_range(&v, 0, v.len() - tail.len());
        assert(b@ =~= name@.take(name@.len() - ".qmb"@.len()));
        string_of(&b)
    } else {
        string_of(&v)
    }
}

/// The registry's names as values.
pub type NamesModel = Map<Seq<char>, EntryModel>;

/// What a table of entries says of each name.
pub open spec fn entries_model(t: Map<Seq<char>, NameEntry>) -> Map<Seq<char>, EntryModel> {
    Map::new(|n: Seq<char>| t.dom().contains(n), |n: Seq<char>| t[n]@)
}

/// The names after an op at a height: a reveal binds its name, a renewal moves
/// its expiry on by a term, and a commit changes nothing. A name that is not
/// UTF-8 is left out.
pub open spec fn with_op(m: Map<Seq<char>, EntryModel>, height: u64, op: NameOp, rules: NameRules) -> Map<
    Seq<char>,
    EntryModel,
> {
    match op {
        NameOp::Commit { .. } => m,
        NameOp::Reveal { record, .. } => if valid_utf8(record.name@) {
            m.insert(
                decode_utf8(record.name@),
                EntryModel {
                    kind: record.kind,
                    address: record.address@,
                    registered: height,
                    expiry: height_after(height, rules.term),
                },
            )
        } else {
            m
        },
        NameOp::Renew { name } => if valid_utf8(name@) && m.dom().contains(decode_utf8(name@)) {
            let e = m[decode_utf8(name@)];
            m.insert(
                decode_utf8(name@),
                EntryModel { expiry: height_after(e.expiry, rules.term), ..e },
            )
        } else {
            m
        },
    }
}

/// The names after the first `n` ops of a block.
pub open spec fn with_ops(
    m: Map<Seq<char>, EntryModel>,
    height: u64,
    ops: Seq<NameOp>,
    rules: NameRules,
    n: int,
) -> Map<Seq<char>, EntryModel>
    decreases n,
{
    if n <= 0 {
        m
    } else {
        with_op(with_ops(m, height, ops, rules, n - 1), height, ops[n - 1], rules)
    }
}

/// The names after the first `n` blocks.
pub open spec fn with_blocks(
    m: Map<Seq<char>, EntryModel>,
    blocks: Seq<BlockNames>,
    rules: NameRules,
    n: int,
) -> Map<Seq<char>, EntryModel>
    decreases n,
{
    if n <= 0 {
        m
    } else {
        let b = blocks[n - 1];
        with_ops(
            with_blocks(m, blocks, rules, n - 1),
            b.height,
            b.ops@,
            rules,
            b.ops@.len() as int,
        )
    }
}

/// The greatest of a height and the first `n` blocks' heights.
pub open spec fn height_to(start: u64, blocks: Seq<BlockNames>, n: int) -> u64
    decreases n,
{
    if n <= 0 {
        start
    } else if blocks[n - 1].height > height_to(start, blocks, n - 1) {
        blocks[n - 1].height
    } else {
        height_to(start, blocks, n - 1)
    }
}

proof fn lemma_height_to(start: u64, blocks: Seq<BlockNames>, n: int)
    requires
        0 <= n <= blocks.len(),
    ensures
        height_to(start, blocks, n) >= start,
        forall|k: int| 0 <= k < n ==> height_to(start, blocks, n) >= (#[trigger] blocks[k]).height,
        height_to(start, blocks, n) == start || exists|k: int|
            0 <= k < n && height_to(start, blocks, n) == (#[trigger] blocks[k]).height,
    decreases n,
{
    if n > 0 {
        lemma_height_to(start, blocks, n - 1);
        assert(blocks[n - 1].height == blocks[n - 1].height);
    }
}

/// How a name resolves at a height.
pub open spec fn resolved(m: Map<Seq<char>, EntryModel>, name: Seq<char>, tip: u64, grace: u64) -> ResolutionModel {
    let bare = bare_of(name);
    if !m.dom().contains(bare) {
        ResolutionModel::Unknown
    } else {
        let e = m[bare];
        let reopens = height_after(e.expiry, grace);
        if tip < e.expiry {
            ResolutionModel::Active(e)
        } else if tip < reopens {
            ResolutionModel::Expiring { entry: e, reopens_at: reopens }
        } else {
            ResolutionModel::Unknown
        }
    }
}

proof fn lemma_model_insert(t: Map<Seq<char>, NameEntry>, name: Seq<char>, e: NameEntry)
    ensures
        entries_model(t.insert(name, e)) == entries_model(t).insert(name, e@),
{
    assert(entries_model(t.insert(name, e)) =~= entries_model(t).insert(name, e@));
}

fn after_blocks(h: u64, blocks: u64) -> (r: u64)
    ensures
        r == height_after(h, blocks),
{
    h.saturating_add(blocks)
}

impl WalletRegistry {
    pub open spec fn wf(&self) -> bool {
        self.names.wf()
    }

    pub open spec fn model(&self) -> Map<Seq<char>, EntryModel> {
        entries_model(self.names@)
    }

    /// A registry of which nothing was synced.
    pub fn empty() -> (r: WalletRegistry)
        ensures
            r.wf(),
            r.model() == Map::<Seq<char>, EntryModel>::empty(),
            r.synced_to == 0,
    {
        let r = WalletRegistry { names: NameTable::new(), synced_to: 0 };
        assert(r.model() =~= Map::<Seq<char>, EntryModel>::empty());
        r
    }

    fn apply_op(&mut self, height: u64, op: &NameOp, rules: &NameRules)
        requires
            old(self).wf(),
        ensures
            final(self).wf(),
            final(self).model() == with_op(old(self).model(), height, *op, *rules),
            final(self).synced_to == old(self).synced_to,
    {
        match op {
            NameOp::Commit { .. } => {},
            NameOp::Reveal { record, .. } => {
                if let Some(name) = utf8_string(copied(&record.name)) {
                    let e = NameEntry {
                        kind: record.kind,
                        address: copied(&record.address),
                        registered: height,
                        expiry: after_blocks(height, rules.term),
                    };
                    proof {
                        lemma_model_insert(self.names@, name@, e);
                    }
                    self.names.insert(name, e);
                }
            },
            NameOp::Renew { name } => {
                if let Some(name) = utf8_string(copied(name)) {
                    if let Some(i) = self.names.find(name.as_str()) {
                        let mut e = self.names.entries[i].1.copy();
                        e.expiry = after_blocks(e.expiry, rules.term);
                        proof {
                            lemma_model_insert(self.names@, name@, e);
                            assert(self.model()[name@] == self.names.entries@[i as int].1@);
                        }
                        self.names.insert(name, e);
                    }
                }
            },
        }
    }

    /// Folds a page in.
    pub fn apply_page(&mut self, page: &NamesPage, rules: &NameRules)
        requires
            old(self).wf(),
        ensures
            final(self).wf(),
            final(self).model() == with_blocks(
                old(self).model(),
                page.blocks@,
                *rules,
                page.blocks@.len() as int,
            ),
            final(self).synced_to == height_to(
                old(self).synced_to,
                page.blocks@,
                page.blocks@.len() as int,
            ),
            final(self).synced_to >= old(self).synced_to,
            forall|k: int|
                0 <= k < page.blocks@.len() ==> final(self).synced_to >= (
                #[trigger] page.blocks@[k]).height,
            final(self).synced_to == old(self).synced_to || exists|k: int|
                0 <= k < page.blocks@.len() && final(self).synced_to == (
                #[trigger] page.blocks@[k]).height,
    {
        let mut i: usize = 0;
        while i < page.blocks.len()
            invariant
                i <= page.blocks@.len(),
                self.wf(),
                self.model() == with_blocks(old(self).model(), page.blocks@, *rules, i as int),
                self.synced_to == height_to(old(self).synced_to, page.blocks@, i as int),
            decreases page.blocks@.len() - i,
        {
            let block = &page.blocks[i];
            let ghost start = self.model();
            let ghost at = self.synced_to;
            let mut k: usize = 0;
            while k < block.ops.len()
                invariant
                    k <= block.ops@.len(),
                    self.wf(),
                    self.synced_to == at,
                    self.model() == with_ops(start, block.height, block.ops@, *rules, k as int),
                decreases block.ops@.len() - k,
            {
                self.apply_op(block.height, &block.ops[k], rules);
                k += 1;
            }
            if block.height > self.synced_to {
                self.synced_to = block.height;
            }
            i += 1;
        }
        proof {
            lemma_height_to(old(self).synced_to, page.blocks@, page.blocks@.len() as int);
        }
    }

    /// Resolves a name at a height, from what was synced alone.
    pub fn resolve(&self, name: &str, tip: u64, rules: &NameRules) -> (r: Resolution)
        requires
            self.wf(),
        ensures
            r@ == resolved(self.model(), name@, tip, rules.grace),
    {
        let bare = bare_name(name);
        match self.names.find(bare.as_str()) {
            None => Resolution::Unknown,
            Some(i) => {
                let e = &self.names.entries[i].1;
                assert(self.model()[bare@] == e@);
                let reopens_at: u64 = after_blocks(e.expiry, rules.grace);
                if tip < e.expiry {
                    Resolution::Active(e.copy())
                } else if tip < reopens_at {
                    Resolution::Expiring { entry: e.copy(), reopens_at }
                } else {
                    Resolution::Unknown
                }
            },
        }
    }

    /// How many names there are.
    pub fn len(&self) -> (r: usize)
        requires
            self.wf(),
        ensures
            r == self.model().dom().len(),
    {
        proof {
            lemma_named(self.names.entries@, self.names.entries@.len() as int);
            assert(self.model().dom() =~= self.names@.dom());
        }
        self.names.entries.len()
    }

    pub fn is_empty(&self) -> (r: bool)
        requires
            self.wf(),
        ensures
            r == (self.model().dom().len() == 0),
    {
        self.len() == 0
    }
}

/// The path of the names from a height to another.
pub open spec fn names_path_text(from: u64, to: u64) -> Seq<char> {
    "/v1/names?from="@ + dec(from as nat) + "&to="@ + dec(to as nat)
}

/// The path of the names from a height to another.
pub fn names_path(from: u64, to: u64) -> (r: String)
    ensures
        r@ == names_path_text(from, to),
{
    let mut s: String = "/v1/names?from=".to_owned();
    push_dec(&mut s, from);
    s.append("&to=");
    push_dec(&mut s, to);
    s
}

/// What is said of a page that was taken or refused, and the registry after it:
/// a page answers the range asked for and ends at or after its start. One without
/// blocks does not get on, so it is refused as a stuck server's.
pub open spec fn names_taken(
    was: WalletRegistry,
    now: WalletRegistry,
    tip: u64,
    page: NamesPage,
    rules: NameRules,
    r: Result<(), Seq<char>>,
) -> bool {
    let from = (was.synced_to + 1) as u64;
    let path = names_path_text(from, tip);
    if page.from != from || page.to != tip {
        r == Err::<(), Seq<char>>(
            path + ": page echoes ["@ + dec(page.from as nat) + ", "@ + dec(page.to as nat)
                + "] — misattributed"@,
        ) && now == was
    } else if page.blocks@.len() == 0 {
        r == Err::<(), Seq<char>>(
            path
                + ": page holds no blocks — no progress; refusing to read a stuck server as complete"@,
        ) && now == was
    } else {
        let last = page.blocks@.last().height;
        if last < from {
            r == Err::<(), Seq<char>>(
                path + ": page ends at "@ + dec(last as nat) + " < from "@ + dec(from as nat)
                    + " — no progress; refusing to read a stuck server as complete"@,
            ) && now == was
        } else {
            r is Ok && now.synced_to == last && now.model() == with_blocks(
                was.model(),
                page.blocks@,
                rules,
                page.blocks@.len() as int,
            )
        }
    }
}

/// The words of a result's refusal.
pub open spec fn said(r: Result<(), String>) -> Result<(), Seq<char>> {
    match r {
        Ok(_) => Ok(()),
        Err(e) => Err(e@),
    }
}

impl WalletRegistry {
    /// The range that is asked for next; none where the registry is synced to
    /// the tip.
    pub fn want_names(&self, tip: u64) -> (r: Option<(u64, u64)>)
        ensures
            r == if self.synced_to < tip {
                Some(((self.synced_to + 1) as u64, tip))
            } else {
                None
            },
    {
        if self.synced_to < tip {
            Some((self.synced_to + 1, tip))
        } else {
            None
        }
    }

    /// Takes the page that answers the range asked for. One that answers for
    /// another range, or does not get on, is refused and changes nothing.
    pub fn sync_names(&mut self, tip: u64, page: &NamesPage, rules: &NameRules) -> (r: Result<
        (),
        String,
    >)
        requires
            old(self).wf(),
            old(self).synced_to < tip,
        ensures
            final(self).wf(),
            names_taken(*old(self), *final(self), tip, *page, *rules, said(r)),
    {
        let from: u64 = self.synced_to + 1;
        let path = names_path(from, tip);
        if page.from != from || page.to != tip {
            let mut e = path;
            e.append(": page echoes [");
            push_dec(&mut e, page.from);
            e.append(", ");
            push_dec(&mut e, page.to);
            e.append("] — misattributed");
            assert(e@ =~= names_path_text(from, tip) + ": page echoes ["@ + dec(page.from as nat)
                + ", "@ + dec(page.to as nat) + "] — misattributed"@);
            return Err(e);
        }
        if page.blocks.len() == 0 {
            let mut e = path;
            e.append(
                ": page holds no blocks — no progress; refusing to read a stuck server as complete",
            );
            return Err(e);
        }
        let last: u64 = page.blocks[page.blocks.len() - 1].height;
        if last < from {
            let mut e = path;
            e.append(": page ends at ");
            push_dec(&mut e, last);
            e.append(" < from ");
            push_dec(&mut e, from);
            e.append(" — no progress; refusing to read a stuck server as complete");
            assert(e@ =~= names_path_text(from, tip) + ": page ends at "@ + dec(last as nat)
                + " < from "@ + dec(from as nat)
                + " — no progress; refusing to read a stuck server as complete"@);
            return Err(e);
        }
        self.apply_page(page, rules);
        self.synced_to = last;
        Ok(())
    }
}

/// Every page that is taken brings the registry on to its own last block and no
/// further, so that syncing ends and no height is passed over unread; every page
/// that does not is refused and changes nothing. A page is taken exactly if it
/// echoes the range from the first unread height to the tip, holds a block, and
/// ends no earlier than it was asked to begin.
pub proof fn law_syncing_gets_on(
    was: WalletRegistry,
    now: WalletRegistry,
    tip: u64,
    page: NamesPage,
    rules: NameRules,
    r: Result<(), Seq<char>>,
)
    requires
        was.synced_to < tip,
        names_taken(was, now, tip, page, rules, r),
    ensures
        r is Ok ==> page.blocks@.len() > 0 && now.synced_to == page.blocks@.last().height
            && now.synced_to > was.synced_to,
        r is Err ==> now == was,
        r is Ok <==> page.from == was.synced_to + 1 && page.to == tip && page.blocks@.len() > 0
            && page.blocks@.last().height > was.synced_to,
{
}

/// A name that resolves as active or expiring is registered and not past its
/// grace; past it nothing resolves. What resolves is the entry that is kept
/// under the name: active before its expiry, expiring from there until its grace
/// is over, and told when that is.
pub proof fn law_a_lapsed_name_does_not_resolve(
    m: Map<Seq<char>, EntryModel>,
    name: Seq<char>,
    tip: u64,
    grace: u64,
)
    ensures
        resolved(m, name, tip, grace) is Unknown <==> !m.dom().contains(bare_of(name)) || tip
            >= height_after(m[bare_of(name)].expiry, grace) && tip >= m[bare_of(name)].expiry,
        resolved(m, name, tip, grace) is Active <==> m.dom().contains(bare_of(name)) && tip
            < m[bare_of(name)].expiry,
        match resolved(m, name, tip, grace) {
            ResolutionModel::Active(e) => e == m[bare_of(name)],
            ResolutionModel::Expiring { entry, reopens_at } => {
                &&& entry == m[bare_of(name)]
                &&& entry.expiry <= tip < reopens_at
                &&& reopens_at == entry.expiry + grace || reopens_at == u64::MAX && entry.expiry
                    + grace > u64::MAX
            },
            ResolutionModel::Unknown => m.dom().contains(bare_of(name)) ==> tip
                >= m[bare_of(name)].expiry && (tip >= m[bare_of(name)].expiry + grace || tip
                == u64::MAX),
        },
{
}

/// A trailing `.qmb` is taken off once, and a name without it stands for itself:
/// both spellings resolve alike.
pub proof fn law_the_suffix_makes_no_difference(
    m: Map<Seq<char>, EntryModel>,
    name: Seq<char>,
    tip: u64,
    grace: u64,
)
    ensures
        bare_of(name + ".qmb"@) == name,
        !(exists|rest: Seq<char>| name == #[trigger] (rest + ".qmb"@)) ==> bare_of(name) == name,
        bare_of(name) == name ==> resolved(m, name + ".qmb"@, tip, grace) == resolved(
            m,
            name,
            tip,
            grace,
        ),
{
    let tail = ".qmb"@;
    assert((name + tail).take(name.len() as int) =~= name);
    assert((name + tail).skip(name.len() as int) =~= tail);
    assert(bare_of(name + tail) == name);
    if bare_of(name) != name {
        let rest = name.take(name.len() - tail.len());
        assert(name =~= rest + tail);
    }
}

/// What one op does to the names. A reveal binds its own name to the address and
/// kind that it records, registered at its height and for a term from there; a
/// renewal of a known name moves that name's expiry on by a term and nothing else
/// of it; a commit, and a renewal of a name that is not known, changes nothing.
/// No op touches another name.
pub proof fn law_an_op_moves_its_own_name(
    m: Map<Seq<char>, EntryModel>,
    height: u64,
    op: NameOp,
    rules: NameRules,
)
    ensures
        match op {
            NameOp::Commit { .. } => with_op(m, height, op, rules) == m,
            NameOp::Reveal { record, .. } => {
                let after = with_op(m, height, op, rules);
                let n = decode_utf8(record.name@);
                if valid_utf8(record.name@) {
                    &&& after.dom() == m.dom().insert(n)
                    &&& after[n].address == record.address@
                    &&& after[n].kind == record.kind
                    &&& after[n].registered == height
                    &&& height + rules.term <= u64::MAX ==> after[n].expiry == height + rules.term
                    &&& height + rules.term > u64::MAX ==> after[n].expiry == u64::MAX
                    &&& forall|other: Seq<char>|
                        other != n && m.dom().contains(other) ==> #[trigger] after[other] == m[other]
                } else {
                    after == m
                }
            },
            NameOp::Renew { name } => {
                let after = with_op(m, height, op, rules);
                let n = decode_utf8(name@);
                if valid_utf8(name@) && m.dom().contains(n) {
                    &&& after.dom() == m.dom()
                    &&& after[n].address == m[n].address
                    &&& after[n].kind == m[n].kind
                    &&& after[n].registered == m[n].registered
                    &&& m[n].expiry + rules.term <= u64::MAX ==> after[n].expiry == m[n].expiry
                        + rules.term
                    &&& m[n].expiry + rules.term > u64::MAX ==> after[n].expiry == u64::MAX
                    &&& forall|other: Seq<char>|
                        other != n && m.dom().contains(other) ==> #[trigger] after[other] == m[other]
                } else {
                    after == m
                }
            },
        },
{
    match op {
        NameOp::Renew { name } => {
            let after = with_op(m, height, op, rules);
            if valid_utf8(name@) && m.dom().contains(decode_utf8(name@)) {
                assert(after.dom() =~= m.dom());
            }
        },
        _ => {},
    }
}

proof fn lemma_ops_to(
    m: Map<Seq<char>, EntryModel>,
    height: u64,
    a: Seq<NameOp>,
    b: Seq<NameOp>,
    rules: NameRules,
    n: int,
)
    requires
        0 <= n <= a.len(),
        n <= b.len(),
        forall|k: int| 0 <= k < n ==> a[k] == b[k],
    ensures
        with_ops(m, height, a, rules, n) == with_ops(m, height, b, rules, n),
    decreases n,
{
    if n > 0 {
        lemma_ops_to(m, height, a, b, rules, n - 1);
    }
}

/// The ops of a block are folded in one after the other, each on what the ops
/// before it left: a block's ops are its first ones and then its last one.
pub proof fn law_ops_are_taken_in_order(
    m: Map<Seq<char>, EntryModel>,
    height: u64,
    ops: Seq<NameOp>,
    op: NameOp,
    rules: NameRules,
)
    ensures
        with_ops(m, height, Seq::empty(), rules, 0) == m,
        with_ops(m, height, ops.push(op), rules, ops.len() as int + 1) == with_op(
            with_ops(m, height, ops, rules, ops.len() as int),
            height,
            op,
            rules,
        ),
{
    lemma_ops_to(m, height, ops.push(op), ops, rules, ops.len() as int);
}

proof fn lemma_blocks_to(
    m: Map<Seq<char>, EntryModel>,
    a: Seq<BlockNames>,
    b: Seq<BlockNames>,
    rules: NameRules,
    n: int,
)
    requires
        0 <= n <= a.len(),
        n <= b.len(),
        forall|k: int| 0 <= k < n ==> a[k] == b[k],
    ensures
        with_blocks(m, a, rules, n) == with_blocks(m, b, rules, n),
    decreases n,
{
    if n > 0 {
        lemma_blocks_to(m, a, b, rules, n - 1);
    }
}

/// The blocks of a page are folded in one after the other, each with all of its
/// ops and at its own height.
pub proof fn law_blocks_are_taken_in_order(
    m: Map<Seq<char>, EntryModel>,
    blocks: Seq<BlockNames>,
    block: BlockNames,
    rules: NameRules,
)
    ensures
        with_blocks(m, Seq::empty(), rules, 0) == m,
        with_blocks(m, blocks.push(block), rules, blocks.len() as int + 1) == with_ops(
            with_blocks(m, blocks, rules, blocks.len() as int),
            block.height,
            block.ops@,
            rules,
            block.ops@.len() as int,
        ),
{
    lemma_blocks_to(m, blocks.push(block), blocks, rules, blocks.len() as int);
}

/// Whether an op names a name.
pub open spec fn touches(op: NameOp, name: Seq<char>) -> bool {
    match op {
        NameOp::Commit { .. } => false,
        NameOp::Reveal { record, .. } => valid_utf8(record.name@) && decode_utf8(record.name@)
            == name,
        NameOp::Renew { name: n } => valid_utf8(n@) && decode_utf8(n@) == name,
    }
}

/// What the last reveal of a name says stands, whatever the ops before it did
/// and as long as no op behind it names that name again: it resolves to the
/// address that was revealed.
pub proof fn law_the_last_reveal_stands(
    m: Map<Seq<char>, EntryModel>,
    height: u64,
    ops: Seq<NameOp>,
    at: int,
    record: NameRecord,
    salt: [u8; 32],
    rules: NameRules,
)
    requires
        0 <= at < ops.len(),
        ops[at] == (NameOp::Reveal { record, salt }),
        valid_utf8(record.name@),
        forall|k: int| at < k < ops.len() ==> !touches(#[trigger] ops[k], decode_utf8(record.name@)),
    ensures
        ({
            let after = with_ops(m, height, ops, rules, ops.len() as int);
            let n = decode_utf8(record.name@);
            &&& after.dom().contains(n)
            &&& after[n].address == record.address@
            &&& after[n].kind == record.kind
            &&& after[n].registered == height
        }),
    decreases ops.len(),
{
    let n = decode_utf8(record.name@);
    let last = ops.len() - 1;
    if at < last {
        let before = ops.take(last);
        law_the_last_reveal_stands(m, height, before, at, record, salt, rules);
        lemma_ops_to(m, height, ops, before, rules, last);
        let was = with_ops(m, height, before, rules, last);
        law_an_op_moves_its_own_name(was, height, ops[last], rules);
        assert(!touches(ops[last], n));
    } else {
        law_an_op_moves_its_own_name(
            with_ops(m, height, ops, rules, last),
            height,
            ops[last],
            rules,
        );
    }
}

/// The text of one entry's line.
pub open spec fn entry_text(name: Seq<char>, e: EntryModel) -> Seq<char> {
    name + " "@ + dec(e.kind as nat) + " "@ + dec(e.registered as nat) + " "@ + dec(e.expiry as nat)
        + " "@ + hex_text(e.address)
}

/// The lines of the entries from the `i`-th on.
pub open spec fn entries_text(entries: Seq<(String, NameEntry)>, i: int) -> Seq<char>
    decreases entries.len() - i,
{
    if 0 <= i < entries.len() {
        entry_text(entries[i].0@, entries[i].1@) + "\n"@ + entries_text(entries, i + 1)
    } else {
        Seq::empty()
    }
}

/// The line that says how far a registry is synced.
pub open spec fn synced_text(to: u64) -> Seq<char> {
    "synced_to "@ + dec(to as nat)
}

/// A registry's text.
pub open spec fn registry_text(r: WalletRegistry) -> Seq<char> {
    REGISTRY_HEADER@ + "\n"@ + synced_text(r.synced_to) + "\n"@ + entries_text(r.names.entries@, 0)
}

/// What a line says of a name, or why it says nothing.
pub open spec fn entry_of(line: Seq<char>) -> Result<(Seq<char>, EntryModel), Seq<char>> {
    let f = split_on(line, ' ');
    if f.len() != 5 {
        Err("wrong field count"@)
    } else if number_text(f[1], u8::MAX as nat) is None {
        Err("bad kind"@)
    } else if number_text(f[2], u64::MAX as nat) is None || number_text(f[3], u64::MAX as nat) is None {
        Err("bad number"@)
    } else if pairs_text(f[4]) is None {
        Err("bad address hex"@)
    } else {
        Ok(
            (
                f[0],
                EntryModel {
                    kind: number_text(f[1], u8::MAX as nat)->0 as u8,
                    address: pairs_text(f[4])->0,
                    registered: number_text(f[2], u64::MAX as nat)->0 as u64,
                    expiry: number_text(f[3], u64::MAX as nat)->0 as u64,
                },
            ),
        )
    }
}

/// What the first `n` lines say, the header's two left out; a line that says
/// nothing, or more than an entry, is refused by its number.
pub open spec fn entries_to(all: Seq<Seq<char>>, n: int) -> Result<
    Map<Seq<char>, EntryModel>,
    Seq<char>,
>
    decreases n,
{
    if n <= 2 {
        Ok(Map::empty())
    } else {
        match entries_to(all, n - 1) {
            Err(e) => Err(e),
            Ok(m) => match entry_of(all[n - 1]) {
                Err(why) => Err("record "@ + dec((n - 3) as nat) + ": "@ + why),
                Ok(e) => Ok(m.insert(e.0, e.1)),
            },
        }
    }
}

/// The height that a registry's second line gives.
pub open spec fn synced_of(line: Seq<char>) -> Option<nat> {
    if begins(line, "synced_to "@) {
        number_text(line.skip("synced_to "@.len() as int), u64::MAX as nat)
    } else {
        None
    }
}

/// What a registry's text says, or why it is refused.
pub open spec fn registry_of(text: Seq<char>) -> Result<
    (Map<Seq<char>, EntryModel>, u64),
    Seq<char>,
> {
    let all = lines_of(text);
    let bad = REGISTRY_FILE@ + ": "@;
    if all.len() == 0 || all[0] != REGISTRY_HEADER@ {
        Err(
            bad
                + "unknown header — written by an incompatible build; delete and re-sync"@,
        )
    } else if all.len() < 2 || synced_of(all[1]) is None {
        Err(bad + "missing synced_to"@)
    } else {
        match entries_to(all, all.len() as int) {
            Err(why) => Err(bad + why),
            Ok(m) => Ok((m, synced_of(all[1])->0 as u64)),
        }
    }
}

proof fn lemma_entries_err(all: Seq<Seq<char>>, n: int, m: int)
    requires
        n <= m,
        entries_to(all, n) is Err,
    ensures
        entries_to(all, m) == entries_to(all, n),
    decreases m - n,
{
    if n < m {
        lemma_entries_err(all, n, m - 1);
    }
}

/// Reads one entry's line.
fn read_entry(line: &[char]) -> (r: Result<(String, NameEntry), &'static str>)
    ensures
        match (r, entry_of(line@)) {
            (Ok((name, e)), Ok(m)) => name@ == m.0 && e@ == m.1,
            (Err(why), Err(w)) => why@ == w,
            _ => false,
        },
{
    let f = split(line, ' ');
    let ghost all = texts(f@);
    if f.len() != 5 {
        return Err("wrong field count");
    }
    assert(all[0] == f@[0]@ && all[1] == f@[1]@ && all[2] == f@[2]@ && all[3] == f@[3]@ && all[4]
        == f@[4]@);
    let kind: u64 = match parse_number(&f[1], 255) {
        None => {
            return Err("bad kind");
        },
        Some(k) => k,
    };
    let registered: u64 = match parse_u64(&f[2]) {
        None => {
            return Err("bad number");
        },
        Some(n) => n,
    };
    let expiry: u64 = match parse_u64(&f[3]) {
        None => {
            return Err("bad number");
        },
        Some(n) => n,
    };
    let address = match pairs_bytes(&f[4]) {
        None => {
            return Err("bad address hex");
        },
        Some(a) => a,
    };
    Ok((string_of(&f[0]), NameEntry { kind: kind as u8, address, registered, expiry }))
}

fn registry_refusal(why: &str) -> (r: String)
    ensures
        r@ == REGISTRY_FILE@ + ": "@ + why@,
{
    let mut e: String = REGISTRY_FILE.to_owned();
    e.append(": ");
    e.append(why);
    e
}

/// The height of a registry's second line.
fn read_synced(line: &[char]) -> (r: Option<u64>)
    ensures
        match r {
            Some(n) => synced_of(line@) == Some(n as nat),
            None => synced_of(line@) is None,
        },
{
    let head = chars_of("synced_to ");
    if !starts_with(line, &head) {
        return None;
    }
    let v = copy_range(line, head.len(), line.len());
    assert(v@ =~= line@.skip("synced_to "@.len() as int));
    parse_u64(&v)
}

impl WalletRegistry {
    /// The text that is kept of a registry.
    pub fn save(&self) -> (r: String)
        ensures
            r@ == registry_text(*self),
    {
        let mut s: String = REGISTRY_HEADER.to_owned();
        s.append("\nsynced_to ");
        push_dec(&mut s, self.synced_to);
        s.append("\n");
        proof {
            reveal_strlit("\n");
            reveal_strlit("synced_to ");
            reveal_strlit("\nsynced_to ");
            assert("\nsynced_to "@ =~= "\n"@ + "synced_to "@);
        }
        let ghost head = s@;
        let mut i: usize = 0;
        while i < self.names.entries.len()
            invariant
                i <= self.names.entries@.len(),
                s@ + entries_text(self.names.entries@, i as int) == head + entries_text(
                    self.names.entries@,
                    0,
                ),
            decreases self.names.entries@.len() - i,
        {
            let ghost was = s@;
            let e = &self.names.entries[i].1;
            s.append(self.names.entries[i].0.as_str());
            s.append(" ");
            push_dec(&mut s, e.kind as u64);
            s.append(" ");
            push_dec(&mut s, e.registered);
            s.append(" ");
            push_dec(&mut s, e.expiry);
            s.append(" ");
            push_hex(&mut s, &e.address);
            s.append("\n");
            proof {
                let rest = entries_text(self.names.entries@, i + 1);
                assert(s@ =~= was + (entry_text(self.names.entries@[i as int].0@, e@) + "\n"@));
                assert(s@ + rest =~= was + (entry_text(self.names.entries@[i as int].0@, e@)
                    + "\n"@ + rest));
            }
            i += 1;
        }
        assert(s@ + Seq::<char>::empty() =~= s@);
        assert(s@ =~= registry_text(*self));
        s
    }

    /// Reads a kept registry: none where no text was kept.
    pub fn load(text: Option<&str>) -> (r: Result<Option<WalletRegistry>, String>)
        ensures
            match text {
                None => r matches Ok(None),
                Some(t) => match (r, registry_of(t@)) {
                    (Ok(Some(reg)), Ok(m)) => reg.wf() && reg.model() == m.0 && reg.synced_to
                        == m.1,
                    (Err(e), Err(why)) => e@ == why,
                    _ => false,
                },
            },
    {
        let t = match text {
            None => {
                return Ok(None);
            },
            Some(t) => t,
        };
        let chars = chars_of(t);
        let all = lines(&chars);
        let ghost ls = texts(all@);
        let known = if all.len() > 0 {
            assert(ls[0] == all@[0]@);
            text_is(&all[0], REGISTRY_HEADER)
        } else {
            false
        };
        if !known {
            return Err(
                registry_refusal(
                    "unknown header — written by an incompatible build; delete and re-sync",
                ),
            );
        }
        let synced = if all.len() > 1 {
            assert(ls[1] == all@[1]@);
            read_synced(&all[1])
        } else {
            None
        };
        let synced_to: u64 = match synced {
            None => {
                return Err(registry_refusal("missing synced_to"));
            },
            Some(n) => n,
        };
        let mut reg = WalletRegistry::empty();
        reg.synced_to = synced_to;
        let mut i: usize = 2;
        while i < all.len()
            invariant
                2 <= i <= all@.len(),
                text == Some(t),
                ls == texts(all@),
                ls == lines_of(t@),
                ls[0] == REGISTRY_HEADER@,
                synced_of(ls[1]) == Some(synced_to as nat),
                reg.wf(),
                reg.synced_to == synced_to,
                entries_to(ls, i as int) == Ok::<Map<Seq<char>, EntryModel>, Seq<char>>(
                    reg.model(),
                ),
            decreases all@.len() - i,
        {
            assert(ls[i as int] == all@[i as int]@);
            match read_entry(&all[i]) {
                Err(why) => {
                    let mut e: String = "record ".to_owned();
                    push_dec(&mut e, (i - 2) as u64);
                    e.append(": ");
                    e.append(why);
                    proof {
                        lemma_entries_err(ls, i + 1, ls.len() as int);
                    }
                    return Err(registry_refusal(e.as_str()));
                },
                Ok((name, e)) => {
                    proof {
                        lemma_model_insert(reg.names@, name@, e);
                    }
                    reg.names.insert(name, e);
                },
            }
            i += 1;
        }
        Ok(Some(reg))
    }
}

/// A name that its line can hold.
pub open spec fn name_kept(name: Seq<char>) -> bool {
    lacks(name, ' ') && lacks(name, '\n')
}

/// An entry's text as its fields, joined one by one.
proof fn lemma_entry_joined(name: Seq<char>, e: EntryModel)
    ensures
        entry_text(name, e) == name.push(' ') + (dec(e.kind as nat).push(' ') + (dec(
            e.registered as nat,
        ).push(' ') + (dec(e.expiry as nat).push(' ') + hex_text(e.address)))),
{
    reveal_strlit(" ");
    assert(" "@ =~= seq![' ']);
    assert(entry_text(name, e) =~= name.push(' ') + (dec(e.kind as nat).push(' ') + (dec(
        e.registered as nat,
    ).push(' ') + (dec(e.expiry as nat).push(' ') + hex_text(e.address)))));
}

/// An entry's line is one line.
proof fn lemma_entry_line(name: Seq<char>, e: EntryModel)
    requires
        name_kept(name),
    ensures
        line_safe(entry_text(name, e)),
{
    let h = hex_text(e.address);
    let t3 = dec(e.expiry as nat).push(' ') + h;
    let t2 = dec(e.registered as nat).push(' ') + t3;
    let t1 = dec(e.kind as nat).push(' ') + t2;
    let t0 = name.push(' ') + t1;
    lemma_entry_joined(name, e);
    lemma_dec_lacks(e.kind as nat, '\n');
    lemma_dec_lacks(e.registered as nat, '\n');
    lemma_dec_lacks(e.expiry as nat, '\n');
    lemma_hex_lacks(e.address, '\n');
    lemma_hex_lacks(e.address, '\r');
    assert(lacks(t3, '\n'));
    assert(lacks(t2, '\n'));
    assert(lacks(t1, '\n'));
    assert(lacks(t0, '\n'));
    if h.len() > 0 {
        assert(t0.last() == h.last());
    } else {
        assert(t0.last() == ' ');
    }
}

/// An entry's line reads back as the entry, and is one line.
proof fn lemma_entry_back(name: Seq<char>, e: EntryModel)
    requires
        name_kept(name),
    ensures
        line_safe(entry_text(name, e)),
        entry_of(entry_text(name, e)) == Ok::<(Seq<char>, EntryModel), Seq<char>>((name, e)),
{
    let k = dec(e.kind as nat);
    let g = dec(e.registered as nat);
    let x = dec(e.expiry as nat);
    let h = hex_text(e.address);
    lemma_entry_line(name, e);
    lemma_entry_joined(name, e);
    lemma_dec_lacks(e.kind as nat, ' ');
    lemma_dec_lacks(e.registered as nat, ' ');
    lemma_dec_lacks(e.expiry as nat, ' ');
    lemma_hex_lacks(e.address, ' ');
    let t3 = x.push(' ') + h;
    let t2 = g.push(' ') + t3;
    let t1 = k.push(' ') + t2;
    lemma_split_none(h, ' ');
    lemma_split_first(x, ' ', h);
    lemma_split_first(g, ' ', t3);
    lemma_split_first(k, ' ', t2);
    lemma_split_first(name, ' ', t1);
    assert(split_on(entry_text(name, e), ' ') =~= seq![name, k, g, x, h]);
    lemma_number_text_of_dec(e.kind as nat, u8::MAX as nat);
    lemma_number_text_of_dec(e.registered as nat, u64::MAX as nat);
    lemma_number_text_of_dec(e.expiry as nat, u64::MAX as nat);
    lemma_pairs_of_hex(e.address);
}

proof fn lemma_entries_lines(entries: Seq<(String, NameEntry)>, i: int)
    requires
        0 <= i <= entries.len(),
        forall|k: int| 0 <= k < entries.len() ==> name_kept((#[trigger] entries[k]).0@),
    ensures
        lines_of(entries_text(entries, i)) == Seq::new(
            (entries.len() - i) as nat,
            |k: int| entry_text(entries[i + k].0@, entries[i + k].1@),
        ),
    decreases entries.len() - i,
{
    if i < entries.len() {
        reveal_strlit("\n");
        lemma_entries_lines(entries, i + 1);
        let l = entry_text(entries[i].0@, entries[i].1@);
        let rest = entries_text(entries, i + 1);
        lemma_entry_back(entries[i].0@, entries[i].1@);
        assert(entries_text(entries, i) =~= l.push('\n') + rest);
        lemma_lines_of_first(l, rest);
        assert(lines_of(entries_text(entries, i)) =~= Seq::new(
            (entries.len() - i) as nat,
            |k: int| entry_text(entries[i + k].0@, entries[i + k].1@),
        ));
    } else {
        assert(entries_text(entries, i) =~= Seq::empty());
        assert(lines_of(Seq::<char>::empty()) =~= Seq::empty());
    }
}

proof fn lemma_entries_back(all: Seq<Seq<char>>, entries: Seq<(String, NameEntry)>, n: int)
    requires
        0 <= n <= entries.len(),
        all.len() == entries.len() + 2,
        forall|k: int| 0 <= k < entries.len() ==> name_kept((#[trigger] entries[k]).0@),
        forall|k: int|
            2 <= k < all.len() ==> #[trigger] all[k] == entry_text(
                entries[k - 2].0@,
                entries[k - 2].1@,
            ),
    ensures
        entries_to(all, n + 2) == Ok::<Map<Seq<char>, EntryModel>, Seq<char>>(
            entries_model(named_to(entries, n)),
        ),
    decreases n,
{
    if n > 0 {
        lemma_entries_back(all, entries, n - 1);
        let e = entries[n - 1];
        lemma_entry_back(e.0@, e.1@);
        assert(all[n + 1] == entry_text(e.0@, e.1@));
        lemma_model_insert(named_to(entries, n - 1), e.0@, e.1);
    } else {
        assert(entries_model(named_to(entries, 0)) =~= Map::<Seq<char>, EntryModel>::empty());
    }
}

/// A kept registry reads back as it was, as long as no name holds a space or a
/// line feed: no name of the grammar does.
pub proof fn law_registry_reads_back(r: WalletRegistry)
    requires
        r.wf(),
        forall|k: int|
            0 <= k < r.names.entries@.len() ==> name_kept((#[trigger] r.names.entries@[k]).0@),
    ensures
        registry_of(registry_text(r)) == Ok::<(Map<Seq<char>, EntryModel>, u64), Seq<char>>(
            (r.model(), r.synced_to),
        ),
{
    reveal_strlit("\n");
    reveal_strlit("synced_to ");
    reveal_strlit("qumbra-wallet names-registry v1");
    let rest = entries_text(r.names.entries@, 0);
    let l = synced_text(r.synced_to);
    lemma_entries_lines(r.names.entries@, 0);
    lemma_dec_lacks(r.synced_to as nat, '\n');
    lemma_dec_lacks(r.synced_to as nat, '\r');
    lemma_dec_digits(r.synced_to as nat);
    assert(l.last() == dec(r.synced_to as nat).last());
    assert(line_safe(l));
    assert(registry_text(r) =~= REGISTRY_HEADER@.push('\n') + (l.push('\n') + rest));
    lemma_lines_of_first(REGISTRY_HEADER@, l.push('\n') + rest);
    lemma_lines_of_first(l, rest);
    let all = lines_of(registry_text(r));
    assert(all[1] == l);
    assert(l.take("synced_to "@.len() as int) =~= "synced_to "@);
    assert(l.skip("synced_to "@.len() as int) =~= dec(r.synced_to as nat));
    lemma_number_text_of_dec(r.synced_to as nat, u64::MAX as nat);
    assert forall|k: int| 2 <= k < all.len() implies #[trigger] all[k] == entry_text(
        r.names.entries@[k - 2].0@,
        r.names.entries@[k - 2].1@,
    ) by {
        assert(all[k] == lines_of(rest)[k - 2]);
    }
    lemma_entries_back(all, r.names.entries@, r.names.entries@.len() as int);
}

/// The confirmed fingerprints, by name.
#[derive(Clone, Debug)]
pub struct Pins {
    pub pins: NameTable<String>,
}

/// What the pins say of a resolution.
#[derive(Clone, Debug, PartialEq, Eq)]
#[allow(inconsistent_fields)]
pub enum PinVerdict {
    /// Nothing was confirmed for this name yet.
    FirstUse { fingerprint: String },
    /// The address is the one that was confirmed.
    Match,
    /// The name resolves to another address than the one confirmed. The payment
    /// is refused until the new fingerprint is confirmed.
    Rebind { pinned: String, resolved: String },
}

/// A [`PinVerdict`] as a value.
#[allow(inconsistent_fields)]
pub enum PinModel {
    FirstUse { fingerprint: Seq<char> },
    Match,
    Rebind { pinned: Seq<char>, resolved: Seq<char> },
}

impl PinVerdict {
    pub open spec fn view(&self) -> PinModel {
        match self {
            PinVerdict::FirstUse { fingerprint } => PinModel::FirstUse {
                fingerprint: fingerprint@,
            },
            PinVerdict::Match => PinModel::Match,
            PinVerdict::Rebind { pinned, resolved } => PinModel::Rebind {
                pinned: pinned@,
                resolved: resolved@,
            },
        }
    }
}

/// What stands for the fingerprint of an address that does not decode: all of
/// its bytes, so that no other address has it.
pub open spec fn undecodable_text(address: Seq<u8>) -> Seq<char> {
    "<undecodable:"@ + dec(address.len()) + "B:"@ + hex_text(address) + ">"@
}

/// The fingerprint of an address, whose short form is given where it decodes.
pub open spec fn fingerprint_text(address: Seq<u8>, short: Option<Seq<char>>) -> Seq<char> {
    match short {
        Some(s) => s,
        None => undecodable_text(address),
    }
}

/// What the pins say of a name that resolves to a fingerprint.
pub open spec fn judged(
    pins: Map<Seq<char>, Seq<char>>,
    name: Seq<char>,
    fingerprint: Seq<char>,
) -> PinModel {
    let bare = bare_of(name);
    if !pins.dom().contains(bare) {
        PinModel::FirstUse { fingerprint }
    } else if pins[bare] == fingerprint {
        PinModel::Match
    } else {
        PinModel::Rebind { pinned: pins[bare], resolved: fingerprint }
    }
}

/// The text of an optional string.
pub open spec fn opt_text(s: Option<&str>) -> Option<Seq<char>> {
    match s {
        Some(t) => Some(t@),
        None => None,
    }
}

/// What a table of fingerprints says of each name.
pub open spec fn pins_model(t: Map<Seq<char>, String>) -> Map<Seq<char>, Seq<char>> {
    Map::new(|n: Seq<char>| t.dom().contains(n), |n: Seq<char>| t[n]@)
}

proof fn lemma_pins_insert(t: Map<Seq<char>, String>, name: Seq<char>, fp: String)
    ensures
        pins_model(t.insert(name, fp)) == pins_model(t).insert(name, fp@),
{
    assert(pins_model(t.insert(name, fp)) =~= pins_model(t).insert(name, fp@));
}

fn undecodable(address: &[u8]) -> (r: String)
    ensures
        r@ == undecodable_text(address@),
{
    assert(address@.len() == address.len());
    let mut s: String = "<undecodable:".to_owned();
    push_dec(&mut s, address.len() as u64);
    s.append("B:");
    push_hex(&mut s, address);
    s.append(">");
    s
}

impl Pins {
    pub open spec fn wf(&self) -> bool {
        self.pins.wf()
    }

    pub open spec fn model(&self) -> Map<Seq<char>, Seq<char>> {
        pins_model(self.pins@)
    }

    /// No pins.
    pub fn empty() -> (r: Pins)
        ensures
            r.wf(),
            r.model() == Map::<Seq<char>, Seq<char>>::empty(),
    {
        let r = Pins { pins: NameTable::new() };
        assert(r.model() =~= Map::<Seq<char>, Seq<char>>::empty());
        r
    }

    /// Judges the address that a name resolves to; `short` is its short form,
    /// where it decodes. One that does not is known by its own bytes.
    pub fn check(&self, name: &str, resolved_address: &[u8], short: Option<&str>) -> (r: PinVerdict)
        requires
            self.wf(),
        ensures
            r@ == judged(
                self.model(),
                name@,
                fingerprint_text(resolved_address@, opt_text(short)),
            ),
    {
        let bare = bare_name(name);
        let fingerprint = match short {
            Some(s) => s.to_owned(),
            None => undecodable(resolved_address),
        };
        match self.pins.find(bare.as_str()) {
            None => PinVerdict::FirstUse { fingerprint },
            Some(i) => {
                let pinned = self.pins.entries[i].1.as_str();
                assert(self.model()[bare@] == pinned@);
                if str_eq(pinned, fingerprint.as_str()) {
                    PinVerdict::Match
                } else {
                    PinVerdict::Rebind { pinned: pinned.to_owned(), resolved: fingerprint }
                }
            },
        }
    }

    /// Pins a confirmed fingerprint, in place of an earlier one.
    pub fn pin(&mut self, name: &str, fingerprint: &str)
        requires
            old(self).wf(),
        ensures
            final(self).wf(),
            final(self).model() == old(self).model().insert(bare_of(name@), fingerprint@),
    {
        let bare = bare_name(name);
        let fp = fingerprint.to_owned();
        proof {
            lemma_pins_insert(self.pins@, bare@, fp);
        }
        self.pins.insert(bare, fp);
    }

    /// The pinned fingerprint of a name.
    pub fn get(&self, name: &str) -> (r: Option<&str>)
        requires
            self.wf(),
        ensures
            match r {
                Some(fp) => self.model().dom().contains(bare_of(name@)) && fp@
                    == self.model()[bare_of(name@)],
                None => !self.model().dom().contains(bare_of(name@)),
            },
    {
        let bare = bare_name(name);
        match self.pins.find(bare.as_str()) {
            None => None,
            Some(i) => {
                assert(self.model()[bare@] == self.pins.entries@[i as int].1@);
                Some(self.pins.entries[i].1.as_str())
            },
        }
    }
}

/// The text of one pin's line.
pub open spec fn pin_text(name: Seq<char>, fp: Seq<char>) -> Seq<char> {
    name + " "@ + fp
}

/// The lines of the pins from the `i`-th on.
pub open spec fn pin_lines(entries: Seq<(String, String)>, i: int) -> Seq<char>
    decreases entries.len() - i,
{
    if 0 <= i < entries.len() {
        pin_text(entries[i].0@, entries[i].1@) + "\n"@ + pin_lines(entries, i + 1)
    } else {
        Seq::empty()
    }
}

/// The text of the pins.
pub open spec fn pins_text(p: Pins) -> Seq<char> {
    PINS_HEADER@ + "\n"@ + pin_lines(p.pins.entries@, 0)
}

/// What the first `n` lines pin, the header left out; none where a line is not a
/// name and a fingerprint.
pub open spec fn pins_to(all: Seq<Seq<char>>, n: int) -> Option<Map<Seq<char>, Seq<char>>>
    decreases n,
{
    if n <= 1 {
        Some(Map::empty())
    } else {
        match pins_to(all, n - 1) {
            None => None,
            Some(m) => {
                let f = split_on(all[n - 1], ' ');
                if f.len() != 2 {
                    None
                } else {
                    Some(m.insert(f[0], f[1]))
                }
            },
        }
    }
}

/// What a text pins, or why it is refused.
pub open spec fn pins_of(text: Seq<char>) -> Result<Map<Seq<char>, Seq<char>>, Seq<char>> {
    let all = lines_of(text);
    if all.len() == 0 || all[0] != PINS_HEADER@ {
        Err(
            PINS_FILE@
                + ": unknown header — refusing to guess (pins are the user's out-of-band confirmations)"@,
        )
    } else {
        match pins_to(all, all.len() as int) {
            None => Err(PINS_FILE@ + ": malformed record"@),
            Some(m) => Ok(m),
        }
    }
}

proof fn lemma_pins_none(all: Seq<Seq<char>>, n: int, m: int)
    requires
        n <= m,
        pins_to(all, n) is None,
    ensures
        pins_to(all, m) is None,
    decreases m - n,
{
    if n < m {
        lemma_pins_none(all, n, m - 1);
    }
}

impl Pins {
    /// The text that is kept of the pins.
    pub fn save(&self) -> (r: String)
        ensures
            r@ == pins_text(*self),
    {
        let mut s: String = PINS_HEADER.to_owned();
        s.append("\n");
        let ghost head = s@;
        let mut i: usize = 0;
        while i < self.pins.entries.len()
            invariant
                i <= self.pins.entries@.len(),
                s@ + pin_lines(self.pins.entries@, i as int) == head + pin_lines(
                    self.pins.entries@,
                    0,
                ),
            decreases self.pins.entries@.len() - i,
        {
            let ghost was = s@;
            s.append(self.pins.entries[i].0.as_str());
            s.append(" ");
            s.append(self.pins.entries[i].1.as_str());
            s.append("\n");
            proof {
                let e = self.pins.entries@[i as int];
                let rest = pin_lines(self.pins.entries@, i + 1);
                assert(s@ + rest =~= was + (pin_text(e.0@, e.1@) + "\n"@ + rest));
            }
            i += 1;
        }
        assert(s@ + Seq::<char>::empty() =~= s@);
        s
    }

    /// Reads kept pins: none are pinned where no text was kept.
    pub fn load(text: Option<&str>) -> (r: Result<Pins, String>)
        ensures
            match text {
                None => r matches Ok(p) && p.wf() && p.model() == Map::<
                    Seq<char>,
                    Seq<char>,
                >::empty(),
                Some(t) => match (r, pins_of(t@)) {
                    (Ok(p), Ok(m)) => p.wf() && p.model() == m,
                    (Err(e), Err(why)) => e@ == why,
                    _ => false,
                },
            },
    {
        let t = match text {
            None => {
                return Ok(Pins::empty());
            },
            Some(t) => t,
        };
        let chars = chars_of(t);
        let all = lines(&chars);
        let ghost ls = texts(all@);
        let known = if all.len() > 0 {
            assert(ls[0] == all@[0]@);
            text_is(&all[0], PINS_HEADER)
        } else {
            false
        };
        if !known {
            let mut e: String = PINS_FILE.to_owned();
            e.append(
                ": unknown header — refusing to guess (pins are the user's out-of-band confirmations)",
            );
            return Err(e);
        }
        let mut p = Pins::empty();
        let mut i: usize = 1;
        while i < all.len()
            invariant
                1 <= i <= all@.len(),
                text == Some(t),
                ls == texts(all@),
                ls == lines_of(t@),
                ls[0] == PINS_HEADER@,
                p.wf(),
                pins_to(ls, i as int) == Some(p.model()),
            decreases all@.len() - i,
        {
            assert(ls[i as int] == all@[i as int]@);
            let f = split(&all[i], ' ');
            let ghost fs = texts(f@);
            if f.len() != 2 {
                proof {
                    assert(pins_to(ls, i + 1) is None);
                    lemma_pins_none(ls, i + 1, ls.len() as int);
                }
                let mut e: String = PINS_FILE.to_owned();
                e.append(": malformed record");
                return Err(e);
            }
            assert(fs[0] == f@[0]@ && fs[1] == f@[1]@);
            let name = string_of(&f[0]);
            let fp = string_of(&f[1]);
            proof {
                lemma_pins_insert(p.pins@, name@, fp);
            }
            p.pins.insert(name, fp);
            i += 1;
        }
        Ok(p)
    }
}

/// A fingerprint that its line can hold.
pub open spec fn pin_kept(fp: Seq<char>) -> bool {
    lacks(fp, ' ') && line_safe(fp)
}

proof fn lemma_pin_back(name: Seq<char>, fp: Seq<char>)
    requires
        name_kept(name),
        pin_kept(fp),
    ensures
        line_safe(pin_text(name, fp)),
        split_on(pin_text(name, fp), ' ') == seq![name, fp],
{
    reveal_strlit(" ");
    assert(pin_text(name, fp) =~= name.push(' ') + fp);
    lemma_split_none(fp, ' ');
    lemma_split_first(name, ' ', fp);
    assert(split_on(pin_text(name, fp), ' ') =~= seq![name, fp]);
    if fp.len() > 0 {
        assert(pin_text(name, fp).last() == fp.last());
    } else {
        assert(pin_text(name, fp).last() == ' ');
    }
}

pub open spec fn pins_kept(entries: Seq<(String, String)>) -> bool {
    forall|k: int|
        0 <= k < entries.len() ==> name_kept((#[trigger] entries[k]).0@) && pin_kept(entries[k].1@)
}

proof fn lemma_pins_lines(entries: Seq<(String, String)>, i: int)
    requires
        0 <= i <= entries.len(),
        pins_kept(entries),
    ensures
        lines_of(pin_lines(entries, i)) == Seq::new(
            (entries.len() - i) as nat,
            |k: int| pin_text(entries[i + k].0@, entries[i + k].1@),
        ),
    decreases entries.len() - i,
{
    if i < entries.len() {
        reveal_strlit("\n");
        lemma_pins_lines(entries, i + 1);
        let l = pin_text(entries[i].0@, entries[i].1@);
        let rest = pin_lines(entries, i + 1);
        lemma_pin_back(entries[i].0@, entries[i].1@);
        assert(pin_lines(entries, i) =~= l.push('\n') + rest);
        lemma_lines_of_first(l, rest);
        assert(lines_of(pin_lines(entries, i)) =~= Seq::new(
            (entries.len() - i) as nat,
            |k: int| pin_text(entries[i + k].0@, entries[i + k].1@),
        ));
    } else {
        assert(pin_lines(entries, i) =~= Seq::empty());
        assert(lines_of(Seq::<char>::empty()) =~= Seq::empty());
    }
}

proof fn lemma_pins_back(all: Seq<Seq<char>>, entries: Seq<(String, String)>, n: int)
    requires
        0 <= n <= entries.len(),
        all.len() == entries.len() + 1,
        pins_kept(entries),
        forall|k: int|
            1 <= k < all.len() ==> #[trigger] all[k] == pin_text(
                entries[k - 1].0@,
                entries[k - 1].1@,
            ),
    ensures
        pins_to(all, n + 1) == Some(pins_model(named_to(entries, n))),
    decreases n,
{
    if n > 0 {
        lemma_pins_back(all, entries, n - 1);
        let e = entries[n - 1];
        lemma_pin_back(e.0@, e.1@);
        assert(all[n] == pin_text(e.0@, e.1@));
        lemma_pins_insert(named_to(entries, n - 1), e.0@, e.1);
    } else {
        assert(pins_model(named_to(entries, 0)) =~= Map::<Seq<char>, Seq<char>>::empty());
    }
}

/// Kept pins read back as they were, as long as no name or fingerprint holds a
/// space or a line's end.
pub proof fn law_pins_read_back(p: Pins)
    requires
        p.wf(),
        pins_kept(p.pins.entries@),
    ensures
        pins_of(pins_text(p)) == Ok::<Map<Seq<char>, Seq<char>>, Seq<char>>(p.model()),
{
    reveal_strlit("\n");
    reveal_strlit("qumbra-wallet names-pins v1");
    let entries = p.pins.entries@;
    let rest = pin_lines(entries, 0);
    lemma_pins_lines(entries, 0);
    assert(pins_text(p) =~= PINS_HEADER@.push('\n') + rest);
    lemma_lines_of_first(PINS_HEADER@, rest);
    let all = lines_of(pins_text(p));
    assert forall|k: int| 1 <= k < all.len() implies #[trigger] all[k] == pin_text(
        entries[k - 1].0@,
        entries[k - 1].1@,
    ) by {
        assert(all[k] == lines_of(rest)[k - 1]);
    }
    lemma_pins_back(all, entries, entries.len() as int);
}

/// A name that was never pinned is of first use, and is told by the fingerprint
/// that it resolves to. Once a fingerprint is pinned, its name matches that
/// fingerprint alone, and every other one raises the alarm; no other name's
/// verdict changes. A trailing `.qmb` on either name makes no difference.
pub proof fn law_a_rebind_is_never_silent(
    pins: Map<Seq<char>, Seq<char>>,
    name: Seq<char>,
    fp: Seq<char>,
    asked: Seq<char>,
    now: Seq<char>,
)
    ensures
        !pins.dom().contains(bare_of(asked)) ==> judged(pins, asked, now) == (
        PinModel::FirstUse { fingerprint: now }),
        ({
            let after = pins.insert(bare_of(name), fp);
            if bare_of(asked) == bare_of(name) {
                judged(after, asked, now) == (if now == fp {
                    PinModel::Match
                } else {
                    PinModel::Rebind { pinned: fp, resolved: now }
                })
            } else {
                judged(after, asked, now) == judged(pins, asked, now)
            }
        }),
{
}

/// Two addresses that do not decode have different fingerprints: a rebind
/// between them is never a match.
pub proof fn law_undecodable_addresses_are_told_apart(a: Seq<u8>, b: Seq<u8>)
    ensures
        undecodable_text(a) == undecodable_text(b) ==> a == b,
{
    if undecodable_text(a) == undecodable_text(b) {
        lemma_marker(a);
        lemma_marker(b);
        lemma_pairs_of_hex(a);
        lemma_pairs_of_hex(b);
    }
}

/// What an undecodable address's marker is parted into.
proof fn lemma_marker(a: Seq<u8>)
    ensures
        ({
            let t = undecodable_text(a);
            let p = parted_at(t, 'B')->0;
            parted_at(t, 'B') is Some && p.1.subrange(1, p.1.len() - 1) == hex_text(a)
        }),
{
    reveal_strlit("<undecodable:");
    reveal_strlit("B:");
    reveal_strlit(">");
    let head = "<undecodable:"@ + dec(a.len());
    let tail = seq![':'] + hex_text(a) + seq!['>'];
    lemma_dec_lacks(a.len(), 'B');
    assert(undecodable_text(a) =~= head.push('B') + tail);
    lemma_parted(head, 'B', tail);
    assert(tail.subrange(1, tail.len() - 1) =~= hex_text(a));
}

} // verus!
