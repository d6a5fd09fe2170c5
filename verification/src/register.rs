//! A name's registration: a commit, a wait, and a reveal inside its window.
//!
//! The state is kept before the commit goes out: its salt exists nowhere else,
//! and a commit whose salt is lost is a dead window and a burned fee. The exact
//! reveal transaction is kept before it goes out too, so that a retry sends the
//! same bytes.
use crate::bytes32::{bytes_eq, copied};
use crate::names::{bare_name, NameOp, NameRecord, NameRules, WalletRegistry};
#[allow(unused_imports)]
use crate::names::{bare_of, name_kept, EntryModel};
use crate::random::os_seed;
use crate::store::WalletDir;
#[allow(unused_imports)]
use crate::store::next_index;
use crate::text::{
    chars_of, debug_of, lines, pairs_bytes, parse_number, parse_u64, push_dec, push_hex, split,
    str_eq, string_of, text_is,
};
#[allow(unused_imports)]
use crate::text::{
    debug_text, dec, hex_text, lacks, lemma_dec_lacks, lemma_hex_lacks, lemma_lines_of_first,
    lemma_number_text_of_dec, lemma_pairs_of_hex, lemma_split_last, lemma_split_none, line_safe,
    lines_of, number_text, pairs_text, split_on, texts,
};
use vstd::prelude::*;
#[allow(unused_imports)]
use vstd::utf8::encode_utf8;

verus! {

pub const REG_FILE: &'static str = "names-reg.v1";

pub const REG_HEADER_V1: &'static str = "qumbra-wallet names-reg v1";

pub const REG_HEADER_V2: &'static str = "qumbra-wallet names-reg v2";

pub const REG_HEADER: &'static str = "qumbra-wallet names-reg v3";

/// One registration in flight.
#[derive(Clone, Debug, PartialEq, Eq)]
pub struct RegisterState {
    pub name: String,
    /// What the name is to be bound to.
    pub record: NameRecord,
    pub salt: [u8; 32],
    /// Where the commit was mined; none until it was seen.
    pub committed_at: Option<u64>,
    /// Set before the first commit is built. From then on this state may hold
    /// the only salt of a commit on chain.
    pub commit_attempted: bool,
    /// The exact bytes of the reveal, kept before they are first sent.
    pub reveal_tx: Option<Vec<u8>>,
    /// Where the record was seen on chain.
    pub revealed_at: Option<u64>,
}

/// Where a registration stands.
#[derive(Clone, Copy, Debug, PartialEq, Eq)]
#[allow(inconsistent_fields)]
pub enum RegisterStep {
    /// No commit was seen: send it, or send it again.
    NeedsCommit,
    /// The reveal's window opens at `at`.
    WaitForWindow { at: u64 },
    /// The window is open: send the reveal.
    RevealNow { closes: u64 },
    /// The reveal was seen on chain.
    RevealConfirmed { at: u64 },
    /// The window closed without a reveal. The commit is dead, and its salt is
    /// not used again.
    WindowClosed,
}

/// A [`RegisterState`] as a value.
#[verifier::ext_equal]
pub struct RegisterModel {
    pub name: Seq<char>,
    pub kind: u8,
    pub record_name: Seq<u8>,
    pub address: Seq<u8>,
    pub salt: Seq<u8>,
    pub committed_at: Option<u64>,
    pub commit_attempted: bool,
    pub reveal_tx: Option<Seq<u8>>,
    pub revealed_at: Option<u64>,
}

/// The bytes of an optional vector.
pub open spec fn opt_bytes(v: Option<Vec<u8>>) -> Option<Seq<u8>> {
    match v {
        Some(b) => Some(b@),
        None => None,
    }
}

impl RegisterState {
    pub open spec fn view(&self) -> RegisterModel {
        RegisterModel {
            name: self.name@,
            kind: self.record.kind,
            record_name: self.record.name@,
            address: self.record.address@,
            salt: self.salt@,
            committed_at: self.committed_at,
            commit_attempted: self.commit_attempted,
            reveal_tx: opt_bytes(self.reveal_tx),
            revealed_at: self.revealed_at,
        }
    }
}

/// The heights at which a commit can be revealed, the last included.
pub open spec fn window(committed: u64, rules: NameRules) -> (int, int) {
    (committed + rules.commit_min_age, committed + rules.commit_max_age)
}

pub open spec fn in_window(committed: u64, rules: NameRules, at: u64) -> bool {
    window(committed, rules).0 <= at <= window(committed, rules).1
}

/// Both ends of a commit's window are heights.
pub open spec fn window_fits(committed: u64, rules: NameRules) -> bool {
    window(committed, rules).0 <= u64::MAX && window(committed, rules).1 <= u64::MAX
}

/// Where a registration stands at a height.
pub open spec fn step_at(
    committed_at: Option<u64>,
    revealed_at: Option<u64>,
    tip: u64,
    rules: NameRules,
) -> RegisterStep {
    match (revealed_at, committed_at) {
        (Some(at), _) => RegisterStep::RevealConfirmed { at },
        (None, None) => RegisterStep::NeedsCommit,
        (None, Some(h)) => {
            let w = window(h, rules);
            if tip < w.0 {
                RegisterStep::WaitForWindow { at: w.0 as u64 }
            } else if tip <= w.1 {
                RegisterStep::RevealNow { closes: w.1 as u64 }
            } else {
                RegisterStep::WindowClosed
            }
        },
    }
}

impl RegisterState {
    /// A registration of which nothing was sent.
    pub fn new(name: &str, record: NameRecord, salt: [u8; 32]) -> (r: RegisterState)
        ensures
            r.name@ == name@,
            r.record == record,
            r.salt == salt,
            r.committed_at is None,
            !r.commit_attempted,
            r.reveal_tx is None,
            r.revealed_at is None,
    {
        RegisterState {
            name: name.to_owned(),
            record,
            salt,
            committed_at: None,
            commit_attempted: false,
            reveal_tx: None,
            revealed_at: None,
        }
    }

    /// The op of the first step; `commit` is the chain's hash of the record and
    /// the salt.
    pub fn commit_op(&self, commit: [u8; 32]) -> (r: NameOp)
        ensures
            r == (NameOp::Commit { commit }),
    {
        NameOp::Commit { commit }
    }

    /// The op of the second step: the record and the salt.
    pub fn reveal_op(&self) -> (r: NameOp)
        ensures
            r matches NameOp::Reveal { record, salt } && record.kind == self.record.kind
                && record.name@ == self.record.name@ && record.address@ == self.record.address@
                && salt == self.salt,
    {
        NameOp::Reveal {
            record: NameRecord {
                kind: self.record.kind,
                name: copied(&self.record.name),
                address: copied(&self.record.address),
            },
            salt: self.salt,
        }
    }

    /// Where this registration stands at `tip`.
    pub fn step(&self, tip: u64, rules: &NameRules) -> (r: RegisterStep)
        requires
            self.revealed_at is None ==> (self.committed_at matches Some(h) ==> window_fits(
                h,
                *rules,
            )),
        ensures
            r == step_at(self.committed_at, self.revealed_at, tip, *rules),
    {
        if let Some(at) = self.revealed_at {
            return RegisterStep::RevealConfirmed { at };
        }
        match self.committed_at {
            None => RegisterStep::NeedsCommit,
            Some(h) => {
                let opens: u64 = h + rules.commit_min_age;
                let closes: u64 = h + rules.commit_max_age;
                if tip < opens {
                    RegisterStep::WaitForWindow { at: opens }
                } else if tip <= closes {
                    RegisterStep::RevealNow { closes }
                } else {
                    RegisterStep::WindowClosed
                }
            },
        }
    }
}

/// The height at which a registration's record was revealed, where the names
/// hold it: the same kind and address, inside the commit's window.
pub open spec fn observed(
    names: Map<Seq<char>, EntryModel>,
    m: RegisterModel,
    rules: NameRules,
) -> Option<u64> {
    match m.committed_at {
        Some(h) => if names.dom().contains(m.name) && window_fits(h, rules) && names[m.name].kind
            == m.kind && names[m.name].address == m.address && in_window(
            h,
            rules,
            names[m.name].registered,
        ) {
            Some(names[m.name].registered)
        } else {
            None
        },
        None => None,
    }
}

impl WalletRegistry {
    /// The height at which a registration's own record was revealed, as far as
    /// the synced names show it. An older or a competing binding of the name is
    /// not taken for it.
    pub fn observed_reveal_height(&self, state: &RegisterState, rules: &NameRules) -> (r: Option<
        u64,
    >)
        requires
            self.wf(),
        ensures
            r == observed(self.model(), state@, *rules),
    {
        let committed: u64 = match state.committed_at {
            None => {
                return None;
            },
            Some(h) => h,
        };
        let i: usize = match self.names.find(state.name.as_str()) {
            None => {
                return None;
            },
            Some(i) => i,
        };
        let e = &self.names.entries[i].1;
        assert(self.model()[state.name@] == e@);
        match (
            committed.checked_add(rules.commit_min_age),
            committed.checked_add(rules.commit_max_age),
        ) {
            (Some(opens), Some(closes)) => {
                if e.kind == state.record.kind && bytes_eq(&e.address, &state.record.address)
                    && opens <= e.registered && e.registered <= closes {
                    Some(e.registered)
                } else {
                    None
                }
            },
            _ => None,
        }
    }
}

/// The text of an optional height.
pub open spec fn height_text(h: Option<u64>) -> Seq<char> {
    match h {
        None => "none"@,
        Some(n) => dec(n as nat),
    }
}

pub open spec fn attempted_text(b: bool) -> Seq<char> {
    if b {
        "attempted"@
    } else {
        "prepared"@
    }
}

pub open spec fn tx_text(tx: Option<Seq<u8>>) -> Seq<char> {
    match tx {
        None => "none"@,
        Some(b) => hex_text(b),
    }
}

/// The fields of a registration's line.
pub open spec fn register_fields(m: RegisterModel) -> Seq<Seq<char>> {
    seq![
        m.name,
        dec(m.kind as nat),
        hex_text(m.salt),
        height_text(m.committed_at),
        attempted_text(m.commit_attempted),
        height_text(m.revealed_at),
        hex_text(m.address),
        tx_text(m.reveal_tx),
    ]
}

/// The first `n` fields, a space between any two.
pub open spec fn spaced_to(f: Seq<Seq<char>>, n: int) -> Seq<char>
    decreases n,
{
    if n <= 0 {
        Seq::empty()
    } else if n == 1 {
        f[0]
    } else {
        spaced_to(f, n - 1) + " "@ + f[n - 1]
    }
}

/// A registration's text.
pub open spec fn register_text(m: RegisterModel) -> Seq<char> {
    REG_HEADER@ + "\n"@ + spaced_to(register_fields(m), 8) + "\n"@
}

fn push_height(s: &mut String, h: Option<u64>)
    ensures
        final(s)@ == old(s)@ + height_text(h),
{
    match h {
        None => s.append("none"),
        Some(n) => push_dec(s, n),
    }
}

impl RegisterState {
    /// The text that is kept of a registration.
    pub fn save(&self) -> (r: String)
        ensures
            r@ == register_text(self@),
    {
        let mut line: String = self.name.as_str().to_owned();
        line.append(" ");
        push_dec(&mut line, self.record.kind as u64);
        line.append(" ");
        push_hex(&mut line, &self.salt);
        line.append(" ");
        push_height(&mut line, self.committed_at);
        line.append(" ");
        line.append(
            if self.commit_attempted {
                "attempted"
            } else {
                "prepared"
            },
        );
        line.append(" ");
        push_height(&mut line, self.revealed_at);
        line.append(" ");
        push_hex(&mut line, &self.record.address);
        line.append(" ");
        match &self.reveal_tx {
            None => line.append("none"),
            Some(b) => push_hex(&mut line, b),
        }
        proof {
            reveal_with_fuel(spaced_to, 9);
            assert(line@ =~= spaced_to(register_fields(self@), 8));
        }
        let mut s: String = REG_HEADER.to_owned();
        s.append("\n");
        s.append(line.as_str());
        s.append("\n");
        s
    }
}

/// What the fields behind the first four say: whether a commit was attempted,
/// the reveal's height, the address and the reveal. The older two layouts have
/// fewer; the oldest cannot show that its commit was never sent, and is taken as
/// attempted.
pub struct RestModel {
    pub attempted: bool,
    pub revealed: Option<Seq<char>>,
    pub address: Seq<char>,
    pub tx: Option<Seq<char>>,
}

pub open spec fn rest_of(header: Seq<char>, f: Seq<Seq<char>>) -> Result<RestModel, Seq<char>> {
    let shown = f.len() > 4 && (f[4] == "attempted"@ || f[4] == "prepared"@);
    if header == REG_HEADER@ {
        if !shown {
            Err("bad commit-attempt state"@)
        } else if f.len() < 6 {
            Err("missing reveal height"@)
        } else if f.len() < 7 {
            Err("missing address"@)
        } else if f.len() < 8 {
            Err("missing reveal transaction"@)
        } else if f.len() > 8 {
            Err("unexpected trailing fields"@)
        } else {
            Ok(
                RestModel {
                    attempted: f[4] == "attempted"@,
                    revealed: Some(f[5]),
                    address: f[6],
                    tx: Some(f[7]),
                },
            )
        }
    } else if header == REG_HEADER_V2@ {
        if !shown {
            Err("bad commit-attempt state"@)
        } else if f.len() < 6 {
            Err("missing address"@)
        } else if f.len() > 6 {
            Err("unexpected trailing fields"@)
        } else {
            Ok(
                RestModel {
                    attempted: f[4] == "attempted"@,
                    revealed: None,
                    address: f[5],
                    tx: None,
                },
            )
        }
    } else if f.len() < 5 {
        Err("missing address"@)
    } else if f.len() > 5 {
        Err("unexpected trailing fields"@)
    } else {
        Ok(RestModel { attempted: true, revealed: None, address: f[4], tx: None })
    }
}

/// The height that a field gives: the word `none`, or a number.
pub open spec fn height_of(t: Seq<char>) -> Option<Option<u64>> {
    if t == "none"@ {
        Some(None)
    } else {
        match number_text(t, u64::MAX as nat) {
            Some(n) => Some(Some(n as u64)),
            None => None,
        }
    }
}

/// The reveal that a field gives: the word `none`, or bytes, at least one.
pub open spec fn tx_of(t: Seq<char>) -> Option<Option<Seq<u8>>> {
    if t == "none"@ {
        Some(None)
    } else {
        match pairs_text(t) {
            Some(b) => if b.len() > 0 {
                Some(Some(b))
            } else {
                None
            },
            None => None,
        }
    }
}

/// What is wrong with a registration's heights and reveal taken together.
pub open spec fn discord(
    committed: Option<u64>,
    attempted: bool,
    tx: Option<Seq<u8>>,
    revealed: Option<u64>,
    rules: NameRules,
) -> Option<Seq<char>> {
    if revealed is Some && committed is None {
        Some("a confirmed reveal is missing its commit height"@)
    } else if tx is Some && (committed is None || !attempted) {
        Some("a retained reveal transaction is missing its attempted commit"@)
    } else if revealed is Some && tx is None {
        Some("a confirmed reveal is missing its retained transaction"@)
    } else if revealed is Some && !window_fits(committed->0, rules) {
        Some("commit height overflows its reveal window"@)
    } else if revealed is Some && !in_window(committed->0, rules, revealed->0) {
        Some("reveal height is outside its commit window"@)
    } else {
        None
    }
}

/// What a registration's line says, or why it is refused.
pub open spec fn registration_of(header: Seq<char>, line: Seq<char>, rules: NameRules) -> Result<
    RegisterModel,
    Seq<char>,
> {
    let f = split_on(line, ' ');
    if f.len() < 4 {
        Err("malformed record"@)
    } else {
        match rest_of(header, f) {
            Err(why) => Err(why),
            Ok(rest) => {
                let committed = height_of(f[3]);
                let revealed = match rest.revealed {
                    None => Some(None),
                    Some(t) => height_of(t),
                };
                let tx = match rest.tx {
                    None => Some(None),
                    Some(t) => tx_of(t),
                };
                if committed is None {
                    Err("bad commit height"@)
                } else if revealed is None {
                    Err("bad reveal height"@)
                } else if tx is None {
                    Err("bad reveal transaction"@)
                } else if discord(committed->0, rest.attempted, tx->0, revealed->0, rules) is Some {
                    Err(discord(committed->0, rest.attempted, tx->0, revealed->0, rules)->0)
                } else if pairs_text(f[2]) is None || (pairs_text(f[2])->0).len() != 32 {
                    Err("bad salt"@)
                } else if number_text(f[1], u8::MAX as nat) is None {
                    Err("bad kind"@)
                } else if pairs_text(rest.address) is None {
                    Err("bad address"@)
                } else {
                    Ok(
                        RegisterModel {
                            name: f[0],
                            kind: number_text(f[1], u8::MAX as nat)->0 as u8,
                            record_name: encode_utf8(f[0]),
                            address: pairs_text(rest.address)->0,
                            salt: pairs_text(f[2])->0,
                            committed_at: committed->0,
                            commit_attempted: rest.attempted,
                            reveal_tx: tx->0,
                            revealed_at: revealed->0,
                        },
                    )
                }
            },
        }
    }
}

/// What a kept text says of a registration: none where it holds a header alone.
pub open spec fn register_of(text: Seq<char>, rules: NameRules) -> Result<
    Option<RegisterModel>,
    Seq<char>,
> {
    let all = lines_of(text);
    if all.len() == 0 || (all[0] != REG_HEADER@ && all[0] != REG_HEADER_V2@ && all[0]
        != REG_HEADER_V1@) {
        Err(
            REG_FILE@
                + ": unknown header — an in-flight registration must never be guessed at"@,
        )
    } else if all.len() < 2 {
        Ok(None)
    } else {
        match registration_of(all[0], all[1], rules) {
            Ok(m) => Ok(Some(m)),
            Err(why) => Err(REG_FILE@ + ": "@ + why),
        }
    }
}

fn read_height(t: &[char]) -> (r: Option<Option<u64>>)
    ensures
        r == height_of(t@),
{
    if text_is(t, "none") {
        return Some(None);
    }
    match parse_u64(t) {
        Some(n) => Some(Some(n)),
        None => None,
    }
}

fn read_tx(t: &[char]) -> (r: Option<Option<Vec<u8>>>)
    ensures
        match r {
            Some(v) => tx_of(t@) == Some(opt_bytes(v)),
            None => tx_of(t@) is None,
        },
{
    if text_is(t, "none") {
        return Some(None);
    }
    match pairs_bytes(t) {
        Some(b) => {
            if b.len() > 0 {
                Some(Some(b))
            } else {
                None
            }
        },
        None => None,
    }
}

/// The fields behind the first four, by their places: whether a commit was
/// attempted, and where the reveal's height, the address and the reveal stand.
struct Rest {
    attempted: bool,
    revealed: Option<usize>,
    address: usize,
    tx: Option<usize>,
}

spec fn field_at(f: Seq<Seq<char>>, i: Option<usize>) -> Option<Seq<char>> {
    match i {
        None => None,
        Some(k) => Some(f[k as int]),
    }
}

fn read_attempted(f: &Vec<Vec<char>>) -> (r: Option<bool>)
    ensures
        match r {
            Some(b) => f@.len() > 4 && (if b {
                f@[4]@ == "attempted"@
            } else {
                f@[4]@ == "prepared"@ && f@[4]@ != "attempted"@
            }),
            None => f@.len() <= 4 || f@[4]@ != "attempted"@ && f@[4]@ != "prepared"@,
        },
{
    if f.len() <= 4 {
        None
    } else if text_is(&f[4], "attempted") {
        Some(true)
    } else if text_is(&f[4], "prepared") {
        Some(false)
    } else {
        None
    }
}

fn read_rest(header: &[char], f: &Vec<Vec<char>>) -> (r: Result<Rest, &'static str>)
    ensures
        match (r, rest_of(header@, texts(f@))) {
            (Ok(p), Ok(m)) => {
                &&& p.attempted == m.attempted
                &&& p.address < f@.len() && f@[p.address as int]@ == m.address
                &&& (p.revealed matches Some(k) ==> k < f@.len())
                &&& (p.tx matches Some(k) ==> k < f@.len())
                &&& field_at(texts(f@), p.revealed) == m.revealed
                &&& field_at(texts(f@), p.tx) == m.tx
            },
            (Err(why), Err(m)) => why@ == m,
            _ => false,
        },
{
    let ghost fs = texts(f@);
    assert(forall|i: int| 0 <= i < fs.len() ==> #[trigger] fs[i] == f@[i]@);
    if text_is(header, REG_HEADER) {
        let attempted = match read_attempted(f) {
            None => {
                return Err("bad commit-attempt state");
            },
            Some(b) => b,
        };
        if f.len() < 6 {
            Err("missing reveal height")
        } else if f.len() < 7 {
            Err("missing address")
        } else if f.len() < 8 {
            Err("missing reveal transaction")
        } else if f.len() > 8 {
            Err("unexpected trailing fields")
        } else {
            Ok(Rest { attempted, revealed: Some(5), address: 6, tx: Some(7) })
        }
    } else if text_is(header, REG_HEADER_V2) {
        let attempted = match read_attempted(f) {
            None => {
                return Err("bad commit-attempt state");
            },
            Some(b) => b,
        };
        if f.len() < 6 {
            Err("missing address")
        } else if f.len() > 6 {
            Err("unexpected trailing fields")
        } else {
            Ok(Rest { attempted, revealed: None, address: 5, tx: None })
        }
    } else if f.len() < 5 {
        Err("missing address")
    } else if f.len() > 5 {
        Err("unexpected trailing fields")
    } else {
        Ok(Rest { attempted: true, revealed: None, address: 4, tx: None })
    }
}

fn find_discord(
    committed: Option<u64>,
    attempted: bool,
    has_tx: bool,
    revealed: Option<u64>,
    rules: &NameRules,
) -> (r: Option<&'static str>)
    ensures
        forall|tx: Option<Seq<u8>>|
            tx is Some == has_tx ==> match (
                r,
                #[trigger] discord(committed, attempted, tx, revealed, *rules),
            ) {
                (Some(a), Some(b)) => a@ == b,
                (None, None) => true,
                _ => false,
            },
{
    if revealed.is_some() && committed.is_none() {
        return Some("a confirmed reveal is missing its commit height");
    }
    if has_tx && (committed.is_none() || !attempted) {
        return Some("a retained reveal transaction is missing its attempted commit");
    }
    if revealed.is_some() && !has_tx {
        return Some("a confirmed reveal is missing its retained transaction");
    }
    if let (Some(h), Some(at)) = (committed, revealed) {
        match (h.checked_add(rules.commit_min_age), h.checked_add(rules.commit_max_age)) {
            (Some(opens), Some(closes)) => {
                if !(opens <= at && at <= closes) {
                    return Some("reveal height is outside its commit window");
                }
            },
            _ => {
                return Some("commit height overflows its reveal window");
            },
        }
    }
    None
}

fn salt_of(t: &[char]) -> (r: Option<[u8; 32]>)
    ensures
        match r {
            Some(b) => pairs_text(t@) == Some(b@),
            None => pairs_text(t@) is None || (pairs_text(t@)->0).len() != 32,
        },
{
    match pairs_bytes(t) {
        None => None,
        Some(v) => {
            if v.len() != 32 {
                return None;
            }
            let mut b = [0u8; 32];
            let mut i: usize = 0;
            while i < 32
                invariant
                    i <= 32,
                    v@.len() == 32,
                    b@.take(i as int) == v@.take(i as int),
                decreases 32 - i,
            {
                let ghost was = b@;
                b[i] = v[i];
                assert(b@.take(i + 1) =~= was.take(i as int).push(v@[i as int]));
                assert(v@.take(i + 1) =~= v@.take(i as int).push(v@[i as int]));
                i += 1;
            }
            assert(b@ =~= b@.take(32));
            assert(v@ =~= v@.take(32));
            Some(b)
        },
    }
}

/// Reads a registration's line, under its header.
fn read_registration(header: &[char], line: &[char], rules: &NameRules) -> (r: Result<
    RegisterState,
    &'static str,
>)
    ensures
        match (r, registration_of(header@, line@, *rules)) {
            (Ok(s), Ok(m)) => s@ == m,
            (Err(why), Err(m)) => why@ == m,
            _ => false,
        },
{
    let f = split(line, ' ');
    let ghost fs = texts(f@);
    if f.len() < 4 {
        return Err("malformed record");
    }
    assert(forall|i: int| 0 <= i < fs.len() ==> #[trigger] fs[i] == f@[i]@);
    assert(fs[0] == f@[0]@ && fs[1] == f@[1]@ && fs[2] == f@[2]@ && fs[3] == f@[3]@);
    let rest = match read_rest(header, &f) {
        Err(why) => {
            return Err(why);
        },
        Ok(p) => p,
    };
    let committed_at = match read_height(&f[3]) {
        None => {
            return Err("bad commit height");
        },
        Some(h) => h,
    };
    let revealed_at = match rest.revealed {
        None => None,
        Some(k) => match read_height(&f[k]) {
            None => {
                return Err("bad reveal height");
            },
            Some(h) => h,
        },
    };
    let reveal_tx = match rest.tx {
        None => None,
        Some(k) => match read_tx(&f[k]) {
            None => {
                return Err("bad reveal transaction");
            },
            Some(v) => v,
        },
    };
    let ghost tx = opt_bytes(reveal_tx);
    let found = find_discord(committed_at, rest.attempted, reveal_tx.is_some(), revealed_at, rules);
    assert(discord(committed_at, rest.attempted, tx, revealed_at, *rules) is Some == (found is Some));
    if let Some(why) = found {
        return Err(why);
    }
    let salt = match salt_of(&f[2]) {
        None => {
            return Err("bad salt");
        },
        Some(b) => b,
    };
    let kind: u64 = match parse_number(&f[1], 255) {
        None => {
            return Err("bad kind");
        },
        Some(k) => k,
    };
    let address = match pairs_bytes(&f[rest.address]) {
        None => {
            return Err("bad address");
        },
        Some(a) => a,
    };
    let name = string_of(&f[0]);
    let record_name = copied(name.as_str().as_bytes());
    Ok(
        RegisterState {
            name,
            record: NameRecord { kind: kind as u8, name: record_name, address },
            salt,
            committed_at,
            commit_attempted: rest.attempted,
            reveal_tx,
            revealed_at,
        },
    )
}

impl RegisterState {
    /// Reads a kept registration: none where no text was kept, or nothing
    /// stands behind its header.
    pub fn load(text: Option<&str>, rules: &NameRules) -> (r: Result<Option<RegisterState>, String>)
        ensures
            match text {
                None => r matches Ok(None),
                Some(t) => match (r, register_of(t@, *rules)) {
                    (Ok(Some(s)), Ok(Some(m))) => s@ == m,
                    (Ok(None), Ok(None)) => true,
                    (Err(e), Err(why)) => e@ == why,
                    _ => false,
                },
            },
    {
        let t = match text {
            None => {
                return Ok(None);
            },
            Some(t) => t,
        };
        let chars = chars_of(t);
        let all = lines(&chars);
        let ghost ls = texts(all@);
        assert(forall|i: int| 0 <= i < ls.len() ==> #[trigger] ls[i] == all@[i]@);
        let known = if all.len() > 0 {
            assert(ls[0] == all@[0]@);
            text_is(&all[0], REG_HEADER) || text_is(&all[0], REG_HEADER_V2) || text_is(
                &all[0],
                REG_HEADER_V1,
            )
        } else {
            false
        };
        if !known {
            let mut e: String = REG_FILE.to_owned();
            e.append(": unknown header — an in-flight registration must never be guessed at");
            return Err(e);
        }
        if all.len() < 2 {
            return Ok(None);
        }
        assert(ls[1] == all@[1]@);
        match read_registration(&all[0], &all[1], rules) {
            Ok(s) => Ok(Some(s)),
            Err(why) => {
                let mut e: String = REG_FILE.to_owned();
                e.append(": ");
                e.append(why);
                Err(e)
            },
        }
    }
}

/// A registration whose parts agree: its name can be written on its line and is
/// the record's, its salt is 32 bytes, a kept reveal is not empty, and its
/// heights and its reveal go together.
pub open spec fn sound(m: RegisterModel, rules: NameRules) -> bool {
    &&& name_kept(m.name)
    &&& m.record_name == encode_utf8(m.name)
    &&& m.salt.len() == 32
    &&& (m.reveal_tx matches Some(b) ==> b.len() > 0)
    &&& discord(m.committed_at, m.commit_attempted, m.reveal_tx, m.revealed_at, rules) is None
}

proof fn lemma_words()
    ensures
        lacks("none"@, ' ') && lacks("none"@, '\n') && line_safe("none"@),
        lacks("attempted"@, ' ') && lacks("attempted"@, '\n'),
        lacks("prepared"@, ' ') && lacks("prepared"@, '\n'),
        "attempted"@ != "prepared"@,
        " "@ == seq![' '],
        "none"@.len() > 0 && "none"@[0] == 'n' && "none"@[1] == 'o',
{
    reveal_strlit("none");
    reveal_strlit("attempted");
    reveal_strlit("prepared");
    reveal_strlit(" ");
    assert("attempted"@[0] != "prepared"@[0]);
    assert(" "@ =~= seq![' ']);
}

proof fn lemma_height_back(h: Option<u64>)
    ensures
        height_of(height_text(h)) == Some(h),
        lacks(height_text(h), ' '),
        lacks(height_text(h), '\n'),
{
    lemma_words();
    if let Some(n) = h {
        lemma_dec_lacks(n as nat, ' ');
        lemma_dec_lacks(n as nat, '\n');
        lemma_dec_lacks(n as nat, 'n');
        lemma_number_text_of_dec(n as nat, u64::MAX as nat);
        assert(dec(n as nat) != "none"@);
    }
}

proof fn lemma_tx_back(tx: Option<Seq<u8>>)
    requires
        tx matches Some(b) ==> b.len() > 0,
    ensures
        tx_of(tx_text(tx)) == Some(tx),
        lacks(tx_text(tx), ' '),
        line_safe(tx_text(tx)),
{
    lemma_words();
    if let Some(b) = tx {
        lemma_hex_lacks(b, ' ');
        lemma_hex_lacks(b, '\n');
        lemma_hex_lacks(b, '\r');
        lemma_hex_lacks(b, 'n');
        lemma_pairs_of_hex(b);
        assert(hex_text(b) != "none"@);
    }
}

/// Fields without spaces, joined by spaces, part into the fields again.
proof fn lemma_spaced(f: Seq<Seq<char>>, n: int)
    requires
        1 <= n <= f.len(),
        forall|i: int| 0 <= i < f.len() ==> lacks(#[trigger] f[i], ' '),
        forall|i: int| 0 <= i < f.len() ==> lacks(#[trigger] f[i], '\n'),
    ensures
        split_on(spaced_to(f, n), ' ') == f.take(n),
        lacks(spaced_to(f, n), '\n'),
    decreases n,
{
    lemma_words();
    assert(lacks(f[n - 1], ' ') && lacks(f[n - 1], '\n'));
    if n == 1 {
        lemma_split_none(f[0], ' ');
        assert(f.take(1) =~= seq![f[0]]);
    } else {
        lemma_spaced(f, n - 1);
        let a = spaced_to(f, n - 1);
        assert(spaced_to(f, n) =~= a.push(' ') + f[n - 1]);
        lemma_split_last(a, ' ', f[n - 1]);
        assert(f.take(n) =~= f.take(n - 1).push(f[n - 1]));
    }
}

/// A kept registration reads back as it was.
pub proof fn law_registration_reads_back(m: RegisterModel, rules: NameRules)
    requires
        sound(m, rules),
    ensures
        register_of(register_text(m), rules) == Ok::<Option<RegisterModel>, Seq<char>>(Some(m)),
{
    lemma_words();
    reveal_strlit("\n");
    reveal_strlit("qumbra-wallet names-reg v3");
    let f = register_fields(m);
    lemma_dec_lacks(m.kind as nat, ' ');
    lemma_dec_lacks(m.kind as nat, '\n');
    lemma_hex_lacks(m.salt, ' ');
    lemma_hex_lacks(m.salt, '\n');
    lemma_hex_lacks(m.address, ' ');
    lemma_hex_lacks(m.address, '\n');
    lemma_height_back(m.committed_at);
    lemma_height_back(m.revealed_at);
    lemma_tx_back(m.reveal_tx);
    lemma_pairs_of_hex(m.salt);
    lemma_pairs_of_hex(m.address);
    lemma_number_text_of_dec(m.kind as nat, u8::MAX as nat);
    assert forall|i: int| 0 <= i < f.len() implies lacks(#[trigger] f[i], ' ') && lacks(
        f[i],
        '\n',
    ) by {
        assert(i == 0 || i == 1 || i == 2 || i == 3 || i == 4 || i == 5 || i == 6 || i == 7);
    }
    lemma_spaced(f, 8);
    assert(f.take(8) =~= f);
    let line = spaced_to(f, 8);
    assert(line == spaced_to(f, 7) + " "@ + f[7]);
    assert(line_safe(line)) by {
        if f[7].len() > 0 {
            assert(line.last() == f[7].last());
        } else {
            assert(line.last() == ' ');
        }
    }
    assert(register_text(m) =~= REG_HEADER@.push('\n') + (line.push('\n') + Seq::<char>::empty()));
    lemma_lines_of_first(REG_HEADER@, line.push('\n') + Seq::<char>::empty());
    lemma_lines_of_first(line, Seq::empty());
    let all = lines_of(register_text(m));
    assert(all[0] == REG_HEADER@ && all[1] == line);
    assert(registration_of(REG_HEADER@, line, rules)->Ok_0 =~= m);
}

/// Whatever is read holds heights and a reveal that go together, and a 32-byte
/// salt: a reveal that was seen has its commit and its kept transaction, and
/// lies in the commit's window.
pub proof fn law_loaded_registrations_agree(text: Seq<char>, rules: NameRules)
    ensures
        register_of(text, rules) matches Ok(Some(m)) ==> {
            &&& discord(m.committed_at, m.commit_attempted, m.reveal_tx, m.revealed_at, rules)
                is None
            &&& m.salt.len() == 32
            &&& m.record_name == encode_utf8(m.name)
            &&& (m.revealed_at matches Some(at) ==> m.committed_at is Some && m.reveal_tx is Some
                && m.commit_attempted && in_window(m.committed_at->0, rules, at))
        },
{
}

/// A registration in the oldest layout is taken as attempted: it cannot show
/// that its commit was never sent.
pub proof fn law_the_oldest_layout_counts_as_attempted(text: Seq<char>, rules: NameRules)
    requires
        lines_of(text).len() > 0,
        lines_of(text)[0] == REG_HEADER_V1@,
    ensures
        register_of(text, rules) matches Ok(Some(m)) ==> m.commit_attempted,
{
    reveal_strlit("qumbra-wallet names-reg v1");
    reveal_strlit("qumbra-wallet names-reg v2");
    reveal_strlit("qumbra-wallet names-reg v3");
    assert(REG_HEADER_V1@[25] != REG_HEADER_V2@[25]);
    assert(REG_HEADER_V1@[25] != REG_HEADER@[25]);
}

/// The reveal that the synced names show can be kept: a sound registration with
/// a kept reveal stays sound with its height, and is confirmed from then on at
/// every height.
pub proof fn law_an_observed_reveal_is_kept(
    names: Map<Seq<char>, EntryModel>,
    m: RegisterModel,
    rules: NameRules,
    tip: u64,
)
    requires
        sound(m, rules),
        m.reveal_tx is Some,
        observed(names, m, rules) is Some,
    ensures
        ({
            let at = observed(names, m, rules);
            &&& sound(RegisterModel { revealed_at: at, ..m }, rules)
            &&& step_at(m.committed_at, at, tip, rules) == (RegisterStep::RevealConfirmed {
                at: at->0,
            })
        }),
{
}

/// With a commit and no reveal, every height is before the window, in it or
/// past it; once the window has closed it stays closed.
pub proof fn law_a_closed_window_stays_closed(h: u64, rules: NameRules, tip: u64, later: u64)
    requires
        tip <= later,
        step_at(Some(h), None, tip, rules) is WindowClosed,
    ensures
        step_at(Some(h), None, later, rules) is WindowClosed,
{
}

/// Where a registration stands is told by what was seen of it and by the height:
/// a reveal that was seen is confirmed where it was seen; without a commit one is
/// needed; and with a commit the height is before its window, in it, or past it.
pub proof fn law_a_step_is_told_by_the_window(
    committed: Option<u64>,
    revealed: Option<u64>,
    tip: u64,
    rules: NameRules,
)
    requires
        committed matches Some(h) ==> h + rules.commit_min_age <= u64::MAX && h
            + rules.commit_max_age <= u64::MAX,
    ensures
        match step_at(committed, revealed, tip, rules) {
            RegisterStep::RevealConfirmed { at } => revealed == Some(at),
            RegisterStep::NeedsCommit => revealed is None && committed is None,
            RegisterStep::WaitForWindow { at } => revealed is None && committed is Some && at
                == committed->0 + rules.commit_min_age && tip < at,
            RegisterStep::RevealNow { closes } => revealed is None && committed is Some
                && committed->0 + rules.commit_min_age <= tip <= closes && closes == committed->0
                + rules.commit_max_age,
            RegisterStep::WindowClosed => revealed is None && committed is Some && tip
                > committed->0 + rules.commit_max_age,
        },
{
}

/// A reveal counts as seen exactly if the names bind this registration's name to
/// its own kind and address, from a height inside its commit's window.
pub proof fn law_only_the_own_reveal_is_observed(
    names: Map<Seq<char>, EntryModel>,
    m: RegisterModel,
    rules: NameRules,
)
    ensures
        observed(names, m, rules) is Some <==> {
            &&& m.committed_at is Some
            &&& names.dom().contains(m.name)
            &&& names[m.name].kind == m.kind
            &&& names[m.name].address == m.address
            &&& m.committed_at->0 + rules.commit_min_age <= names[m.name].registered
            &&& names[m.name].registered <= m.committed_at->0 + rules.commit_max_age
            &&& m.committed_at->0 + rules.commit_max_age <= u64::MAX
        },
        observed(names, m, rules) matches Some(at) ==> at == names[m.name].registered,
{
}

/// What a registration's parts have to agree on: a reveal that was seen has a
/// commit height, a kept transaction and a height inside the window; a kept
/// transaction has a commit height and a commit that was attempted.
pub proof fn law_registrations_agree_exactly(
    committed: Option<u64>,
    attempted: bool,
    tx: Option<Seq<u8>>,
    revealed: Option<u64>,
    rules: NameRules,
)
    ensures
        discord(committed, attempted, tx, revealed, rules) is None <==> {
            &&& tx is Some ==> committed is Some && attempted
            &&& revealed is Some ==> {
                &&& committed is Some && tx is Some
                &&& committed->0 + rules.commit_min_age <= revealed->0
                &&& revealed->0 <= committed->0 + rules.commit_max_age
                &&& committed->0 + rules.commit_max_age <= u64::MAX
            }
        },
{
}

/// What is said of a name that cannot be registered.
pub open spec fn bad_name_text(bare: Seq<char>) -> Seq<char> {
    debug_text(bare)
        + " fails the v1 name grammar (a-z 0-9, interior hyphens, 1-63 bytes)"@
}

fn bad_name(bare: &str) -> (r: String)
    ensures
        r@ == bad_name_text(bare@),
{
    let mut e = debug_of(bare);
    e.append(" fails the v1 name grammar (a-z 0-9, interior hyphens, 1-63 bytes)");
    e
}

/// A registration that was prepared: the one in flight, or what a new one is
/// made of.
#[derive(Clone, Debug)]
#[allow(inconsistent_fields)]
pub enum Prepared {
    /// The registration of this name that is in flight.
    Resumed(RegisterState),
    /// The address of `index` and this salt are the new registration's own.
    Fresh { name: String, index: u64, salt: [u8; 32] },
}

/// The registration that a kept text says is in flight.
pub open spec fn in_flight(kept: Option<&str>, rules: NameRules) -> Result<
    Option<RegisterModel>,
    Seq<char>,
> {
    match kept {
        None => Ok(None),
        Some(t) => register_of(t@, rules),
    }
}

/// Prepares a registration; `valid` is the chain's verdict on the bare name and
/// `kept` the text of the one in flight. A name that is in flight is taken up
/// again and allocates nothing; while another is, none is begun.
///
/// Nothing is said of a fresh salt: it is random.
pub fn prepare_registration(
    wallet: &mut WalletDir,
    name: &str,
    valid: bool,
    kept: Option<&str>,
    rules: &NameRules,
) -> (r: Result<Prepared, String>)
    requires
        valid && in_flight(kept, *rules) == Ok::<Option<RegisterModel>, Seq<char>>(None)
            ==> next_index(old(wallet).allocated@) <= u64::MAX,
    ensures
        ({
            let bare = bare_of(name@);
            let flight = in_flight(kept, *rules);
            if !valid {
                *final(wallet) == *old(wallet) && (r matches Err(e) && e@ == bad_name_text(bare))
            } else {
                match flight {
                    Err(why) => *final(wallet) == *old(wallet) && (r matches Err(e) && e@ == why),
                    Ok(Some(m)) => *final(wallet) == *old(wallet) && if m.name == bare {
                        r matches Ok(Prepared::Resumed(s)) && s@ == m
                    } else {
                        r matches Err(e) && e@ == "a registration for "@ + m.name
                            + " is already in flight"@
                    },
                    Ok(None) => {
                        let next = next_index(old(wallet).allocated@) as u64;
                        &&& final(wallet).allocated@ == old(wallet).allocated@.push(next)
                        &&& final(wallet).dir == old(wallet).dir
                        &&& final(wallet).seed == old(wallet).seed
                        &&& r matches Ok(Prepared::Fresh { name: n, index, salt: _ }) && n@ == bare
                            && index == next
                    },
                }
            }
        }),
{
    let bare = bare_name(name);
    if !valid {
        return Err(bad_name(bare.as_str()));
    }
    match RegisterState::load(kept, rules) {
        Err(e) => Err(e),
        Ok(Some(state)) => {
            if str_eq(state.name.as_str(), bare.as_str()) {
                return Ok(Prepared::Resumed(state));
            }
            let mut e: String = "a registration for ".to_owned();
            e.append(state.name.as_str());
            e.append(" is already in flight");
            Err(e)
        },
        Ok(None) => {
            let index: u64 = wallet.allocate_next();
            Ok(Prepared::Fresh { name: bare, index, salt: os_seed() })
        },
    }
}

/// A new registration: the name bound to an address of a kind, with a salt of
/// its own.
pub fn registration(name: &str, kind: u8, address: Vec<u8>, salt: [u8; 32]) -> (r: RegisterState)
    ensures
        r@ == (RegisterModel {
            name: name@,
            kind,
            record_name: encode_utf8(name@),
            address: address@,
            salt: salt@,
            committed_at: None,
            commit_attempted: false,
            reveal_tx: None,
            revealed_at: None,
        }),
{
    let record = NameRecord { kind, name: copied(name.as_bytes()), address };
    RegisterState::new(name, record, salt)
}

/// The op that renews a name, where the name can be registered: `valid` is the
/// chain's verdict on the bare name.
pub fn renewal_op(name: &str, valid: bool) -> (r: Result<NameOp, String>)
    ensures
        ({
            let bare = bare_of(name@);
            if valid {
                r matches Ok(NameOp::Renew { name: n }) && n@ == encode_utf8(bare)
            } else {
                r matches Err(e) && e@ == bad_name_text(bare)
            }
        }),
{
    let bare = bare_name(name);
    if !valid {
        return Err(bad_name(bare.as_str()));
    }
    Ok(NameOp::Renew { name: copied(bare.as_str().as_bytes()) })
}

} // verus!
