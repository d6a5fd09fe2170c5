//! `sends.v1`: the wallet's memory of its own sends.
//!
//! The chain tells a wallet everything about its past but whom it paid, so that
//! is written down when a send is made. The join with the chain runs on the
//! nullifiers that the send declared. A file that is not understood is refused
//! whole, never read in part.
use crate::bytes32::contains32;
#[allow(unused_imports)]
use crate::bytes32::holds32;
use crate::text::{
    bytes32_of, chars_of, debug_of, hex_of, lines, parse_u64, push_dec, push_hex, split,
    split_once, string_of, text_is,
};
#[allow(unused_imports)]
use crate::text::{
    bytes32_text, debug_text, dec, hex_text, hex_value, lacks, lemma_bytes32_of_hex,
    lemma_dec_lacks, lemma_hex_lacks, lemma_lines_of_first, lemma_number_text_of_dec,
    lemma_parted, lemma_split_first, lemma_split_last, lemma_split_none, lines_of, number_text,
    parted_at, split_on, texts,
};
use vstd::prelude::*;

verus! {

/// The file inside the wallet's directory.
pub const SENDS_FILE: &'static str = "sends.v1";

/// The first line: the one that is written, and the only one that is read.
pub const SENDS_HEADER: &'static str = "qumbra-wallet sends v1";

/// One recorded send: what this wallet knew when it was made.
#[derive(Clone, Debug, PartialEq, Eq)]
pub struct SendRecord {
    pub txid: [u8; 32],
    /// The node's tip when this was submitted, which is not the height at which
    /// it was mined.
    pub submitted_at_tip: u64,
    pub amount: u64,
    pub fee: u64,
    /// The recipient's short address.
    pub recipient_short: String,
    /// The nullifiers that the send declared, on which the join runs.
    pub nullifiers: Vec<[u8; 32]>,
}

/// Why a send log is refused.
#[derive(Debug, PartialEq, Eq)]
#[allow(inconsistent_fields)]
pub enum SendLogError {
    Io(String),
    /// A first line that is not known.
    BadHeader { path: String, got: String },
    /// A record that cannot be read.
    BadRecord { path: String, line: usize, why: String },
}

impl SendLogError {
    /// The sentence that a person is shown.
    pub open spec fn text(&self) -> Seq<char> {
        match self {
            SendLogError::Io(e) => "send log I/O: "@ + e@,
            SendLogError::BadHeader { path, got } => "unreadable send log "@ + path@ + ": header "@ + debug_text(got@) + "; this binary knows `qumbra-wallet sends v1` only. It records only LOCAL enrichment — the recipient of your own past sends — so the safe fix is moving it aside: the ledger degrades to chain-only, which is complete and honest, and no funds are at stake"@,
            SendLogError::BadRecord { path, line, why } => "unreadable send log "@ + path@ + " at line "@ + dec(*line as nat) + ": "@ + why@ + ". Refusing to read a file this binary only partly understands — a half-read send log would put a confident `recipient:` label on the wrong event"@,
        }
    }

    /// The sentence that a person is shown.
    pub fn message(&self) -> (r: String)
        ensures
            r@ == self.text(),
    {
        let mut s: String = String::new();
        match self {
            SendLogError::Io(e) => {
                s.append("send log I/O: ");
                s.append(e.as_str());
            },
            SendLogError::BadHeader { path, got } => {
                s.append("unreadable send log ");
                s.append(path.as_str());
                s.append(": header ");
                { let q = debug_of(got.as_str()); s.append(q.as_str()); }
                s.append("; this binary knows `qumbra-wallet sends v1` only. It records only LOCAL enrichment — the recipient of your own past sends — so the safe fix is moving it aside: the ledger degrades to chain-only, which is complete and honest, and no funds are at stake");
            },
            SendLogError::BadRecord { path, line, why } => {
                s.append("unreadable send log ");
                s.append(path.as_str());
                s.append(" at line ");
                push_dec(&mut s, *line as u64);
                s.append(": ");
                s.append(why.as_str());
                s.append(". Refusing to read a file this binary only partly understands — a half-read send log would put a confident `recipient:` label on the wrong event");
            },
        }
        assert(s@ =~= self.text());
        s
    }
}

/// A [`SendRecord`] as a value.
#[verifier::ext_equal]
pub struct RecordModel {
    pub txid: Seq<u8>,
    pub tip: u64,
    pub amount: u64,
    pub fee: u64,
    pub to: Seq<char>,
    pub nfs: Seq<Seq<u8>>,
}

/// The bytes of each of a row of 32-byte values.
pub open spec fn views32(v: Seq<[u8; 32]>) -> Seq<Seq<u8>> {
    Seq::new(v.len(), |i: int| v[i]@)
}

impl SendRecord {
    pub open spec fn view(&self) -> RecordModel {
        RecordModel {
            txid: self.txid@,
            tip: self.submitted_at_tip,
            amount: self.amount,
            fee: self.fee,
            to: self.recipient_short@,
            nfs: views32(self.nullifiers@),
        }
    }
}

/// Records as values, in their order.
pub open spec fn record_models(v: Seq<SendRecord>) -> Seq<RecordModel> {
    Seq::new(v.len(), |i: int| v[i]@)
}

/// 32 bytes in lowercase hexadecimal.
pub fn hex32(b: &[u8; 32]) -> (r: String)
    ensures
        r@ == hex_text(b@),
{
    hex_of(b)
}

/// Reads 64 characters in base 16 as 32 bytes.
pub fn parse_hex32(s: &str) -> (r: Option<[u8; 32]>)
    ensures
        match r {
            Some(b) => bytes32_text(s@) == Some(b@),
            None => bytes32_text(s@) is None,
        },
{
    let v = chars_of(s);
    bytes32_of(&v)
}

/// The first `n` nullifiers in hexadecimal with `,` between them.
pub open spec fn nfs_text(nfs: Seq<Seq<u8>>, n: int) -> Seq<char>
    decreases n,
{
    if n <= 0 {
        Seq::empty()
    } else if n == 1 {
        hex_text(nfs[0])
    } else {
        nfs_text(nfs, n - 1) + ","@ + hex_text(nfs[n - 1])
    }
}

/// The line of a record.
pub open spec fn record_text(r: RecordModel) -> Seq<char> {
    "send txid="@ + hex_text(r.txid) + " tip="@ + dec(r.tip as nat) + " amount="@ + dec(
        r.amount as nat,
    ) + " fee="@ + dec(r.fee as nat) + " to="@ + r.to + " nf="@ + nfs_text(
        r.nfs,
        r.nfs.len() as int,
    )
}

/// The line of a record.
pub fn encode_record(r: &SendRecord) -> (s: String)
    ensures
        s@ == record_text(r@),
{
    let mut s: String = String::new();
    s.append("send txid=");
    push_hex(&mut s, &r.txid);
    s.append(" tip=");
    push_dec(&mut s, r.submitted_at_tip);
    s.append(" amount=");
    push_dec(&mut s, r.amount);
    s.append(" fee=");
    push_dec(&mut s, r.fee);
    s.append(" to=");
    s.append(r.recipient_short.as_str());
    s.append(" nf=");
    let ghost head = s@;
    let ghost nfs = views32(r.nullifiers@);
    let mut i: usize = 0;
    assert(s@ =~= head + nfs_text(nfs, 0));
    while i < r.nullifiers.len()
        invariant
            i <= r.nullifiers@.len(),
            nfs == views32(r.nullifiers@),
            s@ == head + nfs_text(nfs, i as int),
        decreases r.nullifiers@.len() - i,
    {
        if i > 0 {
            s.append(",");
        }
        push_hex(&mut s, &r.nullifiers[i]);
        i += 1;
        assert(s@ =~= head + nfs_text(nfs, i as int));
    }
    assert(s@ =~= record_text(r@));
    s
}

/// What has been read of a record so far.
#[verifier::ext_equal]
pub struct FieldsModel {
    pub txid: Option<Seq<u8>>,
    pub tip: Option<u64>,
    pub amount: Option<u64>,
    pub fee: Option<u64>,
    pub to: Option<Seq<char>>,
    pub nfs: Option<Seq<Seq<u8>>>,
}

/// A number, or what is said of a value that is none.
pub open spec fn number_or(key: Seq<char>, value: Seq<char>) -> Result<u64, Seq<char>> {
    match number_text(value, u64::MAX as nat) {
        Some(n) => Ok(n as u64),
        None => Err(key + " "@ + debug_text(value)),
    }
}

/// The nullifiers among the first `n` pieces; empty pieces are left out.
pub open spec fn nfs_of(pieces: Seq<Seq<char>>, n: int) -> Result<Seq<Seq<u8>>, Seq<char>>
    decreases n,
{
    if n <= 0 {
        Ok(Seq::empty())
    } else {
        match nfs_of(pieces, n - 1) {
            Err(e) => Err(e),
            Ok(v) => if pieces[n - 1].len() == 0 {
                Ok(v)
            } else {
                match bytes32_text(pieces[n - 1]) {
                    Some(b) => Ok(v.push(b)),
                    None => Err(
                        "nullifier "@ + debug_text(pieces[n - 1]) + " is not 32 hex bytes"@,
                    ),
                }
            },
        }
    }
}

/// The fields with one more read, or what is wrong with it. The last of two
/// fields of one name counts.
pub open spec fn with_field(f: FieldsModel, field: Seq<char>) -> Result<FieldsModel, Seq<char>> {
    match parted_at(field, '=') {
        None => Err("field "@ + debug_text(field) + " is not key=value"@),
        Some((key, value)) => {
            if key == "txid"@ {
                match bytes32_text(value) {
                    Some(b) => Ok(FieldsModel { txid: Some(b), ..f }),
                    None => Err("txid is not 32 hex bytes"@),
                }
            } else if key == "tip"@ {
                match number_or("tip"@, value) {
                    Ok(n) => Ok(FieldsModel { tip: Some(n), ..f }),
                    Err(e) => Err(e),
                }
            } else if key == "amount"@ {
                match number_or("amount"@, value) {
                    Ok(n) => Ok(FieldsModel { amount: Some(n), ..f }),
                    Err(e) => Err(e),
                }
            } else if key == "fee"@ {
                match number_or("fee"@, value) {
                    Ok(n) => Ok(FieldsModel { fee: Some(n), ..f }),
                    Err(e) => Err(e),
                }
            } else if key == "to"@ {
                Ok(FieldsModel { to: Some(value), ..f })
            } else if key == "nf"@ {
                let pieces = split_on(value, ',');
                match nfs_of(pieces, pieces.len() as int) {
                    Err(e) => Err(e),
                    Ok(v) => if v.len() == 0 {
                        Err("a send declares at least one nullifier"@)
                    } else {
                        Ok(FieldsModel { nfs: Some(v), ..f })
                    },
                }
            } else {
                Err(
                    "unknown field `"@ + key
                        + "`; this binary reads txid/tip/amount/fee/to/nf only"@,
                )
            }
        },
    }
}

pub open spec fn no_fields() -> FieldsModel {
    FieldsModel { txid: None, tip: None, amount: None, fee: None, to: None, nfs: None }
}

/// The fields from place 1 to `n`.
pub open spec fn fields_to(fields: Seq<Seq<char>>, n: int) -> Result<FieldsModel, Seq<char>>
    decreases n,
{
    if n <= 1 {
        Ok(no_fields())
    } else {
        match fields_to(fields, n - 1) {
            Err(e) => Err(e),
            Ok(f) => with_field(f, fields[n - 1]),
        }
    }
}

/// The record that fields make, or what is missing.
pub open spec fn whole(f: FieldsModel) -> Result<RecordModel, Seq<char>> {
    if f.txid is None {
        Err("no txid"@)
    } else if f.tip is None {
        Err("no tip"@)
    } else if f.amount is None {
        Err("no amount"@)
    } else if f.fee is None {
        Err("no fee"@)
    } else if f.to is None {
        Err("no to"@)
    } else if f.nfs is None {
        Err("no nf"@)
    } else {
        Ok(
            RecordModel {
                txid: f.txid->0,
                tip: f.tip->0,
                amount: f.amount->0,
                fee: f.fee->0,
                to: f.to->0,
                nfs: f.nfs->0,
            },
        )
    }
}

/// What a record's line means, or what is wrong with it.
pub open spec fn record_of(line: Seq<char>) -> Result<RecordModel, Seq<char>> {
    let fields = split_on(line, ' ');
    if fields[0] != "send"@ {
        Err(
            "record kind Some("@ + debug_text(fields[0])
                + ") is not one this binary knows (it knows `send`)"@,
        )
    } else {
        match fields_to(fields, fields.len() as int) {
            Err(e) => Err(e),
            Ok(f) => whole(f),
        }
    }
}

/// What is wrong with a log: its first line, or a record and its line.
#[allow(inconsistent_fields)]
pub enum LogFault {
    Header { got: Seq<char> },
    Record { line: nat, why: Seq<char> },
}

/// The records of the lines from place 1 to `n`; empty lines are left out.
pub open spec fn records_to(all: Seq<Seq<char>>, n: int) -> Result<Seq<RecordModel>, LogFault>
    decreases n,
{
    if n <= 1 {
        Ok(Seq::empty())
    } else {
        match records_to(all, n - 1) {
            Err(e) => Err(e),
            Ok(v) => if all[n - 1].len() == 0 {
                Ok(v)
            } else {
                match record_of(all[n - 1]) {
                    Ok(r) => Ok(v.push(r)),
                    Err(why) => Err(LogFault::Record { line: n as nat, why }),
                }
            },
        }
    }
}

/// The last line of a text has no line feed: a write that was cut off.
pub open spec fn torn(text: Seq<char>) -> bool {
    text.len() > 0 && text.last() != '\n'
}

/// What is said of a record whose line was cut off.
pub const TORN_LINE: &'static str = "the line is torn: it has no line feed";

/// What a send log's text means. A record whose line was cut off is refused,
/// even where what is left of it reads as a shorter record.
pub open spec fn log_of(text: Seq<char>) -> Result<Seq<RecordModel>, LogFault> {
    let all = lines_of(text);
    if all.len() == 0 {
        Err(LogFault::Header { got: Seq::empty() })
    } else if all[0] != SENDS_HEADER@ {
        Err(LogFault::Header { got: all[0] })
    } else {
        match records_to(all, all.len() as int) {
            Err(e) => Err(e),
            Ok(v) => if all.len() > 1 && torn(text) {
                Err(LogFault::Record { line: all.len(), why: TORN_LINE@ })
            } else {
                Ok(v)
            },
        }
    }
}

/// The fields of a record as they are read.
struct Fields {
    txid: Option<[u8; 32]>,
    tip: Option<u64>,
    amount: Option<u64>,
    fee: Option<u64>,
    to: Option<Vec<char>>,
    nfs: Option<Vec<[u8; 32]>>,
}

impl Fields {
    spec fn view(&self) -> FieldsModel {
        FieldsModel {
            txid: match self.txid {
                Some(b) => Some(b@),
                None => None,
            },
            tip: self.tip,
            amount: self.amount,
            fee: self.fee,
            to: match self.to {
                Some(v) => Some(v@),
                None => None,
            },
            nfs: match self.nfs {
                Some(v) => Some(views32(v@)),
                None => None,
            },
        }
    }
}

/// `said` is what is wrong, in words.
fn quoted(head: &str, v: &[char], tail: &str) -> (r: String)
    ensures
        r@ == head@ + debug_text(v@) + tail@,
{
    let mut e: String = head.to_owned();
    let shown = string_of(v);
    let q = debug_of(shown.as_str());
    e.append(q.as_str());
    e.append(tail);
    e
}

fn read_number(key: &str, value: &[char]) -> (r: Result<u64, String>)
    ensures
        match (r, number_or(key@, value@)) {
            (Ok(a), Ok(b)) => a == b,
            (Err(a), Err(b)) => a@ == b,
            _ => false,
        },
{
    match parse_u64(value) {
        Some(n) => Ok(n),
        None => {
            let mut e: String = key.to_owned();
            e.append(" ");
            let shown = string_of(value);
            let q = debug_of(shown.as_str());
            e.append(q.as_str());
            Err(e)
        },
    }
}

fn read_nfs(value: &[char]) -> (r: Result<Vec<[u8; 32]>, String>)
    ensures
        ({
            let pieces = split_on(value@, ',');
            match (r, nfs_of(pieces, pieces.len() as int)) {
                (Ok(a), Ok(b)) => views32(a@) == b && a@.len() > 0,
                (Err(a), Err(b)) => a@ == b,
                (Err(a), Ok(b)) => b.len() == 0 && a@ == "a send declares at least one nullifier"@,
                _ => false,
            }
        }),
{
    let pieces = split(value, ',');
    let ghost all = texts(pieces@);
    let mut out: Vec<[u8; 32]> = Vec::new();
    let mut i: usize = 0;
    assert(views32(out@) =~= Seq::empty());
    while i < pieces.len()
        invariant
            i <= pieces@.len(),
            all == texts(pieces@),
            all == split_on(value@, ','),
            nfs_of(all, i as int) == Ok::<Seq<Seq<u8>>, Seq<char>>(views32(out@)),
        decreases pieces@.len() - i,
    {
        assert(all[i as int] == pieces@[i as int]@);
        if pieces[i].len() > 0 {
            match bytes32_of(&pieces[i]) {
                Some(b) => {
                    let ghost before = views32(out@);
                    out.push(b);
                    assert(views32(out@) =~= before.push(b@));
                },
                None => {
                    let e = quoted("nullifier ", &pieces[i], " is not 32 hex bytes");
                    proof {
                        lemma_nfs_err(all, i + 1, all.len() as int);
                    }
                    return Err(e);
                },
            }
        }
        i += 1;
    }
    if out.len() == 0 {
        return Err("a send declares at least one nullifier".to_owned());
    }
    Ok(out)
}

proof fn lemma_nfs_err(pieces: Seq<Seq<char>>, n: int, m: int)
    requires
        n <= m,
        nfs_of(pieces, n) is Err,
    ensures
        nfs_of(pieces, m) == nfs_of(pieces, n),
    decreases m - n,
{
    if n < m {
        lemma_nfs_err(pieces, n, m - 1);
    }
}

/// Reads one more field.
fn read_field(f: &mut Fields, field: &[char]) -> (r: Result<(), String>)
    ensures
        match (r, with_field(old(f)@, field@)) {
            (Ok(_), Ok(g)) => final(f)@ == g,
            (Err(a), Err(b)) => a@ == b,
            _ => false,
        },
{
    match split_once(field, '=') {
        None => Err(quoted("field ", field, " is not key=value")),
        Some((key, value)) => {
            if text_is(&key, "txid") {
                match bytes32_of(&value) {
                    Some(b) => {
                        f.txid = Some(b);
                        Ok(())
                    },
                    None => Err("txid is not 32 hex bytes".to_owned()),
                }
            } else if text_is(&key, "tip") {
                match read_number("tip", &value) {
                    Ok(n) => {
                        f.tip = Some(n);
                        Ok(())
                    },
                    Err(e) => Err(e),
                }
            } else if text_is(&key, "amount") {
                match read_number("amount", &value) {
                    Ok(n) => {
                        f.amount = Some(n);
                        Ok(())
                    },
                    Err(e) => Err(e),
                }
            } else if text_is(&key, "fee") {
                match read_number("fee", &value) {
                    Ok(n) => {
                        f.fee = Some(n);
                        Ok(())
                    },
                    Err(e) => Err(e),
                }
            } else if text_is(&key, "to") {
                f.to = Some(value);
                Ok(())
            } else if text_is(&key, "nf") {
                match read_nfs(&value) {
                    Ok(v) => {
                        f.nfs = Some(v);
                        Ok(())
                    },
                    Err(e) => Err(e),
                }
            } else {
                let mut e: String = "unknown field `".to_owned();
                let shown = string_of(&key);
                e.append(shown.as_str());
                e.append("`; this binary reads txid/tip/amount/fee/to/nf only");
                Err(e)
            }
        },
    }
}

proof fn lemma_fields_err(fields: Seq<Seq<char>>, n: int, m: int)
    requires
        n <= m,
        fields_to(fields, n) is Err,
    ensures
        fields_to(fields, m) == fields_to(fields, n),
    decreases m - n,
{
    if n < m {
        lemma_fields_err(fields, n, m - 1);
    }
}

fn make_record(f: Fields) -> (r: Result<SendRecord, String>)
    ensures
        match (r, whole(f@)) {
            (Ok(a), Ok(b)) => a@ == b,
            (Err(a), Err(b)) => a@ == b,
            _ => false,
        },
{
    match (f.txid, f.tip, f.amount, f.fee, f.to, f.nfs) {
        (Some(txid), Some(submitted_at_tip), Some(amount), Some(fee), Some(to), Some(nullifiers))
            => {
            let recipient_short = string_of(&to);
            Ok(SendRecord { txid, submitted_at_tip, amount, fee, recipient_short, nullifiers })
        },
        (None, _, _, _, _, _) => Err("no txid".to_owned()),
        (_, None, _, _, _, _) => Err("no tip".to_owned()),
        (_, _, None, _, _, _) => Err("no amount".to_owned()),
        (_, _, _, None, _, _) => Err("no fee".to_owned()),
        (_, _, _, _, None, _) => Err("no to".to_owned()),
        (_, _, _, _, _, None) => Err("no nf".to_owned()),
    }
}

/// Reads a record's line.
pub fn parse_record(text: &[char]) -> (r: Result<SendRecord, String>)
    ensures
        match (r, record_of(text@)) {
            (Ok(a), Ok(b)) => a@ == b,
            (Err(a), Err(b)) => a@ == b,
            _ => false,
        },
{
    let fields = split(text, ' ');
    let ghost all = texts(fields@);
    proof {
        lemma_split_some(text@, ' ');
    }
    assert(all[0] == fields@[0]@);
    if !text_is(&fields[0], "send") {
        return Err(
            quoted(
                "record kind Some(",
                &fields[0],
                ") is not one this binary knows (it knows `send`)",
            ),
        );
    }
    let mut f = Fields { txid: None, tip: None, amount: None, fee: None, to: None, nfs: None };
    let mut i: usize = 1;
    assert(f@ =~= no_fields());
    while i < fields.len()
        invariant
            1 <= i <= fields@.len(),
            all == texts(fields@),
            all == split_on(text@, ' '),
            all[0] == "send"@,
            fields_to(all, i as int) == Ok::<FieldsModel, Seq<char>>(f@),
        decreases fields@.len() - i,
    {
        assert(all[i as int] == fields@[i as int]@);
        if let Err(e) = read_field(&mut f, &fields[i]) {
            proof {
                lemma_fields_err(all, i + 1, all.len() as int);
            }
            return Err(e);
        }
        i += 1;
    }
    make_record(f)
}

proof fn lemma_split_some(t: Seq<char>, c: char)
    ensures
        split_on(t, c).len() > 0,
    decreases t.len(),
{
    crate::text::lemma_position(t, c);
}

/// The whole log, in the order it was written.
#[derive(Clone, Debug)]
pub struct SendLog {
    pub records: Vec<SendRecord>,
}

/// The refusal that names what is wrong with a log.
pub open spec fn log_refusal(e: SendLogError, fault: LogFault, path: Seq<char>) -> bool {
    match fault {
        LogFault::Header { got } => e matches SendLogError::BadHeader { path: p, got: g } && p@
            == path && g@ == got,
        LogFault::Record { line, why } => e matches SendLogError::BadRecord {
            path: p,
            line: l,
            why: w,
        } && p@ == path && l == line && w@ == why,
    }
}

proof fn lemma_records_err(all: Seq<Seq<char>>, n: int, m: int)
    requires
        n <= m,
        records_to(all, n) is Err,
    ensures
        records_to(all, m) == records_to(all, n),
    decreases m - n,
{
    if n < m {
        lemma_records_err(all, n, m - 1);
    }
}

/// Reads a log's text; `path` is named in a refusal.
pub fn parse(path: &str, text: &str) -> (r: Result<SendLog, SendLogError>)
    ensures
        match (r, log_of(text@)) {
            (Ok(log), Ok(v)) => record_models(log.records@) == v,
            (Err(e), Err(fault)) => log_refusal(e, fault, path@),
            _ => false,
        },
{
    let chars = chars_of(text);
    let all = lines(&chars);
    let ghost ls = texts(all@);
    if all.len() == 0 {
        return Err(SendLogError::BadHeader { path: path.to_owned(), got: String::new() });
    }
    assert(ls[0] == all@[0]@);
    if !text_is(&all[0], SENDS_HEADER) {
        return Err(
            SendLogError::BadHeader { path: path.to_owned(), got: string_of(&all[0]) },
        );
    }
    let mut records: Vec<SendRecord> = Vec::new();
    let mut i: usize = 1;
    assert(record_models(records@) =~= Seq::empty());
    while i < all.len()
        invariant
            1 <= i <= all@.len(),
            ls == texts(all@),
            ls == lines_of(text@),
            ls[0] == SENDS_HEADER@,
            records_to(ls, i as int) == Ok::<Seq<RecordModel>, LogFault>(record_models(records@)),
        decreases all@.len() - i,
    {
        assert(ls[i as int] == all@[i as int]@);
        if all[i].len() > 0 {
            match parse_record(&all[i]) {
                Ok(r) => {
                    let ghost before = record_models(records@);
                    records.push(r);
                    assert(record_models(records@) =~= before.push(r@));
                },
                Err(why) => {
                    proof {
                        lemma_records_err(ls, i + 1, ls.len() as int);
                    }
                    return Err(
                        SendLogError::BadRecord { path: path.to_owned(), line: i + 1, why },
                    );
                },
            }
        }
        i += 1;
    }
    if all.len() > 1 && chars.len() > 0 && chars[chars.len() - 1] != '\n' {
        return Err(
            SendLogError::BadRecord {
                path: path.to_owned(),
                line: all.len(),
                why: TORN_LINE.to_owned(),
            },
        );
    }
    Ok(SendLog { records })
}

/// What is appended for a record: the header first where the file is new.
pub open spec fn appended(fresh: bool, r: RecordModel) -> Seq<char> {
    if fresh {
        SENDS_HEADER@ + "\n"@ + record_text(r) + "\n"@
    } else {
        record_text(r) + "\n"@
    }
}

/// What is appended for a record: the header first where the file is new.
pub fn append_text(fresh: bool, record: &SendRecord) -> (s: String)
    ensures
        s@ == appended(fresh, record@),
{
    let mut s: String = String::new();
    if fresh {
        s.append(SENDS_HEADER);
        s.append("\n");
    }
    let line = encode_record(record);
    s.append(line.as_str());
    s.append("\n");
    assert(s@ =~= appended(fresh, record@));
    s
}

/// Some nullifier of the record is among the spent ones.
pub open spec fn joins(r: SendRecord, spent: Seq<[u8; 32]>) -> bool {
    exists|i: int| 0 <= i < r.nullifiers@.len() && holds32(spent, #[trigger] r.nullifiers@[i]@)
}

/// The records among the first `n` that join, in their order.
pub open spec fn joined_to<'a>(records: Seq<SendRecord>, spent: Seq<[u8; 32]>, n: int) -> Seq<&'a SendRecord>
    decreases n,
{
    if n <= 0 {
        Seq::empty()
    } else if joins(records[n - 1], spent) {
        joined_to(records, spent, n - 1).push(&records[n - 1])
    } else {
        joined_to(records, spent, n - 1)
    }
}

/// The records that join are exactly those that declared a nullifier among the
/// spent ones: every such record is there, and no other.
pub proof fn law_a_record_joins_by_its_nullifiers(
    records: Seq<SendRecord>,
    spent: Seq<[u8; 32]>,
    n: int,
)
    requires
        0 <= n <= records.len(),
    ensures
        forall|k: int|
            0 <= k < n ==> (joined_to(records, spent, n).contains(&#[trigger] records[k]) <==> exists|
                i: int,
                j: int,
            |
                0 <= i < records[k].nullifiers@.len() && 0 <= j < spent.len() && (
                #[trigger] records[k].nullifiers@[i])@ == (#[trigger] spent[j])@),
        forall|k: int|
            0 <= k < joined_to(records, spent, n).len() ==> records.contains(
                *#[trigger] joined_to(records, spent, n)[k],
            ),
{
    lemma_joined(records, spent, n);
    let all = joined_to(records, spent, n);
    assert forall|k: int| 0 <= k < n implies (all.contains(&#[trigger] records[k]) <==> exists|
        i: int,
        j: int,
    |
        0 <= i < records[k].nullifiers@.len() && 0 <= j < spent.len() && (
        #[trigger] records[k].nullifiers@[i])@ == (#[trigger] spent[j])@) by {
        let r = records[k];
        if all.contains(&r) {
            let m = choose|m: int| 0 <= m < all.len() && all[m] == &r;
            assert(joins(*all[m], spent));
            let i = choose|i: int|
                0 <= i < r.nullifiers@.len() && holds32(spent, #[trigger] r.nullifiers@[i]@);
            let j = choose|j: int| 0 <= j < spent.len() && (#[trigger] spent[j])@
                == r.nullifiers@[i]@;
            assert(r.nullifiers@[i]@ == spent[j]@);
        }
        if exists|i: int, j: int|
            0 <= i < r.nullifiers@.len() && 0 <= j < spent.len() && (#[trigger] r.nullifiers@[i])@
                == (#[trigger] spent[j])@ {
            let (i, j) = choose|i: int, j: int|
                0 <= i < r.nullifiers@.len() && 0 <= j < spent.len() && (
                #[trigger] r.nullifiers@[i])@ == (#[trigger] spent[j])@;
            assert(holds32(spent, r.nullifiers@[i]@));
            assert(joins(r, spent));
        }
    }
}

proof fn lemma_joined(records: Seq<SendRecord>, spent: Seq<[u8; 32]>, n: int)
    requires
        0 <= n <= records.len(),
    ensures
        forall|k: int|
            0 <= k < n && joins(#[trigger] records[k], spent) ==> joined_to(
                records,
                spent,
                n,
            ).contains(&records[k]),
        forall|k: int|
            0 <= k < joined_to(records, spent, n).len() ==> joins(
                *#[trigger] joined_to(records, spent, n)[k],
                spent,
            ) && records.contains(*joined_to(records, spent, n)[k]),
    decreases n,
{
    if n > 0 {
        lemma_joined(records, spent, n - 1);
        let was = joined_to(records, spent, n - 1);
        let now = joined_to(records, spent, n);
        assert forall|k: int| 0 <= k < n && joins(#[trigger] records[k], spent) implies now.contains(
            &records[k],
        ) by {
            if k < n - 1 {
                assert(was.contains(&records[k]));
                let m = choose|m: int| 0 <= m < was.len() && was[m] == &records[k];
                assert(now[m] == was[m]);
            } else {
                assert(now[was.len() as int] == &records[n - 1]);
            }
        }
        assert forall|k: int| 0 <= k < now.len() implies joins(*#[trigger] now[k], spent)
            && records.contains(*now[k]) by {
            if k < was.len() {
                assert(now[k] == was[k]);
            } else {
                assert(records[n - 1] == *now[k]);
            }
        }
    }
}

impl SendLog {
    /// The records that declared one of the spent nullifiers.
    pub fn matching<'a>(&'a self, spent: &[[u8; 32]]) -> (r: Vec<&'a SendRecord>)
        ensures
            r@ == joined_to(self.records@, spent@, self.records@.len() as int),
    {
        let mut r: Vec<&'a SendRecord> = Vec::new();
        let mut i: usize = 0;
        assert(r@ =~= joined_to(self.records@, spent@, 0));
        while i < self.records.len()
            invariant
                i <= self.records@.len(),
                r@ == joined_to(self.records@, spent@, i as int),
            decreases self.records@.len() - i,
        {
            let record = &self.records[i];
            let mut found = false;
            let mut k: usize = 0;
            while k < record.nullifiers.len() && !found
                invariant
                    k <= record.nullifiers@.len(),
                    found ==> joins(*record, spent@),
                    !found ==> forall|j: int|
                        0 <= j < k ==> !holds32(spent@, #[trigger] record.nullifiers@[j]@),
                decreases record.nullifiers@.len() - k,
            {
                if contains32(spent, &record.nullifiers[k]) {
                    found = true;
                }
                k += 1;
            }
            if found {
                r.push(record);
            }
            i += 1;
        }
        r
    }
}

/// A record that its line holds: 32-byte values, at least one nullifier, and a
/// recipient without a space.
pub open spec fn held(r: RecordModel) -> bool {
    &&& r.txid.len() == 32
    &&& r.nfs.len() > 0
    &&& forall|i: int| 0 <= i < r.nfs.len() ==> (#[trigger] r.nfs[i]).len() == 32
    &&& lacks(r.to, ' ')
}

/// A record that a log keeps on one line: its recipient has no line feed either.
pub open spec fn kept(r: RecordModel) -> bool {
    held(r) && lacks(r.to, '\n')
}

proof fn lemma_nfs_split(nfs: Seq<Seq<u8>>, n: int)
    requires
        1 <= n <= nfs.len(),
    ensures
        split_on(nfs_text(nfs, n), ',') == Seq::new(n as nat, |i: int| hex_text(nfs[i])),
    decreases n,
{
    reveal_strlit(",");
    lemma_hex_lacks(nfs[n - 1], ',');
    if n == 1 {
        lemma_split_none(hex_text(nfs[0]), ',');
        assert(split_on(nfs_text(nfs, 1), ',') =~= Seq::new(1, |i: int| hex_text(nfs[i])));
    } else {
        lemma_nfs_split(nfs, n - 1);
        let a = nfs_text(nfs, n - 1);
        assert(nfs_text(nfs, n) =~= a.push(',') + hex_text(nfs[n - 1]));
        lemma_split_last(a, ',', hex_text(nfs[n - 1]));
        assert(split_on(nfs_text(nfs, n), ',') =~= Seq::new(
            n as nat,
            |i: int| hex_text(nfs[i]),
        ));
    }
}

proof fn lemma_nfs_back(nfs: Seq<Seq<u8>>, pieces: Seq<Seq<char>>, k: int)
    requires
        0 <= k <= nfs.len(),
        pieces == Seq::new(nfs.len(), |i: int| hex_text(nfs[i])),
        forall|i: int| 0 <= i < nfs.len() ==> (#[trigger] nfs[i]).len() == 32,
    ensures
        nfs_of(pieces, k) == Ok::<Seq<Seq<u8>>, Seq<char>>(nfs.take(k)),
    decreases k,
{
    if k > 0 {
        lemma_nfs_back(nfs, pieces, k - 1);
        lemma_bytes32_of_hex(nfs[k - 1]);
        assert(nfs.take(k) =~= nfs.take(k - 1).push(nfs[k - 1]));
        assert(hex_text(nfs[k - 1]).len() == 64);
    } else {
        assert(nfs.take(0) =~= Seq::empty());
    }
}

proof fn lemma_nfs_lack(nfs: Seq<Seq<u8>>, n: int, c: char)
    requires
        0 <= n <= nfs.len(),
        hex_value(c) is None,
        c != ',',
    ensures
        lacks(nfs_text(nfs, n), c),
    decreases n,
{
    reveal_strlit(",");
    if n > 0 {
        lemma_nfs_lack(nfs, n - 1, c);
        lemma_hex_lacks(nfs[n - 1], c);
    }
}

/// The fields of a record's line, without the kind.
spec fn record_fields(r: RecordModel) -> Seq<Seq<char>> {
    seq![
        "send"@,
        "txid="@ + hex_text(r.txid),
        "tip="@ + dec(r.tip as nat),
        "amount="@ + dec(r.amount as nat),
        "fee="@ + dec(r.fee as nat),
        "to="@ + r.to,
        "nf="@ + nfs_text(r.nfs, r.nfs.len() as int),
    ]
}

proof fn lemma_strings()
    ensures
        "send txid="@ == "send"@.push(' ') + "txid="@,
        " tip="@ == seq![' '] + "tip="@,
        " amount="@ == seq![' '] + "amount="@,
        " fee="@ == seq![' '] + "fee="@,
        " to="@ == seq![' '] + "to="@,
        " nf="@ == seq![' '] + "nf="@,
        "txid="@ == "txid"@.push('='),
        "tip="@ == "tip"@.push('='),
        "amount="@ == "amount"@.push('='),
        "fee="@ == "fee"@.push('='),
        "to="@ == "to"@.push('='),
        "nf="@ == "nf"@.push('='),
        lacks("send"@, ' ') && lacks("send"@, '\n'),
        lacks("txid="@, ' ') && lacks("txid="@, '\n') && lacks("txid"@, '='),
        lacks("tip="@, ' ') && lacks("tip="@, '\n') && lacks("tip"@, '='),
        lacks("amount="@, ' ') && lacks("amount="@, '\n') && lacks("amount"@, '='),
        lacks("fee="@, ' ') && lacks("fee="@, '\n') && lacks("fee"@, '='),
        lacks("to="@, ' ') && lacks("to="@, '\n') && lacks("to"@, '='),
        lacks("nf="@, ' ') && lacks("nf="@, '\n') && lacks("nf"@, '='),
        "tip"@ != "txid"@,
        "amount"@ != "txid"@ && "amount"@ != "tip"@,
        "fee"@ != "txid"@ && "fee"@ != "tip"@ && "fee"@ != "amount"@,
        "to"@ != "txid"@ && "to"@ != "tip"@ && "to"@ != "amount"@ && "to"@ != "fee"@,
        "nf"@ != "txid"@ && "nf"@ != "tip"@ && "nf"@ != "amount"@ && "nf"@ != "fee"@ && "nf"@
            != "to"@,
        "send"@.len() == 4,
{
    reveal_strlit("send txid=");
    reveal_strlit("send");
    reveal_strlit(" tip=");
    reveal_strlit(" amount=");
    reveal_strlit(" fee=");
    reveal_strlit(" to=");
    reveal_strlit(" nf=");
    reveal_strlit("txid=");
    reveal_strlit("tip=");
    reveal_strlit("amount=");
    reveal_strlit("fee=");
    reveal_strlit("to=");
    reveal_strlit("nf=");
    reveal_strlit("txid");
    reveal_strlit("tip");
    reveal_strlit("amount");
    reveal_strlit("fee");
    reveal_strlit("to");
    reveal_strlit("nf");
    assert("send txid="@ =~= "send"@.push(' ') + "txid="@);
    assert(" tip="@ =~= seq![' '] + "tip="@);
    assert(" amount="@ =~= seq![' '] + "amount="@);
    assert(" fee="@ =~= seq![' '] + "fee="@);
    assert(" to="@ =~= seq![' '] + "to="@);
    assert(" nf="@ =~= seq![' '] + "nf="@);
    assert("txid="@ =~= "txid"@.push('='));
    assert("tip="@ =~= "tip"@.push('='));
    assert("amount="@ =~= "amount"@.push('='));
    assert("fee="@ =~= "fee"@.push('='));
    assert("to="@ =~= "to"@.push('='));
    assert("nf="@ =~= "nf"@.push('='));
    assert("tip"@[1] != "txid"@[1]);
    assert("nf"@[0] != "to"@[0]);
}

proof fn lemma_lacks_add(a: Seq<char>, b: Seq<char>, c: char)
    requires
        lacks(a, c),
        lacks(b, c),
    ensures
        lacks(a + b, c),
{
}

/// A record's text as its fields, joined one by one.
proof fn lemma_record_joined(r: RecordModel)
    ensures
        ({
            let f = record_fields(r);
            record_text(r) == f[0].push(' ') + (f[1].push(' ') + (f[2].push(' ') + (f[3].push(' ')
                + (f[4].push(' ') + (f[5].push(' ') + f[6])))))
        }),
{
    lemma_strings();
    let f = record_fields(r);
    assert(record_text(r) =~= f[0].push(' ') + (f[1].push(' ') + (f[2].push(' ') + (f[3].push(' ')
        + (f[4].push(' ') + (f[5].push(' ') + f[6]))))));
}

/// None of a record's fields holds a character that its values do not.
proof fn lemma_fields_lack(r: RecordModel, c: char)
    requires
        held(r),
        c == ' ' || c == '\n' && kept(r),
    ensures
        forall|i: int| 0 <= i < 7 ==> lacks(#[trigger] record_fields(r)[i], c),
{
    lemma_strings();
    lemma_hex_lacks(r.txid, c);
    lemma_dec_lacks(r.tip as nat, c);
    lemma_dec_lacks(r.amount as nat, c);
    lemma_dec_lacks(r.fee as nat, c);
    lemma_nfs_lack(r.nfs, r.nfs.len() as int, c);
    lemma_lacks_add("txid="@, hex_text(r.txid), c);
    lemma_lacks_add("tip="@, dec(r.tip as nat), c);
    lemma_lacks_add("amount="@, dec(r.amount as nat), c);
    lemma_lacks_add("fee="@, dec(r.fee as nat), c);
    lemma_lacks_add("to="@, r.to, c);
    lemma_lacks_add("nf="@, nfs_text(r.nfs, r.nfs.len() as int), c);
}

proof fn lemma_lacks_joined(a: Seq<char>, b: Seq<char>, c: char)
    requires
        lacks(a, c),
        lacks(b, c),
        c != ' ',
    ensures
        lacks(a.push(' ') + b, c),
{
}

proof fn lemma_record_split(r: RecordModel)
    requires
        held(r),
    ensures
        split_on(record_text(r), ' ') == record_fields(r),
        kept(r) ==> lacks(record_text(r), '\n'),
{
    lemma_record_joined(r);
    lemma_fields_lack(r, ' ');
    let f = record_fields(r);
    let t6 = f[6];
    let t5 = f[5].push(' ') + t6;
    let t4 = f[4].push(' ') + t5;
    let t3 = f[3].push(' ') + t4;
    let t2 = f[2].push(' ') + t3;
    let t1 = f[1].push(' ') + t2;
    let t0 = f[0].push(' ') + t1;
    lemma_split_none(t6, ' ');
    lemma_split_first(f[5], ' ', t6);
    lemma_split_first(f[4], ' ', t5);
    lemma_split_first(f[3], ' ', t4);
    lemma_split_first(f[2], ' ', t3);
    lemma_split_first(f[1], ' ', t2);
    lemma_split_first(f[0], ' ', t1);
    assert(split_on(t0, ' ') =~= f);
    if kept(r) {
        lemma_fields_lack(r, '\n');
        lemma_lacks_joined(f[5], t6, '\n');
        lemma_lacks_joined(f[4], t5, '\n');
        lemma_lacks_joined(f[3], t4, '\n');
        lemma_lacks_joined(f[2], t3, '\n');
        lemma_lacks_joined(f[1], t2, '\n');
        lemma_lacks_joined(f[0], t1, '\n');
    }
}

/// A field's line parts into its name and its value.
proof fn lemma_field(key: Seq<char>, head: Seq<char>, value: Seq<char>)
    requires
        lacks(key, '='),
        head == key.push('='),
    ensures
        parted_at(head + value, '=') == Some((key, value)),
{
    lemma_parted(key, '=', value);
}

/// A record's line reads back as the record.
pub proof fn law_record_reads_back(r: RecordModel)
    requires
        held(r),
    ensures
        record_of(record_text(r)) == Ok::<RecordModel, Seq<char>>(r),
{
    let f = record_fields(r);
    let n = r.nfs.len() as int;
    lemma_record_split(r);
    lemma_strings();
    lemma_bytes32_of_hex(r.txid);
    lemma_number_text_of_dec(r.tip as nat, u64::MAX as nat);
    lemma_number_text_of_dec(r.amount as nat, u64::MAX as nat);
    lemma_number_text_of_dec(r.fee as nat, u64::MAX as nat);
    lemma_nfs_split(r.nfs, n);
    lemma_nfs_back(r.nfs, split_on(nfs_text(r.nfs, n), ','), n);
    assert(r.nfs.take(n) =~= r.nfs);
    lemma_field("txid"@, "txid="@, hex_text(r.txid));
    lemma_field("tip"@, "tip="@, dec(r.tip as nat));
    lemma_field("amount"@, "amount="@, dec(r.amount as nat));
    lemma_field("fee"@, "fee="@, dec(r.fee as nat));
    lemma_field("to"@, "to="@, r.to);
    lemma_field("nf"@, "nf="@, nfs_text(r.nfs, n));
    let g1 = with_field(no_fields(), f[1])->Ok_0;
    let g2 = with_field(g1, f[2])->Ok_0;
    let g3 = with_field(g2, f[3])->Ok_0;
    let g4 = with_field(g3, f[4])->Ok_0;
    let g5 = with_field(g4, f[5])->Ok_0;
    let g6 = with_field(g5, f[6])->Ok_0;
    assert(fields_to(f, 1) == Ok::<FieldsModel, Seq<char>>(no_fields()));
    assert(fields_to(f, 2) == Ok::<FieldsModel, Seq<char>>(g1));
    assert(fields_to(f, 3) == Ok::<FieldsModel, Seq<char>>(g2));
    assert(fields_to(f, 4) == Ok::<FieldsModel, Seq<char>>(g3));
    assert(fields_to(f, 5) == Ok::<FieldsModel, Seq<char>>(g4));
    assert(fields_to(f, 6) == Ok::<FieldsModel, Seq<char>>(g5));
    assert(fields_to(f, 7) == Ok::<FieldsModel, Seq<char>>(g6));
    assert(whole(g6)->Ok_0 =~= r);
}

/// The lines of the records from place `i` on.
pub open spec fn lines_text(records: Seq<RecordModel>, i: int) -> Seq<char>
    decreases records.len() - i,
{
    if i < 0 || i >= records.len() {
        Seq::empty()
    } else {
        record_text(records[i]) + "\n"@ + lines_text(records, i + 1)
    }
}

/// The text of a log that these records were appended to, one by one.
pub open spec fn log_text(records: Seq<RecordModel>) -> Seq<char> {
    SENDS_HEADER@ + "\n"@ + lines_text(records, 0)
}

proof fn lemma_lines_text(records: Seq<RecordModel>, i: int)
    requires
        0 <= i <= records.len(),
        forall|k: int| 0 <= k < records.len() ==> kept(#[trigger] records[k]),
    ensures
        lines_of(lines_text(records, i)) == Seq::new(
            (records.len() - i) as nat,
            |k: int| record_text(records[i + k]),
        ),
    decreases records.len() - i,
{
    reveal_strlit("\n");
    if i < records.len() {
        let l = record_text(records[i]);
        let rest = lines_text(records, i + 1);
        lemma_lines_text(records, i + 1);
        lemma_record_split(records[i]);
        lemma_nfs_ends(records[i]);
        assert(l + "\n"@ + rest =~= l.push('\n') + rest);
        lemma_lines_of_first(l, rest);
        assert(lines_of(lines_text(records, i)) =~= Seq::new(
            (records.len() - i) as nat,
            |k: int| record_text(records[i + k]),
        ));
    } else {
        assert(lines_of(lines_text(records, i)) =~= Seq::new(
            0,
            |k: int| record_text(records[i + k]),
        ));
    }
}

/// A record's line ends in a hexadecimal digit.
proof fn lemma_nfs_ends(r: RecordModel)
    requires
        kept(r),
    ensures
        record_text(r).len() > 0,
        record_text(r).last() != '\r',
{
    let n = r.nfs.len() as int;
    let h = hex_text(r.nfs[n - 1]);
    assert(h.len() == 64);
    lemma_hex_lacks(r.nfs[n - 1], '\r');
    let t = nfs_text(r.nfs, n);
    assert(t.last() == h.last());
}

proof fn lemma_records_back(all: Seq<Seq<char>>, records: Seq<RecordModel>, n: int)
    requires
        1 <= n <= records.len() + 1,
        all.len() == records.len() + 1,
        forall|k: int| 0 <= k < records.len() ==> kept(#[trigger] records[k]),
        forall|k: int| 1 <= k < all.len() ==> #[trigger] all[k] == record_text(records[k - 1]),
    ensures
        records_to(all, n) == Ok::<Seq<RecordModel>, LogFault>(records.take(n - 1)),
    decreases n,
{
    if n > 1 {
        lemma_records_back(all, records, n - 1);
        law_record_reads_back(records[n - 2]);
        lemma_nfs_ends(records[n - 2]);
        assert(all[n - 1] == record_text(records[n - 2]));
        assert(records.take(n - 1) =~= records.take(n - 2).push(records[n - 2]));
    } else {
        assert(records.take(0) =~= Seq::empty());
    }
}

/// The lines of records end in a line feed.
proof fn lemma_lines_end(records: Seq<RecordModel>, i: int)
    requires
        0 <= i <= records.len(),
    ensures
        lines_text(records, i).len() == 0 || lines_text(records, i).last() == '\n',
        i < records.len() ==> lines_text(records, i).len() > 0,
    decreases records.len() - i,
{
    reveal_strlit("\n");
    if i < records.len() {
        let rest = lines_text(records, i + 1);
        lemma_lines_end(records, i + 1);
        let t = record_text(records[i]) + "\n"@;
        assert(t.last() == '\n');
        if rest.len() == 0 {
            assert(t + rest =~= t);
        } else {
            assert((t + rest).last() == rest.last());
        }
    }
}

/// A log reads back as the records that were appended to it, in their order.
pub proof fn law_log_reads_back(records: Seq<RecordModel>)
    requires
        forall|k: int| 0 <= k < records.len() ==> kept(#[trigger] records[k]),
    ensures
        log_of(log_text(records)) == Ok::<Seq<RecordModel>, LogFault>(records),
{
    reveal_strlit("\n");
    reveal_strlit("qumbra-wallet sends v1");
    let rest = lines_text(records, 0);
    lemma_lines_text(records, 0);
    assert(log_text(records) =~= SENDS_HEADER@.push('\n') + rest);
    lemma_lines_end(records, 0);
    assert(log_text(records).last() == '\n');
    lemma_lines_of_first(SENDS_HEADER@, rest);
    let all = lines_of(log_text(records));
    assert forall|k: int| 1 <= k < all.len() implies #[trigger] all[k] == record_text(
        records[k - 1],
    ) by {
        assert(all[k] == lines_of(rest)[k - 1]);
    }
    lemma_records_back(all, records, all.len() as int);
    assert(records.take(records.len() as int) =~= records);
}

/// A write that was cut off is never believed: whatever part of an appended
/// record reaches the file, the log reads as it was before, or is refused.
pub proof fn law_a_torn_write_is_never_believed(
    records: Seq<RecordModel>,
    r: RecordModel,
    k: int,
)
    requires
        forall|i: int| 0 <= i < records.len() ==> kept(#[trigger] records[i]),
        kept(r),
        0 <= k < appended(records.len() == 0, r).len(),
    ensures
        ({
            let before = if records.len() == 0 {
                Seq::empty()
            } else {
                log_text(records)
            };
            let text = before + appended(records.len() == 0, r).take(k);
            log_of(text) is Err || log_of(text) == Ok::<Seq<RecordModel>, LogFault>(records)
        }),
{
    reveal_strlit("\n");
    reveal_strlit("qumbra-wallet sends v1");
    let h = SENDS_HEADER@;
    let l = record_text(r);
    lemma_record_split(r);
    if records.len() == 0 {
        let n = h.len() as int;
        let part = appended(true, r).take(k);
        assert(Seq::<char>::empty() + part =~= part);
        assert(appended(true, r) =~= h.push('\n') + (l + "\n"@));
        if k <= n {
            assert(part =~= h.take(k));
            assert forall|j: int| 0 <= j < part.len() implies part[j] != '\n' by {
                assert(part[j] == h[j]);
            }
            lemma_one_line(part);
            if k == n {
                assert(part =~= h);
                assert(records =~= Seq::empty());
            } else {
                assert(part.len() != h.len());
            }
        } else {
            let rest = l.take(k - n - 1);
            assert(part =~= h.push('\n') + rest);
            assert forall|j: int| 0 <= j < rest.len() implies rest[j] != '\n' by {
                assert(rest[j] == l[j]);
            }
            lemma_lines_of_first(h, rest);
            lemma_one_line(rest);
            if rest.len() == 0 {
                assert(records =~= Seq::empty());
            } else {
                assert(part.last() == rest.last());
            }
        }
    } else {
        let part = appended(false, r).take(k);
        let text = log_text(records) + part;
        if k == 0 {
            law_log_reads_back(records);
            assert(text =~= log_text(records));
        } else {
            let rest = lines_text(records, 0) + part;
            assert(part =~= l.take(k));
            assert(text =~= h.push('\n') + rest);
            lemma_lines_of_first(h, rest);
            assert(text.last() == l[k - 1]);
            assert(rest.len() > 0);
            lemma_some_line(rest);
        }
    }
}

/// A text without a line feed is one line, or none where it is empty.
proof fn lemma_one_line(t: Seq<char>)
    requires
        forall|j: int| 0 <= j < t.len() ==> t[j] != '\n',
    ensures
        lines_of(t) == if t.len() == 0 {
            Seq::<Seq<char>>::empty()
        } else {
            seq![t]
        },
{
    crate::text::lemma_position(t, '\n');
}

/// A text that is not empty has a line.
proof fn lemma_some_line(t: Seq<char>)
    requires
        t.len() > 0,
    ensures
        lines_of(t).len() > 0,
{
}

/// Appending a record's text to a log is writing it as the last of the records.
pub proof fn law_appending_is_writing_last(records: Seq<RecordModel>, r: RecordModel)
    ensures
        log_text(records.push(r)) == if records.len() == 0 {
            appended(true, r)
        } else {
            log_text(records) + appended(false, r)
        },
{
    lemma_lines_push(records, r, 0);
    if records.len() == 0 {
        assert(log_text(records.push(r)) =~= appended(true, r));
    } else {
        assert(log_text(records.push(r)) =~= log_text(records) + appended(false, r));
    }
}

proof fn lemma_lines_push(records: Seq<RecordModel>, r: RecordModel, i: int)
    requires
        0 <= i <= records.len(),
    ensures
        lines_text(records.push(r), i) == lines_text(records, i) + record_text(r) + "\n"@,
    decreases records.len() - i,
{
    if i < records.len() {
        lemma_lines_push(records, r, i + 1);
        assert(lines_text(records.push(r), i) =~= lines_text(records, i) + record_text(r) + "\n"@);
    } else {
        assert(lines_text(records.push(r), i + 1) =~= Seq::empty());
        assert(lines_text(records.push(r), i) =~= lines_text(records, i) + record_text(r) + "\n"@);
    }
}

} // verus!
