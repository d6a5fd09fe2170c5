//! What each command is asked for, out of its arguments.
//!
//! The arguments are read in a fixed order, and the first that is missing or no
//! number is what is said.
use crate::cli::{flag_at, has_flag_at, need, need_number, optional};
#[allow(unused_imports)]
use crate::cli::{
    fails, flag_from, given_from, law_a_flag_is_followed_by_its_value, number_from, words_of_opt,
};
use crate::text::{chars_of, number_of, parse_number, str_eq};
#[allow(unused_imports)]
use crate::text::{number_text, parse_fault_text};
use vstd::prelude::*;

verus! {

/// A flag whose value may be missing, and is a number.
pub open spec fn number_if(args: Seq<String>, from: int, name: Seq<char>) -> Result<
    Option<u64>,
    Seq<char>,
> {
    match flag_from(args, from, name) {
        None => Ok(None),
        Some(t) => match number_text(t, u64::MAX as nat) {
            Some(n) => Ok(Some(n as u64)),
            None => Err(parse_fault_text(t)),
        },
    }
}

fn optional_number(args: &[String], from: usize, name: &str) -> (r: Result<Option<u64>, String>)
    ensures
        match number_if(args@, from as int, name@) {
            Ok(n) => r == Ok::<Option<u64>, String>(n),
            Err(e) => fails(r, e),
        },
{
    match flag_at(args, from, name) {
        None => Ok(None),
        Some(t) => match number_of(t) {
            Ok(n) => Ok(Some(n)),
            Err(e) => Err(e),
        },
    }
}

/// A flag whose value is a number, 0 where it is missing.
pub open spec fn number_or_zero(args: Seq<String>, from: int, name: Seq<char>) -> Result<
    u64,
    Seq<char>,
> {
    match number_if(args, from, name) {
        Ok(Some(n)) => Ok(n),
        Ok(None) => Ok(0),
        Err(e) => Err(e),
    }
}

fn number_else_zero(args: &[String], from: usize, name: &str) -> (r: Result<u64, String>)
    ensures
        match number_or_zero(args@, from as int, name@) {
            Ok(n) => r == Ok::<u64, String>(n),
            Err(e) => fails(r, e),
        },
{
    match optional_number(args, from, name) {
        Ok(Some(n)) => Ok(n),
        Ok(None) => Ok(0),
        Err(e) => Err(e),
    }
}

/// A flag's value, or another text where it is missing.
pub open spec fn value_or(args: Seq<String>, from: int, name: Seq<char>, other: Seq<char>) -> Seq<
    char,
> {
    match flag_from(args, from, name) {
        Some(t) => t,
        None => other,
    }
}

fn flag_else(args: &[String], from: usize, name: &str, other: &str) -> (r: String)
    ensures
        r@ == value_or(args@, from as int, name@, other@),
{
    match flag_at(args, from, name) {
        Some(t) => t.to_owned(),
        None => other.to_owned(),
    }
}

/// The asset that the arguments name: an index of the registry.
pub open spec fn asset_from(args: Seq<String>, from: int, missing: Seq<char>, bad: Seq<char>) -> Result<
    u16,
    Seq<char>,
> {
    match flag_from(args, from, "--asset"@) {
        None => Err(missing),
        Some(t) => match number_text(t, u16::MAX as nat) {
            Some(n) => Ok(n as u16),
            None => Err(bad),
        },
    }
}

fn need_asset(args: &[String], from: usize, missing: &str, bad: &str) -> (r: Result<u16, String>)
    ensures
        match asset_from(args@, from as int, missing@, bad@) {
            Ok(n) => r == Ok::<u16, String>(n),
            Err(e) => fails(r, e),
        },
{
    match flag_at(args, from, "--asset") {
        None => Err(missing.to_owned()),
        Some(t) => {
            let v = chars_of(t);
            match parse_number(&v, 65535) {
                Some(n) => Ok(n as u16),
                None => Err(bad.to_owned()),
            }
        },
    }
}

/// What a send is asked for.
#[derive(Clone, Debug, PartialEq, Eq)]
pub struct SendArgs {
    pub dir: String,
    pub url: String,
    pub node_url: String,
    pub scan_to: u64,
    pub to: Option<String>,
    pub to_contact: Option<String>,
    pub amount: Option<u64>,
    pub out: Option<String>,
    pub no_submit: bool,
}

/// What the arguments of a send come to: the first that is missing or no number
/// is refused.
pub open spec fn send_args_of(args: Seq<String>, r: Result<SendArgs, String>) -> bool {
    if flag_from(args, 0, "--dir"@) is None {
        fails(r, "--dir DIR is required"@)
    } else if flag_from(args, 0, "--url"@) is None {
        fails(r, "send requires --url (compact/scan endpoint)"@)
    } else if let Err(e) = number_from(args, 0, "--scan-to"@, "send requires --scan-to HEIGHT"@) {
        fails(r, e)
    } else if let Err(e) = number_if(args, 0, "--amount"@) {
        fails(r, e)
    } else {
        &&& r is Ok
        &&& {
            let a = r->Ok_0;
            &&& a.dir@ == flag_from(args, 0, "--dir"@)->0
            &&& a.url@ == flag_from(args, 0, "--url"@)->0
            &&& a.node_url@ == value_or(args, 0, "--node"@, a.url@)
            &&& number_from(args, 0, "--scan-to"@, "send requires --scan-to HEIGHT"@) == Ok::<u64, Seq<char>>(a.scan_to)
            &&& words_of_opt(a.to) == flag_from(args, 0, "--to"@)
            &&& words_of_opt(a.to_contact) == flag_from(args, 0, "--to-contact"@)
            &&& number_if(args, 0, "--amount"@) == Ok::<Option<u64>, Seq<char>>(a.amount)
            &&& words_of_opt(a.out) == flag_from(args, 0, "--out"@)
            &&& a.no_submit == given_from(args, 0, "--no-submit"@)
        }
    }
}

/// Reads the arguments of a send.
pub fn send_args(args: &[String]) -> (r: Result<SendArgs, String>)
    ensures
        send_args_of(args@, r),
{
    let dir: String = match need(args, 0, "--dir", "--dir DIR is required") {
        Err(e) => {
            return Err(e);
        },
        Ok(v) => v,
    };
    let url: String = match need(args, 0, "--url", "send requires --url (compact/scan endpoint)") {
        Err(e) => {
            return Err(e);
        },
        Ok(v) => v,
    };
    let node_url = flag_else(args, 0, "--node", url.as_str());
    let scan_to: u64 = match need_number(args, 0, "--scan-to", "send requires --scan-to HEIGHT") {
        Err(e) => {
            return Err(e);
        },
        Ok(v) => v,
    };
    let to = optional(args, 0, "--to");
    let to_contact = optional(args, 0, "--to-contact");
    let amount: Option<u64> = match optional_number(args, 0, "--amount") {
        Err(e) => {
            return Err(e);
        },
        Ok(v) => v,
    };
    let out = optional(args, 0, "--out");
    let no_submit = has_flag_at(args, 0, "--no-submit");
    Ok(SendArgs { dir, url, node_url, scan_to, to, to_contact, amount, out, no_submit })
}

/// What a send on the Annulet net is asked for.
#[derive(Clone, Debug, PartialEq, Eq)]
pub struct AnnuletSendArgs {
    pub dir: String,
    pub url: String,
    pub scan_to: u64,
    pub asset: u16,
    pub amount: u64,
    pub to: String,
    pub genesis_hash: Option<String>,
    pub freeze_list: Option<String>,
}

/// What the arguments of a send on the Annulet net come to: the first that is missing or no number
/// is refused.
pub open spec fn send_annulet_args_of(args: Seq<String>, r: Result<AnnuletSendArgs, String>) -> bool {
    if flag_from(args, 0, "--dir"@) is None {
        fails(r, "--dir DIR is required"@)
    } else if flag_from(args, 0, "--url"@) is None {
        fails(r, "send --net annulet requires --url (the node's discovery server)"@)
    } else if let Err(e) = number_from(args, 0, "--scan-to"@, "send requires --scan-to HEIGHT"@) {
        fails(r, e)
    } else if let Err(e) = asset_from(args, 0, "send --net annulet requires --asset N (0 is the fee unit)"@, "--asset must be a registry index below 65536"@) {
        fails(r, e)
    } else if let Err(e) = number_from(args, 0, "--amount"@, "send requires --amount"@) {
        fails(r, e)
    } else if flag_from(args, 0, "--to"@) is None {
        fails(r, "send --net annulet requires --to ADDRESS"@)
    } else {
        &&& r is Ok
        &&& {
            let a = r->Ok_0;
            &&& a.dir@ == flag_from(args, 0, "--dir"@)->0
            &&& a.url@ == flag_from(args, 0, "--url"@)->0
            &&& number_from(args, 0, "--scan-to"@, "send requires --scan-to HEIGHT"@) == Ok::<u64, Seq<char>>(a.scan_to)
            &&& asset_from(args, 0, "send --net annulet requires --asset N (0 is the fee unit)"@, "--asset must be a registry index below 65536"@) == Ok::<u16, Seq<char>>(a.asset)
            &&& number_from(args, 0, "--amount"@, "send requires --amount"@) == Ok::<u64, Seq<char>>(a.amount)
            &&& a.to@ == flag_from(args, 0, "--to"@)->0
            &&& words_of_opt(a.genesis_hash) == flag_from(args, 0, "--genesis-hash"@)
            &&& words_of_opt(a.freeze_list) == flag_from(args, 0, "--freeze-list"@)
        }
    }
}

/// Reads the arguments of a send on the Annulet net.
pub fn send_annulet_args(args: &[String]) -> (r: Result<AnnuletSendArgs, String>)
    ensures
        send_annulet_args_of(args@, r),
{
    let dir: String = match need(args, 0, "--dir", "--dir DIR is required") {
        Err(e) => {
            return Err(e);
        },
        Ok(v) => v,
    };
    let url: String = match need(args, 0, "--url", "send --net annulet requires --url (the node's discovery server)") {
        Err(e) => {
            return Err(e);
        },
        Ok(v) => v,
    };
    let scan_to: u64 = match need_number(args, 0, "--scan-to", "send requires --scan-to HEIGHT") {
        Err(e) => {
            return Err(e);
        },
        Ok(v) => v,
    };
    let asset: u16 = match need_asset(args, 0, "send --net annulet requires --asset N (0 is the fee unit)", "--asset must be a registry index below 65536") {
        Err(e) => {
            return Err(e);
        },
        Ok(v) => v,
    };
    let amount: u64 = match need_number(args, 0, "--amount", "send requires --amount") {
        Err(e) => {
            return Err(e);
        },
        Ok(v) => v,
    };
    let to: String = match need(args, 0, "--to", "send --net annulet requires --to ADDRESS") {
        Err(e) => {
            return Err(e);
        },
        Ok(v) => v,
    };
    let genesis_hash = optional(args, 0, "--genesis-hash");
    let freeze_list = optional(args, 0, "--freeze-list");
    Ok(AnnuletSendArgs { dir, url, scan_to, asset, amount, to, genesis_hash, freeze_list })
}

/// The range that is scanned.
#[derive(Clone, Debug, PartialEq, Eq)]
pub struct ScanArgs {
    pub dir: String,
    pub url: String,
    pub to: u64,
    pub from: u64,
    pub net: Option<String>,
    pub genesis_hash: Option<String>,
}

/// What the arguments of a scan come to: the first that is missing or no number
/// is refused.
pub open spec fn scan_args_of(args: Seq<String>, r: Result<ScanArgs, String>) -> bool {
    if flag_from(args, 0, "--dir"@) is None {
        fails(r, "--dir DIR is required"@)
    } else if flag_from(args, 0, "--url"@) is None {
        fails(r, "scan requires --url http://host:port or --url https://host[:port]"@)
    } else if let Err(e) = number_from(args, 0, "--to"@, "scan requires --to HEIGHT (explicit: a balance is a claim about a range)"@) {
        fails(r, e)
    } else if let Err(e) = number_or_zero(args, 0, "--from"@) {
        fails(r, e)
    } else {
        &&& r is Ok
        &&& {
            let a = r->Ok_0;
            &&& a.dir@ == flag_from(args, 0, "--dir"@)->0
            &&& a.url@ == flag_from(args, 0, "--url"@)->0
            &&& number_from(args, 0, "--to"@, "scan requires --to HEIGHT (explicit: a balance is a claim about a range)"@) == Ok::<u64, Seq<char>>(a.to)
            &&& number_or_zero(args, 0, "--from"@) == Ok::<u64, Seq<char>>(a.from)
            &&& words_of_opt(a.net) == flag_from(args, 0, "--net"@)
            &&& words_of_opt(a.genesis_hash) == flag_from(args, 0, "--genesis-hash"@)
        }
    }
}

/// Reads the arguments of a scan.
pub fn scan_args(args: &[String]) -> (r: Result<ScanArgs, String>)
    ensures
        scan_args_of(args@, r),
{
    let dir: String = match need(args, 0, "--dir", "--dir DIR is required") {
        Err(e) => {
            return Err(e);
        },
        Ok(v) => v,
    };
    let url: String = match need(args, 0, "--url", "scan requires --url http://host:port or --url https://host[:port]") {
        Err(e) => {
            return Err(e);
        },
        Ok(v) => v,
    };
    let to: u64 = match need_number(args, 0, "--to", "scan requires --to HEIGHT (explicit: a balance is a claim about a range)") {
        Err(e) => {
            return Err(e);
        },
        Ok(v) => v,
    };
    let from: u64 = match number_else_zero(args, 0, "--from") {
        Err(e) => {
            return Err(e);
        },
        Ok(v) => v,
    };
    let net = optional(args, 0, "--net");
    let genesis_hash = optional(args, 0, "--genesis-hash");
    Ok(ScanArgs { dir, url, to, from, net, genesis_hash })
}

/// The range that a ledger is made of.
#[derive(Clone, Debug, PartialEq, Eq)]
pub struct HistoryArgs {
    pub dir: String,
    pub url: String,
    pub to: u64,
    pub from: u64,
}

/// What the arguments of a ledger come to: the first that is missing or no number
/// is refused.
pub open spec fn history_args_of(args: Seq<String>, r: Result<HistoryArgs, String>) -> bool {
    if flag_from(args, 0, "--dir"@) is None {
        fails(r, "--dir DIR is required"@)
    } else if flag_from(args, 0, "--url"@) is None {
        fails(r, "history requires --url http://host:port or --url https://host[:port]"@)
    } else if let Err(e) = number_from(args, 0, "--to"@, "history requires --to HEIGHT (explicit: a ledger is a claim about a range)"@) {
        fails(r, e)
    } else if let Err(e) = number_or_zero(args, 0, "--from"@) {
        fails(r, e)
    } else {
        &&& r is Ok
        &&& {
            let a = r->Ok_0;
            &&& a.dir@ == flag_from(args, 0, "--dir"@)->0
            &&& a.url@ == flag_from(args, 0, "--url"@)->0
            &&& number_from(args, 0, "--to"@, "history requires --to HEIGHT (explicit: a ledger is a claim about a range)"@) == Ok::<u64, Seq<char>>(a.to)
            &&& number_or_zero(args, 0, "--from"@) == Ok::<u64, Seq<char>>(a.from)
        }
    }
}

/// Reads the arguments of a ledger.
pub fn history_args(args: &[String]) -> (r: Result<HistoryArgs, String>)
    ensures
        history_args_of(args@, r),
{
    let dir: String = match need(args, 0, "--dir", "--dir DIR is required") {
        Err(e) => {
            return Err(e);
        },
        Ok(v) => v,
    };
    let url: String = match need(args, 0, "--url", "history requires --url http://host:port or --url https://host[:port]") {
        Err(e) => {
            return Err(e);
        },
        Ok(v) => v,
    };
    let to: u64 = match need_number(args, 0, "--to", "history requires --to HEIGHT (explicit: a ledger is a claim about a range)") {
        Err(e) => {
            return Err(e);
        },
        Ok(v) => v,
    };
    let from: u64 = match number_else_zero(args, 0, "--from") {
        Err(e) => {
            return Err(e);
        },
        Ok(v) => v,
    };
    Ok(HistoryArgs { dir, url, to, from })
}

/// How far the names are synced.
#[derive(Clone, Debug, PartialEq, Eq)]
pub struct NamesSyncArgs {
    pub dir: String,
    pub url: String,
    pub to: u64,
}

/// What the arguments of a sync of the names come to: the first that is missing or no number
/// is refused.
pub open spec fn names_sync_args_of(args: Seq<String>, r: Result<NamesSyncArgs, String>) -> bool {
    if flag_from(args, 1, "--dir"@) is None {
        fails(r, "--dir DIR is required"@)
    } else if flag_from(args, 1, "--url"@) is None {
        fails(r, "names sync requires --url"@)
    } else if let Err(e) = number_from(args, 1, "--to"@, "names sync requires --to HEIGHT"@) {
        fails(r, e)
    } else {
        &&& r is Ok
        &&& {
            let a = r->Ok_0;
            &&& a.dir@ == flag_from(args, 1, "--dir"@)->0
            &&& a.url@ == flag_from(args, 1, "--url"@)->0
            &&& number_from(args, 1, "--to"@, "names sync requires --to HEIGHT"@) == Ok::<u64, Seq<char>>(a.to)
        }
    }
}

/// Reads the arguments of a sync of the names.
pub fn names_sync_args(args: &[String]) -> (r: Result<NamesSyncArgs, String>)
    ensures
        names_sync_args_of(args@, r),
{
    let dir: String = match need(args, 1, "--dir", "--dir DIR is required") {
        Err(e) => {
            return Err(e);
        },
        Ok(v) => v,
    };
    let url: String = match need(args, 1, "--url", "names sync requires --url") {
        Err(e) => {
            return Err(e);
        },
        Ok(v) => v,
    };
    let to: u64 = match need_number(args, 1, "--to", "names sync requires --to HEIGHT") {
        Err(e) => {
            return Err(e);
        },
        Ok(v) => v,
    };
    Ok(NamesSyncArgs { dir, url, to })
}

/// The name that is resolved, and where.
#[derive(Clone, Debug, PartialEq, Eq)]
pub struct NamesResolveArgs {
    pub name: String,
    pub dir: String,
    pub tip: u64,
}

/// What the arguments of a resolution come to: the first that is missing or no number
/// is refused.
pub open spec fn names_resolve_args_of(args: Seq<String>, r: Result<NamesResolveArgs, String>) -> bool {
    if args.len() <= 1 {
        fails(r, "names resolve NAME --tip H"@)
    } else if flag_from(args, 2, "--dir"@) is None {
        fails(r, "--dir DIR is required"@)
    } else if let Err(e) = number_from(args, 2, "--tip"@, "names resolve requires --tip"@) {
        fails(r, e)
    } else {
        &&& r is Ok
        &&& {
            let a = r->Ok_0;
            &&& a.name@ == args[1]@
            &&& a.dir@ == flag_from(args, 2, "--dir"@)->0
            &&& number_from(args, 2, "--tip"@, "names resolve requires --tip"@) == Ok::<u64, Seq<char>>(a.tip)
        }
    }
}

/// Reads the arguments of a resolution.
pub fn names_resolve_args(args: &[String]) -> (r: Result<NamesResolveArgs, String>)
    ensures
        names_resolve_args_of(args@, r),
{
    if args.len() <= 1 {
        return Err("names resolve NAME --tip H".to_owned());
    }
    let name = args[1].as_str().to_owned();
    let dir: String = match need(args, 2, "--dir", "--dir DIR is required") {
        Err(e) => {
            return Err(e);
        },
        Ok(v) => v,
    };
    let tip: u64 = match need_number(args, 2, "--tip", "names resolve requires --tip") {
        Err(e) => {
            return Err(e);
        },
        Ok(v) => v,
    };
    Ok(NamesResolveArgs { name, dir, tip })
}

/// The fingerprint that is pinned.
#[derive(Clone, Debug, PartialEq, Eq)]
pub struct NamesPinArgs {
    pub name: String,
    pub fingerprint: String,
    pub dir: String,
}

/// What the arguments of a pin come to: the first that is missing or no number
/// is refused.
pub open spec fn names_pin_args_of(args: Seq<String>, r: Result<NamesPinArgs, String>) -> bool {
    if args.len() <= 1 {
        fails(r, "names pin NAME FINGERPRINT"@)
    } else if args.len() <= 2 {
        fails(r, "names pin NAME FINGERPRINT"@)
    } else if flag_from(args, 3, "--dir"@) is None {
        fails(r, "--dir DIR is required"@)
    } else {
        &&& r is Ok
        &&& {
            let a = r->Ok_0;
            &&& a.name@ == args[1]@
            &&& a.fingerprint@ == args[2]@
            &&& a.dir@ == flag_from(args, 3, "--dir"@)->0
        }
    }
}

/// Reads the arguments of a pin.
pub fn names_pin_args(args: &[String]) -> (r: Result<NamesPinArgs, String>)
    ensures
        names_pin_args_of(args@, r),
{
    if args.len() <= 1 {
        return Err("names pin NAME FINGERPRINT".to_owned());
    }
    let name = args[1].as_str().to_owned();
    if args.len() <= 2 {
        return Err("names pin NAME FINGERPRINT".to_owned());
    }
    let fingerprint = args[2].as_str().to_owned();
    let dir: String = match need(args, 3, "--dir", "--dir DIR is required") {
        Err(e) => {
            return Err(e);
        },
        Ok(v) => v,
    };
    Ok(NamesPinArgs { name, fingerprint, dir })
}

/// The registration that is gone on with.
#[derive(Clone, Debug, PartialEq, Eq)]
pub struct RegisterArgs {
    pub name: String,
    pub dir: String,
    pub committed_at: Option<String>,
    pub no_submit: bool,
}

/// What the arguments of a registration come to: the first that is missing or no number
/// is refused.
pub open spec fn register_args_of(args: Seq<String>, r: Result<RegisterArgs, String>) -> bool {
    if args.len() <= 0 {
        fails(r, "names register NAME --dir … --url … --node … --scan-to H [--committed-at H]"@)
    } else if flag_from(args, 1, "--dir"@) is None {
        fails(r, "--dir DIR is required"@)
    } else {
        &&& r is Ok
        &&& {
            let a = r->Ok_0;
            &&& a.name@ == args[0]@
            &&& a.dir@ == flag_from(args, 1, "--dir"@)->0
            &&& words_of_opt(a.committed_at) == flag_from(args, 1, "--committed-at"@)
            &&& a.no_submit == given_from(args, 1, "--no-submit"@)
        }
    }
}

/// Reads the arguments of a registration.
pub fn register_args(args: &[String]) -> (r: Result<RegisterArgs, String>)
    ensures
        register_args_of(args@, r),
{
    if args.len() <= 0 {
        return Err("names register NAME --dir … --url … --node … --scan-to H [--committed-at H]".to_owned());
    }
    let name = args[0].as_str().to_owned();
    let dir: String = match need(args, 1, "--dir", "--dir DIR is required") {
        Err(e) => {
            return Err(e);
        },
        Ok(v) => v,
    };
    let committed_at = optional(args, 1, "--committed-at");
    let no_submit = has_flag_at(args, 1, "--no-submit");
    Ok(RegisterArgs { name, dir, committed_at, no_submit })
}

/// The height that a registration is run at.
#[derive(Clone, Debug, PartialEq, Eq)]
pub struct RegisterHeight {
    pub scan_to: u64,
}

/// What the arguments of a registration that is not only recorded come to: the first that is missing or no number
/// is refused.
pub open spec fn register_height_of(args: Seq<String>, r: Result<RegisterHeight, String>) -> bool {
    if let Err(e) = number_from(args, 1, "--scan-to"@, "names register requires --scan-to HEIGHT"@) {
        fails(r, e)
    } else {
        &&& r is Ok
        &&& {
            let a = r->Ok_0;
            &&& number_from(args, 1, "--scan-to"@, "names register requires --scan-to HEIGHT"@) == Ok::<u64, Seq<char>>(a.scan_to)
        }
    }
}

/// Reads the arguments of a registration that is not only recorded.
pub fn register_height(args: &[String]) -> (r: Result<RegisterHeight, String>)
    ensures
        register_height_of(args@, r),
{
    let scan_to: u64 = match need_number(args, 1, "--scan-to", "names register requires --scan-to HEIGHT") {
        Err(e) => {
            return Err(e);
        },
        Ok(v) => v,
    };
    Ok(RegisterHeight { scan_to })
}

/// A send to oneself that carries a name op.
#[derive(Clone, Debug, PartialEq, Eq)]
pub struct SelfSendArgs {
    pub dir: String,
    pub url: String,
    pub node_url: String,
    pub scan_to: u64,
    pub no_submit: bool,
}

/// What the arguments of a send to oneself come to: the first that is missing or no number
/// is refused.
pub open spec fn self_send_args_of(args: Seq<String>, r: Result<SelfSendArgs, String>) -> bool {
    if flag_from(args, 0, "--dir"@) is None {
        fails(r, "--dir DIR is required"@)
    } else if flag_from(args, 0, "--url"@) is None {
        fails(r, "requires --url"@)
    } else if let Err(e) = number_from(args, 0, "--scan-to"@, "requires --scan-to HEIGHT"@) {
        fails(r, e)
    } else {
        &&& r is Ok
        &&& {
            let a = r->Ok_0;
            &&& a.dir@ == flag_from(args, 0, "--dir"@)->0
            &&& a.url@ == flag_from(args, 0, "--url"@)->0
            &&& a.node_url@ == value_or(args, 0, "--node"@, a.url@)
            &&& number_from(args, 0, "--scan-to"@, "requires --scan-to HEIGHT"@) == Ok::<u64, Seq<char>>(a.scan_to)
            &&& a.no_submit == given_from(args, 0, "--no-submit"@)
        }
    }
}

/// Reads the arguments of a send to oneself.
pub fn self_send_args(args: &[String]) -> (r: Result<SelfSendArgs, String>)
    ensures
        self_send_args_of(args@, r),
{
    let dir: String = match need(args, 0, "--dir", "--dir DIR is required") {
        Err(e) => {
            return Err(e);
        },
        Ok(v) => v,
    };
    let url: String = match need(args, 0, "--url", "requires --url") {
        Err(e) => {
            return Err(e);
        },
        Ok(v) => v,
    };
    let node_url = flag_else(args, 0, "--node", url.as_str());
    let scan_to: u64 = match need_number(args, 0, "--scan-to", "requires --scan-to HEIGHT") {
        Err(e) => {
            return Err(e);
        },
        Ok(v) => v,
    };
    let no_submit = has_flag_at(args, 0, "--no-submit");
    Ok(SelfSendArgs { dir, url, node_url, scan_to, no_submit })
}

/// What is minted or redeemed.
#[derive(Clone, Debug, PartialEq, Eq)]
pub struct IssueArgs {
    pub dir: String,
    pub url: String,
    pub scan_to: u64,
    pub amount: u64,
    pub genesis_hash: Option<String>,
    pub freeze_list: Option<String>,
    pub to: Option<String>,
}

/// What the arguments of a mint or a redemption come to: the first that is missing or no number
/// is refused.
pub open spec fn issue_args_of(args: Seq<String>, r: Result<IssueArgs, String>) -> bool {
    if flag_from(args, 0, "--dir"@) is None {
        fails(r, "--dir DIR is required"@)
    } else if flag_from(args, 0, "--url"@) is None {
        fails(r, "issuer mint/redeem requires --url"@)
    } else if let Err(e) = number_from(args, 0, "--scan-to"@, "requires --scan-to HEIGHT"@) {
        fails(r, e)
    } else if let Err(e) = number_from(args, 0, "--amount"@, "requires --amount"@) {
        fails(r, e)
    } else {
        &&& r is Ok
        &&& {
            let a = r->Ok_0;
            &&& a.dir@ == flag_from(args, 0, "--dir"@)->0
            &&& a.url@ == flag_from(args, 0, "--url"@)->0
            &&& number_from(args, 0, "--scan-to"@, "requires --scan-to HEIGHT"@) == Ok::<u64, Seq<char>>(a.scan_to)
            &&& number_from(args, 0, "--amount"@, "requires --amount"@) == Ok::<u64, Seq<char>>(a.amount)
            &&& words_of_opt(a.genesis_hash) == flag_from(args, 0, "--genesis-hash"@)
            &&& words_of_opt(a.freeze_list) == flag_from(args, 0, "--freeze-list"@)
            &&& words_of_opt(a.to) == flag_from(args, 0, "--to"@)
        }
    }
}

/// Reads the arguments of a mint or a redemption.
pub fn issue_args(args: &[String]) -> (r: Result<IssueArgs, String>)
    ensures
        issue_args_of(args@, r),
{
    let dir: String = match need(args, 0, "--dir", "--dir DIR is required") {
        Err(e) => {
            return Err(e);
        },
        Ok(v) => v,
    };
    let url: String = match need(args, 0, "--url", "issuer mint/redeem requires --url") {
        Err(e) => {
            return Err(e);
        },
        Ok(v) => v,
    };
    let scan_to: u64 = match need_number(args, 0, "--scan-to", "requires --scan-to HEIGHT") {
        Err(e) => {
            return Err(e);
        },
        Ok(v) => v,
    };
    let amount: u64 = match need_number(args, 0, "--amount", "requires --amount") {
        Err(e) => {
            return Err(e);
        },
        Ok(v) => v,
    };
    let genesis_hash = optional(args, 0, "--genesis-hash");
    let freeze_list = optional(args, 0, "--freeze-list");
    let to = optional(args, 0, "--to");
    Ok(IssueArgs { dir, url, scan_to, amount, genesis_hash, freeze_list, to })
}

/// The asset that a key is made for.
#[derive(Clone, Debug, PartialEq, Eq)]
pub struct IssuerKeyArgs {
    pub dir: String,
    pub asset: u16,
}

/// What the arguments of an issuer's key come to: the first that is missing or no number
/// is refused.
pub open spec fn issuer_key_args_of(args: Seq<String>, r: Result<IssuerKeyArgs, String>) -> bool {
    if flag_from(args, 0, "--dir"@) is None {
        fails(r, "--dir DIR is required"@)
    } else if let Err(e) = asset_from(args, 0, "issuer requires --asset N"@, "--asset must be below 65536"@) {
        fails(r, e)
    } else {
        &&& r is Ok
        &&& {
            let a = r->Ok_0;
            &&& a.dir@ == flag_from(args, 0, "--dir"@)->0
            &&& asset_from(args, 0, "issuer requires --asset N"@, "--asset must be below 65536"@) == Ok::<u16, Seq<char>>(a.asset)
        }
    }
}

/// Reads the arguments of an issuer's key.
pub fn issuer_key_args(args: &[String]) -> (r: Result<IssuerKeyArgs, String>)
    ensures
        issuer_key_args_of(args@, r),
{
    let dir: String = match need(args, 0, "--dir", "--dir DIR is required") {
        Err(e) => {
            return Err(e);
        },
        Ok(v) => v,
    };
    let asset: u16 = match need_asset(args, 0, "issuer requires --asset N", "--asset must be below 65536") {
        Err(e) => {
            return Err(e);
        },
        Ok(v) => v,
    };
    Ok(IssuerKeyArgs { dir, asset })
}

/// What is asked of the addresses.
#[derive(Clone, Debug, PartialEq, Eq)]
pub struct AddressArgs {
    pub dir: String,
    pub amount_qmb: Option<String>,
    pub label: Option<String>,
    pub qr: bool,
    pub qr_svg: Option<String>,
    pub uri: bool,
    pub fresh: bool,
    pub index: Option<String>,
}

/// What the arguments of a look at addresses come to: the first that is missing or no number
/// is refused.
pub open spec fn address_args_of(args: Seq<String>, r: Result<AddressArgs, String>) -> bool {
    if flag_from(args, 0, "--dir"@) is None {
        fails(r, "--dir DIR is required"@)
    } else {
        &&& r is Ok
        &&& {
            let a = r->Ok_0;
            &&& a.dir@ == flag_from(args, 0, "--dir"@)->0
            &&& words_of_opt(a.amount_qmb) == flag_from(args, 0, "--amount-qmb"@)
            &&& words_of_opt(a.label) == flag_from(args, 0, "--label"@)
            &&& a.qr == given_from(args, 0, "--qr"@)
            &&& words_of_opt(a.qr_svg) == flag_from(args, 0, "--qr-svg"@)
            &&& a.uri == given_from(args, 0, "--uri"@)
            &&& a.fresh == given_from(args, 0, "--new"@)
            &&& words_of_opt(a.index) == flag_from(args, 0, "--index"@)
        }
    }
}

/// Reads the arguments of a look at addresses.
pub fn address_args(args: &[String]) -> (r: Result<AddressArgs, String>)
    ensures
        address_args_of(args@, r),
{
    let dir: String = match need(args, 0, "--dir", "--dir DIR is required") {
        Err(e) => {
            return Err(e);
        },
        Ok(v) => v,
    };
    let amount_qmb = optional(args, 0, "--amount-qmb");
    let label = optional(args, 0, "--label");
    let qr = has_flag_at(args, 0, "--qr");
    let qr_svg = optional(args, 0, "--qr-svg");
    let uri = has_flag_at(args, 0, "--uri");
    let fresh = has_flag_at(args, 0, "--new");
    let index = optional(args, 0, "--index");
    Ok(AddressArgs { dir, amount_qmb, label, qr, qr_svg, uri, fresh, index })
}

/// The index of the miner's key.
#[derive(Clone, Debug, PartialEq, Eq)]
pub struct MinerArgs {
    pub dir: String,
    pub index: u64,
}

/// What the arguments of a miner's key come to: the first that is missing or no number
/// is refused.
pub open spec fn miner_args_of(args: Seq<String>, r: Result<MinerArgs, String>) -> bool {
    if flag_from(args, 0, "--dir"@) is None {
        fails(r, "--dir DIR is required"@)
    } else if let Err(e) = number_or_zero(args, 0, "--index"@) {
        fails(r, e)
    } else {
        &&& r is Ok
        &&& {
            let a = r->Ok_0;
            &&& a.dir@ == flag_from(args, 0, "--dir"@)->0
            &&& number_or_zero(args, 0, "--index"@) == Ok::<u64, Seq<char>>(a.index)
        }
    }
}

/// Reads the arguments of a miner's key.
pub fn miner_args(args: &[String]) -> (r: Result<MinerArgs, String>)
    ensures
        miner_args_of(args@, r),
{
    let dir: String = match need(args, 0, "--dir", "--dir DIR is required") {
        Err(e) => {
            return Err(e);
        },
        Ok(v) => v,
    };
    let index: u64 = match number_else_zero(args, 0, "--index") {
        Err(e) => {
            return Err(e);
        },
        Ok(v) => v,
    };
    Ok(MinerArgs { dir, index })
}

/// The subcommands of `names`.
#[derive(Clone, Copy, Debug, PartialEq, Eq)]
pub enum NamesVerb {
    Sync,
    Resolve,
    Pin,
    Register,
    Renew,
}

/// The subcommand of `names` that the first argument is.
pub fn names_verb(args: &[String]) -> (r: Result<NamesVerb, String>)
    ensures
        ({
            let w = if args@.len() > 0 {
                args@[0]@
            } else {
                Seq::empty()
            };
            let is = |t: Seq<char>| args@.len() > 0 && w == t;
            if is("sync"@) {
                r == Ok::<NamesVerb, String>(NamesVerb::Sync)
            } else if is("resolve"@) {
                r == Ok::<NamesVerb, String>(NamesVerb::Resolve)
            } else if is("pin"@) {
                r == Ok::<NamesVerb, String>(NamesVerb::Pin)
            } else if is("register"@) {
                r == Ok::<NamesVerb, String>(NamesVerb::Register)
            } else if is("renew"@) {
                r == Ok::<NamesVerb, String>(NamesVerb::Renew)
            } else {
                fails(r, "names subcommands: sync | resolve | pin | register | renew"@)
            }
        }),
{
    if args.len() > 0 {
        let w = args[0].as_str();
        if str_eq(w, "sync") {
            return Ok(NamesVerb::Sync);
        } else if str_eq(w, "resolve") {
            return Ok(NamesVerb::Resolve);
        } else if str_eq(w, "pin") {
            return Ok(NamesVerb::Pin);
        } else if str_eq(w, "register") {
            return Ok(NamesVerb::Register);
        } else if str_eq(w, "renew") {
            return Ok(NamesVerb::Renew);
        }
    }
    Err("names subcommands: sync | resolve | pin | register | renew".to_owned())
}

/// The subcommands of `issuer`.
#[derive(Clone, Copy, Debug, PartialEq, Eq)]
pub enum IssuerVerb {
    Keygen,
    Freeze,
    Mint,
    Redeem,
}

/// The subcommand of `issuer` that the first argument is.
pub fn issuer_verb(args: &[String]) -> (r: Result<IssuerVerb, String>)
    ensures
        ({
            let is = |t: Seq<char>| args@.len() > 0 && args@[0]@ == t;
            if is("keygen"@) {
                r == Ok::<IssuerVerb, String>(IssuerVerb::Keygen)
            } else if is("freeze"@) {
                r == Ok::<IssuerVerb, String>(IssuerVerb::Freeze)
            } else if is("mint"@) {
                r == Ok::<IssuerVerb, String>(IssuerVerb::Mint)
            } else if is("redeem"@) {
                r == Ok::<IssuerVerb, String>(IssuerVerb::Redeem)
            } else {
                fails(r, "issuer keygen|freeze|mint|redeem (lab #722)"@)
            }
        }),
{
    if args.len() > 0 {
        let w = args[0].as_str();
        if str_eq(w, "keygen") {
            return Ok(IssuerVerb::Keygen);
        } else if str_eq(w, "freeze") {
            return Ok(IssuerVerb::Freeze);
        } else if str_eq(w, "mint") {
            return Ok(IssuerVerb::Mint);
        } else if str_eq(w, "redeem") {
            return Ok(IssuerVerb::Redeem);
        }
    }
    Err("issuer keygen|freeze|mint|redeem (lab #722)".to_owned())
}

/// What is done to a freeze list.
#[derive(Clone, Debug, PartialEq, Eq)]
#[allow(inconsistent_fields)]
pub enum FreezeVerb {
    Add { address: String },
    Remove { address: String },
    Root,
}

pub const FREEZE_ADDRESS_MISSING: &'static str = "issuer freeze add/remove requires --address ADDR";

/// What the second argument of `issuer freeze` asks for.
pub fn freeze_verb(args: &[String]) -> (r: Result<FreezeVerb, String>)
    ensures
        ({
            let is = |t: Seq<char>| args@.len() > 1 && args@[1]@ == t;
            let address = flag_from(args@, 0, "--address"@);
            if is("add"@) || is("remove"@) {
                match address {
                    None => fails(r, FREEZE_ADDRESS_MISSING@),
                    Some(t) => if is("add"@) {
                        r matches Ok(FreezeVerb::Add { address: a }) && a@ == t
                    } else {
                        r matches Ok(FreezeVerb::Remove { address: a }) && a@ == t
                    },
                }
            } else if is("root"@) {
                r == Ok::<FreezeVerb, String>(FreezeVerb::Root)
            } else {
                fails(r, "issuer freeze add|remove|root"@)
            }
        }),
{
    if args.len() > 1 {
        let w = args[1].as_str();
        if str_eq(w, "add") {
            return match need(args, 0, "--address", FREEZE_ADDRESS_MISSING) {
                Ok(address) => Ok(FreezeVerb::Add { address }),
                Err(e) => Err(e),
            };
        } else if str_eq(w, "remove") {
            return match need(args, 0, "--address", FREEZE_ADDRESS_MISSING) {
                Ok(address) => Ok(FreezeVerb::Remove { address }),
                Err(e) => Err(e),
            };
        } else if str_eq(w, "root") {
            return Ok(FreezeVerb::Root);
        }
    }
    Err("issuer freeze add|remove|root".to_owned())
}

/// Which addresses are shown.
#[derive(Clone, Copy, Debug, PartialEq, Eq)]
pub enum Picked {
    /// A new one.
    Fresh,
    /// The one of an index.
    Index(u64),
    /// All that are allocated.
    All,
}

/// A payment request is asked for: the URI itself, or anything that goes into it
/// or is made of it.
pub open spec fn wants_uri(a: AddressArgs) -> bool {
    a.uri || a.qr || a.qr_svg is Some || a.amount_qmb is Some || a.label is Some
}

impl AddressArgs {
    /// Whether a payment request is asked for.
    pub fn uri_mode(&self) -> (r: bool)
        ensures
            r == wants_uri(*self),
    {
        self.uri || self.qr || self.qr_svg.is_some() || self.amount_qmb.is_some()
            || self.label.is_some()
    }

    /// Which addresses are shown: a payment request is for one, index 0 where
    /// none was picked.
    pub fn picked(&self) -> (r: Result<Picked, String>)
        ensures
            if self.fresh {
                r == Ok::<Picked, String>(Picked::Fresh)
            } else {
                match self.index {
                    Some(t) => match number_text(t@, u64::MAX as nat) {
                        Some(n) => r == Ok::<Picked, String>(Picked::Index(n as u64)),
                        None => fails(r, parse_fault_text(t@)),
                    },
                    None => r == Ok::<Picked, String>(
                        if wants_uri(*self) {
                            Picked::Index(0)
                        } else {
                            Picked::All
                        },
                    ),
                }
            },
    {
        if self.fresh {
            return Ok(Picked::Fresh);
        }
        match &self.index {
            Some(t) => match number_of(t.as_str()) {
                Ok(n) => Ok(Picked::Index(n)),
                Err(e) => Err(e),
            },
            None => {
                if self.uri_mode() {
                    Ok(Picked::Index(0))
                } else {
                    Ok(Picked::All)
                }
            },
        }
    }
}

/// What `contact` is asked for.
#[derive(Clone, Debug, PartialEq, Eq)]
#[allow(inconsistent_fields)]
pub enum ContactVerb {
    Add { name: String, address: String },
    List,
    Remove { name: String },
}

/// What the arguments of `contact` ask for.
pub fn contact_verb(args: &[String]) -> (r: Result<ContactVerb, String>)
    ensures
        if args@.len() == 0 {
            r matches Err(e) && e@ == "contact requires add, list, or remove"@
        } else if args@[0]@ == "add"@ {
            if args@.len() < 2 {
                r matches Err(e) && e@ == "contact add requires NAME"@
            } else if args@.len() < 3 {
                r matches Err(e) && e@ == "contact add requires a full qaddr1… ADDRESS"@
            } else {
                r matches Ok(ContactVerb::Add { name, address }) && name@ == args@[1]@ && address@
                    == args@[2]@
            }
        } else if args@[0]@ == "list"@ {
            r matches Ok(ContactVerb::List)
        } else if args@[0]@ == "remove"@ {
            if args@.len() < 2 {
                r matches Err(e) && e@ == "contact remove requires NAME"@
            } else {
                r matches Ok(ContactVerb::Remove { name }) && name@ == args@[1]@
            }
        } else {
            r matches Err(e) && e@ == "unknown contact command `"@ + args@[0]@
                + "` (use add, list, or remove)"@
        },
{
    if args.len() == 0 {
        return Err("contact requires add, list, or remove".to_owned());
    }
    let w = args[0].as_str();
    if str_eq(w, "add") {
        if args.len() < 2 {
            return Err("contact add requires NAME".to_owned());
        }
        if args.len() < 3 {
            return Err("contact add requires a full qaddr1… ADDRESS".to_owned());
        }
        Ok(
            ContactVerb::Add {
                name: args[1].as_str().to_owned(),
                address: args[2].as_str().to_owned(),
            },
        )
    } else if str_eq(w, "list") {
        Ok(ContactVerb::List)
    } else if str_eq(w, "remove") {
        if args.len() < 2 {
            return Err("contact remove requires NAME".to_owned());
        }
        Ok(ContactVerb::Remove { name: args[1].as_str().to_owned() })
    } else {
        let mut e: String = "unknown contact command `".to_owned();
        e.append(w);
        e.append("` (use add, list, or remove)");
        Err(e)
    }
}

/// `v` is the argument right behind the first, from the `from`-th on, that is
/// `name`.
pub open spec fn follows(args: Seq<String>, from: int, name: Seq<char>, v: Seq<char>) -> bool {
    exists|k: int|
        {
            &&& from <= k < args.len() - 1
            &&& (#[trigger] args[k])@ == name
            &&& args[k + 1]@ == v
            &&& forall|j: int| from <= j < k ==> (#[trigger] args[j])@ != name
        }
}

/// Nothing follows `name`.
pub open spec fn unanswered(args: Seq<String>, from: int, name: Seq<char>) -> bool {
    forall|v: Seq<char>| !(#[trigger] follows(args, from, name, v))
}

/// The text that follows `name`, where one does.
pub open spec fn follows_if(args: Seq<String>, from: int, name: Seq<char>, v: Option<Seq<char>>) -> bool {
    match v {
        Some(t) => follows(args, from, name, t),
        None => unanswered(args, from, name),
    }
}

/// What follows `name` is a text of this number.
pub open spec fn counts(args: Seq<String>, from: int, name: Seq<char>, n: nat) -> bool {
    exists|t: Seq<char>| #[trigger]
        follows(args, from, name, t) && number_text(t, u64::MAX as nat) == Some(n)
}

/// Some argument is `name`.
pub open spec fn stands(args: Seq<String>, from: int, name: Seq<char>) -> bool {
    exists|k: int| from <= k < args.len() && (#[trigger] args[k])@ == name
}

proof fn lemma_follows(args: Seq<String>, from: int, name: Seq<char>)
    requires
        0 <= from <= args.len(),
    ensures
        follows_if(args, from, name, flag_from(args, from, name)),
        given_from(args, from, name) <==> stands(args, from, name),
{
    law_a_flag_is_followed_by_its_value(args, from, name);
}

/// A send takes each of its answers from its own flag: the directory, the scan
/// endpoint, the recipient or the contact, the amount, the height and the file for
/// the bytes. The node is the scan endpoint's where none is named, and nothing is
/// withheld from it unless that is asked for.
pub proof fn law_a_send_takes_its_flags(args: Seq<String>, a: SendArgs)
    requires
        send_args_of(args, Ok(a)),
    ensures
        follows(args, 0, "--dir"@, a.dir@),
        follows(args, 0, "--url"@, a.url@),
        follows(args, 0, "--node"@, a.node_url@) || unanswered(args, 0, "--node"@) && a.node_url@
            == a.url@,
        counts(args, 0, "--scan-to"@, a.scan_to as nat),
        follows_if(args, 0, "--to"@, words_of_opt(a.to)),
        follows_if(args, 0, "--to-contact"@, words_of_opt(a.to_contact)),
        match a.amount {
            Some(n) => counts(args, 0, "--amount"@, n as nat),
            None => unanswered(args, 0, "--amount"@),
        },
        follows_if(args, 0, "--out"@, words_of_opt(a.out)),
        a.no_submit <==> stands(args, 0, "--no-submit"@),
{
    lemma_follows(args, 0, "--dir"@);
    lemma_follows(args, 0, "--url"@);
    lemma_follows(args, 0, "--node"@);
    lemma_follows(args, 0, "--scan-to"@);
    lemma_follows(args, 0, "--to"@);
    lemma_follows(args, 0, "--to-contact"@);
    lemma_follows(args, 0, "--amount"@);
    lemma_follows(args, 0, "--out"@);
    lemma_follows(args, 0, "--no-submit"@);
}

/// A send on the Annulet net takes each of its answers from its own flag.
pub proof fn law_an_annulet_send_takes_its_flags(args: Seq<String>, a: AnnuletSendArgs)
    requires
        send_annulet_args_of(args, Ok(a)),
    ensures
        follows(args, 0, "--dir"@, a.dir@),
        follows(args, 0, "--url"@, a.url@),
        counts(args, 0, "--scan-to"@, a.scan_to as nat),
        exists|t: Seq<char>| #[trigger]
            follows(args, 0, "--asset"@, t) && number_text(t, u16::MAX as nat) == Some(
                a.asset as nat,
            ),
        counts(args, 0, "--amount"@, a.amount as nat),
        follows(args, 0, "--to"@, a.to@),
        follows_if(args, 0, "--genesis-hash"@, words_of_opt(a.genesis_hash)),
        follows_if(args, 0, "--freeze-list"@, words_of_opt(a.freeze_list)),
{
    lemma_follows(args, 0, "--dir"@);
    lemma_follows(args, 0, "--url"@);
    lemma_follows(args, 0, "--scan-to"@);
    lemma_follows(args, 0, "--asset"@);
    lemma_follows(args, 0, "--amount"@);
    lemma_follows(args, 0, "--to"@);
    lemma_follows(args, 0, "--genesis-hash"@);
    lemma_follows(args, 0, "--freeze-list"@);
}

/// A scan takes its range from `--from` and `--to`, and starts at 0 where no start
/// is given.
pub proof fn law_a_scan_takes_its_range(args: Seq<String>, a: ScanArgs)
    requires
        scan_args_of(args, Ok(a)),
    ensures
        follows(args, 0, "--dir"@, a.dir@),
        follows(args, 0, "--url"@, a.url@),
        counts(args, 0, "--to"@, a.to as nat),
        counts(args, 0, "--from"@, a.from as nat) || unanswered(args, 0, "--from"@) && a.from == 0,
        follows_if(args, 0, "--net"@, words_of_opt(a.net)),
        follows_if(args, 0, "--genesis-hash"@, words_of_opt(a.genesis_hash)),
{
    lemma_follows(args, 0, "--dir"@);
    lemma_follows(args, 0, "--url"@);
    lemma_follows(args, 0, "--to"@);
    lemma_follows(args, 0, "--from"@);
    lemma_follows(args, 0, "--net"@);
    lemma_follows(args, 0, "--genesis-hash"@);
}

/// A mint or a redemption takes each of its answers from its own flag.
pub proof fn law_an_issuance_takes_its_flags(args: Seq<String>, a: IssueArgs)
    requires
        issue_args_of(args, Ok(a)),
    ensures
        follows(args, 0, "--dir"@, a.dir@),
        follows(args, 0, "--url"@, a.url@),
        counts(args, 0, "--scan-to"@, a.scan_to as nat),
        counts(args, 0, "--amount"@, a.amount as nat),
        follows_if(args, 0, "--genesis-hash"@, words_of_opt(a.genesis_hash)),
        follows_if(args, 0, "--freeze-list"@, words_of_opt(a.freeze_list)),
        follows_if(args, 0, "--to"@, words_of_opt(a.to)),
{
    lemma_follows(args, 0, "--dir"@);
    lemma_follows(args, 0, "--url"@);
    lemma_follows(args, 0, "--scan-to"@);
    lemma_follows(args, 0, "--amount"@);
    lemma_follows(args, 0, "--genesis-hash"@);
    lemma_follows(args, 0, "--freeze-list"@);
    lemma_follows(args, 0, "--to"@);
}

/// A name is pinned to the fingerprint that stands behind it.
pub proof fn law_a_pin_takes_its_words(args: Seq<String>, a: NamesPinArgs)
    requires
        names_pin_args_of(args, Ok(a)),
    ensures
        args.len() > 2,
        a.name@ == args[1]@ && a.fingerprint@ == args[2]@,
        follows(args, 3, "--dir"@, a.dir@),
{
    lemma_follows(args, 3, "--dir"@);
}

/// A ledger takes its range from `--from` and `--to`, and starts at 0 where no
/// start is given.
pub proof fn law_a_ledger_takes_its_range(args: Seq<String>, a: HistoryArgs)
    requires
        history_args_of(args, Ok(a)),
    ensures
        follows(args, 0, "--dir"@, a.dir@),
        follows(args, 0, "--url"@, a.url@),
        counts(args, 0, "--to"@, a.to as nat),
        counts(args, 0, "--from"@, a.from as nat) || unanswered(args, 0, "--from"@) && a.from == 0,
{
    lemma_follows(args, 0, "--dir"@);
    lemma_follows(args, 0, "--url"@);
    lemma_follows(args, 0, "--to"@);
    lemma_follows(args, 0, "--from"@);
}

/// A send to oneself takes each of its answers from its own flag, and asks the scan
/// endpoint where no node is named.
pub proof fn law_a_self_send_takes_its_flags(args: Seq<String>, a: SelfSendArgs)
    requires
        self_send_args_of(args, Ok(a)),
    ensures
        follows(args, 0, "--dir"@, a.dir@),
        follows(args, 0, "--url"@, a.url@),
        follows(args, 0, "--node"@, a.node_url@) || unanswered(args, 0, "--node"@) && a.node_url@
            == a.url@,
        counts(args, 0, "--scan-to"@, a.scan_to as nat),
        a.no_submit <==> stands(args, 0, "--no-submit"@),
{
    lemma_follows(args, 0, "--dir"@);
    lemma_follows(args, 0, "--url"@);
    lemma_follows(args, 0, "--node"@);
    lemma_follows(args, 0, "--scan-to"@);
    lemma_follows(args, 0, "--no-submit"@);
}

/// The subcommands of the names take their words by place and the rest from their
/// flags behind them.
pub proof fn law_name_commands_take_their_words(
    args: Seq<String>,
    sync: NamesSyncArgs,
    resolve: NamesResolveArgs,
    register: RegisterArgs,
    at: RegisterHeight,
)
    ensures
        args.len() > 0 && names_sync_args_of(args, Ok(sync)) ==> {
            &&& follows(args, 1, "--dir"@, sync.dir@)
            &&& follows(args, 1, "--url"@, sync.url@)
            &&& counts(args, 1, "--to"@, sync.to as nat)
        },
        names_resolve_args_of(args, Ok(resolve)) ==> {
            &&& args.len() > 1 && resolve.name@ == args[1]@
            &&& follows(args, 2, "--dir"@, resolve.dir@)
            &&& counts(args, 2, "--tip"@, resolve.tip as nat)
        },
        register_args_of(args, Ok(register)) ==> {
            &&& args.len() > 0 && register.name@ == args[0]@
            &&& follows(args, 1, "--dir"@, register.dir@)
            &&& follows_if(args, 1, "--committed-at"@, words_of_opt(register.committed_at))
            &&& (register.no_submit <==> stands(args, 1, "--no-submit"@))
        },
        args.len() > 0 && register_height_of(args, Ok(at)) ==> counts(
            args,
            1,
            "--scan-to"@,
            at.scan_to as nat,
        ),
{
    if args.len() > 0 {
        lemma_follows(args, 1, "--dir"@);
        lemma_follows(args, 1, "--url"@);
        lemma_follows(args, 1, "--to"@);
        lemma_follows(args, 1, "--committed-at"@);
        lemma_follows(args, 1, "--no-submit"@);
        lemma_follows(args, 1, "--scan-to"@);
    }
    if args.len() > 1 {
        lemma_follows(args, 2, "--dir"@);
        lemma_follows(args, 2, "--tip"@);
    }
}

/// A look at addresses, a miner's key and an issuer's key take each of their
/// answers from its own flag.
pub proof fn law_key_commands_take_their_flags(
    args: Seq<String>,
    a: AddressArgs,
    m: MinerArgs,
    k: IssuerKeyArgs,
)
    ensures
        address_args_of(args, Ok(a)) ==> {
            &&& follows(args, 0, "--dir"@, a.dir@)
            &&& follows_if(args, 0, "--amount-qmb"@, words_of_opt(a.amount_qmb))
            &&& follows_if(args, 0, "--label"@, words_of_opt(a.label))
            &&& follows_if(args, 0, "--qr-svg"@, words_of_opt(a.qr_svg))
            &&& follows_if(args, 0, "--index"@, words_of_opt(a.index))
            &&& (a.qr <==> stands(args, 0, "--qr"@))
            &&& (a.uri <==> stands(args, 0, "--uri"@))
            &&& (a.fresh <==> stands(args, 0, "--new"@))
        },
        miner_args_of(args, Ok(m)) ==> {
            &&& follows(args, 0, "--dir"@, m.dir@)
            &&& counts(args, 0, "--index"@, m.index as nat) || unanswered(args, 0, "--index"@)
                && m.index == 0
        },
        issuer_key_args_of(args, Ok(k)) ==> {
            &&& follows(args, 0, "--dir"@, k.dir@)
            &&& exists|t: Seq<char>| #[trigger]
                follows(args, 0, "--asset"@, t) && number_text(t, u16::MAX as nat) == Some(
                    k.asset as nat,
                )
        },
{
    lemma_follows(args, 0, "--dir"@);
    lemma_follows(args, 0, "--amount-qmb"@);
    lemma_follows(args, 0, "--label"@);
    lemma_follows(args, 0, "--qr-svg"@);
    lemma_follows(args, 0, "--index"@);
    lemma_follows(args, 0, "--qr"@);
    lemma_follows(args, 0, "--uri"@);
    lemma_follows(args, 0, "--new"@);
    lemma_follows(args, 0, "--asset"@);
}

} // verus!
