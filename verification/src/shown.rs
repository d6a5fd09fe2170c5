//! What the commands say of names, addresses and issued assets.
use crate::issuer::lanes_hex;
#[allow(unused_imports)]
use crate::issuer::lanes_text;
use crate::names::{PinVerdict, Resolution, WalletRegistry};
use crate::text::push_dec;
#[allow(unused_imports)]
use crate::text::dec;
use vstd::prelude::*;

verus! {

/// What is said of a sync of the names that began at a height.
pub fn synced_line(before: u64, registry: &WalletRegistry) -> (r: String)
    requires
        registry.wf(),
    ensures
        r@ == "names: synced "@ + dec(before as nat) + " → "@ + dec(registry.synced_to as nat)
            + "; "@ + dec(registry.model().dom().len()) + " registration(s) known"@,
{
    let mut s: String = "names: synced ".to_owned();
    push_dec(&mut s, before);
    s.append(" → ");
    push_dec(&mut s, registry.synced_to);
    s.append("; ");
    push_dec(&mut s, registry.len() as u64);
    s.append(" registration(s) known");
    s
}

/// What is said of a pin.
pub open spec fn pin_words(v: PinVerdict) -> Seq<char> {
    match v {
        PinVerdict::Match => "pinned ✓"@,
        PinVerdict::FirstUse { .. } => "NOT pinned — verify out of band"@,
        PinVerdict::Rebind { pinned, .. } => "🔴 REBIND (you pinned "@ + pinned@ + ")"@,
    }
}

fn pin_phrase(v: &PinVerdict) -> (r: String)
    ensures
        r@ == pin_words(*v),
{
    match v {
        PinVerdict::Match => "pinned ✓".to_owned(),
        PinVerdict::FirstUse { .. } => "NOT pinned — verify out of band".to_owned(),
        PinVerdict::Rebind { pinned, .. } => {
            let mut s: String = "🔴 REBIND (you pinned ".to_owned();
            s.append(pinned.as_str());
            s.append(")");
            s
        },
    }
}

/// An address as it is shown: whole, and its fingerprint.
#[derive(Clone, Debug, PartialEq, Eq)]
pub struct Shown {
    pub full: String,
    pub short: String,
}

/// What is said of a name that resolves inside its term.
pub open spec fn active_text(
    name: Seq<char>,
    a: Shown,
    v: PinVerdict,
    registered: u64,
    expiry: u64,
) -> Seq<char> {
    name + " → "@ + a.full@ + "\n  fingerprint "@ + a.short@ + "  ["@ + pin_words(v)
        + "]\n  registered "@ + dec(registered as nat) + "  expires "@ + dec(expiry as nat)
}

/// What is said of a name at a height; `address` is its entry's, where it
/// decodes, and `verdict` what the pins say of it.
pub fn resolved_text(
    name: &str,
    tip: u64,
    resolution: &Resolution,
    address: Option<&Shown>,
    verdict: &PinVerdict,
) -> (r: Result<String, String>)
    ensures
        match resolution {
            Resolution::Unknown => r matches Ok(s) && s@ == name@
                + ": not registered (as of height "@ + dec(tip as nat) + ")"@,
            Resolution::Active(e) => match address {
                None => r matches Err(w) && w@ == "entry does not decode"@,
                Some(a) => r matches Ok(s) && s@ == active_text(
                    name@,
                    *a,
                    *verdict,
                    e.registered,
                    e.expiry,
                ),
            },
            Resolution::Expiring { entry: _, reopens_at } => match address {
                None => r matches Err(w) && w@ == "entry does not decode"@,
                Some(a) => r matches Ok(s) && s@ == name@ + " → "@ + a.short@
                    + " (⚠ in grace; re-registrable at "@ + dec(*reopens_at as nat) + ")"@,
            },
        },
{
    match resolution {
        Resolution::Unknown => {
            let mut s: String = name.to_owned();
            s.append(": not registered (as of height ");
            push_dec(&mut s, tip);
            s.append(")");
            Ok(s)
        },
        Resolution::Active(e) => match address {
            None => Err("entry does not decode".to_owned()),
            Some(a) => {
                let mut s: String = name.to_owned();
                s.append(" → ");
                s.append(a.full.as_str());
                s.append("\n  fingerprint ");
                s.append(a.short.as_str());
                s.append("  [");
                s.append(pin_phrase(verdict).as_str());
                s.append("]\n  registered ");
                push_dec(&mut s, e.registered);
                s.append("  expires ");
                push_dec(&mut s, e.expiry);
                Ok(s)
            },
        },
        Resolution::Expiring { entry: _, reopens_at } => match address {
            None => Err("entry does not decode".to_owned()),
            Some(a) => {
                let mut s: String = name.to_owned();
                s.append(" → ");
                s.append(a.short.as_str());
                s.append(" (⚠ in grace; re-registrable at ");
                push_dec(&mut s, *reopens_at);
                s.append(")");
                Ok(s)
            },
        },
    }
}

/// Whether an index is among the allocated ones.
pub fn is_allocated(allocated: &Vec<u64>, index: u64) -> (r: bool)
    ensures
        r == allocated@.contains(index),
{
    let mut i: usize = 0;
    while i < allocated.len()
        invariant
            i <= allocated@.len(),
            forall|k: int| 0 <= k < i ==> allocated@[k] != index,
        decreases allocated@.len() - i,
    {
        if allocated[i] == index {
            return true;
        }
        i += 1;
    }
    false
}

/// The line above an address.
pub fn address_head(allocated: &Vec<u64>, index: u64) -> (r: String)
    ensures
        r@ == "address ["@ + dec(index as nat) + "]"@ + (if allocated@.contains(index) {
            Seq::empty()
        } else {
            " (NOT in this wallet's allocated set — valid, but scans here won't cover it until allocated)"@
        }) + ":"@,
{
    let mut s: String = "address [".to_owned();
    push_dec(&mut s, index);
    s.append("]");
    if !is_allocated(allocated, index) {
        s.append(
            " (NOT in this wallet's allocated set — valid, but scans here won't cover it until allocated)",
        );
    } else {
        assert(s@ + Seq::<char>::empty() =~= s@);
    }
    s.append(":");
    s
}

/// What is said of a freeze list and its root.
pub fn freeze_line(keys: usize, root: &[u64; 4]) -> (r: String)
    ensures
        r@ == "freeze list: "@ + dec(keys as nat) + " key(s); root "@ + lanes_text(root@),
{
    let mut s: String = "freeze list: ".to_owned();
    push_dec(&mut s, keys as u64);
    s.append(" key(s); root ");
    s.append(lanes_hex(root).as_str());
    s
}

/// What is said of a mint, or of a redemption.
pub fn issued_line(mint: bool, amount: u64, asset: u16) -> (r: String)
    ensures
        r@ == (if mint {
            "mint"@
        } else {
            "redeem"@
        }) + "ed "@ + dec(amount as nat) + " of asset "@ + dec(asset as nat)
            + " (shape P, vPublic "@ + (if mint {
            "+"@
        } else {
            "-"@
        }) + dec(amount as nat) + ")"@,
{
    let mut s: String = (if mint {
        "mint"
    } else {
        "redeem"
    }).to_owned();
    s.append("ed ");
    push_dec(&mut s, amount);
    s.append(" of asset ");
    push_dec(&mut s, asset as u64);
    s.append(" (shape P, vPublic ");
    s.append(
        if mint {
            "+"
        } else {
            "-"
        },
    );
    push_dec(&mut s, amount);
    s.append(")");
    s
}

/// What is said of a send on the Annulet net; `shape` is the payment's, in its
/// own word.
pub fn annulet_sent_line(amount: u64, asset: u16, shape: &str, change: u64) -> (r: String)
    ensures
        r@ == "sent "@ + dec(amount as nat) + " of asset "@ + dec(asset as nat) + " (shape "@
            + shape@ + "); change "@ + dec(change as nat) + " back to this wallet"@,
{
    let mut s: String = "sent ".to_owned();
    push_dec(&mut s, amount);
    s.append(" of asset ");
    push_dec(&mut s, asset as u64);
    s.append(" (shape ");
    s.append(shape);
    s.append("); change ");
    push_dec(&mut s, change);
    s.append(" back to this wallet");
    s
}

/// The line that says that the Annulet net is used, and whether its genesis is
/// pinned.
pub fn annulet_net_line(pinned: bool) -> (r: String)
    ensures
        r@ == "net: annulet (from --net; verified against the endpoint's /v1/genesis/notes"@ + (
        if pinned {
            ", pinned by --genesis-hash"@
        } else {
            " — unpinned: pass --genesis-hash against an endpoint you do not trust"@
        }) + ")"@,
{
    let mut s: String =
        "net: annulet (from --net; verified against the endpoint's /v1/genesis/notes".to_owned();
    s.append(
        if pinned {
            ", pinned by --genesis-hash"
        } else {
            " — unpinned: pass --genesis-hash against an endpoint you do not trust"
        },
    );
    s.append(")");
    s
}

pub const REVEAL_MISSING: &'static str = "backup prints your mnemonic — key material. Re-run with --reveal, on a screen nobody is watching and a terminal that does not log.";

/// Admits the display of the mnemonic: only where it was asked for by its flag.
pub fn admit_backup(reveal: bool) -> (r: Result<(), String>)
    ensures
        r is Ok <==> reveal,
        r matches Err(e) ==> e@ == REVEAL_MISSING@,
{
    if reveal {
        Ok(())
    } else {
        Err(REVEAL_MISSING.to_owned())
    }
}

} // verus!
