//! The decision core of a light-client wallet: what it reads, decides, writes
//! and says. The sockets, the files and the keys are around it.
use crate::text::str_eq;
use vstd::prelude::*;

pub mod annulet;
pub mod annulet_choice;
pub mod annulet_laws;
pub mod annulet_run;
pub mod annulet_send;
pub mod args;
pub mod bundle;
pub mod bytes32;
pub mod cli;
pub mod coinbase;
pub mod contacts;
pub mod driver;
pub mod envelope;
pub mod host;
pub mod issuer;
pub mod ledger_run;
pub mod names;
pub mod net;
pub mod note;
pub mod order;
pub mod paging;
pub mod payee;
pub mod qr;
pub mod random;
pub mod register;
pub mod register_run;
pub mod scan;
pub mod send;
pub mod sends;
pub mod shown;
pub mod spend;
pub mod spent;
pub mod store;
pub mod sync;
pub mod table;
pub mod text;
pub mod wire;

verus! {

/// The line that says which revision a binary was built from; `stamp` is what
/// the release stamped into it. An empty stamp is none, so the line is never
/// empty.
pub fn build_rev_line(stamp: Option<&str>) -> (r: String)
    ensures
        r@ == (match stamp {
            Some(rev) => if rev@.len() > 0 {
                rev@
            } else {
                "unstamped — not built by the release lane"@
            },
            None => "unstamped — not built by the release lane"@,
        }),
        r@.len() > 0,
{
    proof {
        reveal_strlit("unstamped — not built by the release lane");
    }
    match stamp {
        Some(rev) => {
            if str_eq(rev, "") {
                proof {
                    reveal_strlit("");
                }
                "unstamped — not built by the release lane".to_owned()
            } else {
                proof {
                    reveal_strlit("");
                    assert(rev@.len() == 0 ==> rev@ =~= ""@);
                }
                rev.to_owned()
            }
        },
        None => "unstamped — not built by the release lane".to_owned(),
    }
}

} // verus!
