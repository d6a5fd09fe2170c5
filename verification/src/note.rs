//! Notes as the wallet holds them.
use vstd::prelude::*;

verus! {

/// A note's plaintext.
#[derive(Clone, Copy, Debug, PartialEq, Eq)]
pub struct Note {
    pub value: u64,
    /// The key that the note pays.
    pub rkm: [u64; 4],
    pub rho: [u64; 4],
    pub rseed: [u64; 4],
}

/// A note that a scan opened, and where on the chain it stands.
#[derive(Clone, Copy, Debug, PartialEq, Eq)]
pub struct LocatedNote {
    pub height: u64,
    pub tx_index: u64,
    pub recipient_index: u64,
    /// The note's commitment.
    pub cm: [u8; 32],
    pub note: Note,
    /// The nullifier that a spend of this note publishes.
    pub nullifier: [u8; 32],
}

} // verus!
