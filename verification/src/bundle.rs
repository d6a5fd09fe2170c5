//! The serializable boundary between choosing a spend and proving it.
//!
//! A [`WitnessBundle`] is spend authority for exactly one transaction. Its
//! checksum catches a truncated or edited handoff; it is no authentication.
//! The semantic checks carry the weight: before a proof is started, a bundle
//! must show that the scan reached an allowed verdict and that the nullifier
//! stream covered it, and its inputs, paths, outputs, balance, anchor and
//! discovery group must agree with one another.
//!
//! Hashes are not computed here. What they give is handed in: the checksum of
//! the encoded bytes, and the [`BundleFacts`] that a validation compares with.
use crate::bytes32::{bytes_eq, copied, eq32, lanes_eq};
use crate::paging::range_contains;
#[allow(unused_imports)]
use crate::paging::contains_range;
use crate::text::push_dec;
#[allow(unused_imports)]
use crate::text::dec;
use crate::wire::{
    digest_bytes, put_bytes, put_input, put_lanes, put_output, put_range, put_raw, put_u64,
    put_witness, Reader,
};
#[allow(unused_imports)]
use crate::wire::{
    after, bool_byte, has_at, input_bytes, input_wf, is_fault, lane_bytes, lanes_views,
    output_bytes, output_wf, range_bytes, sized_bytes, sound, spans, witness_bytes, witness_wf,
    Cursor,
};
use crate::text::utf8_string;
#[allow(unused_imports)]
use vstd::bytes::spec_u64_to_le_bytes;
use vstd::prelude::*;
#[allow(unused_imports)]
use vstd::utf8::{decode_utf8, encode_utf8, valid_utf8};
use zeroize::Zeroize;

verus! {

/// What a spend of one note is built from.
#[derive(Clone, Copy, PartialEq, Eq)]
pub struct TxInput {
    pub sk: [u64; 4],
    pub value: u64,
    pub rho: [u64; 4],
    pub rseed: [u64; 4],
    pub d: [u64; 2],
}

/// The path from a leaf to the root.
#[derive(Clone, Debug, PartialEq, Eq)]
pub struct MerkleWitness {
    pub siblings: Vec<[u64; 4]>,
    pub path_bits: Vec<bool>,
}

/// One output's plaintext.
#[derive(Clone, Copy, Debug, PartialEq, Eq)]
pub struct TxOutput {
    pub value: u64,
    pub rkm: [u64; 4],
    pub rho: [u64; 4],
    pub rseed: [u64; 4],
}

pub struct InputModel {
    pub sk: Seq<u64>,
    pub value: u64,
    pub rho: Seq<u64>,
    pub rseed: Seq<u64>,
    pub d: Seq<u64>,
}

pub struct WitnessModel {
    pub siblings: Seq<Seq<u64>>,
    pub path_bits: Seq<bool>,
}

pub struct OutputModel {
    pub value: u64,
    pub rkm: Seq<u64>,
    pub rho: Seq<u64>,
    pub rseed: Seq<u64>,
}

impl View for TxInput {
    type V = InputModel;

    open spec fn view(&self) -> InputModel {
        InputModel {
            sk: self.sk@,
            value: self.value,
            rho: self.rho@,
            rseed: self.rseed@,
            d: self.d@,
        }
    }
}

impl View for MerkleWitness {
    type V = WitnessModel;

    open spec fn view(&self) -> WitnessModel {
        WitnessModel {
            siblings: crate::wire::lanes_views(self.siblings@),
            path_bits: self.path_bits@,
        }
    }
}

impl View for TxOutput {
    type V = OutputModel;

    open spec fn view(&self) -> OutputModel {
        OutputModel { value: self.value, rkm: self.rkm@, rho: self.rho@, rseed: self.rseed@ }
    }
}

/// A named refusal of a bundle.
#[derive(Debug, PartialEq, Eq)]
pub enum BundleError {
    UnknownVersion(u8),
    ChecksumMismatch,
    PhaseOneVerdictMissing,
    NullifierCoverageMissing { covered: Option<(u64, u64)>, outputs: Option<(u64, u64)> },
    Malformed(String),
}


/// What stands in front of every bundle; a version byte follows.
pub const WITNESS_BUNDLE_MAGIC: [u8; 8] = [0x51, 0x4d, 0x42, 0x57, 0x49, 0x54, 0x4e, 0x00];

/// The only bundle schema that is read.
pub const WITNESS_BUNDLE_VERSION: u8 = 1;

/// How many bytes of checksum close a bundle.
pub const CHECKSUM_LEN: usize = 32;

/// What stands in front of the encoded bytes when they are hashed.
pub const CHECKSUM_DOMAIN: &'static str = "qumbra:witness-bundle:v1";

/// A handoff to the prover. It holds spending-key material.
#[derive(Clone)]
pub struct WitnessBundle {
    pub inputs: [TxInput; 2],
    pub witnesses: [MerkleWitness; 2],
    pub outputs: [TxOutput; 2],
    pub anchor: [u64; 4],
    pub discovery: Vec<u8>,
    /// The name-service rider; its absence is one byte, never none.
    pub rider: Vec<u8>,
    pub real_inputs: u8,
    pub amount: u64,
    pub fee: u64,
    pub change_value: u64,
    pub anchor_tip_height: u64,
    pub recipient_short: String,
    /// Every scanned address reached an allowed verdict.
    pub allowed_scan_verdicts_only: bool,
    /// The heights that the scanned outputs came from.
    pub output_range: Option<(u64, u64)>,
    /// The heights whose nullifiers were read.
    pub spent_covered: Option<(u64, u64)>,
}

/// What a bundle holds.
pub struct BundleModel {
    pub allowed: bool,
    pub output_range: Option<(u64, u64)>,
    pub spent_covered: Option<(u64, u64)>,
    pub real_inputs: u8,
    pub amount: u64,
    pub fee: u64,
    pub change_value: u64,
    pub anchor_tip_height: u64,
    pub anchor: Seq<u64>,
    pub input0: InputModel,
    pub input1: InputModel,
    pub witness0: WitnessModel,
    pub witness1: WitnessModel,
    pub output0: OutputModel,
    pub output1: OutputModel,
    pub recipient_short: Seq<char>,
    pub discovery: Seq<u8>,
    pub rider: Seq<u8>,
}

impl View for WitnessBundle {
    type V = BundleModel;

    open spec fn view(&self) -> BundleModel {
        BundleModel {
            allowed: self.allowed_scan_verdicts_only,
            output_range: self.output_range,
            spent_covered: self.spent_covered,
            real_inputs: self.real_inputs,
            amount: self.amount,
            fee: self.fee,
            change_value: self.change_value,
            anchor_tip_height: self.anchor_tip_height,
            anchor: self.anchor@,
            input0: self.inputs@[0]@,
            input1: self.inputs@[1]@,
            witness0: self.witnesses@[0]@,
            witness1: self.witnesses@[1]@,
            output0: self.outputs@[0]@,
            output1: self.outputs@[1]@,
            recipient_short: self.recipient_short@,
            discovery: self.discovery@,
            rider: self.rider@,
        }
    }
}

impl BundleModel {
    /// What every bundle of a tree of the given depth can hold and encode.
    pub open spec fn wf(self, depth: nat) -> bool {
        &&& self.output_range matches Some((a, b)) ==> a <= b
        &&& self.spent_covered matches Some((a, b)) ==> a <= b
        &&& self.anchor.len() == 4
        &&& input_wf(self.input0) && input_wf(self.input1)
        &&& witness_wf(self.witness0, depth) && witness_wf(self.witness1, depth)
        &&& output_wf(self.output0) && output_wf(self.output1)
        &&& encode_utf8(self.recipient_short).len() <= u32::MAX
        &&& self.discovery.len() <= u32::MAX
        &&& self.rider.len() <= u32::MAX
    }

    /// The numbers in front, without the anchor.
    pub open spec fn head(self) -> Seq<u8> {
        seq![bool_byte(self.allowed)] + range_bytes(self.output_range) + range_bytes(
            self.spent_covered,
        ) + seq![self.real_inputs] + spec_u64_to_le_bytes(self.amount) + spec_u64_to_le_bytes(
            self.fee,
        ) + spec_u64_to_le_bytes(self.change_value) + spec_u64_to_le_bytes(self.anchor_tip_height)
    }

    /// The fields in their order.
    pub open spec fn payload(self) -> Seq<u8> {
        self.head() + lane_bytes(self.anchor) + input_bytes(self.input0) + input_bytes(self.input1)
            + witness_bytes(self.witness0) + witness_bytes(self.witness1) + output_bytes(
            self.output0,
        ) + output_bytes(self.output1) + sized_bytes(encode_utf8(self.recipient_short))
            + sized_bytes(self.discovery) + sized_bytes(self.rider)
    }

    /// The magic, the version and the fields: what the checksum covers.
    pub open spec fn encoded(self) -> Seq<u8> {
        WITNESS_BUNDLE_MAGIC@ + seq![WITNESS_BUNDLE_VERSION] + self.payload()
    }
}

/// Refuses a text that is not UTF-8.
pub open spec fn read_text(c: Cursor, b: Seq<u8>) -> Cursor {
    if c.fault is None && !valid_utf8(b) {
        c.fail("recipient short is not UTF-8"@)
    } else {
        c
    }
}

/// Reads the numbers in front, without the anchor.
pub open spec fn read_head(c0: Cursor) -> (BundleModel, Cursor) {
    let (allowed, c1) = c0.read_bool("phase-1 scan gate"@);
    let (output_range, c2) = c1.read_range("scan output range"@);
    let (spent_covered, c3) = c2.read_range("phase-1 nullifier coverage"@);
    let (real_inputs, c4) = c3.read_u8("real input count"@);
    let (amount, c5) = c4.read_u64("amount"@);
    let (fee, c6) = c5.read_u64("fee"@);
    let (change_value, c7) = c6.read_u64("change"@);
    let (anchor_tip_height, c8) = c7.read_u64("anchor tip height"@);
    (
        BundleModel {
            allowed,
            output_range,
            spent_covered,
            real_inputs,
            amount,
            fee,
            change_value,
            anchor_tip_height,
            ..arbitrary()
        },
        c8,
    )
}

/// Reads the fields in their order.
pub open spec fn read_payload(s: Seq<u8>, depth: nat) -> (BundleModel, Cursor) {
    let (h, c8) = read_head(Cursor { s, pos: 0, fault: None });
    let (anchor, c9) = c8.read_lanes(4, "anchor"@);
    let (input0, c10) = c9.read_input("input 0"@);
    let (input1, c11) = c10.read_input("input 1"@);
    let (witness0, c12) = c11.read_witness(depth, "witness 0"@);
    let (witness1, c13) = c12.read_witness(depth, "witness 1"@);
    let (output0, c14) = c13.read_output("output 0"@);
    let (output1, c15) = c14.read_output("output 1"@);
    let (text, c16) = c15.read_bytes("recipient short"@);
    let (discovery, c17) = read_text(c16, text).read_bytes("discovery"@);
    let (rider, c18) = c17.read_bytes("name-service rider"@);
    (
        BundleModel {
            allowed: h.allowed,
            output_range: h.output_range,
            spent_covered: h.spent_covered,
            real_inputs: h.real_inputs,
            amount: h.amount,
            fee: h.fee,
            change_value: h.change_value,
            anchor_tip_height: h.anchor_tip_height,
            anchor,
            input0,
            input1,
            witness0,
            witness1,
            output0,
            output1,
            recipient_short: decode_utf8(text),
            discovery,
            rider,
        },
        c18.finish(),
    )
}

/// How a decoding ends.
pub enum Decoded {
    Bundle(BundleModel),
    UnknownVersion(u8),
    ChecksumMismatch,
    Malformed(Seq<char>),
}

/// What the bytes of a bundle decode to, if `checksum` is the checksum of all
/// of them but the last [`CHECKSUM_LEN`].
pub open spec fn decode(bytes: Seq<u8>, checksum: Seq<u8>, depth: nat) -> Decoded {
    let split = bytes.len() - CHECKSUM_LEN;
    if bytes.len() < 8 + 1 + CHECKSUM_LEN {
        Decoded::Malformed("record is shorter than its header and checksum"@)
    } else if bytes.take(8) != WITNESS_BUNDLE_MAGIC@ {
        Decoded::Malformed("witness-bundle magic is absent"@)
    } else if bytes[8] != WITNESS_BUNDLE_VERSION {
        Decoded::UnknownVersion(bytes[8])
    } else if bytes.skip(split) != checksum {
        Decoded::ChecksumMismatch
    } else {
        let (m, c) = read_payload(bytes.subrange(9, split), depth);
        match c.fault {
            Some(why) => Decoded::Malformed(why),
            None => Decoded::Bundle(m),
        }
    }
}

/// The bytes that are hashed for the checksum of `encoded`: the domain, then
/// the encoded bytes.
pub fn checksum_preimage(encoded: &[u8]) -> (r: Vec<u8>)
    ensures
        r@ == encode_utf8(CHECKSUM_DOMAIN@) + encoded@,
{
    let mut r: Vec<u8> = Vec::new();
    put_raw(&mut r, CHECKSUM_DOMAIN.as_bytes());
    put_raw(&mut r, encoded);
    assert(r@ =~= encode_utf8(CHECKSUM_DOMAIN@) + encoded@);
    r
}

/// The part of a bundle's bytes that its checksum covers; nothing if the
/// bytes are too few.
pub fn encoded_part(bytes: &[u8]) -> (r: Vec<u8>)
    ensures
        r@ == (if bytes@.len() >= CHECKSUM_LEN {
            bytes@.take(bytes@.len() - CHECKSUM_LEN)
        } else {
            Seq::empty()
        }),
{
    if bytes.len() < CHECKSUM_LEN {
        return Vec::new();
    }
    let part = vstd::slice::slice_subrange(bytes, 0, bytes.len() - CHECKSUM_LEN);
    assert(part@ =~= bytes@.take(bytes@.len() - CHECKSUM_LEN));
    copied(part)
}

impl WitnessBundle {
    /// The magic, the version and every field: the bytes that the checksum is
    /// taken of.
    pub fn encode(&self) -> (r: Vec<u8>)
        requires
            encode_utf8(self.recipient_short@).len() <= u32::MAX,
            self.discovery@.len() <= u32::MAX,
            self.rider@.len() <= u32::MAX,
        ensures
            r@ == self@.encoded(),
    {
        let mut out: Vec<u8> = Vec::new();
        put_raw(&mut out, &WITNESS_BUNDLE_MAGIC);
        out.push(WITNESS_BUNDLE_VERSION);
        assert(out@ =~= WITNESS_BUNDLE_MAGIC@ + seq![WITNESS_BUNDLE_VERSION]);
        let fields = self.fields();
        put_raw(&mut out, &fields);
        out
    }

    fn fields(&self) -> (r: Vec<u8>)
        requires
            encode_utf8(self.recipient_short@).len() <= u32::MAX,
            self.discovery@.len() <= u32::MAX,
            self.rider@.len() <= u32::MAX,
        ensures
            r@ == self@.payload(),
    {
        let mut out: Vec<u8> = Vec::new();
        out.push(if self.allowed_scan_verdicts_only { 1 } else { 0 });
        assert(out@ =~= seq![bool_byte(self@.allowed)]);
        put_range(&mut out, self.output_range);
        put_range(&mut out, self.spent_covered);
        let ghost q = out@;
        out.push(self.real_inputs);
        assert(out@ =~= q + seq![self.real_inputs]);
        put_u64(&mut out, self.amount);
        put_u64(&mut out, self.fee);
        put_u64(&mut out, self.change_value);
        put_u64(&mut out, self.anchor_tip_height);
        assert(out@ == self@.head());
        put_lanes(&mut out, &self.anchor);
        put_input(&mut out, &self.inputs[0]);
        put_input(&mut out, &self.inputs[1]);
        put_witness(&mut out, &self.witnesses[0]);
        put_witness(&mut out, &self.witnesses[1]);
        put_output(&mut out, &self.outputs[0]);
        put_output(&mut out, &self.outputs[1]);
        put_bytes(&mut out, self.recipient_short.as_str().as_bytes());
        put_bytes(&mut out, &self.discovery);
        put_bytes(&mut out, &self.rider);
        out
    }

    /// The bundle's bytes: what [`WitnessBundle::encode`] gives, then its
    /// checksum.
    pub fn to_bytes(&self, checksum: &[u8; 32]) -> (r: Vec<u8>)
        requires
            encode_utf8(self.recipient_short@).len() <= u32::MAX,
            self.discovery@.len() <= u32::MAX,
            self.rider@.len() <= u32::MAX,
        ensures
            r@ == self@.encoded() + checksum@,
    {
        let mut out = self.encode();
        put_raw(&mut out, checksum);
        out
    }

    /// Reads a bundle back: the magic, a known version, the checksum, then
    /// every field. `checksum` is the checksum of [`encoded_part`] of the
    /// bytes, and `depth` that of the commitment tree. A bundle that was read
    /// still has to be validated: [`WitnessBundle::from_bytes`] does both.
    pub fn read_bytes(bytes: &[u8], checksum: &[u8; 32], depth: usize) -> (r: Result<
        WitnessBundle,
        BundleError,
    >)
        ensures
            match r {
                Ok(b) => decode(bytes@, checksum@, depth as nat) == Decoded::Bundle(b@),
                Err(BundleError::UnknownVersion(v)) => decode(bytes@, checksum@, depth as nat)
                    == Decoded::UnknownVersion(v),
                Err(BundleError::ChecksumMismatch) => decode(bytes@, checksum@, depth as nat)
                    == Decoded::ChecksumMismatch,
                Err(BundleError::Malformed(why)) => decode(bytes@, checksum@, depth as nat)
                    == Decoded::Malformed(why@),
                Err(_) => false,
            },
    {
        if bytes.len() < 8 + 1 + CHECKSUM_LEN {
            return Err(
                BundleError::Malformed(
                    "record is shorter than its header and checksum".to_owned(),
                ),
            );
        }
        let magic = vstd::slice::slice_subrange(bytes, 0, 8);
        assert(magic@ =~= bytes@.take(8));
        if !bytes_eq(magic, &WITNESS_BUNDLE_MAGIC) {
            return Err(BundleError::Malformed("witness-bundle magic is absent".to_owned()));
        }
        let version: u8 = bytes[8];
        if version != WITNESS_BUNDLE_VERSION {
            return Err(BundleError::UnknownVersion(version));
        }
        let split: usize = bytes.len() - CHECKSUM_LEN;
        let got = vstd::slice::slice_subrange(bytes, split, bytes.len());
        assert(got@ =~= bytes@.skip(split as int));
        if !bytes_eq(got, checksum) {
            return Err(BundleError::ChecksumMismatch);
        }
        let body = vstd::slice::slice_subrange(bytes, 9, split);
        WitnessBundle::read_fields(body, depth)
    }

    fn read_fields(body: &[u8], depth: usize) -> (r: Result<WitnessBundle, BundleError>)
        ensures
            ({
                let (m, c) = read_payload(body@, depth as nat);
                match r {
                    Ok(b) => c.fault is None && b@ == m,
                    Err(e) => is_fault(e, c),
                }
            }),
    {
        let mut r = Reader::new(body);
        let allowed_scan_verdicts_only = match r.bool("phase-1 scan gate") {
            Ok(x) => x,
            Err(e) => {
                return Err(e);
            },
        };
        let output_range = match r.range("scan output range") {
            Ok(x) => x,
            Err(e) => {
                return Err(e);
            },
        };
        let spent_covered = match r.range("phase-1 nullifier coverage") {
            Ok(x) => x,
            Err(e) => {
                return Err(e);
            },
        };
        let real_inputs: u8 = match r.u8("real input count") {
            Ok(x) => x,
            Err(e) => {
                return Err(e);
            },
        };
        let amount: u64 = match r.u64("amount") {
            Ok(x) => x,
            Err(e) => {
                return Err(e);
            },
        };
        let fee: u64 = match r.u64("fee") {
            Ok(x) => x,
            Err(e) => {
                return Err(e);
            },
        };
        let change_value: u64 = match r.u64("change") {
            Ok(x) => x,
            Err(e) => {
                return Err(e);
            },
        };
        let anchor_tip_height: u64 = match r.u64("anchor tip height") {
            Ok(x) => x,
            Err(e) => {
                return Err(e);
            },
        };
        let anchor = match r.lanes("anchor") {
            Ok(x) => x,
            Err(e) => {
                return Err(e);
            },
        };
        let input0 = match r.input("input 0") {
            Ok(x) => x,
            Err(e) => {
                return Err(e);
            },
        };
        let input1 = match r.input("input 1") {
            Ok(x) => x,
            Err(e) => {
                return Err(e);
            },
        };
        let witness0 = match r.witness(depth, "witness 0") {
            Ok(x) => x,
            Err(e) => {
                return Err(e);
            },
        };
        let witness1 = match r.witness(depth, "witness 1") {
            Ok(x) => x,
            Err(e) => {
                return Err(e);
            },
        };
        let output0 = match r.output("output 0") {
            Ok(x) => x,
            Err(e) => {
                return Err(e);
            },
        };
        let output1 = match r.output("output 1") {
            Ok(x) => x,
            Err(e) => {
                return Err(e);
            },
        };
        let text = match r.bytes("recipient short") {
            Ok(x) => x,
            Err(e) => {
                return Err(e);
            },
        };
        let recipient_short = match utf8_string(copied(text)) {
            Some(s) => s,
            None => {
                return Err(BundleError::Malformed("recipient short is not UTF-8".to_owned()));
            },
        };
        let discovery = match r.bytes("discovery") {
            Ok(x) => copied(x),
            Err(e) => {
                return Err(e);
            },
        };
        let rider = match r.bytes("name-service rider") {
            Ok(x) => copied(x),
            Err(e) => {
                return Err(e);
            },
        };
        match r.finish() {
            Ok(()) => {},
            Err(e) => {
                return Err(e);
            },
        }
        Ok(
            WitnessBundle {
                inputs: [input0, input1],
                witnesses: [witness0, witness1],
                outputs: [output0, output1],
                anchor,
                discovery,
                rider,
                real_inputs,
                amount,
                fee,
                change_value,
                anchor_tip_height,
                recipient_short,
                allowed_scan_verdicts_only,
                output_range,
                spent_covered,
            },
        )
    }
}

/// What a name-service rider reads as.
#[derive(Clone, Debug)]
pub struct RiderReading {
    /// The bytes that the operation it carries encodes to.
    pub canonical: Vec<u8>,
    /// The fee that the operation burns; 0 if it carries none.
    pub name_fee: u64,
}

/// What discovery bytes read as.
#[derive(Clone, Debug)]
pub struct DiscoveryReading {
    /// The commitments of each recipient's entries.
    pub recipients: Vec<Vec<[u8; 32]>>,
    /// How many payloads there are.
    pub payloads: usize,
}

/// What the hashes and codecs of the chain say of a bundle's fields: the facts
/// that a validation compares with.
#[derive(Debug)]
pub struct BundleFacts {
    /// The posted fee of the two-by-two shape.
    pub posted_fee: u64,
    /// The rider, read; or how it failed to decode.
    pub rider: Result<RiderReading, String>,
    /// What each witness folds its input's commitment to.
    pub roots: [[u64; 4]; 2],
    /// The rho of each output that input 0's nullifier gives.
    pub output_rho: [[u64; 4]; 2],
    /// The discovery bytes, read; or how they failed to decode.
    pub discovery: Result<DiscoveryReading, String>,
    /// The commitment of each output.
    pub output_cm: [[u8; 32]; 2],
}

/// Each of two recipients has one entry, and there are two payloads.
pub open spec fn one_and_one(d: DiscoveryReading) -> bool {
    &&& d.recipients@.len() == 2
    &&& d.recipients@[0]@.len() == 1
    &&& d.recipients@[1]@.len() == 1
    &&& d.payloads == 2
}

impl WitnessBundle {
    /// The value that the real inputs bring.
    pub open spec fn total_in(&self) -> nat {
        if self.real_inputs == 1 {
            self.inputs@[0].value as nat
        } else {
            self.inputs@[0].value as nat + self.inputs@[1].value as nat
        }
    }

    /// The value that leaves: the payment, the change and the fee.
    pub open spec fn total_out(&self) -> nat {
        self.amount as nat + self.change_value as nat + self.fee as nat
    }

    /// The nullifier stream covers the heights of the scanned outputs.
    pub open spec fn covered(&self) -> bool {
        self.output_range is Some && contains_range(self.spent_covered, self.output_range->0)
    }

    /// The first thing that makes the bundle disagree with the facts about
    /// the rider, the fee or the balance.
    pub open spec fn value_fault(&self, facts: BundleFacts) -> Option<Seq<char>> {
        if self.real_inputs != 1 && self.real_inputs != 2 {
            Some(
                "real input count "@ + dec(self.real_inputs as nat)
                    + "; the frozen bucket accepts 1 or 2"@,
            )
        } else if let Err(e) = facts.rider {
            Some("name-service rider does not decode: "@ + e@)
        } else if (facts.rider->Ok_0).canonical@ != self.rider@ {
            Some("name-service rider is not canonically encoded"@)
        } else if facts.posted_fee + (facts.rider->Ok_0).name_fee > u64::MAX {
            Some("posted fee plus name fee overflows"@)
        } else if self.fee != facts.posted_fee + (facts.rider->Ok_0).name_fee {
            Some(
                "fee "@ + dec(self.fee as nat)
                    + " is not the posted 2x2 fee plus the name-service fee "@ + dec(
                    (facts.posted_fee + (facts.rider->Ok_0).name_fee) as nat,
                ),
            )
        } else if self.outputs@[0].value != self.amount || self.outputs@[1].value
            != self.change_value {
            Some("output values do not match amount/change metadata"@)
        } else if self.total_in() > u64::MAX {
            Some("input value sum overflows"@)
        } else if self.total_out() > u64::MAX {
            Some("output value sum overflows"@)
        } else if self.total_in() != self.total_out() {
            Some(
                "balance does not close: inputs "@ + dec(self.total_in()) + ", outputs+fee "@ + dec(
                    self.total_out(),
                ),
            )
        } else if self.real_inputs == 1 && self.inputs@[1].value != 0 {
            Some("dummy input carries non-zero value"@)
        } else {
            None
        }
    }

    /// The first thing that makes the bundle disagree with what the hashes
    /// say.
    pub open spec fn binding_fault(&self, facts: BundleFacts) -> Option<Seq<char>> {
        if facts.roots@[0]@ != self.anchor@ {
            Some("input 0's Merkle witness does not fold to the declared anchor"@)
        } else if self.real_inputs == 2 && facts.roots@[1]@ != self.anchor@ {
            Some("input 1's Merkle witness does not fold to the declared anchor"@)
        } else if self.outputs@[0].rho@ != facts.output_rho@[0]@ {
            Some("output 0's rho is not derived from input 0's nullifier"@)
        } else if self.outputs@[1].rho@ != facts.output_rho@[1]@ {
            Some("output 1's rho is not derived from input 0's nullifier"@)
        } else if let Err(e) = facts.discovery {
            Some("discovery bytes do not decode: "@ + e@)
        } else if !one_and_one(facts.discovery->Ok_0) {
            Some("discovery is not recipient-major 1+1 for the frozen two outputs"@)
        } else if (facts.discovery->Ok_0).recipients@[0]@[0]@ != facts.output_cm@[0]@ {
            Some("discovery commitment 0 does not bind output 0"@)
        } else if (facts.discovery->Ok_0).recipients@[1]@[0]@ != facts.output_cm@[1]@ {
            Some("discovery commitment 1 does not bind output 1"@)
        } else {
            None
        }
    }

    /// Whether a proof of the bundle may be started.
    pub open spec fn valid(&self, facts: BundleFacts) -> bool {
        &&& self.allowed_scan_verdicts_only
        &&& self.covered()
        &&& self.value_fault(facts) is None
        &&& self.binding_fault(facts) is None
    }

    /// Whether `e` names the first thing that keeps the bundle from being
    /// proved.
    pub open spec fn refused_as(&self, facts: BundleFacts, e: BundleError) -> bool {
        if !self.allowed_scan_verdicts_only {
            e is PhaseOneVerdictMissing
        } else if !self.covered() {
            e == (BundleError::NullifierCoverageMissing {
                covered: self.spent_covered,
                outputs: self.output_range,
            })
        } else {
            &&& e matches BundleError::Malformed(why)
            &&& Some(why@) == (match self.value_fault(facts) {
                Some(w) => Some(w),
                None => self.binding_fault(facts),
            })
        }
    }

    /// Establishes everything that a proof relies on, or names the first
    /// thing that is missing.
    pub fn validate(&self, facts: &BundleFacts) -> (r: Result<(), BundleError>)
        ensures
            r is Ok <==> self.valid(*facts),
            r matches Err(e) ==> self.refused_as(*facts, e),
    {
        if !self.allowed_scan_verdicts_only {
            return Err(BundleError::PhaseOneVerdictMissing);
        }
        let missing = BundleError::NullifierCoverageMissing {
            covered: self.spent_covered,
            outputs: self.output_range,
        };
        match self.output_range {
            None => {
                return Err(missing);
            },
            Some(outputs) => {
                if !range_contains(self.spent_covered, outputs) {
                    return Err(missing);
                }
            },
        }
        match self.check_value(facts) {
            Some(why) => {
                return Err(BundleError::Malformed(why));
            },
            None => {},
        }
        match self.check_binding(facts) {
            Some(why) => Err(BundleError::Malformed(why)),
            None => Ok(()),
        }
    }

    fn check_value(&self, facts: &BundleFacts) -> (r: Option<String>)
        ensures
            match r {
                Some(why) => self.value_fault(*facts) == Some(why@),
                None => self.value_fault(*facts) is None,
            },
    {
        let mut s: String = String::new();
        if self.real_inputs != 1 && self.real_inputs != 2 {
            s.append("real input count ");
            push_dec(&mut s, self.real_inputs as u64);
            s.append("; the frozen bucket accepts 1 or 2");
            assert(s@ =~= self.value_fault(*facts)->0);
            return Some(s);
        }
        let rider = match &facts.rider {
            Ok(rider) => rider,
            Err(e) => {
                s.append("name-service rider does not decode: ");
                s.append(e.as_str());
                assert(s@ =~= self.value_fault(*facts)->0);
                return Some(s);
            },
        };
        if !bytes_eq(&rider.canonical, &self.rider) {
            return Some("name-service rider is not canonically encoded".to_owned());
        }
        let expected_fee: u64 = match facts.posted_fee.checked_add(rider.name_fee) {
            Some(fee) => fee,
            None => {
                return Some("posted fee plus name fee overflows".to_owned());
            },
        };
        if self.fee != expected_fee {
            s.append("fee ");
            push_dec(&mut s, self.fee);
            s.append(" is not the posted 2x2 fee plus the name-service fee ");
            push_dec(&mut s, expected_fee);
            assert(s@ =~= self.value_fault(*facts)->0);
            return Some(s);
        }
        if self.outputs[0].value != self.amount || self.outputs[1].value != self.change_value {
            return Some("output values do not match amount/change metadata".to_owned());
        }
        let total_in: u64 = if self.real_inputs == 1 {
            self.inputs[0].value
        } else {
            match self.inputs[0].value.checked_add(self.inputs[1].value) {
                Some(sum) => sum,
                None => {
                    return Some("input value sum overflows".to_owned());
                },
            }
        };
        let total_out: u128 = self.amount as u128 + self.change_value as u128 + self.fee as u128;
        if total_out > u64::MAX as u128 {
            return Some("output value sum overflows".to_owned());
        }
        if total_in as u128 != total_out {
            s.append("balance does not close: inputs ");
            push_dec(&mut s, total_in);
            s.append(", outputs+fee ");
            push_dec(&mut s, total_out as u64);
            assert(s@ =~= self.value_fault(*facts)->0);
            return Some(s);
        }
        if self.real_inputs == 1 && self.inputs[1].value != 0 {
            return Some("dummy input carries non-zero value".to_owned());
        }
        None
    }

    fn check_binding(&self, facts: &BundleFacts) -> (r: Option<String>)
        ensures
            match r {
                Some(why) => self.binding_fault(*facts) == Some(why@),
                None => self.binding_fault(*facts) is None,
            },
    {
        if !lanes_eq(&facts.roots[0], &self.anchor) {
            return Some(
                "input 0's Merkle witness does not fold to the declared anchor".to_owned(),
            );
        }
        if self.real_inputs == 2 && !lanes_eq(&facts.roots[1], &self.anchor) {
            return Some(
                "input 1's Merkle witness does not fold to the declared anchor".to_owned(),
            );
        }
        if !lanes_eq(&self.outputs[0].rho, &facts.output_rho[0]) {
            return Some("output 0's rho is not derived from input 0's nullifier".to_owned());
        }
        if !lanes_eq(&self.outputs[1].rho, &facts.output_rho[1]) {
            return Some("output 1's rho is not derived from input 0's nullifier".to_owned());
        }
        let d = match &facts.discovery {
            Ok(d) => d,
            Err(e) => {
                let mut s: String = String::new();
                s.append("discovery bytes do not decode: ");
                s.append(e.as_str());
                assert(s@ =~= self.binding_fault(*facts)->0);
                return Some(s);
            },
        };
        if d.recipients.len() != 2 || d.payloads != 2 || d.recipients[0].len() != 1
            || d.recipients[1].len() != 1 {
            return Some(
                "discovery is not recipient-major 1+1 for the frozen two outputs".to_owned(),
            );
        }
        if !eq32(&d.recipients[0][0], &facts.output_cm[0]) {
            return Some("discovery commitment 0 does not bind output 0".to_owned());
        }
        if !eq32(&d.recipients[1][0], &facts.output_cm[1]) {
            return Some("discovery commitment 1 does not bind output 1".to_owned());
        }
        None
    }

    /// The finalized root that the bundle proves membership against.
    pub fn anchor(&self) -> (r: [u8; 32])
        ensures
            r@ == lane_bytes(self.anchor@),
    {
        digest_bytes(&self.anchor)
    }

    /// The chain's tip when the anchor was chosen.
    pub fn selected_at_tip(&self) -> (r: u64)
        ensures
            r == self.anchor_tip_height,
    {
        self.anchor_tip_height
    }

    pub fn amount(&self) -> (r: u64)
        ensures
            r == self.amount,
    {
        self.amount
    }

    pub fn recipient_short(&self) -> (r: &str)
        ensures
            r@ == self.recipient_short@,
    {
        self.recipient_short.as_str()
    }

    /// Whether the second input is invented.
    pub fn used_dummy(&self) -> (r: bool)
        ensures
            r == (self.real_inputs == 1),
    {
        self.real_inputs == 1
    }

    pub fn fee(&self) -> (r: u64)
        ensures
            r == self.fee,
    {
        self.fee
    }

    pub fn change_value(&self) -> (r: u64)
        ensures
            r == self.change_value,
    {
        self.change_value
    }

    pub fn output_range(&self) -> (r: Option<(u64, u64)>)
        ensures
            r == self.output_range,
    {
        self.output_range
    }

    /// The real inputs' nullifiers, out of the nullifiers of both inputs.
    pub fn real_nullifiers(&self, nullifiers: &[[u8; 32]; 2]) -> (r: Vec<[u8; 32]>)
        requires
            self.real_inputs <= 2,
        ensures
            r@ == nullifiers@.take(self.real_inputs as int),
    {
        let mut r: Vec<[u8; 32]> = Vec::new();
        if self.real_inputs >= 1 {
            r.push(nullifiers[0]);
        }
        if self.real_inputs >= 2 {
            r.push(nullifiers[1]);
        }
        assert(r@ =~= nullifiers@.take(self.real_inputs as int));
        r
    }
}

/// A bundle that may be proved brings exactly what it pays, keeps and burns;
/// its fee is the posted fee and the rider's, the heights of its outputs are
/// covered by the nullifiers that were read, and every real input is under
/// its anchor.
pub proof fn law_valid_bundle_closes(b: WitnessBundle, facts: BundleFacts)
    requires
        b.valid(facts),
    ensures
        b.total_in() == b.amount + b.change_value + b.fee,
        b.outputs@[0].value == b.amount && b.outputs@[1].value == b.change_value,
        facts.rider is Ok && b.fee == facts.posted_fee + (facts.rider->Ok_0).name_fee,
        b.real_inputs == 1 || b.real_inputs == 2,
        b.real_inputs == 1 ==> b.inputs@[1].value == 0,
        contains_range(b.spent_covered, b.output_range->0),
        forall|i: int| 0 <= i < b.real_inputs ==> (#[trigger] facts.roots@[i])@ == b.anchor@,
{
}

/// A proof of a bundle may be started exactly where all of this holds: the scan
/// verdicts and the coverage were established, its fee is the posted one and its
/// rider's, its outputs are the payment and the change, its real inputs bring
/// exactly what leaves and a dummy brings nothing, each real input is under its
/// anchor, and its outputs are bound to its first input and to what discovery
/// says.
pub proof fn law_valid_means_everything_agrees(b: WitnessBundle, facts: BundleFacts)
    ensures
        b.valid(facts) <==> {
            &&& b.allowed_scan_verdicts_only
            &&& b.output_range matches Some((lo, hi)) && (b.spent_covered matches Some((from, to))
                && from <= lo && to >= hi)
            &&& b.real_inputs == 1 || b.real_inputs == 2
            &&& facts.rider matches Ok(rider) && rider.canonical@ == b.rider@ && b.fee
                == facts.posted_fee + rider.name_fee
            &&& b.outputs@[0].value == b.amount && b.outputs@[1].value == b.change_value
            &&& b.real_inputs == 1 ==> b.inputs@[0].value == b.amount + b.change_value + b.fee
                && b.inputs@[1].value == 0
            &&& b.real_inputs == 2 ==> b.inputs@[0].value + b.inputs@[1].value == b.amount
                + b.change_value + b.fee
            &&& b.amount + b.change_value + b.fee <= u64::MAX
            &&& forall|k: int|
                0 <= k < b.real_inputs ==> (#[trigger] facts.roots@[k])@ == b.anchor@
            &&& forall|k: int|
                0 <= k < 2 ==> (#[trigger] b.outputs@[k]).rho@ == facts.output_rho@[k]@
            &&& facts.discovery matches Ok(d) && d.payloads == 2 && d.recipients@.len() == 2
                && forall|k: int|
                0 <= k < 2 ==> (#[trigger] d.recipients@[k])@.len() == 1 && d.recipients@[k]@[0]@
                    == facts.output_cm@[k]@
        },
{
    if b.valid(facts) {
        assert(facts.discovery is Ok);
    } else if facts.discovery is Ok {
        let d = facts.discovery->Ok_0;
        assert(b.outputs@[0].rho@ == b.outputs@[0].rho@ && b.outputs@[1].rho@ == b.outputs@[1].rho@);
        assert(facts.roots@[0]@ == facts.roots@[0]@ && facts.roots@[1]@ == facts.roots@[1]@);
        assert(d.recipients@[0]@ == d.recipients@[0]@ && d.recipients@[1]@ == d.recipients@[1]@);
    }
}

/// What a bundle encodes to, with its checksum behind it, decodes to that
/// bundle.
pub proof fn law_bundle_reads_back(m: BundleModel, checksum: Seq<u8>, depth: nat)
    requires
        m.wf(depth),
        checksum.len() == CHECKSUM_LEN,
        m.payload().len() <= usize::MAX,
    ensures
        decode(m.encoded() + checksum, checksum, depth) == Decoded::Bundle(m),
{
    let bytes = m.encoded() + checksum;
    let split = bytes.len() - CHECKSUM_LEN;
    assert(bytes.take(8) =~= WITNESS_BUNDLE_MAGIC@);
    assert(bytes.skip(split) =~= checksum);
    assert(bytes.subrange(9, split) =~= m.payload());
    lemma_payload_reads_back(m, depth);
}

proof fn lemma_head_reads_back(m: BundleModel, c: Cursor)
    requires
        m.output_range matches Some((a, b)) ==> a <= b,
        m.spent_covered matches Some((a, b)) ==> a <= b,
        has_at(c, m.head()),
    ensures
        read_head(c).1 == after(c, m.head().len() as int),
        read_head(c).0.allowed == m.allowed,
        read_head(c).0.output_range == m.output_range,
        read_head(c).0.spent_covered == m.spent_covered,
        read_head(c).0.real_inputs == m.real_inputs,
        read_head(c).0.amount == m.amount,
        read_head(c).0.fee == m.fee,
        read_head(c).0.change_value == m.change_value,
        read_head(c).0.anchor_tip_height == m.anchor_tip_height,
{
    let p1 = seq![bool_byte(m.allowed)];
    let p2 = range_bytes(m.output_range);
    let p3 = range_bytes(m.spent_covered);
    let p4 = seq![m.real_inputs];
    let p5 = spec_u64_to_le_bytes(m.amount);
    let p6 = spec_u64_to_le_bytes(m.fee);
    let p7 = spec_u64_to_le_bytes(m.change_value);
    let p8 = spec_u64_to_le_bytes(m.anchor_tip_height);
    let q2 = p1 + p2;
    let q3 = q2 + p3;
    let q4 = q3 + p4;
    let q5 = q4 + p5;
    let q6 = q5 + p6;
    let q7 = q6 + p7;
    crate::wire::lemma_has_concat(c, q7, p8);
    crate::wire::lemma_has_concat(c, q6, p7);
    crate::wire::lemma_has_concat(c, q5, p6);
    crate::wire::lemma_has_concat(c, q4, p5);
    crate::wire::lemma_has_concat(c, q3, p4);
    crate::wire::lemma_has_concat(c, q2, p3);
    crate::wire::lemma_has_concat(c, p1, p2);
    crate::wire::lemma_read_bool(c, m.allowed, "phase-1 scan gate"@);
    crate::wire::lemma_read_range(after(c, p1.len() as int), m.output_range, "scan output range"@);
    crate::wire::lemma_read_range(
        after(c, q2.len() as int),
        m.spent_covered,
        "phase-1 nullifier coverage"@,
    );
    crate::wire::lemma_read_u8(after(c, q3.len() as int), m.real_inputs, "real input count"@);
    crate::wire::lemma_read_u64(after(c, q4.len() as int), m.amount, "amount"@);
    crate::wire::lemma_read_u64(after(c, q5.len() as int), m.fee, "fee"@);
    crate::wire::lemma_read_u64(after(c, q6.len() as int), m.change_value, "change"@);
    crate::wire::lemma_read_u64(
        after(c, q7.len() as int),
        m.anchor_tip_height,
        "anchor tip height"@,
    );
}

/// Where each field from the anchor on stands in a payload.
spec fn stands(m: BundleModel, c: Cursor) -> bool {
    let k8 = m.head().len() as int;
    let k9 = k8 + lane_bytes(m.anchor).len();
    let k10 = k9 + input_bytes(m.input0).len();
    let k11 = k10 + input_bytes(m.input1).len();
    let k12 = k11 + witness_bytes(m.witness0).len();
    let k13 = k12 + witness_bytes(m.witness1).len();
    let k14 = k13 + output_bytes(m.output0).len();
    let k15 = k14 + output_bytes(m.output1).len();
    let k16 = k15 + sized_bytes(encode_utf8(m.recipient_short)).len();
    let k17 = k16 + sized_bytes(m.discovery).len();
    &&& has_at(c, m.head())
    &&& has_at(after(c, k8), lane_bytes(m.anchor))
    &&& has_at(after(c, k9), input_bytes(m.input0))
    &&& has_at(after(c, k10), input_bytes(m.input1))
    &&& has_at(after(c, k11), witness_bytes(m.witness0))
    &&& has_at(after(c, k12), witness_bytes(m.witness1))
    &&& has_at(after(c, k13), output_bytes(m.output0))
    &&& has_at(after(c, k14), output_bytes(m.output1))
    &&& has_at(after(c, k15), sized_bytes(encode_utf8(m.recipient_short)))
    &&& has_at(after(c, k16), sized_bytes(m.discovery))
    &&& has_at(after(c, k17), sized_bytes(m.rider))
    &&& m.payload().len() == k17 + sized_bytes(m.rider).len()
}

proof fn lemma_stands(m: BundleModel, c: Cursor)
    requires
        has_at(c, m.payload()),
    ensures
        stands(m, c),
{
    let q8 = m.head();
    let q9 = q8 + lane_bytes(m.anchor);
    let q10 = q9 + input_bytes(m.input0);
    let q11 = q10 + input_bytes(m.input1);
    let q12 = q11 + witness_bytes(m.witness0);
    let q13 = q12 + witness_bytes(m.witness1);
    let q14 = q13 + output_bytes(m.output0);
    let q15 = q14 + output_bytes(m.output1);
    let q16 = q15 + sized_bytes(encode_utf8(m.recipient_short));
    let q17 = q16 + sized_bytes(m.discovery);
    crate::wire::lemma_has_concat(c, q17, sized_bytes(m.rider));
    crate::wire::lemma_has_concat(c, q16, sized_bytes(m.discovery));
    crate::wire::lemma_has_concat(c, q15, sized_bytes(encode_utf8(m.recipient_short)));
    crate::wire::lemma_has_concat(c, q14, output_bytes(m.output1));
    crate::wire::lemma_has_concat(c, q13, output_bytes(m.output0));
    crate::wire::lemma_has_concat(c, q12, witness_bytes(m.witness1));
    crate::wire::lemma_has_concat(c, q11, witness_bytes(m.witness0));
    crate::wire::lemma_has_concat(c, q10, input_bytes(m.input1));
    crate::wire::lemma_has_concat(c, q9, input_bytes(m.input0));
    crate::wire::lemma_has_concat(c, q8, lane_bytes(m.anchor));
}

#[verifier::rlimit(60)]
#[verifier::spinoff_prover]
proof fn lemma_payload_reads_back(m: BundleModel, depth: nat)
    requires
        m.wf(depth),
        m.payload().len() <= usize::MAX,
    ensures
        read_payload(m.payload(), depth).0 == m,
        read_payload(m.payload(), depth).1.fault is None,
{
    let s = m.payload();
    let c = Cursor { s, pos: 0, fault: None };
    assert(has_at(c, s)) by {
        assert(s.subrange(0, s.len() as int) =~= s);
    }
    lemma_stands(m, c);
    lemma_fields_read_back(m, c, depth);
}

#[verifier::rlimit(60)]
#[verifier::spinoff_prover]
proof fn lemma_fields_read_back(m: BundleModel, c: Cursor, depth: nat)
    requires
        m.wf(depth),
        stands(m, c),
        c.pos == 0,
        c.s.len() == m.payload().len(),
    ensures
        read_payload(c.s, depth).0 == m,
        read_payload(c.s, depth).1.fault is None,
{
    let text = encode_utf8(m.recipient_short);
    let k8 = m.head().len() as int;
    let k9 = k8 + lane_bytes(m.anchor).len();
    let k10 = k9 + input_bytes(m.input0).len();
    let k11 = k10 + input_bytes(m.input1).len();
    let k12 = k11 + witness_bytes(m.witness0).len();
    let k13 = k12 + witness_bytes(m.witness1).len();
    let k14 = k13 + output_bytes(m.output0).len();
    let k15 = k14 + output_bytes(m.output1).len();
    let k16 = k15 + sized_bytes(text).len();
    let k17 = k16 + sized_bytes(m.discovery).len();
    assert(c == (Cursor { s: c.s, pos: 0, fault: None }));
    lemma_head_reads_back(m, c);
    crate::wire::lemma_read_lanes(after(c, k8), m.anchor, "anchor"@);
    crate::wire::lemma_read_input(after(c, k9), m.input0, "input 0"@);
    crate::wire::lemma_read_input(after(c, k10), m.input1, "input 1"@);
    crate::wire::lemma_read_witness(after(c, k11), m.witness0, depth, "witness 0"@);
    crate::wire::lemma_read_witness(after(c, k12), m.witness1, depth, "witness 1"@);
    crate::wire::lemma_read_output(after(c, k13), m.output0, "output 0"@);
    crate::wire::lemma_read_output(after(c, k14), m.output1, "output 1"@);
    crate::wire::lemma_read_bytes(after(c, k15), text, "recipient short"@);
    crate::wire::lemma_read_bytes(after(c, k16), m.discovery, "discovery"@);
    crate::wire::lemma_read_bytes(after(c, k17), m.rider, "name-service rider"@);
    vstd::utf8::encode_utf8_valid_utf8(m.recipient_short);
    vstd::utf8::encode_utf8_decode_utf8(m.recipient_short);
}

proof fn lemma_frame(bytes: Seq<u8>, magic: Seq<u8>, version: u8, body: Seq<u8>, sum: Seq<u8>)
    requires
        magic.len() == 8,
        sum.len() == CHECKSUM_LEN,
        bytes.len() >= 8 + 1 + CHECKSUM_LEN,
        bytes.take(8) == magic,
        bytes[8] == version,
        bytes.subrange(9, bytes.len() - CHECKSUM_LEN) == body,
        bytes.skip(bytes.len() - CHECKSUM_LEN) == sum,
    ensures
        bytes == magic + seq![version] + body + sum,
{
    let split = bytes.len() - CHECKSUM_LEN;
    assert(bytes =~= bytes.take(8) + seq![bytes[8]] + bytes.subrange(9, split) + bytes.skip(split));
}

/// There is one encoding: bytes that decode to a bundle are that bundle's
/// encoding with the checksum behind it.
pub proof fn law_bundle_encoding_is_canonical(bytes: Seq<u8>, checksum: Seq<u8>, depth: nat)
    requires
        decode(bytes, checksum, depth) is Bundle,
        bytes.len() <= usize::MAX,
    ensures
        bytes == decode(bytes, checksum, depth)->Bundle_0.encoded() + checksum,
        decode(bytes, checksum, depth)->Bundle_0.wf(depth),
{
    let m = decode(bytes, checksum, depth)->Bundle_0;
    let split = bytes.len() - CHECKSUM_LEN;
    let s = bytes.subrange(9, split);
    lemma_payload_spans(s, depth);
    lemma_frame(bytes, WITNESS_BUNDLE_MAGIC@, WITNESS_BUNDLE_VERSION, m.payload(), checksum);
}

proof fn lemma_head_spans(c: Cursor)
    requires
        sound(c),
        read_head(c).1.fault is None,
    ensures
        spans(c, read_head(c).1, read_head(c).0.head()),
        read_head(c).0.output_range matches Some((a, b)) ==> a <= b,
        read_head(c).0.spent_covered matches Some((a, b)) ==> a <= b,
{
    let (allowed, c1) = c.read_bool("phase-1 scan gate"@);
    let (output_range, c2) = c1.read_range("scan output range"@);
    let (spent_covered, c3) = c2.read_range("phase-1 nullifier coverage"@);
    let (real_inputs, c4) = c3.read_u8("real input count"@);
    let (amount, c5) = c4.read_u64("amount"@);
    let (fee, c6) = c5.read_u64("fee"@);
    let (change_value, c7) = c6.read_u64("change"@);
    let (anchor_tip_height, c8) = c7.read_u64("anchor tip height"@);
    crate::wire::lemma_read_bool(c, false, "phase-1 scan gate"@);
    crate::wire::lemma_read_range(c1, None, "scan output range"@);
    crate::wire::lemma_read_range(c2, None, "phase-1 nullifier coverage"@);
    crate::wire::lemma_read_u8(c3, 0, "real input count"@);
    crate::wire::lemma_read_u64(c4, 0, "amount"@);
    crate::wire::lemma_read_u64(c5, 0, "fee"@);
    crate::wire::lemma_read_u64(c6, 0, "change"@);
    crate::wire::lemma_read_u64(c7, 0, "anchor tip height"@);
    let q1 = seq![bool_byte(allowed)];
    let q2 = q1 + range_bytes(output_range);
    let q3 = q2 + range_bytes(spent_covered);
    let q4 = q3 + seq![real_inputs];
    let q5 = q4 + spec_u64_to_le_bytes(amount);
    let q6 = q5 + spec_u64_to_le_bytes(fee);
    let q7 = q6 + spec_u64_to_le_bytes(change_value);
    crate::wire::lemma_spans_concat(c, c1, c2, q1, range_bytes(output_range));
    crate::wire::lemma_spans_concat(c, c2, c3, q2, range_bytes(spent_covered));
    crate::wire::lemma_spans_concat(c, c3, c4, q3, seq![real_inputs]);
    crate::wire::lemma_spans_concat(c, c4, c5, q4, spec_u64_to_le_bytes(amount));
    crate::wire::lemma_spans_concat(c, c5, c6, q5, spec_u64_to_le_bytes(fee));
    crate::wire::lemma_spans_concat(c, c6, c7, q6, spec_u64_to_le_bytes(change_value));
    crate::wire::lemma_spans_concat(c, c7, c8, q7, spec_u64_to_le_bytes(anchor_tip_height));
}

#[verifier::rlimit(80)]
#[verifier::spinoff_prover]
proof fn lemma_payload_spans(s: Seq<u8>, depth: nat)
    requires
        s.len() <= usize::MAX,
        read_payload(s, depth).1.fault is None,
    ensures
        s == read_payload(s, depth).0.payload(),
        read_payload(s, depth).0.wf(depth),
{
    let c = Cursor { s, pos: 0, fault: None };
    let (h, c8) = read_head(c);
    let (anchor, c9) = c8.read_lanes(4, "anchor"@);
    let (input0, c10) = c9.read_input("input 0"@);
    let (input1, c11) = c10.read_input("input 1"@);
    let (witness0, c12) = c11.read_witness(depth, "witness 0"@);
    let (witness1, c13) = c12.read_witness(depth, "witness 1"@);
    let (output0, c14) = c13.read_output("output 0"@);
    let (output1, c15) = c14.read_output("output 1"@);
    let (text, c16) = c15.read_bytes("recipient short"@);
    let (discovery, c17) = read_text(c16, text).read_bytes("discovery"@);
    let (rider, c18) = c17.read_bytes("name-service rider"@);
    lemma_sticky(c15, depth);
    lemma_sticky(c14, depth);
    lemma_sticky(c13, depth);
    lemma_sticky(c12, depth);
    lemma_sticky(c11, depth);
    lemma_sticky(c10, depth);
    lemma_sticky(c9, depth);
    lemma_sticky(c8, depth);
    lemma_head_spans(c);
    crate::wire::lemma_lanes_back(c8, 4, "anchor"@);
    crate::wire::lemma_read_input(c9, input0, "input 0"@);
    crate::wire::lemma_read_input(c10, input1, "input 1"@);
    crate::wire::lemma_read_witness(c11, witness0, depth, "witness 0"@);
    crate::wire::lemma_read_witness(c12, witness1, depth, "witness 1"@);
    crate::wire::lemma_read_output(c13, output0, "output 0"@);
    crate::wire::lemma_read_output(c14, output1, "output 1"@);
    crate::wire::lemma_read_bytes(c15, text, "recipient short"@);
    crate::wire::lemma_read_bytes(c16, discovery, "discovery"@);
    crate::wire::lemma_read_bytes(c17, rider, "name-service rider"@);
    vstd::utf8::decode_utf8_encode_utf8(text);
    let q8 = h.head();
    let q9 = q8 + lane_bytes(anchor);
    let q10 = q9 + input_bytes(input0);
    let q11 = q10 + input_bytes(input1);
    let q12 = q11 + witness_bytes(witness0);
    let q13 = q12 + witness_bytes(witness1);
    let q14 = q13 + output_bytes(output0);
    let q15 = q14 + output_bytes(output1);
    let q16 = q15 + sized_bytes(text);
    let q17 = q16 + sized_bytes(discovery);
    crate::wire::lemma_spans_concat(c, c8, c9, q8, lane_bytes(anchor));
    crate::wire::lemma_spans_concat(c, c9, c10, q9, input_bytes(input0));
    crate::wire::lemma_spans_concat(c, c10, c11, q10, input_bytes(input1));
    crate::wire::lemma_spans_concat(c, c11, c12, q11, witness_bytes(witness0));
    crate::wire::lemma_spans_concat(c, c12, c13, q12, witness_bytes(witness1));
    crate::wire::lemma_spans_concat(c, c13, c14, q13, output_bytes(output0));
    crate::wire::lemma_spans_concat(c, c14, c15, q14, output_bytes(output1));
    crate::wire::lemma_spans_concat(c, c15, c16, q15, sized_bytes(text));
    crate::wire::lemma_spans_concat(c, c16, c17, q16, sized_bytes(discovery));
    crate::wire::lemma_spans_concat(c, c17, c18, q17, sized_bytes(rider));
    assert(s.subrange(0, s.len() as int) =~= s);
    assert(c18.pos == s.len());
}

proof fn lemma_sticky(c: Cursor, depth: nat)
    ensures
        c.fault is Some ==> {
            &&& c.read_lanes(4, "anchor"@).1 == c
            &&& forall|name: Seq<char>| (#[trigger] c.read_input(name)).1 == c
            &&& forall|name: Seq<char>| (#[trigger] c.read_witness(depth, name)).1 == c
            &&& forall|name: Seq<char>| (#[trigger] c.read_output(name)).1 == c
            &&& forall|name: Seq<char>| (#[trigger] c.read_bytes(name)).1 == c
        },
{
}

/// What reading the bytes of a bundle and then holding it to the facts comes to:
/// the bundle where it is valid, and else the first thing that is wrong with it.
pub open spec fn admitted(
    bytes: Seq<u8>,
    checksum: Seq<u8>,
    depth: nat,
    facts: BundleFacts,
    r: Result<WitnessBundle, BundleError>,
) -> bool {
    match decode(bytes, checksum, depth) {
        Decoded::Bundle(m) => exists|b: WitnessBundle|
            b@ == m && if #[trigger] b.valid(facts) {
                r == Ok::<WitnessBundle, BundleError>(b)
            } else {
                r matches Err(e) && b.refused_as(facts, e)
            },
        Decoded::UnknownVersion(v) => r == Err::<WitnessBundle, BundleError>(
            BundleError::UnknownVersion(v),
        ),
        Decoded::ChecksumMismatch => r == Err::<WitnessBundle, BundleError>(
            BundleError::ChecksumMismatch,
        ),
        Decoded::Malformed(why) => r matches Err(BundleError::Malformed(w)) && w@ == why,
    }
}

impl WitnessBundle {
    /// Reads a bundle back and establishes everything that a proof relies on
    /// before it is handed out. `facts` are the chain's on the bundle's fields.
    pub fn from_bytes(bytes: &[u8], checksum: &[u8; 32], depth: usize, facts: &BundleFacts) -> (r:
        Result<WitnessBundle, BundleError>)
        ensures
            admitted(bytes@, checksum@, depth as nat, *facts, r),
    {
        let bundle = match WitnessBundle::read_bytes(bytes, checksum, depth) {
            Ok(b) => b,
            Err(e) => {
                return Err(e);
            },
        };
        match bundle.validate(facts) {
            Ok(()) => {
                assert(bundle.valid(*facts));
                Ok(bundle)
            },
            Err(e) => {
                assert(!bundle.valid(*facts));
                Err(e)
            },
        }
    }
}

/// Whether a bundle is valid, and why it is not, rests on what it holds alone.
pub proof fn law_validity_is_of_the_contents(
    a: WitnessBundle,
    b: WitnessBundle,
    facts: BundleFacts,
    e: BundleError,
)
    requires
        a@ == b@,
    ensures
        a.valid(facts) == b.valid(facts),
        a.refused_as(facts, e) == b.refused_as(facts, e),
{
    assert(a@.input0.value == b@.input0.value && a@.input1.value == b@.input1.value);
    assert(a@.output0.value == b@.output0.value && a@.output1.value == b@.output1.value);
    assert(a@.output0.rho == b@.output0.rho && a@.output1.rho == b@.output1.rho);
    assert(a@.anchor == b@.anchor && a@.rider == b@.rider);
}

/// No bytes are admitted but those of a bundle that the facts bear out, and none
/// of those is refused.
pub proof fn law_only_valid_bundles_are_admitted(
    bytes: Seq<u8>,
    checksum: Seq<u8>,
    depth: nat,
    facts: BundleFacts,
    r: Result<WitnessBundle, BundleError>,
    b: WitnessBundle,
)
    requires
        admitted(bytes, checksum, depth, facts, r),
    ensures
        r matches Ok(x) ==> x.valid(facts) && decode(bytes, checksum, depth) == Decoded::Bundle(x@),
        decode(bytes, checksum, depth) == Decoded::Bundle(b@) && b.valid(facts) ==> (r matches Ok(x)
            && x@ == b@),
{
    if decode(bytes, checksum, depth) == Decoded::Bundle(b@) {
        let x = choose|x: WitnessBundle|
            x@ == b@ && if #[trigger] x.valid(facts) {
                r == Ok::<WitnessBundle, BundleError>(x)
            } else {
                r matches Err(e) && x.refused_as(facts, e)
            };
        law_validity_is_of_the_contents(x, b, facts, BundleError::ChecksumMismatch);
    }
}

/// `Zeroize::zeroize` on a number sets it to zero, and does not panic.
#[verifier::external_body]
fn wipe_u64(x: &mut u64)
    ensures
        *final(x) == 0,
    opens_invariants none
    no_unwind
{
    x.zeroize();
}

/// `Zeroize::zeroize` on a byte sets it to zero, and does not panic.
#[verifier::external_body]
fn wipe_u8(x: &mut u8)
    ensures
        *final(x) == 0,
    opens_invariants none
    no_unwind
{
    x.zeroize();
}

/// `Zeroize::zeroize` on an array sets each element to zero, and does not panic.
#[verifier::external_body]
fn wipe_lanes<const N: usize>(x: &mut [u64; N])
    ensures
        forall|i: int| 0 <= i < N ==> #[trigger] final(x)@[i] == 0,
    opens_invariants none
    no_unwind
{
    x.zeroize();
}

/// `Zeroize::zeroize` on a vector of bytes sets each element to zero and
/// leaves the vector empty, and does not panic.
#[verifier::external_body]
fn wipe_bytes(x: &mut Vec<u8>)
    ensures
        final(x)@.len() == 0,
    opens_invariants none
    no_unwind
{
    x.zeroize();
}

/// `Zeroize::zeroize` on the elements of a vector of arrays sets each of them to
/// zero and leaves their number as it is, and does not panic.
#[verifier::external_body]
fn wipe_siblings(x: &mut Vec<[u64; 4]>)
    ensures
        final(x)@.len() == old(x)@.len(),
        forall|i: int| 0 <= i < final(x)@.len() ==> blank((#[trigger] final(x)@[i])@),
    opens_invariants none
    no_unwind
{
    x.iter_mut().zeroize();
}

/// `slice::fill` sets each element to the value, and does not panic.
#[verifier::external_body]
fn clear_bits(x: &mut Vec<bool>)
    ensures
        final(x)@.len() == old(x)@.len(),
        forall|i: int| 0 <= i < final(x)@.len() ==> !#[trigger] final(x)@[i],
    opens_invariants none
    no_unwind
{
    x.fill(false);
}

/// `Zeroize::zeroize` on a string sets its bytes to zero and leaves the string
/// empty, and does not panic.
#[verifier::external_body]
fn wipe_text(x: &mut String)
    ensures
        final(x)@.len() == 0,
    opens_invariants none
    no_unwind
{
    x.zeroize();
}

/// All lanes are zero.
pub open spec fn blank(lanes: Seq<u64>) -> bool {
    forall|i: int| 0 <= i < lanes.len() ==> #[trigger] lanes[i] == 0
}

impl TxInput {
    pub open spec fn wiped(&self) -> bool {
        self.value == 0 && blank(self.sk@) && blank(self.rho@) && blank(self.rseed@) && blank(
            self.d@,
        )
    }

    /// Clears the key and the note.
    pub fn zeroize(&mut self)
        ensures
            final(self).wiped(),
        opens_invariants none
        no_unwind
    {
        wipe_lanes(&mut self.sk);
        wipe_u64(&mut self.value);
        wipe_lanes(&mut self.rho);
        wipe_lanes(&mut self.rseed);
        wipe_lanes(&mut self.d);
    }
}

impl MerkleWitness {
    pub open spec fn wiped(&self) -> bool {
        &&& forall|i: int| 0 <= i < self.siblings@.len() ==> blank((#[trigger] self.siblings@[i])@)
        &&& forall|i: int| 0 <= i < self.path_bits@.len() ==> !#[trigger] self.path_bits@[i]
    }

    /// Clears the path.
    pub fn zeroize(&mut self)
        ensures
            final(self).wiped(),
            final(self).siblings@.len() == old(self).siblings@.len(),
            final(self).path_bits@.len() == old(self).path_bits@.len(),
        opens_invariants none
        no_unwind
    {
        wipe_siblings(&mut self.siblings);
        clear_bits(&mut self.path_bits);
    }
}

impl TxOutput {
    pub open spec fn wiped(&self) -> bool {
        self.value == 0 && blank(self.rkm@) && blank(self.rho@) && blank(self.rseed@)
    }

    /// Clears the plaintext.
    pub fn zeroize(&mut self)
        ensures
            final(self).wiped(),
        opens_invariants none
        no_unwind
    {
        wipe_u64(&mut self.value);
        wipe_lanes(&mut self.rkm);
        wipe_lanes(&mut self.rho);
        wipe_lanes(&mut self.rseed);
    }
}

fn wipe_range(range: &mut Option<(u64, u64)>)
    ensures
        *final(range) is None,
    opens_invariants none
    no_unwind
{
    match range {
        Some((from, to)) => {
            wipe_u64(from);
            wipe_u64(to);
        },
        None => {},
    }
    *range = None;
}

impl WitnessBundle {
    /// Every field is cleared.
    pub open spec fn wiped(&self) -> bool {
        &&& self.inputs@[0].wiped() && self.inputs@[1].wiped()
        &&& self.witnesses@[0].wiped() && self.witnesses@[1].wiped()
        &&& self.outputs@[0].wiped() && self.outputs@[1].wiped()
        &&& blank(self.anchor@)
        &&& self.discovery@.len() == 0 && self.rider@.len() == 0
        &&& self.real_inputs == 0
        &&& self.amount == 0 && self.fee == 0 && self.change_value == 0
        &&& self.anchor_tip_height == 0
        &&& self.recipient_short@.len() == 0
        &&& !self.allowed_scan_verdicts_only
        &&& self.output_range is None && self.spent_covered is None
    }

    /// Clears the bundle: what it authorised can no longer be built from it.
    pub fn zeroize(&mut self)
        ensures
            final(self).wiped(),
        opens_invariants none
        no_unwind
    {
        self.inputs[0].zeroize();
        self.inputs[1].zeroize();
        self.witnesses[0].zeroize();
        self.witnesses[1].zeroize();
        self.outputs[0].zeroize();
        self.outputs[1].zeroize();
        wipe_lanes(&mut self.anchor);
        wipe_bytes(&mut self.discovery);
        wipe_bytes(&mut self.rider);
        wipe_u8(&mut self.real_inputs);
        wipe_u64(&mut self.amount);
        wipe_u64(&mut self.fee);
        wipe_u64(&mut self.change_value);
        wipe_u64(&mut self.anchor_tip_height);
        wipe_text(&mut self.recipient_short);
        self.allowed_scan_verdicts_only = false;
        wipe_range(&mut self.output_range);
        wipe_range(&mut self.spent_covered);
    }
}

impl Drop for WitnessBundle {
    /// Clears the bundle when it goes out of scope.
    fn drop(&mut self)
        ensures
            final(self).wiped(),
        opens_invariants none
        no_unwind
    {
        self.zeroize();
    }
}

/// A bundle that was cleared can no longer be proved, whatever the facts.
pub proof fn law_wiped_bundle_is_refused(b: WitnessBundle, facts: BundleFacts)
    requires
        b.wiped(),
    ensures
        !b.valid(facts),
{
}

/// `Some((a, b))` or `None`.
pub open spec fn range_debug(r: Option<(u64, u64)>) -> Seq<char> {
    match r {
        Some((a, b)) => "Some(("@ + dec(a as nat) + ", "@ + dec(b as nat) + "))"@,
        None => "None"@,
    }
}

fn push_range_debug(s: &mut String, r: Option<(u64, u64)>)
    ensures
        final(s)@ == old(s)@ + range_debug(r),
{
    let ghost s0 = s@;
    match r {
        Some((a, b)) => {
            s.append("Some((");
            push_dec(s, a);
            s.append(", ");
            push_dec(s, b);
            s.append("))");
        },
        None => s.append("None"),
    }
    assert(s@ =~= s0 + range_debug(r));
}

impl BundleError {
    /// The sentence that a person is shown.
    pub open spec fn text(&self) -> Seq<char> {
        match self {
            BundleError::UnknownVersion(v) => "witness-bundle-version-unknown: version "@ + dec(
                *v as nat,
            ) + "; this binary knows version "@ + dec(WITNESS_BUNDLE_VERSION as nat) + " only"@,
            BundleError::ChecksumMismatch => "witness-bundle-checksum-mismatch: the serialized handoff is truncated or changed"@,
            BundleError::PhaseOneVerdictMissing => "witness-bundle-scan-verdict-unchecked: phase 1 did not establish Complete/Shadowed for every scanned address"@,
            BundleError::NullifierCoverageMissing { covered, outputs } => "witness-bundle-nullifier-coverage-missing: phase 1 recorded coverage "@
                + range_debug(*covered) + " for scan outputs "@ + range_debug(*outputs),
            BundleError::Malformed(why) => "witness-bundle-malformed: "@ + why@,
        }
    }

    /// The sentence that a person is shown.
    pub fn message(&self) -> (r: String)
        ensures
            r@ == self.text(),
    {
        let mut s: String = String::new();
        match self {
            BundleError::UnknownVersion(v) => {
                s.append("witness-bundle-version-unknown: version ");
                push_dec(&mut s, *v as u64);
                s.append("; this binary knows version ");
                push_dec(&mut s, WITNESS_BUNDLE_VERSION as u64);
                s.append(" only");
            },
            BundleError::ChecksumMismatch => {
                s.append(
                    "witness-bundle-checksum-mismatch: the serialized handoff is truncated or changed",
                );
            },
            BundleError::PhaseOneVerdictMissing => {
                s.append(
                    "witness-bundle-scan-verdict-unchecked: phase 1 did not establish Complete/Shadowed for every scanned address",
                );
            },
            BundleError::NullifierCoverageMissing { covered, outputs } => {
                s.append("witness-bundle-nullifier-coverage-missing: phase 1 recorded coverage ");
                push_range_debug(&mut s, *covered);
                s.append(" for scan outputs ");
                push_range_debug(&mut s, *outputs);
            },
            BundleError::Malformed(why) => {
                s.append("witness-bundle-malformed: ");
                s.append(why.as_str());
            },
        }
        assert(s@ =~= self.text());
        s
    }
}

} // verus!
