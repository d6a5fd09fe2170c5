//! The witness bundle's byte codec: little-endian numbers, tagged ranges and
//! length-prefixed strings, written one after the other and read back by a
//! reader that names the field it fails in.
use crate::bundle::{BundleError, MerkleWitness, TxInput, TxOutput};
#[allow(unused_imports)]
use crate::bundle::{InputModel, OutputModel, WitnessModel};
use crate::text::push_dec;
#[allow(unused_imports)]
use crate::text::dec;
use vstd::bytes::{u32_from_le_bytes, u32_to_le_bytes, u64_from_le_bytes, u64_to_le_bytes};
#[allow(unused_imports)]
use vstd::bytes::{
    spec_u32_from_le_bytes, spec_u32_to_le_bytes, spec_u64_from_le_bytes, spec_u64_to_le_bytes,
};
use vstd::prelude::*;
use vstd::slice::slice_subrange;

verus! {

/// The bytes of a row of lanes, each little-endian.
pub open spec fn lane_bytes(lanes: Seq<u64>) -> Seq<u8>
    decreases lanes.len(),
{
    if lanes.len() == 0 {
        Seq::empty()
    } else {
        lane_bytes(lanes.drop_last()) + spec_u64_to_le_bytes(lanes.last())
    }
}

/// Every lane stands in its own eight bytes, in the order of the lanes and
/// little-endian.
pub proof fn law_lanes_are_little_endian(lanes: Seq<u64>)
    ensures
        lane_bytes(lanes).len() == 8 * lanes.len(),
        forall|i: int|
            0 <= i < lanes.len() ==> lane_bytes(lanes).subrange(8 * i, 8 * i + 8)
                == spec_u64_to_le_bytes(#[trigger] lanes[i]),
    decreases lanes.len(),
{
    vstd::bytes::lemma_auto_spec_u64_to_from_le_bytes();
    if lanes.len() > 0 {
        let front = lanes.drop_last();
        let n = front.len() as int;
        law_lanes_are_little_endian(front);
        let all = lane_bytes(lanes);
        let last = spec_u64_to_le_bytes(lanes.last());
        assert(last.len() == 8);
        assert forall|i: int| 0 <= i < lanes.len() implies all.subrange(8 * i, 8 * i + 8)
            == spec_u64_to_le_bytes(#[trigger] lanes[i]) by {
            if i < n {
                assert(front[i] == lanes[i]);
                assert(all.subrange(8 * i, 8 * i + 8) =~= lane_bytes(front).subrange(
                    8 * i,
                    8 * i + 8,
                ));
            } else {
                assert(all.subrange(8 * i, 8 * i + 8) =~= last);
            }
        }
    }
}

/// One byte for a truth value.
pub open spec fn bool_byte(b: bool) -> u8 {
    if b {
        1
    } else {
        0
    }
}

/// A tag, then both ends if there is a range.
pub open spec fn range_bytes(r: Option<(u64, u64)>) -> Seq<u8> {
    match r {
        Some((from, to)) => seq![1u8] + spec_u64_to_le_bytes(from) + spec_u64_to_le_bytes(to),
        None => seq![0u8],
    }
}

/// A length of four bytes, then the bytes.
pub open spec fn sized_bytes(b: Seq<u8>) -> Seq<u8> {
    spec_u32_to_le_bytes(b.len() as u32) + b
}

pub open spec fn input_bytes(i: InputModel) -> Seq<u8> {
    lane_bytes(i.sk) + spec_u64_to_le_bytes(i.value) + lane_bytes(i.rho) + lane_bytes(i.rseed)
        + lane_bytes(i.d)
}

pub open spec fn sibling_bytes(siblings: Seq<Seq<u64>>) -> Seq<u8>
    decreases siblings.len(),
{
    if siblings.len() == 0 {
        Seq::empty()
    } else {
        sibling_bytes(siblings.drop_last()) + lane_bytes(siblings.last())
    }
}

pub open spec fn bit_bytes(bits: Seq<bool>) -> Seq<u8> {
    Seq::new(bits.len(), |i: int| bool_byte(bits[i]))
}

pub open spec fn witness_bytes(w: WitnessModel) -> Seq<u8> {
    sibling_bytes(w.siblings) + bit_bytes(w.path_bits)
}

pub open spec fn output_bytes(o: OutputModel) -> Seq<u8> {
    spec_u64_to_le_bytes(o.value) + lane_bytes(o.rkm) + lane_bytes(o.rho) + lane_bytes(o.rseed)
}

/// Appends `bytes`.
pub(crate) fn put_raw(out: &mut Vec<u8>, bytes: &[u8])
    ensures
        final(out)@ == old(out)@ + bytes@,
{
    let ghost out0 = out@;
    let mut i: usize = 0;
    assert(out0 + bytes@.take(0) =~= out0);
    while i < bytes.len()
        invariant
            i <= bytes@.len(),
            out@ == out0 + bytes@.take(i as int),
        decreases bytes@.len() - i,
    {
        out.push(bytes[i]);
        assert(out0 + bytes@.take(i + 1) =~= out@);
        i += 1;
    }
    assert(bytes@.take(bytes@.len() as int) =~= bytes@);
}

/// Appends a number.
pub fn put_u64(out: &mut Vec<u8>, value: u64)
    ensures
        final(out)@ == old(out)@ + spec_u64_to_le_bytes(value),
{
    let bytes = u64_to_le_bytes(value);
    put_raw(out, &bytes);
}

fn put_lane_slice(out: &mut Vec<u8>, lanes: &[u64])
    ensures
        final(out)@ == old(out)@ + lane_bytes(lanes@),
{
    let ghost out0 = out@;
    let mut i: usize = 0;
    assert(lanes@.take(0) =~= Seq::empty());
    assert(out0 + lane_bytes(lanes@.take(0)) =~= out0);
    while i < lanes.len()
        invariant
            i <= lanes@.len(),
            out@ == out0 + lane_bytes(lanes@.take(i as int)),
        decreases lanes@.len() - i,
    {
        put_u64(out, lanes[i]);
        assert(lanes@.take(i + 1).drop_last() =~= lanes@.take(i as int));
        assert(out0 + lane_bytes(lanes@.take(i + 1)) =~= out@);
        i += 1;
    }
    assert(lanes@.take(lanes@.len() as int) =~= lanes@);
}

/// Appends four lanes.
pub fn put_lanes(out: &mut Vec<u8>, lanes: &[u64; 4])
    ensures
        final(out)@ == old(out)@ + lane_bytes(lanes@),
{
    put_lane_slice(out, lanes);
}

/// Appends a range that may be absent.
pub fn put_range(out: &mut Vec<u8>, range: Option<(u64, u64)>)
    ensures
        final(out)@ == old(out)@ + range_bytes(range),
{
    let ghost out0 = out@;
    match range {
        Some((from, to)) => {
            out.push(1);
            put_u64(out, from);
            put_u64(out, to);
        },
        None => out.push(0),
    }
    assert(out@ =~= out0 + range_bytes(range));
}

/// Appends a byte string with its length in front.
pub fn put_bytes(out: &mut Vec<u8>, bytes: &[u8])
    requires
        bytes@.len() <= u32::MAX,
    ensures
        final(out)@ == old(out)@ + sized_bytes(bytes@),
{
    let ghost out0 = out@;
    let len = u32_to_le_bytes(bytes.len() as u32);
    put_raw(out, &len);
    put_raw(out, bytes);
    assert(out@ =~= out0 + sized_bytes(bytes@));
}

/// Appends an input.
pub fn put_input(out: &mut Vec<u8>, input: &TxInput)
    ensures
        final(out)@ == old(out)@ + input_bytes(input@),
{
    let ghost out0 = out@;
    put_lanes(out, &input.sk);
    put_u64(out, input.value);
    put_lanes(out, &input.rho);
    put_lanes(out, &input.rseed);
    put_lane_slice(out, &input.d);
    assert(out@ =~= out0 + input_bytes(input@));
}

/// Appends a witness: its siblings, then its path bits.
pub fn put_witness(out: &mut Vec<u8>, witness: &MerkleWitness)
    ensures
        final(out)@ == old(out)@ + witness_bytes(witness@),
{
    let ghost out0 = out@;
    let ghost w = witness@;
    let mut i: usize = 0;
    assert(w.siblings.take(0) =~= Seq::empty());
    assert(out0 + sibling_bytes(w.siblings.take(0)) =~= out0);
    while i < witness.siblings.len()
        invariant
            w == witness@,
            i <= witness.siblings@.len(),
            out@ == out0 + sibling_bytes(w.siblings.take(i as int)),
        decreases witness.siblings@.len() - i,
    {
        put_lanes(out, &witness.siblings[i]);
        assert(w.siblings.take(i + 1).drop_last() =~= w.siblings.take(i as int));
        assert(w.siblings.take(i + 1).last() == witness.siblings@[i as int]@);
        assert(out0 + sibling_bytes(w.siblings.take(i + 1)) =~= out@);
        i += 1;
    }
    assert(w.siblings.take(i as int) =~= w.siblings);
    let ghost out1 = out@;
    let mut k: usize = 0;
    assert(out1 + bit_bytes(w.path_bits.take(0)) =~= out1);
    while k < witness.path_bits.len()
        invariant
            w == witness@,
            k <= witness.path_bits@.len(),
            out@ == out1 + bit_bytes(w.path_bits.take(k as int)),
        decreases witness.path_bits@.len() - k,
    {
        out.push(if witness.path_bits[k] { 1 } else { 0 });
        assert(out1 + bit_bytes(w.path_bits.take(k + 1)) =~= out@);
        k += 1;
    }
    assert(w.path_bits.take(k as int) =~= w.path_bits);
    assert(out@ =~= out0 + witness_bytes(w));
}

/// Appends an output.
pub fn put_output(out: &mut Vec<u8>, output: &TxOutput)
    ensures
        final(out)@ == old(out)@ + output_bytes(output@),
{
    let ghost out0 = out@;
    put_u64(out, output.value);
    put_lanes(out, &output.rkm);
    put_lanes(out, &output.rho);
    put_lanes(out, &output.rseed);
    assert(out@ =~= out0 + output_bytes(output@));
}

/// A place in a record that is being read. Once a read has failed, the fault
/// stays and nothing more is read.
pub struct Cursor {
    pub s: Seq<u8>,
    pub pos: int,
    pub fault: Option<Seq<char>>,
}

impl Cursor {
    pub open spec fn fail(self, why: Seq<char>) -> Cursor {
        Cursor { s: self.s, pos: self.pos, fault: Some(why) }
    }

    /// `n` bytes further on.
    pub open spec fn take(self, n: int, name: Seq<char>) -> Cursor {
        if self.fault is Some {
            self
        } else if self.pos + n > usize::MAX {
            self.fail(name + " length overflows"@)
        } else if self.pos + n > self.s.len() {
            self.fail("record ends inside "@ + name)
        } else {
            Cursor { s: self.s, pos: self.pos + n, fault: None }
        }
    }

    pub open spec fn read_u8(self, name: Seq<char>) -> (u8, Cursor) {
        (self.s[self.pos], self.take(1, name))
    }

    /// 0 or 1, and no other byte.
    pub open spec fn read_bool(self, name: Seq<char>) -> (bool, Cursor) {
        let (b, c) = self.read_u8(name);
        if c.fault is Some || b == 0 {
            (false, c)
        } else if b == 1 {
            (true, c)
        } else {
            (false, c.fail(name + " boolean is "@ + dec(b as nat)))
        }
    }

    pub open spec fn read_u64(self, name: Seq<char>) -> (u64, Cursor) {
        (spec_u64_from_le_bytes(self.s.subrange(self.pos, self.pos + 8)), self.take(8, name))
    }

    pub open spec fn read_lanes(self, n: nat, name: Seq<char>) -> (Seq<u64>, Cursor)
        decreases n,
    {
        if n == 0 || self.fault is Some {
            (Seq::empty(), self)
        } else {
            let (front, c) = self.read_lanes((n - 1) as nat, name);
            let (x, d) = c.read_u64(name);
            (front.push(x), d)
        }
    }

    /// A tag of 0 or 1; after a 1, two ends in order.
    pub open spec fn read_range(self, name: Seq<char>) -> (Option<(u64, u64)>, Cursor) {
        let (tag, c) = self.read_u8(name);
        if c.fault is Some || tag == 0 {
            (None, c)
        } else if tag == 1 {
            let (from, d) = c.read_u64(name);
            let (to, e) = d.read_u64(name);
            if e.fault is None && from > to {
                (
                    None,
                    e.fail(
                        name + " begins at "@ + dec(from as nat) + " after it ends at "@ + dec(
                            to as nat,
                        ),
                    ),
                )
            } else {
                (Some((from, to)), e)
            }
        } else {
            (None, c.fail(name + " option tag is "@ + dec(tag as nat)))
        }
    }

    pub open spec fn read_bytes(self, name: Seq<char>) -> (Seq<u8>, Cursor) {
        let n = spec_u32_from_le_bytes(self.s.subrange(self.pos, self.pos + 4)) as int;
        (self.s.subrange(self.pos + 4, self.pos + 4 + n), self.take(4, name).take(n, name))
    }

    pub open spec fn read_input(self, name: Seq<char>) -> (InputModel, Cursor) {
        let (sk, c1) = self.read_lanes(4, name);
        let (value, c2) = c1.read_u64(name);
        let (rho, c3) = c2.read_lanes(4, name);
        let (rseed, c4) = c3.read_lanes(4, name);
        let (d, c5) = c4.read_lanes(2, name);
        (InputModel { sk, value, rho, rseed, d }, c5)
    }

    pub open spec fn read_siblings(self, n: nat, name: Seq<char>) -> (Seq<Seq<u64>>, Cursor)
        decreases n,
    {
        if n == 0 || self.fault is Some {
            (Seq::empty(), self)
        } else {
            let (front, c) = self.read_siblings((n - 1) as nat, name);
            let (x, d) = c.read_lanes(4, name);
            (front.push(x), d)
        }
    }

    pub open spec fn read_bits(self, n: nat, name: Seq<char>) -> (Seq<bool>, Cursor)
        decreases n,
    {
        if n == 0 || self.fault is Some {
            (Seq::empty(), self)
        } else {
            let (front, c) = self.read_bits((n - 1) as nat, name);
            let (x, d) = c.read_bool(name);
            (front.push(x), d)
        }
    }

    pub open spec fn read_witness(self, depth: nat, name: Seq<char>) -> (WitnessModel, Cursor) {
        let (siblings, c) = self.read_siblings(depth, name);
        let (path_bits, d) = c.read_bits(depth, name);
        (WitnessModel { siblings, path_bits }, d)
    }

    pub open spec fn read_output(self, name: Seq<char>) -> (OutputModel, Cursor) {
        let (value, c1) = self.read_u64(name);
        let (rkm, c2) = c1.read_lanes(4, name);
        let (rho, c3) = c2.read_lanes(4, name);
        let (rseed, c4) = c3.read_lanes(4, name);
        (OutputModel { value, rkm, rho, rseed }, c4)
    }

    /// Everything has been read.
    pub open spec fn finish(self) -> Cursor {
        if self.fault is None && self.pos != self.s.len() {
            self.fail(dec((self.s.len() - self.pos) as nat) + " trailing payload bytes"@)
        } else {
            self
        }
    }
}

/// Whether an error is the one that a fault says.
pub open spec fn is_fault(e: BundleError, c: Cursor) -> bool {
    c.fault is Some && (e matches BundleError::Malformed(why) && why@ == c.fault->0)
}

/// Reads a record front to back.
pub struct Reader<'a> {
    pub bytes: &'a [u8],
    pub pos: usize,
}

fn malformed(name: &str, what: &str) -> (e: BundleError)
    ensures
        e matches BundleError::Malformed(why) && why@ == name@ + what@,
{
    let mut s: String = String::new();
    s.append(name);
    s.append(what);
    assert(s@ =~= name@ + what@);
    BundleError::Malformed(s)
}

impl<'a> Reader<'a> {
    pub open spec fn wf(&self) -> bool {
        self.pos <= self.bytes@.len()
    }

    pub open spec fn at(&self) -> Cursor {
        Cursor { s: self.bytes@, pos: self.pos as int, fault: None }
    }

    /// A reader at the front of `bytes`.
    pub fn new(bytes: &'a [u8]) -> (r: Reader<'a>)
        ensures
            r.wf(),
            r.at() == (Cursor { s: bytes@, pos: 0, fault: None }),
    {
        Reader { bytes, pos: 0 }
    }

    /// The next `n` bytes.
    pub fn take(&mut self, n: usize, name: &str) -> (r: Result<&'a [u8], BundleError>)
        requires
            old(self).wf(),
        ensures
            final(self).wf(),
            ({
                let c = old(self).at().take(n as int, name@);
                match r {
                    Ok(got) => {
                        &&& c.fault is None
                        &&& got@ == old(self).bytes@.subrange(old(self).pos as int, old(self).pos + n)
                        &&& final(self).at() == c
                    },
                    Err(e) => is_fault(e, c) && final(self).at() == old(self).at(),
                }
            }),
    {
        if n > usize::MAX - self.pos {
            return Err(malformed(name, " length overflows"));
        }
        let end = self.pos + n;
        if end > self.bytes.len() {
            return Err(malformed("record ends inside ", name));
        }
        let got = slice_subrange(self.bytes, self.pos, end);
        self.pos = end;
        Ok(got)
    }

    /// The next byte.
    pub fn u8(&mut self, name: &str) -> (r: Result<u8, BundleError>)
        requires
            old(self).wf(),
        ensures
            final(self).wf(),
            ({
                let (v, c) = old(self).at().read_u8(name@);
                match r {
                    Ok(x) => c.fault is None && x == v && final(self).at() == c,
                    Err(e) => is_fault(e, c),
                }
            }),
    {
        match self.take(1, name) {
            Ok(got) => Ok(got[0]),
            Err(e) => Err(e),
        }
    }

    /// The next byte as a truth value.
    pub fn bool(&mut self, name: &str) -> (r: Result<bool, BundleError>)
        requires
            old(self).wf(),
        ensures
            final(self).wf(),
            ({
                let (v, c) = old(self).at().read_bool(name@);
                match r {
                    Ok(x) => c.fault is None && x == v && final(self).at() == c,
                    Err(e) => is_fault(e, c),
                }
            }),
    {
        let b: u8 = match self.u8(name) {
            Ok(b) => b,
            Err(e) => {
                return Err(e);
            },
        };
        if b == 0 {
            Ok(false)
        } else if b == 1 {
            Ok(true)
        } else {
            let mut s: String = String::new();
            s.append(name);
            s.append(" boolean is ");
            push_dec(&mut s, b as u64);
            assert(s@ =~= name@ + " boolean is "@ + dec(b as nat));
            Err(BundleError::Malformed(s))
        }
    }

    /// The next number.
    pub fn u64(&mut self, name: &str) -> (r: Result<u64, BundleError>)
        requires
            old(self).wf(),
        ensures
            final(self).wf(),
            ({
                let (v, c) = old(self).at().read_u64(name@);
                match r {
                    Ok(x) => c.fault is None && x == v && final(self).at() == c,
                    Err(e) => is_fault(e, c),
                }
            }),
    {
        match self.take(8, name) {
            Ok(got) => Ok(u64_from_le_bytes(got)),
            Err(e) => Err(e),
        }
    }

    /// The next four lanes.
    pub fn lanes(&mut self, name: &str) -> (r: Result<[u64; 4], BundleError>)
        requires
            old(self).wf(),
        ensures
            final(self).wf(),
            ({
                let (v, c) = old(self).at().read_lanes(4, name@);
                match r {
                    Ok(x) => c.fault is None && x@ == v && final(self).at() == c,
                    Err(e) => is_fault(e, c),
                }
            }),
    {
        let mut lanes: [u64; 4] = [0;4];
        let ghost start = self.at();
        let mut i: usize = 0;
        while i < 4
            invariant
                i <= 4,
                self.wf(),
                start.fault is None,
                start == old(self).at(),
                start.read_lanes(i as nat, name@).1 == self.at(),
                start.read_lanes(i as nat, name@).0 == lanes@.take(i as int),
            decreases 4 - i,
        {
            let ghost before = lanes@;
            match self.u64(name) {
                Ok(x) => {
                    lanes[i] = x;
                    assert(lanes@.take(i + 1) =~= before.take(i as int).push(x));
                },
                Err(e) => {
                    proof {
                        lemma_lanes_fault(start, (i + 1) as nat, 4, name@);
                    }
                    return Err(e);
                },
            }
            i += 1;
        }
        assert(lanes@.take(4) =~= lanes@);
        Ok(lanes)
    }

    /// The next range that may be absent.
    pub fn range(&mut self, name: &str) -> (r: Result<Option<(u64, u64)>, BundleError>)
        requires
            old(self).wf(),
        ensures
            final(self).wf(),
            ({
                let (v, c) = old(self).at().read_range(name@);
                match r {
                    Ok(x) => c.fault is None && x == v && final(self).at() == c,
                    Err(e) => is_fault(e, c),
                }
            }),
    {
        let tag: u8 = match self.u8(name) {
            Ok(b) => b,
            Err(e) => {
                return Err(e);
            },
        };
        if tag == 0 {
            Ok(None)
        } else if tag == 1 {
            let from: u64 = match self.u64(name) {
                Ok(x) => x,
                Err(e) => {
                    return Err(e);
                },
            };
            let to: u64 = match self.u64(name) {
                Ok(x) => x,
                Err(e) => {
                    return Err(e);
                },
            };
            if from > to {
                let mut s: String = String::new();
                s.append(name);
                s.append(" begins at ");
                push_dec(&mut s, from);
                s.append(" after it ends at ");
                push_dec(&mut s, to);
                assert(s@ =~= name@ + " begins at "@ + dec(from as nat) + " after it ends at "@ + dec(
                    to as nat,
                ));
                return Err(BundleError::Malformed(s));
            }
            Ok(Some((from, to)))
        } else {
            let mut s: String = String::new();
            s.append(name);
            s.append(" option tag is ");
            push_dec(&mut s, tag as u64);
            assert(s@ =~= name@ + " option tag is "@ + dec(tag as nat));
            Err(BundleError::Malformed(s))
        }
    }

    /// The next byte string with its length in front.
    pub fn bytes(&mut self, name: &str) -> (r: Result<&'a [u8], BundleError>)
        requires
            old(self).wf(),
        ensures
            final(self).wf(),
            ({
                let (v, c) = old(self).at().read_bytes(name@);
                match r {
                    Ok(x) => c.fault is None && x@ == v && final(self).at() == c,
                    Err(e) => is_fault(e, c),
                }
            }),
    {
        let len: u32 = match self.take(4, name) {
            Ok(got) => u32_from_le_bytes(got),
            Err(e) => {
                return Err(e);
            },
        };
        self.take(len as usize, name)
    }

    /// The next input.
    pub fn input(&mut self, name: &str) -> (r: Result<TxInput, BundleError>)
        requires
            old(self).wf(),
        ensures
            final(self).wf(),
            ({
                let (v, c) = old(self).at().read_input(name@);
                match r {
                    Ok(x) => c.fault is None && x@ == v && final(self).at() == c,
                    Err(e) => is_fault(e, c),
                }
            }),
    {
        let sk = match self.lanes(name) {
            Ok(x) => x,
            Err(e) => {
                return Err(e);
            },
        };
        let value: u64 = match self.u64(name) {
            Ok(x) => x,
            Err(e) => {
                return Err(e);
            },
        };
        let rho = match self.lanes(name) {
            Ok(x) => x,
            Err(e) => {
                return Err(e);
            },
        };
        let rseed = match self.lanes(name) {
            Ok(x) => x,
            Err(e) => {
                return Err(e);
            },
        };
        proof {
            reveal_with_fuel(Cursor::read_lanes, 3);
        }
        let d0: u64 = match self.u64(name) {
            Ok(x) => x,
            Err(e) => {
                return Err(e);
            },
        };
        let d1: u64 = match self.u64(name) {
            Ok(x) => x,
            Err(e) => {
                return Err(e);
            },
        };
        let d: [u64; 2] = [d0, d1];
        assert(d@ =~= Seq::<u64>::empty().push(d0).push(d1));
        Ok(TxInput { sk, value, rho, rseed, d })
    }

    /// The next witness, of a tree of the given depth.
    pub fn witness(&mut self, depth: usize, name: &str) -> (r: Result<MerkleWitness, BundleError>)
        requires
            old(self).wf(),
        ensures
            final(self).wf(),
            ({
                let (v, c) = old(self).at().read_witness(depth as nat, name@);
                match r {
                    Ok(x) => c.fault is None && x@ == v && final(self).at() == c,
                    Err(e) => is_fault(e, c),
                }
            }),
    {
        let mut siblings: Vec<[u64; 4]> = Vec::new();
        let ghost start = self.at();
        let mut i: usize = 0;
        assert(lanes_views(siblings@) =~= Seq::empty());
        while i < depth
            invariant
                i <= depth,
                self.wf(),
                start.fault is None,
                start == old(self).at(),
                start.read_siblings(i as nat, name@).1 == self.at(),
                start.read_siblings(i as nat, name@).0 == lanes_views(siblings@),
            decreases depth - i,
        {
            match self.lanes(name) {
                Ok(x) => {
                    let ghost before = siblings@;
                    siblings.push(x);
                    assert(lanes_views(siblings@) =~= lanes_views(before).push(x@));
                },
                Err(e) => {
                    proof {
                        lemma_siblings_fault(start, (i + 1) as nat, depth as nat, name@);
                        lemma_bits_sticky(start.read_siblings(depth as nat, name@).1, depth as nat, name@);
                    }
                    return Err(e);
                },
            }
            i += 1;
        }
        let mut path_bits: Vec<bool> = Vec::new();
        let ghost middle = self.at();
        let mut k: usize = 0;
        while k < depth
            invariant
                k <= depth,
                self.wf(),
                start == old(self).at(),
                start.read_siblings(depth as nat, name@).1 == middle,
                middle.fault is None,
                middle.read_bits(k as nat, name@).1 == self.at(),
                middle.read_bits(k as nat, name@).0 == path_bits@,
            decreases depth - k,
        {
            match self.bool(name) {
                Ok(x) => {
                    path_bits.push(x);
                },
                Err(e) => {
                    proof {
                        lemma_bits_fault(middle, (k + 1) as nat, depth as nat, name@);
                    }
                    return Err(e);
                },
            }
            k += 1;
        }
        Ok(MerkleWitness { siblings, path_bits })
    }

    /// The next output.
    pub fn output(&mut self, name: &str) -> (r: Result<TxOutput, BundleError>)
        requires
            old(self).wf(),
        ensures
            final(self).wf(),
            ({
                let (v, c) = old(self).at().read_output(name@);
                match r {
                    Ok(x) => c.fault is None && x@ == v && final(self).at() == c,
                    Err(e) => is_fault(e, c),
                }
            }),
    {
        let value: u64 = match self.u64(name) {
            Ok(x) => x,
            Err(e) => {
                return Err(e);
            },
        };
        let rkm = match self.lanes(name) {
            Ok(x) => x,
            Err(e) => {
                return Err(e);
            },
        };
        let rho = match self.lanes(name) {
            Ok(x) => x,
            Err(e) => {
                return Err(e);
            },
        };
        let rseed = match self.lanes(name) {
            Ok(x) => x,
            Err(e) => {
                return Err(e);
            },
        };
        Ok(TxOutput { value, rkm, rho, rseed })
    }

    /// Refuses what is left over.
    pub fn finish(self) -> (r: Result<(), BundleError>)
        requires
            self.wf(),
        ensures
            match r {
                Ok(()) => self.at().finish().fault is None,
                Err(e) => is_fault(e, self.at().finish()),
            },
    {
        if self.pos == self.bytes.len() {
            Ok(())
        } else {
            let mut s: String = String::new();
            push_dec(&mut s, (self.bytes.len() - self.pos) as u64);
            s.append(" trailing payload bytes");
            assert(s@ =~= dec((self.bytes@.len() - self.pos) as nat) + " trailing payload bytes"@);
            Err(BundleError::Malformed(s))
        }
    }
}

/// The lanes of a row of four-lane values.
pub open spec fn lanes_views(v: Seq<[u64; 4]>) -> Seq<Seq<u64>> {
    Seq::new(v.len(), |i: int| v[i]@)
}

proof fn lemma_lanes_fault(c: Cursor, i: nat, n: nat, name: Seq<char>)
    requires
        i <= n,
        c.read_lanes(i, name).1.fault is Some,
    ensures
        c.read_lanes(n, name).1.fault == c.read_lanes(i, name).1.fault,
    decreases n,
{
    if i < n {
        lemma_lanes_fault(c, i, (n - 1) as nat, name);
    }
}

proof fn lemma_siblings_fault(c: Cursor, i: nat, n: nat, name: Seq<char>)
    requires
        i <= n,
        c.read_siblings(i, name).1.fault is Some,
    ensures
        c.read_siblings(n, name).1.fault == c.read_siblings(i, name).1.fault,
    decreases n,
{
    if i < n {
        lemma_siblings_fault(c, i, (n - 1) as nat, name);
    }
}

proof fn lemma_bits_fault(c: Cursor, i: nat, n: nat, name: Seq<char>)
    requires
        i <= n,
        c.read_bits(i, name).1.fault is Some,
    ensures
        c.read_bits(n, name).1.fault == c.read_bits(i, name).1.fault,
    decreases n,
{
    if i < n {
        lemma_bits_fault(c, i, (n - 1) as nat, name);
    }
}

proof fn lemma_bits_sticky(c: Cursor, n: nat, name: Seq<char>)
    requires
        c.fault is Some,
    ensures
        c.read_bits(n, name).1 == c,
{
}

/// The 32 bytes of four lanes: lane by lane, each little-endian.
pub fn digest_bytes(lanes: &[u64; 4]) -> (r: [u8; 32])
    ensures
        r@ == lane_bytes(lanes@),
{
    let mut v: Vec<u8> = Vec::new();
    put_lanes(&mut v, lanes);
    proof {
        lemma_lane_bytes_len(lanes@);
        assert(v@ =~= lane_bytes(lanes@));
    }
    let mut r: [u8; 32] = [0;32];
    let mut i: usize = 0;
    while i < 32
        invariant
            i <= 32,
            v@.len() == 32,
            forall|j: int| 0 <= j < i ==> r@[j] == v@[j],
        decreases 32 - i,
    {
        r[i] = v[i];
        i += 1;
    }
    assert(r@ =~= v@);
    r
}

/// The four lanes that 32 bytes write, each little-endian.
pub open spec fn lanes_of(b: Seq<u8>) -> Seq<u64> {
    Seq::new(4, |i: int| spec_u64_from_le_bytes(b.subrange(8 * i, 8 * i + 8)))
}

/// The four lanes that 32 bytes write.
pub fn digest_lanes(b: &[u8; 32]) -> (r: [u64; 4])
    ensures
        r@ == lanes_of(b@),
{
    let mut r: [u64; 4] = [0; 4];
    let mut i: usize = 0;
    while i < 4
        invariant
            i <= 4,
            forall|k: int|
                0 <= k < i ==> #[trigger] r@[k] == spec_u64_from_le_bytes(
                    b@.subrange(8 * k, 8 * k + 8),
                ),
        decreases 4 - i,
    {
        let piece = slice_subrange(b, 8 * i, 8 * i + 8);
        assert(piece@ == b@.subrange(8 * i as int, 8 * i + 8));
        r[i] = u64_from_le_bytes(piece);
        i += 1;
    }
    assert(r@ =~= lanes_of(b@));
    r
}

/// Four lanes written as bytes read back as those lanes.
pub proof fn lemma_lanes_of_bytes(lanes: Seq<u64>)
    requires
        lanes.len() == 4,
    ensures
        lanes_of(lane_bytes(lanes)) == lanes,
        lane_bytes(lanes).len() == 32,
{
    vstd::bytes::lemma_auto_spec_u64_to_from_le_bytes();
    lemma_lane_bytes_len(lanes);
    let b = lane_bytes(lanes);
    let l3 = lanes.drop_last();
    let l2 = l3.drop_last();
    let l1 = l2.drop_last();
    lemma_lane_bytes_len(l3);
    lemma_lane_bytes_len(l2);
    lemma_lane_bytes_len(l1);
    assert(l1.drop_last() =~= Seq::empty());
    assert(lane_bytes(l1) =~= spec_u64_to_le_bytes(lanes[0]));
    assert(b.subrange(0, 8) =~= spec_u64_to_le_bytes(lanes[0]));
    assert(b.subrange(8, 16) =~= spec_u64_to_le_bytes(lanes[1]));
    assert(b.subrange(16, 24) =~= spec_u64_to_le_bytes(lanes[2]));
    assert(b.subrange(24, 32) =~= spec_u64_to_le_bytes(lanes[3]));
    assert(lanes_of(b) =~= lanes);
}

/// The lanes that 32 bytes write are written as those bytes.
pub proof fn lemma_bytes_of_lanes(b: Seq<u8>)
    requires
        b.len() == 32,
    ensures
        lane_bytes(lanes_of(b)) == b,
{
    vstd::bytes::lemma_auto_spec_u64_to_from_le_bytes();
    let l = lanes_of(b);
    reveal_with_fuel(lane_bytes, 5);
    assert(l.drop_last().drop_last().drop_last().drop_last() =~= Seq::empty());
    assert(lane_bytes(l) =~= b.subrange(0, 8) + b.subrange(8, 16) + b.subrange(16, 24)
        + b.subrange(24, 32));
    assert(b =~= b.subrange(0, 8) + b.subrange(8, 16) + b.subrange(16, 24) + b.subrange(24, 32));
}

/// Each lane takes eight bytes.
pub proof fn lemma_lane_bytes_len(lanes: Seq<u64>)
    ensures
        lane_bytes(lanes).len() == 8 * lanes.len(),
    decreases lanes.len(),
{
    vstd::bytes::lemma_auto_spec_u64_to_from_le_bytes();
    if lanes.len() > 0 {
        lemma_lane_bytes_len(lanes.drop_last());
    }
}

/// The bytes `b` stand at the cursor.
pub open spec fn has_at(c: Cursor, b: Seq<u8>) -> bool {
    &&& c.fault is None
    &&& 0 <= c.pos
    &&& c.pos + b.len() <= c.s.len() <= usize::MAX
    &&& c.s.subrange(c.pos, c.pos + b.len()) == b
}

/// The cursor `n` bytes further on.
pub open spec fn after(c: Cursor, n: int) -> Cursor {
    Cursor { s: c.s, pos: c.pos + n, fault: None }
}

pub proof fn lemma_has_concat(c: Cursor, a: Seq<u8>, b: Seq<u8>)
    requires
        has_at(c, a + b),
    ensures
        has_at(c, a),
        has_at(after(c, a.len() as int), b),
{
    let t = c.s.subrange(c.pos, c.pos + (a + b).len());
    assert(c.s.subrange(c.pos, c.pos + a.len()) =~= t.take(a.len() as int));
    assert(t.take(a.len() as int) =~= a);
    assert(c.s.subrange(c.pos + a.len(), c.pos + a.len() + b.len()) =~= t.skip(a.len() as int));
    assert(t.skip(a.len() as int) =~= b);
}

/// A cursor in `s` from which nothing has failed.
pub open spec fn sound(c: Cursor) -> bool {
    c.fault is None && 0 <= c.pos <= c.s.len() && c.s.len() <= usize::MAX
}

/// `d` stands behind `c`, and the bytes between are `b`.
pub open spec fn spans(c: Cursor, d: Cursor, b: Seq<u8>) -> bool {
    &&& d.s == c.s
    &&& sound(d)
    &&& c.pos <= d.pos
    &&& c.s.subrange(c.pos, d.pos) == b
}

pub proof fn lemma_spans_concat(c: Cursor, d: Cursor, e: Cursor, a: Seq<u8>, b: Seq<u8>)
    requires
        sound(c),
        spans(c, d, a),
        spans(d, e, b),
    ensures
        spans(c, e, a + b),
{
    assert(c.s.subrange(c.pos, e.pos) =~= a + b);
}

pub proof fn lemma_read_u8(c: Cursor, b: u8, name: Seq<char>)
    ensures
        has_at(c, seq![b]) ==> c.read_u8(name) == (b, after(c, 1)),
        sound(c) && c.read_u8(name).1.fault is None ==> spans(
            c,
            c.read_u8(name).1,
            seq![c.read_u8(name).0],
        ),
{
    if has_at(c, seq![b]) {
        assert(c.s.subrange(c.pos, c.pos + 1)[0] == b);
    }
    if sound(c) && c.read_u8(name).1.fault is None {
        assert(c.s.subrange(c.pos, c.pos + 1) =~= seq![c.s[c.pos]]);
    }
}

pub proof fn lemma_read_bool(c: Cursor, b: bool, name: Seq<char>)
    ensures
        has_at(c, seq![bool_byte(b)]) ==> c.read_bool(name) == (b, after(c, 1)),
        sound(c) && c.read_bool(name).1.fault is None ==> spans(
            c,
            c.read_bool(name).1,
            seq![bool_byte(c.read_bool(name).0)],
        ),
{
    lemma_read_u8(c, bool_byte(b), name);
}

pub proof fn lemma_read_u64(c: Cursor, x: u64, name: Seq<char>)
    ensures
        has_at(c, spec_u64_to_le_bytes(x)) ==> c.read_u64(name) == (x, after(c, 8)),
        sound(c) && c.read_u64(name).1.fault is None ==> spans(
            c,
            c.read_u64(name).1,
            spec_u64_to_le_bytes(c.read_u64(name).0),
        ),
        spec_u64_to_le_bytes(x).len() == 8,
{
    vstd::bytes::lemma_auto_spec_u64_to_from_le_bytes();
    if sound(c) && c.read_u64(name).1.fault is None {
        let b = c.s.subrange(c.pos, c.pos + 8);
        assert(spec_u64_to_le_bytes(spec_u64_from_le_bytes(b)) == b);
    }
}

pub proof fn lemma_read_lanes(c: Cursor, lanes: Seq<u64>, name: Seq<char>)
    ensures
        has_at(c, lane_bytes(lanes)) ==> c.read_lanes(lanes.len(), name) == (
            lanes,
            after(c, 8 * lanes.len() as int),
        ),
        lane_bytes(lanes).len() == 8 * lanes.len(),
    decreases lanes.len(),
{
    lemma_lane_bytes_len(lanes);
    if has_at(c, lane_bytes(lanes)) {
        if lanes.len() == 0 {
            assert(c.read_lanes(0, name).0 =~= lanes);
        } else {
            let front = lanes.drop_last();
            lemma_has_concat(c, lane_bytes(front), spec_u64_to_le_bytes(lanes.last()));
            lemma_read_lanes(c, front, name);
            lemma_read_u64(after(c, 8 * front.len() as int), lanes.last(), name);
            assert(front.push(lanes.last()) =~= lanes);
        }
    }
}

pub proof fn lemma_lanes_back(c: Cursor, n: nat, name: Seq<char>)
    requires
        sound(c),
        c.read_lanes(n, name).1.fault is None,
    ensures
        c.read_lanes(n, name).0.len() == n,
        spans(c, c.read_lanes(n, name).1, lane_bytes(c.read_lanes(n, name).0)),
    decreases n,
{
    if n == 0 {
        assert(c.s.subrange(c.pos, c.pos) =~= lane_bytes(Seq::empty()));
    } else {
        let m = (n - 1) as nat;
        let (front, d) = c.read_lanes(m, name);
        if d.fault is Some {
            assert(d.read_u64(name).1 == d);
        }
        lemma_lanes_back(c, m, name);
        lemma_read_u64(d, 0, name);
        let (x, e) = d.read_u64(name);
        lemma_spans_concat(c, d, e, lane_bytes(front), spec_u64_to_le_bytes(x));
        assert(front.push(x).drop_last() =~= front);
    }
}

pub proof fn lemma_read_range(c: Cursor, r: Option<(u64, u64)>, name: Seq<char>)
    ensures
        has_at(c, range_bytes(r)) && (r matches Some((a, b)) ==> a <= b) ==> c.read_range(name) == (
            r,
            after(c, range_bytes(r).len() as int),
        ),
        sound(c) && c.read_range(name).1.fault is None ==> {
            &&& spans(c, c.read_range(name).1, range_bytes(c.read_range(name).0))
            &&& c.read_range(name).0 matches Some((a, b)) ==> a <= b
        },
{
    vstd::bytes::lemma_auto_spec_u64_to_from_le_bytes();
    if has_at(c, range_bytes(r)) {
        match r {
            Some((a, b)) => {
                let q = seq![1u8] + spec_u64_to_le_bytes(a);
                lemma_has_concat(c, q, spec_u64_to_le_bytes(b));
                lemma_has_concat(c, seq![1u8], spec_u64_to_le_bytes(a));
                lemma_read_u8(c, 1, name);
                lemma_read_u64(after(c, 1), a, name);
                lemma_read_u64(after(c, 9), b, name);
            },
            None => {
                lemma_read_u8(c, 0, name);
            },
        }
    }
    if sound(c) && c.read_range(name).1.fault is None {
        let (tag, d) = c.read_u8(name);
        lemma_read_u8(c, 0, name);
        if tag == 1 {
            let (from, e) = d.read_u64(name);
            let (to, f) = e.read_u64(name);
            lemma_read_u64(d, 0, name);
            lemma_read_u64(e, 0, name);
            lemma_spans_concat(c, d, e, seq![1u8], spec_u64_to_le_bytes(from));
            lemma_spans_concat(
                c,
                e,
                f,
                seq![1u8] + spec_u64_to_le_bytes(from),
                spec_u64_to_le_bytes(to),
            );
        }
    }
}

pub proof fn lemma_read_bytes(c: Cursor, b: Seq<u8>, name: Seq<char>)
    ensures
        has_at(c, sized_bytes(b)) && b.len() <= u32::MAX ==> c.read_bytes(name) == (
            b,
            after(c, sized_bytes(b).len() as int),
        ),
        sound(c) && c.read_bytes(name).1.fault is None ==> {
            &&& spans(c, c.read_bytes(name).1, sized_bytes(c.read_bytes(name).0))
            &&& c.read_bytes(name).0.len() <= u32::MAX
        },
{
    vstd::bytes::lemma_auto_spec_u32_to_from_le_bytes();
    if has_at(c, sized_bytes(b)) && b.len() <= u32::MAX {
        lemma_has_concat(c, spec_u32_to_le_bytes(b.len() as u32), b);
        assert(c.s.subrange(c.pos, c.pos + 4) == spec_u32_to_le_bytes(b.len() as u32));
    }
    if sound(c) && c.read_bytes(name).1.fault is None {
        let head = c.s.subrange(c.pos, c.pos + 4);
        let n = spec_u32_from_le_bytes(head);
        let v = c.read_bytes(name).0;
        assert(v.len() == n);
        assert(spec_u32_to_le_bytes(spec_u32_from_le_bytes(head)) == head);
        assert(c.s.subrange(c.pos, c.pos + 4 + n) =~= head + v);
    }
}

pub open spec fn input_wf(i: InputModel) -> bool {
    i.sk.len() == 4 && i.rho.len() == 4 && i.rseed.len() == 4 && i.d.len() == 2
}

pub open spec fn witness_wf(w: WitnessModel, depth: nat) -> bool {
    &&& w.siblings.len() == depth && w.path_bits.len() == depth
    &&& forall|i: int| 0 <= i < depth ==> (#[trigger] w.siblings[i]).len() == 4
}

pub open spec fn output_wf(o: OutputModel) -> bool {
    o.rkm.len() == 4 && o.rho.len() == 4 && o.rseed.len() == 4
}

pub proof fn lemma_read_input(c: Cursor, i: InputModel, name: Seq<char>)
    ensures
        has_at(c, input_bytes(i)) && input_wf(i) ==> c.read_input(name) == (
            i,
            after(c, input_bytes(i).len() as int),
        ),
        sound(c) && c.read_input(name).1.fault is None ==> {
            &&& spans(c, c.read_input(name).1, input_bytes(c.read_input(name).0))
            &&& input_wf(c.read_input(name).0)
        },
{
    vstd::bytes::lemma_auto_spec_u64_to_from_le_bytes();
    if has_at(c, input_bytes(i)) && input_wf(i) {
        let q1 = lane_bytes(i.sk);
        let q2 = q1 + spec_u64_to_le_bytes(i.value);
        let q3 = q2 + lane_bytes(i.rho);
        let q4 = q3 + lane_bytes(i.rseed);
        lemma_has_concat(c, q4, lane_bytes(i.d));
        lemma_has_concat(c, q3, lane_bytes(i.rseed));
        lemma_has_concat(c, q2, lane_bytes(i.rho));
        lemma_has_concat(c, q1, spec_u64_to_le_bytes(i.value));
        lemma_read_lanes(c, i.sk, name);
        lemma_read_u64(after(c, 32), i.value, name);
        lemma_read_lanes(after(c, 40), i.rho, name);
        lemma_read_lanes(after(c, 72), i.rseed, name);
        lemma_read_lanes(after(c, 104), i.d, name);
    }
    if sound(c) && c.read_input(name).1.fault is None {
        let (sk, c1) = c.read_lanes(4, name);
        let (value, c2) = c1.read_u64(name);
        let (rho, c3) = c2.read_lanes(4, name);
        let (rseed, c4) = c3.read_lanes(4, name);
        let (d, c5) = c4.read_lanes(2, name);
        lemma_lanes_sticky(c4, 2, name);
        lemma_lanes_sticky(c3, 4, name);
        lemma_lanes_sticky(c2, 4, name);
        lemma_lanes_back(c, 4, name);
        lemma_read_u64(c1, 0, name);
        lemma_lanes_back(c2, 4, name);
        lemma_lanes_back(c3, 4, name);
        lemma_lanes_back(c4, 2, name);
        lemma_spans_concat(c, c1, c2, lane_bytes(sk), spec_u64_to_le_bytes(value));
        let q2 = lane_bytes(sk) + spec_u64_to_le_bytes(value);
        lemma_spans_concat(c, c2, c3, q2, lane_bytes(rho));
        lemma_spans_concat(c, c3, c4, q2 + lane_bytes(rho), lane_bytes(rseed));
        lemma_spans_concat(c, c4, c5, q2 + lane_bytes(rho) + lane_bytes(rseed), lane_bytes(d));
    }
}

pub proof fn lemma_lanes_sticky(c: Cursor, n: nat, name: Seq<char>)
    ensures
        c.fault is Some ==> c.read_lanes(n, name).1 == c,
{
}

proof fn lemma_read_siblings(c: Cursor, v: Seq<Seq<u64>>, name: Seq<char>)
    requires
        forall|i: int| 0 <= i < v.len() ==> (#[trigger] v[i]).len() == 4,
    ensures
        has_at(c, sibling_bytes(v)) ==> c.read_siblings(v.len(), name) == (
            v,
            after(c, 32 * v.len() as int),
        ),
        sibling_bytes(v).len() == 32 * v.len(),
    decreases v.len(),
{
    if v.len() == 0 {
        assert(c.read_siblings(0, name).0 =~= v);
    } else {
        let front = v.drop_last();
        assert forall|i: int| 0 <= i < front.len() implies (#[trigger] front[i]).len() == 4 by {
            assert(v[i].len() == 4);
        }
        assert(v[v.len() - 1].len() == 4);
        lemma_read_siblings(c, front, name);
        lemma_lane_bytes_len(v.last());
        if has_at(c, sibling_bytes(v)) {
            lemma_has_concat(c, sibling_bytes(front), lane_bytes(v.last()));
            lemma_read_lanes(after(c, 32 * front.len() as int), v.last(), name);
            assert(front.push(v.last()) =~= v);
        }
    }
}

proof fn lemma_siblings_back(c: Cursor, n: nat, name: Seq<char>)
    requires
        sound(c),
        c.read_siblings(n, name).1.fault is None,
    ensures
        c.read_siblings(n, name).0.len() == n,
        forall|i: int| 0 <= i < n ==> (#[trigger] c.read_siblings(n, name).0[i]).len() == 4,
        spans(c, c.read_siblings(n, name).1, sibling_bytes(c.read_siblings(n, name).0)),
    decreases n,
{
    if n == 0 {
        assert(c.s.subrange(c.pos, c.pos) =~= sibling_bytes(Seq::empty()));
    } else {
        let m = (n - 1) as nat;
        let (front, d) = c.read_siblings(m, name);
        lemma_lanes_sticky(d, 4, name);
        lemma_siblings_back(c, m, name);
        lemma_lanes_back(d, 4, name);
        let (x, e) = d.read_lanes(4, name);
        lemma_spans_concat(c, d, e, sibling_bytes(front), lane_bytes(x));
        assert(front.push(x).drop_last() =~= front);
    }
}

proof fn lemma_read_bits(c: Cursor, v: Seq<bool>, name: Seq<char>)
    ensures
        has_at(c, bit_bytes(v)) ==> c.read_bits(v.len(), name) == (v, after(c, v.len() as int)),
    decreases v.len(),
{
    if v.len() == 0 {
        assert(c.read_bits(0, name).0 =~= v);
    } else {
        let front = v.drop_last();
        lemma_read_bits(c, front, name);
        if has_at(c, bit_bytes(v)) {
            assert(bit_bytes(v) =~= bit_bytes(front) + seq![bool_byte(v.last())]);
            lemma_has_concat(c, bit_bytes(front), seq![bool_byte(v.last())]);
            lemma_read_bool(after(c, front.len() as int), v.last(), name);
            assert(front.push(v.last()) =~= v);
        }
    }
}

proof fn lemma_bits_back(c: Cursor, n: nat, name: Seq<char>)
    requires
        sound(c),
        c.read_bits(n, name).1.fault is None,
    ensures
        c.read_bits(n, name).0.len() == n,
        spans(c, c.read_bits(n, name).1, bit_bytes(c.read_bits(n, name).0)),
    decreases n,
{
    if n == 0 {
        assert(c.s.subrange(c.pos, c.pos) =~= bit_bytes(Seq::empty()));
    } else {
        let m = (n - 1) as nat;
        let (front, d) = c.read_bits(m, name);
        if d.fault is Some {
            assert(d.read_bool(name).1 == d);
        }
        lemma_bits_back(c, m, name);
        lemma_read_bool(d, false, name);
        let (x, e) = d.read_bool(name);
        lemma_spans_concat(c, d, e, bit_bytes(front), seq![bool_byte(x)]);
        assert(bit_bytes(front.push(x)) =~= bit_bytes(front) + seq![bool_byte(x)]);
    }
}

pub proof fn lemma_read_witness(c: Cursor, w: WitnessModel, depth: nat, name: Seq<char>)
    ensures
        has_at(c, witness_bytes(w)) && witness_wf(w, depth) ==> c.read_witness(depth, name) == (
            w,
            after(c, witness_bytes(w).len() as int),
        ),
        sound(c) && c.read_witness(depth, name).1.fault is None ==> {
            &&& spans(c, c.read_witness(depth, name).1, witness_bytes(c.read_witness(depth, name).0))
            &&& witness_wf(c.read_witness(depth, name).0, depth)
        },
{
    if has_at(c, witness_bytes(w)) && witness_wf(w, depth) {
        lemma_has_concat(c, sibling_bytes(w.siblings), bit_bytes(w.path_bits));
        lemma_read_siblings(c, w.siblings, name);
        lemma_read_bits(after(c, 32 * depth as int), w.path_bits, name);
    }
    if sound(c) && c.read_witness(depth, name).1.fault is None {
        let (siblings, d) = c.read_siblings(depth, name);
        let (path_bits, e) = d.read_bits(depth, name);
        if d.fault is Some {
            lemma_bits_sticky(d, depth, name);
        }
        lemma_siblings_back(c, depth, name);
        lemma_bits_back(d, depth, name);
        lemma_spans_concat(c, d, e, sibling_bytes(siblings), bit_bytes(path_bits));
    }
}

pub proof fn lemma_read_output(c: Cursor, o: OutputModel, name: Seq<char>)
    ensures
        has_at(c, output_bytes(o)) && output_wf(o) ==> c.read_output(name) == (
            o,
            after(c, output_bytes(o).len() as int),
        ),
        sound(c) && c.read_output(name).1.fault is None ==> {
            &&& spans(c, c.read_output(name).1, output_bytes(c.read_output(name).0))
            &&& output_wf(c.read_output(name).0)
        },
{
    vstd::bytes::lemma_auto_spec_u64_to_from_le_bytes();
    if has_at(c, output_bytes(o)) && output_wf(o) {
        let q1 = spec_u64_to_le_bytes(o.value);
        let q2 = q1 + lane_bytes(o.rkm);
        let q3 = q2 + lane_bytes(o.rho);
        lemma_has_concat(c, q3, lane_bytes(o.rseed));
        lemma_has_concat(c, q2, lane_bytes(o.rho));
        lemma_has_concat(c, q1, lane_bytes(o.rkm));
        lemma_read_u64(c, o.value, name);
        lemma_read_lanes(after(c, 8), o.rkm, name);
        lemma_read_lanes(after(c, 40), o.rho, name);
        lemma_read_lanes(after(c, 72), o.rseed, name);
    }
    if sound(c) && c.read_output(name).1.fault is None {
        let (value, c1) = c.read_u64(name);
        let (rkm, c2) = c1.read_lanes(4, name);
        let (rho, c3) = c2.read_lanes(4, name);
        let (rseed, c4) = c3.read_lanes(4, name);
        lemma_lanes_sticky(c3, 4, name);
        lemma_lanes_sticky(c2, 4, name);
        lemma_lanes_sticky(c1, 4, name);
        lemma_read_u64(c, 0, name);
        lemma_lanes_back(c1, 4, name);
        lemma_lanes_back(c2, 4, name);
        lemma_lanes_back(c3, 4, name);
        let q1 = spec_u64_to_le_bytes(value);
        lemma_spans_concat(c, c1, c2, q1, lane_bytes(rkm));
        lemma_spans_concat(c, c2, c3, q1 + lane_bytes(rkm), lane_bytes(rho));
        lemma_spans_concat(c, c3, c4, q1 + lane_bytes(rkm) + lane_bytes(rho), lane_bytes(rseed));
    }
}

} // verus!
