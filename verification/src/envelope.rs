//! The seed file's envelope: a header that says what a record is and what
//! protects it, and nothing else.
//!
//! ```text
//!   bytes 0..8   the magic           fixed, forever
//!   byte  8      format id           versioned, reject-unknown
//!   byte  9      protection id       versioned, reject-unknown
//!   bytes 10..   the payload, which is not read here
//! ```
//!
//! A record that is wrapped for another machine, or written by a newer tool, is
//! intact: it is named for what it is and never called damaged.
use crate::text::push_dec;
#[allow(unused_imports)]
use crate::text::dec;
use vstd::prelude::*;

verus! {

/// The envelope's first bytes: `QMBSEED` and a zero.
pub const MAGIC: [u8; 8] = [0x51, 0x4D, 0x42, 0x53, 0x45, 0x45, 0x44, 0x00];

/// The magic, the format id and the protection id.
pub const HEADER_LEN: usize = 10;

/// What the payload after the header is. Id 0 is never given out.
pub const FORMATS: [(u8, &'static str); 1] = [(1, "wrapped-seed-v1")];

/// Which key store holds the unwrapping key. Id 0 is never given out.
pub const PROTECTIONS: [(u8, &'static str); 5] = [
    (1, "macOS Keychain (Secure-Enclave-held key)"),
    (2, "macOS Keychain (software key, P-256 fallback)"),
    (3, "Windows DPAPI (per-user software protection)"),
    (4, "Windows CNG (TPM-backed)"),
    (5, "Linux Secret Service"),
];

/// What a seed file of another length than the plain one is.
#[derive(Debug, Clone, Copy, PartialEq, Eq)]
#[allow(inconsistent_fields)]
pub enum Verdict {
    /// No magic: not an envelope at all.
    NotAnEnvelope,
    /// The magic, but too few bytes for the header.
    TruncatedHeader { len: usize },
    /// A whole header with both ids known: intact, and to be opened elsewhere.
    Wrapped { format: &'static str, protection: &'static str },
    /// A whole header with an id that is not known: written by a newer tool.
    Unknown { format: u8, protection: u8 },
}

/// The name of the first entry with this id, from place `i` on.
pub open spec fn name_from(table: Seq<(u8, &'static str)>, id: u8, i: int) -> Option<&'static str>
    decreases table.len() - i,
{
    if i < 0 || i >= table.len() {
        None
    } else if table[i].0 == id {
        Some(table[i].1)
    } else {
        name_from(table, id, i + 1)
    }
}

/// The name that a table gives an id.
pub fn name_of(table: &[(u8, &'static str)], id: u8) -> (r: Option<&'static str>)
    ensures
        r == name_from(table@, id, 0),
{
    let mut i: usize = 0;
    while i < table.len()
        invariant
            i <= table@.len(),
            name_from(table@, id, 0) == name_from(table@, id, i as int),
        decreases table@.len() - i,
    {
        if table[i].0 == id {
            return Some(table[i].1);
        }
        i += 1;
    }
    None
}

/// A file begins with the magic.
pub open spec fn has_magic(b: Seq<u8>) -> bool {
    b.len() >= 8 && b.take(8) == MAGIC@
}

/// What the bytes of a seed file say it is.
pub open spec fn verdict_of(b: Seq<u8>) -> Verdict {
    if !has_magic(b) {
        Verdict::NotAnEnvelope
    } else if b.len() < HEADER_LEN {
        Verdict::TruncatedHeader { len: b.len() as usize }
    } else {
        match (name_from(FORMATS@, b[8], 0), name_from(PROTECTIONS@, b[9], 0)) {
            (Some(format), Some(protection)) => Verdict::Wrapped { format, protection },
            _ => Verdict::Unknown { format: b[8], protection: b[9] },
        }
    }
}

/// Names a seed file that is not of the plain length.
pub fn inspect(bytes: &[u8]) -> (r: Verdict)
    ensures
        r == verdict_of(bytes@),
{
    if bytes.len() < 8 {
        return Verdict::NotAnEnvelope;
    }
    let magic = MAGIC;
    let mut i: usize = 0;
    while i < 8
        invariant
            i <= 8,
            bytes@.len() >= 8,
            magic@ == MAGIC@,
            forall|j: int| 0 <= j < i ==> bytes@[j] == magic@[j],
        decreases 8 - i,
    {
        if bytes[i] != magic[i] {
            assert(bytes@.take(8)[i as int] != MAGIC@[i as int]);
            return Verdict::NotAnEnvelope;
        }
        i += 1;
    }
    assert(bytes@.take(8) =~= MAGIC@);
    if bytes.len() < HEADER_LEN {
        return Verdict::TruncatedHeader { len: bytes.len() };
    }
    let format: u8 = bytes[8];
    let protection: u8 = bytes[9];
    let formats = FORMATS;
    let protections = PROTECTIONS;
    match (name_of(&formats, format), name_of(&protections, protection)) {
        (Some(format), Some(protection)) => Verdict::Wrapped { format, protection },
        _ => Verdict::Unknown { format, protection },
    }
}

/// The ids of the first `n` entries with `, ` between them.
pub open spec fn ids_text(table: Seq<(u8, &'static str)>, n: int) -> Seq<char>
    decreases n,
{
    if n <= 0 {
        Seq::empty()
    } else if n == 1 {
        dec(table[0].0 as nat)
    } else {
        ids_text(table, n - 1) + ", "@ + dec(table[n - 1].0 as nat)
    }
}

/// The ids of a table with `, ` between them.
pub fn id_list(table: &[(u8, &'static str)]) -> (r: String)
    ensures
        r@ == ids_text(table@, table@.len() as int),
{
    let mut s: String = String::new();
    let mut i: usize = 0;
    assert(s@ =~= ids_text(table@, 0));
    while i < table.len()
        invariant
            i <= table@.len(),
            s@ == ids_text(table@, i as int),
        decreases table@.len() - i,
    {
        if i > 0 {
            s.append(", ");
        }
        push_dec(&mut s, table[i].0 as u64);
        i += 1;
        assert(s@ =~= ids_text(table@, i as int));
    }
    s
}

/// The format ids that are known.
pub fn known_format_ids() -> (r: String)
    ensures
        r@ == ids_text(FORMATS@, 1),
{
    let table = FORMATS;
    id_list(&table)
}

/// The protection ids that are known.
pub fn known_protection_ids() -> (r: String)
    ensures
        r@ == ids_text(PROTECTIONS@, 5),
{
    let table = PROTECTIONS;
    id_list(&table)
}

/// A plain seed file cut short is never taken for an envelope: its first byte
/// is the seed version, and the magic begins with another.
pub proof fn law_a_cut_plain_file_is_no_envelope(b: Seq<u8>, version: u8)
    requires
        b.len() > 0,
        b[0] == version,
        version != MAGIC@[0],
    ensures
        verdict_of(b) == Verdict::NotAnEnvelope,
{
    if has_magic(b) {
        assert(b.take(8)[0] == b[0]);
    }
}

proof fn lemma_name_from(table: Seq<(u8, &'static str)>, id: u8, i: int)
    requires
        0 <= i,
    ensures
        match name_from(table, id, i) {
            Some(name) => exists|k: int| i <= k < table.len() && #[trigger] table[k] == (id, name),
            None => forall|k: int| i <= k < table.len() ==> (#[trigger] table[k]).0 != id,
        },
    decreases table.len() - i,
{
    if i < table.len() {
        if table[i].0 == id {
            assert(table[i] == (id, table[i].1));
        } else {
            lemma_name_from(table, id, i + 1);
        }
    }
}

/// A file is wrapped exactly if it begins with the magic, has a whole header, and
/// both ids behind the magic are registered; it is then named by what they are
/// registered as. With the magic and a whole header and an id that is not
/// registered it is from a newer tool, and with less it is no envelope or a cut
/// one.
pub proof fn law_an_envelope_names_itself(b: Seq<u8>)
    ensures
        verdict_of(b) is NotAnEnvelope <==> b.len() < 8 || b.take(8) != MAGIC@,
        verdict_of(b) is TruncatedHeader <==> 8 <= b.len() < 10 && b.take(8) == MAGIC@,
        verdict_of(b) is Wrapped <==> {
            &&& b.len() >= 10 && b.take(8) == MAGIC@
            &&& exists|k: int| 0 <= k < FORMATS@.len() && (#[trigger] FORMATS@[k]).0 == b[8]
            &&& exists|k: int| 0 <= k < PROTECTIONS@.len() && (#[trigger] PROTECTIONS@[k]).0 == b[9]
        },
        match verdict_of(b) {
            Verdict::Wrapped { format, protection } => {
                &&& exists|k: int|
                    0 <= k < FORMATS@.len() && #[trigger] FORMATS@[k] == (b[8], format)
                &&& exists|k: int|
                    0 <= k < PROTECTIONS@.len() && #[trigger] PROTECTIONS@[k] == (b[9], protection)
            },
            Verdict::Unknown { format, protection } => format == b[8] && protection == b[9],
            Verdict::TruncatedHeader { len } => len == b.len(),
            Verdict::NotAnEnvelope => true,
        },
{
    if b.len() >= 10 {
        lemma_name_from(FORMATS@, b[8], 0);
        lemma_name_from(PROTECTIONS@, b[9], 0);
    }
}

/// A file with a whole header is named, whatever follows the header.
pub proof fn law_the_header_alone_decides(a: Seq<u8>, b: Seq<u8>)
    requires
        a.len() >= HEADER_LEN,
        b.len() >= HEADER_LEN,
        a.take(HEADER_LEN as int) == b.take(HEADER_LEN as int),
    ensures
        verdict_of(a) == verdict_of(b),
        !(verdict_of(a) is TruncatedHeader),
{
    let x = a.take(HEADER_LEN as int);
    let y = b.take(HEADER_LEN as int);
    assert(a.take(8) =~= x.take(8));
    assert(b.take(8) =~= y.take(8));
    assert(x[8] == a[8] && x[9] == a[9]);
    assert(y[8] == b[8] && y[9] == b[9]);
}

} // verus!
