//! The wallet's directory: a seed file and a cursor of address indices.
//!
//! ```text
//!   wallet.seed     33 bytes: the seed version and 32 bytes of entropy
//!   addresses.v1    text: the allocated indices
//! ```
//!
//! An address is derived from its index, so the second file is a cursor and
//! its loss costs nothing but the cursor. The files are read and written
//! elsewhere; what their bytes mean is decided here.
use crate::envelope::{inspect, known_format_ids, known_protection_ids, Verdict};
#[allow(unused_imports)]
use crate::envelope::{ids_text, verdict_of, FORMATS, PROTECTIONS};
use crate::order::order_of;
#[allow(unused_imports)]
use crate::order::{in_order, order};
use crate::random::os_seed;
use crate::text::{
    chars_of, debug_of, hex_of, lines, parse_u64, push_dec, string_of, text_is, trim,
};
#[allow(unused_imports)]
use crate::text::{
    debug_text, dec, hex_text, lemma_dec_digits, lemma_dec_lacks,
    lemma_lines_of_first, lemma_number_text_of_dec, lines_of, number_text, texts, trim_of,
};
use crate::wire::digest_bytes;
#[allow(unused_imports)]
use crate::wire::lane_bytes;
use vstd::prelude::*;

verus! {

pub const SEED_FILE: &'static str = "wallet.seed";

pub const ADDR_FILE: &'static str = "addresses.v1";

/// The first line of the address file: the only one that is read.
pub const ADDR_HEADER: &'static str = "qumbra-wallet addresses v1";

/// The account that this wallet derives.
pub const HD_ACCOUNT: u32 = 0;

/// How many bytes of entropy a seed has.
pub const ENTROPY_LEN: usize = 32;

/// Why the wallet's directory is refused. Damaged files, and files that are
/// intact and merely cannot be opened here, are told apart.
#[derive(Debug, PartialEq, Eq)]
#[allow(inconsistent_fields)]
pub enum StoreError {
    Io(String),
    /// Key material is never overwritten.
    SeedExists(String),
    /// There is no wallet here.
    NoWallet(String),
    /// A damaged seed file.
    BadSeedFile(String),
    /// An intact record that another machine's key store wraps.
    SeedWrappedElsewhere { format: &'static str, protection: &'static str },
    /// An intact record that a newer tool wrote.
    SeedFromNewerTool { format: u8, protection: u8 },
    /// An address file that cannot be read.
    BadAddrFile(String),
}

impl StoreError {
    /// The sentence that a person is shown.
    pub open spec fn text(&self) -> Seq<char> {
        match self {
            StoreError::Io(e) => e@,
            StoreError::SeedExists(p) => p@ + " already exists. Refusing to overwrite key material — move it aside first."@,
            StoreError::NoWallet(p) => "no wallet at "@ + p@ + " (missing wallet.seed). Run `qumbra-wallet keygen` or `restore`."@,
            StoreError::BadSeedFile(why) => "unreadable seed file: "@ + why@,
            StoreError::SeedWrappedElsewhere { format, protection } => "this seed file is wrapped by "@ + protection@ + " (envelope format `"@ + format@ + "`), and this binary has no unwrap support for it. The wallet itself is fine and this file is NOT damaged — open it with a build that can unwrap "@ + protection@ + ", on the machine that wrapped it."@,
            StoreError::SeedFromNewerTool { format, protection } => "this seed file was written by a newer tool: envelope format id "@ + dec(*format as nat) + ", protection id "@ + dec(*protection as nat) + ". This binary knows format ids ["@ + ids_text(FORMATS@, 1) + "] and protection ids ["@ + ids_text(PROTECTIONS@, 5) + "]. The file is NOT damaged and NOT corrupt — open it with the tool that wrote it, or upgrade this one."@,
            StoreError::BadAddrFile(why) => "unreadable address file: "@ + why@,
        }
    }

    /// The sentence that a person is shown.
    pub fn message(&self) -> (r: String)
        ensures
            r@ == self.text(),
    {
        let mut s: String = String::new();
        match self {
            StoreError::Io(e) => {
                s.append(e.as_str());
            },
            StoreError::SeedExists(p) => {
                s.append(p.as_str());
                s.append(" already exists. Refusing to overwrite key material — move it aside first.");
            },
            StoreError::NoWallet(p) => {
                s.append("no wallet at ");
                s.append(p.as_str());
                s.append(" (missing wallet.seed). Run `qumbra-wallet keygen` or `restore`.");
            },
            StoreError::BadSeedFile(why) => {
                s.append("unreadable seed file: ");
                s.append(why.as_str());
            },
            StoreError::SeedWrappedElsewhere { format, protection } => {
                s.append("this seed file is wrapped by ");
                s.append(protection);
                s.append(" (envelope format `");
                s.append(format);
                s.append("`), and this binary has no unwrap support for it. The wallet itself is fine and this file is NOT damaged — open it with a build that can unwrap ");
                s.append(protection);
                s.append(", on the machine that wrapped it.");
            },
            StoreError::SeedFromNewerTool { format, protection } => {
                s.append("this seed file was written by a newer tool: envelope format id ");
                push_dec(&mut s, *format as u64);
                s.append(", protection id ");
                push_dec(&mut s, *protection as u64);
                s.append(". This binary knows format ids [");
                { let q = known_format_ids(); s.append(q.as_str()); }
                s.append("] and protection ids [");
                { let q = known_protection_ids(); s.append(q.as_str()); }
                s.append("]. The file is NOT damaged and NOT corrupt — open it with the tool that wrote it, or upgrade this one.");
            },
            StoreError::BadAddrFile(why) => {
                s.append("unreadable address file: ");
                s.append(why.as_str());
            },
        }
        assert(s@ =~= self.text());
        s
    }
}

/// A seed: the version that its keys are derived at, and its entropy.
#[derive(Clone, Copy, PartialEq, Eq)]
pub struct Seed {
    pub version: u8,
    pub entropy: [u8; 32],
}

/// The seed file of a seed: the version, then the entropy.
pub open spec fn seed_bytes_of(seed: Seed) -> Seq<u8> {
    seq![seed.version] + seed.entropy@
}

/// The bytes that are written to the seed file.
pub fn seed_bytes(seed: &Seed) -> (r: Vec<u8>)
    ensures
        r@ == seed_bytes_of(*seed),
{
    let mut r: Vec<u8> = Vec::new();
    r.push(seed.version);
    let mut i: usize = 0;
    while i < 32
        invariant
            i <= 32,
            r@ == seq![seed.version] + seed.entropy@.take(i as int),
        decreases 32 - i,
    {
        r.push(seed.entropy[i]);
        i += 1;
        assert(seq![seed.version] + seed.entropy@.take(i as int) =~= (seq![seed.version]
            + seed.entropy@.take(i - 1)).push(seed.entropy@[i - 1]));
    }
    assert(seed.entropy@.take(32) =~= seed.entropy@);
    r
}

/// What is said of a seed file that is not of the plain length.
pub open spec fn is_not_plain(e: StoreError, b: Seq<u8>) -> bool {
    match verdict_of(b) {
        Verdict::NotAnEnvelope => e matches StoreError::BadSeedFile(why) && why@ == dec(b.len())
            + " bytes; this binary knows exactly one format: 1 version byte + 32 entropy bytes"@,
        Verdict::TruncatedHeader { len } => e matches StoreError::BadSeedFile(why) && why@ == dec(
            len as nat,
        )
            + " bytes: the Qumbra seed-envelope magic followed by too few bytes to carry its 10-byte header, so this record cannot even name itself. That is damage, not a format this binary lacks — restore from the mnemonic"@,
        Verdict::Wrapped { format, protection } => e == (StoreError::SeedWrappedElsewhere {
            format,
            protection,
        }),
        Verdict::Unknown { format, protection } => e == (StoreError::SeedFromNewerTool {
            format,
            protection,
        }),
    }
}

/// Names a seed file that is not of the plain length: damaged, wrapped
/// elsewhere, or from a newer tool.
pub fn not_the_plain_format(bytes: &[u8]) -> (r: StoreError)
    ensures
        is_not_plain(r, bytes@),
{
    match inspect(bytes) {
        Verdict::NotAnEnvelope => {
            let mut s: String = String::new();
            push_dec(&mut s, bytes.len() as u64);
            s.append(
                " bytes; this binary knows exactly one format: 1 version byte + 32 entropy bytes",
            );
            assert(s@ =~= dec(bytes@.len())
                + " bytes; this binary knows exactly one format: 1 version byte + 32 entropy bytes"@);
            StoreError::BadSeedFile(s)
        },
        Verdict::TruncatedHeader { len } => {
            let mut s: String = String::new();
            push_dec(&mut s, len as u64);
            s.append(
                " bytes: the Qumbra seed-envelope magic followed by too few bytes to carry its 10-byte header, so this record cannot even name itself. That is damage, not a format this binary lacks — restore from the mnemonic",
            );
            assert(s@ =~= dec(len as nat)
                + " bytes: the Qumbra seed-envelope magic followed by too few bytes to carry its 10-byte header, so this record cannot even name itself. That is damage, not a format this binary lacks — restore from the mnemonic"@);
            StoreError::BadSeedFile(s)
        },
        Verdict::Wrapped { format, protection } => StoreError::SeedWrappedElsewhere {
            format,
            protection,
        },
        Verdict::Unknown { format, protection } => StoreError::SeedFromNewerTool {
            format,
            protection,
        },
    }
}

/// What is said of a version byte that is not the one keys are derived at.
pub open spec fn version_text(got: u8, want: u8) -> Seq<char> {
    "version "@ + dec(got as nat) + " refused: this binary derives at version "@ + dec(want as nat)
        + " only, and a different byte would silently derive a different wallet"@
}

/// What is said of an unwrapped seed of another version.
pub open spec fn unwrapped_version_text(got: u8, want: u8) -> Seq<char> {
    "unwrapped version "@ + dec(got as nat) + " refused: this binary derives at version "@ + dec(
        want as nat,
    ) + " only"@
}

/// What a seed file holds: of exactly the plain length, and of the version
/// that keys are derived at. Everything else is refused by name.
pub fn read_seed(bytes: &[u8], seed_version: u8) -> (r: Result<Seed, StoreError>)
    ensures
        match r {
            Ok(seed) => seed.version == seed_version && bytes@ == seed_bytes_of(seed),
            Err(e) => if bytes@.len() != 1 + ENTROPY_LEN {
                is_not_plain(e, bytes@)
            } else {
                bytes@[0] != seed_version && (e matches StoreError::BadSeedFile(why) && why@
                    == version_text(bytes@[0], seed_version))
            },
        },
{
    if bytes.len() != 33 {
        return Err(not_the_plain_format(bytes));
    }
    if bytes[0] != seed_version {
        let mut s: String = "version ".to_owned();
        push_dec(&mut s, bytes[0] as u64);
        s.append(" refused: this binary derives at version ");
        push_dec(&mut s, seed_version as u64);
        s.append(" only, and a different byte would silently derive a different wallet");
        assert(s@ =~= version_text(bytes@[0], seed_version));
        return Err(StoreError::BadSeedFile(s));
    }
    let mut entropy: [u8; 32] = [0; 32];
    let mut i: usize = 0;
    while i < 32
        invariant
            i <= 32,
            bytes@.len() == 33,
            forall|j: int| 0 <= j < i ==> entropy@[j] == bytes@[j + 1],
        decreases 32 - i,
    {
        entropy[i] = bytes[i + 1];
        i += 1;
    }
    let seed = Seed { version: bytes[0], entropy };
    assert(bytes@ =~= seed_bytes_of(seed));
    Ok(seed)
}

/// Admits a seed that a platform provider unwrapped: only over a registered
/// envelope, and only at the version that keys are derived at.
pub fn admit_unwrapped(bytes: &[u8], seed: Seed, seed_version: u8) -> (r: Result<Seed, StoreError>)
    ensures
        match r {
            Ok(s) => s == seed && bytes@.len() != 1 + ENTROPY_LEN && verdict_of(bytes@) is Wrapped
                && seed.version == seed_version,
            Err(e) => if bytes@.len() == 1 + ENTROPY_LEN {
                e matches StoreError::BadSeedFile(why) && why@
                    == "an external unwrap provider cannot override a plain seed file"@
            } else if !(verdict_of(bytes@) is Wrapped) {
                is_not_plain(e, bytes@)
            } else {
                seed.version != seed_version && (e matches StoreError::BadSeedFile(why) && why@
                    == unwrapped_version_text(seed.version, seed_version))
            },
        },
{
    if bytes.len() == 33 {
        return Err(
            StoreError::BadSeedFile(
                "an external unwrap provider cannot override a plain seed file".to_owned(),
            ),
        );
    }
    match inspect(bytes) {
        Verdict::Wrapped { .. } => {},
        _ => {
            return Err(not_the_plain_format(bytes));
        },
    }
    if seed.version != seed_version {
        let mut s: String = "unwrapped version ".to_owned();
        push_dec(&mut s, seed.version as u64);
        s.append(" refused: this binary derives at version ");
        push_dec(&mut s, seed_version as u64);
        s.append(" only");
        assert(s@ =~= unwrapped_version_text(seed.version, seed_version));
        return Err(StoreError::BadSeedFile(s));
    }
    Ok(seed)
}

/// The text of the address file: a line for each index from place `i` on.
pub open spec fn indices_text(v: Seq<u64>, i: int) -> Seq<char>
    decreases v.len() - i,
{
    if i < 0 || i >= v.len() {
        Seq::empty()
    } else {
        dec(v[i] as nat) + "\n"@ + indices_text(v, i + 1)
    }
}

/// The text of the address file.
pub open spec fn address_file(v: Seq<u64>) -> Seq<char> {
    ADDR_HEADER@ + "\n"@ + indices_text(v, 0)
}

/// The text that is written to the address file.
pub fn addresses_text(allocated: &Vec<u64>) -> (r: String)
    ensures
        r@ == address_file(allocated@),
{
    let mut s: String = ADDR_HEADER.to_owned();
    s.append("\n");
    let ghost goal = address_file(allocated@);
    let mut i: usize = 0;
    assert(s@ + indices_text(allocated@, 0) =~= goal);
    while i < allocated.len()
        invariant
            i <= allocated@.len(),
            s@ + indices_text(allocated@, i as int) == goal,
        decreases allocated@.len() - i,
    {
        let ghost before = s@;
        push_dec(&mut s, allocated[i]);
        s.append("\n");
        i += 1;
        proof {
            let line = dec(allocated@[i - 1] as nat) + "\n"@;
            assert(s@ =~= before + line);
            assert(s@ + indices_text(allocated@, i as int) =~= before + (line + indices_text(
                allocated@,
                i as int,
            )));
        }
    }
    assert(s@ =~= goal);
    s
}

/// The indices of the lines from place 1 to `n`, or what is wrong. Empty lines
/// are left out, and no index may come twice.
pub open spec fn indices_to(all: Seq<Seq<char>>, n: int) -> Result<Seq<u64>, Seq<char>>
    decreases n,
{
    if n <= 1 {
        Ok(Seq::empty())
    } else {
        match indices_to(all, n - 1) {
            Err(e) => Err(e),
            Ok(v) => if all[n - 1].len() == 0 {
                Ok(v)
            } else {
                match number_text(all[n - 1], u64::MAX as nat) {
                    None => Err("not an index: "@ + debug_text(all[n - 1])),
                    Some(i) => if v.contains(i as u64) {
                        Err("duplicate index "@ + dec(i))
                    } else {
                        Ok(v.push(i as u64))
                    },
                }
            },
        }
    }
}

/// What a first line that is not known is shown as.
pub open spec fn shown_header(all: Seq<Seq<char>>) -> Seq<char> {
    if all.len() == 0 {
        "None"@
    } else {
        "Some("@ + debug_text(all[0]) + ")"@
    }
}

/// What the address file's text means: the indices in ascending order, and
/// index 0 where there is none.
pub open spec fn indices_of(text: Seq<char>) -> Result<Seq<u64>, Seq<char>> {
    let all = lines_of(text);
    if all.len() == 0 || all[0] != ADDR_HEADER@ {
        Err("header "@ + shown_header(all) + "; this binary knows `"@ + ADDR_HEADER@ + "` only"@)
    } else {
        match indices_to(all, all.len() as int) {
            Err(e) => Err(e),
            Ok(v) => if v.len() == 0 {
                Ok(seq![0u64])
            } else {
                Ok(in_order(v, v))
            },
        }
    }
}

proof fn lemma_indices_err(all: Seq<Seq<char>>, n: int, m: int)
    requires
        n <= m,
        indices_to(all, n) is Err,
    ensures
        indices_to(all, m) == indices_to(all, n),
    decreases m - n,
{
    if n < m {
        lemma_indices_err(all, n, m - 1);
    }
}

fn holds(v: &Vec<u64>, x: u64) -> (r: bool)
    ensures
        r == v@.contains(x),
{
    let mut i: usize = 0;
    while i < v.len()
        invariant
            i <= v@.len(),
            forall|k: int| 0 <= k < i ==> v@[k] != x,
        decreases v@.len() - i,
    {
        if v[i] == x {
            return true;
        }
        i += 1;
    }
    false
}

/// Reads the address file.
pub fn parse_addresses(text: &str) -> (r: Result<Vec<u64>, StoreError>)
    ensures
        match (r, indices_of(text@)) {
            (Ok(v), Ok(m)) => v@ == m,
            (Err(StoreError::BadAddrFile(why)), Err(m)) => why@ == m,
            _ => false,
        },
{
    let chars = chars_of(text);
    let all = lines(&chars);
    let ghost ls = texts(all@);
    let known = if all.len() > 0 {
        assert(ls[0] == all@[0]@);
        text_is(&all[0], ADDR_HEADER)
    } else {
        false
    };
    if !known {
        let mut s: String = "header ".to_owned();
        if all.len() == 0 {
            s.append("None");
        } else {
            s.append("Some(");
            let shown = string_of(&all[0]);
            let q = debug_of(shown.as_str());
            s.append(q.as_str());
            s.append(")");
        }
        s.append("; this binary knows `");
        s.append(ADDR_HEADER);
        s.append("` only");
        assert(s@ =~= indices_of(text@)->Err_0);
        return Err(StoreError::BadAddrFile(s));
    }
    let mut out: Vec<u64> = Vec::new();
    let mut i: usize = 1;
    assert(out@ =~= Seq::empty());
    while i < all.len()
        invariant
            1 <= i <= all@.len(),
            ls == texts(all@),
            ls == lines_of(text@),
            ls[0] == ADDR_HEADER@,
            indices_to(ls, i as int) == Ok::<Seq<u64>, Seq<char>>(out@),
        decreases all@.len() - i,
    {
        assert(ls[i as int] == all@[i as int]@);
        if all[i].len() > 0 {
            match parse_u64(&all[i]) {
                None => {
                    let mut s: String = "not an index: ".to_owned();
                    let shown = string_of(&all[i]);
                    let q = debug_of(shown.as_str());
                    s.append(q.as_str());
                    proof {
                        lemma_indices_err(ls, i + 1, ls.len() as int);
                    }
                    return Err(StoreError::BadAddrFile(s));
                },
                Some(n) => {
                    if holds(&out, n) {
                        let mut s: String = "duplicate index ".to_owned();
                        push_dec(&mut s, n);
                        proof {
                            lemma_indices_err(ls, i + 1, ls.len() as int);
                        }
                        return Err(StoreError::BadAddrFile(s));
                    }
                    out.push(n);
                },
            }
        }
        i += 1;
    }
    if out.len() == 0 {
        out.push(0);
        assert(out@ =~= seq![0u64]);
        return Ok(out);
    }
    let places = order_of(&out);
    let mut sorted: Vec<u64> = Vec::new();
    let mut k: usize = 0;
    while k < places.len()
        invariant
            k <= places@.len(),
            places@.len() == out@.len(),
            places@.len() == order(out@).len(),
            sorted@.len() == k,
            forall|j: int|
                0 <= j < places@.len() ==> #[trigger] places@[j] as int == order(out@)[j],
            forall|j: int| 0 <= j < places@.len() ==> #[trigger] places@[j] < out@.len(),
            forall|j: int| 0 <= j < k ==> #[trigger] sorted@[j] == out@[order(out@)[j]],
        decreases places@.len() - k,
    {
        sorted.push(out[places[k]]);
        k += 1;
    }
    assert(sorted@ =~= in_order(out@, out@));
    Ok(sorted)
}

/// An open wallet: its seed and the allocated indices.
#[derive(Clone)]
pub struct WalletDir {
    pub dir: String,
    pub seed: Seed,
    pub allocated: Vec<u64>,
}

/// The cursor that a directory holds: its file's indices, or index 0 where it
/// has none.
fn cursor(addresses: Option<&str>) -> (r: Result<Vec<u64>, StoreError>)
    ensures
        match addresses {
            Some(text) => match (r, indices_of(text@)) {
                (Ok(v), Ok(m)) => v@ == m,
                (Err(StoreError::BadAddrFile(why)), Err(m)) => why@ == m,
                _ => false,
            },
            None => r matches Ok(v) && v@ == seq![0u64],
        },
{
    match addresses {
        Some(text) => parse_addresses(text),
        None => {
            let v: Vec<u64> = vec![0];
            assert(v@ =~= seq![0u64]);
            Ok(v)
        },
    }
}

/// The cursor's indices, or what is wrong with its file.
pub open spec fn cursor_of(addresses: Option<&str>) -> Result<Seq<u64>, Seq<char>> {
    match addresses {
        Some(text) => indices_of(text@),
        None => Ok(seq![0u64]),
    }
}

/// The greatest index; none where there is none.
pub open spec fn greatest_index(v: Seq<u64>) -> Option<u64>
    decreases v.len(),
{
    if v.len() == 0 {
        None
    } else {
        match greatest_index(v.drop_last()) {
            None => Some(v.last()),
            Some(m) => if v.last() > m {
                Some(v.last())
            } else {
                Some(m)
            },
        }
    }
}

/// The index that is allocated next: one more than the greatest.
pub open spec fn next_index(v: Seq<u64>) -> int {
    match greatest_index(v) {
        None => 0,
        Some(m) => m + 1,
    }
}

impl WalletDir {
    /// A new wallet around a seed with index 0 allocated. A directory that
    /// holds a seed file is refused.
    pub fn create(dir: &str, seed_path: &str, seed_exists: bool, seed: Seed) -> (r: Result<
        WalletDir,
        StoreError,
    >)
        ensures
            match r {
                Ok(w) => !seed_exists && w.dir@ == dir@ && w.seed == seed && w.allocated@ == seq![
                    0u64,
                ],
                Err(e) => seed_exists && (e matches StoreError::SeedExists(p) && p@ == seed_path@),
            },
    {
        if seed_exists {
            return Err(StoreError::SeedExists(seed_path.to_owned()));
        }
        let allocated: Vec<u64> = vec![0];
        assert(allocated@ =~= seq![0u64]);
        Ok(WalletDir { dir: dir.to_owned(), seed, allocated })
    }

    /// Opens a wallet from what its directory holds: the seed file's bytes and
    /// the address file's text, where they are there.
    pub fn open(
        dir: &str,
        seed_file: Option<&[u8]>,
        addresses: Option<&str>,
        seed_version: u8,
    ) -> (r: Result<WalletDir, StoreError>)
        ensures
            match seed_file {
                None => r matches Err(StoreError::NoWallet(p)) && p@ == dir@,
                Some(bytes) => match r {
                    Ok(w) => (addresses is None ==> w.allocated@ == seq![0u64]) && w.dir@ == dir@
                        && w.seed.version == seed_version && bytes@
                        == seed_bytes_of(w.seed) && cursor_of(addresses) == Ok::<
                        Seq<u64>,
                        Seq<char>,
                    >(w.allocated@),
                    Err(e) => if bytes@.len() != 1 + ENTROPY_LEN {
                        is_not_plain(e, bytes@)
                    } else if bytes@[0] != seed_version {
                        e matches StoreError::BadSeedFile(why) && why@ == version_text(
                            bytes@[0],
                            seed_version,
                        )
                    } else {
                        e matches StoreError::BadAddrFile(why) && cursor_of(addresses) == Err::<
                            Seq<u64>,
                            Seq<char>,
                        >(why@)
                    },
                },
            },
    {
        match seed_file {
            None => Err(StoreError::NoWallet(dir.to_owned())),
            Some(bytes) => match read_seed(bytes, seed_version) {
                Err(e) => Err(e),
                Ok(seed) => match cursor(addresses) {
                    Err(e) => Err(e),
                    Ok(allocated) => Ok(WalletDir { dir: dir.to_owned(), seed, allocated }),
                },
            },
        }
    }

    /// Opens a wallet whose seed a platform provider unwrapped.
    pub fn open_wrapped(
        dir: &str,
        seed_file: Option<&[u8]>,
        seed: Seed,
        addresses: Option<&str>,
        seed_version: u8,
    ) -> (r: Result<WalletDir, StoreError>)
        ensures
            match seed_file {
                None => r matches Err(StoreError::NoWallet(p)) && p@ == dir@,
                Some(bytes) => match r {
                    Ok(w) => w.dir@ == dir@ && w.seed == seed && seed.version == seed_version
                        && bytes@.len() != 1 + ENTROPY_LEN && verdict_of(bytes@) is Wrapped
                        && cursor_of(addresses) == Ok::<Seq<u64>, Seq<char>>(w.allocated@),
                    Err(e) => if bytes@.len() == 1 + ENTROPY_LEN {
                        e matches StoreError::BadSeedFile(why) && why@
                            == "an external unwrap provider cannot override a plain seed file"@
                    } else if !(verdict_of(bytes@) is Wrapped) {
                        is_not_plain(e, bytes@)
                    } else if seed.version != seed_version {
                        e matches StoreError::BadSeedFile(why) && why@ == unwrapped_version_text(
                            seed.version,
                            seed_version,
                        )
                    } else {
                        e matches StoreError::BadAddrFile(why) && cursor_of(addresses) == Err::<
                            Seq<u64>,
                            Seq<char>,
                        >(why@)
                    },
                },
            },
    {
        match seed_file {
            None => Err(StoreError::NoWallet(dir.to_owned())),
            Some(bytes) => match admit_unwrapped(bytes, seed, seed_version) {
                Err(e) => Err(e),
                Ok(seed) => match cursor(addresses) {
                    Err(e) => Err(e),
                    Ok(allocated) => Ok(WalletDir { dir: dir.to_owned(), seed, allocated }),
                },
            },
        }
    }

    /// Allocates the next index: one more than the greatest.
    pub fn allocate_next(&mut self) -> (r: u64)
        requires
            next_index(old(self).allocated@) <= u64::MAX,
        ensures
            r == next_index(old(self).allocated@),
            final(self).allocated@ == old(self).allocated@.push(r),
            final(self).dir == old(self).dir,
            final(self).seed == old(self).seed,
            forall|i: int|
                0 <= i < old(self).allocated@.len() ==> (#[trigger] old(self).allocated@[i]) < r,
            r == 0 || exists|i: int|
                0 <= i < old(self).allocated@.len() && (#[trigger] old(self).allocated@[i]) + 1 == r,
    {
        proof {
            lemma_greatest(self.allocated@);
        }
        let mut best: Option<u64> = None;
        let mut i: usize = 0;
        assert(self.allocated@.take(0) =~= Seq::empty());
        while i < self.allocated.len()
            invariant
                i <= self.allocated@.len(),
                *self == *old(self),
                best == greatest_index(self.allocated@.take(i as int)),
            decreases self.allocated@.len() - i,
        {
            assert(self.allocated@.take(i + 1).drop_last() =~= self.allocated@.take(i as int));
            let x: u64 = self.allocated[i];
            match best {
                None => {
                    best = Some(x);
                },
                Some(m) => {
                    if x > m {
                        best = Some(x);
                    }
                },
            }
            i += 1;
        }
        assert(self.allocated@.take(i as int) =~= self.allocated@);
        let next: u64 = match best {
            None => 0,
            Some(m) => m + 1,
        };
        self.allocated.push(next);
        next
    }
}

/// The mnemonic that was typed: without white space around it.
pub fn phrase_of(text: &str) -> (r: String)
    ensures
        r@ == trim_of(text@),
{
    let v = chars_of(text);
    let t = trim(&v);
    string_of(&t)
}

/// What is said of a phrase that is no mnemonic of this wallet's.
pub open spec fn mnemonic_text(why: Seq<char>) -> Seq<char> {
    "not a Qumbra mnemonic ("@ + why
        + "). Note: Qumbra's wordlist is deliberately NOT BIP-39 (lab PR #44) — a phrase from another wallet cannot restore here, and this tool will not guess at near-matches."@
}

/// The refusal of a phrase that is no mnemonic of this wallet's.
pub fn mnemonic_refusal(why: &str) -> (r: StoreError)
    ensures
        r matches StoreError::BadSeedFile(s) && s@ == mnemonic_text(why@),
{
    let mut s: String = "not a Qumbra mnemonic (".to_owned();
    s.append(why);
    s.append(
        "). Note: Qumbra's wordlist is deliberately NOT BIP-39 (lab PR #44) — a phrase from another wallet cannot restore here, and this tool will not guess at near-matches.",
    );
    StoreError::BadSeedFile(s)
}

/// Fresh entropy for a wallet, out of the operating system. It is not drawn
/// where a seed file is there already: nobody is shown a phrase for a wallet
/// that will not be written.
pub fn fresh_entropy(seed_path: &str, seed_exists: bool) -> (r: Result<[u8; 32], StoreError>)
    ensures
        match r {
            Ok(_) => !seed_exists,
            Err(e) => seed_exists && (e matches StoreError::SeedExists(p) && p@ == seed_path@),
        },
{
    if seed_exists {
        return Err(StoreError::SeedExists(seed_path.to_owned()));
    }
    Ok(os_seed())
}

/// What a gated creation did: a wallet, or nothing at all.
#[derive(Clone)]
pub enum GatedCreate {
    Created(WalletDir),
    /// The phrase was not confirmed: nothing is to be written.
    Refused,
}

/// A wallet around a seed whose phrase was shown, where it was confirmed.
pub fn gated(
    dir: &str,
    seed_path: &str,
    seed_exists: bool,
    seed: Seed,
    accepted: bool,
) -> (r: Result<GatedCreate, StoreError>)
    ensures
        match r {
            Ok(GatedCreate::Refused) => !accepted,
            Ok(GatedCreate::Created(w)) => accepted && !seed_exists && w.dir@ == dir@ && w.seed
                == seed && w.allocated@ == seq![0u64],
            Err(e) => accepted && seed_exists && (e matches StoreError::SeedExists(p) && p@
                == seed_path@),
        },
{
    if !accepted {
        return Ok(GatedCreate::Refused);
    }
    match WalletDir::create(dir, seed_path, seed_exists, seed) {
        Ok(w) => Ok(GatedCreate::Created(w)),
        Err(e) => Err(e),
    }
}

/// The payout key as a node's configuration takes it: the four lanes of the
/// key, little-endian, in 64 hexadecimal characters.
pub fn miner_rkm_hex(rkm: &[u64; 4]) -> (r: String)
    ensures
        r@ == hex_text(lane_bytes(rkm@)),
{
    let b = digest_bytes(rkm);
    hex_of(&b)
}

/// What was done to the secret file on a platform with owner-only modes, and on
/// one without.
pub open spec fn protection_text(modes: bool) -> Seq<char> {
    if modes {
        "0600 — owner-only"@
    } else {
        "inherited NTFS ACL — this build sets NO explicit permission (see below)"@
    }
}

/// What was done to the secret file, in a phrase. `modes` says whether the
/// platform has owner-only modes.
pub fn secret_file_protection(modes: bool) -> (r: &'static str)
    ensures
        r@ == protection_text(modes),
{
    if modes {
        "0600 — owner-only"
    } else {
        "inherited NTFS ACL — this build sets NO explicit permission (see below)"
    }
}

/// What has to be said at length where a platform has no owner-only modes.
pub const PROTECTION_GAP: &'static str = "⚠️  Windows has no chmod, and this build does not set a DACL on the seed file.\n    Its protection is whatever it inherits from the folder you chose, and this\n    message CANNOT TELL YOU WHAT THAT IS. Under your own profile\n    (%USERPROFILE%\\.qumbra-wallet) it is usually you + SYSTEM + Administrators —\n    already NOT owner-only, and NOT what the unix builds get. A folder outside\n    your profile commonly inherits far more: a freshly-installed Windows 11 was\n    MEASURED granting `Authenticated Users: Modify` on a seed file — every\n    account that can log in could read AND alter it (lab #637).\n    CHECK yours first — read-only, one command:\n      icacls \"<the --dir you passed>\"\n    Every name it lists can reach the seed. `(M)` means Modify: that account\n    can overwrite your seed, not only read it.\n    Then, to make it owner-only, run this once in the same shell — on THAT\n    SAME directory, not on a path copied from this message:\n      icacls \"<the --dir you passed>\" /inheritance:r /grant:r \"%USERNAME%:(OI)(CI)F\"\n    Anyone who can read the seed file owns every coin this wallet holds.";

/// The gap that has to be told; none where the platform has owner-only modes.
pub fn secret_file_protection_note(modes: bool) -> (r: Option<&'static str>)
    ensures
        modes ==> r is None,
        !modes ==> r == Some(PROTECTION_GAP),
{
    if modes {
        None
    } else {
        Some(PROTECTION_GAP)
    }
}

/// A seed file is of the plain length and no two seeds have one.
pub proof fn law_seed_files_tell_seeds_apart(a: Seed, b: Seed)
    ensures
        seed_bytes_of(a).len() == 1 + ENTROPY_LEN,
        seed_bytes_of(a) == seed_bytes_of(b) ==> a.version == b.version && a.entropy@ == b.entropy@,
{
    let x = seed_bytes_of(a);
    let y = seed_bytes_of(b);
    if x == y {
        assert(x[0] == y[0]);
        assert(x.skip(1) =~= a.entropy@);
        assert(y.skip(1) =~= b.entropy@);
    }
}

proof fn lemma_greatest(v: Seq<u64>)
    ensures
        match greatest_index(v) {
            Some(m) => {
                &&& forall|i: int| 0 <= i < v.len() ==> #[trigger] v[i] <= m
                &&& exists|i: int| 0 <= i < v.len() && #[trigger] v[i] == m
            },
            None => v.len() == 0,
        },
    decreases v.len(),
{
    if v.len() > 0 {
        let front = v.drop_last();
        lemma_greatest(front);
        if greatest_index(v) == greatest_index(front) {
            let i = choose|i: int|
                0 <= i < front.len() && #[trigger] front[i] == greatest_index(front)->0;
            assert(v[i] == front[i]);
        } else {
            assert(v[v.len() - 1] == greatest_index(v)->0);
        }
        assert forall|i: int| 0 <= i < v.len() implies #[trigger] v[i] <= greatest_index(v)->0 by {
            if i < v.len() - 1 {
                assert(v[i] == v.drop_last()[i]);
            }
        }
    }
}

/// An index that is allocated was not allocated before, and the cursor goes on
/// ascending.
pub proof fn law_an_index_is_allocated_once(v: Seq<u64>, i: int)
    requires
        0 <= i < v.len(),
    ensures
        v[i] < next_index(v),
{
    lemma_greatest(v);
}

/// Indices in ascending order, none of them twice.
pub open spec fn ascends(v: Seq<u64>) -> bool {
    forall|i: int, j: int| 0 <= i < j < v.len() ==> #[trigger] v[i] < #[trigger] v[j]
}

proof fn lemma_order_of_ascending(v: Seq<u64>)
    requires
        ascends(v),
    ensures
        order(v) == Seq::new(v.len(), |i: int| i),
    decreases v.len(),
{
    if v.len() > 0 {
        let front = order(v.drop_last());
        lemma_order_of_ascending(v.drop_last());
        let n = front.len() as int;
        crate::order::lemma_slot(front, v, v.last(), 0);
        let at = crate::order::slot(front, v, v.last(), 0);
        if at < n {
            assert(front[at] == at);
            assert(v[at] < v[v.len() - 1]);
        }
        assert(order(v) =~= Seq::new(v.len(), |i: int| i));
    } else {
        assert(order(v) =~= Seq::new(v.len(), |i: int| i));
    }
}

proof fn lemma_indices_lines(v: Seq<u64>, i: int)
    requires
        0 <= i <= v.len(),
    ensures
        lines_of(indices_text(v, i)) == Seq::new((v.len() - i) as nat, |k: int| dec(v[i + k] as nat)),
    decreases v.len() - i,
{
    reveal_strlit("\n");
    if i < v.len() {
        let l = dec(v[i] as nat);
        let rest = indices_text(v, i + 1);
        lemma_indices_lines(v, i + 1);
        lemma_dec_digits(v[i] as nat);
        lemma_dec_lacks(v[i] as nat, '\n');
        lemma_dec_lacks(v[i] as nat, '\r');
        assert(l + "\n"@ + rest =~= l.push('\n') + rest);
        lemma_lines_of_first(l, rest);
    }
    assert(lines_of(indices_text(v, i)) =~= Seq::new(
        (v.len() - i) as nat,
        |k: int| dec(v[i + k] as nat),
    ));
}

proof fn lemma_indices_back(all: Seq<Seq<char>>, v: Seq<u64>, n: int)
    requires
        1 <= n <= v.len() + 1,
        all.len() == v.len() + 1,
        ascends(v),
        forall|k: int| 1 <= k < all.len() ==> #[trigger] all[k] == dec(v[k - 1] as nat),
    ensures
        indices_to(all, n) == Ok::<Seq<u64>, Seq<char>>(v.take(n - 1)),
    decreases n,
{
    if n > 1 {
        lemma_indices_back(all, v, n - 1);
        let x = v[n - 2];
        let before = v.take(n - 2);
        assert(all[n - 1] == dec(x as nat));
        lemma_dec_digits(x as nat);
        lemma_number_text_of_dec(x as nat, u64::MAX as nat);
        if before.contains(x) {
            let k = choose|k: int| 0 <= k < before.len() && before[k] == x;
            assert(v[k] < v[n - 2]);
        }
        assert(v.take(n - 1) =~= before.push(x));
    } else {
        assert(v.take(0) =~= Seq::empty());
    }
}

proof fn lemma_indices_distinct(all: Seq<Seq<char>>, n: int)
    ensures
        indices_to(all, n) matches Ok(v) ==> v.no_duplicates(),
    decreases n,
{
    if n > 1 {
        lemma_indices_distinct(all, n - 1);
    }
}

/// Whatever order a file lists its indices in, and however many lines are empty,
/// what is read is the indices of the lines that are not, ascending, and each of
/// them once.
pub proof fn law_read_indices_ascend(text: Seq<char>)
    ensures
        indices_of(text) matches Ok(v) ==> v.len() > 0 && ascends(v),
        indices_of(text) matches Ok(v) ==> forall|x: u64| #[trigger]
            v.contains(x) <==> indices_to(lines_of(text), lines_of(text).len() as int)->Ok_0.contains(
                x,
            ) || x == 0 && indices_to(lines_of(text), lines_of(text).len() as int)->Ok_0.len() == 0,
{
    let all = lines_of(text);
    if let Ok(v) = indices_of(text) {
        let listed = indices_to(all, all.len() as int)->Ok_0;
        lemma_indices_distinct(all, all.len() as int);
        if listed.len() > 0 {
            let o = order(listed);
            crate::order::lemma_order(listed);
            assert forall|i: int, j: int| 0 <= i < j < v.len() implies #[trigger] v[i] < #[trigger] v[j] by {
                assert(listed[o[i]] <= listed[o[j]]);
                assert(o[i] != o[j]);
                assert(listed[o[i]] != listed[o[j]]);
            }
            assert forall|x: u64| #[trigger] v.contains(x) <==> listed.contains(x) by {
                if v.contains(x) {
                    let i = choose|i: int| 0 <= i < v.len() && v[i] == x;
                    assert(listed[o[i]] == x);
                }
                if listed.contains(x) {
                    let k = choose|k: int| 0 <= k < listed.len() && listed[k] == x;
                    let i = crate::order::lemma_order_covers(listed, k);
                    assert(v[i] == x);
                }
            }
        } else {
            assert(v[0] == 0u64);
        }
    }
}

/// A saved cursor reads back as its indices.
pub proof fn law_addresses_read_back(v: Seq<u64>)
    requires
        v.len() > 0,
        ascends(v),
    ensures
        indices_of(address_file(v)) == Ok::<Seq<u64>, Seq<char>>(v),
{
    reveal_strlit("\n");
    reveal_strlit("qumbra-wallet addresses v1");
    let rest = indices_text(v, 0);
    lemma_indices_lines(v, 0);
    assert(address_file(v) =~= ADDR_HEADER@.push('\n') + rest);
    lemma_lines_of_first(ADDR_HEADER@, rest);
    let all = lines_of(address_file(v));
    assert forall|k: int| 1 <= k < all.len() implies #[trigger] all[k] == dec(v[k - 1] as nat) by {
        assert(all[k] == lines_of(rest)[k - 1]);
    }
    lemma_indices_back(all, v, all.len() as int);
    assert(v.take(v.len() as int) =~= v);
    lemma_order_of_ascending(v);
    assert(in_order(v, v) =~= v);
}

/// A seed file that is not of the plain length is refused for what it is: one that
/// is wrapped elsewhere and one of a newer tool are named, and anything else is a
/// bad file.
pub proof fn law_a_refused_seed_file_is_named(e: StoreError, b: Seq<u8>)
    requires
        is_not_plain(e, b),
    ensures
        e is SeedWrappedElsewhere <==> verdict_of(b) is Wrapped,
        e is SeedFromNewerTool <==> verdict_of(b) is Unknown,
        e is BadSeedFile <==> verdict_of(b) is NotAnEnvelope || verdict_of(b) is TruncatedHeader,
        e matches StoreError::SeedFromNewerTool { format, protection } ==> format == b[8]
            && protection == b[9],
{
    crate::envelope::law_an_envelope_names_itself(b);
}

} // verus!
