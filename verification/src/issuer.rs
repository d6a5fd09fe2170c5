//! An asset issuer's side: the secrets it holds, the lists it publishes, the
//! leaf it writes into the registry, and what a mint or a redeem is made of.
//!
//! Key material is never replaced silently. A rotation's new secret is kept as
//! pending until the chain shows its key.
use crate::annulet_send::{largest, smallest_covering, AssetIndex, SendRefusal, SpendError};
#[allow(unused_imports)]
use crate::annulet_send::{greatest, least, lemma_least, values};
use crate::bytes32::lanes_eq;
use crate::random::rand_lanes;
use crate::text::{
    bytes32_of, chars_of, contains_text, debug_of, hex_of, lines, parse_number, push_dec, string_of,
    text_is, trim, words,
};
#[allow(unused_imports)]
use crate::text::{
    bytes32_text, debug_text, dec, hex_text, holds_text, lacks, lemma_bytes32_of_hex,
    lemma_dec_lacks, lemma_hex_lacks, lemma_lines_of_first, lemma_not_blank,
    lemma_number_text_of_dec, lemma_solid_dec, lemma_solid_hex, lemma_trim_solid, lemma_words_first,
    lemma_words_only, lines_of, number_text, solid, texts, trim_of, words_of,
};
use crate::wire::{digest_bytes, digest_lanes};
#[allow(unused_imports)]
use crate::wire::{lane_bytes, lanes_of, lemma_lanes_of_bytes};
use rand::rngs::StdRng;
use vstd::prelude::*;

verus! {

/// The file inside the wallet's directory.
pub const ISSUER_FILE: &'static str = "issuer.v1";

pub const ISSUER_HEADER: &'static str = "qumbra-wallet issuer v1";

pub const KEY_LIST_HEADER: &'static str = "qumbra freeze-list v1";

pub const ALLOW_LIST_HEADER: &'static str = "qumbra allow-list v1";

/// 32 bytes in lowercase hexadecimal.
pub fn hex32(b: &[u8; 32]) -> (r: String)
    ensures
        r@ == hex_text(b@),
{
    hex_of(b)
}

/// The 32 bytes that a text writes in base 16, white space around it left out.
pub open spec fn unhex32_text(s: Seq<char>) -> Option<Seq<u8>> {
    bytes32_text(trim_of(s))
}

/// Reads 64 characters in base 16 as 32 bytes.
pub fn unhex32(s: &[char]) -> (r: Option<[u8; 32]>)
    ensures
        match r {
            Some(b) => unhex32_text(s@) == Some(b@),
            None => unhex32_text(s@) is None,
        },
{
    let t = trim(s);
    bytes32_of(&t)
}

/// A root or a key in hexadecimal.
pub open spec fn lanes_text(l: Seq<u64>) -> Seq<char> {
    hex_text(lane_bytes(l))
}

/// A root or a key in hexadecimal.
pub fn lanes_hex(l: &[u64; 4]) -> (r: String)
    ensures
        r@ == lanes_text(l@),
{
    let b = digest_bytes(l);
    hex_of(&b)
}

/// Secrets by asset, in ascending order of the asset, one for each.
#[derive(Clone, Debug, PartialEq, Eq)]
pub struct KeyTable {
    pub entries: Vec<(u16, [u64; 4])>,
}

/// What the first `n` entries say of each asset.
pub open spec fn table_to(entries: Seq<(u16, [u64; 4])>, n: int) -> Map<u16, Seq<u64>>
    decreases n,
{
    if n <= 0 {
        Map::empty()
    } else {
        table_to(entries, n - 1).insert(entries[n - 1].0, entries[n - 1].1@)
    }
}

pub open spec fn by_asset(entries: Seq<(u16, [u64; 4])>) -> bool {
    forall|i: int, j: int|
        0 <= i < j < entries.len() ==> (#[trigger] entries[i]).0 < (#[trigger] entries[j]).0
}

proof fn lemma_table(entries: Seq<(u16, [u64; 4])>, n: int)
    requires
        0 <= n <= entries.len(),
        by_asset(entries),
    ensures
        forall|i: int|
            0 <= i < n ==> table_to(entries, n).dom().contains((#[trigger] entries[i]).0)
                && table_to(entries, n)[entries[i].0] == entries[i].1@,
        forall|a: u16|
            #[trigger] table_to(entries, n).dom().contains(a) ==> exists|i: int|
                0 <= i < n && (#[trigger] entries[i]).0 == a,
    decreases n,
{
    if n > 0 {
        lemma_table(entries, n - 1);
        assert forall|a: u16| #[trigger] table_to(entries, n).dom().contains(a) implies exists|i: int|
            0 <= i < n && (#[trigger] entries[i]).0 == a by {
            if a == entries[n - 1].0 {
                assert(entries[n - 1].0 == a);
            } else {
                assert(table_to(entries, n - 1).dom().contains(a));
            }
        }
    }
}

proof fn lemma_replaced(before: Seq<(u16, [u64; 4])>, i: int, key: [u64; 4])
    requires
        by_asset(before),
        0 <= i < before.len(),
    ensures
        ({
            let now = before.update(i, (before[i].0, key));
            by_asset(now) && table_to(now, now.len() as int) == table_to(
                before,
                before.len() as int,
            ).insert(before[i].0, key@)
        }),
{
    let now = before.update(i, (before[i].0, key));
    let t = table_to(now, now.len() as int);
    let want = table_to(before, before.len() as int).insert(before[i].0, key@);
    assert forall|a: int, b: int| 0 <= a < b < now.len() implies (#[trigger] now[a]).0 < (
    #[trigger] now[b]).0 by {
        assert(now[a].0 == before[a].0 && now[b].0 == before[b].0);
    }
    lemma_table(now, now.len() as int);
    lemma_table(before, before.len() as int);
    assert forall|a: u16| #[trigger] t.dom().contains(a) <==> want.dom().contains(a) by {
        if t.dom().contains(a) {
            let k = choose|k: int| 0 <= k < now.len() && (#[trigger] now[k]).0 == a;
            assert(before[k].0 == a);
        }
        if want.dom().contains(a) && a != before[i].0 {
            let k = choose|k: int| 0 <= k < before.len() && (#[trigger] before[k]).0 == a;
            assert(now[k].0 == a);
        }
        if a == before[i].0 {
            assert(now[i].0 == a);
        }
    }
    assert forall|a: u16| t.dom().contains(a) implies #[trigger] t[a] == want[a] by {
        let k = choose|k: int| 0 <= k < now.len() && (#[trigger] now[k]).0 == a;
        assert(before[k].0 == a);
        if k != i {
            assert(now[k] == before[k]);
            assert(before[k].0 != before[i].0) by {
                if k < i {
                    assert(before[k].0 < before[i].0);
                } else {
                    assert(before[i].0 < before[k].0);
                }
            }
        } else {
            assert(now[i].1@ == key@);
        }
    }
    assert(t =~= want);
}

proof fn lemma_added(before: Seq<(u16, [u64; 4])>, i: int, asset: u16, key: [u64; 4])
    requires
        by_asset(before),
        0 <= i <= before.len(),
        forall|k: int| 0 <= k < i ==> (#[trigger] before[k]).0 < asset,
        forall|k: int| i <= k < before.len() ==> (#[trigger] before[k]).0 > asset,
    ensures
        ({
            let now = before.insert(i, (asset, key));
            by_asset(now) && table_to(now, now.len() as int) == table_to(
                before,
                before.len() as int,
            ).insert(asset, key@)
        }),
{
    let now = before.insert(i, (asset, key));
    let t = table_to(now, now.len() as int);
    let want = table_to(before, before.len() as int).insert(asset, key@);
    assert(now[i] == (asset, key));
    assert forall|k: int| 0 <= k < i implies #[trigger] now[k] == before[k] by {}
    assert forall|k: int| i < k < now.len() implies #[trigger] now[k] == before[k - 1] by {}
    assert forall|a: int, b: int| 0 <= a < b < now.len() implies (#[trigger] now[a]).0 < (
    #[trigger] now[b]).0 by {
        if b < i {
            assert(before[a].0 < before[b].0);
        } else if a > i {
            assert(before[a - 1].0 < before[b - 1].0);
        } else if a < i && b > i {
            assert(before[a].0 < asset && asset < before[b - 1].0);
        } else if b == i {
            assert(before[a].0 < asset);
        } else {
            assert(before[b - 1].0 > asset);
        }
    }
    lemma_table(now, now.len() as int);
    lemma_table(before, before.len() as int);
    assert forall|a: u16| #[trigger] t.dom().contains(a) <==> want.dom().contains(a) by {
        if t.dom().contains(a) {
            let k = choose|k: int| 0 <= k < now.len() && (#[trigger] now[k]).0 == a;
            if k < i {
                assert(before[k].0 == a);
            } else if k > i {
                assert(before[k - 1].0 == a);
            }
        }
        if want.dom().contains(a) && a != asset {
            let k = choose|k: int| 0 <= k < before.len() && (#[trigger] before[k]).0 == a;
            let x = if k < i {
                k
            } else {
                k + 1
            };
            assert(now[x].0 == a);
        }
        if a == asset {
            assert(now[i].0 == a);
        }
    }
    assert forall|a: u16| t.dom().contains(a) implies #[trigger] t[a] == want[a] by {
        let k = choose|k: int| 0 <= k < now.len() && (#[trigger] now[k]).0 == a;
        if k < i {
            assert(before[k].0 == a);
        } else if k > i {
            assert(before[k - 1].0 == a);
        }
    }
    assert(t =~= want);
}

impl KeyTable {
    pub open spec fn wf(&self) -> bool {
        by_asset(self.entries@)
    }

    /// The secret of each asset.
    pub open spec fn view(&self) -> Map<u16, Seq<u64>> {
        table_to(self.entries@, self.entries@.len() as int)
    }

    pub fn new() -> (r: KeyTable)
        ensures
            r.wf(),
            r@ == Map::<u16, Seq<u64>>::empty(),
    {
        KeyTable { entries: Vec::new() }
    }

    /// The place of the first entry that is not before an asset.
    fn place(&self, asset: u16) -> (r: usize)
        requires
            self.wf(),
        ensures
            r <= self.entries@.len(),
            forall|i: int| 0 <= i < r ==> (#[trigger] self.entries@[i]).0 < asset,
            forall|i: int| r <= i < self.entries@.len() ==> (#[trigger] self.entries@[i]).0 >= asset,
    {
        let mut i: usize = 0;
        while i < self.entries.len() && self.entries[i].0 < asset
            invariant
                i <= self.entries@.len(),
                forall|k: int| 0 <= k < i ==> (#[trigger] self.entries@[k]).0 < asset,
            decreases self.entries@.len() - i,
        {
            i += 1;
        }
        i
    }

    /// The secret of an asset.
    pub fn get(&self, asset: u16) -> (r: Option<[u64; 4]>)
        requires
            self.wf(),
        ensures
            match r {
                Some(k) => self@.dom().contains(asset) && self@[asset] == k@,
                None => !self@.dom().contains(asset),
            },
    {
        proof {
            lemma_table(self.entries@, self.entries@.len() as int);
        }
        let i: usize = self.place(asset);
        if i < self.entries.len() && self.entries[i].0 == asset {
            Some(self.entries[i].1)
        } else {
            None
        }
    }

    /// Sets the secret of an asset.
    pub fn insert(&mut self, asset: u16, key: [u64; 4])
        requires
            old(self).wf(),
        ensures
            final(self).wf(),
            final(self)@ == old(self)@.insert(asset, key@),
    {
        let ghost before = self.entries@;
        let i: usize = self.place(asset);
        if i < self.entries.len() && self.entries[i].0 == asset {
            self.entries.set(i, (asset, key));
            proof {
                lemma_replaced(before, i as int, key);
            }
        } else {
            proof {
                if i < before.len() {
                    assert(before[i as int].0 > asset);
                    assert forall|k: int| i <= k < before.len() implies (#[trigger] before[k]).0
                        > asset by {
                        if k > i {
                            assert(before[i as int].0 < before[k].0);
                        }
                    }
                }
                lemma_added(before, i as int, asset, key);
            }
            self.entries.insert(i, (asset, key));
        }
    }

    /// Takes the secret of an asset out.
    pub fn remove(&mut self, asset: u16)
        requires
            old(self).wf(),
        ensures
            final(self).wf(),
            final(self)@ == old(self)@.remove(asset),
    {
        let ghost before = self.entries@;
        let i: usize = self.place(asset);
        proof {
            lemma_table(before, before.len() as int);
        }
        if i < self.entries.len() && self.entries[i].0 == asset {
            self.entries.remove(i);
            proof {
                let now = self.entries@;
                assert(now =~= before.remove(i as int));
                assert forall|a: int, b: int| 0 <= a < b < now.len() implies (#[trigger] now[a]).0
                    < (#[trigger] now[b]).0 by {
                    let x = if a >= i {
                        a + 1
                    } else {
                        a
                    };
                    let y = if b >= i {
                        b + 1
                    } else {
                        b
                    };
                    assert(now[a] == before[x] && now[b] == before[y]);
                }
                lemma_table(now, now.len() as int);
                assert forall|a: u16| #[trigger] self@.dom().contains(a) == old(self)@.remove(
                    asset,
                ).dom().contains(a) by {
                    if self@.dom().contains(a) {
                        let k = choose|k: int| 0 <= k < now.len() && (#[trigger] now[k]).0 == a;
                        let x = if k >= i {
                            k + 1
                        } else {
                            k
                        };
                        assert(now[k] == before[x]);
                        assert(before[i as int].0 == asset);
                    }
                    if old(self)@.dom().contains(a) && a != asset {
                        let k = choose|k: int|
                            0 <= k < before.len() && (#[trigger] before[k]).0 == a;
                        let x = if k > i {
                            k - 1
                        } else {
                            k
                        };
                        assert(now[x] == before[k]);
                    }
                }
                assert forall|a: u16| self@.dom().contains(a) implies #[trigger] self@[a]
                    == old(self)@.remove(asset)[a] by {
                    let k = choose|k: int| 0 <= k < now.len() && (#[trigger] now[k]).0 == a;
                    let x = if k >= i {
                        k + 1
                    } else {
                        k
                    };
                    assert(now[k] == before[x]);
                }
                assert(self@ =~= old(self)@.remove(asset));
            }
        } else {
            proof {
                if old(self)@.dom().contains(asset) {
                    let k = choose|k: int|
                        0 <= k < before.len() && (#[trigger] before[k]).0 == asset;
                    if k > i {
                        assert(before[i as int].0 < before[k].0);
                    }
                }
                assert(self@ =~= old(self)@.remove(asset));
            }
        }
    }
}

/// The issuer secrets that this wallet holds. `next` holds a rotation's new
/// secret until the chain shows it: the secret in force is whichever of the two
/// has the key that the registry serves.
#[derive(Clone, Debug, PartialEq, Eq)]
pub struct IssuerFile {
    pub keys: KeyTable,
    pub next: KeyTable,
}

/// An [`IssuerFile`] as a value.
#[verifier::ext_equal]
pub struct SecretsModel {
    pub keys: Map<u16, Seq<u64>>,
    pub next: Map<u16, Seq<u64>>,
}

/// What one line of the file adds, or what is wrong with it.
pub open spec fn with_line(m: SecretsModel, line: Seq<char>) -> Result<SecretsModel, Seq<char>> {
    let w = words_of(line);
    let bad = ISSUER_FILE@ + ": unparsable line "@ + debug_text(line);
    if w.len() != 4 || w[0] != "asset"@ || (w[2] != "isk"@ && w[2] != "next"@) {
        Err(bad)
    } else {
        match (number_text(w[1], u16::MAX as nat), unhex32_text(w[3])) {
            (Some(a), Some(b)) => if w[2] == "isk"@ {
                Ok(SecretsModel { keys: m.keys.insert(a as u16, lanes_of(b)), next: m.next })
            } else {
                Ok(SecretsModel { keys: m.keys, next: m.next.insert(a as u16, lanes_of(b)) })
            },
            _ => Err(bad),
        }
    }
}

/// The secrets of the lines from place 1 to `n`; blank lines are left out.
pub open spec fn secrets_to(all: Seq<Seq<char>>, n: int) -> Result<SecretsModel, Seq<char>>
    decreases n,
{
    if n <= 1 {
        Ok(SecretsModel { keys: Map::empty(), next: Map::empty() })
    } else {
        match secrets_to(all, n - 1) {
            Err(e) => Err(e),
            Ok(m) => if trim_of(all[n - 1]).len() == 0 {
                Ok(m)
            } else {
                with_line(m, all[n - 1])
            },
        }
    }
}

/// What the file's text means.
pub open spec fn secrets_of(text: Seq<char>) -> Result<SecretsModel, Seq<char>> {
    let all = lines_of(text);
    if all.len() == 0 || all[0] != ISSUER_HEADER@ {
        Err(
            ISSUER_FILE@ + ": unknown header (this binary reads `"@ + ISSUER_HEADER@ + "` only)"@,
        )
    } else {
        secrets_to(all, all.len() as int)
    }
}

proof fn lemma_secrets_err(all: Seq<Seq<char>>, n: int, m: int)
    requires
        n <= m,
        secrets_to(all, n) is Err,
    ensures
        secrets_to(all, m) == secrets_to(all, n),
    decreases m - n,
{
    if n < m {
        lemma_secrets_err(all, n, m - 1);
    }
}

/// The line of a secret.
pub open spec fn secret_line(asset: u16, kind: Seq<char>, key: Seq<u64>) -> Seq<char> {
    "asset "@ + dec(asset as nat) + " "@ + kind + " "@ + lanes_text(key)
}

/// The lines of the secrets from place `i` on.
pub open spec fn table_text(entries: Seq<(u16, [u64; 4])>, kind: Seq<char>, i: int) -> Seq<char>
    decreases entries.len() - i,
{
    if i < 0 || i >= entries.len() {
        Seq::empty()
    } else {
        secret_line(entries[i].0, kind, entries[i].1@) + "\n"@ + table_text(entries, kind, i + 1)
    }
}

fn push_table(s: &mut String, t: &KeyTable, kind: &str)
    ensures
        final(s)@ == old(s)@ + table_text(t.entries@, kind@, 0),
{
    let ghost goal = s@ + table_text(t.entries@, kind@, 0);
    let mut i: usize = 0;
    while i < t.entries.len()
        invariant
            i <= t.entries@.len(),
            s@ + table_text(t.entries@, kind@, i as int) == goal,
        decreases t.entries@.len() - i,
    {
        let ghost before = s@;
        s.append("asset ");
        push_dec(s, t.entries[i].0 as u64);
        s.append(" ");
        s.append(kind);
        s.append(" ");
        let hex = lanes_hex(&t.entries[i].1);
        s.append(hex.as_str());
        s.append("\n");
        i += 1;
        proof {
            let line = secret_line(t.entries@[i - 1].0, kind@, t.entries@[i - 1].1@) + "\n"@;
            assert(s@ =~= before + line);
            assert(s@ + table_text(t.entries@, kind@, i as int) =~= before + (line + table_text(
                t.entries@,
                kind@,
                i as int,
            )));
        }
    }
    assert(s@ =~= goal);
}

/// `ISSUER_FILE`, the words, and an asset between them.
pub open spec fn about_asset(head: Seq<char>, asset: u16, tail: Seq<char>) -> Seq<char> {
    ISSUER_FILE@ + head + dec(asset as nat) + tail
}

fn said(head: &str, asset: u16, tail: &str) -> (r: String)
    ensures
        r@ == about_asset(head@, asset, tail@),
{
    let mut s: String = ISSUER_FILE.to_owned();
    s.append(head);
    push_dec(&mut s, asset as u64);
    s.append(tail);
    s
}

impl IssuerFile {
    pub open spec fn wf(&self) -> bool {
        self.keys.wf() && self.next.wf()
    }

    pub open spec fn view(&self) -> SecretsModel {
        SecretsModel { keys: self.keys@, next: self.next@ }
    }

    /// A wallet that holds no secret yet.
    pub fn empty() -> (r: IssuerFile)
        ensures
            r.wf(),
            r@ == (SecretsModel { keys: Map::empty(), next: Map::empty() }),
    {
        IssuerFile { keys: KeyTable::new(), next: KeyTable::new() }
    }

    fn read_line(&mut self, line: &[char]) -> (r: Result<(), String>)
        requires
            old(self).wf(),
        ensures
            final(self).wf(),
            match (r, with_line(old(self)@, line@)) {
                (Ok(_), Ok(m)) => final(self)@ == m,
                (Err(e), Err(m)) => e@ == m,
                _ => false,
            },
    {
        let w = words(line);
        let ghost ws = texts(w@);
        if w.len() == 4 {
            assert(ws[0] == w@[0]@ && ws[1] == w@[1]@ && ws[2] == w@[2]@ && ws[3] == w@[3]@);
            let isk = text_is(&w[2], "isk");
            if text_is(&w[0], "asset") && (isk || text_is(&w[2], "next")) {
                if let Some(a) = parse_number(&w[1], 65535) {
                    if let Some(b) = unhex32(&w[3]) {
                        let key = digest_lanes(&b);
                        if isk {
                            self.keys.insert(a as u16, key);
                        } else {
                            self.next.insert(a as u16, key);
                        }
                        return Ok(());
                    }
                }
            }
        }
        let mut e: String = ISSUER_FILE.to_owned();
        e.append(": unparsable line ");
        let shown = string_of(line);
        let q = debug_of(shown.as_str());
        e.append(q.as_str());
        Err(e)
    }

    /// Reads the file's text; an absent file is a wallet that is no issuer.
    pub fn load(text: Option<&str>) -> (r: Result<Option<IssuerFile>, String>)
        ensures
            match text {
                None => r matches Ok(None),
                Some(t) => match (r, secrets_of(t@)) {
                    (Ok(Some(f)), Ok(m)) => f.wf() && f@ == m,
                    (Err(e), Err(m)) => e@ == m,
                    _ => false,
                },
            },
    {
        let t: &str = match text {
            None => {
                return Ok(None);
            },
            Some(t) => t,
        };
        let chars = chars_of(t);
        let all = lines(&chars);
        let ghost ls = texts(all@);
        let known = if all.len() > 0 {
            assert(ls[0] == all@[0]@);
            text_is(&all[0], ISSUER_HEADER)
        } else {
            false
        };
        if !known {
            let mut e: String = ISSUER_FILE.to_owned();
            e.append(": unknown header (this binary reads `");
            e.append(ISSUER_HEADER);
            e.append("` only)");
            return Err(e);
        }
        let mut f = IssuerFile::empty();
        let mut i: usize = 1;
        while i < all.len()
            invariant
                1 <= i <= all@.len(),
                ls == texts(all@),
                ls == lines_of(t@),
                ls[0] == ISSUER_HEADER@,
                text == Some(t),
                f.wf(),
                secrets_to(ls, i as int) == Ok::<SecretsModel, Seq<char>>(f@),
            decreases all@.len() - i,
        {
            assert(ls[i as int] == all@[i as int]@);
            let body = trim(&all[i]);
            if body.len() > 0 {
                if let Err(e) = f.read_line(&all[i]) {
                    proof {
                        lemma_secrets_err(ls, i + 1, ls.len() as int);
                    }
                    return Err(e);
                }
            }
            i += 1;
        }
        Ok(Some(f))
    }

    /// The file's text.
    pub open spec fn text(&self) -> Seq<char> {
        ISSUER_HEADER@ + "\n"@ + table_text(self.keys.entries@, "isk"@, 0) + table_text(
            self.next.entries@,
            "next"@,
            0,
        )
    }

    /// The text that is saved.
    pub fn encode(&self) -> (r: String)
        ensures
            r@ == self.text(),
    {
        let mut s: String = ISSUER_HEADER.to_owned();
        s.append("\n");
        push_table(&mut s, &self.keys, "isk");
        push_table(&mut s, &self.next, "next");
        assert(s@ =~= self.text());
        s
    }

    /// Records a rotation's new secret. Refused where there is nothing to
    /// rotate, and while another rotation is pending.
    pub fn set_next(&mut self, asset: u16, isk: [u64; 4]) -> (r: Result<(), String>)
        requires
            old(self).wf(),
        ensures
            final(self).wf(),
            match r {
                Ok(_) => old(self)@.keys.dom().contains(asset) && (
                !old(self)@.next.dom().contains(asset) || old(self)@.next[asset] == isk@)
                    && final(self)@ == (SecretsModel {
                    keys: old(self)@.keys,
                    next: old(self)@.next.insert(asset, isk@),
                }),
                Err(e) => *final(self) == *old(self) && if !old(self)@.keys.dom().contains(asset) {
                    e@ == about_asset(
                        " holds no issuer secret for asset "@,
                        asset,
                        " to rotate"@,
                    )
                } else {
                    old(self)@.next.dom().contains(asset) && old(self)@.next[asset] != isk@ && e@
                        == about_asset(
                        " already holds a pending rotation for asset "@,
                        asset,
                        "; it is promoted once the chain shows it (run an update or a mint), and refusing to overwrite it"@,
                    )
                },
            },
    {
        if self.keys.get(asset).is_none() {
            return Err(said(" holds no issuer secret for asset ", asset, " to rotate"));
        }
        if let Some(pending) = self.next.get(asset) {
            if !lanes_eq(&pending, &isk) {
                return Err(
                    said(
                        " already holds a pending rotation for asset ",
                        asset,
                        "; it is promoted once the chain shows it (run an update or a mint), and refusing to overwrite it",
                    ),
                );
            }
        }
        self.next.insert(asset, isk);
        Ok(())
    }

    /// Records the secret of an asset. An existing one is never overwritten.
    pub fn add(&mut self, asset: u16, isk: [u64; 4]) -> (r: Result<(), String>)
        requires
            old(self).wf(),
        ensures
            final(self).wf(),
            match r {
                Ok(_) => !old(self)@.keys.dom().contains(asset) && final(self)@ == (SecretsModel {
                    keys: old(self)@.keys.insert(asset, isk@),
                    next: old(self)@.next,
                }),
                Err(e) => *final(self) == *old(self) && old(self)@.keys.dom().contains(asset) && e@
                    == about_asset(
                    " already holds an issuer secret for asset "@,
                    asset,
                    "; refusing to overwrite it"@,
                ),
            },
    {
        if self.keys.get(asset).is_some() {
            return Err(
                said(
                    " already holds an issuer secret for asset ",
                    asset,
                    "; refusing to overwrite it",
                ),
            );
        }
        self.keys.insert(asset, isk);
        Ok(())
    }

    /// The secret of an asset.
    pub fn isk(&self, asset: u16) -> (r: Option<[u64; 4]>)
        requires
            self.wf(),
        ensures
            match r {
                Some(k) => self@.keys.dom().contains(asset) && self@.keys[asset] == k@,
                None => !self@.keys.dom().contains(asset),
            },
    {
        self.keys.get(asset)
    }

    /// The secret in force: the current one where its key is the one that the
    /// registry serves, otherwise the pending one where its key is, which is
    /// then promoted. `current` and `pending` are the keys of the two secrets.
    pub fn isk_for_key(
        &mut self,
        asset: u16,
        current: Option<[u64; 4]>,
        pending: Option<[u64; 4]>,
        issuer_key: &[u64; 4],
    ) -> (r: Option<[u64; 4]>)
        requires
            old(self).wf(),
            current is Some <==> old(self)@.keys.dom().contains(asset),
            pending is Some <==> old(self)@.next.dom().contains(asset),
        ensures
            final(self).wf(),
            if current is Some && current->0@ == issuer_key@ {
                r is Some && r->0@ == old(self)@.keys[asset] && *final(self) == *old(self)
            } else if pending is Some && pending->0@ == issuer_key@ {
                r is Some && r->0@ == old(self)@.next[asset] && final(self)@ == (SecretsModel {
                    keys: old(self)@.keys.insert(asset, old(self)@.next[asset]),
                    next: old(self)@.next.remove(asset),
                })
            } else {
                r is None && *final(self) == *old(self)
            },
            ({
                let fits = |k: Option<[u64; 4]>| k is Some && k->0@ == issuer_key@;
                (opt_lanes(r), final(self)@) == secret_for(
                    old(self)@,
                    asset,
                    fits(current),
                    fits(pending),
                )
            }),
    {
        if let Some(k) = current {
            if lanes_eq(&k, issuer_key) {
                return self.keys.get(asset);
            }
        }
        if let Some(k) = pending {
            if lanes_eq(&k, issuer_key) {
                let secret = self.next.get(asset);
                if let Some(isk) = secret {
                    self.keys.insert(asset, isk);
                    self.next.remove(asset);
                }
                return secret;
            }
        }
        None
    }
}

/// The lanes of an optional secret.
pub open spec fn opt_lanes(k: Option<[u64; 4]>) -> Option<Seq<u64>> {
    match k {
        Some(l) => Some(l@),
        None => None,
    }
}

/// The secret that the chain's key is of, by whether it is that of the secret in
/// force or of the pending one, and the secrets after it was asked for: a pending
/// one that the chain shows is promoted.
pub open spec fn secret_for(
    m: SecretsModel,
    asset: u16,
    current_fits: bool,
    pending_fits: bool,
) -> (Option<Seq<u64>>, SecretsModel) {
    if current_fits {
        (Some(m.keys[asset]), m)
    } else if pending_fits {
        (
            Some(m.next[asset]),
            SecretsModel {
                keys: m.keys.insert(asset, m.next[asset]),
                next: m.next.remove(asset),
            },
        )
    } else {
        (None, m)
    }
}

/// Only the secret that the chain's key is of is handed out, and it is then the one
/// in force: a pending one that the chain shows takes the place of the other and is
/// pending no more. Where neither is, nothing is handed out and nothing moves; and
/// no other asset's secrets ever do.
pub proof fn law_the_secret_in_force_is_handed_out(
    m: SecretsModel,
    asset: u16,
    current_fits: bool,
    pending_fits: bool,
)
    requires
        current_fits ==> m.keys.dom().contains(asset),
        pending_fits ==> m.next.dom().contains(asset),
    ensures
        ({
            let (secret, after) = secret_for(m, asset, current_fits, pending_fits);
            &&& (secret is Some <==> current_fits || pending_fits)
            &&& (secret matches Some(k) ==> after.keys.dom().contains(asset) && after.keys[asset]
                == k)
            &&& (current_fits ==> secret == Some(m.keys[asset]) && after == m)
            &&& (!current_fits && pending_fits ==> secret == Some(m.next[asset])
                && !after.next.dom().contains(asset))
            &&& (secret is None ==> after == m)
            &&& forall|a: u16|
                a != asset ==> #[trigger] after.keys[a] == m.keys[a] && after.next[a] == m.next[a]
        }),
{
}

/// A secret is never lost by a rotation: while it is pending both are held, and
/// once the chain shows its key it alone is.
pub proof fn law_a_rotation_keeps_the_secret_in_force(
    before: SecretsModel,
    asset: u16,
    next: Seq<u64>,
)
    requires
        before.keys.dom().contains(asset),
        !before.next.dom().contains(asset),
    ensures
        ({
            let pending = SecretsModel {
                keys: before.keys,
                next: before.next.insert(asset, next),
            };
            let promoted = SecretsModel {
                keys: pending.keys.insert(asset, pending.next[asset]),
                next: pending.next.remove(asset),
            };
            &&& pending.keys[asset] == before.keys[asset] && pending.next[asset] == next
            &&& promoted.keys[asset] == next && promoted.next == before.next
            &&& forall|a: u16| a != asset ==> #[trigger] promoted.keys[a] == before.keys[a]
        }),
{
    let pending = SecretsModel { keys: before.keys, next: before.next.insert(asset, next) };
    assert(pending.next.remove(asset) =~= before.next);
}

proof fn lemma_secret_line(asset: u16, kind: Seq<char>, key: Seq<u64>)
    requires
        key.len() == 4,
        kind == "isk"@ || kind == "next"@,
    ensures
        words_of(secret_line(asset, kind, key)) == seq![
            "asset"@,
            dec(asset as nat),
            kind,
            lanes_text(key),
        ],
        lacks(secret_line(asset, kind, key), '\n'),
        secret_line(asset, kind, key).last() != '\r',
        trim_of(secret_line(asset, kind, key)).len() > 0,
        unhex32_text(lanes_text(key)) == Some(lane_bytes(key)),
{
    reveal_strlit("asset ");
    reveal_strlit("asset");
    reveal_strlit(" ");
    reveal_strlit("isk");
    reveal_strlit("next");
    let a = "asset"@;
    let n = dec(asset as nat);
    let h = lanes_text(key);
    lemma_lanes_of_bytes(key);
    lemma_solid_dec(asset as nat);
    lemma_solid_hex(lane_bytes(key));
    lemma_hex_lacks(lane_bytes(key), '\n');
    lemma_hex_lacks(lane_bytes(key), '\r');
    lemma_dec_lacks(asset as nat, '\n');
    assert(solid(a) && solid(kind));
    let t3 = h;
    let t2 = kind.push(' ') + t3;
    let t1 = n.push(' ') + t2;
    let t0 = a.push(' ') + t1;
    assert(secret_line(asset, kind, key) =~= t0);
    assert(h.len() == 64);
    lemma_words_only(t3);
    lemma_words_first(kind, t3);
    lemma_words_first(n, t2);
    lemma_words_first(a, t1);
    assert(words_of(t0) =~= seq![a, n, kind, h]);
    assert(t0.last() == h.last());
    lemma_not_blank(t0);
    lemma_trim_solid(h);
    lemma_bytes32_of_hex(lane_bytes(key));
    assert(lacks(t2, '\n'));
    assert(lacks(t1, '\n'));
    assert(lacks(t0, '\n'));
}

#[verifier::rlimit(40)]
#[verifier::spinoff_prover]
proof fn lemma_table_lines(entries: Seq<(u16, [u64; 4])>, kind: Seq<char>, i: int, rest: Seq<char>)
    requires
        0 <= i <= entries.len(),
        kind == "isk"@ || kind == "next"@,
    ensures
        lines_of(table_text(entries, kind, i) + rest) == Seq::new(
            (entries.len() - i) as nat,
            |k: int| secret_line(entries[i + k].0, kind, entries[i + k].1@),
        ) + lines_of(rest),
    decreases entries.len() - i,
{
    reveal_strlit("\n");
    if i < entries.len() {
        let l = secret_line(entries[i].0, kind, entries[i].1@);
        let more = table_text(entries, kind, i + 1) + rest;
        lemma_table_lines(entries, kind, i + 1, rest);
        lemma_secret_line(entries[i].0, kind, entries[i].1@);
        assert(table_text(entries, kind, i) + rest =~= l.push('\n') + more);
        lemma_lines_of_first(l, more);
    } else {
        assert(table_text(entries, kind, i) + rest =~= rest);
    }
    assert(lines_of(table_text(entries, kind, i) + rest) =~= Seq::new(
        (entries.len() - i) as nat,
        |k: int| secret_line(entries[i + k].0, kind, entries[i + k].1@),
    ) + lines_of(rest));
}

/// A saved file reads back as the secrets that it holds.
pub proof fn law_issuer_file_reads_back(f: IssuerFile)
    ensures
        secrets_of(f.text()) == Ok::<SecretsModel, Seq<char>>(f@),
{
    reveal_strlit("\n");
    reveal_strlit("qumbra-wallet issuer v1");
    reveal_strlit("isk");
    reveal_strlit("next");
    let k = f.keys.entries@;
    let n = f.next.entries@;
    let second = table_text(n, "next"@, 0);
    let rest = table_text(k, "isk"@, 0) + second;
    assert(f.text() =~= ISSUER_HEADER@.push('\n') + rest);
    lemma_lines_of_first(ISSUER_HEADER@, rest);
    lemma_table_lines(k, "isk"@, 0, second);
    assert(second + Seq::<char>::empty() =~= second);
    lemma_table_lines(n, "next"@, 0, Seq::empty());
    let all = lines_of(f.text());
    assert(all.len() == 1 + k.len() + n.len());
    assert forall|i: int| 0 <= i < k.len() implies #[trigger] all[i + 1] == secret_line(
        k[i].0,
        "isk"@,
        k[i].1@,
    ) by {
        assert(all[i + 1] == lines_of(rest)[i]);
    }
    assert forall|i: int| 0 <= i < n.len() implies #[trigger] all[1 + k.len() + i] == secret_line(
        n[i].0,
        "next"@,
        n[i].1@,
    ) by {
        assert(all[1 + k.len() + i] == lines_of(rest)[k.len() + i]);
        assert(lines_of(rest)[k.len() + i] == lines_of(second)[i]);
    }
    assert(all[0] == ISSUER_HEADER@);
    assert("isk"@.len() != "next"@.len());
    lemma_keys_back(all, k, k.len() as int);
    lemma_next_back(all, k, n, n.len() as int);
}

proof fn lemma_keys_back(all: Seq<Seq<char>>, k: Seq<(u16, [u64; 4])>, i: int)
    requires
        0 <= i <= k.len() < all.len(),
        forall|j: int|
            0 <= j < k.len() ==> #[trigger] all[j + 1] == secret_line(k[j].0, "isk"@, k[j].1@),
    ensures
        secrets_to(all, i + 1) == Ok::<SecretsModel, Seq<char>>(
            SecretsModel { keys: table_to(k, i), next: Map::empty() },
        ),
    decreases i,
{
    if i > 0 {
        lemma_keys_back(all, k, i - 1);
        let e = k[i - 1];
        assert(all[i - 1 + 1] == secret_line(e.0, "isk"@, e.1@));
        lemma_secret_line(e.0, "isk"@, e.1@);
        lemma_number_text_of_dec(e.0 as nat, u16::MAX as nat);
        lemma_lanes_of_bytes(e.1@);
    }
}

proof fn lemma_next_back(
    all: Seq<Seq<char>>,
    k: Seq<(u16, [u64; 4])>,
    n: Seq<(u16, [u64; 4])>,
    i: int,
)
    requires
        0 <= i <= n.len(),
        all.len() == 1 + k.len() + n.len(),
        "isk"@ != "next"@,
        forall|j: int|
            0 <= j < k.len() ==> #[trigger] all[j + 1] == secret_line(k[j].0, "isk"@, k[j].1@),
        forall|j: int|
            0 <= j < n.len() ==> #[trigger] all[1 + k.len() + j] == secret_line(
                n[j].0,
                "next"@,
                n[j].1@,
            ),
    ensures
        secrets_to(all, 1 + k.len() + i) == Ok::<SecretsModel, Seq<char>>(
            SecretsModel { keys: table_to(k, k.len() as int), next: table_to(n, i) },
        ),
    decreases i,
{
    if i > 0 {
        lemma_next_back(all, k, n, i - 1);
        let e = n[i - 1];
        assert(all[1 + k.len() + (i - 1)] == secret_line(e.0, "next"@, e.1@));
        lemma_secret_line(e.0, "next"@, e.1@);
        lemma_number_text_of_dec(e.0 as nat, u16::MAX as nat);
        lemma_lanes_of_bytes(e.1@);
    } else {
        lemma_keys_back(all, k, k.len() as int);
    }
}

/// The four-lane values of the lines from place 1 to `n`, or the first line
/// that is none; blank lines are left out.
pub open spec fn list_to(all: Seq<Seq<char>>, n: int) -> Result<Seq<Seq<u64>>, Seq<char>>
    decreases n,
{
    if n <= 1 {
        Ok(Seq::empty())
    } else {
        match list_to(all, n - 1) {
            Err(e) => Err(e),
            Ok(v) => if trim_of(all[n - 1]).len() == 0 {
                Ok(v)
            } else {
                match unhex32_text(all[n - 1]) {
                    Some(b) => Ok(v.push(lanes_of(b))),
                    None => Err(all[n - 1]),
                }
            },
        }
    }
}

/// What a published list's text means: its values, or what is said of it.
pub open spec fn list_of(
    text: Seq<char>,
    header: Seq<char>,
    start: Seq<char>,
    item: Seq<char>,
) -> Result<Seq<Seq<u64>>, Seq<char>> {
    let all = lines_of(text);
    if all.len() == 0 || all[0] != header {
        Err(start + header + "`"@)
    } else {
        match list_to(all, all.len() as int) {
            Ok(v) => Ok(v),
            Err(line) => Err(item + debug_text(line)),
        }
    }
}

/// Rows of lanes as values.
pub open spec fn lane_views(v: Seq<[u64; 4]>) -> Seq<Seq<u64>> {
    Seq::new(v.len(), |i: int| v[i]@)
}

proof fn lemma_list_err(all: Seq<Seq<char>>, n: int, m: int)
    requires
        n <= m,
        list_to(all, n) is Err,
    ensures
        list_to(all, m) == list_to(all, n),
    decreases m - n,
{
    if n < m {
        lemma_list_err(all, n, m - 1);
    }
}

fn read_list(text: &str, header: &str, start: &str, item: &str) -> (r: Result<
    Vec<[u64; 4]>,
    String,
>)
    ensures
        match (r, list_of(text@, header@, start@, item@)) {
            (Ok(v), Ok(m)) => lane_views(v@) == m,
            (Err(e), Err(m)) => e@ == m,
            _ => false,
        },
{
    let chars = chars_of(text);
    let all = lines(&chars);
    let ghost ls = texts(all@);
    let known = if all.len() > 0 {
        assert(ls[0] == all@[0]@);
        text_is(&all[0], header)
    } else {
        false
    };
    if !known {
        let mut e: String = start.to_owned();
        e.append(header);
        e.append("`");
        return Err(e);
    }
    let mut out: Vec<[u64; 4]> = Vec::new();
    let mut i: usize = 1;
    assert(lane_views(out@) =~= Seq::empty());
    while i < all.len()
        invariant
            1 <= i <= all@.len(),
            ls == texts(all@),
            ls == lines_of(text@),
            ls[0] == header@,
            list_to(ls, i as int) == Ok::<Seq<Seq<u64>>, Seq<char>>(lane_views(out@)),
        decreases all@.len() - i,
    {
        assert(ls[i as int] == all@[i as int]@);
        let body = trim(&all[i]);
        if body.len() > 0 {
            match unhex32(&all[i]) {
                Some(b) => {
                    let ghost before = lane_views(out@);
                    let key = digest_lanes(&b);
                    out.push(key);
                    assert(lane_views(out@) =~= before.push(key@));
                },
                None => {
                    let mut e: String = item.to_owned();
                    let shown = string_of(&all[i]);
                    let q = debug_of(shown.as_str());
                    e.append(q.as_str());
                    proof {
                        lemma_list_err(ls, i + 1, ls.len() as int);
                    }
                    return Err(e);
                },
            }
        }
        i += 1;
    }
    Ok(out)
}

/// The lines of a list from place `i` on.
pub open spec fn items_text(v: Seq<Seq<u64>>, i: int) -> Seq<char>
    decreases v.len() - i,
{
    if i < 0 || i >= v.len() {
        Seq::empty()
    } else {
        lanes_text(v[i]) + "\n"@ + items_text(v, i + 1)
    }
}

/// The text of a list.
pub open spec fn list_text(header: Seq<char>, v: Seq<Seq<u64>>) -> Seq<char> {
    header + "\n"@ + items_text(v, 0)
}

fn write_list(header: &str, v: &[[u64; 4]]) -> (r: String)
    ensures
        r@ == list_text(header@, lane_views(v@)),
{
    let mut s: String = header.to_owned();
    s.append("\n");
    let ghost m = lane_views(v@);
    let ghost goal = list_text(header@, m);
    let mut i: usize = 0;
    assert(s@ + items_text(m, 0) =~= goal);
    while i < v.len()
        invariant
            i <= v@.len(),
            m == lane_views(v@),
            s@ + items_text(m, i as int) == goal,
        decreases v@.len() - i,
    {
        let ghost before = s@;
        let hex = lanes_hex(&v[i]);
        s.append(hex.as_str());
        s.append("\n");
        i += 1;
        proof {
            let line = lanes_text(m[i - 1]) + "\n"@;
            assert(s@ =~= before + line);
            assert(s@ + items_text(m, i as int) =~= before + (line + items_text(m, i as int)));
        }
    }
    assert(s@ =~= goal);
    s
}

/// What a published freeze list's text means.
pub open spec fn key_list_of(text: Seq<char>) -> Result<Seq<Seq<u64>>, Seq<char>> {
    list_of(text, KEY_LIST_HEADER@, "a freeze list starts with `"@, "unparsable freeze key "@)
}

/// What a published allow list's text means.
pub open spec fn allow_list_of(text: Seq<char>) -> Result<Seq<Seq<u64>>, Seq<char>> {
    list_of(text, ALLOW_LIST_HEADER@, "an allow list starts with `"@, "unparsable credential "@)
}

/// Reads a published freeze list.
pub fn read_key_list(text: &str) -> (r: Result<Vec<[u64; 4]>, String>)
    ensures
        match (r, key_list_of(text@)) {
            (Ok(v), Ok(m)) => lane_views(v@) == m,
            (Err(e), Err(m)) => e@ == m,
            _ => false,
        },
{
    read_list(text, KEY_LIST_HEADER, "a freeze list starts with `", "unparsable freeze key ")
}

/// The text of a freeze list; `keys` are in the order that they are published in.
pub fn write_key_list(keys: &[[u64; 4]]) -> (r: String)
    ensures
        r@ == list_text(KEY_LIST_HEADER@, lane_views(keys@)),
{
    write_list(KEY_LIST_HEADER, keys)
}

/// Reads a published allow list.
pub fn read_allow_list(text: &str) -> (r: Result<Vec<[u64; 4]>, String>)
    ensures
        match (r, allow_list_of(text@)) {
            (Ok(v), Ok(m)) => lane_views(v@) == m,
            (Err(e), Err(m)) => e@ == m,
            _ => false,
        },
{
    read_list(text, ALLOW_LIST_HEADER, "an allow list starts with `", "unparsable credential ")
}

/// The text of an allow list; `creds` are in the order that they are published in.
pub fn write_allow_list(creds: &[[u64; 4]]) -> (r: String)
    ensures
        r@ == list_text(ALLOW_LIST_HEADER@, lane_views(creds@)),
{
    write_list(ALLOW_LIST_HEADER, creds)
}

/// The values among the first `n` that are not `k`.
pub open spec fn without(v: Seq<[u64; 4]>, k: Seq<u64>, n: int) -> Seq<[u64; 4]>
    decreases n,
{
    if n <= 0 {
        Seq::empty()
    } else if v[n - 1]@ == k {
        without(v, k, n - 1)
    } else {
        without(v, k, n - 1).push(v[n - 1])
    }
}

/// A list with a value taken out, and put in again behind the others where it
/// is added.
fn list_update(v: &[[u64; 4]], k: [u64; 4], add: bool) -> (r: Vec<[u64; 4]>)
    ensures
        r@ == if add {
            without(v@, k@, v@.len() as int).push(k)
        } else {
            without(v@, k@, v@.len() as int)
        },
{
    let mut r: Vec<[u64; 4]> = Vec::new();
    let mut i: usize = 0;
    assert(r@ =~= without(v@, k@, 0));
    while i < v.len()
        invariant
            i <= v@.len(),
            r@ == without(v@, k@, i as int),
        decreases v@.len() - i,
    {
        if !lanes_eq(&v[i], &k) {
            r.push(v[i]);
        }
        i += 1;
    }
    if add {
        r.push(k);
    }
    r
}

proof fn lemma_updated(v: Seq<[u64; 4]>, k: [u64; 4])
    ensures
        ({
            let rest = without(v, k@, v.len() as int);
            &&& !rest.contains(k) && rest.push(k).contains(k)
            &&& forall|x: [u64; 4]|
                x@ != k@ ==> (#[trigger] rest.contains(x) <==> v.contains(x))
            &&& forall|x: [u64; 4]|
                x@ != k@ ==> (#[trigger] rest.push(k).contains(x) <==> v.contains(x))
        }),
{
    let rest = without(v, k@, v.len() as int);
    law_an_update_moves_one_value(v, k@, v.len() as int);
    assert(v.take(v.len() as int) =~= v);
    lemma_push_has(rest, k, k);
    assert forall|x: [u64; 4]| x@ != k@ implies (#[trigger] rest.push(k).contains(x)
        <==> v.contains(x)) by {
        lemma_push_has(rest, k, x);
        assert(rest.contains(x) <==> v.contains(x));
    }
}

/// The freeze list with an address's key added or removed, before it is put in
/// its published order.
pub fn freeze_update(keys: &[[u64; 4]], key: [u64; 4], add: bool) -> (r: Vec<[u64; 4]>)
    ensures
        r@ == if add {
            without(keys@, key@, keys@.len() as int).push(key)
        } else {
            without(keys@, key@, keys@.len() as int)
        },
        add <==> r@.contains(key),
        forall|x: [u64; 4]| x@ != key@ ==> (#[trigger] r@.contains(x) <==> keys@.contains(x)),
{
    proof {
        lemma_updated(keys@, key);
    }
    list_update(keys, key, add)
}

/// The allow list with an address's credential added or removed, before it is
/// put in its published order.
pub fn allow_update(creds: &[[u64; 4]], cred: [u64; 4], add: bool) -> (r: Vec<[u64; 4]>)
    ensures
        r@ == if add {
            without(creds@, cred@, creds@.len() as int).push(cred)
        } else {
            without(creds@, cred@, creds@.len() as int)
        },
        add <==> r@.contains(cred),
        forall|x: [u64; 4]| x@ != cred@ ==> (#[trigger] r@.contains(x) <==> creds@.contains(x)),
{
    proof {
        lemma_updated(creds@, cred);
    }
    list_update(creds, cred, add)
}

/// A list without a value has every other value of the list, and nothing else;
/// they keep their order.
pub proof fn law_an_update_moves_one_value(v: Seq<[u64; 4]>, k: Seq<u64>, n: int)
    requires
        0 <= n <= v.len(),
    ensures
        forall|x: [u64; 4]| #[trigger]
            without(v, k, n).contains(x) <==> x@ != k && v.take(n).contains(x),
        forall|i: int| 0 <= i < without(v, k, n).len() ==> (#[trigger] without(v, k, n)[i])@ != k,
        (forall|i: int| 0 <= i < n ==> (#[trigger] v[i])@ != k) ==> without(v, k, n) == v.take(n),
    decreases n,
{
    if forall|i: int| 0 <= i < n ==> (#[trigger] v[i])@ != k {
        lemma_without(v, k, n);
    }
    if n > 0 {
        law_an_update_moves_one_value(v, k, n - 1);
        let was = without(v, k, n - 1);
        let now = without(v, k, n);
        let last = v[n - 1];
        assert(v.take(n) =~= v.take(n - 1).push(last));
        assert forall|x: [u64; 4]| #[trigger] now.contains(x) <==> x@ != k && v.take(n).contains(
            x,
        ) by {
            lemma_push_has(v.take(n - 1), last, x);
            lemma_push_has(was, last, x);
            assert(was.contains(x) <==> x@ != k && v.take(n - 1).contains(x));
        }
    }
}

proof fn lemma_push_has(s: Seq<[u64; 4]>, last: [u64; 4], x: [u64; 4])
    ensures
        s.push(last).contains(x) <==> s.contains(x) || x == last,
{
    if s.contains(x) {
        let i = choose|i: int| 0 <= i < s.len() && s[i] == x;
        assert(s.push(last)[i] == x);
    }
    if x == last {
        assert(s.push(last)[s.len() as int] == x);
    }
    if s.push(last).contains(x) && x != last {
        let i = choose|i: int| 0 <= i < s.push(last).len() && s.push(last)[i] == x;
        assert(s[i] == x);
    }
}

proof fn lemma_without(v: Seq<[u64; 4]>, k: Seq<u64>, n: int)
    requires
        0 <= n <= v.len(),
        forall|i: int| 0 <= i < n ==> (#[trigger] v[i])@ != k,
    ensures
        without(v, k, n) == v.take(n),
    decreases n,
{
    if n > 0 {
        lemma_without(v, k, n - 1);
        assert(v.take(n) =~= v.take(n - 1).push(v[n - 1]));
    } else {
        assert(v.take(0) =~= Seq::empty());
    }
}

proof fn lemma_without_push(v: Seq<[u64; 4]>, k: [u64; 4], n: int)
    requires
        0 <= n <= v.len(),
    ensures
        without(v.push(k), k@, n) == without(v, k@, n),
    decreases n,
{
    if n > 0 {
        lemma_without_push(v, k, n - 1);
    }
}

/// Removing what was added gives back a list that did not hold it.
pub proof fn law_remove_undoes_add(v: Seq<[u64; 4]>, k: [u64; 4])
    requires
        forall|i: int| 0 <= i < v.len() ==> (#[trigger] v[i])@ != k@,
    ensures
        ({
            let added = without(v, k@, v.len() as int).push(k);
            without(added, k@, added.len() as int) == v
        }),
{
    lemma_without(v, k@, v.len() as int);
    assert(v.take(v.len() as int) =~= v);
    lemma_without_push(v, k, v.len() as int);
}

/// The lines that a list's values are written in.
spec fn item_lines(v: Seq<Seq<u64>>) -> Seq<Seq<char>> {
    Seq::new(v.len(), |k: int| lanes_text(v[k]))
}

proof fn lemma_item_line(x: Seq<u64>, rest: Seq<char>)
    ensures
        lines_of(lanes_text(x) + "\n"@ + rest) == seq![lanes_text(x)] + lines_of(rest),
{
    reveal_strlit("\n");
    let l = lanes_text(x);
    lemma_hex_lacks(lane_bytes(x), '\n');
    lemma_hex_lacks(lane_bytes(x), '\r');
    assert(l + "\n"@ + rest =~= l.push('\n') + rest);
    lemma_lines_of_first(l, rest);
}

proof fn lemma_items_lines(v: Seq<Seq<u64>>, i: int)
    requires
        0 <= i <= v.len(),
    ensures
        lines_of(items_text(v, i)) == item_lines(v).skip(i),
    decreases v.len() - i,
{
    let all = item_lines(v);
    if i < v.len() {
        lemma_items_lines(v, i + 1);
        lemma_item_line(v[i], items_text(v, i + 1));
        assert(all[i] == lanes_text(v[i]));
        assert(all.skip(i) =~= seq![all[i]] + all.skip(i + 1));
    } else {
        assert(items_text(v, i) =~= Seq::empty());
        assert(all.skip(i) =~= Seq::empty());
    }
}

proof fn lemma_list_back(all: Seq<Seq<char>>, v: Seq<Seq<u64>>, n: int)
    requires
        1 <= n <= v.len() + 1,
        all.len() == v.len() + 1,
        forall|k: int| 0 <= k < v.len() ==> (#[trigger] v[k]).len() == 4,
        forall|k: int| 1 <= k < all.len() ==> #[trigger] all[k] == lanes_text(v[k - 1]),
    ensures
        list_to(all, n) == Ok::<Seq<Seq<u64>>, Seq<char>>(v.take(n - 1)),
    decreases n,
{
    if n > 1 {
        lemma_list_back(all, v, n - 1);
        let x = v[n - 2];
        assert(all[n - 1] == lanes_text(x));
        lemma_lanes_of_bytes(x);
        lemma_solid_hex(lane_bytes(x));
        lemma_trim_solid(lanes_text(x));
        lemma_bytes32_of_hex(lane_bytes(x));
        assert(lanes_text(x).len() == 64);
        assert(v.take(n - 1) =~= v.take(n - 2).push(x));
    } else {
        assert(v.take(0) =~= Seq::empty());
    }
}

/// A published list reads back as its values, and is not taken for the other
/// kind of list.
pub proof fn law_lists_read_back(v: Seq<Seq<u64>>)
    requires
        forall|k: int| 0 <= k < v.len() ==> (#[trigger] v[k]).len() == 4,
    ensures
        key_list_of(list_text(KEY_LIST_HEADER@, v)) == Ok::<Seq<Seq<u64>>, Seq<char>>(v),
        allow_list_of(list_text(ALLOW_LIST_HEADER@, v)) == Ok::<Seq<Seq<u64>>, Seq<char>>(v),
        allow_list_of(list_text(KEY_LIST_HEADER@, v)) is Err,
        key_list_of(list_text(ALLOW_LIST_HEADER@, v)) is Err,
{
    reveal_strlit("\n");
    reveal_strlit("qumbra freeze-list v1");
    reveal_strlit("qumbra allow-list v1");
    lemma_header_back(KEY_LIST_HEADER@, v);
    lemma_header_back(ALLOW_LIST_HEADER@, v);
    assert(KEY_LIST_HEADER@.len() != ALLOW_LIST_HEADER@.len());
}

proof fn lemma_header_back(header: Seq<char>, v: Seq<Seq<u64>>)
    requires
        crate::text::line_safe(header),
        forall|k: int| 0 <= k < v.len() ==> (#[trigger] v[k]).len() == 4,
    ensures
        ({
            let all = lines_of(list_text(header, v));
            all.len() > 0 && all[0] == header && list_to(all, all.len() as int) == Ok::<
                Seq<Seq<u64>>,
                Seq<char>,
            >(v)
        }),
{
    reveal_strlit("\n");
    let rest = items_text(v, 0);
    lemma_items_lines(v, 0);
    assert(list_text(header, v) =~= header.push('\n') + rest);
    lemma_lines_of_first(header, rest);
    let all = lines_of(list_text(header, v));
    assert(item_lines(v).skip(0) =~= item_lines(v));
    assert forall|k: int| 1 <= k < all.len() implies #[trigger] all[k] == lanes_text(v[k - 1]) by {
        assert(all[k] == item_lines(v)[k - 1]);
    }
    lemma_list_back(all, v, all.len() as int);
    assert(v.take(v.len() as int) =~= v);
}

pub const MODE_CLOAKED: u64 = 0;

pub const MODE_HYBRID: u64 = 1;

pub const MODE_REGULATED: u64 = 2;

/// A registry leaf.
#[derive(Clone, Copy, Debug, PartialEq, Eq)]
pub struct RegistryLeaf {
    pub asset: u64,
    pub issuer_key: [u64; 4],
    pub mode: u64,
    pub freeze_root: [u64; 4],
    pub allow_root: [u64; 4],
    pub flags: u64,
}

/// A registry leaf's policy as the issuer asks for it. What is not said keeps
/// what the served leaf has, or takes the mode's default.
#[derive(Clone, Debug, PartialEq, Eq)]
pub struct LeafPolicy {
    pub mode: Option<u64>,
    pub freeze_keys: Option<Vec<[u64; 4]>>,
    pub allow_creds: Option<Vec<[u64; 4]>>,
    pub redeem_open: Option<bool>,
}

/// The roots that a policy's lists come to: of its freeze list and its allow
/// list where it has them, and of an empty freeze list.
#[derive(Clone, Copy, Debug, PartialEq, Eq)]
pub struct PolicyRoots {
    pub freeze: [u64; 4],
    pub allow: [u64; 4],
    pub no_freeze: [u64; 4],
}

/// The mode that a word names.
pub fn parse_mode(s: &str) -> (r: Option<u64>)
    ensures
        r == if s@ == "cloaked"@ {
            Some(MODE_CLOAKED)
        } else if s@ == "hybrid"@ {
            Some(MODE_HYBRID)
        } else if s@ == "regulated"@ {
            Some(MODE_REGULATED)
        } else {
            None
        },
{
    let v = chars_of(s);
    if text_is(&v, "cloaked") {
        Some(MODE_CLOAKED)
    } else if text_is(&v, "hybrid") {
        Some(MODE_HYBRID)
    } else if text_is(&v, "regulated") {
        Some(MODE_REGULATED)
    } else {
        None
    }
}

pub open spec fn mode_name(m: u64) -> Seq<char> {
    if m == MODE_CLOAKED {
        "Cloaked"@
    } else if m == MODE_HYBRID {
        "Hybrid"@
    } else {
        "Regulated"@
    }
}

/// The mode that a policy makes of a leaf.
pub open spec fn mode_of(had: u64, policy: LeafPolicy) -> u64 {
    match policy.mode {
        Some(m) => m,
        None => had,
    }
}

/// Why a policy cannot be written over a leaf of an asset in the mode `had`, if
/// it cannot: a mode implies which roots a leaf has.
pub open spec fn leaf_fault(asset: u64, had: u64, policy: LeafPolicy) -> Option<Seq<char>> {
    let mode = mode_of(had, policy);
    if asset == 0 {
        Some("asset 0 (the fee unit) is pinned at genesis and never writable"@)
    } else if mode == MODE_CLOAKED {
        if policy.freeze_keys is Some || policy.allow_creds is Some {
            Some("a Cloaked asset has no freeze or allow list (mode ⇒ roots)"@)
        } else if policy.redeem_open == Some(true) {
            Some("a Cloaked asset carries no flags; redeem-open is a policy-asset flag"@)
        } else {
            None
        }
    } else if mode == MODE_HYBRID {
        if policy.allow_creds is Some {
            Some("a Hybrid asset has no allow list (mode ⇒ roots); use regulated"@)
        } else {
            None
        }
    } else if mode == MODE_REGULATED {
        if policy.allow_creds is None && had != MODE_REGULATED {
            Some(
                "a Regulated asset needs its allow list (--allow-list); the served leaf is "@
                    + mode_name(had),
            )
        } else {
            None
        }
    } else {
        Some(
            "mode "@ + dec(mode as nat)
                + " is not cloaked (0), hybrid (1) or regulated (2)"@,
        )
    }
}

/// The freeze root of a leaf with a policy.
pub open spec fn freeze_root_of(base: RegistryLeaf, policy: LeafPolicy, roots: PolicyRoots) -> [u64; 4] {
    if policy.freeze_keys is Some {
        roots.freeze
    } else if base.mode == MODE_CLOAKED {
        roots.no_freeze
    } else {
        base.freeze_root
    }
}

/// A leaf with a policy written over it.
pub open spec fn is_leaf_with(
    leaf: RegistryLeaf,
    base: RegistryLeaf,
    policy: LeafPolicy,
    issuer_key: [u64; 4],
    roots: PolicyRoots,
    redeem_flag: u64,
) -> bool {
    let mode = mode_of(base.mode, policy);
    let open = match policy.redeem_open {
        Some(b) => b,
        None => base.flags & redeem_flag != 0,
    };
    &&& leaf.asset == base.asset && leaf.issuer_key == issuer_key && leaf.mode == mode
    &&& if mode == MODE_CLOAKED {
        leaf.freeze_root@ == seq![0u64, 0, 0, 0] && leaf.allow_root@ == seq![0u64, 0, 0, 0]
            && leaf.flags == 0
    } else {
        &&& leaf.freeze_root == freeze_root_of(base, policy, roots)
        &&& if mode == MODE_HYBRID {
            leaf.allow_root@ == seq![0u64, 0, 0, 0]
        } else if policy.allow_creds is Some {
            leaf.allow_root == roots.allow
        } else {
            leaf.allow_root == base.allow_root
        }
        &&& leaf.flags == if open {
            redeem_flag
        } else {
            0
        }
    }
}

fn leaf_refused(why: &str) -> (r: SendRefusal)
    ensures
        r matches SendRefusal::LeafRefused(s) && s@ == why@,
{
    SendRefusal::LeafRefused(why.to_owned())
}

/// The leaf that a policy makes of a served one, or of an empty one. What the
/// circuit would refuse is refused here, before anything is proved.
pub fn leaf_with(
    base: RegistryLeaf,
    policy: &LeafPolicy,
    issuer_key: [u64; 4],
    roots: &PolicyRoots,
    redeem_flag: u64,
) -> (r: Result<RegistryLeaf, SendRefusal>)
    ensures
        match r {
            Ok(leaf) => leaf_fault(base.asset, base.mode, *policy) is None && is_leaf_with(
                leaf,
                base,
                *policy,
                issuer_key,
                *roots,
                redeem_flag,
            ),
            Err(e) => e matches SendRefusal::LeafRefused(s) && leaf_fault(base.asset, base.mode, *policy) == Some(s@),
        },
        // What the policy does not name is kept.
        r matches Ok(leaf) ==> {
            &&& leaf.asset == base.asset && leaf.issuer_key == issuer_key
            &&& policy.mode is None ==> leaf.mode == base.mode
            &&& base.mode == MODE_REGULATED && leaf.mode == MODE_REGULATED
                && policy.allow_creds is None ==> leaf.allow_root == base.allow_root
            &&& base.mode != MODE_CLOAKED && leaf.mode != MODE_CLOAKED && policy.freeze_keys is None
                ==> leaf.freeze_root == base.freeze_root
        },
        // What it names is what its lists come to.
        r matches Ok(leaf) ==> {
            &&& policy.mode matches Some(m) ==> leaf.mode == m
            &&& policy.allow_creds is Some ==> leaf.mode == MODE_REGULATED && leaf.allow_root
                == roots.allow
            &&& policy.freeze_keys is Some ==> leaf.freeze_root == roots.freeze
            &&& policy.redeem_open == Some(true) ==> leaf.flags == redeem_flag
            &&& policy.redeem_open == Some(false) ==> leaf.flags == 0
        },
{
    if base.asset == 0 {
        return Err(
            leaf_refused("asset 0 (the fee unit) is pinned at genesis and never writable"),
        );
    }
    let mode: u64 = match policy.mode {
        Some(m) => m,
        None => base.mode,
    };
    let open: bool = match policy.redeem_open {
        Some(b) => b,
        None => base.flags & redeem_flag != 0,
    };
    let none: [u64; 4] = [0, 0, 0, 0];
    assert(none@ =~= seq![0u64, 0, 0, 0]);
    if mode == MODE_CLOAKED {
        if policy.freeze_keys.is_some() || policy.allow_creds.is_some() {
            return Err(leaf_refused("a Cloaked asset has no freeze or allow list (mode ⇒ roots)"));
        }
        if let Some(asked) = policy.redeem_open {
            if asked {
                return Err(
                    leaf_refused(
                        "a Cloaked asset carries no flags; redeem-open is a policy-asset flag",
                    ),
                );
            }
        }
        return Ok(
            RegistryLeaf {
                asset: base.asset,
                issuer_key,
                mode,
                freeze_root: none,
                allow_root: none,
                flags: 0,
            },
        );
    }
    if mode != MODE_HYBRID && mode != MODE_REGULATED {
        let mut s: String = "mode ".to_owned();
        push_dec(&mut s, mode);
        s.append(" is not cloaked (0), hybrid (1) or regulated (2)");
        return Err(SendRefusal::LeafRefused(s));
    }
    let freeze_root: [u64; 4] = if policy.freeze_keys.is_some() {
        roots.freeze
    } else if base.mode == MODE_CLOAKED {
        roots.no_freeze
    } else {
        base.freeze_root
    };
    let allow_root: [u64; 4] = if mode == MODE_HYBRID {
        if policy.allow_creds.is_some() {
            return Err(
                leaf_refused("a Hybrid asset has no allow list (mode ⇒ roots); use regulated"),
            );
        }
        none
    } else if policy.allow_creds.is_some() {
        roots.allow
    } else if base.mode == MODE_REGULATED {
        base.allow_root
    } else {
        let mut s: String = "a Regulated asset needs its allow list (--allow-list); the served leaf is ".to_owned();
        if base.mode == MODE_CLOAKED {
            s.append("Cloaked");
        } else if base.mode == MODE_HYBRID {
            s.append("Hybrid");
        } else {
            s.append("Regulated");
        }
        return Err(SendRefusal::LeafRefused(s));
    };
    let flags: u64 = if open {
        redeem_flag
    } else {
        0
    };
    Ok(RegistryLeaf { asset: base.asset, issuer_key, mode, freeze_root, allow_root, flags })
}

/// A leaf that was written is the served one but for what the policy names, as
/// far as its mode lets it. What the policy does not name is kept: the freeze
/// root and the allow root of a leaf that had them, the mode, and whether it is
/// open to redeem. What it names is what its lists come to. A Cloaked leaf has no
/// roots and no flags, a Hybrid one no allow root, and one that was Cloaked
/// starts with an empty freeze list.
pub proof fn law_mode_implies_roots(
    leaf: RegistryLeaf,
    base: RegistryLeaf,
    policy: LeafPolicy,
    issuer_key: [u64; 4],
    roots: PolicyRoots,
    redeem_flag: u64,
)
    requires
        leaf_fault(base.asset, base.mode, policy) is None,
        is_leaf_with(leaf, base, policy, issuer_key, roots, redeem_flag),
    ensures
        leaf.asset == base.asset && leaf.asset != 0,
        leaf.issuer_key == issuer_key,
        policy.mode is None ==> leaf.mode == base.mode,
        policy.mode matches Some(m) ==> leaf.mode == m,
        leaf.mode == MODE_CLOAKED || leaf.mode == MODE_HYBRID || leaf.mode == MODE_REGULATED,
        leaf.mode == MODE_CLOAKED ==> leaf.freeze_root@ == seq![0u64, 0, 0, 0] && leaf.allow_root@
            == seq![0u64, 0, 0, 0] && leaf.flags == 0,
        leaf.mode == MODE_CLOAKED ==> policy.freeze_keys is None && policy.allow_creds is None,
        leaf.mode == MODE_HYBRID ==> leaf.allow_root@ == seq![0u64, 0, 0, 0]
            && policy.allow_creds is None,
        leaf.mode == MODE_REGULATED && policy.allow_creds is Some ==> leaf.allow_root == roots.allow,
        leaf.mode == MODE_REGULATED && policy.allow_creds is None ==> base.mode == MODE_REGULATED
            && leaf.allow_root == base.allow_root,
        leaf.mode != MODE_CLOAKED && policy.freeze_keys is Some ==> leaf.freeze_root == roots.freeze,
        leaf.mode != MODE_CLOAKED && policy.freeze_keys is None && base.mode != MODE_CLOAKED
            ==> leaf.freeze_root == base.freeze_root,
        leaf.mode != MODE_CLOAKED && policy.freeze_keys is None && base.mode == MODE_CLOAKED
            ==> leaf.freeze_root == roots.no_freeze,
        leaf.mode != MODE_CLOAKED && policy.redeem_open == Some(true) ==> leaf.flags == redeem_flag,
        policy.redeem_open == Some(false) ==> leaf.flags == 0,
        leaf.mode != MODE_CLOAKED && policy.redeem_open is None ==> leaf.flags == if base.flags
            & redeem_flag != 0 {
            redeem_flag
        } else {
            0
        },
{
}

/// A policy that names nothing leaves a Regulated leaf as it is, and one that
/// only names a list changes only that list's root.
pub proof fn law_a_list_moves_only_its_root(
    leaf: RegistryLeaf,
    base: RegistryLeaf,
    policy: LeafPolicy,
    roots: PolicyRoots,
    redeem_flag: u64,
)
    requires
        is_leaf_with(leaf, base, policy, base.issuer_key, roots, redeem_flag),
        base.mode == MODE_REGULATED,
        policy.mode is None || policy.mode == Some(MODE_REGULATED),
        policy.redeem_open is None,
        base.flags == 0 || base.flags == redeem_flag,
    ensures
        leaf == (RegistryLeaf {
            freeze_root: leaf.freeze_root,
            allow_root: leaf.allow_root,
            ..base
        }),
        policy.freeze_keys is None ==> leaf.freeze_root == base.freeze_root,
        policy.allow_creds is None ==> leaf.allow_root == base.allow_root,
{
    assert(redeem_flag & redeem_flag == redeem_flag) by (bit_vector);
    assert(0u64 & redeem_flag == 0) by (bit_vector);
}

/// A policy is refused exactly where the leaf that it asks for cannot be: of
/// asset 0, of no known mode, with a list or a flag that its mode has not, or
/// Regulated without an allow list to start from.
pub proof fn law_a_policy_is_refused_for_its_mode(asset: u64, had: u64, policy: LeafPolicy)
    ensures
        leaf_fault(asset, had, policy) is None <==> {
            let mode = match policy.mode {
                Some(m) => m,
                None => had,
            };
            &&& asset != 0
            &&& mode == MODE_CLOAKED || mode == MODE_HYBRID || mode == MODE_REGULATED
            &&& mode == MODE_CLOAKED ==> policy.freeze_keys is None && policy.allow_creds is None
                && policy.redeem_open != Some(true)
            &&& mode == MODE_HYBRID ==> policy.allow_creds is None
            &&& mode == MODE_REGULATED ==> policy.allow_creds is Some || had == MODE_REGULATED
        },
{
}

/// The node's refusal means that another registry write got there first.
pub fn is_registry_race(node: &str) -> (r: bool)
    ensures
        r == (holds_text(node@, "registry write is already pooled"@) || holds_text(
            node@,
            "L2RegistryRootStale"@,
        )),
{
    let v = chars_of(node);
    let a = chars_of("registry write is already pooled");
    let b = chars_of("L2RegistryRootStale");
    contains_text(&v, &a) || contains_text(&v, &b)
}

/// What a registry write came to: a race is told apart from any other refusal.
pub fn write_outcome(answer: Result<(), SpendError>) -> (r: Result<(), SendRefusal>)
    ensures
        match answer {
            Ok(_) => r is Ok,
            Err(e) => if e is Refused && (holds_text(
                e->Refused_0@,
                "registry write is already pooled"@,
            ) || holds_text(e->Refused_0@, "L2RegistryRootStale"@)) {
                r == Err::<(), SendRefusal>(SendRefusal::RegistryRaced(e->Refused_0))
            } else {
                r == Err::<(), SendRefusal>(SendRefusal::Spend(e))
            },
        },
{
    match answer {
        Ok(_) => Ok(()),
        Err(e) => match e {
            SpendError::Refused(node) => {
                if is_registry_race(node.as_str()) {
                    Err(SendRefusal::RegistryRaced(node))
                } else {
                    Err(SendRefusal::Spend(SpendError::Refused(node)))
                }
            },
            other => Err(SendRefusal::Spend(other)),
        },
    }
}

/// The asset-0 note that pays a registry write: the smallest that reaches the
/// tariff. Its change comes back.
pub fn registry_fee(index: &AssetIndex, tariff: u64) -> (r: Result<usize, SendRefusal>)
    ensures
        match least(values(index.held(0)), tariff) {
            Some(b) => r matches Ok(at) && at == b,
            None => r == Err::<usize, SendRefusal>(SendRefusal::NoRegistryFeeNote { tariff }),
        },
        r matches Ok(at) ==> at < index.held(0).len() && index.held(0)[at as int].value >= tariff
            && forall|i: int|
            0 <= i < index.held(0).len() && (#[trigger] index.held(0)[i]).value >= tariff
                ==> index.held(0)[at as int].value <= index.held(0)[i].value,
        r is Err ==> forall|i: int|
            0 <= i < index.held(0).len() ==> (#[trigger] index.held(0)[i]).value < tariff,
{
    match smallest_covering(index.spendable(0), tariff) {
        Some(at) => Ok(at),
        None => Err(SendRefusal::NoRegistryFeeNote { tariff }),
    }
}

/// An empty slot of an asset: what a registration is written over.
pub fn empty_leaf(asset: u16) -> (r: RegistryLeaf)
    ensures
        r.asset == asset,
        r.mode == MODE_CLOAKED,
        r.issuer_key@ == seq![0u64, 0, 0, 0],
        r.freeze_root@ == seq![0u64, 0, 0, 0],
        r.allow_root@ == seq![0u64, 0, 0, 0],
        r.flags == 0,
{
    let none: [u64; 4] = [0, 0, 0, 0];
    assert(none@ =~= seq![0u64, 0, 0, 0]);
    RegistryLeaf {
        asset: asset as u64,
        issuer_key: none,
        mode: MODE_CLOAKED,
        freeze_root: none,
        allow_root: none,
        flags: 0,
    }
}

/// A registration that may go on to the network: it names its mode, and its
/// policy can be written over an empty slot.
pub fn check_registration(
    asset: u16,
    policy: &LeafPolicy,
    roots: &PolicyRoots,
    redeem_flag: u64,
) -> (r: Result<(), SendRefusal>)
    ensures
        r is Ok <==> policy.mode is Some && leaf_fault(asset as u64, MODE_CLOAKED, *policy) is None,
        r matches Err(e) ==> (e matches SendRefusal::LeafRefused(s) && if policy.mode is None {
            s@ == "a registration names its mode (cloaked, hybrid or regulated)"@
        } else {
            leaf_fault(asset as u64, MODE_CLOAKED, *policy) == Some(s@)
        }),
{
    if policy.mode.is_none() {
        return Err(
            leaf_refused("a registration names its mode (cloaked, hybrid or regulated)"),
        );
    }
    let empty = empty_leaf(asset);
    match leaf_with(empty, policy, empty.issuer_key, roots, redeem_flag) {
        Ok(_) => Ok(()),
        Err(e) => Err(e),
    }
}

/// The slot that a registration writes has to be empty.
pub fn check_slot_empty(asset: u16, taken: bool) -> (r: Result<(), SendRefusal>)
    ensures
        r is Ok <==> !taken,
        r matches Err(e) ==> e == (SendRefusal::SlotTaken { asset }),
{
    if taken {
        Err(SendRefusal::SlotTaken { asset })
    } else {
        Ok(())
    }
}

/// The secret that a registration is written with: the one that the wallet
/// holds for the asset, or a fresh one, which is recorded before anything is
/// submitted. Says whether the file has to be saved.
pub fn registration_secret(file: &mut IssuerFile, asset: u16, rng: &mut StdRng) -> (r: (
    [u64; 4],
    bool,
))
    requires
        old(file).wf(),
    ensures
        final(file).wf(),
        final(file)@.keys.dom().contains(asset),
        final(file)@.keys[asset] == r.0@,
        final(file)@.next == old(file)@.next,
        if old(file)@.keys.dom().contains(asset) {
            !r.1 && *final(file) == *old(file)
        } else {
            r.1 && final(file)@.keys == old(file)@.keys.insert(asset, r.0@)
        },
{
    match file.isk(asset) {
        Some(k) => (k, false),
        None => {
            let k = rand_lanes(rng);
            file.keys.insert(asset, k);
            (k, true)
        },
    }
}

fn same_leaf(a: &RegistryLeaf, b: &RegistryLeaf) -> (r: bool)
    ensures
        r == same_leaves(*a, *b),
{
    a.asset == b.asset && lanes_eq(&a.issuer_key, &b.issuer_key) && a.mode == b.mode && lanes_eq(
        &a.freeze_root,
        &b.freeze_root,
    ) && lanes_eq(&a.allow_root, &b.allow_root) && a.flags == b.flags
}

/// Two leaves that hold the same.
pub open spec fn same_leaves(a: RegistryLeaf, b: RegistryLeaf) -> bool {
    a.asset == b.asset && a.issuer_key@ == b.issuer_key@ && a.mode == b.mode && a.freeze_root@
        == b.freeze_root@ && a.allow_root@ == b.allow_root@ && a.flags == b.flags
}

/// The leaf that an update writes: the policy over the served leaf, with the
/// new key where it rotates. An update that changes nothing is refused.
pub fn update_leaf(
    served: RegistryLeaf,
    policy: &LeafPolicy,
    rotated_key: Option<[u64; 4]>,
    roots: &PolicyRoots,
    redeem_flag: u64,
) -> (r: Result<RegistryLeaf, SendRefusal>)
    ensures
        match r {
            Ok(leaf) => leaf_fault(served.asset, served.mode, *policy) is None && is_leaf_with(
                leaf,
                served,
                *policy,
                match rotated_key {
                    Some(k) => k,
                    None => served.issuer_key,
                },
                *roots,
                redeem_flag,
            ) && !same_leaves(leaf, served),
            Err(e) => e matches SendRefusal::LeafRefused(s) && match leaf_fault(served.asset, served.mode, *policy) {
                Some(why) => s@ == why,
                None => s@ == "the update changes nothing in the served leaf"@,
            },
        },
        r matches Ok(leaf) ==> {
            &&& leaf.asset == served.asset
            &&& rotated_key is None ==> leaf.issuer_key == served.issuer_key
            &&& rotated_key matches Some(k) ==> leaf.issuer_key == k
            &&& served.mode == MODE_REGULATED && leaf.mode == MODE_REGULATED
                && policy.allow_creds is None ==> leaf.allow_root == served.allow_root
            &&& served.mode != MODE_CLOAKED && leaf.mode != MODE_CLOAKED
                && policy.freeze_keys is None ==> leaf.freeze_root == served.freeze_root
            &&& policy.allow_creds is Some ==> leaf.allow_root == roots.allow
            &&& policy.freeze_keys is Some ==> leaf.freeze_root == roots.freeze
        },
{
    let key: [u64; 4] = match rotated_key {
        Some(k) => k,
        None => served.issuer_key,
    };
    match leaf_with(served, policy, key, roots, redeem_flag) {
        Err(e) => Err(e),
        Ok(leaf) => {
            if same_leaf(&leaf, &served) {
                Err(leaf_refused("the update changes nothing in the served leaf"))
            } else {
                Ok(leaf)
            }
        },
    }
}

/// The issuer-held note that a mint rides on: the smallest of the asset.
pub fn mint_base(index: &AssetIndex, asset: u16) -> (r: Result<usize, SendRefusal>)
    ensures
        match least(values(index.held(asset)), 0) {
            Some(b) => r matches Ok(at) && at == b,
            None => r == Err::<usize, SendRefusal>(SendRefusal::NoIssuerNote { asset }),
        },
        r is Ok <==> index.held(asset).len() > 0,
        r matches Ok(at) ==> at < index.held(asset).len() && forall|i: int|
            0 <= i < index.held(asset).len() ==> index.held(asset)[at as int].value <= (
            #[trigger] index.held(asset)[i]).value,
{
    match smallest_covering(index.spendable(asset), 0) {
        Some(at) => Ok(at),
        None => Err(SendRefusal::NoIssuerNote { asset }),
    }
}

/// The secret that a redeem is proved with: the issuer's, or none where the
/// asset is open to redeem.
pub fn redeem_secret(asset: u16, isk: Option<[u64; 4]>, redeem_open: bool) -> (r: Result<
    [u64; 4],
    SendRefusal,
>)
    ensures
        match isk {
            Some(k) => r == Ok::<[u64; 4], SendRefusal>(k),
            None => if redeem_open {
                r matches Ok(k) && k@ == seq![0u64, 0, 0, 0]
            } else {
                r == Err::<[u64; 4], SendRefusal>(SendRefusal::NotTheIssuer { asset })
            },
        },
{
    match isk {
        Some(k) => Ok(k),
        None => {
            if redeem_open {
                let none: [u64; 4] = [0, 0, 0, 0];
                assert(none@ =~= seq![0u64, 0, 0, 0]);
                Ok(none)
            } else {
                Err(SendRefusal::NotTheIssuer { asset })
            }
        },
    }
}

/// The note that a redeem burns from and what is left of it: the smallest of
/// the asset that covers the amount. Where none does, the refusal names the
/// largest there is.
pub fn redeem_note(index: &AssetIndex, asset: u16, amount: u64) -> (r: Result<
    (usize, u64),
    SendRefusal,
>)
    ensures
        match least(values(index.held(asset)), amount) {
            Some(b) => r matches Ok((at, rest)) && at == b && rest == values(index.held(asset))[b]
                - amount,
            None => r == Err::<(usize, u64), SendRefusal>(
                SendRefusal::NoSingleNoteCovers {
                    asset,
                    amount,
                    largest: greatest(values(index.held(asset))),
                },
            ),
        },
        // The amount and the rest are the whole of a note, the smallest that
        // has as much.
        r matches Ok((at, rest)) ==> at < index.held(asset).len() && index.held(
            asset,
        )[at as int].value == amount + rest && forall|i: int|
            0 <= i < index.held(asset).len() && (#[trigger] index.held(asset)[i]).value >= amount
                ==> index.held(asset)[at as int].value <= index.held(asset)[i].value,
        r is Err ==> forall|i: int|
            0 <= i < index.held(asset).len() ==> (#[trigger] index.held(asset)[i]).value < amount,
        r matches Err(SendRefusal::NoSingleNoteCovers { largest, .. }) ==> forall|i: int|
            0 <= i < index.held(asset).len() ==> (#[trigger] index.held(asset)[i]).value <= largest,
{
    let notes = index.spendable(asset);
    match smallest_covering(notes, amount) {
        Some(at) => {
            proof {
                lemma_least(values(notes@), amount, notes@.len() as int);
            }
            Ok((at, notes[at].value - amount))
        },
        None => Err(
            SendRefusal::NoSingleNoteCovers { asset, amount, largest: largest(notes) },
        ),
    }
}

} // verus!
