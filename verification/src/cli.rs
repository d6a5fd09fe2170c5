//! The command line: which command is meant, what its flags say, which net and
//! which amount are used.
//!
//! Where a default decides, the line that is shown says so; where two sources
//! disagree, none is preferred silently.
use crate::text::{number_of, push_dec, str_eq};
#[allow(unused_imports)]
use crate::text::{dec, dec_value, digit, number_text, parse_fault_text};
use vstd::prelude::*;

verus! {

/// The place of the first argument, from the `i`-th on, that is a word.
pub open spec fn place_from(args: Seq<String>, word: Seq<char>, i: int) -> int
    decreases args.len() - i,
{
    if 0 <= i < args.len() {
        if args[i]@ == word {
            i
        } else {
            place_from(args, word, i + 1)
        }
    } else {
        args.len() as int
    }
}

/// The value of a flag among the arguments from the `from`-th on: the argument
/// behind the first that is the flag.
pub open spec fn flag_from(args: Seq<String>, from: int, name: Seq<char>) -> Option<Seq<char>> {
    let i = place_from(args, name, from);
    if 0 <= i && i + 1 < args.len() {
        Some(args[i + 1]@)
    } else {
        None
    }
}

/// Whether a word is among the arguments from the `from`-th on.
pub open spec fn given_from(args: Seq<String>, from: int, word: Seq<char>) -> bool {
    place_from(args, word, from) < args.len()
}

/// The place of a word is that of the first argument that is the word, and
/// behind the last where none is. A flag's value is the argument right behind the
/// flag's first place, and there is none where nothing stands there.
pub proof fn law_a_flag_is_followed_by_its_value(args: Seq<String>, from: int, name: Seq<char>)
    requires
        0 <= from <= args.len(),
    ensures
        ({
            let i = place_from(args, name, from);
            &&& from <= i <= args.len()
            &&& i < args.len() ==> args[i]@ == name
            &&& forall|k: int| from <= k < i ==> (#[trigger] args[k])@ != name
        }),
        given_from(args, from, name) <==> exists|k: int|
            from <= k < args.len() && (#[trigger] args[k])@ == name,
        flag_from(args, from, name) matches Some(v) ==> exists|k: int|
            {
                &&& from <= k < args.len() - 1
                &&& (#[trigger] args[k])@ == name
                &&& args[k + 1]@ == v
                &&& forall|j: int| from <= j < k ==> (#[trigger] args[j])@ != name
            },
        flag_from(args, from, name) is None ==> forall|k: int|
            from <= k < args.len() - 1 ==> (#[trigger] args[k])@ != name,
{
    lemma_place(args, name, from);
}

proof fn lemma_place(args: Seq<String>, word: Seq<char>, i: int)
    requires
        0 <= i <= args.len(),
    ensures
        i <= place_from(args, word, i) <= args.len(),
        place_from(args, word, i) < args.len() ==> args[place_from(args, word, i)]@ == word,
        forall|k: int| i <= k < place_from(args, word, i) ==> (#[trigger] args[k])@ != word,
    decreases args.len() - i,
{
    if i < args.len() && args[i]@ != word {
        lemma_place(args, word, i + 1);
    }
}

fn place_at(args: &[String], from: usize, word: &str) -> (r: usize)
    requires
        from <= args@.len(),
    ensures
        r == place_from(args@, word@, from as int),
        from <= r <= args@.len(),
{
    let mut i: usize = from;
    while i < args.len()
        invariant
            from <= i <= args@.len(),
            place_from(args@, word@, from as int) == place_from(args@, word@, i as int),
        decreases args@.len() - i,
    {
        if str_eq(args[i].as_str(), word) {
            return i;
        }
        i += 1;
    }
    i
}

/// The value of a flag among the arguments from the `from`-th on.
pub fn flag_at<'a>(args: &'a [String], from: usize, name: &str) -> (r: Option<&'a str>)
    ensures
        match (r, flag_from(args@, from as int, name@)) {
            (Some(a), Some(b)) => a@ == b,
            (None, None) => true,
            _ => false,
        },
{
    if from > args.len() {
        return None;
    }
    let i: usize = place_at(args, from, name);
    if i < args.len() && args.len() - i > 1 {
        Some(args[i + 1].as_str())
    } else {
        None
    }
}

/// The value of a flag: the argument behind the first that is the flag.
pub fn flag<'a>(args: &'a [String], name: &str) -> (r: Option<&'a str>)
    ensures
        match (r, flag_from(args@, 0, name@)) {
            (Some(a), Some(b)) => a@ == b,
            (None, None) => true,
            _ => false,
        },
{
    flag_at(args, 0, name)
}

/// Whether a flag is among the arguments from the `from`-th on.
pub fn has_flag_at(args: &[String], from: usize, name: &str) -> (r: bool)
    ensures
        r == given_from(args@, from as int, name@),
{
    from <= args.len() && place_at(args, from, name) < args.len()
}

/// Whether a flag is given.
pub fn has_flag(args: &[String], name: &str) -> (r: bool)
    ensures
        r == given_from(args@, 0, name@),
{
    place_at(args, 0, name) < args.len()
}

/// A result that fails with exactly these words.
pub open spec fn fails<T>(r: Result<T, String>, why: Seq<char>) -> bool {
    r matches Err(e) && e@ == why
}

/// The text of an optional string.
pub open spec fn words_of_opt(s: Option<String>) -> Option<Seq<char>> {
    match s {
        Some(t) => Some(t@),
        None => None,
    }
}

/// A flag's value, which has to be given.
pub fn need(args: &[String], from: usize, name: &str, why: &str) -> (r: Result<String, String>)
    ensures
        match flag_from(args@, from as int, name@) {
            Some(t) => r matches Ok(s) && s@ == t,
            None => fails(r, why@),
        },
{
    match flag_at(args, from, name) {
        Some(t) => Ok(t.to_owned()),
        None => Err(why.to_owned()),
    }
}

/// A flag whose value has to be given and be a number.
pub open spec fn number_from(args: Seq<String>, from: int, name: Seq<char>, why: Seq<char>) -> Result<
    u64,
    Seq<char>,
> {
    match flag_from(args, from, name) {
        None => Err(why),
        Some(t) => match number_text(t, u64::MAX as nat) {
            Some(n) => Ok(n as u64),
            None => Err(parse_fault_text(t)),
        },
    }
}

/// A flag's number, which has to be given.
pub fn need_number(args: &[String], from: usize, name: &str, why: &str) -> (r: Result<u64, String>)
    ensures
        match number_from(args@, from as int, name@, why@) {
            Ok(n) => r matches Ok(v) && v == n,
            Err(e) => fails(r, e),
        },
{
    match flag_at(args, from, name) {
        Some(t) => number_of(t),
        None => Err(why.to_owned()),
    }
}

/// A flag's value, where it is given.
pub fn optional(args: &[String], from: usize, name: &str) -> (r: Option<String>)
    ensures
        words_of_opt(r) == flag_from(args@, from as int, name@),
{
    match flag_at(args, from, name) {
        Some(t) => Some(t.to_owned()),
        None => None,
    }
}

pub const DIR_MISSING: &'static str = "--dir DIR is required";

/// The wallet's directory.
pub fn dir_of(args: &[String]) -> (r: Result<String, String>)
    ensures
        match flag_from(args@, 0, "--dir"@) {
            Some(t) => r matches Ok(s) && s@ == t,
            None => fails(r, DIR_MISSING@),
        },
{
    need(args, 0, "--dir", DIR_MISSING)
}

/// The commands.
#[derive(Clone, Copy, Debug, PartialEq, Eq)]
pub enum Command {
    Keygen,
    Restore,
    Address,
    Contact,
    Backup,
    Scan,
    History,
    MinerRkm,
    Send,
    Names,
    Issuer,
    Help,
}

/// The command that a word names.
pub open spec fn command_of(word: Seq<char>) -> Option<Command> {
    if word == "keygen"@ {
        Some(Command::Keygen)
    } else if word == "restore"@ {
        Some(Command::Restore)
    } else if word == "address"@ {
        Some(Command::Address)
    } else if word == "contact"@ {
        Some(Command::Contact)
    } else if word == "backup"@ {
        Some(Command::Backup)
    } else if word == "scan"@ {
        Some(Command::Scan)
    } else if word == "history"@ {
        Some(Command::History)
    } else if word == "miner-rkm"@ {
        Some(Command::MinerRkm)
    } else if word == "send"@ {
        Some(Command::Send)
    } else if word == "names"@ {
        Some(Command::Names)
    } else if word == "issuer"@ {
        Some(Command::Issuer)
    } else if word == "-h"@ || word == "--help"@ {
        Some(Command::Help)
    } else {
        None
    }
}

fn named_command(word: &str) -> (r: Option<Command>)
    ensures
        r == command_of(word@),
{
    if str_eq(word, "keygen") {
        Some(Command::Keygen)
    } else if str_eq(word, "restore") {
        Some(Command::Restore)
    } else if str_eq(word, "address") {
        Some(Command::Address)
    } else if str_eq(word, "contact") {
        Some(Command::Contact)
    } else if str_eq(word, "backup") {
        Some(Command::Backup)
    } else if str_eq(word, "scan") {
        Some(Command::Scan)
    } else if str_eq(word, "history") {
        Some(Command::History)
    } else if str_eq(word, "miner-rkm") {
        Some(Command::MinerRkm)
    } else if str_eq(word, "send") {
        Some(Command::Send)
    } else if str_eq(word, "names") {
        Some(Command::Names)
    } else if str_eq(word, "issuer") {
        Some(Command::Issuer)
    } else if str_eq(word, "-h") || str_eq(word, "--help") {
        Some(Command::Help)
    } else {
        None
    }
}

/// The command that the first argument names; help where there is none.
pub fn dispatch(args: &[String]) -> (r: Result<Command, String>)
    ensures
        if args@.len() == 0 {
            r == Ok::<Command, String>(Command::Help)
        } else {
            match command_of(args@[0]@) {
                Some(c) => r == Ok::<Command, String>(c),
                None => fails(r, "unknown command `"@ + args@[0]@ + "`"@),
            }
        },
{
    if args.len() == 0 {
        return Ok(Command::Help);
    }
    match named_command(args[0].as_str()) {
        Some(c) => Ok(c),
        None => {
            let mut e: String = "unknown command `".to_owned();
            e.append(args[0].as_str());
            e.append("`");
            Err(e)
        },
    }
}

/// The form of a chain's genesis, under which its coinbase notes are derived.
#[derive(Clone, Copy, Debug, PartialEq, Eq)]
pub enum GenesisForm {
    V4,
    V5,
    Annulet,
}

/// What decided the net.
#[derive(Clone, Copy, Debug, PartialEq, Eq)]
pub enum NetSource {
    /// The flag.
    Flag,
    /// The net that the build was made for.
    Stamp,
    /// Neither: the default of a build that was made for no net.
    Fallback,
}

impl NetSource {
    pub open spec fn words(self) -> Seq<char> {
        match self {
            NetSource::Flag => "from --net"@,
            NetSource::Stamp => "stamped into this build by the release lane"@,
            NetSource::Fallback => "default for an unstamped build — pass --net to be explicit"@,
        }
    }

    /// The phrase that stands behind the net's name.
    pub fn describe(self) -> (r: &'static str)
        ensures
            r@ == self.words(),
    {
        match self {
            NetSource::Flag => "from --net",
            NetSource::Stamp => "stamped into this build by the release lane",
            NetSource::Fallback => "default for an unstamped build — pass --net to be explicit",
        }
    }
}

/// The three sources are told apart by their phrases, and none is silent.
pub proof fn law_every_source_describes_itself(a: NetSource, b: NetSource)
    ensures
        a.words().len() > 0,
        a != b ==> a.words() != b.words(),
{
    reveal_strlit("from --net");
    reveal_strlit("stamped into this build by the release lane");
    reveal_strlit("default for an unstamped build — pass --net to be explicit");
    assert("from --net"@[0] != "stamped into this build by the release lane"@[0]);
    assert("from --net"@[0] != "default for an unstamped build — pass --net to be explicit"@[0]);
    assert("stamped into this build by the release lane"@[0]
        != "default for an unstamped build — pass --net to be explicit"@[0]);
}

/// The flag's word for a form.
pub fn net_name(form: GenesisForm) -> (r: &'static str)
    ensures
        r@ == form_text(form),
{
    match form {
        GenesisForm::V4 => "t1",
        GenesisForm::V5 => "t2",
        GenesisForm::Annulet => "annulet",
    }
}

pub open spec fn form_text(form: GenesisForm) -> Seq<char> {
    match form {
        GenesisForm::V4 => "t1"@,
        GenesisForm::V5 => "t2"@,
        GenesisForm::Annulet => "annulet"@,
    }
}

/// The net that is meant, and what decided it: the flag, else the net of the
/// build, else `t1`.
pub open spec fn chosen_net(flag: Option<Seq<char>>, stamped: Option<Seq<char>>) -> (
    Seq<char>,
    NetSource,
) {
    match (flag, stamped) {
        (Some(n), _) => (n, NetSource::Flag),
        (None, Some(n)) => (n, NetSource::Stamp),
        (None, None) => ("t1"@, NetSource::Fallback),
    }
}

/// What a net that is not known is refused with, by who named it.
pub open spec fn unknown_net_text(net: Seq<char>, source: NetSource) -> Seq<char> {
    if net == "annulet"@ && source == NetSource::Flag {
        "--net annulet is accepted by `scan` and `send` only (lab #718/#720): history and names are L1 flows here"@
    } else if source == NetSource::Stamp {
        "this build is stamped for net "@ + net
            + ", which this wallet cannot name (it knows: t1, t2). That is a release-lane defect, not something you did — the binary and the wallet were built from trees that disagree about which nets exist. Refusing rather than falling back to a default, because falling back is how a T2 artifact would quietly behave as T1"@
    } else {
        "--net "@ + net
            + " is not a net this wallet knows (it knows: t1, t2). The net decides how a mined coinbase note is derived, so guessing it would produce notes with no leaf in any tree — refusing rather than picking one"@
    }
}

fn unknown_net(net: &str, source: NetSource) -> (r: String)
    ensures
        r@ == unknown_net_text(net@, source),
{
    let by_flag = matches!(source, NetSource::Flag);
    if str_eq(net, "annulet") && by_flag {
        return "--net annulet is accepted by `scan` and `send` only (lab #718/#720): history and names are L1 flows here".to_owned();
    }
    if matches!(source, NetSource::Stamp) {
        let mut e: String = "this build is stamped for net ".to_owned();
        e.append(net);
        e.append(
            ", which this wallet cannot name (it knows: t1, t2). That is a release-lane defect, not something you did — the binary and the wallet were built from trees that disagree about which nets exist. Refusing rather than falling back to a default, because falling back is how a T2 artifact would quietly behave as T1",
        );
        e
    } else {
        let mut e: String = "--net ".to_owned();
        e.append(net);
        e.append(
            " is not a net this wallet knows (it knows: t1, t2). The net decides how a mined coinbase note is derived, so guessing it would produce notes with no leaf in any tree — refusing rather than picking one",
        );
        e
    }
}

/// The form of the net that is meant, and what decided it.
pub fn resolve_net(flag: Option<&str>, stamped: Option<&str>) -> (r: Result<
    (GenesisForm, NetSource),
    String,
>)
    ensures
        ({
            let c = chosen_net(opt_str(flag), opt_str(stamped));
            if c.0 == "t1"@ {
                r == Ok::<(GenesisForm, NetSource), String>((GenesisForm::V4, c.1))
            } else if c.0 == "t2"@ {
                r == Ok::<(GenesisForm, NetSource), String>((GenesisForm::V5, c.1))
            } else {
                fails(r, unknown_net_text(c.0, c.1))
            }
        }),
{
    let (net, source) = match (flag, stamped) {
        (Some(n), _) => (n, NetSource::Flag),
        (None, Some(n)) => (n, NetSource::Stamp),
        (None, None) => ("t1", NetSource::Fallback),
    };
    if str_eq(net, "t1") {
        Ok((GenesisForm::V4, source))
    } else if str_eq(net, "t2") {
        Ok((GenesisForm::V5, source))
    } else {
        Err(unknown_net(net, source))
    }
}

/// The text of an optional string.
pub open spec fn opt_str(s: Option<&str>) -> Option<Seq<char>> {
    match s {
        Some(t) => Some(t@),
        None => None,
    }
}

/// The flag wins over the net of the build, and that over the default; a net of
/// the build that is not known never falls back to the default.
pub proof fn law_the_flag_wins(flag: Option<Seq<char>>, stamped: Option<Seq<char>>)
    ensures
        flag is Some ==> chosen_net(flag, stamped) == (flag->0, NetSource::Flag),
        flag is None && stamped is Some ==> chosen_net(flag, stamped) == (
            stamped->0,
            NetSource::Stamp,
        ),
        chosen_net(flag, stamped).1 == NetSource::Fallback <==> flag is None && stamped is None,
{
}

/// The line that says which net is used, and why.
pub fn net_line(form: GenesisForm, source: NetSource) -> (r: String)
    ensures
        r@ == "net: "@ + form_text(form) + " ("@ + source.words() + ")"@,
{
    let mut s: String = "net: ".to_owned();
    s.append(net_name(form));
    s.append(" (");
    s.append(source.describe());
    s.append(")");
    s
}

/// How many bessel a QMB is.
pub const BESSEL_PER_QMB: u64 = 100_000_000;

/// The last `n` decimal digits of a number, leading zeros included.
pub open spec fn digits(v: nat, n: nat) -> Seq<char>
    decreases n,
{
    if n == 0 {
        Seq::empty()
    } else {
        digits(v / 10, (n - 1) as nat).push(digit((v % 10) as int))
    }
}

/// The fraction of a QMB: eight decimals without the zeros at their end, behind
/// a point; nothing where it is zero.
pub open spec fn fraction_text(v: nat, n: nat) -> Seq<char>
    decreases n,
{
    if v == 0 || n == 0 {
        Seq::empty()
    } else if v % 10 == 0 {
        fraction_text(v / 10, (n - 1) as nat)
    } else {
        "."@ + digits(v, n)
    }
}

/// An amount in QMB.
pub open spec fn qmb_text(bessel: u64) -> Seq<char> {
    dec((bessel / BESSEL_PER_QMB) as nat) + fraction_text((bessel % BESSEL_PER_QMB) as nat, 8)
}

fn push_digits(s: &mut String, v: u64, n: u64)
    ensures
        final(s)@ == old(s)@ + digits(v as nat, n as nat),
    decreases n,
{
    if n > 0 {
        push_digits(s, v / 10, n - 1);
        let d: u64 = v % 10;
        let c = match d {
            0 => '0',
            1 => '1',
            2 => '2',
            3 => '3',
            4 => '4',
            5 => '5',
            6 => '6',
            7 => '7',
            8 => '8',
            _ => '9',
        };
        s.push(c);
    }
    assert(s@ =~= old(s)@ + digits(v as nat, n as nat));
}

/// An amount in QMB.
pub fn bessel_to_qmb(bessel: u64) -> (r: String)
    ensures
        r@ == qmb_text(bessel),
{
    let mut s: String = String::new();
    push_dec(&mut s, bessel / BESSEL_PER_QMB);
    let mut v: u64 = bessel % BESSEL_PER_QMB;
    let mut n: u64 = 8;
    let ghost whole = fraction_text(v as nat, 8);
    let ghost head = s@;
    while v != 0 && n > 0 && v % 10 == 0
        invariant
            n <= 8,
            fraction_text(v as nat, n as nat) == whole,
        decreases n,
    {
        v = v / 10;
        n -= 1;
    }
    if v != 0 && n > 0 {
        s.append(".");
        push_digits(&mut s, v, n);
    }
    assert(s@ =~= head + whole);
    assert(head =~= dec((bessel / BESSEL_PER_QMB) as nat));
    s
}

/// What is said of two amounts that disagree.
pub open spec fn disagreeing_text(uri: u64, given: u64) -> Seq<char> {
    "the URI requests "@ + dec(uri as nat) + " bessel ("@ + qmb_text(uri)
        + " QMB) but --amount says "@ + dec(given as nat) + " bessel ("@ + qmb_text(given)
        + " QMB) — refusing to choose; drop --amount to honor the URI, or drop the URI amount"@
}

pub const AMOUNT_MISSING: &'static str = "send requires --amount BESSEL (or a qumbra: URI carrying amount=)";

/// The amount of a send: the URI's, or the flag's, or both where they agree.
pub fn resolve_send_amount(uri_bessel: Option<u64>, flag_bessel: Option<u64>) -> (r: Result<
    u64,
    String,
>)
    ensures
        match (uri_bessel, flag_bessel) {
            (Some(u), Some(f)) => if u == f {
                r == Ok::<u64, String>(u)
            } else {
                fails(r, disagreeing_text(u, f))
            },
            (Some(u), None) => r == Ok::<u64, String>(u),
            (None, Some(f)) => r == Ok::<u64, String>(f),
            (None, None) => fails(r, AMOUNT_MISSING@),
        },
{
    match (uri_bessel, flag_bessel) {
        (Some(u), Some(f)) => {
            if u == f {
                return Ok(u);
            }
            let mut e: String = "the URI requests ".to_owned();
            push_dec(&mut e, u);
            e.append(" bessel (");
            e.append(bessel_to_qmb(u).as_str());
            e.append(" QMB) but --amount says ");
            push_dec(&mut e, f);
            e.append(" bessel (");
            e.append(bessel_to_qmb(f).as_str());
            e.append(
                " QMB) — refusing to choose; drop --amount to honor the URI, or drop the URI amount",
            );
            Err(e)
        },
        (Some(u), None) => Ok(u),
        (None, Some(f)) => Ok(f),
        (None, None) => Err(AMOUNT_MISSING.to_owned()),
    }
}

/// Ten to the power of `n`.
pub open spec fn ten_to(n: nat) -> nat
    decreases n,
{
    if n == 0 {
        1
    } else {
        10 * ten_to((n - 1) as nat)
    }
}

proof fn lemma_digits(v: nat, n: nat)
    requires
        v < ten_to(n),
    ensures
        digits(v, n).len() == n,
        dec_value(digits(v, n)) == v,
    decreases n,
{
    if n > 0 {
        lemma_digits(v / 10, (n - 1) as nat);
        let d = digits(v, n);
        assert(d.drop_last() =~= digits(v / 10, (n - 1) as nat));
        assert(digit((v % 10) as int) as int == '0' as int + v % 10);
    }
}

proof fn lemma_fraction(v: nat, n: nat)
    requires
        v < ten_to(n),
    ensures
        v == 0 <==> fraction_text(v, n).len() == 0,
        v > 0 ==> {
            let t = fraction_text(v, n);
            &&& t[0] == '.'
            &&& 2 <= t.len() <= n + 1
            &&& dec_value(t.skip(1)) * ten_to((n + 1 - t.len()) as nat) == v
            &&& t.last() != '0'
        },
    decreases n,
{
    reveal_strlit(".");
    if v > 0 && n > 0 {
        if v % 10 == 0 {
            lemma_fraction(v / 10, (n - 1) as nat);
            let t = fraction_text(v / 10, (n - 1) as nat);
            let k = (n - t.len()) as nat;
            assert(v / 10 > 0);
            assert(t == fraction_text(v, n));
            assert(ten_to((k + 1) as nat) == 10 * ten_to(k));
            assert(dec_value(t.skip(1)) * ten_to(k) == v / 10);
            assert(dec_value(t.skip(1)) * (10 * ten_to(k)) == 10 * (dec_value(t.skip(1))
                * ten_to(k))) by (nonlinear_arith);
        } else {
            lemma_digits(v, n);
            let t = "."@ + digits(v, n);
            assert(t.skip(1) =~= digits(v, n));
            assert(t.last() == digit((v % 10) as int));
            assert(digit((v % 10) as int) as int == '0' as int + v % 10);
            assert(ten_to(0) == 1);
            assert(dec_value(t.skip(1)) * ten_to(0) == v) by (nonlinear_arith)
                requires
                    ten_to(0) == 1,
                    dec_value(t.skip(1)) == v,
            ;
            assert(t.len() == n + 1);
        }
    }
}

/// An amount in QMB is written as its whole part and, where there is one, a
/// fraction of at most eight decimals that ends in no zero: the decimals, filled up
/// to eight, are the rest of the amount.
pub proof fn law_an_amount_is_written_exactly(bessel: u64)
    ensures
        ({
            let whole = dec((bessel / 100_000_000) as nat);
            let t = qmb_text(bessel);
            let fraction = t.skip(whole.len() as int);
            &&& t.take(whole.len() as int) == whole
            &&& (bessel % 100_000_000 == 0 <==> t == whole)
            &&& bessel % 100_000_000 != 0 ==> {
                &&& fraction[0] == '.'
                &&& 2 <= fraction.len() <= 9
                &&& dec_value(fraction.skip(1)) * ten_to((9 - fraction.len()) as nat) == bessel
                    % 100_000_000
                &&& fraction.last() != '0'
            }
        }),
{
    let whole = dec((bessel / BESSEL_PER_QMB) as nat);
    let f = fraction_text((bessel % BESSEL_PER_QMB) as nat, 8);
    reveal_with_fuel(ten_to, 9);
    assert(ten_to(8) == 100_000_000);
    lemma_fraction((bessel % BESSEL_PER_QMB) as nat, 8);
    let t = qmb_text(bessel);
    assert(t.take(whole.len() as int) =~= whole);
    assert(t.skip(whole.len() as int) =~= f);
    if f.len() == 0 {
        assert(t =~= whole);
    }
}

/// Each word names one command, and nothing else is one.
pub proof fn law_each_word_names_its_command(word: Seq<char>)
    ensures
        match command_of(word) {
            Some(Command::Keygen) => word == "keygen"@,
            Some(Command::Restore) => word == "restore"@,
            Some(Command::Address) => word == "address"@,
            Some(Command::Contact) => word == "contact"@,
            Some(Command::Backup) => word == "backup"@,
            Some(Command::Scan) => word == "scan"@,
            Some(Command::History) => word == "history"@,
            Some(Command::MinerRkm) => word == "miner-rkm"@,
            Some(Command::Send) => word == "send"@,
            Some(Command::Names) => word == "names"@,
            Some(Command::Issuer) => word == "issuer"@,
            Some(Command::Help) => word == "-h"@ || word == "--help"@,
            None => word != "keygen"@ && word != "restore"@ && word != "address"@ && word
                != "contact"@ && word != "backup"@ && word != "scan"@ && word != "history"@ && word
                != "miner-rkm"@ && word != "send"@ && word != "names"@ && word != "issuer"@ && word
                != "-h"@ && word != "--help"@,
        },
{
}

} // verus!
