//! Plain text: the characters of a string, decimal and hexadecimal numbers,
//! lines and separators.
use vstd::prelude::*;
#[allow(unused_imports)]
use vstd::utf8::{decode_utf8, valid_utf8};

verus! {

/// `String::push` appends one character to the end of the string.
pub assume_specification[ String::push ](s: &mut String, c: char)
    ensures
        final(s)@ == old(s)@.push(c),
;

/// The text that `format!("{:?}", s)` prints for a string: quoted, with the
/// characters that need it escaped.
pub uninterp spec fn debug_text(s: Seq<char>) -> Seq<char>;

/// Formats a string with std's `Debug` (through `format!`); the result is the
/// named text, a function of the characters alone.
#[verifier::external_body]
pub(crate) fn debug_of(s: &str) -> (r: String)
    ensures
        r@ == debug_text(s@),
{
    format!("{:?}", s)
}

/// `String::from_utf8` gives the string that the bytes encode if they are
/// UTF-8, and nothing otherwise.
#[verifier::external_body]
pub(crate) fn utf8_string(bytes: Vec<u8>) -> (r: Option<String>)
    ensures
        match r {
            Some(s) => valid_utf8(bytes@) && s@ == decode_utf8(bytes@),
            None => !valid_utf8(bytes@),
        },
{
    String::from_utf8(bytes).ok()
}

/// The characters of `s`, in order.
pub fn chars_of(s: &str) -> (v: Vec<char>)
    ensures
        v@ == s@,
{
    let mut v: Vec<char> = Vec::new();
    for c in it: s.chars()
        invariant
            it.seq() == s@,
            v@ == s@.take(it.index() as int),
    {
        proof {
            assert(s@.take(it.index() + 1) =~= s@.take(it.index() as int).push(s@[it.index() as int]));
        }
        v.push(c);
    }
    assert(s@.take(s@.len() as int) =~= s@);
    v
}

/// The string with the given characters.
pub fn string_of(v: &[char]) -> (s: String)
    ensures
        s@ == v@,
{
    let mut s: String = String::new();
    let mut i: usize = 0;
    while i < v.len()
        invariant
            i <= v@.len(),
            s@ == v@.take(i as int),
        decreases v@.len() - i,
    {
        s.push(v[i]);
        i += 1;
        assert(v@.take(i as int) =~= v@.take(i - 1).push(v@[i - 1]));
    }
    assert(v@.take(v@.len() as int) =~= v@);
    s
}

/// Whether two sequences of characters are the same.
pub fn chars_eq(a: &[char], b: &[char]) -> (r: bool)
    ensures
        r == (a@ == b@),
{
    if a.len() != b.len() {
        return false;
    }
    let mut i: usize = 0;
    while i < a.len()
        invariant
            i <= a@.len(),
            a@.len() == b@.len(),
            forall|j: int| 0 <= j < i ==> a@[j] == b@[j],
        decreases a@.len() - i,
    {
        if a[i] != b[i] {
            assert(a@[i as int] != b@[i as int]);
            return false;
        }
        i += 1;
    }
    assert(a@ =~= b@);
    true
}

/// Whether two strings are the same.
pub fn str_eq(a: &str, b: &str) -> (r: bool)
    ensures
        r == (a@ == b@),
{
    let x = chars_of(a);
    let y = chars_of(b);
    chars_eq(&x, &y)
}

/// Characters that are the text `s`.
pub fn text_is(v: &[char], s: &str) -> (r: bool)
    ensures
        r == (v@ == s@),
{
    let y = chars_of(s);
    chars_eq(v, &y)
}

/// The decimal digit of `d`, for `0 <= d < 10`.
pub open spec fn digit(d: int) -> char {
    ('0' as int + d) as char
}

/// The decimal text of `n`, without leading zeros.
pub open spec fn dec(n: nat) -> Seq<char>
    decreases n,
{
    if n < 10 {
        seq![digit(n as int)]
    } else {
        dec(n / 10).push(digit((n % 10) as int))
    }
}

/// Appends the decimal text of `n`.
pub fn push_dec_wide(s: &mut String, n: u128)
    ensures
        final(s)@ == old(s)@ + dec(n as nat),
    decreases n,
{
    if n >= 10 {
        push_dec_wide(s, n / 10);
    }
    let d: u8 = (n % 10) as u8;
    s.push((48u8 + d) as char);
}

/// Appends the decimal text of `n`.
pub fn push_dec(s: &mut String, n: u64)
    ensures
        final(s)@ == old(s)@ + dec(n as nat),
{
    push_dec_wide(s, n as u128);
}

/// The decimal text of `n` as a string.
pub fn dec_of(n: u64) -> (s: String)
    ensures
        s@ == dec(n as nat),
{
    let mut s: String = String::new();
    push_dec(&mut s, n);
    assert(s@ =~= dec(n as nat));
    s
}

pub open spec fn is_digit(c: char) -> bool {
    '0' <= c && c <= '9'
}

pub open spec fn all_digits(s: Seq<char>) -> bool {
    forall|i: int| 0 <= i < s.len() ==> is_digit(#[trigger] s[i])
}

/// The number that a row of decimal digits writes.
pub open spec fn dec_value(s: Seq<char>) -> nat
    decreases s.len(),
{
    if s.len() == 0 {
        0
    } else {
        dec_value(s.drop_last()) * 10 + (s.last() as nat - '0' as nat) as nat
    }
}

/// What `s` writes as a number no greater than `max`: an optional `+`, then
/// at least one decimal digit and nothing else.
pub open spec fn number_text(s: Seq<char>, max: nat) -> Option<nat> {
    let d = if s.len() > 0 && s[0] == '+' {
        s.skip(1)
    } else {
        s
    };
    if d.len() > 0 && all_digits(d) && dec_value(d) <= max {
        Some(dec_value(d))
    } else {
        None
    }
}

proof fn lemma_dec_value_prefix(s: Seq<char>, i: int)
    requires
        0 <= i <= s.len(),
        all_digits(s),
    ensures
        dec_value(s.take(i)) <= dec_value(s),
    decreases s.len(),
{
    if i == s.len() {
        assert(s.take(i) =~= s);
    } else {
        assert(s.drop_last().take(i) =~= s.take(i));
        lemma_dec_value_prefix(s.drop_last(), i);
    }
}

/// Reads `s` as a decimal number no greater than `max`.
pub fn parse_number(s: &[char], max: u64) -> (r: Option<u64>)
    ensures
        match r {
            Some(n) => number_text(s@, max as nat) == Some(n as nat),
            None => number_text(s@, max as nat) is None,
        },
{
    let start: usize = if s.len() > 0 && s[0] == '+' {
        1
    } else {
        0
    };
    let ghost d = s@.skip(start as int);
    proof {
        assert(s@.skip(0) =~= s@);
    }
    if start == s.len() {
        return None;
    }
    let mut n: u64 = 0;
    let mut i: usize = start;
    while i < s.len()
        invariant
            start <= i <= s@.len(),
            d == s@.skip(start as int),
            all_digits(d.take(i - start)),
            n as nat == dec_value(d.take(i - start)),
            n <= max,
            start == (if s@.len() > 0 && s@[0] == '+' { 1int } else { 0int }),
            start == 0 ==> d == s@,
        decreases s@.len() - i,
    {
        let c = s[i];
        assert(d[i - start] == c);
        if !('0' <= c && c <= '9') {
            assert(!is_digit(d[i - start]));
            return None;
        }
        let v: u64 = (c as u32 - 48) as u64;
        let ghost p = d.take(i - start + 1);
        proof {
            assert(p.drop_last() =~= d.take(i - start));
            assert(p.last() == c);
            assert(dec_value(p) == dec_value(d.take(i - start)) * 10 + v);
            if all_digits(d) {
                lemma_dec_value_prefix(d, i - start + 1);
            }
        }
        let wide: u128 = (n as u128) * 10 + v as u128;
        if wide > max as u128 {
            return None;
        }
        n = wide as u64;
        i += 1;
        assert(d.take(i - start) =~= p);
        assert forall|j: int| 0 <= j < p.len() implies is_digit(#[trigger] p[j]) by {
            if j < p.len() - 1 {
                assert(p[j] == d.take(i - start - 1)[j]);
            }
        }
    }
    assert(d.take(d.len() as int) =~= d);
    Some(n)
}

/// Reads `s` as a `u64`.
pub fn parse_u64(s: &[char]) -> (r: Option<u64>)
    ensures
        match r {
            Some(n) => number_text(s@, u64::MAX as nat) == Some(n as nat),
            None => number_text(s@, u64::MAX as nat) is None,
        },
{
    parse_number(s, u64::MAX)
}

/// What std says of a text that is no `u64`.
pub uninterp spec fn parse_fault_text(s: Seq<char>) -> Seq<char>;

/// The text of the error that std's `str::parse::<u64>` gives, the named text;
/// of a text that is a number nothing is said.
#[verifier::external_body]
fn parse_fault(s: &str) -> (r: String)
    ensures
        number_text(s@, u64::MAX as nat) is None ==> r@ == parse_fault_text(s@),
{
    match s.parse::<u64>() {
        Ok(_) => String::new(),
        Err(e) => e.to_string(),
    }
}

/// Reads a number, or says why it is none.
pub fn number_of(s: &str) -> (r: Result<u64, String>)
    ensures
        match number_text(s@, u64::MAX as nat) {
            Some(n) => r matches Ok(v) && v == n,
            None => r matches Err(e) && e@ == parse_fault_text(s@),
        },
{
    let v = chars_of(s);
    match parse_u64(&v) {
        Some(n) => Ok(n),
        None => Err(parse_fault(s)),
    }
}

/// A number's decimal text is digits only, and at least one.
pub proof fn lemma_dec_digits(n: nat)
    ensures
        dec(n).len() > 0,
        all_digits(dec(n)),
    decreases n,
{
    if n >= 10 {
        lemma_dec_digits(n / 10);
    }
}

proof fn lemma_dec_value_of_dec(n: nat)
    ensures
        dec_value(dec(n)) == n,
    decreases n,
{
    reveal_with_fuel(dec_value, 2);
    if n >= 10 {
        lemma_dec_value_of_dec(n / 10);
        assert(dec(n).drop_last() =~= dec(n / 10));
    } else {
        assert(dec(n).drop_last() =~= Seq::<char>::empty());
    }
}

/// Reading back a number's decimal text gives the number.
/// What is read as a number is decimal digits behind at most one plus sign, of a
/// value within the bound, and every number within it reads back from its own text,
/// which begins with a zero only where it is 0.
pub proof fn law_numbers_read_back(n: nat, s: Seq<char>, max: nat)
    ensures
        n <= max ==> number_text(dec(n), max) == Some(n),
        n > max ==> number_text(dec(n), max) is None,
        dec(n)[0] == '0' <==> n == 0,
        number_text(s, max) matches Some(v) ==> {
            let d = if s[0] == '+' {
                s.skip(1)
            } else {
                s
            };
            &&& v <= max && s.len() > 0 && d.len() > 0
            &&& forall|i: int| 0 <= i < d.len() ==> '0' <= #[trigger] d[i] <= '9'
            &&& v == dec_value(d)
        },
{
    lemma_dec_digits(n);
    lemma_dec_value_of_dec(n);
    lemma_dec_first(n);
    assert(dec(n)[0] != '+') by {
        assert(is_digit(dec(n)[0]));
    }
    if let Some(v) = number_text(s, max) {
        let d = if s[0] == '+' {
            s.skip(1)
        } else {
            s
        };
        assert forall|i: int| 0 <= i < d.len() implies '0' <= #[trigger] d[i] <= '9' by {
            assert(is_digit(d[i]));
        }
    }
}

proof fn lemma_dec_first(n: nat)
    ensures
        dec(n).len() > 0,
        dec(n)[0] == '0' <==> n == 0,
    decreases n,
{
    if n >= 10 {
        lemma_dec_first(n / 10);
        assert(dec(n)[0] == dec(n / 10)[0]);
    } else {
        assert(digit(n as int) as int == '0' as int + n);
    }
}

pub proof fn lemma_number_text_of_dec(n: nat, max: nat)
    ensures
        number_text(dec(n), max) == (if n <= max { Some(n) } else { None }),
{
    lemma_dec_digits(n);
    lemma_dec_value_of_dec(n);
    assert(is_digit(dec(n)[0]));
}

/// The lowercase hexadecimal digit of `d`, for `0 <= d < 16`.
pub open spec fn hex_digit(d: int) -> char {
    if d < 10 {
        ('0' as int + d) as char
    } else {
        ('a' as int + (d - 10)) as char
    }
}

/// Two lowercase hexadecimal digits per byte.
pub open spec fn hex_text(b: Seq<u8>) -> Seq<char> {
    Seq::new(
        2 * b.len(),
        |i: int| if i % 2 == 0 {
            hex_digit(b[i / 2] as int / 16)
        } else {
            hex_digit(b[i / 2] as int % 16)
        },
    )
}

fn hex_digit_of(d: u8) -> (c: char)
    requires
        d < 16,
    ensures
        c == hex_digit(d as int),
{
    if d < 10 {
        (48u8 + d) as char
    } else {
        (87u8 + d) as char
    }
}

/// Appends the lowercase hexadecimal text of `b`.
pub fn push_hex(s: &mut String, b: &[u8])
    ensures
        final(s)@ == old(s)@ + hex_text(b@),
{
    let ghost s0 = s@;
    let mut i: usize = 0;
    while i < b.len()
        invariant
            i <= b@.len(),
            s@ == s0 + hex_text(b@.take(i as int)),
        decreases b@.len() - i,
    {
        let x: u8 = b[i];
        s.push(hex_digit_of(x / 16));
        s.push(hex_digit_of(x % 16));
        i += 1;
        proof {
            let p = b@.take(i - 1);
            let q = b@.take(i as int);
            assert(hex_text(q) =~= hex_text(p).push(hex_digit(x as int / 16)).push(
                hex_digit(x as int % 16),
            ));
        }
    }
    assert(b@.take(b@.len() as int) =~= b@);
}

/// The lowercase hexadecimal text of `b` as a string.
pub fn hex_of(b: &[u8]) -> (s: String)
    ensures
        s@ == hex_text(b@),
{
    let mut s: String = String::new();
    push_hex(&mut s, b);
    assert(s@ =~= hex_text(b@));
    s
}

/// The value of a hexadecimal digit of either case, `None` for another
/// character.
pub open spec fn hex_value(c: char) -> Option<int> {
    if '0' <= c && c <= '9' {
        Some(c as int - '0' as int)
    } else if 'a' <= c && c <= 'f' {
        Some(c as int - 'a' as int + 10)
    } else if 'A' <= c && c <= 'F' {
        Some(c as int - 'A' as int + 10)
    } else {
        None
    }
}

/// The value of one hexadecimal digit.
pub fn hex_value_of(c: char) -> (r: Option<u8>)
    ensures
        match r {
            Some(v) => hex_value(c) == Some(v as int) && v < 16,
            None => hex_value(c) is None,
        },
{
    if '0' <= c && c <= '9' {
        Some((c as u32 - 48) as u8)
    } else if 'a' <= c && c <= 'f' {
        Some((c as u32 - 87) as u8)
    } else if 'A' <= c && c <= 'F' {
        Some((c as u32 - 55) as u8)
    } else {
        None
    }
}

/// A digit written out reads back as its value.
pub proof fn lemma_hex_value_of_digit(d: int)
    requires
        0 <= d < 16,
    ensures
        hex_value(hex_digit(d)) == Some(d),
{
}

pub open spec fn all_hex(s: Seq<char>) -> bool {
    forall|i: int| 0 <= i < s.len() ==> hex_value(#[trigger] s[i]) is Some
}

/// The bytes that pairs of hexadecimal digits write: an even number of
/// characters, every one a digit.
pub open spec fn unhex_text(s: Seq<char>) -> Option<Seq<u8>> {
    if s.len() % 2 == 0 && all_hex(s) {
        Some(
            Seq::new(
                s.len() / 2,
                |i: int| (hex_value(s[2 * i])->0 * 16 + hex_value(s[2 * i + 1])->0) as u8,
            ),
        )
    } else {
        None
    }
}

/// What two characters write in base 16: two hexadecimal digits, or a `+` and
/// one.
pub open spec fn pair_value(a: char, b: char) -> Option<int> {
    match (hex_value(a), hex_value(b)) {
        (Some(x), Some(y)) => Some(x * 16 + y),
        (None, Some(y)) => if a == '+' {
            Some(y)
        } else {
            None
        },
        _ => None,
    }
}

/// The bytes that pairs of characters write in base 16: an even number of
/// characters, every pair a number.
pub open spec fn pairs_text(s: Seq<char>) -> Option<Seq<u8>> {
    if s.len() % 2 == 0 && forall|i: int|
        0 <= i < s.len() / 2 ==> pair_value(#[trigger] pair_at(s, i).0, pair_at(s, i).1) is Some {
        Some(Seq::new(s.len() / 2, |i: int| pair_value(pair_at(s, i).0, pair_at(s, i).1)->0 as u8))
    } else {
        None
    }
}

/// The pair of characters that writes byte `i`.
pub open spec fn pair_at(s: Seq<char>, i: int) -> (char, char) {
    (s[2 * i], s[2 * i + 1])
}

/// Reads pairs of characters as bytes in base 16.
pub fn pairs_bytes(s: &[char]) -> (r: Option<Vec<u8>>)
    ensures
        match r {
            Some(v) => pairs_text(s@) == Some(v@),
            None => pairs_text(s@) is None,
        },
{
    if s.len() % 2 != 0 {
        return None;
    }
    let mut v: Vec<u8> = Vec::new();
    let mut i: usize = 0;
    while i < s.len() / 2
        invariant
            s@.len() % 2 == 0,
            i <= s@.len() / 2,
            v@.len() == i,
            forall|k: int|
                0 <= k < i ==> pair_value(#[trigger] pair_at(s@, k).0, pair_at(s@, k).1) is Some
                    && v@[k] == pair_value(pair_at(s@, k).0, pair_at(s@, k).1)->0 as u8,
        decreases s@.len() / 2 - i,
    {
        let a: char = s[2 * i];
        let b: char = s[2 * i + 1];
        assert(pair_at(s@, i as int).0 == a && pair_at(s@, i as int).1 == b);
        match (hex_value_of(a), hex_value_of(b)) {
            (Some(x), Some(y)) => v.push(x * 16 + y),
            (None, Some(y)) => {
                if a == '+' {
                    v.push(y);
                } else {
                    return None;
                }
            },
            _ => {
                return None;
            },
        }
        i += 1;
    }
    assert(v@ =~= pairs_text(s@)->0);
    Some(v)
}

/// Bytes written in hexadecimal read back as those bytes.
pub proof fn lemma_pairs_of_hex(b: Seq<u8>)
    ensures
        pairs_text(hex_text(b)) == Some(b),
{
    let s = hex_text(b);
    assert forall|i: int| 0 <= i < s.len() / 2 implies pair_value(
        #[trigger] pair_at(s, i).0,
        pair_at(s, i).1,
    ) == Some(b[i] as int) by {
        lemma_hex_value_of_digit(b[i] as int / 16);
        lemma_hex_value_of_digit(b[i] as int % 16);
        assert((2 * i) / 2 == i && (2 * i) % 2 == 0);
        assert((2 * i + 1) / 2 == i && (2 * i + 1) % 2 == 1);
    }
    assert(pairs_text(s)->0 =~= b);
}

/// Reads pairs of hexadecimal digits as bytes.
pub fn unhex_bytes(s: &[char]) -> (r: Option<Vec<u8>>)
    ensures
        match r {
            Some(v) => unhex_text(s@) == Some(v@),
            None => unhex_text(s@) is None,
        },
{
    if s.len() % 2 != 0 {
        return None;
    }
    let mut v: Vec<u8> = Vec::new();
    let mut i: usize = 0;
    while i < s.len() / 2
        invariant
            s@.len() % 2 == 0,
            i <= s@.len() / 2,
            v@.len() == i,
            forall|j: int| 0 <= j < 2 * i ==> hex_value(#[trigger] s@[j]) is Some,
            forall|j: int|
                0 <= j < i ==> #[trigger] v@[j] == (hex_value(s@[2 * j])->0 * 16 + hex_value(
                    s@[2 * j + 1],
                )->0) as u8,
        decreases s@.len() / 2 - i,
    {
        match (hex_value_of(s[2 * i]), hex_value_of(s[2 * i + 1])) {
            (Some(h), Some(l)) => {
                v.push(h * 16 + l);
            },
            _ => {
                assert(hex_value(s@[2 * i as int]) is None || hex_value(s@[2 * i + 1]) is None);
                return None;
            },
        }
        i += 1;
    }
    assert(v@ =~= unhex_text(s@)->0);
    Some(v)
}

/// Hexadecimal text reads back as the bytes it was written from.
pub proof fn law_hex_reads_back(b: Seq<u8>)
    ensures
        unhex_text(hex_text(b)) == Some(b),
        hex_text(b).len() == 2 * b.len(),
        forall|i: int|
            0 <= i < hex_text(b).len() ==> '0' <= #[trigger] hex_text(b)[i] <= '9' || 'a'
                <= hex_text(b)[i] <= 'f',
{
    let s = hex_text(b);
    assert forall|i: int| 0 <= i < s.len() implies hex_value(#[trigger] s[i]) is Some by {
        assert(0 <= b[i / 2] as int / 16 < 16);
    }
    let u = unhex_text(s)->0;
    assert forall|i: int| 0 <= i < b.len() implies u[i] == b[i] by {
        assert((2 * i) / 2 == i && (2 * i + 1) / 2 == i);
        assert(s[2 * i] == hex_digit(b[i] as int / 16));
        assert(s[2 * i + 1] == hex_digit(b[i] as int % 16));
        lemma_hex_value_of_digit(b[i] as int / 16);
        lemma_hex_value_of_digit(b[i] as int % 16);
    }
    assert(u =~= b);
}

/// Where `c` first stands in `s`; the length of `s` if it does not.
pub open spec fn position(s: Seq<char>, c: char) -> int
    decreases s.len(),
{
    if s.len() == 0 || s[0] == c {
        0
    } else {
        1 + position(s.skip(1), c)
    }
}

pub proof fn lemma_position(s: Seq<char>, c: char)
    ensures
        0 <= position(s, c) <= s.len(),
        position(s, c) < s.len() ==> s[position(s, c)] == c,
        forall|j: int| 0 <= j < position(s, c) ==> s[j] != c,
    decreases s.len(),
{
    if s.len() > 0 && s[0] != c {
        let t = s.skip(1);
        lemma_position(t, c);
        assert forall|j: int| 0 <= j < position(s, c) implies s[j] != c by {
            if j > 0 {
                assert(s[j] == t[j - 1]);
            }
        }
    }
}

pub proof fn lemma_position_is(s: Seq<char>, c: char, i: int)
    requires
        0 <= i <= s.len(),
        i < s.len() ==> s[i] == c,
        forall|j: int| 0 <= j < i ==> s[j] != c,
    ensures
        position(s, c) == i,
{
    lemma_position(s, c);
}

/// Where `c` first stands in `s` at or after `from`; the length of `s` if it
/// does not.
pub fn find_from(s: &[char], c: char, from: usize) -> (r: usize)
    requires
        from <= s@.len(),
    ensures
        from <= r <= s@.len(),
        r == from + position(s@.skip(from as int), c),
        r < s@.len() ==> s@[r as int] == c,
        forall|j: int| from <= j < r ==> s@[j] != c,
{
    let mut i: usize = from;
    let ghost t = s@.skip(from as int);
    while i < s.len() && s[i] != c
        invariant
            from <= i <= s@.len(),
            t == s@.skip(from as int),
            forall|j: int| from <= j < i ==> s@[j] != c,
        decreases s@.len() - i,
    {
        i += 1;
    }
    proof {
        assert forall|j: int| 0 <= j < i - from implies t[j] != c by {
            assert(t[j] == s@[j + from]);
        }
        lemma_position_is(t, c, i - from);
    }
    i
}

/// The characters of `s` from `a` to `b`.
pub fn copy_range(s: &[char], a: usize, b: usize) -> (r: Vec<char>)
    requires
        a <= b <= s@.len(),
    ensures
        r@ == s@.subrange(a as int, b as int),
{
    let mut r: Vec<char> = Vec::new();
    let mut i: usize = a;
    while i < b
        invariant
            a <= i <= b <= s@.len(),
            r@ == s@.subrange(a as int, i as int),
        decreases b - i,
    {
        r.push(s[i]);
        i += 1;
        assert(s@.subrange(a as int, i as int) =~= s@.subrange(a as int, i - 1).push(s@[i - 1]));
    }
    r
}

/// The texts in a row of character vectors.
pub open spec fn texts(v: Seq<Vec<char>>) -> Seq<Seq<char>> {
    Seq::new(v.len(), |i: int| v[i]@)
}

/// A line without the carriage return that a line feed followed.
pub open spec fn chop_cr(s: Seq<char>) -> Seq<char> {
    if s.len() > 0 && s.last() == '\r' {
        s.drop_last()
    } else {
        s
    }
}

/// The lines of a text. A line ends at a line feed, or at a carriage return
/// and a line feed; the last line's ending may be left out.
pub open spec fn lines_of(t: Seq<char>) -> Seq<Seq<char>>
    decreases t.len(),
{
    let p = position(t, '\n');
    if t.len() == 0 {
        Seq::empty()
    } else if p >= t.len() || p < 0 {
        seq![t]
    } else {
        seq![chop_cr(t.take(p))] + lines_of(t.skip(p + 1))
    }
}

/// Splits a text into its lines.
pub fn lines(t: &[char]) -> (r: Vec<Vec<char>>)
    ensures
        texts(r@) == lines_of(t@),
{
    let mut r: Vec<Vec<char>> = Vec::new();
    let mut i: usize = 0;
    proof {
        assert(t@.skip(0) =~= t@);
        assert(texts(r@) + lines_of(t@) =~= lines_of(t@));
    }
    while i < t.len()
        invariant
            i <= t@.len(),
            texts(r@) + lines_of(t@.skip(i as int)) == lines_of(t@),
        decreases t@.len() - i,
    {
        let e = find_from(t, '\n', i);
        let ghost u = t@.skip(i as int);
        let ghost r0 = texts(r@);
        if e == t.len() {
            let line = copy_range(t, i, e);
            r.push(line);
            i = e;
            proof {
                assert(line@ =~= u);
                assert(texts(r@) =~= r0.push(u));
                assert(lines_of(t@.skip(i as int)) =~= Seq::empty());
                assert(texts(r@) + lines_of(t@.skip(i as int)) =~= r0 + seq![u]);
            }
        } else {
            let mut k: usize = e;
            if e > i && t[e - 1] == '\r' {
                k = e - 1;
            }
            let line = copy_range(t, i, k);
            r.push(line);
            i = e + 1;
            proof {
                let p = position(u, '\n');
                assert(u.take(p) =~= t@.subrange(e - p, e as int));
                assert(line@ =~= chop_cr(u.take(p)));
                assert(u.skip(p + 1) =~= t@.skip(i as int));
                assert(texts(r@) =~= r0.push(line@));
                assert(texts(r@) + lines_of(t@.skip(i as int)) =~= r0 + lines_of(u));
            }
        }
    }
    assert(lines_of(t@.skip(i as int)) =~= Seq::empty());
    assert(texts(r@) + lines_of(t@.skip(i as int)) =~= texts(r@));
    r
}

/// A text that can stand as one line: no line feed in it, no carriage return
/// at its end.
pub open spec fn line_safe(l: Seq<char>) -> bool {
    &&& forall|i: int| 0 <= i < l.len() ==> l[i] != '\n'
    &&& l.len() > 0 ==> l.last() != '\r'
}

/// A line written with its line feed in front of a text is the first of the
/// text's lines, and changes no other.
/// A text is parted at its line feeds: what stands before the first is the first
/// line, without one carriage return at its end, and what stands behind it has the
/// other lines. A last line needs no line feed, and keeps what it ends in.
pub proof fn law_lines_end_at_line_feeds(l: Seq<char>, rest: Seq<char>)
    requires
        lacks(l, '\n'),
    ensures
        lines_of(Seq::empty()) == Seq::<Seq<char>>::empty(),
        l.len() > 0 ==> lines_of(l) == seq![l],
        lines_of(l.push('\r').push('\n') + rest) == seq![l] + lines_of(rest),
        (l.len() == 0 || l.last() != '\r') ==> lines_of(l.push('\n') + rest) == seq![l] + lines_of(
            rest,
        ),
{
    lemma_position_is(l, '\n', l.len() as int);
    let a = l.push('\r').push('\n') + rest;
    assert forall|j: int| 0 <= j < l.len() + 1 implies a[j] != '\n' by {
        if j < l.len() {
            assert(a[j] == l[j]);
        } else {
            assert(a[j] == '\r');
        }
    }
    lemma_position_is(a, '\n', l.len() as int + 1);
    assert(a.take(l.len() as int + 1) =~= l.push('\r'));
    assert(l.push('\r').drop_last() =~= l);
    assert(a.skip(l.len() as int + 2) =~= rest);
    let b = l.push('\n') + rest;
    assert forall|j: int| 0 <= j < l.len() implies b[j] != '\n' by {
        assert(b[j] == l[j]);
    }
    lemma_position_is(b, '\n', l.len() as int);
    assert(b.take(l.len() as int) =~= l);
    assert(b.skip(l.len() as int + 1) =~= rest);
}

pub proof fn lemma_lines_of_first(l: Seq<char>, rest: Seq<char>)
    requires
        line_safe(l),
    ensures
        lines_of(l.push('\n') + rest) == seq![l] + lines_of(rest),
{
    let t = l.push('\n') + rest;
    assert forall|j: int| 0 <= j < l.len() implies t[j] != '\n' by {
        assert(t[j] == l[j]);
    }
    lemma_position_is(t, '\n', l.len() as int);
    assert(t.take(l.len() as int) =~= l);
    assert(t.skip(l.len() as int + 1) =~= rest);
}

/// The pieces of a text between the separators `c`: one more than there are
/// separators.
pub open spec fn split_on(t: Seq<char>, c: char) -> Seq<Seq<char>>
    decreases t.len(),
{
    let p = position(t, c);
    if p >= t.len() || p < 0 {
        seq![t]
    } else {
        seq![t.take(p)] + split_on(t.skip(p + 1), c)
    }
}

/// Splits a text at every `c`.
pub fn split(t: &[char], c: char) -> (r: Vec<Vec<char>>)
    ensures
        texts(r@) == split_on(t@, c),
{
    let mut r: Vec<Vec<char>> = Vec::new();
    let mut i: usize = 0;
    let mut e: usize = find_from(t, c, 0);
    proof {
        assert(t@.skip(0) =~= t@);
        assert(texts(r@) + split_on(t@, c) =~= split_on(t@, c));
    }
    while e < t.len()
        invariant
            i <= e <= t@.len(),
            e == i + position(t@.skip(i as int), c),
            texts(r@) + split_on(t@.skip(i as int), c) == split_on(t@, c),
        decreases t@.len() - i,
    {
        let ghost u = t@.skip(i as int);
        let ghost r0 = texts(r@);
        let piece = copy_range(t, i, e);
        r.push(piece);
        proof {
            let p = position(u, c);
            assert(piece@ =~= u.take(p));
            assert(u.skip(p + 1) =~= t@.skip(e + 1));
            assert(texts(r@) =~= r0.push(piece@));
            assert(texts(r@) + split_on(t@.skip(e + 1), c) =~= r0 + split_on(u, c));
        }
        i = e + 1;
        e = find_from(t, c, i);
    }
    let ghost r0 = texts(r@);
    let piece = copy_range(t, i, t.len());
    r.push(piece);
    proof {
        assert(piece@ =~= t@.skip(i as int));
        assert(texts(r@) =~= r0.push(piece@));
        assert(r0.push(piece@) =~= r0 + seq![piece@]);
    }
    r
}

/// A piece without the separator, written in front of a separator and a
/// text, is the first piece of the whole.
pub proof fn lemma_split_first(p: Seq<char>, c: char, rest: Seq<char>)
    requires
        forall|i: int| 0 <= i < p.len() ==> p[i] != c,
    ensures
        split_on(p.push(c) + rest, c) == seq![p] + split_on(rest, c),
{
    let t = p.push(c) + rest;
    assert forall|j: int| 0 <= j < p.len() implies t[j] != c by {
        assert(t[j] == p[j]);
    }
    lemma_position_is(t, c, p.len() as int);
    assert(t.take(p.len() as int) =~= p);
    assert(t.skip(p.len() as int + 1) =~= rest);
}

/// A text without the separator is its own single piece.
pub proof fn lemma_split_none(p: Seq<char>, c: char)
    requires
        forall|i: int| 0 <= i < p.len() ==> p[i] != c,
    ensures
        split_on(p, c) == seq![p],
{
    lemma_position_is(p, c, p.len() as int);
}

/// The number that a row of hexadecimal digits writes.
pub open spec fn hex_number_value(s: Seq<char>) -> nat
    decreases s.len(),
{
    if s.len() == 0 {
        0
    } else {
        hex_number_value(s.drop_last()) * 16 + hex_value(s.last())->0 as nat
    }
}

/// What `s` writes in base 16 as a number no greater than `max`: an optional
/// `+`, then at least one hexadecimal digit and nothing else.
pub open spec fn hex_number_text(s: Seq<char>, max: nat) -> Option<nat> {
    let d = if s.len() > 0 && s[0] == '+' {
        s.skip(1)
    } else {
        s
    };
    if d.len() > 0 && all_hex(d) && hex_number_value(d) <= max {
        Some(hex_number_value(d))
    } else {
        None
    }
}

proof fn lemma_hex_number_prefix(s: Seq<char>, i: int)
    requires
        0 <= i <= s.len(),
        all_hex(s),
    ensures
        hex_number_value(s.take(i)) <= hex_number_value(s),
    decreases s.len() - i,
{
    if i < s.len() {
        lemma_hex_number_prefix(s, i + 1);
        assert(s.take(i + 1).drop_last() =~= s.take(i));
        assert(hex_value(s[i]) is Some);
    } else {
        assert(s.take(i) =~= s);
    }
}

/// Reads a number in base 16.
pub fn parse_hex_number(s: &[char], max: usize) -> (r: Option<usize>)
    ensures
        match r {
            Some(n) => hex_number_text(s@, max as nat) == Some(n as nat),
            None => hex_number_text(s@, max as nat) is None,
        },
{
    let start: usize = if s.len() > 0 && s[0] == '+' {
        1
    } else {
        0
    };
    let ghost d = s@.skip(start as int);
    proof {
        assert(s@.skip(0) =~= s@);
    }
    if start == s.len() {
        return None;
    }
    let mut v: u128 = 0;
    let mut i: usize = start;
    assert(d.take(0) =~= Seq::empty());
    while i < s.len()
        invariant
            start <= i <= s@.len(),
            d == s@.skip(start as int),
            d == (if s@.len() > 0 && s@[0] == '+' {
                s@.skip(1)
            } else {
                s@
            }),
            v == hex_number_value(d.take(i - start)),
            v <= max,
            forall|k: int| 0 <= k < i - start ==> hex_value(#[trigger] d[k]) is Some,
        decreases s@.len() - i,
    {
        assert(d[i - start] == s@[i as int]);
        assert(d.take(i + 1 - start).drop_last() =~= d.take(i - start));
        match hex_value_of(s[i]) {
            None => {
                return None;
            },
            Some(x) => {
                v = v * 16 + x as u128;
                if v > max as u128 {
                    proof {
                        if all_hex(d) {
                            lemma_hex_number_prefix(d, i + 1 - start);
                        }
                    }
                    return None;
                }
            },
        }
        i += 1;
    }
    assert(d.take(i - start) =~= d);
    Some(v as usize)
}

/// A piece without `c`, written behind a `c`, is the last of the pieces.
pub proof fn lemma_split_last(a: Seq<char>, c: char, b: Seq<char>)
    requires
        lacks(b, c),
    ensures
        split_on(a.push(c) + b, c) == split_on(a, c).push(b),
    decreases a.len(),
{
    let t = a.push(c) + b;
    let p = position(a, c);
    lemma_position(a, c);
    if p < a.len() {
        assert forall|j: int| 0 <= j < p implies t[j] != c by {
            assert(t[j] == a[j]);
        }
        assert(t[p] == a[p]);
        lemma_position_is(t, c, p);
        assert(t.take(p) =~= a.take(p));
        assert(t.skip(p + 1) =~= a.skip(p + 1).push(c) + b);
        lemma_split_last(a.skip(p + 1), c, b);
        assert(split_on(t, c) =~= split_on(a, c).push(b));
    } else {
        lemma_split_first(a, c, b);
        lemma_split_none(b, c);
        lemma_split_none(a, c);
        assert(split_on(t, c) =~= split_on(a, c).push(b));
    }
}

/// A character that a text does not hold.
pub open spec fn lacks(s: Seq<char>, c: char) -> bool {
    forall|i: int| 0 <= i < s.len() ==> s[i] != c
}

pub proof fn lemma_hex_lacks(b: Seq<u8>, c: char)
    requires
        hex_value(c) is None,
    ensures
        lacks(hex_text(b), c),
{
    let s = hex_text(b);
    assert forall|i: int| 0 <= i < s.len() implies s[i] != c by {
        lemma_hex_value_of_digit(b[i / 2] as int / 16);
        lemma_hex_value_of_digit(b[i / 2] as int % 16);
    }
}

pub proof fn lemma_dec_lacks(n: nat, c: char)
    requires
        !is_digit(c),
    ensures
        lacks(dec(n), c),
{
    lemma_dec_digits(n);
    assert forall|i: int| 0 <= i < dec(n).len() implies dec(n)[i] != c by {
        assert(is_digit(dec(n)[i]));
    }
}

/// What stands before and after the first `c`, where there is one.
pub open spec fn parted_at(s: Seq<char>, c: char) -> Option<(Seq<char>, Seq<char>)> {
    let p = position(s, c);
    if 0 <= p < s.len() {
        Some((s.take(p), s.skip(p + 1)))
    } else {
        None
    }
}

/// Parts a text at the first `c`.
pub fn split_once(s: &[char], c: char) -> (r: Option<(Vec<char>, Vec<char>)>)
    ensures
        match r {
            Some((a, b)) => parted_at(s@, c) == Some((a@, b@)),
            None => parted_at(s@, c) is None,
        },
{
    let p: usize = find_from(s, c, 0);
    assert(s@.skip(0) =~= s@);
    if p < s.len() {
        let a = copy_range(s, 0, p);
        let b = copy_range(s, p + 1, s.len());
        assert(a@ =~= s@.take(p as int));
        assert(b@ =~= s@.skip(p + 1));
        Some((a, b))
    } else {
        None
    }
}

pub proof fn lemma_parted(a: Seq<char>, c: char, b: Seq<char>)
    requires
        lacks(a, c),
    ensures
        parted_at(a.push(c) + b, c) == Some((a, b)),
{
    let s = a.push(c) + b;
    assert forall|j: int| 0 <= j < a.len() implies s[j] != c by {
        assert(s[j] == a[j]);
    }
    lemma_position_is(s, c, a.len() as int);
    assert(s.take(a.len() as int) =~= a);
    assert(s.skip(a.len() as int + 1) =~= b);
}

/// The 32 bytes that 64 characters write in base 16.
pub open spec fn bytes32_text(s: Seq<char>) -> Option<Seq<u8>> {
    if s.len() == 64 {
        pairs_text(s)
    } else {
        None
    }
}

/// Reads 64 characters as 32 bytes in base 16.
pub fn bytes32_of(s: &[char]) -> (r: Option<[u8; 32]>)
    ensures
        match r {
            Some(b) => bytes32_text(s@) == Some(b@),
            None => bytes32_text(s@) is None,
        },
{
    if s.len() != 64 {
        return None;
    }
    match pairs_bytes(s) {
        None => None,
        Some(v) => {
            let mut out: [u8; 32] = [0; 32];
            let mut i: usize = 0;
            while i < 32
                invariant
                    i <= 32,
                    v@.len() == 32,
                    forall|j: int| 0 <= j < i ==> out@[j] == v@[j],
                decreases 32 - i,
            {
                out[i] = v[i];
                i += 1;
            }
            assert(out@ =~= v@);
            Some(out)
        },
    }
}

pub proof fn lemma_bytes32_of_hex(b: Seq<u8>)
    requires
        b.len() == 32,
    ensures
        bytes32_text(hex_text(b)) == Some(b),
{
    lemma_pairs_of_hex(b);
}

/// The characters that count as white space.
pub open spec fn is_space(c: char) -> bool {
    let n = c as int;
    ||| 0x09 <= n <= 0x0d
    ||| n == 0x20
    ||| n == 0x85
    ||| n == 0xa0
    ||| n == 0x1680
    ||| 0x2000 <= n <= 0x200a
    ||| n == 0x2028
    ||| n == 0x2029
    ||| n == 0x202f
    ||| n == 0x205f
    ||| n == 0x3000
}

/// Whether `c` counts as white space.
pub fn space(c: char) -> (r: bool)
    ensures
        r == is_space(c),
{
    let n: u32 = c as u32;
    (0x09 <= n && n <= 0x0d) || n == 0x20 || n == 0x85 || n == 0xa0 || n == 0x1680 || (0x2000
        <= n && n <= 0x200a) || n == 0x2028 || n == 0x2029 || n == 0x202f || n == 0x205f || n
        == 0x3000
}

/// `s` without the white space in front.
pub open spec fn trim_start_of(s: Seq<char>) -> Seq<char>
    decreases s.len(),
{
    if s.len() > 0 && is_space(s[0]) {
        trim_start_of(s.skip(1))
    } else {
        s
    }
}

/// `s` without the white space at its end.
pub open spec fn trim_end_of(s: Seq<char>) -> Seq<char>
    decreases s.len(),
{
    if s.len() > 0 && is_space(s.last()) {
        trim_end_of(s.drop_last())
    } else {
        s
    }
}

/// `s` without the white space at either end.
pub open spec fn trim_of(s: Seq<char>) -> Seq<char> {
    trim_end_of(trim_start_of(s))
}

fn skip_space(s: &[char], from: usize) -> (r: usize)
    requires
        from <= s@.len(),
    ensures
        from <= r <= s@.len(),
        s@.skip(r as int) == trim_start_of(s@.skip(from as int)),
        r < s@.len() ==> !is_space(s@[r as int]),
{
    let mut i: usize = from;
    while i < s.len() && space(s[i])
        invariant
            from <= i <= s@.len(),
            trim_start_of(s@.skip(i as int)) == trim_start_of(s@.skip(from as int)),
        decreases s@.len() - i,
    {
        assert(s@.skip(i as int).skip(1) =~= s@.skip(i + 1));
        i += 1;
    }
    i
}

/// Cuts the white space off both ends.
pub fn trim(s: &[char]) -> (r: Vec<char>)
    ensures
        r@ == trim_of(s@),
{
    let a = skip_space(s, 0);
    assert(s@.skip(0) =~= s@);
    let mut b: usize = s.len();
    assert(s@.subrange(a as int, b as int) =~= s@.skip(a as int));
    while b > a && space(s[b - 1])
        invariant
            a <= b <= s@.len(),
            trim_end_of(s@.subrange(a as int, b as int)) == trim_end_of(s@.skip(a as int)),
        decreases b,
    {
        assert(s@.subrange(a as int, b as int).drop_last() =~= s@.subrange(a as int, b - 1));
        b -= 1;
    }
    copy_range(s, a, b)
}

/// Where white space first stands in `s`; the length of `s` if it does not.
pub open spec fn space_position(s: Seq<char>) -> int
    decreases s.len(),
{
    if s.len() == 0 || is_space(s[0]) {
        0
    } else {
        1 + space_position(s.skip(1))
    }
}

/// The words of a text: what stands between white space.
pub open spec fn words_of(s: Seq<char>) -> Seq<Seq<char>>
    decreases s.len(),
    via words_of_decreases
{
    let t = trim_start_of(s);
    if t.len() == 0 {
        Seq::empty()
    } else {
        seq![t.take(space_position(t))] + words_of(t.skip(space_position(t)))
    }
}

proof fn lemma_trim_start(s: Seq<char>)
    ensures
        trim_start_of(s).len() <= s.len(),
        trim_start_of(s).len() > 0 ==> !is_space(trim_start_of(s)[0]),
    decreases s.len(),
{
    if s.len() > 0 && is_space(s[0]) {
        lemma_trim_start(s.skip(1));
    }
}

proof fn lemma_space_position(s: Seq<char>)
    ensures
        0 <= space_position(s) <= s.len(),
    decreases s.len(),
{
    if s.len() > 0 && !is_space(s[0]) {
        lemma_space_position(s.skip(1));
    }
}

#[via_fn]
proof fn words_of_decreases(s: Seq<char>) {
    let t = trim_start_of(s);
    lemma_trim_start(s);
    if t.len() > 0 {
        lemma_space_position(t.skip(1));
    }
}

/// Splits a text at its white space.
pub fn words(s: &[char]) -> (r: Vec<Vec<char>>)
    ensures
        texts(r@) == words_of(s@),
{
    let mut r: Vec<Vec<char>> = Vec::new();
    let mut i: usize = skip_space(s, 0);
    proof {
        assert(s@.skip(0) =~= s@);
        lemma_trim_start(s@);
        assert(trim_start_of(s@.skip(i as int)) == s@.skip(i as int));
        assert(words_of(s@.skip(i as int)) == words_of(s@));
        assert(texts(r@) + words_of(s@) =~= words_of(s@));
    }
    while i < s.len()
        invariant
            i <= s@.len(),
            trim_start_of(s@.skip(i as int)) == s@.skip(i as int),
            texts(r@) + words_of(s@.skip(i as int)) == words_of(s@),
        decreases s@.len() - i,
    {
        let ghost u = s@.skip(i as int);
        let ghost r0 = texts(r@);
        let mut e: usize = i;
        proof {
            lemma_trim_start(u);
            assert(!is_space(u[0]));
        }
        while e < s.len() && !space(s[e])
            invariant
                i <= e <= s@.len(),
                u == s@.skip(i as int),
                space_position(u) == e - i + space_position(s@.skip(e as int)),
            decreases s@.len() - e,
        {
            assert(s@.skip(e as int).skip(1) =~= s@.skip(e + 1));
            e += 1;
        }
        assert(e == i + space_position(u));
        assert(e > i) by {
            lemma_space_position(u.skip(1));
        }
        let word = copy_range(s, i, e);
        r.push(word);
        i = skip_space(s, e);
        proof {
            assert(word@ =~= u.take(e - (s@.len() - u.len())));
            assert(u.skip(space_position(u)) =~= s@.skip(e as int));
            lemma_trim_start(s@.skip(e as int));
            assert(trim_start_of(s@.skip(i as int)) == s@.skip(i as int));
            assert(words_of(s@.skip(e as int)) == words_of(s@.skip(i as int)));
            assert(texts(r@) =~= r0.push(word@));
            assert(texts(r@) + words_of(s@.skip(i as int)) =~= r0 + words_of(u));
        }
    }
    assert(words_of(s@.skip(i as int)) =~= Seq::empty());
    assert(texts(r@) + words_of(s@.skip(i as int)) =~= texts(r@));
    r
}

/// A text without white space.
pub open spec fn solid(s: Seq<char>) -> bool {
    forall|i: int| 0 <= i < s.len() ==> !is_space(#[trigger] s[i])
}

proof fn lemma_space_behind(p: Seq<char>, rest: Seq<char>)
    requires
        solid(p),
        rest.len() == 0 || is_space(rest[0]),
    ensures
        space_position(p + rest) == p.len(),
    decreases p.len(),
{
    let t = p + rest;
    if p.len() > 0 {
        assert(t[0] == p[0]);
        assert(t.skip(1) =~= p.skip(1) + rest);
        assert forall|i: int| 0 <= i < p.skip(1).len() implies !is_space(
            #[trigger] p.skip(1)[i],
        ) by {
            assert(p.skip(1)[i] == p[i + 1]);
        }
        lemma_space_behind(p.skip(1), rest);
    } else {
        assert(t =~= rest);
    }
}

/// A word and a space in front of a text are the first of its words.
pub proof fn lemma_words_first(p: Seq<char>, rest: Seq<char>)
    requires
        solid(p),
        p.len() > 0,
    ensures
        words_of(p.push(' ') + rest) == seq![p] + words_of(rest),
{
    let tail = seq![' '] + rest;
    let s = p.push(' ') + rest;
    assert(s =~= p + tail);
    assert(!is_space(p[0]));
    assert(s[0] == p[0]);
    assert(trim_start_of(s) == s);
    lemma_space_behind(p, tail);
    assert(s.take(p.len() as int) =~= p);
    assert(s.skip(p.len() as int) =~= tail);
    assert(tail.skip(1) =~= rest);
    assert(trim_start_of(tail) == trim_start_of(rest));
    assert(words_of(tail) == words_of(rest));
}

/// A word alone.
pub proof fn lemma_words_only(p: Seq<char>)
    requires
        solid(p),
        p.len() > 0,
    ensures
        words_of(p) == seq![p],
{
    assert(!is_space(p[0]));
    assert(trim_start_of(p) == p);
    let none = Seq::<char>::empty();
    assert(p + none =~= p);
    lemma_space_behind(p, none);
    assert(p.take(p.len() as int) =~= p);
    assert(p.skip(p.len() as int) =~= none);
    assert(words_of(none) =~= Seq::empty());
    assert(words_of(p) =~= seq![p]);
}

/// A text that begins with a character that is no white space is not blank.
pub proof fn lemma_not_blank(s: Seq<char>)
    requires
        s.len() > 0,
        !is_space(s[0]),
    ensures
        trim_of(s).len() > 0,
    decreases s.len(),
{
    assert(trim_start_of(s) == s);
    lemma_trim_end_keeps(s);
}

proof fn lemma_trim_end_keeps(s: Seq<char>)
    requires
        s.len() > 0,
        !is_space(s[0]),
    ensures
        trim_end_of(s).len() > 0,
    decreases s.len(),
{
    if is_space(s.last()) {
        assert(s.len() > 1);
        assert(s.drop_last()[0] == s[0]);
        lemma_trim_end_keeps(s.drop_last());
    }
}

/// A text without white space is its own trim.
pub proof fn lemma_trim_solid(s: Seq<char>)
    requires
        solid(s),
    ensures
        trim_of(s) == s,
{
    if s.len() > 0 {
        assert(!is_space(s[0]));
        assert(!is_space(s[s.len() - 1]));
    }
}

pub proof fn lemma_solid_hex(b: Seq<u8>)
    ensures
        solid(hex_text(b)),
{
    let s = hex_text(b);
    assert forall|i: int| 0 <= i < s.len() implies !is_space(#[trigger] s[i]) by {
        assert(0 <= b[i / 2] as int / 16 < 16);
    }
}

pub proof fn lemma_solid_dec(n: nat)
    ensures
        solid(dec(n)),
        dec(n).len() > 0,
{
    lemma_dec_digits(n);
    assert forall|i: int| 0 <= i < dec(n).len() implies !is_space(#[trigger] dec(n)[i]) by {
        assert(is_digit(dec(n)[i]));
    }
}

/// A text stands somewhere in another.
pub open spec fn holds_text(s: Seq<char>, p: Seq<char>) -> bool {
    exists|i: int| 0 <= i && i + p.len() <= s.len() && #[trigger] begins_at(s, i, p)
}

/// A text stands at a place in another.
pub open spec fn begins_at(s: Seq<char>, i: int, p: Seq<char>) -> bool {
    s.subrange(i, i + p.len() as int) == p
}

/// Whether `p` stands somewhere in `s`.
pub fn contains_text(s: &[char], p: &[char]) -> (r: bool)
    ensures
        r == holds_text(s@, p@),
{
    assert(s@.len() == s.len());
    if s.len() < p.len() {
        return false;
    }
    let last: usize = s.len() - p.len();
    let mut i: usize = 0;
    loop
        invariant
            i <= last,
            last + p@.len() == s@.len(),
            s@.len() <= usize::MAX,
            forall|k: int| 0 <= k < i ==> !#[trigger] begins_at(s@, k, p@),
        decreases last - i,
    {
        let piece = copy_range(s, i, i + p.len());
        if chars_eq(&piece, p) {
            assert(begins_at(s@, i as int, p@));
            return true;
        }
        if i == last {
            return false;
        }
        i += 1;
    }
}

/// Whether `s` begins with `p`.
pub open spec fn begins(s: Seq<char>, p: Seq<char>) -> bool {
    s.len() >= p.len() && s.take(p.len() as int) == p
}

/// Whether `s` ends with `p`.
pub open spec fn finishes(s: Seq<char>, p: Seq<char>) -> bool {
    s.len() >= p.len() && s.skip(s.len() - p.len()) == p
}

/// Whether `s` begins with `p`.
pub fn starts_with(s: &[char], p: &[char]) -> (r: bool)
    ensures
        r == begins(s@, p@),
{
    if s.len() < p.len() {
        return false;
    }
    let head = copy_range(s, 0, p.len());
    assert(head@ =~= s@.take(p@.len() as int));
    chars_eq(&head, p)
}

/// Whether `s` ends with `p`.
pub fn ends_with(s: &[char], p: &[char]) -> (r: bool)
    ensures
        r == finishes(s@, p@),
{
    if s.len() < p.len() {
        return false;
    }
    let tail = copy_range(s, s.len() - p.len(), s.len());
    assert(tail@ =~= s@.skip(s@.len() - p@.len()));
    chars_eq(&tail, p)
}

/// A text stands in another that is made around it.
pub proof fn lemma_holds(a: Seq<char>, p: Seq<char>, b: Seq<char>)
    ensures
        holds_text(a + p + b, p),
{
    assert((a + p + b).subrange(a.len() as int, a.len() + p.len() as int) =~= p);
    assert(begins_at(a + p + b, a.len() as int, p));
}

/// What stands in a text stands in every text that is made around it.
pub proof fn lemma_holds_through(a: Seq<char>, t: Seq<char>, b: Seq<char>, p: Seq<char>)
    requires
        holds_text(t, p),
    ensures
        holds_text(a + t + b, p),
{
    let i = choose|i: int| 0 <= i && i + p.len() <= t.len() && #[trigger] begins_at(t, i, p);
    let all = a + t + b;
    let at = a.len() + i;
    assert(all.subrange(at, at + p.len() as int) =~= t.subrange(i, i + p.len() as int));
    assert(begins_at(all, at, p));
}

/// Only white space is trimmed, at both ends and all of it there is: what is left
/// neither begins nor ends with any.
pub proof fn law_only_white_space_is_trimmed(s: Seq<char>) -> (r: (Seq<char>, Seq<char>))
    ensures
        s == r.0 + trim_of(s) + r.1,
        forall|i: int| 0 <= i < r.0.len() ==> is_space(#[trigger] r.0[i]),
        forall|i: int| 0 <= i < r.1.len() ==> is_space(#[trigger] r.1[i]),
        trim_of(s).len() > 0 ==> !is_space(trim_of(s)[0]) && !is_space(trim_of(s).last()),
{
    let front = lemma_start_trimmed(s);
    let t = trim_start_of(s);
    let back = lemma_end_trimmed(t);
    lemma_trim_start(s);
    assert(s =~= front + trim_of(s) + back);
    if trim_of(s).len() > 0 {
        assert(t[0] == trim_of(s)[0]);
    }
    (front, back)
}

proof fn lemma_start_trimmed(s: Seq<char>) -> (a: Seq<char>)
    ensures
        s == a + trim_start_of(s),
        forall|i: int| 0 <= i < a.len() ==> is_space(#[trigger] a[i]),
    decreases s.len(),
{
    if s.len() > 0 && is_space(s[0]) {
        let b = lemma_start_trimmed(s.skip(1));
        let a = seq![s[0]] + b;
        assert(s =~= a + trim_start_of(s)) by {
            assert(s =~= seq![s[0]] + s.skip(1));
        }
        assert forall|i: int| 0 <= i < a.len() implies is_space(#[trigger] a[i]) by {
            if i > 0 {
                assert(a[i] == b[i - 1]);
            }
        }
        a
    } else {
        assert(s =~= Seq::<char>::empty() + s);
        Seq::empty()
    }
}

proof fn lemma_end_trimmed(s: Seq<char>) -> (b: Seq<char>)
    ensures
        s == trim_end_of(s) + b,
        forall|i: int| 0 <= i < b.len() ==> is_space(#[trigger] b[i]),
        trim_end_of(s).len() > 0 ==> !is_space(trim_end_of(s).last()),
    decreases s.len(),
{
    if s.len() > 0 && is_space(s.last()) {
        let a = lemma_end_trimmed(s.drop_last());
        let b = a.push(s.last());
        assert(s =~= trim_end_of(s) + b) by {
            assert(s =~= s.drop_last().push(s.last()));
        }
        assert forall|i: int| 0 <= i < b.len() implies is_space(#[trigger] b[i]) by {
            if i < a.len() {
                assert(b[i] == a[i]);
            }
        }
        b
    } else {
        assert(s =~= s + Seq::<char>::empty());
        Seq::empty()
    }
}

} // verus!
