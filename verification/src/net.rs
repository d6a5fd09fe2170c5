//! What a request to a node is made of and what its answer means. The sockets
//! are opened elsewhere: here a base URL becomes an endpoint or is refused by
//! name, and the bytes of a response become a status and a body.
use crate::bytes32::copied;
use crate::text::{
    chars_of, copy_range, find_from, parse_hex_number, parse_number, push_dec, split_once,
    starts_with, string_of, text_is, trim, utf8_string, words,
};
#[allow(unused_imports)]
use crate::text::{
    begins, begins_at, dec, finishes, hex_number_text, holds_text, lacks, lemma_parted, lemma_position, number_text, parted_at,
    position, texts, trim_of, words_of,
};
use vstd::prelude::*;
#[allow(unused_imports)]
use vstd::utf8::{decode_utf8, valid_utf8};

verus! {

/// What a base URL in neither scheme is answered: it names both.
pub const SCHEME_REFUSAL: &'static str = "base_url must be http://host:port or https://host[:port]";

/// What kind of thing went wrong.
#[derive(Clone, Copy, Debug, PartialEq, Eq, Structural)]
pub enum NetErrorKind {
    /// What was asked cannot be done.
    InvalidInput,
    /// What came back cannot be read.
    InvalidData,
    /// Anything else.
    Other,
}

/// A request that was not made, or an answer that cannot be used.
#[derive(Clone, Debug, PartialEq, Eq)]
pub struct NetError {
    pub kind: NetErrorKind,
    pub text: String,
}

impl NetError {
    pub fn kind(&self) -> (r: NetErrorKind)
        ensures
            r == self.kind,
    {
        self.kind
    }

    /// The sentence that a person is shown.
    pub fn message(&self) -> (r: String)
        ensures
            r@ == self.text@,
    {
        self.text.clone()
    }
}

/// Where a request goes and whether TLS wraps it: all that a base URL decides.
#[derive(Clone, Debug, PartialEq, Eq)]
pub struct Endpoint {
    /// What is dialled.
    pub dial: String,
    /// The `Host:` header: the authority as it was written.
    pub host: String,
    /// Under TLS the name that the certificate is checked against.
    pub sni: Option<String>,
}

/// An [`Endpoint`] as a value.
#[verifier::ext_equal]
pub struct EndpointModel {
    pub dial: Seq<char>,
    pub host: Seq<char>,
    pub sni: Option<Seq<char>>,
}

impl Endpoint {
    pub open spec fn view(&self) -> EndpointModel {
        EndpointModel {
            dial: self.dial@,
            host: self.host@,
            sni: match self.sni {
                Some(n) => Some(n@),
                None => None,
            },
        }
    }
}

/// A refusal of what was asked.
pub fn refuse(text: &str) -> (r: NetError)
    ensures
        r.kind == NetErrorKind::InvalidInput,
        r.text@ == text@,
{
    NetError { kind: NetErrorKind::InvalidInput, text: text.to_owned() }
}

/// The name in an https authority and whether a port follows it; or what is
/// wrong with it.
pub open spec fn https_name(a: Seq<char>) -> Result<(Seq<char>, bool), Seq<char>> {
    if a.len() > 0 && a[0] == '[' {
        let rest = a.skip(1);
        let close = position(rest, ']');
        if close >= rest.len() {
            Err("unterminated `[` in an IPv6 base_url"@)
        } else {
            let after = rest.skip(close + 1);
            if after.len() > 0 && after[0] != ':' {
                Err(SCHEME_REFUSAL@)
            } else {
                Ok((rest.take(close), after.len() > 0))
            }
        }
    } else {
        match parted_at(a, ':') {
            Some((h, _)) => Ok((h, true)),
            None => Ok((a, false)),
        }
    }
}

/// What an https authority decides: the port is 443 where none is written, and
/// the name is the host without its port. A path is refused.
pub open spec fn https_of(a: Seq<char>) -> Result<EndpointModel, Seq<char>> {
    if a.len() == 0 {
        Err(SCHEME_REFUSAL@)
    } else if position(a, '/') < a.len() {
        Err("https base_url takes host[:port] and no path — got `"@ + a + "`"@)
    } else {
        match https_name(a) {
            Err(e) => Err(e),
            Ok((name, has_port)) => if name.len() == 0 {
                Err(SCHEME_REFUSAL@)
            } else {
                Ok(
                    EndpointModel {
                        dial: if has_port {
                            a
                        } else {
                            a + ":443"@
                        },
                        host: a,
                        sni: Some(name),
                    },
                )
            },
        }
    }
}

/// What a base URL decides. An http authority is taken as it is written; a port
/// is never invented for it.
pub open spec fn url_of(url: Seq<char>) -> Result<EndpointModel, Seq<char>> {
    if begins(url, "http://"@) {
        let a = url.skip("http://"@.len() as int);
        if a.len() == 0 {
            Err(SCHEME_REFUSAL@)
        } else {
            Ok(EndpointModel { dial: a, host: a, sni: None })
        }
    } else if begins(url, "https://"@) {
        https_of(url.skip("https://"@.len() as int))
    } else {
        Err(SCHEME_REFUSAL@)
    }
}

/// The endpoint is the one meant, or the refusal says why there is none.
pub open spec fn is_endpoint(
    r: Result<Endpoint, NetError>,
    m: Result<EndpointModel, Seq<char>>,
) -> bool {
    match (r, m) {
        (Ok(e), Ok(m)) => e@ == m,
        (Err(e), Err(why)) => e.kind == NetErrorKind::InvalidInput && e.text@ == why,
        _ => false,
    }
}

/// Resolves an https authority.
pub fn https_endpoint(authority: &[char]) -> (r: Result<Endpoint, NetError>)
    ensures
        is_endpoint(r, https_of(authority@)),
{
    if authority.len() == 0 {
        return Err(refuse(SCHEME_REFUSAL));
    }
    assert(authority@.skip(0) =~= authority@);
    let shown = string_of(authority);
    if find_from(authority, '/', 0) < authority.len() {
        let mut e: String = "https base_url takes host[:port] and no path — got `".to_owned();
        e.append(shown.as_str());
        e.append("`");
        return Err(refuse(e.as_str()));
    }
    let (name, has_port) = if authority[0] == '[' {
        let close: usize = find_from(authority, ']', 1);
        if close == authority.len() {
            return Err(refuse("unterminated `[` in an IPv6 base_url"));
        }
        proof {
            let rest = authority@.skip(1);
            assert(rest.skip(close - 1 + 1) =~= authority@.skip(close + 1));
            assert(rest.take(close - 1) =~= authority@.subrange(1, close as int));
        }
        if close + 1 < authority.len() && authority[close + 1] != ':' {
            return Err(refuse(SCHEME_REFUSAL));
        }
        (copy_range(authority, 1, close), close + 1 < authority.len())
    } else {
        match split_once(authority, ':') {
            Some((h, _)) => (h, true),
            None => {
                let all = copy_range(authority, 0, authority.len());
                assert(all@ =~= authority@);
                (all, false)
            },
        }
    };
    if name.len() == 0 {
        return Err(refuse(SCHEME_REFUSAL));
    }
    let mut dial = shown.clone();
    if !has_port {
        dial.append(":443");
    }
    Ok(Endpoint { dial, host: shown, sni: Some(string_of(&name)) })
}

/// Resolves a base URL, or refuses it by name.
pub fn endpoint_of(base_url: &str) -> (r: Result<Endpoint, NetError>)
    ensures
        is_endpoint(r, url_of(base_url@)),
{
    let url = chars_of(base_url);
    let http = chars_of("http://");
    let https = chars_of("https://");
    if starts_with(&url, &http) {
        let a = copy_range(&url, http.len(), url.len());
        assert(a@ =~= url@.skip(http@.len() as int));
        if a.len() == 0 {
            return Err(refuse(SCHEME_REFUSAL));
        }
        let authority = string_of(&a);
        return Ok(Endpoint { dial: authority.clone(), host: authority, sni: None });
    }
    if starts_with(&url, &https) {
        let a = copy_range(&url, https.len(), url.len());
        assert(a@ =~= url@.skip(https@.len() as int));
        return https_endpoint(&a);
    }
    Err(refuse(SCHEME_REFUSAL))
}

/// A request ready to be written: where to, the head, and the body behind it.
#[derive(Clone, Debug, PartialEq, Eq)]
pub struct HttpRequest {
    pub endpoint: Endpoint,
    pub head: String,
    pub body: Vec<u8>,
}

pub open spec fn get_head(path: Seq<char>, host: Seq<char>) -> Seq<char> {
    "GET "@ + path + " HTTP/1.1\r\nHost: "@ + host + "\r\nConnection: close\r\n\r\n"@
}

pub open spec fn post_head(path: Seq<char>, host: Seq<char>, len: nat) -> Seq<char> {
    "POST "@ + path + " HTTP/1.1\r\nHost: "@ + host
        + "\r\nContent-Type: application/octet-stream\r\nContent-Length: "@ + dec(len)
        + "\r\nConnection: close\r\n\r\n"@
}

/// A request's head names its method and path first, then its host; a `POST` says
/// how many bytes follow it; and the empty line ends it.
pub proof fn law_a_head_names_what_it_asks(path: Seq<char>, host: Seq<char>, len: nat)
    ensures
        begins(get_head(path, host), "GET "@ + path + " HTTP/1.1\r\n"@),
        begins(post_head(path, host, len), "POST "@ + path + " HTTP/1.1\r\n"@),
        holds_text(get_head(path, host), "\r\nHost: "@ + host + "\r\n"@),
        holds_text(post_head(path, host, len), "\r\nHost: "@ + host + "\r\n"@),
        holds_text(post_head(path, host, len), "\r\nContent-Length: "@ + dec(len) + "\r\n"@),
        finishes(get_head(path, host), "\r\n\r\n"@),
        finishes(post_head(path, host, len), "\r\n\r\n"@),
{
    reveal_strlit("GET ");
    reveal_strlit("POST ");
    reveal_strlit(" HTTP/1.1\r\n");
    reveal_strlit(" HTTP/1.1\r\nHost: ");
    reveal_strlit("\r\nHost: ");
    reveal_strlit("\r\n");
    reveal_strlit("\r\n\r\n");
    reveal_strlit("\r\nContent-Length: ");
    reveal_strlit("\r\nConnection: close\r\n\r\n");
    reveal_strlit("\r\nContent-Type: application/octet-stream\r\nContent-Length: ");
    let g = get_head(path, host);
    let p = post_head(path, host, len);
    let first = "GET "@ + path + " HTTP/1.1\r\n"@;
    assert(g.take(first.len() as int) =~= first);
    let first = "POST "@ + path + " HTTP/1.1\r\n"@;
    assert(p.take(first.len() as int) =~= first);
    let named = "\r\nHost: "@ + host + "\r\n"@;
    let at = 4 + path.len() + 9;
    assert(g.subrange(at as int, at + named.len() as int) =~= named);
    assert(begins_at(g, at as int, named));
    let at = 5 + path.len() + 9;
    assert(p.subrange(at as int, at + named.len() as int) =~= named);
    assert(begins_at(p, at as int, named));
    let sized = "\r\nContent-Length: "@ + dec(len) + "\r\n"@;
    let at = 5 + path.len() + 17 + host.len() + 40;
    assert(p.subrange(at as int, at + sized.len() as int) =~= sized);
    assert(begins_at(p, at as int, sized));
    assert(g.skip(g.len() - 4) =~= "\r\n\r\n"@);
    assert(p.skip(p.len() - 4) =~= "\r\n\r\n"@);
}

/// A `GET` of a path; refused where the base URL is.
pub fn get_request(base_url: &str, path: &str) -> (r: Result<HttpRequest, NetError>)
    ensures
        match (r, url_of(base_url@)) {
            (Ok(q), Ok(m)) => q.endpoint@ == m && q.head@ == get_head(path@, m.host)
                && q.body@.len() == 0,
            (Err(e), Err(why)) => e.kind == NetErrorKind::InvalidInput && e.text@ == why,
            _ => false,
        },
{
    match endpoint_of(base_url) {
        Err(e) => Err(e),
        Ok(endpoint) => {
            let mut head: String = "GET ".to_owned();
            head.append(path);
            head.append(" HTTP/1.1\r\nHost: ");
            head.append(endpoint.host.as_str());
            head.append("\r\nConnection: close\r\n\r\n");
            Ok(HttpRequest { endpoint, head, body: Vec::new() })
        },
    }
}

/// A `POST` of bytes to a path; refused where the base URL is.
pub fn post_request(base_url: &str, path: &str, body: &[u8]) -> (r: Result<HttpRequest, NetError>)
    ensures
        match (r, url_of(base_url@)) {
            (Ok(q), Ok(m)) => q.endpoint@ == m && q.head@ == post_head(path@, m.host, body@.len())
                && q.body@ == body@,
            (Err(e), Err(why)) => e.kind == NetErrorKind::InvalidInput && e.text@ == why,
            _ => false,
        },
{
    match endpoint_of(base_url) {
        Err(e) => Err(e),
        Ok(endpoint) => {
            let mut head: String = "POST ".to_owned();
            head.append(path);
            head.append(" HTTP/1.1\r\nHost: ");
            head.append(endpoint.host.as_str());
            head.append("\r\nContent-Type: application/octet-stream\r\nContent-Length: ");
            push_dec(&mut head, body.len() as u64);
            head.append("\r\nConnection: close\r\n\r\n");
            Ok(HttpRequest { endpoint, head, body: copied(body) })
        },
    }
}

/// The submission of a transaction's wire bytes.
pub fn submit_tx(base_url: &str, wire_bytes: &[u8]) -> (r: Result<HttpRequest, NetError>)
    ensures
        match (r, url_of(base_url@)) {
            (Ok(q), Ok(m)) => q.endpoint@ == m && q.head@ == post_head(
                "/v1/tx"@,
                m.host,
                wire_bytes@.len(),
            ) && q.body@ == wire_bytes@,
            (Err(e), Err(why)) => e.kind == NetErrorKind::InvalidInput && e.text@ == why,
            _ => false,
        },
{
    post_request(base_url, "/v1/tx", wire_bytes)
}

/// The fetch that a scan makes of a path.
pub fn scan_fetch(base_url: &str, path: &str) -> (r: Result<HttpRequest, String>)
    ensures
        match (r, url_of(base_url@)) {
            (Ok(q), Ok(m)) => q.endpoint@ == m && q.head@ == get_head(path@, m.host)
                && q.body@.len() == 0,
            (Err(e), Err(why)) => e@ == why,
            _ => false,
        },
{
    match get_request(base_url, path) {
        Ok(q) => Ok(q),
        Err(e) => Err(e.text),
    }
}

/// The leaf stream of a node, one page a request.
#[derive(Clone, Debug)]
pub struct HttpLeafSource {
    pub base_url: String,
}

impl HttpLeafSource {
    pub fn new(base_url: &str) -> (r: HttpLeafSource)
        ensures
            r.base_url@ == base_url@,
    {
        HttpLeafSource { base_url: base_url.to_owned() }
    }

    pub open spec fn path_text(from: u64) -> Seq<char> {
        "/v1/tree/leaves?from="@ + dec(from as nat)
    }

    /// The path of the page that begins at a leaf.
    pub fn path(from: u64) -> (r: String)
        ensures
            r@ == Self::path_text(from),
    {
        let mut s: String = "/v1/tree/leaves?from=".to_owned();
        push_dec(&mut s, from);
        s
    }
}

/// The valid anchors of a node.
#[derive(Clone, Debug)]
pub struct HttpAnchorSource {
    pub base_url: String,
}

impl HttpAnchorSource {
    pub fn new(base_url: &str) -> (r: HttpAnchorSource)
        ensures
            r.base_url@ == base_url@,
    {
        HttpAnchorSource { base_url: base_url.to_owned() }
    }
}

/// A node that is both read and written.
#[derive(Clone, Debug, PartialEq, Eq)]
pub struct WalletEndpoint {
    pub url: String,
}

impl WalletEndpoint {
    /// The request that reads a path.
    pub fn get(&self, path: &str) -> (r: Result<HttpRequest, String>)
        ensures
            match url_of(self.url@) {
                Ok(ep) => r matches Ok(q) && q.endpoint@ == ep && q.head@ == get_head(path@, ep.host)
                    && q.body@.len() == 0,
                Err(why) => r matches Err(e) && e@ == why,
            },
    {
        match get_request(self.url.as_str(), path) {
            Ok(q) => Ok(q),
            Err(e) => Err(e.message()),
        }
    }

    /// The request that writes bytes to a path.
    pub fn post(&self, path: &str, body: &[u8]) -> (r: Result<HttpRequest, String>)
        ensures
            match url_of(self.url@) {
                Ok(ep) => r matches Ok(q) && q.endpoint@ == ep && q.head@ == post_head(
                    path@,
                    ep.host,
                    body@.len(),
                ) && q.body@ == body@,
                Err(why) => r matches Err(e) && e@ == why,
            },
    {
        match post_request(self.url.as_str(), path, body) {
            Ok(q) => Ok(q),
            Err(e) => Err(e.message()),
        }
    }
}

/// What is said of a page that could not be had.
pub open spec fn fetch_failed(path: Seq<char>, why: Seq<char>) -> Seq<char> {
    "GET "@ + path + ": "@ + why
}

/// What is said of a page that does not decode.
pub open spec fn undecodable(path: Seq<char>, why: Seq<char>) -> Seq<char> {
    "GET "@ + path + " did not decode: "@ + why
}

pub fn fetch_failed_text(path: &str, why: &str) -> (r: String)
    ensures
        r@ == fetch_failed(path@, why@),
{
    let mut s: String = "GET ".to_owned();
    s.append(path);
    s.append(": ");
    s.append(why);
    s
}

pub fn undecodable_text(path: &str, why: &str) -> (r: String)
    ensures
        r@ == undecodable(path@, why@),
{
    let mut s: String = "GET ".to_owned();
    s.append(path);
    s.append(" did not decode: ");
    s.append(why);
    s
}

/// What the node said of a submission: its own words.
#[derive(Clone, Debug, PartialEq, Eq)]
pub struct SubmitAnswer {
    pub status: u16,
    /// The response line as it came.
    pub body: String,
}

/// What to do about an answer. Its reason is in its words.
#[derive(Clone, Copy, Debug, PartialEq, Eq, Structural)]
pub enum SubmitClass {
    /// Admitted and relayed.
    Accepted,
    /// Already pending.
    Duplicate,
    /// The transaction's own fault.
    Refused,
    /// The node's state, not the transaction's.
    Unavailable,
    /// Anything that is not recognised.
    Unknown,
}

/// The class of an answer, by its first word.
pub open spec fn class_of(body: Seq<char>) -> SubmitClass {
    let w = words_of(body);
    if w.len() == 0 {
        SubmitClass::Unknown
    } else if w[0] == "accepted"@ {
        SubmitClass::Accepted
    } else if w[0] == "duplicate"@ {
        SubmitClass::Duplicate
    } else if w[0] == "refused:"@ {
        SubmitClass::Refused
    } else if w[0] == "unavailable:"@ {
        SubmitClass::Unavailable
    } else {
        SubmitClass::Unknown
    }
}

/// The id that an answer echoes: what follows the first space, where the word
/// before it is `accepted` or `duplicate`.
pub open spec fn echoed_id(body: Seq<char>) -> Option<Seq<char>> {
    match parted_at(body, ' ') {
        Some((head, rest)) => if head == "accepted"@ || head == "duplicate"@ {
            Some(trim_of(rest))
        } else {
            None
        },
        None => None,
    }
}

impl SubmitAnswer {
    /// The transaction id that the node echoed.
    pub fn txid_hex(&self) -> (r: Option<String>)
        ensures
            match (r, echoed_id(self.body@)) {
                (Some(a), Some(b)) => a@ == b,
                (None, None) => true,
                _ => false,
            },
    {
        let body = chars_of(self.body.as_str());
        match split_once(&body, ' ') {
            Some((head, rest)) => {
                if text_is(&head, "accepted") || text_is(&head, "duplicate") {
                    let t = trim(&rest);
                    Some(string_of(&t))
                } else {
                    None
                }
            },
            None => None,
        }
    }

    pub fn class(&self) -> (r: SubmitClass)
        ensures
            r == class_of(self.body@),
    {
        let body = chars_of(self.body.as_str());
        let w = words(&body);
        if w.len() == 0 {
            return SubmitClass::Unknown;
        }
        assert(texts(w@)[0] == w@[0]@);
        if text_is(&w[0], "accepted") {
            SubmitClass::Accepted
        } else if text_is(&w[0], "duplicate") {
            SubmitClass::Duplicate
        } else if text_is(&w[0], "refused:") {
            SubmitClass::Refused
        } else if text_is(&w[0], "unavailable:") {
            SubmitClass::Unavailable
        } else {
            SubmitClass::Unknown
        }
    }

    /// The submission is known to be in the node's pool.
    pub fn is_in_flight(&self) -> (r: bool)
        ensures
            r == (class_of(self.body@) is Accepted || class_of(self.body@) is Duplicate),
    {
        matches!(self.class(), SubmitClass::Accepted | SubmitClass::Duplicate)
    }
}

/// The text of bytes that may not be UTF-8.
pub uninterp spec fn lossy_text(bytes: Seq<u8>) -> Seq<char>;

/// `String::from_utf8_lossy` gives the text of the bytes with a replacement
/// character for what is not UTF-8; of UTF-8 it is the text itself.
#[verifier::external_body]
pub(crate) fn lossy_string(bytes: &[u8]) -> (r: String)
    ensures
        r@ == lossy_text(bytes@),
        valid_utf8(bytes@) ==> r@ == decode_utf8(bytes@),
{
    String::from_utf8_lossy(bytes).into_owned()
}

/// The answer to a submission: its words without white space around them.
pub fn answer_of(status: u16, body: &[u8]) -> (r: SubmitAnswer)
    ensures
        r.status == status,
        r.body@ == trim_of(lossy_text(body@)),
{
    let text = lossy_string(body);
    let v = chars_of(text.as_str());
    let t = trim(&v);
    SubmitAnswer { status, body: string_of(&t) }
}

/// The place of `pat` in `b`, at or after `i`.
pub open spec fn find_bytes(b: Seq<u8>, pat: Seq<u8>, i: int) -> Option<int>
    decreases b.len() - i,
{
    if i < 0 || pat.len() == 0 || i + pat.len() > b.len() {
        None
    } else if b.subrange(i, i + pat.len() as int) == pat {
        Some(i)
    } else {
        find_bytes(b, pat, i + 1)
    }
}

fn at(b: &[u8], i: usize, pat: &[u8]) -> (r: bool)
    requires
        i + pat@.len() <= b@.len(),
    ensures
        r == (b@.subrange(i as int, i + pat@.len() as int) == pat@),
{
    assert(b@.len() == b.len());
    let mut k: usize = 0;
    while k < pat.len()
        invariant
            k <= pat@.len(),
            i + pat@.len() <= b@.len() <= usize::MAX,
            forall|j: int| 0 <= j < k ==> b@[i + j] == pat@[j],
        decreases pat@.len() - k,
    {
        if b[i + k] != pat[k] {
            assert(b@.subrange(i as int, i + pat@.len() as int)[k as int] != pat@[k as int]);
            return false;
        }
        k += 1;
    }
    assert(b@.subrange(i as int, i + pat@.len() as int) =~= pat@);
    true
}

/// Looks for bytes, at or after a place.
fn locate(b: &[u8], pat: &[u8], from: usize) -> (r: Option<usize>)
    requires
        from <= b@.len(),
        pat@.len() > 0,
    ensures
        match r {
            Some(i) => find_bytes(b@, pat@, from as int) == Some(i as int) && i + pat@.len()
                <= b@.len() && from <= i,
            None => find_bytes(b@, pat@, from as int) is None,
        },
{
    let mut i: usize = from;
    while i < b.len() && b.len() - i >= pat.len()
        invariant
            from <= i <= b@.len(),
            pat@.len() > 0,
            find_bytes(b@, pat@, from as int) == find_bytes(b@, pat@, i as int),
        decreases b@.len() - i,
    {
        if at(b, i, pat) {
            return Some(i);
        }
        i += 1;
    }
    None
}

pub open spec fn crlf() -> Seq<u8> {
    seq![13u8, 10u8]
}

/// What is between `a` and the place of `c` at or after it, or the end.
pub open spec fn until_byte(b: Seq<u8>, c: u8) -> Seq<u8>
    decreases b.len(),
{
    if b.len() == 0 || b[0] == c {
        Seq::empty()
    } else {
        seq![b[0]] + until_byte(b.skip(1), c)
    }
}

proof fn lemma_until(b: Seq<u8>, c: u8, n: int)
    requires
        0 <= n <= b.len(),
        forall|j: int| 0 <= j < n ==> b[j] != c,
        n == b.len() || b[n] == c,
    ensures
        until_byte(b, c) == b.take(n),
    decreases b.len(),
{
    if n == 0 {
        assert(b.take(0) =~= Seq::empty());
    } else {
        lemma_until(b.skip(1), c, n - 1);
        assert(b.take(n) =~= seq![b[0]] + b.skip(1).take(n - 1));
    }
}

fn take_until(b: &[u8], from: usize, to: usize, c: u8) -> (r: Vec<u8>)
    requires
        from <= to <= b@.len(),
    ensures
        r@ == until_byte(b@.subrange(from as int, to as int), c),
{
    let ghost s = b@.subrange(from as int, to as int);
    let mut r: Vec<u8> = Vec::new();
    let mut i: usize = from;
    while i < to && b[i] != c
        invariant
            from <= i <= to <= b@.len(),
            s == b@.subrange(from as int, to as int),
            r@ == s.take(i - from),
            forall|j: int| 0 <= j < i - from ==> s[j] != c,
        decreases to - i,
    {
        r.push(b[i]);
        i += 1;
        assert(s.take(i - from) =~= s.take(i - 1 - from).push(s[i - 1 - from]));
    }
    proof {
        lemma_until(s, c, i - from);
    }
    r
}

/// The size that a chunk's first line announces: a number in base 16 in front
/// of an optional extension.
pub open spec fn chunk_size(line: Seq<u8>) -> Option<nat> {
    let tok = until_byte(line, 59);
    if valid_utf8(tok) {
        hex_number_text(trim_of(decode_utf8(tok)), usize::MAX as nat)
    } else {
        None
    }
}

/// The body that chunks make; nothing where they are malformed. Each is a line
/// with a size, that many bytes and a line end; the chunk of size 0 is the last.
pub open spec fn unchunked(b: Seq<u8>) -> Option<Seq<u8>>
    decreases b.len(),
{
    match find_bytes(b, crlf(), 0) {
        None => None,
        Some(e) => if e < 0 || e + 2 > b.len() {
            None
        } else {
            match chunk_size(b.take(e)) {
                None => None,
                Some(size) => {
                    let rest = b.skip(e + 2);
                    if size == 0 {
                        Some(Seq::empty())
                    } else if rest.len() < size + 2 {
                        None
                    } else {
                        match unchunked(rest.skip(size as int + 2)) {
                            None => None,
                            Some(more) => Some(rest.take(size as int) + more),
                        }
                    }
                },
            }
        },
    }
}

fn malformed() -> (r: NetError)
    ensures
        r.kind == NetErrorKind::InvalidData,
        r.text@ == "malformed chunked body"@,
{
    NetError { kind: NetErrorKind::InvalidData, text: "malformed chunked body".to_owned() }
}

pub proof fn lemma_find_bytes_shift(b: Seq<u8>, pat: Seq<u8>, i: int, k: int)
    requires
        0 <= i <= k <= b.len(),
    ensures
        find_bytes(b.skip(i), pat, k - i) == match find_bytes(b, pat, k) {
            Some(p) => Some(p - i),
            None => None,
        },
    decreases b.len() - k,
{
    let t = b.skip(i);
    if pat.len() > 0 && k + pat.len() <= b.len() {
        assert(t.subrange(k - i, k - i + pat.len() as int) =~= b.subrange(k, k + pat.len() as int));
        if b.subrange(k, k + pat.len() as int) != pat {
            lemma_find_bytes_shift(b, pat, i, k + 1);
        }
    }
}

/// Reassembles a chunked body.
pub fn dechunk(b: &[u8]) -> (r: Result<Vec<u8>, NetError>)
    ensures
        match (r, unchunked(b@)) {
            (Ok(v), Some(s)) => v@ == s,
            (Err(e), None) => e.kind == NetErrorKind::InvalidData && e.text@
                == "malformed chunked body"@,
            _ => false,
        },
{
    let line_end: [u8; 2] = [13, 10];
    assert(line_end@ =~= crlf());
    assert(b@.len() == b.len());
    let mut out: Vec<u8> = Vec::new();
    let mut i: usize = 0;
    assert(b@.skip(0) =~= b@);
    assert(match unchunked(b@) {
        None => true,
        Some(s) => out@ + s =~= s,
    });
    loop
        invariant
            i <= b@.len() <= usize::MAX,
            line_end@ == crlf(),
            match unchunked(b@.skip(i as int)) {
                None => unchunked(b@) is None,
                Some(s) => unchunked(b@) == Some(out@ + s),
            },
        decreases b@.len() - i,
    {
        let ghost t = b@.skip(i as int);
        proof {
            lemma_find_bytes_shift(b@, crlf(), i as int, i as int);
        }
        match locate(b, &line_end, i) {
            None => {
                return Err(malformed());
            },
            Some(e) => {
                assert(t.take(e - i) =~= b@.subrange(i as int, e as int));
                let tok = take_until(b, i, e, 59);
                let size: usize = match utf8_string(tok) {
                    None => {
                        return Err(malformed());
                    },
                    Some(s) => {
                        let v = chars_of(s.as_str());
                        let w = trim(&v);
                        match parse_hex_number(&w, usize::MAX) {
                            None => {
                                return Err(malformed());
                            },
                            Some(n) => n,
                        }
                    },
                };
                let start: usize = e + 2;
                let ghost rest = t.skip(e - i + 2);
                assert(rest =~= b@.skip(start as int));
                if size == 0 {
                    assert(out@ + Seq::<u8>::empty() =~= out@);
                    return Ok(out);
                }
                if b.len() - start < 2 || b.len() - start - 2 < size {
                    return Err(malformed());
                }
                let ghost before = out@;
                let mut k: usize = 0;
                while k < size
                    invariant
                        k <= size,
                        start + size <= b@.len() <= usize::MAX,
                        out@ == before + b@.subrange(start as int, start + k),
                    decreases size - k,
                {
                    out.push(b[start + k]);
                    k += 1;
                    assert(before + b@.subrange(start as int, start + k) =~= (before
                        + b@.subrange(start as int, start + k - 1)).push(b@[start + k - 1]));
                }
                i = start + size + 2;
                proof {
                    assert(rest.take(size as int) =~= b@.subrange(start as int, start + size));
                    assert(rest.skip(size as int + 2) =~= b@.skip(i as int));
                    if let Some(more) = unchunked(b@.skip(i as int)) {
                        assert(before + (rest.take(size as int) + more) =~= out@ + more);
                    }
                }
            },
        }
    }
}

pub open spec fn lower(b: u8) -> u8 {
    if 65 <= b <= 90 {
        (b + 32) as u8
    } else {
        b
    }
}

/// Bytes with their ASCII letters in lower case.
pub open spec fn lowered(b: Seq<u8>) -> Seq<u8> {
    Seq::new(b.len(), |i: int| lower(b[i]))
}

/// The empty line that ends a head.
pub open spec fn head_end() -> Seq<u8> {
    seq![13u8, 10u8, 13u8, 10u8]
}

/// `transfer-encoding: chunked`.
pub const CHUNKED: [u8; 26] = [
    116, 114, 97, 110, 115, 102, 101, 114, 45, 101, 110, 99, 111, 100, 105, 110, 103, 58, 32, 99,
    104, 117, 110, 107, 101, 100,
];

/// The status that a status line gives: its second word, as a number.
pub open spec fn status_of(line: Seq<char>) -> Option<nat> {
    let w = words_of(line);
    if w.len() < 2 {
        None
    } else {
        number_text(w[1], u16::MAX as nat)
    }
}

/// The first line of a head.
pub open spec fn status_line(raw: Seq<u8>) -> Seq<u8> {
    match find_bytes(raw, head_end(), 0) {
        Some(sep) => until_byte(raw.take(sep), 10),
        None => Seq::empty(),
    }
}

/// What a response means, once its status line is read as `line`: its status
/// and its body, put together where it comes in chunks.
pub open spec fn response_of(raw: Seq<u8>, line: Seq<char>) -> Result<(u16, Seq<u8>), Seq<char>> {
    match find_bytes(raw, head_end(), 0) {
        None => Err("no HTTP header terminator"@),
        Some(sep) => match status_of(line) {
            None => Err("unparseable status line: "@ + line),
            Some(status) => {
                let body = raw.skip(sep + 4);
                if find_bytes(lowered(raw.take(sep)), CHUNKED@, 0) is Some {
                    match unchunked(body) {
                        Some(b) => Ok((status as u16, b)),
                        None => Err("malformed chunked body"@),
                    }
                } else {
                    Ok((status as u16, body))
                }
            },
        },
    }
}

/// The response is the one meant, or the error says what cannot be read.
pub open spec fn is_response(
    r: Result<(u16, Vec<u8>), NetError>,
    m: Result<(u16, Seq<u8>), Seq<char>>,
) -> bool {
    match (r, m) {
        (Ok((status, body)), Ok((s, b))) => status == s && body@ == b,
        (Err(e), Err(why)) => e.kind == NetErrorKind::InvalidData && e.text@ == why,
        _ => false,
    }
}

fn lower_case(b: &[u8], n: usize) -> (r: Vec<u8>)
    requires
        n <= b@.len(),
    ensures
        r@ == lowered(b@.take(n as int)),
{
    let mut r: Vec<u8> = Vec::new();
    let mut i: usize = 0;
    while i < n
        invariant
            i <= n <= b@.len(),
            r@ == lowered(b@.take(i as int)),
        decreases n - i,
    {
        let x: u8 = b[i];
        if 65 <= x && x <= 90 {
            r.push(x + 32);
        } else {
            r.push(x);
        }
        i += 1;
        assert(r@ =~= lowered(b@.take(i as int)));
    }
    r
}

/// Takes a response apart, once its status line is read as `line`.
pub fn response_with(raw: &[u8], line: &str) -> (r: Result<(u16, Vec<u8>), NetError>)
    ensures
        is_response(r, response_of(raw@, line@)),
{
    let end: [u8; 4] = [13, 10, 13, 10];
    assert(end@ =~= head_end());
    match locate(raw, &end, 0) {
        None => Err(
            NetError {
                kind: NetErrorKind::InvalidData,
                text: "no HTTP header terminator".to_owned(),
            },
        ),
        Some(sep) => {
            let v = chars_of(line);
            let w = words(&v);
            let ghost ws = texts(w@);
            if w.len() >= 2 {
                assert(ws[1] == w@[1]@);
                if let Some(status) = parse_number(&w[1], 65535) {
                    assert(raw@.len() == raw.len());
                    let rest = slice_tail(raw, sep + 4);
                    let head = lower_case(raw, sep);
                    let chunked = CHUNKED;
                    if locate(&head, &chunked, 0).is_some() {
                        return match dechunk(&rest) {
                            Ok(body) => Ok((status as u16, body)),
                            Err(e) => Err(e),
                        };
                    }
                    return Ok((status as u16, rest));
                }
            }
            let mut text: String = "unparseable status line: ".to_owned();
            text.append(line);
            Err(NetError { kind: NetErrorKind::InvalidData, text })
        },
    }
}

fn slice_tail(b: &[u8], from: usize) -> (r: Vec<u8>)
    requires
        from <= b@.len(),
    ensures
        r@ == b@.skip(from as int),
{
    let mut r: Vec<u8> = Vec::new();
    let mut i: usize = from;
    while i < b.len()
        invariant
            from <= i <= b@.len(),
            r@ == b@.subrange(from as int, i as int),
        decreases b@.len() - i,
    {
        r.push(b[i]);
        i += 1;
        assert(b@.subrange(from as int, i as int) =~= b@.subrange(from as int, i - 1).push(
            b@[i - 1],
        ));
    }
    assert(r@ =~= b@.skip(from as int));
    r
}

/// Takes a response apart: its status and its body.
pub fn read_response(raw: &[u8]) -> (r: Result<(u16, Vec<u8>), NetError>)
    ensures
        is_response(r, response_of(raw@, lossy_text(status_line(raw@)))),
{
    let end: [u8; 4] = [13, 10, 13, 10];
    assert(end@ =~= head_end());
    let first: Vec<u8> = match locate(raw, &end, 0) {
        None => Vec::new(),
        Some(sep) => {
            assert(raw@.take(sep as int) =~= raw@.subrange(0, sep as int));
            take_until(raw, 0, sep, 10)
        },
    };
    assert(first@ =~= status_line(raw@));
    let line = lossy_string(&first);
    response_with(raw, line.as_str())
}

/// What came before a read ended early is used where the end was only untidy
/// and something came.
pub fn usable_after(unexpected_eof: bool, read: usize) -> (r: bool)
    ensures
        r == (unexpected_eof && read > 0),
{
    unexpected_eof && read > 0
}

/// The body of an answer to a `GET`: only status 200 has one.
pub fn get_body(status: u16, body: Vec<u8>) -> (r: Result<Vec<u8>, NetError>)
    ensures
        match r {
            Ok(b) => status == 200 && b == body,
            Err(e) => status != 200 && e.kind == NetErrorKind::Other && e.text@
                == "non-200 response: HTTP "@ + dec(status as nat),
        },
{
    if status != 200 {
        let mut text: String = "non-200 response: HTTP ".to_owned();
        push_dec(&mut text, status as u64);
        return Err(NetError { kind: NetErrorKind::Other, text });
    }
    Ok(body)
}

/// An answer is in flight only where its words begin so; whatever is not
/// recognised is not.
pub proof fn law_only_two_answers_are_in_flight(body: Seq<char>)
    ensures
        class_of(body) is Accepted || class_of(body) is Duplicate <==> words_of(body).len() > 0 && (
        words_of(body)[0] == "accepted"@ || words_of(body)[0] == "duplicate"@),
        words_of(body).len() > 0 ==> {
            let w = words_of(body)[0];
            &&& (w == "accepted"@ <==> class_of(body) is Accepted)
            &&& (w == "duplicate"@ <==> class_of(body) is Duplicate)
            &&& (w == "refused:"@ <==> class_of(body) is Refused)
            &&& (w == "unavailable:"@ <==> class_of(body) is Unavailable)
        },
        words_of(body).len() == 0 ==> class_of(body) is Unknown,
{
    reveal_strlit("accepted");
    reveal_strlit("duplicate");
    reveal_strlit("refused:");
    reveal_strlit("unavailable:");
    assert("accepted"@[0] != "refused:"@[0]);
    assert("accepted"@.len() == 8 && "duplicate"@.len() == 9 && "unavailable:"@.len() == 12);
}

/// The id that an answer echoes is what follows the word and a space, without
/// white space around it; an answer that begins otherwise echoes none.
pub proof fn law_an_answer_echoes_its_id(word: Seq<char>, rest: Seq<char>)
    requires
        lacks(word, ' '),
    ensures
        echoed_id(word.push(' ') + rest) == (if word == "accepted"@ || word == "duplicate"@ {
            Some(trim_of(rest))
        } else {
            None
        }),
        echoed_id(word) is None,
{
    lemma_parted(word, ' ', rest);
    lemma_position(word, ' ');
}

proof fn lemma_found(b: Seq<u8>, pat: Seq<u8>, i: int)
    requires
        0 <= i,
        pat.len() > 0,
    ensures
        match find_bytes(b, pat, i) {
            Some(p) => i <= p <= b.len() - pat.len() && b.subrange(p, p + pat.len() as int) == pat
                && forall|k: int|
                i <= k < p ==> #[trigger] b.subrange(k, k + pat.len() as int) != pat,
            None => forall|k: int|
                i <= k <= b.len() - pat.len() ==> #[trigger] b.subrange(k, k + pat.len() as int) != pat,
        },
    decreases b.len() - i,
{
    if i + pat.len() <= b.len() && b.subrange(i, i + pat.len() as int) != pat {
        lemma_found(b, pat, i + 1);
    }
}

proof fn lemma_line_end(line: Seq<u8>, rest: Seq<u8>)
    requires
        forall|i: int| 0 <= i < line.len() ==> line[i] != 13,
    ensures
        find_bytes(line + crlf() + rest, crlf(), 0) == Some(line.len() as int),
{
    let b = line + crlf() + rest;
    lemma_found(b, crlf(), 0);
    let n = line.len() as int;
    assert(b.subrange(n, n + 2) =~= crlf());
    assert forall|k: int| 0 <= k < n implies #[trigger] b.subrange(k, k + 2) != crlf() by {
        assert(b.subrange(k, k + 2)[0] == line[k]);
    }
    match find_bytes(b, crlf(), 0) {
        Some(p) => {
            if p < n {
                assert(b.subrange(p, p + 2) != crlf());
            }
            if p > n {
                assert(b.subrange(n, n + 2) != crlf());
            }
        },
        None => {
            assert(b.subrange(n, n + 2) != crlf());
        },
    }
}

/// A chunk gives its own bytes, as many as its line announces, and behind its
/// line end the next one is read; the chunk of size 0 ends the body. Bytes that
/// are fewer than announced are no chunk.
pub proof fn law_a_chunk_gives_its_bytes(
    line: Seq<u8>,
    data: Seq<u8>,
    end: Seq<u8>,
    rest: Seq<u8>,
)
    requires
        forall|i: int| 0 <= i < line.len() ==> line[i] != 13,
        end.len() == 2,
    ensures
        chunk_size(line) is None ==> unchunked(line + crlf() + rest) is None,
        chunk_size(line) == Some(0nat) ==> unchunked(line + crlf() + rest) == Some(
            Seq::<u8>::empty(),
        ),
        data.len() > 0 && chunk_size(line) == Some(data.len()) ==> unchunked(
            line + crlf() + data + end + rest,
        ) == match unchunked(rest) {
            Some(more) => Some(data + more),
            None => None,
        },
        chunk_size(line) matches Some(n) ==> n > 0 && rest.len() < n + 2 ==> unchunked(
            line + crlf() + rest,
        ) is None,
{
    let n = line.len() as int;
    lemma_line_end(line, rest);
    let b = line + crlf() + rest;
    assert(b.take(n) =~= line);
    assert(b.skip(n + 2) =~= rest);
    let tail = data + end + rest;
    let c = line + crlf() + tail;
    assert(line + crlf() + data + end + rest =~= c);
    lemma_line_end(line, tail);
    assert(c.take(n) =~= line);
    assert(c.skip(n + 2) =~= tail);
    assert(tail.skip(data.len() as int + 2) =~= rest);
    assert(tail.take(data.len() as int) =~= data);
}

/// A response ends its head at the first empty line; its status is the number in
/// the second word of its first line, and what follows the empty line is its
/// body, put together where the head says that it comes in chunks.
pub proof fn law_a_response_is_its_head_and_body(raw: Seq<u8>, line: Seq<char>, sep: int)
    requires
        0 <= sep <= raw.len() - 4,
        raw.subrange(sep, sep + 4) == head_end(),
        forall|k: int| 0 <= k < sep ==> #[trigger] raw.subrange(k, k + 4) != head_end(),
    ensures
        response_of(raw, line) is Ok ==> words_of(line).len() >= 2 && number_text(
            words_of(line)[1],
            u16::MAX as nat,
        ) == Some((response_of(raw, line)->Ok_0).0 as nat),
        words_of(line).len() < 2 ==> response_of(raw, line) is Err,
        ({
            let chunked = exists|k: int|
                0 <= k <= sep - 26 && #[trigger] lowered(raw.take(sep)).subrange(k, k + 26) == CHUNKED@;
            &&& !chunked && status_of(line) is Some ==> response_of(raw, line) is Ok && (response_of(
                raw,
                line,
            )->Ok_0).1 == raw.skip(sep + 4)
            &&& chunked && status_of(line) is Some ==> match unchunked(raw.skip(sep + 4)) {
                Some(b) => response_of(raw, line) is Ok && (response_of(raw, line)->Ok_0).1 == b,
                None => response_of(raw, line) is Err,
            }
        }),
{
    let head = lowered(raw.take(sep));
    lemma_found(raw, head_end(), 0);
    lemma_found(head, CHUNKED@, 0);
    assert(find_bytes(raw, head_end(), 0) == Some(sep)) by {
        match find_bytes(raw, head_end(), 0) {
            Some(p) => {
                if p < sep {
                    assert(raw.subrange(p, p + 4) != head_end());
                }
                if sep < p {
                    assert(raw.subrange(sep, sep + 4) != head_end());
                }
            },
            None => {
                assert(raw.subrange(sep, sep + 4) != head_end());
            },
        }
    }
}

/// Without an empty line there is no head, and so no response.
pub proof fn law_no_response_without_a_head(raw: Seq<u8>, line: Seq<char>)
    requires
        forall|k: int| 0 <= k <= raw.len() - 4 ==> #[trigger] raw.subrange(k, k + 4) != head_end(),
    ensures
        response_of(raw, line) is Err,
{
    lemma_found(raw, head_end(), 0);
    if let Some(p) = find_bytes(raw, head_end(), 0) {
        assert(raw.subrange(p, p + 4) != head_end());
    }
}

/// An https authority is dialled at the port that it writes, and at 443 where it
/// writes none; the name that is checked is the host without its port. An empty
/// host and a path are refused.
pub proof fn law_https_is_dialled_at_its_port(host: Seq<char>, port: Seq<char>)
    requires
        lacks(host, ':'),
        lacks(host, '/'),
        lacks(port, '/'),
        host.len() > 0 ==> host[0] != '[',
    ensures
        host.len() == 0 ==> https_of(host) is Err && https_of(host.push(':') + port) is Err,
        host.len() > 0 ==> https_of(host) == Ok::<EndpointModel, Seq<char>>(
            EndpointModel { dial: host + ":443"@, host, sni: Some(host) },
        ),
        host.len() > 0 ==> https_of(host.push(':') + port) == Ok::<EndpointModel, Seq<char>>(
            EndpointModel {
                dial: host.push(':') + port,
                host: host.push(':') + port,
                sni: Some(host),
            },
        ),
        forall|path: Seq<char>| #[trigger] https_of(host.push('/') + path) is Err,
{
    let full = host.push(':') + port;
    lemma_parted(host, ':', port);
    lemma_position(host, ':');
    lemma_position(host, '/');
    lemma_position(full, '/');
    let p = position(full, '/');
    if p < full.len() {
        if p < host.len() {
            assert(full[p] == host[p]);
        } else if p > host.len() {
            assert(full[p] == port[p - host.len() - 1]);
        }
    }
    if host.len() > 0 {
        assert(full[0] == host[0]);
    }
    assert forall|path: Seq<char>| #[trigger] https_of(host.push('/') + path) is Err by {
        let a = host.push('/') + path;
        lemma_position(a, '/');
        if position(a, '/') >= a.len() {
            assert(a[host.len() as int] == '/');
        }
    }
}

/// TLS is spoken exactly where the base URL says https, and then the name that
/// is checked is part of the authority that was written.
pub proof fn law_tls_follows_the_scheme(url: Seq<char>)
    requires
        url_of(url) is Ok,
    ensures
        url_of(url)->Ok_0.sni is Some <==> begins(url, "https://"@),
        begins(url, "http://"@) ==> url_of(url)->Ok_0.dial == url.skip(7)
            && url_of(url)->Ok_0.host == url.skip(7),
        begins(url, "https://"@) ==> url_of(url)->Ok_0.host == url.skip(8),
{
    reveal_strlit("http://");
    reveal_strlit("https://");
    if begins(url, "http://"@) && begins(url, "https://"@) {
        let a = url.take(7);
        let b = url.take(8);
        assert(a[4] == url[4] && b[4] == url[4]);
    }
}

} // verus!
