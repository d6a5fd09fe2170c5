use qumbra_wallet::net::{
    answer_of, dechunk, endpoint_of, fetch_failed_text, get_body, get_request, post_request,
    read_response, refuse, response_with, scan_fetch, submit_tx, undecodable_text, usable_after,
    HttpAnchorSource, HttpLeafSource, NetErrorKind, SubmitAnswer, SubmitClass, WalletEndpoint,
};

fn answer(status: u16, body: &str) -> SubmitAnswer {
    SubmitAnswer { status, body: body.to_string() }
}

#[test]
fn the_pinned_response_wire_classifies_by_its_first_token() {
    let acc = answer(202, "accepted 1f2e3d4c");
    assert_eq!(acc.class(), SubmitClass::Accepted);
    assert_eq!(acc.txid_hex().as_deref(), Some("1f2e3d4c"));
    assert!(acc.is_in_flight());

    let dup = answer(200, "duplicate 1f2e3d4c");
    assert_eq!(dup.class(), SubmitClass::Duplicate);
    assert_eq!(dup.txid_hex().as_deref(), Some("1f2e3d4c"));
    assert!(dup.is_in_flight(), "a duplicate IS in flight — retry is safe, not a failure");

    let ref_ = answer(400, "refused: wrong-fee expected=1000000 got=1");
    assert_eq!(ref_.class(), SubmitClass::Refused);
    assert_eq!(ref_.txid_hex(), None);
    assert!(!ref_.is_in_flight());

    let un = answer(503, "unavailable: state-lag — this node's applied state is behind");
    assert_eq!(un.class(), SubmitClass::Unavailable);
    assert!(!un.is_in_flight());
}

#[test]
fn an_unrecognised_answer_is_unknown_and_never_flattened() {
    let odd = answer(418, "refused-in-some-future-vocabulary: teapot");
    assert_eq!(odd.class(), SubmitClass::Unknown);
    assert!(!odd.is_in_flight(), "unknown is never treated as in flight");
    assert_eq!(odd.body, "refused-in-some-future-vocabulary: teapot", "verbatim, always");
    assert_eq!(odd.txid_hex(), None);
}

#[test]
fn the_servers_whole_refusal_vocabulary_lands_in_the_right_class() {
    for name in [
        "refused: nullifier-repeated-in-tx",
        "refused: discovery-not-canonical",
        "refused: discovery-does-not-bind expected=1 got=2",
        "refused: wrong-fee expected=1000000 got=1",
        "refused: anchor-not-valid",
        "refused: nullifier-spent",
        "refused: nullifier-conflict-in-pool",
        "refused: proof-invalid",
        "refused: body-too-large (> 262144 bytes)",
        "refused: body-unreadable",
    ] {
        assert_eq!(answer(400, name).class(), SubmitClass::Refused, "{name}");
    }
    for name in [
        "unavailable: state-lag — this node's applied state is behind its chain",
        "unavailable: submit-queue-full — the node is behind on verdicts; retry",
        "unavailable: submit-busy — too many submissions in flight; retry",
        "unavailable: no-verdict-in-time — the node loop did not answer within 60s",
        "unavailable: node-shutting-down",
    ] {
        assert_eq!(answer(503, name).class(), SubmitClass::Unavailable, "{name}");
    }
}

#[test]
fn https_defaults_to_443_and_carries_the_host_as_written() {
    let ep = endpoint_of("https://h").unwrap();
    assert_eq!(ep.dial, "h:443");
    assert_eq!(ep.host, "h");
    assert_eq!(ep.sni.as_deref(), Some("h"));

    let real = endpoint_of("https://seed.qumbra.org").unwrap();
    assert_eq!(real.dial, "seed.qumbra.org:443");
    assert_eq!(real.host, "seed.qumbra.org");
    assert_eq!(real.sni.as_deref(), Some("seed.qumbra.org"));
}

#[test]
fn an_explicit_https_port_is_kept_and_the_sni_is_the_bare_host() {
    let ep = endpoint_of("https://h:9450").unwrap();
    assert_eq!(ep.dial, "h:9450");
    assert_eq!(ep.host, "h:9450");
    assert_eq!(ep.sni.as_deref(), Some("h"));
}

#[test]
fn http_is_unchanged_and_never_defaults_a_port() {
    let ep = endpoint_of("http://h:9490").unwrap();
    assert_eq!(ep.dial, "h:9490");
    assert_eq!(ep.host, "h:9490");
    assert_eq!(ep.sni, None, "no TLS on the plaintext path");

    let no_port = endpoint_of("http://h").unwrap();
    assert_eq!(no_port.dial, "h", "http gains no default port");
}

#[test]
fn an_ipv6_literal_is_bracketed_to_dial_and_bare_as_a_name() {
    let ep = endpoint_of("https://[::1]").unwrap();
    assert_eq!(ep.dial, "[::1]:443");
    assert_eq!(ep.sni.as_deref(), Some("::1"));

    let ported = endpoint_of("https://[::1]:9450").unwrap();
    assert_eq!(ported.dial, "[::1]:9450");
    assert_eq!(ported.sni.as_deref(), Some("::1"));
}

#[test]
fn an_unknown_scheme_is_refused_before_a_socket_and_names_both_schemes() {
    for url in ["ws://node.example", "file:///etc/passwd", "node.example:9490", ""] {
        let e = endpoint_of(url).unwrap_err();
        assert_eq!(e.kind(), NetErrorKind::InvalidInput, "{url}");
        let msg = e.message();
        assert!(msg.contains("http://"), "{url}: refusal must name http:// — {msg}");
        assert!(msg.contains("https://"), "{url}: refusal must name https:// — {msg}");
    }
}

#[test]
fn submit_tx_refuses_an_unspeakable_scheme_before_it_opens_a_socket() {
    let e = submit_tx("ws://node.example", b"x").unwrap_err();
    assert_eq!(e.kind(), NetErrorKind::InvalidInput);
    assert!(e.message().contains("https://"));
}

#[test]
fn an_https_base_url_with_a_path_is_refused_by_name() {
    let e = endpoint_of("https://h/v1").unwrap_err();
    assert_eq!(e.kind(), NetErrorKind::InvalidInput);
    assert!(e.message().contains("no path"), "{}", e.message());
}

#[test]
fn dechunk_reassembles_a_chunked_body() {
    assert_eq!(dechunk(b"5\r\nhello\r\n0\r\n\r\n").unwrap(), b"hello");
    assert_eq!(dechunk(b"0\r\n\r\n").unwrap(), b"");
    assert!(dechunk(b"5\r\nhi\r\n0\r\n\r\n").is_err(), "a short chunk is malformed");
}

#[test]
fn a_request_is_written_with_its_host_and_length() {
    let q = get_request("http://h:9490", "/v1/anchors").unwrap();
    assert_eq!(q.endpoint.dial, "h:9490");
    assert_eq!(q.head, "GET /v1/anchors HTTP/1.1\r\nHost: h:9490\r\nConnection: close\r\n\r\n");
    let p = post_request("https://h", "/v1/tx", b"abc").unwrap();
    assert_eq!(p.endpoint.dial, "h:443");
    assert_eq!(
        p.head,
        "POST /v1/tx HTTP/1.1\r\nHost: h\r\nContent-Type: application/octet-stream\r\n\
         Content-Length: 3\r\nConnection: close\r\n\r\n"
    );
    assert_eq!(p.body, b"abc");
    assert_eq!(submit_tx("https://h", b"abc").unwrap().head, p.head);
    assert_eq!(scan_fetch("http://h:9490", "/v1/anchors").unwrap().head, q.head);
    assert!(scan_fetch("ws://h", "/v1/anchors").unwrap_err().contains("https://"));
    let e = WalletEndpoint { url: "https://h".to_string() };
    assert_eq!(e.post("/v1/tx", b"abc").unwrap(), p);
    assert_eq!(e.get("/x").unwrap().head, "GET /x HTTP/1.1\r\nHost: h\r\nConnection: close\r\n\r\n");
    assert!(WalletEndpoint { url: "ws://h".to_string() }.get("/x").is_err());
}

#[test]
fn a_response_is_read_by_its_status_line_and_body() {
    let (status, body) = read_response(b"HTTP/1.1 202 Accepted\r\nX: y\r\n\r\naccepted ab").unwrap();
    assert_eq!((status, body.as_slice()), (202, &b"accepted ab"[..]));
    let chunked = b"HTTP/1.1 200 OK\r\nTransfer-Encoding: CHUNKED\r\n\r\n3\r\nabc\r\n0\r\n\r\n";
    assert_eq!(read_response(chunked).unwrap(), (200, b"abc".to_vec()));
    assert!(read_response(b"HTTP/1.1 200 OK\r\n").is_err(), "no end of the head");
    assert!(read_response(b"garbage\r\n\r\n").is_err(), "no status");
    assert_eq!(
        response_with(b"x\r\n\r\nrest", "HTTP/1.1 404 Not Found").unwrap(),
        (404, b"rest".to_vec())
    );
}

#[test]
fn only_a_body_under_200_is_taken() {
    assert_eq!(get_body(200, vec![1, 2]).unwrap(), vec![1, 2]);
    let e = get_body(404, vec![1]).unwrap_err();
    assert!(e.message().contains("404"), "{}", e.message());
    assert!(usable_after(true, 10));
    assert!(!usable_after(true, 0));
    assert!(!usable_after(false, 10));
}

#[test]
fn an_answer_is_read_trimmed_and_without_failing_on_bytes() {
    let a = answer_of(200, b" accepted ff \n");
    assert_eq!(a.body, "accepted ff");
    assert_eq!(a.txid_hex().as_deref(), Some("ff"));
    let odd = answer_of(500, &[0x66, 0xFF, 0x6F]);
    assert_eq!(odd.body, "f\u{FFFD}o", "what is not UTF-8 is replaced");
}

#[test]
fn sources_name_their_paths_and_faults() {
    assert_eq!(HttpLeafSource::new("http://h:1").base_url, "http://h:1");
    assert_eq!(HttpAnchorSource::new("http://h:1").base_url, "http://h:1");
    assert_eq!(HttpLeafSource::path(7), "/v1/tree/leaves?from=7");
    assert!(fetch_failed_text("/v1/x", "down").contains("down"));
    assert!(undecodable_text("/v1/x", "bad").contains("bad"));
    assert_eq!(refuse("no").kind(), NetErrorKind::InvalidInput);
}
