use qumbra_wallet::host::{
    frame_len, framed, holder_of, lock_move, read_frame, write_frame, Frame, HostAction, HostEvent,
    HostPhase, HostRun, LockFound, LockMove, Reply, CONTENDED, INCOMPLETE_JOB, MAX_IN, MAX_OUT,
    NO_GREETING, PROTOCOL, UNKNOWN_OP,
};
use qumbra_wallet::net::SubmitAnswer;
use qumbra_wallet::spend::SendError;

fn frame(text: &str) -> Frame {
    read_frame(text.as_bytes()).expect("a frame")
}

fn job() -> Frame {
    frame(r#"{"op":"prove_and_submit","bundle_b64":"AA==","scan_url":"s","node_url":"n"}"#)
}

fn asked() -> HostRun {
    let mut run = HostRun::new();
    run.run(HostEvent::Frame(frame(r#"{"op":"hello","v":1}"#)));
    let (replies, action) = run.run(HostEvent::Frame(job()));
    assert!(replies.is_empty());
    assert_eq!(action, HostAction::TakeLock);
    run
}

#[test]
fn a_frame_is_a_json_object_behind_its_length() {
    assert_eq!(frame_len(&[5, 0, 0, 0]), Ok(5));
    assert_eq!(frame_len(&MAX_IN.to_le_bytes()), Ok(MAX_IN));
    assert!(frame_len(&(MAX_IN + 1).to_le_bytes()).unwrap_err().contains("67108865 bytes"));
    let f = frame(r#"{"op":"hello","v":3,"scan_url":7}"#);
    assert_eq!(f.op.as_deref(), Some("hello"));
    assert_eq!(f.v, Some(3));
    assert_eq!(f.scan_url, None, "a number is no text");
    let err = read_frame(b"{").err().unwrap();
    assert!(err.starts_with("frame is not JSON: EOF"), "{err}");
}

#[test]
fn a_reply_is_framed_little_endian() {
    let bytes = write_frame(&Reply::Hello { v: 1 }).unwrap();
    let n = u32::from_le_bytes([bytes[0], bytes[1], bytes[2], bytes[3]]) as usize;
    assert_eq!(n, bytes.len() - 4);
    let back = frame(&String::from_utf8(bytes[4..].to_vec()).unwrap());
    assert_eq!(back.op.as_deref(), Some("hello"));
    assert_eq!(back.v, Some(PROTOCOL));
    let bytes = write_frame(&Reply::Accepted { status: 202, body: "a\"b".to_string() }).unwrap();
    let text = String::from_utf8(bytes[4..].to_vec()).unwrap();
    assert!(text.contains("\"status\":202") && text.contains("a\\\"b"), "{text}");
    assert_eq!(framed(vec![1, 2, 3]).unwrap(), [3, 0, 0, 0, 1, 2, 3]);
    assert!(framed(vec![0; MAX_OUT]).is_ok());
    assert!(framed(vec![0; MAX_OUT + 1]).unwrap_err().contains("1048577 bytes"));
}

#[test]
fn a_job_ends_in_one_last_reply() {
    let mut run = asked();
    assert_eq!(run.run(HostEvent::Locked(Ok(()))).1, HostAction::Decode);
    assert_eq!(run.run(HostEvent::Decoded(Ok(()))).1, HostAction::ReadBundle);
    assert_eq!(run.run(HostEvent::Bundle(Ok(()))).1, HostAction::Preflight);
    assert_eq!(run.run(HostEvent::Preflighted(Ok(()))).1, HostAction::Prove);
    let (replies, action) =
        run.run(HostEvent::Proved { steps: vec!["Proving".to_string()], done: Ok(()) });
    assert_eq!(replies, vec![Reply::Step { words: "Proving".to_string() }]);
    assert_eq!(action, HostAction::Submit);
    let submitting = run.clone();
    let last = |body: &str| {
        let mut run = submitting.clone();
        let answer = SubmitAnswer { status: 202, body: body.to_string() };
        let (replies, action) = run.run(HostEvent::Submitted { steps: vec![], done: Ok(answer) });
        assert_eq!((replies.len(), action, run.phase), (1, HostAction::Stop, HostPhase::Over));
        replies[0].clone()
    };
    let body = "accepted 0102".to_string();
    assert_eq!(last(&body), Reply::Accepted { status: 202, body });
    let body = "duplicate 0102".to_string();
    let duplicate = last(&body);
    assert_eq!(duplicate, Reply::Duplicate { status: 202, body });
    let bytes = write_frame(&duplicate).unwrap();
    let back = frame(&String::from_utf8(bytes[4..].to_vec()).unwrap());
    assert_eq!(back.op.as_deref(), Some("duplicate"));
    let body = "refused: stale anchor".to_string();
    let declined = last(&body);
    assert_eq!(declined, Reply::Declined { status: 202, body });
    let bytes = write_frame(&declined).unwrap();
    let text = String::from_utf8(bytes[4..].to_vec()).unwrap();
    assert_eq!(frame(&text).op.as_deref(), Some("refused"));
    assert!(text.contains("\"why\":\"refused: stale anchor\""), "{text}");
    assert!(text.contains("\"status\":202"), "{text}");
    for body in ["unavailable: syncing", "?"] {
        let answered = last(body);
        assert_eq!(answered, Reply::Answered { status: 202, body: body.to_string() });
        let bytes = write_frame(&answered).unwrap();
        let text = String::from_utf8(bytes[4..].to_vec()).unwrap();
        assert_eq!(frame(&text).op.as_deref(), Some("answered"), "no refusal");
        assert!(text.contains("\"status\":202") && text.contains(body), "{text}");
    }
}

#[test]
fn every_refusal_stops_the_host() {
    let refused = |r: (Vec<Reply>, HostAction)| match (&r.0[..], r.1) {
        ([Reply::Refused { why }], HostAction::Stop) => why.clone(),
        other => panic!("{other:?}"),
    };
    let mut run = HostRun::new();
    assert_eq!(refused(run.run(HostEvent::Frame(job()))), NO_GREETING);
    let mut run = HostRun::new();
    let why = refused(run.run(HostEvent::Frame(frame(r#"{"op":"hello","v":2}"#))));
    assert!(why.contains('2'), "{why}");
    let mut run = HostRun::new();
    let (replies, _) = run.run(HostEvent::Frame(frame(r#"{"op":"hello","v":1}"#)));
    assert_eq!(replies, vec![Reply::Hello { v: 1 }]);
    let mut other = run.clone();
    assert_eq!(refused(run.run(HostEvent::Frame(frame(r#"{"op":"scan"}"#)))), UNKNOWN_OP);
    let half = frame(r#"{"op":"prove_and_submit","scan_url":"s"}"#);
    assert_eq!(refused(other.run(HostEvent::Frame(half))), INCOMPLETE_JOB);
    assert_eq!(refused(asked().run(HostEvent::Locked(Err("busy".to_string())))), "busy");
    let mut run = asked();
    run.run(HostEvent::Locked(Ok(())));
    let mut reading = run.clone();
    assert_eq!(
        refused(run.run(HostEvent::Decoded(Err("padding".to_string())))),
        "bundle_b64 did not decode: padding"
    );
    reading.run(HostEvent::Decoded(Ok(())));
    assert_eq!(
        refused(reading.run(HostEvent::Bundle(Err("magic".to_string())))),
        "witness bundle refused: magic"
    );
    let mut run = asked();
    run.run(HostEvent::Locked(Ok(())));
    run.run(HostEvent::Decoded(Ok(())));
    run.run(HostEvent::Bundle(Ok(())));
    run.run(HostEvent::Preflighted(Ok(())));
    run.run(HostEvent::Proved { steps: vec![], done: Ok(()) });
    let lost = SendError::Incomplete { why: "reset".to_string(), wire_bytes: vec![] };
    let (replies, _) = run.run(HostEvent::Submitted { steps: vec![], done: Err(lost) });
    assert_eq!(replies, vec![Reply::Incomplete { why: "reset".to_string() }]);
}

#[test]
fn one_prove_at_a_time() {
    assert_eq!(holder_of(" 4711\n"), Some(4711));
    assert_eq!(holder_of("me"), None);
    assert_eq!(holder_of("4294967296"), None);
    assert_eq!(lock_move(0, LockFound::Free), LockMove::Taken);
    assert_eq!(lock_move(0, LockFound::Held { alive: None }), LockMove::ReapAndRetry);
    assert_eq!(
        lock_move(1, LockFound::Held { alive: None }),
        LockMove::ReapAndRefuse { why: CONTENDED.to_string() }
    );
    match lock_move(0, LockFound::Held { alive: Some(12) }) {
        LockMove::Refuse { why } => assert!(why.contains("(pid 12)"), "{why}"),
        other => panic!("{other:?}"),
    }
    assert_eq!(
        lock_move(0, LockFound::Failed { why: "denied".to_string() }),
        LockMove::Refuse { why: "prove lock unavailable: denied".to_string() }
    );
}
