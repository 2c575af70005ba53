use query_relay::abi::AbiType;
use query_relay::abi::Token;
use query_relay::codec::decode;
use query_relay::codec::encode;
use query_relay::relay::after_fetch;
use query_relay::relay::after_submit;
use query_relay::relay::begin_cycle;
use query_relay::relay::build_callback_request;
use query_relay::relay::decode_query;
use query_relay::relay::CallbackRequest;
use query_relay::relay::CycleOutcome;
use query_relay::relay::CycleStep;
use query_relay::relay::FailReason;
use query_relay::relay::FetchError;
use query_relay::relay::QueryEvent;
use query_relay::relay::SubmitError;
use query_relay::relay::SubmitStep;
use query_relay::relay::WireFormat;

fn event(query_id: u8, query_data: Vec<u8>) -> QueryEvent {
    QueryEvent {
        query_id: vec![query_id; 32],
        program_id: vec![0x33; 32],
        query_data,
        callback_address: vec![0x44; 20],
        callback_selector: vec![0xde, 0xad, 0xbe, 0xef],
        gas_limit: 100_000,
    }
}

fn format_a_query(dapp_id: Vec<u8>, file_id: &[u8]) -> Vec<u8> {
    encode(&vec![Token::FixedBytes(dapp_id), Token::Text(file_id.to_vec())]).unwrap()
}

fn format_b_query(owner: Vec<u8>, file_id: &[u8], commit_id: &[u8]) -> Vec<u8> {
    encode(&vec![
        Token::FixedBytes(owner),
        Token::Text(file_id.to_vec()),
        Token::Text(commit_id.to_vec()),
    ])
    .unwrap()
}

fn run_cycle(
    format: WireFormat,
    ev: &QueryEvent,
    fetched: Result<Vec<u8>, FetchError>,
) -> Result<CallbackRequest, FailReason> {
    match begin_cycle(format, ev) {
        CycleStep::Fetch(_q) => match after_fetch(format, ev, fetched) {
            SubmitStep::Submit(cr) => Ok(cr),
            SubmitStep::Failed(r) => Err(r),
        },
        CycleStep::Failed(r) => Err(r),
    }
}

#[test]
fn decode_query_format_a() {
    let qd = format_a_query(vec![0u8; 16], b"file-123");
    let q = decode_query(WireFormat::RequestForward, &qd).unwrap();
    assert_eq!(q.owner, vec![0u8; 16]);
    assert_eq!(q.file_id, b"file-123".to_vec());
    assert_eq!(q.commit_id, None);
}

#[test]
fn decode_query_format_b() {
    let qd = format_b_query(vec![5u8; 32], b"doc-42", b"v1");
    let q = decode_query(WireFormat::QueryAnswer, &qd).unwrap();
    assert_eq!(q.owner, vec![5u8; 32]);
    assert_eq!(q.file_id, b"doc-42".to_vec());
    assert_eq!(q.commit_id, Some(b"v1".to_vec()));
}

#[test]
fn decode_query_cross_format_fails() {
    let qa = format_a_query(vec![0u8; 16], b"file-123");
    let qb = format_b_query(vec![0u8; 32], b"doc-42", b"v1");
    assert!(decode_query(WireFormat::QueryAnswer, &qa).is_err());
    assert!(decode_query(WireFormat::RequestForward, &qb).is_err());
}

#[test]
fn decode_query_is_idempotent() {
    let qd = format_b_query(vec![9u8; 32], b"doc-7", b"v3");
    let q1 = decode_query(WireFormat::QueryAnswer, &qd).unwrap();
    let q2 = decode_query(WireFormat::QueryAnswer, &qd).unwrap();
    assert_eq!(q1, q2);
}

#[test]
fn scenario_a_request_forward() {
    // query data encodes (FixedBytes16 of zeros, "file-123"); the callback
    // input must decode back as (Bytes == original query data, Text == the
    // fetched JSON).
    let qd = format_a_query(vec![0u8; 16], b"file-123");
    let ev = event(1, qd.clone());
    let json = br#"[{"kind":"data"}]"#.to_vec();
    let cr = run_cycle(WireFormat::RequestForward, &ev, Ok(json.clone())).unwrap();
    assert_eq!(cr.callback_contract, ev.callback_address);
    assert_eq!(cr.function_selector, ev.callback_selector);
    assert_eq!(cr.gas_limit, ev.gas_limit);
    assert_eq!(cr.program_id, ev.program_id);
    let out = decode(&vec![AbiType::Bytes, AbiType::Text], &cr.input).unwrap();
    assert_eq!(out, vec![Token::Bytes(qd), Token::Text(json)]);
}

#[test]
fn scenario_b_empty_record_sequence() {
    // owner of 32 zero bytes, file "doc-42", commit "v1"; an empty record
    // sequence serializes as "[]" and must still produce a valid request.
    let qd = format_b_query(vec![0u8; 32], b"doc-42", b"v1");
    let ev = event(2, qd.clone());
    let cr = run_cycle(WireFormat::QueryAnswer, &ev, Ok(b"[]".to_vec())).unwrap();
    let out = decode(
        &vec![AbiType::FixedBytes(32), AbiType::Bytes, AbiType::Text],
        &cr.input,
    )
    .unwrap();
    assert_eq!(
        out,
        vec![
            Token::FixedBytes(ev.query_id.clone()),
            Token::Bytes(qd),
            Token::Text(b"[]".to_vec()),
        ]
    );
}

#[test]
fn bad_event_does_not_stop_the_next() {
    // per-event isolation: a decode failure on one event leaves the next
    // event's cycle untouched.
    let bad = event(7, b"not an encoding".to_vec());
    let good = event(8, format_b_query(vec![1u8; 32], b"doc-1", b"v1"));
    let r1 = run_cycle(WireFormat::QueryAnswer, &bad, Ok(b"[]".to_vec()));
    assert_eq!(r1.unwrap_err(), FailReason::Decode);
    let r2 = run_cycle(WireFormat::QueryAnswer, &good, Ok(b"[]".to_vec()));
    assert!(r2.is_ok());
    assert_eq!(after_submit(Ok(())), CycleOutcome::Completed);
}

#[test]
fn interleaved_cycles_do_not_share_fields() {
    // two in-flight events with distinct correlation ids: each request
    // carries only its own query id and query data.
    let qd1 = format_b_query(vec![0xaa; 32], b"doc-1", b"v1");
    let qd2 = format_b_query(vec![0xbb; 32], b"doc-2", b"v2");
    let e1 = event(1, qd1.clone());
    let e2 = event(2, qd2.clone());
    let s1 = begin_cycle(WireFormat::QueryAnswer, &e1);
    let s2 = begin_cycle(WireFormat::QueryAnswer, &e2);
    assert!(matches!(s1, CycleStep::Fetch(_)));
    assert!(matches!(s2, CycleStep::Fetch(_)));
    let cr2 = match after_fetch(WireFormat::QueryAnswer, &e2, Ok(b"[2]".to_vec())) {
        SubmitStep::Submit(cr) => cr,
        SubmitStep::Failed(r) => panic!("cycle two failed: {:?}", r),
    };
    let cr1 = match after_fetch(WireFormat::QueryAnswer, &e1, Ok(b"[1]".to_vec())) {
        SubmitStep::Submit(cr) => cr,
        SubmitStep::Failed(r) => panic!("cycle one failed: {:?}", r),
    };
    let types = vec![AbiType::FixedBytes(32), AbiType::Bytes, AbiType::Text];
    let out1 = decode(&types, &cr1.input).unwrap();
    let out2 = decode(&types, &cr2.input).unwrap();
    assert_eq!(out1[0], Token::FixedBytes(vec![1u8; 32]));
    assert_eq!(out1[1], Token::Bytes(qd1));
    assert_eq!(out1[2], Token::Text(b"[1]".to_vec()));
    assert_eq!(out2[0], Token::FixedBytes(vec![2u8; 32]));
    assert_eq!(out2[1], Token::Bytes(qd2));
    assert_eq!(out2[2], Token::Text(b"[2]".to_vec()));
}

#[test]
fn fetch_failures_fail_the_cycle() {
    let ev = event(3, format_b_query(vec![0u8; 32], b"doc-9", b"v1"));
    for fe in [FetchError::NotFound, FetchError::FetchTimeout, FetchError::MalformedDocument] {
        let r = run_cycle(WireFormat::QueryAnswer, &ev, Err(fe));
        assert_eq!(r.unwrap_err(), FailReason::Fetch(fe));
    }
}

#[test]
fn submit_failures_fail_the_cycle() {
    assert_eq!(
        after_submit(Err(SubmitError::ClientUnavailable)),
        CycleOutcome::Failed(FailReason::Submission(SubmitError::ClientUnavailable))
    );
    assert_eq!(
        after_submit(Err(SubmitError::RequestRejected)),
        CycleOutcome::Failed(FailReason::Submission(SubmitError::RequestRejected))
    );
}

#[test]
fn build_callback_request_embeds_own_event() {
    let qd = format_a_query(vec![3u8; 16], b"file-9");
    let ev = event(9, qd.clone());
    let cr = build_callback_request(WireFormat::RequestForward, &ev, &b"[]".to_vec()).unwrap();
    assert_eq!(cr.callback_contract, ev.callback_address);
    assert_eq!(cr.function_selector, ev.callback_selector);
    assert_eq!(cr.program_id, ev.program_id);
    assert_eq!(cr.gas_limit, ev.gas_limit);
    let out = decode(&vec![AbiType::Bytes, AbiType::Text], &cr.input).unwrap();
    assert_eq!(out[0], Token::Bytes(qd));
}

#[test]
fn limiter_applies_backpressure() {
    let mut lim = query_relay::relay::CycleLimiter::new(2);
    assert!(lim.try_begin());
    assert!(lim.try_begin());
    assert!(!lim.try_begin());
    lim.finish();
    assert!(lim.try_begin());
    lim.finish();
    lim.finish();
    assert!(!{
        let mut zero = query_relay::relay::CycleLimiter::new(0);
        zero.try_begin()
    });
}
