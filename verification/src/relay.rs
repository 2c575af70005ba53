//! The relay pipeline's pure decision logic.
//!
//! A `QueryEvent` is observed on chain; its `query_data` is decoded with the
//! codec under the wire format of the emitting contract; the off-chain
//! payload fetched for the decoded identifiers is re-encoded together with
//! the original query into a `CallbackRequest` for the proving backend.  The
//! surrounding I/O — the event subscription, the fetch and the submission —
//! is performed by the caller, which feeds each step's result back in; every
//! decision in the cycle lives here and is verified.
use vstd::prelude::*;

verus! {

use crate::words::be_bytes;
use crate::words::copy_range;
use crate::words::lemma_be_val_be_bytes;
use crate::abi::AbiType;
use crate::abi::AbiValue;
use crate::abi::Token;
use crate::abi::views_of;
use crate::abi::conforms;
use crate::abi::fits_type;
use crate::abi::tails_len;
use crate::abi::encoded;
use crate::abi::encoded_len;
use crate::abi::lemma_expected_bytes;
use crate::codec::encode;
use crate::codec::decode;
use crate::codec::EncodeError;
use crate::codec::DecodeError;
use crate::codec::lemma_conforms_wf;

/// The two enumerated wire formats, selected per event source.
#[derive(Clone, Copy, PartialEq, Eq, Debug)]
pub enum WireFormat {
    /// Query data is `(FixedBytes16 dapp_id, Text file_id)`; the callback
    /// input is `(Bytes original_query_data, Text payload_json)`.
    RequestForward,
    /// Query data is `(FixedBytes32 owner, Text file_id, Text commit_id)`;
    /// the callback input is `(FixedBytes32 query_id, Bytes
    /// original_query_data, Text payload_json)`.
    QueryAnswer,
}

/// One observed query event.  Fixed-width fields carry exactly the widths of
/// the on-chain log entry.
#[derive(Clone, PartialEq, Eq, Debug)]
pub struct QueryEvent {
    pub query_id: Vec<u8>,
    pub program_id: Vec<u8>,
    pub query_data: Vec<u8>,
    pub callback_address: Vec<u8>,
    pub callback_selector: Vec<u8>,
    pub gas_limit: u64,
}

/// Field widths of a valid event: 32-byte identifiers, 20-byte address,
/// 4-byte selector.
pub open spec fn wf_event(e: &QueryEvent) -> bool {
    &&& e.query_id@.len() == 32
    &&& e.program_id@.len() == 32
    &&& e.callback_address@.len() == 20
    &&& e.callback_selector@.len() == 4
}

/// The identifiers extracted from an event's query data.
#[derive(Clone, PartialEq, Eq, Debug)]
pub struct DecodedQuery {
    /// 16-byte dapp identifier under `RequestForward`; 32-byte owner under
    /// `QueryAnswer`.
    pub owner: Vec<u8>,
    pub file_id: Vec<u8>,
    /// Present exactly under `QueryAnswer`.
    pub commit_id: Option<Vec<u8>>,
}

/// The request handed to the proving backend.
#[derive(Clone, PartialEq, Eq, Debug)]
pub struct CallbackRequest {
    pub callback_contract: Vec<u8>,
    pub function_selector: Vec<u8>,
    pub gas_limit: u64,
    pub program_id: Vec<u8>,
    pub input: Vec<u8>,
}

/// Fetch failures of the off-chain document service.
#[derive(Clone, Copy, PartialEq, Eq, Debug)]
pub enum FetchError {
    NotFound,
    FetchTimeout,
    MalformedDocument,
}

/// Submission failures of the callback client.
#[derive(Clone, Copy, PartialEq, Eq, Debug)]
pub enum SubmitError {
    ClientUnavailable,
    RequestRejected,
}

/// Why a dispatch cycle ended in `Failed`.
#[derive(Clone, Copy, PartialEq, Eq, Debug)]
pub enum FailReason {
    Decode,
    Fetch(FetchError),
    Encode,
    Submission(SubmitError),
}

/// The type list of an event's query data under a wire format.
pub open spec fn query_types(f: WireFormat) -> Seq<AbiType> {
    match f {
        WireFormat::RequestForward => seq![AbiType::FixedBytes(16), AbiType::Text],
        WireFormat::QueryAnswer => seq![
            AbiType::FixedBytes(32),
            AbiType::Text,
            AbiType::Text,
        ],
    }
}

/// Relates a decoded value tuple to the `DecodedQuery` carrying its fields.
pub open spec fn query_from(f: WireFormat, vs: Seq<AbiValue>, q: DecodedQuery) -> bool {
    match f {
        WireFormat::RequestForward => vs == seq![
            AbiValue::FixedBytes(q.owner@),
            AbiValue::Text(q.file_id@),
        ] && q.commit_id is None,
        WireFormat::QueryAnswer => match q.commit_id {
            Option::Some(c) => vs == seq![
                AbiValue::FixedBytes(q.owner@),
                AbiValue::Text(q.file_id@),
                AbiValue::Text(c@),
            ],
            Option::None => false,
        },
    }
}

/// The value tuple re-encoded into the callback input.
pub open spec fn callback_values(
    f: WireFormat,
    qid: Seq<u8>,
    qdata: Seq<u8>,
    pj: Seq<u8>,
) -> Seq<AbiValue> {
    match f {
        WireFormat::RequestForward => seq![AbiValue::Bytes(qdata), AbiValue::Text(pj)],
        WireFormat::QueryAnswer => seq![
            AbiValue::FixedBytes(qid),
            AbiValue::Bytes(qdata),
            AbiValue::Text(pj),
        ],
    }
}

/// The executable type list of `query_types(f)`.
fn query_type_list(f: WireFormat) -> (r: Vec<AbiType>)
    ensures
        r@ == query_types(f),
{
    let mut r: Vec<AbiType> = Vec::new();
    match f {
        WireFormat::RequestForward => {
            r.push(AbiType::FixedBytes(16));
            r.push(AbiType::Text);
        },
        WireFormat::QueryAnswer => {
            r.push(AbiType::FixedBytes(32));
            r.push(AbiType::Text);
            r.push(AbiType::Text);
        },
    }
    proof {
        assert(r@ =~= query_types(f));
    }
    r
}

/// Decodes an event's query data under the wire format of its source.
///
/// Succeeds exactly when the bytes are the canonical encoding of the
/// format's type list; decoding is pure, so the same bytes always give the
/// same `DecodedQuery`.  Malformed or mismatched bytes are a
/// `MalformedPayload` error, never a partial result.
pub fn decode_query(format: WireFormat, query_data: &Vec<u8>) -> (r: Result<
    DecodedQuery,
    DecodeError,
>)
    ensures
        r is Ok <==> (exists|vs: Seq<AbiValue>| (#[trigger] conforms(query_types(format), vs))
            && encoded(vs) == query_data@),
        r matches Ok(q) ==> (forall|vs: Seq<AbiValue>| (#[trigger] conforms(
            query_types(format),
            vs,
        )) && encoded(vs) == query_data@ ==> query_from(format, vs, q)),
{
    let types = query_type_list(format);
    let toks = match decode(&types, query_data) {
        Ok(toks) => toks,
        Err(e) => {
            return Err(e);
        },
    };
    let ghost vs0 = views_of(toks@);
    proof {
        assert(conforms(query_types(format), vs0));
    }
    match format {
        WireFormat::RequestForward => {
            proof {
                assert(fits_type(query_types(format)[0], vs0[0]));
                assert(fits_type(query_types(format)[1], vs0[1]));
                assert(toks@[0]@ == vs0[0] && toks@[1]@ == vs0[1]);
            }
            let owner = match &toks[0] {
                Token::FixedBytes(b) => {
                    let o = copy_range(b, 0, b.len());
                    proof {
                        assert(o@ =~= b@);
                        assert(AbiValue::FixedBytes(o@) == vs0[0]);
                    }
                    o
                },
                _ => {
                    proof {
                        assert(false);
                    }
                    return Err(DecodeError::MalformedPayload);
                },
            };
            let file_id = match &toks[1] {
                Token::Text(b) => {
                    let o = copy_range(b, 0, b.len());
                    proof {
                        assert(o@ =~= b@);
                        assert(AbiValue::Text(o@) == vs0[1]);
                    }
                    o
                },
                _ => {
                    proof {
                        assert(false);
                    }
                    return Err(DecodeError::MalformedPayload);
                },
            };
            let q = DecodedQuery { owner, file_id, commit_id: None };
            proof {
                assert(vs0 =~= seq![
                    AbiValue::FixedBytes(q.owner@),
                    AbiValue::Text(q.file_id@),
                ]);
                assert forall|vs: Seq<AbiValue>| (#[trigger] conforms(
                    query_types(format),
                    vs,
                )) && encoded(vs) == query_data@ implies query_from(format, vs, q) by {
                    assert(vs == vs0);
                }
            }
            Ok(q)
        },
        WireFormat::QueryAnswer => {
            proof {
                assert(fits_type(query_types(format)[0], vs0[0]));
                assert(fits_type(query_types(format)[1], vs0[1]));
                assert(fits_type(query_types(format)[2], vs0[2]));
                assert(toks@[0]@ == vs0[0] && toks@[1]@ == vs0[1] && toks@[2]@ == vs0[2]);
            }
            let owner = match &toks[0] {
                Token::FixedBytes(b) => {
                    let o = copy_range(b, 0, b.len());
                    proof {
                        assert(o@ =~= b@);
                        assert(AbiValue::FixedBytes(o@) == vs0[0]);
                    }
                    o
                },
                _ => {
                    proof {
                        assert(false);
                    }
                    return Err(DecodeError::MalformedPayload);
                },
            };
            let file_id = match &toks[1] {
                Token::Text(b) => {
                    let o = copy_range(b, 0, b.len());
                    proof {
                        assert(o@ =~= b@);
                        assert(AbiValue::Text(o@) == vs0[1]);
                    }
                    o
                },
                _ => {
                    proof {
                        assert(false);
                    }
                    return Err(DecodeError::MalformedPayload);
                },
            };
            let commit = match &toks[2] {
                Token::Text(b) => {
                    let o = copy_range(b, 0, b.len());
                    proof {
                        assert(o@ =~= b@);
                        assert(AbiValue::Text(o@) == vs0[2]);
                    }
                    o
                },
                _ => {
                    proof {
                        assert(false);
                    }
                    return Err(DecodeError::MalformedPayload);
                },
            };
            let q = DecodedQuery { owner, file_id, commit_id: Some(commit) };
            proof {
                assert(vs0 =~= seq![
                    AbiValue::FixedBytes(q.owner@),
                    AbiValue::Text(q.file_id@),
                    AbiValue::Text(q.commit_id->0@),
                ]);
                assert forall|vs: Seq<AbiValue>| (#[trigger] conforms(
                    query_types(format),
                    vs,
                )) && encoded(vs) == query_data@ implies query_from(format, vs, q) by {
                    assert(vs == vs0);
                }
            }
            Ok(q)
        },
    }
}

} // verus!

verus! {

use crate::abi::wf_values;
use crate::abi::wf_value;
use crate::codec::lemma_usize_small;

/// A fresh copy of a byte vector.
fn clone_bytes(src: &Vec<u8>) -> (r: Vec<u8>)
    ensures
        r@ == src@,
{
    let r = copy_range(src, 0, src.len());
    proof {
        assert(r@ =~= src@);
    }
    r
}

/// Re-encodes the fetched payload together with the original query into the
/// callback input bytes for the proving backend.
///
/// Succeeds exactly when the encoding fits in a machine length, and then
/// yields precisely the canonical encoding of `callback_values(..)`: the
/// proving program on the far end re-decodes this exact tuple.
pub fn build_callback_input(
    format: WireFormat,
    query_id: &Vec<u8>,
    query_data: &Vec<u8>,
    payload_json: &Vec<u8>,
) -> (r: Result<Vec<u8>, EncodeError>)
    requires
        format is QueryAnswer ==> query_id@.len() == 32,
    ensures
        r matches Ok(out) ==> out@ == encoded(
            callback_values(format, query_id@, query_data@, payload_json@),
        ),
        r is Ok <==> encoded_len(callback_values(format, query_id@, query_data@, payload_json@))
            <= usize::MAX,
{
    let ghost cv = callback_values(format, query_id@, query_data@, payload_json@);
    let qd_len = query_data.len();
    let pj_len = payload_json.len();
    let mut toks: Vec<Token> = Vec::new();
    match format {
        WireFormat::RequestForward => {
            toks.push(Token::Bytes(clone_bytes(query_data)));
            toks.push(Token::Text(clone_bytes(payload_json)));
        },
        WireFormat::QueryAnswer => {
            toks.push(Token::FixedBytes(clone_bytes(query_id)));
            toks.push(Token::Bytes(clone_bytes(query_data)));
            toks.push(Token::Text(clone_bytes(payload_json)));
        },
    }
    proof {
        assert(views_of(toks@) =~= cv);
        lemma_usize_small();
        assert(qd_len == query_data@.len() && pj_len == payload_json@.len());
        assert forall|i: int| 0 <= i < cv.len() implies wf_value(#[trigger] cv[i]) by {
        }
        assert(wf_values(cv));
    }
    encode(&toks)
}

/// Builds the callback request for one event from its fetched payload.
///
/// Every field of the result comes from this event alone — the correlation
/// id, program id, callback target and gas budget are the event's own, and
/// the input embeds this event's query data — so concurrent cycles for
/// distinct events cannot contaminate one another.
pub fn build_callback_request(
    format: WireFormat,
    event: &QueryEvent,
    payload_json: &Vec<u8>,
) -> (r: Result<CallbackRequest, EncodeError>)
    requires
        wf_event(event),
    ensures
        r matches Ok(cr) ==> cr.callback_contract@ == event.callback_address@
            && cr.function_selector@ == event.callback_selector@
            && cr.gas_limit == event.gas_limit
            && cr.program_id@ == event.program_id@
            && cr.input@ == encoded(
            callback_values(format, event.query_id@, event.query_data@, payload_json@),
        ),
        r is Ok <==> encoded_len(
            callback_values(format, event.query_id@, event.query_data@, payload_json@),
        ) <= usize::MAX,
{
    let input = match build_callback_input(
        format,
        &event.query_id,
        &event.query_data,
        payload_json,
    ) {
        Ok(input) => input,
        Err(e) => {
            return Err(e);
        },
    };
    Ok(
        CallbackRequest {
            callback_contract: clone_bytes(&event.callback_address),
            function_selector: clone_bytes(&event.callback_selector),
            gas_limit: event.gas_limit,
            program_id: clone_bytes(&event.program_id),
            input,
        },
    )
}

/// What the dispatcher asks of its caller after consuming an event.
pub enum CycleStep {
    /// Decoding succeeded: fetch the document set for these identifiers.
    Fetch(DecodedQuery),
    /// The cycle ended; the event is dropped with this reason.
    Failed(FailReason),
}

/// What the dispatcher asks after the fetch result is in.
pub enum SubmitStep {
    /// Submit this request to the callback client.
    Submit(CallbackRequest),
    Failed(FailReason),
}

/// The terminal state of one dispatch cycle.
#[derive(Clone, Copy, PartialEq, Eq, Debug)]
pub enum CycleOutcome {
    Completed,
    Failed(FailReason),
}

/// First dispatcher transition for one event: decode its query data.
///
/// A malformed event fails this cycle alone with a decode failure; the
/// decision depends only on this event's bytes, so a bad event never affects
/// the processing of any other.
pub fn begin_cycle(format: WireFormat, event: &QueryEvent) -> (r: CycleStep)
    ensures
        r is Fetch <==> (exists|vs: Seq<AbiValue>| (#[trigger] conforms(query_types(format), vs))
            && encoded(vs) == event.query_data@),
        r matches CycleStep::Fetch(q) ==> (forall|vs: Seq<AbiValue>| (#[trigger] conforms(
            query_types(format),
            vs,
        )) && encoded(vs) == event.query_data@ ==> query_from(format, vs, q)),
        r matches CycleStep::Failed(reason) ==> reason is Decode,
{
    match decode_query(format, &event.query_data) {
        Ok(q) => CycleStep::Fetch(q),
        Err(_) => CycleStep::Failed(FailReason::Decode),
    }
}

/// Second transition: with the fetch result in hand, either build the
/// callback request or fail the cycle with the fetch error.
pub fn after_fetch(
    format: WireFormat,
    event: &QueryEvent,
    fetched: Result<Vec<u8>, FetchError>,
) -> (r: SubmitStep)
    requires
        wf_event(event),
    ensures
        fetched matches Ok(pj) ==> (if encoded_len(
            callback_values(format, event.query_id@, event.query_data@, pj@),
        ) <= usize::MAX {
            r matches SubmitStep::Submit(cr)
                && cr.callback_contract@ == event.callback_address@
                && cr.function_selector@ == event.callback_selector@
                && cr.gas_limit == event.gas_limit
                && cr.program_id@ == event.program_id@
                && cr.input@ == encoded(
                callback_values(format, event.query_id@, event.query_data@, pj@),
            )
        } else {
            r matches SubmitStep::Failed(reason) && reason is Encode
        }),
        fetched matches Err(e) ==> r == SubmitStep::Failed(FailReason::Fetch(e)),
{
    match fetched {
        Ok(pj) => match build_callback_request(format, event, &pj) {
            Ok(cr) => SubmitStep::Submit(cr),
            Err(_) => SubmitStep::Failed(FailReason::Encode),
        },
        Err(e) => SubmitStep::Failed(FailReason::Fetch(e)),
    }
}

/// Final transition: record the submission result.
pub fn after_submit(submitted: Result<(), SubmitError>) -> (r: CycleOutcome)
    ensures
        submitted is Ok <==> r is Completed,
        submitted matches Err(e) ==> r == CycleOutcome::Failed(FailReason::Submission(e)),
{
    match submitted {
        Ok(_) => CycleOutcome::Completed,
        Err(e) => CycleOutcome::Failed(FailReason::Submission(e)),
    }
}

} // verus!

verus! {

use vstd::arithmetic::power::lemma_pow_increases;
use crate::words::lemma_pow256;

/// Decode strictness across the two wire formats: a canonical encoding under
/// one format's type list is never a canonical encoding under the other's,
/// so decoding bytes produced for one format against the other always fails
/// with `MalformedPayload` and never yields partial values.  (The head word
/// of the first text field stores the offset of its tail — 64 under
/// `RequestForward`, 96 under `QueryAnswer` — so the two images differ.)
pub proof fn lemma_formats_distinct(vs1: Seq<AbiValue>, vs2: Seq<AbiValue>)
    requires
        conforms(query_types(WireFormat::RequestForward), vs1),
        conforms(query_types(WireFormat::QueryAnswer), vs2),
    ensures
        encoded(vs1) != encoded(vs2),
{
    lemma_conforms_wf(query_types(WireFormat::RequestForward), vs1);
    lemma_conforms_wf(query_types(WireFormat::QueryAnswer), vs2);
    if encoded(vs1) == encoded(vs2) {
        let data = encoded(vs1);
        lemma_expected_bytes(vs1, 1);
        lemma_expected_bytes(vs2, 1);
        assert(fits_type(query_types(WireFormat::RequestForward)[1], vs1[1]));
        assert(fits_type(query_types(WireFormat::QueryAnswer)[1], vs2[1]));
        assert(fits_type(query_types(WireFormat::RequestForward)[0], vs1[0]));
        assert(fits_type(query_types(WireFormat::QueryAnswer)[0], vs2[0]));
        let pos1 = (32 * vs1.len() + tails_len(vs1.take(1))) as nat;
        let pos2 = (32 * vs2.len() + tails_len(vs2.take(1))) as nat;
        assert(tails_len(vs1.take(1)) == 0) by {
            reveal_with_fuel(tails_len, 3);
            assert(vs1.take(1)[0] == vs1[0]);
            assert(vs1.take(1).skip(1) =~= Seq::<AbiValue>::empty());
        }
        assert(tails_len(vs2.take(1)) == 0) by {
            reveal_with_fuel(tails_len, 3);
            assert(vs2.take(1)[0] == vs2[0]);
            assert(vs2.take(1).skip(1) =~= Seq::<AbiValue>::empty());
        }
        assert(pos1 == 64 && pos2 == 96);
        assert(data.subrange(32, 64) == be_bytes(pos1, 32));
        assert(data.subrange(32, 64) == be_bytes(pos2, 32));
        lemma_pow256();
        lemma_pow_increases(256, 8, 32);
        lemma_be_val_be_bytes(pos1, 32);
        lemma_be_val_be_bytes(pos2, 32);
        assert(false);
    }
}

} // verus!

verus! {

/// Admission control for in-flight dispatch cycles: a bounded counter that
/// applies backpressure against the fetcher and the callback client.  A new
/// cycle starts only while fewer than `cap` cycles are in flight; unbounded
/// fan-out on a bursty event stream would otherwise exhaust resources.
pub struct CycleLimiter {
    pub cap: u64,
    pub active: u64,
}

/// The limiter never counts more in-flight cycles than its bound.
pub open spec fn wf_limiter(l: &CycleLimiter) -> bool {
    l.active <= l.cap
}

impl CycleLimiter {
    /// A limiter with no cycle in flight.
    pub fn new(cap: u64) -> (r: CycleLimiter)
        ensures
            wf_limiter(&r),
            r.cap == cap,
            r.active == 0,
    {
        CycleLimiter { cap, active: 0 }
    }

    /// Admits a new cycle exactly while the bound is not reached.
    pub fn try_begin(&mut self) -> (admitted: bool)
        requires
            wf_limiter(old(self)),
        ensures
            wf_limiter(final(self)),
            final(self).cap == old(self).cap,
            admitted <==> old(self).active < old(self).cap,
            admitted ==> final(self).active == old(self).active + 1,
            !admitted ==> final(self).active == old(self).active,
    {
        if self.active < self.cap {
            self.active = self.active + 1;
            true
        } else {
            false
        }
    }

    /// Records that an admitted cycle reached its terminal state.
    pub fn finish(&mut self)
        requires
            wf_limiter(old(self)),
            old(self).active > 0,
        ensures
            wf_limiter(final(self)),
            final(self).cap == old(self).cap,
            final(self).active == old(self).active - 1,
    {
        self.active = self.active - 1;
    }
}

} // verus!
