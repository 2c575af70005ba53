//! The executable codec: `encode` produces the canonical encoding of a token
//! tuple; `decode` accepts exactly the canonical encodings and recovers the
//! unique conforming tuple.
use vstd::prelude::*;

verus! {

use vstd::arithmetic::power::pow;
use vstd::arithmetic::div_mod::lemma_fundamental_div_mod;
use crate::words::zeros;
use crate::words::be_bytes;
use crate::words::be_val;
use crate::words::pad32;
use crate::words::lemma_pad32;
use crate::words::lemma_be_bytes_len;
use crate::words::lemma_pow256;
use crate::words::push_zeros;
use crate::words::push_bytes;
use crate::words::push_be_word;
use crate::abi::AbiType;
use crate::abi::AbiValue;
use crate::abi::Token;
use crate::abi::views_of;
use crate::abi::wf_value;
use crate::abi::wf_values;
use crate::abi::conforms;
use crate::abi::is_dynamic;
use crate::abi::payload;
use crate::abi::head_word_at;
use crate::abi::tail_of;
use crate::abi::tail_size;
use crate::abi::heads_rec;
use crate::abi::tails_rec;
use crate::abi::tails_len;
use crate::abi::encoded;
use crate::abi::encoded_len;
use crate::abi::lemma_layout_push;
use crate::abi::lemma_layout_decompose;
use crate::abi::lemma_tails_len;
use crate::abi::lemma_encoded_len;

/// Failure of `encode`: a token whose field widths are invalid, or a tuple
/// whose encoding would not fit in memory.
#[derive(Clone, Copy, PartialEq, Eq, Debug)]
pub enum EncodeError {
    InvalidToken,
    TooLarge,
}

/// Failure of `decode`: the bytes are not the canonical encoding of any
/// tuple conforming to the requested type list.
#[derive(Clone, Copy, PartialEq, Eq, Debug)]
pub enum DecodeError {
    MalformedPayload,
}

/// The numeric value of any machine length fits in a 32-byte word region.
pub proof fn lemma_usize_small()
    ensures
        usize::MAX < pow(256, 8),
{
    lemma_pow256();
}

/// True exactly when the token's field widths are valid.
fn wf_token_check(t: &Token) -> (r: bool)
    ensures
        r == wf_value(t@),
{
    proof {
        lemma_usize_small();
    }
    match t {
        Token::Uint(u) => u.len() == 32,
        Token::Bool(_) => true,
        Token::Address(a) => a.len() == 20,
        Token::FixedBytes(f) => f.len() >= 1 && f.len() <= 32,
        // a payload's length is a machine integer, so its bound always holds;
        // taking the length brings that fact into scope
        Token::Bytes(b) => {
            let _len = b.len();
            true
        },
        Token::Text(s) => {
            let _len = s.len();
            true
        },
    }
}

/// Encodes the token tuple into its canonical binary form.
///
/// Succeeds exactly on well-formed tuples whose encoding fits in a machine
/// length, and then returns exactly the canonical encoding `encoded(..)`.
#[verifier::rlimit(100)]
pub fn encode(tokens: &Vec<Token>) -> (r: Result<Vec<u8>, EncodeError>)
    ensures
        r is Ok <==> wf_values(views_of(tokens@)) && encoded_len(views_of(tokens@))
            <= usize::MAX,
        r matches Ok(out) ==> out@ == encoded(views_of(tokens@)),
        r matches Err(e) ==> (e is InvalidToken <==> !wf_values(views_of(tokens@))),
{
    let ghost vsg = views_of(tokens@);
    let n = tokens.len();
    proof {
        assert(vsg.len() == n);
    }
    let mut i: usize = 0;
    while i < n
        invariant
            i <= n,
            n == tokens@.len(),
            vsg == views_of(tokens@),
            forall|k: int| 0 <= k < i ==> wf_value(#[trigger] vsg[k]),
        decreases n - i,
    {
        proof {
            assert(vsg[i as int] == tokens@[i as int]@);
        }
        if !wf_token_check(&tokens[i]) {
            proof {
                assert(!wf_values(vsg));
            }
            return Err(EncodeError::InvalidToken);
        }
        i += 1;
    }
    proof {
        assert(wf_values(vsg));
    }
    if n > usize::MAX / 32 {
        proof {
            lemma_fundamental_div_mod(usize::MAX as int, 32);
            assert(32 * n > usize::MAX);
        }
        return Err(EncodeError::TooLarge);
    }
    proof {
        lemma_fundamental_div_mod(usize::MAX as int, 32);
        assert(32 * n <= usize::MAX);
    }
    let head_len: usize = 32 * n;
    let mut head: Vec<u8> = Vec::new();
    let mut tail: Vec<u8> = Vec::new();
    let mut i: usize = 0;
    while i < n
        invariant
            i <= n,
            n == tokens@.len(),
            vsg == views_of(tokens@),
            wf_values(vsg),
            head_len == 32 * n,
            head_len <= usize::MAX,
            head@ == heads_rec(vsg.take(i as int), head_len as nat),
            tail@ == tails_rec(vsg.take(i as int)),
            tail@.len() == tails_len(vsg.take(i as int)),
        decreases n - i,
    {
        let ghost pre = vsg.take(i as int);
        let ghost pos = (head_len + tails_len(pre)) as nat;
        proof {
            assert(vsg[i as int] == tokens@[i as int]@);
            lemma_layout_push(pre, vsg[i as int], head_len as nat);
            assert(vsg.take(i + 1) =~= pre.push(vsg[i as int]));
        }
        match &tokens[i] {
            Token::Uint(u) => {
                push_bytes(&mut head, u);
                proof {
                    assert(head_word_at(vsg[i as int], pos) == u@);
                }
            },
            Token::Bool(b) => {
                push_zeros(&mut head, 31);
                head.push(if *b { 1u8 } else { 0u8 });
                proof {
                    assert(head@ =~= heads_rec(pre, head_len as nat) + head_word_at(
                        vsg[i as int],
                        pos,
                    ));
                }
            },
            Token::Address(a) => {
                push_zeros(&mut head, 12);
                push_bytes(&mut head, a);
                proof {
                    assert(head@ =~= heads_rec(pre, head_len as nat) + head_word_at(
                        vsg[i as int],
                        pos,
                    ));
                }
            },
            Token::FixedBytes(f) => {
                push_bytes(&mut head, f);
                push_zeros(&mut head, 32 - f.len());
                proof {
                    assert(head@ =~= heads_rec(pre, head_len as nat) + head_word_at(
                        vsg[i as int],
                        pos,
                    ));
                }
            },
            Token::Bytes(b) => {
                let off128: u128 = head_len as u128 + tail.len() as u128;
                if off128 > usize::MAX as u128 {
                    proof {
                        lemma_layout_decompose(vsg, (32 * n) as nat, i as int);
                        assert(encoded_len(vsg) > usize::MAX);
                    }
                    return Err(EncodeError::TooLarge);
                }
                let offset: usize = head_len + tail.len();
                push_be_word(&mut head, offset as u64);
                proof {
                    assert(head_word_at(vsg[i as int], pos) == be_bytes(pos, 32));
                    assert(offset as nat == pos);
                }
                let l = b.len();
                push_be_word(&mut tail, l as u64);
                push_bytes(&mut tail, b);
                let rem = l % 32;
                push_zeros(&mut tail, if rem == 0 { 0 } else { 32 - rem });
                proof {
                    lemma_pad32(l as nat);
                    assert(tail@ =~= tails_rec(pre) + tail_of(vsg[i as int]));
                }
            },
            Token::Text(s) => {
                let off128: u128 = head_len as u128 + tail.len() as u128;
                if off128 > usize::MAX as u128 {
                    proof {
                        lemma_layout_decompose(vsg, (32 * n) as nat, i as int);
                        assert(encoded_len(vsg) > usize::MAX);
                    }
                    return Err(EncodeError::TooLarge);
                }
                let offset: usize = head_len + tail.len();
                push_be_word(&mut head, offset as u64);
                proof {
                    assert(head_word_at(vsg[i as int], pos) == be_bytes(pos, 32));
                    assert(offset as nat == pos);
                }
                let l = s.len();
                push_be_word(&mut tail, l as u64);
                push_bytes(&mut tail, s);
                let rem = l % 32;
                push_zeros(&mut tail, if rem == 0 { 0 } else { 32 - rem });
                proof {
                    lemma_pad32(l as nat);
                    assert(tail@ =~= tails_rec(pre) + tail_of(vsg[i as int]));
                }
            },
        }
        proof {
            assert(wf_values(vsg.take(i + 1))) by {
                assert(forall|k: int|
                    0 <= k < i + 1 ==> vsg.take(i + 1)[k] == vsg[k]);
            }
            lemma_tails_len(vsg.take(i + 1));
        }
        i += 1;
    }
    proof {
        assert(vsg.take(n as int) =~= vsg);
    }
    let total128: u128 = head_len as u128 + tail.len() as u128;
    if total128 > usize::MAX as u128 {
        proof {
            assert(encoded_len(vsg) > usize::MAX);
        }
        return Err(EncodeError::TooLarge);
    }
    let mut out = head;
    out.append(&mut tail);
    proof {
        assert(out@ == encoded(vsg));
        assert(encoded_len(vsg) <= usize::MAX);
    }
    Ok(out)
}

/// Builds the `Uint` token holding the 256-bit value of `x`.
pub fn uint_word(x: u64) -> (t: Token)
    ensures
        t@ == AbiValue::Uint(be_bytes(x as nat, 32)),
        wf_value(t@),
{
    let mut v: Vec<u8> = Vec::new();
    push_be_word(&mut v, x);
    proof {
        lemma_be_bytes_len(x as nat, 32);
        assert(v@ =~= be_bytes(x as nat, 32));
    }
    Token::Uint(v)
}

} // verus!

verus! {

use crate::abi::wf_type;
use crate::abi::fits_type;
use crate::words::read_word_tail;
use crate::words::check_zeros;
use crate::words::copy_range;
use crate::words::eq_bytes;
use crate::words::lemma_be_bytes_word_split;
use crate::words::lemma_be_val_be_bytes;
use crate::abi::lemma_expected_bytes;

/// The tail offset that the canonical layout assigns to element `i`.
pub open spec fn dyn_offset(vs: Seq<AbiValue>, i: int) -> nat {
    (32 * vs.len() + tails_len(vs.take(i))) as nat
}

/// A conforming tuple is well-formed.
pub proof fn lemma_conforms_wf(ts: Seq<AbiType>, vs: Seq<AbiValue>)
    requires
        conforms(ts, vs),
    ensures
        wf_values(vs),
{
    assert forall|i: int| 0 <= i < vs.len() implies wf_value(#[trigger] vs[i]) by {
        assert(wf_type(ts[i]) && fits_type(ts[i], vs[i]));
    }
}

/// What the encoding of a conforming tuple holds for a dynamic element `i`:
/// its head word is the offset word of `dyn_offset`, and at that offset lie
/// the length word and the payload.
proof fn lemma_dynamic_read(tg: Seq<AbiType>, vs: Seq<AbiValue>, data: Seq<u8>, i: int)
    requires
        conforms(tg, vs),
        encoded(vs) == data,
        data.len() <= usize::MAX,
        0 <= i < vs.len(),
        is_dynamic(vs[i]),
    ensures
        dyn_offset(vs, i) + 32 + pad32(payload(vs[i]).len()) <= data.len(),
        payload(vs[i]).len() <= pad32(payload(vs[i]).len()),
        payload(vs[i]).len() < pow(256, 8),
        dyn_offset(vs, i) < pow(256, 8),
        32 * i + 32 <= data.len(),
        be_val(data.subrange(32 * i + 24, 32 * i + 32)) == dyn_offset(vs, i),
        be_val(
            data.subrange(dyn_offset(vs, i) + 24 as int, dyn_offset(vs, i) + 32 as int),
        ) == payload(vs[i]).len(),
        data.subrange(
            dyn_offset(vs, i) + 32 as int,
            dyn_offset(vs, i) + 32 + payload(vs[i]).len() as int,
        ) == payload(vs[i]),
{
    lemma_conforms_wf(tg, vs);
    lemma_expected_bytes(vs, i);
    let pos = dyn_offset(vs, i);
    let l = payload(vs[i]).len();
    lemma_pad32(l);
    assert(fits_type(tg[i], vs[i]));
    assert(l < pow(256, 8));
    assert(tail_size(vs[i]) == 32 + pad32(l));
    lemma_usize_small();
    assert(pos + 32 + pad32(l) <= data.len());
    assert(pos < pow(256, 8));
    // head word: the offset word
    let w = data.subrange(32 * i, 32 * i + 32);
    assert(w == be_bytes(pos, 32));
    lemma_be_bytes_word_split(pos);
    assert(data.subrange(32 * i + 24, 32 * i + 32) =~= w.subrange(24, 32));
    lemma_be_val_be_bytes(pos, 8);
    // tail: length word, then payload
    let t = data.subrange(pos as int, pos + tail_size(vs[i]) as int);
    assert(t == tail_of(vs[i]));
    lemma_be_bytes_len(l, 32);
    assert(t.len() == tail_size(vs[i])) by {
        crate::abi::lemma_tail_of_len(vs[i]);
    }
    assert(t.subrange(24, 32) =~= be_bytes(l, 32).subrange(24, 32));
    assert(data.subrange(pos + 24 as int, pos + 32 as int) =~= t.subrange(24, 32));
    lemma_be_bytes_word_split(l);
    lemma_be_val_be_bytes(l, 8);
    assert(t.subrange(32, 32 + l as int) =~= payload(vs[i]));
    assert(data.subrange(pos + 32 as int, pos + 32 + l as int) =~= t.subrange(
        32,
        32 + l as int,
    ));
}

} // verus!

verus! {

use crate::abi::lemma_tail_of_len;

/// Conformance extends by one element.
proof fn lemma_conforms_push(ts: Seq<AbiType>, vs: Seq<AbiValue>, t: AbiType, v: AbiValue)
    requires
        conforms(ts, vs),
        wf_type(t),
        fits_type(t, v),
    ensures
        conforms(ts.push(t), vs.push(v)),
{
    assert forall|k: int| 0 <= k < ts.push(t).len() implies wf_type(#[trigger] ts.push(t)[k])
        && fits_type(ts.push(t)[k], vs.push(v)[k]) by {
        if k < ts.len() {
            assert(ts.push(t)[k] == ts[k]);
            assert(vs.push(v)[k] == vs[k]);
            assert(wf_type(ts[k]) && fits_type(ts[k], vs[k]));
        } else {
            assert(ts.push(t)[k] == t);
            assert(vs.push(v)[k] == v);
        }
    }
}

/// Decodes `data` against the type list `types`.
///
/// Succeeds exactly when `data` is the canonical encoding of some value
/// tuple conforming to `types`, and then returns that unique tuple.  Together
/// with the contract of `encode` this gives the round-trip law — decoding an
/// encoding yields the original values — and decode strictness: bytes that
/// are not a canonical image of the requested type list are rejected as
/// `MalformedPayload`, never reinterpreted.
#[verifier::rlimit(100)]
pub fn decode(types: &Vec<AbiType>, data: &Vec<u8>) -> (r: Result<Vec<Token>, DecodeError>)
    ensures
        r matches Ok(out) ==> conforms(types@, views_of(out@)) && encoded(views_of(out@))
            == data@,
        forall|vs: Seq<AbiValue>| (#[trigger] conforms(types@, vs)) && encoded(vs) == data@
            ==> (r matches Ok(out) && views_of(out@) == vs),
{
    let ghost tg = types@;
    let n = types.len();
    let dl = data.len();
    if n > usize::MAX / 32 {
        proof {
            lemma_fundamental_div_mod(usize::MAX as int, 32);
            assert forall|vs: Seq<AbiValue>| !((#[trigger] conforms(tg, vs)) && encoded(vs)
                == data@) by {
                if conforms(tg, vs) && encoded(vs) == data@ {
                    lemma_conforms_wf(tg, vs);
                    lemma_encoded_len(vs);
                    assert(false);
                }
            }
        }
        return Err(DecodeError::MalformedPayload);
    }
    proof {
        lemma_fundamental_div_mod(usize::MAX as int, 32);
        assert(32 * n <= usize::MAX);
    }
    let head_len: usize = 32 * n;
    if head_len > dl {
        proof {
            assert forall|vs: Seq<AbiValue>| !((#[trigger] conforms(tg, vs)) && encoded(vs)
                == data@) by {
                if conforms(tg, vs) && encoded(vs) == data@ {
                    lemma_conforms_wf(tg, vs);
                    lemma_encoded_len(vs);
                    assert(false);
                }
            }
        }
        return Err(DecodeError::MalformedPayload);
    }
    let mut out: Vec<Token> = Vec::new();
    let mut i: usize = 0;
    while i < n
        invariant
            i <= n,
            n == tg.len(),
            tg == types@,
            dl == data@.len(),
            dl <= usize::MAX,
            head_len == 32 * n,
            head_len <= dl,
            out@.len() == i,
            conforms(tg.take(i as int), views_of(out@)),
            forall|vs: Seq<AbiValue>| (#[trigger] conforms(tg, vs)) && encoded(vs) == data@
                ==> views_of(out@) == vs.take(i as int),
        decreases n - i,
    {
        let ghost pre = views_of(out@);
        let ghost ii: int = i as int;
        let t = types[i];
        proof {
            assert(tg[ii] == t);
        }
        let tok: Token;
        match t {
            AbiType::Uint(bits) => {
                if !(bits >= 8 && bits <= 256 && bits % 8 == 0) {
                    proof {
                        assert forall|vs: Seq<AbiValue>| !((#[trigger] conforms(tg, vs))
                            && encoded(vs) == data@) by {
                            if conforms(tg, vs) && encoded(vs) == data@ {
                                assert(wf_type(tg[ii]));
                                assert(false);
                            }
                        }
                    }
                    return Err(DecodeError::MalformedPayload);
                }
                let zb: usize = 32 - (bits / 8) as usize;
                if !check_zeros(data, 32 * i, 32 * i + zb) {
                    proof {
                        assert forall|vs: Seq<AbiValue>| !((#[trigger] conforms(tg, vs))
                            && encoded(vs) == data@) by {
                            if conforms(tg, vs) && encoded(vs) == data@ {
                                lemma_conforms_wf(tg, vs);
                                lemma_expected_bytes(vs, ii);
                                assert(fits_type(tg[ii], vs[ii]));
                                let u = vs[ii]->Uint_0;
                                assert(data@.subrange(32 * ii, 32 * ii + 32) == u);
                                assert(data@.subrange(32 * ii, 32 * ii + zb as int)
                                    =~= zeros(zb as nat));
                                assert(false);
                            }
                        }
                    }
                    return Err(DecodeError::MalformedPayload);
                }
                let w = copy_range(data, 32 * i, 32 * i + 32);
                proof {
                    assert forall|j: int| 0 <= j < zb implies w@[j] == 0u8 by {
                        assert(data@.subrange(32 * ii, 32 * ii + zb as int)[j] == 0u8);
                    }
                }
                tok = Token::Uint(w);
                proof {
                    assert(wf_type(tg[ii]) && fits_type(tg[ii], tok@));
                    assert forall|vs: Seq<AbiValue>| (#[trigger] conforms(tg, vs))
                        && encoded(vs) == data@ implies tok@ == vs[ii] by {
                        lemma_conforms_wf(tg, vs);
                        lemma_expected_bytes(vs, ii);
                        assert(fits_type(tg[ii], vs[ii]));
                        let u = vs[ii]->Uint_0;
                        assert(data@.subrange(32 * ii, 32 * ii + 32) == u);
                        assert(w@ == u);
                    }
                }
            },
            AbiType::Bool => {
                let byte = data[32 * i + 31];
                tok = Token::Bool(byte != 0);
                proof {
                    assert(wf_type(tg[ii]) && fits_type(tg[ii], tok@));
                    assert forall|vs: Seq<AbiValue>| (#[trigger] conforms(tg, vs))
                        && encoded(vs) == data@ implies tok@ == vs[ii] by {
                        lemma_conforms_wf(tg, vs);
                        lemma_expected_bytes(vs, ii);
                        assert(fits_type(tg[ii], vs[ii]));
                        let bv = vs[ii]->Bool_0;
                        let pos = (32 * vs.len() + tails_len(vs.take(ii))) as nat;
                        let hw = head_word_at(vs[ii], pos);
                        assert(data@.subrange(32 * ii, 32 * ii + 32) == hw);
                        assert(data@[32 * ii + 31] == data@.subrange(
                            32 * ii,
                            32 * ii + 32,
                        )[31]);
                        assert(hw[31] == (if bv { 1u8 } else { 0u8 }));
                        assert(byte == (if bv { 1u8 } else { 0u8 }));
                    }
                }
            },
            AbiType::Address => {
                let a = copy_range(data, 32 * i + 12, 32 * i + 32);
                tok = Token::Address(a);
                proof {
                    assert(wf_type(tg[ii]) && fits_type(tg[ii], tok@));
                    assert forall|vs: Seq<AbiValue>| (#[trigger] conforms(tg, vs))
                        && encoded(vs) == data@ implies tok@ == vs[ii] by {
                        lemma_conforms_wf(tg, vs);
                        lemma_expected_bytes(vs, ii);
                        assert(fits_type(tg[ii], vs[ii]));
                        let av = vs[ii]->Address_0;
                        let pos = (32 * vs.len() + tails_len(vs.take(ii))) as nat;
                        let hw = head_word_at(vs[ii], pos);
                        assert(data@.subrange(32 * ii, 32 * ii + 32) == hw);
                        assert(a@ =~= hw.subrange(12, 32));
                        assert(hw.subrange(12, 32) =~= av);
                        assert(a@ == av);
                    }
                }
            },
            AbiType::FixedBytes(m) => {
                if !(m >= 1 && m <= 32) {
                    proof {
                        assert forall|vs: Seq<AbiValue>| !((#[trigger] conforms(tg, vs))
                            && encoded(vs) == data@) by {
                            if conforms(tg, vs) && encoded(vs) == data@ {
                                assert(wf_type(tg[ii]));
                                assert(false);
                            }
                        }
                    }
                    return Err(DecodeError::MalformedPayload);
                }
                let f = copy_range(data, 32 * i, 32 * i + m);
                tok = Token::FixedBytes(f);
                proof {
                    assert(wf_type(tg[ii]) && fits_type(tg[ii], tok@));
                    assert forall|vs: Seq<AbiValue>| (#[trigger] conforms(tg, vs))
                        && encoded(vs) == data@ implies tok@ == vs[ii] by {
                        lemma_conforms_wf(tg, vs);
                        lemma_expected_bytes(vs, ii);
                        assert(fits_type(tg[ii], vs[ii]));
                        let fv = vs[ii]->FixedBytes_0;
                        let pos = (32 * vs.len() + tails_len(vs.take(ii))) as nat;
                        let hw = head_word_at(vs[ii], pos);
                        assert(data@.subrange(32 * ii, 32 * ii + 32) == hw);
                        assert(f@ =~= hw.subrange(0, m as int));
                        assert(hw.subrange(0, m as int) =~= fv);
                        assert(f@ == fv);
                    }
                }
            },
            AbiType::Bytes | AbiType::Text => {
                let off = read_word_tail(data, 32 * i);
                if off as u128 + 32 > dl as u128 {
                    proof {
                        assert forall|vs: Seq<AbiValue>| !((#[trigger] conforms(tg, vs))
                            && encoded(vs) == data@) by {
                            if conforms(tg, vs) && encoded(vs) == data@ {
                                lemma_dynamic_read(tg, vs, data@, ii);
                                assert(false);
                            }
                        }
                    }
                    return Err(DecodeError::MalformedPayload);
                }
                let offu = off as usize;
                let l64 = read_word_tail(data, offu);
                if off as u128 + 32 + l64 as u128 > dl as u128 {
                    proof {
                        assert forall|vs: Seq<AbiValue>| !((#[trigger] conforms(tg, vs))
                            && encoded(vs) == data@) by {
                            if conforms(tg, vs) && encoded(vs) == data@ {
                                lemma_dynamic_read(tg, vs, data@, ii);
                                assert(false);
                            }
                        }
                    }
                    return Err(DecodeError::MalformedPayload);
                }
                let l = l64 as usize;
                let b = copy_range(data, offu + 32, offu + 32 + l);
                proof {
                    lemma_usize_small();
                }
                if matches!(t, AbiType::Bytes) {
                    tok = Token::Bytes(b);
                } else {
                    tok = Token::Text(b);
                }
                proof {
                    assert(wf_type(tg[ii]) && fits_type(tg[ii], tok@));
                    assert forall|vs: Seq<AbiValue>| (#[trigger] conforms(tg, vs))
                        && encoded(vs) == data@ implies tok@ == vs[ii] by {
                        lemma_conforms_wf(tg, vs);
                        assert(fits_type(tg[ii], vs[ii]));
                        lemma_dynamic_read(tg, vs, data@, ii);
                        assert(off as nat == dyn_offset(vs, ii));
                        assert(l64 as nat == payload(vs[ii]).len());
                        assert(b@ == payload(vs[ii]));
                    }
                }
            },
        }
        out.push(tok);
        proof {
            assert(views_of(out@) =~= pre.push(tok@));
            assert(tg.take(ii + 1) =~= tg.take(ii).push(tg[ii]));
            lemma_conforms_push(tg.take(ii), pre, tg[ii], tok@);
            assert forall|vs: Seq<AbiValue>| (#[trigger] conforms(tg, vs)) && encoded(vs)
                == data@ implies views_of(out@) == vs.take(ii + 1) by {
                assert(pre == vs.take(ii));
                assert(tok@ == vs[ii]);
                assert(vs.take(ii + 1) =~= vs.take(ii).push(vs[ii]));
            }
        }
        i += 1;
    }
    proof {
        assert(tg.take(n as int) =~= tg);
    }
    let ghost out_views = views_of(out@);
    match encode(&out) {
        Ok(reenc) => {
            if eq_bytes(&reenc, data) {
                proof {
                    assert forall|vs: Seq<AbiValue>| (#[trigger] conforms(tg, vs))
                        && encoded(vs) == data@ implies out_views == vs by {
                        assert(vs.take(n as int) =~= vs);
                    }
                }
                Ok(out)
            } else {
                proof {
                    assert forall|vs: Seq<AbiValue>| !((#[trigger] conforms(tg, vs))
                        && encoded(vs) == data@) by {
                        if conforms(tg, vs) && encoded(vs) == data@ {
                            assert(vs.take(n as int) =~= vs);
                            assert(out_views == vs);
                            assert(reenc@ == encoded(vs));
                            assert(false);
                        }
                    }
                }
                Err(DecodeError::MalformedPayload)
            }
        },
        Err(_) => {
            proof {
                assert forall|vs: Seq<AbiValue>| !((#[trigger] conforms(tg, vs))
                    && encoded(vs) == data@) by {
                    if conforms(tg, vs) && encoded(vs) == data@ {
                        assert(vs.take(n as int) =~= vs);
                        assert(out_views == vs);
                        lemma_conforms_wf(tg, vs);
                        lemma_encoded_len(vs);
                        assert(false);
                    }
                }
            }
            Err(DecodeError::MalformedPayload)
        },
    }
}

} // verus!
