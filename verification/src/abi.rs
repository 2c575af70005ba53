//! The type and value model of the canonical ABI-style codec, and the
//! mathematical definition of the binary layout.
//!
//! A tuple of values is laid out as one 32-byte head word per element followed
//! by the tails of the dynamic elements.  A static element (unsigned integer,
//! boolean, address, fixed-size byte array) is its head word; a dynamic
//! element (byte sequence, text) stores in its head word the byte offset of
//! its tail, which holds a 32-byte length word and the zero-padded payload.
use vstd::prelude::*;

verus! {

use vstd::arithmetic::power::pow;
use crate::words::zeros;
use crate::words::be_bytes;
use crate::words::pad32;
use crate::words::lemma_pad32;
use crate::words::lemma_be_bytes_len;

/// A parameter type of the wire format.
///
/// `Uint(bits)` covers unsigned integers of 8 to 256 bits; `FixedBytes(m)`
/// covers fixed-size byte arrays of 1 to 32 bytes; `Text` is a length-prefixed
/// UTF-8 string, carried here as its bytes; `Bytes` is a length-prefixed
/// opaque byte sequence; `Address` is a 160-bit account address.
#[derive(Clone, Copy, PartialEq, Eq, Debug)]
pub enum AbiType {
    Uint(u32),
    Bool,
    Address,
    FixedBytes(usize),
    Bytes,
    Text,
}

/// A parameter value.  `Uint` holds the full 32-byte big-endian word of the
/// integer; `Address` holds 20 bytes; `Text` holds the UTF-8 bytes.
#[derive(Clone, PartialEq, Eq, Debug)]
pub enum Token {
    Uint(Vec<u8>),
    Bool(bool),
    Address(Vec<u8>),
    FixedBytes(Vec<u8>),
    Bytes(Vec<u8>),
    Text(Vec<u8>),
}

/// The mathematical counterpart of a `Token`: the same data as sequences.
pub enum AbiValue {
    Uint(Seq<u8>),
    Bool(bool),
    Address(Seq<u8>),
    FixedBytes(Seq<u8>),
    Bytes(Seq<u8>),
    Text(Seq<u8>),
}

impl View for Token {
    type V = AbiValue;

    open spec fn view(&self) -> AbiValue {
        match self {
            Token::Uint(u) => AbiValue::Uint(u@),
            Token::Bool(b) => AbiValue::Bool(*b),
            Token::Address(a) => AbiValue::Address(a@),
            Token::FixedBytes(f) => AbiValue::FixedBytes(f@),
            Token::Bytes(b) => AbiValue::Bytes(b@),
            Token::Text(s) => AbiValue::Text(s@),
        }
    }
}

/// The values of a sequence of tokens.
pub open spec fn views_of(ts: Seq<Token>) -> Seq<AbiValue> {
    ts.map_values(|t: Token| t@)
}

/// A structurally valid value: field widths as the wire format fixes them.
pub open spec fn wf_value(v: AbiValue) -> bool {
    match v {
        AbiValue::Uint(u) => u.len() == 32,
        AbiValue::Bool(_) => true,
        AbiValue::Address(a) => a.len() == 20,
        AbiValue::FixedBytes(f) => 1 <= f.len() <= 32,
        AbiValue::Bytes(b) => b.len() < pow(256, 8),
        AbiValue::Text(s) => s.len() < pow(256, 8),
    }
}

pub open spec fn wf_values(vs: Seq<AbiValue>) -> bool {
    forall|i: int| 0 <= i < vs.len() ==> wf_value(#[trigger] vs[i])
}

/// A well-formed parameter type.
pub open spec fn wf_type(t: AbiType) -> bool {
    match t {
        AbiType::Uint(bits) => 8 <= bits <= 256 && bits % 8 == 0,
        AbiType::FixedBytes(m) => 1 <= m <= 32,
        _ => true,
    }
}

/// Whether value `v` conforms to type `t`.  For `Uint(bits)` the leading
/// `32 - bits/8` bytes of the stored word must be zero, so the value fits in
/// `bits` bits.
pub open spec fn fits_type(t: AbiType, v: AbiValue) -> bool {
    match (t, v) {
        (AbiType::Uint(bits), AbiValue::Uint(u)) => u.len() == 32 && (forall|j: int|
            0 <= j < 32 - bits / 8 ==> u[j] == 0u8),
        (AbiType::Bool, AbiValue::Bool(_)) => true,
        (AbiType::Address, AbiValue::Address(a)) => a.len() == 20,
        (AbiType::FixedBytes(m), AbiValue::FixedBytes(f)) => f.len() == m,
        (AbiType::Bytes, AbiValue::Bytes(b)) => b.len() < pow(256, 8),
        (AbiType::Text, AbiValue::Text(s)) => s.len() < pow(256, 8),
        _ => false,
    }
}

/// Whether the value tuple `vs` conforms to the type list `ts`.
pub open spec fn conforms(ts: Seq<AbiType>, vs: Seq<AbiValue>) -> bool {
    &&& ts.len() == vs.len()
    &&& forall|i: int|
        0 <= i < ts.len() ==> wf_type(#[trigger] ts[i]) && fits_type(ts[i], vs[i])
}

/// A dynamic element's data goes to the tail region.
pub open spec fn is_dynamic(v: AbiValue) -> bool {
    v is Bytes || v is Text
}

/// The payload of a dynamic element; empty for static elements.
pub open spec fn payload(v: AbiValue) -> Seq<u8> {
    match v {
        AbiValue::Bytes(b) => b,
        AbiValue::Text(s) => s,
        _ => Seq::empty(),
    }
}

/// The head word of `v`, with `pos` the tail offset used by dynamic elements.
pub open spec fn head_word_at(v: AbiValue, pos: nat) -> Seq<u8> {
    match v {
        AbiValue::Uint(u) => u,
        AbiValue::Bool(b) => zeros(31).push(if b { 1u8 } else { 0u8 }),
        AbiValue::Address(a) => zeros(12) + a,
        AbiValue::FixedBytes(f) => if f.len() <= 32 {
            f + zeros((32 - f.len()) as nat)
        } else {
            f
        },
        AbiValue::Bytes(_) | AbiValue::Text(_) => be_bytes(pos, 32),
    }
}

/// The tail of `v`: length word, payload, zero padding to a 32-byte boundary.
pub open spec fn tail_of(v: AbiValue) -> Seq<u8> {
    if is_dynamic(v) {
        let b = payload(v);
        be_bytes(b.len(), 32) + b + zeros((pad32(b.len()) - b.len()) as nat)
    } else {
        Seq::empty()
    }
}

/// The number of tail bytes `v` contributes.
pub open spec fn tail_size(v: AbiValue) -> nat {
    if is_dynamic(v) {
        32 + pad32(payload(v).len())
    } else {
        0
    }
}

/// The concatenated head words of `vs`, with the first tail at offset `pos`.
pub open spec fn heads_rec(vs: Seq<AbiValue>, pos: nat) -> Seq<u8>
    decreases vs.len(),
{
    if vs.len() == 0 {
        Seq::empty()
    } else {
        head_word_at(vs[0], pos) + heads_rec(vs.skip(1), pos + tail_size(vs[0]))
    }
}

/// The concatenated tails of `vs`.
pub open spec fn tails_rec(vs: Seq<AbiValue>) -> Seq<u8>
    decreases vs.len(),
{
    if vs.len() == 0 {
        Seq::empty()
    } else {
        tail_of(vs[0]) + tails_rec(vs.skip(1))
    }
}

/// The total tail size of `vs`.
pub open spec fn tails_len(vs: Seq<AbiValue>) -> nat
    decreases vs.len(),
{
    if vs.len() == 0 {
        0
    } else {
        tail_size(vs[0]) + tails_len(vs.skip(1))
    }
}

/// The canonical encoding of the value tuple `vs`.
pub open spec fn encoded(vs: Seq<AbiValue>) -> Seq<u8> {
    heads_rec(vs, 32 * vs.len()) + tails_rec(vs)
}

/// The length of the canonical encoding of `vs`.
pub open spec fn encoded_len(vs: Seq<AbiValue>) -> nat {
    32 * vs.len() + tails_len(vs)
}

pub proof fn lemma_head_word_len(v: AbiValue, pos: nat)
    requires
        wf_value(v),
    ensures
        head_word_at(v, pos).len() == 32,
{
    lemma_be_bytes_len(pos, 32);
}

pub proof fn lemma_tail_of_len(v: AbiValue)
    requires
        wf_value(v),
    ensures
        tail_of(v).len() == tail_size(v),
{
    if is_dynamic(v) {
        lemma_be_bytes_len(payload(v).len(), 32);
        lemma_pad32(payload(v).len());
    }
}

pub proof fn lemma_heads_len(vs: Seq<AbiValue>, pos: nat)
    requires
        wf_values(vs),
    ensures
        heads_rec(vs, pos).len() == 32 * vs.len(),
    decreases vs.len(),
{
    if vs.len() > 0 {
        lemma_head_word_len(vs[0], pos);
        assert(wf_values(vs.skip(1))) by {
            assert(forall|i: int|
                0 <= i < vs.skip(1).len() ==> vs.skip(1)[i] == vs[i + 1]);
        }
        lemma_heads_len(vs.skip(1), pos + tail_size(vs[0]));
    }
}

pub proof fn lemma_tails_len(vs: Seq<AbiValue>)
    requires
        wf_values(vs),
    ensures
        tails_rec(vs).len() == tails_len(vs),
    decreases vs.len(),
{
    if vs.len() > 0 {
        lemma_tail_of_len(vs[0]);
        assert(wf_values(vs.skip(1))) by {
            assert(forall|i: int|
                0 <= i < vs.skip(1).len() ==> vs.skip(1)[i] == vs[i + 1]);
        }
        lemma_tails_len(vs.skip(1));
    }
}

pub proof fn lemma_encoded_len(vs: Seq<AbiValue>)
    requires
        wf_values(vs),
    ensures
        encoded(vs).len() == encoded_len(vs),
{
    lemma_heads_len(vs, (32 * vs.len()) as nat);
    lemma_tails_len(vs);
}

/// Appending a value extends the head area by one word and the tail area by
/// the value's tail.
#[verifier::rlimit(100)]
pub proof fn lemma_layout_push(vs: Seq<AbiValue>, v: AbiValue, pos: nat)
    ensures
        heads_rec(vs.push(v), pos) == heads_rec(vs, pos) + head_word_at(
            v,
            pos + tails_len(vs),
        ),
        tails_rec(vs.push(v)) == tails_rec(vs) + tail_of(v),
        tails_len(vs.push(v)) == tails_len(vs) + tail_size(v),
    decreases vs.len(),
{
    reveal_with_fuel(heads_rec, 3);
    reveal_with_fuel(tails_rec, 3);
    reveal_with_fuel(tails_len, 3);
    if vs.len() == 0 {
        assert(vs.push(v).skip(1) =~= Seq::<AbiValue>::empty());
        assert(vs.push(v)[0] == v);
        assert(heads_rec(vs.push(v), pos) =~= head_word_at(v, pos));
        assert(heads_rec(vs, pos) + head_word_at(v, pos + tails_len(vs)) =~= head_word_at(
            v,
            pos,
        ));
        assert(tails_rec(vs.push(v)) =~= tail_of(v));
        assert(tails_rec(vs) + tail_of(v) =~= tail_of(v));
    } else {
        assert(vs.push(v).skip(1) =~= vs.skip(1).push(v));
        assert(vs.push(v)[0] == vs[0]);
        lemma_layout_push(vs.skip(1), v, pos + tail_size(vs[0]));
        assert(heads_rec(vs.push(v), pos) == head_word_at(vs[0], pos) + heads_rec(
            vs.skip(1).push(v),
            pos + tail_size(vs[0]),
        ));
        assert(heads_rec(vs.push(v), pos) =~= heads_rec(vs, pos) + head_word_at(
            v,
            pos + tails_len(vs),
        ));
        assert(tails_rec(vs.push(v)) =~= tails_rec(vs) + tail_of(v));
    }
}

/// The head and tail areas split at any element boundary.
#[verifier::rlimit(100)]
pub proof fn lemma_layout_decompose(vs: Seq<AbiValue>, pos: nat, i: int)
    requires
        0 <= i <= vs.len(),
    ensures
        heads_rec(vs, pos) == heads_rec(vs.take(i), pos) + heads_rec(
            vs.skip(i),
            pos + tails_len(vs.take(i)),
        ),
        tails_rec(vs) == tails_rec(vs.take(i)) + tails_rec(vs.skip(i)),
        tails_len(vs) == tails_len(vs.take(i)) + tails_len(vs.skip(i)),
    decreases i,
{
    reveal_with_fuel(heads_rec, 3);
    reveal_with_fuel(tails_rec, 3);
    reveal_with_fuel(tails_len, 3);
    if i == 0 {
        assert(vs.take(0) =~= Seq::<AbiValue>::empty());
        assert(vs.skip(0) =~= vs);
        assert(heads_rec(vs, pos) =~= heads_rec(vs.take(0), pos) + heads_rec(vs, pos));
        assert(tails_rec(vs) =~= tails_rec(vs.take(0)) + tails_rec(vs));
    } else {
        lemma_layout_decompose(vs, pos, i - 1);
        let a = vs.take(i - 1);
        let b = vs.skip(i - 1);
        assert(b[0] == vs[i - 1]);
        assert(vs.take(i) =~= a.push(vs[i - 1]));
        assert(vs.skip(i) =~= b.skip(1));
        lemma_layout_push(a, vs[i - 1], pos);
        let p1 = pos + tails_len(a);
        assert(heads_rec(b, p1) == head_word_at(b[0], p1) + heads_rec(
            b.skip(1),
            p1 + tail_size(b[0]),
        ));
        assert(heads_rec(vs, pos) =~= heads_rec(vs.take(i), pos) + heads_rec(
            vs.skip(i),
            pos + tails_len(vs.take(i)),
        ));
        assert(tails_rec(b) == tail_of(b[0]) + tails_rec(b.skip(1)));
        assert(tails_rec(vs) =~= tails_rec(vs.take(i)) + tails_rec(vs.skip(i)));
        assert(tails_len(vs) == tails_len(vs.take(i)) + tails_len(vs.skip(i)));
    }
}

/// Where element `i` of a conforming tuple lies inside the encoding: its head
/// word at `32*i`, and, when dynamic, its tail at `32*len + ` the tail sizes
/// of the dynamic elements before it.
#[verifier::rlimit(100)]
pub proof fn lemma_expected_bytes(vs: Seq<AbiValue>, i: int)
    requires
        wf_values(vs),
        0 <= i < vs.len(),
    ensures
        encoded(vs).len() == encoded_len(vs),
        32 * i + 32 <= 32 * vs.len(),
        encoded(vs).subrange(32 * i, 32 * i + 32) == head_word_at(
            vs[i],
            (32 * vs.len() + tails_len(vs.take(i))) as nat,
        ),
        is_dynamic(vs[i]) ==> 32 * vs.len() + tails_len(vs.take(i)) + tail_size(vs[i])
            <= encoded(vs).len() && encoded(vs).subrange(
            32 * vs.len() + tails_len(vs.take(i)) as int,
            32 * vs.len() + tails_len(vs.take(i)) + tail_size(vs[i]) as int,
        ) == tail_of(vs[i]),
{
    let n = vs.len() as int;
    let hl = (32 * vs.len()) as nat;
    lemma_encoded_len(vs);
    lemma_heads_len(vs, hl);
    lemma_tails_len(vs);
    assert(wf_values(vs.take(i)) && wf_values(vs.skip(i)) && wf_values(vs.take(i + 1))) by {
        assert(forall|k: int| 0 <= k < vs.take(i).len() ==> vs.take(i)[k] == vs[k]);
        assert(forall|k: int| 0 <= k < vs.skip(i).len() ==> vs.skip(i)[k] == vs[k + i]);
        assert(forall|k: int|
            0 <= k < vs.take(i + 1).len() ==> vs.take(i + 1)[k] == vs[k]);
    }
    lemma_layout_decompose(vs, hl, i);
    let pos_i = (hl + tails_len(vs.take(i))) as nat;
    lemma_heads_len(vs.take(i), hl);
    assert(vs.skip(i)[0] == vs[i]);
    assert(heads_rec(vs.skip(i), pos_i) == head_word_at(vs[i], pos_i) + heads_rec(
        vs.skip(i).skip(1),
        pos_i + tail_size(vs[i]),
    ));
    lemma_head_word_len(vs[i], pos_i);
    lemma_heads_len(vs.skip(i).skip(1), pos_i + tail_size(vs[i]));
    assert(encoded(vs) == (heads_rec(vs.take(i), hl) + (head_word_at(vs[i], pos_i)
        + heads_rec(vs.skip(i).skip(1), pos_i + tail_size(vs[i])))) + tails_rec(vs));
    assert(encoded(vs).subrange(32 * i, 32 * i + 32) =~= head_word_at(vs[i], pos_i));
    if is_dynamic(vs[i]) {
        lemma_tail_of_len(vs[i]);
        lemma_tails_len(vs.take(i));
        lemma_tails_len(vs.skip(i).skip(1));
        assert(vs.skip(i)[0] == vs[i]);
        assert(tails_rec(vs.skip(i)) == tail_of(vs[i]) + tails_rec(vs.skip(i).skip(1)));
        assert(tails_len(vs.skip(i)) == tail_size(vs[i]) + tails_len(vs.skip(i).skip(1)));
        let start = 32 * n + tails_len(vs.take(i));
        assert(encoded(vs) == heads_rec(vs, hl) + (tails_rec(vs.take(i)) + (tail_of(vs[i])
            + tails_rec(vs.skip(i).skip(1)))));
        assert(encoded(vs).subrange(start, start + tail_size(vs[i]) as int) =~= tail_of(
            vs[i],
        ));
    }
}

} // verus!
