//! The codec's global laws.
//!
//! The round-trip law of the wire format: a type list and a byte string
//! determine at most one conforming value tuple, so decoding a canonical
//! encoding recovers exactly the values that were encoded.  Together with the
//! contracts of `encode` and `decode` this is the load-bearing correctness
//! property of the relay pipeline.
use vstd::prelude::*;

verus! {

use vstd::arithmetic::power::pow;
use vstd::arithmetic::power::lemma_pow_increases;
use crate::words::be_bytes;
use crate::words::lemma_be_bytes_len;
use crate::words::lemma_be_val_be_bytes;
use crate::abi::AbiType;
use crate::abi::AbiValue;
use crate::abi::conforms;
use crate::abi::fits_type;
use crate::abi::wf_type;
use crate::abi::is_dynamic;
use crate::abi::payload;
use crate::abi::head_word_at;
use crate::abi::tail_of;
use crate::abi::tail_size;
use crate::abi::tails_len;
use crate::abi::encoded;
use crate::abi::lemma_expected_bytes;
use crate::abi::lemma_tail_of_len;
use crate::codec::lemma_conforms_wf;

/// Both tuples agree on their first `i` elements.
proof fn lemma_unique_prefix(
    ts: Seq<AbiType>,
    vs1: Seq<AbiValue>,
    vs2: Seq<AbiValue>,
    i: int,
)
    requires
        conforms(ts, vs1),
        conforms(ts, vs2),
        encoded(vs1) == encoded(vs2),
        0 <= i <= ts.len(),
    ensures
        vs1.take(i) == vs2.take(i),
    decreases i,
{
    if i == 0 {
        assert(vs1.take(0) =~= vs2.take(0));
    } else {
        let k = i - 1;
        lemma_unique_prefix(ts, vs1, vs2, k);
        lemma_conforms_wf(ts, vs1);
        lemma_conforms_wf(ts, vs2);
        lemma_expected_bytes(vs1, k);
        lemma_expected_bytes(vs2, k);
        assert(wf_type(ts[k]) && fits_type(ts[k], vs1[k]) && fits_type(ts[k], vs2[k]));
        let data = encoded(vs1);
        let pos = (32 * vs1.len() + tails_len(vs1.take(k))) as nat;
        assert(tails_len(vs2.take(k)) == tails_len(vs1.take(k)));
        let hw1 = head_word_at(vs1[k], pos);
        let hw2 = head_word_at(vs2[k], pos);
        assert(hw1 == data.subrange(32 * k, 32 * k + 32));
        assert(hw2 == data.subrange(32 * k, 32 * k + 32));
        match ts[k] {
            AbiType::Uint(bits) => {
                assert(vs1[k]->Uint_0 == vs2[k]->Uint_0);
                assert(vs1[k] == vs2[k]);
            },
            AbiType::Bool => {
                let b1 = vs1[k]->Bool_0;
                let b2 = vs2[k]->Bool_0;
                assert(hw1[31] == (if b1 { 1u8 } else { 0u8 }));
                assert(hw2[31] == (if b2 { 1u8 } else { 0u8 }));
                assert(vs1[k] == vs2[k]);
            },
            AbiType::Address => {
                let a1 = vs1[k]->Address_0;
                let a2 = vs2[k]->Address_0;
                assert(a1 =~= hw1.subrange(12, 32));
                assert(a2 =~= hw2.subrange(12, 32));
                assert(vs1[k] == vs2[k]);
            },
            AbiType::FixedBytes(m) => {
                let f1 = vs1[k]->FixedBytes_0;
                let f2 = vs2[k]->FixedBytes_0;
                assert(f1 =~= hw1.subrange(0, m as int));
                assert(f2 =~= hw2.subrange(0, m as int));
                assert(vs1[k] == vs2[k]);
            },
            AbiType::Bytes | AbiType::Text => {
                lemma_tail_of_len(vs1[k]);
                lemma_tail_of_len(vs2[k]);
                let l1 = payload(vs1[k]).len();
                let l2 = payload(vs2[k]).len();
                let t1 = data.subrange(pos as int, pos + tail_size(vs1[k]) as int);
                let t2 = data.subrange(pos as int, pos + tail_size(vs2[k]) as int);
                assert(t1 == tail_of(vs1[k]));
                assert(t2 == tail_of(vs2[k]));
                lemma_be_bytes_len(l1, 32);
                lemma_be_bytes_len(l2, 32);
                assert(t1.subrange(0, 32) =~= be_bytes(l1, 32));
                assert(t2.subrange(0, 32) =~= be_bytes(l2, 32));
                assert(t1.subrange(0, 32) =~= t2.subrange(0, 32));
                lemma_pow_increases(256, 8, 32);
                lemma_be_val_be_bytes(l1, 32);
                lemma_be_val_be_bytes(l2, 32);
                assert(l1 == l2);
                assert(t1.subrange(32, 32 + l1 as int) =~= payload(vs1[k]));
                assert(t2.subrange(32, 32 + l2 as int) =~= payload(vs2[k]));
                assert(payload(vs1[k]) == payload(vs2[k]));
                assert(vs1[k] == vs2[k]);
            },
        }
        assert(vs1.take(i) =~= vs1.take(k).push(vs1[k]));
        assert(vs2.take(i) =~= vs2.take(k).push(vs2[k]));
    }
}

/// Round-trip law of the codec, stated over the encoding model: for one type
/// list, the canonical encoding determines the conforming value tuple
/// uniquely.  With `decode`'s contract — `decode(T, b)` succeeds exactly when
/// `b` is a canonical image and then returns a conforming preimage — this
/// yields `decode(T, encode(T, v)) == v` for every conforming `v`.
pub proof fn lemma_canonical_unique(ts: Seq<AbiType>, vs1: Seq<AbiValue>, vs2: Seq<AbiValue>)
    requires
        conforms(ts, vs1),
        conforms(ts, vs2),
        encoded(vs1) == encoded(vs2),
    ensures
        vs1 == vs2,
{
    lemma_unique_prefix(ts, vs1, vs2, ts.len() as int);
    assert(vs1.take(ts.len() as int) =~= vs1);
    assert(vs2.take(ts.len() as int) =~= vs2);
}

} // verus!
