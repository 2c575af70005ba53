//! Big-endian words and byte-sequence helpers for the canonical binary layout.
//!
//! Every quantity in the wire format (offsets, lengths, unsigned integers) is
//! written as a 32-byte big-endian word.  This module defines the mathematical
//! model of such words (`be_bytes`, `be_val`, `zeros`, `pad32`) and the small
//! executable routines that read and write them.
use vstd::prelude::*;

verus! {

use vstd::arithmetic::power::pow;
use vstd::arithmetic::power::lemma_pow_increases;
use vstd::arithmetic::div_mod::lemma_div_denominator;
use vstd::arithmetic::div_mod::lemma_fundamental_div_mod;

/// A sequence of `n` zero bytes.
pub open spec fn zeros(n: nat) -> Seq<u8> {
    Seq::new(n, |i: int| 0u8)
}

/// The `len`-byte big-endian representation of `n` (mod 256^len).
pub open spec fn be_bytes(n: nat, len: nat) -> Seq<u8>
    decreases len,
{
    if len == 0 {
        Seq::empty()
    } else {
        be_bytes(n / 256, (len - 1) as nat).push((n % 256) as u8)
    }
}

/// The numeric value of a big-endian byte sequence.
pub open spec fn be_val(s: Seq<u8>) -> nat
    decreases s.len(),
{
    if s.len() == 0 {
        0
    } else {
        256 * be_val(s.drop_last()) + s.last() as nat
    }
}

/// `n` rounded up to the next multiple of 32.
pub open spec fn pad32(n: nat) -> nat {
    ((n + 31) / 32) * 32
}

pub proof fn lemma_pad32(n: nat)
    ensures
        n <= pad32(n) < n + 32,
        pad32(n) - n == (32 - n % 32) % 32,
{
    lemma_fundamental_div_mod((n + 31) as int, 32);
    lemma_fundamental_div_mod(n as int, 32);
    let q = n as int / 32;
    let r = n as int % 32;
    if r == 0 {
        assert((n + 31) as int / 32 == q) by (nonlinear_arith)
            requires n as int == 32 * q + r && r == 0 && q >= 0,
        ;
        assert(pad32(n) == n) by (nonlinear_arith)
            requires (n + 31) as int / 32 == q && n as int == 32 * q,
        ;
    } else {
        assert((n + 31) as int / 32 == q + 1) by (nonlinear_arith)
            requires n as int == 32 * q + r && 1 <= r < 32 && q >= 0,
        ;
        assert(pad32(n) == 32 * q + 32) by (nonlinear_arith)
            requires (n + 31) as int / 32 == q + 1,
        ;
    }
}

pub proof fn lemma_be_bytes_len(n: nat, len: nat)
    ensures
        be_bytes(n, len).len() == len,
    decreases len,
{
    if len > 0 {
        lemma_be_bytes_len(n / 256, (len - 1) as nat);
    }
}

pub proof fn lemma_be_bytes_index(n: nat, len: nat, i: int)
    requires
        0 <= i < len,
    ensures
        be_bytes(n, len).len() == len,
        be_bytes(n, len)[i] == ((n as int / pow(256, (len - 1 - i) as nat)) % 256) as u8,
    decreases len,
{
    reveal(pow);
    lemma_be_bytes_len(n, len);
    lemma_be_bytes_len(n / 256, (len - 1) as nat);
    if i == len - 1 {
        assert(pow(256, 0) == 1);
        assert(be_bytes(n, len)[i] == (n % 256) as u8);
        assert(n as int / pow(256, 0) == n as int);
    } else {
        lemma_be_bytes_index(n / 256, (len - 1) as nat, i);
        let e = (len - 2 - i) as nat;
        assert(pow(256, (e + 1) as nat) == 256 * pow(256, e));
        vstd::arithmetic::power::lemma_pow_positive(256, e);
        lemma_div_denominator(n as int, 256, pow(256, e));
        assert((n as int / 256) / pow(256, e) == n as int / (256 * pow(256, e)));
        assert(be_bytes(n, len)[i] == be_bytes(n / 256, (len - 1) as nat)[i]);
    }
}

pub proof fn lemma_be_val_bound(s: Seq<u8>)
    ensures
        be_val(s) < pow(256, s.len()),
    decreases s.len(),
{
    reveal(pow);
    if s.len() == 0 {
        assert(pow(256, 0) == 1);
    } else {
        lemma_be_val_bound(s.drop_last());
        let d = be_val(s.drop_last());
        let p = pow(256, (s.len() - 1) as nat);
        assert(pow(256, s.len()) == 256 * p);
        assert(256 * d + s.last() < 256 * p) by (nonlinear_arith)
            requires d < p && s.last() < 256,
        ;
    }
}

pub proof fn lemma_be_val_be_bytes(n: nat, len: nat)
    requires
        n < pow(256, len),
    ensures
        be_val(be_bytes(n, len)) == n,
    decreases len,
{
    reveal(pow);
    if len == 0 {
        assert(pow(256, 0) == 1);
    } else {
        let rest = be_bytes(n / 256, (len - 1) as nat);
        lemma_be_bytes_len(n / 256, (len - 1) as nat);
        let s = rest.push((n % 256) as u8);
        assert(s.drop_last() =~= rest);
        let p = pow(256, (len - 1) as nat);
        assert(pow(256, len) == 256 * p);
        assert(n / 256 < p) by (nonlinear_arith)
            requires n < 256 * p && p > 0,
        ;
        lemma_be_val_be_bytes(n / 256, (len - 1) as nat);
        lemma_fundamental_div_mod(n as int, 256);
    }
}

pub proof fn lemma_be_val_inj(s1: Seq<u8>, s2: Seq<u8>)
    requires
        s1.len() == s2.len(),
        be_val(s1) == be_val(s2),
    ensures
        s1 == s2,
    decreases s1.len(),
{
    if s1.len() > 0 {
        let a1 = be_val(s1.drop_last());
        let a2 = be_val(s2.drop_last());
        assert(a1 == a2 && s1.last() == s2.last()) by (nonlinear_arith)
            requires
                256 * a1 + s1.last() == 256 * a2 + s2.last(),
                s1.last() < 256,
                s2.last() < 256,
                a1 >= 0,
                a2 >= 0,
        ;
        lemma_be_val_inj(s1.drop_last(), s2.drop_last());
        assert(s1 =~= s1.drop_last().push(s1.last()));
        assert(s2 =~= s2.drop_last().push(s2.last()));
    } else {
        assert(s1 =~= s2);
    }
}

pub proof fn lemma_be_val_leading_zeros(k: nat, s: Seq<u8>)
    ensures
        be_val(zeros(k) + s) == be_val(s),
    decreases s.len(),
{
    if s.len() == 0 {
        assert(zeros(k) + s =~= zeros(k));
        lemma_be_val_zeros(k);
    } else {
        assert((zeros(k) + s).drop_last() =~= zeros(k) + s.drop_last());
        assert((zeros(k) + s).last() == s.last());
        lemma_be_val_leading_zeros(k, s.drop_last());
    }
}

pub proof fn lemma_be_val_zeros(k: nat)
    ensures
        be_val(zeros(k)) == 0,
    decreases k,
{
    if k > 0 {
        assert(zeros(k).drop_last() =~= zeros((k - 1) as nat));
        lemma_be_val_zeros((k - 1) as nat);
    }
}

/// Values of successive powers of 256, up to 256^8 = 2^64.
pub proof fn lemma_pow256()
    ensures
        pow(256, 0) == 1,
        pow(256, 1) == 0x100,
        pow(256, 2) == 0x10000,
        pow(256, 3) == 0x1000000,
        pow(256, 4) == 0x100000000,
        pow(256, 5) == 0x10000000000,
        pow(256, 6) == 0x1000000000000,
        pow(256, 7) == 0x100000000000000,
        pow(256, 8) == 0x10000000000000000,
{
    reveal_with_fuel(pow, 9);
    assert(pow(256, 0) == 1);
    assert(pow(256, 1) == 256 * pow(256, 0));
    assert(pow(256, 2) == 256 * pow(256, 1));
    assert(pow(256, 3) == 256 * pow(256, 2));
    assert(pow(256, 4) == 256 * pow(256, 3));
    assert(pow(256, 5) == 256 * pow(256, 4));
    assert(pow(256, 6) == 256 * pow(256, 5));
    assert(pow(256, 7) == 256 * pow(256, 6));
    assert(pow(256, 8) == 256 * pow(256, 7));
}

/// A 32-byte big-endian word of a value below 2^64 starts with 24 zero bytes,
/// and its last 8 bytes are the 8-byte big-endian form of the same value.
pub proof fn lemma_be_bytes_word_split(n: nat)
    requires
        n < pow(256, 8),
    ensures
        be_bytes(n, 32).len() == 32,
        be_bytes(n, 32).subrange(0, 24) == zeros(24),
        be_bytes(n, 32).subrange(24, 32) == be_bytes(n, 8),
{
    lemma_be_bytes_len(n, 32);
    lemma_be_bytes_len(n, 8);
    assert forall|i: int| 0 <= i < 24 implies be_bytes(n, 32)[i] == 0u8 by {
        lemma_be_bytes_index(n, 32, i);
        let e = (31 - i) as nat;
        lemma_pow256();
        lemma_pow_increases(256, 8, e);
        assert(n as int / pow(256, e) == 0) by (nonlinear_arith)
            requires 0 <= n < pow(256, e),
        ;
    }
    assert(be_bytes(n, 32).subrange(0, 24) =~= zeros(24));
    assert forall|j: int| 0 <= j < 8 implies be_bytes(n, 32)[24 + j] == be_bytes(n, 8)[j] by {
        lemma_be_bytes_index(n, 32, 24 + j);
        lemma_be_bytes_index(n, 8, j);
    }
    assert(be_bytes(n, 32).subrange(24, 32) =~= be_bytes(n, 8));
}

/// Appends `k` zero bytes.
pub fn push_zeros(out: &mut Vec<u8>, k: usize)
    ensures
        final(out)@ == old(out)@ + zeros(k as nat),
{
    let mut i: usize = 0;
    while i < k
        invariant
            i <= k,
            out@ == old(out)@ + zeros(i as nat),
        decreases k - i,
    {
        out.push(0u8);
        assert(zeros(i as nat).push(0u8) =~= zeros((i + 1) as nat));
        i += 1;
    }
}

/// Appends a copy of `src`.
pub fn push_bytes(out: &mut Vec<u8>, src: &Vec<u8>)
    ensures
        final(out)@ == old(out)@ + src@,
{
    let mut i: usize = 0;
    while i < src.len()
        invariant
            i <= src@.len(),
            out@ == old(out)@ + src@.subrange(0, i as int),
        decreases src@.len() - i,
    {
        out.push(src[i]);
        assert(src@.subrange(0, i as int).push(src@[i as int]) =~= src@.subrange(0, i + 1));
        i += 1;
    }
    assert(src@.subrange(0, src@.len() as int) =~= src@);
}

/// A fresh vector holding `src[from..to]`.
pub fn copy_range(src: &Vec<u8>, from: usize, to: usize) -> (r: Vec<u8>)
    requires
        from <= to <= src@.len(),
    ensures
        r@ == src@.subrange(from as int, to as int),
{
    let mut r: Vec<u8> = Vec::new();
    let mut i: usize = from;
    while i < to
        invariant
            from <= i <= to <= src@.len(),
            r@ == src@.subrange(from as int, i as int),
        decreases to - i,
    {
        r.push(src[i]);
        assert(src@.subrange(from as int, i as int).push(src@[i as int]) =~= src@.subrange(
            from as int,
            i + 1,
        ));
        i += 1;
    }
    r
}

/// Appends the 32-byte big-endian word of `n`.
pub fn push_be_word(out: &mut Vec<u8>, n: u64)
    ensures
        final(out)@ == old(out)@ + be_bytes(n as nat, 32),
{
    push_zeros(out, 24);
    out.push((n / 0x100000000000000) as u8);
    out.push(((n / 0x1000000000000) % 256) as u8);
    out.push(((n / 0x10000000000) % 256) as u8);
    out.push(((n / 0x100000000) % 256) as u8);
    out.push(((n / 0x1000000) % 256) as u8);
    out.push(((n / 0x10000) % 256) as u8);
    out.push(((n / 0x100) % 256) as u8);
    out.push((n % 256) as u8);
    proof {
        lemma_pow256();
        lemma_be_bytes_word_split(n as nat);
        let w = be_bytes(n as nat, 32);
        lemma_be_bytes_index(n as nat, 32, 24);
        lemma_be_bytes_index(n as nat, 32, 25);
        lemma_be_bytes_index(n as nat, 32, 26);
        lemma_be_bytes_index(n as nat, 32, 27);
        lemma_be_bytes_index(n as nat, 32, 28);
        lemma_be_bytes_index(n as nat, 32, 29);
        lemma_be_bytes_index(n as nat, 32, 30);
        lemma_be_bytes_index(n as nat, 32, 31);
        assert(n as int / 0x100000000000000 < 256) by (nonlinear_arith)
            requires n < 0x10000000000000000,
        ;
        assert forall|i: int| 0 <= i < 24 implies w[i] == 0u8 by {
            assert(w[i] == w.subrange(0, 24)[i]);
        }
        assert(out@ =~= old(out)@ + w);
    }
}

/// Reads the numeric value of the last 8 bytes of the 32-byte word at `pos`.
pub fn read_word_tail(data: &Vec<u8>, pos: usize) -> (r: u64)
    requires
        pos + 32 <= data@.len(),
    ensures
        r as nat == be_val(data@.subrange(pos + 24, pos + 32)),
{
    proof {
        lemma_pow256();
    }
    let dl = data.len();
    let mut v: u64 = 0;
    let mut j: usize = 0;
    while j < 8
        invariant
            j <= 8,
            dl == data@.len(),
            pos + 32 <= dl,
            v as nat == be_val(data@.subrange(pos + 24, pos + 24 + j)),
            (v as nat) < pow(256, j as nat),
        decreases 8 - j,
    {
        proof {
            lemma_pow256();
            lemma_pow_increases(256, j as nat, 7);
            let s = data@.subrange(pos + 24, pos + 24 + j);
            let s2 = data@.subrange(pos + 24, pos + 24 + j + 1);
            assert(s2.drop_last() =~= s);
            assert(s2.last() == data@[pos + 24 + j]);
            lemma_be_val_bound(s2);
        }
        v = v * 256 + (data[pos + 24 + j] as u64);
        j += 1;
    }
    proof {
        lemma_pow256();
    }
    v
}

/// True when `data[from..to]` is all zeros.
pub fn check_zeros(data: &Vec<u8>, from: usize, to: usize) -> (r: bool)
    requires
        from <= to <= data@.len(),
    ensures
        r <==> data@.subrange(from as int, to as int) == zeros((to - from) as nat),
{
    let mut i: usize = from;
    while i < to
        invariant
            from <= i <= to <= data@.len(),
            forall|k: int| from <= k < i ==> data@[k] == 0u8,
        decreases to - i,
    {
        if data[i] != 0 {
            proof {
                let s = data@.subrange(from as int, to as int);
                let z = zeros((to - from) as nat);
                assert(s[i - from] != 0u8);
                assert(z[i - from] == 0u8);
            }
            return false;
        }
        i += 1;
    }
    proof {
        assert(data@.subrange(from as int, to as int) =~= zeros((to - from) as nat));
    }
    true
}

/// True when the two byte vectors hold the same bytes.
pub fn eq_bytes(a: &Vec<u8>, b: &Vec<u8>) -> (r: bool)
    ensures
        r <==> a@ == b@,
{
    if a.len() != b.len() {
        return false;
    }
    let mut i: usize = 0;
    while i < a.len()
        invariant
            i <= a@.len(),
            a@.len() == b@.len(),
            forall|k: int| 0 <= k < i ==> a@[k] == b@[k],
        decreases a@.len() - i,
    {
        if a[i] != b[i] {
            return false;
        }
        i += 1;
    }
    proof {
        assert(a@ =~= b@);
    }
    true
}

} // verus!
