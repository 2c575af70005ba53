//! The sample verifiable computation run inside the proving program: the
//! Fibonacci sequence over 256-bit words, using the codec's big-endian word
//! representation.
use vstd::prelude::*;

verus! {

use vstd::arithmetic::power::pow;
use vstd::arithmetic::power::lemma_pow_positive;
use crate::words::be_val;

/// The Fibonacci sequence with two leading ones; each later value is the
/// sum of the previous two.
pub open spec fn fib(n: nat) -> nat
    decreases n,
{
    if n <= 1 {
        1
    } else {
        fib((n - 1) as nat) + fib((n - 2) as nat)
    }
}

pub proof fn lemma_fib_mono(i: nat, j: nat)
    requires
        i <= j,
    ensures
        fib(i) <= fib(j),
    decreases j,
{
    if i < j && j >= 2 {
        lemma_fib_mono(i, (j - 1) as nat);
    }
}

/// Prepending a byte adds its value at the top position.
proof fn lemma_be_val_prepend(x: u8, s: Seq<u8>)
    ensures
        be_val(seq![x] + s) == x * pow(256, s.len()) + be_val(s),
    decreases s.len(),
{
    let t = seq![x] + s;
    if s.len() == 0 {
        assert(t =~= seq![x]);
        assert(t.drop_last() =~= Seq::<u8>::empty());
        assert(be_val(Seq::<u8>::empty()) == 0);
        assert(t.last() == x);
        assert(be_val(t) == x);
        assert(pow(256, 0) == 1) by {
            vstd::arithmetic::power::lemma_pow0(256);
        }
    } else {
        assert(t.drop_last() =~= seq![x] + s.drop_last());
        assert(t.last() == s.last());
        lemma_be_val_prepend(x, s.drop_last());
        let p1 = pow(256, (s.len() - 1) as nat);
        assert(pow(256, s.len()) == 256 * p1) by {
            vstd::arithmetic::power::lemma_pow1(256);
            vstd::arithmetic::power::lemma_pow_adds(256, 1, (s.len() - 1) as nat);
        }
        assert(256 * (x * p1 + be_val(s.drop_last())) + s.last() == x * (256 * p1)
            + (256 * be_val(s.drop_last()) + s.last())) by (nonlinear_arith);
    }
}

/// Adds two 256-bit big-endian words.  The sum must fit in a word: this
/// arithmetic has no carry out.
pub fn add_words(a: &Vec<u8>, b: &Vec<u8>) -> (r: Vec<u8>)
    requires
        a@.len() == 32,
        b@.len() == 32,
        be_val(a@) + be_val(b@) < pow(256, 32),
    ensures
        r@.len() == 32,
        be_val(r@) == be_val(a@) + be_val(b@),
{
    let mut tmp: Vec<u8> = Vec::new();
    let mut carry: u8 = 0;
    let mut j: usize = 0;
    while j < 32
        invariant
            j <= 32,
            a@.len() == 32,
            b@.len() == 32,
            carry <= 1,
            tmp@.len() == j,
            be_val(a@.subrange(32 - j, 32)) + be_val(b@.subrange(32 - j, 32)) == (
            carry as nat) * pow(256, j as nat) + be_val(tmp@.reverse()),
        decreases 32 - j,
    {
        let i = 31 - j;
        let t: u16 = a[i] as u16 + b[i] as u16 + carry as u16;
        let x: u8 = (t % 256) as u8;
        let newc: u8 = (t / 256) as u8;
        let ghost old_tmp = tmp@;
        tmp.push(x);
        proof {
            let sa = a@.subrange(32 - j, 32);
            let sb = b@.subrange(32 - j, 32);
            let sa2 = a@.subrange(31 - j, 32);
            let sb2 = b@.subrange(31 - j, 32);
            assert(sa2 =~= seq![a@[31 - j]] + sa);
            assert(sb2 =~= seq![b@[31 - j]] + sb);
            lemma_be_val_prepend(a@[31 - j], sa);
            lemma_be_val_prepend(b@[31 - j], sb);
            assert(tmp@.reverse() =~= seq![x] + old_tmp.reverse());
            lemma_be_val_prepend(x, old_tmp.reverse());
            assert(old_tmp.reverse().len() == j);
            let pj = pow(256, j as nat);
            lemma_pow_positive(256, j as nat);
            assert(pow(256, (j + 1) as nat) == 256 * pj) by {
                vstd::arithmetic::power::lemma_pow1(256);
                vstd::arithmetic::power::lemma_pow_adds(256, 1, j as nat);
            }
            assert(t == a@[31 - j] + b@[31 - j] + carry);
            assert(t == 256 * newc + x);
            assert((a@[31 - j] + b@[31 - j] + carry) * pj == (newc as nat) * (256 * pj)
                + (x as nat) * pj) by (nonlinear_arith)
                requires t == 256 * newc + x && t == a@[31 - j] + b@[31 - j] + carry,
            ;
            assert((a@[31 - j] * pj + be_val(sa)) + (b@[31 - j] * pj + be_val(sb)) == (
            newc as nat) * (256 * pj) + ((x as nat) * pj + be_val(old_tmp.reverse())))
                by (nonlinear_arith)
                requires
                    be_val(sa) + be_val(sb) == (carry as nat) * pj + be_val(
                        old_tmp.reverse(),
                    ),
                    (a@[31 - j] + b@[31 - j] + carry) * pj == (newc as nat) * (256 * pj)
                        + (x as nat) * pj,
            ;
        }
        carry = newc;
        j += 1;
    }
    proof {
        assert(a@.subrange(0, 32) =~= a@);
        assert(b@.subrange(0, 32) =~= b@);
        if carry >= 1 {
            lemma_pow_positive(256, 32);
            assert(be_val(a@) + be_val(b@) >= pow(256, 32));
            assert(false);
        }
    }
    let mut r: Vec<u8> = Vec::new();
    let mut i: usize = 0;
    while i < 32
        invariant
            i <= 32,
            tmp@.len() == 32,
            r@.len() == i,
            forall|k: int| 0 <= k < i ==> #[trigger] r@[k] == tmp@[31 - k],
        decreases 32 - i,
    {
        r.push(tmp[31 - i]);
        i += 1;
    }
    proof {
        assert(r@ =~= tmp@.reverse());
    }
    r
}

/// The 256-bit word holding the value 1.
pub fn one_word() -> (r: Vec<u8>)
    ensures
        r@.len() == 32,
        be_val(r@) == 1,
{
    let mut r: Vec<u8> = Vec::new();
    let mut i: usize = 0;
    while i < 31
        invariant
            i <= 31,
            r@.len() == i,
            forall|k: int| 0 <= k < i ==> r@[k] == 0u8,
        decreases 31 - i,
    {
        r.push(0u8);
        i += 1;
    }
    r.push(1u8);
    proof {
        lemma_be_val_one(r@);
    }
    r
}

proof fn lemma_be_val_one(s: Seq<u8>)
    requires
        s.len() >= 1,
        forall|k: int| 0 <= k < s.len() - 1 ==> s[k] == 0u8,
        s.last() == 1u8,
    ensures
        be_val(s) == 1,
    decreases s.len(),
{
    lemma_be_val_zeros_prefix(s.drop_last());
}

proof fn lemma_be_val_zeros_prefix(s: Seq<u8>)
    requires
        forall|k: int| 0 <= k < s.len() ==> s[k] == 0u8,
    ensures
        be_val(s) == 0,
    decreases s.len(),
{
    if s.len() > 0 {
        lemma_be_val_zeros_prefix(s.drop_last());
    }
}

/// Computes the `n`-th value of the sequence over 256-bit words; the value
/// must fit in a word.
pub fn fibonacci(n: u32) -> (r: Vec<u8>)
    requires
        fib(n as nat) < pow(256, 32),
    ensures
        r@.len() == 32,
        be_val(r@) == fib(n as nat),
{
    let mut prev = one_word();
    let mut curr = one_word();
    if n < 2 {
        return curr;
    }
    let mut i: u64 = 2;
    while i <= n as u64
        invariant
            2 <= i <= n + 1,
            prev@.len() == 32,
            curr@.len() == 32,
            be_val(prev@) == fib((i - 2) as nat),
            be_val(curr@) == fib((i - 1) as nat),
            fib(n as nat) < pow(256, 32),
        decreases n as int + 1 - i as int,
    {
        proof {
            lemma_fib_mono(i as nat, n as nat);
        }
        let next = add_words(&prev, &curr);
        prev = curr;
        curr = next;
        i += 1;
    }
    curr
}

} // verus!
