//! The substitution stage: a per-round, in-place byte transform keyed by key
//! bytes and the round index.
//!
//! Each buffer position uses one key byte, chosen by a cursor that starts at
//! `n % k` for position 0 and steps backwards through the key (wrapping below
//! zero to `k - 1`), so key bytes are consumed back to front across the whole
//! buffer.  The byte transform itself is a chain of wrapping additions,
//! wrapping subtractions and exclusive-ors; the inverse applies the algebraic
//! inverse of each operation in the reverse order.
use vstd::prelude::*;

verus! {

use vstd::wrapping::u8_specs;
use vstd::arithmetic::div_mod::lemma_mod_bound;
use crate::arith::lemma_mod_dec;

/// Key index consumed at buffer position `p` of a buffer of length `n`:
/// the cursor starts at `n % k` and steps backwards, wrapping below zero.
pub open spec fn sub_key_index(n: int, k: int, p: int) -> int
    recommends
        k >= 1,
        0 <= p <= n,
{
    (n - p) % k
}

/// Forward transform of one byte under key byte `kb`, round index `r` and
/// round count `c`; all arithmetic wraps modulo 256.
pub open spec fn sub_fwd_byte(b: u8, kb: u8, r: u8, c: u8) -> u8 {
    u8_specs::wrapping_add(
        ((u8_specs::wrapping_sub(u8_specs::wrapping_add(b, kb) ^ kb, r) ^ kb) ^ r),
        c,
    )
}

/// Inverse transform of one byte: each operation of `sub_fwd_byte` undone in
/// reverse order.
pub open spec fn sub_inv_byte(b: u8, kb: u8, r: u8, c: u8) -> u8 {
    u8_specs::wrapping_sub(
        (u8_specs::wrapping_add((u8_specs::wrapping_sub(b, c) ^ r) ^ kb, r) ^ kb),
        kb,
    )
}

/// A wrapping subtraction undoes a wrapping addition of the same operand.
pub proof fn lemma_wrapping_add_cancel(x: u8, y: u8)
    ensures
        u8_specs::wrapping_sub(u8_specs::wrapping_add(x, y), y) == x,
        u8_specs::wrapping_add(u8_specs::wrapping_sub(x, y), y) == x,
{
}

/// Exclusive-or by the same operand twice is the identity.
pub proof fn lemma_xor_cancel(x: u8, y: u8)
    ensures
        (x ^ y) ^ y == x,
{
    assert((x ^ y) ^ y == x) by (bit_vector);
}

/// The inverse byte transform returns every byte to its original value.
pub proof fn lemma_sub_byte_round_trip(b: u8, kb: u8, r: u8, c: u8)
    ensures
        sub_inv_byte(sub_fwd_byte(b, kb, r, c), kb, r, c) == b,
{
    let t1 = u8_specs::wrapping_add(b, kb);
    let t2 = t1 ^ kb;
    let t3 = u8_specs::wrapping_sub(t2, r);
    let t4 = t3 ^ kb;
    let t5 = t4 ^ r;
    lemma_wrapping_add_cancel(t5, c);
    lemma_xor_cancel(t4, r);
    lemma_xor_cancel(t3, kb);
    lemma_wrapping_add_cancel(t2, r);
    lemma_xor_cancel(t1, kb);
    lemma_wrapping_add_cancel(b, kb);
}

/// One forward substitution round over a whole buffer.
pub open spec fn sub_fwd_seq(key: Seq<u8>, r: u8, c: u8, s: Seq<u8>) -> Seq<u8>
    recommends
        key.len() >= 1,
{
    Seq::new(
        s.len(),
        |p: int| sub_fwd_byte(s[p], key[sub_key_index(s.len() as int, key.len() as int, p)], r, c),
    )
}

/// One inverse substitution round over a whole buffer, with the same key
/// cursor threading as the forward round.
pub open spec fn sub_inv_seq(key: Seq<u8>, r: u8, c: u8, s: Seq<u8>) -> Seq<u8>
    recommends
        key.len() >= 1,
{
    Seq::new(
        s.len(),
        |p: int| sub_inv_byte(s[p], key[sub_key_index(s.len() as int, key.len() as int, p)], r, c),
    )
}

/// The inverse substitution round returns every buffer to its original
/// contents when run with the same key, round index and round count.
pub proof fn lemma_sub_seq_round_trip(key: Seq<u8>, r: u8, c: u8, s: Seq<u8>)
    requires
        key.len() >= 1,
    ensures
        sub_inv_seq(key, r, c, sub_fwd_seq(key, r, c, s)) == s,
{
    let f = sub_fwd_seq(key, r, c, s);
    let g = sub_inv_seq(key, r, c, f);
    assert forall|p: int| 0 <= p < s.len() implies g[p] == s[p] by {
        let n = s.len() as int;
        let k = key.len() as int;
        lemma_mod_bound(n - p, k);
        lemma_sub_byte_round_trip(s[p], key[sub_key_index(n, k, p)], r, c);
    }
    assert(g =~= s);
}

/// Runs one forward substitution round in place.
pub fn substitute_forward(key: &[u8], data: &mut Vec<u8>, r: u8, c: u8)
    requires
        key@.len() >= 1,
    ensures
        final(data)@ == sub_fwd_seq(key@, r, c, old(data)@),
{
    let n = data.len();
    let k = key.len();
    let ghost orig = data@;
    let mut key_index: usize = n % k;
    proof {
        lemma_mod_bound(n as int, k as int);
    }
    for p in 0..n
        invariant
            n == orig.len(),
            data@.len() == n,
            k == key@.len(),
            k >= 1,
            key_index == sub_key_index(n as int, k as int, p as int),
            0 <= key_index < k,
            forall|q: int|
                0 <= q < p ==> data@[q] == sub_fwd_byte(
                    orig[q],
                    key@[sub_key_index(n as int, k as int, q)],
                    r,
                    c,
                ),
            forall|q: int| p <= q < n ==> data@[q] == orig[q],
    {
        let kb = key[key_index];
        let b = data[p];
        let b = b.wrapping_add(kb);
        let b = b ^ kb;
        let b = b.wrapping_sub(r);
        let b = b ^ kb;
        let b = b ^ r;
        let b = b.wrapping_add(c);
        data[p] = b;
        proof {
            lemma_mod_dec(n - p, k as int);
            lemma_mod_bound(n - p - 1, k as int);
        }
        if key_index == 0 {
            key_index = k - 1;
        } else {
            key_index = key_index - 1;
        }
    }
    proof {
        assert(data@ =~= sub_fwd_seq(key@, r, c, orig));
    }
}

/// Runs one inverse substitution round in place.
pub fn substitute_inverse(key: &[u8], data: &mut Vec<u8>, r: u8, c: u8)
    requires
        key@.len() >= 1,
    ensures
        final(data)@ == sub_inv_seq(key@, r, c, old(data)@),
{
    let n = data.len();
    let k = key.len();
    let ghost orig = data@;
    let mut key_index: usize = n % k;
    proof {
        lemma_mod_bound(n as int, k as int);
    }
    for p in 0..n
        invariant
            n == orig.len(),
            data@.len() == n,
            k == key@.len(),
            k >= 1,
            key_index == sub_key_index(n as int, k as int, p as int),
            0 <= key_index < k,
            forall|q: int|
                0 <= q < p ==> data@[q] == sub_inv_byte(
                    orig[q],
                    key@[sub_key_index(n as int, k as int, q)],
                    r,
                    c,
                ),
            forall|q: int| p <= q < n ==> data@[q] == orig[q],
    {
        let kb = key[key_index];
        let b = data[p];
        let b = b.wrapping_sub(c);
        let b = b ^ r;
        let b = b ^ kb;
        let b = b.wrapping_add(r);
        let b = b ^ kb;
        let b = b.wrapping_sub(kb);
        data[p] = b;
        proof {
            lemma_mod_dec(n - p, k as int);
            lemma_mod_bound(n - p - 1, k as int);
        }
        if key_index == 0 {
            key_index = k - 1;
        } else {
            key_index = key_index - 1;
        }
    }
    proof {
        assert(data@ =~= sub_inv_seq(key@, r, c, orig));
    }
}

} // verus!
