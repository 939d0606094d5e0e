//! The permutation stage: one chain of `n` dependent pair swaps over a buffer
//! of length `n`, driven by a circular walk over the key.
//!
//! Forward, a key cursor starts at index 0 and a buffer cursor at
//! `key[0] mod n`; each step advances the key cursor by one (circularly),
//! advances the buffer cursor by the key byte there (modulo `n`), and swaps
//! the bytes at the cursor's old and new positions.  The inverse undoes the
//! `n` swaps in reverse order; it reconstructs the ending buffer cursor in
//! closed form — the sum of the `n + 1` key bytes consumed cyclically from
//! index 0, reduced modulo `n`, grouped by key index as an O(k) shortcut for
//! an O(n) replay — and the ending key cursor as `(n + 1) mod k`.
use vstd::prelude::*;

verus! {

use vstd::arithmetic::div_mod::{
    lemma_mod_bound,
    lemma_small_mod,
    lemma_add_mod_noop,
    lemma_div_pos_is_pos,
    lemma_div_nonincreasing,
    lemma_mod_add_multiples_vanish,
};
use vstd::arithmetic::mul::{lemma_mul_is_distributive_add, lemma_mul_basics, lemma_mul_upper_bound};
use crate::arith::{
    lemma_mod_add_left,
    lemma_mod_add_right,
    lemma_mod_sub_left,
    lemma_mod_sub_right,
    lemma_mod_in_range,
    lemma_mod_dec,
    lemma_div_mod_step,
};

/// The key byte consumed by jump `j`, reading the key cyclically from index 0.
pub open spec fn key_at(key: Seq<u8>, j: int) -> u8
    recommends
        key.len() >= 1,
        j >= 0,
{
    key[j % (key.len() as int)]
}

/// The buffer cursor after jump `j`; jump 0 places the cursor at
/// `key[0] mod n`, and every later jump advances it by the next cyclic key
/// byte, modulo `n`.
pub open spec fn cursor(key: Seq<u8>, n: int, j: nat) -> int
    recommends
        key.len() >= 1,
        n >= 1,
    decreases j,
{
    if j == 0 {
        (key_at(key, 0) as int) % n
    } else {
        (cursor(key, n, (j - 1) as nat) + key_at(key, j as int)) % n
    }
}

/// The sequence with the bytes at positions `a` and `b` exchanged.
pub open spec fn swap2(s: Seq<u8>, a: int, b: int) -> Seq<u8>
    recommends
        0 <= a < s.len(),
        0 <= b < s.len(),
{
    s.update(a, s[b]).update(b, s[a])
}

/// The buffer after the first `j` forward swaps: swap `j` exchanges the
/// positions under the buffer cursor before and after jump `j`.
pub open spec fn perm_fwd_upto(key: Seq<u8>, s: Seq<u8>, j: nat) -> Seq<u8>
    recommends
        key.len() >= 1,
        s.len() >= 1,
    decreases j,
{
    if j == 0 {
        s
    } else {
        let prev = perm_fwd_upto(key, s, (j - 1) as nat);
        swap2(prev, cursor(key, s.len() as int, (j - 1) as nat), cursor(key, s.len() as int, j))
    }
}

/// One forward permutation round: `n` swaps on a buffer of length `n`; the
/// empty buffer is untouched.
pub open spec fn perm_fwd(key: Seq<u8>, s: Seq<u8>) -> Seq<u8>
    recommends
        key.len() >= 1,
{
    if s.len() == 0 {
        s
    } else {
        perm_fwd_upto(key, s, s.len())
    }
}

/// The buffer after the first `t` inverse swaps: inverse swap `t` undoes
/// forward swap `n - t + 1`, exchanging the same pair of positions.
pub open spec fn perm_inv_upto(key: Seq<u8>, s: Seq<u8>, t: nat) -> Seq<u8>
    recommends
        key.len() >= 1,
        t <= s.len(),
    decreases t,
{
    if t == 0 {
        s
    } else {
        let prev = perm_inv_upto(key, s, (t - 1) as nat);
        let n = s.len() as int;
        swap2(prev, cursor(key, n, (n - t + 1) as nat), cursor(key, n, (n - t) as nat))
    }
}

/// One inverse permutation round: the forward round's `n` swaps undone in
/// reverse order.
pub open spec fn perm_inv(key: Seq<u8>, s: Seq<u8>) -> Seq<u8>
    recommends
        key.len() >= 1,
{
    if s.len() == 0 {
        s
    } else {
        perm_inv_upto(key, s, s.len())
    }
}

/// Every cursor position lies inside the buffer.
pub proof fn lemma_cursor_bound(key: Seq<u8>, n: int, j: nat)
    requires
        key.len() >= 1,
        n >= 1,
    ensures
        0 <= cursor(key, n, j) < n,
{
    if j == 0 {
        lemma_mod_bound(key_at(key, 0) as int, n);
    } else {
        lemma_mod_bound(cursor(key, n, (j - 1) as nat) + key_at(key, j as int), n);
    }
}

/// Forward swaps preserve the buffer's length.
pub proof fn lemma_perm_fwd_upto_len(key: Seq<u8>, s: Seq<u8>, j: nat)
    requires
        key.len() >= 1,
        s.len() >= 1,
    ensures
        perm_fwd_upto(key, s, j).len() == s.len(),
    decreases j,
{
    if j > 0 {
        lemma_perm_fwd_upto_len(key, s, (j - 1) as nat);
        let prev = perm_fwd_upto(key, s, (j - 1) as nat);
        let n = s.len() as int;
        lemma_cursor_bound(key, n, (j - 1) as nat);
        lemma_cursor_bound(key, n, j);
        assert(perm_fwd_upto(key, s, j) == swap2(
            prev,
            cursor(key, n, (j - 1) as nat),
            cursor(key, n, j),
        ));
    }
}

/// Inverse swaps preserve the buffer's length.
pub proof fn lemma_perm_inv_upto_len(key: Seq<u8>, s: Seq<u8>, t: nat)
    requires
        key.len() >= 1,
        s.len() >= 1,
        t <= s.len(),
    ensures
        perm_inv_upto(key, s, t).len() == s.len(),
    decreases t,
{
    if t > 0 {
        lemma_perm_inv_upto_len(key, s, (t - 1) as nat);
        let prev = perm_inv_upto(key, s, (t - 1) as nat);
        let n = s.len() as int;
        lemma_cursor_bound(key, n, (n - t + 1) as nat);
        lemma_cursor_bound(key, n, (n - t) as nat);
        assert(perm_inv_upto(key, s, t) == swap2(
            prev,
            cursor(key, n, (n - t + 1) as nat),
            cursor(key, n, (n - t) as nat),
        ));
    }
}

/// Swapping the same pair of positions twice restores the sequence.
pub proof fn lemma_swap2_twice(s: Seq<u8>, a: int, b: int)
    requires
        0 <= a < s.len(),
        0 <= b < s.len(),
    ensures
        swap2(swap2(s, a, b), b, a) == s,
{
    assert(swap2(swap2(s, a, b), b, a) =~= s);
}

/// Undoing the last `t` forward swaps leaves the buffer as it stood after the
/// first `n - t` of them.
pub proof fn lemma_perm_partial_round_trip(key: Seq<u8>, s: Seq<u8>, t: nat)
    requires
        key.len() >= 1,
        s.len() >= 1,
        t <= s.len(),
    ensures
        perm_inv_upto(key, perm_fwd_upto(key, s, s.len()), t) == perm_fwd_upto(
            key,
            s,
            (s.len() - t) as nat,
        ),
    decreases t,
{
    let n = s.len();
    let f = perm_fwd_upto(key, s, n);
    lemma_perm_fwd_upto_len(key, s, n);
    if t > 0 {
        lemma_perm_partial_round_trip(key, s, (t - 1) as nat);
        let j = (n - t + 1) as nat;
        let prev = perm_fwd_upto(key, s, (j - 1) as nat);
        lemma_perm_fwd_upto_len(key, s, (j - 1) as nat);
        lemma_cursor_bound(key, n as int, (j - 1) as nat);
        lemma_cursor_bound(key, n as int, j);
        lemma_swap2_twice(
            prev,
            cursor(key, n as int, (j - 1) as nat),
            cursor(key, n as int, j),
        );
    }
}

/// The inverse permutation round returns every buffer to its original
/// contents when run with the same key.
pub proof fn lemma_perm_round_trip(key: Seq<u8>, s: Seq<u8>)
    requires
        key.len() >= 1,
    ensures
        perm_inv(key, perm_fwd(key, s)) == s,
{
    if s.len() > 0 {
        lemma_perm_fwd_upto_len(key, s, s.len());
        lemma_perm_partial_round_trip(key, s, s.len());
    }
}

/// On a one-byte buffer every swap is a self-swap: the round is the identity.
pub proof fn lemma_perm_singleton(key: Seq<u8>, s: Seq<u8>)
    requires
        key.len() >= 1,
        s.len() == 1,
    ensures
        perm_fwd(key, s) == s,
        perm_inv(key, s) == s,
{
    lemma_cursor_bound(key, 1, 0);
    lemma_cursor_bound(key, 1, 1);
    assert(perm_fwd_upto(key, s, 0) == s);
    assert(perm_inv_upto(key, s, 0) == s);
    assert(perm_fwd_upto(key, s, 1) == swap2(s, cursor(key, 1, 0), cursor(key, 1, 1)));
    assert(perm_inv_upto(key, s, 1) == swap2(s, cursor(key, 1, 1), cursor(key, 1, 0)));
    assert(swap2(s, 0, 0) =~= s);
}

/// The sum of the first `t` key bytes read cyclically from index 0.
pub open spec fn cyclic_sum(key: Seq<u8>, t: nat) -> int
    recommends
        key.len() >= 1,
    decreases t,
{
    if t == 0 {
        0
    } else {
        cyclic_sum(key, (t - 1) as nat) + key_at(key, t as int - 1)
    }
}

/// How many of the first `t` cyclic reads consume key index `i`.
pub open spec fn key_usage(t: nat, k: nat, i: int) -> int
    recommends
        k >= 1,
        0 <= i < k,
{
    (t as int) / (k as int) + if i < (t as int) % (k as int) {
        1int
    } else {
        0int
    }
}

/// The cyclic sum grouped by key index, over key indices `0 .. i`.
pub open spec fn grouped_sum(key: Seq<u8>, t: nat, i: nat) -> int
    recommends
        key.len() >= 1,
        i <= key.len(),
    decreases i,
{
    if i == 0 {
        0
    } else {
        grouped_sum(key, t, (i - 1) as nat) + key[i as int - 1] * key_usage(
            t,
            key.len(),
            i as int - 1,
        )
    }
}

/// The cursor after jump `j` is the sum of the first `j + 1` cyclic key
/// bytes, reduced modulo `n`.
pub proof fn lemma_cursor_is_cyclic_sum(key: Seq<u8>, n: int, j: nat)
    requires
        key.len() >= 1,
        n >= 1,
    ensures
        cursor(key, n, j) == cyclic_sum(key, j + 1) % n,
    decreases j,
{
    if j == 0 {
        assert(cyclic_sum(key, 1) == cyclic_sum(key, 0) + key_at(key, 0));
        assert(cyclic_sum(key, 0) == 0);
    } else {
        lemma_cursor_is_cyclic_sum(key, n, (j - 1) as nat);
        assert(cyclic_sum(key, j + 1) == cyclic_sum(key, j) + key_at(key, j as int));
        lemma_mod_add_left(cyclic_sum(key, j), key_at(key, j as int) as int, n);
    }
}

/// One more cyclic read raises the usage of exactly the key index it
/// consumes.
pub proof fn lemma_key_usage_step(t: nat, k: nat, i: int)
    requires
        k >= 1,
        0 <= i < k,
    ensures
        key_usage(t + 1, k, i) == key_usage(t, k, i) + if i == (t as int) % (k as int) {
            1int
        } else {
            0int
        },
{
    lemma_div_mod_step(t as int, k as int);
    lemma_mod_bound(t as int, k as int);
}

/// One more cyclic read raises the grouped sum over `0 .. i` by the consumed
/// key byte exactly when that byte's index lies below `i`.
pub proof fn lemma_grouped_sum_step(key: Seq<u8>, t: nat, i: nat)
    requires
        key.len() >= 1,
        i <= key.len(),
    ensures
        grouped_sum(key, t + 1, i) == grouped_sum(key, t, i) + if (t as int) % (
        key.len() as int) < i {
            key_at(key, t as int) as int
        } else {
            0int
        },
    decreases i,
{
    let k = key.len() as int;
    lemma_mod_bound(t as int, k);
    if i > 0 {
        lemma_grouped_sum_step(key, t, (i - 1) as nat);
        lemma_key_usage_step(t, key.len(), i as int - 1);
        lemma_mul_is_distributive_add(
            key[i as int - 1] as int,
            key_usage(t, key.len(), i as int - 1),
            1,
        );
    }
}

/// Before any read, every key index has usage zero, so the grouped sum is
/// zero.
pub proof fn lemma_grouped_sum_zero(key: Seq<u8>, i: nat)
    requires
        key.len() >= 1,
        i <= key.len(),
    ensures
        grouped_sum(key, 0, i) == 0,
    decreases i,
{
    let k = key.len() as int;
    if i > 0 {
        lemma_grouped_sum_zero(key, (i - 1) as nat);
        lemma_small_mod(0, key.len());
        lemma_div_pos_is_pos(0, k);
        lemma_div_nonincreasing(0, k);
        lemma_mul_basics(key[i as int - 1] as int);
    }
}

/// Grouping the cyclic sum by key index does not change it: key index `i` is
/// consumed `key_usage(t, k, i)` times among the first `t` reads.
pub proof fn lemma_grouped_is_cyclic(key: Seq<u8>, t: nat)
    requires
        key.len() >= 1,
    ensures
        grouped_sum(key, t, key.len()) == cyclic_sum(key, t),
    decreases t,
{
    if t == 0 {
        lemma_grouped_sum_zero(key, key.len());
    } else {
        lemma_grouped_is_cyclic(key, (t - 1) as nat);
        lemma_grouped_sum_step(key, (t - 1) as nat, key.len());
        lemma_mod_bound(t as int - 1, key.len() as int);
    }
}

/// One backward step of the swap-chain cursors: the key cursor steps back by
/// one (wrapping below zero to `k - 1`), and the buffer cursor steps back by
/// the key byte now under the key cursor, modulo `n`.
pub fn step_back(key: &[u8], key_index: &mut usize, byte_index: &mut usize, n: usize)
    requires
        key@.len() >= 1,
        n >= 1,
        *old(key_index) < key@.len(),
        *old(byte_index) < n,
    ensures
        *final(key_index) == if *old(key_index) == 0 {
            key@.len() - 1
        } else {
            *old(key_index) - 1
        },
        *final(key_index) < key@.len(),
        *final(byte_index) == (*old(byte_index) - key@[*final(key_index) as int] as int) % (
        n as int),
        *final(byte_index) < n,
{
    if *key_index == 0 {
        *key_index = key.len() - 1;
    } else {
        *key_index = *key_index - 1;
    }
    let kb = key[*key_index] as usize;
    let kbm = kb % n;
    proof {
        let bi = *old(byte_index) as int;
        lemma_mod_bound(kb as int, n as int);
        lemma_mod_sub_right(bi, kb as int, n as int);
        if bi >= kbm {
            lemma_small_mod((bi - kbm as int) as nat, n as nat);
        } else {
            lemma_mod_add_multiples_vanish(bi - kbm as int, n as int);
            lemma_small_mod((bi + n - kbm as int) as nat, n as nat);
        }
    }
    if *byte_index >= kbm {
        *byte_index = *byte_index - kbm;
    } else {
        *byte_index = n - kbm + *byte_index;
    }
}

/// Runs one forward permutation round in place: `n` dependent pair swaps,
/// each driven by the next cyclic key byte.
pub fn permute_forward(key: &[u8], data: &mut Vec<u8>)
    requires
        key@.len() >= 1,
    ensures
        final(data)@ == perm_fwd(key@, old(data)@),
{
    let n = data.len();
    let k = key.len();
    if n == 0 {
        return ;
    }
    let ghost orig = data@;
    let mut key_index: usize = 0;
    let mut byte_index: usize = key[0] as usize % n;
    proof {
        lemma_small_mod(0, k as nat);
        lemma_mod_bound(key@[0] as int, n as int);
        assert(byte_index == cursor(key@, n as int, 0));
    }
    for t in 0..n
        invariant
            n >= 1,
            n == orig.len(),
            data@.len() == n,
            k == key@.len(),
            k >= 1,
            key_index == (t as int) % (k as int),
            key_index < k,
            byte_index == cursor(key@, n as int, t as nat),
            byte_index < n,
            data@ == perm_fwd_upto(key@, orig, t as nat),
    {
        let first_byte = data[byte_index];
        let first_byte_index = byte_index;
        proof {
            lemma_div_mod_step(t as int, k as int);
            lemma_mod_bound(t as int + 1, k as int);
        }
        if key_index == k - 1 {
            key_index = 0;
        } else {
            key_index = key_index + 1;
        }
        let step = key[key_index] as usize % n;
        proof {
            let c = byte_index as int;
            let kb = key@[key_index as int] as int;
            lemma_mod_bound(kb, n as int);
            lemma_mod_add_right(c, kb, n as int);
            lemma_mod_in_range(c + kb % (n as int), n as int);
            assert(cursor(key@, n as int, (t + 1) as nat) == (c + kb) % (n as int));
        }
        if byte_index >= n - step {
            byte_index = byte_index - (n - step);
        } else {
            byte_index = byte_index + step;
        }
        let second_byte = data[byte_index];
        data[first_byte_index] = second_byte;
        data[byte_index] = first_byte;
        proof {
            let prev = perm_fwd_upto(key@, orig, t as nat);
            assert(data@ == swap2(
                prev,
                cursor(key@, n as int, t as nat),
                cursor(key@, n as int, (t + 1) as nat),
            ));
            assert(data@ == perm_fwd_upto(key@, orig, (t + 1) as nat));
        }
    }
}

/// Runs one inverse permutation round in place, reconstructing the forward
/// round's ending cursors in closed form and undoing its swaps back to front.
pub fn permute_inverse(key: &[u8], data: &mut Vec<u8>)
    requires
        key@.len() >= 1,
        old(data)@.len() < usize::MAX,
    ensures
        final(data)@ == perm_inv(key@, old(data)@),
{
    let n = data.len();
    let k = key.len();
    if n == 0 {
        return ;
    }
    let ghost orig = data@;
    // The ending cursors of the forward walk, reconstructed in closed form:
    // the key cursor ends at `(n + 1) mod k`, and the buffer cursor at the sum
    // of the `n + 1` cyclically consumed key bytes, modulo `n`.  Grouped by
    // key index, key[i] is consumed `q + 1` times if `i < m`, else `q` times.
    let q: usize = (n + 1) / k;
    let m: usize = (n + 1) % k;
    proof {
        lemma_mod_bound(n as int + 1, k as int);
        assert(grouped_sum(key@, (n + 1) as nat, 0nat) == 0);
        lemma_small_mod(0nat, n as nat);
    }
    let mut total: u128 = 0;
    for i in 0..k
        invariant
            n >= 1,
            n < usize::MAX,
            k == key@.len(),
            k >= 1,
            q == (n + 1) as int / k as int,
            m == (n + 1) as int % k as int,
            total as int == grouped_sum(key@, (n + 1) as nat, i as nat) % (n as int),
            total < n,
    {
        proof {
            lemma_div_pos_is_pos(n as int + 1, k as int);
            lemma_div_nonincreasing(n as int + 1, k as int);
        }
        let mult: u128 = if i < m {
            q as u128 + 1
        } else {
            q as u128
        };
        proof {
            assert(mult as int == key_usage((n + 1) as nat, k as nat, i as int));
            lemma_mul_upper_bound(key@[i as int] as int, 255, mult as int, n as int + 2);
        }
        let term: u128 = (key[i] as u128 * mult) % (n as u128);
        proof {
            lemma_add_mod_noop(
                grouped_sum(key@, (n + 1) as nat, i as nat),
                key@[i as int] * key_usage((n + 1) as nat, k as nat, i as int),
                n as int,
            );
        }
        total = (total + term) % (n as u128);
    }
    let mut byte_index: usize = total as usize;
    let mut key_index: usize = m;
    proof {
        lemma_grouped_is_cyclic(key@, (n + 1) as nat);
        lemma_cursor_is_cyclic_sum(key@, n as int, n as nat);
        assert(byte_index == cursor(key@, n as int, n as nat));
    }
    for t in 0..n
        invariant
            n >= 1,
            n < usize::MAX,
            n == orig.len(),
            data@.len() == n,
            k == key@.len(),
            k >= 1,
            key_index == (n + 1 - t) as int % (k as int),
            key_index < k,
            byte_index == cursor(key@, n as int, (n - t) as nat),
            byte_index < n,
            data@ == perm_inv_upto(key@, orig, t as nat),
    {
        let second_byte = data[byte_index];
        let second_byte_index = byte_index;
        proof {
            lemma_mod_dec((n + 1 - t) as int, k as int);
            lemma_mod_bound((n - t) as int, k as int);
        }
        step_back(key, &mut key_index, &mut byte_index, n);
        proof {
            let kb = key_at(key@, (n - t) as int) as int;
            let c_prev = cursor(key@, n as int, (n - t - 1) as nat);
            lemma_cursor_bound(key@, n as int, (n - t - 1) as nat);
            assert(cursor(key@, n as int, (n - t) as nat) == (c_prev + kb) % (n as int));
            lemma_mod_sub_left(c_prev + kb, kb, n as int);
            lemma_small_mod(c_prev as nat, n as nat);
            assert(byte_index == c_prev);
        }
        let first_byte = data[byte_index];
        data[second_byte_index] = first_byte;
        data[byte_index] = second_byte;
        proof {
            let prev = perm_inv_upto(key@, orig, t as nat);
            assert(data@ == swap2(
                prev,
                cursor(key@, n as int, (n - t) as nat),
                cursor(key@, n as int, (n - t - 1) as nat),
            ));
            assert(data@ == perm_inv_upto(key@, orig, (t + 1) as nat));
        }
    }
}

} // verus!
