//! Small facts about Euclidean `%` on `int` that the cursor arithmetic of the
//! cipher stages leans on: reducing one operand of a sum or difference modulo
//! the divisor keeps the residue, and stepping a counter up or down by one
//! steps its residue with a wrap at the divisor's edge.
use vstd::prelude::*;

verus! {

use vstd::arithmetic::div_mod::{
    lemma_add_mod_noop,
    lemma_sub_mod_noop,
    lemma_mod_twice,
    lemma_small_mod,
    lemma_mod_add_multiples_vanish,
    lemma_mod_bound,
    lemma_fundamental_div_mod,
    lemma_fundamental_div_mod_converse,
};
use vstd::arithmetic::mul::{
    lemma_mul_is_distributive_add,
    lemma_mul_is_distributive_sub,
    lemma_mul_is_commutative,
};

/// Reducing the left summand modulo `n` does not change the sum's residue.
pub proof fn lemma_mod_add_left(a: int, b: int, n: int)
    requires
        n >= 1,
    ensures
        (a % n + b) % n == (a + b) % n,
{
    lemma_mod_twice(a, n);
    lemma_add_mod_noop(a % n, b, n);
    lemma_add_mod_noop(a, b, n);
}

/// Reducing the right summand modulo `n` does not change the sum's residue.
pub proof fn lemma_mod_add_right(a: int, b: int, n: int)
    requires
        n >= 1,
    ensures
        (a + b % n) % n == (a + b) % n,
{
    lemma_mod_twice(b, n);
    lemma_add_mod_noop(a, b % n, n);
    lemma_add_mod_noop(a, b, n);
}

/// Reducing the minuend modulo `n` does not change the difference's residue.
pub proof fn lemma_mod_sub_left(a: int, b: int, n: int)
    requires
        n >= 1,
    ensures
        (a % n - b) % n == (a - b) % n,
{
    lemma_mod_twice(a, n);
    lemma_sub_mod_noop(a % n, b, n);
    lemma_sub_mod_noop(a, b, n);
}

/// Reducing the subtrahend modulo `n` does not change the difference's residue.
pub proof fn lemma_mod_sub_right(a: int, b: int, n: int)
    requires
        n >= 1,
    ensures
        (a - b % n) % n == (a - b) % n,
{
    lemma_mod_twice(b, n);
    lemma_sub_mod_noop(a, b % n, n);
    lemma_sub_mod_noop(a, b, n);
}

/// A value already in `[0, 2n)` reduces modulo `n` by at most one subtraction.
pub proof fn lemma_mod_in_range(x: int, n: int)
    requires
        n >= 1,
        0 <= x < 2 * n,
    ensures
        x % n == if x < n {
            x
        } else {
            x - n
        },
{
    if x < n {
        lemma_small_mod(x as nat, n as nat);
    } else {
        lemma_mod_add_multiples_vanish(x - n, n);
        lemma_small_mod((x - n) as nat, n as nat);
    }
}

/// Stepping a positive counter down by one steps its residue down by one,
/// wrapping from zero to `k - 1`.
pub proof fn lemma_mod_dec(a: int, k: int)
    requires
        k >= 1,
        a >= 1,
    ensures
        (a - 1) % k == if a % k == 0 {
            k - 1
        } else {
            a % k - 1
        },
{
    lemma_fundamental_div_mod(a, k);
    lemma_mod_bound(a, k);
    if a % k == 0 {
        assert(k * (a / k - 1) == k * (a / k) - k) by {
            lemma_mul_is_distributive_sub(k, a / k, 1);
        }
        lemma_mul_is_commutative(a / k - 1, k);
        assert(a - 1 == (a / k - 1) * k + (k - 1));
        lemma_fundamental_div_mod_converse(a - 1, k, a / k - 1, k - 1);
    } else {
        lemma_mul_is_commutative(a / k, k);
        assert(a - 1 == (a / k) * k + (a % k - 1));
        lemma_fundamental_div_mod_converse(a - 1, k, a / k, a % k - 1);
    }
}

/// Stepping a counter up by one steps its residue up by one, wrapping from
/// `k - 1` to zero, and steps its quotient exactly at the wrap.
pub proof fn lemma_div_mod_step(t: int, k: int)
    requires
        k >= 1,
        t >= 0,
    ensures
        (t + 1) % k == if t % k == k - 1 {
            0int
        } else {
            t % k + 1
        },
        (t + 1) / k == if t % k == k - 1 {
            t / k + 1
        } else {
            t / k
        },
{
    lemma_fundamental_div_mod(t, k);
    lemma_mod_bound(t, k);
    if t % k == k - 1 {
        assert(k * (t / k + 1) == k * (t / k) + k) by {
            lemma_mul_is_distributive_add(k, t / k, 1);
        }
        lemma_mul_is_commutative(t / k + 1, k);
        assert(t + 1 == (t / k + 1) * k + 0);
        lemma_fundamental_div_mod_converse(t + 1, k, t / k + 1, 0);
    } else {
        lemma_mul_is_commutative(t / k, k);
        assert(t + 1 == (t / k) * k + (t % k + 1));
        lemma_fundamental_div_mod_converse(t + 1, k, t / k, t % k + 1);
    }
}

} // verus!
