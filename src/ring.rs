//! The element ring: `i64` with wrapping addition and multiplication, that is
//! the integers modulo `2^64`. Contracts state exact integer sums and products
//! and `wrap` them into this ring.

use vstd::prelude::*;
use vstd::arithmetic::div_mod::{lemma_add_mod_noop, lemma_mul_mod_noop, lemma_mod_bound};

verus! {

/// The size of the ring of machine integers: values are taken modulo `2^64`.
pub open spec fn modulus() -> int {
    0x1_0000_0000_0000_0000
}

/// The `i64` congruent to `x` modulo `2^64`: the result of evaluating an exact
/// integer expression with wrapping `i64` arithmetic.
pub open spec fn wrap(x: int) -> i64 {
    let r = x % modulus();
    if r > i64::MAX as int {
        (r - modulus()) as i64
    } else {
        r as i64
    }
}

pub proof fn lemma_wrap_mod(x: int)
    ensures
        (wrap(x) as int) % modulus() == x % modulus(),
{
    let m = modulus();
    lemma_mod_bound(x, m);
    let r = x % m;
    if r > i64::MAX as int {
        assert((r - m) % m == r % m) by {
            vstd::arithmetic::div_mod::lemma_mod_sub_multiples_vanish(r, m);
        }
        vstd::arithmetic::div_mod::lemma_mod_twice(x, m);
    } else {
        vstd::arithmetic::div_mod::lemma_mod_twice(x, m);
    }
}

/// On integers within one modulus of zero, wrapping adds or removes at most one modulus.
pub proof fn lemma_wrap_small(s: int)
    requires
        -modulus() <= s < modulus(),
    ensures
        wrap(s) == (if s > i64::MAX as int {
            s - modulus()
        } else if s < i64::MIN as int {
            s + modulus()
        } else {
            s
        }),
{
    let m = modulus();
    if s >= 0 {
        vstd::arithmetic::div_mod::lemma_small_mod(s as nat, m as nat);
    } else {
        vstd::arithmetic::div_mod::lemma_small_mod((s + m) as nat, m as nat);
        vstd::arithmetic::div_mod::lemma_mod_add_multiples_vanish(s, m);
    }
}

/// An `i64` wraps to itself.
pub proof fn lemma_wrap_id(v: i64)
    ensures
        wrap(v as int) == v,
{
    lemma_wrap_small(v as int);
}

/// Multiplying wrapped values and wrapping again is wrapping the exact product.
pub proof fn lemma_wrap_mul(a: int, b: int)
    ensures
        wrap(wrap(a) as int * wrap(b) as int) == wrap(a * b),
{
    let m = modulus();
    lemma_wrap_mod(a);
    lemma_wrap_mod(b);
    lemma_mul_mod_noop(wrap(a) as int, wrap(b) as int, m);
    lemma_mul_mod_noop(a, b, m);
}

/// Congruence is kept when the same integer is added on both sides.
pub proof fn lemma_wrap_shift(x: int, y: int, z: int)
    requires
        wrap(x) == wrap(y),
    ensures
        wrap(x + z) == wrap(y + z),
{
    let m = modulus();
    lemma_wrap_mod(x);
    lemma_wrap_mod(y);
    lemma_add_mod_noop(x, z, m);
    lemma_add_mod_noop(y, z, m);
}

/// Wrapping an inner term does not change the wrapped total.
pub proof fn lemma_wrap_inner(x: int, y: int)
    ensures
        wrap(x + wrap(y) as int) == wrap(x + y),
{
    let m = modulus();
    lemma_wrap_mod(y);
    lemma_add_mod_noop(x, wrap(y) as int, m);
    lemma_add_mod_noop(x, y, m);
    vstd::arithmetic::div_mod::lemma_mod_twice(y, m);
    lemma_mod_bound(y, m);
}

/// Ring multiplication of two stored values.
pub fn ring_mul(a: i64, b: i64) -> (r: i64)
    ensures
        r == wrap(a * b),
{
    a.wrapping_mul(b)
}

/// Ring addition of two stored values.
pub fn ring_add(a: i64, b: i64) -> (r: i64)
    ensures
        r == wrap(a + b),
{
    proof {
        lemma_wrap_small(a + b);
    }
    a.wrapping_add(b)
}

} // verus!
