//! Two's-complement arithmetic on `i64`, related to exact integer arithmetic.
use vstd::prelude::*;
use vstd::arithmetic::div_mod::{lemma_add_mod_noop, lemma_mul_mod_noop_left};

verus! {

/// The modulus of 64-bit two's-complement arithmetic.
pub open spec fn modulus() -> int {
    0x1_0000_0000_0000_0000int
}

/// The `i64` that stands for the integer `x` modulo 2^64.
pub open spec fn wrap64(x: int) -> int {
    let m = x % modulus();
    if m > i64::MAX as int {
        m - modulus()
    } else {
        m
    }
}

/// Integers that agree modulo 2^64 wrap to the same `i64`.
pub proof fn lemma_wrap64_congruent(x: int, y: int)
    requires
        x % modulus() == y % modulus(),
    ensures
        wrap64(x) == wrap64(y),
{
}

/// Wrapping keeps the residue and lands in the `i64` range.
pub proof fn lemma_wrap64_residue(x: int)
    ensures
        wrap64(x) % modulus() == x % modulus(),
        i64::MIN <= wrap64(x) <= i64::MAX,
{
    let m = x % modulus();
    assert(0 <= m < modulus());
    if m > i64::MAX as int {
        assert((m - modulus()) % modulus() == m % modulus()) by {
            vstd::arithmetic::div_mod::lemma_mod_sub_multiples_vanish(m, modulus());
        }
        vstd::arithmetic::div_mod::lemma_mod_twice(x, modulus());
    } else {
        vstd::arithmetic::div_mod::lemma_mod_twice(x, modulus());
    }
}

/// A value already in the `i64` range wraps to itself.
pub proof fn lemma_wrap64_small(x: int)
    requires
        i64::MIN <= x <= i64::MAX,
    ensures
        wrap64(x) == x,
{
    if x >= 0 {
        vstd::arithmetic::div_mod::lemma_small_mod(x as nat, modulus() as nat);
    } else {
        vstd::arithmetic::div_mod::lemma_small_mod((x + modulus()) as nat, modulus() as nat);
        vstd::arithmetic::div_mod::lemma_mod_add_multiples_vanish(x, modulus());
    }
}

/// Wrapping addition of two wrapped integers wraps their exact sum.
pub proof fn lemma_wrapping_add(x: int, y: int)
    ensures
        i64::wrapping_add(wrap64(x) as i64, wrap64(y) as i64) as int == wrap64(x + y),
{
    lemma_wrap64_residue(x);
    lemma_wrap64_residue(y);
    let a = wrap64(x);
    let b = wrap64(y);
    let s = a + b;
    let w = i64::wrapping_add(a as i64, b as i64) as int;
    assert(w % modulus() == s % modulus()) by {
        if s > i64::MAX as int {
            vstd::arithmetic::div_mod::lemma_mod_sub_multiples_vanish(s, modulus());
        } else if s < i64::MIN as int {
            vstd::arithmetic::div_mod::lemma_mod_add_multiples_vanish(s, modulus());
        }
    }
    lemma_wrap64_small(w);
    lemma_wrap64_congruent(w, s);
    assert(s % modulus() == (x + y) % modulus()) by {
        lemma_add_mod_noop(a, b, modulus());
        lemma_add_mod_noop(x, y, modulus());
    }
    lemma_wrap64_congruent(s, x + y);
}

/// Wrapping multiplication of a wrapped integer by an `i64` wraps the exact
/// product.
pub proof fn lemma_wrapping_mul(x: int, v: i64)
    ensures
        i64::wrapping_mul(wrap64(x) as i64, v) as int == wrap64(x * v),
{
    lemma_wrap64_residue(x);
    let a = wrap64(x);
    let w = i64::wrapping_mul(a as i64, v) as int;
    assert(w == wrap64(a * v));
    assert((a * v) % modulus() == (x * v) % modulus()) by {
        lemma_mul_mod_noop_left(a, v as int, modulus());
        lemma_mul_mod_noop_left(x, v as int, modulus());
    }
    lemma_wrap64_congruent(a * v, x * v);
}

} // verus!
