//! Arithmetic on cursors and physical slots.
//!
//! Cursors are `usize` counters that wrap around at `usize::MAX + 1`; a slot
//! is a cursor taken modulo the capacity. Because the capacity is a power of
//! two it divides the cursor modulus, so wrapping never disturbs the slot.
use vstd::prelude::*;

verus! {

use vstd::arithmetic::power2::{is_pow2, is_pow2_exists, is_pow2_equiv, pow2};
use vstd::arithmetic::div_mod::{
    lemma_fundamental_div_mod,
    lemma_mod_add_multiples_vanish,
    lemma_mod_mod,
    lemma_mod_multiples_basic,
    lemma_mod_multiples_vanish,
    lemma_small_mod,
};

/// Number of distinct cursor values: cursor arithmetic wraps at this modulus.
pub open spec fn cursor_modulus() -> int {
    usize::MAX as int + 1
}

/// A smaller power of two divides a larger one.
proof fn lemma_power_of_two_divides(a: int, b: int)
    requires
        is_pow2(a),
        is_pow2(b),
        a <= b,
    ensures
        b % a == 0,
    decreases b,
{
    reveal(is_pow2);
    if a > 1 {
        lemma_power_of_two_divides(a / 2, b / 2);
        let q = (b / 2) / (a / 2);
        lemma_fundamental_div_mod(b / 2, a / 2);
        assert(b == q * a) by (nonlinear_arith)
            requires
                b == 2 * (b / 2),
                a == 2 * (a / 2),
                b / 2 == (a / 2) * q,
        ;
        lemma_mod_multiples_basic(q, a);
    }
}

/// The cursor modulus is a power of two.
proof fn lemma_cursor_modulus_is_power_of_two()
    ensures
        is_pow2(cursor_modulus()),
{
    vstd::layout::unsigned_int_max_values();
    vstd::arithmetic::power::lemma_pow_positive(2, usize::BITS as nat);
    assert(pow2(usize::BITS as nat) == cursor_modulus());
    assert(vstd::arithmetic::power::pow(2, usize::BITS as nat) == cursor_modulus());
    assert(is_pow2_exists(cursor_modulus()));
    is_pow2_equiv(cursor_modulus());
}

/// The cursor modulus is a multiple of a power-of-two capacity.
proof fn lemma_capacity_divides_modulus(n: int) -> (q: int)
    requires
        is_pow2(n),
        n <= usize::MAX,
    ensures
        q > 0,
        cursor_modulus() == n * q,
{
    reveal(is_pow2);
    lemma_cursor_modulus_is_power_of_two();
    lemma_power_of_two_divides(n, cursor_modulus());
    lemma_fundamental_div_mod(cursor_modulus(), n);
    let q = cursor_modulus() / n;
    assert(q > 0) by (nonlinear_arith)
        requires
            cursor_modulus() == n * q,
            n > 0,
            cursor_modulus() > 0,
    ;
    q
}

/// A value below twice a modulus wraps around it at most once.
pub proof fn lemma_reduce_once(x: int, m: int)
    requires
        0 <= x < 2 * m,
    ensures
        x % m == if x < m {
            x
        } else {
            x - m
        },
{
    if x < m {
        lemma_small_mod(x as nat, m as nat);
    } else {
        lemma_mod_add_multiples_vanish(x - m, m);
        lemma_small_mod((x - m) as nat, m as nat);
    }
}

/// Adding to a wrapped cursor agrees with adding to the unwrapped one, both
/// modulo the cursor modulus and modulo a power-of-two capacity.
pub proof fn lemma_wrap_shift(x: int, j: int, n: int)
    requires
        is_pow2(n),
        n <= usize::MAX,
    ensures
        ((x % cursor_modulus()) + j) % cursor_modulus() == (x + j) % cursor_modulus(),
        ((x % cursor_modulus()) + j) % n == (x + j) % n,
{
    reveal(is_pow2);
    let m = cursor_modulus();
    let q = lemma_capacity_divides_modulus(n);
    lemma_fundamental_div_mod(x, m);
    let a = -(x / m);
    assert((x % m) + j == m * a + (x + j)) by (nonlinear_arith)
        requires
            x == m * (x / m) + x % m,
            a == -(x / m),
    ;
    lemma_mod_multiples_vanish(a, x + j, m);
    assert(m * a == n * (q * a)) by (nonlinear_arith)
        requires
            m == n * q,
    ;
    lemma_mod_multiples_vanish(q * a, x + j, n);
}

/// Moving a whole capacity forward lands on the same slot.
pub proof fn lemma_slot_period(x: int, n: int)
    requires
        n > 0,
    ensures
        (x + n) % n == x % n,
{
    lemma_mod_multiples_vanish(1, x, n);
}

/// Reducing modulo the cursor modulus first does not change a value modulo
/// a power-of-two capacity.
pub proof fn lemma_wrap_keeps_slot(x: int, n: int)
    requires
        is_pow2(n),
        n <= usize::MAX,
    ensures
        (x % cursor_modulus()) % n == x % n,
{
    lemma_wrap_shift(x, 0, n);
}

/// Distinct logical positions within one capacity land on distinct slots.
pub proof fn lemma_slots_distinct(x: int, a: int, b: int, n: int)
    requires
        0 <= a < n,
        0 <= b < n,
        a != b,
    ensures
        (x + a) % n != (x + b) % n,
{
    lemma_fundamental_div_mod(x + a, n);
    lemma_fundamental_div_mod(x + b, n);
    if (x + a) % n == (x + b) % n {
        let qa = (x + a) / n;
        let qb = (x + b) / n;
        assert(a - b == n * (qa - qb)) by (nonlinear_arith)
            requires
                x + a == n * qa + (x + a) % n,
                x + b == n * qb + (x + b) % n,
                (x + a) % n == (x + b) % n,
        ;
        assert(false) by (nonlinear_arith)
            requires
                a - b == n * (qa - qb),
                a != b,
                -n < a - b < n,
        ;
    }
}

} // verus!
