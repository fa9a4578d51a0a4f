//! Wrapping 64-bit arithmetic: the modular model of all PCG state math.

use vstd::prelude::*;
use vstd::arithmetic::div_mod::{
    lemma_mod_add_multiples_vanish, lemma_mod_bound, lemma_mod_twice, lemma_mul_mod_noop_general,
    lemma_small_mod,
};
use crate::{A, A_INV};

verus! {

/// 2^64, the modulus of all PCG state arithmetic.
pub open spec fn m64() -> int {
    0x1_0000_0000_0000_0000
}

/// `(a + b) mod 2^64`.
pub open spec fn wadd(a: u64, b: u64) -> u64 {
    (((a + b) % m64()) as u64)
}

/// `(a - b) mod 2^64`.
pub open spec fn wsub(a: u64, b: u64) -> u64 {
    (((a - b) % m64()) as u64)
}

/// `(a * b) mod 2^64`.
pub open spec fn wmul(a: u64, b: u64) -> u64 {
    (((a * b) % m64()) as u64)
}

/// A signed quantity reduced into `[0, 2^64)`.
pub open spec fn signed64(b: i64) -> u64 {
    (((b as int) % m64()) as u64)
}

/// One step of the generator: `s <- A*s + c (mod 2^64)`.
pub open spec fn pcg_next(s: u64, c: u64) -> u64 {
    wadd(wmul(A, s), c)
}

/// The inverse step: `s <- A_INV * (s - c) (mod 2^64)`.
pub open spec fn pcg_prev(s: u64, c: u64) -> u64 {
    wmul(A_INV, wsub(s, c))
}

/// The generator advanced `k` times.
pub open spec fn advanced(s: u64, c: u64, k: nat) -> u64
    decreases k,
{
    if k == 0 {
        s
    } else {
        pcg_next(advanced(s, c, (k - 1) as nat), c)
    }
}

/// The generator stepped backwards `k` times.
pub open spec fn rewound(s: u64, c: u64, k: nat) -> u64
    decreases k,
{
    if k == 0 {
        s
    } else {
        rewound(pcg_prev(s, c), c, (k - 1) as nat)
    }
}

/// Wrapping addition.
pub fn add64(a: u64, b: u64) -> (r: u64)
    ensures
        r == wadd(a, b),
{
    proof {
        if a + b < m64() {
            lemma_small_mod((a + b) as nat, m64() as nat);
        } else {
            lemma_mod_add_multiples_vanish(a + b - m64(), m64());
            lemma_small_mod((a + b - m64()) as nat, m64() as nat);
        }
    }
    a.wrapping_add(b)
}

/// Wrapping subtraction.
pub fn sub64(a: u64, b: u64) -> (r: u64)
    ensures
        r == wsub(a, b),
{
    proof {
        if a >= b {
            lemma_small_mod((a - b) as nat, m64() as nat);
        } else {
            lemma_mod_add_multiples_vanish(a - b, m64());
            lemma_small_mod((a - b + m64()) as nat, m64() as nat);
        }
    }
    a.wrapping_sub(b)
}

/// Wrapping multiplication.
pub fn mul64(a: u64, b: u64) -> (r: u64)
    ensures
        r == wmul(a, b),
{
    proof {
        lemma_mul_u64_bound(a, b);
        lemma_mod_bound(a * b, m64());
    }
    (((a as u128) * (b as u128)) % 0x1_0000_0000_0000_0000u128) as u64
}

/// The product of two 64-bit values fits in 128 bits.
proof fn lemma_mul_u64_bound(a: u64, b: u64)
    ensures
        0 <= a * b <= 0xffff_ffff_ffff_ffff * 0xffff_ffff_ffff_ffff,
{
    vstd::arithmetic::mul::lemma_mul_nonnegative(a as int, b as int);
    vstd::arithmetic::mul::lemma_mul_upper_bound(
        a as int,
        0xffff_ffff_ffff_ffff,
        b as int,
        0xffff_ffff_ffff_ffff,
    );
}

/// A signed value of magnitude below 2^63, reduced into `[0, 2^64)`.
pub fn to_w64(b: i64) -> (r: u64)
    requires
        b > i64::MIN,
    ensures
        r == signed64(b),
{
    if b >= 0 {
        proof {
            lemma_small_mod(b as nat, m64() as nat);
        }
        b as u64
    } else {
        proof {
            lemma_mod_add_multiples_vanish(b as int, m64());
            lemma_small_mod((b + m64()) as nat, m64() as nat);
        }
        0u64.wrapping_sub((-b) as u64)
    }
}

/// Law: `A * A_INV = 1 (mod 2^64)`; rewinding undoes one generator step.
pub proof fn lemma_a_inverse()
    ensures
        wmul(A, A_INV) == 1,
        wmul(A_INV, A) == 1,
{
    assert((6364136223846793005u64 * 13877824140714322085u64) % 0x1_0000_0000_0000_0000
        == 1) by (bit_vector);
}

/// Multiplying by `A_INV` undoes multiplying by `A`, modulo 2^64.
pub proof fn lemma_unmul(z: u64)
    ensures
        wmul(A_INV, wmul(A, z)) == z,
{
    let m = m64();
    lemma_mod_bound(A * z, m);
    // (A_INV * ((A * z) % m)) % m == (A_INV * (A * z)) % m
    lemma_mul_mod_noop_general(A_INV as int, A * z, m);
    assert(A_INV * (A * z) == (A_INV * A) * z) by {
        vstd::arithmetic::mul::lemma_mul_is_associative(A_INV as int, A as int, z as int);
    }
    // ((A_INV * A) * z) % m == (((A_INV * A) % m) * z) % m == z % m
    lemma_mul_mod_noop_general(A_INV * A, z as int, m);
    assert((A_INV * A) % m == 1) by {
        lemma_a_inverse();
        lemma_small_mod(1nat, m as nat);
        lemma_mod_twice(A_INV * A, m);
    }
    lemma_small_mod(z as nat, m as nat);
}

/// Multiplying by `A` undoes multiplying by `A_INV`, modulo 2^64.
pub proof fn lemma_unmul_rev(z: u64)
    ensures
        wmul(A, wmul(A_INV, z)) == z,
{
    let m = m64();
    lemma_mod_bound(A_INV * z, m);
    lemma_mul_mod_noop_general(A as int, A_INV * z, m);
    assert(A * (A_INV * z) == (A * A_INV) * z) by {
        vstd::arithmetic::mul::lemma_mul_is_associative(A as int, A_INV as int, z as int);
    }
    lemma_mul_mod_noop_general(A * A_INV, z as int, m);
    assert((A * A_INV) % m == 1) by {
        lemma_a_inverse();
        lemma_small_mod(1nat, m as nat);
        lemma_mod_twice(A * A_INV, m);
    }
    lemma_small_mod(z as nat, m as nat);
}

/// One backward step undoes one forward step.
pub proof fn lemma_prev_next(s: u64, c: u64)
    ensures
        pcg_prev(pcg_next(s, c), c) == s,
{
    let m = m64();
    let p = wmul(A, s);
    // wsub(wadd(p, c), c) == p
    assert(wsub(wadd(p, c), c) == p) by {
        lemma_mod_bound(p + c, m);
        // ((p + c) % m - c) % m == (p + c - c) % m == p % m == p
        lemma_small_mod(c as nat, m as nat);
        assert(((p + c) % m - (c as int) % m) % m == ((p + c) - c) % m) by {
            vstd::arithmetic::div_mod::lemma_sub_mod_noop(p + c, c as int, m);
        }
        lemma_small_mod(p as nat, m as nat);
    }
    lemma_unmul(s);
}

/// Law: rewinding `k` steps undoes advancing `k` steps.
pub proof fn lemma_rewind_inverts_advance(s: u64, c: u64, k: nat)
    ensures
        rewound(advanced(s, c, k), c, k) == s,
    decreases k,
{
    if k > 0 {
        lemma_prev_next(advanced(s, c, (k - 1) as nat), c);
        lemma_rewind_inverts_advance(s, c, (k - 1) as nat);
        assert(rewound(advanced(s, c, k), c, k) == rewound(
            pcg_prev(advanced(s, c, k), c),
            c,
            (k - 1) as nat,
        ));
    }
}

/// One generator step.
pub fn step(s: u64, c: u64) -> (r: u64)
    ensures
        r == pcg_next(s, c),
{
    add64(mul64(A, s), c)
}

/// One backward generator step.
pub fn step_back(s: u64, c: u64) -> (r: u64)
    ensures
        r == pcg_prev(s, c),
{
    mul64(A_INV, sub64(s, c))
}

} // verus!
