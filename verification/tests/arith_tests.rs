use pcg_breaker::arith::{add64, mul64, step, step_back, sub64, to_w64};
use pcg_breaker::predictor::FullState;
use pcg_breaker::recovery::rewind;
use pcg_breaker::{A, A_INV};

#[test]
fn a_inverse_constant() {
    // A * A_INV = 1 (mod 2^64).
    assert_eq!(A.wrapping_mul(A_INV), 1);
}

#[test]
fn wrapping_helpers_match_std() {
    let xs = [0u64, 1, 7, u64::MAX, 0x853C49E6748FEA9B, A];
    for &a in &xs {
        for &b in &xs {
            assert_eq!(add64(a, b), a.wrapping_add(b));
            assert_eq!(sub64(a, b), a.wrapping_sub(b));
            assert_eq!(mul64(a, b), a.wrapping_mul(b));
        }
    }
    assert_eq!(to_w64(-1), u64::MAX);
    assert_eq!(to_w64(5), 5);
    assert_eq!(to_w64(-(1 << 27)), (1u64 << 27).wrapping_neg());
}

#[test]
fn step_and_back_are_inverse() {
    let s = 0x0123456789ABCDEF;
    let c = 0xDA3E39CB94B95BDB;
    assert_eq!(step(s, c), s.wrapping_mul(A).wrapping_add(c));
    assert_eq!(step_back(step(s, c), c), s);
}

#[test]
fn rewind_inverts_many_steps() {
    let seed = 0x853C49E6748FEA9B;
    let inc = 0xDA3E39CB94B95BDB;
    let mut s = seed;
    for _ in 0..57 {
        s = step(s, inc);
    }
    assert_eq!(rewind(FullState { state: s, inc }, 57), seed);
}
