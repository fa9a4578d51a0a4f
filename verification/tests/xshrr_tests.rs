use pcg_breaker::xshrr::{compute_xsh_rr, invert_xsh_rr};

const A: u64 = 6364136223846793005;

/// The reference output function, written independently of the library.
fn model_xsh_rr(s: u64) -> u32 {
    let x = (((s >> 18) ^ s) >> 27) as u32;
    x.rotate_right((s >> 59) as u32)
}

#[test]
fn forward_known_values() {
    assert_eq!(compute_xsh_rr(0), 0);
    assert_eq!(compute_xsh_rr(1), 0);
    assert_eq!(compute_xsh_rr(0x853C49E6748FEA9B), 0x152CA78D);
    assert_eq!(compute_xsh_rr(u64::MAX), 0xFFF00001);
}

#[test]
fn forward_matches_model() {
    let mut s: u64 = 0x9E3779B97F4A7C15;
    for _ in 0..1000 {
        assert_eq!(compute_xsh_rr(s), model_xsh_rr(s));
        s = s.wrapping_mul(A).wrapping_add(1442695040888963407);
    }
}

#[test]
fn invert_recovers_high_bits() {
    // Inverting under the state's own rotation clears exactly the low 27 bits.
    for &s in &[
        0u64,
        1,
        0x853C49E6748FEA9B,
        0xFFFFFFFFFFFFFFFF,
        0x123456789ABCDEF0,
        0x2AB6AEBDD561D75A,
    ] {
        let y = compute_xsh_rr(s);
        let r = (s >> 59) as u32;
        assert_eq!(invert_xsh_rr(r, y), s & 0xFFFF_FFFF_F800_0000);
    }
}

#[test]
fn invert_is_right_inverse_for_every_rotation() {
    // Any rotation guess reconstructs a state that reproduces the output;
    // a wrong guess is only exposed by later outputs.
    for &s in &[0x123456789ABCDEF0u64, 0xFEDCBA9876543210, 42] {
        let y = compute_xsh_rr(s);
        for r in 0..32u32 {
            assert_eq!(compute_xsh_rr(invert_xsh_rr(r, y)), y);
        }
    }
}

#[test]
fn wrong_rotation_recovers_wrong_high_bits() {
    // A wrong rotation guess yields high bits differing from the state's own.
    for &s in &[0x123456789ABCDEF0u64, 0xFEDCBA9876543210, 42] {
        let y = compute_xsh_rr(s);
        let true_rot = (s >> 59) as u32;
        for r in 0..32u32 {
            if r != true_rot {
                assert_ne!(invert_xsh_rr(r, y) >> 27, s >> 27);
            }
        }
    }
}
