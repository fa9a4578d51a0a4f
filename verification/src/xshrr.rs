//! The XSH-RR output transformation of PCG and its partial inverse.

use vstd::prelude::*;

verus! {

/// A 32-bit value rotated right by `r` positions.
pub open spec fn rotr32(x: u32, r: u32) -> u32
    recommends
        r < 32,
{
    if r == 0 {
        x
    } else {
        (x >> r) | (x << ((32 - r) as u32))
    }
}

/// A 32-bit value rotated left by `r` positions.
pub open spec fn rotl32(x: u32, r: u32) -> u32
    recommends
        r < 32,
{
    if r == 0 {
        x
    } else {
        (x << r) | (x >> ((32 - r) as u32))
    }
}

/// The XSH-RR output of a 64-bit state: the xorshifted high bits,
/// rotated right by the top five bits of the state.
pub open spec fn spec_xsh_rr(s: u64) -> u32 {
    rotr32(((((s >> 18) ^ s) >> 27) as u32), ((s >> 59) as u32))
}

/// The state reconstructed from an output under a guessed rotation:
/// the five rotation bits, then the three xorshift-decoded groups.
/// The low 27 bits stay zero.
pub open spec fn spec_invert_xsh_rr(r: u32, y: u32) -> u64 {
    let rec = rotl32(y, r) as u64;
    let s1 = (r as u64) << 59;
    let s2 = s1 | ((rec >> 19) << 46);
    let s3 = s2 | ((((rec >> 1) ^ (s2 >> 46)) & 0x3ffff) << 28);
    s3 | (((rec ^ (s3 >> 45)) & 1) << 27)
}

/// The 37 high bits of the state recovered for rotation guess `r`.
pub open spec fn star(r: u32, y: u32) -> u64 {
    spec_invert_xsh_rr(r, y) >> 27
}

/// XSH-RR output transformation from PCG.
pub fn compute_xsh_rr(state: u64) -> (out: u32)
    ensures
        out == spec_xsh_rr(state),
{
    let xorshifted: u64 = ((state >> 18) ^ state) >> 27;
    let rotation: u32 = (state >> 59) as u32;
    proof {
        assert(state >> 59 < 32) by (bit_vector);
    }
    rotate_right_32(#[verifier::truncate] (xorshifted as u32), rotation)
}

/// A right rotation, written with shifts.
pub fn rotate_right_32(x: u32, r: u32) -> (out: u32)
    requires
        r < 32,
    ensures
        out == rotr32(x, r),
{
    if r == 0 {
        x
    } else {
        (x >> r) | (x << (32 - r))
    }
}

/// A left rotation, written with shifts.
pub fn rotate_left_32(x: u32, r: u32) -> (out: u32)
    requires
        r < 32,
    ensures
        out == rotl32(x, r),
{
    if r == 0 {
        x
    } else {
        (x << r) | (x >> (32 - r))
    }
}

/// Inverts XSH-RR given one particular rotation guess.
pub fn invert_xsh_rr(rotation: u32, output: u32) -> (s: u64)
    requires
        rotation < 32,
    ensures
        s == spec_invert_xsh_rr(rotation, output),
{
    let recovered: u64 = rotate_left_32(output, rotation) as u64;
    let mut state: u64 = (rotation as u64) << 59;
    state = state | ((recovered >> 19) << 46);
    state = state | ((((recovered >> 1) ^ (state >> 46)) & 0x3ffff) << 28);
    state = state | (((recovered ^ (state >> 45)) & 1) << 27);
    state
}

/// Law: inverting the output under the state's own rotation recovers the
/// state with its low 27 bits cleared.
pub proof fn lemma_invert_recovers_state(s: u64)
    ensures
        spec_invert_xsh_rr((s >> 59) as u32, spec_xsh_rr(s)) == s & 0xffff_ffff_f800_0000,
{
    assert(spec_invert_xsh_rr((s >> 59) as u32, spec_xsh_rr(s)) == s & 0xffff_ffff_f800_0000)
        by (bit_vector);
}

/// Law: the recovered high bits under the state's own rotation are the
/// state's own high 37 bits.
pub proof fn lemma_star_recovers_high_bits(s: u64)
    ensures
        star((s >> 59) as u32, spec_xsh_rr(s)) == s >> 27,
{
    lemma_invert_recovers_state(s);
    assert((s & 0xffff_ffff_f800_0000) >> 27 == s >> 27) by (bit_vector);
}

/// Law: inverting under any rotation guess reconstructs a state that
/// reproduces the output.  A wrong guess is exposed only by the recovered
/// high bits, never by the output itself, which is why candidates are
/// cross-validated against later outputs.
pub proof fn lemma_invert_reproduces_output(r: u32, y: u32)
    requires
        r < 32,
    ensures
        spec_xsh_rr(spec_invert_xsh_rr(r, y)) == y,
{
    assert(spec_xsh_rr(spec_invert_xsh_rr(r, y)) == y) by (bit_vector)
        requires
            r < 32,
    ;
}

/// The output function reads only the high 37 bits of the state.
pub proof fn lemma_xsh_rr_of_high_bits(s1: u64, s2: u64)
    requires
        s1 >> 27 == s2 >> 27,
    ensures
        spec_xsh_rr(s1) == spec_xsh_rr(s2),
{
    assert(spec_xsh_rr(s1) == spec_xsh_rr(s2)) by (bit_vector)
        requires
            s1 >> 27 == s2 >> 27,
    ;
}

/// The recovered high bits fit in 37 bits.
pub proof fn lemma_star_bound(r: u32, y: u32)
    ensures
        star(r, y) < 0x20_0000_0000,
{
    let s = spec_invert_xsh_rr(r, y);
    assert(s >> 27 < 0x20_0000_0000) by (bit_vector);
}

} // verus!
