//! The online predictor: bootstrap from four outputs, then prune.

use vstd::prelude::*;
use vstd::arithmetic::div_mod::lemma_small_mod;
use crate::arith::{add64, m64, mul64, pcg_next, signed64, step, sub64, to_w64, wadd, wmul, wsub};
use crate::table::{spec_query, LookupTable};
use crate::xshrr::{compute_xsh_rr, invert_xsh_rr, spec_xsh_rr, star};
use crate::{A, BreakError};

verus! {

/// A fully determined candidate generator.
#[derive(Debug, Clone, Copy, PartialEq, Eq, Structural)]
pub struct FullState {
    pub state: u64,
    pub inc: u64,
}

/// The surviving candidate description: the high 37 bits of two consecutive
/// states, the residue relating their low bits, and the interval of low-bit
/// values still possible for the newer state.
#[derive(Debug, Clone, Copy, PartialEq, Eq, Structural)]
pub struct Triple {
    pub sj_star: u64,
    pub sk_star: u64,
    pub beta: i64,
    pub epsilon_min: i64,
    pub epsilon_max: i64,
}

/// Bounds every triple obeys: 37-bit stars, a residue of magnitude at most
/// 2^27, and a non-empty interval inside `[0, 2^27]`.
pub open spec fn triple_wf(t: Triple) -> bool {
    &&& t.sj_star < 0x20_0000_0000
    &&& t.sk_star < 0x20_0000_0000
    &&& -0x800_0000 <= t.beta <= 0x800_0000
    &&& 0 <= t.epsilon_min < t.epsilon_max <= 0x800_0000
}

/// The older state's low bits for a candidate: `eps - beta (mod 2^64)`.
pub open spec fn cand_eps1(beta: i64, eps: i64) -> u64 {
    wsub(signed64(eps), signed64(beta))
}

/// The older candidate state.
pub open spec fn cand_sj(sjs: u64, beta: i64, eps: i64) -> u64 {
    wadd(sjs << 27, cand_eps1(beta, eps))
}

/// The newer candidate state.
pub open spec fn cand_sk(sks: u64, eps: i64) -> u64 {
    wadd(sks << 27, signed64(eps))
}

/// The candidate increment: what steps the older state to the newer, forced
/// odd.
pub open spec fn cand_inc(sjs: u64, sks: u64, beta: i64, eps: i64) -> u64 {
    wsub(cand_sk(sks, eps), wmul(A, cand_sj(sjs, beta, eps))) | 1
}

/// The candidate state one step past the newer state.
pub open spec fn cand_state(sjs: u64, sks: u64, beta: i64, eps: i64) -> u64 {
    pcg_next(cand_sk(sks, eps), cand_inc(sjs, sks, beta, eps))
}

/// The candidate generator positioned at the state that produced the most
/// recent output.
pub open spec fn cand_full(sjs: u64, sks: u64, beta: i64, eps: i64) -> FullState {
    FullState { state: cand_state(sjs, sks, beta, eps), inc: cand_inc(sjs, sks, beta, eps) }
}

/// The output this candidate produces two steps past the newer state.
pub open spec fn future_output(sjs: u64, sks: u64, beta: i64, eps: i64) -> u32 {
    spec_xsh_rr(pcg_next(cand_state(sjs, sks, beta, eps), cand_inc(sjs, sks, beta, eps)))
}

/// Whether the candidate at `eps` predicts the observed output.
pub open spec fn endpoint_hit(t: Triple, eps: i64, y: u32) -> bool {
    spec_xsh_rr(cand_state(t.sj_star, t.sk_star, t.beta, eps)) == y
}

/// The endpoint check: one of the interval's two end candidates predicts the
/// observed output.
pub open spec fn test_state_spec(t: Triple, y: u32) -> bool {
    endpoint_hit(t, t.epsilon_min, y) || endpoint_hit(t, (t.epsilon_max - 1) as i64, y)
}

/// The 37-bit key formed from three consecutive recovered high-bit values.
pub open spec fn spec_key(si: u64, sj: u64, sk: u64) -> u64 {
    wadd(wmul(A, wsub(sj, si)), wsub(sj, sk)) & 0x1f_ffff_ffff
}

/// A triple accepted when its interval is non-empty and an end candidate
/// predicts the next output.
pub open spec fn accept_triple(
    sj: u64,
    sk: u64,
    beta: i64,
    emin: i64,
    emax: i64,
    y: u32,
) -> Option<Triple> {
    let t = Triple { sj_star: sj, sk_star: sk, beta, epsilon_min: emin, epsilon_max: emax };
    if emin < emax && test_state_spec(t, y) {
        Some(t)
    } else {
        None
    }
}

/// What bootstrap rotation-triple number `k` yields, if anything: the three
/// rotations are the base-32 digits of `k`.
pub open spec fn boot_triple(tbl: Seq<u64>, ys: Seq<u32>, k: int) -> Option<Triple> {
    let s0 = star((k / 1024) as u32, ys[0]);
    let s1 = star(((k / 32) % 32) as u32, ys[1]);
    let s2 = star((k % 32) as u32, ys[2]);
    match spec_query(tbl, spec_key(s0, s1, s2)) {
        Some(b) => {
            let emin = if b > 0 {
                b
            } else {
                0
            };
            let emax = if b + 0x800_0000 < 0x800_0000 {
                (b + 0x800_0000) as i64
            } else {
                0x800_0000
            };
            accept_triple(s1, s2, b, emin, emax, ys[3])
        },
        None => None,
    }
}

/// The first bootstrap rotation triple at or past `k` that is accepted.
pub open spec fn first_boot_from(tbl: Seq<u64>, ys: Seq<u32>, k: int) -> Option<Triple>
    decreases 32768 - k,
{
    if k < 0 || k >= 32768 {
        None
    } else {
        match boot_triple(tbl, ys, k) {
            Some(t) => Some(t),
            None => first_boot_from(tbl, ys, k + 1),
        }
    }
}

/// What pruning step `rot` yields on a new output, if anything.
pub open spec fn submit_step(tbl: Seq<u64>, t: Triple, last: u32, y: u32, rot: int) -> Option<
    Triple,
> {
    let si = t.sj_star;
    let sj = t.sk_star;
    let sk = star(rot as u32, last);
    match spec_query(tbl, spec_key(si, sj, sk)) {
        Some(b) => {
            let emin = if t.epsilon_min + b > 0 {
                (t.epsilon_min + b) as i64
            } else {
                0
            };
            let emax = if t.epsilon_max + b < 0x800_0000 {
                (t.epsilon_max + b) as i64
            } else {
                0x800_0000
            };
            accept_triple(sj, sk, b, emin, emax, y)
        },
        None => None,
    }
}

/// The first rotation at or past `rot` whose pruning step is accepted.
pub open spec fn first_submit_from(tbl: Seq<u64>, t: Triple, last: u32, y: u32, rot: int) -> Option<
    Triple,
>
    decreases 32 - rot,
{
    if rot < 0 || rot >= 32 {
        None
    } else {
        match submit_step(tbl, t, last, y, rot) {
            Some(t2) => Some(t2),
            None => first_submit_from(tbl, t, last, y, rot + 1),
        }
    }
}

/// The streaming predictor.
pub struct Predictor {
    pub table: LookupTable,
    pub last_output: u32,
    pub triple: Triple,
}

impl Predictor {
    /// A well-formed predictor: a valid table and a bounded triple.
    pub open spec fn wf(self) -> bool {
        self.table.wf() && triple_wf(self.triple)
    }

    /// Initializes the output predictor with four initial outputs.
    ///
    /// Succeeds exactly when some rotation triple, taken in order, yields a
    /// key found by the symmetric query whose candidate interval is non-empty
    /// and whose end candidates predict the fourth output; the resulting
    /// predictor holds the first such triple.
    pub fn new(table: LookupTable, outputs: [u32; 4]) -> (r: Result<Predictor, BreakError>)
        requires
            table.wf(),
        ensures
            match r {
                Ok(p) => {
                    &&& p.wf()
                    &&& p.table == table
                    &&& p.last_output == outputs@[3]
                    &&& Some(p.triple) == first_boot_from(table@, outputs@, 0)
                },
                Err(e) => {
                    &&& e == BreakError::NotPcg
                    &&& first_boot_from(table@, outputs@, 0) is None
                },
            },
    {
        let mut k: u32 = 0;
        while k < 32768
            invariant
                table.wf(),
                k <= 32768,
                forall|k2: int| 0 <= k2 < k ==> boot_triple(table@, outputs@, k2) is None,
            decreases 32768 - k,
        {
            let r0 = k / 1024;
            let r1 = (k / 32) % 32;
            let r2 = k % 32;
            let s0 = invert_xsh_rr(r0, outputs[0]) >> 27;
            let s1 = invert_xsh_rr(r1, outputs[1]) >> 27;
            let s2 = invert_xsh_rr(r2, outputs[2]) >> 27;
            proof {
                crate::xshrr::lemma_star_bound(r0, outputs@[0]);
                crate::xshrr::lemma_star_bound(r1, outputs@[1]);
                crate::xshrr::lemma_star_bound(r2, outputs@[2]);
            }
            let key = add64(mul64(A, sub64(s1, s0)), sub64(s1, s2)) & 0x1f_ffff_ffff;
            proof {
                lemma_key_bound(wadd(wmul(A, wsub(s1, s0)), wsub(s1, s2)));
            }
            match self_query(&table, key) {
                Some(b) => {
                    let emin: i64 = if b > 0 {
                        b
                    } else {
                        0
                    };
                    let emax: i64 = if b + 0x800_0000 < 0x800_0000 {
                        b + 0x800_0000
                    } else {
                        0x800_0000
                    };
                    if emin < emax && Predictor::test_state(s1, s2, emin, emax, b, outputs[3]) {
                        let t = Triple {
                            sj_star: s1,
                            sk_star: s2,
                            beta: b,
                            epsilon_min: emin,
                            epsilon_max: emax,
                        };
                        proof {
                            assert(boot_triple(table@, outputs@, k as int) == Some(t));
                            lemma_first_boot_found(table@, outputs@, 0, k as int, t);
                        }
                        return Ok(Predictor { table, last_output: outputs[3], triple: t });
                    }
                },
                None => {},
            }
            proof {
                assert(boot_triple(table@, outputs@, k as int) is None);
            }
            k = k + 1;
        }
        proof {
            lemma_first_boot_none(table@, outputs@, 0);
        }
        Err(BreakError::NotPcg)
    }

    /// Submits the next output produced by the target PCG generator.
    ///
    /// Succeeds exactly when some rotation, taken in order, recovers high
    /// bits for the previous output whose key is found by the symmetric
    /// query, with a shifted, clamped, still non-empty interval whose end
    /// candidates predict the new output.  The interval never widens.
    pub fn submit_next_output(&mut self, output: u32) -> (r: Result<(), BreakError>)
        requires
            old(self).wf(),
        ensures
            match r {
                Ok(()) => {
                    &&& final(self).wf()
                    &&& final(self).table == old(self).table
                    &&& final(self).last_output == output
                    &&& Some(final(self).triple) == first_submit_from(
                        old(self).table@,
                        old(self).triple,
                        old(self).last_output,
                        output,
                        0,
                    )
                    &&& final(self).triple.epsilon_max - final(self).triple.epsilon_min <= old(
                        self,
                    ).triple.epsilon_max - old(self).triple.epsilon_min
                },
                Err(e) => {
                    &&& e == BreakError::NotPcg
                    &&& *final(self) == *old(self)
                    &&& first_submit_from(
                        old(self).table@,
                        old(self).triple,
                        old(self).last_output,
                        output,
                        0,
                    ) is None
                },
            },
    {
        let mut rot: u32 = 0;
        while rot < 32
            invariant
                *self == *old(self),
                old(self).wf(),
                rot <= 32,
                forall|r2: int|
                    0 <= r2 < rot ==> submit_step(
                        old(self).table@,
                        old(self).triple,
                        old(self).last_output,
                        output,
                        r2,
                    ) is None,
            decreases 32 - rot,
        {
            let si = self.triple.sj_star;
            let sj = self.triple.sk_star;
            let sk = invert_xsh_rr(rot, self.last_output) >> 27;
            proof {
                crate::xshrr::lemma_star_bound(rot, old(self).last_output);
            }
            let key = add64(mul64(A, sub64(sj, si)), sub64(sj, sk)) & 0x1f_ffff_ffff;
            proof {
                lemma_key_bound(wadd(wmul(A, wsub(sj, si)), wsub(sj, sk)));
            }
            match self_query(&self.table, key) {
                Some(b) => {
                    let emin: i64 = if self.triple.epsilon_min + b > 0 {
                        self.triple.epsilon_min + b
                    } else {
                        0
                    };
                    let emax: i64 = if self.triple.epsilon_max + b < 0x800_0000 {
                        self.triple.epsilon_max + b
                    } else {
                        0x800_0000
                    };
                    if emin < emax && Predictor::test_state(sj, sk, emin, emax, b, output) {
                        let t = Triple {
                            sj_star: sj,
                            sk_star: sk,
                            beta: b,
                            epsilon_min: emin,
                            epsilon_max: emax,
                        };
                        proof {
                            assert(submit_step(
                                old(self).table@,
                                old(self).triple,
                                old(self).last_output,
                                output,
                                rot as int,
                            ) == Some(t));
                            lemma_first_submit_found(
                                old(self).table@,
                                old(self).triple,
                                old(self).last_output,
                                output,
                                0,
                                rot as int,
                                t,
                            );
                        }
                        self.triple = t;
                        self.last_output = output;
                        return Ok(());
                    }
                },
                None => {},
            }
            proof {
                assert(submit_step(
                    old(self).table@,
                    old(self).triple,
                    old(self).last_output,
                    output,
                    rot as int,
                ) is None);
            }
            rot = rot + 1;
        }
        proof {
            lemma_first_submit_none(
                old(self).table@,
                old(self).triple,
                old(self).last_output,
                output,
                0,
            );
        }
        Err(BreakError::NotPcg)
    }

    /// Returns either one or two future PCG outputs: what the candidates at
    /// the two ends of the interval will produce next.
    pub fn predict_future_output(&self) -> (r: [u32; 2])
        requires
            self.wf(),
        ensures
            r@[0] == future_output(
                self.triple.sj_star,
                self.triple.sk_star,
                self.triple.beta,
                self.triple.epsilon_min,
            ),
            r@[1] == future_output(
                self.triple.sj_star,
                self.triple.sk_star,
                self.triple.beta,
                (self.triple.epsilon_max - 1) as i64,
            ),
    {
        let t = &self.triple;
        let c1 = candidate_of(t.sj_star, t.sk_star, t.beta, t.epsilon_min);
        let o1 = compute_xsh_rr(step(c1.state, c1.inc));
        let c2 = candidate_of(t.sj_star, t.sk_star, t.beta, t.epsilon_max - 1);
        let o2 = compute_xsh_rr(step(c2.state, c2.inc));
        [o1, o2]
    }

    /// Returns the number of candidate states left.
    pub fn remaining_candidate_count(&self) -> (n: usize)
        requires
            self.wf(),
        ensures
            n == self.triple.epsilon_max - self.triple.epsilon_min,
    {
        (self.triple.epsilon_max - self.triple.epsilon_min) as usize
    }

    /// Returns the set of all remaining candidate states, in interval order.
    pub fn remaining_candidates(&self) -> (v: Vec<FullState>)
        requires
            self.wf(),
        ensures
            v@.len() == self.triple.epsilon_max - self.triple.epsilon_min,
            forall|i: int|
                0 <= i < v@.len() ==> v@[i] == cand_full(
                    self.triple.sj_star,
                    self.triple.sk_star,
                    self.triple.beta,
                    (self.triple.epsilon_min + i) as i64,
                ),
    {
        let t = &self.triple;
        let mut v: Vec<FullState> = Vec::new();
        let mut eps: i64 = t.epsilon_min;
        while eps < t.epsilon_max
            invariant
                self.wf(),
                t == &self.triple,
                t.epsilon_min <= eps <= t.epsilon_max,
                v@.len() == eps - t.epsilon_min,
                forall|i: int|
                    0 <= i < v@.len() ==> v@[i] == cand_full(
                        t.sj_star,
                        t.sk_star,
                        t.beta,
                        (t.epsilon_min + i) as i64,
                    ),
            decreases t.epsilon_max - eps,
        {
            v.push(candidate_of(t.sj_star, t.sk_star, t.beta, eps));
            eps = eps + 1;
        }
        v
    }

    /// The endpoint check: reconstruct the candidates at both ends of the
    /// interval, advance each one step, and accept if either predicts the
    /// output.
    pub fn test_state(
        sj_star: u64,
        sk_star: u64,
        min: i64,
        max: i64,
        beta: i64,
        output: u32,
    ) -> (r: bool)
        requires
            sj_star < 0x20_0000_0000,
            sk_star < 0x20_0000_0000,
            -0x800_0000 <= beta <= 0x800_0000,
            0 <= min < max <= 0x800_0000,
        ensures
            r == test_state_spec(
                (Triple {
                    sj_star,
                    sk_star,
                    beta,
                    epsilon_min: min,
                    epsilon_max: max,
                }),
                output,
            ),
    {
        let c1 = candidate_of(sj_star, sk_star, beta, min);
        if output == compute_xsh_rr(c1.state) {
            return true;
        }
        let c2 = candidate_of(sj_star, sk_star, beta, max - 1);
        if output == compute_xsh_rr(c2.state) {
            return true;
        }
        false
    }
}

/// Reconstructs the candidate generator for low-bit value `eps`.
pub fn candidate_of(sjs: u64, sks: u64, beta: i64, eps: i64) -> (fs: FullState)
    requires
        sjs < 0x20_0000_0000,
        sks < 0x20_0000_0000,
        -0x800_0000 <= beta <= 0x800_0000,
        0 <= eps <= 0x800_0000,
    ensures
        fs == cand_full(sjs, sks, beta, eps),
{
    proof {
        lemma_small_mod(eps as nat, m64() as nat);
    }
    let eps_u = eps as u64;
    let beta_u = to_w64(beta);
    let eps1 = sub64(eps_u, beta_u);
    let sj = add64(sjs << 27, eps1);
    let sk = add64(sks << 27, eps_u);
    let inc = sub64(sk, mul64(A, sj)) | 1;
    let state = add64(mul64(A, sk), inc);
    FullState { state, inc }
}

/// A forwarding call so loops can query while borrowing fields.
fn self_query(table: &LookupTable, n: u64) -> (r: Option<i64>)
    requires
        table.wf(),
        n < 0x20_0000_0000,
    ensures
        r == spec_query(table@, n),
        match r {
            Some(b) => -0x800_0000 <= b <= 0x800_0000,
            None => true,
        },
{
    table.query(n)
}

/// A masked 64-bit value fits in 37 bits.
proof fn lemma_key_bound(x: u64)
    ensures
        x & 0x1f_ffff_ffff < 0x20_0000_0000,
{
    assert(x & 0x1f_ffff_ffff < 0x20_0000_0000) by (bit_vector);
}

/// If step `k` is accepted and none before it is, the first accepted step
/// from `from` is step `k`.
proof fn lemma_first_boot_found(tbl: Seq<u64>, ys: Seq<u32>, from: int, k: int, t: Triple)
    requires
        0 <= from <= k < 32768,
        boot_triple(tbl, ys, k) == Some(t),
        forall|k2: int| from <= k2 < k ==> boot_triple(tbl, ys, k2) is None,
    ensures
        first_boot_from(tbl, ys, from) == Some(t),
    decreases k - from,
{
    if from < k {
        lemma_first_boot_found(tbl, ys, from + 1, k, t);
    }
}

/// If no step from `from` on is accepted, nothing is found.
proof fn lemma_first_boot_none(tbl: Seq<u64>, ys: Seq<u32>, from: int)
    requires
        0 <= from,
        forall|k2: int| from <= k2 < 32768 ==> boot_triple(tbl, ys, k2) is None,
    ensures
        first_boot_from(tbl, ys, from) is None,
    decreases 32768 - from,
{
    if from < 32768 {
        lemma_first_boot_none(tbl, ys, from + 1);
    }
}

/// If rotation `k` is accepted and none before it is, the first accepted
/// rotation from `from` is rotation `k`.
proof fn lemma_first_submit_found(
    tbl: Seq<u64>,
    t: Triple,
    last: u32,
    y: u32,
    from: int,
    k: int,
    t2: Triple,
)
    requires
        0 <= from <= k < 32,
        submit_step(tbl, t, last, y, k) == Some(t2),
        forall|r2: int| from <= r2 < k ==> submit_step(tbl, t, last, y, r2) is None,
    ensures
        first_submit_from(tbl, t, last, y, from) == Some(t2),
    decreases k - from,
{
    if from < k {
        lemma_first_submit_found(tbl, t, last, y, from + 1, k, t2);
    }
}

/// If no rotation from `from` on is accepted, nothing is found.
proof fn lemma_first_submit_none(tbl: Seq<u64>, t: Triple, last: u32, y: u32, from: int)
    requires
        0 <= from,
        forall|r2: int| from <= r2 < 32 ==> submit_step(tbl, t, last, y, r2) is None,
    ensures
        first_submit_from(tbl, t, last, y, from) is None,
    decreases 32 - from,
{
    if from < 32 {
        lemma_first_submit_none(tbl, t, last, y, from + 1);
    }
}

/// The two-steps-ahead state of a candidate, over plain wrapped values.
spec fn raw_next2(sj0: u64, sk0: u64, bu: u64, u: u64) -> u64 {
    let sk = wadd(sk0, u);
    let sj = wadd(sj0, wsub(u, bu));
    let inc = wsub(sk, wmul(A, sj)) | 1;
    wadd(wmul(A, wadd(wmul(A, sk), inc)), inc)
}

/// Truncating addition, the form the bit-level prover handles natively.
spec fn tadd(a: u64, b: u64) -> u64 {
    ((a + b) as u64)
}

/// Truncating subtraction.
spec fn tsub(a: u64, b: u64) -> u64 {
    ((a - b) as u64)
}

/// Truncating multiplication.
spec fn tmul(a: u64, b: u64) -> u64 {
    ((a * b) as u64)
}

/// The two-steps-ahead state, in truncating form.
spec fn raw_next2_t(sj0: u64, sk0: u64, bu: u64, u: u64) -> u64 {
    let sk = tadd(sk0, u);
    let sj = tadd(sj0, tsub(u, bu));
    let inc = tsub(sk, tmul(A, sj)) | 1;
    tadd(tmul(A, tadd(tmul(A, sk), inc)), inc)
}

/// Truncation and reduction modulo 2^64 agree.
proof fn lemma_trunc_ops(a: u64, b: u64)
    ensures
        tadd(a, b) == wadd(a, b),
        tsub(a, b) == wsub(a, b),
        tmul(a, b) == wmul(a, b),
{
    assert((a + b) as u64 == ((a + b) % 0x1_0000_0000_0000_0000) as u64) by (bit_vector);
    assert((a - b) as u64 == ((a - b) % 0x1_0000_0000_0000_0000) as u64) by (bit_vector);
    assert((a * b) as u64 == ((a * b) % 0x1_0000_0000_0000_0000) as u64) by (bit_vector);
}

/// The two formulations of the two-steps-ahead state agree.
proof fn lemma_raw_next2_forms(sj0: u64, sk0: u64, bu: u64, u: u64)
    ensures
        raw_next2(sj0, sk0, bu, u) == raw_next2_t(sj0, sk0, bu, u),
{
    let sk = wadd(sk0, u);
    let sj = wadd(sj0, wsub(u, bu));
    let inc = wsub(sk, wmul(A, sj)) | 1;
    lemma_trunc_ops(sk0, u);
    lemma_trunc_ops(u, bu);
    lemma_trunc_ops(sj0, wsub(u, bu));
    lemma_trunc_ops(A, sj);
    lemma_trunc_ops(sk, wmul(A, sj));
    lemma_trunc_ops(A, sk);
    lemma_trunc_ops(wmul(A, sk), inc);
    lemma_trunc_ops(A, wadd(wmul(A, sk), inc));
    lemma_trunc_ops(wmul(A, wadd(wmul(A, sk), inc)), inc);
}

/// The one-step-ahead state of a candidate, over plain wrapped values.
spec fn raw_state(sj0: u64, sk0: u64, bu: u64, u: u64) -> u64 {
    let sk = wadd(sk0, u);
    let sj = wadd(sj0, wsub(u, bu));
    let inc = wsub(sk, wmul(A, sj)) | 1;
    wadd(wmul(A, sk), inc)
}

/// The one-step-ahead state, in truncating form.
spec fn raw_state_t(sj0: u64, sk0: u64, bu: u64, u: u64) -> u64 {
    let sk = tadd(sk0, u);
    let sj = tadd(sj0, tsub(u, bu));
    let inc = tsub(sk, tmul(A, sj)) | 1;
    tadd(tmul(A, sk), inc)
}

/// The two formulations of the one-step-ahead state agree.
proof fn lemma_raw_state_forms(sj0: u64, sk0: u64, bu: u64, u: u64)
    ensures
        raw_state(sj0, sk0, bu, u) == raw_state_t(sj0, sk0, bu, u),
{
    let sk = wadd(sk0, u);
    let sj = wadd(sj0, wsub(u, bu));
    let inc = wsub(sk, wmul(A, sj)) | 1;
    lemma_trunc_ops(sk0, u);
    lemma_trunc_ops(u, bu);
    lemma_trunc_ops(sj0, wsub(u, bu));
    lemma_trunc_ops(A, sj);
    lemma_trunc_ops(sk, wmul(A, sj));
    lemma_trunc_ops(A, sk);
    lemma_trunc_ops(wmul(A, sk), inc);
}

/// The raw increment before it is forced odd.
spec fn raw_g(sj0: u64, sk0: u64, bu: u64, u: u64) -> u64 {
    tsub(tadd(sk0, u), tmul(A, tadd(sj0, tsub(u, bu))))
}

/// The raw increment is affine in the position, with the even slope `1 - A`.
#[verifier::rlimit(100)]
proof fn lemma_g_affine(sj0: u64, sk0: u64, bu: u64, u1: u64, u2: u64)
    ensures
        raw_g(sj0, sk0, bu, u2) == tadd(
            raw_g(sj0, sk0, bu, u1),
            tmul(tsub(1u64, A), tsub(u2, u1)),
        ),
{
    assert(raw_g(sj0, sk0, bu, u2) == tadd(
        raw_g(sj0, sk0, bu, u1),
        tmul(tsub(1u64, A), tsub(u2, u1)),
    )) by (bit_vector);
}

/// Adding an even amount commutes with forcing the low bit.
#[verifier::rlimit(100)]
proof fn lemma_or_one_shift(g1: u64, g2: u64, d: u64)
    requires
        g2 == tadd(g1, tmul(tsub(1u64, A), d)),
    ensures
        (g2 | 1) == tadd(g1 | 1, tmul(tsub(1u64, A), d)),
{
    let e = tmul(tsub(1u64, A), d);
    assert(e % 2 == 0) by (bit_vector)
        requires
            e == tmul(tsub(1u64, A), d),
    ;
    assert(g2 == tadd(g1, e) && e % 2 == 0 ==> (g2 | 1) == tadd(g1 | 1, e)) by (bit_vector);
}

/// If a position moves by `d` while the increment moves by `(1 - A) * d`,
/// one generator step moves by exactly `d`.
#[verifier::rlimit(100)]
proof fn lemma_affine_step(x1: u64, d: u64, i1: u64)
    ensures
        tadd(tmul(A, tadd(x1, d)), tadd(i1, tmul(tsub(1u64, A), d))) == tadd(
            tadd(tmul(A, x1), i1),
            d,
        ),
{
    assert(tadd(tmul(A, tadd(x1, d)), tadd(i1, tmul(tsub(1u64, A), d))) == tadd(
        tadd(tmul(A, x1), i1),
        d,
    )) by (bit_vector);
}

/// The two-steps-ahead state is the candidate's position plus a constant:
/// the multiplications by `A` cancel, and forcing the increment odd adds
/// the same bit for every position.
#[verifier::rlimit(100)]
proof fn lemma_next_linear_raw(sj0: u64, sk0: u64, bu: u64, u1: u64, u2: u64)
    ensures
        wsub(raw_next2(sj0, sk0, bu, u2), u2) == wsub(raw_next2(sj0, sk0, bu, u1), u1),
{
    lemma_raw_next2_forms(sj0, sk0, bu, u1);
    lemma_raw_next2_forms(sj0, sk0, bu, u2);
    let d = tsub(u2, u1);
    let sk1 = tadd(sk0, u1);
    let sk2 = tadd(sk0, u2);
    let inc1 = raw_g(sj0, sk0, bu, u1) | 1;
    let inc2 = raw_g(sj0, sk0, bu, u2) | 1;
    let e = tmul(tsub(1u64, A), d);
    lemma_g_affine(sj0, sk0, bu, u1, u2);
    lemma_or_one_shift(raw_g(sj0, sk0, bu, u1), raw_g(sj0, sk0, bu, u2), d);
    assert(inc2 == tadd(inc1, e));
    assert(sk2 == tadd(sk1, d)) by (bit_vector)
        requires
            sk1 == tadd(sk0, u1),
            sk2 == tadd(sk0, u2),
            d == tsub(u2, u1),
    ;
    let st1 = tadd(tmul(A, sk1), inc1);
    let st2 = tadd(tmul(A, sk2), inc2);
    lemma_affine_step(sk1, d, inc1);
    assert(st2 == tadd(st1, d));
    let n1 = tadd(tmul(A, st1), inc1);
    let n2 = tadd(tmul(A, st2), inc2);
    lemma_affine_step(st1, d, inc1);
    assert(n2 == tadd(n1, d));
    assert(raw_next2_t(sj0, sk0, bu, u1) == n1);
    assert(raw_next2_t(sj0, sk0, bu, u2) == n2);
    assert(n2 == tadd(n1, d) && d == tsub(u2, u1) ==> wsub(n2, u2) == wsub(n1, u1))
        by (bit_vector);
}

/// Over a window shorter than 2^27, the high 37 bits take at most the two
/// end values.
proof fn lemma_window_two_values(x: u64, d: u64, dmax: u64)
    requires
        d <= dmax < 0x800_0000,
    ensures
        wadd(x, d) >> 27 == x >> 27 || wadd(x, d) >> 27 == wadd(x, dmax) >> 27,
{
    assert(wadd(x, d) >> 27 == x >> 27 || wadd(x, d) >> 27 == wadd(x, dmax) >> 27)
        by (bit_vector)
        requires
            d <= dmax < 0x800_0000,
    ;
}

/// Equal wrapped offsets pin the wrapped sum.
#[verifier::rlimit(100)]
proof fn lemma_wrapped_offset(p: u64, e: u64, x: u64, m: u64, d: u64)
    requires
        wsub(p, e) == wsub(x, m),
        e == wadd(m, d),
    ensures
        p == wadd(x, d),
{
    assert(wsub(p, e) == wsub(x, m) && e == wadd(m, d) ==> p == wadd(x, d)) by (bit_vector);
}

/// The one-step-ahead state is the candidate's position plus a constant.
#[verifier::rlimit(100)]
proof fn lemma_state_linear_raw(sj0: u64, sk0: u64, bu: u64, u1: u64, u2: u64)
    ensures
        wsub(raw_state(sj0, sk0, bu, u2), u2) == wsub(raw_state(sj0, sk0, bu, u1), u1),
{
    lemma_raw_state_forms(sj0, sk0, bu, u1);
    lemma_raw_state_forms(sj0, sk0, bu, u2);
    let d = tsub(u2, u1);
    let sk1 = tadd(sk0, u1);
    let sk2 = tadd(sk0, u2);
    let inc1 = raw_g(sj0, sk0, bu, u1) | 1;
    let inc2 = raw_g(sj0, sk0, bu, u2) | 1;
    lemma_g_affine(sj0, sk0, bu, u1, u2);
    lemma_or_one_shift(raw_g(sj0, sk0, bu, u1), raw_g(sj0, sk0, bu, u2), d);
    assert(sk2 == tadd(sk1, d)) by (bit_vector)
        requires
            sk1 == tadd(sk0, u1),
            sk2 == tadd(sk0, u2),
            d == tsub(u2, u1),
    ;
    let st1 = tadd(tmul(A, sk1), inc1);
    let st2 = tadd(tmul(A, sk2), inc2);
    lemma_affine_step(sk1, d, inc1);
    assert(st2 == tadd(st1, d));
    assert(raw_state_t(sj0, sk0, bu, u1) == st1);
    assert(raw_state_t(sj0, sk0, bu, u2) == st2);
    assert(st2 == tadd(st1, d) && d == tsub(u2, u1) ==> wsub(st2, u2) == wsub(st1, u1))
        by (bit_vector);
}

/// Law: the endpoint check never rejects a triple that still admits the
/// true candidate: the output of the candidate at any admitted position
/// equals the output of one of the two end candidates.
pub proof fn lemma_test_state_covers(t: Triple, eps: i64)
    requires
        triple_wf(t),
        t.epsilon_min <= eps < t.epsilon_max,
    ensures
        test_state_spec(t, spec_xsh_rr(cand_state(t.sj_star, t.sk_star, t.beta, eps))),
{
    let sj0 = t.sj_star << 27;
    let sk0 = t.sk_star << 27;
    let bu = signed64(t.beta);
    let eu = eps as u64;
    let mu = t.epsilon_min as u64;
    let xu = (t.epsilon_max - 1) as u64;
    let d = (eps - t.epsilon_min) as u64;
    let dmax = (t.epsilon_max - 1 - t.epsilon_min) as u64;
    lemma_small_mod(eps as nat, m64() as nat);
    lemma_small_mod(t.epsilon_min as nat, m64() as nat);
    lemma_small_mod((t.epsilon_max - 1) as nat, m64() as nat);
    lemma_small_mod((t.epsilon_min + d) as nat, m64() as nat);
    lemma_small_mod((t.epsilon_min + dmax) as nat, m64() as nat);
    let p = raw_state(sj0, sk0, bu, eu);
    let x = raw_state(sj0, sk0, bu, mu);
    let q = raw_state(sj0, sk0, bu, xu);
    assert(cand_state(t.sj_star, t.sk_star, t.beta, eps) == p);
    assert(cand_state(t.sj_star, t.sk_star, t.beta, t.epsilon_min) == x);
    assert(cand_state(t.sj_star, t.sk_star, t.beta, (t.epsilon_max - 1) as i64) == q);
    lemma_state_linear_raw(sj0, sk0, bu, mu, eu);
    lemma_state_linear_raw(sj0, sk0, bu, mu, xu);
    assert(eu == wadd(mu, d));
    assert(xu == wadd(mu, dmax));
    lemma_wrapped_offset(p, eu, x, mu, d);
    lemma_wrapped_offset(q, xu, x, mu, dmax);
    lemma_window_two_values(x, d, dmax);
    if wadd(x, d) >> 27 == x >> 27 {
        crate::xshrr::lemma_xsh_rr_of_high_bits(p, x);
    } else {
        crate::xshrr::lemma_xsh_rr_of_high_bits(p, q);
    }
}

/// Law: the prediction pair covers the whole interval: a generator that
/// agrees with the candidate at any position the triple still admits will
/// produce one of the two predicted values as its next output.
pub proof fn lemma_prediction_covers_interval(t: Triple, eps: i64, s: u64, c: u64)
    requires
        triple_wf(t),
        t.epsilon_min <= eps < t.epsilon_max,
        s == cand_state(t.sj_star, t.sk_star, t.beta, eps),
        c == cand_inc(t.sj_star, t.sk_star, t.beta, eps),
    ensures
        spec_xsh_rr(pcg_next(s, c)) == future_output(t.sj_star, t.sk_star, t.beta, eps),
        future_output(t.sj_star, t.sk_star, t.beta, eps) == future_output(
            t.sj_star,
            t.sk_star,
            t.beta,
            t.epsilon_min,
        ) || future_output(t.sj_star, t.sk_star, t.beta, eps) == future_output(
            t.sj_star,
            t.sk_star,
            t.beta,
            (t.epsilon_max - 1) as i64,
        ),
{
    let sj0 = t.sj_star << 27;
    let sk0 = t.sk_star << 27;
    let bu = signed64(t.beta);
    let eu = eps as u64;
    let mu = t.epsilon_min as u64;
    let xu = (t.epsilon_max - 1) as u64;
    let d = (eps - t.epsilon_min) as u64;
    let dmax = (t.epsilon_max - 1 - t.epsilon_min) as u64;
    lemma_small_mod(eps as nat, m64() as nat);
    lemma_small_mod(t.epsilon_min as nat, m64() as nat);
    lemma_small_mod((t.epsilon_max - 1) as nat, m64() as nat);
    lemma_small_mod((t.epsilon_min + d) as nat, m64() as nat);
    lemma_small_mod((t.epsilon_min + dmax) as nat, m64() as nat);
    let p = raw_next2(sj0, sk0, bu, eu);
    let x = raw_next2(sj0, sk0, bu, mu);
    let q = raw_next2(sj0, sk0, bu, xu);
    assert(pcg_next(
        cand_state(t.sj_star, t.sk_star, t.beta, eps),
        cand_inc(t.sj_star, t.sk_star, t.beta, eps),
    ) == p);
    assert(pcg_next(
        cand_state(t.sj_star, t.sk_star, t.beta, t.epsilon_min),
        cand_inc(t.sj_star, t.sk_star, t.beta, t.epsilon_min),
    ) == x);
    assert(pcg_next(
        cand_state(t.sj_star, t.sk_star, t.beta, (t.epsilon_max - 1) as i64),
        cand_inc(t.sj_star, t.sk_star, t.beta, (t.epsilon_max - 1) as i64),
    ) == q);
    lemma_next_linear_raw(sj0, sk0, bu, mu, eu);
    lemma_next_linear_raw(sj0, sk0, bu, mu, xu);
    assert(eu == wadd(mu, d));
    assert(xu == wadd(mu, dmax));
    lemma_wrapped_offset(p, eu, x, mu, d);
    lemma_wrapped_offset(q, xu, x, mu, dmax);
    lemma_window_two_values(x, d, dmax);
    if wadd(x, d) >> 27 == x >> 27 {
        crate::xshrr::lemma_xsh_rr_of_high_bits(p, x);
    } else {
        crate::xshrr::lemma_xsh_rr_of_high_bits(p, q);
    }
}

} // verus!
