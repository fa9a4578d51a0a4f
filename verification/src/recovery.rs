//! The recovery session: interval pruning, candidate enumeration, rewind.

use vstd::prelude::*;
use crate::arith::{pcg_next, rewound, step, step_back};
use crate::predictor::{FullState, Predictor};
use crate::xshrr::spec_xsh_rr;
use crate::BreakError;

verus! {

/// The candidate-set size at which explicit enumeration takes over.
pub const THRESHOLD: usize = 1000;

/// A candidate advanced one generator step.
pub open spec fn advance_fs(fs: FullState) -> FullState {
    FullState { state: pcg_next(fs.state, fs.inc), inc: fs.inc }
}

/// The candidates whose current state produces the observed output, in order.
pub open spec fn surviving(s: Seq<FullState>, y: u32) -> Seq<FullState>
    decreases s.len(),
{
    if s.len() == 0 {
        Seq::empty()
    } else {
        let rest = surviving(s.drop_last(), y);
        if spec_xsh_rr(s.last().state) == y {
            rest.push(s.last())
        } else {
            rest
        }
    }
}

/// Advances every candidate one generator step.
pub fn advance_candidates(v: &mut Vec<FullState>)
    ensures
        final(v)@.len() == old(v)@.len(),
        forall|i: int| 0 <= i < final(v)@.len() ==> final(v)@[i] == advance_fs(old(v)@[i]),
{
    let mut out: Vec<FullState> = Vec::new();
    let mut i: usize = 0;
    while i < v.len()
        invariant
            i <= v@.len(),
            v@ == old(v)@,
            out@.len() == i,
            forall|k: int| 0 <= k < i ==> out@[k] == advance_fs(v@[k]),
        decreases v@.len() - i,
    {
        let fs = v[i];
        out.push(FullState { state: step(fs.state, fs.inc), inc: fs.inc });
        i = i + 1;
    }
    *v = out;
}

/// Keeps the candidates whose state produces the observed output.
pub fn prune_candidates(v: &Vec<FullState>, y: u32) -> (out: Vec<FullState>)
    ensures
        out@ == surviving(v@, y),
{
    let mut out: Vec<FullState> = Vec::new();
    let mut i: usize = 0;
    while i < v.len()
        invariant
            i <= v@.len(),
            out@ == surviving(v@.subrange(0, i as int), y),
        decreases v@.len() - i,
    {
        let fs = v[i];
        proof {
            let pre = v@.subrange(0, i as int + 1);
            assert(pre.drop_last() =~= v@.subrange(0, i as int));
            assert(pre.last() == v@[i as int]);
        }
        if crate::xshrr::compute_xsh_rr(fs.state) == y {
            out.push(fs);
        }
        i = i + 1;
    }
    proof {
        assert(v@.subrange(0, v@.len() as int) =~= v@);
    }
    out
}

/// Steps a candidate backwards `steps` times.
pub fn rewind(fs: FullState, steps: u64) -> (r: u64)
    ensures
        r == rewound(fs.state, fs.inc, steps as nat),
{
    let mut s = fs.state;
    let mut i: u64 = 0;
    while i < steps
        invariant
            i <= steps,
            rewound(fs.state, fs.inc, steps as nat) == rewound(s, fs.inc, (steps - i) as nat),
        decreases steps - i,
    {
        s = step_back(s, fs.inc);
        i = i + 1;
    }
    s
}

/// What one consumed output yields.
#[derive(Debug, Clone, Copy, PartialEq, Eq, Structural)]
pub enum RecoveryStep {
    /// The candidate description narrowed; more outputs are needed.
    Narrowing,
    /// A single candidate survived; the pair is the generator as it was
    /// before its first observed output.
    Recovered(FullState),
}

/// The streaming recovery session around a bootstrapped predictor.
pub struct Recovery {
    pub predictor: Predictor,
    pub candidates: Vec<FullState>,
    pub outputs_seen: u64,
    pub recovery_mode: bool,
}

impl Recovery {
    /// A session is well-formed when its predictor is, after the four
    /// bootstrap outputs.
    pub open spec fn wf(self) -> bool {
        self.predictor.wf() && self.outputs_seen >= 4
    }

    /// Starts a session from a freshly bootstrapped predictor.
    pub fn start(predictor: Predictor, recovery_mode: bool) -> (r: Recovery)
        requires
            predictor.wf(),
        ensures
            r.wf(),
            r.predictor == predictor,
            r.candidates@.len() == 0,
            r.outputs_seen == 4,
            r.recovery_mode == recovery_mode,
    {
        Recovery { predictor, candidates: Vec::new(), outputs_seen: 4, recovery_mode }
    }

    /// The number of candidate generators still alive.
    pub fn remaining(&self) -> (n: usize)
        requires
            self.wf(),
        ensures
            self.candidates@.len() == 0 ==> n == self.predictor.triple.epsilon_max
                - self.predictor.triple.epsilon_min,
            self.candidates@.len() > 0 ==> n == self.candidates@.len(),
    {
        if self.candidates.len() == 0 {
            self.predictor.remaining_candidate_count()
        } else {
            self.candidates.len()
        }
    }

    /// Consumes one output.  While no candidate set is materialized, the
    /// predictor's interval is pruned, and in recovery mode the candidates
    /// are materialized once at most `THRESHOLD` remain.  Afterwards every
    /// candidate is advanced a step and those contradicting the output are
    /// dropped: none left fails, one left is rewound to the generator's
    /// state before its first output and reported.
    pub fn consume(&mut self, y: u32) -> (r: Result<RecoveryStep, BreakError>)
        requires
            old(self).wf(),
            old(self).outputs_seen < 0x1000_0000_0000_0000,
        ensures
            final(self).wf(),
            final(self).recovery_mode == old(self).recovery_mode,
            final(self).outputs_seen == old(self).outputs_seen + 1,
            old(self).candidates@.len() == 0 ==> match crate::predictor::first_submit_from(
                old(self).predictor.table@,
                old(self).predictor.triple,
                old(self).predictor.last_output,
                y,
                0,
            ) {
                Some(t) => {
                    &&& r == Ok::<RecoveryStep, BreakError>(RecoveryStep::Narrowing)
                    &&& final(self).predictor.triple == t
                    &&& final(self).predictor.last_output == y
                    &&& final(self).predictor.table == old(self).predictor.table
                    &&& (old(self).recovery_mode && t.epsilon_max - t.epsilon_min <= THRESHOLD
                        ==> final(self).candidates@.len() == t.epsilon_max - t.epsilon_min
                        && forall|i: int|
                        0 <= i < final(self).candidates@.len()
                            ==> final(self).candidates@[i] == crate::predictor::cand_full(
                            t.sj_star,
                            t.sk_star,
                            t.beta,
                            (t.epsilon_min + i) as i64,
                        ))
                    &&& (!(old(self).recovery_mode && t.epsilon_max - t.epsilon_min <= THRESHOLD)
                        ==> final(self).candidates@.len() == 0)
                },
                None => {
                    &&& r == Err::<RecoveryStep, BreakError>(BreakError::NotPcg)
                    &&& final(self).predictor == old(self).predictor
                    &&& final(self).candidates@ == old(self).candidates@
                },
            },
            old(self).candidates@.len() > 0 ==> {
                let surv = surviving(
                    old(self).candidates@.map_values(|fs: FullState| advance_fs(fs)),
                    y,
                );
                &&& final(self).predictor == old(self).predictor
                &&& final(self).candidates@ == surv
                &&& (surv.len() == 0 ==> r == Err::<RecoveryStep, BreakError>(
                    BreakError::NotPcg,
                ))
                &&& (surv.len() == 1 ==> r == Ok::<RecoveryStep, BreakError>(
                    RecoveryStep::Recovered(
                        (FullState {
                            state: rewound(
                                surv[0].state,
                                surv[0].inc,
                                old(self).outputs_seen as nat,
                            ),
                            inc: surv[0].inc,
                        }),
                    ),
                ))
                &&& (surv.len() > 1 ==> r == Ok::<RecoveryStep, BreakError>(
                    RecoveryStep::Narrowing,
                ))
            },
    {
        self.outputs_seen = self.outputs_seen + 1;
        if self.candidates.len() == 0 {
            match self.predictor.submit_next_output(y) {
                Ok(()) => {
                    if self.recovery_mode && self.predictor.remaining_candidate_count()
                        <= THRESHOLD {
                        self.candidates = self.predictor.remaining_candidates();
                    }
                    Ok(RecoveryStep::Narrowing)
                },
                Err(e) => Err(e),
            }
        } else {
            advance_candidates(&mut self.candidates);
            proof {
                assert(self.candidates@ =~= old(self).candidates@.map_values(
                    |fs: FullState| advance_fs(fs),
                ));
            }
            let pruned = prune_candidates(&self.candidates, y);
            self.candidates = pruned;
            if self.candidates.len() == 0 {
                Err(BreakError::NotPcg)
            } else if self.candidates.len() == 1 {
                let fs = self.candidates[0];
                let state = rewind(fs, self.outputs_seen - 1);
                Ok(RecoveryStep::Recovered(FullState { state, inc: fs.inc }))
            } else {
                Ok(RecoveryStep::Narrowing)
            }
        }
    }
}

} // verus!
