use pcg_breaker::predictor::Predictor;
use pcg_breaker::recovery::{Recovery, RecoveryStep};
use pcg_breaker::table::build_table;
use pcg_breaker::{BreakError, A};

/// An independent model of the target generator.
struct Pcg {
    state: u64,
    inc: u64,
}

impl Pcg {
    fn next(&mut self) -> u32 {
        let s = self.state;
        self.state = s.wrapping_mul(A).wrapping_add(self.inc);
        let x = (((s >> 18) ^ s) >> 27) as u32;
        x.rotate_right((s >> 59) as u32)
    }
}

fn outputs(state: u64, inc: u64, n: usize) -> Vec<u32> {
    let mut g = Pcg { state, inc };
    (0..n).map(|_| g.next()).collect()
}

/// Bootstraps, checks that every prediction pair contains the true next
/// output and that the candidate interval never widens.
fn check_prediction_stream(state: u64, inc: u64) {
    let t = build_table();
    let outs = outputs(state, inc, 32);
    let mut p = Predictor::new(t, [outs[0], outs[1], outs[2], outs[3]])
        .expect("a true PCG stream must bootstrap");
    let mut width = p.remaining_candidate_count();
    for &y in &outs[4..] {
        let pair = p.predict_future_output();
        assert!(pair[0] == y || pair[1] == y, "prediction must cover the true output");
        p.submit_next_output(y).expect("the true next output must be accepted");
        let w = p.remaining_candidate_count();
        assert!(w <= width, "the candidate interval must never widen");
        width = w;
    }
}

#[test]
fn predicts_stream_of_zero_seed() {
    check_prediction_stream(0, 1);
}

#[test]
fn predicts_stream_of_reference_seed() {
    check_prediction_stream(0x853C49E6748FEA9B, 0xDA3E39CB94B95BDB);
}

#[test]
fn predicts_stream_of_boundary_seed() {
    check_prediction_stream(0xFFFFFFFFFFFFFFFF, 3);
}

/// Runs full recovery and checks the recovered pair equals the seed.
fn check_recovery(state: u64, inc: u64, max_outputs: usize) {
    let t = build_table();
    let outs = outputs(state, inc, max_outputs);
    let p = Predictor::new(t, [outs[0], outs[1], outs[2], outs[3]])
        .expect("a true PCG stream must bootstrap");
    let mut session = Recovery::start(p, true);
    for &y in &outs[4..] {
        match session.consume(y).expect("the true stream must never be rejected") {
            RecoveryStep::Narrowing => {}
            RecoveryStep::Recovered(fs) => {
                assert_eq!(fs.state, state, "recovered state must equal the seed");
                assert_eq!(fs.inc, inc, "recovered increment must equal the seed");
                assert_eq!(fs.inc & 1, 1, "the increment is odd");
                return;
            }
        }
    }
    panic!("recovery did not finish within {} outputs", max_outputs);
}

// Seeds whose second and third states sit at the far ends of the low-bit
// range, so the bootstrap interval starts at width one and recovery ends
// within a handful of outputs.

#[test]
fn recovers_seed_with_reference_increment() {
    check_recovery(0x2AB6AEBDD561D75A, 0x5851F42D4C957F2D, 16);
}

#[test]
fn recovers_seed_with_large_increment() {
    check_recovery(0xB67B372CF561D75A, 0x5851FA24C4957F2D, 16);
}

#[test]
fn recovers_seed_with_small_high_bits() {
    check_recovery(0x20A21F60DD61D75A, 0x5851F42D54957F2D, 16);
}

#[test]
fn rejects_non_pcg_stream() {
    let t = build_table();
    // A counter is not a PCG output stream.
    match Predictor::new(t, [0, 1, 2, 3]) {
        Err(BreakError::NotPcg) => {}
        _ => panic!("a counter must be rejected as not PCG"),
    }
}
