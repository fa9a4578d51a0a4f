use pcg_breaker::table::{build_table, LookupTable};
use pcg_breaker::{BreakError, A, A_INV};

const MASK27: u64 = (1 << 27) - 1;
const MASK37: u64 = (1 << 37) - 1;

#[test]
fn built_table_holds_every_residue_once() {
    let t = build_table();
    let words = t.words();
    assert_eq!(words.len(), 1 << 27);
    // Sorted strictly, checked on a stride.
    let mut i = 1usize;
    while i < words.len() {
        assert!(words[i - 1] < words[i]);
        i += 4093;
    }
    assert!(words[0] == 0); // the residue 0 packs to the zero word
    // Each sampled word is the product of its own residue.
    let mut k = 0usize;
    while k < words.len() {
        let w = words[k];
        let zeta = w.wrapping_mul(A_INV);
        assert!(zeta < (1 << 27));
        assert_eq!(zeta.wrapping_mul(A), w);
        k += 65537;
    }
}

#[test]
fn query_covers_the_four_symmetries() {
    let t = build_table();
    for &zeta in &[5u64, 77, 123456] {
        let p = zeta.wrapping_mul(A);
        let n = p >> 27;
        let beta = (p & MASK27) as i64;
        // Direct key: the adjusted residue is -beta.
        assert_eq!(t.query(n), Some(-beta));
        // Negated key: beta itself.
        assert_eq!(t.query(n.wrapping_neg() & MASK37), Some(beta));
        // Successor key: found through the predecessor case, 2^27 - beta.
        assert_eq!(t.query((n + 1) & MASK37), Some((1 << 27) - beta));
    }
    // Exact values for one residue.
    let p5 = 5u64.wrapping_mul(A);
    assert_eq!(p5 >> 27, 0x1733389C4F);
    assert_eq!(p5 & MASK27, 116095969);
    assert_eq!(t.query(0x1733389C4F), Some(-116095969));
    // A key none of the four symmetries can serve.
    assert_eq!(t.query(2), None);
}

#[test]
fn from_words_validates() {
    // Wrong length.
    assert!(matches!(
        LookupTable::from_words(vec![0u64; 3]),
        Err(BreakError::TableLoadFailed)
    ));
    // Right length, but not sorted strictly.
    assert!(matches!(
        LookupTable::from_words(vec![0u64; 1 << 27]),
        Err(BreakError::TableLoadFailed)
    ));
    // Right length and ascending, but not table words.
    let fake: Vec<u64> = (0..(1u64 << 27)).map(|i| i * 2 + 1).collect();
    assert!(matches!(
        LookupTable::from_words(fake),
        Err(BreakError::TableLoadFailed)
    ));
    // The real table round-trips.
    let t = build_table();
    let words = t.words().clone();
    assert!(LookupTable::from_words(words).is_ok());
}
