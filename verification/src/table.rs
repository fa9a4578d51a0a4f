//! The precomputed lookup table over the 2^27 residues `zeta`, and its query.
//!
//! For every `zeta` below 2^27 the table holds the packed word
//! `(N(zeta) << 27) | beta(zeta)`, where `N(zeta)` and `beta(zeta)` are the
//! high 37 and low 27 bits of `zeta * A (mod 2^64)`; that packed word equals
//! the product itself.  The words are sorted ascending, so a binary search
//! finds, for a 37-bit key, the entry with the smallest `beta`, if any.

use vstd::prelude::*;
use vstd::arithmetic::div_mod::{lemma_mod_add_multiples_vanish, lemma_mod_self_0, lemma_small_mod};
use vstd::seq_lib::group_to_multiset_ensures;
use crate::arith::{mul64, wmul};
use crate::{A, A_INV, BreakError};

verus! {

/// The table word for residue `zeta`: `zeta * A (mod 2^64)`, which is
/// `(N(zeta) << 27) | beta(zeta)`.
pub open spec fn table_entry(zeta: int) -> u64
    recommends
        0 <= zeta < 0x800_0000,
{
    wmul(A, zeta as u64)
}

/// Whether a word is the table word of some residue.
pub open spec fn is_entry(w: u64) -> bool {
    exists|zeta: int| 0 <= zeta < 0x800_0000 && w == table_entry(zeta)
}

/// A 37-bit key and a 27-bit residue packed into one word.
pub open spec fn packed(n: u64, b: u64) -> u64
    recommends
        n < 0x20_0000_0000,
        b < 0x800_0000,
{
    (n << 27) | b
}

/// Ascending order with no repeats.
pub open spec fn strictly_sorted(s: Seq<u64>) -> bool {
    forall|i: int, j: int| 0 <= i < j < s.len() ==> s[i] < s[j]
}

/// What a loaded table must look like: 2^27 table words, strictly ascending.
pub open spec fn valid_table_words(s: Seq<u64>) -> bool {
    &&& s.len() == 0x800_0000
    &&& strictly_sorted(s)
    &&& forall|i: int| 0 <= i < s.len() ==> is_entry(#[trigger] s[i])
}

/// Whether every residue's word occurs in the sequence.
pub open spec fn complete(s: Seq<u64>) -> bool {
    forall|zeta: int| 0 <= zeta < 0x800_0000 ==> s.contains(#[trigger] table_entry(zeta))
}

/// Distinct residues give distinct table words.
pub proof fn lemma_entry_injective(z1: int, z2: int)
    requires
        0 <= z1 < 0x800_0000,
        0 <= z2 < 0x800_0000,
        table_entry(z1) == table_entry(z2),
    ensures
        z1 == z2,
{
    crate::arith::lemma_unmul(z1 as u64);
    crate::arith::lemma_unmul(z2 as u64);
}

/// A word is a table word exactly when `A_INV` maps it below 2^27.
pub proof fn lemma_entry_test(w: u64)
    ensures
        is_entry(w) <==> wmul(A_INV, w) < 0x800_0000,
        is_entry(w) ==> w == table_entry(wmul(A_INV, w) as int),
{
    if is_entry(w) {
        let zeta = choose|zeta: int| 0 <= zeta < 0x800_0000 && w == table_entry(zeta);
        crate::arith::lemma_unmul(zeta as u64);
    }
    if wmul(A_INV, w) < 0x800_0000 {
        crate::arith::lemma_unmul_rev(w);
        assert(w == table_entry(wmul(A_INV, w) as int));
    }
}

/// An injective mapping keeps a finite set's size.
proof fn lemma_injective_set_map_len<AT, BT>(s: Set<AT>, f: spec_fn(AT) -> BT)
    requires
        s.finite(),
        forall|x: AT, y: AT| s.contains(x) && s.contains(y) && f(x) == f(y) ==> x == y,
    ensures
        s.map(f).finite(),
        s.map(f).len() == s.len(),
    decreases s.len(),
{
    broadcast use vstd::set::group_set_axioms;

    if s.is_empty() {
        assert(s.map(f) =~= Set::empty());
    } else {
        let a = s.choose();
        assert(s.remove(a).map(f) =~= s.map(f).remove(f(a)));
        lemma_injective_set_map_len(s.remove(a), f);
        assert(s.map(f).contains(f(a)));
    }
}

/// Law: a sequence that passes validation holds every residue's word:
/// 2^27 distinct words, each the word of some residue, can only be all of
/// them.
pub proof fn lemma_valid_table_complete(s: Seq<u64>)
    requires
        valid_table_words(s),
    ensures
        complete(s),
{
    broadcast use vstd::set::group_set_axioms;
    broadcast use vstd::seq_lib::seq_to_set_is_finite;

    let w = s.to_set();
    assert(s.no_duplicates());
    s.unique_seq_to_set();
    let f = |word: u64| wmul(A_INV, word) as int;
    assert forall|x: u64, y: u64| w.contains(x) && w.contains(y) && f(x) == f(y) implies x
        == y by {
        lemma_entry_test(x);
        lemma_entry_test(y);
    }
    lemma_injective_set_map_len(w, f);
    let z = w.map(f);
    let range = vstd::set_lib::set_int_range(0, 0x800_0000);
    vstd::set_lib::lemma_int_range(0, 0x800_0000);
    assert forall|zeta: int| 0 <= zeta < 0x800_0000 implies s.contains(
        #[trigger] table_entry(zeta),
    ) by {
        if !s.contains(table_entry(zeta)) {
            let small = range.remove(zeta);
            assert forall|i: int| z.contains(i) implies small.contains(i) by {
                let word = choose|word: u64| w.contains(word) && f(word) == i;
                lemma_entry_test(word);
                if i == zeta {
                    assert(word == table_entry(zeta));
                    assert(s.contains(word));
                }
            }
            vstd::set_lib::lemma_len_subset(z, small);
            assert(small.len() == 0x800_0000 - 1);
        }
    }
}

/// Relies on `<[u64]>::sort_unstable`: sorts the vector in place, ascending,
/// keeping exactly the same elements.
#[verifier::external_body]
fn sort_words(words: &mut Vec<u64>)
    ensures
        final(words)@.len() == old(words)@.len(),
        forall|i: int, j: int|
            0 <= i < j < final(words)@.len() ==> final(words)@[i] <= final(words)@[j],
        final(words)@.to_multiset() == old(words)@.to_multiset(),
{
    words.sort_unstable();
}

/// The sorted lookup table.
pub struct LookupTable {
    words: Vec<u64>,
}

impl View for LookupTable {
    type V = Seq<u64>;

    closed spec fn view(&self) -> Seq<u64> {
        self.words@
    }
}

/// Law: the built table holds every residue's word exactly once (the words
/// are strictly ascending, so none repeats), and nothing else.
pub fn build_table() -> (t: LookupTable)
    ensures
        t.wf(),
        complete(t@),
{
    let mut words: Vec<u64> = Vec::new();
    let mut zeta: u64 = 0;
    while zeta < 0x800_0000
        invariant
            zeta <= 0x800_0000,
            words@.len() == zeta,
            forall|k: int| 0 <= k < zeta ==> words@[k] == table_entry(k),
        decreases 0x800_0000 - zeta,
    {
        words.push(mul64(A, zeta));
        zeta = zeta + 1;
    }
    let ghost before = words@;
    sort_words(&mut words);
    proof {
        broadcast use group_to_multiset_ensures;

        assert(before.no_duplicates()) by {
            assert forall|i: int, j: int|
                0 <= i < before.len() && 0 <= j < before.len() && i != j implies before[i]
                != before[j] by {
                if before[i] == before[j] {
                    lemma_entry_injective(i, j);
                }
            }
        }
        before.lemma_multiset_has_no_duplicates();
        words@.lemma_multiset_has_no_duplicates_conv();
        assert(words@.no_duplicates());
        assert forall|i: int, j: int| 0 <= i < j < words@.len() implies words@[i]
            < words@[j] by {
            assert(words@[i] <= words@[j]);
            assert(words@[i] != words@[j]);
        }
        assert forall|zeta: int| 0 <= zeta < 0x800_0000 implies words@.contains(
            #[trigger] table_entry(zeta),
        ) by {
            assert(before[zeta] == table_entry(zeta));
            assert(before.contains(table_entry(zeta)));
            assert(before.to_multiset().count(table_entry(zeta)) > 0);
            assert(words@.to_multiset().count(table_entry(zeta)) > 0);
        }
        assert forall|i: int| 0 <= i < words@.len() implies is_entry(#[trigger] words@[i]) by {
            assert(words@.contains(words@[i]));
            assert(words@.to_multiset().count(words@[i]) > 0);
            assert(before.to_multiset().count(words@[i]) > 0);
            assert(before.contains(words@[i]));
            let k = choose|k: int| 0 <= k < before.len() && before[k] == words@[i];
            assert(words@[i] == table_entry(k));
        }
    }
    LookupTable { words }
}

impl LookupTable {
    /// A well-formed table: 2^27 table words in strictly ascending order.
    pub open spec fn wf(self) -> bool {
        valid_table_words(self@)
    }

    /// The raw words, for persisting the table.
    pub fn words(&self) -> (w: &Vec<u64>)
        ensures
            w@ == self@,
    {
        &self.words
    }

    /// Validates candidate table words: exactly 2^27 of them, strictly
    /// ascending, each the table word of some residue — which can only be
    /// the full table.
    pub fn from_words(words: Vec<u64>) -> (r: Result<LookupTable, BreakError>)
        ensures
            match r {
                Ok(t) => t@ == words@ && t.wf() && complete(t@),
                Err(e) => e == BreakError::TableLoadFailed && !valid_table_words(words@),
            },
    {
        if words.len() != 0x800_0000 {
            return Err(BreakError::TableLoadFailed);
        }
        let mut i: usize = 0;
        while i < words.len()
            invariant
                i <= words@.len(),
                words@.len() == 0x800_0000,
                forall|k1: int, k2: int| 0 <= k1 < k2 < i ==> words@[k1] < words@[k2],
                forall|k: int| 0 <= k < i ==> is_entry(#[trigger] words@[k]),
            decreases words@.len() - i,
        {
            let w = words[i];
            if i > 0 && words[i - 1] >= w {
                proof {
                    assert(!strictly_sorted(words@));
                }
                return Err(BreakError::TableLoadFailed);
            }
            let z = mul64(A_INV, w);
            proof {
                lemma_entry_test(w);
            }
            if z >= 0x800_0000 {
                return Err(BreakError::TableLoadFailed);
            }
            proof {
                assert forall|k1: int, k2: int| 0 <= k1 < k2 < i + 1 implies words@[k1]
                    < words@[k2] by {
                    if k2 == i && k1 < i - 1 {
                        assert(words@[k1] < words@[i - 1]);
                    }
                }
            }
            i = i + 1;
        }
        proof {
            lemma_valid_table_complete(words@);
        }
        Ok(LookupTable { words })
    }

    /// Queries the lookup table for its value given `n`.
    ///
    /// The algebraic equation admits solutions under sign flips, so four
    /// symmetric keys are tried in turn: the key itself (the adjusted residue
    /// is `-beta`), its negation (`beta`), its predecessor (`2^27 - beta`),
    /// and the negation of its successor (`beta - 2^27`).
    pub fn query(&self, n: u64) -> (r: Option<i64>)
        requires
            self.wf(),
            n < 0x20_0000_0000,
        ensures
            r == spec_query(self@, n),
            match r {
                Some(b) => -0x800_0000 <= b <= 0x800_0000,
                None => true,
            },
    {
        if let Some(beta) = self.scan_table(n) {
            return Some(-(beta as i64));
        }
        if let Some(beta) = self.scan_table(neg37_exec(n)) {
            return Some(beta as i64);
        }
        if let Some(beta) = self.scan_table(dec37_exec(n)) {
            return Some(0x800_0000 - beta as i64);
        }
        if let Some(beta) = self.scan_table(neg37_exec(inc37_exec(n))) {
            return Some(beta as i64 - 0x800_0000);
        }
        None
    }

    /// Binary search for the least entry whose high 37 bits equal `n`;
    /// returns its low 27 bits.
    pub fn scan_table(&self, n: u64) -> (r: Option<u64>)
        requires
            self.wf(),
            n < 0x20_0000_0000,
        ensures
            r == spec_scan(self@, n),
            match r {
                Some(b) => b < 0x800_0000,
                None => true,
            },
    {
        let target: u64 = n << 27;
        proof {
            lemma_packed_linear(n, 0);
            assert((n << 27) | 0 == (n << 27)) by (bit_vector);
        }
        let mut lo: usize = 0;
        let mut hi: usize = self.words.len();
        while lo < hi
            invariant
                lo <= hi <= self@.len(),
                self.wf(),
                target == packed(n, 0),
                n < 0x20_0000_0000,
                forall|k: int| 0 <= k < lo ==> self@[k] < target,
                forall|k: int| hi <= k < self@.len() ==> self@[k] >= target,
            decreases hi - lo,
        {
            let mid = lo + (hi - lo) / 2;
            if self.words[mid] < target {
                lo = mid + 1;
            } else {
                hi = mid;
            }
        }
        if lo < self.words.len() && self.words[lo] >> 27 == n {
            let w = self.words[lo];
            let beta = w & 0x7ff_ffff;
            proof {
                lemma_unpack(w);
                lemma_packed_linear(n, beta as u64);
                assert(w == packed(n, beta));
                assert(self@[lo as int] == w);
                assert(self@.contains(packed(n, beta)));
                assert forall|b2: u64| b2 < beta implies !self@.contains(packed(n, b2)) by {
                    lemma_packed_linear(n, b2);
                    if self@.contains(packed(n, b2)) {
                        let j = choose|j: int|
                            0 <= j < self@.len() && self@[j] == packed(n, b2);
                        if j > lo {
                            assert(self@[lo as int] < self@[j]);
                        } else if j < lo {
                            assert(self@[j] < target);
                        }
                    }
                }
                lemma_min_beta_some(self@, n, 0, beta as u64);
            }
            Some(beta)
        } else {
            proof {
                assert forall|b2: u64| b2 < 0x800_0000 implies !self@.contains(
                    packed(n, b2),
                ) by {
                    lemma_packed_linear(n, b2);
                    if self@.contains(packed(n, b2)) {
                        let j = choose|j: int|
                            0 <= j < self@.len() && self@[j] == packed(n, b2);
                        if (lo as int) < self@.len() {
                            let w = self@[lo as int];
                            assert(w >= target && w >> 27 != n);
                            lemma_above_window(w, n, b2);
                            if j > lo {
                                assert(self@[lo as int] < self@[j]);
                            } else if j < lo {
                                assert(self@[j] < target);
                            }
                        } else {
                            assert(self@[j] < target);
                        }
                    }
                }
                lemma_min_beta_none(self@, n, 0);
            }
            None
        }
    }
}

/// The least residue `b` at or above `from` with `(n << 27) | b` in the table.
pub open spec fn min_beta_from(s: Seq<u64>, n: u64, from: u64) -> Option<u64>
    decreases 0x800_0000 - from,
{
    if from >= 0x800_0000 {
        None
    } else if s.contains(packed(n, from)) {
        Some(from)
    } else {
        min_beta_from(s, n, (from + 1) as u64)
    }
}

/// What the table lookup returns for a 37-bit key: the least packed residue
/// stored under that key, if the key occurs at all.
pub open spec fn spec_scan(s: Seq<u64>, n: u64) -> Option<u64> {
    min_beta_from(s, n, 0)
}

/// What the four-way symmetric query returns.
pub open spec fn spec_query(s: Seq<u64>, n: u64) -> Option<i64> {
    if spec_scan(s, n) is Some {
        Some((-(spec_scan(s, n)->Some_0 as i64)) as i64)
    } else if spec_scan(s, neg37(n)) is Some {
        Some(spec_scan(s, neg37(n))->Some_0 as i64)
    } else if spec_scan(s, dec37(n)) is Some {
        Some((0x800_0000 - spec_scan(s, dec37(n))->Some_0 as i64) as i64)
    } else if spec_scan(s, neg37(inc37(n))) is Some {
        Some((spec_scan(s, neg37(inc37(n)))->Some_0 as i64 - 0x800_0000) as i64)
    } else {
        None
    }
}

/// Negation modulo 2^37.
pub open spec fn neg37(n: u64) -> u64 {
    (((0x20_0000_0000 - n) % 0x20_0000_0000) as u64)
}

/// Successor modulo 2^37.
pub open spec fn inc37(n: u64) -> u64 {
    (((n + 1) % 0x20_0000_0000) as u64)
}

/// Predecessor modulo 2^37.
pub open spec fn dec37(n: u64) -> u64 {
    (((n - 1) % 0x20_0000_0000) as u64)
}

/// Negation modulo 2^37.
pub fn neg37_exec(n: u64) -> (r: u64)
    requires
        n < 0x20_0000_0000,
    ensures
        r == neg37(n),
        r < 0x20_0000_0000,
{
    if n == 0 {
        proof {
            lemma_mod_self_0(0x20_0000_0000);
        }
        0
    } else {
        proof {
            lemma_small_mod((0x20_0000_0000 - n) as nat, 0x20_0000_0000);
        }
        0x20_0000_0000 - n
    }
}

/// Successor modulo 2^37.
pub fn inc37_exec(n: u64) -> (r: u64)
    requires
        n < 0x20_0000_0000,
    ensures
        r == inc37(n),
        r < 0x20_0000_0000,
{
    if n == 0x1f_ffff_ffff {
        proof {
            lemma_mod_self_0(0x20_0000_0000);
        }
        0
    } else {
        proof {
            lemma_small_mod((n + 1) as nat, 0x20_0000_0000);
        }
        n + 1
    }
}

/// Predecessor modulo 2^37.
pub fn dec37_exec(n: u64) -> (r: u64)
    requires
        n < 0x20_0000_0000,
    ensures
        r == dec37(n),
        r < 0x20_0000_0000,
{
    if n == 0 {
        proof {
            lemma_mod_add_multiples_vanish(-1, 0x20_0000_0000);
            lemma_small_mod(0x1f_ffff_ffff, 0x20_0000_0000);
        }
        0x1f_ffff_ffff
    } else {
        proof {
            lemma_small_mod((n - 1) as nat, 0x20_0000_0000);
        }
        n - 1
    }
}

/// Unpacking a word gives a 37-bit key and a 27-bit residue that pack back.
proof fn lemma_unpack(w: u64)
    ensures
        w >> 27 < 0x20_0000_0000,
        w & 0x7ff_ffff < 0x800_0000,
        w == packed(w >> 27, w & 0x7ff_ffff),
{
    assert(w >> 27 < 0x20_0000_0000 && w & 0x7ff_ffff < 0x800_0000 && w == ((w >> 27) << 27) | (
    w & 0x7ff_ffff)) by (bit_vector);
}

/// The packed word is the key scaled by 2^27 plus the residue.
proof fn lemma_packed_linear(n: u64, b: u64)
    requires
        n < 0x20_0000_0000,
        b < 0x800_0000,
    ensures
        packed(n, b) == n * 0x800_0000 + b,
        packed(n, b) >> 27 == n,
        packed(n, b) & 0x7ff_ffff == b,
{
    assert((n << 27) | b == n * 0x800_0000 + b && ((n << 27) | b) >> 27 == n && ((n << 27) | b)
        & 0x7ff_ffff == b) by (bit_vector)
        requires
            n < 0x20_0000_0000,
            b < 0x800_0000,
    ;
}

/// A word at or above the key's window whose key differs lies above the
/// whole window.
proof fn lemma_above_window(w: u64, n: u64, b: u64)
    requires
        n < 0x20_0000_0000,
        b < 0x800_0000,
        w >= (n << 27),
        w >> 27 != n,
    ensures
        w > ((n << 27) | b),
{
    assert(w > ((n << 27) | b)) by (bit_vector)
        requires
            n < 0x20_0000_0000,
            b < 0x800_0000,
            w >= (n << 27),
            w >> 27 != n,
    ;
}

/// If `bf` is stored and nothing below it is, the least stored residue is `bf`.
proof fn lemma_min_beta_some(s: Seq<u64>, n: u64, from: u64, bf: u64)
    requires
        from <= bf < 0x800_0000,
        s.contains(packed(n, bf)),
        forall|b2: u64| from <= b2 < bf ==> !s.contains(#[trigger] packed(n, b2)),
    ensures
        min_beta_from(s, n, from) == Some(bf),
    decreases bf - from,
{
    if from < bf {
        lemma_min_beta_some(s, n, (from + 1) as u64, bf);
    }
}

/// If no residue at or above `from` is stored, the lookup finds nothing.
proof fn lemma_min_beta_none(s: Seq<u64>, n: u64, from: u64)
    requires
        forall|b2: u64| from <= b2 < 0x800_0000 ==> !s.contains(#[trigger] packed(n, b2)),
    ensures
        min_beta_from(s, n, from) == None::<u64>,
    decreases 0x800_0000 - from,
{
    if from < 0x800_0000 {
        lemma_min_beta_none(s, n, (from + 1) as u64);
    }
}

} // verus!
