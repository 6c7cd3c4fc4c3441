//! Candidate-set arithmetic on packed bit vectors.
//!
//! A subset of the candidate pool is a sequence of 64-bit words; bit `i`
//! (word `i / 64`, bit `i % 64`, least significant first) is set iff
//! candidate `i` is in the subset.  The hot operation is the popcount of
//! the intersection of two such sets.

use vstd::prelude::*;
use bitvec::prelude::BitSlice;
use bitvec::prelude::Lsb0;
use bitvec::view::BitView;

verus! {

/// Bit `j` of word `w` (least significant bit first).
pub open spec fn word_bit(w: u64, j: u64) -> bool {
    (w >> j) & 1u64 == 1u64
}

/// Number of set bits among the low `n` bits of `w`.
pub open spec fn pop64_upto(w: u64, n: nat) -> nat
    decreases n,
{
    if n == 0 {
        0
    } else {
        pop64_upto(w, (n - 1) as nat) + if word_bit(w, (n - 1) as u64) {
            1nat
        } else {
            0nat
        }
    }
}

/// Number of set bits of a 64-bit word.
pub open spec fn pop64(w: u64) -> nat {
    pop64_upto(w, 64)
}

/// Relies on `u64::count_ones`: it returns the number of ones in the
/// binary representation of its argument.
pub assume_specification[ u64::count_ones ](w: u64) -> (r: u32)
    ensures
        r == pop64(w),
;

/// Bit `i` of a packed bit vector.
pub open spec fn has_bit(s: Seq<u64>, i: int) -> bool {
    &&& 0 <= i < s.len() * 64
    &&& word_bit(s[i / 64], (i % 64) as u64)
}

/// Number of set bits in the first `n` words.
pub open spec fn popseq_upto(s: Seq<u64>, n: nat) -> nat
    decreases n,
{
    if n == 0 {
        0
    } else {
        popseq_upto(s, (n - 1) as nat) + pop64(s[n - 1])
    }
}

/// Number of set bits of a packed bit vector.
pub open spec fn popseq(s: Seq<u64>) -> nat {
    popseq_upto(s, s.len())
}

/// The smaller of two lengths.
pub open spec fn min_nat(a: nat, b: nat) -> nat {
    if a <= b {
        a
    } else {
        b
    }
}

/// Word-wise AND of two bit vectors, truncated to the shorter one.
pub open spec fn and_seq(a: Seq<u64>, b: Seq<u64>) -> Seq<u64> {
    Seq::new(min_nat(a.len(), b.len()), |k: int| a[k] & b[k])
}

/// Number of bits set in both vectors.
pub open spec fn icount(a: Seq<u64>, b: Seq<u64>) -> nat {
    popseq(and_seq(a, b))
}

proof fn lemma_and_bit(a: u64, b: u64, j: u64)
    by (bit_vector)
    ensures
        word_bit(a & b, j) == (word_bit(a, j) && word_bit(b, j)),
{
}

proof fn lemma_or_set_bit(w: u64, j: u64, k: u64)
    by (bit_vector)
    requires
        j < 64,
        k < 64,
    ensures
        word_bit(w | (1u64 << j), k) == (j == k || word_bit(w, k)),
{
}

proof fn lemma_zero_bit(j: u64)
    by (bit_vector)
    ensures
        !word_bit(0u64, j),
{
}

proof fn lemma_full_bit(j: u64)
    by (bit_vector)
    requires
        j < 64,
    ensures
        word_bit(0xffff_ffff_ffff_ffffu64, j),
{
}

proof fn lemma_partial_bit(r: u64, j: u64)
    by (bit_vector)
    requires
        r < 64,
        j < 64,
    ensures
        word_bit(((1u64 << r) - 1) as u64, j) == (j < r),
{
}

/// At most `n` of the low `n` bits are set.
pub proof fn lemma_pop64_upto_le(w: u64, n: nat)
    ensures
        pop64_upto(w, n) <= n,
    decreases n,
{
    if n > 0 {
        lemma_pop64_upto_le(w, (n - 1) as nat);
    }
}

proof fn lemma_pop64_upto_ge_bit(w: u64, j: u64, n: nat)
    requires
        j < n,
        word_bit(w, j),
    ensures
        pop64_upto(w, n) >= 1,
    decreases n,
{
    if j + 1 < n {
        lemma_pop64_upto_ge_bit(w, j, (n - 1) as nat);
    }
}

proof fn lemma_pop64_upto_two(w: u64, j1: u64, j2: u64, n: nat)
    requires
        j1 < j2 < n,
        word_bit(w, j1),
        word_bit(w, j2),
    ensures
        pop64_upto(w, n) >= 2,
    decreases n,
{
    if j2 + 1 < n {
        lemma_pop64_upto_two(w, j1, j2, (n - 1) as nat);
    } else {
        lemma_pop64_upto_ge_bit(w, j1, (n - 1) as nat);
    }
}

proof fn lemma_pop64_upto_pos(w: u64, n: nat)
    requires
        pop64_upto(w, n) > 0,
    ensures
        exists|j: u64| j < n && word_bit(w, j),
    decreases n,
{
    if n > 0 {
        if word_bit(w, (n - 1) as u64) {
            assert(word_bit(w, (n - 1) as u64) && ((n - 1) as u64) < n);
        } else {
            lemma_pop64_upto_pos(w, (n - 1) as nat);
        }
    }
}

/// No more than `64 * n` bits are set in the first `n` words.
pub proof fn lemma_popseq_upto_le(s: Seq<u64>, n: nat)
    requires
        n <= s.len(),
    ensures
        popseq_upto(s, n) <= n * 64,
    decreases n,
{
    if n > 0 {
        lemma_popseq_upto_le(s, (n - 1) as nat);
        lemma_pop64_upto_le(s[n - 1], 64);
    }
}

proof fn lemma_popseq_upto_mono(s: Seq<u64>, m: nat, n: nat)
    requires
        m <= n,
    ensures
        popseq_upto(s, m) <= popseq_upto(s, n),
    decreases n,
{
    if m < n {
        lemma_popseq_upto_mono(s, m, (n - 1) as nat);
    }
}

proof fn lemma_popseq_upto_ge_word(s: Seq<u64>, k: int, n: nat)
    requires
        0 <= k < n,
    ensures
        popseq_upto(s, n) >= pop64(s[k]),
    decreases n,
{
    if k + 1 < n {
        lemma_popseq_upto_ge_word(s, k, (n - 1) as nat);
    }
}

proof fn lemma_popseq_upto_ge_two_words(s: Seq<u64>, k1: int, k2: int, n: nat)
    requires
        0 <= k1 < k2 < n,
    ensures
        popseq_upto(s, n) >= pop64(s[k1]) + pop64(s[k2]),
    decreases n,
{
    if k2 + 1 < n {
        lemma_popseq_upto_ge_two_words(s, k1, k2, (n - 1) as nat);
    } else {
        lemma_popseq_upto_ge_word(s, k1, (n - 1) as nat);
    }
}

proof fn lemma_bit_index_split(s: Seq<u64>, i: int)
    requires
        0 <= i < s.len() * 64,
    ensures
        0 <= i / 64 < s.len(),
        0 <= i % 64 < 64,
{
    assert(i / 64 < s.len()) by (nonlinear_arith)
        requires
            0 <= i < s.len() * 64,
    ;
}

/// Two distinct set bits make the popcount at least two.
pub proof fn lemma_popseq_two_bits(s: Seq<u64>, i: int, j: int)
    requires
        has_bit(s, i),
        has_bit(s, j),
        i != j,
    ensures
        popseq(s) >= 2,
{
    lemma_bit_index_split(s, i);
    lemma_bit_index_split(s, j);
    if i / 64 == j / 64 {
        assert(i % 64 != j % 64) by (nonlinear_arith)
            requires
                i / 64 == j / 64,
                i != j,
                0 <= i,
                0 <= j,
        ;
        let w = s[i / 64];
        if i % 64 < j % 64 {
            lemma_pop64_upto_two(w, (i % 64) as u64, (j % 64) as u64, 64);
        } else {
            lemma_pop64_upto_two(w, (j % 64) as u64, (i % 64) as u64, 64);
        }
        lemma_popseq_upto_ge_word(s, i / 64, s.len());
    } else {
        lemma_pop64_upto_ge_bit(s[i / 64], (i % 64) as u64, 64);
        lemma_pop64_upto_ge_bit(s[j / 64], (j % 64) as u64, 64);
        if i / 64 < j / 64 {
            lemma_popseq_upto_ge_two_words(s, i / 64, j / 64, s.len());
        } else {
            lemma_popseq_upto_ge_two_words(s, j / 64, i / 64, s.len());
        }
    }
}

/// A positive popcount exhibits a set bit.
pub proof fn lemma_popseq_pos(s: Seq<u64>)
    requires
        popseq(s) > 0,
    ensures
        exists|i: int| has_bit(s, i),
{
    lemma_popseq_upto_pos(s, s.len());
}

proof fn lemma_popseq_upto_pos(s: Seq<u64>, n: nat)
    requires
        n <= s.len(),
        popseq_upto(s, n) > 0,
    ensures
        exists|i: int| 0 <= i < n * 64 && has_bit(s, i),
    decreases n,
{
    if n > 0 {
        if pop64(s[n - 1]) > 0 {
            lemma_pop64_upto_pos(s[n - 1], 64);
            let j = choose|j: u64| j < 64 && #[trigger] word_bit(s[n - 1], j);
            let i = (n - 1) * 64 + j;
            vstd::arithmetic::div_mod::lemma_fundamental_div_mod_converse(
                i as int,
                64,
                n - 1,
                j as int,
            );
            assert(i < s.len() * 64 && i < n * 64) by (nonlinear_arith)
                requires
                    i == (n - 1) * 64 + j,
                    n <= s.len(),
                    n > 0,
                    j < 64,
            ;
            assert(0 <= (i as int) && (i as int) < n * 64 && has_bit(s, i as int));
        } else {
            lemma_popseq_upto_pos(s, (n - 1) as nat);
            assert((n - 1) * 64 <= n * 64) by (nonlinear_arith);
        }
    }
}

proof fn lemma_pop64_upto_ge2(w: u64, n: nat)
    requires
        n <= 64,
        pop64_upto(w, n) >= 2,
    ensures
        exists|j1: u64, j2: u64|
            j1 < j2 < n && #[trigger] word_bit(w, j1) && #[trigger] word_bit(w, j2),
    decreases n,
{
    if n > 0 {
        if word_bit(w, (n - 1) as u64) {
            lemma_pop64_upto_pos(w, (n - 1) as nat);
            let j1 = choose|j: u64| j < n - 1 && #[trigger] word_bit(w, j);
            let j2 = (n - 1) as u64;
            assert(j1 < j2 < n && word_bit(w, j1) && word_bit(w, j2));
        } else {
            lemma_pop64_upto_ge2(w, (n - 1) as nat);
        }
    }
}

proof fn lemma_popseq_upto_ge2(s: Seq<u64>, n: nat)
    requires
        n <= s.len(),
        popseq_upto(s, n) >= 2,
    ensures
        exists|i: int, j: int| i != j && #[trigger] has_bit(s, i) && #[trigger] has_bit(s, j),
    decreases n,
{
    if n > 0 {
        let w = s[n - 1];
        if pop64(w) >= 2 {
            lemma_pop64_upto_ge2(w, 64);
            let (j1, j2) = choose|j1: u64, j2: u64|
                j1 < j2 < 64 && #[trigger] word_bit(w, j1) && #[trigger] word_bit(w, j2);
            let i1 = (n - 1) * 64 + j1;
            let i2 = (n - 1) * 64 + j2;
            vstd::arithmetic::div_mod::lemma_fundamental_div_mod_converse(
                i1 as int,
                64,
                n - 1,
                j1 as int,
            );
            vstd::arithmetic::div_mod::lemma_fundamental_div_mod_converse(
                i2 as int,
                64,
                n - 1,
                j2 as int,
            );
            assert(i2 < s.len() * 64) by (nonlinear_arith)
                requires
                    i2 == (n - 1) * 64 + j2,
                    n <= s.len(),
                    n > 0,
                    j2 < 64,
            ;
            assert(i1 as int != i2 as int && has_bit(s, i1 as int) && has_bit(s, i2 as int));
        } else if pop64(w) == 1 {
            lemma_popseq_upto_pos(s, (n - 1) as nat);
            let i1 = choose|i: int| 0 <= i < (n - 1) * 64 && #[trigger] has_bit(s, i);
            lemma_pop64_upto_pos(w, 64);
            let j = choose|j: u64| j < 64 && #[trigger] word_bit(w, j);
            let i2 = (n - 1) * 64 + j;
            vstd::arithmetic::div_mod::lemma_fundamental_div_mod_converse(
                i2 as int,
                64,
                n - 1,
                j as int,
            );
            assert(i2 < s.len() * 64) by (nonlinear_arith)
                requires
                    i2 == (n - 1) * 64 + j,
                    n <= s.len(),
                    n > 0,
                    j < 64,
            ;
            assert(i1 != i2 as int && has_bit(s, i1) && has_bit(s, i2 as int));
        } else {
            lemma_popseq_upto_ge2(s, (n - 1) as nat);
        }
    }
}

/// A vector whose set bits all agree holds at most one set bit.
pub proof fn lemma_popseq_le_one(s: Seq<u64>)
    requires
        forall|i: int, j: int| has_bit(s, i) && has_bit(s, j) ==> i == j,
    ensures
        popseq(s) <= 1,
{
    if popseq(s) >= 2 {
        lemma_popseq_upto_ge2(s, s.len());
    }
}

/// A popcount of one means exactly one set bit.
pub proof fn lemma_popseq_one_unique(s: Seq<u64>)
    requires
        popseq(s) == 1,
    ensures
        exists|i: int| has_bit(s, i),
        forall|i: int, j: int| has_bit(s, i) && has_bit(s, j) ==> i == j,
{
    lemma_popseq_pos(s);
    assert forall|i: int, j: int| has_bit(s, i) && has_bit(s, j) implies i == j by {
        if i != j {
            lemma_popseq_two_bits(s, i, j);
        }
    }
}

/// The bits of the intersection are the common bits.
pub proof fn lemma_and_seq_bits(a: Seq<u64>, b: Seq<u64>, i: int)
    ensures
        has_bit(and_seq(a, b), i) == (0 <= i < min_nat(a.len(), b.len()) * 64 && has_bit(a, i)
            && has_bit(b, i)),
{
    let m = and_seq(a, b);
    if 0 <= i < m.len() * 64 {
        lemma_bit_index_split(m, i);
        lemma_and_bit(a[i / 64], b[i / 64], (i % 64) as u64);
    }
}

/// Popcount of a packed bit vector, word by word.
pub fn popcount(a: &[u64]) -> (r: usize)
    requires
        a@.len() * 64 <= usize::MAX,
    ensures
        r == popseq(a@),
{
    let n = a.len();
    let mut r: usize = 0;
    let mut k: usize = 0;
    while k < n
        invariant
            k <= n,
            n == a@.len(),
            n * 64 <= usize::MAX,
            r == popseq_upto(a@, k as nat),
        decreases n - k,
    {
        proof {
            lemma_popseq_upto_le(a@, (k + 1) as nat);
            lemma_pop64_upto_le(a@[k as int], 64);
            assert((k + 1) * 64 <= n * 64) by (nonlinear_arith)
                requires
                    k + 1 <= n,
            ;
        }
        r = r + (a[k].count_ones() as usize);
        k = k + 1;
    }
    r
}

/// Number of candidates two sets have in common: the popcount of their
/// intersection, the dominant cost of the search.
pub fn intersect_size(a: &[u64], b: &[u64]) -> (r: usize)
    requires
        min_nat(a@.len(), b@.len()) * 64 <= usize::MAX,
    ensures
        r == icount(a@, b@),
{
    let n = if a.len() <= b.len() {
        a.len()
    } else {
        b.len()
    };
    let ghost m = and_seq(a@, b@);
    let mut r: usize = 0;
    let mut k: usize = 0;
    while k < n
        invariant
            k <= n,
            n == min_nat(a@.len(), b@.len()),
            n <= a@.len() && n <= b@.len(),
            n * 64 <= usize::MAX,
            m == and_seq(a@, b@),
            r == popseq_upto(m, k as nat),
        decreases n - k,
    {
        proof {
            lemma_popseq_upto_le(m, (k + 1) as nat);
            lemma_pop64_upto_le(m[k as int], 64);
            assert((k + 1) * 64 <= n * 64) by (nonlinear_arith)
                requires
                    k + 1 <= n,
            ;
        }
        let w = a[k] & b[k];
        assert(w == m[k as int]);
        r = r + (w.count_ones() as usize);
        k = k + 1;
    }
    r
}

/// Bounded intersection popcount: scans word pairs and stops as soon as
/// the running sum exceeds `bound`.  The early exit changes cost, never
/// the outcome of the comparison against `bound`: the result exceeds
/// `bound` exactly when the full intersection count does, and when it
/// does not exceed `bound` it is the exact count.
pub fn intersect_count_bounded(a: &[u64], b: &[u64], bound: usize) -> (r: usize)
    requires
        min_nat(a@.len(), b@.len()) * 64 <= usize::MAX,
        bound <= usize::MAX - 64,
    ensures
        (r > bound) == (icount(a@, b@) > bound),
        r <= bound ==> r == icount(a@, b@),
{
    let n = if a.len() <= b.len() {
        a.len()
    } else {
        b.len()
    };
    let ghost m = and_seq(a@, b@);
    let mut r: usize = 0;
    let mut k: usize = 0;
    while k < n
        invariant
            k <= n,
            n == min_nat(a@.len(), b@.len()),
            n <= a@.len() && n <= b@.len(),
            bound <= usize::MAX - 64,
            m == and_seq(a@, b@),
            r == popseq_upto(m, k as nat),
            r <= bound,
        decreases n - k,
    {
        proof {
            lemma_pop64_upto_le(m[k as int], 64);
        }
        let w = a[k] & b[k];
        assert(w == m[k as int]);
        r = r + (w.count_ones() as usize);
        if r > bound {
            proof {
                lemma_popseq_upto_mono(m, (k + 1) as nat, m.len());
            }
            return r;
        }
        k = k + 1;
    }
    r
}

/// Fresh intersection of two equally wide sets.
pub fn intersect(a: &[u64], b: &[u64]) -> (r: Vec<u64>)
    requires
        a@.len() == b@.len(),
    ensures
        r@ == and_seq(a@, b@),
{
    let n = a.len();
    let mut r: Vec<u64> = Vec::new();
    let mut k: usize = 0;
    while k < n
        invariant
            k <= n,
            n == a@.len() == b@.len(),
            r@ =~= and_seq(a@, b@).take(k as int),
        decreases n - k,
    {
        r.push(a[k] & b[k]);
        k = k + 1;
    }
    assert(r@ =~= and_seq(a@, b@));
    r
}

/// In-place intersection: narrows `a` to the candidates it shares with `b`.
pub fn intersect_in_place(a: &mut Vec<u64>, b: &[u64])
    requires
        old(a)@.len() == b@.len(),
    ensures
        final(a)@ == and_seq(old(a)@, b@),
{
    let n = a.len();
    let mut k: usize = 0;
    while k < n
        invariant
            k <= n,
            n == a@.len() == b@.len() == old(a)@.len(),
            forall|t: int| k <= t < n ==> a@[t] == old(a)@[t],
            forall|t: int| 0 <= t < k ==> a@[t] == and_seq(old(a)@, b@)[t],
        decreases n - k,
    {
        let w = a[k] & b[k];
        a[k] = w;
        k = k + 1;
    }
    assert(a@ =~= and_seq(old(a)@, b@));
}

/// The bit vector `s` with bit `i` set: word `i / 64` receives bit
/// `i % 64` (least significant first).
pub open spec fn set_bit_view(s: Seq<u64>, i: int) -> Seq<u64> {
    s.update(i / 64, s[i / 64] | (1u64 << ((i % 64) as u64)))
}

/// Setting a bit sets exactly that bit.
pub proof fn lemma_set_bit_view_bits(s: Seq<u64>, i: int, t: int)
    requires
        0 <= i < s.len() * 64,
    ensures
        has_bit(set_bit_view(s, i), t) == (t == i || has_bit(s, t)),
{
    let r = set_bit_view(s, i);
    lemma_bit_index_split(s, i);
    assert(r.len() == s.len());
    if 0 <= t < s.len() * 64 {
        lemma_bit_index_split(s, t);
        if t / 64 == i / 64 {
            lemma_or_set_bit(s[i / 64], (i % 64) as u64, (t % 64) as u64);
            if t != i {
                assert(t % 64 != i % 64) by (nonlinear_arith)
                    requires
                        t / 64 == i / 64,
                        t != i,
                        0 <= t,
                        0 <= i,
                ;
            }
        } else {
            assert(r[t / 64] == s[t / 64]);
        }
    }
}

/// No bit is set in an all-zero vector.
pub proof fn lemma_zero_seq_no_bits(s: Seq<u64>, i: int)
    requires
        forall|k: int| 0 <= k < s.len() ==> s[k] == 0u64,
    ensures
        !has_bit(s, i),
{
    if 0 <= i < s.len() * 64 {
        lemma_bit_index_split(s, i);
        lemma_zero_bit((i % 64) as u64);
    }
}

/// A bitset over `s` candidates has room for bits `0 .. s`.
pub proof fn lemma_word_len_bounds(s: nat)
    ensures
        s <= word_len(s) * 64 < s + 64,
{
    assert(s <= ((s + 63) / 64) * 64 < s + 64) by (nonlinear_arith);
}

/// Relies on `bitvec`'s `BitSlice::set` over an `Lsb0` view of `u64`
/// words: setting bit `i` of the slice sets bit `i % 64` (least
/// significant first) of word `i / 64`.
#[verifier::external_body]
pub fn set_bit(words: &mut Vec<u64>, i: usize)
    requires
        i < old(words)@.len() * 64,
    ensures
        final(words)@ == set_bit_view(old(words)@, i as int),
{
    let bits: &mut BitSlice<u64, Lsb0> = words.as_mut_slice().view_bits_mut();
    bits.set(i, true);
}

/// Relies on `bitvec`'s `BitSlice::first_one` over an `Lsb0` view of
/// `u64` words: it returns the index of the first set bit, or `None`
/// when no bit is set.
#[verifier::external_body]
pub fn first_one(words: &Vec<u64>) -> (r: Option<usize>)
    ensures
        match r {
            Some(i) => has_bit(words@, i as int) && forall|k: int|
                0 <= k < i ==> !has_bit(words@, k),
            None => forall|k: int| !has_bit(words@, k),
        },
{
    let bits: &BitSlice<u64, Lsb0> = words.as_slice().view_bits();
    bits.first_one()
}

/// Width in words of a bitset over `s` candidates.
pub open spec fn word_len(s: nat) -> nat {
    ((s + 63) / 64) as nat
}

/// Word `w` of the universal set over `s` candidates: full words of
/// ones up to `s` bits, a partial last word after that.
pub open spec fn univ_word(s: nat, w: int) -> u64 {
    if 64 * (w + 1) <= s {
        0xffff_ffff_ffff_ffffu64
    } else {
        ((1u64 << ((s - 64 * w) as u64)) - 1) as u64
    }
}

/// The universal set over `s` candidates: every bit below `s` set.
pub open spec fn univ_view(s: nat) -> Seq<u64> {
    Seq::new(word_len(s), |w: int| univ_word(s, w))
}

/// The universal set has bit `i` set exactly for the candidates `i < s`.
pub proof fn lemma_univ_view_bits(s: nat, i: int)
    ensures
        univ_view(s).len() == word_len(s),
        has_bit(univ_view(s), i) == (0 <= i < s),
{
    let r = univ_view(s);
    lemma_word_len_bounds(s);
    if 0 <= i < r.len() * 64 {
        lemma_bit_index_split(r, i);
        let w = i / 64;
        let j = (i % 64) as u64;
        assert(w * 64 <= i < (w + 1) * 64) by (nonlinear_arith)
            requires
                w == i / 64,
                0 <= i,
        ;
        if 64 * (w + 1) <= s {
            lemma_full_bit(j);
            assert(i < s);
        } else {
            let rem = s - 64 * w;
            assert(0 <= rem < 64);
            let remu = rem as u64;
            assert(1u64 << remu >= 1) by (bit_vector)
                requires
                    remu < 64,
            ;
            lemma_partial_bit(remu, j);
            assert(word_bit(r[w], j) == (j < rem));
            assert((i % 64 < rem) == (i < s)) by (nonlinear_arith)
                requires
                    rem == s - 64 * (i / 64),
                    0 <= i,
        ;
        }
    }
}

/// The set bits of a set built by `set_bit` steps never leave `[0, s)`,
/// so the universal set over `s` candidates has bit `i` set iff `i < s`.
pub fn universal_set(s: usize) -> (r: Vec<u64>)
    requires
        s <= usize::MAX - 63,
    ensures
        r@ == univ_view(s as nat),
        r@.len() == word_len(s as nat),
        forall|i: int| has_bit(r@, i) == (0 <= i < s),
{
    let wlen = (s + 63) / 64;
    let mut r: Vec<u64> = Vec::new();
    let mut w: usize = 0;
    while w < wlen
        invariant
            w <= wlen,
            wlen == word_len(s as nat),
            s <= usize::MAX - 63,
            r@.len() == w,
            forall|t: int| 0 <= t < w ==> r@[t] == univ_word(s as nat, t),
            forall|i: int| 0 <= i < w * 64 ==> has_bit(r@, i) == (i < s),
        decreases wlen - w,
    {
        let ghost r0 = r@;
        if (w + 1) * 64 <= s {
            r.push(0xffff_ffff_ffff_ffffu64);
            proof {
                assert forall|i: int| 0 <= i < (w + 1) * 64 implies has_bit(r@, i) == (i < s) by {
                    lemma_bit_index_split(r@, i);
                    if i / 64 < w {
                        assert(r@[i / 64] == r0[i / 64]);
                        assert(has_bit(r0, i) == (i < s));
                    } else {
                        assert(i / 64 == w) by (nonlinear_arith)
                            requires
                                w * 64 <= i < (w + 1) * 64,
                        ;
                        lemma_full_bit((i % 64) as u64);
                        assert(i < s) by (nonlinear_arith)
                            requires
                                i < (w + 1) * 64,
                                (w + 1) * 64 <= s,
                        ;
                    }
                }
            }
        } else {
            let rem = s - w * 64;
            proof {
                assert(0 <= s - w * 64 < 64) by (nonlinear_arith)
                    requires
                        w < wlen,
                        wlen == ((s + 63) / 64),
                        (w + 1) * 64 > s,
                ;
            }
            assert(1u64 << (rem as u64) >= 1) by (bit_vector)
                requires
                    rem < 64,
            ;
            r.push((1u64 << (rem as u64)) - 1);
            proof {
                assert forall|i: int| 0 <= i < (w + 1) * 64 implies has_bit(r@, i) == (i < s) by {
                    lemma_bit_index_split(r@, i);
                    if i / 64 < w {
                        assert(r@[i / 64] == r0[i / 64]);
                        assert(has_bit(r0, i) == (i < s));
                    } else {
                        assert(i / 64 == w && i % 64 == i - w * 64) by (nonlinear_arith)
                            requires
                                w * 64 <= i < (w + 1) * 64,
                        ;
                        lemma_partial_bit(rem as u64, (i % 64) as u64);
                    }
                }
            }
        }
        w = w + 1;
    }
    proof {
        assert(wlen * 64 >= s) by (nonlinear_arith)
            requires
                wlen == ((s + 63) / 64),
                s <= usize::MAX - 63,
        ;
        assert forall|i: int| has_bit(r@, i) implies (0 <= i < s) by {}
        assert forall|i: int| 0 <= i < s implies has_bit(r@, i) by {}
        assert(r@ =~= univ_view(s as nat));
    }
    r
}

} // verus!
