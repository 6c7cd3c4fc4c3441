//! Feedback-indexed partition of the candidate pool for one fixed guess.
//!
//! A `BucketIndex` holds one candidate bitset per feedback code.  For a
//! guess `g`, candidate `w` at pool position `i` (with `w != g`) has bit
//! `i` set in exactly the bucket whose code is the feedback `w` would
//! produce against `g`; `g` itself is excluded from every bucket.

use vstd::prelude::*;
use crate::bitset::has_bit;
use crate::bitset::lemma_set_bit_view_bits;
use crate::bitset::lemma_word_len_bounds;
use crate::bitset::lemma_zero_seq_no_bits;
use crate::bitset::set_bit;
use crate::bitset::set_bit_view;
use crate::bitset::word_len;
use crate::hints::color_pattern;
use crate::hints::compute_wordle_hint;
use crate::hints::lemma_color_pattern_valid;
use crate::hints::lemma_pattern_code_bounds;
use crate::hints::pattern_code;
use crate::hints::valid_word;
use vstd::std_specs::vec::vec_index_mut;

verus! {

/// Deep view of a list of words.
pub open spec fn words_view(ws: Seq<String>) -> Seq<Seq<char>> {
    ws.map_values(|w: String| w@)
}

/// Every word of the list has exactly five characters.
pub open spec fn valid_words(ws: Seq<Seq<char>>) -> bool {
    forall|i: int| 0 <= i < ws.len() ==> valid_word(#[trigger] ws[i])
}

/// The feedback code candidate `w` produces against guess `g`.
pub open spec fn hint_code(w: Seq<char>, g: Seq<char>) -> int {
    pattern_code(color_pattern(w, g))
}

/// One bitset of width `wlen` words per feedback code, all empty.
pub open spec fn empty_buckets(wlen: nat) -> Seq<Seq<u64>> {
    Seq::new(243, |c: int| Seq::new(wlen, |k: int| 0u64))
}

/// Buckets after filing the first `n` pool words.
pub open spec fn buckets_step(
    bks: Seq<Seq<u64>>,
    pool: Seq<Seq<char>>,
    g: Seq<char>,
    n: nat,
) -> Seq<Seq<u64>>
    decreases n,
{
    if n == 0 {
        bks
    } else {
        let prev = buckets_step(bks, pool, g, (n - 1) as nat);
        let i = n - 1;
        if pool[i as int] == g {
            prev
        } else {
            let c = hint_code(pool[i as int], g);
            prev.update(c, set_bit_view(prev[c], i as int))
        }
    }
}

/// The complete bucket table of guess `g` over `pool`.
pub open spec fn bucket_index_view(pool: Seq<Seq<char>>, g: Seq<char>) -> Seq<Seq<u64>> {
    buckets_step(empty_buckets(word_len(pool.len())), pool, g, pool.len())
}

/// The partition of the candidate pool by feedback code, for one guess.
pub struct BucketIndex {
    pub buckets: Vec<Vec<u64>>,
}

impl View for BucketIndex {
    type V = Seq<Seq<u64>>;

    open spec fn view(&self) -> Seq<Seq<u64>> {
        self.buckets@.map_values(|b: Vec<u64>| b@)
    }
}

proof fn lemma_buckets_step_shape(bks: Seq<Seq<u64>>, pool: Seq<Seq<char>>, g: Seq<char>, n: nat)
    requires
        bks.len() == 243,
        forall|c2: int| 0 <= c2 < 243 ==> (#[trigger] bks[c2]).len() == word_len(pool.len()),
        n <= pool.len(),
        valid_words(pool),
        valid_word(g),
    ensures
        buckets_step(bks, pool, g, n).len() == 243,
        forall|c: int|
            0 <= c < 243 ==> (#[trigger] buckets_step(bks, pool, g, n)[c]).len() == word_len(
                pool.len(),
            ),
    decreases n,
{
    if n > 0 {
        lemma_buckets_step_shape(bks, pool, g, (n - 1) as nat);
        let i = n - 1;
        if pool[i as int] != g {
            lemma_color_pattern_valid(pool[i as int], g);
            lemma_pattern_code_bounds(color_pattern(pool[i as int], g));
            lemma_word_len_bounds(pool.len());
            let prev = buckets_step(bks, pool, g, (n - 1) as nat);
            let ci = hint_code(pool[i as int], g);
            assert(0 <= i < prev[ci].len() * 64);
            assert(i / 64 < prev[ci].len()) by (nonlinear_arith)
                requires
                    0 <= i < prev[ci].len() * 64,
            ;
        }
    }
}

/// Bit `t` of bucket `c` after filing `n` words: either it was already
/// set, or word `t` was filed under code `c`.
proof fn lemma_buckets_step_bits(
    bks: Seq<Seq<u64>>,
    pool: Seq<Seq<char>>,
    g: Seq<char>,
    n: nat,
    c: int,
    t: int,
)
    requires
        bks.len() == 243,
        forall|c2: int| 0 <= c2 < 243 ==> (#[trigger] bks[c2]).len() == word_len(pool.len()),
        n <= pool.len(),
        valid_words(pool),
        valid_word(g),
        0 <= c < 243,
    ensures
        has_bit(buckets_step(bks, pool, g, n)[c], t) == (has_bit(bks[c], t) || (0 <= t < n
            && pool[t] != g && hint_code(pool[t], g) == c)),
    decreases n,
{
    if n > 0 {
        lemma_buckets_step_bits(bks, pool, g, (n - 1) as nat, c, t);
        lemma_buckets_step_shape(bks, pool, g, (n - 1) as nat);
        let prev = buckets_step(bks, pool, g, (n - 1) as nat);
        let i = n - 1;
        if pool[i as int] != g {
            lemma_color_pattern_valid(pool[i as int], g);
            lemma_pattern_code_bounds(color_pattern(pool[i as int], g));
            let ci = hint_code(pool[i as int], g);
            lemma_word_len_bounds(pool.len());
            lemma_set_bit_view_bits(prev[ci], i as int, t);
        }
    }
}

/// Bit `t` of bucket `c` of the finished table is set exactly when `t`
/// is a pool position other than the guess whose feedback code is `c`.
pub proof fn lemma_bucket_index_bits(pool: Seq<Seq<char>>, g: Seq<char>, c: int, t: int)
    requires
        valid_words(pool),
        valid_word(g),
        0 <= c < 243,
    ensures
        has_bit(bucket_index_view(pool, g)[c], t) == (0 <= t < pool.len() && pool[t] != g
            && hint_code(pool[t], g) == c),
{
    let e = empty_buckets(word_len(pool.len()));
    lemma_buckets_step_bits(e, pool, g, pool.len(), c, t);
    lemma_zero_seq_no_bits(e[c], t);
}

/// The buckets of one guess are pairwise disjoint.
pub proof fn lemma_buckets_disjoint(pool: Seq<Seq<char>>, g: Seq<char>, c1: int, c2: int, t: int)
    requires
        valid_words(pool),
        valid_word(g),
        0 <= c1 < 243,
        0 <= c2 < 243,
        c1 != c2,
    ensures
        !(has_bit(bucket_index_view(pool, g)[c1], t) && has_bit(
            bucket_index_view(pool, g)[c2],
            t,
        )),
{
    lemma_bucket_index_bits(pool, g, c1, t);
    lemma_bucket_index_bits(pool, g, c2, t);
}

/// The buckets of one guess cover the pool minus the guess itself: every
/// other pool word sits in the bucket of its feedback code, and a pool
/// word equal to the guess sits in none.
pub proof fn lemma_buckets_cover(pool: Seq<Seq<char>>, g: Seq<char>, t: int)
    requires
        valid_words(pool),
        valid_word(g),
        0 <= t < pool.len(),
    ensures
        pool[t] != g ==> {
            &&& 0 <= hint_code(pool[t], g) < 243
            &&& has_bit(bucket_index_view(pool, g)[hint_code(pool[t], g)], t)
        },
        pool[t] == g ==> forall|c: int|
            0 <= c < 243 ==> !has_bit(#[trigger] bucket_index_view(pool, g)[c], t),
{
    lemma_color_pattern_valid(pool[t], g);
    lemma_pattern_code_bounds(color_pattern(pool[t], g));
    if pool[t] != g {
        lemma_bucket_index_bits(pool, g, hint_code(pool[t], g), t);
    } else {
        assert forall|c: int|
            0 <= c < 243 implies !has_bit(#[trigger] bucket_index_view(pool, g)[c], t) by {
            lemma_bucket_index_bits(pool, g, c, t);
        }
    }
}

/// Shape of the finished table: 243 buckets of the pool's bitset width.
pub proof fn lemma_bucket_index_shape(pool: Seq<Seq<char>>, g: Seq<char>)
    requires
        valid_words(pool),
        valid_word(g),
    ensures
        bucket_index_view(pool, g).len() == 243,
        forall|c: int|
            0 <= c < 243 ==> (#[trigger] bucket_index_view(pool, g)[c]).len() == word_len(
                pool.len(),
            ),
{
    lemma_buckets_step_shape(empty_buckets(word_len(pool.len())), pool, g, pool.len());
}

fn zero_vec(wlen: usize) -> (r: Vec<u64>)
    ensures
        r@ =~= Seq::new(wlen as nat, |k: int| 0u64),
{
    let mut r: Vec<u64> = Vec::new();
    let mut k: usize = 0;
    while k < wlen
        invariant
            k <= wlen,
            r@ =~= Seq::new(k as nat, |t: int| 0u64),
        decreases wlen - k,
    {
        r.push(0);
        k = k + 1;
    }
    r
}

/// Builds the bucket table of one guess: every pool word other than the
/// guess is filed, at its pool position, under the feedback code it
/// produces against the guess.
pub fn build_bucket_index(pool: &Vec<String>, guess: &String) -> (r: BucketIndex)
    requires
        valid_words(words_view(pool@)),
        valid_word(guess@),
        pool@.len() <= usize::MAX - 63,
    ensures
        r@ == bucket_index_view(words_view(pool@), guess@),
{
    let ghost pv = words_view(pool@);
    let s = pool.len();
    let wlen = (s + 63) / 64;
    let mut buckets: Vec<Vec<u64>> = Vec::new();
    let mut c: usize = 0;
    while c < 243
        invariant
            c <= 243,
            buckets@.len() == c,
            forall|t: int|
                0 <= t < c ==> (#[trigger] buckets@[t])@ =~= Seq::new(wlen as nat, |k: int| 0u64),
        decreases 243 - c,
    {
        buckets.push(zero_vec(wlen));
        c = c + 1;
    }
    let mut r = BucketIndex { buckets };
    assert(r@ =~= empty_buckets(word_len(s as nat))) by {
        assert forall|t: int| 0 <= t < 243 implies r@[t] =~= empty_buckets(word_len(s as nat))[t]
        by {}
    }

    let mut i: usize = 0;
    while i < s
        invariant
            i <= s,
            s == pool@.len(),
            s <= usize::MAX - 63,
            wlen == word_len(s as nat),
            pv == words_view(pool@),
            valid_words(pv),
            valid_word(guess@),
            r.buckets@.len() == 243,
            r@ == buckets_step(empty_buckets(word_len(s as nat)), pv, guess@, i as nat),
        decreases s - i,
    {
        let ghost pre = r@;
        proof {
            lemma_buckets_step_shape(empty_buckets(word_len(s as nat)), pv, guess@, i as nat);
            assert(pv[i as int] == pool@[i as int]@);
        }
        let wi: &String = &pool[i];
        if !wi.eq(guess) {
            let h = compute_wordle_hint(wi.as_str(), guess.as_str());
            proof {
                lemma_word_len_bounds(s as nat);
                assert(pre[h as int].len() == word_len(s as nat));
            }
            let bucket = vec_index_mut(&mut r.buckets, h as usize);
            set_bit(bucket, i);
            proof {
                assert(r@ =~= pre.update(h as int, set_bit_view(pre[h as int], i as int)));
            }
        }
        i = i + 1;
    }
    r
}

} // verus!
