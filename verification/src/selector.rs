//! The adversary's choice among the buckets of one guess: the bucket
//! whose intersection with the current candidate set is largest, ties
//! broken toward the smaller informativeness score, with the whole
//! selection failing as soon as any bucket exceeds the given bound.

use vstd::prelude::*;
use crate::bitset::and_seq;
use crate::bitset::has_bit;
use crate::bitset::icount;
use crate::bitset::lemma_and_seq_bits;
use crate::bitset::lemma_popseq_le_one;
use crate::bitset::intersect_count_bounded;
use crate::bitset::min_nat;
use crate::bitset::popcount;
use crate::bitset::popseq;
use crate::buckets::BucketIndex;
use crate::buckets::bucket_index_view;
use crate::buckets::lemma_bucket_index_bits;
use crate::buckets::lemma_bucket_index_shape;
use crate::buckets::valid_words;
use crate::hints::compute_tie_breaker;
use crate::hints::informativeness;
use crate::hints::valid_word;

verus! {

/// Some bucket's intersection with `cur` exceeds `bound`.
pub open spec fn exceeds_bound(cur: Seq<u64>, bks: Seq<Seq<u64>>, bound: nat) -> bool {
    exists|c: int| 0 <= c < bks.len() && icount(#[trigger] bks[c], cur) > bound
}

/// Index of the best of the first `n` sizes, scanning in order: strictly
/// larger wins, and an exact tie falls to the entry with the smaller
/// informativeness score.
pub open spec fn best_of(sizes: Seq<nat>, n: nat) -> int
    decreases n,
{
    if n <= 1 {
        0
    } else {
        let prev = best_of(sizes, (n - 1) as nat);
        let c = n - 1;
        if sizes[c as int] > sizes[prev] || (sizes[c as int] == sizes[prev] && informativeness(
            c as int,
        ) < informativeness(prev)) {
            c as int
        } else {
            prev
        }
    }
}

/// Sizes of the buckets' intersections with the current candidate set.
pub open spec fn inter_sizes(cur: Seq<u64>, bks: Seq<Seq<u64>>) -> Seq<nat> {
    Seq::new(bks.len(), |c: int| icount(bks[c], cur))
}

/// Raw bucket sizes, with no current set restricting them.
pub open spec fn raw_sizes(bks: Seq<Seq<u64>>) -> Seq<nat> {
    Seq::new(bks.len(), |c: int| popseq(bks[c]))
}

/// The adversary's selection: `None` when some bucket's intersection
/// with `cur` exceeds `bound`, else the code of the largest bucket
/// intersection, ties broken toward minimum informativeness.
pub open spec fn select_code(cur: Seq<u64>, bks: Seq<Seq<u64>>, bound: nat) -> Option<int> {
    if bks.len() == 0 || exceeds_bound(cur, bks, bound) {
        None
    } else {
        Some(best_of(inter_sizes(cur, bks), bks.len()))
    }
}

/// The chosen entry is a maximum, and among maxima it has the least
/// informativeness score.
pub proof fn lemma_best_of_max(sizes: Seq<nat>, n: nat)
    requires
        1 <= n <= sizes.len(),
    ensures
        0 <= best_of(sizes, n) < n,
        forall|c: int|
            0 <= c < n ==> #[trigger] sizes[c] <= sizes[best_of(sizes, n)],
        forall|c: int|
            0 <= c < n && #[trigger] sizes[c] == sizes[best_of(sizes, n)] ==> informativeness(
                best_of(sizes, n),
            ) <= informativeness(c),
    decreases n,
{
    if n > 1 {
        lemma_best_of_max(sizes, (n - 1) as nat);
    }
}

/// What the selection means: failure exactly when some bucket exceeds
/// the bound, and otherwise a maximal bucket with minimal tie-break.
pub proof fn lemma_select_code_props(cur: Seq<u64>, bks: Seq<Seq<u64>>, bound: nat)
    ensures
        (select_code(cur, bks, bound) is None) == (bks.len() == 0 || exceeds_bound(
            cur,
            bks,
            bound,
        )),
        match select_code(cur, bks, bound) {
            Some(c) => {
                &&& 0 <= c < bks.len()
                &&& icount(bks[c], cur) <= bound
                &&& forall|c2: int|
                    0 <= c2 < bks.len() ==> icount(#[trigger] bks[c2], cur) <= icount(bks[c], cur)
                &&& forall|c2: int|
                    0 <= c2 < bks.len() && icount(#[trigger] bks[c2], cur) == icount(bks[c], cur)
                        ==> informativeness(c) <= informativeness(c2)
            },
            None => true,
        },
{
    if bks.len() > 0 && !exceeds_bound(cur, bks, bound) {
        let sizes = inter_sizes(cur, bks);
        lemma_best_of_max(sizes, bks.len());
        let c = best_of(sizes, bks.len() as nat);
        assert(icount(bks[c], cur) == sizes[c]);
        assert(icount(bks[c], cur) <= bound);
        assert forall|c2: int|
            0 <= c2 < bks.len() implies icount(#[trigger] bks[c2], cur) <= icount(bks[c], cur) by {
            assert(icount(bks[c2], cur) == sizes[c2]);
        }
        assert forall|c2: int|
            0 <= c2 < bks.len() && icount(#[trigger] bks[c2], cur) == icount(bks[c], cur)
                implies informativeness(c) <= informativeness(c2) by {
            assert(icount(bks[c2], cur) == sizes[c2]);
        }
    }
}

/// When every bucket's intersection with the current set exceeds the
/// bound, the selection certainly fails: its 243 buckets are not empty,
/// so some bucket is over the bound.
pub proof fn lemma_select_fails_when_all_exceed(cur: Seq<u64>, bks: Seq<Seq<u64>>, bound: nat)
    requires
        bks.len() > 0,
        forall|c: int| 0 <= c < bks.len() ==> icount(#[trigger] bks[c], cur) > bound,
    ensures
        select_code(cur, bks, bound) is None,
{
    assert(icount(bks[0], cur) > bound);
}

/// Over a pool of at most one candidate, a selection with bound at
/// least one always succeeds: no bucket can hold more than the one
/// candidate there is.
pub proof fn lemma_singleton_pool_select(
    pool: Seq<Seq<char>>,
    g: Seq<char>,
    cur: Seq<u64>,
    bound: nat,
)
    requires
        valid_words(pool),
        valid_word(g),
        pool.len() <= 1,
        bound >= 1,
    ensures
        select_code(cur, bucket_index_view(pool, g), bound) is Some,
{
    let bks = bucket_index_view(pool, g);
    lemma_bucket_index_shape(pool, g);
    assert forall|c: int| 0 <= c < bks.len() implies icount(#[trigger] bks[c], cur) <= 1 by {
        let m = and_seq(bks[c], cur);
        assert forall|i: int, j: int| has_bit(m, i) && has_bit(m, j) implies i == j by {
            lemma_and_seq_bits(bks[c], cur, i);
            lemma_and_seq_bits(bks[c], cur, j);
            lemma_bucket_index_bits(pool, g, c, i);
            lemma_bucket_index_bits(pool, g, c, j);
        }
        lemma_popseq_le_one(m);
    }
    assert(!exceeds_bound(cur, bks, bound));
}

/// The bucket the adversary would pick from `index` given the current
/// candidate set, unless some bucket's intersection exceeds `bound`, in
/// which case the guess is rejected outright.
pub fn find_best_bucket_bounded(current: &Vec<u64>, index: &BucketIndex, bound: usize) -> (r:
    Option<usize>)
    requires
        index@.len() == 243,
        current@.len() * 64 <= usize::MAX,
        bound <= usize::MAX - 64,
    ensures
        r == match select_code(current@, index@, bound as nat) {
            Some(c) => Some(c as usize),
            None => None::<usize>,
        },
{
    let ghost bks = index@;
    let ghost sizes = inter_sizes(current@, bks);
    let mut best_code: usize = 0;
    let mut best_size: usize = 0;
    let mut c: usize = 0;
    while c < 243
        invariant
            c <= 243,
            bks == index@,
            sizes == inter_sizes(current@, bks),
            bks.len() == 243,
            index.buckets@.len() == 243,
            current@.len() * 64 <= usize::MAX,
            bound <= usize::MAX - 64,
            forall|c2: int| 0 <= c2 < c ==> icount(#[trigger] bks[c2], current@) <= bound,
            c > 0 ==> best_code == best_of(sizes, c as nat),
            c > 0 ==> best_size == sizes[best_code as int],
            c == 0 ==> best_code == 0 && best_size == 0,
            best_code < 243,
            best_size <= bound,
        decreases 243 - c,
    {
        assert(index@[c as int] == index.buckets@[c as int]@);
        assert(min_nat(index@[c as int].len(), current@.len()) * 64 <= usize::MAX);
        let size = intersect_count_bounded(index.buckets[c].as_slice(), current.as_slice(), bound);
        if size > bound {
            proof {
                assert(icount(bks[c as int], current@) > bound);
                assert(exceeds_bound(current@, bks, bound as nat));
            }
            return None;
        }
        assert(size == sizes[c as int]);
        if c == 0 {
            best_code = 0;
            best_size = size;
            assert(best_of(sizes, 1) == 0);
        } else {
            let tb_new = compute_tie_breaker(c as u32);
            let tb_old = compute_tie_breaker(best_code as u32);
            if size > best_size || (size == best_size && tb_new < tb_old) {
                best_code = c;
                best_size = size;
            }
            assert(best_code == best_of(sizes, (c + 1) as nat));
        }
        c = c + 1;
    }
    proof {
        assert(!exceeds_bound(current@, bks, bound as nat));
    }
    Some(best_code)
}

/// The adversary's unbounded first pick: the largest raw bucket of one
/// guess, ties broken toward minimum informativeness.  With its fixed
/// 243 buckets the table is never empty, so a bucket is always found.
pub fn find_initial_bucket(index: &BucketIndex) -> (r: Option<usize>)
    requires
        index@.len() == 243,
        forall|c: int| 0 <= c < 243 ==> (#[trigger] index@[c]).len() * 64 <= usize::MAX,
    ensures
        r == Some(best_of(raw_sizes(index@), 243) as usize),
{
    let ghost bks = index@;
    let ghost sizes = raw_sizes(bks);
    let mut best_code: usize = 0;
    let mut best_size: usize = 0;
    let mut c: usize = 0;
    while c < 243
        invariant
            c <= 243,
            bks == index@,
            sizes == raw_sizes(bks),
            bks.len() == 243,
            index.buckets@.len() == 243,
            forall|c2: int| 0 <= c2 < 243 ==> (#[trigger] bks[c2]).len() * 64 <= usize::MAX,
            c > 0 ==> best_code == best_of(sizes, c as nat),
            c > 0 ==> best_size == sizes[best_code as int],
            c == 0 ==> best_code == 0 && best_size == 0,
            best_code < 243,
        decreases 243 - c,
    {
        assert(index@[c as int] == index.buckets@[c as int]@);
        let size = popcount(index.buckets[c].as_slice());
        assert(size == sizes[c as int]);
        if c == 0 {
            best_code = 0;
            best_size = size;
            assert(best_of(sizes, 1) == 0);
        } else {
            let tb_new = compute_tie_breaker(c as u32);
            let tb_old = compute_tie_breaker(best_code as u32);
            if size > best_size || (size == best_size && tb_new < tb_old) {
                best_code = c;
                best_size = size;
            }
            assert(best_code == best_of(sizes, (c + 1) as nat));
        }
        c = c + 1;
    }
    Some(best_code)
}

} // verus!
