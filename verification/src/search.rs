//! The depth-bounded adversarial search.
//!
//! For every first guess, the adversary's worst bucket is probed against
//! the pigeonhole bound of 243 (the number of distinct feedbacks a
//! following guess could separate); surviving branches are then checked
//! for a finishing guess whose every bucket leaves at most one
//! candidate.  Branches are independent, so the outer loop over first
//! guesses runs in parallel; the winner list is their concatenation in
//! guess order.

use vstd::prelude::*;
use crate::bitset::and_seq;
use crate::bitset::has_bit;
use crate::bitset::intersect;
use crate::bitset::lemma_and_seq_bits;
use crate::bitset::lemma_popseq_one_unique;
use crate::bitset::lemma_popseq_pos;
use crate::bitset::lemma_word_len_bounds;
use crate::bitset::first_one;
use crate::bitset::popcount;
use crate::bitset::popseq;
use crate::bitset::univ_view;
use crate::bitset::universal_set;
use crate::bitset::word_len;
use crate::buckets::bucket_index_view;
use crate::buckets::lemma_bucket_index_bits;
use crate::buckets::lemma_bucket_index_shape;
use crate::buckets::words_view;
use crate::catalog::GuessCatalog;
use crate::selector::find_best_bucket_bounded;
use crate::selector::select_code;
use rayon::iter::IntoParallelIterator;
use rayon::iter::ParallelIterator;

verus! {

/// Deep view of a winner list: each winner is its sequence of words.
pub open spec fn winners_view(ws: Seq<Vec<String>>) -> Seq<Seq<Seq<char>>> {
    ws.map_values(|w: Vec<String>| words_view(w@))
}

/// The bucket table of guess `j` of the catalog.
pub open spec fn cat_index(cat: GuessCatalog, j: int) -> Seq<Seq<u64>> {
    bucket_index_view(words_view(cat.pool@), cat.guesses@[j]@)
}

/// The search root: every pool candidate still alive.
pub open spec fn univ_of(cat: GuessCatalog) -> Seq<u64> {
    univ_view(cat.pool@.len())
}

/// Depth-2 winners `(g1, gfinal)` with `gfinal` among the first `n`
/// guesses, given the candidate set `rem` left by `g1`'s worst bucket:
/// those whose every bucket leaves at most one candidate of `rem`.
pub open spec fn finals2(cat: GuessCatalog, rem: Seq<u64>, g1: int, n: nat) -> Seq<Seq<Seq<char>>>
    decreases n,
{
    if n == 0 {
        Seq::empty()
    } else {
        let prev = finals2(cat, rem, g1, (n - 1) as nat);
        let j = n - 1;
        if select_code(rem, cat_index(cat, j as int), 1) is Some {
            prev.push(seq![cat.guesses@[g1]@, cat.guesses@[j as int]@])
        } else {
            prev
        }
    }
}

/// All depth-2 winners whose first guess is guess `i`.
pub open spec fn winners2_for(cat: GuessCatalog, i: int) -> Seq<Seq<Seq<char>>> {
    match select_code(univ_of(cat), cat_index(cat, i), 243) {
        None => Seq::empty(),
        Some(c) => finals2(
            cat,
            and_seq(univ_of(cat), cat_index(cat, i)[c]),
            i,
            cat.guesses@.len(),
        ),
    }
}

/// Depth-2 winners over the first `n` first-guess choices, concatenated
/// in guess order.
pub open spec fn winners2_upto(cat: GuessCatalog, n: nat) -> Seq<Seq<Seq<char>>>
    decreases n,
{
    if n == 0 {
        Seq::empty()
    } else {
        winners2_upto(cat, (n - 1) as nat) + winners2_for(cat, n - 1)
    }
}

/// The complete depth-2 winner list.
pub open spec fn depth2_winners(cat: GuessCatalog) -> Seq<Seq<Seq<char>>> {
    winners2_upto(cat, cat.guesses@.len())
}

/// All depth-2 winners starting with guess `i`: probe guess `i` at the
/// pigeonhole bound, then try every finishing guess at bound one.
pub fn winners_for_first_2(cat: &GuessCatalog, i: usize) -> (r: Vec<Vec<String>>)
    requires
        cat.wf(),
        i < cat.guesses@.len(),
    ensures
        winners_view(r@) == winners2_for(*cat, i as int),
{
    let ghost pv = words_view(cat.pool@);
    let s = cat.pool.len();
    proof {
        lemma_word_len_bounds(s as nat);
        assert(words_view(cat.guesses@)[i as int] == cat.guesses@[i as int]@);
        lemma_bucket_index_shape(pv, cat.guesses@[i as int]@);
    }
    let univ = universal_set(s);
    match find_best_bucket_bounded(&univ, &cat.indices[i], 243) {
        None => {
            let r: Vec<Vec<String>> = Vec::new();
            assert(winners_view(r@) =~= winners2_for(*cat, i as int));
            r
        },
        Some(c) => {
            proof {
                crate::selector::lemma_select_code_props(univ@, cat_index(*cat, i as int), 243);
            }
            let rem = intersect(univ.as_slice(), cat.indices[i].buckets[c].as_slice());
            assert(rem@ == and_seq(univ_of(*cat), cat_index(*cat, i as int)[c as int]));
            let mut out: Vec<Vec<String>> = Vec::new();
            let n = cat.guesses.len();
            let mut j: usize = 0;
            while j < n
                invariant
                    j <= n,
                    n == cat.guesses@.len(),
                    i < n,
                    cat.wf(),
                    s == cat.pool@.len(),
                    pv == words_view(cat.pool@),
                    rem@.len() == word_len(s as nat),
                    winners_view(out@) =~= finals2(*cat, rem@, i as int, j as nat),
                decreases n - j,
            {
                proof {
                    lemma_word_len_bounds(s as nat);
                    assert(words_view(cat.guesses@)[j as int] == cat.guesses@[j as int]@);
                    lemma_bucket_index_shape(pv, cat.guesses@[j as int]@);
                }
                let ghost pre = out@;
                match find_best_bucket_bounded(&rem, &cat.indices[j], 1) {
                    Some(_) => {
                        let mut w: Vec<String> = Vec::new();
                        w.push(cat.guesses[i].clone());
                        w.push(cat.guesses[j].clone());
                        out.push(w);
                        proof {
                            assert(words_view(w@) =~= seq![
                                cat.guesses@[i as int]@,
                                cat.guesses@[j as int]@,
                            ]);
                            assert(winners_view(out@) =~= winners_view(pre).push(words_view(w@)));
                        }
                    },
                    None => {},
                }
                j = j + 1;
            }
            assert(winners_view(out@) =~= winners2_for(*cat, i as int));
            out
        },
    }
}

/// Relies on rayon's `into_par_iter().map(..).collect()` over the
/// range of first-guess positions: the range iterator is indexed and
/// `map` keeps it so, and collecting an indexed parallel iterator into
/// a `Vec` writes each image at its input's position.  The closure
/// only calls the verified `winners_for_first_2`, so entry `k` is that
/// function's winner list for first guess `k`.
#[verifier::external_body]
fn par_winners_2(cat: &GuessCatalog) -> (r: Vec<Vec<Vec<String>>>)
    requires
        cat.wf(),
    ensures
        r@.len() == cat.guesses@.len(),
        forall|k: int|
            0 <= k < r@.len() ==> winners_view((#[trigger] r@[k])@) == winners2_for(*cat, k),
{
    (0..cat.guesses.len()).into_par_iter().map(|i| winners_for_first_2(cat, i)).collect()
}

/// The depth-2 search: every winning pair `(g1, gfinal)` that forces
/// the pool to at most one candidate whatever the adversary answers,
/// in guess order, first guesses explored in parallel.
pub fn find_winners_2(cat: &GuessCatalog) -> (r: Vec<Vec<String>>)
    requires
        cat.wf(),
    ensures
        winners_view(r@) == depth2_winners(*cat),
{
    let mut parts = par_winners_2(cat);
    let mut r: Vec<Vec<String>> = Vec::new();
    let n = parts.len();
    let mut k: usize = 0;
    while k < n
        invariant
            k <= n,
            n == parts@.len(),
            n == cat.guesses@.len(),
            forall|t: int|
                k <= t < n ==> winners_view((#[trigger] parts@[t])@) == winners2_for(*cat, t),
            winners_view(r@) =~= winners2_upto(*cat, k as nat),
        decreases n - k,
    {
        let ghost r0 = r@;
        let ghost part0 = parts@[k as int]@;
        let part = vstd::std_specs::vec::vec_index_mut(&mut parts, k);
        r.append(part);
        proof {
            assert(winners_view(r@) =~= winners_view(r0) + winners_view(part0));
        }
        k = k + 1;
    }
    r
}

/// The position of the sole set bit of a one-candidate set.
pub open spec fn sole_bit(s: Seq<u64>) -> int {
    choose|t: int| has_bit(s, t)
}

/// Depth-3 winners `(g1, g2, gfinal, solution)` with `gfinal` among the
/// first `n` guesses, given the candidate set `rem2` left after `g1`
/// and `g2`: finishing guesses whose every bucket leaves at most one
/// candidate, the solution being the single candidate the adversary's
/// bucket leaves.
pub open spec fn finals3(
    cat: GuessCatalog,
    rem2: Seq<u64>,
    g1: int,
    g2: int,
    n: nat,
) -> Seq<Seq<Seq<char>>>
    decreases n,
{
    if n == 0 {
        Seq::empty()
    } else {
        let prev = finals3(cat, rem2, g1, g2, (n - 1) as nat);
        let j = n - 1;
        match select_code(rem2, cat_index(cat, j as int), 1) {
            Some(cf) => {
                let sol = and_seq(rem2, cat_index(cat, j as int)[cf]);
                if popseq(sol) == 1 {
                    prev.push(
                        seq![
                            cat.guesses@[g1]@,
                            cat.guesses@[g2]@,
                            cat.guesses@[j as int]@,
                            cat.pool@[sole_bit(sol)]@,
                        ],
                    )
                } else {
                    prev
                }
            },
            None => prev,
        }
    }
}

/// Depth-3 winners with first guess `g1`, second guess among the first
/// `m` guesses: second guesses surviving the pigeonhole probe, each
/// followed by its finishing guesses.
pub open spec fn mids3(cat: GuessCatalog, rem1: Seq<u64>, g1: int, m: nat) -> Seq<Seq<Seq<char>>>
    decreases m,
{
    if m == 0 {
        Seq::empty()
    } else {
        let prev = mids3(cat, rem1, g1, (m - 1) as nat);
        let j = m - 1;
        match select_code(rem1, cat_index(cat, j as int), 243) {
            Some(c2) => prev + finals3(
                cat,
                and_seq(rem1, cat_index(cat, j as int)[c2]),
                g1,
                j as int,
                cat.guesses@.len(),
            ),
            None => prev,
        }
    }
}

/// All depth-3 winners whose first guess is guess `i`.
pub open spec fn winners3_for(cat: GuessCatalog, i: int) -> Seq<Seq<Seq<char>>> {
    match select_code(univ_of(cat), cat_index(cat, i), 243) {
        None => Seq::empty(),
        Some(c) => mids3(cat, and_seq(univ_of(cat), cat_index(cat, i)[c]), i, cat.guesses@.len()),
    }
}

/// Depth-3 winners over `n` first-guess choices starting at `start`,
/// concatenated in guess order.
pub open spec fn winners3_range(cat: GuessCatalog, start: int, n: nat) -> Seq<Seq<Seq<char>>>
    decreases n,
{
    if n == 0 {
        Seq::empty()
    } else {
        winners3_range(cat, start, (n - 1) as nat) + winners3_for(cat, start + n - 1)
    }
}

/// All depth-3 winners starting with guess `i`: probe guess `i` and
/// every second guess at the pigeonhole bound, then try every finishing
/// guess at bound one and read off the solution.
pub fn winners_for_first_3(cat: &GuessCatalog, i: usize) -> (r: Vec<Vec<String>>)
    requires
        cat.wf(),
        i < cat.guesses@.len(),
    ensures
        winners_view(r@) == winners3_for(*cat, i as int),
{
    let ghost pv = words_view(cat.pool@);
    let s = cat.pool.len();
    proof {
        lemma_word_len_bounds(s as nat);
        assert(words_view(cat.guesses@)[i as int] == cat.guesses@[i as int]@);
        lemma_bucket_index_shape(pv, cat.guesses@[i as int]@);
    }
    let univ = universal_set(s);
    let mut out: Vec<Vec<String>> = Vec::new();
    match find_best_bucket_bounded(&univ, &cat.indices[i], 243) {
        None => {
            assert(winners_view(out@) =~= winners3_for(*cat, i as int));
            out
        },
        Some(c) => {
            proof {
                crate::selector::lemma_select_code_props(univ@, cat_index(*cat, i as int), 243);
            }
            let rem1 = intersect(univ.as_slice(), cat.indices[i].buckets[c].as_slice());
            assert(rem1@ == and_seq(univ_of(*cat), cat_index(*cat, i as int)[c as int]));
            let n = cat.guesses.len();
            let mut j: usize = 0;
            while j < n
                invariant
                    j <= n,
                    n == cat.guesses@.len(),
                    i < n,
                    cat.wf(),
                    s == cat.pool@.len(),
                    pv == words_view(cat.pool@),
                    rem1@.len() == word_len(s as nat),
                    winners_view(out@) =~= mids3(*cat, rem1@, i as int, j as nat),
                decreases n - j,
            {
                proof {
                    lemma_word_len_bounds(s as nat);
                    assert(words_view(cat.guesses@)[j as int] == cat.guesses@[j as int]@);
                    lemma_bucket_index_shape(pv, cat.guesses@[j as int]@);
                }
                match find_best_bucket_bounded(&rem1, &cat.indices[j], 243) {
                    Some(c2) => {
                        proof {
                            crate::selector::lemma_select_code_props(
                                rem1@,
                                cat_index(*cat, j as int),
                                243,
                            );
                        }
                        let rem2 = intersect(rem1.as_slice(), cat.indices[j].buckets[c2].as_slice());
                        assert(rem2@ == and_seq(rem1@, cat_index(*cat, j as int)[c2 as int]));
                        let mut k: usize = 0;
                        while k < n
                            invariant
                                k <= n,
                                j < n,
                                n == cat.guesses@.len(),
                                i < n,
                                cat.wf(),
                                s == cat.pool@.len(),
                                pv == words_view(cat.pool@),
                                rem2@.len() == word_len(s as nat),
                                rem2@ == and_seq(rem1@, cat_index(*cat, j as int)[c2 as int]),
                                rem1@.len() == word_len(s as nat),
                                winners_view(out@) =~= mids3(*cat, rem1@, i as int, j as nat)
                                    + finals3(*cat, rem2@, i as int, j as int, k as nat),
                            decreases n - k,
                        {
                            proof {
                                lemma_word_len_bounds(s as nat);
                                assert(words_view(cat.guesses@)[k as int] == cat.guesses@[k as int]@);
                                lemma_bucket_index_shape(pv, cat.guesses@[k as int]@);
                            }
                            let ghost pre = out@;
                            match find_best_bucket_bounded(&rem2, &cat.indices[k], 1) {
                                Some(cf) => {
                                    proof {
                                        crate::selector::lemma_select_code_props(
                                            rem2@,
                                            cat_index(*cat, k as int),
                                            1,
                                        );
                                    }
                                    let sol = intersect(
                                        rem2.as_slice(),
                                        cat.indices[k].buckets[cf].as_slice(),
                                    );
                                    let ghost solv = and_seq(
                                        rem2@,
                                        cat_index(*cat, k as int)[cf as int],
                                    );
                                    assert(sol@ == solv);
                                    let pc = popcount(sol.as_slice());
                                    if pc == 1 {
                                        match first_one(&sol) {
                                            Some(t) => {
                                                proof {
                                                    lemma_popseq_one_unique(solv);
                                                    assert(has_bit(solv, t as int));
                                                    assert(sole_bit(solv) == t as int);
                                                    crate::selector::lemma_select_code_props(
                                                        rem2@,
                                                        cat_index(*cat, k as int),
                                                        1,
                                                    );
                                                    lemma_and_seq_bits(
                                                        rem2@,
                                                        cat_index(*cat, k as int)[cf as int],
                                                        t as int,
                                                    );
                                                    lemma_bucket_index_bits(
                                                        pv,
                                                        cat.guesses@[k as int]@,
                                                        cf as int,
                                                        t as int,
                                                    );
                                                    assert(t < cat.pool@.len());
                                                }
                                                let mut w: Vec<String> = Vec::new();
                                                w.push(cat.guesses[i].clone());
                                                w.push(cat.guesses[j].clone());
                                                w.push(cat.guesses[k].clone());
                                                w.push(cat.pool[t].clone());
                                                out.push(w);
                                                proof {
                                                    assert(words_view(w@) =~= seq![
                                                        cat.guesses@[i as int]@,
                                                        cat.guesses@[j as int]@,
                                                        cat.guesses@[k as int]@,
                                                        cat.pool@[t as int]@,
                                                    ]);
                                                    assert(winners_view(out@) =~= winners_view(
                                                        pre,
                                                    ).push(words_view(w@)));
                                                }
                                            },
                                            None => {
                                                proof {
                                                    lemma_popseq_pos(solv);
                                                    assert(false);
                                                }
                                            },
                                        }
                                    }
                                },
                                None => {},
                            }
                            k = k + 1;
                        }
                        proof {
                            assert(winners_view(out@) =~= mids3(
                                *cat,
                                rem1@,
                                i as int,
                                (j + 1) as nat,
                            ));
                        }
                    },
                    None => {},
                }
                j = j + 1;
            }
            assert(winners_view(out@) =~= winners3_for(*cat, i as int));
            out
        },
    }
}

/// Relies on rayon's `into_par_iter().map(..).collect()` over the
/// range of first-guess positions: the range iterator is indexed and
/// `map` keeps it so, and collecting an indexed parallel iterator into
/// a `Vec` writes each image at its input's position.  The closure
/// only calls the verified `winners_for_first_3`, so entry `k` is that
/// function's winner list for first guess `start + k`.
#[verifier::external_body]
fn par_winners_3(cat: &GuessCatalog, start: usize, end: usize) -> (r: Vec<Vec<Vec<String>>>)
    requires
        cat.wf(),
        start <= end <= cat.guesses@.len(),
    ensures
        r@.len() == end - start,
        forall|k: int|
            0 <= k < r@.len() ==> winners_view((#[trigger] r@[k])@) == winners3_for(
                *cat,
                start + k,
            ),
{
    (start..end).into_par_iter().map(|i| winners_for_first_3(cat, i)).collect()
}

/// The depth-3 search over the first guesses in `[start, end)`: every
/// winning sequence `(g1, g2, gfinal, solution)`, in guess order, first
/// guesses explored in parallel.  Searching a chunk at a time is the
/// caller's choice; the winners of `[a, b)` and `[b, c)` concatenate to
/// the winners of `[a, c)`.
pub fn find_winners_3(cat: &GuessCatalog, start: usize, end: usize) -> (r: Vec<Vec<String>>)
    requires
        cat.wf(),
        start <= end <= cat.guesses@.len(),
    ensures
        winners_view(r@) == winners3_range(*cat, start as int, (end - start) as nat),
{
    let mut parts = par_winners_3(cat, start, end);
    let mut r: Vec<Vec<String>> = Vec::new();
    let n = parts.len();
    let mut k: usize = 0;
    while k < n
        invariant
            k <= n,
            n == parts@.len(),
            n == end - start,
            forall|t: int|
                k <= t < n ==> winners_view((#[trigger] parts@[t])@) == winners3_for(
                    *cat,
                    start + t,
                ),
            winners_view(r@) =~= winners3_range(*cat, start as int, k as nat),
        decreases n - k,
    {
        let ghost r0 = r@;
        let ghost part0 = parts@[k as int]@;
        let part = vstd::std_specs::vec::vec_index_mut(&mut parts, k);
        r.append(part);
        proof {
            assert(winners_view(r@) =~= winners_view(r0) + winners_view(part0));
        }
        k = k + 1;
    }
    r
}

} // verus!
