//! The full mapping from every allowed guess to its bucket table, built
//! once — in parallel across guesses — and read-only thereafter.

use vstd::prelude::*;
use crate::buckets::BucketIndex;
use crate::buckets::bucket_index_view;
use crate::buckets::build_bucket_index;
use crate::buckets::valid_words;
use crate::buckets::words_view;
use rayon::iter::IntoParallelRefIterator;
use rayon::iter::ParallelIterator;

verus! {

/// The candidate pool, the allowed guesses, and one bucket table per
/// guess, aligned with the guess list.
pub struct GuessCatalog {
    pub pool: Vec<String>,
    pub guesses: Vec<String>,
    pub indices: Vec<BucketIndex>,
}

impl GuessCatalog {
    /// Well-formed: all words are five characters, the pool fits a
    /// bitset, and entry `k` is the bucket table of guess `k`.
    pub open spec fn wf(&self) -> bool {
        &&& valid_words(words_view(self.pool@))
        &&& valid_words(words_view(self.guesses@))
        &&& self.pool@.len() <= usize::MAX - 63
        &&& self.indices@.len() == self.guesses@.len()
        &&& forall|k: int|
            0 <= k < self.guesses@.len() ==> (#[trigger] self.indices@[k])@ == bucket_index_view(
                words_view(self.pool@),
                self.guesses@[k]@,
            )
    }
}

/// Relies on rayon's `par_iter().map(..).collect()`: the slice
/// iterator is indexed and `map` keeps it so, and collecting an
/// indexed parallel iterator into a `Vec` writes each image at its
/// input's position.  The closure only calls the verified
/// `build_bucket_index`, so entry `k` is that function's result for
/// guess `k`.
#[verifier::external_body]
fn par_build_indices(pool: &Vec<String>, guesses: &Vec<String>) -> (r: Vec<BucketIndex>)
    requires
        valid_words(words_view(pool@)),
        valid_words(words_view(guesses@)),
        pool@.len() <= usize::MAX - 63,
    ensures
        r@.len() == guesses@.len(),
        forall|k: int|
            0 <= k < guesses@.len() ==> (#[trigger] r@[k])@ == bucket_index_view(
                words_view(pool@),
                guesses@[k]@,
            ),
{
    guesses.par_iter().map(|g| build_bucket_index(pool, g)).collect()
}

/// Builds the catalog: one bucket table per guess, computed
/// independently per guess and merged in guess order.
pub fn build_catalog(pool: Vec<String>, guesses: Vec<String>) -> (r: GuessCatalog)
    requires
        valid_words(words_view(pool@)),
        valid_words(words_view(guesses@)),
        pool@.len() <= usize::MAX - 63,
    ensures
        r.wf(),
        r.pool@ == pool@,
        r.guesses@ == guesses@,
{
    let indices = par_build_indices(&pool, &guesses);
    GuessCatalog { pool, guesses, indices }
}

/// Catalog construction is a pure function of the two word lists: two
/// catalogs over the same lists hold bit-identical bucket tables.
pub proof fn lemma_catalog_deterministic(c1: GuessCatalog, c2: GuessCatalog)
    requires
        c1.wf(),
        c2.wf(),
        c1.pool@ == c2.pool@,
        c1.guesses@ == c2.guesses@,
    ensures
        c1.indices@.len() == c2.indices@.len(),
        forall|k: int| 0 <= k < c1.indices@.len() ==> (#[trigger] c1.indices@[k])@ == c2.indices@[k]@,
{
}

} // verus!
