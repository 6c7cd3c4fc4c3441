//! Expansion of prefix-grouped word lists: each group pairs a
//! two-character prefix with a string of three-character suffixes, and
//! contributes one five-character word per suffix.

use vstd::prelude::*;
use crate::buckets::valid_words;
use crate::buckets::words_view;
use crate::hints::valid_word;
use vstd::string::StrSliceExecFns;
use vstd::string::StringExecFns;

verus! {

/// The words of one group: the prefix joined to each three-character
/// chunk of the suffix string.
pub open spec fn group_words(prefix: Seq<char>, suffixes: Seq<char>) -> Seq<Seq<char>> {
    Seq::new(suffixes.len() / 3, |t: int| prefix + suffixes.subrange(3 * t, 3 * t + 3))
}

/// The words of the first `n` groups, in group order.
pub open spec fn groups_words(pairs: Seq<(String, String)>, n: nat) -> Seq<Seq<char>>
    decreases n,
{
    if n == 0 {
        Seq::empty()
    } else {
        groups_words(pairs, (n - 1) as nat) + group_words(pairs[n - 1].0@, pairs[n - 1].1@)
    }
}

/// A well-formed group list: two-character prefixes, suffix strings of
/// whole three-character chunks.
pub open spec fn valid_groups(pairs: Seq<(String, String)>) -> bool {
    forall|k: int|
        0 <= k < pairs.len() ==> (#[trigger] pairs[k]).0@.len() == 2 && pairs[k].1@.len() % 3 == 0
}

/// Expands prefix-grouped word lists into the flat list of
/// five-character words, in group order.
pub fn extract_wordlist(pairs: &Vec<(String, String)>) -> (r: Vec<String>)
    requires
        valid_groups(pairs@),
    ensures
        words_view(r@) == groups_words(pairs@, pairs@.len()),
        valid_words(words_view(r@)),
{
    let mut r: Vec<String> = Vec::new();
    let n = pairs.len();
    let mut k: usize = 0;
    while k < n
        invariant
            k <= n,
            n == pairs@.len(),
            valid_groups(pairs@),
            words_view(r@) =~= groups_words(pairs@, k as nat),
            valid_words(words_view(r@)),
        decreases n - k,
    {
        let prefix: &String = &pairs[k].0;
        let suffixes: &String = &pairs[k].1;
        let slen = suffixes.as_str().unicode_len();
        let chunks = slen / 3;
        let ghost base = words_view(r@);
        let mut t: usize = 0;
        while t < chunks
            invariant
                t <= chunks,
                k < n,
                n == pairs@.len(),
                valid_groups(pairs@),
                prefix@ == pairs@[k as int].0@,
                suffixes@ == pairs@[k as int].1@,
                slen == suffixes@.len(),
                chunks == slen / 3,
                words_view(r@) =~= base + group_words(prefix@, suffixes@).take(t as int),
                valid_words(words_view(r@)),
            decreases chunks - t,
        {
            assert(3 * t + 3 <= slen) by (nonlinear_arith)
                requires
                    t < chunks,
                    chunks == slen / 3,
            ;
            let chunk = suffixes.as_str().substring_char(3 * t, 3 * t + 3);
            let word = prefix.clone().concat(chunk);
            proof {
                assert(word@ == group_words(prefix@, suffixes@)[t as int]);
                assert(word@.len() == 5);
            }
            let ghost r0 = r@;
            r.push(word);
            proof {
                let g = group_words(prefix@, suffixes@);
                assert(g.len() == chunks);
                assert(g.take(t as int).len() == t);
                assert(g.take(t + 1).len() == t + 1);
                assert(words_view(r0).len() == r0.len());
                assert(words_view(r0) == base + g.take(t as int));
                assert(r0.len() == base.len() + t);
                assert forall|u: int| 0 <= u < r@.len() implies #[trigger] words_view(r@)[u] == (
                base + g.take(t + 1))[u] by {
                    assert(words_view(r@)[u] == r@[u]@);
                    if u < base.len() {
                        assert(r@[u] == r0[u]);
                        assert(words_view(r0)[u] == r0[u]@);
                        assert((base + g.take(t as int))[u] == base[u]);
                        assert((base + g.take(t + 1))[u] == base[u]);
                    } else if u < r0.len() {
                        assert(r@[u] == r0[u]);
                        assert(words_view(r0)[u] == r0[u]@);
                        assert((base + g.take(t as int))[u] == g.take(t as int)[u - base.len()]);
                        assert((base + g.take(t + 1))[u] == g.take(t + 1)[u - base.len()]);
                        assert(g.take(t as int)[u - base.len()] == g[u - base.len()]);
                        assert(g.take(t + 1)[u - base.len()] == g[u - base.len()]);
                    } else {
                        assert(u == base.len() + t);
                        assert(r@[u] == word);
                        assert((base + g.take(t + 1))[u] == g.take(t + 1)[t as int]);
                        assert(g.take(t + 1)[t as int] == g[t as int]);
                    }
                }
                assert(words_view(r@) =~= base + g.take(t + 1));
                assert forall|u: int| 0 <= u < words_view(r@).len() implies valid_word(
                    #[trigger] words_view(r@)[u],
                ) by {
                    assert(words_view(r@)[u] == r@[u]@);
                    if u < r0.len() {
                        assert(r@[u] == r0[u]);
                        assert(valid_word(words_view(r0)[u]));
                        assert(words_view(r0)[u] == r0[u]@);
                    } else {
                        assert(r@[u] == word);
                    }
                }
            }
            t = t + 1;
        }
        proof {
            assert(group_words(prefix@, suffixes@).take(chunks as int) =~= group_words(
                prefix@,
                suffixes@,
            ));
            assert(words_view(r@) =~= groups_words(pairs@, (k + 1) as nat));
        }
        k = k + 1;
    }
    r
}

} // verus!
