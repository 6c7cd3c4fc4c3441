use absurdle::bitset::popcount;
use absurdle::buckets::BucketIndex;
use absurdle::buckets::build_bucket_index;
use absurdle::catalog::build_catalog;
use absurdle::hints::compute_tie_breaker;
use absurdle::hints::compute_wordle_hint;
use absurdle::search::find_winners_2;
use absurdle::search::find_winners_3;
use absurdle::search::winners_for_first_2;
use absurdle::selector::find_best_bucket_bounded;
use absurdle::selector::find_initial_bucket;
use absurdle::bitset::universal_set;
use absurdle::wordlist::extract_wordlist;

fn words(ws: &[&str]) -> Vec<String> {
    ws.iter().map(|w| w.to_string()).collect()
}

fn bucket_has_bit(index: &BucketIndex, code: usize, i: usize) -> bool {
    (index.buckets[code][i / 64] >> (i % 64)) & 1 == 1
}

#[test]
fn buckets_partition_the_pool_minus_the_guess() {
    let pool = words(&["abcde", "fghij", "aabbb", "babab", "abcdx"]);
    for guess in &pool {
        let index = build_bucket_index(&pool, guess);
        assert_eq!(index.buckets.len(), 243);
        let mut filed = 0;
        for code in 0..243 {
            filed += popcount(&index.buckets[code]);
        }
        // Union: every pool word but the guess is filed exactly once.
        assert_eq!(filed, pool.len() - 1);
        for (i, w) in pool.iter().enumerate() {
            if w == guess {
                for code in 0..243 {
                    assert!(!bucket_has_bit(&index, code, i));
                }
            } else {
                let hint = compute_wordle_hint(w, guess) as usize;
                for code in 0..243 {
                    // Disjointness: only the word's own feedback bucket
                    // holds its bit.
                    assert_eq!(bucket_has_bit(&index, code, i), code == hint);
                }
            }
        }
    }
}

#[test]
fn selector_picks_largest_then_least_informative() {
    let pool = words(&["abcde", "fghij", "abcdx"]);
    let index = build_bucket_index(&pool, &pool[0]);
    let univ = universal_set(pool.len());
    // Two buckets of size one: all-gray (code 0) for "fghij", and
    // four-greens (code 240) for "abcdx".  The tie falls to the less
    // informative all-gray feedback.
    assert_eq!(compute_wordle_hint("fghij", "abcde"), 0);
    assert_eq!(compute_wordle_hint("abcdx", "abcde"), 240);
    assert!(compute_tie_breaker(0) < compute_tie_breaker(240));
    assert_eq!(find_best_bucket_bounded(&univ, &index, 243), Some(0));
    assert_eq!(find_best_bucket_bounded(&univ, &index, 1), Some(0));
    // With bound zero every nonempty bucket is over the bound.
    assert_eq!(find_best_bucket_bounded(&univ, &index, 0), None);
    // The unbounded pick agrees on raw sizes.
    assert_eq!(find_initial_bucket(&index), Some(0));
}

#[test]
fn singleton_pool_always_finishable() {
    // With one candidate, any other guess leaves at most one candidate
    // per feedback, so the exactness probe at bound one succeeds.
    let pool = words(&["abcde"]);
    let univ = universal_set(pool.len());
    for guess in ["fghij", "abcdx", "aaaaa", "edcba"] {
        let index = build_bucket_index(&pool, &guess.to_string());
        assert!(find_best_bucket_bounded(&univ, &index, 1).is_some());
    }
}

/// Exhaustive unbounded recomputation of the depth-2 winner set over
/// plain word lists, with no bitsets and no early exit.
fn brute_force_depth2(pool: &[String], guesses: &[String]) -> Vec<Vec<String>> {
    let mut winners = Vec::new();
    for g1 in guesses {
        let mut members: Vec<Vec<usize>> = vec![Vec::new(); 243];
        for (i, w) in pool.iter().enumerate() {
            if w != g1 {
                members[compute_wordle_hint(w, g1) as usize].push(i);
            }
        }
        if members.iter().any(|m| m.len() > 243) {
            continue;
        }
        let mut best = 0usize;
        for code in 1..243 {
            let better = members[code].len() > members[best].len()
                || (members[code].len() == members[best].len()
                    && compute_tie_breaker(code as u32) < compute_tie_breaker(best as u32));
            if better {
                best = code;
            }
        }
        let rem = &members[best];
        for gf in guesses {
            let mut counts = [0usize; 243];
            let mut ok = true;
            for &i in rem {
                if &pool[i] != gf {
                    let code = compute_wordle_hint(&pool[i], gf) as usize;
                    counts[code] += 1;
                    if counts[code] > 1 {
                        ok = false;
                    }
                }
            }
            if ok {
                winners.push(vec![g1.clone(), gf.clone()]);
            }
        }
    }
    winners
}

#[test]
fn depth2_search_matches_brute_force() {
    let pool = words(&["aabbb", "babab"]);
    let cat = build_catalog(pool.clone(), pool.clone());
    let found = find_winners_2(&cat);
    let expected = brute_force_depth2(&pool, &pool);
    let mut found_sorted = found.clone();
    found_sorted.sort();
    let mut expected_sorted = expected;
    expected_sorted.sort();
    assert_eq!(found_sorted, expected_sorted);
}

#[test]
fn depth2_search_larger_cross_check() {
    let pool = words(&["aabbb", "babab", "abcde", "edcba", "aaaaa"]);
    let guesses = words(&["aabbb", "babab", "abcde", "edcba", "aaaaa", "xyzzy"]);
    let cat = build_catalog(pool.clone(), guesses.clone());
    let mut found = find_winners_2(&cat);
    let mut expected = brute_force_depth2(&pool, &guesses);
    found.sort();
    expected.sort();
    assert_eq!(found, expected);
}

#[test]
fn depth2_winners_concatenate_per_first_guess() {
    let pool = words(&["aabbb", "babab", "abcde"]);
    let cat = build_catalog(pool.clone(), pool.clone());
    let whole = find_winners_2(&cat);
    let mut parts = Vec::new();
    for i in 0..pool.len() {
        parts.extend(winners_for_first_2(&cat, i));
    }
    assert_eq!(whole, parts);
}

#[test]
fn depth3_search_finds_solutions_and_chunks_cleanly() {
    let pool = words(&["aabbb", "babab"]);
    let cat = build_catalog(pool.clone(), pool.clone());
    let whole = find_winners_3(&cat, 0, pool.len());
    for w in &whole {
        assert_eq!(w.len(), 4);
        // The reported solution is a pool word.
        assert!(pool.contains(&w[3]));
    }
    // A two-word pool is separated by either guess at depth 2 already,
    // so every depth-3 continuation wins.
    assert!(!whole.is_empty());
    let mut chunked = find_winners_3(&cat, 0, 1);
    chunked.extend(find_winners_3(&cat, 1, pool.len()));
    assert_eq!(whole, chunked);
}

#[test]
fn oversized_bucket_rejects_the_guess() {
    // 244 candidates sharing no letter with the guess all land in the
    // all-gray bucket, which exceeds the pigeonhole bound of 243, so
    // the guess is pruned and no winner survives.
    let mut pool = Vec::new();
    for i in 0..244 {
        let a = (b'a' + (i / 25) as u8) as char;
        let b = (b'a' + (i % 25) as u8) as char;
        pool.push(format!("{}{}xyx", a, b));
    }
    let guess = words(&["zzzzz"]);
    let index = build_bucket_index(&pool, &guess[0]);
    let univ = universal_set(pool.len());
    assert_eq!(find_best_bucket_bounded(&univ, &index, 243), None);
    let cat = build_catalog(pool, guess);
    assert!(find_winners_2(&cat).is_empty());
    assert!(find_winners_3(&cat, 0, 1).is_empty());
}

#[test]
fn catalog_construction_is_idempotent() {
    let pool = words(&["aabbb", "babab", "abcde", "edcba"]);
    let guesses = words(&["aabbb", "babab", "abcde", "edcba", "xyzzy"]);
    let c1 = build_catalog(pool.clone(), guesses.clone());
    let c2 = build_catalog(pool, guesses);
    assert_eq!(c1.indices.len(), c2.indices.len());
    for (a, b) in c1.indices.iter().zip(c2.indices.iter()) {
        assert_eq!(a.buckets, b.buckets);
    }
}

#[test]
fn wordlist_expands_prefix_groups() {
    let pairs = vec![
        ("aa".to_string(), "bbbcccddd".to_string()),
        ("zz".to_string(), "yyy".to_string()),
        ("qq".to_string(), String::new()),
    ];
    let r = extract_wordlist(&pairs);
    assert_eq!(r, words(&["aabbb", "aaccc", "aaddd", "zzyyy"]));
}
