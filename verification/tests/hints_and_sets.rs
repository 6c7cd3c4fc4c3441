use absurdle::bitset::first_one;
use absurdle::bitset::intersect;
use absurdle::bitset::intersect_count_bounded;
use absurdle::bitset::intersect_in_place;
use absurdle::bitset::intersect_size;
use absurdle::bitset::popcount;
use absurdle::bitset::set_bit;
use absurdle::bitset::universal_set;
use absurdle::hints::check_hint_round_trip;
use absurdle::hints::compute_colors;
use absurdle::hints::compute_tie_breaker;
use absurdle::hints::compute_wordle_hint;
use absurdle::hints::hint_to_pattern;

#[test]
fn self_guess_is_all_green() {
    for w in ["abcde", "clash", "aabbb"] {
        assert_eq!(compute_colors(w, w), vec![2, 2, 2, 2, 2]);
        assert_eq!(compute_wordle_hint(w, w), 242);
    }
}

#[test]
fn reversed_word_scenario() {
    // "abcde" against "edcba": both outer pairs are transposed
    // (yellow), the middle letter matches exactly (green).
    assert_eq!(compute_colors("abcde", "edcba"), vec![1, 1, 2, 1, 1]);
    assert_eq!(compute_wordle_hint("abcde", "edcba"), 130);
}

#[test]
fn repeated_letters_consume_occurrences() {
    // "batch" against "clash": c yellow, l gray, a yellow, s gray, h green.
    assert_eq!(compute_colors("batch", "clash"), vec![1, 0, 1, 0, 2]);
    // One 'a' in the answer: the second 'a' of the guess stays gray.
    assert_eq!(compute_colors("abcde", "aaaaa"), vec![2, 0, 0, 0, 0]);
    // Two 'b's in the answer: only two guessed 'b's go yellow.
    assert_eq!(compute_colors("bbcde", "xbbbb"), vec![0, 2, 1, 0, 0]);
}

#[test]
fn decode_inverts_encode() {
    for (w, g) in [("abcde", "edcba"), ("clash", "batch"), ("aabbb", "babab")] {
        let pattern = compute_colors(w, g);
        let hint = compute_wordle_hint(w, g);
        assert_eq!(hint_to_pattern(hint), pattern);
        assert!(check_hint_round_trip(w, g));
    }
    assert_eq!(hint_to_pattern(0), vec![0, 0, 0, 0, 0]);
    assert_eq!(hint_to_pattern(242), vec![2, 2, 2, 2, 2]);
    assert_eq!(hint_to_pattern(130), vec![1, 1, 2, 1, 1]);
}

#[test]
fn tie_breaker_exact_values() {
    // All gray: five dominant terms of 10^5, no positional term.
    assert_eq!(compute_tie_breaker(0), 500_000);
    // All green: five terms of 10^7 plus 2 * 11111.
    assert_eq!(compute_tie_breaker(242), 50_022_222);
}

#[test]
fn tie_breaker_strictly_ranks_tile_degradation() {
    // Degrade one tile at each fixed position, other tiles constant.
    for pos in 0..5 {
        for (hi, lo) in [(2u32, 1u32), (1, 0), (2, 0)] {
            let mut phi = [0u32; 5];
            let mut plo = [0u32; 5];
            phi[pos] = hi;
            plo[pos] = lo;
            let encode = |p: [u32; 5]| p.iter().fold(0u32, |acc, &d| acc * 3 + d);
            assert!(
                compute_tie_breaker(encode(phi)) > compute_tie_breaker(encode(plo)),
                "position {pos}: tile {hi} must outscore tile {lo}"
            );
        }
    }
}

#[test]
fn intersect_counts_common_bits() {
    let a: Vec<u64> = vec![0b1011, 1 << 63];
    let b: Vec<u64> = vec![0b0110, (1 << 63) | 1];
    assert_eq!(intersect_size(&a, &b), 2);
    assert_eq!(intersect(&a, &b), vec![0b0010, 1 << 63]);
    assert_eq!(popcount(&a), 4);
    let mut c = a.clone();
    intersect_in_place(&mut c, &b);
    assert_eq!(c, vec![0b0010, 1 << 63]);
}

#[test]
fn bounded_count_agrees_with_exact_count() {
    let a: Vec<u64> = vec![u64::MAX, 0xff, 0];
    let b: Vec<u64> = vec![u64::MAX, 0x0f, 1];
    let exact = intersect_size(&a, &b);
    assert_eq!(exact, 68);
    for bound in [0usize, 1, 2, 67, 68, 69, 243] {
        let r = intersect_count_bounded(&a, &b, bound);
        assert_eq!(r > bound, exact > bound, "bound {bound}");
        if r <= bound {
            assert_eq!(r, exact);
        }
    }
}

#[test]
fn set_bit_touches_exactly_one_bit() {
    let mut words: Vec<u64> = vec![0, 0];
    set_bit(&mut words, 65);
    assert_eq!(words, vec![0, 2]);
    set_bit(&mut words, 0);
    assert_eq!(words, vec![1, 2]);
    set_bit(&mut words, 0);
    assert_eq!(words, vec![1, 2]);
}

#[test]
fn first_one_finds_the_lowest_set_bit() {
    assert_eq!(first_one(&vec![0, 0]), None);
    assert_eq!(first_one(&vec![0, 8]), Some(67));
    assert_eq!(first_one(&vec![4, 8]), Some(2));
}

#[test]
fn universal_set_covers_the_pool_exactly() {
    let u = universal_set(130);
    assert_eq!(u.len(), 3);
    assert_eq!(u, vec![u64::MAX, u64::MAX, 3]);
    assert_eq!(popcount(&u), 130);
    let u64w = universal_set(64);
    assert_eq!(u64w, vec![u64::MAX]);
    let empty = universal_set(0);
    assert_eq!(empty.len(), 0);
}
