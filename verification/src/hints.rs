//! Feedback ("hint") computation: the five-tile color pattern a guess
//! receives against a candidate word, its base-3 encoding, the inverse
//! decomposition, and the informativeness score used as a tie-breaker.
//!
//! Tiles are numbered 0 = Gray, 1 = Yellow, 2 = Green.

use vstd::prelude::*;

verus! {

/// Number of letters in every word.
pub const WORD_LEN: usize = 5;

/// Number of distinct feedback codes: 3^5.
pub const NUM_BUCKETS: usize = 243;

/// A word is exactly five characters.
pub open spec fn valid_word(w: Seq<char>) -> bool {
    w.len() == 5
}

/// A pattern is five tiles, each Gray (0), Yellow (1) or Green (2).
pub open spec fn valid_pattern(p: Seq<u32>) -> bool {
    &&& p.len() == 5
    &&& forall|i: int| 0 <= i < 5 ==> p[i] <= 2
}

/// Tiles after the green pass: positions where the guess matches exactly
/// are consumed (None); the rest still hold the candidate's letter.
pub open spec fn greens_avail(word: Seq<char>, guess: Seq<char>) -> Seq<Option<char>> {
    Seq::new(word.len(), |i: int| if guess[i] == word[i] { None } else { Some(word[i]) })
}

/// Pattern after the green pass: 2 where the guess matches exactly, else 0.
pub open spec fn green_pattern(word: Seq<char>, guess: Seq<char>) -> Seq<u32> {
    Seq::new(word.len(), |i: int| if guess[i] == word[i] { 2u32 } else { 0u32 })
}

/// Index of the first unconsumed occurrence of `c` at or after `j`, if any.
pub open spec fn first_match(avail: Seq<Option<char>>, c: char, j: nat) -> Option<int>
    decreases avail.len() - j,
{
    if j >= avail.len() {
        None
    } else if avail[j as int] == Some(c) {
        Some(j as int)
    } else {
        first_match(avail, c, (j + 1) as nat)
    }
}

/// State of the yellow pass after handling the first `n` positions:
/// the pattern so far and the remaining unconsumed letters.
pub open spec fn yellow_pass(
    p: Seq<u32>,
    avail: Seq<Option<char>>,
    guess: Seq<char>,
    n: nat,
) -> (Seq<u32>, Seq<Option<char>>)
    decreases n,
{
    if n == 0 {
        (p, avail)
    } else {
        let (p1, a1) = yellow_pass(p, avail, guess, (n - 1) as nat);
        let i = n - 1;
        if p1[i as int] == 0 {
            match first_match(a1, guess[i as int], 0) {
                Some(j) => (p1.update(i as int, 1u32), a1.update(j, None)),
                None => (p1, a1),
            }
        } else {
            (p1, a1)
        }
    }
}

/// The five-tile color pattern `guess` receives against the candidate
/// `word`: greens first, then yellows consuming letter occurrences
/// left to right.
pub open spec fn color_pattern(word: Seq<char>, guess: Seq<char>) -> Seq<u32> {
    yellow_pass(green_pattern(word, guess), greens_avail(word, guess), guess, 5).0
}

/// Index of the first unconsumed occurrence of `c` in `avail`, if any.
fn find_first(avail: &Vec<Option<char>>, c: char) -> (r: Option<usize>)
    ensures
        r == match first_match(avail@, c, 0) {
            Some(j) => Some(j as usize),
            None => None::<usize>,
        },
{
    let n = avail.len();
    let mut k: usize = 0;
    while k < n
        invariant
            k <= n,
            n == avail@.len(),
            first_match(avail@, c, 0) == first_match(avail@, c, k as nat),
        decreases n - k,
    {
        match avail[k] {
            Some(a) => {
                if a == c {
                    return Some(k);
                }
            },
            None => {},
        }
        k = k + 1;
    }
    None
}

/// Two-pass tile scoring of `guess` against the candidate `word`.
pub fn compute_colors(word: &str, guess: &str) -> (pattern: Vec<u32>)
    requires
        valid_word(word@),
        valid_word(guess@),
    ensures
        pattern@ == color_pattern(word@, guess@),
        valid_pattern(pattern@),
{
    let mut pattern: Vec<u32> = Vec::new();
    let mut avail: Vec<Option<char>> = Vec::new();

    // Green pass.
    let mut i: usize = 0;
    while i < 5
        invariant
            i <= 5,
            valid_word(word@),
            valid_word(guess@),
            pattern@ =~= green_pattern(word@, guess@).take(i as int),
            avail@ =~= greens_avail(word@, guess@).take(i as int),
        decreases 5 - i,
    {
        let wc = word.get_char(i);
        let gc = guess.get_char(i);
        if gc == wc {
            pattern.push(2);
            avail.push(None);
        } else {
            pattern.push(0);
            avail.push(Some(wc));
        }
        i = i + 1;
    }
    assert(pattern@ =~= green_pattern(word@, guess@));
    assert(avail@ =~= greens_avail(word@, guess@));

    // Yellow pass.
    let ghost gp = green_pattern(word@, guess@);
    let ghost ga = greens_avail(word@, guess@);
    let mut i: usize = 0;
    while i < 5
        invariant
            i <= 5,
            valid_word(word@),
            valid_word(guess@),
            pattern@.len() == 5,
            avail@.len() == 5,
            (pattern@, avail@) == yellow_pass(gp, ga, guess@, i as nat),
        decreases 5 - i,
    {
        let ghost pre = (pattern@, avail@);
        if pattern[i] == 0 {
            let gc = guess.get_char(i);
            match find_first(&avail, gc) {
                Some(j) => {
                    proof {
                        lemma_first_match_in_range(avail@, gc, 0);
                    }
                    pattern[i] = 1;
                    avail[j] = None;
                },
                None => {},
            }
        }
        proof {
            assert(yellow_pass(gp, ga, guess@, (i + 1) as nat).0 == pattern@);
            assert(yellow_pass(gp, ga, guess@, (i + 1) as nat).1 == avail@);
        }
        i = i + 1;
    }
    proof {
        lemma_color_pattern_valid(word@, guess@);
    }
    pattern
}

/// `color_pattern` always yields five tiles in `{0, 1, 2}`.
pub proof fn lemma_color_pattern_valid(word: Seq<char>, guess: Seq<char>)
    requires
        valid_word(word),
        valid_word(guess),
    ensures
        valid_pattern(color_pattern(word, guess)),
{
    lemma_yellow_pass_valid(green_pattern(word, guess), greens_avail(word, guess), guess, 5);
}

proof fn lemma_yellow_pass_valid(p: Seq<u32>, avail: Seq<Option<char>>, guess: Seq<char>, n: nat)
    requires
        p.len() == 5,
        avail.len() == 5,
        forall|i: int| 0 <= i < 5 ==> p[i] <= 2,
        n <= 5,
    ensures
        yellow_pass(p, avail, guess, n).0.len() == 5,
        yellow_pass(p, avail, guess, n).1.len() == 5,
        forall|i: int| 0 <= i < 5 ==> yellow_pass(p, avail, guess, n).0[i] <= 2,
    decreases n,
{
    if n > 0 {
        lemma_yellow_pass_valid(p, avail, guess, (n - 1) as nat);
        let (p1, a1) = yellow_pass(p, avail, guess, (n - 1) as nat);
        let i = n - 1;
        if p1[i as int] == 0 {
            match first_match(a1, guess[i as int], 0) {
                Some(j) => {
                    lemma_first_match_in_range(a1, guess[i as int], 0);
                },
                None => {},
            }
        }
    }
}

/// Powers of three.
pub open spec fn pow3(n: nat) -> int
    decreases n,
{
    if n == 0 {
        1
    } else {
        3 * pow3((n - 1) as nat)
    }
}

/// Base-3 value of the first `n` tiles, most significant tile first.
pub open spec fn encode_prefix(p: Seq<u32>, n: nat) -> int
    decreases n,
{
    if n == 0 {
        0
    } else {
        encode_prefix(p, (n - 1) as nat) * 3 + p[n - 1]
    }
}

/// The feedback code of a pattern: its five tiles as base-3 digits,
/// most significant first.
pub open spec fn pattern_code(p: Seq<u32>) -> int {
    encode_prefix(p, 5)
}

/// The last `n` base-3 digits of `code`, most significant first.
pub open spec fn decode_rec(code: int, n: nat) -> Seq<u32>
    decreases n,
{
    if n == 0 {
        Seq::empty()
    } else {
        decode_rec(code / 3, (n - 1) as nat).push((code % 3) as u32)
    }
}

/// The pattern a feedback code stands for.
pub open spec fn code_pattern(code: int) -> Seq<u32> {
    decode_rec(code, 5)
}

proof fn lemma_encode_prefix_bounds(p: Seq<u32>, n: nat)
    requires
        valid_pattern(p),
        n <= 5,
    ensures
        0 <= encode_prefix(p, n) < pow3(n),
    decreases n,
{
    if n > 0 {
        lemma_encode_prefix_bounds(p, (n - 1) as nat);
    }
}

/// The feedback code of a valid pattern lies in `[0, 243)`.
pub proof fn lemma_pattern_code_bounds(p: Seq<u32>)
    requires
        valid_pattern(p),
    ensures
        0 <= pattern_code(p) < 243,
{
    lemma_encode_prefix_bounds(p, 5);
    assert(pow3(5) == 243) by {
        assert(pow3(0) == 1);
        assert(pow3(1) == 3);
        assert(pow3(2) == 9);
        assert(pow3(3) == 27);
        assert(pow3(4) == 81);
    }
}

proof fn lemma_decode_encode_prefix(p: Seq<u32>, n: nat)
    requires
        valid_pattern(p),
        n <= 5,
    ensures
        decode_rec(encode_prefix(p, n), n) =~= p.take(n as int),
    decreases n,
{
    if n > 0 {
        lemma_decode_encode_prefix(p, (n - 1) as nat);
        let a = encode_prefix(p, (n - 1) as nat);
        let c = encode_prefix(p, n);
        lemma_encode_prefix_bounds(p, (n - 1) as nat);
        vstd::arithmetic::div_mod::lemma_fundamental_div_mod_converse(
            c,
            3,
            a,
            p[n - 1] as int,
        );
        assert(c / 3 == a && c % 3 == p[n - 1] as int);
        assert(p.take(n as int) =~= p.take(n - 1).push(p[n - 1]));
    }
}

/// Decoding is the inverse of encoding on valid patterns.
pub proof fn lemma_decode_encode(p: Seq<u32>)
    requires
        valid_pattern(p),
    ensures
        code_pattern(pattern_code(p)) == p,
{
    lemma_decode_encode_prefix(p, 5);
    assert(p.take(5) =~= p);
}

/// Decoded patterns are valid.
pub proof fn lemma_code_pattern_valid(code: int)
    requires
        code >= 0,
    ensures
        valid_pattern(code_pattern(code)),
{
    lemma_decode_rec_valid(code, 5);
}

proof fn lemma_decode_rec_valid(code: int, n: nat)
    requires
        code >= 0,
    ensures
        decode_rec(code, n).len() == n,
        forall|i: int| 0 <= i < n ==> decode_rec(code, n)[i] <= 2,
    decreases n,
{
    if n > 0 {
        lemma_decode_rec_valid(code / 3, (n - 1) as nat);
        let s = decode_rec(code, n);
        assert(forall|i: int| 0 <= i < n - 1 ==> s[i] == decode_rec(code / 3, (n - 1) as nat)[i]);
    }
}

/// Encoding of the color pattern: the hint a guess receives against a word.
pub fn compute_wordle_hint(word: &str, guess: &str) -> (code: u32)
    requires
        valid_word(word@),
        valid_word(guess@),
    ensures
        code == pattern_code(color_pattern(word@, guess@)),
        code < 243,
{
    let pattern = compute_colors(word, guess);
    let mut code: u32 = 0;
    let mut i: usize = 0;
    while i < 5
        invariant
            i <= 5,
            valid_pattern(pattern@),
            code == encode_prefix(pattern@, i as nat),
            code < pow3(i as nat),
            pow3(i as nat) <= 243,
        decreases 5 - i,
    {
        proof {
            lemma_encode_prefix_bounds(pattern@, (i + 1) as nat);
            assert(pow3((i + 1) as nat) <= 243) by {
                lemma_pow3_le_243((i + 1) as nat);
            }
        }
        code = code * 3 + pattern[i];
        i = i + 1;
    }
    code
}

proof fn lemma_pow3_le_243(n: nat)
    requires
        n <= 5,
    ensures
        pow3(n) <= 243,
{
    assert(pow3(0) == 1);
    assert(pow3(1) == 3);
    assert(pow3(2) == 9);
    assert(pow3(3) == 27);
    assert(pow3(4) == 81);
    assert(pow3(5) == 243);
}

/// Inverse decomposition of a hint into its five tiles, by repeated
/// division by three from the least significant tile.
pub fn hint_to_pattern(hint: u32) -> (pattern: Vec<u32>)
    ensures
        pattern@ == code_pattern(hint as int),
        valid_pattern(pattern@),
{
    let mut pattern: Vec<u32> = Vec::new();
    pattern.push(0);
    pattern.push(0);
    pattern.push(0);
    pattern.push(0);
    pattern.push(0);
    let mut n: u32 = hint;
    let mut i: usize = 0;
    while i < 5
        invariant
            i <= 5,
            pattern@.len() == 5,
            code_pattern(hint as int) =~= decode_rec(n as int, (5 - i) as nat) + pattern@.subrange(
                5 - i,
                5,
            ),
        decreases 5 - i,
    {
        let ghost pre = pattern@;
        let ghost n0 = n as int;
        pattern[4 - i] = n % 3;
        n = n / 3;
        proof {
            assert(decode_rec(n0, (5 - i) as nat) == decode_rec(n0 / 3, (4 - i) as nat).push(
                (n0 % 3) as u32,
            ));
            assert(decode_rec(n0, (5 - i) as nat) + pre.subrange(5 - i, 5) =~= decode_rec(
                n as int,
                (4 - i) as nat,
            ) + pattern@.subrange(4 - i, 5));
        }
        i = i + 1;
    }
    proof {
        assert(code_pattern(hint as int) =~= pattern@.subrange(0, 5));
        assert(pattern@.subrange(0, 5) =~= pattern@);
        lemma_code_pattern_valid(hint as int);
    }
    pattern
}

/// Decoding the encoded color pattern of any pair of words gives that
/// pattern back.
pub proof fn lemma_hint_round_trip(word: Seq<char>, guess: Seq<char>)
    requires
        valid_word(word),
        valid_word(guess),
    ensures
        code_pattern(pattern_code(color_pattern(word, guess))) == color_pattern(word, guess),
{
    lemma_color_pattern_valid(word, guess);
    lemma_decode_encode(color_pattern(word, guess));
}

/// Startup sanity check: computes a color pattern, encodes it, decodes
/// the code, and compares.  Always true of this encoder; a cheap
/// regression guard before a long run.
pub fn check_hint_round_trip(word: &str, guess: &str) -> (ok: bool)
    requires
        valid_word(word@),
        valid_word(guess@),
    ensures
        ok,
{
    let pattern = compute_colors(word, guess);
    let hint = compute_wordle_hint(word, guess);
    let decoded = hint_to_pattern(hint);
    proof {
        lemma_hint_round_trip(word@, guess@);
    }
    let mut i: usize = 0;
    while i < 5
        invariant
            i <= 5,
            pattern@.len() == 5,
            decoded@ == pattern@,
        decreases 5 - i,
    {
        if pattern[i] != decoded[i] {
            proof {
                assert(false);
            }
            return false;
        }
        i = i + 1;
    }
    true
}

/// Powers of ten.
pub open spec fn pow10(n: nat) -> int
    decreases n,
{
    if n == 0 {
        1
    } else {
        10 * pow10((n - 1) as nat)
    }
}

/// Score contributed by tile `t` at position `i`: a dominant term that
/// rewards more informative colors, and a secondary term that rewards
/// earlier positions.
pub open spec fn tb_term(t: u32, i: int) -> int {
    pow10((5 + t) as nat) + t * pow10((4 - i) as nat)
}

/// Total score of the first `n` tiles.
pub open spec fn tb_prefix(p: Seq<u32>, n: nat) -> int
    decreases n,
{
    if n == 0 {
        0
    } else {
        tb_prefix(p, (n - 1) as nat) + tb_term(p[n - 1], n - 1)
    }
}

/// The informativeness score of a feedback code, used only to break ties:
/// Green outranks Yellow outranks Gray, and among equal colors an earlier
/// position scores higher.
pub open spec fn informativeness(code: int) -> int {
    tb_prefix(code_pattern(code), 5)
}

proof fn lemma_pow10_values()
    ensures
        pow10(0) == 1,
        pow10(1) == 10,
        pow10(2) == 100,
        pow10(3) == 1000,
        pow10(4) == 10000,
        pow10(5) == 100000,
        pow10(6) == 1000000,
        pow10(7) == 10000000,
{
    assert(pow10(0) == 1);
    assert(pow10(1) == 10);
    assert(pow10(2) == 100);
    assert(pow10(3) == 1000);
    assert(pow10(4) == 10000);
    assert(pow10(5) == 100000);
    assert(pow10(6) == 1000000);
    assert(pow10(7) == 10000000);
}

proof fn lemma_tb_term_bounds(t: u32, i: int)
    requires
        t <= 2,
        0 <= i < 5,
    ensures
        100000 <= tb_term(t, i) <= 10020000,
{
    lemma_pow10_values();
    lemma_pow10_le((4 - i) as nat, 4);
    if t == 0 {
        assert(tb_term(t, i) == pow10(5));
    } else if t == 1 {
        assert(tb_term(t, i) == pow10(6) + pow10((4 - i) as nat));
    } else {
        assert(tb_term(t, i) == pow10(7) + 2 * pow10((4 - i) as nat));
    }
}

fn pow10_exec(e: u32) -> (r: u64)
    requires
        e <= 7,
    ensures
        r == pow10(e as nat),
{
    proof {
        lemma_pow10_values();
    }
    let mut r: u64 = 1;
    let mut k: u32 = 0;
    while k < e
        invariant
            k <= e <= 7,
            r == pow10(k as nat),
            r <= 10000000,
        decreases e - k,
    {
        proof {
            lemma_pow10_values();
            lemma_pow10_le(k as nat, e as nat);
            lemma_pow10_le((k + 1) as nat, e as nat);
        }
        r = r * 10;
        k = k + 1;
    }
    r
}

proof fn lemma_pow10_le(a: nat, b: nat)
    requires
        a <= b,
    ensures
        pow10(a) <= pow10(b),
        pow10(a) >= 1,
    decreases b,
{
    if b > 0 {
        if a == b {
            lemma_pow10_le((a - 1) as nat, (b - 1) as nat);
        } else {
            lemma_pow10_le(a, (b - 1) as nat);
        }
    }
}

/// Informativeness score of a hint.
pub fn compute_tie_breaker(hint: u32) -> (score: u64)
    ensures
        score == informativeness(hint as int),
{
    let pattern = hint_to_pattern(hint);
    let mut score: u64 = 0;
    let mut i: usize = 0;
    while i < 5
        invariant
            i <= 5,
            pattern@ == code_pattern(hint as int),
            valid_pattern(pattern@),
            score == tb_prefix(pattern@, i as nat),
            score <= 51000000,
        decreases 5 - i,
    {
        let tile = pattern[i];
        proof {
            lemma_pow10_values();
            lemma_tb_term_bounds(tile, i as int);
            lemma_tb_prefix_bounds(pattern@, i as nat);
            lemma_tb_prefix_bounds(pattern@, (i + 1) as nat);
            lemma_pow10_le((4 - i) as nat, 4);
        }
        let term1 = pow10_exec(5 + tile);
        let term2 = (tile as u64) * pow10_exec(4 - (i as u32));
        score = score + term1 + term2;
        i = i + 1;
    }
    score
}

proof fn lemma_tb_prefix_bounds(p: Seq<u32>, n: nat)
    requires
        valid_pattern(p),
        n <= 5,
    ensures
        0 <= tb_prefix(p, n) <= n * 10020000,
    decreases n,
{
    if n > 0 {
        lemma_tb_prefix_bounds(p, (n - 1) as nat);
        lemma_tb_term_bounds(p[n - 1], n - 1);
    }
}

proof fn lemma_tb_prefix_diff(p: Seq<u32>, q: Seq<u32>, i: int, n: nat)
    requires
        valid_pattern(p),
        valid_pattern(q),
        0 <= i < 5,
        forall|k: int| 0 <= k < 5 && k != i ==> p[k] == q[k],
        n <= 5,
    ensures
        tb_prefix(p, n) - tb_prefix(q, n) == if i < n {
            tb_term(p[i], i) - tb_term(q[i], i)
        } else {
            0
        },
    decreases n,
{
    if n > 0 {
        lemma_tb_prefix_diff(p, q, i, (n - 1) as nat);
    }
}

/// Informativeness is strictly decreasing as a tile degrades from
/// Green toward Gray at any fixed position, the other tiles held constant.
pub proof fn lemma_informativeness_strict(p: Seq<u32>, q: Seq<u32>, i: int)
    requires
        valid_pattern(p),
        valid_pattern(q),
        0 <= i < 5,
        forall|k: int| 0 <= k < 5 && k != i ==> p[k] == q[k],
        p[i] > q[i],
    ensures
        informativeness(pattern_code(p)) > informativeness(pattern_code(q)),
{
    lemma_decode_encode(p);
    lemma_decode_encode(q);
    lemma_tb_prefix_diff(p, q, i, 5);
    lemma_tb_term_strict(q[i], p[i], i);
}

proof fn lemma_tb_term_strict(tlo: u32, thi: u32, i: int)
    requires
        tlo < thi <= 2,
        0 <= i < 5,
    ensures
        tb_term(thi, i) > tb_term(tlo, i),
{
    lemma_pow10_values();
    lemma_pow10_le((4 - i) as nat, 4);
    let d = pow10((4 - i) as nat);
    assert(1 <= d <= 10000);
    if thi == 1 {
        assert(tb_term(1, i) == pow10(6) + d);
        assert(tb_term(0, i) == pow10(5));
    } else {
        assert(tb_term(2, i) == pow10(7) + 2 * d);
        if tlo == 0 {
            assert(tb_term(0, i) == pow10(5));
        } else {
            assert(tb_term(1, i) == pow10(6) + d);
        }
    }
}

/// A word guessed against itself scores all Green, whose code is 242.
pub proof fn lemma_self_guess_all_green(w: Seq<char>)
    requires
        valid_word(w),
    ensures
        color_pattern(w, w) =~= Seq::new(5, |i: int| 2u32),
        pattern_code(color_pattern(w, w)) == 242,
{
    let gp = green_pattern(w, w);
    let ga = greens_avail(w, w);
    lemma_yellow_pass_id(gp, ga, w, 5);
    assert(color_pattern(w, w) =~= Seq::new(5, |i: int| 2u32));
    let p = color_pattern(w, w);
    assert(encode_prefix(p, 0) == 0);
    assert(encode_prefix(p, 1) == 2);
    assert(encode_prefix(p, 2) == 8);
    assert(encode_prefix(p, 3) == 26);
    assert(encode_prefix(p, 4) == 80);
    assert(encode_prefix(p, 5) == 242);
}

proof fn lemma_yellow_pass_id(p: Seq<u32>, avail: Seq<Option<char>>, guess: Seq<char>, n: nat)
    requires
        p.len() == 5,
        n <= 5,
        forall|i: int| 0 <= i < 5 ==> p[i] != 0,
    ensures
        yellow_pass(p, avail, guess, n) == (p, avail),
    decreases n,
{
    if n > 0 {
        lemma_yellow_pass_id(p, avail, guess, (n - 1) as nat);
    }
}

/// A found match lies within the sequence and holds the sought letter;
/// nothing before it does.
pub proof fn lemma_first_match_in_range(avail: Seq<Option<char>>, c: char, j: nat)
    requires
        j <= avail.len(),
    ensures
        match first_match(avail, c, j) {
            Some(k) => {
                &&& j <= k < avail.len()
                &&& avail[k] == Some(c)
                &&& forall|m: int| j <= m < k ==> avail[m] != Some(c)
            },
            None => forall|m: int| j <= m < avail.len() ==> avail[m] != Some(c),
        },
    decreases avail.len() - j,
{
    if j < avail.len() && avail[j as int] != Some(c) {
        lemma_first_match_in_range(avail, c, (j + 1) as nat);
    }
}

} // verus!
