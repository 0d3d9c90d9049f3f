use vstd::prelude::*;
use crate::bits::BitSet;
use crate::words::{is_letter, is_letter_word, letter_to_index, N_CHARS, N_LETTERS};

verus! {

pub const B: u8 = 66;

pub const Y: u8 = 89;

pub const G: u8 = 71;

pub const B_IDX: usize = 0;

pub const Y_IDX: usize = 1;

pub const G_IDX: usize = 2;

/// Response character for each digit: black, yellow, green.
pub const IDX_TO_RESP_CHAR: [u8; 3] = [B, Y, G];

/// Digit for each response character, looked up by its two low bits.
pub const CHAR_TO_RESP_IDX: [usize; 4] = [0, Y_IDX, B_IDX, G_IDX];

/// 3^N_CHARS.
pub const N_RESPONSES: usize = 243;

pub const POWERS_OF_3: [usize; N_CHARS] = [1, 3, 9, 27, 81];

pub const CORRECT: [u8; N_CHARS] = [G, G, G, G, G];

pub const CORRECT_IDX: usize = 242;

/// A byte is a response character (B, Y, G).
pub open spec fn is_resp(c: u8) -> bool {
    c == B || c == Y || c == G
}

/// Every character of `r` is a response character.
pub open spec fn is_resp_word(r: Seq<u8>) -> bool {
    forall|i: int| 0 <= i < r.len() ==> is_resp(#[trigger] r[i])
}

/// The digit of a response character: B = 0, Y = 1, G = 2 (read from its two low bits).
pub open spec fn resp_digit(c: u8) -> nat {
    if c % 4 == 1 {
        1
    } else if c % 4 == 3 {
        2
    } else {
        0
    }
}

/// The response character of a digit.
pub open spec fn digit_char(d: int) -> u8 {
    if d == 0 {
        B
    } else if d == 1 {
        Y
    } else {
        G
    }
}

/// The base-3 number whose digit `i` (least significant first) is the digit of `r[i]`.
pub open spec fn spec_response_index(r: Seq<u8>) -> nat {
    resp_digit(r[0]) + 3 * resp_digit(r[1]) + 9 * resp_digit(r[2]) + 27 * resp_digit(r[3]) + 81
        * resp_digit(r[4])
}

/// Digit `i` of `index` in base 3.
pub open spec fn base3_digit(index: nat, i: int) -> int {
    if i == 0 {
        (index % 3) as int
    } else if i == 1 {
        ((index / 3) % 3) as int
    } else if i == 2 {
        ((index / 9) % 3) as int
    } else if i == 3 {
        ((index / 27) % 3) as int
    } else {
        ((index / 81) % 3) as int
    }
}

/// The response whose digit `i` is digit `i` of `index` in base 3.
pub open spec fn spec_index_response(index: nat) -> Seq<u8> {
    Seq::new(N_CHARS as nat, |i: int| digit_char(base3_digit(index, i)))
}

// ---------------------------------------------------------------------------
// The response function.
/// Position `j` is green: the guess and the candidate hold the same letter there.
pub open spec fn is_green(guess: Seq<u8>, cand: Seq<u8>, j: int) -> bool {
    guess[j] == cand[j]
}

/// Positions `j < n` where `w` holds letter `l`.
pub open spec fn count_letter(w: Seq<u8>, l: u8, n: int) -> nat
    decreases n,
{
    if n <= 0 {
        0
    } else {
        count_letter(w, l, n - 1) + if w[n - 1] == l { 1nat } else { 0nat }
    }
}

/// Green positions `j < n` that hold letter `l`.
pub open spec fn count_green(guess: Seq<u8>, cand: Seq<u8>, l: u8, n: int) -> nat
    decreases n,
{
    if n <= 0 {
        0
    } else {
        count_green(guess, cand, l, n - 1) + if cand[n - 1] == l && is_green(guess, cand, n - 1) {
            1nat
        } else {
            0nat
        }
    }
}

/// Non-green positions `j < n` of `w` (the guess or the candidate) that hold letter `l`.
pub open spec fn count_non_green(w: Seq<u8>, guess: Seq<u8>, cand: Seq<u8>, l: u8, n: int) -> nat
    decreases n,
{
    if n <= 0 {
        0
    } else {
        count_non_green(w, guess, cand, l, n - 1) + if w[n - 1] == l && !is_green(guess, cand, n - 1) {
            1nat
        } else {
            0nat
        }
    }
}

/// Non-green positions before `i` in the guess that hold letter `l`.
pub open spec fn rank_before(guess: Seq<u8>, cand: Seq<u8>, i: int, l: u8) -> nat {
    count_non_green(guess, guess, cand, l, i)
}

/// Non-green positions of the candidate that hold letter `l`.
pub open spec fn unmatched(guess: Seq<u8>, cand: Seq<u8>, l: u8) -> nat {
    count_non_green(cand, guess, cand, l, N_CHARS as int)
}

proof fn lemma_count_letter_split(guess: Seq<u8>, cand: Seq<u8>, l: u8, n: int)
    ensures
        count_letter(cand, l, n) == count_green(guess, cand, l, n) + count_non_green(cand, guess, cand, l, n),
    decreases n,
{
    if n > 0 {
        lemma_count_letter_split(guess, cand, l, n - 1);
    }
}

proof fn lemma_count_green_monotone(guess: Seq<u8>, cand: Seq<u8>, l: u8, m: int, n: int)
    requires
        m <= n,
    ensures
        count_green(guess, cand, l, m) <= count_green(guess, cand, l, n),
    decreases n - m,
{
    if m < n {
        lemma_count_green_monotone(guess, cand, l, m, n - 1);
    }
}

proof fn lemma_count_letter_bound(w: Seq<u8>, l: u8, n: int)
    ensures
        count_letter(w, l, n) <= if n < 0 { 0 } else { n },
    decreases n,
{
    if n > 0 {
        lemma_count_letter_bound(w, l, n - 1);
    }
}

/// Wordle's colour at position `i`: green on a match; otherwise yellow while the
/// candidate still has an unmatched copy of the letter left for this occurrence
/// (earlier non-green occurrences take them first); otherwise black.
pub open spec fn response_char(guess: Seq<u8>, cand: Seq<u8>, i: int) -> u8 {
    if is_green(guess, cand, i) {
        G
    } else if rank_before(guess, cand, i, guess[i]) < unmatched(guess, cand, guess[i]) {
        Y
    } else {
        B
    }
}

/// The response Wordle gives to `guess` when `cand` is the secret word.
pub open spec fn wordle_response(guess: Seq<u8>, cand: Seq<u8>) -> Seq<u8> {
    Seq::new(N_CHARS as nat, |i: int| response_char(guess, cand, i))
}

/// Checks if a given byte is a response character (B, Y, G).
pub fn is_resp_char(c: u8) -> (r: bool)
    ensures
        r == is_resp(c),
{
    (c == B) || (c == Y) || (c == G)
}

/// Converts a Wordle response [B, Y, G, ...] to a unique index 0-242.
pub fn response_to_index(response: &[u8; N_CHARS]) -> (r: usize)
    ensures
        r == spec_response_index(response@),
        r < N_RESPONSES,
{
    let mut index: usize = 0;
    let mut i: usize = 0;
    while i < N_CHARS
        invariant
            0 <= i <= N_CHARS,
            response@.len() == N_CHARS,
            index == partial_index(response@, i as int),
            index <= partial_bound(i as int),
        decreases N_CHARS - i,
    {
        let byte = response[i];
        let low = byte & 3u8;
        assert(byte & 3u8 == byte % 4) by (bit_vector);
        let val = CHAR_TO_RESP_IDX[low as usize];
        assert(val == resp_digit(byte));
        let p = POWERS_OF_3[i];
        proof {
            assert(p == pow3(i as int));
            assert(val <= 2);
            assert(val * p <= 2 * pow3(i as int)) by (nonlinear_arith)
                requires val <= 2, p == pow3(i as int), pow3(i as int) >= 0;
        }
        index = index + val * p;
        i += 1;
    }
    proof {
        reveal_with_fuel(partial_index, 6);
    }
    index
}

/// 3^i for i < 5.
pub open spec fn pow3(i: int) -> int {
    if i == 0 {
        1
    } else if i == 1 {
        3
    } else if i == 2 {
        9
    } else if i == 3 {
        27
    } else if i == 4 {
        81
    } else {
        243
    }
}

/// The index contributed by the first `i` characters.
pub open spec fn partial_index(r: Seq<u8>, i: int) -> int
    decreases i,
{
    if i <= 0 {
        0
    } else {
        partial_index(r, i - 1) + resp_digit(r[i - 1]) * pow3(i - 1)
    }
}

/// 3^i - 1.
pub open spec fn partial_bound(i: int) -> int {
    if i == 0 {
        0
    } else if i == 1 {
        2
    } else if i == 2 {
        8
    } else if i == 3 {
        26
    } else if i == 4 {
        80
    } else {
        242
    }
}

/// The response whose base-3 digits are those of `index`.
pub fn index_to_response(index: usize) -> (r: [u8; N_CHARS])
    ensures
        r@ == spec_index_response(index as nat),
        is_resp_word(r@),
{
    let mut response = [0u8; N_CHARS];
    let mut cur = index;
    assert(index as nat / 1 == index);
    let mut i: usize = 0;
    while i < N_CHARS
        invariant
            0 <= i <= N_CHARS,
            response@.len() == N_CHARS,
            cur == index as nat / pow3(i as int) as nat,
            forall|k: int| 0 <= k < i ==> response@[k] == digit_char(base3_digit(index as nat, k)),
        decreases N_CHARS - i,
    {
        let q = cur / 3;
        let d = cur % 3;
        proof {
            lemma_div_pow3(index as nat, i as int);
        }
        response[i] = IDX_TO_RESP_CHAR[d];
        cur = q;
        i += 1;
    }
    assert(response@ =~= spec_index_response(index as nat));
    response
}

proof fn lemma_div_pow3(x: nat, i: int)
    requires
        0 <= i < 5,
    ensures
        (x / pow3(i) as nat) % 3 == base3_digit(x, i),
        (x / pow3(i) as nat) / 3 == x / pow3(i + 1) as nat,
{
    vstd::arithmetic::div_mod::lemma_div_denominator(x as int, pow3(i), 3);
}

/// Computes the response for a given (guess, candidate) pair.
pub fn get_resp(guess: &[u8; N_CHARS], candidate: &[u8; N_CHARS]) -> (r: [u8; N_CHARS])
    requires
        is_letter_word(guess@),
        is_letter_word(candidate@),
    ensures
        r@ == wordle_response(guess@, candidate@),
        forall|i: int| 0 <= i < N_CHARS ==> (#[trigger] r@[i] == G <==> guess@[i] == candidate@[i]),
        forall|l: u8| #[trigger] colored_count(r@, guess@, l, N_CHARS as int)
            == min_nat(count_letter(guess@, l, N_CHARS as int), count_letter(candidate@, l, N_CHARS as int)),
        forall|i: int, j: int| 0 <= i < j < N_CHARS && guess@[i] == guess@[j] && guess@[i] != candidate@[i]
            && #[trigger] r@[j] == Y ==> #[trigger] r@[i] == Y,
{
    proof {
        lemma_response_rules(guess@, candidate@);
    }
    let ghost g = guess@;
    let ghost c = candidate@;
    // Count letters in the candidate.
    let mut cand_counts = [0u8; N_LETTERS];
    let mut k: usize = 0;
    while k < N_CHARS
        invariant
            0 <= k <= N_CHARS,
            g == guess@,
            c == candidate@,
            g.len() == N_CHARS,
            c.len() == N_CHARS,
            is_letter_word(c),
            cand_counts@.len() == N_LETTERS,
            forall|l: int| 0 <= l < N_LETTERS ==> #[trigger] cand_counts@[l] == count_letter(c, (l + 65) as u8, k as int),
        decreases N_CHARS - k,
    {
        let letter = candidate[k];
        assert(is_letter(c[k as int]));
        let li = letter_to_index(letter);
        proof {
            lemma_count_letter_bound(c, (li + 65) as u8, k as int);
        }
        let cur = cand_counts[li];
        cand_counts[li] = cur + 1;
        k += 1;
    }

    let mut response = [B; N_CHARS];
    // First pass: greens.
    let mut i: usize = 0;
    while i < N_CHARS
        invariant
            0 <= i <= N_CHARS,
            g == guess@,
            c == candidate@,
            g.len() == N_CHARS,
            c.len() == N_CHARS,
            is_letter_word(c),
            is_letter_word(g),
            cand_counts@.len() == N_LETTERS,
            response@.len() == N_CHARS,
            forall|l: int| 0 <= l < N_LETTERS ==> #[trigger] cand_counts@[l] + count_green(g, c, (l + 65) as u8, i as int)
                == count_letter(c, (l + 65) as u8, N_CHARS as int),
            forall|j: int| 0 <= j < i ==> response@[j] == if is_green(g, c, j) { G } else { B },
            forall|j: int| i <= j < N_CHARS ==> response@[j] == B,
        decreases N_CHARS - i,
    {
        if guess[i] == candidate[i] {
            response[i] = G;
            let li = letter_to_index(guess[i]);
            proof {
                let lu = (li + 65) as u8;
                assert(cand_counts@[li as int] + count_green(g, c, lu, i as int) == count_letter(c, lu, N_CHARS as int));
                lemma_count_letter_split(g, c, lu, N_CHARS as int);
                lemma_count_green_monotone(g, c, lu, i + 1, N_CHARS as int);
            }
            let cur = cand_counts[li];
            cand_counts[li] = cur - 1;
        }
        i += 1;
    }

    // Unmatched candidate letters after the greens.
    assert forall|l: int| 0 <= l < N_LETTERS implies #[trigger] cand_counts@[l] == unmatched(g, c, (l + 65) as u8) by {
        lemma_count_letter_split(g, c, (l + 65) as u8, N_CHARS as int);
    }

    // Second pass: yellows.
    let mut i: usize = 0;
    while i < N_CHARS
        invariant
            0 <= i <= N_CHARS,
            g == guess@,
            c == candidate@,
            g.len() == N_CHARS,
            c.len() == N_CHARS,
            is_letter_word(c),
            is_letter_word(g),
            cand_counts@.len() == N_LETTERS,
            response@.len() == N_CHARS,
            forall|l: int| 0 <= l < N_LETTERS ==> #[trigger] cand_counts@[l] == if rank_before(g, c, i as int, (l + 65) as u8) < unmatched(g, c, (l + 65) as u8) {
                unmatched(g, c, (l + 65) as u8) - rank_before(g, c, i as int, (l + 65) as u8)
            } else {
                0
            },
            forall|j: int| 0 <= j < i ==> response@[j] == response_char(g, c, j),
            forall|j: int| i <= j < N_CHARS ==> response@[j] == if is_green(g, c, j) { G } else { B },
        decreases N_CHARS - i,
    {
        let ghost gl = g[i as int];
        assert(is_letter(gl));
        if response[i] != G {
            let li = letter_to_index(guess[i]);
            assert((li + 65) as u8 == gl);
            if cand_counts[li] > 0 {
                response[i] = Y;
                let cur = cand_counts[li];
                cand_counts[li] = cur - 1;
            }
        }
        i += 1;
    }
    assert(response@ =~= wordle_response(g, c));
    response
}

/// Reading a response's index back as a response gives the index's response:
/// `index_to_response` undoes `response_to_index` on every index below `N_RESPONSES`.
pub proof fn lemma_index_round_trip(i: nat)
    requires
        i < N_RESPONSES,
    ensures
        spec_response_index(spec_index_response(i)) == i,
{
    let r = spec_index_response(i);
    assert(resp_digit(B) == 0 && resp_digit(Y) == 1 && resp_digit(G) == 2);
    assert(resp_digit(r[0]) == i % 3);
    assert(resp_digit(r[1]) == (i / 3) % 3);
    assert(resp_digit(r[2]) == (i / 9) % 3);
    assert(resp_digit(r[3]) == (i / 27) % 3);
    assert(resp_digit(r[4]) == (i / 81) % 3);
    assert(i % 3 + 3 * ((i / 3) % 3) + 9 * ((i / 9) % 3) + 27 * ((i / 27) % 3) + 81 * ((i / 81) % 3) == i);
}

/// The base-3 digits of a five-digit number.
proof fn lemma_base3_digits(d0: int, d1: int, d2: int, d3: int, d4: int)
    requires
        0 <= d0 <= 2,
        0 <= d1 <= 2,
        0 <= d2 <= 2,
        0 <= d3 <= 2,
        0 <= d4 <= 2,
    ensures
        ({
            let x = d0 + 3 * d1 + 9 * d2 + 27 * d3 + 81 * d4;
            &&& x % 3 == d0
            &&& (x / 3) % 3 == d1
            &&& (x / 9) % 3 == d2
            &&& (x / 27) % 3 == d3
            &&& (x / 81) % 3 == d4
        }),
{
    let x = d0 + 3 * d1 + 9 * d2 + 27 * d3 + 81 * d4;
    assert(x / 3 == d1 + 3 * d2 + 9 * d3 + 27 * d4);
    assert(x / 9 == d2 + 3 * d3 + 9 * d4);
    assert(x / 27 == d3 + 3 * d4);
    assert(x / 81 == d4);
}

/// `response_to_index` is undone by `index_to_response` on every response made of B, Y and G.
#[verifier::spinoff_prover]
pub proof fn lemma_response_round_trip(r: Seq<u8>)
    requires
        r.len() == N_CHARS,
        is_resp_word(r),
    ensures
        spec_index_response(spec_response_index(r)) == r,
{
    let q = |d: int| if d == 0 { B } else if d == 1 { Y } else { G };
    assert(is_resp(r[0]) && is_resp(r[1]) && is_resp(r[2]) && is_resp(r[3]) && is_resp(r[4]));
    let d = |k: int| if r[k] == B { 0int } else if r[k] == Y { 1int } else { 2int };
    assert forall|k: int| 0 <= k < 5 implies r[k] == #[trigger] q(d(k)) && resp_digit(r[k]) == d(k) by {}
    let x = d(0) + 3 * d(1) + 9 * d(2) + 27 * d(3) + 81 * d(4);
    assert(x == spec_response_index(r));
    lemma_base3_digits(d(0), d(1), d(2), d(3), d(4));
    assert(spec_index_response(x as nat) =~= r);
}

/// Every character of a response is B, Y or G.
pub proof fn lemma_response_chars(guess: Seq<u8>, cand: Seq<u8>)
    ensures
        is_resp_word(wordle_response(guess, cand)),
        wordle_response(guess, cand).len() == N_CHARS,
{
}

/// Positions `j < n` coloured green or yellow in `r` whose guess letter is `l`.
pub open spec fn colored_count(r: Seq<u8>, guess: Seq<u8>, l: u8, n: int) -> nat
    decreases n,
{
    if n <= 0 {
        0
    } else {
        colored_count(r, guess, l, n - 1) + if guess[n - 1] == l && (r[n - 1] == G || r[n - 1] == Y) { 1nat } else { 0nat }
    }
}

/// The smaller of two naturals.
pub open spec fn min_nat(a: nat, b: nat) -> nat {
    if a <= b { a } else { b }
}

proof fn lemma_guess_split(guess: Seq<u8>, cand: Seq<u8>, l: u8, n: int)
    ensures
        count_letter(guess, l, n) == count_green(guess, cand, l, n) + count_non_green(guess, guess, cand, l, n),
    decreases n,
{
    if n > 0 {
        lemma_guess_split(guess, cand, l, n - 1);
    }
}

proof fn lemma_non_green_monotone(guess: Seq<u8>, cand: Seq<u8>, l: u8, m: int, n: int)
    requires
        m <= n,
    ensures
        count_non_green(guess, guess, cand, l, m) <= count_non_green(guess, guess, cand, l, n),
    decreases n - m,
{
    if m < n {
        lemma_non_green_monotone(guess, cand, l, m, n - 1);
    }
}

proof fn lemma_colored_prefix(guess: Seq<u8>, cand: Seq<u8>, l: u8, n: int)
    requires
        0 <= n <= N_CHARS,
    ensures
        colored_count(wordle_response(guess, cand), guess, l, n) == count_green(guess, cand, l, n)
            + min_nat(count_non_green(guess, guess, cand, l, n), unmatched(guess, cand, l)),
    decreases n,
{
    if n > 0 {
        lemma_colored_prefix(guess, cand, l, n - 1);
        let j = n - 1;
        let r = wordle_response(guess, cand);
        assert(r[j] == response_char(guess, cand, j));
    }
}

/// Wordle's rule for a guess against a secret word: a position is green exactly when the
/// two words hold the same letter there; for each letter, the positions of the guess
/// holding it that are coloured (green or yellow) are as many as the letter's copies in
/// the guess and in the secret allow, the fewer of the two; and yellows go to the
/// earliest non-green copies of a letter in the guess.
pub proof fn lemma_response_rules(guess: Seq<u8>, cand: Seq<u8>)
    requires
        guess.len() == N_CHARS,
        cand.len() == N_CHARS,
    ensures
        forall|i: int| 0 <= i < N_CHARS ==> (#[trigger] wordle_response(guess, cand)[i] == G <==> guess[i] == cand[i]),
        forall|l: u8| #[trigger] colored_count(wordle_response(guess, cand), guess, l, N_CHARS as int)
            == min_nat(count_letter(guess, l, N_CHARS as int), count_letter(cand, l, N_CHARS as int)),
        forall|i: int, j: int| 0 <= i < j < N_CHARS && guess[i] == guess[j] && guess[i] != cand[i]
            && #[trigger] wordle_response(guess, cand)[j] == Y ==> #[trigger] wordle_response(guess, cand)[i] == Y,
{
    let r = wordle_response(guess, cand);
    assert forall|i: int| 0 <= i < N_CHARS implies (#[trigger] r[i] == G <==> guess[i] == cand[i]) by {
        assert(r[i] == response_char(guess, cand, i));
    }
    assert forall|l: u8| #[trigger] colored_count(r, guess, l, N_CHARS as int)
        == min_nat(count_letter(guess, l, N_CHARS as int), count_letter(cand, l, N_CHARS as int)) by {
        lemma_colored_prefix(guess, cand, l, N_CHARS as int);
        lemma_guess_split(guess, cand, l, N_CHARS as int);
        lemma_count_letter_split(guess, cand, l, N_CHARS as int);
    }
    assert forall|i: int, j: int| 0 <= i < j < N_CHARS && guess[i] == guess[j] && guess[i] != cand[i]
        && #[trigger] r[j] == Y implies #[trigger] r[i] == Y by {
        let l = guess[i];
        assert(r[j] == response_char(guess, cand, j));
        assert(r[i] == response_char(guess, cand, i));
        lemma_non_green_monotone(guess, cand, l, i + 1, j);
    }
}

/// Different indices below `N_RESPONSES` give different response patterns.
pub proof fn lemma_index_response_injective(i: nat, j: nat)
    requires
        i < N_RESPONSES,
        j < N_RESPONSES,
        i != j,
    ensures
        spec_index_response(i) != spec_index_response(j),
{
    lemma_index_round_trip(i);
    lemma_index_round_trip(j);
}

/// The response is all green exactly when the guess is the secret word.
pub proof fn lemma_all_green_iff_equal(guess: Seq<u8>, cand: Seq<u8>)
    requires
        guess.len() == N_CHARS,
        cand.len() == N_CHARS,
    ensures
        (wordle_response(guess, cand) == CORRECT@) <==> (guess == cand),
        (spec_response_index(wordle_response(guess, cand)) == CORRECT_IDX) <==> (guess == cand),
{
    let r = wordle_response(guess, cand);
    if guess == cand {
        assert(r =~= CORRECT@);
    }
    if r == CORRECT@ {
        assert forall|i: int| 0 <= i < N_CHARS implies guess[i] == cand[i] by {
            assert(r[i] == G);
        }
        assert(guess =~= cand);
    }
    assert(resp_digit(B) == 0 && resp_digit(Y) == 1 && resp_digit(G) == 2);
    if spec_response_index(r) == CORRECT_IDX {
        assert(r[0] == G && r[1] == G && r[2] == G && r[3] == G && r[4] == G);
        assert(r =~= CORRECT@);
    }
}


/// Every word is made of upper-case letters.
pub open spec fn words_valid(ws: Seq<[u8; N_CHARS]>) -> bool {
    forall|i: int| 0 <= i < ws.len() ==> is_letter_word(#[trigger] ws[i]@)
}

/// The index of the response to `guess` when `cand` is the secret word.
pub open spec fn response_index_of(guess: [u8; N_CHARS], cand: [u8; N_CHARS]) -> nat {
    spec_response_index(wordle_response(guess@, cand@))
}

pub proof fn lemma_row_index(g: int, c: int, stride: int, rows: int)
    requires
        0 <= g < rows,
        0 <= c < stride,
    ensures
        0 <= g * stride + c < rows * stride,
        g * stride + c >= g * stride,
        (g + 1) * stride <= rows * stride,
        (g + 1) * stride == g * stride + stride,
{
    assert(0 <= g * stride + c < rows * stride) by (nonlinear_arith)
        requires 0 <= g < rows, 0 <= c < stride;
    assert((g + 1) * stride <= rows * stride) by (nonlinear_arith)
        requires 0 <= g < rows, 0 <= c < stride;
    assert((g + 1) * stride == g * stride + stride) by (nonlinear_arith);
    assert(g * stride >= 0) by (nonlinear_arith) requires 0 <= g, 0 <= c < stride;
}

/// Responses for all (guess, candidate) pairs, one row of `stride` candidates per guess.
pub struct ResponseCache {
    data: Vec<u8>,
    stride: usize,
}

impl ResponseCache {
    pub closed spec fn data_view(&self) -> Seq<u8> {
        self.data@
    }

    pub closed spec fn spec_stride(&self) -> nat {
        self.stride as nat
    }

    /// The stride is positive and the data is made of whole rows.
    pub open spec fn wf(&self) -> bool {
        &&& self.spec_stride() > 0
        &&& self.data_view().len() % self.spec_stride() == 0
    }

    /// The number of rows (guesses).
    pub open spec fn n_rows(&self) -> nat {
        self.data_view().len() / self.spec_stride()
    }

    /// The response index stored for guess `g` and candidate `c`.
    pub open spec fn resp_at(&self, g: int, c: int) -> u8 {
        self.data_view()[g * self.spec_stride() + c]
    }

    /// Every stored value is a response index.
    pub open spec fn values_valid(&self) -> bool {
        forall|k: int| 0 <= k < self.data_view().len() ==> #[trigger] self.data_view()[k] < N_RESPONSES
    }

    /// The cache holds the responses of `guesses` against `candidates`.
    pub open spec fn holds_responses(&self, guesses: Seq<[u8; N_CHARS]>, candidates: Seq<[u8; N_CHARS]>) -> bool {
        &&& self.wf()
        &&& self.spec_stride() == candidates.len()
        &&& self.n_rows() == guesses.len()
        &&& forall|g: int, c: int|
            0 <= g < guesses.len() && 0 <= c < candidates.len() ==> #[trigger] self.resp_at(g, c)
                == response_index_of(guesses[g], candidates[c])
    }

    pub proof fn lemma_rows(&self)
        requires
            self.wf(),
        ensures
            self.n_rows() * self.spec_stride() == self.data_view().len(),
    {
        vstd::arithmetic::div_mod::lemma_fundamental_div_mod(self.data_view().len() as int, self.spec_stride() as int);
    }

    pub fn new(data: Vec<u8>, stride: usize) -> (r: Self)
        requires
            stride > 0,
            data@.len() % (stride as nat) == 0,
        ensures
            r.data_view() == data@,
            r.spec_stride() == stride,
    {
        Self { data, stride }
    }

    pub fn get(&self, g_idx: usize, c_idx: usize) -> (r: u8)
        requires
            self.wf(),
            g_idx < self.n_rows(),
            c_idx < self.spec_stride(),
        ensures
            r == self.resp_at(g_idx as int, c_idx as int),
    {
        let n = self.data.len();
        proof {
            self.lemma_rows();
            lemma_row_index(g_idx as int, c_idx as int, self.stride as int, self.n_rows() as int);
        }
        self.data[g_idx * self.stride + c_idx]
    }

    pub fn get_row(&self, g_idx: usize) -> (r: &[u8])
        requires
            self.wf(),
            g_idx < self.n_rows(),
        ensures
            r@.len() == self.spec_stride(),
            forall|c: int| 0 <= c < self.spec_stride() ==> #[trigger] r@[c] == self.resp_at(g_idx as int, c),
    {
        let n = self.data.len();
        proof {
            self.lemma_rows();
            lemma_row_index(g_idx as int, 0, self.stride as int, self.n_rows() as int);
        }
        let start = g_idx * self.stride;
        let end = start + self.stride;
        vstd::slice::slice_subrange(self.data.as_slice(), start, end)
    }

    pub fn stride(&self) -> (r: usize)
        ensures
            r == self.spec_stride(),
    {
        self.stride
    }
}

/// Computes the response indices of `guess` against every candidate.
pub fn compute_response_row(guess: &[u8; N_CHARS], candidates: &[[u8; N_CHARS]]) -> (r: Vec<u8>)
    requires
        is_letter_word(guess@),
        words_valid(candidates@),
    ensures
        r@.len() == candidates@.len(),
        forall|c: int| 0 <= c < candidates@.len() ==> #[trigger] r@[c] == response_index_of(*guess, candidates@[c]),
{
    let mut row: Vec<u8> = Vec::new();
    let mut c: usize = 0;
    while c < candidates.len()
        invariant
            is_letter_word(guess@),
            words_valid(candidates@),
            c <= candidates@.len(),
            row@.len() == c,
            forall|k: int| 0 <= k < c ==> #[trigger] row@[k] == response_index_of(*guess, candidates@[k]),
        decreases candidates@.len() - c,
    {
        let resp = get_resp(guess, &candidates[c]);
        let idx = response_to_index(&resp);
        row.push(idx as u8);
        c += 1;
    }
    row
}

/// Precomputes responses for all (guess, candidate) pairs.
pub fn compute_response_cache(guesses: &[[u8; N_CHARS]], candidates: &[[u8; N_CHARS]]) -> (r: ResponseCache)
    requires
        candidates@.len() > 0,
        guesses@.len() * candidates@.len() <= usize::MAX,
        words_valid(guesses@),
        words_valid(candidates@),
    ensures
        r.holds_responses(guesses@, candidates@),
        r.values_valid(),
{
    let n_candidates = candidates.len();
    let mut data: Vec<u8> = Vec::new();
    let mut g: usize = 0;
    while g < guesses.len()
        invariant
            words_valid(guesses@),
            words_valid(candidates@),
            n_candidates == candidates@.len(),
            n_candidates > 0,
            guesses@.len() * n_candidates <= usize::MAX,
            g <= guesses@.len(),
            data@.len() == g * n_candidates,
            forall|k: int| 0 <= k < data@.len() ==> #[trigger] data@[k] < N_RESPONSES,
            forall|a: int, b: int| 0 <= a < g && 0 <= b < n_candidates ==> #[trigger] data@[a * n_candidates + b]
                == response_index_of(guesses@[a], candidates@[b]),
        decreases guesses@.len() - g,
    {
        let row = compute_response_row(&guesses[g], candidates);
        let ghost before = data@;
        let mut c: usize = 0;
        while c < n_candidates
            invariant
                n_candidates == candidates@.len(),
                n_candidates > 0,
                guesses@.len() * n_candidates <= usize::MAX,
                g < guesses@.len(),
                row@.len() == n_candidates,
                forall|k: int| 0 <= k < n_candidates ==> #[trigger] row@[k] == response_index_of(guesses@[g as int], candidates@[k]),
                c <= n_candidates,
                data@ == before + row@.subrange(0, c as int),
                before.len() == g * n_candidates,
                forall|k: int| 0 <= k < before.len() ==> #[trigger] before[k] < N_RESPONSES,
            decreases n_candidates - c,
        {
            proof {
                lemma_response_index_bound(guesses@[g as int], candidates@[c as int]);
            }
            data.push(row[c]);
            c += 1;
            assert(row@.subrange(0, c as int) =~= row@.subrange(0, (c - 1) as int).push(row@[c - 1]));
        }
        assert(row@.subrange(0, n_candidates as int) =~= row@);
        proof {
            assert((g + 1) * n_candidates == g * n_candidates + n_candidates) by (nonlinear_arith);
            assert forall|a: int, b: int| 0 <= a < g + 1 && 0 <= b < n_candidates implies #[trigger] data@[a * n_candidates + b]
                == response_index_of(guesses@[a], candidates@[b]) by {
                lemma_row_index(a, b, n_candidates as int, (g + 1) as int);
                if a < g {
                    lemma_row_index(a, b, n_candidates as int, g as int);
                } else {
                    assert(a * n_candidates + b == g * n_candidates + b);
                }
            }
            assert forall|k: int| 0 <= k < data@.len() implies #[trigger] data@[k] < N_RESPONSES by {
                if k >= before.len() {
                    lemma_response_index_bound(guesses@[g as int], candidates@[k - before.len()]);
                }
            }
            assert((g + 1) * n_candidates <= guesses@.len() * n_candidates) by (nonlinear_arith)
                requires g + 1 <= guesses@.len(), n_candidates > 0;
        }
        g += 1;
    }
    proof {
        vstd::arithmetic::div_mod::lemma_mod_multiples_basic(guesses@.len() as int, n_candidates as int);
        vstd::arithmetic::div_mod::lemma_div_multiples_vanish(guesses@.len() as int, n_candidates as int);
    }
    let r = ResponseCache::new(data, n_candidates);
    assert forall|gg: int, c: int| 0 <= gg < guesses@.len() && 0 <= c < candidates@.len() implies #[trigger] r.resp_at(gg, c)
        == response_index_of(guesses@[gg], candidates@[c]) by {
        lemma_row_index(gg, c, n_candidates as int, guesses@.len() as int);
    }
    r
}

pub proof fn lemma_response_index_bound(guess: [u8; N_CHARS], cand: [u8; N_CHARS])
    ensures
        response_index_of(guess, cand) < N_RESPONSES,
{
    let r = wordle_response(guess@, cand@);
    assert(resp_digit(r[0]) <= 2 && resp_digit(r[1]) <= 2 && resp_digit(r[2]) <= 2 && resp_digit(r[3]) <= 2 && resp_digit(r[4]) <= 2);
}

/// Per guess, the nonempty response classes: (response index, candidates giving it).
pub type PartitionMap = Vec<Vec<(usize, BitSet)>>;

/// Masks are well-formed sets over `n` candidates, tagged with strictly increasing response indices.
pub open spec fn partition_row_wf(row: Seq<(usize, BitSet)>, n: nat) -> bool {
    &&& forall|i: int| 0 <= i < row.len() ==> (#[trigger] row[i]).1.wf() && row[i].1@.len() == n && row[i].0 < N_RESPONSES
    &&& forall|i: int, j: int| 0 <= i < j < row.len() ==> (#[trigger] row[i]).0 < (#[trigger] row[j]).0
}

/// The masks of the row split the candidates `0..n`: pairwise disjoint, and covering each.
pub open spec fn partition_row_covers(row: Seq<(usize, BitSet)>, n: nat) -> bool {
    &&& partition_row_wf(row, n)
    &&& forall|i: int, j: int, c: int| 0 <= i < row.len() && 0 <= j < row.len() && i != j && 0 <= c < n
        ==> !(#[trigger] row[i].1@[c] && #[trigger] row[j].1@[c])
    &&& forall|c: int| 0 <= c < n ==> #[trigger] row_covers(row, c)
}

/// Some position of `s` holds `true`.
pub open spec fn has_member(s: Seq<bool>) -> bool {
    exists|c: int| 0 <= c < s.len() && #[trigger] s[c]
}

/// Some mask of the row holds candidate `c`.
pub open spec fn row_covers(row: Seq<(usize, BitSet)>, c: int) -> bool {
    exists|i: int| 0 <= i < row.len() && (#[trigger] row[i]).1@[c]
}

/// Every row of the map splits the candidates `0..n`.
pub open spec fn partition_map_wf(map: Seq<Vec<(usize, BitSet)>>, n: nat) -> bool {
    forall|g: int| 0 <= g < map.len() ==> partition_row_covers((#[trigger] map[g])@, n)
}

/// The row holds exactly the nonempty response classes of guess `g` in the cache,
/// in increasing order of response.
pub open spec fn row_matches_cache(row: Seq<(usize, BitSet)>, cache: ResponseCache, g: int) -> bool {
    &&& partition_row_wf(row, cache.spec_stride())
    &&& forall|i: int, c: int| 0 <= i < row.len() && 0 <= c < cache.spec_stride()
        ==> #[trigger] row[i].1@[c] == (cache.resp_at(g, c) == row[i].0)
    &&& forall|i: int| 0 <= i < row.len() ==> has_member((#[trigger] row[i]).1@)
    &&& forall|c: int| 0 <= c < cache.spec_stride() ==> #[trigger] row_lists(row, cache.resp_at(g, c) as int)
}

/// Some entry of the row is tagged with response `q`.
pub open spec fn row_lists(row: Seq<(usize, BitSet)>, q: int) -> bool {
    exists|i: int| 0 <= i < row.len() && (#[trigger] row[i]).0 == q
}

/// The map holds, for every guess of the cache, exactly its nonempty response classes.
pub open spec fn map_matches_cache(map: Seq<Vec<(usize, BitSet)>>, cache: ResponseCache) -> bool {
    &&& map.len() == cache.n_rows()
    &&& forall|g: int| 0 <= g < map.len() ==> row_matches_cache((#[trigger] map[g])@, cache, g)
}

/// A map built from a cache splits the candidates in every row.
pub proof fn lemma_matching_map_wf(map: Seq<Vec<(usize, BitSet)>>, cache: ResponseCache)
    requires
        map_matches_cache(map, cache),
    ensures
        partition_map_wf(map, cache.spec_stride()),
{
    assert forall|g: int| 0 <= g < map.len() implies partition_row_covers((#[trigger] map[g])@, cache.spec_stride()) by {
        let row = map[g]@;
        assert(row_matches_cache(row, cache, g));
        assert forall|c: int| 0 <= c < cache.spec_stride() implies #[trigger] row_covers(row, c) by {
            assert(row_lists(row, cache.resp_at(g, c) as int));
            let i = choose|i: int| 0 <= i < row.len() && (#[trigger] row[i]).0 == cache.resp_at(g, c);
            assert(row[i].1@[c]);
        }
        assert forall|i: int, j: int, c: int| 0 <= i < row.len() && 0 <= j < row.len() && i != j && 0 <= c < cache.spec_stride()
            implies !(#[trigger] row[i].1@[c] && #[trigger] row[j].1@[c]) by {
            if i < j {
                assert(row[i].0 < row[j].0);
            } else {
                assert(row[j].0 < row[i].0);
            }
        }
    }
}

/// The nonempty response classes of one guess.
pub fn build_partition_row(cache: &ResponseCache, g_idx: usize) -> (row: Vec<(usize, BitSet)>)
    requires
        cache.wf(),
        cache.values_valid(),
        g_idx < cache.n_rows(),
        cache.spec_stride() <= usize::MAX - 63,
    ensures
        row_matches_cache(row@, *cache, g_idx as int),
{
    let n = cache.stride();
    let resp_row = cache.get_row(g_idx);
    proof {
        cache.lemma_rows();
        assert forall|c: int| 0 <= c < n implies #[trigger] resp_row@[c] < N_RESPONSES by {
            lemma_row_index(g_idx as int, c, n as int, cache.n_rows() as int);
        }
    }
    let mut parts: Vec<BitSet> = Vec::new();
    let mut present: Vec<bool> = Vec::new();
    let mut r: usize = 0;
    while r < N_RESPONSES
        invariant
            r <= N_RESPONSES,
            parts@.len() == r,
            present@.len() == r,
            forall|k: int| 0 <= k < r ==> !present@[k],
        decreases N_RESPONSES - r,
    {
        parts.push(BitSet::new(0));
        present.push(false);
        r += 1;
    }
    let mut c: usize = 0;
    while c < n
        invariant
            n == cache.spec_stride(),
            n <= usize::MAX - 63,
            resp_row@.len() == n,
            forall|k: int| 0 <= k < n ==> #[trigger] resp_row@[k] == cache.resp_at(g_idx as int, k),
            forall|k: int| 0 <= k < n ==> #[trigger] resp_row@[k] < N_RESPONSES,
            c <= n,
            parts@.len() == N_RESPONSES,
            present@.len() == N_RESPONSES,
            forall|q: int| 0 <= q < N_RESPONSES && #[trigger] present@[q] ==> parts@[q].wf() && parts@[q]@.len() == n
                && (forall|k: int| 0 <= k < n ==> #[trigger] parts@[q]@[k] == (k < c && resp_row@[k] == q))
                && (exists|k: int| 0 <= k < c && resp_row@[k] == q),
            forall|q: int, k: int| #![trigger present@[q], resp_row@[k]] 0 <= q < N_RESPONSES && !present@[q] && 0 <= k < c ==> resp_row@[k] != q,
        decreases n - c,
    {
        let q = resp_row[c] as usize;
        if !present[q] {
            parts.set(q, BitSet::new(n));
            present.set(q, true);
        }
        parts[q].set(c, true);
        c += 1;
        proof {
            assert forall|q2: int| 0 <= q2 < N_RESPONSES && #[trigger] present@[q2] implies
                exists|k: int| 0 <= k < c && resp_row@[k] == q2 by {
                if q2 == q as int {
                    assert(resp_row@[c - 1] == q2);
                }
            }
        }
    }
    let mut out: Vec<(usize, BitSet)> = Vec::new();
    let mut r: usize = 0;
    while r < N_RESPONSES
        invariant
            n == cache.spec_stride(),
            resp_row@.len() == n,
            forall|k: int| 0 <= k < n ==> #[trigger] resp_row@[k] == cache.resp_at(g_idx as int, k),
            forall|k: int| 0 <= k < n ==> #[trigger] resp_row@[k] < N_RESPONSES,
            r <= N_RESPONSES,
            parts@.len() == N_RESPONSES,
            present@.len() == N_RESPONSES,
            forall|q: int| r <= q < N_RESPONSES && #[trigger] present@[q] ==> parts@[q].wf() && parts@[q]@.len() == n
                && (forall|k: int| 0 <= k < n ==> #[trigger] parts@[q]@[k] == (resp_row@[k] == q)),
            forall|q: int| 0 <= q < N_RESPONSES && #[trigger] present@[q] ==> exists|k: int| 0 <= k < n && resp_row@[k] == q,
            forall|q: int, k: int| #![trigger present@[q], resp_row@[k]] 0 <= q < N_RESPONSES && !present@[q] && 0 <= k < n ==> resp_row@[k] != q,
            partition_row_wf(out@, n as nat),
            forall|i: int| 0 <= i < out@.len() ==> (#[trigger] out@[i]).0 < r && present@[out@[i].0 as int],
            forall|i: int, k: int| 0 <= i < out@.len() && 0 <= k < n ==> #[trigger] out@[i].1@[k] == (resp_row@[k] == out@[i].0),
            forall|q: int| 0 <= q < r && #[trigger] present@[q] ==> exists|i: int| 0 <= i < out@.len() && out@[i].0 == q,
        decreases N_RESPONSES - r,
    {
        if present[r] {
            let mut tmp = BitSet::new(0);
            std::mem::swap(&mut parts[r], &mut tmp);
            let ghost before = out@;
            out.push((r, tmp));
            proof {
                assert forall|q: int| 0 <= q < r + 1 && #[trigger] present@[q] implies exists|i: int| 0 <= i < out@.len() && out@[i].0 == q by {
                    if q == r as int {
                        assert(out@[before.len() as int].0 == q);
                    } else {
                        let i = choose|i: int| 0 <= i < before.len() && before[i].0 == q;
                        assert(out@[i].0 == q);
                    }
                }
            }
        }
        r += 1;
    }
    proof {
        assert forall|i: int| 0 <= i < out@.len() implies has_member((#[trigger] out@[i]).1@) by {
            let q = out@[i].0 as int;
            assert(present@[q]);
            let k = choose|k: int| 0 <= k < n && resp_row@[k] == q;
            assert(out@[i].1@[k]);
        }
        assert forall|k: int| 0 <= k < cache.spec_stride() implies #[trigger] row_lists(out@, cache.resp_at(g_idx as int, k) as int) by {
            let q = resp_row@[k] as int;
            assert(present@[q]);
            assert(exists|i: int| 0 <= i < out@.len() && out@[i].0 == q);
            assert(row_lists(out@, q));
        }
        assert(partition_row_wf(out@, cache.spec_stride()));
        assert forall|i: int, c: int| 0 <= i < out@.len() && 0 <= c < cache.spec_stride()
            implies #[trigger] out@[i].1@[c] == (cache.resp_at(g_idx as int, c) == out@[i].0) by {
            assert(resp_row@[c] == cache.resp_at(g_idx as int, c));
        }
    }
    out
}

/// Builds the partition map (the inverted index of the cache).
pub fn build_partition_map(cache: &ResponseCache) -> (map: PartitionMap)
    requires
        cache.wf(),
        cache.values_valid(),
        cache.spec_stride() <= usize::MAX - 63,
    ensures
        map_matches_cache(map@, *cache),
{
    let n_candidates = cache.stride();
    let n_guesses = cache.data.len() / n_candidates;
    let mut map: PartitionMap = Vec::new();
    let mut g: usize = 0;
    while g < n_guesses
        invariant
            cache.wf(),
            cache.values_valid(),
            cache.spec_stride() <= usize::MAX - 63,
            n_guesses == cache.n_rows(),
            g <= n_guesses,
            map@.len() == g,
            forall|k: int| 0 <= k < g ==> row_matches_cache((#[trigger] map@[k])@, *cache, k),
        decreases n_guesses - g,
    {
        map.push(build_partition_row(cache, g));
        g += 1;
    }
    map
}

/// The nonempty intersections of the row's masks with `cands`, tagged with their response,
/// in the row's order.
pub open spec fn nonempty_parts(row: Seq<(usize, BitSet)>, cands: Set<int>) -> Seq<(usize, Set<int>)>
    decreases row.len(),
{
    if row.len() == 0 {
        Seq::empty()
    } else {
        let prev = nonempty_parts(row.drop_last(), cands);
        let part = row.last().1.members().intersect(cands);
        if part.len() > 0 {
            prev.push((row.last().0, part))
        } else {
            prev
        }
    }
}

proof fn lemma_nonempty_parts_step(row: Seq<(usize, BitSet)>, cands: Set<int>, k: int)
    requires
        0 <= k < row.len(),
    ensures
        nonempty_parts(row.subrange(0, k + 1), cands) == {
            let prev = nonempty_parts(row.subrange(0, k), cands);
            let part = row[k].1.members().intersect(cands);
            if part.len() > 0 {
                prev.push((row[k].0, part))
            } else {
                prev
            }
        },
{
    assert(row.subrange(0, k + 1).drop_last() =~= row.subrange(0, k));
}

/// Fast intersection count using BitSets: (response, number of candidates) for each
/// nonempty class of guess `g_idx`.
pub fn get_partition_counts(g_idx: usize, candidates: &BitSet, partition_map: &PartitionMap) -> (r: Vec<(usize, usize)>)
    requires
        candidates.wf(),
        g_idx < partition_map@.len(),
        partition_row_wf(partition_map@[g_idx as int]@, candidates@.len()),
    ensures
        r@.len() == nonempty_parts(partition_map@[g_idx as int]@, candidates.members()).len(),
        forall|i: int| 0 <= i < r@.len() ==> {
            let e = #[trigger] nonempty_parts(partition_map@[g_idx as int]@, candidates.members())[i];
            &&& r@[i].0 == e.0
            &&& r@[i].1 == e.1.len()
        },
{
    let partitions = &partition_map[g_idx];
    let ghost row = partitions@;
    let mut counts: Vec<(usize, usize)> = Vec::new();
    let mut k: usize = 0;
    while k < partitions.len()
        invariant
            candidates.wf(),
            row == partition_map@[g_idx as int]@,
            partitions@ == row,
            partition_row_wf(row, candidates@.len()),
            k <= row.len(),
            counts@.len() == nonempty_parts(row.subrange(0, k as int), candidates.members()).len(),
            forall|i: int| 0 <= i < counts@.len() ==> {
                let e = #[trigger] nonempty_parts(row.subrange(0, k as int), candidates.members())[i];
                &&& counts@[i].0 == e.0
                &&& counts@[i].1 == e.1.len()
            },
        decreases row.len() - k,
    {
        let (resp_idx, mask) = &partitions[k];
        let count = mask.intersection_count(candidates);
        proof {
            lemma_nonempty_parts_step(row, candidates.members(), k as int);
        }
        if count > 0 {
            counts.push((*resp_idx, count));
        }
        k += 1;
    }
    assert(row.subrange(0, row.len() as int) =~= row);
    counts
}

/// The built classes agree with `parts`: same responses and counts, well-formed sets of
/// length `n` holding the same candidates.
pub open spec fn parts_built(r: Seq<(usize, BitSet, usize)>, parts: Seq<(usize, Set<int>)>, n: nat) -> bool {
    &&& r.len() == parts.len()
    &&& forall|i: int| 0 <= i < r.len() ==> {
        &&& (#[trigger] r[i]).0 == parts[i].0
        &&& r[i].1.wf()
        &&& r[i].1@.len() == n
        &&& r[i].1.members() == parts[i].1
        &&& r[i].2 == parts[i].1.len()
    }
}

/// Fast bitwise intersection using BitSets: (response, candidates, count) for each nonempty
/// class of guess `g_idx`.
pub fn get_partitions(g_idx: usize, candidates: &BitSet, partition_map: &PartitionMap) -> (r: Vec<(usize, BitSet, usize)>)
    requires
        candidates.wf(),
        g_idx < partition_map@.len(),
        partition_row_wf(partition_map@[g_idx as int]@, candidates@.len()),
    ensures
        parts_built(r@, nonempty_parts(partition_map@[g_idx as int]@, candidates.members()), candidates@.len()),
{
    let partitions = &partition_map[g_idx];
    let ghost row = partitions@;
    let mut result: Vec<(usize, BitSet, usize)> = Vec::new();
    let mut k: usize = 0;
    while k < partitions.len()
        invariant
            candidates.wf(),
            row == partition_map@[g_idx as int]@,
            partitions@ == row,
            partition_row_wf(row, candidates@.len()),
            k <= row.len(),
            parts_built(result@, nonempty_parts(row.subrange(0, k as int), candidates.members()), candidates@.len()),
        decreases row.len() - k,
    {
        let (resp_idx, mask) = &partitions[k];
        let p_count = mask.intersection_count(candidates);
        proof {
            lemma_nonempty_parts_step(row, candidates.members(), k as int);
        }
        if p_count > 0 {
            let p_cand = mask.intersect(candidates);
            result.push((*resp_idx, p_cand, p_count));
        }
        k += 1;
    }
    assert(row.subrange(0, row.len() as int) =~= row);
    result
}

/// The lazily built entry has the response and count of `s`, and its candidates exactly
/// when there are more than two.
pub open spec fn lazy_entry(e: (usize, Option<BitSet>, usize), s: (usize, Set<int>), n: nat) -> bool {
    &&& e.0 == s.0
    &&& e.2 == s.1.len()
    &&& (e.1 is Some <==> s.1.len() > 2)
    &&& (e.1 matches Some(b) ==> b.wf() && b@.len() == n && b.members() == s.1)
}

/// The lazily built entries are those of `parts`, in order.
pub open spec fn lazy_built(r: Seq<(usize, Option<BitSet>, usize)>, parts: Seq<(usize, Set<int>)>, n: nat) -> bool {
    &&& r.len() == parts.len()
    &&& forall|i: int| 0 <= i < r.len() ==> #[trigger] lazy_entry(r[i], parts[i], n)
}

/// Like `get_partitions`, but the candidates of a class are built only when it holds more than two.
pub fn get_lazy_partitions(g_idx: usize, candidates: &BitSet, partition_map: &PartitionMap) -> (r: Vec<(usize, Option<BitSet>, usize)>)
    requires
        candidates.wf(),
        g_idx < partition_map@.len(),
        partition_row_wf(partition_map@[g_idx as int]@, candidates@.len()),
    ensures
        lazy_built(r@, nonempty_parts(partition_map@[g_idx as int]@, candidates.members()), candidates@.len()),
{
    let partitions = &partition_map[g_idx];
    let ghost row = partitions@;
    let ghost n = candidates@.len();
    let mut result: Vec<(usize, Option<BitSet>, usize)> = Vec::new();
    let mut k: usize = 0;
    while k < partitions.len()
        invariant
            candidates.wf(),
            row == partition_map@[g_idx as int]@,
            partitions@ == row,
            n == candidates@.len(),
            partition_row_wf(row, candidates@.len()),
            k <= row.len(),
            lazy_built(result@, nonempty_parts(row.subrange(0, k as int), candidates.members()), n),
        decreases row.len() - k,
    {
        let (resp_idx, mask) = &partitions[k];
        let count = mask.intersection_count(candidates);
        proof {
            lemma_nonempty_parts_step(row, candidates.members(), k as int);
        }
        let ghost before = result@;
        if count > 0 {
            let p_cand = if count > 2 { Some(mask.intersect(candidates)) } else { None };
            result.push((*resp_idx, p_cand, count));
        }
        proof {
            let np = nonempty_parts(row.subrange(0, k + 1), candidates.members());
            let np0 = nonempty_parts(row.subrange(0, k as int), candidates.members());
            assert forall|i: int| 0 <= i < result@.len() implies #[trigger] lazy_entry(result@[i], np[i], n) by {
                if i < before.len() {
                    assert(lazy_entry(before[i], np0[i], n));
                    assert(result@[i] == before[i]);
                    assert(np[i] == np0[i]);
                }
            }
        }
        k += 1;
    }
    assert(row.subrange(0, row.len() as int) =~= row);
    result
}

} // verus!
