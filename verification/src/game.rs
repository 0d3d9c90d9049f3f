use vstd::prelude::*;
use std::collections::HashMap;
use crate::plan::min_total;
use crate::words::N_CHARS;

pub mod strat;

pub use crate::resp::{B, CORRECT, G, N_RESPONSES, Y};
use crate::resp::{is_resp_word, spec_response_index};
pub use crate::words::{is_letter_char, letter_to_index, N_LETTERS};

verus! {

broadcast use vstd::std_specs::hash::group_hash_axioms;

/// Converts a Wordle response made of B, Y and G to its index 0-242.
pub fn response_to_index(response: &[u8; N_CHARS]) -> (r: usize)
    requires
        is_resp_word(response@),
    ensures
        r == spec_response_index(response@),
        r < N_RESPONSES,
{
    crate::resp::response_to_index(response)
}

/// A number for each five-byte word, different for different words.
pub open spec fn word_code(w: [u8; N_CHARS]) -> int {
    w[0] + 256 * w[1] + 65536 * w[2] + 16777216 * w[3] + 4294967296 * w[4]
}

/// The code of a word.
fn word_key(w: &[u8; N_CHARS]) -> (r: u64)
    ensures
        r == word_code(*w),
{
    w[0] as u64 + 256 * (w[1] as u64) + 65536 * (w[2] as u64) + 16777216 * (w[3] as u64) + 4294967296 * (w[4] as u64)
}

proof fn lemma_word_code_injective(a: [u8; N_CHARS], b: [u8; N_CHARS])
    requires
        word_code(a) == word_code(b),
    ensures
        a == b,
{
    let (a0, a1, a2, a3, a4) = (a[0], a[1], a[2], a[3], a[4]);
    let (b0, b1, b2, b3, b4) = (b[0], b[1], b[2], b[3], b[4]);
    assert(a0 == b0 && a1 == b1 && a2 == b2 && a3 == b3 && a4 == b4) by (nonlinear_arith)
        requires
            a0 + 256 * a1 + 65536 * a2 + 16777216 * a3 + 4294967296 * a4
                == b0 + 256 * b1 + 65536 * b2 + 16777216 * b3 + 4294967296 * b4,
            a0 < 256, a1 < 256, a2 < 256, a3 < 256, a4 < 256,
            b0 < 256, b1 < 256, b2 < 256, b3 < 256, b4 < 256;
    assert(a@ =~= b@);
    vstd::array::lemma_array_index(a, 0);
}

/// The last index below `k` at which `words` holds `w`, or -1.
pub open spec fn last_match(words: Seq<[u8; N_CHARS]>, w: [u8; N_CHARS], k: int) -> int
    decreases k,
{
    if k <= 0 {
        -1
    } else if words[k - 1] == w {
        k - 1
    } else {
        last_match(words, w, k - 1)
    }
}

/// The last index below `k` at which `words` holds a word with code `code`, or -1.
pub open spec fn last_code(words: Seq<[u8; N_CHARS]>, code: u64, k: int) -> int
    decreases k,
{
    if k <= 0 {
        -1
    } else if word_code(words[k - 1]) == code {
        k - 1
    } else {
        last_code(words, code, k - 1)
    }
}

proof fn lemma_last_code(words: Seq<[u8; N_CHARS]>, w: [u8; N_CHARS], k: int)
    ensures
        last_code(words, word_code(w) as u64, k) == last_match(words, w, k),
        -1 <= last_match(words, w, k),
        last_match(words, w, k) >= 0 ==> last_match(words, w, k) < k && words[last_match(words, w, k)] == w,
    decreases k,
{
    if k > 0 {
        lemma_last_code(words, w, k - 1);
        if word_code(words[k - 1]) == word_code(w) {
            lemma_word_code_injective(words[k - 1], w);
        }
    }
}

/// Precomputes, for each candidate index, the index of the same word among the guesses
/// (the last one, should the guesses hold it twice).
pub fn compute_cidx_to_gidx_map(
    all_candidates_arr: &[[u8; N_CHARS]],
    all_guesses_arr: &[[u8; N_CHARS]],
) -> (r: Vec<usize>)
    requires
        forall|c: int| 0 <= c < all_candidates_arr@.len() ==> #[trigger] last_match(all_guesses_arr@, all_candidates_arr@[c],
            all_guesses_arr@.len() as int) >= 0,
    ensures
        r@.len() == all_candidates_arr@.len(),
        forall|c: int| 0 <= c < r@.len() ==> #[trigger] r@[c] == last_match(all_guesses_arr@, all_candidates_arr@[c],
            all_guesses_arr@.len() as int),
{
    let n_guesses = all_guesses_arr.len();
    let n_candidates = all_candidates_arr.len();
    let ghost gw = all_guesses_arr@;
    let mut guess_word_to_index: HashMap<u64, usize> = HashMap::with_capacity(n_guesses);
    let mut g_idx: usize = 0;
    while g_idx < n_guesses
        invariant
            gw == all_guesses_arr@,
            n_guesses == gw.len(),
            g_idx <= n_guesses,
            forall|code: u64| #[trigger] guess_word_to_index@.contains_key(code) <==> last_code(gw, code, g_idx as int) >= 0,
            forall|code: u64| #[trigger] guess_word_to_index@.contains_key(code) ==> guess_word_to_index@[code] == last_code(gw, code, g_idx as int),
        decreases n_guesses - g_idx,
    {
        let key = word_key(&all_guesses_arr[g_idx]);
        guess_word_to_index.insert(key, g_idx);
        g_idx += 1;
    }
    let mut c_idx_to_g_idx_map: Vec<usize> = Vec::new();
    let mut c_idx: usize = 0;
    while c_idx < n_candidates
        invariant
            gw == all_guesses_arr@,
            n_guesses == gw.len(),
            n_candidates == all_candidates_arr@.len(),
            forall|c: int| 0 <= c < all_candidates_arr@.len() ==> #[trigger] last_match(gw, all_candidates_arr@[c], n_guesses as int) >= 0,
            forall|code: u64| #[trigger] guess_word_to_index@.contains_key(code) <==> last_code(gw, code, n_guesses as int) >= 0,
            forall|code: u64| #[trigger] guess_word_to_index@.contains_key(code) ==> guess_word_to_index@[code] == last_code(gw, code, n_guesses as int),
            c_idx <= n_candidates,
            c_idx_to_g_idx_map@.len() == c_idx,
            forall|c: int| 0 <= c < c_idx ==> #[trigger] c_idx_to_g_idx_map@[c] == last_match(gw, all_candidates_arr@[c], n_guesses as int),
        decreases n_candidates - c_idx,
    {
        let key = word_key(&all_candidates_arr[c_idx]);
        proof {
            lemma_last_code(gw, all_candidates_arr@[c_idx as int], n_guesses as int);
            assert(last_match(gw, all_candidates_arr@[c_idx as int], n_guesses as int) >= 0);
        }
        let g = match guess_word_to_index.get(&key) {
            Some(g) => *g,
            None => 0,
        };
        c_idx_to_g_idx_map.push(g);
        c_idx += 1;
    }
    c_idx_to_g_idx_map
}

/// Computes a lower bound on the total guesses for a given partition size (0 for none).
pub fn lower_bound(n_candidates: usize) -> (r: usize)
    requires
        2 * n_candidates - 1 <= usize::MAX,
    ensures
        r == min_total(n_candidates as nat),
{
    if n_candidates == 0 {
        return 0;
    }
    n_candidates + (n_candidates - 1)
}

/// Computes the lower bounds for each partition size from 0 up to n_candidates inclusive.
pub fn compute_lower_bounds(n_candidates: usize) -> (r: Vec<usize>)
    requires
        2 * n_candidates - 1 <= usize::MAX,
        n_candidates < usize::MAX,
    ensures
        r@.len() == n_candidates + 1,
        forall|n: int| 0 <= n <= n_candidates ==> #[trigger] r@[n] == min_total(n as nat),
{
    let mut out: Vec<usize> = Vec::new();
    let mut n: usize = 0;
    while n <= n_candidates
        invariant
            2 * n_candidates - 1 <= usize::MAX,
            n_candidates < usize::MAX,
            n <= n_candidates + 1,
            out@.len() == n,
            forall|k: int| 0 <= k < n ==> #[trigger] out@[k] == min_total(k as nat),
        decreases n_candidates + 1 - n,
    {
        out.push(lower_bound(n));
        n += 1;
    }
    out
}

} // verus!
