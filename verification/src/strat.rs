use vstd::prelude::*;
use crate::bits::{key_of, BitSet};
use crate::cache::{memo_contents, memo_get, MemoCache};
use crate::part::{cache_resp, entry_counted, generate_partitions, get_partition_counts};
use crate::plan::{
    achievable, achievable_with_first, class, has_winning_guess, is_min_total, lemma_class_finite, lemma_combine_achievable,
    lemma_pair_achievable, lemma_seq_sum_mono, lemma_single_achievable, lemma_split_classes_entries, lemma_split_cost, seq_sum,
    split_classes, within,
};
use crate::resp::{ResponseCache, N_RESPONSES};
use crate::solver::{
    cache_basic, cache_covered, cache_ready, guess_score, lemma_lower_bound_min, lemma_set_one, lemma_set_two, lemma_size_upto,
    score_upto, size_upto, MemoMap,
};
use crate::words::{is_letter, is_letter_word, letter_to_index, N_CHARS, N_LETTERS};

verus! {

/// The letter indices (0 for 'A' to 25 for 'Z') that occur in `w`.
pub open spec fn letters_of(w: Seq<u8>) -> Set<int> {
    Set::new(|l: int| exists|j: int| 0 <= j < w.len() && #[trigger] w[j] - 65 == l)
}

/// Number of the indexed words that contain letter `l`.
pub open spec fn letter_count(indices: Seq<usize>, words: Seq<[u8; N_CHARS]>, l: int) -> nat
    decreases indices.len(),
{
    if indices.len() == 0 {
        0
    } else {
        letter_count(indices.drop_last(), words, l) + if letters_of(words[indices.last() as int]@).contains(l) {
            1nat
        } else {
            0nat
        }
    }
}

/// All indices are below `n`.
pub open spec fn indices_below(indices: Seq<usize>, n: nat) -> bool {
    forall|i: int| 0 <= i < indices.len() ==> #[trigger] indices[i] < n
}

/// The indexed words are made of upper-case letters.
pub open spec fn indexed_letter_words(indices: Seq<usize>, words: Seq<[u8; N_CHARS]>) -> bool {
    forall|i: int| 0 <= i < indices.len() ==> is_letter_word(#[trigger] words[indices[i] as int]@)
}

proof fn lemma_letters_prefix(w: Seq<u8>, i: int)
    requires
        0 <= i < w.len(),
    ensures
        letters_of(w.take(i + 1)) == letters_of(w.take(i)).insert(w[i] - 65),
{
    let a = letters_of(w.take(i + 1));
    let b = letters_of(w.take(i)).insert(w[i] - 65);
    assert forall|l: int| a.contains(l) <==> b.contains(l) by {
        if a.contains(l) {
            let j = choose|j: int| 0 <= j < i + 1 && #[trigger] w.take(i + 1)[j] - 65 == l;
            if j < i {
                assert(w.take(i)[j] == w.take(i + 1)[j]);
            }
        }
        if b.contains(l) && l != w[i] - 65 {
            let j = choose|j: int| 0 <= j < i && #[trigger] w.take(i)[j] - 65 == l;
            assert(w.take(i + 1)[j] == w.take(i)[j]);
        }
        if l == w[i] - 65 {
            assert(w.take(i + 1)[i] == w[i]);
        }
    }
    assert(a =~= b);
}

/// Given a list of candidate indices, computes the number of candidates that contain each letter.
pub fn compute_letter_frequencies(
    candidate_indices: &[usize],
    all_candidates: &[[u8; N_CHARS]],
) -> (r: [usize; N_LETTERS])
    requires
        indices_below(candidate_indices@, all_candidates@.len()),
        indexed_letter_words(candidate_indices@, all_candidates@),
    ensures
        forall|l: int| 0 <= l < N_LETTERS ==> #[trigger] r@[l] == letter_count(candidate_indices@, all_candidates@, l),
{
    let mut acc = [0usize; N_LETTERS];
    let mut k: usize = 0;
    while k < candidate_indices.len()
        invariant
            indices_below(candidate_indices@, all_candidates@.len()),
            indexed_letter_words(candidate_indices@, all_candidates@),
            k <= candidate_indices@.len(),
            forall|l: int| 0 <= l < N_LETTERS ==> #[trigger] acc@[l] == letter_count(candidate_indices@.take(k as int), all_candidates@, l),
            forall|l: int| 0 <= l < N_LETTERS ==> #[trigger] acc@[l] <= k,
        decreases candidate_indices@.len() - k,
    {
        let c_idx = candidate_indices[k];
        assert(c_idx < all_candidates@.len());
        let candidate_word = &all_candidates[c_idx];
        assert(is_letter_word(candidate_word@));
        let mut freq_contribution = [0usize; N_LETTERS];
        let mut j: usize = 0;
        assert(candidate_word@.take(0) =~= Seq::<u8>::empty());
        while j < N_CHARS
            invariant
                is_letter_word(candidate_word@),
                candidate_word@.len() == N_CHARS,
                j <= N_CHARS,
                forall|l: int| 0 <= l < N_LETTERS ==> #[trigger] freq_contribution@[l]
                    == if letters_of(candidate_word@.take(j as int)).contains(l) { 1usize } else { 0usize },
            decreases N_CHARS - j,
        {
            let letter_byte = candidate_word[j];
            assert(is_letter(candidate_word@[j as int]));
            proof {
                lemma_letters_prefix(candidate_word@, j as int);
            }
            freq_contribution[letter_to_index(letter_byte)] = 1;
            j += 1;
        }
        assert(candidate_word@.take(N_CHARS as int) =~= candidate_word@);
        let ghost acc0 = acc@;
        let mut i: usize = 0;
        while i < N_LETTERS
            invariant
                i <= N_LETTERS,
                acc@.len() == N_LETTERS,
                k < candidate_indices.len(),
                forall|l: int| 0 <= l < N_LETTERS ==> #[trigger] acc0[l] <= k,
                forall|l: int| 0 <= l < i ==> #[trigger] acc@[l] == acc0[l] + freq_contribution@[l],
                forall|l: int| i <= l < N_LETTERS ==> #[trigger] acc@[l] == acc0[l],
                forall|l: int| 0 <= l < N_LETTERS ==> #[trigger] freq_contribution@[l] <= 1,
            decreases N_LETTERS - i,
        {
            acc[i] = acc[i] + freq_contribution[i];
            i += 1;
        }
        proof {
            let ks = candidate_indices@.take(k + 1);
            assert(ks.drop_last() =~= candidate_indices@.take(k as int));
            assert(ks.last() == c_idx);
        }
        k += 1;
    }
    assert(candidate_indices@.take(candidate_indices@.len() as int) =~= candidate_indices@);
    acc
}

/// Sum of `f[l]` over the letters `l < k` in `s`.
pub open spec fn letters_sum(f: Seq<usize>, s: Set<int>, k: int) -> nat
    decreases k,
{
    if k <= 0 {
        0
    } else {
        letters_sum(f, s, k - 1) + if s.contains(k - 1) { f[k - 1] as nat } else { 0nat }
    }
}

/// Sum, over the letters `l < k` in `s`, of the number of indexed words containing `l`.
pub open spec fn freq_sum(indices: Seq<usize>, words: Seq<[u8; N_CHARS]>, s: Set<int>, k: int) -> nat
    decreases k,
{
    if k <= 0 {
        0
    } else {
        freq_sum(indices, words, s, k - 1) + if s.contains(k - 1) { letter_count(indices, words, k - 1) } else { 0nat }
    }
}

/// The max-frequency score of a guess word: for each distinct letter of the word, the
/// number of indexed candidate words that contain it.
pub open spec fn max_freq_score(indices: Seq<usize>, words: Seq<[u8; N_CHARS]>, guess: Seq<u8>) -> nat {
    freq_sum(indices, words, letters_of(guess), N_LETTERS as int)
}

proof fn lemma_letters_sum_insert(f: Seq<usize>, s: Set<int>, x: int, k: int)
    requires
        !s.contains(x),
    ensures
        letters_sum(f, s.insert(x), k) == letters_sum(f, s, k) + if 0 <= x < k { f[x] as nat } else { 0nat },
    decreases k,
{
    if k > 0 {
        lemma_letters_sum_insert(f, s, x, k - 1);
    }
}

proof fn lemma_letters_sum_empty(f: Seq<usize>, k: int)
    ensures
        letters_sum(f, Set::empty(), k) == 0,
    decreases k,
{
    if k > 0 {
        lemma_letters_sum_empty(f, k - 1);
    }
}

proof fn lemma_letters_sum_subset(f: Seq<usize>, s: Set<int>, t: Set<int>, k: int)
    requires
        s.subset_of(t),
    ensures
        letters_sum(f, s, k) <= letters_sum(f, t, k),
    decreases k,
{
    if k > 0 {
        lemma_letters_sum_subset(f, s, t, k - 1);
    }
}

proof fn lemma_letters_sum_freq(f: Seq<usize>, indices: Seq<usize>, words: Seq<[u8; N_CHARS]>, s: Set<int>, k: int)
    requires
        0 <= k <= f.len(),
        forall|l: int| 0 <= l < k ==> #[trigger] f[l] == letter_count(indices, words, l),
    ensures
        letters_sum(f, s, k) == freq_sum(indices, words, s, k),
    decreases k,
{
    if k > 0 {
        lemma_letters_sum_freq(f, indices, words, s, k - 1);
    }
}

/// Sums the frequencies of the distinct letters of the guess word.
pub fn get_max_freq_score(
    guess_word: &[u8; N_CHARS],
    letter_frequencies: &[usize; N_LETTERS],
) -> (r: usize)
    requires
        is_letter_word(guess_word@),
        letters_sum(letter_frequencies@, letters_of(guess_word@), N_LETTERS as int) <= usize::MAX,
    ensures
        r == letters_sum(letter_frequencies@, letters_of(guess_word@), N_LETTERS as int),
{
    let ghost f = letter_frequencies@;
    let ghost w = guess_word@;
    let mut score: usize = 0;
    let mut seen_letter = [false; N_LETTERS];
    let mut j: usize = 0;
    assert(w.take(0) =~= Seq::<u8>::empty());
    assert(letters_of(w.take(0)) =~= Set::<int>::empty());
    proof {
        lemma_letters_sum_empty(f, N_LETTERS as int);
    }
    assert(w.take(N_CHARS as int) =~= w);
    while j < N_CHARS
        invariant
            f == letter_frequencies@,
            w == guess_word@,
            w.len() == N_CHARS,
            is_letter_word(w),
            letters_sum(f, letters_of(w), N_LETTERS as int) <= usize::MAX,
            w.take(N_CHARS as int) == w,
            j <= N_CHARS,
            forall|l: int| 0 <= l < N_LETTERS ==> #[trigger] seen_letter@[l] == letters_of(w.take(j as int)).contains(l),
            score == letters_sum(f, letters_of(w.take(j as int)), N_LETTERS as int),
        decreases N_CHARS - j,
    {
        let byte = guess_word[j];
        assert(is_letter(w[j as int]));
        let letter_idx = letter_to_index(byte);
        proof {
            lemma_letters_prefix(w, j as int);
        }
        if seen_letter[letter_idx] {
            assert(letters_of(w.take(j + 1)) =~= letters_of(w.take(j as int)));
            j += 1;
            continue;
        }
        proof {
            lemma_letters_sum_insert(f, letters_of(w.take(j as int)), letter_idx as int, N_LETTERS as int);
            lemma_letters_prefix(w, (N_CHARS - 1) as int);
            assert forall|l: int| #[trigger] letters_of(w.take(j + 1)).contains(l) implies letters_of(w).contains(l) by {
                let i = choose|i: int| 0 <= i < j + 1 && #[trigger] w.take(j + 1)[i] - 65 == l;
                assert(w[i] == w.take(j + 1)[i]);
            }
            lemma_letters_sum_subset(f, letters_of(w.take(j + 1)), letters_of(w), N_LETTERS as int);
        }
        seen_letter[letter_idx] = true;
        score += letter_frequencies[letter_idx];
        j += 1;
    }
    score
}

/// The max-frequency score of guess `g`, against the indexed candidates.
pub open spec fn freq_score_of(
    candidate_indices: Seq<usize>,
    all_candidates: Seq<[u8; N_CHARS]>,
    all_guesses: Seq<[u8; N_CHARS]>,
    g: int,
) -> nat {
    max_freq_score(candidate_indices, all_candidates, all_guesses[g]@)
}

/// Picks the guess whose distinct letters occur in the most candidates; among equal
/// scores, the lowest guess index.
pub fn pick_max_freq(
    candidate_indices: &[usize],
    guess_indices: &[usize],
    all_candidates: &[[u8; N_CHARS]],
    all_guesses: &[[u8; N_CHARS]],
) -> (r: usize)
    requires
        guess_indices@.len() > 0,
        indices_below(candidate_indices@, all_candidates@.len()),
        indexed_letter_words(candidate_indices@, all_candidates@),
        indices_below(guess_indices@, all_guesses@.len()),
        indexed_letter_words(guess_indices@, all_guesses@),
        forall|i: int| 0 <= i < guess_indices@.len() ==> #[trigger] freq_score_of(candidate_indices@, all_candidates@,
            all_guesses@, guess_indices@[i] as int) <= usize::MAX,
    ensures
        guess_indices@.contains(r),
        forall|i: int| 0 <= i < guess_indices@.len() ==> {
            let si = #[trigger] freq_score_of(candidate_indices@, all_candidates@, all_guesses@, guess_indices@[i] as int);
            let sr = freq_score_of(candidate_indices@, all_candidates@, all_guesses@, r as int);
            si < sr || (si == sr && r <= guess_indices@[i])
        },
{
    let ghost ci = candidate_indices@;
    let ghost cw = all_candidates@;
    let ghost gw = all_guesses@;
    let letter_frequencies = compute_letter_frequencies(candidate_indices, all_candidates);
    let mut best_key: usize = usize::MAX;
    let mut best_g: usize = 0;
    let mut k: usize = 0;
    while k < guess_indices.len()
        invariant
            ci == candidate_indices@,
            cw == all_candidates@,
            gw == all_guesses@,
            guess_indices@.len() > 0,
            indices_below(guess_indices@, gw.len()),
            indexed_letter_words(guess_indices@, gw),
            forall|i: int| 0 <= i < guess_indices@.len() ==> #[trigger] freq_score_of(ci, cw, gw, guess_indices@[i] as int) <= usize::MAX,
            forall|l: int| 0 <= l < N_LETTERS ==> #[trigger] letter_frequencies@[l] == letter_count(ci, cw, l),
            k <= guess_indices@.len(),
            k > 0 ==> guess_indices@.take(k as int).contains(best_g),
            k > 0 ==> best_key == usize::MAX - freq_score_of(ci, cw, gw, best_g as int),
            forall|i: int| 0 <= i < k ==> {
                let si = #[trigger] freq_score_of(ci, cw, gw, guess_indices@[i] as int);
                best_key < usize::MAX - si || (best_key == usize::MAX - si && best_g <= guess_indices@[i])
            },
        decreases guess_indices@.len() - k,
    {
        let g_idx = guess_indices[k];
        let guess_word = &all_guesses[g_idx];
        assert(is_letter_word(gw[guess_indices@[k as int] as int]@));
        proof {
            lemma_letters_sum_freq(letter_frequencies@, ci, cw, letters_of(guess_word@), N_LETTERS as int);
            assert(freq_score_of(ci, cw, gw, guess_indices@[k as int] as int) <= usize::MAX);
        }
        let score = get_max_freq_score(guess_word, &letter_frequencies);
        let key = usize::MAX - score;
        if k == 0 || key < best_key || (key == best_key && g_idx < best_g) {
            best_key = key;
            best_g = g_idx;
        }
        proof {
            let t1 = guess_indices@.take(k + 1);
            assert(t1[k as int] == g_idx);
            if best_g != g_idx {
                let t0 = guess_indices@.take(k as int);
                let u = choose|u: int| 0 <= u < t0.len() && t0[u] == best_g;
                assert(t1[u] == best_g);
            }
        }
        k += 1;
    }
    proof {
        assert(guess_indices@.take(k as int) =~= guess_indices@);
    }
    best_g
}

/// Sum of the squares of the entries.
pub open spec fn squares_sum(xs: Seq<usize>) -> nat
    decreases xs.len(),
{
    if xs.len() == 0 {
        0
    } else {
        squares_sum(xs.drop_last()) + (xs.last() * xs.last()) as nat
    }
}

proof fn lemma_squares_sum_prefix(xs: Seq<usize>, i: int)
    requires
        0 <= i <= xs.len(),
    ensures
        squares_sum(xs.take(i)) <= squares_sum(xs),
    decreases xs.len(),
{
    if i < xs.len() {
        lemma_squares_sum_prefix(xs.drop_last(), i);
        assert(xs.drop_last().take(i) =~= xs.take(i));
    } else {
        assert(xs.take(i) =~= xs);
    }
}

/// Sum of the squares of `xs`.
pub fn sum_of_squares(xs: &[usize]) -> (r: usize)
    requires
        squares_sum(xs@) <= usize::MAX,
    ensures
        r == squares_sum(xs@),
{
    let mut total: usize = 0;
    let mut k: usize = 0;
    assert(xs@.take(0) =~= Seq::<usize>::empty());
    while k < xs.len()
        invariant
            squares_sum(xs@) <= usize::MAX,
            k <= xs@.len(),
            total == squares_sum(xs@.take(k as int)),
        decreases xs@.len() - k,
    {
        let x = xs[k];
        proof {
            assert(xs@.take(k + 1).drop_last() =~= xs@.take(k as int));
            lemma_squares_sum_prefix(xs@, k + 1);
        }
        total = total + x * x;
        k += 1;
    }
    assert(xs@.take(k as int) =~= xs@);
    total
}

proof fn lemma_squares_counts(counts: Seq<usize>, cache: ResponseCache, cands: Set<int>, g: int, k: int)
    requires
        0 <= k <= counts.len(),
        forall|q: int| 0 <= q < counts.len() ==> #[trigger] counts[q] == class(cache_resp(cache), cands, g, q).len(),
    ensures
        squares_sum(counts.take(k)) == score_upto(cache_resp(cache), cands, g, k),
    decreases k,
{
    if k > 0 {
        lemma_squares_counts(counts, cache, cands, g, k - 1);
        assert(counts.take(k).drop_last() =~= counts.take(k - 1));
    } else {
        assert(counts.take(0) =~= Seq::<usize>::empty());
    }
}

/// The min-remaining score of guess `g_idx`: the sum of the squared sizes of the classes
/// into which its responses split the candidates.
pub fn get_min_remaining_score(candidates: &BitSet, response_cache: &ResponseCache, g_idx: usize) -> (r: usize)
    requires
        cache_basic(*response_cache),
        candidates.wf(),
        candidates@.len() == response_cache.spec_stride(),
        g_idx < response_cache.n_rows(),
    ensures
        r == guess_score(*response_cache, candidates.members(), g_idx as int),
{
    let ghost cache = *response_cache;
    let ghost cands = candidates.members();
    let ghost n = cache.spec_stride();
    let counts = get_partition_counts(candidates, response_cache, g_idx);
    proof {
        candidates.lemma_members_finite();
        assert(within(cands, n));
        lemma_squares_counts(counts@, cache, cands, g_idx as int, N_RESPONSES as int);
        assert(counts@.take(N_RESPONSES as int) =~= counts@);
        lemma_size_upto(cache_resp(cache), cache.n_rows(), n, cands, g_idx as int, N_RESPONSES as int);
        let sz = size_upto(cache_resp(cache), cands, g_idx as int, N_RESPONSES as int);
        assert(sz * sz <= n * n) by (nonlinear_arith)
            requires sz <= n;
    }
    sum_of_squares(counts.as_slice())
}

/// Picks the guess that leaves the fewest candidates on average (the smallest sum of
/// squared class sizes); among equal scores, the lowest guess index.
pub fn pick_min_remaining(candidates: &BitSet, guess_indices: &[usize], response_cache: &ResponseCache) -> (r: usize)
    requires
        guess_indices@.len() > 0,
        cache_basic(*response_cache),
        candidates.wf(),
        candidates@.len() == response_cache.spec_stride(),
        indices_below(guess_indices@, response_cache.n_rows()),
    ensures
        guess_indices@.contains(r),
        forall|i: int| 0 <= i < guess_indices@.len() ==> {
            let si = #[trigger] guess_score(*response_cache, candidates.members(), guess_indices@[i] as int);
            let sr = guess_score(*response_cache, candidates.members(), r as int);
            sr < si || (sr == si && r <= guess_indices@[i])
        },
{
    let ghost cache = *response_cache;
    let ghost cands = candidates.members();
    let mut best_score: usize = 0;
    let mut best_g: usize = 0;
    let mut k: usize = 0;
    while k < guess_indices.len()
        invariant
            cache == *response_cache,
            cands == candidates.members(),
            cache_basic(cache),
            candidates.wf(),
            candidates@.len() == cache.spec_stride(),
            indices_below(guess_indices@, cache.n_rows()),
            k <= guess_indices@.len(),
            k > 0 ==> guess_indices@.take(k as int).contains(best_g),
            k > 0 ==> best_score == guess_score(cache, cands, best_g as int),
            forall|i: int| 0 <= i < k ==> {
                let si = #[trigger] guess_score(cache, cands, guess_indices@[i] as int);
                best_score < si || (best_score == si && best_g <= guess_indices@[i])
            },
        decreases guess_indices@.len() - k,
    {
        let g_idx = guess_indices[k];
        let score = get_min_remaining_score(candidates, response_cache, g_idx);
        if k == 0 || score < best_score || (score == best_score && g_idx < best_g) {
            best_score = score;
            best_g = g_idx;
        }
        proof {
            let t1 = guess_indices@.take(k + 1);
            assert(t1[k as int] == g_idx);
            if best_g != g_idx {
                let t0 = guess_indices@.take(k as int);
                let u = choose|u: int| 0 <= u < t0.len() && t0[u] == best_g;
                assert(t1[u] == best_g);
            }
        }
        k += 1;
    }
    proof {
        assert(guess_indices@.take(k as int) =~= guess_indices@);
    }
    best_g
}

/// Why no optimal guess could be read from the memo.
#[derive(Debug, Clone, Copy, PartialEq, Eq, Structural)]
pub enum OptimalGuessError {
    /// The current set of candidates is not present in the cache.
    CacheMiss,
    /// No guess matches the stored optimal cost.
    Inconsistency(usize),
}

/// The value of one class in the search: 1 or 3 for one or two candidates, else what the
/// memo holds for the set (`None` when it holds nothing).
pub open spec fn class_value(m: MemoMap, part: Set<int>, n: nat) -> Option<nat> {
    if part.len() == 1 {
        Some(1)
    } else if part.len() == 2 {
        Some(3)
    } else if m.contains_key(key_of(part, n)) {
        Some(m[key_of(part, n)] as nat)
    } else {
        None
    }
}

/// The summed values of the classes (`None` when one has none).
pub open spec fn classes_value(m: MemoMap, sc: Seq<(int, Set<int>)>, n: nat) -> Option<nat>
    decreases sc.len(),
{
    if sc.len() == 0 {
        Some(0)
    } else {
        match (classes_value(m, sc.drop_last(), n), class_value(m, sc.last().1, n)) {
            (Some(a), Some(b)) => Some(a + b),
            _ => None,
        }
    }
}

/// The total cost of guessing `g` first, as far as the memo knows the costs of its classes.
pub open spec fn memo_guess_cost(m: MemoMap, cache: ResponseCache, cands: Set<int>, g: int) -> Option<nat> {
    match classes_value(m, split_classes(cache_resp(cache), cands, g, N_RESPONSES as int), cache.spec_stride()) {
        Some(t) => Some(cands.len() + t),
        None => None,
    }
}

/// The memo's value for each set of candidates it holds is the fewest total guesses any
/// strategy takes for the set.
pub open spec fn memo_sets_exact(m: MemoMap, cache: ResponseCache) -> bool {
    forall|s: Set<int>| within(s, cache.spec_stride()) && #[trigger] m.contains_key(key_of(s, cache.spec_stride()))
        ==> is_min_total(cache_resp(cache), cache.n_rows(), s, m[key_of(s, cache.spec_stride())] as nat)
}

proof fn lemma_class_value_min(m: MemoMap, cache: ResponseCache, part: Set<int>, v: nat)
    requires
        cache_ready(cache),
        cache_covered(cache),
        memo_sets_exact(m, cache),
        within(part, cache.spec_stride()),
        part.len() > 0,
        class_value(m, part, cache.spec_stride()) == Some(v),
    ensures
        is_min_total(cache_resp(cache), cache.n_rows(), part, v),
{
    let resp = cache_resp(cache);
    let ng = cache.n_rows();
    let n = cache.spec_stride();
    if part.len() == 1 {
        let c = lemma_set_one(part);
        assert(part.contains(c));
        assert(has_winning_guess(resp, ng, c));
        lemma_single_achievable(resp, ng, n, c);
        lemma_lower_bound_min(cache, part, 1);
    } else if part.len() == 2 {
        let (c1, c2) = lemma_set_two(part);
        assert(part.contains(c1) && part.contains(c2));
        assert(has_winning_guess(resp, ng, c1));
        assert(has_winning_guess(resp, ng, c2));
        lemma_pair_achievable(resp, ng, n, c1, c2);
        lemma_lower_bound_min(cache, part, 3);
    }
}

proof fn lemma_classes_vals(m: MemoMap, cache: ResponseCache, sc: Seq<(int, Set<int>)>) -> (vals: Seq<nat>)
    requires
        cache_ready(cache),
        cache_covered(cache),
        memo_sets_exact(m, cache),
        forall|a: int| 0 <= a < sc.len() ==> within(#[trigger] sc[a].1, cache.spec_stride()) && sc[a].1.len() > 0,
        classes_value(m, sc, cache.spec_stride()) is Some,
    ensures
        vals.len() == sc.len(),
        seq_sum(vals) == classes_value(m, sc, cache.spec_stride())->0,
        forall|a: int| 0 <= a < sc.len() ==> is_min_total(cache_resp(cache), cache.n_rows(), #[trigger] sc[a].1, vals[a]),
    decreases sc.len(),
{
    let n = cache.spec_stride();
    if sc.len() == 0 {
        Seq::empty()
    } else {
        let p = lemma_classes_vals(m, cache, sc.drop_last());
        let last = sc.last().1;
        let v = class_value(m, last, n)->0;
        assert(sc[sc.len() - 1].1 == last);
        lemma_class_value_min(m, cache, last, v);
        let vals = p.push(v);
        assert(vals.drop_last() == p);
        assert forall|a: int| 0 <= a < sc.len() implies is_min_total(cache_resp(cache), cache.n_rows(), #[trigger] sc[a].1, vals[a]) by {
            if a < sc.len() - 1 {
                assert(sc.drop_last()[a] == sc[a]);
            }
        }
        vals
    }
}

/// The cost `memo_guess_cost` sums for a guess, with a memo of fewest totals and a cache
/// whose every candidate has a winning guess, is the fewest total guesses of any strategy
/// that starts with that guess (classes of one candidate taking one guess, of two taking
/// three, larger ones the memo's value).
pub proof fn lemma_memo_guess_cost_min(m: MemoMap, cache: ResponseCache, cands: Set<int>, g: int, t: nat)
    requires
        cache_ready(cache),
        cache_covered(cache),
        memo_sets_exact(m, cache),
        within(cands, cache.spec_stride()),
        cands.len() > 0,
        0 <= g < cache.n_rows(),
        memo_guess_cost(m, cache, cands, g) == Some(t),
    ensures
        achievable_with_first(cache_resp(cache), cache.n_rows(), cands, g, t),
        forall|t2: nat| #[trigger] achievable_with_first(cache_resp(cache), cache.n_rows(), cands, g, t2) ==> t <= t2,
{
    let resp = cache_resp(cache);
    let ng = cache.n_rows();
    let n = cache.spec_stride();
    let sc = split_classes(resp, cands, g, N_RESPONSES as int);
    lemma_split_classes_entries(resp, cands, g, N_RESPONSES as int);
    assert forall|a: int| 0 <= a < sc.len() implies within(#[trigger] sc[a].1, n) && sc[a].1.len() > 0 by {
        lemma_class_finite(resp, cands, g, sc[a].0, n);
        assert forall|c: int| #[trigger] sc[a].1.contains(c) implies 0 <= c < n by {
            assert(cands.contains(c));
        }
    }
    let vals = lemma_classes_vals(m, cache, sc);
    assert forall|i: int| 0 <= i < vals.len() implies achievable(resp, ng, #[trigger] sc[i].1, vals[i]) by {
        assert(is_min_total(resp, ng, sc[i].1, vals[i]));
    }
    lemma_combine_achievable(resp, ng, cands, g, vals);
    assert forall|t2: nat| #[trigger] achievable_with_first(resp, ng, cands, g, t2) implies t <= t2 by {
        let costs = lemma_split_cost(resp, ng, cands, g, t2);
        assert forall|a: int| 0 <= a < vals.len() implies #[trigger] vals[a] <= costs[a] by {
            assert(is_min_total(resp, ng, sc[a].1, vals[a]));
            assert(achievable(resp, ng, sc[a].1, costs[a]));
        }
        lemma_seq_sum_mono(vals, costs);
    }
}

proof fn lemma_classes_value_prefix(m: MemoMap, sc: Seq<(int, Set<int>)>, n: nat, i: int)
    requires
        0 <= i <= sc.len(),
        classes_value(m, sc, n) is Some,
    ensures
        classes_value(m, sc.take(i), n) is Some,
        classes_value(m, sc.take(i), n)->0 <= classes_value(m, sc, n)->0,
    decreases sc.len(),
{
    if i < sc.len() {
        lemma_classes_value_prefix(m, sc.drop_last(), n, i);
        assert(sc.drop_last().take(i) =~= sc.take(i));
    } else {
        assert(sc.take(i) =~= sc);
    }
}

/// Retrieves the optimal guess for the candidates from the cache, if present: the first
/// guess whose cost, summed from the memo, matches the stored optimal cost.
pub fn pick_optimal(
    candidates: &BitSet,
    n_total_guesses: usize,
    response_cache: &ResponseCache,
    memo: &MemoCache,
) -> (r: Result<usize, OptimalGuessError>)
    requires
        cache_basic(*response_cache),
        candidates.wf(),
        candidates@.len() == response_cache.spec_stride(),
        n_total_guesses <= response_cache.n_rows(),
    ensures
        !memo_contents(*memo).contains_key(candidates.key()) ==> r == Err::<usize, OptimalGuessError>(OptimalGuessError::CacheMiss),
        memo_contents(*memo).contains_key(candidates.key()) ==> {
            let target = memo_contents(*memo)[candidates.key()];
            match r {
                Ok(g) => {
                    &&& g < n_total_guesses
                    &&& memo_guess_cost(memo_contents(*memo), *response_cache, candidates.members(), g as int) == Some(target as nat)
                    &&& forall|h: int| 0 <= h < g ==> #[trigger] memo_guess_cost(memo_contents(*memo), *response_cache,
                        candidates.members(), h) != Some(target as nat)
                },
                Err(e) => {
                    &&& e == OptimalGuessError::Inconsistency(target)
                    &&& forall|h: int| 0 <= h < n_total_guesses ==> #[trigger] memo_guess_cost(memo_contents(*memo), *response_cache,
                        candidates.members(), h) != Some(target as nat)
                },
            }
        },
        (cache_ready(*response_cache) && cache_covered(*response_cache) && memo_sets_exact(memo_contents(*memo), *response_cache)
            && memo_contents(*memo).contains_key(candidates.key()) && candidates.members().len() > 0) ==> {
            let target = memo_contents(*memo)[candidates.key()] as nat;
            let resp = cache_resp(*response_cache);
            &&& is_min_total(resp, response_cache.n_rows(), candidates.members(), target)
            &&& match r {
                Ok(g) => achievable_with_first(resp, response_cache.n_rows(), candidates.members(), g as int, target),
                Err(_) => forall|h: int| 0 <= h < n_total_guesses && (#[trigger] memo_guess_cost(memo_contents(*memo),
                    *response_cache, candidates.members(), h)) is Some ==> !achievable_with_first(resp, response_cache.n_rows(),
                    candidates.members(), h, target),
            }
        },
{
    let ghost m = memo_contents(*memo);
    let ghost cache = *response_cache;
    let ghost cands = candidates.members();
    let ghost n = cache.spec_stride();
    let target_total_cost = match memo_get(memo, candidates) {
        Some(val) => val,
        None => return Err(OptimalGuessError::CacheMiss),
    };
    let ghost exact = cache_ready(cache) && cache_covered(cache) && memo_sets_exact(m, cache) && cands.len() > 0;
    proof {
        candidates.lemma_key_of();
        candidates.lemma_members_finite();
        if exact {
            assert(within(cands, n));
            assert(is_min_total(cache_resp(cache), cache.n_rows(), cands, target_total_cost as nat));
        }
    }
    let n_candidates = candidates.count_ones();
    let mut g_idx: usize = 0;
    while g_idx < n_total_guesses
        invariant
            m == memo_contents(*memo),
            cache == *response_cache,
            cands == candidates.members(),
            n == cache.spec_stride(),
            cache_basic(cache),
            candidates.wf(),
            candidates@.len() == n,
            n_total_guesses <= cache.n_rows(),
            n_candidates == cands.len(),
            m.contains_key(candidates.key()),
            target_total_cost == m[candidates.key()],
            g_idx <= n_total_guesses,
            forall|h: int| 0 <= h < g_idx ==> #[trigger] memo_guess_cost(m, cache, cands, h) != Some(target_total_cost as nat),
            exact == (cache_ready(cache) && cache_covered(cache) && memo_sets_exact(m, cache) && cands.len() > 0),
            exact ==> within(cands, n) && is_min_total(cache_resp(cache), cache.n_rows(), cands, target_total_cost as nat),
        decreases n_total_guesses - g_idx,
    {
        let partitions = generate_partitions(candidates, response_cache, g_idx);
        let ghost sc = split_classes(cache_resp(cache), cands, g_idx as int, N_RESPONSES as int);
        proof {
            crate::plan::lemma_split_classes_entries(cache_resp(cache), cands, g_idx as int, N_RESPONSES as int);
        }
        let mut current_guess_cost: usize = n_candidates;
        let mut complete = true;
        let mut i: usize = 0;
        assert(sc.take(0) =~= Seq::<(int, Set<int>)>::empty());
        while i < partitions.len() && complete
            invariant
                m == memo_contents(*memo),
                sc == split_classes(cache_resp(cache), cands, g_idx as int, N_RESPONSES as int),
                crate::part::split_counted(partitions@, sc, n),
                forall|t: int| 0 <= t < sc.len() ==> (#[trigger] sc[t]).1.len() > 0,
                n == cache.spec_stride(),
                n_candidates == cands.len(),
                i <= partitions@.len(),
                complete ==> current_guess_cost >= n_candidates,
                complete ==> classes_value(m, sc.take(i as int), n) == Some((current_guess_cost - n_candidates) as nat),
                !complete ==> forall|t: nat| t <= usize::MAX ==> memo_guess_cost(m, cache, cands, g_idx as int) != Some(t),
            decreases partitions@.len() - i,
        {
            assert(entry_counted(partitions@[i as int], sc[i as int], n));
            let partition_size = partitions[i].1;
            proof {
                partitions@[i as int].0.lemma_key_of();
                assert(sc.take(i + 1).drop_last() =~= sc.take(i as int));
                assert(sc.take(i + 1).last() == sc[i as int]);
            }
            let add: Option<usize> = if partition_size == 1 {
                Some(1)
            } else if partition_size == 2 {
                Some(3)
            } else {
                memo_get(memo, &partitions[i].0)
            };
            match add {
                Some(c) => {
                    match current_guess_cost.checked_add(c) {
                        Some(x) => {
                            current_guess_cost = x;
                        },
                        None => {
                            proof {
                                if classes_value(m, sc, n) is Some {
                                    lemma_classes_value_prefix(m, sc, n, i + 1);
                                }
                            }
                            complete = false;
                        },
                    }
                },
                None => {
                    proof {
                        if classes_value(m, sc, n) is Some {
                            lemma_classes_value_prefix(m, sc, n, i + 1);
                        }
                    }
                    complete = false;
                },
            }
            i += 1;
        }
        if complete {
            assert(sc.take(partitions@.len() as int) =~= sc);
            if current_guess_cost == target_total_cost {
                proof {
                    if exact {
                        lemma_memo_guess_cost_min(m, cache, cands, g_idx as int, target_total_cost as nat);
                    }
                }
                return Ok(g_idx);
            }
        }
        g_idx += 1;
    }
    proof {
        if exact {
            let resp = cache_resp(cache);
            assert forall|h: int| 0 <= h < n_total_guesses && (#[trigger] memo_guess_cost(m, cache, cands, h)) is Some implies
                !achievable_with_first(resp, cache.n_rows(), cands, h, target_total_cost as nat) by {
                let t = memo_guess_cost(m, cache, cands, h)->0;
                lemma_memo_guess_cost_min(m, cache, cands, h, t);
                assert(achievable(resp, cache.n_rows(), cands, t));
            }
        }
    }
    Err(OptimalGuessError::Inconsistency(target_total_cost))
}

proof fn lemma_letter_count_bound(indices: Seq<usize>, words: Seq<[u8; N_CHARS]>, l: int)
    ensures
        letter_count(indices, words, l) <= indices.len(),
    decreases indices.len(),
{
    if indices.len() > 0 {
        lemma_letter_count_bound(indices.drop_last(), words, l);
    }
}

/// Every max-frequency score is at most 26 times the number of candidates.
pub proof fn lemma_freq_score_bound(indices: Seq<usize>, words: Seq<[u8; N_CHARS]>, s: Set<int>, k: int)
    requires
        0 <= k,
    ensures
        freq_sum(indices, words, s, k) <= k * indices.len(),
    decreases k,
{
    if k > 0 {
        lemma_freq_score_bound(indices, words, s, k - 1);
        lemma_letter_count_bound(indices, words, k - 1);
        assert(k * indices.len() == (k - 1) * indices.len() + indices.len()) by (nonlinear_arith);
    }
}

} // verus!
