use vstd::prelude::*;
use crate::bits::{key_of, true_positions, BitSet};
use crate::cache::{memo_contents, MemoCache};
use crate::resp::ResponseCache;
use crate::solver::{cache_basic, cache_covered, cache_ready, guess_score};
use crate::part::cache_resp;
use crate::plan::achievable_with_first;
use crate::strat::{
    memo_sets_exact,
    freq_score_of, indices_below, indexed_letter_words, lemma_freq_score_bound, memo_guess_cost, pick_max_freq,
    pick_min_remaining, pick_optimal, OptimalGuessError,
};
use crate::words::{is_letter_word, N_CHARS, N_LETTERS};
pub use crate::strat::{compute_letter_frequencies, get_max_freq_score, get_min_remaining_score};

verus! {

/// A rule for choosing the next guess for a set of remaining candidates.
pub trait Policy {
    /// The guesses it picks from are `0..n_guesses()`.
    spec fn n_guesses(&self) -> nat;

    /// The candidate sets it can pick a guess for.
    spec fn accepts(&self, candidates: BitSet) -> bool;

    /// The guess it makes for the candidate set whose bits are `bits`, or `None` when it has
    /// none: a policy answers the same set the same way each time.
    spec fn choice(&self, bits: Seq<bool>) -> Option<usize>;

    /// The guess to make next, or `None` when the policy has none.
    fn pick(&self, candidates: &BitSet) -> (r: Option<usize>)
        requires
            self.accepts(*candidates),
        ensures
            r == self.choice(candidates@),
            r matches Some(g) ==> g < self.n_guesses(),
    ;
}

/// The indices of the set bits of `s` below `k`, in increasing order.
pub open spec fn ones_upto(s: Seq<bool>, k: int) -> Seq<usize>
    decreases k,
{
    if k <= 0 {
        Seq::empty()
    } else if s[k - 1] {
        ones_upto(s, k - 1).push((k - 1) as usize)
    } else {
        ones_upto(s, k - 1)
    }
}

/// The indices `0..n`.
pub open spec fn index_range(n: nat) -> Seq<usize> {
    Seq::new(n, |i: int| i as usize)
}

/// The candidate indices of a set, in increasing order.
fn member_indices(candidates: &BitSet) -> (r: Vec<usize>)
    requires
        candidates.wf(),
    ensures
        r@ == ones_upto(candidates@, candidates@.len() as int),
        forall|i: int| 0 <= i < r@.len() ==> #[trigger] r@[i] < candidates@.len(),
{
    let n = candidates.len();
    let mut out: Vec<usize> = Vec::new();
    let mut i: usize = 0;
    while i < n
        invariant
            n == candidates@.len(),
            candidates.wf(),
            i <= n,
            out@ == ones_upto(candidates@, i as int),
            forall|j: int| 0 <= j < out@.len() ==> #[trigger] out@[j] < i,
        decreases n - i,
    {
        if candidates.get(i) {
            out.push(i);
        }
        i += 1;
    }
    out
}

/// The indices `0..n`, in order.
pub(crate) fn all_indices(n: usize) -> (r: Vec<usize>)
    ensures
        r@ == index_range(n as nat),
{
    let mut out: Vec<usize> = Vec::new();
    let mut i: usize = 0;
    while i < n
        invariant
            i <= n,
            out@ == index_range(i as nat),
        decreases n - i,
    {
        out.push(i);
        i += 1;
        assert(out@ =~= index_range(i as nat));
    }
    out
}

/// `g` is a guess whose distinct letters occur in the most of the candidates `idx`, the
/// lowest such index on a tie.
pub open spec fn max_freq_best(idx: Seq<usize>, cands: Seq<[u8; N_CHARS]>, guesses: Seq<[u8; N_CHARS]>, g: usize) -> bool {
    &&& g < guesses.len()
    &&& forall|h: int| 0 <= h < guesses.len() ==> {
        let sh = #[trigger] freq_score_of(idx, cands, guesses, h);
        let sg = freq_score_of(idx, cands, guesses, g as int);
        sh < sg || (sh == sg && g <= h)
    }
}

/// `g` is a guess that leaves the fewest candidates of `s` on average, the lowest such
/// index on a tie.
pub open spec fn min_remaining_best(cache: ResponseCache, s: Set<int>, n: nat, g: usize) -> bool {
    &&& g < n
    &&& forall|h: int| 0 <= h < n ==> {
        let sh = #[trigger] guess_score(cache, s, h);
        let sg = guess_score(cache, s, g as int);
        sg < sh || (sg == sh && g <= h)
    }
}

/// `g` is the first of the `n` guesses whose cost, by the memo `m`, is `target`.
pub open spec fn first_at_cost(m: Map<(Seq<u64>, usize), usize>, cache: ResponseCache, s: Set<int>, target: nat, n: nat, g: usize) -> bool {
    &&& g < n
    &&& memo_guess_cost(m, cache, s, g as int) == Some(target)
    &&& forall|h: int| 0 <= h < g ==> #[trigger] memo_guess_cost(m, cache, s, h) != Some(target)
}

/// Picks the guess whose distinct letters occur in the most remaining candidates.
pub struct MaxFreqPolicy<'a> {
    pub all_candidates: &'a [[u8; N_CHARS]],
    pub all_guesses: &'a [[u8; N_CHARS]],
}

impl<'a> Policy for MaxFreqPolicy<'a> {
    open spec fn n_guesses(&self) -> nat {
        self.all_guesses@.len()
    }

    open spec fn choice(&self, bits: Seq<bool>) -> Option<usize> {
        if self.all_guesses@.len() == 0 {
            None
        } else {
            Some(choose|g: usize| max_freq_best(ones_upto(bits, bits.len() as int), self.all_candidates@, self.all_guesses@, g))
        }
    }

    open spec fn accepts(&self, candidates: BitSet) -> bool {
        &&& candidates.wf()
        &&& candidates@.len() <= self.all_candidates@.len()
        &&& N_LETTERS * self.all_candidates@.len() <= usize::MAX
        &&& forall|c: int| 0 <= c < self.all_candidates@.len() ==> is_letter_word(#[trigger] self.all_candidates@[c]@)
        &&& forall|g: int| 0 <= g < self.all_guesses@.len() ==> is_letter_word(#[trigger] self.all_guesses@[g]@)
    }

    fn pick(&self, candidates: &BitSet) -> (r: Option<usize>)
        ensures
            self.all_guesses@.len() == 0 ==> r is None,
            self.all_guesses@.len() > 0 ==> (r matches Some(g) && g < self.all_guesses@.len() && forall|h: int|
                0 <= h < self.all_guesses@.len() ==> {
                    let sh = #[trigger] freq_score_of(ones_upto(candidates@, candidates@.len() as int), self.all_candidates@,
                        self.all_guesses@, h);
                    let sg = freq_score_of(ones_upto(candidates@, candidates@.len() as int), self.all_candidates@,
                        self.all_guesses@, g as int);
                    sh < sg || (sh == sg && g <= h)
                }),
    {
        let candidate_indices = member_indices(candidates);
        let n = self.all_guesses.len();
        if n == 0 {
            return None;
        }
        let guess_indices = all_indices(n);
        let ghost idx = candidate_indices@;
        proof {
            assert forall|i: int| 0 <= i < guess_indices@.len() implies #[trigger] freq_score_of(idx, self.all_candidates@,
                self.all_guesses@, guess_indices@[i] as int) <= usize::MAX by {
                let w = self.all_guesses@[guess_indices@[i] as int]@;
                lemma_freq_score_bound(idx, self.all_candidates@, crate::strat::letters_of(w), N_LETTERS as int);
                assert(idx.len() <= self.all_candidates@.len()) by {
                    lemma_ones_upto(candidates@, candidates@.len() as int);
                }
                assert(N_LETTERS * idx.len() <= N_LETTERS * self.all_candidates@.len()) by (nonlinear_arith)
                    requires idx.len() <= self.all_candidates@.len();
            }
            assert(indices_below(guess_indices@, self.all_guesses@.len()));
            assert(indexed_letter_words(guess_indices@, self.all_guesses@));
            assert(indices_below(idx, self.all_candidates@.len()));
            assert(indexed_letter_words(idx, self.all_candidates@));
        }
        let g = pick_max_freq(candidate_indices.as_slice(), guess_indices.as_slice(), self.all_candidates, self.all_guesses);
        proof {
            assert forall|h: int| 0 <= h < self.all_guesses@.len() implies {
                let sh = #[trigger] freq_score_of(idx, self.all_candidates@, self.all_guesses@, h);
                let sg = freq_score_of(idx, self.all_candidates@, self.all_guesses@, g as int);
                sh < sg || (sh == sg && g <= h)
            } by {
                assert(guess_indices@[h] == h);
            }
            let best = choose|b: usize| max_freq_best(idx, self.all_candidates@, self.all_guesses@, b);
            assert(max_freq_best(idx, self.all_candidates@, self.all_guesses@, g));
            assert(freq_score_of(idx, self.all_candidates@, self.all_guesses@, best as int) ==
                freq_score_of(idx, self.all_candidates@, self.all_guesses@, best as int));
            assert(freq_score_of(idx, self.all_candidates@, self.all_guesses@, g as int) ==
                freq_score_of(idx, self.all_candidates@, self.all_guesses@, g as int));
            assert(best == g);
        }
        Some(g)
    }
}

proof fn lemma_ones_upto(s: Seq<bool>, k: int)
    requires
        0 <= k <= s.len(),
    ensures
        ones_upto(s, k).len() <= k,
        forall|i: int| 0 <= i < ones_upto(s, k).len() ==> #[trigger] ones_upto(s, k)[i] < k,
    decreases k,
{
    if k > 0 {
        lemma_ones_upto(s, k - 1);
    }
}

/// Picks the guess that leaves the fewest candidates on average.
pub struct MinRemainingPolicy<'a> {
    pub response_cache: &'a ResponseCache,
    pub n_total_candidates: usize,
    pub n_total_guesses: usize,
}

impl<'a> Policy for MinRemainingPolicy<'a> {
    open spec fn n_guesses(&self) -> nat {
        self.n_total_guesses as nat
    }

    open spec fn choice(&self, bits: Seq<bool>) -> Option<usize> {
        if self.n_total_guesses == 0 {
            None
        } else {
            Some(choose|g: usize| min_remaining_best(*self.response_cache, true_positions(bits), self.n_total_guesses as nat, g))
        }
    }

    open spec fn accepts(&self, candidates: BitSet) -> bool {
        &&& cache_basic(*self.response_cache)
        &&& candidates.wf()
        &&& candidates@.len() == self.response_cache.spec_stride()
        &&& self.n_total_guesses <= self.response_cache.n_rows()
    }

    fn pick(&self, candidates: &BitSet) -> (r: Option<usize>)
        ensures
            self.n_total_guesses == 0 ==> r is None,
            self.n_total_guesses > 0 ==> (r matches Some(g) && g < self.n_total_guesses && forall|h: int| 0 <= h < self.n_total_guesses ==> {
                let sh = #[trigger] guess_score(*self.response_cache, candidates.members(), h);
                let sg = guess_score(*self.response_cache, candidates.members(), g as int);
                sg < sh || (sg == sh && g <= h)
            }),
    {
        if self.n_total_guesses == 0 {
            return None;
        }
        let all_guess_indices = all_indices(self.n_total_guesses);
        let g = pick_min_remaining(candidates, all_guess_indices.as_slice(), self.response_cache);
        proof {
            assert forall|h: int| 0 <= h < self.n_total_guesses implies {
                let sh = #[trigger] guess_score(*self.response_cache, candidates.members(), h);
                let sg = guess_score(*self.response_cache, candidates.members(), g as int);
                sg < sh || (sg == sh && g <= h)
            } by {
                assert(all_guess_indices@[h] == h);
            }
            let s = candidates.members();
            let n = self.n_total_guesses as nat;
            let best = choose|b: usize| min_remaining_best(*self.response_cache, s, n, b);
            assert(min_remaining_best(*self.response_cache, s, n, g));
            assert(guess_score(*self.response_cache, s, best as int) == guess_score(*self.response_cache, s, best as int));
            assert(guess_score(*self.response_cache, s, g as int) == guess_score(*self.response_cache, s, g as int));
            assert(best == g);
        }
        Some(g)
    }
}

/// Picks the guess that the memo of a strategy search shows to be optimal.
pub struct OptimalPolicy<'a> {
    pub all_guesses: &'a [[u8; N_CHARS]],
    pub response_cache: &'a ResponseCache,
    pub memo: &'a MemoCache,
    pub n_total_candidates: usize,
}

impl<'a> Policy for OptimalPolicy<'a> {
    open spec fn n_guesses(&self) -> nat {
        self.all_guesses@.len()
    }

    open spec fn choice(&self, bits: Seq<bool>) -> Option<usize> {
        let m = memo_contents(*self.memo);
        let s = true_positions(bits);
        let key = key_of(s, bits.len());
        let n = self.all_guesses@.len();
        if m.contains_key(key) && exists|g: usize| first_at_cost(m, *self.response_cache, s, m[key] as nat, n, g) {
            Some(choose|g: usize| first_at_cost(m, *self.response_cache, s, m[key] as nat, n, g))
        } else {
            None
        }
    }

    /// The memo holds the set, and one of the guesses costs what it holds.
    open spec fn accepts(&self, candidates: BitSet) -> bool {
        let m = memo_contents(*self.memo);
        &&& cache_basic(*self.response_cache)
        &&& candidates.wf()
        &&& candidates@.len() == self.response_cache.spec_stride()
        &&& self.all_guesses@.len() <= self.response_cache.n_rows()
        &&& m.contains_key(candidates.key())
        &&& exists|g: usize| first_at_cost(m, *self.response_cache, candidates.members(), m[candidates.key()] as nat,
            self.all_guesses@.len(), g)
    }

    fn pick(&self, candidates: &BitSet) -> (r: Option<usize>)
        ensures
            ({
                let m = memo_contents(*self.memo);
                r matches Some(g) && first_at_cost(m, *self.response_cache, candidates.members(), m[candidates.key()] as nat,
                    self.all_guesses@.len(), g)
            }),
            (cache_ready(*self.response_cache) && cache_covered(*self.response_cache) && memo_sets_exact(memo_contents(*self.memo),
                *self.response_cache) && candidates.members().len() > 0) ==> (r matches Some(g) && achievable_with_first(
                cache_resp(*self.response_cache), self.response_cache.n_rows(), candidates.members(), g as int,
                memo_contents(*self.memo)[candidates.key()] as nat)),
    {
        let r = match pick_optimal(candidates, self.all_guesses.len(), self.response_cache, self.memo) {
            Ok(g) => Some(g),
            Err(_) => None,
        };
        proof {
            candidates.lemma_key_of();
            let m = memo_contents(*self.memo);
            let s = candidates.members();
            let n = self.all_guesses@.len();
            let target = m[candidates.key()] as nat;
            match r {
                Some(g) => {
                    assert(first_at_cost(m, *self.response_cache, s, target, n, g));
                    let first = choose|b: usize| first_at_cost(m, *self.response_cache, s, target, n, b);
                    assert(first_at_cost(m, *self.response_cache, s, target, n, first));
                    if first < g {
                        assert(memo_guess_cost(m, *self.response_cache, s, first as int) != Some(target));
                    }
                    if g < first {
                        assert(memo_guess_cost(m, *self.response_cache, s, g as int) != Some(target));
                    }
                },
                None => {
                    let w = choose|b: usize| first_at_cost(m, *self.response_cache, s, target, n, b);
                    assert(first_at_cost(m, *self.response_cache, s, target, n, w));
                    assert(memo_guess_cost(m, *self.response_cache, s, w as int) != Some(target));
                },
            }
        }
        r
    }
}

} // verus!
