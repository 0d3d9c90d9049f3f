use vstd::prelude::*;
use crate::bits::{key_members, BitSet};
use crate::cache::{memo_contents, memo_get, memo_insert, MemoCache};
use crate::part::{cache_resp, entry_counted, generate_partitions, get_partition_counts, split_counted};
use crate::policy::{MinRemainingPolicy, Policy};
use crate::resp::{ResponseCache, CORRECT_IDX, N_RESPONSES};
use crate::sim::{dist_total, lemma_sim_accepts_all, sim_completes, simulate};
use crate::words::N_CHARS;
use crate::plan::{
    achievable, achievable_with_first, is_min_total, lemma_first_guess, lemma_split_classes_prefix, lemma_split_cost,
    lemma_plan_cost_lower_bound, plan_cost, Plan, below, class, guesses_cover, lemma_below_all, lemma_class_finite,
    lemma_combine_achievable, lemma_nonwin_size_sum, lemma_pair_achievable, lemma_seq_sum_entry,
    lemma_seq_sum_mono, lemma_seq_sum_update, lemma_single_achievable, lemma_split_classes_entries,
    lemma_split_disjoint, lemma_split_sizes, min_total, response_model, response_range, seq_sum, split_classes,
    split_sizes, within,
};

verus! {

broadcast use vstd::seq_lib::group_to_multiset_ensures;

/// Computes a lower bound on the total guesses for a nonempty set of candidates.
pub fn lower_bound(n_candidates: usize) -> (r: usize)
    requires
        0 < n_candidates,
        2 * n_candidates - 1 <= usize::MAX,
    ensures
        r == min_total(n_candidates as nat),
{
    n_candidates + (n_candidates - 1)
}

/// Sum of the squared class sizes over the responses below `k`.
pub open spec fn score_upto(resp: spec_fn(int, int) -> int, cands: Set<int>, g: int, k: int) -> nat
    decreases k,
{
    if k <= 0 {
        0
    } else {
        score_upto(resp, cands, g, k - 1) + class(resp, cands, g, k - 1).len() * class(resp, cands, g, k - 1).len()
    }
}

/// Sum of the class sizes over the responses below `k`.
pub open spec fn size_upto(resp: spec_fn(int, int) -> int, cands: Set<int>, g: int, k: int) -> nat
    decreases k,
{
    if k <= 0 {
        0
    } else {
        size_upto(resp, cands, g, k - 1) + class(resp, cands, g, k - 1).len()
    }
}

/// Sum of the lower bounds of the classes below `k`, the win class left out.
pub open spec fn lb_upto(resp: spec_fn(int, int) -> int, cands: Set<int>, g: int, k: int) -> nat
    decreases k,
{
    if k <= 0 {
        0
    } else {
        lb_upto(resp, cands, g, k - 1) + if k - 1 == CORRECT_IDX {
            0nat
        } else {
            min_total(class(resp, cands, g, k - 1).len())
        }
    }
}

/// Number of nonempty classes below `k`.
pub open spec fn found_upto(resp: spec_fn(int, int) -> int, cands: Set<int>, g: int, k: int) -> nat
    decreases k,
{
    if k <= 0 {
        0
    } else {
        found_upto(resp, cands, g, k - 1) + if class(resp, cands, g, k - 1).len() > 0 { 1nat } else { 0nat }
    }
}

/// The min-remaining score of guess `g`: the sum of the squared sizes of its classes.
pub open spec fn guess_score(cache: ResponseCache, cands: Set<int>, g: int) -> nat {
    score_upto(cache_resp(cache), cands, g, N_RESPONSES as int)
}

/// Guess `g` splits the candidates into at least two classes, and its lower bound
/// (`|cands|` plus the lower bounds of its classes other than the win) is below `beta`.
pub open spec fn guess_kept(cache: ResponseCache, cands: Set<int>, g: int, beta: nat) -> bool {
    &&& found_upto(cache_resp(cache), cands, g, N_RESPONSES as int) > 1
    &&& cands.len() + lb_upto(cache_resp(cache), cands, g, N_RESPONSES as int) < beta
}

/// The guesses of `gs` that are kept, in their order.
pub open spec fn kept_guesses(cache: ResponseCache, cands: Set<int>, gs: Seq<usize>, beta: nat) -> Seq<usize>
    decreases gs.len(),
{
    if gs.len() == 0 {
        Seq::empty()
    } else {
        let prev = kept_guesses(cache, cands, gs.drop_last(), beta);
        if guess_kept(cache, cands, gs.last() as int, beta) {
            prev.push(gs.last())
        } else {
            prev
        }
    }
}

/// A cache the counting functions can work with: responses for each guess in range, and
/// few enough candidates for the arithmetic.
pub open spec fn cache_basic(cache: ResponseCache) -> bool {
    &&& cache.wf()
    &&& cache.values_valid()
    &&& cache.spec_stride() <= usize::MAX - 63
    &&& cache.spec_stride() * cache.spec_stride() <= usize::MAX
    &&& 3 * cache.spec_stride() <= usize::MAX
    &&& response_range(cache_resp(cache), cache.n_rows(), cache.spec_stride())
}

/// The cache the search works with: a basic cache whose guesses win on at most one
/// candidate each, as guesses of distinct words do.
pub open spec fn cache_ready(cache: ResponseCache) -> bool {
    &&& cache_basic(cache)
    &&& response_model(cache_resp(cache), cache.n_rows(), cache.spec_stride())
}

pub proof fn lemma_size_upto(resp: spec_fn(int, int) -> int, n_guesses: nat, n: nat, cands: Set<int>, g: int, k: int)
    requires
        within(cands, n),
        0 <= g < n_guesses,
        0 <= k <= N_RESPONSES,
        response_range(resp, n_guesses, n),
    ensures
        size_upto(resp, cands, g, k) == below(resp, cands, g, k).len(),
        size_upto(resp, cands, g, k) <= cands.len(),
        score_upto(resp, cands, g, k) <= size_upto(resp, cands, g, k) * size_upto(resp, cands, g, k),
        lb_upto(resp, cands, g, k) <= 2 * size_upto(resp, cands, g, k),
    decreases k,
{
    if k == 0 {
        assert(below(resp, cands, g, 0) =~= Set::empty()) by {
            assert forall|c: int| !below(resp, cands, g, 0).contains(c) by {
                if cands.contains(c) {
                    assert(0 <= resp(g, c));
                }
            }
        }
    } else {
        lemma_size_upto(resp, n_guesses, n, cands, g, k - 1);
        let prev = below(resp, cands, g, k - 1);
        let cl = class(resp, cands, g, k - 1);
        assert(below(resp, cands, g, k) =~= prev.union(cl));
        lemma_class_finite(resp, cands, g, k - 1, n);
        vstd::set_lib::lemma_len_subset(prev, cands);
        vstd::set_lib::lemma_set_disjoint_lens(prev, cl);
        vstd::set_lib::lemma_len_subset(below(resp, cands, g, k), cands);
        let s = size_upto(resp, cands, g, k - 1);
        let c = cl.len();
        assert(score_upto(resp, cands, g, k - 1) + c * c <= (s + c) * (s + c)) by (nonlinear_arith)
            requires score_upto(resp, cands, g, k - 1) <= s * s;
    }
}

/// Two nonempty classes leave every class smaller than the candidates.
proof fn lemma_found_splits(resp: spec_fn(int, int) -> int, n_guesses: nat, n: nat, cands: Set<int>, g: int)
    requires
        within(cands, n),
        0 <= g < n_guesses,
        response_model(resp, n_guesses, n),
        found_upto(resp, cands, g, N_RESPONSES as int) > 1,
    ensures
        forall|r: int| #[trigger] class(resp, cands, g, r).len() < cands.len(),
{
    assert forall|r: int| #[trigger] class(resp, cands, g, r).len() < cands.len() by {
        lemma_class_finite(resp, cands, g, r, n);
        if class(resp, cands, g, r).len() >= cands.len() {
            vstd::set_lib::lemma_subset_equality(class(resp, cands, g, r), cands);
            lemma_found_single(resp, cands, g, r, N_RESPONSES as int);
        }
    }
}

proof fn lemma_found_single(resp: spec_fn(int, int) -> int, cands: Set<int>, g: int, r: int, k: int)
    requires
        class(resp, cands, g, r) == cands,
        0 <= k,
    ensures
        found_upto(resp, cands, g, k) <= 1,
        r >= k ==> found_upto(resp, cands, g, k) == 0,
    decreases k,
{
    if k > 0 {
        lemma_found_single(resp, cands, g, r, k - 1);
        if k - 1 != r {
            assert(class(resp, cands, g, k - 1) =~= Set::empty()) by {
                assert forall|c: int| !#[trigger] class(resp, cands, g, k - 1).contains(c) by {
                    if class(resp, cands, g, k - 1).contains(c) {
                        assert(class(resp, cands, g, r).contains(c));
                    }
                }
            }
        }
    }
}

/// Strategy costs at least the lower bounds of their classes add up to at least the
/// lower bound `lb_upto` over the responses below `k`.
proof fn lemma_lb_sum(resp: spec_fn(int, int) -> int, cands: Set<int>, g: int, costs: Seq<nat>, k: int)
    requires
        0 <= k <= N_RESPONSES,
        costs.len() == split_classes(resp, cands, g, N_RESPONSES as int).len(),
        forall|a: int| 0 <= a < costs.len() ==> #[trigger] costs[a] >= min_total(split_classes(resp, cands, g, N_RESPONSES as int)[a].1.len()),
    ensures
        seq_sum(costs.take(split_classes(resp, cands, g, k).len() as int)) >= lb_upto(resp, cands, g, k),
    decreases k,
{
    lemma_split_classes_prefix(resp, cands, g, k, N_RESPONSES as int);
    if k > 0 {
        lemma_lb_sum(resp, cands, g, costs, k - 1);
        lemma_split_classes_prefix(resp, cands, g, k - 1, N_RESPONSES as int);
        let cl = class(resp, cands, g, k - 1);
        let i = split_classes(resp, cands, g, k - 1).len() as int;
        if k - 1 != CORRECT_IDX && cl.len() > 0 {
            assert(split_classes(resp, cands, g, k) == split_classes(resp, cands, g, k - 1).push((k - 1, cl)));
            assert(split_classes(resp, cands, g, N_RESPONSES as int)[i] == (k - 1, cl));
            assert(costs.take(i + 1).drop_last() =~= costs.take(i));
            assert(costs[i] >= min_total(cl.len()));
        } else if k - 1 != CORRECT_IDX {
            assert(min_total(cl.len()) == 0);
        }
    } else {
        assert(costs.take(0) =~= Seq::<nat>::empty());
    }
}

/// The nonempty classes below `k` are those listed by `split_classes`, and the win class
/// when it is nonempty.
proof fn lemma_found_count(resp: spec_fn(int, int) -> int, cands: Set<int>, g: int, k: int)
    requires
        0 <= k,
    ensures
        found_upto(resp, cands, g, k) == split_classes(resp, cands, g, k).len()
            + if k > CORRECT_IDX && class(resp, cands, g, CORRECT_IDX as int).len() > 0 { 1nat } else { 0nat },
    decreases k,
{
    if k > 0 {
        lemma_found_count(resp, cands, g, k - 1);
    }
}

/// A guess that is kept from `gs` is among the kept guesses.
proof fn lemma_kept_contains(cache: ResponseCache, cands: Set<int>, gs: Seq<usize>, beta: nat, i: int)
    requires
        0 <= i < gs.len(),
        guess_kept(cache, cands, gs[i] as int, beta),
    ensures
        kept_guesses(cache, cands, gs, beta).contains(gs[i]),
    decreases gs.len(),
{
    let prev = kept_guesses(cache, cands, gs.drop_last(), beta);
    let cur = kept_guesses(cache, cands, gs, beta);
    if i < gs.len() - 1 {
        lemma_kept_contains(cache, cands, gs.drop_last(), beta, i);
        assert(gs.drop_last()[i] == gs[i]);
        let j = choose|j: int| 0 <= j < prev.len() && prev[j] == gs[i];
        assert(cur[j] == prev[j]);
    } else {
        assert(cur[cur.len() - 1] == gs[i]);
    }
}

/// No strategy for `cands` (three or more candidates) costs less than `bound`, when no
/// strategy starting with a kept guess does: a guess that is not kept either leaves all the
/// candidates in one class, and a cheaper strategy follows for that class, or its lower
/// bound is at least `beta`.
proof fn lemma_no_cheaper(cache: ResponseCache, cands: Set<int>, beta: nat, bound: nat, t: nat)
    requires
        cache_ready(cache),
        within(cands, cache.spec_stride()),
        cands.len() >= 3,
        bound <= beta,
        achievable(cache_resp(cache), cache.n_rows(), cands, t),
        forall|g: int| 0 <= g < cache.n_rows() && #[trigger] guess_kept(cache, cands, g, beta) ==> forall|t2: nat|
            #[trigger] achievable_with_first(cache_resp(cache), cache.n_rows(), cands, g, t2) ==> t2 >= bound,
    ensures
        t >= bound,
    decreases t,
{
    let resp = cache_resp(cache);
    let ng = cache.n_rows();
    let nn = cache.spec_stride();
    let g = lemma_first_guess(resp, ng, cands, t);
    let costs = lemma_split_cost(resp, ng, cands, g, t);
    let sc = split_classes(resp, cands, g, N_RESPONSES as int);
    lemma_split_classes_entries(resp, cands, g, N_RESPONSES as int);
    if guess_kept(cache, cands, g, beta) {
        assert(achievable_with_first(resp, ng, cands, g, t));
    } else if found_upto(resp, cands, g, N_RESPONSES as int) > 1 {
        assert forall|a: int| 0 <= a < costs.len() implies #[trigger] costs[a] >= min_total(sc[a].1.len()) by {
            assert(achievable(resp, ng, sc[a].1, costs[a]));
            let p = choose|p: Plan| plan_cost(resp, ng, sc[a].1, p) == Some(costs[a]);
            lemma_class_finite(resp, cands, g, sc[a].0, nn);
            lemma_plan_cost_lower_bound(resp, ng, nn, sc[a].1, p);
        }
        lemma_lb_sum(resp, cands, g, costs, N_RESPONSES as int);
        assert(costs.take(costs.len() as int) =~= costs);
    } else {
        lemma_found_count(resp, cands, g, N_RESPONSES as int);
        lemma_split_sizes(resp, cands, g, N_RESPONSES as int);
        lemma_nonwin_size_sum(resp, ng, nn, cands, g, N_RESPONSES as int);
        lemma_below_all(resp, ng, nn, cands, g);
        let sizes = split_sizes(resp, cands, g, N_RESPONSES as int);
        if sc.len() == 0 {
            assert(seq_sum(sizes) == 0);
            assert(false);
        }
        assert(sc.len() == 1);
        assert(sizes.drop_last() =~= Seq::<nat>::empty());
        assert(costs.drop_last() =~= Seq::<nat>::empty());
        assert(seq_sum(sizes.drop_last()) == 0);
        assert(sizes.last() == sizes[0]);
        assert(seq_sum(sizes) == sizes[0]);
        assert(seq_sum(costs) == costs[0]);
        assert(class(resp, cands, g, CORRECT_IDX as int).len() == 0);
        let part = sc[0].1;
        assert(part.subset_of(cands));
        assert(part.len() == cands.len());
        vstd::set_lib::lemma_subset_equality(part, cands);
        assert(achievable(resp, ng, cands, costs[0]));
        lemma_no_cheaper(cache, cands, beta, bound, costs[0]);
    }
}

/// Filter out guesses that don't provide information, or can't beat beta.
/// Then returns these guesses sorted by min_remaining score.
pub fn filter_and_sort_guesses(
    guesses: &[usize],
    response_cache: &ResponseCache,
    candidates: &BitSet,
    n_candidates: usize,
    beta: usize,
) -> (r: Vec<usize>)
    requires
        cache_basic(*response_cache),
        candidates.wf(),
        candidates@.len() == response_cache.spec_stride(),
        n_candidates == candidates.members().len(),
        forall|i: int| 0 <= i < guesses@.len() ==> #[trigger] guesses@[i] < response_cache.n_rows(),
    ensures
        r@.to_multiset() == kept_guesses(*response_cache, candidates.members(), guesses@, beta as nat).to_multiset(),
        forall|i: int| 0 <= i < r@.len() ==> #[trigger] guess_kept(*response_cache, candidates.members(), r@[i] as int, beta as nat)
            && r@[i] < response_cache.n_rows(),
        forall|i: int, j: int| 0 <= i < j < r@.len() ==> guess_score(*response_cache, candidates.members(), #[trigger] r@[i] as int)
            <= guess_score(*response_cache, candidates.members(), #[trigger] r@[j] as int),
{
    let ghost cache = *response_cache;
    let ghost resp = cache_resp(cache);
    let ghost cands = candidates.members();
    let ghost n = cache.spec_stride();
    proof {
        candidates.lemma_members_finite();
    }
    let mut kept_g: Vec<usize> = Vec::new();
    let mut kept_s: Vec<usize> = Vec::new();
    let mut k: usize = 0;
    while k < guesses.len()
        invariant
            cache == *response_cache,
            resp == cache_resp(cache),
            cands == candidates.members(),
            n == cache.spec_stride(),
            cache_basic(cache),
            candidates.wf(),
            candidates@.len() == n,
            within(cands, n),
            n_candidates == cands.len(),
            forall|i: int| 0 <= i < guesses@.len() ==> #[trigger] guesses@[i] < cache.n_rows(),
            k <= guesses@.len(),
            kept_g@ == kept_guesses(cache, cands, guesses@.subrange(0, k as int), beta as nat),
            kept_s@.len() == kept_g@.len(),
            forall|i: int| 0 <= i < kept_s@.len() ==> #[trigger] kept_s@[i] == guess_score(cache, cands, kept_g@[i] as int),
        decreases guesses@.len() - k,
    {
        let g_idx = guesses[k];
        let counts = get_partition_counts(candidates, response_cache, g_idx);
        let mut sum_squares: usize = 0;
        let mut guess_lb: usize = n_candidates;
        let mut n_found: usize = 0;
        let mut q: usize = 0;
        while q < N_RESPONSES
            invariant
                cache == *response_cache,
                resp == cache_resp(cache),
                cands == candidates.members(),
                cache_basic(cache),
                within(cands, n),
                n == cache.spec_stride(),
                n_candidates == cands.len(),
                g_idx < cache.n_rows(),
                counts@.len() == N_RESPONSES,
                forall|r2: int| 0 <= r2 < N_RESPONSES ==> #[trigger] counts@[r2] == class(resp, cands, g_idx as int, r2).len(),
                q <= N_RESPONSES,
                sum_squares == score_upto(resp, cands, g_idx as int, q as int),
                guess_lb == n_candidates + lb_upto(resp, cands, g_idx as int, q as int),
                n_found == found_upto(resp, cands, g_idx as int, q as int),
                n_found <= q,
            decreases N_RESPONSES - q,
        {
            let c = counts[q];
            proof {
                lemma_size_upto(resp, cache.n_rows(), n, cands, g_idx as int, (q + 1) as int);
                vstd::set_lib::lemma_int_range(0, n as int);
                assert(cands.subset_of(vstd::set_lib::set_int_range(0, n as int)));
                vstd::set_lib::lemma_len_subset(cands, vstd::set_lib::set_int_range(0, n as int));
                let s1 = size_upto(resp, cands, g_idx as int, (q + 1) as int);
                assert(s1 * s1 <= n * n) by (nonlinear_arith)
                    requires s1 <= n;
            }
            sum_squares = sum_squares + c * c;
            if q != CORRECT_IDX && c > 0 {
                guess_lb = guess_lb + lower_bound(c);
            }
            if c > 0 {
                n_found = n_found + 1;
            }
            q += 1;
        }
        if n_found > 1 && guess_lb < beta {
            kept_g.push(g_idx);
            kept_s.push(sum_squares);
        }
        k += 1;
        proof {
            assert(guesses@.subrange(0, k as int).drop_last() =~= guesses@.subrange(0, k - 1));
        }
    }
    assert(guesses@.subrange(0, guesses@.len() as int) =~= guesses@);
    let ghost kept = kept_g@;
    proof {
        lemma_kept_guesses(cache, cands, guesses@, beta as nat);
        assert(kept == kept_guesses(cache, cands, guesses@, beta as nat));
    }
    // Sort the kept guesses by score (stable insertion).
    let mut out_g: Vec<usize> = Vec::new();
    let mut out_s: Vec<usize> = Vec::new();
    let mut i: usize = 0;
    assert(kept.subrange(0, 0) =~= Seq::<usize>::empty());
    assert(out_g@ =~= Seq::<usize>::empty());
    while i < kept_g.len()
        invariant
            kept == kept_g@,
            kept_s@.len() == kept.len(),
            forall|t: int| 0 <= t < kept_s@.len() ==> #[trigger] kept_s@[t] == guess_score(cache, cands, kept[t] as int),
            i <= kept.len(),
            out_g@.to_multiset() == kept.subrange(0, i as int).to_multiset(),
            out_s@.len() == out_g@.len(),
            forall|t: int| 0 <= t < out_s@.len() ==> #[trigger] out_s@[t] == guess_score(cache, cands, out_g@[t] as int),
            forall|a: int, b: int| 0 <= a < b < out_s@.len() ==> #[trigger] out_s@[a] <= #[trigger] out_s@[b],
        decreases kept.len() - i,
    {
        let g = kept_g[i];
        let sc = kept_s[i];
        let mut pos: usize = 0;
        while pos < out_s.len() && out_s[pos] <= sc
            invariant
                pos <= out_s@.len(),
                forall|t: int| 0 <= t < pos ==> #[trigger] out_s@[t] <= sc,
            decreases out_s@.len() - pos,
        {
            pos += 1;
        }
        let ghost old_g = out_g@;
        let ghost old_s = out_s@;
        out_g.insert(pos, g);
        out_s.insert(pos, sc);
        proof {
            vstd::seq_lib::to_multiset_insert(old_g, pos as int, g);
            assert(kept.subrange(0, i + 1) =~= kept.subrange(0, i as int).push(g));
            vstd::seq_lib::to_multiset_build(kept.subrange(0, i as int), g);
            assert forall|a: int, b: int| 0 <= a < b < out_s@.len() implies #[trigger] out_s@[a] <= #[trigger] out_s@[b] by {
                if b < pos {
                } else if b == pos {
                } else if a < pos {
                    assert(old_s[a] <= sc);
                    assert(pos < old_s.len() ==> old_s[pos as int] > sc);
                    assert(old_s[b - 1] >= old_s[pos as int] || b - 1 == pos);
                } else if a == pos {
                    assert(old_s[pos as int] > sc);
                }
            }
        }
        i += 1;
    }
    assert(kept.subrange(0, kept.len() as int) =~= kept);
    proof {
        assert forall|t: int| 0 <= t < out_g@.len() implies #[trigger] guess_kept(cache, cands, out_g@[t] as int, beta as nat)
            && out_g@[t] < cache.n_rows() by {
            vstd::seq_lib::to_multiset_contains(out_g@, out_g@[t]);
            vstd::seq_lib::to_multiset_contains(kept, out_g@[t]);
            let u = choose|u: int| 0 <= u < kept.len() && kept[u] == out_g@[t];
            assert(guess_kept(cache, cands, kept[u] as int, beta as nat) && kept[u] < cache.n_rows());
        }
        assert forall|a: int, b: int| 0 <= a < b < out_g@.len() implies guess_score(cache, cands, #[trigger] out_g@[a] as int)
            <= guess_score(cache, cands, #[trigger] out_g@[b] as int) by {
            assert(out_s@[a] <= out_s@[b]);
        }
    }
    out_g
}

/// The kept guesses are kept, and valid guess indices.
proof fn lemma_kept_guesses(cache: ResponseCache, cands: Set<int>, gs: Seq<usize>, beta: nat)
    requires
        forall|i: int| 0 <= i < gs.len() ==> #[trigger] gs[i] < cache.n_rows(),
    ensures
        forall|i: int| 0 <= i < kept_guesses(cache, cands, gs, beta).len() ==>
            #[trigger] guess_kept(cache, cands, kept_guesses(cache, cands, gs, beta)[i] as int, beta)
            && kept_guesses(cache, cands, gs, beta)[i] < cache.n_rows(),
    decreases gs.len(),
{
    if gs.len() > 0 {
        lemma_kept_guesses(cache, cands, gs.drop_last(), beta);
        assert(gs.last() == gs[gs.len() - 1]);
        let prev = kept_guesses(cache, cands, gs.drop_last(), beta);
        let cur = kept_guesses(cache, cands, gs, beta);
        assert forall|i: int| 0 <= i < cur.len() implies #[trigger] guess_kept(cache, cands, cur[i] as int, beta) && cur[i] < cache.n_rows() by {
            if i < prev.len() {
                assert(cur[i] == prev[i]);
                assert(guess_kept(cache, cands, prev[i] as int, beta));
            }
        }
    }
}

/// The memo keys, each read as the set of its members.
pub type MemoMap = Map<(Seq<u64>, usize), usize>;

/// Every memo entry is at least the lower bound for its set.
pub open spec fn memo_bounded(m: MemoMap) -> bool {
    forall|k: (Seq<u64>, usize)| #[trigger] m.contains_key(k) ==> m[k] >= min_total(key_members(k).len())
}

/// Every memo entry is the fewest guesses in total that any strategy takes for its set.
pub open spec fn memo_exact(m: MemoMap, cache: ResponseCache) -> bool {
    forall|k: (Seq<u64>, usize)| #[trigger] m.contains_key(k) ==> is_min_total(cache_resp(cache), cache.n_rows(), key_members(k), m[k] as nat)
}

/// Evaluating `cands` kept every entry and added entries only for subsets of `cands`.
pub open spec fn memo_grows_within(old: MemoMap, new: MemoMap, cands: Set<int>) -> bool {
    &&& forall|k: (Seq<u64>, usize)| #[trigger] old.contains_key(k) ==> new.contains_key(k) && new[k] == old[k]
    &&& forall|k: (Seq<u64>, usize)| #[trigger] new.contains_key(k) && !old.contains_key(k) ==> key_members(k).subset_of(cands)
}

/// Every candidate of the cache has a guess that wins on it.
pub open spec fn cache_covered(cache: ResponseCache) -> bool {
    guesses_cover(cache_resp(cache), cache.n_rows(), cache.spec_stride())
}

/// Guess `g` splits the candidates: no class holds all of them.
pub open spec fn splits(cache: ResponseCache, cands: Set<int>, g: int) -> bool {
    forall|r: int| #[trigger] class(cache_resp(cache), cands, g, r).len() < cands.len()
}

/// What the value `v` found for a class of a guess satisfies.
pub open spec fn part_value_ok(cache: ResponseCache, part: Set<int>, v: nat, sound0: bool) -> bool {
    &&& v >= min_total(part.len())
    &&& (cache_covered(cache) && sound0) ==> is_min_total(cache_resp(cache), cache.n_rows(), part, v)
}

/// A strategy of the lower-bound total is a fewest-guesses one.
pub proof fn lemma_lower_bound_min(cache: ResponseCache, part: Set<int>, v: nat)
    requires
        cache_ready(cache),
        within(part, cache.spec_stride()),
        v == min_total(part.len()),
        achievable(cache_resp(cache), cache.n_rows(), part, v),
    ensures
        is_min_total(cache_resp(cache), cache.n_rows(), part, v),
{
    assert forall|t2: nat| #[trigger] achievable(cache_resp(cache), cache.n_rows(), part, t2) implies v <= t2 by {
        let p = choose|p: Plan| plan_cost(cache_resp(cache), cache.n_rows(), part, p) == Some(t2);
        lemma_plan_cost_lower_bound(cache_resp(cache), cache.n_rows(), cache.spec_stride(), part, p);
    }
}

/// Every strategy for `part` costs at least its lower bound.
pub proof fn lemma_at_least_lower_bound(cache: ResponseCache, part: Set<int>, t: nat)
    requires
        cache_ready(cache),
        within(part, cache.spec_stride()),
        achievable(cache_resp(cache), cache.n_rows(), part, t),
    ensures
        t >= min_total(part.len()),
{
    let p = choose|p: Plan| plan_cost(cache_resp(cache), cache.n_rows(), part, p) == Some(t);
    lemma_plan_cost_lower_bound(cache_resp(cache), cache.n_rows(), cache.spec_stride(), part, p);
}

pub proof fn lemma_set_one(s: Set<int>) -> (c: int)
    requires
        s.finite(),
        s.len() == 1,
    ensures
        s == set![c],
{
    let c = s.choose();
    assert(s.contains(c));
    assert(s.remove(c).len() == 0);
    assert(s.remove(c) =~= Set::empty());
    assert(s =~= set![c]);
    c
}

pub proof fn lemma_set_two(s: Set<int>) -> (cs: (int, int))
    requires
        s.finite(),
        s.len() == 2,
    ensures
        cs.0 != cs.1,
        s == set![cs.0, cs.1],
{
    let a = s.choose();
    assert(s.contains(a));
    let b = lemma_set_one(s.remove(a));
    assert(s =~= set![a, b]);
    (a, b)
}

/// A prefix of a sequence of naturals sums to at most the whole.
proof fn lemma_seq_sum_prefix(s: Seq<nat>, i: int)
    requires
        0 <= i <= s.len(),
    ensures
        seq_sum(s.take(i)) <= seq_sum(s),
    decreases s.len(),
{
    if i < s.len() {
        lemma_seq_sum_prefix(s.drop_last(), i);
        assert(s.drop_last().take(i) =~= s.take(i));
    } else {
        assert(s.take(i) =~= s);
    }
}

/// Every strategy that starts with `g` costs at least `|cands|` plus `vals`, when each value
/// is at most what any strategy costs for the class it stands for.
proof fn lemma_guess_lower(cache: ResponseCache, cands: Set<int>, g: int, vals: Seq<nat>, t2: nat)
    requires
        cands.len() > 0,
        achievable_with_first(cache_resp(cache), cache.n_rows(), cands, g, t2),
        vals.len() <= split_classes(cache_resp(cache), cands, g, N_RESPONSES as int).len(),
        forall|a: int, t: nat| 0 <= a < vals.len() && #[trigger] achievable(cache_resp(cache), cache.n_rows(),
            split_classes(cache_resp(cache), cands, g, N_RESPONSES as int)[a].1, t) ==> vals[a] <= t,
    ensures
        t2 >= cands.len() + seq_sum(vals),
{
    let resp = cache_resp(cache);
    let ng = cache.n_rows();
    let sc = split_classes(resp, cands, g, N_RESPONSES as int);
    let costs = lemma_split_cost(resp, ng, cands, g, t2);
    let c = costs.take(vals.len() as int);
    assert forall|a: int| 0 <= a < vals.len() implies #[trigger] vals[a] <= c[a] by {
        assert(achievable(resp, ng, sc[a].1, costs[a]));
    }
    lemma_seq_sum_mono(vals, c);
    lemma_seq_sum_prefix(costs, vals.len() as int);
}

/// The values of settled or pending slots are at most what any strategy costs for their
/// classes.
proof fn lemma_slots_lower(
    cache: ResponseCache,
    cands: Set<int>,
    sc: Seq<(int, Set<int>)>,
    parts: Seq<(BitSet, usize)>,
    vals: Seq<nat>,
    pend: Seq<usize>,
    m: MemoMap,
    sound0: bool,
    n_slots: int,
)
    requires
        cache_ready(cache),
        cache_covered(cache),
        sound0,
        within(cands, cache.spec_stride()),
        0 <= n_slots <= vals.len(),
        n_slots <= sc.len(),
        forall|a: int| 0 <= a < n_slots ==> (#[trigger] sc[a]).1.subset_of(cands),
        forall|a: int| 0 <= a < n_slots ==> #[trigger] slot_ok_at(cache, sc, parts, vals, pend, m, sound0, a),
    ensures
        forall|a: int, t: nat| 0 <= a < n_slots && #[trigger] achievable(cache_resp(cache), cache.n_rows(), sc[a].1, t) ==> vals[a] <= t,
{
    assert forall|a: int, t: nat| 0 <= a < n_slots && #[trigger] achievable(cache_resp(cache), cache.n_rows(), sc[a].1, t)
        implies vals[a] <= t by {
        assert(slot_ok_at(cache, sc, parts, vals, pend, m, sound0, a));
        assert(sc[a].1.subset_of(cands));
        vstd::set_lib::lemma_len_subset(sc[a].1, cands);
        assert(within(sc[a].1, cache.spec_stride()));
        if pend.contains(a as usize) {
            lemma_at_least_lower_bound(cache, sc[a].1, t);
        } else {
            assert(part_value_ok(cache, sc[a].1, vals[a], sound0));
        }
    }
}

struct SolverContext<'a> {
    response_cache: &'a ResponseCache,
}

impl<'a> SolverContext<'a> {
    /// Searches the guesses for the lowest total cost of the candidate set below `beta`
    /// (the guesses of `guesses` kept for the set, tried in order of score), records it in
    /// the memo, and returns it; `usize::MAX` when none is found below `beta`.
    fn evaluate_candidates(&self, memo: &mut MemoCache, candidates: &BitSet, guesses: &[usize], beta: usize) -> (r: usize)
        requires
            cache_ready(*self.response_cache),
            memo_bounded(memo_contents(*old(memo))),
            candidates.wf(),
            candidates@.len() == self.response_cache.spec_stride(),
            candidates.members().len() >= 1,
            forall|i: int| 0 <= i < guesses@.len() ==> #[trigger] guesses@[i] < self.response_cache.n_rows(),
            forall|g: usize| g < self.response_cache.n_rows() ==> #[trigger] guesses@.contains(g),
            self.response_cache.n_rows() <= usize::MAX,
        ensures
            memo_bounded(memo_contents(*final(memo))),
            memo_grows_within(memo_contents(*old(memo)), memo_contents(*final(memo)), candidates.members()),
            r != usize::MAX ==> r >= min_total(candidates.members().len()),
            (candidates.members().len() >= 3 && !memo_contents(*old(memo)).contains_key(candidates.key()) && r != usize::MAX) ==> r < beta,
            (cache_covered(*self.response_cache) && memo_exact(memo_contents(*old(memo)), *self.response_cache)) ==> {
                &&& memo_exact(memo_contents(*final(memo)), *self.response_cache)
                &&& (r != usize::MAX ==> is_min_total(cache_resp(*self.response_cache), self.response_cache.n_rows(), candidates.members(), r as nat))
                &&& (r == usize::MAX ==> forall|t: nat| #[trigger] achievable(cache_resp(*self.response_cache),
                    self.response_cache.n_rows(), candidates.members(), t) ==> t >= beta)
            },
        decreases candidates.members().len(), 1nat,
    {
        let ghost cache = *self.response_cache;
        let ghost resp = cache_resp(cache);
        let ghost ng = cache.n_rows();
        let ghost nn = cache.spec_stride();
        let ghost cands = candidates.members();
        let ghost m0 = memo_contents(*memo);
        let ghost ex0 = cache_covered(cache) && memo_exact(m0, cache);
        proof {
            candidates.lemma_members_finite();
            candidates.lemma_key_members();
        }
        let n_candidates = candidates.count_ones();
        if n_candidates == 1 {
            proof {
                if cache_covered(cache) {
                    let c = lemma_set_one(cands);
                    assert(cands.contains(c));
                    assert(crate::plan::has_winning_guess(resp, ng, c));
                    lemma_single_achievable(resp, ng, nn, c);
                    lemma_lower_bound_min(cache, cands, 1);
                }
            }
            return 1;
        }
        if n_candidates == 2 {
            proof {
                if cache_covered(cache) {
                    let (c1, c2) = lemma_set_two(cands);
                    assert(cands.contains(c1) && cands.contains(c2));
                    assert(crate::plan::has_winning_guess(resp, ng, c1));
                    assert(crate::plan::has_winning_guess(resp, ng, c2));
                    lemma_pair_achievable(resp, ng, nn, c1, c2);
                    lemma_lower_bound_min(cache, cands, 3);
                }
            }
            return 3;
        }
        match memo_get(memo, candidates) {
            Some(cost) => {
                proof {
                    if ex0 {
                        assert(m0.contains_key(candidates.key()));
                    }
                }
                return cost;
            },
            None => {},
        }
        proof {
            vstd::set_lib::lemma_int_range(0, nn as int);
            assert(cands.subset_of(vstd::set_lib::set_int_range(0, nn as int)));
            vstd::set_lib::lemma_len_subset(cands, vstd::set_lib::set_int_range(0, nn as int));
        }
        if lower_bound(n_candidates) > beta {
            proof {
                if ex0 {
                    assert forall|t: nat| #[trigger] achievable(resp, ng, cands, t) implies t >= beta by {
                        lemma_at_least_lower_bound(cache, cands, t);
                    }
                }
            }
            return usize::MAX;
        }
        let next_guesses = filter_and_sort_guesses(guesses, self.response_cache, candidates, n_candidates, beta);
        assert forall|i: int| 0 <= i < next_guesses@.len() implies #[trigger] next_guesses@[i] < ng by {
            assert(guess_kept(cache, cands, next_guesses@[i] as int, beta as nat));
        }
        let mut lowest_guess_cost = usize::MAX;
        let mut beta_cur = beta;
        let mut k: usize = 0;
        while k < next_guesses.len()
            invariant
                cache == *self.response_cache,
                resp == cache_resp(cache),
                ng == cache.n_rows(),
                nn == cache.spec_stride(),
                cands == candidates.members(),
                cache_ready(cache),
                candidates.wf(),
                candidates@.len() == nn,
                within(cands, nn),
                n_candidates == cands.len(),
                n_candidates >= 3,
                !m0.contains_key(candidates.key()),
                forall|i: int| 0 <= i < next_guesses@.len() ==> #[trigger] guess_kept(cache, cands, next_guesses@[i] as int, beta as nat)
                    && next_guesses@[i] < ng,
                forall|i: int| 0 <= i < next_guesses@.len() ==> #[trigger] next_guesses@[i] < ng,
                k <= next_guesses@.len(),
                beta_cur <= beta,
                lowest_guess_cost == usize::MAX || (lowest_guess_cost == beta_cur && lowest_guess_cost < beta
                    && lowest_guess_cost >= min_total(cands.len())
                    && ((cache_covered(cache) && memo_exact(m0, cache)) ==> achievable(resp, ng, cands, lowest_guess_cost as nat))),
                memo_bounded(memo_contents(*memo)),
                memo_grows_within(m0, memo_contents(*memo), cands),
                (cache_covered(cache) && memo_exact(m0, cache)) ==> memo_exact(memo_contents(*memo), cache),
                ex0 == (cache_covered(cache) && memo_exact(m0, cache)),
                forall|g: usize| g < ng ==> #[trigger] guesses@.contains(g),
                forall|i: int| 0 <= i < guesses@.len() ==> #[trigger] guesses@[i] < ng,
                ng <= usize::MAX,
                lowest_guess_cost == usize::MAX ==> beta_cur == beta,
                ex0 ==> forall|j: int, t2: nat| 0 <= j < k && #[trigger] achievable_with_first(resp, ng, cands, next_guesses@[j] as int, t2)
                    ==> t2 >= beta_cur,
            decreases next_guesses@.len() - k,
        {
            let g_idx = next_guesses[k];
            proof {
                assert(guess_kept(cache, cands, g_idx as int, beta as nat));
                lemma_found_splits(resp, ng, nn, cands, g_idx as int);
            }
            let ghost m1 = memo_contents(*memo);
            let guess_cost = self.evaluate_guess(memo, g_idx, candidates, guesses, beta_cur, n_candidates);
            proof {
                lemma_grows_trans(m0, m1, memo_contents(*memo), cands, cands);
            }
            let ghost bc0 = beta_cur;
            if guess_cost < beta_cur {
                beta_cur = guess_cost;
                lowest_guess_cost = guess_cost;
            }
            proof {
                if ex0 {
                    assert forall|j: int, t2: nat| 0 <= j < k + 1 && #[trigger] achievable_with_first(resp, ng, cands,
                        next_guesses@[j] as int, t2) implies t2 >= beta_cur by {
                        if j == k {
                            assert(next_guesses@[j] == g_idx);
                        }
                    }
                }
            }
            k += 1;
        }
        proof {
            if ex0 {
                assert forall|g: int| 0 <= g < ng && #[trigger] guess_kept(cache, cands, g, beta as nat) implies forall|t2: nat|
                    #[trigger] achievable_with_first(resp, ng, cands, g, t2) ==> t2 >= beta_cur by {
                    assert(guesses@.contains(g as usize));
                    let i = choose|i: int| 0 <= i < guesses@.len() && guesses@[i] == g as usize;
                    assert(guesses@[i] as int == g);
                    lemma_kept_contains(cache, cands, guesses@, beta as nat, i);
                    let kept = kept_guesses(cache, cands, guesses@, beta as nat);
                    assert(kept.to_multiset().count(g as usize) > 0);
                    assert(next_guesses@.to_multiset().count(g as usize) > 0);
                    assert(next_guesses@.contains(g as usize));
                    let j = choose|j: int| 0 <= j < next_guesses@.len() && next_guesses@[j] == g as usize;
                    assert forall|t2: nat| #[trigger] achievable_with_first(resp, ng, cands, g, t2) implies t2 >= beta_cur by {
                        assert(next_guesses@[j] as int == g);
                        assert(achievable_with_first(resp, ng, cands, next_guesses@[j] as int, t2));
                    }
                }
                assert forall|t: nat| #[trigger] achievable(resp, ng, cands, t) implies t >= beta_cur by {
                    lemma_no_cheaper(cache, cands, beta as nat, beta_cur as nat, t);
                }
            }
        }
        if lowest_guess_cost != usize::MAX {
            let key = candidates.duplicate();
            let ghost m2 = memo_contents(*memo);
            memo_insert(memo, key, lowest_guess_cost);
            proof {
                let m3 = memo_contents(*memo);
                assert(key.key() == candidates.key());
                assert forall|kk: (Seq<u64>, usize)| #[trigger] m3.contains_key(kk) implies m3[kk] >= min_total(key_members(kk).len()) by {
                    if kk != candidates.key() {
                        assert(m2.contains_key(kk));
                    }
                }
                assert forall|kk: (Seq<u64>, usize)| #[trigger] m3.contains_key(kk) && !m0.contains_key(kk) implies key_members(kk).subset_of(cands) by {
                    if kk != candidates.key() {
                        assert(m2.contains_key(kk));
                    }
                }
                assert forall|kk: (Seq<u64>, usize)| #[trigger] m0.contains_key(kk) implies m3.contains_key(kk) && m3[kk] == m0[kk] by {
                    assert(m2.contains_key(kk));
                }
                if cache_covered(cache) && memo_exact(m0, cache) {
                    assert forall|kk: (Seq<u64>, usize)| #[trigger] m3.contains_key(kk) implies is_min_total(resp, ng, key_members(kk), m3[kk] as nat) by {
                        if kk != candidates.key() {
                            assert(m2.contains_key(kk));
                        }
                    }
                }
            }
        }
        lowest_guess_cost
    }

    /// The total cost of guessing `g_idx` first, the classes costed by the search (largest
    /// first), if it stays at most `beta`; `usize::MAX` as soon as it exceeds `beta`.
    fn evaluate_guess(
        &self,
        memo: &mut MemoCache,
        g_idx: usize,
        candidates: &BitSet,
        guesses: &[usize],
        beta: usize,
        n_candidates: usize,
    ) -> (r: usize)
        requires
            cache_ready(*self.response_cache),
            memo_bounded(memo_contents(*old(memo))),
            candidates.wf(),
            candidates@.len() == self.response_cache.spec_stride(),
            n_candidates == candidates.members().len(),
            n_candidates >= 1,
            g_idx < self.response_cache.n_rows(),
            splits(*self.response_cache, candidates.members(), g_idx as int),
            forall|i: int| 0 <= i < guesses@.len() ==> #[trigger] guesses@[i] < self.response_cache.n_rows(),
            forall|g: usize| g < self.response_cache.n_rows() ==> #[trigger] guesses@.contains(g),
            self.response_cache.n_rows() <= usize::MAX,
        ensures
            memo_bounded(memo_contents(*final(memo))),
            memo_grows_within(memo_contents(*old(memo)), memo_contents(*final(memo)), candidates.members()),
            r != usize::MAX ==> r >= min_total(candidates.members().len()) && r <= beta,
            (cache_covered(*self.response_cache) && memo_exact(memo_contents(*old(memo)), *self.response_cache)) ==> {
                &&& memo_exact(memo_contents(*final(memo)), *self.response_cache)
                &&& (r != usize::MAX ==> achievable_with_first(cache_resp(*self.response_cache), self.response_cache.n_rows(),
                    candidates.members(), g_idx as int, r as nat))
                &&& (r != usize::MAX ==> forall|t2: nat| #[trigger] achievable_with_first(cache_resp(*self.response_cache),
                    self.response_cache.n_rows(), candidates.members(), g_idx as int, t2) ==> r <= t2)
                &&& (r == usize::MAX ==> forall|t2: nat| #[trigger] achievable_with_first(cache_resp(*self.response_cache),
                    self.response_cache.n_rows(), candidates.members(), g_idx as int, t2) ==> t2 >= beta)
            },
        decreases candidates.members().len(), 0nat,
    {
        let ghost cache = *self.response_cache;
        let ghost resp = cache_resp(cache);
        let ghost ng = cache.n_rows();
        let ghost nn = cache.spec_stride();
        let ghost cands = candidates.members();
        let ghost m0 = memo_contents(*memo);
        let ghost sound0 = memo_exact(m0, cache);
        let ghost sc = split_classes(resp, cands, g_idx as int, N_RESPONSES as int);
        let ghost sizes = split_sizes(resp, cands, g_idx as int, N_RESPONSES as int);
        proof {
            candidates.lemma_members_finite();
            lemma_split_sizes(resp, cands, g_idx as int, N_RESPONSES as int);
            lemma_split_disjoint(resp, cands, g_idx as int, N_RESPONSES as int);
            lemma_split_classes_entries(resp, cands, g_idx as int, N_RESPONSES as int);
            lemma_nonwin_size_sum(resp, ng, nn, cands, g_idx as int, N_RESPONSES as int);
            lemma_below_all(resp, ng, nn, cands, g_idx as int);
            assert(class(resp, cands, g_idx as int, CORRECT_IDX as int).len() < cands.len());
        }
        let partitions = generate_partitions(candidates, self.response_cache, g_idx);
        proof {
            vstd::set_lib::lemma_int_range(0, nn as int);
            assert(cands.subset_of(vstd::set_lib::set_int_range(0, nn as int)));
            vstd::set_lib::lemma_len_subset(cands, vstd::set_lib::set_int_range(0, nn as int));
        }
        let mut guess_lb: usize = n_candidates;
        let mut unresolved: Vec<usize> = Vec::new();
        let ghost mut vals: Seq<nat> = Seq::empty();
        let mut i: usize = 0;
        while i < partitions.len()
            invariant
                cache == *self.response_cache,
                resp == cache_resp(cache),
                ng == cache.n_rows(),
                nn == cache.spec_stride(),
                cands == candidates.members(),
                cache_ready(cache),
                within(cands, nn),
                n_candidates == cands.len(),
                n_candidates <= nn,
                m0 == memo_contents(*memo),
                memo_bounded(m0),
                sound0 == memo_exact(m0, cache),
                m0 == memo_contents(*old(memo)),
                sc == split_classes(resp, cands, g_idx as int, N_RESPONSES as int),
                split_counted(partitions@, sc, nn),
                forall|t: int| 0 <= t < sc.len() ==> (#[trigger] sc[t]).1.subset_of(cands) && sc[t].1.len() > 0,
                i <= partitions@.len(),
                vals.len() == i,
                guess_lb == n_candidates + seq_sum(vals),
                i > 0 ==> guess_lb <= beta,
                forall|u: int, v: int| 0 <= u < v < unresolved@.len() ==> #[trigger] unresolved@[u] < #[trigger] unresolved@[v],
                forall|u: int| 0 <= u < unresolved@.len() ==> #[trigger] unresolved@[u] < i,
                forall|t: int| 0 <= t < i ==> #[trigger] slot_ok_at(cache, sc, partitions@, vals, unresolved@, m0, sound0, t),
            decreases partitions@.len() - i,
        {
            let size = partitions[i].1;
            assert(entry_counted(partitions@[i as int], sc[i as int], nn));
            let ghost part = sc[i as int].1;
            let ghost bits = partitions@[i as int].0;
            let ghost unres0 = unresolved@;
            proof {
                vstd::set_lib::lemma_len_subset(part, cands);
                bits.lemma_key_members();
            }
            let ghost v: nat;
            let ghost pending: bool;
            let add: usize;
            if size == 1 {
                add = 1;
                proof {
                    v = 1;
                    pending = false;
                    if cache_covered(cache) && sound0 {
                        let c = lemma_set_one(part);
                        assert(part.contains(c));
                        assert(crate::plan::has_winning_guess(resp, ng, c));
                        lemma_single_achievable(resp, ng, nn, c);
                        lemma_lower_bound_min(cache, part, 1);
                    }
                }
            } else if size == 2 {
                add = 3;
                proof {
                    v = 3;
                    pending = false;
                    if cache_covered(cache) && sound0 {
                        let (c1, c2) = lemma_set_two(part);
                        assert(part.contains(c1) && part.contains(c2));
                        assert(crate::plan::has_winning_guess(resp, ng, c1));
                        assert(crate::plan::has_winning_guess(resp, ng, c2));
                        lemma_pair_achievable(resp, ng, nn, c1, c2);
                        lemma_lower_bound_min(cache, part, 3);
                    }
                }
            } else {
                match memo_get(memo, &partitions[i].0) {
                    Some(cached_val) => {
                        add = cached_val;
                        proof {
                            v = cached_val as nat;
                            pending = false;
                            assert(m0.contains_key(bits.key()));
                        }
                    },
                    None => {
                        add = lower_bound(size);
                        unresolved.push(i);
                        proof {
                            v = min_total(size as nat);
                            pending = true;
                        }
                    },
                }
            }
            assert(slot_ok(cache, part, bits, v, pending, m0, sound0));
            proof {
                let vals0 = vals;
                vals = vals.push(v);
                assert(vals.drop_last() == vals0);
                assert(unresolved@ == if pending { unres0.push(i) } else { unres0 });
                assert forall|t: int| 0 <= t < i + 1 implies #[trigger] slot_ok_at(cache, sc, partitions@, vals, unresolved@, m0, sound0, t) by {
                    vstd::seq_lib::lemma_seq_contains_after_push(unres0, i, t as usize);
                    if t < i {
                        assert(vals[t] == vals0[t]);
                        assert(slot_ok_at(cache, sc, partitions@, vals0, unres0, m0, sound0, t));
                    } else {
                        if unres0.contains(i) {
                            let u = choose|u: int| 0 <= u < unres0.len() && unres0[u] == i;
                            assert(unres0[u] < i);
                        }
                    }
                }
            }
            proof {
                if cache_covered(cache) && sound0 {
                    lemma_slots_lower(cache, cands, sc, partitions@, vals, unresolved@, m0, sound0, i + 1);
                    assert forall|t2: nat| #[trigger] achievable_with_first(resp, ng, cands, g_idx as int, t2) implies t2
                        >= n_candidates + seq_sum(vals) by {
                        lemma_guess_lower(cache, cands, g_idx as int, vals, t2);
                    }
                }
            }
            match guess_lb.checked_add(add) {
                Some(x) => {
                    guess_lb = x;
                },
                None => {
                    return usize::MAX;
                },
            }
            if guess_lb > beta {
                return usize::MAX;
            }
            i += 1;
        }
        proof {
            assert(sc.len() > 0) by {
                if sc.len() == 0 {
                    assert(sizes.len() == 0);
                    assert(seq_sum(sizes) == 0);
                }
            }
        }
        assert(guess_lb <= beta);
        let order = sort_by_size_desc(&unresolved, &partitions);
        proof {
            assert(unresolved@.no_duplicates()) by {
                assert forall|a: int, b: int| 0 <= a < unresolved@.len() && 0 <= b < unresolved@.len() && a != b
                    implies unresolved@[a] != unresolved@[b] by {
                    if a < b {
                        assert(unresolved@[a] < unresolved@[b]);
                    } else {
                        assert(unresolved@[b] < unresolved@[a]);
                    }
                }
            }
            unresolved@.lemma_multiset_has_no_duplicates();
            order@.lemma_multiset_has_no_duplicates_conv();
            assert forall|a: int| 0 <= a < sc.len() implies #[trigger] slot_ok_at(cache, sc, partitions@, vals, order@, m0, sound0, a) by {
                assert(slot_ok_at(cache, sc, partitions@, vals, unresolved@, m0, sound0, a));
                vstd::seq_lib::to_multiset_contains(unresolved@, a as usize);
                vstd::seq_lib::to_multiset_contains(order@, a as usize);
                if unresolved@.contains(a as usize) {
                    vstd::seq_lib::lemma_seq_contains(unresolved@, a as usize);
                }
            }
            assert(order@.subrange(0, order@.len() as int) == order@);
        }
        let mut t: usize = 0;
        while t < order.len()
            invariant
                cache == *self.response_cache,
                resp == cache_resp(cache),
                ng == cache.n_rows(),
                nn == cache.spec_stride(),
                cands == candidates.members(),
                cache_ready(cache),
                within(cands, nn),
                n_candidates == cands.len(),
                n_candidates <= nn,
                g_idx < ng,
                splits(cache, cands, g_idx as int),
                sound0 == memo_exact(m0, cache),
                m0 == memo_contents(*old(memo)),
                sc == split_classes(resp, cands, g_idx as int, N_RESPONSES as int),
                split_counted(partitions@, sc, nn),
                forall|a: int| 0 <= a < sc.len() ==> (#[trigger] sc[a]).1.subset_of(cands) && sc[a].1.len() > 0,
                forall|a: int| 0 <= a < sc.len() ==> (#[trigger] sc[a]).1 == class(resp, cands, g_idx as int, sc[a].0),
                forall|a: int, b: int| 0 <= a < sc.len() && 0 <= b < sc.len() && a != b ==> (#[trigger] sc[a]).1.disjoint((#[trigger] sc[b]).1),
                forall|a: int| 0 <= a < order@.len() ==> #[trigger] order@[a] < sc.len(),
                forall|i: int| 0 <= i < guesses@.len() ==> #[trigger] guesses@[i] < ng,
                forall|g: usize| g < ng ==> #[trigger] guesses@.contains(g),
                ng <= usize::MAX,
                order@.no_duplicates(),
                vals.len() == sc.len(),
                sc.len() <= usize::MAX,
                guess_lb == n_candidates + seq_sum(vals),
                guess_lb <= beta,
                t <= order@.len(),
                memo_bounded(memo_contents(*memo)),
                memo_grows_within(m0, memo_contents(*memo), cands),
                (cache_covered(cache) && sound0) ==> memo_exact(memo_contents(*memo), cache),
                forall|a: int| 0 <= a < sc.len() ==> #[trigger] slot_ok_at(cache, sc, partitions@, vals,
                    order@.subrange(t as int, order@.len() as int), memo_contents(*memo), sound0, a),
            decreases order@.len() - t,
        {
            let idx = order[t];
            let ghost m1 = memo_contents(*memo);
            let ghost part = sc[idx as int].1;
            let ghost rest0 = order@.subrange(t as int, order@.len() as int);
            assert(entry_counted(partitions@[idx as int], sc[idx as int], nn));
            assert(rest0.contains(idx)) by {
                assert(rest0[0] == idx);
            }
            assert(slot_ok_at(cache, sc, partitions@, vals, rest0, m1, sound0, idx as int));
            let size = partitions[idx].1;
            proof {
                vstd::set_lib::lemma_len_subset(part, cands);
                lemma_seq_sum_entry(vals, idx as int);
                partitions@[idx as int].0.lemma_key_members();
                assert(class(resp, cands, g_idx as int, sc[idx as int].0).len() < cands.len());
            }
            let p_lb = lower_bound(size);
            let p_cost = self.evaluate_candidates(memo, &partitions[idx].0, guesses, beta - (guess_lb - p_lb));
            let ghost m2 = memo_contents(*memo);
            proof {
                lemma_grows_trans(m0, m1, m2, part, cands);
            }
            if p_cost == usize::MAX {
                proof {
                    if cache_covered(cache) && sound0 {
                        let bsub: nat = (beta - (guess_lb - p_lb)) as nat;
                        let vals2 = vals.update(idx as int, bsub);
                        assert forall|a: int| 0 <= a < sc.len() implies #[trigger] slot_ok_at(cache, sc, partitions@, vals, rest0, m1,
                            sound0, a) by {}
                        lemma_slots_lower(cache, cands, sc, partitions@, vals, rest0, m1, sound0, sc.len() as int);
                        assert(partitions@[idx as int].0.members() == part);
                        assert forall|a: int, tt: nat| 0 <= a < vals2.len() && #[trigger] achievable(resp, ng, sc[a].1, tt)
                            implies vals2[a] <= tt by {
                            if a != idx as int {
                                assert(vals2[a] == vals[a]);
                            }
                        }
                        lemma_seq_sum_update(vals, idx as int, bsub);
                        assert forall|t2: nat| #[trigger] achievable_with_first(resp, ng, cands, g_idx as int, t2) implies t2 >= beta by {
                            lemma_guess_lower(cache, cands, g_idx as int, vals2, t2);
                        }
                    }
                }
                return usize::MAX;
            }
            guess_lb = guess_lb + (p_cost - p_lb);
            proof {
                let vals0 = vals;
                lemma_seq_sum_update(vals0, idx as int, p_cost as nat);
                vals = vals.update(idx as int, p_cost as nat);
                let rest1 = order@.subrange(t + 1, order@.len() as int);
                assert forall|a: int| 0 <= a < sc.len() implies #[trigger] slot_ok_at(cache, sc, partitions@, vals, rest1, m2, sound0, a) by {
                    assert(slot_ok_at(cache, sc, partitions@, vals0, rest0, m1, sound0, a));
                    assert(rest0[0] == idx);
                    if a == idx as int {
                        assert(!rest1.contains(a as usize)) by {
                            if rest1.contains(a as usize) {
                                let u = choose|u: int| 0 <= u < rest1.len() && rest1[u] == a as usize;
                                assert(order@[t + 1 + u] == order@[t as int]);
                            }
                        }
                        assert(vals[a] == p_cost as nat);
                        assert(part_value_ok(cache, part, p_cost as nat, sound0));
                        assert(sc[a].1 == part);
                        assert(slot_ok(cache, sc[a].1, partitions@[a].0, vals[a], false, m2, sound0));
                    } else {
                        assert(vals[a] == vals0[a]);
                        if rest1.contains(a as usize) {
                            let u = choose|u: int| 0 <= u < rest1.len() && rest1[u] == a as usize;
                            assert(rest0[u + 1] == a as usize);
                            assert(rest0.contains(a as usize));
                            assert(entry_counted(partitions@[a], sc[a], nn));
                            partitions@[a].0.lemma_key_members();
                            let ka = partitions@[a].0.key();
                            assert(!m1.contains_key(ka));
                            if m2.contains_key(ka) {
                                assert(key_members(ka).subset_of(part));
                                vstd::set_lib::lemma_len_subset(sc[a].1, cands);
                                let w = sc[a].1.choose();
                                assert(sc[a].1.contains(w));
                                assert(part.contains(w));
                                assert(sc[a].1.disjoint(sc[idx as int].1));
                            }
                            assert(slot_ok(cache, sc[a].1, partitions@[a].0, vals[a], true, m2, sound0));
                        } else {
                            if rest0.contains(a as usize) {
                                let u = choose|u: int| 0 <= u < rest0.len() && rest0[u] == a as usize;
                                if u > 0 {
                                    assert(rest1[u - 1] == a as usize);
                                }
                                assert(u == 0);
                                assert(a as usize == idx);
                                assert(false);
                            }
                            assert(slot_ok(cache, sc[a].1, partitions@[a].0, vals0[a], false, m1, sound0));
                            assert(slot_ok(cache, sc[a].1, partitions@[a].0, vals[a], false, m2, sound0));
                        }
                    }
                }
            }
            t += 1;
        }
        proof {
            assert(order@.subrange(t as int, order@.len() as int) =~= Seq::<usize>::empty());
            assert forall|a: int| 0 <= a < sc.len() implies part_value_ok(cache, #[trigger] sc[a].1, vals[a], sound0) by {
                assert(slot_ok_at(cache, sc, partitions@, vals, order@.subrange(t as int, order@.len() as int),
                    memo_contents(*memo), sound0, a));
            }
            assert forall|a: int| 0 <= a < sizes.len() implies #[trigger] sizes[a] <= vals[a] by {
                assert(part_value_ok(cache, sc[a].1, vals[a], sound0));
            }
            lemma_seq_sum_mono(sizes, vals);
            if cache_covered(cache) && sound0 {
                assert forall|a: int| 0 <= a < vals.len() implies achievable(resp, ng, #[trigger] sc[a].1, vals[a]) by {
                    assert(part_value_ok(cache, sc[a].1, vals[a], sound0));
                }
                lemma_combine_achievable(resp, ng, cands, g_idx as int, vals);
                assert forall|a: int, tt: nat| 0 <= a < vals.len() && #[trigger] achievable(resp, ng, sc[a].1, tt) implies vals[a] <= tt by {
                    assert(part_value_ok(cache, sc[a].1, vals[a], sound0));
                }
                assert forall|t2: nat| #[trigger] achievable_with_first(resp, ng, cands, g_idx as int, t2) implies guess_lb <= t2 by {
                    lemma_guess_lower(cache, cands, g_idx as int, vals, t2);
                }
            }
        }
        guess_lb
    }
}

/// `slot_ok` for entry `a` of the classes, pending while `pend` holds its index.
pub open spec fn slot_ok_at(
    cache: ResponseCache,
    sc: Seq<(int, Set<int>)>,
    parts: Seq<(BitSet, usize)>,
    vals: Seq<nat>,
    pend: Seq<usize>,
    m: MemoMap,
    sound0: bool,
    a: int,
) -> bool {
    slot_ok(cache, sc[a].1, parts[a].0, vals[a], pend.contains(a as usize), m, sound0)
}

/// One class of a guess: while `pending` its value is the lower bound of a set of at least
/// three candidates that the memo does not hold; otherwise the value is justified.
pub open spec fn slot_ok(cache: ResponseCache, part: Set<int>, bits: BitSet, v: nat, pending: bool, m: MemoMap, sound0: bool) -> bool {
    if pending {
        &&& v == min_total(part.len())
        &&& part.len() >= 3
        &&& !m.contains_key(bits.key())
    } else {
        part_value_ok(cache, part, v, sound0)
    }
}

proof fn lemma_grows_trans(m0: MemoMap, m1: MemoMap, m2: MemoMap, inner: Set<int>, outer: Set<int>)
    requires
        memo_grows_within(m0, m1, outer),
        memo_grows_within(m1, m2, inner),
        inner.subset_of(outer),
    ensures
        memo_grows_within(m0, m2, outer),
{
    assert forall|k: (Seq<u64>, usize)| #[trigger] m2.contains_key(k) && !m0.contains_key(k) implies key_members(k).subset_of(outer) by {
        if m1.contains_key(k) {
        } else {
            assert(key_members(k).subset_of(inner));
        }
    }
}

/// The indices sorted by the size stored with each partition, largest first.
fn sort_by_size_desc(idx: &Vec<usize>, parts: &Vec<(BitSet, usize)>) -> (r: Vec<usize>)
    requires
        forall|i: int| 0 <= i < idx@.len() ==> #[trigger] idx@[i] < parts@.len(),
    ensures
        r@.to_multiset() == idx@.to_multiset(),
        forall|i: int| 0 <= i < r@.len() ==> #[trigger] r@[i] < parts@.len(),
        forall|a: int, b: int| 0 <= a < b < r@.len() ==> parts@[#[trigger] r@[a] as int].1 >= parts@[#[trigger] r@[b] as int].1,
{
    let mut out: Vec<usize> = Vec::new();
    let mut i: usize = 0;
    assert(idx@.subrange(0, 0) =~= Seq::<usize>::empty());
    assert(out@ =~= Seq::<usize>::empty());
    while i < idx.len()
        invariant
            forall|j: int| 0 <= j < idx@.len() ==> #[trigger] idx@[j] < parts@.len(),
            i <= idx@.len(),
            out@.to_multiset() == idx@.subrange(0, i as int).to_multiset(),
            forall|j: int| 0 <= j < out@.len() ==> #[trigger] out@[j] < parts@.len(),
            forall|a: int, b: int| 0 <= a < b < out@.len() ==> parts@[#[trigger] out@[a] as int].1 >= parts@[#[trigger] out@[b] as int].1,
        decreases idx@.len() - i,
    {
        let x = idx[i];
        let key = parts[x].1;
        let mut pos: usize = 0;
        while pos < out.len() && parts[out[pos]].1 >= key
            invariant
                pos <= out@.len(),
                forall|j: int| 0 <= j < out@.len() ==> #[trigger] out@[j] < parts@.len(),
                forall|j: int| 0 <= j < pos ==> parts@[#[trigger] out@[j] as int].1 >= key,
            decreases out@.len() - pos,
        {
            pos += 1;
        }
        let ghost old_out = out@;
        out.insert(pos, x);
        proof {
            vstd::seq_lib::to_multiset_insert(old_out, pos as int, x);
            assert(idx@.subrange(0, i + 1) =~= idx@.subrange(0, i as int).push(x));
            vstd::seq_lib::to_multiset_build(idx@.subrange(0, i as int), x);
            assert forall|a: int, b: int| 0 <= a < b < out@.len() implies parts@[#[trigger] out@[a] as int].1 >= parts@[#[trigger] out@[b] as int].1 by {
                if b < pos {
                } else if b == pos {
                } else if a < pos {
                    assert(old_out[a] == out@[a]);
                    assert(old_out[b - 1] == out@[b]);
                } else if a == pos {
                    assert(parts@[old_out[pos as int] as int].1 < key);
                    assert(old_out[b - 1] == out@[b]);
                }
            }
        }
        i += 1;
    }
    assert(idx@.subrange(0, idx@.len() as int) =~= idx@);
    out
}

/// The best guess found so far, and the bound a guess must beat.
struct BestGuess {
    beta: usize,
    solution: (usize, usize),
}

impl BestGuess {
    /// Nothing found yet; a guess must cost at most `heuristic_cost`.
    fn new(heuristic_cost: usize) -> (r: Self)
        requires
            heuristic_cost < usize::MAX,
        ensures
            r.beta == heuristic_cost + 1,
            r.solution == (usize::MAX, usize::MAX),
    {
        Self { beta: heuristic_cost + 1, solution: (usize::MAX, usize::MAX) }
    }

    /// The bound a guess must beat.
    fn get_beta(&self) -> (r: usize)
        ensures
            r == self.beta,
    {
        self.beta
    }

    /// Records a guess and its cost: the bound drops to the cost, and the guess is kept
    /// when it beats the kept one.
    fn update(&mut self, guess_idx: usize, cost: usize)
        ensures
            final(self).beta == if cost < old(self).beta { cost } else { old(self).beta },
            final(self).solution == if cost < old(self).solution.1 { (guess_idx, cost) } else { old(self).solution },
    {
        if cost < self.beta {
            self.beta = cost;
        }
        if cost < self.solution.1 {
            self.solution = (guess_idx, cost);
        }
    }

    /// The kept guess and its cost.
    fn unwrap(self) -> (r: (usize, usize))
        ensures
            r == self.solution,
    {
        self.solution
    }
}

/// All candidates of the cache: the indices `0..n`.
proof fn lemma_all_members(b: BitSet, n: nat)
    requires
        b@ == Seq::new(n, |i: int| true),
    ensures
        b.members() == vstd::set_lib::set_int_range(0, n as int),
        b.members().len() == n,
{
    assert(b.members() =~= vstd::set_lib::set_int_range(0, n as int));
    vstd::set_lib::lemma_int_range(0, n as int);
}

/// For one or two candidates: the first guess that wins on the first candidate, with the
/// fewest total guesses (one, or one and two); `(usize::MAX, usize::MAX)` when no guess
/// wins on it.
fn first_winning_move(response_cache: &ResponseCache, n: usize, n_guesses: usize) -> (r: (usize, usize))
    requires
        cache_ready(*response_cache),
        1 <= n <= 2,
        n == response_cache.spec_stride(),
        n_guesses == response_cache.n_rows(),
    ensures
        r.1 == usize::MAX ==> r.0 == usize::MAX && !cache_covered(*response_cache),
        r.1 != usize::MAX ==> {
            let all = vstd::set_lib::set_int_range(0, n as int);
            &&& r.0 < n_guesses
            &&& r.1 == min_total(n as nat)
            &&& cache_covered(*response_cache) ==> achievable_with_first(cache_resp(*response_cache), response_cache.n_rows(), all,
                r.0 as int, r.1 as nat) && is_min_total(cache_resp(*response_cache), response_cache.n_rows(), all, r.1 as nat)
        },
{
    let ghost cache = *response_cache;
    let ghost resp = cache_resp(cache);
    let ghost ng = cache.n_rows();
    let mut g: usize = 0;
    while g < n_guesses
        invariant
            g <= n_guesses,
            n_guesses == ng,
            cache == *response_cache,
            resp == cache_resp(cache),
            ng == cache.n_rows(),
            cache_ready(cache),
            1 <= n <= 2,
            n == cache.spec_stride(),
            forall|h: int| 0 <= h < g ==> #[trigger] resp(h, 0) != CORRECT_IDX,
        decreases n_guesses - g,
    {
        if response_cache.get(g, 0) == CORRECT_IDX as u8 {
            let v: usize = 2 * n - 1;
            proof {
                let all = vstd::set_lib::set_int_range(0, n as int);
                assert(resp(g as int, 0) == CORRECT_IDX);
                vstd::set_lib::lemma_int_range(0, n as int);
                assert(all.len() == n);
                assert(v == min_total(n as nat));
                assert(within(all, cache.spec_stride()));
                if cache_covered(cache) {
                    if n == 1 {
                        assert(all =~= set![0int]);
                        crate::plan::lemma_single_with(resp, ng, 0, g as int);
                    } else {
                        assert(all =~= set![0int, 1int]);
                        assert(crate::plan::has_winning_guess(resp, ng, 1));
                        crate::plan::lemma_pair_with(resp, ng, n as nat, 0, 1, g as int);
                    }
                    lemma_lower_bound_min(cache, all, v as nat);
                }
            }
            return (g, v);
        }
        g += 1;
    }
    proof {
        if cache_covered(cache) {
            assert(crate::plan::has_winning_guess(resp, ng, 0));
            let h = choose|h: int| 0 <= h < ng && #[trigger] resp(h, 0) == CORRECT_IDX;
        }
    }
    (usize::MAX, usize::MAX)
}

/// Searches for the best first guess for all the candidates and its total cost: a branch
/// and bound search over the guesses, bounded by the total of the min-remaining strategy
/// (a guess may match it), each set of candidates searched over all the guesses; one or
/// two candidates take the first guess that wins on the first of them. With a memo of
/// fewest totals the cost found is the fewest any strategy takes.
/// `(usize::MAX, usize::MAX)` when the min-remaining strategy cannot be played out, or no
/// strategy is found.
pub fn compute_optimal_move(
    all_candidates: &[[u8; N_CHARS]],
    all_guesses: &[[u8; N_CHARS]],
    response_cache: &ResponseCache,
    memo: &mut MemoCache,
) -> (r: (usize, usize))
    requires
        cache_ready(*response_cache),
        response_cache.spec_stride() * response_cache.spec_stride() < usize::MAX,
        all_candidates@.len() == response_cache.spec_stride(),
        all_guesses@.len() == response_cache.n_rows(),
        all_candidates@.len() > 0,
        memo_bounded(memo_contents(*old(memo))),
    ensures
        memo_bounded(memo_contents(*final(memo))),
        (cache_covered(*response_cache) && memo_exact(memo_contents(*old(memo)), *response_cache))
            ==> memo_exact(memo_contents(*final(memo)), *response_cache),
        r.1 == usize::MAX ==> r.0 == usize::MAX,
        !sim_completes(
            (MinRemainingPolicy {
                response_cache,
                n_total_candidates: all_candidates@.len() as usize,
                n_total_guesses: all_guesses@.len() as usize,
            }),
            cache_resp(*response_cache),
            response_cache.spec_stride(),
            vstd::set_lib::set_int_range(0, all_candidates@.len() as int),
        ) ==> r == (usize::MAX, usize::MAX),
        r.1 != usize::MAX ==> {
            let all = vstd::set_lib::set_int_range(0, all_candidates@.len() as int);
            &&& r.0 < all_guesses@.len()
            &&& r.1 >= min_total(all.len())
            &&& (cache_covered(*response_cache) && memo_exact(memo_contents(*old(memo)), *response_cache))
                ==> achievable_with_first(cache_resp(*response_cache), response_cache.n_rows(), all, r.0 as int, r.1 as nat)
                && is_min_total(cache_resp(*response_cache), response_cache.n_rows(), all, r.1 as nat)
        },
        (cache_covered(*response_cache) && memo_exact(memo_contents(*old(memo)), *response_cache) && sim_completes(
            (MinRemainingPolicy {
                response_cache,
                n_total_candidates: all_candidates@.len() as usize,
                n_total_guesses: all_guesses@.len() as usize,
            }),
            cache_resp(*response_cache),
            response_cache.spec_stride(),
            vstd::set_lib::set_int_range(0, all_candidates@.len() as int),
        )) ==> {
            let all = vstd::set_lib::set_int_range(0, all_candidates@.len() as int);
            &&& r.1 != usize::MAX
            &&& is_min_total(cache_resp(*response_cache), response_cache.n_rows(), all, r.1 as nat)
            &&& achievable_with_first(cache_resp(*response_cache), response_cache.n_rows(), all, r.0 as int, r.1 as nat)
        },
        forall|k: (Seq<u64>, usize)| #[trigger] memo_contents(*old(memo)).contains_key(k) ==> memo_contents(*final(memo)).contains_key(k)
            && memo_contents(*final(memo))[k] == memo_contents(*old(memo))[k],
{
    let ghost cache = *response_cache;
    let ghost m0 = memo_contents(*memo);
    let n_total_candidates = all_candidates.len();
    let n_total_guesses = all_guesses.len();
    let initial_candidates = BitSet::ones(n_total_candidates);
    let ghost all = initial_candidates.members();
    proof {
        lemma_all_members(initial_candidates, n_total_candidates as nat);
    }
    let policy = MinRemainingPolicy { response_cache, n_total_candidates, n_total_guesses };
    let ghost resp = cache_resp(cache);
    let ghost ng = cache.n_rows();
    let ghost ex0 = cache_covered(cache) && memo_exact(m0, cache);
    if n_total_candidates <= 2 {
        let r = first_winning_move(response_cache, n_total_candidates, n_total_guesses);
        assert(sim_completes(policy, resp, cache.spec_stride(), all));
        return r;
    }
    proof {
        lemma_sim_accepts_all(policy, resp, cache.spec_stride(), all);
    }
    let heuristic_cost = match simulate(response_cache, &initial_candidates, &policy) {
        Some(stats) => {
            proof {
                let k = all.len();
                assert(k * k <= cache.spec_stride() * cache.spec_stride());
            }
            stats.total_guesses()
        },
        None => return (usize::MAX, usize::MAX),
    };
    let ghost h = heuristic_cost as nat;
    proof {
        if cache_covered(cache) {
            assert(achievable(resp, ng, all, h));
        }
    }
    let solver = SolverContext { response_cache };
    let all_guess_indices = crate::policy::all_indices(n_total_guesses);
    proof {
        let k = all.len();
        assert(k * k <= cache.spec_stride() * cache.spec_stride());
    }
    let filter_beta = heuristic_cost + 1;
    let promising_guesses = filter_and_sort_guesses(
        all_guess_indices.as_slice(),
        response_cache,
        &initial_candidates,
        n_total_candidates,
        filter_beta,
    );
    assert forall|i: int| 0 <= i < promising_guesses@.len() implies #[trigger] promising_guesses@[i] < cache.n_rows() by {
        assert(guess_kept(cache, all, promising_guesses@[i] as int, filter_beta as nat));
    }
    assert forall|g: usize| g < cache.n_rows() implies #[trigger] all_guess_indices@.contains(g) by {
        assert(all_guess_indices@[g as int] == g);
    }
    let mut best_guess = BestGuess::new(heuristic_cost);
    let mut idx: usize = 0;
    while idx < promising_guesses.len()
        invariant
            cache == *response_cache,
            cache_ready(cache),
            solver.response_cache == response_cache,
            initial_candidates.wf(),
            initial_candidates@.len() == cache.spec_stride(),
            all == initial_candidates.members(),
            all == vstd::set_lib::set_int_range(0, n_total_candidates as int),
            all.len() == n_total_candidates,
            n_total_candidates > 0,
            n_total_guesses == cache.n_rows(),
            n_total_candidates >= 3,
            filter_beta == heuristic_cost + 1,
            memo_grows_within(m0, memo_contents(*memo), all),
            forall|i: int| 0 <= i < promising_guesses@.len() ==> #[trigger] guess_kept(cache, all, promising_guesses@[i] as int,
                filter_beta as nat) && promising_guesses@[i] < cache.n_rows(),
            forall|i: int| 0 <= i < promising_guesses@.len() ==> #[trigger] promising_guesses@[i] < cache.n_rows(),
            forall|g: usize| g < cache.n_rows() ==> #[trigger] all_guess_indices@.contains(g),
            all_guess_indices@ == crate::policy::index_range(n_total_guesses as nat),
            idx <= promising_guesses@.len(),
            m0 == memo_contents(*old(memo)),
            memo_bounded(memo_contents(*memo)),
            (cache_covered(cache) && memo_exact(m0, cache)) ==> memo_exact(memo_contents(*memo), cache),
            best_guess.beta <= heuristic_cost + 1,
            best_guess.solution.1 == usize::MAX ==> best_guess.beta == heuristic_cost + 1,
            best_guess.solution.1 != usize::MAX ==> best_guess.solution.1 == best_guess.beta,
            best_guess.solution.1 != usize::MAX ==> best_guess.solution.1 <= heuristic_cost,
            ex0 == (cache_covered(cache) && memo_exact(m0, cache)),
            resp == cache_resp(cache),
            ng == cache.n_rows(),
            ex0 ==> forall|j: int, t2: nat| 0 <= j < idx && #[trigger] achievable_with_first(resp, ng, all, promising_guesses@[j] as int, t2)
                ==> t2 >= best_guess.beta,
            best_guess.solution.1 == usize::MAX ==> best_guess.solution.0 == usize::MAX,
            best_guess.solution.1 != usize::MAX ==> {
                &&& best_guess.solution.0 < n_total_guesses
                &&& best_guess.solution.1 >= min_total(all.len())
                &&& (cache_covered(cache) && memo_exact(m0, cache)) ==> achievable_with_first(cache_resp(cache), cache.n_rows(), all,
                    best_guess.solution.0 as int, best_guess.solution.1 as nat)
            },
        decreases promising_guesses@.len() - idx,
    {
        let g_idx = promising_guesses[idx];
        let current_beta = best_guess.get_beta();
        proof {
            assert(guess_kept(cache, all, g_idx as int, filter_beta as nat));
            initial_candidates.lemma_members_finite();
            lemma_found_splits(cache_resp(cache), cache.n_rows(), cache.spec_stride(), all, g_idx as int);
        }
        let ghost m1 = memo_contents(*memo);
        let cost = solver.evaluate_guess(
            memo,
            g_idx,
            &initial_candidates,
            all_guess_indices.as_slice(),
            current_beta,
            n_total_candidates,
        );
        proof {
            lemma_grows_trans(m0, m1, memo_contents(*memo), all, all);
        }
        let ghost b0 = best_guess;
        if cost < current_beta {
            best_guess.update(g_idx, cost);
        }
        proof {
            if ex0 {
                assert forall|j: int, t2: nat| 0 <= j < idx + 1 && #[trigger] achievable_with_first(resp, ng, all,
                    promising_guesses@[j] as int, t2) implies t2 >= best_guess.beta by {
                    if j == idx {
                        assert(promising_guesses@[j] == g_idx);
                    }
                }
            }
        }
        idx += 1;
    }
    proof {
        if ex0 {
            initial_candidates.lemma_members_finite();
            assert forall|g: int| 0 <= g < ng && #[trigger] guess_kept(cache, all, g, filter_beta as nat) implies forall|t2: nat|
                #[trigger] achievable_with_first(resp, ng, all, g, t2) ==> t2 >= best_guess.beta by {
                assert(all_guess_indices@.contains(g as usize));
                let i = choose|i: int| 0 <= i < all_guess_indices@.len() && all_guess_indices@[i] == g as usize;
                assert(all_guess_indices@[i] as int == g);
                lemma_kept_contains(cache, all, all_guess_indices@, filter_beta as nat, i);
                let kept = kept_guesses(cache, all, all_guess_indices@, filter_beta as nat);
                assert(kept.to_multiset().count(g as usize) > 0);
                assert(promising_guesses@.to_multiset().count(g as usize) > 0);
                assert(promising_guesses@.contains(g as usize));
                let j = choose|j: int| 0 <= j < promising_guesses@.len() && promising_guesses@[j] == g as usize;
                assert forall|t2: nat| #[trigger] achievable_with_first(resp, ng, all, g, t2) implies t2 >= best_guess.beta by {
                    assert(promising_guesses@[j] as int == g);
                    assert(achievable_with_first(resp, ng, all, promising_guesses@[j] as int, t2));
                }
            }
            if best_guess.solution.1 == usize::MAX {
                assert(sim_completes(policy, resp, cache.spec_stride(), all) ==> h >= best_guess.beta) by {
                    if sim_completes(policy, resp, cache.spec_stride(), all) && cache_covered(cache) {
                        lemma_no_cheaper(cache, all, filter_beta as nat, best_guess.beta as nat, h);
                    }
                }
            } else {
                assert forall|t: nat| #[trigger] achievable(resp, ng, all, t) implies t >= best_guess.solution.1 by {
                    lemma_no_cheaper(cache, all, filter_beta as nat, best_guess.beta as nat, t);
                }
            }
        }
    }
    best_guess.unwrap()
}

} // verus!
