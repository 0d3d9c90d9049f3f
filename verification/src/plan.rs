use vstd::prelude::*;
use crate::resp::{CORRECT_IDX, N_RESPONSES};

verus! {

/// A strategy for the rest of a game: make a guess, then continue with the sub-strategy
/// kept for the response that comes back.
pub enum Plan {
    Guess(int, Seq<Plan>),
}

/// The candidates of `cands` that answer guess `g` with response `r`.
pub open spec fn class(resp: spec_fn(int, int) -> int, cands: Set<int>, g: int, r: int) -> Set<int> {
    cands.filter(|c: int| resp(g, c) == r)
}

/// The total number of guesses `p` takes to find every candidate of `cands`, each one
/// counted as if it were the secret word; `None` when `p` guesses outside `0..n_guesses`
/// or lacks a sub-strategy for a response that can occur.
pub open spec fn plan_cost(resp: spec_fn(int, int) -> int, n_guesses: nat, cands: Set<int>, p: Plan) -> Option<nat>
    decreases p, N_RESPONSES,
{
    if cands.len() == 0 {
        Some(0)
    } else {
        match p {
            Plan::Guess(g, kids) => {
                if g < 0 || g >= n_guesses {
                    None
                } else {
                    match kids_cost(resp, n_guesses, cands, g, kids, N_RESPONSES as int) {
                        Some(t) => Some(cands.len() + t),
                        None => None,
                    }
                }
            },
        }
    }
}

/// The guesses the sub-strategies take for the responses below `k` other than the win.
pub open spec fn kids_cost(
    resp: spec_fn(int, int) -> int,
    n_guesses: nat,
    cands: Set<int>,
    g: int,
    kids: Seq<Plan>,
    k: int,
) -> Option<nat>
    decreases kids, k,
{
    if k <= 0 {
        Some(0)
    } else {
        let prev = kids_cost(resp, n_guesses, cands, g, kids, k - 1);
        let r = k - 1;
        let cl = class(resp, cands, g, r);
        if r == CORRECT_IDX || cl.len() == 0 {
            prev
        } else if r >= kids.len() {
            None
        } else {
            match (prev, plan_cost(resp, n_guesses, cl, kids[r])) {
                (Some(a), Some(b)) => Some(a + b),
                _ => None,
            }
        }
    }
}

/// Some strategy finds every candidate of `cands` with `t` guesses in total.
pub open spec fn achievable(resp: spec_fn(int, int) -> int, n_guesses: nat, cands: Set<int>, t: nat) -> bool {
    exists|p: Plan| plan_cost(resp, n_guesses, cands, p) == Some(t)
}

/// Some strategy that starts with guess `g` finds every candidate of `cands` with `t`
/// guesses in total.
pub open spec fn achievable_with_first(resp: spec_fn(int, int) -> int, n_guesses: nat, cands: Set<int>, g: int, t: nat) -> bool {
    exists|kids: Seq<Plan>| plan_cost(resp, n_guesses, cands, Plan::Guess(g, kids)) == Some(t)
}

/// Every guess answers every candidate below `n` with a response index.
pub open spec fn response_range(resp: spec_fn(int, int) -> int, n_guesses: nat, n: nat) -> bool {
    forall|g: int, c: int| 0 <= g < n_guesses && 0 <= c < n ==> 0 <= #[trigger] resp(g, c) < N_RESPONSES
}

/// Every guess answers every candidate below `n` with a response index, and with the win
/// response for at most one candidate.
pub open spec fn response_model(resp: spec_fn(int, int) -> int, n_guesses: nat, n: nat) -> bool {
    &&& response_range(resp, n_guesses, n)
    &&& forall|g: int, c1: int, c2: int|
        0 <= g < n_guesses && 0 <= c1 < n && 0 <= c2 < n && #[trigger] resp(g, c1) == CORRECT_IDX
            && #[trigger] resp(g, c2) == CORRECT_IDX ==> c1 == c2
}

/// Every candidate below `n` has a guess that wins on it.
pub open spec fn guesses_cover(resp: spec_fn(int, int) -> int, n_guesses: nat, n: nat) -> bool {
    forall|c: int| 0 <= c < n ==> #[trigger] has_winning_guess(resp, n_guesses, c)
}

pub open spec fn has_winning_guess(resp: spec_fn(int, int) -> int, n_guesses: nat, c: int) -> bool {
    exists|g: int| 0 <= g < n_guesses && #[trigger] resp(g, c) == CORRECT_IDX
}

/// The candidates are a finite set of indices below `n`.
pub open spec fn within(cands: Set<int>, n: nat) -> bool {
    &&& cands.finite()
    &&& forall|c: int| #[trigger] cands.contains(c) ==> 0 <= c < n
}

/// Admissible lower bound on the total guesses for `k` candidates: one candidate may be
/// found with the first guess, every other one needs at least two.
pub open spec fn min_total(k: nat) -> nat {
    if k == 0 {
        0
    } else {
        (2 * k - 1) as nat
    }
}

/// Sizes of the classes below `k`, the win class left out.
pub open spec fn nonwin_size_sum(resp: spec_fn(int, int) -> int, cands: Set<int>, g: int, k: int) -> nat
    decreases k,
{
    if k <= 0 {
        0
    } else {
        nonwin_size_sum(resp, cands, g, k - 1) + if k - 1 == CORRECT_IDX {
            0nat
        } else {
            class(resp, cands, g, k - 1).len()
        }
    }
}

/// The candidates whose response to `g` is below `k`.
pub open spec fn below(resp: spec_fn(int, int) -> int, cands: Set<int>, g: int, k: int) -> Set<int> {
    cands.filter(|c: int| resp(g, c) < k)
}

pub proof fn lemma_class_finite(resp: spec_fn(int, int) -> int, cands: Set<int>, g: int, r: int, n: nat)
    requires
        within(cands, n),
    ensures
        within(class(resp, cands, g, r), n),
        class(resp, cands, g, r).len() <= cands.len(),
{
    vstd::set_lib::lemma_len_subset(class(resp, cands, g, r), cands);
}

/// The classes of all responses below `k` hold exactly the candidates answering below `k`,
/// the win class apart.
pub proof fn lemma_nonwin_size_sum(resp: spec_fn(int, int) -> int, n_guesses: nat, n: nat, cands: Set<int>, g: int, k: int)
    requires
        within(cands, n),
        0 <= g < n_guesses,
        0 <= k <= N_RESPONSES,
        response_model(resp, n_guesses, n),
    ensures
        nonwin_size_sum(resp, cands, g, k) + (if k > CORRECT_IDX { class(resp, cands, g, CORRECT_IDX as int).len() } else { 0 })
            == below(resp, cands, g, k).len(),
    decreases k,
{
    if k == 0 {
        assert(below(resp, cands, g, 0) =~= Set::empty()) by {
            assert forall|c: int| !below(resp, cands, g, 0).contains(c) by {
                if cands.contains(c) {
                    assert(0 <= resp(g, c));
                }
            }
        }
    } else {
        lemma_nonwin_size_sum(resp, n_guesses, n, cands, g, k - 1);
        let prev = below(resp, cands, g, k - 1);
        let cl = class(resp, cands, g, k - 1);
        assert(below(resp, cands, g, k) =~= prev.union(cl));
        assert(prev.disjoint(cl));
        lemma_class_finite(resp, cands, g, k - 1, n);
        vstd::set_lib::lemma_len_subset(prev, cands);
        vstd::set_lib::lemma_set_disjoint_lens(prev, cl);
    }
}

pub proof fn lemma_below_all(resp: spec_fn(int, int) -> int, n_guesses: nat, n: nat, cands: Set<int>, g: int)
    requires
        within(cands, n),
        0 <= g < n_guesses,
        response_model(resp, n_guesses, n),
    ensures
        below(resp, cands, g, N_RESPONSES as int) == cands,
        class(resp, cands, g, CORRECT_IDX as int).len() <= 1,
{
    assert forall|c: int| cands.contains(c) implies below(resp, cands, g, N_RESPONSES as int).contains(c) by {
        assert(resp(g, c) < N_RESPONSES);
    }
    assert(below(resp, cands, g, N_RESPONSES as int) =~= cands);
    let w = class(resp, cands, g, CORRECT_IDX as int);
    lemma_class_finite(resp, cands, g, CORRECT_IDX as int, n);
    if w.len() > 1 {
        let a = w.choose();
        assert(w.contains(a));
        let w2 = w.remove(a);
        assert(w2.len() > 0);
        let b = w2.choose();
        assert(w2.contains(b));
        assert(resp(g, a) == CORRECT_IDX && resp(g, b) == CORRECT_IDX);
    }
}

/// Every strategy needs at least `2k - 1` guesses in total for `k` candidates.
pub proof fn lemma_plan_cost_lower_bound(resp: spec_fn(int, int) -> int, n_guesses: nat, n: nat, cands: Set<int>, p: Plan)
    requires
        within(cands, n),
        response_model(resp, n_guesses, n),
        plan_cost(resp, n_guesses, cands, p) is Some,
    ensures
        plan_cost(resp, n_guesses, cands, p)->0 >= min_total(cands.len()),
    decreases p, N_RESPONSES,
{
    if cands.len() > 0 {
        let Plan::Guess(g, kids) = p;
        lemma_kids_cost_lower_bound(resp, n_guesses, n, cands, g, kids, N_RESPONSES as int);
        lemma_nonwin_size_sum(resp, n_guesses, n, cands, g, N_RESPONSES as int);
        lemma_below_all(resp, n_guesses, n, cands, g);
    }
}

proof fn lemma_kids_cost_lower_bound(
    resp: spec_fn(int, int) -> int,
    n_guesses: nat,
    n: nat,
    cands: Set<int>,
    g: int,
    kids: Seq<Plan>,
    k: int,
)
    requires
        within(cands, n),
        response_model(resp, n_guesses, n),
        kids_cost(resp, n_guesses, cands, g, kids, k) is Some,
    ensures
        kids_cost(resp, n_guesses, cands, g, kids, k)->0 >= nonwin_size_sum(resp, cands, g, k),
    decreases kids, k,
{
    if k > 0 {
        lemma_kids_cost_lower_bound(resp, n_guesses, n, cands, g, kids, k - 1);
        let r = k - 1;
        let cl = class(resp, cands, g, r);
        if r != CORRECT_IDX && cl.len() > 0 {
            lemma_class_finite(resp, cands, g, r, n);
            lemma_plan_cost_lower_bound(resp, n_guesses, n, cl, kids[r]);
        }
    }
}

/// One candidate takes one guess when the first guess wins on it.
pub proof fn lemma_single_with(resp: spec_fn(int, int) -> int, n_guesses: nat, c: int, g: int)
    requires
        0 <= g < n_guesses,
        resp(g, c) == CORRECT_IDX,
    ensures
        achievable_with_first(resp, n_guesses, set![c], g, 1),
        achievable(resp, n_guesses, set![c], 1),
{
    let p = Plan::Guess(g, Seq::empty());
    let cands = set![c];
    lemma_kids_empty(resp, n_guesses, cands, g, c, N_RESPONSES as int);
    assert(cands.len() == 1);
    assert(plan_cost(resp, n_guesses, cands, p) == Some(1nat));
}

/// One candidate with a guess that wins on it takes one guess.
pub proof fn lemma_single_achievable(resp: spec_fn(int, int) -> int, n_guesses: nat, n: nat, c: int)
    requires
        0 <= c < n,
        response_model(resp, n_guesses, n),
        has_winning_guess(resp, n_guesses, c),
    ensures
        achievable(resp, n_guesses, set![c], 1),
{
    let g = choose|g: int| 0 <= g < n_guesses && #[trigger] resp(g, c) == CORRECT_IDX;
    let p = Plan::Guess(g, Seq::empty());
    let cands = set![c];
    assert forall|k: int| 0 <= k <= N_RESPONSES implies #[trigger] kids_cost(resp, n_guesses, cands, g, Seq::empty(), k) == Some(0nat) by {
        lemma_kids_empty(resp, n_guesses, cands, g, c, k);
    }
    lemma_kids_empty(resp, n_guesses, cands, g, c, N_RESPONSES as int);
    assert(cands.len() == 1);
    assert(plan_cost(resp, n_guesses, cands, p) == Some(1nat));
}

proof fn lemma_kids_empty(resp: spec_fn(int, int) -> int, n_guesses: nat, cands: Set<int>, g: int, c: int, k: int)
    requires
        cands == set![c],
        resp(g, c) == CORRECT_IDX,
        0 <= k <= N_RESPONSES,
    ensures
        kids_cost(resp, n_guesses, cands, g, Seq::empty(), k) == Some(0nat),
    decreases k,
{
    if k > 0 {
        lemma_kids_empty(resp, n_guesses, cands, g, c, k - 1);
        let r = k - 1;
        if r != CORRECT_IDX {
            assert(class(resp, cands, g, r) =~= Set::empty());
        }
    }
}

/// Sum of a sequence of naturals.
pub open spec fn seq_sum(s: Seq<nat>) -> nat
    decreases s.len(),
{
    if s.len() == 0 {
        0
    } else {
        seq_sum(s.drop_last()) + s.last()
    }
}

/// The nonempty classes of responses below `k` other than the win, in increasing order.
pub open spec fn split_classes(resp: spec_fn(int, int) -> int, cands: Set<int>, g: int, k: int) -> Seq<(int, Set<int>)>
    decreases k,
{
    if k <= 0 {
        Seq::empty()
    } else {
        let prev = split_classes(resp, cands, g, k - 1);
        let cl = class(resp, cands, g, k - 1);
        if k - 1 != CORRECT_IDX && cl.len() > 0 {
            prev.push((k - 1, cl))
        } else {
            prev
        }
    }
}

/// Guessing `g` and then following strategies of the given costs for its classes.
pub open spec fn combined_kids(
    resp: spec_fn(int, int) -> int,
    n_guesses: nat,
    cands: Set<int>,
    g: int,
    costs: Seq<nat>,
) -> Seq<Plan> {
    Seq::new(N_RESPONSES as nat, |r: int| {
        let i = split_classes(resp, cands, g, r).len() as int;
        choose|p: Plan| plan_cost(resp, n_guesses, class(resp, cands, g, r), p) == Some(costs[i])
    })
}

pub proof fn lemma_split_classes_prefix(resp: spec_fn(int, int) -> int, cands: Set<int>, g: int, j: int, k: int)
    requires
        0 <= j <= k,
    ensures
        split_classes(resp, cands, g, j).len() <= split_classes(resp, cands, g, k).len(),
        forall|i: int| 0 <= i < split_classes(resp, cands, g, j).len() ==> #[trigger] split_classes(resp, cands, g, k)[i]
            == split_classes(resp, cands, g, j)[i],
    decreases k - j,
{
    if j < k {
        lemma_split_classes_prefix(resp, cands, g, j, k - 1);
    }
}

pub proof fn lemma_split_classes_entries(resp: spec_fn(int, int) -> int, cands: Set<int>, g: int, k: int)
    requires
        0 <= k,
    ensures
        forall|i: int| 0 <= i < split_classes(resp, cands, g, k).len() ==> {
            let e = #[trigger] split_classes(resp, cands, g, k)[i];
            &&& 0 <= e.0 < k
            &&& e.0 != CORRECT_IDX
            &&& e.1 == class(resp, cands, g, e.0)
            &&& e.1.len() > 0
            &&& split_classes(resp, cands, g, e.0).len() == i
        },
        forall|i: int, j: int| 0 <= i < j < split_classes(resp, cands, g, k).len() ==>
            (#[trigger] split_classes(resp, cands, g, k)[i]).0 < (#[trigger] split_classes(resp, cands, g, k)[j]).0,
    decreases k,
{
    if k > 0 {
        lemma_split_classes_entries(resp, cands, g, k - 1);
        let prev = split_classes(resp, cands, g, k - 1);
        let cur = split_classes(resp, cands, g, k);
        assert forall|i: int| 0 <= i < cur.len() implies {
            let e = #[trigger] cur[i];
            &&& 0 <= e.0 < k
            &&& e.0 != CORRECT_IDX
            &&& e.1 == class(resp, cands, g, e.0)
            &&& e.1.len() > 0
            &&& split_classes(resp, cands, g, e.0).len() == i
        } by {
            if i < prev.len() {
                assert(cur[i] == prev[i]);
            }
        }
        assert forall|i: int, j: int| 0 <= i < j < cur.len() implies (#[trigger] cur[i]).0 < (#[trigger] cur[j]).0 by {
            if j < prev.len() {
                assert(cur[i] == prev[i] && cur[j] == prev[j]);
            } else {
                assert(cur[i] == prev[i]);
            }
        }
    }
}

proof fn lemma_combined_kids_cost(
    resp: spec_fn(int, int) -> int,
    n_guesses: nat,
    cands: Set<int>,
    g: int,
    costs: Seq<nat>,
    k: int,
)
    requires
        0 <= k <= N_RESPONSES,
        costs.len() == split_classes(resp, cands, g, N_RESPONSES as int).len(),
        forall|i: int| 0 <= i < costs.len() ==> achievable(resp, n_guesses, #[trigger] split_classes(resp, cands, g, N_RESPONSES as int)[i].1, costs[i]),
    ensures
        kids_cost(resp, n_guesses, cands, g, combined_kids(resp, n_guesses, cands, g, costs), k)
            == Some(seq_sum(costs.take(split_classes(resp, cands, g, k).len() as int))),
    decreases k,
{
    let kids = combined_kids(resp, n_guesses, cands, g, costs);
    lemma_split_classes_prefix(resp, cands, g, k, N_RESPONSES as int);
    if k > 0 {
        lemma_combined_kids_cost(resp, n_guesses, cands, g, costs, k - 1);
        let r = k - 1;
        let cl = class(resp, cands, g, r);
        let i = split_classes(resp, cands, g, r).len() as int;
        lemma_split_classes_prefix(resp, cands, g, r, N_RESPONSES as int);
        if r != CORRECT_IDX && cl.len() > 0 {
            let all = split_classes(resp, cands, g, N_RESPONSES as int);
            assert(split_classes(resp, cands, g, k) == split_classes(resp, cands, g, r).push((r, cl)));
            assert(all[i] == (r, cl));
            assert(all[i].1 == cl);
            assert(achievable(resp, n_guesses, all[i].1, costs[i]));
            assert(costs.take(i + 1).drop_last() =~= costs.take(i));
        }
    } else {
        assert(costs.take(0) =~= Seq::<nat>::empty());
    }
}

/// Guessing `g` on nonempty `cands`, then following strategies of costs `costs` for its
/// classes (other than the win), takes `|cands| + sum(costs)` guesses.
pub proof fn lemma_combine_achievable(
    resp: spec_fn(int, int) -> int,
    n_guesses: nat,
    cands: Set<int>,
    g: int,
    costs: Seq<nat>,
)
    requires
        cands.len() > 0,
        0 <= g < n_guesses,
        costs.len() == split_classes(resp, cands, g, N_RESPONSES as int).len(),
        forall|i: int| 0 <= i < costs.len() ==> achievable(resp, n_guesses, #[trigger] split_classes(resp, cands, g, N_RESPONSES as int)[i].1, costs[i]),
    ensures
        achievable_with_first(resp, n_guesses, cands, g, cands.len() + seq_sum(costs)),
        achievable(resp, n_guesses, cands, cands.len() + seq_sum(costs)),
{
    lemma_combined_kids_cost(resp, n_guesses, cands, g, costs, N_RESPONSES as int);
    assert(costs.take(costs.len() as int) =~= costs);
    let p = Plan::Guess(g, combined_kids(resp, n_guesses, cands, g, costs));
    assert(plan_cost(resp, n_guesses, cands, p) == Some(cands.len() + seq_sum(costs)));
}

/// `t` is the fewest guesses in total that any strategy takes to find every candidate of
/// `cands`.
pub open spec fn is_min_total(resp: spec_fn(int, int) -> int, n_guesses: nat, cands: Set<int>, t: nat) -> bool {
    &&& achievable(resp, n_guesses, cands, t)
    &&& forall|t2: nat| #[trigger] achievable(resp, n_guesses, cands, t2) ==> t <= t2
}

/// What the sub-strategies `kids` take for the classes of responses below `k` other than
/// the win, in the order of `split_classes`.
pub open spec fn kid_costs(resp: spec_fn(int, int) -> int, n_guesses: nat, cands: Set<int>, g: int, kids: Seq<Plan>, k: int) -> Seq<nat>
    decreases k,
{
    if k <= 0 {
        Seq::empty()
    } else {
        let prev = kid_costs(resp, n_guesses, cands, g, kids, k - 1);
        let cl = class(resp, cands, g, k - 1);
        if k - 1 != CORRECT_IDX && cl.len() > 0 {
            prev.push(plan_cost(resp, n_guesses, cl, kids[k - 1])->0)
        } else {
            prev
        }
    }
}

proof fn lemma_kid_costs(resp: spec_fn(int, int) -> int, n_guesses: nat, cands: Set<int>, g: int, kids: Seq<Plan>, k: int)
    requires
        0 <= k,
        kids_cost(resp, n_guesses, cands, g, kids, k) is Some,
    ensures
        kid_costs(resp, n_guesses, cands, g, kids, k).len() == split_classes(resp, cands, g, k).len(),
        kids_cost(resp, n_guesses, cands, g, kids, k)->0 == seq_sum(kid_costs(resp, n_guesses, cands, g, kids, k)),
        forall|i: int| 0 <= i < kid_costs(resp, n_guesses, cands, g, kids, k).len() ==> achievable(resp, n_guesses,
            #[trigger] split_classes(resp, cands, g, k)[i].1, kid_costs(resp, n_guesses, cands, g, kids, k)[i]),
    decreases k,
{
    if k > 0 {
        lemma_kid_costs(resp, n_guesses, cands, g, kids, k - 1);
        let prev = kid_costs(resp, n_guesses, cands, g, kids, k - 1);
        let cur = kid_costs(resp, n_guesses, cands, g, kids, k);
        let scp = split_classes(resp, cands, g, k - 1);
        let sck = split_classes(resp, cands, g, k);
        let cl = class(resp, cands, g, k - 1);
        if k - 1 != CORRECT_IDX && cl.len() > 0 {
            let kid = kids[k - 1];
            assert(plan_cost(resp, n_guesses, cl, kid) is Some);
            assert(achievable(resp, n_guesses, cl, plan_cost(resp, n_guesses, cl, kid)->0));
            assert(cur.drop_last() == prev);
            assert forall|i: int| 0 <= i < cur.len() implies achievable(resp, n_guesses, #[trigger] sck[i].1, cur[i]) by {
                if i < prev.len() {
                    assert(sck[i] == scp[i]);
                    assert(cur[i] == prev[i]);
                    assert(achievable(resp, n_guesses, scp[i].1, prev[i]));
                }
            }
        }
    }
}

/// A strategy that starts with guess `g` costs `|cands|` plus what strategies for the
/// classes of `g` other than the win cost.
pub proof fn lemma_split_cost(resp: spec_fn(int, int) -> int, n_guesses: nat, cands: Set<int>, g: int, t: nat) -> (costs: Seq<nat>)
    requires
        cands.len() > 0,
        achievable_with_first(resp, n_guesses, cands, g, t),
    ensures
        costs.len() == split_classes(resp, cands, g, N_RESPONSES as int).len(),
        t == cands.len() + seq_sum(costs),
        forall|i: int| 0 <= i < costs.len() ==> achievable(resp, n_guesses, #[trigger] split_classes(resp, cands, g, N_RESPONSES as int)[i].1, costs[i]),
{
    let kids = choose|kids: Seq<Plan>| plan_cost(resp, n_guesses, cands, Plan::Guess(g, kids)) == Some(t);
    assert(plan_cost(resp, n_guesses, cands, Plan::Guess(g, kids)) == Some(t));
    lemma_kid_costs(resp, n_guesses, cands, g, kids, N_RESPONSES as int);
    kid_costs(resp, n_guesses, cands, g, kids, N_RESPONSES as int)
}

/// A strategy for a nonempty set starts with some guess.
pub proof fn lemma_first_guess(resp: spec_fn(int, int) -> int, n_guesses: nat, cands: Set<int>, t: nat) -> (g: int)
    requires
        cands.len() > 0,
        achievable(resp, n_guesses, cands, t),
    ensures
        0 <= g < n_guesses,
        achievable_with_first(resp, n_guesses, cands, g, t),
{
    let p = choose|p: Plan| plan_cost(resp, n_guesses, cands, p) == Some(t);
    let Plan::Guess(g, kids) = p;
    assert(plan_cost(resp, n_guesses, cands, Plan::Guess(g, kids)) == Some(t));
    g
}

/// Two distinct candidates, each with a guess that wins on it, take three guesses: guess
/// the first, then (if it was not the secret) the second.
pub proof fn lemma_pair_achievable(resp: spec_fn(int, int) -> int, n_guesses: nat, n: nat, c1: int, c2: int)
    requires
        0 <= c1 < n,
        0 <= c2 < n,
        c1 != c2,
        response_model(resp, n_guesses, n),
        has_winning_guess(resp, n_guesses, c1),
        has_winning_guess(resp, n_guesses, c2),
    ensures
        achievable(resp, n_guesses, set![c1, c2], 3),
{
    let g = choose|g: int| 0 <= g < n_guesses && #[trigger] resp(g, c1) == CORRECT_IDX;
    lemma_pair_with(resp, n_guesses, n, c1, c2, g);
}

/// Two distinct candidates take three guesses when the first guess wins on the first of
/// them and the second has a guess that wins on it.
pub proof fn lemma_pair_with(resp: spec_fn(int, int) -> int, n_guesses: nat, n: nat, c1: int, c2: int, g: int)
    requires
        0 <= c1 < n,
        0 <= c2 < n,
        c1 != c2,
        0 <= g < n_guesses,
        resp(g, c1) == CORRECT_IDX,
        response_model(resp, n_guesses, n),
        has_winning_guess(resp, n_guesses, c2),
    ensures
        achievable_with_first(resp, n_guesses, set![c1, c2], g, 3),
        achievable(resp, n_guesses, set![c1, c2], 3),
{
    let cands = set![c1, c2];
    let r2 = resp(g, c2);
    assert(r2 != CORRECT_IDX);
    assert(0 <= r2 < N_RESPONSES);
    assert(class(resp, cands, g, r2) =~= set![c2]);
    lemma_pair_split(resp, cands, g, c1, c2, N_RESPONSES as int);
    let sc = split_classes(resp, cands, g, N_RESPONSES as int);
    lemma_single_achievable(resp, n_guesses, n, c2);
    assert(sc[0].1 == set![c2]);
    let costs = seq![1nat];
    assert(seq_sum(costs) == 1) by {
        assert(costs.drop_last() =~= Seq::<nat>::empty());
        assert(seq_sum(Seq::<nat>::empty()) == 0);
        assert(costs.last() == 1);
    }
    lemma_combine_achievable(resp, n_guesses, cands, g, costs);
    assert(cands.len() == 2) by {
        assert(set![c1].len() == 1);
    }
}

proof fn lemma_pair_split(resp: spec_fn(int, int) -> int, cands: Set<int>, g: int, c1: int, c2: int, k: int)
    requires
        cands == set![c1, c2],
        c1 != c2,
        resp(g, c1) == CORRECT_IDX,
        resp(g, c2) != CORRECT_IDX,
        0 <= resp(g, c2),
        0 <= k,
    ensures
        split_classes(resp, cands, g, k) == if resp(g, c2) < k { seq![(resp(g, c2), set![c2])] } else { Seq::empty() },
    decreases k,
{
    if k > 0 {
        lemma_pair_split(resp, cands, g, c1, c2, k - 1);
        let r = k - 1;
        if r == resp(g, c2) {
            assert(class(resp, cands, g, r) =~= set![c2]);
            assert(Seq::<(int, Set<int>)>::empty().push((r, set![c2])) =~= seq![(r, set![c2])]);
        } else if r != CORRECT_IDX {
            assert(class(resp, cands, g, r) =~= Set::empty());
        }
    }
}

/// The sizes of the classes of `split_classes`, in the same order.
pub open spec fn split_sizes(resp: spec_fn(int, int) -> int, cands: Set<int>, g: int, k: int) -> Seq<nat>
    decreases k,
{
    if k <= 0 {
        Seq::empty()
    } else {
        let prev = split_sizes(resp, cands, g, k - 1);
        let cl = class(resp, cands, g, k - 1);
        if k - 1 != CORRECT_IDX && cl.len() > 0 {
            prev.push(cl.len())
        } else {
            prev
        }
    }
}

/// The split classes' sizes add up to the candidates outside the win class.
pub proof fn lemma_split_sizes(resp: spec_fn(int, int) -> int, cands: Set<int>, g: int, k: int)
    requires
        0 <= k,
    ensures
        split_sizes(resp, cands, g, k).len() == split_classes(resp, cands, g, k).len(),
        forall|i: int| 0 <= i < split_sizes(resp, cands, g, k).len() ==> #[trigger] split_sizes(resp, cands, g, k)[i]
            == split_classes(resp, cands, g, k)[i].1.len(),
        seq_sum(split_sizes(resp, cands, g, k)) == nonwin_size_sum(resp, cands, g, k),
    decreases k,
{
    if k > 0 {
        lemma_split_sizes(resp, cands, g, k - 1);
        let cl = class(resp, cands, g, k - 1);
        if k - 1 != CORRECT_IDX && cl.len() > 0 {
            assert(split_sizes(resp, cands, g, k).drop_last() == split_sizes(resp, cands, g, k - 1));
        }
    }
}

/// Split classes are nonempty subsets of the candidates, pairwise disjoint.
pub proof fn lemma_split_disjoint(resp: spec_fn(int, int) -> int, cands: Set<int>, g: int, k: int)
    requires
        0 <= k,
    ensures
        forall|i: int| 0 <= i < split_classes(resp, cands, g, k).len() ==> (#[trigger] split_classes(resp, cands, g, k)[i]).1.subset_of(cands),
        forall|i: int, j: int| 0 <= i < split_classes(resp, cands, g, k).len() && 0 <= j < split_classes(resp, cands, g, k).len() && i != j
            ==> (#[trigger] split_classes(resp, cands, g, k)[i]).1.disjoint((#[trigger] split_classes(resp, cands, g, k)[j]).1),
{
    lemma_split_classes_entries(resp, cands, g, k);
    let sc = split_classes(resp, cands, g, k);
    assert forall|i: int, j: int| 0 <= i < sc.len() && 0 <= j < sc.len() && i != j implies (#[trigger] sc[i]).1.disjoint((#[trigger] sc[j]).1) by {
        if i < j {
            assert(sc[i].0 < sc[j].0);
        } else {
            assert(sc[j].0 < sc[i].0);
        }
    }
}

/// Changing one entry changes the sum by the difference.
pub proof fn lemma_seq_sum_update(s: Seq<nat>, i: int, v: nat)
    requires
        0 <= i < s.len(),
    ensures
        seq_sum(s.update(i, v)) + s[i] == seq_sum(s) + v,
    decreases s.len(),
{
    if i < s.len() - 1 {
        lemma_seq_sum_update(s.drop_last(), i, v);
        assert(s.update(i, v).drop_last() =~= s.drop_last().update(i, v));
    } else {
        assert(s.update(i, v).drop_last() =~= s.drop_last());
    }
}

/// A pointwise larger sequence has a larger sum.
pub proof fn lemma_seq_sum_mono(a: Seq<nat>, b: Seq<nat>)
    requires
        a.len() == b.len(),
        forall|i: int| 0 <= i < a.len() ==> #[trigger] a[i] <= b[i],
    ensures
        seq_sum(a) <= seq_sum(b),
    decreases a.len(),
{
    if a.len() > 0 {
        lemma_seq_sum_mono(a.drop_last(), b.drop_last());
    }
}

/// Each entry is at most the sum.
pub proof fn lemma_seq_sum_entry(s: Seq<nat>, i: int)
    requires
        0 <= i < s.len(),
    ensures
        s[i] <= seq_sum(s),
    decreases s.len(),
{
    if i < s.len() - 1 {
        lemma_seq_sum_entry(s.drop_last(), i);
    }
}

/// Classes of different responses to one guess share no candidate.
pub proof fn lemma_classes_disjoint(resp: spec_fn(int, int) -> int, cands: Set<int>, g: int, r1: int, r2: int)
    requires
        r1 != r2,
    ensures
        class(resp, cands, g, r1).disjoint(class(resp, cands, g, r2)),
{
}

/// The class of a subset is the class of the whole set, cut down to the subset.
pub proof fn lemma_class_of_subset(resp: spec_fn(int, int) -> int, all: Set<int>, cands: Set<int>, g: int, r: int)
    requires
        cands.subset_of(all),
    ensures
        class(resp, cands, g, r) == class(resp, all, g, r).intersect(cands),
{
    assert(class(resp, cands, g, r) =~= class(resp, all, g, r).intersect(cands));
}

/// A guess that is one of the candidates is alone in its class, and that class is the win.
pub proof fn lemma_guess_in_class(resp: spec_fn(int, int) -> int, n_guesses: nat, n: nat, cands: Set<int>, g: int, c: int)
    requires
        response_model(resp, n_guesses, n),
        within(cands, n),
        0 <= g < n_guesses,
        cands.contains(c),
        resp(g, c) == CORRECT_IDX,
    ensures
        class(resp, cands, g, CORRECT_IDX as int) == set![c],
{
    assert(class(resp, cands, g, CORRECT_IDX as int) =~= set![c]);
}

/// One candidate takes one guess at best, two take three: no strategy does better, and a
/// guess that wins on a candidate achieves it.
pub proof fn lemma_small_sets_optimal(resp: spec_fn(int, int) -> int, n_guesses: nat, n: nat, c1: int, c2: int, p: Plan)
    requires
        0 <= c1 < n,
        0 <= c2 < n,
        c1 != c2,
        response_model(resp, n_guesses, n),
        has_winning_guess(resp, n_guesses, c1),
        has_winning_guess(resp, n_guesses, c2),
    ensures
        achievable(resp, n_guesses, set![c1], 1),
        achievable(resp, n_guesses, set![c1, c2], 3),
        plan_cost(resp, n_guesses, set![c1], p) matches Some(t) ==> t >= 1,
        plan_cost(resp, n_guesses, set![c1, c2], p) matches Some(t) ==> t >= 3,
{
    lemma_single_achievable(resp, n_guesses, n, c1);
    lemma_pair_achievable(resp, n_guesses, n, c1, c2);
    assert(set![c1].len() == 1);
    assert(set![c1, c2].len() == 2);
    if plan_cost(resp, n_guesses, set![c1], p) is Some {
        lemma_plan_cost_lower_bound(resp, n_guesses, n, set![c1], p);
    }
    if plan_cost(resp, n_guesses, set![c1, c2], p) is Some {
        lemma_plan_cost_lower_bound(resp, n_guesses, n, set![c1, c2], p);
    }
}

} // verus!
