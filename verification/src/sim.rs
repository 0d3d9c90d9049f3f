use vstd::prelude::*;
use std::collections::BTreeMap;
use vstd::std_specs::iter::IteratorSpec;
use crate::bits::{bits_of, lemma_bits_of_true_positions, BitSet};
use crate::part::{cache_resp, entry_counted, generate_partitions, split_counted};
use crate::plan::{
    achievable, class, lemma_plan_cost_lower_bound, min_total, plan_cost, Plan, has_winning_guess, lemma_below_all, lemma_combine_achievable, lemma_nonwin_size_sum,
    lemma_pair_achievable, lemma_single_achievable, lemma_split_classes_entries, lemma_split_disjoint, lemma_split_sizes,
    seq_sum, split_classes, split_sizes, within,
};
pub use crate::policy::{MaxFreqPolicy, MinRemainingPolicy, Policy};
use crate::resp::{ResponseCache, CORRECT_IDX, N_RESPONSES};
use crate::solver::{cache_covered, cache_ready, lemma_set_one, lemma_set_two};

verus! {

broadcast use {vstd::std_specs::btree::group_btree_axioms, vstd::laws_cmp::group_laws_cmp};

/// The total number of guesses recorded in a distribution: each number of guesses times
/// the number of words that took it.
pub open spec fn dist_total(m: Map<usize, usize>) -> int
    decreases m.dom().len(),
    when m.dom().finite()
{
    if m.dom().len() == 0 {
        0
    } else {
        let k = m.dom().choose();
        k * m[k] + dist_total(m.remove(k))
    }
}

/// `dist_total` may take its entries in any order.
pub proof fn lemma_dist_total_pick(m: Map<usize, usize>, k: usize)
    requires
        m.dom().finite(),
        m.contains_key(k),
    ensures
        dist_total(m) == k * m[k] + dist_total(m.remove(k)),
    decreases m.dom().len(),
{
    let c = m.dom().choose();
    assert(m.dom().contains(c));
    if c != k {
        let mc = m.remove(c);
        let mk = m.remove(k);
        lemma_dist_total_pick(mc, k);
        lemma_dist_total_pick(mk, c);
        assert(mc.remove(k) =~= mk.remove(c));
    }
}

/// The sum of `key * value` over a sequence of entries.
pub open spec fn pairs_total(s: Seq<(usize, usize)>) -> int
    decreases s.len(),
{
    if s.len() == 0 {
        0
    } else {
        pairs_total(s.drop_last()) + s.last().0 * s.last().1
    }
}

/// The entries of `s` are exactly those of `m`, each once.
pub open spec fn lists_map(s: Seq<(usize, usize)>, m: Map<usize, usize>) -> bool {
    &&& s.len() == m.dom().len()
    &&& forall|i: int| 0 <= i < s.len() ==> #[trigger] m.contains_key(s[i].0) && m[s[i].0] == s[i].1
    &&& forall|i: int, j: int| 0 <= i < j < s.len() ==> (#[trigger] s[i]).0 != (#[trigger] s[j]).0
}

proof fn lemma_pairs_total(s: Seq<(usize, usize)>, m: Map<usize, usize>)
    requires
        m.dom().finite(),
        lists_map(s, m),
    ensures
        pairs_total(s) == dist_total(m),
    decreases s.len(),
{
    if s.len() > 0 {
        let (k, v) = s.last();
        assert(m.contains_key(s[s.len() - 1].0));
        let m2 = m.remove(k);
        let s2 = s.drop_last();
        assert forall|i: int| 0 <= i < s2.len() implies #[trigger] m2.contains_key(s2[i].0) && m2[s2[i].0] == s2[i].1 by {
            assert(s[i] == s2[i]);
            assert(s[i].0 != s[s.len() - 1].0);
            assert(m.contains_key(s[i].0));
        }
        assert forall|i: int, j: int| 0 <= i < j < s2.len() implies (#[trigger] s2[i]).0 != (#[trigger] s2[j]).0 by {
            assert(s[i] == s2[i] && s[j] == s2[j]);
        }
        lemma_pairs_total(s2, m2);
        lemma_dist_total_pick(m, k);
    } else {
        assert(m.dom() =~= Set::empty());
    }
}

/// Every partial sum of `key * value` is at most the whole one.
proof fn lemma_pairs_total_prefix(s: Seq<(usize, usize)>, i: int)
    requires
        0 <= i <= s.len(),
    ensures
        pairs_total(s.take(i)) <= pairs_total(s),
    decreases s.len(),
{
    if i < s.len() {
        lemma_pairs_total_prefix(s.drop_last(), i);
        assert(s.drop_last().take(i) =~= s.take(i));
        let (k, v) = s.last();
        assert(k * v >= 0) by (nonlinear_arith);
    } else {
        assert(s.take(i) =~= s);
    }
}

/// Counts of how many guesses each word took.
pub struct SimStats {
    pub total_words: usize,
    // Map<NumGuesses, CountOfWords>
    pub distribution: BTreeMap<usize, usize>,
}

impl SimStats {
    /// No words recorded.
    pub fn new() -> (r: Self)
        ensures
            r.total_words == 0,
            r.distribution@ == Map::<usize, usize>::empty(),
            stats_ok(r),
    {
        let r = Self { total_words: 0, distribution: BTreeMap::new() };
        assert(r.distribution@.dom() =~= Set::<usize>::empty());
        r
    }

    /// The count of words that took `guesses` guesses (0 when there is none).
    pub open spec fn count_of(&self, guesses: usize) -> nat {
        if self.distribution@.contains_key(guesses) {
            self.distribution@[guesses] as nat
        } else {
            0
        }
    }

    /// Records one more word, found with `guesses` guesses.
    pub fn inc(&mut self, guesses: usize)
        requires
            old(self).total_words < usize::MAX,
            old(self).count_of(guesses) < usize::MAX,
        ensures
            final(self).total_words == old(self).total_words + 1,
            final(self).distribution@ == old(self).distribution@.insert(guesses, (old(self).count_of(guesses) + 1) as usize),
            dist_total(final(self).distribution@) == dist_total(old(self).distribution@) + guesses,
            dist_count(final(self).distribution@) == dist_count(old(self).distribution@) + 1,
            forall|gs: Seq<usize>| old(self).distribution@ == recorded(gs) ==> #[trigger] recorded(gs.push(guesses))
                == final(self).distribution@,
            stats_ok(*old(self)) ==> stats_ok(*final(self)),
    {
        self.total_words += 1;
        let c: usize = match self.distribution.get(&guesses) {
            Some(v) => *v,
            None => 0,
        };
        self.distribution.insert(guesses, c + 1);
        proof {
            lemma_dist_total_insert(old(self).distribution@, guesses, c);
            lemma_dist_count_insert(old(self).distribution@, guesses, c);
            assert forall|gs: Seq<usize>| old(self).distribution@ == recorded(gs) implies #[trigger] recorded(gs.push(guesses))
                == self.distribution@ by {
                assert(gs.push(guesses).drop_last() == gs);
            }
        }
    }

    /// The total number of guesses over all recorded words.
    pub fn total_guesses(&self) -> (r: usize)
        requires
            dist_total(self.distribution@) <= usize::MAX,
        ensures
            r == dist_total(self.distribution@),
    {
        let ghost m = self.distribution@;
        let ghost raw = vstd::std_specs::btree::spec_btree_map_iter(&self.distribution).remaining();
        let ghost full = entries_of(raw);
        let mut total: usize = 0;
        let ghost mut seen: Seq<(usize, usize)> = Seq::empty();
        for kv in it: self.distribution.iter()
            invariant
                m == self.distribution@,
                dist_total(m) <= usize::MAX,
                raw == vstd::std_specs::btree::spec_btree_map_iter(&self.distribution).remaining(),
                it.seq() == raw,
                raw.no_duplicates(),
                full == entries_of(it.seq()),
                0 <= it.index() <= full.len(),
                seen == full.take(it.index()),
                total == pairs_total(seen),
        {
            let (k, v) = kv;
            proof {
                lemma_entries_list(self.distribution, raw);
                lemma_pairs_total(full, m);
                let seen1 = seen.push((*k, *v));
                assert(seen1 =~= full.take(seen1.len() as int));
                lemma_pairs_total_prefix(full, seen1.len() as int);
                assert(seen1.drop_last() == seen);
                seen = seen1;
            }
            total = total + k * v;
        }
        proof {
            lemma_entries_list(self.distribution, raw);
            lemma_pairs_total(full, m);
            assert(seen =~= full);
        }
        total
    }

    /// The fewest and the most guesses any recorded word took; (0, 0) when none is recorded.
    pub fn min_max(&self) -> (r: (usize, usize))
        ensures
            self.distribution@.dom().len() == 0 ==> r == (0usize, 0usize),
            self.distribution@.dom().len() > 0 ==> {
                &&& self.distribution@.contains_key(r.0)
                &&& self.distribution@.contains_key(r.1)
                &&& forall|k: usize| #[trigger] self.distribution@.contains_key(k) ==> r.0 <= k <= r.1
            },
    {
        let ghost m = self.distribution@;
        let ghost raw = vstd::std_specs::btree::spec_btree_map_iter(&self.distribution).remaining();
        let ghost full = entries_of(raw);
        let mut found = false;
        let mut lo: usize = 0;
        let mut hi: usize = 0;
        for kv in it: self.distribution.iter()
            invariant
                m == self.distribution@,
                raw == vstd::std_specs::btree::spec_btree_map_iter(&self.distribution).remaining(),
                it.seq() == raw,
                raw.no_duplicates(),
                full == entries_of(raw),
                0 <= it.index() <= full.len(),
                found == (it.index() > 0),
                found ==> m.contains_key(lo) && m.contains_key(hi),
                !found ==> lo == 0 && hi == 0,
                forall|i: int| 0 <= i < it.index() ==> lo <= (#[trigger] full[i]).0 <= hi,
        {
            let (k, _v) = kv;
            proof {
                lemma_entries_list(self.distribution, raw);
                assert(full[it.index()].0 == *k);
            }
            if !found || *k < lo {
                lo = *k;
            }
            if !found || *k > hi {
                hi = *k;
            }
            found = true;
        }
        proof {
            lemma_entries_list(self.distribution, raw);
            if m.dom().len() > 0 {
                assert forall|k: usize| #[trigger] m.contains_key(k) implies lo <= k <= hi by {
                    assert(key_listed(full, k));
                    let i = choose|i: int| 0 <= i < full.len() && (#[trigger] full[i]).0 == k;
                }
            } else {
                assert(full.len() == 0);
            }
        }
        (lo, hi)
    }
}

/// Some entry of `e` has key `k`.
pub open spec fn key_listed(e: Seq<(usize, usize)>, k: usize) -> bool {
    exists|i: int| 0 <= i < e.len() && (#[trigger] e[i]).0 == k
}

/// The entries of a map iteration, as plain pairs.
pub open spec fn entries_of(s: Seq<(&usize, &usize)>) -> Seq<(usize, usize)> {
    Seq::new(s.len(), |i: int| (*s[i].0, *s[i].1))
}

proof fn lemma_entries_list(d: BTreeMap<usize, usize>, s: Seq<(&usize, &usize)>)
    requires
        s == vstd::std_specs::btree::spec_btree_map_iter(&d).remaining(),
        s.no_duplicates(),
    ensures
        lists_map(entries_of(s), d@),
        d@.dom().finite(),
        forall|k: usize| #[trigger] d@.contains_key(k) ==> key_listed(entries_of(s), k),
{
    let e = entries_of(s);
    assert forall|i: int| 0 <= i < e.len() implies #[trigger] d@.contains_key(e[i].0) && d@[e[i].0] == e[i].1 by {
        assert(d@.contains_key(*s[i].0));
    }
    assert forall|i: int, j: int| 0 <= i < j < e.len() implies (#[trigger] e[i]).0 != (#[trigger] e[j]).0 by {
        assert(d@.contains_key(*s[i].0));
        assert(d@.contains_key(*s[j].0));
        assert(s[i] != s[j]);
    }
    assert forall|k: usize| #[trigger] d@.contains_key(k) implies key_listed(e, k) by {
        assert(s.contains((&k, &d@[k])));
        let i = choose|i: int| 0 <= i < s.len() && s[i] == (&k, &d@[k]);
        assert(e[i].0 == k);
    }
}

/// Counting one more word with `k` guesses adds `k` to the total.
proof fn lemma_dist_total_insert(m: Map<usize, usize>, k: usize, c: usize)
    requires
        m.dom().finite(),
        c == if m.contains_key(k) { m[k] } else { 0 },
        c < usize::MAX,
    ensures
        dist_total(m.insert(k, (c + 1) as usize)) == dist_total(m) + k,
{
    let m2 = m.insert(k, (c + 1) as usize);
    lemma_dist_total_pick(m2, k);
    if m.contains_key(k) {
        lemma_dist_total_pick(m, k);
        assert(m2.remove(k) =~= m.remove(k));
    } else {
        assert(m2.remove(k) =~= m);
    }
    assert(k * (c + 1) == k * c + k) by (nonlinear_arith);
}

/// The number of words recorded in a distribution: the sum of its counts.
pub open spec fn dist_count(m: Map<usize, usize>) -> int
    decreases m.dom().len(),
    when m.dom().finite()
{
    if m.dom().len() == 0 {
        0
    } else {
        let k = m.dom().choose();
        m[k] + dist_count(m.remove(k))
    }
}

/// `dist_count` may take its entries in any order.
proof fn lemma_dist_count_pick(m: Map<usize, usize>, k: usize)
    requires
        m.dom().finite(),
        m.contains_key(k),
    ensures
        dist_count(m) == m[k] + dist_count(m.remove(k)),
    decreases m.dom().len(),
{
    let c = m.dom().choose();
    assert(m.dom().contains(c));
    if c != k {
        let mc = m.remove(c);
        let mk = m.remove(k);
        lemma_dist_count_pick(mc, k);
        lemma_dist_count_pick(mk, c);
        assert(mc.remove(k) =~= mk.remove(c));
    }
}

/// Counting one more word adds one to the number of words.
proof fn lemma_dist_count_insert(m: Map<usize, usize>, k: usize, c: usize)
    requires
        m.dom().finite(),
        c == if m.contains_key(k) { m[k] } else { 0 },
        c < usize::MAX,
    ensures
        dist_count(m.insert(k, (c + 1) as usize)) == dist_count(m) + 1,
{
    let m2 = m.insert(k, (c + 1) as usize);
    lemma_dist_count_pick(m2, k);
    if m.contains_key(k) {
        lemma_dist_count_pick(m, k);
        assert(m2.remove(k) =~= m.remove(k));
    } else {
        assert(m2.remove(k) =~= m);
    }
}

/// The distribution of recording the words' numbers of guesses `gs`, one after another.
pub open spec fn recorded(gs: Seq<usize>) -> Map<usize, usize>
    decreases gs.len(),
{
    if gs.len() == 0 {
        Map::empty()
    } else {
        let m = recorded(gs.drop_last());
        let g = gs.last();
        m.insert(g, ((if m.contains_key(g) { m[g] as int } else { 0 }) + 1) as usize)
    }
}

/// The sum of the numbers of guesses.
pub open spec fn guesses_sum(gs: Seq<usize>) -> int
    decreases gs.len(),
{
    if gs.len() == 0 {
        0
    } else {
        guesses_sum(gs.drop_last()) + gs.last()
    }
}

/// Recording words one after another from no words: the distribution's total is the sum
/// of their numbers of guesses, and its number of words is how many were recorded.
pub proof fn lemma_recorded_totals(gs: Seq<usize>)
    requires
        gs.len() < usize::MAX,
    ensures
        recorded(gs).dom().finite(),
        forall|k: usize| #[trigger] recorded(gs).contains_key(k) ==> recorded(gs)[k] <= gs.len(),
        dist_total(recorded(gs)) == guesses_sum(gs),
        dist_count(recorded(gs)) == gs.len(),
    decreases gs.len(),
{
    if gs.len() == 0 {
        assert(recorded(gs).dom() =~= Set::<usize>::empty());
    } else {
        let p = gs.drop_last();
        let g = gs.last();
        lemma_recorded_totals(p);
        let m = recorded(p);
        let c: usize = if m.contains_key(g) { m[g] } else { 0 };
        lemma_dist_total_insert(m, g, c);
        lemma_dist_count_insert(m, g, c);
    }
}

/// The stats are consistent: every count is positive and at most the number of words, and
/// the counts add up to the number of words.
pub open spec fn stats_ok(st: SimStats) -> bool {
    &&& forall|k: usize| #[trigger] st.distribution@.contains_key(k) ==> 0 < st.distribution@[k] <= st.total_words
    &&& st.total_words == dist_count(st.distribution@)
}

/// The guesses recorded between two states beyond `depth - 1` for each of `k` words:
/// the cost of the strategy that found them, counted from its first guess.
pub open spec fn sim_cost(before: SimStats, after: SimStats, depth: int, k: int) -> int {
    dist_total(after.distribution@) - dist_total(before.distribution@) - (depth - 1) * k
}

/// Whether the policy plays out every candidate of `s` (a set over the positions `0..n`)
/// to the end: a set of one or two is found outright; for a larger set the policy gives a
/// guess that splits it in two or more (counting the win), and so on for each class the
/// guess leaves other than the win.
pub open spec fn sim_completes<P: Policy>(policy: P, resp: spec_fn(int, int) -> int, n: nat, s: Set<int>) -> bool
    decreases s.len(),
{
    if s.len() <= 2 {
        true
    } else {
        match policy.choice(bits_of(s, n)) {
            None => false,
            Some(g) => {
                let sc = split_classes(resp, s, g as int, N_RESPONSES as int);
                &&& sc.len() + class(resp, s, g as int, CORRECT_IDX as int).len() >= 2
                &&& forall|t: int| 0 <= t < sc.len() ==> (#[trigger] sc[t]).1.len() < s.len() && sim_completes(policy, resp, n, sc[t].1)
            },
        }
    }
}

/// The policy accepts every set of three or more candidates that playing it out from `s` (a
/// set over the positions `0..n`) asks it about.
pub open spec fn sim_accepts<P: Policy>(policy: P, resp: spec_fn(int, int) -> int, n: nat, s: Set<int>) -> bool
    decreases s.len(),
{
    if s.len() <= 2 {
        true
    } else {
        &&& forall|c: BitSet| c.wf() && c@ == bits_of(s, n) ==> #[trigger] policy.accepts(c)
        &&& match policy.choice(bits_of(s, n)) {
            None => true,
            Some(g) => {
                let sc = split_classes(resp, s, g as int, N_RESPONSES as int);
                forall|t: int| 0 <= t < sc.len() && (#[trigger] sc[t]).1.len() < s.len() ==> sim_accepts(policy, resp, n, sc[t].1)
            },
        }
    }
}

proof fn lemma_sim_accepts_here<P: Policy>(policy: P, resp: spec_fn(int, int) -> int, n: nat, s: Set<int>, c: BitSet)
    requires
        s.len() >= 3,
        sim_accepts(policy, resp, n, s),
        c.wf(),
        c@ == bits_of(s, n),
    ensures
        policy.accepts(c),
{
}

proof fn lemma_sim_accepts_class<P: Policy>(policy: P, resp: spec_fn(int, int) -> int, n: nat, s: Set<int>, g: usize, t: int)
    requires
        s.len() >= 3,
        sim_accepts(policy, resp, n, s),
        policy.choice(bits_of(s, n)) == Some(g),
        0 <= t < split_classes(resp, s, g as int, N_RESPONSES as int).len(),
        split_classes(resp, s, g as int, N_RESPONSES as int)[t].1.len() < s.len(),
    ensures
        sim_accepts(policy, resp, n, split_classes(resp, s, g as int, N_RESPONSES as int)[t].1),
{
    assert(sim_accepts(policy, resp, n, s) == (if s.len() <= 2 {
        true
    } else {
        &&& forall|c: BitSet| c.wf() && c@ == bits_of(s, n) ==> #[trigger] policy.accepts(c)
        &&& match policy.choice(bits_of(s, n)) {
            None => true,
            Some(g) => {
                let sc = split_classes(resp, s, g as int, N_RESPONSES as int);
                forall|t: int| 0 <= t < sc.len() && (#[trigger] sc[t]).1.len() < s.len() ==> sim_accepts(policy, resp, n, sc[t].1)
            },
        }
    }));
    let sc = split_classes(resp, s, g as int, N_RESPONSES as int);
    assert(sc[t].1.len() < s.len());
}

/// A policy that accepts every well-formed set over `0..n` accepts every set it is asked about.
pub proof fn lemma_sim_accepts_all<P: Policy>(policy: P, resp: spec_fn(int, int) -> int, n: nat, s: Set<int>)
    requires
        forall|c: BitSet| c.wf() && c@.len() == n ==> #[trigger] policy.accepts(c),
    ensures
        sim_accepts(policy, resp, n, s),
    decreases s.len(),
{
    if s.len() > 2 {
        match policy.choice(bits_of(s, n)) {
            None => {},
            Some(g) => {
                let sc = split_classes(resp, s, g as int, N_RESPONSES as int);
                assert forall|t: int| 0 <= t < sc.len() && (#[trigger] sc[t]).1.len() < s.len() implies sim_accepts(policy, resp, n, sc[t].1) by {
                    lemma_sim_accepts_all(policy, resp, n, sc[t].1);
                }
            },
        }
    }
}

/// How many candidates the policy finds with exactly `k` guesses, when its guess for `s` (a
/// set over the positions `0..n`) is guess number `d`: with `whole`, for all of `s`;
/// otherwise for the first `j` classes other than the win that its guess for `s` leaves.
pub open spec fn found_at<P: Policy>(
    policy: P,
    resp: spec_fn(int, int) -> int,
    n: nat,
    s: Set<int>,
    d: int,
    k: int,
    whole: bool,
    j: int,
) -> nat
    decreases s.len(), if whole { N_RESPONSES as int + 1 } else { j },
{
    if whole {
        if s.len() == 0 {
            0
        } else if s.len() == 1 {
            if k == d { 1 } else { 0 }
        } else if s.len() == 2 {
            (if k == d { 1nat } else { 0nat }) + (if k == d + 1 { 1nat } else { 0nat })
        } else {
            match policy.choice(bits_of(s, n)) {
                None => 0,
                Some(g) => {
                    let sc = split_classes(resp, s, g as int, N_RESPONSES as int);
                    let win: nat = if k == d { class(resp, s, g as int, CORRECT_IDX as int).len() } else { 0 };
                    if sc.len() <= N_RESPONSES {
                        win + found_at(policy, resp, n, s, d, k, false, sc.len() as int)
                    } else {
                        0
                    }
                },
            }
        }
    } else if j <= 0 {
        0
    } else {
        match policy.choice(bits_of(s, n)) {
            None => 0,
            Some(g) => {
                let sc = split_classes(resp, s, g as int, N_RESPONSES as int);
                let prev = found_at(policy, resp, n, s, d, k, false, j - 1);
                if j - 1 < sc.len() && sc[j - 1].1.len() < s.len() {
                    prev + found_at(policy, resp, n, sc[j - 1].1, d + 1, k, true, 0)
                } else {
                    prev
                }
            },
        }
    }
}

/// How many candidates of `s` the policy finds with exactly `k` guesses, its guess for `s`
/// being guess number `d`.
pub open spec fn policy_count<P: Policy>(policy: P, resp: spec_fn(int, int) -> int, n: nat, s: Set<int>, d: int, k: int) -> nat {
    found_at(policy, resp, n, s, d, k, true, 0)
}

/// The distribution of the policy's numbers of guesses over the candidates of `s`: each
/// number of guesses that some candidate takes, with the count of such candidates.
pub open spec fn policy_dist<P: Policy>(policy: P, resp: spec_fn(int, int) -> int, n: nat, s: Set<int>, d: int) -> Map<usize, usize> {
    Map::new(|k: usize| policy_count(policy, resp, n, s, d, k as int) > 0, |k: usize| policy_count(policy, resp, n, s, d, k as int) as usize)
}

proof fn lemma_found_whole<P: Policy>(policy: P, resp: spec_fn(int, int) -> int, n: nat, s: Set<int>, d: int, k: int, g: usize)
    requires
        s.len() >= 3,
        policy.choice(bits_of(s, n)) == Some(g),
        split_classes(resp, s, g as int, N_RESPONSES as int).len() <= N_RESPONSES,
    ensures
        found_at(policy, resp, n, s, d, k, true, 0) == (if k == d { class(resp, s, g as int, CORRECT_IDX as int).len() } else { 0 })
            + found_at(policy, resp, n, s, d, k, false, split_classes(resp, s, g as int, N_RESPONSES as int).len() as int),
{
}

proof fn lemma_found_step<P: Policy>(policy: P, resp: spec_fn(int, int) -> int, n: nat, s: Set<int>, d: int, k: int, g: usize, j: int)
    requires
        policy.choice(bits_of(s, n)) == Some(g),
        0 < j <= split_classes(resp, s, g as int, N_RESPONSES as int).len(),
        split_classes(resp, s, g as int, N_RESPONSES as int)[j - 1].1.len() < s.len(),
    ensures
        found_at(policy, resp, n, s, d, k, false, j) == found_at(policy, resp, n, s, d, k, false, j - 1)
            + found_at(policy, resp, n, split_classes(resp, s, g as int, N_RESPONSES as int)[j - 1].1, d + 1, k, true, 0),
{
}

/// There are at most `k` classes below `k`.
proof fn lemma_split_len(resp: spec_fn(int, int) -> int, s: Set<int>, g: int, k: int)
    requires
        0 <= k,
    ensures
        split_classes(resp, s, g, k).len() <= k,
    decreases k,
{
    if k > 0 {
        lemma_split_len(resp, s, g, k - 1);
    }
}

/// For one or two candidates the policy's total is the lower bound: one guess, or one and two.
pub proof fn lemma_small_policy_total<P: Policy>(policy: P, resp: spec_fn(int, int) -> int, n: nat, s: Set<int>)
    requires
        1 <= s.len() <= 2,
    ensures
        dist_total(policy_dist(policy, resp, n, s, 1)) == min_total(s.len()),
{
    let pd = policy_dist(policy, resp, n, s, 1);
    if s.len() == 1 {
        assert(pd =~= Map::<usize, usize>::empty().insert(1, 1));
        assert(pd.dom().finite());
        lemma_dist_total_pick(pd, 1);
        assert(pd.remove(1).dom() =~= Set::<usize>::empty());
    } else {
        assert(pd =~= Map::<usize, usize>::empty().insert(1, 1).insert(2, 1));
        assert(pd.dom().finite());
        lemma_dist_total_pick(pd, 1);
        let p2 = pd.remove(1);
        assert(p2 =~= Map::<usize, usize>::empty().insert(2, 1));
        lemma_dist_total_pick(p2, 2);
        assert(p2.remove(2).dom() =~= Set::<usize>::empty());
    }
}

/// Context to hold shared data for the recursive heuristic simulation.
struct Simulation<'a, P: Policy> {
    response_cache: &'a ResponseCache,
    stats: SimStats,
    policy: &'a P,
}

impl<'a, P: Policy> Simulation<'a, P> {
    /// Plays out the policy on every candidate of `candidates` as the secret word, counting
    /// each found word at its depth; `false` when the policy gives no guess, or a guess that
    /// does not split a set of three or more candidates.
    fn run(&mut self, candidates: &BitSet, current_depth: usize) -> (ok: bool)
        requires
            cache_ready(*old(self).response_cache),
            candidates.wf(),
            candidates@.len() == old(self).response_cache.spec_stride(),
            candidates.members().len() > 0,
            sim_accepts(*old(self).policy, cache_resp(*old(self).response_cache), old(self).response_cache.spec_stride(),
                candidates.members()),
            old(self).policy.n_guesses() <= old(self).response_cache.n_rows(),
            old(self).stats.total_words + candidates.members().len() <= usize::MAX,
            current_depth + candidates.members().len() <= usize::MAX,
            current_depth >= 1,
            stats_ok(old(self).stats),
        ensures
            final(self).response_cache == old(self).response_cache,
            final(self).policy == old(self).policy,
            stats_ok(final(self).stats),
            ok == sim_completes(*old(self).policy, cache_resp(*old(self).response_cache), old(self).response_cache.spec_stride(),
                candidates.members()),
            ok ==> forall|k: usize| #[trigger] final(self).stats.count_of(k) == old(self).stats.count_of(k) + policy_count(
                *old(self).policy, cache_resp(*old(self).response_cache), old(self).response_cache.spec_stride(), candidates.members(),
                current_depth as int, k as int),
            ok ==> {
                let k = candidates.members().len() as int;
                let cost = sim_cost(old(self).stats, final(self).stats, current_depth as int, k);
                &&& final(self).stats.total_words == old(self).stats.total_words + k
                &&& 0 <= cost <= k * k
                &&& cache_covered(*old(self).response_cache) ==> achievable(cache_resp(*old(self).response_cache),
                    old(self).response_cache.n_rows(), candidates.members(), cost as nat)
            },
        decreases candidates.members().len(),
    {
        let ghost cache = *self.response_cache;
        let ghost resp = cache_resp(cache);
        let ghost ng = cache.n_rows();
        let ghost nn = cache.spec_stride();
        let ghost cands = candidates.members();
        let ghost st0 = self.stats;
        let ghost d = current_depth as int;
        proof {
            candidates.lemma_members_finite();
        }
        let n_candidates = candidates.count_ones();
        if n_candidates == 1 {
            self.stats.inc(current_depth);
            assert forall|k: usize| #[trigger] self.stats.count_of(k) == st0.count_of(k) + policy_count(*self.policy, resp, nn, cands,
                current_depth as int, k as int) by {}
            proof {
                let c = lemma_set_one(cands);
                assert(cands.contains(c));
                if cache_covered(cache) {
                    assert(has_winning_guess(resp, ng, c));
                    lemma_single_achievable(resp, ng, nn, c);
                }
            }
            return true;
        }
        if n_candidates == 2 {
            let ghost st1 = self.stats;
            self.stats.inc(current_depth);
            self.stats.inc(current_depth + 1);
            assert forall|k: usize| #[trigger] self.stats.count_of(k) == st0.count_of(k) + policy_count(*self.policy, resp, nn, cands,
                current_depth as int, k as int) by {
                assert(st1 == st0);
            }
            proof {
                let (c1, c2) = lemma_set_two(cands);
                assert(cands.contains(c1) && cands.contains(c2));
                if cache_covered(cache) {
                    assert(has_winning_guess(resp, ng, c1));
                    assert(has_winning_guess(resp, ng, c2));
                    lemma_pair_achievable(resp, ng, nn, c1, c2);
                }
            }
            return true;
        }
        let ghost pol = *self.policy;
        proof {
            lemma_bits_of_true_positions(candidates@);
            assert(cands.len() >= 3);
        }
        proof {
            lemma_sim_accepts_here(pol, resp, nn, cands, *candidates);
        }
        let guess_idx = match self.policy.pick(candidates) {
            Some(g) => g,
            None => return false,
        };
        assert(pol.choice(bits_of(cands, nn)) == Some(guess_idx));
        let partitions = generate_partitions(candidates, self.response_cache, guess_idx);
        let ghost sc = split_classes(resp, cands, guess_idx as int, N_RESPONSES as int);
        let ghost sizes = split_sizes(resp, cands, guess_idx as int, N_RESPONSES as int);
        proof {
            lemma_split_sizes(resp, cands, guess_idx as int, N_RESPONSES as int);
            lemma_split_classes_entries(resp, cands, guess_idx as int, N_RESPONSES as int);
            lemma_split_disjoint(resp, cands, guess_idx as int, N_RESPONSES as int);
            lemma_nonwin_size_sum(resp, ng, nn, cands, guess_idx as int, N_RESPONSES as int);
            lemma_below_all(resp, ng, nn, cands, guess_idx as int);
        }
        let mut in_parts: usize = 0;
        let mut i: usize = 0;
        assert(sizes.take(0) =~= Seq::<nat>::empty());
        while i < partitions.len()
            invariant
                split_counted(partitions@, sc, nn),
                sizes.len() == sc.len(),
                forall|t: int| 0 <= t < sizes.len() ==> #[trigger] sizes[t] == sc[t].1.len(),
                seq_sum(sizes) + class(resp, cands, guess_idx as int, CORRECT_IDX as int).len() == cands.len(),
                n_candidates == cands.len(),
                i <= partitions@.len(),
                in_parts == seq_sum(sizes.take(i as int)),
            decreases partitions@.len() - i,
        {
            assert(entry_counted(partitions@[i as int], sc[i as int], nn));
            proof {
                assert(sizes.take(i + 1).drop_last() =~= sizes.take(i as int));
                lemma_seq_sum_take(sizes, i + 1);
            }
            in_parts = in_parts + partitions[i].1;
            i += 1;
        }
        assert(sizes.take(sizes.len() as int) =~= sizes);
        let n_win = n_candidates - in_parts;
        assert(n_win <= 1);
        assert(n_win == class(resp, cands, guess_idx as int, CORRECT_IDX as int).len());
        if partitions.len() <= 1 - n_win {
            return false;
        }
        let ghost mut costs: Seq<nat> = Seq::empty();
        let mut i: usize = 0;
        while i < partitions.len()
            invariant
                self.response_cache == old(self).response_cache,
                self.policy == old(self).policy,
                cache == *self.response_cache,
                resp == cache_resp(cache),
                ng == cache.n_rows(),
                nn == cache.spec_stride(),
                cache_ready(cache),
                cands == candidates.members(),
                cands.len() >= 3,
                within(cands, nn),
                sim_accepts(pol, resp, nn, cands),
                self.policy.n_guesses() <= ng,
                guess_idx < ng,
                split_counted(partitions@, sc, nn),
                sc == split_classes(resp, cands, guess_idx as int, N_RESPONSES as int),
                sizes.len() == sc.len(),
                forall|t: int| 0 <= t < sizes.len() ==> #[trigger] sizes[t] == sc[t].1.len(),
                forall|t: int| 0 <= t < sc.len() ==> (#[trigger] sc[t]).1.subset_of(cands) && sc[t].1.len() > 0,
                seq_sum(sizes) + n_win == cands.len(),
                partitions@.len() + n_win >= 2,
                i <= partitions@.len(),
                costs.len() == i,
                st0.total_words + cands.len() <= usize::MAX,
                d + cands.len() <= usize::MAX,
                d >= 1,
                d == current_depth,
                self.stats.total_words == st0.total_words + seq_sum(sizes.take(i as int)),
                stats_ok(self.stats),
                dist_total(self.stats.distribution@) == dist_total(st0.distribution@) + d * seq_sum(sizes.take(i as int)) + seq_sum(costs),
                seq_sum(costs) <= (cands.len() - 1) * seq_sum(sizes.take(i as int)),
                cache_covered(cache) ==> forall|t: int| 0 <= t < i ==> achievable(resp, ng, #[trigger] sc[t].1, costs[t]),
                pol == *self.policy,
                pol.choice(bits_of(cands, nn)) == Some(guess_idx),
                n_win == class(resp, cands, guess_idx as int, CORRECT_IDX as int).len(),
                forall|t: int| 0 <= t < i ==> (#[trigger] sc[t]).1.len() < cands.len() && sim_completes(pol, resp, nn, sc[t].1),
                forall|k: usize| #[trigger] self.stats.count_of(k) == st0.count_of(k) + found_at(pol, resp, nn, cands, d, k as int, false,
                    i as int),
            decreases partitions@.len() - i,
        {
            assert(entry_counted(partitions@[i as int], sc[i as int], nn));
            let ghost part = sc[i as int].1;
            let ghost before = self.stats;
            proof {
                lemma_seq_sum_take(sizes, i + 1);
                assert(sizes.take(i + 1).drop_last() =~= sizes.take(i as int));
                lemma_part_smaller(sizes, i as int, n_win as int);
                vstd::set_lib::lemma_len_subset(part, cands);
            }
            proof {
                lemma_sim_accepts_class(pol, resp, nn, cands, guess_idx, i as int);
            }
            if !self.run(&partitions[i].0, current_depth + 1) {
                assert(!sim_completes(pol, resp, nn, sc[i as int].1));
                return false;
            }
            proof {
                assert(sc[i as int].1.len() < cands.len());
                let k = part.len() as int;
                let c = sim_cost(before, self.stats, d + 1, k);
                let s0 = seq_sum(sizes.take(i as int));
                let costs0 = costs;
                costs = costs.push(c as nat);
                assert(costs.drop_last() == costs0);
                assert(d * s0 + d * k == d * (s0 + k)) by (nonlinear_arith);
                assert(c <= (cands.len() - 1) * k) by (nonlinear_arith)
                    requires c <= k * k, k <= cands.len() - 1, 0 <= k;
                assert((cands.len() - 1) * s0 + (cands.len() - 1) * k == (cands.len() - 1) * (s0 + k)) by (nonlinear_arith);
                if cache_covered(cache) {
                    assert forall|t: int| 0 <= t < i + 1 implies achievable(resp, ng, #[trigger] sc[t].1, costs[t]) by {
                        if t < i {
                            assert(costs[t] == costs0[t]);
                        }
                    }
                }
            }
            assert(forall|t: int| 0 <= t < i + 1 ==> (#[trigger] sc[t]).1.len() < cands.len() && sim_completes(pol, resp, nn, sc[t].1));
            assert forall|k: usize| #[trigger] self.stats.count_of(k) == st0.count_of(k) + found_at(pol, resp, nn, cands, d, k as int,
                false, i + 1) by {
                lemma_found_step(pol, resp, nn, cands, d, k as int, guess_idx, i + 1);
                assert(self.stats.count_of(k) == before.count_of(k) + policy_count(pol, resp, nn, sc[i as int].1, d + 1, k as int));
            }
            i += 1;
        }
        assert(sizes.take(sizes.len() as int) =~= sizes);
        let ghost st2 = self.stats;
        if n_win > 0 {
            self.stats.inc(current_depth);
        }
        proof {
            lemma_split_len(resp, cands, guess_idx as int, N_RESPONSES as int);
            assert forall|k: usize| #[trigger] self.stats.count_of(k) == st0.count_of(k) + policy_count(pol, resp, nn, cands, d, k as int) by {
                lemma_found_whole(pol, resp, nn, cands, d, k as int, guess_idx);
                assert(st2.count_of(k) == st0.count_of(k) + found_at(pol, resp, nn, cands, d, k as int, false, sc.len() as int));
            }
        }
        proof {
            let k = cands.len() as int;
            let s = seq_sum(sizes);
            assert(d * s + n_win * d == d * k) by (nonlinear_arith)
                requires s + n_win == k;
            let extra: int = if n_win > 0 { d } else { 0 };
            assert(extra == n_win * d) by (nonlinear_arith)
                requires n_win == 0 || n_win == 1, extra == if n_win > 0 { d } else { 0 };
            assert(dist_total(self.stats.distribution@) == dist_total(st0.distribution@) + d * s + seq_sum(costs) + extra);
            assert((cands.len() - 1) * s <= (cands.len() - 1) * k) by (nonlinear_arith)
                requires s <= k, cands.len() >= 1;
            assert(k + (k - 1) * k == k * k) by (nonlinear_arith);
            if cache_covered(cache) {
                lemma_combine_achievable(resp, ng, cands, guess_idx as int, costs);
            }
            assert(st0 == old(self).stats);
            assert(self.stats.total_words == st0.total_words + k);
            let cost = sim_cost(st0, self.stats, d, k);
            assert(dist_total(self.stats.distribution@) == dist_total(st0.distribution@) + d * k + seq_sum(costs));
            assert((d - 1) * k == d * k - k) by (nonlinear_arith);
            assert(cost == k + seq_sum(costs));
            assert(0 <= cost <= k * k);
            assert(sim_completes(pol, resp, nn, cands));
        }
        true
    }
}

/// A prefix sum grows by the next entry.
proof fn lemma_seq_sum_take(s: Seq<nat>, i: int)
    requires
        0 < i <= s.len(),
    ensures
        seq_sum(s.take(i)) == seq_sum(s.take(i - 1)) + s[i - 1],
        seq_sum(s.take(i)) <= seq_sum(s),
    decreases s.len(),
{
    assert(s.take(i).drop_last() =~= s.take(i - 1));
    if i < s.len() {
        lemma_seq_sum_take(s.drop_last(), i);
        assert(s.drop_last().take(i) =~= s.take(i));
        assert(s.drop_last().take(i - 1) =~= s.take(i - 1));
    } else {
        assert(s.take(i) =~= s);
    }
}

/// With two or more nonempty classes, each class is smaller than the whole.
proof fn lemma_part_smaller(sizes: Seq<nat>, i: int, extra: int)
    requires
        0 <= i < sizes.len(),
        forall|t: int| 0 <= t < sizes.len() ==> #[trigger] sizes[t] > 0,
        0 <= extra,
        sizes.len() + extra >= 2,
    ensures
        sizes[i] + 1 <= seq_sum(sizes) + extra,
    decreases sizes.len(),
{
    if sizes.len() == 1 {
        assert(sizes.drop_last() =~= Seq::<nat>::empty());
    } else if i == sizes.len() - 1 {
        let j = 0int;
        crate::plan::lemma_seq_sum_entry(sizes.drop_last(), j);
        assert(sizes.drop_last()[j] == sizes[j]);
    } else {
        lemma_part_smaller(sizes.drop_last(), i, extra + 1);
        assert(sizes.drop_last()[i] == sizes[i]);
    }
}

/// Simulates the policy on every candidate as the secret word, starting from the
/// first guess; `None` exactly when the policy, for some set of three or more candidates
/// it reaches, gives no guess or one that does not split the set.
pub fn simulate<P: Policy>(
    response_cache: &ResponseCache,
    initial_candidates: &BitSet,
    policy: &P,
) -> (r: Option<SimStats>)
    requires
        cache_ready(*response_cache),
        initial_candidates.wf(),
        initial_candidates@.len() == response_cache.spec_stride(),
        initial_candidates.members().len() > 0,
        sim_accepts(*policy, cache_resp(*response_cache), response_cache.spec_stride(), initial_candidates.members()),
        policy.n_guesses() <= response_cache.n_rows(),
    ensures
        r is Some <==> sim_completes(*policy, cache_resp(*response_cache), response_cache.spec_stride(), initial_candidates.members()),
        r matches Some(st) ==> st.distribution@ == policy_dist(*policy, cache_resp(*response_cache), response_cache.spec_stride(),
            initial_candidates.members(), 1),
        r matches Some(st) ==> {
            let k = initial_candidates.members().len();
            &&& st.total_words == k
            &&& stats_ok(st)
            &&& dist_total(st.distribution@) <= k * k
            &&& cache_covered(*response_cache) ==> achievable(cache_resp(*response_cache), response_cache.n_rows(),
                initial_candidates.members(), dist_total(st.distribution@) as nat)
            &&& cache_covered(*response_cache) ==> dist_total(st.distribution@) >= min_total(k)
        },
{
    proof {
        initial_candidates.lemma_members_finite();
    }
    let mut sim = Simulation { response_cache, stats: SimStats::new(), policy };
    assert(sim.stats.distribution@.dom() =~= Set::<usize>::empty());
    if sim.run(initial_candidates, 1) {
        proof {
            let pd = policy_dist(*policy, cache_resp(*response_cache), response_cache.spec_stride(), initial_candidates.members(), 1);
            let dm = sim.stats.distribution@;
            assert forall|k: usize| #[trigger] dm.contains_key(k) == pd.contains_key(k) by {
                assert(sim.stats.count_of(k) == policy_count(*policy, cache_resp(*response_cache), response_cache.spec_stride(),
                    initial_candidates.members(), 1, k as int));
            }
            assert forall|k: usize| #[trigger] dm.contains_key(k) implies dm[k] == pd[k] by {
                assert(sim.stats.count_of(k) == policy_count(*policy, cache_resp(*response_cache), response_cache.spec_stride(),
                    initial_candidates.members(), 1, k as int));
            }
            assert(dm =~= pd);
            if cache_covered(*response_cache) {
                let t = dist_total(sim.stats.distribution@) as nat;
                let p = choose|p: Plan| plan_cost(cache_resp(*response_cache), response_cache.n_rows(),
                    initial_candidates.members(), p) == Some(t);
                lemma_plan_cost_lower_bound(cache_resp(*response_cache), response_cache.n_rows(),
                    response_cache.spec_stride(), initial_candidates.members(), p);
            }
        }
        Some(sim.stats)
    } else {
        None
    }
}

} // verus!
