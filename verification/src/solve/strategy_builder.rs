use vstd::prelude::*;
use vstd::utf8::{decode_utf8, encode_utf8, encode_utf8_valid_utf8, is_ascii_chars, is_ascii_chars_encode_utf8};
use crate::bits::{bits_of, lemma_bits_of_true_positions, BitSet};
use crate::game::strat::{Strategy, StrategyNode};
use crate::part::{cache_resp, entry_built, get_partitions};
use crate::plan::{achievable, lemma_combine_achievable, lemma_split_classes_entries, split_classes, within};
use crate::policy::Policy;
use crate::resp::{index_to_response, is_resp_word, spec_index_response, ResponseCache, N_RESPONSES};
use crate::solver::cache_ready;
use crate::words::arr_to_word;

verus! {

/// The letters of response `r`, as a string.
pub open spec fn response_letters(r: int) -> Seq<char> {
    decode_utf8(spec_index_response(r as nat))
}

/// A child entry stands for class `e`: an earlier node (below `i`) built for its
/// candidates, keyed by the letters of its response.
pub open spec fn child_follows(ch: (String, usize), e: (int, Set<int>), sets: Seq<Set<int>>, i: int) -> bool {
    &&& ch.1 < i
    &&& sets[ch.1 as int] == e.1
    &&& ch.0@ == response_letters(e.0)
}

/// Node `i` was built for the candidates `sets[i]`: its guess is a guess of the cache, and
/// its children are the classes of the guess other than the win, in order of response.
pub open spec fn node_follows(cache: ResponseCache, nodes: Seq<StrategyNode>, sets: Seq<Set<int>>, i: int) -> bool {
    let node = nodes[i];
    let sc = split_classes(cache_resp(cache), sets[i], node.guess as int, N_RESPONSES as int);
    &&& node.guess < cache.n_rows()
    &&& within(sets[i], cache.spec_stride())
    &&& node.children@.len() == sc.len()
    &&& forall|k: int| 0 <= k < sc.len() ==> #[trigger] child_follows(node.children@[k], sc[k], sets, i)
}

/// Every node was built for the candidate set `sets` gives it.
pub open spec fn strategy_follows(cache: ResponseCache, nodes: Seq<StrategyNode>, sets: Seq<Set<int>>) -> bool {
    &&& nodes.len() == sets.len()
    &&& forall|i: int| 0 <= i < nodes.len() ==> #[trigger] node_follows(cache, nodes, sets, i)
}

/// Every node's guess is the one the policy gives for the node's set.
pub open spec fn guided_by<P: Policy>(policy: P, cache: ResponseCache, nodes: Seq<StrategyNode>, sets: Seq<Set<int>>) -> bool {
    forall|i: int| 0 <= i < nodes.len() ==> policy.choice(bits_of(sets[i], cache.spec_stride())) == Some(#[trigger] nodes[i].guess)
}

/// Some plan finds every candidate of `s` with a finite total.
pub open spec fn has_cost(cache: ResponseCache, s: Set<int>) -> bool {
    exists|t: nat| achievable(cache_resp(cache), cache.n_rows(), s, t)
}

/// A strategy built this way finds every candidate of every node's set: some plan costs
/// a finite total for it.
pub proof fn lemma_strategy_finds_all(cache: ResponseCache, nodes: Seq<StrategyNode>, sets: Seq<Set<int>>, i: int)
    requires
        strategy_follows(cache, nodes, sets),
        0 <= i < nodes.len(),
    ensures
        has_cost(cache, sets[i]),
    decreases i,
{
    let resp = cache_resp(cache);
    let ng = cache.n_rows();
    let node = nodes[i];
    let g = node.guess as int;
    let sc = split_classes(resp, sets[i], g, N_RESPONSES as int);
    assert(node_follows(cache, nodes, sets, i));
    if sets[i].len() == 0 {
        let p = crate::plan::Plan::Guess(0, Seq::empty());
        assert(crate::plan::plan_cost(resp, ng, sets[i], p) == Some(0nat));
        assert(achievable(resp, ng, sets[i], 0));
    } else {
        assert forall|k: int| 0 <= k < sc.len() implies has_cost(cache, #[trigger] sc[k].1) by {
            let ch = node.children@[k];
            assert(child_follows(ch, sc[k], sets, i));
            lemma_strategy_finds_all(cache, nodes, sets, ch.1 as int);
        }
        let costs = Seq::new(sc.len(), |k: int| choose|t: nat| achievable(resp, ng, sc[k].1, t));
        assert forall|k: int| 0 <= k < costs.len() implies achievable(resp, ng, #[trigger] sc[k].1, costs[k]) by {
            assert(has_cost(cache, sc[k].1));
        }
        lemma_combine_achievable(resp, ng, sets[i], g, costs);
        assert(achievable(resp, ng, sets[i], sets[i].len() + crate::plan::seq_sum(costs)));
    }
}

proof fn lemma_response_letters_bytes(r: nat)
    ensures
        encode_utf8(response_letters(r as int)) == spec_index_response(r),
        vstd::utf8::valid_utf8(spec_index_response(r)),
{
    let bytes = spec_index_response(r);
    let chars = Seq::new(bytes.len(), |i: int| bytes[i] as char);
    assert(is_ascii_chars(chars)) by {
        assert forall|i: int| 0 <= i < chars.len() implies '\0' <= #[trigger] chars[i] <= '\u{7f}' by {
            assert(bytes[i] < 128);
        }
    }
    is_ascii_chars_encode_utf8(chars);
    assert(encode_utf8(chars) =~= bytes);
    encode_utf8_valid_utf8(chars);
    vstd::utf8::encode_utf8_decode_utf8(chars);
}

/// Whether building a node for `s` (a set over the positions `0..n`) ends: the policy gives
/// a guess for `s`, every class the guess leaves other than the win is smaller than `s`, and
/// building ends for each of them.
pub open spec fn build_completes<P: Policy>(policy: P, resp: spec_fn(int, int) -> int, n: nat, s: Set<int>) -> bool
    decreases s.len(),
{
    match policy.choice(bits_of(s, n)) {
        None => false,
        Some(g) => {
            let sc = split_classes(resp, s, g as int, N_RESPONSES as int);
            forall|t: int| 0 <= t < sc.len() ==> (#[trigger] sc[t]).1.len() < s.len() && build_completes(policy, resp, n, sc[t].1)
        },
    }
}

/// The policy accepts every set that building from `s` (a set over the positions `0..n`)
/// asks it about.
pub open spec fn build_accepts<P: Policy>(policy: P, resp: spec_fn(int, int) -> int, n: nat, s: Set<int>) -> bool
    decreases s.len(),
{
    &&& forall|c: BitSet| c.wf() && c@ == bits_of(s, n) ==> #[trigger] policy.accepts(c)
    &&& match policy.choice(bits_of(s, n)) {
        None => true,
        Some(g) => {
            let sc = split_classes(resp, s, g as int, N_RESPONSES as int);
            forall|t: int| 0 <= t < sc.len() && (#[trigger] sc[t]).1.len() < s.len() ==> build_accepts(policy, resp, n, sc[t].1)
        },
    }
}

proof fn lemma_build_accepts_class<P: Policy>(policy: P, resp: spec_fn(int, int) -> int, n: nat, s: Set<int>, g: usize, t: int)
    requires
        build_accepts(policy, resp, n, s),
        policy.choice(bits_of(s, n)) == Some(g),
        0 <= t < split_classes(resp, s, g as int, N_RESPONSES as int).len(),
        split_classes(resp, s, g as int, N_RESPONSES as int)[t].1.len() < s.len(),
    ensures
        build_accepts(policy, resp, n, split_classes(resp, s, g as int, N_RESPONSES as int)[t].1),
{
    assert(build_accepts(policy, resp, n, s) == {
        &&& forall|c: BitSet| c.wf() && c@ == bits_of(s, n) ==> #[trigger] policy.accepts(c)
        &&& match policy.choice(bits_of(s, n)) {
            None => true,
            Some(g) => {
                let sc = split_classes(resp, s, g as int, N_RESPONSES as int);
                forall|t: int| 0 <= t < sc.len() && (#[trigger] sc[t]).1.len() < s.len() ==> build_accepts(policy, resp, n, sc[t].1)
            },
        }
    });
    let sc = split_classes(resp, s, g as int, N_RESPONSES as int);
    assert(sc[t].1.len() < s.len());
}

/// A policy that accepts every well-formed set over `0..n` accepts every set it is asked about.
pub proof fn lemma_build_accepts_all<P: Policy>(policy: P, resp: spec_fn(int, int) -> int, n: nat, s: Set<int>)
    requires
        forall|c: BitSet| c.wf() && c@.len() == n ==> #[trigger] policy.accepts(c),
    ensures
        build_accepts(policy, resp, n, s),
    decreases s.len(),
{
    match policy.choice(bits_of(s, n)) {
        None => {},
        Some(g) => {
            let sc = split_classes(resp, s, g as int, N_RESPONSES as int);
            assert forall|t: int| 0 <= t < sc.len() && (#[trigger] sc[t]).1.len() < s.len() implies build_accepts(policy, resp, n, sc[t].1) by {
                lemma_build_accepts_all(policy, resp, n, sc[t].1);
            }
        },
    }
}

/// Building ends for `s` exactly when it ends for each class of the guess the policy gives.
proof fn lemma_build_step<P: Policy>(policy: P, resp: spec_fn(int, int) -> int, n: nat, s: Set<int>, g: usize)
    requires
        policy.choice(bits_of(s, n)) == Some(g),
    ensures
        build_completes(policy, resp, n, s) == forall|t: int| 0 <= t < split_classes(resp, s, g as int, N_RESPONSES as int).len() ==>
            (#[trigger] split_classes(resp, s, g as int, N_RESPONSES as int)[t]).1.len() < s.len()
            && build_completes(policy, resp, n, split_classes(resp, s, g as int, N_RESPONSES as int)[t].1),
{
    assert(build_completes(policy, resp, n, s) == (match policy.choice(bits_of(s, n)) {
        None => false,
        Some(g) => {
            let sc = split_classes(resp, s, g as int, N_RESPONSES as int);
            forall|t: int| 0 <= t < sc.len() ==> (#[trigger] sc[t]).1.len() < s.len() && build_completes(policy, resp, n, sc[t].1)
        },
    }));
}

/// Builds a strategy from a policy: a node per candidate set reached, each set built once.
pub struct StrategyBuilder<'a, P: Policy> {
    response_cache: &'a ResponseCache,
    n_total_candidates: usize,
    policy: P,
    // Candidate set -> node index, each set listed once.
    visited: Vec<(BitSet, usize)>,
    nodes: Vec<StrategyNode>,
    node_sets: Ghost<Seq<Set<int>>>,
}

impl<'a, P: Policy> StrategyBuilder<'a, P> {
    /// The nodes so far follow their sets, and each visited set names its node and is one
    /// for which building ends.
    pub closed spec fn wf(&self) -> bool {
        &&& strategy_follows(*self.response_cache, self.nodes@, self.node_sets@)
        &&& guided_by(self.policy, *self.response_cache, self.nodes@, self.node_sets@)
        &&& forall|k: int| 0 <= k < self.visited@.len() ==> {
            let (b, idx) = #[trigger] self.visited@[k];
            &&& b.wf()
            &&& b@.len() == self.response_cache.spec_stride()
            &&& idx < self.nodes@.len()
            &&& self.node_sets@[idx as int] == b.members()
            &&& build_completes(self.policy, cache_resp(*self.response_cache), self.response_cache.spec_stride(), b.members())
        }
    }

    /// The cache the builder reads.
    pub closed spec fn cache(&self) -> ResponseCache {
        *self.response_cache
    }

    /// The policy the builder asks.
    pub closed spec fn spec_policy(&self) -> P {
        self.policy
    }

    /// A builder with no nodes yet.
    pub fn new(response_cache: &'a ResponseCache, n_total_candidates: usize, n_total_guesses: usize, policy: P) -> (r: Self)
        ensures
            r.wf(),
            r.cache() == *response_cache,
            r.spec_policy() == policy,
    {
        Self {
            response_cache,
            n_total_candidates,
            policy,
            visited: Vec::new(),
            nodes: Vec::new(),
            node_sets: Ghost(Seq::empty()),
        }
    }

    /// Builds the strategy from the initial candidates: `None` exactly when, for some set it
    /// reaches, the policy gives no guess, or a guess that leaves all of the set in one class
    /// other than the win.
    pub fn build(self, initial_candidates: &BitSet, context_hash: u64) -> (r: Option<Strategy>)
        requires
            self.wf(),
            cache_ready(self.cache()),
            initial_candidates.wf(),
            initial_candidates@.len() == self.cache().spec_stride(),
            build_accepts(self.spec_policy(), cache_resp(self.cache()), self.cache().spec_stride(), initial_candidates.members()),
            self.spec_policy().n_guesses() <= self.cache().n_rows(),
        ensures
            r is Some <==> build_completes(self.spec_policy(), cache_resp(self.cache()), self.cache().spec_stride(),
                initial_candidates.members()),
            r matches Some(s) ==> {
                &&& s.context_hash == context_hash
                &&& s.root < s.nodes@.len()
                &&& exists|sets: Seq<Set<int>>| #[trigger] strategy_follows(self.cache(), s.nodes@, sets)
                    && guided_by(self.spec_policy(), self.cache(), s.nodes@, sets)
                    && sets[s.root as int] == initial_candidates.members()
            },
    {
        let mut builder = self;
        let root_idx = match builder.process_state(initial_candidates.duplicate()) {
            Some(idx) => idx,
            None => return None,
        };
        let ghost sets = builder.node_sets@;
        assert(builder.cache() == self.cache());
        assert(strategy_follows(builder.cache(), builder.nodes@, sets));
        assert(guided_by(builder.spec_policy(), builder.cache(), builder.nodes@, sets));
        assert(sets[root_idx as int] == initial_candidates.members());
        Some(Strategy { context_hash, root: root_idx, nodes: builder.nodes })
    }

    /// The index of the node for `candidates`, building it (and the nodes below it) when it
    /// is not built yet.
    fn process_state(&mut self, candidates: BitSet) -> (r: Option<usize>)
        requires
            old(self).wf(),
            cache_ready(*old(self).response_cache),
            candidates.wf(),
            candidates@.len() == old(self).response_cache.spec_stride(),
            build_accepts(old(self).policy, cache_resp(*old(self).response_cache), old(self).response_cache.spec_stride(),
                candidates.members()),
            old(self).policy.n_guesses() <= old(self).response_cache.n_rows(),
        ensures
            final(self).wf(),
            final(self).response_cache == old(self).response_cache,
            final(self).policy == old(self).policy,
            old(self).nodes@.len() <= final(self).nodes@.len(),
            forall|j: int| 0 <= j < old(self).nodes@.len() ==> #[trigger] final(self).nodes@[j] == old(self).nodes@[j],
            forall|j: int| 0 <= j < old(self).nodes@.len() ==> #[trigger] final(self).node_sets@[j] == old(self).node_sets@[j],
            old(self).nodes@.len() == old(self).node_sets@.len() ==> final(self).nodes@.len() == final(self).node_sets@.len(),
            r matches Some(idx) ==> idx < final(self).nodes@.len() && final(self).node_sets@[idx as int] == candidates.members(),
            r is Some <==> build_completes(old(self).policy, cache_resp(*old(self).response_cache), old(self).response_cache.spec_stride(),
                candidates.members()),
        decreases candidates.members().len(),
    {
        let ghost cache = *self.response_cache;
        let ghost cands = candidates.members();
        proof {
            candidates.lemma_members_finite();
        }
        // Check the sets already built.
        let mut k: usize = 0;
        while k < self.visited.len()
            invariant
                self.wf(),
                k <= self.visited@.len(),
            decreases self.visited@.len() - k,
        {
            if self.visited[k].0.same_as(&candidates) {
                let idx = self.visited[k].1;
                proof {
                    let b = self.visited@[k as int].0;
                    assert(self.visited@[k as int] == (b, idx));
                    b.lemma_same_key(&candidates);
                }
                return Some(idx);
            }
            k += 1;
        }
        let ghost pol = self.policy;
        let ghost nn = candidates@.len();
        proof {
            lemma_bits_of_true_positions(candidates@);
        }
        let guess_idx = match self.policy.pick(&candidates) {
            Some(g) => g,
            None => return None,
        };
        assert(pol.choice(bits_of(cands, nn)) == Some(guess_idx));
        let n_candidates = candidates.count_ones();
        let partitions = get_partitions(&candidates, self.response_cache, guess_idx);
        let ghost sc = split_classes(cache_resp(cache), cands, guess_idx as int, N_RESPONSES as int);
        proof {
            lemma_split_classes_entries(cache_resp(cache), cands, guess_idx as int, N_RESPONSES as int);
        }
        let ghost nodes0 = self.nodes@;
        let ghost sets0 = self.node_sets@;
        let mut children_map: Vec<(String, usize)> = Vec::new();
        let mut i: usize = 0;
        while i < partitions.len()
            invariant
                self.wf(),
                self.response_cache == old(self).response_cache,
                self.policy == old(self).policy,
                cache == *self.response_cache,
                cache_ready(cache),
                cands == candidates.members(),
                candidates.wf(),
                candidates@.len() == cache.spec_stride(),
                n_candidates == cands.len(),
                build_accepts(pol, cache_resp(cache), nn, cands),
                self.policy.n_guesses() <= cache.n_rows(),
                crate::part::split_built(partitions@, sc, candidates@.len()),
                sc == split_classes(cache_resp(cache), cands, guess_idx as int, N_RESPONSES as int),
                forall|t: int| 0 <= t < sc.len() ==> (#[trigger] sc[t]).0 < N_RESPONSES && sc[t].1.subset_of(cands),
                i <= partitions@.len(),
                children_map@.len() == i,
                old(self).nodes@.len() <= nodes0.len() <= self.nodes@.len(),
                nodes0.len() == sets0.len(),
                forall|j: int| 0 <= j < old(self).nodes@.len() ==> #[trigger] nodes0[j] == old(self).nodes@[j],
                forall|j: int| 0 <= j < old(self).nodes@.len() ==> #[trigger] sets0[j] == old(self).node_sets@[j],
                forall|j: int| 0 <= j < nodes0.len() ==> #[trigger] self.nodes@[j] == nodes0[j],
                forall|j: int| 0 <= j < nodes0.len() ==> #[trigger] self.node_sets@[j] == sets0[j],
                forall|t: int| 0 <= t < i ==> #[trigger] child_follows(children_map@[t], sc[t], self.node_sets@, self.nodes@.len() as int),
                pol == self.policy,
                nn == cache.spec_stride(),
                pol.choice(bits_of(cands, nn)) == Some(guess_idx),
                forall|t: int| 0 <= t < i ==> (#[trigger] sc[t]).1.len() < cands.len() && build_completes(pol, cache_resp(cache), nn, sc[t].1),
            decreases partitions@.len() - i,
        {
            assert(entry_built(partitions@[i as int], sc[i as int], candidates@.len()));
            let p = partitions[i].1.duplicate();
            let r_idx = partitions[i].0;
            let p_count = p.count_ones();
            assert(p.members() == sc[i as int].1);
            if p_count >= n_candidates {
                assert(sc[i as int].1.len() >= cands.len());
                proof {
                    lemma_build_step(pol, cache_resp(cache), nn, cands, guess_idx);
                }
                assert(!build_completes(pol, cache_resp(cache), nn, cands));
                return None;
            }
            let ghost before_nodes = self.nodes@;
            let ghost before_sets = self.node_sets@;
            proof {
                lemma_build_accepts_class(pol, cache_resp(cache), nn, cands, guess_idx, i as int);
            }
            let child_node_idx = match self.process_state(p) {
                Some(idx) => idx,
                None => {
                    assert(!build_completes(pol, cache_resp(cache), nn, sc[i as int].1));
                    proof {
                        lemma_build_step(pol, cache_resp(cache), nn, cands, guess_idx);
                    }
                    assert(!build_completes(pol, cache_resp(cache), nn, cands));
                    return None;
                },
            };
            let resp_arr = index_to_response(r_idx);
            proof {
                lemma_response_letters_bytes(r_idx as nat);
            }
            let resp_str = arr_to_word(&resp_arr);
            children_map.push((resp_str, child_node_idx));
            proof {
                assert forall|t: int| 0 <= t < i + 1 implies #[trigger] child_follows(children_map@[t], sc[t], self.node_sets@,
                    self.nodes@.len() as int) by {
                    if t < i {
                        assert(child_follows(children_map@[t], sc[t], before_sets, before_nodes.len() as int));
                        assert(self.node_sets@[children_map@[t].1 as int] == before_sets[children_map@[t].1 as int]);
                    }
                }
            }
            assert(forall|t: int| 0 <= t < i + 1 ==> (#[trigger] sc[t]).1.len() < cands.len() && build_completes(pol, cache_resp(cache), nn, sc[t].1));
            i += 1;
        }
        proof {
            lemma_build_step(pol, cache_resp(cache), nn, cands, guess_idx);
        }
        assert(build_completes(pol, cache_resp(cache), nn, cands));
        let node = StrategyNode { guess: guess_idx, children: children_map };
        let node_idx = self.nodes.len();
        let ghost nodes1 = self.nodes@;
        let ghost sets1 = self.node_sets@;
        self.nodes.push(node);
        self.node_sets = Ghost(self.node_sets@.push(cands));
        proof {
            assert forall|j: int| 0 <= j < self.nodes@.len() implies #[trigger] node_follows(cache, self.nodes@, self.node_sets@, j) by {
                if j < nodes1.len() {
                    assert(node_follows(cache, nodes1, sets1, j));
                    assert(self.nodes@[j] == nodes1[j]);
                    assert(self.node_sets@[j] == sets1[j]);
                    let nd = nodes1[j];
                    let scj = split_classes(cache_resp(cache), sets1[j], nd.guess as int, N_RESPONSES as int);
                    assert forall|t: int| 0 <= t < scj.len() implies #[trigger] child_follows(self.nodes@[j].children@[t], scj[t],
                        self.node_sets@, j) by {
                        assert(child_follows(nd.children@[t], scj[t], sets1, j));
                        assert(self.node_sets@[nd.children@[t].1 as int] == sets1[nd.children@[t].1 as int]);
                    }
                } else {
                    assert(self.nodes@[j] == node);
                    assert(self.node_sets@[j] == cands);
                    assert(guess_idx < cache.n_rows());
                    assert forall|t: int| 0 <= t < sc.len() implies #[trigger] child_follows(node.children@[t], sc[t],
                        self.node_sets@, j) by {
                        assert(child_follows(children_map@[t], sc[t], sets1, nodes1.len() as int));
                        assert(self.node_sets@[children_map@[t].1 as int] == sets1[children_map@[t].1 as int]);
                    }
                }
            }
        }
        proof {
            assert forall|j: int| 0 <= j < self.nodes@.len() implies pol.choice(bits_of(self.node_sets@[j], cache.spec_stride()))
                == Some(#[trigger] self.nodes@[j].guess) by {
                if j < nodes1.len() {
                    assert(self.nodes@[j] == nodes1[j]);
                    assert(self.node_sets@[j] == sets1[j]);
                }
            }
        }
        let entry = (candidates, node_idx);
        self.visited.push(entry);
        Some(node_idx)
    }
}

} // verus!
