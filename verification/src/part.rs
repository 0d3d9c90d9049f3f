use vstd::prelude::*;
use crate::bits::BitSet;
use crate::resp::{ResponseCache, CORRECT_IDX, N_RESPONSES};
use crate::plan::{class, split_classes};

verus! {

/// The response function of a cache: guess `g`, candidate `c` to the stored response index.
pub open spec fn cache_resp(cache: ResponseCache) -> spec_fn(int, int) -> int {
    |g: int, c: int| cache.resp_at(g, c) as int
}

/// What classifying the candidates by their response to guess `g` gives back: for each
/// response, whether it occurs, the candidates giving it, and their number.
pub open spec fn classified(
    cache: ResponseCache,
    cands: Set<int>,
    g: int,
    skip_win: bool,
    parts: Seq<BitSet>,
    present: Seq<bool>,
    counts: Seq<usize>,
    n: nat,
) -> bool {
    &&& parts.len() == N_RESPONSES
    &&& present.len() == N_RESPONSES
    &&& counts.len() == N_RESPONSES
    &&& forall|r: int| 0 <= r < N_RESPONSES ==> #[trigger] classified_at(cache, cands, g, skip_win, parts, present, counts, n, r)
}

/// `classified` at response `r`.
pub open spec fn classified_at(
    cache: ResponseCache,
    cands: Set<int>,
    g: int,
    skip_win: bool,
    parts: Seq<BitSet>,
    present: Seq<bool>,
    counts: Seq<usize>,
    n: nat,
    r: int,
) -> bool {
    let cl = class(cache_resp(cache), cands, g, r);
    &&& present[r] == (cl.len() > 0 && !(skip_win && r == CORRECT_IDX))
    &&& counts[r] == if skip_win && r == CORRECT_IDX { 0 } else { cl.len() }
    &&& present[r] ==> parts[r].wf() && parts[r]@.len() == n && parts[r].members() == cl
}

/// The built entry has the response and the candidates of `s`, as a well-formed set over `n`.
pub open spec fn entry_built(e: (usize, BitSet), s: (int, Set<int>), n: nat) -> bool {
    &&& e.0 == s.0
    &&& e.1.wf()
    &&& e.1@.len() == n
    &&& e.1.members() == s.1
}

/// The built entries are those of `sc`, in order.
pub open spec fn split_built(r: Seq<(usize, BitSet)>, sc: Seq<(int, Set<int>)>, n: nat) -> bool {
    &&& r.len() == sc.len()
    &&& forall|i: int| 0 <= i < r.len() ==> #[trigger] entry_built(r[i], sc[i], n)
}

/// The built entry has the candidates of `s` and their number, as a well-formed set over `n`.
pub open spec fn entry_counted(e: (BitSet, usize), s: (int, Set<int>), n: nat) -> bool {
    &&& e.0.wf()
    &&& e.0@.len() == n
    &&& e.0.members() == s.1
    &&& e.1 == s.1.len()
}

/// The counted entries are those of `sc`, in order.
pub open spec fn split_counted(r: Seq<(BitSet, usize)>, sc: Seq<(int, Set<int>)>, n: nat) -> bool {
    &&& r.len() == sc.len()
    &&& forall|i: int| 0 <= i < r.len() ==> #[trigger] entry_counted(r[i], sc[i], n)
}

/// Groups the candidates by their response to guess `g_idx` (leaving out the win when
/// `skip_win`).
fn classify(candidates: &BitSet, cache: &ResponseCache, g_idx: usize, skip_win: bool) -> (res: (
    Vec<BitSet>,
    Vec<bool>,
    Vec<usize>,
))
    requires
        candidates.wf(),
        cache.wf(),
        cache.values_valid(),
        g_idx < cache.n_rows(),
        candidates@.len() == cache.spec_stride(),
        cache.spec_stride() <= usize::MAX - 63,
    ensures
        classified(*cache, candidates.members(), g_idx as int, skip_win, res.0@, res.1@, res.2@, candidates@.len()),
{
    let n = candidates.len();
    let row = cache.get_row(g_idx);
    proof {
        cache.lemma_rows();
        assert forall|c: int| 0 <= c < n implies #[trigger] row@[c] < N_RESPONSES by {
            crate::resp::lemma_row_index(g_idx as int, c, n as int, cache.n_rows() as int);
        }
        candidates.lemma_members_finite();
    }
    let ghost resp = cache_resp(*cache);
    let ghost all = candidates.members();
    let mut parts: Vec<BitSet> = Vec::new();
    let mut present: Vec<bool> = Vec::new();
    let mut counts: Vec<usize> = Vec::new();
    let mut r: usize = 0;
    while r < N_RESPONSES
        invariant
            r <= N_RESPONSES,
            parts@.len() == r,
            present@.len() == r,
            counts@.len() == r,
            forall|k: int| 0 <= k < r ==> !present@[k] && counts@[k] == 0,
        decreases N_RESPONSES - r,
    {
        parts.push(BitSet::new(0));
        present.push(false);
        counts.push(0);
        r += 1;
    }
    let mut it = candidates.iter_ones();
    assert(all.difference(it.remaining()) =~= Set::empty());
    assert forall|r2: int| 0 <= r2 < N_RESPONSES implies #[trigger] classified_at(*cache, Set::empty(), g_idx as int, skip_win, parts@, present@, counts@, n as nat, r2) by {
        assert(class(resp, Set::empty(), g_idx as int, r2) =~= Set::empty());
    }
    loop
        invariant
            it.wf(),
            it.remaining().finite(),
            it.remaining().subset_of(all),
            all == candidates.members(),
            all.finite(),
            forall|c: int| #[trigger] all.contains(c) ==> 0 <= c < n,
            n == candidates@.len(),
            n == cache.spec_stride(),
            n <= usize::MAX - 63,
            row@.len() == n,
            forall|c: int| 0 <= c < n ==> #[trigger] row@[c] == cache.resp_at(g_idx as int, c),
            forall|c: int| 0 <= c < n ==> #[trigger] row@[c] < N_RESPONSES,
            resp == cache_resp(*cache),
            classified(*cache, all.difference(it.remaining()), g_idx as int, skip_win, parts@, present@, counts@, n as nat),
        ensures
            classified(*cache, all, g_idx as int, skip_win, parts@, present@, counts@, n as nat),
        decreases it.remaining().len(),
    {
        let ghost done = all.difference(it.remaining());
        let ghost rem = it.remaining();
        match it.next() {
            None => {
                assert(all.difference(it.remaining()) =~= all);
                break;
            },
            Some(c) => {
                assert(all.contains(c as int));
                let q = row[c] as usize;
                let ghost done2 = all.difference(it.remaining());
                let ghost op = parts@;
                let ghost opr = present@;
                let ghost oc = counts@;
                assert(done2 =~= done.insert(c as int));
                assert(!done.contains(c as int));
                proof {
                    assert(done.subset_of(all));
                    vstd::set_lib::lemma_set_subset_finite(all, done);
                    vstd::set_lib::lemma_int_range(0, n as int);
                    assert(all.subset_of(vstd::set_lib::set_int_range(0, n as int)));
                    vstd::set_lib::lemma_len_subset(all, vstd::set_lib::set_int_range(0, n as int));
                    vstd::set_lib::lemma_len_subset(class(resp, done, g_idx as int, q as int), all);
                    assert(classified_at(*cache, done, g_idx as int, skip_win, op, opr, oc, n as nat, q as int));
                }
                if !(skip_win && q == CORRECT_IDX) {
                    if !present[q] {
                        parts.set(q, BitSet::new(n));
                        present.set(q, true);
                        proof {
                            assert(class(resp, done, g_idx as int, q as int) =~= Set::empty());
                            assert(parts@[q as int].members() =~= Set::empty());
                        }
                    }
                    parts[q].set(c, true);
                    let cur = counts[q];
                    counts.set(q, cur + 1);
                    proof {
                        assert(class(resp, done2, g_idx as int, q as int) =~= class(resp, done, g_idx as int, q as int).insert(c as int));
                        assert(parts@[q as int].members() =~= class(resp, done2, g_idx as int, q as int));
                    }
                }
                proof {
                    assert forall|r2: int| 0 <= r2 < N_RESPONSES implies #[trigger] classified_at(*cache, done2, g_idx as int, skip_win, parts@, present@, counts@, n as nat, r2) by {
                        assert(classified_at(*cache, done, g_idx as int, skip_win, op, opr, oc, n as nat, r2));
                        if r2 == q as int {
                            assert(class(resp, done2, g_idx as int, r2) =~= class(resp, done, g_idx as int, r2).insert(c as int));
                        } else {
                            assert(class(resp, done2, g_idx as int, r2) =~= class(resp, done, g_idx as int, r2));
                            assert(parts@[r2] == op[r2]);
                        }
                    }
                }
            },
        }
    }
    (parts, present, counts)
}

/// The number of candidates giving each response to guess `g_idx`.
pub fn get_partition_counts(candidates: &BitSet, cache: &ResponseCache, g_idx: usize) -> (r: Vec<usize>)
    requires
        candidates.wf(),
        cache.wf(),
        cache.values_valid(),
        g_idx < cache.n_rows(),
        candidates@.len() == cache.spec_stride(),
        cache.spec_stride() <= usize::MAX - 63,
    ensures
        r@.len() == N_RESPONSES,
        forall|q: int| 0 <= q < N_RESPONSES ==> #[trigger] r@[q] == class(cache_resp(*cache), candidates.members(), g_idx as int, q).len(),
{
    let (_parts, _present, counts) = classify(candidates, cache, g_idx, false);
    assert forall|q: int| 0 <= q < N_RESPONSES implies #[trigger] counts@[q] == class(cache_resp(*cache), candidates.members(), g_idx as int, q).len() by {
        assert(classified_at(*cache, candidates.members(), g_idx as int, false, _parts@, _present@, counts@, candidates@.len(), q));
    }
    counts
}

/// Returns all nonempty partitions and their counts, excluding the win response, in
/// increasing order of response.
pub fn generate_partitions(candidates: &BitSet, cache: &ResponseCache, g_idx: usize) -> (r: Vec<(BitSet, usize)>)
    requires
        candidates.wf(),
        cache.wf(),
        cache.values_valid(),
        g_idx < cache.n_rows(),
        candidates@.len() == cache.spec_stride(),
        cache.spec_stride() <= usize::MAX - 63,
    ensures
        split_counted(r@, split_classes(cache_resp(*cache), candidates.members(), g_idx as int, N_RESPONSES as int), candidates@.len()),
{
    let ghost sc = split_classes(cache_resp(*cache), candidates.members(), g_idx as int, N_RESPONSES as int);
    let with_resp = get_partitions(candidates, cache, g_idx);
    let mut out: Vec<(BitSet, usize)> = Vec::new();
    let mut k: usize = 0;
    while k < with_resp.len()
        invariant
            k <= with_resp@.len(),
            split_built(with_resp@, sc, candidates@.len()),
            split_counted(out@, sc.take(k as int), candidates@.len()),
        decreases with_resp@.len() - k,
    {
        assert(entry_built(with_resp@[k as int], sc[k as int], candidates@.len()));
        let b = with_resp[k].1.duplicate();
        let cnt = b.count_ones();
        let ghost before = out@;
        out.push((b, cnt));
        k += 1;
        assert forall|i: int| 0 <= i < out@.len() implies #[trigger] entry_counted(out@[i], sc.take(k as int)[i], candidates@.len()) by {
            if i < before.len() {
                assert(entry_counted(before[i], sc.take(k - 1)[i], candidates@.len()));
            }
        }
    }
    assert(sc.take(k as int) =~= sc);
    out
}

/// Returns all nonempty partitions with their response, excluding the win response, in
/// increasing order of response.
pub fn get_partitions(candidates: &BitSet, cache: &ResponseCache, g_idx: usize) -> (r: Vec<(usize, BitSet)>)
    requires
        candidates.wf(),
        cache.wf(),
        cache.values_valid(),
        g_idx < cache.n_rows(),
        candidates@.len() == cache.spec_stride(),
        cache.spec_stride() <= usize::MAX - 63,
    ensures
        split_built(r@, split_classes(cache_resp(*cache), candidates.members(), g_idx as int, N_RESPONSES as int), candidates@.len()),
{
    let ghost resp = cache_resp(*cache);
    let ghost cands = candidates.members();
    let ghost n = candidates@.len();
    let (mut parts, present, counts) = classify(candidates, cache, g_idx, true);
    let ghost parts0 = parts@;
    let mut out: Vec<(usize, BitSet)> = Vec::new();
    let mut q: usize = 0;
    while q < N_RESPONSES
        invariant
            q <= N_RESPONSES,
            resp == cache_resp(*cache),
            cands == candidates.members(),
            n == candidates@.len(),
            classified(*cache, cands, g_idx as int, true, parts0, present@, counts@, n),
            parts@.len() == N_RESPONSES,
            forall|r2: int| q <= r2 < N_RESPONSES ==> #[trigger] parts@[r2] == parts0[r2],
            split_built(out@, split_classes(resp, cands, g_idx as int, q as int), n),
        decreases N_RESPONSES - q,
    {
        let ghost before = out@;
        assert(classified_at(*cache, cands, g_idx as int, true, parts0, present@, counts@, n, q as int));
        if present[q] {
            let mut tmp = BitSet::new(0);
            std::mem::swap(&mut parts[q], &mut tmp);
            out.push((q, tmp));
        }
        proof {
            let sc = split_classes(resp, cands, g_idx as int, q + 1);
            let sc0 = split_classes(resp, cands, g_idx as int, q as int);
            assert forall|i: int| 0 <= i < out@.len() implies #[trigger] entry_built(out@[i], sc[i], n) by {
                if i < before.len() {
                    assert(entry_built(before[i], sc0[i], n));
                    assert(out@[i] == before[i]);
                    assert(sc[i] == sc0[i]);
                }
            }
        }
        q += 1;
    }
    out
}

} // verus!
