use vstd::prelude::*;
use dashmap::DashMap;
use crate::bits::BitSet;

verus! {

#[verifier::external_type_specification]
#[verifier::external_body]
#[verifier::reject_recursive_types(K)]
#[verifier::reject_recursive_types(V)]
#[verifier::reject_recursive_types(S)]
pub struct ExDashMap<K, V, S>(DashMap<K, V, S>);

/// Best known total costs, keyed by candidate set.
pub type MemoCache = DashMap<BitSet, usize>;

/// The entries of a memo cache, each key read as the raw blocks and length of its set:
/// `BitSet` derives `PartialEq`, `Eq` and `Hash` from exactly these two fields, so two
/// keys the map tells apart are two different pairs.
pub uninterp spec fn memo_contents(m: DashMap<BitSet, usize>) -> Map<(Seq<u64>, usize), usize>;

/// `DashMap::new`: a map with no entries.
#[verifier::external_body]
pub fn new_cache() -> (r: MemoCache)
    ensures
        memo_contents(r).is_empty(),
{
    DashMap::new()
}

/// `DashMap::get`: the value stored under a key equal to `key`, if there is one (the
/// value is copied out and the shard's read guard dropped at once).
#[verifier::external_body]
pub(crate) fn memo_get(m: &MemoCache, key: &BitSet) -> (r: Option<usize>)
    ensures
        match r {
            Some(v) => memo_contents(*m).contains_key(key.key()) && memo_contents(*m)[key.key()] == v,
            None => !memo_contents(*m).contains_key(key.key()),
        },
{
    match m.get(key) {
        Some(v) => Some(*v),
        None => None,
    }
}

/// `DashMap::insert`: stores `value` under `key`, replacing the value of an equal key;
/// every other entry stays. (`insert` takes `&self`; the wrapper takes `&mut` so that the
/// change is visible in the map's contents.)
#[verifier::external_body]
pub(crate) fn memo_insert(m: &mut MemoCache, key: BitSet, value: usize)
    ensures
        memo_contents(*final(m)) == memo_contents(*old(m)).insert(key.key(), value),
{
    m.insert(key, value);
}

} // verus!
