use vstd::prelude::*;
use vstd::std_specs::bits::{u64_trailing_zeros, axiom_u64_trailing_zeros};

verus! {

/// Bit `j` (counted from the least significant bit) of `x`.
pub open spec fn bit_of(x: u64, j: u64) -> bool {
    (x >> j) & 1u64 == 1u64
}

/// Number of set bits among the `n` lowest bits of `x`.
pub open spec fn count_low_bits(x: u64, n: nat) -> nat
    decreases n,
{
    if n == 0 {
        0
    } else {
        count_low_bits(x, (n - 1) as nat) + if bit_of(x, (n - 1) as u64) { 1nat } else { 0nat }
    }
}

/// The bits of the set `s` over the positions `0..n`.
pub open spec fn bits_of(s: Set<int>, n: nat) -> Seq<bool> {
    Seq::new(n, |i: int| s.contains(i))
}

/// A boolean sequence is the bits of its own true positions.
pub proof fn lemma_bits_of_true_positions(s: Seq<bool>)
    ensures
        bits_of(true_positions(s), s.len()) == s,
{
    assert(bits_of(true_positions(s), s.len()) =~= s);
}

/// Number of ones in the binary representation of `x`.
pub open spec fn popcount(x: u64) -> nat {
    count_low_bits(x, 64)
}

/// The positions of a boolean sequence that hold `true`.
pub open spec fn true_positions(s: Seq<bool>) -> Set<int> {
    Set::new(|i: int| 0 <= i < s.len() && s[i])
}

/// The number of ones in the binary representation of `x`, bit by bit.
fn u64_count_ones(x: u64) -> (r: u32)
    ensures
        r as nat == popcount(x),
{
    let mut c: u32 = 0;
    let mut j: u64 = 0;
    while j < 64
        invariant
            j <= 64,
            c as nat == count_low_bits(x, j as nat),
            c <= j,
        decreases 64 - j,
    {
        if (x >> j) & 1u64 == 1u64 {
            c = c + 1;
        }
        j = j + 1;
    }
    c
}

pub proof fn lemma_bit_or_single(x: u64, j: u64, k: u64)
    requires
        j < 64,
        k < 64,
    ensures
        bit_of(x | (1u64 << j), k) == (k == j || bit_of(x, k)),
{
    assert(((x | (1u64 << j)) >> k) & 1u64 == 1u64 <==> (k == j || (x >> k) & 1u64 == 1u64))
        by (bit_vector)
        requires j < 64, k < 64;
}

pub proof fn lemma_bit_clear_single(x: u64, j: u64, k: u64)
    requires
        j < 64,
        k < 64,
    ensures
        bit_of(x & !(1u64 << j), k) == (k != j && bit_of(x, k)),
{
    assert(((x & !(1u64 << j)) >> k) & 1u64 == 1u64 <==> (k != j && (x >> k) & 1u64 == 1u64))
        by (bit_vector)
        requires j < 64, k < 64;
}

pub proof fn lemma_bit_and(a: u64, b: u64, k: u64)
    requires
        k < 64,
    ensures
        bit_of(a & b, k) == (bit_of(a, k) && bit_of(b, k)),
{
    assert(((a & b) >> k) & 1u64 == 1u64 <==> ((a >> k) & 1u64 == 1u64 && (b >> k) & 1u64 == 1u64))
        by (bit_vector)
        requires k < 64;
}

pub proof fn lemma_bit_zero_max(k: u64)
    requires
        k < 64,
    ensures
        !bit_of(0u64, k),
        bit_of(0xffff_ffff_ffff_ffffu64, k),
{
    assert((0u64 >> k) & 1u64 == 0u64) by (bit_vector);
    assert((0xffff_ffff_ffff_ffffu64 >> k) & 1u64 == 1u64) by (bit_vector) requires k < 64;
}

pub proof fn lemma_bit_low_mask(m: u64, r: u64, k: u64)
    requires
        0 < r < 64,
        k < 64,
        m + 1 == (1u64 << r),
    ensures
        bit_of(m, k) == (k < r),
{
    assert((m >> k) & 1u64 == 1u64 <==> k < r)
        by (bit_vector)
        requires 0 < r < 64, k < 64, m + 1 == (1u64 << r);
}

/// A word with no set bit is zero.
pub proof fn lemma_no_bits_zero(x: u64)
    requires
        forall|k: u64| k < 64 ==> !bit_of(x, k),
    ensures
        x == 0,
{
    let t = u64_trailing_zeros(x);
    axiom_u64_trailing_zeros(x);
    if x != 0 {
        assert(bit_of(x, t as u64));
    }
}

pub proof fn lemma_count_low_bits_bound(x: u64, n: nat)
    ensures
        count_low_bits(x, n) <= n,
    decreases n,
{
    if n > 0 {
        lemma_count_low_bits_bound(x, (n - 1) as nat);
    }
}

/// The set bits of `x` among its `n` lowest bits, as positions shifted by `base`.
pub open spec fn word_positions(x: u64, base: int, n: nat) -> Set<int> {
    Set::new(|i: int| base <= i < base + n && bit_of(x, (i - base) as u64))
}

pub proof fn lemma_count_low_bits_card(x: u64, base: int, n: nat)
    requires
        n <= 64,
    ensures
        word_positions(x, base, n).finite(),
        word_positions(x, base, n).len() == count_low_bits(x, n),
    decreases n,
{
    if n == 0 {
        assert(word_positions(x, base, n) =~= Set::empty());
    } else {
        let m = (n - 1) as nat;
        lemma_count_low_bits_card(x, base, m);
        let prev = word_positions(x, base, m);
        let top = base + m;
        if bit_of(x, m as u64) {
            assert(word_positions(x, base, n) =~= prev.insert(top));
        } else {
            assert(word_positions(x, base, n) =~= prev);
        }
    }
}

/// The indices below `k.1` whose bit is set in the blocks `k.0`.
pub open spec fn key_members(k: (Seq<u64>, usize)) -> Set<int> {
    Set::new(|i: int| 0 <= i < k.1 && bit_of(k.0[i / 64], (i % 64) as u64))
}

/// The key shared by the well-formed sets of length `n` whose members are `s`.
pub open spec fn key_of(s: Set<int>, n: nat) -> (Seq<u64>, usize) {
    choose|k: (Seq<u64>, usize)| #[trigger] key_fits(k, s, n)
}

/// Some well-formed set of length `n` with members `s` has key `k`.
pub open spec fn key_fits(k: (Seq<u64>, usize), s: Set<int>, n: nat) -> bool {
    exists|b: BitSet| #[trigger] b.key() == k && b.wf() && b@.len() == n && b.members() == s
}

/// The blocks are as many as `len` bits need, and no bit at or beyond `len` is set.
pub open spec fn padding_clear(blocks: Seq<u64>, len: nat) -> bool {
    &&& blocks.len() == BitSet::blocks_for(len)
    &&& forall|i: int| len <= i < blocks.len() * 64 ==> !bit_of(#[trigger] blocks[i / 64], (i % 64) as u64)
}

/// A lightweight, dense bitset backed by a vector of u64s.
#[derive(PartialEq, Eq, Hash, Clone, Debug)]
pub struct BitSet {
    blocks: Vec<u64>,
    pub(crate) len: usize,
}

impl View for BitSet {
    type V = Seq<bool>;

    /// Bit `i` of the set, for every `i` below its length.
    closed spec fn view(&self) -> Seq<bool> {
        Seq::new(self.len as nat, |i: int| bit_of(self.blocks@[i / 64], (i % 64) as u64))
    }
}

impl BitSet {
    /// The raw blocks, least significant bit first.
    pub closed spec fn raw_blocks(&self) -> Seq<u64> {
        self.blocks@
    }

    /// The value by which two sets compare equal: the raw blocks and the length.
    pub closed spec fn key(&self) -> (Seq<u64>, usize) {
        (self.blocks@, self.len)
    }

    /// The members of a set are read off its key.
    pub proof fn lemma_key_members(&self)
        ensures
            key_members(self.key()) == self.members(),
    {
        assert(key_members(self.key()) =~= self.members());
    }

    /// The number of blocks a set of `len` bits occupies.
    pub open spec fn blocks_for(len: nat) -> nat {
        (len + 63) / 64
    }

    /// Well-formedness: exactly as many blocks as the length needs, and no bit set
    /// at or beyond the length.
    pub closed spec fn wf(&self) -> bool {
        &&& self.blocks@.len() == Self::blocks_for(self.len as nat)
        &&& forall|i: int|
            self.len <= i < self.blocks@.len() * 64 ==> !bit_of(
                #[trigger] self.blocks@[i / 64],
                (i % 64) as u64,
            )
    }

    /// A well-formed set's raw blocks hold no bit at or beyond its length.
    pub proof fn lemma_wf_padding(&self)
        requires
            self.wf(),
        ensures
            padding_clear(self.raw_blocks(), self@.len()),
    {
    }

    /// The indices of the set bits.
    pub open spec fn members(&self) -> Set<int> {
        true_positions(self@)
    }

    pub proof fn lemma_members_finite(&self)
        ensures
            self.members().finite(),
            self.members().len() <= self@.len(),
            forall|i: int| #[trigger] self.members().contains(i) ==> 0 <= i < self@.len(),
    {
        lemma_true_positions_finite(self@);
    }

    /// Create a new BitSet with `len` bits, all set to 0.
    pub fn new(len: usize) -> (r: Self)
        requires
            len <= usize::MAX - 63,
        ensures
            r.wf(),
            r@ == Seq::new(len as nat, |i: int| false),
            r.raw_blocks() == Seq::new(Self::blocks_for(len as nat), |j: int| 0u64),
            padding_clear(r.raw_blocks(), len as nat),
    {
        let num_blocks = (len + 63) / 64;
        let mut blocks: Vec<u64> = Vec::new();
        let mut k: usize = 0;
        while k < num_blocks
            invariant
                k <= num_blocks,
                blocks@.len() == k,
                forall|j: int| 0 <= j < k ==> blocks@[j] == 0u64,
            decreases num_blocks - k,
        {
            blocks.push(0u64);
            k += 1;
        }
        let r = Self { blocks, len };
        assert forall|i: int| 0 <= i < r.blocks@.len() * 64 implies !bit_of(
            #[trigger] r.blocks@[i / 64],
            (i % 64) as u64,
        ) by {
            lemma_bit_zero_max((i % 64) as u64);
        }
        assert(r@ =~= Seq::new(len as nat, |i: int| false));
        assert(r.raw_blocks() =~= Seq::new(Self::blocks_for(len as nat), |j: int| 0u64));
        r
    }

    /// Create a new BitSet with `len` bits, all set to 1.
    pub fn ones(len: usize) -> (r: Self)
        requires
            len <= usize::MAX - 63,
        ensures
            r.wf(),
            r@ == Seq::new(len as nat, |i: int| true),
            padding_clear(r.raw_blocks(), len as nat),
    {
        let num_blocks = (len + 63) / 64;
        let mut blocks: Vec<u64> = Vec::new();
        let mut k: usize = 0;
        while k < num_blocks
            invariant
                k <= num_blocks,
                blocks@.len() == k,
                forall|j: int| 0 <= j < k ==> blocks@[j] == 0xffff_ffff_ffff_ffffu64,
            decreases num_blocks - k,
        {
            blocks.push(0xffff_ffff_ffff_ffffu64);
            k += 1;
        }
        let remainder = len % 64;
        let ghost full = blocks@;
        let sh: u64 = remainder as u64;
        assert((1u64 << sh) >= 1u64) by (bit_vector) requires sh < 64;
        let mask: u64 = (1u64 << sh) - 1;
        if remainder != 0 {
            let last = blocks[num_blocks - 1] & mask;
            blocks.set(num_blocks - 1, last);
        }
        let r = Self { blocks, len };
        assert forall|i: int| 0 <= i < r.blocks@.len() * 64 implies bit_of(
            #[trigger] r.blocks@[i / 64],
            (i % 64) as u64,
        ) == (i < len) by {
            let k = (i % 64) as u64;
            lemma_bit_zero_max(k);
            if remainder != 0 && i / 64 == num_blocks - 1 {
                lemma_bit_low_mask(mask, remainder as u64, k);
                lemma_bit_and(0xffff_ffff_ffff_ffffu64, mask, k);
            }
        }
        assert(r@ =~= Seq::new(len as nat, |i: int| true));
        r
    }

    /// The number of bits the set holds.
    pub fn len(&self) -> (r: usize)
        ensures
            r == self@.len(),
    {
        self.len
    }

    /// Sets bit `index` to `value`; an index at or beyond the length is ignored.
    pub fn set(&mut self, index: usize, value: bool)
        requires
            old(self).wf(),
        ensures
            final(self).wf(),
            final(self)@ == if index < old(self)@.len() {
                old(self)@.update(index as int, value)
            } else {
                old(self)@
            },
            padding_clear(final(self).raw_blocks(), final(self)@.len()),
            index >= old(self)@.len() ==> *final(self) == *old(self),
    {
        if index >= self.len {
            return;
        }
        let block_idx = index / 64;
        let bit_idx = (index % 64) as u64;
        let ghost old_blocks = self.blocks@;
        let old_block = self.blocks[block_idx];
        let new_block = if value {
            old_block | (1u64 << bit_idx)
        } else {
            old_block & !(1u64 << bit_idx)
        };
        self.blocks.set(block_idx, new_block);
        assert forall|i: int| 0 <= i < self.blocks@.len() * 64 implies bit_of(
            #[trigger] self.blocks@[i / 64],
            (i % 64) as u64,
        ) == if i == index {
            value
        } else {
            bit_of(old_blocks[i / 64], (i % 64) as u64)
        } by {
            let k = (i % 64) as u64;
            if value {
                lemma_bit_or_single(old_block, bit_idx, k);
            } else {
                lemma_bit_clear_single(old_block, bit_idx, k);
            }
        }
        assert(self@ =~= old(self)@.update(index as int, value));
    }

    /// Returns bit `index`; false at or beyond the length.
    pub fn get(&self, index: usize) -> (r: bool)
        requires
            self.wf(),
        ensures
            r == (index < self@.len() && self@[index as int]),
    {
        if index >= self.len {
            return false;
        }
        let block_idx = index / 64;
        let bit_idx = (index % 64) as u64;
        let b = self.blocks[block_idx];
        let r = (b >> bit_idx) & 1u64 == 1u64;
        r
    }

    /// The number of set bits.
    pub fn count_ones(&self) -> (r: usize)
        requires
            self.wf(),
        ensures
            r == self.members().len(),
    {
        let mut total: usize = 0;
        let mut k: usize = 0;
        proof {
            self.lemma_block_sets(0);
        }
        while k < self.blocks.len()
            invariant
                self.wf(),
                k <= self.blocks@.len(),
                total == self.prefix_members(k as int).len(),
                self.prefix_members(k as int).finite(),
            decreases self.blocks@.len() - k,
        {
            let c = u64_count_ones(self.blocks[k]);
            proof {
                self.lemma_block_sets(k as int);
                lemma_count_low_bits_bound(self.blocks@[k as int], 64);
                self.lemma_prefix_members_sub((k + 1) as int);
            }
            total = total + c as usize;
            k += 1;
        }
        proof {
            self.lemma_prefix_members_all();
        }
        total
    }

    /// True when no bit is set.
    pub fn is_empty(&self) -> (r: bool)
        requires
            self.wf(),
        ensures
            r == self.members().is_empty(),
    {
        let mut k: usize = 0;
        while k < self.blocks.len()
            invariant
                self.wf(),
                k <= self.blocks@.len(),
                forall|j: int| 0 <= j < k ==> self.blocks@[j] == 0u64,
            decreases self.blocks@.len() - k,
        {
            if self.blocks[k] != 0 {
                proof {
                    let x = self.blocks@[k as int];
                    if forall|t: u64| t < 64 ==> !bit_of(x, t) {
                        lemma_no_bits_zero(x);
                    }
                    let t = choose|t: u64| t < 64 && bit_of(x, t);
                    let i = 64 * k + t;
                    assert(i / 64 == k && i % 64 == t);
                    if i >= self.len {
                        assert(!bit_of(self.blocks@[i / 64], (i % 64) as u64));
                    }
                    assert(self.members().contains(i as int));
                }
                return false;
            }
            k += 1;
        }
        proof {
            assert forall|i: int| !self.members().contains(i) by {
                if 0 <= i < self.len {
                    lemma_bit_zero_max((i % 64) as u64);
                }
            }
        }
        true
    }

    /// Computes the intersection of self and other, returning the count of ones.
    pub fn intersection_count(&self, other: &BitSet) -> (r: usize)
        requires
            self.wf(),
            other.wf(),
        ensures
            r == self.members().intersect(other.members()).len(),
    {
        let n = if self.blocks.len() < other.blocks.len() { self.blocks.len() } else { other.blocks.len() };
        let mut total: usize = 0;
        let mut k: usize = 0;
        assert(common_prefix(self.blocks@, other.blocks@, 0) =~= Set::empty());
        while k < n
            invariant
                self.wf(),
                other.wf(),
                n == if self.blocks@.len() < other.blocks@.len() { self.blocks@.len() } else { other.blocks@.len() },
                k <= n,
                total == common_prefix(self.blocks@, other.blocks@, k as int).len(),
                common_prefix(self.blocks@, other.blocks@, k as int).finite(),
            decreases n - k,
        {
            let a = self.blocks[k];
            let b = other.blocks[k];
            let w = a & b;
            let c = u64_count_ones(w);
            proof {
                lemma_common_prefix_step(self.blocks@, other.blocks@, k as int);
                self.lemma_common_prefix_sub(other, (k + 1) as int);
            }
            total = total + c as usize;
            k += 1;
        }
        proof {
            self.lemma_common_prefix_all(other, n as int);
        }
        total
    }

    proof fn lemma_common_prefix_sub(&self, other: &BitSet, k: int)
        requires
            self.wf(),
            other.wf(),
            0 <= k <= self.blocks@.len(),
            k <= other.blocks@.len(),
        ensures
            common_prefix(self.blocks@, other.blocks@, k).subset_of(self.members()),
            common_prefix(self.blocks@, other.blocks@, k).finite(),
            common_prefix(self.blocks@, other.blocks@, k).len() <= self.len,
    {
        let cp = common_prefix(self.blocks@, other.blocks@, k);
        assert forall|i: int| cp.contains(i) implies self.members().contains(i) by {
            lemma_bit_and(self.blocks@[i / 64], other.blocks@[i / 64], (i % 64) as u64);
            if i >= self.len {
                assert(!bit_of(self.blocks@[i / 64], (i % 64) as u64));
            }
        }
        self.lemma_members_finite();
        vstd::set_lib::lemma_len_subset(cp, self.members());
    }

    proof fn lemma_common_prefix_all(&self, other: &BitSet, n: int)
        requires
            self.wf(),
            other.wf(),
            n == if self.blocks@.len() < other.blocks@.len() { self.blocks@.len() } else { other.blocks@.len() },
        ensures
            common_prefix(self.blocks@, other.blocks@, n) =~= self.members().intersect(other.members()),
    {
        let cp = common_prefix(self.blocks@, other.blocks@, n);
        assert forall|i: int| cp.contains(i) implies self.members().intersect(other.members()).contains(i) by {
            lemma_bit_and(self.blocks@[i / 64], other.blocks@[i / 64], (i % 64) as u64);
            if i >= self.len {
                assert(!bit_of(self.blocks@[i / 64], (i % 64) as u64));
            }
            if i >= other.len {
                assert(!bit_of(other.blocks@[i / 64], (i % 64) as u64));
            }
        }
        assert forall|i: int| self.members().intersect(other.members()).contains(i) implies cp.contains(i) by {
            lemma_bit_and(self.blocks@[i / 64], other.blocks@[i / 64], (i % 64) as u64);
        }
    }

    /// Returns a new BitSet representing the intersection of self and other: the blocks
    /// they share, and the length of `self`. When `other` has fewer blocks than `self`
    /// needs, the result is missing blocks and is not well formed.
    pub fn intersect(&self, other: &BitSet) -> (r: BitSet)
        requires
            self.wf(),
            other.wf(),
        ensures
            r@.len() == self@.len(),
            r.raw_blocks().len() == if self.raw_blocks().len() <= other.raw_blocks().len() {
                self.raw_blocks().len()
            } else {
                other.raw_blocks().len()
            },
            forall|j: int| 0 <= j < r.raw_blocks().len() ==> #[trigger] r.raw_blocks()[j] == self.raw_blocks()[j]
                & other.raw_blocks()[j],
            Self::blocks_for(self@.len()) <= Self::blocks_for(other@.len()) ==> {
                &&& r.wf()
                &&& forall|i: int| 0 <= i < r@.len() ==> #[trigger] r@[i] == (self@[i] && i < other@.len() && other@[i])
                &&& r.members() == self.members().intersect(other.members())
            },
            Self::blocks_for(self@.len()) > Self::blocks_for(other@.len()) ==> !r.wf(),
    {
        let n = if self.blocks.len() <= other.blocks.len() { self.blocks.len() } else { other.blocks.len() };
        let mut blocks: Vec<u64> = Vec::new();
        let mut k: usize = 0;
        while k < n
            invariant
                n <= self.blocks@.len(),
                n <= other.blocks@.len(),
                k <= n,
                blocks@.len() == k,
                forall|j: int| 0 <= j < k ==> blocks@[j] == self.blocks@[j] & other.blocks@[j],
            decreases n - k,
        {
            blocks.push(self.blocks[k] & other.blocks[k]);
            k += 1;
        }
        let r = BitSet { blocks, len: self.len };
        if self.blocks.len() <= other.blocks.len() {
            assert forall|i: int| 0 <= i < r.blocks@.len() * 64 implies bit_of(
                #[trigger] r.blocks@[i / 64],
                (i % 64) as u64,
            ) == (bit_of(self.blocks@[i / 64], (i % 64) as u64) && bit_of(other.blocks@[i / 64], (i % 64) as u64)) by {
                lemma_bit_and(self.blocks@[i / 64], other.blocks@[i / 64], (i % 64) as u64);
            }
            assert forall|i: int| 0 <= i < r@.len() implies #[trigger] r@[i] == (self@[i] && i < other@.len() && other@[i]) by {
                if i >= other@.len() {
                    assert(!bit_of(other.blocks@[i / 64], (i % 64) as u64));
                }
            }
            assert(r.members() =~= self.members().intersect(other.members()));
        }
        r
    }

    /// Returns an iterator over the indices of set bits, in increasing order.
    pub fn iter_ones(&self) -> (r: BitSetIter<'_>)
        requires
            self.wf(),
        ensures
            r.wf(),
            r.remaining() == self.members(),
            r.remaining().finite(),
    {
        BitSetIter::new(self)
    }

    /// Access the raw blocks.
    pub fn as_slice(&self) -> (r: &[u64])
        ensures
            r@ == self.raw_blocks(),
            self.wf() ==> r@.len() == Self::blocks_for(self@.len()),
            self.wf() ==> padding_clear(r@, self@.len()),
            forall|i: int| 0 <= i < self@.len() ==> #[trigger] self@[i] == bit_of(r@[i / 64], (i % 64) as u64),
    {
        self.blocks.as_slice()
    }

    /// Whether the two sets have the same length and the same blocks (what `==` compares).
    pub fn same_as(&self, other: &BitSet) -> (r: bool)
        ensures
            r == (self.key() == other.key()),
    {
        if self.len != other.len || self.blocks.len() != other.blocks.len() {
            return false;
        }
        let mut k: usize = 0;
        while k < self.blocks.len()
            invariant
                k <= self.blocks@.len(),
                self.blocks@.len() == other.blocks@.len(),
                forall|j: int| 0 <= j < k ==> self.blocks@[j] == other.blocks@[j],
            decreases self.blocks@.len() - k,
        {
            if self.blocks[k] != other.blocks[k] {
                return false;
            }
            k += 1;
        }
        assert(self.blocks@ =~= other.blocks@);
        true
    }

    /// A copy of the set with the same bits.
    pub fn duplicate(&self) -> (r: BitSet)
        ensures
            r.key() == self.key(),
            r@ == self@,
            r.wf() == self.wf(),
    {
        let mut blocks: Vec<u64> = Vec::new();
        let mut k: usize = 0;
        while k < self.blocks.len()
            invariant
                k <= self.blocks@.len(),
                blocks@ == self.blocks@.subrange(0, k as int),
            decreases self.blocks@.len() - k,
        {
            blocks.push(self.blocks[k]);
            k += 1;
        }
        assert(blocks@ =~= self.blocks@);
        BitSet { blocks, len: self.len }
    }

    /// Sets with the same key have the same bits.
    pub proof fn lemma_same_key(&self, other: &BitSet)
        requires
            self.key() == other.key(),
        ensures
            self@ == other@,
            self.members() == other.members(),
    {
        assert(self@ =~= other@);
    }

    /// Well-formed sets of one length with the same members have the same key.
    pub proof fn lemma_key_unique(&self, other: &BitSet)
        requires
            self.wf(),
            other.wf(),
            self@.len() == other@.len(),
            self.members() == other.members(),
        ensures
            self.key() == other.key(),
    {
        assert forall|b: int| 0 <= b < self.blocks@.len() implies self.blocks@[b] == other.blocks@[b] by {
            let x = self.blocks@[b];
            let y = other.blocks@[b];
            assert forall|k: u64| k < 64 implies bit_of(x ^ y, k) == (bit_of(x, k) != bit_of(y, k)) by {
                assert(((x ^ y) >> k) & 1u64 == 1u64 <==> (((x >> k) & 1u64 == 1u64) != ((y >> k) & 1u64 == 1u64)))
                    by (bit_vector);
            }
            assert forall|k: u64| k < 64 implies bit_of(x, k) == bit_of(y, k) by {
                let i = 64 * b + k;
                assert(i / 64 == b && i % 64 == k);
                if i < self.len {
                    assert(self@[i] == bit_of(x, k));
                    assert(other@[i] == bit_of(y, k));
                    assert(self.members().contains(i) == self@[i]);
                    assert(other.members().contains(i) == other@[i]);
                } else {
                    assert(!bit_of(self.blocks@[i / 64], (i % 64) as u64));
                    assert(!bit_of(other.blocks@[i / 64], (i % 64) as u64));
                }
            }
            assert forall|k: u64| k < 64 implies !bit_of(x ^ y, k) by {
                assert(bit_of(x ^ y, k) == (bit_of(x, k) != bit_of(y, k)));
                assert(bit_of(x, k) == bit_of(y, k));
            }
            lemma_no_bits_zero(x ^ y);
            assert(x ^ y == 0u64 ==> x == y) by (bit_vector);
        }
        assert(self.blocks@ =~= other.blocks@);
    }

    /// A well-formed set's key is the canonical key of its members and length.
    pub proof fn lemma_key_of(&self)
        requires
            self.wf(),
        ensures
            self.key() == key_of(self.members(), self@.len()),
    {
        assert(key_fits(self.key(), self.members(), self@.len()));
        let k = key_of(self.members(), self@.len());
        let b = choose|b: BitSet| #[trigger] b.key() == k && b.wf() && b@.len() == self@.len() && b.members() == self.members();
        b.lemma_key_unique(self);
    }

    /// Members below `64 * k`.
    pub closed spec fn prefix_members(&self, k: int) -> Set<int> {
        Set::new(|i: int| 0 <= i < 64 * k && i < self.blocks@.len() * 64 && bit_of(self.blocks@[i / 64], (i % 64) as u64))
    }

    proof fn lemma_block_sets(&self, k: int)
        requires
            0 <= k < self.blocks@.len() || k == 0,
        ensures
            k == 0 ==> self.prefix_members(0) =~= Set::empty(),
            0 <= k < self.blocks@.len() ==> {
                &&& self.prefix_members(k + 1) =~= self.prefix_members(k).union(word_positions(self.blocks@[k], 64 * k, 64))
                &&& self.prefix_members(k).disjoint(word_positions(self.blocks@[k], 64 * k, 64))
                &&& word_positions(self.blocks@[k], 64 * k, 64).finite()
                &&& word_positions(self.blocks@[k], 64 * k, 64).len() == popcount(self.blocks@[k])
                &&& (self.prefix_members(k).finite() ==> self.prefix_members(k + 1).finite()
                    && self.prefix_members(k + 1).len() == self.prefix_members(k).len() + popcount(self.blocks@[k]))
            },
    {
        if 0 <= k < self.blocks@.len() {
            let w = word_positions(self.blocks@[k], 64 * k, 64);
            lemma_count_low_bits_card(self.blocks@[k], 64 * k, 64);
            assert forall|i: int| w.contains(i) implies i / 64 == k && (i - 64 * k) == i % 64 by {}
            assert(self.prefix_members(k + 1) =~= self.prefix_members(k).union(w));
            if self.prefix_members(k).finite() {
                vstd::set_lib::lemma_set_disjoint_lens(self.prefix_members(k), w);
            }
        }
    }

    proof fn lemma_prefix_members_sub(&self, k: int)
        requires
            self.wf(),
        ensures
            self.prefix_members(k).subset_of(self.members()),
            self.prefix_members(k).finite(),
            self.prefix_members(k).len() <= self.len,
    {
        assert forall|i: int| self.prefix_members(k).contains(i) implies self.members().contains(i) by {
            if i >= self.len {
                assert(!bit_of(self.blocks@[i / 64], (i % 64) as u64));
            }
        }
        self.lemma_members_finite();
        vstd::set_lib::lemma_len_subset(self.prefix_members(k), self.members());
    }

    proof fn lemma_prefix_members_all(&self)
        requires
            self.wf(),
        ensures
            self.prefix_members(self.blocks@.len() as int) =~= self.members(),
    {
        assert forall|i: int| self.prefix_members(self.blocks@.len() as int).contains(i) implies i < self.len by {
            if i >= self.len {
                assert(!bit_of(self.blocks@[i / 64], (i % 64) as u64));
            }
        }
    }
}

/// Positions below `64 * k` set in both block sequences.
pub open spec fn common_prefix(a: Seq<u64>, b: Seq<u64>, k: int) -> Set<int> {
    Set::new(|i: int| 0 <= i < 64 * k && i < a.len() * 64 && i < b.len() * 64
        && bit_of(a[i / 64], (i % 64) as u64) && bit_of(b[i / 64], (i % 64) as u64))
}

proof fn lemma_common_prefix_step(a: Seq<u64>, b: Seq<u64>, k: int)
    requires
        0 <= k < a.len(),
        k < b.len(),
        common_prefix(a, b, k).finite(),
    ensures
        common_prefix(a, b, k + 1).finite(),
        common_prefix(a, b, k + 1).len() == common_prefix(a, b, k).len() + popcount(a[k] & b[k]),
{
    let w = word_positions(a[k] & b[k], 64 * k, 64);
    lemma_count_low_bits_card(a[k] & b[k], 64 * k, 64);
    assert forall|i: int| #![trigger w.contains(i)] #![trigger common_prefix(a, b, k + 1).contains(i)] 64 * k <= i < 64 * k + 64 implies bit_of(a[k] & b[k], (i - 64 * k) as u64) == (bit_of(a[k], (i - 64 * k) as u64) && bit_of(b[k], (i - 64 * k) as u64)) by {
        lemma_bit_and(a[k], b[k], (i - 64 * k) as u64);
        assert(i / 64 == k && (i - 64 * k) == i % 64);
    }
    assert(common_prefix(a, b, k + 1) =~= common_prefix(a, b, k).union(w));
    vstd::set_lib::lemma_set_disjoint_lens(common_prefix(a, b, k), w);
}

pub proof fn lemma_true_positions_finite(s: Seq<bool>)
    ensures
        true_positions(s).finite(),
        true_positions(s).len() <= s.len(),
        forall|i: int| #[trigger] true_positions(s).contains(i) ==> 0 <= i < s.len(),
{
    vstd::set_lib::lemma_int_range(0, s.len() as int);
    assert(true_positions(s).subset_of(vstd::set_lib::set_int_range(0, s.len() as int)));
    vstd::set_lib::lemma_len_subset(true_positions(s), vstd::set_lib::set_int_range(0, s.len() as int));
}

/// Iterator for set bits.
pub struct BitSetIter<'a> {
    bitset: &'a BitSet,
    block_idx: usize,
    current_block: u64,
}

impl<'a> BitSetIter<'a> {
    /// The set bits not yet returned.
    pub closed spec fn remaining(&self) -> Set<int> {
        Set::new(|i: int| 0 <= i < self.bitset.blocks@.len() * 64 && (
            (i / 64 == self.block_idx && bit_of(self.current_block, (i % 64) as u64))
            || (i / 64 > self.block_idx && bit_of(self.bitset.blocks@[i / 64], (i % 64) as u64))))
    }

    /// The set being iterated.
    pub closed spec fn source(&self) -> BitSet {
        *self.bitset
    }

    pub closed spec fn wf(&self) -> bool {
        &&& self.bitset.wf()
        &&& self.block_idx <= self.bitset.blocks@.len()
        &&& self.block_idx == self.bitset.blocks@.len() ==> self.current_block == 0
        &&& self.block_idx < self.bitset.blocks@.len() ==> forall|t: u64| t < 64 && bit_of(self.current_block, t)
            ==> bit_of(self.bitset.blocks@[self.block_idx as int], t)
    }

    proof fn lemma_remaining(&self)
        requires
            self.wf(),
        ensures
            self.remaining().finite(),
            self.remaining().subset_of(self.bitset.members()),
    {
        vstd::set_lib::lemma_int_range(0, (self.bitset.blocks@.len() * 64) as int);
        assert(self.remaining().subset_of(vstd::set_lib::set_int_range(0, (self.bitset.blocks@.len() * 64) as int)));
        vstd::set_lib::lemma_set_subset_finite(vstd::set_lib::set_int_range(0, (self.bitset.blocks@.len() * 64) as int), self.remaining());
        assert forall|i: int| self.remaining().contains(i) implies self.bitset.members().contains(i) by {
            if i >= self.bitset.len {
                assert(!bit_of(self.bitset.blocks@[i / 64], (i % 64) as u64));
            }
        }
    }

    fn new(bitset: &'a BitSet) -> (r: Self)
        requires
            bitset.wf(),
        ensures
            r.wf(),
            r.remaining() == bitset.members(),
            r.remaining().finite(),
            r.source() == *bitset,
    {
        let current_block = if bitset.blocks.len() == 0 { 0 } else { bitset.blocks[0] };
        let r = Self { bitset, block_idx: 0, current_block };
        assert forall|i: int| bitset.members().contains(i) implies r.remaining().contains(i) by {}
        proof { r.lemma_remaining(); }
        assert(r.remaining() =~= bitset.members());
        r
    }

    /// Returns the smallest set bit not yet returned, or `None` when all have been returned.
    pub fn next(&mut self) -> (r: Option<usize>)
        requires
            old(self).wf(),
        ensures
            final(self).wf(),
            final(self).source() == old(self).source(),
            final(self).remaining().finite(),
            match r {
                None => old(self).remaining().is_empty() && final(self).remaining() == old(self).remaining(),
                Some(i) => {
                    &&& old(self).remaining().contains(i as int)
                    &&& forall|j: int| #[trigger] old(self).remaining().contains(j) ==> i <= j
                    &&& final(self).remaining() == old(self).remaining().remove(i as int)
                },
            },
    {
        loop
            invariant
                self.wf(),
                self.source() == old(self).source(),
                self.remaining() == old(self).remaining(),
            decreases self.bitset.blocks@.len() - self.block_idx,
        {
            if self.current_block != 0 {
                let tz = self.current_block.trailing_zeros();
                proof { axiom_u64_trailing_zeros(self.current_block); }
                let t: u64 = tz as u64;
                let ghost old_rem = self.remaining();
                let ghost cb = self.current_block;
                let bi = self.block_idx;
                assert(bi < self.bitset.blocks@.len());
                assert((1u64 << t) >= 1u64) by (bit_vector) requires t < 64;
                self.current_block = self.current_block & !(1u64 << t);
                assert(bi * 64 + (t as usize) < (self.bitset.blocks@.len() * 64) as int);
                let idx = bi * 64 + tz as usize;
                proof {
                    assert(idx / 64 == bi && idx % 64 == t);
                    assert(bit_of(cb, t));
                    assert forall|u: u64| u < 64 implies #[trigger] bit_of(self.current_block, u) == (u != t && bit_of(cb, u)) by {
                        lemma_bit_clear_single(cb, t, u);
                    }
                    assert forall|j: int| #[trigger] old_rem.contains(j) implies idx <= j by {
                        if j / 64 == bi {
                            let u = (j % 64) as u64;
                            if u < t {
                                assert((cb >> u) & 1u64 == 0u64);
                            }
                        }
                    }
                    assert(self.remaining() =~= old_rem.remove(idx as int));
                    self.lemma_remaining();
                }
                return Some(idx);
            }
            proof {
                assert forall|u: u64| u < 64 implies !#[trigger] bit_of(self.current_block, u) by {
                    lemma_bit_zero_max(u);
                }
            }
            if self.block_idx >= self.bitset.blocks.len() {
                proof {
                    assert(self.remaining() =~= Set::empty());
                }
                return None;
            }
            self.block_idx += 1;
            if self.block_idx >= self.bitset.blocks.len() {
                self.current_block = 0;
                proof {
                    assert(self.remaining() =~= old(self).remaining());
                    self.lemma_remaining();
                }
                return None;
            }
            self.current_block = self.bitset.blocks[self.block_idx];
            assert(self.remaining() =~= old(self).remaining());
        }
    }
}

} // verus!
