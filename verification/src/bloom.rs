//! A bit-vector Bloom filter using double hashing (Kirsch-Mitzenmacher): the
//! i-th probe of a key is `h1 + i * h2`, in 64-bit arithmetic, modulo the number
//! of bits, where `h1` and `h2` are two 64-bit hashes of the key.

use crate::codec;
use vstd::prelude::*;

verus! {

pub const FNV_PRIME: u64 = 0x100000001b3;

pub const FIRST_SEED: u64 = 0xcbf29ce484222325;

pub const SECOND_SEED: u64 = 0x84222325cbf29ce4;

/// No filter is smaller than this many bits.
pub const MIN_BITS: usize = 64;

/// No filter probes more often than this for one key.
pub const MAX_HASHES: u32 = 32;

/// `x` in 64-bit arithmetic, where overflow is cut off.
pub open spec fn wrap(x: int) -> u64 {
    (x % 0x1_0000_0000_0000_0000) as u64
}

/// The 64-bit FNV-1a hash of `data`, started from `seed`.
pub open spec fn fnv1a_of(data: Seq<u8>, seed: u64) -> u64
    decreases data.len(),
{
    if data.len() == 0 {
        seed
    } else {
        wrap((fnv1a_of(data.drop_last(), seed) ^ (data.last() as u64)) * FNV_PRIME)
    }
}

/// The two hashes that a key's probes are made from. The second is odd.
pub open spec fn hashes_of(key: Seq<u8>) -> (u64, u64) {
    (fnv1a_of(key, FIRST_SEED), fnv1a_of(key, SECOND_SEED) | 1)
}

/// The bit that the `i`-th probe of a key looks at.
pub open spec fn probe(key: Seq<u8>, i: int, num_bits: nat) -> int {
    let (h1, h2) = hashes_of(key);
    (wrap(h1 + i * h2) as usize) as int % num_bits as int
}

/// Bit `j` of a word.
pub open spec fn word_bit(word: u64, j: u64) -> bool {
    (word >> j) & 1 == 1
}

/// What a [`BloomFilter`] holds.
#[verifier::ext_equal]
pub struct Filter {
    pub words: Seq<u64>,
    pub num_bits: nat,
    pub num_hashes: u32,
}

impl Filter {
    /// Whether bit `b` is set.
    pub open spec fn bit(self, b: int) -> bool {
        word_bit(self.words[b / 64], (b % 64) as u64)
    }

    /// Whether there is at least one bit, and a word for each of them.
    pub open spec fn well_formed(self) -> bool {
        0 < self.num_bits <= 64 * self.words.len()
    }

    /// Whether the `i`-th probe of a key finds a bit to look at.
    pub open spec fn probe_fits(self, key: Seq<u8>, i: int) -> bool {
        self.num_bits > 0 && probe(key, i, self.num_bits) < 64 * self.words.len()
    }

    /// Whether all probes of a key find a bit to look at.
    pub open spec fn probes_fit(self, key: Seq<u8>) -> bool {
        forall|i: int| 0 <= i < self.num_hashes ==> #[trigger] self.probe_fits(key, i)
    }

    /// Whether the first `n` probes of a key find set bits.
    pub open spec fn hits(self, key: Seq<u8>, n: int) -> bool {
        forall|i: int| 0 <= i < n ==> self.bit(#[trigger] probe(key, i, self.num_bits))
    }

    /// Whether all probes of a key find a bit to look at, up to the first that
    /// finds a clear one.
    pub open spec fn lookup_fits(self, key: Seq<u8>) -> bool {
        forall|i: int|
            0 <= i < self.num_hashes && self.hits(key, i) ==> #[trigger] self.probe_fits(key, i)
    }

    /// Whether the filter may hold a key: all its probes find set bits.
    pub open spec fn may_contain(self, key: Seq<u8>) -> bool {
        self.hits(key, self.num_hashes as int)
    }

    /// Whether one of the first `n` probes of a key looks at bit `b`.
    pub open spec fn probed(self, key: Seq<u8>, n: int, b: int) -> bool {
        exists|i: int| 0 <= i < n && #[trigger] probe(key, i, self.num_bits) == b
    }

    /// Whether this filter is `before` with the bits of a key's first `n` probes
    /// set, and no others.
    pub open spec fn marks(self, before: Filter, key: Seq<u8>, n: int) -> bool {
        &&& self.num_bits == before.num_bits
        &&& self.num_hashes == before.num_hashes
        &&& self.words.len() == before.words.len()
        &&& forall|b: int|
            0 <= b < 64 * self.words.len() ==> (#[trigger] self.bit(b) <==> before.bit(b)
                || before.probed(key, n, b))
    }

    /// Whether this filter is `before` with a key inserted.
    pub open spec fn inserts(self, before: Filter, key: Seq<u8>) -> bool {
        self.marks(before, key, before.num_hashes as int)
    }
}

#[derive(Debug)]
pub struct BloomFilter {
    bits: Vec<u64>,
    num_bits: usize,
    num_hashes: u32,
}

impl View for BloomFilter {
    type V = Filter;

    closed spec fn view(&self) -> Filter {
        Filter {
            words: self.bits@,
            num_bits: self.num_bits as nat,
            num_hashes: self.num_hashes,
        }
    }
}

impl Clone for BloomFilter {
    fn clone(&self) -> (r: BloomFilter)
        ensures
            r@ == self@,
    {
        BloomFilter {
            bits: vstd::slice::slice_to_vec(self.bits.as_slice()),
            num_bits: self.num_bits,
            num_hashes: self.num_hashes,
        }
    }
}

/// The 64-bit FNV-1a hash of `data`, started from `seed`.
pub fn fnv1a(data: &[u8], seed: u64) -> (hash: u64)
    ensures
        hash == fnv1a_of(data@, seed),
{
    let mut hash: u64 = seed;
    let mut i: usize = 0;
    assert(data@.take(0) =~= Seq::<u8>::empty());
    while i < data.len()
        invariant
            i <= data.len(),
            hash == fnv1a_of(data@.take(i as int), seed),
        decreases data.len() - i,
    {
        assert(data@.take(i + 1).drop_last() =~= data@.take(i as int));
        hash = hash ^ (data[i] as u64);
        hash = hash.wrapping_mul(FNV_PRIME);
        i = i + 1;
    }
    assert(data@.take(i as int) =~= data@);
    hash
}

/// Two wrapped operations in a row wrap like one.
proof fn lemma_wrapped_probe(h1: u64, h2: u64, i: u64)
    ensures
        h1.wrapping_add(i.wrapping_mul(h2)) == wrap(h1 + i * h2),
{
    let m = 0x1_0000_0000_0000_0000int;
    let product = i as nat * h2 as nat;
    assert(i * h2 == product);
    vstd::arithmetic::div_mod::lemma_add_mod_noop(h1 as int, product as int, m);
    vstd::arithmetic::div_mod::lemma_small_mod(h1 as nat, m as nat);
    let x = h1 + product as int % m;
    if x >= m {
        assert(x % m == x - m);
    }
}

proof fn lemma_probe_bounds(key: Seq<u8>, i: int, num_bits: nat)
    requires
        num_bits > 0,
    ensures
        0 <= probe(key, i, num_bits) < num_bits,
{
}

/// In a well-formed filter every probe of every key finds a bit to look at.
pub proof fn lemma_well_formed_fits(filter: Filter, key: Seq<u8>)
    requires
        filter.well_formed(),
    ensures
        filter.probes_fit(key),
        filter.lookup_fits(key),
{
    assert forall|i: int| #[trigger] filter.probe_fits(key, i) by {
        lemma_probe_bounds(key, i, filter.num_bits);
    }
}

proof fn lemma_set_bit(word: u64, k: u64, j: u64)
    requires
        k < 64,
        j < 64,
    ensures
        word_bit(word | (1u64 << k), j) == (j == k || word_bit(word, j)),
{
    assert((((word | (1u64 << k)) >> j) & 1 == 1) == (j == k || (word >> j) & 1 == 1))
        by (bit_vector)
        requires
            k < 64,
            j < 64,
    ;
}

proof fn lemma_test_bit(word: u64, k: u64)
    requires
        k < 64,
    ensures
        word_bit(word, k) == (word & (1u64 << k) != 0),
{
    assert(((word >> k) & 1 == 1) == (word & (1u64 << k) != 0)) by (bit_vector)
        requires
            k < 64,
    ;
}

proof fn lemma_zero_word(j: u64)
    ensures
        !word_bit(0, j),
{
    assert((0u64 >> j) & 1 == 0) by (bit_vector);
}

/// Setting the bit of one more probe.
proof fn lemma_marks_one_more(before: Filter, now: Filter, next: Filter, key: Seq<u8>, i: int)
    requires
        now.marks(before, key, i),
        0 <= i,
        before.probe_fits(key, i),
        next.num_bits == now.num_bits,
        next.num_hashes == now.num_hashes,
        ({
            let b = probe(key, i, before.num_bits);
            next.words == now.words.update(
                b / 64,
                now.words[b / 64] | (1u64 << ((b % 64) as u64)),
            )
        }),
    ensures
        next.marks(before, key, i + 1),
{
    let p = probe(key, i, before.num_bits);
    lemma_probe_bounds(key, i, before.num_bits);
    assert forall|b: int| 0 <= b < 64 * next.words.len() implies (#[trigger] next.bit(b)
        <==> before.bit(b) || before.probed(key, i + 1, b)) by {
        assert(now.bit(b) <==> before.bit(b) || before.probed(key, i, b));
        if b / 64 == p / 64 {
            lemma_set_bit(now.words[p / 64], (p % 64) as u64, (b % 64) as u64);
        }
        assert(next.bit(b) <==> now.bit(b) || b == p);
        if before.probed(key, i, b) {
            let j = choose|j: int| 0 <= j < i && #[trigger] probe(key, j, before.num_bits) == b;
            assert(0 <= j < i + 1 && probe(key, j, before.num_bits) == b);
        }
    }
}

/// The bytes of several words, one behind the other.
pub open spec fn words_bytes(words: Seq<u64>) -> Seq<u8>
    decreases words.len(),
{
    if words.len() == 0 {
        Seq::empty()
    } else {
        words_bytes(words.drop_last()) + codec::le_bytes(words.last() as nat, 8)
    }
}

/// The stored form of a filter: `num_bits:4 | num_hashes:4 | words`.
pub open spec fn stored(filter: Filter) -> Seq<u8> {
    codec::le_bytes(filter.num_bits, 4) + codec::le_bytes(filter.num_hashes as nat, 4)
        + words_bytes(filter.words)
}

/// The word that starts at a byte of a stored filter.
pub open spec fn word_at(data: Seq<u8>, at: int) -> u64 {
    codec::le_value(data.subrange(at, at + 8)) as u64
}

/// The filter that a byte string stores, if it has the right length for one.
pub open spec fn loaded(data: Seq<u8>) -> Option<Filter> {
    if data.len() < 8 || (data.len() - 8) % 8 != 0 {
        None
    } else {
        Some(
            Filter {
                words: Seq::new(
                    ((data.len() - 8) / 8) as nat,
                    |i: int| word_at(data, 8 + 8 * i),
                ),
                num_bits: codec::le_value(data.subrange(0, 4)),
                num_hashes: codec::le_value(data.subrange(4, 8)) as u32,
            },
        )
    }
}

impl BloomFilter {
    /// The hashes that the probes of a key are made from.
    pub fn hashes(key: &[u8]) -> (r: (u64, u64))
        ensures
            r == hashes_of(key@),
    {
        let h1: u64 = fnv1a(key, FIRST_SEED);
        let h2: u64 = fnv1a(key, SECOND_SEED);
        (h1, h2 | 1)
    }

    /// An empty filter of `m` bits and `k` probes per key, as far as the limits
    /// allow: the bits are rounded up to whole words and to at least
    /// [`MIN_BITS`], the probes are at least one and at most [`MAX_HASHES`].
    pub fn with_size(m: usize, k: u32) -> (filter: BloomFilter)
        requires
            m + 63 <= usize::MAX,
        ensures
            filter@.num_bits == 64 * filter@.words.len(),
            filter@.words.len() == (vstd::math::max(m as int, MIN_BITS as int) + 63) / 64,
            filter@.num_hashes == vstd::math::min(
                vstd::math::max(k as int, 1),
                MAX_HASHES as int,
            ),
            forall|b: int| 0 <= b < filter@.num_bits ==> !(#[trigger] filter@.bit(b)),
            filter@.well_formed(),
    {
        let m: usize = if m < MIN_BITS {
            MIN_BITS
        } else {
            m
        };
        let k: u32 = if k < 1 {
            1
        } else if k > MAX_HASHES {
            MAX_HASHES
        } else {
            k
        };
        let num_words: usize = (m + 63) / 64;
        let filter = BloomFilter {
            bits: vec![0u64; num_words],
            num_bits: num_words * 64,
            num_hashes: k,
        };
        assert forall|b: int| 0 <= b < filter@.num_bits implies !(#[trigger] filter@.bit(b)) by {
            lemma_zero_word((b % 64) as u64);
        }
        filter
    }

    /// Whether there is at least one bit, and a word for each of them.
    ///
    /// A filter that came from outside need not be like this.
    pub fn is_well_formed(&self) -> (r: bool)
        ensures
            r == self@.well_formed(),
    {
        0 < self.num_bits && (self.num_bits - 1) / 64 < self.bits.len()
    }

    /// Adds a key.
    pub fn insert(&mut self, key: &[u8])
        requires
            old(self)@.well_formed() || old(self)@.probes_fit(key@),
        ensures
            final(self)@.inserts(old(self)@, key@),
    {
        proof {
            if self@.well_formed() {
                lemma_well_formed_fits(self@, key@);
            }
        }
        let (h1, h2) = Self::hashes(key);
        let mut i: u64 = 0;
        while i < self.num_hashes as u64
            invariant
                i <= self.num_hashes,
                (h1, h2) == hashes_of(key@),
                old(self)@.probes_fit(key@),
                self@.marks(old(self)@, key@, i as int),
            decreases self.num_hashes - i,
        {
            let ghost now = self@;
            proof {
                assert(old(self)@.probe_fits(key@, i as int));
                lemma_wrapped_probe(h1, h2, i);
                lemma_probe_bounds(key@, i as int, now.num_bits);
            }
            let idx: usize = (h1.wrapping_add(i.wrapping_mul(h2)) as usize) % self.num_bits;
            assert(idx == probe(key@, i as int, now.num_bits));
            self.bits[idx / 64] = self.bits[idx / 64] | (1u64 << ((idx % 64) as u64));
            proof {
                lemma_marks_one_more(old(self)@, now, self@, key@, i as int);
            }
            i = i + 1;
        }
    }

    /// Whether a key may have been added. If it was, the answer is `true`.
    pub fn contains(&self, key: &[u8]) -> (r: bool)
        requires
            self@.well_formed() || self@.lookup_fits(key@),
        ensures
            r == self@.may_contain(key@),
    {
        proof {
            if self@.well_formed() {
                lemma_well_formed_fits(self@, key@);
            }
        }
        let (h1, h2) = Self::hashes(key);
        let mut i: u64 = 0;
        while i < self.num_hashes as u64
            invariant
                i <= self.num_hashes,
                (h1, h2) == hashes_of(key@),
                self@.lookup_fits(key@),
                self@.hits(key@, i as int),
            decreases self.num_hashes - i,
        {
            proof {
                assert(self@.probe_fits(key@, i as int));
                lemma_wrapped_probe(h1, h2, i);
                lemma_probe_bounds(key@, i as int, self@.num_bits);
            }
            let idx: usize = (h1.wrapping_add(i.wrapping_mul(h2)) as usize) % self.num_bits;
            assert(idx == probe(key@, i as int, self@.num_bits));
            proof {
                lemma_test_bit(self.bits[idx as int / 64], (idx % 64) as u64);
            }
            if self.bits[idx / 64] & (1u64 << ((idx % 64) as u64)) == 0 {
                assert(!self@.bit(probe(key@, i as int, self@.num_bits)));
                return false;
            }
            i = i + 1;
        }
        true
    }

    /// The filter as bytes: `num_bits:4 | num_hashes:4 | words`.
    ///
    /// Of the number of bits, only the four low-order bytes are kept.
    pub fn serialize(&self) -> (out: Vec<u8>)
        ensures
            out@ == stored(self@),
    {
        let mut out: Vec<u8> = Vec::new();
        codec::push_le(&mut out, self.num_bits as u64, 4);
        codec::push_le(&mut out, self.num_hashes as u64, 4);
        let ghost head = out@;
        let mut i: usize = 0;
        assert(self.bits@.take(0) =~= Seq::<u64>::empty());
        assert(head + Seq::<u8>::empty() =~= head);
        while i < self.bits.len()
            invariant
                i <= self.bits.len(),
                out@ == head + words_bytes(self.bits@.take(i as int)),
            decreases self.bits.len() - i,
        {
            proof {
                let done = self.bits@.take(i + 1);
                assert(done.drop_last() =~= self.bits@.take(i as int));
                assert(head + words_bytes(self.bits@.take(i as int)) + codec::le_bytes(
                    self.bits[i as int] as nat,
                    8,
                ) =~= head + words_bytes(done));
            }
            codec::push_le(&mut out, self.bits[i], 8);
            i = i + 1;
        }
        assert(self.bits@.take(i as int) =~= self.bits@);
        assert(out@ =~= stored(self@));
        out
    }

    /// The filter that `data` stores, if `data` has the right length for one.
    ///
    /// Whether the number of bits agrees with the number of words is left
    /// unchecked; see [`BloomFilter::is_well_formed`].
    pub fn deserialize(data: &[u8]) -> (r: Option<BloomFilter>)
        ensures
            match r {
                Some(filter) => loaded(data@) == Some(filter@),
                None => loaded(data@) is None,
            },
    {
        if data.len() < 8 {
            return None;
        }
        let num_bits: u64 = codec::read_le(data, 0, 4);
        let num_hashes: u64 = codec::read_le(data, 4, 4);
        proof {
            codec::lemma_capacities();
            codec::lemma_le_value_bound(data@.subrange(0, 4));
            codec::lemma_le_value_bound(data@.subrange(4, 8));
        }
        if (data.len() - 8) % 8 != 0 {
            return None;
        }
        let n: usize = (data.len() - 8) / 8;
        let mut bits: Vec<u64> = Vec::with_capacity(n);
        while bits.len() < n
            invariant
                bits.len() <= n,
                8 + 8 * n == data.len(),
                forall|j: int|
                    0 <= j < bits.len() ==> #[trigger] bits@[j] == word_at(data@, 8 + 8 * j),
            decreases n - bits.len(),
        {
            let at: usize = 8 + 8 * bits.len();
            let word: u64 = codec::read_le(data, at, 8);
            bits.push(word);
        }
        let filter = BloomFilter {
            bits,
            num_bits: num_bits as usize,
            num_hashes: num_hashes as u32,
        };
        assert(filter@ =~= loaded(data@)->0);
        Some(filter)
    }
}

/// The step between two probes of a key is odd, so it shares no factor with a
/// power of two.
pub proof fn law_probe_step_is_odd(key: Seq<u8>)
    ensures
        hashes_of(key).1 % 2 == 1,
{
    let h = fnv1a_of(key, SECOND_SEED);
    assert((h | 1) % 2 == 1) by (bit_vector);
}

/// A key that was just inserted is found.
pub proof fn law_inserted_key_is_found(before: Filter, after: Filter, key: Seq<u8>)
    requires
        before.probes_fit(key),
        after.inserts(before, key),
    ensures
        after.may_contain(key),
{
    assert forall|i: int| 0 <= i < after.num_hashes implies after.bit(
        #[trigger] probe(key, i, after.num_bits),
    ) by {
        assert(before.probe_fits(key, i));
        lemma_probe_bounds(key, i, before.num_bits);
        let b = probe(key, i, before.num_bits);
        assert(before.probed(key, before.num_hashes as int, b));
    }
}

/// A key that was found is still found after another one was inserted.
pub proof fn law_insert_keeps_other_keys(
    before: Filter,
    after: Filter,
    key: Seq<u8>,
    other: Seq<u8>,
)
    requires
        before.probes_fit(other),
        before.may_contain(other),
        after.inserts(before, key),
    ensures
        after.may_contain(other),
{
    assert forall|i: int| 0 <= i < after.num_hashes implies after.bit(
        #[trigger] probe(other, i, after.num_bits),
    ) by {
        assert(before.probe_fits(other, i));
        lemma_probe_bounds(other, i, before.num_bits);
        assert(before.bit(probe(other, i, before.num_bits)));
    }
}

/// There are no false negatives: a filter that went through `states`, each of
/// them the one before with the next of `keys` inserted, finds all the keys.
pub proof fn law_no_false_negatives(states: Seq<Filter>, keys: Seq<Seq<u8>>, k: int)
    requires
        states.len() == keys.len() + 1,
        states[0].well_formed(),
        forall|i: int|
            0 <= i < keys.len() ==> (#[trigger] states[i + 1]).inserts(states[i], keys[i]),
        0 <= k < keys.len(),
    ensures
        states.last().well_formed(),
        states.last().may_contain(keys[k]),
    decreases keys.len(),
{
    let n = keys.len() - 1;
    let earlier = states.drop_last();
    assert(states[n + 1].inserts(states[n], keys[n]));
    assert forall|i: int| 0 <= i < n implies (#[trigger] earlier[i + 1]).inserts(
        earlier[i],
        keys.drop_last()[i],
    ) by {
        assert(states[i + 1].inserts(states[i], keys[i]));
    }
    if n > 0 {
        law_no_false_negatives(earlier, keys.drop_last(), if k < n { k } else { 0 });
    }
    lemma_well_formed_fits(states[n], keys[k]);
    if k < n {
        law_insert_keeps_other_keys(states[n], states[n + 1], keys[n], keys[k]);
    } else {
        law_inserted_key_is_found(states[n], states[n + 1], keys[n]);
    }
}

/// A filter without a set bit finds no key.
pub proof fn law_empty_filter_finds_nothing(filter: Filter, key: Seq<u8>)
    requires
        filter.well_formed(),
        filter.num_hashes > 0,
        forall|b: int| 0 <= b < filter.num_bits ==> !(#[trigger] filter.bit(b)),
    ensures
        !filter.may_contain(key),
{
    lemma_probe_bounds(key, 0, filter.num_bits);
    assert(!filter.bit(probe(key, 0, filter.num_bits)));
}

/// Two words without a bit at or above `n` are equal if their lower bits are.
proof fn lemma_word_from_bits(x: u64, y: u64, n: u64)
    requires
        n <= 64,
        n < 64 ==> x >> n == 0 && y >> n == 0,
        forall|j: u64| j < n ==> word_bit(x, j) == word_bit(y, j),
    ensures
        x == y,
    decreases n,
{
    if n == 0 {
        assert(x >> 0 == x && y >> 0 == y) by (bit_vector);
    } else {
        let m = (n - 1) as u64;
        assert(m < 64 ==> (x >> 1) >> m == 0) by (bit_vector)
            requires
                m < 64,
                m < 63 ==> x >> ((m + 1) as u64) == 0,
        ;
        assert(m < 64 ==> (y >> 1) >> m == 0) by (bit_vector)
            requires
                m < 64,
                m < 63 ==> y >> ((m + 1) as u64) == 0,
        ;
        assert forall|j: u64| j < m implies word_bit(x >> 1, j) == word_bit(y >> 1, j) by {
            let k = (j + 1) as u64;
            assert(word_bit(x, k) == word_bit(y, k));
            assert((x >> 1) >> j == x >> k && (y >> 1) >> j == y >> k) by (bit_vector)
                requires
                    j < 63,
                    k == j + 1,
            ;
        }
        lemma_word_from_bits(x >> 1, y >> 1, m);
        assert(word_bit(x, 0) == word_bit(y, 0));
        assert(x == y) by (bit_vector)
            requires
                x >> 1 == y >> 1,
                ((x >> 0) & 1 == 1) == ((y >> 0) & 1 == 1),
        ;
    }
}

/// Inserting a key has only one result: the bits that it sets fix the filter.
pub proof fn law_insert_is_determined(before: Filter, one: Filter, two: Filter, key: Seq<u8>)
    requires
        one.inserts(before, key),
        two.inserts(before, key),
    ensures
        one == two,
{
    assert forall|w: int| 0 <= w < one.words.len() implies one.words[w] == two.words[w] by {
        assert forall|j: u64| j < 64 implies word_bit(one.words[w], j) == word_bit(
            two.words[w],
            j,
        ) by {
            let b = 64 * w + j;
            assert(b / 64 == w && b % 64 == j);
            assert(one.bit(b) == two.bit(b));
        }
        lemma_word_from_bits(one.words[w], two.words[w], 64);
    }
    assert(one =~= two);
}

proof fn lemma_words_bytes(words: Seq<u64>)
    ensures
        words_bytes(words).len() == 8 * words.len(),
        forall|i: int|
            0 <= i < words.len() ==> words_bytes(words).subrange(8 * i, 8 * i + 8)
                == codec::le_bytes(#[trigger] words[i] as nat, 8),
    decreases words.len(),
{
    if words.len() > 0 {
        let n = words.len() - 1;
        let init = words.drop_last();
        lemma_words_bytes(init);
        codec::lemma_le_bytes_len(words.last() as nat, 8);
        assert forall|i: int| 0 <= i < words.len() implies words_bytes(words).subrange(
            8 * i,
            8 * i + 8,
        ) == codec::le_bytes(#[trigger] words[i] as nat, 8) by {
            if i < n {
                assert(init[i] == words[i]);
                assert(words_bytes(words).subrange(8 * i, 8 * i + 8) =~= words_bytes(
                    init,
                ).subrange(8 * i, 8 * i + 8));
            } else {
                assert(words_bytes(words).subrange(8 * i, 8 * i + 8) =~= codec::le_bytes(
                    words[i] as nat,
                    8,
                ));
            }
        }
    }
}

/// Loading a stored filter gives back the filter, so it answers every lookup as
/// before.
pub proof fn law_load_inverts_store(filter: Filter)
    requires
        filter.num_bits <= u32::MAX,
    ensures
        loaded(stored(filter)) == Some(filter),
{
    let data = stored(filter);
    let body = words_bytes(filter.words);
    codec::lemma_capacities();
    codec::lemma_le_bytes_len(filter.num_bits, 4);
    codec::lemma_le_bytes_len(filter.num_hashes as nat, 4);
    codec::lemma_le_value_of_bytes(filter.num_bits, 4);
    codec::lemma_le_value_of_bytes(filter.num_hashes as nat, 4);
    lemma_words_bytes(filter.words);
    assert(data.subrange(0, 4) =~= codec::le_bytes(filter.num_bits, 4));
    assert(data.subrange(4, 8) =~= codec::le_bytes(filter.num_hashes as nat, 4));
    assert forall|i: int| 0 <= i < filter.words.len() implies word_at(data, 8 + 8 * i)
        == #[trigger] filter.words[i] by {
        assert(data.subrange(8 + 8 * i, 16 + 8 * i) =~= body.subrange(8 * i, 8 * i + 8));
        codec::lemma_le_value_of_bytes(filter.words[i] as nat, 8);
    }
    assert(loaded(data)->0 =~= filter);
}

/// Whatever can be loaded is the stored form of the filter that comes out.
pub proof fn law_store_inverts_load(data: Seq<u8>)
    ensures
        loaded(data) matches Some(filter) ==> stored(filter) == data,
{
    if let Some(filter) = loaded(data) {
        let body = words_bytes(filter.words);
        codec::lemma_capacities();
        codec::lemma_le_value_bound(data.subrange(4, 8));
        codec::lemma_le_bytes_of_value(data.subrange(0, 4));
        codec::lemma_le_bytes_of_value(data.subrange(4, 8));
        lemma_words_bytes(filter.words);
        assert forall|b: int| 0 <= b < body.len() implies #[trigger] body[b] == data[8 + b] by {
            let i = b / 8;
            let chunk = data.subrange(8 + 8 * i, 16 + 8 * i);
            codec::lemma_le_value_bound(chunk);
            codec::lemma_le_bytes_of_value(chunk);
            assert(filter.words[i] == codec::le_value(chunk));
            assert(body.subrange(8 * i, 8 * i + 8)[b % 8] == chunk[b % 8]);
        }
        assert(stored(filter) =~= data);
    }
}

/// Multiplying by the FNV prime, in 64-bit arithmetic, can be undone: the prime is
/// odd.
proof fn lemma_prime_product_undone(z: u64)
    ensures
        ((z * 0x100000001b3) % 0x1_0000_0000_0000_0000 * 14886173955864302971)
            % 0x1_0000_0000_0000_0000 == z,
{
    let m = 0x1_0000_0000_0000_0000int;
    let p = 0x100000001b3int;
    let inverse = 14886173955864302971int;
    vstd::arithmetic::div_mod::lemma_mul_mod_noop_left(z * p, inverse, m);
    assert(p * inverse == 887285111055 * m + 1);
    assert((z * p) * inverse == m * (887285111055 * z) + z) by (nonlinear_arith)
        requires
            p * inverse == 887285111055 * m + 1,
    ;
    vstd::arithmetic::div_mod::lemma_mod_multiples_vanish(887285111055 * z, z as int, m);
    vstd::arithmetic::div_mod::lemma_small_mod(z as nat, m as nat);
}

proof fn lemma_prime_product_is_injective(x: u64, y: u64)
    requires
        (x * 0x100000001b3) % 0x1_0000_0000_0000_0000 == (y * 0x100000001b3)
            % 0x1_0000_0000_0000_0000,
    ensures
        x == y,
{
    lemma_prime_product_undone(x);
    lemma_prime_product_undone(y);
}

/// The hash takes in every byte of a key of any length: no bytes hash to the
/// seed, and each further byte is mixed into the hash so far and multiplied by
/// the FNV prime, in 64-bit arithmetic.
pub proof fn law_hash_takes_in_every_byte(s: Seq<u8>, b: u8, seed: u64)
    ensures
        fnv1a_of(Seq::<u8>::empty(), seed) == seed,
        fnv1a_of(s.push(b), seed) as int == ((fnv1a_of(s, seed) ^ (b as u64)) * 0x100000001b3)
            % 0x1_0000_0000_0000_0000,
{
    assert(s.push(b).drop_last() =~= s);
}

/// Two keys that end in the same bytes have the same hash only if what comes
/// before hashes alike.
pub proof fn law_hash_keeps_differences(s: Seq<u8>, t: Seq<u8>, tail: Seq<u8>, seed: u64)
    requires
        fnv1a_of(s, seed) != fnv1a_of(t, seed),
    ensures
        fnv1a_of(s + tail, seed) != fnv1a_of(t + tail, seed),
    decreases tail.len(),
{
    if tail.len() == 0 {
        assert(s + tail =~= s);
        assert(t + tail =~= t);
    } else {
        let init = tail.drop_last();
        let b = tail.last() as u64;
        law_hash_keeps_differences(s, t, init, seed);
        assert(s + tail =~= (s + init).push(tail.last()));
        assert(t + tail =~= (t + init).push(tail.last()));
        law_hash_takes_in_every_byte(s + init, tail.last(), seed);
        law_hash_takes_in_every_byte(t + init, tail.last(), seed);
        let x = fnv1a_of(s + init, seed);
        let y = fnv1a_of(t + init, seed);
        assert(x != y ==> x ^ b != y ^ b) by (bit_vector);
        if fnv1a_of(s + tail, seed) == fnv1a_of(t + tail, seed) {
            lemma_prime_product_is_injective(x ^ b, y ^ b);
        }
    }
}

/// Two keys that differ in one byte only, wherever it stands, have different
/// hashes.
pub proof fn law_hash_tells_single_bytes_apart(
    head: Seq<u8>,
    a: u8,
    b: u8,
    tail: Seq<u8>,
    seed: u64,
)
    requires
        a != b,
    ensures
        fnv1a_of(head.push(a) + tail, seed) != fnv1a_of(head.push(b) + tail, seed),
{
    let h = fnv1a_of(head, seed);
    law_hash_takes_in_every_byte(head, a, seed);
    law_hash_takes_in_every_byte(head, b, seed);
    assert(a != b ==> h ^ (a as u64) != h ^ (b as u64)) by (bit_vector);
    if fnv1a_of(head.push(a), seed) == fnv1a_of(head.push(b), seed) {
        lemma_prime_product_is_injective(h ^ (a as u64), h ^ (b as u64));
    }
    law_hash_keeps_differences(head.push(a), head.push(b), tail, seed);
}

/// The two hashes of a key are its FNV-1a hashes from two different seeds, the
/// second one made odd by adding one where it is even.
pub proof fn law_key_has_two_hashes(key: Seq<u8>)
    ensures
        hashes_of(key).0 == fnv1a_of(key, 0xcbf29ce484222325),
        hashes_of(key).1 as int == fnv1a_of(key, 0x84222325cbf29ce4) + if fnv1a_of(
            key,
            0x84222325cbf29ce4,
        ) % 2 == 0 {
            1int
        } else {
            0int
        },
{
    let h = fnv1a_of(key, 0x84222325cbf29ce4);
    assert((h | 1) == h + (if h % 2 == 0 { 1int } else { 0int })) by (bit_vector);
}

/// Each probe looks at the sum of the first hash and so many steps of the second,
/// in 64-bit arithmetic and as far as it fits in `usize`, modulo the number of
/// bits. Nothing else limits where it may fall.
pub proof fn law_probe_spreads_over_all_bits(key: Seq<u8>, i: int, num_bits: nat)
    requires
        num_bits > 0,
    ensures
        ({
            let sum = (hashes_of(key).0 + i * hashes_of(key).1) % 0x1_0000_0000_0000_0000;
            &&& probe(key, i, num_bits) == (sum % (usize::MAX + 1)) % (num_bits as int)
            &&& usize::BITS == 64 ==> probe(key, i, num_bits) == sum % (num_bits as int)
        }),
{
    let sum = (hashes_of(key).0 + i * hashes_of(key).1) % 0x1_0000_0000_0000_0000;
    let x = sum as u64;
    assert(usize::BITS == 32 ==> x as usize as u64 == x % 0x1_0000_0000) by (bit_vector);
    if usize::BITS == 64 {
        vstd::arithmetic::div_mod::lemma_small_mod(x as nat, (usize::MAX + 1) as nat);
    }
}

/// Bit `b` is digit `b % 64`, in base two, of word `b / 64`.
pub proof fn law_bits_are_binary_digits(filter: Filter, b: int)
    requires
        0 <= b < 64 * filter.words.len(),
    ensures
        filter.bit(b) <==> (filter.words[b / 64] as int / vstd::arithmetic::power2::pow2(
            (b % 64) as nat,
        ) as int) % 2 == 1,
{
    let w = filter.words[b / 64];
    let j = (b % 64) as u64;
    vstd::bits::lemma_u64_shr_is_div(w, j);
    let q = w >> j;
    assert(q & 1 == q % 2) by (bit_vector);
}

/// A key counts as found exactly if each of its probes looks at a set bit.
pub proof fn law_found_means_every_probe_hits(filter: Filter, key: Seq<u8>)
    ensures
        filter.may_contain(key) <==> forall|i: int|
            0 <= i < filter.num_hashes ==> filter.bit(#[trigger] probe(key, i, filter.num_bits)),
{
}

/// Inserting a key sets the bits that its probes look at, keeps every other bit
/// and changes no size.
pub proof fn law_insert_sets_the_probed_bits(before: Filter, after: Filter, key: Seq<u8>, b: int)
    requires
        after.inserts(before, key),
        0 <= b < 64 * before.words.len(),
    ensures
        after.num_bits == before.num_bits,
        after.num_hashes == before.num_hashes,
        after.words.len() == before.words.len(),
        (exists|i: int|
            0 <= i < before.num_hashes && #[trigger] probe(key, i, before.num_bits) == b)
            ==> after.bit(b),
        (forall|i: int|
            0 <= i < before.num_hashes ==> #[trigger] probe(key, i, before.num_bits) != b)
            ==> after.bit(b) == before.bit(b),
{
    if exists|i: int|
        0 <= i < before.num_hashes && #[trigger] probe(key, i, before.num_bits) == b {
        assert(before.probed(key, before.num_hashes as int, b));
    }
}

/// Into an empty filter, inserting one key brings no other than those whose
/// probes all coincide with probes of that key: a key with a probe of its own is
/// not found.
pub proof fn law_probe_of_its_own_is_not_found(
    before: Filter,
    after: Filter,
    key: Seq<u8>,
    other: Seq<u8>,
    i: int,
)
    requires
        0 < before.num_bits <= 64 * before.words.len(),
        forall|b: int| 0 <= b < 64 * before.words.len() ==> !(#[trigger] before.bit(b)),
        after.inserts(before, key),
        0 <= i < before.num_hashes,
        forall|j: int|
            0 <= j < before.num_hashes ==> #[trigger] probe(key, j, before.num_bits) != probe(
                other,
                i,
                before.num_bits,
            ),
    ensures
        !after.may_contain(other),
{
    let b = probe(other, i, before.num_bits);
    lemma_probe_bounds(other, i, before.num_bits);
    law_insert_sets_the_probed_bits(before, after, key, b);
    assert(!before.bit(b));
}

/// A filter is well formed exactly if it has a bit, and a word for each bit. A
/// probe fits exactly if it lies within the words, and inserting asks that of
/// all probes, looking up only of those before the first clear bit.
pub proof fn law_well_formed_in_numbers(filter: Filter, key: Seq<u8>, i: int)
    ensures
        filter.well_formed() <==> 0 < filter.num_bits && filter.num_bits <= 64
            * filter.words.len(),
        filter.probe_fits(key, i) <==> filter.num_bits > 0 && probe(key, i, filter.num_bits) < 64
            * filter.words.len(),
        (forall|j: int| 0 <= j < filter.num_hashes ==> #[trigger] filter.probe_fits(key, j))
            ==> filter.probes_fit(key) && filter.lookup_fits(key),
        filter.probes_fit(key) && 0 <= i < filter.num_hashes ==> filter.probe_fits(key, i),
        filter.lookup_fits(key) && 0 <= i < filter.num_hashes && (forall|j: int|
            0 <= j < i ==> filter.bit(#[trigger] probe(key, j, filter.num_bits)))
            ==> filter.probe_fits(key, i),
{
}

/// What a stored filter looks like, byte by byte: the number of bits, the number
/// of probes, then the words, each of them in little-endian order.
pub proof fn law_stored_filter_layout(filter: Filter)
    ensures
        stored(filter).len() == 8 + 8 * filter.words.len(),
        stored(filter).subrange(0, 4) == codec::le_bytes(filter.num_bits, 4),
        stored(filter).subrange(4, 8) == codec::le_bytes(filter.num_hashes as nat, 4),
        forall|i: int|
            0 <= i < filter.words.len() ==> stored(filter).subrange(8 + 8 * i, 16 + 8 * i)
                == codec::le_bytes(#[trigger] filter.words[i] as nat, 8),
{
    let data = stored(filter);
    let body = words_bytes(filter.words);
    codec::lemma_le_bytes_len(filter.num_bits, 4);
    codec::lemma_le_bytes_len(filter.num_hashes as nat, 4);
    lemma_words_bytes(filter.words);
    assert(data.subrange(0, 4) =~= codec::le_bytes(filter.num_bits, 4));
    assert(data.subrange(4, 8) =~= codec::le_bytes(filter.num_hashes as nat, 4));
    assert forall|i: int| 0 <= i < filter.words.len() implies data.subrange(8 + 8 * i, 16 + 8 * i)
        == codec::le_bytes(#[trigger] filter.words[i] as nat, 8) by {
        assert(data.subrange(8 + 8 * i, 16 + 8 * i) =~= body.subrange(8 * i, 8 * i + 8));
    }
}

/// A byte string stores a filter exactly if its length is a multiple of eight and
/// not zero.
pub proof fn law_loadable_lengths(data: Seq<u8>)
    ensures
        loaded(data) is Some <==> data.len() >= 8 && data.len() % 8 == 0,
{
}

/// The limits of a filter's size, the seeds and the prime.
pub proof fn law_filter_constants()
    ensures
        MIN_BITS == 64,
        MAX_HASHES == 32,
        FNV_PRIME == 0x100000001b3,
        FIRST_SEED == 0xcbf29ce484222325,
        SECOND_SEED == 0x84222325cbf29ce4,
{
}

} // verus!
