//! A Bloom filter over 64-bit items, stored as an array of 64-bit words.
//!
//! The filter probes one bit per item. Its mathematical model is the sequence
//! of its bits, and every operation is specified on that sequence.

use vstd::prelude::*;

verus! {

/// Odd multiplier that spreads an item over the 64-bit range before it is
/// reduced to a bit position.
pub const HASH_MULTIPLIER: u64 = 11400714819323198549u64;

/// The item after mixing: its product with `HASH_MULTIPLIER` modulo 2^64.
pub open spec fn mix(item: u64) -> u64 {
    ((item as int * HASH_MULTIPLIER as int) % 0x1_0000_0000_0000_0000) as u64
}

/// The bit position that `item` occupies in a filter of `num_bits` bits.
pub open spec fn slot(item: u64, num_bits: nat) -> int {
    mix(item) as int % num_bits as int
}

/// A filter of `num_bits` bits in which nothing was inserted.
pub open spec fn empty_bits(num_bits: nat) -> Seq<bool> {
    Seq::new(num_bits, |i: int| false)
}

/// The bits after inserting `item`.
pub open spec fn with_item(bits: Seq<bool>, item: u64) -> Seq<bool> {
    bits.update(slot(item, bits.len()), true)
}

/// The bits after inserting every element of `items`, first to last.
pub open spec fn with_items(bits: Seq<bool>, items: Seq<u64>) -> Seq<bool>
    decreases items.len(),
{
    if items.len() == 0 {
        bits
    } else {
        with_item(with_items(bits, items.drop_last()), items.last())
    }
}

/// Whether the bits report `item` as present.
pub open spec fn bits_contain(bits: Seq<bool>, item: u64) -> bool {
    bits[slot(item, bits.len())]
}

/// The bitwise OR of two bit sequences of one length.
pub open spec fn union_bits(a: Seq<bool>, b: Seq<bool>) -> Seq<bool> {
    Seq::new(a.len(), |i: int| a[i] || b[i])
}

/// The number of bits that a filter asked to hold `num_bits` bits really has:
/// whole words, at least one, and no more than a `usize` can count.
pub open spec fn capacity_for(num_bits: usize) -> nat {
    let words = if num_bits == 0 {
        1
    } else if (num_bits + 63) / 64 <= usize::MAX / 64 {
        (num_bits + 63) / 64
    } else {
        usize::MAX as int / 64
    };
    (words * 64) as nat
}

/// Bit `i` of the word `w`.
pub open spec fn word_bit(w: u64, i: u64) -> bool {
    (w >> i) & 1 == 1
}

proof fn lemma_zero_word(i: u64)
    requires
        i < 64,
    ensures
        !word_bit(0, i),
{
    assert((0u64 >> i) & 1 == 0) by (bit_vector)
        requires
            i < 64,
    ;
}

proof fn lemma_set_bit(w: u64, i: u64, j: u64)
    requires
        i < 64,
        j < 64,
    ensures
        word_bit(w | (1u64 << i), j) == (word_bit(w, j) || i == j),
{
    assert((((w | (1u64 << i)) >> j) & 1 == 1) == (((w >> j) & 1 == 1) || i == j))
        by (bit_vector)
        requires
            i < 64,
            j < 64,
    ;
}

proof fn lemma_or_bit(a: u64, b: u64, j: u64)
    requires
        j < 64,
    ensures
        word_bit(a | b, j) == (word_bit(a, j) || word_bit(b, j)),
{
    assert((((a | b) >> j) & 1 == 1) == (((a >> j) & 1 == 1) || ((b >> j) & 1 == 1)))
        by (bit_vector)
        requires
            j < 64,
    ;
}

proof fn lemma_test_bit(w: u64, j: u64)
    requires
        j < 64,
    ensures
        word_bit(w, j) == (w & (1u64 << j) != 0),
{
    assert(((w >> j) & 1 == 1) == (w & (1u64 << j) != 0)) by (bit_vector)
        requires
            j < 64,
    ;
}

/// The bits that a sequence of words holds, lowest bit of the first word first.
pub open spec fn bits_of(words: Seq<u64>) -> Seq<bool> {
    Seq::new(words.len() * 64, |k: int| word_bit(words[k / 64], (k % 64) as u64))
}

/// A Bloom filter with one probe per item.
pub struct BloomFilter {
    words: Vec<u64>,
}

impl View for BloomFilter {
    type V = Seq<bool>;

    closed spec fn view(&self) -> Seq<bool> {
        bits_of(self.words@)
    }
}

impl BloomFilter {
    /// The filter holds at least one word, and its bits can be counted.
    pub closed spec fn wf(&self) -> bool {
        1 <= self.words@.len() && self.words@.len() * 64 <= usize::MAX
    }

    /// An empty filter of `capacity_for(num_bits)` bits.
    pub fn new(num_bits: usize) -> (filter: BloomFilter)
        ensures
            filter.wf(),
            filter@ == empty_bits(capacity_for(num_bits)),
    {
        let full: usize = num_bits / 64;
        let len: usize = if num_bits == 0 {
            1
        } else if num_bits % 64 != 0 && full < usize::MAX / 64 {
            full + 1
        } else {
            full
        };
        let mut words: Vec<u64> = Vec::new();
        let mut i: usize = 0;
        while i < len
            invariant
                i <= len,
                words@.len() == i,
                forall|k: int| 0 <= k < i ==> words@[k] == 0,
            decreases len - i,
        {
            words.push(0u64);
            i = i + 1;
        }
        proof {
            assert(len * 64 == capacity_for(num_bits));
            assert forall|k: int| 0 <= k < len * 64 implies !#[trigger] bits_of(words@)[k] by {
                lemma_zero_word((k % 64) as u64);
            }
            assert(bits_of(words@) =~= empty_bits(capacity_for(num_bits)));
        }
        BloomFilter { words }
    }

    /// The number of bits of the filter.
    pub fn num_bits(&self) -> (n: usize)
        requires
            self.wf(),
        ensures
            n == self@.len(),
            n >= 64,
    {
        self.words.len() * 64
    }

    /// Whether the bit at `index` is set.
    pub fn bit(&self, index: usize) -> (set: bool)
        requires
            self.wf(),
            index < self@.len(),
        ensures
            set == self@[index as int],
    {
        let word: u64 = self.words[index / 64];
        let b: u64 = (index % 64) as u64;
        proof {
            lemma_test_bit(word, b);
        }
        word & (1u64 << b) != 0
    }

    /// Sets the bit of `item`.
    pub fn insert(&mut self, item: u64)
        requires
            old(self).wf(),
        ensures
            final(self).wf(),
            final(self)@ == with_item(old(self)@, item),
    {
        let num_bits: usize = self.words.len() * 64;
        let h: u64 = item.wrapping_mul(HASH_MULTIPLIER);
        let s: usize = (h % (num_bits as u64)) as usize;
        let w: usize = s / 64;
        let b: u64 = (s % 64) as u64;
        let word: u64 = self.words[w];
        self.words.set(w, word | (1u64 << b));
        proof {
            let before = bits_of(old(self).words@);
            let after = bits_of(self.words@);
            assert(s == slot(item, before.len()));
            assert forall|k: int| 0 <= k < after.len() implies after[k] == with_item(
                before,
                item,
            )[k] by {
                if k / 64 == w as int {
                    lemma_set_bit(word, b, (k % 64) as u64);
                }
            }
            assert(after =~= with_item(before, item));
        }
    }

    /// Whether the bit of `item` is set: true for every item that was inserted,
    /// and possibly for others.
    pub fn contains(&self, item: u64) -> (found: bool)
        requires
            self.wf(),
        ensures
            found == bits_contain(self@, item),
    {
        let num_bits: usize = self.words.len() * 64;
        let h: u64 = item.wrapping_mul(HASH_MULTIPLIER);
        let s: usize = (h % (num_bits as u64)) as usize;
        let b: u64 = (s % 64) as u64;
        let word: u64 = self.words[s / 64];
        proof {
            lemma_test_bit(word, b);
        }
        word & (1u64 << b) != 0
    }

    /// Folds `other` into this filter by bitwise OR. Both filters must have the
    /// same number of bits.
    pub fn merge(&mut self, other: BloomFilter)
        requires
            old(self).wf(),
            other.wf(),
            old(self)@.len() == other@.len(),
        ensures
            final(self).wf(),
            final(self)@ == union_bits(old(self)@, other@),
    {
        let len: usize = self.words.len();
        let mut i: usize = 0;
        while i < len
            invariant
                i <= len,
                len == self.words@.len(),
                len == other.words@.len(),
                len == old(self).words@.len(),
                forall|k: int| 0 <= k < i ==> self.words@[k] == old(self).words@[k] | other.words@[k],
                forall|k: int| i <= k < len ==> self.words@[k] == old(self).words@[k],
            decreases len - i,
        {
            let merged: u64 = self.words[i] | other.words[i];
            self.words.set(i, merged);
            i = i + 1;
        }
        proof {
            let a = bits_of(old(self).words@);
            let b = bits_of(other.words@);
            let r = bits_of(self.words@);
            assert forall|k: int| 0 <= k < r.len() implies r[k] == (a[k] || b[k]) by {
                lemma_or_bit(old(self).words@[k / 64], other.words@[k / 64], (k % 64) as u64);
            }
            assert(r =~= union_bits(a, b));
        }
    }
}

} // verus!
