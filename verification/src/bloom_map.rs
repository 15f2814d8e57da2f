//! A Bloom filter split into independent partitions. An item goes to the
//! partition that its value selects, so that inserts for different partitions
//! never touch the same filter. Reading happens after `finalize`, which folds
//! all partitions into a single filter.

use crate::bloom::{bits_contain, capacity_for, empty_bits, slot, with_item, with_items, BloomFilter};
use crate::webgraph::NodeID;
use vstd::prelude::*;

verus! {

/// `n` empty partitions of `num_bits` bits each.
pub open spec fn empty_parts(n: nat, num_bits: nat) -> Seq<Seq<bool>> {
    Seq::new(n, |p: int| empty_bits(num_bits))
}

/// The partition that receives `item` among `n` partitions.
pub open spec fn route(item: u64, n: nat) -> int {
    item as int % n as int
}

/// The partitions after inserting `item`.
pub open spec fn parts_with_item(parts: Seq<Seq<bool>>, item: u64) -> Seq<Seq<bool>> {
    let p = route(item, parts.len());
    parts.update(p, with_item(parts[p], item))
}

/// The partitions after inserting every element of `items`, first to last.
pub open spec fn parts_with_items(parts: Seq<Seq<bool>>, items: Seq<u64>) -> Seq<Seq<bool>>
    decreases items.len(),
{
    if items.len() == 0 {
        parts
    } else {
        parts_with_item(parts_with_items(parts, items.drop_last()), items.last())
    }
}

/// The union of all partitions: a bit is set if some partition has it set.
pub open spec fn merged(parts: Seq<Seq<bool>>) -> Seq<bool> {
    Seq::new(parts[0].len(), |i: int| exists|p: int| 0 <= p < parts.len() && #[trigger] parts[p][i])
}

/// At least one partition, all with the same positive number of bits.
pub open spec fn uniform(parts: Seq<Seq<bool>>) -> bool {
    &&& parts.len() > 0
    &&& parts[0].len() > 0
    &&& forall|p: int| 0 <= p < parts.len() ==> (#[trigger] parts[p]).len() == parts[0].len()
}

proof fn lemma_with_item_keeps_uniform(parts: Seq<Seq<bool>>, item: u64)
    requires
        uniform(parts),
    ensures
        uniform(parts_with_item(parts, item)),
        parts_with_item(parts, item).len() == parts.len(),
        parts_with_item(parts, item)[0].len() == parts[0].len(),
{
    let after = parts_with_item(parts, item);
    assert forall|p: int| 0 <= p < after.len() implies (#[trigger] after[p]).len()
        == parts[0].len() by {
        assert(parts[p].len() == parts[0].len());
    }
}

proof fn lemma_with_items_keeps_uniform(parts: Seq<Seq<bool>>, items: Seq<u64>)
    requires
        uniform(parts),
    ensures
        uniform(parts_with_items(parts, items)),
        parts_with_items(parts, items).len() == parts.len(),
        parts_with_items(parts, items)[0].len() == parts[0].len(),
    decreases items.len(),
{
    if items.len() > 0 {
        lemma_with_items_keeps_uniform(parts, items.drop_last());
        lemma_with_item_keeps_uniform(parts_with_items(parts, items.drop_last()), items.last());
    }
}

/// Inserting into the partitions and then merging gives the same bits as
/// merging first and inserting into the single filter.
pub proof fn lemma_merged_with_item(parts: Seq<Seq<bool>>, item: u64)
    requires
        uniform(parts),
    ensures
        merged(parts_with_item(parts, item)) == with_item(merged(parts), item),
{
    let after = parts_with_item(parts, item);
    let r = route(item, parts.len());
    let bits = parts[0].len();
    let s = slot(item, bits);
    lemma_with_item_keeps_uniform(parts, item);
    assert(parts[r].len() == bits);
    assert(0 <= s < bits);
    let lhs = merged(after);
    let rhs = with_item(merged(parts), item);
    assert forall|i: int| 0 <= i < bits implies lhs[i] == rhs[i] by {
        if i == s {
            assert(after[r][i]);
        } else if lhs[i] {
            let p = choose|p: int| 0 <= p < after.len() && #[trigger] after[p][i];
            assert(parts[p][i]);
        } else if rhs[i] {
            let p = choose|p: int| 0 <= p < parts.len() && #[trigger] parts[p][i];
            assert(parts[p].len() == bits);
            assert(after[p][i]);
        }
    }
    assert(lhs =~= rhs);
}

/// Finalizing equals sequential insertion: whatever the items and their
/// order, the partitions that received them merge into exactly the bits of a
/// single filter that received the same items one after the other.
pub proof fn law_finalize_is_sequential(n: nat, num_bits: nat, items: Seq<u64>)
    requires
        n > 0,
        num_bits > 0,
    ensures
        merged(parts_with_items(empty_parts(n, num_bits), items)) == with_items(
            empty_bits(num_bits),
            items,
        ),
    decreases items.len(),
{
    let start = empty_parts(n, num_bits);
    assert(uniform(start));
    if items.len() == 0 {
        assert forall|i: int| 0 <= i < num_bits implies !merged(start)[i] by {}
        assert(merged(start) =~= empty_bits(num_bits));
    } else {
        law_finalize_is_sequential(n, num_bits, items.drop_last());
        lemma_with_items_keeps_uniform(start, items.drop_last());
        lemma_merged_with_item(parts_with_items(start, items.drop_last()), items.last());
    }
}

/// A filter reports every item that was inserted into it.
pub proof fn lemma_inserted_is_contained(bits: Seq<bool>, items: Seq<u64>, k: int)
    requires
        bits.len() > 0,
        0 <= k < items.len(),
    ensures
        with_items(bits, items).len() == bits.len(),
        bits_contain(with_items(bits, items), items[k]),
    decreases items.len(),
{
    lemma_with_items_len(bits, items);
    lemma_with_items_len(bits, items.drop_last());
    let s = slot(items[k], bits.len());
    assert(0 <= s < bits.len());
    if k == items.len() - 1 {
    } else {
        lemma_inserted_is_contained(bits, items.drop_last(), k);
    }
}

/// Inserting leaves the number of bits unchanged.
pub proof fn lemma_with_items_len(bits: Seq<bool>, items: Seq<u64>)
    requires
        bits.len() > 0,
    ensures
        with_items(bits, items).len() == bits.len(),
    decreases items.len(),
{
    if items.len() > 0 {
        lemma_with_items_len(bits, items.drop_last());
        let s = slot(items.last(), bits.len());
        assert(0 <= s < bits.len());
    }
}

/// A Bloom filter in partitions.
pub struct BloomMap {
    map: Vec<BloomFilter>,
}

impl View for BloomMap {
    type V = Seq<Seq<bool>>;

    closed spec fn view(&self) -> Seq<Seq<bool>> {
        Seq::new(self.map@.len(), |p: int| self.map@[p]@)
    }
}

impl BloomMap {
    /// Every partition is a well-formed filter.
    pub closed spec fn wf(&self) -> bool {
        forall|p: int| 0 <= p < self.map@.len() ==> (#[trigger] self.map@[p]).wf()
    }

    /// `num_blooms` empty partitions, each a filter made for `num_bits` bits.
    pub fn new(num_blooms: usize, num_bits: usize) -> (map: BloomMap)
        requires
            num_blooms > 0,
        ensures
            map.wf(),
            uniform(map@),
            map@ == empty_parts(num_blooms as nat, capacity_for(num_bits)),
    {
        let mut map: Vec<BloomFilter> = Vec::new();
        let mut i: usize = 0;
        while i < num_blooms
            invariant
                i <= num_blooms,
                map@.len() == i,
                forall|p: int| 0 <= p < i ==> (#[trigger] map@[p]).wf(),
                forall|p: int| 0 <= p < i ==> (#[trigger] map@[p])@ == empty_bits(capacity_for(num_bits)),
            decreases num_blooms - i,
        {
            map.push(BloomFilter::new(num_bits));
            i = i + 1;
        }
        let result = BloomMap { map };
        assert(result@ =~= empty_parts(num_blooms as nat, capacity_for(num_bits)));
        result
    }

    /// The partition that receives `item` among `num_blooms` partitions.
    pub fn partition(item: &NodeID, num_blooms: usize) -> (p: usize)
        requires
            num_blooms > 0,
        ensures
            p == route(item.0, num_blooms as nat),
            p < num_blooms,
    {
        (item.as_u64() % (num_blooms as u64)) as usize
    }

    /// The partitions, in order.
    pub fn into_parts(self) -> (parts: Vec<BloomFilter>)
        requires
            self.wf(),
        ensures
            parts@.len() == self@.len(),
            forall|p: int| 0 <= p < parts@.len() ==> (#[trigger] parts@[p]).wf() && parts@[p]@ == self@[p],
    {
        self.map
    }

    /// The map of the given partitions, or `None` if there is none or if they
    /// differ in their number of bits.
    pub fn from_parts(parts: Vec<BloomFilter>) -> (map: Option<BloomMap>)
        requires
            forall|p: int| 0 <= p < parts@.len() ==> (#[trigger] parts@[p]).wf(),
        ensures
            map is Some <==> parts@.len() > 0 && forall|p: int|
                0 <= p < parts@.len() ==> (#[trigger] parts@[p])@.len() == parts@[0]@.len(),
            map matches Some(m) ==> m.wf() && uniform(m@) && m@.len() == parts@.len() && forall|
                p: int,
            | 0 <= p < parts@.len() ==> m@[p] == (#[trigger] parts@[p])@,
    {
        if parts.len() == 0 {
            return None;
        }
        let bits: usize = parts[0].num_bits();
        let mut i: usize = 1;
        while i < parts.len()
            invariant
                1 <= i <= parts@.len(),
                bits == parts@[0]@.len(),
                forall|p: int| 0 <= p < parts@.len() ==> (#[trigger] parts@[p]).wf(),
                forall|p: int| 0 <= p < i ==> (#[trigger] parts@[p])@.len() == bits,
            decreases parts@.len() - i,
        {
            if parts[i].num_bits() != bits {
                return None;
            }
            i = i + 1;
        }
        let map = BloomMap { map: parts };
        assert(map@[0] == parts@[0]@);
        Some(map)
    }

    /// Inserts the number of `item` into the partition that it selects.
    pub fn insert(&mut self, item: &NodeID)
        requires
            old(self).wf(),
            uniform(old(self)@),
        ensures
            final(self).wf(),
            uniform(final(self)@),
            final(self)@ == parts_with_item(old(self)@, item.0),
    {
        let h: u64 = item.as_u64();
        let n: usize = self.map.len();
        let p: usize = Self::partition(item, n);
        assert(self@.len() == n);
        assert(p == route(h, old(self)@.len()));
        self.map[p].insert(h);
        proof {
            assert(self@ =~= parts_with_item(old(self)@, h));
            lemma_with_item_keeps_uniform(old(self)@, h);
        }
    }

    /// Folds all partitions into a single filter.
    pub fn finalize(self) -> (filter: BloomFilter)
        requires
            self.wf(),
            uniform(self@),
        ensures
            filter.wf(),
            filter@ == merged(self@),
    {
        let ghost parts = self@;
        let mut map: Vec<BloomFilter> = self.map;
        assert(map@.len() == parts.len());
        assert(forall|p: int| 0 <= p < map@.len() ==> (#[trigger] map@[p])@ == parts[p]);
        let mut bf: BloomFilter = map.pop().unwrap();
        assert(bf@ == parts[parts.len() - 1]);
        while map.len() > 0
            invariant
                uniform(parts),
                bf.wf(),
                map@.len() < parts.len(),
                bf@.len() == parts[0].len(),
                forall|p: int| 0 <= p < map@.len() ==> (#[trigger] map@[p]).wf(),
                forall|p: int| 0 <= p < map@.len() ==> (#[trigger] map@[p])@ == parts[p],
                forall|i: int|
                    0 <= i < bf@.len() ==> (bf@[i] <==> exists|p: int|
                        map@.len() <= p < parts.len() && #[trigger] parts[p][i]),
            decreases map@.len(),
        {
            let ghost before = bf@;
            let ghost k = map@.len() - 1;
            match map.pop() {
                Some(m) => {
                    assert(m@ == parts[k]);
                    bf.merge(m);
                    proof {
                        assert forall|i: int| 0 <= i < bf@.len() implies (bf@[i] <==> exists|p: int|
                            k <= p < parts.len() && #[trigger] parts[p][i]) by {
                            if before[i] {
                                let p = choose|p: int|
                                    k + 1 <= p < parts.len() && #[trigger] parts[p][i];
                                assert(parts[p][i]);
                            }
                            if parts[k][i] {
                                assert(bf@[i]);
                            }
                        }
                    }
                },
                None => {},
            }
        }
        assert(bf@ =~= merged(parts));
        bf
    }
}

} // verus!
