//! In-memory sorted table backing the "hot" write path.
//!
//! The entries stand in a vector, in strictly ascending key order, so each key
//! occurs at most once. Keys are compared byte by byte.

use crate::codec;
use vstd::prelude::*;

verus! {

/// What every entry costs beyond its key and value, roughly.
pub const ENTRY_OVERHEAD: usize = 16;

/// A single slot in the memtable: no value represents a tombstone (delete).
#[derive(Debug, PartialEq, Eq)]
pub struct MemValue {
    pub value: Option<Vec<u8>>,
    pub seq: u64,
}

/// What a [`MemValue`] says, with its bytes as a sequence.
pub struct Slot {
    pub value: Option<Seq<u8>>,
    pub seq: u64,
}

impl View for MemValue {
    type V = Slot;

    open spec fn view(&self) -> Slot {
        Slot {
            value: match self.value {
                Some(bytes) => Some(bytes@),
                None => None,
            },
            seq: self.seq,
        }
    }
}

impl Clone for MemValue {
    fn clone(&self) -> (r: MemValue)
        ensures
            r@ == self@,
    {
        let value = match &self.value {
            Some(bytes) => Some(codec::copy_bytes(bytes)),
            None => None,
        };
        MemValue { value, seq: self.seq }
    }
}

/// Whether `a` comes before `b` in byte-by-byte order. A prefix comes first.
pub open spec fn key_less(a: Seq<u8>, b: Seq<u8>) -> bool
    decreases a.len(),
{
    if b.len() == 0 {
        false
    } else if a.len() == 0 {
        true
    } else {
        a[0] < b[0] || (a[0] == b[0] && key_less(a.skip(1), b.skip(1)))
    }
}

/// How two keys stand to each other.
#[derive(Debug, Clone, Copy, PartialEq, Eq)]
pub enum KeyOrder {
    Less,
    Equal,
    Greater,
}

pub proof fn lemma_key_order_is_strict(a: Seq<u8>, b: Seq<u8>)
    ensures
        !key_less(a, a),
        key_less(a, b) ==> !key_less(b, a) && a != b,
    decreases a.len(),
{
    if a.len() > 0 {
        lemma_key_order_is_strict(a.skip(1), if b.len() > 0 { b.skip(1) } else { b });
    }
}

pub proof fn lemma_key_order_is_total(a: Seq<u8>, b: Seq<u8>)
    ensures
        key_less(a, b) || a == b || key_less(b, a),
    decreases a.len(),
{
    if a.len() > 0 && b.len() > 0 {
        lemma_key_order_is_total(a.skip(1), b.skip(1));
        if a[0] == b[0] && a.skip(1) == b.skip(1) {
            assert(a =~= seq![a[0]] + a.skip(1));
            assert(b =~= seq![b[0]] + b.skip(1));
        }
    } else if a.len() == 0 && b.len() == 0 {
        assert(a =~= b);
    }
}

pub proof fn lemma_key_order_is_transitive(a: Seq<u8>, b: Seq<u8>, c: Seq<u8>)
    requires
        key_less(a, b),
        key_less(b, c),
    ensures
        key_less(a, c),
    decreases a.len(),
{
    if a.len() > 0 && a[0] == b[0] && b[0] == c[0] {
        lemma_key_order_is_transitive(a.skip(1), b.skip(1), c.skip(1));
    }
}

/// Compares two keys byte by byte.
pub fn order_keys(a: &[u8], b: &[u8]) -> (r: KeyOrder)
    ensures
        r is Less <==> key_less(a@, b@),
        r is Equal <==> a@ == b@,
        r is Greater <==> key_less(b@, a@),
{
    let mut i: usize = 0;
    proof {
        assert(a@.skip(0) =~= a@);
        assert(b@.skip(0) =~= b@);
        lemma_key_order_is_strict(a@, b@);
        lemma_key_order_is_strict(b@, a@);
    }
    while i < a.len() && i < b.len()
        invariant
            i <= a.len(),
            i <= b.len(),
            forall|j: int| 0 <= j < i ==> a@[j] == b@[j],
            key_less(a@, b@) == key_less(a@.skip(i as int), b@.skip(i as int)),
            key_less(b@, a@) == key_less(b@.skip(i as int), a@.skip(i as int)),
            key_less(a@, b@) ==> !key_less(b@, a@) && a@ != b@,
            key_less(b@, a@) ==> a@ != b@,
        decreases a.len() - i,
    {
        if a[i] < b[i] {
            return KeyOrder::Less;
        }
        if b[i] < a[i] {
            return KeyOrder::Greater;
        }
        assert(a@.skip(i as int).skip(1) =~= a@.skip(i + 1));
        assert(b@.skip(i as int).skip(1) =~= b@.skip(i + 1));
        i = i + 1;
    }
    if i < b.len() {
        KeyOrder::Less
    } else if i < a.len() {
        KeyOrder::Greater
    } else {
        assert(a@ =~= b@);
        KeyOrder::Equal
    }
}

/// A key with its slot.
pub type Entry = (Seq<u8>, Slot);

/// Whether entries stand in strictly ascending key order.
pub open spec fn sorted(entries: Seq<Entry>) -> bool {
    forall|i: int, j: int|
        0 <= i < j < entries.len() ==> key_less(#[trigger] entries[i].0, #[trigger] entries[j].0)
}

/// The map that entries stand for; of two with the same key, the later counts.
pub open spec fn map_of(entries: Seq<Entry>) -> Map<Seq<u8>, Slot>
    decreases entries.len(),
{
    if entries.len() == 0 {
        Map::empty()
    } else {
        map_of(entries.drop_last()).insert(entries.last().0, entries.last().1)
    }
}

/// What an entry counts for in the size of its table.
pub open spec fn cost(key: Seq<u8>, slot: Slot) -> nat {
    key.len() + (match slot.value {
        Some(bytes) => bytes.len(),
        None => 0,
    }) + ENTRY_OVERHEAD as nat
}

/// What a key counts for in the size of a table, if it is there.
pub open spec fn cost_in(table: Map<Seq<u8>, Slot>, key: Seq<u8>) -> nat {
    if table.contains_key(key) {
        cost(key, table[key])
    } else {
        0
    }
}

/// What several entries count for together.
pub open spec fn total_cost(entries: Seq<Entry>) -> nat
    decreases entries.len(),
{
    if entries.len() == 0 {
        0
    } else {
        total_cost(entries.drop_last()) + cost(entries.last().0, entries.last().1)
    }
}

proof fn lemma_map_of(entries: Seq<Entry>)
    requires
        sorted(entries),
    ensures
        forall|k: Seq<u8>| #[trigger]
            map_of(entries).contains_key(k) ==> exists|i: int|
                0 <= i < entries.len() && #[trigger] entries[i].0 == k,
        forall|i: int|
            0 <= i < entries.len() ==> map_of(entries).contains_key(#[trigger] entries[i].0)
                && map_of(entries)[entries[i].0] == entries[i].1,
        map_of(entries).dom().finite(),
        map_of(entries).len() == entries.len(),
    decreases entries.len(),
{
    if entries.len() > 0 {
        let init = entries.drop_last();
        let last = entries.last();
        lemma_map_of(init);
        assert forall|i: int| 0 <= i < init.len() implies entries[i].0 != last.0 by {
            lemma_key_order_is_strict(entries[i].0, last.0);
        }
        assert forall|k: Seq<u8>| #[trigger] map_of(entries).contains_key(k) implies exists|i: int|
            0 <= i < entries.len() && #[trigger] entries[i].0 == k by {
            if k == last.0 {
                assert(entries[entries.len() - 1].0 == k);
            } else {
                assert(map_of(init).contains_key(k));
                let i = choose|i: int| 0 <= i < init.len() && #[trigger] init[i].0 == k;
                assert(entries[i].0 == k);
            }
        }
        assert forall|i: int| 0 <= i < entries.len() implies map_of(entries).contains_key(
            #[trigger] entries[i].0,
        ) && map_of(entries)[entries[i].0] == entries[i].1 by {
            if i < init.len() {
                assert(init[i] == entries[i]);
            }
        }
        if map_of(init).contains_key(last.0) {
            let i = choose|i: int| 0 <= i < init.len() && #[trigger] init[i].0 == last.0;
            assert(entries[i].0 != last.0);
        }
    }
}

proof fn lemma_total_cost_of_update(entries: Seq<Entry>, p: int, entry: Entry)
    requires
        0 <= p < entries.len(),
    ensures
        total_cost(entries.update(p, entry)) == total_cost(entries) - cost(
            entries[p].0,
            entries[p].1,
        ) + cost(entry.0, entry.1),
        cost(entries[p].0, entries[p].1) <= total_cost(entries),
    decreases entries.len(),
{
    let init = entries.drop_last();
    if p < init.len() {
        assert(entries.update(p, entry).drop_last() =~= init.update(p, entry));
        lemma_total_cost_of_update(init, p, entry);
    } else {
        assert(entries.update(p, entry).drop_last() =~= init);
    }
}

proof fn lemma_total_cost_of_insert(entries: Seq<Entry>, p: int, entry: Entry)
    requires
        0 <= p <= entries.len(),
    ensures
        total_cost(entries.insert(p, entry)) == total_cost(entries) + cost(entry.0, entry.1),
    decreases entries.len(),
{
    if p < entries.len() {
        let init = entries.drop_last();
        assert(entries.insert(p, entry).drop_last() =~= init.insert(p, entry));
        lemma_total_cost_of_insert(init, p, entry);
    } else {
        assert(entries.insert(p, entry).drop_last() =~= entries);
    }
}

/// Replacing the slot of a key that is there.
proof fn lemma_replace_slot(entries: Seq<Entry>, p: int, key: Seq<u8>, slot: Slot)
    requires
        sorted(entries),
        0 <= p < entries.len(),
        entries[p].0 == key,
    ensures
        sorted(entries.update(p, (key, slot))),
        map_of(entries).contains_key(key),
        map_of(entries)[key] == entries[p].1,
        map_of(entries.update(p, (key, slot))) == map_of(entries).insert(key, slot),
{
    let next = entries.update(p, (key, slot));
    assert(forall|i: int| 0 <= i < next.len() ==> #[trigger] next[i].0 == entries[i].0);
    lemma_map_of(entries);
    lemma_map_of(next);
    assert(map_of(next) =~= map_of(entries).insert(key, slot)) by {
        assert forall|k: Seq<u8>| map_of(next).contains_key(k) implies map_of(
            entries,
        ).contains_key(k) && map_of(next)[k] == map_of(entries).insert(key, slot)[k] by {
            let i = choose|i: int| 0 <= i < next.len() && #[trigger] next[i].0 == k;
            assert(entries[i].0 == k);
            if i != p {
                lemma_key_order_is_strict(entries[i].0, entries[p].0);
                lemma_key_order_is_strict(entries[p].0, entries[i].0);
            }
        }
        assert forall|k: Seq<u8>| map_of(entries).contains_key(k) implies map_of(
            next,
        ).contains_key(k) by {
            let i = choose|i: int| 0 <= i < entries.len() && #[trigger] entries[i].0 == k;
            assert(next[i].0 == k);
        }
    }
}

/// Adding an entry for a key that is not there, where it belongs.
proof fn lemma_add_entry(entries: Seq<Entry>, p: int, key: Seq<u8>, slot: Slot)
    requires
        sorted(entries),
        0 <= p <= entries.len(),
        forall|i: int| 0 <= i < p ==> key_less(#[trigger] entries[i].0, key),
        forall|i: int| p <= i < entries.len() ==> key_less(key, #[trigger] entries[i].0),
    ensures
        sorted(entries.insert(p, (key, slot))),
        !map_of(entries).contains_key(key),
        map_of(entries.insert(p, (key, slot))) == map_of(entries).insert(key, slot),
{
    let next = entries.insert(p, (key, slot));
    assert forall|i: int, j: int| 0 <= i < j < next.len() implies key_less(
        #[trigger] next[i].0,
        #[trigger] next[j].0,
    ) by {
        if i < p && j > p {
            assert(key_less(entries[i].0, entries[j - 1].0));
        } else if i < p && j < p {
            assert(key_less(entries[i].0, entries[j].0));
        } else if i > p {
            assert(key_less(entries[i - 1].0, entries[j - 1].0));
        } else if i == p {
            assert(key_less(key, entries[j - 1].0));
        } else {
            assert(key_less(entries[i].0, key));
        }
    }
    lemma_map_of(entries);
    lemma_map_of(next);
    assert forall|i: int| 0 <= i < entries.len() implies #[trigger] entries[i].0 != key by {
        lemma_key_order_is_strict(entries[i].0, key);
        lemma_key_order_is_strict(key, entries[i].0);
    }
    assert(map_of(next) =~= map_of(entries).insert(key, slot)) by {
        assert(next[p].0 == key);
        assert forall|k: Seq<u8>| map_of(next).contains_key(k) implies map_of(entries).insert(
            key,
            slot,
        ).contains_key(k) && map_of(next)[k] == map_of(entries).insert(key, slot)[k] by {
            let i = choose|i: int| 0 <= i < next.len() && #[trigger] next[i].0 == k;
            if i < p {
                assert(entries[i] == next[i]);
            } else if i > p {
                assert(entries[i - 1] == next[i]);
            }
        }
        assert forall|k: Seq<u8>| map_of(entries).contains_key(k) implies map_of(
            next,
        ).contains_key(k) by {
            let i = choose|i: int| 0 <= i < entries.len() && #[trigger] entries[i].0 == k;
            if i < p {
                assert(next[i].0 == k);
            } else {
                assert(next[i + 1].0 == k);
            }
        }
    }
}

/// An integer at most one turn outside the range of `usize`, turned back into it.
spec fn wrapped_once(x: int) -> int {
    if x > usize::MAX {
        x - (usize::MAX + 1)
    } else if x < 0 {
        x + (usize::MAX + 1)
    } else {
        x
    }
}

/// Counting in `usize` arithmetic agrees with counting and then cutting off.
proof fn lemma_wrapped_count(total: int, added: usize, removed: usize)
    ensures
        wrapped_once(total % (usize::MAX + 1) + added - removed) == (total + added - removed) % (
        usize::MAX + 1),
{
    let modulus: int = usize::MAX + 1;
    let count = total + added - removed;
    let size = total % modulus + added - removed;
    let q = total / modulus;
    vstd::arithmetic::div_mod::lemma_fundamental_div_mod(total, modulus);
    vstd::arithmetic::mul::lemma_mul_is_distributive_add(modulus, q, 1);
    vstd::arithmetic::mul::lemma_mul_is_distributive_sub(modulus, q, 1);
    let turns: int = if size > usize::MAX {
        1
    } else if size < 0 {
        -1
    } else {
        0
    };
    vstd::arithmetic::div_mod::lemma_fundamental_div_mod_converse(
        count,
        modulus,
        q + turns,
        wrapped_once(size),
    );
}

/// The entries of a vector, as sequences.
pub open spec fn listing(entries: Seq<(Vec<u8>, MemValue)>) -> Seq<Entry> {
    entries.map_values(|e: (Vec<u8>, MemValue)| (e.0@, e.1@))
}

/// Where a key is, or where it belongs.
enum Place {
    At(usize),
    Gap(usize),
}

#[derive(Debug)]
pub struct MemTable {
    entries: Vec<(Vec<u8>, MemValue)>,
    size_bytes: usize,
}

impl View for MemTable {
    type V = Map<Seq<u8>, Slot>;

    open spec fn view(&self) -> Map<Seq<u8>, Slot> {
        map_of(self.in_order())
    }
}

impl Default for MemTable {
    fn default() -> (table: MemTable)
        ensures
            table.wf(),
            table.in_order() == Seq::<Entry>::empty(),
            table@ == Map::<Seq<u8>, Slot>::empty(),
    {
        MemTable::new()
    }
}

impl MemTable {
    /// The entries in key order.
    pub closed spec fn in_order(&self) -> Seq<Entry> {
        listing(self.entries@)
    }

    /// Whether the keys ascend strictly and the recorded size is that of the
    /// entries, in `usize` arithmetic.
    pub closed spec fn wf(&self) -> bool {
        &&& sorted(self.in_order())
        &&& self.size_bytes == total_cost(self.in_order()) as int % (usize::MAX + 1)
        &&& forall|i: int|
            0 <= i < self.in_order().len() ==> {
                let (key, slot) = #[trigger] self.in_order()[i];
                cost(key, slot) <= usize::MAX
            }
    }

    pub fn new() -> (table: MemTable)
        ensures
            table.wf(),
            table.in_order() == Seq::<Entry>::empty(),
            table@ == Map::<Seq<u8>, Slot>::empty(),
    {
        let table = MemTable { entries: Vec::new(), size_bytes: 0 };
        proof {
            assert(table.in_order() =~= Seq::<Entry>::empty());
            vstd::arithmetic::div_mod::lemma_small_mod(0, (usize::MAX + 1) as nat);
        }
        table
    }

    fn entry_cost(key: &[u8], value: Option<&Vec<u8>>) -> (r: usize)
        requires
            key@.len() + (match value {
                Some(bytes) => bytes@.len(),
                None => 0,
            }) + ENTRY_OVERHEAD <= usize::MAX,
        ensures
            r == key@.len() + (match value {
                Some(bytes) => bytes@.len(),
                None => 0,
            }) + ENTRY_OVERHEAD,
    {
        match value {
            Some(bytes) => key.len() + bytes.len() + ENTRY_OVERHEAD,
            None => key.len() + ENTRY_OVERHEAD,
        }
    }

    /// Looks a key up by halving.
    fn find(&self, key: &[u8]) -> (r: Place)
        requires
            self.wf(),
        ensures
            match r {
                Place::At(p) => p < self.in_order().len() && self.in_order()[p as int].0 == key@,
                Place::Gap(p) => {
                    &&& p <= self.in_order().len()
                    &&& forall|i: int|
                        0 <= i < p ==> key_less(#[trigger] self.in_order()[i].0, key@)
                    &&& forall|i: int|
                        p <= i < self.in_order().len() ==> key_less(
                            key@,
                            #[trigger] self.in_order()[i].0,
                        )
                },
            },
    {
        let mut low: usize = 0;
        let mut high: usize = self.entries.len();
        while low < high
            invariant
                low <= high <= self.entries.len(),
                self.wf(),
                self.in_order().len() == self.entries.len(),
                forall|i: int| 0 <= i < low ==> key_less(#[trigger] self.in_order()[i].0, key@),
                forall|i: int|
                    high <= i < self.entries.len() ==> key_less(
                        key@,
                        #[trigger] self.in_order()[i].0,
                    ),
            decreases high - low,
        {
            let mid: usize = low + (high - low) / 2;
            let ghost listed = self.in_order();
            match order_keys(self.entries[mid].0.as_slice(), key) {
                KeyOrder::Equal => {
                    return Place::At(mid);
                },
                KeyOrder::Less => {
                    assert forall|i: int| 0 <= i < mid + 1 implies key_less(
                        #[trigger] listed[i].0,
                        key@,
                    ) by {
                        if i < mid {
                            lemma_key_order_is_transitive(
                                listed[i].0,
                                listed[mid as int].0,
                                key@,
                            );
                        }
                    }
                    low = mid + 1;
                },
                KeyOrder::Greater => {
                    assert forall|i: int| mid <= i < listed.len() implies key_less(
                        key@,
                        #[trigger] listed[i].0,
                    ) by {
                        if i > mid {
                            lemma_key_order_is_transitive(
                                key@,
                                listed[mid as int].0,
                                listed[i].0,
                            );
                        }
                    }
                    high = mid;
                },
            }
        }
        Place::Gap(low)
    }

    /// Counts `added` bytes in and `removed` bytes out, in `usize` arithmetic.
    fn adjust_size(&mut self, added: usize, removed: usize)
        ensures
            final(self).entries == old(self).entries,
            final(self).size_bytes == wrapped_once(old(self).size_bytes + added - removed),
    {
        if added >= removed {
            self.size_bytes = self.size_bytes.wrapping_add(added - removed);
        } else {
            self.size_bytes = self.size_bytes.wrapping_sub(removed - added);
        }
    }

    /// Gives a key a new slot, whatever it had before.
    fn store(&mut self, key: Vec<u8>, slot: MemValue)
        requires
            old(self).wf(),
            cost(key@, slot@) <= usize::MAX,
        ensures
            final(self).wf(),
            final(self)@ == old(self)@.insert(key@, slot@),
            total_cost(final(self).in_order()) == total_cost(old(self).in_order()) + cost(
                key@,
                slot@,
            ) - cost_in(old(self)@, key@),
    {
        let ghost before = self.in_order();
        let ghost entry: Entry = (key@, slot@);
        let added: usize = Self::entry_cost(key.as_slice(), slot.value.as_ref());
        match self.find(key.as_slice()) {
            Place::At(p) => {
                let removed: usize = Self::entry_cost(
                    self.entries[p].0.as_slice(),
                    self.entries[p].1.value.as_ref(),
                );
                proof {
                    lemma_replace_slot(before, p as int, key@, slot@);
                    lemma_total_cost_of_update(before, p as int, entry);
                    lemma_wrapped_count(total_cost(before) as int, added, removed);
                }
                self.entries[p] = (key, slot);
                assert(self.in_order() =~= before.update(p as int, entry));
                self.adjust_size(added, removed);
                assert(self.in_order() =~= before.update(p as int, entry));
            },
            Place::Gap(p) => {
                proof {
                    lemma_add_entry(before, p as int, key@, slot@);
                    lemma_total_cost_of_insert(before, p as int, entry);
                    lemma_wrapped_count(total_cost(before) as int, added, 0);
                }
                self.entries.insert(p, (key, slot));
                assert(self.in_order() =~= before.insert(p as int, entry));
                self.adjust_size(added, 0);
                assert(self.in_order() =~= before.insert(p as int, entry));
                assert forall|i: int| 0 <= i < self.in_order().len() implies {
                    let (k, v) = #[trigger] self.in_order()[i];
                    cost(k, v) <= usize::MAX
                } by {
                    if i < p {
                        assert(self.in_order()[i] == before[i]);
                    } else if i > p {
                        assert(self.in_order()[i] == before[i - 1]);
                    }
                }
            },
        }
    }

    /// Gives a key a value, whatever it had before.
    pub fn put(&mut self, key: Vec<u8>, value: Vec<u8>, seq: u64)
        requires
            old(self).wf(),
            key@.len() + value@.len() + ENTRY_OVERHEAD <= usize::MAX,
        ensures
            final(self).wf(),
            final(self)@ == old(self)@.insert(key@, Slot { value: Some(value@), seq }),
            total_cost(final(self).in_order()) == total_cost(old(self).in_order()) + cost(
                key@,
                (Slot { value: Some(value@), seq }),
            ) - cost_in(old(self)@, key@),
    {
        self.store(key, MemValue { value: Some(value), seq });
    }

    /// Gives a key a tombstone, whatever it had before.
    pub fn delete(&mut self, key: Vec<u8>, seq: u64)
        requires
            old(self).wf(),
            key@.len() + ENTRY_OVERHEAD <= usize::MAX,
        ensures
            final(self).wf(),
            final(self)@ == old(self)@.insert(key@, Slot { value: None, seq }),
            total_cost(final(self).in_order()) == total_cost(old(self).in_order()) + cost(
                key@,
                (Slot { value: None, seq }),
            ) - cost_in(old(self)@, key@),
    {
        self.store(key, MemValue { value: None, seq });
    }

    /// What was last put or deleted under a key, if anything was.
    pub fn get(&self, key: &[u8]) -> (r: Option<MemValue>)
        requires
            self.wf(),
        ensures
            match r {
                Some(slot) => self@.contains_key(key@) && slot@ == self@[key@],
                None => !self@.contains_key(key@),
            },
    {
        let ghost listed = self.in_order();
        proof {
            lemma_map_of(listed);
        }
        match self.find(key) {
            Place::At(p) => {
                assert(listed[p as int].0 == key@);
                Some(self.entries[p].1.clone())
            },
            Place::Gap(p) => {
                proof {
                    lemma_add_entry(listed, p as int, key@, Slot { value: None, seq: 0 });
                }
                None
            },
        }
    }

    /// The rough size of the entries, in `usize` arithmetic.
    pub fn size_bytes(&self) -> (r: usize)
        requires
            self.wf(),
        ensures
            r == total_cost(self.in_order()) as int % (usize::MAX + 1),
            total_cost(self.in_order()) <= usize::MAX ==> r == total_cost(self.in_order()),
    {
        proof {
            if total_cost(self.in_order()) <= usize::MAX {
                vstd::arithmetic::div_mod::lemma_small_mod(
                    total_cost(self.in_order()),
                    (usize::MAX + 1) as nat,
                );
            }
        }
        self.size_bytes
    }

    /// How many keys have a slot, tombstones included.
    pub fn len(&self) -> (r: usize)
        requires
            self.wf(),
        ensures
            r == self@.len(),
    {
        proof {
            lemma_map_of(self.in_order());
        }
        self.entries.len()
    }

    pub fn is_empty(&self) -> (r: bool)
        requires
            self.wf(),
        ensures
            r == (self@ == Map::<Seq<u8>, Slot>::empty()),
    {
        proof {
            lemma_map_of(self.in_order());
            if self@.len() == 0 {
                assert(self.in_order() =~= Seq::<Entry>::empty());
            }
        }
        self.len() == 0
    }

    /// The current contents in ascending key order.
    pub fn snapshot(&self) -> (r: Vec<(Vec<u8>, MemValue)>)
        requires
            self.wf(),
        ensures
            listing(r@) == self.in_order(),
            sorted(listing(r@)),
            map_of(listing(r@)) == self@,
    {
        let mut r: Vec<(Vec<u8>, MemValue)> = Vec::with_capacity(self.entries.len());
        while r.len() < self.entries.len()
            invariant
                r.len() <= self.entries.len(),
                listing(r@) == self.in_order().take(r.len() as int),
            decreases self.entries.len() - r.len(),
        {
            let i: usize = r.len();
            let key = codec::copy_bytes(&self.entries[i].0);
            let slot = self.entries[i].1.clone();
            r.push((key, slot));
            assert(listing(r@) =~= self.in_order().take(i + 1));
        }
        assert(listing(r@) =~= self.in_order());
        r
    }
}

/// Reading a key after a write gives what was written, also over an older slot.
/// All other keys keep what they had.
pub proof fn law_write_then_read(
    table: Map<Seq<u8>, Slot>,
    key: Seq<u8>,
    slot: Slot,
    other: Seq<u8>,
)
    ensures
        table.insert(key, slot).contains_key(key),
        table.insert(key, slot)[key] == slot,
        other != key ==> (table.insert(key, slot).contains_key(other) == table.contains_key(other)),
        other != key && table.contains_key(other) ==> table.insert(key, slot)[other]
            == table[other],
{
}

/// A deleted key stays in the table: a tombstone takes a place like a value.
pub proof fn law_table_never_shrinks(table: Map<Seq<u8>, Slot>, key: Seq<u8>, slot: Slot)
    requires
        table.dom().finite(),
    ensures
        table.insert(key, slot).len() == if table.contains_key(key) {
            table.len()
        } else {
            table.len() + 1
        },
{
    if table.contains_key(key) {
        assert(table.insert(key, slot).dom() =~= table.dom());
    }
}

/// There is only one way to list a table's contents in ascending key order.
pub proof fn law_listing_is_determined(one: Seq<Entry>, two: Seq<Entry>)
    requires
        sorted(one),
        sorted(two),
        map_of(one) == map_of(two),
    ensures
        one == two,
    decreases one.len(),
{
    lemma_map_of(one);
    lemma_map_of(two);
    if one.len() > 0 {
        let n = one.len() - 1;
        assert(map_of(two).contains_key(one[n].0));
        let j = choose|j: int| 0 <= j < two.len() && #[trigger] two[j].0 == one[n].0;
        assert(map_of(one).contains_key(two[n].0));
        let i = choose|i: int| 0 <= i < one.len() && #[trigger] one[i].0 == two[n].0;
        if j < n {
            lemma_key_order_is_strict(two[j].0, two[n].0);
            if i < n {
                lemma_key_order_is_strict(one[i].0, one[n].0);
            }
        }
        assert(one[n] == two[n]);
        lemma_init_map(one);
        lemma_init_map(two);
        law_listing_is_determined(one.drop_last(), two.drop_last());
        assert(one =~= one.drop_last().push(one[n]));
        assert(two =~= two.drop_last().push(two[n]));
    } else {
        assert(one =~= two);
    }
}

/// Without its last entry, a sorted listing stands for the map without that key.
proof fn lemma_init_map(entries: Seq<Entry>)
    requires
        sorted(entries),
        entries.len() > 0,
    ensures
        sorted(entries.drop_last()),
        map_of(entries.drop_last()) == map_of(entries).remove(entries.last().0),
{
    let init = entries.drop_last();
    let last = entries.last();
    lemma_map_of(init);
    if map_of(init).contains_key(last.0) {
        let i = choose|i: int| 0 <= i < init.len() && #[trigger] init[i].0 == last.0;
        lemma_key_order_is_strict(entries[i].0, entries[entries.len() - 1].0);
    }
    assert(map_of(init) =~= map_of(entries).remove(last.0));
}

/// The place in a sorted listing where a key is or belongs.
proof fn lemma_place_exists(entries: Seq<Entry>, key: Seq<u8>) -> (p: int)
    requires
        sorted(entries),
    ensures
        0 <= p <= entries.len(),
        forall|i: int| 0 <= i < p ==> key_less(#[trigger] entries[i].0, key),
        p < entries.len() && entries[p].0 == key || forall|i: int|
            p <= i < entries.len() ==> key_less(key, #[trigger] entries[i].0),
    decreases entries.len(),
{
    if entries.len() == 0 {
        0
    } else {
        let n = entries.len() - 1;
        let init = entries.drop_last();
        lemma_key_order_is_total(entries[n].0, key);
        if key_less(entries[n].0, key) {
            assert forall|i: int| 0 <= i < n implies key_less(#[trigger] entries[i].0, key) by {
                lemma_key_order_is_transitive(entries[i].0, entries[n].0, key);
            }
            entries.len() as int
        } else if entries[n].0 == key {
            n
        } else {
            let p = lemma_place_exists(init, key);
            assert forall|i: int| 0 <= i < p implies key_less(#[trigger] entries[i].0, key) by {
                assert(entries[i] == init[i]);
            }
            if p < init.len() && init[p].0 == key {
                assert(entries[p].0 == key);
            } else {
                assert forall|i: int| p <= i < entries.len() implies key_less(
                    key,
                    #[trigger] entries[i].0,
                ) by {
                    if i < n {
                        assert(entries[i] == init[i]);
                    }
                }
            }
            p
        }
    }
}

/// The size of a table follows its contents: a write adds what the new entry
/// costs and takes away what the key cost before.
pub proof fn law_size_follows_contents(
    before: Seq<Entry>,
    after: Seq<Entry>,
    key: Seq<u8>,
    slot: Slot,
)
    requires
        sorted(before),
        sorted(after),
        map_of(after) == map_of(before).insert(key, slot),
    ensures
        total_cost(after) == total_cost(before) + cost(key, slot) - cost_in(map_of(before), key),
{
    let p = lemma_place_exists(before, key);
    if p < before.len() && before[p].0 == key {
        lemma_replace_slot(before, p, key, slot);
        lemma_total_cost_of_update(before, p, (key, slot));
        law_listing_is_determined(after, before.update(p, (key, slot)));
    } else {
        lemma_add_entry(before, p, key, slot);
        lemma_total_cost_of_insert(before, p, (key, slot));
        law_listing_is_determined(after, before.insert(p, (key, slot)));
    }
}

/// Whether `a` comes before `b` because of position `n`: the keys agree before it,
/// and there `a` ends or has the smaller byte.
spec fn decided_at(a: Seq<u8>, b: Seq<u8>, n: int) -> bool {
    &&& 0 <= n <= a.len()
    &&& n < b.len()
    &&& forall|j: int| 0 <= j < n ==> #[trigger] a[j] == b[j]
    &&& n == a.len() || (a[n] as int) < (b[n] as int)
}

proof fn lemma_order_is_decided(a: Seq<u8>, b: Seq<u8>) -> (n: int)
    requires
        key_less(a, b),
    ensures
        decided_at(a, b, n),
    decreases a.len(),
{
    if a.len() == 0 || a[0] < b[0] {
        0
    } else {
        let m = lemma_order_is_decided(a.skip(1), b.skip(1));
        assert forall|j: int| 0 <= j < m + 1 implies #[trigger] a[j] == b[j] by {
            if j > 0 {
                assert(a.skip(1)[j - 1] == b.skip(1)[j - 1]);
            }
        }
        m + 1
    }
}

/// Keys are ordered lexicographically by their bytes: one key comes before
/// another exactly if they agree up to some position where the first key ends or
/// has the smaller byte.
pub proof fn law_keys_are_ordered_lexicographically(a: Seq<u8>, b: Seq<u8>)
    ensures
        key_less(a, b) ==> exists|n: int|
            0 <= n <= a.len() && n < b.len() && (#[trigger] a.take(n)) == b.take(n) && (n == a.len()
                || (a[n] as int) < (b[n] as int)),
        !key_less(a, b) ==> forall|n: int|
            0 <= n <= a.len() && n < b.len() && (#[trigger] a.take(n)) == b.take(n) ==> n < a.len()
                && (a[n] as int) >= (b[n] as int),
{
    if key_less(a, b) {
        let n = lemma_order_is_decided(a, b);
        assert(a.take(n) =~= b.take(n));
    } else {
        assert forall|n: int|
            0 <= n <= a.len() && n < b.len() && (#[trigger] a.take(n)) == b.take(n) implies n
            < a.len() && (a[n] as int) >= (b[n] as int) by {
            if n == a.len() || a[n] < b[n] {
                law_first_difference_decides(a, b, n);
            }
        }
    }
}

/// Where two keys first differ, the smaller byte decides, and a key that ends
/// there comes first.
pub proof fn law_first_difference_decides(a: Seq<u8>, b: Seq<u8>, n: int)
    requires
        0 <= n <= a.len(),
        n < b.len(),
        a.take(n) == b.take(n),
        n == a.len() || (a[n] as int) < (b[n] as int),
    ensures
        key_less(a, b),
        !key_less(b, a),
    decreases n,
{
    if n > 0 {
        assert(a[0] == a.take(n)[0] == b.take(n)[0] == b[0]);
        assert(a.skip(1).take(n - 1) =~= a.take(n).skip(1));
        assert(b.skip(1).take(n - 1) =~= b.take(n).skip(1));
        law_first_difference_decides(a.skip(1), b.skip(1), n - 1);
    }
    lemma_key_order_is_strict(a, b);
}

/// In a sorted listing every earlier key comes before every later one, byte by
/// byte, and any listing like that is sorted.
pub proof fn law_sorted_means_ascending_bytes(entries: Seq<Entry>, i: int, j: int)
    requires
        0 <= i < j < entries.len(),
    ensures
        sorted(entries) ==> exists|n: int|
            0 <= n <= entries[i].0.len() && n < entries[j].0.len() && (#[trigger] entries[i].0.take(
                n,
            )) == entries[j].0.take(n) && (n == entries[i].0.len() || (entries[i].0[n] as int) < (
            entries[j].0[n] as int)),
        (forall|k: int, m: int|
            0 <= k < m < entries.len() ==> key_less(
                #[trigger] entries[k].0,
                #[trigger] entries[m].0,
            )) ==> sorted(entries),
{
    if sorted(entries) {
        law_keys_are_ordered_lexicographically(entries[i].0, entries[j].0);
    }
}

/// The map behind a sorted listing has exactly the listed keys, each with the
/// slot that it is listed with.
pub proof fn law_listing_holds_the_table(entries: Seq<Entry>, key: Seq<u8>)
    requires
        sorted(entries),
    ensures
        map_of(entries).contains_key(key) ==> exists|i: int|
            0 <= i < entries.len() && #[trigger] entries[i].0 == key && entries[i].1 == map_of(
                entries,
            )[key],
        forall|i: int|
            0 <= i < entries.len() ==> map_of(entries).contains_key(#[trigger] entries[i].0)
                && map_of(entries)[entries[i].0] == entries[i].1,
        map_of(entries).len() == entries.len(),
{
    lemma_map_of(entries);
}

/// Sizes in plain numbers: a listing without entries counts nothing, each value
/// counts its length, its key's length and sixteen more, and a tombstone its key's
/// length and sixteen more.
pub proof fn law_size_in_numbers(entries: Seq<Entry>, key: Seq<u8>, value: Seq<u8>, seq: u64)
    ensures
        total_cost(Seq::<Entry>::empty()) == 0,
        total_cost(entries.push((key, Slot { value: Some(value), seq }))) == total_cost(entries)
            + key.len() + value.len() + 16,
        total_cost(entries.push((key, Slot { value: None, seq }))) == total_cost(entries)
            + key.len() + 16,
{
    let with_value: Entry = (key, Slot { value: Some(value), seq });
    let deleted: Entry = (key, Slot { value: None, seq });
    assert(entries.push(with_value).drop_last() =~= entries);
    assert(entries.push(deleted).drop_last() =~= entries);
}

/// A put of a new key makes the table grow by the key, the value and sixteen. A
/// put over a value changes the size by the difference of the two values, a put
/// over a tombstone by the length of the new value.
pub proof fn law_put_changes_size(
    before: Seq<Entry>,
    after: Seq<Entry>,
    key: Seq<u8>,
    value: Seq<u8>,
    seq: u64,
)
    requires
        sorted(before),
        sorted(after),
        map_of(after) == map_of(before).insert(key, Slot { value: Some(value), seq }),
    ensures
        !map_of(before).contains_key(key) ==> total_cost(after) == total_cost(before) + key.len()
            + value.len() + 16,
        map_of(before).contains_key(key) ==> match map_of(before)[key].value {
            Some(old_value) => total_cost(after) - total_cost(before) == value.len()
                - old_value.len(),
            None => total_cost(after) - total_cost(before) == value.len(),
        },
{
    law_size_follows_contents(before, after, key, Slot { value: Some(value), seq });
}

/// A delete of a key that was never there makes the table grow by the key and
/// sixteen. A delete over a value takes the length of the value away, a delete
/// over a tombstone changes nothing.
pub proof fn law_delete_changes_size(
    before: Seq<Entry>,
    after: Seq<Entry>,
    key: Seq<u8>,
    seq: u64,
)
    requires
        sorted(before),
        sorted(after),
        map_of(after) == map_of(before).insert(key, Slot { value: None, seq }),
    ensures
        !map_of(before).contains_key(key) ==> total_cost(after) == total_cost(before) + key.len()
            + 16,
        map_of(before).contains_key(key) ==> match map_of(before)[key].value {
            Some(old_value) => total_cost(after) == total_cost(before) - old_value.len(),
            None => total_cost(after) == total_cost(before),
        },
{
    law_size_follows_contents(before, after, key, Slot { value: None, seq });
}

/// A listing says of each entry exactly what the entry holds.
pub proof fn law_listing_loses_nothing(entries: Seq<(Vec<u8>, MemValue)>, i: int)
    requires
        0 <= i < entries.len(),
    ensures
        listing(entries).len() == entries.len(),
        listing(entries)[i].0 == entries[i].0@,
        listing(entries)[i].1.seq == entries[i].1.seq,
        entries[i].1.value matches Some(bytes) ==> listing(entries)[i].1.value == Some(bytes@),
        entries[i].1.value is None ==> listing(entries)[i].1.value is None,
{
}

/// A slot says exactly what a memtable value holds.
pub proof fn law_slot_loses_nothing(value: MemValue)
    ensures
        value@.seq == value.seq,
        value.value matches Some(bytes) ==> value@.value == Some(bytes@),
        value.value is None ==> value@.value is None,
{
}

impl MemTable {
    /// A table keeps its entries in ascending key order, and what it holds is what
    /// it lists.
    pub proof fn law_entries_are_in_order(self)
        requires
            self.wf(),
        ensures
            sorted(self.in_order()),
            self@ == map_of(self.in_order()),
    {
    }
}

} // verus!
