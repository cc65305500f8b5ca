use vstd::prelude::*;

use std::collections::BTreeMap;

use crate::diff::StorageEntry;
use crate::felt::Felt;

verus! {

/// The content of a storage slot and the height of the block that wrote it.
#[derive(Clone, Copy, Debug, PartialEq, Eq, Structural)]
pub struct StorageValue {
    pub value: Felt,
    pub last_updated_block: u64,
}

/// One exported slot: a key and what it holds.
#[derive(Clone, Copy, Debug, PartialEq, Eq, Structural)]
pub struct StorageSlot {
    pub key: Felt,
    pub value: StorageValue,
}

/// A requested write: `(key, value, at_block)`.
pub type MergeCall = (Felt, Felt, u64);

/// The aggregate after one merge: the write is kept when the key is new or the
/// block is strictly higher than the one that wrote the current value.
pub open spec fn merged(m: Map<Felt, StorageValue>, key: Felt, value: Felt, at_block: u64) -> Map<
    Felt,
    StorageValue,
> {
    if !m.contains_key(key) || at_block > m[key].last_updated_block {
        m.insert(key, StorageValue { value, last_updated_block: at_block })
    } else {
        m
    }
}

/// The aggregate after merging `calls` into `m`, first call first.
pub open spec fn merge_all(m: Map<Felt, StorageValue>, calls: Seq<MergeCall>) -> Map<
    Felt,
    StorageValue,
>
    decreases calls.len(),
{
    if calls.len() == 0 {
        m
    } else {
        let c = calls.last();
        merged(merge_all(m, calls.drop_last()), c.0, c.1, c.2)
    }
}

/// The merge calls that writing `entries` at block `at_block` makes, in order.
pub open spec fn block_calls(entries: Seq<StorageEntry>, at_block: u64) -> Seq<MergeCall> {
    entries.map_values(|e: StorageEntry| (e.key, e.value, at_block))
}

/// Merging the same write twice leaves the aggregate as merging it once.
pub proof fn lemma_merge_idempotent(
    m: Map<Felt, StorageValue>,
    key: Felt,
    value: Felt,
    at_block: u64,
)
    ensures
        merged(merged(m, key, value, at_block), key, value, at_block) == merged(
            m,
            key,
            value,
            at_block,
        ),
{
}

/// Two writes of one key from blocks `a1 < a2`, merged in either order, give the
/// same aggregate, in which the key holds the write of block `a2`, provided that
/// the key held nothing from a block at or above `a2` before.
pub proof fn lemma_merge_order_insensitive(
    m: Map<Felt, StorageValue>,
    key: Felt,
    v1: Felt,
    a1: u64,
    v2: Felt,
    a2: u64,
)
    requires
        a1 < a2,
        !m.contains_key(key) || m[key].last_updated_block < a2,
    ensures
        merged(merged(m, key, v1, a1), key, v2, a2) == merged(merged(m, key, v2, a2), key, v1, a1),
        merged(merged(m, key, v1, a1), key, v2, a2) == m.insert(
            key,
            (StorageValue { value: v2, last_updated_block: a2 }),
        ),
        merged(merged(m, key, v1, a1), key, v2, a2)[key] == (StorageValue {
            value: v2,
            last_updated_block: a2,
        }),
{
    let s2 = StorageValue { value: v2, last_updated_block: a2 };
    let first = merged(m, key, v1, a1);
    assert(first.contains_key(key) && first[key].last_updated_block < a2);
    assert(merged(first, key, v2, a2) =~= m.insert(key, s2));
    assert(merged(m, key, v2, a2) == m.insert(key, s2));
    assert(merged(m.insert(key, s2), key, v1, a1) == m.insert(key, s2));
}

/// Call `i` of `calls` writes `key`.
pub open spec fn writes(calls: Seq<MergeCall>, i: int, key: Felt) -> bool {
    0 <= i < calls.len() && calls[i].0 == key
}

/// `v` holds the value and block of call `c`.
pub open spec fn holds_call(v: StorageValue, c: MergeCall) -> bool {
    v.value == c.1 && v.last_updated_block == c.2
}

/// All calls of `calls` that write `key` at block `at_block` write the same value.
pub open spec fn agree_at(calls: Seq<MergeCall>, key: Felt, at_block: u64) -> bool {
    forall|j: int, l: int|
        #![trigger writes(calls, j, key), writes(calls, l, key)]
        writes(calls, j, key) && writes(calls, l, key) && calls[j].2 == at_block && calls[l].2
            == at_block ==> calls[j].1 == calls[l].1
}

/// Whatever the order of a sequence of merges into an aggregate without `key`,
/// `key` ends up present exactly when some call wrote it, and then it holds the
/// value and block of one of those calls, whose block is the highest among them.
/// Where the calls for `key` at that block agree on the value, the value is the
/// one written at the highest block.
pub proof fn lemma_merge_monotonic(m: Map<Felt, StorageValue>, calls: Seq<MergeCall>, key: Felt)
    requires
        !m.contains_key(key),
    ensures
        merge_all(m, calls).contains_key(key) <==> (exists|i: int| writes(calls, i, key)),
        merge_all(m, calls).contains_key(key) ==> (exists|i: int|
            #[trigger] writes(calls, i, key) && holds_call(merge_all(m, calls)[key], calls[i])),
        forall|i: int| #[trigger]
            writes(calls, i, key) ==> calls[i].2 <= merge_all(m, calls)[key].last_updated_block,
        forall|i: int| #[trigger]
            writes(calls, i, key) && agree_at(calls, key, merge_all(m, calls)[key].last_updated_block)
                && calls[i].2 == merge_all(m, calls)[key].last_updated_block ==> (merge_all(
                m,
                calls,
            )[key].value == calls[i].1),
    decreases calls.len(),
{
    if calls.len() > 0 {
        let prefix = calls.drop_last();
        let c = calls.last();
        let n = calls.len() - 1;
        lemma_merge_monotonic(m, prefix, key);
        let before = merge_all(m, prefix);
        let after = merge_all(m, calls);
        assert(after == merged(before, c.0, c.1, c.2));
        assert forall|i: int| writes(prefix, i, key) <==> #[trigger] writes(calls, i, key) && i < n by {
            if 0 <= i < n {
                assert(prefix[i] == calls[i]);
            }
        }
        if c.0 == key {
            assert(writes(calls, n, key));
            if !before.contains_key(key) || c.2 > before[key].last_updated_block {
                assert(after[key] == StorageValue { value: c.1, last_updated_block: c.2 });
                assert(holds_call(after[key], calls[n]));
            } else {
                assert(after == before);
                let w = choose|i: int|
                    #[trigger] writes(prefix, i, key) && holds_call(before[key], prefix[i]);
                assert(writes(calls, w, key) && calls[w] == prefix[w]);
            }
        } else {
            assert(after.contains_key(key) == before.contains_key(key));
            assert(before.contains_key(key) ==> after[key] == before[key]);
            if before.contains_key(key) {
                let w = choose|i: int|
                    #[trigger] writes(prefix, i, key) && holds_call(before[key], prefix[i]);
                assert(writes(calls, w, key) && calls[w] == prefix[w]);
            }
            if exists|i: int| writes(calls, i, key) {
                let w = choose|i: int| writes(calls, i, key);
                assert(writes(prefix, w, key));
            }
        }
        assert forall|i: int| #[trigger]
            writes(calls, i, key) implies calls[i].2 <= after[key].last_updated_block by {
            if i < n {
                assert(writes(prefix, i, key));
                assert(prefix[i] == calls[i]);
            }
        }
        assert forall|i: int| #[trigger]
            writes(calls, i, key) && agree_at(calls, key, after[key].last_updated_block)
                && calls[i].2 == after[key].last_updated_block implies (after[key].value
            == calls[i].1) by {
            let w = choose|j: int| #[trigger] writes(calls, j, key) && holds_call(after[key], calls[j]);
            assert(writes(calls, w, key) && writes(calls, i, key));
        }
    }
}

proof fn lemma_key_order(a: (u128, u128), b: (u128, u128))
    requires
        a.0 < b.0 || (a.0 == b.0 && a.1 < b.1),
    ensures
        Felt::from_key(a).value() < Felt::from_key(b).value(),
{
    let p = crate::felt::pow2_128();
    if a.0 < b.0 {
        assert(a.0 as nat * p + a.1 < b.0 as nat * p + b.1) by (nonlinear_arith)
            requires
                a.0 < b.0,
                a.1 < p,
                b.1 >= 0,
        ;
    }
}

/// The storage of one contract as rebuilt so far: each key with its latest value.
pub struct DumpState {
    storage: BTreeMap<(u128, u128), StorageValue>,
}

impl View for DumpState {
    type V = Map<Felt, StorageValue>;

    closed spec fn view(&self) -> Map<Felt, StorageValue> {
        Map::new(
            |k: Felt| self.storage@.contains_key(k.key()),
            |k: Felt| self.storage@[k.key()],
        )
    }
}

impl DumpState {
    pub fn new() -> (r: DumpState)
        ensures
            r@ == Map::<Felt, StorageValue>::empty(),
    {
        let r = DumpState { storage: BTreeMap::new() };
        assert(r@ =~= Map::<Felt, StorageValue>::empty());
        r
    }

    /// The value stored at `key`, if any.
    pub fn get(&self, key: Felt) -> (r: Option<StorageValue>)
        ensures
            r == (if self@.contains_key(key) {
                Some(self@[key])
            } else {
                None
            }),
    {
        let k = key.as_key();
        match self.storage.get(&k) {
            Some(v) => Some(*v),
            None => None,
        }
    }

    /// Records that block `at_block` wrote `value` at `key`. A write from a block
    /// no higher than the one already recorded for the key changes nothing, so the
    /// outcome does not depend on the order in which blocks arrive.
    pub fn merge(&mut self, key: Felt, value: Felt, at_block: u64)
        ensures
            final(self)@ == merged(old(self)@, key, value, at_block),
    {
        let k = key.as_key();
        let stale = match self.storage.get(&k) {
            Some(existing) => at_block <= existing.last_updated_block,
            None => false,
        };
        if !stale {
            self.storage.insert(k, StorageValue { value, last_updated_block: at_block });
            assert forall|f: Felt| f.key() == k implies f == key by {
                assert(f.high == key.high && f.low == key.low);
            }
            assert(self@ =~= old(self)@.insert(
                key,
                StorageValue { value, last_updated_block: at_block },
            ));
        }
    }

    /// Every slot of the aggregate, once each, in increasing order of key.
    pub fn slots(&self) -> (r: Vec<StorageSlot>)
        ensures
            forall|i: int|
                0 <= i < r@.len() ==> self@.contains_key(#[trigger] r@[i].key) && self@[r@[i].key]
                    == r@[i].value,
            forall|k: Felt| #[trigger]
                self@.contains_key(k) ==> exists|i: int| 0 <= i < r@.len() && r@[i].key == k,
            forall|i: int, j: int|
                0 <= i < j < r@.len() ==> (#[trigger] r@[i].key).value() < (#[trigger] r@[j].key).value(),
    {
        let mut out: Vec<StorageSlot> = Vec::new();
        let entries = self.storage.iter();
        let ghost all = vstd::std_specs::iter::IteratorSpec::remaining(&entries);
        for kv in it: entries
            invariant
                it.seq() == all,
                out@.len() == it.index(),
                forall|i: int|
                    0 <= i < it.index() ==> #[trigger] out@[i] == (StorageSlot {
                        key: Felt::from_key(*it.seq()[i].0),
                        value: *it.seq()[i].1,
                    }),
        {
            out.push(StorageSlot { key: Felt::of_key(*kv.0), value: *kv.1 });
        }
        assert forall|k: Felt| #[trigger]
            self@.contains_key(k) implies exists|i: int| 0 <= i < out@.len() && out@[i].key == k by {
            let pair = (&k.key(), &self.storage@[k.key()]);
            assert(all.contains(pair));
            let i = choose|i: int| 0 <= i < all.len() && all[i] == pair;
            assert(out@[i].key == k);
        }
        proof {
            let keys = all.map_values(|kv: (&(u128, u128), &StorageValue)| *kv.0);
            assert(vstd::std_specs::btree::increasing_seq(keys));
            assert forall|i: int, j: int| 0 <= i < j < out@.len() implies (#[trigger] out@[i].key).value()
                < (#[trigger] out@[j].key).value() by {
                assert(vstd::std_specs::cmp::OrdSpec::cmp_spec(&keys[i], &keys[j]) is Less);
                lemma_key_order(keys[i], keys[j]);
            }
        }
        out
    }

    /// Merges every entry of one block's writes, in order, at height `at_block`.
    pub fn merge_block(&mut self, entries: &Vec<StorageEntry>, at_block: u64)
        ensures
            final(self)@ == merge_all(old(self)@, block_calls(entries@, at_block)),
    {
        let n = entries.len();
        let mut i: usize = 0;
        while i < n
            invariant
                i <= n,
                n == entries@.len(),
                self@ == merge_all(old(self)@, block_calls(entries@.take(i as int), at_block)),
            decreases n - i,
        {
            let e = entries[i];
            self.merge(e.key, e.value, at_block);
            assert(block_calls(entries@.take(i + 1), at_block).drop_last() =~= block_calls(
                entries@.take(i as int),
                at_block,
            ));
            i = i + 1;
        }
        assert(entries@.take(n as int) =~= entries@);
    }
}

} // verus!
