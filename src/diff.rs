use vstd::prelude::*;

use crate::felt::Felt;

verus! {

/// One storage write: `key` was set to `value`.
#[derive(Clone, Copy, Debug, PartialEq, Eq, Structural)]
pub struct StorageEntry {
    pub key: Felt,
    pub value: Felt,
}

/// The storage writes that one contract made within one block.
#[derive(Debug)]
pub struct ContractStorageDiff {
    pub address: Felt,
    pub storage_entries: Vec<StorageEntry>,
}

/// The part of a block's state update that the scan reads: its storage diffs.
#[derive(Debug)]
pub struct BlockStateUpdate {
    pub storage_diffs: Vec<ContractStorageDiff>,
}

/// The entries of every diff of `diffs` made by `contract`, diff after diff, each
/// in its own order.
pub open spec fn entries_for(diffs: Seq<ContractStorageDiff>, contract: Felt) -> Seq<StorageEntry>
    decreases diffs.len(),
{
    if diffs.len() == 0 {
        Seq::empty()
    } else {
        let rest = entries_for(diffs.drop_last(), contract);
        if diffs.last().address == contract {
            rest + diffs.last().storage_entries@
        } else {
            rest
        }
    }
}

proof fn lemma_entries_for_absent(diffs: Seq<ContractStorageDiff>, contract: Felt)
    requires
        forall|i: int| 0 <= i < diffs.len() ==> #[trigger] diffs[i].address != contract,
    ensures
        entries_for(diffs, contract).len() == 0,
    decreases diffs.len(),
{
    if diffs.len() > 0 {
        assert(diffs.last().address != contract);
        let rest = diffs.drop_last();
        assert forall|i: int| 0 <= i < rest.len() implies #[trigger] rest[i].address != contract by {
            assert(rest[i] == diffs[i]);
        }
        lemma_entries_for_absent(rest, contract);
    }
}

impl BlockStateUpdate {
    /// The storage writes of `contract` in this block, in the block's order; empty
    /// when the contract wrote nothing in it.
    pub fn filter(&self, contract: Felt) -> (r: Vec<StorageEntry>)
        ensures
            r@ == entries_for(self.storage_diffs@, contract),
            (forall|i: int|
                0 <= i < self.storage_diffs@.len() ==> #[trigger] self.storage_diffs@[i].address
                    != contract) ==> r@.len() == 0,
    {
        proof {
            if forall|i: int|
                0 <= i < self.storage_diffs@.len() ==> #[trigger] self.storage_diffs@[i].address
                    != contract {
                lemma_entries_for_absent(self.storage_diffs@, contract);
            }
        }
        let mut out: Vec<StorageEntry> = Vec::new();
        let n = self.storage_diffs.len();
        let mut i: usize = 0;
        while i < n
            invariant
                i <= n,
                n == self.storage_diffs@.len(),
                out@ == entries_for(self.storage_diffs@.take(i as int), contract),
            decreases n - i,
        {
            let diff = &self.storage_diffs[i];
            let ghost before = out@;
            assert(self.storage_diffs@.take(i + 1).drop_last() =~= self.storage_diffs@.take(
                i as int,
            ));
            if diff.address == contract {
                let m = diff.storage_entries.len();
                let mut j: usize = 0;
                while j < m
                    invariant
                        j <= m,
                        m == diff.storage_entries@.len(),
                        out@ == before + diff.storage_entries@.take(j as int),
                    decreases m - j,
                {
                    out.push(diff.storage_entries[j]);
                    assert(diff.storage_entries@.take(j + 1) =~= diff.storage_entries@.take(
                        j as int,
                    ).push(diff.storage_entries@[j as int]));
                    j = j + 1;
                }
                assert(diff.storage_entries@.take(m as int) =~= diff.storage_entries@);
            }
            i = i + 1;
        }
        assert(self.storage_diffs@.take(n as int) =~= self.storage_diffs@);
        out
    }
}

} // verus!
