use vstd::prelude::*;

use crate::diff::{entries_for, BlockStateUpdate};
use crate::dump::{
    block_calls, holds_call, lemma_merge_monotonic, merge_all, writes, DumpState, MergeCall,
    StorageValue,
};
use crate::felt::Felt;

verus! {

/// What one scan asks for: the contract and the inclusive range of block heights.
#[derive(Clone, Copy, Debug, PartialEq, Eq, Structural)]
pub struct Config {
    pub to_block: u64,
    pub from_block: u64,
    pub contract: Felt,
}

impl Config {
    pub open spec fn contains(self, height: u64) -> bool {
        self.from_block <= height <= self.to_block
    }
}

/// Why a scan could not start.
#[derive(Clone, Copy, Debug, PartialEq, Eq, Structural)]
pub enum ScanError {
    /// The first block is above the last one.
    InvalidRange,
}

/// Why the state update of one block could not be had.
#[derive(Clone, Copy, Debug, PartialEq, Eq, Structural)]
pub enum FetchError {
    /// The endpoint could not be reached or did not answer in time.
    Network,
    /// The answer could not be decoded.
    Malformed,
    /// The chain has no block at that height yet.
    NotFound,
}

/// A scan in progress: the aggregate built from the blocks recorded so far and the
/// heights whose fetch failed. Blocks may be recorded in any order.
pub struct Scan {
    config: Config,
    state: DumpState,
    failed: Vec<u64>,
    history: Ghost<Seq<MergeCall>>,
}

/// What a finished scan hands back: the aggregate and the heights that failed, in
/// the order their failures were recorded.
pub struct ScanReport {
    pub storage: DumpState,
    pub failed: Vec<u64>,
}

impl Scan {
    pub closed spec fn config(&self) -> Config {
        self.config
    }

    pub closed spec fn aggregate(&self) -> Map<Felt, StorageValue> {
        self.state@
    }

    pub closed spec fn failed(&self) -> Seq<u64> {
        self.failed@
    }

    /// Every merge made so far, in the order it was made.
    pub closed spec fn history(&self) -> Seq<MergeCall> {
        self.history@
    }

    /// The aggregate is the outcome of the merges made, all of them at heights
    /// inside the range, and the failed heights lie inside the range too.
    pub open spec fn wf(&self) -> bool {
        &&& self.config().from_block <= self.config().to_block
        &&& self.aggregate() == merge_all(Map::empty(), self.history())
        &&& forall|i: int|
            0 <= i < self.history().len() ==> self.config().contains(
                #[trigger] self.history()[i].2,
            )
        &&& forall|i: int|
            0 <= i < self.failed().len() ==> self.config().contains(#[trigger] self.failed()[i])
    }

    /// Starts a scan of `config`, with an empty aggregate; fails with
    /// `InvalidRange`, before anything is fetched, when the range is empty.
    pub fn start(config: Config) -> (r: Result<Scan, ScanError>)
        ensures
            config.from_block > config.to_block <==> r is Err,
            r is Err ==> r == Err::<Scan, ScanError>(ScanError::InvalidRange),
            r matches Ok(s) ==> (s.wf() && s.config() == config && s.aggregate() == Map::<
                Felt,
                StorageValue,
            >::empty() && s.failed().len() == 0 && s.history().len() == 0),
    {
        if config.from_block > config.to_block {
            return Err(ScanError::InvalidRange);
        }
        Ok(Scan { config, state: DumpState::new(), failed: Vec::new(), history: Ghost(Seq::empty()) })
    }

    pub fn config_of(&self) -> (r: Config)
        ensures
            r == self.config(),
    {
        self.config
    }

    /// Records what fetching block `height` gave. A state update has its writes for
    /// the scanned contract merged at `height`; a failure adds `height` to the
    /// failed heights. A height outside the range changes nothing.
    pub fn record(&mut self, height: u64, outcome: Result<BlockStateUpdate, FetchError>)
        requires
            old(self).wf(),
        ensures
            final(self).wf(),
            final(self).config() == old(self).config(),
            !old(self).config().contains(height) ==> (final(self).aggregate() == old(
                self,
            ).aggregate() && final(self).failed() == old(self).failed() && final(self).history()
                == old(self).history()),
            old(self).config().contains(height) ==> match outcome {
                Ok(update) => {
                    let calls = block_calls(
                        entries_for(update.storage_diffs@, old(self).config().contract),
                        height,
                    );
                    &&& final(self).aggregate() == merge_all(old(self).aggregate(), calls)
                    &&& final(self).history() == old(self).history() + calls
                    &&& final(self).failed() == old(self).failed()
                },
                Err(_) => {
                    &&& final(self).aggregate() == old(self).aggregate()
                    &&& final(self).history() == old(self).history()
                    &&& final(self).failed() == old(self).failed().push(height)
                },
            },
    {
        if height < self.config.from_block || height > self.config.to_block {
            return ;
        }
        let ghost failed_before = self.failed();
        assert(forall|i: int|
            0 <= i < failed_before.len() ==> self.config().contains(#[trigger] failed_before[i]));
        match outcome {
            Ok(update) => {
                let entries = update.filter(self.config.contract);
                let ghost calls = block_calls(entries@, height);
                self.state.merge_block(&entries, height);
                proof {
                    lemma_merge_all_append(Map::empty(), self.history@, calls);
                    let before = self.history@;
                    self.history = Ghost(before + calls);
                    assert forall|i: int| 0 <= i < self.history@.len() implies self.config.contains(
                        #[trigger] self.history@[i].2,
                    ) by {
                        if i >= before.len() {
                            assert(self.history@[i] == calls[i - before.len()]);
                            assert(calls[i - before.len()].2 == height);
                        } else {
                            assert(self.history@[i] == before[i]);
                        }
                    }
                    assert(self.state@ == merge_all(Map::empty(), self.history@));
                    assert forall|i: int| 0 <= i < self.failed@.len() implies self.config.contains(
                        #[trigger] self.failed@[i],
                    ) by {
                        assert(self.failed@[i] == failed_before[i]);
                    }
                }
            },
            Err(_) => {
                self.failed.push(height);
            },
        }
    }

    /// Ends the scan and hands back the aggregate and the failed heights.
    pub fn finish(self) -> (r: ScanReport)
        requires
            self.wf(),
        ensures
            r.storage@ == self.aggregate(),
            r.failed@ == self.failed(),
    {
        ScanReport { storage: self.state, failed: self.failed }
    }
}

/// At any point of a scan, and so once it is finished, a key is in the aggregate
/// exactly when a recorded block inside the range wrote it, and then it holds the
/// value written by one of those writes at the highest block that wrote it.
pub proof fn lemma_scan_latest(s: &Scan, key: Felt)
    requires
        s.wf(),
    ensures
        s.aggregate().contains_key(key) <==> (exists|i: int| writes(s.history(), i, key)),
        s.aggregate().contains_key(key) ==> s.config().contains(
            s.aggregate()[key].last_updated_block,
        ),
        s.aggregate().contains_key(key) ==> (exists|i: int|
            #[trigger] writes(s.history(), i, key) && holds_call(s.aggregate()[key], s.history()[i])),
        forall|i: int| #[trigger]
            writes(s.history(), i, key) ==> s.history()[i].2 <= s.aggregate()[key].last_updated_block,
{
    lemma_merge_monotonic(Map::empty(), s.history(), key);
    if s.aggregate().contains_key(key) {
        let w = choose|i: int|
            #[trigger] writes(s.history(), i, key) && holds_call(s.aggregate()[key], s.history()[i]);
        assert(s.config().contains(s.history()[w].2));
    }
}

/// Merging two sequences of calls one after the other is merging their
/// concatenation.
pub proof fn lemma_merge_all_append(
    m: Map<Felt, StorageValue>,
    first: Seq<MergeCall>,
    second: Seq<MergeCall>,
)
    ensures
        merge_all(merge_all(m, first), second) == merge_all(m, first + second),
    decreases second.len(),
{
    if second.len() > 0 {
        lemma_merge_all_append(m, first, second.drop_last());
        assert((first + second).drop_last() =~= first + second.drop_last());
    } else {
        assert(first + second =~= first);
    }
}

} // verus!
