//! The state of sync: which blocks are scanned, in what order the rest are taken, and where the shards lie.
use crate::primitives::{
    bytes_32_values, lemma_be_value_32_bound, BlockHeight, BlockRange, ShieldedPool, TxId,
};
use crate::scan_range::{
    contiguous, covered_by, covers, lemma_contiguous_is_ordered, lemma_priority_at, priority_at, ScanPriority,
    ScanRange,
};
use crate::sorted_map::{OrderedKey, SortedMap};
use vstd::prelude::*;

verus! {

/// A transaction that must be scanned, and the blocks to prioritise around it.
#[derive(Clone, Copy, Debug, PartialEq, Eq, PartialOrd, Ord, Hash)]
pub struct ScanTarget {
    /// Block height.
    pub block_height: BlockHeight,
    /// Transaction id.
    pub txid: TxId,
    /// Whether only the blocks close to the transaction are prioritised, in place of its whole shard.
    pub narrow_scan_area: bool,
}

impl OrderedKey for ScanTarget {
    open spec fn rank(&self) -> nat {
        (self.block_height as nat * bytes_32_values() + self.txid.rank()) * 2 + if self.narrow_scan_area {
            1nat
        } else {
            0nat
        }
    }

    proof fn rank_is_injective(a: Self, b: Self) {
        lemma_be_value_32_bound(a.txid.bytes);
        lemma_be_value_32_bound(b.txid.bytes);
        TxId::rank_is_injective(a.txid, b.txid);
    }

    fn precedes(&self, other: &Self) -> bool {
        proof {
            lemma_be_value_32_bound(self.txid.bytes);
            lemma_be_value_32_bound(other.txid.bytes);
        }
        if self.block_height != other.block_height {
            self.block_height < other.block_height
        } else if self.txid.precedes(&other.txid) {
            true
        } else if other.txid.precedes(&self.txid) {
            false
        } else {
            !self.narrow_scan_area && other.narrow_scan_area
        }
    }
}

/// A set of scan targets, in the order of height and transaction.
pub type ScanTargets = SortedMap<ScanTarget, ()>;

/// The sizes of the note commitment trees at the two ends of a run of blocks.
#[derive(Clone, Copy, Debug, PartialEq, Eq, Structural)]
pub struct TreeBounds {
    pub sapling_initial_tree_size: u32,
    pub sapling_final_tree_size: u32,
    pub orchard_initial_tree_size: u32,
    pub orchard_final_tree_size: u32,
    pub ironwood_initial_tree_size: u32,
    pub ironwood_final_tree_size: u32,
}

impl TreeBounds {
    /// The size of the tree of `pool` before the first block.
    pub open spec fn initial_of(self, pool: ShieldedPool) -> u32 {
        match pool {
            ShieldedPool::Sapling => self.sapling_initial_tree_size,
            ShieldedPool::Orchard => self.orchard_initial_tree_size,
            ShieldedPool::Ironwood => self.ironwood_initial_tree_size,
        }
    }

    /// The size of the tree of `pool` after the last block.
    pub open spec fn final_of(self, pool: ShieldedPool) -> u32 {
        match pool {
            ShieldedPool::Sapling => self.sapling_final_tree_size,
            ShieldedPool::Orchard => self.orchard_final_tree_size,
            ShieldedPool::Ironwood => self.ironwood_final_tree_size,
        }
    }

    /// No tree shrinks.
    pub open spec fn ascending(self) -> bool {
        forall|pool: ShieldedPool| #[trigger] self.initial_of(pool) <= self.final_of(pool)
    }

    /// Bounds of empty trees.
    pub fn zero() -> (r: TreeBounds)
        ensures
            r == zero_bounds(),
    {
        TreeBounds {
            sapling_initial_tree_size: 0,
            sapling_final_tree_size: 0,
            orchard_initial_tree_size: 0,
            orchard_final_tree_size: 0,
            ironwood_initial_tree_size: 0,
            ironwood_final_tree_size: 0,
        }
    }

    /// The size of the tree of `pool` before the first block.
    pub fn initial_tree_size(&self, pool: ShieldedPool) -> (r: u32)
        ensures
            r == self.initial_of(pool),
    {
        match pool {
            ShieldedPool::Sapling => self.sapling_initial_tree_size,
            ShieldedPool::Orchard => self.orchard_initial_tree_size,
            ShieldedPool::Ironwood => self.ironwood_initial_tree_size,
        }
    }

    /// The size of the tree of `pool` after the last block.
    pub fn final_tree_size(&self, pool: ShieldedPool) -> (r: u32)
        ensures
            r == self.final_of(pool),
    {
        match pool {
            ShieldedPool::Sapling => self.sapling_final_tree_size,
            ShieldedPool::Orchard => self.orchard_final_tree_size,
            ShieldedPool::Ironwood => self.ironwood_final_tree_size,
        }
    }
}

/// The bounds of empty trees.
pub open spec fn zero_bounds() -> TreeBounds {
    TreeBounds {
        sapling_initial_tree_size: 0,
        sapling_final_tree_size: 0,
        orchard_initial_tree_size: 0,
        orchard_final_tree_size: 0,
        ironwood_initial_tree_size: 0,
        ironwood_final_tree_size: 0,
    }
}

/// What was known of the wallet when the sync session began.
#[derive(Clone, Copy, Debug, PartialEq, Eq, Structural)]
pub struct InitialSyncState {
    /// One block above the fully scanned height when sync began.
    pub sync_start_height: BlockHeight,
    /// The tree sizes at the wallet birthday and at the chain tip.
    pub wallet_tree_bounds: TreeBounds,
    /// Total number of blocks scanned in previous sync sessions.
    pub previously_scanned_blocks: u32,
    /// Total number of sapling outputs scanned in previous sync sessions.
    pub previously_scanned_sapling_outputs: u32,
    /// Total number of orchard outputs scanned in previous sync sessions.
    pub previously_scanned_orchard_outputs: u32,
    /// Total number of ironwood outputs scanned in previous sync sessions.
    pub previously_scanned_ironwood_outputs: u32,
}

/// The values of a session that has not begun.
pub open spec fn no_session() -> InitialSyncState {
    InitialSyncState {
        sync_start_height: 0,
        wallet_tree_bounds: zero_bounds(),
        previously_scanned_blocks: 0,
        previously_scanned_sapling_outputs: 0,
        previously_scanned_orchard_outputs: 0,
        previously_scanned_ironwood_outputs: 0,
    }
}

impl InitialSyncState {
    pub fn new() -> (r: Self)
        ensures
            r == no_session(),
    {
        InitialSyncState {
            sync_start_height: 0,
            wallet_tree_bounds: TreeBounds::zero(),
            previously_scanned_blocks: 0,
            previously_scanned_sapling_outputs: 0,
            previously_scanned_orchard_outputs: 0,
            previously_scanned_ironwood_outputs: 0,
        }
    }
}

/// The state of sync.
#[derive(Debug, PartialEq, Eq)]
pub struct SyncState {
    /// The prioritised block ranges, in block height order with no overlaps or gaps.
    pub scan_ranges: Vec<ScanRange>,
    /// The block ranges of the complete sapling shards, in block height order.
    pub sapling_shard_ranges: Vec<BlockRange>,
    /// The block ranges of the complete orchard shards, in block height order.
    pub orchard_shard_ranges: Vec<BlockRange>,
    /// The block ranges of the complete ironwood shards, in block height order.
    pub ironwood_shard_ranges: Vec<BlockRange>,
    /// Transactions that are to be scanned with priority.
    pub scan_targets: ScanTargets,
    /// What was known when the sync session began.
    pub initial_sync_state: InitialSyncState,
}

/// The height below `height`, where there is one.
pub open spec fn below(height: BlockHeight) -> BlockHeight {
    if height == 0 {
        0
    } else {
        (height - 1) as u32
    }
}

/// The height above `height`, where there is one.
pub open spec fn above(height: BlockHeight) -> BlockHeight {
    if height == u32::MAX {
        u32::MAX
    } else {
        (height + 1) as u32
    }
}

/// The first range from `i` on that is not fully scanned.
pub open spec fn first_not_scanned(ranges: Seq<ScanRange>, i: int) -> int
    decreases ranges.len() - i,
{
    if i >= ranges.len() || ranges[i].priority != ScanPriority::Scanned {
        i
    } else {
        first_not_scanned(ranges, i + 1)
    }
}

/// The last range below `n` whose blocks have been scanned, or -1.
pub open spec fn last_scanned(ranges: Seq<ScanRange>, n: int) -> int
    decreases n,
{
    if n <= 0 || ranges[n - 1].priority.scanned() {
        n - 1
    } else {
        last_scanned(ranges, n - 1)
    }
}

impl SyncState {
    /// The shard ranges of `pool`.
    pub open spec fn shards_of(&self, pool: ShieldedPool) -> Seq<BlockRange> {
        match pool {
            ShieldedPool::Sapling => self.sapling_shard_ranges@,
            ShieldedPool::Orchard => self.orchard_shard_ranges@,
            ShieldedPool::Ironwood => self.ironwood_shard_ranges@,
        }
    }

    /// The lowest height that the wallet scans.
    pub open spec fn birthday(&self) -> Option<BlockHeight> {
        if self.scan_ranges@.len() == 0 {
            None
        } else {
            Some(self.scan_ranges@[0].block_range.start)
        }
    }

    /// The highest height that the wallet knows of.
    pub open spec fn known_tip(&self) -> Option<BlockHeight> {
        if self.scan_ranges@.len() == 0 {
            None
        } else {
            Some(below(self.scan_ranges@.last().block_range.end))
        }
    }

    /// The height at and below which every block is scanned.
    pub open spec fn scanned_to(&self) -> Option<BlockHeight> {
        let ranges = self.scan_ranges@;
        let first = first_not_scanned(ranges, 0);
        if ranges.len() == 0 {
            None
        } else if first < ranges.len() {
            Some(below(ranges[first].block_range.start))
        } else {
            Some(below(ranges.last().block_range.end))
        }
    }

    /// The highest block that has been scanned, or the one below the birthday.
    pub open spec fn scanned_top(&self) -> Option<BlockHeight> {
        let ranges = self.scan_ranges@;
        let last = last_scanned(ranges, ranges.len() as int);
        if ranges.len() == 0 {
            None
        } else if last >= 0 {
            Some(below(ranges[last].block_range.end))
        } else {
            Some(below(ranges[0].block_range.start))
        }
    }

    /// Whether no field but the scan ranges differs.
    pub open spec fn same_but_scan_ranges(&self, other: &SyncState) -> bool {
        &&& self.sapling_shard_ranges == other.sapling_shard_ranges
        &&& self.orchard_shard_ranges == other.orchard_shard_ranges
        &&& self.ironwood_shard_ranges == other.ironwood_shard_ranges
        &&& self.scan_targets == other.scan_targets
        &&& self.initial_sync_state == other.initial_sync_state
    }

    /// Whether nothing has been recorded yet.
    pub open spec fn blank(&self) -> bool {
        &&& self.scan_ranges@.len() == 0
        &&& self.sapling_shard_ranges@.len() == 0
        &&& self.orchard_shard_ranges@.len() == 0
        &&& self.ironwood_shard_ranges@.len() == 0
        &&& self.scan_targets.wf()
        &&& self.scan_targets@ == Map::<ScanTarget, ()>::empty()
        &&& self.initial_sync_state == no_session()
    }

    /// Creates the state of a wallet that has never synced.
    pub fn new() -> (r: Self)
        ensures
            r.blank(),
    {
        SyncState {
            scan_ranges: Vec::new(),
            sapling_shard_ranges: Vec::new(),
            orchard_shard_ranges: Vec::new(),
            ironwood_shard_ranges: Vec::new(),
            scan_targets: SortedMap::new(),
            initial_sync_state: InitialSyncState::new(),
        }
    }

    /// The prioritised block ranges.
    pub fn scan_ranges(&self) -> (r: &Vec<ScanRange>)
        ensures
            r@ == self.scan_ranges@,
    {
        &self.scan_ranges
    }

    /// The shard ranges of `pool`.
    pub fn shard_ranges(&self, pool: ShieldedPool) -> (r: &Vec<BlockRange>)
        ensures
            r@ == self.shards_of(pool),
    {
        match pool {
            ShieldedPool::Sapling => &self.sapling_shard_ranges,
            ShieldedPool::Orchard => &self.orchard_shard_ranges,
            ShieldedPool::Ironwood => &self.ironwood_shard_ranges,
        }
    }

    /// The wallet birthday, or `None` if there are no scan ranges.
    pub fn wallet_birthday(&self) -> (r: Option<BlockHeight>)
        ensures
            r == self.birthday(),
    {
        if self.scan_ranges.len() == 0 {
            None
        } else {
            Some(self.scan_ranges[0].block_range.start)
        }
    }

    /// The last known chain height, or `None` if there are no scan ranges.
    pub fn last_known_chain_height(&self) -> (r: Option<BlockHeight>)
        ensures
            r == self.known_tip(),
    {
        if self.scan_ranges.len() == 0 {
            None
        } else {
            Some(self.scan_ranges[self.scan_ranges.len() - 1].block_range.end.saturating_sub(1))
        }
    }

    /// The block height at which all blocks equal to and below this height are scanned, or `None` if there are
    /// no scan ranges.
    pub fn fully_scanned_height(&self) -> (r: Option<BlockHeight>)
        ensures
            r == self.scanned_to(),
    {
        let mut i: usize = 0;
        while i < self.scan_ranges.len()
            invariant
                i <= self.scan_ranges@.len(),
                first_not_scanned(self.scan_ranges@, 0) == first_not_scanned(
                    self.scan_ranges@,
                    i as int,
                ),
            decreases self.scan_ranges@.len() - i,
        {
            if self.scan_ranges[i].priority != ScanPriority::Scanned {
                return Some(self.scan_ranges[i].block_range.start.saturating_sub(1));
            }
            i = i + 1;
        }
        self.last_known_chain_height()
    }

    /// The highest block height that has been scanned, or `None` if there are no scan ranges.
    ///
    /// Where nothing has been scanned this is the height below the wallet birthday.
    pub fn highest_scanned_height(&self) -> (r: Option<BlockHeight>)
        ensures
            r == self.scanned_top(),
    {
        if self.scan_ranges.len() == 0 {
            return None;
        }
        let mut n: usize = self.scan_ranges.len();
        while n > 0
            invariant
                n <= self.scan_ranges@.len(),
                self.scan_ranges@.len() > 0,
                last_scanned(self.scan_ranges@, self.scan_ranges@.len() as int) == last_scanned(
                    self.scan_ranges@,
                    n as int,
                ),
            decreases n,
        {
            if self.scan_ranges[n - 1].priority.is_scanned() {
                return Some(self.scan_ranges[n - 1].block_range.end.saturating_sub(1));
            }
            n = n - 1;
        }
        Some(self.scan_ranges[0].block_range.start.saturating_sub(1))
    }

    /// Whether every range is fully scanned.
    pub fn scan_complete(&self) -> (r: bool)
        ensures
            r == (forall|i: int|
                0 <= i < self.scan_ranges@.len() ==> (#[trigger] self.scan_ranges@[i]).priority
                    == ScanPriority::Scanned),
    {
        let mut i: usize = 0;
        while i < self.scan_ranges.len()
            invariant
                i <= self.scan_ranges@.len(),
                forall|k: int|
                    0 <= k < i ==> (#[trigger] self.scan_ranges@[k]).priority
                        == ScanPriority::Scanned,
            decreases self.scan_ranges@.len() - i,
        {
            if self.scan_ranges[i].priority != ScanPriority::Scanned {
                return false;
            }
            i = i + 1;
        }
        true
    }
}

/// Every block that the wallet covers at or below the fully scanned height is scanned, and the block above it,
/// where the wallet knows of one, is not.
pub proof fn law_fully_scanned_height(state: &SyncState, height: int)
    requires
        contiguous(state.scan_ranges@),
        state.birthday() matches Some(birthday) && birthday > 0,
    ensures
        covers(state.scan_ranges@, height) && height <= state.scanned_to()->0 ==> priority_at(
            state.scan_ranges@,
            height,
        ) == Some(ScanPriority::Scanned),
        state.scanned_to()->0 < state.known_tip()->0 ==> covers(
            state.scan_ranges@,
            state.scanned_to()->0 + 1,
        ) && priority_at(state.scan_ranges@, state.scanned_to()->0 + 1) != Some(
            ScanPriority::Scanned,
        ),
{
    let ranges = state.scan_ranges@;
    lemma_contiguous_is_ordered(ranges);
    lemma_first_not_scanned(ranges, 0);
    let first = first_not_scanned(ranges, 0);
    assert(ranges[0].covers_blocks());
    if first < ranges.len() {
        assert(ranges[first].covers_blocks());
    }
    if first > 0 && first < ranges.len() {
        assert(ranges[0].block_range.end <= ranges[first].block_range.start);
    }
    if covers(ranges, height) && height <= state.scanned_to()->0 {
        let c = choose|c: int| #[trigger] covered_by(ranges, c, height);
        assert(covered_by(ranges, c, height));
        lemma_priority_at(ranges, c, height);
        if first < ranges.len() && c > first {
            assert(ranges[first].block_range.end <= ranges[c].block_range.start);
        }
    }
    if state.scanned_to()->0 < state.known_tip()->0 {
        let h = state.scanned_to()->0 + 1;
        assert(covered_by(ranges, first, h));
        lemma_priority_at(ranges, first, h);
    }
}

proof fn lemma_first_not_scanned(ranges: Seq<ScanRange>, i: int)
    requires
        0 <= i <= ranges.len(),
    ensures
        i <= first_not_scanned(ranges, i) <= ranges.len(),
        first_not_scanned(ranges, i) < ranges.len() ==> ranges[first_not_scanned(
            ranges,
            i,
        )].priority != ScanPriority::Scanned,
        forall|k: int|
            i <= k < first_not_scanned(ranges, i) ==> (#[trigger] ranges[k]).priority
                == ScanPriority::Scanned,
    decreases ranges.len() - i,
{
    if i < ranges.len() && ranges[i].priority == ScanPriority::Scanned {
        lemma_first_not_scanned(ranges, i + 1);
    }
}

} // verus!
