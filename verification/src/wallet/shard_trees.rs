//! The note commitment trees of a wallet.
use crate::primitives::{BlockHeight, ShieldedPool};
use crate::trees::{
    empty_tree, entry_can_be_indexed, entry_checkpoint, entry_of, fits_level, is_deep, is_nested, is_shard,
    is_too_deep, lemma_nested_is_not_deep, lists_checkpoints, names_indexable, shard_at_front, shard_length,
    shards_with, CheckpointEntry, CheckpointView, NoteTree, ShardView, TreeView, MAX_NESTING, SHARDS, SHARD_HEIGHT,
    TREE_DEPTH,
};
use crate::wallet::codec::{
    le_bytes, lemma_list_round_trip, list_encodable, list_encoding, parse_compact, parse_items, parse_list,
    parse_number, parse_u8, read_list, views_of, write_list, write_slice, write_u32, write_u64, write_u8, Parsed,
    ReadError, Reader, Wire, WriteError, MAX_COMPACT_SIZE,
};
use crate::wallet::serialization::{lemma_u32_round_trip, lemma_u64_round_trip};
use vstd::prelude::*;

verus! {

/// The trees of all shielded pools.
pub struct ShardTrees {
    pub sapling: NoteTree,
    pub orchard: NoteTree,
    pub ironwood: NoteTree,
}

/// A tree as it is before the first block: without leaves, and with a checkpoint of that at height zero.
pub open spec fn fresh_tree(orchard: bool) -> TreeView {
    TreeView {
        checkpoints: Map::empty().insert(
            0,
            CheckpointView { position: None, marks_removed: Set::empty() },
        ),
        ..empty_tree(orchard)
    }
}

/// A tree as it is before the first block.
fn new_tree(orchard: bool) -> (r: NoteTree)
    ensures
        r@ == fresh_tree(orchard),
{
    let mut tree = NoteTree::empty(orchard);
    let outcome = tree.append_checkpoint(0);
    proof {
        let added = Map::<BlockHeight, CheckpointView>::empty().insert(
            0,
            CheckpointView { position: None, marks_removed: Set::empty() },
        );
        assert(crate::shardtree_ext::above_newest(empty_tree(orchard), 0));
        assert(crate::trees::newer_unretained(added, Set::empty(), 0) =~= Set::<BlockHeight>::empty());
        assert(crate::trees::newer_unretained(tree@.checkpoints, Set::empty(), 0) =~= Set::<BlockHeight>::empty());
        crate::shardtree_ext::law_checkpoint_is_appended_once(
            Map::empty(),
            Set::empty(),
            0,
            CheckpointView { position: tree@.checkpoints[0].position, marks_removed: Set::empty() },
        );
        assert(tree@.checkpoints =~= added);
        assert(tree@.shards =~= Seq::empty());
    }
    tree
}

impl ShardTrees {
    /// The tree of `pool`.
    pub open spec fn of(&self, pool: ShieldedPool) -> TreeView {
        match pool {
            ShieldedPool::Sapling => self.sapling@,
            ShieldedPool::Orchard => self.orchard@,
            ShieldedPool::Ironwood => self.ironwood@,
        }
    }

    /// Whether the tree of each pool is one of the protocol of the pool.
    pub open spec fn wf(&self) -> bool {
        &&& !self.sapling@.orchard
        &&& self.orchard@.orchard
        &&& self.ironwood@.orchard
    }

    /// Trees as they are before the first block.
    pub fn new() -> (r: Self)
        ensures
            r.wf(),
            r.sapling@ == fresh_tree(false),
            r.orchard@ == fresh_tree(true),
            r.ironwood@ == fresh_tree(true),
    {
        ShardTrees { sapling: new_tree(false), orchard: new_tree(true), ironwood: new_tree(true) }
    }

    /// Takes the tree of `pool` back to what it was before the first block.
    pub fn clear_pool(&mut self, pool: ShieldedPool)
        ensures
            final(self)@ == with_tree(old(self)@, pool, fresh_tree(pool != ShieldedPool::Sapling)),
    {
        match pool {
            ShieldedPool::Sapling => {
                self.sapling = new_tree(false);
            },
            ShieldedPool::Orchard => {
                self.orchard = new_tree(true);
            },
            ShieldedPool::Ironwood => {
                self.ironwood = new_tree(true);
            },
        }
    }
}

// --- subtrees ---

/// A subtree and its place, as they are written.
#[derive(Debug, PartialEq, Eq)]
pub struct StoredShard {
    pub level: u8,
    pub index: u64,
    pub bytes: Vec<u8>,
}

/// The value of a [`StoredShard`].
pub struct StoredShardView {
    pub level: u8,
    pub index: u64,
    pub bytes: Seq<u8>,
}

impl View for StoredShard {
    type V = StoredShardView;

    open spec fn view(&self) -> StoredShardView {
        StoredShardView { level: self.level, index: self.index, bytes: self.bytes@ }
    }
}

/// The subtree at the front. It must be of [`SHARD_HEIGHT`], and no tree has room for an index beyond [`SHARDS`]. The way up
/// from any other subtree does not lead to the root of the tree.
pub open spec fn parse_stored_shard(b: Seq<u8>, orchard: bool) -> Parsed<StoredShardView> {
    match parse_u8(b) {
        Err(error) => Err(error),
        Ok((level, b0)) => match parse_number(b0, 8) {
            Err(error) => Err(error),
            Ok((index, b1)) => match parse_shard_bytes(b1, orchard) {
                Err(error) => Err(error),
                Ok((bytes, left)) => if level == SHARD_HEIGHT && index < SHARDS && is_shard(bytes, orchard)
                    && is_nested(bytes, level) {
                    Ok((StoredShardView { level, index: index as u64, bytes }, left))
                } else {
                    Err(ReadError::InvalidData)
                },
            },
        },
    }
}

impl Wire for StoredShard {
    open spec fn parse(b: Seq<u8>, context: u8) -> Parsed<StoredShardView> {
        parse_stored_shard(b, context != 0)
    }

    open spec fn encoding(value: StoredShardView) -> Seq<u8> {
        seq![value.level] + le_bytes(value.index as nat, 8) + value.bytes
    }

    open spec fn encodable(value: StoredShardView) -> bool {
        true
    }

    open spec fn storable(value: StoredShardView, context: u8) -> bool {
        &&& value.level == SHARD_HEIGHT
        &&& value.index < SHARDS
        &&& is_shard(value.bytes, context != 0)
        &&& is_nested(value.bytes, value.level)
    }

    proof fn round_trip(value: StoredShardView, context: u8, rest: Seq<u8>) {
        let b1 = value.bytes + rest;
        let b0 = le_bytes(value.index as nat, 8) + b1;
        let all = Self::encoding(value) + rest;
        assert(all =~= seq![value.level] + b0);
        assert(all.skip(1) =~= b0);
        lemma_u64_round_trip(value.index, b1);
        lemma_nested_is_not_deep(value.bytes, rest, value.level);
        assert(b1.take(value.bytes.len() as int) =~= value.bytes);
        assert(b1.skip(value.bytes.len() as int) =~= rest);
    }

    fn read_from(reader: &mut Reader<'_>, context: u8) -> (r: Result<Self, ReadError>) {
        let orchard = context != 0;
        let level: u8 = match reader.read_u8() {
            Ok(level) => level,
            Err(error) => {
                return Err(error);
            },
        };
        let index: u64 = match reader.read_u64() {
            Ok(index) => index,
            Err(error) => {
                return Err(error);
            },
        };
        let bytes = match read_shard_bytes(reader, orchard) {
            Ok(bytes) => bytes,
            Err(error) => {
                return Err(error);
            },
        };
        if level == SHARD_HEIGHT && index < SHARDS && fits_level(bytes.as_slice(), orchard, level) {
            Ok(StoredShard { level, index, bytes })
        } else {
            Err(ReadError::InvalidData)
        }
    }

    fn write_to(&self, out: &mut Vec<u8>) -> (r: Result<(), WriteError>) {
        let ghost before = out@;
        write_u8(out, self.level);
        write_u64(out, self.index);
        write_slice(out, self.bytes.as_slice());
        assert(out@ =~= before + Self::encoding(self@));
        Ok(())
    }
}

proof fn lemma_read_shards_are_sound(b: Seq<u8>, context: u8, n: nat)
    ensures
        parse_items::<StoredShard>(b, context, n) matches Ok((values, _)) ==> forall|i: int|
            0 <= i < values.len() ==> <StoredShard as Wire>::storable(#[trigger] values[i], context),
    decreases n,
{
    if n > 0 {
        lemma_read_shards_are_sound(b, context, (n - 1) as nat);
    }
}

/// The bytes of the tree at the front. Parents that lie within each other more deeply than any level allows are refused.
pub open spec fn parse_shard_bytes(b: Seq<u8>, orchard: bool) -> Parsed<Seq<u8>> {
    if is_deep(b, MAX_NESTING) {
        Err(ReadError::InvalidData)
    } else {
        match shard_at_front(b, orchard) {
            Err(error) => Err(error),
            Ok(length) => Ok((b.take(length as int), b.skip(length as int))),
        }
    }
}

fn read_shard_bytes(reader: &mut Reader<'_>, orchard: bool) -> (r: Result<Vec<u8>, ReadError>)
    requires
        old(reader).wf(),
    ensures
        final(reader).wf(),
        match parse_shard_bytes(old(reader)@, orchard) {
            Ok((value, left)) => r matches Ok(v) && v@ == value && is_shard(v@, orchard) && is_nested(v@, MAX_NESTING)
                && final(reader)@ == left,
            Err(error) => r matches Err(e) && e == error,
        },
{
    let rest = reader.rest();
    if is_too_deep(rest.as_slice()) {
        return Err(ReadError::InvalidData);
    }
    match shard_length(rest.as_slice(), orchard) {
        Ok(length) => reader.read_vec(length),
        Err(error) => Err(error),
    }
}

// --- checkpoints ---

/// The value of a [`CheckpointEntry`].
pub struct CheckpointItem {
    pub id: BlockHeight,
    pub position: Option<u64>,
    pub marks_removed: Seq<u64>,
}

impl View for CheckpointEntry {
    type V = CheckpointItem;

    open spec fn view(&self) -> CheckpointItem {
        CheckpointItem { id: self.id, position: self.position, marks_removed: self.marks_removed@ }
    }
}

/// The last leaf of a state at the front.
pub open spec fn parse_tree_state(b: Seq<u8>) -> Parsed<Option<u64>> {
    match parse_u8(b) {
        Err(error) => Err(error),
        Ok((flag, b0)) => if flag == 0 {
            Ok((None, b0))
        } else if flag == 1 {
            match parse_number(b0, 8) {
                Err(error) => Err(error),
                Ok((position, left)) => Ok((Some(position as u64), left)),
            }
        } else {
            Err(ReadError::InvalidData)
        },
    }
}

/// The checkpoint at the front.
pub open spec fn parse_checkpoint(b: Seq<u8>) -> Parsed<CheckpointItem> {
    match parse_number(b, 4) {
        Err(error) => Err(error),
        Ok((id, b0)) => match parse_tree_state(b0) {
            Err(error) => Err(error),
            Ok((position, b1)) => match parse_list::<u64>(b1, 0) {
                Err(error) => Err(error),
                Ok((marks_removed, left)) => Ok(
                    (CheckpointItem { id: id as u32, position, marks_removed }, left),
                ),
            },
        },
    }
}

/// The bytes of the last leaf of a state.
pub open spec fn tree_state_encoding(position: Option<u64>) -> Seq<u8> {
    match position {
        None => seq![0u8],
        Some(position) => seq![1u8] + le_bytes(position as nat, 8),
    }
}

proof fn lemma_views_of_marks(marks: Seq<u64>)
    ensures
        views_of(marks) == marks,
{
    assert(views_of(marks) =~= marks);
}

impl Wire for CheckpointEntry {
    open spec fn parse(b: Seq<u8>, context: u8) -> Parsed<CheckpointItem> {
        parse_checkpoint(b)
    }

    open spec fn encoding(value: CheckpointItem) -> Seq<u8> {
        le_bytes(value.id as nat, 4) + tree_state_encoding(value.position) + list_encoding::<u64>(
            value.marks_removed,
        )
    }

    open spec fn encodable(value: CheckpointItem) -> bool {
        value.marks_removed.len() <= MAX_COMPACT_SIZE
    }

    open spec fn storable(value: CheckpointItem, context: u8) -> bool {
        value.marks_removed.len() <= MAX_COMPACT_SIZE
    }

    proof fn round_trip(value: CheckpointItem, context: u8, rest: Seq<u8>) {
        let b1 = list_encoding::<u64>(value.marks_removed) + rest;
        let b0 = tree_state_encoding(value.position) + b1;
        assert(Self::encoding(value) + rest =~= le_bytes(value.id as nat, 4) + b0);
        lemma_u32_round_trip(value.id, b0);
        match value.position {
            None => {
                assert(b0.skip(1) =~= b1);
            },
            Some(position) => {
                assert(b0.skip(1) =~= le_bytes(position as nat, 8) + b1);
                lemma_u64_round_trip(position, b1);
            },
        }
        lemma_list_round_trip::<u64>(value.marks_removed, 0, rest);
    }

    fn read_from(reader: &mut Reader<'_>, context: u8) -> (r: Result<Self, ReadError>) {
        let id: u32 = match reader.read_u32() {
            Ok(id) => id,
            Err(error) => {
                return Err(error);
            },
        };
        let flag: u8 = match reader.read_u8() {
            Ok(flag) => flag,
            Err(error) => {
                return Err(error);
            },
        };
        let position: Option<u64> = if flag == 0 {
            None
        } else if flag == 1 {
            match reader.read_u64() {
                Ok(position) => Some(position),
                Err(error) => {
                    return Err(error);
                },
            }
        } else {
            return Err(ReadError::InvalidData);
        };
        match read_list::<u64>(reader, 0) {
            Ok(marks_removed) => {
                proof {
                    lemma_views_of_marks(marks_removed@);
                }
                Ok(CheckpointEntry { id, position, marks_removed })
            },
            Err(error) => Err(error),
        }
    }

    fn write_to(&self, out: &mut Vec<u8>) -> (r: Result<(), WriteError>) {
        let ghost before = out@;
        write_u32(out, self.id);
        match self.position {
            None => write_u8(out, 0),
            Some(position) => {
                write_u8(out, 1);
                write_u64(out, position);
            },
        }
        proof {
            lemma_views_of_marks(self.marks_removed@);
        }
        if let Err(error) = write_list(&self.marks_removed, out) {
            return Err(error);
        }
        assert(out@ =~= before + Self::encoding(self@));
        Ok(())
    }
}

// --- trees ---

/// The subtrees, each put at its place.
pub open spec fn shards_of(stored: Seq<StoredShardView>) -> Seq<ShardView>
    decreases stored.len(),
{
    if stored.len() == 0 {
        Seq::empty()
    } else {
        let last = stored.last();
        shards_with(
            shards_of(stored.drop_last()),
            last.index as int,
            ShardView { level: last.level, bytes: last.bytes },
        )
    }
}

/// The checkpoints by their height, of which the last one at a height counts.
pub open spec fn checkpoints_of(items: Seq<CheckpointItem>) -> Map<BlockHeight, CheckpointView>
    decreases items.len(),
{
    if items.len() == 0 {
        Map::empty()
    } else {
        checkpoints_of(items.drop_last()).insert(items.last().id, checkpoint_of(items.last()))
    }
}

pub open spec fn checkpoint_of(item: CheckpointItem) -> CheckpointView {
    CheckpointView { position: item.position, marks_removed: item.marks_removed.to_set() }
}

/// The tree at the front.
pub open spec fn parse_tree(b: Seq<u8>, orchard: bool) -> Parsed<TreeView> {
    match parse_list::<StoredShard>(b, orchard as u8) {
        Err(error) => Err(error),
        Ok((stored, b0)) => match parse_list::<CheckpointEntry>(b0, 0) {
            Err(error) => Err(error),
            Ok((items, b1)) => match parse_shard_bytes(b1, orchard) {
                Err(error) => Err(error),
                Ok((cap, left)) => if is_nested(cap, TREE_DEPTH) && items_indexable(items) {
                    Ok(
                        (
                            TreeView {
                                orchard,
                                shards: shards_of(stored),
                                cap,
                                checkpoints: checkpoints_of(items),
                                retained: Set::empty(),
                            },
                            left,
                        ),
                    )
                } else {
                    Err(ReadError::InvalidData)
                },
            },
        },
    }
}

/// Whether the leaves that the checkpoints name can be looked for on this machine.
pub open spec fn items_indexable(items: Seq<CheckpointItem>) -> bool {
    forall|i: int| 0 <= i < items.len() ==> names_indexable(checkpoint_of(#[trigger] items[i]))
}

/// The subtrees of a tree with their places.
pub open spec fn stored_shards(shards: Seq<ShardView>) -> Seq<StoredShardView> {
    Seq::new(
        shards.len(),
        |i: int| StoredShardView { level: shards[i].level, index: i as u64, bytes: shards[i].bytes },
    )
}

/// The bytes of a tree whose checkpoints are `items`.
pub open spec fn tree_encoding(tree: TreeView, items: Seq<CheckpointItem>) -> Seq<u8> {
    list_encoding::<StoredShard>(stored_shards(tree.shards)) + (list_encoding::<CheckpointEntry>(items) + tree.cap)
}

/// Whether a tree whose checkpoints are `items` can be written: no list is too long.
pub open spec fn tree_encodable(tree: TreeView, items: Seq<CheckpointItem>) -> bool {
    tree.shards.len() <= MAX_COMPACT_SIZE && list_encodable::<CheckpointEntry>(items)
}

/// Whether the items are the checkpoints, from the oldest to the newest.
pub open spec fn items_list(items: Seq<CheckpointItem>, checkpoints: Map<BlockHeight, CheckpointView>) -> bool {
    &&& forall|i: int, j: int| 0 <= i < j < items.len() ==> items[i].id < items[j].id
    &&& forall|i: int|
        0 <= i < items.len() ==> checkpoints.contains_key((#[trigger] items[i]).id) && checkpoint_of(items[i])
            == checkpoints[items[i].id]
    &&& forall|id: BlockHeight| #[trigger]
        checkpoints.contains_key(id) ==> exists|i: int| 0 <= i < items.len() && (#[trigger] items[i]).id == id
    &&& forall|i: int, j: int, k: int|
        0 <= i < items.len() && 0 <= j < k < (#[trigger] items[i]).marks_removed.len()
            ==> #[trigger] items[i].marks_removed[j] < #[trigger] items[i].marks_removed[k]
}

/// Whether a subtree is well formed.
pub open spec fn shard_sound(shard: ShardView, orchard: bool) -> bool {
    &&& shard.level == SHARD_HEIGHT
    &&& is_shard(shard.bytes, orchard)
    &&& is_nested(shard.bytes, SHARD_HEIGHT)
}

/// Whether a tree is one that is read back: its subtrees are well formed and not too many, and the leaves that its
/// checkpoints name can be looked for on this machine.
pub open spec fn tree_storable(tree: TreeView) -> bool {
    &&& tree.shards.len() <= SHARDS
    &&& forall|i: int|
        0 <= i < tree.shards.len() ==> shard_sound(#[trigger] tree.shards[i], tree.orchard)
    &&& is_shard(tree.cap, tree.orchard)
    &&& is_nested(tree.cap, TREE_DEPTH)
    &&& forall|id: BlockHeight| #[trigger]
        tree.checkpoints.contains_key(id) ==> names_indexable(tree.checkpoints[id])
}

proof fn lemma_shards_of_stored(shards: Seq<ShardView>, n: int)
    requires
        0 <= n <= shards.len() <= SHARDS,
    ensures
        shards_of(stored_shards(shards).take(n)) == shards.take(n),
    decreases n,
{
    let stored = stored_shards(shards);
    if n == 0 {
        assert(shards.take(0) =~= Seq::empty());
    } else {
        lemma_shards_of_stored(shards, n - 1);
        assert(stored.take(n).drop_last() =~= stored.take(n - 1));
        assert(stored.take(n).last() == stored[n - 1]);
        let before = shards.take(n - 1);
        let shard = ShardView { level: stored[n - 1].level, bytes: stored[n - 1].bytes };
        assert(shard == shards[n - 1]);
        assert(shards_with(before, n - 1, shard) =~= shards.take(n));
    }
}

proof fn lemma_checkpoints_of_items(items: Seq<CheckpointItem>, n: int)
    requires
        0 <= n <= items.len(),
        forall|i: int, j: int| 0 <= i < j < items.len() ==> items[i].id < items[j].id,
    ensures
        forall|i: int|
            0 <= i < n ==> checkpoints_of(items.take(n)).contains_key((#[trigger] items[i]).id) && checkpoints_of(
                items.take(n),
            )[items[i].id] == checkpoint_of(items[i]),
        forall|id: BlockHeight| #[trigger]
            checkpoints_of(items.take(n)).contains_key(id) ==> exists|i: int|
                0 <= i < n && (#[trigger] items[i]).id == id,
    decreases n,
{
    if n > 0 {
        lemma_checkpoints_of_items(items, n - 1);
        assert(items.take(n).drop_last() =~= items.take(n - 1));
        assert(items.take(n).last() == items[n - 1]);
        let before = checkpoints_of(items.take(n - 1));
        assert forall|id: BlockHeight| #[trigger] checkpoints_of(items.take(n)).contains_key(id) implies exists|i: int|
            0 <= i < n && (#[trigger] items[i]).id == id by {
            if id == items[n - 1].id {
            } else {
                assert(before.contains_key(id));
            }
        }
    }
}

/// A tree that was written is read back, with no checkpoint retained.
pub proof fn law_tree_round_trip(tree: TreeView, items: Seq<CheckpointItem>, rest: Seq<u8>)
    requires
        tree_storable(tree),
        items_list(items, tree.checkpoints),
        tree_encodable(tree, items),
    ensures
        parse_tree(tree_encoding(tree, items) + rest, tree.orchard) == Ok::<(TreeView, Seq<u8>), ReadError>(
            (TreeView { retained: Set::empty(), ..tree }, rest),
        ),
{
    let stored = stored_shards(tree.shards);
    let context = tree.orchard as u8;
    let b1 = tree.cap + rest;
    let b0 = list_encoding::<CheckpointEntry>(items) + b1;
    assert(tree_encoding(tree, items) + rest =~= list_encoding::<StoredShard>(stored) + b0);
    assert forall|i: int| 0 <= i < stored.len() implies <StoredShard as Wire>::storable(
        #[trigger] stored[i],
        context,
    ) by {
        let shard = tree.shards[i];
    }
    lemma_list_round_trip::<StoredShard>(stored, context, b0);
    assert forall|i: int| 0 <= i < items.len() implies <CheckpointEntry as Wire>::storable(
        #[trigger] items[i],
        0,
    ) by {
        assert(<CheckpointEntry as Wire>::encodable(items[i]));
    }
    lemma_list_round_trip::<CheckpointEntry>(items, 0, b1);
    assert forall|i: int| 0 <= i < items.len() implies names_indexable(checkpoint_of(#[trigger] items[i])) by {
        assert(tree.checkpoints.contains_key(items[i].id));
    }
    lemma_nested_is_not_deep(tree.cap, rest, TREE_DEPTH);
    assert(b1.take(tree.cap.len() as int) =~= tree.cap);
    assert(b1.skip(tree.cap.len() as int) =~= rest);
    lemma_shards_of_stored(tree.shards, tree.shards.len() as int);
    assert(stored.take(stored.len() as int) =~= stored);
    assert(tree.shards.take(tree.shards.len() as int) =~= tree.shards);
    lemma_checkpoints_of_items(items, items.len() as int);
    assert(items.take(items.len() as int) =~= items);
    let back = checkpoints_of(items);
    assert(back =~= tree.checkpoints) by {
        assert forall|id: BlockHeight| back.contains_key(id) == tree.checkpoints.contains_key(id) by {
            if back.contains_key(id) {
                let i = choose|i: int| 0 <= i < items.len() && (#[trigger] items[i]).id == id;
                assert(tree.checkpoints.contains_key(items[i].id));
            }
            if tree.checkpoints.contains_key(id) {
                let i = choose|i: int| 0 <= i < items.len() && (#[trigger] items[i]).id == id;
                assert(back.contains_key(items[i].id));
            }
        }
        assert forall|id: BlockHeight| back.contains_key(id) implies back[id] == tree.checkpoints[id] by {
            let i = choose|i: int| 0 <= i < items.len() && (#[trigger] items[i]).id == id;
            assert(back[items[i].id] == checkpoint_of(items[i]));
        }
    }
}

/// Whether the leaves that the checkpoints name can be looked for on this machine.
fn entries_can_be_indexed(entries: &Vec<CheckpointEntry>) -> (r: bool)
    ensures
        r == items_indexable(views_of(entries@)),
{
    let ghost items = views_of(entries@);
    let count: usize = entries.len();
    let mut i: usize = 0;
    while i < count
        invariant
            i <= count == entries@.len(),
            items == views_of(entries@),
            forall|k: int| 0 <= k < i ==> names_indexable(checkpoint_of(#[trigger] items[k])),
        decreases count - i,
    {
        assert(checkpoint_of(items[i as int]) == entry_checkpoint(entries@[i as int]));
        if !entry_can_be_indexed(&entries[i]) {
            return false;
        }
        i = i + 1;
    }
    true
}

/// Reads a tree.
fn read_tree(reader: &mut Reader<'_>, orchard: bool) -> (r: Result<NoteTree, ReadError>)
    requires
        old(reader).wf(),
    ensures
        final(reader).wf(),
        match parse_tree(old(reader)@, orchard) {
            Ok((value, left)) => r matches Ok(v) && v@ == value && final(reader)@ == left,
            Err(error) => r matches Err(e) && e == error,
        },
{
    let context: u8 = if orchard {
        1
    } else {
        0
    };
    proof {
        if let Ok((n, rest)) = parse_compact(reader@) {
            lemma_read_shards_are_sound(rest, context, n);
        }
    }
    let stored = match read_list::<StoredShard>(reader, context) {
        Ok(stored) => {
            assert forall|k: int| 0 <= k < stored@.len() implies <StoredShard as Wire>::storable(
                (#[trigger] stored@[k])@,
                context,
            ) by {
                assert(views_of(stored@)[k] == stored@[k]@);
            }
            stored
        },
        Err(error) => {
            return Err(error);
        },
    };
    let entries = match read_list::<CheckpointEntry>(reader, 0) {
        Ok(entries) => entries,
        Err(error) => {
            return Err(error);
        },
    };
    let cap = match read_shard_bytes(reader, orchard) {
        Ok(cap) => cap,
        Err(error) => {
            return Err(error);
        },
    };
    if !fits_level(cap.as_slice(), orchard, TREE_DEPTH) {
        return Err(ReadError::InvalidData);
    }
    if !entries_can_be_indexed(&entries) {
        return Err(ReadError::InvalidData);
    }
    let mut tree = NoteTree::empty(orchard);
    let mut i: usize = 0;
    let count: usize = stored.len();
    while i < count
        invariant
            i <= count == stored@.len(),
            tree@ == (TreeView { shards: shards_of(views_of(stored@).take(i as int)), ..empty_tree(orchard) }),
            forall|k: int|
                0 <= k < stored@.len() ==> (#[trigger] stored@[k]).index < SHARDS && stored@[k].level == SHARD_HEIGHT
                    && is_shard(stored@[k].bytes@, orchard) && is_nested(stored@[k].bytes@, SHARD_HEIGHT),
        decreases count - i,
    {
        let shard = &stored[i];
        tree.put_shard(shard.index, shard.bytes.as_slice());
        proof {
            let views = views_of(stored@);
            assert(views.take(i + 1).drop_last() =~= views.take(i as int));
            assert(views.take(i + 1).last() == stored@[i as int]@);
        }
        i = i + 1;
    }
    assert(views_of(stored@).take(count as int) =~= views_of(stored@));
    let mut j: usize = 0;
    let total: usize = entries.len();
    while j < total
        invariant
            j <= total == entries@.len(),
            items_indexable(views_of(entries@)),
            tree@ == (TreeView {
                shards: shards_of(views_of(stored@)),
                checkpoints: checkpoints_of(views_of(entries@).take(j as int)),
                ..empty_tree(orchard)
            }),
        decreases total - j,
    {
        assert(checkpoint_of(views_of(entries@)[j as int]) == entry_checkpoint(entries@[j as int]));
        tree.add_checkpoint(&entries[j]);
        proof {
            let views = views_of(entries@);
            assert(views.take(j + 1).drop_last() =~= views.take(j as int));
            assert(views.take(j + 1).last() == entries@[j as int]@);
        }
        j = j + 1;
    }
    assert(views_of(entries@).take(total as int) =~= views_of(entries@));
    tree.put_cap(cap.as_slice());
    Ok(tree)
}

/// Writes a tree whose checkpoints are `entries`.
fn write_tree(tree: &NoteTree, entries: &Vec<CheckpointEntry>, out: &mut Vec<u8>) -> (r: Result<(), WriteError>)
    requires
        lists_checkpoints(entries@, tree@.checkpoints),
        forall|i: int| 0 <= i < entries@.len() ==> names_indexable(entry_checkpoint(#[trigger] entries@[i])),
    ensures
        r.is_ok() == tree_encodable(tree@, views_of(entries@)),
        r.is_ok() ==> final(out)@ == old(out)@ + tree_encoding(tree@, views_of(entries@)),
        r.is_ok() ==> tree_storable(tree@),
{
    let ghost before = out@;
    let mut stored: Vec<StoredShard> = Vec::new();
    let count: usize = tree.shard_count();
    let mut i: usize = 0;
    while i < count
        invariant
            i <= count == tree@.shards.len(),
            count <= SHARDS,
            views_of(stored@) == stored_shards(tree@.shards).take(i as int),
            forall|k: int| 0 <= k < i ==> shard_sound(#[trigger] tree@.shards[k], tree@.orchard),
        decreases count - i,
    {
        if let Some(shard) = tree.shard(i as u64) {
            let ghost before_push = stored@;
            stored.push(StoredShard { level: shard.level, index: i as u64, bytes: shard.bytes });
            assert(views_of(stored@) =~= views_of(before_push).push(stored@.last()@));
            assert(views_of(stored@) =~= stored_shards(tree@.shards).take(i + 1));
        }
        i = i + 1;
    }
    assert(stored_shards(tree@.shards).take(count as int) =~= stored_shards(tree@.shards));
    if let Err(error) = write_list(&stored, out) {
        return Err(error);
    }
    if let Err(error) = write_list(entries, out) {
        return Err(error);
    }
    let cap = tree.cap();
    write_slice(out, cap.as_slice());
    proof {
        let checkpoints = tree@.checkpoints;
        assert forall|id: BlockHeight| #[trigger] checkpoints.contains_key(id) implies names_indexable(
            checkpoints[id],
        ) by {
            let i = choose|i: int| 0 <= i < entries@.len() && (#[trigger] entries@[i]).id == id;
            assert(entry_of(entries@[i], checkpoints[id]));
            assert(names_indexable(entry_checkpoint(entries@[i])));
        }
    }
    assert(out@ =~= before + tree_encoding(tree@, views_of(entries@)));
    Ok(())
}

proof fn lemma_entries_are_items(entries: Seq<CheckpointEntry>, checkpoints: Map<BlockHeight, CheckpointView>)
    requires
        lists_checkpoints(entries, checkpoints),
    ensures
        items_list(views_of(entries), checkpoints),
{
    let items = views_of(entries);
    assert forall|i: int| 0 <= i < items.len() implies checkpoints.contains_key((#[trigger] items[i]).id)
        && checkpoint_of(items[i]) == checkpoints[items[i].id] by {
        let entry = entries[i];
        assert(entry.id == items[i].id);
    }
    assert forall|id: BlockHeight| #[trigger] checkpoints.contains_key(id) implies exists|i: int|
        0 <= i < items.len() && (#[trigger] items[i]).id == id by {
        let i = choose|i: int| 0 <= i < entries.len() && (#[trigger] entries[i]).id == id;
        assert(items[i].id == id);
    }
    assert forall|i: int, j: int, k: int|
        0 <= i < items.len() && 0 <= j < k < (#[trigger] items[i]).marks_removed.len() implies #[trigger] items[i].marks_removed[j]
        < #[trigger] items[i].marks_removed[k] by {
        let entry = entries[i];
        assert(entry_of(entry, checkpoints[entry.id]));
    }
}

// --- all trees ---

/// The values of the trees of all pools.
pub struct ShardTreesView {
    pub sapling: TreeView,
    pub orchard: TreeView,
    pub ironwood: TreeView,
}

impl View for ShardTrees {
    type V = ShardTreesView;

    open spec fn view(&self) -> ShardTreesView {
        ShardTreesView { sapling: self.sapling@, orchard: self.orchard@, ironwood: self.ironwood@ }
    }
}

/// The trees with that of `pool` replaced.
pub open spec fn with_tree(trees: ShardTreesView, pool: ShieldedPool, tree: TreeView) -> ShardTreesView {
    match pool {
        ShieldedPool::Sapling => ShardTreesView { sapling: tree, ..trees },
        ShieldedPool::Orchard => ShardTreesView { orchard: tree, ..trees },
        ShieldedPool::Ironwood => ShardTreesView { ironwood: tree, ..trees },
    }
}

/// The trees at the front. Before version one there was no ironwood tree.
pub open spec fn parse_shard_trees(b: Seq<u8>) -> Parsed<ShardTreesView> {
    match parse_u8(b) {
        Err(error) => Err(error),
        Ok((version, b0)) => match parse_tree(b0, false) {
            Err(error) => Err(error),
            Ok((sapling, b1)) => match parse_tree(b1, true) {
                Err(error) => Err(error),
                Ok((orchard, b2)) => if version < 1 {
                    Ok((ShardTreesView { sapling, orchard, ironwood: fresh_tree(true) }, b2))
                } else {
                    match parse_tree(b2, true) {
                        Err(error) => Err(error),
                        Ok((ironwood, left)) => Ok((ShardTreesView { sapling, orchard, ironwood }, left)),
                    }
                },
            },
        },
    }
}

/// The checkpoints of the trees of all pools.
pub struct CheckpointLists {
    pub sapling: Seq<CheckpointItem>,
    pub orchard: Seq<CheckpointItem>,
    pub ironwood: Seq<CheckpointItem>,
}

/// The bytes of the trees.
pub open spec fn shard_trees_encoding(trees: ShardTreesView, lists: CheckpointLists) -> Seq<u8> {
    seq![1u8] + (tree_encoding(trees.sapling, lists.sapling) + (tree_encoding(trees.orchard, lists.orchard)
        + tree_encoding(trees.ironwood, lists.ironwood)))
}

/// Whether the lists are the checkpoints of the trees.
pub open spec fn lists_of(lists: CheckpointLists, trees: ShardTreesView) -> bool {
    &&& items_list(lists.sapling, trees.sapling.checkpoints)
    &&& items_list(lists.orchard, trees.orchard.checkpoints)
    &&& items_list(lists.ironwood, trees.ironwood.checkpoints)
}

/// Whether the trees can be written: no list is too long.
pub open spec fn shard_trees_encodable(trees: ShardTreesView, lists: CheckpointLists) -> bool {
    &&& tree_encodable(trees.sapling, lists.sapling)
    &&& tree_encodable(trees.orchard, lists.orchard)
    &&& tree_encodable(trees.ironwood, lists.ironwood)
}

/// Trees that were written are read back, with no checkpoint retained.
pub proof fn law_shard_trees_round_trip(trees: ShardTreesView, lists: CheckpointLists, rest: Seq<u8>)
    requires
        tree_storable(trees.sapling),
        tree_storable(trees.orchard),
        tree_storable(trees.ironwood),
        !trees.sapling.orchard,
        trees.orchard.orchard,
        trees.ironwood.orchard,
        lists_of(lists, trees),
        shard_trees_encodable(trees, lists),
    ensures
        parse_shard_trees(shard_trees_encoding(trees, lists) + rest) == Ok::<(ShardTreesView, Seq<u8>), ReadError>(
            (
                ShardTreesView {
                    sapling: TreeView { retained: Set::empty(), ..trees.sapling },
                    orchard: TreeView { retained: Set::empty(), ..trees.orchard },
                    ironwood: TreeView { retained: Set::empty(), ..trees.ironwood },
                },
                rest,
            ),
        ),
{
    let e0 = tree_encoding(trees.sapling, lists.sapling);
    let e1 = tree_encoding(trees.orchard, lists.orchard);
    let e2 = tree_encoding(trees.ironwood, lists.ironwood);
    let b2 = e2 + rest;
    let b1 = e1 + b2;
    let b0 = e0 + b1;
    lemma_four_pieces(seq![1u8], e0, e1, e2, rest);
    assert((seq![1u8] + b0).skip(1) =~= b0);
    law_tree_round_trip(trees.sapling, lists.sapling, b1);
    law_tree_round_trip(trees.orchard, lists.orchard, b2);
    law_tree_round_trip(trees.ironwood, lists.ironwood, rest);
}

proof fn lemma_four_pieces(a: Seq<u8>, b: Seq<u8>, c: Seq<u8>, d: Seq<u8>, rest: Seq<u8>)
    ensures
        (a + (b + (c + d))) + rest == a + (b + (c + (d + rest))),
{
    assert((a + (b + (c + d))) + rest =~= a + (b + (c + (d + rest))));
}

impl ShardTrees {
    /// The version that is written. Version one appends the ironwood tree.
    pub fn serialized_version() -> (r: u8)
        ensures
            r == 1,
    {
        1
    }

    /// Reads the trees.
    pub fn read(reader: &mut Reader<'_>) -> (r: Result<Self, ReadError>)
        requires
            old(reader).wf(),
        ensures
            final(reader).wf(),
            match parse_shard_trees(old(reader)@) {
                Ok((value, left)) => r matches Ok(v) && v@ == value && v.wf() && final(reader)@ == left,
                Err(error) => r matches Err(e) && e == error,
            },
    {
        let version: u8 = match reader.read_u8() {
            Ok(version) => version,
            Err(error) => {
                return Err(error);
            },
        };
        let sapling = match read_tree(reader, false) {
            Ok(tree) => tree,
            Err(error) => {
                return Err(error);
            },
        };
        let orchard = match read_tree(reader, true) {
            Ok(tree) => tree,
            Err(error) => {
                return Err(error);
            },
        };
        let ironwood = if version >= 1 {
            match read_tree(reader, true) {
                Ok(tree) => tree,
                Err(error) => {
                    return Err(error);
                },
            }
        } else {
            new_tree(true)
        };
        Ok(ShardTrees { sapling, orchard, ironwood })
    }

    /// Writes the trees.
    pub fn write(&self, out: &mut Vec<u8>) -> (r: Result<(), WriteError>)
        ensures
            exists|lists: CheckpointLists| #[trigger]
                lists_of(lists, self@) && r.is_ok() == shard_trees_encodable(self@, lists) && (r.is_ok() ==> final(out)@
                    == old(out)@ + shard_trees_encoding(self@, lists)),
            r.is_ok() ==> tree_storable(self@.sapling) && tree_storable(self@.orchard) && tree_storable(self@.ironwood),
    {
        let ghost before = out@;
        let sapling = self.sapling.checkpoints();
        let orchard = self.orchard.checkpoints();
        let ironwood = self.ironwood.checkpoints();
        let ghost lists = CheckpointLists {
            sapling: views_of(sapling@),
            orchard: views_of(orchard@),
            ironwood: views_of(ironwood@),
        };
        proof {
            lemma_entries_are_items(sapling@, self.sapling@.checkpoints);
            lemma_entries_are_items(orchard@, self.orchard@.checkpoints);
            lemma_entries_are_items(ironwood@, self.ironwood@.checkpoints);
            assert(lists_of(lists, self@));
        }
        write_u8(out, Self::serialized_version());
        if let Err(error) = write_tree(&self.sapling, &sapling, out) {
            return Err(error);
        }
        if let Err(error) = write_tree(&self.orchard, &orchard, out) {
            return Err(error);
        }
        if let Err(error) = write_tree(&self.ironwood, &ironwood, out) {
            return Err(error);
        }
        proof {
            let e0 = tree_encoding(self@.sapling, lists.sapling);
            let e1 = tree_encoding(self@.orchard, lists.orchard);
            let e2 = tree_encoding(self@.ironwood, lists.ironwood);
            lemma_appended(before, seq![1u8], e0, e1, e2);
        }
        Ok(())
    }
}

proof fn lemma_appended(before: Seq<u8>, a: Seq<u8>, b: Seq<u8>, c: Seq<u8>, d: Seq<u8>)
    ensures
        before + a + b + c + d == before + (a + (b + (c + d))),
        before.push(a[0]) + b + c + d == before + a + b + c + d || a.len() != 1,
{
    assert(before + a + b + c + d =~= before + (a + (b + (c + d))));
    if a.len() == 1 {
        assert(before.push(a[0]) + b + c + d =~= before + a + b + c + d);
    }
}

} // verus!
