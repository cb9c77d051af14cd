//! The trees of note commitments, one for each shielded pool.
use crate::primitives::BlockHeight;
use crate::outside::pallas_modulus;
use crate::wallet::codec::{le_value, ReadError};
use incrementalmerkletree::{Address, Level, Marking, Position, Retention};
use orchard::tree::MerkleHashOrchard;
use sapling_crypto::Node;
use shardtree::store::ShardStore;
use shardtree::LocatedPrunableTree;
use vstd::prelude::*;
use zcash_client_backend::serialization::shardtree::{read_shard, write_shard};

verus! {

/// The depth of the trees.
pub const TREE_DEPTH: u8 = 32;

/// The height of the subtrees in which a tree is stored.
pub const SHARD_HEIGHT: u8 = 16;

/// The number of shards that a tree of full depth has.
pub const SHARDS: u64 = 0x1_0000;

/// The number of leaves that a tree of full depth has.
pub const LEAVES: u64 = 0x1_0000_0000;

/// The number of checkpoints that a tree keeps, apart from those it was told to retain.
pub const MAX_SHARDTREE_CHECKPOINTS: usize = 101;

/// The tree of the note commitments of one shielded pool: of sapling, or of a pool of the orchard protocol.
///
/// Its subtrees are all of [`SHARD_HEIGHT`], the part above them is no deeper than the tree, and the leaves that its
/// checkpoints name can be looked for on this machine: only such are put into it.
#[verifier::external_body]
pub struct NoteTree {
    sapling_or_orchard: Result<
        shardtree::ShardTree<
            shardtree::store::memory::MemoryShardStore<Node, zcash_protocol::consensus::BlockHeight>,
            32,
            16,
        >,
        shardtree::ShardTree<
            shardtree::store::memory::MemoryShardStore<
                MerkleHashOrchard,
                zcash_protocol::consensus::BlockHeight,
            >,
            32,
            16,
        >,
    >,
}

/// A subtree, in the form in which it is written.
pub struct ShardView {
    pub level: u8,
    pub bytes: Seq<u8>,
}

/// A state that the tree can go back to.
pub struct CheckpointView {
    /// The last leaf, where there is one.
    pub position: Option<u64>,
    /// The leaves whose mark goes when the checkpoint does.
    pub marks_removed: Set<u64>,
}

/// What a tree holds.
pub struct TreeView {
    /// Whether the nodes are hashed as those of the orchard protocol, and not as those of sapling.
    pub orchard: bool,
    /// The subtrees from the first on.
    pub shards: Seq<ShardView>,
    /// The part of the tree above the subtrees, in the form in which it is written.
    pub cap: Seq<u8>,
    pub checkpoints: Map<BlockHeight, CheckpointView>,
    /// The checkpoints that are not pruned.
    pub retained: Set<BlockHeight>,
}

/// What a tree holds.
pub uninterp spec fn tree_contents(tree: NoteTree) -> TreeView;

impl View for NoteTree {
    type V = TreeView;

    open spec fn view(&self) -> TreeView {
        tree_contents(*self)
    }
}

/// Why a tree refused an operation.
#[derive(Clone, Copy, Debug, PartialEq, Eq, Structural)]
pub enum TreeError {
    /// What was to be inserted contradicts what the tree holds, or is malformed.
    Insert,
    /// The tree no longer holds what the operation needs.
    Pruned,
}

/// The bytes of an empty subtree.
pub open spec fn empty_shard() -> Seq<u8> {
    seq![1u8, 0u8]
}

/// A tree without leaves and checkpoints.
pub open spec fn empty_tree(orchard: bool) -> TreeView {
    TreeView {
        orchard,
        shards: Seq::empty(),
        cap: empty_shard(),
        checkpoints: Map::empty(),
        retained: Set::empty(),
    }
}

/// The checkpoints that are newer than `id` and not retained.
pub open spec fn newer_unretained(
    checkpoints: Map<BlockHeight, CheckpointView>,
    retained: Set<BlockHeight>,
    id: BlockHeight,
) -> Set<BlockHeight> {
    checkpoints.dom().filter(|other: BlockHeight| other > id && !retained.contains(other))
}

/// The checkpoints that are left when there are too many: those retained, and the newest of the others.
pub open spec fn pruned(checkpoints: Map<BlockHeight, CheckpointView>, retained: Set<BlockHeight>) -> Map<
    BlockHeight,
    CheckpointView,
> {
    checkpoints.restrict(
        checkpoints.dom().filter(
            |id: BlockHeight|
                retained.contains(id) || newer_unretained(checkpoints, retained, id).len()
                    < MAX_SHARDTREE_CHECKPOINTS,
        ),
    )
}

/// The checkpoints up to `id`, of which the last one removes no marks.
pub open spec fn rolled_back(checkpoints: Map<BlockHeight, CheckpointView>, id: BlockHeight) -> Map<
    BlockHeight,
    CheckpointView,
> {
    checkpoints.restrict(checkpoints.dom().filter(|other: BlockHeight| other <= id)).insert(
        id,
        CheckpointView { marks_removed: Set::empty(), ..checkpoints[id] },
    )
}

/// The tree with a checkpoint of itself added.
pub uninterp spec fn tree_at_checkpoint(tree: TreeView, id: BlockHeight) -> TreeView;

/// The tree as it was at a checkpoint that it holds.
pub uninterp spec fn tree_rolled_back(tree: TreeView, id: BlockHeight) -> Result<TreeView, TreeError>;

/// The tree with the mark of a leaf removed as of a checkpoint, and whether the leaf was marked.
pub uninterp spec fn tree_unmarked(tree: TreeView, position: u64, as_of: BlockHeight) -> (TreeView, bool);

/// The tree with a frontier inserted and a checkpoint of it added.
pub uninterp spec fn tree_with_frontier(tree: TreeView, frontier: Seq<u8>, id: BlockHeight) -> Result<
    TreeView,
    TreeError,
>;

/// The tree with leaves inserted from a position on.
pub uninterp spec fn tree_with_leaves(tree: TreeView, located: LocatedLeaves) -> Result<TreeView, TreeError>;

/// Leaves and the place of the first of them.
pub struct LocatedLeaves {
    pub orchard: bool,
    pub start: u64,
    pub leaves: Seq<Leaf>,
}

/// Leaves of a tree and the place of the first of them, to be inserted as one subtree.
#[derive(Debug, PartialEq, Eq)]
pub struct LocatedTreeData {
    /// Whether the leaves are of the orchard protocol, and not of sapling.
    pub orchard: bool,
    pub start: u64,
    pub leaves: Vec<Leaf>,
}

impl View for LocatedTreeData {
    type V = LocatedLeaves;

    open spec fn view(&self) -> LocatedLeaves {
        LocatedLeaves { orchard: self.orchard, start: self.start, leaves: self.leaves@ }
    }
}

impl LocatedTreeData {
    /// Whether there are leaves, they are nodes, and the tree has room for them.
    pub open spec fn wf(&self) -> bool {
        &&& self.leaves@.len() > 0
        &&& self.start + self.leaves@.len() <= LEAVES
        &&& all_nodes(self.leaves@, self.orchard)
    }
}

/// Whether all leaves are nodes of the tree.
pub open spec fn all_nodes(leaves: Seq<Leaf>, orchard: bool) -> bool {
    forall|i: int| 0 <= i < leaves.len() ==> is_node((#[trigger] leaves[i]).node@, orchard)
}

/// The number of bytes of the subtree at the front of `bytes`.
pub uninterp spec fn shard_at_front(bytes: Seq<u8>, orchard: bool) -> Result<nat, ReadError>;

/// A checkpoint and its height.
#[derive(Debug, PartialEq, Eq)]
pub struct CheckpointEntry {
    pub id: BlockHeight,
    pub position: Option<u64>,
    pub marks_removed: Vec<u64>,
}

/// Whether the marks are those of the set, from the lowest to the highest.
pub open spec fn lists_marks(marks: Seq<u64>, set: Set<u64>) -> bool {
    &&& forall|i: int, j: int| 0 <= i < j < marks.len() ==> marks[i] < marks[j]
    &&& marks.to_set() == set
}

/// Whether the entry is that of the checkpoint.
pub open spec fn entry_of(entry: CheckpointEntry, checkpoint: CheckpointView) -> bool {
    entry.position == checkpoint.position && lists_marks(entry.marks_removed@, checkpoint.marks_removed)
}

/// Whether the entries are the checkpoints, from the oldest to the newest.
pub open spec fn lists_checkpoints(
    entries: Seq<CheckpointEntry>,
    checkpoints: Map<BlockHeight, CheckpointView>,
) -> bool {
    &&& forall|i: int, j: int| 0 <= i < j < entries.len() ==> entries[i].id < entries[j].id
    &&& forall|i: int|
        0 <= i < entries.len() ==> checkpoints.contains_key((#[trigger] entries[i]).id) && entry_of(
            entries[i],
            checkpoints[entries[i].id],
        )
    &&& forall|id: BlockHeight| #[trigger]
        checkpoints.contains_key(id) ==> exists|i: int| 0 <= i < entries.len() && (#[trigger] entries[i]).id == id
}

/// Whether a leaf can be looked for on this machine: the place of its subtree is taken for an index.
pub open spec fn is_indexable(position: u64) -> bool {
    position / 0x1_0000 <= usize::MAX
}

/// Whether the leaves that a checkpoint names can be looked for.
pub open spec fn names_indexable(checkpoint: CheckpointView) -> bool {
    &&& checkpoint.position matches Some(position) ==> is_indexable(position)
    &&& forall|mark: u64| #[trigger] checkpoint.marks_removed.contains(mark) ==> is_indexable(mark)
}

/// The checkpoint of an entry.
pub open spec fn entry_checkpoint(entry: CheckpointEntry) -> CheckpointView {
    CheckpointView { position: entry.position, marks_removed: entry.marks_removed@.to_set() }
}

/// Whether a leaf can be looked for on this machine.
pub(crate) fn can_be_indexed(position: u64) -> (r: bool)
    ensures
        r == is_indexable(position),
{
    position / 0x1_0000 <= usize::MAX as u64
}

/// Whether the leaves that a checkpoint names can be looked for.
pub(crate) fn entry_can_be_indexed(entry: &CheckpointEntry) -> (r: bool)
    ensures
        r == names_indexable(entry_checkpoint(*entry)),
{
    if let Some(position) = entry.position {
        if !can_be_indexed(position) {
            return false;
        }
    }
    let count: usize = entry.marks_removed.len();
    let mut i: usize = 0;
    while i < count
        invariant
            i <= count == entry.marks_removed@.len(),
            forall|k: int| 0 <= k < i ==> is_indexable(#[trigger] entry.marks_removed@[k]),
        decreases count - i,
    {
        if !can_be_indexed(entry.marks_removed[i]) {
            assert(entry_checkpoint(*entry).marks_removed.contains(entry.marks_removed@[i as int]));
            return false;
        }
        i = i + 1;
    }
    true
}

/// How long a leaf is kept.
#[derive(Clone, Copy, Debug, PartialEq, Eq, Structural)]
pub enum LeafRetention {
    /// Until its hash is known to the nodes above it.
    Ephemeral,
    /// As long as it is marked.
    Marked,
    /// As the last leaf of the state at a height.
    Checkpoint(BlockHeight),
    /// As the last leaf of the state at a height, and as long as it is marked.
    MarkedCheckpoint(BlockHeight),
}

/// A leaf of a tree.
#[derive(Clone, Copy, Debug, PartialEq, Eq)]
pub struct Leaf {
    pub node: [u8; 32],
    pub retention: LeafRetention,
}

/// The states that leaves from `start` on are the last leaf of.
pub open spec fn leaf_checkpoints(start: u64, leaves: Seq<Leaf>) -> Map<BlockHeight, CheckpointView>
    decreases leaves.len(),
{
    if leaves.len() == 0 {
        Map::empty()
    } else {
        let before = leaf_checkpoints(start, leaves.drop_last());
        match leaves.last().retention {
            LeafRetention::Ephemeral | LeafRetention::Marked => before,
            LeafRetention::Checkpoint(id) | LeafRetention::MarkedCheckpoint(id) => before.insert(
                id,
                CheckpointView {
                    position: Some((start + leaves.len() - 1) as u64),
                    marks_removed: Set::empty(),
                },
            ),
        }
    }
}

/// The shards with one put at its place, and empty ones before it where there are none yet.
pub open spec fn shards_with(shards: Seq<ShardView>, index: int, shard: ShardView) -> Seq<ShardView> {
    if index < shards.len() {
        shards.update(index, shard)
    } else {
        shards + Seq::new(
            (index - shards.len()) as nat,
            |i: int| ShardView { level: shard.level, bytes: empty_shard() },
        ) + seq![shard]
    }
}

/// The greatest number of parents that may lie within each other in the bytes of a subtree: none of more fits a level.
pub const MAX_NESTING: u8 = 255;

/// Where a walk over the nodes of a subtree got to.
pub enum Nesting {
    /// Parents lie within each other more deeply than was allowed.
    TooDeep,
    /// The bytes are not those of nodes.
    Broken,
    /// The nodes end where these bytes begin.
    Ends(Seq<u8>),
}

/// The walk over the node at the front of `b`, in which up to `room` parents may lie within each other.
///
/// A node is nothing, a leaf with its hash and flags, or a parent, which may have a hash, with the nodes below it.
pub open spec fn nesting(b: Seq<u8>, room: nat) -> Nesting
    decreases room,
{
    if b.len() == 0 {
        Nesting::Broken
    } else if b[0] == 0 {
        Nesting::Ends(b.skip(1))
    } else if b[0] == 1 {
        if b.len() < 34 {
            Nesting::Broken
        } else {
            Nesting::Ends(b.skip(34))
        }
    } else if b[0] != 2 {
        Nesting::Broken
    } else if room == 0 {
        Nesting::TooDeep
    } else if b.len() < 2 || b[1] > 1 || (b[1] == 1 && b.len() < 34) {
        Nesting::Broken
    } else {
        let left = if b[1] == 0 {
            b.skip(2)
        } else {
            b.skip(34)
        };
        match nesting(left, (room - 1) as nat) {
            Nesting::Ends(right) => nesting(right, (room - 1) as nat),
            other => other,
        }
    }
}

/// Whether parents lie within each other more deeply than `room` in the subtree at the front of `bytes`.
pub open spec fn is_deep(bytes: Seq<u8>, room: u8) -> bool {
    bytes.len() > 0 && bytes[0] == 1 && nesting(bytes.skip(1), room as nat) is TooDeep
}

/// Whether the bytes are a version and one node, in which no more than `room` parents lie within each other.
pub open spec fn is_nested(bytes: Seq<u8>, room: u8) -> bool {
    bytes.len() > 0 && bytes[0] == 1 && nesting(bytes.skip(1), room as nat) == Nesting::Ends(Seq::empty())
}

/// More room changes nothing where there is enough.
proof fn lemma_nesting_with_more_room(b: Seq<u8>, room: nat, more: nat)
    requires
        room <= more,
        !(nesting(b, room) is TooDeep),
    ensures
        nesting(b, more) == nesting(b, room),
    decreases room,
{
    if b.len() > 0 && b[0] == 2 && room > 0 && !(b.len() < 2 || b[1] > 1 || (b[1] == 1 && b.len() < 34)) {
        let left = if b[1] == 0 {
            b.skip(2)
        } else {
            b.skip(34)
        };
        lemma_nesting_with_more_room(left, (room - 1) as nat, (more - 1) as nat);
        if let Nesting::Ends(right) = nesting(left, (room - 1) as nat) {
            lemma_nesting_with_more_room(right, (room - 1) as nat, (more - 1) as nat);
        }
    }
}

/// What follows a node makes no difference.
proof fn lemma_nesting_of_prefix(b: Seq<u8>, rest: Seq<u8>, room: nat)
    requires
        nesting(b, room) is Ends,
    ensures
        nesting(b + rest, room) == Nesting::Ends(nesting(b, room)->Ends_0 + rest),
    decreases room,
{
    let all = b + rest;
    assert(all[0] == b[0]);
    if b[0] == 0 {
        assert(all.skip(1) =~= b.skip(1) + rest);
    } else if b[0] == 1 {
        assert(all.skip(34) =~= b.skip(34) + rest);
    } else {
        assert(all[1] == b[1]);
        let left = if b[1] == 0 {
            b.skip(2)
        } else {
            b.skip(34)
        };
        let all_left = if b[1] == 0 {
            all.skip(2)
        } else {
            all.skip(34)
        };
        assert(all_left =~= left + rest);
        lemma_nesting_of_prefix(left, rest, (room - 1) as nat);
        lemma_nesting_of_prefix(nesting(left, (room - 1) as nat)->Ends_0, rest, (room - 1) as nat);
    }
}

/// A subtree that fits a level is not nested too deeply to be read, whatever follows it.
pub proof fn lemma_nested_is_not_deep(bytes: Seq<u8>, rest: Seq<u8>, level: u8)
    requires
        is_nested(bytes, level),
    ensures
        !is_deep(bytes + rest, MAX_NESTING),
{
    let b = bytes.skip(1);
    lemma_nesting_of_prefix(b, rest, level as nat);
    assert((bytes + rest).skip(1) =~= b + rest);
    lemma_nesting_with_more_room(b + rest, level as nat, MAX_NESTING as nat);
}

/// Where the walk over a node from a place on gets to.
enum NodeEnd {
    TooDeep,
    Broken,
    At(usize),
}

/// Walks over the node that starts at a place. The depth of the recursion is at most `room`.
fn walk_node(bytes: &[u8], at: usize, room: u8) -> (r: NodeEnd)
    requires
        at <= bytes@.len(),
    ensures
        match nesting(bytes@.skip(at as int), room as nat) {
            Nesting::TooDeep => r is TooDeep,
            Nesting::Broken => r is Broken,
            Nesting::Ends(rest) => r matches NodeEnd::At(end) && at <= end <= bytes@.len() && rest == bytes@.skip(
                end as int,
            ),
        },
    decreases room,
{
    let left: usize = bytes.len() - at;
    let ghost b = bytes@.skip(at as int);
    if left == 0 {
        return NodeEnd::Broken;
    }
    assert(b[0] == bytes@[at as int]);
    let tag: u8 = bytes[at];
    if tag == 0 {
        assert(b.skip(1) =~= bytes@.skip(at + 1));
        return NodeEnd::At(at + 1);
    }
    if tag == 1 {
        if left < 34 {
            return NodeEnd::Broken;
        }
        assert(b.skip(34) =~= bytes@.skip(at + 34));
        return NodeEnd::At(at + 34);
    }
    if tag != 2 {
        return NodeEnd::Broken;
    }
    if room == 0 {
        return NodeEnd::TooDeep;
    }
    if left < 2 {
        return NodeEnd::Broken;
    }
    assert(b[1] == bytes@[at + 1]);
    let hash: u8 = bytes[at + 1];
    if hash > 1 || (hash == 1 && left < 34) {
        return NodeEnd::Broken;
    }
    let first: usize = if hash == 0 {
        at + 2
    } else {
        at + 34
    };
    proof {
        assert(b.skip(2) =~= bytes@.skip(at + 2));
        if hash == 1 {
            assert(b.skip(34) =~= bytes@.skip(at + 34));
        }
    }
    match walk_node(bytes, first, room - 1) {
        NodeEnd::At(second) => walk_node(bytes, second, room - 1),
        other => other,
    }
}

/// Whether parents lie within each other too deeply in the subtree at the front of the bytes for it to be read.
pub(crate) fn is_too_deep(bytes: &[u8]) -> (r: bool)
    ensures
        r == is_deep(bytes@, MAX_NESTING),
{
    if bytes.len() == 0 || bytes[0] != 1 {
        return false;
    }
    match walk_node(bytes, 1, MAX_NESTING) {
        NodeEnd::TooDeep => true,
        _ => false,
    }
}

/// Whether `bytes` are a subtree, whatever bytes follow them.
pub open spec fn is_shard(bytes: Seq<u8>, orchard: bool) -> bool {
    forall|rest: Seq<u8>|
        #![trigger shard_at_front(bytes + rest, orchard)]
        shard_at_front(bytes + rest, orchard) == Ok::<nat, ReadError>(bytes.len())
}

/// The number of elements of the field that sapling nodes are from.
pub open spec fn jubjub_base_modulus() -> nat {
    0x73eda753299d7d483339d80809a1d80553bda402fffe5bfeffffffff00000001nat
}

/// Whether the bytes are a node of the tree.
pub open spec fn is_node(bytes: Seq<u8>, orchard: bool) -> bool {
    if orchard {
        le_value(bytes) < pallas_modulus()
    } else {
        le_value(bytes) < jubjub_base_modulus()
    }
}

/// A subtree of which only the root is known.
pub open spec fn bare_root(node: Seq<u8>) -> Seq<u8> {
    seq![1u8, 1u8] + node + seq![0u8]
}

/// Whether the states that inserted leaves are the last leaf of have become checkpoints, of which too many are pruned,
/// and nothing but the shards has changed otherwise.
pub open spec fn leaves_checkpointed(
    before: TreeView,
    after: TreeView,
    located: LocatedLeaves,
    done: bool,
) -> bool {
    &&& after.orchard == before.orchard
    &&& after.retained == before.retained
    &&& after.cap == before.cap
    &&& after.shards.len() >= before.shards.len()
    &&& after.checkpoints == if done {
        pruned(
            before.checkpoints.union_prefer_right(leaf_checkpoints(located.start, located.leaves)),
            before.retained,
        )
    } else {
        before.checkpoints
    }
}

impl NoteTree {
    /// Calls [`shardtree::ShardTree::new`] on an empty store.
    #[verifier::external_body]
    pub(crate) fn empty(orchard: bool) -> (r: NoteTree)
        ensures
            tree_contents(r) == empty_tree(orchard),
    {
        let sapling_or_orchard = if orchard {
            Err(shardtree::ShardTree::new(
                shardtree::store::memory::MemoryShardStore::empty(),
                MAX_SHARDTREE_CHECKPOINTS,
            ))
        } else {
            Ok(shardtree::ShardTree::new(
                shardtree::store::memory::MemoryShardStore::empty(),
                MAX_SHARDTREE_CHECKPOINTS,
            ))
        };
        NoteTree { sapling_or_orchard }
    }

    /// Calls [`shardtree::ShardTree::checkpoint`], which adds a checkpoint of the tree as it is unless there is one
    /// at or above `id`. Its only error is that of the store, which has none.
    #[verifier::external_body]
    pub(crate) fn checkpoint(&mut self, id: BlockHeight) -> (r: bool)
        ensures
            r == forall|other: BlockHeight| old(self)@.checkpoints.contains_key(other) ==> other < id,
            !r ==> tree_contents(*final(self)) == tree_contents(*old(self)),
            r ==> {
                &&& tree_contents(*final(self)) == tree_at_checkpoint(tree_contents(*old(self)), id)
                &&& final(self)@.checkpoints == pruned(
                    old(self)@.checkpoints.insert(
                        id,
                        CheckpointView {
                            position: final(self)@.checkpoints[id].position,
                            marks_removed: Set::empty(),
                        },
                    ),
                    old(self)@.retained,
                )
                &&& final(self)@.shards.len() == old(self)@.shards.len()
                &&& old(self)@.shards.len() == 0 ==> final(self)@.checkpoints[id].position.is_none()
                &&& final(self)@.orchard == old(self)@.orchard
                &&& final(self)@.cap == old(self)@.cap
                &&& final(self)@.retained == old(self)@.retained
            },
    {
        match &mut self.sapling_or_orchard {
            Ok(tree) => tree.checkpoint(id.into()).expect("the store does not fail"),
            Err(tree) => tree.checkpoint(id.into()).expect("the store does not fail"),
        }
    }

    /// Calls [`shardtree::ShardTree::truncate_to_checkpoint`], which takes the tree back to a checkpoint if it is
    /// there. It is refused, and changes nothing, where the leaf of the checkpoint has been pruned; an empty tree has
    /// no such leaf.
    #[verifier::external_body]
    pub(crate) fn truncate_to_checkpoint(&mut self, id: BlockHeight) -> (r: Result<bool, TreeError>)
        ensures
            r matches Ok(done) ==> done == old(self)@.checkpoints.contains_key(id),
            r matches Ok(false) ==> tree_contents(*final(self)) == tree_contents(*old(self)),
            r matches Ok(true) ==> {
                &&& Ok::<TreeView, TreeError>(tree_contents(*final(self))) == tree_rolled_back(
                    tree_contents(*old(self)),
                    id,
                )
                &&& final(self)@.checkpoints == rolled_back(old(self)@.checkpoints, id)
                &&& final(self)@.shards.len() <= old(self)@.shards.len()
                &&& final(self)@.orchard == old(self)@.orchard
                &&& final(self)@.retained == old(self)@.retained
                &&& old(self)@.checkpoints[id].position.is_none() ==> final(self)@.shards.len() == 0
                    && final(self)@.cap == empty_shard()
            },
            r matches Err(error) ==> {
                &&& tree_rolled_back(tree_contents(*old(self)), id) == Err::<TreeView, TreeError>(error)
                &&& old(self)@.checkpoints.contains_key(id)
                &&& old(self)@.checkpoints[id].position.is_some()
                &&& tree_contents(*final(self)) == tree_contents(*old(self))
            },
    {
        match &mut self.sapling_or_orchard {
            Ok(tree) => tree.truncate_to_checkpoint(&id.into()).map_err(|_| TreeError::Pruned),
            Err(tree) => tree.truncate_to_checkpoint(&id.into()).map_err(|_| TreeError::Pruned),
        }
    }

    /// Calls [`shardtree::ShardTree::ensure_retained`], which keeps a checkpoint from being pruned.
    #[verifier::external_body]
    pub(crate) fn ensure_retained(&mut self, id: BlockHeight)
        ensures
            tree_contents(*final(self)) == (TreeView {
                retained: old(self)@.retained.insert(id),
                ..tree_contents(*old(self))
            }),
    {
        match &mut self.sapling_or_orchard {
            Ok(tree) => tree.ensure_retained(id.into()).expect("the store does not fail"),
            Err(tree) => tree.ensure_retained(id.into()).expect("the store does not fail"),
        }
    }

    /// Calls [`shardtree::store::ShardStore::for_each_checkpoint`], which goes through the checkpoints from the
    /// oldest to the newest. The leaves that they name are those of [`NoteTree`].
    #[verifier::external_body]
    pub(crate) fn checkpoints(&self) -> (r: Vec<CheckpointEntry>)
        ensures
            lists_checkpoints(r@, tree_contents(*self).checkpoints),
            forall|i: int| 0 <= i < r@.len() ==> names_indexable(entry_checkpoint(#[trigger] r@[i])),
    {
        let mut out = Vec::new();
        let note = |id: &zcash_protocol::consensus::BlockHeight, checkpoint: &shardtree::store::Checkpoint| {
            let position = checkpoint.position().map(u64::from);
            let marks_removed = checkpoint.marks_removed().iter().map(|mark| u64::from(*mark)).collect();
            out.push(CheckpointEntry { id: u32::from(*id), position, marks_removed });
            Ok(())
        };
        match &self.sapling_or_orchard {
            Ok(tree) => tree.store().for_each_checkpoint(usize::MAX, note),
            Err(tree) => tree.store().for_each_checkpoint(usize::MAX, note),
        }
        .expect("the store does not fail");
        out
    }

    /// Calls [`shardtree::ShardTree::remove_mark`], which removes the mark of a leaf as of a checkpoint.
    ///
    /// The store takes the place of the leaf's subtree for an index. A leaf without a mark is left as it is. Otherwise
    /// the checkpoint notes the removal if it is there, and a height below the oldest checkpoint removes the mark at
    /// once. Which leaves are marked is not stated.
    #[verifier::external_body]
    pub(crate) fn remove_mark(&mut self, position: u64, as_of: BlockHeight) -> (r: bool)
        requires
            is_indexable(position),
        ensures
            (tree_contents(*final(self)), r) == tree_unmarked(tree_contents(*old(self)), position, as_of),
            !r ==> tree_contents(*final(self)) == tree_contents(*old(self)),
            final(self)@.orchard == old(self)@.orchard,
            final(self)@.retained == old(self)@.retained,
            final(self)@.cap == old(self)@.cap,
            final(self)@.shards.len() == old(self)@.shards.len(),
            r && old(self)@.checkpoints.contains_key(as_of) ==> final(self)@.shards == old(self)@.shards
                && final(self)@.checkpoints == old(self)@.checkpoints.insert(
                as_of,
                CheckpointView {
                    marks_removed: old(self)@.checkpoints[as_of].marks_removed.insert(position),
                    ..old(self)@.checkpoints[as_of]
                },
            ),
            r && !old(self)@.checkpoints.contains_key(as_of) ==> final(self)@.checkpoints == old(self)@.checkpoints
                && forall|id: BlockHeight| #[trigger]
                old(self)@.checkpoints.contains_key(id) ==> as_of < id,
    {
        match &mut self.sapling_or_orchard {
            Ok(tree) => tree.remove_mark(position.into(), Some(&as_of.into())).expect("the store does not fail"),
            Err(tree) => tree.remove_mark(position.into(), Some(&as_of.into())).expect("the store does not fail"),
        }
    }

    /// Calls [`shardtree::ShardTree::insert_frontier`] with the frontier that the bytes encode, and a checkpoint of
    /// it. A frontier that is malformed or contradicts the tree is refused and changes nothing.
    #[verifier::external_body]
    pub(crate) fn insert_frontier(&mut self, frontier: &[u8], id: BlockHeight) -> (r: Result<(), TreeError>)
        ensures
            match tree_with_frontier(tree_contents(*old(self)), frontier@, id) {
                Ok(tree) => r.is_ok() && tree_contents(*final(self)) == tree,
                Err(error) => r == Err::<(), TreeError>(error) && tree_contents(*final(self)) == tree_contents(
                    *old(self),
                ),
            },
            final(self)@.orchard == old(self)@.orchard,
            final(self)@.retained == old(self)@.retained,
            r.is_ok() ==> exists|position: Option<u64>|
                final(self)@.checkpoints == with_frontier_checkpoint(
                    old(self)@.checkpoints,
                    old(self)@.retained,
                    id,
                    position,
                ),
    {
        let retention = incrementalmerkletree::Retention::Checkpoint {
            id: id.into(),
            marking: incrementalmerkletree::Marking::None,
        };
        match &mut self.sapling_or_orchard {
            Ok(tree) => zcash_primitives::merkle_tree::read_frontier_v1(frontier)
                .ok()
                .and_then(|frontier| tree.insert_frontier(frontier, retention).ok()),
            Err(tree) => zcash_primitives::merkle_tree::read_frontier_v1(frontier)
                .ok()
                .and_then(|frontier| tree.insert_frontier(frontier, retention).ok()),
        }
        .ok_or(TreeError::Insert)
    }
}

/// The checkpoints with one of a frontier added. Only one that has a leaf has others pruned.
pub open spec fn with_frontier_checkpoint(
    checkpoints: Map<BlockHeight, CheckpointView>,
    retained: Set<BlockHeight>,
    id: BlockHeight,
    position: Option<u64>,
) -> Map<BlockHeight, CheckpointView> {
    let added = checkpoints.insert(id, CheckpointView { position, marks_removed: Set::empty() });
    if position.is_some() {
        pruned(added, retained)
    } else {
        added
    }
}

/// Calls [`zcash_client_backend::serialization::shardtree::read_shard`] and says how many bytes it read: those of one
/// node and its version. A reader sees only the bytes that it reads, so that what follows them makes no difference. It
/// recurses once for each parent within another, so that the parents must not lie within each other too deeply.
#[verifier::external_body]
pub(crate) fn shard_length(bytes: &[u8], orchard: bool) -> (r: Result<usize, ReadError>)
    requires
        !is_deep(bytes@, MAX_NESTING),
    ensures
        match shard_at_front(bytes@, orchard) {
            Ok(length) => r matches Ok(v) && v == length,
            Err(error) => r matches Err(e) && e == error,
        },
        r matches Ok(v) ==> v <= bytes@.len() && is_shard(bytes@.take(v as int), orchard) && is_nested(
            bytes@.take(v as int),
            MAX_NESTING,
        ),
{
    let mut rest: &[u8] = bytes;
    let read = if orchard {
        read_shard::<MerkleHashOrchard, _>(&mut rest).map(|_| ())
    } else {
        read_shard::<Node, _>(&mut rest).map(|_| ())
    };
    match read {
        Ok(()) => Ok(bytes.len() - rest.len()),
        Err(error) => match error.kind() {
            std::io::ErrorKind::UnexpectedEof => Err(ReadError::UnexpectedEof),
            std::io::ErrorKind::InvalidInput => Err(ReadError::InvalidInput),
            _ => Err(ReadError::InvalidData),
        },
    }
}

/// Calls [`shardtree::LocatedPrunableTree::from_parts`] and says whether it takes the subtree that the bytes encode,
/// which it does unless more parents lie within each other than there are levels below.
#[verifier::external_body]
pub(crate) fn fits_level(bytes: &[u8], orchard: bool, level: u8) -> (r: bool)
    requires
        is_shard(bytes@, orchard),
        is_nested(bytes@, MAX_NESTING),
    ensures
        r == is_nested(bytes@, level),
{
    let at = Address::from_parts(Level::from(level), 0);
    if orchard {
        let shard = read_shard::<MerkleHashOrchard, _>(bytes).expect("the bytes are a tree");
        LocatedPrunableTree::from_parts(at, shard).is_ok()
    } else {
        let shard = read_shard::<Node, _>(bytes).expect("the bytes are a tree");
        LocatedPrunableTree::from_parts(at, shard).is_ok()
    }
}

impl NoteTree {
    /// Calls [`shardtree::LocatedPrunableTree::from_iter`] on leaves of the sapling tree, and
    /// [`shardtree::ShardTree::insert_tree`] with the subtree and the checkpoints that it gives. Leaves that contradict
    /// the tree are refused, which may leave some of them inserted.
    #[verifier::external_body]
    fn insert_sapling_leaves(&mut self, start: u64, end: u64, leaves: &[Leaf]) -> (r: bool)
        requires
            old(self)@.orchard == false,
            leaves@.len() > 0,
            start + leaves@.len() == end,
            end <= LEAVES,
            all_nodes(leaves@, false),
        ensures
            match tree_with_leaves(
                tree_contents(*old(self)),
                (LocatedLeaves { orchard: false, start, leaves: leaves@ }),
            ) {
                Ok(tree) => r && tree_contents(*final(self)) == tree,
                Err(error) => !r && error == TreeError::Insert,
            },
            leaves_checkpointed(
                tree_contents(*old(self)),
                tree_contents(*final(self)),
                (LocatedLeaves { orchard: false, start, leaves: leaves@ }),
                r,
            ),
    {
        let node = |leaf: &Leaf| {
            let kept = match leaf.retention {
                LeafRetention::Ephemeral => Retention::Ephemeral,
                LeafRetention::Marked => Retention::Marked,
                LeafRetention::Checkpoint(id) => Retention::Checkpoint { id: id.into(), marking: Marking::None },
                LeafRetention::MarkedCheckpoint(id) => Retention::Checkpoint { id: id.into(), marking: Marking::Marked },
            };
            (Node::from_bytes(leaf.node).unwrap(), kept)
        };
        let range = start.into()..end.into();
        let tree = LocatedPrunableTree::from_iter(range, SHARD_HEIGHT.into(), leaves.iter().map(node)).unwrap();
        match &mut self.sapling_or_orchard {
            Ok(own) => own.insert_tree(tree.subtree, tree.checkpoints).is_ok(),
            Err(_) => false,
        }
    }

    /// Calls [`shardtree::LocatedPrunableTree::from_iter`] on leaves of the orchard tree, and
    /// [`shardtree::ShardTree::insert_tree`] with the subtree and the checkpoints that it gives. Leaves that contradict
    /// the tree are refused, which may leave some of them inserted.
    #[verifier::external_body]
    fn insert_orchard_leaves(&mut self, start: u64, end: u64, leaves: &[Leaf]) -> (r: bool)
        requires
            old(self)@.orchard == true,
            leaves@.len() > 0,
            start + leaves@.len() == end,
            end <= LEAVES,
            all_nodes(leaves@, true),
        ensures
            match tree_with_leaves(
                tree_contents(*old(self)),
                (LocatedLeaves { orchard: true, start, leaves: leaves@ }),
            ) {
                Ok(tree) => r && tree_contents(*final(self)) == tree,
                Err(error) => !r && error == TreeError::Insert,
            },
            leaves_checkpointed(
                tree_contents(*old(self)),
                tree_contents(*final(self)),
                (LocatedLeaves { orchard: true, start, leaves: leaves@ }),
                r,
            ),
    {
        let node = |leaf: &Leaf| {
            let kept = match leaf.retention {
                LeafRetention::Ephemeral => Retention::Ephemeral,
                LeafRetention::Marked => Retention::Marked,
                LeafRetention::Checkpoint(id) => Retention::Checkpoint { id: id.into(), marking: Marking::None },
                LeafRetention::MarkedCheckpoint(id) => Retention::Checkpoint { id: id.into(), marking: Marking::Marked },
            };
            (MerkleHashOrchard::from_bytes(&leaf.node).unwrap(), kept)
        };
        let range = start.into()..end.into();
        let tree = LocatedPrunableTree::from_iter(range, SHARD_HEIGHT.into(), leaves.iter().map(node)).unwrap();
        match &mut self.sapling_or_orchard {
            Err(own) => own.insert_tree(tree.subtree, tree.checkpoints).is_ok(),
            Ok(_) => false,
        }
    }

    /// Inserts leaves of the tree's protocol.
    pub(crate) fn insert_tree(&mut self, located: &LocatedTreeData) -> (r: Result<(), TreeError>)
        requires
            located.wf(),
            located.orchard == old(self)@.orchard,
        ensures
            match tree_with_leaves(old(self)@, located@) {
                Ok(tree) => r.is_ok() && final(self)@ == tree,
                Err(error) => r == Err::<(), TreeError>(error),
            },
            leaves_checkpointed(old(self)@, final(self)@, located@, r.is_ok()),
    {
        let end: u64 = located.start + located.leaves.len() as u64;
        let done = if located.orchard {
            self.insert_orchard_leaves(located.start, end, located.leaves.as_slice())
        } else {
            self.insert_sapling_leaves(located.start, end, located.leaves.as_slice())
        };
        if done {
            Ok(())
        } else {
            Err(TreeError::Insert)
        }
    }

    /// Calls [`shardtree::store::ShardStore::put_shard`] with a subtree of which only the root is known. Bytes that
    /// are not a node change nothing.
    #[verifier::external_body]
    pub(crate) fn put_root(&mut self, index: u64, node: &[u8; 32]) -> (r: bool)
        requires
            index < SHARDS,
        ensures
            r == is_node(node@, old(self)@.orchard),
            !r ==> tree_contents(*final(self)) == tree_contents(*old(self)),
            r ==> tree_contents(*final(self)) == (TreeView {
                shards: shards_with(
                    old(self)@.shards,
                    index as int,
                    ShardView { level: SHARD_HEIGHT, bytes: bare_root(node@) },
                ),
                ..tree_contents(*old(self))
            }),
    {
        let at = Address::from_parts(Level::from(SHARD_HEIGHT), index);
        match &mut self.sapling_or_orchard {
            Ok(tree) => Node::from_bytes(*node).into_option().map(|node| {
                let value = (node, shardtree::RetentionFlags::EPHEMERAL);
                tree.store_mut().put_shard(LocatedPrunableTree::with_root_value(at, value))
            }),
            Err(tree) => MerkleHashOrchard::from_bytes(node).into_option().map(|node| {
                let value = (node, shardtree::RetentionFlags::EPHEMERAL);
                tree.store_mut().put_shard(LocatedPrunableTree::with_root_value(at, value))
            }),
        }
        .is_some()
    }

    /// Calls [`shardtree::store::ShardStore::put_shard`] with the subtree that the bytes encode.
    #[verifier::external_body]
    pub(crate) fn put_shard(&mut self, index: u64, bytes: &[u8])
        requires
            index < SHARDS,
            is_shard(bytes@, old(self)@.orchard),
            is_nested(bytes@, SHARD_HEIGHT),
        ensures
            tree_contents(*final(self)) == (TreeView {
                shards: shards_with(
                    old(self)@.shards,
                    index as int,
                    ShardView { level: SHARD_HEIGHT, bytes: bytes@ },
                ),
                ..tree_contents(*old(self))
            }),
    {
        let at = Address::from_parts(Level::from(SHARD_HEIGHT), index);
        match &mut self.sapling_or_orchard {
            Ok(tree) => {
                let shard = read_shard(bytes).expect("the bytes are a tree");
                tree.store_mut().put_shard(LocatedPrunableTree::from_parts(at, shard).expect("it fits"))
            },
            Err(tree) => {
                let shard = read_shard(bytes).expect("the bytes are a tree");
                tree.store_mut().put_shard(LocatedPrunableTree::from_parts(at, shard).expect("it fits"))
            },
        }
        .expect("the store does not fail")
    }

    /// Calls [`shardtree::store::ShardStore::put_cap`] with the tree that the bytes encode.
    #[verifier::external_body]
    pub(crate) fn put_cap(&mut self, bytes: &[u8])
        requires
            is_shard(bytes@, old(self)@.orchard),
            is_nested(bytes@, TREE_DEPTH),
        ensures
            tree_contents(*final(self)) == (TreeView { cap: bytes@, ..tree_contents(*old(self)) }),
    {
        match &mut self.sapling_or_orchard {
            Ok(tree) => read_shard(bytes).map(|cap| tree.store_mut().put_cap(cap)).map(|_| ()),
            Err(tree) => read_shard(bytes).map(|cap| tree.store_mut().put_cap(cap)).map(|_| ()),
        }
        .expect("the bytes are a tree")
    }

    /// Calls [`shardtree::store::ShardStore::add_checkpoint`], which puts a checkpoint in the place of the one at its
    /// height.
    #[verifier::external_body]
    pub(crate) fn add_checkpoint(&mut self, entry: &CheckpointEntry)
        requires
            names_indexable(entry_checkpoint(*entry)),
        ensures
            tree_contents(*final(self)) == (TreeView {
                checkpoints: old(self)@.checkpoints.insert(entry.id, entry_checkpoint(*entry)),
                ..tree_contents(*old(self))
            }),
    {
        let state = match entry.position {
            Some(position) => shardtree::store::TreeState::AtPosition(position.into()),
            None => shardtree::store::TreeState::Empty,
        };
        let marks = entry.marks_removed.iter().map(|mark| Position::from(*mark)).collect();
        let checkpoint = shardtree::store::Checkpoint::from_parts(state, marks);
        match &mut self.sapling_or_orchard {
            Ok(tree) => tree.store_mut().add_checkpoint(entry.id.into(), checkpoint),
            Err(tree) => tree.store_mut().add_checkpoint(entry.id.into(), checkpoint),
        }
        .expect("the store does not fail")
    }

    /// Calls [`shardtree::store::ShardStore::get_shard_roots`] and counts the roots that it gives. There are no more than
    /// a tree has room for, as only leaves and subtrees within it can be inserted.
    #[verifier::external_body]
    pub(crate) fn shard_count(&self) -> (r: usize)
        ensures
            r == tree_contents(*self).shards.len(),
            r <= SHARDS,
    {
        match &self.sapling_or_orchard {
            Ok(tree) => tree.store().get_shard_roots().expect("the store does not fail").len(),
            Err(tree) => tree.store().get_shard_roots().expect("the store does not fail").len(),
        }
    }

    /// Calls [`shardtree::store::ShardStore::get_shard`], and writes the subtree that it gives. What is written is read
    /// back as the same subtree.
    #[verifier::external_body]
    pub(crate) fn shard(&self, index: u64) -> (r: Option<Shard>)
        requires
            index <= usize::MAX,
        ensures
            r.is_some() == (index < tree_contents(*self).shards.len()),
            r matches Some(shard) ==> {
                &&& shard.level == tree_contents(*self).shards[index as int].level
                &&& shard.bytes@ == tree_contents(*self).shards[index as int].bytes
                &&& is_shard(shard.bytes@, self@.orchard)
                &&& shard.level == SHARD_HEIGHT
                &&& is_nested(shard.bytes@, SHARD_HEIGHT)
            },
    {
        let at = Address::from_parts(Level::from(SHARD_HEIGHT), index);
        let mut bytes = Vec::new();
        let level = match &self.sapling_or_orchard {
            Ok(tree) => tree.store().get_shard(at).expect("the store does not fail").map(|shard| {
                write_shard(&mut bytes, shard.root()).map(|()| u8::from(shard.root_addr().level()))
            }),
            Err(tree) => tree.store().get_shard(at).expect("the store does not fail").map(|shard| {
                write_shard(&mut bytes, shard.root()).map(|()| u8::from(shard.root_addr().level()))
            }),
        };
        level.map(|level| Shard { level: level.expect("a vector takes all bytes"), bytes })
    }

    /// Calls [`shardtree::store::ShardStore::get_cap`], and writes the tree that it gives. What is written is read back
    /// as the same tree.
    #[verifier::external_body]
    pub(crate) fn cap(&self) -> (r: Vec<u8>)
        ensures
            r@ == tree_contents(*self).cap,
            is_shard(r@, self@.orchard),
            is_nested(r@, TREE_DEPTH),
    {
        let mut bytes = Vec::new();
        match &self.sapling_or_orchard {
            Ok(tree) => write_shard(&mut bytes, &tree.store().get_cap().expect("the store does not fail")),
            Err(tree) => write_shard(&mut bytes, &tree.store().get_cap().expect("the store does not fail")),
        }
        .expect("a vector takes all bytes");
        bytes
    }
}

/// A subtree, in the form in which it is written.
#[derive(Debug, PartialEq, Eq)]
pub struct Shard {
    pub level: u8,
    pub bytes: Vec<u8>,
}

} // verus!
