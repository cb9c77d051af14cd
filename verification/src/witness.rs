//! Filling the note commitment trees: with leaves found while scanning, and with the roots of complete subtrees.
use crate::error::ServerError;
use crate::scan::compact::{is_orchard_commitment, is_sapling_commitment};
use crate::sync::shards::SubtreeRoot;
use crate::trees::{
    all_nodes, bare_root, is_node, shards_with, Leaf, LocatedLeaves, LocatedTreeData,
    NoteTree, ShardView, TreeError, TreeView, LEAVES, SHARDS, SHARD_HEIGHT,
};
use vstd::prelude::*;

verus! {

// --- subtrees from leaves ---

/// The chunk of at most `size` leaves that starts at leaf `from`.
pub open spec fn chunk_from(
    orchard: bool,
    initial_position: u64,
    leaves: Seq<Leaf>,
    size: int,
    from: int,
) -> LocatedLeaves {
    LocatedLeaves {
        orchard,
        start: (initial_position + from) as u64,
        leaves: leaves.subrange(
            from,
            if from + size < leaves.len() {
                from + size
            } else {
                leaves.len() as int
            },
        ),
    }
}

/// What the located trees were built from.
pub open spec fn located_of(trees: Seq<LocatedTreeData>) -> Seq<LocatedLeaves> {
    Seq::new(trees.len(), |i: int| trees[i]@)
}

/// The first `n` chunks of `size` leaves, each with its place.
pub open spec fn chunks(
    orchard: bool,
    initial_position: u64,
    leaves: Seq<Leaf>,
    size: int,
    n: nat,
) -> Seq<LocatedLeaves> {
    Seq::new(n, |i: int| chunk_from(orchard, initial_position, leaves, size, i * size))
}

/// The leaves from one place to another.
fn chunk(leaves: &Vec<Leaf>, from: usize, to: usize) -> (r: Vec<Leaf>)
    requires
        from <= to <= leaves@.len(),
    ensures
        r@ == leaves@.subrange(from as int, to as int),
{
    let mut out: Vec<Leaf> = Vec::new();
    let mut i: usize = from;
    while i < to
        invariant
            from <= i <= to <= leaves@.len(),
            out@ == leaves@.subrange(from as int, i as int),
        decreases to - i,
    {
        out.push(leaves[i]);
        assert(out@ =~= leaves@.subrange(from as int, i + 1));
        i = i + 1;
    }
    out
}

/// Whether the leaves can be inserted into a tree of the protocol.
pub open spec fn all_of_protocol(located: Seq<LocatedTreeData>, orchard: bool) -> bool {
    forall|i: int| 0 <= i < located.len() ==> (#[trigger] located[i]).wf() && located[i].orchard == orchard
}

/// Whether all leaves are nodes of the tree.
fn are_nodes(leaves: &Vec<Leaf>, orchard: bool) -> (r: bool)
    ensures
        r == all_nodes(leaves@, orchard),
{
    let count: usize = leaves.len();
    let mut i: usize = 0;
    while i < count
        invariant
            i <= count == leaves@.len(),
            all_nodes(leaves@.take(i as int), orchard),
        decreases count - i,
    {
        let known = if orchard {
            is_orchard_commitment(&leaves[i].node)
        } else {
            is_sapling_commitment(&leaves[i].node)
        };
        if !known {
            assert(!is_node(leaves@[i as int].node@, orchard));
            return false;
        }
        proof {
            let next = leaves@.take(i + 1);
            assert forall|k: int| 0 <= k < next.len() implies is_node((#[trigger] next[k]).node@, orchard) by {
                if k < i {
                    assert(leaves@.take(i as int)[k] == next[k]);
                }
            }
        }
        i = i + 1;
    }
    assert(leaves@.take(count as int) =~= leaves@);
    true
}

/// Builds located trees from chunks of at most `located_tree_size` leaves.
///
/// Every leaf ends up in one tree, at the place it has after the initial position. A leaf that is not a node of the
/// tree is refused.
pub fn build_located_trees(
    orchard: bool,
    initial_position: u64,
    leaves_and_retentions: &Vec<Leaf>,
    located_tree_size: usize,
) -> (r: Result<Vec<LocatedTreeData>, TreeError>)
    requires
        located_tree_size > 0,
        initial_position + leaves_and_retentions@.len() <= LEAVES,
    ensures
        match r {
            Ok(trees) => {
                &&& all_nodes(leaves_and_retentions@, orchard)
                &&& all_of_protocol(trees@, orchard)
                &&& located_of(trees@) == chunks(
                    orchard,
                    initial_position,
                    leaves_and_retentions@,
                    located_tree_size as int,
                    trees@.len(),
                )
                &&& (trees@.len() - 1) * located_tree_size < leaves_and_retentions@.len() <= trees@.len()
                    * located_tree_size || (trees@.len() == 0 && leaves_and_retentions@.len() == 0)
            },
            Err(error) => error == TreeError::Insert && !all_nodes(leaves_and_retentions@, orchard),
        },
{
    let leaves = leaves_and_retentions;
    let size = located_tree_size;
    let mut trees: Vec<LocatedTreeData> = Vec::new();
    let total: usize = leaves.len();
    let mut from: usize = 0;
    assert(located_of(trees@) =~= chunks(orchard, initial_position, leaves@, size as int, 0));
    while from < total
        invariant
            from <= total == leaves@.len(),
            size > 0,
            leaves == leaves_and_retentions,
            initial_position + leaves@.len() <= LEAVES,
            located_of(trees@) == chunks(orchard, initial_position, leaves@, size as int, trees@.len()),
            from < total ==> from == trees@.len() * size,
            from == total ==> (trees@.len() - 1) * size < total <= trees@.len() * size || trees@.len() == 0,
            from == total && trees@.len() == 0 ==> total == 0,
            all_nodes(leaves@.take(from as int), orchard),
            all_of_protocol(trees@, orchard),
        decreases total - from,
    {
        let to: usize = if total - from > size {
            from + size
        } else {
            total
        };
        let part = chunk(leaves, from, to);
        let ghost before = trees@;
        proof {
            lemma_nodes_of_part(leaves@, orchard, from as int, to as int);
            assert(leaves@.take(to as int) =~= leaves@.take(from as int) + part@);
        }
        if !are_nodes(&part, orchard) {
            assert(!all_nodes(leaves@, orchard));
            return Err(TreeError::Insert);
        }
        trees.push(LocatedTreeData { orchard, start: initial_position + from as u64, leaves: part });
        proof {
            let n = before.len();
            assert(trees@[n as int]@ == chunk_from(orchard, initial_position, leaves@, size as int, from as int));
            assert(located_of(trees@) =~= located_of(before).push(trees@[n as int]@));
            assert(located_of(trees@) =~= chunks(orchard, initial_position, leaves@, size as int, (n + 1) as nat));
            assert((n + 1) * size == n * size + size) by (nonlinear_arith);
        }
        from = to;
    }
    assert(leaves@.take(total as int) =~= leaves@);
    Ok(trees)
}

proof fn lemma_nodes_of_part(leaves: Seq<Leaf>, orchard: bool, from: int, to: int)
    requires
        0 <= from <= to <= leaves.len(),
        all_nodes(leaves.take(from), orchard),
    ensures
        all_nodes(leaves.subrange(from, to), orchard) == all_nodes(leaves.take(to), orchard),
        all_nodes(leaves, orchard) ==> all_nodes(leaves.subrange(from, to), orchard),
{
    let part = leaves.subrange(from, to);
    let all = leaves.take(to);
    if all_nodes(part, orchard) {
        assert forall|i: int| 0 <= i < all.len() implies is_node((#[trigger] all[i]).node@, orchard) by {
            if i < from {
                assert(leaves.take(from)[i] == all[i]);
            } else {
                assert(part[i - from] == all[i]);
            }
        }
    }
    if all_nodes(all, orchard) {
        assert forall|i: int| 0 <= i < part.len() implies is_node((#[trigger] part[i]).node@, orchard) by {
            assert(all[i + from] == part[i]);
        }
    }
    if all_nodes(leaves, orchard) {
        assert forall|i: int| 0 <= i < part.len() implies is_node((#[trigger] part[i]).node@, orchard) by {
            assert(leaves[i + from] == part[i]);
        }
    }
}

// --- roots of complete subtrees ---

/// Whether the root is a node of the tree.
pub open spec fn root_is_valid(root: SubtreeRoot, orchard: bool) -> bool {
    root.root_hash@.len() == 32 && is_node(root.root_hash@, orchard)
}

/// The number of roots before the first that is not valid.
pub open spec fn valid_roots(roots: Seq<SubtreeRoot>, orchard: bool) -> nat
    decreases roots.len(),
{
    if roots.len() == 0 {
        0
    } else if valid_roots(roots.drop_last(), orchard) < roots.len() - 1 || !root_is_valid(roots.last(), orchard) {
        valid_roots(roots.drop_last(), orchard)
    } else {
        roots.len()
    }
}

/// The subtrees with those of `roots` put from index `start` on.
pub open spec fn with_roots(shards: Seq<ShardView>, start: int, roots: Seq<SubtreeRoot>) -> Seq<ShardView>
    decreases roots.len(),
{
    if roots.len() == 0 {
        shards
    } else {
        shards_with(
            with_roots(shards, start, roots.drop_last()),
            start + roots.len() - 1,
            ShardView { level: SHARD_HEIGHT, bytes: bare_root(roots.last().root_hash@) },
        )
    }
}

fn node_of(bytes: &Vec<u8>) -> (r: Option<[u8; 32]>)
    ensures
        r.is_some() == (bytes@.len() == 32),
        r matches Some(node) ==> node@ == bytes@,
{
    if bytes.len() != 32 {
        return None;
    }
    let mut node: [u8; 32] = [0u8; 32];
    let mut i: usize = 0;
    while i < 32
        invariant
            i <= 32,
            bytes@.len() == 32,
            forall|k: int| 0 <= k < i ==> node@[k] == bytes@[k],
        decreases 32 - i,
    {
        node[i] = bytes[i];
        i = i + 1;
    }
    assert(node@ =~= bytes@);
    Some(node)
}

/// Puts the roots of complete subtrees into the tree, from index `start_index` on.
///
/// The roots before one that is not a node of the tree are put there.
pub fn add_subtree_roots(start_index: u64, subtree_roots: &Vec<SubtreeRoot>, tree: &mut NoteTree) -> (r: Result<
    (),
    ServerError,
>)
    requires
        start_index + subtree_roots@.len() <= SHARDS,
    ensures
        r.is_ok() == (valid_roots(subtree_roots@, old(tree)@.orchard) == subtree_roots@.len()),
        r.is_err() ==> r == Err::<(), ServerError>(ServerError::InvalidSubtreeRoot),
        final(tree)@ == (TreeView {
            shards: with_roots(
                old(tree)@.shards,
                start_index as int,
                subtree_roots@.take(valid_roots(subtree_roots@, old(tree)@.orchard) as int),
            ),
            ..old(tree)@
        }),
{
    let ghost before = tree@;
    let count: usize = subtree_roots.len();
    let mut i: usize = 0;
    assert(subtree_roots@.take(0) =~= Seq::empty());
    while i < count
        invariant
            i <= count == subtree_roots@.len(),
            start_index + count <= SHARDS,
            before == old(tree)@,
            valid_roots(subtree_roots@.take(i as int), before.orchard) == i,
            tree@ == (TreeView {
                shards: with_roots(before.shards, start_index as int, subtree_roots@.take(i as int)),
                ..before
            }),
        decreases count - i,
    {
        let root = &subtree_roots[i];
        let ghost next = subtree_roots@.take(i + 1);
        proof {
            assert(next.drop_last() =~= subtree_roots@.take(i as int));
            assert(next.last() == subtree_roots@[i as int]);
        }
        let put = match node_of(&root.root_hash) {
            Some(node) => tree.put_root(start_index + i as u64, &node),
            None => false,
        };
        if !put {
            proof {
                lemma_valid_roots_stop(subtree_roots@, before.orchard, i as int, count as int);
                assert(subtree_roots@.take(count as int) =~= subtree_roots@);
            }
            return Err(ServerError::InvalidSubtreeRoot);
        }
        i = i + 1;
    }
    assert(subtree_roots@.take(count as int) =~= subtree_roots@);
    Ok(())
}

proof fn lemma_valid_roots_stop(roots: Seq<SubtreeRoot>, orchard: bool, at: int, n: int)
    requires
        0 <= at < n <= roots.len(),
        valid_roots(roots.take(at), orchard) == at,
        !root_is_valid(roots[at], orchard),
    ensures
        valid_roots(roots.take(n), orchard) == at,
    decreases n,
{
    assert(roots.take(n).drop_last() =~= roots.take(n - 1));
    assert(roots.take(n).last() == roots[n - 1]);
    if n - 1 > at {
        lemma_valid_roots_stop(roots, orchard, at, n - 1);
    }
}

/// Whether only the root of a subtree is known.
pub open spec fn is_bare(shard: ShardView) -> bool {
    shard.bytes.len() > 1 && shard.bytes[1] == 1
}

/// The index from which subtree roots are fetched: after those stored, or at the newest one if it is still bare.
pub open spec fn fetch_start(shards: Seq<ShardView>) -> int {
    if shards.len() > 0 && is_bare(shards.last()) {
        shards.len() - 1
    } else {
        shards.len() as int
    }
}

/// The number of subtrees that are stored.
pub fn stored_subtree_root_count(tree: &NoteTree) -> (r: usize)
    ensures
        r == tree@.shards.len(),
{
    tree.shard_count()
}

/// The index from which subtree roots are fetched.
///
/// A newest root that was never scanned into is fetched again every session: no checkpoint bears witness to it, so
/// that nothing else puts it right after a re-org.
pub fn subtree_fetch_start_index(tree: &NoteTree) -> (r: usize)
    ensures
        r == fetch_start(tree@.shards),
{
    let count: usize = tree.shard_count();
    if count == 0 {
        return 0;
    }
    match tree.shard((count - 1) as u64) {
        Some(shard) => if shard.bytes.len() > 1 && shard.bytes[1] == 1 {
            count - 1
        } else {
            count
        },
        None => count,
    }
}

/// A bare newest root is fetched again and replaced by what was fetched: the number of subtrees stays the same, and
/// those before it are left as they are.
pub proof fn law_refetched_root_replaces_the_newest(shards: Seq<ShardView>, root: SubtreeRoot)
    requires
        shards.len() > 0,
        is_bare(shards.last()),
    ensures
        with_roots(shards, fetch_start(shards), seq![root]) == shards.drop_last().push(
            ShardView { level: SHARD_HEIGHT, bytes: bare_root(root.root_hash@) },
        ),
{
    let roots = seq![root];
    assert(roots.drop_last() =~= Seq::empty());
    reveal_with_fuel(with_roots, 2);
    assert(with_roots(shards, fetch_start(shards), roots) =~= shards.drop_last().push(
        ShardView { level: SHARD_HEIGHT, bytes: bare_root(root.root_hash@) },
    ));
}

} // verus!
