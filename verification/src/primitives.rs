//! Plain values shared by the whole engine: heights, block ranges, identifiers and pools.
use crate::sorted_map::OrderedKey;
use vstd::prelude::*;

verus! {

/// The height of a block in the chain.
pub type BlockHeight = u32;

/// The header hash of a block.
pub type BlockHash = [u8; 32];

/// A half open range of block heights: `start` is inside, `end` is not.
#[derive(Clone, Copy, Debug, PartialEq, Eq, Structural)]
pub struct BlockRange {
    pub start: BlockHeight,
    pub end: BlockHeight,
}

impl BlockRange {
    /// Whether `height` lies in the range.
    pub open spec fn has(self, height: int) -> bool {
        self.start <= height < self.end
    }

    pub fn new(start: BlockHeight, end: BlockHeight) -> (r: Self)
        ensures
            r.start == start,
            r.end == end,
    {
        BlockRange { start, end }
    }

    /// Whether `height` lies in the range.
    pub fn contains(&self, height: BlockHeight) -> (r: bool)
        ensures
            r == self.has(height as int),
    {
        self.start <= height && height < self.end
    }
}

/// The value of a byte string read as a big endian number.
///
/// On strings of one length this orders as the byte strings do.
pub open spec fn be_value(bytes: Seq<u8>) -> nat
    decreases bytes.len(),
{
    if bytes.len() == 0 {
        0
    } else {
        be_value(bytes.drop_last()) * 256 + bytes.last() as nat
    }
}

/// Two strings of one length that differ have different values, ordered by the first difference.
proof fn lemma_be_value_first_difference(a: Seq<u8>, b: Seq<u8>, at: int, upto: int)
    requires
        a.len() == b.len(),
        0 <= at < upto <= a.len(),
        a.take(at) =~= b.take(at),
        a[at] < b[at],
    ensures
        be_value(a.take(upto)) < be_value(b.take(upto)),
    decreases upto,
{
    assert(a.take(upto).drop_last() =~= a.take(upto - 1));
    assert(b.take(upto).drop_last() =~= b.take(upto - 1));
    if upto > at + 1 {
        lemma_be_value_first_difference(a, b, at, upto - 1);
    }
}

proof fn lemma_be_value_injective(a: Seq<u8>, b: Seq<u8>)
    requires
        a.len() == b.len(),
        be_value(a) == be_value(b),
    ensures
        a =~= b,
    decreases a.len(),
{
    if a.len() > 0 {
        lemma_be_value_injective(a.drop_last(), b.drop_last());
        assert(a =~= a.drop_last().push(a.last()));
        assert(b =~= b.drop_last().push(b.last()));
    }
}

/// Every value of a string of at most 32 bytes stays below two to the power of 256.
proof fn lemma_be_value_bound(a: Seq<u8>, n: nat)
    requires
        a.len() == n,
    ensures
        be_value(a) < vstd::arithmetic::power::pow(256, n),
    decreases n,
{
    reveal(vstd::arithmetic::power::pow);
    if n > 0 {
        lemma_be_value_bound(a.drop_last(), (n - 1) as nat);
    }
}

pub proof fn lemma_be_value_32_bound(a: [u8; 32])
    ensures
        be_value(a@) < bytes_32_values(),
{
    lemma_be_value_bound(a@, 32);
    assert(vstd::arithmetic::power::pow(256, 32) == bytes_32_values()) by {
        reveal_with_fuel(vstd::arithmetic::power::pow, 33);
    }
}

/// The number of values of a string of 32 bytes.
pub open spec fn bytes_32_values() -> nat {
    0x10000000000000000000000000000000000000000000000000000000000000000nat
}

/// Whether two 32 byte strings are equal.
pub fn bytes_32_equal(a: &[u8; 32], b: &[u8; 32]) -> (r: bool)
    ensures
        r == (*a == *b),
{
    let mut i: usize = 0;
    while i < 32
        invariant
            i <= 32,
            a@.take(i as int) =~= b@.take(i as int),
        decreases 32 - i,
    {
        if a[i] != b[i] {
            return false;
        }
        assert(a@.take(i + 1) =~= a@.take(i as int).push(a@[i as int]));
        assert(b@.take(i + 1) =~= b@.take(i as int).push(b@[i as int]));
        i = i + 1;
    }
    assert(a@ =~= a@.take(32));
    assert(b@ =~= b@.take(32));
    assert(*a =~= *b);
    true
}

/// Whether one 32 byte string stands before another in byte order.
pub fn bytes_32_precede(a: &[u8; 32], b: &[u8; 32]) -> (r: bool)
    ensures
        r == (be_value(a@) < be_value(b@)),
{
    let mut i: usize = 0;
    while i < 32
        invariant
            i <= 32,
            a@.take(i as int) =~= b@.take(i as int),
        decreases 32 - i,
    {
        if a[i] != b[i] {
            proof {
                assert(a@.take(32) =~= a@);
                assert(b@.take(32) =~= b@);
                if a[i as int] < b[i as int] {
                    lemma_be_value_first_difference(a@, b@, i as int, 32);
                } else {
                    lemma_be_value_first_difference(b@, a@, i as int, 32);
                }
            }
            return a[i] < b[i];
        }
        assert(a@.take(i + 1) =~= a@.take(i as int).push(a@[i as int]));
        assert(b@.take(i + 1) =~= b@.take(i as int).push(b@[i as int]));
        i = i + 1;
    }
    assert(a@ =~= a@.take(32));
    assert(b@ =~= b@.take(32));
    false
}

/// The identifier of a transaction.
#[derive(Clone, Copy, Debug, PartialEq, Eq, PartialOrd, Ord, Hash)]
pub struct TxId {
    pub bytes: [u8; 32],
}

impl TxId {
    pub fn from_bytes(bytes: [u8; 32]) -> (r: TxId)
        ensures
            r.bytes == bytes,
    {
        TxId { bytes }
    }

    /// Whether both identify one transaction.
    pub fn same(&self, other: &TxId) -> (r: bool)
        ensures
            r == (*self == *other),
    {
        bytes_32_equal(&self.bytes, &other.bytes)
    }
}

impl OrderedKey for TxId {
    open spec fn rank(&self) -> nat {
        be_value(self.bytes@)
    }

    proof fn rank_is_injective(a: Self, b: Self) {
        lemma_be_value_injective(a.bytes@, b.bytes@);
        assert(a.bytes =~= b.bytes);
    }

    fn precedes(&self, other: &Self) -> bool {
        bytes_32_precede(&self.bytes, &other.bytes)
    }
}

/// The nullifier that a spend of a shielded note reveals.
#[derive(Clone, Copy, Debug, PartialEq, Eq, PartialOrd, Ord, Hash)]
pub struct Nullifier {
    pub bytes: [u8; 32],
}

impl Nullifier {
    pub fn from_bytes(bytes: [u8; 32]) -> (r: Nullifier)
        ensures
            r.bytes == bytes,
    {
        Nullifier { bytes }
    }

    /// Whether both are one nullifier.
    pub fn same(&self, other: &Nullifier) -> (r: bool)
        ensures
            r == (*self == *other),
    {
        bytes_32_equal(&self.bytes, &other.bytes)
    }
}

impl OrderedKey for Nullifier {
    open spec fn rank(&self) -> nat {
        be_value(self.bytes@)
    }

    proof fn rank_is_injective(a: Self, b: Self) {
        lemma_be_value_injective(a.bytes@, b.bytes@);
        assert(a.bytes =~= b.bytes);
    }

    fn precedes(&self, other: &Self) -> bool {
        bytes_32_precede(&self.bytes, &other.bytes)
    }
}

impl OrderedKey for u32 {
    open spec fn rank(&self) -> nat {
        *self as nat
    }

    proof fn rank_is_injective(a: Self, b: Self) {
    }

    fn precedes(&self, other: &Self) -> bool {
        *self < *other
    }
}

/// The place of an output: the transaction and the index within it.
#[derive(Clone, Copy, Debug, PartialEq, Eq, PartialOrd, Ord, Hash)]
pub struct OutputId {
    pub txid: TxId,
    pub output_index: u32,
}

impl OutputId {
    pub fn new(txid: TxId, output_index: u32) -> (r: OutputId)
        ensures
            r.txid == txid,
            r.output_index == output_index,
    {
        OutputId { txid, output_index }
    }

    /// Whether both name one output.
    pub fn same(&self, other: &OutputId) -> (r: bool)
        ensures
            r == (*self == *other),
    {
        self.txid.same(&other.txid) && self.output_index == other.output_index
    }
}

impl OrderedKey for OutputId {
    open spec fn rank(&self) -> nat {
        self.txid.rank() * 0x1_0000_0000 + self.output_index as nat
    }

    proof fn rank_is_injective(a: Self, b: Self) {
        TxId::rank_is_injective(a.txid, b.txid);
    }

    fn precedes(&self, other: &Self) -> bool {
        if self.txid.precedes(&other.txid) {
            true
        } else if other.txid.precedes(&self.txid) {
            false
        } else {
            self.output_index < other.output_index
        }
    }
}

/// A shielded pool, in the order in which the pools came to the network.
#[derive(Clone, Copy, Debug, PartialEq, Eq, PartialOrd, Ord, Hash, Structural)]
pub enum ShieldedPool {
    Sapling,
    Orchard,
    Ironwood,
}

impl ShieldedPool {
    /// The place of the pool in the order of activation.
    pub open spec fn age(self) -> int {
        match self {
            ShieldedPool::Sapling => 0,
            ShieldedPool::Orchard => 1,
            ShieldedPool::Ironwood => 2,
        }
    }

    /// Whether this pool came to the network with `other` or after it.
    pub fn not_before(self, other: ShieldedPool) -> (r: bool)
        ensures
            r == (self.age() >= other.age()),
    {
        match (self, other) {
            (ShieldedPool::Sapling, ShieldedPool::Sapling) => true,
            (ShieldedPool::Sapling, _) => false,
            (ShieldedPool::Orchard, ShieldedPool::Ironwood) => false,
            (ShieldedPool::Orchard, _) => true,
            (ShieldedPool::Ironwood, _) => true,
        }
    }
}

} // verus!
