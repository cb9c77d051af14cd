//! Discovering the transparent addresses that are in use.
use crate::chain::{ChainParameters, NetworkType, PoolActivation};
use crate::outside::{derive_transparent_address, derived_address};
use crate::primitives::{BlockHeight, BlockRange, ShieldedPool, TxId};
use crate::sorted_map::SortedMap;
use crate::sync::session::MAX_REORG_ALLOWANCE;
use crate::sync::targets::{add_scan_targets, same_but_targets};
use crate::wallet::data::Wallet;
use crate::wallet::sync_state::{above, ScanTarget};
use crate::wallet::transaction::{TransparentAddressId, TransparentScope};
use vstd::prelude::*;

verus! {

/// The kinds of transparent address that are looked for.
#[derive(Clone, Copy, Debug, PartialEq, Eq, Structural)]
pub struct TransparentAddressDiscoveryScopes {
    pub external: bool,
    pub internal: bool,
    pub refund: bool,
}

/// How transparent addresses are looked for.
#[derive(Clone, Copy, Debug, PartialEq, Eq, Structural)]
pub struct TransparentAddressDiscovery {
    /// The number of unused addresses in a row after which no address is expected to be in use.
    pub gap_limit: u8,
    pub scopes: TransparentAddressDiscoveryScopes,
}

/// The scopes that are looked for.
pub open spec fn scopes_of(scopes: TransparentAddressDiscoveryScopes) -> Seq<TransparentScope> {
    (if scopes.external {
        seq![TransparentScope::External]
    } else {
        Seq::empty()
    }) + (if scopes.internal {
        seq![TransparentScope::Internal]
    } else {
        Seq::empty()
    }) + (if scopes.refund {
        seq![TransparentScope::Refund]
    } else {
        Seq::empty()
    })
}

/// The scopes that are looked for.
pub fn discovery_scopes(scopes: &TransparentAddressDiscoveryScopes) -> (r: Vec<TransparentScope>)
    ensures
        r@ == scopes_of(*scopes),
{
    let mut out: Vec<TransparentScope> = Vec::new();
    if scopes.external {
        out.push(TransparentScope::External);
    }
    if scopes.internal {
        out.push(TransparentScope::Internal);
    }
    if scopes.refund {
        out.push(TransparentScope::Refund);
    }
    assert(out@ =~= scopes_of(*scopes));
    out
}

/// The blocks in which transactions of transparent addresses are looked for: those above the last known height, and
/// those below it that a re-org may reach, but none before sapling.
pub open spec fn search_range(
    sapling_activation: BlockHeight,
    last_known_chain_height: BlockHeight,
    chain_height: BlockHeight,
) -> BlockRange {
    let start = if last_known_chain_height < MAX_REORG_ALLOWANCE {
        1u32
    } else {
        (last_known_chain_height - MAX_REORG_ALLOWANCE + 1) as u32
    };
    BlockRange {
        start: if start < sapling_activation {
            sapling_activation
        } else {
            start
        },
        end: above(chain_height),
    }
}

/// The blocks in which transactions of transparent addresses are looked for.
pub fn discovery_range(
    parameters: &ChainParameters,
    last_known_chain_height: BlockHeight,
    chain_height: BlockHeight,
) -> (r: BlockRange)
    requires
        parameters.activation_of(ShieldedPool::Sapling).is_some(),
    ensures
        r == search_range(
            parameters.activation_of(ShieldedPool::Sapling)->0,
            last_known_chain_height,
            chain_height,
        ),
{
    let activation = PoolActivation::of(parameters, ShieldedPool::Sapling).unwrap();
    let start: u32 = last_known_chain_height.saturating_sub(MAX_REORG_ALLOWANCE) + 1;
    BlockRange { start: activation.max_with(start), end: chain_height.saturating_add(1) }
}

/// A transaction of an address, and the height of its block.
#[derive(Clone, Copy, Debug, PartialEq, Eq)]
pub struct AddressTransaction {
    pub height: BlockHeight,
    pub txid: TxId,
}

// --- one scope ---

/// The number of child keys that are not hardened.
pub const CHILD_KEYS: u32 = 0x8000_0000;

/// The search for the addresses of one account and scope that are in use.
#[derive(Debug)]
pub struct ScopeSearch {
    pub account_id: u32,
    pub scope: TransparentScope,
    /// The index of the next address that is looked at.
    pub next_index: u32,
    /// The number of unused addresses in a row, at the end of those looked at.
    pub unused: usize,
    /// The addresses that were looked at.
    pub addresses: Vec<(TransparentAddressId, String)>,
    /// Of each of these addresses, whether it has transactions.
    pub found: Vec<bool>,
    /// The transactions of those that are in use.
    pub scan_targets: Vec<ScanTarget>,
}

/// Whether the entry is the last one of the account and scope.
pub open spec fn is_last_of(
    listed: Seq<(TransparentAddressId, String)>,
    account_id: u32,
    scope: TransparentScope,
    i: int,
) -> bool {
    &&& 0 <= i < listed.len()
    &&& listed[i].0.account_id == account_id
    &&& listed[i].0.scope == scope
    &&& forall|k: int|
        i < k < listed.len() ==> !((#[trigger] listed[k]).0.account_id == account_id && listed[k].0.scope == scope)
}

/// The index of the first address of the account and scope that the wallet has not used, if there is one.
pub open spec fn first_unused(
    listed: Seq<(TransparentAddressId, String)>,
    account_id: u32,
    scope: TransparentScope,
) -> Option<u32> {
    if exists|i: int| is_last_of(listed, account_id, scope, i) {
        let i = choose|i: int| is_last_of(listed, account_id, scope, i);
        if listed[i].0.address_index < CHILD_KEYS - 1 {
            Some((listed[i].0.address_index + 1) as u32)
        } else {
            None
        }
    } else {
        Some(0)
    }
}

/// How many of the last flags are unset.
pub open spec fn trailing_unset(flags: Seq<bool>) -> nat
    decreases flags.len(),
{
    if flags.len() == 0 || flags.last() {
        0
    } else {
        trailing_unset(flags.drop_last()) + 1
    }
}

impl ScopeSearch {
    pub open spec fn wf(&self) -> bool {
        &&& self.found@.len() == self.addresses@.len()
        &&& self.unused == trailing_unset(self.found@)
        &&& self.next_index <= CHILD_KEYS
        &&& forall|i: int|
            0 <= i < self.addresses@.len() ==> (#[trigger] self.addresses@[i]).0 == (TransparentAddressId {
                account_id: self.account_id,
                scope: self.scope,
                address_index: (self.next_index - self.addresses@.len() + i) as u32,
            })
        &&& self.addresses@.len() <= self.next_index
    }

    /// Begins a search with the first address that the wallet has not used. There is none where all are used.
    pub fn begin(
        wallet_addresses: &SortedMap<TransparentAddressId, String>,
        account_id: u32,
        scope: TransparentScope,
    ) -> (r: Option<Self>)
        requires
            wallet_addresses.wf(),
        ensures
            match first_unused(wallet_addresses.listed(), account_id, scope) {
                None => r.is_none(),
                Some(index) => r matches Some(search) && search.wf() && search.account_id == account_id
                    && search.scope == scope && search.next_index == index && search.unused == 0
                    && search.addresses@.len() == 0 && search.found@.len() == 0 && search.scan_targets@.len() == 0,
            },
    {
        let ghost listed = wallet_addresses.listed();
        let mut i: usize = wallet_addresses.len();
        let mut next_index: u32 = 0;
        let mut found = false;
        while i > 0 && !found
            invariant
                i <= listed.len(),
                listed == wallet_addresses.listed(),
                !found ==> next_index == 0 && forall|k: int|
                    i <= k < listed.len() ==> !((#[trigger] listed[k]).0.account_id == account_id && listed[k].0.scope
                        == scope),
                found ==> is_last_of(listed, account_id, scope, i as int) && first_unused(listed, account_id, scope)
                    == Some(next_index),
            decreases i + (if found {
                0int
            } else {
                1int
            }),
        {
            let id = wallet_addresses.entry(i - 1).0;
            if id.account_id == account_id && id.scope == scope {
                proof {
                    assert(is_last_of(listed, account_id, scope, i - 1));
                    let c = choose|c: int| is_last_of(listed, account_id, scope, c);
                    assert(c == i - 1);
                }
                if id.address_index >= CHILD_KEYS - 1 {
                    return None;
                }
                next_index = id.address_index + 1;
                found = true;
            }
            i = i - 1;
        }
        proof {
            if !found {
                assert(!exists|c: int| is_last_of(listed, account_id, scope, c));
            }
        }
        Some(
            ScopeSearch {
                account_id,
                scope,
                next_index,
                unused: 0,
                addresses: Vec::new(),
                found: Vec::new(),
                scan_targets: Vec::new(),
            },
        )
    }

    /// The next address to look at, or none once enough addresses in a row are unused.
    pub fn next_address(&self, gap_limit: u8) -> (r: Option<TransparentAddressId>)
        ensures
            r == if self.unused < gap_limit {
                Some(
                    TransparentAddressId {
                        account_id: self.account_id,
                        scope: self.scope,
                        address_index: self.next_index,
                    },
                )
            } else {
                None
            },
    {
        if self.unused < gap_limit as usize {
            Some(
                TransparentAddressId {
                    account_id: self.account_id,
                    scope: self.scope,
                    address_index: self.next_index,
                },
            )
        } else {
            None
        }
    }

    /// Takes in the transactions of the address that was looked at. Returns whether there is an address after it.
    pub fn note_address(&mut self, address: String, transactions: &Vec<AddressTransaction>) -> (r: bool)
        requires
            old(self).wf(),
            old(self).next_index < CHILD_KEYS,
        ensures
            final(self).wf(),
            final(self).account_id == old(self).account_id,
            final(self).scope == old(self).scope,
            final(self).addresses@ == old(self).addresses@.push(
                (
                    TransparentAddressId {
                        account_id: old(self).account_id,
                        scope: old(self).scope,
                        address_index: old(self).next_index,
                    },
                    address,
                ),
            ),
            final(self).found@ == old(self).found@.push(transactions@.len() > 0),
            final(self).unused == if transactions@.len() == 0 {
                (old(self).unused + 1) as usize
            } else {
                0
            },
            final(self).scan_targets@ == old(self).scan_targets@ + targets_of(transactions@),
            final(self).next_index == old(self).next_index + 1,
            r == (old(self).next_index + 1 < CHILD_KEYS),
    {
        let ghost before = *self;
        let id = TransparentAddressId {
            account_id: self.account_id,
            scope: self.scope,
            address_index: self.next_index,
        };
        self.addresses.push((id, address));
        proof {
            lemma_trailing_unset(before.found@);
            assert(before.found@.push(transactions@.len() > 0).drop_last() =~= before.found@);
        }
        self.found.push(transactions.len() > 0);
        if transactions.len() == 0 {
            self.unused = self.unused + 1;
        } else {
            self.unused = 0;
        }
        push_targets(transactions, &mut self.scan_targets);
        self.next_index = self.next_index + 1;
        proof {
            assert forall|i: int| 0 <= i < self.addresses@.len() implies (#[trigger] self.addresses@[i]).0 == (
            TransparentAddressId {
                account_id: self.account_id,
                scope: self.scope,
                address_index: (self.next_index - self.addresses@.len() + i) as u32,
            }) by {
                if i < before.addresses@.len() {
                    assert(self.addresses@[i] == before.addresses@[i]);
                }
            }
        }
        self.next_index < CHILD_KEYS
    }

    /// The addresses up to the last one that is in use.
    pub fn in_use(self, gap_limit: u8) -> (r: (Vec<(TransparentAddressId, String)>, Vec<ScanTarget>))
        requires
            self.wf(),
            gap_limit <= self.addresses@.len(),
        ensures
            r.0@ == self.addresses@.take(self.addresses@.len() - gap_limit),
            r.1@ == self.scan_targets@,
            gap_limit <= self.unused ==> forall|i: int| #![trigger self.found@[i]]
                0 <= i < self.found@.len() && self.found@[i] ==> i < r.0@.len() && r.0@[i] == self.addresses@[i],
            gap_limit == self.unused && r.0@.len() > 0 ==> self.found@[r.0@.len() - 1],
    {
        proof {
            lemma_trailing_unset(self.found@);
        }
        let mut addresses = self.addresses;
        let ghost all = addresses@;
        let kept: usize = addresses.len() - gap_limit as usize;
        addresses.truncate(kept);
        assert(addresses@ =~= all.take(kept as int));
        (addresses, self.scan_targets)
    }
}

/// The targets of transactions.
pub open spec fn targets_of(transactions: Seq<AddressTransaction>) -> Seq<ScanTarget> {
    Seq::new(
        transactions.len(),
        |i: int|
            ScanTarget {
                block_height: transactions[i].height,
                txid: transactions[i].txid,
                narrow_scan_area: true,
            },
    )
}

/// Appends the targets of transactions.
pub fn push_targets(transactions: &Vec<AddressTransaction>, targets: &mut Vec<ScanTarget>)
    ensures
        final(targets)@ == old(targets)@ + targets_of(transactions@),
{
    let ghost before = targets@;
    let count: usize = transactions.len();
    let mut i: usize = 0;
    assert(targets@ =~= before + targets_of(transactions@).take(0));
    while i < count
        invariant
            i <= count == transactions@.len(),
            targets@ == before + targets_of(transactions@).take(i as int),
        decreases count - i,
    {
        targets.push(
            ScanTarget {
                block_height: transactions[i].height,
                txid: transactions[i].txid,
                narrow_scan_area: true,
            },
        );
        assert(targets@ =~= before + targets_of(transactions@).take(i + 1));
        i = i + 1;
    }
    assert(targets_of(transactions@).take(count as int) =~= targets_of(transactions@));
}

/// The address with an index under an account's key, or why it cannot be derived.
pub fn derive_address(
    network: NetworkType,
    account_key: &[u8; 65],
    id: &TransparentAddressId,
) -> (r: Result<String, String>)
    requires
        id.address_index < CHILD_KEYS,
    ensures
        match derived_address(account_key@, id.scope, id.address_index, network) {
            Ok(address) => r matches Ok(text) && text@ == address,
            Err(detail) => r matches Err(text) && text@ == detail,
        },
{
    derive_transparent_address(account_key, id.scope, id.address_index, network)
}

// --- the wallet ---

/// The addresses of the wallet with others added.
pub open spec fn with_addresses(
    addresses: Map<TransparentAddressId, String>,
    added: Seq<(TransparentAddressId, String)>,
) -> Map<TransparentAddressId, String>
    decreases added.len(),
{
    if added.len() == 0 {
        addresses
    } else {
        with_addresses(addresses, added.drop_last()).insert(added.last().0, added.last().1)
    }
}

/// Adds the addresses that were found to be in use, of all scopes, and the targets of their transactions.
///
/// Both are added together, once the search in every scope has ended: an address is never kept without the targets of
/// its transactions, which would not be found again.
pub fn commit_discovery(
    wallet: &mut Wallet,
    addresses: Vec<(TransparentAddressId, String)>,
    scan_targets: &Vec<ScanTarget>,
)
    requires
        old(wallet).wf(),
    ensures
        final(wallet).wf(),
        final(wallet).transparent_addresses@ == with_addresses(old(wallet).transparent_addresses@, addresses@),
        forall|t: ScanTarget| #[trigger]
            final(wallet).sync_state.scan_targets@.dom().contains(t) == (old(wallet).sync_state.scan_targets@.dom().contains(t) || scan_targets@.contains(t)),
        same_but_targets(&final(wallet).sync_state, &old(wallet).sync_state),
        final(wallet).save_required,
        *final(wallet) == (Wallet {
            sync_state: final(wallet).sync_state,
            transparent_addresses: final(wallet).transparent_addresses,
            save_required: true,
            ..*old(wallet)
        }),
{
    let ghost before = wallet.transparent_addresses@;
    let ghost all = addresses@;
    assert(all.take(0) =~= Seq::empty());
    for entry in it: addresses
        invariant
            it.seq() == all,
            before == old(wallet).transparent_addresses@,
            wallet.transparent_addresses.wf(),
            wallet.transparent_addresses@ == with_addresses(before, all.take(it.index() as int)),
            *wallet == (Wallet { transparent_addresses: wallet.transparent_addresses, ..*old(wallet) }),
    {
        let ghost i = it.index() as int;
        proof {
            assert(all.take(i + 1).drop_last() =~= all.take(i));
            assert(all.take(i + 1).last() == all[i]);
        }
        wallet.transparent_addresses.insert(entry.0, entry.1);
    }
    assert(all.take(all.len() as int) =~= all);
    add_scan_targets(&mut wallet.sync_state, scan_targets);
    wallet.save_required = true;
}

/// The unset flags at the end, of which there are as many as are counted, and a set one before them, if there is one.
proof fn lemma_trailing_unset(flags: Seq<bool>)
    ensures
        trailing_unset(flags) <= flags.len(),
        forall|i: int| flags.len() - trailing_unset(flags) <= i < flags.len() ==> !#[trigger] flags[i],
        flags.len() > trailing_unset(flags) ==> flags[flags.len() - trailing_unset(flags) - 1],
    decreases flags.len(),
{
    if flags.len() > 0 && !flags.last() {
        let before = flags.drop_last();
        lemma_trailing_unset(before);
        let count = trailing_unset(flags);
        assert forall|i: int| flags.len() - count <= i < flags.len() implies !#[trigger] flags[i] by {
            if i < flags.len() - 1 {
                assert(before[i] == flags[i]);
            }
        }
        if flags.len() > count {
            assert(before[flags.len() - count - 1] == flags[flags.len() - count - 1]);
        }
    }
}

/// When a search ends, the addresses that are dropped are exactly unused ones, and the one before them, if there is
/// one, is in use: no address in use is lost, and none is kept that lies beyond the last one in use.
pub proof fn law_search_keeps_addresses_in_use(search: &ScopeSearch, gap_limit: u8)
    requires
        search.wf(),
        search.unused == gap_limit,
    ensures
        gap_limit <= search.addresses@.len(),
        forall|i: int|
            search.addresses@.len() - gap_limit <= i < search.addresses@.len() ==> !#[trigger] search.found@[i],
        search.addresses@.len() > gap_limit ==> search.found@[search.addresses@.len() - gap_limit - 1],
{
    lemma_trailing_unset(search.found@);
}

} // verus!
