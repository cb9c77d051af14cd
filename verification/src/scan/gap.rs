//! Transparent outputs in compact blocks, and the addresses that are watched for them.
//!
//! Beyond the addresses that are in use, a number of unused ones is watched in each scope: the gap addresses. Where one
//! of them turns out to be in use, it and those below it are in use, and as many new ones are watched.
use crate::chain::NetworkType;
use crate::error::ScanError;
use crate::outside::{derived_address, script_address, script_recipient};
use crate::primitives::{BlockHeight, OutputId, TxId};
use crate::scan::compact::{to_32, CompactBlock, CompactTx, CompactTxOut};
use crate::scan::scanning::txid_at;
use crate::sorted_map::{has_key, OrderedKey, SortedMap};
use crate::sync::transparent::{derive_address, first_unused, ScopeSearch, CHILD_KEYS};
use crate::wallet::serialization::array_of;
use crate::wallet::sync_state::{ScanTarget, ScanTargets};
use crate::wallet::transaction::{TransparentAddressId, TransparentScope};
use crate::wallet::transaction_serialization::MAX_MONEY;
use vstd::prelude::*;

verus! {

// --- outputs ---

/// An address that an output pays to, and the transaction of the output.
#[derive(Debug, PartialEq, Eq)]
pub struct Recipient {
    pub height: BlockHeight,
    pub txid: TxId,
    pub address: String,
}

/// The value of a [`Recipient`].
pub struct RecipientView {
    pub height: BlockHeight,
    pub txid: TxId,
    pub address: Seq<char>,
}

impl View for Recipient {
    type V = RecipientView;

    open spec fn view(&self) -> RecipientView {
        RecipientView { height: self.height, txid: self.txid, address: self.address@ }
    }
}

/// The values of recipients.
pub open spec fn recipient_views(recipients: Seq<Recipient>) -> Seq<RecipientView> {
    Seq::new(recipients.len(), |i: int| recipients[i]@)
}

/// The recipients with those of outputs added, or the error of the first output of more money than there is.
pub open spec fn with_output_recipients(
    before: Seq<RecipientView>,
    height: BlockHeight,
    txid: TxId,
    outputs: Seq<CompactTxOut>,
    network: NetworkType,
) -> Result<Seq<RecipientView>, ScanError>
    decreases outputs.len(),
{
    if outputs.len() == 0 {
        Ok(before)
    } else {
        match with_output_recipients(before, height, txid, outputs.drop_last(), network) {
            Err(error) => Err(error),
            Ok(so_far) => if outputs.last().value > MAX_MONEY {
                Err(ScanError::TransparentOutputInvalidValue(outputs.last().value))
            } else {
                match script_address(outputs.last().script_pub_key@, network) {
                    None => Ok(so_far),
                    Some(address) => Ok(so_far.push(RecipientView { height, txid, address })),
                }
            },
        }
    }
}

proof fn lemma_output_error_stays(
    before: Seq<RecipientView>,
    height: BlockHeight,
    txid: TxId,
    outputs: Seq<CompactTxOut>,
    network: NetworkType,
    n: int,
)
    requires
        0 <= n <= outputs.len(),
        with_output_recipients(before, height, txid, outputs.take(n), network) is Err,
    ensures
        with_output_recipients(before, height, txid, outputs, network) == with_output_recipients(
            before,
            height,
            txid,
            outputs.take(n),
            network,
        ),
    decreases outputs.len() - n,
{
    if n == outputs.len() {
        assert(outputs.take(n) =~= outputs);
    } else {
        assert(outputs.take(n + 1).drop_last() =~= outputs.take(n));
        lemma_output_error_stays(before, height, txid, outputs, network, n + 1);
    }
}

fn add_output_recipients(
    recipients: &mut Vec<Recipient>,
    height: BlockHeight,
    txid: TxId,
    outputs: &Vec<CompactTxOut>,
    network: NetworkType,
) -> (r: Result<(), ScanError>)
    ensures
        match with_output_recipients(recipient_views(old(recipients)@), height, txid, outputs@, network) {
            Ok(views) => r.is_ok() && recipient_views(final(recipients)@) == views,
            Err(error) => r == Err::<(), ScanError>(error),
        },
{
    let ghost before = recipient_views(recipients@);
    let count: usize = outputs.len();
    let mut i: usize = 0;
    assert(outputs@.take(0) =~= Seq::empty());
    while i < count
        invariant
            i <= count == outputs@.len(),
            before == recipient_views(old(recipients)@),
            with_output_recipients(before, height, txid, outputs@.take(i as int), network) == Ok::<
                Seq<RecipientView>,
                ScanError,
            >(recipient_views(recipients@)),
        decreases count - i,
    {
        proof {
            assert(outputs@.take(i + 1).drop_last() =~= outputs@.take(i as int));
            assert(outputs@.take(i + 1).last() == outputs@[i as int]);
        }
        let output = &outputs[i];
        if output.value > MAX_MONEY {
            proof {
                lemma_output_error_stays(before, height, txid, outputs@, network, i + 1);
            }
            return Err(ScanError::TransparentOutputInvalidValue(output.value));
        }
        let ghost so_far = recipients@;
        if let Some(address) = script_recipient(output.script_pub_key.as_slice(), network) {
            let recipient = Recipient { height, txid, address };
            let ghost view = recipient@;
            recipients.push(recipient);
            assert(recipient_views(recipients@) =~= recipient_views(so_far).push(view));
        }
        i = i + 1;
    }
    assert(outputs@.take(count as int) =~= outputs@);
    Ok(())
}

/// The recipients with those of the first `n` transactions of a block added.
pub open spec fn with_block_recipients(
    before: Seq<RecipientView>,
    block: &CompactBlock,
    network: NetworkType,
    n: int,
) -> Result<Seq<RecipientView>, ScanError>
    decreases n,
{
    if n <= 0 {
        Ok(before)
    } else {
        match with_block_recipients(before, block, network, n - 1) {
            Err(error) => Err(error),
            Ok(so_far) => with_output_recipients(
                so_far,
                block.height as u32,
                txid_at(block, n - 1),
                block.vtx@[n - 1].vout@,
                network,
            ),
        }
    }
}

proof fn lemma_block_error_stays(before: Seq<RecipientView>, block: &CompactBlock, network: NetworkType, n: int)
    requires
        0 <= n <= block.vtx@.len(),
        with_block_recipients(before, block, network, n) is Err,
    ensures
        with_block_recipients(before, block, network, block.vtx@.len() as int) == with_block_recipients(
            before,
            block,
            network,
            n,
        ),
    decreases block.vtx@.len() - n,
{
    if n < block.vtx@.len() {
        lemma_block_error_stays(before, block, network, n + 1);
    }
}

/// Appends the recipients of the transparent outputs of a block.
pub fn add_block_recipients(recipients: &mut Vec<Recipient>, block: &CompactBlock, network: NetworkType) -> (r: Result<
    (),
    ScanError,
>)
    requires
        block.height <= u32::MAX,
        forall|i: int| 0 <= i < block.vtx@.len() ==> (#[trigger] block.vtx@[i]).txid@.len() == 32,
    ensures
        match with_block_recipients(recipient_views(old(recipients)@), block, network, block.vtx@.len() as int) {
            Ok(views) => r.is_ok() && recipient_views(final(recipients)@) == views,
            Err(error) => r == Err::<(), ScanError>(error),
        },
{
    let ghost before = recipient_views(recipients@);
    let height: u32 = block.height as u32;
    let count: usize = block.vtx.len();
    let mut i: usize = 0;
    while i < count
        invariant
            i <= count == block.vtx@.len(),
            height == block.height,
            before == recipient_views(old(recipients)@),
            forall|i: int| 0 <= i < block.vtx@.len() ==> (#[trigger] block.vtx@[i]).txid@.len() == 32,
            with_block_recipients(before, block, network, i as int) == Ok::<Seq<RecipientView>, ScanError>(
                recipient_views(recipients@),
            ),
        decreases count - i,
    {
        let bytes = to_32(&block.vtx[i].txid).unwrap();
        if let Err(error) = add_output_recipients(recipients, height, TxId { bytes }, &block.vtx[i].vout, network) {
            proof {
                lemma_block_error_stays(before, block, network, i + 1);
            }
            return Err(error);
        }
        i = i + 1;
    }
    Ok(())
}

// --- inputs ---

/// The outpoints with those of the inputs of a transaction added. One that is malformed is passed over.
pub open spec fn with_outpoints(
    before: Map<OutputId, ScanTarget>,
    tx: &CompactTx,
    target: ScanTarget,
    n: int,
) -> Map<OutputId, ScanTarget>
    decreases n,
{
    if n <= 0 {
        before
    } else {
        let so_far = with_outpoints(before, tx, target, n - 1);
        let input = tx.vin@[n - 1];
        if input.prevout_txid@.len() == 32 {
            so_far.insert(
                OutputId {
                    txid: TxId { bytes: array_of(input.prevout_txid@) },
                    output_index: input.prevout_index,
                },
                target,
            )
        } else {
            so_far
        }
    }
}

/// Adds the outpoints of the inputs of a transaction, each with the transaction that spends it.
pub fn collect_outpoints_compact(
    outpoints: &mut SortedMap<OutputId, ScanTarget>,
    block_height: BlockHeight,
    txid: TxId,
    transaction: &CompactTx,
)
    requires
        old(outpoints).wf(),
    ensures
        final(outpoints).wf(),
        final(outpoints)@ == with_outpoints(
            old(outpoints)@,
            transaction,
            ScanTarget { block_height, txid, narrow_scan_area: false },
            transaction.vin@.len() as int,
        ),
{
    let target = ScanTarget { block_height, txid, narrow_scan_area: false };
    let ghost before = outpoints@;
    let count: usize = transaction.vin.len();
    let mut i: usize = 0;
    while i < count
        invariant
            i <= count == transaction.vin@.len(),
            before == old(outpoints)@,
            outpoints.wf(),
            outpoints@ == with_outpoints(before, transaction, target, i as int),
        decreases count - i,
    {
        let input = &transaction.vin[i];
        if let Some(bytes) = to_32(&input.prevout_txid) {
            outpoints.insert(OutputId { txid: TxId { bytes }, output_index: input.prevout_index }, target);
        }
        i = i + 1;
    }
}

// --- watched addresses ---

/// Addresses by the keys that they belong to.
pub type Addresses = SortedMap<TransparentAddressId, String>;

/// The target of a recipient.
pub open spec fn target_of(recipient: RecipientView) -> ScanTarget {
    ScanTarget { block_height: recipient.height, txid: recipient.txid, narrow_scan_area: true }
}

/// Whether the address is among the addresses.
pub open spec fn is_among(addresses: Map<TransparentAddressId, String>, address: Seq<char>) -> bool {
    exists|id: TransparentAddressId| #[trigger] addresses.dom().contains(id) && addresses[id]@ == address
}

/// Whether an output pays to the address of the key.
pub open spec fn is_paid(
    recipients: Seq<RecipientView>,
    addresses: Map<TransparentAddressId, String>,
    id: TransparentAddressId,
) -> bool {
    &&& addresses.dom().contains(id)
    &&& exists|k: int| 0 <= k < recipients.len() && (#[trigger] recipients[k]).address == addresses[id]@
}

/// Whether the target is that of an output to one of the addresses.
pub open spec fn is_paying(
    recipients: Seq<RecipientView>,
    addresses: Map<TransparentAddressId, String>,
    target: ScanTarget,
) -> bool {
    exists|k: int|
        0 <= k < recipients.len() && target_of(#[trigger] recipients[k]) == target && is_among(
            addresses,
            recipients[k].address,
        )
}

/// Adds the keys of all addresses that are the given one. Returns whether there is one.
fn add_matches(addresses: &Addresses, address: &String, matches: &mut SortedMap<TransparentAddressId, ()>) -> (r: bool)
    requires
        addresses.wf(),
        old(matches).wf(),
    ensures
        final(matches).wf(),
        forall|id: TransparentAddressId| #[trigger]
            final(matches)@.dom().contains(id) == (old(matches)@.dom().contains(id) || (addresses@.dom().contains(id)
                && addresses@[id]@ == address@)),
        r == is_among(addresses@, address@),
{
    let ghost before = matches@;
    let ghost listed = addresses.listed();
    proof {
        addresses.lemma_listed();
    }
    let mut found = false;
    let count: usize = addresses.len();
    let mut i: usize = 0;
    while i < count
        invariant
            i <= count == listed.len(),
            listed == addresses.listed(),
            matches.wf(),
            forall|id: TransparentAddressId| #[trigger]
                matches@.dom().contains(id) == (before.dom().contains(id) || exists|k: int|
                    0 <= k < i && (#[trigger] listed[k]).0 == id && listed[k].1@ == address@),
            found == exists|k: int| 0 <= k < i && (#[trigger] listed[k]).1@ == address@,
        decreases count - i,
    {
        let entry = addresses.entry(i);
        let ghost so_far = matches@;
        if entry.1 == *address {
            matches.insert(entry.0, ());
            found = true;
            assert(listed[i as int].1@ == address@);
        }
        proof {
            assert forall|id: TransparentAddressId| #[trigger] matches@.dom().contains(id) == (before.dom().contains(id)
                || exists|k: int| 0 <= k < i + 1 && (#[trigger] listed[k]).0 == id && listed[k].1@ == address@) by {
                assert(so_far.dom().contains(id) == (before.dom().contains(id) || exists|k: int|
                    0 <= k < i && (#[trigger] listed[k]).0 == id && listed[k].1@ == address@));
                assert(listed[i as int] == *entry);
            }
        }
        i = i + 1;
    }
    proof {
        assert forall|id: TransparentAddressId| #[trigger] matches@.dom().contains(id) == (before.dom().contains(id) || (
        addresses@.dom().contains(id) && addresses@[id]@ == address@)) by {
            if addresses@.dom().contains(id) && addresses@[id]@ == address@ {
                assert(has_key(listed, id));
                let k = choose|k: int| 0 <= k < listed.len() && (#[trigger] listed[k]).0 == id;
                assert(addresses@[listed[k].0] == listed[k].1);
            }
            if exists|k: int| 0 <= k < count && (#[trigger] listed[k]).0 == id && listed[k].1@ == address@ {
                let k = choose|k: int|
                    0 <= k < count && (#[trigger] listed[k]).0 == id && listed[k].1@ == address@;
                assert(addresses@[listed[k].0] == listed[k].1);
            }
        }
        if is_among(addresses@, address@) {
            let id = choose|id: TransparentAddressId| #[trigger]
                addresses@.dom().contains(id) && addresses@[id]@ == address@;
            assert(has_key(listed, id));
            let k = choose|k: int| 0 <= k < listed.len() && (#[trigger] listed[k]).0 == id;
            assert(addresses@[listed[k].0] == listed[k].1);
            assert(listed[k].1@ == address@);
        }
        if found {
            let k = choose|k: int| 0 <= k < count && (#[trigger] listed[k]).1@ == address@;
            assert(addresses@.dom().contains(listed[k].0));
            assert(addresses@[listed[k].0] == listed[k].1);
        }
    }
    found
}

/// Goes through the outputs once: adds the targets of those that pay to an address in use or a gap address, and says
/// which gap addresses are paid.
fn match_recipients(
    recipients: &Vec<Recipient>,
    in_use: &Addresses,
    gap: &Addresses,
    targets: &mut ScanTargets,
) -> (r: SortedMap<TransparentAddressId, ()>)
    requires
        in_use.wf(),
        gap.wf(),
        old(targets).wf(),
    ensures
        r.wf(),
        final(targets).wf(),
        forall|id: TransparentAddressId| #[trigger]
            r@.dom().contains(id) == is_paid(recipient_views(recipients@), gap@, id),
        forall|t: ScanTarget| #[trigger]
            final(targets)@.dom().contains(t) == (old(targets)@.dom().contains(t) || is_paying(
                recipient_views(recipients@),
                in_use@,
                t,
            ) || is_paying(recipient_views(recipients@), gap@, t)),
{
    let ghost before = targets@;
    let ghost views = recipient_views(recipients@);
    let mut paid: SortedMap<TransparentAddressId, ()> = SortedMap::new();
    let count: usize = recipients.len();
    let mut i: usize = 0;
    while i < count
        invariant
            i <= count == recipients@.len(),
            views == recipient_views(recipients@),
            before == old(targets)@,
            in_use.wf(),
            gap.wf(),
            targets.wf(),
            paid.wf(),
            forall|id: TransparentAddressId| #[trigger]
                paid@.dom().contains(id) == is_paid(views.take(i as int), gap@, id),
            forall|t: ScanTarget| #[trigger]
                targets@.dom().contains(t) == (before.dom().contains(t) || is_paying(views.take(i as int), in_use@, t)
                    || is_paying(views.take(i as int), gap@, t)),
        decreases count - i,
    {
        let recipient = &recipients[i];
        let ghost seen = views.take(i as int);
        let ghost next = views.take(i + 1);
        let ghost paid0 = paid@;
        let ghost targets0 = targets@;
        let ghost view = recipient@;
        let mut ignored: SortedMap<TransparentAddressId, ()> = SortedMap::new();
        let used = add_matches(in_use, &recipient.address, &mut ignored);
        let watched = add_matches(gap, &recipient.address, &mut paid);
        if used || watched {
            targets.insert(
                ScanTarget { block_height: recipient.height, txid: recipient.txid, narrow_scan_area: true },
                (),
            );
        }
        proof {
            assert(next =~= seen.push(view));
            lemma_next_recipient(seen, view, in_use@);
            lemma_next_recipient(seen, view, gap@);
            assert forall|id: TransparentAddressId| #[trigger] paid@.dom().contains(id) == is_paid(
                next,
                gap@,
                id,
            ) by {
                assert(paid0.dom().contains(id) == is_paid(seen, gap@, id));
            }
            assert forall|t: ScanTarget| #[trigger] targets@.dom().contains(t) == (before.dom().contains(t)
                || is_paying(next, in_use@, t) || is_paying(next, gap@, t)) by {
                assert(targets0.dom().contains(t) == (before.dom().contains(t) || is_paying(seen, in_use@, t)
                    || is_paying(seen, gap@, t)));
            }
        }
        i = i + 1;
    }
    assert(views.take(count as int) =~= views);
    paid
}

proof fn lemma_next_recipient(
    seen: Seq<RecipientView>,
    next: RecipientView,
    addresses: Map<TransparentAddressId, String>,
)
    ensures
        forall|id: TransparentAddressId|
            is_paid(seen.push(next), addresses, id) == (is_paid(seen, addresses, id) || (addresses.dom().contains(id)
                && addresses[id]@ == next.address)),
        forall|t: ScanTarget|
            is_paying(seen.push(next), addresses, t) == (is_paying(seen, addresses, t) || (target_of(next) == t
                && is_among(addresses, next.address))),
{
    let all = seen.push(next);
    assert forall|id: TransparentAddressId|
        is_paid(all, addresses, id) == (is_paid(seen, addresses, id) || (addresses.dom().contains(id)
            && addresses[id]@ == next.address)) by {
        if is_paid(all, addresses, id) {
            let k = choose|k: int| 0 <= k < all.len() && (#[trigger] all[k]).address == addresses[id]@;
            if k < seen.len() {
                assert(seen[k] == all[k]);
            }
        }
        if is_paid(seen, addresses, id) {
            let k = choose|k: int| 0 <= k < seen.len() && (#[trigger] seen[k]).address == addresses[id]@;
            assert(all[k] == seen[k]);
        }
        assert(all[seen.len() as int] == next);
    }
    assert forall|t: ScanTarget|
        is_paying(all, addresses, t) == (is_paying(seen, addresses, t) || (target_of(next) == t && is_among(
            addresses,
            next.address,
        ))) by {
        if is_paying(all, addresses, t) {
            let k = choose|k: int|
                0 <= k < all.len() && target_of(#[trigger] all[k]) == t && is_among(addresses, all[k].address);
            if k < seen.len() {
                assert(seen[k] == all[k]);
            }
        }
        if is_paying(seen, addresses, t) {
            let k = choose|k: int|
                0 <= k < seen.len() && target_of(#[trigger] seen[k]) == t && is_among(addresses, seen[k].address);
            assert(all[k] == seen[k]);
        }
        assert(all[seen.len() as int] == next);
    }
}

// --- the gap ---

/// The key of an account.
#[derive(Clone, Copy, Debug, PartialEq, Eq)]
pub struct AccountKey {
    pub account_id: u32,
    pub key: [u8; 65],
}

/// The address with an index in a scope.
pub open spec fn id_at(account_id: u32, scope: TransparentScope, address_index: u32) -> TransparentAddressId {
    TransparentAddressId { account_id, scope, address_index }
}

/// Whether exactly `limit` addresses of the scope are watched, from index `low` on.
pub open spec fn holds_window(
    gap: Map<TransparentAddressId, String>,
    account_id: u32,
    scope: TransparentScope,
    low: int,
    limit: int,
) -> bool {
    forall|index: u32| #[trigger]
        gap.dom().contains(id_at(account_id, scope, index)) == (low <= index < low + limit)
}

/// Whether in each scope either none or `limit` addresses in a row are watched, which are not hardened.
pub open spec fn windowed(gap: Map<TransparentAddressId, String>, limit: int) -> bool {
    forall|account_id: u32, scope: TransparentScope|
        #![trigger has_window(gap, account_id, scope, limit)]
        has_window(gap, account_id, scope, limit)
}

/// Whether in the scope either none or `limit` addresses in a row are watched.
pub open spec fn has_window(
    gap: Map<TransparentAddressId, String>,
    account_id: u32,
    scope: TransparentScope,
    limit: int,
) -> bool {
    ||| holds_window(gap, account_id, scope, 0, 0)
    ||| exists|low: int| #[trigger]
        holds_window(gap, account_id, scope, low, limit) && 0 <= low && low + limit <= CHILD_KEYS
}

/// Whether every address in use lies below those watched in its scope.
pub open spec fn used_below(
    gap: Map<TransparentAddressId, String>,
    used: Map<TransparentAddressId, String>,
) -> bool {
    forall|u: TransparentAddressId, g: TransparentAddressId| #[trigger]
        used.dom().contains(u) && #[trigger] gap.dom().contains(g) && u.account_id == g.account_id && u.scope
            == g.scope ==> u.address_index < g.address_index
}

/// Whether the address was derived from the key of its account.
pub open spec fn is_derived(
    keys: Seq<AccountKey>,
    network: NetworkType,
    id: TransparentAddressId,
    address: Seq<char>,
) -> bool {
    exists|i: int|
        0 <= i < keys.len() && (#[trigger] keys[i]).account_id == id.account_id && derived_address(
            keys[i].key@,
            id.scope,
            id.address_index,
            network,
        ) == Ok::<Seq<char>, Seq<char>>(address)
}

/// Whether what is watched or in use afterwards is what was watched or in use before, and addresses that were derived;
/// nothing that was watched or in use is forgotten, and nothing that was in use is watched again.
pub open spec fn gap_grown(
    keys: Seq<AccountKey>,
    network: NetworkType,
    gap0: Map<TransparentAddressId, String>,
    used0: Map<TransparentAddressId, String>,
    gap: Map<TransparentAddressId, String>,
    used: Map<TransparentAddressId, String>,
) -> bool {
    &&& forall|id: TransparentAddressId| #[trigger]
        used0.dom().contains(id) ==> used.dom().contains(id) && used[id] == used0[id]
    &&& forall|id: TransparentAddressId| #[trigger]
        gap0.dom().contains(id) ==> (gap.dom().contains(id) && gap[id] == gap0[id]) || (used.dom().contains(id)
            && used[id] == gap0[id])
    &&& forall|id: TransparentAddressId| #[trigger]
        used.dom().contains(id) ==> (used0.dom().contains(id) && used[id] == used0[id]) || (gap0.dom().contains(id)
            && used[id] == gap0[id]) || is_derived(keys, network, id, used[id]@)
    &&& forall|id: TransparentAddressId| #[trigger]
        gap.dom().contains(id) ==> (gap0.dom().contains(id) && gap[id] == gap0[id]) || is_derived(
            keys,
            network,
            id,
            gap[id]@,
        )
}

/// Whether every address that is in use afterwards was in use or watched before, and those that stay watched are the
/// same.
pub open spec fn moved_from(
    gap0: Map<TransparentAddressId, String>,
    used0: Map<TransparentAddressId, String>,
    gap: Map<TransparentAddressId, String>,
    used: Map<TransparentAddressId, String>,
) -> bool {
    &&& forall|id: TransparentAddressId| #[trigger]
        used.dom().contains(id) ==> (used0.dom().contains(id) && used[id] == used0[id]) || (gap0.dom().contains(id)
            && used[id] == gap0[id])
    &&& forall|id: TransparentAddressId| #[trigger]
        gap0.dom().contains(id) && gap.dom().contains(id) ==> gap[id] == gap0[id]
}

/// Whether the maps of other scopes are the same.
pub open spec fn same_elsewhere(
    a: Map<TransparentAddressId, String>,
    b: Map<TransparentAddressId, String>,
    account_id: u32,
    scope: TransparentScope,
) -> bool {
    forall|id: TransparentAddressId|
        #![trigger a.dom().contains(id)]
        #![trigger b.dom().contains(id)]
        !(id.account_id == account_id && id.scope == scope) ==> a.dom().contains(id) == b.dom().contains(id) && (
        a.dom().contains(id) ==> a[id] == b[id])
}

/// Whether fewer than `limit` addresses follow an address in its scope.
pub open spec fn is_near_end(id: TransparentAddressId, limit: int) -> bool {
    id.address_index + 1 + limit > CHILD_KEYS
}

/// Whether the detail is that of one of the `limit` addresses behind an address, which cannot be derived.
pub open spec fn is_underivable(
    keys: Seq<AccountKey>,
    network: NetworkType,
    detail: Seq<char>,
    id: TransparentAddressId,
    limit: int,
) -> bool {
    exists|i: int, index: u32|
        0 <= i < keys.len() && keys[i].account_id == id.account_id && id.address_index < index <= id.address_index
            + limit && index < CHILD_KEYS && #[trigger] derived_address(keys[i].key@, id.scope, index, network) == Err::<
            Seq<char>,
            Seq<char>,
        >(detail)
}

/// Why the window behind paid addresses could not be filled: a paid address lies too close to the end of its scope, or
/// an address behind it cannot be derived.
pub open spec fn is_window_error(
    error: ScanError,
    keys: Seq<AccountKey>,
    network: NetworkType,
    paid: Map<TransparentAddressId, ()>,
    limit: int,
) -> bool {
    match error {
        ScanError::AllAddressesInUse => exists|id: TransparentAddressId| #[trigger]
            paid.dom().contains(id) && is_near_end(id, limit),
        ScanError::TransparentAddressDerivationError(detail) => exists|id: TransparentAddressId| #[trigger]
            paid.dom().contains(id) && is_underivable(keys, network, detail@, id, limit),
        _ => false,
    }
}

/// Why the gap could not be filled: the search got to where `gap` is watched and `used` is in use, and there a paid
/// address lies too close to the end of its scope, or an address behind it cannot be derived.
pub open spec fn is_gap_error_at(
    error: ScanError,
    recipients: Seq<RecipientView>,
    keys: Seq<AccountKey>,
    network: NetworkType,
    limit: int,
    gap0: Map<TransparentAddressId, String>,
    gap: Map<TransparentAddressId, String>,
    used: Map<TransparentAddressId, String>,
    paid: TransparentAddressId,
) -> bool {
    &&& gap_reached(recipients, keys, network, limit, gap0, gap, used)
    &&& is_paid(recipients, gap, paid)
    &&& match error {
        ScanError::AllAddressesInUse => is_near_end(paid, limit),
        ScanError::TransparentAddressDerivationError(detail) => is_underivable(keys, network, detail@, paid, limit),
        _ => false,
    }
}

/// Why the gap could not be filled, as [`is_gap_error_at`] says it of some point of the search.
pub open spec fn is_gap_error(
    error: ScanError,
    recipients: Seq<RecipientView>,
    keys: Seq<AccountKey>,
    network: NetworkType,
    gap0: Map<TransparentAddressId, String>,
    limit: int,
) -> bool {
    exists|
        gap: Map<TransparentAddressId, String>,
        used: Map<TransparentAddressId, String>,
        paid: TransparentAddressId,
    | #[trigger]
        is_gap_error_at(error, recipients, keys, network, limit, gap0, gap, used, paid)
}

/// Whether the address is of the same scope as another, not above it, and less than `limit` below it.
pub open spec fn is_up_to(id: TransparentAddressId, other: TransparentAddressId, limit: int) -> bool {
    id.account_id == other.account_id && id.scope == other.scope && id.address_index <= other.address_index
        < id.address_index + limit
}

/// Whether every address that came into use lies at or less than `limit` below a paid one of its scope.
pub open spec fn used_up_to(
    paid: Map<TransparentAddressId, ()>,
    used0: Map<TransparentAddressId, String>,
    used: Map<TransparentAddressId, String>,
    limit: int,
) -> bool {
    forall|id: TransparentAddressId| #[trigger]
        used.dom().contains(id) && !used0.dom().contains(id) ==> exists|p: TransparentAddressId| #[trigger]
            paid.dom().contains(p) && used.dom().contains(p) && is_up_to(id, p, limit)
}

/// Whether an address in use of the same scope, that or one less than `limit` above it, is paid.
pub open spec fn is_reached(
    recipients: Seq<RecipientView>,
    used: Map<TransparentAddressId, String>,
    id: TransparentAddressId,
    limit: int,
) -> bool {
    exists|p: TransparentAddressId| #[trigger] is_paid(recipients, used, p) && is_up_to(id, p, limit)
}

/// Whether no address is in use but for a paid one, less than `limit` above it, in its scope.
pub open spec fn used_reached(
    recipients: Seq<RecipientView>,
    used: Map<TransparentAddressId, String>,
    limit: int,
) -> bool {
    forall|id: TransparentAddressId| used.dom().contains(id) ==> #[trigger] is_reached(recipients, used, id, limit)
}

/// Whether the window of a scope has moved from `low0` to `low`, and exactly the addresses that it left are newly in
/// use.
pub open spec fn window_moved_to(
    gap0: Map<TransparentAddressId, String>,
    used0: Map<TransparentAddressId, String>,
    gap: Map<TransparentAddressId, String>,
    used: Map<TransparentAddressId, String>,
    account_id: u32,
    scope: TransparentScope,
    limit: int,
    low0: int,
    low: int,
) -> bool {
    &&& holds_window(gap0, account_id, scope, low0, limit)
    &&& holds_window(gap, account_id, scope, low, limit)
    &&& 0 <= low0 <= low
    &&& low + limit <= CHILD_KEYS
    &&& forall|index: u32| #[trigger]
        used.dom().contains(id_at(account_id, scope, index)) == (used0.dom().contains(id_at(account_id, scope, index))
            || low0 <= index < low)
}

/// Whether nothing of the scope is watched, before and after, and nothing of it is newly in use.
pub open spec fn stays_unwatched(
    gap0: Map<TransparentAddressId, String>,
    used0: Map<TransparentAddressId, String>,
    gap: Map<TransparentAddressId, String>,
    used: Map<TransparentAddressId, String>,
    account_id: u32,
    scope: TransparentScope,
) -> bool {
    &&& holds_window(gap0, account_id, scope, 0, 0)
    &&& holds_window(gap, account_id, scope, 0, 0)
    &&& forall|index: u32| #[trigger]
        used.dom().contains(id_at(account_id, scope, index)) == used0.dom().contains(id_at(account_id, scope, index))
}

/// Whether the window of a scope has moved up, if there is one, and exactly the addresses that it left are newly in use.
pub open spec fn window_moved(
    gap0: Map<TransparentAddressId, String>,
    used0: Map<TransparentAddressId, String>,
    gap: Map<TransparentAddressId, String>,
    used: Map<TransparentAddressId, String>,
    account_id: u32,
    scope: TransparentScope,
    limit: int,
) -> bool {
    ||| stays_unwatched(gap0, used0, gap, used, account_id, scope)
    ||| exists|low0: int, low: int| #[trigger]
        window_moved_to(gap0, used0, gap, used, account_id, scope, limit, low0, low)
}

/// Whether the windows of all scopes have moved as [`window_moved`] says.
pub open spec fn windows_moved(
    gap0: Map<TransparentAddressId, String>,
    used0: Map<TransparentAddressId, String>,
    gap: Map<TransparentAddressId, String>,
    used: Map<TransparentAddressId, String>,
    limit: int,
) -> bool {
    forall|account_id: u32, scope: TransparentScope| #[trigger]
        window_moved(gap0, used0, gap, used, account_id, scope, limit)
}

/// A scope has one window.
proof fn lemma_one_window(
    gap: Map<TransparentAddressId, String>,
    account_id: u32,
    scope: TransparentScope,
    a: int,
    b: int,
    limit: int,
)
    requires
        holds_window(gap, account_id, scope, a, limit),
        holds_window(gap, account_id, scope, b, limit),
        0 < limit,
        0 <= a,
        0 <= b,
        a + limit <= CHILD_KEYS,
        b + limit <= CHILD_KEYS,
    ensures
        a == b,
{
    assert(gap.dom().contains(id_at(account_id, scope, a as u32)));
    assert(gap.dom().contains(id_at(account_id, scope, b as u32)));
}

/// A scope in which nothing is watched has no window.
proof fn lemma_no_window(
    gap: Map<TransparentAddressId, String>,
    account_id: u32,
    scope: TransparentScope,
    low: int,
    limit: int,
)
    requires
        holds_window(gap, account_id, scope, 0, 0),
        0 < limit,
        0 <= low,
        low + limit <= CHILD_KEYS,
    ensures
        !holds_window(gap, account_id, scope, low, limit),
{
    assert(!gap.dom().contains(id_at(account_id, scope, low as u32)));
}

/// Windows stay where nothing changes.
proof fn lemma_windows_stay(
    gap: Map<TransparentAddressId, String>,
    used: Map<TransparentAddressId, String>,
    limit: int,
)
    requires
        windowed(gap, limit),
    ensures
        windows_moved(gap, used, gap, used, limit),
{
    assert forall|a: u32, s: TransparentScope| #[trigger] window_moved(gap, used, gap, used, a, s, limit) by {
        assert(has_window(gap, a, s, limit));
        if holds_window(gap, a, s, 0, 0) {
            assert(stays_unwatched(gap, used, gap, used, a, s));
        } else {
            let low = choose|low: int| #[trigger]
                holds_window(gap, a, s, low, limit) && 0 <= low && low + limit <= CHILD_KEYS;
            assert(window_moved_to(gap, used, gap, used, a, s, limit, low, low));
        }
    }
}

/// Windows that move twice have moved.
proof fn lemma_windows_transitive(
    gap0: Map<TransparentAddressId, String>,
    used0: Map<TransparentAddressId, String>,
    gap1: Map<TransparentAddressId, String>,
    used1: Map<TransparentAddressId, String>,
    gap2: Map<TransparentAddressId, String>,
    used2: Map<TransparentAddressId, String>,
    limit: int,
)
    requires
        0 < limit,
        windows_moved(gap0, used0, gap1, used1, limit),
        windows_moved(gap1, used1, gap2, used2, limit),
    ensures
        windows_moved(gap0, used0, gap2, used2, limit),
{
    assert forall|a: u32, s: TransparentScope| #[trigger] window_moved(gap0, used0, gap2, used2, a, s, limit) by {
        assert(window_moved(gap0, used0, gap1, used1, a, s, limit));
        assert(window_moved(gap1, used1, gap2, used2, a, s, limit));
        if stays_unwatched(gap0, used0, gap1, used1, a, s) {
            if !stays_unwatched(gap1, used1, gap2, used2, a, s) {
                let (low1, low2) = choose|low1: int, low2: int| #[trigger]
                    window_moved_to(gap1, used1, gap2, used2, a, s, limit, low1, low2);
                lemma_no_window(gap1, a, s, low1, limit);
            }
            assert(stays_unwatched(gap0, used0, gap2, used2, a, s)) by {
                assert forall|index: u32| #[trigger] used2.dom().contains(id_at(a, s, index)) == used0.dom().contains(
                    id_at(a, s, index),
                ) by {
                    assert(used1.dom().contains(id_at(a, s, index)) == used0.dom().contains(id_at(a, s, index)));
                }
            }
        } else {
            let (low0, low1) = choose|low0: int, low1: int| #[trigger]
                window_moved_to(gap0, used0, gap1, used1, a, s, limit, low0, low1);
            if stays_unwatched(gap1, used1, gap2, used2, a, s) {
                lemma_no_window(gap1, a, s, low1, limit);
            }
            let (from, low2) = choose|from: int, low2: int| #[trigger]
                window_moved_to(gap1, used1, gap2, used2, a, s, limit, from, low2);
            lemma_one_window(gap1, a, s, low1, from, limit);
            assert(window_moved_to(gap0, used0, gap2, used2, a, s, limit, low0, low2)) by {
                assert forall|index: u32| #[trigger] used2.dom().contains(id_at(a, s, index)) == (used0.dom().contains(
                    id_at(a, s, index),
                ) || low0 <= index < low2) by {
                    assert(used1.dom().contains(id_at(a, s, index)) == (used0.dom().contains(id_at(a, s, index))
                        || low0 <= index < low1));
                }
            }
        }
    }
}

/// Moves `n` addresses of a scope from those watched to those in use, and watches as many new ones.
fn advance_window(
    gap: &mut Addresses,
    used: &mut Addresses,
    keys: &Vec<AccountKey>,
    at: usize,
    scope: TransparentScope,
    low: u32,
    n: u32,
    limit: u32,
    network: NetworkType,
) -> (r: Result<(), ScanError>)
    requires
        at < keys@.len(),
        old(gap).wf(),
        old(used).wf(),
        0 < n <= limit,
        low + limit <= CHILD_KEYS,
        holds_window(old(gap)@, keys@[at as int].account_id, scope, low as int, limit as int),
        used_below(old(gap)@, old(used)@),
    ensures
        final(gap).wf(),
        final(used).wf(),
        r matches Err(ScanError::AllAddressesInUse) ==> low + n + limit > CHILD_KEYS,
        r matches Err(error) ==> error is AllAddressesInUse || (error matches
            ScanError::TransparentAddressDerivationError(detail) && is_underivable(
            keys@,
            network,
            detail@,
            id_at(keys@[at as int].account_id, scope, (low + n - 1) as u32),
            limit as int,
        )),
        r.is_ok() ==> {
            &&& holds_window(final(gap)@, keys@[at as int].account_id, scope, low + n, limit as int)
            &&& low + n + limit <= CHILD_KEYS
            &&& used_below(final(gap)@, final(used)@)
            &&& gap_grown(keys@, network, old(gap)@, old(used)@, final(gap)@, final(used)@)
            &&& moved_from(old(gap)@, old(used)@, final(gap)@, final(used)@)
            &&& same_elsewhere(old(gap)@, final(gap)@, keys@[at as int].account_id, scope)
            &&& same_elsewhere(old(used)@, final(used)@, keys@[at as int].account_id, scope)
            &&& final(used)@.dom().contains(id_at(keys@[at as int].account_id, scope, low))
            &&& !old(used)@.dom().contains(id_at(keys@[at as int].account_id, scope, low))
            &&& final(used)@.dom().contains(id_at(keys@[at as int].account_id, scope, (low + n - 1) as u32))
            &&& forall|id: TransparentAddressId| #[trigger]
                final(used)@.dom().contains(id) && !old(used)@.dom().contains(id) ==> is_up_to(
                    id,
                    id_at(keys@[at as int].account_id, scope, (low + n - 1) as u32),
                    limit as int,
                )
            &&& window_moved_to(
                old(gap)@,
                old(used)@,
                final(gap)@,
                final(used)@,
                keys@[at as int].account_id,
                scope,
                limit as int,
                low as int,
                low + n,
            )
        },
{
    let account_id: u32 = keys[at].account_id;
    let ghost gap0 = gap@;
    let ghost used0 = used@;
    let mut k: u32 = 0;
    while k < n
        invariant
            k <= n <= limit,
            low + limit <= CHILD_KEYS,
            low + k + limit <= CHILD_KEYS || k == 0,
            at < keys@.len(),
            account_id == keys@[at as int].account_id,
            gap.wf(),
            used.wf(),
            holds_window(gap0, account_id, scope, low as int, limit as int),
            holds_window(gap@, account_id, scope, low + k, limit as int),
            used_below(gap@, used@),
            gap_grown(keys@, network, gap0, used0, gap@, used@),
            moved_from(gap0, used0, gap@, used@),
            same_elsewhere(gap0, gap@, account_id, scope),
            same_elsewhere(used0, used@, account_id, scope),
            forall|index: u32| low <= index < low + k ==> #[trigger] used@.dom().contains(
                id_at(account_id, scope, index),
            ),
            forall|id: TransparentAddressId| #[trigger]
                used@.dom().contains(id) && !used0.dom().contains(id) ==> id.account_id == account_id && id.scope
                    == scope && low <= id.address_index < low + k,
            forall|index: u32| #[trigger]
                used@.dom().contains(id_at(account_id, scope, index)) == (used0.dom().contains(
                    id_at(account_id, scope, index),
                ) || low <= index < low + k),
        decreases n - k,
    {
        let index: u32 = low + k + limit;
        if index >= CHILD_KEYS {
            return Err(ScanError::AllAddressesInUse);
        }
        let new_id = TransparentAddressId { account_id, scope, address_index: index };
        let address = match derive_address(network, &keys[at].key, &new_id) {
            Ok(address) => address,
            Err(detail) => {
                assert(derived_address(keys@[at as int].key@, scope, index, network) == Err::<Seq<char>, Seq<char>>(
                    detail@,
                ));
                assert(is_underivable(
                    keys@,
                    network,
                    detail@,
                    id_at(account_id, scope, (low + n - 1) as u32),
                    limit as int,
                ));
                return Err(ScanError::TransparentAddressDerivationError(detail));
            },
        };
        let used_id = TransparentAddressId { account_id, scope, address_index: low + k };
        let ghost gap1 = gap@;
        let ghost used1 = used@;
        let ghost text = address@;
        gap.insert(new_id, address);
        assert(gap1.dom().contains(id_at(account_id, scope, (low + k) as u32)));
        if let Some(entry) = gap.remove(&used_id) {
            used.insert(used_id, entry);
        }
        proof {
            assert(new_id == id_at(account_id, scope, index));
            assert(used_id == id_at(account_id, scope, (low + k) as u32));
            assert(is_derived(keys@, network, new_id, text)) by {
                assert(keys@[at as int].account_id == new_id.account_id);
            }
            assert(used@ == used1.insert(used_id, gap1[used_id]));
            lemma_window_moved(gap1, used1, gap@, used@, account_id, scope, low + k, limit as int);
            lemma_grown_step(keys@, network, gap0, used0, gap1, used1, gap@, used@, new_id, used_id);
            assert(gap0.dom().contains(used_id));
            assert(!gap0.dom().contains(new_id));
            assert(moved_from(gap0, used0, gap@, used@)) by {
                assert forall|id: TransparentAddressId| #[trigger] used@.dom().contains(id) implies (used0.dom().contains(
                    id,
                ) && used@[id] == used0[id]) || (gap0.dom().contains(id) && used@[id] == gap0[id]) by {
                    if id != used_id {
                        assert(used1.dom().contains(id));
                    }
                }
                assert forall|id: TransparentAddressId| #[trigger]
                    gap0.dom().contains(id) && gap@.dom().contains(id) implies gap@[id] == gap0[id] by {
                    assert(gap1.dom().contains(id));
                }
            }
        }
        k = k + 1;
    }
    proof {
        let first = id_at(account_id, scope, low);
        assert(gap0.dom().contains(first));
        assert(used@.dom().contains(first));
        if used0.dom().contains(first) {
            assert(first.address_index < first.address_index);
        }
    }
    Ok(())
}

proof fn lemma_window_moved(
    gap1: Map<TransparentAddressId, String>,
    used1: Map<TransparentAddressId, String>,
    gap2: Map<TransparentAddressId, String>,
    used2: Map<TransparentAddressId, String>,
    account_id: u32,
    scope: TransparentScope,
    low: int,
    limit: int,
)
    requires
        0 <= low,
        0 < limit,
        low + limit < CHILD_KEYS,
        holds_window(gap1, account_id, scope, low, limit),
        used_below(gap1, used1),
        gap2.dom() == gap1.dom().insert(id_at(account_id, scope, (low + limit) as u32)).remove(
            id_at(account_id, scope, low as u32),
        ),
        used2.dom() == used1.dom().insert(id_at(account_id, scope, low as u32)),
    ensures
        holds_window(gap2, account_id, scope, low + 1, limit),
        used_below(gap2, used2),
{
    assert forall|index: u32| #[trigger] gap2.dom().contains(id_at(account_id, scope, index)) == (low + 1 <= index
        < low + 1 + limit) by {
        assert(gap1.dom().contains(id_at(account_id, scope, index)) == (low <= index < low + limit));
    }
    assert(gap1.dom().contains(id_at(account_id, scope, low as u32)));
    assert forall|u: TransparentAddressId, g: TransparentAddressId| #[trigger]
        used2.dom().contains(u) && #[trigger] gap2.dom().contains(g) && u.account_id == g.account_id && u.scope
            == g.scope implies u.address_index < g.address_index by {
        if g.account_id == account_id && g.scope == scope {
            assert(g == id_at(account_id, scope, g.address_index));
            assert(gap2.dom().contains(id_at(account_id, scope, g.address_index)));
            if used1.dom().contains(u) {
                assert(u.address_index < id_at(account_id, scope, low as u32).address_index);
            }
        } else {
            assert(gap1.dom().contains(g));
            assert(used1.dom().contains(u));
        }
    }
}

proof fn lemma_grown_step(
    keys: Seq<AccountKey>,
    network: NetworkType,
    gap0: Map<TransparentAddressId, String>,
    used0: Map<TransparentAddressId, String>,
    gap1: Map<TransparentAddressId, String>,
    used1: Map<TransparentAddressId, String>,
    gap2: Map<TransparentAddressId, String>,
    used2: Map<TransparentAddressId, String>,
    new_id: TransparentAddressId,
    used_id: TransparentAddressId,
)
    requires
        gap_grown(keys, network, gap0, used0, gap1, used1),
        used_below(gap1, used1),
        gap1.dom().contains(used_id),
        !gap1.dom().contains(new_id),
        gap2.dom().contains(new_id),
        is_derived(keys, network, new_id, gap2[new_id]@),
        gap2 == gap1.insert(new_id, gap2[new_id]).remove(used_id),
        used2 == used1.insert(used_id, gap1[used_id]),
        new_id != used_id,
    ensures
        gap_grown(keys, network, gap0, used0, gap2, used2),
{
    assert(!used1.dom().contains(used_id)) by {
        if used1.dom().contains(used_id) {
            assert(used_id.address_index < used_id.address_index);
        }
    }
    assert forall|id: TransparentAddressId| #[trigger] used0.dom().contains(id) implies used2.dom().contains(id)
        && used2[id] == used0[id] by {
        assert(used1.dom().contains(id));
    }
    assert forall|id: TransparentAddressId| #[trigger] gap0.dom().contains(id) implies (gap2.dom().contains(id)
        && gap2[id] == gap0[id]) || (used2.dom().contains(id) && used2[id] == gap0[id]) by {
        if gap1.dom().contains(id) && gap1[id] == gap0[id] {
        } else {
            assert(used1.dom().contains(id));
        }
    }
    assert forall|id: TransparentAddressId| #[trigger] used2.dom().contains(id) implies (used0.dom().contains(id)
        && used2[id] == used0[id]) || (gap0.dom().contains(id) && used2[id] == gap0[id]) || is_derived(
        keys,
        network,
        id,
        used2[id]@,
    ) by {
        if id == used_id {
            assert(gap1.dom().contains(id));
        } else {
            assert(used1.dom().contains(id));
        }
    }
    assert forall|id: TransparentAddressId| #[trigger] gap2.dom().contains(id) implies (gap0.dom().contains(id)
        && gap2[id] == gap0[id]) || is_derived(keys, network, id, gap2[id]@) by {
        if id != new_id {
            assert(gap1.dom().contains(id));
        }
    }
}

/// Whether an address of the scope is among the keys.
pub open spec fn any_in_scope(ids: Map<TransparentAddressId, ()>, account_id: u32, scope: TransparentScope) -> bool {
    exists|index: u32| #[trigger] ids.dom().contains(id_at(account_id, scope, index))
}

/// The lowest index of the scope among the addresses.
fn lowest_index(addresses: &Addresses, account_id: u32, scope: TransparentScope) -> (r: Option<u32>)
    requires
        addresses.wf(),
    ensures
        match r {
            None => forall|index: u32| !#[trigger] addresses@.dom().contains(id_at(account_id, scope, index)),
            Some(low) => addresses@.dom().contains(id_at(account_id, scope, low)) && forall|index: u32| #[trigger]
                addresses@.dom().contains(id_at(account_id, scope, index)) ==> low <= index,
        },
{
    let ghost listed = addresses.listed();
    proof {
        addresses.lemma_listed();
    }
    let mut low: Option<u32> = None;
    let count: usize = addresses.len();
    let mut i: usize = 0;
    while i < count
        invariant
            i <= count == listed.len(),
            listed == addresses.listed(),
            match low {
                None => forall|k: int|
                    0 <= k < i ==> !((#[trigger] listed[k]).0.account_id == account_id && listed[k].0.scope == scope),
                Some(least) => (exists|k: int|
                    0 <= k < i && (#[trigger] listed[k]).0 == id_at(account_id, scope, least)) && forall|k: int|
                    0 <= k < i && (#[trigger] listed[k]).0.account_id == account_id && listed[k].0.scope == scope
                        ==> least <= listed[k].0.address_index,
            },
        decreases count - i,
    {
        let id = addresses.entry(i).0;
        if id.account_id == account_id && id.scope == scope {
            assert(listed[i as int].0 == id_at(account_id, scope, id.address_index));
            match low {
                Some(least) => {
                    if id.address_index < least {
                        low = Some(id.address_index);
                    }
                },
                None => {
                    low = Some(id.address_index);
                },
            }
        }
        i = i + 1;
    }
    proof {
        assert forall|index: u32| #[trigger] addresses@.dom().contains(id_at(account_id, scope, index)) implies low
            matches Some(least) && least <= index by {
            assert(has_key(listed, id_at(account_id, scope, index)));
            let k = choose|k: int|
                0 <= k < listed.len() && (#[trigger] listed[k]).0 == id_at(account_id, scope, index);
        }
        if let Some(least) = low {
            let k = choose|k: int| 0 <= k < count && (#[trigger] listed[k]).0 == id_at(account_id, scope, least);
            assert(addresses@.dom().contains(listed[k].0));
        }
    }
    low
}

/// The highest index of the scope among the keys.
fn highest_index(ids: &SortedMap<TransparentAddressId, ()>, account_id: u32, scope: TransparentScope) -> (r: Option<u32>)
    requires
        ids.wf(),
    ensures
        r.is_some() == any_in_scope(ids@, account_id, scope),
        r matches Some(high) ==> ids@.dom().contains(id_at(account_id, scope, high)) && forall|index: u32| #[trigger]
            ids@.dom().contains(id_at(account_id, scope, index)) ==> index <= high,
{
    let ghost listed = ids.listed();
    proof {
        ids.lemma_listed();
    }
    let mut high: Option<u32> = None;
    let count: usize = ids.len();
    let mut i: usize = 0;
    while i < count
        invariant
            i <= count == listed.len(),
            listed == ids.listed(),
            match high {
                None => forall|k: int|
                    0 <= k < i ==> !((#[trigger] listed[k]).0.account_id == account_id && listed[k].0.scope == scope),
                Some(most) => (exists|k: int|
                    0 <= k < i && (#[trigger] listed[k]).0 == id_at(account_id, scope, most)) && forall|k: int|
                    0 <= k < i && (#[trigger] listed[k]).0.account_id == account_id && listed[k].0.scope == scope
                        ==> listed[k].0.address_index <= most,
            },
        decreases count - i,
    {
        let id = ids.entry(i).0;
        if id.account_id == account_id && id.scope == scope {
            assert(listed[i as int].0 == id_at(account_id, scope, id.address_index));
            match high {
                Some(most) => {
                    if id.address_index > most {
                        high = Some(id.address_index);
                    }
                },
                None => {
                    high = Some(id.address_index);
                },
            }
        }
        i = i + 1;
    }
    proof {
        assert forall|index: u32| #[trigger] ids@.dom().contains(id_at(account_id, scope, index)) implies high
            matches Some(most) && index <= most by {
            assert(has_key(listed, id_at(account_id, scope, index)));
            let k = choose|k: int|
                0 <= k < listed.len() && (#[trigger] listed[k]).0 == id_at(account_id, scope, index);
        }
        if let Some(most) = high {
            let k = choose|k: int| 0 <= k < count && (#[trigger] listed[k]).0 == id_at(account_id, scope, most);
            assert(ids@.dom().contains(listed[k].0));
        }
    }
    high
}

/// Whether some address is in use that was not.
pub open spec fn newly_used(used0: Map<TransparentAddressId, String>, used: Map<TransparentAddressId, String>) -> bool {
    exists|id: TransparentAddressId| #[trigger] used.dom().contains(id) && !used0.dom().contains(id)
}

/// Moves the window of one scope past the highest paid address, if one is paid.
fn advance_scope(
    gap: &mut Addresses,
    used: &mut Addresses,
    keys: &Vec<AccountKey>,
    at: usize,
    scope: TransparentScope,
    paid: &SortedMap<TransparentAddressId, ()>,
    limit: u32,
    network: NetworkType,
) -> (r: Result<bool, ScanError>)
    requires
        at < keys@.len(),
        limit > 0,
        old(gap).wf(),
        old(used).wf(),
        paid.wf(),
        windowed(old(gap)@, limit as int),
        used_below(old(gap)@, old(used)@),
        forall|index: u32| #[trigger]
            paid@.dom().contains(id_at(keys@[at as int].account_id, scope, index)) ==> old(gap)@.dom().contains(
                id_at(keys@[at as int].account_id, scope, index),
            ),
    ensures
        final(gap).wf(),
        final(used).wf(),
        r matches Err(error) ==> is_window_error(error, keys@, network, paid@, limit as int),
        r matches Ok(moved) ==> {
            &&& moved == any_in_scope(paid@, keys@[at as int].account_id, scope)
            &&& windowed(final(gap)@, limit as int)
            &&& used_below(final(gap)@, final(used)@)
            &&& gap_grown(keys@, network, old(gap)@, old(used)@, final(gap)@, final(used)@)
            &&& moved_from(old(gap)@, old(used)@, final(gap)@, final(used)@)
            &&& same_elsewhere(old(gap)@, final(gap)@, keys@[at as int].account_id, scope)
            &&& same_elsewhere(old(used)@, final(used)@, keys@[at as int].account_id, scope)
            &&& moved ==> newly_used(old(used)@, final(used)@)
            &&& used_up_to(paid@, old(used)@, final(used)@, limit as int)
            &&& windows_moved(old(gap)@, old(used)@, final(gap)@, final(used)@, limit as int)
        },
{
    let account_id: u32 = keys[at].account_id;
    let ghost used0 = used@;
    proof {
        lemma_windows_stay(gap@, used@, limit as int);
    }
    let high: u32 = match highest_index(paid, account_id, scope) {
        Some(high) => high,
        None => {
            return Ok(false);
        },
    };
    let ghost gap0 = gap@;
    assert(paid@.dom().contains(id_at(account_id, scope, high)));
    assert(gap0.dom().contains(id_at(account_id, scope, high)));
    let low: u32 = match lowest_index(gap, account_id, scope) {
        Some(low) => low,
        None => {
            return Ok(false);
        },
    };
    proof {
        assert(has_window(gap0, account_id, scope, limit as int));
        let start = choose|start: int| #[trigger]
            holds_window(gap0, account_id, scope, start, limit as int) && 0 <= start && start + limit <= CHILD_KEYS;
        assert(holds_window(gap0, account_id, scope, start, limit as int));
        assert(gap0.dom().contains(id_at(account_id, scope, start as u32)));
        assert(gap0.dom().contains(id_at(account_id, scope, low)));
        assert(start == low);
    }
    let n: u32 = high - low + 1;
    if let Err(error) = advance_window(gap, used, keys, at, scope, low, n, limit, network) {
        assert(error is AllAddressesInUse ==> is_near_end(id_at(account_id, scope, high), limit as int));
        assert(id_at(account_id, scope, (low + n - 1) as u32) == id_at(account_id, scope, high));
        return Err(error);
    }
    assert(id_at(account_id, scope, (low + n - 1) as u32) == id_at(account_id, scope, high));
    proof {
        assert forall|a: u32, s: TransparentScope|
            #![trigger has_window(gap@, a, s, limit as int)]
            has_window(gap@, a, s, limit as int) by {
            if a == account_id && s == scope {
                assert(holds_window(gap@, account_id, scope, low + n, limit as int));
            } else {
                lemma_same_window(gap0, gap@, account_id, scope, a, s, limit as int);
            }
        }
        assert forall|a: u32, s: TransparentScope| #[trigger]
            window_moved(gap0, used0, gap@, used@, a, s, limit as int) by {
            if !(a == account_id && s == scope) {
                lemma_window_elsewhere(gap0, used0, gap@, used@, account_id, scope, a, s, limit as int);
            }
        }
    }
    Ok(true)
}

proof fn lemma_window_elsewhere(
    gap0: Map<TransparentAddressId, String>,
    used0: Map<TransparentAddressId, String>,
    gap: Map<TransparentAddressId, String>,
    used: Map<TransparentAddressId, String>,
    account_id: u32,
    scope: TransparentScope,
    a: u32,
    s: TransparentScope,
    limit: int,
)
    requires
        same_elsewhere(gap0, gap, account_id, scope),
        same_elsewhere(used0, used, account_id, scope),
        !(a == account_id && s == scope),
        windowed(gap0, limit),
    ensures
        window_moved(gap0, used0, gap, used, a, s, limit),
{
    assert(has_window(gap0, a, s, limit));
    assert forall|low: int, n: int| holds_window(gap0, a, s, low, n) implies #[trigger] holds_window(
        gap,
        a,
        s,
        low,
        n,
    ) by {
        assert forall|index: u32| #[trigger] gap.dom().contains(id_at(a, s, index)) == (low <= index < low + n) by {
            assert(gap0.dom().contains(id_at(a, s, index)) == (low <= index < low + n));
        }
    }
    if holds_window(gap0, a, s, 0, 0) {
        assert(holds_window(gap, a, s, 0, 0));
        assert(stays_unwatched(gap0, used0, gap, used, a, s));
    } else {
        let low = choose|low: int| #[trigger]
            holds_window(gap0, a, s, low, limit) && 0 <= low && low + limit <= CHILD_KEYS;
        assert(holds_window(gap, a, s, low, limit));
        assert(window_moved_to(gap0, used0, gap, used, a, s, limit, low, low));
    }
}

proof fn lemma_same_window(
    gap0: Map<TransparentAddressId, String>,
    gap: Map<TransparentAddressId, String>,
    account_id: u32,
    scope: TransparentScope,
    a: u32,
    s: TransparentScope,
    limit: int,
)
    requires
        same_elsewhere(gap0, gap, account_id, scope),
        !(a == account_id && s == scope),
        windowed(gap0, limit),
    ensures
        has_window(gap, a, s, limit),
{
    assert(has_window(gap0, a, s, limit));
    assert forall|low: int, n: int| holds_window(gap0, a, s, low, n) implies #[trigger] holds_window(
        gap,
        a,
        s,
        low,
        n,
    ) by {
        assert forall|index: u32| #[trigger] gap.dom().contains(id_at(a, s, index)) == (low <= index < low + n) by {
            assert(gap0.dom().contains(id_at(a, s, index)) == (low <= index < low + n));
        }
    }
    if holds_window(gap0, a, s, 0, 0) {
        assert(holds_window(gap, a, s, 0, 0));
    } else {
        let low = choose|low: int| #[trigger]
            holds_window(gap0, a, s, low, limit) && 0 <= low && low + limit <= CHILD_KEYS;
        assert(holds_window(gap, a, s, low, limit));
    }
}

proof fn lemma_grown_transitive(
    keys: Seq<AccountKey>,
    network: NetworkType,
    gap0: Map<TransparentAddressId, String>,
    used0: Map<TransparentAddressId, String>,
    gap1: Map<TransparentAddressId, String>,
    used1: Map<TransparentAddressId, String>,
    gap2: Map<TransparentAddressId, String>,
    used2: Map<TransparentAddressId, String>,
)
    requires
        gap_grown(keys, network, gap0, used0, gap1, used1),
        gap_grown(keys, network, gap1, used1, gap2, used2),
    ensures
        gap_grown(keys, network, gap0, used0, gap2, used2),
{
    assert forall|id: TransparentAddressId| #[trigger] used0.dom().contains(id) implies used2.dom().contains(id)
        && used2[id] == used0[id] by {
        assert(used1.dom().contains(id));
    }
    assert forall|id: TransparentAddressId| #[trigger] gap0.dom().contains(id) implies (gap2.dom().contains(id)
        && gap2[id] == gap0[id]) || (used2.dom().contains(id) && used2[id] == gap0[id]) by {
        if gap1.dom().contains(id) && gap1[id] == gap0[id] {
        } else {
            assert(used1.dom().contains(id));
        }
    }
    assert forall|id: TransparentAddressId| #[trigger] used2.dom().contains(id) implies (used0.dom().contains(id)
        && used2[id] == used0[id]) || (gap0.dom().contains(id) && used2[id] == gap0[id]) || is_derived(
        keys,
        network,
        id,
        used2[id]@,
    ) by {
        if used1.dom().contains(id) && used2[id] == used1[id] {
        } else if gap1.dom().contains(id) && used2[id] == gap1[id] {
        }
    }
    assert forall|id: TransparentAddressId| #[trigger] gap2.dom().contains(id) implies (gap0.dom().contains(id)
        && gap2[id] == gap0[id]) || is_derived(keys, network, id, gap2[id]@) by {
        if gap1.dom().contains(id) && gap2[id] == gap1[id] {
        }
    }
}

proof fn lemma_up_to_transitive(
    paid: Map<TransparentAddressId, ()>,
    used0: Map<TransparentAddressId, String>,
    used1: Map<TransparentAddressId, String>,
    used2: Map<TransparentAddressId, String>,
    limit: int,
)
    requires
        used_up_to(paid, used0, used1, limit),
        used_up_to(paid, used1, used2, limit),
        forall|id: TransparentAddressId| #[trigger] used1.dom().contains(id) ==> used2.dom().contains(id),
    ensures
        used_up_to(paid, used0, used2, limit),
{
    assert forall|id: TransparentAddressId| #[trigger]
        used2.dom().contains(id) && !used0.dom().contains(id) implies exists|p: TransparentAddressId| #[trigger]
        paid.dom().contains(p) && used2.dom().contains(p) && is_up_to(id, p, limit) by {
        if used1.dom().contains(id) {
            let p = choose|p: TransparentAddressId| #[trigger]
                paid.dom().contains(p) && used1.dom().contains(p) && is_up_to(id, p, limit);
            assert(used2.dom().contains(p));
        }
    }
}

/// What is in use after paid addresses were moved there lies at or below paid addresses.
proof fn lemma_reached_grows(
    keys: Seq<AccountKey>,
    network: NetworkType,
    views: Seq<RecipientView>,
    paid: Map<TransparentAddressId, ()>,
    gap1: Map<TransparentAddressId, String>,
    used1: Map<TransparentAddressId, String>,
    gap2: Map<TransparentAddressId, String>,
    used2: Map<TransparentAddressId, String>,
    limit: int,
)
    requires
        gap_grown(keys, network, gap1, used1, gap2, used2),
        used_below(gap2, used2),
        used_reached(views, used1, limit),
        used_up_to(paid, used1, used2, limit),
        forall|id: TransparentAddressId| #[trigger] paid.dom().contains(id) ==> is_paid(views, gap1, id),
    ensures
        used_reached(views, used2, limit),
{
    assert forall|id: TransparentAddressId| used2.dom().contains(id) implies #[trigger] is_reached(
        views,
        used2,
        id,
        limit,
    ) by {
        if used1.dom().contains(id) {
            assert(is_reached(views, used1, id, limit));
            let p = choose|p: TransparentAddressId| #[trigger] is_paid(views, used1, p) && is_up_to(id, p, limit);
            assert(used2.dom().contains(p) && used2[p] == used1[p]);
            assert(is_paid(views, used2, p));
        } else {
            let p = choose|p: TransparentAddressId| #[trigger]
                paid.dom().contains(p) && used2.dom().contains(p) && is_up_to(id, p, limit);
            assert(is_paid(views, gap1, p));
            assert(gap1.dom().contains(p));
            if gap2.dom().contains(p) {
                assert(p.address_index < p.address_index);
            }
            assert(used2[p] == gap1[p]);
            assert(is_paid(views, used2, p));
        }
    }
}

/// What stops a window stops the filling of the gap.
proof fn lemma_gap_error(
    error: ScanError,
    keys: Seq<AccountKey>,
    network: NetworkType,
    views: Seq<RecipientView>,
    paid: Map<TransparentAddressId, ()>,
    gap0: Map<TransparentAddressId, String>,
    gap1: Map<TransparentAddressId, String>,
    used1: Map<TransparentAddressId, String>,
    limit: int,
)
    requires
        is_window_error(error, keys, network, paid, limit),
        gap_reached(views, keys, network, limit, gap0, gap1, used1),
        forall|id: TransparentAddressId| #[trigger] paid.dom().contains(id) ==> is_paid(views, gap1, id),
    ensures
        is_gap_error(error, views, keys, network, gap0, limit),
{
    match error {
        ScanError::AllAddressesInUse => {
            let id = choose|id: TransparentAddressId| #[trigger] paid.dom().contains(id) && is_near_end(id, limit);
            assert(is_gap_error_at(error, views, keys, network, limit, gap0, gap1, used1, id));
        },
        ScanError::TransparentAddressDerivationError(detail) => {
            let id = choose|id: TransparentAddressId| #[trigger]
                paid.dom().contains(id) && is_underivable(keys, network, detail@, id, limit);
            assert(is_gap_error_at(error, views, keys, network, limit, gap0, gap1, used1, id));
        },
        _ => {},
    }
}

/// Whether the scope of the address comes before place `j` of the key at place `i`.
pub open spec fn is_behind(keys: Seq<AccountKey>, i: int, j: int, id: TransparentAddressId) -> bool {
    ||| exists|m: int| 0 <= m < i && (#[trigger] keys[m]).account_id == id.account_id
    ||| i < keys.len() && keys[i].account_id == id.account_id && id.scope.number() < j
}

/// Whether each account has one key.
pub open spec fn keys_unique(keys: Seq<AccountKey>) -> bool {
    forall|i: int, j: int| 0 <= i < j < keys.len() ==> keys[i].account_id != keys[j].account_id
}

/// Whether there is a key for every address.
pub open spec fn keys_cover(keys: Seq<AccountKey>, addresses: Map<TransparentAddressId, String>) -> bool {
    forall|id: TransparentAddressId| #[trigger]
        addresses.dom().contains(id) ==> exists|i: int|
            0 <= i < keys.len() && (#[trigger] keys[i]).account_id == id.account_id
}

/// Moves the window of every scope in which an address is paid. Returns whether one was moved.
fn advance_all(
    gap: &mut Addresses,
    used: &mut Addresses,
    keys: &Vec<AccountKey>,
    paid: &SortedMap<TransparentAddressId, ()>,
    limit: u32,
    network: NetworkType,
) -> (r: Result<bool, ScanError>)
    requires
        limit > 0,
        old(gap).wf(),
        old(used).wf(),
        paid.wf(),
        keys_unique(keys@),
        keys_cover(keys@, old(gap)@),
        windowed(old(gap)@, limit as int),
        used_below(old(gap)@, old(used)@),
        forall|id: TransparentAddressId| #[trigger] paid@.dom().contains(id) ==> old(gap)@.dom().contains(id),
    ensures
        final(gap).wf(),
        final(used).wf(),
        r matches Err(error) ==> is_window_error(error, keys@, network, paid@, limit as int),
        r matches Ok(moved) ==> {
            &&& windowed(final(gap)@, limit as int)
            &&& used_below(final(gap)@, final(used)@)
            &&& gap_grown(keys@, network, old(gap)@, old(used)@, final(gap)@, final(used)@)
            &&& moved_from(old(gap)@, old(used)@, final(gap)@, final(used)@)
            &&& moved ==> newly_used(old(used)@, final(used)@)
            &&& (exists|id: TransparentAddressId| paid@.dom().contains(id)) ==> moved
            &&& used_up_to(paid@, old(used)@, final(used)@, limit as int)
            &&& windows_moved(old(gap)@, old(used)@, final(gap)@, final(used)@, limit as int)
        },
{
    let ghost gap0 = gap@;
    let ghost used0 = used@;
    proof {
        lemma_windows_stay(gap0, used0, limit as int);
    }
    let mut moved = false;
    let count: usize = keys.len();
    let mut i: usize = 0;
    while i < count
        invariant
            i <= count == keys@.len(),
            limit > 0,
            gap.wf(),
            used.wf(),
            paid.wf(),
            keys_unique(keys@),
            windowed(gap@, limit as int),
            used_below(gap@, used@),
            gap_grown(keys@, network, gap0, used0, gap@, used@),
            moved_from(gap0, used0, gap@, used@),
            forall|id: TransparentAddressId| #[trigger] paid@.dom().contains(id) ==> gap0.dom().contains(id),
            forall|id: TransparentAddressId| #[trigger]
                gap0.dom().contains(id) && !is_behind(keys@, i as int, 0, id) ==> gap@.dom().contains(id),
            forall|id: TransparentAddressId| #[trigger]
                gap@.dom().contains(id) && !is_behind(keys@, i as int, 0, id) ==> gap0.dom().contains(id),
            forall|id: TransparentAddressId| #[trigger]
                paid@.dom().contains(id) && is_behind(keys@, i as int, 0, id) ==> moved,
            moved ==> newly_used(used0, used@),
            used_up_to(paid@, used0, used@, limit as int),
            windows_moved(gap0, used0, gap@, used@, limit as int),
        decreases count - i,
    {
        let mut j: u8 = 0;
        while j < 3
            invariant
                i < count == keys@.len(),
                j <= 3,
                limit > 0,
                gap.wf(),
                used.wf(),
                paid.wf(),
                keys_unique(keys@),
                windowed(gap@, limit as int),
                used_below(gap@, used@),
                gap_grown(keys@, network, gap0, used0, gap@, used@),
                moved_from(gap0, used0, gap@, used@),
                forall|id: TransparentAddressId| #[trigger] paid@.dom().contains(id) ==> gap0.dom().contains(id),
                forall|id: TransparentAddressId| #[trigger]
                    gap0.dom().contains(id) && !is_behind(keys@, i as int, j as int, id) ==> gap@.dom().contains(id),
                forall|id: TransparentAddressId| #[trigger]
                    gap@.dom().contains(id) && !is_behind(keys@, i as int, j as int, id) ==> gap0.dom().contains(id),
                forall|id: TransparentAddressId| #[trigger]
                    paid@.dom().contains(id) && is_behind(keys@, i as int, j as int, id) ==> moved,
                moved ==> newly_used(used0, used@),
                used_up_to(paid@, used0, used@, limit as int),
            windows_moved(gap0, used0, gap@, used@, limit as int),
            decreases 3 - j,
        {
            let scope = if j == 0 {
                TransparentScope::External
            } else if j == 1 {
                TransparentScope::Internal
            } else {
                TransparentScope::Refund
            };
            let ghost account_id = keys@[i as int].account_id;
            let ghost gap1 = gap@;
            let ghost used1 = used@;
            proof {
                assert forall|index: u32| #[trigger] paid@.dom().contains(id_at(account_id, scope, index)) implies
                    gap1.dom().contains(id_at(account_id, scope, index)) by {
                    let id = id_at(account_id, scope, index);
                    assert(gap0.dom().contains(id));
                    assert(!is_behind(keys@, i as int, j as int, id));
                }
            }
            match advance_scope(gap, used, keys, i, scope, paid, limit, network) {
                Err(error) => {
                    return Err(error);
                },
                Ok(advanced) => {
                    proof {
                        lemma_grown_transitive(keys@, network, gap0, used0, gap1, used1, gap@, used@);
                        lemma_up_to_transitive(paid@, used0, used1, used@, limit as int);
                        lemma_windows_transitive(gap0, used0, gap1, used1, gap@, used@, limit as int);
                        if moved {
                            let id = choose|id: TransparentAddressId| #[trigger]
                                used1.dom().contains(id) && !used0.dom().contains(id);
                            assert(used@.dom().contains(id));
                        }
                        if advanced {
                            let id = choose|id: TransparentAddressId| #[trigger]
                                used@.dom().contains(id) && !used1.dom().contains(id);
                            if used0.dom().contains(id) {
                                assert(used1.dom().contains(id));
                            }
                        }
                        assert forall|id: TransparentAddressId| #[trigger]
                            gap0.dom().contains(id) && !is_behind(keys@, i as int, j + 1, id) implies gap@.dom().contains(
                            id,
                        ) by {
                            assert(!is_behind(keys@, i as int, j as int, id));
                            assert(gap1.dom().contains(id));
                            if id.account_id == account_id && id.scope == scope {
                                assert(is_behind(keys@, i as int, j + 1, id));
                            }
                        }
                        assert forall|id: TransparentAddressId| #[trigger]
                            gap@.dom().contains(id) && !is_behind(keys@, i as int, j + 1, id) implies gap0.dom().contains(
                            id,
                        ) by {
                            assert(!is_behind(keys@, i as int, j as int, id));
                            if id.account_id == account_id && id.scope == scope {
                                assert(is_behind(keys@, i as int, j + 1, id));
                            }
                            assert(gap1.dom().contains(id));
                        }
                        assert(moved_from(gap0, used0, gap@, used@)) by {
                            assert forall|id: TransparentAddressId| #[trigger] used@.dom().contains(id) implies (
                            used0.dom().contains(id) && used@[id] == used0[id]) || (gap0.dom().contains(id)
                                && used@[id] == gap0[id]) by {
                                if used1.dom().contains(id) && used@[id] == used1[id] {
                                } else {
                                    assert(gap1.dom().contains(id));
                                    if !(id.account_id == account_id && id.scope == scope) {
                                        assert(used1.dom().contains(id));
                                    }
                                    assert(!is_behind(keys@, i as int, j as int, id));
                                    assert(gap0.dom().contains(id));
                                }
                            }
                            assert forall|id: TransparentAddressId| #[trigger]
                                gap0.dom().contains(id) && gap@.dom().contains(id) implies gap@[id] == gap0[id] by {
                                if gap1.dom().contains(id) {
                                } else if !(id.account_id == account_id && id.scope == scope) {
                                    assert(gap1.dom().contains(id));
                                } else {
                                    assert(!is_behind(keys@, i as int, j as int, id));
                                    assert(gap1.dom().contains(id));
                                }
                            }
                        }
                        assert forall|id: TransparentAddressId| #[trigger]
                            paid@.dom().contains(id) && is_behind(keys@, i as int, j + 1, id) implies moved
                            || advanced by {
                            if !is_behind(keys@, i as int, j as int, id) {
                                assert(id.account_id == account_id && id.scope == scope);
                                assert(id == id_at(account_id, scope, id.address_index));
                                assert(paid@.dom().contains(id_at(account_id, scope, id.address_index)));
                            }
                        }
                    }
                    if advanced {
                        moved = true;
                    }
                },
            }
            j = j + 1;
        }
        proof {
            assert forall|id: TransparentAddressId|
                is_behind(keys@, i + 1, 0, id) == is_behind(keys@, i as int, 3, id) by {
                lemma_behind_next(keys@, i as int, id);
            }
        }
        i = i + 1;
    }
    proof {
        if exists|id: TransparentAddressId| paid@.dom().contains(id) {
            let id = choose|id: TransparentAddressId| paid@.dom().contains(id);
            assert(gap0.dom().contains(id));
            let m = choose|m: int| 0 <= m < keys@.len() && (#[trigger] keys@[m]).account_id == id.account_id;
            assert(is_behind(keys@, count as int, 0, id));
        }
    }
    Ok(moved)
}

/// One more than the highest place of an address among all there are.
pub open spec fn address_places() -> nat {
    0x3_0000_0000_0000_0000nat
}

proof fn lemma_more_used(before: &Addresses, used0: Map<TransparentAddressId, String>, after: &Addresses)
    requires
        before.wf(),
        after.wf(),
        before@ == used0,
        newly_used(used0, after@),
        forall|id: TransparentAddressId| #[trigger] used0.dom().contains(id) ==> after@.dom().contains(id),
    ensures
        before.listed().len() < after.listed().len() <= address_places(),
{
    before.lemma_length();
    after.lemma_length();
    let id = choose|id: TransparentAddressId| #[trigger] after@.dom().contains(id) && !used0.dom().contains(id);
    assert(used0.dom().insert(id).subset_of(after@.dom()));
    vstd::set_lib::lemma_len_subset(used0.dom().insert(id), after@.dom());
    assert forall|k: TransparentAddressId| #[trigger] after@.dom().contains(k) implies k.rank()
        < address_places() by {
        assert(k.account_id as nat * 3 + k.scope.number() as nat <= 0xffff_ffffnat * 3 + 2);
    }
    after.lemma_length_bound(address_places());
}

/// Whether the search for paid addresses can have got to where `gap` is watched and `used` is in use: in each scope that
/// was watched the window has moved up, the addresses that it left are in use, and it moved no further than behind
/// addresses of the windows that are paid.
pub open spec fn gap_reached(
    recipients: Seq<RecipientView>,
    keys: Seq<AccountKey>,
    network: NetworkType,
    limit: int,
    gap0: Map<TransparentAddressId, String>,
    gap: Map<TransparentAddressId, String>,
    used: Map<TransparentAddressId, String>,
) -> bool {
    &&& used_reached(recipients, used, limit)
    &&& windowed(gap, limit)
    &&& used_below(gap, used)
    &&& gap_grown(keys, network, gap0, Map::<TransparentAddressId, String>::empty(), gap, used)
    &&& windows_moved(gap0, Map::<TransparentAddressId, String>::empty(), gap, used, limit)
}

/// Whether no address that is watched is paid any more: every address up to the highest paid one of its scope is in
/// use, and as many as the limit says are watched behind it.
pub open spec fn gap_satisfied(
    recipients: Seq<RecipientView>,
    keys: Seq<AccountKey>,
    network: NetworkType,
    limit: int,
    gap0: Map<TransparentAddressId, String>,
    gap: Map<TransparentAddressId, String>,
    used: Map<TransparentAddressId, String>,
) -> bool {
    &&& gap_reached(recipients, keys, network, limit, gap0, gap, used)
    &&& forall|id: TransparentAddressId| !#[trigger] is_paid(recipients, gap, id)
}

/// Whether exactly the payments to addresses in use were added to the targets.
pub open spec fn payments_added(
    recipients: Seq<RecipientView>,
    in_use: Map<TransparentAddressId, String>,
    used: Map<TransparentAddressId, String>,
    targets0: Map<ScanTarget, ()>,
    targets: Map<ScanTarget, ()>,
) -> bool {
    forall|t: ScanTarget| #[trigger]
        targets.dom().contains(t) == (targets0.dom().contains(t) || is_paying(recipients, in_use, t) || is_paying(
            recipients,
            used,
            t,
        ))
}

/// Goes through the transparent outputs of blocks until no gap address is paid.
///
/// Where a gap address is paid, it and those below it in its scope are in use, and as many new ones are derived; the
/// outputs are then gone through again for the new ones. Adds the transactions that pay to an address in use, and
/// returns the addresses that turned out to be in use.
#[verifier::rlimit(60)]
pub fn satisfy_gap_limit(
    recipients: &Vec<Recipient>,
    in_use: &Addresses,
    gap: &mut Addresses,
    keys: &Vec<AccountKey>,
    gap_limit: u32,
    network: NetworkType,
    targets: &mut ScanTargets,
) -> (r: Result<Addresses, ScanError>)
    requires
        in_use.wf(),
        old(gap).wf(),
        old(targets).wf(),
        keys_unique(keys@),
        keys_cover(keys@, old(gap)@),
        windowed(old(gap)@, gap_limit as int),
    ensures
        final(gap).wf(),
        final(targets).wf(),
        r matches Err(error) ==> is_gap_error(
            error,
            recipient_views(recipients@),
            keys@,
            network,
            old(gap)@,
            gap_limit as int,
        ),
        r matches Ok(used) ==> used.wf() && gap_satisfied(
            recipient_views(recipients@),
            keys@,
            network,
            gap_limit as int,
            old(gap)@,
            final(gap)@,
            used@,
        ) && payments_added(recipient_views(recipients@), in_use@, used@, old(targets)@, final(targets)@),
{
    let ghost views = recipient_views(recipients@);
    let ghost gap0 = gap@;
    let ghost none = Map::<TransparentAddressId, String>::empty();
    let ghost targets0 = targets@;
    let mut used: Addresses = SortedMap::new();
    proof {
        lemma_grown_from_nothing(keys@, network, gap0);
        lemma_windows_stay(gap0, none, gap_limit as int);
        assert(gap_reached(views, keys@, network, gap_limit as int, gap0, gap@, used@));
    }
    loop
        invariant
            in_use.wf(),
            gap.wf(),
            used.wf(),
            targets.wf(),
            views == recipient_views(recipients@),
            gap0 == old(gap)@,
            targets0 == old(targets)@,
            none == Map::<TransparentAddressId, String>::empty(),
            keys_unique(keys@),
            keys_cover(keys@, gap0),
            gap_reached(views, keys@, network, gap_limit as int, gap0, gap@, used@),
            used.listed().len() <= address_places(),
            forall|t: ScanTarget| #[trigger]
                targets@.dom().contains(t) ==> targets0.dom().contains(t) || is_paying(views, in_use@, t) || is_paying(
                    views,
                    used@,
                    t,
                ) || is_paying(views, gap@, t),
            forall|t: ScanTarget| #[trigger] targets0.dom().contains(t) ==> targets@.dom().contains(t),
            forall|t: ScanTarget| #[trigger] is_paying(views, used@, t) ==> targets@.dom().contains(t),
        decreases address_places() - used.listed().len(),
    {
        let ghost before = targets@;
        let paid = match_recipients(recipients, in_use, gap, targets);
        if paid.len() == 0 {
            proof {
                paid.lemma_listed();
                assert forall|id: TransparentAddressId| !#[trigger] is_paid(views, gap@, id) by {
                    if is_paid(views, gap@, id) {
                        assert(paid@.dom().contains(id));
                        assert(has_key(paid.listed(), id));
                    }
                }
                lemma_nothing_paid(views, gap@);
                assert forall|t: ScanTarget| #[trigger] targets@.dom().contains(t) == (targets0.dom().contains(t)
                    || is_paying(views, in_use@, t) || is_paying(views, used@, t)) by {
                    if is_paying(views, used@, t) {
                        assert(before.dom().contains(t));
                    }
                    if targets0.dom().contains(t) {
                        assert(before.dom().contains(t));
                    }
                }
            }
            return Ok(used);
        }
        let ghost gap1 = gap@;
        let ghost used1 = used;
        let ghost targets1 = targets@;
        proof {
            assert(keys_cover(keys@, gap1)) by {
                assert forall|id: TransparentAddressId| #[trigger] gap1.dom().contains(id) implies exists|i: int|
                    0 <= i < keys@.len() && (#[trigger] keys@[i]).account_id == id.account_id by {
                    if gap0.dom().contains(id) {
                    } else {
                        assert(is_derived(keys@, network, id, gap1[id]@));
                    }
                }
            }
            paid.lemma_listed();
            assert(paid@.dom().contains(paid.listed()[0].0));
            assert forall|id: TransparentAddressId| #[trigger] paid@.dom().contains(id) implies gap1.dom().contains(
                id,
            ) by {
                assert(is_paid(views, gap1, id));
            }
        }
        proof {
            // A paid address is watched, so that the windows are not empty.
            let first = paid.listed()[0].0;
            assert(gap@.dom().contains(first));
            assert(first == id_at(first.account_id, first.scope, first.address_index));
            assert(has_window(gap@, first.account_id, first.scope, gap_limit as int));
        }
        match advance_all(gap, &mut used, keys, &paid, gap_limit, network) {
            Err(error) => {
                proof {
                    lemma_gap_error(error, keys@, network, views, paid@, gap0, gap1, used1@, gap_limit as int);
                }
                return Err(error);
            },
            Ok(moved) => {
                proof {
                    assert(moved);
                    lemma_reached_grows(keys@, network, views, paid@, gap1, used1@, gap@, used@, gap_limit as int);
                    lemma_windows_transitive(gap0, none, gap1, used1@, gap@, used@, gap_limit as int);
                    lemma_grown_transitive(keys@, network, gap0, none, gap1, used1@, gap@, used@);
                    lemma_more_used(&used1, used1@, &used);
                    lemma_paying_moves(keys@, network, views, gap1, used1@, gap@, used@);
                    assert forall|t: ScanTarget| #[trigger] targets@.dom().contains(t) implies targets0.dom().contains(t)
                        || is_paying(views, in_use@, t) || is_paying(views, used@, t) || is_paying(
                        views,
                        gap@,
                        t,
                    ) by {
                        if before.dom().contains(t) {
                        }
                    }
                    assert forall|t: ScanTarget| #[trigger] is_paying(views, used@, t) implies targets@.dom().contains(
                        t,
                    ) by {
                        lemma_used_was_watched(views, gap1, used1@, gap@, used@, t);
                    }
                    assert forall|t: ScanTarget| #[trigger] targets0.dom().contains(t) implies targets@.dom().contains(
                        t,
                    ) by {
                        assert(before.dom().contains(t));
                    }
                }
            },
        }
    }
}

/// Where no address is paid, there is no payment.
proof fn lemma_nothing_paid(views: Seq<RecipientView>, gap: Map<TransparentAddressId, String>)
    requires
        forall|id: TransparentAddressId| !#[trigger] is_paid(views, gap, id),
    ensures
        forall|t: ScanTarget| !#[trigger] is_paying(views, gap, t),
{
    assert forall|t: ScanTarget| !#[trigger] is_paying(views, gap, t) by {
        if is_paying(views, gap, t) {
            let k = choose|k: int|
                0 <= k < views.len() && target_of(#[trigger] views[k]) == t && is_among(gap, views[k].address);
            let id = choose|id: TransparentAddressId| #[trigger]
                gap.dom().contains(id) && gap[id]@ == views[k].address;
            assert(is_paid(views, gap, id));
        }
    }
}

proof fn lemma_grown_from_nothing(
    keys: Seq<AccountKey>,
    network: NetworkType,
    gap: Map<TransparentAddressId, String>,
)
    ensures
        gap_grown(
            keys,
            network,
            gap,
            Map::<TransparentAddressId, String>::empty(),
            gap,
            Map::<TransparentAddressId, String>::empty(),
        ),
        used_below(gap, Map::<TransparentAddressId, String>::empty()),
{
}

/// What was paid before is paid still, in use or watched.
proof fn lemma_paying_moves(
    keys: Seq<AccountKey>,
    network: NetworkType,
    views: Seq<RecipientView>,
    gap1: Map<TransparentAddressId, String>,
    used1: Map<TransparentAddressId, String>,
    gap2: Map<TransparentAddressId, String>,
    used2: Map<TransparentAddressId, String>,
)
    requires
        gap_grown(keys, network, gap1, used1, gap2, used2),
    ensures
        forall|t: ScanTarget| #[trigger]
            is_paying(views, gap1, t) || is_paying(views, used1, t) ==> is_paying(views, used2, t) || is_paying(
                views,
                gap2,
                t,
            ),
        forall|t: ScanTarget| #[trigger] is_paying(views, used1, t) ==> is_paying(views, used2, t),
{
    assert forall|t: ScanTarget| #[trigger] is_paying(views, used1, t) implies is_paying(views, used2, t) by {
        let k = choose|k: int|
            0 <= k < views.len() && target_of(#[trigger] views[k]) == t && is_among(used1, views[k].address);
        let id = choose|id: TransparentAddressId| #[trigger]
            used1.dom().contains(id) && used1[id]@ == views[k].address;
        assert(used2.dom().contains(id));
        assert(is_among(used2, views[k].address));
    }
    assert forall|t: ScanTarget| #[trigger] is_paying(views, gap1, t) implies is_paying(views, used2, t) || is_paying(
        views,
        gap2,
        t,
    ) by {
        let k = choose|k: int|
            0 <= k < views.len() && target_of(#[trigger] views[k]) == t && is_among(gap1, views[k].address);
        let id = choose|id: TransparentAddressId| #[trigger]
            gap1.dom().contains(id) && gap1[id]@ == views[k].address;
        if gap2.dom().contains(id) && gap2[id] == gap1[id] {
            assert(is_among(gap2, views[k].address));
        } else {
            assert(used2.dom().contains(id));
            assert(is_among(used2, views[k].address));
        }
    }
}

/// What pays to an address in use afterwards paid to one in use or watched before.
proof fn lemma_used_was_watched(
    views: Seq<RecipientView>,
    gap1: Map<TransparentAddressId, String>,
    used1: Map<TransparentAddressId, String>,
    gap2: Map<TransparentAddressId, String>,
    used2: Map<TransparentAddressId, String>,
    t: ScanTarget,
)
    requires
        moved_from(gap1, used1, gap2, used2),
        is_paying(views, used2, t),
    ensures
        is_paying(views, used1, t) || is_paying(views, gap1, t),
{
    let k = choose|k: int|
        0 <= k < views.len() && target_of(#[trigger] views[k]) == t && is_among(used2, views[k].address);
    let id = choose|id: TransparentAddressId| #[trigger] used2.dom().contains(id) && used2[id]@ == views[k].address;
    if used1.dom().contains(id) && used2[id] == used1[id] {
        assert(is_among(used1, views[k].address));
    } else {
        assert(gap1.dom().contains(id));
        assert(is_among(gap1, views[k].address));
    }
}

// --- the first windows ---

/// The index from which addresses of a scope are watched: the first that the wallet has not used, if there are `limit`
/// from there on.
pub open spec fn window_start(
    listed: Seq<(TransparentAddressId, String)>,
    account_id: u32,
    scope: TransparentScope,
    limit: int,
) -> Option<u32> {
    match first_unused(listed, account_id, scope) {
        Some(low) => if low + limit <= CHILD_KEYS {
            Some(low)
        } else {
            None
        },
        None => None,
    }
}

/// Whether the account has a key.
pub open spec fn has_key_of(keys: Seq<AccountKey>, account_id: u32) -> bool {
    exists|i: int| 0 <= i < keys.len() && (#[trigger] keys[i]).account_id == account_id
}

/// Whether what is watched of a scope is its first window, if there is one and the account has a key.
pub open spec fn is_first_window(
    listed: Seq<(TransparentAddressId, String)>,
    gap: Map<TransparentAddressId, String>,
    account_id: u32,
    scope: TransparentScope,
    limit: int,
) -> bool {
    match window_start(listed, account_id, scope, limit) {
        Some(low) => holds_window(gap, account_id, scope, low as int, limit),
        None => holds_window(gap, account_id, scope, 0, 0),
    }
}

/// Whether exactly the first windows of the accounts that have a key are watched, with the addresses derived from the
/// keys.
pub open spec fn is_first_gap(
    listed: Seq<(TransparentAddressId, String)>,
    keys: Seq<AccountKey>,
    network: NetworkType,
    limit: int,
    gap: Map<TransparentAddressId, String>,
) -> bool {
    &&& forall|account_id: u32, scope: TransparentScope|
        has_key_of(keys, account_id) ==> #[trigger] is_first_window(listed, gap, account_id, scope, limit)
    &&& forall|id: TransparentAddressId| #[trigger]
        gap.dom().contains(id) ==> is_derived(keys, network, id, gap[id]@)
}

/// Whether the detail is that of an address of the first window of a scope, which cannot be derived.
pub open spec fn is_first_gap_error(
    listed: Seq<(TransparentAddressId, String)>,
    keys: Seq<AccountKey>,
    network: NetworkType,
    limit: int,
    detail: Seq<char>,
) -> bool {
    exists|i: int, scope: TransparentScope, index: u32|
        0 <= i < keys.len() && index < CHILD_KEYS && (window_start(listed, keys[i].account_id, scope, limit) matches Some(
            low,
        ) && low <= index < low + limit) && #[trigger] derived_address(keys[i].key@, scope, index, network) == Err::<
            Seq<char>,
            Seq<char>,
        >(detail)
}

/// Watches `limit` addresses of a scope of which none is watched.
fn watch_window(
    gap: &mut Addresses,
    keys: &Vec<AccountKey>,
    at: usize,
    scope: TransparentScope,
    low: u32,
    limit: u32,
    network: NetworkType,
) -> (r: Result<(), String>)
    requires
        at < keys@.len(),
        old(gap).wf(),
        low + limit <= CHILD_KEYS,
        holds_window(old(gap)@, keys@[at as int].account_id, scope, 0, 0),
    ensures
        final(gap).wf(),
        r.is_ok() ==> {
            &&& holds_window(final(gap)@, keys@[at as int].account_id, scope, low as int, limit as int)
            &&& same_elsewhere(old(gap)@, final(gap)@, keys@[at as int].account_id, scope)
            &&& forall|id: TransparentAddressId| #[trigger]
                final(gap)@.dom().contains(id) && !old(gap)@.dom().contains(id) ==> is_derived(
                    keys@,
                    network,
                    id,
                    final(gap)@[id]@,
                )
        },
        r matches Err(detail) ==> exists|index: u32|
            low <= index < low + limit && #[trigger] derived_address(
                keys@[at as int].key@,
                scope,
                index,
                network,
            ) == Err::<Seq<char>, Seq<char>>(detail@),
{
    let account_id: u32 = keys[at].account_id;
    let ghost gap0 = gap@;
    let mut k: u32 = 0;
    while k < limit
        invariant
            k <= limit,
            low + limit <= CHILD_KEYS,
            at < keys@.len(),
            account_id == keys@[at as int].account_id,
            gap.wf(),
            forall|index: u32| #[trigger]
                gap@.dom().contains(id_at(account_id, scope, index)) == (low <= index < low + k),
            same_elsewhere(gap0, gap@, account_id, scope),
            forall|id: TransparentAddressId| #[trigger]
                gap@.dom().contains(id) && !gap0.dom().contains(id) ==> is_derived(keys@, network, id, gap@[id]@),
            holds_window(gap0, account_id, scope, 0, 0),
        decreases limit - k,
    {
        let id = TransparentAddressId { account_id, scope, address_index: low + k };
        let ghost before = gap@;
        match derive_address(network, &keys[at].key, &id) {
            Ok(address) => {
                let ghost text = address@;
                gap.insert(id, address);
                proof {
                    assert(id == id_at(account_id, scope, (low + k) as u32));
                    assert(is_derived(keys@, network, id, text)) by {
                        assert(keys@[at as int].account_id == id.account_id);
                    }
                    assert forall|index: u32| #[trigger] gap@.dom().contains(id_at(account_id, scope, index)) == (low
                        <= index < low + k + 1) by {
                        assert(before.dom().contains(id_at(account_id, scope, index)) == (low <= index < low + k));
                    }
                    assert forall|other: TransparentAddressId| #[trigger]
                        gap@.dom().contains(other) && !gap0.dom().contains(other) implies is_derived(
                        keys@,
                        network,
                        other,
                        gap@[other]@,
                    ) by {
                        if other != id {
                            assert(before.dom().contains(other));
                        }
                    }
                }
            },
            Err(detail) => {
                assert(derived_address(keys@[at as int].key@, scope, (low + k) as u32, network) == Err::<
                    Seq<char>,
                    Seq<char>,
                >(detail@));
                return Err(detail);
            },
        }
        k = k + 1;
    }
    Ok(())
}

/// The gap addresses that a scan begins with: in each scope of each account that has a key, as many as the limit says
/// behind those that the wallet uses.
pub fn first_gap(wallet_addresses: &Addresses, keys: &Vec<AccountKey>, gap_limit: u32, network: NetworkType) -> (r: Result<
    Addresses,
    String,
>)
    requires
        wallet_addresses.wf(),
        keys_unique(keys@),
    ensures
        match r {
            Ok(gap) => {
                &&& gap.wf()
                &&& is_first_gap(wallet_addresses.listed(), keys@, network, gap_limit as int, gap@)
                &&& windowed(gap@, gap_limit as int)
                &&& keys_cover(keys@, gap@)
            },
            Err(detail) => is_first_gap_error(wallet_addresses.listed(), keys@, network, gap_limit as int, detail@),
        },
{
    let ghost listed = wallet_addresses.listed();
    let ghost limit = gap_limit as int;
    let mut gap: Addresses = SortedMap::new();
    let count: usize = keys.len();
    let mut i: usize = 0;
    while i < count
        invariant
            i <= count == keys@.len(),
            listed == wallet_addresses.listed(),
            limit == gap_limit,
            wallet_addresses.wf(),
            keys_unique(keys@),
            gap.wf(),
            first_windows_up_to(listed, keys@, limit, gap@, i as int, 0),
            forall|id: TransparentAddressId| #[trigger]
                gap@.dom().contains(id) ==> is_derived(keys@, network, id, gap@[id]@),
        decreases count - i,
    {
        let mut j: u8 = 0;
        while j < 3
            invariant
                i < count == keys@.len(),
                j <= 3,
                listed == wallet_addresses.listed(),
                limit == gap_limit,
                wallet_addresses.wf(),
                keys_unique(keys@),
                gap.wf(),
                first_windows_up_to(listed, keys@, limit, gap@, i as int, j as int),
                forall|id: TransparentAddressId| #[trigger]
                    gap@.dom().contains(id) ==> is_derived(keys@, network, id, gap@[id]@),
            decreases 3 - j,
        {
            let scope = if j == 0 {
                TransparentScope::External
            } else if j == 1 {
                TransparentScope::Internal
            } else {
                TransparentScope::Refund
            };
            let account_id: u32 = keys[i].account_id;
            let ghost before = gap@;
            proof {
                assert(!is_behind(keys@, i as int, j as int, id_at(account_id, scope, 0)));
                assert(is_scope_done(listed, keys@, limit, before, i as int, j as int, account_id, scope));
            }
            if let Some(search) = ScopeSearch::begin(wallet_addresses, account_id, scope) {
                if search.next_index <= CHILD_KEYS && gap_limit <= CHILD_KEYS - search.next_index {
                    if let Err(detail) = watch_window(
                        &mut gap,
                        keys,
                        i,
                        scope,
                        search.next_index,
                        gap_limit,
                        network,
                    ) {
                        return Err(detail);
                    }
                    proof {
                        assert forall|id: TransparentAddressId| #[trigger] gap@.dom().contains(id) implies is_derived(
                            keys@,
                            network,
                            id,
                            gap@[id]@,
                        ) by {
                            if before.dom().contains(id) {
                                if id.account_id == account_id && id.scope == scope {
                                    assert(id == id_at(account_id, scope, id.address_index));
                                    assert(!before.dom().contains(id_at(account_id, scope, id.address_index)));
                                }
                                assert(gap@[id] == before[id]);
                            }
                        }
                    }
                }
            }
            proof {
                assert(same_elsewhere(before, gap@, account_id, scope));
                assert(is_first_window(listed, gap@, account_id, scope, limit));
                assert forall|a: u32, s: TransparentScope| #[trigger]
                    is_scope_done(listed, keys@, limit, gap@, i as int, j + 1, a, s) by {
                    assert(is_scope_done(listed, keys@, limit, before, i as int, j as int, a, s));
                    if a == account_id && s == scope {
                        assert(is_behind(keys@, i as int, j + 1, id_at(a, s, 0)));
                    } else {
                        lemma_holds_elsewhere(before, gap@, account_id, scope, a, s);
                        assert(is_behind(keys@, i as int, j + 1, id_at(a, s, 0)) == is_behind(
                            keys@,
                            i as int,
                            j as int,
                            id_at(a, s, 0),
                        ));
                    }
                }
            }
            j = j + 1;
        }
        proof {
            assert forall|a: u32, s: TransparentScope| #[trigger]
                is_scope_done(listed, keys@, limit, gap@, i + 1, 0, a, s) by {
                assert(is_scope_done(listed, keys@, limit, gap@, i as int, 3, a, s));
                lemma_behind_next(keys@, i as int, id_at(a, s, 0));
            }
        }
        i = i + 1;
    }
    proof {
        assert forall|a: u32, s: TransparentScope| has_key_of(keys@, a) implies #[trigger] is_first_window(
            listed,
            gap@,
            a,
            s,
            limit,
        ) by {
            assert(is_scope_done(listed, keys@, limit, gap@, count as int, 0, a, s));
            assert(is_behind(keys@, count as int, 0, id_at(a, s, 0)));
        }
        assert forall|a: u32, s: TransparentScope|
            #![trigger has_window(gap@, a, s, limit)]
            has_window(gap@, a, s, limit) by {
            assert(is_scope_done(listed, keys@, limit, gap@, count as int, 0, a, s));
            if has_key_of(keys@, a) {
                assert(is_first_window(listed, gap@, a, s, limit));
                if let Some(low) = window_start(listed, a, s, limit) {
                    assert(holds_window(gap@, a, s, low as int, limit));
                }
            } else {
                assert(!is_behind(keys@, count as int, 0, id_at(a, s, 0)));
            }
        }
        assert forall|id: TransparentAddressId| #[trigger] gap@.dom().contains(id) implies exists|i: int|
            0 <= i < keys@.len() && (#[trigger] keys@[i]).account_id == id.account_id by {
            assert(is_derived(keys@, network, id, gap@[id]@));
        }
    }
    Ok(gap)
}

/// Whether the scope has its first window if its turn has come, and nothing of it is watched otherwise.
pub open spec fn is_scope_done(
    listed: Seq<(TransparentAddressId, String)>,
    keys: Seq<AccountKey>,
    limit: int,
    gap: Map<TransparentAddressId, String>,
    i: int,
    j: int,
    account_id: u32,
    scope: TransparentScope,
) -> bool {
    if is_behind(keys, i, j, id_at(account_id, scope, 0)) {
        is_first_window(listed, gap, account_id, scope, limit)
    } else {
        holds_window(gap, account_id, scope, 0, 0)
    }
}

/// Whether exactly the scopes before place `j` of the key at place `i` have their first windows.
pub open spec fn first_windows_up_to(
    listed: Seq<(TransparentAddressId, String)>,
    keys: Seq<AccountKey>,
    limit: int,
    gap: Map<TransparentAddressId, String>,
    i: int,
    j: int,
) -> bool {
    forall|account_id: u32, scope: TransparentScope| #[trigger]
        is_scope_done(listed, keys, limit, gap, i, j, account_id, scope)
}

proof fn lemma_holds_elsewhere(
    before: Map<TransparentAddressId, String>,
    after: Map<TransparentAddressId, String>,
    account_id: u32,
    scope: TransparentScope,
    a: u32,
    s: TransparentScope,
)
    requires
        same_elsewhere(before, after, account_id, scope),
        !(a == account_id && s == scope),
    ensures
        forall|low: int, n: int| holds_window(before, a, s, low, n) ==> #[trigger] holds_window(after, a, s, low, n),
{
    assert forall|low: int, n: int| holds_window(before, a, s, low, n) implies #[trigger] holds_window(
        after,
        a,
        s,
        low,
        n,
    ) by {
        assert forall|index: u32| #[trigger] after.dom().contains(id_at(a, s, index)) == (low <= index < low + n) by {
            assert(before.dom().contains(id_at(a, s, index)) == (low <= index < low + n));
        }
    }
}

proof fn lemma_behind_next(keys: Seq<AccountKey>, i: int, id: TransparentAddressId)
    requires
        0 <= i < keys.len(),
    ensures
        is_behind(keys, i + 1, 0, id) == is_behind(keys, i, 3, id),
{
    if is_behind(keys, i, 3, id) {
        if exists|m: int| 0 <= m < i && (#[trigger] keys[m]).account_id == id.account_id {
            let m = choose|m: int| 0 <= m < i && (#[trigger] keys[m]).account_id == id.account_id;
            assert(0 <= m < i + 1);
        } else {
            assert(keys[i].account_id == id.account_id);
        }
    }
    if is_behind(keys, i + 1, 0, id) {
        let m = choose|m: int| 0 <= m < i + 1 && (#[trigger] keys[m]).account_id == id.account_id;
        if m < i {
        } else {
            assert(id.scope.number() < 3);
        }
    }
}

} // verus!
