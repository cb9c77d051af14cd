//! What the engine takes from the protocol libraries, on plain values.
use crate::chain::NetworkType;
use crate::primitives::ShieldedPool;
use crate::wallet::transaction::TransparentScope;
use crate::wallet::codec::{le_value, ReadError};
use vstd::prelude::*;
use vstd::utf8::valid_utf8;
use zcash_client_backend::proto::service::TreeState;
use zcash_primitives::merkle_tree::write_frontier_v1;
use zcash_address::constants::{mainnet, regtest, testnet};
use zcash_keys::encoding::encode_transparent_address;
use zcash_transparent::keys::{AccountPubKey, IncomingViewingKey, NonHardenedChildIndex};

verus! {

/// The number of elements of the base field of the Pallas curve.
pub open spec fn pallas_modulus() -> nat {
    0x40000000000000000000000000000000224698fc094cf91b992d30ed00000001nat
}

/// The number of scalars of the Jubjub curve.
pub open spec fn jubjub_modulus() -> nat {
    0x0e7db4ea6533afa906673b0101343b00a6682093ccc81082d0970e5ed6f72cb7nat
}

/// Whether bytes encode an orchard nullifier: a field element in its least form.
pub open spec fn orchard_nullifier_is_valid(bytes: Seq<u8>) -> bool {
    le_value(bytes) < pallas_modulus()
}

/// Calls [`orchard::note::Nullifier::from_bytes`] and says whether it gave a nullifier, which it does for exactly
/// the numbers below the modulus of the field.
#[verifier::external_body]
pub(crate) fn is_orchard_nullifier(bytes: &[u8; 32]) -> (r: bool)
    ensures
        r == orchard_nullifier_is_valid(bytes@),
{
    orchard::note::Nullifier::from_bytes(bytes).is_some().into()
}

/// Calls [`jubjub::Fr::from_bytes`] and says whether it gave a scalar, which it does for exactly the numbers below
/// the order of the group.
#[verifier::external_body]
pub(crate) fn is_jubjub_scalar(bytes: &[u8; 32]) -> (r: bool)
    ensures
        r == (le_value(bytes@) < jubjub_modulus()),
{
    jubjub::Fr::from_bytes(bytes).is_some().into()
}

/// Whether bytes encode a sapling payment address.
pub uninterp spec fn sapling_address_is_valid(bytes: Seq<u8>) -> bool;

/// Calls [`sapling_crypto::PaymentAddress::from_bytes`] and says whether it gave an address.
#[verifier::external_body]
pub(crate) fn is_sapling_address(bytes: &[u8; 43]) -> (r: bool)
    ensures
        r == sapling_address_is_valid(bytes@),
{
    sapling_crypto::PaymentAddress::from_bytes(bytes).is_some()
}

/// Whether the parts make an orchard note, or an ironwood note if `ironwood` is set.
pub uninterp spec fn orchard_note_is_valid(
    recipient: Seq<u8>,
    value: u64,
    rho: Seq<u8>,
    rseed: Seq<u8>,
    ironwood: bool,
) -> bool;

/// Calls [`orchard::note::Note::from_parts`] on the parts that the bytes encode and says whether there is such a note:
/// each of the parts has to be well formed, and so has the note that they make. An ironwood note is of the third note
/// version, an orchard note of the second.
#[verifier::external_body]
pub(crate) fn is_orchard_note(
    recipient: &[u8; 43],
    value: u64,
    rho: &[u8; 32],
    rseed: &[u8; 32],
    ironwood: bool,
) -> (r: bool)
    ensures
        r == orchard_note_is_valid(recipient@, value, rho@, rseed@, ironwood),
{
    let version = if ironwood { orchard::note::NoteVersion::V3 } else { orchard::note::NoteVersion::V2 };
    let value = orchard::value::NoteValue::from_raw(value);
    Option::<orchard::Address>::from(orchard::Address::from_raw_address_bytes(recipient)).is_some_and(|recipient| {
        Option::<orchard::note::Rho>::from(orchard::note::Rho::from_bytes(rho)).is_some_and(|rho| {
            Option::<orchard::note::RandomSeed>::from(orchard::note::RandomSeed::from_bytes(*rseed, &rho)).is_some_and(
                |seed| orchard::note::Note::from_parts(recipient, value, rho, seed, version).is_some().into(),
            )
        })
    })
}

/// The bytes up to the last one that is not zero.
pub open spec fn without_padding(bytes: Seq<u8>) -> Seq<u8>
    decreases bytes.len(),
{
    if bytes.len() > 0 && bytes.last() == 0 {
        without_padding(bytes.drop_last())
    } else {
        bytes
    }
}

/// Whether the 512 bytes of a memo are well formed: a first byte up to `0xf4` says that the memo is text, which
/// must be UTF-8. Other memos are not constrained.
pub open spec fn memo_is_valid(bytes: Seq<u8>) -> bool {
    bytes[0] > 0xf4 || valid_utf8(without_padding(bytes))
}

/// Calls [`zcash_protocol::memo::Memo::from_bytes`] and says whether it gave a memo. The memo that it gives encodes
/// to the same bytes.
#[verifier::external_body]
pub(crate) fn is_memo(bytes: &[u8]) -> (r: bool)
    requires
        bytes@.len() == 512,
    ensures
        r == memo_is_valid(bytes@),
{
    zcash_protocol::memo::Memo::from_bytes(bytes).is_ok()
}

/// The form in which a unified address is written, if the text encodes one of the network.
pub uninterp spec fn unified_address_form(text: Seq<char>, network: NetworkType) -> Option<Seq<char>>;

/// Calls [`zcash_keys::address::UnifiedAddress::decode`] and encodes the address that it gives, for the same network.
#[verifier::external_body]
pub(crate) fn unified_address(text: &str, network: NetworkType) -> (r: Option<String>)
    ensures
        r.is_some() == unified_address_form(text@, network).is_some(),
        r matches Some(address) ==> Some(address@) == unified_address_form(text@, network),
{
    let main = zcash_protocol::consensus::MAIN_NETWORK;
    let test = zcash_protocol::consensus::TEST_NETWORK;
    let local = zcash_protocol::local_consensus::LocalNetwork {
        overwinter: None, sapling: None, blossom: None, heartwood: None, canopy: None, nu5: None, nu6: None,
        nu6_1: None, nu6_2: None, nu6_3: None, nu7: None,
    };
    match network {
        NetworkType::Main => zcash_keys::address::UnifiedAddress::decode(&main, text).ok().map(|a| a.encode(&main)),
        NetworkType::Test => zcash_keys::address::UnifiedAddress::decode(&test, text).ok().map(|a| a.encode(&test)),
        NetworkType::Regtest =>
            zcash_keys::address::UnifiedAddress::decode(&local, text).ok().map(|a| a.encode(&local)),
    }
}

/// The length and the expiry height of the transaction at the front of `bytes`, by the rules of the branch.
pub uninterp spec fn transaction_at_front(bytes: Seq<u8>, branch: u32) -> Result<
    (nat, u32),
    ReadError,
>;

/// Whether `bytes` are a transaction that expires at `expiry_height`, whatever bytes follow them.
pub open spec fn is_transaction(bytes: Seq<u8>, branch: u32, expiry_height: u32) -> bool {
    forall|rest: Seq<u8>|
        #![trigger transaction_at_front(bytes + rest, branch)]
        transaction_at_front(bytes + rest, branch) == Ok::<(nat, u32), ReadError>(
            (bytes.len(), expiry_height),
        )
}

/// Calls [`zcash_primitives::transaction::Transaction::read`] under the rules of the branch, and says how many bytes
/// it read and when the transaction expires. No transaction is valid under the rules of a branch that is not known. A
/// reader sees only the bytes that it reads, so that what follows them makes no difference.
#[verifier::external_body]
pub(crate) fn read_transaction(bytes: &[u8], branch: u32) -> (r: Result<(usize, u32), ReadError>)
    ensures
        match transaction_at_front(bytes@, branch) {
            Ok((length, expiry_height)) => r matches Ok(v) && v.0 == length && v.1 == expiry_height,
            Err(error) => r matches Err(e) && e == error,
        },
        r matches Ok(v) ==> v.0 <= bytes@.len() && is_transaction(bytes@.take(v.0 as int), branch, v.1),
{
    let mut rest: &[u8] = bytes;
    let Ok(branch) = zcash_protocol::consensus::BranchId::try_from(branch) else {
        return Err(ReadError::InvalidData);
    };
    match zcash_primitives::transaction::Transaction::read(&mut rest, branch) {
        Ok(transaction) => Ok((bytes.len() - rest.len(), u32::from(transaction.expiry_height()))),
        Err(error) => match error.kind() {
            std::io::ErrorKind::UnexpectedEof => Err(ReadError::UnexpectedEof),
            std::io::ErrorKind::InvalidInput => Err(ReadError::InvalidInput),
            _ => Err(ReadError::InvalidData),
        },
    }
}

/// The id of the transaction that `bytes` begin with, by the rules of the branch, or why they do not begin with one.
pub uninterp spec fn transaction_id(bytes: Seq<u8>, branch: u32) -> Result<Seq<u8>, Seq<char>>;

/// Calls [`zcash_primitives::transaction::Transaction::read`] under the rules of the branch, and
/// [`zcash_primitives::transaction::Transaction::txid`] on what it gives. No transaction is valid under the rules of a
/// branch that is not known.
#[verifier::external_body]
pub(crate) fn read_transaction_id(bytes: &[u8], branch: u32) -> (r: Result<[u8; 32], String>)
    ensures
        match transaction_id(bytes@, branch) {
            Ok(id) => r matches Ok(v) && v@ == id,
            Err(detail) => r matches Err(text) && text@ == detail,
        },
{
    let branch = zcash_protocol::consensus::BranchId::try_from(branch).map_err(|error| error.to_string())?;
    zcash_primitives::transaction::Transaction::read(bytes, branch)
        .map(|transaction| *transaction.txid().as_ref())
        .map_err(|error| error.to_string())
}

/// The number of leaves below the roots that there are: the first root is of two leaves, and each of the others of twice
/// as many as the one before it.
pub open spec fn leaves_below(parents: Seq<bool>) -> nat
    decreases parents.len(),
{
    if parents.len() == 0 {
        0
    } else {
        2 * ((if parents[0] {
            1nat
        } else {
            0nat
        }) + leaves_below(parents.skip(1)))
    }
}

/// The number of leaves of a commitment tree with these parts: its last two leaves, and the roots of the complete
/// subtrees before them.
pub open spec fn leaf_count(parts: Seq<bool>) -> nat {
    (if parts[0] {
        1nat
    } else {
        0nat
    }) + (if parts[1] {
        1nat
    } else {
        0nat
    }) + leaves_below(parts.skip(2))
}

/// Which parts the commitment tree of a pool has that a text of a tree state encodes, or why it does not encode one: the
/// first and the second of its last leaves, and the roots of complete subtrees, from the lowest on.
pub uninterp spec fn tree_state_parts(text: Seq<char>, pool: ShieldedPool) -> Result<Seq<bool>, Seq<char>>;

/// Calls [`zcash_client_backend::proto::service::TreeState::sapling_tree`] on a tree state with the text, and says which
/// parts the tree that it gives has. There are fewer roots than the tree is deep.
#[verifier::external_body]
fn read_sapling_parts(text: &str) -> (r: Result<Vec<bool>, String>)
    ensures
        match tree_state_parts(text@, ShieldedPool::Sapling) {
            Ok(parts) => r matches Ok(v) && v@ == parts,
            Err(detail) => r matches Err(error) && error@ == detail,
        },
        r matches Ok(v) ==> 2 <= v@.len() < 34,
{
    let tree = TreeState { sapling_tree: text.to_string(), ..Default::default() }.sapling_tree();
    tree.map_err(|error| error.to_string()).map(|tree| {
        [tree.left(), tree.right()].into_iter().chain(tree.parents()).map(Option::is_some).collect()
    })
}

/// Calls [`zcash_client_backend::proto::service::TreeState::orchard_tree`], or `ironwood_tree`, on a tree state with the
/// text, and says which parts the tree that it gives has. There are fewer roots than the tree is deep.
#[verifier::external_body]
fn read_orchard_parts(text: &str, ironwood: bool) -> (r: Result<Vec<bool>, String>)
    ensures
        match tree_state_parts(
            text@,
            if ironwood {
                ShieldedPool::Ironwood
            } else {
                ShieldedPool::Orchard
            },
        ) {
            Ok(parts) => r matches Ok(v) && v@ == parts,
            Err(detail) => r matches Err(error) && error@ == detail,
        },
        r matches Ok(v) ==> 2 <= v@.len() < 34,
{
    let tree = if ironwood {
        TreeState { ironwood_tree: text.to_string(), ..Default::default() }.ironwood_tree()
    } else {
        TreeState { orchard_tree: text.to_string(), ..Default::default() }.orchard_tree()
    };
    tree.map_err(|error| error.to_string()).map(|tree| {
        [tree.left(), tree.right()].into_iter().chain(tree.parents()).map(Option::is_some).collect()
    })
}

/// Which parts the commitment tree of a pool has that a text of a tree state encodes.
pub(crate) fn read_tree_parts(text: &str, pool: ShieldedPool) -> (r: Result<Vec<bool>, String>)
    ensures
        match tree_state_parts(text@, pool) {
            Ok(parts) => r matches Ok(v) && v@ == parts,
            Err(detail) => r matches Err(error) && error@ == detail,
        },
        r matches Ok(v) ==> 2 <= v@.len() < 34,
{
    match pool {
        ShieldedPool::Sapling => read_sapling_parts(text),
        ShieldedPool::Orchard => read_orchard_parts(text, false),
        ShieldedPool::Ironwood => read_orchard_parts(text, true),
    }
}

/// The frontier of the commitment tree that a text of a tree state encodes, in the form in which it is written.
pub uninterp spec fn tree_state_frontier(text: Seq<char>, pool: ShieldedPool) -> Seq<u8>;

/// Calls [`incrementalmerkletree::frontier::CommitmentTree::to_frontier`] on the tree that a text of a tree state
/// encodes, and writes the frontier. A tree that has leaves must have the first of its last two.
#[verifier::external_body]
pub(crate) fn tree_frontier(text: &str, pool: ShieldedPool) -> (r: Vec<u8>)
    requires
        tree_state_parts(text@, pool) matches Ok(parts) && (parts[0] || leaf_count(parts) == 0) && leaf_count(parts)
            <= u32::MAX,
    ensures
        r@ == tree_state_frontier(text@, pool),
{
    let mut bytes = Vec::new();
    let tree = text.to_string();
    match pool {
        ShieldedPool::Sapling => TreeState { sapling_tree: tree, ..Default::default() }
            .sapling_tree()
            .and_then(|tree| write_frontier_v1(&mut bytes, &tree.to_frontier())),
        ShieldedPool::Orchard => TreeState { orchard_tree: tree, ..Default::default() }
            .orchard_tree()
            .and_then(|tree| write_frontier_v1(&mut bytes, &tree.to_frontier())),
        ShieldedPool::Ironwood => TreeState { ironwood_tree: tree, ..Default::default() }
            .ironwood_tree()
            .and_then(|tree| write_frontier_v1(&mut bytes, &tree.to_frontier())),
    }
    .expect("the text encodes a tree, and a vector takes all bytes");
    bytes
}

/// Why a height and a hash are not those of a block in a tree state, if they are not.
pub uninterp spec fn tree_state_fault(height: u64, hash: Seq<char>) -> Option<Seq<char>>;

/// Calls [`zcash_client_backend::proto::service::TreeState::to_chain_state`] on a tree state with the height and the hash
/// and no trees, and gives the error.
#[verifier::external_body]
pub(crate) fn tree_state_error(height: u64, hash: &str) -> (r: Option<String>)
    ensures
        match tree_state_fault(height, hash@) {
            Some(detail) => r matches Some(text) && text@ == detail,
            None => r.is_none(),
        },
{
    let state = TreeState { height, hash: hash.to_string(), ..Default::default() };
    state.to_chain_state().err().map(|error| error.to_string())
}

/// The address that a script pays to, in the form of the network.
pub uninterp spec fn script_address(script: Seq<u8>, network: NetworkType) -> Option<Seq<char>>;

/// Calls [`zcash_transparent::bundle::TxOut::recipient_address`] on an output with the script, and encodes the address
/// that it gives for the network.
#[verifier::external_body]
pub(crate) fn script_recipient(script: &[u8], network: NetworkType) -> (r: Option<String>)
    ensures
        match script_address(script@, network) {
            Some(address) => r matches Some(text) && text@ == address,
            None => r.is_none(),
        },
{
    let script = zcash_transparent::address::Script(zcash_script::script::Code(script.to_vec()));
    let output = zcash_transparent::bundle::TxOut::new(zcash_protocol::value::Zatoshis::ZERO, script);
    let (key, hash) = match network {
        NetworkType::Main => (mainnet::B58_PUBKEY_ADDRESS_PREFIX, mainnet::B58_SCRIPT_ADDRESS_PREFIX),
        NetworkType::Test => (testnet::B58_PUBKEY_ADDRESS_PREFIX, testnet::B58_SCRIPT_ADDRESS_PREFIX),
        NetworkType::Regtest => (regtest::B58_PUBKEY_ADDRESS_PREFIX, regtest::B58_SCRIPT_ADDRESS_PREFIX),
    };
    output.recipient_address().map(|address| encode_transparent_address(&key, &hash, &address))
}

/// The transparent address with an index under an account's public key, or why there is none.
pub uninterp spec fn derived_address(
    account_key: Seq<u8>,
    scope: TransparentScope,
    address_index: u32,
    network: NetworkType,
) -> Result<Seq<char>, Seq<char>>;

/// Calls [`zcash_transparent::keys::AccountPubKey::deserialize`], derives the address with the index under the key of
/// the scope, and encodes it for the network.
#[verifier::external_body]
pub(crate) fn derive_transparent_address(
    account_key: &[u8; 65],
    scope: TransparentScope,
    address_index: u32,
    network: NetworkType,
) -> (r: Result<String, String>)
    requires
        address_index < 0x8000_0000,
    ensures
        match derived_address(account_key@, scope, address_index, network) {
            Ok(address) => r matches Ok(text) && text@ == address,
            Err(detail) => r matches Err(text) && text@ == detail,
        },
{
    let index = NonHardenedChildIndex::from_index(address_index).expect("the index is not hardened");
    let address = AccountPubKey::deserialize(account_key).and_then(|key| match scope {
        TransparentScope::External => key.derive_external_ivk()?.derive_address(index),
        TransparentScope::Internal => key.derive_internal_ivk()?.derive_address(index),
        TransparentScope::Refund => key.derive_ephemeral_ivk()?.derive_ephemeral_address(index),
    });
    let (key, hash) = match network {
        NetworkType::Main => (mainnet::B58_PUBKEY_ADDRESS_PREFIX, mainnet::B58_SCRIPT_ADDRESS_PREFIX),
        NetworkType::Test => (testnet::B58_PUBKEY_ADDRESS_PREFIX, testnet::B58_SCRIPT_ADDRESS_PREFIX),
        NetworkType::Regtest => (regtest::B58_PUBKEY_ADDRESS_PREFIX, regtest::B58_SCRIPT_ADDRESS_PREFIX),
    };
    address.map(|address| encode_transparent_address(&key, &hash, &address)).map_err(|error| error.to_string())
}

} // verus!
