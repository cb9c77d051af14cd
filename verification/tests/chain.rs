//! Chain parameters and the activation of pools and upgrades.

use pepper_sync::chain::{ChainParameters, NetworkType, NetworkUpgrade, PoolActivation, UpgradeHeights};
use pepper_sync::primitives::ShieldedPool;
use zcash_protocol::consensus::{BlockHeight, BranchId, NetworkUpgrade as Upgrade, Parameters, MAIN_NETWORK};
use zcash_protocol::local_consensus::LocalNetwork;

const UPGRADES: [(NetworkUpgrade, Upgrade); 10] = [
    (NetworkUpgrade::Overwinter, Upgrade::Overwinter),
    (NetworkUpgrade::Sapling, Upgrade::Sapling),
    (NetworkUpgrade::Blossom, Upgrade::Blossom),
    (NetworkUpgrade::Heartwood, Upgrade::Heartwood),
    (NetworkUpgrade::Canopy, Upgrade::Canopy),
    (NetworkUpgrade::Nu5, Upgrade::Nu5),
    (NetworkUpgrade::Nu6, Upgrade::Nu6),
    (NetworkUpgrade::Nu6_1, Upgrade::Nu6_1),
    (NetworkUpgrade::Nu6_2, Upgrade::Nu6_2),
    (NetworkUpgrade::Nu6_3, Upgrade::Nu6_3),
];

fn network_type(parameters: &impl Parameters) -> NetworkType {
    match parameters.network_type() {
        zcash_protocol::consensus::NetworkType::Main => NetworkType::Main,
        zcash_protocol::consensus::NetworkType::Test => NetworkType::Test,
        zcash_protocol::consensus::NetworkType::Regtest => NetworkType::Regtest,
    }
}

fn resolve(parameters: &impl Parameters) -> ChainParameters {
    let height = |upgrade: Upgrade| parameters.activation_height(upgrade).map(u32::from);
    ChainParameters::of(
        network_type(parameters),
        UpgradeHeights {
            overwinter: height(Upgrade::Overwinter),
            sapling: height(Upgrade::Sapling),
            blossom: height(Upgrade::Blossom),
            heartwood: height(Upgrade::Heartwood),
            canopy: height(Upgrade::Canopy),
            nu5: height(Upgrade::Nu5),
            nu6: height(Upgrade::Nu6),
            nu6_1: height(Upgrade::Nu6_1),
            nu6_2: height(Upgrade::Nu6_2),
            nu6_3: height(Upgrade::Nu6_3),
        },
    )
}

fn regtest_network() -> LocalNetwork {
    LocalNetwork {
        overwinter: Some(BlockHeight::from_u32(1)),
        sapling: Some(BlockHeight::from_u32(1)),
        blossom: Some(BlockHeight::from_u32(1)),
        heartwood: Some(BlockHeight::from_u32(1)),
        canopy: Some(BlockHeight::from_u32(1)),
        nu5: Some(BlockHeight::from_u32(1)),
        nu6: Some(BlockHeight::from_u32(1)),
        nu6_1: Some(BlockHeight::from_u32(1)),
        nu6_2: Some(BlockHeight::from_u32(1)),
        nu6_3: Some(BlockHeight::from_u32(100)),
        nu7: None,
    }
}

/// The parameters answer as the network that they were made from, on every upgrade.
#[test]
fn resolving_preserves_network_type_and_activations() {
    let owned = resolve(&MAIN_NETWORK);
    assert_eq!(owned.network_type(), network_type(&MAIN_NETWORK));
    for (upgrade, theirs) in UPGRADES {
        assert_eq!(
            owned.activation_height(upgrade),
            MAIN_NETWORK.activation_height(theirs).map(u32::from),
            "{theirs} activation height was not preserved"
        );
    }
}

/// A regtest network stays a regtest network.
#[test]
fn resolving_preserves_a_regtest_network() {
    let owned = resolve(&regtest_network());
    assert_eq!(owned.network_type(), NetworkType::Regtest);
    assert_eq!(owned.activation_height(NetworkUpgrade::Nu6_3), Some(100));
}

/// Pools become active with their upgrades, and not at all where the upgrade is not scheduled.
#[test]
fn pools_become_active_with_their_upgrade() {
    let mut owned = resolve(&regtest_network());
    assert_eq!(PoolActivation::of(&owned, ShieldedPool::Sapling).unwrap().height(), 1);
    assert_eq!(PoolActivation::of(&owned, ShieldedPool::Orchard).unwrap().height(), 1);
    let ironwood = PoolActivation::of(&owned, ShieldedPool::Ironwood).unwrap();
    assert_eq!(ironwood.height(), 100);
    assert_eq!(ironwood.max_with(99), 100);
    assert_eq!(ironwood.max_with(101), 101);
    owned.activations.nu6_3 = None;
    assert_eq!(PoolActivation::of(&owned, ShieldedPool::Ironwood), None);
}

/// The branch in force is the one that the protocol library names, at and around every activation.
#[test]
fn branches_agree_with_the_protocol_library() {
    let owned = resolve(&MAIN_NETWORK);
    for (_, upgrade) in UPGRADES {
        if let Some(activation) = MAIN_NETWORK.activation_height(upgrade) {
            let activation = u32::from(activation);
            for height in [activation - 1, activation, activation + 1] {
                let theirs = BranchId::for_height(&MAIN_NETWORK, BlockHeight::from_u32(height));
                assert_eq!(owned.branch_id(height), u32::from(theirs), "at {height}");
            }
        }
    }
    assert_eq!(owned.branch_id(1), u32::from(BranchId::Sprout));
}

/// An upgrade is in force from its activation on.
#[test]
fn upgrades_are_in_force_from_their_activation() {
    let owned = resolve(&regtest_network());
    assert!(!owned.is_in_force(NetworkUpgrade::Nu6_3, 99));
    assert!(owned.is_in_force(NetworkUpgrade::Nu6_3, 100));
    assert_eq!(owned.newest_upgrade(0), None);
    assert_eq!(owned.newest_upgrade(99), Some(NetworkUpgrade::Nu6_2));
    assert_eq!(owned.newest_upgrade(100), Some(NetworkUpgrade::Nu6_3));
}
