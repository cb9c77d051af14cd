//! The chain the sync engine syncs against.
use crate::primitives::{BlockHeight, ShieldedPool};
use vstd::prelude::*;

verus! {

/// The kind of network that a chain belongs to.
#[derive(Clone, Copy, Debug, PartialEq, Eq, Structural)]
pub enum NetworkType {
    Main,
    Test,
    Regtest,
}

impl NetworkType {
    /// The number that stands for the network.
    pub open spec fn number(self) -> u8 {
        match self {
            NetworkType::Main => 0,
            NetworkType::Test => 1,
            NetworkType::Regtest => 2,
        }
    }

    /// The network that a number stands for.
    pub open spec fn numbered(number: u8) -> NetworkType {
        if number == 0 {
            NetworkType::Main
        } else if number == 1 {
            NetworkType::Test
        } else {
            NetworkType::Regtest
        }
    }

    /// The number that stands for the network.
    pub fn to_number(self) -> (r: u8)
        ensures
            r == self.number(),
            NetworkType::numbered(r) == self,
    {
        match self {
            NetworkType::Main => 0,
            NetworkType::Test => 1,
            NetworkType::Regtest => 2,
        }
    }

    /// The network that a number stands for.
    pub fn of_number(number: u8) -> (r: NetworkType)
        ensures
            r == NetworkType::numbered(number),
    {
        if number == 0 {
            NetworkType::Main
        } else if number == 1 {
            NetworkType::Test
        } else {
            NetworkType::Regtest
        }
    }
}

/// A network upgrade.
#[derive(Clone, Copy, Debug, PartialEq, Eq, Structural)]
pub enum NetworkUpgrade {
    Overwinter,
    Sapling,
    Blossom,
    Heartwood,
    Canopy,
    Nu5,
    Nu6,
    Nu6_1,
    Nu6_2,
    Nu6_3,
}

/// The number of the branch of the rules of `upgrade`, or of the rules before the first one.
pub open spec fn branch_of(upgrade: Option<NetworkUpgrade>) -> u32 {
    match upgrade {
        None => 0,
        Some(NetworkUpgrade::Overwinter) => 0x5ba8_1b19,
        Some(NetworkUpgrade::Sapling) => 0x76b8_09bb,
        Some(NetworkUpgrade::Blossom) => 0x2bb4_0e60,
        Some(NetworkUpgrade::Heartwood) => 0xf5b9_230b,
        Some(NetworkUpgrade::Canopy) => 0xe9ff_75a6,
        Some(NetworkUpgrade::Nu5) => 0xc2d6_d0b4,
        Some(NetworkUpgrade::Nu6) => 0xc8e7_1055,
        Some(NetworkUpgrade::Nu6_1) => 0x4dec_4df0,
        Some(NetworkUpgrade::Nu6_2) => 0x5437_f330,
        Some(NetworkUpgrade::Nu6_3) => 0x37a5_165b,
    }
}

/// The height at which each network upgrade activates, where it does.
#[derive(Clone, Copy, Debug, PartialEq, Eq)]
pub struct UpgradeHeights {
    pub overwinter: Option<BlockHeight>,
    pub sapling: Option<BlockHeight>,
    pub blossom: Option<BlockHeight>,
    pub heartwood: Option<BlockHeight>,
    pub canopy: Option<BlockHeight>,
    pub nu5: Option<BlockHeight>,
    pub nu6: Option<BlockHeight>,
    pub nu6_1: Option<BlockHeight>,
    pub nu6_2: Option<BlockHeight>,
    pub nu6_3: Option<BlockHeight>,
}

impl UpgradeHeights {
    /// The activation height of `upgrade`.
    pub open spec fn at(self, upgrade: NetworkUpgrade) -> Option<BlockHeight> {
        match upgrade {
            NetworkUpgrade::Overwinter => self.overwinter,
            NetworkUpgrade::Sapling => self.sapling,
            NetworkUpgrade::Blossom => self.blossom,
            NetworkUpgrade::Heartwood => self.heartwood,
            NetworkUpgrade::Canopy => self.canopy,
            NetworkUpgrade::Nu5 => self.nu5,
            NetworkUpgrade::Nu6 => self.nu6,
            NetworkUpgrade::Nu6_1 => self.nu6_1,
            NetworkUpgrade::Nu6_2 => self.nu6_2,
            NetworkUpgrade::Nu6_3 => self.nu6_3,
        }
    }
}

/// The consensus parameters the sync engine owns.
///
/// Sync decisions are chain-dependent: which pools exist, and from which height each one starts.
#[derive(Clone, Copy, Debug, PartialEq, Eq)]
pub struct ChainParameters {
    pub network_type: NetworkType,
    pub activations: UpgradeHeights,
}

/// The upgrade that brought `pool` to the network.
pub open spec fn upgrade_of(pool: ShieldedPool) -> NetworkUpgrade {
    match pool {
        ShieldedPool::Sapling => NetworkUpgrade::Sapling,
        ShieldedPool::Orchard => NetworkUpgrade::Nu5,
        ShieldedPool::Ironwood => NetworkUpgrade::Nu6_3,
    }
}

impl ChainParameters {
    /// The height from which `pool` exists.
    pub open spec fn activation_of(self, pool: ShieldedPool) -> Option<BlockHeight> {
        self.activations.at(upgrade_of(pool))
    }

    /// Whether `pool` exists at `height`.
    pub open spec fn active_at(self, pool: ShieldedPool, height: BlockHeight) -> bool {
        self.activation_of(pool) matches Some(activation) && activation <= height
    }

    /// Whether the rules of `upgrade` are in force at `height`.
    pub open spec fn in_force(self, upgrade: NetworkUpgrade, height: BlockHeight) -> bool {
        self.activations.at(upgrade) matches Some(activation) && activation <= height
    }

    /// The newest upgrade whose rules are in force at `height`.
    pub open spec fn newest_in_force(self, height: BlockHeight) -> Option<NetworkUpgrade> {
        if self.in_force(NetworkUpgrade::Nu6_3, height) {
            Some(NetworkUpgrade::Nu6_3)
        } else if self.in_force(NetworkUpgrade::Nu6_2, height) {
            Some(NetworkUpgrade::Nu6_2)
        } else if self.in_force(NetworkUpgrade::Nu6_1, height) {
            Some(NetworkUpgrade::Nu6_1)
        } else if self.in_force(NetworkUpgrade::Nu6, height) {
            Some(NetworkUpgrade::Nu6)
        } else if self.in_force(NetworkUpgrade::Nu5, height) {
            Some(NetworkUpgrade::Nu5)
        } else if self.in_force(NetworkUpgrade::Canopy, height) {
            Some(NetworkUpgrade::Canopy)
        } else if self.in_force(NetworkUpgrade::Heartwood, height) {
            Some(NetworkUpgrade::Heartwood)
        } else if self.in_force(NetworkUpgrade::Blossom, height) {
            Some(NetworkUpgrade::Blossom)
        } else if self.in_force(NetworkUpgrade::Sapling, height) {
            Some(NetworkUpgrade::Sapling)
        } else if self.in_force(NetworkUpgrade::Overwinter, height) {
            Some(NetworkUpgrade::Overwinter)
        } else {
            None
        }
    }

    /// Holds a parameter set without loss: the network type and every activation height.
    pub fn of(network_type: NetworkType, activations: UpgradeHeights) -> (r: Self)
        ensures
            r.network_type == network_type,
            forall|upgrade: NetworkUpgrade| #[trigger]
                r.activations.at(upgrade) == activations.at(upgrade),
    {
        ChainParameters { network_type, activations }
    }

    pub fn network_type(&self) -> (r: NetworkType)
        ensures
            r == self.network_type,
    {
        self.network_type
    }

    /// The height at which `upgrade` activates.
    pub fn activation_height(&self, upgrade: NetworkUpgrade) -> (r: Option<BlockHeight>)
        ensures
            r == self.activations.at(upgrade),
    {
        match upgrade {
            NetworkUpgrade::Overwinter => self.activations.overwinter,
            NetworkUpgrade::Sapling => self.activations.sapling,
            NetworkUpgrade::Blossom => self.activations.blossom,
            NetworkUpgrade::Heartwood => self.activations.heartwood,
            NetworkUpgrade::Canopy => self.activations.canopy,
            NetworkUpgrade::Nu5 => self.activations.nu5,
            NetworkUpgrade::Nu6 => self.activations.nu6,
            NetworkUpgrade::Nu6_1 => self.activations.nu6_1,
            NetworkUpgrade::Nu6_2 => self.activations.nu6_2,
            NetworkUpgrade::Nu6_3 => self.activations.nu6_3,
        }
    }
}

impl ChainParameters {
    /// Whether the rules of `upgrade` are in force at `height`.
    pub fn is_in_force(&self, upgrade: NetworkUpgrade, height: BlockHeight) -> (r: bool)
        ensures
            r == self.in_force(upgrade, height),
    {
        match self.activation_height(upgrade) {
            Some(activation) => activation <= height,
            None => false,
        }
    }

    /// The newest upgrade whose rules are in force at `height`.
    pub fn newest_upgrade(&self, height: BlockHeight) -> (r: Option<NetworkUpgrade>)
        ensures
            r == self.newest_in_force(height),
    {
        if self.is_in_force(NetworkUpgrade::Nu6_3, height) {
            Some(NetworkUpgrade::Nu6_3)
        } else if self.is_in_force(NetworkUpgrade::Nu6_2, height) {
            Some(NetworkUpgrade::Nu6_2)
        } else if self.is_in_force(NetworkUpgrade::Nu6_1, height) {
            Some(NetworkUpgrade::Nu6_1)
        } else if self.is_in_force(NetworkUpgrade::Nu6, height) {
            Some(NetworkUpgrade::Nu6)
        } else if self.is_in_force(NetworkUpgrade::Nu5, height) {
            Some(NetworkUpgrade::Nu5)
        } else if self.is_in_force(NetworkUpgrade::Canopy, height) {
            Some(NetworkUpgrade::Canopy)
        } else if self.is_in_force(NetworkUpgrade::Heartwood, height) {
            Some(NetworkUpgrade::Heartwood)
        } else if self.is_in_force(NetworkUpgrade::Blossom, height) {
            Some(NetworkUpgrade::Blossom)
        } else if self.is_in_force(NetworkUpgrade::Sapling, height) {
            Some(NetworkUpgrade::Sapling)
        } else if self.is_in_force(NetworkUpgrade::Overwinter, height) {
            Some(NetworkUpgrade::Overwinter)
        } else {
            None
        }
    }
}

impl ChainParameters {
    /// The number of the branch of the rules in force at `height`.
    pub fn branch_id(&self, height: BlockHeight) -> (r: u32)
        ensures
            r == branch_of(self.newest_in_force(height)),
    {
        match self.newest_upgrade(height) {
            None => 0,
            Some(NetworkUpgrade::Overwinter) => 0x5ba8_1b19,
            Some(NetworkUpgrade::Sapling) => 0x76b8_09bb,
            Some(NetworkUpgrade::Blossom) => 0x2bb4_0e60,
            Some(NetworkUpgrade::Heartwood) => 0xf5b9_230b,
            Some(NetworkUpgrade::Canopy) => 0xe9ff_75a6,
            Some(NetworkUpgrade::Nu5) => 0xc2d6_d0b4,
            Some(NetworkUpgrade::Nu6) => 0xc8e7_1055,
            Some(NetworkUpgrade::Nu6_1) => 0x4dec_4df0,
            Some(NetworkUpgrade::Nu6_2) => 0x5437_f330,
            Some(NetworkUpgrade::Nu6_3) => 0x37a5_165b,
        }
    }
}

/// The height from which a shielded pool exists.
#[derive(Clone, Copy, Debug, PartialEq, Eq, Structural)]
pub struct PoolActivation {
    pub height: BlockHeight,
}

impl PoolActivation {
    /// The activation of `pool`, the one place where a pool is tied to its upgrade.
    pub fn of(parameters: &ChainParameters, pool: ShieldedPool) -> (r: Option<PoolActivation>)
        ensures
            r.is_some() == parameters.activation_of(pool).is_some(),
            r matches Some(activation) ==> Some(activation.height) == parameters.activation_of(
                pool,
            ),
    {
        let upgrade = match pool {
            ShieldedPool::Sapling => NetworkUpgrade::Sapling,
            ShieldedPool::Orchard => NetworkUpgrade::Nu5,
            ShieldedPool::Ironwood => NetworkUpgrade::Nu6_3,
        };
        match parameters.activation_height(upgrade) {
            Some(height) => Some(PoolActivation { height }),
            None => None,
        }
    }

    pub fn height(&self) -> (r: BlockHeight)
        ensures
            r == self.height,
    {
        self.height
    }

    /// The later of the activation and `height`.
    pub fn max_with(&self, height: BlockHeight) -> (r: BlockHeight)
        ensures
            r == if self.height < height {
                height
            } else {
                self.height
            },
    {
        if self.height < height {
            height
        } else {
            self.height
        }
    }
}

} // verus!
