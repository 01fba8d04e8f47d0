//! Network parameterization: mainnet, testnet, or the local regtest.

use vstd::prelude::*;
use zcash_protocol::consensus::{BlockHeight, BranchId, Network, Parameters, UPGRADES_IN_ORDER};
use zcash_protocol::local_consensus::LocalNetwork;

use crate::{MAINNET_NU5_HEIGHT, TESTNET_NU5_HEIGHT};

verus! {

/// The chain this resolver follows.
#[derive(Clone, Copy, Debug, PartialEq, Eq, Structural)]
pub enum Net {
    /// Zcash mainnet.
    Main,
    /// Public testnet.
    Test,
    /// The local regtest chain: Overwinter to NU6 at height 1, NU6.1 at 20,
    /// NU6.2 at 22.
    Regtest,
}

/// The chains whose upgrades `zcash_protocol` knows.
#[derive(Clone, Copy, Debug, PartialEq, Eq, Structural)]
pub enum PublicNet {
    Main,
    Test,
}

/// The network upgrades, in order.
#[derive(Clone, Copy, Debug, PartialEq, Eq, Structural)]
pub enum Upgrade {
    Overwinter,
    Sapling,
    Blossom,
    Heartwood,
    Canopy,
    Nu5,
    Nu6,
    Nu61,
    Nu62,
    Nu63,
    Nu7,
}

impl Upgrade {
    /// The upgrade's place in the order.
    pub open spec fn place(self) -> usize {
        match self {
            Upgrade::Overwinter => 0,
            Upgrade::Sapling => 1,
            Upgrade::Blossom => 2,
            Upgrade::Heartwood => 3,
            Upgrade::Canopy => 4,
            Upgrade::Nu5 => 5,
            Upgrade::Nu6 => 6,
            Upgrade::Nu61 => 7,
            Upgrade::Nu62 => 8,
            Upgrade::Nu63 => 9,
            Upgrade::Nu7 => 10,
        }
    }

    pub fn index(self) -> (r: usize)
        ensures
            r == self.place(),
            r < 11,
    {
        match self {
            Upgrade::Overwinter => 0,
            Upgrade::Sapling => 1,
            Upgrade::Blossom => 2,
            Upgrade::Heartwood => 3,
            Upgrade::Canopy => 4,
            Upgrade::Nu5 => 5,
            Upgrade::Nu6 => 6,
            Upgrade::Nu61 => 7,
            Upgrade::Nu62 => 8,
            Upgrade::Nu63 => 9,
            Upgrade::Nu7 => 10,
        }
    }
}

/// The activation heights of the public chains, in the order of the upgrades.
pub open spec fn public_heights(net: PublicNet) -> Seq<Option<u32>> {
    match net {
        PublicNet::Main => seq![
            Some(347_500u32),
            Some(419_200u32),
            Some(653_600u32),
            Some(903_000u32),
            Some(1_046_400u32),
            Some(1_687_104u32),
            Some(2_726_400u32),
            Some(3_146_400u32),
            Some(3_364_600u32),
            Some(3_428_143u32),
            Some(3_543_405u32),
        ],
        PublicNet::Test => seq![
            Some(207_500u32),
            Some(280_000u32),
            Some(584_000u32),
            Some(903_800u32),
            Some(1_028_500u32),
            Some(1_842_420u32),
            Some(2_976_000u32),
            Some(3_536_500u32),
            Some(4_052_000u32),
            Some(4_134_000u32),
            Some(4_465_026u32),
        ],
    }
}

/// The consensus branches of the upgrades, in their order.
pub open spec fn branch_ids() -> Seq<u32> {
    seq![
        0x5ba8_1b19u32,
        0x76b8_09bbu32,
        0x2bb4_0e60u32,
        0xf5b9_230bu32,
        0xe9ff_75a6u32,
        0xc2d6_d0b4u32,
        0xc8e7_1055u32,
        0x4dec_4df0u32,
        0x5437_f330u32,
        0x37a5_165bu32,
        0x7719_0ad9u32,
    ]
}

/// The branch in force at `height` on a chain with these activation heights:
/// that of the last upgrade that is active, or 0 before any.
pub open spec fn branch_in(activations: Seq<Option<u32>>, height: u32) -> u32
    decreases activations.len(),
{
    if activations.len() == 0 {
        0
    } else if activations.last() matches Some(h) && h <= height {
        branch_ids()[activations.len() - 1]
    } else {
        branch_in(activations.drop_last(), height)
    }
}

/// Calls `zcash_protocol::consensus::Network::activation_height` on the upgrade
/// at `place` of `UPGRADES_IN_ORDER`. The contract claims the heights of its
/// table, and none for a place beyond it.
#[verifier::external_body]
fn public_activation_height(net: PublicNet, place: usize) -> (r: Option<u32>)
    ensures
        r == (if place < 11 {
            public_heights(net)[place as int]
        } else {
            None
        }),
{
    let network = match net {
        PublicNet::Main => Network::MainNetwork,
        PublicNet::Test => Network::TestNetwork,
    };
    network.activation_height(*UPGRADES_IN_ORDER.get(place)?).map(u32::from)
}

/// Calls `zcash_protocol::consensus::BranchId::for_height` on a public network.
/// The contract claims that it gives the branch of the last active upgrade.
#[verifier::external_body]
fn public_branch_id(net: PublicNet, height: u32) -> (r: u32)
    ensures
        r == branch_in(public_heights(net), height),
{
    let network = match net {
        PublicNet::Main => Network::MainNetwork,
        PublicNet::Test => Network::TestNetwork,
    };
    u32::from(BranchId::for_height(&network, BlockHeight::from_u32(height)))
}

/// Calls `zcash_protocol::consensus::BranchId::for_height` on a local network.
/// The contract claims that it gives the branch of the last active upgrade.
#[verifier::external_body]
fn local_branch_id(activations: [Option<u32>; 11], height: u32) -> (r: u32)
    ensures
        r == branch_in(activations@, height),
{
    let [overwinter, sapling, blossom, heartwood, canopy, nu5, nu6, nu6_1, nu6_2, nu6_3, nu7] =
        activations.map(|h| h.map(BlockHeight::from_u32));
    let network = LocalNetwork {
        overwinter, sapling, blossom, heartwood, canopy, nu5, nu6, nu6_1, nu6_2, nu6_3, nu7,
    };
    u32::from(BranchId::for_height(&network, BlockHeight::from_u32(height)))
}

/// The regtest activation heights, in the order of the upgrades.
pub open spec fn regtest_heights() -> Seq<Option<u32>> {
    seq![
        Some(1u32),
        Some(1u32),
        Some(1u32),
        Some(1u32),
        Some(1u32),
        Some(1u32),
        Some(1u32),
        Some(20u32),
        Some(22u32),
        None,
        None,
    ]
}

fn regtest() -> (r: [Option<u32>; 11])
    ensures
        r@ == regtest_heights(),
{
    let heights: [Option<u32>; 11] = [
        Some(1),
        Some(1),
        Some(1),
        Some(1),
        Some(1),
        Some(1),
        Some(1),
        Some(20),
        Some(22),
        None,
        None,
    ];
    assert(heights@ =~= regtest_heights());
    heights
}

impl Net {
    pub open spec fn birthday(self) -> u32 {
        match self {
            Net::Main => MAINNET_NU5_HEIGHT,
            Net::Test => TESTNET_NU5_HEIGHT,
            Net::Regtest => 1,
        }
    }

    pub open spec fn activation(self, upgrade: Upgrade) -> Option<u32> {
        match self {
            Net::Main => public_heights(PublicNet::Main)[upgrade.place() as int],
            Net::Test => public_heights(PublicNet::Test)[upgrade.place() as int],
            Net::Regtest => regtest_heights()[upgrade.place() as int],
        }
    }

    pub open spec fn branch(self, height: u32) -> u32 {
        match self {
            Net::Main => branch_in(public_heights(PublicNet::Main), height),
            Net::Test => branch_in(public_heights(PublicNet::Test), height),
            Net::Regtest => branch_in(regtest_heights(), height),
        }
    }

    /// The default scan birthday: NU5 activation (earliest possible Orchard
    /// note) on the public chains, genesis on regtest.
    pub fn default_birthday(self) -> (r: u32)
        ensures
            r == self.birthday(),
    {
        match self {
            Net::Main => MAINNET_NU5_HEIGHT,
            Net::Test => TESTNET_NU5_HEIGHT,
            Net::Regtest => 1,
        }
    }

    /// The height at which an upgrade activates. NU5 activates at the default
    /// birthday.
    pub fn activation_height(self, upgrade: Upgrade) -> (r: Option<u32>)
        ensures
            r == self.activation(upgrade),
            upgrade == Upgrade::Nu5 ==> r == Some(self.birthday()),
    {
        match self {
            Net::Main => public_activation_height(PublicNet::Main, upgrade.index()),
            Net::Test => public_activation_height(PublicNet::Test, upgrade.index()),
            Net::Regtest => regtest()[upgrade.index()],
        }
    }

    /// The consensus branch in force at `height`.
    pub fn branch_id(self, height: u32) -> (r: u32)
        ensures
            r == self.branch(height),
    {
        match self {
            Net::Main => public_branch_id(PublicNet::Main, height),
            Net::Test => public_branch_id(PublicNet::Test, height),
            Net::Regtest => local_branch_id(regtest(), height),
        }
    }
}

/// The branch in force is that of the last upgrade which is active: one that is
/// active at the height, where no later one is. Before the first there is none.
pub proof fn law_branch_is_of_the_last_active_upgrade(activations: Seq<Option<u32>>, height: u32, k: int)
    requires
        -1 <= k < activations.len(),
        k >= 0 ==> (activations[k] matches Some(h) && h <= height),
        forall|i: int|
            k < i < activations.len() ==> !((#[trigger] activations[i]) matches Some(h) && h <= height),
    ensures
        branch_in(activations, height) == (if k >= 0 {
            branch_ids()[k]
        } else {
            0
        }),
    decreases activations.len(),
{
    if activations.len() > 0 && k < activations.len() - 1 {
        let init = activations.drop_last();
        assert(!(activations[activations.len() - 1] matches Some(h) && h <= height));
        assert forall|i: int| k < i < init.len() implies !((#[trigger] init[i]) matches Some(h) && h <= height) by {
            assert(init[i] == activations[i]);
        }
        law_branch_is_of_the_last_active_upgrade(init, height, k);
    }
}

/// Each chain's upgrades come in order, and what is in force at a height is the
/// branch of an upgrade that activated at or below it.
pub proof fn law_upgrades_come_in_order(net: Net, first: Upgrade, second: Upgrade, height: u32)
    requires
        first.place() < second.place(),
    ensures
        (net.activation(first), net.activation(second)) matches (Some(a), Some(b)) ==> a <= b,
        net.activation(first) is None ==> net.activation(second) is None,
        (net.activation(first) matches Some(a) && a <= height) && second.place() == first.place() + 1 && !(
        net.activation(second) matches Some(b) && b <= height) ==> net.branch(height)
            == branch_ids()[first.place() as int],
{
    let all = match net {
        Net::Main => public_heights(PublicNet::Main),
        Net::Test => public_heights(PublicNet::Test),
        Net::Regtest => regtest_heights(),
    };
    let k = first.place() as int;
    if (net.activation(first) matches Some(a) && a <= height) && second.place() == first.place() + 1 && !(
    net.activation(second) matches Some(b) && b <= height) {
        law_branch_is_of_the_last_active_upgrade(all, height, k);
    }
}

} // verus!
