//! Networks and deployments.

use zns_resolver::net::{Net, Upgrade};
use zns_resolver::network::Deployment;
use zns_resolver::observe::orchard_ivk;
use zns_resolver::{MAINNET_NU5_HEIGHT, TESTNET_NU5_HEIGHT};

#[test]
fn birthdays_are_the_nu5_activations() {
    assert_eq!(Net::Main.default_birthday(), MAINNET_NU5_HEIGHT);
    assert_eq!(Net::Test.default_birthday(), TESTNET_NU5_HEIGHT);
    assert_eq!(Net::Regtest.default_birthday(), 1);
    for net in [Net::Main, Net::Test, Net::Regtest] {
        assert_eq!(net.activation_height(Upgrade::Nu5), Some(net.default_birthday()));
    }
}

#[test]
fn regtest_activates_early() {
    for upgrade in [Upgrade::Overwinter, Upgrade::Sapling, Upgrade::Canopy, Upgrade::Nu6] {
        assert_eq!(Net::Regtest.activation_height(upgrade), Some(1));
    }
    assert_eq!(Net::Regtest.activation_height(Upgrade::Nu61), Some(20));
    assert_eq!(Net::Regtest.activation_height(Upgrade::Nu62), Some(22));
    assert_eq!(Net::Regtest.activation_height(Upgrade::Nu63), None);
}

#[test]
fn branches_follow_the_height() {
    // The NU5 branch, from its first block.
    assert_eq!(Net::Main.branch_id(MAINNET_NU5_HEIGHT), 0xc2d6_d0b4);
    assert_ne!(Net::Main.branch_id(MAINNET_NU5_HEIGHT - 1), 0xc2d6_d0b4);
    assert_eq!(Net::Test.branch_id(TESTNET_NU5_HEIGHT), 0xc2d6_d0b4);
    // NU6 on the local chain, until NU6.1.
    assert_eq!(Net::Regtest.branch_id(19), 0xc8e7_1055);
    assert_ne!(Net::Regtest.branch_id(20), 0xc8e7_1055);
}

#[test]
fn public_heights_and_branches_are_the_network_s() {
    let upgrades = [
        Upgrade::Overwinter,
        Upgrade::Sapling,
        Upgrade::Blossom,
        Upgrade::Heartwood,
        Upgrade::Canopy,
        Upgrade::Nu5,
        Upgrade::Nu6,
        Upgrade::Nu61,
        Upgrade::Nu62,
        Upgrade::Nu63,
        Upgrade::Nu7,
    ];
    let heights = |net: Net| upgrades.map(|u| net.activation_height(u).unwrap());
    assert_eq!(
        heights(Net::Main),
        [
            347_500, 419_200, 653_600, 903_000, 1_046_400, 1_687_104, 2_726_400, 3_146_400,
            3_364_600, 3_428_143, 3_543_405
        ]
    );
    assert_eq!(
        heights(Net::Test),
        [
            207_500, 280_000, 584_000, 903_800, 1_028_500, 1_842_420, 2_976_000, 3_536_500,
            4_052_000, 4_134_000, 4_465_026
        ]
    );
    let branches = [
        0x5ba8_1b19, 0x76b8_09bb, 0x2bb4_0e60, 0xf5b9_230b, 0xe9ff_75a6, 0xc2d6_d0b4, 0xc8e7_1055,
        0x4dec_4df0, 0x5437_f330, 0x37a5_165b, 0x7719_0ad9,
    ];
    for net in [Net::Main, Net::Test] {
        assert_eq!(net.branch_id(0), 0);
        assert_eq!(heights(net).map(|h| net.branch_id(h)), branches);
        for i in 1..11 {
            assert_eq!(net.branch_id(heights(net)[i] - 1), branches[i - 1]);
        }
    }
    assert_eq!([0, 1, 20, 22, u32::MAX].map(|h| Net::Regtest.branch_id(h)), [
        0,
        0xc8e7_1055,
        0x4dec_4df0,
        0x5437_f330,
        0x5437_f330
    ]);
}

#[test]
fn deployments_share_nothing() {
    assert_eq!(Deployment::Mainnet.network_name(), "main");
    assert_eq!(Deployment::Testnet.network_name(), "test");
    assert_eq!(Deployment::Mainnet.db_path(), "zns.sqlite");
    assert_eq!(Deployment::Testnet.db_path(), "zns-testnet.sqlite");
    assert_ne!(Deployment::Mainnet.ufvk(), Deployment::Testnet.ufvk());
    assert!(orchard_ivk(Net::Test, Deployment::Testnet.ufvk()).is_ok());
    assert!(orchard_ivk(Net::Main, Deployment::Mainnet.ufvk()).is_err());
    assert_eq!(Deployment::Mainnet.scan_birthday(), 3_000_000);
    assert_eq!(Deployment::Testnet.scan_birthday(), 4_000_000);
}
