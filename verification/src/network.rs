//! The networks a registry is deployed on: their names, storage and birthdays.

use vstd::prelude::*;

verus! {

/// The registry's key on mainnet, until it has one: a string that is no key.
pub const MAINNET_UFVK: &'static str =
    "ufvk1qqqqqqqqqqqqqqqqqqqqqqqqqqqqqqqqqqqqqqqqqqqqqqqqqqqqqqqqqqqqqqqqqqqqqqqqqqqqqqqqqqqqqqqqqqqqqqqqqqqqqqqqqqqqqqqqqqqqqqqqqqqqqqqqqqqqqqqqqqqqqqqqqqqqqqqqqqqqqqqqqqqq";

/// The registry's key on testnet.
pub const TESTNET_UFVK: &'static str =
    "uviewtest1m6ttk6khq8gy0s5v5e5c9snavnwzyv9hl9d5g7kc9lczlv36mjj4tpkmqqd5jep4cg0ea79ahqjpz3huv28kp2frtr3vc9wgerseynuntyu92ky6nwd746w8waz7jv34ax32h4uffcj7ky8qphxesmqqzvt7ykdle5lg2vv69we9nz2q89m8pudjzngxk82mh2s3p3uqedjucnca95tzdqqsg7pn5htvulp8hcyhqa8t4qhlxnpqw7elupkeyvzwky4lta26yy4tvgqz5pjx6ew9e3hm4wmu5t4jt7ku450atn83fezs6r5mc6jkxjc4xcptzss3c3e8ldrnj0uru9tnjteelxzzx7mzrwetu965t2z8luz24h9cj37g9q5nclyczp4gnx2g5z4twlkl9mtvdxwdwxza7chztzcgw6e4eye36auh6p5ltzclppxykhmalghf0fk8087jhknjyzxfzkukj4fmt3umm0k27mh44lfxmc8m0kvh";

/// A deployment of the registry.
#[derive(Clone, Copy, Debug, PartialEq, Eq, Structural)]
pub enum Deployment {
    Mainnet,
    Testnet,
}

impl Deployment {
    /// Short name of the network.
    pub fn network_name(self) -> (r: &'static str)
        ensures
            r@ == (match self {
                Deployment::Mainnet => "main"@,
                Deployment::Testnet => "test"@,
            }),
    {
        match self {
            Deployment::Mainnet => "main",
            Deployment::Testnet => "test",
        }
    }

    /// The registry's unified full viewing key. Mainnet has none yet: its key
    /// decodes to nothing.
    pub fn ufvk(self) -> (r: &'static str)
        ensures
            r@ == (match self {
                Deployment::Mainnet => MAINNET_UFVK@,
                Deployment::Testnet => TESTNET_UFVK@,
            }),
    {
        match self {
            Deployment::Mainnet => MAINNET_UFVK,
            Deployment::Testnet => TESTNET_UFVK,
        }
    }

    /// Persisted name index filename. Distinct per network so that mainnet and
    /// testnet do not share on-disk state.
    pub fn db_path(self) -> (r: &'static str)
        ensures
            r@ == (match self {
                Deployment::Mainnet => "zns.sqlite"@,
                Deployment::Testnet => "zns-testnet.sqlite"@,
            }),
    {
        match self {
            Deployment::Mainnet => "zns.sqlite",
            Deployment::Testnet => "zns-testnet.sqlite",
        }
    }

    /// Skip all blocks before this height on first sync.
    pub fn scan_birthday(self) -> (r: u32)
        ensures
            r == (match self {
                Deployment::Mainnet => 3_000_000u32,
                Deployment::Testnet => 4_000_000u32,
            }),
    {
        match self {
            Deployment::Mainnet => 3_000_000,
            Deployment::Testnet => 4_000_000,
        }
    }
}

} // verus!
