//! ZcashName (ZNS) resolver.
//!
//! Observes the chain for name notes, verifies each note's binding, and folds
//! the results into an index keyed by name.
//!
//!  - [`kernel`]: lifecycle actions, the chain rule, the commitment derivation.
//!  - [`memo`]: the lifecycle memo grammar.
//!  - [`verify`]: binding verification.
//!  - [`observe`], [`sync`]: what a scan finds, and how the sync loops decide.
//!  - [`index`], [`names`], [`registry`]: the stores, each with its invariant.
//!  - [`merkle`]: proof material.
//!  - [`http`], [`jsonrpc`]: the JSON-RPC answers.

use vstd::prelude::*;

pub mod callback;
pub mod decrypt;
pub mod encoding;
pub mod http;
pub mod index;
pub mod jsonrpc;
pub mod kernel;
pub mod log;
pub mod memo;
pub mod merkle;
pub mod names;
pub mod net;
pub mod network;
pub mod observe;
pub mod orchard;
pub mod order;
pub mod registry;
pub mod store;
pub mod sync;
pub mod table;
pub mod text;
pub mod verify;

pub use kernel::{Action, ZERO_PREV_RCM};

verus! {

/// NU5 activation height on testnet: earliest possible Orchard note.
pub const TESTNET_NU5_HEIGHT: u32 = 1_842_420;

/// NU5 activation height on mainnet: earliest possible Orchard note.
pub const MAINNET_NU5_HEIGHT: u32 = 1_687_104;

} // verus!
