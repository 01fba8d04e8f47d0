//! Live sync status for debugging and observability.
//!
//! Not a state machine: a snapshot of what the sync loop is doing.

use vstd::prelude::*;
use vstd::string::*;

verus! {

#[derive(Debug, Clone)]
pub struct SyncStatus {
    /// Whether the sync loop is actively scanning blocks right now.
    pub scanning: bool,
    /// Highest block height scanned and committed.
    pub scanned_height: u32,
    /// Best chain tip height reported by the server.
    pub tip_height: u32,
    /// Last error message from the sync loop, if any.
    pub last_error: Option<String>,
}

impl Default for SyncStatus {
    fn default() -> (r: Self)
        ensures
            !r.scanning,
            r.scanned_height == 0,
            r.tip_height == 0,
            r.last_error is None,
    {
        SyncStatus { scanning: false, scanned_height: 0, tip_height: 0, last_error: None }
    }
}

impl SyncStatus {
    pub fn catching_up(scanned_height: u32, tip_height: u32) -> (r: Self)
        ensures
            r == (SyncStatus { scanning: true, scanned_height, tip_height, last_error: None }),
    {
        SyncStatus { scanning: true, scanned_height, tip_height, last_error: None }
    }

    pub fn caught_up(height: u32) -> (r: Self)
        ensures
            r == (SyncStatus {
                scanning: false,
                scanned_height: height,
                tip_height: height,
                last_error: None,
            }),
    {
        SyncStatus {
            scanning: false,
            scanned_height: height,
            tip_height: height,
            last_error: None,
        }
    }

    pub fn error(message: &str) -> (r: Self)
        ensures
            !r.scanning,
            r.scanned_height == 0,
            r.tip_height == 0,
            r.last_error matches Some(m) && m@ == message@,
    {
        SyncStatus {
            scanning: false,
            scanned_height: 0,
            tip_height: 0,
            last_error: Some(message.to_string()),
        }
    }
}

} // verus!
