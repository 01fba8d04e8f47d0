//! Registry rows as public records.

use zns_resolver::jsonrpc::records::{NameEvent, NameRecord};
use zns_resolver::registry::{Event, Registration};
use zns_resolver::Action;

/// Asymmetric first and last bytes, so that the expected string catches
/// byte-order mistakes: transaction ids are rendered reversed.
fn sample_txid() -> [u8; 32] {
    let mut txid = [0u8; 32];
    txid[0] = 0x01;
    txid[31] = 0x2a;
    txid
}

#[test]
fn registration_becomes_the_public_record() {
    let reg = Registration {
        name: "alice".to_string(),
        ua: "utest1abc".to_string(),
        expires_at: "1735689600".to_string(),
        txid: sample_txid(),
        height: 3_000_000,
        last_action: Action::Update,
    };

    let rec: NameRecord = reg.into();
    assert_eq!(rec.name, "alice");
    assert_eq!(rec.address, "utest1abc");
    assert_eq!(rec.txid, format!("2a{}01", "00".repeat(30)));
    assert_eq!(rec.height, 3_000_000);
    assert_eq!(rec.last_action, "update");
    assert_eq!(rec.expires_at, "1735689600");
}

#[test]
fn event_becomes_the_public_log_entry() {
    let e = Event {
        id: 7,
        name: "bob".to_string(),
        action: Action::Claim,
        ua: "utest1def".to_string(),
        expires_at: "none".to_string(),
        txid: sample_txid(),
        height: u32::MAX,
        action_index: 3,
    };

    let ev: NameEvent = e.into();
    assert_eq!(ev.id, 7);
    assert_eq!(ev.name, "bob");
    assert_eq!(ev.action, "claim");
    assert_eq!(ev.address, "utest1def");
    assert_eq!(ev.expires_at, "none");
    assert_eq!(ev.txid, format!("2a{}01", "00".repeat(30)));
    assert_eq!(ev.height, u64::from(u32::MAX));
    assert_eq!(ev.action_index, 3);
}
