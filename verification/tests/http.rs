//! The answers of the index's JSON-RPC methods.

use zns_resolver::http::{
    action_name, clamp_limit, clamp_offset, clamp_since, current_segment, entry, event_entry,
    parse_action_filter, proof_links, ResolveAnswer, RpcContext, RpcFault,
};
use zns_resolver::index::{ChainRow, Event, Registration, SqliteIndex};
use zns_resolver::Action;

fn row(action: Action, height: u32) -> ChainRow {
    ChainRow { action, ua: String::new(), height, txid: [0; 32], action_index: 0 }
}

#[test]
fn current_segment_starts_at_last_claim() {
    // claim, update, release, claim, update: the current binding begins at the
    // second claim.
    let rows = vec![
        row(Action::Claim, 1),
        row(Action::Update, 2),
        row(Action::Release, 3),
        row(Action::Claim, 4),
        row(Action::Update, 5),
    ];
    let seg = current_segment(&rows);
    assert_eq!(seg.len(), 2);
    assert_eq!(seg[0].height, 4);

    // A single live segment is served whole.
    let rows = vec![row(Action::Claim, 1), row(Action::Update, 2)];
    assert_eq!(current_segment(&rows).len(), 2);
}

#[test]
fn a_history_without_a_claim_is_served_whole() {
    let rows = vec![row(Action::Update, 1), row(Action::Release, 2)];
    assert_eq!(current_segment(&rows).len(), 2);
    assert!(current_segment(&[]).is_empty());
}

#[test]
fn action_names_are_uppercase_and_read_in_any_case() {
    for (action, name) in
        [(Action::Claim, "CLAIM"), (Action::Update, "UPDATE"), (Action::Release, "RELEASE")]
    {
        assert_eq!(action_name(action), name);
        assert_eq!(parse_action_filter(name), Some(action));
        assert_eq!(parse_action_filter(&name.to_lowercase()), Some(action));
    }
    assert_eq!(parse_action_filter("ClAiM"), Some(Action::Claim));
    assert_eq!(parse_action_filter("BUY"), None);
    assert_eq!(parse_action_filter(""), None);
}

fn sample_txid() -> [u8; 32] {
    let mut txid = [0u8; 32];
    txid[0] = 0x01;
    txid[31] = 0x2a;
    txid
}

#[test]
fn a_registration_is_rendered_with_the_raw_txid() {
    let e = entry(&Registration {
        name: "alice".to_string(),
        ua: "u1abc".to_string(),
        txid: sample_txid(),
        height: 7,
        last_action: Action::Update,
    });
    assert_eq!((e.name.as_str(), e.address.as_str(), e.height), ("alice", "u1abc", 7));
    assert_eq!(e.txid, format!("01{}2a", "00".repeat(30)));
    assert_eq!(e.last_action, "UPDATE");
    assert_eq!(e.nonce, 0);
    assert!(e.signature.is_none() && e.listing.is_none());
}

#[test]
fn a_release_event_has_no_address() {
    let event = |action, ua: &str| Event {
        id: 3,
        name: "bob".to_string(),
        action,
        ua: ua.to_string(),
        txid: sample_txid(),
        height: 9,
    };
    let claim = event_entry(&event(Action::Claim, "u1b"));
    assert_eq!(claim.ua.as_deref(), Some("u1b"));
    assert_eq!(claim.action, "CLAIM");
    assert_eq!(claim.id, 3);
    let release = event_entry(&event(Action::Release, ""));
    assert_eq!(release.ua, None);
    assert_eq!(release.action, "RELEASE");
}

#[test]
fn pages_are_clamped() {
    assert_eq!(clamp_limit(None), 50);
    assert_eq!(clamp_limit(Some(1_000)), 500);
    assert_eq!(clamp_limit(Some(12)), 12);
    assert_eq!(clamp_offset(None), 0);
    assert_eq!(clamp_offset(Some(7)), 7);
    assert_eq!(clamp_offset(Some((1 << 32) + 3)), u32::MAX);
    assert_eq!(clamp_since(None), None);
    assert_eq!(clamp_since(Some(1 << 40)), Some(u32::MAX));
    assert_eq!(clamp_since(Some(100)), Some(100));
}

fn context() -> RpcContext {
    RpcContext { db: "zns.sqlite".to_string(), uivk: "uivk1test".to_string() }
}

fn seeded() -> SqliteIndex {
    let mut idx = SqliteIndex::open_in_memory().unwrap();
    idx.record_action("alice", "u1old", &[1; 32], &[0; 32], &[0xAA; 32], 100, Action::Claim, 0)
        .unwrap();
    idx.record_action("alice", "u1new", &[2; 32], &[0; 32], &[0xBB; 32], 105, Action::Update, 0)
        .unwrap();
    idx
}

#[test]
fn an_exact_name_gives_a_record_and_an_address_gives_a_list() {
    let idx = seeded();
    match context().resolve(&idx, "alice", Some(50), Some(0), None) {
        Ok(ResolveAnswer::Record(r, None)) => {
            assert_eq!((r.name.as_str(), r.address.as_str()), ("alice", "u1new"));
            assert_eq!(r.last_action, "UPDATE");
        }
        _ => panic!("expected a bare record"),
    }
    for (query, found) in [("u1new", 1), ("", 1), ("u1old", 0), ("nobody", 0)] {
        match context().resolve(&idx, query, None, None, None) {
            Ok(ResolveAnswer::List(l)) => assert_eq!(l.len(), found, "{query}"),
            _ => panic!("expected a list"),
        }
    }
}

#[test]
fn proofs_come_with_all_links_or_not_at_all() {
    let mut idx = seeded();
    let rows = idx.chain_rows("alice").unwrap();
    assert!(matches!(proof_links(&idx, &rows), Err(RpcFault::ProofUnavailable)));
    assert!(matches!(
        context().resolve(&idx, "alice", None, None, Some(true)),
        Err(RpcFault::ProofUnavailable)
    ));

    idx.insert_proof_material(&[0xAA; 32], 100, b"\x01\x02", b"\xff", &[[0x0f; 32]], 1).unwrap();
    assert!(proof_links(&idx, &rows).is_err());
    idx.insert_proof_material(&[0xBB; 32], 105, b"\x03", b"\xee", &[], 0).unwrap();

    match context().resolve(&idx, "alice", None, None, Some(true)) {
        Ok(ResolveAnswer::Record(_, Some(links))) => {
            assert_eq!(links.len(), 2);
            assert_eq!(links[0].action, "claim");
            assert_eq!(links[0].tx, "0102");
            assert_eq!(links[0].header, "ff");
            assert_eq!(links[0].merkle_branch, vec!["0f".repeat(32)]);
            assert_eq!(links[0].merkle_index, 1);
            assert_eq!(links[0].txid, "aa".repeat(32));
            assert_eq!((links[1].ua.as_str(), links[1].height), ("u1new", 105));
        }
        _ => panic!("expected a proved record"),
    }
    assert_eq!(context().chain(&idx, "alice").map(|c| c.links.len()).ok(), Some(2));
}

#[test]
fn status_and_events_answer_from_the_index() {
    let mut idx = seeded();
    let s = context().status(&idx).ok().unwrap();
    assert_eq!((s.synced_height, s.registered, s.uivk.as_str()), (0, 1, "uivk1test"));
    idx.rewind(105).unwrap();
    assert_eq!(context().status(&idx).ok().unwrap().synced_height, 105);

    let ev = context().events(&idx, Some("alice"), None, None, Some(50), None).ok().unwrap();
    assert_eq!(ev.total, 2);
    assert_eq!(ev.events[0].action, "UPDATE");
    assert_eq!(ev.events[0].ua.as_deref(), Some("u1new"));
    assert_eq!(ev.events[1].action, "CLAIM");
    assert_eq!(ev.events[1].height, 100);

    // A verb that is never logged matches nothing.
    let ev = context().events(&idx, None, Some("BUY"), None, None, None).ok().unwrap();
    assert_eq!((ev.total, ev.events.len()), (0, 0));
    assert_eq!(context().listings(None, None).total, 0);
}

#[test]
fn faults_have_their_codes() {
    assert_eq!(RpcFault::Internal.code(), -32603);
    assert_eq!(RpcFault::Internal.message(), "Internal error");
    assert_eq!(RpcFault::ProofUnavailable.code(), -32011);
    let mut idx = seeded();
    idx.actions[1].record.action = "buy".to_string();
    assert!(matches!(
        context().resolve(&idx, "alice", None, None, None),
        Err(RpcFault::Internal)
    ));
}
