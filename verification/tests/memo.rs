//! The lifecycle memo grammar and the kernel's rules.

use zns_resolver::kernel::{prev_rcm_for, Tip};
use zns_resolver::memo::{is_valid_name, parse_memo};
use zns_resolver::{Action, ZERO_PREV_RCM};

#[test]
fn each_form_parses() {
    let m = parse_memo(b"ZNS:claim:alice:u1abc").expect("a claim");
    assert_eq!((m.action, m.name.as_str(), m.ua.as_str()), (Action::Claim, "alice", "u1abc"));
    assert_eq!(m.prev_rcm, None);

    let m = parse_memo(format!("ZNS:update:a-1:u1abc:{}", "0f".repeat(32)).as_bytes()).expect("an update");
    assert_eq!((m.action, m.name.as_str()), (Action::Update, "a-1"));
    assert_eq!(m.prev_rcm, Some([0x0f; 32]));

    let m = parse_memo(b"ZNS:release:alice").expect("a release");
    assert_eq!((m.action, m.ua.as_str(), m.prev_rcm), (Action::Release, "", None));

    let m = parse_memo(format!("ZNS:release:alice::{}", "a0".repeat(32)).as_bytes()).expect("a release");
    assert_eq!(m.prev_rcm, Some([0xa0; 32]));
}

#[test]
fn padding_is_ignored() {
    let mut padded = b"ZNS:claim:alice:u1abc".to_vec();
    padded.resize(512, 0);
    let m = parse_memo(&padded).expect("a claim");
    assert_eq!(m.ua, "u1abc");
}

#[test]
fn anything_else_is_refused() {
    let hex = "0f".repeat(32);
    for memo in [
        String::new(),
        "ZNS".to_string(),
        "zns:claim:alice:u1abc".to_string(),
        "ZNS:buy:alice:u1abc".to_string(),
        "ZNS:CLAIM:alice:u1abc".to_string(),
        "ZNS:claim:alice".to_string(),
        "ZNS:claim:alice:".to_string(),
        "ZNS:claim::u1abc".to_string(),
        "ZNS:claim:Alice:u1abc".to_string(),
        "ZNS:claim:-alice:u1abc".to_string(),
        "ZNS:claim:alice:u1abc:".to_string(),
        format!("ZNS:claim:alice:u1abc:{}", hex.to_uppercase()),
        format!("ZNS:claim:alice:u1abc:{hex}:"),
        format!("ZNS:claim:alice:u1abc:{}", &hex[..62]),
        "ZNS:release:alice:u1abc".to_string(),
        format!("ZNS:release:alice:u1abc:{hex}"),
    ] {
        assert!(parse_memo(memo.as_bytes()).is_none(), "{memo}");
    }
    assert!(parse_memo(b"ZNS:claim:alice:\xff\xfe").is_none());
    assert!(parse_memo(b"ZNS:claim:al\0ice:u1abc").is_none());
}

#[test]
fn names_follow_the_label_rule() {
    for name in ["a", "0", "a-b", "alice2", &"x".repeat(63)] {
        assert!(is_valid_name(name), "{name}");
    }
    for name in ["", "-a", "a-", "A", "a.b", "a_b", "\u{e9}", &"x".repeat(64)] {
        assert!(!is_valid_name(name), "{name}");
    }
}

#[test]
fn actions_are_spelled_in_lower_case() {
    for (action, text) in
        [(Action::Claim, "claim"), (Action::Update, "update"), (Action::Release, "release")]
    {
        assert_eq!(action.as_str(), text);
        assert_eq!(Action::from_text(text), Some(action));
    }
    assert_eq!(Action::from_text("Claim"), None);
    assert_eq!(Action::from_text(""), None);
}

#[test]
fn one_move_fits_each_tip() {
    let tip = |action| Tip { action, rcm: [3u8; 32] };
    assert_eq!(prev_rcm_for(None, Action::Claim), Some(ZERO_PREV_RCM));
    assert_eq!(prev_rcm_for(None, Action::Update), None);
    assert_eq!(prev_rcm_for(None, Action::Release), None);
    for last in [Action::Claim, Action::Update] {
        assert_eq!(prev_rcm_for(Some(&tip(last)), Action::Claim), None);
        assert_eq!(prev_rcm_for(Some(&tip(last)), Action::Update), Some([3u8; 32]));
        assert_eq!(prev_rcm_for(Some(&tip(last)), Action::Release), Some([3u8; 32]));
    }
    let released = tip(Action::Release);
    assert_eq!(prev_rcm_for(Some(&released), Action::Claim), Some(ZERO_PREV_RCM));
    assert_eq!(prev_rcm_for(Some(&released), Action::Update), None);
    assert_eq!(prev_rcm_for(Some(&released), Action::Release), None);
}
