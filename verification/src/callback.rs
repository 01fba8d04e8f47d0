//! Scan hits: decrypts whose memo encodes a binding that reconstructs the
//! action's on-chain commitment.

use vstd::prelude::*;
use vstd::string::*;
use vstd::utf8::*;

use crate::kernel::{Action, Note};
use crate::memo::laws::{is_statement, joined, law_memo_reads_back, statement_fields, zeros};
use crate::memo::{lifecycle_memo, parse_memo, LifecycleView};
use crate::verify::{plain_opening, verify_binding};

verus! {

/// A verified action.
#[derive(Debug, Clone)]
pub struct ValidZnsAction {
    pub action: Action,
    pub name: String,
    pub ua: String,
    /// The `rcm` the next action of the name extends.
    pub rcm: [u8; 32],
}

#[verifier::ext_equal]
pub struct ValidActionView {
    pub action: Action,
    pub name: Seq<char>,
    pub ua: Seq<char>,
    pub rcm: [u8; 32],
}

impl View for ValidZnsAction {
    type V = ValidActionView;

    open spec fn view(&self) -> ValidActionView {
        ValidActionView { action: self.action, name: self.name@, ua: self.ua@, rcm: self.rcm }
    }
}

/// One accepted hit: the verified action plus the `prev_rcm` its memo claimed to
/// point back to, by which the index decides whether the action extends the
/// name's chain.
#[derive(Debug, Clone)]
pub struct ZnsHit {
    /// The verified action.
    pub valid: ValidZnsAction,
    /// The predecessor encoded in the memo.
    pub prev_rcm: [u8; 32],
}

/// The predecessor a memo encodes.
pub open spec fn memo_prev(memo: Seq<u8>) -> Option<[u8; 32]> {
    match lifecycle_memo(memo) {
        Some(m) => m.prev_rcm,
        None => None,
    }
}

/// The action a memo encodes, where the note binds it to the predecessor that
/// the memo discloses.
pub open spec fn valid_action(note: Note, cmx: [u8; 32], memo: Seq<u8>) -> Option<ValidActionView> {
    match (lifecycle_memo(memo), memo_prev(memo)) {
        (Some(m), Some(prev)) => match plain_opening(
            note.spec_parts(),
            cmx,
            m.action,
            m.name,
            m.ua,
            prev,
        ) {
            Some(opening) => Some(
                ValidActionView { action: m.action, name: m.name, ua: m.ua, rcm: opening.1 },
            ),
            None => None,
        },
        _ => None,
    }
}

/// Verifies a note against the binding its memo encodes.
pub fn verify_zns_action(note: &Note, cmx: [u8; 32], memo: &[u8]) -> (r: Option<ValidZnsAction>)
    ensures
        match r {
            Some(v) => valid_action(*note, cmx, memo@) == Some(v@),
            None => valid_action(*note, cmx, memo@) is None,
        },
{
    let m = match parse_memo(memo) {
        Some(m) => m,
        None => {
            return None;
        },
    };
    match m.prev_rcm {
        None => None,
        Some(prev) => match verify_binding(
            note,
            cmx,
            m.action,
            m.name.as_str(),
            m.ua.as_str(),
            &prev,
        ) {
            Some(rcm) => Some(ValidZnsAction { action: m.action, name: m.name, ua: m.ua, rcm }),
            None => None,
        },
    }
}

pub fn parse_prev_rcm_from_memo(memo: &[u8]) -> (r: Option<[u8; 32]>)
    ensures
        r == memo_prev(memo@),
{
    match parse_memo(memo) {
        Some(m) => m.prev_rcm,
        None => None,
    }
}

/// Accepts only decrypts whose memo encodes a canonical binding that
/// reconstructs the action's on-chain commitment.
pub struct ZnsCallback;

impl ZnsCallback {
    pub fn on_decrypt(&mut self, note: &Note, cmx: [u8; 32], memo: &[u8; 512]) -> (r: Option<ZnsHit>)
        ensures
            match r {
                Some(hit) => valid_action(*note, cmx, memo@) == Some(hit.valid@) && memo_prev(memo@)
                    == Some(hit.prev_rcm),
                None => valid_action(*note, cmx, memo@) is None,
            },
    {
        match verify_zns_action(note, cmx, memo.as_slice()) {
            None => None,
            Some(valid) => match parse_prev_rcm_from_memo(memo.as_slice()) {
                Some(prev_rcm) => Some(ZnsHit { valid, prev_rcm }),
                None => None,
            },
        }
    }
}

/// A memo that spells a statement with its predecessor, zero-padded, is a hit
/// exactly where the note's commitment opens to the statement under that
/// predecessor; the hit is the statement, with the `rcm` of the opening.
pub proof fn law_spelled_memos_hit(note: Note, cmx: [u8; 32], m: LifecycleView, prev: [u8; 32], pad: nat)
    requires
        is_statement(m),
        m.prev_rcm == Some(prev),
    ensures
        ({
            let memo = encode_utf8(joined(statement_fields(m))) + zeros(pad);
            let opening = plain_opening(note.spec_parts(), cmx, m.action, m.name, m.ua, prev);
            &&& memo_prev(memo) == Some(prev)
            &&& valid_action(note, cmx, memo) is Some <==> opening is Some
            &&& valid_action(note, cmx, memo) matches Some(v) ==> v.action == m.action && v.name == m.name
                && v.ua == m.ua && Some(v.rcm) == Some((opening->0).1)
        }),
{
    law_memo_reads_back(m, pad);
}

/// A memo without a predecessor, or that is no lifecycle memo, is no hit.
pub proof fn law_bare_memos_do_not_hit(note: Note, cmx: [u8; 32], memo: Seq<u8>)
    requires
        lifecycle_memo(memo) matches Some(m) ==> m.prev_rcm is None,
    ensures
        valid_action(note, cmx, memo) is None,
        memo_prev(memo) is None,
{
}

} // verus!
