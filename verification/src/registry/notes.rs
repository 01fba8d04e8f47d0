//! Name-note admission checks: the chain rule and binding verification.

use vstd::prelude::*;
use vstd::string::*;

use crate::kernel::{
    bound_opening, open_binding, prev_rcm_for, required_prev, Action, Note, Tip, ZERO_PREV_RCM,
};
use crate::text::eq32;

verus! {

/// A name note as its memo states it. A claim discloses no predecessor, a
/// release carries no expiry.
pub struct ParsedNote {
    pub action: Action,
    pub name: String,
    pub ua: String,
    pub expires_at: Option<String>,
    pub prev_rcm: Option<[u8; 32]>,
}

#[verifier::ext_equal]
pub struct NoteView {
    pub action: Action,
    pub name: Seq<char>,
    pub ua: Seq<char>,
    pub expires_at: Option<Seq<char>>,
    pub prev_rcm: Option<[u8; 32]>,
}

impl View for ParsedNote {
    type V = NoteView;

    open spec fn view(&self) -> NoteView {
        NoteView {
            action: self.action,
            name: self.name@,
            ua: self.ua@,
            expires_at: match self.expires_at {
                Some(e) => Some(e@),
                None => None,
            },
            prev_rcm: self.prev_rcm,
        }
    }
}

impl NoteView {
    /// The expiry as it is hashed and recorded: a release, which carries none,
    /// is recorded as `none`.
    pub open spec fn expiry(self) -> Seq<char> {
        match self.expires_at {
            Some(e) => e,
            None => "none"@,
        }
    }

    /// The predecessor the note discloses; a claim stands for the zero one.
    pub open spec fn disclosed_prev(self) -> [u8; 32] {
        match self.prev_rcm {
            Some(p) => p,
            None => ZERO_PREV_RCM,
        }
    }
}

impl ParsedNote {
    pub fn expiry(&self) -> (r: String)
        ensures
            r@ == self@.expiry(),
    {
        match &self.expires_at {
            Some(e) => e.clone(),
            None => "none".to_string(),
        }
    }

    pub fn disclosed_prev(&self) -> (r: [u8; 32])
        ensures
            r == self@.disclosed_prev(),
    {
        match self.prev_rcm {
            Some(p) => p,
            None => ZERO_PREV_RCM,
        }
    }
}

/// What `zns_verify::NameNote::parse` reads out of a memo, the memo zero-padded
/// by `zns_verify::Memo::from_bytes`; `None` where either refuses it.
pub uninterp spec fn parsed_note(memo: Seq<u8>) -> Option<NoteView>;

/// Calls `zns_verify::NameNote::parse`. The contract claims that the note read
/// is a function of the memo bytes, that memos over 512 bytes are refused, that
/// a name and an address are never empty, and that exactly the claims carry no
/// predecessor and exactly the releases no expiry.
#[verifier::external_body]
pub(crate) fn parse_note(memo: &[u8]) -> (r: Option<ParsedNote>)
    ensures
        match r {
            Some(n) => parsed_note(memo@) == Some(n@),
            None => parsed_note(memo@) is None,
        },
        memo@.len() > 512 ==> r is None,
        r matches Some(n) ==> n@.name.len() > 0 && n@.ua.len() > 0,
        r matches Some(n) ==> (n@.action == Action::Claim <==> n@.prev_rcm is None),
        r matches Some(n) ==> (n@.action == Action::Release <==> n@.expires_at is None),
{
    let memo = zns_verify::Memo::from_bytes(memo).ok()?;
    let note = zns_verify::NameNote::parse(&memo).ok()?;
    Some(ParsedNote {
        action: match note.action() {
            zns_verify::Action::Claim => Action::Claim,
            zns_verify::Action::Update => Action::Update,
            zns_verify::Action::Release => Action::Release,
        },
        name: note.name().as_str().to_string(),
        ua: note.ua().as_str().to_string(),
        expires_at: note.expires_at().map(|e| e.field_bytes().to_string()),
        prev_rcm: note.prev_rcm().map(|p| *p.as_bytes()),
    })
}

/// A decrypted output whose commitment is still to be verified.
#[derive(Clone, Copy)]
pub struct RelaxedIronwoodOutput {
    /// The action's position in its transaction.
    pub index: usize,
    pub note: Note,
    /// The commitment the action published.
    pub cmx: [u8; 32],
    /// The nullifier the action revealed, of the note it consumed.
    pub consumed: [u8; 32],
    pub memo: Option<[u8; 512]>,
    /// Whether the registry's own outgoing key recovers the output.
    pub is_sent: bool,
    /// The nullifier of the note under its name-note opening, where it has one.
    /// Only the registry's viewing key derives it.
    pub nullifier: Option<[u8; 32]>,
}

/// The predecessor a note extends, where the one it discloses is the one its
/// name's tip calls for.
pub open spec fn extended_prev(tip: Option<Tip>, note: NoteView) -> Option<[u8; 32]> {
    let expected = required_prev(tip, note.action);
    if expected == Some(note.disclosed_prev()) {
        expected
    } else {
        None
    }
}

/// Checks the chain rule: the disclosed `prev_rcm` must extend the current tip.
/// Returns the expected `prev_rcm` on success.
pub fn check_chain_rule(prev: Option<&Tip>, note: &ParsedNote) -> (r: Option<[u8; 32]>)
    ensures
        r == extended_prev(
            match prev {
                Some(t) => Some(*t),
                None => None,
            },
            note@,
        ),
{
    match prev_rcm_for(prev, note.action) {
        Some(expected) => if eq32(&expected, &note.disclosed_prev()) {
            Some(expected)
        } else {
            None
        },
        None => None,
    }
}

/// The opening of a note, where it reproduces the published commitment.
pub open spec fn note_opening(
    note: NoteView,
    output: RelaxedIronwoodOutput,
) -> Option<([u8; 32], [u8; 32])> {
    bound_opening(
        output.note.spec_parts(),
        output.cmx,
        note.action,
        note.name,
        note.ua,
        note.expiry(),
        note.disclosed_prev(),
    )
}

/// Verifies a candidate's binding: recomputes the commitment from the parsed
/// transition and the note's parameters, and demands equality with the
/// published `cmx`. Returns the re-derived opening `(ψ, rcm)`.
pub fn verify_commitment(note: &ParsedNote, output: &RelaxedIronwoodOutput) -> (r: Option<
    ([u8; 32], [u8; 32]),
>)
    ensures
        r == note_opening(note@, *output),
{
    let expiry = note.expiry();
    open_binding(
        &output.note.parts(),
        &output.cmx,
        note.action,
        note.name.as_str(),
        note.ua.as_str(),
        expiry.as_str(),
        &note.disclosed_prev(),
    )
}

/// The opening of an output's note, where its memo is a name note's and the note
/// reproduces the published commitment.
pub open spec fn memo_opening(output: RelaxedIronwoodOutput) -> Option<([u8; 32], [u8; 32])> {
    match output.memo {
        Some(memo) => match parsed_note(memo@) {
            Some(note) => note_opening(note, output),
            None => None,
        },
        None => None,
    }
}

/// The opening that the nullifier of an output's note is derived from.
pub fn opening_of(output: &RelaxedIronwoodOutput) -> (r: Option<([u8; 32], [u8; 32])>)
    ensures
        r == memo_opening(*output),
{
    match &output.memo {
        Some(memo) => match parse_note(memo.as_slice()) {
            Some(note) => verify_commitment(&note, output),
            None => None,
        },
        None => None,
    }
}

/// The chain rule admits a note exactly where the move fits the tip and the
/// note discloses the predecessor the tip calls for.
pub proof fn law_chain_rule(tip: Option<Tip>, note: NoteView)
    ensures
        extended_prev(tip, note) is Some <==> required_prev(tip, note.action) == Some(
            note.disclosed_prev(),
        ),
        extended_prev(tip, note) matches Some(p) ==> p == note.disclosed_prev(),
{
}

} // verus!
