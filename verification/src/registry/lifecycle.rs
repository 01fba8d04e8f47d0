//! Memo parsing and admission control for name lifecycle events.

use vstd::prelude::*;
use vstd::string::*;

use crate::kernel::{law_moves, prev_rcm_for, required_prev, Action, Tip};
use crate::memo::{lifecycle_memo, parse_memo, LifecycleView};
use crate::sync::observe::{DecryptedNote, DecryptedView};
use crate::text::{in_ua_namespace, shadows_ua_namespace};
use crate::verify::{fork_evidence, fork_witness, open_plain, plain_opening};

verus! {

/// Candidate fields parsed from a canonical lifecycle memo: untrusted until the
/// binding passes.
pub struct LifecycleClaim {
    pub action: Action,
    pub name: String,
    pub ua: String,
    /// The memo's witness; the transition uses the tip's predecessor, not this
    /// field.
    pub memo_prev_rcm: Option<[u8; 32]>,
}

impl View for LifecycleClaim {
    type V = LifecycleView;

    open spec fn view(&self) -> LifecycleView {
        LifecycleView {
            action: self.action,
            name: self.name@,
            ua: self.ua@,
            prev_rcm: self.memo_prev_rcm,
        }
    }
}

/// A name note's canonical memo discloses its predecessor, and its name is
/// outside the address namespace.
pub open spec fn lifecycle_claim(memo: Seq<u8>) -> Option<LifecycleView> {
    match lifecycle_memo(memo) {
        Some(m) => if m.prev_rcm is Some && !in_ua_namespace(m.name) {
            Some(m)
        } else {
            None
        },
        None => None,
    }
}

/// Extract indexing claims from a memo. Does not admit a name note.
pub fn lifecycle_claim_from_memo(memo: &[u8]) -> (r: Option<LifecycleClaim>)
    ensures
        match r {
            Some(c) => lifecycle_claim(memo@) == Some(c@),
            None => lifecycle_claim(memo@) is None,
        },
{
    match parse_memo(memo) {
        None => None,
        Some(m) => {
            if m.prev_rcm.is_none() || shadows_ua_namespace(m.name.as_str()) {
                return None;
            }
            Some(
                LifecycleClaim { action: m.action, name: m.name, ua: m.ua, memo_prev_rcm: m.prev_rcm },
            )
        },
    }
}

/// What an admitted note is recorded with: its predecessor and its opening.
pub open spec fn admitted(claim: LifecycleView, n: DecryptedView, tip: Option<Tip>) -> Option<
    ([u8; 32], [u8; 32], [u8; 32]),
> {
    match required_prev(tip, claim.action) {
        None => None,
        Some(prev) => match plain_opening(n.parts, n.cmx, claim.action, claim.name, claim.ua, prev) {
            None => None,
            Some(opening) => Some((prev, opening.0, opening.1)),
        },
    }
}

/// Admission gate: legal transition on our per-name chain, and the binding to
/// the on-chain `cmx`. Returns `(prev_rcm, psi, rcm)`.
pub fn try_admit_name_note(claim: &LifecycleClaim, n: &DecryptedNote, tip: Option<&Tip>) -> (r: Option<
    ([u8; 32], [u8; 32], [u8; 32]),
>)
    ensures
        r == admitted(
            claim@,
            n@,
            match tip {
                Some(t) => Some(*t),
                None => None,
            },
        ),
{
    match prev_rcm_for(tip, claim.action) {
        None => None,
        Some(prev) => match open_plain(
            &n.parts,
            &n.cmx,
            claim.action,
            claim.name.as_str(),
            claim.ua.as_str(),
            &prev,
        ) {
            None => None,
            Some((psi, rcm)) => Some((prev, psi, rcm)),
        },
    }
}

/// The witness under which a note verifies although our tip calls for another.
pub open spec fn registry_fork(claim: LifecycleView, n: DecryptedView, tip: Option<Tip>) -> Option<
    ([u8; 32], [u8; 32]),
> {
    match required_prev(tip, claim.action) {
        None => None,
        Some(prev) => match fork_witness(
            n.parts,
            n.cmx,
            claim.action,
            claim.name,
            claim.ua,
            claim.prev_rcm,
            prev,
        ) {
            Some(claimed) => Some((claimed, prev)),
            None => None,
        },
    }
}

/// If the binding failed but the memo's witness would verify, there may be a
/// registry fork: the claimed predecessor and the tip's, to be reported.
pub fn warn_registry_fork(claim: &LifecycleClaim, n: &DecryptedNote, tip: Option<&Tip>) -> (r: Option<
    ([u8; 32], [u8; 32]),
>)
    ensures
        r == registry_fork(
            claim@,
            n@,
            match tip {
                Some(t) => Some(*t),
                None => None,
            },
        ),
{
    match prev_rcm_for(tip, claim.action) {
        None => None,
        Some(prev) => match fork_evidence(
            &n.parts,
            &n.cmx,
            claim.action,
            claim.name.as_str(),
            claim.ua.as_str(),
            claim.memo_prev_rcm,
            &prev,
        ) {
            Some(claimed) => Some((claimed, prev)),
            None => None,
        },
    }
}

/// A note that is admitted is a legal move whose opening is derived from the
/// tip's predecessor; fork evidence always names another predecessor.
pub proof fn law_fork_evidence_names_another_predecessor(
    claim: LifecycleView,
    n: DecryptedView,
    tip: Option<Tip>,
)
    ensures
        registry_fork(claim, n, tip) matches Some(f) ==> f.0 != f.1 && claim.prev_rcm == Some(f.0)
            && required_prev(tip, claim.action) == Some(f.1),
{
}

/// A memo makes a claim exactly where it is a lifecycle memo that discloses its
/// predecessor, for a name outside the address namespace; the claim is what the
/// memo states.
pub proof fn law_claims_are_disclosing_memos(memo: Seq<u8>)
    ensures
        lifecycle_claim(memo) is Some <==> (lifecycle_memo(memo) matches Some(m) && m.prev_rcm is Some
            && !in_ua_namespace(m.name)),
        lifecycle_claim(memo) matches Some(c) ==> lifecycle_memo(memo) == Some(c),
{
}

/// A note is admitted exactly where its action moves from the name's tip, and
/// its commitment opens under the predecessor that the move extends: zero bytes
/// for a claim of a name that is not live, the tip's `rcm` for a change of a live
/// one, whatever action brought it there.
pub proof fn law_admission_is_exact(
    claim: LifecycleView,
    n: DecryptedView,
    tip: Option<Tip>,
    prev: [u8; 32],
    psi: [u8; 32],
    rcm: [u8; 32],
)
    ensures
        admitted(claim, n, tip) == Some((prev, psi, rcm)) <==> {
            &&& if claim.action == Action::Claim {
                (tip is None || tip->0.action == Action::Release) && forall|i: int|
                    0 <= i < 32 ==> #[trigger] prev@[i] == 0
            } else {
                tip is Some && tip->0.action != Action::Release && tip->0.rcm == prev
            }
            &&& plain_opening(n.parts, n.cmx, claim.action, claim.name, claim.ua, prev) == Some((psi, rcm))
        },
{
    law_moves(tip, claim.action, prev);
}

/// There is fork evidence exactly where the action fits the tip and the note
/// opens under another predecessor that its memo discloses.
pub proof fn law_fork_evidence_is_exact(
    claim: LifecycleView,
    n: DecryptedView,
    tip: Option<Tip>,
    claimed: [u8; 32],
    expected: [u8; 32],
)
    ensures
        registry_fork(claim, n, tip) == Some((claimed, expected)) <==> required_prev(tip, claim.action)
            == Some(expected) && claim.prev_rcm == Some(claimed) && claimed != expected && plain_opening(
            n.parts,
            n.cmx,
            claim.action,
            claim.name,
            claim.ua,
            claimed,
        ) is Some,
{
}

} // verus!
