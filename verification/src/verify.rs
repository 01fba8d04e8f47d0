//! Binding verification.
//!
//! The resolver can be stale or omit, but cannot forge: [`verify_binding`]
//! re-derives `(ψ, rcm)` from the claimed `(action, name, ua, prev_rcm)` and
//! recomputes the note commitment, comparing it to the one on chain. The
//! predecessor comes from the resolver's own reconstructed tip, so a match
//! proves the binding and that the action extends the name's chain.

use vstd::prelude::*;
use vstd::string::*;

use crate::kernel::{bound_opening, open_binding, Action, Note, NoteParts, Tip};
use crate::memo::LifecycleView;
use crate::text::eq32;

verus! {

/// A name's current index entry.
#[derive(Debug, Clone, PartialEq, Eq)]
pub struct NameChainEntry {
    pub name: String,
    /// The address bound to it (empty once released).
    pub ua: String,
    /// `rcm` of the latest name note: the predecessor of the next action.
    pub rcm: [u8; 32],
    pub last_action: Action,
}

#[verifier::ext_equal]
pub struct EntryView {
    pub name: Seq<char>,
    pub ua: Seq<char>,
    pub rcm: [u8; 32],
    pub last_action: Action,
}

impl View for NameChainEntry {
    type V = EntryView;

    open spec fn view(&self) -> EntryView {
        EntryView {
            name: self.name@,
            ua: self.ua@,
            rcm: self.rcm,
            last_action: self.last_action,
        }
    }
}

impl EntryView {
    pub open spec fn tip(self) -> Tip {
        Tip { action: self.last_action, rcm: self.rcm }
    }
}

impl NameChainEntry {
    /// The entry as the tip that the chain rule reads.
    pub fn tip(&self) -> (r: Tip)
        ensures
            r == self@.tip(),
    {
        Tip { action: self.last_action, rcm: self.rcm }
    }
}

/// The opening of an action that carries no expiry, where the note binds it.
pub open spec fn plain_opening(
    parts: NoteParts,
    cmx: [u8; 32],
    action: Action,
    name: Seq<char>,
    ua: Seq<char>,
    prev_rcm: [u8; 32],
) -> Option<([u8; 32], [u8; 32])> {
    bound_opening(parts, cmx, action, name, ua, "none"@, prev_rcm)
}

/// An action without an expiry is bound with the word `none` in its place.
pub proof fn law_plain_actions_never_expire(
    parts: NoteParts,
    cmx: [u8; 32],
    action: Action,
    name: Seq<char>,
    ua: Seq<char>,
    prev_rcm: [u8; 32],
)
    ensures
        plain_opening(parts, cmx, action, name, ua, prev_rcm) == bound_opening(
            parts,
            cmx,
            action,
            name,
            ua,
            seq!['n', 'o', 'n', 'e'],
            prev_rcm,
        ),
{
    reveal_strlit("none");
    assert("none"@ =~= seq!['n', 'o', 'n', 'e']);
}

/// The `(ψ, rcm)` of the action, where the note's commitment under it is the
/// one on chain.
pub fn open_plain(
    parts: &NoteParts,
    on_chain_cmx: &[u8; 32],
    action: Action,
    name: &str,
    ua: &str,
    prev_rcm: &[u8; 32],
) -> (r: Option<([u8; 32], [u8; 32])>)
    ensures
        r == plain_opening(*parts, *on_chain_cmx, action, name@, ua@, *prev_rcm),
{
    open_binding(parts, on_chain_cmx, action, name, ua, "none", prev_rcm)
}

/// Verify that a scanned name note binds `(action, name, ua)` to `prev_rcm`,
/// returning its `rcm` (the next action's `prev_rcm`) on success. `None` means
/// the note does not bind to this claim under this predecessor: a forgery, a
/// stale tip, or not a name note.
pub fn verify_binding(
    note: &Note,
    on_chain_cmx: [u8; 32],
    action: Action,
    name: &str,
    ua: &str,
    prev_rcm: &[u8; 32],
) -> (r: Option<[u8; 32]>)
    ensures
        match plain_opening(note.spec_parts(), on_chain_cmx, action, name@, ua@, *prev_rcm) {
            Some(opening) => r == Some(opening.1),
            None => r is None,
        },
{
    match open_plain(&note.parts(), &on_chain_cmx, action, name, ua, prev_rcm) {
        Some((_, rcm)) => Some(rcm),
        None => None,
    }
}

/// The predecessor a note discloses, where the note binds to it and the tip
/// calls for another: evidence of a registry fork.
pub open spec fn fork_witness(
    parts: NoteParts,
    cmx: [u8; 32],
    action: Action,
    name: Seq<char>,
    ua: Seq<char>,
    disclosed: Option<[u8; 32]>,
    expected: [u8; 32],
) -> Option<[u8; 32]> {
    match disclosed {
        Some(p) => if p != expected && plain_opening(parts, cmx, action, name, ua, p) is Some {
            Some(p)
        } else {
            None
        },
        None => None,
    }
}

/// Tells garbage from equivocation after a binding mismatch: a note that
/// verifies under its own disclosed witness while failing under the tip was
/// minted off a different predecessor.
pub fn fork_evidence(
    parts: &NoteParts,
    on_chain_cmx: &[u8; 32],
    action: Action,
    name: &str,
    ua: &str,
    disclosed: Option<[u8; 32]>,
    expected: &[u8; 32],
) -> (r: Option<[u8; 32]>)
    ensures
        r == fork_witness(*parts, *on_chain_cmx, action, name@, ua@, disclosed, *expected),
{
    match disclosed {
        Some(p) => {
            if eq32(&p, expected) {
                return None;
            }
            match open_plain(parts, on_chain_cmx, action, name, ua, &p) {
                Some(_) => Some(p),
                None => None,
            }
        },
        None => None,
    }
}

/// Evidence of a registry fork: a note that extends another predecessor than
/// the tip.
#[derive(Debug, Clone)]
pub struct Fork {
    pub name: String,
    pub height: u32,
    /// The predecessor that the note discloses, and under which it verifies.
    pub claimed: [u8; 32],
    /// The predecessor that the tip calls for.
    pub expected: [u8; 32],
}

#[verifier::ext_equal]
pub struct ForkView {
    pub name: Seq<char>,
    pub height: u32,
    pub claimed: [u8; 32],
    pub expected: [u8; 32],
}

impl View for Fork {
    type V = ForkView;

    open spec fn view(&self) -> ForkView {
        ForkView {
            name: self.name@,
            height: self.height,
            claimed: self.claimed,
            expected: self.expected,
        }
    }
}

/// The fork that a note with this memo is evidence of, where its tip calls for
/// `expected`: the note does not verify under it, and verifies under the
/// predecessor it discloses.
pub open spec fn fork_of(
    parts: NoteParts,
    cmx: [u8; 32],
    m: LifecycleView,
    height: u32,
    expected: [u8; 32],
) -> Option<ForkView> {
    if plain_opening(parts, cmx, m.action, m.name, m.ua, expected) is Some {
        None
    } else {
        match fork_witness(parts, cmx, m.action, m.name, m.ua, m.prev_rcm, expected) {
            Some(claimed) => Some(ForkView { name: m.name, height, claimed, expected }),
            None => None,
        }
    }
}

/// A note is fork evidence exactly where it verifies under the predecessor it
/// discloses and not under the one its tip calls for.
pub proof fn law_fork_evidence(
    parts: NoteParts,
    cmx: [u8; 32],
    m: LifecycleView,
    height: u32,
    expected: [u8; 32],
)
    ensures
        fork_of(parts, cmx, m, height, expected) is Some <==> plain_opening(
            parts,
            cmx,
            m.action,
            m.name,
            m.ua,
            expected,
        ) is None && (m.prev_rcm matches Some(p) && plain_opening(
            parts,
            cmx,
            m.action,
            m.name,
            m.ua,
            p,
        ) is Some),
        fork_of(parts, cmx, m, height, expected) matches Some(f) ==> f.name == m.name && f.height == height
            && m.prev_rcm == Some(f.claimed) && f.expected == expected && f.claimed != f.expected,
{
}

/// What a note comes to.
pub(crate) enum Outcome<R> {
    /// Nothing: it is no name note, or does not fit.
    Ignored,
    /// It is recorded.
    Accepted(R),
    /// It is evidence of a fork.
    Forked(Fork),
}

} // verus!
