//! The protocol kernel: lifecycle actions, the per-name chain rule, and the
//! commitment derivation every binding check rests on.
//!
//! The derivation itself (BLAKE2b, Sinsemilla, the Pallas curve) and the name
//! note grammar belong to `zns-verify` and `pasta_curves`. Their results appear
//! here under names, and the rules over them are stated and proved.

use group::ff::PrimeField;
use group::{Group, GroupEncoding};
use pasta_curves::arithmetic::CurveExt;
use vstd::arithmetic::power::{lemma_pow0, pow};
use vstd::prelude::*;
use vstd::slice::slice_subrange;
use vstd::string::*;
use vstd::utf8::*;

use crate::text::{as_array32, eq32, lemma_array32_of, lemma_as_array32, text_eq};

verus! {

/// A lifecycle action on a name.
#[derive(Clone, Copy, Debug, PartialEq, Eq, Structural)]
pub enum Action {
    /// Point a name to an address.
    Claim,
    /// Rebind a name to a new address.
    Update,
    /// End a name's binding.
    Release,
}

impl Action {
    /// The canonical spelling: in memos, in hash inputs, and in storage.
    pub open spec fn text(self) -> Seq<char> {
        match self {
            Action::Claim => "claim"@,
            Action::Update => "update"@,
            Action::Release => "release"@,
        }
    }

    pub fn as_str(self) -> (s: &'static str)
        ensures
            s@ == self.text(),
    {
        match self {
            Action::Claim => "claim",
            Action::Update => "update",
            Action::Release => "release",
        }
    }

    /// The action spelled `s`, case-sensitive.
    pub fn from_text(s: &str) -> (r: Option<Action>)
        ensures
            r == action_of(s@),
    {
        if text_eq(s, "claim") {
            Some(Action::Claim)
        } else if text_eq(s, "update") {
            Some(Action::Update)
        } else if text_eq(s, "release") {
            Some(Action::Release)
        } else {
            None
        }
    }
}

/// The action with the canonical spelling `s`, if there is one.
pub open spec fn action_of(s: Seq<char>) -> Option<Action> {
    if s == "claim"@ {
        Some(Action::Claim)
    } else if s == "update"@ {
        Some(Action::Update)
    } else if s == "release"@ {
        Some(Action::Release)
    } else {
        None
    }
}

/// Spelling an action and reading the spelling back gives the action; the
/// spellings are distinct.
pub proof fn law_action_spelling_round_trips(a: Action)
    ensures
        action_of(a.text()) == Some(a),
{
    reveal_strlit("claim");
    reveal_strlit("update");
    reveal_strlit("release");
    assert("claim"@.len() == 5 && "update"@.len() == 6 && "release"@.len() == 7);
}

/// The predecessor a claim extends.
pub const ZERO_PREV_RCM: [u8; 32] = [
    0, 0, 0, 0, 0, 0, 0, 0, 0, 0, 0, 0, 0, 0, 0, 0, 0, 0, 0, 0, 0, 0, 0, 0, 0, 0, 0, 0, 0, 0, 0, 0,
];

/// The latest action of a name's chain and the `rcm` its successor extends.
#[derive(Clone, Copy, Debug, PartialEq, Eq)]
pub struct Tip {
    pub action: Action,
    pub rcm: [u8; 32],
}

/// The predecessor that `action` must extend on a name whose tip is `tip`: a
/// claim starts a fresh chain on an unseen or released name, an update or a
/// release extends a live tip. `None` where the action does not fit.
pub open spec fn required_prev(tip: Option<Tip>, action: Action) -> Option<[u8; 32]> {
    match (action, tip) {
        (Action::Claim, None) => Some(ZERO_PREV_RCM),
        (Action::Claim, Some(t)) => if t.action == Action::Release {
            Some(ZERO_PREV_RCM)
        } else {
            None
        },
        (_, Some(t)) => if t.action != Action::Release {
            Some(t.rcm)
        } else {
            None
        },
        (_, None) => None,
    }
}

pub fn prev_rcm_for(tip: Option<&Tip>, action: Action) -> (r: Option<[u8; 32]>)
    ensures
        r == required_prev(
            match tip {
                Some(t) => Some(*t),
                None => None,
            },
            action,
        ),
{
    match tip {
        None => match action {
            Action::Claim => Some(ZERO_PREV_RCM),
            _ => None,
        },
        Some(t) => match action {
            Action::Claim => if t.action == Action::Release {
                Some(ZERO_PREV_RCM)
            } else {
                None
            },
            _ => if t.action != Action::Release {
                Some(t.rcm)
            } else {
                None
            },
        },
    }
}

/// On every name exactly one of the two moves is open: claiming it, or
/// updating and releasing it.
pub proof fn law_one_move_fits(tip: Option<Tip>)
    ensures
        required_prev(tip, Action::Update) == required_prev(tip, Action::Release),
        required_prev(tip, Action::Claim).is_some() != required_prev(tip, Action::Update).is_some(),
{
}

/// A released name is free: a claim of it starts from the zero predecessor,
/// and nothing else extends it.
pub proof fn law_released_name_can_be_claimed(rcm: [u8; 32])
    ensures
        required_prev(Some(Tip { action: Action::Release, rcm }), Action::Claim) == Some(ZERO_PREV_RCM),
        required_prev(Some(Tip { action: Action::Release, rcm }), Action::Update) is None,
        required_prev(Some(Tip { action: Action::Release, rcm }), Action::Release) is None,
{
}

/// A move extends `prev` exactly where it is a claim of an unseen or released
/// name from 32 zero bytes, or an update or a release of a live name from its
/// `rcm`, whatever brought the name there.
pub proof fn law_moves(tip: Option<Tip>, action: Action, prev: [u8; 32])
    ensures
        required_prev(tip, action) == Some(prev) <==> if action == Action::Claim {
            (tip is None || tip->0.action == Action::Release) && forall|i: int|
                0 <= i < 32 ==> #[trigger] prev@[i] == 0
        } else {
            tip is Some && tip->0.action != Action::Release && tip->0.rcm == prev
        },
{
    let zero = ZERO_PREV_RCM;
    assert forall|i: int| 0 <= i < 32 implies #[trigger] zero@[i] == 0 by {}
    if forall|i: int| 0 <= i < 32 ==> #[trigger] prev@[i] == 0 {
        assert(prev@ =~= zero@);
        assert(prev =~= zero);
    }
}

// ── the commitment derivation ───────────────────────────────────────────────

/// What `zns_verify::zns_psi_rcm` derives from a transition: `(ψ, rcm)`, each
/// in its canonical 32-byte form.
pub uninterp spec fn derived_opening(
    action: Seq<u8>,
    name: Seq<u8>,
    ua: Seq<u8>,
    expires_at: Seq<u8>,
    prev_rcm: [u8; 32],
) -> ([u8; 32], [u8; 32]);

/// What `zns_verify::note_commitment_cmx` computes from a note's components and
/// opening, in 32-byte form; `None` where a component is not a canonical field
/// element or the commitment is the identity point.
pub uninterp spec fn note_commitment(
    g_d: [u8; 32],
    pk_d: [u8; 32],
    value: u64,
    rho: [u8; 32],
    psi: [u8; 32],
    rcm: [u8; 32],
) -> Option<[u8; 32]>;

/// What `pasta_curves` gives for hashing a message to the Pallas curve in the
/// domain `z.cash:Orchard-gd`: the encoded point, and whether it is the
/// identity.
pub uninterp spec fn gd_point(message: Seq<u8>) -> ([u8; 32], bool);

/// Calls `zns_verify::zns_psi_rcm`. The contract claims that the pair it
/// derives, both parts in canonical bytes, is a function of the five arguments.
#[verifier::external_body]
fn zns_psi_rcm(
    action: &[u8],
    name: &[u8],
    ua: &[u8],
    expires_at: &[u8],
    prev_rcm: &[u8; 32],
) -> (r: ([u8; 32], [u8; 32]))
    ensures
        r == derived_opening(action@, name@, ua@, expires_at@, *prev_rcm),
{
    let (psi, rcm) = zns_verify::zns_psi_rcm(action, name, ua, expires_at, prev_rcm);
    (psi.to_repr(), rcm.to_repr())
}

/// Calls `zns_verify::note_commitment_cmx` on the decoded components. The
/// contract claims that the commitment, or its absence, is a function of the
/// six arguments.
#[verifier::external_body]
fn note_commitment_cmx(
    g_d: [u8; 32],
    pk_d: [u8; 32],
    value: u64,
    rho: [u8; 32],
    psi: [u8; 32],
    rcm: [u8; 32],
) -> (r: Option<[u8; 32]>)
    ensures
        r == note_commitment(g_d, pk_d, value, rho, psi, rcm),
{
    let rho = zns_verify::Rho::from_bytes(&rho)?;
    let psi = Option::from(pasta_curves::pallas::Base::from_repr(psi))?;
    let rcm = Option::from(pasta_curves::pallas::Scalar::from_repr(rcm))?;
    zns_verify::note_commitment_cmx(g_d, pk_d, value, rho, psi, rcm).map(|c| c.to_bytes())
}

/// Calls `pasta_curves::pallas::Point::hash_to_curve`. The contract claims that
/// the encoded point, and whether it is the identity, are functions of the
/// message.
#[verifier::external_body]
fn hash_to_gd(message: &[u8]) -> (r: ([u8; 32], bool))
    ensures
        r == gd_point(message@),
{
    let point = pasta_curves::pallas::Point::hash_to_curve("z.cash:Orchard-gd")(message);
    (point.to_bytes(), bool::from(point.is_identity()))
}

/// The little-endian value of a byte string.
pub open spec fn le_value(bytes: Seq<u8>) -> nat
    decreases bytes.len(),
{
    if bytes.len() == 0 {
        0
    } else {
        bytes[0] as nat + 256 * le_value(bytes.skip(1))
    }
}

/// The size of the Pallas base field.
pub open spec fn base_field_size() -> nat {
    0x40000000000000000000000000000000224698fc094cf91b992d30ed00000001nat
}

/// Calls `orchard::note::Nullifier::from_bytes`. The contract claims that it
/// accepts exactly the canonical encodings: the little-endian values below the
/// size of the Pallas base field.
#[verifier::external_body]
pub(crate) fn is_nullifier(bytes: &[u8; 32]) -> (r: bool)
    ensures
        r == (le_value(bytes@) < base_field_size()),
{
    bool::from(orchard::note::Nullifier::from_bytes(bytes).is_some())
}

/// The diversified base of an Orchard address: the hash of its diversifier, or
/// of the empty message where that is the identity.
pub open spec fn diversified_base(diversifier: Seq<u8>) -> [u8; 32] {
    if gd_point(diversifier).1 {
        gd_point(Seq::empty()).0
    } else {
        gd_point(diversifier).0
    }
}

pub fn diversify_hash(diversifier: &[u8]) -> (r: [u8; 32])
    ensures
        r == diversified_base(diversifier@),
{
    let (point, identity) = hash_to_gd(diversifier);
    if identity {
        let empty: [u8; 0] = [];
        let (fallback, _) = hash_to_gd(&empty);
        assert(empty@ =~= Seq::<u8>::empty());
        fallback
    } else {
        point
    }
}

/// The parts of a decrypted note that its commitment is computed from.
#[derive(Clone, Copy, Debug, PartialEq, Eq)]
pub struct NoteParts {
    /// The recipient's diversified base.
    pub g_d: [u8; 32],
    /// The recipient's transmission key.
    pub pk_d: [u8; 32],
    pub value: u64,
    pub rho: [u8; 32],
}

/// A decrypted note: what its binding is verified from.
#[derive(Clone, Copy, Debug, PartialEq, Eq)]
pub struct Note {
    /// The recipient's raw address: an 11-byte diversifier and the 32-byte
    /// transmission key.
    pub recipient: [u8; 43],
    pub value: u64,
    pub rho: [u8; 32],
}

impl Note {
    /// The parts of the note its commitment is computed from.
    pub open spec fn spec_parts(self) -> NoteParts {
        NoteParts {
            g_d: diversified_base(self.recipient@.subrange(0, 11)),
            pk_d: as_array32(self.recipient@.subrange(11, 43))->0,
            value: self.value,
            rho: self.rho,
        }
    }

    pub fn parts(&self) -> (r: NoteParts)
        ensures
            r == self.spec_parts(),
    {
        let raw: &[u8] = self.recipient.as_slice();
        let g_d = diversify_hash(slice_subrange(raw, 0, 11));
        let mut pk_d: [u8; 32] = [0u8; 32];
        let mut i: usize = 0;
        while i < 32
            invariant
                i <= 32,
                raw@ == self.recipient@,
                forall|j: int| 0 <= j < i ==> pk_d@[j] == raw@[11 + j],
            decreases 32 - i,
        {
            pk_d[i] = raw[11 + i];
            i += 1;
        }
        proof {
            assert(pk_d@ =~= self.recipient@.subrange(11, 43));
            lemma_as_array32(pk_d);
        }
        NoteParts { g_d, pk_d, value: self.value, rho: self.rho }
    }
}

/// The opening `(ψ, rcm)` of a transition, where the note's commitment under it
/// is `cmx`; `None` where it is another one or there is none.
pub open spec fn bound_opening(
    parts: NoteParts,
    cmx: [u8; 32],
    action: Action,
    name: Seq<char>,
    ua: Seq<char>,
    expires_at: Seq<char>,
    prev_rcm: [u8; 32],
) -> Option<([u8; 32], [u8; 32])> {
    let opening = derived_opening(
        encode_utf8(action.text()),
        encode_utf8(name),
        encode_utf8(ua),
        encode_utf8(expires_at),
        prev_rcm,
    );
    if note_commitment(parts.g_d, parts.pk_d, parts.value, parts.rho, opening.0, opening.1) == Some(
        cmx,
    ) {
        Some(opening)
    } else {
        None
    }
}

/// The note's commitment under an opening is `cmx`.
pub open spec fn commits(parts: NoteParts, opening: ([u8; 32], [u8; 32]), cmx: Seq<u8>) -> bool {
    note_commitment(parts.g_d, parts.pk_d, parts.value, parts.rho, opening.0, opening.1) matches Some(c)
        && c@ == cmx
}

/// Some note has the commitment `cmx` under an opening.
pub open spec fn is_committed(opening: ([u8; 32], [u8; 32]), cmx: Seq<u8>) -> bool {
    exists|parts: NoteParts| commits(parts, opening, cmx)
}

/// Re-derives `(ψ, rcm)` from the transition, recomputes the note commitment
/// and demands that it is the published `cmx`.
pub fn open_binding(
    parts: &NoteParts,
    cmx: &[u8; 32],
    action: Action,
    name: &str,
    ua: &str,
    expires_at: &str,
    prev_rcm: &[u8; 32],
) -> (r: Option<([u8; 32], [u8; 32])>)
    ensures
        r == bound_opening(*parts, *cmx, action, name@, ua@, expires_at@, *prev_rcm),
{
    let (psi, rcm) = zns_psi_rcm(
        action.as_str().as_bytes(),
        name.as_bytes(),
        ua.as_bytes(),
        expires_at.as_bytes(),
        prev_rcm,
    );
    match note_commitment_cmx(parts.g_d, parts.pk_d, parts.value, parts.rho, psi, rcm) {
        Some(computed) => if eq32(&computed, cmx) {
            Some((psi, rcm))
        } else {
            None
        },
        None => None,
    }
}

/// A binding opens exactly where the note's commitment is the published one
/// under the pair derived from the transition's own fields, each as its bytes
/// and the action by its word; and it opens to that pair.
pub proof fn law_binding_opens_to_its_derivation(
    note: Note,
    cmx: [u8; 32],
    action: Action,
    name: Seq<char>,
    ua: Seq<char>,
    expires_at: Seq<char>,
    prev_rcm: [u8; 32],
    psi: [u8; 32],
    rcm: [u8; 32],
)
    requires
        derived_opening(
            encode_utf8(
                match action {
                    Action::Claim => "claim"@,
                    Action::Update => "update"@,
                    Action::Release => "release"@,
                },
            ),
            encode_utf8(name),
            encode_utf8(ua),
            encode_utf8(expires_at),
            prev_rcm,
        ) == (psi, rcm),
    ensures
        ({
            let opened = bound_opening(note.spec_parts(), cmx, action, name, ua, expires_at, prev_rcm);
            let parts = note.spec_parts();
            let commitment = note_commitment(parts.g_d, parts.pk_d, note.value, note.rho, psi, rcm);
            &&& opened is Some <==> commitment == Some(cmx)
            &&& opened matches Some(o) ==> o == (psi, rcm)
        }),
{
}

/// A note's parts are its own: the transmission key is the last 32 bytes of the
/// recipient, the base is the hash of the first 11, or of the empty message
/// where that is the identity.
pub proof fn law_note_parts(note: Note)
    ensures
        note.spec_parts().pk_d@ == note.recipient@.subrange(11, 43),
        note.spec_parts().value == note.value,
        note.spec_parts().rho == note.rho,
        ({
            let point = gd_point(note.recipient@.subrange(0, 11));
            &&& !point.1 ==> note.spec_parts().g_d == point.0
            &&& point.1 ==> note.spec_parts().g_d == gd_point(Seq::empty()).0
        }),
{
    lemma_array32_of(note.recipient@.subrange(11, 43));
}

/// The least significant byte comes first: a byte behind `n` others counts 256
/// to the power of `n` times its value.
pub proof fn law_values_are_little_endian(bytes: Seq<u8>, last: u8)
    ensures
        le_value(bytes.push(last)) == le_value(bytes) + last * pow(256, bytes.len()),
        le_value(Seq::empty()) == 0,
    decreases bytes.len(),
{
    let x = last as int;
    let whole = bytes.push(last);
    if bytes.len() == 0 {
        let one = pow(256, bytes.len());
        assert(one == 1) by {
            lemma_pow0(256);
        }
        assert(whole.skip(1).len() == 0);
        assert(le_value(whole.skip(1)) == 0);
        assert(x * one == x) by (nonlinear_arith)
            requires
                one == 1,
        ;
    } else {
        let rest = bytes.skip(1);
        law_values_are_little_endian(rest, last);
        assert(whole.skip(1) =~= rest.push(last));
        let p = pow(256, rest.len());
        let q = pow(256, bytes.len());
        assert(q == 256 * p) by {
            reveal(pow);
        }
        assert(x * q == 256 * (x * p)) by (nonlinear_arith)
            requires
                q == 256 * p,
        ;
    }
}

} // verus!
