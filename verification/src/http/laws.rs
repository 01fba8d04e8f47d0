//! What the answers tell: the rows of the index, and for a live name the proof
//! from its last claim to its tip.

use vstd::prelude::*;

use super::{
    asked_action, history, joined_link, joined_links, last_claim, law_links_need_all_material,
    law_segment_starts_at_last_claim, list_answer, page_limit, page_offset, registrations_page,
    rendered_entry, rendered_event, resolved, segment_of, since_height_of, upper, upper_text,
    wire_name, EventEntryView, ProofLinkView, RegistrationEntryView, ResolveView, RpcFault,
};
use crate::encoding::hex_text;
use crate::index::history::{law_history_is_a_hash_chain, rows_of};
use crate::index::laws::{chained, is_sound};
use crate::index::served::law_rows_are_served_as_recorded;
use crate::index::{
    current_bound, material_of, proof_row, read_chain_row, read_event, read_registration,
    row_name_order, ActionRow, ChainRowView, IndexView, ProofRowView, RegistrationView,
};
use crate::kernel::{action_of, law_action_spelling_round_trips, Action};
use crate::log::{chain_order, latest, lemma_history, lemma_latest, of_name};
use crate::order::{lemma_filter_keeps, lemma_sort_keeps, lemma_sort_of_sorted, page, sort_by};
use crate::store::lemma_read_all;
use crate::text::lemma_array32_of;

verus! {

/// The uppercase word an action goes by in answers.
pub open spec fn told_action(action: Seq<char>) -> Seq<char> {
    if action == "claim"@ {
        "CLAIM"@
    } else if action == "update"@ {
        "UPDATE"@
    } else {
        "RELEASE"@
    }
}

/// The entry tells the row: its name, address, transaction, height and action.
pub open spec fn tells_registration(e: RegistrationEntryView, row: ActionRow) -> bool {
    &&& e.name == row.record.name
    &&& e.address == row.record.ua
    &&& e.txid == hex_text(row.record.txid)
    &&& 0 <= row.record.height <= u32::MAX ==> e.height == row.record.height
    &&& e.last_action == told_action(row.record.action)
    &&& e.nonce == 0 && e.signature is None && e.listing is None
}

/// The entry tells the row, under the row's id; an empty address is none.
pub open spec fn tells_event(e: EventEntryView, row: ActionRow) -> bool {
    &&& e.id == row.id
    &&& e.name == row.record.name
    &&& e.action == told_action(row.record.action)
    &&& e.txid == hex_text(row.record.txid)
    &&& 0 <= row.record.height <= u32::MAX ==> e.height == row.record.height
    &&& row.record.ua.len() == 0 ==> e.ua is None
    &&& row.record.ua.len() > 0 ==> e.ua == Some(row.record.ua)
    &&& e.price is None && e.nonce == 0 && e.signature is None && e.pubkey is None
}

/// The link tells the row, and the proof material that is stored for its
/// transaction.
pub open spec fn tells_link(link: ProofLinkView, row: ActionRow, proofs: Seq<ProofRowView>) -> bool {
    &&& link.action == row.record.action
    &&& link.ua == row.record.ua
    &&& link.txid == hex_text(row.record.txid)
    &&& 0 <= row.record.height <= u32::MAX ==> link.height == row.record.height
    &&& 0 <= row.record.action_index <= usize::MAX ==> link.action_index == row.record.action_index
    &&& match proof_row(proofs, row.record.txid) {
        None => false,
        Some(p) => {
            &&& link.tx == hex_text(p.raw_tx)
            &&& link.header == hex_text(p.header)
            &&& 0 <= p.merkle_index <= u32::MAX ==> link.merkle_index == p.merkle_index
            &&& link.merkle_branch.len() == p.merkle_branch.len() / 32
            &&& forall|i: int|
                0 <= i < link.merkle_branch.len() ==> #[trigger] link.merkle_branch[i] == hex_text(
                    p.merkle_branch.subrange(32 * i, 32 * i + 32),
                )
        },
    }
}

proof fn lemma_told(a: Action)
    ensures
        told_action(a.text()) == wire_name(a),
{
    law_action_spelling_round_trips(a);
}

/// The spelling is that of its action.
proof fn lemma_spelled(text: Seq<char>)
    ensures
        action_of(text) matches Some(a) ==> a.text() == text && told_action(text) == wire_name(a),
{
    if let Some(a) = action_of(text) {
        lemma_told(a);
    }
}

proof fn lemma_entry_tells(log: Seq<ActionRow>, k: int)
    requires
        chained(log),
        0 <= k < log.len(),
    ensures
        read_registration()(log[k]) matches Ok(g) && tells_registration(rendered_entry()(g), log[k]),
        read_event()(log[k]) matches Ok(e) && tells_event(rendered_event()(e), log[k]),
{
    law_rows_are_served_as_recorded(log, k);
    lemma_spelled(log[k].record.action);
}

/// The history of a name is its rows, each read from its own.
proof fn lemma_history_reads(index: IndexView, name: Seq<char>)
    requires
        chained(index.actions),
    ensures
        history(index, name) matches Ok(v) && v.len() == rows_of(index.actions, name).len() && forall|k: int|
            0 <= k < v.len() ==> read_chain_row()(rows_of(index.actions, name)[k]) == Ok::<
                ChainRowView,
                crate::store::StoreError,
            >(#[trigger] v[k]) && index.actions.contains(rows_of(index.actions, name)[k]),
{
    let log = index.actions;
    let rows = rows_of(log, name);
    lemma_history(log, name);
    lemma_sort_of_sorted(rows, chain_order());
    lemma_read_all(rows, read_chain_row());
    let p = |r: ActionRow| log.contains(r);
    assert forall|i: int| 0 <= i < log.len() implies p(#[trigger] log[i]) by {}
    lemma_filter_keeps(log, of_name(name), p);
    assert forall|k: int| 0 <= k < rows.len() implies log.contains(#[trigger] rows[k]) && read_chain_row()(
        rows[k],
    ) is Ok by {
        assert(p(rows[k]));
        let i = choose|i: int| 0 <= i < log.len() && log[i] == rows[k];
        assert(is_sound(log[i].record));
    }
}

proof fn lemma_link_tells(log: Seq<ActionRow>, k: int, c: ChainRowView, proofs: Seq<ProofRowView>)
    requires
        chained(log),
        0 <= k < log.len(),
        read_chain_row()(log[k]) == Ok::<ChainRowView, crate::store::StoreError>(c),
    ensures
        c.txid@ == log[k].record.txid,
        c.action.text() == log[k].record.action,
        proof_row(proofs, c.txid@) matches Some(p) ==> tells_link(
            joined_link(c, material_of(p)),
            log[k],
            proofs,
        ),
{
    law_rows_are_served_as_recorded(log, k);
    lemma_spelled(log[k].record.action);
    if let Some(p) = proof_row(proofs, c.txid@) {
        let link = joined_link(c, material_of(p));
        assert forall|i: int| 0 <= i < link.merkle_branch.len() implies #[trigger] link.merkle_branch[i]
            == hex_text(p.merkle_branch.subrange(32 * i, 32 * i + 32)) by {
            lemma_array32_of(p.merkle_branch.subrange(32 * i, 32 * i + 32));
        }
    }
}

/// The link is joined from the row and its transaction's material.
spec fn joins(proofs: Seq<ProofRowView>, row: ChainRowView, link: ProofLinkView) -> bool {
    proof_row(proofs, row.txid@) is Some && link == joined_link(
        row,
        material_of(proof_row(proofs, row.txid@)->0),
    )
}

/// Each link is joined from its own row.
proof fn lemma_links(proofs: Seq<ProofRowView>, rows: Seq<ChainRowView>, links: Seq<ProofLinkView>)
    requires
        joined_links(proofs, rows) == Ok::<Seq<ProofLinkView>, RpcFault>(links),
    ensures
        links.len() == rows.len(),
        forall|i: int| 0 <= i < rows.len() ==> joins(proofs, rows[i], #[trigger] links[i]),
    decreases rows.len(),
{
    if rows.len() > 0 {
        let init = rows.drop_last();
        let before = joined_links(proofs, init)->Ok_0;
        let p = proof_row(proofs, rows.last().txid@);
        assert(joined_links(proofs, init) is Ok && p is Some);
        assert(links == before.push(joined_link(rows.last(), material_of(p->0))));
        lemma_links(proofs, init, before);
        assert forall|i: int| 0 <= i < rows.len() implies joins(proofs, rows[i], #[trigger] links[i]) by {
            if i < init.len() {
                assert(joins(proofs, init[i], before[i]));
            }
        }
    }
}

/// The answer to an exact-name query with its proof, by what is read.
proof fn lemma_resolved_record(
    index: IndexView,
    name: Seq<char>,
    limit: Option<u64>,
    offset: Option<u64>,
    g: RegistrationView,
    v: Seq<ChainRowView>,
)
    requires
        name.len() > 0,
        latest(index.actions, name) is Some,
        latest(index.actions, name)->0.record.action != "release"@,
        read_registration()(latest(index.actions, name)->0) == Ok::<
            RegistrationView,
            crate::store::StoreError,
        >(g),
        history(index, name) == Ok::<Seq<ChainRowView>, crate::store::StoreError>(v),
    ensures
        match joined_links(index.proof_material, segment_of(v)) {
            Err(e) => resolved(index, name, limit, offset, Some(true)) == Err::<ResolveView, RpcFault>(e),
            Ok(links) => resolved(index, name, limit, offset, Some(true)) == Ok::<ResolveView, RpcFault>(
                ResolveView::Record(rendered_entry()(g), Some(links)),
            ),
        },
{
}

/// The answer to an exact-name query with its proof, by the links of the name's
/// segment.
#[verifier::rlimit(40)]
proof fn lemma_resolved_with_proof(
    index: IndexView,
    name: Seq<char>,
    limit: Option<u64>,
    offset: Option<u64>,
)
    requires
        chained(index.actions),
        name.len() > 0,
        latest(index.actions, name) is Some,
        latest(index.actions, name)->0.record.action != "release"@,
        history(index, name) is Ok,
    ensures
        match joined_links(index.proof_material, segment_of(history(index, name)->Ok_0)) {
            Err(e) => resolved(index, name, limit, offset, Some(true)) == Err::<ResolveView, RpcFault>(e),
            Ok(links) => resolved(index, name, limit, offset, Some(true)) matches Ok(ResolveView::Record(
                e,
                Some(l),
            )) && l == links && tells_registration(e, latest(index.actions, name)->0),
        },
{
    let log = index.actions;
    lemma_latest(log, name);
    let tip = latest(log, name)->0;
    let t = choose|t: int| 0 <= t < log.len() && log[t] == tip;
    lemma_entry_tells(log, t);
    let g = read_registration()(tip)->Ok_0;
    lemma_resolved_record(index, name, limit, offset, g, history(index, name)->Ok_0);
}

/// The last claim among rows read from `rows` is where it is among them.
proof fn lemma_segment_starts(v: Seq<ChainRowView>, rows: Seq<ActionRow>, start: int)
    requires
        v.len() == rows.len(),
        forall|k: int| 0 <= k < v.len() ==> (#[trigger] v[k]).action.text() == rows[k].record.action,
        0 <= start < rows.len(),
        rows[start].record.action == "claim"@,
        forall|k: int| start < k < rows.len() ==> (#[trigger] rows[k]).record.action != "claim"@,
    ensures
        segment_of(v) == v.skip(start),
{
    law_segment_starts_at_last_claim(v);
    law_action_spelling_round_trips(Action::Claim);
    law_action_spelling_round_trips(v[start].action);
    assert(v[start].action == Action::Claim);
    assert(v[last_claim(v)].action == Action::Claim);
    if last_claim(v) > start {
        assert(rows[last_claim(v)].record.action != "claim"@);
    }
}

/// The links of a chain row's segment tell its rows, and are there exactly where
/// the rows' material is.
#[verifier::rlimit(40)]
proof fn lemma_segment_links(
    log: Seq<ActionRow>,
    proofs: Seq<ProofRowView>,
    v: Seq<ChainRowView>,
    rows: Seq<ActionRow>,
    start: int,
)
    requires
        chained(log),
        0 <= start <= rows.len(),
        v.len() == rows.len(),
        forall|k: int|
            0 <= k < v.len() ==> read_chain_row()(rows[k]) == Ok::<
                ChainRowView,
                crate::store::StoreError,
            >(#[trigger] v[k]) && log.contains(rows[k]),
    ensures
        forall|k: int| 0 <= k < v.len() ==> (#[trigger] v[k]).action.text() == rows[k].record.action,
        ({
            let stored = forall|k: int|
                start <= k < rows.len() ==> proof_row(proofs, (#[trigger] rows[k]).record.txid) is Some;
            match joined_links(proofs, v.skip(start)) {
                Err(e) => !stored && e == RpcFault::ProofUnavailable,
                Ok(links) => stored && links.len() == rows.len() - start && forall|i: int|
                    0 <= i < links.len() ==> tells_link(#[trigger] links[i], rows[start + i], proofs),
            }
        }),
{
    let seg = v.skip(start);
    assert forall|k: int| 0 <= k < v.len() implies (#[trigger] v[k]).txid@ == rows[k].record.txid
        && v[k].action.text() == rows[k].record.action by {
        let i = choose|i: int| 0 <= i < log.len() && log[i] == rows[k];
        lemma_link_tells(log, i, v[k], proofs);
    }
    law_links_need_all_material(proofs, seg);
    if joined_links(proofs, seg) is Ok {
        let links = joined_links(proofs, seg)->Ok_0;
        lemma_links(proofs, seg, links);
        assert forall|k: int| start <= k < rows.len() implies proof_row(
            proofs,
            (#[trigger] rows[k]).record.txid,
        ) is Some by {
            assert(seg[k - start] == v[k]);
            assert(proof_row(proofs, seg[k - start].txid@) is Some);
        }
        assert forall|i: int| 0 <= i < links.len() implies tells_link(
            #[trigger] links[i],
            rows[start + i],
            proofs,
        ) by {
            let k = start + i;
            assert(joins(proofs, seg[i], links[i]));
            assert(seg[i] == v[k]);
            let j = choose|j: int| 0 <= j < log.len() && log[j] == rows[k];
            lemma_link_tells(log, j, v[k], proofs);
        }
    } else {
        let i = choose|i: int| 0 <= i < seg.len() && proof_row(proofs, (#[trigger] seg[i]).txid@) is None;
        assert(seg[i] == v[start + i]);
        assert(proof_row(proofs, rows[start + i].record.txid) is None);
    }
}

/// The proof of a live name, asked for by its name, runs from its last claim,
/// the row at `start`, to its tip: one link per row, which tells that row and
/// the material stored for it. It is served exactly where the material of those
/// rows is stored, whatever is stored of the rows before them; otherwise the
/// request fails as one without material.
#[verifier::rlimit(40)]
pub proof fn law_proof_runs_from_the_last_claim(
    index: IndexView,
    name: Seq<char>,
    limit: Option<u64>,
    offset: Option<u64>,
    start: int,
)
    requires
        chained(index.actions),
        name.len() > 0,
        latest(index.actions, name) is Some,
        latest(index.actions, name)->0.record.action != "release"@,
        0 <= start < rows_of(index.actions, name).len(),
        rows_of(index.actions, name)[start].record.action == "claim"@,
        forall|k: int|
            start < k < rows_of(index.actions, name).len() ==> (#[trigger] rows_of(
                index.actions,
                name,
            )[k]).record.action != "claim"@,
    ensures
        ({
            let rows = rows_of(index.actions, name);
            let stored = forall|k: int|
                start <= k < rows.len() ==> proof_row(
                    index.proof_material,
                    (#[trigger] rows[k]).record.txid,
                ) is Some;
            let answer = resolved(index, name, limit, offset, Some(true));
            &&& rows.last() == latest(index.actions, name)->0
            &&& !stored ==> answer == Err::<ResolveView, RpcFault>(RpcFault::ProofUnavailable)
            &&& stored ==> (answer matches Ok(ResolveView::Record(e, Some(links))) && tells_registration(
                e,
                latest(index.actions, name)->0,
            ) && links.len() == rows.len() - start && forall|i: int|
                0 <= i < links.len() ==> tells_link(
                    #[trigger] links[i],
                    rows[start + i],
                    index.proof_material,
                ))
        }),
{
    let log = index.actions;
    let rows = rows_of(log, name);
    lemma_history(log, name);
    lemma_history_reads(index, name);
    let v = history(index, name)->Ok_0;
    lemma_segment_links(log, index.proof_material, v, rows, start);
    lemma_segment_starts(v, rows, start);
    assert(v.skip(start) == segment_of(v));
    lemma_resolved_with_proof(index, name, limit, offset);
}

/// Some row is the last claim of a name that has rows.
proof fn lemma_some_last_claim(rows: Seq<ActionRow>)
    requires
        rows.len() > 0,
        rows[0].record.action == "claim"@,
    ensures
        exists|s: int|
            0 <= s < rows.len() && (#[trigger] rows[s]).record.action == "claim"@ && forall|k: int|
                s < k < rows.len() ==> (#[trigger] rows[k]).record.action != "claim"@,
    decreases rows.len(),
{
    if rows.last().record.action == "claim"@ {
        assert(rows[rows.len() - 1].record.action == "claim"@);
    } else {
        let init = rows.drop_last();
        lemma_some_last_claim(init);
        let s = choose|s: int|
            0 <= s < init.len() && (#[trigger] init[s]).record.action == "claim"@ && forall|k: int|
                s < k < init.len() ==> (#[trigger] init[k]).record.action != "claim"@;
        assert(rows[s].record.action == "claim"@);
        assert forall|k: int| s < k < rows.len() implies (#[trigger] rows[k]).record.action != "claim"@ by {
            if k < init.len() {
                assert(init[k].record.action != "claim"@);
            }
        }
    }
}

/// The links start with a claim, hold no other, and end with the row `tip`.
pub open spec fn proves_since_claim(links: Seq<ProofLinkView>, tip: ActionRow) -> bool {
    &&& links.len() > 0
    &&& links[0].action == "claim"@
    &&& forall|i: int| 0 < i < links.len() ==> (#[trigger] links[i]).action != "claim"@
    &&& links.last().action == tip.record.action
    &&& links.last().ua == tip.record.ua
    &&& links.last().txid == hex_text(tip.record.txid)
    &&& 0 <= tip.record.height <= u32::MAX ==> links.last().height == tip.record.height
}

proof fn lemma_links_prove(
    links: Seq<ProofLinkView>,
    rows: Seq<ActionRow>,
    start: int,
    proofs: Seq<ProofRowView>,
)
    requires
        0 <= start < rows.len(),
        links.len() == rows.len() - start,
        rows[start].record.action == "claim"@,
        forall|k: int| start < k < rows.len() ==> (#[trigger] rows[k]).record.action != "claim"@,
        forall|i: int| 0 <= i < links.len() ==> tells_link(#[trigger] links[i], rows[start + i], proofs),
    ensures
        proves_since_claim(links, rows.last()),
{
    let n = links.len() - 1;
    assert(tells_link(links[0], rows[start + 0], proofs));
    assert(tells_link(links[n], rows[start + n], proofs));
    assert forall|i: int| 0 < i < links.len() implies (#[trigger] links[i]).action != "claim"@ by {
        assert(tells_link(links[i], rows[start + i], proofs));
        assert(rows[start + i].record.action != "claim"@);
    }
}

/// A live name, asked for with its proof, is answered with one that starts with
/// a claim, holds no other, and ends with the name's newest row; or with none
/// for want of material.
#[verifier::rlimit(40)]
pub proof fn law_served_proof_ends_at_the_tip(
    index: IndexView,
    name: Seq<char>,
    limit: Option<u64>,
    offset: Option<u64>,
)
    requires
        chained(index.actions),
        name.len() > 0,
        latest(index.actions, name) is Some,
        latest(index.actions, name)->0.record.action != "release"@,
    ensures
        match resolved(index, name, limit, offset, Some(true)) {
            Ok(ResolveView::Record(_, Some(links))) => proves_since_claim(
                links,
                latest(index.actions, name)->0,
            ),
            Ok(_) => false,
            Err(e) => e == RpcFault::ProofUnavailable,
        },
{
    let log = index.actions;
    let rows = rows_of(log, name);
    lemma_history(log, name);
    law_history_is_a_hash_chain(log, name);
    assert(rows.len() > 0);
    lemma_spelled(rows[0].record.action);
    lemma_some_last_claim(rows);
    let s = choose|s: int|
        0 <= s < rows.len() && (#[trigger] rows[s]).record.action == "claim"@ && forall|k: int|
            s < k < rows.len() ==> (#[trigger] rows[k]).record.action != "claim"@;
    law_proof_runs_from_the_last_claim(index, name, limit, offset, s);
    if let Ok(ResolveView::Record(e, Some(links))) = resolved(index, name, limit, offset, Some(true)) {
        lemma_links_prove(links, rows, s, index.proof_material);
    }
}

/// The whole history of a name, releases included, is proved link by link where
/// the material of every row is stored, and fails as one without material
/// otherwise.
pub proof fn law_chain_tells_every_row(index: IndexView, name: Seq<char>)
    requires
        chained(index.actions),
    ensures
        ({
            let rows = rows_of(index.actions, name);
            let stored = forall|k: int|
                0 <= k < rows.len() ==> proof_row(
                    index.proof_material,
                    (#[trigger] rows[k]).record.txid,
                ) is Some;
            history(index, name) matches Ok(v) && match joined_links(index.proof_material, v) {
                Err(e) => !stored && e == RpcFault::ProofUnavailable,
                Ok(links) => stored && links.len() == rows.len() && forall|k: int|
                    0 <= k < links.len() ==> tells_link(
                        #[trigger] links[k],
                        rows[k],
                        index.proof_material,
                    ),
            }
        }),
{
    lemma_history_reads(index, name);
    let v = history(index, name)->Ok_0;
    assert(v.skip(0) =~= v);
    lemma_segment_links(
        index.actions,
        index.proof_material,
        v,
        rows_of(index.actions, name),
        0,
    );
}

/// A live name resolves to its newest row, without a proof unless one is asked
/// for.
pub proof fn law_live_name_resolves_to_its_tip(
    index: IndexView,
    name: Seq<char>,
    limit: Option<u64>,
    offset: Option<u64>,
    with_proof: Option<bool>,
)
    requires
        chained(index.actions),
        name.len() > 0,
        latest(index.actions, name) is Some,
        latest(index.actions, name)->0.record.action != "release"@,
        with_proof != Some(true),
    ensures
        resolved(index, name, limit, offset, with_proof) matches Ok(ResolveView::Record(e, None))
            && tells_registration(e, latest(index.actions, name)->0),
{
    let log = index.actions;
    lemma_latest(log, name);
    let tip = latest(log, name)->0;
    let t = choose|t: int| 0 <= t < log.len() && log[t] == tip;
    lemma_entry_tells(log, t);
}

/// The listing an answer is a page of: every live name for an empty query, and
/// otherwise those bound to the query as an address.
pub open spec fn listing(log: Seq<ActionRow>, query: Seq<char>) -> Seq<ActionRow> {
    sort_by(
        log.filter(
            current_bound(
                log,
                if query.len() == 0 {
                    None
                } else {
                    Some(query)
                },
            ),
        ),
        row_name_order(),
    )
}

/// A query that is no live name is answered with the asked-for page of a
/// listing, an entry for each row.
#[verifier::rlimit(40)]
pub proof fn law_other_queries_list(
    index: IndexView,
    query: Seq<char>,
    limit: Option<u64>,
    offset: Option<u64>,
    with_proof: Option<bool>,
)
    requires
        chained(index.actions),
        query.len() == 0 || (latest(index.actions, query) matches Some(row) ==> row.record.action
            == "release"@),
    ensures
        ({
            let rows = page(
                listing(index.actions, query),
                page_limit(limit) as nat,
                page_offset(offset) as nat,
            );
            resolved(index, query, limit, offset, with_proof) matches Ok(ResolveView::List(v)) && v.len()
                == rows.len() && forall|i: int|
                0 <= i < v.len() ==> tells_registration(#[trigger] v[i], rows[i])
        }),
{
    let log = index.actions;
    let all = listing(log, query);
    let rows = page(all, page_limit(limit) as nat, page_offset(offset) as nat);
    let ua = if query.len() == 0 {
        None
    } else {
        Some(query)
    };
    let p = |r: ActionRow| log.contains(r);
    assert forall|i: int| 0 <= i < log.len() implies p(#[trigger] log[i]) by {}
    lemma_filter_keeps(log, current_bound(log, ua), p);
    lemma_sort_keeps(log.filter(current_bound(log, ua)), row_name_order(), p);
    lemma_read_all(rows, read_registration());
    crate::order::law_page_is_a_window(all, page_limit(limit) as nat, page_offset(offset) as nat);
    assert forall|i: int| 0 <= i < rows.len() implies read_registration()(rows[i]) matches Ok(g)
        && tells_registration(rendered_entry()(g), #[trigger] rows[i]) by {
        assert(rows[i] == all[page_offset(offset) + i]);
        assert(p(all[page_offset(offset) + i]));
        let k = choose|k: int| 0 <= k < log.len() && log[k] == rows[i];
        lemma_entry_tells(log, k);
    }
    let regs = registrations_page(index, ua, page_limit(limit), page_offset(offset));
    assert(regs is Ok);
    assert(resolved(index, query, limit, offset, with_proof) == list_answer(regs));
}

/// Every row reads as an event, whose entry tells the row.
pub proof fn law_events_tell_their_rows(log: Seq<ActionRow>, k: int)
    requires
        chained(log),
        0 <= k < log.len(),
    ensures
        read_event()(log[k]) matches Ok(e) && tells_event(rendered_event()(e), log[k]),
{
    lemma_entry_tells(log, k);
}

/// A page has the size that is asked for, 50 if none is and 500 at most; it
/// starts where it is asked to, or at the start. What 32 bits do not hold is
/// taken as the greatest that they do.
pub proof fn law_pages_are_bounded(n: u64)
    ensures
        page_limit(None) == 50,
        page_limit(Some(n)) <= 500,
        n <= 500 ==> page_limit(Some(n)) == n,
        n > 500 ==> page_limit(Some(n)) == 500,
        page_offset(None) == 0,
        n <= u32::MAX ==> page_offset(Some(n)) == n && since_height_of(Some(n)) == Some(n as u32),
        n > u32::MAX ==> page_offset(Some(n)) == u32::MAX && since_height_of(Some(n)) == Some(u32::MAX),
        since_height_of(None) is None,
{
}

/// `c` is the letter `upper` or its lowercase form.
pub open spec fn is_letter(c: char, upper: char, lower: char) -> bool {
    c == upper || c == lower
}

/// A filter asks for an action exactly where it is the action's word, each
/// letter in either case.
pub proof fn law_filter_ignores_case(s: Seq<char>, a: Action)
    ensures
        asked_action(s) == Some(a) <==> s.len() == a.text().len() && forall|i: int|
            0 <= i < s.len() ==> is_letter(#[trigger] s[i], wire_name(a)[i], a.text()[i]),
{
    reveal_strlit("CLAIM");
    reveal_strlit("UPDATE");
    reveal_strlit("RELEASE");
    reveal_strlit("claim");
    reveal_strlit("update");
    reveal_strlit("release");
    let word = wire_name(a);
    let up = upper_text(s);
    assert("CLAIM"@.len() == 5 && "UPDATE"@.len() == 6 && "RELEASE"@.len() == 7);
    assert(word.len() == a.text().len());
    assert forall|i: int| 0 <= i < word.len() implies #[trigger] word[i] != a.text()[i] && upper(a.text()[i])
        == word[i] && 'A' <= word[i] <= 'Z' by {}
    if asked_action(s) == Some(a) {
        assert(up == word);
        assert forall|i: int| 0 <= i < s.len() implies is_letter(#[trigger] s[i], word[i], a.text()[i]) by {
            assert(up[i] == word[i]);
        }
    }
    if s.len() == word.len() && forall|i: int|
        0 <= i < s.len() ==> is_letter(#[trigger] s[i], word[i], a.text()[i]) {
        assert(up =~= word) by {
            assert forall|i: int| 0 <= i < up.len() implies up[i] == word[i] by {
                assert(is_letter(s[i], word[i], a.text()[i]));
            }
        }
    }
}

/// A request fails in two ways: on a row that does not read, which is never told,
/// and on a proof that was asked for and is not stored.
pub proof fn law_resolve_fails_in_two_ways(
    index: IndexView,
    query: Seq<char>,
    limit: Option<u64>,
    offset: Option<u64>,
    with_proof: Option<bool>,
)
    ensures
        resolved(index, query, limit, offset, with_proof) matches Err(e) ==> e == RpcFault::Internal || (e
            == RpcFault::ProofUnavailable && with_proof == Some(true) && query.len() > 0 && latest(
            index.actions,
            query,
        ) is Some),
        query.len() > 0 && (latest(index.actions, query) matches Some(row) && row.record.action
            != "release"@ && (row.record.txid.len() != 32 || action_of(row.record.action) is None))
            ==> resolved(index, query, limit, offset, with_proof) == Err::<ResolveView, RpcFault>(
            RpcFault::Internal,
        ),
{
    if let Ok(rows) = history(index, query) {
        law_links_need_all_material(index.proof_material, segment_of(rows));
    }
}

} // verus!
