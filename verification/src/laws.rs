//! The engine's laws, stated over the manager's transition functions and
//! proved once and for all: completion order does not matter for the
//! collection, a record never has two operations in flight, stray responses
//! are discarded, a confirmed create leaves exactly one new entry, failures
//! roll back exactly, and the pipeline is deterministic.

use vstd::prelude::*;

use crate::async_list::{
    apply_entries, avail_match, avail_task, entry_consumes, first_available, has_inflight_id,
    lemma_first_available, response_matched, spec_apply_response, spec_dispatch, spec_retry_offer,
    step_entry, step_seq, EntryView, IntentView, ListView, StorageOpView, StorageResultView,
};
use crate::pending::PendingView;
use crate::pipeline::spec_visible;
use crate::task::{Priority, Status, TaskView};

verus! {

/// A response addressed to one entry, not the fetch-all response.
pub open spec fn is_item_response(res: StorageResultView) -> bool {
    !(res is FetchedAll)
}

/// A response nothing consumes leaves the collection as it was.
pub proof fn lemma_apply_entries_id(s: Seq<EntryView>, rid: int, res: StorageResultView)
    requires
        forall|i: int| 0 <= i < s.len() ==> !#[trigger] entry_consumes(s[i], rid, res),
    ensures
        apply_entries(s, rid, res) == s,
    decreases s.len(),
{
    if s.len() == 0 {
        assert(apply_entries(s, rid, res) =~= s);
    } else {
        let tail = s.drop_first();
        assert(forall|i: int| 0 <= i < tail.len() ==> tail[i] == s[i + 1]);
        lemma_apply_entries_id(tail, rid, res);
        assert(!entry_consumes(s[0], rid, res));
        assert(apply_entries(s, rid, res) =~= s);
    }
}

/// A response applied to a single entry is that entry's step.
pub proof fn lemma_apply_entries_singleton(e: EntryView, rid: int, res: StorageResultView)
    ensures
        apply_entries(seq![e], rid, res) == step_seq(e, rid, res),
{
    assert(seq![e].drop_first() =~= Seq::<EntryView>::empty());
    assert(apply_entries(Seq::<EntryView>::empty(), rid, res) == Seq::<EntryView>::empty());
    assert(apply_entries(seq![e], rid, res) =~= step_seq(e, rid, res));
}

/// A response distributes over concatenation of collections.
pub proof fn lemma_apply_entries_concat(
    a: Seq<EntryView>,
    b: Seq<EntryView>,
    rid: int,
    res: StorageResultView,
)
    ensures
        apply_entries(a + b, rid, res) == apply_entries(a, rid, res) + apply_entries(b, rid, res),
    decreases a.len(),
{
    if a.len() == 0 {
        assert(a + b =~= b);
        assert(apply_entries(a, rid, res) + apply_entries(b, rid, res) =~= apply_entries(
            b,
            rid,
            res,
        ));
    } else {
        assert((a + b)[0] == a[0]);
        assert((a + b).drop_first() =~= a.drop_first() + b);
        lemma_apply_entries_concat(a.drop_first(), b, rid, res);
        assert(apply_entries(a + b, rid, res) == step_seq(a[0], rid, res) + apply_entries(
            a.drop_first() + b,
            rid,
            res,
        ));
        assert(apply_entries(a + b, rid, res) =~= apply_entries(a, rid, res) + apply_entries(
            b,
            rid,
            res,
        ));
    }
}

/// Two responses under different request identifiers commute on the
/// collection: each addresses its own entry and settles it to a state no
/// other response can touch.
pub proof fn lemma_apply_entries_commute(
    s: Seq<EntryView>,
    rid1: int,
    res1: StorageResultView,
    rid2: int,
    res2: StorageResultView,
)
    requires
        rid1 != rid2,
    ensures
        apply_entries(apply_entries(s, rid1, res1), rid2, res2) == apply_entries(
            apply_entries(s, rid2, res2),
            rid1,
            res1,
        ),
    decreases s.len(),
{
    if s.len() == 0 {
    } else {
        let e = s[0];
        let tail = s.drop_first();
        lemma_apply_entries_commute(tail, rid1, res1, rid2, res2);
        lemma_apply_entries_concat(
            step_seq(e, rid1, res1),
            apply_entries(tail, rid1, res1),
            rid2,
            res2,
        );
        lemma_apply_entries_concat(
            step_seq(e, rid2, res2),
            apply_entries(tail, rid2, res2),
            rid1,
            res1,
        );
        assert(apply_entries(step_seq(e, rid1, res1), rid2, res2) == apply_entries(
            step_seq(e, rid2, res2),
            rid1,
            res1,
        )) by {
            if entry_consumes(e, rid1, res1) {
                assert(!entry_consumes(e, rid2, res2));
                lemma_apply_entries_singleton(e, rid1, res1);
                match step_entry(e, rid1, res1) {
                    Some(e1) => {
                        assert(e1 is Available);
                        lemma_apply_entries_singleton(e1, rid2, res2);
                        assert(step_entry(e1, rid2, res2) == Some(e1));
                        assert(apply_entries(step_seq(e, rid1, res1), rid2, res2) =~= step_seq(
                            e,
                            rid1,
                            res1,
                        ));
                    },
                    None => {
                        assert(step_seq(e, rid1, res1) =~= Seq::<EntryView>::empty());
                    },
                }
            } else if entry_consumes(e, rid2, res2) {
                assert(!entry_consumes(e, rid1, res1));
                lemma_apply_entries_singleton(e, rid2, res2);
                match step_entry(e, rid2, res2) {
                    Some(e2) => {
                        assert(e2 is Available);
                        lemma_apply_entries_singleton(e2, rid1, res1);
                        assert(step_entry(e2, rid1, res1) == Some(e2));
                        assert(apply_entries(step_seq(e, rid2, res2), rid1, res1) =~= step_seq(
                            e,
                            rid2,
                            res2,
                        ));
                    },
                    None => {
                        assert(step_seq(e, rid2, res2) =~= Seq::<EntryView>::empty());
                    },
                }
            } else {
                assert(step_entry(e, rid1, res1) == Some(e));
                assert(step_entry(e, rid2, res2) == Some(e));
                lemma_apply_entries_singleton(e, rid2, res2);
                lemma_apply_entries_singleton(e, rid1, res1);
            }
        }
        assert(apply_entries(apply_entries(s, rid1, res1), rid2, res2) =~= apply_entries(
            apply_entries(s, rid2, res2),
            rid1,
            res1,
        ));
    }
}

/// A response leaves every other response's addressee in place: whether a
/// second response matches does not depend on whether the first was applied.
pub proof fn lemma_apply_preserves_match(
    s: Seq<EntryView>,
    rid1: int,
    res1: StorageResultView,
    rid2: int,
    res2: StorageResultView,
)
    requires
        rid1 != rid2,
    ensures
        response_matched(apply_entries(s, rid1, res1), rid2, res2) == response_matched(
            s,
            rid2,
            res2,
        ),
    decreases s.len(),
{
    if s.len() == 0 {
    } else {
        let e = s[0];
        let tail = s.drop_first();
        assert(forall|i: int| 0 <= i < tail.len() ==> tail[i] == s[i + 1]);
        lemma_apply_preserves_match(tail, rid1, res1, rid2, res2);
        let whole = apply_entries(s, rid1, res1);
        let head = step_seq(e, rid1, res1);
        let rest = apply_entries(tail, rid1, res1);
        assert(whole == head + rest);
        if response_matched(whole, rid2, res2) {
            let j = choose|j: int| 0 <= j < whole.len() && #[trigger] entry_consumes(
                whole[j],
                rid2,
                res2,
            );
            if j < head.len() {
                assert(whole[j] == head[j]);
                assert(head[j] == e);
                assert(entry_consumes(s[0], rid2, res2));
            } else {
                assert(whole[j] == rest[j - head.len()]);
                assert(response_matched(rest, rid2, res2));
                let m = choose|m: int| 0 <= m < tail.len() && #[trigger] entry_consumes(
                    tail[m],
                    rid2,
                    res2,
                );
                assert(entry_consumes(s[m + 1], rid2, res2));
            }
            assert(response_matched(s, rid2, res2));
        }
        if response_matched(s, rid2, res2) {
            let i = choose|i: int| 0 <= i < s.len() && #[trigger] entry_consumes(s[i], rid2, res2);
            if i == 0 {
                assert(!entry_consumes(e, rid1, res1));
                assert(step_entry(e, rid1, res1) == Some(e));
                assert(whole[0] == e);
                assert(entry_consumes(whole[0], rid2, res2));
            } else {
                assert(tail[i - 1] == s[i]);
                assert(entry_consumes(tail[i - 1], rid2, res2));
                assert(response_matched(tail, rid2, res2));
                assert(response_matched(rest, rid2, res2));
                let m = choose|m: int| 0 <= m < rest.len() && #[trigger] entry_consumes(
                    rest[m],
                    rid2,
                    res2,
                );
                assert(whole[m + head.len()] == rest[m]);
                assert(entry_consumes(whole[m + head.len()], rid2, res2));
            }
            assert(response_matched(whole, rid2, res2));
        }
    }
}

/// Reordering invariance, pairwise: two responses to different requests
/// leave the same collection whichever arrives first. The recorded last
/// error may differ — the later failure overwrites the earlier — but the
/// entries, and so the rendered collection, do not.
pub proof fn lemma_response_exchange(
    v: ListView,
    rid1: int,
    res1: StorageResultView,
    rid2: int,
    res2: StorageResultView,
)
    requires
        is_item_response(res1),
        is_item_response(res2),
        rid1 != rid2,
    ensures
        spec_apply_response(spec_apply_response(v, rid1, res1), rid2, res2).entries
            == spec_apply_response(spec_apply_response(v, rid2, res2), rid1, res1).entries,
{
    lemma_apply_preserves_match(v.entries, rid1, res1, rid2, res2);
    lemma_apply_preserves_match(v.entries, rid2, res2, rid1, res1);
    if response_matched(v.entries, rid1, res1) && response_matched(v.entries, rid2, res2) {
        lemma_apply_entries_commute(v.entries, rid1, res1, rid2, res2);
    }
}

/// A response with exactly one addressee steps that entry and keeps the rest.
pub proof fn lemma_apply_entries_at(s: Seq<EntryView>, i: int, rid: int, res: StorageResultView)
    requires
        0 <= i < s.len(),
        entry_consumes(s[i], rid, res),
        forall|j: int| 0 <= j < s.len() && j != i ==> !#[trigger] entry_consumes(s[j], rid, res),
    ensures
        apply_entries(s, rid, res) == s.subrange(0, i) + step_seq(s[i], rid, res) + s.subrange(
            i + 1,
            s.len() as int,
        ),
    decreases s.len(),
{
    let tail = s.drop_first();
    assert(forall|j: int| 0 <= j < tail.len() ==> tail[j] == s[j + 1]);
    if i == 0 {
        lemma_apply_entries_id(tail, rid, res);
        assert(apply_entries(s, rid, res) == step_seq(s[0], rid, res) + tail);
        assert(apply_entries(s, rid, res) =~= s.subrange(0, 0) + step_seq(s[0], rid, res)
            + s.subrange(1, s.len() as int));
    } else {
        assert(!entry_consumes(s[0], rid, res));
        assert(step_entry(s[0], rid, res) == Some(s[0]));
        lemma_apply_entries_at(tail, i - 1, rid, res);
        assert(apply_entries(s, rid, res) == seq![s[0]] + (tail.subrange(0, i - 1) + step_seq(
            tail[i - 1],
            rid,
            res,
        ) + tail.subrange(i, tail.len() as int)));
        assert(apply_entries(s, rid, res) =~= s.subrange(0, i) + step_seq(s[i], rid, res)
            + s.subrange(i + 1, s.len() as int));
    }
}

/// No record ever has two simultaneously in-flight operations: a second
/// update or delete intent on a record whose operation is still in flight is
/// rejected — nothing is dispatched and the manager does not change.
pub proof fn lemma_pending_intent_rejected(
    v: ListView,
    id: int,
    out: (Seq<char>, Status, Priority),
)
    requires
        has_inflight_id(v.entries, id),
    ensures
        spec_dispatch(v, IntentView::Update(id, out)) == (
            v,
            None::<PendingView<StorageOpView>>,
        ),
        spec_dispatch(v, IntentView::Delete(id)) == (v, None::<PendingView<StorageOpView>>),
{
}

/// A response whose request identifier matches no current pending entry is
/// discarded: it alters neither the collection nor the error state, and no
/// retry is offered.
pub proof fn lemma_unmatched_response_discarded(v: ListView, rid: int, res: StorageResultView)
    requires
        res is FetchedAll ==> v.pending_fetch != Some(rid),
        is_item_response(res) ==> !response_matched(v.entries, rid, res),
    ensures
        spec_apply_response(v, rid, res) == v,
        spec_retry_offer(v, rid, res) is None,
{
}

/// Round trip: a create intent followed by its success response yields the
/// prior collection with exactly one new `Available` entry holding the
/// server-assigned item. No provisional entry remains and no error is
/// recorded.
pub proof fn lemma_create_round_trip(v: ListView, description: Seq<char>, task: TaskView)
    requires
        v.wf(),
        v.next_request_id < u64::MAX,
    ensures
        ({
            let (v1, call) = spec_dispatch(v, IntentView::Create(description));
            let rid = v.next_request_id;
            let v2 = spec_apply_response(v1, rid, StorageResultView::Created(Ok(task)));
            &&& call == Some(
                PendingView { request_id: rid, data: StorageOpView::Create(description) },
            )
            &&& v2.entries == v.entries.push(EntryView::Available(task))
            &&& v2.last_error == v.last_error
            &&& spec_retry_offer(v1, rid, StorageResultView::Created(Ok(task))) is None
        }),
{
    let rid = v.next_request_id;
    let res = StorageResultView::Created(Ok::<TaskView, Seq<char>>(task));
    let s1 = v.entries.push(EntryView::PendingCreate(rid, description));
    let n = s1.len() - 1;
    assert(s1[n] == EntryView::PendingCreate(rid, description));
    assert(entry_consumes(s1[n], rid, res));
    assert(response_matched(s1, rid, res));
    assert forall|j: int| 0 <= j < s1.len() && j != n implies !#[trigger] entry_consumes(
        s1[j],
        rid,
        res,
    ) by {
        assert(s1[j] == v.entries[j]);
        assert(v.entries[j].rid() matches Some(r) ==> r < rid);
    }
    lemma_apply_entries_at(s1, n, rid, res);
    assert(step_seq(s1[n], rid, res) =~= seq![EntryView::Available(task)]);
    assert(apply_entries(s1, rid, res) =~= v.entries.push(EntryView::Available(task)));
}

/// Failure rollback: an update dispatched on an `Available` entry and
/// answered by a terminal failure restores that entry exactly, and the
/// classified error becomes the list's single last error.
pub proof fn lemma_update_failure_rollback(
    v: ListView,
    id: int,
    out: (Seq<char>, Status, Priority),
    message: Seq<char>,
)
    requires
        v.wf(),
        v.next_request_id < u64::MAX,
        !has_inflight_id(v.entries, id),
        first_available(v.entries, id) >= 0,
    ensures
        ({
            let (v1, call) = spec_dispatch(v, IntentView::Update(id, out));
            let rid = v.next_request_id;
            let res = StorageResultView::Updated(Err(message));
            let v2 = spec_apply_response(v1, rid, res);
            &&& call == Some(PendingView { request_id: rid, data: StorageOpView::Update(id, out) })
            &&& v2.entries == v.entries
            &&& v2.last_error == Some(message)
            &&& spec_retry_offer(v1, rid, res) is None
        }),
{
    let rid = v.next_request_id;
    let res = StorageResultView::Updated(Err::<TaskView, Seq<char>>(message));
    let i = first_available(v.entries, id);
    lemma_first_available(v.entries, id);
    let prior = avail_task(v.entries[i]);
    assert(v.entries[i] == EntryView::Available(prior));
    let s1 = v.entries.update(i, EntryView::PendingUpdate(rid, prior));
    assert(entry_consumes(s1[i], rid, res));
    assert(response_matched(s1, rid, res));
    assert forall|j: int| 0 <= j < s1.len() && j != i implies !#[trigger] entry_consumes(
        s1[j],
        rid,
        res,
    ) by {
        assert(s1[j] == v.entries[j]);
        assert(v.entries[j].rid() matches Some(r) ==> r < rid);
    }
    lemma_apply_entries_at(s1, i, rid, res);
    assert(step_seq(s1[i], rid, res) =~= seq![EntryView::Available(prior)]);
    assert(apply_entries(s1, rid, res) =~= v.entries);
}

/// Whether the record `id` appears in the entry — settled, or as the target
/// of an in-flight update or delete.
pub open spec fn entry_has_id(e: EntryView, id: int) -> bool {
    avail_match(e, id) || e.inflight_id() == Some(id)
}

/// A confirmed delete removes the entry from the collection; when the record
/// had only that entry, no entry for it remains anywhere.
pub proof fn lemma_delete_success_removes(v: ListView, id: int)
    requires
        v.wf(),
        v.next_request_id < u64::MAX,
        !has_inflight_id(v.entries, id),
        first_available(v.entries, id) >= 0,
    ensures
        ({
            let (v1, call) = spec_dispatch(v, IntentView::Delete(id));
            let rid = v.next_request_id;
            let i = first_available(v.entries, id);
            let v2 = spec_apply_response(v1, rid, StorageResultView::Deleted(Ok(id)));
            &&& call == Some(PendingView { request_id: rid, data: StorageOpView::Delete(id) })
            &&& v2.entries == v.entries.subrange(0, i) + v.entries.subrange(
                i + 1,
                v.entries.len() as int,
            )
            &&& v2.last_error == v.last_error
            &&& (forall|j: int|
                0 <= j < v.entries.len() && j != i ==> !#[trigger] entry_has_id(v.entries[j], id))
                ==> (forall|j: int|
                0 <= j < v2.entries.len() ==> !#[trigger] entry_has_id(v2.entries[j], id))
        }),
{
    let rid = v.next_request_id;
    let res = StorageResultView::Deleted(Ok::<int, Seq<char>>(id));
    let i = first_available(v.entries, id);
    lemma_first_available(v.entries, id);
    let prior = avail_task(v.entries[i]);
    assert(v.entries[i] == EntryView::Available(prior));
    let s1 = v.entries.update(i, EntryView::PendingDelete(rid, prior));
    assert(entry_consumes(s1[i], rid, res));
    assert(response_matched(s1, rid, res));
    assert forall|j: int| 0 <= j < s1.len() && j != i implies !#[trigger] entry_consumes(
        s1[j],
        rid,
        res,
    ) by {
        assert(s1[j] == v.entries[j]);
        assert(v.entries[j].rid() matches Some(r) ==> r < rid);
    }
    lemma_apply_entries_at(s1, i, rid, res);
    assert(step_seq(s1[i], rid, res) =~= Seq::<EntryView>::empty());
    let cut = v.entries.subrange(0, i) + v.entries.subrange(i + 1, v.entries.len() as int);
    assert(apply_entries(s1, rid, res) =~= cut);
    if forall|j: int|
        0 <= j < v.entries.len() && j != i ==> !#[trigger] entry_has_id(v.entries[j], id) {
        assert forall|j: int| 0 <= j < cut.len() implies !#[trigger] entry_has_id(
            cut[j],
            id,
        ) by {
            if j < i {
                assert(cut[j] == v.entries[j]);
            } else {
                assert(cut[j] == v.entries[j + 1]);
            }
        }
    }
}

/// A delete answered by a terminal failure restores the entry unchanged and
/// records the classified error.
pub proof fn lemma_delete_failure_rollback(v: ListView, id: int, message: Seq<char>)
    requires
        v.wf(),
        v.next_request_id < u64::MAX,
        !has_inflight_id(v.entries, id),
        first_available(v.entries, id) >= 0,
    ensures
        ({
            let (v1, call) = spec_dispatch(v, IntentView::Delete(id));
            let rid = v.next_request_id;
            let res = StorageResultView::Deleted(Err(message));
            let v2 = spec_apply_response(v1, rid, res);
            &&& call == Some(PendingView { request_id: rid, data: StorageOpView::Delete(id) })
            &&& v2.entries == v.entries
            &&& v2.last_error == Some(message)
            &&& spec_retry_offer(v1, rid, res) is None
        }),
{
    let rid = v.next_request_id;
    let res = StorageResultView::Deleted(Err::<int, Seq<char>>(message));
    let i = first_available(v.entries, id);
    lemma_first_available(v.entries, id);
    let prior = avail_task(v.entries[i]);
    assert(v.entries[i] == EntryView::Available(prior));
    let s1 = v.entries.update(i, EntryView::PendingDelete(rid, prior));
    assert(entry_consumes(s1[i], rid, res));
    assert(response_matched(s1, rid, res));
    assert forall|j: int| 0 <= j < s1.len() && j != i implies !#[trigger] entry_consumes(
        s1[j],
        rid,
        res,
    ) by {
        assert(s1[j] == v.entries[j]);
        assert(v.entries[j].rid() matches Some(r) ==> r < rid);
    }
    lemma_apply_entries_at(s1, i, rid, res);
    assert(step_seq(s1[i], rid, res) =~= seq![EntryView::Available(prior)]);
    assert(apply_entries(s1, rid, res) =~= v.entries);
}

/// Filter-and-sort stability: the pipeline is a pure function of the
/// collection and the toggles, so re-running it on unchanged input yields
/// the identical ordered sequence.
pub proof fn lemma_pipeline_deterministic(v1: ListView, v2: ListView)
    requires
        v1.entries == v2.entries,
        v1.filter == v2.filter,
        v1.sorter == v2.sorter,
    ensures
        spec_visible(v1) == spec_visible(v2),
{
}


/// A completion sequence of responses, applied in order.
pub open spec fn apply_responses(v: ListView, rs: Seq<PendingView<StorageResultView>>) -> ListView
    decreases rs.len(),
{
    if rs.len() == 0 {
        v
    } else {
        apply_responses(spec_apply_response(v, rs[0].request_id, rs[0].data), rs.drop_first())
    }
}

/// Whether every response of the sequence addresses one entry.
pub open spec fn all_item_responses(rs: Seq<PendingView<StorageResultView>>) -> bool {
    forall|i: int| 0 <= i < rs.len() ==> is_item_response(#[trigger] rs[i].data)
}

/// Item responses read and write only the entry collection: two managers
/// with equal collections end with equal collections under one completion
/// sequence.
pub proof fn lemma_apply_responses_entries(
    v1: ListView,
    v2: ListView,
    rs: Seq<PendingView<StorageResultView>>,
)
    requires
        v1.entries == v2.entries,
        all_item_responses(rs),
    ensures
        apply_responses(v1, rs).entries == apply_responses(v2, rs).entries,
    decreases rs.len(),
{
    if rs.len() > 0 {
        assert(is_item_response(rs[0].data));
        let a1 = spec_apply_response(v1, rs[0].request_id, rs[0].data);
        let a2 = spec_apply_response(v2, rs[0].request_id, rs[0].data);
        assert(a1.entries == a2.entries);
        let tail = rs.drop_first();
        assert(forall|i: int| 0 <= i < tail.len() ==> tail[i] == rs[i + 1]);
        lemma_apply_responses_entries(a1, a2, tail);
    }
}

/// Reordering invariance: exchanging two adjacent responses to different
/// requests in a completion sequence leaves the final collection unchanged.
/// Every reordering of a completion sequence of responses to pairwise
/// distinct requests is a chain of such exchanges, so the final collection
/// does not depend on completion order.
pub proof fn lemma_completion_order_exchange(
    v: ListView,
    rs: Seq<PendingView<StorageResultView>>,
    k: int,
)
    requires
        all_item_responses(rs),
        0 <= k < rs.len() - 1,
        rs[k].request_id != rs[k + 1].request_id,
    ensures
        apply_responses(v, rs).entries == apply_responses(
            v,
            rs.update(k, rs[k + 1]).update(k + 1, rs[k]),
        ).entries,
    decreases k,
{
    let sw = rs.update(k, rs[k + 1]).update(k + 1, rs[k]);
    assert(sw.len() == rs.len());
    if k == 0 {
        lemma_response_exchange(
            v,
            rs[0].request_id,
            rs[0].data,
            rs[1].request_id,
            rs[1].data,
        );
        let a = spec_apply_response(
            spec_apply_response(v, rs[0].request_id, rs[0].data),
            rs[1].request_id,
            rs[1].data,
        );
        let b = spec_apply_response(
            spec_apply_response(v, rs[1].request_id, rs[1].data),
            rs[0].request_id,
            rs[0].data,
        );
        assert(a.entries == b.entries);
        assert(sw[0] == rs[1]);
        assert(sw[1] == rs[0]);
        assert(rs.drop_first()[0] == rs[1]);
        assert(sw.drop_first()[0] == rs[0]);
        let tail2 = rs.drop_first().drop_first();
        assert(sw.drop_first().drop_first() =~= tail2);
        assert(forall|i: int| 0 <= i < tail2.len() ==> tail2[i] == rs[i + 2]);
        assert(all_item_responses(tail2));
        let m1 = spec_apply_response(v, rs[0].request_id, rs[0].data);
        assert(apply_responses(v, rs) == apply_responses(m1, rs.drop_first()));
        assert(apply_responses(m1, rs.drop_first()) == apply_responses(a, tail2));
        let w1 = spec_apply_response(v, sw[0].request_id, sw[0].data);
        assert(apply_responses(v, sw) == apply_responses(w1, sw.drop_first()));
        assert(apply_responses(w1, sw.drop_first()) == apply_responses(
            b,
            sw.drop_first().drop_first(),
        ));
        lemma_apply_responses_entries(a, b, tail2);
    } else {
        let a1 = spec_apply_response(v, rs[0].request_id, rs[0].data);
        assert(sw[0] == rs[0]);
        let tail = rs.drop_first();
        assert(forall|i: int| 0 <= i < tail.len() ==> tail[i] == rs[i + 1]);
        assert(all_item_responses(tail));
        assert(sw.drop_first() =~= tail.update(k - 1, tail[k]).update(k, tail[k - 1]));
        lemma_completion_order_exchange(a1, tail, k - 1);
        assert(apply_responses(v, rs) == apply_responses(a1, tail));
        assert(apply_responses(v, sw) == apply_responses(a1, sw.drop_first()));
    }
}


/// Whether the responses of the sequence answer pairwise distinct requests.
pub open spec fn distinct_request_ids(rs: Seq<PendingView<StorageResultView>>) -> bool {
    forall|i: int, j: int|
        #![trigger rs[i].request_id, rs[j].request_id]
        0 <= i < j < rs.len() ==> rs[i].request_id != rs[j].request_id
}

/// Pulling one response to the front of the completion sequence does not
/// change the final collection.
pub proof fn lemma_pull_response_front(
    v: ListView,
    rs: Seq<PendingView<StorageResultView>>,
    k: int,
)
    requires
        all_item_responses(rs),
        distinct_request_ids(rs),
        0 <= k < rs.len(),
    ensures
        apply_responses(v, rs).entries == apply_responses(v, seq![rs[k]] + rs.remove(k)).entries,
    decreases k,
{
    if k == 0 {
        assert(seq![rs[0]] + rs.remove(0) =~= rs);
    } else {
        lemma_completion_order_exchange(v, rs, k - 1);
        let sw = rs.update(k - 1, rs[k]).update(k, rs[k - 1]);
        assert(all_item_responses(sw)) by {
            assert forall|i: int| 0 <= i < sw.len() implies is_item_response(
                #[trigger] sw[i].data,
            ) by {
                if i == k - 1 {
                    assert(sw[i] == rs[k]);
                } else if i == k {
                    assert(sw[i] == rs[k - 1]);
                } else {
                    assert(sw[i] == rs[i]);
                }
            }
        }
        assert(distinct_request_ids(sw)) by {
            assert forall|i: int, j: int|
                0 <= i < j < sw.len() implies #[trigger] sw[i].request_id
                != #[trigger] sw[j].request_id by {
                let a: int = if i == k - 1 {
                    k
                } else if i == k {
                    k - 1
                } else {
                    i
                };
                let b: int = if j == k - 1 {
                    k
                } else if j == k {
                    k - 1
                } else {
                    j
                };
                assert(sw[i] == rs[a]);
                assert(sw[j] == rs[b]);
                assert(rs[a].request_id != rs[b].request_id);
            }
        }
        lemma_pull_response_front(v, sw, k - 1);
        assert(sw[k - 1] == rs[k]);
        assert(seq![sw[k - 1]] + sw.remove(k - 1) =~= seq![rs[k]] + rs.remove(k));
    }
}

/// Reordering invariance in full: two completion sequences made of the same
/// responses — each answering a distinct request — end in the same
/// collection, whatever the completion order.
pub proof fn lemma_completion_order_irrelevant(
    v: ListView,
    rs1: Seq<PendingView<StorageResultView>>,
    rs2: Seq<PendingView<StorageResultView>>,
)
    requires
        all_item_responses(rs1),
        distinct_request_ids(rs1),
        rs1.to_multiset() == rs2.to_multiset(),
    ensures
        apply_responses(v, rs1).entries == apply_responses(v, rs2).entries,
    decreases rs1.len(),
{
    broadcast use vstd::seq_lib::group_to_multiset_ensures;
    broadcast use vstd::multiset::group_multiset_axioms;

    if rs1.len() == 0 {
        assert(rs2.to_multiset().len() == 0);
        assert(rs2.len() == 0);
    } else {
        assert(rs2.to_multiset().len() == rs2.len());
        assert(rs2.len() > 0);
        let x = rs2[0];
        assert(rs2.contains(x));
        assert(rs1.to_multiset().count(x) > 0);
        assert(rs1.contains(x));
        let k = choose|k: int| 0 <= k < rs1.len() && rs1[k] == x;
        lemma_pull_response_front(v, rs1, k);
        let rest1 = rs1.remove(k);
        let a = spec_apply_response(v, x.request_id, x.data);
        assert((seq![x] + rest1)[0] == x);
        assert((seq![x] + rest1).drop_first() =~= rest1);
        assert(apply_responses(v, seq![x] + rest1) == apply_responses(a, rest1));
        assert(apply_responses(v, rs2) == apply_responses(a, rs2.drop_first()));
        assert(rest1.to_multiset() =~= rs1.to_multiset().remove(x));
        assert(rs2.drop_first() =~= rs2.remove(0));
        assert(rs2.drop_first().to_multiset() =~= rs2.to_multiset().remove(x));
        assert(all_item_responses(rest1)) by {
            assert forall|i: int| 0 <= i < rest1.len() implies is_item_response(
                #[trigger] rest1[i].data,
            ) by {
                if i < k {
                    assert(rest1[i] == rs1[i]);
                } else {
                    assert(rest1[i] == rs1[i + 1]);
                }
            }
        }
        assert(distinct_request_ids(rest1)) by {
            assert forall|i: int, j: int|
                0 <= i < j < rest1.len() implies #[trigger] rest1[i].request_id
                != #[trigger] rest1[j].request_id by {
                let a1: int = if i < k {
                    i
                } else {
                    i + 1
                };
                let b1: int = if j < k {
                    j
                } else {
                    j + 1
                };
                assert(rest1[i] == rs1[a1]);
                assert(rest1[j] == rs1[b1]);
                assert(rs1[a1].request_id != rs1[b1].request_id);
            }
        }
        lemma_completion_order_irrelevant(a, rest1, rs2.drop_first());
    }
}

} // verus!
